//! Which certificates are managed, and when each of them is asked for.
use crate::acme::dns01::{self, Dns01Solver};
use crate::acme::order;
use crate::acme::store::{self, CertificateId, StoredCertificate};
use crate::acme::AcmeError;
use crate::config::internal::{
    AcmeConfig, ChallengeKind, Config, Duration, FileServerConfig, ListenerConfig, ListenerKind,
    ProxyConfig, RenewalPolicy,
};
use crate::lists;
use crate::text;
use crate::tls::backend::{self, Verdict};
use crate::tls::store::{self as names, CertStore, Certificate, ServedName};
use std::sync::Arc;
use vstd::prelude::*;

verus! {

/// How often it is checked whether anything is due for renewal, in seconds.
pub const RENEWAL_CHECK_INTERVAL: u64 = 3600;

/// How long to wait before trying again after a failure, in seconds.
/// Certificate authorities limit the rate of failures.
pub const RETRY_BACKOFF: u64 = 900;

/// One certificate that is managed.
#[derive(Debug)]
pub struct ManagedCertificate {
    pub id: CertificateId,
    pub domains: Vec<ServedName>,
}

/// A set of names.
pub type NameSet = Seq<(bool, Seq<char>)>;

/// A managed certificate as its identifier and its names.
pub open spec fn managed_view(m: ManagedCertificate) -> (Seq<char>, NameSet) {
    (m.id@, names::name_views(m.domains@))
}

/// Managed certificates as their identifiers and their names.
pub open spec fn managed_views(list: Seq<ManagedCertificate>) -> Seq<(Seq<char>, NameSet)> {
    list.map_values(|m: ManagedCertificate| managed_view(m))
}

/// A list in the order of the identifiers, with one more set of names. A set
/// whose identifier is in the list already changes nothing.
pub open spec fn entered(list: Seq<(Seq<char>, NameSet)>, set: NameSet) -> Seq<
    (Seq<char>, NameSet),
>
    decreases list.len(),
{
    let id = store::id_of(set);
    if list.len() == 0 || text::before(list.last().0, id) {
        list.push((id, set))
    } else if list.last().0 == id {
        list
    } else {
        entered(list.drop_last(), set).push(list.last())
    }
}

/// The certificates that sets of names come to: one for each identifier, in the
/// order of the identifiers. A set without names comes to none.
pub open spec fn grouped(sets: Seq<NameSet>) -> Seq<(Seq<char>, NameSet)>
    decreases sets.len(),
{
    if sets.len() == 0 {
        Seq::empty()
    } else {
        let front = grouped(sets.drop_last());
        if sets.last().len() == 0 {
            front
        } else {
            entered(front, sets.last())
        }
    }
}

/// Sets of names.
pub open spec fn set_views(sets: Seq<Vec<ServedName>>) -> Seq<NameSet> {
    sets.map_values(|s: Vec<ServedName>| names::name_views(s@))
}

proof fn lemma_entered_at(list: Seq<(Seq<char>, NameSet)>, set: NameSet, at: int)
    requires
        0 <= at <= list.len(),
        forall|k: int|
            at <= k < list.len() ==> text::before(store::id_of(set), (#[trigger] list[k]).0),
        at > 0 ==> !text::before(store::id_of(set), list[at - 1].0),
    ensures
        entered(list, set) == if at > 0 && list[at - 1].0 == store::id_of(set) {
            list
        } else {
            list.insert(at, (store::id_of(set), set))
        },
    decreases list.len(),
{
    let id = store::id_of(set);
    if at == list.len() {
        if at > 0 {
            text::before_is_strict(list.last().0, id);
        }
        assert(list.insert(at, (id, set)) == list.push((id, set)));
    } else {
        assert(text::before(id, list[list.len() - 1].0));
        text::before_is_strict(list.last().0, id);
        lemma_entered_at(list.drop_last(), set, at);
        assert(list.insert(at, (id, set)) == list.drop_last().insert(at, (id, set)).push(
            list.last(),
        ));
        assert(list.drop_last().push(list.last()) == list);
    }
}

/// Groups sets of names into certificates: one for each distinct set, so that
/// two listeners that ask for the same names share one certificate.
pub fn group(domain_sets: Vec<Vec<ServedName>>) -> (r: Vec<ManagedCertificate>)
    ensures
        managed_views(r@) == grouped(set_views(domain_sets@)),
{
    let mut rest = domain_sets;
    let mut list: Vec<ManagedCertificate> = Vec::new();
    let ghost sets = set_views(domain_sets@);
    let ghost mut done: int = 0;
    assert(managed_views(list@) == Seq::<(Seq<char>, NameSet)>::empty());
    while rest.len() > 0
        invariant
            0 <= done <= domain_sets@.len(),
            rest@ == domain_sets@.skip(done),
            sets == set_views(domain_sets@),
            managed_views(list@) == grouped(sets.take(done)),
        decreases rest@.len(),
    {
        let domains = rest.remove(0);
        let ghost set = names::name_views(domains@);
        assert(domains == domain_sets@[done]);
        assert(sets.take(done + 1).drop_last() == sets.take(done));
        assert(sets.take(done + 1).last() == set);
        if domains.len() > 0 {
            let id = CertificateId::for_domains(domains.as_slice());
            let mut at: usize = list.len();
            while at > 0 && text::is_before(id.as_str(), list[at - 1].id.as_str())
                invariant
                    at <= list@.len(),
                    id@ == store::id_of(set),
                    forall|k: int|
                        at <= k < list@.len() ==> text::before(
                            store::id_of(set),
                            (#[trigger] managed_views(list@)[k]).0,
                        ),
                decreases at,
            {
                assert(managed_views(list@)[at - 1].0 == list@[at - 1].id@);
                at = at - 1;
            }
            proof {
                if at > 0 {
                    assert(managed_views(list@)[at - 1].0 == list@[at - 1].id@);
                }
                lemma_entered_at(managed_views(list@), set, at as int);
            }
            let known = at > 0 && text::same_text(list[at - 1].id.as_str(), id.as_str());
            if !known {
                let ghost before = list@;
                let managed = ManagedCertificate { id, domains };
                list.insert(at, managed);
                assert(managed_views(list@) == managed_views(before).insert(
                    at as int,
                    managed_view(managed),
                ));
            }
        }
        proof {
            done = done + 1;
        }
        assert(rest@ == domain_sets@.skip(done));
    }
    assert(sets.take(done) == sets);
    list
}

proof fn lemma_entered_keeps(list: Seq<(Seq<char>, NameSet)>, set: NameSet)
    requires
        text::increasing(ids(list)),
    ensures
        text::increasing(ids(entered(list, set))),
        forall|t: Seq<char>| #[trigger]
            ids(entered(list, set)).contains(t) <==> ids(list).contains(t) || t == store::id_of(
                set,
            ),
    decreases list.len(),
{
    let id = store::id_of(set);
    let result = entered(list, set);
    if list.len() == 0 || text::before(list.last().0, id) {
        assert(ids(result) == ids(list).push(id));
        assert forall|i: int, j: int| 0 <= i < j < ids(result).len() implies text::before(
            #[trigger] ids(result)[i],
            #[trigger] ids(result)[j],
        ) by {
            if j == list.len() && i < list.len() - 1 {
                assert(text::before(ids(list)[i], ids(list)[list.len() - 1]));
                text::before_is_transitive(ids(list)[i], ids(list)[list.len() - 1], id);
            }
        }
        assert forall|t: Seq<char>| #[trigger] ids(result).contains(t) <==> ids(list).contains(t)
            || t == id by {
            if ids(list).contains(t) {
                assert(ids(result)[ids(list).index_of(t)] == t);
            }
            if t == id {
                assert(ids(result)[list.len() as int] == t);
            }
        }
    } else if list.last().0 == id {
        assert(ids(list)[list.len() - 1] == id);
    } else {
        let front = list.drop_last();
        let last = list.last();
        text::before_is_strict(last.0, id);
        assert(ids(front) == ids(list).drop_last());
        lemma_entered_keeps(front, set);
        let inner = entered(front, set);
        assert(ids(result) == ids(inner).push(last.0));
        assert forall|t: Seq<char>| ids(inner).contains(t) implies text::before(t, last.0) by {
            if t != id {
                let k = ids(front).index_of(t);
                assert(ids(front).contains(t));
                assert(text::before(ids(list)[k], ids(list)[list.len() - 1]));
            }
        }
        assert forall|i: int, j: int| 0 <= i < j < ids(result).len() implies text::before(
            #[trigger] ids(result)[i],
            #[trigger] ids(result)[j],
        ) by {
            if j == inner.len() {
                assert(ids(inner).contains(ids(inner)[i]));
            } else {
                assert(ids(result)[i] == ids(inner)[i] && ids(result)[j] == ids(inner)[j]);
            }
        }
        assert forall|t: Seq<char>| #[trigger] ids(result).contains(t) <==> ids(list).contains(t)
            || t == id by {
            if ids(result).contains(t) {
                let k = ids(result).index_of(t);
                if k < inner.len() {
                    assert(ids(inner)[k] == t);
                    assert(ids(inner).contains(t));
                    if t != id {
                        assert(ids(list)[ids(front).index_of(t)] == t);
                    }
                } else {
                    assert(ids(list)[list.len() - 1] == t);
                }
            }
            if ids(list).contains(t) {
                let k = ids(list).index_of(t);
                if k < front.len() {
                    assert(ids(front)[k] == t);
                    assert(ids(inner).contains(t));
                    assert(ids(result)[ids(inner).index_of(t)] == t);
                } else {
                    assert(ids(result)[inner.len() as int] == t);
                }
            }
            if t == id {
                assert(ids(inner).contains(t));
                assert(ids(result)[ids(inner).index_of(t)] == t);
            }
        }
    }
}

/// The identifiers of a list.
pub open spec fn ids(list: Seq<(Seq<char>, NameSet)>) -> Seq<Seq<char>> {
    list.map_values(|m: (Seq<char>, NameSet)| m.0)
}

/// No two certificates have one identifier, and there is a certificate for each
/// set that has names in it, and for nothing else.
pub proof fn each_set_has_one_certificate(sets: Seq<NameSet>)
    ensures
        text::increasing(ids(grouped(sets))),
        forall|t: Seq<char>| #[trigger]
            ids(grouped(sets)).contains(t) <==> exists|i: int|
                0 <= i < sets.len() && (#[trigger] sets[i]).len() > 0 && store::id_of(sets[i])
                    == t,
    decreases sets.len(),
{
    if sets.len() > 0 {
        let front = sets.drop_last();
        let last = sets.last();
        each_set_has_one_certificate(front);
        if last.len() > 0 {
            lemma_entered_keeps(grouped(front), last);
        }
        assert forall|t: Seq<char>| #[trigger] ids(grouped(sets)).contains(t) <==> exists|i: int|
            0 <= i < sets.len() && (#[trigger] sets[i]).len() > 0 && store::id_of(sets[i]) == t by {
            if ids(grouped(front)).contains(t) {
                let i = choose|i: int|
                    0 <= i < front.len() && (#[trigger] front[i]).len() > 0 && store::id_of(
                        front[i],
                    ) == t;
                assert(sets[i].len() > 0 && store::id_of(sets[i]) == t);
            }
            if last.len() > 0 && store::id_of(last) == t {
                assert(sets[sets.len() - 1].len() > 0);
            }
            if exists|i: int|
                0 <= i < sets.len() && (#[trigger] sets[i]).len() > 0 && store::id_of(sets[i])
                    == t {
                let i = choose|i: int|
                    0 <= i < sets.len() && (#[trigger] sets[i]).len() > 0 && store::id_of(sets[i])
                        == t;
                if i < front.len() {
                    assert(front[i].len() > 0 && store::id_of(front[i]) == t);
                    assert(ids(grouped(front)).contains(t));
                }
            }
        }
    } else {
        assert(ids(grouped(sets)) == Seq::<Seq<char>>::empty());
    }
}

/// The names that a listener has managed certificates for, as far as they are
/// names.
pub open spec fn names_among(domains: Seq<Seq<char>>) -> NameSet
    decreases domains.len(),
{
    if domains.len() == 0 {
        Seq::empty()
    } else {
        let front = names_among(domains.drop_last());
        match names::served(domains.last()) {
            Some(n) => front.push(n),
            None => front,
        }
    }
}

/// The set of names that a listener asks for, if it asks for any.
pub open spec fn wanted_by(l: ListenerConfig) -> Option<NameSet> {
    match l.source {
        ListenerKind::Tcp { tls: Some(tls), .. } => if tls.acme_domains@.len() == 0 {
            None
        } else {
            Some(names_among(text::texts(tls.acme_domains@)))
        },
        _ => None,
    }
}

/// The sets of names that listeners ask for, in order.
pub open spec fn wanted_by_all(listeners: Seq<ListenerConfig>) -> Seq<NameSet>
    decreases listeners.len(),
{
    if listeners.len() == 0 {
        Seq::empty()
    } else {
        let front = wanted_by_all(listeners.drop_last());
        match wanted_by(listeners.last()) {
            Some(set) => front.push(set),
            None => front,
        }
    }
}

/// The sets of names that the listeners of proxies ask for.
pub open spec fn proxy_sets(proxies: Seq<ProxyConfig>) -> Seq<NameSet>
    decreases proxies.len(),
{
    if proxies.len() == 0 {
        Seq::empty()
    } else {
        proxy_sets(proxies.drop_last()) + wanted_by_all(proxies.last().listeners@)
    }
}

/// The sets of names that the listeners of file servers ask for.
pub open spec fn file_server_sets(servers: Seq<FileServerConfig>) -> Seq<NameSet>
    decreases servers.len(),
{
    if servers.len() == 0 {
        Seq::empty()
    } else {
        file_server_sets(servers.drop_last()) + wanted_by_all(servers.last().listeners@)
    }
}

fn read_names(domains: &[String]) -> (r: Vec<ServedName>)
    ensures
        names::name_views(r@) == names_among(text::texts(domains@)),
{
    let mut out: Vec<ServedName> = Vec::new();
    let ghost all = text::texts(domains@);
    let mut i: usize = 0;
    assert(names::name_views(out@) == Seq::<(bool, Seq<char>)>::empty());
    while i < domains.len()
        invariant
            i <= domains@.len(),
            all == text::texts(domains@),
            names::name_views(out@) == names_among(all.take(i as int)),
        decreases domains@.len() - i,
    {
        let ghost before = out@;
        assert(all.take(i + 1).drop_last() == all.take(i as int));
        assert(all.take(i + 1).last() == domains@[i as int]@);
        match ServedName::parse(domains[i].as_str()) {
            Ok(name) => {
                out.push(name);
                assert(names::name_views(out@) == names::name_views(before).push(name@));
            },
            Err(_) => {},
        }
        i = i + 1;
    }
    assert(all.take(all.len() as int) == all);
    out
}

fn add_sets(
    listeners: &[ListenerConfig],
    out: &mut Vec<Vec<ServedName>>,
)
    ensures
        set_views(final(out)@) == set_views(old(out)@) + wanted_by_all(listeners@),
{
    let ghost first = set_views(out@);
    let mut i: usize = 0;
    assert(first + wanted_by_all(listeners@.take(0)) == first);
    while i < listeners.len()
        invariant
            i <= listeners@.len(),
            set_views(out@) == first + wanted_by_all(listeners@.take(i as int)),
        decreases listeners@.len() - i,
    {
        let ghost before = out@;
        assert(listeners@.take(i + 1).drop_last() == listeners@.take(i as int));
        assert(listeners@.take(i + 1).last() == listeners@[i as int]);
        match &listeners[i].source {
            ListenerKind::Tcp { tls: Some(tls), .. } => {
                if tls.acme_domains.len() > 0 {
                    let set = read_names(tls.acme_domains.as_slice());
                    out.push(set);
                    assert(set_views(out@) == set_views(before).push(names::name_views(set@)));
                }
            },
            _ => {},
        }
        assert(set_views(out@) == first + wanted_by_all(listeners@.take(i + 1)));
        i = i + 1;
    }
    assert(listeners@.take(listeners@.len() as int) == listeners@);
}

/// The sets of names that certificates are obtained for: one for each listener
/// that names domains, so that a listener gets exactly the names it asked for.
pub fn domain_sets(config: &Config) -> (r: Vec<Vec<ServedName>>)
    ensures
        set_views(r@) == proxy_sets(config.basic_proxies@) + file_server_sets(
            config.file_servers@,
        ),
{
    let mut out: Vec<Vec<ServedName>> = Vec::new();
    let mut i: usize = 0;
    assert(set_views(out@) == Seq::<NameSet>::empty());
    while i < config.basic_proxies.len()
        invariant
            i <= config.basic_proxies@.len(),
            set_views(out@) == proxy_sets(config.basic_proxies@.take(i as int)),
        decreases config.basic_proxies@.len() - i,
    {
        assert(config.basic_proxies@.take(i + 1).drop_last() == config.basic_proxies@.take(
            i as int,
        ));
        add_sets(config.basic_proxies[i].listeners.as_slice(), &mut out);
        i = i + 1;
    }
    assert(config.basic_proxies@.take(config.basic_proxies@.len() as int)
        == config.basic_proxies@);
    let ghost proxies = proxy_sets(config.basic_proxies@);
    let mut k: usize = 0;
    assert(proxies + file_server_sets(config.file_servers@.take(0)) == proxies);
    while k < config.file_servers.len()
        invariant
            k <= config.file_servers@.len(),
            set_views(out@) == proxies + file_server_sets(config.file_servers@.take(k as int)),
        decreases config.file_servers@.len() - k,
    {
        assert(config.file_servers@.take(k + 1).drop_last() == config.file_servers@.take(k as int));
        add_sets(config.file_servers[k].listeners.as_slice(), &mut out);
        assert(set_views(out@) == proxies + file_server_sets(config.file_servers@.take(k + 1)));
        k = k + 1;
    }
    assert(config.file_servers@.take(config.file_servers@.len() as int) == config.file_servers@);
    out
}

/// Is a certificate due for renewal? `remaining` is the days that it has left,
/// where that is known, and `age` the days since it was issued.
pub open spec fn due(policy: RenewalPolicy, remaining: Option<i32>, age: u64) -> bool {
    match policy {
        RenewalPolicy::BeforeExpiry { days } => match remaining {
            Some(left) => left < days,
            None => true,
        },
        RenewalPolicy::AfterIssue { days } => age >= days,
    }
}

/// Is a certificate due for renewal?
pub fn is_due(policy: &RenewalPolicy, remaining: Option<i32>, age: u64) -> (r: bool)
    ensures
        r == due(*policy, remaining, age),
{
    match policy {
        RenewalPolicy::BeforeExpiry { days } => match remaining {
            Some(left) => (left as i64) < (*days as i64),
            None => true,
        },
        RenewalPolicy::AfterIssue { days } => age >= *days as u64,
    }
}

/// The days that a certificate has left at `now`, where that can be told.
pub open spec fn days_remaining(bundle: names::CertificateBundle, now: u64) -> Option<i32> {
    backend::days_to_end((backend::pem_certificates(bundle.chain_pem@)->0)[0], now)
}

/// Is a certificate missing, unusable, or close enough to its end to be
/// replaced? `stored` is what came of reading it.
///
/// Whether a certificate that is encrypted can be used, and which one it is, depends on
/// the passphrase that is given.
pub fn needs_renewal(
    policy: &RenewalPolicy,
    stored: store::Reading<StoredCertificate>,
    now: u64,
) -> (r: bool)
    requires
        stored matches Ok(Some(s)) ==> s.bundle.fits(),
        now <= i64::MAX,
    ensures
        match stored {
            Ok(Some(s)) => {
                &&& s.bundle.is_plain() ==> r == (s.bundle.verdict() != Verdict::Good || due(
                    *policy,
                    days_remaining(s.bundle, now),
                    s.meta.age(now) as u64,
                ))
                &&& *policy matches RenewalPolicy::AfterIssue { days } ==> (s.meta.age(now) >= days
                    ==> r)
            },
            _ => r,
        },
{
    let stored = match stored {
        Ok(Some(stored)) => stored,
        _ => return true,
    };
    let age = stored.meta.days_since_issue(now);
    match Certificate::new(stored.bundle) {
        Ok(cert) => {
            let remaining = match cert.parsed().days_until_expiry(now) {
                Ok(days) => Some(days),
                Err(_) => None,
            };
            is_due(policy, remaining, age)
        },
        Err(_) => true,
    }
}

/// Does one of the domains use the challenge?
pub open spec fn any_uses(config: AcmeConfig, domains: NameSet, kind: ChallengeKind) -> bool {
    exists|i: int|
        0 <= i < domains.len() && config.challenge_of(
            names::written_name(#[trigger] domains[i]),
        ).0 == kind
}

/// The challenges that solvers are needed for, in the order the solvers are
/// asked in. A wildcard has no other option than DNS, so that comes first.
pub open spec fn kinds_for(config: AcmeConfig, domains: Seq<ServedName>) -> Seq<ChallengeKind> {
    let dns = if dns01::hooks_of(config, domains) == Map::<Seq<char>, String>::empty() {
        Seq::<ChallengeKind>::empty()
    } else {
        seq![ChallengeKind::Dns01]
    };
    if any_uses(config, names::name_views(domains), ChallengeKind::Http01) {
        dns.push(ChallengeKind::Http01)
    } else {
        dns
    }
}

fn uses_http(config: &AcmeConfig, domains: &[ServedName]) -> (r: bool)
    ensures
        r == any_uses(*config, names::name_views(domains@), ChallengeKind::Http01),
{
    let ghost all = names::name_views(domains@);
    let mut i: usize = 0;
    while i < domains.len()
        invariant
            i <= domains@.len(),
            all == names::name_views(domains@),
            forall|k: int|
                0 <= k < i ==> config.challenge_of(names::written_name(#[trigger] all[k])).0
                    != ChallengeKind::Http01,
        decreases domains@.len() - i,
    {
        assert(all[i as int] == domains@[i as int]@);
        let name = domains[i].to_text();
        let (kind, _) = config.challenge_for(name.as_str());
        if kind == ChallengeKind::Http01 {
            return true;
        }
        i = i + 1;
    }
    false
}

/// The solvers that the domains of a certificate call for: the one for DNS, if
/// any of them uses it, and the challenges that are answered, in the order the
/// solvers are asked in. An order can mix the two.
pub fn solvers(config: &AcmeConfig, domains: &[ServedName]) -> (r: Result<
    (Option<Dns01Solver>, Vec<ChallengeKind>),
    AcmeError,
>)
    ensures
        match r {
            Ok((dns, kinds)) => kinds@ == kinds_for(*config, domains@) && kinds@.len() > 0 && (
            dns is Some == kinds@.contains(ChallengeKind::Dns01)) && (dns matches Some(s)
                ==> s.wf() && s.hooks() == dns01::hooks_of(*config, domains@) && s.pause().millis
                == config.dns_propagation_seconds * 1000),
            Err(e) => kinds_for(*config, domains@).len() == 0 && e is Solver && e->Solver_domain@
                == text::join(names::written_names(names::name_views(domains@)), ", "@)
                && e->Solver_reason@ == "no challenge solver is configured for these domains"@,
        },
{
    let mut kinds: Vec<ChallengeKind> = Vec::new();
    let dns = Dns01Solver::from_config(config, domains);
    if dns.is_some() {
        kinds.push(ChallengeKind::Dns01);
        assert(kinds@[0] == ChallengeKind::Dns01);
    }
    if uses_http(config, domains) {
        kinds.push(ChallengeKind::Http01);
    }
    assert(kinds@ == kinds_for(*config, domains@));
    if kinds.len() == 0 {
        let written = names::write_names(domains);
        return Err(
            AcmeError::Solver {
                domain: text::join_text(written.as_slice(), ", "),
                reason: "no challenge solver is configured for these domains".to_owned(),
            },
        );
    }
    assert(dns is Some ==> kinds@.contains(ChallengeKind::Dns01)) by {
        if dns is Some {
            assert(kinds@[0] == ChallengeKind::Dns01);
        }
    }
    Ok((dns, kinds))
}

proof fn lemma_hooks(config: AcmeConfig, domains: Seq<ServedName>, i: int)
    requires
        0 <= i < domains.len(),
        dns01::hook_of(config, domains[i]) is Some,
    ensures
        dns01::hooks_of(config, domains).contains_key(domains[i]@.1),
    decreases domains.len(),
{
    if i < domains.len() - 1 {
        let front = domains.drop_last();
        assert(front[i] == domains[i]);
        lemma_hooks(config, front, i);
    }
}

/// Every name of a certificate is answered by the solver for the challenge that it is
/// configured to use, where the certificate authority offers that challenge. A name that
/// is to be validated by DNS needs a hook for that.
pub proof fn each_name_has_its_solver(
    config: AcmeConfig,
    domains: Seq<ServedName>,
    i: int,
    offered: Seq<ChallengeKind>,
)
    requires
        0 <= i < domains.len(),
        offered.contains(config.challenge_of(domains[i].written()).0),
        config.challenge_of(domains[i].written()).0 == ChallengeKind::Dns01 ==> dns01::hook_of(
            config,
            domains[i],
        ) is Some,
    ensures
        ({
            let configured = config.challenge_of(domains[i].written()).0;
            let kinds = kinds_for(config, domains);
            order::chosen(configured, kinds, offered) matches Some(k) && 0 <= k < kinds.len()
                && kinds[k] == configured
        }),
{
    let configured = config.challenge_of(domains[i].written()).0;
    let kinds = kinds_for(config, domains);
    let views = names::name_views(domains);
    assert(views[i] == domains[i]@);
    match configured {
        ChallengeKind::Http01 => {
            assert(any_uses(config, views, ChallengeKind::Http01));
            assert(kinds[kinds.len() - 1] == configured);
        },
        ChallengeKind::Dns01 => {
            lemma_hooks(config, domains, i);
            assert(dns01::hooks_of(config, domains) != Map::<Seq<char>, String>::empty());
            assert(kinds[0] == configured);
        },
    }
    assert(kinds.contains(configured));
    order::a_name_is_answered_as_configured(configured, kinds, offered);
}

/// The certificate out of what came of reading it, where it can be served.
pub fn usable(stored: store::Reading<StoredCertificate>) -> (r: Option<Arc<Certificate>>)
    requires
        stored matches Ok(Some(s)) ==> s.bundle.fits(),
    ensures
        match stored {
            Ok(Some(s)) => (r matches Some(cert) ==> cert.bundle == s.bundle && cert.wf()) && (
            s.bundle.is_plain() ==> r is Some == (s.bundle.verdict() == Verdict::Good)),
            _ => r is None,
        },
{
    match stored {
        Ok(Some(stored)) => match Certificate::new(stored.bundle) {
            Ok(cert) => Some(Arc::new(cert)),
            Err(_) => None,
        },
        _ => None,
    }
}

/// The certificates by their exact names, once each that could be read is
/// registered under the names of its set, one after the other.
pub open spec fn cached_exact(
    exact: names::ByName,
    managed: Seq<ManagedCertificate>,
    found: Seq<Option<Arc<Certificate>>>,
    n: int,
) -> names::ByName
    decreases n,
{
    if n <= 0 {
        exact
    } else {
        let front = cached_exact(exact, managed, found, n - 1);
        match found[n - 1] {
            Some(cert) => names::with_exact(front, managed[n - 1].domains@, cert),
            None => front,
        }
    }
}

/// The certificates by the parents of their wildcard names, once each that could
/// be read is registered under the names of its set, one after the other.
pub open spec fn cached_wildcard(
    wildcard: names::ByName,
    managed: Seq<ManagedCertificate>,
    found: Seq<Option<Arc<Certificate>>>,
    n: int,
) -> names::ByName
    decreases n,
{
    if n <= 0 {
        wildcard
    } else {
        let front = cached_wildcard(wildcard, managed, found, n - 1);
        match found[n - 1] {
            Some(cert) => names::with_wildcard(front, managed[n - 1].domains@, cert),
            None => front,
        }
    }
}

/// How many of the first `n` could be read.
pub open spec fn found_count(found: Seq<Option<Arc<Certificate>>>, n: int) -> int
    decreases n,
{
    if n <= 0 {
        0
    } else {
        found_count(found, n - 1) + (if found[n - 1] is Some {
            1int
        } else {
            0int
        })
    }
}

/// Registers the certificates that are there already, before any is asked for, so
/// that a restart serves what it has. `found` holds the certificate of each set, if
/// one could be read. Gives how many there were.
pub fn load_cached(
    managed: &[ManagedCertificate],
    found: &[Option<Arc<Certificate>>],
    store: &mut CertStore,
) -> (r: usize)
    requires
        old(store).wf(),
        found@.len() == managed@.len(),
    ensures
        final(store).wf(),
        final(store).exact() == cached_exact(
            old(store).exact(),
            managed@,
            found@,
            managed@.len() as int,
        ),
        final(store).wildcard() == cached_wildcard(
            old(store).wildcard(),
            managed@,
            found@,
            managed@.len() as int,
        ),
        r == found_count(found@, managed@.len() as int),
{
    let mut loaded: usize = 0;
    let mut i: usize = 0;
    while i < managed.len()
        invariant
            i <= managed@.len(),
            found@.len() == managed@.len(),
            store.wf(),
            store.exact() == cached_exact(old(store).exact(), managed@, found@, i as int),
            store.wildcard() == cached_wildcard(old(store).wildcard(), managed@, found@, i as int),
            loaded == found_count(found@, i as int),
            loaded <= i,
        decreases managed@.len() - i,
    {
        match &found[i] {
            Some(cert) => {
                store.insert(managed[i].domains.as_slice(), cert.clone());
                loaded = loaded + 1;
            },
            None => {},
        }
        i = i + 1;
    }
    loaded
}

/// Is the name asked for by one of the sets from `from` on, before `to`?
pub open spec fn asked_again(
    managed: Seq<ManagedCertificate>,
    from: int,
    to: int,
    wildcard: bool,
    name: Seq<char>,
) -> bool {
    exists|k: int|
        from <= k < to && names::among((#[trigger] managed[k]).domains@, wildcard, name)
}

proof fn lemma_cached(
    store: names::ByName,
    managed: Seq<ManagedCertificate>,
    found: Seq<Option<Arc<Certificate>>>,
    i: int,
    n: int,
    wildcard: bool,
    name: Seq<char>,
)
    requires
        0 <= i < n <= managed.len(),
        found.len() == managed.len(),
        found[i] is Some,
        names::among(managed[i].domains@, wildcard, name),
        !asked_again(managed, i + 1, n, wildcard, name),
    ensures
        ({
            let after = if wildcard {
                cached_wildcard(store, managed, found, n)
            } else {
                cached_exact(store, managed, found, n)
            };
            after.contains_key(name) && after[name] == found[i]->0
        }),
    decreases n,
{
    let last = managed[n - 1].domains@;
    let exact = cached_exact(store, managed, found, n - 1);
    let wild = cached_wildcard(store, managed, found, n - 1);
    if found[n - 1] is Some {
        names::registering_touches_only_its_names(exact, wild, last, found[n - 1]->0, name);
    }
    if i < n - 1 {
        assert(!names::among(last, wildcard, name)) by {
            if names::among(last, wildcard, name) {
                assert(names::among(managed[n - 1].domains@, wildcard, name));
            }
        }
        assert(!asked_again(managed, i + 1, n - 1, wildcard, name)) by {
            if asked_again(managed, i + 1, n - 1, wildcard, name) {
                let k = choose|k: int|
                    i + 1 <= k < n - 1 && names::among(
                        (#[trigger] managed[k]).domains@,
                        wildcard,
                        name,
                    );
                assert(names::among(managed[k].domains@, wildcard, name));
            }
        }
        lemma_cached(store, managed, found, i, n - 1, wildcard, name);
    }
}

/// A certificate that is there at the start is served for every name that its set
/// asks for and no later set asks for again: under an exact name for that name, and
/// under a wildcard for its parent's.
pub proof fn a_certificate_that_is_there_is_served(
    store: names::ByName,
    managed: Seq<ManagedCertificate>,
    found: Seq<Option<Arc<Certificate>>>,
    i: int,
    wildcard: bool,
    name: Seq<char>,
)
    requires
        0 <= i < managed.len(),
        found.len() == managed.len(),
        found[i] is Some,
        names::among(managed[i].domains@, wildcard, name),
        !asked_again(managed, i + 1, managed.len() as int, wildcard, name),
    ensures
        ({
            let after = if wildcard {
                cached_wildcard(store, managed, found, managed.len() as int)
            } else {
                cached_exact(store, managed, found, managed.len() as int)
            };
            after.contains_key(name) && after[name] == found[i]->0
        }),
{
    lemma_cached(store, managed, found, i, managed.len() as int, wildcard, name);
}

/// Whether the listeners still wait for the first certificates, and whether the
/// service goes on.
///
/// The listeners are let go exactly once: when there is nothing to manage, when
/// there is no account to ask with, or after the first pass, however that went.
/// Refusing to start would turn an outage of the certificate authority into one of
/// this server.
#[derive(Debug, Clone, Copy, PartialEq, Eq, Structural)]
pub struct Readiness {
    pub waiting: bool,
    pub running: bool,
}

impl Readiness {
    /// No listener waits for a service that has stopped.
    pub open spec fn wf(self) -> bool {
        self.waiting ==> self.running
    }

    /// Starts, with so many certificates to manage. With none there is nothing to
    /// wait for and nothing to do.
    pub fn start(managed: usize) -> (r: Self)
        ensures
            r.wf(),
            r.waiting == (managed > 0),
            r.running == (managed > 0),
    {
        Readiness { waiting: managed > 0, running: managed > 0 }
    }

    /// Takes note of whether there is an account. Without one, the listeners serve
    /// the certificates that are there. Says whether they are let go now.
    pub fn account(&mut self, there: bool) -> (r: bool)
        requires
            old(self).wf(),
        ensures
            final(self).wf(),
            r == (old(self).waiting && !there),
            final(self).waiting == (old(self).waiting && there),
            final(self).running == (old(self).running && there),
    {
        let release = self.waiting && !there;
        self.waiting = self.waiting && there;
        self.running = self.running && there;
        release
    }

    /// Takes note of the end of a pass with so many failures. Says whether the
    /// listeners are let go now, and how long to wait before the next pass.
    pub fn passed(&mut self, failures: usize) -> (r: (bool, Duration))
        requires
            old(self).wf(),
        ensures
            final(self).wf(),
            r.0 == old(self).waiting,
            !final(self).waiting,
            final(self).running == old(self).running,
            r.1.millis == (if failures == 0 {
                RENEWAL_CHECK_INTERVAL
            } else {
                RETRY_BACKOFF
            }) * 1000,
    {
        let release = self.waiting;
        self.waiting = false;
        (release, wait_after(failures))
    }
}

/// How long to wait before the next pass, after one with so many failures.
pub fn wait_after(failures: usize) -> (r: Duration)
    ensures
        r.millis == (if failures == 0 {
            RENEWAL_CHECK_INTERVAL
        } else {
            RETRY_BACKOFF
        }) * 1000,
{
    if failures == 0 {
        Duration::from_secs(RENEWAL_CHECK_INTERVAL)
    } else {
        Duration::from_secs(RETRY_BACKOFF)
    }
}

/// May a service wait for the first certificates? One that can answer a
/// challenge over plain HTTP must not: the certificates would never come.
pub fn may_wait(listeners: &[ListenerConfig]) -> (r: bool)
    ensures
        r == forall|i: int|
            0 <= i < listeners@.len() ==> !crate::config::internal::is_plaintext(
                #[trigger] listeners@[i],
            ),
{
    !crate::config::internal::serves_plaintext(listeners)
}

/// The set that a listener asks for holds each of its domains that is a name, in their
/// order, and nothing else. Where all of them are names, there are as many.
pub proof fn each_domain_of_a_listener_is_in_its_set(domains: Seq<Seq<char>>, i: int)
    ensures
        names_among(domains) == domains.filter_map(|d: Seq<char>| names::served(d)),
        0 <= i < domains.len() && names::served(domains[i]) is Some ==> names_among(
            domains,
        ).contains(names::served(domains[i])->0),
        forall|n: (bool, Seq<char>)| #[trigger]
            names_among(domains).contains(n) ==> exists|d: Seq<char>| #[trigger]
                domains.contains(d) && names::served(d) == Some(n),
        (forall|k: int| 0 <= k < domains.len() ==> names::served(#[trigger] domains[k]) is Some)
            ==> names_among(domains).len() == domains.len(),
    decreases domains.len(),
{
    let f = |d: Seq<char>| names::served(d);
    lemma_names_among(domains);
    if 0 <= i < domains.len() && names::served(domains[i]) is Some {
        lists::lemma_picked_has(domains, f, i);
    }
    assert forall|n: (bool, Seq<char>)| #[trigger]
        names_among(domains).contains(n) implies exists|d: Seq<char>| #[trigger]
        domains.contains(d) && names::served(d) == Some(n) by {
        domains.lemma_filter_map_contains(f, n);
        let d = choose|d: Seq<char>| #[trigger] domains.contains(d) && f(d) == Some(n);
        assert(domains.contains(d) && names::served(d) == Some(n));
    }
    if forall|k: int| 0 <= k < domains.len() ==> names::served(#[trigger] domains[k]) is Some {
        assert forall|k: int| 0 <= k < domains.len() implies f(#[trigger] domains[k]) is Some by {
            assert(names::served(domains[k]) is Some);
        }
        lists::lemma_picked_all(domains, f);
    }
}

proof fn lemma_names_among(domains: Seq<Seq<char>>)
    ensures
        names_among(domains) == domains.filter_map(|d: Seq<char>| names::served(d)),
    decreases domains.len(),
{
    if domains.len() > 0 {
        lemma_names_among(domains.drop_last());
    }
}

proof fn lemma_wanted_by_all(listeners: Seq<ListenerConfig>)
    ensures
        wanted_by_all(listeners) == listeners.filter_map(|l: ListenerConfig| wanted_by(l)),
    decreases listeners.len(),
{
    if listeners.len() > 0 {
        lemma_wanted_by_all(listeners.drop_last());
    }
}

/// Each listener that names domains asks for one set, and listeners ask in their order.
pub proof fn each_listener_asks_for_its_set(listeners: Seq<ListenerConfig>, i: int)
    requires
        0 <= i < listeners.len(),
    ensures
        wanted_by_all(listeners) == listeners.filter_map(|l: ListenerConfig| wanted_by(l)),
        match listeners[i].source {
            ListenerKind::Tcp { tls: Some(tls), .. } => tls.acme_domains@.len() > 0
                ==> wanted_by_all(listeners).contains(
                tls.acme_domains@.map_values(|d: String| d@).filter_map(
                    |d: Seq<char>| names::served(d),
                ),
            ),
            _ => true,
        },
{
    let f = |l: ListenerConfig| wanted_by(l);
    lemma_wanted_by_all(listeners);
    match listeners[i].source {
        ListenerKind::Tcp { tls: Some(tls), .. } => {
            if tls.acme_domains@.len() > 0 {
                lemma_names_among(text::texts(tls.acme_domains@));
                assert(text::texts(tls.acme_domains@) == tls.acme_domains@.map_values(
                    |d: String| d@,
                ));
                assert(f(listeners[i]) is Some);
                lists::lemma_picked_has(listeners, f, i);
            }
        },
        _ => {},
    }
}

proof fn lemma_proxy_sets(proxies: Seq<ProxyConfig>)
    ensures
        proxy_sets(proxies) == proxies.map_values(
            |p: ProxyConfig| wanted_by_all(p.listeners@),
        ).flatten(),
    decreases proxies.len(),
{
    let all = proxies.map_values(|p: ProxyConfig| wanted_by_all(p.listeners@));
    if proxies.len() > 0 {
        lemma_proxy_sets(proxies.drop_last());
        lists::lemma_joined_last(all);
        assert(all.drop_last() == proxies.drop_last().map_values(
            |p: ProxyConfig| wanted_by_all(p.listeners@),
        ));
    }
}

proof fn lemma_file_server_sets(servers: Seq<FileServerConfig>)
    ensures
        file_server_sets(servers) == servers.map_values(
            |s: FileServerConfig| wanted_by_all(s.listeners@),
        ).flatten(),
    decreases servers.len(),
{
    let all = servers.map_values(|s: FileServerConfig| wanted_by_all(s.listeners@));
    if servers.len() > 0 {
        lemma_file_server_sets(servers.drop_last());
        lists::lemma_joined_last(all);
        assert(all.drop_last() == servers.drop_last().map_values(
            |s: FileServerConfig| wanted_by_all(s.listeners@),
        ));
    }
}

/// The sets that certificates are obtained for are those of the listeners of every proxy,
/// and then those of the listeners of every file server. So whatever a listener asks for
/// is among them, and nothing else is.
pub proof fn the_sets_are_those_of_all_listeners(
    proxies: Seq<ProxyConfig>,
    servers: Seq<FileServerConfig>,
    i: int,
    set: NameSet,
)
    ensures
        0 <= i < proxies.len() && wanted_by_all(proxies[i].listeners@).contains(set) ==> proxy_sets(
            proxies,
        ).contains(set),
        0 <= i < servers.len() && wanted_by_all(servers[i].listeners@).contains(set)
            ==> file_server_sets(servers).contains(set),
        proxy_sets(proxies).contains(set) ==> exists|k: int|
            0 <= k < proxies.len() && wanted_by_all(
                (#[trigger] proxies[k]).listeners@,
            ).contains(set),
        file_server_sets(servers).contains(set) ==> exists|k: int|
            0 <= k < servers.len() && wanted_by_all(
                (#[trigger] servers[k]).listeners@,
            ).contains(set),
        proxy_sets(proxies) == proxies.map_values(
            |p: ProxyConfig| wanted_by_all(p.listeners@),
        ).flatten(),
        file_server_sets(servers) == servers.map_values(
            |s: FileServerConfig| wanted_by_all(s.listeners@),
        ).flatten(),
{
    let of_proxies = proxies.map_values(|p: ProxyConfig| wanted_by_all(p.listeners@));
    let of_servers = servers.map_values(|s: FileServerConfig| wanted_by_all(s.listeners@));
    lemma_proxy_sets(proxies);
    lemma_file_server_sets(servers);
    if 0 <= i < proxies.len() && of_proxies[i].contains(set) {
        lists::lemma_joined_has(of_proxies, i, set);
    }
    if 0 <= i < servers.len() && of_servers[i].contains(set) {
        lists::lemma_joined_has(of_servers, i, set);
    }
    if proxy_sets(proxies).contains(set) {
        let k = lists::lemma_joined_from(of_proxies, set);
        assert(wanted_by_all(proxies[k].listeners@).contains(set));
    }
    if file_server_sets(servers).contains(set) {
        let k = lists::lemma_joined_from(of_servers, set);
        assert(wanted_by_all(servers[k].listeners@).contains(set));
    }
}

/// Every domain that a configuration has managed, as far as it is a name, is in one of the
/// sets that certificates are obtained for.
pub proof fn every_managed_domain_is_in_a_set(config: Config, domain: Seq<char>)
    requires
        config.managed_domains().contains(domain),
        names::served(domain) is Some,
    ensures
        exists|set: NameSet| #[trigger]
            (proxy_sets(config.basic_proxies@) + file_server_sets(
                config.file_servers@,
            )).contains(set) && set.contains(names::served(domain)->0),
{
    let all = proxy_sets(config.basic_proxies@) + file_server_sets(config.file_servers@);
    let (proxied, i, l, k) = crate::config::internal::every_managed_domain_has_a_listener(
        config,
        domain,
    );
    let listeners = if proxied {
        config.basic_proxies@[i].listeners@
    } else {
        config.file_servers@[i].listeners@
    };
    let tls = listeners[l].source->Tcp_tls->0;
    let texts = text::texts(tls.acme_domains@);
    assert(texts[k] == domain);
    let set = names_among(texts);
    each_domain_of_a_listener_is_in_its_set(texts, k);
    lemma_wanted_by_all(listeners);
    let f = |l: ListenerConfig| wanted_by(l);
    assert(f(listeners[l]) == Some(set));
    lists::lemma_picked_has(listeners, f, l);
    the_sets_are_those_of_all_listeners(config.basic_proxies@, config.file_servers@, i, set);
    if proxied {
        let at = proxy_sets(config.basic_proxies@).index_of(set);
        assert(all[at] == set);
    } else {
        let at = file_server_sets(config.file_servers@).index_of(set);
        assert(all[proxy_sets(config.basic_proxies@).len() + at] == set);
    }
    assert(all.contains(set) && set.contains(names::served(domain)->0));
}

/// How many certificates could be read is how many there are to serve.
pub proof fn what_could_be_read_is_counted(found: Seq<Option<Arc<Certificate>>>, n: int)
    requires
        0 <= n <= found.len(),
    ensures
        found_count(found, n) == found.take(n).filter(
            |c: Option<Arc<Certificate>>| c is Some,
        ).len(),
    decreases n,
{
    reveal(Seq::filter);
    if n > 0 {
        what_could_be_read_is_counted(found, n - 1);
        assert(found.take(n).drop_last() == found.take(n - 1));
    }
}

/// A certificate that is due stays due as time goes by: with fewer days left, or with more
/// days since it was issued. By the days left it is due once fewer are left than the policy
/// asks for, and by its age once it has reached what the policy asks for. One whose end
/// cannot be told is due.
pub proof fn what_is_due_stays_due(days: u32, left: i32, less: i32, age: u64, older: u64)
    requires
        less <= left,
        age <= older,
    ensures
        ({
            let before = RenewalPolicy::BeforeExpiry { days };
            let after = RenewalPolicy::AfterIssue { days };
            &&& due(before, Some(left), age) ==> due(before, Some(less), older)
            &&& due(after, Some(left), age) ==> due(after, Some(less), older)
            &&& due(before, None, age)
            &&& left as int >= days as int ==> !due(before, Some(left), age)
            &&& (left as int) < days as int ==> due(before, Some(left), age)
            &&& age as int >= days as int ==> due(after, Some(left), age)
            &&& (age as int) < days as int ==> !due(after, None, age)
        }),
{
}

/// Each certificate that is managed is for one of the sets that were asked for, whole, and
/// under the identifier of that set.
pub proof fn each_certificate_is_for_a_whole_set(sets: Seq<NameSet>, m: int)
    requires
        0 <= m < grouped(sets).len(),
    ensures
        grouped(sets)[m].0 == store::id_of(grouped(sets)[m].1),
        grouped(sets)[m].1.len() > 0,
        sets.contains(grouped(sets)[m].1),
    decreases sets.len(),
{
    if sets.len() > 0 {
        let front = sets.drop_last();
        let last = sets.last();
        let list = grouped(front);
        assert forall|k: int| 0 <= k < list.len() implies (#[trigger] list[k]).0 == store::id_of(
            list[k].1,
        ) && list[k].1.len() > 0 && sets.contains(list[k].1) by {
            each_certificate_is_for_a_whole_set(front, k);
            let at = front.index_of(list[k].1);
            assert(sets[at] == list[k].1);
        }
        assert(sets[sets.len() - 1] == last);
        if last.len() > 0 {
            lemma_entered_members(list, last, m);
        }
    }
}

proof fn lemma_entered_members(list: Seq<(Seq<char>, NameSet)>, set: NameSet, m: int)
    requires
        0 <= m < entered(list, set).len(),
    ensures
        entered(list, set)[m] == (store::id_of(set), set) || list.contains(entered(list, set)[m]),
    decreases list.len(),
{
    let id = store::id_of(set);
    if list.len() == 0 || text::before(list.last().0, id) {
        if m < list.len() {
            assert(entered(list, set)[m] == list[m]);
        }
    } else if list.last().0 == id {
        assert(entered(list, set)[m] == list[m]);
    } else {
        let inner = entered(list.drop_last(), set);
        if m < inner.len() {
            lemma_entered_members(list.drop_last(), set, m);
            assert(entered(list, set)[m] == inner[m]);
            if list.drop_last().contains(inner[m]) {
                let k = list.drop_last().index_of(inner[m]);
                assert(list[k] == inner[m]);
            }
        } else {
            assert(list[list.len() - 1] == entered(list, set)[m]);
        }
    }
}

/// There is a solver for a challenge if and only if some name of the certificate uses it,
/// whichever name that is: for `http-01` where one is configured so, and for `dns-01` where
/// one is and has a hook.
pub proof fn any_name_calls_for_its_solver(config: AcmeConfig, domains: Seq<ServedName>)
    ensures
        kinds_for(config, domains).contains(ChallengeKind::Http01) <==> exists|i: int|
            0 <= i < domains.len() && config.challenge_of((#[trigger] domains[i]).written()).0
                == ChallengeKind::Http01,
        kinds_for(config, domains).contains(ChallengeKind::Dns01) <==> exists|i: int|
            0 <= i < domains.len() && dns01::hook_of(config, #[trigger] domains[i]) is Some,
{
    let kinds = kinds_for(config, domains);
    let views = names::name_views(domains);
    let hooks = dns01::hooks_of(config, domains);
    if exists|i: int|
        0 <= i < domains.len() && config.challenge_of((#[trigger] domains[i]).written()).0
            == ChallengeKind::Http01 {
        let i = choose|i: int|
            0 <= i < domains.len() && config.challenge_of((#[trigger] domains[i]).written()).0
                == ChallengeKind::Http01;
        assert(views[i] == domains[i]@);
        assert(kinds[kinds.len() - 1] == ChallengeKind::Http01);
    }
    if kinds.contains(ChallengeKind::Http01) {
        assert(any_uses(config, views, ChallengeKind::Http01));
        let i = choose|i: int|
            0 <= i < views.len() && config.challenge_of(names::written_name(#[trigger] views[i])).0
                == ChallengeKind::Http01;
        assert(views[i] == domains[i]@);
        assert(config.challenge_of(domains[i].written()).0 == ChallengeKind::Http01);
    }
    if exists|i: int|
        0 <= i < domains.len() && dns01::hook_of(config, #[trigger] domains[i]) is Some {
        let i = choose|i: int|
            0 <= i < domains.len() && dns01::hook_of(config, #[trigger] domains[i]) is Some;
        lemma_hooks(config, domains, i);
        assert(hooks != Map::<Seq<char>, String>::empty());
        assert(kinds[0] == ChallengeKind::Dns01);
    }
    if kinds.contains(ChallengeKind::Dns01) {
        assert(hooks != Map::<Seq<char>, String>::empty());
        let domain = choose|d: Seq<char>| hooks.contains_key(d);
        assert(hooks.contains_key(domain)) by {
            if forall|d: Seq<char>| !hooks.contains_key(d) {
                assert(hooks =~= Map::<Seq<char>, String>::empty());
            }
        }
        dns01::every_hook_is_of_a_name(config, domains, domain);
    }
}

/// A name that none of the sets asks for is served by what it was served by before.
pub proof fn other_names_are_left_alone(
    exact: names::ByName,
    wildcard: names::ByName,
    managed: Seq<ManagedCertificate>,
    found: Seq<Option<Arc<Certificate>>>,
    n: int,
    name: Seq<char>,
)
    requires
        0 <= n <= managed.len(),
        found.len() == managed.len(),
    ensures
        !asked_again(managed, 0, n, false, name) ==> {
            let after = cached_exact(exact, managed, found, n);
            after.contains_key(name) == exact.contains_key(name) && (exact.contains_key(name)
                ==> after[name] == exact[name])
        },
        !asked_again(managed, 0, n, true, name) ==> {
            let after = cached_wildcard(wildcard, managed, found, n);
            after.contains_key(name) == wildcard.contains_key(name) && (wildcard.contains_key(name)
                ==> after[name] == wildcard[name])
        },
    decreases n,
{
    if n > 0 {
        other_names_are_left_alone(exact, wildcard, managed, found, n - 1, name);
        let last = managed[n - 1].domains@;
        if found[n - 1] is Some {
            names::registering_touches_only_its_names(
                cached_exact(exact, managed, found, n - 1),
                cached_wildcard(wildcard, managed, found, n - 1),
                last,
                found[n - 1]->0,
                name,
            );
        }
        assert forall|wild: bool| !asked_again(managed, 0, n, wild, name) implies !names::among(
            last,
            wild,
            name,
        ) && !asked_again(managed, 0, n - 1, wild, name) by {
            if names::among(last, wild, name) {
                assert(names::among(managed[n - 1].domains@, wild, name));
            }
            if asked_again(managed, 0, n - 1, wild, name) {
                let k = choose|k: int|
                    0 <= k < n - 1 && names::among((#[trigger] managed[k]).domains@, wild, name);
                assert(names::among(managed[k].domains@, wild, name));
            }
        }
        assert(!asked_again(managed, 0, n, false, name) ==> !asked_again(
            managed,
            0,
            n - 1,
            false,
            name,
        ));
        assert(!asked_again(managed, 0, n, true, name) ==> !asked_again(
            managed,
            0,
            n - 1,
            true,
            name,
        ));
    }
}

/// Each certificate is known by its identifier and by all of its names, and each set by all
/// of its names.
pub proof fn every_name_of_a_certificate_is_known(
    list: Seq<ManagedCertificate>,
    sets: Seq<Vec<ServedName>>,
    m: int,
    i: int,
)
    ensures
        managed_views(list).len() == list.len(),
        0 <= m < list.len() ==> managed_views(list)[m].0 == list[m].id@ && managed_views(
            list,
        )[m].1.len() == list[m].domains@.len() && (0 <= i < list[m].domains@.len()
            ==> managed_views(list)[m].1[i] == list[m].domains@[i]@),
        set_views(sets).len() == sets.len(),
        0 <= m < sets.len() ==> set_views(sets)[m].len() == sets[m]@.len() && (0 <= i
            < sets[m]@.len() ==> set_views(sets)[m][i] == sets[m]@[i]@),
{
}

} // verus!
