//! The `acme` section.
use crate::config::internal;
use crate::config::internal::{
    AcmeConfig, AcmeDirectory, AcmeDomainConfig, ChallengeKind, Config, RenewalPolicy,
};
use crate::config::kdl::args;
use crate::config::kdl::args::{
    extract_one_bool_arg, extract_one_str_arg, extract_one_str_arg_with_kv_args,
    extract_one_u32_arg, Bad, Fault,
};
use crate::config::kdl::document;
use crate::config::kdl::document::{last_node, Document, Node, Span};
use crate::net;
use crate::text;
use crate::tls;
use crate::tls::store;
use crate::tls::store::ServedName;
use vstd::prelude::*;

verus! {

/// The challenge that a word names.
pub open spec fn challenge_named(word: Seq<char>) -> Option<ChallengeKind> {
    if word == "http-01"@ {
        Some(ChallengeKind::Http01)
    } else if word == "dns-01"@ {
        Some(ChallengeKind::Dns01)
    } else {
        None
    }
}

/// What is said of a word that names no challenge.
pub open spec fn challenge_words(word: Seq<char>) -> Seq<char> {
    "'"@ + word + "' is not a known challenge type, use 'http-01' or 'dns-01'"@
}

/// Reads the name of a challenge.
fn parse_challenge(word: &str) -> (r: Option<ChallengeKind>)
    ensures
        r == challenge_named(word@),
{
    if text::same_text(word, "http-01") {
        Some(ChallengeKind::Http01)
    } else if text::same_text(word, "dns-01") {
        Some(ChallengeKind::Dns01)
    } else {
        None
    }
}

/// A `challenge` setting should name a challenge.
pub open spec fn challenge_fault(node: Node) -> Option<Fault> {
    args::or(
        args::one_str_fault(node),
        args::when(
            challenge_named(args::one_str(node.entries@)->0) is None,
            challenge_words(args::one_str(node.entries@)->0),
            node.span,
        ),
    )
}

/// `challenge "dns-01"`.
pub fn extract_challenge_kind(node: &Node) -> (r: Result<ChallengeKind, Bad>)
    ensures
        args::told(r, challenge_fault(*node)),
        r matches Ok(c) ==> challenge_named(args::one_str(node.entries@)->0) == Some(c),
{
    let word = match extract_one_str_arg(node) {
        Ok(s) => s,
        Err(b) => {
            return Err(b);
        },
    };
    match parse_challenge(word) {
        Some(c) => Ok(c),
        None => Err(
            Bad::quoting(
                "'",
                word,
                "' is not a known challenge type, use 'http-01' or 'dns-01'",
                node.span,
            ),
        ),
    }
}

/// The named arguments of a `domain` entry.
pub open spec fn domain_args(node: Node) -> Seq<document::Entry> {
    node.entries@.skip(1)
}

/// A `domain` entry should name a domain, a challenge and, for `dns-01` alone, a
/// hook.
pub open spec fn domain_fault(node: Node) -> Option<Fault> {
    let kvs = domain_args(node);
    let domain = args::as_text(node.entries@[0].value)->0;
    let word = args::str_arg(kvs, "challenge"@);
    args::or(
        args::one_str_kv_fault(node),
        args::or(
            args::when(store::served(domain) is None, tls::bad_name_words(domain), node.span),
            match word {
                None => Some(
                    (
                        "a 'domain' entry must set 'challenge', otherwise it says nothing that the section defaults do not"@,
                        node.span,
                    ),
                ),
                Some(w) => args::or(
                    args::when(challenge_named(w) is None, challenge_words(w), node.span),
                    args::when(
                        challenge_named(w) == Some(ChallengeKind::Http01) && args::str_arg(
                            kvs,
                            "hook"@,
                        ) is Some,
                        "'hook' only applies to the 'dns-01' challenge"@,
                        node.span,
                    ),
                ),
            },
        ),
    )
}

/// Is `d` what a `domain` entry says?
pub open spec fn domain_is(node: Node, d: AcmeDomainConfig) -> bool {
    &&& args::as_text(node.entries@[0].value) == Some(d.domain@)
    &&& challenge_named(args::str_arg(domain_args(node), "challenge"@)->0) == Some(d.challenge)
    &&& args::str_arg(domain_args(node), "hook"@) == crate::wire::opt_text(d.dns_hook)
}

/// `domain "*.example.com" challenge="dns-01" hook="/usr/local/bin/hook"`.
pub fn extract_acme_domain(node: &Node) -> (r: Result<AcmeDomainConfig, Bad>)
    ensures
        args::told(r, domain_fault(*node)),
        r matches Ok(d) ==> domain_is(*node, d),
{
    let (domain, kvs) = match extract_one_str_arg_with_kv_args(node) {
        Ok(p) => p,
        Err(b) => {
            return Err(b);
        },
    };
    proof {
        args::lemma_kv_texts(kvs.entries@, "challenge"@);
        args::lemma_kv_texts(kvs.entries@, "hook"@);
    }
    // Fail here rather than when the order is placed against the CA.
    match ServedName::parse(domain) {
        Ok(_) => {},
        Err(e) => {
            return Err(Bad::docspan(e.to_text(), node.span));
        },
    }
    let word = match kvs.take_str("challenge") {
        Ok(w) => w,
        Err(b) => {
            return Err(b);
        },
    };
    let word = match word {
        Some(w) => w,
        None => {
            return Err(
                Bad::plain(
                    "a 'domain' entry must set 'challenge', otherwise it says nothing that the section defaults do not",
                    node.span,
                ),
            );
        },
    };
    let challenge = match parse_challenge(word) {
        Some(c) => c,
        None => {
            return Err(
                Bad::quoting(
                    "'",
                    word,
                    "' is not a known challenge type, use 'http-01' or 'dns-01'",
                    node.span,
                ),
            );
        },
    };
    let hook = match kvs.take_str("hook") {
        Ok(h) => h,
        Err(b) => {
            return Err(b);
        },
    };
    if challenge == ChallengeKind::Http01 && hook.is_some() {
        return Err(Bad::plain("'hook' only applies to the 'dns-01' challenge", node.span));
    }
    Ok(
        AcmeDomainConfig {
            domain: domain.to_owned(),
            challenge,
            dns_hook: match hook {
                Some(h) => Some(h.to_owned()),
                None => None,
            },
        },
    )
}

/// A provider is one of two names, or the URL of a directory.
pub open spec fn is_provider(word: Seq<char>) -> bool {
    word == "letsencrypt"@ || word == "letsencrypt-staging"@ || text::has_prefix(
        word,
        "https://"@,
    )
}

/// Is `d` the directory of the provider?
pub open spec fn directory_is(word: Option<Seq<char>>, d: AcmeDirectory) -> bool {
    match word {
        None => d is LetsEncrypt,
        Some(w) => if w == "letsencrypt"@ {
            d is LetsEncrypt
        } else if w == "letsencrypt-staging"@ {
            d is LetsEncryptStaging
        } else {
            d is Custom && d->Custom_0@ == w
        },
    }
}

/// The names of the settings of the section.
pub open spec fn acme_settings() -> Seq<Seq<char>> {
    args::words(
        seq![
            "provider",
            "contact",
            "accept-terms-of-service",
            "store-dir",
            "renew-before-expiry-days",
            "renew-after-issue-days",
            "challenge",
            "challenge-listener",
            "dns-propagation-seconds",
            "domain",
        ],
    )
}

/// What is wrong with one setting of the section, if anything.
pub open spec fn acme_setting_fault(node: Node) -> Option<Fault> {
    let word = args::one_str(node.entries@)->0;
    args::or(
        args::on(
            node,
            "provider"@,
            args::or(
                args::one_str_fault(node),
                args::when(
                    !is_provider(word),
                    "'"@ + word
                        + "' is not a known ACME provider. Use 'letsencrypt', 'letsencrypt-staging', or an https:// directory URL."@,
                    node.span,
                ),
            ),
        ),
        args::or(
            args::on(node, "contact"@, args::one_str_fault(node)),
            args::or(
                args::on(node, "accept-terms-of-service"@, args::one_bool_fault(node)),
                args::or(
                    args::on(node, "store-dir"@, args::one_str_fault(node)),
                    args::or(
                        args::on(node, "renew-before-expiry-days"@, args::one_u32_fault(node)),
                        args::or(
                            args::on(node, "renew-after-issue-days"@, args::one_u32_fault(node)),
                            args::or(
                                args::on(node, "challenge"@, challenge_fault(node)),
                                acme_setting_fault_rest(node),
                            ),
                        ),
                    ),
                ),
            ),
        ),
    )
}

/// What is wrong with one of the later settings of the section, if anything.
pub open spec fn acme_setting_fault_rest(node: Node) -> Option<Fault> {
    let word = args::one_str(node.entries@)->0;
    args::or(
        args::on(
            node,
            "challenge-listener"@,
            args::or(
                args::one_str_fault(node),
                args::when(
                    net::socket_addr_of(word) is None,
                    "'"@ + word + "' is not a valid socket address"@,
                    node.span,
                ),
            ),
        ),
        args::or(
            args::on(node, "dns-propagation-seconds"@, args::one_u32_fault(node)),
            args::or(
                args::on(node, "domain"@, domain_fault(node)),
                args::when(
                    !acme_settings().contains(node.name@),
                    "Unknown setting in 'acme': '"@ + node.name@ + "'"@,
                    node.span,
                ),
            ),
        ),
    )
}

/// The check that each setting goes through.
pub open spec fn acme_check() -> spec_fn(Node) -> Option<Fault> {
    |n: Node| acme_setting_fault(n)
}

fn check_setting(node: &Node) -> (r: Result<(), Bad>)
    ensures
        args::told(r, acme_setting_fault(*node)),
{
    let name = node.name.as_str();
    if text::same_text(name, "provider") {
        let word = match extract_one_str_arg(node) {
            Ok(w) => w,
            Err(b) => {
                return Err(b);
            },
        };
        if !(text::same_text(word, "letsencrypt") || text::same_text(word, "letsencrypt-staging")
            || text::starts_with(word, "https://")) {
            return Err(
                Bad::quoting(
                    "'",
                    word,
                    "' is not a known ACME provider. Use 'letsencrypt', 'letsencrypt-staging', or an https:// directory URL.",
                    node.span,
                ),
            );
        }
    }
    if text::same_text(name, "contact") {
        match extract_one_str_arg(node) {
            Ok(_) => {},
            Err(b) => {
                return Err(b);
            },
        }
    }
    if text::same_text(name, "accept-terms-of-service") {
        match extract_one_bool_arg(node) {
            Ok(_) => {},
            Err(b) => {
                return Err(b);
            },
        }
    }
    if text::same_text(name, "store-dir") {
        match extract_one_str_arg(node) {
            Ok(_) => {},
            Err(b) => {
                return Err(b);
            },
        }
    }
    if text::same_text(name, "renew-before-expiry-days") {
        match extract_one_u32_arg(node) {
            Ok(_) => {},
            Err(b) => {
                return Err(b);
            },
        }
    }
    if text::same_text(name, "renew-after-issue-days") {
        match extract_one_u32_arg(node) {
            Ok(_) => {},
            Err(b) => {
                return Err(b);
            },
        }
    }
    if text::same_text(name, "challenge") {
        match extract_challenge_kind(node) {
            Ok(_) => {},
            Err(b) => {
                return Err(b);
            },
        }
    }
    check_setting_rest(node)
}

fn check_setting_rest(node: &Node) -> (r: Result<(), Bad>)
    ensures
        args::told(r, acme_setting_fault_rest(*node)),
{
    let name = node.name.as_str();
    if text::same_text(name, "challenge-listener") {
        let word = match extract_one_str_arg(node) {
            Ok(w) => w,
            Err(b) => {
                return Err(b);
            },
        };
        if net::parse_socket_addr(word).is_none() {
            return Err(Bad::quoting("'", word, "' is not a valid socket address", node.span));
        }
    }
    if text::same_text(name, "dns-propagation-seconds") {
        match extract_one_u32_arg(node) {
            Ok(_) => {},
            Err(b) => {
                return Err(b);
            },
        }
    }
    if text::same_text(name, "domain") {
        match extract_acme_domain(node) {
            Ok(_) => {},
            Err(b) => {
                return Err(b);
            },
        }
    }
    let known = [
        "provider",
        "contact",
        "accept-terms-of-service",
        "store-dir",
        "renew-before-expiry-days",
        "renew-after-issue-days",
        "challenge",
        "challenge-listener",
        "dns-propagation-seconds",
        "domain",
    ];
    assert(args::words(known@) == acme_settings());
    if !args::is_among(name, &known) {
        return Err(Bad::quoting("Unknown setting in 'acme': '", name, "'", node.span));
    }
    Ok(())
}

/// The text that the last setting called `name` has.
pub open spec fn last_str(nodes: Seq<Node>, name: Seq<char>) -> Option<Seq<char>> {
    match document::last_named(nodes, name) {
        Some(n) => args::one_str(n.entries@),
        None => None,
    }
}

/// The number that the last setting called `name` has.
pub open spec fn last_int(nodes: Seq<Node>, name: Seq<char>) -> Option<i64> {
    match document::last_named(nodes, name) {
        Some(n) => args::one_int(n.entries@),
        None => None,
    }
}

/// When certificates are renewed, given the settings that say so.
pub open spec fn renewal_of(before: Option<i64>, after: Option<i64>) -> RenewalPolicy {
    match (before, after) {
        (Some(days), _) => RenewalPolicy::BeforeExpiry { days: days as u32 },
        (None, Some(days)) => RenewalPolicy::AfterIssue { days: days as u32 },
        (None, None) => RenewalPolicy::BeforeExpiry { days: 30 },
    }
}

/// What is wrong with the section as a whole, given that each setting is fine.
pub open spec fn acme_whole_fault(node: Node) -> Option<Fault> {
    let nodes = node.children->0.nodes@;
    args::or(
        args::when(
            last_int(nodes, "renew-before-expiry-days"@) is Some && last_int(
                nodes,
                "renew-after-issue-days"@,
            ) is Some,
            "Set only one of 'renew-before-expiry-days' and 'renew-after-issue-days'"@,
            node.span,
        ),
        args::when(
            last_str(nodes, "store-dir"@) is None,
            "'store-dir' is required: River needs somewhere to keep the ACME account key and the certificates it obtains"@,
            node.span,
        ),
    )
}

/// What is wrong with the `acme` section of a document, if anything.
pub open spec fn acme_fault(doc: Document) -> Option<Fault> {
    match document::find(doc.nodes@, "acme"@) {
        None => None,
        Some(node) => args::or(
            args::when(node.children is None, "'acme' should be a nested block"@, node.span),
            args::or(
                args::first_fault(node.children->0.nodes@, acme_check()),
                acme_whole_fault(node),
            ),
        ),
    }
}

/// Is `a` what the section says?
pub open spec fn acme_is(nodes: Seq<Node>, a: AcmeConfig) -> bool {
    &&& directory_is(last_str(nodes, "provider"@), a.directory)
    &&& text::texts(a.contacts@) == document::all_named(nodes, "contact"@).map_values(
        |n: Node| args::one_str(n.entries@)->0,
    )
    &&& a.accept_terms_of_service == (match document::last_named(
        nodes,
        "accept-terms-of-service"@,
    ) {
        Some(n) => args::one_bool(n.entries@)->0,
        None => false,
    })
    &&& last_str(nodes, "store-dir"@) == Some(a.store_dir@)
    &&& a.renewal == renewal_of(
        last_int(nodes, "renew-before-expiry-days"@),
        last_int(nodes, "renew-after-issue-days"@),
    )
    &&& a.default_challenge == (match last_str(nodes, "challenge"@) {
        Some(w) => challenge_named(w)->0,
        None => ChallengeKind::Http01,
    })
    &&& last_str(nodes, "challenge-listener"@) == crate::wire::opt_text(a.challenge_listener)
    &&& a.dns_propagation_seconds == (match last_int(nodes, "dns-propagation-seconds"@) {
        Some(n) => n as u32,
        None => 60,
    })
    &&& a.domains@.len() == document::all_named(nodes, "domain"@).len()
    &&& forall|i: int|
        0 <= i < a.domains@.len() ==> domain_is(
            document::all_named(nodes, "domain"@)[i],
            #[trigger] a.domains@[i],
        )
}

fn read_last_str(nodes: &[Node], name: &str) -> (r: Option<String>)
    ensures
        crate::wire::opt_text(r) == last_str(nodes@, name@),
{
    match last_node(nodes, name) {
        Some(n) => match extract_one_str_arg(n) {
            Ok(s) => Some(s.to_owned()),
            Err(_) => None,
        },
        None => None,
    }
}

fn read_last_u32(nodes: &[Node], name: &str) -> (r: Option<u32>)
    requires
        document::last_named(nodes@, name@) matches Some(n) ==> args::one_u32_fault(n) is None,
    ensures
        match r {
            Some(n) => last_int(nodes@, name@) == Some(n as i64),
            None => last_int(nodes@, name@) is None,
        },
{
    match last_node(nodes, name) {
        Some(n) => match extract_one_u32_arg(n) {
            Ok(v) => Some(v),
            Err(_) => None,
        },
        None => None,
    }
}

fn read_contacts(nodes: &[Node]) -> (r: Vec<String>)
    requires
        args::first_fault(nodes@, acme_check()) is None,
    ensures
        text::texts(r@) == document::all_named(nodes@, "contact"@).map_values(
            |n: Node| args::one_str(n.entries@)->0,
        ),
{
    proof {
        args::lemma_faultless(nodes@, acme_check());
    }
    let mut out: Vec<String> = Vec::new();
    let mut i: usize = 0;
    assert(text::texts(out@) == document::all_named(nodes@.take(0), "contact"@).map_values(
        |n: Node| args::one_str(n.entries@)->0,
    ));
    while i < nodes.len()
        invariant
            i <= nodes@.len(),
            forall|n: Node| #[trigger] nodes@.contains(n) ==> acme_check()(n) is None,
            text::texts(out@) == document::all_named(nodes@.take(i as int), "contact"@).map_values(
                |n: Node| args::one_str(n.entries@)->0,
            ),
        decreases nodes@.len() - i,
    {
        let ghost next = nodes@.take(i + 1);
        assert(next.drop_last() == nodes@.take(i as int));
        assert(next.last() == nodes@[i as int]);
        let ghost front = document::all_named(nodes@.take(i as int), "contact"@);
        if text::same_text(nodes[i].name.as_str(), "contact") {
            proof {
                assert(nodes@.contains(nodes@[i as int]));
                assert(acme_check()(nodes@[i as int]) is None);
            }
            let ghost before = out@;
            match extract_one_str_arg(&nodes[i]) {
                Ok(s) => {
                    out.push(s.to_owned());
                    assert(text::texts(out@) == text::texts(before).push(s@));
                    assert(front.push(nodes@[i as int]).map_values(
                        |n: Node| args::one_str(n.entries@)->0,
                    ) == front.map_values(|n: Node| args::one_str(n.entries@)->0).push(s@));
                },
                Err(_) => {
                    assert(false);
                },
            }
        }
        i = i + 1;
    }
    assert(nodes@.take(nodes@.len() as int) == nodes@);
    out
}

fn read_domains(nodes: &[Node]) -> (r: Vec<AcmeDomainConfig>)
    requires
        args::first_fault(nodes@, acme_check()) is None,
    ensures
        r@.len() == document::all_named(nodes@, "domain"@).len(),
        forall|i: int|
            0 <= i < r@.len() ==> domain_is(
                document::all_named(nodes@, "domain"@)[i],
                #[trigger] r@[i],
            ),
{
    proof {
        args::lemma_faultless(nodes@, acme_check());
    }
    let mut out: Vec<AcmeDomainConfig> = Vec::new();
    let mut i: usize = 0;
    while i < nodes.len()
        invariant
            i <= nodes@.len(),
            forall|n: Node| #[trigger] nodes@.contains(n) ==> acme_check()(n) is None,
            out@.len() == document::all_named(nodes@.take(i as int), "domain"@).len(),
            forall|k: int|
                0 <= k < out@.len() ==> domain_is(
                    document::all_named(nodes@.take(i as int), "domain"@)[k],
                    #[trigger] out@[k],
                ),
        decreases nodes@.len() - i,
    {
        let ghost next = nodes@.take(i + 1);
        assert(next.drop_last() == nodes@.take(i as int));
        assert(next.last() == nodes@[i as int]);
        if text::same_text(nodes[i].name.as_str(), "domain") {
            proof {
                assert(nodes@.contains(nodes@[i as int]));
                assert(acme_check()(nodes@[i as int]) is None);
            }
            match extract_acme_domain(&nodes[i]) {
                Ok(d) => {
                    out.push(d);
                },
                Err(_) => {
                    assert(false);
                },
            }
        }
        i = i + 1;
    }
    assert(nodes@.take(nodes@.len() as int) == nodes@);
    out
}

/// Extracts the optional top level `acme` section.
pub fn extract_acme(doc: &Document) -> (r: Result<Option<AcmeConfig>, Bad>)
    ensures
        args::told(r, acme_fault(*doc)),
        r matches Ok(found) ==> match (document::find(doc.nodes@, "acme"@), found) {
            (None, None) => true,
            (Some(node), Some(a)) => acme_is(node.children->0.nodes@, a),
            _ => false,
        },
{
    let node = match doc.get("acme") {
        Some(n) => n,
        None => {
            return Ok(None);
        },
    };
    let block = match &node.children {
        Some(d) => d,
        None => {
            return Err(Bad::plain("'acme' should be a nested block", node.span));
        },
    };
    let nodes = block.nodes.as_slice();
    let mut i: usize = 0;
    while i < nodes.len()
        invariant
            i <= nodes@.len(),
            document::find(doc.nodes@, "acme"@) == Some(*node),
            node.children == Some(*block),
            nodes@ == block.nodes@,
            args::first_fault(nodes@.take(i as int), acme_check()) is None,
        decreases nodes@.len() - i,
    {
        let ghost next = nodes@.take(i + 1);
        assert(next.drop_last() == nodes@.take(i as int));
        assert(next.last() == nodes@[i as int]);
        match check_setting(&nodes[i]) {
            Ok(()) => {},
            Err(b) => {
                proof {
                    args::lemma_fault_stays(nodes@, i + 1, acme_check());
                }
                return Err(b);
            },
        }
        i = i + 1;
    }
    assert(nodes@.take(nodes@.len() as int) == nodes@);
    proof {
        args::lemma_faultless(nodes@, acme_check());
        document::lemma_last_named(nodes@, "provider"@);
        document::lemma_last_named(nodes@, "accept-terms-of-service"@);
        document::lemma_last_named(nodes@, "renew-before-expiry-days"@);
        document::lemma_last_named(nodes@, "renew-after-issue-days"@);
        document::lemma_last_named(nodes@, "challenge"@);
        document::lemma_last_named(nodes@, "dns-propagation-seconds"@);
        assert(forall|n: Node| #[trigger] nodes@.contains(n) ==> acme_setting_fault(n) is None) by {
            assert forall|n: Node| #[trigger] nodes@.contains(n) implies acme_setting_fault(
                n,
            ) is None by {
                assert(acme_check()(n) is None);
            }
        }
    }
    let before_expiry = read_last_u32(nodes, "renew-before-expiry-days");
    let after_issue = read_last_u32(nodes, "renew-after-issue-days");
    let renewal = match (before_expiry, after_issue) {
        (Some(_), Some(_)) => {
            return Err(
                Bad::plain(
                    "Set only one of 'renew-before-expiry-days' and 'renew-after-issue-days'",
                    node.span,
                ),
            );
        },
        (Some(days), None) => RenewalPolicy::BeforeExpiry { days },
        (None, Some(days)) => RenewalPolicy::AfterIssue { days },
        (None, None) => RenewalPolicy::default(),
    };
    let store_dir = match read_last_str(nodes, "store-dir") {
        Some(s) => s,
        None => {
            return Err(
                Bad::plain(
                    "'store-dir' is required: River needs somewhere to keep the ACME account key and the certificates it obtains",
                    node.span,
                ),
            );
        },
    };
    let directory = match read_last_str(nodes, "provider") {
        None => AcmeDirectory::LetsEncrypt,
        Some(word) => {
            if text::same_text(word.as_str(), "letsencrypt") {
                AcmeDirectory::LetsEncrypt
            } else if text::same_text(word.as_str(), "letsencrypt-staging") {
                AcmeDirectory::LetsEncryptStaging
            } else {
                AcmeDirectory::Custom(word)
            }
        },
    };
    let accept_terms_of_service = match last_node(nodes, "accept-terms-of-service") {
        Some(n) => match extract_one_bool_arg(n) {
            Ok(b) => b,
            Err(_) => false,
        },
        None => false,
    };
    let default_challenge = match read_last_str(nodes, "challenge") {
        Some(word) => match parse_challenge(word.as_str()) {
            Some(c) => c,
            None => ChallengeKind::Http01,
        },
        None => ChallengeKind::Http01,
    };
    let dns_propagation_seconds = match read_last_u32(nodes, "dns-propagation-seconds") {
        Some(n) => n,
        // A minute is enough for most providers, and waiting is far cheaper
        // than a failed validation.
        None => 60,
    };
    Ok(
        Some(
            AcmeConfig {
                directory,
                contacts: read_contacts(nodes),
                accept_terms_of_service,
                store_dir,
                renewal,
                default_challenge,
                challenge_listener: read_last_str(nodes, "challenge-listener"),
                dns_propagation_seconds,
                domains: read_domains(nodes),
            },
        ),
    )
}

/// What is wrong with how a managed domain is to be validated, if anything.
pub open spec fn managed_fault(a: AcmeConfig, domain: Seq<char>, span: Span) -> Option<Fault> {
    let (challenge, hook) = a.challenge_of(domain);
    match store::served(domain) {
        None => Some((tls::bad_name_words(domain), span)),
        Some((wildcard, _)) => if wildcard && challenge != ChallengeKind::Dns01 {
            Some(
                (
                    "'"@ + domain
                        + "' is a wildcard, which can only be issued against a 'dns-01' challenge, but it is configured to use '"@
                        + challenge.words() + "'. Add a 'domain \""@ + domain
                        + "\" challenge=\"dns-01\" hook=\"...\"' entry to the 'acme' section."@,
                    span,
                ),
            )
        } else {
            args::when(
                challenge == ChallengeKind::Dns01 && hook is None,
                "'"@ + domain
                    + "' uses the 'dns-01' challenge, which needs a 'hook' to publish the TXT record. River does not talk to DNS providers itself."@,
                span,
            )
        },
    }
}

/// What is wrong with the first managed domain that something is wrong with.
pub open spec fn managed_faults(a: AcmeConfig, domains: Seq<Seq<char>>, span: Span) -> Option<
    Fault,
>
    decreases domains.len(),
{
    if domains.len() == 0 {
        None
    } else {
        args::or(
            managed_faults(a, domains.drop_last(), span),
            managed_fault(a, domains.last(), span),
        )
    }
}

/// What is wrong between the `acme` section and the domains that listeners ask
/// it to manage, if anything.
pub open spec fn validate_fault(config: Config, span: Span) -> Option<Fault> {
    let domains = config.managed_domains();
    match config.acme {
        None => args::when(
            domains.len() > 0,
            "A listener manages '"@ + domains[0]
                + "' over ACME, but there is no top level 'acme' section to say which CA to use"@,
            span,
        ),
        Some(a) => args::or(
            args::when(
                !a.accept_terms_of_service,
                "'accept-terms-of-service' must be set to 'true' - certificate authorities require agreement to their terms of service before issuing certificates"@,
                span,
            ),
            args::or(
                args::when(
                    !internal::is_absolute_path(a.store_dir@),
                    "'store-dir' must be an absolute path, got '"@ + a.store_dir@
                        + "'. River may change its working directory when it daemonizes, so a relative path is not stable."@,
                    span,
                ),
                managed_faults(a, domains, span),
            ),
        ),
    }
}

proof fn lemma_managed_fault_stays(
    a: AcmeConfig,
    domains: Seq<Seq<char>>,
    n: int,
    span: Span,
)
    requires
        0 <= n <= domains.len(),
        managed_faults(a, domains.take(n), span) is Some,
    ensures
        managed_faults(a, domains, span) == managed_faults(a, domains.take(n), span),
    decreases domains.len() - n,
{
    if n < domains.len() {
        assert(domains.take(n + 1).drop_last() == domains.take(n));
        lemma_managed_fault_stays(a, domains, n + 1, span);
    } else {
        assert(domains.take(n) == domains);
    }
}

fn check_managed(a: &AcmeConfig, domain: &str, span: Span) -> (r: Result<(), Bad>)
    ensures
        args::told(r, managed_fault(*a, domain@, span)),
{
    let name = match ServedName::parse(domain) {
        Ok(n) => n,
        Err(e) => {
            return Err(Bad::docspan(e.to_text(), span));
        },
    };
    let (challenge, hook) = a.challenge_for(domain);
    // This is the mistake every operator makes once: wildcards can only be
    // validated by DNS-01, no matter which CA is in use.
    if name.is_wildcard() && challenge != ChallengeKind::Dns01 {
        let mut message = text::concat3(
            "'",
            domain,
            "' is a wildcard, which can only be issued against a 'dns-01' challenge, but it is configured to use '",
        );
        message.append(challenge.as_str());
        message.append("'. Add a 'domain \"");
        message.append(domain);
        message.append("\" challenge=\"dns-01\" hook=\"...\"' entry to the 'acme' section.");
        return Err(Bad::docspan(message, span));
    }
    if challenge == ChallengeKind::Dns01 && hook.is_none() {
        return Err(
            Bad::quoting(
                "'",
                domain,
                "' uses the 'dns-01' challenge, which needs a 'hook' to publish the TXT record. River does not talk to DNS providers itself.",
                span,
            ),
        );
    }
    Ok(())
}

/// Cross-checks the `acme` section against the domains that listeners ask it to
/// manage.
pub fn validate_acme(config: &Config, acme_span: Span) -> (r: Result<(), Bad>)
    ensures
        args::told(r, validate_fault(*config, acme_span)),
{
    let domains = config.acme_domains();
    let ghost all = config.managed_domains();
    assert(all == text::texts(domains@));
    let acme = match &config.acme {
        Some(a) => a,
        None => {
            if domains.len() > 0 {
                return Err(
                    Bad::quoting(
                        "A listener manages '",
                        domains[0].as_str(),
                        "' over ACME, but there is no top level 'acme' section to say which CA to use",
                        acme_span,
                    ),
                );
            }
            return Ok(());
        },
    };
    if !acme.accept_terms_of_service {
        return Err(
            Bad::plain(
                "'accept-terms-of-service' must be set to 'true' - certificate authorities require agreement to their terms of service before issuing certificates",
                acme_span,
            ),
        );
    }
    if !internal::is_absolute(acme.store_dir.as_str()) {
        return Err(
            Bad::quoting(
                "'store-dir' must be an absolute path, got '",
                acme.store_dir.as_str(),
                "'. River may change its working directory when it daemonizes, so a relative path is not stable.",
                acme_span,
            ),
        );
    }
    let mut i: usize = 0;
    while i < domains.len()
        invariant
            i <= domains@.len(),
            all == text::texts(domains@),
            all == config.managed_domains(),
            config.acme == Some(*acme),
            acme.accept_terms_of_service,
            internal::is_absolute_path(acme.store_dir@),
            managed_faults(*acme, all.take(i as int), acme_span) is None,
        decreases domains@.len() - i,
    {
        let ghost next = all.take(i + 1);
        assert(next.drop_last() == all.take(i as int));
        assert(next.last() == domains@[i as int]@);
        match check_managed(acme, domains[i].as_str(), acme_span) {
            Ok(()) => {},
            Err(b) => {
                proof {
                    lemma_managed_fault_stays(*acme, all, i + 1, acme_span);
                }
                return Err(b);
            },
        }
        i = i + 1;
    }
    assert(all.take(all.len() as int) == all);
    Ok(())
}

/// The domains that listeners have managed are in order if and only if each of them is.
pub proof fn every_managed_domain_is_checked(a: AcmeConfig, domains: Seq<Seq<char>>, span: Span)
    ensures
        managed_faults(a, domains, span) is None <==> forall|i: int|
            0 <= i < domains.len() ==> managed_fault(a, #[trigger] domains[i], span) is None,
    decreases domains.len(),
{
    if domains.len() > 0 {
        let front = domains.drop_last();
        let last = domains.len() - 1;
        every_managed_domain_is_checked(a, front, span);
        assert(forall|i: int| 0 <= i < front.len() ==> #[trigger] front[i] == domains[i]);
        assert(domains[last] == domains.last());
        if managed_faults(a, domains, span) is None {
            assert forall|i: int| 0 <= i < domains.len() implies managed_fault(
                a,
                #[trigger] domains[i],
                span,
            ) is None by {
                if i < last {
                    assert(managed_fault(a, front[i], span) is None);
                }
            }
        }
    }
}

/// Every `contact` line is a contact and every `domain` line says how one domain is
/// validated, in the order they stand in.
pub proof fn every_contact_and_domain_is_read(
    nodes: Seq<Node>,
    a: AcmeConfig,
    is_contact: spec_fn(Node) -> bool,
    is_domain: spec_fn(Node) -> bool,
    i: int,
)
    requires
        acme_is(nodes, a),
        forall|n: Node| #[trigger] is_contact(n) <==> n.name@ == "contact"@,
        forall|n: Node| #[trigger] is_domain(n) <==> n.name@ == "domain"@,
    ensures
        a.contacts@.len() == nodes.filter(is_contact).len(),
        0 <= i < a.contacts@.len() ==> a.contacts@[i]@ == args::one_str(
            nodes.filter(is_contact)[i].entries@,
        )->0,
        a.domains@.len() == nodes.filter(is_domain).len(),
        0 <= i < a.domains@.len() ==> {
            let node = nodes.filter(is_domain)[i];
            let d = a.domains@[i];
            &&& args::as_text(node.entries@[0].value) == Some(d.domain@)
            &&& args::str_arg(node.entries@.skip(1), "challenge"@) == Some("http-01"@)
                ==> d.challenge == ChallengeKind::Http01
            &&& args::str_arg(node.entries@.skip(1), "challenge"@) == Some("dns-01"@)
                ==> d.challenge == ChallengeKind::Dns01
            &&& match args::str_arg(node.entries@.skip(1), "hook"@) {
                Some(hook) => d.dns_hook matches Some(h) && h@ == hook,
                None => d.dns_hook is None,
            }
        },
{
    document::every_line_of_a_name_is_taken(nodes, "contact"@, is_contact);
    document::every_line_of_a_name_is_taken(nodes, "domain"@, is_domain);
    let texts = text::texts(a.contacts@);
    assert(texts.len() == a.contacts@.len());
    if 0 <= i < texts.len() {
        assert(texts[i] == a.contacts@[i]@);
    }
    if 0 <= i < a.domains@.len() {
        assert(domain_is(nodes.filter(is_domain)[i], a.domains@[i]));
    }
    reveal_strlit("http-01");
    reveal_strlit("dns-01");
    assert("http-01"@.len() != "dns-01"@.len());
}

/// A certificate is renewed as the section says: so many days before it expires, or so many
/// after it was obtained, and thirty days before it expires where nothing is said.
pub proof fn renewal_is_as_the_section_says(before: Option<i64>, after: Option<i64>)
    ensures
        before matches Some(n) && 0 <= n <= 0xffff_ffff ==> (renewal_of(
            before,
            after,
        ) matches RenewalPolicy::BeforeExpiry { days } && days == before->0),
        before is None && (after matches Some(n) && 0 <= n <= 0xffff_ffff) ==> (renewal_of(
            before,
            after,
        ) matches RenewalPolicy::AfterIssue { days } && days == after->0),
        before is None && after is None ==> (renewal_of(
            before,
            after,
        ) matches RenewalPolicy::BeforeExpiry { days } && days == 30),
{
}

/// What the section does not say is left as it is by default: Let's Encrypt, over HTTP,
/// with a minute for DNS to spread, and without agreement to any terms.
pub proof fn what_the_section_does_not_say_is_as_usual(nodes: Seq<Node>, a: AcmeConfig)
    requires
        acme_is(nodes, a),
    ensures
        document::last_named(nodes, "provider"@) is None ==> a.directory is LetsEncrypt,
        document::last_named(nodes, "challenge"@) is None ==> a.default_challenge
            == ChallengeKind::Http01,
        document::last_named(nodes, "dns-propagation-seconds"@) is None
            ==> a.dns_propagation_seconds == 60,
        document::last_named(nodes, "accept-terms-of-service"@) is None
            ==> !a.accept_terms_of_service,
        document::last_named(nodes, "challenge-listener"@) is None ==> a.challenge_listener is None,
        document::last_named(nodes, "renew-before-expiry-days"@) is None && document::last_named(
            nodes,
            "renew-after-issue-days"@,
        ) is None ==> (a.renewal matches RenewalPolicy::BeforeExpiry { days } && days == 30),
{
}

/// What the section says of the authority is what is used: the two that have names of their
/// own, any other by the address that is given, the directory that things are kept in, and
/// the address that challenges are answered on.
pub proof fn what_the_section_says_is_used(nodes: Seq<Node>, a: AcmeConfig)
    requires
        acme_is(nodes, a),
    ensures
        last_str(nodes, "provider"@) == Some("letsencrypt"@) ==> a.directory is LetsEncrypt,
        last_str(nodes, "provider"@) == Some("letsencrypt-staging"@)
            ==> a.directory is LetsEncryptStaging,
        last_str(nodes, "provider"@) matches Some(w) && w != "letsencrypt"@ && w
            != "letsencrypt-staging"@ ==> (a.directory matches AcmeDirectory::Custom(url) && Some(
            url@,
        ) == last_str(nodes, "provider"@)),
        last_str(nodes, "store-dir"@) == Some(a.store_dir@),
        last_str(nodes, "challenge"@) == Some("http-01"@) ==> a.default_challenge
            == ChallengeKind::Http01,
        last_str(nodes, "challenge"@) == Some("dns-01"@) ==> a.default_challenge
            == ChallengeKind::Dns01,
        last_str(nodes, "challenge-listener"@) matches Some(w) ==> (
        a.challenge_listener matches Some(l) && l@ == w),
        last_int(nodes, "dns-propagation-seconds"@) matches Some(n) && 0 <= n <= 0xffff_ffff
            ==> Some(a.dns_propagation_seconds as i64) == last_int(
            nodes,
            "dns-propagation-seconds"@,
        ),
        document::last_named(nodes, "accept-terms-of-service"@) matches Some(n) && args::one_bool(
            n.entries@,
        ) is Some ==> args::one_bool(
            document::last_named(nodes, "accept-terms-of-service"@)->0.entries@,
        ) == Some(a.accept_terms_of_service),
{
    reveal_strlit("http-01");
    reveal_strlit("dns-01");
    reveal_strlit("letsencrypt");
    reveal_strlit("letsencrypt-staging");
    assert("http-01"@.len() != "dns-01"@.len());
    assert("letsencrypt"@.len() != "letsencrypt-staging"@.len());
}

/// Every line of the section is checked, there has to be a place to keep things in, and a
/// certificate is renewed by one rule and not by two.
pub proof fn every_line_of_the_section_is_checked(doc: Document, node: Node, i: int)
    requires
        acme_fault(doc) is None,
        document::find(doc.nodes@, "acme"@) == Some(node),
    ensures
        node.children is Some,
        last_str(node.children->0.nodes@, "store-dir"@) is Some,
        last_int(node.children->0.nodes@, "renew-before-expiry-days"@) is None || last_int(
            node.children->0.nodes@,
            "renew-after-issue-days"@,
        ) is None,
        0 <= i < node.children->0.nodes@.len() ==> acme_setting_fault(
            node.children->0.nodes@[i],
        ) is None && (node.children->0.nodes@[i].name@ == "domain"@ ==> domain_fault(
            node.children->0.nodes@[i],
        ) is None),
{
    let nodes = node.children->0.nodes@;
    args::lemma_faultless(nodes, acme_check());
    if 0 <= i < nodes.len() {
        assert(nodes.contains(nodes[i]));
        assert(acme_check()(nodes[i]) is None);
    }
}

/// A `domain` entry without fault names a domain and a challenge that there is, and a hook
/// only for `dns-01`.
pub proof fn a_domain_entry_that_can_be_used(node: Node)
    requires
        domain_fault(node) is None,
    ensures
        node.entries@.len() > 0,
        args::as_text(node.entries@[0].value) matches Some(domain) && store::served(
            domain,
        ) is Some,
        args::str_arg(node.entries@.skip(1), "challenge"@) matches Some(word) && (word
            == "http-01"@ || word == "dns-01"@),
        args::str_arg(node.entries@.skip(1), "hook"@) is Some ==> args::str_arg(
            node.entries@.skip(1),
            "challenge"@,
        ) == Some("dns-01"@),
{
}

} // verus!
