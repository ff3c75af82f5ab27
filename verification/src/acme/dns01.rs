//! Answering `dns-01` challenges through an external hook.
//!
//! A program that the operator supplies is run with `set` or `clean`, the name
//! of a TXT record and its value. An exit status of zero means that it worked.
use crate::acme::solver::{self, Challenge};
use crate::acme::AcmeError;
use crate::config::internal::{AcmeConfig, ChallengeKind, Duration};
use crate::text;
use crate::text_map::TextMap;
use crate::tls::store::{self, ServedName};
use vstd::prelude::*;

verus! {

/// How long a hook is given to publish or remove a record, in seconds.
pub const HOOK_TIMEOUT: u64 = 120;

/// Publishes `dns-01` responses by running a program of the operator's.
pub struct Dns01Solver {
    /// Validation domain to the hook that serves it. For a wildcard the domain
    /// is the parent.
    hooks: TextMap<String>,
    /// How long to wait after the hook returns, before the record is checked.
    settle: Duration,
}

/// The domain that is validated for a name: a wildcard is validated against its
/// parent.
pub fn validation_domain(domain: &ServedName) -> (r: String)
    ensures
        r@ == domain@.1,
{
    match domain {
        ServedName::Exact(name) => name.clone(),
        ServedName::Wildcard(parent) => parent.clone(),
    }
}

/// The hook that a name is validated with, where it is validated with one.
pub open spec fn hook_of(config: AcmeConfig, domain: ServedName) -> Option<String> {
    let (kind, hook) = config.challenge_of(domain.written());
    if kind is Dns01 {
        hook
    } else {
        None
    }
}

/// The hooks of those names that are validated with one, by validation domain.
/// Of two names with one domain the later counts.
pub open spec fn hooks_of(config: AcmeConfig, domains: Seq<ServedName>) -> Map<Seq<char>, String>
    decreases domains.len(),
{
    if domains.len() == 0 {
        Map::empty()
    } else {
        let front = hooks_of(config, domains.drop_last());
        match hook_of(config, domains.last()) {
            Some(hook) => front.insert(domains.last()@.1, hook),
            None => front,
        }
    }
}

/// How a run of a hook ended.
#[derive(Debug, Clone, PartialEq, Eq)]
pub enum HookEnd {
    /// It ran to its end, and exited with this status.
    Exited { success: bool, status: String },
    /// It could not be started, for this reason.
    NotRun(String),
    /// It was still running when its time was up.
    TimedOut,
}

/// What is run to publish or remove a record.
#[derive(Debug, Clone, PartialEq, Eq)]
pub struct HookCall {
    pub hook: String,
    pub action: String,
    pub record: String,
    pub value: String,
}

impl Dns01Solver {
    /// Every domain has one hook.
    pub closed spec fn wf(&self) -> bool {
        self.hooks.wf()
    }

    /// The hooks by validation domain.
    pub closed spec fn hooks(&self) -> Map<Seq<char>, String> {
        self.hooks@
    }

    /// How long to wait after a hook has run.
    pub closed spec fn pause(&self) -> Duration {
        self.settle
    }

    /// How long to wait after a hook has run.
    pub fn settle(&self) -> (r: Duration)
        ensures
            r == self.pause(),
    {
        self.settle
    }

    /// Builds a solver for every domain that is configured to use `dns-01`.
    /// There is none when no domain does.
    pub fn from_config(config: &AcmeConfig, domains: &[ServedName]) -> (r: Option<Self>)
        ensures
            match r {
                Some(s) => s.wf() && s.hooks() == hooks_of(*config, domains@) && s.hooks()
                    != Map::<Seq<char>, String>::empty() && s.pause().millis
                    == config.dns_propagation_seconds * 1000,
                None => hooks_of(*config, domains@) == Map::<Seq<char>, String>::empty(),
            },
    {
        let mut hooks: TextMap<String> = TextMap::new();
        let mut i: usize = 0;
        while i < domains.len()
            invariant
                i <= domains@.len(),
                hooks.wf(),
                hooks@ == hooks_of(*config, domains@.take(i as int)),
            decreases domains@.len() - i,
        {
            assert(domains@.take(i + 1).drop_last() == domains@.take(i as int));
            let written = domains[i].to_text();
            let (kind, hook) = config.challenge_for(written.as_str());
            match (kind, hook) {
                (ChallengeKind::Dns01, Some(hook)) => {
                    let domain = validation_domain(&domains[i]);
                    hooks.insert(domain.as_str(), hook.clone());
                },
                _ => {},
            }
            i = i + 1;
        }
        assert(domains@.take(domains@.len() as int) == domains@);
        if hooks.is_empty() {
            None
        } else {
            Some(
                Dns01Solver {
                    hooks,
                    settle: Duration::from_secs(config.dns_propagation_seconds as u64),
                },
            )
        }
    }

    /// The hook that serves `domain`.
    pub fn hook_for(&self, domain: &str) -> (r: Result<&String, AcmeError>)
        requires
            self.wf(),
        ensures
            match r {
                Ok(hook) => self.hooks().contains_key(store::canonical_name(domain@))
                    && self.hooks()[store::canonical_name(domain@)] == *hook,
                Err(e) => !self.hooks().contains_key(store::canonical_name(domain@))
                    && e is Solver && e->Solver_domain@ == domain@ && e->Solver_reason@
                    == "no 'dns-01' hook is configured for this domain"@,
            },
    {
        let name = store::normalize(domain);
        match self.hooks.get(name.as_str()) {
            Some(hook) => Ok(hook),
            None => Err(
                AcmeError::Solver {
                    domain: domain.to_owned(),
                    reason: "no 'dns-01' hook is configured for this domain".to_owned(),
                },
            ),
        }
    }

    /// What is to be run for a challenge, with `set` or with `clean`.
    pub fn call(&self, action: &str, challenge: &Challenge) -> (r: Result<HookCall, AcmeError>)
        requires
            self.wf(),
        ensures
            r is Ok == self.hooks().contains_key(store::canonical_name(challenge.domain@)),
            match r {
                Ok(c) => c.hook@ == self.hooks()[store::canonical_name(challenge.domain@)]@
                    && c.action@ == action@ && c.record@ == "_acme-challenge."@ + challenge.domain@
                    && c.value@ == solver::txt_value(
                    solver::authorization_text(challenge.key_authorization),
                ),
                Err(e) => e is Solver && e->Solver_domain@ == challenge.domain@
                    && e->Solver_reason@ == "no 'dns-01' hook is configured for this domain"@,
            },
    {
        match self.hook_for(challenge.domain.as_str()) {
            Ok(hook) => Ok(
                HookCall {
                    hook: hook.clone(),
                    action: action.to_owned(),
                    record: challenge.dns_record_name(),
                    value: challenge.dns_record_value(),
                },
            ),
            Err(e) => Err(e),
        }
    }
}

/// What is said of a hook that did not work.
pub open spec fn complaint(call: HookCall, end: HookEnd) -> Option<Seq<char>> {
    match end {
        HookEnd::Exited { success, status } => if success {
            None
        } else {
            Some(call.hook@ + " "@ + call.action@ + " exited with "@ + status@)
        },
        HookEnd::NotRun(e) => Some("could not run "@ + call.hook@ + ": "@ + e@),
        HookEnd::TimedOut => Some(
            call.hook@ + " did not finish within "@ + text::decimal(HOOK_TIMEOUT as nat)
                + " seconds"@,
        ),
    }
}

/// What came of running a hook for `domain`.
pub fn outcome(domain: &str, call: &HookCall, end: &HookEnd) -> (r: Result<(), AcmeError>)
    ensures
        r is Ok == complaint(*call, *end) is None,
        match r {
            Ok(_) => true,
            Err(e) => e is Solver && e->Solver_domain@ == domain@ && complaint(*call, *end)
                == Some(e->Solver_reason@),
        },
{
    let reason = match end {
        HookEnd::Exited { success, status } => {
            if *success {
                return Ok(());
            }
            let run = text::concat3(call.hook.as_str(), " ", call.action.as_str());
            text::concat3(run.as_str(), " exited with ", status.as_str())
        },
        HookEnd::NotRun(e) => {
            let run = text::concat2("could not run ", call.hook.as_str());
            text::concat3(run.as_str(), ": ", e.as_str())
        },
        HookEnd::TimedOut => {
            let seconds = text::decimal_text(HOOK_TIMEOUT as u128);
            let run = text::concat2(call.hook.as_str(), " did not finish within ");
            text::concat3(run.as_str(), seconds.as_str(), " seconds")
        },
    };
    Err(AcmeError::Solver { domain: domain.to_owned(), reason })
}

/// Each name that is validated by DNS with a hook has its hook, under the domain that is
/// validated for it, unless a later name has another for the same domain. No domain has a
/// hook that no name brings.
pub proof fn each_name_has_its_hook(config: AcmeConfig, domains: Seq<ServedName>, i: int)
    requires
        0 <= i < domains.len(),
        forall|k: int|
            i < k < domains.len() ==> (#[trigger] domains[k])@.1 != domains[i]@.1 || hook_of(
                config,
                domains[k],
            ) is None,
    ensures
        hook_of(config, domains[i]) matches Some(hook) ==> hooks_of(config, domains).contains_key(
            domains[i]@.1,
        ) && hooks_of(config, domains)[domains[i]@.1] == hook,
    decreases domains.len(),
{
    let front = domains.drop_last();
    let last = domains.len() - 1;
    if i < last {
        assert(front[i] == domains[i]);
        assert forall|k: int| i < k < front.len() implies (#[trigger] front[k])@.1 != front[i]@.1
            || hook_of(config, front[k]) is None by {
            assert(front[k] == domains[k]);
        }
        each_name_has_its_hook(config, front, i);
        assert(domains[last]@.1 != domains[i]@.1 || hook_of(config, domains[last]) is None);
    }
}

/// A domain has a hook only where one of the names brings it.
pub proof fn every_hook_is_of_a_name(
    config: AcmeConfig,
    domains: Seq<ServedName>,
    domain: Seq<char>,
)
    requires
        hooks_of(config, domains).contains_key(domain),
    ensures
        exists|i: int|
            0 <= i < domains.len() && (#[trigger] domains[i])@.1 == domain && hook_of(
                config,
                domains[i],
            ) == Some(hooks_of(config, domains)[domain]),
    decreases domains.len(),
{
    if domains.len() > 0 {
        let front = domains.drop_last();
        let last = domains.len() - 1;
        if hook_of(config, domains[last]) is Some && domains[last]@.1 == domain {
            assert(domains[last]@.1 == domain);
        } else {
            every_hook_is_of_a_name(config, front, domain);
            let i = choose|i: int|
                0 <= i < front.len() && (#[trigger] front[i])@.1 == domain && hook_of(
                    config,
                    front[i],
                ) == Some(hooks_of(config, front)[domain]);
            assert(domains[i] == front[i]);
        }
    }
}

/// A name is validated with the hook that is configured for it where it uses `dns-01`, and
/// with none where it uses another challenge.
pub proof fn only_dns_names_have_hooks(config: AcmeConfig, domain: ServedName)
    ensures
        config.challenge_of(domain.written()).0 is Dns01 ==> hook_of(config, domain)
            == config.challenge_of(domain.written()).1,
        config.challenge_of(domain.written()).0 is Http01 ==> hook_of(config, domain) is None,
{
}

/// A hook has worked if and only if it ran to its end and said so.
pub proof fn only_success_is_success(call: HookCall, end: HookEnd)
    ensures
        complaint(call, end) is None <==> (end matches HookEnd::Exited { success, .. } && success),
{
}

} // verus!
