//! How one certificate order goes on.
//!
//! What the certificate authority answers comes in from outside; what is done
//! about it is decided here.
use crate::acme::store::StoredCertificate;
use crate::acme::{AcmeError, OrderStatus};
use crate::config::internal::{AcmeConfig, ChallengeKind};
use crate::text;
use crate::tls::store::{self as names, CertificateBundle, ServedName};
use vstd::prelude::*;

verus! {

/// The state of an authorization, as the certificate authority has it.
#[derive(Debug, Clone, PartialEq, Eq)]
pub enum AuthorizationState {
    /// The domain was validated before, and still counts as validated.
    Valid,
    /// The domain is to be validated.
    Pending,
    /// Anything else, in a word.
    Other(String),
}

/// What an authorization is for.
#[derive(Debug, Clone, PartialEq, Eq)]
pub enum AuthorizedName {
    /// A DNS name. A wildcard order is validated against its parent, so this has
    /// no `*.` before it.
    Dns(String),
    /// Anything else, written out.
    Other(String),
}

impl AuthorizedName {
    /// The name, written out.
    pub open spec fn words(self) -> Seq<char> {
        match self {
            AuthorizedName::Dns(name) => name@,
            AuthorizedName::Other(name) => name@,
        }
    }
}

/// What is done about an authorization.
#[derive(Debug, PartialEq, Eq)]
pub enum Step {
    /// Nothing: it is valid.
    Skip,
    /// It is answered by the solver of this number.
    Answer { solver: usize, domain: String },
}

/// The first solver whose challenge is among those that are offered.
pub open spec fn first_offered(solvers: Seq<ChallengeKind>, offered: Seq<ChallengeKind>) -> Option<
    int,
>
    decreases solvers.len(),
{
    if solvers.len() == 0 {
        None
    } else {
        match first_offered(solvers.drop_last(), offered) {
            Some(i) => Some(i),
            None => if offered.contains(solvers.last()) {
                Some(solvers.len() - 1)
            } else {
                None
            },
        }
    }
}

/// The solver that answers: the one for the challenge that the name is configured to
/// use, where that challenge is offered and there is such a solver, and otherwise the
/// first one whose challenge is offered.
pub open spec fn chosen(
    configured: ChallengeKind,
    solvers: Seq<ChallengeKind>,
    offered: Seq<ChallengeKind>,
) -> Option<int> {
    if offered.contains(configured) && solvers.contains(configured) {
        first_offered(solvers, seq![configured])
    } else {
        first_offered(solvers, offered)
    }
}

/// The name that an authorization is for, as it was ordered.
pub open spec fn ordered_name(domain: Seq<char>, wildcard: bool) -> Seq<char> {
    if wildcard {
        "*."@ + domain
    } else {
        domain
    }
}

/// The challenge that the name of an authorization is configured to use. The
/// certificate authority names the parent of a wildcard, and says apart from that
/// whether the order was for the wildcard.
pub fn configured_challenge(config: &AcmeConfig, domain: &str, wildcard: bool) -> (r: ChallengeKind)
    ensures
        r == config.challenge_of(ordered_name(domain@, wildcard)).0,
{
    if wildcard {
        let name = text::concat2("*.", domain);
        config.challenge_for(name.as_str()).0
    } else {
        config.challenge_for(domain).0
    }
}

/// The kinds of challenge that the solvers answer, in words.
pub open spec fn kind_words(solvers: Seq<ChallengeKind>) -> Seq<Seq<char>> {
    solvers.map_values(
        |k: ChallengeKind|
            match k {
                ChallengeKind::Http01 => "Http01"@,
                ChallengeKind::Dns01 => "Dns01"@,
            },
    )
}

proof fn lemma_first_stays(solvers: Seq<ChallengeKind>, offered: Seq<ChallengeKind>, n: int)
    requires
        0 <= n <= solvers.len(),
        first_offered(solvers.take(n), offered) is Some,
    ensures
        first_offered(solvers, offered) == first_offered(solvers.take(n), offered),
    decreases solvers.len() - n,
{
    if n < solvers.len() {
        assert(solvers.take(n + 1).drop_last() == solvers.take(n));
        lemma_first_stays(solvers, offered, n + 1);
    } else {
        assert(solvers.take(n) == solvers);
    }
}

fn is_offered(kind: ChallengeKind, offered: &[ChallengeKind]) -> (r: bool)
    ensures
        r == offered@.contains(kind),
{
    let mut i: usize = 0;
    while i < offered.len()
        invariant
            i <= offered@.len(),
            forall|k: int| 0 <= k < i ==> #[trigger] offered@[k] != kind,
        decreases offered@.len() - i,
    {
        if offered[i] == kind {
            return true;
        }
        i = i + 1;
    }
    false
}

fn first_solver(solvers: &[ChallengeKind], offered: &[ChallengeKind]) -> (r: Option<usize>)
    ensures
        match r {
            Some(i) => i < solvers@.len() && first_offered(solvers@, offered@) == Some(i as int),
            None => first_offered(solvers@, offered@) is None,
        },
{
    let mut i: usize = 0;
    while i < solvers.len()
        invariant
            i <= solvers@.len(),
            first_offered(solvers@.take(i as int), offered@) is None,
        decreases solvers@.len() - i,
    {
        assert(solvers@.take(i + 1).drop_last() == solvers@.take(i as int));
        if is_offered(solvers[i], offered) {
            proof {
                lemma_first_stays(solvers@, offered@, i + 1);
            }
            return Some(i);
        }
        i = i + 1;
    }
    assert(solvers@.take(solvers@.len() as int) == solvers@);
    None
}

fn choose_solver(
    configured: ChallengeKind,
    solvers: &[ChallengeKind],
    offered: &[ChallengeKind],
) -> (r: Option<usize>)
    ensures
        match r {
            Some(i) => i < solvers@.len() && chosen(configured, solvers@, offered@) == Some(
                i as int,
            ),
            None => chosen(configured, solvers@, offered@) is None,
        },
{
    if is_offered(configured, offered) && is_offered(configured, solvers) {
        let only = vec![configured];
        assert(only@ == seq![configured]);
        first_solver(solvers, only.as_slice())
    } else {
        first_solver(solvers, offered)
    }
}

fn kinds_in_words(solvers: &[ChallengeKind]) -> (r: Vec<String>)
    ensures
        text::texts(r@) == kind_words(solvers@),
{
    let mut out: Vec<String> = Vec::new();
    let mut i: usize = 0;
    while i < solvers.len()
        invariant
            i <= solvers@.len(),
            text::texts(out@) == kind_words(solvers@).take(i as int),
        decreases solvers@.len() - i,
    {
        let ghost before = out@;
        let word = match solvers[i] {
            ChallengeKind::Http01 => "Http01".to_owned(),
            ChallengeKind::Dns01 => "Dns01".to_owned(),
        };
        out.push(word);
        assert(text::texts(out@) == text::texts(before).push(word@));
        assert(kind_words(solvers@).take(i + 1) == kind_words(solvers@).take(i as int).push(
            kind_words(solvers@)[i as int],
        ));
        i = i + 1;
    }
    assert(kind_words(solvers@).take(solvers@.len() as int) == kind_words(solvers@));
    out
}

/// Is this what is decided about an authorization?
pub open spec fn decided(
    state: AuthorizationState,
    name: AuthorizedName,
    configured: ChallengeKind,
    offered: Seq<ChallengeKind>,
    solvers: Seq<ChallengeKind>,
    r: Result<Step, AcmeError>,
) -> bool {
    match state {
        AuthorizationState::Valid => r == Ok::<Step, AcmeError>(Step::Skip),
        AuthorizationState::Other(word) => r matches Err(e) && e is ValidationFailed
            && e->ValidationFailed_domain@ == name.words() && e->ValidationFailed_reason is Some
            && e->ValidationFailed_reason->0@ == "authorization is "@ + word@,
        AuthorizationState::Pending => match name {
            AuthorizedName::Other(other) => r matches Err(e) && e is ValidationFailed
                && e->ValidationFailed_domain@ == other@ && e->ValidationFailed_reason is Some
                && e->ValidationFailed_reason->0@ == "River only manages DNS identifiers"@,
            AuthorizedName::Dns(domain) => match chosen(configured, solvers, offered) {
                Some(i) => r matches Ok(Step::Answer { solver, domain: d }) && solver == i && d@
                    == domain@,
                None => r matches Err(e) && e is NoSuchChallenge && e->NoSuchChallenge_domain@
                    == domain@ && e->NoSuchChallenge_challenge@ == text::join(
                    kind_words(solvers),
                    " or "@,
                ),
            },
        },
    }
}

/// Decides about one authorization of an order.
///
/// One that is valid needs nothing. One that is pending is answered by the solver for
/// the challenge that its name is configured to use, so that an order of wildcard and
/// plain names can use a different challenge for each; where that one is not offered,
/// by the first solver whose challenge is. Anything else has failed.
pub fn solve_authorization(
    state: &AuthorizationState,
    name: &AuthorizedName,
    configured: ChallengeKind,
    offered: &[ChallengeKind],
    solvers: &[ChallengeKind],
) -> (r: Result<Step, AcmeError>)
    ensures
        decided(*state, *name, configured, offered@, solvers@, r),
{
    match state {
        AuthorizationState::Valid => {
            return Ok(Step::Skip);
        },
        AuthorizationState::Pending => {},
        AuthorizationState::Other(word) => {
            let domain = match name {
                AuthorizedName::Dns(n) => n.clone(),
                AuthorizedName::Other(n) => n.clone(),
            };
            return Err(
                AcmeError::ValidationFailed {
                    domain,
                    reason: Some(text::concat2("authorization is ", word.as_str())),
                },
            );
        },
    }
    let domain = match name {
        AuthorizedName::Dns(n) => n.clone(),
        AuthorizedName::Other(n) => {
            return Err(
                AcmeError::ValidationFailed {
                    domain: n.clone(),
                    reason: Some("River only manages DNS identifiers".to_owned()),
                },
            );
        },
    };
    match choose_solver(configured, solvers, offered) {
        Some(solver) => Ok(Step::Answer { solver, domain }),
        None => {
            let words = kinds_in_words(solvers);
            Err(
                AcmeError::NoSuchChallenge {
                    challenge: text::join_text(words.as_slice(), " or "),
                    domain,
                },
            )
        },
    }
}

/// How answering the authorizations of an order goes on.
///
/// What was published stays up until the certificate authority has made up its mind
/// about the order, or until the order is given up. Then it is withdrawn, whether the
/// answers were taken or not, before anything else happens.
#[derive(Debug)]
pub struct Answering {
    /// Are there authorizations still to come?
    pub open: bool,
    /// Is it settled how the order ends, by the certificate authority or by a failure?
    pub settled: bool,
    /// How many responses were published.
    pub presented: usize,
    /// How many of those were withdrawn.
    pub withdrawn: usize,
    /// What stopped it, if anything did.
    pub failure: Option<AcmeError>,
}

/// What the verdict of the certificate authority on an order comes to.
pub open spec fn verdict_failure(verdict: Result<OrderStatus, AcmeError>) -> Option<AcmeError> {
    match verdict {
        Ok(status) => if status == OrderStatus::Ready {
            None
        } else {
            Some(AcmeError::OrderNotReady(status))
        },
        Err(e) => Some(e),
    }
}

/// Something that happens while the authorizations of an order are answered.
pub ghost enum Event {
    /// It was decided about an authorization.
    Decided,
    /// A response was published, or could not be.
    Published(bool),
    /// The certificate authority could not be asked on.
    Failed,
    /// There are no more authorizations.
    Answered,
    /// The certificate authority has given its verdict.
    Judged,
    /// It was asked what is to be withdrawn next.
    Withdrawn(Option<usize>),
}

impl Answering {
    /// Nothing is withdrawn before it is settled how the order ends, a failure settles
    /// it, and no more is withdrawn than was published.
    pub open spec fn wf(self) -> bool {
        &&& self.withdrawn <= self.presented
        &&& self.withdrawn > 0 ==> self.settled
        &&& self.failure is Some ==> self.settled
        &&& self.open ==> !self.settled
    }

    /// Is everything withdrawn that was published?
    pub open spec fn is_clean(self) -> bool {
        self.settled && self.withdrawn == self.presented
    }

    /// Nothing has happened yet.
    pub open spec fn is_new(self) -> bool {
        self.open && !self.settled && self.presented == 0 && self.withdrawn == 0
            && self.failure is None
    }

    /// It goes on as it did.
    pub open spec fn goes_on(self, after: Answering) -> bool {
        after.open == self.open && after.settled == self.settled && after.failure == self.failure
    }

    /// It has come to nothing: what was published is to be withdrawn.
    pub open spec fn gives_up(self, after: Answering) -> bool {
        !after.open && after.settled && after.failure is Some
    }

    /// What something that happens makes of it. Only a response that was published adds
    /// to what is published, and only being asked for the next one to what is withdrawn.
    pub open spec fn steps(self, event: Event, after: Answering) -> bool {
        &&& after.wf()
        &&& after.presented == self.presented + (if event == Event::Published(true) {
            1int
        } else {
            0int
        })
        &&& after.withdrawn == self.withdrawn + (if event matches Event::Withdrawn(Some(_)) {
            1int
        } else {
            0int
        })
        &&& match event {
            Event::Decided => self.open && (self.goes_on(after) || self.gives_up(after)),
            Event::Published(done) => self.open && (if done {
                self.goes_on(after)
            } else {
                self.gives_up(after)
            }),
            Event::Failed => self.open && self.gives_up(after),
            Event::Answered => self.open && !after.open && !after.settled,
            Event::Judged => !self.open && !self.settled && !after.open && after.settled,
            Event::Withdrawn(next) => self.settled && self.goes_on(after) && (match next {
                Some(n) => n == self.withdrawn && n < self.presented,
                None => self.is_clean(),
            }),
        }
    }

    /// Before the first authorization.
    pub fn new() -> (r: Self)
        ensures
            r.wf(),
            r.is_new(),
    {
        Answering { open: true, settled: false, presented: 0, withdrawn: 0, failure: None }
    }

    /// Decides about the next authorization: which solver publishes a response for
    /// which domain, or `None` where it needs no answer. One that cannot be answered
    /// is the last.
    pub fn authorization(
        &mut self,
        state: &AuthorizationState,
        name: &AuthorizedName,
        configured: ChallengeKind,
        offered: &[ChallengeKind],
        solvers: &[ChallengeKind],
    ) -> (r: Option<(usize, String)>)
        requires
            old(self).wf(),
            old(self).open,
        ensures
            final(self).wf(),
            final(self).presented == old(self).presented,
            final(self).withdrawn == old(self).withdrawn,
            old(self).steps(Event::Decided, *final(self)),
            match r {
                Some((solver, domain)) => final(self).open && solver < solvers@.len() && decided(
                    *state,
                    *name,
                    configured,
                    offered@,
                    solvers@,
                    Ok(Step::Answer { solver, domain }),
                ),
                None => match final(self).failure {
                    Some(e) => !final(self).open && decided(
                        *state,
                        *name,
                        configured,
                        offered@,
                        solvers@,
                        Err(e),
                    ),
                    None => final(self).open && *state is Valid,
                },
            },
    {
        match solve_authorization(state, name, configured, offered, solvers) {
            Ok(Step::Skip) => None,
            Ok(Step::Answer { solver, domain }) => {
                proof {
                    a_name_is_answered_as_configured(configured, solvers@, offered@);
                }
                Some((solver, domain))
            },
            Err(e) => {
                self.open = false;
                self.settled = true;
                self.failure = Some(e);
                None
            },
        }
    }

    /// Takes note of whether a response was published. Only one that was published
    /// is to be checked by the certificate authority, and to be withdrawn later.
    pub fn published(&mut self, outcome: Result<(), AcmeError>) -> (r: bool)
        requires
            old(self).wf(),
            old(self).open,
            old(self).presented < usize::MAX,
        ensures
            final(self).wf(),
            r == outcome is Ok,
            final(self).open == r,
            final(self).presented == old(self).presented + (if r {
                1int
            } else {
                0int
            }),
            final(self).withdrawn == old(self).withdrawn,
            old(self).steps(Event::Published(r), *final(self)),
            outcome matches Err(e) ==> final(self).failure == Some(e),
    {
        match outcome {
            Ok(()) => {
                self.presented = self.presented + 1;
                true
            },
            Err(e) => {
                self.open = false;
                self.settled = true;
                self.failure = Some(e);
                false
            },
        }
    }

    /// Takes note of a failure on the side of the certificate authority, which ends
    /// it.
    pub fn failed(&mut self, failure: AcmeError)
        requires
            old(self).wf(),
            old(self).open,
        ensures
            final(self).wf(),
            !final(self).open,
            final(self).settled,
            final(self).presented == old(self).presented,
            final(self).withdrawn == old(self).withdrawn,
            old(self).steps(Event::Failed, *final(self)),
            final(self).failure == Some(failure),
    {
        self.open = false;
        self.settled = true;
        self.failure = Some(failure);
    }

    /// Takes note that there are no more authorizations. What was published is still
    /// to be looked at, so nothing is settled by that.
    pub fn answered(&mut self)
        requires
            old(self).wf(),
            old(self).open,
        ensures
            final(self).wf(),
            !final(self).open,
            !final(self).settled,
            final(self).withdrawn == 0,
            final(self).presented == old(self).presented,
            old(self).steps(Event::Answered, *final(self)),
            final(self).failure is None,
    {
        self.open = false;
    }

    /// Takes note of what the certificate authority makes of the order once every
    /// authorization is answered.
    pub fn verdict(&mut self, verdict: Result<OrderStatus, AcmeError>)
        requires
            old(self).wf(),
            !old(self).open,
            !old(self).settled,
        ensures
            final(self).wf(),
            !final(self).open,
            final(self).settled,
            final(self).presented == old(self).presented,
            final(self).withdrawn == 0,
            old(self).steps(Event::Judged, *final(self)),
            final(self).failure == verdict_failure(verdict),
    {
        self.settled = true;
        self.failure = match verdict {
            Ok(status) => match check_ready(status) {
                Ok(()) => None,
                Err(e) => Some(e),
            },
            Err(e) => Some(e),
        };
    }

    /// The number of the next response to withdraw, in the order they were published
    /// in, or `None` once there is nothing left to withdraw. None is withdrawn before
    /// it is settled how the order ends.
    pub fn withdraw(&mut self) -> (r: Option<usize>)
        requires
            old(self).wf(),
            old(self).settled,
        ensures
            final(self).wf(),
            final(self).settled,
            final(self).open == old(self).open,
            final(self).presented == old(self).presented,
            final(self).failure == old(self).failure,
            old(self).steps(Event::Withdrawn(r), *final(self)),
            match r {
                Some(n) => n == old(self).withdrawn && n < old(self).presented
                    && final(self).withdrawn == n + 1,
                None => old(self).is_clean() && final(self).is_clean(),
            },
    {
        if self.withdrawn < self.presented {
            let n: usize = self.withdrawn;
            self.withdrawn = n + 1;
            Some(n)
        } else {
            None
        }
    }

    /// How it ended. There is no saying before everything is withdrawn. Only an order
    /// that ended well is to be finished.
    pub fn outcome(self) -> (r: Result<(), AcmeError>)
        requires
            self.wf(),
            self.is_clean(),
        ensures
            r == (match self.failure {
                Some(e) => Err::<(), AcmeError>(e),
                None => Ok::<(), AcmeError>(()),
            }),
    {
        match self.failure {
            Some(e) => Err(e),
            None => Ok(()),
        }
    }
}

/// A response that was published is not withdrawn before it is settled how the order
/// ends, that is, not while authorizations are still answered and not while the
/// certificate authority has yet to give its verdict.
pub proof fn what_is_published_stays_until_the_end(answering: Answering)
    requires
        answering.wf(),
    ensures
        answering.open || !answering.settled ==> answering.withdrawn == 0,
{
}

/// The states that a series of events leads through.
pub open spec fn happened(states: Seq<Answering>, events: Seq<Event>) -> bool {
    &&& states.len() == events.len() + 1
    &&& forall|i: int|
        0 <= i < events.len() ==> states[i].steps(#[trigger] events[i], states[i + 1])
}

/// How many responses were published.
pub open spec fn published_in(events: Seq<Event>) -> nat
    decreases events.len(),
{
    if events.len() == 0 {
        0
    } else {
        published_in(events.drop_last()) + (if events.last() == Event::Published(true) {
            1nat
        } else {
            0nat
        })
    }
}

/// The responses that were handed out to be withdrawn, in order.
pub open spec fn withdrawn_in(events: Seq<Event>) -> Seq<int>
    decreases events.len(),
{
    if events.len() == 0 {
        Seq::empty()
    } else {
        match events.last() {
            Event::Withdrawn(Some(n)) => withdrawn_in(events.drop_last()).push(n as int),
            _ => withdrawn_in(events.drop_last()),
        }
    }
}

/// The first `n` numbers.
pub open spec fn counted(n: nat) -> Seq<int> {
    Seq::new(n, |i: int| i)
}

proof fn lemma_happened_before(states: Seq<Answering>, events: Seq<Event>)
    requires
        happened(states, events),
        events.len() > 0,
    ensures
        happened(states.drop_last(), events.drop_last()),
        states.drop_last().last().steps(events.last(), states.last()),
{
    let before = states.drop_last();
    let front = events.drop_last();
    assert forall|i: int| 0 <= i < front.len() implies before[i].steps(
        #[trigger] front[i],
        before[i + 1],
    ) by {
        assert(front[i] == events[i]);
        assert(before[i] == states[i] && before[i + 1] == states[i + 1]);
    }
    let last = events.len() - 1;
    assert(states[last].steps(events[last], states[last + 1]));
}

/// However answering the authorizations of an order goes, the responses that are handed
/// out to be withdrawn are ones that were published, each once and in order. None is
/// before it is settled how the order ends; and where there is nothing left to withdraw,
/// every one that was published has been.
pub proof fn each_response_is_withdrawn_once(states: Seq<Answering>, events: Seq<Event>)
    requires
        happened(states, events),
        states[0].is_new(),
    ensures
        states.last().wf(),
        states.last().presented == published_in(events),
        withdrawn_in(events) == counted(states.last().withdrawn as nat),
        withdrawn_in(events).len() <= published_in(events),
        !states.last().settled ==> withdrawn_in(events).len() == 0,
        states.last().is_clean() ==> withdrawn_in(events) == counted(published_in(events)),
    decreases events.len(),
{
    if events.len() > 0 {
        lemma_happened_before(states, events);
        each_response_is_withdrawn_once(states.drop_last(), events.drop_last());
        let before = states.drop_last().last();
        match events.last() {
            Event::Withdrawn(Some(n)) => {
                assert(counted((before.withdrawn + 1) as nat) == counted(
                    before.withdrawn as nat,
                ).push(n as int));
            },
            _ => {},
        }
    } else {
        assert(counted(0) == Seq::<int>::empty());
    }
}

/// Asking for what is to be withdrawn, over and over.
pub open spec fn is_withdrawing(events: Seq<Event>) -> bool {
    forall|i: int| 0 <= i < events.len() ==> #[trigger] events[i] is Withdrawn
}

/// Once it is settled how the order ends, whether by a failure or by the verdict of the
/// certificate authority, asking over and over what is to be withdrawn gives each response
/// that was published, from the first to the last, and from then on nothing. How it ended
/// stays as it was.
pub proof fn withdrawing_comes_to_an_end(states: Seq<Answering>, events: Seq<Event>)
    requires
        happened(states, events),
        is_withdrawing(events),
        states[0].wf(),
        states[0].settled,
        states[0].withdrawn == 0,
    ensures
        forall|i: int|
            0 <= i < events.len() ==> #[trigger] events[i] == Event::Withdrawn(
                if i < states[0].presented {
                    Some(i as usize)
                } else {
                    None
                },
            ),
        states.last().presented == states[0].presented,
        states.last().failure == states[0].failure,
        states.last().withdrawn == (if events.len() < states[0].presented {
            events.len() as int
        } else {
            states[0].presented as int
        }),
        states.last().is_clean() == (events.len() >= states[0].presented),
    decreases events.len(),
{
    if events.len() > 0 {
        let front = events.drop_last();
        lemma_happened_before(states, events);
        assert(is_withdrawing(front)) by {
            assert forall|i: int| 0 <= i < front.len() implies #[trigger] front[i] is Withdrawn by {
                assert(events[i] is Withdrawn);
            }
        }
        withdrawing_comes_to_an_end(states.drop_last(), front);
        let last = events.len() - 1;
        assert(events[last] is Withdrawn);
        assert forall|i: int| 0 <= i < events.len() implies #[trigger] events[i]
            == Event::Withdrawn(
            if i < states[0].presented {
                Some(i as usize)
            } else {
                None
            },
        ) by {
            if i < last {
                assert(front[i] == events[i]);
            }
        }
    }
}

/// Whatever settles how an order ends, nothing has been withdrawn by then.
pub proof fn what_settles_it_withdraws_nothing(before: Answering, event: Event, after: Answering)
    requires
        before.wf(),
        !before.settled,
        before.steps(event, after),
        after.settled,
    ensures
        after.withdrawn == 0,
        after.presented == before.presented,
{
}

/// The first solver whose challenge is offered: its challenge is among those, and that
/// of no earlier one.
proof fn lemma_first_offered(solvers: Seq<ChallengeKind>, offered: Seq<ChallengeKind>)
    ensures
        match first_offered(solvers, offered) {
            Some(i) => 0 <= i < solvers.len() && offered.contains(solvers[i]) && forall|k: int|
                0 <= k < i ==> !offered.contains(#[trigger] solvers[k]),
            None => forall|k: int|
                0 <= k < solvers.len() ==> !offered.contains(#[trigger] solvers[k]),
        },
    decreases solvers.len(),
{
    if solvers.len() > 0 {
        let front = solvers.drop_last();
        lemma_first_offered(front, offered);
        assert forall|k: int| 0 <= k < front.len() implies front[k] == solvers[k] by {}
        match first_offered(front, offered) {
            Some(i) => {
                assert forall|k: int| 0 <= k < i implies !offered.contains(
                    #[trigger] solvers[k],
                ) by {
                    assert(!offered.contains(front[k]));
                }
            },
            None => {
                assert forall|k: int| 0 <= k < solvers.len() - 1 implies !offered.contains(
                    #[trigger] solvers[k],
                ) by {
                    assert(!offered.contains(front[k]));
                }
            },
        }
    }
}

/// A name is answered with the challenge that it is configured to use, where that one is
/// offered and there is a solver for it, whatever other solvers stand before that one.
/// Where it is not to be had, the name is answered by the first solver whose challenge is
/// offered; and it is not answered only where there is no such solver.
pub proof fn a_name_is_answered_as_configured(
    configured: ChallengeKind,
    solvers: Seq<ChallengeKind>,
    offered: Seq<ChallengeKind>,
)
    ensures
        match chosen(configured, solvers, offered) {
            Some(i) => {
                &&& 0 <= i < solvers.len()
                &&& offered.contains(solvers[i])
                &&& offered.contains(configured) && solvers.contains(configured) ==> solvers[i]
                    == configured
                &&& !(offered.contains(configured) && solvers.contains(configured)) ==> forall|
                    k: int,
                |
                    0 <= k < i ==> !offered.contains(#[trigger] solvers[k])
            },
            None => forall|k: int|
                0 <= k < solvers.len() ==> !offered.contains(#[trigger] solvers[k]),
        },
{
    lemma_first_offered(solvers, offered);
    if offered.contains(configured) && solvers.contains(configured) {
        let only = seq![configured];
        lemma_first_offered(solvers, only);
        let k = choose|k: int| 0 <= k < solvers.len() && solvers[k] == configured;
        assert(only[0] == solvers[k]);
        match first_offered(solvers, only) {
            Some(i) => {
                let j = choose|j: int| 0 <= j < only.len() && only[j] == solvers[i];
                assert(only[j] == configured);
            },
            None => {
                assert(!only.contains(solvers[k]));
            },
        }
    }
}

/// May the order be finished? Only once the certificate authority has made up
/// its mind that it is ready.
pub fn check_ready(status: OrderStatus) -> (r: Result<(), AcmeError>)
    ensures
        r == (if status == OrderStatus::Ready {
            Ok::<(), AcmeError>(())
        } else {
            Err::<(), AcmeError>(AcmeError::OrderNotReady(status))
        }),
{
    if status == OrderStatus::Ready {
        Ok(())
    } else {
        Err(AcmeError::OrderNotReady(status))
    }
}

/// The names that an order is placed for. A wildcard is ordered with its `*.`.
pub fn identifiers(domains: &[ServedName]) -> (r: Vec<String>)
    ensures
        text::texts(r@) == names::written_names(names::name_views(domains@)),
{
    names::write_names(domains)
}

/// The certificate that makes an order unnecessary: one that another process
/// obtained in the meantime, unless that one is due for renewal itself.
pub fn reuse(existing: Option<StoredCertificate>, due: bool) -> (r: Option<CertificateBundle>)
    ensures
        r == (match existing {
            Some(stored) => if due {
                None
            } else {
                Some(stored.bundle)
            },
            None => None,
        }),
{
    match existing {
        Some(stored) => if due {
            None
        } else {
            Some(stored.bundle)
        },
        None => None,
    }
}

/// An authorization that is valid needs nothing. A pending one is answered by the solver
/// for the challenge that is configured, where that is offered and there is one; it fails
/// only where no solver's challenge is offered. One in any other state has failed.
pub proof fn an_authorization_is_answered_or_fails(
    state: AuthorizationState,
    name: AuthorizedName,
    configured: ChallengeKind,
    offered: Seq<ChallengeKind>,
    solvers: Seq<ChallengeKind>,
    r: Result<Step, AcmeError>,
)
    requires
        decided(state, name, configured, offered, solvers, r),
    ensures
        match state {
            AuthorizationState::Valid => r matches Ok(Step::Skip),
            AuthorizationState::Other(_) => r is Err,
            AuthorizationState::Pending => match name {
                AuthorizedName::Other(_) => r is Err,
                AuthorizedName::Dns(domain) => {
                    &&& (exists|k: int|
                        0 <= k < solvers.len() && offered.contains(#[trigger] solvers[k]))
                        ==> (r matches Ok(Step::Answer { solver, domain: d }) && d@ == domain@
                        && solver < solvers.len() && offered.contains(solvers[solver as int]))
                    &&& offered.contains(configured) && solvers.contains(configured) ==> (
                    r matches Ok(Step::Answer { solver, .. }) && solver < solvers.len()
                        && solvers[solver as int] == configured)
                    &&& (forall|k: int|
                        0 <= k < solvers.len() ==> !offered.contains(#[trigger] solvers[k]))
                        ==> r is Err
                },
            },
        },
{
    a_name_is_answered_as_configured(configured, solvers, offered);
    if offered.contains(configured) && solvers.contains(configured) {
        let k = solvers.index_of(configured);
        assert(offered.contains(solvers[k]));
    }
}

/// A wildcard is ordered with `*.` before the domain that it is validated by, and any other
/// name as it is.
pub proof fn a_wildcard_is_ordered_as_one(domain: Seq<char>)
    ensures
        ordered_name(domain, true) == "*."@ + domain,
        ordered_name(domain, false) == domain,
{
}

/// Where the configured challenge cannot be answered, it is the first solver whose challenge
/// is offered that answers, wherever in the list it stands, and there is none only where
/// none is offered.
pub proof fn the_first_solver_on_offer_is_found(
    solvers: Seq<ChallengeKind>,
    offered: Seq<ChallengeKind>,
    i: int,
)
    requires
        0 <= i <= solvers.len(),
        forall|k: int| 0 <= k < i ==> !offered.contains(#[trigger] solvers[k]),
        i < solvers.len() ==> offered.contains(solvers[i]),
    ensures
        first_offered(solvers, offered) == (if i < solvers.len() {
            Some(i)
        } else {
            None
        }),
    decreases solvers.len(),
{
    if solvers.len() > 0 {
        let front = solvers.drop_last();
        assert forall|k: int| 0 <= k < i && k < front.len() implies !offered.contains(
            #[trigger] front[k],
        ) by {
            assert(front[k] == solvers[k]);
        }
        if i < solvers.len() {
            the_first_solver_on_offer_is_found(front, offered, i);
        } else {
            assert(!offered.contains(solvers[solvers.len() - 1]));
            the_first_solver_on_offer_is_found(front, offered, front.len() as int);
        }
    }
}

/// An order goes on if and only if it is ready; anything else is told as it came.
pub proof fn only_a_ready_order_goes_on(verdict: Result<OrderStatus, AcmeError>)
    ensures
        verdict_failure(verdict) is None <==> verdict == Ok::<OrderStatus, AcmeError>(
            OrderStatus::Ready,
        ),
        verdict matches Err(e) ==> verdict_failure(verdict) == Some(e),
        verdict matches Ok(status) && status != OrderStatus::Ready ==> verdict_failure(verdict)
            == Some(AcmeError::OrderNotReady(verdict->Ok_0)),
{
}

} // verus!
