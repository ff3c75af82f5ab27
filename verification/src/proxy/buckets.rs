//! The buckets of tokens that rate limiting rules hand out.
//!
//! A bucket starts full. A request that a rule applies to takes one token out of
//! the bucket, or is declined where there is none. Tokens are put back at a fixed
//! rate, never more than the bucket started with.
use crate::net::IpAddr;
use crate::proxy::discovery::resolver::Moment;
use crate::proxy::rate_limiting::{
    self, AllRateConfig, MultiRaterConfig, MultiRequestKeyKind, SingleInstanceConfig, SingleRequestKeyKind,
};
use crate::text;
use vstd::prelude::*;

verus! {

/// How many tokens a bucket holds, and how fast they are put back.
#[derive(Debug, Clone, Copy, PartialEq, Eq, Structural)]
pub struct Rate {
    pub max: usize,
    /// How long it takes until tokens are put back, in milliseconds.
    pub every: usize,
    /// How many are put back.
    pub qty: usize,
}

/// The tokens of one bucket.
#[derive(Debug, Clone, Copy, PartialEq, Eq, Structural)]
pub struct Bucket {
    pub tokens: usize,
    /// When tokens were last put back.
    pub refilled: Moment,
}

/// Whether a request got the token that it asked for.
#[derive(Debug, Clone, Copy, PartialEq, Eq, Structural)]
pub enum Outcome {
    Approved,
    Declined,
}

impl Bucket {
    /// No more tokens than the bucket holds.
    pub open spec fn wf(self, rate: Rate) -> bool {
        self.tokens <= rate.max
    }

    /// How often tokens have been put back since they last were.
    pub open spec fn refills(self, rate: Rate, now: Moment) -> int {
        if now <= self.refilled {
            0
        } else {
            (now - self.refilled) / rate.every as int
        }
    }

    /// The bucket with the tokens that have been put back by `now`. Where nothing has
    /// to be waited for the bucket is always full.
    pub open spec fn topped_up(self, rate: Rate, now: Moment) -> Bucket {
        if rate.every == 0 {
            Bucket { tokens: rate.max, refilled: self.refilled }
        } else {
            let n = self.refills(rate, now);
            let sum = self.tokens + n * rate.qty;
            Bucket {
                tokens: if sum > rate.max {
                    rate.max
                } else {
                    sum as usize
                },
                refilled: (self.refilled + n * rate.every) as u128,
            }
        }
    }

    /// The bucket once a token has been asked for.
    pub open spec fn asked(self, rate: Rate, now: Moment) -> Bucket {
        let full = self.topped_up(rate, now);
        if full.tokens > 0 {
            Bucket { tokens: (full.tokens - 1) as usize, refilled: full.refilled }
        } else {
            full
        }
    }

    /// Is there a token for whoever asks?
    pub open spec fn grants(self, rate: Rate, now: Moment) -> bool {
        self.topped_up(rate, now).tokens > 0
    }

    /// A full bucket.
    pub fn new(rate: &Rate, now: Moment) -> (r: Self)
        ensures
            r.wf(*rate),
            r == (Bucket { tokens: rate.max, refilled: now }),
    {
        Bucket { tokens: rate.max, refilled: now }
    }

    fn top_up(&mut self, rate: &Rate, now: Moment)
        requires
            old(self).wf(*rate),
        ensures
            final(self).wf(*rate),
            *final(self) == old(self).topped_up(*rate, now),
    {
        if rate.every == 0 {
            self.tokens = rate.max;
            return ;
        }
        if now <= self.refilled {
            assert(0 * rate.qty == 0) by (nonlinear_arith);
            assert(0 * rate.every == 0) by (nonlinear_arith);
            return ;
        }
        let every: u128 = rate.every as u128;
        let waited: u128 = now - self.refilled;
        let n: u128 = waited / every;
        let spent: u128 = waited % every;
        let qty: u128 = rate.qty as u128;
        let missing: u128 = (rate.max - self.tokens) as u128;
        proof {
            vstd::arithmetic::div_mod::lemma_fundamental_div_mod(waited as int, every as int);
            assert(n * rate.every == every * n) by (nonlinear_arith)
                requires
                    every == rate.every,
            ;
        }
        if qty == 0 || n == 0 {
            assert(n * rate.qty == 0) by (nonlinear_arith)
                requires
                    rate.qty == 0 || n == 0,
            ;
        } else {
            // One more than the refills that certainly fit.
            let whole: u128 = missing / qty;
            proof {
                vstd::arithmetic::div_mod::lemma_fundamental_div_mod(missing as int, qty as int);
            }
            if n > whole {
                assert(n * rate.qty >= missing) by (nonlinear_arith)
                    requires
                        qty == rate.qty,
                        n >= whole + 1,
                        missing == qty * whole + missing % qty,
                        missing % qty < qty,
                ;
                self.tokens = rate.max;
            } else {
                assert(n * qty <= missing) by (nonlinear_arith)
                    requires
                        n <= whole,
                        missing == qty * whole + missing % qty,
                        0 <= missing % qty,
                        qty > 0,
                ;
                let added: u128 = n * qty;
                self.tokens = self.tokens + added as usize;
            }
        }
        self.refilled = now - spent;
    }

    /// Takes one token, if there is one by now.
    pub fn take(&mut self, rate: &Rate, now: Moment) -> (r: Outcome)
        requires
            old(self).wf(*rate),
        ensures
            final(self).wf(*rate),
            *final(self) == old(self).asked(*rate, now),
            r == (if old(self).grants(*rate, now) {
                Outcome::Approved
            } else {
                Outcome::Declined
            }),
    {
        self.top_up(rate, now);
        if self.tokens > 0 {
            self.tokens = self.tokens - 1;
            Outcome::Approved
        } else {
            Outcome::Declined
        }
    }
}

/// The bucket once it has been asked at each of these moments.
pub open spec fn after_all(b: Bucket, rate: Rate, at: Seq<Moment>) -> Bucket
    decreases at.len(),
{
    if at.len() == 0 {
        b
    } else {
        after_all(b, rate, at.drop_last()).asked(rate, at.last())
    }
}

/// How many of those who ask at these moments get a token.
pub open spec fn granted(b: Bucket, rate: Rate, at: Seq<Moment>) -> int
    decreases at.len(),
{
    if at.len() == 0 {
        0
    } else {
        granted(b, rate, at.drop_last()) + (if after_all(b, rate, at.drop_last()).grants(
            rate,
            at.last(),
        ) {
            1int
        } else {
            0int
        })
    }
}

/// Moments one after the other, none before `from`.
pub open spec fn in_turn(from: Moment, at: Seq<Moment>) -> bool {
    forall|i: int|
        0 <= i < at.len() ==> #[trigger] at[i] >= from && (i > 0 ==> at[i] >= at[i - 1])
}

proof fn lemma_refilled(b: Bucket, rate: Rate, now: Moment)
    requires
        rate.every > 0,
        b.wf(rate),
    ensures
        b.topped_up(rate, now).wf(rate),
        b.refills(rate, now) >= 0,
        b.refilled <= now ==> b.topped_up(rate, now).refilled <= now,
        b.topped_up(rate, now).refilled == b.refilled + b.refills(rate, now) * rate.every,
        b.topped_up(rate, now).tokens <= b.tokens + b.refills(rate, now) * rate.qty,
{
    let n = b.refills(rate, now);
    let every = rate.every as int;
    if now > b.refilled {
        vstd::arithmetic::div_mod::lemma_fundamental_div_mod(now - b.refilled, every);
        vstd::arithmetic::div_mod::lemma_div_pos_is_pos(now - b.refilled, every);
        assert(n * every == every * n) by (nonlinear_arith);
    } else {
        assert(n * every == 0) by (nonlinear_arith)
            requires
                n == 0,
        ;
    }
    assert(n * rate.qty >= 0) by (nonlinear_arith)
        requires
            n >= 0,
    ;
    assert(n * every >= 0) by (nonlinear_arith)
        requires
            n >= 0,
            every > 0,
    ;
}

proof fn lemma_granted(b: Bucket, rate: Rate, at: Seq<Moment>, refills: int)
    requires
        rate.every > 0,
        b.wf(rate),
        in_turn(b.refilled, at),
        after_all(b, rate, at).refilled == b.refilled + refills * rate.every,
    ensures
        after_all(b, rate, at).wf(rate),
        at.len() > 0 ==> after_all(b, rate, at).refilled <= at.last(),
        refills >= 0,
        granted(b, rate, at) + after_all(b, rate, at).tokens <= b.tokens + refills * rate.qty,
    decreases at.len(),
{
    let every = rate.every as int;
    if at.len() == 0 {
        assert(refills == 0) by (nonlinear_arith)
            requires
                refills * every == 0,
                every > 0,
        ;
        assert(refills * rate.qty == 0) by (nonlinear_arith)
            requires
                refills == 0,
        ;
    } else {
        let front = at.drop_last();
        let before = after_all(b, rate, front);
        assert forall|i: int| 0 <= i < front.len() implies #[trigger] front[i] >= b.refilled && (i
            > 0 ==> front[i] >= front[i - 1]) by {
            assert(front[i] == at[i]);
        }
        lemma_steps(b, rate, front);
        let k = choose|k: int| before.refilled == b.refilled + #[trigger] (k * every);
        lemma_granted(b, rate, front, k);
        assert(at[at.len() - 1] >= b.refilled);
        if front.len() > 0 {
            assert(at[at.len() - 1] >= at[at.len() - 2]);
        }
        lemma_refilled(before, rate, at.last());
        let n = before.refills(rate, at.last());
        assert(refills == k + n) by (nonlinear_arith)
            requires
                refills * every == k * every + n * every,
                every > 0,
        ;
        assert(refills * rate.qty == k * rate.qty + n * rate.qty) by (nonlinear_arith)
            requires
                refills == k + n,
        ;
    }
}

proof fn lemma_steps(b: Bucket, rate: Rate, at: Seq<Moment>)
    requires
        rate.every > 0,
        b.wf(rate),
    ensures
        after_all(b, rate, at).wf(rate),
        exists|k: int|
            after_all(b, rate, at).refilled == b.refilled + #[trigger] (k * rate.every as int),
    decreases at.len(),
{
    let every = rate.every as int;
    if at.len() == 0 {
        assert(0 * every == 0) by (nonlinear_arith);
        assert(b.refilled == b.refilled + 0 * every);
    } else {
        let before = after_all(b, rate, at.drop_last());
        lemma_steps(b, rate, at.drop_last());
        let k = choose|k: int| before.refilled == b.refilled + #[trigger] (k * every);
        lemma_refilled(before, rate, at.last());
        let n = before.refills(rate, at.last());
        assert((k + n) * every == k * every + n * every) by (nonlinear_arith);
        assert(after_all(b, rate, at).refilled == b.refilled + (k + n) * every);
    }
}

/// No more requests get a token than there were tokens in the bucket and have been put
/// back in the time that passed, however the requests come.
pub proof fn no_more_is_granted_than_was_put_in(b: Bucket, rate: Rate, at: Seq<Moment>)
    requires
        rate.every > 0,
        b.wf(rate),
        at.len() > 0,
        in_turn(b.refilled, at),
    ensures
        granted(b, rate, at) <= b.tokens + ((at.last() - b.refilled) / rate.every as int)
            * rate.qty,
{
    let every = rate.every as int;
    lemma_steps(b, rate, at);
    let end = after_all(b, rate, at);
    let k = choose|k: int| end.refilled == b.refilled + #[trigger] (k * every);
    lemma_granted(b, rate, at, k);
    let passed = at.last() - b.refilled;
    vstd::arithmetic::div_mod::lemma_fundamental_div_mod(passed, every);
    let whole = passed / every;
    assert(k <= whole) by (nonlinear_arith)
        requires
            k * every <= passed,
            passed == every * whole + passed % every,
            passed % every < every,
            every > 0,
    ;
    assert(k * rate.qty <= whole * rate.qty) by (nonlinear_arith)
        requires
            k <= whole,
    ;
}

/// A rule with one bucket for all the requests that it applies to.
#[derive(Debug)]
pub struct SingleInstance {
    pub kind: SingleRequestKeyKind,
    pub rate: Rate,
    pub bucket: Bucket,
}

impl SingleInstance {
    pub open spec fn wf(self) -> bool {
        self.bucket.wf(self.rate)
    }

    /// Does the rule apply to requests for the path?
    pub open spec fn applies(self, path: Seq<char>) -> bool {
        match self.kind {
            SingleRequestKeyKind::UriGroup { pattern } => rate_limiting::regex_finds(
                pattern.source(),
                path,
            ),
        }
    }

    /// The rule once a request has come by.
    pub open spec fn stepped(self, path: Seq<char>, now: Moment) -> Self {
        if self.applies(path) {
            SingleInstance {
                kind: self.kind,
                rate: self.rate,
                bucket: self.bucket.asked(self.rate, now),
            }
        } else {
            self
        }
    }

    /// Is a request for the path declined?
    pub open spec fn declines(self, path: Seq<char>, now: Moment) -> bool {
        self.applies(path) && !self.bucket.grants(self.rate, now)
    }

    /// The rule with a full bucket.
    pub open spec fn is_new(
        self,
        kind: SingleRequestKeyKind,
        config: SingleInstanceConfig,
        now: Moment,
    ) -> bool {
        &&& self.kind == kind
        &&& self.rate == Rate {
            max: config.max_tokens_per_bucket,
            every: config.refill_interval_millis,
            qty: config.refill_qty,
        }
        &&& self.bucket == Bucket { tokens: self.rate.max, refilled: now }
    }

    /// A rule whose bucket is full.
    pub fn new(config: SingleInstanceConfig, kind: SingleRequestKeyKind, now: Moment) -> (r: Self)
        ensures
            r.wf(),
            r.is_new(kind, config, now),
    {
        let rate = Rate {
            max: config.max_tokens_per_bucket,
            every: config.refill_interval_millis,
            qty: config.refill_qty,
        };
        SingleInstance { kind, rate, bucket: Bucket::new(&rate, now) }
    }

    /// Asks for a token on behalf of a request for the path. `None` where the rule does
    /// not apply to it.
    pub fn get_ticket(&mut self, path: &str, now: Moment) -> (r: Option<Outcome>)
        requires
            old(self).wf(),
        ensures
            final(self).wf(),
            *final(self) == old(self).stepped(path@, now),
            r is Some == old(self).applies(path@),
            r == Some(Outcome::Declined) <==> old(self).declines(path@, now),
    {
        let applies = match &self.kind {
            SingleRequestKeyKind::UriGroup { pattern } => pattern.is_match(path),
        };
        if applies {
            Some(self.bucket.take(&self.rate, now))
        } else {
            None
        }
    }
}

/// What the buckets of a rule are kept by.
#[derive(Debug, Clone)]
pub enum Key {
    Ip(IpAddr),
    Uri(String),
}

/// What the buckets of a rule are kept by.
pub ghost enum KeyView {
    Ip(IpAddr),
    Uri(Seq<char>),
}

impl View for Key {
    type V = KeyView;

    open spec fn view(&self) -> KeyView {
        match self {
            Key::Ip(ip) => KeyView::Ip(*ip),
            Key::Uri(path) => KeyView::Uri(path@),
        }
    }
}

fn same_key(a: &Key, b: &Key) -> (r: bool)
    ensures
        r == (a@ == b@),
{
    match (a, b) {
        (Key::Ip(x), Key::Ip(y)) => *x == *y,
        (Key::Uri(x), Key::Uri(y)) => text::same_text(x.as_str(), y.as_str()),
        _ => false,
    }
}

/// A rule with a bucket for each key.
#[derive(Debug)]
pub struct MultiRaterInstance {
    pub kind: MultiRequestKeyKind,
    pub rate: Rate,
    pub max_buckets: usize,
    /// The buckets, the one that was used last at the end.
    pub buckets: Vec<(Key, Bucket)>,
}

/// The buckets of a rule, by their keys.
pub type Kept = Seq<(KeyView, Bucket)>;

/// The buckets as pairs of what they are kept by and what they hold.
pub open spec fn kept_of(buckets: Seq<(Key, Bucket)>) -> Kept {
    buckets.map_values(|e: (Key, Bucket)| (e.0@, e.1))
}

/// Where the bucket of a key is.
pub open spec fn place_of(kept: Kept, key: KeyView) -> Option<int>
    decreases kept.len(),
{
    if kept.len() == 0 {
        None
    } else if kept.last().0 == key {
        Some(kept.len() - 1)
    } else {
        place_of(kept.drop_last(), key)
    }
}

/// The buckets of the other keys.
pub open spec fn without(kept: Kept, key: KeyView) -> Kept {
    match place_of(kept, key) {
        Some(i) => kept.remove(i),
        None => kept,
    }
}

/// The buckets once the bucket of a key has been replaced. It is the one that was used
/// last from then on, and where there are too many, the one that has not been used for
/// the longest time goes.
pub open spec fn used(kept: Kept, key: KeyView, bucket: Bucket, max: int) -> Kept {
    let all = without(kept, key).push((key, bucket));
    if all.len() > max {
        all.drop_first()
    } else {
        all
    }
}

impl MultiRaterInstance {
    /// There are no more buckets than there may be, one for each key, and none holds
    /// more than it may.
    pub open spec fn wf(self) -> bool {
        let kept = kept_of(self.buckets@);
        &&& kept.len() <= self.max_buckets
        &&& forall|i: int, j: int|
            0 <= i < j < kept.len() ==> (#[trigger] kept[i]).0 != (#[trigger] kept[j]).0
        &&& forall|i: int| 0 <= i < kept.len() ==> (#[trigger] kept[i]).1.wf(self.rate)
    }

    /// What the bucket of a request is kept by, where the rule applies to the request.
    pub open spec fn key_of(self, client: Option<IpAddr>, path: Seq<char>) -> Option<KeyView> {
        match self.kind {
            MultiRequestKeyKind::SourceIp => match client {
                Some(ip) => Some(KeyView::Ip(ip)),
                None => None,
            },
            MultiRequestKeyKind::Uri { pattern } => if rate_limiting::regex_finds(
                pattern.source(),
                path,
            ) {
                Some(KeyView::Uri(path))
            } else {
                None
            },
        }
    }

    /// The bucket of a key: a full one, where there is none.
    pub open spec fn bucket_of(self, key: KeyView, now: Moment) -> Bucket {
        match place_of(kept_of(self.buckets@), key) {
            Some(i) => kept_of(self.buckets@)[i].1,
            None => Bucket { tokens: self.rate.max, refilled: now },
        }
    }

    /// The buckets once a request has come by.
    pub open spec fn stepped(self, client: Option<IpAddr>, path: Seq<char>, now: Moment) -> Kept {
        match self.key_of(client, path) {
            Some(key) => used(
                kept_of(self.buckets@),
                key,
                self.bucket_of(key, now).asked(self.rate, now),
                self.max_buckets as int,
            ),
            None => kept_of(self.buckets@),
        }
    }

    /// Is the request declined?
    pub open spec fn declines(self, client: Option<IpAddr>, path: Seq<char>, now: Moment) -> bool {
        self.key_of(client, path) matches Some(key) && !self.bucket_of(key, now).grants(
            self.rate,
            now,
        )
    }

    /// The rule without any buckets.
    pub open spec fn is_new(self, kind: MultiRequestKeyKind, config: MultiRaterConfig) -> bool {
        &&& self.kind == kind
        &&& self.rate == Rate {
            max: config.max_tokens_per_bucket,
            every: config.refill_interval_millis,
            qty: config.refill_qty,
        }
        &&& self.max_buckets == config.max_buckets
        &&& self.buckets@.len() == 0
    }

    /// A rule that has no buckets yet.
    pub fn new(config: MultiRaterConfig, kind: MultiRequestKeyKind) -> (r: Self)
        ensures
            r.wf(),
            r.is_new(kind, config),
    {
        MultiRaterInstance {
            kind,
            rate: Rate {
                max: config.max_tokens_per_bucket,
                every: config.refill_interval_millis,
                qty: config.refill_qty,
            },
            max_buckets: config.max_buckets,
            buckets: Vec::new(),
        }
    }

    fn key_for(&self, client: Option<IpAddr>, path: &str) -> (r: Option<Key>)
        ensures
            match r {
                Some(key) => self.key_of(client, path@) == Some(key@),
                None => self.key_of(client, path@) is None,
            },
    {
        match &self.kind {
            MultiRequestKeyKind::SourceIp => match client {
                Some(ip) => Some(Key::Ip(ip)),
                None => None,
            },
            MultiRequestKeyKind::Uri { pattern } => if pattern.is_match(path) {
                Some(Key::Uri(path.to_owned()))
            } else {
                None
            },
        }
    }

    fn find(&self, key: &Key) -> (r: Option<usize>)
        ensures
            match r {
                Some(i) => i < self.buckets@.len() && place_of(kept_of(self.buckets@), key@)
                    == Some(i as int),
                None => place_of(kept_of(self.buckets@), key@) is None,
            },
    {
        let ghost kept = kept_of(self.buckets@);
        let mut i: usize = self.buckets.len();
        assert(kept.take(kept.len() as int) == kept);
        while i > 0
            invariant
                i <= self.buckets@.len(),
                kept == kept_of(self.buckets@),
                place_of(kept, key@) == place_of(kept.take(i as int), key@),
            decreases i,
        {
            i = i - 1;
            assert(kept.take(i + 1).drop_last() == kept.take(i as int));
            assert(kept.take(i + 1).last() == kept[i as int]);
            if same_key(&self.buckets[i].0, key) {
                return Some(i);
            }
        }
        None
    }

    /// Asks for a token on behalf of a request. `None` where the rule does not apply to
    /// it.
    pub fn get_ticket(&mut self, client: Option<IpAddr>, path: &str, now: Moment) -> (r: Option<
        Outcome,
    >)
        requires
            old(self).wf(),
        ensures
            final(self).wf(),
            final(self).kind == old(self).kind,
            final(self).rate == old(self).rate,
            final(self).max_buckets == old(self).max_buckets,
            kept_of(final(self).buckets@) == old(self).stepped(client, path@, now),
            r is Some == old(self).key_of(client, path@) is Some,
            r == Some(Outcome::Declined) <==> old(self).declines(client, path@, now),
    {
        let key = match self.key_for(client, path) {
            Some(key) => key,
            None => return None,
        };
        let ghost before = kept_of(self.buckets@);
        let at = self.find(&key);
        let mut bucket = match at {
            Some(i) => {
                assert(before[i as int].1 == self.buckets@[i as int].1);
                let (_, bucket) = self.buckets.remove(i);
                assert(kept_of(self.buckets@) == before.remove(i as int));
                bucket
            },
            None => Bucket::new(&self.rate, now),
        };
        let ghost others = kept_of(self.buckets@);
        proof {
            lemma_others(before, key@);
            assert(others == without(before, key@));
            assert forall|i: int| 0 <= i < others.len() implies (#[trigger] others[i]).1.wf(
                self.rate,
            ) by {
                assert(exists|k: int| 0 <= k < before.len() && #[trigger] before[k] == others[i]);
            }
        }
        let outcome = bucket.take(&self.rate, now);
        let ghost entry = (key@, bucket);
        self.buckets.push((key, bucket));
        let ghost all = others.push(entry);
        assert(kept_of(self.buckets@) == all);
        proof {
            assert forall|i: int, j: int| 0 <= i < j < all.len() implies (#[trigger] all[i]).0 != (
            #[trigger] all[j]).0 by {
                assert(all[i] == others[i]);
                if j < others.len() {
                    assert(all[j] == others[j]);
                }
            }
            assert forall|i: int| 0 <= i < all.len() implies (#[trigger] all[i]).1.wf(self.rate) by {
                if i < others.len() {
                    assert(all[i] == others[i]);
                }
            }
        }
        if self.buckets.len() > self.max_buckets {
            self.buckets.remove(0);
            let ghost rest = all.drop_first();
            assert(kept_of(self.buckets@) == rest);
            proof {
                assert forall|i: int, j: int| 0 <= i < j < rest.len() implies (#[trigger] rest[i]).0
                    != (#[trigger] rest[j]).0 by {
                    assert(rest[i] == all[i + 1] && rest[j] == all[j + 1]);
                }
                assert forall|i: int| 0 <= i < rest.len() implies (#[trigger] rest[i]).1.wf(
                    self.rate,
                ) by {
                    assert(rest[i] == all[i + 1]);
                }
            }
        }
        Some(outcome)
    }
}

proof fn lemma_place(kept: Kept, key: KeyView)
    ensures
        match place_of(kept, key) {
            Some(i) => 0 <= i < kept.len() && kept[i].0 == key,
            None => forall|i: int| 0 <= i < kept.len() ==> (#[trigger] kept[i]).0 != key,
        },
    decreases kept.len(),
{
    if kept.len() > 0 && kept.last().0 != key {
        let front = kept.drop_last();
        lemma_place(front, key);
        if place_of(front, key) is None {
            assert forall|i: int| 0 <= i < kept.len() implies (#[trigger] kept[i]).0 != key by {
                if i < front.len() {
                    assert(front[i].0 != key);
                }
            }
        }
    }
}

/// A request takes nothing out of the buckets of others: what is kept under another key
/// is what was kept there, unless it had to go.
pub proof fn others_keep_their_tokens(
    rule: MultiRaterInstance,
    key: KeyView,
    bucket: Bucket,
    other: KeyView,
)
    requires
        rule.wf(),
        other != key,
    ensures
        ({
            let kept = kept_of(rule.buckets@);
            let next = used(kept, key, bucket, rule.max_buckets as int);
            place_of(next, other) matches Some(i) ==> place_of(kept, other) matches Some(j)
                && next[i].1 == kept[j].1
        }),
{
    let kept = kept_of(rule.buckets@);
    let next = used(kept, key, bucket, rule.max_buckets as int);
    let others = without(kept, key);
    lemma_others(kept, key);
    lemma_place(next, other);
    lemma_place(kept, other);
    if let Some(i) = place_of(next, other) {
        let all = others.push((key, bucket));
        let at = if all.len() > rule.max_buckets {
            i + 1
        } else {
            i
        };
        assert(next[i] == all[at]);
        assert(all[at] == others[at]);
        let k = choose|k: int| 0 <= k < kept.len() && #[trigger] kept[k] == others[at];
        assert(kept[k].0 == other);
        let j = place_of(kept, other)->0;
        if k < j {
            assert(kept[k].0 != kept[j].0);
        } else if j < k {
            assert(kept[j].0 != kept[k].0);
        }
    }
}

/// The buckets of the other keys are distinct, and were there before.
proof fn lemma_others(kept: Kept, key: KeyView)
    requires
        forall|i: int, j: int|
            0 <= i < j < kept.len() ==> (#[trigger] kept[i]).0 != (#[trigger] kept[j]).0,
    ensures
        ({
            let others = without(kept, key);
            &&& forall|i: int| 0 <= i < others.len() ==> (#[trigger] others[i]).0 != key
            &&& forall|i: int, j: int|
                0 <= i < j < others.len() ==> (#[trigger] others[i]).0 != (#[trigger] others[j]).0
            &&& forall|i: int|
                #![trigger others[i]]
                0 <= i < others.len() ==> exists|k: int|
                    0 <= k < kept.len() && #[trigger] kept[k] == others[i]
            &&& others.len() <= kept.len()
        }),
{
    lemma_place(kept, key);
    match place_of(kept, key) {
        Some(p) => {
            let others = kept.remove(p);
            assert forall|i: int| 0 <= i < others.len() implies (#[trigger] others[i]).0 != key by {
                if i < p {
                    assert(kept[i].0 != kept[p].0);
                } else {
                    assert(kept[p].0 != kept[i + 1].0);
                }
            }
            assert forall|i: int, j: int| 0 <= i < j < others.len() implies (
            #[trigger] others[i]).0 != (#[trigger] others[j]).0 by {
                let a = if i < p {
                    i
                } else {
                    i + 1
                };
                let b = if j < p {
                    j
                } else {
                    j + 1
                };
                assert(kept[a].0 != kept[b].0);
            }
            assert forall|i: int|
                #![trigger others[i]]
                0 <= i < others.len() implies exists|k: int|
                0 <= k < kept.len() && #[trigger] kept[k] == others[i] by {
                let a = if i < p {
                    i
                } else {
                    i + 1
                };
                assert(kept[a] == others[i]);
            }
        },
        None => {
            assert forall|i: int|
                #![trigger kept[i]]
                0 <= i < kept.len() implies exists|k: int|
                0 <= k < kept.len() && #[trigger] kept[k] == kept[i] by {
                assert(kept[i] == kept[i]);
            }
        },
    }
}

/// The rate limiters of a service, single bucket and bucket per key.
#[derive(Debug)]
pub struct RateLimiters {
    pub request_filter_stage_multi: Vec<MultiRaterInstance>,
    pub request_filter_stage_single: Vec<SingleInstance>,
}

/// Only the single bucket rules, in order.
pub open spec fn single_rules(rules: Seq<AllRateConfig>) -> Seq<
    (SingleRequestKeyKind, SingleInstanceConfig),
>
    decreases rules.len(),
{
    if rules.len() == 0 {
        Seq::empty()
    } else {
        match rules.last() {
            AllRateConfig::Single { kind, config } => single_rules(rules.drop_last()).push(
                (kind, config),
            ),
            AllRateConfig::Multi { .. } => single_rules(rules.drop_last()),
        }
    }
}

/// Only the rules with a bucket per key, in order.
pub open spec fn multi_rules(rules: Seq<AllRateConfig>) -> Seq<
    (MultiRequestKeyKind, MultiRaterConfig),
>
    decreases rules.len(),
{
    if rules.len() == 0 {
        Seq::empty()
    } else {
        match rules.last() {
            AllRateConfig::Multi { kind, config } => multi_rules(rules.drop_last()).push(
                (kind, config),
            ),
            AllRateConfig::Single { .. } => multi_rules(rules.drop_last()),
        }
    }
}

/// How many rules come before the first one that declines a request for the path.
pub open spec fn singles_passed(rules: Seq<SingleInstance>, path: Seq<char>, now: Moment) -> int
    decreases rules.len(),
{
    if rules.len() == 0 || rules[0].declines(path, now) {
        0
    } else {
        1 + singles_passed(rules.skip(1), path, now)
    }
}

/// How many rules come before the first one that declines the request.
pub open spec fn multis_passed(
    rules: Seq<MultiRaterInstance>,
    client: Option<IpAddr>,
    path: Seq<char>,
    now: Moment,
) -> int
    decreases rules.len(),
{
    if rules.len() == 0 || rules[0].declines(client, path, now) {
        0
    } else {
        1 + multis_passed(rules.skip(1), client, path, now)
    }
}

/// A rule before and after a request has come by.
pub open spec fn has_stepped(
    was: MultiRaterInstance,
    is: MultiRaterInstance,
    client: Option<IpAddr>,
    path: Seq<char>,
    now: Moment,
) -> bool {
    &&& is.kind == was.kind
    &&& is.rate == was.rate
    &&& is.max_buckets == was.max_buckets
    &&& kept_of(is.buckets@) == was.stepped(client, path, now)
}

impl RateLimiters {
    pub open spec fn wf(self) -> bool {
        &&& forall|i: int|
            0 <= i < self.request_filter_stage_single@.len() ==> (
            #[trigger] self.request_filter_stage_single@[i]).wf()
        &&& forall|i: int|
            0 <= i < self.request_filter_stage_multi@.len() ==> (
            #[trigger] self.request_filter_stage_multi@[i]).wf()
    }

    /// These are the rules, at a moment at which nothing has been asked of them yet.
    pub open spec fn are_new(self, rules: Seq<AllRateConfig>, now: Moment) -> bool {
        let singles = self.request_filter_stage_single@;
        let multis = self.request_filter_stage_multi@;
        &&& singles.len() == single_rules(rules).len()
        &&& forall|i: int|
            0 <= i < singles.len() ==> (#[trigger] singles[i]).is_new(
                single_rules(rules)[i].0,
                single_rules(rules)[i].1,
                now,
            )
        &&& multis.len() == multi_rules(rules).len()
        &&& forall|i: int|
            0 <= i < multis.len() ==> (#[trigger] multis[i]).is_new(
                multi_rules(rules)[i].0,
                multi_rules(rules)[i].1,
            )
    }

    /// Is the request declined by a rule with a single bucket?
    pub open spec fn single_declines(self, path: Seq<char>, now: Moment) -> bool {
        let singles = self.request_filter_stage_single@;
        singles_passed(singles, path, now) < singles.len()
    }

    /// Is the request declined?
    pub open spec fn declines(self, client: Option<IpAddr>, path: Seq<char>, now: Moment) -> bool {
        let multis = self.request_filter_stage_multi@;
        self.single_declines(path, now) || multis_passed(multis, client, path, now) < multis.len()
    }

    /// The rules before and after a request has come by. It asks for its tokens one
    /// after the other, those of single buckets first, and stops at the first that it
    /// does not get. The tokens it got are gone.
    pub open spec fn have_stepped(
        self,
        next: Self,
        client: Option<IpAddr>,
        path: Seq<char>,
        now: Moment,
    ) -> bool {
        let singles = self.request_filter_stage_single@;
        let multis = self.request_filter_stage_multi@;
        &&& next.request_filter_stage_single@.len() == singles.len()
        &&& next.request_filter_stage_multi@.len() == multis.len()
        &&& forall|i: int|
            0 <= i < singles.len() ==> #[trigger] next.request_filter_stage_single@[i] == if i
                <= singles_passed(singles, path, now) {
                singles[i].stepped(path, now)
            } else {
                singles[i]
            }
        &&& forall|i: int|
            0 <= i < multis.len() ==> if !self.single_declines(path, now) && i <= multis_passed(
                multis,
                client,
                path,
                now,
            ) {
                has_stepped(
                    multis[i],
                    #[trigger] next.request_filter_stage_multi@[i],
                    client,
                    path,
                    now,
                )
            } else {
                next.request_filter_stage_multi@[i] == multis[i]
            }
    }

    /// Parts the rules by their kind. Each kind keeps its order.
    pub fn new(rules: Vec<AllRateConfig>, now: Moment) -> (r: Self)
        ensures
            r.wf(),
            r.are_new(rules@, now),
    {
        let mut rest = rules;
        let mut r = RateLimiters {
            request_filter_stage_multi: Vec::new(),
            request_filter_stage_single: Vec::new(),
        };
        let ghost mut done: int = 0;
        while rest.len() > 0
            invariant
                0 <= done <= rules@.len(),
                rest@ == rules@.skip(done),
                r.wf(),
                r.are_new(rules@.take(done), now),
            decreases rest@.len(),
        {
            let rule = rest.remove(0);
            assert(rules@.take(done + 1).drop_last() == rules@.take(done));
            assert(rules@.take(done + 1).last() == rule);
            match rule {
                AllRateConfig::Single { kind, config } => {
                    r.request_filter_stage_single.push(SingleInstance::new(config, kind, now));
                },
                AllRateConfig::Multi { kind, config } => {
                    r.request_filter_stage_multi.push(MultiRaterInstance::new(config, kind));
                },
            }
            proof {
                done = done + 1;
            }
            assert(rest@ == rules@.skip(done));
        }
        assert(rules@.take(done) == rules@);
        r
    }

    fn ask_singles(&mut self, path: &str, now: Moment) -> (r: bool)
        requires
            old(self).wf(),
        ensures
            final(self).wf(),
            final(self).request_filter_stage_multi == old(self).request_filter_stage_multi,
            r == old(self).single_declines(path@, now),
            final(self).request_filter_stage_single@.len()
                == old(self).request_filter_stage_single@.len(),
            forall|i: int|
                0 <= i < old(self).request_filter_stage_single@.len()
                    ==> #[trigger] final(self).request_filter_stage_single@[i] == if i
                    <= singles_passed(old(self).request_filter_stage_single@, path@, now) {
                    old(self).request_filter_stage_single@[i].stepped(path@, now)
                } else {
                    old(self).request_filter_stage_single@[i]
                },
    {
        let ghost was = self.request_filter_stage_single@;
        let mut n: usize = 0;
        assert(was.skip(0) == was);
        while n < self.request_filter_stage_single.len()
            invariant
                self.wf(),
                was == old(self).request_filter_stage_single@,
                self.request_filter_stage_multi == old(self).request_filter_stage_multi,
                self.request_filter_stage_single@.len() == was.len(),
                n <= was.len(),
                singles_passed(was, path@, now) == n + singles_passed(
                    was.skip(n as int),
                    path@,
                    now,
                ),
                forall|i: int|
                    0 <= i < was.len() ==> #[trigger] self.request_filter_stage_single@[i] == if i
                        < n {
                        was[i].stepped(path@, now)
                    } else {
                        was[i]
                    },
            decreases was.len() - n,
        {
            let ghost before = self.request_filter_stage_single@;
            assert(was.skip(n as int)[0] == was[n as int]);
            assert(was.skip(n as int).skip(1) == was.skip(n + 1));
            let ticket = self.request_filter_stage_single[n].get_ticket(path, now);
            assert(self.request_filter_stage_single@ == before.update(
                n as int,
                was[n as int].stepped(path@, now),
            ));
            if let Some(Outcome::Declined) = ticket {
                return true;
            }
            n = n + 1;
        }
        false
    }

    fn ask_multis(&mut self, client: Option<IpAddr>, path: &str, now: Moment) -> (r: bool)
        requires
            old(self).wf(),
        ensures
            final(self).wf(),
            final(self).request_filter_stage_single == old(self).request_filter_stage_single,
            r == (multis_passed(old(self).request_filter_stage_multi@, client, path@, now)
                < old(self).request_filter_stage_multi@.len()),
            final(self).request_filter_stage_multi@.len()
                == old(self).request_filter_stage_multi@.len(),
            forall|i: int|
                0 <= i < old(self).request_filter_stage_multi@.len() ==> if i <= multis_passed(
                    old(self).request_filter_stage_multi@,
                    client,
                    path@,
                    now,
                ) {
                    has_stepped(
                        old(self).request_filter_stage_multi@[i],
                        #[trigger] final(self).request_filter_stage_multi@[i],
                        client,
                        path@,
                        now,
                    )
                } else {
                    final(self).request_filter_stage_multi@[i]
                        == old(self).request_filter_stage_multi@[i]
                },
    {
        let ghost was = self.request_filter_stage_multi@;
        let mut n: usize = 0;
        assert(was.skip(0) == was);
        while n < self.request_filter_stage_multi.len()
            invariant
                self.wf(),
                was == old(self).request_filter_stage_multi@,
                self.request_filter_stage_single == old(self).request_filter_stage_single,
                self.request_filter_stage_multi@.len() == was.len(),
                n <= was.len(),
                multis_passed(was, client, path@, now) == n + multis_passed(
                    was.skip(n as int),
                    client,
                    path@,
                    now,
                ),
                forall|i: int|
                    0 <= i < was.len() ==> if i < n {
                        has_stepped(
                            was[i],
                            #[trigger] self.request_filter_stage_multi@[i],
                            client,
                            path@,
                            now,
                        )
                    } else {
                        self.request_filter_stage_multi@[i] == was[i]
                    },
            decreases was.len() - n,
        {
            let ghost before = self.request_filter_stage_multi@;
            assert(before[n as int] == was[n as int]);
            assert(was.skip(n as int)[0] == was[n as int]);
            assert(was.skip(n as int).skip(1) == was.skip(n + 1));
            let ticket = self.request_filter_stage_multi[n].get_ticket(client, path, now);
            assert(self.request_filter_stage_multi@ == before.update(
                n as int,
                self.request_filter_stage_multi@[n as int],
            ));
            if let Some(Outcome::Declined) = ticket {
                return true;
            }
            n = n + 1;
        }
        false
    }

    /// Asks for the tokens that a request needs, and says whether it is declined.
    pub fn any_declined(&mut self, client: Option<IpAddr>, path: &str, now: Moment) -> (r: bool)
        requires
            old(self).wf(),
        ensures
            final(self).wf(),
            r == old(self).declines(client, path@, now),
            old(self).have_stepped(*final(self), client, path@, now),
    {
        self.ask_singles(path, now) || self.ask_multis(client, path, now)
    }
}

/// Every rule of a configuration has its limiter, in the order of its kind.
pub proof fn every_rule_has_its_limiter(rules: Seq<AllRateConfig>)
    ensures
        single_rules(rules) == rules.filter_map(
            |r: AllRateConfig|
                match r {
                    AllRateConfig::Single { kind, config } => Some((kind, config)),
                    AllRateConfig::Multi { .. } => None,
                },
        ),
        multi_rules(rules) == rules.filter_map(
            |r: AllRateConfig|
                match r {
                    AllRateConfig::Single { .. } => None,
                    AllRateConfig::Multi { kind, config } => Some((kind, config)),
                },
        ),
        single_rules(rules).len() + multi_rules(rules).len() == rules.len(),
    decreases rules.len(),
{
    if rules.len() > 0 {
        every_rule_has_its_limiter(rules.drop_last());
    }
}

proof fn lemma_singles_passed(rules: Seq<SingleInstance>, path: Seq<char>, now: Moment)
    ensures
        0 <= singles_passed(rules, path, now) <= rules.len(),
        forall|i: int|
            0 <= i < singles_passed(rules, path, now) ==> !(#[trigger] rules[i]).declines(path, now),
        singles_passed(rules, path, now) < rules.len() ==> rules[singles_passed(
            rules,
            path,
            now,
        )].declines(path, now),
    decreases rules.len(),
{
    if rules.len() > 0 && !rules[0].declines(path, now) {
        let rest = rules.skip(1);
        lemma_singles_passed(rest, path, now);
        assert forall|i: int| 0 <= i < singles_passed(rules, path, now) implies !(
        #[trigger] rules[i]).declines(path, now) by {
            if i > 0 {
                assert(rest[i - 1] == rules[i]);
            }
        }
        let n = singles_passed(rest, path, now);
        if n < rest.len() {
            assert(rest[n] == rules[n + 1]);
        }
    }
}

proof fn lemma_multis_passed(
    rules: Seq<MultiRaterInstance>,
    client: Option<IpAddr>,
    path: Seq<char>,
    now: Moment,
)
    ensures
        0 <= multis_passed(rules, client, path, now) <= rules.len(),
        forall|i: int|
            0 <= i < multis_passed(rules, client, path, now) ==> !(#[trigger] rules[i]).declines(
                client,
                path,
                now,
            ),
        multis_passed(rules, client, path, now) < rules.len() ==> rules[multis_passed(
            rules,
            client,
            path,
            now,
        )].declines(client, path, now),
    decreases rules.len(),
{
    if rules.len() > 0 && !rules[0].declines(client, path, now) {
        let rest = rules.skip(1);
        lemma_multis_passed(rest, client, path, now);
        assert forall|i: int| 0 <= i < multis_passed(rules, client, path, now) implies !(
        #[trigger] rules[i]).declines(client, path, now) by {
            if i > 0 {
                assert(rest[i - 1] == rules[i]);
            }
        }
        let n = multis_passed(rest, client, path, now);
        if n < rest.len() {
            assert(rest[n] == rules[n + 1]);
        }
    }
}

/// A request is declined if and only if some rule declines it, whichever that is.
pub proof fn every_rule_has_a_say(
    limiters: RateLimiters,
    client: Option<IpAddr>,
    path: Seq<char>,
    now: Moment,
)
    ensures
        limiters.declines(client, path, now) <==> (exists|i: int|
            0 <= i < limiters.request_filter_stage_single@.len() && (
            #[trigger] limiters.request_filter_stage_single@[i]).declines(path, now)) || (exists|
            i: int,
        |
            0 <= i < limiters.request_filter_stage_multi@.len() && (
            #[trigger] limiters.request_filter_stage_multi@[i]).declines(client, path, now)),
{
    let singles = limiters.request_filter_stage_single@;
    let multis = limiters.request_filter_stage_multi@;
    lemma_singles_passed(singles, path, now);
    lemma_multis_passed(multis, client, path, now);
    if singles_passed(singles, path, now) < singles.len() {
        assert(singles[singles_passed(singles, path, now)].declines(path, now));
    }
    if multis_passed(multis, client, path, now) < multis.len() {
        assert(multis[multis_passed(multis, client, path, now)].declines(client, path, now));
    }
}

/// A request that no rule declines takes a token from every rule that applies to it. One
/// that is declined has taken those of the rules that were asked before.
pub proof fn a_request_pays_every_rule(
    limiters: RateLimiters,
    next: RateLimiters,
    client: Option<IpAddr>,
    path: Seq<char>,
    now: Moment,
    i: int,
)
    requires
        limiters.have_stepped(next, client, path, now),
        !limiters.declines(client, path, now),
        0 <= i,
    ensures
        i < limiters.request_filter_stage_single@.len() ==> next.request_filter_stage_single@[i]
            == limiters.request_filter_stage_single@[i].stepped(path, now),
        i < limiters.request_filter_stage_multi@.len() ==> kept_of(
            next.request_filter_stage_multi@[i].buckets@,
        ) == limiters.request_filter_stage_multi@[i].stepped(client, path, now),
{
    let singles = limiters.request_filter_stage_single@;
    let multis = limiters.request_filter_stage_multi@;
    lemma_singles_passed(singles, path, now);
    lemma_multis_passed(multis, client, path, now);
    if i < multis.len() {
        let seen = next.request_filter_stage_multi@[i];
        assert(has_stepped(multis[i], seen, client, path, now));
    }
}

/// By some moment, a bucket has the tokens that were put back in the whole intervals that
/// passed, but never more than it holds. What is left of an interval is not lost.
pub proof fn tokens_come_back_at_the_rate(
    b: Bucket,
    rate: Rate,
    now: Moment,
    intervals: int,
    rest: int,
)
    requires
        rate.every > 0,
        b.wf(rate),
        intervals >= 0,
        0 <= rest < rate.every,
        now == b.refilled + intervals * rate.every + rest,
    ensures
        b.topped_up(rate, now).tokens == (if b.tokens + intervals * rate.qty > rate.max {
            rate.max as int
        } else {
            b.tokens + intervals * rate.qty
        }),
        b.topped_up(rate, now).refilled == b.refilled + intervals * rate.every,
        b.grants(rate, now) <==> rate.max > 0 && (b.tokens > 0 || intervals * rate.qty > 0),
        b.asked(rate, now).tokens == b.topped_up(rate, now).tokens - (if b.grants(rate, now) {
            1int
        } else {
            0int
        }),
{
    let every = rate.every as int;
    assert(intervals * rate.every >= 0) by (nonlinear_arith)
        requires
            intervals >= 0,
    ;
    assert(intervals * rate.qty >= 0) by (nonlinear_arith)
        requires
            intervals >= 0,
    ;
    if now > b.refilled {
        vstd::arithmetic::div_mod::lemma_fundamental_div_mod_converse(
            now - b.refilled,
            every,
            intervals,
            rest,
        );
        assert(b.refills(rate, now) == intervals);
    } else {
        assert(intervals == 0) by (nonlinear_arith)
            requires
                intervals * every + rest == 0,
                intervals >= 0,
                rest >= 0,
                every > 0,
        ;
        assert(b.refills(rate, now) == 0);
    }
}

/// Where nothing has to be waited for, a bucket is full whenever it is asked.
pub proof fn without_a_wait_a_bucket_is_full(b: Bucket, rate: Rate, now: Moment)
    requires
        rate.every == 0,
    ensures
        b.topped_up(rate, now).tokens == rate.max,
        b.grants(rate, now) <==> rate.max > 0,
{
}

/// A rule with a bucket for each client keeps one client from another, and one with a
/// bucket for each path one path from another: each is declined only for want of tokens in
/// its own bucket, which is full where there is none yet. A request that a rule does not
/// apply to is not declined by it.
pub proof fn each_key_has_its_bucket(
    rule: MultiRaterInstance,
    client: Option<IpAddr>,
    path: Seq<char>,
    now: Moment,
    i: int,
)
    requires
        rule.wf(),
        0 <= i <= rule.buckets@.len(),
    ensures
        ({
            let key = match rule.kind {
                MultiRequestKeyKind::SourceIp => match client {
                    Some(ip) => Some(KeyView::Ip(ip)),
                    None => None,
                },
                MultiRequestKeyKind::Uri { pattern } => if rate_limiting::regex_finds(
                    pattern.source(),
                    path,
                ) {
                    Some(KeyView::Uri(path))
                } else {
                    None
                },
            };
            match key {
                Some(k) => {
                    &&& i < rule.buckets@.len() && rule.buckets@[i].0@ == k ==> rule.declines(
                        client,
                        path,
                        now,
                    ) == !rule.buckets@[i].1.grants(rule.rate, now)
                    &&& (forall|j: int|
                        0 <= j < rule.buckets@.len() ==> (#[trigger] rule.buckets@[j]).0@ != k)
                        ==> rule.declines(client, path, now) == !(Bucket {
                        tokens: rule.rate.max,
                        refilled: now,
                    }).grants(rule.rate, now)
                },
                None => !rule.declines(client, path, now),
            }
        }),
{
    let kept = kept_of(rule.buckets@);
    match rule.key_of(client, path) {
        Some(k) => {
            lemma_place(kept, k);
            if i < rule.buckets@.len() && rule.buckets@[i].0@ == k {
                assert(kept[i].0 == k);
                let j = place_of(kept, k)->0;
                if i < j {
                    assert(kept[i].0 != kept[j].0);
                } else if j < i {
                    assert(kept[j].0 != kept[i].0);
                }
            }
            if forall|j: int|
                0 <= j < rule.buckets@.len() ==> (#[trigger] rule.buckets@[j]).0@ != k {
                if place_of(kept, k) is Some {
                    let j = place_of(kept, k)->0;
                    assert(kept[j].0 == rule.buckets@[j].0@);
                }
            }
        },
        None => {},
    }
}

/// A bucket that was used is kept, as the one used last. No other goes while there is room
/// for all; where there is not, the one that was not used for the longest time goes, and
/// no other does.
pub proof fn only_the_one_unused_longest_goes(
    kept: Kept,
    key: KeyView,
    bucket: Bucket,
    max: int,
    i: int,
)
    requires
        max > 0,
        kept.len() <= max,
        0 <= i < kept.len(),
        kept[i].0 != key,
        forall|a: int, b: int|
            0 <= a < b < kept.len() ==> (#[trigger] kept[a]).0 != (#[trigger] kept[b]).0,
    ensures
        ({
            let next = used(kept, key, bucket, max);
            let present = exists|k: int| 0 <= k < kept.len() && (#[trigger] kept[k]).0 == key;
            &&& next.len() > 0 && next.last() == (key, bucket)
            &&& next.len() <= max
            &&& present || kept.len() < max || i > 0 ==> next.contains(kept[i])
        }),
{
    let next = used(kept, key, bucket, max);
    let others = without(kept, key);
    let all = others.push((key, bucket));
    lemma_others(kept, key);
    lemma_place(kept, key);
    match place_of(kept, key) {
        Some(p) => {
            let at = if i < p {
                i
            } else {
                i - 1
            };
            assert(others[at] == kept[i]);
            assert(all[at] == kept[i]);
            assert(next == all);
            assert(next[at] == kept[i]);
        },
        None => {
            assert(all[i] == kept[i]);
            if kept.len() < max {
                assert(next[i] == kept[i]);
            } else if i > 0 {
                assert(next[i - 1] == kept[i]);
            }
        },
    }
}

/// A rule with one bucket declines what its pattern is found in and its bucket has nothing
/// for, and a rule with a bucket for each key what it has a key for and that key's bucket
/// has nothing for. What a rule does not apply to it does not decline.
pub proof fn a_rule_declines_what_it_applies_to(
    single: SingleInstance,
    multi: MultiRaterInstance,
    client: Option<IpAddr>,
    path: Seq<char>,
    now: Moment,
)
    ensures
        single.kind matches SingleRequestKeyKind::UriGroup { pattern } && (single.declines(
            path,
            now,
        ) <==> rate_limiting::regex_finds(pattern.source(), path) && !single.bucket.grants(
            single.rate,
            now,
        )),
        match multi.kind {
            MultiRequestKeyKind::SourceIp => match client {
                Some(ip) => multi.declines(client, path, now) <==> !multi.bucket_of(
                    KeyView::Ip(ip),
                    now,
                ).grants(multi.rate, now),
                None => !multi.declines(client, path, now),
            },
            MultiRequestKeyKind::Uri { pattern } => multi.declines(client, path, now)
                <==> rate_limiting::regex_finds(pattern.source(), path) && !multi.bucket_of(
                KeyView::Uri(path),
                now,
            ).grants(multi.rate, now),
        },
{
}

/// Each rule starts out as it is configured, wherever it stands: a single bucket is full,
/// and where there is one for each key there is none yet.
pub proof fn every_rule_starts_afresh(
    limiters: RateLimiters,
    rules: Seq<AllRateConfig>,
    now: Moment,
    i: int,
)
    requires
        limiters.are_new(rules, now),
        0 <= i,
    ensures
        limiters.request_filter_stage_single@.len() == single_rules(rules).len(),
        i < single_rules(rules).len() ==> {
            let limiter = limiters.request_filter_stage_single@[i];
            let (kind, config) = single_rules(rules)[i];
            &&& limiter.kind == kind
            &&& limiter.rate.max == config.max_tokens_per_bucket
            &&& limiter.rate.every == config.refill_interval_millis
            &&& limiter.rate.qty == config.refill_qty
            &&& limiter.bucket.tokens == config.max_tokens_per_bucket
            &&& limiter.bucket.refilled == now
        },
        limiters.request_filter_stage_multi@.len() == multi_rules(rules).len(),
        i < multi_rules(rules).len() ==> {
            let limiter = limiters.request_filter_stage_multi@[i];
            let (kind, config) = multi_rules(rules)[i];
            &&& limiter.kind == kind
            &&& limiter.rate.max == config.max_tokens_per_bucket
            &&& limiter.rate.every == config.refill_interval_millis
            &&& limiter.rate.qty == config.refill_qty
            &&& limiter.max_buckets == config.max_buckets
            &&& limiter.buckets@.len() == 0
        },
{
    if i < single_rules(rules).len() {
        assert(limiters.request_filter_stage_single@[i].is_new(
            single_rules(rules)[i].0,
            single_rules(rules)[i].1,
            now,
        ));
    }
    if i < multi_rules(rules).len() {
        assert(limiters.request_filter_stage_multi@[i].is_new(
            multi_rules(rules)[i].0,
            multi_rules(rules)[i].1,
        ));
    }
}

} // verus!
