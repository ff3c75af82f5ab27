//! Discovery from SRV records.
//!
//! A record set names targets together with their ports, a preference order and
//! a relative share of traffic. The port and the weight are used; only the most
//! preferred records are.
use crate::config::internal::{Duration, PeerTemplate};
use crate::net::{IpAddr, SocketAddr};
use crate::proxy::discovery::resolver::{
    self, Addresses, Moment, ResolveError, SrvRecord, SrvRecords,
};
use crate::proxy::discovery::{self, backend_for, Backend};
use crate::text;
use vstd::arithmetic::div_mod;
use vstd::prelude::*;

verus! {

/// The largest weight that a backend is given. A selection table has an entry
/// for each unit of weight, so SRV weights, which run to 65535, are scaled down.
pub const MAX_WEIGHT: u16 = 16;

/// The greatest common divisor, by Euclid's rule.
pub open spec fn common_divisor(a: nat, b: nat) -> nat
    decreases b,
{
    if b == 0 {
        a
    } else {
        common_divisor(b, a % b)
    }
}

/// The greatest common divisor.
pub fn gcd(a: u32, b: u32) -> (r: u32)
    ensures
        r == common_divisor(a as nat, b as nat),
    decreases b,
{
    if b == 0 {
        a
    } else {
        gcd(b, a % b)
    }
}

/// Does `d` go into `n`?
pub open spec fn divides(d: nat, n: nat) -> bool {
    n == 0 || d > 0 && n % d == 0
}

proof fn lemma_divides_sum(d: nat, q: nat, b: nat, r: nat)
    requires
        d > 0,
        b % d == 0,
        r % d == 0,
    ensures
        (q * b + r) % d == 0,
{
    let x = (b / d) as int;
    let y = (r / d) as int;
    div_mod::lemma_fundamental_div_mod(b as int, d as int);
    div_mod::lemma_fundamental_div_mod(r as int, d as int);
    assert(q * b + r == (q * x + y) * d) by (nonlinear_arith)
        requires
            b == d * x,
            r == d * y,
    ;
    div_mod::lemma_mod_multiples_basic(q * x + y, d as int);
}

/// The greatest common divisor goes into both numbers, and whatever goes into
/// both goes into it.
pub proof fn common_divisor_is_greatest(a: nat, b: nat)
    ensures
        divides(common_divisor(a, b), a),
        divides(common_divisor(a, b), b),
        a > 0 || b > 0 ==> common_divisor(a, b) > 0,
        forall|d: nat|
            d > 0 && a % d == 0 && b % d == 0 ==> #[trigger] (common_divisor(a, b) % d) == 0,
    decreases b,
{
    if b == 0 {
        if a > 0 {
            div_mod::lemma_mod_self_0(a as int);
        }
    } else {
        let r = a % b;
        common_divisor_is_greatest(b, r);
        let g = common_divisor(b, r);
        div_mod::lemma_fundamental_div_mod(a as int, b as int);
        let q = a / b;
        assert(a == q * b + r) by (nonlinear_arith)
            requires
                a == b * q + r,
        ;
        if r == 0 {
            assert(0nat % g == 0) by {
                div_mod::lemma_small_mod(0, g);
            }
        }
        lemma_divides_sum(g, q, b, r);
        assert forall|d: nat| d > 0 && a % d == 0 && b % d == 0 implies #[trigger] (
        common_divisor(a, b) % d) == 0 by {
            let x = (a / d) as int;
            let y = (b / d) as int;
            div_mod::lemma_fundamental_div_mod(a as int, d as int);
            div_mod::lemma_fundamental_div_mod(b as int, d as int);
            assert(r == (x - q * y) * d) by (nonlinear_arith)
                requires
                    a == q * b + r,
                    a == d * x,
                    b == d * y,
            ;
            div_mod::lemma_mod_multiples_basic(x - q * y, d as int);
            assert(r % d == 0);
            assert(common_divisor(b, r) % d == 0);
        }
    }
}

/// The greatest common divisor of all the weights, and 0 where all are 0.
pub open spec fn divisor_of(weights: Seq<u16>) -> nat
    decreases weights.len(),
{
    if weights.len() == 0 {
        0
    } else {
        common_divisor(divisor_of(weights.drop_last()), weights.last() as nat)
    }
}

/// The largest of the weights.
pub open spec fn largest_of(weights: Seq<u16>) -> nat
    decreases weights.len(),
{
    if weights.len() == 0 {
        0
    } else if weights.last() > largest_of(weights.drop_last()) {
        weights.last() as nat
    } else {
        largest_of(weights.drop_last())
    }
}

/// The number that all the weights are divided by.
pub open spec fn scale_of(weights: Seq<u16>) -> nat {
    if divisor_of(weights) == 0 {
        1
    } else {
        divisor_of(weights)
    }
}

/// Are there weights of 0 among others?
pub open spec fn is_mixed(weights: Seq<u16>) -> bool {
    largest_of(weights) > 0 && weights.contains(0)
}

/// `a` divided by `b`, rounded up.
pub open spec fn divided_up(a: int, b: int) -> int {
    (a + b - 1) / b
}

/// The share that a weight comes to among all the weights.
///
/// Dividing by what the weights have in common keeps their ratios. Only where
/// they are too large for that, or where a weight of 0 stands among others, are
/// they spread over the whole range. A weight of 0 means the smallest share.
pub open spec fn share(weights: Seq<u16>, i: int) -> int {
    let scale = scale_of(weights) as int;
    let reduced = weights[i] as int / scale;
    let largest = largest_of(weights) as int / scale;
    let scaled = if largest > MAX_WEIGHT || is_mixed(weights) {
        divided_up(reduced * MAX_WEIGHT, largest)
    } else {
        reduced
    };
    if scaled < 1 {
        1
    } else {
        scaled
    }
}

proof fn lemma_largest(weights: Seq<u16>, i: int)
    requires
        0 <= i < weights.len(),
    ensures
        weights[i] <= largest_of(weights) <= u16::MAX,
    decreases weights.len(),
{
    if weights.len() > 1 {
        if i < weights.len() - 1 {
            lemma_largest(weights.drop_last(), i);
        } else {
            lemma_largest(weights.drop_last(), 0);
        }
    } else {
        assert(largest_of(weights.drop_last()) == 0);
    }
}

proof fn lemma_largest_is_one(weights: Seq<u16>)
    requires
        weights.len() > 0,
    ensures
        exists|k: int| 0 <= k < weights.len() && largest_of(weights) == #[trigger] weights[k],
    decreases weights.len(),
{
    if weights.len() == 1 {
        assert(largest_of(weights.drop_last()) == 0);
        assert(largest_of(weights) == weights[0]);
    } else {
        lemma_largest_is_one(weights.drop_last());
        let k = choose|k: int|
            0 <= k < weights.drop_last().len() && largest_of(weights.drop_last())
                == #[trigger] weights.drop_last()[k];
        if weights.last() > largest_of(weights.drop_last()) {
            assert(largest_of(weights) == weights[weights.len() - 1]);
        } else {
            assert(largest_of(weights) == weights[k]);
        }
    }
}

proof fn lemma_divisor(weights: Seq<u16>, i: int)
    requires
        0 <= i < weights.len(),
    ensures
        divides(divisor_of(weights), weights[i] as nat),
        divisor_of(weights) == 0 ==> weights[i] == 0,
    decreases weights.len(),
{
    let front = divisor_of(weights.drop_last());
    common_divisor_is_greatest(front, weights.last() as nat);
    if i < weights.len() - 1 {
        lemma_divisor(weights.drop_last(), i);
        let whole = divisor_of(weights);
        let w = weights[i] as nat;
        if w > 0 {
            assert(front > 0 && w % front == 0);
            assert(whole > 0 && front % whole == 0);
            div_mod::lemma_fundamental_div_mod(w as int, front as int);
            div_mod::lemma_fundamental_div_mod(front as int, whole as int);
            let x = (w / front) as int;
            let y = (front / whole) as int;
            assert(w == (x * y) * whole) by (nonlinear_arith)
                requires
                    w == front * x,
                    front == whole * y,
            ;
            div_mod::lemma_mod_multiples_basic(x * y, whole as int);
        }
    }
}

proof fn lemma_scale(weights: Seq<u16>, i: int)
    requires
        0 <= i < weights.len(),
    ensures
        scale_of(weights) > 0,
        (weights[i] as int / scale_of(weights) as int) * scale_of(weights) == weights[i],
        weights[i] > 0 ==> weights[i] as int / scale_of(weights) as int > 0,
        weights[i] as int / scale_of(weights) as int <= largest_of(weights) as int / scale_of(
            weights,
        ) as int,
{
    let scale = scale_of(weights) as int;
    let w = weights[i] as int;
    lemma_divisor(weights, i);
    lemma_largest(weights, i);
    div_mod::lemma_fundamental_div_mod(w, scale);
    if w == 0 {
        div_mod::lemma_div_basics(scale);
    } else {
        assert(w % scale == 0);
        assert((w / scale) * scale == w) by (nonlinear_arith)
            requires
                w == scale * (w / scale) + 0,
        ;
        assert(w / scale > 0) by (nonlinear_arith)
            requires
                w == scale * (w / scale),
                w > 0,
                scale > 0,
        ;
    }
    div_mod::lemma_div_is_ordered(w, largest_of(weights) as int, scale);
}

/// Every share is at least 1 and at most [`MAX_WEIGHT`].
pub proof fn shares_stay_in_range(weights: Seq<u16>, i: int)
    requires
        0 <= i < weights.len(),
    ensures
        1 <= share(weights, i) <= MAX_WEIGHT,
{
    lemma_scale(weights, i);
    lemma_largest(weights, i);
    lemma_largest_is_one(weights);
    let scale = scale_of(weights) as int;
    let reduced = weights[i] as int / scale;
    let largest = largest_of(weights) as int / scale;
    if largest > MAX_WEIGHT || is_mixed(weights) {
        let k = choose|k: int|
            0 <= k < weights.len() && largest_of(weights) == #[trigger] weights[k];
        lemma_scale(weights, k);
        assert(largest > 0);
        assert(reduced * 16 + largest - 1 < largest * 17) by (nonlinear_arith)
            requires
                0 <= reduced <= largest,
                largest > 0,
        ;
        div_mod::lemma_div_pos_is_pos(reduced * 16 + largest - 1, largest);
        assert((reduced * 16 + largest - 1) / largest < 17) by {
            div_mod::lemma_fundamental_div_mod(reduced * 16 + largest - 1, largest);
            let q = (reduced * 16 + largest - 1) / largest;
            assert(q < 17) by (nonlinear_arith)
                requires
                    largest * q <= reduced * 16 + largest - 1,
                    reduced * 16 + largest - 1 < largest * 17,
                    largest > 0,
            ;
        }
    }
}

/// Where the weights have no 0 among them and come down to the range by what
/// they have in common, the shares have the very ratios that the weights have.
pub proof fn ratios_are_kept_where_they_can_be(weights: Seq<u16>, i: int, j: int)
    requires
        0 <= i < weights.len(),
        0 <= j < weights.len(),
        !weights.contains(0),
        largest_of(weights) as int / scale_of(weights) as int <= MAX_WEIGHT,
    ensures
        share(weights, i) * scale_of(weights) == weights[i],
        share(weights, i) * weights[j] == share(weights, j) * weights[i],
{
    lemma_scale(weights, i);
    lemma_scale(weights, j);
    assert(weights[i] > 0) by {
        assert(weights.contains(weights[i]));
    }
    assert(weights[j] > 0) by {
        assert(weights.contains(weights[j]));
    }
    let scale = scale_of(weights) as int;
    let a = share(weights, i);
    let b = share(weights, j);
    assert(a * (b * scale) == b * (a * scale)) by (nonlinear_arith);
}

/// A larger weight never gets a smaller share.
pub proof fn shares_follow_the_weights(weights: Seq<u16>, i: int, j: int)
    requires
        0 <= i < weights.len(),
        0 <= j < weights.len(),
        weights[i] <= weights[j],
    ensures
        share(weights, i) <= share(weights, j),
{
    lemma_scale(weights, i);
    lemma_scale(weights, j);
    lemma_largest(weights, i);
    lemma_largest_is_one(weights);
    let scale = scale_of(weights) as int;
    let largest = largest_of(weights) as int / scale;
    div_mod::lemma_div_is_ordered(weights[i] as int, weights[j] as int, scale);
    let a = weights[i] as int / scale;
    let b = weights[j] as int / scale;
    if largest > MAX_WEIGHT || is_mixed(weights) {
        let k = choose|k: int|
            0 <= k < weights.len() && largest_of(weights) == #[trigger] weights[k];
        lemma_scale(weights, k);
        div_mod::lemma_div_is_ordered(a * 16 + largest - 1, b * 16 + largest - 1, largest);
    }
}

/// A weight of 0 still gets a share, and the smallest there is.
pub proof fn a_weight_of_zero_gets_the_smallest_share(weights: Seq<u16>, i: int, j: int)
    requires
        0 <= i < weights.len(),
        0 <= j < weights.len(),
        weights[i] == 0,
    ensures
        share(weights, i) == 1,
        share(weights, i) <= share(weights, j),
{
    shares_stay_in_range(weights, j);
    lemma_scale(weights, i);
    lemma_largest_is_one(weights);
    let scale = scale_of(weights) as int;
    let largest = largest_of(weights) as int / scale;
    div_mod::lemma_div_basics(scale);
    if largest > MAX_WEIGHT || is_mixed(weights) {
        let k = choose|k: int|
            0 <= k < weights.len() && largest_of(weights) == #[trigger] weights[k];
        lemma_scale(weights, k);
        assert(largest > 0);
        assert((largest - 1) / largest == 0) by {
            div_mod::lemma_basic_div(largest - 1, largest);
        }
    }
}

fn common_divisor_of(weights: &[u16]) -> (r: u32)
    ensures
        r == divisor_of(weights@),
{
    let mut divisor: u32 = 0;
    let mut i: usize = 0;
    while i < weights.len()
        invariant
            i <= weights@.len(),
            divisor == divisor_of(weights@.take(i as int)),
        decreases weights@.len() - i,
    {
        assert(weights@.take(i + 1).drop_last() == weights@.take(i as int));
        divisor = gcd(divisor, weights[i] as u32);
        i = i + 1;
    }
    assert(weights@.take(weights@.len() as int) == weights@);
    divisor
}

/// Scales SRV weights into the small range that a selection table can afford.
pub fn normalize_weights(weights: &[u16]) -> (r: Vec<usize>)
    ensures
        r@.len() == weights@.len(),
        forall|i: int| 0 <= i < r@.len() ==> #[trigger] r@[i] == share(weights@, i),
{
    let mut out: Vec<usize> = Vec::new();
    if weights.len() == 0 {
        return out;
    }
    let divisor = common_divisor_of(weights);
    let scale: u32 = if divisor == 0 {
        1
    } else {
        divisor
    };
    let mut largest: u32 = 0;
    let mut zero = false;
    let mut i: usize = 0;
    while i < weights.len()
        invariant
            i <= weights@.len(),
            largest == largest_of(weights@.take(i as int)),
            zero == exists|k: int| 0 <= k < i && #[trigger] weights@[k] == 0,
        decreases weights@.len() - i,
    {
        assert(weights@.take(i + 1).drop_last() == weights@.take(i as int));
        assert(weights@.take(i + 1).last() == weights@[i as int]);
        if weights[i] as u32 > largest {
            largest = weights[i] as u32;
        }
        if weights[i] == 0 {
            zero = true;
        }
        i = i + 1;
    }
    assert(weights@.take(weights@.len() as int) == weights@);
    proof {
        assert(zero == weights@.contains(0));
        lemma_scale(weights@, 0);
        lemma_largest(weights@, 0);
        lemma_largest_is_one(weights@);
    }
    let most = largest / scale;
    let spread = most > MAX_WEIGHT as u32 || (largest > 0 && zero);
    proof {
        let k = choose|k: int|
            0 <= k < weights@.len() && largest_of(weights@) == #[trigger] weights@[k];
        lemma_scale(weights@, k);
    }
    i = 0;
    while i < weights.len()
        invariant
            i <= weights@.len(),
            out@.len() == i,
            scale == scale_of(weights@),
            largest == largest_of(weights@),
            scale > 0,
            most == largest_of(weights@) as int / scale_of(weights@) as int,
            most <= u16::MAX,
            spread == (most > MAX_WEIGHT || is_mixed(weights@)),
            spread ==> most > 0,
            forall|k: int| 0 <= k < i ==> #[trigger] out@[k] == share(weights@, k),
        decreases weights@.len() - i,
    {
        proof {
            lemma_scale(weights@, i as int);
            lemma_largest(weights@, i as int);
            shares_stay_in_range(weights@, i as int);
        }
        let reduced = weights[i] as u32 / scale;
        let scaled = if spread {
            (reduced * MAX_WEIGHT as u32 + most - 1) / most
        } else {
            reduced
        };
        let weight: usize = if scaled < 1 {
            1
        } else {
            scaled as usize
        };
        out.push(weight);
        i = i + 1;
    }
    out
}

/// The records of one priority, in order.
pub open spec fn of_priority(records: Seq<SrvRecord>, priority: u16) -> Seq<SrvRecord>
    decreases records.len(),
{
    if records.len() == 0 {
        Seq::empty()
    } else {
        let front = of_priority(records.drop_last(), priority);
        if records.last().priority == priority {
            front.push(records.last())
        } else {
            front
        }
    }
}

/// The lowest priority among the records.
pub open spec fn best_priority(records: Seq<SrvRecord>) -> u16
    decreases records.len(),
{
    if records.len() == 0 {
        u16::MAX
    } else if records.last().priority < best_priority(records.drop_last()) {
        records.last().priority
    } else {
        best_priority(records.drop_last())
    }
}

/// The most preferred records, in order.
pub open spec fn tier_of(records: Seq<SrvRecord>) -> Seq<SrvRecord> {
    of_priority(records, best_priority(records))
}

/// The records that references point to.
pub open spec fn pointed(tier: Seq<&SrvRecord>) -> Seq<SrvRecord> {
    tier.map_values(|r: &SrvRecord| *r)
}

/// The records at the most preferred priority. There is no falling back from
/// one priority to the next.
pub fn lowest_tier(records: &[SrvRecord]) -> (r: Vec<&SrvRecord>)
    ensures
        pointed(r@) == tier_of(records@),
{
    let mut best: u16 = u16::MAX;
    let mut i: usize = 0;
    while i < records.len()
        invariant
            i <= records@.len(),
            best == best_priority(records@.take(i as int)),
        decreases records@.len() - i,
    {
        assert(records@.take(i + 1).drop_last() == records@.take(i as int));
        if records[i].priority < best {
            best = records[i].priority;
        }
        i = i + 1;
    }
    assert(records@.take(records@.len() as int) == records@);
    let mut tier: Vec<&SrvRecord> = Vec::new();
    i = 0;
    while i < records.len()
        invariant
            i <= records@.len(),
            pointed(tier@) == of_priority(records@.take(i as int), best),
        decreases records@.len() - i,
    {
        assert(records@.take(i + 1).drop_last() == records@.take(i as int));
        let ghost before = tier@;
        if records[i].priority == best {
            tier.push(&records[i]);
            assert(pointed(tier@) == pointed(before).push(records@[i as int]));
        }
        i = i + 1;
    }
    tier
}

proof fn lemma_of_priority(records: Seq<SrvRecord>, priority: u16)
    ensures
        forall|r: SrvRecord| #[trigger]
            of_priority(records, priority).contains(r) <==> records.contains(r) && r.priority
                == priority,
    decreases records.len(),
{
    if records.len() > 0 {
        let front = records.drop_last();
        lemma_of_priority(front, priority);
        let inner = of_priority(front, priority);
        let whole = of_priority(records, priority);
        assert forall|r: SrvRecord| #[trigger] whole.contains(r) <==> records.contains(r)
            && r.priority == priority by {
            if records.contains(r) {
                let k = records.index_of(r);
                if k < front.len() {
                    assert(front[k] == r);
                    if r.priority == priority {
                        assert(inner.contains(r));
                        let m = inner.index_of(r);
                        assert(whole[m] == r);
                    }
                } else if r.priority == priority {
                    assert(whole[whole.len() - 1] == r);
                }
            }
            if whole.contains(r) {
                let k = whole.index_of(r);
                if k < inner.len() {
                    assert(inner[k] == r);
                    assert(inner.contains(r));
                    let m = front.index_of(r);
                    assert(records[m] == r);
                } else {
                    assert(records[records.len() - 1] == r);
                }
            }
        }
    }
}

proof fn lemma_best(records: Seq<SrvRecord>, k: int)
    requires
        0 <= k < records.len(),
    ensures
        best_priority(records) <= records[k].priority,
    decreases records.len(),
{
    if k < records.len() - 1 {
        lemma_best(records.drop_last(), k);
    }
}

/// The records that are used are exactly those that no record is preferred to.
pub proof fn only_the_most_preferred_are_used(records: Seq<SrvRecord>, r: SrvRecord)
    requires
        records.contains(r),
    ensures
        tier_of(records).contains(r) <==> forall|q: SrvRecord| #[trigger]
            records.contains(q) ==> r.priority <= q.priority,
{
    lemma_of_priority(records, best_priority(records));
    let at = records.index_of(r);
    lemma_best(records, at);
    assert forall|q: SrvRecord| #[trigger] records.contains(q) implies best_priority(records)
        <= q.priority by {
        lemma_best(records, records.index_of(q));
    }
    if forall|q: SrvRecord| #[trigger] records.contains(q) ==> r.priority <= q.priority {
        lemma_best_is_one(records);
        let k = choose|k: int|
            0 <= k < records.len() && (#[trigger] records[k]).priority == best_priority(records);
        assert(records.contains(records[k]));
    }
}

proof fn lemma_best_is_one(records: Seq<SrvRecord>)
    requires
        records.len() > 0,
    ensures
        exists|k: int|
            0 <= k < records.len() && (#[trigger] records[k]).priority == best_priority(records),
    decreases records.len(),
{
    let front = records.drop_last();
    if front.len() == 0 {
        assert(best_priority(front) == u16::MAX);
        assert(records[0].priority == best_priority(records));
    } else {
        lemma_best_is_one(front);
        let k = choose|k: int|
            0 <= k < front.len() && (#[trigger] front[k]).priority == best_priority(front);
        if records.last().priority < best_priority(front) {
            assert(records[records.len() - 1].priority == best_priority(records));
        } else {
            assert(records[k].priority == best_priority(records));
        }
    }
}

/// Resolves one SRV name into a set of servers.
#[derive(Debug)]
pub struct SrvJob {
    pub name: String,
    pub template: PeerTemplate,
    pub description: String,
}

/// A lookup of the addresses of a target.
pub type Lookup = Result<Addresses, ResolveError>;

/// Does one of the most preferred records say that the service is not offered? What a
/// less preferred one says is not looked at.
pub open spec fn withdrawn(records: Seq<SrvRecord>) -> bool {
    exists|i: int|
        0 <= i < tier_of(records).len() && (#[trigger] tier_of(records)[i]).not_offered()
}

/// The backends of one target, in the order of its addresses.
pub open spec fn target_backends(
    template: PeerTemplate,
    record: SrvRecord,
    weight: int,
    addrs: Seq<IpAddr>,
) -> Seq<discovery::Found> {
    addrs.map_values(
        |ip: IpAddr|
            discovery::Found {
                addr: SocketAddr { ip, port: record.port, scope: 0 },
                weight,
                sni: template.sni_for(text::trim_end(record.target@, '.')),
            },
    )
}

/// The weights of the records.
pub open spec fn weights_of(records: Seq<SrvRecord>) -> Seq<u16> {
    records.map_values(|r: SrvRecord| r.weight)
}

/// The backends of the first `n` targets whose addresses were found.
pub open spec fn backends_of(
    template: PeerTemplate,
    tier: Seq<SrvRecord>,
    lookups: Seq<Lookup>,
    n: int,
) -> Seq<discovery::Found>
    decreases n,
{
    if n <= 0 {
        Seq::empty()
    } else {
        let front = backends_of(template, tier, lookups, n - 1);
        match lookups[n - 1] {
            Ok(found) => front + target_backends(
                template,
                tier[n - 1],
                share(weights_of(tier), n - 1),
                found.addrs@,
            ),
            Err(_) => front,
        }
    }
}

/// How many of the first `n` targets were not found.
pub open spec fn failures_of(lookups: Seq<Lookup>, n: int) -> nat
    decreases n,
{
    if n <= 0 {
        0
    } else {
        failures_of(lookups, n - 1) + if lookups[n - 1] is Err {
            1nat
        } else {
            0
        }
    }
}

/// The moment that the first part of the answer stops being valid.
pub open spec fn valid_until_of(start: Moment, lookups: Seq<Lookup>, n: int) -> Moment
    decreases n,
{
    if n <= 0 {
        start
    } else {
        let front = valid_until_of(start, lookups, n - 1);
        match lookups[n - 1] {
            Ok(found) => if found.valid_until < front {
                found.valid_until
            } else {
                front
            },
            Err(_) => front,
        }
    }
}

impl SrvJob {
    pub fn new(name: &str, template: PeerTemplate) -> (r: Self)
        ensures
            r.name@ == name@,
            r.template == template,
            r.description@ == "srv "@ + name@,
    {
        SrvJob { name: name.to_owned(), template, description: text::concat2("srv ", name) }
    }

    /// How this job is named in logs.
    pub fn describe(&self) -> (r: &str)
        ensures
            r@ == self.description@,
    {
        self.description.as_str()
    }

    /// The names that have to be looked up for an answer: the targets of the
    /// most preferred records, in order. None where the service is not offered.
    pub fn targets(&self, records: &[SrvRecord]) -> (r: Vec<String>)
        ensures
            text::texts(r@) == (if withdrawn(records@) {
                Seq::<Seq<char>>::empty()
            } else {
                tier_of(records@).map_values(|r: SrvRecord| r.target@)
            }),
    {
        let mut out: Vec<String> = Vec::new();
        if is_withdrawn(records) {
            assert(text::texts(out@) == Seq::<Seq<char>>::empty());
            return out;
        }
        let tier = lowest_tier(records);
        let ghost names = tier_of(records@).map_values(|r: SrvRecord| r.target@);
        let mut i: usize = 0;
        while i < tier.len()
            invariant
                i <= tier@.len(),
                pointed(tier@) == tier_of(records@),
                names == tier_of(records@).map_values(|r: SrvRecord| r.target@),
                text::texts(out@) == names.take(i as int),
            decreases tier@.len() - i,
        {
            let ghost before = out@;
            assert(pointed(tier@)[i as int] == *tier@[i as int]);
            let name = tier[i].target.clone();
            out.push(name);
            assert(text::texts(out@) == text::texts(before).push(name@));
            assert(names.take(i + 1) == names.take(i as int).push(names[i as int]));
            i = i + 1;
        }
        assert(names.take(names.len() as int) == names);
        out
    }

    /// What an answer comes to, once the addresses of its targets have been
    /// looked up, one lookup for each name that [`Self::targets`] gives.
    ///
    /// A service that is not offered has no servers, and that is an answer. One
    /// target being unresolvable is normal while servers are replaced; every
    /// target being so is a failure.
    pub fn resolve(&self, answer: &SrvRecords, lookups: &[Lookup], now: Moment) -> (r: Result<
        (Vec<Backend>, Duration),
        ResolveError,
    >)
        requires
            withdrawn(answer.records@) || lookups@.len() == tier_of(answer.records@).len(),
        ensures
            ({
                let tier = tier_of(answer.records@);
                let n = tier.len() as int;
                let found = backends_of(self.template, tier, lookups@, n);
                if withdrawn(answer.records@) {
                    r matches Ok((backends, ttl)) && backends@.len() == 0 && ttl.millis
                        == resolver::until(answer.valid_until, now)
                } else if tier.len() == 0 {
                    r matches Err(e) && e.0@ == "'"@ + self.name@ + "' returned no SRV records"@
                } else if found.len() == 0 && failures_of(lookups@, n) > 0 {
                    r matches Err(e) && e.0@ == "none of the "@ + text::decimal(
                        failures_of(lookups@, n),
                    ) + " target(s) of '"@ + self.name@ + "' could be resolved"@
                } else {
                    r matches Ok((backends, ttl)) && discovery::stands_for(backends@, found, self.template)
                        && ttl.millis == resolver::until(
                        valid_until_of(answer.valid_until, lookups@, n),
                        now,
                    )
                }
            }),
    {
        let records = answer.records.as_slice();
        if is_withdrawn(records) {
            return Ok((Vec::new(), resolver::time_until(answer.valid_until, now)));
        }
        let tier = lowest_tier(records);
        let ghost all = tier_of(records@);
        assert(pointed(tier@).len() == tier@.len());
        if tier.len() == 0 {
            let msg = text::concat3("'", self.name.as_str(), "' returned no SRV records");
            return Err(ResolveError::new(msg));
        }
        let mut raw: Vec<u16> = Vec::new();
        let mut i: usize = 0;
        while i < tier.len()
            invariant
                i <= tier@.len(),
                pointed(tier@) == all,
                raw@ == weights_of(all).take(i as int),
            decreases tier@.len() - i,
        {
            assert(pointed(tier@)[i as int] == *tier@[i as int]);
            raw.push(tier[i].weight);
            assert(raw@ == weights_of(all).take(i + 1));
            i = i + 1;
        }
        assert(weights_of(all).take(all.len() as int) == weights_of(all));
        let weights = normalize_weights(raw.as_slice());
        let mut backends: Vec<Backend> = Vec::new();
        let mut failures: usize = 0;
        let mut valid_until = answer.valid_until;
        i = 0;
        while i < tier.len()
            invariant
                i <= tier@.len(),
                pointed(tier@) == all,
                lookups@.len() == all.len(),
                tier@.len() == all.len(),
                weights@.len() == all.len(),
                forall|k: int|
                    0 <= k < weights@.len() ==> #[trigger] weights@[k] == share(
                        weights_of(all),
                        k,
                    ),
                failures <= i,
                failures == failures_of(lookups@, i as int),
                valid_until == valid_until_of(answer.valid_until, lookups@, i as int),
                discovery::stands_for(
                    backends@,
                    backends_of(self.template, all, lookups@, i as int),
                    self.template,
                ),
            decreases tier@.len() - i,
        {
            assert(pointed(tier@)[i as int] == *tier@[i as int]);
            match &lookups[i] {
                Ok(found) => {
                    if found.valid_until < valid_until {
                        valid_until = found.valid_until;
                    }
                    let sni = tier[i].sni();
                    let ghost before = backends_of(self.template, all, lookups@, i as int);
                    let ghost here = target_backends(
                        self.template,
                        all[i as int],
                        weights@[i as int] as int,
                        found.addrs@,
                    );
                    let mut k: usize = 0;
                    assert(before + here.take(0) == before);
                    while k < found.addrs.len()
                        invariant
                            k <= found.addrs@.len(),
                            i < tier@.len(),
                            tier@.len() == all.len(),
                            weights@.len() == all.len(),
                            pointed(tier@) == all,
                            *tier@[i as int] == all[i as int],
                            sni@ == text::trim_end(all[i as int].target@, '.'),
                            here == target_backends(
                                self.template,
                                all[i as int],
                                weights@[i as int] as int,
                                found.addrs@,
                            ),
                            discovery::stands_for(backends@, before + here.take(k as int), self.template),
                        decreases found.addrs@.len() - k,
                    {
                        let addr = SocketAddr {
                            ip: found.addrs[k],
                            port: tier[i].port,
                            scope: 0,
                        };
                        let peer = self.template.peer(addr, sni.as_str());
                        let backend = backend_for(addr, weights[i], peer);
                        assert(before + here.take(k + 1) == (before + here.take(k as int)).push(
                            here[k as int],
                        ));
                        backends.push(backend);
                        k = k + 1;
                    }
                    assert(here.take(here.len() as int) == here);
                },
                Err(_) => {
                    failures = failures + 1;
                },
            }
            i = i + 1;
        }
        if backends.len() == 0 && failures > 0 {
            let count = text::decimal_text(failures as u128);
            let what = text::concat3("none of the ", count.as_str(), " target(s) of '");
            let msg = text::concat3(what.as_str(), self.name.as_str(), "' could be resolved");
            return Err(ResolveError::new(msg));
        }
        Ok((backends, resolver::time_until(valid_until, now)))
    }
}

fn is_withdrawn(records: &[SrvRecord]) -> (r: bool)
    ensures
        r == withdrawn(records@),
{
    let tier = lowest_tier(records);
    let ghost all = tier_of(records@);
    assert(pointed(tier@).len() == tier@.len());
    let mut i: usize = 0;
    while i < tier.len()
        invariant
            i <= tier@.len(),
            pointed(tier@) == all,
            all == tier_of(records@),
            tier@.len() == all.len(),
            forall|k: int| 0 <= k < i ==> !(#[trigger] all[k]).not_offered(),
        decreases tier@.len() - i,
    {
        assert(pointed(tier@)[i as int] == *tier@[i as int]);
        if tier[i].is_unavailable() {
            assert(all[i as int].not_offered());
            return true;
        }
        i = i + 1;
    }
    false
}

/// A target has a server at each of its addresses, in their order: all with the port of
/// its record, its share, and its name.
pub proof fn a_target_is_served_at_each_address(
    template: PeerTemplate,
    record: SrvRecord,
    weight: int,
    addrs: Seq<IpAddr>,
)
    ensures
        ({
            let servers = target_backends(template, record, weight, addrs);
            &&& servers.len() == addrs.len()
            &&& forall|k: int|
                0 <= k < addrs.len() ==> {
                    &&& (#[trigger] servers[k]).addr.ip == addrs[k]
                    &&& servers[k].addr.port == record.port
                    &&& servers[k].addr.scope == 0
                    &&& servers[k].weight == weight
                    &&& servers[k].sni == template.sni_for(text::trim_end(record.target@, '.'))
                }
        }),
{
}

/// How many addresses the first `n` lookups found.
pub open spec fn addresses_in(lookups: Seq<Lookup>, n: int) -> nat
    decreases n,
{
    if n <= 0 {
        0
    } else {
        addresses_in(lookups, n - 1) + (match lookups[n - 1] {
            Ok(found) => found.addrs@.len(),
            Err(_) => 0,
        })
    }
}

/// Is the server at the address that a lookup found for a record, and does it have the
/// port, the share and the name of that record?
pub open spec fn serves(
    server: discovery::Found,
    template: PeerTemplate,
    tier: Seq<SrvRecord>,
    lookups: Seq<Lookup>,
    i: int,
    k: int,
) -> bool {
    lookups[i] matches Ok(found) && 0 <= k < found.addrs@.len() && server == (discovery::Found {
        addr: SocketAddr { ip: found.addrs@[k], port: tier[i].port, scope: 0 },
        weight: share(weights_of(tier), i),
        sni: template.sni_for(text::trim_end(tier[i].target@, '.')),
    })
}

/// Every address that was found for one of the first `n` records is a server, and there
/// are as many servers as addresses were found.
pub proof fn every_address_found_is_a_server(
    template: PeerTemplate,
    tier: Seq<SrvRecord>,
    lookups: Seq<Lookup>,
    n: int,
    i: int,
    k: int,
)
    requires
        0 <= i < n <= lookups.len(),
        lookups[i] matches Ok(found) && 0 <= k < found.addrs@.len(),
    ensures
        ({
            let servers = backends_of(template, tier, lookups, n);
            &&& servers.len() == addresses_in(lookups, n)
            &&& exists|m: int|
                0 <= m < servers.len() && serves(
                    #[trigger] servers[m],
                    template,
                    tier,
                    lookups,
                    i,
                    k,
                )
        }),
    decreases n,
{
    let front = backends_of(template, tier, lookups, n - 1);
    let servers = backends_of(template, tier, lookups, n);
    every_server_was_found(template, tier, lookups, n);
    if i < n - 1 {
        every_address_found_is_a_server(template, tier, lookups, n - 1, i, k);
        let m = choose|m: int|
            0 <= m < front.len() && serves(#[trigger] front[m], template, tier, lookups, i, k);
        assert(servers[m] == front[m]);
    } else {
        assert(serves(servers[front.len() + k], template, tier, lookups, i, k));
    }
}

/// Is the server at an address that was found for one of the first `n` records?
pub open spec fn is_found(
    server: discovery::Found,
    template: PeerTemplate,
    tier: Seq<SrvRecord>,
    lookups: Seq<Lookup>,
    n: int,
) -> bool {
    exists|i: int, k: int|
        0 <= i < n && #[trigger] serves(server, template, tier, lookups, i, k)
}

/// Every server of an answer is at an address that was found for one of its records, and
/// there are as many servers as addresses were found.
pub proof fn every_server_was_found(
    template: PeerTemplate,
    tier: Seq<SrvRecord>,
    lookups: Seq<Lookup>,
    n: int,
)
    requires
        0 <= n <= lookups.len(),
    ensures
        ({
            let servers = backends_of(template, tier, lookups, n);
            &&& servers.len() == addresses_in(lookups, n)
            &&& forall|m: int|
                0 <= m < servers.len() ==> is_found(
                    #[trigger] servers[m],
                    template,
                    tier,
                    lookups,
                    n,
                )
        }),
    decreases n,
{
    if n > 0 {
        every_server_was_found(template, tier, lookups, n - 1);
        let front = backends_of(template, tier, lookups, n - 1);
        let servers = backends_of(template, tier, lookups, n);
        assert forall|m: int| 0 <= m < servers.len() implies is_found(
            #[trigger] servers[m],
            template,
            tier,
            lookups,
            n,
        ) by {
            if m < front.len() {
                assert(servers[m] == front[m]);
                assert(is_found(front[m], template, tier, lookups, n - 1));
                let (i, k) = choose|i: int, k: int|
                    0 <= i < n - 1 && #[trigger] serves(
                        front[m],
                        template,
                        tier,
                        lookups,
                        i,
                        k,
                    );
                assert(serves(servers[m], template, tier, lookups, i, k));
            } else {
                assert(serves(servers[m], template, tier, lookups, n - 1, m - front.len()));
            }
        }
    }
}

proof fn lemma_of_priority_filters(records: Seq<SrvRecord>, priority: u16)
    ensures
        of_priority(records, priority) == records.filter(
            |r: SrvRecord| r.priority == priority,
        ),
    decreases records.len(),
{
    reveal(Seq::filter);
    if records.len() > 0 {
        lemma_of_priority_filters(records.drop_last(), priority);
    } else {
        assert(records == Seq::<SrvRecord>::empty());
    }
}

/// The records that are used are all those that have some one priority, in their order,
/// and no record has a lower one.
pub proof fn the_most_preferred_keep_their_order(records: Seq<SrvRecord>, best: u16)
    requires
        exists|i: int| 0 <= i < records.len() && (#[trigger] records[i]).priority == best,
        forall|i: int| 0 <= i < records.len() ==> best <= (#[trigger] records[i]).priority,
    ensures
        tier_of(records) == records.filter(|r: SrvRecord| r.priority == best),
        tier_of(records).len() > 0,
{
    let k = choose|i: int| 0 <= i < records.len() && (#[trigger] records[i]).priority == best;
    lemma_best(records, k);
    lemma_best_is_one(records);
    lemma_of_priority_filters(records, best);
    records.lemma_filter_contains(|r: SrvRecord| r.priority == best, k);
}

/// A service is withdrawn if and only if a record says so that no record is preferred to.
pub proof fn only_a_preferred_record_withdraws(records: Seq<SrvRecord>)
    ensures
        withdrawn(records) <==> exists|i: int|
            0 <= i < records.len() && (#[trigger] records[i]).target@ == "."@ && forall|j: int|
                0 <= j < records.len() ==> records[i].priority <= (#[trigger] records[j]).priority,
{
    let tier = tier_of(records);
    lemma_of_priority(records, best_priority(records));
    if withdrawn(records) {
        let t = choose|t: int| 0 <= t < tier.len() && (#[trigger] tier[t]).not_offered();
        assert(tier.contains(tier[t]));
        let i = records.index_of(tier[t]);
        assert forall|j: int| 0 <= j < records.len() implies records[i].priority
            <= (#[trigger] records[j]).priority by {
            lemma_best(records, j);
        }
    }
    if exists|i: int|
        0 <= i < records.len() && (#[trigger] records[i]).target@ == "."@ && forall|j: int|
            0 <= j < records.len() ==> records[i].priority <= (#[trigger] records[j]).priority {
        let i = choose|i: int|
            0 <= i < records.len() && (#[trigger] records[i]).target@ == "."@ && forall|j: int|
                0 <= j < records.len() ==> records[i].priority <= (#[trigger] records[j]).priority;
        lemma_best_is_one(records);
        lemma_best(records, i);
        assert(records.contains(records[i]));
        assert(tier.contains(records[i]));
        let t = tier.index_of(records[i]);
        assert(tier[t].not_offered());
    }
}

/// The targets that were not found are counted one by one.
pub proof fn failures_are_counted(lookups: Seq<Lookup>, n: int)
    requires
        0 <= n <= lookups.len(),
    ensures
        failures_of(lookups, n) == lookups.take(n).filter(|l: Lookup| l is Err).len(),
    decreases n,
{
    reveal(Seq::filter);
    if n > 0 {
        failures_are_counted(lookups, n - 1);
        assert(lookups.take(n).drop_last() == lookups.take(n - 1));
    }
}

/// An answer is good until the first of its parts stops being valid: the records
/// themselves, or the addresses of a target that was found.
pub proof fn an_answer_is_good_until_its_first_part_ends(
    start: Moment,
    lookups: Seq<Lookup>,
    n: int,
)
    requires
        0 <= n <= lookups.len(),
    ensures
        ({
            let end = valid_until_of(start, lookups, n);
            &&& end <= start
            &&& forall|i: int|
                0 <= i < n ==> ((#[trigger] lookups[i]) matches Ok(found) ==> end
                    <= found.valid_until)
            &&& end == start || exists|i: int|
                0 <= i < n && ((#[trigger] lookups[i]) matches Ok(found) && end
                    == found.valid_until)
        }),
    decreases n,
{
    if n > 0 {
        an_answer_is_good_until_its_first_part_ends(start, lookups, n - 1);
        let end = valid_until_of(start, lookups, n);
        let front = valid_until_of(start, lookups, n - 1);
        if end == front && front != start {
            let i = choose|i: int|
                0 <= i < n - 1 && ((#[trigger] lookups[i]) matches Ok(found) && front
                    == found.valid_until);
            assert(lookups[i] matches Ok(found) && end == found.valid_until);
        } else if end != front {
            assert(lookups[n - 1] matches Ok(found) && end == found.valid_until);
        }
    }
}

/// The share of a record goes by its own weight among those of all the records.
pub proof fn every_record_has_its_weight(tier: Seq<SrvRecord>, i: int)
    requires
        0 <= i < tier.len(),
    ensures
        weights_of(tier).len() == tier.len(),
        weights_of(tier)[i] == tier[i].weight,
{
}

} // verus!
