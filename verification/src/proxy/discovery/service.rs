//! When the pools of a service want attention.
//!
//! One loop drives every pool of a service, but each pool keeps its own
//! schedule: for resolving again, and for health checks.
use crate::config::internal::HealthCheckSettings;
use crate::proxy::discovery::resolver::Moment;
use crate::proxy::discovery;
use crate::text;
use vstd::prelude::*;

verus! {

/// What one pool needs to stay current: when its discovery is due next, and how
/// it is health checked, if it is.
#[derive(Debug, Clone, Copy)]
pub struct PoolState {
    pub next_due: Option<Moment>,
    pub health: Option<HealthCheckSettings>,
}

/// When each pool next wants attention.
#[derive(Debug)]
pub struct Schedule {
    /// Set once a pool has been polled at least once.
    pub polled: Vec<bool>,
    pub next_health_check: Vec<Moment>,
}

impl Schedule {
    /// An entry for each of so many pools.
    pub open spec fn covers(self, pools: int) -> bool {
        self.polled@.len() == pools && self.next_health_check@.len() == pools
    }

    /// A schedule on which no pool has been polled, and every check is due.
    pub fn new(pools: usize, now: Moment) -> (r: Self)
        ensures
            r.covers(pools as int),
            forall|i: int| 0 <= i < pools ==> !#[trigger] r.polled@[i],
            forall|i: int| 0 <= i < pools ==> #[trigger] r.next_health_check@[i] == now,
    {
        let mut polled: Vec<bool> = Vec::new();
        let mut checks: Vec<Moment> = Vec::new();
        let mut i: usize = 0;
        while i < pools
            invariant
                i <= pools,
                polled@.len() == i,
                checks@.len() == i,
                forall|k: int| 0 <= k < i ==> !#[trigger] polled@[k],
                forall|k: int| 0 <= k < i ==> #[trigger] checks@[k] == now,
            decreases pools - i,
        {
            polled.push(false);
            checks.push(now);
            i = i + 1;
        }
        Schedule { polled, next_health_check: checks }
    }

    /// Is it time to look at the pool?
    pub open spec fn wants(self, index: int, pool: PoolState, now: Moment) -> bool {
        !self.polled@[index] || (pool.next_due matches Some(due) && now >= due) || (
        pool.health is Some && now >= self.next_health_check@[index])
    }

    /// Is it time to look at the pool? A pool that is looked at counts as polled
    /// from then on.
    pub fn visit(&mut self, index: usize, pool: &PoolState, now: Moment) -> (r: bool)
        requires
            old(self).polled@.len() == old(self).next_health_check@.len(),
            index < old(self).polled@.len(),
        ensures
            r == old(self).wants(index as int, *pool, now),
            final(self).next_health_check == old(self).next_health_check,
            final(self).polled@ == (if r {
                old(self).polled@.update(index as int, true)
            } else {
                old(self).polled@
            }),
    {
        let resolve = match pool.next_due {
            Some(due) => now >= due,
            None => false,
        };
        let check = pool.health.is_some() && now >= self.next_health_check[index];
        let due = !self.polled[index] || resolve || check;
        if due {
            self.polled[index] = true;
        }
        due
    }

    /// Should the pool be checked now that it has been resolved? A server that
    /// has just appeared is checked at once rather than at the next turn.
    pub fn checks(&self, index: usize, pool: &PoolState, changed: bool, now: Moment) -> (r: bool)
        requires
            index < self.next_health_check@.len(),
        ensures
            r == (pool.health is Some && (changed || now >= self.next_health_check@[index as int])),
    {
        pool.health.is_some() && (changed || now >= self.next_health_check[index])
    }

    /// Sets the next check of a pool that has just been checked.
    pub fn checked(&mut self, index: usize, pool: &PoolState, now: Moment)
        requires
            index < old(self).next_health_check@.len(),
            pool.health matches Some(health) ==> now + health.frequency.millis <= u128::MAX,
        ensures
            final(self).polled == old(self).polled,
            final(self).next_health_check@ == (match pool.health {
                Some(health) => old(self).next_health_check@.update(
                    index as int,
                    (now + health.frequency.millis) as u128,
                ),
                None => old(self).next_health_check@,
            }),
    {
        match pool.health {
            Some(health) => {
                self.next_health_check[index] = now + health.frequency.millis;
            },
            None => {},
        }
    }

    /// The soonest that one pool wants attention.
    pub open spec fn pool_wakeup(self, index: int, pool: PoolState) -> Option<Moment> {
        discovery::sooner(
            pool.next_due,
            if pool.health is Some {
                Some(self.next_health_check@[index])
            } else {
                None
            },
        )
    }

    /// The soonest that any of the first `n` pools wants attention.
    pub open spec fn wakeup(self, pools: Seq<PoolState>, n: int) -> Option<Moment>
        decreases n,
    {
        if n <= 0 {
            None
        } else {
            discovery::sooner(self.wakeup(pools, n - 1), self.pool_wakeup(n - 1, pools[n - 1]))
        }
    }

    /// The soonest that any pool wants attention. Never, where nothing is
    /// resolved again and nothing is checked.
    pub fn next_wakeup(&self, pools: &[PoolState]) -> (r: Option<Moment>)
        requires
            self.covers(pools@.len() as int),
        ensures
            r == self.wakeup(pools@, pools@.len() as int),
    {
        let mut wake: Option<Moment> = None;
        let mut i: usize = 0;
        while i < pools.len()
            invariant
                i <= pools@.len(),
                self.covers(pools@.len() as int),
                wake == self.wakeup(pools@, i as int),
            decreases pools@.len() - i,
        {
            let check = if pools[i].health.is_some() {
                Some(self.next_health_check[i])
            } else {
                None
            };
            let here = discovery::soonest(pools[i].next_due, check);
            wake = discovery::soonest(wake, here);
            i = i + 1;
        }
        wake
    }
}

/// Does the pool need anything from the loop? One whose servers are all literal
/// addresses and that is not health checked is filled once, and never looked at
/// again.
pub fn needs_attention(dynamic: bool, health: Option<&HealthCheckSettings>) -> (r: bool)
    ensures
        r == (dynamic || health is Some),
{
    dynamic || health.is_some()
}

/// A list of addresses for the log.
pub fn render(addrs: &[String]) -> (r: String)
    ensures
        r@ == (if addrs@.len() == 0 {
            "-"@
        } else {
            text::join(text::texts(addrs@), ", "@)
        }),
{
    if addrs.len() == 0 {
        "-".to_owned()
    } else {
        text::join_text(addrs, ", ")
    }
}

/// Nothing is due before the moment that the loop is woken at: a pool that has
/// been polled does not want attention any sooner.
pub proof fn nothing_is_due_before_the_wakeup(
    schedule: Schedule,
    pools: Seq<PoolState>,
    index: int,
    now: Moment,
)
    requires
        schedule.covers(pools.len() as int),
        0 <= index < pools.len(),
        schedule.polled@[index],
        schedule.wants(index, pools[index], now),
    ensures
        schedule.wakeup(pools, pools.len() as int) matches Some(wake) && wake <= now,
{
    lemma_wakeup(schedule, pools, index, pools.len() as int, now);
}

proof fn lemma_wakeup(
    schedule: Schedule,
    pools: Seq<PoolState>,
    index: int,
    n: int,
    now: Moment,
)
    requires
        schedule.covers(pools.len() as int),
        0 <= index < n <= pools.len(),
        schedule.polled@[index],
        schedule.wants(index, pools[index], now),
    ensures
        schedule.wakeup(pools, n) matches Some(wake) && wake <= now,
    decreases n,
{
    if index < n - 1 {
        lemma_wakeup(schedule, pools, index, n - 1, now);
    }
}

/// The loop is woken for something: at that moment, a pool is to be resolved again or to
/// be checked. Where it is never woken, no pool ever is.
pub proof fn the_wakeup_is_for_a_pool(schedule: Schedule, pools: Seq<PoolState>, n: int)
    requires
        schedule.covers(pools.len() as int),
        0 <= n <= pools.len(),
    ensures
        match schedule.wakeup(pools, n) {
            Some(wake) => exists|i: int|
                0 <= i < n && ((#[trigger] pools[i]).next_due == Some(wake) || pools[i].health is Some
                    && schedule.next_health_check@[i] == wake),
            None => forall|i: int|
                0 <= i < n ==> (#[trigger] pools[i]).next_due is None && pools[i].health is None,
        },
    decreases n,
{
    if n > 0 {
        the_wakeup_is_for_a_pool(schedule, pools, n - 1);
        match schedule.wakeup(pools, n) {
            Some(wake) => {
                if schedule.wakeup(pools, n - 1) == Some(wake) {
                    let i = choose|i: int|
                        0 <= i < n - 1 && ((#[trigger] pools[i]).next_due == Some(wake)
                            || pools[i].health is Some && schedule.next_health_check@[i] == wake);
                    assert(pools[i].next_due == Some(wake) || pools[i].health is Some
                        && schedule.next_health_check@[i] == wake);
                } else {
                    let i = n - 1;
                    assert(pools[i].next_due == Some(wake) || pools[i].health is Some
                        && schedule.next_health_check@[i] == wake);
                }
            },
            None => {},
        }
    }
}

/// A pool that was never polled is looked at, whatever the time. From then on it is looked
/// at when it is to be resolved again, or when it is checked and a check is due, and at no
/// other time.
pub proof fn a_pool_is_looked_at_when_it_is_due(
    schedule: Schedule,
    index: int,
    pool: PoolState,
    now: Moment,
)
    ensures
        !schedule.polled@[index] ==> schedule.wants(index, pool, now),
        pool.next_due matches Some(due) && due <= now ==> schedule.wants(index, pool, now),
        pool.health is Some && schedule.next_health_check@[index] <= now ==> schedule.wants(
            index,
            pool,
            now,
        ),
        schedule.polled@[index] && (pool.next_due matches Some(due) ==> now < due) && (
        pool.health is Some ==> now < schedule.next_health_check@[index]) ==> !schedule.wants(
            index,
            pool,
            now,
        ),
{
}

} // verus!
