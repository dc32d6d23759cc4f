//! Decisions of the worker loops: how sessions are split across workers, how
//! many are admitted per tick, which sessions a worker holds, and when it
//! stops. The loops themselves, with their sockets and clocks, run outside.

use crate::session::Bot;
use vstd::prelude::*;

verus! {

/// Length of one tick, in milliseconds.
pub const TICK_MILLIS: u64 = 50;

/// The sessions one worker runs: how many, and the first display number.
#[derive(PartialEq, Eq, Structural, Clone, Copy, Debug)]
pub struct WorkerShare {
    pub count: u32,
    pub name_offset: u32,
}

/// Sessions given to worker `i` of `workers` out of `count`: an even share,
/// and one more for each of the first `count % workers` workers.
pub open spec fn share_count(count: nat, workers: nat, i: nat) -> nat
    recommends
        workers > 0,
{
    count / workers + if i < count % workers {
        1nat
    } else {
        0nat
    }
}

/// First display number of worker `i`: the sessions of the workers before it.
pub open spec fn share_offset(count: nat, workers: nat, i: nat) -> nat
    recommends
        workers > 0,
{
    i * (count / workers) + if i < count % workers {
        i
    } else {
        count % workers
    }
}

proof fn lemma_offset_step(count: nat, workers: nat, i: nat)
    requires
        workers > 0,
        i < workers,
    ensures
        share_offset(count, workers, i + 1) == share_offset(count, workers, i) + share_count(
            count,
            workers,
            i,
        ),
        share_offset(count, workers, i + 1) <= count,
{
    let q = count / workers;
    let m = count % workers;
    assert((i + 1) * q == i * q + q) by (nonlinear_arith);
    assert(count == workers * q + m) by (nonlinear_arith)
        requires
            workers > 0,
            q == count / workers,
            m == count % workers,
    ;
    assert((i + 1) * q <= workers * q) by (nonlinear_arith)
        requires
            i + 1 <= workers,
    ;
    assert(share_offset(count, workers, i + 1) <= count);
}

/// Splits `count` sessions across `workers` workers.
pub fn partition_workers(count: u32, workers: u32) -> (r: Vec<WorkerShare>)
    requires
        workers > 0,
    ensures
        r@.len() == workers,
        forall|i: int|
            0 <= i < workers ==> (#[trigger] r@[i]).count == share_count(
                count as nat,
                workers as nat,
                i as nat,
            ) && r@[i].name_offset == share_offset(count as nat, workers as nat, i as nat),
{
    let per = count / workers;
    let extra = count % workers;
    let mut out: Vec<WorkerShare> = Vec::new();
    let mut offset: u32 = 0;
    let mut i: u32 = 0;
    assert(share_offset(count as nat, workers as nat, 0) == 0);
    while i < workers
        invariant
            workers > 0,
            per == count / workers,
            extra == count % workers,
            i <= workers,
            out@.len() == i,
            offset == share_offset(count as nat, workers as nat, i as nat),
            forall|k: int|
                0 <= k < i ==> (#[trigger] out@[k]).count == share_count(
                    count as nat,
                    workers as nat,
                    k as nat,
                ) && out@[k].name_offset == share_offset(count as nat, workers as nat, k as nat),
        decreases workers - i,
    {
        proof {
            lemma_offset_step(count as nat, workers as nat, i as nat);
        }
        let n = if i < extra {
            per + 1
        } else {
            per
        };
        out.push(WorkerShare { count: n, name_offset: offset });
        offset = offset + n;
        i = i + 1;
    }
    out
}

/// Every session goes to exactly one worker: the shares differ by at most
/// one, the shares of later workers are never larger, and the ranges of
/// display numbers lie one after another with no gap or overlap, ending at
/// `count`.
pub proof fn lemma_partition_fair(count: nat, workers: nat)
    requires
        workers > 0,
    ensures
        forall|i: nat|
            i < workers ==> count / workers <= #[trigger] share_count(count, workers, i) <= count
                / workers + 1,
        forall|i: nat, j: nat|
            i < j < workers ==> #[trigger] share_count(count, workers, j) <= #[trigger] share_count(
                count,
                workers,
                i,
            ),
        forall|i: nat|
            i < workers ==> #[trigger] share_offset(count, workers, i + 1) == share_offset(
                count,
                workers,
                i,
            ) + share_count(count, workers, i),
        forall|i: nat, j: nat|
            i < j <= workers ==> #[trigger] share_offset(count, workers, i) + share_count(
                count,
                workers,
                i,
            ) <= #[trigger] share_offset(count, workers, j),
        share_offset(count, workers, 0) == 0,
        share_offset(count, workers, workers) == count,
{
    assert forall|i: nat| i < workers implies #[trigger] share_offset(count, workers, i + 1)
        == share_offset(count, workers, i) + share_count(count, workers, i) by {
        lemma_offset_step(count, workers, i);
    }
    assert forall|i: nat, j: nat| i < j <= workers implies #[trigger] share_offset(count, workers, i)
        + share_count(count, workers, i) <= #[trigger] share_offset(count, workers, j) by {
        lemma_offset_monotone(count, workers, i + 1, j);
        lemma_offset_step(count, workers, i);
    }
    let q = count / workers;
    let m = count % workers;
    assert(count == workers * q + m) by (nonlinear_arith)
        requires
            workers > 0,
            q == count / workers,
            m == count % workers,
    ;
    assert(workers * q == workers * (count / workers));
    assert(m < workers);
    assert(share_offset(count, workers, workers) == workers * q + m);
}

proof fn lemma_offset_monotone(count: nat, workers: nat, i: nat, j: nat)
    requires
        workers > 0,
        i <= j <= workers,
    ensures
        share_offset(count, workers, i) <= share_offset(count, workers, j),
    decreases j - i,
{
    if i < j {
        lemma_offset_step(count, workers, i);
        lemma_offset_monotone(count, workers, i + 1, j);
    }
}

/// Sessions a worker admits per tick: its total over the CPU count, rounded
/// up.
pub open spec fn per_tick_of(total: nat, cpus: nat) -> nat
    recommends
        cpus > 0,
{
    ((total + cpus - 1) / cpus as int) as nat
}

pub fn admission_per_tick(total: u32, cpus: u32) -> (r: u32)
    requires
        cpus > 0,
    ensures
        r == per_tick_of(total as nat, cpus as nat),
{
    let t = total as u64;
    let c = cpus as u64;
    let v = (t + c - 1) / c;
    proof {
        lemma_ceil_div_bound(t as nat, c as nat);
    }
    v as u32
}

proof fn lemma_ceil_div_bound(t: nat, c: nat)
    requires
        c >= 1,
    ensures
        (t + c - 1) / (c as int) <= t,
{
    let v = (t + c - 1) / (c as int);
    assert(v * c <= t + c - 1) by (nonlinear_arith)
        requires
            c >= 1,
            v == (t + c - 1) / (c as int),
    ;
    assert(v <= t) by (nonlinear_arith)
        requires
            c >= 1,
            v * c <= t + c - 1,
            v >= 0,
    {
        if v > t {
            assert(v * c >= (t + 1) * c);
        }
    }
}

/// How many sessions to admit this tick, when `joined` of `total` are in.
pub open spec fn admit_count(joined: nat, total: nat, per_tick: nat) -> nat {
    if total - joined < per_tick {
        (total - joined) as nat
    } else {
        per_tick
    }
}

pub fn admit_now(joined: u32, total: u32, per_tick: u32) -> (r: u32)
    requires
        joined <= total,
    ensures
        r == admit_count(joined as nat, total as nat, per_tick as nat),
        joined + r <= total,
{
    if total - joined < per_tick {
        total - joined
    } else {
        per_tick
    }
}

/// Sessions admitted after `ticks` ticks.
pub open spec fn admitted_after(ticks: nat, total: nat, per_tick: nat) -> nat
    decreases ticks,
{
    if ticks == 0 {
        0
    } else {
        let j = admitted_after((ticks - 1) as nat, total, per_tick);
        j + admit_count(j, total, per_tick)
    }
}

proof fn lemma_admitted_closed_form(ticks: nat, total: nat, per_tick: nat)
    ensures
        admitted_after(ticks, total, per_tick) == if ticks * per_tick <= total {
            ticks * per_tick
        } else {
            total
        },
    decreases ticks,
{
    if ticks > 0 {
        let prev = (ticks - 1) as nat;
        lemma_admitted_closed_form(prev, total, per_tick);
        assert(ticks * per_tick == prev * per_tick + per_tick) by (nonlinear_arith)
            requires
                ticks == prev + 1,
        ;
        let j = admitted_after(prev, total, per_tick);
        assert(admitted_after(ticks, total, per_tick) == j + admit_count(j, total, per_tick));
        if prev * per_tick <= total {
            assert(j == prev * per_tick);
        } else {
            assert(j == total);
            assert(admit_count(j, total, per_tick) == 0);
        }
    } else {
        assert(ticks * per_tick == 0) by (nonlinear_arith)
            requires
                ticks == 0,
        ;
    }
}

/// Pacing admits every session: after `t` ticks `min(total, t * per_tick)`
/// are in, never more than `per_tick` in one tick, and with at least one per
/// tick all are in after `ceil(total / per_tick)` ticks.
pub proof fn lemma_admission_completes(total: nat, per_tick: nat, t: nat)
    ensures
        admitted_after(t, total, per_tick) == if t * per_tick <= total {
            t * per_tick
        } else {
            total
        },
        admitted_after(t + 1, total, per_tick) - admitted_after(t, total, per_tick) <= per_tick,
        per_tick >= 1 ==> admitted_after(
            ((total + per_tick - 1) / per_tick as int) as nat,
            total,
            per_tick,
        ) == total,
{
    lemma_admitted_closed_form(t, total, per_tick);
    lemma_admitted_closed_form(t + 1, total, per_tick);
    if per_tick >= 1 {
        let k = ((total + per_tick - 1) / per_tick as int) as nat;
        lemma_admitted_closed_form(k, total, per_tick);
        assert(k * per_tick >= total) by (nonlinear_arith)
            requires
                per_tick >= 1,
                k == (total + per_tick - 1) / per_tick as int,
        ;
    }
}

/// Milliseconds to sleep after a tick's work took `elapsed` of it.
pub fn tick_sleep_millis(elapsed: u64) -> (r: u64)
    ensures
        r == if elapsed < TICK_MILLIS {
            TICK_MILLIS - elapsed
        } else {
            0
        },
{
    if elapsed < TICK_MILLIS {
        TICK_MILLIS - elapsed
    } else {
        0
    }
}

/// A worker stops once it has admitted all its sessions and none is left.
pub fn worker_done(admitted: u32, total: u32, remaining: usize) -> (r: bool)
    ensures
        r == (admitted >= total && remaining == 0),
{
    admitted >= total && remaining == 0
}

/// The sessions a worker holds, each under its own token (its number).
pub struct BotRegistry {
    pub bots: Vec<Bot>,
}

/// No two sessions share a token, and each is well formed.
pub open spec fn registry_wf(bots: Seq<Bot>) -> bool {
    &&& forall|i: int, j: int|
        0 <= i < bots.len() && 0 <= j < bots.len() && i != j ==> (#[trigger] bots[i]).id
            != (#[trigger] bots[j]).id
    &&& forall|i: int| 0 <= i < bots.len() ==> (#[trigger] bots[i]).wf()
}

impl BotRegistry {
    pub open spec fn wf(&self) -> bool {
        registry_wf(self.bots@)
    }

    /// Whether a session holds `token`.
    pub open spec fn holds(&self, token: u32) -> bool {
        exists|i: int| 0 <= i < self.bots@.len() && (#[trigger] self.bots@[i]).id == token
    }

    pub fn new() -> (r: BotRegistry)
        ensures
            r.wf(),
            r.bots@.len() == 0,
    {
        BotRegistry { bots: Vec::new() }
    }

    pub fn len(&self) -> (r: usize)
        ensures
            r == self.bots@.len(),
    {
        self.bots.len()
    }

    pub fn is_empty(&self) -> (r: bool)
        ensures
            r == (self.bots@.len() == 0),
    {
        self.bots.len() == 0
    }

    /// The position of the session under `token`.
    pub fn find(&self, token: u32) -> (r: Option<usize>)
        ensures
            match r {
                Some(i) => i < self.bots@.len() && self.bots@[i as int].id == token,
                None => !self.holds(token),
            },
    {
        let mut i: usize = 0;
        while i < self.bots.len()
            invariant
                i <= self.bots@.len(),
                forall|k: int| 0 <= k < i ==> (#[trigger] self.bots@[k]).id != token,
            decreases self.bots@.len() - i,
        {
            if self.bots[i].id == token {
                return Some(i);
            }
            i = i + 1;
        }
        None
    }

    /// Adds a session under its token; refused (`false`, nothing changed)
    /// when that token is taken.
    pub fn insert(&mut self, bot: Bot) -> (r: bool)
        requires
            old(self).wf(),
            bot.wf(),
        ensures
            final(self).wf(),
            r == !old(self).holds(bot.id),
            r ==> final(self).bots@ == old(self).bots@.push(bot),
            !r ==> final(self).bots@ == old(self).bots@,
    {
        match self.find(bot.id) {
            Some(_) => false,
            None => {
                self.bots.push(bot);
                assert forall|i: int, j: int|
                    0 <= i < self.bots@.len() && 0 <= j < self.bots@.len() && i != j implies (
                    #[trigger] self.bots@[i]).id != (#[trigger] self.bots@[j]).id by {
                    if i < old(self).bots@.len() && j < old(self).bots@.len() {
                        assert(old(self).bots@[i] == self.bots@[i]);
                        assert(old(self).bots@[j] == self.bots@[j]);
                    } else if i < old(self).bots@.len() {
                        assert(old(self).bots@[i] == self.bots@[i]);
                    } else if j < old(self).bots@.len() {
                        assert(old(self).bots@[j] == self.bots@[j]);
                    }
                }
                true
            },
        }
    }

    /// Removes every kicked session, keeping all the others, and
    /// returns the tokens removed.
    pub fn prune_kicked(&mut self) -> (r: Vec<u32>)
        requires
            old(self).wf(),
        ensures
            final(self).wf(),
            forall|i: int| 0 <= i < final(self).bots@.len() ==> !(#[trigger] final(self).bots@[i]).kicked,
            forall|i: int|
                0 <= i < final(self).bots@.len() ==> old(self).bots@.contains(
                    #[trigger] final(self).bots@[i],
                ),
            forall|j: int|
                0 <= j < old(self).bots@.len() && !(#[trigger] old(self).bots@[j]).kicked
                    ==> final(self).bots@.contains(old(self).bots@[j]),
            forall|j: int|
                0 <= j < old(self).bots@.len() && (#[trigger] old(self).bots@[j]).kicked
                    ==> r@.contains(old(self).bots@[j].id) && !final(self).holds(old(self).bots@[j].id),
    {
        let ghost orig = self.bots@;
        let mut rest: Vec<Bot> = Vec::new();
        std::mem::swap(&mut self.bots, &mut rest);
        let mut removed: Vec<u32> = Vec::new();
        let ghost mut consumed: int = 0;
        while rest.len() > 0
            invariant
                registry_wf(orig),
                0 <= consumed <= orig.len(),
                rest@ == orig.skip(consumed),
                registry_wf(self.bots@),
                forall|k: int| 0 <= k < self.bots@.len() ==> !(#[trigger] self.bots@[k]).kicked,
                forall|k: int|
                    0 <= k < self.bots@.len() ==> exists|j: int|
                        0 <= j < consumed && orig[j] == #[trigger] self.bots@[k],
                forall|j: int|
                    0 <= j < consumed && !(#[trigger] orig[j]).kicked ==> self.bots@.contains(orig[j]),
                forall|j: int|
                    0 <= j < consumed && (#[trigger] orig[j]).kicked ==> removed@.contains(orig[j].id),
            decreases rest@.len(),
        {
            let b = rest.remove(0);
            assert(b == orig[consumed]);
            assert(rest@ =~= orig.skip(consumed + 1));
            if b.kicked {
                let ghost before = removed@;
                removed.push(b.id);
                assert forall|j: int|
                    0 <= j < consumed + 1 && (#[trigger] orig[j]).kicked implies removed@.contains(
                    orig[j].id,
                ) by {
                    if j < consumed {
                        let k = choose|k: int| 0 <= k < before.len() && before[k] == orig[j].id;
                        assert(removed@[k] == before[k]);
                    } else {
                        assert(removed@[before.len() as int] == b.id);
                    }
                }
            } else {
                let ghost before = self.bots@;
                self.bots.push(b);
                assert(self.bots@[before.len() as int] == orig[consumed]);
                assert forall|k: int|
                    0 <= k < self.bots@.len() implies exists|j: int|
                    0 <= j < consumed + 1 && orig[j] == #[trigger] self.bots@[k] by {
                    if k < before.len() {
                        assert(before[k] == self.bots@[k]);
                    } else {
                        assert(orig[consumed] == self.bots@[k]);
                    }
                }
                assert forall|j: int|
                    0 <= j < consumed + 1 && !(#[trigger] orig[j]).kicked implies self.bots@.contains(
                    orig[j],
                ) by {
                    if j < consumed {
                        let k = choose|k: int| 0 <= k < before.len() && before[k] == orig[j];
                        assert(self.bots@[k] == before[k]);
                    } else {
                        assert(self.bots@[before.len() as int] == orig[j]);
                    }
                }
                assert forall|i: int, j: int|
                    0 <= i < self.bots@.len() && 0 <= j < self.bots@.len() && i != j implies (
                    #[trigger] self.bots@[i]).id != (#[trigger] self.bots@[j]).id by {
                    let ii = choose|x: int| 0 <= x < consumed + 1 && orig[x] == self.bots@[i];
                    let jj = choose|x: int| 0 <= x < consumed + 1 && orig[x] == self.bots@[j];
                    if i < before.len() && j < before.len() {
                        assert(before[i] == self.bots@[i]);
                        assert(before[j] == self.bots@[j]);
                    } else {
                        assert(ii != jj || i == j) by {
                            if i < before.len() {
                                assert(before[i] == self.bots@[i]);
                                let x = choose|x: int| 0 <= x < consumed && orig[x] == before[i];
                            } else if j < before.len() {
                                assert(before[j] == self.bots@[j]);
                                let x = choose|x: int| 0 <= x < consumed && orig[x] == before[j];
                            }
                        }
                    }
                }
            }
            proof {
                consumed = consumed + 1;
            }
        }
        assert(consumed == orig.len());
        proof {
            assert forall|j: int|
                0 <= j < orig.len() && (#[trigger] orig[j]).kicked implies !self.holds(orig[j].id) by {
                if self.holds(orig[j].id) {
                    let k = choose|k: int| 0 <= k < self.bots@.len() && (#[trigger] self.bots@[k]).id
                        == orig[j].id;
                    let x = choose|x: int| 0 <= x < consumed && orig[x] == self.bots@[k];
                    assert(orig[x].id == orig[j].id);
                    assert(!self.bots@[k].kicked);
                }
            }
        }
        removed
    }
}

} // verus!
