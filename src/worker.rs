//! The state of one worker between ticks: its sessions, its compression
//! context and its admission progress. The caller runs the readiness loop
//! and hands each event here.

use crate::behaviour::{after_tick, draw_roll, BehaviourRoll};
use crate::deflate::Compression;
use crate::packets::bot_name;
use crate::schedule::{admission_per_tick, admit_count, admit_now, per_tick_of, worker_done, BotRegistry};
use crate::session::{after_bytes, join_frames, Bot, ProtocolState};
use vstd::prelude::*;

verus! {

/// One worker's sessions and pacing.
pub struct Worker {
    pub registry: BotRegistry,
    pub compression: Compression,
    /// Sessions this worker runs in all.
    pub total: u32,
    /// Sessions admitted per tick.
    pub per_tick: u32,
    /// Sessions admitted so far; the next token.
    pub admitted: u32,
    /// Display number of the first session.
    pub name_offset: u32,
    /// Ticks run so far.
    pub tick: u64,
}

impl Worker {
    pub open spec fn wf(&self) -> bool {
        &&& self.registry.wf()
        &&& self.admitted <= self.total
        &&& self.name_offset + self.total <= u32::MAX
        &&& forall|i: int|
            0 <= i < self.registry.bots@.len() ==> (#[trigger] self.registry.bots@[i]).id
                < self.admitted
    }

    /// A worker for `total` sessions numbered from `name_offset`, on a
    /// machine that runs `cpus` workers.
    pub fn new(total: u32, name_offset: u32, cpus: u32) -> (r: Worker)
        requires
            cpus > 0,
            name_offset + total <= u32::MAX,
        ensures
            r.wf(),
            r.total == total,
            r.name_offset == name_offset,
            r.per_tick == per_tick_of(total as nat, cpus as nat),
            r.admitted == 0,
            r.tick == 0,
            r.registry.bots@.len() == 0,
    {
        Worker {
            registry: BotRegistry::new(),
            compression: Compression::new(),
            total,
            per_tick: admission_per_tick(total, cpus),
            admitted: 0,
            name_offset,
            tick: 0,
        }
    }

    /// A worker for `total` sessions numbered from `name_offset` that admits
    /// at most `per_tick` sessions per tick.
    pub fn with_admission_rate(total: u32, name_offset: u32, per_tick: u32) -> (r: Worker)
        requires
            name_offset + total <= u32::MAX,
        ensures
            r.wf(),
            r.total == total,
            r.name_offset == name_offset,
            r.per_tick == per_tick,
            r.admitted == 0,
            r.tick == 0,
            r.registry.bots@.len() == 0,
    {
        Worker {
            registry: BotRegistry::new(),
            compression: Compression::new(),
            total,
            per_tick,
            admitted: 0,
            name_offset,
            tick: 0,
        }
    }

    /// Admits this tick's sessions and returns their tokens, for the caller
    /// to connect and register for reading and writing.
    pub fn admit_tick(&mut self) -> (r: Vec<u32>)
        requires
            old(self).wf(),
        ensures
            final(self).wf(),
            final(self).total == old(self).total && final(self).per_tick == old(self).per_tick
                && final(self).name_offset == old(self).name_offset && final(self).tick == old(self).tick,
            final(self).admitted == old(self).admitted + admit_count(
                old(self).admitted as nat,
                old(self).total as nat,
                old(self).per_tick as nat,
            ),
            r@.len() == final(self).admitted - old(self).admitted,
            final(self).registry.bots@.len() == old(self).registry.bots@.len() + r@.len(),
            final(self).registry.bots@.take(old(self).registry.bots@.len() as int)
                == old(self).registry.bots@,
            forall|k: int|
                0 <= k < r@.len() ==> {
                    let b = #[trigger] final(self).registry.bots@[old(self).registry.bots@.len() + k];
                    &&& r@[k] == old(self).admitted + k
                    &&& b.id == r@[k]
                    &&& b.name@ == bot_name((old(self).name_offset + r@[k]) as nat)
                    &&& b.state == ProtocolState::Handshake
                    &&& !b.joined && !b.kicked
                },
    {
        let n = admit_now(self.admitted, self.total, self.per_tick);
        let mut tokens: Vec<u32> = Vec::new();
        let start = self.admitted;
        let ghost old_bots = self.registry.bots@;
        let mut k: u32 = 0;
        while k < n
            invariant
                self.registry.wf(),
                self.total == old(self).total && self.per_tick == old(self).per_tick
                    && self.name_offset == old(self).name_offset && self.tick == old(self).tick,
                self.name_offset + self.total <= u32::MAX,
                start == old(self).admitted,
                start + n <= self.total,
                k <= n,
                self.admitted == start + k,
                tokens@.len() == k,
                self.registry.bots@.len() == old_bots.len() + k,
                self.registry.bots@.take(old_bots.len() as int) == old_bots,
                old_bots == old(self).registry.bots@,
                forall|i: int|
                    0 <= i < self.registry.bots@.len() ==> (#[trigger] self.registry.bots@[i]).id
                        < self.admitted,
                forall|j: int|
                    0 <= j < k ==> {
                        let b = #[trigger] self.registry.bots@[old_bots.len() + j];
                        &&& tokens@[j] == start + j
                        &&& b.id == tokens@[j]
                        &&& b.name@ == bot_name((self.name_offset + tokens@[j]) as nat)
                        &&& b.state == ProtocolState::Handshake
                        &&& !b.joined && !b.kicked
                    },
            decreases n - k,
        {
            let id = self.admitted;
            let bot = Bot::new(id, self.name_offset + id);
            let ghost before = self.registry.bots@;
            assert(!self.registry.holds(id));
            let ok = self.registry.insert(bot);
            assert(ok);
            tokens.push(id);
            assert(self.registry.bots@.take(old_bots.len() as int) =~= before.take(old_bots.len() as int));
            assert forall|j: int| 0 <= j < k + 1 implies {
                let b = #[trigger] self.registry.bots@[old_bots.len() + j];
                &&& tokens@[j] == start + j
                &&& b.id == tokens@[j]
                &&& b.name@ == bot_name((self.name_offset + tokens@[j]) as nat)
                &&& b.state == ProtocolState::Handshake
                &&& !b.joined && !b.kicked
            } by {
                if j < k {
                    assert(self.registry.bots@[old_bots.len() + j] == before[old_bots.len() + j]);
                }
            }
            self.admitted = self.admitted + 1;
            k = k + 1;
        }
        tokens
    }

    /// A writable event on `token`: a session that has not joined runs its
    /// join sequence. Anything else is left as it is.
    pub fn on_writable(&mut self, token: u32)
        requires
            old(self).wf(),
        ensures
            final(self).wf(),
            final(self).total == old(self).total && final(self).admitted == old(self).admitted
                && final(self).tick == old(self).tick,
            final(self).registry.bots@.len() == old(self).registry.bots@.len(),
            forall|i: int|
                0 <= i < old(self).registry.bots@.len() ==> {
                    let b = #[trigger] old(self).registry.bots@[i];
                    let a = final(self).registry.bots@[i];
                    if b.id == token && !b.joined && !b.kicked {
                        a.joined && a.state == ProtocolState::Login && a.unsent() == b.unsent()
                            + join_frames(b.name@)
                    } else {
                        a == b
                    }
                },
    {
        match self.registry.find(token) {
            Some(i) => {
                if !self.registry.bots[i].joined && !self.registry.bots[i].kicked {
                    let ghost before = self.registry.bots@;
                    self.registry.bots[i].start_bot(&mut self.compression);
                    proof {
                        assert forall|x: int, y: int|
                            0 <= x < self.registry.bots@.len() && 0 <= y < self.registry.bots@.len()
                                && x != y implies (#[trigger] self.registry.bots@[x]).id
                            != (#[trigger] self.registry.bots@[y]).id by {
                            assert(before[x].id == self.registry.bots@[x].id);
                            assert(before[y].id == self.registry.bots@[y].id);
                        }
                        assert forall|x: int| 0 <= x < self.registry.bots@.len() implies (
                        #[trigger] self.registry.bots@[x]).id < self.admitted by {
                            assert(before[x].id == self.registry.bots@[x].id);
                        }
                        assert forall|x: int|
                            0 <= x < before.len() && (#[trigger] before[x]).id == token && x != i
                                implies false by {
                            assert(before[i as int].id == token);
                        }
                    }
                }
            },
            None => {},
        }
    }

    /// Bytes read on `token`: a joined session that is not kicked decodes
    /// and acts on every whole frame among them. Anything else is left as it
    /// is.
    pub fn on_readable(&mut self, token: u32, bytes: &[u8])
        requires
            old(self).wf(),
        ensures
            final(self).wf(),
            final(self).total == old(self).total && final(self).admitted == old(self).admitted
                && final(self).tick == old(self).tick,
            final(self).registry.bots@.len() == old(self).registry.bots@.len(),
            forall|i: int|
                0 <= i < old(self).registry.bots@.len() ==> {
                    let b = #[trigger] old(self).registry.bots@[i];
                    let a = final(self).registry.bots@[i];
                    if b.id == token && b.joined && !b.kicked {
                        &&& a.same_identity(&b)
                        &&& a.model() == after_bytes(b.model(), b.pending() + bytes@).0
                        &&& !a.kicked ==> a.pending() == after_bytes(b.model(), b.pending() + bytes@).1
                    } else {
                        a == b
                    }
                },
    {
        match self.registry.find(token) {
            Some(i) => {
                if self.registry.bots[i].joined && !self.registry.bots[i].kicked {
                    let ghost before = self.registry.bots@;
                    self.registry.bots[i].process_packet(&mut self.compression, bytes);
                    proof {
                        assert forall|x: int, y: int|
                            0 <= x < self.registry.bots@.len() && 0 <= y < self.registry.bots@.len()
                                && x != y implies (#[trigger] self.registry.bots@[x]).id
                            != (#[trigger] self.registry.bots@[y]).id by {
                            assert(before[x].id == self.registry.bots@[x].id);
                            assert(before[y].id == self.registry.bots@[y].id);
                        }
                        assert forall|x: int| 0 <= x < self.registry.bots@.len() implies (
                        #[trigger] self.registry.bots@[x]).id < self.admitted by {
                            assert(before[x].id == self.registry.bots@[x].id);
                        }
                        assert forall|x: int|
                            0 <= x < before.len() && (#[trigger] before[x]).id == token && x != i
                                implies false by {
                            assert(before[i as int].id == token);
                        }
                    }
                }
            },
            None => {},
        }
    }

    /// Drops the bytes the transport wrote for `token`.
    pub fn mark_written(&mut self, token: u32, n: usize)
        requires
            old(self).wf(),
        ensures
            final(self).wf(),
            final(self).total == old(self).total && final(self).admitted == old(self).admitted
                && final(self).tick == old(self).tick,
            final(self).registry.bots@.len() == old(self).registry.bots@.len(),
            forall|i: int|
                0 <= i < old(self).registry.bots@.len() ==> {
                    let b = #[trigger] old(self).registry.bots@[i];
                    let a = final(self).registry.bots@[i];
                    if b.id == token && n <= b.unsent().len() {
                        a.unsent() == b.unsent().skip(n as int) && a.same_fields(&b)
                    } else {
                        a == b
                    }
                },
    {
        match self.registry.find(token) {
            Some(i) => {
                if n <= self.registry.bots[i].outbox.len() {
                    let ghost before = self.registry.bots@;
                    self.registry.bots[i].mark_written(n);
                    proof {
                        assert forall|x: int, y: int|
                            0 <= x < self.registry.bots@.len() && 0 <= y < self.registry.bots@.len()
                                && x != y implies (#[trigger] self.registry.bots@[x]).id
                            != (#[trigger] self.registry.bots@[y]).id by {
                            assert(before[x].id == self.registry.bots@[x].id);
                            assert(before[y].id == self.registry.bots@[y].id);
                        }
                        assert forall|x: int| 0 <= x < self.registry.bots@.len() implies (
                        #[trigger] self.registry.bots@[x]).id < self.admitted by {
                            assert(before[x].id == self.registry.bots@[x].id);
                        }
                        assert forall|x: int|
                            0 <= x < before.len() && (#[trigger] before[x]).id == token && x != i
                                implies false by {
                            assert(before[i as int].id == token);
                        }
                    }
                }
            },
            None => {},
        }
    }

    /// End of a tick: every active session queues its position and, on its
    /// action ticks, a random action; then the tick count advances.
    pub fn end_tick(&mut self)
        requires
            old(self).wf(),
        ensures
            final(self).wf(),
            final(self).total == old(self).total && final(self).admitted == old(self).admitted,
            final(self).tick == if old(self).tick == u64::MAX { 0 } else { (old(self).tick + 1) as u64 },
            final(self).registry.bots@.len() == old(self).registry.bots@.len(),
            forall|i: int|
                0 <= i < old(self).registry.bots@.len() ==> {
                    let b = #[trigger] old(self).registry.bots@[i];
                    let a = final(self).registry.bots@[i];
                    &&& a.same_identity(&b)
                    &&& a.state == b.state
                    &&& a.pending() == b.pending()
                    &&& exists|roll: BehaviourRoll|
                        roll.valid() && a.model() == after_tick(b.model(), b.id, old(self).tick, roll)
                },
    {
        let mut i: usize = 0;
        let ghost orig = self.registry.bots@;
        while i < self.registry.bots.len()
            invariant
                self.registry.wf(),
                self.total == old(self).total && self.admitted == old(self).admitted
                    && self.tick == old(self).tick,
                self.admitted <= self.total,
                self.name_offset + self.total <= u32::MAX,
                orig == old(self).registry.bots@,
                self.registry.bots@.len() == orig.len(),
                i <= orig.len(),
                forall|x: int|
                    0 <= x < orig.len() ==> (#[trigger] self.registry.bots@[x]).id == orig[x].id,
                forall|x: int|
                    0 <= x < orig.len() ==> {
                        let b = #[trigger] orig[x];
                        let a = self.registry.bots@[x];
                        &&& a.same_identity(&b)
                        &&& a.state == b.state
                        &&& a.pending() == b.pending()
                        &&& x < i ==> exists|roll: BehaviourRoll|
                            roll.valid() && a.model() == after_tick(b.model(), b.id, self.tick, roll)
                        &&& x >= i ==> a == b
                    },
                forall|x: int| 0 <= x < orig.len() ==> (#[trigger] orig[x]).id < self.admitted,
            decreases orig.len() - i,
        {
            let roll = draw_roll();
            let ghost before = self.registry.bots@;
            self.registry.bots[i].behaviour_tick(&mut self.compression, self.tick, roll);
            proof {
                assert forall|x: int, y: int|
                    0 <= x < self.registry.bots@.len() && 0 <= y < self.registry.bots@.len() && x
                        != y implies (#[trigger] self.registry.bots@[x]).id != (
                #[trigger] self.registry.bots@[y]).id by {
                    assert(before[x].id == self.registry.bots@[x].id);
                    assert(before[y].id == self.registry.bots@[y].id);
                }
                assert forall|x: int| 0 <= x < orig.len() implies {
                    let b = #[trigger] orig[x];
                    let a = self.registry.bots@[x];
                    &&& a.same_identity(&b)
                    &&& a.state == b.state
                    &&& a.pending() == b.pending()
                    &&& x < i + 1 ==> exists|roll: BehaviourRoll|
                        roll.valid() && a.model() == after_tick(b.model(), b.id, self.tick, roll)
                    &&& x >= i + 1 ==> a == b
                } by {
                    if x != i {
                        assert(self.registry.bots@[x] == before[x]);
                    }
                }
            }
            i = i + 1;
        }
        self.tick = if self.tick == u64::MAX {
            0
        } else {
            self.tick + 1
        };
        assert forall|x: int| 0 <= x < self.registry.bots@.len() implies (
        #[trigger] self.registry.bots@[x]).id < self.admitted by {
            assert(self.registry.bots@[x].id == orig[x].id);
        }
    }

    /// Removes kicked sessions and returns their tokens, for the caller to
    /// close their sockets.
    pub fn prune(&mut self) -> (r: Vec<u32>)
        requires
            old(self).wf(),
        ensures
            final(self).wf(),
            final(self).total == old(self).total && final(self).admitted == old(self).admitted
                && final(self).tick == old(self).tick,
            forall|i: int|
                0 <= i < final(self).registry.bots@.len() ==> !(
                #[trigger] final(self).registry.bots@[i]).kicked,
            forall|j: int|
                0 <= j < old(self).registry.bots@.len() && !(
                #[trigger] old(self).registry.bots@[j]).kicked ==> final(self).registry.bots@.contains(
                    old(self).registry.bots@[j],
                ),
            forall|j: int|
                0 <= j < old(self).registry.bots@.len() && (
                #[trigger] old(self).registry.bots@[j]).kicked ==> r@.contains(
                    old(self).registry.bots@[j].id,
                ) && !final(self).registry.holds(old(self).registry.bots@[j].id),
    {
        let ghost before = self.registry.bots@;
        let r = self.registry.prune_kicked();
        assert forall|x: int| 0 <= x < self.registry.bots@.len() implies (
        #[trigger] self.registry.bots@[x]).id < self.admitted by {
            assert(before.contains(self.registry.bots@[x]));
        }
        r
    }

    /// Whether this worker's loop ends: all sessions admitted, none left.
    pub fn done(&self) -> (r: bool)
        ensures
            r == (self.admitted >= self.total && self.registry.bots@.len() == 0),
    {
        worker_done(self.admitted, self.total, self.registry.len())
    }
}

} // verus!
