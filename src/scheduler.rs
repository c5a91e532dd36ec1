use vstd::prelude::*;
use std::collections::VecDeque;
use crate::song::{Note, entry_start, ascending_start};

verus! {

/// Samples between two quanta of the scheduler.
pub const QUANTIZE: u32 = 256;

/// Whether a cue names one of the first `instruments` instruments.
pub open spec fn known(instruments: int) -> spec_fn((usize, Note)) -> bool {
    |c: (usize, Note)| c.0 < instruments
}

/// Drawing cues from `queue` at position `pos`: the cues due by then are
/// taken in order until the first one that starts later, which is set
/// aside. Returns the due cues of known instruments, what stays queued, and
/// the cue set aside.
pub open spec fn drain(queue: Seq<(usize, Note)>, pos: int, instruments: int) -> (
    Seq<(usize, Note)>,
    Seq<(usize, Note)>,
    Option<(usize, Note)>,
)
    decreases queue.len(),
{
    if queue.len() == 0 {
        (Seq::empty(), Seq::empty(), None)
    } else if entry_start(queue[0]) > pos {
        (Seq::empty(), queue.drop_first(), Some(queue[0]))
    } else {
        let rest = drain(queue.drop_first(), pos, instruments);
        (
            if queue[0].0 < instruments {
                seq![queue[0]] + rest.0
            } else {
                rest.0
            },
            rest.1,
            rest.2,
        )
    }
}

/// One quantum at position `pos`: a cue set aside is played once it is
/// due; then, if nothing is set aside, the queue is drained. Returns the
/// cues to play, what stays queued, and the cue set aside.
pub open spec fn quantum_result(
    queued: Seq<(usize, Note)>,
    deferred: Option<(usize, Note)>,
    pos: int,
    instruments: int,
) -> (Seq<(usize, Note)>, Seq<(usize, Note)>, Option<(usize, Note)>) {
    let (first, held) = match deferred {
        Some(c) => if entry_start(c) <= pos {
            (
                if c.0 < instruments {
                    seq![c]
                } else {
                    Seq::empty()
                },
                None,
            )
        } else {
            (Seq::empty(), Some(c))
        },
        None => (Seq::empty(), None),
    };
    if held is None {
        let d = drain(queued, pos, instruments);
        (first + d.0, d.1, d.2)
    } else {
        (first, queued, held)
    }
}

/// The cues still to play, in order: the one set aside, then the queue.
pub open spec fn pending(deferred: Option<(usize, Note)>, queued: Seq<(usize, Note)>) -> Seq<(usize, Note)> {
    match deferred {
        Some(c) => seq![c] + queued,
        None => queued,
    }
}

/// Number of leading cues of `queue` that are due at `pos`.
pub open spec fn due_count(queue: Seq<(usize, Note)>, pos: int) -> nat
    decreases queue.len(),
{
    if queue.len() == 0 {
        0
    } else if entry_start(queue[0]) > pos {
        0
    } else {
        1 + due_count(queue.drop_first(), pos)
    }
}

/// Draining takes the due prefix of the queue, keeps its cues of known
/// instruments in order, and sets aside the first cue that is not due.
proof fn lemma_drain_shape(queue: Seq<(usize, Note)>, pos: int, instruments: int)
    ensures
        due_count(queue, pos) <= queue.len(),
        drain(queue, pos, instruments).0 == queue.take(due_count(queue, pos) as int).filter(
            known(instruments),
        ),
        forall|j: int| 0 <= j < due_count(queue, pos) ==> entry_start(#[trigger] queue[j]) <= pos,
        forall|i: int|
            0 <= i < drain(queue, pos, instruments).0.len() ==> entry_start(
                #[trigger] drain(queue, pos, instruments).0[i],
            ) <= pos,
        due_count(queue, pos) < queue.len() ==> {
            &&& entry_start(queue[due_count(queue, pos) as int]) > pos
            &&& drain(queue, pos, instruments).1 == queue.skip(due_count(queue, pos) as int + 1)
            &&& drain(queue, pos, instruments).2 == Some(queue[due_count(queue, pos) as int])
        },
        due_count(queue, pos) == queue.len() ==> {
            &&& drain(queue, pos, instruments).1 == Seq::<(usize, Note)>::empty()
            &&& drain(queue, pos, instruments).2 is None
        },
        ascending_start(queue) ==> ascending_start(drain(queue, pos, instruments).0),
        ascending_start(queue) && queue.len() > 0 ==> forall|i: int|
            0 <= i < drain(queue, pos, instruments).0.len() ==> entry_start(
                #[trigger] drain(queue, pos, instruments).0[i],
            ) >= entry_start(queue[0]),
    decreases queue.len(),
{
    reveal(Seq::filter);
    let d = drain(queue, pos, instruments);
    let k = due_count(queue, pos);
    if queue.len() == 0 {
        assert(queue.take(0) =~= Seq::<(usize, Note)>::empty());
    } else if entry_start(queue[0]) > pos {
        assert(queue.take(0) =~= Seq::<(usize, Note)>::empty());
        assert(queue.drop_first() =~= queue.skip(1));
    } else {
        let c = queue[0];
        let rest = queue.drop_first();
        lemma_drain_shape(rest, pos, instruments);
        let dr = drain(rest, pos, instruments);
        let kr = due_count(rest, pos);
        assert(k == 1 + kr);
        assert(queue.take(k as int) =~= seq![c] + rest.take(kr as int));
        rest.take(kr as int).lemma_filter_prepend(c, known(instruments));
        assert forall|j: int| 0 <= j < k implies entry_start(#[trigger] queue[j]) <= pos by {
            if j > 0 {
                assert(queue[j] == rest[j - 1]);
            }
        }
        if k < queue.len() {
            assert(queue[k as int] == rest[kr as int]);
            assert(rest.skip(kr as int + 1) =~= queue.skip(k as int + 1));
        }
        if ascending_start(queue) {
            assert(ascending_start(rest)) by {
                assert forall|a: int, b: int| 0 <= a <= b < rest.len() implies entry_start(#[trigger] rest[a])
                    <= entry_start(#[trigger] rest[b]) by {
                    assert(rest[a] == queue[a + 1] && rest[b] == queue[b + 1]);
                }
            }
            if rest.len() > 0 {
                assert(entry_start(c) <= entry_start(rest[0])) by {
                    assert(rest[0] == queue[1]);
                }
            }
            if c.0 < instruments {
                assert(d.0 =~= seq![c] + dr.0);
                assert forall|i: int| 0 <= i < d.0.len() implies entry_start(#[trigger] d.0[i]) >= entry_start(
                    queue[0],
                ) by {
                    if i > 0 {
                        assert(d.0[i] == dr.0[i - 1]);
                    }
                }
                assert forall|a: int, b: int| 0 <= a <= b < d.0.len() implies entry_start(#[trigger] d.0[a])
                    <= entry_start(#[trigger] d.0[b]) by {
                    if a > 0 {
                        assert(d.0[a] == dr.0[a - 1] && d.0[b] == dr.0[b - 1]);
                    } else if b > 0 {
                        assert(d.0[b] == dr.0[b - 1]);
                    }
                }
            }
        }
        if c.0 < instruments {
            assert forall|i: int| 0 <= i < d.0.len() implies entry_start(#[trigger] d.0[i]) <= pos by {
                if i > 0 {
                    assert(d.0[i] == dr.0[i - 1]);
                }
            }
        }
    }
}

/// Cues leave the scheduler in the order they were queued: one quantum
/// plays, of a leading run of the pending cues (the one set aside, then the
/// queue), all that name a known instrument, each due at `position`, and
/// leaves the rest pending in their order. When the pending cues run by
/// ascending start, so do the cues played, the cues left pending, and every
/// cue played starts no later than any cue left pending.
pub proof fn lemma_quantum_plays_in_order(
    queued: Seq<(usize, Note)>,
    deferred: Option<(usize, Note)>,
    position: int,
    instruments: int,
)
    ensures
        ({
            let res = quantum_result(queued, deferred, position, instruments);
            let before = pending(deferred, queued);
            exists|k: int|
                #![trigger before.take(k)]
                0 <= k <= before.len() && res.0 == before.take(k).filter(known(instruments)) && pending(
                    res.2,
                    res.1,
                ) == before.skip(k) && forall|j: int| 0 <= j < k ==> entry_start(#[trigger] before[j]) <= position
        }),
        ascending_start(pending(deferred, queued)) ==> ({
            let res = quantum_result(queued, deferred, position, instruments);
            let after = pending(res.2, res.1);
            &&& ascending_start(res.0)
            &&& ascending_start(after)
            &&& forall|a: int, b: int|
                0 <= a < res.0.len() && 0 <= b < after.len() ==> entry_start(#[trigger] res.0[a]) <= entry_start(
                    #[trigger] after[b],
                )
        }),
{
    reveal(Seq::filter);
    let res = quantum_result(queued, deferred, position, instruments);
    let before = pending(deferred, queued);
    let after = pending(res.2, res.1);
    lemma_drain_shape(queued, position, instruments);
    let d = drain(queued, position, instruments);
    let kq = due_count(queued, position) as int;
    let tail = pending(d.2, d.1);
    assert(tail =~= queued.skip(kq)) by {
        if kq < queued.len() {
            assert(seq![queued[kq]] + queued.skip(kq + 1) =~= queued.skip(kq));
        }
    }
    assert forall|a: int, b: int| 0 <= a < d.0.len() && 0 <= b < tail.len() && ascending_start(queued) implies entry_start(
        #[trigger] d.0[a],
    ) <= entry_start(#[trigger] tail[b]) by {
        assert(tail[b] == queued[kq + b]);
        assert(entry_start(queued[kq]) <= entry_start(queued[kq + b]));
    }
    assert(ascending_start(queued) ==> ascending_start(tail)) by {
        if ascending_start(queued) {
            assert forall|a: int, b: int| 0 <= a <= b < tail.len() implies entry_start(#[trigger] tail[a]) <= entry_start(
                #[trigger] tail[b],
            ) by {
                assert(tail[a] == queued[kq + a] && tail[b] == queued[kq + b]);
            }
        }
    }
    match deferred {
        Some(c) => {
            if entry_start(c) > position {
                assert(before.take(0) =~= Seq::<(usize, Note)>::empty());
                assert(before.skip(0) =~= before);
                assert(res.0 =~= before.take(0).filter(known(instruments)));
            } else {
                let k = 1 + kq;
                assert(before.take(k) =~= seq![c] + queued.take(kq));
                queued.take(kq).lemma_filter_prepend(c, known(instruments));
                assert(before.skip(k) =~= queued.skip(kq));
                assert forall|j: int| 0 <= j < k implies entry_start(#[trigger] before[j]) <= position by {
                    if j > 0 {
                        assert(before[j] == queued[j - 1]);
                    }
                }
                assert(res.0 =~= before.take(k).filter(known(instruments)));
                if ascending_start(before) {
                    assert(ascending_start(queued)) by {
                        assert forall|a: int, b: int| 0 <= a <= b < queued.len() implies entry_start(
                            #[trigger] queued[a],
                        ) <= entry_start(#[trigger] queued[b]) by {
                            assert(queued[a] == before[a + 1] && queued[b] == before[b + 1]);
                        }
                    }
                    if queued.len() > 0 {
                        assert(entry_start(c) <= entry_start(queued[0])) by {
                            assert(before[0] == c);
                            assert(before[1] == queued[0]);
                            assert(entry_start(before[0]) <= entry_start(before[1]));
                        }
                    }
                    assert forall|a: int, b: int| 0 <= a <= b < res.0.len() implies entry_start(
                        #[trigger] res.0[a],
                    ) <= entry_start(#[trigger] res.0[b]) by {
                        if c.0 < instruments {
                            if a > 0 {
                                assert(res.0[a] == d.0[a - 1] && res.0[b] == d.0[b - 1]);
                            } else if b > 0 {
                                assert(res.0[b] == d.0[b - 1]);
                            }
                        } else {
                            assert(res.0[a] == d.0[a] && res.0[b] == d.0[b]);
                        }
                    }
                    assert forall|a: int, b: int| 0 <= a < res.0.len() && 0 <= b < after.len() implies entry_start(
                        #[trigger] res.0[a],
                    ) <= entry_start(#[trigger] after[b]) by {
                        assert(after[b] == queued[kq + b]);
                        if c.0 < instruments && a == 0 {
                            assert(entry_start(c) <= entry_start(queued[0]));
                            assert(entry_start(queued[0]) <= entry_start(queued[kq + b]));
                        } else if c.0 < instruments {
                            assert(res.0[a] == d.0[a - 1]);
                        } else {
                            assert(res.0[a] == d.0[a]);
                        }
                    }
                }
            }
        },
        None => {
            assert(before =~= queued);
        },
    }
}

/// Hands queued notes to instruments at a fixed cadence. Notes arrive in a
/// first-in first-out queue as cues `(instrument index, note)`; every
/// `QUANTIZE` samples a quantum plays each cue that is due and sets aside
/// the first one that is not, draining no further until it is played.
pub struct Scheduler {
    queue: VecDeque<(usize, Note)>,
    next_note: Option<(usize, Note)>,
    quantize_count: u32,
}

impl Scheduler {
    /// The cues waiting in the queue, oldest first.
    pub closed spec fn queued(&self) -> Seq<(usize, Note)> {
        self.queue@
    }

    /// The cue set aside until it is due.
    pub closed spec fn deferred(&self) -> Option<(usize, Note)> {
        self.next_note
    }

    /// Samples counted since the last quantum.
    pub closed spec fn count(&self) -> nat {
        self.quantize_count as nat
    }

    /// An empty scheduler whose next sample runs a quantum.
    pub fn new() -> (s: Scheduler)
        ensures
            s.queued() == Seq::<(usize, Note)>::empty(),
            s.deferred() is None,
            s.count() == QUANTIZE,
    {
        Scheduler { queue: VecDeque::new(), next_note: None, quantize_count: QUANTIZE }
    }

    /// Queues `note` for instrument `instrument`.
    pub fn send(&mut self, instrument: usize, note: Note)
        ensures
            final(self).queued() == old(self).queued().push((instrument, note)),
            final(self).deferred() == old(self).deferred(),
            final(self).count() == old(self).count(),
    {
        self.queue.push_back((instrument, note));
    }

    /// Whether the next sample runs a quantum.
    pub fn quantum_due(&self) -> (r: bool)
        ensures
            r == (self.count() >= QUANTIZE),
    {
        self.quantize_count >= QUANTIZE
    }

    /// Number of queued cues.
    pub fn queued_len(&self) -> (r: usize)
        ensures
            r == self.queued().len(),
    {
        self.queue.len()
    }

    /// The cue set aside until it is due.
    pub fn next_note(&self) -> (r: Option<(usize, Note)>)
        ensures
            r == self.deferred(),
    {
        self.next_note
    }

    /// Runs one quantum at musical position `position` (in divisions) for a
    /// player with `instruments` instruments, and returns the cues to play
    /// now, in order. Cues naming no instrument are dropped.
    pub fn quantum(&mut self, position: u64, instruments: usize) -> (r: Vec<(usize, Note)>)
        ensures
            (r@, final(self).queued(), final(self).deferred()) == quantum_result(
                old(self).queued(),
                old(self).deferred(),
                position as int,
                instruments as int,
            ),
            final(self).count() == old(self).count(),
    {
        let mut out: Vec<(usize, Note)> = Vec::new();
        if let Some(c) = self.next_note {
            if c.1.start.divs_wide() <= position {
                if c.0 < instruments {
                    out.push(c);
                }
                self.next_note = None;
            }
        }
        if self.next_note.is_none() {
            let ghost q0 = self.queue@;
            let ghost first = out@;
            let mut draining = true;
            while draining
                invariant
                    draining ==> {
                        &&& self.next_note is None
                        &&& out@ + drain(self.queue@, position as int, instruments as int).0 == first + drain(
                            q0,
                            position as int,
                            instruments as int,
                        ).0
                        &&& drain(self.queue@, position as int, instruments as int).1 == drain(
                            q0,
                            position as int,
                            instruments as int,
                        ).1
                        &&& drain(self.queue@, position as int, instruments as int).2 == drain(
                            q0,
                            position as int,
                            instruments as int,
                        ).2
                    },
                    !draining ==> {
                        &&& out@ == first + drain(q0, position as int, instruments as int).0
                        &&& self.queue@ == drain(q0, position as int, instruments as int).1
                        &&& self.next_note == drain(q0, position as int, instruments as int).2
                    },
                    self.quantize_count == old(self).quantize_count,
                decreases self.queue@.len() + if draining {
                    1int
                } else {
                    0int
                },
            {
                let ghost q = self.queue@;
                match self.queue.pop_front() {
                    None => {
                        draining = false;
                        proof {
                            assert(out@ + Seq::<(usize, Note)>::empty() =~= out@);
                        }
                    },
                    Some(c) => {
                        proof {
                            assert(q.drop_first() =~= self.queue@);
                        }
                        if c.1.start.divs_wide() > position {
                            self.next_note = Some(c);
                            draining = false;
                            proof {
                                assert(out@ + Seq::<(usize, Note)>::empty() =~= out@);
                            }
                        } else {
                            let ghost before = out@;
                            if c.0 < instruments {
                                out.push(c);
                                proof {
                                    let rest = drain(self.queue@, position as int, instruments as int).0;
                                    assert(before + (seq![c] + rest) =~= out@ + rest);
                                }
                            }
                        }
                    },
                }
            }
        }
        out
    }

    /// Advances the scheduler by one sample at musical position `position`
    /// (in divisions) and returns the cues to play now. Every `QUANTIZE + 1`-th
    /// sample, and on the first sample after `new` or `flush_notes`, runs a
    /// quantum; the others only count.
    pub fn tick(&mut self, position: u64, instruments: usize) -> (r: Vec<(usize, Note)>)
        ensures
            old(self).count() >= QUANTIZE ==> {
                &&& (r@, final(self).queued(), final(self).deferred()) == quantum_result(
                    old(self).queued(),
                    old(self).deferred(),
                    position as int,
                    instruments as int,
                )
                &&& final(self).count() == 0
            },
            old(self).count() < QUANTIZE ==> {
                &&& r@ == Seq::<(usize, Note)>::empty()
                &&& final(self).queued() == old(self).queued()
                &&& final(self).deferred() == old(self).deferred()
                &&& final(self).count() == old(self).count() + 1
            },
    {
        if self.quantize_count >= QUANTIZE {
            let r = self.quantum(position, instruments);
            self.quantize_count = 0;
            r
        } else {
            self.quantize_count += 1;
            Vec::new()
        }
    }

    /// Drops every queued and set-aside cue, and makes the next sample run
    /// a quantum.
    pub fn flush_notes(&mut self)
        ensures
            final(self).queued() == Seq::<(usize, Note)>::empty(),
            final(self).deferred() is None,
            final(self).count() == QUANTIZE,
    {
        self.queue.clear();
        self.next_note = None;
        self.quantize_count = QUANTIZE;
    }
}

} // verus!
