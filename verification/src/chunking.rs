//! The chunking adapter itself: [`Chunks`], the cursor over the sequence of
//! chunks, and [`Chunk`], the cursor over the items of one chunk.

use vstd::prelude::*;

use crate::source::Source;
use crate::source::leading_items;
use crate::source::lemma_leading_items;
use crate::source::stream_prefix;

verus! {

/// A cursor that carves the items of a [`Source`] into chunks of a fixed
/// size, one chunk at a time.
///
/// Produced by [`IterChunks::chunks`]. Each call to [`Chunks::next`] pulls
/// one item eagerly, to tell a fresh chunk apart from an exhausted source,
/// and hands out a [`Chunk`] seeded with that item. The one-shot latch
/// records that a chunk drained the source to exhaustion, so that the next
/// call answers "no chunk" exactly once before a resumable source is tried
/// again.
pub struct Chunks<S: Source> {
    inner: S,
    /// The chunk size, less the one item that `next` pulls eagerly.
    n: usize,
    end_flag: bool,
}

impl<S: Source> Chunks<S> {
    /// The fixed chunk size `N` chosen at construction; at least 1.
    pub closed spec fn chunk_size(&self) -> int {
        self.n + 1
    }

    /// The owned source.
    pub closed spec fn src(&self) -> S {
        self.inner
    }

    /// The one-shot exhaustion latch: set when a chunk drained the source to
    /// exhaustion, cleared by the one `next` call that answers "no chunk"
    /// for it.
    pub closed spec fn latched(&self) -> bool {
        self.end_flag
    }

    /// The next chunk, if the source currently has items.
    ///
    /// When the latch is set, clears it and answers "no chunk" without
    /// touching the source. Otherwise pulls one item eagerly: an exhaustion
    /// signal means "no chunk" (the latch stays clear), and an item seeds a
    /// fresh [`Chunk`] with a quota of `N - 1` further pulls.
    pub fn next(&mut self) -> (r: Option<Chunk<S>>)
        ensures
            final(self).chunk_size() == old(self).chunk_size(),
            old(self).latched() ==> {
                &&& r is None
                &&& !final(self).latched()
                &&& final(self).src() == old(self).src()
            },
            !old(self).latched() ==> {
                &&& final(self).latched() == old(self).latched()
                &&& forall|k: int|
                    0 <= k ==> #[trigger] final(self).src().event_at(k) == old(self).src().event_at(
                        k + 1,
                    )
                &&& (old(self).src().event_at(0) is None ==> r is None)
                &&& (old(self).src().event_at(0) is Some ==> {
                    &&& r is Some
                    &&& r->0.pending() == old(self).src().event_at(0)
                    &&& r->0.quota() == old(self).chunk_size() - 1
                })
            },
    {
        if self.end_flag {
            // The source may be resumable: answer "no chunk" once, then let
            // the next call try it again.
            self.end_flag = false;
            None
        } else {
            match self.inner.pull() {
                Some(v) => Some(Chunk { first: Some(v), n: self.n }),
                None => None,
            }
        }
    }
}

/// How a well-behaved chunk consumer may change a [`Chunks`]: the source
/// stream only moves forward, by `j` events, and if an exhaustion signal was
/// among the consumed events, the latch is up afterwards. Draining a chunk
/// through [`Chunk::next`], fully or in part, changes its origin exactly so.
pub open spec fn advanced_by<S: Source>(pre: Chunks<S>, post: Chunks<S>, j: int) -> bool {
    &&& 0 <= j
    &&& forall|k: int| 0 <= k ==> #[trigger] post.src().event_at(k) == pre.src().event_at(k + j)
    &&& ((exists|i: int| 0 <= i < j && (#[trigger] pre.src().event_at(i)) is None)
        ==> post.latched())
}

/// The visitor that [`Chunks::for_each`] hands each produced chunk to.
///
/// A chunk drains through its origin, so the visitor receives both the chunk
/// and the [`Chunks`] it came from; it may drain the chunk fully, partially,
/// or not at all before handing control back. It owes one discipline, which
/// draining through the chunk keeps by itself: the origin's source only
/// moves forward, and an exhaustion signal it consumes raises the latch.
/// It also keeps a ghost record of the chunks it was handed, so that
/// [`Chunks::for_each`] can promise it received every produced chunk.
pub trait ChunkVisitor<S: Source>: Sized {
    /// The chunks this visitor has been handed so far, in order.
    spec fn received(&self) -> Seq<Chunk<S>>;

    /// Receive one produced chunk.
    fn visit(&mut self, chunk: Chunk<S>, origin: &mut Chunks<S>)
        ensures
            final(self).received() == old(self).received().push(chunk),
            exists|j: int| #[trigger] advanced_by(*old(origin), *final(origin), j),
    ;
}

/// One round of [`Chunks::for_each`], from one top-of-loop sequence state to
/// the next: out of state `pre`, whose latch is down and whose source has an
/// item, the eager pull produced the chunk `c` and left the sequence in
/// `mid`; the visitor was handed `c` and left the sequence in `post`,
/// moving the source only forward.
pub open spec fn for_each_round<S: Source>(
    pre: Chunks<S>,
    c: Chunk<S>,
    mid: Chunks<S>,
    post: Chunks<S>,
) -> bool {
    &&& !pre.latched()
    &&& pre.src().event_at(0) is Some
    &&& c.pending() == pre.src().event_at(0)
    &&& c.quota() == pre.chunk_size() - 1
    &&& !mid.latched()
    &&& mid.chunk_size() == pre.chunk_size()
    &&& (forall|k: int| 0 <= k ==> #[trigger] mid.src().event_at(k) == pre.src().event_at(k + 1))
    &&& exists|j: int| #[trigger] advanced_by(mid, post, j)
}

/// A complete [`Chunks::for_each`] run. `states` holds the sequence state at
/// the top of every loop round, `first` first; round `t` produced the chunk
/// `handed[t]` out of `states[t]`, left the sequence in `mids[t]` after the
/// eager pull and in `states[t + 1]` after the visitor. The visitor was
/// handed exactly those chunks, in order, on top of what it held before.
/// The round after the last chunk answered "no chunk": either by clearing
/// the latch without touching the source, or by consuming one exhaustion
/// signal.
pub open spec fn for_each_run<S: Source>(
    first: Chunks<S>,
    last: Chunks<S>,
    received_before: Seq<Chunk<S>>,
    received_after: Seq<Chunk<S>>,
    states: Seq<Chunks<S>>,
    mids: Seq<Chunks<S>>,
    handed: Seq<Chunk<S>>,
) -> bool {
    &&& states.len() == handed.len() + 1
    &&& mids.len() == handed.len()
    &&& states[0] == first
    &&& (forall|t: int|
        0 <= t < handed.len() ==> for_each_round(
            states[t],
            #[trigger] handed[t],
            mids[t],
            states[t + 1],
        ))
    &&& received_after == received_before + handed
    &&& ({
        let end = states[states.len() - 1];
        &&& last.chunk_size() == end.chunk_size()
        &&& (end.latched() ==> last.src() == end.src())
        &&& (!end.latched() ==> {
            &&& end.src().event_at(0) is None
            &&& (forall|k: int|
                0 <= k ==> #[trigger] last.src().event_at(k) == end.src().event_at(k + 1))
        })
    })
}

impl<S: Source> Chunks<S> {
    /// Produce chunks until "no chunk", handing each one to the visitor.
    ///
    /// The next chunk is not produced before the visitor hands control
    /// back, and the run is a [`for_each_run`]: every produced chunk went
    /// to the visitor, in production order, and the run stopped at the
    /// first "no chunk" answer, so at most one exhaustion event was
    /// consumed. The source must have an exhaustion signal somewhere ahead
    /// (unless the latch already owes a "no chunk" answer): on a source
    /// that yields items forever this loop would never return.
    pub fn for_each<V: ChunkVisitor<S>>(&mut self, visitor: &mut V)
        requires
            old(self).latched() || exists|k: int|
                0 <= k && (#[trigger] old(self).src().event_at(k)) is None,
        ensures
            !final(self).latched(),
            exists|states: Seq<Chunks<S>>, mids: Seq<Chunks<S>>, handed: Seq<Chunk<S>>|
                #[trigger] for_each_run(
                    *old(self),
                    *final(self),
                    old(visitor).received(),
                    final(visitor).received(),
                    states,
                    mids,
                    handed,
                ),
    {
        let ghost first: Chunks<S> = *self;
        let ghost received0: Seq<Chunk<S>> = visitor.received();
        let ghost mut states: Seq<Chunks<S>> = seq![*self];
        let ghost mut mids: Seq<Chunks<S>> = Seq::empty();
        let ghost mut handed: Seq<Chunk<S>> = Seq::empty();
        let ghost mut d: int = if self.latched() {
            0
        } else {
            choose|k: int| 0 <= k && (#[trigger] self.src().event_at(k)) is None
        };
        loop
            invariant
                first == *old(self),
                received0 == old(visitor).received(),
                states.len() == handed.len() + 1,
                mids.len() == handed.len(),
                states[0] == first,
                states[states.len() - 1] == *self,
                forall|t: int|
                    0 <= t < handed.len() ==> for_each_round(
                        states[t],
                        #[trigger] handed[t],
                        mids[t],
                        states[t + 1],
                    ),
                visitor.received() == received0 + handed,
                !self.latched() ==> 0 <= d && self.src().event_at(d) is None,
            decreases (if self.latched() {
                0int
            } else {
                d + 1
            }),
        {
            let ghost top: Chunks<S> = *self;
            match self.next() {
                Some(chunk) => {
                    let ghost mid: Chunks<S> = *self;
                    let ghost c0: Chunk<S> = chunk;
                    visitor.visit(chunk, self);
                    proof {
                        let j = choose|j: int| #[trigger] advanced_by(mid, *self, j);
                        if self.latched() {
                            d = 0;
                        } else {
                            // No exhaustion signal was consumed, so the one at
                            // distance `d - 1` after the eager pull is still
                            // ahead, now `j` events closer.
                            assert(mid.src().event_at(d - 1) is None);
                            d = d - 1 - j;
                        }
                        assert(for_each_round(top, c0, mid, *self));
                        let states2 = states.push(*self);
                        let mids2 = mids.push(mid);
                        let handed2 = handed.push(c0);
                        assert forall|t: int|
                            0 <= t < handed2.len() implies #[trigger] for_each_round(
                            states2[t],
                            handed2[t],
                            mids2[t],
                            states2[t + 1],
                        ) by {
                            if t < handed.len() {
                                assert(for_each_round(states[t], handed[t], mids[t], states[t + 1]));
                            }
                        }
                        assert(visitor.received() =~= received0 + handed2);
                        states = states2;
                        mids = mids2;
                        handed = handed2;
                    }
                },
                None => {
                    proof {
                        assert(for_each_run(
                            first,
                            *self,
                            received0,
                            visitor.received(),
                            states,
                            mids,
                            handed,
                        ));
                    }
                    return ;
                },
            }
        }
    }
}

/// Attaches [`chunks`](IterChunks::chunks) to every [`Source`].
pub trait IterChunks: Source {
    /// Carve this source's items into chunks of `n` items each (the last
    /// chunk of a round may be shorter, if the source runs out mid-chunk).
    /// A chunk size of 0 is a caller error, ruled out up front.
    fn chunks(self, n: usize) -> (r: Chunks<Self>)
        requires
            n >= 1,
        ensures
            r.chunk_size() == n,
            !r.latched(),
            r.src() == self,
    ;
}

impl<S: Source> IterChunks for S {
    fn chunks(self, n: usize) -> (r: Chunks<S>) {
        Chunks { inner: self, n: n - 1, end_flag: false }
    }
}

/// A cursor over the items of one chunk: up to `N` items, the first held
/// pre-pulled and the rest pulled from the source of the [`Chunks`] it came
/// from.
///
/// Produced by [`Chunks::next`]. A chunk does not hold on to its origin;
/// every operation that reads the source takes the owning [`Chunks`] as an
/// argument. Nothing stops a caller from holding two chunks of one origin
/// and interleaving their pulls — every call's contract still describes the
/// outcome in full — but the intended discipline is to drain or drop a
/// chunk before asking its origin for the next one.
pub struct Chunk<S: Source> {
    first: Option<S::Item>,
    n: usize,
}

impl<S: Source> Chunk<S> {
    /// The pre-pulled item, if the first pull has not consumed it yet.
    pub closed spec fn pending(&self) -> Option<S::Item> {
        self.first
    }

    /// How many further pulls from the source this chunk may still spend.
    pub closed spec fn quota(&self) -> int {
        self.n as int
    }

    /// The next item of this chunk, pulled through the owning [`Chunks`].
    ///
    /// The pre-pulled item goes out first. After it, each call spends one
    /// unit of quota and pulls from the source; an exhaustion signal ends
    /// the chunk for good (the quota is forced to 0) and sets the origin's
    /// latch. With no pending item and no quota, the chunk is exhausted and
    /// every call answers `None` with nothing changed.
    pub fn next(&mut self, origin: &mut Chunks<S>) -> (r: Option<S::Item>)
        ensures
            old(self).pending() is Some ==> {
                &&& r == old(self).pending()
                &&& final(self).pending() is None
                &&& final(self).quota() == old(self).quota()
                &&& *final(origin) == *old(origin)
            },
            old(self).pending() is None && old(self).quota() == 0 ==> {
                &&& r is None
                &&& *final(self) == *old(self)
                &&& *final(origin) == *old(origin)
            },
            old(self).pending() is None && old(self).quota() > 0 ==> {
                &&& final(self).pending() is None
                &&& final(origin).chunk_size() == old(origin).chunk_size()
                &&& forall|k: int|
                    0 <= k ==> #[trigger] final(origin).src().event_at(k) == old(
                        origin,
                    ).src().event_at(k + 1)
                &&& (old(origin).src().event_at(0) is Some ==> {
                    &&& r == old(origin).src().event_at(0)
                    &&& final(self).quota() == old(self).quota() - 1
                    &&& final(origin).latched() == old(origin).latched()
                })
                &&& (old(origin).src().event_at(0) is None ==> {
                    &&& r is None
                    &&& final(self).quota() == 0
                    &&& final(origin).latched()
                })
            },
    {
        match self.first.take() {
            Some(v) => Some(v),
            None => {
                if self.n > 0 {
                    // The quota is spent before the pull, whether or not the
                    // source still has an item for it.
                    self.n = self.n - 1;
                    match origin.inner.pull() {
                        Some(v) => Some(v),
                        None => {
                            // This chunk ends for good, and the origin owes
                            // its caller one "no chunk" answer.
                            self.n = 0;
                            origin.end_flag = true;
                            None
                        },
                    }
                } else {
                    None
                }
            },
        }
    }
}

/// A [`ChunkVisitor`] that drains every chunk handed to it and keeps the
/// items, one vector per chunk.
pub struct ChunkCollector<S: Source> {
    /// The chunks seen so far, in order, each fully drained.
    pub seen: Vec<Vec<S::Item>>,
    /// The ghost record of the chunks handed to this collector, in order.
    pub history: Ghost<Seq<Chunk<S>>>,
}

impl<S: Source> ChunkCollector<S> {
    /// A collector that has seen nothing yet.
    pub fn new() -> (r: Self)
        ensures
            r.seen@.len() == 0,
            r.received() == Seq::<Chunk<S>>::empty(),
    {
        ChunkCollector { seen: Vec::new(), history: Ghost(Seq::empty()) }
    }
}

impl<S: Source> ChunkVisitor<S> for ChunkCollector<S> {
    closed spec fn received(&self) -> Seq<Chunk<S>> {
        self.history@
    }

    fn visit(&mut self, chunk: Chunk<S>, origin: &mut Chunks<S>)
        ensures
            final(self).seen@.len() == old(self).seen@.len() + 1,
            forall|i: int|
                0 <= i < old(self).seen@.len() ==> #[trigger] final(self).seen@[i] == old(
                    self,
                ).seen@[i],
            ({
                let s0 = old(origin).src();
                let l = leading_items(stream_prefix(s0, chunk.quota()));
                final(self).seen@.last()@ == (if chunk.pending() is Some {
                    seq![chunk.pending()->0]
                } else {
                    Seq::<S::Item>::empty()
                }) + Seq::new(l as nat, |k: int| s0.event_at(k)->0)
            }),
    {
        let ghost pre: Chunks<S> = *origin;
        let ghost q = chunk.quota();
        let ghost c0: Chunk<S> = chunk;
        let items = chunk.collect(origin);
        self.seen.push(items);
        self.history = Ghost(self.history@.push(c0));
        proof {
            let l = leading_items(stream_prefix(pre.src(), q));
            lemma_leading_items(stream_prefix(pre.src(), q));
            if l == q {
                assert forall|i: int| 0 <= i < q implies (#[trigger] pre.src().event_at(
                    i,
                )) is Some by {
                    assert(stream_prefix(pre.src(), q)[i] is Some);
                }
                assert(advanced_by(pre, *origin, q));
            } else {
                assert(advanced_by(pre, *origin, l + 1));
            }
        }
    }
}

/// How many items a chunk will in truth still yield: its pending item, plus
/// the items its origin's source produces within the chunk's quota, up to
/// the source's next exhaustion signal.
pub open spec fn remaining_yield<S: Source>(chunk: Chunk<S>, origin: Chunks<S>) -> int {
    (if chunk.pending() is Some {
        1int
    } else {
        0int
    }) + leading_items(stream_prefix(origin.src(), chunk.quota()))
}

/// The size-hint formula: a bound reported by the source, capped at the
/// chunk's quota, plus one for a pending item.
pub open spec fn capped_bound(bound: int, quota: int, has_pending: bool) -> int {
    (if bound < quota {
        bound
    } else {
        quota
    }) + (if has_pending {
        1int
    } else {
        0int
    })
}

impl<S: Source> Chunk<S> {
    /// A conservative estimate `(lower, upper)` of how many items this chunk
    /// will still yield: each of the source's own bounds, capped at the
    /// chunk's quota, plus one for the pending item. The lower bound never
    /// overestimates the true remaining yield, and the upper bound, when
    /// present, never underestimates it.
    pub fn size_hint(&self, origin: &Chunks<S>) -> (r: (usize, Option<usize>))
        requires
            self.quota() < usize::MAX,
        ensures
            r.0 == capped_bound(
                origin.src().lower_hint() as int,
                self.quota(),
                self.pending() is Some,
            ),
            r.1 is Some <==> origin.src().upper_hint() is Some,
            r.1 matches Some(u) ==> u == capped_bound(
                origin.src().upper_hint()->0 as int,
                self.quota(),
                self.pending() is Some,
            ),
            r.0 <= remaining_yield(*self, *origin),
            r.1 matches Some(u) ==> remaining_yield(*self, *origin) <= u,
    {
        let (src_lower, src_upper) = origin.inner.size_hint();
        let has_first: usize = if self.first.is_some() {
            1
        } else {
            0
        };
        let n = self.n;
        let ghost p = stream_prefix(origin.src(), self.quota());
        let ghost l = leading_items(p);
        proof {
            lemma_leading_items(p);
            if src_lower < n && src_lower as int > l {
                assert(p[l] is None);
                assert(origin.src().event_at(l) is Some);
            }
            if n as int > l && src_lower >= n {
                assert(p[l] is None);
                assert(origin.src().event_at(l) is Some);
            }
        }
        let base: usize = if src_lower < n {
            src_lower
        } else {
            n
        };
        let lower: usize = base + has_first;
        let upper: Option<usize> = match src_upper {
            Some(u) => {
                proof {
                    let k = choose|k: int|
                        0 <= k <= u && (#[trigger] origin.src().event_at(k)) is None;
                    if k < l {
                        assert(p[k] is Some);
                    }
                }
                let cap: usize = if u < n {
                    u
                } else {
                    n
                };
                Some(cap + has_first)
            },
            None => None,
        };
        (lower, upper)
    }

    /// Drain this chunk to its end, collecting its items in order: the
    /// pending item, if any, then the items the source yields within the
    /// chunk's quota, up to the source's next exhaustion signal. As with
    /// [`Chunk::next`], hitting the signal raises the origin's latch; using
    /// up the quota instead leaves the origin's latch as it was.
    pub fn collect(self, origin: &mut Chunks<S>) -> (r: Vec<S::Item>)
        ensures
            r@.len() == remaining_yield(self, *old(origin)),
            ({
                let q = self.quota();
                let s0 = old(origin).src();
                let l = leading_items(stream_prefix(s0, q));
                &&& final(origin).chunk_size() == old(origin).chunk_size()
                &&& r@ == (if self.pending() is Some {
                    seq![self.pending()->0]
                } else {
                    Seq::<S::Item>::empty()
                }) + Seq::new(l as nat, |k: int| s0.event_at(k)->0)
                &&& (l == q ==> {
                    &&& forall|k: int|
                        0 <= k ==> #[trigger] final(origin).src().event_at(k) == s0.event_at(k + q)
                    &&& final(origin).latched() == old(origin).latched()
                })
                &&& (l < q ==> {
                    &&& forall|k: int|
                        0 <= k ==> #[trigger] final(origin).src().event_at(k) == s0.event_at(
                            k + l + 1,
                        )
                    &&& final(origin).latched()
                })
            }),
    {
        let ghost s0 = origin.src();
        let ghost q0 = self.quota();
        let ghost latch0 = origin.latched();
        let ghost n0 = origin.chunk_size();
        let ghost p0 = self.pending();
        let ghost pend = (if p0 is Some {
            seq![p0->0]
        } else {
            Seq::<S::Item>::empty()
        });
        let ghost hf = (if p0 is Some {
            1int
        } else {
            0int
        });
        let mut chunk = self;
        let mut out: Vec<S::Item> = Vec::new();
        proof {
            if p0 is None {
                assert(out@ =~= pend + Seq::new(0, |k: int| s0.event_at(k)->0));
            }
        }
        loop
            invariant_except_break
                q0 >= 0,
                hf == (if p0 is Some {
                    1int
                } else {
                    0int
                }),
                pend == (if p0 is Some {
                    seq![p0->0]
                } else {
                    Seq::<S::Item>::empty()
                }),
                origin.chunk_size() == n0,
                chunk.pending() is Some ==> {
                    &&& chunk.pending() == p0
                    &&& out@.len() == 0
                    &&& chunk.quota() == q0
                    &&& (forall|k: int|
                        0 <= k ==> #[trigger] origin.src().event_at(k) == s0.event_at(k))
                    &&& origin.latched() == latch0
                },
                chunk.pending() is None ==> ({
                    let j = out@.len() - hf;
                    &&& out@.len() >= hf
                    &&& 0 <= j <= q0
                    &&& chunk.quota() == q0 - j
                    &&& (forall|k: int| 0 <= k < j ==> (#[trigger] s0.event_at(k)) is Some)
                    &&& out@ == pend + Seq::new(j as nat, |k: int| s0.event_at(k)->0)
                    &&& (forall|k: int|
                        0 <= k ==> #[trigger] origin.src().event_at(k) == s0.event_at(k + j))
                    &&& origin.latched() == latch0
                }),
            ensures
                ({
                    let j = out@.len() - hf;
                    &&& origin.chunk_size() == n0
                    &&& 0 <= j <= q0
                    &&& (forall|k: int| 0 <= k < j ==> (#[trigger] s0.event_at(k)) is Some)
                    &&& out@ == pend + Seq::new(j as nat, |k: int| s0.event_at(k)->0)
                    &&& (j == q0 ==> {
                        &&& (forall|k: int|
                            0 <= k ==> #[trigger] origin.src().event_at(k) == s0.event_at(k + q0))
                        &&& origin.latched() == latch0
                    })
                    &&& (j < q0 ==> {
                        &&& s0.event_at(j) is None
                        &&& (forall|k: int|
                            0 <= k ==> #[trigger] origin.src().event_at(k) == s0.event_at(
                                k + j + 1,
                            ))
                        &&& origin.latched()
                    })
                }),
            decreases chunk.quota() + (if chunk.pending() is Some {
                1int
            } else {
                0int
            }),
        {
            let ghost pre_out = out@;
            let ghost pre_pending = chunk.pending();
            match chunk.next(origin) {
                Some(v) => {
                    out.push(v);
                    proof {
                        if pre_pending is Some {
                            assert(out@ =~= pend + Seq::new(0, |k: int| s0.event_at(k)->0));
                        } else {
                            let j = pre_out.len() - hf;
                            assert(v == s0.event_at(j)->0);
                            assert(out@ =~= pend + Seq::new(
                                (j + 1) as nat,
                                |k: int| s0.event_at(k)->0,
                            ));
                        }
                    }
                },
                None => {
                    break ;
                },
            }
        }
        proof {
            let j = out@.len() - hf;
            let p = stream_prefix(s0, q0);
            lemma_leading_items(p);
            let l = leading_items(p);
            if j == q0 {
                if l < q0 {
                    assert(s0.event_at(l) is Some);
                    assert(p[l] is None);
                }
            } else {
                if l < j {
                    assert(p[l] is None);
                    assert(s0.event_at(l) is Some);
                }
                if l > j {
                    assert(p[j] is Some);
                }
            }
        }
        out
    }
}

} // verus!
