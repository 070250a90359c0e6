//! Ready-made sources: a finite in-memory source, one with a loose length
//! estimate, and two resumable ones.

use vstd::prelude::*;

use crate::source::Source;

verus! {

use vstd::arithmetic::div_mod::lemma_mod_add_multiples_vanish;
use vstd::arithmetic::div_mod::lemma_small_mod;

/// The event stream of a finite in-memory sequence: its items in order,
/// then exhaustion signals forever.
pub open spec fn vec_event<T>(items: Seq<T>, k: int) -> Option<T> {
    if 0 <= k < items.len() {
        Some(items[k])
    } else {
        None
    }
}

/// A finite source over an owned vector, yielding its items in order and
/// reporting its exact remaining length.
pub struct VecSource<T> {
    items: Vec<T>,
    pos: usize,
}

impl<T: Copy> VecSource<T> {
    /// A source that yields the items of `items` in order, then is
    /// exhausted for good.
    pub fn new(items: Vec<T>) -> (r: Self)
        ensures
            forall|k: int| 0 <= k ==> #[trigger] r.event_at(k) == vec_event(items@, k),
            r.lower_hint() == items@.len(),
            r.upper_hint() == Some(items@.len() as usize),
    {
        let n = items.len();
        let r = VecSource { items, pos: 0 };
        proof {
            assert(n == r.items@.len());
        }
        r
    }
}

impl<T: Copy> Source for VecSource<T> {
    type Item = T;

    closed spec fn event_at(&self, k: int) -> Option<T> {
        if 0 <= k && self.pos + k < self.items@.len() {
            Some(self.items@[self.pos + k])
        } else {
            None
        }
    }

    closed spec fn lower_hint(&self) -> usize {
        if self.pos <= self.items@.len() {
            (self.items@.len() - self.pos) as usize
        } else {
            0
        }
    }

    closed spec fn upper_hint(&self) -> Option<usize> {
        Some(self.lower_hint())
    }

    fn pull(&mut self) -> (r: Option<T>)
        ensures
            r is Some ==> final(self).lower_hint() == (old(self).lower_hint() - 1) as usize,
            r is None ==> *final(self) == *old(self),
            final(self).upper_hint() == Some(final(self).lower_hint()),
    {
        if self.pos < self.items.len() {
            let v = self.items[self.pos];
            self.pos = self.pos + 1;
            Some(v)
        } else {
            None
        }
    }

    fn size_hint(&self) -> (r: (usize, Option<usize>)) {
        let rem: usize = if self.pos <= self.items.len() {
            self.items.len() - self.pos
        } else {
            0
        };
        proof {
            assert(self.event_at(rem as int) is None);
        }
        (rem, Some(rem))
    }
}

/// What a [`VecSource`]'s reported bounds mean on its event stream: both
/// point at the source's first exhaustion signal — every earlier event is
/// an item, and the event at the bound is the signal. With this, the
/// source's hints at any later point follow from its event stream alone.
pub proof fn lemma_vec_source_hints<T: Copy>(s: &VecSource<T>)
    ensures
        s.upper_hint() == Some(s.lower_hint()),
        s.event_at(s.lower_hint() as int) is None,
        forall|k: int| 0 <= k < s.lower_hint() ==> (#[trigger] s.event_at(k)) is Some,
{
    vstd::std_specs::vec::axiom_spec_len(&s.items);
}

/// A finite source made of a counted head and an uncounted tail: it yields
/// the head's items, then the tail's, then is exhausted for good. Its length
/// estimate vouches only for the head — the lower bound stops counting where
/// the head ends, while the upper bound covers everything.
pub struct ChainSource<T> {
    items: Vec<T>,
    pos: usize,
    certain: usize,
}

impl<T: Copy> ChainSource<T> {
    /// A source that yields the items of `head`, then those of `tail`, then
    /// is exhausted for good.
    pub fn new(head: Vec<T>, tail: Vec<T>) -> (r: Self)
        ensures
            forall|k: int| 0 <= k ==> #[trigger] r.event_at(k) == vec_event(head@ + tail@, k),
            r.lower_hint() == head@.len(),
            r.upper_hint() == Some((head@.len() + tail@.len()) as usize),
    {
        let certain = head.len();
        let mut items = head;
        let mut rest = tail;
        items.append(&mut rest);
        let total = items.len();
        let r = ChainSource { items, pos: 0, certain };
        proof {
            assert(total == r.items@.len());
        }
        r
    }
}

impl<T: Copy> Source for ChainSource<T> {
    type Item = T;

    closed spec fn event_at(&self, k: int) -> Option<T> {
        if 0 <= k && self.pos + k < self.items@.len() {
            Some(self.items@[self.pos + k])
        } else {
            None
        }
    }

    closed spec fn lower_hint(&self) -> usize {
        let sure = if self.certain <= self.items@.len() {
            self.certain as int
        } else {
            self.items@.len() as int
        };
        if self.pos <= sure {
            (sure - self.pos) as usize
        } else {
            0
        }
    }

    closed spec fn upper_hint(&self) -> Option<usize> {
        if self.pos <= self.items@.len() {
            Some((self.items@.len() - self.pos) as usize)
        } else {
            Some(0)
        }
    }

    fn pull(&mut self) -> (r: Option<T>)
        ensures
            r is Some ==> final(self).lower_hint() == (if old(self).lower_hint() > 0 {
                (old(self).lower_hint() - 1) as usize
            } else {
                0usize
            }),
            r is Some ==> final(self).upper_hint() == Some(
                (old(self).upper_hint()->0 - 1) as usize,
            ),
            r is None ==> *final(self) == *old(self),
    {
        if self.pos < self.items.len() {
            let v = self.items[self.pos];
            self.pos = self.pos + 1;
            Some(v)
        } else {
            None
        }
    }

    fn size_hint(&self) -> (r: (usize, Option<usize>)) {
        let len = self.items.len();
        let sure: usize = if self.certain <= len {
            self.certain
        } else {
            len
        };
        let lower: usize = if self.pos <= sure {
            sure - self.pos
        } else {
            0
        };
        let rem: usize = if self.pos <= len {
            len - self.pos
        } else {
            0
        };
        proof {
            assert(self.event_at(rem as int) is None);
        }
        (lower, Some(rem))
    }
}

/// What a [`ChainSource`]'s reported upper bound means on its event stream:
/// it points at the source's first exhaustion signal — every earlier event
/// is an item, and the event at the bound is the signal. The lower bound
/// carries the extra knowledge of where the counted head ends, which the
/// stream alone does not show; its evolution is stated on `pull` instead.
pub proof fn lemma_chain_source_upper_hint<T: Copy>(s: &ChainSource<T>)
    ensures
        s.upper_hint() is Some,
        s.event_at(s.upper_hint()->0 as int) is None,
        forall|k: int| 0 <= k < s.upper_hint()->0 ==> (#[trigger] s.event_at(k)) is Some,
{
    vstd::std_specs::vec::axiom_spec_len(&s.items);
}

/// The event stream of a counting source with a gap at every multiple of
/// `rem`: the `k`-th future pull steps the count `i` forward (capping at
/// `u64::MAX`) and answers with it, except that counts divisible by `rem`
/// come out as exhaustion signals. A `rem` of 0 means no items at all.
pub open spec fn gap_event(i: int, rem: int, k: int) -> Option<u64> {
    let v = if i + 1 + k <= u64::MAX {
        i + 1 + k
    } else {
        u64::MAX as int
    };
    if rem < 1 {
        None
    } else if v % rem == 0 {
        None
    } else {
        Some(v as u64)
    }
}

/// A resumable source that counts 1, 2, 3, ... but, at every multiple of
/// `rem`, signals exhaustion once in place of that count and then counts on.
pub struct GapSource {
    i: u64,
    rem: u64,
}

impl GapSource {
    /// A fresh counter with a gap at every multiple of `rem`.
    pub fn new(rem: u64) -> (r: Self)
        ensures
            forall|k: int| 0 <= k ==> #[trigger] r.event_at(k) == gap_event(0, rem as int, k),
            r.lower_hint() == 0,
            r.upper_hint() is None,
    {
        GapSource { i: 0, rem }
    }
}

impl Source for GapSource {
    type Item = u64;

    closed spec fn event_at(&self, k: int) -> Option<u64> {
        gap_event(self.i as int, self.rem as int, k)
    }

    closed spec fn lower_hint(&self) -> usize {
        0
    }

    closed spec fn upper_hint(&self) -> Option<usize> {
        None
    }

    fn pull(&mut self) -> (r: Option<u64>) {
        if self.i < u64::MAX {
            self.i = self.i + 1;
        }
        if self.rem == 0 {
            None
        } else if self.i % self.rem == 0 {
            None
        } else {
            Some(self.i)
        }
    }

    fn size_hint(&self) -> (r: (usize, Option<usize>)) {
        (0, None)
    }
}

/// The event stream of a cycling source: positions run around a cycle of
/// `items.len() + 1` slots, the last of which is the exhaustion signal.
pub open spec fn cycle_event<T>(items: Seq<T>, pos: int, k: int) -> Option<T> {
    let p = if 0 <= pos <= items.len() {
        pos
    } else {
        items.len() as int
    };
    let idx = (p + k) % (items.len() as int + 1);
    if idx < items.len() {
        Some(items[idx])
    } else {
        None
    }
}

/// A resumable source that yields its items in order, signals exhaustion
/// once, and starts over from the first item.
pub struct CycleSource<T> {
    items: Vec<T>,
    pos: usize,
}

impl<T: Copy> CycleSource<T> {
    /// A source that cycles through the items of `items`, one exhaustion
    /// signal between rounds.
    pub fn new(items: Vec<T>) -> (r: Self)
        ensures
            forall|k: int| 0 <= k ==> #[trigger] r.event_at(k) == cycle_event(items@, 0, k),
            r.lower_hint() == 0,
            r.upper_hint() is None,
    {
        CycleSource { items, pos: 0 }
    }
}

impl<T: Copy> Source for CycleSource<T> {
    type Item = T;

    closed spec fn event_at(&self, k: int) -> Option<T> {
        cycle_event(self.items@, self.pos as int, k)
    }

    closed spec fn lower_hint(&self) -> usize {
        0
    }

    closed spec fn upper_hint(&self) -> Option<usize> {
        None
    }

    fn pull(&mut self) -> (r: Option<T>) {
        let ghost m: int = self.items@.len() as int + 1;
        if self.pos < self.items.len() {
            let v = self.items[self.pos];
            self.pos = self.pos + 1;
            proof {
                lemma_small_mod((self.pos - 1) as nat, m as nat);
            }
            Some(v)
        } else {
            self.pos = 0;
            proof {
                lemma_small_mod((m - 1) as nat, m as nat);
                assert forall|k: int| 0 <= k implies #[trigger] self.event_at(k) == old(
                    self,
                ).event_at(k + 1) by {
                    lemma_mod_add_multiples_vanish(k, m);
                }
            }
            None
        }
    }

    fn size_hint(&self) -> (r: (usize, Option<usize>)) {
        (0, None)
    }
}

} // verus!
