//! The capability that the chunking adapter asks of the data it reads: a
//! sequential, pull-based producer of items.

use vstd::prelude::*;

verus! {

/// A sequential, pull-based producer of items.
///
/// The ghost model of a source is the stream of events its future pulls will
/// produce: `event_at(k)` is the outcome of the `k`-th pull from now, either
/// an item (`Some`) or an exhaustion signal (`None`). A pull consumes the
/// head of that stream and shifts the rest forward. Exhaustion need not be
/// permanent: a `None` event may be followed by further `Some` events, so a
/// resumable producer is a source like any other.
pub trait Source: Sized {
    type Item;

    /// The outcome of the `k`-th future pull: the item it produces, or
    /// `None` for an exhaustion signal.
    spec fn event_at(&self, k: int) -> Option<Self::Item>;

    /// The lower bound that [`Source::size_hint`] currently reports.
    spec fn lower_hint(&self) -> usize;

    /// The upper bound that [`Source::size_hint`] currently reports, if it
    /// reports one.
    spec fn upper_hint(&self) -> Option<usize>;

    /// Pull once: produce the head event of the stream and shift the rest
    /// forward by one.
    fn pull(&mut self) -> (r: Option<Self::Item>)
        ensures
            r == old(self).event_at(0),
            forall|k: int| 0 <= k ==> #[trigger] final(self).event_at(k) == old(self).event_at(k + 1),
    ;

    /// A best-effort estimate `(lower, upper)` of how many items are still to
    /// come before the next exhaustion signal. The estimate must be honest:
    /// at least `lower` items come before the next signal, and when an upper
    /// bound is reported, a signal occurs among the next `upper + 1` events.
    fn size_hint(&self) -> (r: (usize, Option<usize>))
        ensures
            r == (self.lower_hint(), self.upper_hint()),
            forall|k: int| 0 <= k < r.0 ==> (#[trigger] self.event_at(k)) is Some,
            r.1 matches Some(u) ==> exists|k: int| 0 <= k <= u && (#[trigger] self.event_at(k)) is None,
    ;
}

/// The next `len` events of a source, materialized as a sequence.
pub open spec fn stream_prefix<S: Source>(src: S, len: int) -> Seq<Option<S::Item>> {
    Seq::new(if len >= 0 { len as nat } else { 0 }, |k: int| src.event_at(k))
}

/// How many items stand before the first exhaustion signal in `events`
/// (all of `events`, if no signal occurs in it).
pub open spec fn leading_items<T>(events: Seq<Option<T>>) -> int
    decreases events.len(),
{
    if events.len() == 0 || events[0] is None {
        0
    } else {
        1 + leading_items(events.drop_first())
    }
}

/// What `leading_items` says of a sequence of events: it counts a prefix of
/// items, and the event right after that prefix, if there is one, is an
/// exhaustion signal.
pub proof fn lemma_leading_items<T>(events: Seq<Option<T>>)
    ensures
        0 <= leading_items(events) <= events.len(),
        forall|k: int| 0 <= k < leading_items(events) ==> (#[trigger] events[k]) is Some,
        leading_items(events) < events.len() ==> events[leading_items(events)] is None,
    decreases events.len(),
{
    if events.len() == 0 || events[0] is None {
    } else {
        lemma_leading_items(events.drop_first());
        assert forall|k: int| 0 <= k < leading_items(events) implies (#[trigger] events[k]) is Some by {
            if k > 0 {
                assert(events.drop_first()[k - 1] is Some);
            }
        }
    }
}

} // verus!
