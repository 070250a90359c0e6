//! Chunking as a function on finite sequences, and the proof that running
//! the adapter over a finite source computes exactly that function.

use vstd::prelude::*;

use crate::chunking::IterChunks;
use crate::source::Source;
use crate::source::leading_items;
use crate::source::lemma_leading_items;
use crate::source::stream_prefix;
use crate::sources::VecSource;
use crate::sources::vec_event;

verus! {

use vstd::arithmetic::div_mod::lemma_basic_div;
use vstd::arithmetic::div_mod::lemma_div_plus_one;
use vstd::seq_lib::lemma_flatten_concat;

/// The chunks of `s`, in order: each holds `n` items, except a shorter last
/// one where `s` runs out mid-chunk.
pub open spec fn chunked<T>(s: Seq<T>, n: int) -> Seq<Seq<T>>
    recommends
        n >= 1,
    decreases s.len(),
{
    if s.len() == 0 || n < 1 {
        Seq::empty()
    } else if s.len() <= n {
        seq![s]
    } else {
        seq![s.take(n)] + chunked(s.skip(n), n)
    }
}

/// Chunking loses and reorders nothing: concatenating the chunks of `s`, in
/// order, gives back `s` exactly.
pub proof fn lemma_chunked_flatten<T>(s: Seq<T>, n: int)
    requires
        n >= 1,
    ensures
        chunked(s, n).flatten() == s,
    decreases s.len(),
{
    if s.len() == 0 {
        assert(chunked(s, n).flatten() =~= s);
    } else if s.len() <= n {
        seq![s].lemma_flatten_singleton();
    } else {
        lemma_chunked_flatten(s.skip(n), n);
        lemma_flatten_concat(seq![s.take(n)], chunked(s.skip(n), n));
        seq![s.take(n)].lemma_flatten_singleton();
        assert(s.take(n) + s.skip(n) =~= s);
    }
}

/// Chunking `s` into chunks of `n` produces exactly `ceil(|s| / n)` chunks:
/// none for an empty sequence.
pub proof fn lemma_chunked_count<T>(s: Seq<T>, n: int)
    requires
        n >= 1,
    ensures
        chunked(s, n).len() == (s.len() + n - 1) / n,
    decreases s.len(),
{
    if s.len() == 0 {
        lemma_basic_div(n - 1, n);
    } else if s.len() <= n {
        lemma_div_plus_one(s.len() - 1, n);
        lemma_basic_div(s.len() - 1, n);
    } else {
        lemma_chunked_count(s.skip(n), n);
        lemma_div_plus_one(s.len() - 1, n);
    }
}

/// Every chunk the model produces is non-empty and holds at most `n` items,
/// and every chunk but the last holds exactly `n`.
pub proof fn lemma_chunked_shape<T>(s: Seq<T>, n: int)
    requires
        n >= 1,
    ensures
        forall|i: int|
            0 <= i < chunked(s, n).len() ==> 0 < (#[trigger] chunked(s, n)[i]).len() <= n,
        forall|i: int|
            0 <= i < chunked(s, n).len() - 1 ==> (#[trigger] chunked(s, n)[i]).len() == n,
    decreases s.len(),
{
    if s.len() == 0 || s.len() <= n {
    } else {
        lemma_chunked_shape(s.skip(n), n);
        assert forall|i: int|
            0 <= i < chunked(s, n).len() implies 0 < (#[trigger] chunked(s, n)[i]).len() <= n by {
            if i > 0 {
                assert(chunked(s, n)[i] == chunked(s.skip(n), n)[i - 1]);
            }
        }
        assert forall|i: int|
            0 <= i < chunked(s, n).len() - 1 implies (#[trigger] chunked(s, n)[i]).len() == n by {
            if i > 0 {
                assert(chunked(s, n)[i] == chunked(s.skip(n), n)[i - 1]);
            }
        }
    }
}

/// Carve a vector's items into chunks of `n` eagerly, by running the
/// adapter over a [`VecSource`] until "no chunk" and draining every chunk:
/// the result is exactly [`chunked`] of the vector's items.
pub fn chunk_vec<T: Copy>(items: Vec<T>, n: usize) -> (r: Vec<Vec<T>>)
    requires
        n >= 1,
    ensures
        r@.map_values(|c: Vec<T>| c@) == chunked(items@, n as int),
{
    let ghost s0 = items@;
    let mut cursor = VecSource::new(items).chunks(n);
    let mut out: Vec<Vec<T>> = Vec::new();
    let ghost mut consumed: int = 0;
    proof {
        assert(out@.map_values(|c: Vec<T>| c@) =~= Seq::<Seq<T>>::empty());
        assert(s0.skip(0) =~= s0);
    }
    loop
        invariant_except_break
            n >= 1,
            cursor.chunk_size() == n as int,
            0 <= consumed <= s0.len(),
            forall|k: int|
                0 <= k ==> #[trigger] cursor.src().event_at(k) == vec_event(s0, consumed + k),
            cursor.latched() ==> consumed == s0.len(),
            chunked(s0, n as int) == out@.map_values(|c: Vec<T>| c@) + chunked(
                s0.skip(consumed),
                n as int,
            ),
        ensures
            out@.map_values(|c: Vec<T>| c@) == chunked(s0, n as int),
        decreases s0.len() - consumed + (if cursor.latched() {
            0int
        } else {
            1int
        }),
    {
        let ghost pre_out = out@;
        let ghost top_latched = cursor.latched();
        match cursor.next() {
            None => {
                proof {
                    if !top_latched {
                        assert(vec_event(s0, consumed) is None);
                    }
                    assert(s0.skip(consumed) =~= Seq::<T>::empty());
                    assert(out@.map_values(|c: Vec<T>| c@) + chunked(s0.skip(consumed), n as int)
                        =~= out@.map_values(|c: Vec<T>| c@));
                }
                break ;
            },
            Some(chunk) => {
                let ghost pre = cursor;
                let ghost q = chunk.quota();
                let ghost pending = chunk.pending();
                let items_of = chunk.collect(&mut cursor);
                out.push(items_of);
                proof {
                    // The eager pull produced the item at `consumed`.
                    assert(vec_event(s0, consumed) is Some);
                    assert(pending == Some(s0[consumed]));
                    let rem = s0.len() - consumed - 1;
                    let p = stream_prefix(pre.src(), q);
                    lemma_leading_items(p);
                    let l = leading_items(p);
                    // The chunk drained `l` further items: as many as its
                    // quota allows, or all that are left.
                    assert(l == (if rem < q {
                        rem
                    } else {
                        q
                    })) by {
                        if l < q && l < rem {
                            assert(p[l] is None);
                            assert(pre.src().event_at(l) == vec_event(s0, consumed + 1 + l));
                        }
                        if l > rem {
                            assert(p[rem] is Some);
                            assert(pre.src().event_at(rem) == vec_event(s0, consumed + 1 + rem));
                        }
                    }
                    let m = 1 + l;
                    assert(items_of@ =~= s0.subrange(consumed, consumed + m));
                    let tail = s0.skip(consumed);
                    assert(tail.len() == s0.len() - consumed);
                    // One unfolding of `chunked` on what is left.
                    if tail.len() <= n as int {
                        assert(m == tail.len());
                        assert(items_of@ =~= tail);
                        assert(chunked(s0.skip(consumed), n as int) == seq![tail]);
                        assert(s0.skip(consumed + m) =~= Seq::<T>::empty());
                        assert(chunked(s0.skip(consumed + m), n as int) =~= Seq::<Seq<T>>::empty());
                        assert(seq![items_of@] + chunked(s0.skip(consumed + m), n as int)
                            =~= seq![tail]);
                    } else {
                        assert(m == n as int);
                        assert(items_of@ =~= tail.take(n as int));
                        assert(tail.skip(n as int) =~= s0.skip(consumed + m));
                        assert(chunked(s0.skip(consumed), n as int) == seq![tail.take(n as int)]
                            + chunked(tail.skip(n as int), n as int));
                    }
                    assert(chunked(s0.skip(consumed), n as int) == seq![items_of@] + chunked(
                        s0.skip(consumed + m),
                        n as int,
                    ));
                    assert(out@.map_values(|c: Vec<T>| c@) =~= pre_out.map_values(
                        |c: Vec<T>| c@,
                    ).push(items_of@));
                    assert(pre_out.map_values(|c: Vec<T>| c@).push(items_of@) + chunked(
                        s0.skip(consumed + m),
                        n as int,
                    ) =~= pre_out.map_values(|c: Vec<T>| c@) + (seq![items_of@] + chunked(
                        s0.skip(consumed + m),
                        n as int,
                    )));
                    consumed = consumed + m;
                }
            },
        }
    }
    out
}

} // verus!
