//! Windows: fixed-length sequences of entries, each empty or holding the
//! body that belongs at one offset of the file.

use vstd::prelude::*;

use super::BODY_LEN;

verus! {

/// One entry of a window.
#[derive(Clone, Copy)]
pub enum Slot {
    /// Nothing is held.
    Empty,
    /// The body that starts at byte offset `seq` of the file.
    Pending { seq: u64, body: [u8; BODY_LEN] },
}

/// What a window entry holds.
pub struct Chunk {
    pub seq: u64,
    pub body: Seq<u8>,
}

impl View for Slot {
    type V = Option<Chunk>;

    open spec fn view(&self) -> Option<Chunk> {
        match self {
            Slot::Empty => None,
            Slot::Pending { seq, body } => Some(Chunk { seq: *seq, body: body@ }),
        }
    }
}

/// The entries of a window as a sequence.
pub open spec fn slots(window: Seq<Slot>) -> Seq<Option<Chunk>> {
    Seq::new(window.len(), |i: int| window[i]@)
}

/// The chunks of bytes that a list of buffers holds.
pub open spec fn contents(chunks: Seq<Vec<u8>>) -> Seq<Seq<u8>> {
    Seq::new(chunks.len(), |i: int| chunks[i]@)
}

/// A window without any body.
pub open spec fn vacant(len: nat) -> Seq<Option<Chunk>> {
    Seq::new(len, |i: int| None)
}

/// Number of bodies that a window holds.
pub open spec fn held(window: Seq<Option<Chunk>>) -> nat
    decreases window.len(),
{
    if window.len() == 0 {
        0
    } else {
        held(window.drop_last()) + if window.last() is Some {
            1nat
        } else {
            0nat
        }
    }
}

/// An offset a whole number of bodies after `start` is `i` times the body
/// length further, and leaves the same remainder by the body length.
pub proof fn lemma_body_multiple(start: int, i: int)
    ensures
        BODY_LEN == 1463,
        i * BODY_LEN == i * 1463,
        (i + 1) * BODY_LEN == i * 1463 + 1463,
        (start + i * BODY_LEN) % 1463 == start % 1463,
{
    vstd::arithmetic::div_mod::lemma_mod_multiples_vanish(i, start, 1463);
    assert(1463 * i + start == start + i * 1463);
    assert((i + 1) * 1463 == i * 1463 + 1463);
}

/// A window holds no more bodies than it has entries.
pub proof fn lemma_held_bound(window: Seq<Option<Chunk>>)
    ensures
        held(window) <= window.len(),
    decreases window.len(),
{
    if window.len() > 0 {
        lemma_held_bound(window.drop_last());
    }
}

/// A vacant window holds nothing.
pub proof fn lemma_held_vacant(len: nat)
    ensures
        held(vacant(len)) == 0,
    decreases len,
{
    if len > 0 {
        assert(vacant(len).drop_last() =~= vacant((len - 1) as nat));
        lemma_held_vacant((len - 1) as nat);
    }
}

/// A window holds nothing exactly if it is vacant.
pub proof fn lemma_held_zero(window: Seq<Option<Chunk>>)
    ensures
        held(window) == 0 <==> window == vacant(window.len()),
    decreases window.len(),
{
    if window.len() > 0 {
        let front = window.drop_last();
        lemma_held_zero(front);
        assert(vacant(window.len()).drop_last() =~= vacant(front.len()));
        if held(window) == 0 {
            assert(window =~= front.push(window.last()));
            assert(window =~= vacant(window.len()));
        }
        if window == vacant(window.len()) {
            assert(front =~= vacant(front.len()));
        }
    } else {
        assert(window =~= vacant(0));
    }
}

/// Filling an empty entry adds one body.
pub proof fn lemma_held_update(window: Seq<Option<Chunk>>, i: int, chunk: Chunk)
    requires
        0 <= i < window.len(),
        window[i] is None,
    ensures
        held(window.update(i, Some(chunk))) == held(window) + 1,
    decreases window.len(),
{
    let filled = window.update(i, Some(chunk));
    if i == window.len() - 1 {
        assert(filled.drop_last() =~= window.drop_last());
    } else {
        assert(filled.drop_last() =~= window.drop_last().update(i, Some(chunk)));
        lemma_held_update(window.drop_last(), i, chunk);
    }
}

/// Dropping the first entry removes the body that it holds, if any.
pub proof fn lemma_held_drop_first(window: Seq<Option<Chunk>>)
    requires
        window.len() > 0,
    ensures
        held(window) == held(window.drop_first()) + if window[0] is Some {
            1nat
        } else {
            0nat
        },
    decreases window.len(),
{
    if window.len() == 1 {
        assert(window.drop_first() =~= window.drop_last());
    } else {
        lemma_held_drop_first(window.drop_last());
        assert(window.drop_first().drop_last() =~= window.drop_last().drop_first());
    }
}

/// Sliding a window by one entry removes the body of the first entry.
pub proof fn lemma_held_slide(window: Seq<Option<Chunk>>)
    requires
        window.len() > 0,
    ensures
        held(window) == held(window.drop_first().push(None)) + if window[0] is Some {
            1nat
        } else {
            0nat
        },
{
    lemma_held_drop_first(window);
    assert(window.drop_first().push(None).drop_last() =~= window.drop_first());
}

/// Entries from `m` on that are all empty do not count: the window holds as
/// many bodies as its first `m` entries.
pub proof fn lemma_held_take(window: Seq<Option<Chunk>>, m: int)
    requires
        0 <= m <= window.len(),
        forall|i: int| m <= i < window.len() ==> window[i] is None,
    ensures
        held(window) == held(window.take(m)),
    decreases window.len(),
{
    if m == window.len() {
        assert(window.take(m) =~= window);
    } else {
        assert(window.last() is None);
        assert(window.drop_last().take(m) =~= window.take(m));
        lemma_held_take(window.drop_last(), m);
    }
}

/// A window that holds as many bodies as it has entries has no empty entry.
pub proof fn lemma_held_full(window: Seq<Option<Chunk>>)
    requires
        held(window) == window.len(),
    ensures
        forall|i: int| 0 <= i < window.len() ==> window[i] is Some,
    decreases window.len(),
{
    if window.len() > 0 {
        lemma_held_bound(window.drop_last());
        lemma_held_full(window.drop_last());
        assert forall|i: int| 0 <= i < window.len() implies window[i] is Some by {
            if i < window.len() - 1 {
                assert(window.drop_last()[i] == window[i]);
            }
        }
    }
}

} // verus!
