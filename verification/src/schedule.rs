//! Rotation schedules: an ordered sequence of byte ordinals, each one a
//! cyclic rotation instruction.
//!
//! An even ordinal rotates the bit ring left by its value, an odd one
//! rotates right.  The inverse replay walks the schedule backwards with
//! every direction flipped.

use vstd::prelude::*;

use crate::bitarray::{rotl_spec, rotr_spec, lemma_rotate_roundtrip, BitArray};

verus! {

/// One forward instruction: an even ordinal rotates left, an odd one
/// rotates right.
pub open spec fn apply_ordinal(s: Seq<bool>, o: int) -> Seq<bool> {
    if o % 2 == 0 {
        rotl_spec(s, o)
    } else {
        rotr_spec(s, o)
    }
}

/// The inverse of one instruction: the opposite rotation by the same
/// ordinal.
pub open spec fn undo_ordinal(s: Seq<bool>, o: int) -> Seq<bool> {
    if o % 2 == 0 {
        rotr_spec(s, o)
    } else {
        rotl_spec(s, o)
    }
}

/// Apply a whole schedule, first instruction first.
pub open spec fn apply_schedule(s: Seq<bool>, ords: Seq<usize>) -> Seq<bool>
    decreases ords.len(),
{
    if ords.len() == 0 {
        s
    } else {
        apply_schedule(apply_ordinal(s, ords[0] as int), ords.drop_first())
    }
}

/// Undo a whole schedule: last instruction first, each direction flipped.
pub open spec fn undo_schedule(s: Seq<bool>, ords: Seq<usize>) -> Seq<bool>
    decreases ords.len(),
{
    if ords.len() == 0 {
        s
    } else {
        undo_schedule(undo_ordinal(s, ords.last() as int), ords.drop_last())
    }
}

/// Appending one instruction to a schedule applies it after the rest.
proof fn lemma_apply_schedule_push(s: Seq<bool>, ords: Seq<usize>, o: usize)
    ensures
        apply_schedule(s, ords.push(o)) == apply_ordinal(apply_schedule(s, ords), o as int),
    decreases ords.len(),
{
    reveal_with_fuel(apply_schedule, 3);
    if ords.len() == 0 {
        assert(ords.push(o).drop_first() =~= Seq::<usize>::empty());
        assert(ords.push(o)[0] == o);
    } else {
        assert(ords.push(o)[0] == ords[0]);
        assert(ords.push(o).drop_first() =~= ords.drop_first().push(o));
        lemma_apply_schedule_push(apply_ordinal(s, ords[0] as int), ords.drop_first(), o);
    }
}

/// Prepending one instruction to a schedule undoes it after the rest.
proof fn lemma_undo_schedule_cons(s: Seq<bool>, o: usize, ords: Seq<usize>)
    ensures
        undo_schedule(s, seq![o] + ords) == undo_ordinal(undo_schedule(s, ords), o as int),
    decreases ords.len(),
{
    reveal_with_fuel(undo_schedule, 3);
    let w = seq![o] + ords;
    if ords.len() == 0 {
        assert(w =~= seq![o]);
        assert(w.last() == o);
        assert(w.drop_last() =~= Seq::<usize>::empty());
    } else {
        assert(w.last() == ords.last());
        assert(w.drop_last() =~= seq![o] + ords.drop_last());
        lemma_undo_schedule_cons(undo_ordinal(s, ords.last() as int), o, ords.drop_last());
    }
}

/// Replaying a schedule in reverse order with inverted directions undoes
/// it exactly, whatever the schedule and whatever the bits.
pub proof fn lemma_schedule_roundtrip(s: Seq<bool>, ords: Seq<usize>)
    ensures
        undo_schedule(apply_schedule(s, ords), ords) == s,
    decreases ords.len(),
{
    if ords.len() > 0 {
        let o = ords.last();
        let rest = ords.drop_last();
        assert(ords =~= rest.push(o));
        lemma_apply_schedule_push(s, rest, o);
        lemma_rotate_roundtrip(apply_schedule(s, rest), o as int);
        assert(undo_ordinal(apply_ordinal(apply_schedule(s, rest), o as int), o as int)
            == apply_schedule(s, rest));
        lemma_schedule_roundtrip(s, rest);
    }
}

/// Apply every instruction of the schedule to the buffer, in order.
pub(crate) fn apply_all<const N: usize>(bits: &mut BitArray<N>, ords: &[usize])
    requires
        old(bits).wf(),
    ensures
        final(bits).wf(),
        final(bits).len_bits() == old(bits).len_bits(),
        final(bits).bits() == apply_schedule(old(bits).bits(), ords@),
{
    let ghost orig = old(bits).bits();
    let mut i: usize = 0;
    while i < ords.len()
        invariant
            0 <= i <= ords@.len(),
            bits.wf(),
            bits.len_bits() == old(bits).len_bits(),
            bits.bits() == apply_schedule(orig, ords@.take(i as int)),
        decreases ords@.len() - i,
    {
        let o = ords[i];
        if o % 2 == 0 {
            bits.rotate_left(o);
        } else {
            bits.rotate_right(o);
        }
        proof {
            lemma_apply_schedule_push(orig, ords@.take(i as int), o);
            assert(ords@.take(i as int).push(o) =~= ords@.take(i as int + 1));
        }
        i += 1;
    }
    proof {
        assert(ords@.take(ords@.len() as int) =~= ords@);
    }
}

/// Undo every instruction of the schedule: walk it backwards and flip
/// each direction.
pub(crate) fn undo_all<const N: usize>(bits: &mut BitArray<N>, ords: &[usize])
    requires
        old(bits).wf(),
    ensures
        final(bits).wf(),
        final(bits).len_bits() == old(bits).len_bits(),
        final(bits).bits() == undo_schedule(old(bits).bits(), ords@),
{
    let ghost orig = old(bits).bits();
    proof {
        assert(ords@.skip(ords@.len() as int) =~= Seq::<usize>::empty());
    }
    let mut j: usize = ords.len();
    while j > 0
        invariant
            0 <= j <= ords@.len(),
            bits.wf(),
            bits.len_bits() == old(bits).len_bits(),
            bits.bits() == undo_schedule(orig, ords@.skip(j as int)),
        decreases j,
    {
        let o = ords[j - 1];
        if o % 2 == 0 {
            bits.rotate_right(o);
        } else {
            bits.rotate_left(o);
        }
        proof {
            lemma_undo_schedule_cons(orig, o, ords@.skip(j as int));
            assert(seq![o] + ords@.skip(j as int) =~= ords@.skip(j as int - 1));
        }
        j -= 1;
    }
    proof {
        assert(ords@.skip(0) =~= ords@);
    }
}

} // verus!
