//! The header of a clause that is stored inline: one word that packs the
//! LBD, in the low 29 bits, with three flags above it, and the number of
//! literals.

use bitfield::Bit;
use bitfield::BitMut;
use bitfield::BitRange;
use bitfield::BitRangeMut;
use vstd::prelude::*;

verus! {

/// A literal, as its code.
#[derive(Clone, Copy, Debug, PartialEq, Eq, Hash, Structural)]
pub struct Literal {
    pub code: u32,
}

impl Literal {
    pub fn u32_to_literal(code: u32) -> (r: Literal)
        ensures
            r.code == code,
    {
        Literal { code }
    }

    pub fn to_u32(&self) -> (r: u32)
        ensures
            r == self.code,
    {
        self.code
    }
}

pub struct ClauseInlined {
    lbd_and_flags: u32,
    num_literals: u32,
}

/// The word with ones at the bits `lsb` to `msb`.
pub open spec fn field_mask(msb: u32, lsb: u32) -> u32 {
    (0xffff_ffffu32 >> ((31 - msb) as u32)) & (0xffff_ffffu32 << lsb)
}

/// bitfield's `Bit::bit` on a `u32`: whether bit `index` is set.
#[verifier::external_body]
fn bit(word: u32, index: usize) -> (r: bool)
    requires
        index < 32,
    ensures
        r == ((word >> (index as u32)) & 1 == 1),
{
    word.bit(index)
}

/// bitfield's `BitMut::set_bit` on a `u32`: bit `index` becomes `value`,
/// the others stay.
#[verifier::external_body]
fn set_bit(word: &mut u32, index: usize, value: bool)
    requires
        index < 32,
    ensures
        *final(word) == if value {
            *old(word) | (1u32 << (index as u32))
        } else {
            *old(word) & !(1u32 << (index as u32))
        },
{
    word.set_bit(index, value);
}

/// bitfield's `BitRange::bit_range` from a `u32` to a `u32`: the bits `lsb`
/// to `msb`, moved down to bit 0.
#[verifier::external_body]
fn bit_range(word: u32, msb: usize, lsb: usize) -> (r: u32)
    requires
        lsb <= msb < 32,
    ensures
        r == (word & field_mask(msb as u32, lsb as u32)) >> (lsb as u32),
{
    word.bit_range(msb, lsb)
}

/// bitfield's `BitRangeMut::set_bit_range` on a `u32` with a `u32`: the
/// bits `lsb` to `msb` become the low bits of `value`, the others stay.
#[verifier::external_body]
fn set_bit_range(word: &mut u32, msb: usize, lsb: usize, value: u32)
    requires
        lsb <= msb < 32,
    ensures
        *final(word) == (*old(word) & !field_mask(msb as u32, lsb as u32)) | ((value << (lsb as u32))
            & field_mask(msb as u32, lsb as u32)),
{
    word.set_bit_range(msb, lsb, value);
}

impl ClauseInlined {
    pub fn bit_protected_against_deletion() -> (r: usize)
        ensures
            r == 31,
    {
        31
    }

    pub fn bit_deleted() -> (r: usize)
        ensures
            r == 30,
    {
        30
    }

    pub fn bit_learned() -> (r: usize)
        ensures
            r == 29,
    {
        29
    }

    pub fn bit_lbd_most_significant() -> (r: usize)
        ensures
            r == 28,
    {
        28
    }

    pub closed spec fn spec_is_learned(&self) -> bool {
        (self.lbd_and_flags >> 29u32) & 1 == 1
    }

    pub closed spec fn spec_is_deleted(&self) -> bool {
        (self.lbd_and_flags >> 30u32) & 1 == 1
    }

    pub closed spec fn spec_is_protected_against_deletion(&self) -> bool {
        (self.lbd_and_flags >> 31u32) & 1 == 1
    }

    pub closed spec fn spec_lbd(&self) -> u32 {
        self.lbd_and_flags & 0x1fff_ffffu32
    }

    pub closed spec fn spec_len(&self) -> u32 {
        self.num_literals
    }

    /// The header of a fresh clause of `num_literals` literals: its LBD is
    /// the number of literals, and of the flags only `learned` may be set.
    pub fn new(num_literals: u32, is_learned: bool) -> (r: ClauseInlined)
        requires
            num_literals < 0x2000_0000,
        ensures
            r.spec_len() == num_literals,
            r.spec_lbd() == num_literals,
            r.spec_is_learned() == is_learned,
            !r.spec_is_deleted(),
            !r.spec_is_protected_against_deletion(),
    {
        let mut clause = ClauseInlined { lbd_and_flags: 0, num_literals };
        clause.update_lbd(num_literals);
        clause.clear_flags();
        if is_learned {
            clause.mark_learned();
        }
        clause
    }

    pub fn len(&self) -> (r: u32)
        ensures
            r == self.spec_len(),
    {
        self.num_literals
    }

    pub fn is_learned(&self) -> (r: bool)
        ensures
            r == self.spec_is_learned(),
    {
        bit(self.lbd_and_flags, ClauseInlined::bit_learned())
    }

    pub fn is_protected_against_deletion(&self) -> (r: bool)
        ensures
            r == self.spec_is_protected_against_deletion(),
    {
        bit(self.lbd_and_flags, ClauseInlined::bit_protected_against_deletion())
    }

    pub fn is_deleted(&self) -> (r: bool)
        ensures
            r == self.spec_is_deleted(),
    {
        bit(self.lbd_and_flags, ClauseInlined::bit_deleted())
    }

    pub fn get_lbd(&self) -> (r: u32)
        ensures
            r == self.spec_lbd(),
    {
        let word = self.lbd_and_flags;
        assert((word & field_mask(28, 0)) >> 0u32 == word & 0x1fff_ffffu32) by (bit_vector);
        bit_range(self.lbd_and_flags, ClauseInlined::bit_lbd_most_significant(), 0)
    }

    pub fn mark_deleted(&mut self)
        requires
            !old(self).spec_is_deleted(),
        ensures
            final(self).spec_is_deleted(),
            final(self).spec_is_learned() == old(self).spec_is_learned(),
            final(self).spec_is_protected_against_deletion() == old(self).spec_is_protected_against_deletion(),
            final(self).spec_lbd() == old(self).spec_lbd(),
            final(self).spec_len() == old(self).spec_len(),
    {
        let ghost word = self.lbd_and_flags;
        assert({
            let set = word | (1u32 << 30u32);
            &&& (set >> 30u32) & 1 == 1
            &&& (set >> 29u32) & 1 == (word >> 29u32) & 1
            &&& (set >> 31u32) & 1 == (word >> 31u32) & 1
            &&& set & 0x1fff_ffffu32 == word & 0x1fff_ffffu32
        }) by (bit_vector);
        set_bit(&mut self.lbd_and_flags, ClauseInlined::bit_deleted(), true);
    }

    pub fn mark_protection_against_deletion(&mut self)
        ensures
            final(self).spec_is_protected_against_deletion(),
            final(self).spec_is_learned() == old(self).spec_is_learned(),
            final(self).spec_is_deleted() == old(self).spec_is_deleted(),
            final(self).spec_lbd() == old(self).spec_lbd(),
            final(self).spec_len() == old(self).spec_len(),
    {
        let ghost word = self.lbd_and_flags;
        assert({
            let set = word | (1u32 << 31u32);
            &&& (set >> 31u32) & 1 == 1
            &&& (set >> 29u32) & 1 == (word >> 29u32) & 1
            &&& (set >> 30u32) & 1 == (word >> 30u32) & 1
            &&& set & 0x1fff_ffffu32 == word & 0x1fff_ffffu32
        }) by (bit_vector);
        set_bit(&mut self.lbd_and_flags, ClauseInlined::bit_protected_against_deletion(), true);
    }

    pub fn clear_protection_against_deletion(&mut self)
        ensures
            !final(self).spec_is_protected_against_deletion(),
            final(self).spec_is_learned() == old(self).spec_is_learned(),
            final(self).spec_is_deleted() == old(self).spec_is_deleted(),
            final(self).spec_lbd() == old(self).spec_lbd(),
            final(self).spec_len() == old(self).spec_len(),
    {
        let ghost word = self.lbd_and_flags;
        assert({
            let cleared = word & !(1u32 << 31u32);
            &&& (cleared >> 31u32) & 1 == 0
            &&& (cleared >> 29u32) & 1 == (word >> 29u32) & 1
            &&& (cleared >> 30u32) & 1 == (word >> 30u32) & 1
            &&& cleared & 0x1fff_ffffu32 == word & 0x1fff_ffffu32
        }) by (bit_vector);
        set_bit(&mut self.lbd_and_flags, ClauseInlined::bit_protected_against_deletion(), false);
    }

    /// Sets the LBD, which must fit its 29 bits.
    pub fn update_lbd(&mut self, lbd: u32)
        requires
            lbd < 0x2000_0000,
        ensures
            final(self).spec_lbd() == lbd,
            final(self).spec_is_learned() == old(self).spec_is_learned(),
            final(self).spec_is_deleted() == old(self).spec_is_deleted(),
            final(self).spec_is_protected_against_deletion() == old(self).spec_is_protected_against_deletion(),
            final(self).spec_len() == old(self).spec_len(),
    {
        let ghost word = self.lbd_and_flags;
        assert(lbd < 0x2000_0000 ==> {
            let set = (word & !field_mask(28, 0)) | ((lbd << 0u32) & field_mask(28, 0));
            &&& set & 0x1fff_ffffu32 == lbd
            &&& (set >> 29u32) & 1 == (word >> 29u32) & 1
            &&& (set >> 30u32) & 1 == (word >> 30u32) & 1
            &&& (set >> 31u32) & 1 == (word >> 31u32) & 1
        }) by (bit_vector);
        set_bit_range(&mut self.lbd_and_flags, ClauseInlined::bit_lbd_most_significant(), 0, lbd);
    }

    pub fn mark_learned(&mut self)
        ensures
            final(self).spec_is_learned(),
            final(self).spec_is_deleted() == old(self).spec_is_deleted(),
            final(self).spec_is_protected_against_deletion() == old(self).spec_is_protected_against_deletion(),
            final(self).spec_lbd() == old(self).spec_lbd(),
            final(self).spec_len() == old(self).spec_len(),
    {
        let ghost word = self.lbd_and_flags;
        assert({
            let set = word | (1u32 << 29u32);
            &&& (set >> 29u32) & 1 == 1
            &&& (set >> 30u32) & 1 == (word >> 30u32) & 1
            &&& (set >> 31u32) & 1 == (word >> 31u32) & 1
            &&& set & 0x1fff_ffffu32 == word & 0x1fff_ffffu32
        }) by (bit_vector);
        set_bit(&mut self.lbd_and_flags, ClauseInlined::bit_learned(), true);
    }

    /// Clears the three flags and leaves the LBD.
    pub fn clear_flags(&mut self)
        ensures
            !final(self).spec_is_learned(),
            !final(self).spec_is_deleted(),
            !final(self).spec_is_protected_against_deletion(),
            final(self).spec_lbd() == old(self).spec_lbd(),
            final(self).spec_len() == old(self).spec_len(),
    {
        let ghost word = self.lbd_and_flags;
        assert({
            let cleared = (word & !field_mask(31, 29)) | ((0u32 << 29u32) & field_mask(31, 29));
            &&& (cleared >> 29u32) & 1 == 0
            &&& (cleared >> 30u32) & 1 == 0
            &&& (cleared >> 31u32) & 1 == 0
            &&& cleared & 0x1fff_ffffu32 == word & 0x1fff_ffffu32
        }) by (bit_vector);
        set_bit_range(
            &mut self.lbd_and_flags,
            31,
            ClauseInlined::bit_lbd_most_significant() + 1,
            0,
        );
    }

    /// The number of 32-bit words that a clause takes in memory: one for
    /// LBD and flags, one for the number of literals, one for each literal,
    /// and one for the activity of a learned clause.
    pub fn num_u32s_required_for_clause(num_literals: u32, is_learned: bool) -> (r: u32)
        requires
            num_literals + 3 <= u32::MAX,
        ensures
            r == 2 + num_literals + if is_learned {
                1int
            } else {
                0int
            },
    {
        1 + 1 + num_literals + if is_learned {
            1
        } else {
            0
        }
    }
}

} // verus!
