//! Words on offer, read as the lanes of a narrower type.
use crate::arith::cong;
use vstd::prelude::*;

verus! {

/// The two halves of a word, the low half first.
pub open spec fn halves(word: i64, low: i32, high: i32) -> bool {
    &&& cong(low as int, word as int, 0x1_0000_0000)
    &&& high == (word as int) / 0x1_0000_0000
}

/// The lanes are the halves of the words, in one of the two orders.
pub open spec fn halved(words: Seq<i64>, lanes: Seq<i32>) -> bool {
    &&& lanes.len() == 2 * words.len()
    &&& {
        ||| forall|i: int|
            #![trigger words[i]]
            0 <= i < words.len() ==> halves(words[i], lanes[2 * i], lanes[2 * i + 1])
        ||| forall|i: int|
            #![trigger words[i]]
            0 <= i < words.len() ==> halves(words[i], lanes[2 * i + 1], lanes[2 * i])
    }
}

/// The four quarters of a word, the low quarter first.
pub open spec fn quarters(word: i128, a: i32, b: i32, c: i32, d: i32) -> bool {
    &&& cong(a as int, word as int, 0x1_0000_0000)
    &&& cong(b as int, (word as int) / 0x1_0000_0000, 0x1_0000_0000)
    &&& cong(c as int, (word as int) / 0x1_0000_0000_0000_0000, 0x1_0000_0000)
    &&& d == (word as int) / 0x1_0000_0000_0000_0000_0000_0000int
}

/// The lanes are the quarters of the words, in one of the two orders.
pub open spec fn quartered(words: Seq<i128>, lanes: Seq<i32>) -> bool {
    &&& lanes.len() == 4 * words.len()
    &&& {
        ||| forall|i: int|
            #![trigger words[i]]
            0 <= i < words.len() ==> quarters(
                words[i],
                lanes[4 * i],
                lanes[4 * i + 1],
                lanes[4 * i + 2],
                lanes[4 * i + 3],
            )
        ||| forall|i: int|
            #![trigger words[i]]
            0 <= i < words.len() ==> quarters(
                words[i],
                lanes[4 * i + 3],
                lanes[4 * i + 2],
                lanes[4 * i + 1],
                lanes[4 * i],
            )
    }
}

/// The lanes are the limbs of the words, read as signed numbers.
pub open spec fn limbed(words: Seq<[u64; 3]>, lanes: Seq<i64>) -> bool {
    &&& lanes.len() == 3 * words.len()
    &&& forall|i: int, t: int|
        #![trigger words[i][t]]
        0 <= i < words.len() && 0 <= t < 3 ==> cong(
            lanes[3 * i + t] as int,
            words[i][t] as int,
            0x1_0000_0000_0000_0000,
        )
}

/// `bytemuck::cast_slice_mut` from 64-bit to 32-bit words: the same bytes, so
/// twice as many lanes, the halves of each word in the byte order of the
/// machine. It panics only where the target is the more aligned type or the
/// bytes do not divide, neither of which these types allow.
#[verifier::external_body]
pub(crate) fn halve_words(words: &mut [i64]) -> (r: &mut [i32])
    ensures
        halved(old(words)@, r@),
        halved(final(words)@, final(r)@),
{
    bytemuck::cast_slice_mut::<i64, i32>(words)
}

/// `bytemuck::cast_slice_mut` from 128-bit to 32-bit words: the same bytes, so
/// four times as many lanes, the quarters of each word in the byte order of the
/// machine. It panics only where the target is the more aligned type or the
/// bytes do not divide, neither of which these types allow.
#[verifier::external_body]
pub(crate) fn quarter_words(words: &mut [i128]) -> (r: &mut [i32])
    ensures
        quartered(old(words)@, r@),
        quartered(final(words)@, final(r)@),
{
    bytemuck::cast_slice_mut::<i128, i32>(words)
}

/// `bytemuck::cast_slice_mut` from three-limb totals to 64-bit words: the same
/// bytes, so the limbs one after another. It panics only where the target is
/// the more aligned type or the bytes do not divide, neither of which these
/// types allow.
#[verifier::external_body]
pub(crate) fn limb_words(words: &mut [[u64; 3]]) -> (r: &mut [i64])
    ensures
        limbed(old(words)@, r@),
        limbed(final(words)@, final(r)@),
{
    bytemuck::cast_slice_mut::<[u64; 3], i64>(words)
}

} // verus!
