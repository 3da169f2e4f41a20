//! The barcode that tells which frame is on the screen.
//!
//! The strip has sixteen cells and shows the Gray code of the frame's index,
//! modulo the number of patterns that sixteen cells can show.
use vstd::arithmetic::power2::*;
use vstd::bits::*;
use vstd::prelude::*;

verus! {

/// How many cells the strip has.
pub const CELLS: u32 = 16;

/// How many patterns the strip can show.
pub const PATTERNS: u32 = 0x1_0000;

/// The Gray code of `v`.
pub open spec fn gray_code(v: u32) -> u32 {
    v ^ (v >> 1)
}

/// The pattern of the frame with the given index.
pub open spec fn pattern(present_index: u32) -> u32 {
    gray_code(present_index % PATTERNS)
}

/// Whether a cell of a pattern is white.
pub open spec fn is_white(code: u32, cell: u32) -> bool {
    (code >> cell) & 1 == 1
}

/// The index of the frame after the one with index `i`.
pub open spec fn next_index(i: u32) -> u32 {
    if i == u32::MAX {
        0
    } else {
        (i + 1) as u32
    }
}

/// The Gray code of `v`: consecutive numbers differ in one bit.
pub fn gray(v: u32) -> (code: u32)
    ensures
        code == gray_code(v),
{
    v ^ (v >> 1)
}

/// The pattern of the frame with the given index.
pub fn barcode(present_index: u32) -> (code: u32)
    ensures
        code == pattern(present_index),
        code < PATTERNS,
{
    proof {
        lemma_pattern_fits(present_index);
    }
    gray(present_index % PATTERNS)
}

/// Whether a cell of a pattern is white.
pub fn cell_is_white(code: u32, cell: u32) -> (white: bool)
    requires
        cell < CELLS,
    ensures
        white == is_white(code, cell),
{
    (code >> cell) & 1 == 1
}

proof fn lemma_pattern_fits(i: u32)
    ensures
        pattern(i) < PATTERNS,
{
    let v = i % PATTERNS;
    assert(v < 0x1_0000u32 ==> v ^ (v >> 1) < 0x1_0000u32) by (bit_vector);
}

/// The patterns of two consecutive frames differ in a single bit.
proof fn lemma_consecutive_difference(i: u32) -> (cell: u32)
    ensures
        cell < CELLS,
        pattern(i) ^ pattern(next_index(i)) == 1u32 << cell,
{
    let v = i % PATTERNS;
    let w = next_index(i) % PATTERNS;
    let d = (v ^ (v >> 1)) ^ (w ^ (w >> 1));
    assert(w == if v == 0xffff { 0 } else { v + 1 });
    assert(d != 0 && d & ((d - 1) as u32) == 0 && d < 0x1_0000u32) by (bit_vector)
        requires
            v < 0x1_0000u32,
            v == 0xffffu32 ==> w == 0,
            v != 0xffffu32 ==> w == v + 1,
            d == (v ^ (v >> 1)) ^ (w ^ (w >> 1)),
    ;
    lemma_single_bit(d)
}

/// A number with a single bit set is a power of two.
proof fn lemma_single_bit(d: u32) -> (cell: u32)
    requires
        d != 0,
        d & ((d - 1) as u32) == 0,
        d < PATTERNS,
    ensures
        cell < CELLS,
        d == 1u32 << cell,
{
    assert(d == 1u32 << 0 || d == 1u32 << 1 || d == 1u32 << 2 || d == 1u32 << 3 || d == 1u32 << 4
        || d == 1u32 << 5 || d == 1u32 << 6 || d == 1u32 << 7 || d == 1u32 << 8 || d == 1u32 << 9
        || d == 1u32 << 10 || d == 1u32 << 11 || d == 1u32 << 12 || d == 1u32 << 13 || d == 1u32
        << 14 || d == 1u32 << 15) by (bit_vector)
        requires
            d != 0,
            d & ((d - 1) as u32) == 0,
            d < 0x1_0000u32,
    ;
    choose|cell: u32| #![trigger 1u32 << cell] cell < CELLS && d == 1u32 << cell
}

/// Two patterns differ in the given cell and in no other.
pub open spec fn differ_only_in(a: u32, b: u32, cell: u32) -> bool {
    forall|k: u32|
        #![trigger is_white(a, k)]
        k < CELLS ==> (is_white(a, k) != is_white(b, k) <==> k == cell)
}

/// One cell changes from each frame to the next, also where the index wraps.
pub proof fn law_one_cell_changes(i: u32)
    ensures
        exists|cell: u32|
            cell < CELLS && #[trigger] differ_only_in(pattern(i), pattern(next_index(i)), cell),
{
    let cell = lemma_consecutive_difference(i);
    let a = pattern(i);
    let b = pattern(next_index(i));
    assert forall|k: u32| #![trigger is_white(a, k)] k < CELLS implies (is_white(a, k) != is_white(
        b,
        k,
    ) <==> k == cell) by {
        assert(((a >> k) & 1 == 1) != ((b >> k) & 1 == 1) <==> k == cell) by (bit_vector)
            requires
                k < 16,
                cell < 16,
                a ^ b == 1u32 << cell,
        ;
    }
    assert(differ_only_in(a, b, cell));
}

/// A strip that is caught while it changes, some cells still showing one frame
/// and some already the next, reads as one of the two frames.
pub proof fn law_torn_strip_is_one_of_two(i: u32, seen: u32)
    requires
        seen < PATTERNS,
        forall|k: u32|
            #![trigger is_white(seen, k)]
            k < CELLS ==> is_white(seen, k) == is_white(pattern(i), k) || is_white(seen, k)
                == is_white(pattern(next_index(i)), k),
    ensures
        seen == pattern(i) || seen == pattern(next_index(i)),
{
    let cell = lemma_consecutive_difference(i);
    let a = pattern(i);
    let b = pattern(next_index(i));
    lemma_pattern_fits(i);
    lemma_pattern_fits(next_index(i));
    let target = if is_white(seen, cell) == is_white(a, cell) {
        a
    } else {
        b
    };
    assert forall|k: u32| #![trigger is_white(seen, k)] k < CELLS implies is_white(seen, k)
        == is_white(target, k) by {
        if k != cell {
            assert(((a >> k) & 1 == 1) == ((b >> k) & 1 == 1)) by (bit_vector)
                requires
                    k < 16,
                    cell < 16,
                    k != cell,
                    a ^ b == 1u32 << cell,
            ;
        }
    }
    lemma_cells_determine(seen, target);
}

/// Two patterns with the same cells are the same pattern.
proof fn lemma_cells_determine(a: u32, b: u32)
    requires
        a < PATTERNS,
        b < PATTERNS,
        forall|k: u32|
            #![trigger is_white(a, k)]
            k < CELLS ==> is_white(a, k) == is_white(b, k),
    ensures
        a == b,
{
    if a != b {
        let d = a ^ b;
        assert(d != 0) by (bit_vector)
            requires
                a != b,
                d == a ^ b,
        ;
        let low = d & (!((d - 1) as u32));
        assert(low != 0 && low & ((low - 1) as u32) == 0 && low < 0x1_0000u32) by (bit_vector)
            requires
                a < 0x1_0000u32,
                b < 0x1_0000u32,
                a != b,
                d == a ^ b,
                low == d & (!((d - 1) as u32)),
        ;
        let k = lemma_single_bit(low);
        assert(is_white(a, k) == is_white(b, k));
        assert(((a >> k) & 1 == 1) != ((b >> k) & 1 == 1)) by (bit_vector)
            requires
                k < 16,
                d == a ^ b,
                d != 0,
                low == d & (!((d - 1) as u32)),
                low == 1u32 << k,
        ;
    }
}

/// A pattern belongs to one index only, modulo the number of patterns.
pub proof fn law_pattern_identifies_index(i: u32, j: u32)
    ensures
        pattern(i) == pattern(j) <==> i % PATTERNS == j % PATTERNS,
{
    let v = i % PATTERNS;
    let w = j % PATTERNS;
    assert(v < 0x1_0000u32 && w < 0x1_0000u32 && v ^ (v >> 1) == w ^ (w >> 1) ==> v == w)
        by (bit_vector);
}

/// Of as many frames in a row as there are patterns, no two show the same one,
/// also where the index wraps: a pattern that was seen tells which of them it
/// was.
pub proof fn law_patterns_do_not_repeat(i: u32, later: u32)
    requires
        0 < later < PATTERNS,
    ensures
        pattern(i) != pattern(((i + later) % 0x1_0000_0000) as u32),
{
    law_pattern_identifies_index(i, ((i + later) % 0x1_0000_0000) as u32);
}

/// Cell `cell` of a pattern is white where the bit of that weight is set.
pub proof fn law_cell_shows_bit(code: u32, cell: u32)
    requires
        cell < 32,
    ensures
        is_white(code, cell) <==> (code as nat / pow2(cell as nat)) % 2 == 1,
{
    lemma_u32_shr_is_div(code, cell);
    let shifted = code >> cell;
    assert(shifted & 1 == shifted % 2) by (bit_vector);
}

/// A bit of the Gray code of a number tells whether the bits of that weight and
/// of the next weight differ in the number.
pub proof fn law_gray_code_compares_bits(v: u32, k: nat)
    requires
        k < 32,
    ensures
        (gray_code(v) as nat / pow2(k)) % 2 == (v as nat / pow2(k) + v as nat / pow2(k + 1)) % 2,
{
    let bit = k as u32;
    let code = gray_code(v);
    lemma_u32_shr_is_div(code, bit);
    lemma_u32_shr_is_div(v, bit);
    lemma_pow2_pos(k);
    lemma_pow2_unfold(k + 1);
    vstd::arithmetic::div_mod::lemma_div_denominator(v as int, pow2(k) as int, 2);
    assert(pow2(k) * 2 == pow2(k + 1));
    assert((code >> bit) % 2 == ((v >> bit) + (v >> bit) / 2) % 2) by (bit_vector)
        requires
            bit < 32,
            code == v ^ (v >> 1),
    ;
}

/// The strip shows the Gray code of the index modulo the number of patterns: bit
/// by bit as above, and nothing beyond its sixteen cells.
pub proof fn law_pattern_is_gray_code_of_index(i: u32, k: nat)
    requires
        k < 16,
    ensures
        pattern(i) < 0x1_0000,
        ({
            let m = i as nat % 0x1_0000;
            (pattern(i) as nat / pow2(k)) % 2 == (m / pow2(k) + m / pow2(k + 1)) % 2
        }),
{
    lemma_pattern_fits(i);
    law_gray_code_compares_bits(i % PATTERNS, k);
}

/// Indices count up and wrap.
pub proof fn law_index_counts_up(i: u32)
    ensures
        next_index(i) == (i + 1) % 0x1_0000_0000,
{
}

} // verus!
