//! Rule-of-thirds layout of the 8192 output bits of a projection.
//!
//! Bits near the 1/3 and 2/3 boundaries of the bit range lie "on a line";
//! read as a 90 x 91 grid, bits near both a row third and a column third lie
//! at one of the four "power points".  The grid also gives the inner
//! rectangle between the thirds and the four quadrants of the radar layout;
//! the hexagonal cross combines six signs spaced a sixth of the range apart.
use vstd::prelude::*;
use crate::container::{Container, lemma_set_bit};
use crate::bits::bit;

verus! {

/// First third of the 8192-bit range.
pub const THIRD_1: usize = 2730;
/// Second third of the 8192-bit range.
pub const THIRD_2: usize = 5461;
/// Width of a thirds line in bits (half on each side of the boundary).
pub const LINE_WIDTH: usize = 256;

/// `|a - b|`.
pub open spec fn dist(a: int, b: int) -> int {
    if a >= b {
        a - b
    } else {
        b - a
    }
}

fn abs_diff(a: usize, b: usize) -> (r: usize)
    ensures
        r == dist(a as int, b as int),
{
    if a >= b {
        a - b
    } else {
        b - a
    }
}

/// Whether bit `bit_idx` lies within 128 bits of a thirds boundary.
pub fn on_thirds_line(bit_idx: usize) -> (r: bool)
    ensures
        r == (dist(bit_idx as int, 2730) < 128 || dist(bit_idx as int, 5461) < 128),
{
    let d1 = abs_diff(bit_idx, THIRD_1);
    let d2 = abs_diff(bit_idx, THIRD_2);
    d1 < LINE_WIDTH / 2 || d2 < LINE_WIDTH / 2
}

/// Whether bit `bit_idx`, read as row `bit_idx / 91` and column
/// `bit_idx % 91` of a 90 x 91 grid, lies within 4 rows of a row third
/// (30 or 60) and within 4 columns of a column third (30 or 60).
pub fn at_power_point(bit_idx: usize) -> (r: bool)
    ensures
        ({
            let row = bit_idx as int / 91;
            let col = bit_idx as int % 91;
            r == ((dist(row, 30) < 4 || dist(row, 60) < 4) && (dist(col, 30) < 4 || dist(col, 60) < 4))
        }),
{
    let cols: usize = 91;
    let row = bit_idx / cols;
    let col = bit_idx % cols;
    let rows: usize = 8192 / cols;
    let row_third_1 = rows / 3;
    let row_third_2 = rows * 2 / 3;
    let col_third_1 = cols / 3;
    let col_third_2 = cols * 2 / 3;
    let on_row_line = abs_diff(row, row_third_1) < 4 || abs_diff(row, row_third_2) < 4;
    let on_col_line = abs_diff(col, col_third_1) < 4 || abs_diff(col, col_third_2) < 4;
    on_row_line && on_col_line
}

/// Whether bit `bit_idx`, read on the 90 x 91 grid, lies in the inner
/// rectangle: rows 30 to 59 and columns 30 to 59.
pub fn in_inner_rectangle(bit_idx: usize) -> (r: bool)
    ensures
        ({
            let row = bit_idx as int / 91;
            let col = bit_idx as int % 91;
            r == (30 <= row < 60 && 30 <= col < 60)
        }),
{
    let cols: usize = 91;
    let rows: usize = 8192 / cols;
    let row = bit_idx / cols;
    let col = bit_idx % cols;
    row >= rows / 3 && row < rows * 2 / 3 && col >= cols / 3 && col < cols * 2 / 3
}

/// Radar quadrant of grid cell (`row`, `col`): 0 top left, 1 top right,
/// 2 bottom left, 3 bottom right (the midlines are row 45 and column 45).
pub open spec fn quadrant(row: int, col: int) -> int {
    if row < 45 {
        if col < 45 { 0 } else { 1 }
    } else {
        if col < 45 { 2 } else { 3 }
    }
}

/// Seeds that take part in radar bit `bit_idx`, as a 4-bit mask (bit `q`
/// for the seed of quadrant `q`): all four within 3 of both midlines, the
/// two quadrants on either side of a midline within 3 of it, and the
/// bit's own quadrant elsewhere.  The bit is the exclusive or of the signs
/// of the masked seeds.
pub open spec fn radar_mask_spec(bit_idx: int) -> u8 {
    let row = bit_idx / 91;
    let col = bit_idx % 91;
    let on_row = dist(row, 45) < 3;
    let on_col = dist(col, 45) < 3;
    if on_row && on_col {
        15u8
    } else if on_row {
        if col < 45 { 5u8 } else { 10u8 }
    } else if on_col {
        if row < 45 { 3u8 } else { 12u8 }
    } else {
        if quadrant(row, col) == 0 { 1u8 } else if quadrant(row, col) == 1 { 2u8 } else if quadrant(row, col)
            == 2 { 4u8 } else { 8u8 }
    }
}

/// Seed mask of radar bit `bit_idx` (see `radar_mask_spec`).
pub fn radar_mask(bit_idx: usize) -> (r: u8)
    ensures
        r == radar_mask_spec(bit_idx as int),
{
    let cols: usize = 91;
    let rows: usize = 8192 / cols;
    let row_mid = rows / 2;
    let col_mid = cols / 2;
    let row = bit_idx / cols;
    let col = bit_idx % cols;
    let q: u8 = if row < row_mid {
        if col < col_mid { 1 } else { 2 }
    } else {
        if col < col_mid { 4 } else { 8 }
    };
    let on_row_boundary = abs_diff(row, row_mid) < 3;
    let on_col_boundary = abs_diff(col, col_mid) < 3;
    if on_row_boundary && on_col_boundary {
        15
    } else if on_row_boundary {
        let q_top: u8 = if col < col_mid { 1 } else { 2 };
        let q_bot: u8 = if col < col_mid { 4 } else { 8 };
        proof {
            assert(1u8 | 4u8 == 5u8) by (bit_vector);
            assert(2u8 | 8u8 == 10u8) by (bit_vector);
        }
        q_top | q_bot
    } else if on_col_boundary {
        let q_left: u8 = if row < row_mid { 1 } else { 4 };
        let q_right: u8 = if row < row_mid { 2 } else { 8 };
        proof {
            assert(1u8 | 2u8 == 3u8) by (bit_vector);
            assert(4u8 | 8u8 == 12u8) by (bit_vector);
        }
        q_left | q_right
    } else {
        q
    }
}

/// Output bit `i` of the hexagonal cross: at least four of the six signs
/// at `i + 1365 * a` (modulo 8192, `a` from 0 to 5) are positive.
pub open spec fn hex_bit(signs: Seq<bool>, i: int) -> bool {
    (if signs[i % 8192] { 1int } else { 0 }) + (if signs[(i + 1365) % 8192] { 1int } else { 0 }) + (if signs[(i
        + 2730) % 8192] { 1int } else { 0 }) + (if signs[(i + 4095) % 8192] { 1int } else { 0 }) + (if signs[(i
        + 5460) % 8192] { 1int } else { 0 }) + (if signs[(i + 6825) % 8192] { 1int } else { 0 }) >= 4
}

/// Arm `a` (0 to 5) of the hexagonal cross of output bit `i`: the sign
/// at `i + 1365 a`, modulo 8192.
pub open spec fn hex_arm(signs: Seq<bool>, i: int, a: int) -> bool {
    signs[(i + 1365 * a) % 8192]
}

/// The hexagonal vote reads six arms spaced 1365 apart: an output bit
/// with four positive arms is set, and one whose positive arms are among
/// some three arms is clear.
pub proof fn lemma_hex_majority(signs: Seq<bool>, i: int)
    ensures
        forall|a1: int, a2: int, a3: int, a4: int|
            0 <= a1 < a2 < a3 < a4 < 6 && #[trigger] hex_arm(signs, i, a1) && #[trigger] hex_arm(signs, i, a2)
                && #[trigger] hex_arm(signs, i, a3) && #[trigger] hex_arm(signs, i, a4) ==> hex_bit(signs, i),
        forall|a1: int, a2: int, a3: int|
            #![trigger hex_arm(signs, i, a1), hex_arm(signs, i, a2), hex_arm(signs, i, a3)]
            0 <= a1 < a2 < a3 < 6 && (forall|a: int|
                0 <= a < 6 && a != a1 && a != a2 && a != a3 ==> !#[trigger] hex_arm(signs, i, a)) ==> !hex_bit(
                signs,
                i,
            ),
{
    assert(hex_arm(signs, i, 0) == signs[i % 8192]);
    assert(hex_arm(signs, i, 1) == signs[(i + 1365) % 8192]);
    assert(hex_arm(signs, i, 2) == signs[(i + 2730) % 8192]);
    assert(hex_arm(signs, i, 3) == signs[(i + 4095) % 8192]);
    assert(hex_arm(signs, i, 4) == signs[(i + 5460) % 8192]);
    assert(hex_arm(signs, i, 5) == signs[(i + 6825) % 8192]);
}

/// Combine 8192 hyperplane signs into a container by six-arm (60 degree)
/// majority: a bit is set when at least four of its six arms agree on a
/// positive sign.
pub fn hex_cross_combine(signs: &[bool]) -> (r: Container)
    requires
        signs@.len() == 8192,
    ensures
        forall|w: int, b: nat|
            0 <= w < 128 && b < 64 ==> #[trigger] bit(r.words@[w], b) == if hex_bit(signs@, 64 * w + b) {
                1nat
            } else {
                0nat
            },
{
    let total: usize = 8192;
    let arm: usize = 1365;
    let mut result = Container::zero();
    for word_idx in 0..128usize
        invariant
            signs@.len() == 8192,
            total == 8192,
            arm == 1365,
            forall|v: int, b: nat|
                0 <= v < word_idx && b < 64 ==> #[trigger] bit(result.words@[v], b) == if hex_bit(
                    signs@,
                    64 * v + b,
                ) {
                    1nat
                } else {
                    0nat
                },
    {
        let mut word: u64 = 0;
        proof {
            assert forall|c: nat| c < 64 implies #[trigger] bit(0u64, c) == 0 by {
                let s = c as u64;
                assert((0u64 >> s) & 1u64 == 0u64) by (bit_vector);
            }
        }
        for b in 0..64u64
            invariant
                signs@.len() == 8192,
                total == 8192,
                arm == 1365,
                word_idx < 128,
                forall|c: nat| c < b ==> #[trigger] bit(word, c) == if hex_bit(signs@, 64 * word_idx + c) {
                    1nat
                } else {
                    0nat
                },
                forall|c: nat| b <= c < 64 ==> #[trigger] bit(word, c) == 0,
        {
            let i = word_idx * 64 + b as usize;
            let s0 = signs[i];
            let s1 = signs[(i + arm) % total];
            let s2 = signs[(i + 2 * arm) % total];
            let s3 = signs[(i + 3 * arm) % total];
            let s4 = signs[(i + 4 * arm) % total];
            let s5 = signs[(i + 5 * arm) % total];
            let count: u8 = (s0 as u8) + (s1 as u8) + (s2 as u8) + (s3 as u8) + (s4 as u8) + (s5 as u8);
            let set = count >= 4;
            proof {
                assert(i % 8192 == i);
                assert(set == hex_bit(signs@, 64 * word_idx + b));
            }
            let old_word = word;
            if set {
                word = word | (1u64 << b);
            }
            proof {
                assert forall|c: nat| c < b + 1 implies #[trigger] bit(word, c) == if hex_bit(
                    signs@,
                    64 * word_idx + c,
                ) {
                    1nat
                } else {
                    0nat
                } by {
                    if set {
                        lemma_set_bit(old_word, b, c as u64);
                    }
                }
                assert forall|c: nat| b + 1 <= c < 64 implies #[trigger] bit(word, c) == 0 by {
                    if set {
                        lemma_set_bit(old_word, b, c as u64);
                    }
                }
            }
        }
        result.words[word_idx] = word;
    }
    result
}

} // verus!
