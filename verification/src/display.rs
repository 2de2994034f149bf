//! The monochrome frame buffer: a width x height grid of 1-bit cells with
//! XOR sprite-row blitting and row/column wraparound.

use vstd::prelude::*;
use vstd::arithmetic::div_mod::{lemma_fundamental_div_mod, lemma_mod_bound};

verus! {

/// Mathematical model of a frame buffer: its dimensions and its cells in
/// row-major order.
#[verifier::ext_equal]
pub struct DispV {
    pub width: nat,
    pub height: nat,
    pub screen: Seq<u8>,
}

/// A frame buffer is well formed when both dimensions are positive, the cell
/// sequence covers the whole grid, and every cell is 0 or 1.
pub open spec fn disp_wf(d: DispV) -> bool {
    &&& d.width > 0
    &&& d.height > 0
    &&& d.screen.len() == d.width * d.height
    &&& forall|k: int| 0 <= k < d.screen.len() ==> d.screen[k] <= 1
}

/// The frame buffer after clearing: same dimensions, every cell zero.
pub open spec fn clear_spec(d: DispV) -> DispV {
    DispV { screen: Seq::new(d.screen.len(), |k: int| 0u8), ..d }
}

/// The sprite bit at offset `b`, most-significant first: bit 7 - `b` of the
/// sprite byte.
pub open spec fn sprite_bit(byte: u8, b: int) -> u8 {
    (byte >> ((7 - b) as u8)) & 1
}

/// The row-major cell index hit by bit offset `b` of a sprite row drawn at
/// `(x, y)`: the row wraps modulo the height, the column modulo the width.
pub open spec fn cell_at(w: nat, h: nat, x: u8, y: u8, b: int) -> int {
    ((y as int) % (h as int)) * (w as int) + ((x as int) + b) % (w as int)
}

/// Outcome of blitting a sprite row: the new cells, and whether any cell
/// went from set to unset.
#[verifier::ext_equal]
pub struct RowDraw {
    pub screen: Seq<u8>,
    pub unset: bool,
}

/// Blitting the first `n` bits of a sprite row, most-significant first: each
/// bit is XORed into its wrapped target cell, and the flag records whether
/// any cell went from 1 to 0.
pub open spec fn draw_row_spec(s: Seq<u8>, w: nat, h: nat, x: u8, y: u8, byte: u8, n: int) -> RowDraw
    decreases n,
{
    if n <= 0 {
        RowDraw { screen: s, unset: false }
    } else {
        let prev = draw_row_spec(s, w, h, x, y, byte, n - 1);
        let tgt = cell_at(w, h, x, y, n - 1);
        let bit = sprite_bit(byte, n - 1);
        let v = prev.screen[tgt] ^ bit;
        RowDraw {
            screen: prev.screen.update(tgt, v),
            unset: prev.unset || (prev.screen[tgt] == 1 && v == 0),
        }
    }
}

/// Whether drawing this sprite row on `s` turns some cell on: a 1 bit of the
/// sprite lands on a cell that is 0.
pub open spec fn row_turns_on(s: Seq<u8>, w: nat, h: nat, x: u8, y: u8, byte: u8) -> bool {
    exists|b: int|
        0 <= b < 8 && sprite_bit(byte, b) == 1 && s[cell_at(w, h, x, y, b)] == 0
}

/// The XOR of the sprite bits among the first `n` that land on cell `idx`.
spec fn mask_upto(w: nat, h: nat, x: u8, y: u8, byte: u8, n: int, idx: int) -> u8
    decreases n,
{
    if n <= 0 {
        0u8
    } else {
        mask_upto(w, h, x, y, byte, n - 1, idx) ^ (if cell_at(w, h, x, y, n - 1) == idx {
            sprite_bit(byte, n - 1)
        } else {
            0u8
        })
    }
}

proof fn lemma_sprite_bit01(byte: u8, b: int)
    ensures
        sprite_bit(byte, b) <= 1,
{
    let sh = (7 - b) as u8;
    assert((byte >> sh) & 1 <= 1) by (bit_vector);
}

proof fn lemma_cell_at_bound(w: nat, h: nat, x: u8, y: u8, b: int)
    requires
        w >= 1,
        h >= 1,
        0 <= b,
    ensures
        0 <= cell_at(w, h, x, y, b) < w * h,
{
    lemma_mod_bound(y as int, h as int);
    lemma_mod_bound(x as int + b, w as int);
    let row = (y as int) % (h as int);
    let col = ((x as int) + b) % (w as int);
    assert(0 <= row * (w as int) + col < (w as int) * (h as int)) by (nonlinear_arith)
        requires
            0 <= row < h as int,
            0 <= col < w as int,
            w >= 1,
            h >= 1,
    ;
}

proof fn lemma_draw_row_len(s: Seq<u8>, w: nat, h: nat, x: u8, y: u8, byte: u8, n: int)
    requires
        w >= 1,
        h >= 1,
        s.len() == w * h,
        0 <= n,
    ensures
        draw_row_spec(s, w, h, x, y, byte, n).screen.len() == s.len(),
    decreases n,
{
    if n > 0 {
        lemma_draw_row_len(s, w, h, x, y, byte, n - 1);
        lemma_cell_at_bound(w, h, x, y, n - 1);
    }
}

proof fn lemma_draw_row_cells(s: Seq<u8>, w: nat, h: nat, x: u8, y: u8, byte: u8, n: int, idx: int)
    requires
        w >= 1,
        h >= 1,
        s.len() == w * h,
        0 <= n <= 8,
        0 <= idx < s.len(),
    ensures
        draw_row_spec(s, w, h, x, y, byte, n).screen[idx] == s[idx] ^ mask_upto(
            w,
            h,
            x,
            y,
            byte,
            n,
            idx,
        ),
    decreases n,
{
    let a = s[idx];
    if n == 0 {
        assert(a ^ 0 == a) by (bit_vector);
    } else {
        lemma_draw_row_cells(s, w, h, x, y, byte, n - 1, idx);
        lemma_draw_row_len(s, w, h, x, y, byte, n - 1);
        lemma_cell_at_bound(w, h, x, y, n - 1);
        let tgt = cell_at(w, h, x, y, n - 1);
        let bit = sprite_bit(byte, n - 1);
        let m0 = mask_upto(w, h, x, y, byte, n - 1, idx);
        if tgt == idx {
            assert((a ^ m0) ^ bit == a ^ (m0 ^ bit)) by (bit_vector);
        } else {
            assert(a ^ (m0 ^ 0) == a ^ m0) by (bit_vector);
        }
    }
}

proof fn lemma_cells_distinct(w: nat, h: nat, x: u8, y: u8, b1: int, b2: int)
    requires
        8 <= w,
        h >= 1,
        0 <= b1 < 8,
        0 <= b2 < 8,
        b1 != b2,
    ensures
        cell_at(w, h, x, y, b1) != cell_at(w, h, x, y, b2),
{
    let wi = w as int;
    let a1 = x as int + b1;
    let a2 = x as int + b2;
    lemma_mod_bound(a1, wi);
    lemma_mod_bound(a2, wi);
    lemma_fundamental_div_mod(a1, wi);
    lemma_fundamental_div_mod(a2, wi);
    if a1 % wi == a2 % wi {
        let d1 = a1 / wi;
        let d2 = a2 / wi;
        let r = a1 % wi;
        assert(false) by (nonlinear_arith)
            requires
                a1 == wi * d1 + r,
                a2 == wi * d2 + r,
                -8 < a2 - a1 < 8,
                a1 != a2,
                wi >= 8,
        ;
    }
}

proof fn lemma_mask_unhit(w: nat, h: nat, x: u8, y: u8, byte: u8, n: int, idx: int)
    requires
        0 <= n,
        forall|b: int| 0 <= b < n ==> cell_at(w, h, x, y, b) != idx,
    ensures
        mask_upto(w, h, x, y, byte, n, idx) == 0,
    decreases n,
{
    if n > 0 {
        lemma_mask_unhit(w, h, x, y, byte, n - 1, idx);
        assert(0u8 ^ 0u8 == 0u8) by (bit_vector);
    }
}

proof fn lemma_mask_single(w: nat, h: nat, x: u8, y: u8, byte: u8, n: int, b: int)
    requires
        8 <= w,
        h >= 1,
        0 <= b < n <= 8,
    ensures
        mask_upto(w, h, x, y, byte, n, cell_at(w, h, x, y, b)) == sprite_bit(byte, b),
    decreases n,
{
    let idx = cell_at(w, h, x, y, b);
    let bit = sprite_bit(byte, b);
    if n - 1 == b {
        assert forall|p: int| 0 <= p < n - 1 implies cell_at(w, h, x, y, p) != idx by {
            lemma_cells_distinct(w, h, x, y, p, b);
        }
        lemma_mask_unhit(w, h, x, y, byte, n - 1, idx);
        assert(0u8 ^ bit == bit) by (bit_vector);
    } else {
        lemma_mask_single(w, h, x, y, byte, n - 1, b);
        lemma_cells_distinct(w, h, x, y, n - 1, b);
        assert(bit ^ 0 == bit) by (bit_vector);
    }
}

/// Whether blitting the first `n` bits of the sprite row turns some cell
/// from unset to set at some point of the left-to-right pass.
pub open spec fn draw_row_sets_spec(
    s: Seq<u8>,
    w: nat,
    h: nat,
    x: u8,
    y: u8,
    byte: u8,
    n: int,
) -> bool
    decreases n,
{
    if n <= 0 {
        false
    } else {
        let prev = draw_row_spec(s, w, h, x, y, byte, n - 1);
        let tgt = cell_at(w, h, x, y, n - 1);
        let bit = sprite_bit(byte, n - 1);
        draw_row_sets_spec(s, w, h, x, y, byte, n - 1) || (prev.screen[tgt] == 0
            && prev.screen[tgt] ^ bit == 1)
    }
}

/// The number of 1 bits among the first `n` of the sprite row that land on
/// cell `idx`.
spec fn count_upto(w: nat, h: nat, x: u8, y: u8, byte: u8, n: int, idx: int) -> int
    decreases n,
{
    if n <= 0 {
        0
    } else {
        count_upto(w, h, x, y, byte, n - 1, idx) + (if cell_at(w, h, x, y, n - 1) == idx
            && sprite_bit(byte, n - 1) == 1 {
            1int
        } else {
            0int
        })
    }
}

proof fn lemma_xor_cases(a: u8, m: u8)
    requires
        a <= 1,
        m <= 1,
    ensures
        (a ^ m == 1) <==> ((a == 1 && m == 0) || (a == 0 && m == 1)),
        (a ^ m == 0) <==> (a == m),
        (a ^ m) <= 1,
{
    assert((a <= 1 && m <= 1) ==> (((a ^ m == 1) <==> ((a == 1 && m == 0) || (a == 0 && m == 1)))
        && ((a ^ m == 0) <==> (a == m)) && (a ^ m) <= 1)) by (bit_vector);
}

proof fn lemma_mask_is_count_parity(w: nat, h: nat, x: u8, y: u8, byte: u8, n: int, idx: int)
    requires
        0 <= n,
    ensures
        count_upto(w, h, x, y, byte, n, idx) >= 0,
        mask_upto(w, h, x, y, byte, n, idx) == (count_upto(w, h, x, y, byte, n, idx) % 2) as u8,
    decreases n,
{
    if n > 0 {
        lemma_mask_is_count_parity(w, h, x, y, byte, n - 1, idx);
        lemma_sprite_bit01(byte, n - 1);
        let m0 = mask_upto(w, h, x, y, byte, n - 1, idx);
        let c0 = count_upto(w, h, x, y, byte, n - 1, idx);
        let bit = sprite_bit(byte, n - 1);
        let tgt = cell_at(w, h, x, y, n - 1);
        if tgt == idx && bit == 1 {
            assert(m0 <= 1 ==> (m0 ^ 1) == (if m0 == 0 {
                1u8
            } else {
                0u8
            })) by (bit_vector);
            assert((c0 + 1) % 2 == (if c0 % 2 == 0 {
                1int
            } else {
                0int
            }));
        } else {
            assert(m0 ^ 0 == m0) by (bit_vector);
        }
    }
}

proof fn lemma_unset_flag_char(s: Seq<u8>, w: nat, h: nat, x: u8, y: u8, byte: u8, n: int)
    requires
        w >= 1,
        h >= 1,
        s.len() == w * h,
        0 <= n <= 8,
        forall|k: int| 0 <= k < s.len() ==> s[k] <= 1,
    ensures
        draw_row_spec(s, w, h, x, y, byte, n).unset == (exists|c: int|
            0 <= c < s.len() && #[trigger] count_upto(w, h, x, y, byte, n, c) >= 1 && (s[c] == 1
                || count_upto(w, h, x, y, byte, n, c) >= 2)),
    decreases n,
{
    if n > 0 {
        lemma_unset_flag_char(s, w, h, x, y, byte, n - 1);
        lemma_draw_row_len(s, w, h, x, y, byte, n - 1);
        lemma_cell_at_bound(w, h, x, y, n - 1);
        lemma_sprite_bit01(byte, n - 1);
        let t = cell_at(w, h, x, y, n - 1);
        let bit = sprite_bit(byte, n - 1);
        lemma_draw_row_cells(s, w, h, x, y, byte, n - 1, t);
        lemma_mask_is_count_parity(w, h, x, y, byte, n - 1, t);
        let a = s[t];
        let m0 = mask_upto(w, h, x, y, byte, n - 1, t);
        let c0 = count_upto(w, h, x, y, byte, n - 1, t);
        let prevcell = draw_row_spec(s, w, h, x, y, byte, n - 1).screen[t];
        assert(prevcell == a ^ m0);
        assert((prevcell == 1 && (prevcell ^ bit) == 0) <==> (bit == 1 && prevcell == 1))
            by (bit_vector);
        lemma_xor_cases(a, m0);
        if draw_row_spec(s, w, h, x, y, byte, n).unset {
            if draw_row_spec(s, w, h, x, y, byte, n - 1).unset {
                let cw = choose|c: int|
                    0 <= c < s.len() && #[trigger] count_upto(w, h, x, y, byte, n - 1, c) >= 1 && (s[c] == 1
                        || count_upto(w, h, x, y, byte, n - 1, c) >= 2);
                assert(count_upto(w, h, x, y, byte, n, cw) >= count_upto(
                    w,
                    h,
                    x,
                    y,
                    byte,
                    n - 1,
                    cw,
                ));
                assert(0 <= cw < s.len() && count_upto(w, h, x, y, byte, n, cw) >= 1 && (s[cw] == 1
                    || count_upto(w, h, x, y, byte, n, cw) >= 2));
            } else {
                // the unset transition happened at this very bit
                assert(bit == 1 && a ^ m0 == 1);
                assert(count_upto(w, h, x, y, byte, n, t) == c0 + 1);
                if a == 1 {
                    assert(0 <= t < s.len() && count_upto(w, h, x, y, byte, n, t) >= 1 && (s[t]
                        == 1 || count_upto(w, h, x, y, byte, n, t) >= 2));
                } else {
                    // the cell was off, so an odd number of earlier bits hit it
                    assert(m0 == 1);
                    assert(c0 % 2 == 1);
                    assert(c0 >= 1);
                    assert(0 <= t < s.len() && count_upto(w, h, x, y, byte, n, t) >= 2);
                }
            }
        }
        if exists|c: int|
            0 <= c < s.len() && #[trigger] count_upto(w, h, x, y, byte, n, c) >= 1 && (s[c] == 1
                || count_upto(w, h, x, y, byte, n, c) >= 2) {
            let cw = choose|c: int|
                0 <= c < s.len() && #[trigger] count_upto(w, h, x, y, byte, n, c) >= 1 && (s[c] == 1
                    || count_upto(w, h, x, y, byte, n, c) >= 2);
            if cw != t || bit != 1 {
                assert(count_upto(w, h, x, y, byte, n, cw) == count_upto(
                    w,
                    h,
                    x,
                    y,
                    byte,
                    n - 1,
                    cw,
                ));
                assert(0 <= cw < s.len() && count_upto(w, h, x, y, byte, n - 1, cw) >= 1 && (s[cw]
                    == 1 || count_upto(w, h, x, y, byte, n - 1, cw) >= 2));
                assert(draw_row_spec(s, w, h, x, y, byte, n - 1).unset);
            } else {
                // cw == t and this bit is 1
                assert(count_upto(w, h, x, y, byte, n, t) == c0 + 1);
                if c0 >= 1 && (a == 1 || c0 >= 2) {
                    assert(0 <= t < s.len() && count_upto(w, h, x, y, byte, n - 1, t) >= 1 && (s[t]
                        == 1 || count_upto(w, h, x, y, byte, n - 1, t) >= 2));
                    assert(draw_row_spec(s, w, h, x, y, byte, n - 1).unset);
                } else if c0 == 0 {
                    // count is now 1, so the cell must have been on
                    assert(s[t] == 1);
                    assert(m0 == 0);
                    assert(prevcell == 1);
                } else {
                    // exactly one earlier hit on a cell that was off
                    assert(c0 == 1 && a == 0);
                    assert(m0 == 1);
                    assert(prevcell == 1);
                }
            }
            assert(draw_row_spec(s, w, h, x, y, byte, n).unset);
        }
    }
}

proof fn lemma_set_flag_char(s: Seq<u8>, w: nat, h: nat, x: u8, y: u8, byte: u8, n: int)
    requires
        w >= 1,
        h >= 1,
        s.len() == w * h,
        0 <= n <= 8,
        forall|k: int| 0 <= k < s.len() ==> s[k] <= 1,
    ensures
        draw_row_sets_spec(s, w, h, x, y, byte, n) == (exists|c: int|
            0 <= c < s.len() && #[trigger] count_upto(w, h, x, y, byte, n, c) >= 1 && (s[c] == 0
                || count_upto(w, h, x, y, byte, n, c) >= 2)),
    decreases n,
{
    if n > 0 {
        lemma_set_flag_char(s, w, h, x, y, byte, n - 1);
        lemma_draw_row_len(s, w, h, x, y, byte, n - 1);
        lemma_cell_at_bound(w, h, x, y, n - 1);
        lemma_sprite_bit01(byte, n - 1);
        let t = cell_at(w, h, x, y, n - 1);
        let bit = sprite_bit(byte, n - 1);
        lemma_draw_row_cells(s, w, h, x, y, byte, n - 1, t);
        lemma_mask_is_count_parity(w, h, x, y, byte, n - 1, t);
        let a = s[t];
        let m0 = mask_upto(w, h, x, y, byte, n - 1, t);
        let c0 = count_upto(w, h, x, y, byte, n - 1, t);
        let prevcell = draw_row_spec(s, w, h, x, y, byte, n - 1).screen[t];
        assert(prevcell == a ^ m0);
        assert((prevcell == 0 && (prevcell ^ bit) == 1) <==> (bit == 1 && prevcell == 0))
            by (bit_vector);
        lemma_xor_cases(a, m0);
        if draw_row_sets_spec(s, w, h, x, y, byte, n) {
            if draw_row_sets_spec(s, w, h, x, y, byte, n - 1) {
                let cw = choose|c: int|
                    0 <= c < s.len() && #[trigger] count_upto(w, h, x, y, byte, n - 1, c) >= 1 && (s[c] == 0
                        || count_upto(w, h, x, y, byte, n - 1, c) >= 2);
                assert(count_upto(w, h, x, y, byte, n, cw) >= count_upto(
                    w,
                    h,
                    x,
                    y,
                    byte,
                    n - 1,
                    cw,
                ));
                assert(0 <= cw < s.len() && count_upto(w, h, x, y, byte, n, cw) >= 1 && (s[cw] == 0
                    || count_upto(w, h, x, y, byte, n, cw) >= 2));
            } else {
                // the set transition happened at this very bit
                assert(bit == 1 && a ^ m0 == 0);
                assert(count_upto(w, h, x, y, byte, n, t) == c0 + 1);
                if a == 0 {
                    assert(0 <= t < s.len() && count_upto(w, h, x, y, byte, n, t) >= 1 && (s[t]
                        == 0 || count_upto(w, h, x, y, byte, n, t) >= 2));
                } else {
                    // the cell was on, so an odd number of earlier bits hit it
                    assert(m0 == 1);
                    assert(c0 >= 1);
                    assert(0 <= t < s.len() && count_upto(w, h, x, y, byte, n, t) >= 2);
                }
            }
        }
        if exists|c: int|
            0 <= c < s.len() && #[trigger] count_upto(w, h, x, y, byte, n, c) >= 1 && (s[c] == 0
                || count_upto(w, h, x, y, byte, n, c) >= 2) {
            let cw = choose|c: int|
                0 <= c < s.len() && #[trigger] count_upto(w, h, x, y, byte, n, c) >= 1 && (s[c] == 0
                    || count_upto(w, h, x, y, byte, n, c) >= 2);
            if cw != t || bit != 1 {
                assert(count_upto(w, h, x, y, byte, n, cw) == count_upto(
                    w,
                    h,
                    x,
                    y,
                    byte,
                    n - 1,
                    cw,
                ));
                assert(0 <= cw < s.len() && count_upto(w, h, x, y, byte, n - 1, cw) >= 1 && (s[cw]
                    == 0 || count_upto(w, h, x, y, byte, n - 1, cw) >= 2));
                assert(draw_row_sets_spec(s, w, h, x, y, byte, n - 1));
            } else {
                assert(count_upto(w, h, x, y, byte, n, t) == c0 + 1);
                if c0 >= 1 && (a == 0 || c0 >= 2) {
                    assert(0 <= t < s.len() && count_upto(w, h, x, y, byte, n - 1, t) >= 1 && (s[t]
                        == 0 || count_upto(w, h, x, y, byte, n - 1, t) >= 2));
                    assert(draw_row_sets_spec(s, w, h, x, y, byte, n - 1));
                } else if c0 == 0 {
                    assert(s[t] == 0);
                    assert(m0 == 0);
                    assert(prevcell == 0);
                } else {
                    assert(c0 == 1 && a == 1);
                    assert(m0 == 1);
                    assert(prevcell == 0);
                }
            }
            assert(draw_row_sets_spec(s, w, h, x, y, byte, n));
        }
    }
}

/// Law: the unset-transition flag of a second identical draw equals whether
/// the first draw turned any cell from unset to set, for every display
/// shape, including narrow ones where several sprite bits share a cell.
pub proof fn lemma_draw_row_second_flag_any_width(
    s: Seq<u8>,
    w: nat,
    h: nat,
    x: u8,
    y: u8,
    byte: u8,
)
    requires
        w >= 1,
        h >= 1,
        s.len() == w * h,
        forall|k: int| 0 <= k < s.len() ==> s[k] <= 1,
    ensures
        draw_row_spec(draw_row_spec(s, w, h, x, y, byte, 8).screen, w, h, x, y, byte, 8).unset
            == draw_row_sets_spec(s, w, h, x, y, byte, 8),
{
    let s1 = draw_row_spec(s, w, h, x, y, byte, 8).screen;
    lemma_draw_row_len(s, w, h, x, y, byte, 8);
    assert forall|c: int| 0 <= c < s.len() implies s1[c] == s[c] ^ ((count_upto(
        w,
        h,
        x,
        y,
        byte,
        8,
        c,
    ) % 2) as u8) && s1[c] <= 1 by {
        lemma_draw_row_cells(s, w, h, x, y, byte, 8, c);
        lemma_mask_is_count_parity(w, h, x, y, byte, 8, c);
        lemma_xor_cases(s[c], mask_upto(w, h, x, y, byte, 8, c));
    }
    lemma_unset_flag_char(s1, w, h, x, y, byte, 8);
    lemma_set_flag_char(s, w, h, x, y, byte, 8);
    assert forall|c: int| 0 <= c < s.len() implies ((count_upto(w, h, x, y, byte, 8, c) >= 1 && (
    s1[c] == 1 || count_upto(w, h, x, y, byte, 8, c) >= 2)) <==> (count_upto(
        w,
        h,
        x,
        y,
        byte,
        8,
        c,
    ) >= 1 && (s[c] == 0 || count_upto(w, h, x, y, byte, 8, c) >= 2))) by {
        lemma_mask_is_count_parity(w, h, x, y, byte, 8, c);
        let cnt = count_upto(w, h, x, y, byte, 8, c);
        if cnt == 1 {
            lemma_xor_cases(s[c], (cnt % 2) as u8);
        }
    }
    if draw_row_spec(s1, w, h, x, y, byte, 8).unset {
        let cw = choose|c: int|
            0 <= c < s1.len() && #[trigger] count_upto(w, h, x, y, byte, 8, c) >= 1 && (s1[c] == 1
                || count_upto(w, h, x, y, byte, 8, c) >= 2);
        assert((count_upto(w, h, x, y, byte, 8, cw) >= 1 && (s1[cw] == 1 || count_upto(
            w,
            h,
            x,
            y,
            byte,
            8,
            cw,
        ) >= 2)) <==> (count_upto(w, h, x, y, byte, 8, cw) >= 1 && (s[cw] == 0 || count_upto(
            w,
            h,
            x,
            y,
            byte,
            8,
            cw,
        ) >= 2)));
        assert(0 <= cw < s.len() && count_upto(w, h, x, y, byte, 8, cw) >= 1 && (s[cw] == 0
            || count_upto(w, h, x, y, byte, 8, cw) >= 2));
    }
    if draw_row_sets_spec(s, w, h, x, y, byte, 8) {
        let cw = choose|c: int|
            0 <= c < s.len() && #[trigger] count_upto(w, h, x, y, byte, 8, c) >= 1 && (s[c] == 0
                || count_upto(w, h, x, y, byte, 8, c) >= 2);
        assert((count_upto(w, h, x, y, byte, 8, cw) >= 1 && (s1[cw] == 1 || count_upto(
            w,
            h,
            x,
            y,
            byte,
            8,
            cw,
        ) >= 2)) <==> (count_upto(w, h, x, y, byte, 8, cw) >= 1 && (s[cw] == 0 || count_upto(
            w,
            h,
            x,
            y,
            byte,
            8,
            cw,
        ) >= 2)));
        assert(0 <= cw < s1.len() && count_upto(w, h, x, y, byte, 8, cw) >= 1 && (s1[cw] == 1
            || count_upto(w, h, x, y, byte, 8, cw) >= 2));
    }
}

proof fn lemma_draw_row_flag_distinct(s: Seq<u8>, w: nat, h: nat, x: u8, y: u8, byte: u8, n: int)
    requires
        8 <= w,
        h >= 1,
        s.len() == w * h,
        0 <= n <= 8,
    ensures
        draw_row_spec(s, w, h, x, y, byte, n).unset == (exists|b: int|
            0 <= b < n && sprite_bit(byte, b) == 1 && s[cell_at(w, h, x, y, b)] == 1),
    decreases n,
{
    if n > 0 {
        lemma_draw_row_flag_distinct(s, w, h, x, y, byte, n - 1);
        lemma_draw_row_len(s, w, h, x, y, byte, n - 1);
        lemma_cell_at_bound(w, h, x, y, n - 1);
        let prev = draw_row_spec(s, w, h, x, y, byte, n - 1);
        let tgt = cell_at(w, h, x, y, n - 1);
        let bit = sprite_bit(byte, n - 1);
        assert forall|p: int| 0 <= p < n - 1 implies cell_at(w, h, x, y, p) != tgt by {
            lemma_cells_distinct(w, h, x, y, p, n - 1);
        }
        lemma_draw_row_cells(s, w, h, x, y, byte, n - 1, tgt);
        lemma_mask_unhit(w, h, x, y, byte, n - 1, tgt);
        let a = s[tgt];
        assert(a ^ 0 == a) by (bit_vector);
        assert((a == 1 && a ^ bit == 0) <==> (bit == 1 && a == 1)) by (bit_vector);
        if prev.unset {
            let b0 = choose|b: int|
                0 <= b < n - 1 && sprite_bit(byte, b) == 1 && s[cell_at(w, h, x, y, b)] == 1;
            assert(0 <= b0 < n && sprite_bit(byte, b0) == 1 && s[cell_at(w, h, x, y, b0)] == 1);
        } else if bit == 1 && a == 1 {
            assert(0 <= n - 1 < n && sprite_bit(byte, n - 1) == 1 && s[cell_at(w, h, x, y, n - 1)]
                == 1);
        }
        if exists|b: int| 0 <= b < n && sprite_bit(byte, b) == 1 && s[cell_at(w, h, x, y, b)] == 1 {
            let b0 = choose|b: int|
                0 <= b < n && sprite_bit(byte, b) == 1 && s[cell_at(w, h, x, y, b)] == 1;
            if b0 < n - 1 {
                assert(0 <= b0 < n - 1 && sprite_bit(byte, b0) == 1 && s[cell_at(w, h, x, y, b0)]
                    == 1);
            }
        }
    }
}

/// Law: drawing the same sprite row twice at the same coordinates restores
/// every cell to its value before the first draw (XOR involution).
pub proof fn lemma_draw_row_involution(s: Seq<u8>, w: nat, h: nat, x: u8, y: u8, byte: u8)
    requires
        w >= 1,
        h >= 1,
        s.len() == w * h,
    ensures
        draw_row_spec(draw_row_spec(s, w, h, x, y, byte, 8).screen, w, h, x, y, byte, 8).screen
            == s,
{
    let s1 = draw_row_spec(s, w, h, x, y, byte, 8).screen;
    lemma_draw_row_len(s, w, h, x, y, byte, 8);
    lemma_draw_row_len(s1, w, h, x, y, byte, 8);
    let s2 = draw_row_spec(s1, w, h, x, y, byte, 8).screen;
    assert forall|idx: int| 0 <= idx < s.len() implies s2[idx] == s[idx] by {
        lemma_draw_row_cells(s, w, h, x, y, byte, 8, idx);
        lemma_draw_row_cells(s1, w, h, x, y, byte, 8, idx);
        let a = s[idx];
        let m = mask_upto(w, h, x, y, byte, 8, idx);
        assert((a ^ m) ^ m == a) by (bit_vector);
    }
    assert(s2 =~= s);
}

/// Law: the unset-transition flag of a second identical draw equals whether
/// the first draw turned any of the touched cells on. Stated for displays at
/// least eight cells wide, where the eight sprite bits land on eight
/// distinct cells.
pub proof fn lemma_draw_row_second_flag(s: Seq<u8>, w: nat, h: nat, x: u8, y: u8, byte: u8)
    requires
        8 <= w,
        h >= 1,
        s.len() == w * h,
        forall|k: int| 0 <= k < s.len() ==> s[k] <= 1,
    ensures
        draw_row_spec(draw_row_spec(s, w, h, x, y, byte, 8).screen, w, h, x, y, byte, 8).unset
            == row_turns_on(s, w, h, x, y, byte),
{
    let s1 = draw_row_spec(s, w, h, x, y, byte, 8).screen;
    lemma_draw_row_len(s, w, h, x, y, byte, 8);
    lemma_draw_row_flag_distinct(s1, w, h, x, y, byte, 8);
    assert forall|b: int| 0 <= b < 8 implies (sprite_bit(byte, b) == 1 && s1[cell_at(
        w,
        h,
        x,
        y,
        b,
    )] == 1) <==> (sprite_bit(byte, b) == 1 && s[cell_at(w, h, x, y, b)] == 0) by {
        lemma_cell_at_bound(w, h, x, y, b);
        lemma_draw_row_cells(s, w, h, x, y, byte, 8, cell_at(w, h, x, y, b));
        lemma_mask_single(w, h, x, y, byte, 8, b);
        let a = s[cell_at(w, h, x, y, b)];
        let c = sprite_bit(byte, b);
        assert(a <= 1 ==> ((c == 1 && (a ^ c) == 1) <==> (c == 1 && a == 0))) by (bit_vector);
    }
    let lhs = draw_row_spec(s1, w, h, x, y, byte, 8).unset;
    if lhs {
        let b0 = choose|b: int|
            0 <= b < 8 && sprite_bit(byte, b) == 1 && s1[cell_at(w, h, x, y, b)] == 1;
        assert(0 <= b0 < 8 && sprite_bit(byte, b0) == 1 && s[cell_at(w, h, x, y, b0)] == 0);
    }
    if row_turns_on(s, w, h, x, y, byte) {
        let b0 = choose|b: int|
            0 <= b < 8 && sprite_bit(byte, b) == 1 && s[cell_at(w, h, x, y, b)] == 0;
        assert(0 <= b0 < 8 && sprite_bit(byte, b0) == 1 && s1[cell_at(w, h, x, y, b0)] == 1);
    }
}

/// Law: clearing yields a snapshot whose cells are all zero, whatever the
/// prior state.
pub proof fn lemma_clear_all_zero(d: DispV)
    ensures
        forall|k: int| 0 <= k < clear_spec(d).screen.len() ==> clear_spec(d).screen[k] == 0,
{
}

/// Law: sprite drawing wraps at the right edge: with `x` in the last column,
/// the bit at offset 1 lands in column 0 of the sprite's row.
pub proof fn lemma_draw_wraps(w: nat, h: nat, x: u8, y: u8)
    requires
        2 <= w <= 256,
        h >= 1,
        x as int == w - 1,
    ensures
        cell_at(w, h, x, y, 1) == ((y as int) % (h as int)) * (w as int),
{
    let wi = w as int;
    assert((x as int) + 1 == wi);
    assert(wi % wi == 0) by {
        lemma_fundamental_div_mod(wi, wi);
        lemma_mod_bound(wi, wi);
        assert(wi * 1 + 0 == wi) by (nonlinear_arith);
        assert(wi * (wi / wi) + wi % wi == wi);
        assert(0 <= wi % wi < wi);
        assert(wi * (wi / wi) == wi - wi % wi);
        let q = wi / wi;
        assert(wi * q == wi - wi % wi);
        assert(0 < wi * q <= wi);
        assert(q == 1) by (nonlinear_arith)
            requires
                0 < wi * q <= wi,
                wi >= 2,
        ;
    }
}

/// A width x height grid of 1-bit pixel state, row-major.
pub struct Display {
    width: usize,
    height: usize,
    screen: Vec<u8>,
}

impl View for Display {
    type V = DispV;

    closed spec fn view(&self) -> DispV {
        DispV { width: self.width as nat, height: self.height as nat, screen: self.screen@ }
    }
}

impl Display {
    /// Well-formedness of the underlying grid.
    pub open spec fn wf(&self) -> bool {
        disp_wf(self@)
    }

    /// A fresh frame buffer of the given dimensions, all cells unset.
    pub fn new(w: usize, h: usize) -> (r: Display)
        requires
            0 < w,
            0 < h,
            w * h <= usize::MAX,
        ensures
            r.wf(),
            r@.width == w as nat,
            r@.height == h as nat,
            r@.screen == Seq::new((w * h) as nat, |k: int| 0u8),
    {
        let size = w * h;
        let mut screen: Vec<u8> = Vec::new();
        while screen.len() < size
            invariant
                screen@.len() <= size,
                forall|k: int| 0 <= k < screen@.len() ==> screen@[k] == 0u8,
            decreases size - screen@.len(),
        {
            screen.push(0);
        }
        let r = Display { width: w, height: h, screen };
        proof {
            assert(r@.screen =~= Seq::new((w * h) as nat, |k: int| 0u8));
        }
        r
    }

    /// Sets every cell to 0; the dimensions stay as they are.
    pub fn clear(&mut self)
        requires
            old(self).wf(),
        ensures
            final(self).wf(),
            final(self)@ == clear_spec(old(self)@),
    {
        let n = self.screen.len();
        let mut idx: usize = 0;
        while idx < n
            invariant
                idx <= n,
                n == self@.screen.len(),
                self@.width == old(self)@.width,
                self@.height == old(self)@.height,
                forall|k: int| 0 <= k < idx ==> self@.screen[k] == 0u8,
                forall|k: int| idx <= k < n ==> self@.screen[k] == old(self)@.screen[k],
            decreases n - idx,
        {
            self.screen[idx] = 0;
            idx += 1;
        }
        proof {
            assert(self@ =~= clear_spec(old(self)@));
        }
    }

    /// XORs the 8 bits of `byte`, most-significant first, into the wrapped
    /// cells of row `y mod height` starting at column `x mod width`; reports
    /// whether any cell went from set to unset.
    pub fn draw(&mut self, x: u8, y: u8, byte: u8) -> (r: bool)
        requires
            old(self).wf(),
        ensures
            final(self).wf(),
            final(self)@.width == old(self)@.width,
            final(self)@.height == old(self)@.height,
            final(self)@.screen == draw_row_spec(
                old(self)@.screen,
                old(self)@.width,
                old(self)@.height,
                x,
                y,
                byte,
                8,
            ).screen,
            r == draw_row_spec(
                old(self)@.screen,
                old(self)@.width,
                old(self)@.height,
                x,
                y,
                byte,
                8,
            ).unset,
    {
        let row = (y as usize) % self.height;
        proof {
            lemma_mod_bound(y as int, old(self)@.height as int);
        }
        let mut flipped = false;
        let mut b: usize = 0;
        while b < 8
            invariant
                b <= 8,
                self@.width == old(self)@.width,
                self@.height == old(self)@.height,
                disp_wf(self@),
                row == (y as int) % (self@.height as int),
                row < self@.height,
                self@.screen == draw_row_spec(
                    old(self)@.screen,
                    old(self)@.width,
                    old(self)@.height,
                    x,
                    y,
                    byte,
                    b as int,
                ).screen,
                flipped == draw_row_spec(
                    old(self)@.screen,
                    old(self)@.width,
                    old(self)@.height,
                    x,
                    y,
                    byte,
                    b as int,
                ).unset,
            decreases 8 - b,
        {
            let col = (x as usize + b) % self.width;
            let glen = self.screen.len();
            proof {
                lemma_mod_bound(x as int + b as int, self@.width as int);
                assert(row * (self@.width as int) + col < (self@.width as int) * (
                self@.height as int)) by (nonlinear_arith)
                    requires
                        0 <= row < self@.height as int,
                        0 <= col < self@.width as int,
                ;
                assert(row * (self@.width as int) + col < glen);
            }
            let index = row * self.width + col;
            let sh: u8 = (7 - b) as u8;
            let bit: u8 = (byte >> sh) & 1;
            let prev = self.screen[index];
            let v = prev ^ bit;
            proof {
                assert((byte >> sh) & 1 <= 1) by (bit_vector);
                let a = prev;
                let c = bit;
                assert(a <= 1 && c <= 1 ==> (a ^ c) <= 1) by (bit_vector);
                assert(index == cell_at(self@.width, self@.height, x, y, b as int));
            }
            self.screen[index] = v;
            if prev == 1 && v == 0 {
                flipped = true;
            }
            b += 1;
        }
        flipped
    }

    /// A read-only view of the cells, row-major.
    pub fn get_screen(&self) -> (r: &Vec<u8>)
        ensures
            r@ == self@.screen,
    {
        &self.screen
    }

    /// The grid width in cells.
    pub fn get_width(&self) -> (r: usize)
        ensures
            r as nat == self@.width,
    {
        self.width
    }

    /// The grid height in cells.
    pub fn get_height(&self) -> (r: usize)
        ensures
            r as nat == self@.height,
    {
        self.height
    }
}

} // verus!
