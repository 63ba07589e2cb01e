use vstd::prelude::*;
use crate::cell::{
    Cell, CellBits, has_any, is_wire, clear_queued, DESIGN, DOWN, LEFT, QUEUED, RIGHT, SIGNAL, UP,
};

verus! {

/// `f` when `on` holds, no bit otherwise.
pub open spec fn flag_if(on: bool, f: u8) -> u8 {
    if on {
        f
    } else {
        0
    }
}

/// Whether a wire cell `c` with neighbours `l`, `r`, `u`, `d` carries signal to the right next.
/// It receives it from the left, or a vertical dead end turns into a wire on the right.
pub open spec fn gains_right(c: u8, l: u8, r: u8, u: u8, d: u8) -> bool {
    has_any(l, RIGHT) || (!is_wire(u) && is_wire(d) && is_wire(r) && (has_any(c, UP) != is_wire(l)))
        || (!is_wire(d) && is_wire(u) && is_wire(r) && (has_any(c, DOWN) != is_wire(l)))
}

/// Whether a wire cell carries signal to the left next.
pub open spec fn gains_left(c: u8, l: u8, r: u8, u: u8, d: u8) -> bool {
    has_any(r, LEFT) || (!is_wire(u) && is_wire(d) && is_wire(l) && (has_any(c, UP) != is_wire(r)))
        || (!is_wire(d) && is_wire(u) && is_wire(l) && (has_any(c, DOWN) != is_wire(r)))
}

/// Whether a wire cell carries signal downwards next.
pub open spec fn gains_down(c: u8, l: u8, r: u8, u: u8, d: u8) -> bool {
    has_any(u, DOWN) || (!is_wire(l) && is_wire(r) && is_wire(d) && (has_any(c, LEFT) != is_wire(u)))
        || (!is_wire(r) && is_wire(l) && is_wire(d) && (has_any(c, RIGHT) != is_wire(u)))
}

/// Whether a wire cell carries signal upwards next.
pub open spec fn gains_up(c: u8, l: u8, r: u8, u: u8, d: u8) -> bool {
    has_any(d, UP) || (!is_wire(l) && is_wire(r) && is_wire(u) && (has_any(c, LEFT) != is_wire(d)))
        || (!is_wire(r) && is_wire(l) && is_wire(u) && (has_any(c, RIGHT) != is_wire(d)))
}

/// The next flags of a wire cell `c` with neighbours `l` (left), `r` (right), `u` (above) and
/// `d` (below): its design bits and the signal bits it gains, with no scheduler bit.
pub open spec fn successor(c: u8, l: u8, r: u8, u: u8, d: u8) -> u8 {
    ((((c & DESIGN) | flag_if(gains_right(c, l, r, u, d), RIGHT)) | flag_if(
        gains_down(c, l, r, u, d),
        DOWN,
    )) | flag_if(gains_left(c, l, r, u, d), LEFT)) | flag_if(gains_up(c, l, r, u, d), UP)
}

/// The next flags of the wire cell at `(x, y)` of a row-major grid `g` of width `w`.
pub open spec fn successor_at(g: Seq<u8>, w: int, x: int, y: int) -> u8 {
    let i = y * w + x;
    successor(g[i], g[i - 1], g[i + 1], g[i - w], g[i + w])
}

proof fn lemma_or_zero(x: u8)
    ensures
        x | 0u8 == x,
{
    assert(x | 0u8 == x) by (bit_vector);
}

/// The flags that a wire cell takes on in one step, from its own flags and its four neighbours.
pub fn wire_successor(center: Cell, left: Cell, right: Cell, up: Cell, down: Cell) -> (r: Cell)
    ensures
        r@ == successor(center@, left@, right@, up@, down@),
{
    let wire = CellBits::Wire.cell();
    let l_wire = left.intersects(wire);
    let r_wire = right.intersects(wire);
    let u_wire = up.intersects(wire);
    let d_wire = down.intersects(wire);
    let c_right = center.intersects(CellBits::Right.cell());
    let c_down = center.intersects(CellBits::Down.cell());
    let c_left = center.intersects(CellBits::Left.cell());
    let c_up = center.intersects(CellBits::Up.cell());

    // A dead end on one axis turns the signal into a wire on the other; the `!=`s are XORs.
    let to_right = left.intersects(CellBits::Right.cell()) || (!u_wire && d_wire && r_wire && (
    c_up != l_wire)) || (!d_wire && u_wire && r_wire && (c_down != l_wire));
    let to_left = right.intersects(CellBits::Left.cell()) || (!u_wire && d_wire && l_wire && (c_up
        != r_wire)) || (!d_wire && u_wire && l_wire && (c_down != r_wire));
    let to_down = up.intersects(CellBits::Down.cell()) || (!l_wire && r_wire && d_wire && (c_left
        != u_wire)) || (!r_wire && l_wire && d_wire && (c_right != u_wire));
    let to_up = down.intersects(CellBits::Up.cell()) || (!l_wire && r_wire && u_wire && (c_left
        != d_wire)) || (!r_wire && l_wire && u_wire && (c_right != d_wire));

    let mut next = center.intersection(CellBits::Design.cell());
    proof {
        lemma_or_zero(next@);
    }
    if to_right {
        next.insert(CellBits::Right.cell());
    }
    proof {
        lemma_or_zero(next@);
    }
    if to_down {
        next.insert(CellBits::Down.cell());
    }
    proof {
        lemma_or_zero(next@);
    }
    if to_left {
        next.insert(CellBits::Left.cell());
    }
    proof {
        lemma_or_zero(next@);
    }
    if to_up {
        next.insert(CellBits::Up.cell());
    }
    next
}

/// A successor holds no scheduler bit; adding one leaves the rest of it as it was.
pub proof fn lemma_successor_unqueued(c: u8, l: u8, r: u8, u: u8, d: u8, staged: u8)
    ensures
        clear_queued(successor(c, l, r, u, d) | (staged & QUEUED)) == successor(c, l, r, u, d),
        has_any(successor(c, l, r, u, d) | (staged & QUEUED), QUEUED) == has_any(staged, QUEUED),
        (successor(c, l, r, u, d) | (staged & QUEUED)) & DESIGN == c & DESIGN,
{
    lemma_signals_unqueued(
        c,
        staged,
        gains_right(c, l, r, u, d),
        gains_down(c, l, r, u, d),
        gains_left(c, l, r, u, d),
        gains_up(c, l, r, u, d),
    );
}

proof fn lemma_signals_unqueued(c: u8, staged: u8, gr: bool, gd: bool, gl: bool, gu: bool)
    by (bit_vector)
    ensures
        ({
            let s = ((((c & DESIGN) | flag_if(gr, RIGHT)) | flag_if(gd, DOWN)) | flag_if(gl, LEFT))
                | flag_if(gu, UP);
            &&& clear_queued(s | (staged & QUEUED)) == s
            &&& has_any(s | (staged & QUEUED), QUEUED) == has_any(staged, QUEUED)
            &&& (s | (staged & QUEUED)) & DESIGN == c & DESIGN
        }),
{
}

proof fn lemma_signals_shape(c: u8, gr: bool, gd: bool, gl: bool, gu: bool)
    by (bit_vector)
    ensures
        ({
            let s = ((((c & DESIGN) | flag_if(gr, RIGHT)) | flag_if(gd, DOWN)) | flag_if(gl, LEFT))
                | flag_if(gu, UP);
            s & DESIGN == c & DESIGN && !has_any(s, QUEUED)
        }),
{
}

proof fn lemma_signal_bits(c: u8, gr: bool, gd: bool, gl: bool, gu: bool)
    by (bit_vector)
    ensures
        ({
            let s = ((((c & DESIGN) | flag_if(gr, RIGHT)) | flag_if(gd, DOWN)) | flag_if(gl, LEFT))
                | flag_if(gu, UP);
            &&& has_any(s, RIGHT) == gr
            &&& has_any(s, DOWN) == gd
            &&& has_any(s, LEFT) == gl
            &&& has_any(s, UP) == gu
        }),
{
}

/// Each signal bit of a wire cell's next flags is exactly the rule for that direction: received
/// from the neighbour behind it, or injected by a bend at a dead end.
pub proof fn lemma_successor_signals(c: u8, l: u8, r: u8, u: u8, d: u8)
    ensures
        has_any(successor(c, l, r, u, d), RIGHT) == gains_right(c, l, r, u, d),
        has_any(successor(c, l, r, u, d), DOWN) == gains_down(c, l, r, u, d),
        has_any(successor(c, l, r, u, d), LEFT) == gains_left(c, l, r, u, d),
        has_any(successor(c, l, r, u, d), UP) == gains_up(c, l, r, u, d),
{
    lemma_signal_bits(
        c,
        gains_right(c, l, r, u, d),
        gains_down(c, l, r, u, d),
        gains_left(c, l, r, u, d),
        gains_up(c, l, r, u, d),
    );
}

/// A successor keeps the design bits of its cell and holds no scheduler bit.
pub proof fn lemma_successor_design(c: u8, l: u8, r: u8, u: u8, d: u8)
    ensures
        successor(c, l, r, u, d) & DESIGN == c & DESIGN,
        !has_any(successor(c, l, r, u, d), QUEUED),
        clear_queued(successor(c, l, r, u, d)) == successor(c, l, r, u, d),
{
    lemma_signals_shape(
        c,
        gains_right(c, l, r, u, d),
        gains_down(c, l, r, u, d),
        gains_left(c, l, r, u, d),
        gains_up(c, l, r, u, d),
    );
    lemma_unmarked_clear(successor(c, l, r, u, d));
}

proof fn lemma_unmarked_clear(s: u8)
    by (bit_vector)
    ensures
        !has_any(s, QUEUED) ==> clear_queued(s) == s,
{
}

/// A cell whose design and signal bits agree with a successor's is that successor once its
/// scheduler bit is cleared.
pub proof fn lemma_same_signal(c: u8, s: u8)
    by (bit_vector)
    requires
        s & DESIGN == c & DESIGN,
        !has_any(s, QUEUED),
        !has_any(c ^ s, SIGNAL),
    ensures
        clear_queued(c) == s,
{
}

/// Bits of `m` that do not differ between two bytes are held by both or by neither.
pub proof fn lemma_bit_kept(c: u8, s: u8, m: u8)
    by (bit_vector)
    requires
        !has_any(c ^ s, m),
    ensures
        has_any(s, m) == has_any(c, m),
{
}

/// The successor of a cell depends on its own flags up to the scheduler bit, on whether each
/// neighbour is a wire, and on the one signal bit that each neighbour pushes towards it.
pub proof fn lemma_successor_congruent(
    c: u8,
    l: u8,
    r: u8,
    u: u8,
    d: u8,
    c2: u8,
    l2: u8,
    r2: u8,
    u2: u8,
    d2: u8,
)
    requires
        clear_queued(c) == clear_queued(c2),
        is_wire(l) == is_wire(l2) && has_any(l, RIGHT) == has_any(l2, RIGHT),
        is_wire(r) == is_wire(r2) && has_any(r, LEFT) == has_any(r2, LEFT),
        is_wire(u) == is_wire(u2) && has_any(u, DOWN) == has_any(u2, DOWN),
        is_wire(d) == is_wire(d2) && has_any(d, UP) == has_any(d2, UP),
    ensures
        successor(c, l, r, u, d) == successor(c2, l2, r2, u2, d2),
{
    lemma_same_but_queued(c, c2);
}

/// Two bytes that differ at most in the scheduler bit agree on every other flag.
pub proof fn lemma_same_but_queued(p: u8, q: u8)
    by (bit_vector)
    requires
        clear_queued(p) == clear_queued(q),
    ensures
        has_any(p, crate::cell::WIRE) == has_any(q, crate::cell::WIRE),
        has_any(p, RIGHT) == has_any(q, RIGHT),
        has_any(p, DOWN) == has_any(q, DOWN),
        has_any(p, LEFT) == has_any(q, LEFT),
        has_any(p, UP) == has_any(q, UP),
        p & DESIGN == q & DESIGN,
{
}

/// The successor of a cell depends on its neighbourhood but for scheduler bits.
pub proof fn lemma_successor_ignores_queued(g: Seq<u8>, h: Seq<u8>, w: int, x: int, y: int)
    requires
        1 <= w,
        0 <= y * w + x - w,
        y * w + x + w < g.len(),
        g.len() == h.len(),
        clear_queued(g[y * w + x]) == clear_queued(h[y * w + x]),
        clear_queued(g[y * w + x - 1]) == clear_queued(h[y * w + x - 1]),
        clear_queued(g[y * w + x + 1]) == clear_queued(h[y * w + x + 1]),
        clear_queued(g[y * w + x - w]) == clear_queued(h[y * w + x - w]),
        clear_queued(g[y * w + x + w]) == clear_queued(h[y * w + x + w]),
    ensures
        successor_at(g, w, x, y) == successor_at(h, w, x, y),
{
    let i = y * w + x;
    lemma_same_but_queued(g[i], h[i]);
    lemma_same_but_queued(g[i - 1], h[i - 1]);
    lemma_same_but_queued(g[i + 1], h[i + 1]);
    lemma_same_but_queued(g[i - w], h[i - w]);
    lemma_same_but_queued(g[i + w], h[i + w]);
}

/// Two bytes with the same design bits agree on the wire bit.
pub proof fn lemma_design_wire(a: u8, b: u8)
    by (bit_vector)
    requires
        a & DESIGN == b & DESIGN,
    ensures
        is_wire(a) == is_wire(b),
{
}

/// Two bytes without scheduler bits that agree up to it are equal.
pub proof fn lemma_unmarked_equal(a: u8, b: u8)
    by (bit_vector)
    requires
        clear_queued(a) == clear_queued(b),
        !has_any(a, QUEUED),
        !has_any(b, QUEUED),
    ensures
        a == b,
{
}

/// Facts on the scheduler bit alone.
pub proof fn lemma_queued_bit(b: u8)
    by (bit_vector)
    ensures
        clear_queued(clear_queued(b)) == clear_queued(b),
        b & !QUEUED == clear_queued(b),
        clear_queued(b | QUEUED) == clear_queued(b),
        (b | QUEUED) & DESIGN == b & DESIGN,
        has_any(b | QUEUED, QUEUED),
        clear_queued(b) & DESIGN == b & DESIGN,
        has_any(b | QUEUED, crate::cell::WIRE) == has_any(b, crate::cell::WIRE),
        has_any(clear_queued(b), crate::cell::WIRE) == has_any(b, crate::cell::WIRE),
        !has_any(clear_queued(b), QUEUED),
        (b & QUEUED == QUEUED) == has_any(b, QUEUED),
        (b & crate::cell::WIRE == crate::cell::WIRE) == is_wire(b),
{
}

/// Clearing the scheduler bit of a cell does not change which signal bits differ from another.
pub proof fn lemma_clear_changes(c: u8, s: u8)
    by (bit_vector)
    ensures
        has_any(clear_queued(c) ^ s, SIGNAL) == has_any(c ^ s, SIGNAL),
        has_any(clear_queued(c) ^ s, UP) == has_any(c ^ s, UP),
        has_any(clear_queued(c) ^ s, LEFT) == has_any(c ^ s, LEFT),
        has_any(clear_queued(c) ^ s, RIGHT) == has_any(c ^ s, RIGHT),
        has_any(clear_queued(c) ^ s, DOWN) == has_any(c ^ s, DOWN),
{
}

/// The signal bits that change between a cell and its successor are the same whatever scheduler
/// bits the two carry.
pub proof fn lemma_changes(c: u8, s: u8, staged: u8)
    by (bit_vector)
    ensures
        has_any(clear_queued(c) ^ (s | (staged & QUEUED)), SIGNAL) == has_any(c ^ s, SIGNAL),
        has_any(clear_queued(c) ^ (s | (staged & QUEUED)), UP) == has_any(c ^ s, UP),
        has_any(clear_queued(c) ^ (s | (staged & QUEUED)), LEFT) == has_any(c ^ s, LEFT),
        has_any(clear_queued(c) ^ (s | (staged & QUEUED)), RIGHT) == has_any(c ^ s, RIGHT),
        has_any(clear_queued(c) ^ (s | (staged & QUEUED)), DOWN) == has_any(c ^ s, DOWN),
        has_any(c ^ s, UP) || has_any(c ^ s, LEFT) || has_any(c ^ s, RIGHT) || has_any(c ^ s, DOWN)
            ==> has_any(c ^ s, SIGNAL),
{
}

} // verus!
