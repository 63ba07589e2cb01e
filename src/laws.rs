use vstd::prelude::*;
use crate::cell::{clear_queued, has_any, is_wire, DOWN, LEFT, QUEUED, RIGHT, UP};
use crate::circuit::{lemma_flat_in_range, lemma_neighbours_in_range, tick_result, valid_size, CircuitView};
use crate::rule::{gains_down, gains_left, gains_right, gains_up, successor, successor_at};
use crate::rule::{
    lemma_design_wire, lemma_queued_bit, lemma_same_but_queued, lemma_unmarked_equal,
    lemma_successor_congruent, lemma_successor_ignores_queued,
};

verus! {

/// A grid can be made exactly when both sides are positive and their product can be addressed;
/// a zero side, or a product beyond the index range, makes it fail.
pub proof fn lemma_construction_fails(w: int, h: int)
    requires
        w == 0 || h == 0 || w * h > usize::MAX,
    ensures
        !valid_size(w, h),
{
}

/// Right after an edit of an interior cell, the cell reads back as written and the next tick is
/// a full scan.
pub proof fn lemma_edit_reads_back(before: CircuitView, x: int, y: int, v: u8)
    requires
        before.wf(),
        before.interior(x, y),
    ensures
        before.edited(x, y, v).cells[before.at(x, y)] == v,
        before.edited(x, y, v).full_scan,
        before.edited(x, y, v).wf(),
{
    crate::circuit::lemma_flat_in_range(before.width, before.height, x, y);
    assert forall|k: int| 0 <= k < before.edited(x, y, v).cells.len() implies #[trigger] before.edited(
        x,
        y,
        v,
    ).cells[k] & crate::cell::DESIGN == before.edited(x, y, v).next[k] & crate::cell::DESIGN && (
    !is_wire(before.edited(x, y, v).cells[k]) ==> clear_queued(before.edited(x, y, v).cells[k])
        == clear_queued(before.edited(x, y, v).next[k])) by {}
}

/// An edit aimed at the border, or off the grid, changes nothing at all.
pub proof fn lemma_border_edit_is_no_op(before: CircuitView, x: int, y: int, v: u8)
    requires
        !before.interior(x, y),
    ensures
        before.edited(x, y, v) == before,
{
}

/// On a horizontal run, where neither the cell above nor the cell below is a wire, a cell
/// only passes signal on: it carries a direction exactly when the neighbour behind it pushes
/// that direction in, and no bend is injected.
pub proof fn lemma_straight_run(c: u8, l: u8, r: u8, u: u8, d: u8)
    requires
        !is_wire(u),
        !is_wire(d),
    ensures
        gains_right(c, l, r, u, d) == has_any(l, RIGHT),
        gains_left(c, l, r, u, d) == has_any(r, LEFT),
        gains_down(c, l, r, u, d) == has_any(u, DOWN),
        gains_up(c, l, r, u, d) == has_any(d, UP),
{
}

/// The same on a vertical run, where neither side neighbour is a wire.
pub proof fn lemma_straight_column(c: u8, l: u8, r: u8, u: u8, d: u8)
    requires
        !is_wire(l),
        !is_wire(r),
    ensures
        gains_right(c, l, r, u, d) == has_any(l, RIGHT),
        gains_left(c, l, r, u, d) == has_any(r, LEFT),
        gains_down(c, l, r, u, d) == has_any(u, DOWN),
        gains_up(c, l, r, u, d) == has_any(d, UP),
{
}

/// A horizontal wire that ends in a cell whose only other wire neighbour lies below turns
/// signal that arrived flowing along it downwards, into that wire, in the next step.
pub proof fn lemma_bend_turns_down(c: u8, l: u8, r: u8, u: u8, d: u8)
    requires
        is_wire(d),
        !is_wire(u),
        (is_wire(l) && !is_wire(r) && has_any(c, RIGHT)) || (is_wire(r) && !is_wire(l) && has_any(
            c,
            LEFT,
        )),
    ensures
        gains_down(c, l, r, u, d),
{
}

/// A horizontal wire that ends in a cell whose only other wire neighbour lies above turns
/// signal that arrived flowing along it upwards, into that wire, in the next step.
pub proof fn lemma_bend_turns_up(c: u8, l: u8, r: u8, u: u8, d: u8)
    requires
        is_wire(u),
        !is_wire(d),
        (is_wire(l) && !is_wire(r) && has_any(c, RIGHT)) || (is_wire(r) && !is_wire(l) && has_any(
            c,
            LEFT,
        )),
    ensures
        gains_up(c, l, r, u, d),
{
}

/// Whether no cell of the grid is a wire.
pub open spec fn wireless(v: CircuitView) -> bool {
    forall|x: int, y: int|
        #![trigger v.cells[v.at(x, y)]]
        v.in_bounds(x, y) ==> !is_wire(v.cells[v.at(x, y)])
}

/// Whether no cell of the grid carries the scheduler bit.
pub open spec fn unmarked(v: CircuitView) -> bool {
    forall|x: int, y: int|
        #![trigger v.cells[v.at(x, y)]]
        v.in_bounds(x, y) ==> !has_any(v.cells[v.at(x, y)], QUEUED)
}

/// A grid without wire cells is a fixed point of a tick: afterwards it is still without wires
/// and without scheduler bits, and every cell keeps its design and signal bits. When no cell
/// carried a scheduler bit before (which only a direct edit can place on a wireless grid), every
/// cell comes out byte for byte unchanged, so repeated ticks never change any cell.
/// `after` is what a tick makes of `before`, with what `tick` promises of its result.
pub proof fn lemma_no_wire_fixed_point(before: CircuitView, after: CircuitView)
    requires
        before.wf(),
        tick_result(before, after),
        after.marks_queued(),
        after.queued_marked(),
        wireless(before),
    ensures
        wireless(after),
        unmarked(after),
        forall|x: int, y: int|
            #![trigger after.cells[after.at(x, y)]]
            after.in_bounds(x, y) ==> clear_queued(after.cells[after.at(x, y)]) == clear_queued(
                before.cells[before.at(x, y)],
            ),
        unmarked(before) ==> after.cells =~= before.cells,
{
    assert forall|x: int, y: int|
        #![trigger after.cells[after.at(x, y)]]
        after.in_bounds(x, y) implies clear_queued(after.cells[after.at(x, y)]) == clear_queued(
            before.cells[before.at(x, y)],
        ) && !is_wire(after.cells[after.at(x, y)]) by {
        let i = before.at(x, y);
        assert(after.at(x, y) == i);
        crate::circuit::lemma_flat_in_range(before.width, before.height, x, y);
        assert(!is_wire(before.cells[i]));
        assert(after.cells[before.at(x, y)] == after.cells[i]);
        lemma_queued_bit(after.cells[i]);
        lemma_queued_bit(before.cells[i]);
        lemma_design_wire(clear_queued(after.cells[i]), clear_queued(before.cells[i]));
    }
    assert forall|x: int, y: int|
        #![trigger after.cells[after.at(x, y)]]
        after.in_bounds(x, y) implies !has_any(after.cells[after.at(x, y)], QUEUED) by {
        if has_any(after.cells[after.at(x, y)], QUEUED) {
            assert(after.queue.contains((x, y)));
            let j = choose|j: int| 0 <= j < after.queue.len() && after.queue[j] == (x, y);
            assert(is_wire(after.cells[after.at(after.queue[j].0, after.queue[j].1)]));
        }
    }
    if unmarked(before) {
        assert forall|k: int| 0 <= k < after.cells.len() implies after.cells[k] == before.cells[k] by {
            let w = before.width;
            let x = k % w;
            let y = k / w;
            assert(0 <= x < w && 0 <= y && k == y * w + x) by (nonlinear_arith)
                requires
                    w > 0,
                    0 <= k,
                    x == k % w,
                    y == k / w,
            ;
            assert(y < before.height) by (nonlinear_arith)
                requires
                    k == y * w + x,
                    0 <= x < w,
                    k < w * before.height,
                    w > 0,
            ;
            assert(after.at(x, y) == k && before.at(x, y) == k);
            assert(after.in_bounds(x, y));
            assert(after.cells[after.at(x, y)] == after.cells[k]);
            assert(before.cells[before.at(x, y)] == before.cells[k]);
            lemma_unmarked_equal(after.cells[k], before.cells[k]);
        }
    }
}

/// The flags, up to scheduler bits, at `(x2, y2)` of a grid that holds one horizontal run of
/// `n` wire cells from `(a, y)` and nothing else, where only the cell `(a + k, y)` carries
/// signal, flowing right.
pub open spec fn run_cell(a: int, y: int, n: int, k: int, x2: int, y2: int) -> u8 {
    if y2 == y && a <= x2 < a + n {
        if x2 == a + k {
            0x11u8
        } else {
            0x01u8
        }
    } else {
        0u8
    }
}

/// Whether the grid is the run of `run_cell` with the signal at `(a + k, y)`.
pub open spec fn run_state(v: CircuitView, a: int, y: int, n: int, k: int) -> bool {
    forall|x2: int, y2: int|
        #![trigger v.cells[v.at(x2, y2)]]
        v.in_bounds(x2, y2) ==> clear_queued(v.cells[v.at(x2, y2)]) == run_cell(a, y, n, k, x2, y2)
}

proof fn lemma_run_values(v: u8)
    by (bit_vector)
    requires
        v == 0 || v == 1 || v == 0x11,
    ensures
        clear_queued(v) == v,
        is_wire(v) == (v != 0),
{
}

proof fn lemma_run_successor(ec: u8, el: u8, er: u8)
    by (bit_vector)
    requires
        ec == 1 || ec == 0x11,
        el == 0 || el == 1 || el == 0x11,
        er == 0 || er == 1 || er == 0x11,
    ensures
        successor(ec, el, er, 0, 0) == if el == 0x11 {
            0x11u8
        } else {
            1u8
        },
{
}

/// On a lone straight run, one tick moves the signal one cell to the right and loses nothing:
/// no bend is injected and no other cell gains or keeps a signal.
#[verifier::spinoff_prover]
#[verifier::rlimit(50)]
pub proof fn lemma_run_step(
    before: CircuitView,
    after: CircuitView,
    a: int,
    y: int,
    n: int,
    k: int,
)
    requires
        before.wf(),
        before.ready(),
        tick_result(before, after),
        run_state(before, a, y, n, k),
        1 <= a,
        1 <= n,
        0 <= k,
        a + n <= before.width - 1,
        1 <= y < before.height - 1,
    ensures
        run_state(after, a, y, n, k + 1),
{
    let w = before.width;
    let h = before.height;
    assert forall|x2: int, y2: int|
        #![trigger after.cells[after.at(x2, y2)]]
        after.in_bounds(x2, y2) implies clear_queued(after.cells[after.at(x2, y2)]) == run_cell(
            a,
            y,
            n,
            k + 1,
            x2,
            y2,
        ) by {
        let i = before.at(x2, y2);
        lemma_flat_in_range(w, h, x2, y2);
        assert(after.at(x2, y2) == i);
        assert(after.cells[before.at(x2, y2)] == after.cells[i]);
        let c = before.cells[i];
        assert(clear_queued(c) == run_cell(a, y, n, k, x2, y2));
        lemma_run_values(run_cell(a, y, n, k, x2, y2));
        lemma_queued_bit(c);
        if before.queue.contains((x2, y2)) {
            let j = choose|j: int| 0 <= j < before.queue.len() && before.queue[j] == (x2, y2);
            assert(before.interior(before.queue[j].0, before.queue[j].1));
        }
        if y2 == y && a <= x2 < a + n {
            assert(is_wire(c));
            lemma_neighbours_in_range(w, h, x2, y2);
            assert(before.at(x2 - 1, y2) == i - 1);
            assert(before.at(x2 + 1, y2) == i + 1);
            assert(before.at(x2, y2 - 1) == i - w);
            assert(before.at(x2, y2 + 1) == i + w);
            assert(before.in_bounds(x2 - 1, y2) && before.in_bounds(x2 + 1, y2));
            assert(before.in_bounds(x2, y2 - 1) && before.in_bounds(x2, y2 + 1));
            let el = run_cell(a, y, n, k, x2 - 1, y2);
            let er = run_cell(a, y, n, k, x2 + 1, y2);
            let ec = run_cell(a, y, n, k, x2, y2);
            assert(clear_queued(before.cells[i - 1]) == el);
            assert(clear_queued(before.cells[i + 1]) == er);
            assert(clear_queued(before.cells[i - w]) == 0u8);
            assert(clear_queued(before.cells[i + w]) == 0u8);
            lemma_run_values(el);
            lemma_run_values(er);
            lemma_run_values(0u8);
            lemma_same_but_queued(before.cells[i - 1], el);
            lemma_same_but_queued(before.cells[i + 1], er);
            lemma_same_but_queued(before.cells[i - w], 0u8);
            lemma_same_but_queued(before.cells[i + w], 0u8);
            lemma_successor_congruent(
                c,
                before.cells[i - 1],
                before.cells[i + 1],
                before.cells[i - w],
                before.cells[i + w],
                ec,
                el,
                er,
                0u8,
                0u8,
            );
            lemma_run_successor(ec, el, er);
            if !(before.scheduled(x2, y2)) {
                assert(!before.full_scan);
                assert(!before.queue.contains((x2, y2)));
                assert(before.cells[before.at(x2, y2)] == c);
            }
        }
    }
}

/// Running ticks on a lone straight run of `n` wire cells whose first cell carries signal
/// flowing right moves the signal one cell further per tick, in order and without loss: after
/// `k` ticks only `(a + k, y)` carries it. `states[j]` is what a tick makes of
/// `states[j - 1]`, with what `tick` promises of its result.
pub proof fn lemma_run_propagates(states: Seq<CircuitView>, a: int, y: int, n: int, k: nat)
    requires
        states.len() > k,
        states[0].wf(),
        states[0].ready(),
        run_state(states[0], a, y, n, 0),
        1 <= a,
        1 <= n,
        a + n <= states[0].width - 1,
        1 <= y < states[0].height - 1,
        forall|j: int|
            1 <= j < states.len() ==> tick_result(states[j - 1], #[trigger] states[j])
                && states[j].wf() && states[j].ready(),
    ensures
        run_state(states[k as int], a, y, n, k as int),
        states[k as int].width == states[0].width,
        states[k as int].height == states[0].height,
    decreases k,
{
    if k > 0 {
        lemma_run_propagates(states, a, y, n, (k - 1) as nat);
        let p = k - 1;
        assert(tick_result(states[p], states[p + 1]));
        lemma_run_step(states[p], states[p + 1], a, y, n, p);
    }
}

/// Two grids of one size whose buffers agree cell for cell up to scheduler bits.
pub open spec fn same_up_to_marks(a: CircuitView, b: CircuitView) -> bool {
    &&& a.width == b.width
    &&& a.height == b.height
    &&& forall|x: int, y: int|
        #![trigger a.cells[a.at(x, y)]]
        a.in_bounds(x, y) ==> clear_queued(a.cells[a.at(x, y)]) == clear_queued(
            b.cells[b.at(x, y)],
        ) && clear_queued(a.next[a.at(x, y)]) == clear_queued(b.next[b.at(x, y)])
}

/// One step of the agreement: from grids that agree up to scheduler bits, a forced full-scan
/// tick of the one and an incremental tick of the other, whose scheduler invariant holds, give
/// grids that agree again.
#[verifier::spinoff_prover]
#[verifier::rlimit(50)]
pub proof fn lemma_full_and_incremental_step(
    full_before: CircuitView,
    inc_before: CircuitView,
    full_after: CircuitView,
    inc_after: CircuitView,
)
    requires
        full_before.wf(),
        inc_before.wf(),
        inc_before.ready(),
        !inc_before.full_scan,
        same_up_to_marks(full_before, inc_before),
        tick_result(CircuitView { full_scan: true, ..full_before }, full_after),
        tick_result(inc_before, inc_after),
    ensures
        same_up_to_marks(full_after, inc_after),
{
    let forced = CircuitView { full_scan: true, ..full_before };
    let w = full_before.width;
    let h = full_before.height;
    assert forall|x: int, y: int|
        #![trigger full_after.cells[full_after.at(x, y)]]
        full_after.in_bounds(x, y) implies clear_queued(full_after.cells[full_after.at(x, y)])
        == clear_queued(inc_after.cells[inc_after.at(x, y)]) && clear_queued(
        full_after.next[full_after.at(x, y)],
    ) == clear_queued(inc_after.next[inc_after.at(x, y)]) by {
        let i = full_before.at(x, y);
        lemma_flat_in_range(w, h, x, y);
        assert(forced.at(x, y) == i && inc_before.at(x, y) == i && full_after.at(x, y) == i
            && inc_after.at(x, y) == i);
        assert(forced.in_bounds(x, y) && inc_before.in_bounds(x, y));
        assert(full_after.cells[forced.at(x, y)] == full_after.cells[i]);
        assert(full_after.next[forced.at(x, y)] == full_after.next[i]);
        assert(inc_after.cells[inc_before.at(x, y)] == inc_after.cells[i]);
        assert(inc_after.next[inc_before.at(x, y)] == inc_after.next[i]);
        assert(full_before.cells[full_before.at(x, y)] == full_before.cells[i]);
        let fc = full_before.cells[i];
        let ic = inc_before.cells[i];
        lemma_queued_bit(fc);
        lemma_queued_bit(ic);
        lemma_same_but_queued(fc, ic);
        if inc_before.queue.contains((x, y)) {
            let j = choose|j: int| 0 <= j < inc_before.queue.len() && inc_before.queue[j] == (x, y);
            assert(inc_before.interior(inc_before.queue[j].0, inc_before.queue[j].1));
        }
        if full_before.interior(x, y) {
            lemma_neighbours_in_range(w, h, x, y);
            assert(full_before.at(x - 1, y) == i - 1);
            assert(full_before.at(x + 1, y) == i + 1);
            assert(full_before.at(x, y - 1) == i - w);
            assert(full_before.at(x, y + 1) == i + w);
            assert(full_before.in_bounds(x - 1, y) && full_before.in_bounds(x + 1, y));
            assert(full_before.in_bounds(x, y - 1) && full_before.in_bounds(x, y + 1));
            assert(full_before.cells[full_before.at(x - 1, y)] == full_before.cells[i - 1]);
            assert(full_before.cells[full_before.at(x + 1, y)] == full_before.cells[i + 1]);
            assert(full_before.cells[full_before.at(x, y - 1)] == full_before.cells[i - w]);
            assert(full_before.cells[full_before.at(x, y + 1)] == full_before.cells[i + w]);
            lemma_successor_ignores_queued(full_before.cells, inc_before.cells, w, x, y);
            if is_wire(ic) && !inc_before.queue.contains((x, y)) {
                assert(inc_before.cells[inc_before.at(x, y)] == ic);
            }
        }
    }
}

/// Running ticks in full-scan mode only, or a first full-scan tick followed by incremental ticks,
/// gives cell for cell the same design and signal bits after every tick. `full[j]` is what a
/// forced full-scan tick makes of `full[j - 1]`, `inc[j]` what a tick makes of `inc[j - 1]`; each
/// state satisfies what `tick` promises of its result.
#[verifier::spinoff_prover]
#[verifier::rlimit(50)]
pub proof fn lemma_full_and_incremental_agree(
    full: Seq<CircuitView>,
    inc: Seq<CircuitView>,
    n: nat,
    k: nat,
)
    requires
        full.len() == n + 1,
        inc.len() == n + 1,
        full[0] == inc[0],
        inc[0].full_scan,
        inc[0].wf(),
        inc[0].ready(),
        forall|j: int|
            1 <= j <= n ==> tick_result(CircuitView { full_scan: true, ..full[j - 1] }, #[trigger] full[j])
                && full[j].wf(),
        forall|j: int|
            1 <= j <= n ==> tick_result(inc[j - 1], #[trigger] inc[j]) && inc[j].wf()
                && inc[j].ready(),
        k <= n,
    ensures
        same_up_to_marks(full[k as int], inc[k as int]),
    decreases k,
{
    if k == 0 {
        assert(same_up_to_marks(full[0], inc[0]));
    } else if k == 1 {
        let forced = CircuitView { full_scan: true, ..full[0] };
        assert(forced == inc[0]);
        assert(tick_result(inc[0], full[1]));
        assert(tick_result(inc[0], inc[1]));
        let before = inc[0];
        assert forall|x: int, y: int|
            #![trigger full[1].cells[full[1].at(x, y)]]
            full[1].in_bounds(x, y) implies clear_queued(full[1].cells[full[1].at(x, y)])
            == clear_queued(inc[1].cells[inc[1].at(x, y)]) && clear_queued(
            full[1].next[full[1].at(x, y)],
        ) == clear_queued(inc[1].next[inc[1].at(x, y)]) by {
            assert(before.at(x, y) == full[1].at(x, y) && before.at(x, y) == inc[1].at(x, y));
            assert(full[1].cells[before.at(x, y)] == full[1].cells[full[1].at(x, y)]);
            assert(inc[1].cells[before.at(x, y)] == inc[1].cells[inc[1].at(x, y)]);
            assert(full[1].next[before.at(x, y)] == full[1].next[full[1].at(x, y)]);
            assert(inc[1].next[before.at(x, y)] == inc[1].next[inc[1].at(x, y)]);
        }
    } else {
        lemma_full_and_incremental_agree(full, inc, n, (k - 1) as nat);
        let p = k - 1;
        assert(tick_result(inc[p - 1], inc[p]));
        assert(tick_result(CircuitView { full_scan: true, ..full[p] }, full[p + 1]));
        assert(tick_result(inc[p], inc[p + 1]));
        lemma_full_and_incremental_step(full[p], inc[p], full[p + 1], inc[p + 1]);
    }
}

} // verus!
