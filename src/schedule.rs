//! Proof machinery of the tick: how far a tick has got, what its re-evaluations have queued,
//! and why the cells that it leaves out of the next queue need no re-evaluation.

use vstd::prelude::*;
use crate::cell::{clear_queued, has_any, is_wire, DOWN, LEFT, QUEUED, RIGHT, UP};
use crate::circuit::{
    lemma_flat_in_range, lemma_flat_injective, lemma_neighbours_in_range, tick_result, CircuitView,
};
use crate::rule::{
    successor_at, lemma_bit_kept, lemma_clear_changes, lemma_design_wire, lemma_queued_bit,
    lemma_same_but_queued, lemma_same_signal, lemma_successor_congruent, lemma_successor_design,
    lemma_successor_ignores_queued,
};

verus! {

/// A coordinate in the queue lies inside the border.
pub(crate) proof fn lemma_queued_interior(v: CircuitView, x: int, y: int)
    requires
        v.wf(),
        v.queue.contains((x, y)),
    ensures
        v.interior(x, y),
{
    let j = choose|j: int| 0 <= j < v.queue.len() && v.queue[j] == (x, y);
    assert(v.interior(v.queue[j].0, v.queue[j].1));
}

/// A cell that a tick did not re-evaluate as a wire keeps its flags up to scheduler bits.
pub(crate) proof fn lemma_tick_keeps(before: CircuitView, after: CircuitView, x: int, y: int)
    requires
        before.wf(),
        before.ready(),
        tick_result(before, after),
        before.in_bounds(x, y),
        !(before.scheduled(x, y) && is_wire(before.cells[before.at(x, y)])),
    ensures
        clear_queued(after.cells[before.at(x, y)]) == clear_queued(before.cells[before.at(x, y)]),
{
    let i = before.at(x, y);
    lemma_flat_in_range(before.width, before.height, x, y);
    assert(clear_queued(after.cells[i]) == clear_queued(before.next[i]));
    if is_wire(before.cells[i]) && before.interior(x, y) {
        assert(!before.full_scan);
        assert(!before.queue.contains((x, y)));
    }
}

/// After a tick, a neighbour of a settled-looking cell still pushes the same bit towards it.
pub(crate) proof fn lemma_tick_keeps_push(
    before: CircuitView,
    after: CircuitView,
    qx: int,
    qy: int,
    m: u8,
    px: int,
    py: int,
)
    requires
        before.wf(),
        before.ready(),
        tick_result(before, after),
        spread(before, after.queue, |a: int, b: int| before.scheduled(a, b)),
        before.in_bounds(qx, qy),
        before.interior(px, py),
        is_wire(before.cells[before.at(px, py)]),
        !after.queue.contains((px, py)),
        (qx == px - 1 && qy == py && m == RIGHT) || (qx == px + 1 && qy == py && m == LEFT) || (qx
            == px && qy == py - 1 && m == DOWN) || (qx == px && qy == py + 1 && m == UP),
    ensures
        is_wire(after.cells[before.at(qx, qy)]) == is_wire(before.cells[before.at(qx, qy)]),
        has_any(after.cells[before.at(qx, qy)], m) == has_any(before.cells[before.at(qx, qy)], m),
{
    let i = before.at(qx, qy);
    lemma_flat_in_range(before.width, before.height, qx, qy);
    let c = before.cells[i];
    if before.scheduled(qx, qy) && is_wire(c) {
        let sq = successor_at(before.cells, before.width, qx, qy);
        assert(before.propagated(after.queue, qx, qy));
        assert(!has_any(c ^ sq, m));
        lemma_bit_kept(c, sq, m);
        let j = qy * before.width + qx;
        lemma_successor_design(
            before.cells[j],
            before.cells[j - 1],
            before.cells[j + 1],
            before.cells[j - before.width],
            before.cells[j + before.width],
        );
        assert(clear_queued(after.cells[i]) == sq);
        lemma_same_but_queued(after.cells[i], sq);
        lemma_design_wire(sq, c);
    } else {
        lemma_tick_keeps(before, after, qx, qy);
        lemma_same_but_queued(after.cells[i], c);
    }
}

/// A tick keeps the scheduler's invariant: every wire cell that it leaves out of the next queue
/// already holds its successor.
pub(crate) proof fn lemma_tick_settles(before: CircuitView, after: CircuitView)
    requires
        before.wf(),
        before.ready(),
        after.wf(),
        tick_result(before, after),
        after.marks_queued(),
        spread(before, after.queue, |a: int, b: int| before.scheduled(a, b)),
    ensures
        after.ready(),
{
    assert forall|x: int, y: int|
        #![trigger after.cells[after.at(x, y)]]
        after.in_bounds(x, y) && !after.interior(x, y) implies clear_queued(
            after.cells[after.at(x, y)],
        ) == clear_queued(after.next[after.at(x, y)]) && !has_any(
            after.cells[after.at(x, y)],
            QUEUED,
        ) by {
        let i = before.at(x, y);
        assert(after.at(x, y) == i);
        if before.queue.contains((x, y)) {
            lemma_queued_interior(before, x, y);
        }
        if after.queue.contains((x, y)) {
            lemma_queued_interior(after, x, y);
        }
        assert(after.cells[before.at(x, y)] == after.cells[i]);
        lemma_queued_bit(before.cells[i]);
    }
    assert forall|x: int, y: int|
        #![trigger after.next[after.at(x, y)]]
        after.in_bounds(x, y) implies !has_any(after.next[after.at(x, y)], QUEUED) by {
        let i = before.at(x, y);
        assert(after.at(x, y) == i);
        assert(after.next[before.at(x, y)] == after.next[i]);
        lemma_queued_bit(before.cells[i]);
        assert(before.cells[before.at(x, y)] == before.cells[i]);
        if before.queue.contains((x, y)) {
            lemma_queued_interior(before, x, y);
        }
    }
    assert forall|x: int, y: int|
        #![trigger after.cells[after.at(x, y)]]
        after.interior(x, y) && is_wire(after.cells[after.at(x, y)]) && !after.queue.contains(
            (x, y),
        ) implies clear_queued(after.next[after.at(x, y)]) == clear_queued(
        after.cells[after.at(x, y)],
    ) && clear_queued(after.cells[after.at(x, y)]) == successor_at(
        after.cells,
        after.width,
        x,
        y,
    ) by {
        let w = before.width;
        let i = before.at(x, y);
        lemma_neighbours_in_range(before.width, before.height, x, y);
        lemma_flat_in_range(before.width, before.height, x, y);
        assert(after.at(x, y) == i);
        assert(after.cells[before.at(x, y)] == after.cells[i]);
        assert(after.next[before.at(x, y)] == after.next[i]);
        let c = before.cells[i];
        let sp = successor_at(before.cells, w, x, y);
        lemma_successor_design(
            before.cells[i],
            before.cells[i - 1],
            before.cells[i + 1],
            before.cells[i - w],
            before.cells[i + w],
        );
        lemma_queued_bit(c);
        lemma_queued_bit(after.cells[i]);
        if before.scheduled(x, y) && is_wire(c) {
            assert(before.propagated(after.queue, x, y));
            lemma_same_signal(c, sp);
        } else {
            lemma_tick_keeps(before, after, x, y);
            lemma_design_wire(clear_queued(after.cells[i]), clear_queued(c));
            assert(is_wire(c));
            assert(!before.full_scan);
        }
        assert(is_wire(c));
        assert(clear_queued(after.cells[i]) == sp);
        assert(before.at(x - 1, y) == i - 1);
        assert(before.at(x + 1, y) == i + 1);
        assert(before.at(x, y - 1) == i - w);
        assert(before.at(x, y + 1) == i + w);
        lemma_tick_keeps_push(before, after, x - 1, y, RIGHT, x, y);
        lemma_tick_keeps_push(before, after, x + 1, y, LEFT, x, y);
        lemma_tick_keeps_push(before, after, x, y - 1, DOWN, x, y);
        lemma_tick_keeps_push(before, after, x, y + 1, UP, x, y);
        lemma_successor_congruent(
            after.cells[i],
            after.cells[i - 1],
            after.cells[i + 1],
            after.cells[i - w],
            after.cells[i + w],
            c,
            before.cells[i - 1],
            before.cells[i + 1],
            before.cells[i - w],
            before.cells[i + w],
        );
    }
}

/// Where a tick that started from `start` stands once the coordinates in `done` are
/// re-evaluated: their scheduler bits are cleared, and each such wire cell's next flags are its
/// successor, up to scheduler bits.
pub open spec fn progressed(
    start: CircuitView,
    cur: CircuitView,
    done: spec_fn(int, int) -> bool,
) -> bool {
    &&& cur.width == start.width
    &&& cur.height == start.height
    &&& cur.cells.len() == start.cells.len()
    &&& cur.next.len() == start.next.len()
    &&& forall|x: int, y: int|
        #![trigger cur.cells[start.at(x, y)]]
        #![trigger cur.next[start.at(x, y)]]
        start.in_bounds(x, y) ==> {
            &&& cur.cells[start.at(x, y)] == if done(x, y) {
                clear_queued(start.cells[start.at(x, y)])
            } else {
                start.cells[start.at(x, y)]
            }
            &&& clear_queued(cur.next[start.at(x, y)]) == if done(x, y) && is_wire(
                start.cells[start.at(x, y)],
            ) {
                successor_at(start.cells, start.width, x, y)
            } else {
                clear_queued(start.next[start.at(x, y)])
            }
        }
}

/// Every re-evaluated wire cell among `done` has `propagated` into `bq`.
pub open spec fn spread(start: CircuitView, bq: Seq<(int, int)>, done: spec_fn(int, int) -> bool) -> bool {
    forall|x: int, y: int|
        #![trigger start.propagated(bq, x, y)]
        start.in_bounds(x, y) && done(x, y) && is_wire(start.cells[start.at(x, y)])
            ==> start.propagated(bq, x, y)
}

/// `spread` holds on a larger queue, for a set of done coordinates written another way, and
/// from a state with the same cells.
pub(crate) proof fn lemma_spread_weaken(
    start: CircuitView,
    base: CircuitView,
    bq1: Seq<(int, int)>,
    bq2: Seq<(int, int)>,
    d1: spec_fn(int, int) -> bool,
    d2: spec_fn(int, int) -> bool,
)
    requires
        spread(start, bq1, d1),
        base.width == start.width,
        base.height == start.height,
        base.cells == start.cells,
        forall|e: (int, int)| bq1.contains(e) ==> #[trigger] bq2.contains(e),
        forall|x: int, y: int| start.in_bounds(x, y) ==> #[trigger] d1(x, y) == d2(x, y),
    ensures
        spread(base, bq2, d2),
{
    assert forall|x: int, y: int|
        #![trigger base.propagated(bq2, x, y)]
        base.in_bounds(x, y) && d2(x, y) && is_wire(base.cells[base.at(x, y)])
        implies base.propagated(bq2, x, y) by {
        assert(d1(x, y));
        assert(start.propagated(bq1, x, y));
        assert(start.at(x, y) == base.at(x, y));
        assert(start.at(x, y - 1) == base.at(x, y - 1));
        assert(start.at(x, y + 1) == base.at(x, y + 1));
        assert(start.at(x - 1, y) == base.at(x - 1, y));
        assert(start.at(x + 1, y) == base.at(x + 1, y));
    }
}

/// Re-evaluating one more interior coordinate `(x, y)` extends `spread` by it.
pub(crate) proof fn lemma_spread_step(
    start: CircuitView,
    cur: CircuitView,
    new: CircuitView,
    done: spec_fn(int, int) -> bool,
    done2: spec_fn(int, int) -> bool,
    x: int,
    y: int,
)
    requires
        start.wf(),
        progressed(start, cur, done),
        spread(start, cur.building, done),
        start.interior(x, y),
        forall|a: int, b: int| #[trigger] done2(a, b) == (done(a, b) || (a == x && b == y)),
        forall|e: (int, int)| cur.building.contains(e) ==> #[trigger] new.building.contains(e),
        is_wire(cur.cells[cur.at(x, y)]) ==> cur.propagated(new.building, x, y),
    ensures
        spread(start, new.building, done2),
{
    let w = start.width;
    let h = start.height;
    let i = start.at(x, y);
    lemma_neighbours_in_range(w, h, x, y);
    lemma_flat_in_range(w, h, x, y);
    assert forall|a: int, b: int| #![trigger start.at(a, b)] start.in_bounds(a, b) implies clear_queued(
        cur.cells[start.at(a, b)],
    ) == clear_queued(start.cells[start.at(a, b)]) && is_wire(cur.cells[start.at(a, b)]) == is_wire(
        start.cells[start.at(a, b)],
    ) by {
        lemma_queued_bit(start.cells[start.at(a, b)]);
    }
    assert(start.at(x - 1, y) == i - 1);
    assert(start.at(x + 1, y) == i + 1);
    assert(start.at(x, y - 1) == i - w);
    assert(start.at(x, y + 1) == i + w);
    assert(start.in_bounds(x - 1, y));
    assert(start.in_bounds(x + 1, y));
    assert(start.in_bounds(x, y - 1));
    assert(start.in_bounds(x, y + 1));
    assert(start.in_bounds(x, y));
    lemma_successor_ignores_queued(cur.cells, start.cells, w, x, y);
    lemma_clear_changes(start.cells[i], successor_at(start.cells, w, x, y));
    lemma_queued_bit(start.cells[i]);
    assert forall|a: int, b: int|
        #![trigger start.propagated(new.building, a, b)]
        start.in_bounds(a, b) && done2(a, b) && is_wire(start.cells[start.at(a, b)])
        implies start.propagated(new.building, a, b) by {
        if a == x && b == y {
            assert(cur.propagated(new.building, x, y));
        } else {
            assert(start.propagated(cur.building, a, b));
        }
    }
}

/// `progressed` depends on which coordinates are done, not on how that set is written.
pub(crate) proof fn lemma_progress_same_done(
    start: CircuitView,
    cur: CircuitView,
    d1: spec_fn(int, int) -> bool,
    d2: spec_fn(int, int) -> bool,
)
    requires
        progressed(start, cur, d1),
        forall|x: int, y: int| start.in_bounds(x, y) ==> #[trigger] d1(x, y) == d2(x, y),
    ensures
        progressed(start, cur, d2),
{
    assert forall|x: int, y: int| #![trigger cur.cells[start.at(x, y)]] start.in_bounds(x, y) implies {
        &&& cur.cells[start.at(x, y)] == if d2(x, y) {
            clear_queued(start.cells[start.at(x, y)])
        } else {
            start.cells[start.at(x, y)]
        }
        &&& clear_queued(cur.next[start.at(x, y)]) == if d2(x, y) && is_wire(
            start.cells[start.at(x, y)],
        ) {
            successor_at(start.cells, start.width, x, y)
        } else {
            clear_queued(start.next[start.at(x, y)])
        }
    } by {
        assert(d1(x, y) == d2(x, y));
    }
}

/// `progressed` from a state whose buffers agree with `start` but for staged scheduler bits.
pub(crate) proof fn lemma_progress_rebase(
    start: CircuitView,
    base: CircuitView,
    cur: CircuitView,
    done: spec_fn(int, int) -> bool,
)
    requires
        progressed(start, cur, done),
        base.width == start.width,
        base.height == start.height,
        base.cells == start.cells,
        base.next.len() == start.next.len(),
        forall|x: int, y: int|
            #![trigger start.at(x, y)]
            start.in_bounds(x, y) ==> clear_queued(start.next[start.at(x, y)]) == clear_queued(
                base.next[start.at(x, y)],
            ),
    ensures
        progressed(base, cur, done),
{
    assert forall|x: int, y: int|
        #![trigger cur.cells[base.at(x, y)]]
        #![trigger cur.next[base.at(x, y)]]
        base.in_bounds(x, y) implies {
        &&& cur.cells[base.at(x, y)] == if done(x, y) {
            clear_queued(base.cells[base.at(x, y)])
        } else {
            base.cells[base.at(x, y)]
        }
        &&& clear_queued(cur.next[base.at(x, y)]) == if done(x, y) && is_wire(
            base.cells[base.at(x, y)],
        ) {
            successor_at(base.cells, base.width, x, y)
        } else {
            clear_queued(base.next[base.at(x, y)])
        }
    } by {
        assert(start.at(x, y) == base.at(x, y));
        assert(cur.cells[start.at(x, y)] == cur.cells[base.at(x, y)]);
    }
}

/// Re-evaluating one more interior coordinate `(x, y)` extends `progressed` by it.
pub(crate) proof fn lemma_progress_step(
    start: CircuitView,
    cur: CircuitView,
    new: CircuitView,
    done: spec_fn(int, int) -> bool,
    done2: spec_fn(int, int) -> bool,
    x: int,
    y: int,
)
    requires
        start.wf(),
        progressed(start, cur, done),
        start.interior(x, y),
        forall|a: int, b: int| #[trigger] done2(a, b) == (done(a, b) || (a == x && b == y)),
        new.width == cur.width,
        new.height == cur.height,
        new.cells == cur.cells.update(cur.at(x, y), clear_queued(cur.cells[cur.at(x, y)])),
        new.next.len() == cur.next.len(),
        forall|k: int|
            0 <= k < cur.next.len() && k != cur.at(x, y) ==> clear_queued(#[trigger] new.next[k])
                == clear_queued(cur.next[k]),
        clear_queued(new.next[cur.at(x, y)]) == if is_wire(cur.cells[cur.at(x, y)]) {
            successor_at(cur.cells, cur.width, x, y)
        } else {
            clear_queued(cur.next[cur.at(x, y)])
        },
    ensures
        progressed(start, new, done2),
{
    let w = start.width;
    let h = start.height;
    let i = start.at(x, y);
    lemma_neighbours_in_range(w, h, x, y);
    lemma_flat_in_range(w, h, x, y);
    // The neighbourhood of (x, y) differs from the start only in scheduler bits.
    assert forall|a: int, b: int| #![trigger start.at(a, b)] start.in_bounds(a, b) implies clear_queued(
        cur.cells[start.at(a, b)],
    ) == clear_queued(start.cells[start.at(a, b)]) by {
        lemma_queued_bit(start.cells[start.at(a, b)]);
    }
    assert(start.at(x - 1, y) == i - 1);
    assert(start.at(x + 1, y) == i + 1);
    assert(start.at(x, y - 1) == i - w);
    assert(start.at(x, y + 1) == i + w);
    assert(start.in_bounds(x - 1, y));
    assert(start.in_bounds(x + 1, y));
    assert(start.in_bounds(x, y - 1));
    assert(start.in_bounds(x, y + 1));
    assert(start.in_bounds(x, y));
    lemma_successor_ignores_queued(cur.cells, start.cells, w, x, y);
    lemma_queued_bit(start.cells[i]);
    assert forall|a: int, b: int|
        #![trigger new.cells[start.at(a, b)]]
        #![trigger new.next[start.at(a, b)]]
        start.in_bounds(a, b) implies {
        &&& new.cells[start.at(a, b)] == if done2(a, b) {
            clear_queued(start.cells[start.at(a, b)])
        } else {
            start.cells[start.at(a, b)]
        }
        &&& clear_queued(new.next[start.at(a, b)]) == if done2(a, b) && is_wire(
            start.cells[start.at(a, b)],
        ) {
            successor_at(start.cells, start.width, a, b)
        } else {
            clear_queued(start.next[start.at(a, b)])
        }
    } by {
        lemma_flat_in_range(w, h, a, b);
        if a == x && b == y {
            lemma_queued_bit(cur.cells[i]);
        } else {
            if start.at(a, b) == i {
                lemma_flat_injective(w, a, b, x, y);
            }
            assert(cur.cells[start.at(a, b)] == new.cells[start.at(a, b)]);
        }
    }
}

} // verus!
