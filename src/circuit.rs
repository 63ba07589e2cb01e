use vstd::prelude::*;
use crate::cell::{
    Cell, CellBits, clear_queued, has_any, is_wire, ALL_FLAGS, DESIGN, DOWN, LEFT, QUEUED, RIGHT,
    SIGNAL, UP,
};
use crate::schedule::{
    lemma_progress_rebase, lemma_progress_same_done, lemma_progress_step, lemma_spread_step,
    lemma_spread_weaken, lemma_tick_settles, progressed, spread,
};
use crate::rule::{
    successor, successor_at, wire_successor, lemma_changes, lemma_design_wire, lemma_queued_bit,
    lemma_successor_ignores_queued, lemma_successor_unqueued,
};

verus! {

/// Whether `(x, y)` lies strictly inside a `w` by `h` grid, off its one-cell border.
pub open spec fn interior(w: int, h: int, x: int, y: int) -> bool {
    1 <= x < w - 1 && 1 <= y < h - 1
}

/// Whether `(x, y)` lies on a `w` by `h` grid.
pub open spec fn in_bounds(w: int, h: int, x: int, y: int) -> bool {
    0 <= x < w && 0 <= y < h
}

/// The row-major position of `(x, y)` in a grid of width `w`.
pub open spec fn flat(w: int, x: int, y: int) -> int {
    y * w + x
}

/// Whether a grid of `w` by `h` cells can be addressed.
pub open spec fn valid_size(w: int, h: int) -> bool {
    w > 0 && h > 0 && w * h <= usize::MAX
}

/// Every coordinate on the grid has a position inside the buffers.
pub proof fn lemma_flat_in_range(w: int, h: int, x: int, y: int)
    by (nonlinear_arith)
    requires
        in_bounds(w, h, x, y),
    ensures
        0 <= flat(w, x, y) < w * h,
{
}

/// Distinct coordinates of a row-major grid have distinct positions.
pub proof fn lemma_flat_injective(w: int, x1: int, y1: int, x2: int, y2: int)
    by (nonlinear_arith)
    requires
        0 <= x1 < w,
        0 <= x2 < w,
        0 <= y1,
        0 <= y2,
        flat(w, x1, y1) == flat(w, x2, y2),
    ensures
        x1 == x2 && y1 == y2,
{
}

/// The four neighbours of an interior cell lie on the grid.
pub proof fn lemma_neighbours_in_range(w: int, h: int, x: int, y: int)
    requires
        interior(w, h, x, y),
    ensures
        flat(w, x, y - 1) == flat(w, x, y) - w,
        flat(w, x, y + 1) == flat(w, x, y) + w,
        0 <= flat(w, x, y) - w,
        flat(w, x, y) + w < w * h,
{
    assert(flat(w, x, y - 1) == flat(w, x, y) - w) by (nonlinear_arith);
    assert(flat(w, x, y + 1) == flat(w, x, y) + w) by (nonlinear_arith);
    lemma_flat_in_range(w, h, x, y - 1);
    lemma_flat_in_range(w, h, x, y + 1);
}

/// A grid coordinate.
struct Coord {
    x: usize,
    y: usize,
}

/// A double-buffered grid of cells with a one-cell border that is never simulated.
pub struct Circuit {
    width: usize,
    height: usize,
    full_update: bool,
    cells: Vec<Cell>,
    next_cells: Vec<Cell>,
    update_queue: Vec<Coord>,
    next_update_queue: Vec<Coord>,
}

/// The abstract state of a circuit.
pub struct CircuitView {
    pub width: int,
    pub height: int,
    /// Whether the next tick re-evaluates the whole interior.
    pub full_scan: bool,
    /// The visible cells, row-major.
    pub cells: Seq<u8>,
    /// The buffer that the next tick writes into.
    pub next: Seq<u8>,
    /// The coordinates that an incremental tick re-evaluates.
    pub queue: Seq<(int, int)>,
    /// The coordinates being gathered for the tick after the current one.
    pub building: Seq<(int, int)>,
}

impl CircuitView {
    /// The position of `(x, y)` in the buffers.
    pub open spec fn at(self, x: int, y: int) -> int {
        flat(self.width, x, y)
    }

    /// Whether `(x, y)` lies strictly inside this grid's border.
    pub open spec fn interior(self, x: int, y: int) -> bool {
        interior(self.width, self.height, x, y)
    }

    /// Whether `(x, y)` lies on this grid.
    pub open spec fn in_bounds(self, x: int, y: int) -> bool {
        in_bounds(self.width, self.height, x, y)
    }

    /// The invariant of a circuit between calls.
    pub open spec fn wf(self) -> bool {
        &&& valid_size(self.width, self.height)
        &&& self.cells.len() == self.width * self.height
        &&& self.next.len() == self.width * self.height
        &&& forall|j: int|
            0 <= j < self.queue.len() ==> self.interior(#[trigger] self.queue[j].0, self.queue[j].1)
        &&& forall|j: int|
            0 <= j < self.building.len() ==> self.interior(
                #[trigger] self.building[j].0,
                self.building[j].1,
            )
        &&& self.queue.no_duplicates()
        &&& self.building.no_duplicates()
        &&& forall|k: int|
            0 <= k < self.cells.len() ==> #[trigger] self.cells[k] & DESIGN == self.next[k] & DESIGN
        &&& forall|k: int|
            0 <= k < self.cells.len() && !is_wire(#[trigger] self.cells[k]) ==> clear_queued(
                self.cells[k],
            ) == clear_queued(self.next[k])
    }

    /// The state after both buffers take `v` at `(x, y)`, if it is interior.
    pub open spec fn edited(self, x: int, y: int, v: u8) -> CircuitView {
        if self.interior(x, y) {
            CircuitView {
                full_scan: true,
                cells: self.cells.update(self.at(x, y), v),
                next: self.next.update(self.at(x, y), v),
                ..self
            }
        } else {
            self
        }
    }

    /// Whether an incremental tick may skip every wire cell that is not queued: each such
    /// interior cell already holds its successor, and the buffer to be written next agrees with
    /// it, up to scheduler bits.
    pub open spec fn settled(self) -> bool {
        forall|x: int, y: int|
            #![trigger self.cells[self.at(x, y)]]
            self.interior(x, y) && is_wire(self.cells[self.at(x, y)]) && !self.queue.contains(
                (x, y),
            ) ==> clear_queued(self.next[self.at(x, y)]) == clear_queued(self.cells[self.at(x, y)])
                && clear_queued(self.cells[self.at(x, y)]) == successor_at(
                self.cells,
                self.width,
                x,
                y,
            )
    }

    /// Every scheduler bit in the buffer being written marks a coordinate of the queue being
    /// built.
    pub open spec fn marks_listed(self) -> bool {
        forall|x: int, y: int|
            #![trigger self.next[self.at(x, y)]]
            self.in_bounds(x, y) && has_any(self.next[self.at(x, y)], QUEUED)
                ==> self.building.contains((x, y))
    }

    /// Every coordinate of the queue being built is a wire cell marked in the buffer being
    /// written.
    pub open spec fn listed_marked(self) -> bool {
        forall|j: int|
            0 <= j < self.building.len() ==> has_any(
                #[trigger] self.next[self.at(self.building[j].0, self.building[j].1)],
                QUEUED,
            ) && is_wire(self.next[self.at(self.building[j].0, self.building[j].1)])
    }

    /// Every coordinate of the queue is a wire cell marked in the visible cells.
    pub open spec fn queued_marked(self) -> bool {
        forall|j: int|
            0 <= j < self.queue.len() ==> has_any(
                #[trigger] self.cells[self.at(self.queue[j].0, self.queue[j].1)],
                QUEUED,
            ) && is_wire(self.cells[self.at(self.queue[j].0, self.queue[j].1)])
    }

    /// What offering `(x, y)` to the scheduler does: an interior wire cell not yet marked in
    /// the buffer being written gets marked there and appended to the queue being built;
    /// otherwise nothing changes.
    pub open spec fn offered(self, x: int, y: int) -> CircuitView {
        let i = self.at(x, y);
        if self.interior(x, y) && is_wire(self.next[i]) && !has_any(self.next[i], QUEUED) {
            CircuitView {
                next: self.next.update(i, self.next[i] | QUEUED),
                building: self.building.push((x, y)),
                ..self
            }
        } else {
            self
        }
    }

    /// `offered` when `cond` holds.
    pub open spec fn offered_if(self, cond: bool, x: int, y: int) -> CircuitView {
        if cond {
            self.offered(x, y)
        } else {
            self
        }
    }

    /// What re-evaluating the interior cell `(x, y)` does: its scheduler bit is cleared; a wire
    /// cell's successor, with the staged scheduler bit, goes into the buffer being written; and
    /// when its signal bits change, the cell above, the cell on the left, the cell itself, the
    /// cell on the right and the cell below are offered in that order, each neighbour only
    /// when the direction pointing at it changed.
    pub open spec fn evaluated(self, x: int, y: int) -> CircuitView {
        let i = self.at(x, y);
        let c = self.cells[i];
        let cleared = CircuitView { cells: self.cells.update(i, clear_queued(c)), ..self };
        if !is_wire(c) {
            cleared
        } else {
            let s = successor_at(self.cells, self.width, x, y);
            let mid = CircuitView {
                next: self.next.update(i, s | (self.next[i] & QUEUED)),
                ..cleared
            };
            let ch = c ^ s;
            if !has_any(ch, SIGNAL) {
                mid
            } else {
                mid.offered_if(has_any(ch, UP), x, y - 1).offered_if(
                    has_any(ch, LEFT),
                    x - 1,
                    y,
                ).offered(x, y).offered_if(has_any(ch, RIGHT), x + 1, y).offered_if(
                    has_any(ch, DOWN),
                    x,
                    y + 1,
                )
            }
        }
    }

    /// The state after re-evaluating `(1, y)`, ..., `(x_end - 1, y)` in this order.
    pub open spec fn scan_row(self, y: int, x_end: int) -> CircuitView
        decreases x_end,
    {
        if x_end <= 1 {
            self
        } else {
            self.scan_row(y, x_end - 1).evaluated(x_end - 1, y)
        }
    }

    /// The state after re-evaluating the interior of rows `1`, ..., `y_end - 1`, row by row,
    /// each from left to right.
    pub open spec fn scan_rows(self, y_end: int) -> CircuitView
        decreases y_end,
    {
        if y_end <= 1 {
            self
        } else {
            self.scan_rows(y_end - 1).scan_row(y_end - 1, self.width - 1)
        }
    }

    /// The state after re-evaluating the coordinates of `q` in their order.
    pub open spec fn scan_queue(self, q: Seq<(int, int)>) -> CircuitView
        decreases q.len(),
    {
        if q.len() == 0 {
            self
        } else {
            self.scan_queue(q.drop_last()).evaluated(q.last().0, q.last().1)
        }
    }

    /// `(a, b)` is listed in `bq` if it is an interior wire cell.
    pub open spec fn listed_if_wire(self, bq: Seq<(int, int)>, a: int, b: int) -> bool {
        self.interior(a, b) && is_wire(self.cells[self.at(a, b)]) ==> bq.contains((a, b))
    }

    /// Once the wire cell at `(a, b)` is re-evaluated, `bq` lists it if its signal changes, and
    /// lists each interior wire neighbour that a changed direction points at.
    pub open spec fn propagated(self, bq: Seq<(int, int)>, a: int, b: int) -> bool {
        let c = self.cells[self.at(a, b)];
        let s = successor_at(self.cells, self.width, a, b);
        &&& has_any(c ^ s, SIGNAL) ==> bq.contains((a, b))
        &&& has_any(c ^ s, UP) ==> self.listed_if_wire(bq, a, b - 1)
        &&& has_any(c ^ s, LEFT) ==> self.listed_if_wire(bq, a - 1, b)
        &&& has_any(c ^ s, RIGHT) ==> self.listed_if_wire(bq, a + 1, b)
        &&& has_any(c ^ s, DOWN) ==> self.listed_if_wire(bq, a, b + 1)
    }

    /// Border cells hold no scheduler bit and agree between the buffers up to scheduler bits.
    pub open spec fn border_quiet(self) -> bool {
        forall|x: int, y: int|
            #![trigger self.cells[self.at(x, y)]]
            self.in_bounds(x, y) && !self.interior(x, y) ==> clear_queued(self.cells[self.at(x, y)])
                == clear_queued(self.next[self.at(x, y)]) && !has_any(
                self.cells[self.at(x, y)],
                QUEUED,
            )
    }

    /// The scheduler's invariant between calls: quiet borders, and before an incremental tick
    /// an unmarked buffer to be written, scheduler bits only on queued cells, and a settled grid.
    pub open spec fn ready(self) -> bool {
        &&& self.border_quiet()
        &&& !self.full_scan ==> {
            &&& self.unmarked_next()
            &&& self.marks_queued()
            &&& self.settled()
        }
    }

    /// No scheduler bit is set in the buffer to be written next.
    pub open spec fn unmarked_next(self) -> bool {
        forall|x: int, y: int|
            #![trigger self.next[self.at(x, y)]]
            self.in_bounds(x, y) ==> !has_any(self.next[self.at(x, y)], QUEUED)
    }

    /// Every scheduler bit in the cells marks a queued coordinate.
    pub open spec fn marks_queued(self) -> bool {
        forall|x: int, y: int|
            #![trigger self.cells[self.at(x, y)]]
            self.in_bounds(x, y) && has_any(self.cells[self.at(x, y)], QUEUED)
                ==> self.queue.contains((x, y))
    }

    /// Whether the next tick re-evaluates `(x, y)`.
    pub open spec fn scheduled(self, x: int, y: int) -> bool {
        if self.full_scan {
            self.interior(x, y)
        } else {
            self.queue.contains((x, y))
        }
    }
}

/// A fresh grid: every cell empty, a full scan ahead, nothing pending.
pub open spec fn fresh(w: int, h: int) -> CircuitView {
    CircuitView {
        width: w,
        height: h,
        full_scan: true,
        cells: Seq::new((w * h) as nat, |i: int| 0u8),
        next: Seq::new((w * h) as nat, |i: int| 0u8),
        queue: Seq::empty(),
        building: Seq::empty(),
    }
}

/// The state one tick makes of `before`. A full scan clears the scheduler bits of the buffer to
/// be written, then re-evaluates the interior row by row; an incremental tick re-evaluates the
/// queued coordinates in their order. The buffers and the queues then change roles, and the next
/// tick is incremental.
pub open spec fn tick_state(before: CircuitView) -> CircuitView {
    let done = if before.full_scan {
        CircuitView {
            next: before.next.map_values(|b: u8| clear_queued(b)),
            building: Seq::empty(),
            ..before
        }.scan_rows(before.height - 1)
    } else {
        CircuitView { queue: Seq::empty(), building: Seq::empty(), ..before }.scan_queue(
            before.queue,
        )
    };
    CircuitView {
        width: before.width,
        height: before.height,
        full_scan: false,
        cells: done.next,
        next: done.cells,
        queue: done.building,
        building: before.queue,
    }
}

/// What one tick makes of `before`: each scheduled wire cell takes its successor and every other
/// cell the flags staged for it, up to scheduler bits; the buffer to be written next holds the old
/// flags, with the scheduler bit cleared where a cell was re-evaluated; the next tick is
/// incremental.
pub open spec fn tick_result(before: CircuitView, after: CircuitView) -> bool {
    &&& after.width == before.width
    &&& after.height == before.height
    &&& !after.full_scan
    &&& after.cells.len() == before.cells.len()
    &&& after.next.len() == before.next.len()
    &&& forall|x: int, y: int|
        #![trigger after.cells[before.at(x, y)]]
        #![trigger after.next[before.at(x, y)]]
        before.in_bounds(x, y) ==> {
            &&& clear_queued(after.cells[before.at(x, y)]) == if before.scheduled(x, y) && is_wire(
                before.cells[before.at(x, y)],
            ) {
                successor_at(before.cells, before.width, x, y)
            } else {
                clear_queued(before.next[before.at(x, y)])
            }
            &&& after.next[before.at(x, y)] == if before.scheduled(x, y) {
                clear_queued(before.cells[before.at(x, y)])
            } else {
                before.cells[before.at(x, y)]
            }
        }
}

fn empty_cells(n: usize) -> (r: Vec<Cell>)
    ensures
        r@.len() == n,
        forall|i: int| 0 <= i < n ==> (#[trigger] r@[i])@ == 0,
{
    let mut v: Vec<Cell> = Vec::new();
    let mut i: usize = 0;
    while i < n
        invariant
            i <= n,
            v@.len() == i,
            forall|j: int| 0 <= j < i ==> (#[trigger] v@[j])@ == 0,
        decreases n - i,
    {
        v.push(Cell::empty());
        i = i + 1;
    }
    v
}

impl View for Circuit {
    type V = CircuitView;

    closed spec fn view(&self) -> CircuitView {
        CircuitView {
            width: self.width as int,
            height: self.height as int,
            full_scan: self.full_update,
            cells: self.cells@.map_values(|c: Cell| c@),
            next: self.next_cells@.map_values(|c: Cell| c@),
            queue: self.update_queue@.map_values(|c: Coord| (c.x as int, c.y as int)),
            building: self.next_update_queue@.map_values(|c: Coord| (c.x as int, c.y as int)),
        }
    }
}

impl Circuit {
    /// A `width` by `height` grid of empty cells, with a full scan ahead.
    pub fn new(width: usize, height: usize) -> (r: Circuit)
        requires
            valid_size(width as int, height as int),
        ensures
            r@ == fresh(width as int, height as int),
            r@.wf(),
            r@.ready(),
    {
        let n = width * height;
        let cells = empty_cells(n);
        let next_cells = empty_cells(n);
        let r = Circuit {
            width,
            height,
            full_update: true,
            cells,
            next_cells,
            update_queue: Vec::new(),
            next_update_queue: Vec::new(),
        };
        assert(r@.cells =~= fresh(width as int, height as int).cells);
        assert(r@.next =~= fresh(width as int, height as int).next);
        assert(r@.queue =~= Seq::empty());
        assert(r@.building =~= Seq::empty());
        assert forall|x: int, y: int|
            #![trigger r@.cells[r@.at(x, y)]]
            r@.in_bounds(x, y) && !r@.interior(x, y) implies clear_queued(r@.cells[r@.at(x, y)])
            == clear_queued(r@.next[r@.at(x, y)]) && !has_any(r@.cells[r@.at(x, y)], QUEUED) by {
            lemma_flat_in_range(width as int, height as int, x, y);
            assert(!has_any(0u8, QUEUED)) by (bit_vector);
        }
        r
    }

    /// A `width` by `height` grid as `new` makes it, or `None` when either side is zero or
    /// the number of cells cannot be addressed.
    pub fn try_new(width: usize, height: usize) -> (r: Option<Circuit>)
        ensures
            r is Some <==> valid_size(width as int, height as int),
            r matches Some(c) ==> c@ == fresh(width as int, height as int) && c@.wf() && c@.ready(),
    {
        if width == 0 || height == 0 {
            return None;
        }
        match width.checked_mul(height) {
            Some(_) => Some(Circuit::new(width, height)),
            None => None,
        }
    }

    pub fn get_width(&self) -> (r: usize)
        ensures
            r == self@.width,
    {
        self.width
    }

    pub fn get_height(&self) -> (r: usize)
        ensures
            r == self@.height,
    {
        self.height
    }

    /// The cells as they are now, row-major.
    pub fn cells(&self) -> (r: &Vec<Cell>)
        ensures
            r@.map_values(|c: Cell| c@) == self@.cells,
    {
        &self.cells
    }

    /// The visible cells for writing in place, row-major. Writes there bypass the scheduler and
    /// the buffer that the next tick fills; the caller keeps the grid consistent.
    pub fn cells_mut(&mut self) -> (r: &mut [Cell])
        ensures
            r@.map_values(|c: Cell| c@) == old(self)@.cells,
            final(self)@ == (CircuitView {
                cells: final(r)@.map_values(|c: Cell| c@),
                ..old(self)@
            }),
    {
        self.cells.as_mut_slice()
    }

    /// The position of `(x, y)` in the buffers; the coordinate must lie on the grid.
    pub fn index(&self, x: usize, y: usize) -> (r: usize)
        requires
            self@.wf(),
            self@.in_bounds(x as int, y as int),
        ensures
            r == self@.at(x as int, y as int),
            r < self@.cells.len(),
    {
        proof {
            lemma_flat_in_range(self.width as int, self.height as int, x as int, y as int);
        }
        y * self.width + x
    }

    /// The position of `(x, y)` if it lies strictly inside the border, else `None`.
    pub fn strict_index(&self, x: usize, y: usize) -> (r: Option<usize>)
        requires
            self@.wf(),
        ensures
            r == (if self@.interior(x as int, y as int) {
                Some(self@.at(x as int, y as int) as usize)
            } else {
                None
            }),
            r matches Some(i) ==> i == self@.at(x as int, y as int) && i < self@.cells.len(),
    {
        if x == 0 || y == 0 || x >= self.width - 1 || y >= self.height - 1 {
            None
        } else {
            Some(self.index(x, y))
        }
    }

    /// The raw flags at `(x, y)`, border included; the coordinate must lie on the grid.
    pub fn get_cell(&self, x: usize, y: usize) -> (r: u8)
        requires
            self@.wf(),
            self@.in_bounds(x as int, y as int),
        ensures
            r == self@.cells[self@.at(x as int, y as int)],
    {
        let i = self.index(x, y);
        self.cells[i].bits()
    }

    /// Writes `c` into both buffers at an interior position and asks for a full scan.
    fn store(&mut self, x: usize, y: usize, index: usize, c: Cell)
        requires
            old(self)@.wf(),
            old(self)@.interior(x as int, y as int),
            index == old(self)@.at(x as int, y as int),
            old(self)@.ready(),
        ensures
            final(self)@ == old(self)@.edited(x as int, y as int, c@),
            final(self)@.wf(),
            final(self)@.ready(),
    {
        proof {
            lemma_flat_in_range(self.width as int, self.height as int, x as int, y as int);
        }
        self.cells.set(index, c);
        self.next_cells.set(index, c);
        self.full_update = true;
        assert(self@.cells =~= old(self)@.edited(x as int, y as int, c@).cells);
        assert(self@.next =~= old(self)@.edited(x as int, y as int, c@).next);
        assert forall|a: int, b: int|
            #![trigger self@.cells[self@.at(a, b)]]
            self@.in_bounds(a, b) && !self@.interior(a, b) implies clear_queued(
                self@.cells[self@.at(a, b)],
            ) == clear_queued(self@.next[self@.at(a, b)]) && !has_any(
                self@.cells[self@.at(a, b)],
                QUEUED,
            ) by {
            lemma_flat_in_range(self.width as int, self.height as int, a, b);
            if self@.at(a, b) == index as int {
                lemma_flat_injective(self.width as int, a, b, x as int, y as int);
            }
            assert(old(self)@.cells[old(self)@.at(a, b)] == self@.cells[self@.at(a, b)]);
        }
    }

    /// The cell for a raw flag byte; every bit of a byte names a flag.
    fn flags_of(value: u8) -> (r: Cell)
        ensures
            r@ == value,
    {
        assert(value & !ALL_FLAGS == 0) by (bit_vector);
        Cell::from_bits(value).unwrap()
    }

    /// Sets the flags at an interior `(x, y)` to `value`; elsewhere nothing changes.
    pub fn set_cell(&mut self, x: usize, y: usize, value: u8)
        requires
            old(self)@.wf(),
            old(self)@.ready(),
        ensures
            final(self)@ == old(self)@.edited(x as int, y as int, value),
            final(self)@.wf(),
            final(self)@.ready(),
    {
        if let Some(index) = self.strict_index(x, y) {
            let c = Circuit::flags_of(value);
            self.store(x, y, index, c);
        }
    }

    /// Adds `flags` at an interior `(x, y)`; elsewhere nothing changes.
    pub fn add_to_cell(&mut self, x: usize, y: usize, flags: u8)
        requires
            old(self)@.wf(),
            old(self)@.ready(),
        ensures
            final(self)@ == old(self)@.edited(
                x as int,
                y as int,
                old(self)@.cells[old(self)@.at(x as int, y as int)] | flags,
            ),
            final(self)@.wf(),
            final(self)@.ready(),
    {
        if let Some(index) = self.strict_index(x, y) {
            let mut c = self.cells[index];
            c.insert(Circuit::flags_of(flags));
            self.store(x, y, index, c);
        }
    }

    /// Takes `flags` away at an interior `(x, y)`; elsewhere nothing changes.
    pub fn sub_from_cell(&mut self, x: usize, y: usize, flags: u8)
        requires
            old(self)@.wf(),
            old(self)@.ready(),
        ensures
            final(self)@ == old(self)@.edited(
                x as int,
                y as int,
                old(self)@.cells[old(self)@.at(x as int, y as int)] & !flags,
            ),
            final(self)@.wf(),
            final(self)@.ready(),
    {
        if let Some(index) = self.strict_index(x, y) {
            let mut c = self.cells[index];
            c.remove(Circuit::flags_of(flags));
            self.store(x, y, index, c);
        }
    }

    /// Flips `flags` at an interior `(x, y)`; elsewhere nothing changes.
    pub fn toggle_in_cell(&mut self, x: usize, y: usize, flags: u8)
        requires
            old(self)@.wf(),
            old(self)@.ready(),
        ensures
            final(self)@ == old(self)@.edited(
                x as int,
                y as int,
                old(self)@.cells[old(self)@.at(x as int, y as int)] ^ flags,
            ),
            final(self)@.wf(),
            final(self)@.ready(),
    {
        if let Some(index) = self.strict_index(x, y) {
            let mut c = self.cells[index];
            c.toggle(Circuit::flags_of(flags));
            self.store(x, y, index, c);
        }
    }

    /// Adds `flags` at an interior `(x, y)` when `value` holds, takes them away otherwise;
    /// elsewhere nothing changes.
    pub fn set_in_cell(&mut self, x: usize, y: usize, flags: u8, value: bool)
        requires
            old(self)@.wf(),
            old(self)@.ready(),
        ensures
            final(self)@ == old(self)@.edited(
                x as int,
                y as int,
                if value {
                    old(self)@.cells[old(self)@.at(x as int, y as int)] | flags
                } else {
                    old(self)@.cells[old(self)@.at(x as int, y as int)] & !flags
                },
            ),
            final(self)@.wf(),
            final(self)@.ready(),
    {
        if let Some(index) = self.strict_index(x, y) {
            let mut c = self.cells[index];
            c.set(Circuit::flags_of(flags), value);
            self.store(x, y, index, c);
        }
    }

    /// Replaces the grid by a `new_width` by `new_height` one of empty cells, into which the
    /// interior cells that lie inside both grids keep their flags; a full scan comes next.
    pub fn resize(&mut self, new_width: usize, new_height: usize)
        requires
            old(self)@.wf(),
            valid_size(new_width as int, new_height as int),
        ensures
            final(self)@.wf(),
            final(self)@.ready(),
            final(self)@.width == new_width,
            final(self)@.height == new_height,
            final(self)@.full_scan,
            final(self)@.queue.len() == 0,
            final(self)@.building.len() == 0,
            final(self)@.next == final(self)@.cells,
            forall|x: int, y: int|
                #![trigger final(self)@.cells[final(self)@.at(x, y)]]
                final(self)@.in_bounds(x, y) ==> final(self)@.cells[final(self)@.at(x, y)] == (
                if old(self)@.interior(x, y) && final(self)@.interior(x, y) {
                    old(self)@.cells[old(self)@.at(x, y)]
                } else {
                    0u8
                }),
    {
        let ghost prev = self@;
        let nw = new_width;
        let nh = new_height;
        let mut new_cells = empty_cells(nw * nh);
        let copy_width = if self.width < nw {
            self.width
        } else {
            nw
        };
        let copy_height = if self.height < nh {
            self.height
        } else {
            nh
        };
        proof {
            assert forall|x1: int, y1: int|
                #![trigger new_cells@[flat(nw as int, x1, y1)]]
                in_bounds(nw as int, nh as int, x1, y1) implies new_cells@[flat(
                    nw as int,
                    x1,
                    y1,
                )]@ == 0u8 by {
                lemma_flat_in_range(nw as int, nh as int, x1, y1);
            }
        }
        let mut y: usize = 1;
        while y < copy_height - 1
            invariant
                prev == self@,
                prev.wf(),
                valid_size(nw as int, nh as int),
                copy_width == if prev.width < nw { prev.width } else { nw as int },
                copy_height == if prev.height < nh { prev.height } else { nh as int },
                1 <= y,
                y <= copy_height,
                new_cells@.len() == nw * nh,
                forall|x1: int, y1: int|
                    #![trigger new_cells@[flat(nw as int, x1, y1)]]
                    in_bounds(nw as int, nh as int, x1, y1) ==> new_cells@[flat(
                        nw as int,
                        x1,
                        y1,
                    )]@ == (if 1 <= x1 < copy_width - 1 && 1 <= y1 < copy_height - 1 && y1 < y {
                        prev.cells[prev.at(x1, y1)]
                    } else {
                        0u8
                    }),
            decreases copy_height - y,
        {
            let mut x: usize = 1;
            while x < copy_width - 1
                invariant
                    prev == self@,
                    prev.wf(),
                    valid_size(nw as int, nh as int),
                    copy_width == if prev.width < nw { prev.width } else { nw as int },
                    copy_height == if prev.height < nh { prev.height } else { nh as int },
                    1 <= y,
                    y < copy_height - 1,
                    1 <= x,
                    x <= copy_width,
                    new_cells@.len() == nw * nh,
                    forall|x1: int, y1: int|
                        #![trigger new_cells@[flat(nw as int, x1, y1)]]
                        in_bounds(nw as int, nh as int, x1, y1) ==> new_cells@[flat(
                            nw as int,
                            x1,
                            y1,
                        )]@ == (if 1 <= x1 < copy_width - 1 && 1 <= y1 < copy_height - 1 && (y1
                            < y || (y1 == y && x1 < x)) {
                            prev.cells[prev.at(x1, y1)]
                        } else {
                            0u8
                        }),
                decreases copy_width - x,
            {
                proof {
                    lemma_flat_in_range(nw as int, nh as int, x as int, y as int);
                    lemma_flat_in_range(prev.width, prev.height, x as int, y as int);
                }
                let src = self.cells[y * self.width + x];
                let ghost before = new_cells@;
                new_cells.set(y * nw + x, src);
                proof {
                    assert forall|x1: int, y1: int|
                        in_bounds(nw as int, nh as int, x1, y1) && (x1 != x || y1 != y) implies
                        new_cells@[flat(nw as int, x1, y1)] == before[flat(nw as int, x1, y1)] by {
                        lemma_flat_in_range(nw as int, nh as int, x1, y1);
                        if flat(nw as int, x1, y1) == flat(nw as int, x as int, y as int) {
                            lemma_flat_injective(nw as int, x1, y1, x as int, y as int);
                        }
                    }
                }
                x = x + 1;
            }
            y = y + 1;
        }
        self.width = nw;
        self.height = nh;
        self.full_update = true;
        self.cells = new_cells;
        self.next_cells = self.cells.clone();
        self.update_queue = Vec::new();
        self.next_update_queue = Vec::new();
        proof {
            assert(self@.next =~= self@.cells);
            assert forall|x: int, y: int|
                #![trigger self@.cells[self@.at(x, y)]]
                self@.in_bounds(x, y) implies self@.cells[self@.at(x, y)] == (
                if prev.interior(x, y) && self@.interior(x, y) {
                    prev.cells[prev.at(x, y)]
                } else {
                    0u8
                }) by {
                lemma_flat_in_range(nw as int, nh as int, x, y);
                assert(new_cells@[flat(nw as int, x, y)]@ == self@.cells[self@.at(x, y)]);
            }
            assert forall|x: int, y: int|
                #![trigger self@.cells[self@.at(x, y)]]
                self@.in_bounds(x, y) && !self@.interior(x, y) implies clear_queued(
                    self@.cells[self@.at(x, y)],
                ) == clear_queued(self@.next[self@.at(x, y)]) && !has_any(
                    self@.cells[self@.at(x, y)],
                    QUEUED,
                ) by {
                assert(self@.cells[self@.at(x, y)] == 0u8);
                assert(!has_any(0u8, QUEUED)) by (bit_vector);
            }
        }
    }

    /// Marks the interior wire cell at `(x, y)` as pending in the next buffer and appends it
    /// to the queue being built, unless it is already pending there.
    fn queue_update(&mut self, x: usize, y: usize)
        requires
            old(self)@.wf(),
            old(self)@.marks_listed(),
            old(self)@.listed_marked(),
        ensures
            final(self)@ == old(self)@.offered(x as int, y as int),
            final(self)@.wf(),
            final(self)@.marks_listed(),
            final(self)@.listed_marked(),
            final(self)@.width == old(self)@.width,
            final(self)@.height == old(self)@.height,
            final(self)@.full_scan == old(self)@.full_scan,
            final(self)@.cells == old(self)@.cells,
            final(self)@.queue == old(self)@.queue,
            final(self)@.next.len() == old(self)@.next.len(),
            forall|k: int|
                0 <= k < old(self)@.next.len() ==> clear_queued(#[trigger] final(self)@.next[k])
                    == clear_queued(old(self)@.next[k]),
            forall|e: (int, int)|
                old(self)@.building.contains(e) ==> #[trigger] final(self)@.building.contains(e),
            old(self)@.interior(x as int, y as int) && is_wire(
                old(self)@.next[old(self)@.at(x as int, y as int)],
            ) ==> final(self)@.building.contains((x as int, y as int)),
    {
        let ghost before = self@;
        proof {
            if before.interior(x as int, y as int) {
                lemma_flat_in_range(before.width, before.height, x as int, y as int);
            }
        }
        if let Some(index) = self.strict_index(x, y) {
            let wire = CellBits::Wire.cell();
            let queued = CellBits::Queued.cell();
            proof {
                lemma_queued_bit(before.next[index as int]);
            }
            if self.next_cells[index].contains(wire) && !self.next_cells[index].contains(queued) {
                self.next_cells[index].insert(queued);
                self.next_update_queue.push(Coord { x, y });
                proof {
                    lemma_queued_bit(before.next[index as int]);
                    assert(self@.next =~= before.next.update(
                        index as int,
                        before.next[index as int] | QUEUED,
                    ));
                    assert(self@.building =~= before.building.push((x as int, y as int)));
                    assert(self@.cells =~= before.cells);
                    assert(self@.queue =~= before.queue);
                    assert forall|k: int| 0 <= k < self@.cells.len() implies #[trigger] self@.cells[k]
                        & DESIGN == self@.next[k] & DESIGN && (!is_wire(self@.cells[k])
                        ==> clear_queued(self@.cells[k]) == clear_queued(self@.next[k])) by {
                        lemma_queued_bit(before.next[k]);
                    }
                    assert(self@.building[before.building.len() as int] == (x as int, y as int));
                    if before.building.contains((x as int, y as int)) {
                        let j = choose|j: int|
                            0 <= j < before.building.len() && before.building[j] == (
                                x as int,
                                y as int,
                            );
                        assert(has_any(
                            before.next[before.at(before.building[j].0, before.building[j].1)],
                            QUEUED,
                        ));
                    }
                    assert forall|a: int, b: int|
                        0 <= a < self@.building.len() && 0 <= b < self@.building.len() && a != b
                        implies self@.building[a] != self@.building[b] by {
                        if a < before.building.len() && b < before.building.len() {
                            assert(before.building[a] != before.building[b]);
                        } else if a < before.building.len() {
                            assert(before.building.contains(before.building[a]));
                        } else {
                            assert(before.building.contains(before.building[b]));
                        }
                    }
                    assert forall|j: int| 0 <= j < self@.building.len() implies has_any(
                        #[trigger] self@.next[self@.at(self@.building[j].0, self@.building[j].1)],
                        QUEUED,
                    ) && is_wire(self@.next[self@.at(self@.building[j].0, self@.building[j].1)])
                        by {
                        let (a, b) = self@.building[j];
                        assert(before.interior(a, b));
                        lemma_flat_in_range(before.width, before.height, a, b);
                        if j < before.building.len() {
                            assert(before.building[j] == (a, b));
                            if self@.at(a, b) != index as int {
                                assert(self@.next[self@.at(a, b)] == before.next[before.at(a, b)]);
                            }
                        }
                    }
                    assert forall|e: (int, int)| before.building.contains(e) implies #[trigger] self@.building.contains(e) by {
                        let j = choose|j: int| 0 <= j < before.building.len() && before.building[j] == e;
                        assert(self@.building[j] == e);
                    }
                    assert forall|a: int, b: int|
                        #![trigger self@.next[self@.at(a, b)]]
                        self@.in_bounds(a, b) && has_any(self@.next[self@.at(a, b)], QUEUED)
                        implies self@.building.contains((a, b)) by {
                        lemma_flat_in_range(before.width, before.height, a, b);
                        if self@.at(a, b) == index as int {
                            lemma_flat_injective(before.width, a, b, x as int, y as int);
                        } else {
                            assert(before.next[before.at(a, b)] == self@.next[self@.at(a, b)]);
                            assert(before.building.contains((a, b)));
                        }
                    }
                }
            } else {
                proof {
                    lemma_queued_bit(before.next[index as int]);
                    assert(self@ == before);
                    if is_wire(before.next[index as int]) {
                        assert(has_any(before.next[index as int], QUEUED));
                        assert(before.next[before.at(x as int, y as int)] == before.next[index as int]);
                    }
                }
            }
        }
    }

    /// Re-evaluates the interior cell at `(x, y)`: clears its scheduler bit, writes a wire's
    /// successor into the next buffer, and, when its signal bits change, offers the cell and the
    /// neighbours in the changed directions to the scheduler.
    fn update_cell(&mut self, x: usize, y: usize)
        requires
            old(self)@.wf(),
            old(self)@.marks_listed(),
            old(self)@.listed_marked(),
            old(self)@.interior(x as int, y as int),
        ensures
            final(self)@ == old(self)@.evaluated(x as int, y as int),
            final(self)@.wf(),
            final(self)@.marks_listed(),
            final(self)@.listed_marked(),
            final(self)@.width == old(self)@.width,
            final(self)@.height == old(self)@.height,
            final(self)@.full_scan == old(self)@.full_scan,
            final(self)@.queue == old(self)@.queue,
            final(self)@.cells == old(self)@.cells.update(
                old(self)@.at(x as int, y as int),
                clear_queued(old(self)@.cells[old(self)@.at(x as int, y as int)]),
            ),
            final(self)@.next.len() == old(self)@.next.len(),
            forall|k: int|
                0 <= k < old(self)@.next.len() && k != old(self)@.at(x as int, y as int)
                    ==> clear_queued(#[trigger] final(self)@.next[k]) == clear_queued(
                    old(self)@.next[k],
                ),
            clear_queued(final(self)@.next[old(self)@.at(x as int, y as int)]) == if is_wire(
                old(self)@.cells[old(self)@.at(x as int, y as int)],
            ) {
                successor_at(old(self)@.cells, old(self)@.width, x as int, y as int)
            } else {
                clear_queued(old(self)@.next[old(self)@.at(x as int, y as int)])
            },
            forall|e: (int, int)|
                old(self)@.building.contains(e) ==> #[trigger] final(self)@.building.contains(e),
            is_wire(old(self)@.cells[old(self)@.at(x as int, y as int)]) ==> old(
                self,
            )@.propagated(final(self)@.building, x as int, y as int),
    {
        let ghost prev = self@;
        let index = self.index(x, y);
        proof {
            lemma_neighbours_in_range(self.width as int, self.height as int, x as int, y as int);
            lemma_queued_bit(prev.cells[index as int]);
        }
        self.cells[index].remove(CellBits::Queued.cell());
        let center = self.cells[index];
        proof {
            assert(self@.cells =~= prev.cells.update(
                index as int,
                clear_queued(prev.cells[index as int]),
            ));
            assert(self@.next =~= prev.next);
            assert(self@.queue =~= prev.queue);
            assert(self@.building =~= prev.building);
            assert forall|k: int| 0 <= k < self@.cells.len() implies #[trigger] self@.cells[k]
                & DESIGN == self@.next[k] & DESIGN && (!is_wire(self@.cells[k]) ==> clear_queued(
                self@.cells[k],
            ) == clear_queued(self@.next[k])) by {
                lemma_queued_bit(prev.cells[k]);
            }
            assert forall|a: int, b: int|
                #![trigger self@.next[self@.at(a, b)]]
                self@.in_bounds(a, b) && has_any(self@.next[self@.at(a, b)], QUEUED)
                implies self@.building.contains((a, b)) by {
                assert(prev.next[prev.at(a, b)] == self@.next[self@.at(a, b)]);
            }
            assert forall|j: int| 0 <= j < self@.building.len() implies has_any(
                #[trigger] self@.next[self@.at(self@.building[j].0, self@.building[j].1)],
                QUEUED,
            ) && is_wire(self@.next[self@.at(self@.building[j].0, self@.building[j].1)]) by {
                assert(prev.next[prev.at(prev.building[j].0, prev.building[j].1)]
                    == self@.next[self@.at(self@.building[j].0, self@.building[j].1)]);
            }
            assert(self@ == CircuitView {
                cells: prev.cells.update(index as int, clear_queued(prev.cells[index as int])),
                ..prev
            });
        }
        if center.intersects(CellBits::Wire.cell()) {
            let width = self.width;
            let left = self.cells[index - 1];
            let right = self.cells[index + 1];
            let up = self.cells[index - width];
            let down = self.cells[index + width];
            let staged = self.next_cells[index];
            let next_center = wire_successor(center, left, right, up, down).union(
                staged.intersection(CellBits::Queued.cell()),
            );
            let ghost succ = successor_at(prev.cells, prev.width, x as int, y as int);
            proof {
                let g = self@.cells;
                lemma_successor_unqueued(center@, left@, right@, up@, down@, staged@);
                assert(successor(center@, left@, right@, up@, down@) == successor_at(
                    g,
                    width as int,
                    x as int,
                    y as int,
                ));
                lemma_queued_bit(prev.cells[index as int - 1]);
                lemma_queued_bit(prev.cells[index as int + 1]);
                lemma_queued_bit(prev.cells[index as int - width]);
                lemma_queued_bit(prev.cells[index as int + width]);
                lemma_successor_ignores_queued(g, prev.cells, width as int, x as int, y as int);
            }
            let ghost mid = self@;
            self.next_cells.set(index, next_center);
            proof {
                assert(self@.next =~= mid.next.update(index as int, next_center@));
                assert(self@.cells =~= mid.cells);
                assert(self@.queue =~= mid.queue);
                assert(self@.building =~= mid.building);
                // The cell keeps its scheduler mark, so the marks stay listed.
                assert forall|a: int, b: int|
                    #![trigger self@.next[self@.at(a, b)]]
                    self@.in_bounds(a, b) && has_any(self@.next[self@.at(a, b)], QUEUED)
                    implies self@.building.contains((a, b)) by {
                    lemma_flat_in_range(prev.width, prev.height, a, b);
                    if self@.at(a, b) == index as int {
                        lemma_flat_injective(prev.width, a, b, x as int, y as int);
                        assert(prev.next[prev.at(a, b)] == staged@);
                    } else {
                        assert(prev.next[prev.at(a, b)] == self@.next[self@.at(a, b)]);
                    }
                }
                crate::rule::lemma_successor_design(center@, left@, right@, up@, down@);
                lemma_design_wire(next_center@, center@);
                lemma_queued_bit(next_center@);
                lemma_queued_bit(staged@);
                assert forall|j: int| 0 <= j < self@.building.len() implies has_any(
                    #[trigger] self@.next[self@.at(self@.building[j].0, self@.building[j].1)],
                    QUEUED,
                ) && is_wire(self@.next[self@.at(self@.building[j].0, self@.building[j].1)]) by {
                    let (a, b) = self@.building[j];
                    assert(prev.interior(a, b));
                    lemma_flat_in_range(prev.width, prev.height, a, b);
                    assert(prev.building[j] == (a, b));
                    if self@.at(a, b) != index as int {
                        assert(self@.next[self@.at(a, b)] == prev.next[prev.at(a, b)]);
                    } else {
                        assert(prev.next[prev.at(a, b)] == staged@);
                    }
                }
                assert(self@ == CircuitView {
                    next: prev.next.update(index as int, succ | (prev.next[index as int] & QUEUED)),
                    cells: prev.cells.update(index as int, clear_queued(prev.cells[index as int])),
                    ..prev
                });
            }
            let changes = center.symmetric_difference(next_center);
            proof {
                let c = prev.cells[index as int];
                lemma_changes(c, succ, staged@);
                // A wire neighbour is a wire in the buffer being written too.
                lemma_design_wire(prev.cells[index as int - 1], prev.next[index as int - 1]);
                lemma_design_wire(prev.cells[index as int + 1], prev.next[index as int + 1]);
                lemma_design_wire(prev.cells[index as int - width], prev.next[index as int - width]);
                lemma_design_wire(prev.cells[index as int + width], prev.next[index as int + width]);
                lemma_queued_bit(next_center@);
                lemma_queued_bit(prev.next[index as int - 1]);
                lemma_queued_bit(prev.next[index as int + 1]);
                lemma_queued_bit(prev.next[index as int - width]);
                lemma_queued_bit(prev.next[index as int + width]);
                assert(prev.at(x as int, y as int - 1) == index - width);
                assert(prev.at(x as int, y as int + 1) == index + width);
                assert(prev.at(x as int - 1, y as int) == index - 1);
                assert(prev.at(x as int + 1, y as int) == index + 1);
            }
            let ghost b0 = self@;
            if changes.intersects(CellBits::Signal.cell()) {
                // Neighbours are offered in the order of their positions; the cell itself always
                // is, since a bend may need another look even when only incoming bits changed.
                if changes.intersects(CellBits::Up.cell()) {
                    self.queue_update(x, y - 1);
                }
                let ghost b1 = self@;
                if changes.intersects(CellBits::Left.cell()) {
                    self.queue_update(x - 1, y);
                }
                let ghost b2 = self@;
                proof {
                    lemma_design_wire(next_center@, center@);
                    lemma_queued_bit(b2.next[index as int]);
                    assert(clear_queued(b2.next[index as int]) == clear_queued(b0.next[index as int]));
                    assert(b0.next[index as int] == next_center@);
                    assert(is_wire(b2.next[b2.at(x as int, y as int)]));
                }
                self.queue_update(x, y);
                let ghost b3 = self@;
                if changes.intersects(CellBits::Right.cell()) {
                    self.queue_update(x + 1, y);
                }
                let ghost b4 = self@;
                if changes.intersects(CellBits::Down.cell()) {
                    self.queue_update(x, y + 1);
                }
                proof {
                    let c = prev.cells[index as int];
                    assert(b0.next[index as int - width] == prev.next[index as int - width]);
                    assert(b0.next[index as int - 1] == prev.next[index as int - 1]);
                    assert(b0.next[index as int + 1] == prev.next[index as int + 1]);
                    assert(b0.next[index as int + width] == prev.next[index as int + width]);
                    assert(clear_queued(b1.next[index as int - 1]) == clear_queued(b0.next[index as int - 1]));
                    lemma_queued_bit(b1.next[index as int - 1]);
                    assert(clear_queued(b3.next[index as int + 1]) == clear_queued(b0.next[index as int + 1]));
                    lemma_queued_bit(b3.next[index as int + 1]);
                    assert(clear_queued(b4.next[index as int + width]) == clear_queued(b0.next[index as int + width]));
                    lemma_queued_bit(b4.next[index as int + width]);
                    let s = succ;
                    assert(has_any(c ^ s, SIGNAL) ==> self@.building.contains((x as int, y as int)));
                    assert(has_any(c ^ s, UP) ==> prev.listed_if_wire(self@.building, x as int, y as int - 1));
                    assert(has_any(c ^ s, LEFT) ==> prev.listed_if_wire(self@.building, x as int - 1, y as int));
                    assert(has_any(c ^ s, RIGHT) ==> prev.listed_if_wire(self@.building, x as int + 1, y as int));
                    assert(has_any(c ^ s, DOWN) ==> prev.listed_if_wire(self@.building, x as int, y as int + 1));
                    assert(prev.propagated(self@.building, x as int, y as int));
                }
            }
        }
    }

    /// Advances the simulation by one step and swaps the buffers. A full scan re-evaluates every
    /// interior cell, an incremental one the queued coordinates; the next tick is incremental.
    pub fn tick(&mut self)
        requires
            old(self)@.wf(),
            old(self)@.ready(),
        ensures
            final(self)@ == tick_state(old(self)@),
            final(self)@.wf(),
            final(self)@.ready(),
            tick_result(old(self)@, final(self)@),
            final(self)@.marks_queued(),
            final(self)@.queued_marked(),
            spread(
                old(self)@,
                final(self)@.queue,
                |a: int, b: int| old(self)@.scheduled(a, b),
            ),
    {
        let ghost prev = self@;
        self.next_update_queue.clear();
        proof {
            assert(self@.cells =~= prev.cells);
            assert(self@.next =~= prev.next);
            assert(self@.queue =~= prev.queue);
        }
        if self.full_update {
            let n = self.next_cells.len();
            let mut k: usize = 0;
            while k < n
                invariant
                    n == self.next_cells@.len(),
                    k <= n,
                    self@.wf(),
                    self@.width == prev.width,
                    self@.height == prev.height,
                    self@.full_scan == prev.full_scan,
                    self@.cells == prev.cells,
                    self@.queue == prev.queue,
                    self@.building.len() == 0,
                    self@.next.len() == prev.next.len(),
                    forall|j: int|
                        0 <= j < n ==> #[trigger] self@.next[j] == if j < k {
                            clear_queued(prev.next[j])
                        } else {
                            prev.next[j]
                        },
                decreases n - k,
            {
                let ghost before = self@;
                self.next_cells[k].remove(CellBits::Queued.cell());
                proof {
                    lemma_queued_bit(before.next[k as int]);
                    assert(self@.next =~= before.next.update(
                        k as int,
                        clear_queued(before.next[k as int]),
                    ));
                    assert(self@.cells =~= before.cells);
                    assert(self@.queue =~= before.queue);
                    assert(self@.building =~= before.building);
                    assert forall|j: int| 0 <= j < self@.cells.len() implies #[trigger] self@.cells[j]
                        & DESIGN == self@.next[j] & DESIGN && (!is_wire(self@.cells[j])
                        ==> clear_queued(self@.cells[j]) == clear_queued(self@.next[j])) by {
                        lemma_queued_bit(before.next[j]);
                    }
                }
                k = k + 1;
            }
            let ghost start = self@;
            proof {
                assert(start.next =~= prev.next.map_values(|b: u8| clear_queued(b)));
                assert(start.building =~= Seq::<(int, int)>::empty());
                assert(start == CircuitView {
                    next: prev.next.map_values(|b: u8| clear_queued(b)),
                    building: Seq::empty(),
                    ..prev
                });
                assert forall|a: int, b: int|
                    #![trigger start.at(a, b)]
                    start.in_bounds(a, b) implies clear_queued(start.next[start.at(a, b)])
                    == clear_queued(prev.next[start.at(a, b)]) by {
                    lemma_flat_in_range(start.width, start.height, a, b);
                    lemma_queued_bit(prev.next[start.at(a, b)]);
                }
                let none = |a: int, b: int| false;
                assert(progressed(start, self@, none));
                assert forall|a: int, b: int|
                    #![trigger self@.next[self@.at(a, b)]]
                    self@.in_bounds(a, b) && has_any(self@.next[self@.at(a, b)], QUEUED)
                    implies self@.building.contains((a, b)) by {
                    lemma_flat_in_range(start.width, start.height, a, b);
                    lemma_queued_bit(prev.next[start.at(a, b)]);
                }
                assert(spread(start, self@.building, |a: int, b: int| start.interior(a, b) && b < 1));
            }
            proof {
            }
            let mut y: usize = 1;
            while y < self.height - 1
                invariant
                    start.wf(),
                    self@.wf(),
                    self@.width == start.width,
                    self@.height == start.height,
                    self@.full_scan == start.full_scan,
                    self@.queue == start.queue,
                    1 <= y <= self.height,
                    y <= self.height - 1 || y == 1,
                    progressed(
                        start,
                        self@,
                        |a: int, b: int| start.interior(a, b) && b < y,
                    ),
                    self@.marks_listed(),
                    self@.listed_marked(),
                    spread(start, self@.building, |a: int, b: int| start.interior(a, b) && b < y),
                    self@ == start.scan_rows(y as int),
                decreases self.height - y,
            {
                let mut x: usize = 1;
                proof {
                    let ghost yy = y;
                    lemma_progress_same_done(
                        start,
                        self@,
                        |a: int, b: int| start.interior(a, b) && b < yy,
                        |a: int, b: int| start.interior(a, b) && (b < yy || (b == yy && a < 1)),
                    );
                    lemma_spread_weaken(
                        start,
                        start,
                        self@.building,
                        self@.building,
                        |a: int, b: int| start.interior(a, b) && b < yy,
                        |a: int, b: int| start.interior(a, b) && (b < yy || (b == yy && a < 1)),
                    );
                }
                while x < self.width - 1
                    invariant
                        start.wf(),
                        self@.wf(),
                        self@.width == start.width,
                        self@.height == start.height,
                        self@.full_scan == start.full_scan,
                        self@.queue == start.queue,
                        1 <= y < self.height - 1,
                        1 <= x <= self.width,
                        x <= self.width - 1 || x == 1,
                        self@ == start.scan_rows(y as int).scan_row(y as int, x as int),
                        progressed(
                            start,
                            self@,
                            |a: int, b: int| start.interior(a, b) && (b < y || (b == y && a < x)),
                        ),
                        self@.marks_listed(),
                        self@.listed_marked(),
                    self@.listed_marked(),
                        spread(
                            start,
                            self@.building,
                            |a: int, b: int| start.interior(a, b) && (b < y || (b == y && a < x)),
                        ),
                    decreases self.width - x,
                {
                    let ghost cur = self@;
                    self.update_cell(x, y);
                    proof {
                        let ghost xx = x;
                        let ghost yy = y;
                        lemma_progress_step(
                            start,
                            cur,
                            self@,
                            |a: int, b: int| start.interior(a, b) && (b < yy || (b == yy && a < xx)),
                            |a: int, b: int|
                                start.interior(a, b) && (b < yy || (b == yy && a < xx + 1)),
                            x as int,
                            y as int,
                        );
                        lemma_spread_step(
                            start,
                            cur,
                            self@,
                            |a: int, b: int| start.interior(a, b) && (b < yy || (b == yy && a < xx)),
                            |a: int, b: int|
                                start.interior(a, b) && (b < yy || (b == yy && a < xx + 1)),
                            x as int,
                            y as int,
                        );
                    }
                    x = x + 1;
                }
                proof {
                    assert(start.scan_rows(y as int + 1) == start.scan_rows(y as int).scan_row(
                        y as int,
                        start.width - 1,
                    ));
                    if start.width - 1 < 1 {
                        assert(start.scan_rows(y as int).scan_row(y as int, start.width - 1)
                            == start.scan_rows(y as int));
                        assert(start.scan_rows(y as int).scan_row(y as int, x as int)
                            == start.scan_rows(y as int));
                    }
                }
                proof {
                    let ghost xx = x;
                    let ghost yy = y;
                    lemma_progress_same_done(
                        start,
                        self@,
                        |a: int, b: int| start.interior(a, b) && (b < yy || (b == yy && a < xx)),
                        |a: int, b: int| start.interior(a, b) && b < yy + 1,
                    );
                    lemma_spread_weaken(
                        start,
                        start,
                        self@.building,
                        self@.building,
                        |a: int, b: int| start.interior(a, b) && (b < yy || (b == yy && a < xx)),
                        |a: int, b: int| start.interior(a, b) && b < yy + 1,
                    );
                }
                y = y + 1;
            }
            proof {
                let ghost yy = y;
                lemma_progress_same_done(
                    start,
                    self@,
                    |a: int, b: int| start.interior(a, b) && b < yy,
                    |a: int, b: int| prev.scheduled(a, b),
                );
                lemma_progress_rebase(start, prev, self@, |a: int, b: int| prev.scheduled(a, b));
                lemma_spread_weaken(
                    start,
                    prev,
                    self@.building,
                    self@.building,
                    |a: int, b: int| start.interior(a, b) && b < yy,
                    |a: int, b: int| prev.scheduled(a, b),
                );
            }
            proof {
                if self.height - 1 < 1 {
                    assert(start.scan_rows(self.height - 1) == start);
                }
                assert(self@ == start.scan_rows(start.height - 1));
            }
            let ghost before_flag = self@;
            self.full_update = false;
            proof {
                assert(self@.cells == before_flag.cells);
                assert(self@.next == before_flag.next);
                assert(self@.queue == before_flag.queue);
                assert(self@.building == before_flag.building);
                assert forall|j: int| 0 <= j < self@.building.len() implies has_any(
                    #[trigger] self@.next[self@.at(self@.building[j].0, self@.building[j].1)],
                    QUEUED,
                ) && is_wire(self@.next[self@.at(self@.building[j].0, self@.building[j].1)]) by {
                    assert(before_flag.next[before_flag.at(before_flag.building[j].0, before_flag.building[j].1)]
                        == self@.next[self@.at(self@.building[j].0, self@.building[j].1)]);
                }
                assert(self@.wf());
                assert forall|a: int, b: int|
                    #![trigger self@.next[self@.at(a, b)]]
                    self@.in_bounds(a, b) && has_any(self@.next[self@.at(a, b)], QUEUED)
                    implies self@.building.contains((a, b)) by {
                    assert(before_flag.next[before_flag.at(a, b)] == self@.next[self@.at(a, b)]);
                }
            }
        } else {
            let mut pending: Vec<Coord> = Vec::new();
            std::mem::swap(&mut pending, &mut self.update_queue);
            let ghost start = self@;
            let ghost q = prev.queue;
            proof {
                assert(q =~= pending@.map_values(|c: Coord| (c.x as int, c.y as int)));
                let none = |a: int, b: int| false;
                assert(progressed(start, self@, none));
                assert forall|a: int, b: int|
                    #![trigger self@.next[self@.at(a, b)]]
                    self@.in_bounds(a, b) && has_any(self@.next[self@.at(a, b)], QUEUED)
                    implies self@.building.contains((a, b)) by {
                    assert(prev.next[prev.at(a, b)] == self@.next[self@.at(a, b)]);
                }
                assert(spread(
                    start,
                    self@.building,
                    |a: int, b: int| exists|i: int| 0 <= i < 0 && q[i] == (a, b),
                ));
            }
            proof {
                assert(q.take(0) =~= Seq::<(int, int)>::empty());
                assert(start.queue =~= Seq::<(int, int)>::empty());
                assert(start.building =~= Seq::<(int, int)>::empty());
                assert(start.cells == prev.cells && start.next == prev.next);
                assert(start == CircuitView { queue: Seq::empty(), building: Seq::empty(), ..prev });
            }
            let mut j: usize = 0;
            while j < pending.len()
                invariant
                    start.wf(),
                    self@.wf(),
                    self@.width == start.width,
                    self@.height == start.height,
                    self@.full_scan == start.full_scan,
                    self@.queue == start.queue,
                    q == pending@.map_values(|c: Coord| (c.x as int, c.y as int)),
                    forall|i: int| 0 <= i < q.len() ==> start.interior(#[trigger] q[i].0, q[i].1),
                    j <= pending.len(),
                    self@ == start.scan_queue(q.take(j as int)),
                    progressed(
                        start,
                        self@,
                        |a: int, b: int| exists|i: int| 0 <= i < j && q[i] == (a, b),
                    ),
                    self@.marks_listed(),
                    self@.listed_marked(),
                    spread(
                        start,
                        self@.building,
                        |a: int, b: int| exists|i: int| 0 <= i < j && q[i] == (a, b),
                    ),
                decreases pending.len() - j,
            {
                let ghost cur = self@;
                let c = &pending[j];
                assert(q.take(j as int + 1).drop_last() =~= q.take(j as int));
                assert(q[j as int] == (c.x as int, c.y as int));
                assert(start.interior(q[j as int].0, q[j as int].1));
                self.update_cell(c.x, c.y);
                proof {
                    let ghost jj = j;
                    let d1 = |a: int, b: int| exists|i: int| 0 <= i < jj && q[i] == (a, b);
                    let d2 = |a: int, b: int| exists|i: int| 0 <= i < jj + 1 && q[i] == (a, b);
                    assert forall|a: int, b: int| #[trigger] d2(a, b) == (d1(a, b) || (a == c.x && b == c.y)) by {
                        if d2(a, b) && !(a == c.x && b == c.y) {
                            let i = choose|i: int| 0 <= i < jj + 1 && q[i] == (a, b);
                            assert(i != jj);
                        }
                        if a == c.x && b == c.y {
                            assert(q[jj as int] == (a, b));
                        }
                    }
                    lemma_progress_step(start, cur, self@, d1, d2, c.x as int, c.y as int);
                    lemma_spread_step(start, cur, self@, d1, d2, c.x as int, c.y as int);
                }
                j = j + 1;
            }
            let ghost before_swap = self@;
            std::mem::swap(&mut pending, &mut self.update_queue);
            proof {
                assert(self@.cells == before_swap.cells);
                assert(self@.next == before_swap.next);
                assert(self@.building == before_swap.building);
                assert(q.take(j as int) =~= q);
                assert forall|j: int| 0 <= j < self@.building.len() implies has_any(
                    #[trigger] self@.next[self@.at(self@.building[j].0, self@.building[j].1)],
                    QUEUED,
                ) && is_wire(self@.next[self@.at(self@.building[j].0, self@.building[j].1)]) by {
                    assert(before_swap.next[before_swap.at(before_swap.building[j].0, before_swap.building[j].1)]
                        == self@.next[self@.at(self@.building[j].0, self@.building[j].1)]);
                }
                assert(self@.wf());
                let ghost jj = j;
                assert(self@.queue == q);
                lemma_progress_same_done(
                    start,
                    self@,
                    |a: int, b: int| exists|i: int| 0 <= i < jj && q[i] == (a, b),
                    |a: int, b: int| prev.scheduled(a, b),
                );
                lemma_progress_rebase(start, prev, self@, |a: int, b: int| prev.scheduled(a, b));
                lemma_spread_weaken(
                    start,
                    prev,
                    self@.building,
                    self@.building,
                    |a: int, b: int| exists|i: int| 0 <= i < jj && q[i] == (a, b),
                    |a: int, b: int| prev.scheduled(a, b),
                );
                assert forall|a: int, b: int|
                    #![trigger self@.next[self@.at(a, b)]]
                    self@.in_bounds(a, b) && has_any(self@.next[self@.at(a, b)], QUEUED)
                    implies self@.building.contains((a, b)) by {
                    assert(before_swap.next[before_swap.at(a, b)] == self@.next[self@.at(a, b)]);
                }
            }
        }
        let ghost done = self@;
        proof {
            let scanned = if prev.full_scan {
                CircuitView {
                    next: prev.next.map_values(|b: u8| clear_queued(b)),
                    building: Seq::empty(),
                    ..prev
                }.scan_rows(prev.height - 1)
            } else {
                CircuitView { queue: Seq::empty(), building: Seq::empty(), ..prev }.scan_queue(
                    prev.queue,
                )
            };
            assert(done.cells == scanned.cells);
            assert(done.next == scanned.next);
            assert(done.building == scanned.building);
            assert(done.queue == prev.queue);
        }
        assert(done.wf());
        assert(done.marks_listed());
        assert(spread(prev, done.building, |a: int, b: int| prev.scheduled(a, b)));
        std::mem::swap(&mut self.cells, &mut self.next_cells);
        std::mem::swap(&mut self.update_queue, &mut self.next_update_queue);
        proof {
            assert(self@.cells == done.next);
            assert(self@.next == done.cells);
            assert(self@.queue == done.building);
            assert forall|a: int, b: int|
                #![trigger self@.cells[self@.at(a, b)]]
                self@.in_bounds(a, b) && has_any(self@.cells[self@.at(a, b)], QUEUED)
                implies self@.queue.contains((a, b)) by {
                assert(done.next[done.at(a, b)] == self@.cells[self@.at(a, b)]);
            }
            assert(done.listed_marked());
            assert forall|j: int| 0 <= j < self@.queue.len() implies has_any(
                #[trigger] self@.cells[self@.at(self@.queue[j].0, self@.queue[j].1)],
                QUEUED,
            ) && is_wire(self@.cells[self@.at(self@.queue[j].0, self@.queue[j].1)]) by {
                assert(done.next[done.at(done.building[j].0, done.building[j].1)]
                    == self@.cells[self@.at(self@.queue[j].0, self@.queue[j].1)]);
            }
            assert forall|k: int| 0 <= k < self@.cells.len() implies #[trigger] self@.cells[k]
                & DESIGN == self@.next[k] & DESIGN && (!is_wire(self@.cells[k]) ==> clear_queued(
                self@.cells[k],
            ) == clear_queued(self@.next[k])) by {
                assert(done.cells[k] & DESIGN == done.next[k] & DESIGN);
                lemma_design_wire(done.cells[k], done.next[k]);
            }
            assert forall|x: int, y: int|
                #![trigger self@.cells[prev.at(x, y)]]
                #![trigger self@.next[prev.at(x, y)]]
                prev.in_bounds(x, y) implies {
                &&& clear_queued(self@.cells[prev.at(x, y)]) == if prev.scheduled(x, y) && is_wire(
                    prev.cells[prev.at(x, y)],
                ) {
                    successor_at(prev.cells, prev.width, x, y)
                } else {
                    clear_queued(prev.next[prev.at(x, y)])
                }
                &&& self@.next[prev.at(x, y)] == if prev.scheduled(x, y) {
                    clear_queued(prev.cells[prev.at(x, y)])
                } else {
                    prev.cells[prev.at(x, y)]
                }
            } by {
                assert(done.next[prev.at(x, y)] == self@.cells[prev.at(x, y)]);
                assert(done.cells[prev.at(x, y)] == self@.next[prev.at(x, y)]);
            }
        }
        proof {
            lemma_tick_settles(prev, self@);
            assert(self@.building == done.queue);
            assert(self@ == tick_state(prev));
        }
    }

    /// Asks for the next tick to re-evaluate the whole interior.
    pub fn force_full_update(&mut self)
        requires
            old(self)@.wf(),
            old(self)@.ready(),
        ensures
            final(self)@ == (CircuitView { full_scan: true, ..old(self)@ }),
            final(self)@.wf(),
            final(self)@.ready(),
    {
        let ghost before = self@;
        self.full_update = true;
        assert forall|x: int, y: int|
            #![trigger self@.cells[self@.at(x, y)]]
            self@.in_bounds(x, y) && !self@.interior(x, y) implies clear_queued(
                self@.cells[self@.at(x, y)],
            ) == clear_queued(self@.next[self@.at(x, y)]) && !has_any(
                self@.cells[self@.at(x, y)],
                QUEUED,
            ) by {
            assert(before.cells[before.at(x, y)] == self@.cells[self@.at(x, y)]);
        }
    }
}

} // verus!
