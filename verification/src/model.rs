//! The mathematical model of the engine: what a catalog entry and a step
//! are, what stamping does to a grid, and what the timeline of a sequence of
//! steps holds.

use vstd::prelude::*;
use vstd::arithmetic::div_mod::lemma_fundamental_div_mod_converse;

verus! {

/// One entry of the operation catalog: inside a rectangle of `height` rows
/// and `width` columns every cell that holds `from_value` becomes `to_value`.
#[derive(Clone, Copy, Debug, PartialEq, Eq, Structural)]
pub struct Operation {
    pub height: u32,
    pub width: u32,
    pub from_value: u32,
    pub to_value: u32,
}

/// One use of catalog entry `op` with its rectangle's top left corner at
/// (`row`, `col`).
#[derive(Clone, Copy, Debug, PartialEq, Eq, Structural)]
pub struct ApplicationStep {
    pub op: u32,
    pub row: u32,
    pub col: u32,
}

/// One logged mutation: the cell, as an index into the row-major grid, and
/// the catalog entry that changed it. The entry's two values say what the
/// cell held before and after.
#[derive(Clone, Copy, Debug, PartialEq, Eq, Structural)]
pub struct ChangeRecord {
    pub cell: usize,
    pub op: usize,
}

/// The entry `i` of a catalog stored as four numbers per entry.
pub open spec fn operation_at(catalog: Seq<u32>, i: int) -> Operation {
    Operation {
        height: catalog[4 * i],
        width: catalog[4 * i + 1],
        from_value: catalog[4 * i + 2],
        to_value: catalog[4 * i + 3],
    }
}

/// The step `t` of a sequence stored as three numbers per step.
pub open spec fn step_at(steps: Seq<u32>, t: int) -> ApplicationStep {
    ApplicationStep { op: steps[3 * t], row: steps[3 * t + 1], col: steps[3 * t + 2] }
}

/// Whether cell `k` of a grid with `n` columns lies in the rectangle of
/// `step` and `op`.
pub open spec fn in_rect(n: int, step: ApplicationStep, op: Operation, k: int) -> bool {
    &&& n > 0
    &&& step.row <= k / n < step.row + op.height
    &&& step.col <= k % n < step.col + op.width
}

/// Whether stamping `grid` rewrites cell `k`.
pub open spec fn hits(grid: Seq<u32>, n: int, step: ApplicationStep, op: Operation, k: int) -> bool {
    &&& 0 <= k < grid.len()
    &&& in_rect(n, step, op, k)
    &&& grid[k] == op.from_value
}

/// The grid after one stamp: every cell of the rectangle that held
/// `from_value` holds `to_value`, every other cell is as it was.
pub open spec fn stamped(grid: Seq<u32>, n: int, step: ApplicationStep, op: Operation) -> Seq<u32> {
    Seq::new(
        grid.len(),
        |k: int|
            if hits(grid, n, step, op, k) {
                op.to_value
            } else {
                grid[k]
            },
    )
}

/// The cells among the first `width` of the rectangle's row `row` that hold
/// `from_value`, from left to right.
pub open spec fn row_hits(
    grid: Seq<u32>,
    n: int,
    step: ApplicationStep,
    op: Operation,
    row: int,
    width: nat,
) -> Seq<ChangeRecord>
    decreases width,
{
    if width == 0 {
        Seq::empty()
    } else {
        let before = row_hits(grid, n, step, op, row, (width - 1) as nat);
        let cell = row * n + step.col + width - 1;
        if grid[cell] == op.from_value {
            before.push(ChangeRecord { cell: cell as usize, op: step.op as usize })
        } else {
            before
        }
    }
}

/// The cells in the first `height` rows of the rectangle that hold
/// `from_value`, row by row from the top.
pub open spec fn rect_hits(
    grid: Seq<u32>,
    n: int,
    step: ApplicationStep,
    op: Operation,
    height: nat,
) -> Seq<ChangeRecord>
    decreases height,
{
    if height == 0 {
        Seq::empty()
    } else {
        rect_hits(grid, n, step, op, (height - 1) as nat) + row_hits(
            grid,
            n,
            step,
            op,
            step.row + height - 1,
            op.width as nat,
        )
    }
}

/// The records that one stamp appends to the change log: one for each cell
/// that it rewrites, in row-major order.
pub open spec fn step_records(
    grid: Seq<u32>,
    n: int,
    step: ApplicationStep,
    op: Operation,
) -> Seq<ChangeRecord> {
    rect_hits(grid, n, step, op, op.height as nat)
}

/// The grid after the changes `records` are made to `grid` in order.
pub open spec fn replayed(grid: Seq<u32>, catalog: Seq<u32>, records: Seq<ChangeRecord>) -> Seq<u32>
    decreases records.len(),
{
    if records.len() == 0 {
        grid
    } else {
        replayed(grid, catalog, records.drop_last()).update(
            records.last().cell as int,
            operation_at(catalog, records.last().op as int).to_value,
        )
    }
}

/// Step `t` of `steps` names an entry of the catalog and its rectangle lies
/// inside a grid of `n` rows and `n` columns.
pub open spec fn step_in_bounds(n: nat, catalog: Seq<u32>, steps: Seq<u32>, t: int) -> bool {
    let step = step_at(steps, t);
    let op = operation_at(catalog, step.op as int);
    &&& 4 * step.op + 3 < catalog.len()
    &&& step.row + op.height <= n
    &&& step.col + op.width <= n
}

/// `steps` can be played on a grid of `cells` cells: they come in whole
/// triples, each is in bounds, and the grid has its `n * n` cells.
pub open spec fn playable(n: nat, cells: nat, catalog: Seq<u32>, steps: Seq<u32>) -> bool {
    &&& steps.len() % 3 == 0
    &&& steps.len() > 0 ==> n * n <= cells
    &&& forall|t: int| 0 <= t < steps.len() / 3 ==> step_in_bounds(n, catalog, steps, t)
}

/// The grid after exactly the first `t` of `steps` are applied to `initial`.
pub open spec fn grid_after(
    n: nat,
    initial: Seq<u32>,
    catalog: Seq<u32>,
    steps: Seq<u32>,
    t: nat,
) -> Seq<u32>
    decreases t,
{
    if t == 0 {
        initial
    } else {
        stamped(
            grid_after(n, initial, catalog, steps, (t - 1) as nat),
            n as int,
            step_at(steps, t - 1),
            operation_at(catalog, step_at(steps, t - 1).op as int),
        )
    }
}

/// The change log of the first `t` of `steps`.
pub open spec fn log_after(
    n: nat,
    initial: Seq<u32>,
    catalog: Seq<u32>,
    steps: Seq<u32>,
    t: nat,
) -> Seq<ChangeRecord>
    decreases t,
{
    if t == 0 {
        Seq::empty()
    } else {
        log_after(n, initial, catalog, steps, (t - 1) as nat) + step_records(
            grid_after(n, initial, catalog, steps, (t - 1) as nat),
            n as int,
            step_at(steps, t - 1),
            operation_at(catalog, step_at(steps, t - 1).op as int),
        )
    }
}

/// Everything the engine holds.
///
/// `n`, `initial`, `target` and `catalog` are the instance; `steps` is the
/// sequence of applications that the engine is bound to; the rest is derived
/// from these and from `time`, as `consistent` says.
pub struct EngineState {
    pub n: nat,
    pub initial: Seq<u32>,
    pub target: Seq<u32>,
    pub catalog: Seq<u32>,
    pub steps: Seq<u32>,
    pub current: Seq<u32>,
    pub log: Seq<ChangeRecord>,
    pub boundaries: Seq<usize>,
    pub cursor: nat,
    pub time: nat,
}

impl EngineState {
    /// Number of steps the engine is bound to.
    pub open spec fn step_count(self) -> nat {
        self.steps.len() / 3
    }

    pub open spec fn step(self, t: int) -> ApplicationStep {
        step_at(self.steps, t)
    }

    /// The catalog entry that step `t` uses.
    pub open spec fn step_operation(self, t: int) -> Operation {
        operation_at(self.catalog, self.step(t).op as int)
    }

    /// The bound steps can be played on the instance.
    pub open spec fn playable(self) -> bool {
        playable(self.n, self.initial.len(), self.catalog, self.steps)
    }

    /// Whether `steps` can be played on this instance.
    pub open spec fn accepts(self, steps: Seq<u32>) -> bool {
        playable(self.n, self.initial.len(), self.catalog, steps)
    }

    /// The grid after exactly the first `t` steps.
    pub open spec fn grid_at(self, t: nat) -> Seq<u32> {
        grid_after(self.n, self.initial, self.catalog, self.steps, t)
    }

    /// The change log of the first `t` steps.
    pub open spec fn log_at(self, t: nat) -> Seq<ChangeRecord> {
        log_after(self.n, self.initial, self.catalog, self.steps, t)
    }

    /// The derived parts are what the instance, the steps and `time` make
    /// them: the log is that of all steps, boundary `t` is the length of the
    /// log after `t` steps, the cursor stands at the boundary of `time`, and
    /// the current grid is the one after `time` steps.
    pub open spec fn consistent(self) -> bool {
        &&& self.playable()
        &&& self.time <= self.step_count()
        &&& self.log == self.log_at(self.step_count())
        &&& self.boundaries.len() == self.step_count() + 1
        &&& forall|t: int|
            0 <= t <= self.step_count() ==> #[trigger] self.boundaries[t] == self.log_at(
                t as nat,
            ).len()
        &&& self.cursor == self.boundaries[self.time as int]
        &&& self.current == self.grid_at(self.time)
    }

    /// The engine bound to no steps, with its grid back at the initial one.
    pub open spec fn rebound(self) -> EngineState {
        EngineState {
            steps: Seq::empty(),
            current: self.initial,
            log: Seq::empty(),
            boundaries: seq![0usize],
            cursor: 0,
            time: 0,
            ..self
        }
    }

    /// The engine after `steps` were bound and all of them applied.
    pub open spec fn applied(self, steps: Seq<u32>) -> EngineState {
        let bound = EngineState { steps, ..self };
        let count = bound.step_count();
        EngineState {
            current: bound.grid_at(count),
            log: bound.log_at(count),
            boundaries: Seq::new(count + 1, |t: int| bound.log_at(t as nat).len() as usize),
            cursor: bound.log_at(count).len(),
            time: count,
            ..bound
        }
    }

    /// The engine repositioned to the state after exactly `t` steps.
    pub open spec fn sought(self, t: nat) -> EngineState {
        EngineState {
            current: self.grid_at(t),
            cursor: self.boundaries[t as int] as nat,
            time: t,
            ..self
        }
    }

    /// The number of cell writes it takes to reposition the engine to the
    /// state after `t` steps: the distance from the cursor to boundary `t`.
    pub open spec fn seek_distance(self, t: nat) -> nat {
        if self.boundaries[t as int] >= self.cursor {
            (self.boundaries[t as int] - self.cursor) as nat
        } else {
            (self.cursor - self.boundaries[t as int]) as nat
        }
    }
}

/// A row of an `n` by `n` grid starts and ends inside the grid.
pub proof fn lemma_row_inside(n: int, row: int)
    by (nonlinear_arith)
    requires
        0 <= row < n,
    ensures
        0 <= row * n,
        row * n + n <= n * n,
{
}

/// The cell at (`row`, `col`) has index `row * n + col`.
pub proof fn lemma_cell_of(n: int, row: int, col: int)
    requires
        0 <= row,
        0 <= col < n,
    ensures
        (row * n + col) / n == row,
        (row * n + col) % n == col,
{
    lemma_fundamental_div_mod_converse(row * n + col, n, row, col);
}

/// A step whose rectangle holds no cell equal to `from_value` logs nothing
/// along any prefix of a row.
proof fn lemma_row_without_hits(
    grid: Seq<u32>,
    n: int,
    step: ApplicationStep,
    op: Operation,
    row: int,
    width: nat,
)
    requires
        step.row <= row < step.row + op.height,
        width <= op.width,
        step.col + op.width <= n,
        forall|k: int| #[trigger] in_rect(n, step, op, k) ==> grid[k] != op.from_value,
    ensures
        row_hits(grid, n, step, op, row, width) == Seq::<ChangeRecord>::empty(),
    decreases width,
{
    if width > 0 {
        lemma_row_without_hits(grid, n, step, op, row, (width - 1) as nat);
        lemma_cell_of(n, row, step.col + width - 1);
        assert(in_rect(n, step, op, row * n + step.col + width - 1));
    }
}

/// A step whose rectangle holds no cell equal to `from_value` logs nothing
/// along any number of rows.
proof fn lemma_rect_without_hits(
    grid: Seq<u32>,
    n: int,
    step: ApplicationStep,
    op: Operation,
    height: nat,
)
    requires
        height <= op.height,
        step.col + op.width <= n,
        forall|k: int| #[trigger] in_rect(n, step, op, k) ==> grid[k] != op.from_value,
    ensures
        rect_hits(grid, n, step, op, height) == Seq::<ChangeRecord>::empty(),
    decreases height,
{
    if height > 0 {
        lemma_rect_without_hits(grid, n, step, op, (height - 1) as nat);
        lemma_row_without_hits(grid, n, step, op, step.row + height - 1, op.width as nat);
        assert(rect_hits(grid, n, step, op, height) =~= Seq::<ChangeRecord>::empty());
    }
}

/// Log sparsity: a step whose rectangle contains no cell equal to its
/// operation's `from_value` makes no record and leaves the grid as it is, so
/// the log after it is the log before it and its revision boundary equals
/// the one before.
pub proof fn lemma_idle_step_logs_nothing(engine: EngineState, s: nat)
    requires
        engine.consistent(),
        1 <= s <= engine.step_count(),
        forall|k: int|
            #[trigger] in_rect(engine.n as int, engine.step(s - 1), engine.step_operation(s - 1), k)
                ==> engine.grid_at((s - 1) as nat)[k] != engine.step_operation(s - 1).from_value,
    ensures
        engine.log_at(s) == engine.log_at((s - 1) as nat),
        engine.boundaries[s as int] == engine.boundaries[s - 1],
        engine.grid_at(s) == engine.grid_at((s - 1) as nat),
{
    let grid = engine.grid_at((s - 1) as nat);
    let step = engine.step(s - 1);
    let op = engine.step_operation(s - 1);
    assert(step_in_bounds(engine.n, engine.catalog, engine.steps, s - 1));
    lemma_rect_without_hits(grid, engine.n as int, step, op, op.height as nat);
    assert(engine.log_at(s) =~= engine.log_at((s - 1) as nat));
    assert(engine.grid_at(s) =~= grid);
    assert(engine.boundaries[s as int] == engine.log_at(s).len());
    assert(engine.boundaries[s - 1] == engine.log_at((s - 1) as nat).len());
}

/// Seeking keeps the engine consistent.
pub proof fn lemma_sought_consistent(engine: EngineState, s: nat)
    requires
        engine.consistent(),
        s <= engine.step_count(),
    ensures
        engine.sought(s).consistent(),
{
    let after = engine.sought(s);
    assert forall|t: int| 0 <= t <= after.step_count() implies #[trigger] after.boundaries[t]
        == after.log_at(t as nat).len() by {
        assert(engine.boundaries[t] == engine.log_at(t as nat).len());
    }
}

/// Reversibility: seeking to step `s`, then to step 0, then to step `s`
/// again gives, cell for cell, the grid that an engine bound to the same
/// steps on the same instance has after seeking to `s` directly, whatever
/// step either engine stood at before.
pub proof fn lemma_seek_reversible(engine: EngineState, fresh: EngineState, s: nat)
    requires
        engine.consistent(),
        fresh.consistent(),
        fresh.n == engine.n,
        fresh.initial == engine.initial,
        fresh.catalog == engine.catalog,
        fresh.steps == engine.steps,
        s <= engine.step_count(),
    ensures
        engine.sought(s).sought(0).sought(s).current == fresh.sought(s).current,
        engine.sought(s).sought(0).sought(s) == engine.sought(s),
{
}

/// Idempotence: once the engine stands at step `s`, seeking to `s` again
/// finds the cursor on the boundary of `s`, so it has no cell to write and
/// leaves the engine as it is.
pub proof fn lemma_seek_idempotent(engine: EngineState, s: nat)
    requires
        engine.consistent(),
        s <= engine.step_count(),
    ensures
        engine.sought(s).seek_distance(s) == 0,
        engine.sought(s).sought(s) == engine.sought(s),
{
}

} // verus!
