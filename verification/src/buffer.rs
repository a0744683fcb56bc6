//! The versioned grid engine: an instance, the steps it is bound to, the
//! current grid, and the change log that lets the grid move to the state
//! after any number of steps.

use vstd::prelude::*;
use vstd::utf8::encode_utf8;
use crate::generator::{draw_catalog, draw_cells, draw_size, generated};
use crate::model::{
    lemma_row_inside, operation_at, rect_hits, replayed, row_hits, stamped, step_in_bounds,
    step_records, ApplicationStep, ChangeRecord, EngineState, Operation,
};
use crate::mt::MT;
use crate::parse::{parsed_instance, InstanceData};
use crate::score::{evaluation, score, Score};
use crate::text::{ascii, instance_text, instance_to_string};
use crate::timeline::{
    lemma_log_sound, lemma_replayed_len, lemma_stamp_one_cell, lemma_walk_arrives, log_sound,
    partly_stamped, record_sound, walked,
};

verus! {

pub struct Buffer {
    now_state: Vec<u32>,
    first_state: Vec<u32>,
    b_state: Vec<u32>,
    operations: Vec<u32>,
    applications: Vec<u32>,
    n: usize,
    now_time: usize,
    revisions: Vec<usize>,
    changes: Vec<ChangeRecord>,
    change_ptr: usize,
}

impl View for Buffer {
    type V = EngineState;

    closed spec fn view(&self) -> EngineState {
        EngineState {
            n: self.n as nat,
            initial: self.first_state@,
            target: self.b_state@,
            catalog: self.operations@,
            steps: self.applications@,
            current: self.now_state@,
            log: self.changes@,
            boundaries: self.revisions@,
            cursor: self.change_ptr as nat,
            time: self.now_time as nat,
        }
    }
}

impl Buffer {
    /// The timeline agrees with the instance and the bound steps: the log,
    /// the boundaries, the cursor and the current grid are what the steps
    /// make them.
    pub open spec fn wf(&self) -> bool {
        self@.consistent()
    }

    /// An engine with an all-zero instance of size 0: grids of 3600 cells, a
    /// catalog of 3000 entries, bound to no steps.
    pub fn new() -> (r: Buffer)
        ensures
            r.wf(),
            r@ == (EngineState {
                n: 0,
                initial: Seq::new(3600, |i: int| 0u32),
                target: Seq::new(3600, |i: int| 0u32),
                catalog: Seq::new(12000, |i: int| 0u32),
                steps: Seq::empty(),
                current: Seq::new(3600, |i: int| 0u32),
                log: Seq::empty(),
                boundaries: seq![0usize],
                cursor: 0,
                time: 0,
            }),
    {
        let r = Buffer {
            now_state: vec![0; 3600],
            first_state: vec![0; 3600],
            b_state: vec![0; 3600],
            operations: vec![0; 12000],
            applications: Vec::new(),
            n: 0,
            now_time: 0,
            revisions: vec![0],
            changes: Vec::new(),
            change_ptr: 0,
        };
        assert(r@.initial =~= Seq::new(3600, |i: int| 0u32));
        assert(r@.target =~= Seq::new(3600, |i: int| 0u32));
        assert(r@.current =~= Seq::new(3600, |i: int| 0u32));
        assert(r@.catalog =~= Seq::new(12000, |i: int| 0u32));
        assert(r@.boundaries =~= seq![0usize]);
        r
    }

    /// Unbinds the steps and puts the current grid back at the initial one.
    fn reset(&mut self)
        ensures
            final(self).wf(),
            final(self)@ == old(self)@.rebound(),
    {
        self.now_state = self.first_state.clone();
        self.now_time = 0;
        self.applications.clear();
        self.revisions.clear();
        self.revisions.push(0);
        self.changes.clear();
        self.change_ptr = 0;
        assert(self@.boundaries =~= seq![0usize]);
        assert(self@.current =~= self@.initial);
    }

    /// Replaces the instance by the one that `seed` generates; the timeline
    /// starts afresh. The same seed gives the same instance, whatever the
    /// engine held before.
    pub fn random_gen(&mut self, seed: u32)
        ensures
            final(self).wf(),
            final(self)@ == generated(seed),
    {
        let mut mt = MT::new(seed);
        let n = draw_size(&mut mt, Ghost(seed));
        assert(n * n <= 3600) by (nonlinear_arith)
            requires
                n <= 60,
        ;
        let cells = n * n;
        let initial = draw_cells(&mut mt, cells, Ghost(seed), Ghost(1));
        let target = draw_cells(&mut mt, cells, Ghost(seed), Ghost((1 + cells) as nat));
        let catalog = draw_catalog(&mut mt, n, Ghost(seed));
        self.n = n;
        self.first_state = initial;
        self.b_state = target;
        self.operations = catalog;
        self.reset();
        assert(self@.initial =~= generated(seed).initial);
        assert(self@.target =~= generated(seed).target);
    }

    /// Replaces the initial grid and the size; the timeline starts afresh.
    pub fn set_first_state(&mut self, state: Vec<u32>, n: usize)
        ensures
            final(self).wf(),
            final(self)@ == (EngineState { n: n as nat, initial: state@, ..old(self)@ }).rebound(),
    {
        self.n = n;
        self.first_state = state;
        self.reset();
    }

    /// Replaces the target grid; the timeline starts afresh.
    pub fn set_b_state(&mut self, state: Vec<u32>)
        ensures
            final(self).wf(),
            final(self)@ == (EngineState { target: state@, ..old(self)@ }).rebound(),
    {
        self.b_state = state;
        self.reset();
    }

    /// Replaces the catalog; the timeline starts afresh.
    pub fn set_op(&mut self, op: Vec<u32>)
        ensures
            final(self).wf(),
            final(self)@ == (EngineState { catalog: op@, ..old(self)@ }).rebound(),
    {
        self.operations = op;
        self.reset();
    }

    /// The text of the instance: the header line, the initial grid, the
    /// target grid and the catalog. The steps and the timeline are not part
    /// of it.
    pub fn to_string(&self) -> (text: String)
        requires
            self@.n * self@.n <= self@.initial.len(),
            self@.n * self@.n <= self@.target.len(),
            self@.catalog.len() % 4 == 0,
        ensures
            text@ == ascii(instance_text(self@.n, self@.initial, self@.target, self@.catalog)),
            encode_utf8(text@) == instance_text(
                self@.n,
                self@.initial,
                self@.target,
                self@.catalog,
            ),
            parsed_instance(encode_utf8(text@)) == Some(
                InstanceData {
                    n: self@.n,
                    initial: self@.initial.take((self@.n * self@.n) as int),
                    target: self@.target.take((self@.n * self@.n) as int),
                    catalog: self@.catalog,
                },
            ),
    {
        instance_to_string(
            self.n,
            self.first_state.as_slice(),
            self.b_state.as_slice(),
            self.operations.as_slice(),
        )
    }

    /// Binds the engine to `applications`, three numbers per step, and
    /// applies all of them to the initial grid, one after the other.
    ///
    /// Each step rewrites, inside its rectangle, the cells that hold its
    /// operation's `from_value`, and logs one record per rewritten cell; one
    /// boundary is recorded per step, whether or not it changed anything.
    pub fn update_applications(&mut self, applications: Vec<u32>)
        requires
            old(self)@.accepts(applications@),
        ensures
            final(self).wf(),
            final(self)@ == old(self)@.applied(applications@),
    {
        let ghost bound = EngineState { steps: applications@, ..self@ };
        let len = applications.len();
        let entries = self.operations.len();
        let count = len / 3;
        let n = self.n;
        let mut grid = self.first_state.clone();
        let mut log: Vec<ChangeRecord> = Vec::new();
        let mut bounds: Vec<usize> = Vec::new();
        bounds.push(0);
        assert(grid@ =~= self.first_state@);
        let mut t: usize = 0;
        while t < count
            invariant
                t <= count,
                len == applications@.len(),
                count == len / 3,
                entries == bound.catalog.len(),
                grid@.len() == bound.initial.len(),
                bound.playable(),
                bound.n == n,
                bound.initial == self.first_state@,
                bound.catalog == self.operations@,
                bound.steps == applications@,
                grid@ == bound.grid_at(t as nat),
                log@ == bound.log_at(t as nat),
                bounds@.len() == t + 1,
                forall|u: int| 0 <= u <= t ==> #[trigger] bounds@[u] == bound.log_at(u as nat).len(),
            decreases count - t,
        {
            let step = ApplicationStep {
                op: applications[3 * t],
                row: applications[3 * t + 1],
                col: applications[3 * t + 2],
            };
            assert(step == bound.step(t as int));
            assert(step_in_bounds(bound.n, bound.catalog, bound.steps, t as int));
            let at = step.op as usize * 4;
            let op = Operation {
                height: self.operations[at],
                width: self.operations[at + 1],
                from_value: self.operations[at + 2],
                to_value: self.operations[at + 3],
            };
            assert(op == bound.step_operation(t as int));
            stamp(&mut grid, &mut log, n, step, op);
            bounds.push(log.len());
            t += 1;
        }
        self.applications = applications;
        self.now_state = grid;
        self.changes = log;
        self.revisions = bounds;
        self.change_ptr = self.changes.len();
        self.now_time = count;
        assert(self@.boundaries =~= old(self)@.applied(self@.steps).boundaries);
    }

    /// Moves the current grid to the state after exactly `time` steps, by
    /// replaying or undoing the logged changes between the cursor and the
    /// boundary of `time`; the grid is not rebuilt from the initial one.
    ///
    /// Every change replayed finds in its cell the value that its entry
    /// rewrites, and every change undone the value that its entry writes.
    ///
    /// Returns `false`, and changes nothing, when the engine is bound to
    /// fewer than `time` steps. When the engine already stands at `time`
    /// nothing at all is written.
    pub fn set_time(&mut self, time: usize) -> (r: bool)
        requires
            old(self).wf(),
        ensures
            final(self).wf(),
            r == (time <= old(self)@.step_count()),
            r ==> final(self)@ == old(self)@.sought(time as nat),
            r ==> final(self)@.current == walked(old(self)@, time as nat),
            !r ==> *final(self) == *old(self),
            time == old(self)@.time ==> *final(self) == *old(self),
    {
        if time > self.applications.len() / 3 {
            return false;
        }
        let target = self.revisions[time];
        let ghost pre = self@;
        let ghost start = *self;
        let entries = self.operations.len();
        let cells = self.first_state.len();
        proof {
            lemma_log_sound(pre);
            lemma_walk_arrives(pre, time as nat);
        }
        while self.change_ptr < target
            invariant
                self@ == (EngineState {
                    current: self.now_state@,
                    cursor: self.change_ptr as nat,
                    ..pre
                }),
                pre == start@,
                pre.consistent(),
                time <= pre.step_count(),
                target == pre.boundaries[time as int],
                start.change_ptr == target ==> *self == start,
                start.change_ptr <= self.change_ptr,
                start.change_ptr >= target ==> self.change_ptr == start.change_ptr,
                log_sound(pre),
                entries == pre.catalog.len(),
                cells == pre.initial.len(),
                self.now_state@.len() == cells,
                target <= pre.log.len(),
                self.change_ptr <= pre.log.len(),
                self.now_state@ == replayed(
                    pre.initial,
                    pre.catalog,
                    pre.log.take(self.change_ptr as int),
                ),
            decreases target - self.change_ptr,
        {
            let rec = self.changes[self.change_ptr];
            assert(record_sound(pre.initial, pre.catalog, pre.log, self.change_ptr as int));
            let at = rec.op * 4;
            let to_value = self.operations[at + 3];
            assert(self.now_state@[rec.cell as int] == self.operations@[at + 2]);
            self.now_state.set(rec.cell, to_value);
            self.change_ptr += 1;
            assert(pre.log.take(self.change_ptr as int).drop_last() =~= pre.log.take(
                self.change_ptr - 1,
            ));
        }
        let ghost mid = self.change_ptr;
        while self.change_ptr > target
            invariant
                self@ == (EngineState {
                    current: self.now_state@,
                    cursor: self.change_ptr as nat,
                    ..pre
                }),
                pre == start@,
                pre.consistent(),
                time <= pre.step_count(),
                target == pre.boundaries[time as int],
                start.change_ptr == target ==> *self == start,
                start.change_ptr == target ==> mid == target,
                target <= self.change_ptr <= mid,
                log_sound(pre),
                entries == pre.catalog.len(),
                cells == pre.initial.len(),
                self.now_state@.len() == cells,
                self.change_ptr <= pre.log.len(),
                self.now_state@ == replayed(
                    pre.initial,
                    pre.catalog,
                    pre.log.take(self.change_ptr as int),
                ),
            decreases self.change_ptr,
        {
            let ghost done = pre.log.take(self.change_ptr as int);
            self.change_ptr -= 1;
            let rec = self.changes[self.change_ptr];
            let ghost kept = pre.log.take(self.change_ptr as int);
            proof {
                assert(record_sound(pre.initial, pre.catalog, pre.log, self.change_ptr as int));
                assert forall|c: int| 0 <= c < kept.len() implies kept[c].cell
                    < pre.initial.len() by {
                    assert(record_sound(pre.initial, pre.catalog, pre.log, c));
                }
                lemma_replayed_len(pre.initial, pre.catalog, kept);
                assert(done.last() == rec);
                assert(done.drop_last() =~= kept);
                assert(self.now_state@ == replayed(pre.initial, pre.catalog, kept).update(
                    rec.cell as int,
                    operation_at(pre.catalog, rec.op as int).to_value,
                ));
            }
            let at = rec.op * 4;
            let from_value = self.operations[at + 2];
            assert(self.now_state@[rec.cell as int] == self.operations@[at + 3]);
            self.now_state.set(rec.cell, from_value);
            assert(self.now_state@ =~= replayed(pre.initial, pre.catalog, kept));
        }
        self.now_time = time;
        true
    }

    /// Whether `applications` can be bound to this instance: they come in
    /// whole triples, each names an entry of the catalog, each rectangle lies
    /// inside the grid, and the grid has its `n * n` cells.
    pub fn accepts(&self, applications: &[u32]) -> (r: bool)
        ensures
            r == self@.accepts(applications@),
    {
        let len = applications.len();
        if len % 3 != 0 {
            return false;
        }
        let have = self.first_state.len();
        if len > 0 {
            match self.n.checked_mul(self.n) {
                Some(cells) => {
                    if cells > have {
                        return false;
                    }
                },
                None => {
                    return false;
                },
            }
        }
        let entries = self.operations.len();
        let count = len / 3;
        let mut t: usize = 0;
        while t < count
            invariant
                t <= count,
                len == applications@.len(),
                count == len / 3,
                entries == self.operations@.len(),
                forall|u: int|
                    0 <= u < t ==> step_in_bounds(self.n as nat, self.operations@, applications@, u),
            decreases count - t,
        {
            let op = applications[3 * t];
            let row = applications[3 * t + 1];
            let col = applications[3 * t + 2];
            if 4 * (op as u64) + 3 >= entries as u64 {
                assert(!step_in_bounds(self.n as nat, self.operations@, applications@, t as int));
                return false;
            }
            let at = op as usize * 4;
            let height = self.operations[at];
            let width = self.operations[at + 1];
            if row as u64 + height as u64 > self.n as u64 || col as u64 + width as u64
                > self.n as u64 {
                assert(!step_in_bounds(self.n as nat, self.operations@, applications@, t as int));
                return false;
            }
            t += 1;
        }
        true
    }

    /// The score of the current grid against the target, the steps that the
    /// grid reflects counted in.
    pub fn score(&self) -> (r: Option<Score>)
        requires
            self@.n * self@.n <= self@.current.len(),
            self@.n * self@.n <= self@.target.len(),
        ensures
            r == evaluation(self@.n, self@.current, self@.target, self@.time),
    {
        score(self.n, self.now_state.as_slice(), self.b_state.as_slice(), self.now_time)
    }

    /// The current grid, row by row.
    pub fn now_state_ptr(&self) -> (r: &[u32])
        ensures
            r@ == self@.current,
    {
        self.now_state.as_slice()
    }

    /// The initial grid, row by row.
    pub fn first_state_ptr(&self) -> (r: &[u32])
        ensures
            r@ == self@.initial,
    {
        self.first_state.as_slice()
    }

    /// The target grid, row by row.
    pub fn b_state_ptr(&self) -> (r: &[u32])
        ensures
            r@ == self@.target,
    {
        self.b_state.as_slice()
    }

    /// The catalog, four numbers per entry.
    pub fn catalog(&self) -> (r: &[u32])
        ensures
            r@ == self@.catalog,
    {
        self.operations.as_slice()
    }

    /// The change log of the bound steps, oldest record first.
    pub fn change_log(&self) -> (r: &[ChangeRecord])
        ensures
            r@ == self@.log,
    {
        self.changes.as_slice()
    }

    /// The revision boundaries: entry `t` is the length of the change log
    /// after `t` steps.
    pub fn revision_boundaries(&self) -> (r: &[usize])
        ensures
            r@ == self@.boundaries,
    {
        self.revisions.as_slice()
    }

    /// The size `n` of the instance.
    pub fn size(&self) -> (r: usize)
        ensures
            r == self@.n,
    {
        self.n
    }

    /// The number of steps that the current grid reflects.
    pub fn get_time(&self) -> (r: usize)
        ensures
            r == self@.time,
    {
        self.now_time
    }
}

/// Rewrites the rectangle of `step` in `grid` and appends a record for every
/// cell that changes, row by row.
fn stamp(
    grid: &mut Vec<u32>,
    log: &mut Vec<ChangeRecord>,
    n: usize,
    step: ApplicationStep,
    op: Operation,
)
    requires
        n * n <= old(grid)@.len(),
        step.row + op.height <= n,
        step.col + op.width <= n,
    ensures
        final(grid)@ == stamped(old(grid)@, n as int, step, op),
        final(log)@ == old(log)@ + step_records(old(grid)@, n as int, step, op),
{
    let ghost g0 = grid@;
    let ghost log0 = log@;
    let ghost ni = n as int;
    let cells = grid.len();
    let mut i: u32 = 0;
    assert(grid@ =~= partly_stamped(g0, ni, step, op, 0, 0));
    assert(log@ =~= log0 + rect_hits(g0, ni, step, op, 0));
    while i < op.height
        invariant
            i <= op.height,
            ni == n,
            cells == g0.len(),
            n * n <= g0.len(),
            step.row + op.height <= n,
            step.col + op.width <= n,
            grid@ == partly_stamped(g0, ni, step, op, i as int, 0),
            log@ == log0 + rect_hits(g0, ni, step, op, i as nat),
        decreases op.height - i,
    {
        let row = step.row as usize + i as usize;
        proof {
            lemma_row_inside(ni, row as int);
        }
        let base = row * n;
        let ghost done = rect_hits(g0, ni, step, op, i as nat);
        let mut j: u32 = 0;
        assert(log@ =~= log0 + done + row_hits(g0, ni, step, op, row as int, 0));
        while j < op.width
            invariant
                i < op.height,
                j <= op.width,
                ni == n,
                cells == g0.len(),
                n * n <= g0.len(),
                step.row + op.height <= n,
                step.col + op.width <= n,
                row == step.row + i,
                base == row * n,
                base + n <= n * n,
                done == rect_hits(g0, ni, step, op, i as nat),
                grid@ == partly_stamped(g0, ni, step, op, i as int, j as int),
                log@ == log0 + done + row_hits(g0, ni, step, op, row as int, j as nat),
            decreases op.width - j,
        {
            let idx = base + step.col as usize + j as usize;
            proof {
                lemma_stamp_one_cell(g0, ni, step, op, i as int, j as int);
            }
            if grid[idx] == op.from_value {
                grid.set(idx, op.to_value);
                log.push(ChangeRecord { cell: idx, op: step.op as usize });
                assert(log@ =~= log0 + done + row_hits(
                    g0,
                    ni,
                    step,
                    op,
                    row as int,
                    (j + 1) as nat,
                ));
            }
            j += 1;
        }
        proof {
            assert(grid@ =~= partly_stamped(g0, ni, step, op, i + 1, 0));
            assert(log@ =~= log0 + rect_hits(g0, ni, step, op, (i + 1) as nat));
        }
        i += 1;
    }
    assert(grid@ =~= stamped(g0, ni, step, op));
}

} // verus!
