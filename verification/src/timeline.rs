//! What a consistent timeline is worth: the change log can be replayed from
//! the initial grid, record by record, and stands at every revision boundary
//! on the grid after that many steps.

use vstd::prelude::*;
use vstd::arithmetic::div_mod::lemma_fundamental_div_mod;
use crate::model::{
    grid_after, hits, in_rect, lemma_cell_of, lemma_row_inside, lemma_sought_consistent, log_after,
    operation_at, playable,
    rect_hits, replayed, row_hits, stamped, step_at, step_in_bounds, step_records,
    ApplicationStep, ChangeRecord, EngineState, Operation,
};

verus! {

/// Record `c` of `log` names a cell of the grid and an entry of the catalog,
/// and when the records before it have been replayed its cell holds the
/// value that the entry rewrites.
pub open spec fn record_sound(
    initial: Seq<u32>,
    catalog: Seq<u32>,
    log: Seq<ChangeRecord>,
    c: int,
) -> bool {
    &&& log[c].cell < initial.len()
    &&& 4 * log[c].op + 3 < catalog.len()
    &&& replayed(initial, catalog, log.take(c))[log[c].cell as int] == operation_at(
        catalog,
        log[c].op as int,
    ).from_value
}

/// Every record of `log` is sound.
pub open spec fn records_sound(initial: Seq<u32>, catalog: Seq<u32>, log: Seq<ChangeRecord>) -> bool {
    forall|c: int| 0 <= c < log.len() ==> record_sound(initial, catalog, log, c)
}

/// The log of an engine can be replayed: every record is sound, and
/// replaying the log up to the boundary of step `t` gives the grid after `t`
/// steps.
pub open spec fn log_sound(s: EngineState) -> bool {
    &&& s.current.len() == s.initial.len()
    &&& records_sound(s.initial, s.catalog, s.log)
    &&& forall|t: int|
        0 <= t <= s.step_count() ==> {
            &&& #[trigger] s.boundaries[t] <= s.log.len()
            &&& replayed(s.initial, s.catalog, s.log.take(s.boundaries[t] as int)) == s.grid_at(
                t as nat,
            )
        }
}

/// Whether a stamp that has finished `i` rows of its rectangle and `j` cells
/// of the next row has been at cell `k`.
pub open spec fn visited(n: int, step: ApplicationStep, i: int, j: int, k: int) -> bool {
    k / n < step.row + i || (k / n == step.row + i && k % n < step.col + j)
}

/// The grid while a stamp is under way: rewritten where the stamp has been.
pub open spec fn partly_stamped(
    grid: Seq<u32>,
    n: int,
    step: ApplicationStep,
    op: Operation,
    i: int,
    j: int,
) -> Seq<u32> {
    Seq::new(
        grid.len(),
        |k: int|
            if hits(grid, n, step, op, k) && visited(n, step, i, j, k) {
                op.to_value
            } else {
                grid[k]
            },
    )
}

/// The records of a stamp that is under way.
pub open spec fn partly_logged(
    grid: Seq<u32>,
    n: int,
    step: ApplicationStep,
    op: Operation,
    i: nat,
    j: nat,
) -> Seq<ChangeRecord> {
    rect_hits(grid, n, step, op, i) + row_hits(grid, n, step, op, step.row + i, j)
}

/// Moving a stamp one cell on rewrites that cell if it holds `from_value`
/// and no other.
pub proof fn lemma_stamp_one_cell(
    grid: Seq<u32>,
    n: int,
    step: ApplicationStep,
    op: Operation,
    i: int,
    j: int,
)
    requires
        n * n <= grid.len(),
        0 <= i < op.height,
        0 <= j < op.width,
        step.row + op.height <= n,
        step.col + op.width <= n,
    ensures
        ({
            let cell = (step.row + i) * n + step.col + j;
            let before = partly_stamped(grid, n, step, op, i, j);
            &&& 0 <= cell < n * n
            &&& before[cell] == grid[cell]
            &&& partly_stamped(grid, n, step, op, i, j + 1) == if grid[cell] == op.from_value {
                before.update(cell, op.to_value)
            } else {
                before
            }
        }),
{
    let row = step.row + i;
    let cell = row * n + step.col + j;
    let before = partly_stamped(grid, n, step, op, i, j);
    let after = partly_stamped(grid, n, step, op, i, j + 1);
    lemma_row_inside(n, row);
    lemma_cell_of(n, row, step.col + j);
    assert(in_rect(n, step, op, cell));
    assert(!visited(n, step, i, j, cell));
    let expected = if grid[cell] == op.from_value {
        before.update(cell, op.to_value)
    } else {
        before
    };
    assert forall|k: int| 0 <= k < grid.len() implies after[k] == expected[k] by {
        lemma_fundamental_div_mod(k, n);
        if k == cell {
            assert(visited(n, step, i, j + 1, k));
        } else {
            assert(n * (k / n) == (k / n) * n) by (nonlinear_arith);
            assert(!(k / n == row && k % n == step.col + j));
            assert(visited(n, step, i, j + 1, k) == visited(n, step, i, j, k));
        }
    }
    assert(after =~= expected);
}

/// A sound log stays sound when a record is added whose cell holds, after
/// the log is replayed, the value that its entry rewrites.
pub proof fn lemma_sound_push(
    initial: Seq<u32>,
    catalog: Seq<u32>,
    log: Seq<ChangeRecord>,
    record: ChangeRecord,
)
    requires
        records_sound(initial, catalog, log),
        record.cell < initial.len(),
        4 * record.op + 3 < catalog.len(),
        replayed(initial, catalog, log)[record.cell as int] == operation_at(
            catalog,
            record.op as int,
        ).from_value,
    ensures
        records_sound(initial, catalog, log.push(record)),
{
    let longer = log.push(record);
    assert forall|c: int| 0 <= c < longer.len() implies record_sound(
        initial,
        catalog,
        longer,
        c,
    ) by {
        if c < log.len() {
            assert(longer.take(c) =~= log.take(c));
            assert(record_sound(initial, catalog, log, c));
        } else {
            assert(longer.take(c) =~= log);
        }
    }
}

/// Replaying records whose cells lie in the grid keeps the grid's length.
pub proof fn lemma_replayed_len(grid: Seq<u32>, catalog: Seq<u32>, records: Seq<ChangeRecord>)
    requires
        forall|c: int| 0 <= c < records.len() ==> records[c].cell < grid.len(),
    ensures
        replayed(grid, catalog, records).len() == grid.len(),
    decreases records.len(),
{
    if records.len() > 0 {
        lemma_replayed_len(grid, catalog, records.drop_last());
    }
}

/// Replaying the records of a stamp that is under way gives the grid as the
/// stamp has left it, and these records are sound.
proof fn lemma_stamp_under_way(
    grid: Seq<u32>,
    catalog: Seq<u32>,
    n: int,
    step: ApplicationStep,
    op: Operation,
    i: nat,
    j: nat,
)
    requires
        n * n <= grid.len() <= usize::MAX,
        step.row + op.height <= n,
        step.col + op.width <= n,
        4 * step.op + 3 < catalog.len(),
        operation_at(catalog, step.op as int) == op,
        (i < op.height && j <= op.width) || (i == op.height && j == 0),
    ensures
        replayed(grid, catalog, partly_logged(grid, n, step, op, i, j)) == partly_stamped(
            grid,
            n,
            step,
            op,
            i as int,
            j as int,
        ),
        records_sound(grid, catalog, partly_logged(grid, n, step, op, i, j)),
    decreases i, j,
{
    let log = partly_logged(grid, n, step, op, i, j);
    if j > 0 {
        let before = partly_logged(grid, n, step, op, i, (j - 1) as nat);
        lemma_stamp_under_way(grid, catalog, n, step, op, i, (j - 1) as nat);
        lemma_stamp_one_cell(grid, n, step, op, i as int, j - 1);
        let cell = (step.row + i) * n + step.col + j - 1;
        if grid[cell] == op.from_value {
            let record = ChangeRecord { cell: cell as usize, op: step.op as usize };
            assert(log =~= before.push(record));
            assert(log.drop_last() =~= before);
            lemma_sound_push(grid, catalog, before, record);
        } else {
            assert(log =~= before);
        }
    } else if i > 0 {
        let before = partly_logged(grid, n, step, op, (i - 1) as nat, op.width as nat);
        lemma_stamp_under_way(grid, catalog, n, step, op, (i - 1) as nat, op.width as nat);
        assert(log =~= before);
        assert(partly_stamped(grid, n, step, op, i as int, 0) =~= partly_stamped(
            grid,
            n,
            step,
            op,
            i - 1,
            op.width as int,
        ));
    } else {
        assert(log =~= Seq::<ChangeRecord>::empty());
        assert(partly_stamped(grid, n, step, op, 0, 0) =~= grid);
    }
}

/// Replaying the records of a stamp gives the stamped grid, and the records
/// are sound: each names a cell that held `from_value` when its turn came.
pub proof fn lemma_step_replays(
    grid: Seq<u32>,
    catalog: Seq<u32>,
    n: int,
    step: ApplicationStep,
    op: Operation,
)
    requires
        n * n <= grid.len() <= usize::MAX,
        step.row + op.height <= n,
        step.col + op.width <= n,
        4 * step.op + 3 < catalog.len(),
        operation_at(catalog, step.op as int) == op,
    ensures
        replayed(grid, catalog, step_records(grid, n, step, op)) == stamped(grid, n, step, op),
        records_sound(grid, catalog, step_records(grid, n, step, op)),
{
    lemma_stamp_under_way(grid, catalog, n, step, op, op.height as nat, 0);
    assert(partly_logged(grid, n, step, op, op.height as nat, 0) =~= step_records(
        grid,
        n,
        step,
        op,
    ));
    assert(partly_stamped(grid, n, step, op, op.height as int, 0) =~= stamped(grid, n, step, op));
}

/// Replaying two logs in a row is replaying the first, then the second.
pub proof fn lemma_replayed_concat(
    grid: Seq<u32>,
    catalog: Seq<u32>,
    first: Seq<ChangeRecord>,
    second: Seq<ChangeRecord>,
)
    ensures
        replayed(grid, catalog, first + second) == replayed(
            replayed(grid, catalog, first),
            catalog,
            second,
        ),
    decreases second.len(),
{
    if second.len() == 0 {
        assert(first + second =~= first);
    } else {
        lemma_replayed_concat(grid, catalog, first, second.drop_last());
        assert((first + second).drop_last() =~= first + second.drop_last());
    }
}

/// A sound log followed by a log that is sound on the grid that the first
/// leaves is sound.
proof fn lemma_sound_concat(
    grid: Seq<u32>,
    catalog: Seq<u32>,
    first: Seq<ChangeRecord>,
    second: Seq<ChangeRecord>,
)
    requires
        records_sound(grid, catalog, first),
        records_sound(replayed(grid, catalog, first), catalog, second),
        replayed(grid, catalog, first).len() == grid.len(),
    ensures
        records_sound(grid, catalog, first + second),
{
    let both = first + second;
    assert forall|c: int| 0 <= c < both.len() implies record_sound(grid, catalog, both, c) by {
        if c < first.len() {
            assert(both.take(c) =~= first.take(c));
            assert(record_sound(grid, catalog, first, c));
        } else {
            let d = c - first.len();
            assert(both.take(c) =~= first + second.take(d));
            lemma_replayed_concat(grid, catalog, first, second.take(d));
            assert(record_sound(replayed(grid, catalog, first), catalog, second, d));
        }
    }
}

/// Replaying the log of the first `t` steps gives the grid after `t` steps,
/// and that log is sound.
pub proof fn lemma_log_replays(
    n: nat,
    initial: Seq<u32>,
    catalog: Seq<u32>,
    steps: Seq<u32>,
    t: nat,
)
    requires
        playable(n, initial.len(), catalog, steps),
        initial.len() <= usize::MAX,
        t <= steps.len() / 3,
    ensures
        replayed(initial, catalog, log_after(n, initial, catalog, steps, t)) == grid_after(
            n,
            initial,
            catalog,
            steps,
            t,
        ),
        records_sound(initial, catalog, log_after(n, initial, catalog, steps, t)),
        grid_after(n, initial, catalog, steps, t).len() == initial.len(),
    decreases t,
{
    if t > 0 {
        let before = (t - 1) as nat;
        let log = log_after(n, initial, catalog, steps, before);
        let grid = grid_after(n, initial, catalog, steps, before);
        let step = step_at(steps, before as int);
        let op = operation_at(catalog, step.op as int);
        lemma_log_replays(n, initial, catalog, steps, before);
        assert(step_in_bounds(n, catalog, steps, before as int));
        lemma_step_replays(grid, catalog, n as int, step, op);
        let records = step_records(grid, n as int, step, op);
        lemma_replayed_concat(initial, catalog, log, records);
        assert forall|c: int| 0 <= c < records.len() implies record_sound(
            replayed(initial, catalog, log),
            catalog,
            records,
            c,
        ) by {
            assert(record_sound(grid, catalog, records, c));
        }
        lemma_sound_concat(initial, catalog, log, records);
    }
}

/// The log of the first `s` steps starts the log of any more steps.
pub proof fn lemma_log_grows(
    n: nat,
    initial: Seq<u32>,
    catalog: Seq<u32>,
    steps: Seq<u32>,
    s: nat,
    t: nat,
)
    requires
        s <= t,
    ensures
        log_after(n, initial, catalog, steps, s).len() <= log_after(
            n,
            initial,
            catalog,
            steps,
            t,
        ).len(),
        log_after(n, initial, catalog, steps, t).take(
            log_after(n, initial, catalog, steps, s).len() as int,
        ) == log_after(n, initial, catalog, steps, s),
    decreases t,
{
    let short = log_after(n, initial, catalog, steps, s);
    let long = log_after(n, initial, catalog, steps, t);
    if s == t {
        assert(long.take(short.len() as int) =~= short);
    } else {
        lemma_log_grows(n, initial, catalog, steps, s, (t - 1) as nat);
        let before = log_after(n, initial, catalog, steps, (t - 1) as nat);
        assert(long.take(short.len() as int) =~= before.take(short.len() as int));
    }
}

/// The log of a consistent engine can be replayed: each record names a cell
/// that held its entry's `from_value` when its turn came, the boundaries
/// never decrease, and replaying the log up to the boundary of step `t`
/// gives the grid after `t` steps. In particular the current grid is the
/// initial grid with the records before the cursor replayed. The grid must
/// be one that fits in memory, so that a record can name each of its cells.
pub proof fn lemma_log_sound(engine: EngineState)
    requires
        engine.consistent(),
        engine.initial.len() <= usize::MAX,
    ensures
        log_sound(engine),
        engine.boundaries[0] == 0,
        forall|s: int, t: int|
            0 <= s <= t <= engine.step_count() ==> engine.boundaries[s] <= engine.boundaries[t],
        engine.current == replayed(
            engine.initial,
            engine.catalog,
            engine.log.take(engine.cursor as int),
        ),
{
    let count = engine.step_count();
    lemma_log_replays(engine.n, engine.initial, engine.catalog, engine.steps, count);
    lemma_log_replays(engine.n, engine.initial, engine.catalog, engine.steps, engine.time);
    assert forall|t: int| 0 <= t <= count implies {
        &&& #[trigger] engine.boundaries[t] <= engine.log.len()
        &&& replayed(engine.initial, engine.catalog, engine.log.take(engine.boundaries[t] as int))
            == engine.grid_at(t as nat)
    } by {
        lemma_log_grows(engine.n, engine.initial, engine.catalog, engine.steps, t as nat, count);
        lemma_log_replays(engine.n, engine.initial, engine.catalog, engine.steps, t as nat);
        assert(engine.boundaries[t] == engine.log_at(t as nat).len());
    }
    assert forall|s: int, t: int| 0 <= s <= t <= count implies engine.boundaries[s]
        <= engine.boundaries[t] by {
        lemma_log_grows(engine.n, engine.initial, engine.catalog, engine.steps, s as nat, t as nat);
        assert(engine.boundaries[s] == engine.log_at(s as nat).len());
        assert(engine.boundaries[t] == engine.log_at(t as nat).len());
    }
    assert(engine.boundaries[0] == engine.log_at(0).len());
    assert(engine.boundaries[engine.time as int] == engine.log_at(engine.time).len());
}

/// The grid after the changes `records` are taken back, the last one first:
/// each cell gets back the value that its record's entry rewrites.
pub open spec fn undone(grid: Seq<u32>, catalog: Seq<u32>, records: Seq<ChangeRecord>) -> Seq<u32>
    decreases records.len(),
{
    if records.len() == 0 {
        grid
    } else {
        undone(
            grid.update(
                records.last().cell as int,
                operation_at(catalog, records.last().op as int).from_value,
            ),
            catalog,
            records.drop_last(),
        )
    }
}

/// The grid that the engine reaches when its cursor walks to the boundary of
/// step `t`, replaying the records it passes on the way forward or taking
/// them back on the way backward.
pub open spec fn walked(engine: EngineState, t: nat) -> Seq<u32> {
    let target = engine.boundaries[t as int] as int;
    if target >= engine.cursor {
        replayed(engine.current, engine.catalog, engine.log.subrange(engine.cursor as int, target))
    } else {
        undone(engine.current, engine.catalog, engine.log.subrange(target, engine.cursor as int))
    }
}

/// Replaying is reversible: taking back the records from `c` to `d` of a
/// sound log, after the log was replayed up to `d`, gives the grid that
/// replaying up to `c` gives.
pub proof fn lemma_undo_replay(
    initial: Seq<u32>,
    catalog: Seq<u32>,
    log: Seq<ChangeRecord>,
    c: nat,
    d: nat,
)
    requires
        records_sound(initial, catalog, log),
        c <= d <= log.len(),
    ensures
        undone(replayed(initial, catalog, log.take(d as int)), catalog, log.subrange(c as int, d as int))
            == replayed(initial, catalog, log.take(c as int)),
    decreases d - c,
{
    let records = log.subrange(c as int, d as int);
    if c < d {
        let kept = log.take(d - 1);
        let last = log[d - 1];
        assert(record_sound(initial, catalog, log, d - 1));
        assert forall|k: int| 0 <= k < kept.len() implies kept[k].cell < initial.len() by {
            assert(record_sound(initial, catalog, log, k));
        }
        lemma_replayed_len(initial, catalog, kept);
        assert(log.take(d as int).drop_last() =~= kept);
        assert(log.take(d as int).last() == last);
        assert(records.last() == last);
        assert(records.drop_last() =~= log.subrange(c as int, d - 1));
        assert(replayed(initial, catalog, log.take(d as int)).update(
            last.cell as int,
            operation_at(catalog, last.op as int).from_value,
        ) =~= replayed(initial, catalog, kept));
        lemma_undo_replay(initial, catalog, log, c, (d - 1) as nat);
    }
}

/// Seeking by the log arrives: from wherever the cursor of a consistent
/// engine stands, walking it to the boundary of step `t` leaves the grid
/// that applying exactly the first `t` steps to the initial grid gives.
pub proof fn lemma_walk_arrives(engine: EngineState, t: nat)
    requires
        engine.consistent(),
        engine.initial.len() <= usize::MAX,
        t <= engine.step_count(),
    ensures
        walked(engine, t) == engine.grid_at(t),
        walked(engine, t) == engine.sought(t).current,
{
    lemma_log_sound(engine);
    let target = engine.boundaries[t as int] as int;
    let cursor = engine.cursor as int;
    assert(engine.boundaries[engine.time as int] <= engine.log.len());
    if target >= cursor {
        lemma_replayed_concat(
            engine.initial,
            engine.catalog,
            engine.log.take(cursor),
            engine.log.subrange(cursor, target),
        );
        assert(engine.log.take(cursor) + engine.log.subrange(cursor, target) =~= engine.log.take(
            target,
        ));
    } else {
        lemma_undo_replay(
            engine.initial,
            engine.catalog,
            engine.log,
            target as nat,
            cursor as nat,
        );
    }
}

/// Reversibility by the log: walking a consistent engine to step `s`, back
/// to step 0 and to step `s` again leaves, cell for cell, the grid that
/// walking an engine bound to the same steps on the same instance to `s`
/// leaves, wherever that engine stood.
pub proof fn lemma_walk_reversible(engine: EngineState, fresh: EngineState, s: nat)
    requires
        engine.consistent(),
        fresh.consistent(),
        engine.initial.len() <= usize::MAX,
        fresh.n == engine.n,
        fresh.initial == engine.initial,
        fresh.catalog == engine.catalog,
        fresh.steps == engine.steps,
        s <= engine.step_count(),
    ensures
        ({
            let there = EngineState { current: walked(engine, s), ..engine.sought(s) };
            let back = EngineState { current: walked(there, 0), ..there.sought(0) };
            walked(back, s) == walked(fresh, s)
        }),
{
    lemma_walk_arrives(engine, s);
    lemma_sought_consistent(engine, s);
    let there = engine.sought(s);
    lemma_walk_arrives(there, 0);
    lemma_sought_consistent(there, 0);
    let back = there.sought(0);
    lemma_walk_arrives(back, s);
    lemma_walk_arrives(fresh, s);
}

} // verus!
