//! Writing an instance and reading the text back gives the instance.

use vstd::prelude::*;
use vstd::arithmetic::div_mod::{lemma_fundamental_div_mod, lemma_mod_bound};
use crate::generator::generated;
use crate::model::{lemma_row_inside, operation_at};
use crate::parse::{
    block, block_fits, lemma_bytes_concat, parsed_instance, row_fits, table, InstanceData, Scan,
};
use crate::text::{
    catalog_text, cells_text, decimal, entry_text, field_text, grid_text, header_text,
    instance_text, row_text, NEWLINE, SPACE,
};

verus! {

/// The values of a row as the reader holds them.
pub open spec fn widen(values: Seq<u32>) -> Seq<u64> {
    Seq::new(values.len(), |i: int| values[i] as u64)
}

/// The first `rows` rows of a grid with `n` columns.
pub open spec fn grid_rows(grid: Seq<u32>, n: nat, rows: nat) -> Seq<Seq<u64>> {
    Seq::new(rows, |i: int| widen(grid.subrange(i * n, i * n + n)))
}

/// The first `count` entries of a catalog, one row each.
pub open spec fn catalog_rows(catalog: Seq<u32>, count: nat) -> Seq<Seq<u64>> {
    Seq::new(count, |i: int| widen(catalog.subrange(4 * i, 4 * i + 4)))
}

/// Reading the digits of `v` leaves `v` as the number under way.
proof fn lemma_read_decimal(scan: Scan, v: nat)
    requires
        scan.number is None,
        v <= u64::MAX,
    ensures
        scan.bytes(decimal(v)) == (Scan { number: Some(v as u64), ..scan }),
    decreases v,
{
    let text = decimal(v);
    if v < 10 {
        assert(text.drop_last() =~= Seq::<u8>::empty());
        assert(scan.bytes(text.drop_last()) == scan);
        assert(text.last() == (48 + v) as u8);
    } else {
        lemma_read_decimal(scan, v / 10);
        assert(text.drop_last() =~= decimal(v / 10));
        assert(text.last() == (48 + v % 10) as u8);
    }
}

/// Reading a number and the space after it adds the number to the line.
proof fn lemma_read_spaced(scan: Scan, v: nat)
    requires
        scan.number is None,
        v <= u64::MAX,
    ensures
        scan.bytes(field_text(v, SPACE)) == (Scan { row: scan.row.push(v as u64), ..scan }),
{
    lemma_read_decimal(scan, v);
    assert(field_text(v, SPACE).drop_last() =~= decimal(v));
}

/// Reading a number and the newline after it completes the line.
proof fn lemma_read_closing(scan: Scan, v: nat)
    requires
        scan.number is None,
        v <= u64::MAX,
    ensures
        scan.bytes(field_text(v, NEWLINE)) == (Scan {
            rows: scan.rows.push(scan.row.push(v as u64)),
            row: Seq::empty(),
            ..scan
        }),
{
    lemma_read_decimal(scan, v);
    assert(field_text(v, NEWLINE).drop_last() =~= decimal(v));
}

/// Reading the cells of a row adds them to the line.
proof fn lemma_read_cells(scan: Scan, values: Seq<u32>)
    requires
        scan.number is None,
    ensures
        scan.bytes(cells_text(values)) == (Scan { row: scan.row + widen(values), ..scan }),
    decreases values.len(),
{
    if values.len() == 0 {
        assert(scan.row + widen(values) =~= scan.row);
    } else {
        let head = values.drop_last();
        lemma_read_cells(scan, head);
        lemma_bytes_concat(scan, cells_text(head), field_text(values.last() as nat, SPACE));
        lemma_read_spaced(scan.bytes(cells_text(head)), values.last() as nat);
        assert((scan.row + widen(head)).push(values.last() as u64) =~= scan.row + widen(values));
    }
}

/// Reading a row of a grid adds one line.
proof fn lemma_read_row(scan: Scan, values: Seq<u32>)
    requires
        scan.number is None,
        scan.row.len() == 0,
        values.len() > 0,
    ensures
        scan.bytes(row_text(values)) == (Scan { rows: scan.rows.push(widen(values)), ..scan }),
{
    lemma_read_cells(scan, values);
    assert(row_text(values).drop_last() =~= cells_text(values));
    assert(scan.row + widen(values) =~= widen(values));
    assert(scan.row =~= Seq::<u64>::empty());
}

/// Reading the rows of a grid adds one line per row.
proof fn lemma_read_grid(scan: Scan, grid: Seq<u32>, n: nat, rows: nat)
    requires
        scan.number is None,
        scan.row.len() == 0,
        rows <= n,
        n * n <= grid.len(),
    ensures
        scan.bytes(grid_text(grid, n, rows)) == (Scan {
            rows: scan.rows + grid_rows(grid, n, rows),
            ..scan
        }),
    decreases rows,
{
    if rows == 0 {
        assert(scan.rows + grid_rows(grid, n, rows) =~= scan.rows);
    } else {
        let above = (rows - 1) as nat;
        let values = grid.subrange((above * n) as int, (above * n + n) as int);
        lemma_row_inside(n as int, above as int);
        lemma_read_grid(scan, grid, n, above);
        lemma_bytes_concat(scan, grid_text(grid, n, above), row_text(values));
        lemma_read_row(scan.bytes(grid_text(grid, n, above)), values);
        assert((scan.rows + grid_rows(grid, n, above)).push(widen(values)) =~= scan.rows
            + grid_rows(grid, n, rows));
    }
}

/// Reading the line of a catalog entry adds one line of four numbers.
proof fn lemma_read_entry(scan: Scan, catalog: Seq<u32>, i: int)
    requires
        scan.number is None,
        scan.row.len() == 0,
        0 <= i,
        4 * i + 4 <= catalog.len(),
    ensures
        scan.bytes(entry_text(operation_at(catalog, i))) == (Scan {
            rows: scan.rows.push(widen(catalog.subrange(4 * i, 4 * i + 4))),
            ..scan
        }),
{
    let op = operation_at(catalog, i);
    let a = field_text(op.height as nat, SPACE);
    let b = field_text(op.width as nat, SPACE);
    let c = field_text(op.from_value as nat, SPACE);
    let d = field_text(op.to_value as nat, NEWLINE);
    lemma_bytes_concat(scan, a + b + c, d);
    lemma_bytes_concat(scan, a + b, c);
    lemma_bytes_concat(scan, a, b);
    lemma_read_spaced(scan, op.height as nat);
    lemma_read_spaced(scan.bytes(a), op.width as nat);
    lemma_read_spaced(scan.bytes(a).bytes(b), op.from_value as nat);
    lemma_read_closing(scan.bytes(a).bytes(b).bytes(c), op.to_value as nat);
    assert(scan.row =~= Seq::<u64>::empty());
    assert(scan.row.push(op.height as u64).push(op.width as u64).push(op.from_value as u64).push(
        op.to_value as u64,
    ) =~= widen(catalog.subrange(4 * i, 4 * i + 4)));
}

/// Reading the lines of a catalog adds one line per entry.
proof fn lemma_read_catalog(scan: Scan, catalog: Seq<u32>, count: nat)
    requires
        scan.number is None,
        scan.row.len() == 0,
        4 * count <= catalog.len(),
    ensures
        scan.bytes(catalog_text(catalog, count)) == (Scan {
            rows: scan.rows + catalog_rows(catalog, count),
            ..scan
        }),
    decreases count,
{
    if count == 0 {
        assert(scan.rows + catalog_rows(catalog, count) =~= scan.rows);
    } else {
        let before = (count - 1) as nat;
        lemma_read_catalog(scan, catalog, before);
        lemma_bytes_concat(
            scan,
            catalog_text(catalog, before),
            entry_text(operation_at(catalog, before as int)),
        );
        lemma_read_entry(scan.bytes(catalog_text(catalog, before)), catalog, before as int);
        assert((scan.rows + catalog_rows(catalog, before)).push(
            widen(catalog.subrange((4 * before) as int, (4 * before + 4) as int)),
        ) =~= scan.rows + catalog_rows(catalog, count));
    }
}

/// The rows of a grid hold its first `n * n` cells.
proof fn lemma_grid_block(grid: Seq<u32>, n: nat)
    requires
        n * n <= grid.len(),
    ensures
        block_fits(grid_rows(grid, n, n), n),
        block(grid_rows(grid, n, n), n) == grid.take((n * n) as int),
{
    let rows = grid_rows(grid, n, n);
    assert forall|i: int| 0 <= i < rows.len() implies row_fits(#[trigger] rows[i], n) by {
        lemma_row_inside(n as int, i);
    }
    assert forall|k: int| 0 <= k < n * n implies block(rows, n)[k] == grid[k] by {
        assert(n > 0) by (nonlinear_arith)
            requires
                0 <= k < n * n,
        ;
        lemma_fundamental_div_mod(k, n as int);
        lemma_mod_bound(k, n as int);
        let i = k / (n as int);
        let j = k % (n as int);
        assert(0 <= i < n) by (nonlinear_arith)
            requires
                0 <= k < n * n,
                k == n * i + j,
                0 <= j < n,
        ;
        lemma_row_inside(n as int, i);
        assert(n * i == i * n) by (nonlinear_arith);
    }
    assert(block(rows, n) =~= grid.take((n * n) as int));
}

/// The rows of a catalog hold its numbers.
proof fn lemma_catalog_block(catalog: Seq<u32>)
    requires
        catalog.len() % 4 == 0,
    ensures
        block_fits(catalog_rows(catalog, catalog.len() / 4), 4),
        block(catalog_rows(catalog, catalog.len() / 4), 4) == catalog,
{
    let rows = catalog_rows(catalog, catalog.len() / 4);
    assert forall|i: int| 0 <= i < rows.len() implies row_fits(#[trigger] rows[i], 4) by {}
    assert(block(rows, 4) =~= catalog);
}

/// Round trip: the text of an instance reads back as that instance, with
/// the first `n * n` cells of each grid and the whole catalog.
pub proof fn lemma_round_trip(n: nat, initial: Seq<u32>, target: Seq<u32>, catalog: Seq<u32>)
    requires
        n * n <= initial.len(),
        n * n <= target.len(),
        catalog.len() % 4 == 0,
        n <= u64::MAX,
        catalog.len() / 4 <= u64::MAX,
    ensures
        parsed_instance(instance_text(n, initial, target, catalog)) == Some(
            InstanceData {
                n,
                initial: initial.take((n * n) as int),
                target: target.take((n * n) as int),
                catalog,
            },
        ),
{
    let t = catalog.len() / 4;
    let head = header_text(n, t);
    let first = grid_text(initial, n, n);
    let second = grid_text(target, n, n);
    let last = catalog_text(catalog, t);
    let start = Scan::start();
    lemma_bytes_concat(start, head + first + second, last);
    lemma_bytes_concat(start, head + first, second);
    lemma_bytes_concat(start, head, first);
    lemma_bytes_concat(start, field_text(n, SPACE), field_text(t, NEWLINE));
    lemma_read_spaced(start, n);
    lemma_read_closing(start.bytes(field_text(n, SPACE)), t);
    let after_head = start.bytes(head);
    let header = seq![n as u64, t as u64];
    assert(start.row.push(n as u64).push(t as u64) =~= header);
    assert(after_head.row =~= Seq::<u64>::empty());
    lemma_read_grid(after_head, initial, n, n);
    let after_first = after_head.bytes(first);
    lemma_read_grid(after_first, target, n, n);
    let after_second = after_first.bytes(second);
    lemma_read_catalog(after_second, catalog, t);
    let rows = seq![header] + grid_rows(initial, n, n) + grid_rows(target, n, n) + catalog_rows(
        catalog,
        t,
    );
    let end = after_second.bytes(last);
    assert(end.rows =~= rows);
    assert(end.row =~= Seq::<u64>::empty());
    assert(table(instance_text(n, initial, target, catalog)) == Some(rows));
    let ni = n as int;
    let ti = t as int;
    assert(rows.subrange(1, 1 + ni) =~= grid_rows(initial, n, n));
    assert(rows.subrange(1 + ni, 1 + 2 * ni) =~= grid_rows(target, n, n));
    assert(rows.subrange(1 + 2 * ni, 1 + 2 * ni + ti) =~= catalog_rows(catalog, t));
    lemma_grid_block(initial, n);
    lemma_grid_block(target, n);
    lemma_catalog_block(catalog);
    assert(rows[0] == header);
}

/// Round trip of a generated instance: its text reads back as an instance
/// equal to it in every part.
pub proof fn lemma_generated_round_trip(seed: u32)
    ensures
        parsed_instance(
            instance_text(
                generated(seed).n,
                generated(seed).initial,
                generated(seed).target,
                generated(seed).catalog,
            ),
        ) == Some(
            InstanceData {
                n: generated(seed).n,
                initial: generated(seed).initial,
                target: generated(seed).target,
                catalog: generated(seed).catalog,
            },
        ),
{
    let g = generated(seed);
    lemma_round_trip(g.n, g.initial, g.target, g.catalog);
    assert(g.initial.take((g.n * g.n) as int) =~= g.initial);
    assert(g.target.take((g.n * g.n) as int) =~= g.target);
}

} // verus!
