//! The instance that a seed generates: which value of the seed's stream
//! becomes which part of the instance.

use vstd::prelude::*;
use crate::model::EngineState;
use crate::mt::{draw, lemma_stream, state_after, MT};
use crate::text::instance_text;

verus! {

/// Grid values lie below this bound.
pub const MAX_GRID_VALUE: u32 = 50;

/// Number of entries in a generated catalog.
pub const OPERATION_COUNT: usize = 3000;

/// The size `n` of the instance of `seed`: the first value of the stream,
/// brought into 15..=60.
pub open spec fn generated_size(seed: u32) -> nat {
    (draw(seed, 0) % 46 + 15) as nat
}

/// The initial grid of the instance of `seed`: one value per cell, row by
/// row, right after the size.
pub open spec fn generated_initial(seed: u32) -> Seq<u32> {
    let n = generated_size(seed);
    Seq::new(n * n, |k: int| draw(seed, (1 + k) as nat) % MAX_GRID_VALUE)
}

/// The target grid of the instance of `seed`: one value per cell, row by
/// row, after the whole initial grid.
pub open spec fn generated_target(seed: u32) -> Seq<u32> {
    let n = generated_size(seed);
    Seq::new(n * n, |k: int| draw(seed, (1 + n * n + k) as nat) % MAX_GRID_VALUE)
}

/// Number `k` of the catalog of the instance of `seed`, four numbers per
/// entry: a height and a width in `1..=n`, then two grid values.
pub open spec fn generated_catalog_number(seed: u32, k: int) -> u32 {
    let n = generated_size(seed);
    let value = draw(seed, (1 + 2 * (n * n) + k) as nat);
    if k % 4 < 2 {
        (value % (n as u32) + 1) as u32
    } else {
        value % MAX_GRID_VALUE
    }
}

/// The catalog of the instance of `seed`: 3000 entries, drawn after both
/// grids.
pub open spec fn generated_catalog(seed: u32) -> Seq<u32> {
    Seq::new(4 * OPERATION_COUNT as nat, |k: int| generated_catalog_number(seed, k))
}

/// The engine that holds the instance of `seed`, bound to no steps.
pub open spec fn generated(seed: u32) -> EngineState {
    EngineState {
        n: generated_size(seed),
        initial: generated_initial(seed),
        target: generated_target(seed),
        catalog: generated_catalog(seed),
        steps: Seq::empty(),
        current: generated_initial(seed),
        log: Seq::empty(),
        boundaries: seq![0usize],
        cursor: 0,
        time: 0,
    }
}

/// Determinism: engines that generated the instance of one seed hold the
/// same instance, and its text is the same sequence of bytes.
pub proof fn lemma_same_seed_same_instance(a: EngineState, b: EngineState, seed: u32)
    requires
        a == generated(seed),
        b == generated(seed),
    ensures
        a == b,
        instance_text(a.n, a.initial, a.target, a.catalog) == instance_text(
            b.n,
            b.initial,
            b.target,
            b.catalog,
        ),
{
}

/// A generated instance is in range: a size from 15 to 60, grids of
/// `n * n` cells below 50, and 3000 catalog entries with heights and widths
/// from 1 to `n` and values below 50.
pub proof fn lemma_generated_in_range(seed: u32)
    ensures
        15 <= generated(seed).n <= 60,
        generated(seed).initial.len() == generated(seed).n * generated(seed).n,
        generated(seed).target.len() == generated(seed).n * generated(seed).n,
        generated(seed).catalog.len() == 4 * OPERATION_COUNT,
        forall|k: int|
            0 <= k < generated(seed).initial.len() ==> generated(seed).initial[k] < MAX_GRID_VALUE,
        forall|k: int|
            0 <= k < generated(seed).target.len() ==> generated(seed).target[k] < MAX_GRID_VALUE,
        forall|k: int|
            0 <= k < generated(seed).catalog.len() ==> if k % 4 < 2 {
                1 <= generated(seed).catalog[k] <= generated(seed).n
            } else {
                generated(seed).catalog[k] < MAX_GRID_VALUE
            },
{
}

/// Draws the size of an instance from a freshly seeded generator.
pub(crate) fn draw_size(mt: &mut MT, Ghost(seed): Ghost<u32>) -> (n: usize)
    requires
        old(mt)@ == state_after(seed, 0),
    ensures
        final(mt)@ == state_after(seed, 1),
        n == generated_size(seed),
        15 <= n <= 60,
{
    proof {
        lemma_stream(seed, 0);
    }
    (mt.gen_u32() % 46 + 15) as usize
}

/// Draws `count` grid values, the stream standing at its value `from`.
pub(crate) fn draw_cells(
    mt: &mut MT,
    count: usize,
    Ghost(seed): Ghost<u32>,
    Ghost(from): Ghost<nat>,
) -> (cells: Vec<u32>)
    requires
        old(mt)@ == state_after(seed, from),
    ensures
        final(mt)@ == state_after(seed, (from + count) as nat),
        cells@ == Seq::new(count as nat, |k: int| draw(seed, (from + k) as nat) % MAX_GRID_VALUE),
{
    let mut cells: Vec<u32> = Vec::new();
    let mut k: usize = 0;
    while k < count
        invariant
            k <= count,
            mt@ == state_after(seed, (from + k) as nat),
            cells@.len() == k,
            forall|i: int| 0 <= i < k ==> cells@[i] == draw(seed, (from + i) as nat) % MAX_GRID_VALUE,
        decreases count - k,
    {
        proof {
            lemma_stream(seed, (from + k) as nat);
        }
        let value = mt.gen_u32() % MAX_GRID_VALUE;
        cells.push(value);
        k += 1;
    }
    assert(cells@ =~= Seq::new(
        count as nat,
        |k: int| draw(seed, (from + k) as nat) % MAX_GRID_VALUE,
    ));
    cells
}

/// Draws the catalog for an instance of size `n`, the stream standing right
/// after both grids.
pub(crate) fn draw_catalog(mt: &mut MT, n: usize, Ghost(seed): Ghost<u32>) -> (catalog: Vec<u32>)
    requires
        n == generated_size(seed),
        15 <= n <= 60,
        old(mt)@ == state_after(seed, (1 + 2 * (n * n)) as nat),
    ensures
        catalog@ == generated_catalog(seed),
{
    let n32 = n as u32;
    let ghost from = (1 + 2 * (n * n)) as nat;
    let mut catalog: Vec<u32> = Vec::new();
    let mut i: usize = 0;
    while i < OPERATION_COUNT
        invariant
            i <= OPERATION_COUNT,
            n == generated_size(seed),
            15 <= n <= 60,
            n32 == n,
            from == 1 + 2 * (n * n),
            mt@ == state_after(seed, (from + 4 * i) as nat),
            catalog@.len() == 4 * i,
            forall|k: int| 0 <= k < 4 * i ==> catalog@[k] == generated_catalog_number(seed, k),
        decreases OPERATION_COUNT - i,
    {
        proof {
            lemma_stream(seed, (from + 4 * i) as nat);
            lemma_stream(seed, (from + 4 * i + 1) as nat);
            lemma_stream(seed, (from + 4 * i + 2) as nat);
            lemma_stream(seed, (from + 4 * i + 3) as nat);
        }
        let op1 = mt.gen_u32() % n32;
        let op2 = mt.gen_u32() % n32;
        let op3 = mt.gen_u32() % MAX_GRID_VALUE;
        let op4 = mt.gen_u32() % MAX_GRID_VALUE;
        catalog.push(op1 + 1);
        catalog.push(op2 + 1);
        catalog.push(op3);
        catalog.push(op4);
        i += 1;
    }
    assert(catalog@ =~= generated_catalog(seed));
    catalog
}

} // verus!
