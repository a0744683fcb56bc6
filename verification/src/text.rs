//! The text form of an instance: a header line with the size and the number
//! of catalog entries, the rows of the initial grid, the rows of the target
//! grid, and one line per catalog entry.

use vstd::prelude::*;
use vstd::string::StringExecFns;
use vstd::utf8::{encode_utf8, is_ascii_chars, is_ascii_chars_encode_utf8};
use crate::model::{lemma_row_inside, operation_at, Operation};
use crate::parse::{parsed_instance, InstanceData};
use crate::round_trip::lemma_round_trip;

verus! {

pub const SPACE: u8 = 32;

pub const NEWLINE: u8 = 10;

/// The decimal digits of `v`, most significant first, without leading zeros.
pub open spec fn decimal(v: nat) -> Seq<u8>
    decreases v,
{
    if v < 10 {
        seq![(48 + v) as u8]
    } else {
        decimal(v / 10).push((48 + v % 10) as u8)
    }
}

/// The characters of a text given by its ASCII bytes.
pub open spec fn ascii(bytes: Seq<u8>) -> Seq<char> {
    Seq::new(bytes.len(), |i: int| bytes[i] as char)
}

/// The number `v` and the byte `end` after it.
pub open spec fn field_text(v: nat, end: u8) -> Seq<u8> {
    decimal(v).push(end)
}

/// The cells of one row, each followed by a space.
pub open spec fn cells_text(values: Seq<u32>) -> Seq<u8>
    decreases values.len(),
{
    if values.len() == 0 {
        Seq::empty()
    } else {
        cells_text(values.drop_last()) + field_text(values.last() as nat, SPACE)
    }
}

/// One row of a grid: its cells, then a newline.
pub open spec fn row_text(values: Seq<u32>) -> Seq<u8> {
    cells_text(values).push(NEWLINE)
}

/// The first `rows` rows of a grid with `n` columns.
pub open spec fn grid_text(grid: Seq<u32>, n: nat, rows: nat) -> Seq<u8>
    decreases rows,
{
    if rows == 0 {
        Seq::empty()
    } else {
        grid_text(grid, n, (rows - 1) as nat) + row_text(
            grid.subrange((rows - 1) * n, (rows - 1) * n + n),
        )
    }
}

/// The line of one catalog entry: its four numbers with a space between.
pub open spec fn entry_text(op: Operation) -> Seq<u8> {
    field_text(op.height as nat, SPACE) + field_text(op.width as nat, SPACE) + field_text(
        op.from_value as nat,
        SPACE,
    ) + field_text(op.to_value as nat, NEWLINE)
}

/// The lines of the first `count` entries of a catalog.
pub open spec fn catalog_text(catalog: Seq<u32>, count: nat) -> Seq<u8>
    decreases count,
{
    if count == 0 {
        Seq::empty()
    } else {
        catalog_text(catalog, (count - 1) as nat) + entry_text(operation_at(catalog, count - 1))
    }
}

/// The header line: the size and the number of catalog entries.
pub open spec fn header_text(n: nat, entries: nat) -> Seq<u8> {
    field_text(n, SPACE) + field_text(entries, NEWLINE)
}

/// The text of an instance of size `n`; of each grid the first `n * n`
/// cells are written.
pub open spec fn instance_text(
    n: nat,
    initial: Seq<u32>,
    target: Seq<u32>,
    catalog: Seq<u32>,
) -> Seq<u8> {
    header_text(n, catalog.len() / 4) + grid_text(initial, n, n) + grid_text(target, n, n)
        + catalog_text(catalog, catalog.len() / 4)
}

/// Appends the digit `d`.
fn push_digit(text: &mut String, d: u8)
    requires
        d < 10,
        is_ascii_chars(old(text)@),
    ensures
        final(text)@ == old(text)@ + ascii(seq![(48 + d) as u8]),
        is_ascii_chars(final(text)@),
{
    proof {
        reveal_strlit("0");
        reveal_strlit("1");
        reveal_strlit("2");
        reveal_strlit("3");
        reveal_strlit("4");
        reveal_strlit("5");
        reveal_strlit("6");
        reveal_strlit("7");
        reveal_strlit("8");
        reveal_strlit("9");
    }
    let digit = match d {
        0 => "0",
        1 => "1",
        2 => "2",
        3 => "3",
        4 => "4",
        5 => "5",
        6 => "6",
        7 => "7",
        8 => "8",
        _ => "9",
    };
    assert(digit@ =~= ascii(seq![(48 + d) as u8]));
    text.append(digit);
}

/// Appends a space.
fn push_space(text: &mut String)
    requires
        is_ascii_chars(old(text)@),
    ensures
        final(text)@ == old(text)@ + ascii(seq![SPACE]),
        is_ascii_chars(final(text)@),
{
    proof {
        reveal_strlit(" ");
    }
    assert(" "@ =~= ascii(seq![SPACE]));
    text.append(" ");
}

/// Appends a newline.
fn push_newline(text: &mut String)
    requires
        is_ascii_chars(old(text)@),
    ensures
        final(text)@ == old(text)@ + ascii(seq![NEWLINE]),
        is_ascii_chars(final(text)@),
{
    proof {
        reveal_strlit("\n");
    }
    assert("\n"@ =~= ascii(seq![NEWLINE]));
    text.append("\n");
}

/// Appends `v` in decimal.
fn push_decimal(text: &mut String, v: u64)
    requires
        is_ascii_chars(old(text)@),
    ensures
        final(text)@ == old(text)@ + ascii(decimal(v as nat)),
        is_ascii_chars(final(text)@),
    decreases v,
{
    if v >= 10 {
        push_decimal(text, v / 10);
    }
    push_digit(text, (v % 10) as u8);
    assert(text@ =~= old(text)@ + ascii(decimal(v as nat)));
}

/// The characters of two texts in a row are those of the first, then those
/// of the second.
proof fn lemma_ascii_concat(a: Seq<u8>, b: Seq<u8>)
    ensures
        ascii(a + b) == ascii(a) + ascii(b),
{
    assert(ascii(a + b) =~= ascii(a) + ascii(b));
}

/// Appends `v` in decimal and the byte `end` after it, a space or a newline.
fn push_field(text: &mut String, v: u64, end: u8)
    requires
        end == SPACE || end == NEWLINE,
        is_ascii_chars(old(text)@),
    ensures
        final(text)@ == old(text)@ + ascii(field_text(v as nat, end)),
        is_ascii_chars(final(text)@),
{
    push_decimal(text, v);
    if end == SPACE {
        push_space(text);
    } else {
        push_newline(text);
    }
    proof {
        assert(field_text(v as nat, end) =~= decimal(v as nat) + seq![end]);
        lemma_ascii_concat(decimal(v as nat), seq![end]);
        assert(text@ =~= old(text)@ + (ascii(decimal(v as nat)) + ascii(seq![end])));
    }
}

/// Appends the line of one catalog entry.
fn push_entry(text: &mut String, op: Operation)
    requires
        is_ascii_chars(old(text)@),
    ensures
        final(text)@ == old(text)@ + ascii(entry_text(op)),
        is_ascii_chars(final(text)@),
{
    let ghost a = field_text(op.height as nat, SPACE);
    let ghost b = field_text(op.width as nat, SPACE);
    let ghost c = field_text(op.from_value as nat, SPACE);
    let ghost d = field_text(op.to_value as nat, NEWLINE);
    push_field(text, op.height as u64, SPACE);
    push_field(text, op.width as u64, SPACE);
    push_field(text, op.from_value as u64, SPACE);
    push_field(text, op.to_value as u64, NEWLINE);
    proof {
        assert(text@ =~= old(text)@ + (ascii(a) + ascii(b) + ascii(c) + ascii(d)));
        lemma_ascii_concat(a, b);
        lemma_ascii_concat(a + b, c);
        lemma_ascii_concat(a + b + c, d);
        assert(entry_text(op) =~= a + b + c + d);
    }
}

/// Appends the first `n` rows of `grid`, which has `n` columns.
fn push_grid(text: &mut String, grid: &[u32], n: usize)
    requires
        n * n <= grid@.len(),
        is_ascii_chars(old(text)@),
    ensures
        final(text)@ == old(text)@ + ascii(grid_text(grid@, n as nat, n as nat)),
        is_ascii_chars(final(text)@),
{
    let cells = grid.len();
    let mut i: usize = 0;
    assert(text@ =~= old(text)@ + ascii(grid_text(grid@, n as nat, 0)));
    while i < n
        invariant
            i <= n,
            cells == grid@.len(),
            n * n <= grid@.len(),
            text@ == old(text)@ + ascii(grid_text(grid@, n as nat, i as nat)),
            is_ascii_chars(text@),
        decreases n - i,
    {
        proof {
            lemma_row_inside(n as int, i as int);
        }
        let base = i * n;
        let ghost row = grid@.subrange(base as int, base + n);
        let ghost before = text@;
        let mut j: usize = 0;
        assert(row.take(0) =~= Seq::<u32>::empty());
        assert(text@ =~= before + ascii(cells_text(row.take(0))));
        while j < n
            invariant
                j <= n,
                cells == grid@.len(),
                base + n <= grid@.len(),
                row == grid@.subrange(base as int, base + n),
                text@ == before + ascii(cells_text(row.take(j as int))),
                is_ascii_chars(text@),
            decreases n - j,
        {
            push_field(text, grid[base + j] as u64, SPACE);
            proof {
                assert(row.take(j + 1).drop_last() =~= row.take(j as int));
                assert(row.take(j + 1).last() == grid@[base + j]);
                lemma_ascii_concat(
                    cells_text(row.take(j as int)),
                    field_text(grid@[base + j] as nat, SPACE),
                );
                assert(text@ =~= before + ascii(cells_text(row.take(j + 1))));
            }
            j += 1;
        }
        push_newline(text);
        proof {
            assert(row.take(n as int) =~= row);
            assert(row_text(row) =~= cells_text(row) + seq![NEWLINE]);
            lemma_ascii_concat(cells_text(row), seq![NEWLINE]);
            lemma_ascii_concat(grid_text(grid@, n as nat, i as nat), row_text(row));
            assert(text@ =~= old(text)@ + ascii(grid_text(grid@, n as nat, (i + 1) as nat)));
        }
        i += 1;
    }
}

/// The text of an instance of size `n`: a header line, the first `n` rows
/// of the initial grid, the first `n` rows of the target grid, and the lines
/// of the catalog. The result holds ASCII only, so its bytes are its
/// characters, and it reads back as the instance that was written.
pub fn instance_to_string(n: usize, initial: &[u32], target: &[u32], catalog: &[u32]) -> (text:
    String)
    requires
        n * n <= initial@.len(),
        n * n <= target@.len(),
        catalog@.len() % 4 == 0,
    ensures
        text@ == ascii(instance_text(n as nat, initial@, target@, catalog@)),
        encode_utf8(text@) == instance_text(n as nat, initial@, target@, catalog@),
        parsed_instance(encode_utf8(text@)) == Some(
            InstanceData {
                n: n as nat,
                initial: initial@.take(n * n),
                target: target@.take(n * n),
                catalog: catalog@,
            },
        ),
{
    let len = catalog.len();
    let entries = len / 4;
    let mut text = String::new();
    push_field(&mut text, n as u64, SPACE);
    push_field(&mut text, entries as u64, NEWLINE);
    proof {
        lemma_ascii_concat(field_text(n as nat, SPACE), field_text(entries as nat, NEWLINE));
        assert(text@ =~= ascii(header_text(n as nat, entries as nat)));
    }
    push_grid(&mut text, initial, n);
    push_grid(&mut text, target, n);
    let ghost before = text@;
    assert(before =~= ascii(
        header_text(n as nat, entries as nat) + grid_text(initial@, n as nat, n as nat)
            + grid_text(target@, n as nat, n as nat),
    ));
    let mut i: usize = 0;
    assert(text@ =~= before + ascii(catalog_text(catalog@, 0)));
    while i < entries
        invariant
            i <= entries,
            len == catalog@.len(),
            entries == catalog@.len() / 4,
            catalog@.len() % 4 == 0,
            text@ == before + ascii(catalog_text(catalog@, i as nat)),
            is_ascii_chars(text@),
        decreases entries - i,
    {
        let op = Operation {
            height: catalog[4 * i],
            width: catalog[4 * i + 1],
            from_value: catalog[4 * i + 2],
            to_value: catalog[4 * i + 3],
        };
        push_entry(&mut text, op);
        proof {
            lemma_ascii_concat(
                catalog_text(catalog@, i as nat),
                entry_text(operation_at(catalog@, i as int)),
            );
            assert(text@ =~= before + ascii(catalog_text(catalog@, (i + 1) as nat)));
        }
        i += 1;
    }
    proof {
        let bytes = instance_text(n as nat, initial@, target@, catalog@);
        assert(text@ =~= ascii(bytes));
        is_ascii_chars_encode_utf8(text@);
        assert(encode_utf8(text@) =~= bytes);
        lemma_round_trip(n as nat, initial@, target@, catalog@);
    }
    text
}

} // verus!
