//! Reading texts: an instance, or a solver's answer.
//!
//! Both are lines of unsigned decimal numbers. A line ends at a newline or
//! at the end of the text; numbers are separated by blanks; a line without
//! a number is skipped.

use vstd::prelude::*;
use vstd::string::StringSliceAdditionalSpecFns;
use crate::model::lemma_cell_of;

verus! {

/// An instance as a text gives it.
#[derive(Debug, PartialEq, Eq)]
pub struct Instance {
    pub n: usize,
    pub initial: Vec<u32>,
    pub target: Vec<u32>,
    pub operations: Vec<u32>,
}

/// What an instance holds.
pub struct InstanceData {
    pub n: nat,
    pub initial: Seq<u32>,
    pub target: Seq<u32>,
    pub catalog: Seq<u32>,
}

impl View for Instance {
    type V = InstanceData;

    open spec fn view(&self) -> InstanceData {
        InstanceData {
            n: self.n as nat,
            initial: self.initial@,
            target: self.target@,
            catalog: self.operations@,
        }
    }
}

/// The text is not what it should be: a byte that is no digit, blank or
/// newline, a number too large, a wrong number of lines, or a line with a
/// wrong number of numbers.
#[derive(Clone, Copy, Debug, PartialEq, Eq, Structural)]
pub struct MalformedInput;

/// Whether `b` is a decimal digit.
pub open spec fn is_digit(b: u8) -> bool {
    48 <= b <= 57
}

/// Whether `b` separates numbers inside a line: a space, a tab, a carriage
/// return, a vertical tab or a form feed.
pub open spec fn is_blank(b: u8) -> bool {
    b == 32 || b == 9 || b == 13 || b == 11 || b == 12
}

/// What is known of a text after some of its bytes: the lines that are
/// complete, the numbers of the line under way, the number under way, and
/// whether every byte so far was a digit, a blank or a newline and every
/// number fitted 64 bits.
pub struct Scan {
    pub rows: Seq<Seq<u64>>,
    pub row: Seq<u64>,
    pub number: Option<u64>,
    pub valid: bool,
}

impl Scan {
    /// Nothing read yet.
    pub open spec fn start() -> Scan {
        Scan { rows: Seq::empty(), row: Seq::empty(), number: None, valid: true }
    }

    /// The number under way, if any, joins its line.
    pub open spec fn end_number(self) -> Scan {
        match self.number {
            Some(v) => Scan { row: self.row.push(v), number: None, ..self },
            None => self,
        }
    }

    /// The line under way is complete; it counts if it holds a number.
    pub open spec fn end_line(self) -> Scan {
        let done = self.end_number();
        if done.row.len() > 0 {
            Scan { rows: done.rows.push(done.row), row: Seq::empty(), ..done }
        } else {
            done
        }
    }

    /// One more digit of the number under way.
    pub open spec fn digit(self, d: nat) -> Scan {
        let v: int = match self.number {
            Some(v) => v * 10 + d,
            None => d as int,
        };
        if v <= u64::MAX {
            Scan { number: Some(v as u64), ..self }
        } else {
            Scan { valid: false, ..self }
        }
    }

    /// One more byte.
    pub open spec fn byte(self, b: u8) -> Scan {
        if is_digit(b) {
            self.digit((b - 48) as nat)
        } else if is_blank(b) {
            self.end_number()
        } else if b == 10 {
            self.end_line()
        } else {
            Scan { valid: false, ..self }
        }
    }

    /// All the bytes of `text`, one after the other.
    pub open spec fn bytes(self, text: Seq<u8>) -> Scan
        decreases text.len(),
    {
        if text.len() == 0 {
            self
        } else {
            self.bytes(text.drop_last()).byte(text.last())
        }
    }
}

/// The numbers of `text`, line by line, when `text` holds nothing but
/// numbers that fit 64 bits, blanks and newlines.
pub open spec fn table(text: Seq<u8>) -> Option<Seq<Seq<u64>>> {
    let scan = Scan::start().bytes(text).end_line();
    if scan.valid {
        Some(scan.rows)
    } else {
        None
    }
}

/// The rows of a table held in vectors.
pub open spec fn rows_of(lines: Seq<Vec<u64>>) -> Seq<Seq<u64>> {
    Seq::new(lines.len(), |i: int| lines[i]@)
}

/// Once a byte was refused, the text stays refused.
proof fn lemma_refused_stays(scan: Scan, text: Seq<u8>)
    requires
        !scan.valid,
    ensures
        !scan.bytes(text).valid,
        !scan.bytes(text).end_line().valid,
    decreases text.len(),
{
    if text.len() > 0 {
        lemma_refused_stays(scan, text.drop_last());
    }
}

/// Reading a text in two parts is reading it whole.
pub proof fn lemma_bytes_concat(scan: Scan, a: Seq<u8>, b: Seq<u8>)
    ensures
        scan.bytes(a + b) == scan.bytes(a).bytes(b),
    decreases b.len(),
{
    if b.len() == 0 {
        assert(a + b =~= a);
    } else {
        lemma_bytes_concat(scan, a, b.drop_last());
        assert((a + b).drop_last() =~= a + b.drop_last());
    }
}

/// Reads `text` as lines of numbers.
pub fn read_table(text: &[u8]) -> (r: Option<Vec<Vec<u64>>>)
    ensures
        r is Some == table(text@) is Some,
        r matches Some(lines) ==> table(text@) == Some(rows_of(lines@)),
{
    let mut lines: Vec<Vec<u64>> = Vec::new();
    let mut row: Vec<u64> = Vec::new();
    let mut number: Option<u64> = None;
    let len = text.len();
    let mut i: usize = 0;
    assert(text@.take(0) =~= Seq::<u8>::empty());
    assert(rows_of(lines@) =~= Seq::<Seq<u64>>::empty());
    while i < len
        invariant
            i <= len,
            len == text@.len(),
            Scan::start().bytes(text@.take(i as int)) == (Scan {
                rows: rows_of(lines@),
                row: row@,
                number,
                valid: true,
            }),
        decreases len - i,
    {
        let b = text[i];
        let ghost before = Scan::start().bytes(text@.take(i as int));
        proof {
            assert(text@.take(i + 1).drop_last() =~= text@.take(i as int));
            assert(text@.take(i + 1).last() == b);
            assert(Scan::start().bytes(text@.take(i + 1)) == before.byte(b));
        }
        let mut refused = false;
        if 48 <= b && b <= 57 {
            let d = (b - 48) as u64;
            let next = match number {
                Some(v) => match v.checked_mul(10) {
                    Some(w) => w.checked_add(d),
                    None => None,
                },
                None => Some(d),
            };
            match next {
                Some(v) => {
                    number = Some(v);
                },
                None => {
                    refused = true;
                },
            }
        } else if b == 32 || b == 9 || b == 13 || b == 11 || b == 12 {
            if let Some(v) = number {
                row.push(v);
                number = None;
            }
        } else if b == 10 {
            if let Some(v) = number {
                row.push(v);
                number = None;
            }
            if row.len() > 0 {
                let ghost old_lines = lines@;
                lines.push(row);
                row = Vec::new();
                assert(rows_of(lines@) =~= rows_of(old_lines).push(lines@.last()@));
            }
        } else {
            refused = true;
        }
        if refused {
            proof {
                assert(!before.byte(b).valid);
                lemma_refused_stays(before.byte(b), text@.skip(i + 1));
                lemma_bytes_concat(Scan::start(), text@.take(i + 1), text@.skip(i + 1));
                assert(text@.take(i + 1) + text@.skip(i + 1) =~= text@);
            }
            return None;
        }
        i += 1;
    }
    assert(text@.take(len as int) =~= text@);
    if let Some(v) = number {
        row.push(v);
    }
    if row.len() > 0 {
        let ghost old_lines = lines@;
        lines.push(row);
        assert(rows_of(lines@) =~= rows_of(old_lines).push(lines@.last()@));
    }
    Some(lines)
}

/// Whether `row` holds `width` numbers, none above `u32::MAX`.
pub open spec fn row_fits(row: Seq<u64>, width: nat) -> bool {
    &&& row.len() == width
    &&& forall|j: int| 0 <= j < width ==> #[trigger] row[j] <= u32::MAX
}

/// Whether each of `rows` holds `width` numbers, none above `u32::MAX`.
pub open spec fn block_fits(rows: Seq<Seq<u64>>, width: nat) -> bool {
    forall|i: int| 0 <= i < rows.len() ==> row_fits(#[trigger] rows[i], width)
}

/// The numbers of `rows`, `width` per row, in one sequence.
pub open spec fn block(rows: Seq<Seq<u64>>, width: nat) -> Seq<u32> {
    Seq::new(rows.len() * width, |k: int| rows[k / (width as int)][k % (width as int)] as u32)
}

/// The instance that a table gives: a header row with the size `n` and the
/// number `t` of catalog entries, then `n` rows of `n` cells for the initial
/// grid, `n` rows of `n` cells for the target grid, and `t` rows of four
/// numbers, and nothing else.
pub open spec fn instance_of(rows: Seq<Seq<u64>>) -> Option<InstanceData> {
    if rows.len() >= 1 && rows[0].len() == 2 {
        let n = rows[0][0] as int;
        let t = rows[0][1] as int;
        let initial = rows.subrange(1, 1 + n);
        let target = rows.subrange(1 + n, 1 + 2 * n);
        let catalog = rows.subrange(1 + 2 * n, 1 + 2 * n + t);
        if rows.len() == 1 + 2 * n + t && block_fits(initial, n as nat) && block_fits(
            target,
            n as nat,
        ) && block_fits(catalog, 4) {
            Some(
                InstanceData {
                    n: n as nat,
                    initial: block(initial, n as nat),
                    target: block(target, n as nat),
                    catalog: block(catalog, 4),
                },
            )
        } else {
            None
        }
    } else {
        None
    }
}

/// The steps that a table gives, three numbers per step: a header row with
/// the number `k` of steps, then `k` rows of three numbers, and nothing
/// else.
pub open spec fn steps_of(rows: Seq<Seq<u64>>) -> Option<Seq<u32>> {
    if rows.len() >= 1 && rows[0].len() == 1 && rows.len() == 1 + rows[0][0] && block_fits(
        rows.subrange(1, rows.len() as int),
        3,
    ) {
        Some(block(rows.subrange(1, rows.len() as int), 3))
    } else {
        None
    }
}

/// The instance that a text gives.
pub open spec fn parsed_instance(text: Seq<u8>) -> Option<InstanceData> {
    match table(text) {
        Some(rows) => instance_of(rows),
        None => None,
    }
}

/// The steps that a text gives.
pub open spec fn parsed_steps(text: Seq<u8>) -> Option<Seq<u32>> {
    match table(text) {
        Some(rows) => steps_of(rows),
        None => None,
    }
}

/// Gathers the `count` rows from row `first` on into one vector, if each
/// holds `width` numbers that fit 32 bits.
fn read_block(lines: &Vec<Vec<u64>>, first: usize, count: usize, width: usize) -> (r: Option<
    Vec<u32>,
>)
    requires
        first + count <= lines@.len(),
    ensures
        r is Some == block_fits(rows_of(lines@).subrange(first as int, first + count), width as nat),
        r matches Some(v) ==> v@ == block(
            rows_of(lines@).subrange(first as int, first + count),
            width as nat,
        ),
{
    let ghost rows = rows_of(lines@).subrange(first as int, first + count);
    let total = lines.len();
    let mut out: Vec<u32> = Vec::new();
    let mut i: usize = 0;
    while i < count
        invariant
            i <= count,
            total == lines@.len(),
            first + count <= total,
            rows == rows_of(lines@).subrange(first as int, first + count),
            forall|u: int| 0 <= u < i ==> row_fits(#[trigger] rows[u], width as nat),
            out@.len() == i * width,
            forall|k: int|
                0 <= k < out@.len() ==> out@[k] == rows[k / (width as int)][k % (
                width as int)] as u32,
        decreases count - i,
    {
        let line = &lines[first + i];
        assert(line@ == rows[i as int]);
        if line.len() != width {
            assert(!row_fits(rows[i as int], width as nat));
            return None;
        }
        let ghost base = out@.len();
        let mut j: usize = 0;
        while j < width
            invariant
                j <= width,
                i < count,
                count == rows.len(),
                rows == rows_of(lines@).subrange(first as int, first + count),
                line@ == rows[i as int],
                line@.len() == width,
                base == i * width,
                out@.len() == base + j,
                forall|c: int| 0 <= c < j ==> #[trigger] line@[c] <= u32::MAX,
                forall|k: int|
                    0 <= k < out@.len() ==> out@[k] == rows[k / (width as int)][k % (
                    width as int)] as u32,
            decreases width - j,
        {
            let v = line[j];
            if v > u32::MAX as u64 {
                assert(!(rows[i as int][j as int] <= u32::MAX));
                assert(!row_fits(rows[i as int], width as nat));
                return None;
            }
            proof {
                lemma_cell_of(width as int, i as int, j as int);
            }
            out.push(v as u32);
            j += 1;
        }
        proof {
            assert((i + 1) * width == i * width + width) by (nonlinear_arith);
        }
        i += 1;
    }
    assert(out@ =~= block(rows, width as nat));
    Some(out)
}

/// The instance that the lines of a text give.
pub fn instance_from_table(lines: &Vec<Vec<u64>>) -> (r: Result<Instance, MalformedInput>)
    ensures
        r matches Ok(instance) ==> instance_of(rows_of(lines@)) == Some(instance@),
        r is Err ==> instance_of(rows_of(lines@)) is None,
{
    let ghost rows = rows_of(lines@);
    let total = lines.len();
    if total == 0 {
        return Err(MalformedInput);
    }
    assert(lines[0]@ == rows[0]);
    if lines[0].len() != 2 {
        return Err(MalformedInput);
    }
    let n64 = lines[0][0];
    let t64 = lines[0][1];
    if n64 >= total as u64 || t64 >= total as u64 {
        return Err(MalformedInput);
    }
    let n = n64 as usize;
    let t = t64 as usize;
    let rest = total - 1 - t;
    if rest % 2 != 0 || rest / 2 != n {
        return Err(MalformedInput);
    }
    let initial = match read_block(lines, 1, n, n) {
        Some(v) => v,
        None => {
            return Err(MalformedInput);
        },
    };
    let target = match read_block(lines, 1 + n, n, n) {
        Some(v) => v,
        None => {
            return Err(MalformedInput);
        },
    };
    let operations = match read_block(lines, 1 + 2 * n, t, 4) {
        Some(v) => v,
        None => {
            return Err(MalformedInput);
        },
    };
    Ok(Instance { n, initial, target, operations })
}

/// The steps that the lines of a text give.
pub fn steps_from_table(lines: &Vec<Vec<u64>>) -> (r: Result<Vec<u32>, MalformedInput>)
    ensures
        r matches Ok(steps) ==> steps_of(rows_of(lines@)) == Some(steps@),
        r is Err ==> steps_of(rows_of(lines@)) is None,
{
    let ghost rows = rows_of(lines@);
    let total = lines.len();
    if total == 0 {
        return Err(MalformedInput);
    }
    assert(lines[0]@ == rows[0]);
    if lines[0].len() != 1 {
        return Err(MalformedInput);
    }
    let k64 = lines[0][0];
    if k64 != (total - 1) as u64 {
        return Err(MalformedInput);
    }
    match read_block(lines, 1, total - 1, 3) {
        Some(steps) => Ok(steps),
        None => Err(MalformedInput),
    }
}

/// Reads the text of an instance: a header line with the size `n` and the
/// number `t` of catalog entries, `n` lines of `n` cells for the initial
/// grid, `n` lines of `n` cells for the target grid, and `t` lines of four
/// numbers. Any other text is refused.
pub fn parse_instance(text: &str) -> (r: Result<Instance, MalformedInput>)
    ensures
        r matches Ok(instance) ==> parsed_instance(text.spec_bytes()) == Some(instance@),
        r is Err ==> parsed_instance(text.spec_bytes()) is None,
{
    match read_table(text.as_bytes()) {
        Some(lines) => instance_from_table(&lines),
        None => Err(MalformedInput),
    }
}

/// Reads a solver's answer: a line with the number `k` of steps, then `k`
/// lines of three numbers, the catalog entry, the row and the column of a
/// step. Returns the steps, three numbers per step; any other text is
/// refused.
pub fn parse_output(text: &str) -> (r: Result<Vec<u32>, MalformedInput>)
    ensures
        r matches Ok(steps) ==> parsed_steps(text.spec_bytes()) == Some(steps@),
        r is Err ==> parsed_steps(text.spec_bytes()) is None,
{
    match read_table(text.as_bytes()) {
        Some(lines) => steps_from_table(&lines),
        None => Err(MalformedInput),
    }
}

} // verus!
