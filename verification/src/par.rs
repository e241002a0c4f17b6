use crate::mesh::Mesh3;
use crate::record::{spec_parse, ParseError, Record};
use vstd::prelude::*;

verus! {

/// Records are sorted by cell when every record's cell comes before the
/// cells of all records after it; no cell then occurs twice.
pub open spec fn sorted_by_cell(table: Seq<Record>) -> bool {
    forall|i: int, j: int|
        0 <= i < j < table.len() ==> table[i].spec_mesh().spec_lt(table[j].spec_mesh())
}

/// The bytes of each line.
pub open spec fn text(lines: Seq<Vec<u8>>) -> Seq<Seq<u8>> {
    lines.map_values(|line: Vec<u8>| line@)
}

/// Whether one of the first `n` lines writes the record.
pub open spec fn read_before(lines: Seq<Seq<u8>>, n: int, record: Record) -> bool {
    exists|j: int| 0 <= j < n && #[trigger] spec_parse(lines[j]) == Ok::<Record, ParseError>(record)
}

/// Whether one of the first `n` lines writes another shift for the cell of
/// the record.
pub open spec fn contradicted_before(lines: Seq<Seq<u8>>, n: int, record: Record) -> bool {
    exists|j: int|
        0 <= j < n && (#[trigger] spec_parse(lines[j]) matches Ok(other) && other.spec_mesh()
            == record.spec_mesh() && other != record)
}

/// What keeps a line out of a table.
#[derive(Debug, Clone, Copy, PartialEq, Eq, Structural)]
pub enum Fault {
    /// The line is no record.
    Malformed(ParseError),
    /// An earlier line gives the same cell another shift.
    Conflict,
}

/// The first line that cannot go into the table, counted from 0, and why.
#[derive(Debug, Clone, Copy, PartialEq, Eq, Structural)]
pub struct CompileError {
    pub line: usize,
    pub fault: Fault,
}

/// What is wrong with line `i`, if anything: it is no record, or it
/// contradicts a line before it.
pub open spec fn fault_at(lines: Seq<Seq<u8>>, i: int) -> Option<Fault> {
    match spec_parse(lines[i]) {
        Err(e) => Some(Fault::Malformed(e)),
        Ok(record) => if contradicted_before(lines, i, record) {
            Some(Fault::Conflict)
        } else {
            None
        },
    }
}

/// Whether every line can go into a table.
pub open spec fn compiles(lines: Seq<Seq<u8>>) -> bool {
    forall|i: int| 0 <= i < lines.len() ==> fault_at(lines, i) is None
}

/// Whether line `i` is the first that cannot go into a table.
pub open spec fn is_first_fault(lines: Seq<Seq<u8>>, i: int) -> bool {
    &&& 0 <= i < lines.len()
    &&& fault_at(lines, i) is Some
    &&& forall|j: int| 0 <= j < i ==> fault_at(lines, j) is None
}

/// Whether `table` is the table of the lines: their records, each once,
/// sorted by cell.
pub open spec fn is_table_of(table: Seq<Record>, lines: Seq<Seq<u8>>) -> bool {
    &&& sorted_by_cell(table)
    &&& forall|record: Record| #[trigger]
        table.contains(record) <==> read_before(lines, lines.len() as int, record)
}

/// Where a record with the cell `mesh` belongs in a sorted table: the index
/// of the first record whose cell is not before it.
fn lower_bound(table: &Vec<Record>, mesh: Mesh3) -> (pos: usize)
    requires
        sorted_by_cell(table@),
    ensures
        pos <= table@.len(),
        forall|i: int| 0 <= i < pos ==> table@[i].spec_mesh().spec_lt(mesh),
        forall|i: int| pos <= i < table@.len() ==> !table@[i].spec_mesh().spec_lt(mesh),
{
    let n = table.len();
    if n == 0 || table[n - 1].mesh().lt(mesh) {
        assert forall|i: int| 0 <= i < n implies table@[i].spec_mesh().spec_lt(mesh) by {
            if i < n - 1 {
                assert(table@[i].spec_mesh().spec_lt(table@[n - 1].spec_mesh()));
            }
        }
        return n;
    }
    let mut lo: usize = 0;
    let mut hi: usize = n;
    while lo < hi
        invariant
            lo <= hi <= n,
            n == table@.len(),
            sorted_by_cell(table@),
            forall|i: int| 0 <= i < lo ==> table@[i].spec_mesh().spec_lt(mesh),
            forall|i: int| hi <= i < n ==> !table@[i].spec_mesh().spec_lt(mesh),
        decreases hi - lo,
    {
        let mid = lo + (hi - lo) / 2;
        if table[mid].mesh().lt(mesh) {
            assert forall|i: int| 0 <= i < mid + 1 implies table@[i].spec_mesh().spec_lt(mesh) by {
                if i < mid {
                    assert(table@[i].spec_mesh().spec_lt(table@[mid as int].spec_mesh()));
                }
            }
            lo = mid + 1;
        } else {
            assert forall|i: int| mid <= i < n implies !table@[i].spec_mesh().spec_lt(mesh) by {
                if mid < i {
                    assert(table@[mid as int].spec_mesh().spec_lt(table@[i].spec_mesh()));
                }
            }
            hi = mid;
        }
    }
    lo
}

/// Whether the table gives the cell of the record another shift.
pub open spec fn holds_other(table: Seq<Record>, record: Record) -> bool {
    exists|k: int|
        0 <= k < table.len() && (#[trigger] table[k]).spec_mesh() == record.spec_mesh() && table[k]
            != record
}

/// Puts a record where it belongs in a table sorted by cell, unless the
/// table holds it already. A record whose cell the table holds with another
/// shift is not accepted, and the table stays as it is.
pub fn insert(table: &mut Vec<Record>, record: Record) -> (accepted: bool)
    requires
        sorted_by_cell(old(table)@),
    ensures
        sorted_by_cell(final(table)@),
        accepted <==> !holds_other(old(table)@, record),
        accepted ==> forall|r: Record| #[trigger]
            final(table)@.contains(r) <==> old(table)@.contains(r) || r == record,
        !accepted ==> final(table)@ == old(table)@,
{
    let ghost before = table@;
    let pos = lower_bound(table, record.mesh());
    if pos < table.len() && table[pos].mesh() == record.mesh() {
        let other = table[pos];
        if other != record {
            return false;
        }
        assert(before.contains(record));
        assert(!holds_other(before, record)) by {
            if holds_other(before, record) {
                let k = choose|k: int|
                    0 <= k < before.len() && (#[trigger] before[k]).spec_mesh()
                        == record.spec_mesh() && before[k] != record;
                if k < pos {
                    assert(before[k].spec_mesh().spec_lt(before[pos as int].spec_mesh()));
                } else if pos < k {
                    assert(before[pos as int].spec_mesh().spec_lt(before[k].spec_mesh()));
                }
            }
        }
    } else {
        proof {
            lemma_new_cell(before, record, pos as int);
        }
        table.insert(pos, record);
        proof {
            lemma_insert(before, record, pos as int);
        }
    }
    true
}

/// Compiles the lines of a parameter file into a table: reads a record from
/// each line, drops the records that occur again, and sorts them by cell,
/// in whatever order the lines come. Stops at the first line that is no
/// record, or that gives a cell another shift than a line before it.
pub fn compile(lines: &[Vec<u8>]) -> (r: Result<Vec<Record>, CompileError>)
    ensures
        r is Ok <==> compiles(text(lines@)),
        r matches Ok(table) ==> is_table_of(table@, text(lines@)),
        r matches Err(e) ==> is_first_fault(text(lines@), e.line as int) && fault_at(
            text(lines@),
            e.line as int,
        ) == Some(e.fault),
{
    let ghost source = text(lines@);
    let mut table: Vec<Record> = Vec::new();
    let mut i: usize = 0;
    while i < lines.len()
        invariant
            i <= lines@.len(),
            source == text(lines@),
            sorted_by_cell(table@),
            forall|record: Record| #[trigger]
                table@.contains(record) <==> read_before(source, i as int, record),
            forall|j: int| 0 <= j < i ==> fault_at(source, j) is None,
        decreases lines@.len() - i,
    {
        assert(source[i as int] == lines@[i as int]@);
        let record = match Record::parse(lines[i].as_slice()) {
            Ok(record) => record,
            Err(e) => {
                return Err(CompileError { line: i, fault: Fault::Malformed(e) });
            },
        };
        let ghost before = table@;
        proof {
            lemma_contradiction(before, source, i as int, record);
        }
        if !insert(&mut table, record) {
            return Err(CompileError { line: i, fault: Fault::Conflict });
        }
        proof {
            lemma_one_more_line(before, table@, source, i as int, record);
        }
        i += 1;
    }
    Ok(table)
}

/// A sorted table with a record put in where its cell belongs.
proof fn lemma_insert(table: Seq<Record>, record: Record, pos: int)
    requires
        sorted_by_cell(table),
        0 <= pos <= table.len(),
        forall|i: int| 0 <= i < pos ==> table[i].spec_mesh().spec_lt(record.spec_mesh()),
        forall|i: int| pos <= i < table.len() ==> record.spec_mesh().spec_lt(table[i].spec_mesh()),
    ensures
        sorted_by_cell(table.insert(pos, record)),
        forall|r: Record| #[trigger]
            table.insert(pos, record).contains(r) <==> table.contains(r) || r == record,
{
    let longer = table.insert(pos, record);
    assert forall|r: Record| #[trigger] longer.contains(r) <==> table.contains(r) || r
        == record by {
        if table.contains(r) {
            let k = choose|k: int| 0 <= k < table.len() && table[k] == r;
            if k < pos {
                assert(longer[k] == r);
            } else {
                assert(longer[k + 1] == r);
            }
        }
        if r == record {
            assert(longer[pos] == r);
        }
        if longer.contains(r) {
            let k = choose|k: int| 0 <= k < longer.len() && longer[k] == r;
            if k < pos {
                assert(table[k] == r);
            } else if k > pos {
                assert(table[k - 1] == r);
            }
        }
    }
}

/// Where the table does not hold the cell of a record, the cells from the
/// record's place on come after it, and the table does not hold the cell
/// with another shift.
proof fn lemma_new_cell(table: Seq<Record>, record: Record, pos: int)
    requires
        sorted_by_cell(table),
        0 <= pos <= table.len(),
        forall|k: int| 0 <= k < pos ==> table[k].spec_mesh().spec_lt(record.spec_mesh()),
        forall|k: int| pos <= k < table.len() ==> !table[k].spec_mesh().spec_lt(record.spec_mesh()),
        !(pos < table.len() && table[pos].spec_mesh() == record.spec_mesh()),
    ensures
        !holds_other(table, record),
        forall|k: int| pos <= k < table.len() ==> record.spec_mesh().spec_lt(table[k].spec_mesh()),
{
    assert forall|k: int| pos <= k < table.len() implies record.spec_mesh().spec_lt(
        table[k].spec_mesh(),
    ) by {
        if pos < k {
            assert(table[pos].spec_mesh().spec_lt(table[k].spec_mesh()));
        }
    }
    if holds_other(table, record) {
        let k = choose|k: int|
            0 <= k < table.len() && (#[trigger] table[k]).spec_mesh() == record.spec_mesh()
                && table[k] != record;
        if k < pos {
            assert(table[k].spec_mesh().spec_lt(record.spec_mesh()));
        } else {
            assert(record.spec_mesh().spec_lt(table[k].spec_mesh()));
        }
    }
}

/// A table of the lines before line `i` holds the cell of that line's
/// record with another shift exactly when one of those lines contradicts it.
proof fn lemma_contradiction(table: Seq<Record>, lines: Seq<Seq<u8>>, i: int, record: Record)
    requires
        0 <= i < lines.len(),
        forall|r: Record| #[trigger] table.contains(r) <==> read_before(lines, i, r),
        spec_parse(lines[i]) == Ok::<Record, ParseError>(record),
    ensures
        holds_other(table, record) <==> contradicted_before(lines, i, record),
        fault_at(lines, i) == if holds_other(table, record) {
            Some(Fault::Conflict)
        } else {
            None
        },
{
    if holds_other(table, record) {
        let k = choose|k: int|
            0 <= k < table.len() && (#[trigger] table[k]).spec_mesh() == record.spec_mesh()
                && table[k] != record;
        assert(table.contains(table[k]));
        let j = choose|j: int|
            0 <= j < i && #[trigger] spec_parse(lines[j]) == Ok::<Record, ParseError>(table[k]);
        assert(contradicted_before(lines, i, record));
    }
    if contradicted_before(lines, i, record) {
        let j = choose|j: int|
            0 <= j < i && (#[trigger] spec_parse(lines[j]) matches Ok(other) && other.spec_mesh()
                == record.spec_mesh() && other != record);
        let other = spec_parse(lines[j])->Ok_0;
        assert(read_before(lines, i, other));
        assert(table.contains(other));
        let k = choose|k: int| 0 <= k < table.len() && table[k] == other;
        assert(holds_other(table, record));
    }
}

/// A table of the lines before line `i`, with the record of that line put
/// in, is a table of the lines up to it.
proof fn lemma_one_more_line(
    before: Seq<Record>,
    after: Seq<Record>,
    lines: Seq<Seq<u8>>,
    i: int,
    record: Record,
)
    requires
        0 <= i < lines.len(),
        forall|r: Record| #[trigger] before.contains(r) <==> read_before(lines, i, r),
        forall|r: Record| #[trigger] after.contains(r) <==> before.contains(r) || r == record,
        spec_parse(lines[i]) == Ok::<Record, ParseError>(record),
    ensures
        forall|r: Record| #[trigger] after.contains(r) <==> read_before(lines, i + 1, r),
{
    assert forall|r: Record| #[trigger] after.contains(r) <==> read_before(lines, i + 1, r) by {
        if read_before(lines, i + 1, r) {
            let j = choose|j: int|
                0 <= j < i + 1 && #[trigger] spec_parse(lines[j]) == Ok::<Record, ParseError>(r);
            if j < i {
                assert(read_before(lines, i, r));
            }
        }
        if after.contains(r) {
            if r != record {
                assert(before.contains(r));
                assert(read_before(lines, i, r));
                let j = choose|j: int|
                    0 <= j < i && #[trigger] spec_parse(lines[j]) == Ok::<Record, ParseError>(r);
                assert(0 <= j < i + 1);
            }
        }
    }
}


/// Whether every line is a record, and no two lines give one cell two
/// shifts.
pub open spec fn consistent(lines: Seq<Seq<u8>>) -> bool {
    &&& forall|i: int| 0 <= i < lines.len() ==> #[trigger] spec_parse(lines[i]) is Ok
    &&& forall|i: int, j: int|
        0 <= i < lines.len() && 0 <= j < lines.len() && (#[trigger] spec_parse(
            lines[i],
        ))->Ok_0.spec_mesh() == (#[trigger] spec_parse(lines[j]))->Ok_0.spec_mesh() ==> spec_parse(
            lines[i],
        ) == spec_parse(lines[j])
}

/// Lines compile exactly when each of them is a record and no two of them
/// give one cell two shifts.
pub proof fn law_compiles_when_consistent(lines: Seq<Seq<u8>>)
    ensures
        compiles(lines) <==> consistent(lines),
{
    if compiles(lines) {
        assert forall|i: int| 0 <= i < lines.len() implies #[trigger] spec_parse(
            lines[i],
        ) is Ok by {
            assert(fault_at(lines, i) is None);
        }
        assert forall|i: int, j: int|
            0 <= i < lines.len() && 0 <= j < lines.len() && (#[trigger] spec_parse(
                lines[i],
            ))->Ok_0.spec_mesh() == (#[trigger] spec_parse(
                lines[j],
            ))->Ok_0.spec_mesh() implies spec_parse(lines[i]) == spec_parse(lines[j]) by {
            assert(fault_at(lines, i) is None);
            assert(fault_at(lines, j) is None);
            let (a, b) = (spec_parse(lines[i])->Ok_0, spec_parse(lines[j])->Ok_0);
            if i < j && a != b {
                assert(contradicted_before(lines, j, b));
            }
            if j < i && a != b {
                assert(contradicted_before(lines, i, a));
            }
        }
    }
    if consistent(lines) {
        assert forall|i: int| 0 <= i < lines.len() implies fault_at(lines, i) is None by {
            assert(spec_parse(lines[i]) is Ok);
            let record = spec_parse(lines[i])->Ok_0;
            if contradicted_before(lines, i, record) {
                let j = choose|j: int|
                    0 <= j < i && (#[trigger] spec_parse(lines[j]) matches Ok(other)
                        && other.spec_mesh() == record.spec_mesh() && other != record);
                assert(spec_parse(lines[i]) == spec_parse(lines[j]));
            }
        }
    }
}

/// Two lines that give one cell two shifts do not compile.
pub proof fn law_conflict_fails(lines: Seq<Seq<u8>>, i: int, j: int)
    requires
        0 <= i < lines.len(),
        0 <= j < lines.len(),
        spec_parse(lines[i]) matches Ok(a) && spec_parse(lines[j]) matches Ok(b) && a.spec_mesh()
            == b.spec_mesh() && a != b,
    ensures
        !compiles(lines),
{
    law_compiles_when_consistent(lines);
}

/// A table holds the record of each line once, however often the line
/// occurs, and holds no other record for its cell.
pub proof fn law_one_point_per_cell(table: Seq<Record>, lines: Seq<Seq<u8>>, i: int)
    requires
        is_table_of(table, lines),
        0 <= i < lines.len(),
        spec_parse(lines[i]) is Ok,
    ensures
        exists|k: int|
            0 <= k < table.len() && #[trigger] table[k] == spec_parse(lines[i])->Ok_0 && forall|
                m: int,
            |
                0 <= m < table.len() && (#[trigger] table[m]).spec_mesh() == table[k].spec_mesh()
                    ==> m == k,
{
    let record = spec_parse(lines[i])->Ok_0;
    assert(read_before(lines, lines.len() as int, record));
    assert(table.contains(record));
    let k = choose|k: int| 0 <= k < table.len() && table[k] == record;
    assert forall|m: int|
        0 <= m < table.len() && (#[trigger] table[m]).spec_mesh()
            == table[k].spec_mesh() implies m == k by {
        if m < k {
            assert(table[m].spec_mesh().spec_lt(table[k].spec_mesh()));
        } else if k < m {
            assert(table[k].spec_mesh().spec_lt(table[m].spec_mesh()));
        }
    }
}

/// A line that occurs again changes neither whether the lines compile nor
/// their table.
pub proof fn law_repeated_line(table: Seq<Record>, lines: Seq<Seq<u8>>, i: int)
    requires
        0 <= i < lines.len(),
    ensures
        compiles(lines) <==> compiles(lines.push(lines[i])),
        is_table_of(table, lines) <==> is_table_of(table, lines.push(lines[i])),
{
    let longer = lines.push(lines[i]);
    let n = lines.len() as int;
    assert forall|j: int| 0 <= j <= n implies #[trigger] longer[j] == lines[if j < n {
        j
    } else {
        i
    }] by {}
    law_compiles_when_consistent(lines);
    law_compiles_when_consistent(longer);
    if consistent(lines) {
        assert forall|a: int| 0 <= a < longer.len() implies #[trigger] spec_parse(
            longer[a],
        ) is Ok by {
            let a0 = if a < n {
                a
            } else {
                i
            };
            assert(spec_parse(lines[a0]) is Ok);
        }
        assert forall|a: int, b: int|
            0 <= a < longer.len() && 0 <= b < longer.len() && (#[trigger] spec_parse(
                longer[a],
            ))->Ok_0.spec_mesh() == (#[trigger] spec_parse(
                longer[b],
            ))->Ok_0.spec_mesh() implies spec_parse(longer[a]) == spec_parse(longer[b]) by {
            let a0 = if a < n {
                a
            } else {
                i
            };
            let b0 = if b < n {
                b
            } else {
                i
            };
            assert(spec_parse(lines[a0]) == spec_parse(lines[b0]));
        }
    }
    if consistent(longer) {
        assert forall|a: int| 0 <= a < lines.len() implies #[trigger] spec_parse(
            lines[a],
        ) is Ok by {
            assert(spec_parse(longer[a]) is Ok);
        }
        assert forall|a: int, b: int|
            0 <= a < lines.len() && 0 <= b < lines.len() && (#[trigger] spec_parse(
                lines[a],
            ))->Ok_0.spec_mesh() == (#[trigger] spec_parse(
                lines[b],
            ))->Ok_0.spec_mesh() implies spec_parse(lines[a]) == spec_parse(lines[b]) by {
            assert(spec_parse(longer[a]) == spec_parse(longer[b]));
        }
    }
    assert forall|record: Record|
        read_before(lines, n, record) <==> read_before(longer, n + 1, record) by {
        if read_before(lines, n, record) {
            let j = choose|j: int|
                0 <= j < n && #[trigger] spec_parse(lines[j]) == Ok::<Record, ParseError>(record);
            assert(spec_parse(longer[j]) == Ok::<Record, ParseError>(record));
        }
        if read_before(longer, n + 1, record) {
            let j = choose|j: int|
                0 <= j < n + 1 && #[trigger] spec_parse(longer[j]) == Ok::<Record, ParseError>(
                    record,
                );
            let j0 = if j < n {
                j
            } else {
                i
            };
            assert(spec_parse(lines[j0]) == Ok::<Record, ParseError>(record));
        }
    }
}

/// In a table every point's cell comes before the cell of the next point:
/// no cell twice, none out of order.
pub proof fn law_adjacent_cells_ascend(table: Seq<Record>, lines: Seq<Seq<u8>>, i: int)
    requires
        is_table_of(table, lines),
        0 <= i,
        i + 1 < table.len(),
    ensures
        table[i].spec_mesh().spec_lt(table[i + 1].spec_mesh()),
{
}

/// Records sorted by cell are known by what they hold: two such tables with
/// the same records are one table.
pub proof fn law_sorted_table_is_unique(a: Seq<Record>, b: Seq<Record>)
    requires
        sorted_by_cell(a),
        sorted_by_cell(b),
        forall|r: Record| a.contains(r) <==> b.contains(r),
    ensures
        a == b,
    decreases a.len(),
{
    if a.len() == 0 {
        if b.len() > 0 {
            assert(b.contains(b[0]));
        }
        assert(a =~= b);
    } else {
        let x = a.last();
        assert(a.contains(x));
        assert(b.contains(x));
        let k = choose|k: int| 0 <= k < b.len() && b[k] == x;
        let y = b.last();
        assert(b.contains(y));
        assert(a.contains(y));
        let m = choose|m: int| 0 <= m < a.len() && a[m] == y;
        if m < a.len() - 1 {
            assert(a[m].spec_mesh().spec_lt(a[a.len() - 1].spec_mesh()));
        }
        if k < b.len() - 1 {
            assert(b[k].spec_mesh().spec_lt(b[b.len() - 1].spec_mesh()));
        }
        assert(x == y);
        let (a0, b0) = (a.drop_last(), b.drop_last());
        assert forall|r: Record| a0.contains(r) <==> b0.contains(r) by {
            if a0.contains(r) {
                let i = choose|i: int| 0 <= i < a0.len() && a0[i] == r;
                assert(a[i] == r);
                assert(a[i].spec_mesh().spec_lt(a[a.len() - 1].spec_mesh()));
                assert(a.contains(r));
                assert(b.contains(r));
                let j = choose|j: int| 0 <= j < b.len() && b[j] == r;
                assert(b0[j] == r);
            }
            if b0.contains(r) {
                let i = choose|i: int| 0 <= i < b0.len() && b0[i] == r;
                assert(b[i] == r);
                assert(b[i].spec_mesh().spec_lt(b[b.len() - 1].spec_mesh()));
                assert(b.contains(r));
                assert(a.contains(r));
                let j = choose|j: int| 0 <= j < a.len() && a[j] == r;
                assert(a0[j] == r);
            }
        }
        law_sorted_table_is_unique(a0, b0);
        assert(a =~= a0.push(x));
        assert(b =~= b0.push(y));
    }
}

/// Lines in another order are the same lines.
proof fn lemma_same_lines(first: Seq<Seq<u8>>, second: Seq<Seq<u8>>, line: Seq<u8>)
    requires
        first.to_multiset() == second.to_multiset(),
        first.contains(line),
    ensures
        second.contains(line),
{
    first.to_multiset_ensures();
    second.to_multiset_ensures();
    assert(first.to_multiset().count(line) > 0);
    assert(second.to_multiset().count(line) > 0);
}

/// A table of lines holds the records of the same lines in another order.
proof fn lemma_reordered(a: Seq<Record>, first: Seq<Seq<u8>>, second: Seq<Seq<u8>>, r: Record)
    requires
        first.to_multiset() == second.to_multiset(),
        is_table_of(a, first),
        a.contains(r),
    ensures
        read_before(second, second.len() as int, r),
{
    assert(read_before(first, first.len() as int, r));
    let j = choose|j: int|
        0 <= j < first.len() && #[trigger] spec_parse(first[j]) == Ok::<Record, ParseError>(r);
    assert(first.contains(first[j]));
    lemma_same_lines(first, second, first[j]);
    let k = choose|k: int| 0 <= k < second.len() && second[k] == first[j];
    assert(spec_parse(second[k]) == Ok::<Record, ParseError>(r));
}

/// The table does not depend on the order of the lines: the same lines in
/// another order have the same table.
pub proof fn law_order_is_immaterial(
    a: Seq<Record>,
    b: Seq<Record>,
    first: Seq<Seq<u8>>,
    second: Seq<Seq<u8>>,
)
    requires
        first.to_multiset() == second.to_multiset(),
        is_table_of(a, first),
        is_table_of(b, second),
    ensures
        a == b,
{
    assert forall|r: Record| a.contains(r) <==> b.contains(r) by {
        if a.contains(r) {
            lemma_reordered(a, first, second, r);
        }
        if b.contains(r) {
            lemma_reordered(b, second, first, r);
        }
    }
    law_sorted_table_is_unique(a, b);
}


/// The same lines in another order compile, or fail to, alike.
pub proof fn law_order_is_immaterial_to_faults(first: Seq<Seq<u8>>, second: Seq<Seq<u8>>)
    requires
        first.to_multiset() == second.to_multiset(),
    ensures
        compiles(first) <==> compiles(second),
{
    law_compiles_when_consistent(first);
    law_compiles_when_consistent(second);
    if consistent(first) {
        lemma_consistent_reordered(first, second);
    }
    if consistent(second) {
        lemma_consistent_reordered(second, first);
    }
}

proof fn lemma_consistent_reordered(first: Seq<Seq<u8>>, second: Seq<Seq<u8>>)
    requires
        first.to_multiset() == second.to_multiset(),
        consistent(first),
    ensures
        consistent(second),
{
    assert forall|i: int| 0 <= i < second.len() implies #[trigger] spec_parse(second[i]) is Ok by {
        assert(second.contains(second[i]));
        lemma_same_lines(second, first, second[i]);
        let k = choose|k: int| 0 <= k < first.len() && first[k] == second[i];
        assert(spec_parse(first[k]) is Ok);
    }
    assert forall|i: int, j: int|
        0 <= i < second.len() && 0 <= j < second.len() && (#[trigger] spec_parse(
            second[i],
        ))->Ok_0.spec_mesh() == (#[trigger] spec_parse(
            second[j],
        ))->Ok_0.spec_mesh() implies spec_parse(second[i]) == spec_parse(second[j]) by {
        assert(second.contains(second[i]));
        assert(second.contains(second[j]));
        lemma_same_lines(second, first, second[i]);
        lemma_same_lines(second, first, second[j]);
        let k = choose|k: int| 0 <= k < first.len() && first[k] == second[i];
        let m = choose|m: int| 0 <= m < first.len() && first[m] == second[j];
        assert(spec_parse(first[k]) == spec_parse(first[m]));
    }
}

} // verus!
