use crate::par::{compile, compiles, fault_at, is_first_fault, is_table_of, text, CompileError};
use crate::record::Record;
use vstd::prelude::*;
use vstd::slice::{slice_subrange, slice_to_vec};
use vstd::string::StringSliceAdditionalSpecFns;

verus! {

/// Where the first line of a text ends: at its first line feed, or at the
/// end of the text.
pub open spec fn line_end(source: Seq<u8>) -> int
    decreases source.len(),
{
    if source.len() == 0 || source[0] == 0x0a {
        0
    } else {
        1 + line_end(source.skip(1))
    }
}

/// The lines of a text. A line feed ends a line and is no part of it; what
/// follows the last line feed is a line too, unless nothing follows.
pub open spec fn spec_lines(source: Seq<u8>) -> Seq<Seq<u8>>
    decreases source.len(),
{
    if source.len() == 0 {
        Seq::empty()
    } else {
        let end = line_end(source);
        if 0 <= end < source.len() {
            seq![source.take(end)] + spec_lines(source.skip(end + 1))
        } else {
            seq![source]
        }
    }
}

/// Whether a line ends without a carriage return.
pub open spec fn lacks_cr(line: Seq<u8>) -> bool {
    line.len() == 0 || line.last() != 0x0d
}

/// The lines without their carriage returns.
pub open spec fn without_cr(lines: Seq<Seq<u8>>) -> Seq<Seq<u8>> {
    lines.map_values(|line: Seq<u8>| line.drop_last())
}

proof fn lemma_line_end(source: Seq<u8>, k: int)
    requires
        0 <= k <= source.len(),
        forall|j: int| 0 <= j < k ==> source[j] != 0x0a,
        k == source.len() || source[k] == 0x0a,
    ensures
        line_end(source) == k,
    decreases k,
{
    if k > 0 {
        lemma_line_end(source.skip(1), k - 1);
    }
}

/// Splits a text into its lines and takes the carriage return from the end
/// of each. Gives the number of the first line that has none, counted from
/// 0, where there is one.
pub fn crlf_lines(source: &[u8]) -> (r: Result<Vec<Vec<u8>>, usize>)
    ensures
        match r {
            Ok(lines) => {
                &&& forall|i: int|
                    0 <= i < spec_lines(source@).len() ==> !lacks_cr(#[trigger] spec_lines(source@)[i])
                &&& text(lines@) == without_cr(spec_lines(source@))
            },
            Err(i) => {
                &&& 0 <= i < spec_lines(source@).len()
                &&& lacks_cr(spec_lines(source@)[i as int])
                &&& forall|j: int| 0 <= j < i ==> !lacks_cr(#[trigger] spec_lines(source@)[j])
            },
        },
{
    let n = source.len();
    let mut lines: Vec<Vec<u8>> = Vec::new();
    let ghost mut raw: Seq<Seq<u8>> = Seq::empty();
    let mut start: usize = 0;
    let mut i: usize = 0;
    proof {
        assert(source@.skip(0) =~= source@);
        assert(raw + spec_lines(source@) =~= spec_lines(source@));
    }
    while start < n
        invariant
            start <= i <= n,
            start == i,
            n == source@.len(),
            spec_lines(source@) == raw + spec_lines(source@.skip(start as int)),
            forall|k: int| 0 <= k < raw.len() ==> !lacks_cr(#[trigger] raw[k]),
            text(lines@) == without_cr(raw),
            lines@.len() == raw.len(),
        decreases n - start,
    {
        while i < n && source[i] != 0x0a
            invariant
                start <= i <= n,
                n == source@.len(),
                forall|j: int| start <= j < i ==> source@[j] != 0x0a,
            decreases n - i,
        {
            i += 1;
        }
        let ghost rest = source@.skip(start as int);
        let ghost line = source@.subrange(start as int, i as int);
        proof {
            lemma_line_end(rest, i - start);
            assert(rest.take(i - start) =~= line);
            if i < n {
                assert(rest.skip(i - start + 1) =~= source@.skip(i + 1));
                assert(spec_lines(rest) == seq![line] + spec_lines(source@.skip(i + 1)));
            } else {
                assert(rest =~= line);
                assert(spec_lines(rest) == seq![line]);
                assert(source@.skip(n as int) =~= Seq::<u8>::empty());
                assert(spec_lines(source@.skip(n as int)) =~= Seq::<Seq<u8>>::empty());
            }
            assert(spec_lines(source@) =~= raw.push(line) + spec_lines(
                source@.skip(if i < n {
                    i + 1
                } else {
                    n as int
                }),
            ));
            assert(spec_lines(source@)[raw.len() as int] == line);
            assert forall|j: int| 0 <= j < raw.len() implies spec_lines(source@)[j] == raw[j] by {}
        }
        if i == start || source[i - 1] != 0x0d {
            return Err(lines.len());
        }
        let stripped = slice_to_vec(slice_subrange(source, start, i - 1));
        assert(stripped@ =~= line.drop_last());
        let ghost before = lines@;
        lines.push(stripped);
        proof {
            assert forall|k: int| 0 <= k < lines@.len() implies text(lines@)[k] == without_cr(
                raw.push(line),
            )[k] by {
                if k < before.len() {
                    assert(text(before)[k] == without_cr(raw)[k]);
                }
            }
            assert(text(lines@) =~= without_cr(raw.push(line)));
            raw = raw.push(line);
        }
        if i < n {
            i += 1;
        }
        start = i;
    }
    proof {
        assert(source@.skip(n as int) =~= Seq::<u8>::empty());
        assert(spec_lines(source@) =~= raw);
    }
    Ok(lines)
}


/// The line that stands before the records of a parameter file.
pub open spec fn spec_header() -> Seq<u8> {
    "MeshCode   dB(sec)   dL(sec)".spec_bytes()
}

/// Whether line `h` is the first header line.
pub open spec fn is_header_at(lines: Seq<Seq<u8>>, h: int) -> bool {
    &&& 0 <= h < lines.len()
    &&& lines[h] == spec_header()
    &&& forall|k: int| 0 <= k < h ==> #[trigger] lines[k] != spec_header()
}

/// The number of lines up to the first header line and with it; all lines
/// where there is none.
pub open spec fn spec_body_start(lines: Seq<Seq<u8>>) -> int {
    if exists|h: int| is_header_at(lines, h) {
        (choose|h: int| is_header_at(lines, h)) + 1
    } else {
        lines.len() as int
    }
}

/// The number of lines that stand before the records of a parameter file.
pub open spec fn spec_head(source: Seq<u8>) -> int {
    spec_body_start(without_cr(spec_lines(source)))
}

/// The lines of records in a parameter file: those after the first header
/// line, without their carriage returns.
pub open spec fn spec_body(source: Seq<u8>) -> Seq<Seq<u8>> {
    without_cr(spec_lines(source)).skip(spec_head(source))
}

fn same_bytes(a: &[u8], b: &[u8]) -> (r: bool)
    ensures
        r == (a@ == b@),
{
    if a.len() != b.len() {
        return false;
    }
    let mut i: usize = 0;
    while i < a.len()
        invariant
            i <= a@.len(),
            a@.len() == b@.len(),
            forall|j: int| 0 <= j < i ==> a@[j] == b@[j],
        decreases a@.len() - i,
    {
        if a[i] != b[i] {
            return false;
        }
        i += 1;
    }
    assert(a@ =~= b@);
    true
}

/// Finds the first line of records: the one after the first header line.
pub fn body_start(lines: &[Vec<u8>]) -> (r: usize)
    ensures
        r == spec_body_start(text(lines@)),
        r <= lines@.len(),
{
    let header = "MeshCode   dB(sec)   dL(sec)".as_bytes();
    let mut i: usize = 0;
    while i < lines.len()
        invariant
            i <= lines@.len(),
            header@ == spec_header(),
            forall|k: int| 0 <= k < i ==> #[trigger] text(lines@)[k] != spec_header(),
        decreases lines@.len() - i,
    {
        assert(text(lines@)[i as int] == lines@[i as int]@);
        if same_bytes(lines[i].as_slice(), header) {
            proof {
                let found = i as int;
                assert(is_header_at(text(lines@), found));
                let h = choose|h: int| is_header_at(text(lines@), h);
                assert(h == found);
            }
            return i + 1;
        }
        i += 1;
    }
    proof {
        if exists|h: int| is_header_at(text(lines@), h) {
            let h = choose|h: int| is_header_at(text(lines@), h);
            assert(text(lines@)[h] == spec_header());
        }
    }
    lines.len()
}

/// Why a parameter file has no table.
#[derive(Debug, Clone, Copy, PartialEq, Eq, Structural)]
pub enum SourceError {
    /// A line does not end with a carriage return and a line feed. Lines
    /// are counted from 0.
    NotCrlf { line: usize },
    /// A line of records cannot go into the table. Lines are counted from
    /// 0, those before the records too.
    Body(CompileError),
}

/// Compiles a parameter file into a table: takes the lines after the header
/// line for records, and compiles them. Every line of the file has to end
/// with a carriage return and a line feed.
pub fn compile_source(source: &[u8]) -> (r: Result<Vec<Record>, SourceError>)
    ensures
        match r {
            Ok(table) => {
                &&& forall|i: int|
                    0 <= i < spec_lines(source@).len() ==> !lacks_cr(#[trigger] spec_lines(source@)[i])
                &&& compiles(spec_body(source@))
                &&& is_table_of(table@, spec_body(source@))
            },
            Err(SourceError::NotCrlf { line }) => {
                &&& 0 <= line < spec_lines(source@).len()
                &&& lacks_cr(spec_lines(source@)[line as int])
                &&& forall|j: int| 0 <= j < line ==> !lacks_cr(#[trigger] spec_lines(source@)[j])
            },
            Err(SourceError::Body(e)) => {
                &&& forall|i: int|
                    0 <= i < spec_lines(source@).len() ==> !lacks_cr(#[trigger] spec_lines(source@)[i])
                &&& is_first_fault(spec_body(source@), e.line - spec_head(source@))
                &&& fault_at(spec_body(source@), e.line - spec_head(source@)) == Some(e.fault)
            },
        },
{
    let lines = match crlf_lines(source) {
        Ok(lines) => lines,
        Err(line) => {
            return Err(SourceError::NotCrlf { line });
        },
    };
    let start = body_start(lines.as_slice());
    let body = slice_subrange(lines.as_slice(), start, lines.len());
    assert(text(body@) =~= spec_body(source@));
    match compile(body) {
        Ok(table) => Ok(table),
        Err(e) => Err(SourceError::Body(CompileError { line: start + e.line, fault: e.fault })),
    }
}

} // verus!
