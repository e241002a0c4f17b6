use crate::grid::{strictly_sorted, Dot, Grid, MicroSecond};
use crate::mesh::Mesh3;
use crate::par::sorted_by_cell;
use crate::record::{spec_le16, spec_le32, Record};
use vstd::prelude::*;

verus! {

/// Bytes in the binary form of one record.
pub const RECORD_BYTES: usize = 12;

/// The binary form of a table: the twelve bytes of each record in turn,
/// with nothing before, between or after them.
pub open spec fn spec_emit(table: Seq<Record>) -> Seq<u8> {
    Seq::new(12 * table.len(), |k: int| table[k / 12].spec_bytes()[k % 12])
}

/// The binary form of a table.
pub fn emit(table: &[Record]) -> (blob: Vec<u8>)
    ensures
        blob@ == spec_emit(table@),
{
    let mut blob: Vec<u8> = Vec::new();
    let mut i: usize = 0;
    while i < table.len()
        invariant
            i <= table@.len(),
            blob@ == spec_emit(table@.take(i as int)),
        decreases table@.len() - i,
    {
        let bytes = table[i].to_bytes();
        let ghost before = blob@;
        blob.extend_from_slice(bytes.as_slice());
        assert(blob@ =~= spec_emit(table@.take(i + 1))) by {
            assert(blob@ == before + bytes@);
            assert(bytes@.len() == 12);
            assert forall|k: int| 0 <= k < 12 * (i + 1) implies blob@[k] == spec_emit(
                table@.take(i + 1),
            )[k] by {
                if k < 12 * i {
                    assert(k / 12 < i);
                    assert(table@.take(i as int)[k / 12] == table@.take(i + 1)[k / 12]);
                } else {
                    assert(k / 12 == i);
                    assert(k % 12 == k - 12 * i);
                }
            }
        }
        i += 1;
    }
    assert(table@.take(table@.len() as int) =~= table@);
    blob
}

/// The sixteen-bit integer whose two's complement the two bytes are, the
/// least first.
pub open spec fn spec_int16(b0: u8, b1: u8) -> i16 {
    let unsigned = b0 + 0x100 * b1;
    if unsigned < 0x8000 {
        unsigned as i16
    } else {
        (unsigned - 0x1_0000) as i16
    }
}

/// The 32-bit integer whose two's complement the four bytes are, the least
/// first.
pub open spec fn spec_int32(b0: u8, b1: u8, b2: u8, b3: u8) -> i32 {
    let unsigned = b0 + 0x100 * b1 + 0x1_0000 * b2 + 0x100_0000 * b3;
    if unsigned < 0x8000_0000 {
        unsigned as i32
    } else {
        (unsigned - 0x1_0000_0000) as i32
    }
}

/// The grid point that stands in the binary form of a table from byte
/// `start` on.
pub open spec fn spec_dot_at(blob: Seq<u8>, start: int) -> Dot {
    Dot {
        mesh: Mesh3 {
            lat: spec_int16(blob[start], blob[start + 1]),
            lon: spec_int16(blob[start + 2], blob[start + 3]),
        },
        shift: MicroSecond {
            lat: spec_int32(blob[start + 4], blob[start + 5], blob[start + 6], blob[start + 7]),
            lon: spec_int32(blob[start + 8], blob[start + 9], blob[start + 10], blob[start + 11]),
        },
    }
}

/// The grid points that stand in the binary form of a table.
pub open spec fn spec_load(blob: Seq<u8>) -> Seq<Dot> {
    Seq::new((blob.len() / 12) as nat, |k: int| spec_dot_at(blob, 12 * k))
}

fn int16(b0: u8, b1: u8) -> (r: i16)
    ensures
        r == spec_int16(b0, b1),
{
    let unsigned: i32 = b0 as i32 + 0x100 * (b1 as i32);
    if unsigned < 0x8000 {
        unsigned as i16
    } else {
        (unsigned - 0x1_0000) as i16
    }
}

fn int32(b0: u8, b1: u8, b2: u8, b3: u8) -> (r: i32)
    ensures
        r == spec_int32(b0, b1, b2, b3),
{
    let unsigned: i64 = b0 as i64 + 0x100 * (b1 as i64) + 0x1_0000 * (b2 as i64) + 0x100_0000 * (
    b3 as i64);
    if unsigned < 0x8000_0000 {
        unsigned as i32
    } else {
        (unsigned - 0x1_0000_0000) as i32
    }
}

/// Reads the binary form of a table: the grid points that it holds, where
/// it is made of whole records and these are strictly sorted by cell.
pub fn load(blob: &[u8]) -> (r: Option<Vec<Dot>>)
    ensures
        r is Some <==> blob@.len() % 12 == 0 && strictly_sorted(spec_load(blob@)),
        r matches Some(dots) ==> dots@ == spec_load(blob@),
{
    let n = blob.len() / RECORD_BYTES;
    if blob.len() % RECORD_BYTES != 0 {
        return None;
    }
    let mut dots: Vec<Dot> = Vec::new();
    let mut k: usize = 0;
    while k < n
        invariant
            k <= n,
            n == blob@.len() / 12,
            blob@.len() == 12 * n <= usize::MAX,
            dots@ == spec_load(blob@).take(k as int),
        decreases n - k,
    {
        let start = k * RECORD_BYTES;
        let dot = Dot {
            mesh: Mesh3 {
                lat: int16(blob[start], blob[start + 1]),
                lon: int16(blob[start + 2], blob[start + 3]),
            },
            shift: MicroSecond {
                lat: int32(blob[start + 4], blob[start + 5], blob[start + 6], blob[start + 7]),
                lon: int32(blob[start + 8], blob[start + 9], blob[start + 10], blob[start + 11]),
            },
        };
        dots.push(dot);
        assert(dots@ =~= spec_load(blob@).take(k + 1));
        k += 1;
    }
    assert(dots@ =~= spec_load(blob@));
    if Grid::is_sorted(dots.as_slice()) {
        Some(dots)
    } else {
        None
    }
}


proof fn lemma_int16_of_bytes(x: i16)
    ensures
        spec_le16(x).len() == 2,
        spec_int16(spec_le16(x)[0], spec_le16(x)[1]) == x,
{
}

proof fn lemma_int32_of_bytes(x: i32)
    ensures
        spec_le32(x).len() == 4,
        spec_int32(spec_le32(x)[0], spec_le32(x)[1], spec_le32(x)[2], spec_le32(x)[3]) == x,
{
    let q1 = (x as int) / 0x100;
    let q2 = q1 / 0x100;
    let q3 = q2 / 0x100;
    assert(x == q1 * 0x100 + (x as int) % 0x100);
    assert(q1 == q2 * 0x100 + q1 % 0x100);
    assert(q2 == q3 * 0x100 + q2 % 0x100);
    assert(-0x80 <= q3 < 0x80);
}

/// The grid point that is read from the twelve bytes of a record is the
/// grid point of the record.
pub proof fn law_record_reads_back(record: Record)
    ensures
        record.spec_bytes().len() == 12,
        spec_dot_at(record.spec_bytes(), 0) == record.spec_dot(),
{
    lemma_int16_of_bytes(record.0);
    lemma_int16_of_bytes(record.1);
    lemma_int32_of_bytes(record.2);
    lemma_int32_of_bytes(record.3);
}

/// The table that is read from the binary form of a table is that table,
/// point for point.
pub proof fn law_table_reads_back(table: Seq<Record>)
    ensures
        spec_emit(table).len() == 12 * table.len(),
        spec_load(spec_emit(table)) == table.map_values(|record: Record| record.spec_dot()),
        sorted_by_cell(table) <==> strictly_sorted(spec_load(spec_emit(table))),
{
    let blob = spec_emit(table);
    let dots = table.map_values(|record: Record| record.spec_dot());
    assert forall|k: int| 0 <= k < table.len() implies spec_dot_at(blob, 12 * k) == dots[k] by {
        let bytes = table[k].spec_bytes();
        law_record_reads_back(table[k]);
        assert forall|j: int| 0 <= j < 12 implies blob[12 * k + j] == bytes[j] by {
            assert((12 * k + j) / 12 == k);
            assert((12 * k + j) % 12 == j);
        }
    }
    assert(spec_load(blob) =~= dots);
    if sorted_by_cell(table) {
        assert forall|i: int, j: int| 0 <= i < j < dots.len() implies dots[i].mesh.spec_lt(
            dots[j].mesh,
        ) by {
            assert(table[i].spec_mesh().spec_lt(table[j].spec_mesh()));
        }
    }
    if strictly_sorted(dots) {
        assert forall|i: int, j: int| 0 <= i < j < table.len() implies table[i].spec_mesh().spec_lt(
            table[j].spec_mesh(),
        ) by {
            assert(dots[i].mesh.spec_lt(dots[j].mesh));
        }
    }
}

} // verus!
