//! The CPU table that `lscpu --parse=NODE,SOCKET,CORE,CPU,CACHE` prints, read
//! into rows.
use crate::decimal::{parse_u64, unsigned};
use crate::error::TopologyError;
use crate::text::{
    lemma_split_step, run_end, split, strip_comments, without_comments, ByteClass, COLON,
};
use vstd::prelude::*;
use vstd::slice::slice_subrange;
use vstd::utf8::encode_utf8;

verus! {

/// One row of the CPU table: a logical CPU, where it sits, and the caches
/// that it uses.
#[derive(Debug, Clone, Copy, PartialEq, Eq, Structural)]
pub struct CpuRow {
    pub node: u64,
    pub socket: u64,
    pub core: u64,
    pub cpu: u64,
    pub l1: u64,
    pub l2: u64,
    pub l3: u64,
}

/// Trusted: the error of the `csv` crate. Nothing is known of what it holds;
/// it is met only to be turned into a format error.
#[verifier::external_type_specification]
#[verifier::external_body]
pub struct ExCsvError(csv::Error);

/// The records that the `csv` crate reads from a table without a header row,
/// each as the texts of its fields, or nothing where it reports an error.
pub uninterp spec fn csv_records(table: Seq<u8>) -> Option<Seq<Seq<Seq<char>>>>;

/// Trusted: a `csv::Reader` with the default settings but `has_headers(false)`,
/// asked by `deserialize` for each record as the list of its fields, and
/// collected. It reads the whole table or gives the first error; what it gives
/// depends on the bytes of the table alone.
#[verifier::external_body]
fn read_records(table: &[u8]) -> (r: Result<Vec<Vec<String>>, csv::Error>)
    ensures
        match r {
            Ok(records) => csv_records(table@) == Some(records.deep_view()),
            Err(_) => csv_records(table@) is None,
        },
{
    csv::ReaderBuilder::new().has_headers(false).from_reader(table).deserialize().collect()
}

/// The identifiers of the level-1 data cache, the level-2 cache and the
/// level-3 cache that a descriptor names. A descriptor is four unsigned
/// numbers with colons between them, for the level-1 data cache, the level-1
/// instruction cache, level 2 and level 3; any other text names none.
pub open spec fn cache_ids(descriptor: Seq<u8>) -> Option<(u64, u64, u64)> {
    let fields = split(descriptor, COLON);
    if fields.len() == 4 && (forall|i: int| 0 <= i < 4 ==> unsigned(#[trigger] fields[i]) is Some) {
        Some((unsigned(fields[0])->0, unsigned(fields[2])->0, unsigned(fields[3])->0))
    } else {
        None
    }
}

/// Reads a cache descriptor.
pub fn parse_cache(descriptor: &[u8]) -> (r: Option<(u64, u64, u64)>)
    ensures
        r == cache_ids(descriptor@),
{
    let mut ids: Vec<u64> = Vec::new();
    let mut start: usize = 0;
    let mut done = false;
    let ghost mut seen: Seq<Seq<u8>> = Seq::empty();
    assert(descriptor@.skip(0) =~= descriptor@);
    while !done
        invariant
            0 <= start <= descriptor.len(),
            done ==> split(descriptor@, COLON) == seen,
            !done ==> split(descriptor@, COLON) == seen + split(descriptor@.skip(start as int), COLON),
            ids@.len() == seen.len(),
            forall|i: int| 0 <= i < seen.len() ==> unsigned(#[trigger] seen[i]) == Some(ids@[i]),
        decreases descriptor.len() - start + if done { 0int } else { 1int },
    {
        let end = run_end(descriptor, start, ByteClass::Except(COLON));
        let field = slice_subrange(descriptor, start, end);
        proof {
            lemma_split_step(descriptor@, COLON, start as int, end as int);
            if end < descriptor.len() {
                assert(seen + (seq![field@] + split(descriptor@.skip(end + 1), COLON))
                    =~= seen.push(field@) + split(descriptor@.skip(end + 1), COLON));
            } else {
                assert(seen + seq![field@] =~= seen.push(field@));
            }
        }
        match parse_u64(field) {
            Some(id) => {
                ids.push(id);
            },
            None => {
                proof {
                    let fields = split(descriptor@, COLON);
                    assert(fields[seen.len() as int] == field@);
                }
                return None;
            },
        }
        proof {
            seen = seen.push(field@);
        }
        if end == descriptor.len() {
            done = true;
        } else {
            start = end + 1;
        }
    }
    if ids.len() == 4 {
        Some((ids[0], ids[2], ids[3]))
    } else {
        None
    }
}

/// The row that a record of the table stands for: a record has five
/// fields, which are the node, the socket, the core and the CPU, each an
/// unsigned number, and the cache descriptor. Any other record stands for
/// none.
pub open spec fn row_of(record: Seq<Seq<char>>) -> Option<CpuRow> {
    if record.len() == 5 && (forall|i: int|
        0 <= i < 4 ==> unsigned(encode_utf8(#[trigger] record[i])) is Some) {
        match cache_ids(encode_utf8(record[4])) {
            Some((l1, l2, l3)) => Some(
                CpuRow {
                    node: unsigned(encode_utf8(record[0]))->0,
                    socket: unsigned(encode_utf8(record[1]))->0,
                    core: unsigned(encode_utf8(record[2]))->0,
                    cpu: unsigned(encode_utf8(record[3]))->0,
                    l1,
                    l2,
                    l3,
                },
            ),
            None => None,
        }
    } else {
        None
    }
}

/// The rows that the records stand for, one for each and in their order, or
/// nothing where one of them stands for none.
pub open spec fn rows_of(records: Seq<Seq<Seq<char>>>) -> Option<Seq<CpuRow>> {
    if forall|i: int| 0 <= i < records.len() ==> row_of(#[trigger] records[i]) is Some {
        Some(Seq::new(records.len(), |i: int| row_of(records[i])->0))
    } else {
        None
    }
}

/// The rows of a table: those of the records that the CSV reader finds in it
/// once the comment lines are gone.
pub open spec fn table_rows(table: Seq<u8>) -> Option<Seq<CpuRow>> {
    match csv_records(without_comments(table)) {
        Some(records) => rows_of(records),
        None => None,
    }
}

/// Whether `result` is what reading a table gives when `rows` is what the
/// table holds.
pub open spec fn reports(result: Result<Vec<CpuRow>, TopologyError>, rows: Option<Seq<CpuRow>>) -> bool {
    match result {
        Ok(found) => rows == Some(found@),
        Err(e) => rows is None && e == TopologyError::Format,
    }
}

/// Reads one record of the table.
pub fn row_from_record(record: &Vec<String>) -> (r: Option<CpuRow>)
    ensures
        r == row_of(record.deep_view()),
{
    let ghost fields = record.deep_view();
    if record.len() != 5 {
        return None;
    }
    proof {
        assert forall|i: int| 0 <= i < 5 implies #[trigger] fields[i] == record@[i]@ by {}
    }
    let node = parse_u64(record[0].as_str().as_bytes());
    let socket = parse_u64(record[1].as_str().as_bytes());
    let core = parse_u64(record[2].as_str().as_bytes());
    let cpu = parse_u64(record[3].as_str().as_bytes());
    let caches = parse_cache(record[4].as_str().as_bytes());
    match (node, socket, core, cpu, caches) {
        (Some(node), Some(socket), Some(core), Some(cpu), Some((l1, l2, l3))) => Some(
            CpuRow { node, socket, core, cpu, l1, l2, l3 },
        ),
        _ => None,
    }
}

/// Turns the records of a table into rows.
pub fn rows_from_records(records: Vec<Vec<String>>) -> (r: Result<Vec<CpuRow>, TopologyError>)
    ensures
        reports(r, rows_of(records.deep_view())),
{
    let mut rows: Vec<CpuRow> = Vec::new();
    let mut i: usize = 0;
    while i < records.len()
        invariant
            0 <= i <= records.len(),
            rows@.len() == i,
            forall|k: int| 0 <= k < i ==> row_of(#[trigger] records.deep_view()[k]) == Some(rows@[k]),
        decreases records.len() - i,
    {
        assert(records.deep_view()[i as int] == records@[i as int].deep_view());
        match row_from_record(&records[i]) {
            Some(row) => {
                rows.push(row);
            },
            None => {
                return Err(TopologyError::Format);
            },
        }
        i = i + 1;
    }
    assert(rows@ =~= rows_of(records.deep_view())->0);
    Ok(rows)
}

/// Reads the CPU table that `lscpu --parse=NODE,SOCKET,CORE,CPU,CACHE`
/// prints.
pub fn parse_cpu_table(lscpu_output: &str) -> (r: Result<Vec<CpuRow>, TopologyError>)
    ensures
        reports(r, table_rows(encode_utf8(lscpu_output@))),
{
    let table = strip_comments(lscpu_output.as_bytes());
    match read_records(table.as_slice()) {
        Ok(records) => rows_from_records(records),
        Err(_) => Err(TopologyError::Format),
    }
}

} // verus!
