//! Reading the AIS CSV files: which lines are records, when buffered records
//! are parsed and written, and how the text fields become typed values.
use crate::decimal::{parse_i64_decimal, parse_i64_spec};
use crate::text::{bytes_equal, bytes_start_with, count_byte, count_byte_exec, has_prefix};
use vstd::prelude::*;
use vstd::utf8::encode_utf8;

verus! {

/// The number of fields of an AIS CSV record.
pub const CSV_FIELDS: usize = 17;

/// The bytes of `MMSI,`, the start of a header line.
pub open spec fn header_start() -> Seq<u8> {
    seq![77u8, 77, 83, 73, 44]
}

/// A line holds a record: it is not a header (`MMSI,...`) and it has 17
/// fields, or 18 with a trailing comma. Commas are counted on the UTF-8
/// bytes; a `,` character is always exactly one such byte.
pub open spec fn csv_line_is_record_spec(line: Seq<char>) -> bool {
    let b = encode_utf8(line);
    !has_prefix(b, header_start()) && (count_byte(b, 44) == CSV_FIELDS - 1 || count_byte(b, 44) == CSV_FIELDS)
}

/// Whether a CSV line is kept as a record; header lines and lines with the
/// wrong number of fields are skipped.
pub fn csv_line_is_record(line: &str) -> (r: bool)
    ensures
        r == csv_line_is_record_spec(line@),
{
    let b = line.as_bytes();
    let header: [u8; 5] = [77, 77, 83, 73, 44];
    assert(header@ =~= header_start());
    let commas = count_byte_exec(b, 44);
    !bytes_start_with(b, &header) && (commas == CSV_FIELDS - 1 || commas == CSV_FIELDS)
}

/// How many skipped lines of a file are reported one by one.
pub const REPORTED_SKIPS: usize = 5;

/// What became of a line read from a CSV file.
#[derive(Debug, Clone, Copy, PartialEq, Eq, Structural)]
pub enum LineOutcome {
    /// The line was buffered as a record.
    Buffered,
    /// The line was skipped; `report` says whether to report it (the first
    /// five skipped lines of a file are reported).
    Skipped { report: bool },
}

/// The counters of the CSV-to-Parquet build: rows written in all, rows
/// written from the current file, skipped lines of the current file and
/// records buffered but not yet written.
#[derive(Debug, Clone, Copy, PartialEq, Eq, Structural)]
pub struct CsvIngest {
    pub total_rows: usize,
    pub file_rows: usize,
    pub file_bad: usize,
    pub rows_in_buf: usize,
}

impl CsvIngest {
    /// Counters before the first file.
    pub fn new() -> (r: Self)
        ensures
            r == (CsvIngest { total_rows: 0, file_rows: 0, file_bad: 0, rows_in_buf: 0 }),
    {
        CsvIngest { total_rows: 0, file_rows: 0, file_bad: 0, rows_in_buf: 0 }
    }

    /// Starts a file: its counters and the buffer are empty.
    pub fn start_file(&mut self)
        ensures
            *final(self) == old(self).after_start(),
    {
        self.file_rows = 0;
        self.file_bad = 0;
        self.rows_in_buf = 0;
    }

    /// The records taken in, written or buffered, are within `max_rows`.
    pub open spec fn within_limit(self, max_rows: Option<usize>) -> bool {
        max_rows matches Some(m) ==> self.total_rows + self.rows_in_buf <= m
    }

    /// `max_rows` records have been taken in, counting those written and
    /// those still buffered.
    pub open spec fn limit_reached_spec(self, max_rows: Option<usize>) -> bool {
        max_rows matches Some(m) && self.total_rows + self.rows_in_buf >= m
    }

    /// The counters after a file is started.
    pub open spec fn after_start(self) -> CsvIngest {
        CsvIngest { file_rows: 0, file_bad: 0, rows_in_buf: 0, ..self }
    }

    /// The counters after `line` is taken in.
    pub open spec fn after_line(self, line: Seq<char>) -> CsvIngest {
        if csv_line_is_record_spec(line) {
            CsvIngest { rows_in_buf: (self.rows_in_buf + 1) as usize, ..self }
        } else {
            CsvIngest { file_bad: (self.file_bad + 1) as usize, ..self }
        }
    }

    /// The counters after `rows` rows of the buffer are written.
    pub open spec fn after_write(self, rows: usize) -> CsvIngest {
        CsvIngest {
            total_rows: (self.total_rows + rows) as usize,
            file_rows: (self.file_rows + rows) as usize,
            ..self
        }
    }

    /// The counters after the buffer is emptied.
    pub open spec fn after_flush(self) -> CsvIngest {
        CsvIngest { rows_in_buf: 0, ..self }
    }

    /// Reading stops once `max_rows` records have been taken in: those
    /// written and those buffered both count, so no more than `max_rows`
    /// rows are ever written.
    pub fn limit_reached(&self, max_rows: Option<usize>) -> (r: bool)
        ensures
            r == self.limit_reached_spec(max_rows),
    {
        match max_rows {
            Some(m) => self.rows_in_buf >= m || self.total_rows >= m - self.rows_in_buf,
            None => false,
        }
    }

    /// Takes in a line: a record is buffered, anything else is counted as
    /// skipped.
    pub fn on_line(&mut self, line: &str) -> (r: LineOutcome)
        requires
            old(self).file_bad < usize::MAX,
            old(self).rows_in_buf < usize::MAX,
        ensures
            csv_line_is_record_spec(line@) ==> r == LineOutcome::Buffered && *final(self) == (CsvIngest {
                rows_in_buf: (old(self).rows_in_buf + 1) as usize,
                ..*old(self)
            }),
            !csv_line_is_record_spec(line@) ==> r == (LineOutcome::Skipped {
                report: old(self).file_bad + 1 <= REPORTED_SKIPS,
            }) && *final(self) == (CsvIngest { file_bad: (old(self).file_bad + 1) as usize, ..*old(self) }),
            *final(self) == old(self).after_line(line@),
    {
        if csv_line_is_record(line) {
            self.rows_in_buf = self.rows_in_buf + 1;
            LineOutcome::Buffered
        } else {
            self.file_bad = self.file_bad + 1;
            LineOutcome::Skipped { report: self.file_bad <= REPORTED_SKIPS }
        }
    }

    /// The buffer is parsed and written once it holds `batch_size` records.
    pub fn batch_ready(&self, batch_size: usize) -> (r: bool)
        ensures
            r == (self.rows_in_buf >= batch_size),
    {
        self.rows_in_buf >= batch_size
    }

    /// At the end of a file, the records still buffered are written unless
    /// the row limit has been reached.
    pub fn final_flush_needed(&self, max_rows: Option<usize>) -> (r: bool)
        ensures
            r == (self.rows_in_buf > 0 && match max_rows {
                Some(m) => self.total_rows < m,
                None => true,
            }),
    {
        self.rows_in_buf > 0 && match max_rows {
            Some(m) => self.total_rows < m,
            None => true,
        }
    }

    /// Counts `rows` rows written from the buffer.
    pub fn on_rows_written(&mut self, rows: usize)
        requires
            old(self).total_rows + rows <= usize::MAX,
            old(self).file_rows + rows <= usize::MAX,
        ensures
            *final(self) == old(self).after_write(rows),
    {
        self.total_rows = self.total_rows + rows;
        self.file_rows = self.file_rows + rows;
    }

    /// Empties the buffer after its records were parsed and written.
    pub fn on_buffer_flushed(&mut self)
        ensures
            *final(self) == old(self).after_flush(),
    {
        self.rows_in_buf = 0;
    }
}

/// Law: the row limit holds throughout a build. Counters start within any
/// limit; starting a file, taking in a line while the limit is not reached,
/// and writing no more rows than are buffered and then emptying the buffer
/// all keep the records written and buffered within `max_rows`; and counters
/// within the limit have written no more than `max_rows` rows.
pub proof fn lemma_row_limit_kept(s: CsvIngest, max_rows: Option<usize>, line: Seq<char>, rows: usize)
    ensures
        (CsvIngest { total_rows: 0, file_rows: 0, file_bad: 0, rows_in_buf: 0 }).within_limit(max_rows),
        s.within_limit(max_rows) ==> s.after_start().within_limit(max_rows),
        s.within_limit(max_rows) && !s.limit_reached_spec(max_rows) ==> s.after_line(line).within_limit(
            max_rows,
        ),
        s.within_limit(max_rows) && rows <= s.rows_in_buf ==> s.after_write(rows).after_flush().within_limit(
            max_rows,
        ),
        s.within_limit(max_rows) ==> (max_rows matches Some(m) ==> s.total_rows <= m),
{
}

/// An integer field (`MMSI`): the `i64` that `str::parse` reads.
pub fn parse_int_field(s: &str) -> (r: Option<i64>)
    ensures
        r == parse_i64_spec(encode_utf8(s@)),
{
    let b = s.as_bytes();
    proof {
        assert(b@.subrange(0, b@.len() as int) =~= b@);
    }
    parse_i64_decimal(b, 0, b.len())
}

/// The bytes of `IMO`.
pub open spec fn imo_tag() -> Seq<u8> {
    seq![73u8, 77, 79]
}

/// The `IMO` field: the number after an optional `IMO` prefix.
pub open spec fn imo_spec(b: Seq<u8>) -> Option<i64> {
    if has_prefix(b, imo_tag()) {
        parse_i64_spec(b.subrange(3, b.len() as int))
    } else {
        parse_i64_spec(b)
    }
}

/// Reads an `IMO` field such as `IMO9348651` or `9348651`.
pub fn parse_imo_field(s: &str) -> (r: Option<i64>)
    ensures
        r == imo_spec(encode_utf8(s@)),
{
    let b = s.as_bytes();
    let tag: [u8; 3] = [73, 77, 79];
    assert(tag@ =~= imo_tag());
    proof {
        assert(b@.subrange(0, b@.len() as int) =~= b@);
    }
    if bytes_start_with(b, &tag) {
        parse_i64_decimal(b, 3, b.len())
    } else {
        parse_i64_decimal(b, 0, b.len())
    }
}

/// The `TransceiverClass` field: `true` for class `B`.
pub fn is_class_b(s: &str) -> (r: bool)
    ensures
        r == (encode_utf8(s@) == seq![66u8]),
{
    let b: [u8; 1] = [66];
    assert(b@ =~= seq![66u8]);
    bytes_equal(s.as_bytes(), &b)
}

/// A CSV field counts only when it is not empty.
pub fn field_present(s: &str) -> (r: bool)
    ensures
        r == (s@.len() > 0),
{
    let n = s.as_bytes().len();
    proof {
        if s@.len() > 0 {
            vstd::utf8::encode_utf8_first_scalar(s@);
        }
    }
    n > 0
}

} // verus!
