//! Delimited text: reading a table and normalising its rows into records.
use crate::data::{field_names_unique, DataValues};
use crate::literal::{cell_literal, Literals};
use crate::text::strs_view;
use vstd::prelude::*;

verus! {

#[verifier::external_type_specification]
#[verifier::external_body]
pub struct ExCsvError(csv::Error);

/// A source of records that can be turned into one tree.
pub trait Filetype {
    fn to_object(self) -> DataValues;
}

/// How delimited text is split into cells.
pub struct CsvOptions {
    pub delimiter: char,
}

impl CsvOptions {
    /// Cells separated by commas.
    pub fn new() -> (r: Self)
        ensures
            r.delimiter == ',',
    {
        CsvOptions { delimiter: ',' }
    }
}

/// Why delimited text could not be read.
#[derive(Debug, PartialEq, Eq)]
pub enum CsvError {
    /// The delimiter is not a single byte.
    Delimiter,
    /// The reader rejected the text.
    Parse,
    /// A row has more cells than the header.
    RaggedRow,
}

/// The header row and the data rows that csv reads from `text`, splitting
/// cells at `delimiter`, or `None` where the reader reports an error.
pub uninterp spec fn csv_table(text: Seq<char>, delimiter: u8) -> Option<(Seq<Seq<char>>, Seq<Seq<Seq<char>>>)>;

/// Some row has more cells than the header.
pub open spec fn has_ragged_row(h: Seq<Seq<char>>, rows: Seq<Seq<Seq<char>>>) -> bool {
    exists|i: int| 0 <= i < rows.len() && #[trigger] rows[i].len() > h.len()
}

pub open spec fn rows_view(rows: Seq<Vec<String>>) -> Seq<Seq<Seq<char>>> {
    rows.map_values(|r: Vec<String>| strs_view(r@))
}

/// Relies on csv's `ReaderBuilder` (a header row, rows of any length) and
/// `Reader::records`: the header cells and each row's cells as the crate
/// reads them from `text`, or the crate's error.
#[verifier::external_body]
fn read_table(text: &str, delimiter: u8) -> (r: Result<(Vec<String>, Vec<Vec<String>>), csv::Error>)
    ensures
        r is Ok <==> csv_table(text@, delimiter) is Some,
        r matches Ok((h, rows)) ==> csv_table(text@, delimiter) == Some(
            (strs_view(h@), rows_view(rows@)),
        ),
{
    let mut reader = csv::ReaderBuilder::new().has_headers(true).flexible(true).delimiter(
        delimiter,
    ).from_reader(text.as_bytes());
    let headers = reader.headers()?.iter().map(|s| s.to_owned()).collect();
    let mut rows = Vec::new();
    for record in reader.records() {
        rows.push(record?.iter().map(|s| s.to_owned()).collect());
    }
    Ok((headers, rows))
}

/// No later header has the same name as header `j`.
pub open spec fn last_of_name(h: Seq<Seq<char>>, j: int) -> bool {
    forall|k: int| j < k < h.len() ==> h[k] != h[j]
}

/// The rows of a table as records: for each header name, in the order of
/// the last column with that name, the name and the literal of that
/// column's cell.
pub struct CsvFileType {
    objects: Vec<Vec<(String, Literals)>>,
}

impl CsvFileType {
    /// No record repeats a name.
    #[verifier::type_invariant]
    spec fn names_distinct(self) -> bool {
        forall|i: int| 0 <= i < self.objects@.len() ==> names_unique(#[trigger] self.objects@[i]@)
    }
}

/// The columns among the first `n` that are the last of their name, in
/// order.
pub open spec fn columns_upto(h: Seq<Seq<char>>, n: int) -> Seq<int>
    decreases n,
{
    if n <= 0 {
        seq![]
    } else {
        columns_upto(h, n - 1) + if last_of_name(h, n - 1) {
            seq![n - 1]
        } else {
            seq![]
        }
    }
}

pub open spec fn columns(h: Seq<Seq<char>>) -> Seq<int> {
    columns_upto(h, h.len() as int)
}

/// `l` is the literal of cell `j` of `row`, or `Null` past the row's end.
pub open spec fn cell_at<F: Fn(&str) -> u64>(decimal: F, row: Seq<Seq<char>>, j: int, l: Literals) -> bool {
    if j < row.len() {
        cell_literal(decimal, row[j], l)
    } else {
        l@ == crate::literal::LitView::Null
    }
}

/// `rec` is the record of `row` under the headers `h`.
pub open spec fn record_of<F: Fn(&str) -> u64>(
    decimal: F,
    h: Seq<Seq<char>>,
    row: Seq<Seq<char>>,
    rec: Seq<(String, Literals)>,
) -> bool {
    let cols = columns(h);
    &&& rec.len() == cols.len()
    &&& forall|i: int|
        0 <= i < rec.len() ==> (#[trigger] rec[i]).0@ == h[cols[i]] && cell_at(
            decimal,
            row,
            cols[i],
            rec[i].1,
        )
}

pub open spec fn names_unique(rec: Seq<(String, Literals)>) -> bool {
    forall|i: int, j: int| 0 <= i < j < rec.len() ==> rec[i].0@ != rec[j].0@
}

proof fn lemma_columns(h: Seq<Seq<char>>, n: int)
    requires
        0 <= n <= h.len(),
    ensures
        forall|i: int| 0 <= i < columns_upto(h, n).len() ==> 0 <= #[trigger] columns_upto(h, n)[i] < n
            && last_of_name(h, columns_upto(h, n)[i]),
        forall|i: int, k: int|
            0 <= i < k < columns_upto(h, n).len() ==> columns_upto(h, n)[i] < columns_upto(h, n)[k],
    decreases n,
{
    if n > 0 {
        lemma_columns(h, n - 1);
        let p = columns_upto(h, n - 1);
        let c = columns_upto(h, n);
        assert forall|i: int| 0 <= i < c.len() implies c[i] == if i < p.len() {
            p[i]
        } else {
            n - 1
        } by {}
    }
}

fn is_last_of_name(h: &Vec<String>, j: usize) -> (r: bool)
    requires
        j < h.len(),
    ensures
        r == last_of_name(strs_view(h@), j as int),
{
    let mut k: usize = j + 1;
    while k < h.len()
        invariant
            j < k <= h.len(),
            forall|m: int| j < m < k ==> h@[m]@ != h@[j as int]@,
        decreases h.len() - k,
    {
        if h[k] == h[j] {
            proof {
                assert(strs_view(h@)[k as int] == strs_view(h@)[j as int]);
            }
            return false;
        }
        k += 1;
    }
    true
}

fn header_columns(h: &Vec<String>) -> (r: Vec<usize>)
    ensures
        r@.len() == columns(strs_view(h@)).len(),
        forall|i: int| 0 <= i < r@.len() ==> r@[i] as int == columns(strs_view(h@))[i],
{
    let ghost hv = strs_view(h@);
    let mut out: Vec<usize> = Vec::new();
    let mut j: usize = 0;
    while j < h.len()
        invariant
            j <= h.len(),
            hv == strs_view(h@),
            out@.len() == columns_upto(hv, j as int).len(),
            forall|i: int| 0 <= i < out@.len() ==> out@[i] as int == columns_upto(hv, j as int)[i],
        decreases h.len() - j,
    {
        if is_last_of_name(h, j) {
            out.push(j);
        }
        j += 1;
    }
    out
}

impl CsvFileType {
    pub closed spec fn records(self) -> Seq<Seq<(String, Literals)>> {
        self.objects@.map_values(|v: Vec<(String, Literals)>| v@)
    }

    /// The records of a table with headers `headers` and data rows `rows`.
    pub fn from_rows<F: Fn(&str) -> u64>(headers: Vec<String>, rows: Vec<Vec<String>>, decimal: &F) -> (r: Self)
        requires
            forall|s: &str| decimal.requires((s,)),
        ensures
            r.records().len() == rows.len(),
            forall|i: int| 0 <= i < rows.len() ==> names_unique(#[trigger] r.records()[i]),
            forall|i: int|
                0 <= i < rows.len() ==> record_of(
                    *decimal,
                    strs_view(headers@),
                    strs_view(rows@[i]@),
                    #[trigger] r.records()[i],
                ),
    {
        let ghost hv = strs_view(headers@);
        let cols = header_columns(&headers);
        proof {
            lemma_columns(hv, hv.len() as int);
        }
        let mut objects: Vec<Vec<(String, Literals)>> = Vec::new();
        let mut i: usize = 0;
        while i < rows.len()
            invariant
                i <= rows.len(),
                hv == strs_view(headers@),
                forall|s: &str| decimal.requires((s,)),
                cols@.len() == columns(hv).len(),
                forall|c: int| 0 <= c < cols@.len() ==> cols@[c] as int == columns(hv)[c],
                forall|a: int| 0 <= a < columns(hv).len() ==> 0 <= #[trigger] columns(hv)[a] < hv.len()
                    && last_of_name(hv, columns(hv)[a]),
                forall|a: int, b: int| 0 <= a < b < columns(hv).len() ==> columns(hv)[a] < columns(hv)[b],
                objects@.len() == i,
                forall|k: int| 0 <= k < i ==> names_unique(#[trigger] objects@[k]@),
                forall|k: int|
                    0 <= k < i ==> record_of(*decimal, hv, strs_view(rows@[k]@), #[trigger] objects@[k]@),
            decreases rows.len() - i,
        {
            let row = &rows[i];
            let ghost rv = strs_view(row@);
            let mut rec: Vec<(String, Literals)> = Vec::new();
            let mut c: usize = 0;
            while c < cols.len()
                invariant
                    c <= cols@.len(),
                    i < rows.len(),
                    row == rows@[i as int],
                    rv == strs_view(row@),
                    hv == strs_view(headers@),
                    forall|s: &str| decimal.requires((s,)),
                    cols@.len() == columns(hv).len(),
                    forall|x: int| 0 <= x < cols@.len() ==> cols@[x] as int == columns(hv)[x],
                    forall|a: int| 0 <= a < columns(hv).len() ==> 0 <= #[trigger] columns(hv)[a] < hv.len()
                        && last_of_name(hv, columns(hv)[a]),
                    rec@.len() == c,
                    forall|x: int|
                        0 <= x < c ==> (#[trigger] rec@[x]).0@ == hv[columns(hv)[x]] && cell_at(
                            *decimal,
                            rv,
                            columns(hv)[x],
                            rec@[x].1,
                        ),
                decreases cols@.len() - c,
            {
                let j = cols[c];
                proof {
                    assert(0 <= columns(hv)[c as int]);
                }
                let name = headers[j].clone();
                let value = if j < row.len() {
                    Literals::from_text(row[j].as_str(), decimal)
                } else {
                    Literals::Null
                };
                rec.push((name, value));
                c += 1;
            }
            proof {
                assert forall|a: int, b: int| 0 <= a < b < rec@.len() implies rec@[a].0@ != rec@[b].0@ by {
                    let ca = columns(hv)[a];
                    let cb = columns(hv)[b];
                    assert(ca < cb);
                    assert(last_of_name(hv, ca));
                }
            }
            objects.push(rec);
            i += 1;
        }
        let ghost ov = objects@;
        let r = CsvFileType { objects };
        proof {
            assert forall|k: int| 0 <= k < rows.len() implies r.records()[k] == ov[k]@ by {}
        }
        r
    }

    /// Reads `file` as delimited text with a header row and turns its rows
    /// into records; a row shorter than the header has `Null` for its
    /// missing cells. Fails when the delimiter is not a single byte, when
    /// the reader rejects the text, or when a row is longer than the header.
    pub fn new<F: Fn(&str) -> u64>(file: &str, options: CsvOptions, decimal: &F) -> (r: Result<Self, CsvError>)
        requires
            forall|s: &str| decimal.requires((s,)),
        ensures
            options.delimiter as u32 > 255 ==> r == Err::<Self, CsvError>(CsvError::Delimiter),
            options.delimiter as u32 <= 255 ==> match csv_table(file@, options.delimiter as u32 as u8) {
                None => r == Err::<Self, CsvError>(CsvError::Parse),
                Some((h, rows)) => if has_ragged_row(h, rows) {
                    r == Err::<Self, CsvError>(CsvError::RaggedRow)
                } else {
                    r matches Ok(t) && t.records().len() == rows.len() && forall|i: int|
                        0 <= i < rows.len() ==> record_of(*decimal, h, rows[i], #[trigger] t.records()[i])
                },
            },
    {
        if options.delimiter as u32 > 255 {
            return Err(CsvError::Delimiter);
        }
        let delimiter = options.delimiter as u32 as u8;
        match read_table(file, delimiter) {
            Ok((headers, rows)) => {
                let ghost rv = rows@;
                let ghost table = (strs_view(headers@), rows_view(rv));
                proof {
                    assert forall|i: int| 0 <= i < rv.len() implies rows_view(rv)[i] == strs_view(rv[i]@) by {}
                }
                let mut i: usize = 0;
                while i < rows.len()
                    invariant
                        i <= rows.len(),
                        rows@ == rv,
                        table == (strs_view(headers@), rows_view(rv)),
                        options.delimiter as u32 <= 255,
                        delimiter == options.delimiter as u32 as u8,
                        csv_table(file@, delimiter) == Some(table),
                        forall|j: int| 0 <= j < i ==> (#[trigger] rv[j]).len() <= headers.len(),
                    decreases rows.len() - i,
                {
                    if rows[i].len() > headers.len() {
                        proof {
                            assert(rows_view(rv)[i as int] == strs_view(rv[i as int]@));
                            assert(table.1[i as int].len() > table.0.len());
                            assert(has_ragged_row(table.0, table.1));
                        }
                        return Err(CsvError::RaggedRow);
                    }
                    i += 1;
                }
                proof {
                    assert(!has_ragged_row(table.0, table.1)) by {
                        if has_ragged_row(table.0, table.1) {
                            let j = choose|j: int| 0 <= j < table.1.len() && #[trigger] table.1[j].len() > table.0.len();
                            assert(table.1[j] == strs_view(rv[j]@));
                        }
                    }
                }
                let t = Self::from_rows(headers, rows, decimal);
                Ok(t)
            },
            Err(_) => Err(CsvError::Parse),
        }
    }
}

/// `d` is the object whose fields are those of `rec`, in order, each
/// value a literal.
pub open spec fn object_of_record(d: DataValues, rec: Seq<(String, Literals)>) -> bool {
    match d {
        DataValues::Object(f) => f@.len() == rec.len() && forall|k: int|
            0 <= k < f@.len() ==> (#[trigger] f@[k]).0 == rec[k].0 && f@[k].1 == DataValues::Literal(
                rec[k].1,
            ),
        _ => false,
    }
}

impl Filetype for CsvFileType {
    /// An array with one object per record, each field a literal.
    fn to_object(self) -> (r: DataValues)
        ensures
            r.wf(),
            r matches DataValues::Array(v) && v@.len() == self.records().len() && forall|i: int|
                0 <= i < v@.len() ==> object_of_record(#[trigger] v@[i], self.records()[i]),
    {
        proof {
            use_type_invariant(&self);
        }
        let ghost recs = self.records();
        let CsvFileType { objects } = self;
        let ghost ov = objects@;
        let mut rest = objects;
        let mut out: Vec<DataValues> = Vec::new();
        while rest.len() > 0
            invariant
                out@.len() + rest@.len() == ov.len(),
                rest@ == ov.subrange(out@.len() as int, ov.len() as int),
                recs == ov.map_values(|v: Vec<(String, Literals)>| v@),
                forall|i: int| 0 <= i < ov.len() ==> names_unique(#[trigger] ov[i]@),
                forall|i: int| 0 <= i < out@.len() ==> object_of_record(#[trigger] out@[i], recs[i]),
                forall|i: int| 0 <= i < out@.len() ==> (#[trigger] out@[i]).wf(),
            decreases rest.len(),
        {
            let ghost idx = out@.len() as int;
            let mut rec = rest.remove(0);
            let ghost rv = rec@;
            let mut fields: Vec<(String, DataValues)> = Vec::new();
            while rec.len() > 0
                invariant
                    fields@.len() + rec@.len() == rv.len(),
                    rec@ == rv.subrange(fields@.len() as int, rv.len() as int),
                    forall|k: int|
                        0 <= k < fields@.len() ==> (#[trigger] fields@[k]).0 == rv[k].0 && fields@[k].1
                            == DataValues::Literal(rv[k].1),
                decreases rec.len(),
            {
                let (name, value) = rec.remove(0);
                fields.push((name, DataValues::Literal(value)));
            }
            proof {
                assert(rv == ov[idx]@);
                assert(names_unique(rv));
                assert(field_names_unique(fields@));
                assert forall|k: int| 0 <= k < fields@.len() implies (#[trigger] fields@[k]).1.wf() by {
                    assert(fields@[k].1 == DataValues::Literal(rv[k].1));
                }
            }
            let obj = DataValues::Object(fields);
            proof {
                assert(obj.wf());
            }
            out.push(obj);
        }
        DataValues::Array(out)
    }
}

} // verus!
