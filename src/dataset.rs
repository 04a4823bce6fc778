use crate::column::ColumnStats;
use crate::num::{words_for, Num, MAX_PREC, MIN_PREC};
use crate::text::{filter_lines, filtered_lines, join_lines, joined, views};
use vstd::prelude::*;

verus! {

/// csv's error, carried opaque until it becomes a message.
#[verifier::external_type_specification]
#[verifier::external_body]
pub struct ExCsvError(csv::Error);

/// The records of `text` read as comma-separated rows, each as its fields,
/// or `None` where the text is malformed.
pub uninterp spec fn csv_records(text: Seq<char>) -> Option<Seq<Seq<Seq<char>>>>;

pub open spec fn record_views(rows: Seq<Vec<String>>) -> Seq<Seq<Seq<char>>> {
    rows.map_values(|r: Vec<String>| views(r@))
}

/// Relies on csv's `Reader`, without a header row and with rows of any
/// length: every record of `text` with its fields as strings, or the first error.
#[verifier::external_body]
fn read_records(text: &str) -> (r: Result<Vec<Vec<String>>, csv::Error>)
    ensures
        r is Ok <==> csv_records(text@) is Some,
        r matches Ok(rows) ==> record_views(rows@) == csv_records(text@)->0,
{
    let mut reader = csv::ReaderBuilder::new().has_headers(false).flexible(true).from_reader(
        text.as_bytes(),
    );
    reader.records().map(|rec| rec.map(|rec| rec.iter().map(|f| f.to_string()).collect())).collect()
}

/// Relies on csv's `Display` for `Error`, for the message of a malformed file.
#[verifier::external_body]
fn csv_message(e: &csv::Error) -> String {
    e.to_string()
}

/// Why a file gives no dataset.
pub enum DataError {
    /// The row reader found the text malformed; its message.
    Malformed(String),
    /// A header names two columns alike; the name.
    DuplicateColumn(String),
}

/// The characters of a decimal digit.
pub open spec fn digit_char(d: nat) -> char {
    if d == 0 {
        '0'
    } else if d == 1 {
        '1'
    } else if d == 2 {
        '2'
    } else if d == 3 {
        '3'
    } else if d == 4 {
        '4'
    } else if d == 5 {
        '5'
    } else if d == 6 {
        '6'
    } else if d == 7 {
        '7'
    } else if d == 8 {
        '8'
    } else {
        '9'
    }
}

/// `n` in decimal, without leading zeros.
pub open spec fn decimal_text(n: nat) -> Seq<char>
    decreases n,
{
    if n < 10 {
        seq![digit_char(n)]
    } else {
        decimal_text(n / 10).push(digit_char(n % 10))
    }
}

fn digit_str(d: usize) -> (r: &'static str)
    requires
        d < 10,
    ensures
        r@ == seq![digit_char(d as nat)],
{
    proof {
        reveal_strlit("0");
        reveal_strlit("1");
        reveal_strlit("2");
        reveal_strlit("3");
        reveal_strlit("4");
        reveal_strlit("5");
        reveal_strlit("6");
        reveal_strlit("7");
        reveal_strlit("8");
        reveal_strlit("9");
    }
    if d == 0 {
        "0"
    } else if d == 1 {
        "1"
    } else if d == 2 {
        "2"
    } else if d == 3 {
        "3"
    } else if d == 4 {
        "4"
    } else if d == 5 {
        "5"
    } else if d == 6 {
        "6"
    } else if d == 7 {
        "7"
    } else if d == 8 {
        "8"
    } else {
        "9"
    }
}

/// `n` in decimal.
pub fn decimal(n: usize) -> (r: String)
    ensures
        r@ == decimal_text(n as nat),
    decreases n,
{
    if n < 10 {
        String::from_str(digit_str(n))
    } else {
        let mut r = decimal(n / 10);
        r.append(digit_str(n % 10));
        r
    }
}

/// The names of the columns: the first record's fields where a header is
/// declared, else the positions `1`, `2`, ... of the first record's fields.
pub open spec fn column_names(records: Seq<Seq<Seq<char>>>, has_header: bool) -> Seq<Seq<char>> {
    if records.len() == 0 {
        Seq::empty()
    } else if has_header {
        records[0]
    } else {
        Seq::new(records[0].len(), |i: int| decimal_text((i + 1) as nat))
    }
}

/// The records that hold data: all but a declared header.
pub open spec fn data_records(records: Seq<Seq<Seq<char>>>, has_header: bool) -> Seq<Seq<Seq<char>>> {
    if has_header && records.len() > 0 {
        records.drop_first()
    } else {
        records
    }
}

/// The records of a file's lines: those after the first `skip` that are
/// neither blank nor comments, joined and read as comma-separated rows.
pub open spec fn file_records(lines: Seq<Seq<char>>, skip: nat, comment: char) -> Option<Seq<Seq<Seq<char>>>> {
    csv_records(joined(filtered_lines(lines, skip, comment)))
}

/// The column names and the data rows of a file, as text.
pub struct Table {
    pub names: Vec<String>,
    pub rows: Vec<Vec<String>>,
}

fn copy_strings(s: &Vec<String>) -> (r: Vec<String>)
    ensures
        views(r@) == views(s@),
{
    let mut r: Vec<String> = Vec::new();
    let mut i: usize = 0;
    while i < s.len()
        invariant
            i <= s@.len(),
            views(r@) == views(s@).subrange(0, i as int),
        decreases s@.len() - i,
    {
        let ghost before = r@;
        r.push(s[i].clone());
        assert(views(r@) =~= views(before).push(s@[i as int]@));
        assert(views(s@).subrange(0, i + 1) =~= views(s@).subrange(0, i as int).push(s@[i as int]@));
        i += 1;
    }
    assert(views(s@).subrange(0, i as int) =~= views(s@));
    r
}

/// Splits a file's records into column names and data rows.
pub fn split_records(records: Vec<Vec<String>>, has_header: bool) -> (t: Table)
    ensures
        views(t.names@) == column_names(record_views(records@), has_header),
        record_views(t.rows@) == data_records(record_views(records@), has_header),
{
    let ghost recs = record_views(records@);
    if records.len() == 0 {
        let names: Vec<String> = Vec::new();
        assert(views(names@) =~= Seq::<Seq<char>>::empty());
        return Table { names, rows: records };
    }
    if has_header {
        let names = copy_strings(&records[0]);
        let mut rows: Vec<Vec<String>> = Vec::new();
        let mut i: usize = 1;
        while i < records.len()
            invariant
                1 <= i <= records@.len(),
                recs == record_views(records@),
                record_views(rows@) == recs.subrange(1, i as int),
            decreases records@.len() - i,
        {
            let ghost before = rows@;
            rows.push(copy_strings(&records[i]));
            assert(record_views(rows@) =~= record_views(before).push(recs[i as int]));
            assert(recs.subrange(1, i + 1) =~= recs.subrange(1, i as int).push(recs[i as int]));
            i += 1;
        }
        assert(recs.subrange(1, i as int) =~= recs.drop_first());
        Table { names, rows }
    } else {
        let n = records[0].len();
        let ghost want = Seq::new(n as nat, |i: int| decimal_text((i + 1) as nat));
        let mut names: Vec<String> = Vec::new();
        let mut i: usize = 0;
        while i < n
            invariant
                i <= n,
                n == records@[0]@.len(),
                want == Seq::new(n as nat, |i: int| decimal_text((i + 1) as nat)),
                views(names@) == want.subrange(0, i as int),
            decreases n - i,
        {
            let ghost before = names@;
            names.push(decimal(i + 1));
            assert(views(names@) =~= views(before).push(want[i as int]));
            assert(want.subrange(0, i + 1) =~= want.subrange(0, i as int).push(want[i as int]));
            i += 1;
        }
        assert(want.subrange(0, i as int) =~= want);
        assert(recs[0].len() == n);
        Table { names, rows: records }
    }
}

/// Reads a file's lines into column names and data rows: the first `skip`
/// lines, blank lines and comment lines are dropped, the rest read as
/// comma-separated rows, whose first is the header where one is declared.
pub fn read_table(lines: &Vec<String>, skip: usize, comment: char, has_header: bool) -> (r: Result<Table, DataError>)
    ensures
        r is Err <==> file_records(views(lines@), skip as nat, comment) is None,
        r is Err ==> r matches Err(DataError::Malformed(_)),
        r matches Ok(t) ==> {
            let recs = file_records(views(lines@), skip as nat, comment)->0;
            &&& views(t.names@) == column_names(recs, has_header)
            &&& record_views(t.rows@) == data_records(recs, has_header)
        },
{
    let kept = filter_lines(lines, skip, comment);
    let text = join_lines(&kept);
    match read_records(text.as_str()) {
        Ok(records) => Ok(split_records(records, has_header)),
        Err(e) => Err(DataError::Malformed(csv_message(&e))),
    }
}

/// No two names alike.
pub open spec fn distinct(names: Seq<Seq<char>>) -> bool {
    forall|i: int, j: int| 0 <= i < j < names.len() ==> names[i] != names[j]
}

/// The numbers of column `i`, in row order: each row's cell at position `i`
/// that holds a number of `w` words. Rows too short for `i`, and cells that
/// did not parse, give nothing.
pub open spec fn column_cells(rows: Seq<Vec<Option<Num>>>, i: int, w: nat) -> Seq<(bool, Seq<u64>, i64)>
    decreases rows.len(),
{
    if rows.len() == 0 {
        Seq::empty()
    } else {
        let prev = column_cells(rows.drop_last(), i, w);
        let row = rows.last()@;
        if 0 <= i < row.len() && row[i] is Some && row[i]->0.wf(w) {
            prev.push(row[i]->0@)
        } else {
            prev
        }
    }
}

/// The cell at position `i` of a row, where the row has one.
pub open spec fn cell_at(row: Seq<Option<Num>>, i: int) -> Option<Option<Num>> {
    if 0 <= i < row.len() {
        Some(row[i])
    } else {
        None
    }
}

/// A column's values depend on its own cells alone: rows that agree at
/// position `i` give column `i` the same values, whatever their other cells
/// hold, parsed or not.
pub proof fn lemma_column_depends_on_own_cells(
    rows: Seq<Vec<Option<Num>>>,
    other: Seq<Vec<Option<Num>>>,
    i: int,
    w: nat,
)
    requires
        rows.len() == other.len(),
        forall|k: int| 0 <= k < rows.len() ==> cell_at(rows[k]@, i) == cell_at(#[trigger] other[k]@, i),
    ensures
        column_cells(rows, i, w) == column_cells(other, i, w),
    decreases rows.len(),
{
    if rows.len() > 0 {
        let n = rows.len() - 1;
        assert(cell_at(rows[n]@, i) == cell_at(other[n]@, i));
        lemma_column_depends_on_own_cells(rows.drop_last(), other.drop_last(), i, w);
    }
}

pub open spec fn value_views(s: Seq<Num>) -> Seq<(bool, Seq<u64>, i64)> {
    s.map_values(|n: Num| n@)
}

/// The index of a name that an earlier one equals, if any.
pub fn first_duplicate(names: &Vec<String>) -> (r: Option<usize>)
    ensures
        r is None <==> distinct(views(names@)),
        r matches Some(j) ==> j < names@.len(),
{
    let ghost v = views(names@);
    let mut j: usize = 0;
    while j < names.len()
        invariant
            j <= names@.len(),
            v == views(names@),
            forall|a: int, b: int| 0 <= a < b < j ==> v[a] != v[b],
        decreases names@.len() - j,
    {
        let mut i: usize = 0;
        while i < j
            invariant
                i <= j < names@.len(),
                v == views(names@),
                forall|a: int| 0 <= a < i ==> v[a] != v[j as int],
            decreases j - i,
        {
            if names[i] == names[j] {
                proof {
                    assert(v[i as int] == v[j as int]);
                }
                return Some(j);
            }
            i += 1;
        }
        j += 1;
    }
    None
}

/// One file's columns, in the order of their names.
pub struct Dataset {
    names: Vec<String>,
    columns: Vec<ColumnStats>,
}

impl Dataset {
    pub closed spec fn names_spec(&self) -> Seq<Seq<char>> {
        views(self.names@)
    }

    pub closed spec fn columns_spec(&self) -> Seq<ColumnStats> {
        self.columns@
    }

    /// Builds the columns named `names` from rows of parsed cells: a cell
    /// that holds a number of the precision's width is added to the column
    /// at its position; other cells, and cells past the last name, are skipped.
    /// Two names alike are refused.
    pub fn build(names: Vec<String>, rows: &Vec<Vec<Option<Num>>>, precision: u32) -> (r: Result<Dataset, DataError>)
        requires
            MIN_PREC <= precision <= MAX_PREC,
        ensures
            r is Err <==> !distinct(views(names@)),
            r is Err ==> r matches Err(DataError::DuplicateColumn(_)),
            r matches Ok(d) ==> {
                &&& d.names_spec() == views(names@)
                &&& d.columns_spec().len() == names@.len()
                &&& forall|i: int| 0 <= i < names@.len() ==> {
                    let c = #[trigger] d.columns_spec()[i];
                    &&& c.wf()
                    &&& c.precision_spec() == precision
                    &&& value_views(c.values_spec()) == column_cells(rows@, i, words_for(precision))
                }
            },
    {
        if let Some(j) = first_duplicate(&names) {
            return Err(DataError::DuplicateColumn(names[j].clone()));
        }
        let width: usize = ((precision as usize) + 63) / 64;
        let ghost w = width as nat;
        let mut columns: Vec<ColumnStats> = Vec::new();
        let mut i: usize = 0;
        while i < names.len()
            invariant
                i <= names@.len(),
                MIN_PREC <= precision <= MAX_PREC,
                w == width as nat,
                w == words_for(precision),
                columns@.len() == i,
                forall|k: int| 0 <= k < i ==> {
                    let c = #[trigger] columns@[k];
                    &&& c.wf()
                    &&& c.precision_spec() == precision
                    &&& value_views(c.values_spec()) == column_cells(rows@, k, w)
                },
            decreases names@.len() - i,
        {
            let mut c = ColumnStats::new(precision);
            assert(value_views(c.values_spec()) =~= column_cells(rows@.subrange(0, 0), i as int, w));
            let mut r: usize = 0;
            while r < rows.len()
                invariant
                    r <= rows@.len(),
                    i < names@.len(),
                    w == width as nat,
                    c.wf(),
                    c.precision_spec() == precision,
                    c.width_spec() == w,
                    c.values_spec().len() <= r,
                    value_views(c.values_spec()) == column_cells(rows@.subrange(0, r as int), i as int, w),
                decreases rows@.len() - r,
            {
                let ghost before = c.values_spec();
                let ghost prefix = rows@.subrange(0, r + 1);
                proof {
                    assert(prefix.drop_last() =~= rows@.subrange(0, r as int));
                    assert(prefix.last() == rows@[r as int]);
                }
                let row = &rows[r];
                if i < row.len() {
                    if let Some(n) = &row[i] {
                        if n.fits(width) {
                            c.add(n.duplicate());
                            assert(value_views(c.values_spec()) =~= value_views(before).push(n@));
                        }
                    }
                }
                r += 1;
            }
            assert(rows@.subrange(0, r as int) =~= rows@);
            columns.push(c);
            i += 1;
        }
        Ok(Dataset { names, columns })
    }

    pub fn names(&self) -> (r: &Vec<String>)
        ensures
            views(r@) == self.names_spec(),
    {
        &self.names
    }

    pub fn columns(&self) -> (r: &Vec<ColumnStats>)
        ensures
            r@ == self.columns_spec(),
    {
        &self.columns
    }
}

} // verus!
