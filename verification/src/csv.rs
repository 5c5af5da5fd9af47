//! Delimited text: lines, records and their fields, and the table of named
//! columns that a text denotes.

use crate::dataframe::{find_name, first_index, DataFrame, LoadError, ReadError};
use crate::decimal::{parse_i64, parse_i64_chars};
use crate::header::{distinct, lemma_normalized_distinct, normalize_names, normalized};
use crate::text::{
    chars_of, is_blank, replace_char, replaced, split, split_ranges, string_of, strip, strip_range,
    trim, without, without_char, CharClass,
};
use vstd::prelude::*;

verus! {

/// The character between two fields of a record.
pub const SEPARATOR: char = ',';

/// The lines of `text`: its pieces between line feeds, without the empty
/// piece that follows the last line feed or stands for an empty text.
pub open spec fn lines(text: Seq<char>) -> Seq<Seq<char>> {
    let pieces = split(text, '\n');
    if pieces.last().len() == 0 {
        pieces.drop_last()
    } else {
        pieces
    }
}

/// No line holds a line feed.
pub proof fn lemma_lines(text: Seq<char>)
    ensures
        forall|k: int| 0 <= k < lines(text).len() ==> !(#[trigger] lines(text)[k]).contains('\n'),
{
    crate::text::lemma_split(text, '\n');
    assert forall|k: int| 0 <= k < lines(text).len() implies !(#[trigger] lines(text)[k]).contains(
        '\n',
    ) by {
        assert(lines(text)[k] == split(text, '\n')[k]);
    }
}

/// The fields of `line`: its pieces between separators, each trimmed.
pub open spec fn fields(line: Seq<char>) -> Seq<Seq<char>> {
    let pieces = split(line, SEPARATOR);
    Seq::new(pieces.len(), |i: int| trim(pieces[i]))
}

/// The records of `lines`: the fields of each line that is not blank.
pub open spec fn records(lines: Seq<Seq<char>>) -> Seq<Seq<Seq<char>>>
    decreases lines.len(),
{
    if lines.len() == 0 {
        Seq::<Seq<Seq<char>>>::empty()
    } else if is_blank(lines.last()) {
        records(lines.drop_last())
    } else {
        records(lines.drop_last()).push(fields(lines.last()))
    }
}

/// The fields of `v[lo..hi]`.
pub fn fields_of(v: &Vec<char>, lo: usize, hi: usize) -> (r: Vec<String>)
    requires
        lo <= hi <= v.len(),
    ensures
        r.deep_view() == fields(v@.subrange(lo as int, hi as int)),
{
    let ranges = split_ranges(v, lo, hi, SEPARATOR);
    let ghost pieces = split(v@.subrange(lo as int, hi as int), SEPARATOR);
    let mut r: Vec<String> = Vec::new();
    let mut i: usize = 0;
    while i < ranges.len()
        invariant
            i <= ranges.len() == pieces.len(),
            r@.len() == i,
            forall|k: int| 0 <= k < i ==> (#[trigger] r@[k])@ == trim(pieces[k]),
            forall|k: int|
                0 <= k < ranges@.len() ==> (#[trigger] ranges@[k]).0 <= ranges@[k].1 <= v.len()
                    && v@.subrange(ranges@[k].0 as int, ranges@[k].1 as int) == pieces[k],
        decreases ranges.len() - i,
    {
        let (a, b) = ranges[i];
        let (c, d) = strip_range(v, a, b, CharClass::Whitespace);
        r.push(string_of(v, c, d));
        i += 1;
    }
    assert(r.deep_view() =~= fields(v@.subrange(lo as int, hi as int)));
    r
}

/// The bounds within `v` of the lines of the text `v`.
pub fn line_ranges(v: &Vec<char>) -> (r: Vec<(usize, usize)>)
    ensures
        r@.len() == lines(v@).len(),
        forall|k: int|
            0 <= k < r@.len() ==> (#[trigger] r@[k]).0 <= r@[k].1 <= v.len() && v@.subrange(
                r@[k].0 as int,
                r@[k].1 as int,
            ) == lines(v@)[k],
{
    let mut r = split_ranges(v, 0, v.len(), '\n');
    assert(v@.subrange(0, v.len() as int) =~= v@);
    let (a, b) = r[r.len() - 1];
    if a == b {
        r.pop();
    }
    r
}

/// The records of the lines of `v` from line `from` on, given the bounds of
/// all its lines.
pub fn records_of(v: &Vec<char>, bounds: &Vec<(usize, usize)>, from: usize) -> (rows: Vec<
    Vec<String>,
>)
    requires
        from <= bounds.len(),
        forall|k: int|
            0 <= k < bounds@.len() ==> (#[trigger] bounds@[k]).0 <= bounds@[k].1 <= v.len(),
    ensures
        rows.deep_view() == records(
            Seq::new(
                (bounds@.len() - from) as nat,
                |k: int| v@.subrange(bounds@[from + k].0 as int, bounds@[from + k].1 as int),
            ),
        ),
{
    let ghost all = Seq::new(
        (bounds@.len() - from) as nat,
        |k: int| v@.subrange(bounds@[from + k].0 as int, bounds@[from + k].1 as int),
    );
    let mut rows: Vec<Vec<String>> = Vec::new();
    let mut i: usize = from;
    assert(all.take(0) =~= Seq::<Seq<char>>::empty());
    assert(rows.deep_view() =~= Seq::<Seq<Seq<char>>>::empty());
    while i < bounds.len()
        invariant
            from <= i <= bounds.len(),
            all.len() == bounds@.len() - from,
            forall|k: int|
                0 <= k < all.len() ==> #[trigger] all[k] == v@.subrange(
                    bounds@[from + k].0 as int,
                    bounds@[from + k].1 as int,
                ),
            forall|k: int|
                0 <= k < bounds@.len() ==> (#[trigger] bounds@[k]).0 <= bounds@[k].1 <= v.len(),
            rows.deep_view() == records(all.take(i - from)),
        decreases bounds.len() - i,
    {
        let (a, b) = bounds[i];
        let (c, d) = strip_range(v, a, b, CharClass::Whitespace);
        let ghost line = v@.subrange(a as int, b as int);
        let ghost before = rows.deep_view();
        proof {
            assert(all.take(i - from + 1).drop_last() =~= all.take(i - from));
            assert(all.take(i - from + 1).last() == line);
        }
        if c != d {
            let row = fields_of(v, a, b);
            rows.push(row);
            assert(rows.deep_view() =~= before.push(fields(line)));
        }
        i += 1;
    }
    assert(all.take(all.len() as int) =~= all);
    rows
}

/// The length of the longest of `rows`; zero where there is none.
pub open spec fn widest(rows: Seq<Seq<Seq<char>>>) -> nat
    decreases rows.len(),
{
    if rows.len() == 0 {
        0
    } else if rows.last().len() >= widest(rows.drop_last()) {
        rows.last().len()
    } else {
        widest(rows.drop_last())
    }
}

/// `header`, with empty names added at its end until it has `width` names.
pub open spec fn padded(header: Seq<Seq<char>>, width: nat) -> Seq<Seq<char>> {
    if header.len() >= width {
        header
    } else {
        header + Seq::new((width - header.len()) as nat, |i: int| Seq::<char>::empty())
    }
}

/// The field of `row` at position `c`; the empty text where the row is too
/// short to have one.
pub open spec fn cell(row: Seq<Seq<char>>, c: int) -> Seq<char> {
    if 0 <= c < row.len() {
        row[c]
    } else {
        Seq::<char>::empty()
    }
}

/// The column at position `c`: that cell of every row.
pub open spec fn column(rows: Seq<Seq<Seq<char>>>, c: int) -> Seq<Seq<char>> {
    Seq::new(rows.len(), |r: int| cell(rows[r], c))
}

/// The number of columns of the table made of `header` and `rows`: that of
/// its widest line.
pub open spec fn table_width(header: Seq<Seq<char>>, rows: Seq<Seq<Seq<char>>>) -> nat {
    if header.len() >= widest(rows) {
        header.len()
    } else {
        widest(rows)
    }
}

/// The column names of the table made of `header` and `rows`.
pub open spec fn table_names(header: Seq<Seq<char>>, rows: Seq<Seq<Seq<char>>>) -> Seq<
    Seq<char>,
> {
    normalized(padded(header, widest(rows)))
}

/// The columns of the table made of `header` and `rows`.
pub open spec fn table_columns(header: Seq<Seq<char>>, rows: Seq<Seq<Seq<char>>>) -> Seq<
    Seq<Seq<char>>,
> {
    Seq::new(table_width(header, rows), |c: int| column(rows, c))
}

/// The raw header of a text: the names that were given, else the fields of
/// the first line. `None` where neither is there.
pub open spec fn raw_header(text: Seq<char>, given: Option<Seq<Seq<char>>>) -> Option<
    Seq<Seq<char>>,
> {
    match given {
        Some(names) => Some(names),
        None => if lines(text).len() == 0 {
            None
        } else {
            Some(fields(lines(text)[0]))
        },
    }
}

/// The lines of a text that hold its data: all of them where the names were
/// given, else all but the first.
pub open spec fn data_lines(text: Seq<char>, given: Option<Seq<Seq<char>>>) -> Seq<Seq<char>> {
    match given {
        Some(_) => lines(text),
        None => lines(text).skip(1),
    }
}

/// The length of the longest of `columns`; zero where there is none.
pub open spec fn longest(columns: Seq<Seq<Seq<char>>>) -> nat
    decreases columns.len(),
{
    if columns.len() == 0 {
        0
    } else if columns.last().len() >= longest(columns.drop_last()) {
        columns.last().len()
    } else {
        longest(columns.drop_last())
    }
}

/// The longest of `columns` is at least as long as each of them.
pub proof fn lemma_longest_bounds(columns: Seq<Seq<Seq<char>>>, c: int)
    requires
        0 <= c < columns.len(),
    ensures
        columns[c].len() <= longest(columns),
    decreases columns.len(),
{
    if c < columns.len() - 1 {
        lemma_longest_bounds(columns.drop_last(), c);
    }
}

/// Columns that all have `n` cells have `n` for their longest; so has no
/// column at all, for `n` zero.
pub proof fn lemma_longest_of_equal(columns: Seq<Seq<Seq<char>>>, n: nat)
    requires
        forall|c: int| 0 <= c < columns.len() ==> (#[trigger] columns[c]).len() == n,
        columns.len() > 0 || n == 0,
    ensures
        longest(columns) == n,
    decreases columns.len(),
{
    if columns.len() > 1 {
        lemma_longest_of_equal(columns.drop_last(), n);
    } else if columns.len() == 1 {
        assert(longest(columns.drop_last()) == 0);
    }
}

/// Every record has a field, so a table with records has a column.
pub proof fn lemma_records_have_fields(lines: Seq<Seq<char>>)
    ensures
        forall|r: int| 0 <= r < records(lines).len() ==> (#[trigger] records(lines)[r]).len() > 0,
        records(lines).len() > 0 ==> widest(records(lines)) > 0,
    decreases lines.len(),
{
    if lines.len() > 0 {
        lemma_records_have_fields(lines.drop_last());
    }
}

/// The table made of a header and the records of some lines is a proper
/// one: a name for each column and none twice, every column as long as
/// there are records, and that many rows.
pub proof fn lemma_table_shape(header: Seq<Seq<char>>, lines: Seq<Seq<char>>)
    ensures
        table_names(header, records(lines)).len() == table_columns(header, records(lines)).len(),
        distinct(table_names(header, records(lines))),
        forall|c: int|
            0 <= c < table_columns(header, records(lines)).len() ==> (#[trigger] table_columns(
                header,
                records(lines),
            )[c]).len() == records(lines).len(),
        longest(table_columns(header, records(lines))) == records(lines).len(),
{
    let rows = records(lines);
    lemma_normalized_distinct(padded(header, widest(rows)));
    lemma_records_have_fields(lines);
    lemma_longest_of_equal(table_columns(header, rows), rows.len());
}

/// The length of the longest of `rows`.
pub fn widest_of(rows: &Vec<Vec<String>>) -> (w: usize)
    ensures
        w == widest(rows.deep_view()),
{
    let mut w: usize = 0;
    let mut i: usize = 0;
    assert(rows.deep_view().take(0) =~= Seq::<Seq<Seq<char>>>::empty());
    while i < rows.len()
        invariant
            i <= rows.len(),
            w == widest(rows.deep_view().take(i as int)),
        decreases rows.len() - i,
    {
        proof {
            assert(rows.deep_view().take(i + 1).drop_last() =~= rows.deep_view().take(i as int));
            assert(rows.deep_view().take(i + 1).last().len() == rows@[i as int].len());
        }
        if rows[i].len() >= w {
            w = rows[i].len();
        }
        i += 1;
    }
    assert(rows.deep_view().take(rows.len() as int) =~= rows.deep_view());
    w
}

/// The column at position `c` of `rows`.
pub fn column_of(rows: &Vec<Vec<String>>, c: usize) -> (col: Vec<String>)
    ensures
        col.deep_view() == column(rows.deep_view(), c as int),
{
    let mut col: Vec<String> = Vec::new();
    let mut r: usize = 0;
    while r < rows.len()
        invariant
            r <= rows.len(),
            col@.len() == r,
            forall|k: int| 0 <= k < r ==> (#[trigger] col@[k])@ == cell(rows.deep_view()[k], c as int),
        decreases rows.len() - r,
    {
        let row = &rows[r];
        assert(rows.deep_view()[r as int] == row.deep_view());
        if c < row.len() {
            col.push(row[c].clone());
        } else {
            col.push(String::new());
        }
        r += 1;
    }
    assert(col.deep_view() =~= column(rows.deep_view(), c as int));
    col
}

/// A table read from delimited text: named columns of raw text, in the
/// order of the header.
pub struct CsvDataFrame {
    column_order: Vec<String>,
    column_data: Vec<Vec<String>>,
}

impl CsvDataFrame {
    #[verifier::type_invariant]
    spec fn well_formed(&self) -> bool {
        &&& self.column_order@.len() == self.column_data@.len()
        &&& distinct(self.column_order.deep_view())
    }

    /// The cells of each column, in the order of the names.
    pub closed spec fn columns(&self) -> Seq<Seq<Seq<char>>> {
        self.column_data.deep_view()
    }
}

/// Adds empty names to `header` until it has `width` of them.
pub fn pad_header(header: &mut Vec<String>, width: usize)
    ensures
        final(header).deep_view() == padded(old(header).deep_view(), width as nat),
{
    let ghost raw = header.deep_view();
    while header.len() < width
        invariant
            raw.len() <= header.len(),
            header.len() <= width || header.len() == raw.len(),
            forall|i: int| 0 <= i < raw.len() ==> (#[trigger] header@[i])@ == raw[i],
            forall|i: int| raw.len() <= i < header.len() ==> (#[trigger] header@[i])@.len() == 0,
        decreases width - header.len(),
    {
        header.push(String::new());
    }
    assert(header.deep_view() =~~= padded(raw, width as nat));
}

/// Reads delimited text into a table. The column names are those given, or
/// else the fields of the first line; every other line that is not blank is
/// a record. The table has as many columns as the widest of the header and
/// the records: names are added for columns that the header does not name,
/// and records that are shorter are filled up with empty cells.
pub fn read_csv(text: &str, column_names: Option<Vec<String>>) -> (r: Result<
    CsvDataFrame,
    LoadError,
>)
    ensures
        match raw_header(text@, column_names.deep_view()) {
            None => r == Err::<CsvDataFrame, LoadError>(LoadError::EmptyInput),
            Some(header) => {
                let rows = records(data_lines(text@, column_names.deep_view()));
                &&& r matches Ok(df)
                &&& df.names() == table_names(header, rows)
                &&& df.columns() == table_columns(header, rows)
                &&& df.rows() == rows.len()
                &&& distinct(df.names())
            },
        },
{
    let v = chars_of(text);
    let bounds = line_ranges(&v);
    let ghost given = column_names.deep_view();
    let mut header: Vec<String>;
    let from: usize;
    match column_names {
        Some(names) => {
            header = names;
            from = 0;
        },
        None => {
            if bounds.len() == 0 {
                return Err(LoadError::EmptyInput);
            }
            let (a, b) = bounds[0];
            header = fields_of(&v, a, b);
            from = 1;
        },
    }
    let ghost raw = header.deep_view();
    assert(raw_header(text@, given) == Some(raw));
    let rows = records_of(&v, &bounds, from);
    proof {
        assert(Seq::new(
            (bounds@.len() - from) as nat,
            |k: int| v@.subrange(bounds@[from + k].0 as int, bounds@[from + k].1 as int),
        ) =~= data_lines(text@, given));
    }
    let width = widest_of(&rows);
    pad_header(&mut header, width);
    normalize_names(&mut header);
    proof {
        lemma_normalized_distinct(padded(raw, width as nat));
    }
    let mut data: Vec<Vec<String>> = Vec::new();
    let mut c: usize = 0;
    while c < header.len()
        invariant
            c <= header.len(),
            data@.len() == c,
            forall|k: int| 0 <= k < c ==> (#[trigger] data@[k]).deep_view() == column(rows.deep_view(), k),
        decreases header.len() - c,
    {
        data.push(column_of(&rows, c));
        c += 1;
    }
    assert(data.deep_view() =~= table_columns(raw, rows.deep_view()));
    proof {
        lemma_table_shape(raw, data_lines(text@, given));
    }
    Ok(CsvDataFrame { column_order: header, column_data: data })
}

/// A copy of `names`.
pub fn copy_names(names: &Vec<String>) -> (r: Vec<String>)
    ensures
        r.deep_view() == names.deep_view(),
{
    let mut r: Vec<String> = Vec::new();
    let mut i: usize = 0;
    while i < names.len()
        invariant
            i <= names.len(),
            r@.len() == i,
            forall|k: int| 0 <= k < i ==> (#[trigger] r@[k])@ == names@[k]@,
        decreases names.len() - i,
    {
        r.push(names[i].clone());
        i += 1;
    }
    assert(r.deep_view() =~= names.deep_view());
    r
}

impl DataFrame for CsvDataFrame {
    closed spec fn names(&self) -> Seq<Seq<char>> {
        self.column_order.deep_view()
    }

    /// The length of the longest column.
    open spec fn rows(&self) -> nat {
        longest(self.columns())
    }

    /// Every column holds raw text, whatever it may be read as.
    open spec fn types(&self) -> Seq<(Seq<char>, Seq<char>)> {
        Seq::new(self.names().len(), |i: int| (self.names()[i], "string"@))
    }

    fn shape(&self) -> (r: (usize, usize)) {
        proof {
            use_type_invariant(self);
        }
        let mut rows: usize = 0;
        let mut i: usize = 0;
        assert(self.columns().take(0) =~= Seq::<Seq<Seq<char>>>::empty());
        while i < self.column_data.len()
            invariant
                i <= self.column_data.len(),
                rows == longest(self.columns().take(i as int)),
            decreases self.column_data.len() - i,
        {
            proof {
                assert(self.columns().take(i + 1).drop_last() =~= self.columns().take(i as int));
                assert(self.columns().take(i + 1).last().len() == self.column_data@[i as int].len());
            }
            if self.column_data[i].len() >= rows {
                rows = self.column_data[i].len();
            }
            i += 1;
        }
        assert(self.columns().take(self.column_data.len() as int) =~= self.columns());
        (rows, self.column_order.len())
    }

    fn column_names(&self) -> (r: Vec<String>) {
        copy_names(&self.column_order)
    }

    fn column_types(&self) -> (r: Vec<(String, String)>) {
        let mut r: Vec<(String, String)> = Vec::new();
        let mut i: usize = 0;
        while i < self.column_order.len()
            invariant
                i <= self.column_order.len(),
                r@.len() == i,
                forall|k: int|
                    0 <= k < i ==> (#[trigger] r@[k]).0@ == self.column_order@[k]@ && r@[k].1@
                        == "string"@,
            decreases self.column_order.len() - i,
        {
            r.push((self.column_order[i].clone(), "string".to_string()));
            i += 1;
        }
        assert(r.deep_view() =~= self.types());
        r
    }
}

/// The text of a cell as it is read for a number: trimmed, then without the
/// double quotes around it.
pub open spec fn unquoted(s: Seq<char>) -> Seq<char> {
    strip(trim(s), CharClass::Quote)
}

/// The integer that a cell stands for: what its unquoted text denotes once
/// the underscores are taken out, and zero where that is no integer.
pub open spec fn lossy_i64(s: Seq<char>) -> i64 {
    match parse_i64(without(unquoted(s), '_')) {
        Some(v) => v,
        None => 0,
    }
}

/// Reads a cell as an integer. This never fails: a cell that is empty or
/// that does not denote a signed 64-bit integer reads as zero.
pub fn parse_i64_lossy(s: &str) -> (r: i64)
    ensures
        r == lossy_i64(s@),
{
    let v = chars_of(s);
    let (a, b) = strip_range(&v, 0, v.len(), CharClass::Whitespace);
    let (c, d) = strip_range(&v, a, b, CharClass::Quote);
    assert(v@.subrange(0, v.len() as int) =~= v@);
    let t = without_char(&v, c, d, '_');
    match parse_i64_chars(&t) {
        Some(x) => x,
        None => 0,
    }
}

/// The text of a cell that is to be read as a floating-point number, or
/// `None` where the cell holds none and stands for a missing value.
pub fn float_literal(s: &str) -> (r: Option<String>)
    ensures
        match r {
            Some(t) => t@ == unquoted(s@) && t@.len() > 0,
            None => unquoted(s@).len() == 0,
        },
{
    let v = chars_of(s);
    let (a, b) = strip_range(&v, 0, v.len(), CharClass::Whitespace);
    let (c, d) = strip_range(&v, a, b, CharClass::Quote);
    assert(v@.subrange(0, v.len() as int) =~= v@);
    if c == d {
        None
    } else {
        Some(string_of(&v, c, d))
    }
}

/// A number written with a decimal comma, rewritten with a decimal point:
/// `t` with every comma turned into a full stop.
pub fn with_decimal_points(t: &str) -> (r: String)
    ensures
        r@ == replaced(t@, ',', '.'),
{
    let v = chars_of(t);
    let w = replace_char(&v, 0, v.len(), ',', '.');
    assert(v@.subrange(0, v.len() as int) =~= v@);
    let r = string_of(&w, 0, w.len());
    assert(w@.subrange(0, w.len() as int) =~= w@);
    r
}

/// The cells of a column, each read as an integer.
pub open spec fn as_integers(cells: Seq<Seq<char>>) -> Seq<i64> {
    Seq::new(cells.len(), |i: int| lossy_i64(cells[i]))
}

/// The position of the column that serves as the index: the one named
/// `timestamp`, else the one named `index`, else the first. `None` for a
/// table without columns.
pub open spec fn index_position(names: Seq<Seq<char>>) -> Option<int> {
    if names.len() == 0 {
        None
    } else if first_index(names, "timestamp"@) is Some {
        first_index(names, "timestamp"@)
    } else if first_index(names, "index"@) is Some {
        first_index(names, "index"@)
    } else {
        Some(0)
    }
}

impl CsvDataFrame {
    /// The cells of the column at position `c`, each read as an integer.
    fn integers_at(&self, c: usize) -> (r: Vec<i64>)
        requires
            c < self.columns().len(),
        ensures
            r@ == as_integers(self.columns()[c as int]),
    {
        let cells = &self.column_data[c];
        let mut r: Vec<i64> = Vec::new();
        let mut i: usize = 0;
        while i < cells.len()
            invariant
                i <= cells.len(),
                r@.len() == i,
                forall|k: int| 0 <= k < i ==> #[trigger] r@[k] == lossy_i64(cells@[k]@),
            decreases cells.len() - i,
        {
            r.push(parse_i64_lossy(cells[i].as_str()));
            i += 1;
        }
        assert(r@ =~= as_integers(cells.deep_view()));
        r
    }

    /// The raw text of each cell of the column named `column_name`.
    pub fn read_column_string(&self, column_name: &str) -> (r: Result<Vec<String>, ReadError>)
        ensures
            match first_index(self.names(), column_name@) {
                Some(c) => r matches Ok(cells) && cells.deep_view() == self.columns()[c],
                None => r == Err::<Vec<String>, ReadError>(ReadError::ColumnNotFound),
            },
    {
        proof {
            use_type_invariant(self);
        }
        match find_name(&self.column_order, column_name) {
            Some(c) => Ok(copy_names(&self.column_data[c])),
            None => Err(ReadError::ColumnNotFound),
        }
    }

    /// The cells of the column named `column_name`, each read as an integer.
    pub fn read_column_i64(&self, column_name: &str) -> (r: Result<Vec<i64>, ReadError>)
        ensures
            match first_index(self.names(), column_name@) {
                Some(c) => r matches Ok(values) && values@ == as_integers(self.columns()[c]),
                None => r == Err::<Vec<i64>, ReadError>(ReadError::ColumnNotFound),
            },
    {
        proof {
            use_type_invariant(self);
        }
        match find_name(&self.column_order, column_name) {
            Some(c) => Ok(self.integers_at(c)),
            None => Err(ReadError::ColumnNotFound),
        }
    }

    /// The index column, each cell read as an integer number of
    /// microseconds; nothing for a table without columns.
    pub fn read_index_microsecond(&self) -> (r: Vec<i64>)
        ensures
            r@ == match index_position(self.names()) {
                Some(c) => as_integers(self.columns()[c]),
                None => Seq::<i64>::empty(),
            },
    {
        proof {
            use_type_invariant(self);
        }
        if self.column_order.len() == 0 {
            return Vec::new();
        }
        let c: usize = match find_name(&self.column_order, "timestamp") {
            Some(c) => c,
            None => match find_name(&self.column_order, "index") {
                Some(c) => c,
                None => 0,
            },
        };
        self.integers_at(c)
    }
}

} // verus!
