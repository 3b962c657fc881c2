//! The record of one data row, the header of column labels, and their
//! rendering as fixed-width display lines.

use crate::logic::{Config, Lang};
use crate::number::{
    format_hundredths, format_isize, hundredths_literal, hundredths_text, isize_literal,
    parse_hundredths, parse_isize, signed_text,
};
use crate::text::{chars_of, string_of, string_views, views_of};
use vstd::prelude::*;
use vstd::std_specs::cmp::PartialEqSpecImpl;
use vstd::string::StringExecFns;
use vstd::utf8::encode_utf8;

verus! {

/// One row of the data set. The rate is held in hundredths, so that `1234`
/// stands for 12.34.
#[derive(Debug)]
pub struct DataRow {
    pub pruid: isize,
    pub prname: String,
    pub prname_fr: String,
    pub date: String,
    pub numconf: isize,
    pub numprob: isize,
    pub numdeaths: isize,
    pub numtotal: isize,
    pub numtoday: isize,
    pub ratetotal: u64,
}

/// What a row holds, as mathematical values.
pub struct RowView {
    pub pruid: int,
    pub prname: Seq<char>,
    pub prname_fr: Seq<char>,
    pub date: Seq<char>,
    pub numconf: int,
    pub numprob: int,
    pub numdeaths: int,
    pub numtotal: int,
    pub numtoday: int,
    pub ratetotal: nat,
}

impl View for DataRow {
    type V = RowView;

    open spec fn view(&self) -> RowView {
        RowView {
            pruid: self.pruid as int,
            prname: self.prname@,
            prname_fr: self.prname_fr@,
            date: self.date@,
            numconf: self.numconf as int,
            numprob: self.numprob as int,
            numdeaths: self.numdeaths as int,
            numtotal: self.numtotal as int,
            numtoday: self.numtoday as int,
            ratetotal: self.ratetotal as nat,
        }
    }
}

/// The views of a sequence of rows.
pub open spec fn rows_view(rows: Seq<DataRow>) -> Seq<RowView> {
    rows.map_values(|r: DataRow| r@)
}

/// The views of a sequence of string slices.
pub open spec fn str_views(items: Seq<&str>) -> Seq<Seq<char>> {
    items.map_values(|s: &str| s@)
}

/// The number of bytes that a text takes in UTF-8.
pub open spec fn byte_len(s: Seq<char>) -> nat {
    encode_utf8(s).len()
}

/// What an integer field of a stored row denotes: nothing stands for zero,
/// anything else must be a signed literal.
pub open spec fn count_field(s: Seq<char>) -> Option<isize> {
    if s.len() == 0 {
        Some(0isize)
    } else {
        isize_literal(s)
    }
}

/// What the rate field of a stored row denotes, in hundredths: nothing stands
/// for zero, anything else must be a decimal with at most two places.
pub open spec fn rate_field(s: Seq<char>) -> Option<u64> {
    if s.len() == 0 {
        Some(0u64)
    } else {
        match hundredths_literal(s) {
            Ok(n) => if n <= u64::MAX {
                Some(n as u64)
            } else {
                None
            },
            Err(_) => None,
        }
    }
}

/// The row that ten or more text fields denote, in the order identifier,
/// name, French name, date, five counters, rate. `None` where there are fewer
/// fields or a number is malformed.
pub open spec fn row_of(f: Seq<Seq<char>>) -> Option<RowView> {
    if f.len() < 10 || count_field(f[0]) is None || count_field(f[4]) is None || count_field(
        f[5],
    ) is None || count_field(f[6]) is None || count_field(f[7]) is None || count_field(f[8])
        is None || rate_field(f[9]) is None {
        None
    } else {
        Some(
            RowView {
                pruid: count_field(f[0])->0 as int,
                prname: f[1],
                prname_fr: f[2],
                date: f[3],
                numconf: count_field(f[4])->0 as int,
                numprob: count_field(f[5])->0 as int,
                numdeaths: count_field(f[6])->0 as int,
                numtotal: count_field(f[7])->0 as int,
                numtoday: count_field(f[8])->0 as int,
                ratetotal: rate_field(f[9])->0 as nat,
            },
        )
    }
}

/// The ten text fields under which a row is stored.
pub open spec fn row_fields(r: RowView) -> Seq<Seq<char>> {
    seq![
        signed_text(r.pruid),
        r.prname,
        r.prname_fr,
        r.date,
        signed_text(r.numconf),
        signed_text(r.numprob),
        signed_text(r.numdeaths),
        signed_text(r.numtotal),
        signed_text(r.numtoday),
        hundredths_text(r.ratetotal),
    ]
}

/// The name of a row in the given language.
pub open spec fn name_in(r: RowView, lang: Lang) -> Seq<char> {
    match lang {
        Lang::EN => r.prname,
        Lang::FR => r.prname_fr,
    }
}

/// The nine cells of a row as shown in one language.
pub open spec fn lang_cells(r: RowView, lang: Lang) -> Seq<Seq<char>> {
    seq![
        signed_text(r.pruid),
        name_in(r, lang),
        r.date,
        signed_text(r.numconf),
        signed_text(r.numprob),
        signed_text(r.numdeaths),
        signed_text(r.numtotal),
        signed_text(r.numtoday),
        hundredths_text(r.ratetotal),
    ]
}

/// The nine labels shown above rows in one language, out of ten or more.
pub open spec fn lang_labels(labels: Seq<Seq<char>>, lang: Lang) -> Seq<Seq<char>> {
    seq![
        labels[0],
        match lang {
            Lang::EN => labels[1],
            Lang::FR => labels[2],
        },
        labels[3],
        labels[4],
        labels[5],
        labels[6],
        labels[7],
        labels[8],
        labels[9],
    ]
}

/// The column widths of a line in one language.
pub open spec fn lang_widths() -> Seq<usize> {
    seq![8usize, 30usize, 15usize, 10usize, 10usize, 10usize, 10usize, 10usize, 10usize]
}

/// The column widths of a line with both names.
pub open spec fn full_widths() -> Seq<usize> {
    seq![8usize, 30usize, 30usize, 15usize, 10usize, 10usize, 10usize, 10usize, 10usize, 10usize]
}

/// What follows a cell that leaves `gap` bytes of its column free: spaces up
/// to two short of the column's width, then a tab.
pub open spec fn fill(gap: int) -> Seq<char> {
    Seq::new(
        if gap > 2 {
            (gap - 2) as nat
        } else {
            0
        },
        |i: int| ' ',
    ).push('\t')
}

/// A cell followed by the fill of its column.
pub open spec fn spaced(s: Seq<char>, width: int) -> Seq<char> {
    s + fill(width - byte_len(s))
}

/// The cells of a line, each followed by the fill of its column.
pub open spec fn line_of(cells: Seq<Seq<char>>, widths: Seq<usize>) -> Seq<char>
    decreases cells.len(),
{
    if cells.len() == 0 {
        Seq::<char>::empty()
    } else {
        line_of(cells.drop_last(), widths.drop_last()) + spaced(
            cells.last(),
            widths.last() as int,
        )
    }
}

/// There is a column for each cell, and no cell is wider than its column.
pub open spec fn cells_fit(cells: Seq<Seq<char>>, widths: Seq<usize>) -> bool {
    &&& cells.len() == widths.len()
    &&& forall|i: int| 0 <= i < cells.len() ==> byte_len(#[trigger] cells[i]) <= widths[i]
}

/// Pads `s` to a column of `x` bytes: spaces up to two short of the width,
/// then a tab.
pub fn col_spacing(s: String, x: usize) -> (r: String)
    requires
        byte_len(s@) <= x,
        x - byte_len(s@) <= isize::MAX,
    ensures
        r@ == spaced(s@, x as int),
{
    let used: usize = s.as_str().as_bytes().len();
    let gap: usize = x - used;
    let mut out = s;
    let mut i: usize = 0;
    while i + 2 < gap
        invariant
            i <= gap,
            i + 2 < gap || i == 0 || i + 2 == gap,
            out@ == s@ + Seq::new(i as nat, |k: int| ' '),
        decreases gap - i,
    {
        out.push(' ');
        assert(out@ =~= s@ + Seq::new((i + 1) as nat, |k: int| ' '));
        i += 1;
    }
    out.push('\t');
    assert(out@ =~= spaced(s@, x as int));
    out
}

/// Whether `s` takes at most `width` bytes.
pub fn fits_column(s: &str, width: usize) -> (b: bool)
    ensures
        b == (byte_len(s@) <= width),
{
    s.as_bytes().len() <= width
}

/// Whether no cell is wider than its column.
pub fn cells_fit_exec(cells: &Vec<String>, widths: &Vec<usize>) -> (b: bool)
    ensures
        b == cells_fit(string_views(cells@), widths@),
{
    if cells.len() != widths.len() {
        return false;
    }
    let mut i: usize = 0;
    while i < cells.len()
        invariant
            i <= cells.len() == widths.len(),
            forall|k: int|
                0 <= k < i ==> byte_len(#[trigger] string_views(cells@)[k]) <= widths@[k],
        decreases cells.len() - i,
    {
        assert(string_views(cells@)[i as int] == cells@[i as int]@);
        if !fits_column(cells[i].as_str(), widths[i]) {
            return false;
        }
        i += 1;
    }
    true
}

/// Lays the cells out in their columns.
pub fn layout(cells: &Vec<String>, widths: &Vec<usize>) -> (line: String)
    requires
        cells_fit(string_views(cells@), widths@),
        forall|i: int| 0 <= i < widths.len() ==> widths[i] <= isize::MAX,
    ensures
        line@ == line_of(string_views(cells@), widths@),
{
    let ghost texts = string_views(cells@);
    let mut line = String::new();
    let mut i: usize = 0;
    assert(texts.take(0) =~= Seq::<Seq<char>>::empty());
    while i < cells.len()
        invariant
            i <= cells.len() == widths.len(),
            texts == string_views(cells@),
            cells_fit(texts, widths@),
            forall|k: int| 0 <= k < widths.len() ==> widths[k] <= isize::MAX,
            line@ == line_of(texts.take(i as int), widths@.take(i as int)),
        decreases cells.len() - i,
    {
        assert(texts[i as int] == cells@[i as int]@);
        assert(byte_len(texts[i as int]) <= widths@[i as int]);
        let cell = col_spacing(cells[i].clone(), widths[i]);
        proof {
            assert(texts.take(i + 1).drop_last() =~= texts.take(i as int));
            assert(widths@.take(i + 1).drop_last() =~= widths@.take(i as int));
        }
        line.append(cell.as_str());
        i += 1;
    }
    assert(texts.take(cells.len() as int) =~= texts);
    assert(widths@.take(widths.len() as int) =~= widths@);
    line
}

/// The widths of the columns shown in one language.
pub fn lang_widths_exec() -> (w: Vec<usize>)
    ensures
        w@ == lang_widths(),
{
    let w: Vec<usize> = vec![8, 30, 15, 10, 10, 10, 10, 10, 10];
    assert(w@ =~= lang_widths());
    w
}

/// The widths of the columns shown with both names.
pub fn full_widths_exec() -> (w: Vec<usize>)
    ensures
        w@ == full_widths(),
{
    let w: Vec<usize> = vec![8, 30, 30, 15, 10, 10, 10, 10, 10, 10];
    assert(w@ =~= full_widths());
    w
}

/// Reads an integer field of a stored row.
pub fn read_count(v: &Vec<char>) -> (r: Option<isize>)
    ensures
        r == count_field(v@),
{
    if v.len() == 0 {
        Some(0)
    } else {
        parse_isize(v)
    }
}

/// Reads the rate field of a stored row.
pub fn read_rate(v: &Vec<char>) -> (r: Option<u64>)
    ensures
        r == rate_field(v@),
{
    if v.len() == 0 {
        Some(0)
    } else {
        match parse_hundredths(v) {
            Ok(h) => Some(h),
            Err(_) => None,
        }
    }
}

impl DataRow {
    /// The row that the fields denote, where they denote one.
    pub fn from_fields(fields: &Vec<Vec<char>>) -> (r: Option<DataRow>)
        ensures
            match r {
                Some(row) => row_of(views_of(fields@)) == Some(row@),
                None => row_of(views_of(fields@)) is None,
            },
    {
        let ghost f = views_of(fields@);
        if fields.len() < 10 {
            return None;
        }
        assert(f[0] == fields@[0]@ && f[1] == fields@[1]@ && f[2] == fields@[2]@ && f[3]
            == fields@[3]@ && f[4] == fields@[4]@);
        assert(f[5] == fields@[5]@ && f[6] == fields@[6]@ && f[7] == fields@[7]@ && f[8]
            == fields@[8]@ && f[9] == fields@[9]@);
        let pruid = match read_count(&fields[0]) {
            Some(n) => n,
            None => { return None; },
        };
        let numconf = match read_count(&fields[4]) {
            Some(n) => n,
            None => { return None; },
        };
        let numprob = match read_count(&fields[5]) {
            Some(n) => n,
            None => { return None; },
        };
        let numdeaths = match read_count(&fields[6]) {
            Some(n) => n,
            None => { return None; },
        };
        let numtotal = match read_count(&fields[7]) {
            Some(n) => n,
            None => { return None; },
        };
        let numtoday = match read_count(&fields[8]) {
            Some(n) => n,
            None => { return None; },
        };
        let ratetotal = match read_rate(&fields[9]) {
            Some(n) => n,
            None => { return None; },
        };
        Some(
            DataRow {
                pruid,
                prname: string_of(&fields[1]),
                prname_fr: string_of(&fields[2]),
                date: string_of(&fields[3]),
                numconf,
                numprob,
                numdeaths,
                numtotal,
                numtoday,
                ratetotal,
            },
        )
    }

    /// The row that the fields of `line` denote, where they denote one.
    pub fn parse(line: &Vec<&str>) -> (r: Option<DataRow>)
        ensures
            match r {
                Some(row) => row_of(str_views(line@)) == Some(row@),
                None => row_of(str_views(line@)) is None,
            },
    {
        let mut fields: Vec<Vec<char>> = Vec::new();
        let mut i: usize = 0;
        while i < line.len()
            invariant
                i <= line.len(),
                views_of(fields@) == str_views(line@).take(i as int),
            decreases line.len() - i,
        {
            let ghost before = fields@;
            fields.push(chars_of(line[i]));
            assert(views_of(fields@) =~= views_of(before).push(line@[i as int]@));
            assert(str_views(line@).take(i + 1) =~= str_views(line@).take(i as int).push(
                line@[i as int]@,
            ));
            i += 1;
        }
        assert(str_views(line@).take(line.len() as int) =~= str_views(line@));
        DataRow::from_fields(&fields)
    }

    /// The row that the fields of `line` denote.
    pub fn new(line: Vec<&str>) -> (row: DataRow)
        requires
            row_of(str_views(line@)) is Some,
        ensures
            row_of(str_views(line@)) == Some(row@),
    {
        match DataRow::parse(&line) {
            Some(row) => row,
            None => vstd::pervasive::unreached(),
        }
    }

    /// The ten text fields under which the row is stored.
    pub fn public_vec(&self) -> (v: Vec<String>)
        ensures
            string_views(v@) == row_fields(self@),
    {
        let mut v: Vec<String> = Vec::new();
        v.push(format_isize(self.pruid));
        v.push(self.prname.clone());
        v.push(self.prname_fr.clone());
        v.push(self.date.clone());
        v.push(format_isize(self.numconf));
        v.push(format_isize(self.numprob));
        v.push(format_isize(self.numdeaths));
        v.push(format_isize(self.numtotal));
        v.push(format_isize(self.numtoday));
        v.push(format_hundredths(self.ratetotal));
        assert(string_views(v@) =~= row_fields(self@));
        v
    }

    /// The nine cells of the row in the language of `config`.
    pub fn cells_lang(&self, config: &Config) -> (v: Vec<String>)
        ensures
            string_views(v@) == lang_cells(self@, config.language),
    {
        let mut v: Vec<String> = Vec::new();
        v.push(format_isize(self.pruid));
        v.push(
            match config.language {
                Lang::EN => self.prname.clone(),
                Lang::FR => self.prname_fr.clone(),
            },
        );
        v.push(self.date.clone());
        v.push(format_isize(self.numconf));
        v.push(format_isize(self.numprob));
        v.push(format_isize(self.numdeaths));
        v.push(format_isize(self.numtotal));
        v.push(format_isize(self.numtoday));
        v.push(format_hundredths(self.ratetotal));
        assert(string_views(v@) =~= lang_cells(self@, config.language));
        v
    }

    /// Whether the row can be shown in the language of `config`: whether each
    /// cell fits its column.
    pub fn fits_lang(&self, config: &Config) -> (b: bool)
        ensures
            b == cells_fit(lang_cells(self@, config.language), lang_widths()),
    {
        cells_fit_exec(&self.cells_lang(config), &lang_widths_exec())
    }

    /// Whether the row can be shown with both names.
    pub fn fits_all(&self) -> (b: bool)
        ensures
            b == cells_fit(row_fields(self@), full_widths()),
    {
        cells_fit_exec(&self.public_vec(), &full_widths_exec())
    }

    /// The display line of the row in the language of `config`.
    pub fn output_lang(&self, config: &Config) -> (line: String)
        requires
            cells_fit(lang_cells(self@, config.language), lang_widths()),
        ensures
            line@ == line_of(lang_cells(self@, config.language), lang_widths()),
    {
        layout(&self.cells_lang(config), &lang_widths_exec())
    }

    /// The display line of the row with both names.
    pub fn output_all(&self) -> (line: String)
        requires
            cells_fit(row_fields(self@), full_widths()),
        ensures
            line@ == line_of(row_fields(self@), full_widths()),
    {
        layout(&self.public_vec(), &full_widths_exec())
    }
}

impl Clone for DataRow {
    fn clone(&self) -> (r: Self)
        ensures
            r@ == self@,
    {
        DataRow {
            pruid: self.pruid,
            prname: self.prname.clone(),
            prname_fr: self.prname_fr.clone(),
            date: self.date.clone(),
            numconf: self.numconf,
            numprob: self.numprob,
            numdeaths: self.numdeaths,
            numtotal: self.numtotal,
            numtoday: self.numtoday,
            ratetotal: self.ratetotal,
        }
    }
}

impl PartialEq for DataRow {
    fn eq(&self, other: &Self) -> (r: bool) {
        self.pruid == other.pruid && self.prname == other.prname && self.prname_fr
            == other.prname_fr && self.date == other.date && self.numconf == other.numconf
            && self.numprob == other.numprob && self.numdeaths == other.numdeaths && self.numtotal
            == other.numtotal && self.numtoday == other.numtoday && self.ratetotal
            == other.ratetotal
    }

    fn ne(&self, other: &Self) -> (r: bool) {
        self.pruid != other.pruid || self.prname != other.prname || self.prname_fr
            != other.prname_fr || self.date != other.date || self.numconf != other.numconf
            || self.numprob != other.numprob || self.numdeaths != other.numdeaths || self.numtotal
            != other.numtotal || self.numtoday != other.numtoday || self.ratetotal
            != other.ratetotal
    }
}

impl PartialEqSpecImpl for DataRow {
    open spec fn obeys_eq_spec() -> bool {
        true
    }

    open spec fn eq_spec(&self, other: &Self) -> bool {
        self@ == other@
    }
}

/// The labels shown on the first line of a table.
#[derive(Debug)]
pub struct Header {
    pub labels: Vec<String>,
}

impl View for Header {
    type V = Seq<Seq<char>>;

    open spec fn view(&self) -> Seq<Seq<char>> {
        string_views(self.labels@)
    }
}

impl Clone for Header {
    fn clone(&self) -> (r: Self)
        ensures
            r@ == self@,
    {
        let mut labels: Vec<String> = Vec::new();
        let mut i: usize = 0;
        while i < self.labels.len()
            invariant
                i <= self.labels.len(),
                string_views(labels@) == string_views(self.labels@).take(i as int),
            decreases self.labels.len() - i,
        {
            let ghost before = labels@;
            labels.push(self.labels[i].clone());
            assert(string_views(labels@) =~= string_views(before).push(self.labels@[i as int]@));
            assert(string_views(self.labels@).take(i + 1) =~= string_views(self.labels@).take(
                i as int,
            ).push(self.labels@[i as int]@));
            i += 1;
        }
        assert(string_views(self.labels@).take(self.labels.len() as int) =~= string_views(
            self.labels@,
        ));
        Header { labels }
    }
}

impl Header {
    /// A header with the labels given.
    pub fn new(labels: Vec<String>) -> (h: Header)
        ensures
            h.labels == labels,
            h@ == string_views(labels@),
    {
        Header { labels }
    }

    /// The nine labels shown in the language of `config`.
    pub fn cells_lang(&self, config: &Config) -> (v: Vec<String>)
        requires
            self@.len() >= 10,
        ensures
            string_views(v@) == lang_labels(self@, config.language),
    {
        let mut v: Vec<String> = Vec::new();
        v.push(self.labels[0].clone());
        v.push(
            match config.language {
                Lang::EN => self.labels[1].clone(),
                Lang::FR => self.labels[2].clone(),
            },
        );
        v.push(self.labels[3].clone());
        v.push(self.labels[4].clone());
        v.push(self.labels[5].clone());
        v.push(self.labels[6].clone());
        v.push(self.labels[7].clone());
        v.push(self.labels[8].clone());
        v.push(self.labels[9].clone());
        assert(string_views(v@) =~= lang_labels(string_views(self.labels@), config.language));
        v
    }

    /// The first ten labels.
    pub fn cells_all(&self) -> (v: Vec<String>)
        requires
            self@.len() >= 10,
        ensures
            string_views(v@) == self@.take(10),
    {
        let mut v: Vec<String> = Vec::new();
        let mut i: usize = 0;
        while i < 10
            invariant
                i <= 10 <= self.labels.len(),
                string_views(v@) == string_views(self.labels@).take(i as int),
            decreases 10 - i,
        {
            let ghost before = v@;
            v.push(self.labels[i].clone());
            assert(string_views(v@) =~= string_views(before).push(self.labels@[i as int]@));
            assert(string_views(self.labels@).take(i + 1) =~= string_views(self.labels@).take(
                i as int,
            ).push(self.labels@[i as int]@));
            i += 1;
        }
        v
    }

    /// Whether the header can be shown in the language of `config`: whether
    /// there are ten labels and each one shown fits its column.
    pub fn fits_lang(&self, config: &Config) -> (b: bool)
        ensures
            b == (self@.len() >= 10 && cells_fit(
                lang_labels(self@, config.language),
                lang_widths(),
            )),
    {
        self.labels.len() >= 10 && cells_fit_exec(&self.cells_lang(config), &lang_widths_exec())
    }

    /// Whether the header can be shown with both name labels.
    pub fn fits_all(&self) -> (b: bool)
        ensures
            b == (self@.len() >= 10 && cells_fit(self@.take(10), full_widths())),
    {
        self.labels.len() >= 10 && cells_fit_exec(&self.cells_all(), &full_widths_exec())
    }

    /// The header line in the language of `config`.
    pub fn output_lang(&self, config: &Config) -> (line: String)
        requires
            self@.len() >= 10,
            cells_fit(lang_labels(self@, config.language), lang_widths()),
        ensures
            line@ == line_of(lang_labels(self@, config.language), lang_widths()),
    {
        layout(&self.cells_lang(config), &lang_widths_exec())
    }

    /// The header line with both name labels.
    pub fn output_all(&self) -> (line: String)
        requires
            self@.len() >= 10,
            cells_fit(self@.take(10), full_widths()),
        ensures
            line@ == line_of(self@.take(10), full_widths()),
    {
        layout(&self.cells_all(), &full_widths_exec())
    }
}

} // verus!
