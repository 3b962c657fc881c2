//! The stored form of the table: comma-separated text, one record to a
//! line, the labels first. Reading it into a header and rows, and writing
//! header and rows out again.

use crate::datastore::{
    count_field, fill, rate_field, row_fields, row_of, rows_view, DataRow, Header, RowView,
};
use crate::number::{
    decimal_text, hundredths_text, is_digit, lemma_decimal_text, lemma_hundredths_round_trip,
    lemma_signed_round_trip, signed_text,
};
use crate::text::{
    is_space, lemma_join_split, lemma_split_append, lemma_split_ended, trim_end, trim_start,
};
use crate::logic::{default_source, Config, ConfigView};
use crate::text::{
    chars_of, join, same_text, split, split_chars, string_of, string_views,
    trim_chars, trimmed, views_of,
};
use vstd::prelude::*;
use vstd::string::StringExecFns;

verus! {

/// The most rows taken from the download.
pub const DOWNLOAD_LIMIT: usize = 100;

/// The two sources that a table is read from.
#[derive(Clone, Copy, Debug, PartialEq, Eq, Structural)]
pub enum Source {
    /// The download, which has more columns than the table keeps.
    Download,
    /// The table as it was last saved.
    Store,
}

/// Why no table could be read.
#[derive(Clone, Copy, Debug, PartialEq, Eq, Structural)]
pub enum LoadError {
    /// The file name is that of neither source.
    UnknownSource,
    /// The text has no line for the labels.
    Empty,
    /// The data line of this number, counting from zero, denotes no row.
    MalformedRow(usize),
}

/// The name of the download.
pub open spec fn download_name() -> Seq<char> {
    default_source()
}

/// The name under which the table is saved.
pub open spec fn store_name() -> Seq<char> {
    "datastore.csv"@
}

/// The source that a file name stands for.
pub open spec fn source_of(filename: Seq<char>) -> Option<Source> {
    if filename == download_name() {
        Some(Source::Download)
    } else if filename == store_name() {
        Some(Source::Store)
    } else {
        None
    }
}

/// Whether the column of this number in the download is kept.
pub open spec fn kept_column(i: int) -> bool {
    i < 4 || (5 <= i < 9) || i == 13 || i == 15
}

/// The fields of the kept columns, in order.
pub open spec fn filtered(fields: Seq<Seq<char>>) -> Seq<Seq<char>>
    decreases fields.len(),
{
    if fields.len() == 0 {
        fields
    } else {
        let before = filtered(fields.drop_last());
        if kept_column(fields.len() - 1) {
            before.push(fields.last())
        } else {
            before
        }
    }
}

/// A line without the carriage return at its end, if it has one.
pub open spec fn strip_cr(s: Seq<char>) -> Seq<char> {
    if s.len() > 0 && s.last() == '\r' {
        s.drop_last()
    } else {
        s
    }
}

/// The lines of a text. A line ends with a line feed, or with a carriage
/// return and a line feed; what follows the last line feed is a line too
/// unless it is empty.
pub open spec fn lines_of(s: Seq<char>) -> Seq<Seq<char>> {
    let pieces = split(s, '\n');
    let ended = pieces.drop_last().map_values(|p: Seq<char>| strip_cr(p));
    if pieces.last().len() == 0 {
        ended
    } else {
        ended.push(pieces.last())
    }
}

/// The lines put one after another, each followed by a line feed.
pub open spec fn stacked(lines: Seq<Seq<char>>) -> Seq<char>
    decreases lines.len(),
{
    if lines.len() == 0 {
        Seq::<char>::empty()
    } else {
        stacked(lines.drop_last()) + lines.last().push('\n')
    }
}

/// The lines put one after another, each followed by a line feed, without
/// the white space at either end of the whole.
pub open spec fn reassembled(lines: Seq<Seq<char>>) -> Seq<char> {
    trimmed(stacked(lines))
}

/// The fields of a record as the source lays it out.
pub open spec fn record_fields(line: Seq<char>, source: Source) -> Seq<Seq<char>> {
    match source {
        Source::Download => filtered(split(line, ',')),
        Source::Store => split(line, ','),
    }
}

/// The lines of the text that hold rows: those after the first, up to the
/// limit of the source.
pub open spec fn data_lines(contents: Seq<char>, source: Source) -> Seq<Seq<char>> {
    let lines = lines_of(reassembled(lines_of(contents).drop_first()));
    match source {
        Source::Download => if lines.len() > DOWNLOAD_LIMIT {
            lines.take(DOWNLOAD_LIMIT as int)
        } else {
            lines
        },
        Source::Store => lines,
    }
}

/// The rows that the lines denote, or the number of the first line that
/// denotes none.
pub open spec fn rows_of_lines(lines: Seq<Seq<char>>, source: Source) -> Result<
    Seq<RowView>,
    usize,
>
    decreases lines.len(),
{
    if lines.len() == 0 {
        Ok(Seq::<RowView>::empty())
    } else {
        match rows_of_lines(lines.drop_last(), source) {
            Err(k) => Err(k),
            Ok(rows) => match row_of(record_fields(lines.last(), source)) {
                Some(row) => Ok(rows.push(row)),
                None => Err((lines.len() - 1) as usize),
            },
        }
    }
}

/// The labels and rows that the text of a source holds.
pub open spec fn loaded(filename: Seq<char>, contents: Seq<char>) -> Result<
    (Seq<Seq<char>>, Seq<RowView>),
    LoadError,
> {
    match source_of(filename) {
        None => Err(LoadError::UnknownSource),
        Some(source) => if lines_of(contents).len() == 0 {
            Err(LoadError::Empty)
        } else {
            match rows_of_lines(data_lines(contents, source), source) {
                Ok(rows) => Ok((record_fields(lines_of(contents)[0], source), rows)),
                Err(k) => Err(LoadError::MalformedRow(k)),
            }
        },
    }
}

/// The line under which a record is stored: its fields with commas between
/// them, and a line feed.
pub open spec fn record_line(fields: Seq<Seq<char>>) -> Seq<char> {
    join(fields, ',').push('\n')
}

/// The lines under which rows are stored.
pub open spec fn rows_text(rows: Seq<RowView>) -> Seq<char>
    decreases rows.len(),
{
    if rows.len() == 0 {
        Seq::<char>::empty()
    } else {
        rows_text(rows.drop_last()) + record_line(row_fields(rows.last()))
    }
}

/// The text under which a table is stored: the line of labels, then a line
/// for each row.
pub open spec fn table_text(labels: Seq<Seq<char>>, rows: Seq<RowView>) -> Seq<char> {
    record_line(labels) + rows_text(rows)
}

/// Once the lines up to one position hold a line that denotes no row, the
/// whole list fails at that line.
pub proof fn lemma_rows_error(lines: Seq<Seq<char>>, source: Source, k: int)
    requires
        0 <= k < lines.len(),
        rows_of_lines(lines.take(k + 1), source) is Err,
    ensures
        rows_of_lines(lines, source) == rows_of_lines(lines.take(k + 1), source),
    decreases lines.len() - k,
{
    if k + 1 == lines.len() {
        assert(lines.take(k + 1) =~= lines);
    } else {
        assert(lines.take(k + 2).drop_last() =~= lines.take(k + 1));
        lemma_rows_error(lines, source, k + 1);
    }
}

/// The strings made of the character vectors given.
pub fn strings_of(items: &Vec<Vec<char>>) -> (out: Vec<String>)
    ensures
        string_views(out@) == views_of(items@),
{
    let mut out: Vec<String> = Vec::new();
    let mut i: usize = 0;
    while i < items.len()
        invariant
            i <= items.len(),
            string_views(out@) == views_of(items@).take(i as int),
        decreases items.len() - i,
    {
        let ghost before = out@;
        out.push(string_of(&items[i]));
        assert(string_views(out@) =~= string_views(before).push(items@[i as int]@));
        assert(views_of(items@).take(i + 1) =~= views_of(items@).take(i as int).push(
            items@[i as int]@,
        ));
        i += 1;
    }
    assert(views_of(items@).take(items.len() as int) =~= views_of(items@));
    out
}

/// The character vectors of the strings given.
pub fn chars_of_all(items: &Vec<String>) -> (out: Vec<Vec<char>>)
    ensures
        views_of(out@) == string_views(items@),
{
    let mut out: Vec<Vec<char>> = Vec::new();
    let mut i: usize = 0;
    while i < items.len()
        invariant
            i <= items.len(),
            views_of(out@) == string_views(items@).take(i as int),
        decreases items.len() - i,
    {
        let ghost before = out@;
        out.push(chars_of(items[i].as_str()));
        assert(views_of(out@) =~= views_of(before).push(items@[i as int]@));
        assert(string_views(items@).take(i + 1) =~= string_views(items@).take(i as int).push(
            items@[i as int]@,
        ));
        i += 1;
    }
    assert(string_views(items@).take(items.len() as int) =~= string_views(items@));
    out
}

/// The fields of the kept columns, in order.
pub fn filter_fields(fields: &Vec<Vec<char>>) -> (out: Vec<Vec<char>>)
    ensures
        views_of(out@) == filtered(views_of(fields@)),
{
    let ghost all = views_of(fields@);
    let mut out: Vec<Vec<char>> = Vec::new();
    let mut i: usize = 0;
    assert(all.take(0) =~= Seq::<Seq<char>>::empty());
    assert(views_of(out@) =~= filtered(all.take(0)));
    while i < fields.len()
        invariant
            i <= fields.len(),
            all == views_of(fields@),
            views_of(out@) == filtered(all.take(i as int)),
        decreases fields.len() - i,
    {
        proof {
            assert(all.take(i + 1).drop_last() =~= all.take(i as int));
            assert(all.take(i + 1).last() == fields@[i as int]@);
        }
        if i < 4 || (5 <= i && i < 9) || i == 13 || i == 15 {
            let ghost before = out@;
            out.push(fields[i].clone());
            assert(views_of(out@) =~= views_of(before).push(fields@[i as int]@));
        }
        i += 1;
    }
    assert(all.take(fields.len() as int) =~= all);
    out
}

/// The fields of a line of the download that the table keeps: those of the
/// columns 0 to 3, 5 to 8, 13 and 15.
pub fn default_filter(line: &str) -> (fields: Vec<String>)
    ensures
        string_views(fields@) == filtered(split(line@, ',')),
{
    let all = split_chars(&chars_of(line), ',');
    strings_of(&filter_fields(&all))
}

/// The fill of an empty cell in a column of `x` bytes: spaces up to two
/// short of the width, then a tab.
pub fn create_spacing(x: usize) -> (s: String)
    requires
        x <= isize::MAX,
    ensures
        s@ == fill(x as int),
{
    let mut s = String::new();
    let mut i: usize = 0;
    while i + 2 < x
        invariant
            i + 2 <= x || i == 0,
            s@ == Seq::new(i as nat, |k: int| ' '),
        decreases x - i,
    {
        s.push(' ');
        assert(s@ =~= Seq::new((i + 1) as nat, |k: int| ' '));
        i += 1;
    }
    s.push('\t');
    assert(s@ =~= fill(x as int));
    s
}

/// A line without the carriage return at its end, if it has one.
pub fn strip_cr_chars(v: &Vec<char>) -> (r: Vec<char>)
    ensures
        r@ == strip_cr(v@),
{
    if v.len() > 0 && v[v.len() - 1] == '\r' {
        let r = crate::text::copy_range(v, 0, v.len() - 1);
        assert(r@ =~= v@.drop_last());
        r
    } else {
        let r = crate::text::copy_range(v, 0, v.len());
        assert(r@ =~= v@);
        r
    }
}

/// The lines of a text.
pub fn lines_chars(v: &Vec<char>) -> (lines: Vec<Vec<char>>)
    ensures
        views_of(lines@) == lines_of(v@),
{
    let pieces = split_chars(v, '\n');
    let ghost all = views_of(pieces@);
    let ghost ended = all.drop_last().map_values(|p: Seq<char>| strip_cr(p));
    let mut lines: Vec<Vec<char>> = Vec::new();
    let last = pieces.len() - 1;
    let mut i: usize = 0;
    assert(all.len() == pieces.len());
    while i < last
        invariant
            i <= last == pieces.len() - 1,
            all == views_of(pieces@),
            ended == all.drop_last().map_values(|p: Seq<char>| strip_cr(p)),
            views_of(lines@) == ended.take(i as int),
        decreases last - i,
    {
        let ghost before = lines@;
        lines.push(strip_cr_chars(&pieces[i]));
        proof {
            assert(all[i as int] == pieces@[i as int]@);
            assert(views_of(lines@) =~= views_of(before).push(strip_cr(all[i as int])));
            assert(ended.take(i + 1) =~= ended.take(i as int).push(strip_cr(all[i as int])));
        }
        i += 1;
    }
    assert(ended.take(last as int) =~= ended);
    assert(all.last() == pieces@[last as int]@);
    if pieces[last].len() > 0 {
        let ghost before = lines@;
        lines.push(pieces[last].clone());
        assert(views_of(lines@) =~= views_of(before).push(all.last()));
    }
    lines
}

/// The lines from position `from` on, each followed by a line feed, without
/// the white space at either end of the whole.
pub fn reassemble_from(lines: &Vec<Vec<char>>, from: usize) -> (text: Vec<char>)
    requires
        from <= lines.len(),
    ensures
        text@ == reassembled(views_of(lines@).skip(from as int)),
{
    let ghost rest = views_of(lines@).skip(from as int);
    let mut text: Vec<char> = Vec::new();
    let mut i: usize = from;
    assert(rest.take(0) =~= Seq::<Seq<char>>::empty());
    while i < lines.len()
        invariant
            from <= i <= lines.len(),
            rest == views_of(lines@).skip(from as int),
            text@ == stacked(rest.take(i - from)),
        decreases lines.len() - i,
    {
        let line = &lines[i];
        let ghost before = text@;
        let mut k: usize = 0;
        while k < line.len()
            invariant
                k <= line.len(),
                text@ == before + line@.take(k as int),
            decreases line.len() - k,
        {
            text.push(line[k]);
            assert(text@ =~= before + line@.take(k + 1));
            k += 1;
        }
        text.push('\n');
        proof {
            assert(line@.take(line.len() as int) =~= line@);
            assert(rest.take(i - from + 1).drop_last() =~= rest.take(i - from));
            assert(rest.take(i - from + 1).last() == line@);
            assert(text@ =~= before + line@.push('\n'));
        }
        i += 1;
    }
    assert(rest.take(lines.len() - from) =~= rest);
    trim_chars(&text)
}

/// The lines put one after another, each followed by a line feed, without
/// the white space at either end of the whole.
pub fn reassemble(lines: &Vec<String>) -> (text: String)
    ensures
        text@ == reassembled(string_views(lines@)),
{
    let all = chars_of_all(lines);
    assert(views_of(all@).skip(0) =~= views_of(all@));
    string_of(&reassemble_from(&all, 0))
}

/// Reads the source that a file name stands for.
pub fn read_source(filename: &str) -> (r: Option<Source>)
    ensures
        r == source_of(filename@),
{
    if same_text(filename, "covid19-download.csv") {
        Some(Source::Download)
    } else if same_text(filename, "datastore.csv") {
        Some(Source::Store)
    } else {
        None
    }
}

/// The fields of a record as the source lays it out.
pub fn read_record(line: &Vec<char>, source: Source) -> (fields: Vec<Vec<char>>)
    ensures
        views_of(fields@) == record_fields(line@, source),
{
    let all = split_chars(line, ',');
    match source {
        Source::Download => filter_fields(&all),
        Source::Store => all,
    }
}

/// Reads the table that `contents`, the text of the source that `config`
/// names, holds: the labels from the first line and a row from each line
/// after it, at most a hundred from the download.
pub fn load_data(config: &Config, contents: &str) -> (r: Result<(Header, Vec<DataRow>), LoadError>)
    ensures
        match loaded(config@.filename, contents@) {
            Ok((labels, rows)) => r is Ok && r->Ok_0.0@ == labels && rows_view(r->Ok_0.1@) == rows,
            Err(e) => r == Err::<(Header, Vec<DataRow>), LoadError>(e),
        },
{
    let source = match read_source(config.filename.as_str()) {
        Some(source) => source,
        None => { return Err(LoadError::UnknownSource); },
    };
    let lines = lines_chars(&chars_of(contents));
    assert(views_of(lines@).len() == lines.len());
    if lines.len() == 0 {
        return Err(LoadError::Empty);
    }
    assert(views_of(lines@)[0] == lines@[0]@);
    assert(views_of(lines@).skip(1) =~= views_of(lines@).drop_first());
    let labels = strings_of(&read_record(&lines[0], source));
    let body = lines_chars(&reassemble_from(&lines, 1));
    let ghost wanted = data_lines(contents@, source);
    assert(views_of(body@).len() == body.len());
    let limit: usize = match source {
        Source::Download => if body.len() > DOWNLOAD_LIMIT {
            DOWNLOAD_LIMIT
        } else {
            body.len()
        },
        Source::Store => body.len(),
    };
    assert(wanted =~= views_of(body@).take(limit as int));
    let mut data: Vec<DataRow> = Vec::new();
    let mut k: usize = 0;
    assert(wanted.take(0) =~= Seq::<Seq<char>>::empty());
    assert(rows_view(data@) =~= Seq::<RowView>::empty());
    while k < limit
        invariant
            k <= limit <= body.len(),
            wanted == views_of(body@).take(limit as int),
            wanted == data_lines(contents@, source),
            source_of(config.filename@) == Some(source),
            lines_of(contents@).len() > 0,
            rows_of_lines(wanted.take(k as int), source) == Ok::<Seq<RowView>, usize>(
                rows_view(data@),
            ),
        decreases limit - k,
    {
        proof {
            assert(wanted.take(k + 1).drop_last() =~= wanted.take(k as int));
            assert(wanted.take(k + 1).last() == body@[k as int]@);
        }
        match DataRow::from_fields(&read_record(&body[k], source)) {
            Some(row) => {
                let ghost before = data@;
                data.push(row);
                assert(rows_view(data@) =~= rows_view(before).push(row@));
            },
            None => {
                proof {
                    assert(rows_of_lines(wanted.take(k + 1), source) == Err::<
                        Seq<RowView>,
                        usize,
                    >(k));
                    lemma_rows_error(wanted, source, k as int);
                }
                return Err(LoadError::MalformedRow(k));
            },
        }
        k += 1;
    }
    assert(wanted.take(limit as int) =~= wanted);
    Ok((Header::new(labels), data))
}

/// Appends the line under which a record is stored.
pub fn push_record(out: &mut String, fields: &Vec<String>)
    ensures
        final(out)@ == old(out)@ + record_line(string_views(fields@)),
{
    let ghost texts = string_views(fields@);
    let mut i: usize = 0;
    assert(texts.take(0) =~= Seq::<Seq<char>>::empty());
    assert(out@ =~= old(out)@ + join(texts.take(0), ','));
    while i < fields.len()
        invariant
            i <= fields.len(),
            texts == string_views(fields@),
            out@ == old(out)@ + join(texts.take(i as int), ','),
        decreases fields.len() - i,
    {
        proof {
            assert(texts.take(i + 1).drop_last() =~= texts.take(i as int));
            assert(texts.take(i + 1).last() == fields@[i as int]@);
            assert(texts.take(1)[0] == texts[0]);
        }
        if i > 0 {
            out.push(',');
        }
        out.append(fields[i].as_str());
        assert(out@ =~= old(out)@ + join(texts.take(i + 1), ','));
        i += 1;
    }
    assert(texts.take(fields.len() as int) =~= texts);
    out.push('\n');
    assert(out@ =~= old(out)@ + record_line(texts));
}

/// The text under which the table is stored: the labels on the first line,
/// then the ten fields of each row on a line of its own.
pub fn save_data(column_labels: &Header, data: &Vec<DataRow>) -> (text: String)
    ensures
        text@ == table_text(column_labels@, rows_view(data@)),
{
    let mut text = String::new();
    push_record(&mut text, &column_labels.labels);
    let ghost head = text@;
    let ghost rows = rows_view(data@);
    let mut i: usize = 0;
    assert(rows.take(0) =~= Seq::<RowView>::empty());
    assert(text@ =~= head + rows_text(rows.take(0)));
    while i < data.len()
        invariant
            i <= data.len(),
            rows == rows_view(data@),
            text@ == head + rows_text(rows.take(i as int)),
        decreases data.len() - i,
    {
        proof {
            assert(rows.take(i + 1).drop_last() =~= rows.take(i as int));
            assert(rows.take(i + 1).last() == data@[i as int]@);
        }
        push_record(&mut text, &data[i].public_vec());
        assert(text@ =~= head + rows_text(rows.take(i + 1)));
        i += 1;
    }
    assert(rows.take(data.len() as int) =~= rows);
    assert(text@ =~= table_text(string_views(column_labels.labels@), rows));
    text
}

/// Turns back to the download: sets it as the source of `config` and reads
/// the table that `contents`, its text, holds.
pub fn refresh_data(config: &mut Config, contents: &str) -> (r: Result<
    (Header, Vec<DataRow>),
    LoadError,
>)
    ensures
        final(config)@ == (ConfigView { filename: download_name(), ..old(config)@ }),
        match loaded(download_name(), contents@) {
            Ok((labels, rows)) => r is Ok && r->Ok_0.0@ == labels && rows_view(r->Ok_0.1@) == rows,
            Err(e) => r == Err::<(Header, Vec<DataRow>), LoadError>(e),
        },
{
    config.change_file(String::from_str("covid19-download.csv"));
    load_data(config, contents)
}

/// Whether a text can stand as a field of a stored record: whether it holds
/// neither a comma nor a line feed.
pub open spec fn plain(s: Seq<char>) -> bool {
    forall|i: int| 0 <= i < s.len() ==> #[trigger] s[i] != ',' && s[i] != '\n'
}

/// Whether a row can be stored and read back: whether its texts are plain and
/// its numbers are such as a row can hold.
pub open spec fn storable(r: RowView) -> bool {
    &&& plain(r.prname)
    &&& plain(r.prname_fr)
    &&& plain(r.date)
    &&& isize::MIN <= r.pruid <= isize::MAX
    &&& isize::MIN <= r.numconf <= isize::MAX
    &&& isize::MIN <= r.numprob <= isize::MAX
    &&& isize::MIN <= r.numdeaths <= isize::MAX
    &&& isize::MIN <= r.numtotal <= isize::MAX
    &&& isize::MIN <= r.numtoday <= isize::MAX
    &&& r.ratetotal <= u64::MAX
}

/// The lines under which rows are stored, without their line feeds.
pub open spec fn row_lines(rows: Seq<RowView>) -> Seq<Seq<char>> {
    rows.map_values(|r: RowView| join(row_fields(r), ','))
}

/// Lines without a line feed, stacked and split at the line feeds, are the
/// lines and an empty piece.
pub proof fn lemma_split_stacked(lines: Seq<Seq<char>>)
    requires
        forall|k: int, i: int|
            0 <= k < lines.len() && 0 <= i < lines[k].len() ==> #[trigger] lines[k][i] != '\n',
    ensures
        split(stacked(lines), '\n') == lines.push(Seq::<char>::empty()),
    decreases lines.len(),
{
    if lines.len() == 0 {
        assert(lines.push(Seq::<char>::empty()) =~= seq![Seq::<char>::empty()]);
    } else {
        let front = lines.drop_last();
        assert forall|k: int, i: int|
            0 <= k < front.len() && 0 <= i < front[k].len() implies #[trigger] front[k][i]
            != '\n' by {
            assert(front[k][i] == lines[k][i]);
        }
        lemma_split_stacked(front);
        assert forall|i: int| 0 <= i < lines.last().len() implies lines.last()[i] != '\n' by {
            assert(lines[lines.len() - 1][i] != '\n');
        }
        lemma_split_append(stacked(front), lines.last(), '\n');
        lemma_split_ended(stacked(front) + lines.last(), '\n');
        assert(stacked(lines) =~= (stacked(front) + lines.last()).push('\n'));
        assert(front.push(Seq::<char>::empty()).drop_last() =~= front);
        assert(Seq::<char>::empty() + lines.last() =~= lines.last());
        assert(front.push(lines.last()) =~= lines);
    }
}

/// The lines of stacked lines are those lines, where none holds a line feed
/// or ends with a carriage return.
pub proof fn lemma_lines_of_stacked(lines: Seq<Seq<char>>)
    requires
        forall|k: int, i: int|
            0 <= k < lines.len() && 0 <= i < lines[k].len() ==> #[trigger] lines[k][i] != '\n',
        forall|k: int| 0 <= k < lines.len() ==> strip_cr(#[trigger] lines[k]) == lines[k],
    ensures
        lines_of(stacked(lines)) == lines,
{
    lemma_split_stacked(lines);
    let pieces = split(stacked(lines), '\n');
    assert(pieces.drop_last() =~= lines);
    assert(lines.map_values(|p: Seq<char>| strip_cr(p)) =~= lines);
}

/// The lines of stacked lines without the white space around the whole are
/// those lines, where none holds a line feed or ends with a carriage return,
/// the first starts and the last ends with something other than white space.
pub proof fn lemma_lines_of_reassembled(lines: Seq<Seq<char>>)
    requires
        forall|k: int, i: int|
            0 <= k < lines.len() && 0 <= i < lines[k].len() ==> #[trigger] lines[k][i] != '\n',
        forall|k: int| 0 <= k < lines.len() ==> strip_cr(#[trigger] lines[k]) == lines[k],
        lines.len() > 0 ==> lines[0].len() > 0 && !is_space(lines[0][0]),
        lines.len() > 0 ==> lines.last().len() > 0 && !is_space(lines.last().last()),
    ensures
        lines_of(reassembled(lines)) == lines,
{
    if lines.len() == 0 {
        assert(split(Seq::<char>::empty(), '\n') =~= seq![Seq::<char>::empty()]);
        assert(lines_of(Seq::<char>::empty()) =~= lines);
    } else {
        let front = lines.drop_last();
        let body = stacked(front) + lines.last();
        let whole = stacked(lines);
        assert(whole =~= body.push('\n'));
        lemma_stacked_starts(lines);
        assert(trim_start(whole) == whole);
        assert(whole.drop_last() =~= body);
        assert(body.last() == lines.last().last());
        assert(trim_end(body) == body);
        assert(trim_end(whole) == body);
        assert forall|k: int, i: int|
            0 <= k < front.len() && 0 <= i < front[k].len() implies #[trigger] front[k][i]
            != '\n' by {
            assert(front[k][i] == lines[k][i]);
        }
        lemma_split_stacked(front);
        assert forall|i: int| 0 <= i < lines.last().len() implies lines.last()[i] != '\n' by {
            assert(lines[lines.len() - 1][i] != '\n');
        }
        lemma_split_append(stacked(front), lines.last(), '\n');
        assert(front.push(Seq::<char>::empty()).drop_last() =~= front);
        assert(Seq::<char>::empty() + lines.last() =~= lines.last());
        let pieces = split(body, '\n');
        assert(pieces =~= front.push(lines.last()));
        assert(pieces.drop_last() =~= front);
        assert forall|k: int| 0 <= k < front.len() implies strip_cr(#[trigger] front[k])
            == front[k] by {
            assert(front[k] == lines[k]);
        }
        assert(front.map_values(|p: Seq<char>| strip_cr(p)) =~= front);
        assert(front.push(lines.last()) =~= lines);
    }
}

/// Stacked lines start with the first character of the first line, where that
/// line is not empty.
pub proof fn lemma_stacked_starts(lines: Seq<Seq<char>>)
    requires
        lines.len() > 0,
        lines[0].len() > 0,
    ensures
        stacked(lines).len() > 0,
        stacked(lines)[0] == lines[0][0],
    decreases lines.len(),
{
    if lines.len() == 1 {
        assert(lines.drop_last() =~= Seq::<Seq<char>>::empty());
        assert(stacked(lines.drop_last()) =~= Seq::<char>::empty());
        assert(stacked(lines) =~= lines[0].push('\n'));
    } else {
        lemma_stacked_starts(lines.drop_last());
    }
}

/// Stacking a line before others puts it, with its line feed, before the
/// others stacked.
pub proof fn lemma_stacked_front(first: Seq<char>, others: Seq<Seq<char>>)
    ensures
        stacked(seq![first] + others) == first.push('\n') + stacked(others),
    decreases others.len(),
{
    let all = seq![first] + others;
    if others.len() == 0 {
        assert(all =~= seq![first]);
        assert(all.drop_last() =~= Seq::<Seq<char>>::empty());
        assert(stacked(all.drop_last()) =~= Seq::<char>::empty());
        assert(stacked(all) =~= first.push('\n') + stacked(others));
    } else {
        lemma_stacked_front(first, others.drop_last());
        assert(all.drop_last() =~= seq![first] + others.drop_last());
        assert(all.last() == others.last());
        assert(stacked(all) =~= first.push('\n') + stacked(others));
    }
}

/// The text of rows is their lines stacked.
pub proof fn lemma_rows_text(rows: Seq<RowView>)
    ensures
        rows_text(rows) == stacked(row_lines(rows)),
    decreases rows.len(),
{
    if rows.len() > 0 {
        lemma_rows_text(rows.drop_last());
        assert(row_lines(rows).drop_last() =~= row_lines(rows.drop_last()));
    }
}

/// The text of a number holds digits and at most a sign before them.
pub proof fn lemma_signed_text_chars(n: int)
    ensures
        signed_text(n).len() > 0,
        forall|i: int|
            0 <= i < signed_text(n).len() ==> is_digit(#[trigger] signed_text(n)[i]) || signed_text(
                n,
            )[i] == '-',
{
    if n < 0 {
        lemma_decimal_text((-n) as nat);
        let d = decimal_text((-n) as nat);
        assert forall|i: int| 0 <= i < signed_text(n).len() implies is_digit(
            #[trigger] signed_text(n)[i],
        ) || signed_text(n)[i] == '-' by {
            if i > 0 {
                assert(signed_text(n)[i] == d[i - 1]);
            }
        }
    } else {
        lemma_decimal_text(n as nat);
    }
}

/// The text of a number of hundredths holds digits and at most a point, and
/// ends with a digit.
pub proof fn lemma_hundredths_text_chars(h: nat)
    ensures
        hundredths_text(h).len() > 0,
        is_digit(hundredths_text(h).last()),
        forall|i: int|
            0 <= i < hundredths_text(h).len() ==> is_digit(#[trigger] hundredths_text(h)[i])
                || hundredths_text(h)[i] == '.',
{
    lemma_decimal_text(h / 100);
    let whole = decimal_text(h / 100);
    let t = hundredths_text(h);
    assert(is_digit(whole[whole.len() - 1]));
    assert forall|i: int| 0 <= i < t.len() implies is_digit(#[trigger] t[i]) || t[i] == '.' by {
        if i < whole.len() {
            assert(t[i] == whole[i]);
        }
    }
}

/// The fields of a row that can be stored hold neither comma nor line feed,
/// the first starts with a digit or a sign, the last ends with a digit, and
/// they denote the row.
pub proof fn lemma_row_fields(r: RowView)
    requires
        storable(r),
    ensures
        row_fields(r).len() == 10,
        forall|k: int| 0 <= k < 10 ==> plain(#[trigger] row_fields(r)[k]),
        row_fields(r)[0].len() > 0,
        !is_space(row_fields(r)[0][0]),
        row_fields(r)[9].len() > 0,
        is_digit(row_fields(r)[9].last()),
        row_of(row_fields(r)) == Some(r),
{
    let f = row_fields(r);
    lemma_signed_text_chars(r.pruid);
    lemma_signed_text_chars(r.numconf);
    lemma_signed_text_chars(r.numprob);
    lemma_signed_text_chars(r.numdeaths);
    lemma_signed_text_chars(r.numtotal);
    lemma_signed_text_chars(r.numtoday);
    lemma_hundredths_text_chars(r.ratetotal);
    lemma_signed_round_trip(r.pruid);
    lemma_signed_round_trip(r.numconf);
    lemma_signed_round_trip(r.numprob);
    lemma_signed_round_trip(r.numdeaths);
    lemma_signed_round_trip(r.numtotal);
    lemma_signed_round_trip(r.numtoday);
    lemma_hundredths_round_trip(r.ratetotal);
    assert(plain(f[0]) && plain(f[4]) && plain(f[5]) && plain(f[6]) && plain(f[7]) && plain(f[8]));
    assert(plain(f[9]));
    assert(plain(f[1]) && plain(f[2]) && plain(f[3]));
    assert(count_field(f[0]) == Some(r.pruid as isize));
    assert(count_field(f[4]) == Some(r.numconf as isize));
    assert(count_field(f[5]) == Some(r.numprob as isize));
    assert(count_field(f[6]) == Some(r.numdeaths as isize));
    assert(count_field(f[7]) == Some(r.numtotal as isize));
    assert(count_field(f[8]) == Some(r.numtoday as isize));
    assert(rate_field(f[9]) == Some(r.ratetotal as u64));
    assert(is_digit(f[0][0]) || f[0][0] == '-');
}

/// Joined fields hold what the fields hold and the separator; they start as
/// the first field starts and end as the last field ends.
pub proof fn lemma_join_chars(fields: Seq<Seq<char>>, sep: char)
    requires
        fields.len() >= 1,
    ensures
        forall|i: int|
            0 <= i < join(fields, sep).len() ==> #[trigger] join(fields, sep)[i] == sep || exists|
                k: int,
                j: int,
            |
                0 <= k < fields.len() && 0 <= j < fields[k].len() && fields[k][j] == join(
                    fields,
                    sep,
                )[i],
        fields[0].len() > 0 ==> join(fields, sep).len() > 0 && join(fields, sep)[0]
            == fields[0][0],
        fields.last().len() > 0 ==> join(fields, sep).len() > 0 && join(fields, sep).last()
            == fields.last().last(),
    decreases fields.len(),
{
    let joined = join(fields, sep);
    if fields.len() == 1 {
        assert forall|i: int| 0 <= i < joined.len() implies #[trigger] joined[i] == sep || exists|
            k: int,
            j: int,
        |
            0 <= k < fields.len() && 0 <= j < fields[k].len() && fields[k][j] == joined[i] by {
            assert(fields[0][i] == joined[i]);
        }
    } else {
        let front = fields.drop_last();
        lemma_join_chars(front, sep);
        let before = join(front, sep);
        assert(joined =~= before.push(sep) + fields.last());
        assert forall|i: int| 0 <= i < joined.len() implies #[trigger] joined[i] == sep || exists|
            k: int,
            j: int,
        |
            0 <= k < fields.len() && 0 <= j < fields[k].len() && fields[k][j] == joined[i] by {
            if i < before.len() {
                assert(joined[i] == before[i]);
                if before[i] != sep {
                    let (k, j) = choose|k: int, j: int|
                        0 <= k < front.len() && 0 <= j < front[k].len() && front[k][j]
                            == before[i];
                    assert(fields[k][j] == joined[i]);
                }
            } else if i > before.len() {
                let j = i - before.len() - 1;
                assert(fields[fields.len() - 1][j] == joined[i]);
            }
        }
        if fields[0].len() > 0 {
            assert(front[0] == fields[0]);
            assert(joined[0] == before[0]);
        }
    }
}

/// The line of a row that can be stored holds no line feed, starts and ends
/// with something other than white space, and is read as the row.
pub proof fn lemma_row_line(r: RowView)
    requires
        storable(r),
    ensures
        forall|i: int|
            0 <= i < join(row_fields(r), ',').len() ==> #[trigger] join(row_fields(r), ',')[i]
                != '\n',
        join(row_fields(r), ',').len() > 0,
        !is_space(join(row_fields(r), ',')[0]),
        !is_space(join(row_fields(r), ',').last()),
        strip_cr(join(row_fields(r), ',')) == join(row_fields(r), ','),
        row_of(record_fields(join(row_fields(r), ','), Source::Store)) == Some(r),
{
    let f = row_fields(r);
    let line = join(f, ',');
    lemma_row_fields(r);
    lemma_join_chars(f, ',');
    assert(f.last() == f[9]);
    assert forall|i: int| 0 <= i < line.len() implies #[trigger] line[i] != '\n' by {
        if line[i] != ',' {
            let (k, j) = choose|k: int, j: int|
                0 <= k < f.len() && 0 <= j < f[k].len() && f[k][j] == line[i];
            assert(plain(f[k]));
            assert(f[k][j] != '\n');
        }
    }
    assert forall|k: int, i: int| 0 <= k < f.len() && 0 <= i < f[k].len() implies #[trigger] f[k][i]
        != ',' by {
        assert(plain(f[k]));
    }
    lemma_join_split(f, ',');
}

/// The lines of rows that can be stored are read as those rows.
pub proof fn lemma_row_lines_read(rows: Seq<RowView>)
    requires
        forall|k: int| 0 <= k < rows.len() ==> storable(#[trigger] rows[k]),
    ensures
        rows_of_lines(row_lines(rows), Source::Store) == Ok::<Seq<RowView>, usize>(rows),
    decreases rows.len(),
{
    if rows.len() == 0 {
        assert(rows =~= Seq::<RowView>::empty());
    } else {
        let front = rows.drop_last();
        assert forall|k: int| 0 <= k < front.len() implies storable(#[trigger] front[k]) by {
            assert(front[k] == rows[k]);
        }
        lemma_row_lines_read(front);
        assert(row_lines(rows).drop_last() =~= row_lines(front));
        assert(storable(rows[rows.len() - 1]));
        lemma_row_line(rows.last());
        assert(row_lines(rows).last() == join(row_fields(rows.last()), ','));
        assert(front.push(rows.last()) =~= rows);
    }
}

/// What is stored is read back: the text under which labels and rows are
/// stored holds, read as the store, those labels and rows. The labels must
/// be at least one, hold neither comma nor line feed, and the last must not
/// end with a carriage return; the rows must be such as can be stored.
pub proof fn lemma_stored_table_loads(labels: Seq<Seq<char>>, rows: Seq<RowView>)
    requires
        labels.len() >= 1,
        forall|k: int| 0 <= k < labels.len() ==> plain(#[trigger] labels[k]),
        strip_cr(labels.last()) == labels.last(),
        forall|k: int| 0 <= k < rows.len() ==> storable(#[trigger] rows[k]),
    ensures
        loaded(store_name(), table_text(labels, rows)) == Ok::<
            (Seq<Seq<char>>, Seq<RowView>),
            LoadError,
        >((labels, rows)),
{
    let head = join(labels, ',');
    let body = row_lines(rows);
    let all = seq![head] + body;
    let contents = table_text(labels, rows);
    assert(source_of(store_name()) == Some(Source::Store)) by {
        reveal_strlit("datastore.csv");
        reveal_strlit("covid19-download.csv");
        assert(store_name().len() != download_name().len());
    }
    lemma_rows_text(rows);
    lemma_stacked_front(head, body);
    assert(contents =~= stacked(all));
    lemma_join_chars(labels, ',');
    assert forall|i: int| 0 <= i < head.len() implies #[trigger] head[i] != '\n' by {
        if head[i] != ',' {
            let (k, j) = choose|k: int, j: int|
                0 <= k < labels.len() && 0 <= j < labels[k].len() && labels[k][j] == head[i];
            assert(plain(labels[k]));
            assert(labels[k][j] != '\n');
        }
    }
    assert(strip_cr(head) == head) by {
        if head.len() > 0 && head.last() == '\r' {
            if labels.last().len() > 0 {
                assert(head.last() == labels.last().last());
            } else {
                if labels.len() == 1 {
                    assert(head == labels[0]);
                } else {
                    assert(head =~= join(labels.drop_last(), ',').push(',') + labels.last());
                    assert(head.last() == ',');
                }
            }
        }
    }
    assert forall|k: int| 0 <= k < body.len() implies (forall|i: int|
        0 <= i < body[k].len() ==> #[trigger] body[k][i] != '\n') && strip_cr(#[trigger] body[k])
        == body[k] && body[k].len() > 0 && !is_space(body[k][0]) && !is_space(body[k].last()) by {
        assert(storable(rows[k]));
        lemma_row_line(rows[k]);
    }
    assert forall|k: int, i: int| 0 <= k < all.len() && 0 <= i < all[k].len() implies #[trigger] all[k][i]
        != '\n' by {
        if k > 0 {
            assert(all[k] == body[k - 1]);
        }
    }
    assert forall|k: int| 0 <= k < all.len() implies strip_cr(#[trigger] all[k]) == all[k] by {
        if k > 0 {
            assert(all[k] == body[k - 1]);
        }
    }
    lemma_lines_of_stacked(all);
    assert(lines_of(contents) == all);
    assert(all.drop_first() =~= body);
    lemma_lines_of_reassembled(body);
    assert(data_lines(contents, Source::Store) == body);
    assert forall|k: int, i: int| 0 <= k < labels.len() && 0 <= i < labels[k].len() implies #[trigger] labels[k][i]
        != ',' by {
        assert(plain(labels[k]));
    }
    lemma_join_split(labels, ',');
    lemma_row_lines_read(rows);
}

} // verus!
