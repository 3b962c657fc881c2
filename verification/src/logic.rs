//! The settings of a run, and the operations on the record set: selecting
//! rows by an index expression, sorting by a column and reversing that sort.

use crate::datastore::{name_in, rows_view, DataRow, RowView};
use crate::number::{parse_usize, usize_literal};
use crate::order::{
    bytes_le, flipped, lemma_flipped_preorder, lemma_lex_total, lemma_lex_transitive,
    lemma_merging_end, lemma_merging_left, lemma_merging_right, lemma_merging_start,
    lemma_sorted_halves, lemma_stable_sorted, lex_le, merging, sorted_by, stable_sort_of,
    stable_sorted, total_preorder,
};
use crate::text::{chars_of, same_text, split, split_chars, trim_chars, trimmed, views_of};
use vstd::prelude::*;
use vstd::string::StringExecFns;
use vstd::utf8::encode_utf8;

verus! {

/// The language in which names are shown.
#[derive(Clone, Copy, Debug, PartialEq, Eq, Structural)]
pub enum Lang {
    EN,
    FR,
}

/// The settings of a run: the display language and the name of the data
/// source.
#[derive(Debug)]
pub struct Config {
    pub language: Lang,
    pub filename: String,
}

/// What the settings hold, as mathematical values.
pub struct ConfigView {
    pub language: Lang,
    pub filename: Seq<char>,
}

impl View for Config {
    type V = ConfigView;

    open spec fn view(&self) -> ConfigView {
        ConfigView { language: self.language, filename: self.filename@ }
    }
}

/// Why no settings could be made from the arguments given.
#[derive(Clone, Copy, Debug, PartialEq, Eq, Structural)]
pub enum ConfigError {
    /// No language was given.
    MissingLanguage,
    /// The language given is neither `en` nor `fr`.
    InvalidLanguage,
}

/// The language that a command-line token names.
pub open spec fn language_of(token: Seq<char>) -> Option<Lang> {
    if token == "en"@ {
        Some(Lang::EN)
    } else if token == "fr"@ {
        Some(Lang::FR)
    } else {
        None
    }
}

/// The name of the source that a fresh configuration reads.
pub open spec fn default_source() -> Seq<char> {
    "covid19-download.csv"@
}

impl Config {
    /// The settings for the language argument given, reading the default
    /// source.
    pub fn new(language: Option<&str>) -> (r: Result<Config, ConfigError>)
        ensures
            match language {
                None => r == Err::<Config, ConfigError>(ConfigError::MissingLanguage),
                Some(token) => match language_of(token@) {
                    Some(lang) => r is Ok && r->Ok_0@ == (ConfigView {
                        language: lang,
                        filename: default_source(),
                    }),
                    None => r == Err::<Config, ConfigError>(ConfigError::InvalidLanguage),
                },
            },
    {
        match language {
            None => Err(ConfigError::MissingLanguage),
            Some(token) => {
                let language = if same_text(token, "en") {
                    Lang::EN
                } else if same_text(token, "fr") {
                    Lang::FR
                } else {
                    return Err(ConfigError::InvalidLanguage);
                };
                Ok(Config { language, filename: String::from_str("covid19-download.csv") })
            },
        }
    }

    /// Sets the display language.
    pub fn change_lang(&mut self, lang: Lang)
        ensures
            final(self)@ == (ConfigView { language: lang, ..old(self)@ }),
    {
        self.language = lang;
    }

    /// Sets the name of the data source.
    pub fn change_file(&mut self, file: String)
        ensures
            final(self)@ == (ConfigView { filename: file@, ..old(self)@ }),
    {
        self.filename = file;
    }
}

/// Why a selection expression denotes no rows.
#[derive(Clone, Copy, Debug, PartialEq, Eq, Structural)]
pub enum ParseError {
    /// A term has more than one dash.
    MalformedTerm,
    /// A number is missing or is no unsigned decimal literal that fits.
    InvalidInteger,
}

/// Why a value offered for a field is refused.
#[derive(Clone, Copy, Debug, PartialEq, Eq, Structural)]
pub enum ValidationError {
    /// The identifier is above 999.
    IdentifierTooLarge,
    /// The name has more than 30 characters.
    NameTooLong,
    /// The date takes more than 30 bytes.
    DateTooLong,
    /// The date is no calendar date written as year, month and day.
    DateMalformed,
    /// The counter is above 99,999,999.
    CounterTooLarge,
    /// The rate is no plain decimal number.
    RateMalformed,
    /// The rate has more than two digits after the point.
    RateTooPrecise,
    /// The rate is above 99,999.99.
    RateTooLarge,
}

/// Why an operation on the record set was not carried out.
#[derive(Clone, Copy, Debug, PartialEq, Eq, Structural)]
pub enum Error {
    /// A number or a selection expression could not be read.
    Parse(ParseError),
    /// The token names none of the nine sort columns.
    InvalidColumn,
    /// A value is outside the bounds of its field.
    Validation(ValidationError),
}

/// A column by which rows can be ordered.
#[derive(Clone, Copy, Debug, PartialEq, Eq, Structural)]
pub enum ColumnKey {
    Identifier,
    Name,
    Date,
    Confirmed,
    Probable,
    Deaths,
    Total,
    Today,
    Rate,
}

/// The sort column that a token names: `1` to `9`, in the order identifier,
/// name, date, the five counters, rate.
pub open spec fn column_key(token: Seq<char>) -> Option<ColumnKey> {
    if token == "1"@ {
        Some(ColumnKey::Identifier)
    } else if token == "2"@ {
        Some(ColumnKey::Name)
    } else if token == "3"@ {
        Some(ColumnKey::Date)
    } else if token == "4"@ {
        Some(ColumnKey::Confirmed)
    } else if token == "5"@ {
        Some(ColumnKey::Probable)
    } else if token == "6"@ {
        Some(ColumnKey::Deaths)
    } else if token == "7"@ {
        Some(ColumnKey::Total)
    } else if token == "8"@ {
        Some(ColumnKey::Today)
    } else if token == "9"@ {
        Some(ColumnKey::Rate)
    } else {
        None
    }
}

/// The column by which a reversal orders when the token names none: the date.
pub open spec fn column_key_or_date(token: Seq<char>) -> ColumnKey {
    match column_key(token) {
        Some(key) => key,
        None => ColumnKey::Date,
    }
}

/// Whether row `a` comes at or before row `b` by the column `key`. Numbers
/// are compared by value; names, in the language given, and dates by the
/// dictionary order of their UTF-8 bytes.
pub open spec fn key_le(a: RowView, b: RowView, key: ColumnKey, lang: Lang) -> bool {
    match key {
        ColumnKey::Identifier => a.pruid <= b.pruid,
        ColumnKey::Name => lex_le(encode_utf8(name_in(a, lang)), encode_utf8(name_in(b, lang))),
        ColumnKey::Date => lex_le(encode_utf8(a.date), encode_utf8(b.date)),
        ColumnKey::Confirmed => a.numconf <= b.numconf,
        ColumnKey::Probable => a.numprob <= b.numprob,
        ColumnKey::Deaths => a.numdeaths <= b.numdeaths,
        ColumnKey::Total => a.numtotal <= b.numtotal,
        ColumnKey::Today => a.numtoday <= b.numtoday,
        ColumnKey::Rate => a.ratetotal <= b.ratetotal,
    }
}

/// The ascending order of rows by the column `key`.
pub open spec fn row_order(key: ColumnKey, lang: Lang) -> spec_fn(RowView, RowView) -> bool {
    |a: RowView, b: RowView| key_le(a, b, key, lang)
}

/// The order of rows by the column `key`, ascending or descending.
pub open spec fn directed_order(key: ColumnKey, lang: Lang, descending: bool) -> spec_fn(
    RowView,
    RowView,
) -> bool {
    if descending {
        flipped(row_order(key, lang))
    } else {
        row_order(key, lang)
    }
}

/// The rows sorted stably by the column `key`, ascending or descending.
pub open spec fn sorted_rows(rows: Seq<RowView>, key: ColumnKey, lang: Lang, descending: bool) -> Seq<
    RowView,
> {
    stable_sorted(rows, directed_order(key, lang, descending))
}

/// The order by any column relates every two rows and is transitive.
pub proof fn lemma_row_order(key: ColumnKey, lang: Lang)
    ensures
        total_preorder(row_order(key, lang)),
        total_preorder(flipped(row_order(key, lang))),
{
    let le = row_order(key, lang);
    assert forall|a: RowView, b: RowView| #[trigger] le(a, b) || le(b, a) by {
        lemma_lex_total(encode_utf8(name_in(a, lang)), encode_utf8(name_in(b, lang)));
        lemma_lex_total(encode_utf8(a.date), encode_utf8(b.date));
    }
    assert forall|a: RowView, b: RowView, c: RowView| #[trigger]
        le(a, b) && #[trigger] le(b, c) implies le(a, c) by {
        if key == ColumnKey::Name {
            lemma_lex_transitive(
                encode_utf8(name_in(a, lang)),
                encode_utf8(name_in(b, lang)),
                encode_utf8(name_in(c, lang)),
            );
        }
        if key == ColumnKey::Date {
            lemma_lex_transitive(encode_utf8(a.date), encode_utf8(b.date), encode_utf8(c.date));
        }
    }
    lemma_flipped_preorder(le);
}

/// Reads the token of a sort column.
pub fn read_column_key(token: &str) -> (r: Option<ColumnKey>)
    ensures
        r == column_key(token@),
{
    if same_text(token, "1") {
        Some(ColumnKey::Identifier)
    } else if same_text(token, "2") {
        Some(ColumnKey::Name)
    } else if same_text(token, "3") {
        Some(ColumnKey::Date)
    } else if same_text(token, "4") {
        Some(ColumnKey::Confirmed)
    } else if same_text(token, "5") {
        Some(ColumnKey::Probable)
    } else if same_text(token, "6") {
        Some(ColumnKey::Deaths)
    } else if same_text(token, "7") {
        Some(ColumnKey::Total)
    } else if same_text(token, "8") {
        Some(ColumnKey::Today)
    } else if same_text(token, "9") {
        Some(ColumnKey::Rate)
    } else {
        None
    }
}

/// Whether row `a` comes at or before row `b` by the column `key`.
pub fn precedes(a: &DataRow, b: &DataRow, key: ColumnKey, lang: Lang) -> (r: bool)
    ensures
        r == key_le(a@, b@, key, lang),
{
    match key {
        ColumnKey::Identifier => a.pruid <= b.pruid,
        ColumnKey::Name => match lang {
            Lang::EN => bytes_le(a.prname.as_str().as_bytes(), b.prname.as_str().as_bytes()),
            Lang::FR => bytes_le(
                a.prname_fr.as_str().as_bytes(),
                b.prname_fr.as_str().as_bytes(),
            ),
        },
        ColumnKey::Date => bytes_le(a.date.as_str().as_bytes(), b.date.as_str().as_bytes()),
        ColumnKey::Confirmed => a.numconf <= b.numconf,
        ColumnKey::Probable => a.numprob <= b.numprob,
        ColumnKey::Deaths => a.numdeaths <= b.numdeaths,
        ColumnKey::Total => a.numtotal <= b.numtotal,
        ColumnKey::Today => a.numtoday <= b.numtoday,
        ColumnKey::Rate => a.ratetotal <= b.ratetotal,
    }
}

/// Whether row `a` may stand before row `b` in the order by the column `key`,
/// ascending or descending.
pub fn in_order(a: &DataRow, b: &DataRow, key: ColumnKey, lang: Lang, descending: bool) -> (r:
    bool)
    ensures
        r == directed_order(key, lang, descending)(a@, b@),
{
    if descending {
        precedes(b, a, key, lang)
    } else {
        precedes(a, b, key, lang)
    }
}

/// Takes the row at `i` out of `rows` and leaves an empty row in its place.
fn take_row(rows: &mut Vec<DataRow>, i: usize) -> (row: DataRow)
    requires
        i < old(rows).len(),
    ensures
        row == old(rows)@[i as int],
        final(rows).len() == old(rows).len(),
        forall|k: int| 0 <= k < old(rows).len() && k != i ==> final(rows)@[k] == old(rows)@[k],
{
    let mut row = DataRow {
        pruid: 0,
        prname: String::new(),
        prname_fr: String::new(),
        date: String::new(),
        numconf: 0,
        numprob: 0,
        numdeaths: 0,
        numtotal: 0,
        numtoday: 0,
        ratetotal: 0,
    };
    std::mem::swap(&mut rows[i], &mut row);
    row
}

/// Merges two runs of rows, each in order by the column `key`, into one run
/// in order. Where a row of the left run and a row of the right run rank
/// alike, the row of the left run comes first.
fn merge_rows(
    left: Vec<DataRow>,
    right: Vec<DataRow>,
    key: ColumnKey,
    lang: Lang,
    descending: bool,
) -> (out: Vec<DataRow>)
    requires
        sorted_by(rows_view(left@), directed_order(key, lang, descending)),
        sorted_by(rows_view(right@), directed_order(key, lang, descending)),
    ensures
        stable_sort_of(
            rows_view(out@),
            rows_view(left@) + rows_view(right@),
            directed_order(key, lang, descending),
        ),
{
    let ghost le = directed_order(key, lang, descending);
    let ghost a = rows_view(left@);
    let ghost b = rows_view(right@);
    let mut left = left;
    let mut right = right;
    let mut out: Vec<DataRow> = Vec::new();
    let mut i: usize = 0;
    let mut j: usize = 0;
    proof {
        lemma_row_order(key, lang);
        lemma_merging_start(a, b, le);
        assert(rows_view(out@) =~= Seq::<RowView>::empty());
    }
    while i < left.len() || j < right.len()
        invariant
            i <= left.len() == a.len(),
            j <= right.len() == b.len(),
            le == directed_order(key, lang, descending),
            total_preorder(le),
            forall|k: int| i <= k < left.len() ==> (#[trigger] left@[k])@ == a[k],
            forall|k: int| j <= k < right.len() ==> (#[trigger] right@[k])@ == b[k],
            merging(rows_view(out@), a, b, i as int, j as int, le),
        decreases (left.len() - i) + (right.len() - j),
    {
        let from_left = if j >= right.len() {
            true
        } else if i >= left.len() {
            false
        } else {
            assert(left@[i as int]@ == a[i as int] && right@[j as int]@ == b[j as int]);
            in_order(&left[i], &right[j], key, lang, descending)
        };
        let ghost before = out@;
        if from_left {
            proof {
                lemma_merging_left(rows_view(out@), a, b, i as int, j as int, le);
            }
            assert(left@[i as int]@ == a[i as int]);
            let row = take_row(&mut left, i);
            out.push(row);
            assert(rows_view(out@) =~= rows_view(before).push(a[i as int]));
            i += 1;
        } else {
            proof {
                lemma_merging_right(rows_view(out@), a, b, i as int, j as int, le);
            }
            assert(right@[j as int]@ == b[j as int]);
            let row = take_row(&mut right, j);
            out.push(row);
            assert(rows_view(out@) =~= rows_view(before).push(b[j as int]));
            j += 1;
        }
    }
    proof {
        lemma_merging_end(rows_view(out@), a, b, le);
    }
    out
}

/// The rows of a run sorted stably by the column `key`: each half sorted by
/// itself, and the two merged.
fn sort_run(run: Vec<DataRow>, key: ColumnKey, lang: Lang, descending: bool) -> (out: Vec<
    DataRow,
>)
    ensures
        stable_sort_of(rows_view(out@), rows_view(run@), directed_order(key, lang, descending)),
    decreases run.len(),
{
    let ghost le = directed_order(key, lang, descending);
    let ghost all = rows_view(run@);
    let n = run.len();
    if n <= 1 {
        return run;
    }
    let half = n / 2;
    let mut front = run;
    let back = front.split_off(half);
    let ghost a = rows_view(front@);
    let ghost b = rows_view(back@);
    assert(a + b =~= all);
    let left = sort_run(front, key, lang, descending);
    let right = sort_run(back, key, lang, descending);
    let ghost l = rows_view(left@);
    let ghost r = rows_view(right@);
    let out = merge_rows(left, right, key, lang, descending);
    proof {
        lemma_sorted_halves(rows_view(out@), l, r, a, b, le);
    }
    out
}

/// Sorts the rows stably by the column `key`, ascending or descending: rows
/// that rank alike keep the order they had.
pub fn sort_rows(data: &mut Vec<DataRow>, key: ColumnKey, lang: Lang, descending: bool)
    ensures
        stable_sort_of(
            rows_view(final(data)@),
            rows_view(old(data)@),
            directed_order(key, lang, descending),
        ),
        rows_view(final(data)@) == sorted_rows(rows_view(old(data)@), key, lang, descending),
{
    let mut run: Vec<DataRow> = Vec::new();
    std::mem::swap(data, &mut run);
    let mut sorted = sort_run(run, key, lang, descending);
    std::mem::swap(data, &mut sorted);
    proof {
        lemma_row_order(key, lang);
        lemma_stable_sorted(rows_view(old(data)@), directed_order(key, lang, descending));
        assert(stable_sort_of(
            rows_view(data@),
            rows_view(old(data)@),
            directed_order(key, lang, descending),
        ));
    }
}

/// Sorts the rows stably by the column that `sorting` names, ascending. A
/// token that names no column is refused and the rows are left as they are.
pub fn sort(data: &mut Vec<DataRow>, sorting: &str, config: &Config) -> (r: Result<(), Error>)
    ensures
        match column_key(sorting@) {
            Some(key) => r is Ok && stable_sort_of(
                rows_view(final(data)@),
                rows_view(old(data)@),
                row_order(key, config.language),
            ) && rows_view(final(data)@) == sorted_rows(
                rows_view(old(data)@),
                key,
                config.language,
                false,
            ),
            None => r == Err::<(), Error>(Error::InvalidColumn) && final(data)@ == old(data)@,
        },
{
    match read_column_key(sorting) {
        Some(key) => {
            sort_rows(data, key, config.language, false);
            Ok(())
        },
        None => Err(Error::InvalidColumn),
    }
}

/// Turns the current sort round. Where the rows are not reversed they are
/// sorted stably in descending order by the column that `sorting` names, and
/// the flag is set; where they are, they are sorted stably in ascending
/// order, and the flag is cleared. A token that names no column stands for
/// the date.
pub fn reverse(data: &mut Vec<DataRow>, sorting: &str, rev: &mut bool, config: &Config)
    ensures
        *final(rev) == !*old(rev),
        stable_sort_of(
            rows_view(final(data)@),
            rows_view(old(data)@),
            directed_order(column_key_or_date(sorting@), config.language, !*old(rev)),
        ),
        rows_view(final(data)@) == sorted_rows(
            rows_view(old(data)@),
            column_key_or_date(sorting@),
            config.language,
            !*old(rev),
        ),
{
    let key = match read_column_key(sorting) {
        Some(key) => key,
        None => ColumnKey::Date,
    };
    if *rev {
        sort_rows(data, key, config.language, false);
        *rev = false;
    } else {
        sort_rows(data, key, config.language, true);
        *rev = true;
    }
}

/// The rows sorted stably by a column are a stable sort of the rows by that
/// column: the same rows, in order, those that rank alike in the order they
/// had.
pub proof fn lemma_sorted_rows(rows: Seq<RowView>, key: ColumnKey, lang: Lang, descending: bool)
    ensures
        stable_sort_of(
            sorted_rows(rows, key, lang, descending),
            rows,
            directed_order(key, lang, descending),
        ),
        sorted_rows(rows, key, lang, descending).len() == rows.len(),
{
    lemma_row_order(key, lang);
    lemma_stable_sorted(rows, directed_order(key, lang, descending));
    rows.to_multiset_ensures();
    sorted_rows(rows, key, lang, descending).to_multiset_ensures();
}

/// Sorting is stable, so a sequence has one sorted form by a column: two
/// results of sorting the same rows by the same column are equal.
pub proof fn lemma_sort_is_determined(
    input: Seq<RowView>,
    first: Seq<RowView>,
    second: Seq<RowView>,
    key: ColumnKey,
    lang: Lang,
    descending: bool,
)
    requires
        stable_sort_of(first, input, directed_order(key, lang, descending)),
        stable_sort_of(second, input, directed_order(key, lang, descending)),
    ensures
        first == second,
{
    lemma_row_order(key, lang);
    crate::order::lemma_stable_sort_unique(
        first,
        second,
        input,
        directed_order(key, lang, descending),
    );
}

/// Sorting rows that are already sorted by a column, by that column again,
/// changes nothing.
pub proof fn lemma_sort_idempotent(
    input: Seq<RowView>,
    once: Seq<RowView>,
    twice: Seq<RowView>,
    key: ColumnKey,
    lang: Lang,
)
    requires
        stable_sort_of(once, input, row_order(key, lang)),
        stable_sort_of(twice, once, row_order(key, lang)),
    ensures
        twice == once,
{
    lemma_row_order(key, lang);
    crate::order::lemma_sorted_is_fixed(once, twice, row_order(key, lang));
}

/// Reversing twice, from the state that is not reversed, gives the rows in
/// their ascending sort by the column: the first reversal sorts `input`
/// descending, the second sorts that ascending, and the result is what
/// sorting `input` ascending gives.
pub proof fn lemma_reverse_twice(
    input: Seq<RowView>,
    down: Seq<RowView>,
    up: Seq<RowView>,
    ascending: Seq<RowView>,
    key: ColumnKey,
    lang: Lang,
)
    requires
        stable_sort_of(down, input, directed_order(key, lang, true)),
        stable_sort_of(up, down, directed_order(key, lang, false)),
        stable_sort_of(ascending, input, row_order(key, lang)),
    ensures
        up == ascending,
{
    lemma_row_order(key, lang);
    let le = row_order(key, lang);
    crate::order::lemma_sort_there_and_back(input, down, up, le);
    crate::order::lemma_stable_sort_unique(up, ascending, input, le);
}

/// The indices from `first` up to, not including, `last`.
pub open spec fn index_range(first: usize, last: usize) -> Seq<usize> {
    Seq::new(
        if last > first {
            (last - first) as nat
        } else {
            0
        },
        |i: int| (first + i) as usize,
    )
}

/// What one term of a selection denotes. A term is a number, or two numbers
/// with a dash between them for the indices from the first up to, not
/// including, the second; white space around a number is ignored.
pub open spec fn term_indices(term: Seq<char>) -> Result<Seq<usize>, ParseError> {
    let parts = split(term, '-');
    if parts.len() == 1 {
        match usize_literal(trimmed(parts[0])) {
            Some(n) => Ok(seq![n]),
            None => Err(ParseError::InvalidInteger),
        }
    } else if parts.len() == 2 {
        match usize_literal(trimmed(parts[0])) {
            None => Err(ParseError::InvalidInteger),
            Some(first) => match usize_literal(trimmed(parts[1])) {
                None => Err(ParseError::InvalidInteger),
                Some(last) => Ok(index_range(first, last)),
            },
        }
    } else {
        Err(ParseError::MalformedTerm)
    }
}

/// What a list of terms denotes: the indices of each term, in the order of
/// the terms, or the error of the first term that has one.
pub open spec fn terms_indices(terms: Seq<Seq<char>>) -> Result<Seq<usize>, ParseError>
    decreases terms.len(),
{
    if terms.len() == 0 {
        Ok(Seq::<usize>::empty())
    } else {
        match terms_indices(terms.drop_last()) {
            Err(e) => Err(e),
            Ok(before) => match term_indices(terms.last()) {
                Err(e) => Err(e),
                Ok(more) => Ok(before + more),
            },
        }
    }
}

/// What a selection expression denotes: its terms are separated by commas.
pub open spec fn selection(expression: Seq<char>) -> Result<Seq<usize>, ParseError> {
    terms_indices(split(expression, ','))
}

/// The rows at the indices given, in that order, leaving out every index
/// that is not below the number of rows.
pub open spec fn rows_at(rows: Seq<RowView>, indices: Seq<usize>) -> Seq<RowView> {
    indices.filter(|i: usize| i < rows.len()).map_values(|i: usize| rows[i as int])
}

/// Reads one term of a selection and appends its indices to `out`.
pub fn push_term(out: &mut Vec<usize>, term: &Vec<char>) -> (r: Result<(), ParseError>)
    ensures
        match term_indices(term@) {
            Ok(more) => r is Ok && final(out)@ == old(out)@ + more,
            Err(e) => r == Err::<(), ParseError>(e) && final(out)@ == old(out)@,
        },
{
    let parts = split_chars(term, '-');
    assert(views_of(parts@).len() == parts.len());
    if parts.len() == 1 {
        assert(views_of(parts@)[0] == parts@[0]@);
        match parse_usize(&trim_chars(&parts[0])) {
            Some(n) => {
                out.push(n);
                assert(out@ =~= old(out)@ + seq![n]);
                Ok(())
            },
            None => Err(ParseError::InvalidInteger),
        }
    } else if parts.len() == 2 {
        assert(views_of(parts@)[0] == parts@[0]@);
        assert(views_of(parts@)[1] == parts@[1]@);
        let first = match parse_usize(&trim_chars(&parts[0])) {
            Some(n) => n,
            None => { return Err(ParseError::InvalidInteger); },
        };
        let last = match parse_usize(&trim_chars(&parts[1])) {
            Some(n) => n,
            None => { return Err(ParseError::InvalidInteger); },
        };
        let mut i: usize = first;
        assert(out@ =~= old(out)@ + index_range(first, first));
        while i < last
            invariant
                first <= i,
                i <= last || i == first,
                out@ == old(out)@ + index_range(first, i),
            decreases last - i,
        {
            out.push(i);
            assert(out@ =~= old(out)@ + index_range(first, (i + 1) as usize));
            i += 1;
        }
        assert(index_range(first, i) =~= index_range(first, last));
        Ok(())
    } else {
        Err(ParseError::MalformedTerm)
    }
}

/// The row indices that a selection expression denotes, such as `4, 7, 9-14`
/// for 4, 7 and 9 to 13. The indices come in the order written; none is
/// dropped for being large, and nothing is returned where any term is wrong.
pub fn search(search_index: String, config: &Config, data: &Vec<DataRow>) -> (r: Result<
    Vec<usize>,
    ParseError,
>)
    ensures
        match selection(search_index@) {
            Ok(indices) => r is Ok && r->Ok_0@ == indices,
            Err(e) => r == Err::<Vec<usize>, ParseError>(e),
        },
{
    let text = chars_of(search_index.as_str());
    let terms = split_chars(&text, ',');
    let ghost all = views_of(terms@);
    let mut out: Vec<usize> = Vec::new();
    let mut k: usize = 0;
    assert(all.take(0) =~= Seq::<Seq<char>>::empty());
    while k < terms.len()
        invariant
            k <= terms.len(),
            all == views_of(terms@),
            all == split(search_index@, ','),
            terms_indices(all.take(k as int)) == Ok::<Seq<usize>, ParseError>(out@),
        decreases terms.len() - k,
    {
        proof {
            assert(all.take(k + 1).drop_last() =~= all.take(k as int));
            assert(all.take(k + 1).last() == terms@[k as int]@);
        }
        match push_term(&mut out, &terms[k]) {
            Ok(()) => {},
            Err(e) => {
                proof {
                    assert(term_indices(all.take(k + 1).last()) == Err::<Seq<usize>, ParseError>(e));
                    assert(terms_indices(all.take(k + 1)) == Err::<Seq<usize>, ParseError>(e));
                    lemma_terms_error(all, k as int);
                }
                return Err(e);
            },
        }
        k += 1;
    }
    assert(all.take(terms.len() as int) =~= all);
    Ok(out)
}

/// Once the terms up to one position denote an error, so does the whole list.
pub proof fn lemma_terms_error(terms: Seq<Seq<char>>, k: int)
    requires
        0 <= k < terms.len(),
        terms_indices(terms.take(k + 1)) is Err,
    ensures
        terms_indices(terms) == terms_indices(terms.take(k + 1)),
    decreases terms.len() - k,
{
    if k + 1 == terms.len() {
        assert(terms.take(k + 1) =~= terms);
    } else {
        assert(terms.take(k + 2).drop_last() =~= terms.take(k + 1));
        lemma_terms_error(terms, k + 1);
    }
}

/// Copies of the rows at the indices given, in that order; an index that is
/// not below the number of rows is passed over.
pub fn select_rows(data: &Vec<DataRow>, indices: &Vec<usize>) -> (out: Vec<DataRow>)
    ensures
        rows_view(out@) == rows_at(rows_view(data@), indices@),
{
    let ghost rows = rows_view(data@);
    let ghost keep = |i: usize| i < rows.len();
    let ghost pick = |i: usize| rows[i as int];
    let mut out: Vec<DataRow> = Vec::new();
    let mut k: usize = 0;
    proof {
        reveal(Seq::filter);
        assert(indices@.take(0) =~= Seq::<usize>::empty());
        assert(rows_view(out@) =~= indices@.take(0).filter(keep).map_values(pick));
    }
    while k < indices.len()
        invariant
            k <= indices.len(),
            rows == rows_view(data@),
            keep == (|i: usize| i < rows.len()),
            pick == (|i: usize| rows[i as int]),
            rows_view(out@) == indices@.take(k as int).filter(keep).map_values(pick),
        decreases indices.len() - k,
    {
        let entry = indices[k];
        proof {
            reveal(Seq::filter);
            assert(indices@.take(k + 1).drop_last() =~= indices@.take(k as int));
            assert(indices@.take(k + 1).last() == entry);
        }
        if entry < data.len() {
            let ghost before = out@;
            out.push(data[entry].clone());
            proof {
                let kept = indices@.take(k as int).filter(keep);
                assert(rows_view(out@) =~= rows_view(before).push(rows[entry as int]));
                assert(kept.push(entry).map_values(pick) =~= kept.map_values(pick).push(
                    rows[entry as int],
                ));
            }
        }
        k += 1;
    }
    assert(indices@.take(indices.len() as int) =~= indices@);
    out
}

} // verus!
