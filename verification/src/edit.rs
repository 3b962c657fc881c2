//! Changing and removing single rows: which row a request aims at, the
//! bounds that a new value must keep, and the steps of an editing dialogue.

use crate::datastore::{byte_len, fits_column, rows_view, DataRow, RowView};
use crate::logic::{Config, Error, Lang, ParseError, ValidationError};
use crate::number::{
    hundredths_literal, parse_hundredths, parse_usize, usize_literal, DecimalFault,
};
use crate::text::{chars_of, string_of, trim_chars, trimmed};
use vstd::prelude::*;

verus! {

/// Whether chrono reads `text` as a calendar date laid out as `format` says.
pub uninterp spec fn date_parses(text: Seq<char>, format: Seq<char>) -> bool;

/// Calls `chrono::NaiveDate::parse_from_str`, which reads a date from `text`
/// as `format` lays it out, and says whether it gave a date. That depends on
/// the two texts alone; nothing is said here about which texts are read as
/// dates.
#[verifier::external_body]
fn reads_as_date(text: &str, format: &str) -> (ok: bool)
    ensures
        ok == date_parses(text@, format@),
{
    chrono::NaiveDate::parse_from_str(text, format).is_ok()
}

/// The largest identifier that an edit accepts.
pub const MAX_IDENTIFIER: usize = 999;

/// The largest counter that an edit accepts.
pub const MAX_COUNTER: usize = 99_999_999;

/// The largest rate that an edit accepts, in hundredths: 99,999.99.
pub const MAX_RATE: u64 = 9_999_999;

/// The most characters that an edit accepts in a name.
pub const MAX_NAME_CHARS: usize = 30;

/// The most bytes that an edit accepts in a date.
pub const MAX_DATE_BYTES: usize = 30;

/// A field that an edit can set. The name is the one of the display
/// language.
#[derive(Clone, Copy, Debug, PartialEq, Eq, Structural)]
pub enum EditField {
    Identifier,
    Name,
    Date,
    Confirmed,
    Probable,
    Deaths,
    Total,
    Today,
    Rate,
}

/// What a line read at the column menu asks for.
#[derive(Clone, Copy, Debug, PartialEq, Eq, Structural)]
pub enum EditChoice {
    Field(EditField),
    Quit,
    Unknown,
}

/// Where an editing dialogue stands.
#[derive(Clone, Copy, Debug, PartialEq, Eq, Structural)]
pub enum EditPhase {
    /// The column menu is shown; the next line picks a column.
    ChoosingColumn,
    /// A column was picked; the next line is its new value.
    EnteringValue(EditField),
    /// A value was stored; the next line says whether to go on.
    Confirming,
    /// The dialogue is over.
    Done,
}

/// What a step of an editing dialogue did.
#[derive(Clone, Copy, Debug, PartialEq, Eq, Structural)]
pub enum EditOutcome {
    /// The dialogue moved on, and no row changed.
    Moved,
    /// The line picked no column; the menu is shown again.
    UnknownColumn,
    /// The value was stored in the row.
    Committed,
    /// The value was refused and the row is unchanged; the same column is
    /// asked for again.
    Rejected(Error),
}

/// The format in which a date is written: year, month and day with dashes
/// between them.
pub open spec fn date_format() -> Seq<char> {
    "%Y-%m-%d"@
}

/// The row that a request names. The text, without the white space around
/// it, must be an unsigned number; it names a row where it is below `total`.
pub open spec fn target_of(text: Seq<char>, total: nat) -> Result<Option<usize>, ParseError> {
    match usize_literal(trimmed(text)) {
        None => Err(ParseError::InvalidInteger),
        Some(index) => if index < total {
            Ok(Some(index))
        } else {
            Ok(None)
        },
    }
}

/// What a line read at the column menu asks for. `1` to `10` pick a field
/// in the order of the columns shown, `q` in either case quits. Both name
/// columns, `2` and `3`, stand for the name in the display language.
pub open spec fn choice_of(input: Seq<char>) -> EditChoice {
    let t = trimmed(input);
    if t == seq!['1'] {
        EditChoice::Field(EditField::Identifier)
    } else if t == seq!['2'] || t == seq!['3'] {
        EditChoice::Field(EditField::Name)
    } else if t == seq!['4'] {
        EditChoice::Field(EditField::Date)
    } else if t == seq!['5'] {
        EditChoice::Field(EditField::Confirmed)
    } else if t == seq!['6'] {
        EditChoice::Field(EditField::Probable)
    } else if t == seq!['7'] {
        EditChoice::Field(EditField::Deaths)
    } else if t == seq!['8'] {
        EditChoice::Field(EditField::Total)
    } else if t == seq!['9'] {
        EditChoice::Field(EditField::Today)
    } else if t == seq!['1', '0'] {
        EditChoice::Field(EditField::Rate)
    } else if t == seq!['q'] || t == seq!['Q'] {
        EditChoice::Quit
    } else {
        EditChoice::Unknown
    }
}

/// Whether a line is the single letter `c` or `d`, with any white space
/// around it.
pub open spec fn is_letter(input: Seq<char>, c: char, d: char) -> bool {
    trimmed(input) == seq![c] || trimmed(input) == seq![d]
}

/// The counter that a text offers: an unsigned number of at most
/// 99,999,999.
pub open spec fn counter_of(value: Seq<char>) -> Result<int, Error> {
    match usize_literal(trimmed(value)) {
        None => Err(Error::Parse(ParseError::InvalidInteger)),
        Some(n) => if n > MAX_COUNTER {
            Err(Error::Validation(ValidationError::CounterTooLarge))
        } else {
            Ok(n as int)
        },
    }
}

/// The row after the field is set to the value offered, or why the value is
/// refused. White space around the value does not count. An identifier must
/// be a number of at most 999; a name has at most 30 characters; a date takes
/// at most 30 bytes and must have been read as a date, which `date_ok` says;
/// a counter must be a number of at most 99,999,999; a rate is a decimal of
/// at most 99,999.99 with at most two digits after the point.
pub open spec fn edited(
    row: RowView,
    field: EditField,
    value: Seq<char>,
    lang: Lang,
    date_ok: bool,
) -> Result<RowView, Error> {
    let t = trimmed(value);
    match field {
        EditField::Identifier => match usize_literal(t) {
            None => Err(Error::Parse(ParseError::InvalidInteger)),
            Some(n) => if n > MAX_IDENTIFIER {
                Err(Error::Validation(ValidationError::IdentifierTooLarge))
            } else {
                Ok(RowView { pruid: n as int, ..row })
            },
        },
        EditField::Name => if t.len() > MAX_NAME_CHARS {
            Err(Error::Validation(ValidationError::NameTooLong))
        } else {
            match lang {
                Lang::EN => Ok(RowView { prname: t, ..row }),
                Lang::FR => Ok(RowView { prname_fr: t, ..row }),
            }
        },
        EditField::Date => if byte_len(t) > MAX_DATE_BYTES {
            Err(Error::Validation(ValidationError::DateTooLong))
        } else if !date_ok {
            Err(Error::Validation(ValidationError::DateMalformed))
        } else {
            Ok(RowView { date: t, ..row })
        },
        EditField::Confirmed => match counter_of(value) {
            Ok(n) => Ok(RowView { numconf: n, ..row }),
            Err(e) => Err(e),
        },
        EditField::Probable => match counter_of(value) {
            Ok(n) => Ok(RowView { numprob: n, ..row }),
            Err(e) => Err(e),
        },
        EditField::Deaths => match counter_of(value) {
            Ok(n) => Ok(RowView { numdeaths: n, ..row }),
            Err(e) => Err(e),
        },
        EditField::Total => match counter_of(value) {
            Ok(n) => Ok(RowView { numtotal: n, ..row }),
            Err(e) => Err(e),
        },
        EditField::Today => match counter_of(value) {
            Ok(n) => Ok(RowView { numtoday: n, ..row }),
            Err(e) => Err(e),
        },
        EditField::Rate => match hundredths_literal(t) {
            Err(DecimalFault::Malformed) => Err(Error::Validation(ValidationError::RateMalformed)),
            Err(DecimalFault::TooPrecise) => Err(
                Error::Validation(ValidationError::RateTooPrecise),
            ),
            Err(DecimalFault::TooLarge) => Err(Error::Validation(ValidationError::RateTooLarge)),
            Ok(h) => if h > MAX_RATE {
                Err(Error::Validation(ValidationError::RateTooLarge))
            } else {
                Ok(RowView { ratetotal: h, ..row })
            },
        },
    }
}

/// Whether the date that an edit offers was read as one: asked only of the
/// date field and of a value short enough.
pub open spec fn date_accepted(field: EditField, value: Seq<char>) -> bool {
    field == EditField::Date && byte_len(trimmed(value)) <= MAX_DATE_BYTES && date_parses(
        trimmed(value),
        date_format(),
    )
}

/// The phase and outcome of a step of the dialogue on the row at `index`,
/// and the rows after it. At the menu a line picks a column, quits, or is
/// not understood. A value offered is stored, and the dialogue asks whether
/// to go on, or it is refused, and the same column is asked for again. After
/// a stored value `q` in either case ends the dialogue and anything else
/// leads back to the menu.
pub open spec fn edit_step_of(
    phase: EditPhase,
    rows: Seq<RowView>,
    index: int,
    input: Seq<char>,
    lang: Lang,
    date_ok: bool,
) -> (EditPhase, EditOutcome, Seq<RowView>) {
    match phase {
        EditPhase::ChoosingColumn => match choice_of(input) {
            EditChoice::Field(f) => (EditPhase::EnteringValue(f), EditOutcome::Moved, rows),
            EditChoice::Quit => (EditPhase::Done, EditOutcome::Moved, rows),
            EditChoice::Unknown => (EditPhase::ChoosingColumn, EditOutcome::UnknownColumn, rows),
        },
        EditPhase::EnteringValue(f) => match edited(rows[index], f, input, lang, date_ok) {
            Ok(row) => (EditPhase::Confirming, EditOutcome::Committed, rows.update(index, row)),
            Err(e) => (EditPhase::EnteringValue(f), EditOutcome::Rejected(e), rows),
        },
        EditPhase::Confirming => if is_letter(input, 'q', 'Q') {
            (EditPhase::Done, EditOutcome::Moved, rows)
        } else {
            (EditPhase::ChoosingColumn, EditOutcome::Moved, rows)
        },
        EditPhase::Done => (EditPhase::Done, EditOutcome::Moved, rows),
    }
}

/// Whether `v` is the single character `c` or the single character `d`.
pub fn is_either(v: &Vec<char>, c: char, d: char) -> (b: bool)
    ensures
        b == (v@ == seq![c] || v@ == seq![d]),
{
    if v.len() != 1 {
        assert(v@.len() != seq![c].len());
        return false;
    }
    let x = v[0];
    assert(v@ =~= seq![x]);
    assert(seq![c][0] == c && seq![d][0] == d);
    x == c || x == d
}

/// Whether a line is the single letter `c` or `d`, with any white space
/// around it.
pub fn reads_letter(input: &str, c: char, d: char) -> (b: bool)
    ensures
        b == is_letter(input@, c, d),
{
    is_either(&trim_chars(&chars_of(input)), c, d)
}

/// The row that a request to edit or delete names.
pub fn target_row(search_index: &str, data: &Vec<DataRow>) -> (r: Result<
    Option<usize>,
    ParseError,
>)
    ensures
        r == target_of(search_index@, data.len() as nat),
{
    match parse_usize(&trim_chars(&chars_of(search_index))) {
        None => Err(ParseError::InvalidInteger),
        Some(index) => if index < data.len() {
            Ok(Some(index))
        } else {
            Ok(None)
        },
    }
}

/// Reads a line of the column menu.
pub fn read_choice(input: &str) -> (c: EditChoice)
    ensures
        c == choice_of(input@),
{
    let t = trim_chars(&chars_of(input));
    if t.len() == 1 {
        let x = t[0];
        assert(t@ =~= seq![x]);
        assert(t@.len() != seq!['1', '0'].len());
        if x == '1' {
            EditChoice::Field(EditField::Identifier)
        } else if x == '2' || x == '3' {
            EditChoice::Field(EditField::Name)
        } else if x == '4' {
            EditChoice::Field(EditField::Date)
        } else if x == '5' {
            EditChoice::Field(EditField::Confirmed)
        } else if x == '6' {
            EditChoice::Field(EditField::Probable)
        } else if x == '7' {
            EditChoice::Field(EditField::Deaths)
        } else if x == '8' {
            EditChoice::Field(EditField::Total)
        } else if x == '9' {
            EditChoice::Field(EditField::Today)
        } else if x == 'q' || x == 'Q' {
            EditChoice::Quit
        } else {
            assert(seq![x][0] == x);
            EditChoice::Unknown
        }
    } else if t.len() == 2 {
        assert(t@.len() != seq!['1'].len());
        if t[0] == '1' && t[1] == '0' {
            assert(t@ =~= seq!['1', '0']);
            EditChoice::Field(EditField::Rate)
        } else {
            assert(seq!['1', '0'][0] == '1' && seq!['1', '0'][1] == '0');
            EditChoice::Unknown
        }
    } else {
        assert(t@.len() != seq!['1'].len());
        assert(t@.len() != seq!['1', '0'].len());
        EditChoice::Unknown
    }
}

/// Reads the counter that a text offers.
pub fn read_counter(value: &str) -> (r: Result<isize, Error>)
    ensures
        match counter_of(value@) {
            Ok(n) => r is Ok && r->Ok_0 == n,
            Err(e) => r == Err::<isize, Error>(e),
        },
{
    match parse_usize(&trim_chars(&chars_of(value))) {
        None => Err(Error::Parse(ParseError::InvalidInteger)),
        Some(n) => if n > MAX_COUNTER {
            Err(Error::Validation(ValidationError::CounterTooLarge))
        } else {
            Ok(n as isize)
        },
    }
}

/// Sets the field of the row to the value offered, where it keeps the bounds
/// of the field; a refused value leaves the row as it is. `date_ok` says
/// whether the value was read as a date, which matters for the date field
/// alone.
pub fn apply_edit(
    row: &mut DataRow,
    field: EditField,
    value: &str,
    lang: Lang,
    date_ok: bool,
) -> (r: Result<(), Error>)
    ensures
        match edited(old(row)@, field, value@, lang, date_ok) {
            Ok(after) => r is Ok && final(row)@ == after,
            Err(e) => r == Err::<(), Error>(e) && final(row)@ == old(row)@,
        },
{
    let t = trim_chars(&chars_of(value));
    match field {
        EditField::Identifier => match parse_usize(&t) {
            None => Err(Error::Parse(ParseError::InvalidInteger)),
            Some(n) => if n > MAX_IDENTIFIER {
                Err(Error::Validation(ValidationError::IdentifierTooLarge))
            } else {
                row.pruid = n as isize;
                Ok(())
            },
        },
        EditField::Name => if t.len() > MAX_NAME_CHARS {
            Err(Error::Validation(ValidationError::NameTooLong))
        } else {
            match lang {
                Lang::EN => {
                    row.prname = string_of(&t);
                },
                Lang::FR => {
                    row.prname_fr = string_of(&t);
                },
            }
            Ok(())
        },
        EditField::Date => {
            let text = string_of(&t);
            if !fits_column(text.as_str(), MAX_DATE_BYTES) {
                Err(Error::Validation(ValidationError::DateTooLong))
            } else if !date_ok {
                Err(Error::Validation(ValidationError::DateMalformed))
            } else {
                row.date = text;
                Ok(())
            }
        },
        EditField::Confirmed => match read_counter(value) {
            Ok(n) => {
                row.numconf = n;
                Ok(())
            },
            Err(e) => Err(e),
        },
        EditField::Probable => match read_counter(value) {
            Ok(n) => {
                row.numprob = n;
                Ok(())
            },
            Err(e) => Err(e),
        },
        EditField::Deaths => match read_counter(value) {
            Ok(n) => {
                row.numdeaths = n;
                Ok(())
            },
            Err(e) => Err(e),
        },
        EditField::Total => match read_counter(value) {
            Ok(n) => {
                row.numtotal = n;
                Ok(())
            },
            Err(e) => Err(e),
        },
        EditField::Today => match read_counter(value) {
            Ok(n) => {
                row.numtoday = n;
                Ok(())
            },
            Err(e) => Err(e),
        },
        EditField::Rate => match parse_hundredths(&t) {
            Err(DecimalFault::Malformed) => Err(Error::Validation(ValidationError::RateMalformed)),
            Err(DecimalFault::TooPrecise) => Err(
                Error::Validation(ValidationError::RateTooPrecise),
            ),
            Err(DecimalFault::TooLarge) => Err(Error::Validation(ValidationError::RateTooLarge)),
            Ok(h) => if h > MAX_RATE {
                Err(Error::Validation(ValidationError::RateTooLarge))
            } else {
                row.ratetotal = h;
                Ok(())
            },
        },
    }
}

/// Whether the value offered for the field is read as a date. Only a value
/// for the date field that is short enough is looked at.
pub fn check_date(field: EditField, value: &str) -> (ok: bool)
    ensures
        ok == date_accepted(field, value@),
{
    match field {
        EditField::Date => {
            let text = string_of(&trim_chars(&chars_of(value)));
            if fits_column(text.as_str(), MAX_DATE_BYTES) {
                reads_as_date(text.as_str(), "%Y-%m-%d")
            } else {
                false
            }
        },
        _ => false,
    }
}

/// Sets the field of the row to the value offered, where it keeps the bounds
/// of the field; a refused value leaves the row as it is.
pub fn edit_row(row: &mut DataRow, field: EditField, value: &str, lang: Lang) -> (r: Result<
    (),
    Error,
>)
    ensures
        match edited(old(row)@, field, value@, lang, date_accepted(field, value@)) {
            Ok(after) => r is Ok && final(row)@ == after,
            Err(e) => r == Err::<(), Error>(e) && final(row)@ == old(row)@,
        },
{
    let date_ok = check_date(field, value);
    apply_edit(row, field, value, lang, date_ok)
}

/// One step of the editing dialogue on the row at `index`: takes the line
/// read in the phase given, changes the row where a value is stored, and
/// returns the phase that follows with what happened. `date_ok` says whether
/// the line was read as a date.
pub fn edit_step_with(
    phase: EditPhase,
    data: &mut Vec<DataRow>,
    index: usize,
    input: &str,
    config: &Config,
    date_ok: bool,
) -> (r: (EditPhase, EditOutcome))
    requires
        index < old(data).len(),
    ensures
        (r.0, r.1, rows_view(final(data)@)) == edit_step_of(
            phase,
            rows_view(old(data)@),
            index as int,
            input@,
            config.language,
            date_ok,
        ),
        final(data).len() == old(data).len(),
{
    match phase {
        EditPhase::ChoosingColumn => match read_choice(input) {
            EditChoice::Field(f) => (EditPhase::EnteringValue(f), EditOutcome::Moved),
            EditChoice::Quit => (EditPhase::Done, EditOutcome::Moved),
            EditChoice::Unknown => (EditPhase::ChoosingColumn, EditOutcome::UnknownColumn),
        },
        EditPhase::EnteringValue(f) => {
            let mut row = data[index].clone();
            assert(rows_view(data@)[index as int] == row@);
            match apply_edit(&mut row, f, input, config.language, date_ok) {
                Ok(()) => {
                    let ghost before = data@;
                    data.set(index, row);
                    assert(rows_view(data@) =~= rows_view(before).update(index as int, row@));
                    (EditPhase::Confirming, EditOutcome::Committed)
                },
                Err(e) => (EditPhase::EnteringValue(f), EditOutcome::Rejected(e)),
            }
        },
        EditPhase::Confirming => if reads_letter(input, 'q', 'Q') {
            (EditPhase::Done, EditOutcome::Moved)
        } else {
            (EditPhase::ChoosingColumn, EditOutcome::Moved)
        },
        EditPhase::Done => (EditPhase::Done, EditOutcome::Moved),
    }
}

/// One step of the editing dialogue on the row at `index`: takes the line
/// read in the phase given, changes the row where a value is stored, and
/// returns the phase that follows with what happened.
pub fn edit_step(
    phase: EditPhase,
    data: &mut Vec<DataRow>,
    index: usize,
    input: &str,
    config: &Config,
) -> (r: (EditPhase, EditOutcome))
    requires
        index < old(data).len(),
    ensures
        (r.0, r.1, rows_view(final(data)@)) == edit_step_of(
            phase,
            rows_view(old(data)@),
            index as int,
            input@,
            config.language,
            match phase {
                EditPhase::EnteringValue(f) => date_accepted(f, input@),
                _ => false,
            },
        ),
        final(data).len() == old(data).len(),
{
    let date_ok = match phase {
        EditPhase::EnteringValue(f) => check_date(f, input),
        _ => false,
    };
    edit_step_with(phase, data, index, input, config, date_ok)
}

/// Removes the row at `index` where there is one and the answer is `y` in
/// either case; otherwise the rows stay as they are. Says whether a row was
/// removed.
pub fn delete(data: &mut Vec<DataRow>, index: usize, answer: &str) -> (removed: bool)
    ensures
        removed == (index < old(data).len() && is_letter(answer@, 'y', 'Y')),
        removed ==> final(data)@ == old(data)@.remove(index as int),
        !removed ==> final(data)@ == old(data)@,
{
    if index < data.len() && reads_letter(answer, 'y', 'Y') {
        data.remove(index);
        true
    } else {
        false
    }
}

} // verus!
