use covid_data::datastore::DataRow;
use covid_data::edit::{
    apply_edit, check_date, delete, edit_row, edit_step, edit_step_with, read_choice, reads_letter,
    target_row, EditChoice, EditField, EditOutcome, EditPhase, MAX_COUNTER, MAX_DATE_BYTES,
    MAX_IDENTIFIER, MAX_NAME_CHARS, MAX_RATE,
};
use covid_data::logic::{Config, Error, Lang, ParseError, ValidationError};

fn english() -> Config {
    Config { language: Lang::EN, filename: String::from("covid19-download.csv") }
}

fn french() -> Config {
    Config { language: Lang::FR, filename: String::from("covid19-download.csv") }
}

fn ontario() -> DataRow {
    DataRow {
        pruid: 35,
        prname: String::from("Ontario"),
        prname_fr: String::from("Ontario (fr)"),
        date: String::from("2020-01-31"),
        numconf: 3,
        numprob: 0,
        numdeaths: 0,
        numtotal: 3,
        numtoday: 3,
        ratetotal: 2,
    }
}

fn refused(e: ValidationError) -> Result<(), Error> {
    Err(Error::Validation(e))
}

#[test]
fn identifier_above_the_bound_is_refused_and_the_bound_is_stored() {
    let mut row = ontario();
    assert_eq!(
        edit_row(&mut row, EditField::Identifier, "1000\n", Lang::EN),
        refused(ValidationError::IdentifierTooLarge)
    );
    assert_eq!(row, ontario());
    assert_eq!(edit_row(&mut row, EditField::Identifier, "999\n", Lang::EN), Ok(()));
    assert_eq!(row.pruid, 999);
    let mut expected = ontario();
    expected.pruid = 999;
    assert_eq!(row, expected);
    assert_eq!(MAX_IDENTIFIER, 999);
}

#[test]
fn identifier_must_be_a_number() {
    let mut row = ontario();
    for text in ["", "abc", "-1", "1.0", "12 3"] {
        assert_eq!(
            edit_row(&mut row, EditField::Identifier, text, Lang::EN),
            Err(Error::Parse(ParseError::InvalidInteger))
        );
    }
    assert_eq!(row, ontario());
    assert_eq!(edit_row(&mut row, EditField::Identifier, "  0 ", Lang::EN), Ok(()));
    assert_eq!(row.pruid, 0);
}

#[test]
fn a_name_has_at_most_thirty_characters() {
    let mut row = ontario();
    let thirty = "é".repeat(30);
    assert_eq!(edit_row(&mut row, EditField::Name, &format!("  {}\n", thirty), Lang::EN), Ok(()));
    assert_eq!(row.prname, thirty);
    assert_eq!(row.prname_fr, "Ontario (fr)");
    let longer = "a".repeat(31);
    assert_eq!(
        edit_row(&mut row, EditField::Name, &longer, Lang::EN),
        refused(ValidationError::NameTooLong)
    );
    assert_eq!(row.prname, thirty);
    assert_eq!(edit_row(&mut row, EditField::Name, "\n", Lang::EN), Ok(()));
    assert_eq!(row.prname, "");
    assert_eq!(MAX_NAME_CHARS, 30);
}

#[test]
fn the_name_set_is_the_one_of_the_display_language() {
    let mut row = ontario();
    assert_eq!(edit_row(&mut row, EditField::Name, "Nouveau\n", Lang::FR), Ok(()));
    assert_eq!(row.prname, "Ontario");
    assert_eq!(row.prname_fr, "Nouveau");
    assert_eq!(edit_row(&mut row, EditField::Name, "New\n", Lang::EN), Ok(()));
    assert_eq!(row.prname, "New");
    assert_eq!(row.prname_fr, "Nouveau");
}

#[test]
fn a_date_must_be_read_as_year_month_and_day() {
    let mut row = ontario();
    assert_eq!(edit_row(&mut row, EditField::Date, "2021-12-25\n", Lang::EN), Ok(()));
    assert_eq!(row.date, "2021-12-25");
    for text in ["2021-13-01", "2021-02-30", "25-12-2021x", "yesterday", "", "2021/12/25", "2021-12"] {
        assert_eq!(
            edit_row(&mut row, EditField::Date, text, Lang::EN),
            refused(ValidationError::DateMalformed),
            "{}",
            text
        );
        assert_eq!(row.date, "2021-12-25");
    }
    assert_eq!(edit_row(&mut row, EditField::Date, "2024-02-29", Lang::EN), Ok(()));
    assert_eq!(row.date, "2024-02-29");
    assert_eq!(
        edit_row(&mut row, EditField::Date, "2023-02-29", Lang::EN),
        refused(ValidationError::DateMalformed)
    );
}

#[test]
fn a_date_of_more_than_thirty_bytes_is_too_long() {
    let mut row = ontario();
    let long = format!("2021-12-25{}", "0".repeat(21));
    assert_eq!(
        edit_row(&mut row, EditField::Date, &long, Lang::EN),
        refused(ValidationError::DateTooLong)
    );
    assert_eq!(row, ontario());
    assert_eq!(MAX_DATE_BYTES, 30);
    assert!(!check_date(EditField::Date, &long));
}

#[test]
fn only_a_date_is_asked_about() {
    assert!(check_date(EditField::Date, " 2020-02-29 \n"));
    assert!(!check_date(EditField::Date, "2020-02-30"));
    assert!(!check_date(EditField::Name, "2020-02-29"));
    assert!(!check_date(EditField::Rate, "2020-02-29"));
}

#[test]
fn what_the_date_reader_said_decides() {
    let mut row = ontario();
    assert_eq!(apply_edit(&mut row, EditField::Date, " anything \n", Lang::EN, true), Ok(()));
    assert_eq!(row.date, "anything");
    assert_eq!(
        apply_edit(&mut row, EditField::Date, "2020-01-01", Lang::EN, false),
        refused(ValidationError::DateMalformed)
    );
    assert_eq!(row.date, "anything");
    let long = "x".repeat(31);
    assert_eq!(
        apply_edit(&mut row, EditField::Date, &long, Lang::EN, true),
        refused(ValidationError::DateTooLong)
    );
    assert_eq!(apply_edit(&mut row, EditField::Date, &"x".repeat(30), Lang::EN, true), Ok(()));
    assert_eq!(row.date, "x".repeat(30));
    assert_eq!(
        apply_edit(&mut row, EditField::Date, &"é".repeat(16), Lang::EN, true),
        refused(ValidationError::DateTooLong)
    );
    assert_eq!(apply_edit(&mut row, EditField::Identifier, "7", Lang::EN, false), Ok(()));
    assert_eq!(row.pruid, 7);
}

#[test]
fn counters_go_up_to_eight_nines() {
    let fields = [
        EditField::Confirmed,
        EditField::Probable,
        EditField::Deaths,
        EditField::Total,
        EditField::Today,
    ];
    for (k, field) in fields.iter().enumerate() {
        let mut row = ontario();
        assert_eq!(
            edit_row(&mut row, *field, "100000000", Lang::EN),
            refused(ValidationError::CounterTooLarge)
        );
        assert_eq!(
            edit_row(&mut row, *field, "ten", Lang::EN),
            Err(Error::Parse(ParseError::InvalidInteger))
        );
        assert_eq!(row, ontario());
        assert_eq!(edit_row(&mut row, *field, " 99999999\n", Lang::EN), Ok(()));
        let got = [row.numconf, row.numprob, row.numdeaths, row.numtotal, row.numtoday];
        let was = [3, 0, 0, 3, 3];
        for j in 0..5 {
            assert_eq!(got[j], if j == k { 99999999 } else { was[j] });
        }
    }
    assert_eq!(MAX_COUNTER, 99_999_999);
}

#[test]
fn a_rate_has_two_places_and_a_bound() {
    let mut row = ontario();
    assert_eq!(edit_row(&mut row, EditField::Rate, "99999.99\n", Lang::EN), Ok(()));
    assert_eq!(row.ratetotal, 9_999_999);
    assert_eq!(
        edit_row(&mut row, EditField::Rate, "100000", Lang::EN),
        refused(ValidationError::RateTooLarge)
    );
    assert_eq!(
        edit_row(&mut row, EditField::Rate, "100000.00", Lang::EN),
        refused(ValidationError::RateTooLarge)
    );
    assert_eq!(
        edit_row(&mut row, EditField::Rate, "99999999999999999999999999", Lang::EN),
        refused(ValidationError::RateTooLarge)
    );
    assert_eq!(
        edit_row(&mut row, EditField::Rate, "1.234", Lang::EN),
        refused(ValidationError::RateTooPrecise)
    );
    assert_eq!(
        edit_row(&mut row, EditField::Rate, "one", Lang::EN),
        refused(ValidationError::RateMalformed)
    );
    assert_eq!(
        edit_row(&mut row, EditField::Rate, "-1.5", Lang::EN),
        refused(ValidationError::RateMalformed)
    );
    assert_eq!(row.ratetotal, 9_999_999);
    assert_eq!(edit_row(&mut row, EditField::Rate, "12", Lang::EN), Ok(()));
    assert_eq!(row.ratetotal, 1200);
    assert_eq!(edit_row(&mut row, EditField::Rate, " 0.5 ", Lang::EN), Ok(()));
    assert_eq!(row.ratetotal, 50);
    assert_eq!(MAX_RATE, 9_999_999);
}

#[test]
fn the_row_that_a_request_names() {
    let data = vec![ontario(), ontario(), ontario()];
    assert_eq!(target_row("0", &data), Ok(Some(0)));
    assert_eq!(target_row(" 2\n", &data), Ok(Some(2)));
    assert_eq!(target_row("3", &data), Ok(None));
    assert_eq!(target_row("1000", &data), Ok(None));
    assert_eq!(target_row("", &data), Err(ParseError::InvalidInteger));
    assert_eq!(target_row("-1", &data), Err(ParseError::InvalidInteger));
    assert_eq!(target_row("one", &data), Err(ParseError::InvalidInteger));
    assert_eq!(target_row("0", &Vec::new()), Ok(None));
}

#[test]
fn the_column_menu() {
    assert_eq!(read_choice("1\n"), EditChoice::Field(EditField::Identifier));
    assert_eq!(read_choice("2"), EditChoice::Field(EditField::Name));
    assert_eq!(read_choice("3"), EditChoice::Field(EditField::Name));
    assert_eq!(read_choice("4"), EditChoice::Field(EditField::Date));
    assert_eq!(read_choice("5"), EditChoice::Field(EditField::Confirmed));
    assert_eq!(read_choice("6"), EditChoice::Field(EditField::Probable));
    assert_eq!(read_choice("7"), EditChoice::Field(EditField::Deaths));
    assert_eq!(read_choice("8"), EditChoice::Field(EditField::Total));
    assert_eq!(read_choice("9"), EditChoice::Field(EditField::Today));
    assert_eq!(read_choice(" 10 \n"), EditChoice::Field(EditField::Rate));
    assert_eq!(read_choice("q"), EditChoice::Quit);
    assert_eq!(read_choice("Q\n"), EditChoice::Quit);
    assert_eq!(read_choice("0"), EditChoice::Unknown);
    assert_eq!(read_choice("11"), EditChoice::Unknown);
    assert_eq!(read_choice("01"), EditChoice::Unknown);
    assert_eq!(read_choice(""), EditChoice::Unknown);
    assert_eq!(read_choice("100"), EditChoice::Unknown);
    assert_eq!(read_choice("x"), EditChoice::Unknown);
}

#[test]
fn a_dialogue_that_stores_a_value() {
    let config = english();
    let mut data = vec![ontario(), ontario()];
    let phase = EditPhase::ChoosingColumn;
    let (phase, outcome) = edit_step(phase, &mut data, 1, "5\n", &config);
    assert_eq!((phase, outcome), (EditPhase::EnteringValue(EditField::Confirmed), EditOutcome::Moved));
    let (phase, outcome) = edit_step(phase, &mut data, 1, "100000000\n", &config);
    assert_eq!(
        (phase, outcome),
        (
            EditPhase::EnteringValue(EditField::Confirmed),
            EditOutcome::Rejected(Error::Validation(ValidationError::CounterTooLarge))
        )
    );
    assert_eq!(data, vec![ontario(), ontario()]);
    let (phase, outcome) = edit_step(phase, &mut data, 1, "word\n", &config);
    assert_eq!(
        (phase, outcome),
        (
            EditPhase::EnteringValue(EditField::Confirmed),
            EditOutcome::Rejected(Error::Parse(ParseError::InvalidInteger))
        )
    );
    let (phase, outcome) = edit_step(phase, &mut data, 1, "12\n", &config);
    assert_eq!((phase, outcome), (EditPhase::Confirming, EditOutcome::Committed));
    let mut changed = ontario();
    changed.numconf = 12;
    assert_eq!(data, vec![ontario(), changed.clone()]);
    let (phase, outcome) = edit_step(phase, &mut data, 1, "\n", &config);
    assert_eq!((phase, outcome), (EditPhase::ChoosingColumn, EditOutcome::Moved));
    let (phase, outcome) = edit_step(phase, &mut data, 1, "12\n", &config);
    assert_eq!((phase, outcome), (EditPhase::ChoosingColumn, EditOutcome::UnknownColumn));
    let (phase, outcome) = edit_step(phase, &mut data, 1, "4\n", &config);
    assert_eq!((phase, outcome), (EditPhase::EnteringValue(EditField::Date), EditOutcome::Moved));
    let (phase, outcome) = edit_step(phase, &mut data, 1, "2020-02-30\n", &config);
    assert_eq!(
        (phase, outcome),
        (
            EditPhase::EnteringValue(EditField::Date),
            EditOutcome::Rejected(Error::Validation(ValidationError::DateMalformed))
        )
    );
    let (phase, outcome) = edit_step(phase, &mut data, 1, "2020-02-29\n", &config);
    assert_eq!((phase, outcome), (EditPhase::Confirming, EditOutcome::Committed));
    changed.date = String::from("2020-02-29");
    assert_eq!(data, vec![ontario(), changed.clone()]);
    let (phase, outcome) = edit_step(phase, &mut data, 1, "Q\n", &config);
    assert_eq!((phase, outcome), (EditPhase::Done, EditOutcome::Moved));
    let (phase, outcome) = edit_step(phase, &mut data, 1, "5\n", &config);
    assert_eq!((phase, outcome), (EditPhase::Done, EditOutcome::Moved));
    assert_eq!(data, vec![ontario(), changed]);
}

// The menu shows two name columns, and picking either sets the name of the
// display language. Whether the second was meant to set the other name is an
// open question; this is the behaviour as it stands.
#[test]
fn both_name_columns_set_the_name_shown() {
    let mut data = vec![ontario()];
    let (phase, _) = edit_step(EditPhase::ChoosingColumn, &mut data, 0, "3\n", &french());
    assert_eq!(phase, EditPhase::EnteringValue(EditField::Name));
    let (phase, outcome) = edit_step(phase, &mut data, 0, "Nom\n", &french());
    assert_eq!((phase, outcome), (EditPhase::Confirming, EditOutcome::Committed));
    assert_eq!(data[0].prname_fr, "Nom");
    assert_eq!(data[0].prname, "Ontario");
    let (phase, _) = edit_step(EditPhase::ChoosingColumn, &mut data, 0, "3\n", &english());
    let (_, outcome) = edit_step(phase, &mut data, 0, "Name\n", &english());
    assert_eq!(outcome, EditOutcome::Committed);
    assert_eq!(data[0].prname, "Name");
    assert_eq!(data[0].prname_fr, "Nom");
}

#[test]
fn quitting_at_the_menu() {
    let mut data = vec![ontario()];
    assert_eq!(
        edit_step(EditPhase::ChoosingColumn, &mut data, 0, "q\n", &english()),
        (EditPhase::Done, EditOutcome::Moved)
    );
    assert_eq!(data, vec![ontario()]);
}

#[test]
fn a_step_with_the_date_reader_s_word() {
    let mut data = vec![ontario()];
    let phase = EditPhase::EnteringValue(EditField::Date);
    assert_eq!(
        edit_step_with(phase, &mut data, 0, "2020-05-05", &english(), false),
        (phase, EditOutcome::Rejected(Error::Validation(ValidationError::DateMalformed)))
    );
    assert_eq!(data, vec![ontario()]);
    assert_eq!(
        edit_step_with(phase, &mut data, 0, "2020-05-05", &english(), true),
        (EditPhase::Confirming, EditOutcome::Committed)
    );
    assert_eq!(data[0].date, "2020-05-05");
}

#[test]
fn a_row_is_removed_on_yes_only() {
    let mut first = ontario();
    first.pruid = 1;
    let mut second = ontario();
    second.pruid = 2;
    let mut third = ontario();
    third.pruid = 3;
    let mut data = vec![first.clone(), second.clone(), third.clone()];
    assert!(!delete(&mut data, 1, "n\n"));
    assert!(!delete(&mut data, 1, "\n"));
    assert!(!delete(&mut data, 1, "yes\n"));
    assert!(!delete(&mut data, 3, "y\n"));
    assert_eq!(data.len(), 3);
    assert!(delete(&mut data, 1, "y\n"));
    assert_eq!(data, vec![first.clone(), third.clone()]);
    assert!(delete(&mut data, 0, " Y "));
    assert_eq!(data, vec![third]);
    assert!(reads_letter("y", 'y', 'Y'));
    assert!(!reads_letter("n", 'y', 'Y'));
}
