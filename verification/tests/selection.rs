use covid_data::datastore::DataRow;
use covid_data::logic::{search, Config, Lang, ParseError};

fn config() -> Config {
    Config { language: Lang::EN, filename: String::from("covid19-download.csv") }
}

fn select(expression: &str) -> Result<Vec<usize>, ParseError> {
    let data: Vec<DataRow> = Vec::new();
    search(String::from(expression), &config(), &data)
}

#[test]
fn list_and_range_give_indices_in_order() {
    assert_eq!(select("4,7,9-14"), Ok(vec![4, 7, 9, 10, 11, 12, 13]));
}

#[test]
fn range_with_equal_ends_is_empty() {
    assert_eq!(select("2-2"), Ok(Vec::new()));
}

#[test]
fn two_dashes_are_a_malformed_term() {
    assert_eq!(select("a-b-c"), Err(ParseError::MalformedTerm));
    assert_eq!(select("1-2-3"), Err(ParseError::MalformedTerm));
    assert_eq!(select("--"), Err(ParseError::MalformedTerm));
}

#[test]
fn a_word_is_an_invalid_integer() {
    assert_eq!(select("x"), Err(ParseError::InvalidInteger));
}

#[test]
fn white_space_around_numbers_is_ignored() {
    assert_eq!(select(" 4 , 7,  9 - 12 \n"), Ok(vec![4, 7, 9, 10, 11]));
    assert_eq!(select("\t3\r\n"), Ok(vec![3]));
}

#[test]
fn duplicates_and_any_order_are_kept() {
    assert_eq!(select("5,1,5,0-2,1"), Ok(vec![5, 1, 5, 0, 1, 1]));
}

#[test]
fn a_range_that_runs_backwards_is_empty() {
    assert_eq!(select("9-4"), Ok(Vec::new()));
    assert_eq!(select("3,9-4,2"), Ok(vec![3, 2]));
}

#[test]
fn empty_terms_and_signs_are_invalid_integers() {
    assert_eq!(select(""), Err(ParseError::InvalidInteger));
    assert_eq!(select("4,"), Err(ParseError::InvalidInteger));
    assert_eq!(select(",4"), Err(ParseError::InvalidInteger));
    assert_eq!(select("-5"), Err(ParseError::InvalidInteger));
    assert_eq!(select("5-"), Err(ParseError::InvalidInteger));
    assert_eq!(select("1 2"), Err(ParseError::InvalidInteger));
    assert_eq!(select("1.5"), Err(ParseError::InvalidInteger));
}

#[test]
fn a_plus_sign_and_leading_zeros_are_read() {
    assert_eq!(select("+4,007"), Ok(vec![4, 7]));
}

#[test]
fn a_number_too_large_is_an_invalid_integer() {
    assert_eq!(select("99999999999999999999999999"), Err(ParseError::InvalidInteger));
}

#[test]
fn the_first_wrong_term_decides_the_error() {
    assert_eq!(select("1,x,1-2-3"), Err(ParseError::InvalidInteger));
    assert_eq!(select("1,1-2-3,x"), Err(ParseError::MalformedTerm));
    assert_eq!(select("x-1-2"), Err(ParseError::MalformedTerm));
}

#[test]
fn indices_beyond_the_rows_are_not_refused() {
    assert_eq!(select("1000000,5"), Ok(vec![1000000, 5]));
}
