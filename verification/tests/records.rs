use covid_data::datastore::{col_spacing, fits_column, layout, DataRow, Header};
use covid_data::logic::{Config, ConfigError, Lang};

fn english() -> Config {
    Config { language: Lang::EN, filename: String::from("covid19-download.csv") }
}

fn french() -> Config {
    Config { language: Lang::FR, filename: String::from("covid19-download.csv") }
}

fn quebec() -> DataRow {
    DataRow {
        pruid: 24,
        prname: String::from("Quebec"),
        prname_fr: String::from("Québec"),
        date: String::from("2020-03-31"),
        numconf: 4162,
        numprob: 0,
        numdeaths: 31,
        numtotal: 4162,
        numtoday: 732,
        ratetotal: 4905,
    }
}

fn labels() -> Vec<String> {
    ["pruid", "prname", "prnameFR", "date", "numconf", "numprob", "numdeaths", "numtotal", "numtoday", "ratetotal"]
        .iter()
        .map(|s| String::from(*s))
        .collect()
}

fn cell(text: &str, spaces: usize) -> String {
    format!("{}{}\t", text, " ".repeat(spaces))
}

#[test]
fn a_row_is_read_from_ten_fields() {
    let row = DataRow::new(vec!["24", "Quebec", "Québec", "2020-03-31", "4162", "0", "31", "4162", "732", "49.05"]);
    assert_eq!(row, quebec());
}

#[test]
fn empty_number_fields_stand_for_zero() {
    let row = DataRow::new(vec!["", "n", "f", "", "", "", "", "", "", ""]);
    assert_eq!(
        row,
        DataRow {
            pruid: 0,
            prname: String::from("n"),
            prname_fr: String::from("f"),
            date: String::new(),
            numconf: 0,
            numprob: 0,
            numdeaths: 0,
            numtotal: 0,
            numtoday: 0,
            ratetotal: 0,
        }
    );
}

#[test]
fn fields_after_the_tenth_are_ignored() {
    let row = DataRow::new(vec!["1", "a", "b", "c", "2", "3", "4", "5", "-6", "7", "x", "y"]);
    assert_eq!(row.pruid, 1);
    assert_eq!(row.numtoday, -6);
    assert_eq!(row.ratetotal, 700);
}

#[test]
fn what_denotes_no_row() {
    assert!(DataRow::parse(&vec!["1", "a", "b", "c", "2", "3", "4", "5", "6"]).is_none());
    assert!(DataRow::parse(&Vec::new()).is_none());
    assert!(DataRow::parse(&vec!["x", "a", "b", "c", "2", "3", "4", "5", "6", "7"]).is_none());
    assert!(DataRow::parse(&vec!["1", "a", "b", "c", "2.0", "3", "4", "5", "6", "7"]).is_none());
    assert!(DataRow::parse(&vec!["1", "a", "b", "c", "2", " 3", "4", "5", "6", "7"]).is_none());
    assert!(DataRow::parse(&vec!["1", "a", "b", "c", "2", "3", "4", "5", "6", "7.123"]).is_none());
    assert!(DataRow::parse(&vec!["1", "a", "b", "c", "2", "3", "4", "5", "6", "-7"]).is_none());
    assert!(DataRow::parse(&vec!["1", "a", "b", "c", "2", "3", "4", "5", "6", "7"]).is_some());
}

#[test]
fn a_row_is_stored_under_ten_fields() {
    assert_eq!(
        quebec().public_vec(),
        vec!["24", "Quebec", "Québec", "2020-03-31", "4162", "0", "31", "4162", "732", "49.05"]
    );
}

#[test]
fn stored_fields_read_back_as_the_row() {
    let row = DataRow {
        pruid: -3,
        prname: String::from(" spaced "),
        prname_fr: String::new(),
        date: String::from("anything"),
        numconf: isize::MAX,
        numprob: isize::MIN,
        numdeaths: 0,
        numtotal: 10,
        numtoday: -10,
        ratetotal: 1250,
    };
    let stored = row.public_vec();
    let fields: Vec<&str> = stored.iter().map(|s| s.as_str()).collect();
    assert_eq!(DataRow::parse(&fields), Some(row.clone()));
    assert_eq!(DataRow::new(fields), row);
}

#[test]
fn a_cell_is_padded_to_two_short_of_its_column() {
    assert_eq!(col_spacing(String::from("ab"), 8), "ab    \t");
    assert_eq!(col_spacing(String::new(), 8), "      \t");
    assert_eq!(col_spacing(String::from("abcde"), 8), "abcde \t");
    assert_eq!(col_spacing(String::from("abcdef"), 8), "abcdef\t");
    assert_eq!(col_spacing(String::from("abcdefg"), 8), "abcdefg\t");
    assert_eq!(col_spacing(String::from("abcdefgh"), 8), "abcdefgh\t");
    assert_eq!(col_spacing(String::new(), 0), "\t");
    assert_eq!(col_spacing(String::new(), 2), "\t");
    assert_eq!(col_spacing(String::new(), 3), " \t");
}

#[test]
fn padding_counts_bytes() {
    assert_eq!(col_spacing(String::from("Québec"), 10), "Québec \t");
    assert!(fits_column("Québec", 7));
    assert!(!fits_column("Québec", 6));
    assert!(fits_column("", 0));
}

#[test]
fn the_line_of_a_row_in_each_language() {
    let english_line = [
        cell("24", 4),
        cell("Quebec", 22),
        cell("2020-03-31", 3),
        cell("4162", 4),
        cell("0", 7),
        cell("31", 6),
        cell("4162", 4),
        cell("732", 5),
        cell("49.05", 3),
    ]
    .concat();
    assert_eq!(quebec().output_lang(&english()), english_line);
    let french_line = [
        cell("24", 4),
        cell("Québec", 21),
        cell("2020-03-31", 3),
        cell("4162", 4),
        cell("0", 7),
        cell("31", 6),
        cell("4162", 4),
        cell("732", 5),
        cell("49.05", 3),
    ]
    .concat();
    assert_eq!(quebec().output_lang(&french()), french_line);
}

#[test]
fn the_line_of_a_row_with_both_names() {
    let line = [
        cell("24", 4),
        cell("Quebec", 22),
        cell("Québec", 21),
        cell("2020-03-31", 3),
        cell("4162", 4),
        cell("0", 7),
        cell("31", 6),
        cell("4162", 4),
        cell("732", 5),
        cell("49.05", 3),
    ]
    .concat();
    assert_eq!(quebec().output_all(), line);
}

#[test]
fn whether_a_row_fits_its_columns() {
    assert!(quebec().fits_lang(&english()));
    assert!(quebec().fits_all());
    let mut long = quebec();
    long.prname_fr = "é".repeat(16);
    assert!(long.fits_lang(&english()));
    assert!(!long.fits_lang(&french()));
    assert!(!long.fits_all());
    long.prname_fr = "é".repeat(15);
    assert!(long.fits_lang(&french()));
    let mut wide = quebec();
    wide.pruid = 123456789;
    assert!(!wide.fits_lang(&english()));
    wide.pruid = -1234567;
    assert!(wide.fits_lang(&english()));
    wide.pruid = -12345678;
    assert!(!wide.fits_all());
}

#[test]
fn the_header_line_in_each_language() {
    let header = Header::new(labels());
    let english_line = [
        cell("pruid", 1),
        cell("prname", 22),
        cell("date", 9),
        cell("numconf", 1),
        cell("numprob", 1),
        cell("numdeaths", 0),
        cell("numtotal", 0),
        cell("numtoday", 0),
        cell("ratetotal", 0),
    ]
    .concat();
    assert_eq!(header.output_lang(&english()), english_line);
    let french_line = english_line.replace(&cell("prname", 22), &cell("prnameFR", 20));
    assert_eq!(header.output_lang(&french()), french_line);
}

#[test]
fn the_header_line_with_both_names() {
    let header = Header::new(labels());
    let line = [
        cell("pruid", 1),
        cell("prname", 22),
        cell("prnameFR", 20),
        cell("date", 9),
        cell("numconf", 1),
        cell("numprob", 1),
        cell("numdeaths", 0),
        cell("numtotal", 0),
        cell("numtoday", 0),
        cell("ratetotal", 0),
    ]
    .concat();
    assert_eq!(header.output_all(), line);
}

#[test]
fn whether_a_header_fits() {
    assert!(Header::new(labels()).fits_lang(&english()));
    assert!(Header::new(labels()).fits_all());
    let mut nine = labels();
    nine.pop();
    assert!(!Header::new(nine.clone()).fits_lang(&english()));
    assert!(!Header::new(nine).fits_all());
    let mut long = labels();
    long[0] = String::from("identifier");
    assert!(!Header::new(long.clone()).fits_lang(&french()));
    assert!(!Header::new(long).fits_all());
    let mut more = labels();
    more.push(String::from("a label that is far too long for any column at all"));
    assert!(Header::new(more.clone()).fits_all());
    assert_eq!(Header::new(more).output_all(), Header::new(labels()).output_all());
}

#[test]
fn a_header_keeps_its_labels() {
    let header = Header::new(labels());
    assert_eq!(header.labels, labels());
    assert_eq!(header.clone().labels, labels());
}

#[test]
fn cells_are_laid_out_one_after_another() {
    let cells = vec![String::from("a"), String::from("bc")];
    assert_eq!(layout(&cells, &vec![4, 3]), "a \tbc\t");
    assert_eq!(layout(&Vec::new(), &Vec::new()), "");
}

#[test]
fn rows_compare_by_all_their_fields() {
    let a = quebec();
    let mut b = quebec();
    assert!(a == b);
    assert!(!(a != b));
    b.ratetotal = 4906;
    assert!(a != b);
    let mut c = quebec();
    c.prname_fr = String::from("Quebec");
    assert!(a != c);
    assert_eq!(a.clone(), a);
}

#[test]
fn settings_from_the_language_argument() {
    let config = Config::new(Some("en")).unwrap();
    assert_eq!(config.language, Lang::EN);
    assert_eq!(config.filename, "covid19-download.csv");
    let config = Config::new(Some("fr")).unwrap();
    assert_eq!(config.language, Lang::FR);
    assert_eq!(config.filename, "covid19-download.csv");
    assert_eq!(Config::new(None).err(), Some(ConfigError::MissingLanguage));
    assert_eq!(Config::new(Some("de")).err(), Some(ConfigError::InvalidLanguage));
    assert_eq!(Config::new(Some("EN")).err(), Some(ConfigError::InvalidLanguage));
    assert_eq!(Config::new(Some("")).err(), Some(ConfigError::InvalidLanguage));
    assert_eq!(Config::new(Some(" en")).err(), Some(ConfigError::InvalidLanguage));
}

#[test]
fn settings_can_be_changed() {
    let mut config = Config::new(Some("en")).unwrap();
    config.change_lang(Lang::FR);
    assert_eq!(config.language, Lang::FR);
    assert_eq!(config.filename, "covid19-download.csv");
    config.change_file(String::from("datastore.csv"));
    assert_eq!(config.filename, "datastore.csv");
    assert_eq!(config.language, Lang::FR);
}
