use covid_data::datastore::{DataRow, Header};
use covid_data::logic::{Config, Lang};
use covid_data::persistence::{
    create_spacing, default_filter, lines_chars, load_data, read_source, reassemble, refresh_data,
    save_data, LoadError, Source, DOWNLOAD_LIMIT,
};

const DOWNLOAD: &str = "pruid,prname,prnameFR,date,update,numconf,numprob,numdeaths,numtotal,numtested,numrecover,percentrecover,ratetested,numtoday,percentoday,ratetotal\n\
35,Ontario,Ontario,2020-01-31,,3,0,0,3,,,,,3,300,0.02\n\
59,British Columbia,Colombie-Britannique,2020-01-31,,1,0,0,1,,,,,1,100,0.02\n\
1,Canada,Canada,2020-01-31,,4,0,0,4,,,,,4,400,0.01\n";

const STORED: &str = "pruid,prname,prnameFR,date,numconf,numprob,numdeaths,numtotal,numtoday,ratetotal\n\
35,Ontario,Ontario,2020-01-31,3,0,0,3,3,0.02\n\
59,British Columbia,Colombie-Britannique,2020-01-31,1,0,0,1,1,0.02\n\
1,Canada,Canada,2020-01-31,4,0,0,4,4,0.01\n";

fn download() -> Config {
    Config { language: Lang::EN, filename: String::from("covid19-download.csv") }
}

fn store() -> Config {
    Config { language: Lang::FR, filename: String::from("datastore.csv") }
}

fn row(pruid: isize, prname: &str, prname_fr: &str, cases: isize, rate: u64) -> DataRow {
    DataRow {
        pruid,
        prname: String::from(prname),
        prname_fr: String::from(prname_fr),
        date: String::from("2020-01-31"),
        numconf: cases,
        numprob: 0,
        numdeaths: 0,
        numtotal: cases,
        numtoday: cases,
        ratetotal: rate,
    }
}

fn three_rows() -> Vec<DataRow> {
    vec![
        row(35, "Ontario", "Ontario", 3, 2),
        row(59, "British Columbia", "Colombie-Britannique", 1, 2),
        row(1, "Canada", "Canada", 4, 1),
    ]
}

fn ten_labels() -> Vec<String> {
    ["pruid", "prname", "prnameFR", "date", "numconf", "numprob", "numdeaths", "numtotal", "numtoday", "ratetotal"]
        .iter()
        .map(|s| String::from(*s))
        .collect()
}

#[test]
fn test_refresh() {
    let mut config = download();
    let data_loaded: Vec<DataRow>;

    let both = load_data(&config, DOWNLOAD).unwrap();
    data_loaded = both.1;
    let mut data = data_loaded.clone();

    data.remove(1);
    assert_ne!(data, data_loaded);

    let both = refresh_data(&mut config, DOWNLOAD).unwrap();
    data = both.1;
    assert_eq!(data, data_loaded);
}

#[test]
fn the_download_is_cut_down_to_ten_columns() {
    let (header, data) = load_data(&download(), DOWNLOAD).unwrap();
    assert_eq!(header.labels, ten_labels());
    assert_eq!(data, three_rows());
}

#[test]
fn the_stored_table_is_read_as_it_is() {
    let (header, data) = load_data(&store(), STORED).unwrap();
    assert_eq!(header.labels, ten_labels());
    assert_eq!(data, three_rows());
}

#[test]
fn the_kept_columns_of_the_download() {
    assert_eq!(
        default_filter("0,1,2,3,4,5,6,7,8,9,10,11,12,13,14,15,16,17"),
        vec!["0", "1", "2", "3", "5", "6", "7", "8", "13", "15"]
    );
    assert_eq!(default_filter("a,b,c,d,e,f"), vec!["a", "b", "c", "d", "f"]);
    assert_eq!(default_filter(""), vec![""]);
    assert_eq!(default_filter(",,,,x,,"), vec!["", "", "", "", "", ""]);
}

#[test]
fn lines_end_with_a_line_feed_or_carriage_return_and_line_feed() {
    let lines = |s: &str| -> Vec<String> {
        lines_chars(&s.chars().collect()).iter().map(|l| l.iter().collect()).collect()
    };
    assert_eq!(lines("a\nb\n"), vec!["a", "b"]);
    assert_eq!(lines("a\r\nb"), vec!["a", "b"]);
    assert_eq!(lines("a\n\nb\r"), vec!["a", "", "b\r"]);
    assert_eq!(lines(""), Vec::<String>::new());
    assert_eq!(lines("\n"), vec![""]);
    assert_eq!(lines("a\r\r\n"), vec!["a\r"]);
    for s in ["", "\n", "a", "a\n", "a\r\n\r\nb", "\r", "\r\n", "x\ny\r", "\n\n"] {
        let expected: Vec<String> = s.lines().map(String::from).collect();
        assert_eq!(lines(s), expected, "{:?}", s);
    }
}

#[test]
fn lines_are_put_together_and_trimmed() {
    let lines = vec![String::from("  a"), String::from("b"), String::from("c  "), String::new()];
    assert_eq!(reassemble(&lines), "a\nb\nc");
    assert_eq!(reassemble(&Vec::new()), "");
    assert_eq!(reassemble(&vec![String::from("x")]), "x");
    assert_eq!(reassemble(&vec![String::new(), String::from("x"), String::new()]), "x");
}

#[test]
fn the_fill_of_an_empty_cell() {
    assert_eq!(create_spacing(8), "      \t");
    assert_eq!(create_spacing(3), " \t");
    assert_eq!(create_spacing(2), "\t");
    assert_eq!(create_spacing(1), "\t");
    assert_eq!(create_spacing(0), "\t");
}

#[test]
fn file_names_and_their_sources() {
    assert_eq!(read_source("covid19-download.csv"), Some(Source::Download));
    assert_eq!(read_source("datastore.csv"), Some(Source::Store));
    assert_eq!(read_source("other.csv"), None);
    assert_eq!(read_source(""), None);
    assert_eq!(read_source("Datastore.csv"), None);
}

#[test]
fn a_file_of_another_name_is_not_read() {
    let config = Config { language: Lang::EN, filename: String::from("table.csv") };
    assert_eq!(load_data(&config, STORED).err(), Some(LoadError::UnknownSource));
    assert_eq!(load_data(&config, "").err(), Some(LoadError::UnknownSource));
}

#[test]
fn a_text_without_a_line_holds_no_table() {
    assert_eq!(load_data(&store(), "").err(), Some(LoadError::Empty));
    assert_eq!(load_data(&download(), "").err(), Some(LoadError::Empty));
}

#[test]
fn labels_alone_make_a_table_without_rows() {
    let (header, data) = load_data(&store(), "a,b,c\n").unwrap();
    assert_eq!(header.labels, vec!["a", "b", "c"]);
    assert!(data.is_empty());
    let (header, data) = load_data(&store(), "a,b,c\n\n  \n").unwrap();
    assert_eq!(header.labels, vec!["a", "b", "c"]);
    assert!(data.is_empty());
    let (header, data) = load_data(&store(), "\n").unwrap();
    assert_eq!(header.labels, vec![""]);
    assert!(data.is_empty());
}

#[test]
fn the_first_line_that_denotes_no_row_is_named() {
    let text = "h\n1,a,b,c,1,2,3,4,5,6\n2,a,b,c,1,2,3,4,5\n3,a,b,c,x,2,3,4,5,6\n";
    assert_eq!(load_data(&store(), text).err(), Some(LoadError::MalformedRow(1)));
    let text = "h\n1,a,b,c,1,2,3,4,5,6\n\n2,a,b,c,1,2,3,4,5,6\n";
    assert_eq!(load_data(&store(), text).err(), Some(LoadError::MalformedRow(1)));
    let text = "h\n1,a,b,c,1,2,3,4,5,0.123\n";
    assert_eq!(load_data(&store(), text).err(), Some(LoadError::MalformedRow(0)));
    let text = "h\n1,a,b,c,1,2,3,4,5,6\n";
    assert_eq!(load_data(&download(), text).err(), Some(LoadError::MalformedRow(0)));
}

#[test]
fn blank_lines_around_the_rows_do_not_count() {
    let text = "h\n\n\n 1,a,b,c,1,2,3,4,5,6\r\n2,a,b,c,1,2,3,4,5,6  \n\n";
    let (_, data) = load_data(&store(), text).unwrap();
    assert_eq!(data.len(), 2);
    assert_eq!(data[0].pruid, 1);
    assert_eq!(data[1].ratetotal, 600);
}

#[test]
fn at_most_a_hundred_rows_come_from_the_download() {
    let line = "7,a,b,c,,1,2,3,4,,,,,5,,6\n";
    let mut text = String::from("h\n");
    for _ in 0..150 {
        text.push_str(line);
    }
    text.push_str("not a row\n");
    let (_, data) = load_data(&download(), &text).unwrap();
    assert_eq!(data.len(), 100);
    assert_eq!(DOWNLOAD_LIMIT, 100);
    assert_eq!(data[99].numtoday, 5);
    let stored_line = "7,a,b,c,1,2,3,4,5,6\n";
    let mut text = String::from("h\n");
    for _ in 0..150 {
        text.push_str(stored_line);
    }
    let (_, data) = load_data(&store(), &text).unwrap();
    assert_eq!(data.len(), 150);
    text.push_str("not a row\n");
    assert_eq!(load_data(&store(), &text).err(), Some(LoadError::MalformedRow(150)));
}

#[test]
fn a_table_is_stored_as_labels_and_a_line_for_each_row() {
    let header = Header::new(ten_labels());
    assert_eq!(save_data(&header, &three_rows()), STORED);
    assert_eq!(save_data(&header, &Vec::new()), "pruid,prname,prnameFR,date,numconf,numprob,numdeaths,numtotal,numtoday,ratetotal\n");
    assert_eq!(save_data(&Header::new(Vec::new()), &Vec::new()), "\n");
    assert_eq!(save_data(&Header::new(vec![String::from("one")]), &Vec::new()), "one\n");
}

#[test]
fn what_is_stored_is_read_back() {
    let header = Header::new(ten_labels());
    let mut rows = three_rows();
    rows[0].numtoday = -12;
    rows[1].ratetotal = 1250;
    rows[2].prname = String::from("Terre-Neuve et Labrador");
    let text = save_data(&header, &rows);
    let (again, data) = load_data(&store(), &text).unwrap();
    assert_eq!(again.labels, ten_labels());
    assert_eq!(data, rows);
}

#[test]
fn turning_back_to_the_download_sets_it_as_the_source() {
    let mut config = store();
    let (header, data) = refresh_data(&mut config, DOWNLOAD).unwrap();
    assert_eq!(config.filename, "covid19-download.csv");
    assert_eq!(config.language, Lang::FR);
    assert_eq!(header.labels, ten_labels());
    assert_eq!(data, three_rows());
    let mut config = store();
    assert_eq!(refresh_data(&mut config, "").err(), Some(LoadError::Empty));
    assert_eq!(config.filename, "covid19-download.csv");
}
