use covid_data::datastore::DataRow;
use covid_data::logic::{reverse, search, select_rows, sort, sort_rows, ColumnKey, Config, Error, Lang};
use covid_data::persistence::load_data;

const DOWNLOAD: &str = "pruid,prname,prnameFR,date,update,numconf,numprob,numdeaths,numtotal,numtested,numrecover,percentrecover,ratetested,numtoday,percentoday,ratetotal\n\
35,Ontario,Ontario,2020-01-31,,3,0,0,3,,,,,3,300,0.02\n\
59,British Columbia,Colombie-Britannique,2020-01-31,,1,0,0,1,,,,,1,100,0.02\n\
1,Canada,Canada,2020-01-31,,4,0,0,4,,,,,4,400,0.01\n\
35,Ontario,Ontario,2020-02-08,,3,0,0,3,,,,,0,0,0.02\n";

fn english() -> Config {
    Config { language: Lang::EN, filename: String::from("covid19-download.csv") }
}

fn french() -> Config {
    Config { language: Lang::FR, filename: String::from("covid19-download.csv") }
}

fn row(pruid: isize, prname: &str, prname_fr: &str, date: &str, numtoday: isize, rate: u64) -> DataRow {
    DataRow {
        pruid,
        prname: String::from(prname),
        prname_fr: String::from(prname_fr),
        date: String::from(date),
        numconf: 0,
        numprob: 0,
        numdeaths: 0,
        numtotal: 0,
        numtoday,
        ratetotal: rate,
    }
}

fn ids(rows: &Vec<DataRow>) -> Vec<isize> {
    rows.iter().map(|r| r.pruid).collect()
}

#[test]
fn test_sort() {
    let config = english();
    let data_loaded: Vec<DataRow>;

    let both = load_data(&config, DOWNLOAD).unwrap();
    data_loaded = both.1;

    let search_result = search(String::from("0-3"), &config, &data_loaded).unwrap();
    let mut out: Vec<DataRow> = Vec::new();

    for entry in search_result {
        if entry < data_loaded.len() {
            out.push(data_loaded[entry].clone());
        }
    }

    let data_loaded = out;

    let mut data_sorted = data_loaded.clone();

    let mut rev = false;
    let sorting = "8";

    sort(&mut data_sorted, sorting, &config).unwrap();
    assert_ne!(data_loaded, data_sorted);
    assert_eq!(data_loaded[0], data_sorted[1]);
    assert_eq!(data_loaded[1], data_sorted[0]);
    assert_eq!(data_loaded[2], data_sorted[2]);
    let mut data_reversed = data_sorted.clone();
    reverse(&mut data_reversed, sorting, &mut rev, &config);
    assert_ne!(data_sorted, data_reversed);
    assert_eq!(data_sorted[0], data_reversed[2]);
    assert_eq!(data_sorted[1], data_reversed[1]);
    assert_eq!(data_sorted[2], data_reversed[0]);
}

#[test]
fn counters_sort_then_reverse_twice() {
    let config = english();
    let mut data = vec![
        row(1, "a", "a", "2020-01-01", 10, 0),
        row(2, "b", "b", "2020-01-01", 5, 0),
        row(3, "c", "c", "2020-01-01", 20, 0),
    ];
    let mut rev = false;
    sort(&mut data, "8", &config).unwrap();
    assert_eq!(data.iter().map(|r| r.numtoday).collect::<Vec<isize>>(), vec![5, 10, 20]);
    assert_eq!(ids(&data), vec![2, 1, 3]);
    reverse(&mut data, "8", &mut rev, &config);
    assert!(rev);
    assert_eq!(data.iter().map(|r| r.numtoday).collect::<Vec<isize>>(), vec![20, 10, 5]);
    assert_eq!(ids(&data), vec![3, 1, 2]);
    reverse(&mut data, "8", &mut rev, &config);
    assert!(!rev);
    assert_eq!(data.iter().map(|r| r.numtoday).collect::<Vec<isize>>(), vec![5, 10, 20]);
    assert_eq!(ids(&data), vec![2, 1, 3]);
}

#[test]
fn rows_that_rank_alike_keep_their_order() {
    let config = english();
    let mut data = vec![
        row(1, "x", "x", "2020-01-02", 7, 0),
        row(2, "x", "x", "2020-01-01", 3, 0),
        row(3, "x", "x", "2020-01-02", 3, 0),
        row(4, "x", "x", "2020-01-01", 7, 0),
        row(5, "x", "x", "2020-01-03", 3, 0),
    ];
    sort(&mut data, "8", &config).unwrap();
    assert_eq!(ids(&data), vec![2, 3, 5, 1, 4]);
}

#[test]
fn descending_sort_keeps_ties_in_their_order_too() {
    let mut data = vec![
        row(1, "x", "x", "d", 7, 0),
        row(2, "x", "x", "d", 3, 0),
        row(3, "x", "x", "d", 3, 0),
        row(4, "x", "x", "d", 7, 0),
    ];
    sort_rows(&mut data, ColumnKey::Today, Lang::EN, true);
    assert_eq!(ids(&data), vec![1, 4, 2, 3]);
}

#[test]
fn sorting_sorted_rows_again_changes_nothing() {
    let config = english();
    let mut data = vec![
        row(4, "d", "d", "2020-01-02", 7, 0),
        row(2, "b", "b", "2020-01-01", 3, 0),
        row(4, "a", "a", "2020-01-02", 3, 0),
        row(1, "c", "c", "2020-01-01", 7, 0),
    ];
    sort(&mut data, "1", &config).unwrap();
    let once = data.clone();
    sort(&mut data, "1", &config).unwrap();
    assert_eq!(data, once);
    assert_eq!(data.iter().map(|r| r.prname.clone()).collect::<Vec<String>>(), vec!["c", "b", "d", "a"]);
}

#[test]
fn reversing_twice_gives_the_ascending_sort_of_unsorted_rows() {
    let config = english();
    let start = vec![
        row(1, "x", "x", "2020-03-01", 0, 0),
        row(2, "x", "x", "2020-01-01", 0, 0),
        row(3, "x", "x", "2020-03-01", 0, 0),
        row(4, "x", "x", "2020-02-01", 0, 0),
    ];
    let mut ascending = start.clone();
    sort(&mut ascending, "3", &config).unwrap();
    let mut data = start.clone();
    let mut rev = false;
    reverse(&mut data, "3", &mut rev, &config);
    assert_eq!(ids(&data), vec![1, 3, 4, 2]);
    reverse(&mut data, "3", &mut rev, &config);
    assert_eq!(data, ascending);
    assert_eq!(ids(&data), vec![2, 4, 1, 3]);
}

#[test]
fn unknown_column_is_refused_and_rows_stay() {
    let config = english();
    let mut data = vec![row(2, "b", "b", "d", 1, 0), row(1, "a", "a", "d", 0, 0)];
    let before = data.clone();
    assert_eq!(sort(&mut data, "10", &config), Err(Error::InvalidColumn));
    assert_eq!(sort(&mut data, "0", &config), Err(Error::InvalidColumn));
    assert_eq!(sort(&mut data, "", &config), Err(Error::InvalidColumn));
    assert_eq!(sort(&mut data, " 1", &config), Err(Error::InvalidColumn));
    assert_eq!(data, before);
}

#[test]
fn reverse_with_unknown_column_goes_by_date() {
    let config = english();
    let mut data = vec![
        row(1, "x", "x", "2020-01-01", 0, 0),
        row(2, "x", "x", "2020-03-01", 0, 0),
        row(3, "x", "x", "2020-02-01", 0, 0),
    ];
    let mut rev = false;
    reverse(&mut data, "0", &mut rev, &config);
    assert!(rev);
    assert_eq!(ids(&data), vec![2, 3, 1]);
    reverse(&mut data, "zzz", &mut rev, &config);
    assert!(!rev);
    assert_eq!(ids(&data), vec![1, 3, 2]);
}

#[test]
fn names_sort_in_the_language_of_the_configuration() {
    let mut data = vec![
        row(1, "Quebec", "Québec", "d", 0, 0),
        row(2, "British Columbia", "Colombie-Britannique", "d", 0, 0),
        row(3, "Canada", "Canada", "d", 0, 0),
    ];
    sort(&mut data, "2", &english()).unwrap();
    assert_eq!(ids(&data), vec![2, 3, 1]);
    sort(&mut data, "2", &french()).unwrap();
    assert_eq!(ids(&data), vec![3, 2, 1]);
}

#[test]
fn names_sort_by_bytes_so_capitals_and_prefixes_come_first() {
    let mut data = vec![
        row(1, "b", "", "d", 0, 0),
        row(2, "B", "", "d", 0, 0),
        row(3, "ab", "", "d", 0, 0),
        row(4, "a", "", "d", 0, 0),
        row(5, "é", "", "d", 0, 0),
        row(6, "", "", "d", 0, 0),
    ];
    sort(&mut data, "2", &english()).unwrap();
    assert_eq!(ids(&data), vec![6, 2, 4, 3, 1, 5]);
}

#[test]
fn every_column_orders_by_its_own_field() {
    let config = english();
    let base = vec![
        DataRow {
            pruid: 3, prname: String::from("c"), prname_fr: String::from("a"), date: String::from("2020-01-02"),
            numconf: 1, numprob: 30, numdeaths: 2, numtotal: 20, numtoday: -1, ratetotal: 150,
        },
        DataRow {
            pruid: 1, prname: String::from("b"), prname_fr: String::from("c"), date: String::from("2020-01-03"),
            numconf: 3, numprob: 10, numdeaths: 1, numtotal: 30, numtoday: 5, ratetotal: 5,
        },
        DataRow {
            pruid: 2, prname: String::from("a"), prname_fr: String::from("b"), date: String::from("2020-01-01"),
            numconf: 2, numprob: 20, numdeaths: 3, numtotal: 10, numtoday: 0, ratetotal: 1000,
        },
    ];
    let expected = [
        ("1", vec![1, 2, 3]),
        ("2", vec![2, 1, 3]),
        ("3", vec![2, 3, 1]),
        ("4", vec![3, 2, 1]),
        ("5", vec![1, 2, 3]),
        ("6", vec![1, 3, 2]),
        ("7", vec![2, 3, 1]),
        ("8", vec![3, 2, 1]),
        ("9", vec![1, 3, 2]),
    ];
    for (token, order) in expected.iter() {
        let mut data = base.clone();
        sort(&mut data, token, &config).unwrap();
        assert_eq!(&ids(&data), order, "column {}", token);
    }
}

#[test]
fn sorting_nothing_and_one_row() {
    let config = english();
    let mut none: Vec<DataRow> = Vec::new();
    sort(&mut none, "1", &config).unwrap();
    assert!(none.is_empty());
    let mut one = vec![row(9, "a", "a", "d", 0, 0)];
    let mut rev = true;
    reverse(&mut one, "1", &mut rev, &config);
    assert!(!rev);
    assert_eq!(ids(&one), vec![9]);
}

#[test]
fn selected_rows_come_in_the_order_asked_and_large_indices_are_dropped() {
    let data = vec![
        row(10, "a", "a", "d", 0, 0),
        row(11, "b", "b", "d", 0, 0),
        row(12, "c", "c", "d", 0, 0),
    ];
    let picked = select_rows(&data, &vec![2, 7, 0, 2, 3]);
    assert_eq!(ids(&picked), vec![12, 10, 12]);
    let indices = search(String::from("1-9, 0"), &english(), &data).unwrap();
    assert_eq!(indices, vec![1, 2, 3, 4, 5, 6, 7, 8, 0]);
    assert_eq!(ids(&select_rows(&data, &indices)), vec![11, 12, 10]);
}

#[test]
fn many_rows_sort_as_a_stable_sort_does() {
    let mut seed: u64 = 12345;
    let mut data: Vec<DataRow> = Vec::new();
    for n in 0..2000 {
        seed = seed.wrapping_mul(6364136223846793005).wrapping_add(1442695040888963407);
        let today = ((seed >> 33) % 17) as isize - 8;
        let name = format!("n{}", (seed >> 40) % 5);
        data.push(row(n, &name, &name, "d", today, (seed >> 50) % 3));
    }
    for (token, column) in [("8", ColumnKey::Today), ("2", ColumnKey::Name), ("9", ColumnKey::Rate), ("3", ColumnKey::Date)] {
        let mut ascending = data.clone();
        sort(&mut ascending, token, &english()).unwrap();
        let mut expected = data.clone();
        match column {
            ColumnKey::Today => expected.sort_by_key(|r| r.numtoday),
            ColumnKey::Name => expected.sort_by_key(|r| r.prname.clone()),
            ColumnKey::Rate => expected.sort_by_key(|r| r.ratetotal),
            _ => expected.sort_by_key(|r| r.date.clone()),
        }
        assert_eq!(ascending, expected);
        let mut descending = data.clone();
        sort_rows(&mut descending, column, Lang::EN, true);
        let mut expected = data.clone();
        match column {
            ColumnKey::Today => expected.sort_by_key(|r| std::cmp::Reverse(r.numtoday)),
            ColumnKey::Name => expected.sort_by_key(|r| std::cmp::Reverse(r.prname.clone())),
            ColumnKey::Rate => expected.sort_by_key(|r| std::cmp::Reverse(r.ratetotal)),
            _ => expected.sort_by_key(|r| std::cmp::Reverse(r.date.clone())),
        }
        assert_eq!(descending, expected);
    }
}
