use teachserv::date::{parse_date, CalDate};
use teachserv::table::{decode_line, Attendance, LineFragment, StudentRow, TableError};
use teachserv::writer::backup_path;

const SAMPLE: &str = "th_id\t12\nth_name\tIvanov\nss_id\t5\nss_name\tPhysics\ndate_min\t2025-01-01\ndate_max\t2025-01-03\n101\tPetrov\t1\t0";

fn d(y: i32, m: u32, day: u32) -> CalDate {
    CalDate { year: y, month: m, day }
}

fn sample() -> Attendance {
    match Attendance::read("attendance/inbox/12-2025.tsv", SAMPLE) {
        Ok(a) => a,
        Err(e) => panic!("sample does not parse: {:?}", e),
    }
}

fn row<'a>(a: &'a Attendance, key: i32) -> &'a StudentRow {
    a.students.iter().find(|r| r.key == key).expect("row is present")
}

#[test]
fn scenario_date_range_and_row() {
    let a = sample();
    assert_eq!(a.th_id, 12);
    assert_eq!(a.th_name, "Ivanov");
    assert_eq!(a.ss_id, 5);
    assert_eq!(a.ss_name, "Physics");
    assert_eq!(a.date_range(), vec![d(2025, 1, 1), d(2025, 1, 2), d(2025, 1, 3)]);
    let r = a.attendance_row(101).expect("known key");
    assert_eq!(r, vec![(d(2025, 1, 1), 1), (d(2025, 1, 2), 0), (d(2025, 1, 3), 0)]);
}

#[test]
fn unknown_key_is_not_found() {
    let a = sample();
    assert_eq!(a.attendance_row(7), Err(TableError::NotFound(7)));
}

#[test]
fn id_and_workflow_from_path() {
    let a = sample();
    assert_eq!(a.id, "12-2025");
    assert!(!a.open);
    let b = Attendance::read("attendance/open/12-2025.tsv", SAMPLE).ok().expect("parses");
    assert!(b.open);
}

#[test]
fn missing_parameter_is_malformed() {
    let text = "th_name\tIvanov\nss_id\t5";
    assert_eq!(
        Attendance::read("x.tsv", text).err(),
        Some(TableError::MalformedTable("th_id".to_string()))
    );
    let text = "th_id\tabc\nth_name\tIvanov";
    assert_eq!(
        Attendance::read("x.tsv", text).err(),
        Some(TableError::MalformedTable("th_id".to_string()))
    );
    let text = "th_id\t1\nth_name\tI\nss_id\t2\nss_name\tP\ndate_min\t2025-13-01\ndate_max\t2025-01-03";
    assert_eq!(
        Attendance::read("x.tsv", text).err(),
        Some(TableError::MalformedTable("date_min".to_string()))
    );
}

#[test]
fn reversed_range_is_malformed() {
    let text = "th_id\t1\nth_name\tI\nss_id\t2\nss_name\tP\ndate_min\t2025-01-05\ndate_max\t2025-01-03";
    assert_eq!(
        Attendance::read("x.tsv", text).err(),
        Some(TableError::MalformedTable("date_max".to_string()))
    );
}

#[test]
fn single_day_range() {
    let text = "th_id\t1\nth_name\tI\nss_id\t2\nss_name\tP\ndate_min\t2024-02-29\ndate_max\t2024-02-29";
    let a = Attendance::read("x.tsv", text).ok().expect("parses");
    assert_eq!(a.date_range().len(), 1);
}

#[test]
fn range_crosses_month_and_year() {
    let text = "th_id\t1\nth_name\tI\nss_id\t2\nss_name\tP\ndate_min\t2023-12-30\ndate_max\t2024-01-02";
    let a = Attendance::read("x.tsv", text).ok().expect("parses");
    assert_eq!(
        a.date_range(),
        vec![d(2023, 12, 30), d(2023, 12, 31), d(2024, 1, 1), d(2024, 1, 2)]
    );
    let text = "th_id\t1\nth_name\tI\nss_id\t2\nss_name\tP\ndate_min\t2024-02-28\ndate_max\t2024-03-01";
    let a = Attendance::read("x.tsv", text).ok().expect("parses");
    assert_eq!(a.date_range(), vec![d(2024, 2, 28), d(2024, 2, 29), d(2024, 3, 1)]);
}

#[test]
fn day_numbers() {
    assert_eq!(d(1, 1, 1).number(), 1);
    assert_eq!(d(2025, 1, 1).number() - d(2024, 1, 1).number(), 366);
    assert_eq!(d(2024, 2, 28).succ(), d(2024, 2, 29));
}

#[test]
fn date_text_parsing() {
    let p = |s: &str| parse_date(&s.chars().collect::<Vec<char>>());
    assert_eq!(p("2025-01-31"), Some(d(2025, 1, 31)));
    assert_eq!(p("2023-02-29"), None);
    assert_eq!(p("2024-02-29"), Some(d(2024, 2, 29)));
    assert_eq!(p("2025-1-31"), None);
    assert_eq!(p("2025-01-31x"), None);
}

#[test]
fn decoding_lines() {
    match decode_line("th_name\tIvan\tov") {
        LineFragment::Param { name, value } => {
            assert_eq!(name, "th_name");
            assert_eq!(value, "Ivan\tov");
        }
        _ => panic!("expected a parameter"),
    }
    match decode_line("no tab here") {
        LineFragment::Param { name, value } => {
            assert_eq!(name, "no tab here");
            assert_eq!(value, "");
        }
        _ => panic!("expected a parameter"),
    }
    match decode_line("42") {
        LineFragment::Param { name, value } => {
            assert_eq!(name, "42");
            assert_eq!(value, "");
        }
        _ => panic!("expected a parameter"),
    }
    match decode_line("7\tName") {
        LineFragment::Row { key, name, marks } => {
            assert_eq!(key, 7);
            assert_eq!(name, "Name");
            assert!(marks.is_empty());
        }
        _ => panic!("expected a row"),
    }
    match decode_line("-3\tNew\t\t5") {
        LineFragment::Row { key, name, marks } => {
            assert_eq!(key, -3);
            assert_eq!(name, "New");
            assert_eq!(marks, vec!["".to_string(), "5".to_string()]);
        }
        _ => panic!("expected a row"),
    }
}

#[test]
fn duplicate_keys_last_wins() {
    let text = format!("{}\nth_name\tSidorov\n101\tPetrova\t2", SAMPLE);
    let a = Attendance::read("x.tsv", &text).ok().expect("parses");
    assert_eq!(a.th_name, "Sidorov");
    assert_eq!(a.students.len(), 1);
    assert_eq!(row(&a, 101).name, "Petrova");
    assert_eq!(row(&a, 101).marks, vec!["2".to_string()]);
}

#[test]
fn crlf_lines_are_read() {
    let text = SAMPLE.replace('\n', "\r\n");
    let a = Attendance::read("x.tsv", &text).ok().expect("parses");
    assert_eq!(a.th_name, "Ivanov");
}

#[test]
fn written_text_is_canonical() {
    let text = "th_id\t12\nth_name\tIvanov\nss_id\t5\nss_name\tPhysics\ndate_min\t2025-01-01\ndate_max\t2025-01-02\ndate_filled\t2025-01-03\n3\tZubov\t1\n-2\tTwo\n1\tAbramov\t\t4\t9\n-1\tOne";
    let a = Attendance::read("x.tsv", text).ok().expect("parses");
    assert_eq!(
        a.to_text(),
        "th_id\t12\nth_name\tIvanov\nss_id\t5\nss_name\tPhysics\ndate_min\t2025-01-01\ndate_max\t2025-01-02\ndate_filled\t2025-01-03\n1\tAbramov\t\t4\n3\tZubov\t1\t\n-1\tOne\t\t\n-2\tTwo\t\t"
    );
}

#[test]
fn write_then_read_round_trip() {
    let a = sample();
    let text = a.to_text();
    let b = Attendance::read("y.tsv", &text).ok().expect("parses");
    assert_eq!(b.th_id, a.th_id);
    assert_eq!(b.th_name, a.th_name);
    assert_eq!(b.ss_id, a.ss_id);
    assert_eq!(b.ss_name, a.ss_name);
    assert_eq!(b.date_min, a.date_min);
    assert_eq!(b.date_max, a.date_max);
    assert_eq!(b.date_filled, a.date_filled);
    assert_eq!(row(&b, 101).name, "Petrov");
    assert_eq!(row(&b, 101).marks, vec!["1".to_string(), "0".to_string(), "".to_string()]);
    assert_eq!(b.to_text(), text);
}

#[test]
fn backup_name() {
    assert_eq!(backup_path("attendance/inbox/a.tsv"), "attendance/inbox/a.tsv.bak");
}

#[test]
fn tab_in_parameter_value_round_trips() {
    let text = "th_id\t12\nth_name\tIvan\tov\nss_id\t5\nss_name\tPhys\rics\ndate_min\t2025-01-01\ndate_max\t2025-01-01\n7\tSi\rdorov\t3";
    let a = Attendance::read("x.tsv", text).ok().expect("parses");
    assert_eq!(a.th_name, "Ivan\tov");
    let b = Attendance::read("x.tsv", &a.to_text()).ok().expect("parses");
    assert_eq!(b.th_name, "Ivan\tov");
    assert_eq!(b.ss_name, "Phys\rics");
    assert_eq!(row(&b, 7).name, "Si\rdorov");
    assert_eq!(b.to_text(), a.to_text());
}

#[test]
fn non_integer_line_anywhere_keeps_rows() {
    let a = sample();
    let text = SAMPLE.replace("ss_id\t5\n", "ss_id\t5\nnote\t101\tPetrov\t9\n");
    let b = Attendance::read("x.tsv", &text).ok().expect("parses");
    assert_eq!(b.students.len(), a.students.len());
    assert_eq!(row(&b, 101).marks, row(&a, 101).marks);
}
