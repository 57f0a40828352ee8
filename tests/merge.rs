use teachserv::merge::is_mark;
use teachserv::table::{Attendance, StudentRow};

const SAMPLE: &str = "th_id\t12\nth_name\tIvanov\nss_id\t5\nss_name\tPhysics\ndate_min\t2025-01-01\ndate_max\t2025-01-03\n101\tPetrov\t1\t0\n102\tSidorov\t3";

fn f(k: &str, v: &str) -> (String, String) {
    (k.to_string(), v.to_string())
}

fn row<'a>(rows: &'a [StudentRow], key: i32) -> Option<&'a StudentRow> {
    rows.iter().find(|r| r.key == key)
}

fn sample() -> Attendance {
    Attendance::read("attendance/inbox/t.tsv", SAMPLE).ok().expect("parses")
}

#[test]
fn merge_keeps_rows_with_an_id() {
    let a = sample();
    let fields = vec![
        f("IN00101", "101"),
        f("S00101D2025-01-01", "2"),
        f("S00101D2025-01-02", "x"),
        f("S00101D2025-01-03", "-1"),
    ];
    let big = vec![f("IN00101", "101"), f("S00101D2025-01-02", "40000")];
    let r = a.merged_rows(&big);
    assert_eq!(row(&r, 101).expect("kept").marks, vec![String::new(), "40000".to_string(), String::new()]);
    let rows = a.merged_rows(&fields);
    assert_eq!(rows.len(), 1);
    let r = row(&rows, 101).expect("kept");
    assert_eq!(r.name, "Petrov");
    assert_eq!(r.marks, vec!["2".to_string(), String::new(), String::new()]);
    assert!(row(&rows, 102).is_none());
}

#[test]
fn merge_adds_a_new_student() {
    let a = sample();
    let fields = vec![
        f("IN-0001", "205"),
        f("N-0001", "Kuznetsov"),
        f("S-0001D2025-01-02", "4"),
        f("IN-0002", "206"),
        f("N-0002", ""),
    ];
    let rows = a.merged_rows(&fields);
    assert_eq!(rows.len(), 1);
    let r = row(&rows, 205).expect("added");
    assert_eq!(r.name, "Kuznetsov");
    assert_eq!(r.marks, vec![String::new(), "4".to_string(), String::new()]);
}

#[test]
fn merge_renames_and_later_field_wins() {
    let a = sample();
    let fields = vec![
        f("IN00102", "102"),
        f("N00102", "Sidorova"),
        f("S00102D2025-01-03", "1"),
        f("S00102D2025-01-03", "5"),
    ];
    let mut b = sample();
    b.merge_form(&fields);
    assert_eq!(b.students.len(), 1);
    let r = row(&b.students, 102).expect("kept");
    assert_eq!(r.name, "Sidorova");
    assert_eq!(r.marks.len(), a.date_range().len());
    assert_eq!(r.marks[2], "5");
}

#[test]
fn merge_collision_later_wins() {
    let a = sample();
    let fields = vec![
        f("IN-0001", "300"),
        f("N-0001", "First"),
        f("IN-0002", "300"),
        f("N-0002", "Second"),
    ];
    let rows = a.merged_rows(&fields);
    assert_eq!(rows.len(), 1);
    assert_eq!(row(&rows, 300).expect("kept").name, "Second");
}

#[test]
fn mark_values() {
    assert!(is_mark("0"));
    assert!(is_mark("32767"));
    assert!(is_mark("40000"));
    assert!(!is_mark("-1"));
    assert!(!is_mark("+5"));
    assert!(!is_mark("007"));
    assert!(!is_mark(""));
    assert!(!is_mark("1.5"));
}

#[test]
fn merge_from_encoded_body() {
    let mut a = sample();
    let body = "IN00101=101&S00101D2025-01-01=3&IN-0001=7&N-0001=Kuz+netsov&S-0001D2025-01-03=%32";
    a.merge_form_body(body.as_bytes());
    assert_eq!(a.students.len(), 2);
    let p = row(&a.students, 101).expect("kept");
    assert_eq!(p.marks, vec!["3".to_string(), String::new(), String::new()]);
    let k = row(&a.students, 7).expect("added");
    assert_eq!(k.name, "Kuz netsov");
    assert_eq!(k.marks, vec![String::new(), String::new(), "2".to_string()]);
}
