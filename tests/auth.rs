use teachserv::auth::{find_students, time_since_last_wrong_pwd, Login, SearchParams, Student, TeachRec};
use teachserv::files::{age_in_days, is_alphanumeric_underscore_dot, old_files, visible_to, FileRec};

fn login(l: &str, p: &str) -> Login {
    Login { login: l.to_string(), password: p.to_string(), token: None, captcha: None }
}

#[test]
fn identity_text() {
    let t = TeachRec { id: 7, name: "Ivanov I.I.".to_string(), pw: "x".to_string() };
    assert_eq!(t.id_and_name(), "7\tIvanov I.I.");
    assert_eq!(
        TeachRec::split_id_and_name("7\tIvanov\tI.".to_string()),
        ("7".to_string(), "Ivanov\tI.".to_string())
    );
    assert_eq!(
        TeachRec::split_id_and_name("nobody".to_string()),
        (String::new(), "nobody".to_string())
    );
}

#[test]
fn passwords_and_records() {
    assert!(login("7", "pw").check_password(&"pw".to_string()));
    assert!(!login("7", "pw").check_password(&"pW".to_string()));
    let recs = vec![
        TeachRec { id: 3, name: "A".to_string(), pw: "a".to_string() },
        TeachRec { id: 7, name: "B".to_string(), pw: "b".to_string() },
        TeachRec { id: 7, name: "C".to_string(), pw: "c".to_string() },
    ];
    assert_eq!(TeachRec::find(&login("7", "c"), &recs), Some(2));
    assert_eq!(TeachRec::find(&login("7", "a"), &recs), None);
    assert_eq!(TeachRec::find(&login("x7", "b"), &recs), None);
}

#[test]
fn seal_flag() {
    assert!(SearchParams { seal: Some("yes".to_string()) }.seal());
    assert!(!SearchParams { seal: Some("no".to_string()) }.seal());
    assert!(!SearchParams { seal: Some("yess".to_string()) }.seal());
    assert!(!SearchParams { seal: None }.seal());
}

#[test]
fn file_names() {
    assert!(is_alphanumeric_underscore_dot("0012-2025_01.tsv"));
    assert!(is_alphanumeric_underscore_dot("a.tsv.bak"));
    assert!(is_alphanumeric_underscore_dot("таблица.tsv"));
    assert!(!is_alphanumeric_underscore_dot("a b.tsv"));
    assert!(!is_alphanumeric_underscore_dot("../x.tsv"));
    assert!(!is_alphanumeric_underscore_dot("noext"));
    assert!(!is_alphanumeric_underscore_dot(""));
}

#[test]
fn retention() {
    assert_eq!(age_in_days(86399), 0);
    assert_eq!(age_in_days(86400 * 3 + 5), 3);
    let recs = vec![
        FileRec { file: "a.tsv".to_string(), age: 101 },
        FileRec { file: "b.tsv".to_string(), age: 99 },
        FileRec { file: "c.bak".to_string(), age: 100 },
    ];
    assert_eq!(old_files(&recs, 100), vec!["a.tsv".to_string(), "c.bak".to_string()]);
}

#[test]
fn wrong_password_clock() {
    assert_eq!(time_since_last_wrong_pwd(None, 50), None);
    assert_eq!(time_since_last_wrong_pwd(Some(20), 50), Some(30));
    assert_eq!(time_since_last_wrong_pwd(Some(60), 50), Some(0));
}

#[test]
fn roster_filter() {
    let roster = vec![
        Student { id: 1, name: "Иванов Пётр".to_string() },
        Student { id: 2, name: "Petrov Ivan".to_string() },
        Student { id: 3, name: "иванова Анна".to_string() },
    ];
    assert!(find_students(&roster, "и").is_none());
    let found = find_students(&roster, "ив").expect("two characters");
    let ids: Vec<i16> = found.iter().map(|s| s.id).collect();
    assert_eq!(ids, vec![1, 3]);
    let found = find_students(&roster, "pet").expect("three characters");
    assert_eq!(found.len(), 1);
    assert_eq!(found[0].name, "Petrov Ivan");
}

#[test]
fn table_visibility() {
    assert!(visible_to("0000", "0012-2025"));
    assert!(visible_to("0012", "0012-2025"));
    assert!(!visible_to("0013", "0012-2025"));
    assert!(!visible_to("00120", "0012"));
}

#[test]
fn upload_digest() {
    let h = "2cf24dba5fb0a30e26e83b2ac5b9e29e1b161e5c1fa7425e73043362938b9824";
    assert!(teachserv::files::body_matches_hash("hello", h));
    assert!(!teachserv::files::body_matches_hash("hello!", h));
    assert!(!teachserv::files::body_matches_hash("hello", "hello"));
}

#[test]
fn teacher_id_text() {
    assert_eq!(teachserv::text::padded_id("12"), "0012");
    assert_eq!(teachserv::text::padded_id("0"), "0000");
    assert_eq!(teachserv::text::padded_id("12345"), "12345");
    assert_eq!(teachserv::text::padded_id("-3"), "-003");
    assert_eq!(teachserv::text::padded_id("abc"), "abc");
    assert_eq!(teachserv::text::padded_id(""), "");
}
