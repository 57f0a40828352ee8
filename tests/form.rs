use teachserv::date::CalDate;
use teachserv::table::Attendance;

fn row_markup(id: i32, name_cell: &str, date: &str, class: &str, v: &str) -> String {
    format!(
        "<tr>\n\t<td class=\"idcol\">{id}</td>\n\t<td class=\"namecol\">{name_cell}</td>\n\t<td{class}><input name=\"S{id:05}D{date}\" type=\"number\" min=\"0\" size=\"1\" value=\"{v}\"></td>\n</tr>\n"
    )
}

#[test]
fn form_markup_of_one_day() {
    let text = "th_id\t1\nth_name\tI\nss_id\t2\nss_name\tP\ndate_min\t2025-01-04\ndate_max\t2025-01-04\n101\tPetrov\t1\n5\tAbramov";
    let a = Attendance::read("x.tsv", text).ok().expect("parses");
    let w = " class=\"weekend\"";
    let mut rows = vec![
        row_markup(5, "Abramov", "2025-01-04", w, ""),
        row_markup(101, "Petrov", "2025-01-04", w, "1"),
    ];
    for i in 1..21 {
        let cell = format!("<input type=\"text\" name=\"N{:05}\" placeholder=\"новенький\">", -i);
        rows.push(row_markup(-i, &cell, "2025-01-04", w, ""));
    }
    let expected = format!(
        "<thead>\n<th class=\"idcol\">id</th>\n<th class=\"namecol\">Имя</th>\n<th{w}>4</th>\n</thead>\n<tbody>\n{}\n</tbody>\n",
        rows.join("\n")
    );
    assert_eq!(a.table_markup(), expected);
}

#[test]
fn weekdays() {
    assert!(CalDate { year: 2025, month: 1, day: 4 }.weekend());
    assert!(CalDate { year: 2025, month: 1, day: 5 }.weekend());
    assert!(!CalDate { year: 2025, month: 1, day: 6 }.weekend());
    assert!(!CalDate { year: 2024, month: 2, day: 29 }.weekend());
    assert!(!CalDate { year: 1, month: 1, day: 1 }.weekend());
}

#[test]
fn form_head_marks_weekends() {
    let text = "th_id\t1\nth_name\tI\nss_id\t2\nss_name\tP\ndate_min\t2025-01-03\ndate_max\t2025-01-06";
    let a = Attendance::read("x.tsv", text).ok().expect("parses");
    let m = a.table_markup();
    assert!(m.starts_with(
        "<thead>\n<th class=\"idcol\">id</th>\n<th class=\"namecol\">Имя</th>\n<th>3</th>\n<th class=\"weekend\">4</th>\n<th class=\"weekend\">5</th>\n<th>6</th>\n</thead>\n"
    ));
}

#[test]
fn key_zero_shows_its_name() {
    let text = "th_id\t1\nth_name\tI\nss_id\t2\nss_name\tP\ndate_min\t2025-01-06\ndate_max\t2025-01-06\n0\tNulev";
    let a = Attendance::read("x.tsv", text).ok().expect("parses");
    let m = a.table_markup();
    assert!(m.contains("<td class=\"idcol\">0</td>\n\t<td class=\"namecol\">Nulev</td>"));
    assert!(!m.contains("name=\"N00000\""));
    assert!(m.contains("name=\"N-0001\""));
}
