use vstd::prelude::*;
use crate::date::{date_text, push_date_text, CalDate};
use crate::table::{
    chars_eq, keys_unique, row_view, rows_map, strings_view, upsert, Attendance, RowV, StudentRow,
};
use crate::laws::lemma_merge_keeps_resolved;
use crate::text::{all_digits, chars_of, i32_of_text, is_digit, padded5_text, parse_i32, push_padded5};

verus! {

/// How many blank rows a form offers for new students; they have the keys
/// -1, -2, ... down to minus this number.
pub const PLACEHOLDER_ROWS: i32 = 20;

pub open spec fn pairs_view(v: Seq<(String, String)>) -> Seq<(Seq<char>, Seq<char>)> {
    v.map_values(|p: (String, String)| (p.0@, p.1@))
}

/// The value submitted under `name`; a later field wins.
pub open spec fn field_of(fields: Seq<(Seq<char>, Seq<char>)>, name: Seq<char>) -> Option<
    Seq<char>,
>
    decreases fields.len(),
{
    if fields.len() == 0 {
        None
    } else if fields.last().0 == name {
        Some(fields.last().1)
    } else {
        field_of(fields.drop_last(), name)
    }
}

/// `IN{key:05}`: the final id of a row.
pub open spec fn id_field(k: int) -> Seq<char> {
    seq!['I', 'N'] + padded5_text(k)
}

/// `N{key:05}`: the name given to a row.
pub open spec fn name_field(k: int) -> Seq<char> {
    seq!['N'] + padded5_text(k)
}

/// `S{key:05}D{date}`: a row's mark on a day.
pub open spec fn mark_field(k: int, d: CalDate) -> Seq<char> {
    seq!['S'] + padded5_text(k) + seq!['D'] + date_text(d)
}

/// A mark worth storing: a non-negative integer in plain decimal, without a
/// sign or leading zeros.
pub open spec fn is_mark_text(s: Seq<char>) -> bool {
    s.len() > 0 && all_digits(s) && (s.len() == 1 || s[0] != '0')
}

/// What is stored for a row on a day: the submitted mark as written when it is
/// one, else an empty field.
pub open spec fn stored_mark(fields: Seq<(Seq<char>, Seq<char>)>, k: int, d: CalDate) -> Seq<char> {
    match field_of(fields, mark_field(k, d)) {
        Some(v) => if is_mark_text(v) { v } else { Seq::empty() },
        None => Seq::empty(),
    }
}

pub open spec fn marks_for(fields: Seq<(Seq<char>, Seq<char>)>, k: int, dates: Seq<CalDate>) -> Seq<
    Seq<char>,
> {
    Seq::new(dates.len(), |i: int| stored_mark(fields, k, dates[i]))
}

/// The id that a row is stored under: none unless `IN{key:05}` holds an
/// integer; an existing row keeps its own key.
pub open spec fn final_id(fields: Seq<(Seq<char>, Seq<char>)>, k: int, existing: bool) -> Option<int> {
    match field_of(fields, id_field(k)) {
        Some(v) => match i32_of_text(v) {
            Some(n) => Some(if existing { k } else { n }),
            None => None,
        },
        None => None,
    }
}

/// The row's name: a non-empty submitted name, else a non-empty existing one.
pub open spec fn resolved_name(
    fields: Seq<(Seq<char>, Seq<char>)>,
    k: int,
    existing: Option<Seq<char>>,
) -> Option<Seq<char>> {
    match field_of(fields, name_field(k)) {
        Some(v) if v.len() > 0 => Some(v),
        _ => match existing {
            Some(n) if n.len() > 0 => Some(n),
            _ => None,
        },
    }
}

/// The row that a candidate becomes, if it is kept.
pub open spec fn resolved_row(
    fields: Seq<(Seq<char>, Seq<char>)>,
    k: int,
    existing: Option<Seq<char>>,
    dates: Seq<CalDate>,
) -> Option<(int, RowV)> {
    match (final_id(fields, k, existing is Some), resolved_name(fields, k, existing)) {
        (Some(id), Some(n)) => Some((id, (n, marks_for(fields, k, dates)))),
        _ => None,
    }
}

/// The rows a merge looks at: the table's rows in order, then the blank ones.
pub open spec fn candidates(rows: Seq<StudentRow>) -> Seq<(int, Option<Seq<char>>)> {
    rows.map_values(|r: StudentRow| (r.key as int, Some(r.name@))) + Seq::new(
        PLACEHOLDER_ROWS as nat,
        |i: int| (-(i + 1), None::<Seq<char>>),
    )
}

/// The new rows: each kept candidate under its final id, a later one winning.
pub open spec fn merged(
    cands: Seq<(int, Option<Seq<char>>)>,
    fields: Seq<(Seq<char>, Seq<char>)>,
    dates: Seq<CalDate>,
) -> Map<int, RowV>
    decreases cands.len(),
{
    if cands.len() == 0 {
        Map::empty()
    } else {
        let m = merged(cands.drop_last(), fields, dates);
        match resolved_row(fields, cands.last().0, cands.last().1, dates) {
            Some((id, v)) => m.insert(id, v),
            None => m,
        }
    }
}

/// The name and value pairs that an `application/x-www-form-urlencoded` body
/// decodes to, in order.
pub uninterp spec fn form_pairs_of(body: Seq<u8>) -> Seq<(Seq<char>, Seq<char>)>;

/// Relies on `form_urlencoded::parse(..).into_owned()`: the body's pairs, in
/// order, with percent escapes and `+` decoded.
#[verifier::external_body]
fn form_fields(body: &[u8]) -> (r: Vec<(String, String)>)
    ensures
        pairs_view(r@) == form_pairs_of(body@),
{
    form_urlencoded::parse(body).into_owned().collect()
}

/// The submitted field names as characters.
fn names_of(fields: &Vec<(String, String)>) -> (r: Vec<Vec<char>>)
    ensures
        r@.len() == fields@.len(),
        forall|i: int| 0 <= i < r@.len() ==> (#[trigger] r@[i])@ == fields@[i].0@,
{
    let mut r: Vec<Vec<char>> = Vec::new();
    let mut i: usize = 0;
    while i < fields.len()
        invariant
            i <= fields@.len(),
            r@.len() == i,
            forall|j: int| 0 <= j < i ==> (#[trigger] r@[j])@ == fields@[j].0@,
        decreases fields@.len() - i,
    {
        r.push(chars_of(fields[i].0.as_str()));
        i = i + 1;
    }
    r
}

/// The value submitted under `name`.
fn lookup_field(fields: &Vec<(String, String)>, names: &Vec<Vec<char>>, name: &Vec<char>) -> (r:
    Option<String>)
    requires
        names@.len() == fields@.len(),
        forall|i: int| 0 <= i < names@.len() ==> (#[trigger] names@[i])@ == fields@[i].0@,
    ensures
        match r {
            Some(v) => field_of(pairs_view(fields@), name@) == Some(v@),
            None => field_of(pairs_view(fields@), name@) is None,
        },
{
    let ghost fv = pairs_view(fields@);
    let mut j: usize = fields.len();
    assert(fv.take(j as int) =~= fv);
    while j > 0
        invariant
            j <= fields@.len(),
            names@.len() == fields@.len(),
            forall|i: int| 0 <= i < names@.len() ==> (#[trigger] names@[i])@ == fields@[i].0@,
            fv == pairs_view(fields@),
            field_of(fv, name@) == field_of(fv.take(j as int), name@),
        decreases j,
    {
        assert(fv.take(j as int).drop_last() =~= fv.take(j - 1));
        assert(fv.take(j as int).last() == (fields@[j - 1].0@, fields@[j - 1].1@));
        if chars_eq(names[j - 1].as_slice(), name.as_slice()) {
            return Some(fields[j - 1].1.clone());
        }
        j = j - 1;
    }
    None
}

/// Whether a submitted value is a mark worth storing.
pub fn is_mark(v: &str) -> (r: bool)
    ensures
        r == is_mark_text(v@),
{
    let cs = chars_of(v);
    if cs.len() == 0 || (cs.len() > 1 && cs[0] == '0') {
        return false;
    }
    let mut i: usize = 0;
    while i < cs.len()
        invariant
            i <= cs@.len(),
            cs@ == v@,
            forall|j: int| 0 <= j < i ==> is_digit(#[trigger] cs@[j]),
        decreases cs@.len() - i,
    {
        if !(cs[i] >= '0' && cs[i] <= '9') {
            assert(!is_digit(cs@[i as int]));
            return false;
        }
        i = i + 1;
    }
    true
}

fn field_name(prefix: char, k: i32) -> (r: Vec<char>)
    ensures
        r@ == seq![prefix] + padded5_text(k as int),
{
    let mut n: Vec<char> = Vec::new();
    n.push(prefix);
    push_padded5(&mut n, k);
    assert(n@ =~= seq![prefix] + padded5_text(k as int));
    n
}

/// The row that candidate `k` becomes, if it is kept.
fn resolve_row(
    fields: &Vec<(String, String)>,
    names: &Vec<Vec<char>>,
    k: i32,
    existing: Option<&String>,
    dates: &Vec<CalDate>,
) -> (r: Option<StudentRow>)
    requires
        names@.len() == fields@.len(),
        forall|i: int| 0 <= i < names@.len() ==> (#[trigger] names@[i])@ == fields@[i].0@,
        forall|i: int| 0 <= i < dates@.len() ==> (#[trigger] dates@[i]).wf(),
    ensures
        match resolved_row(
            pairs_view(fields@),
            k as int,
            match existing {
                Some(s) => Some(s@),
                None => None,
            },
            dates@,
        ) {
            Some((id, v)) => r matches Some(row) && row.key == id && row_view(row) == v,
            None => r is None,
        },
{
    let ghost fv = pairs_view(fields@);
    let mut idn: Vec<char> = Vec::new();
    idn.push('I');
    idn.push('N');
    push_padded5(&mut idn, k);
    assert(idn@ =~= seq!['I', 'N'] + padded5_text(k as int));
    let id = match lookup_field(fields, names, &idn) {
        Some(v) => {
            let cs = chars_of(v.as_str());
            match parse_i32(cs.as_slice()) {
                Some(n) => if existing.is_some() { k } else { n },
                None => {
                    return None;
                },
            }
        },
        None => {
            return None;
        },
    };
    let nn = field_name('N', k);
    let name = match lookup_field(fields, names, &nn) {
        Some(v) => if !v.as_str().is_empty() {
            v
        } else {
            match existing {
                Some(s) => if !s.as_str().is_empty() {
                    s.clone()
                } else {
                    return None;
                },
                None => {
                    return None;
                },
            }
        },
        None => match existing {
            Some(s) => if !s.as_str().is_empty() {
                s.clone()
            } else {
                return None;
            },
            None => {
                return None;
            },
        },
    };
    let mut marks: Vec<String> = Vec::new();
    let mut i: usize = 0;
    while i < dates.len()
        invariant
            i <= dates@.len(),
            names@.len() == fields@.len(),
            forall|j: int| 0 <= j < names@.len() ==> (#[trigger] names@[j])@ == fields@[j].0@,
            forall|j: int| 0 <= j < dates@.len() ==> (#[trigger] dates@[j]).wf(),
            fv == pairs_view(fields@),
            strings_view(marks@) == marks_for(fv, k as int, dates@).take(i as int),
        decreases dates@.len() - i,
    {
        let mut sn = field_name('S', k);
        sn.push('D');
        push_date_text(&mut sn, dates[i]);
        assert(sn@ =~= mark_field(k as int, dates@[i as int]));
        let m = match lookup_field(fields, names, &sn) {
            Some(v) => if is_mark(v.as_str()) {
                v
            } else {
                String::new()
            },
            None => String::new(),
        };
        let ghost old_marks = marks@;
        marks.push(m);
        assert(strings_view(marks@) =~= strings_view(old_marks).push(m@));
        assert(marks_for(fv, k as int, dates@).take(i + 1) =~= marks_for(fv, k as int, dates@).take(
            i as int,
        ).push(stored_mark(fv, k as int, dates@[i as int])));
        i = i + 1;
    }
    assert(marks_for(fv, k as int, dates@).take(dates@.len() as int) =~= marks_for(
        fv,
        k as int,
        dates@,
    ));
    Some(StudentRow { key: id, name, marks })
}

impl Attendance {
    /// The rows after applying a submitted form: every row of the table and
    /// every blank row is looked up by its key; it is kept, under its final id,
    /// when it has one and a non-empty name, with one mark per day of the range.
    pub fn merged_rows(&self, fields: &Vec<(String, String)>) -> (r: Vec<StudentRow>)
        requires
            self.wf(),
        ensures
            keys_unique(r@),
            rows_map(r@) == merged(candidates(self.students@), pairs_view(fields@), self.dates()),
            forall|k: int| #[trigger]
                rows_map(r@).contains_key(k) ==> rows_map(r@)[k].0.len() > 0 && rows_map(
                    r@,
                )[k].1.len() == self.range_len(),
    {
        let names = names_of(fields);
        let dates = self.date_range();
        let ghost cands = candidates(self.students@);
        let ghost fv = pairs_view(fields@);
        let mut out: Vec<StudentRow> = Vec::new();
        let n = self.students.len();
        let mut i: usize = 0;
        while i < n
            invariant
                i <= n == self.students@.len(),
                names@.len() == fields@.len(),
                forall|j: int| 0 <= j < names@.len() ==> (#[trigger] names@[j])@ == fields@[j].0@,
                forall|j: int| 0 <= j < dates@.len() ==> (#[trigger] dates@[j]).wf(),
                dates@ == self.dates(),
                cands == candidates(self.students@),
                fv == pairs_view(fields@),
                keys_unique(out@),
                rows_map(out@) == merged(cands.take(i as int), fv, dates@),
            decreases n - i,
        {
            let row = &self.students[i];
            assert(cands.take(i + 1).drop_last() =~= cands.take(i as int));
            assert(cands.take(i + 1).last() == cands[i as int]);
            assert(cands[i as int] == (row.key as int, Some(row.name@)));
            match resolve_row(fields, &names, row.key, Some(&row.name), &dates) {
                Some(nr) => {
                    upsert(&mut out, nr);
                },
                None => {},
            }
            i = i + 1;
        }
        let mut b: i32 = 1;
        while b <= PLACEHOLDER_ROWS
            invariant
                1 <= b <= PLACEHOLDER_ROWS + 1,
                n == self.students@.len(),
                names@.len() == fields@.len(),
                forall|j: int| 0 <= j < names@.len() ==> (#[trigger] names@[j])@ == fields@[j].0@,
                forall|j: int| 0 <= j < dates@.len() ==> (#[trigger] dates@[j]).wf(),
                dates@ == self.dates(),
                cands == candidates(self.students@),
                cands.len() == n + PLACEHOLDER_ROWS,
                fv == pairs_view(fields@),
                keys_unique(out@),
                rows_map(out@) == merged(cands.take(n + b - 1), fv, dates@),
            decreases PLACEHOLDER_ROWS + 1 - b,
        {
            let ghost t = n + b - 1;
            assert(cands.take(t + 1).drop_last() =~= cands.take(t));
            assert(cands.take(t + 1).last() == cands[t]);
            assert(cands[t] == (-(b as int), None::<Seq<char>>));
            match resolve_row(fields, &names, 0 - b, None, &dates) {
                Some(nr) => {
                    upsert(&mut out, nr);
                },
                None => {},
            }
            b = b + 1;
        }
        assert(cands.take(n + PLACEHOLDER_ROWS) =~= cands);
        assert forall|k: int| #[trigger] rows_map(out@).contains_key(k) implies rows_map(
            out@,
        )[k].0.len() > 0 && rows_map(out@)[k].1.len() == self.range_len() by {
            lemma_merge_keeps_resolved(cands, fv, dates@, k);
        }
        out
    }

    /// Replaces the table's rows by those that a submitted form gives.
    pub fn merge_form(&mut self, fields: &Vec<(String, String)>)
        requires
            old(self).wf(),
        ensures
            final(self).wf(),
            rows_map(final(self).students@) == merged(
                candidates(old(self).students@),
                pairs_view(fields@),
                old(self).dates(),
            ),
            final(self).th_id == old(self).th_id,
            final(self).th_name == old(self).th_name,
            final(self).ss_id == old(self).ss_id,
            final(self).ss_name == old(self).ss_name,
            final(self).date_min == old(self).date_min,
            final(self).date_max == old(self).date_max,
            final(self).date_filled == old(self).date_filled,
            final(self).id == old(self).id,
            final(self).open == old(self).open,
    {
        let rows = self.merged_rows(fields);
        self.students = rows;
    }

    /// Replaces the table's rows by those that a submitted form body gives.
    pub fn merge_form_body(&mut self, body: &[u8])
        requires
            old(self).wf(),
        ensures
            final(self).wf(),
            rows_map(final(self).students@) == merged(
                candidates(old(self).students@),
                form_pairs_of(body@),
                old(self).dates(),
            ),
            final(self).th_id == old(self).th_id,
            final(self).th_name == old(self).th_name,
            final(self).ss_id == old(self).ss_id,
            final(self).ss_name == old(self).ss_name,
            final(self).date_min == old(self).date_min,
            final(self).date_max == old(self).date_max,
            final(self).date_filled == old(self).date_filled,
            final(self).id == old(self).id,
            final(self).open == old(self).open,
    {
        let fields = form_fields(body);
        self.merge_form(&fields);
    }
}

} // verus!
