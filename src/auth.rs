use vstd::prelude::*;
use crate::fields::{lemma_split_first_len, split_chars, split_on};
use crate::text::{chars_of, i32_of_text, int_text, parse_i32, push_int_text, string_of};

verus! {

/// A teacher's record: id, full name and server password.
pub struct TeachRec {
    pub id: i32,
    pub name: String,
    pub pw: String,
}

/// What a login form submits.
pub struct Login {
    pub login: String,
    pub password: String,
    pub token: Option<String>,
    pub captcha: Option<String>,
}

/// The query of a table submission.
pub struct SearchParams {
    pub seal: Option<String>,
}

/// A student of the roster.
pub struct Student {
    pub id: i16,
    pub name: String,
}

/// The identity text of a teacher, split at its first tab: id, then name; with
/// no tab, an empty id and the whole text as name.
pub open spec fn id_name_parts(s: Seq<char>) -> (Seq<char>, Seq<char>) {
    let f = split_on(s, '\t');
    if f.len() == 1 {
        (Seq::empty(), s)
    } else {
        (f[0], s.skip(f[0].len() as int + 1))
    }
}

impl Login {
    /// Whether the submitted password is `password`.
    pub fn check_password(&self, password: &String) -> (r: bool)
        ensures
            r == (self.password@ == password@),
    {
        self.password == *password
    }
}

impl SearchParams {
    /// Whether the submission asks for the table to be sealed.
    pub fn seal(&self) -> (r: bool)
        ensures
            r == (self.seal matches Some(s) && s@ == seq!['y', 'e', 's']),
    {
        match &self.seal {
            Some(s) => {
                let cs = chars_of(s.as_str());
                let yes = vec!['y', 'e', 's'];
                if cs.len() != 3 {
                    return false;
                }
                let r = cs[0] == 'y' && cs[1] == 'e' && cs[2] == 's';
                assert(r ==> cs@ =~= yes@);
                assert(cs@ == yes@ ==> cs@[0] == 'y' && cs@[1] == 'e' && cs@[2] == 's');
                r
            },
            None => false,
        }
    }
}

impl TeachRec {
    /// The teacher's identity text: id, a tab, the name.
    pub fn id_and_name(&self) -> (r: String)
        ensures
            r@ == int_text(self.id as int) + seq!['\t'] + self.name@,
    {
        let mut out: Vec<char> = Vec::new();
        push_int_text(&mut out, self.id);
        out.push('\t');
        let n = chars_of(self.name.as_str());
        let ghost start = out@;
        let mut i: usize = 0;
        while i < n.len()
            invariant
                i <= n@.len(),
                out@ == start + n@.take(i as int),
            decreases n@.len() - i,
        {
            out.push(n[i]);
            i = i + 1;
            assert(out@ =~= start + n@.take(i as int));
        }
        assert(n@.take(n@.len() as int) =~= n@);
        string_of(out.as_slice())
    }

    /// Splits an identity text into id and name.
    pub fn split_id_and_name(id_and_name: String) -> (r: (String, String))
        ensures
            (r.0@, r.1@) == id_name_parts(id_and_name@),
    {
        let cs = chars_of(id_and_name.as_str());
        let f = split_chars(cs.as_slice(), '\t');
        proof {
            lemma_split_first_len(cs@, '\t');
        }
        if f.len() == 1 {
            return (String::new(), id_and_name);
        }
        let k = f[0].len();
        let n = cs.len();
        assert(f@[0]@.len() < cs@.len());
        assert(k < n);
        let mut rest: Vec<char> = Vec::new();
        let mut i: usize = k + 1;
        while i < n
            invariant
                k + 1 <= i <= n == cs@.len(),
                rest@ == cs@.subrange(k + 1, i as int),
            decreases n - i,
        {
            rest.push(cs[i]);
            i = i + 1;
            assert(rest@ =~= cs@.subrange(k + 1, i as int));
        }
        assert(rest@ =~= cs@.skip(k + 1));
        (string_of(f[0].as_slice()), string_of(rest.as_slice()))
    }

    /// The first record whose id is the login's number and whose password the
    /// login gives; none when the login is not a number.
    pub fn find(login: &Login, records: &Vec<TeachRec>) -> (r: Option<usize>)
        ensures
            match r {
                Some(i) => {
                    &&& i < records@.len()
                    &&& i32_of_text(login.login@) == Some(records@[i as int].id as int)
                    &&& records@[i as int].pw@ == login.password@
                    &&& forall|j: int|
                        0 <= j < i ==> !(i32_of_text(login.login@) == Some(
                            (#[trigger] records@[j]).id as int,
                        ) && records@[j].pw@ == login.password@)
                },
                None => forall|j: int|
                    0 <= j < records@.len() ==> !(i32_of_text(login.login@) == Some(
                        (#[trigger] records@[j]).id as int,
                    ) && records@[j].pw@ == login.password@),
            },
    {
        let cs = chars_of(login.login.as_str());
        let th_id = match parse_i32(cs.as_slice()) {
            Some(n) => n,
            None => {
                return None;
            },
        };
        let mut i: usize = 0;
        while i < records.len()
            invariant
                i <= records@.len(),
                i32_of_text(login.login@) == Some(th_id as int),
                forall|j: int|
                    0 <= j < i ==> !(i32_of_text(login.login@) == Some(
                        (#[trigger] records@[j]).id as int,
                    ) && records@[j].pw@ == login.password@),
            decreases records@.len() - i,
        {
            if records[i].id == th_id && login.check_password(&records[i].pw) {
                return Some(i);
            }
            i = i + 1;
        }
        None
    }
}

/// How long ago the last wrong password was given, if one was; a clock that
/// went back counts as no time.
pub fn time_since_last_wrong_pwd(last: Option<u64>, now: u64) -> (r: Option<u64>)
    ensures
        match last {
            Some(t) => r == Some(if now >= t { (now - t) as u64 } else { 0u64 }),
            None => r is None,
        },
{
    match last {
        Some(t) => Some(if now >= t { now - t } else { 0 }),
        None => None,
    }
}

/// A text in upper case, as Unicode's case mapping gives it.
pub uninterp spec fn upper_of(s: Seq<char>) -> Seq<char>;

/// Relies on `str::to_uppercase`: the text mapped to upper case, a function of
/// the characters alone.
#[verifier::external_body]
fn to_upper(s: &str) -> (r: String)
    ensures
        r@ == upper_of(s@),
{
    s.to_uppercase()
}

pub open spec fn has_prefix(s: Seq<char>, p: Seq<char>) -> bool {
    p.len() <= s.len() && s.take(p.len() as int) == p
}

/// Whether `s` starts with `p`.
pub fn starts_with(s: &str, p: &str) -> (r: bool)
    ensures
        r == has_prefix(s@, p@),
{
    let a = chars_of(s);
    let b = chars_of(p);
    if b.len() > a.len() {
        return false;
    }
    let mut i: usize = 0;
    while i < b.len()
        invariant
            i <= b@.len() <= a@.len(),
            a@ == s@,
            b@ == p@,
            forall|j: int| 0 <= j < i ==> a@[j] == b@[j],
        decreases b@.len() - i,
    {
        if a[i] != b[i] {
            assert(a@.take(b@.len() as int)[i as int] != b@[i as int]);
            return false;
        }
        i = i + 1;
    }
    assert(a@.take(b@.len() as int) =~= b@);
    true
}

/// The students, in order, whose upper-cased name starts with `filter_upper`.
pub open spec fn students_with_prefix(students: Seq<Student>, filter_upper: Seq<char>) -> Seq<
    (int, Seq<char>),
>
    decreases students.len(),
{
    if students.len() == 0 {
        Seq::empty()
    } else {
        let prev = students_with_prefix(students.drop_last(), filter_upper);
        let s = students.last();
        if has_prefix(upper_of(s.name@), filter_upper) {
            prev.push((s.id as int, s.name@))
        } else {
            prev
        }
    }
}

pub open spec fn student_views(v: Seq<Student>) -> Seq<(int, Seq<char>)> {
    v.map_values(|s: Student| (s.id as int, s.name@))
}

/// Looks students up by the start of their name, ignoring case; a filter of
/// fewer than two characters finds nothing and gives `None`.
pub fn find_students(students: &Vec<Student>, filter: &str) -> (r: Option<Vec<Student>>)
    ensures
        filter@.len() < 2 <==> r is None,
        r matches Some(v) ==> student_views(v@) == students_with_prefix(
            students@,
            upper_of(filter@),
        ),
{
    if filter.unicode_len() < 2 {
        return None;
    }
    let f = to_upper(filter);
    let mut out: Vec<Student> = Vec::new();
    let mut i: usize = 0;
    while i < students.len()
        invariant
            i <= students@.len(),
            f@ == upper_of(filter@),
            student_views(out@) == students_with_prefix(students@.take(i as int), f@),
        decreases students@.len() - i,
    {
        assert(students@.take(i + 1).drop_last() =~= students@.take(i as int));
        let s = &students[i];
        let u = to_upper(s.name.as_str());
        if starts_with(u.as_str(), f.as_str()) {
            let ghost before = out@;
            let c = Student { id: s.id, name: s.name.clone() };
            out.push(c);
            assert(student_views(out@) =~= student_views(before).push((s.id as int, s.name@)));
        }
        i = i + 1;
    }
    assert(students@.take(students@.len() as int) =~= students@);
    Some(out)
}

} // verus!
