use vstd::prelude::*;
use crate::text::chars_of;

verus! {

/// A stored table file and how many whole days ago it was last changed.
pub struct FileRec {
    pub file: String,
    pub age: u64,
}

/// Whether a character is alphabetic or numeric in Unicode's sense.
pub uninterp spec fn alphanumeric(c: char) -> bool;

/// Relies on `char::is_alphanumeric`: whether the character is alphabetic or
/// numeric by Unicode's tables.
#[verifier::external_body]
fn is_alnum(c: char) -> (r: bool)
    ensures
        r == alphanumeric(c),
{
    c.is_alphanumeric()
}

pub open spec fn file_char_ok(c: char) -> bool {
    alphanumeric(c) || c == '-' || c == '_' || c == '.'
}

pub open spec fn count_of(s: Seq<char>, c: char) -> nat
    decreases s.len(),
{
    if s.len() == 0 {
        0
    } else {
        count_of(s.drop_last(), c) + if s.last() == c { 1nat } else { 0nat }
    }
}

/// A name that a table file may have: not empty, only letters, digits, `-`,
/// `_` and `.`, and one or two dots.
pub open spec fn safe_file_name(s: Seq<char>) -> bool {
    &&& s.len() > 0
    &&& forall|i: int| 0 <= i < s.len() ==> file_char_ok(#[trigger] s[i])
    &&& (count_of(s, '.') == 1 || count_of(s, '.') == 2)
}

/// Whether `s` is a name that a table file may have.
pub fn is_alphanumeric_underscore_dot(s: &str) -> (r: bool)
    ensures
        r == safe_file_name(s@),
{
    let cs = chars_of(s);
    let mut dots: u64 = 0;
    let mut ok = true;
    let mut i: usize = 0;
    while i < cs.len()
        invariant
            i <= cs@.len(),
            cs@ == s@,
            dots == count_of(cs@.take(i as int), '.'),
            dots <= i,
            ok == (forall|j: int| 0 <= j < i ==> file_char_ok(#[trigger] cs@[j])),
        decreases cs@.len() - i,
    {
        let c = cs[i];
        assert(cs@.take(i + 1).drop_last() =~= cs@.take(i as int));
        if c == '.' {
            dots = dots + 1;
        }
        let good = is_alnum(c) || c == '-' || c == '_' || c == '.';
        ok = ok && good;
        i = i + 1;
    }
    assert(cs@.take(cs@.len() as int) =~= cs@);
    cs.len() > 0 && ok && (dots == 1 || dots == 2)
}

/// Whole days in a span of seconds.
pub fn age_in_days(elapsed_secs: u64) -> (r: u64)
    ensures
        r == elapsed_secs / 86400,
{
    elapsed_secs / 3600 / 24
}

/// The files of `recs`, in order, that are at least `max_age` days old.
pub open spec fn expired(recs: Seq<FileRec>, max_age: u64) -> Seq<Seq<char>>
    decreases recs.len(),
{
    if recs.len() == 0 {
        Seq::empty()
    } else {
        let prev = expired(recs.drop_last(), max_age);
        if recs.last().age >= max_age {
            prev.push(recs.last().file@)
        } else {
            prev
        }
    }
}

/// The files that the retention sweep removes: those at least `max_age` days old.
pub fn old_files(recs: &Vec<FileRec>, max_age: u64) -> (r: Vec<String>)
    ensures
        r@.map_values(|s: String| s@) == expired(recs@, max_age),
{
    let mut r: Vec<String> = Vec::new();
    let mut i: usize = 0;
    while i < recs.len()
        invariant
            i <= recs@.len(),
            r@.map_values(|s: String| s@) == expired(recs@.take(i as int), max_age),
        decreases recs@.len() - i,
    {
        assert(recs@.take(i + 1).drop_last() =~= recs@.take(i as int));
        if recs[i].age >= max_age {
            let f = recs[i].file.clone();
            let ghost before = r@;
            r.push(f);
            assert(r@.map_values(|s: String| s@) =~= before.map_values(|s: String| s@).push(f@));
        }
        i = i + 1;
    }
    assert(recs@.take(recs@.len() as int) =~= recs@);
    r
}

/// The administrator's padded id, who sees every table.
pub open spec fn admin_id() -> Seq<char> {
    seq!['0', '0', '0', '0']
}

/// Whether a teacher with the (padded) id `th_id` sees the table whose file
/// stem is `stem`: the administrator sees all, a teacher those whose name
/// starts with the id.
pub fn visible_to(th_id: &str, stem: &str) -> (r: bool)
    ensures
        r == (th_id@ == admin_id() || crate::auth::has_prefix(stem@, th_id@)),
{
    let id = chars_of(th_id);
    let admin = vec!['0', '0', '0', '0'];
    assert(admin@ =~= admin_id());
    if crate::table::chars_eq(id.as_slice(), admin.as_slice()) {
        return true;
    }
    crate::auth::starts_with(stem, th_id)
}

/// The lower-case hexadecimal SHA-256 digest of a text's UTF-8 bytes.
pub uninterp spec fn sha256_hex_of(s: Seq<char>) -> Seq<char>;

/// Relies on `sha256::digest`: the digest of the text's bytes as lower-case hex.
#[verifier::external_body]
fn sha256_hex(s: &str) -> (r: String)
    ensures
        r@ == sha256_hex_of(s@),
{
    sha256::digest(s)
}

/// Whether an uploaded body carries the digest it was announced with.
pub fn body_matches_hash(body: &str, given: &str) -> (r: bool)
    ensures
        r == (given@ == sha256_hex_of(body@)),
{
    let h = sha256_hex(body);
    let a = chars_of(given);
    let b = chars_of(h.as_str());
    crate::table::chars_eq(a.as_slice(), b.as_slice())
}

} // verus!
