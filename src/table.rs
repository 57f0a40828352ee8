use vstd::prelude::*;
use crate::date::{date_of_text, lemma_next_day, lemma_year_order, parse_date, CalDate};
use crate::fields::{lemma_split_first_len, split_chars, split_on, views};
use crate::text::{chars_of, i32_of_text, parse_i32, string_of};

verus! {

/// One student's row: the key, the name and the marks, one per day of the range.
pub struct StudentRow {
    pub key: i32,
    pub name: String,
    pub marks: Vec<String>,
}

/// What went wrong with a table.
#[derive(Debug, PartialEq, Eq)]
pub enum TableError {
    /// The file is missing, unreadable or unwritable.
    IoFailure,
    /// A required parameter is missing or cannot be read; it names the parameter.
    MalformedTable(String),
    /// No row has the key.
    NotFound(i32),
    /// Writing or relocating the file failed.
    PersistenceError,
}

/// One attendance sheet: who teaches what over which days, and the students' rows.
pub struct Attendance {
    pub id: String,
    pub open: bool,
    pub th_id: i32,
    pub th_name: String,
    pub ss_id: i32,
    pub ss_name: String,
    pub date_min: CalDate,
    pub date_max: CalDate,
    pub date_filled: Option<CalDate>,
    pub students: Vec<StudentRow>,
}

/// A row's name and marks.
pub type RowV = (Seq<char>, Seq<Seq<char>>);

pub open spec fn strings_view(v: Seq<String>) -> Seq<Seq<char>> {
    v.map_values(|s: String| s@)
}

pub open spec fn row_view(r: StudentRow) -> RowV {
    (r.name@, strings_view(r.marks@))
}

/// The rows as a map from key to name and marks; a later row wins.
pub open spec fn rows_map(rows: Seq<StudentRow>) -> Map<int, RowV>
    decreases rows.len(),
{
    if rows.len() == 0 {
        Map::empty()
    } else {
        rows_map(rows.drop_last()).insert(rows.last().key as int, row_view(rows.last()))
    }
}

pub open spec fn keys_unique(rows: Seq<StudentRow>) -> bool {
    forall|i: int, j: int|
        0 <= i < rows.len() && 0 <= j < rows.len() && i != j ==> rows[i].key != rows[j].key
}

/// What one line of a table file says.
pub enum LineFragment {
    /// A parameter and its raw value.
    Param { name: String, value: String },
    /// A student's key, name and marks.
    Row { key: i32, name: String, marks: Vec<String> },
}

/// The meaning of a line, over character sequences.
pub enum FragmentV {
    Param(Seq<char>, Seq<char>),
    Row(int, Seq<char>, Seq<Seq<char>>),
}

impl LineFragment {
    pub open spec fn view(self) -> FragmentV {
        match self {
            LineFragment::Param { name, value } => FragmentV::Param(name@, value@),
            LineFragment::Row { key, name, marks } => FragmentV::Row(
                key as int,
                name@,
                strings_view(marks@),
            ),
        }
    }
}

/// A line splits at its first tab into a key and the rest. A key that reads as
/// an integer starts a student row: the rest is the name, then the marks, all
/// tab-separated. Any other key is a parameter whose value is the whole rest; a
/// line without a tab is a parameter with an empty value.
#[verifier::opaque]
pub open spec fn decode_spec(line: Seq<char>) -> FragmentV {
    let f = split_on(line, '\t');
    if f.len() == 1 {
        FragmentV::Param(line, Seq::empty())
    } else {
        match i32_of_text(f[0]) {
            Some(k) => FragmentV::Row(k, f[1], f.skip(2)),
            None => FragmentV::Param(f[0], line.skip(f[0].len() as int + 1)),
        }
    }
}

pub open spec fn strip_cr(l: Seq<char>) -> Seq<char> {
    if l.len() > 0 && l.last() == '\r' {
        l.drop_last()
    } else {
        l
    }
}

/// The lines of a text: split at line feeds, an empty piece after a final line
/// feed dropped, a carriage return before a line feed dropped.
#[verifier::opaque]
pub open spec fn text_lines(content: Seq<char>) -> Seq<Seq<char>> {
    let p = split_on(content, '\n');
    let q = if p.last().len() == 0 { p.drop_last() } else { p };
    q.map_values(|l: Seq<char>| strip_cr(l))
}

#[verifier::opaque]
pub open spec fn fragments(content: Seq<char>) -> Seq<FragmentV> {
    text_lines(content).map_values(|l: Seq<char>| decode_spec(l))
}

/// The value of the last line that sets parameter `key`.
pub open spec fn param_of(frags: Seq<FragmentV>, key: Seq<char>) -> Option<Seq<char>>
    decreases frags.len(),
{
    if frags.len() == 0 {
        None
    } else {
        match frags.last() {
            FragmentV::Param(k, v) => if k == key {
                Some(v)
            } else {
                param_of(frags.drop_last(), key)
            },
            _ => param_of(frags.drop_last(), key),
        }
    }
}

/// The student rows of the lines; a later line with the same key wins.
pub open spec fn students_of(frags: Seq<FragmentV>) -> Map<int, RowV>
    decreases frags.len(),
{
    if frags.len() == 0 {
        Map::empty()
    } else {
        match frags.last() {
            FragmentV::Row(k, n, m) => students_of(frags.drop_last()).insert(k, (n, m)),
            _ => students_of(frags.drop_last()),
        }
    }
}

pub open spec fn key_th_id() -> Seq<char> {
    seq!['t', 'h', '_', 'i', 'd']
}

pub open spec fn key_th_name() -> Seq<char> {
    seq!['t', 'h', '_', 'n', 'a', 'm', 'e']
}

pub open spec fn key_ss_id() -> Seq<char> {
    seq!['s', 's', '_', 'i', 'd']
}

pub open spec fn key_ss_name() -> Seq<char> {
    seq!['s', 's', '_', 'n', 'a', 'm', 'e']
}

pub open spec fn key_date_min() -> Seq<char> {
    seq!['d', 'a', 't', 'e', '_', 'm', 'i', 'n']
}

pub open spec fn key_date_max() -> Seq<char> {
    seq!['d', 'a', 't', 'e', '_', 'm', 'a', 'x']
}

pub open spec fn key_date_filled() -> Seq<char> {
    seq!['d', 'a', 't', 'e', '_', 'f', 'i', 'l', 'l', 'e', 'd']
}

/// The parameters and rows that a table holds, apart from where it is stored.
pub struct TableV {
    pub th_id: int,
    pub th_name: Seq<char>,
    pub ss_id: int,
    pub ss_name: Seq<char>,
    pub date_min: CalDate,
    pub date_max: CalDate,
    pub date_filled: Option<CalDate>,
    pub students: Map<int, RowV>,
}

pub open spec fn int_param(frags: Seq<FragmentV>, key: Seq<char>) -> Option<int> {
    match param_of(frags, key) {
        Some(v) => i32_of_text(v),
        None => None,
    }
}

pub open spec fn date_param(frags: Seq<FragmentV>, key: Seq<char>) -> Option<CalDate> {
    match param_of(frags, key) {
        Some(v) => date_of_text(v),
        None => None,
    }
}

/// What a table file's text holds, or the first required parameter (in the
/// order teacher id, teacher name, subject id, subject name, first day, last
/// day, day filled) that is missing or cannot be read. A first day after the
/// last day is charged to the last day.
pub open spec fn table_of_text(content: Seq<char>) -> Result<TableV, Seq<char>> {
    let f = fragments(content);
    if int_param(f, key_th_id()) is None {
        Err(key_th_id())
    } else if param_of(f, key_th_name()) is None {
        Err(key_th_name())
    } else if int_param(f, key_ss_id()) is None {
        Err(key_ss_id())
    } else if param_of(f, key_ss_name()) is None {
        Err(key_ss_name())
    } else if date_param(f, key_date_min()) is None {
        Err(key_date_min())
    } else if date_param(f, key_date_max()) is None {
        Err(key_date_max())
    } else if param_of(f, key_date_filled()) is Some && date_param(f, key_date_filled()) is None {
        Err(key_date_filled())
    } else if date_param(f, key_date_min())->0.day_number() > date_param(
        f,
        key_date_max(),
    )->0.day_number() {
        Err(key_date_max())
    } else {
        Ok(
            TableV {
                th_id: int_param(f, key_th_id())->0,
                th_name: param_of(f, key_th_name())->0,
                ss_id: int_param(f, key_ss_id())->0,
                ss_name: param_of(f, key_ss_name())->0,
                date_min: date_param(f, key_date_min())->0,
                date_max: date_param(f, key_date_max())->0,
                date_filled: date_param(f, key_date_filled()),
                students: students_of(f),
            },
        )
    }
}

impl Attendance {
    /// The table's invariant: its days have four-digit years, the range is not
    /// empty, and no two rows share a key.
    pub open spec fn wf(&self) -> bool {
        &&& self.date_min.wf()
        &&& self.date_max.wf()
        &&& self.date_min.day_number() <= self.date_max.day_number()
        &&& (self.date_filled matches Some(d) ==> d.wf())
        &&& keys_unique(self.students@)
    }

    pub open spec fn view(&self) -> TableV {
        TableV {
            th_id: self.th_id as int,
            th_name: self.th_name@,
            ss_id: self.ss_id as int,
            ss_name: self.ss_name@,
            date_min: self.date_min,
            date_max: self.date_max,
            date_filled: self.date_filled,
            students: rows_map(self.students@),
        }
    }
}

/// Strings holding the pieces `f[from..]`.
fn strings_from(f: &Vec<Vec<char>>, from: usize) -> (r: Vec<String>)
    requires
        from <= f@.len(),
    ensures
        strings_view(r@) == views(f@).skip(from as int),
{
    let mut r: Vec<String> = Vec::new();
    let mut i: usize = from;
    while i < f.len()
        invariant
            from <= i <= f@.len(),
            strings_view(r@) == views(f@).subrange(from as int, i as int),
        decreases f@.len() - i,
    {
        let s = string_of(f[i].as_slice());
        let ghost old_r = r@;
        r.push(s);
        assert(strings_view(r@) =~= strings_view(old_r).push(s@));
        assert(views(f@).subrange(from as int, i + 1) =~= views(f@).subrange(
            from as int,
            i as int,
        ).push(f@[i as int]@));
        i = i + 1;
    }
    assert(views(f@).subrange(from as int, f@.len() as int) =~= views(f@).skip(from as int));
    r
}

/// The characters `s[from..]`.
fn chars_from(s: &[char], from: usize) -> (r: Vec<char>)
    requires
        from <= s@.len(),
    ensures
        r@ == s@.skip(from as int),
{
    let mut r: Vec<char> = Vec::new();
    let mut i: usize = from;
    while i < s.len()
        invariant
            from <= i <= s@.len(),
            r@ == s@.subrange(from as int, i as int),
        decreases s@.len() - i,
    {
        r.push(s[i]);
        i = i + 1;
        assert(r@ =~= s@.subrange(from as int, i as int));
    }
    assert(r@ =~= s@.skip(from as int));
    r
}

/// Decodes one line given as characters.
fn decode_chars(line: &[char]) -> (r: LineFragment)
    ensures
        r.view() == decode_spec(line@),
{
    reveal(decode_spec);
    let f = split_chars(line, '\t');
    proof {
        lemma_split_first_len(line@, '\t');
    }
    if f.len() == 1 {
        return LineFragment::Param { name: string_of(line), value: String::new() };
    }
    assert(views(f@)[0] == f@[0]@);
    match parse_i32(f[0].as_slice()) {
        Some(k) => {
            let name = string_of(f[1].as_slice());
            let marks = strings_from(&f, 2);
            assert(views(f@)[1] == f@[1]@);
            LineFragment::Row { key: k, name, marks }
        },
        None => {
            let name = string_of(f[0].as_slice());
            assert(f@[0]@.len() < line@.len());
            let k = f[0].len();
            let n = line.len();
            assert(k < n);
            let rest = chars_from(line, k + 1);
            LineFragment::Param { name, value: string_of(rest.as_slice()) }
        },
    }
}

/// Decodes one line of a table file.
pub fn decode_line(line: &str) -> (r: LineFragment)
    ensures
        r.view() == decode_spec(line@),
        split_on(line@, '\t').len() == 1 ==> r.view() == FragmentV::Param(line@, Seq::empty()),
        i32_of_text(split_on(line@, '\t')[0]) is None ==> r.view() is Param,
{
    reveal(decode_spec);
    let cs = chars_of(line);
    decode_chars(cs.as_slice())
}

pub open spec fn frag_views(v: Seq<LineFragment>) -> Seq<FragmentV> {
    v.map_values(|f: LineFragment| f.view())
}

/// The index of the last `c` in `s`, or -1.
pub open spec fn last_index_of(s: Seq<char>, c: char) -> int
    decreases s.len(),
{
    if s.len() == 0 {
        -1
    } else if s.last() == c {
        s.len() - 1
    } else {
        last_index_of(s.drop_last(), c)
    }
}

pub proof fn lemma_last_index_range(s: Seq<char>, c: char)
    ensures
        -1 <= last_index_of(s, c) < s.len(),
    decreases s.len(),
{
    if s.len() > 0 {
        lemma_last_index_range(s.drop_last(), c);
    }
}

/// The last component of a path.
pub open spec fn file_name_of(path: Seq<char>) -> Seq<char> {
    path.skip(last_index_of(path, '/') + 1)
}

/// A file name without its extension: all of it when it has no dot but a
/// leading one, else the part before the last dot.
pub open spec fn stem_of(name: Seq<char>) -> Seq<char> {
    let d = last_index_of(name, '.');
    if d <= 0 {
        name
    } else {
        name.take(d)
    }
}

pub open spec fn open_dir_name() -> Seq<char> {
    seq!['o', 'p', 'e', 'n']
}

/// Whether the path's directory is named `open`.
pub open spec fn in_open_dir(path: Seq<char>) -> bool {
    let k = last_index_of(path, '/');
    k >= 0 && file_name_of(path.take(k)) == open_dir_name()
}

/// The index of the last `c` in `s`, or -1.
fn find_last(s: &[char], c: char) -> (r: Option<usize>)
    ensures
        match r {
            Some(j) => j == last_index_of(s@, c),
            None => last_index_of(s@, c) == -1,
        },
{
    let mut j: usize = s.len();
    assert(s@.take(j as int) =~= s@);
    while j > 0
        invariant
            j <= s@.len(),
            last_index_of(s@, c) == last_index_of(s@.take(j as int), c),
        decreases j,
    {
        assert(s@.take(j as int).drop_last() =~= s@.take(j - 1));
        if s[j - 1] == c {
            return Some(j - 1);
        }
        j = j - 1;
    }
    assert(s@.take(0) =~= Seq::<char>::empty());
    None
}

/// The characters `s[..to]`.
fn chars_to(s: &[char], to: usize) -> (r: Vec<char>)
    requires
        to <= s@.len(),
    ensures
        r@ == s@.take(to as int),
{
    let mut r: Vec<char> = Vec::new();
    let mut i: usize = 0;
    while i < to
        invariant
            i <= to <= s@.len(),
            r@ == s@.take(i as int),
        decreases to - i,
    {
        r.push(s[i]);
        i = i + 1;
        assert(r@ =~= s@.take(i as int));
    }
    r
}

fn name_of_path(path: &[char]) -> (r: Vec<char>)
    ensures
        r@ == file_name_of(path@),
{
    proof {
        lemma_last_index_range(path@, '/');
    }
    match find_last(path, '/') {
        Some(k) => {
            let n = path.len();
            assert(k < n);
            chars_from(path, k + 1)
        },
        None => {
            assert(path@.skip(0) =~= path@);
            chars_from(path, 0)
        },
    }
}

/// The stem of the file that a path names.
pub fn table_id(path: &[char]) -> (r: Vec<char>)
    ensures
        r@ == stem_of(file_name_of(path@)),
{
    let name = name_of_path(path);
    proof {
        lemma_last_index_range(name@, '.');
    }
    match find_last(name.as_slice(), '.') {
        Some(d) => if d == 0 {
            name
        } else {
            chars_to(name.as_slice(), d)
        },
        None => name,
    }
}

/// Whether two character slices are equal.
pub fn chars_eq(a: &[char], b: &[char]) -> (r: bool)
    ensures
        r == (a@ == b@),
{
    if a.len() != b.len() {
        return false;
    }
    let mut i: usize = 0;
    while i < a.len()
        invariant
            i <= a@.len(),
            a@.len() == b@.len(),
            a@.take(i as int) == b@.take(i as int),
        decreases a@.len() - i,
    {
        if a[i] != b[i] {
            return false;
        }
        assert(a@.take(i + 1) =~= a@.take(i as int).push(a@[i as int]));
        assert(b@.take(i + 1) =~= b@.take(i as int).push(b@[i as int]));
        i = i + 1;
    }
    assert(a@.take(a@.len() as int) =~= a@);
    assert(b@.take(b@.len() as int) =~= b@);
    true
}

/// Whether the table stored at `path` lies in a directory named `open`.
pub fn path_is_open(path: &[char]) -> (r: bool)
    ensures
        r == in_open_dir(path@),
{
    proof {
        lemma_last_index_range(path@, '/');
    }
    let k = match find_last(path, '/') {
        Some(k) => k,
        None => {
            return false;
        },
    };
    let dir = chars_to(path, k);
    let name = name_of_path(dir.as_slice());
    let open = vec!['o', 'p', 'e', 'n'];
    assert(open@ =~= open_dir_name());
    chars_eq(name.as_slice(), open.as_slice())
}

/// The lines of a text, decoded.
fn decode_text(cs: &[char]) -> (r: Vec<LineFragment>)
    ensures
        frag_views(r@) == fragments(cs@),
{
    reveal(fragments);
    reveal(text_lines);
    let pieces = split_chars(cs, '\n');
    let ghost p = split_on(cs@, '\n');
    let mut n = pieces.len();
    assert(views(pieces@)[n - 1] == pieces@[n - 1]@);
    if pieces[n - 1].len() == 0 {
        n = n - 1;
    }
    let ghost q = if p.last().len() == 0 { p.drop_last() } else { p };
    assert(q.len() == n);
    let mut r: Vec<LineFragment> = Vec::new();
    let mut i: usize = 0;
    while i < n
        invariant
            i <= n <= pieces@.len(),
            q.len() == n,
            forall|j: int| 0 <= j < n ==> #[trigger] q[j] == pieces@[j]@,
            frag_views(r@) == fragments(cs@).take(i as int),
            fragments(cs@) == q.map_values(|l: Seq<char>| strip_cr(l)).map_values(
                |l: Seq<char>| decode_spec(l),
            ),
        decreases n - i,
    {
        let line = &pieces[i];
        let k = line.len();
        let f = if k > 0 && line[k - 1] == '\r' {
            let t = chars_to(line.as_slice(), k - 1);
            assert(t@ =~= line@.drop_last());
            decode_chars(t.as_slice())
        } else {
            decode_chars(line.as_slice())
        };
        assert(q[i as int] == pieces@[i as int]@);
        let ghost old_r = r@;
        r.push(f);
        assert(frag_views(r@) =~= frag_views(old_r).push(f.view()));
        assert(fragments(cs@).take(i + 1) =~= fragments(cs@).take(i as int).push(
            fragments(cs@)[i as int],
        ));
        i = i + 1;
    }
    assert(fragments(cs@).take(n as int) =~= fragments(cs@));
    r
}

/// The value of the last fragment that sets parameter `key`.
fn lookup_param(frags: &Vec<LineFragment>, key: &String) -> (r: Option<String>)
    ensures
        match r {
            Some(v) => param_of(frag_views(frags@), key@) == Some(v@),
            None => param_of(frag_views(frags@), key@) is None,
        },
{
    let ghost fv = frag_views(frags@);
    let mut j: usize = frags.len();
    assert(fv.take(j as int) =~= fv);
    while j > 0
        invariant
            j <= frags@.len(),
            fv == frag_views(frags@),
            param_of(fv, key@) == param_of(fv.take(j as int), key@),
        decreases j,
    {
        assert(fv.take(j as int).drop_last() =~= fv.take(j - 1));
        assert(fv.take(j as int).last() == frags@[j - 1].view());
        match &frags[j - 1] {
            LineFragment::Param { name, value } => {
                if *name == *key {
                    return Some(value.clone());
                }
            },
            _ => {},
        }
        j = j - 1;
    }
    None
}

pub proof fn lemma_rows_map_dom(rows: Seq<StudentRow>, k: int)
    ensures
        rows_map(rows).contains_key(k) <==> exists|i: int| 0 <= i < rows.len() && rows[i].key == k,
    decreases rows.len(),
{
    if rows.len() > 0 {
        lemma_rows_map_dom(rows.drop_last(), k);
        if rows_map(rows).contains_key(k) && rows.last().key != k {
            let i = choose|i: int| 0 <= i < rows.drop_last().len() && rows.drop_last()[i].key == k;
            assert(rows[i].key == k);
        }
        if exists|i: int| 0 <= i < rows.len() && rows[i].key == k {
            let i = choose|i: int| 0 <= i < rows.len() && rows[i].key == k;
            if i < rows.len() - 1 {
                assert(rows.drop_last()[i].key == k);
            }
        }
    }
}

/// With unique keys, the map gives each key its row.
pub proof fn lemma_rows_map_at(rows: Seq<StudentRow>, i: int)
    requires
        keys_unique(rows),
        0 <= i < rows.len(),
    ensures
        rows_map(rows).contains_key(rows[i].key as int),
        rows_map(rows)[rows[i].key as int] == row_view(rows[i]),
    decreases rows.len(),
{
    if i < rows.len() - 1 {
        let d = rows.drop_last();
        assert(keys_unique(d));
        assert(d[i] == rows[i]);
        lemma_rows_map_at(d, i);
        assert(rows.last().key != rows[i].key);
    }
}

/// Replacing the row of a key by another row of that key.
pub proof fn lemma_rows_map_update(rows: Seq<StudentRow>, i: int, r: StudentRow)
    requires
        keys_unique(rows),
        0 <= i < rows.len(),
        rows[i].key == r.key,
    ensures
        rows_map(rows.update(i, r)) == rows_map(rows).insert(r.key as int, row_view(r)),
        keys_unique(rows.update(i, r)),
    decreases rows.len(),
{
    let u = rows.update(i, r);
    let d = rows.drop_last();
    if i == rows.len() - 1 {
        assert(u.drop_last() =~= d);
        assert(rows_map(u) =~= rows_map(rows).insert(r.key as int, row_view(r)));
    } else {
        assert(keys_unique(d));
        assert(u.drop_last() =~= d.update(i, r));
        lemma_rows_map_update(d, i, r);
        assert(rows.last().key != rows[i].key);
        assert(rows_map(u) =~= rows_map(rows).insert(r.key as int, row_view(r)));
    }
}

/// Puts a row into the table's rows, replacing the row with the same key.
pub fn upsert(rows: &mut Vec<StudentRow>, row: StudentRow)
    requires
        keys_unique(old(rows)@),
    ensures
        keys_unique(final(rows)@),
        rows_map(final(rows)@) == rows_map(old(rows)@).insert(row.key as int, row_view(row)),
{
    let mut i: usize = 0;
    while i < rows.len()
        invariant
            i <= rows@.len(),
            rows@ == old(rows)@,
            keys_unique(rows@),
            forall|j: int| 0 <= j < i ==> (#[trigger] rows@[j]).key != row.key,
        decreases rows@.len() - i,
    {
        if rows[i].key == row.key {
            proof {
                lemma_rows_map_update(rows@, i as int, row);
            }
            rows.set(i, row);
            return;
        }
        i = i + 1;
    }
    let ghost before = rows@;
    rows.push(row);
    assert(rows@.drop_last() =~= before);
    assert(rows@.last() == row);
    assert(keys_unique(rows@)) by {
        assert forall|a: int, b: int|
            0 <= a < rows@.len() && 0 <= b < rows@.len() && a != b implies rows@[a].key
            != rows@[b].key by {
            if a < before.len() && b < before.len() {
                assert(rows@[a] == before[a] && rows@[b] == before[b]);
            } else if a < before.len() {
                assert(rows@[a] == before[a]);
            } else {
                assert(rows@[b] == before[b]);
            }
        }
    }
}

/// The rows that the fragments give, a later one winning.
fn rows_of_fragments(frags: &Vec<LineFragment>) -> (r: Vec<StudentRow>)
    ensures
        keys_unique(r@),
        rows_map(r@) == students_of(frag_views(frags@)),
{
    let ghost fv = frag_views(frags@);
    let mut rows: Vec<StudentRow> = Vec::new();
    let mut i: usize = 0;
    while i < frags.len()
        invariant
            i <= frags@.len(),
            fv == frag_views(frags@),
            keys_unique(rows@),
            rows_map(rows@) == students_of(fv.take(i as int)),
        decreases frags@.len() - i,
    {
        assert(fv.take(i + 1).drop_last() =~= fv.take(i as int));
        assert(fv.take(i + 1).last() == frags@[i as int].view());
        match &frags[i] {
            LineFragment::Row { key, name, marks } => {
                let row = StudentRow { key: *key, name: name.clone(), marks: clone_strings(marks) };
                upsert(&mut rows, row);
            },
            _ => {},
        }
        i = i + 1;
    }
    assert(fv.take(frags@.len() as int) =~= fv);
    rows
}

/// A copy of a vector of strings.
pub fn clone_strings(v: &Vec<String>) -> (r: Vec<String>)
    ensures
        strings_view(r@) == strings_view(v@),
{
    let mut r: Vec<String> = Vec::new();
    let mut i: usize = 0;
    while i < v.len()
        invariant
            i <= v@.len(),
            strings_view(r@) == strings_view(v@).take(i as int),
        decreases v@.len() - i,
    {
        let ghost old_r = r@;
        let c = v[i].clone();
        r.push(c);
        assert(strings_view(r@) =~= strings_view(old_r).push(c@));
        assert(strings_view(v@).take(i + 1) =~= strings_view(v@).take(i as int).push(v@[i as int]@));
        i = i + 1;
    }
    assert(strings_view(v@).take(v@.len() as int) =~= strings_view(v@));
    r
}

/// The integer value of parameter `key`.
fn int_value(frags: &Vec<LineFragment>, key: &String) -> (r: Option<i32>)
    ensures
        match r {
            Some(n) => int_param(frag_views(frags@), key@) == Some(n as int),
            None => int_param(frag_views(frags@), key@) is None,
        },
{
    match lookup_param(frags, key) {
        Some(v) => {
            let cs = chars_of(v.as_str());
            parse_i32(cs.as_slice())
        },
        None => None,
    }
}

/// The day that parameter `key` names.
fn date_value(frags: &Vec<LineFragment>, key: &String) -> (r: Option<CalDate>)
    ensures
        r == date_param(frag_views(frags@), key@),
        r matches Some(d) ==> d.wf(),
{
    match lookup_param(frags, key) {
        Some(v) => {
            let cs = chars_of(v.as_str());
            parse_date(cs.as_slice())
        },
        None => None,
    }
}

fn malformed(key: &String) -> (r: TableError)
    ensures
        r matches TableError::MalformedTable(k) && k@ == key@,
{
    TableError::MalformedTable(key.clone())
}

impl Attendance {
    /// Reads a table from the text of the file stored at `tsv_file`. The table's
    /// id is the file's stem, and it is open when its directory is named `open`.
    pub fn read(tsv_file: &str, content: &str) -> (r: Result<Attendance, TableError>)
        ensures
            match r {
                Ok(a) => {
                    &&& table_of_text(content@) == Ok::<TableV, Seq<char>>(a.view())
                    &&& a.wf()
                    &&& a.id@ == stem_of(file_name_of(tsv_file@))
                    &&& a.open == in_open_dir(tsv_file@)
                },
                Err(TableError::MalformedTable(k)) => table_of_text(content@) == Err::<
                    TableV,
                    Seq<char>,
                >(k@),
                Err(_) => false,
            },
    {
        let cs = chars_of(content);
        let frags = decode_text(cs.as_slice());
        let ghost f = frag_views(frags@);
        let k_th_id = string_of(vec!['t', 'h', '_', 'i', 'd'].as_slice());
        let k_th_name = string_of(vec!['t', 'h', '_', 'n', 'a', 'm', 'e'].as_slice());
        let k_ss_id = string_of(vec!['s', 's', '_', 'i', 'd'].as_slice());
        let k_ss_name = string_of(vec!['s', 's', '_', 'n', 'a', 'm', 'e'].as_slice());
        let k_date_min = string_of(vec!['d', 'a', 't', 'e', '_', 'm', 'i', 'n'].as_slice());
        let k_date_max = string_of(vec!['d', 'a', 't', 'e', '_', 'm', 'a', 'x'].as_slice());
        let k_date_filled = string_of(
            vec!['d', 'a', 't', 'e', '_', 'f', 'i', 'l', 'l', 'e', 'd'].as_slice(),
        );
        assert(k_th_id@ =~= key_th_id());
        assert(k_th_name@ =~= key_th_name());
        assert(k_ss_id@ =~= key_ss_id());
        assert(k_ss_name@ =~= key_ss_name());
        assert(k_date_min@ =~= key_date_min());
        assert(k_date_max@ =~= key_date_max());
        assert(k_date_filled@ =~= key_date_filled());
        let th_id = match int_value(&frags, &k_th_id) {
            Some(n) => n,
            None => {
                return Err(malformed(&k_th_id));
            },
        };
        let th_name = match lookup_param(&frags, &k_th_name) {
            Some(v) => v,
            None => {
                return Err(malformed(&k_th_name));
            },
        };
        let ss_id = match int_value(&frags, &k_ss_id) {
            Some(n) => n,
            None => {
                return Err(malformed(&k_ss_id));
            },
        };
        let ss_name = match lookup_param(&frags, &k_ss_name) {
            Some(v) => v,
            None => {
                return Err(malformed(&k_ss_name));
            },
        };
        let date_min = match date_value(&frags, &k_date_min) {
            Some(d) => d,
            None => {
                return Err(malformed(&k_date_min));
            },
        };
        let date_max = match date_value(&frags, &k_date_max) {
            Some(d) => d,
            None => {
                return Err(malformed(&k_date_max));
            },
        };
        let date_filled = match lookup_param(&frags, &k_date_filled) {
            Some(_) => match date_value(&frags, &k_date_filled) {
                Some(d) => Some(d),
                None => {
                    return Err(malformed(&k_date_filled));
                },
            },
            None => {
                let d = date_value(&frags, &k_date_filled);
                d
            },
        };
        if date_min.number() > date_max.number() {
            return Err(malformed(&k_date_max));
        }
        let students = rows_of_fragments(&frags);
        let path = chars_of(tsv_file);
        let id = string_of(table_id(path.as_slice()).as_slice());
        let open = path_is_open(path.as_slice());
        Ok(
            Attendance {
                id,
                open,
                th_id,
                th_name,
                ss_id,
                ss_name,
                date_min,
                date_max,
                date_filled,
                students,
            },
        )
    }
}

/// What a stored mark counts as when read: its value when it is a
/// non-negative integer, else zero.
pub open spec fn mark_value(s: Seq<char>) -> int {
    match i32_of_text(s) {
        Some(v) => if v >= 0 { v } else { 0 },
        None => 0,
    }
}

/// The mark at `i` of a row, zero where the row has none.
pub open spec fn mark_at(marks: Seq<Seq<char>>, i: int) -> int {
    if 0 <= i < marks.len() { mark_value(marks[i]) } else { 0 }
}

impl Attendance {
    /// How many days the range holds.
    pub open spec fn range_len(&self) -> int {
        self.date_max.day_number() - self.date_min.day_number() + 1
    }

    /// The days from the first to the last, in order.
    pub open spec fn dates(&self) -> Seq<CalDate> {
        Seq::new(self.range_len() as nat, |i: int| self.date_min.plus(i as nat))
    }

    /// The days of the range, from the first to the last, in order.
    pub fn date_range(&self) -> (r: Vec<CalDate>)
        requires
            self.wf(),
        ensures
            r@ == self.dates(),
            r@.len() == self.range_len(),
            r@.len() >= 1,
            self.date_min == self.date_max ==> r@.len() == 1,
            r@[0] == self.date_min,
            forall|i: int| 0 <= i < r@.len() ==> (#[trigger] r@[i]).wf() && r@[i].day_number()
                == self.date_min.day_number() + i,
            forall|i: int| 0 <= i < r@.len() - 1 ==> #[trigger] r@[i + 1] == r@[i].next(),
    {
        let lo = self.date_min.number() as i64;
        let hi = self.date_max.number() as i64;
        let n = hi - lo + 1;
        let mut r: Vec<CalDate> = Vec::new();
        let mut cur = self.date_min;
        r.push(cur);
        let mut i: i64 = 1;
        while i < n
            invariant
                self.wf(),
                n == self.range_len(),
                1 <= i <= n,
                r@.len() == i,
                cur == r@[i - 1],
                forall|j: int| 0 <= j < i ==> #[trigger] r@[j] == self.date_min.plus(j as nat),
                forall|j: int| 0 <= j < i ==> (#[trigger] r@[j]).wf() && r@[j].day_number()
                    == self.date_min.day_number() + j,
            decreases n - i,
        {
            proof {
                lemma_year_order(cur, self.date_max);
                lemma_next_day(cur);
            }
            let ghost prev = cur;
            cur = cur.succ();
            proof {
                lemma_next_day(cur);
                if cur.year > 9999 {
                    lemma_year_order(cur, self.date_max);
                }
            }
            r.push(cur);
            assert(self.date_min.plus(i as nat) == self.date_min.plus((i - 1) as nat).next());
            i = i + 1;
        }
        assert(r@ =~= self.dates());
        r
    }

    /// The index of the row with key `st_id`.
    fn row_index(&self, st_id: i32) -> (r: Option<usize>)
        requires
            keys_unique(self.students@),
        ensures
            match r {
                Some(i) => i < self.students@.len() && self.students@[i as int].key == st_id
                    && rows_map(self.students@).contains_key(st_id as int) && rows_map(
                    self.students@,
                )[st_id as int] == row_view(self.students@[i as int]),
                None => !rows_map(self.students@).contains_key(st_id as int),
            },
    {
        let mut i: usize = 0;
        while i < self.students.len()
            invariant
                i <= self.students@.len(),
                keys_unique(self.students@),
                forall|j: int| 0 <= j < i ==> (#[trigger] self.students@[j]).key != st_id,
            decreases self.students@.len() - i,
        {
            if self.students[i].key == st_id {
                proof {
                    lemma_rows_map_at(self.students@, i as int);
                }
                return Some(i);
            }
            i = i + 1;
        }
        proof {
            lemma_rows_map_dom(self.students@, st_id as int);
        }
        None
    }

    /// Each day of the range with the student's mark on it; a mark that is
    /// missing, empty or not a non-negative integer counts as zero.
    pub fn attendance_row(&self, st_id: i32) -> (r: Result<Vec<(CalDate, i32)>, TableError>)
        requires
            self.wf(),
        ensures
            match r {
                Ok(v) => {
                    &&& rows_map(self.students@).contains_key(st_id as int)
                    &&& v@.len() == self.range_len()
                    &&& forall|i: int|
                        0 <= i < v@.len() ==> (#[trigger] v@[i]).0 == self.dates()[i] && v@[i].1
                            == mark_at(rows_map(self.students@)[st_id as int].1, i)
                },
                Err(e) => !rows_map(self.students@).contains_key(st_id as int) && e
                    == TableError::NotFound(st_id),
            },
    {
        let idx = match self.row_index(st_id) {
            Some(i) => i,
            None => {
                return Err(TableError::NotFound(st_id));
            },
        };
        let marks = &self.students[idx].marks;
        let dates = self.date_range();
        let mut out: Vec<(CalDate, i32)> = Vec::new();
        let mut i: usize = 0;
        while i < dates.len()
            invariant
                i <= dates@.len(),
                dates@ == self.dates(),
                *marks == self.students@[idx as int].marks,
                rows_map(self.students@)[st_id as int].1 == strings_view(marks@),
                out@.len() == i,
                forall|j: int|
                    0 <= j < i ==> (#[trigger] out@[j]).0 == self.dates()[j] && out@[j].1
                        == mark_at(strings_view(marks@), j),
            decreases dates@.len() - i,
        {
            let m: i32 = if i < marks.len() {
                let cs = chars_of(marks[i].as_str());
                match parse_i32(cs.as_slice()) {
                    Some(v) => if v >= 0 { v } else { 0 },
                    None => 0,
                }
            } else {
                0
            };
            out.push((dates[i], m));
            i = i + 1;
        }
        Ok(out)
    }
}

} // verus!
