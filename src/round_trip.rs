use vstd::prelude::*;
use crate::date::{date_text, lemma_date_text_round_trip, CalDate};
use crate::fields::{free_of, join_with, lemma_split_first, lemma_split_join, split_on};
use crate::order::listed;
use crate::table::{
    decode_spec, fragments, key_date_filled, key_date_max, key_date_min, key_ss_id, key_ss_name,
    key_th_id, key_th_name, keys_unique, lemma_rows_map_at, lemma_rows_map_dom, param_of,
    rows_map, strings_view, students_of, table_of_text, text_lines, Attendance,
    FragmentV, RowV, StudentRow, TableV,
};
use crate::text::{
    all_digits, fixed_digits, i32_of_text, in_i32, int_text, is_digit, lemma_fixed_digits,
    lemma_int_text_round_trip, lemma_nat_text, nat_text,
};
use crate::writer::{
    header_lines, is_write_order, padded_marks, param_line, row_line, table_lines, table_text,
};

verus! {

/// Text that a field of the file can hold: no tab, line feed or carriage return.
pub open spec fn text_safe(s: Seq<char>) -> bool {
    free_of(s, '\t') && free_of(s, '\n') && free_of(s, '\r')
}

/// Whether text ends with a carriage return, which reading drops from a line.
pub open spec fn ends_cr(s: Seq<char>) -> bool {
    s.len() > 0 && s.last() == '\r'
}

/// A parameter value that reads back unchanged: no line feed, and no carriage
/// return at its end (tabs are kept).
pub open spec fn value_safe(s: Seq<char>) -> bool {
    free_of(s, '\n') && !ends_cr(s)
}

/// A student's name that reads back unchanged: no tab and no line feed.
pub open spec fn name_safe(s: Seq<char>) -> bool {
    free_of(s, '\t') && free_of(s, '\n')
}

/// A mark that reads back unchanged: as a name, and no carriage return at its end.
pub open spec fn mark_safe(s: Seq<char>) -> bool {
    name_safe(s) && !ends_cr(s)
}

impl Attendance {
    /// Whether every parameter value, name and mark reads back unchanged from
    /// the file's text.
    pub open spec fn storable(&self) -> bool {
        &&& value_safe(self.th_name@)
        &&& value_safe(self.ss_name@)
        &&& forall|i: int|
            0 <= i < self.students@.len() ==> name_safe(#[trigger] self.students@[i].name@)
        &&& forall|i: int, j: int|
            0 <= i < self.students@.len() && 0 <= j < self.students@[i].marks@.len()
                ==> mark_safe(#[trigger] self.students@[i].marks@[j]@)
    }
}

/// A line of the file: not empty, without line feed, not ending in a carriage
/// return.
pub open spec fn line_ok(s: Seq<char>) -> bool {
    s.len() > 0 && free_of(s, '\n') && !ends_cr(s)
}

proof fn lemma_text_value_safe(s: Seq<char>)
    requires
        text_safe(s),
    ensures
        value_safe(s),
{
    if s.len() > 0 {
        assert(s[s.len() - 1] != '\r');
    }
}

proof fn lemma_join_no_cr(parts: Seq<Seq<char>>, sep: char)
    requires
        sep != '\r',
        forall|i: int| 0 <= i < parts.len() ==> !ends_cr(#[trigger] parts[i]),
    ensures
        !ends_cr(join_with(parts, sep)),
{
    if parts.len() > 1 {
        let j = join_with(parts, sep);
        let a = join_with(parts.drop_last(), sep);
        let l = parts.last();
        assert(!ends_cr(parts[parts.len() - 1]));
        assert(j == a + seq![sep] + l);
        if l.len() > 0 {
            assert(j.last() == l.last());
        } else {
            assert(j.last() == sep);
        }
    } else if parts.len() == 1 {
        assert(!ends_cr(parts[0]));
    }
}

/// Each row's marks cut or padded to `n`.
pub open spec fn normalized(m: Map<int, RowV>, n: int) -> Map<int, RowV> {
    m.map_values(|v: RowV| (v.0, padded_marks(v.1, n)))
}

proof fn lemma_digits_safe(s: Seq<char>)
    requires
        all_digits(s),
    ensures
        text_safe(s),
        forall|i: int| 0 <= i < s.len() ==> #[trigger] s[i] != '-',
{
    assert forall|i: int| 0 <= i < s.len() implies s[i] != '\t' && s[i] != '\n' && s[i] != '\r'
        && #[trigger] s[i] != '-' by {
        assert(is_digit(s[i]));
    }
}

proof fn lemma_int_text_safe(n: int)
    ensures
        text_safe(int_text(n)),
        int_text(n).len() > 0,
        in_i32(n) ==> i32_of_text(int_text(n)) == Some(n),
{
    lemma_nat_text(if n < 0 { -n } else { n } as nat);
    lemma_digits_safe(nat_text(if n < 0 { -n } else { n } as nat));
    lemma_int_text_round_trip(n);
    let s = int_text(n);
    assert forall|i: int| 0 <= i < s.len() implies s[i] != '\t' && s[i] != '\n' && s[i]
        != '\r' by {
        if n < 0 && i > 0 {
            assert(s[i] == nat_text((-n) as nat)[i - 1]);
        }
    }
}

proof fn lemma_date_text_safe(d: CalDate)
    requires
        d.wf(),
    ensures
        text_safe(date_text(d)),
{
    lemma_fixed_digits(d.year as nat, 4);
    lemma_fixed_digits(d.month as nat, 2);
    lemma_fixed_digits(d.day as nat, 2);
    lemma_digits_safe(fixed_digits(d.year as nat, 4));
    lemma_digits_safe(fixed_digits(d.month as nat, 2));
    lemma_digits_safe(fixed_digits(d.day as nat, 2));
    let s = date_text(d);
    assert forall|i: int| 0 <= i < s.len() implies s[i] != '\t' && s[i] != '\n' && s[i]
        != '\r' by {
        if i < 4 {
            assert(s[i] == fixed_digits(d.year as nat, 4)[i]);
        } else if 4 < i < 7 {
            assert(s[i] == fixed_digits(d.month as nat, 2)[i - 5]);
        } else if 7 < i {
            assert(s[i] == fixed_digits(d.day as nat, 2)[i - 8]);
        }
    }
}

proof fn lemma_join_free(parts: Seq<Seq<char>>, sep: char, c: char)
    requires
        sep != c,
        forall|i: int| 0 <= i < parts.len() ==> free_of(#[trigger] parts[i], c),
    ensures
        free_of(join_with(parts, sep), c),
    decreases parts.len(),
{
    if parts.len() > 1 {
        let d = parts.drop_last();
        assert forall|i: int| 0 <= i < d.len() implies free_of(#[trigger] d[i], c) by {
            assert(d[i] == parts[i]);
        }
        lemma_join_free(d, sep, c);
        assert(free_of(parts[parts.len() - 1], c));
        let j = join_with(parts, sep);
        let a = join_with(d, sep);
        assert forall|i: int| 0 <= i < j.len() implies j[i] != c by {
            if i < a.len() {
                assert(j[i] == a[i]);
            } else if i > a.len() {
                assert(j[i] == parts.last()[i - a.len() - 1]);
            }
        }
    } else if parts.len() == 1 {
        assert(free_of(parts[0], c));
    }
}

proof fn lemma_concat_free(a: Seq<char>, b: Seq<char>, c: char)
    requires
        free_of(a, c),
        free_of(b, c),
    ensures
        free_of(a + b, c),
{
    assert forall|i: int| 0 <= i < (a + b).len() implies (a + b)[i] != c by {
        if i < a.len() {
            assert((a + b)[i] == a[i]);
        } else {
            assert((a + b)[i] == b[i - a.len()]);
        }
    }
}

/// The keys of the parameters: lower-case letters and underscores.
proof fn lemma_key_facts(k: Seq<char>)
    requires
        k == key_th_id() || k == key_th_name() || k == key_ss_id() || k == key_ss_name() || k
            == key_date_min() || k == key_date_max() || k == key_date_filled(),
    ensures
        text_safe(k),
        k.len() > 0,
        i32_of_text(k) is None,
{
    assert(!is_digit(k[0]) && k[0] != '-' && k[0] != '+');
    assert(!all_digits(k));
}

proof fn lemma_decode_param_line(k: Seq<char>, v: Seq<char>)
    requires
        text_safe(k),
        i32_of_text(k) is None,
    ensures
        decode_spec(param_line(k, v)) == FragmentV::Param(k, v),
{
    reveal(decode_spec);
    lemma_split_first(k, v, '\t');
    crate::fields::lemma_split_nonempty(v, '\t');
    let l = param_line(k, v);
    let f = split_on(l, '\t');
    assert(f[0] == k);
    assert(l.skip(k.len() as int + 1) =~= v);
}

proof fn lemma_padded_safe(marks: Seq<Seq<char>>, n: int)
    requires
        forall|j: int| 0 <= j < marks.len() ==> mark_safe(#[trigger] marks[j]),
    ensures
        forall|j: int| 0 <= j < padded_marks(marks, n).len() ==> mark_safe(
            #[trigger] padded_marks(marks, n)[j],
        ),
{
    assert forall|j: int| 0 <= j < padded_marks(marks, n).len() implies mark_safe(
        #[trigger] padded_marks(marks, n)[j],
    ) by {
        if j < marks.len() {
            assert(mark_safe(marks[j]));
        } else {
            assert(padded_marks(marks, n)[j] =~= Seq::<char>::empty());
        }
    }
}

proof fn lemma_decode_row_line(r: StudentRow, n: int)
    requires
        n >= 1,
        name_safe(r.name@),
        forall|j: int| 0 <= j < r.marks@.len() ==> mark_safe(#[trigger] r.marks@[j]@),
    ensures
        decode_spec(row_line(r, n)) == FragmentV::Row(
            r.key as int,
            r.name@,
            padded_marks(strings_view(r.marks@), n),
        ),
        line_ok(row_line(r, n)),
{
    reveal(decode_spec);
    let p = padded_marks(strings_view(r.marks@), n);
    let ms = strings_view(r.marks@);
    assert forall|j: int| 0 <= j < ms.len() implies mark_safe(#[trigger] ms[j]) by {
        assert(ms[j] == r.marks@[j]@);
    }
    lemma_padded_safe(ms, n);
    let jn = join_with(p, '\t');
    lemma_split_join(p, '\t');
    let i = int_text(r.key as int);
    lemma_int_text_safe(r.key as int);
    lemma_split_first(r.name@, jn, '\t');
    lemma_split_first(i, r.name@ + seq!['\t'] + jn, '\t');
    let l = row_line(r, n);
    assert(l =~= i + seq!['\t'] + (r.name@ + seq!['\t'] + jn));
    let f = split_on(l, '\t');
    assert(f =~= seq![i] + (seq![r.name@] + p));
    assert(f[0] == i);
    assert(f[1] == r.name@);
    assert(f.skip(2) =~= p);
    lemma_join_free(p, '\t', '\n');
    assert forall|j: int| 0 <= j < p.len() implies !ends_cr(#[trigger] p[j]) by {
        assert(mark_safe(p[j]));
    }
    lemma_join_no_cr(p, '\t');
    assert(free_of(jn, '\n'));
    let a0 = i + seq!['\t'] + r.name@ + seq!['\t'];
    assert(l =~= a0 + jn);
    if jn.len() > 0 {
        assert(l.last() == jn.last());
    } else {
        assert(l.last() == '\t');
    }
    assert forall|x: int| 0 <= x < l.len() implies l[x] != '\n' by {
        let a = i + seq!['\t'] + r.name@ + seq!['\t'];
        if x < i.len() {
            assert(l[x] == i[x]);
        } else if x == i.len() {
        } else if x < i.len() + 1 + r.name@.len() {
            assert(l[x] == r.name@[x - i.len() - 1]);
        } else if x == i.len() + 1 + r.name@.len() {
        } else {
            assert(l[x] == jn[x - a.len()]);
        }
    }
    assert(l[0] == i[0]);
}

proof fn lemma_param_of_rows(h: Seq<FragmentV>, rs: Seq<FragmentV>, key: Seq<char>)
    requires
        forall|i: int| 0 <= i < rs.len() ==> (#[trigger] rs[i]) is Row,
    ensures
        param_of(h + rs, key) == param_of(h, key),
    decreases rs.len(),
{
    if rs.len() == 0 {
        assert(h + rs =~= h);
    } else {
        let d = rs.drop_last();
        assert((h + rs).drop_last() =~= h + d);
        assert((h + rs).last() == rs[rs.len() - 1]);
        lemma_param_of_rows(h, d, key);
    }
}

proof fn lemma_students_of_params(h: Seq<FragmentV>, rs: Seq<FragmentV>)
    requires
        forall|i: int| 0 <= i < h.len() ==> (#[trigger] h[i]) is Param,
    ensures
        students_of(h + rs) == students_of(rs),
    decreases h.len() + rs.len(),
{
    if rs.len() == 0 {
        assert(h + rs =~= h);
        if h.len() > 0 {
            let d = h.drop_last();
            lemma_students_of_params(d, rs);
            assert(d + rs =~= d);
            assert(h.last() is Param);
        }
    } else {
        let d = rs.drop_last();
        assert((h + rs).drop_last() =~= h + d);
        assert((h + rs).last() == rs[rs.len() - 1]);
        lemma_students_of_params(h, d);
    }
}

/// The row fragments of the rows written in order `ord`.
pub open spec fn row_frags(rows: Seq<StudentRow>, ord: Seq<usize>, n: int) -> Seq<FragmentV> {
    ord.map_values(
        |i: usize|
            FragmentV::Row(
                rows[i as int].key as int,
                rows[i as int].name@,
                padded_marks(strings_view(rows[i as int].marks@), n),
            ),
    )
}

pub open spec fn norm_view(r: StudentRow, n: int) -> RowV {
    (r.name@, padded_marks(strings_view(r.marks@), n))
}

proof fn lemma_students_of_rows(rows: Seq<StudentRow>, ord: Seq<usize>, n: int, j: int, k: int)
    requires
        keys_unique(rows),
        0 <= j <= ord.len(),
        forall|i: int| 0 <= i < ord.len() ==> (#[trigger] ord[i]) < rows.len(),
    ensures
        students_of(row_frags(rows, ord, n).take(j)).contains_key(k) <==> exists|i: int|
            0 <= i < j && rows[ord[i] as int].key == k,
        forall|p: int|
            0 <= p < rows.len() && rows[p].key == k && students_of(
                row_frags(rows, ord, n).take(j),
            ).contains_key(k) ==> students_of(row_frags(rows, ord, n).take(j))[k] == norm_view(
                rows[p],
                n,
            ),
    decreases j,
{
    let f = row_frags(rows, ord, n);
    if j > 0 {
        lemma_students_of_rows(rows, ord, n, j - 1, k);
        assert(f.take(j).drop_last() =~= f.take(j - 1));
        assert(f.take(j).last() == f[j - 1]);
        let q = ord[j - 1] as int;
        if rows[q].key == k {
            assert forall|p: int| 0 <= p < rows.len() && rows[p].key == k implies p == q by {
                if p != q {
                    assert(rows[p].key != rows[q].key);
                }
            }
        }
        if exists|i: int| 0 <= i < j && rows[ord[i] as int].key == k {
            let i = choose|i: int| 0 <= i < j && rows[ord[i] as int].key == k;
            if i < j - 1 {
                assert(exists|i2: int| 0 <= i2 < j - 1 && rows[ord[i2] as int].key == k);
            }
        }
    } else {
        assert(f.take(0) =~= Seq::<FragmentV>::empty());
    }
}

proof fn lemma_param_line_ok(k: Seq<char>, v: Seq<char>)
    requires
        text_safe(k),
        k.len() > 0,
        value_safe(v),
    ensures
        line_ok(param_line(k, v)),
{
    let l = param_line(k, v);
    if v.len() > 0 {
        assert(l.last() == v.last());
    } else {
        assert(l.last() == '\t');
    }
    assert forall|x: int| 0 <= x < l.len() implies l[x] != '\n' by {
        if x < k.len() {
            assert(l[x] == k[x]);
        } else if x > k.len() {
            assert(l[x] == v[x - k.len() - 1]);
        }
    }
}

proof fn lemma_header_lines_ok(t: Attendance)
    requires
        t.wf(),
        t.storable(),
    ensures
        forall|i: int| 0 <= i < header_lines(t).len() ==> line_ok(#[trigger] header_lines(t)[i])
            && decode_spec(header_lines(t)[i]) is Param,
        header_lines(t).len() >= 6,
{
    let h = header_lines(t);
    lemma_key_facts(key_th_id());
    lemma_key_facts(key_th_name());
    lemma_key_facts(key_ss_id());
    lemma_key_facts(key_ss_name());
    lemma_key_facts(key_date_min());
    lemma_key_facts(key_date_max());
    lemma_key_facts(key_date_filled());
    lemma_int_text_safe(t.th_id as int);
    lemma_int_text_safe(t.ss_id as int);
    lemma_date_text_safe(t.date_min);
    lemma_date_text_safe(t.date_max);
    if let Some(d) = t.date_filled {
        lemma_date_text_safe(d);
    }
    assert forall|i: int| 0 <= i < h.len() implies line_ok(#[trigger] h[i]) && decode_spec(
        h[i],
    ) is Param by {
        let kv: (Seq<char>, Seq<char>) = if i == 0 {
            (key_th_id(), int_text(t.th_id as int))
        } else if i == 1 {
            (key_th_name(), t.th_name@)
        } else if i == 2 {
            (key_ss_id(), int_text(t.ss_id as int))
        } else if i == 3 {
            (key_ss_name(), t.ss_name@)
        } else if i == 4 {
            (key_date_min(), date_text(t.date_min))
        } else if i == 5 {
            (key_date_max(), date_text(t.date_max))
        } else {
            (key_date_filled(), date_text(t.date_filled->0))
        };
        assert(h[i] == param_line(kv.0, kv.1));
        if i == 0 || i == 2 || i >= 4 {
            lemma_text_value_safe(kv.1);
        }
        lemma_param_line_ok(kv.0, kv.1);
        lemma_decode_param_line(kv.0, kv.1);
    }
}

proof fn lemma_row_lines_ok(t: Attendance, ord: Seq<usize>)
    requires
        t.wf(),
        t.storable(),
        is_write_order(t.students@, ord),
    ensures
        forall|i: int|
            0 <= i < ord.len() ==> line_ok(#[trigger] row_line(t.students@[ord[i] as int], t.range_len()))
                && decode_spec(row_line(t.students@[ord[i] as int], t.range_len())) == row_frags(
                t.students@,
                ord,
                t.range_len(),
            )[i],
{
    let rows = t.students@;
    let n = t.range_len();
    assert forall|i: int| 0 <= i < ord.len() implies line_ok(
        #[trigger] row_line(rows[ord[i] as int], n),
    ) && decode_spec(row_line(rows[ord[i] as int], n)) == row_frags(rows, ord, n)[i] by {
        let r = rows[ord[i] as int];
        assert(name_safe(r.name@));
        assert forall|j: int| 0 <= j < r.marks@.len() implies mark_safe(#[trigger] r.marks@[j]@) by {
            assert(mark_safe(t.students@[ord[i] as int].marks@[j]@));
        }
        lemma_decode_row_line(r, n);
    }
}

/// The text of a table reads back as the table's lines, decoded.
proof fn lemma_table_fragments(t: Attendance, ord: Seq<usize>)
    requires
        t.wf(),
        t.storable(),
        is_write_order(t.students@, ord),
    ensures
        fragments(table_text(t, ord)) == header_lines(t).map_values(|l: Seq<char>| decode_spec(l))
            + row_frags(t.students@, ord, t.range_len()),
{
    reveal(fragments);
    reveal(text_lines);
    let rows = t.students@;
    let n = t.range_len();
    let h = header_lines(t);
    let lines = table_lines(t, ord);
    let content = table_text(t, ord);
    lemma_header_lines_ok(t);
    lemma_row_lines_ok(t, ord);
    assert forall|i: int| 0 <= i < lines.len() implies line_ok(#[trigger] lines[i]) by {
        if i < h.len() {
            assert(lines[i] == h[i]);
        } else {
            assert(lines[i] == row_line(rows[ord[i - h.len()] as int], n));
        }
    }
    assert forall|i: int| 0 <= i < lines.len() implies free_of(#[trigger] lines[i], '\n') by {
        assert(line_ok(lines[i]));
    }
    lemma_split_join(lines, '\n');
    assert(line_ok(lines[lines.len() - 1]));
    assert(text_lines(content) =~= lines) by {
        assert forall|i: int| 0 <= i < lines.len() implies crate::table::strip_cr(lines[i])
            == lines[i] by {
            assert(line_ok(lines[i]));
            assert(lines[i][lines[i].len() - 1] != '\r');
        }
    }
    let hf = h.map_values(|l: Seq<char>| decode_spec(l));
    let rf = row_frags(rows, ord, n);
    let f = fragments(content);
    assert forall|i: int| 0 <= i < f.len() implies f[i] == (hf + rf)[i] by {
        if i < h.len() {
            assert(lines[i] == h[i]);
        } else {
            assert(lines[i] == row_line(rows[ord[i - h.len()] as int], n));
        }
    }
    assert(f =~= hf + rf);
}

/// Writing a table and reading the text back gives the same parameters and,
/// for every key, the same name and the marks cut or padded to the range.
pub proof fn lemma_write_read_round_trip(t: Attendance, ord: Seq<usize>)
    requires
        t.wf(),
        t.storable(),
        is_write_order(t.students@, ord),
    ensures
        table_of_text(table_text(t, ord)) == Ok::<TableV, Seq<char>>(
            TableV {
                th_id: t.th_id as int,
                th_name: t.th_name@,
                ss_id: t.ss_id as int,
                ss_name: t.ss_name@,
                date_min: t.date_min,
                date_max: t.date_max,
                date_filled: t.date_filled,
                students: normalized(rows_map(t.students@), t.range_len()),
            },
        ),
{
    let rows = t.students@;
    let n = t.range_len();
    let h = header_lines(t);
    let hf = h.map_values(|l: Seq<char>| decode_spec(l));
    let rf = row_frags(rows, ord, n);
    lemma_table_fragments(t, ord);
    lemma_header_lines_ok(t);
    assert forall|i: int| 0 <= i < rf.len() implies (#[trigger] rf[i]) is Row by {}
    assert forall|i: int| 0 <= i < hf.len() implies (#[trigger] hf[i]) is Param by {
        assert(decode_spec(h[i]) is Param);
    }
    lemma_param_of_rows(hf, rf, key_th_id());
    lemma_param_of_rows(hf, rf, key_th_name());
    lemma_param_of_rows(hf, rf, key_ss_id());
    lemma_param_of_rows(hf, rf, key_ss_name());
    lemma_param_of_rows(hf, rf, key_date_min());
    lemma_param_of_rows(hf, rf, key_date_max());
    lemma_param_of_rows(hf, rf, key_date_filled());
    lemma_header_params(t);
    lemma_int_text_safe(t.th_id as int);
    lemma_int_text_safe(t.ss_id as int);
    lemma_date_text_round_trip(t.date_min);
    lemma_date_text_round_trip(t.date_max);
    if let Some(d) = t.date_filled {
        lemma_date_text_round_trip(d);
    }
    lemma_students_of_params(hf, rf);
    lemma_row_map_round_trip(t, ord);
}

/// When every row already has one mark per day, writing and reading back
/// gives exactly the table's rows.
pub proof fn lemma_write_read_exact(t: Attendance, ord: Seq<usize>)
    requires
        t.wf(),
        t.storable(),
        is_write_order(t.students@, ord),
        forall|i: int| 0 <= i < t.students@.len() ==> (#[trigger] t.students@[i]).marks@.len()
            == t.range_len(),
    ensures
        table_of_text(table_text(t, ord)) == Ok::<TableV, Seq<char>>(t.view()),
{
    lemma_write_read_round_trip(t, ord);
    let m = rows_map(t.students@);
    let n = t.range_len();
    assert forall|k: int| #[trigger] m.contains_key(k) implies normalized(m, n)[k] == m[k] by {
        lemma_rows_map_dom(t.students@, k);
        let p = choose|p: int| 0 <= p < t.students@.len() && t.students@[p].key == k;
        lemma_rows_map_at(t.students@, p);
        let ms = strings_view(t.students@[p].marks@);
        assert(padded_marks(ms, n) =~= ms);
    }
    assert(normalized(m, n) =~= m);
}

proof fn lemma_row_map_round_trip(t: Attendance, ord: Seq<usize>)
    requires
        t.wf(),
        is_write_order(t.students@, ord),
    ensures
        students_of(row_frags(t.students@, ord, t.range_len())) == normalized(
            rows_map(t.students@),
            t.range_len(),
        ),
{
    let rows = t.students@;
    let n = t.range_len();
    let rf = row_frags(rows, ord, n);
    let m = students_of(rf);
    let want = normalized(rows_map(rows), n);
    assert(rf.take(ord.len() as int) =~= rf);
    assert forall|k: int| #[trigger] m.contains_key(k) <==> want.contains_key(k) by {
        lemma_students_of_rows(rows, ord, n, ord.len() as int, k);
        lemma_rows_map_dom(rows, k);
        if want.contains_key(k) {
            let pidx = choose|pidx: int| 0 <= pidx < rows.len() && rows[pidx].key == k;
            assert(listed(ord, pidx));
            let i = choose|i: int| 0 <= i < ord.len() && ord[i] == pidx;
            assert(rows[ord[i] as int].key == k);
        }
    }
    assert forall|k: int| #[trigger] m.contains_key(k) implies m[k] == want[k] by {
        lemma_students_of_rows(rows, ord, n, ord.len() as int, k);
        lemma_rows_map_dom(rows, k);
        let pidx = choose|pidx: int| 0 <= pidx < rows.len() && rows[pidx].key == k;
        lemma_rows_map_at(rows, pidx);
    }
    assert(m =~= want);
}

/// What the parameter lines of a table set.
proof fn lemma_header_params(t: Attendance)
    requires
        t.wf(),
    ensures
        ({
            let hf = header_lines(t).map_values(|l: Seq<char>| decode_spec(l));
            &&& param_of(hf, key_th_id()) == Some(int_text(t.th_id as int))
            &&& param_of(hf, key_th_name()) == Some(t.th_name@)
            &&& param_of(hf, key_ss_id()) == Some(int_text(t.ss_id as int))
            &&& param_of(hf, key_ss_name()) == Some(t.ss_name@)
            &&& param_of(hf, key_date_min()) == Some(date_text(t.date_min))
            &&& param_of(hf, key_date_max()) == Some(date_text(t.date_max))
            &&& param_of(hf, key_date_filled()) == match t.date_filled {
                Some(d) => Some(date_text(d)),
                None => None::<Seq<char>>,
            }
        }),
{
    let h = header_lines(t);
    let hf = h.map_values(|l: Seq<char>| decode_spec(l));
    lemma_key_facts(key_th_id());
    lemma_key_facts(key_th_name());
    lemma_key_facts(key_ss_id());
    lemma_key_facts(key_ss_name());
    lemma_key_facts(key_date_min());
    lemma_key_facts(key_date_max());
    lemma_key_facts(key_date_filled());
    lemma_decode_param_line(key_th_id(), int_text(t.th_id as int));
    lemma_decode_param_line(key_th_name(), t.th_name@);
    lemma_decode_param_line(key_ss_id(), int_text(t.ss_id as int));
    lemma_decode_param_line(key_ss_name(), t.ss_name@);
    lemma_decode_param_line(key_date_min(), date_text(t.date_min));
    lemma_decode_param_line(key_date_max(), date_text(t.date_max));
    if let Some(d) = t.date_filled {
        lemma_decode_param_line(key_date_filled(), date_text(d));
    }
    lemma_keys_distinct();
    reveal_with_fuel(param_of, 8);
    let b = hf.take(6);
    assert(b.drop_last() =~= hf.take(5));
    assert(hf.take(5).drop_last() =~= hf.take(4));
    assert(hf.take(4).drop_last() =~= hf.take(3));
    assert(hf.take(3).drop_last() =~= hf.take(2));
    assert(hf.take(2).drop_last() =~= hf.take(1));
    assert(hf.take(1).drop_last() =~= hf.take(0));
    match t.date_filled {
        Some(d) => {
            assert(hf.drop_last() =~= b);
        },
        None => {
            assert(hf =~= b);
        },
    }
}

proof fn lemma_keys_distinct()
    ensures
        key_th_id() != key_th_name(),
        key_th_id() != key_ss_id(),
        key_th_id() != key_ss_name(),
        key_th_id() != key_date_min(),
        key_th_id() != key_date_max(),
        key_th_id() != key_date_filled(),
        key_th_name() != key_ss_id(),
        key_th_name() != key_ss_name(),
        key_th_name() != key_date_min(),
        key_th_name() != key_date_max(),
        key_th_name() != key_date_filled(),
        key_ss_id() != key_ss_name(),
        key_ss_id() != key_date_min(),
        key_ss_id() != key_date_max(),
        key_ss_id() != key_date_filled(),
        key_ss_name() != key_date_min(),
        key_ss_name() != key_date_max(),
        key_ss_name() != key_date_filled(),
        key_date_min() != key_date_max(),
        key_date_min() != key_date_filled(),
        key_date_max() != key_date_filled(),
{
    assert(key_th_id()[0] != key_ss_id()[0]);
    assert(key_th_id()[0] != key_date_min()[0]);
    assert(key_th_name()[0] != key_ss_name()[0]);
    assert(key_th_id().len() != key_th_name().len());
    assert(key_ss_id().len() != key_ss_name().len());
    assert(key_date_min()[6] != key_date_max()[6]);
    assert(key_date_min().len() != key_date_filled().len());
    assert(key_date_max().len() != key_date_filled().len());
    assert(key_th_name()[0] != key_date_min()[0]);
    assert(key_ss_id()[0] != key_date_min()[0]);
    assert(key_ss_name()[0] != key_date_min()[0]);
    assert(key_th_name().len() != key_date_filled().len());
}

} // verus!
