use vstd::prelude::*;
use crate::date::{date_text, push_date_text, CalDate};
use crate::fields::join_with;
use crate::order::{listed, row_before, write_order};
use crate::table::{
    key_date_filled, key_date_max, key_date_min, key_ss_id, key_ss_name, key_th_id, key_th_name,
    strings_view, Attendance, StudentRow,
};
use crate::text::{chars_of, int_text, push_int_text, string_of};

verus! {

/// A row's marks cut or padded with empty fields to `n` entries.
pub open spec fn padded_marks(marks: Seq<Seq<char>>, n: int) -> Seq<Seq<char>> {
    Seq::new(n as nat, |i: int| if i < marks.len() { marks[i] } else { Seq::empty() })
}

pub open spec fn param_line(key: Seq<char>, value: Seq<char>) -> Seq<char> {
    key + seq!['\t'] + value
}

/// `key<TAB>name<TAB>mark...`, with `n` marks.
pub open spec fn row_line(r: StudentRow, n: int) -> Seq<char> {
    int_text(r.key as int) + seq!['\t'] + r.name@ + seq!['\t'] + join_with(
        padded_marks(strings_view(r.marks@), n),
        '\t',
    )
}

/// The parameter lines, in their fixed order.
pub open spec fn header_lines(t: Attendance) -> Seq<Seq<char>> {
    let base = seq![
        param_line(key_th_id(), int_text(t.th_id as int)),
        param_line(key_th_name(), t.th_name@),
        param_line(key_ss_id(), int_text(t.ss_id as int)),
        param_line(key_ss_name(), t.ss_name@),
        param_line(key_date_min(), date_text(t.date_min)),
        param_line(key_date_max(), date_text(t.date_max)),
    ];
    match t.date_filled {
        Some(d) => base.push(param_line(key_date_filled(), date_text(d))),
        None => base,
    }
}

/// Whether `ord` lists every row's position once, in writing order.
pub open spec fn is_write_order(rows: Seq<StudentRow>, ord: Seq<usize>) -> bool {
    &&& ord.len() == rows.len()
    &&& forall|i: int| 0 <= i < ord.len() ==> (#[trigger] ord[i]) < rows.len()
    &&& forall|i: int, j: int| 0 <= i < j < ord.len() ==> ord[i] != ord[j]
    &&& forall|i: int, j: int|
        0 <= i < j < ord.len() ==> row_before(rows[ord[i] as int], rows[ord[j] as int])
    &&& forall|p: int| 0 <= p < rows.len() ==> #[trigger] listed(ord, p)
}

/// The lines of a table whose rows are written in order `ord`.
pub open spec fn table_lines(t: Attendance, ord: Seq<usize>) -> Seq<Seq<char>> {
    header_lines(t) + ord.map_values(|i: usize| row_line(t.students@[i as int], t.range_len()))
}

/// The file text of a table whose rows are written in order `ord`.
pub open spec fn table_text(t: Attendance, ord: Seq<usize>) -> Seq<char> {
    join_with(table_lines(t, ord), '\n')
}

pub proof fn lemma_join_push(parts: Seq<Seq<char>>, l: Seq<char>, c: char)
    requires
        parts.len() >= 1,
    ensures
        join_with(parts.push(l), c) == join_with(parts, c) + seq![c] + l,
{
    assert(parts.push(l).drop_last() =~= parts);
}

pub fn push_chars(out: &mut Vec<char>, s: &str)
    ensures
        final(out)@ == old(out)@ + s@,
{
    let cs = chars_of(s);
    let mut i: usize = 0;
    while i < cs.len()
        invariant
            i <= cs@.len(),
            cs@ == s@,
            out@ == old(out)@ + cs@.take(i as int),
        decreases cs@.len() - i,
    {
        out.push(cs[i]);
        i = i + 1;
        assert(out@ =~= old(out)@ + cs@.take(i as int));
    }
    assert(cs@.take(cs@.len() as int) =~= cs@);
}

/// Appends a row's line with `n` marks.
fn push_row_line(out: &mut Vec<char>, r: &StudentRow, n: usize)
    requires
        n >= 1,
    ensures
        final(out)@ == old(out)@ + row_line(*r, n as int),
{
    push_int_text(out, r.key);
    out.push('\t');
    push_chars(out, r.name.as_str());
    out.push('\t');
    let ghost start = out@;
    let ghost p = padded_marks(strings_view(r.marks@), n as int);
    let mut j: usize = 0;
    while j < n
        invariant
            j <= n,
            n >= 1,
            p == padded_marks(strings_view(r.marks@), n as int),
            j == 0 ==> out@ == start,
            j > 0 ==> out@ == start + join_with(p.take(j as int), '\t'),
        decreases n - j,
    {
        if j > 0 {
            out.push('\t');
        }
        if j < r.marks.len() {
            push_chars(out, r.marks[j].as_str());
        }
        proof {
            if j == 0 {
                assert(p.take(1) =~= seq![p[0]]);
            } else {
                lemma_join_push(p.take(j as int), p[j as int], '\t');
                assert(p.take(j as int).push(p[j as int]) =~= p.take(j + 1));
            }
        }
        assert(p[j as int] == (if j < r.marks@.len() { r.marks@[j as int]@ } else { Seq::<char>::empty() }));
        j = j + 1;
        assert(out@ =~= start + join_with(p.take(j as int), '\t'));
    }
    assert(p.take(n as int) =~= p);
    assert(final(out)@ =~= old(out)@ + row_line(*r, n as int));
}

fn push_param_int(out: &mut Vec<char>, key: &str, v: i32)
    ensures
        final(out)@ == old(out)@ + key@ + seq!['\t'] + int_text(v as int),
{
    push_chars(out, key);
    out.push('\t');
    push_int_text(out, v);
    assert(final(out)@ =~= old(out)@ + key@ + seq!['\t'] + int_text(v as int));
}

fn push_param_str(out: &mut Vec<char>, key: &str, v: &String)
    ensures
        final(out)@ == old(out)@ + key@ + seq!['\t'] + v@,
{
    push_chars(out, key);
    out.push('\t');
    push_chars(out, v.as_str());
    assert(final(out)@ =~= old(out)@ + key@ + seq!['\t'] + v@);
}

fn push_param_date(out: &mut Vec<char>, key: &str, d: CalDate)
    requires
        d.wf(),
    ensures
        final(out)@ == old(out)@ + key@ + seq!['\t'] + date_text(d),
{
    push_chars(out, key);
    out.push('\t');
    push_date_text(out, d);
    assert(final(out)@ =~= old(out)@ + key@ + seq!['\t'] + date_text(d));
}

impl Attendance {
    /// Appends the parameter lines.
    fn push_header(&self, out: &mut Vec<char>)
        requires
            self.wf(),
            old(out)@.len() == 0,
        ensures
            final(out)@ == join_with(header_lines(*self), '\n'),
    {
        proof {
            reveal_strlit("th_id");
            reveal_strlit("th_name");
            reveal_strlit("ss_id");
            reveal_strlit("ss_name");
            reveal_strlit("date_min");
            reveal_strlit("date_max");
            reveal_strlit("date_filled");
            assert("th_id"@ =~= key_th_id());
            assert("th_name"@ =~= key_th_name());
            assert("ss_id"@ =~= key_ss_id());
            assert("ss_name"@ =~= key_ss_name());
            assert("date_min"@ =~= key_date_min());
            assert("date_max"@ =~= key_date_max());
            assert("date_filled"@ =~= key_date_filled());
        }
        push_param_int(out, "th_id", self.th_id);
        let ghost ls = seq![out@];
        assert(out@ =~= param_line(key_th_id(), int_text(self.th_id as int)));
        assert(join_with(ls, '\n') == out@);
        let ghost prev = out@;
        out.push('\n');
        push_param_str(out, "th_name", &self.th_name);
        proof {
            let l = param_line(key_th_name(), self.th_name@);
            assert(out@ =~= prev + seq!['\n'] + l);
            lemma_join_push(ls, l, '\n');
            ls = ls.push(l);
        }
        let ghost prev = out@;
        out.push('\n');
        push_param_int(out, "ss_id", self.ss_id);
        proof {
            let l = param_line(key_ss_id(), int_text(self.ss_id as int));
            assert(out@ =~= prev + seq!['\n'] + l);
            lemma_join_push(ls, l, '\n');
            ls = ls.push(l);
        }
        let ghost prev = out@;
        out.push('\n');
        push_param_str(out, "ss_name", &self.ss_name);
        proof {
            let l = param_line(key_ss_name(), self.ss_name@);
            assert(out@ =~= prev + seq!['\n'] + l);
            lemma_join_push(ls, l, '\n');
            ls = ls.push(l);
        }
        let ghost prev = out@;
        out.push('\n');
        push_param_date(out, "date_min", self.date_min);
        proof {
            let l = param_line(key_date_min(), date_text(self.date_min));
            assert(out@ =~= prev + seq!['\n'] + l);
            lemma_join_push(ls, l, '\n');
            ls = ls.push(l);
        }
        let ghost prev = out@;
        out.push('\n');
        push_param_date(out, "date_max", self.date_max);
        proof {
            let l = param_line(key_date_max(), date_text(self.date_max));
            assert(out@ =~= prev + seq!['\n'] + l);
            lemma_join_push(ls, l, '\n');
            ls = ls.push(l);
        }
        match self.date_filled {
            Some(d) => {
                let ghost prev = out@;
                out.push('\n');
                push_param_date(out, "date_filled", d);
                proof {
                    let l = param_line(key_date_filled(), date_text(d));
                    assert(out@ =~= prev + seq!['\n'] + l);
                    lemma_join_push(ls, l, '\n');
                    ls = ls.push(l);
                }
            },
            None => {},
        }
        assert(ls =~= header_lines(*self));
    }

    /// The table's file text: the parameters in their fixed order, then one
    /// line per row in writing order, each with one mark per day of the range;
    /// lines are separated by line feeds.
    pub fn to_text(&self) -> (r: String)
        requires
            self.wf(),
        ensures
            exists|ord: Seq<usize>|
                is_write_order(self.students@, ord) && r@ == table_text(*self, ord),
    {
        let mut out: Vec<char> = Vec::new();
        self.push_header(&mut out);
        let ghost h = header_lines(*self);
        let ord = write_order(&self.students);
        let dates_n = (self.date_max.number() as i64 - self.date_min.number() as i64 + 1) as usize;
        let ghost lines = table_lines(*self, ord@);
        assert(lines.take(h.len() as int) =~= h);
        let mut i: usize = 0;
        while i < ord.len()
            invariant
                i <= ord@.len() == self.students@.len(),
                self.wf(),
                dates_n == self.range_len(),
                h == header_lines(*self),
                h.len() >= 6,
                lines == table_lines(*self, ord@),
                forall|k: int| 0 <= k < ord@.len() ==> (#[trigger] ord@[k]) < self.students@.len(),
                out@ == join_with(lines.take((h.len() + i) as int), '\n'),
            decreases ord@.len() - i,
        {
            out.push('\n');
            push_row_line(&mut out, &self.students[ord[i]], dates_n);
            proof {
                let t = (h.len() + i) as int;
                lemma_join_push(lines.take(t), lines[t], '\n');
                assert(lines.take(t).push(lines[t]) =~= lines.take(t + 1));
            }
            i = i + 1;
        }
        assert(lines.take((h.len() + ord@.len()) as int) =~= lines);
        let r = string_of(out.as_slice());
        assert(is_write_order(self.students@, ord@));
        assert(r@ == table_text(*self, ord@));
        r
    }
}

/// The path that the previous generation of a table is kept under.
pub fn backup_path(path: &str) -> (r: String)
    ensures
        r@ == path@ + seq!['.', 'b', 'a', 'k'],
{
    let mut out = chars_of(path);
    out.push('.');
    out.push('b');
    out.push('a');
    out.push('k');
    assert(out@ =~= path@ + seq!['.', 'b', 'a', 'k']);
    string_of(out.as_slice())
}

} // verus!
