use vstd::prelude::*;
use crate::date::{push_date_text, CalDate};
use crate::fields::join_with;
use crate::merge::{mark_field, name_field, PLACEHOLDER_ROWS};
use crate::order::{listed, name_before, ordered, sort_positions};
use crate::table::{strings_view, Attendance, StudentRow};
use crate::text::{int_text, nat_text, push_int_text, push_nat_text, push_padded5, string_of};
use crate::writer::{lemma_join_push, padded_marks, push_chars};

verus! {

pub open spec fn weekend_attr(d: CalDate) -> Seq<char> {
    if d.is_weekend() {
        " class=\"weekend\""@
    } else {
        Seq::empty()
    }
}

/// The column head of a day: its day of the month.
pub open spec fn head_cell(d: CalDate) -> Seq<char> {
    "<th"@ + weekend_attr(d) + ">"@ + nat_text(d.day as nat) + "</th>"@
}

/// The input of row `k` for day `d`, holding `v`; its name is the field the
/// merge reads that mark from.
pub open spec fn mark_cell(k: int, d: CalDate, v: Seq<char>) -> Seq<char> {
    "\t<td"@ + weekend_attr(d) + "><input name=\""@ + mark_field(k, d)
        + "\" type=\"number\" min=\"0\" size=\"1\" value=\""@ + v + "\"></td>"@
}

/// The name of a row, or for a row with a negative key an input whose name
/// is the field the merge reads the name from.
pub open spec fn name_cell(k: int, name: Seq<char>) -> Seq<char> {
    if k < 0 {
        "<input type=\"text\" name=\""@ + name_field(k) + "\" placeholder=\"новенький\">"@
    } else {
        name
    }
}

pub open spec fn mark_cells(k: int, marks: Seq<Seq<char>>, dates: Seq<CalDate>) -> Seq<Seq<char>> {
    Seq::new(
        dates.len(),
        |i: int| mark_cell(k, dates[i], padded_marks(marks, dates.len() as int)[i]),
    )
}

/// One row of the form.
pub open spec fn form_row(k: int, name: Seq<char>, marks: Seq<Seq<char>>, dates: Seq<CalDate>) -> Seq<
    char,
> {
    "<tr>\n\t<td class=\"idcol\">"@ + int_text(k) + "</td>\n\t<td class=\"namecol\">"@ + name_cell(
        k,
        name,
    ) + "</td>\n"@ + join_with(mark_cells(k, marks, dates), '\n') + "\n</tr>\n"@
}

/// Whether `ord` lists every row's position once, in form order.
pub open spec fn is_form_order(rows: Seq<StudentRow>, ord: Seq<usize>) -> bool {
    &&& ord.len() == rows.len()
    &&& forall|i: int| 0 <= i < ord.len() ==> (#[trigger] ord[i]) < rows.len()
    &&& forall|i: int, j: int| 0 <= i < j < ord.len() ==> ord[i] != ord[j]
    &&& forall|i: int, j: int|
        0 <= i < j < ord.len() ==> name_before(rows[ord[i] as int], rows[ord[j] as int])
    &&& forall|p: int| 0 <= p < rows.len() ==> #[trigger] listed(ord, p)
}

/// The rows of the form: the table's rows in form order, then the blank rows.
pub open spec fn form_rows(t: Attendance, ord: Seq<usize>) -> Seq<Seq<char>> {
    ord.map_values(
        |i: usize|
            form_row(
                t.students@[i as int].key as int,
                t.students@[i as int].name@,
                strings_view(t.students@[i as int].marks@),
                t.dates(),
            ),
    ) + Seq::new(
        PLACEHOLDER_ROWS as nat,
        |i: int| form_row(-(i + 1), Seq::empty(), Seq::empty(), t.dates()),
    )
}

/// The form's table: a head with a column per day, then a body with a row
/// per student and the blank rows.
pub open spec fn form_markup(t: Attendance, ord: Seq<usize>) -> Seq<char> {
    "<thead>\n<th class=\"idcol\">id</th>\n<th class=\"namecol\">Имя</th>\n"@ + join_with(
        t.dates().map_values(|d: CalDate| head_cell(d)),
        '\n',
    ) + "\n</thead>\n<tbody>\n"@ + join_with(form_rows(t, ord), '\n') + "\n</tbody>\n"@
}

fn push_weekend(out: &mut Vec<char>, d: CalDate)
    requires
        d.is_valid(),
    ensures
        final(out)@ == old(out)@ + weekend_attr(d),
{
    if d.weekend() {
        push_chars(out, " class=\"weekend\"");
    } else {
        assert(old(out)@ + weekend_attr(d) =~= old(out)@);
    }
}

fn push_head_cell(out: &mut Vec<char>, d: CalDate)
    requires
        d.is_valid(),
    ensures
        final(out)@ == old(out)@ + head_cell(d),
{
    push_chars(out, "<th");
    push_weekend(out, d);
    push_chars(out, ">");
    push_nat_text(out, d.day as u64);
    push_chars(out, "</th>");
    assert(final(out)@ =~= old(out)@ + head_cell(d));
}

fn push_mark_cell(out: &mut Vec<char>, k: i32, d: CalDate, v: &str)
    requires
        d.wf(),
    ensures
        final(out)@ == old(out)@ + mark_cell(k as int, d, v@),
{
    push_chars(out, "\t<td");
    push_weekend(out, d);
    push_chars(out, "><input name=\"");
    let ghost before = out@;
    out.push('S');
    push_padded5(out, k);
    out.push('D');
    push_date_text(out, d);
    assert(out@ =~= before + mark_field(k as int, d));
    push_chars(out, "\" type=\"number\" min=\"0\" size=\"1\" value=\"");
    push_chars(out, v);
    push_chars(out, "\"></td>");
    assert(final(out)@ =~= old(out)@ + mark_cell(k as int, d, v@));
}

fn push_name_cell(out: &mut Vec<char>, k: i32, name: &str)
    ensures
        final(out)@ == old(out)@ + name_cell(k as int, name@),
{
    if k < 0 {
        push_chars(out, "<input type=\"text\" name=\"");
        let ghost before = out@;
        out.push('N');
        push_padded5(out, k);
        assert(out@ =~= before + name_field(k as int));
        push_chars(out, "\" placeholder=\"новенький\">");
        assert(final(out)@ =~= old(out)@ + name_cell(k as int, name@));
    } else {
        push_chars(out, name);
    }
}

fn push_form_row(out: &mut Vec<char>, k: i32, name: &str, marks: &Vec<String>, dates: &Vec<CalDate>)
    requires
        dates@.len() >= 1,
        forall|i: int| 0 <= i < dates@.len() ==> (#[trigger] dates@[i]).wf(),
    ensures
        final(out)@ == old(out)@ + form_row(k as int, name@, strings_view(marks@), dates@),
{
    push_chars(out, "<tr>\n\t<td class=\"idcol\">");
    push_int_text(out, k);
    push_chars(out, "</td>\n\t<td class=\"namecol\">");
    push_name_cell(out, k, name);
    push_chars(out, "</td>\n");
    let ghost start = out@;
    let ghost parts = mark_cells(k as int, strings_view(marks@), dates@);
    let n = dates.len();
    let mut i: usize = 0;
    while i < n
        invariant
            i <= n == dates@.len(),
            n >= 1,
            forall|j: int| 0 <= j < dates@.len() ==> (#[trigger] dates@[j]).wf(),
            parts == mark_cells(k as int, strings_view(marks@), dates@),
            i == 0 ==> out@ == start,
            i > 0 ==> out@ == start + join_with(parts.take(i as int), '\n'),
        decreases n - i,
    {
        if i > 0 {
            out.push('\n');
        }
        let empty = String::new();
        let v = if i < marks.len() { &marks[i] } else { &empty };
        push_mark_cell(out, k, dates[i], v.as_str());
        assert(parts[i as int] == mark_cell(k as int, dates@[i as int], v@));
        proof {
            if i == 0 {
                assert(parts.take(1) =~= seq![parts[0]]);
            } else {
                lemma_join_push(parts.take(i as int), parts[i as int], '\n');
                assert(parts.take(i as int).push(parts[i as int]) =~= parts.take(i + 1));
            }
        }
        i = i + 1;
        assert(out@ =~= start + join_with(parts.take(i as int), '\n'));
    }
    assert(parts.take(n as int) =~= parts);
    push_chars(out, "\n</tr>\n");
    assert(final(out)@ =~= old(out)@ + form_row(k as int, name@, strings_view(marks@), dates@));
}

impl Attendance {
    /// The table as the body of an editable form: a column per day, a row per
    /// student by name, and blank rows for new students. Every input is named
    /// after the field that the merge reads.
    pub fn table_markup(&self) -> (r: String)
        requires
            self.wf(),
        ensures
            exists|ord: Seq<usize>|
                is_form_order(self.students@, ord) && r@ == form_markup(*self, ord),
    {
        let dates = self.date_range();
        let mut out: Vec<char> = Vec::new();
        push_chars(&mut out, "<thead>\n<th class=\"idcol\">id</th>\n<th class=\"namecol\">Имя</th>\n");
        let ghost start = out@;
        let ghost heads = dates@.map_values(|d: CalDate| head_cell(d));
        let n = dates.len();
        let mut i: usize = 0;
        while i < n
            invariant
                i <= n == dates@.len(),
                n >= 1,
                forall|j: int| 0 <= j < dates@.len() ==> (#[trigger] dates@[j]).wf(),
                heads == dates@.map_values(|d: CalDate| head_cell(d)),
                i == 0 ==> out@ == start,
                i > 0 ==> out@ == start + join_with(heads.take(i as int), '\n'),
            decreases n - i,
        {
            if i > 0 {
                out.push('\n');
            }
            push_head_cell(&mut out, dates[i]);
            proof {
                if i == 0 {
                    assert(heads.take(1) =~= seq![heads[0]]);
                } else {
                    lemma_join_push(heads.take(i as int), heads[i as int], '\n');
                    assert(heads.take(i as int).push(heads[i as int]) =~= heads.take(i + 1));
                }
            }
            i = i + 1;
            assert(out@ =~= start + join_with(heads.take(i as int), '\n'));
        }
        assert(heads.take(n as int) =~= heads);
        push_chars(&mut out, "\n</thead>\n<tbody>\n");
        let ord = sort_positions(&self.students, true);
        let ghost rows = form_rows(*self, ord@);
        let ghost body = out@;
        let m = ord.len();
        let mut j: usize = 0;
        while j < m
            invariant
                j <= m == ord@.len() == self.students@.len(),
                forall|x: int| 0 <= x < ord@.len() ==> (#[trigger] ord@[x]) < self.students@.len(),
                self.wf(),
                dates@ == self.dates(),
                dates@.len() >= 1,
                forall|x: int| 0 <= x < dates@.len() ==> (#[trigger] dates@[x]).wf(),
                rows == form_rows(*self, ord@),
                rows.len() == m + PLACEHOLDER_ROWS,
                j == 0 ==> out@ == body,
                j > 0 ==> out@ == body + join_with(rows.take(j as int), '\n'),
            decreases m - j,
        {
            if j > 0 {
                out.push('\n');
            }
            let r = &self.students[ord[j]];
            push_form_row(&mut out, r.key, r.name.as_str(), &r.marks, &dates);
            proof {
                if j == 0 {
                    assert(rows.take(1) =~= seq![rows[0]]);
                } else {
                    lemma_join_push(rows.take(j as int), rows[j as int], '\n');
                    assert(rows.take(j as int).push(rows[j as int]) =~= rows.take(j + 1));
                }
            }
            j = j + 1;
            assert(out@ =~= body + join_with(rows.take(j as int), '\n'));
        }
        let mut b: i32 = 0;
        while b < PLACEHOLDER_ROWS
            invariant
                0 <= b <= PLACEHOLDER_ROWS,
                m == ord@.len(),
                dates@ == self.dates(),
                dates@.len() >= 1,
                forall|x: int| 0 <= x < dates@.len() ==> (#[trigger] dates@[x]).wf(),
                rows == form_rows(*self, ord@),
                rows.len() == m + PLACEHOLDER_ROWS,
                m + b == 0 ==> out@ == body,
                m + b > 0 ==> out@ == body + join_with(rows.take(m + b), '\n'),
            decreases PLACEHOLDER_ROWS - b,
        {
            let ghost t = m + b;
            if m > 0 || b > 0 {
                out.push('\n');
            }
            let none: Vec<String> = Vec::new();
            push_form_row(&mut out, 0 - (b + 1), "", &none, &dates);
            assert(strings_view(none@) =~= Seq::<Seq<char>>::empty());
            proof {
                reveal_strlit("");
                assert(rows[t] == form_row(-(b + 1), Seq::empty(), Seq::empty(), self.dates()));
                if t == 0 {
                    assert(rows.take(1) =~= seq![rows[0]]);
                } else {
                    lemma_join_push(rows.take(t), rows[t], '\n');
                    assert(rows.take(t).push(rows[t]) =~= rows.take(t + 1));
                }
            }
            b = b + 1;
            assert(out@ =~= body + join_with(rows.take(m + b), '\n'));
        }
        let ghost total = m + PLACEHOLDER_ROWS;
        assert(rows.take(total as int) =~= rows);
        push_chars(&mut out, "\n</tbody>\n");
        let r = string_of(out.as_slice());
        assert forall|x: int, y: int| 0 <= x < y < ord@.len() implies name_before(
            self.students@[ord@[x] as int],
            self.students@[ord@[y] as int],
        ) by {
            assert(ordered(true, self.students@[ord@[x] as int], self.students@[ord@[y] as int]));
        }
        assert(is_form_order(self.students@, ord@));
        assert(r@ =~= form_markup(*self, ord@));
        r
    }
}

} // verus!
