use vstd::prelude::*;
use crate::date::CalDate;
use crate::fields::split_on;
use crate::merge::{merged, resolved_row};
use crate::table::{
    date_param, decode_spec, fragments, key_date_max, key_date_min, param_of, students_of,
    table_of_text, FragmentV, };
use crate::text::i32_of_text;

verus! {

/// A table whose first day comes after its last day is malformed.
pub proof fn lemma_reversed_range_malformed(content: Seq<char>)
    requires
        date_param(fragments(content), key_date_min()) is Some,
        date_param(fragments(content), key_date_max()) is Some,
        date_param(fragments(content), key_date_min())->0.day_number() > date_param(
            fragments(content),
            key_date_max(),
        )->0.day_number(),
    ensures
        table_of_text(content) is Err,
{
}

/// A line whose first field is not an integer sets a parameter: afterwards
/// that parameter has the line's value, whatever came before, and the rows
/// are unchanged.
pub proof fn lemma_param_line(frags: Seq<FragmentV>, line: Seq<char>)
    requires
        i32_of_text(split_on(line, '\t')[0]) is None,
    ensures
        decode_spec(line) is Param,
        param_of(frags.push(decode_spec(line)), decode_spec(line)->Param_0) == Some(
            decode_spec(line)->Param_1,
        ),
        students_of(frags.push(decode_spec(line))) == students_of(frags),
{
    reveal(decode_spec);
    let g = frags.push(decode_spec(line));
    assert(g.drop_last() =~= frags);
}

/// A line whose first field is not an integer, inserted anywhere among a
/// table's lines, leaves the student rows unchanged.
pub proof fn lemma_param_line_anywhere(
    before: Seq<FragmentV>,
    after: Seq<FragmentV>,
    line: Seq<char>,
)
    requires
        i32_of_text(split_on(line, '\t')[0]) is None,
    ensures
        decode_spec(line) is Param,
        students_of(before.push(decode_spec(line)) + after) == students_of(before + after),
    decreases after.len(),
{
    lemma_param_line(before, line);
    let x = decode_spec(line);
    if after.len() == 0 {
        assert(before.push(x) + after =~= before.push(x));
        assert(before + after =~= before);
    } else {
        let d = after.drop_last();
        lemma_param_line_anywhere(before, d, line);
        assert((before.push(x) + after).drop_last() =~= before.push(x) + d);
        assert((before + after).drop_last() =~= before + d);
        assert((before.push(x) + after).last() == after.last());
        assert((before + after).last() == after.last());
    }
}

/// Every row a merge keeps has a non-empty name and one mark per day of the
/// range, and comes from a candidate that has both a final id and a name.
pub proof fn lemma_merge_keeps_resolved(
    cands: Seq<(int, Option<Seq<char>>)>,
    fields: Seq<(Seq<char>, Seq<char>)>,
    dates: Seq<CalDate>,
    k: int,
)
    requires
        merged(cands, fields, dates).contains_key(k),
    ensures
        merged(cands, fields, dates)[k].0.len() > 0,
        merged(cands, fields, dates)[k].1.len() == dates.len(),
        exists|i: int|
            0 <= i < cands.len() && resolved_row(fields, cands[i].0, cands[i].1, dates) == Some(
                (k, merged(cands, fields, dates)[k]),
            ),
    decreases cands.len(),
{
    let m = merged(cands, fields, dates);
    let d = cands.drop_last();
    let r = resolved_row(fields, cands.last().0, cands.last().1, dates);
    let hit = match r {
        Some(p) => p.0 == k,
        None => false,
    };
    if hit {
        let p = r->Some_0;
        assert(m[k] == p.1);
        assert(resolved_row(fields, cands[cands.len() - 1].0, cands[cands.len() - 1].1, dates)
            == Some((k, m[k])));
    } else {
        assert(merged(d, fields, dates).contains_key(k));
        assert(m[k] == merged(d, fields, dates)[k]);
        lemma_merge_keeps_resolved(d, fields, dates, k);
        assert(m[k] == merged(d, fields, dates)[k]);
        let i = choose|i: int|
            0 <= i < d.len() && resolved_row(fields, d[i].0, d[i].1, dates) == Some(
                (k, merged(d, fields, dates)[k]),
            );
        assert(cands[i] == d[i]);
    }
}

} // verus!
