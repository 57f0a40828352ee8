use vstd::prelude::*;
use crate::table::StudentRow;
use crate::text::chars_of;

verus! {

/// Lexicographic order on character sequences, by code point; a proper prefix
/// comes first.
pub open spec fn seq_lt(a: Seq<char>, b: Seq<char>) -> bool
    decreases a.len(),
{
    if a.len() == 0 {
        b.len() > 0
    } else if b.len() == 0 {
        false
    } else if a[0] != b[0] {
        a[0] < b[0]
    } else {
        seq_lt(a.drop_first(), b.drop_first())
    }
}

pub proof fn lemma_seq_lt_irreflexive(a: Seq<char>)
    ensures
        !seq_lt(a, a),
    decreases a.len(),
{
    if a.len() > 0 {
        lemma_seq_lt_irreflexive(a.drop_first());
    }
}

pub proof fn lemma_seq_lt_transitive(a: Seq<char>, b: Seq<char>, c: Seq<char>)
    requires
        seq_lt(a, b),
        seq_lt(b, c),
    ensures
        seq_lt(a, c),
    decreases a.len(),
{
    if a.len() > 0 && b.len() > 0 && c.len() > 0 && a[0] == b[0] && b[0] == c[0] {
        lemma_seq_lt_transitive(a.drop_first(), b.drop_first(), c.drop_first());
    }
}

pub proof fn lemma_seq_lt_total(a: Seq<char>, b: Seq<char>)
    ensures
        a == b || seq_lt(a, b) || seq_lt(b, a),
    decreases a.len(),
{
    if a.len() > 0 && b.len() > 0 && a[0] == b[0] {
        lemma_seq_lt_total(a.drop_first(), b.drop_first());
        if a.drop_first() == b.drop_first() {
            assert(a =~= seq![a[0]] + a.drop_first());
            assert(b =~= seq![b[0]] + b.drop_first());
        }
    } else if a.len() == 0 && b.len() == 0 {
        assert(a =~= b);
    }
}

pub proof fn lemma_seq_lt_asymmetric(a: Seq<char>, b: Seq<char>)
    requires
        seq_lt(a, b),
    ensures
        !seq_lt(b, a),
{
    if seq_lt(b, a) {
        lemma_seq_lt_transitive(a, b, a);
        lemma_seq_lt_irreflexive(a);
    }
}

/// The order rows are written in: rows with a non-negative key first, by name
/// and then by key; then the others, the key closest to zero first.
pub open spec fn row_before(a: StudentRow, b: StudentRow) -> bool {
    if a.key >= 0 && b.key >= 0 {
        seq_lt(a.name@, b.name@) || (a.name@ == b.name@ && a.key < b.key)
    } else if a.key >= 0 {
        true
    } else if b.key >= 0 {
        false
    } else {
        a.key > b.key
    }
}

pub proof fn lemma_row_before_transitive(a: StudentRow, b: StudentRow, c: StudentRow)
    requires
        row_before(a, b),
        row_before(b, c),
    ensures
        row_before(a, c),
{
    if a.key >= 0 && b.key >= 0 && c.key >= 0 {
        if seq_lt(a.name@, b.name@) && seq_lt(b.name@, c.name@) {
            lemma_seq_lt_transitive(a.name@, b.name@, c.name@);
        }
    }
}

pub proof fn lemma_row_before_total(a: StudentRow, b: StudentRow)
    requires
        a.key != b.key,
    ensures
        row_before(a, b) || row_before(b, a),
        !(row_before(a, b) && row_before(b, a)),
{
    lemma_seq_lt_total(a.name@, b.name@);
    if seq_lt(a.name@, b.name@) {
        lemma_seq_lt_asymmetric(a.name@, b.name@);
    }
    if seq_lt(b.name@, a.name@) {
        lemma_seq_lt_asymmetric(b.name@, a.name@);
    }
    if a.name@ == b.name@ {
        lemma_seq_lt_irreflexive(a.name@);
    }
}

/// The order rows are shown in on a form: by name, then by key.
pub open spec fn name_before(a: StudentRow, b: StudentRow) -> bool {
    seq_lt(a.name@, b.name@) || (a.name@ == b.name@ && a.key < b.key)
}

/// Writing order, or form order when `by_name`.
pub open spec fn ordered(by_name: bool, a: StudentRow, b: StudentRow) -> bool {
    if by_name {
        name_before(a, b)
    } else {
        row_before(a, b)
    }
}

pub proof fn lemma_ordered_transitive(by_name: bool, a: StudentRow, b: StudentRow, c: StudentRow)
    requires
        ordered(by_name, a, b),
        ordered(by_name, b, c),
    ensures
        ordered(by_name, a, c),
{
    if by_name {
        if seq_lt(a.name@, b.name@) && seq_lt(b.name@, c.name@) {
            lemma_seq_lt_transitive(a.name@, b.name@, c.name@);
        }
    } else {
        lemma_row_before_transitive(a, b, c);
    }
}

pub proof fn lemma_ordered_total(by_name: bool, a: StudentRow, b: StudentRow)
    requires
        a.key != b.key,
    ensures
        ordered(by_name, a, b) || ordered(by_name, b, a),
        !(ordered(by_name, a, b) && ordered(by_name, b, a)),
{
    lemma_row_before_total(a, b);
    lemma_seq_lt_total(a.name@, b.name@);
    if seq_lt(a.name@, b.name@) {
        lemma_seq_lt_asymmetric(a.name@, b.name@);
    }
    if seq_lt(b.name@, a.name@) {
        lemma_seq_lt_asymmetric(b.name@, a.name@);
    }
    if a.name@ == b.name@ {
        lemma_seq_lt_irreflexive(a.name@);
    }
}

/// Whether row `a` comes before row `b` on a form.
pub fn name_first(a: &StudentRow, b: &StudentRow) -> (r: bool)
    ensures
        r == name_before(*a, *b),
{
    let an = chars_of(a.name.as_str());
    let bn = chars_of(b.name.as_str());
    if chars_less(&an, &bn) {
        true
    } else if chars_less(&bn, &an) {
        false
    } else {
        proof {
            lemma_seq_lt_total(an@, bn@);
        }
        a.key < b.key
    }
}

/// Whether row `a` comes before row `b` in the chosen order.
pub fn comes_first(by_name: bool, a: &StudentRow, b: &StudentRow) -> (r: bool)
    ensures
        r == ordered(by_name, *a, *b),
{
    if by_name {
        name_first(a, b)
    } else {
        row_first(a, b)
    }
}

/// Whether position `p` occurs in `ord`.
pub open spec fn listed(ord: Seq<usize>, p: int) -> bool {
    exists|i: int| 0 <= i < ord.len() && ord[i] == p
}

/// Whether `a` comes before `b` in lexicographic order.
pub fn chars_less(a: &Vec<char>, b: &Vec<char>) -> (r: bool)
    ensures
        r == seq_lt(a@, b@),
{
    let mut i: usize = 0;
    assert(a@.skip(0) =~= a@);
    assert(b@.skip(0) =~= b@);
    while i < a.len() && i < b.len()
        invariant
            i <= a@.len(),
            i <= b@.len(),
            seq_lt(a@, b@) == seq_lt(a@.skip(i as int), b@.skip(i as int)),
        decreases a@.len() - i,
    {
        if a[i] != b[i] {
            return a[i] < b[i];
        }
        assert(a@.skip(i as int).drop_first() =~= a@.skip(i + 1));
        assert(b@.skip(i as int).drop_first() =~= b@.skip(i + 1));
        i = i + 1;
    }
    i < b.len()
}

/// Whether row `a` is written before row `b`.
pub fn row_first(a: &StudentRow, b: &StudentRow) -> (r: bool)
    ensures
        r == row_before(*a, *b),
{
    if a.key >= 0 && b.key >= 0 {
        let an = chars_of(a.name.as_str());
        let bn = chars_of(b.name.as_str());
        if chars_less(&an, &bn) {
            true
        } else if chars_less(&bn, &an) {
            false
        } else {
            proof {
                lemma_seq_lt_total(an@, bn@);
            }
            a.key < b.key
        }
    } else if a.key >= 0 {
        true
    } else if b.key >= 0 {
        false
    } else {
        a.key > b.key
    }
}

/// The positions of the rows, in the order they are written.
pub fn write_order(rows: &Vec<StudentRow>) -> (r: Vec<usize>)
    requires
        crate::table::keys_unique(rows@),
    ensures
        r@.len() == rows@.len(),
        forall|i: int| 0 <= i < r@.len() ==> (#[trigger] r@[i]) < rows@.len(),
        forall|i: int, j: int| 0 <= i < j < r@.len() ==> r@[i] != r@[j],
        forall|i: int, j: int|
            0 <= i < j < r@.len() ==> row_before(rows@[r@[i] as int], rows@[r@[j] as int]),
        forall|p: int| 0 <= p < rows@.len() ==> #[trigger] listed(r@, p),
{
    let r = sort_positions(rows, false);
    assert forall|i: int, j: int| 0 <= i < j < r@.len() implies row_before(
        rows@[r@[i] as int],
        rows@[r@[j] as int],
    ) by {
        assert(ordered(false, rows@[r@[i] as int], rows@[r@[j] as int]));
    }
    r
}

/// The positions of the rows, in writing order or, when `by_name`, in form order.
pub fn sort_positions(rows: &Vec<StudentRow>, by_name: bool) -> (r: Vec<usize>)
    requires
        crate::table::keys_unique(rows@),
    ensures
        r@.len() == rows@.len(),
        forall|i: int| 0 <= i < r@.len() ==> (#[trigger] r@[i]) < rows@.len(),
        forall|i: int, j: int| 0 <= i < j < r@.len() ==> r@[i] != r@[j],
        forall|i: int, j: int|
            0 <= i < j < r@.len() ==> ordered(by_name, rows@[r@[i] as int], rows@[r@[j] as int]),
        forall|p: int| 0 <= p < rows@.len() ==> #[trigger] listed(r@, p),
{
    let n = rows.len();
    let mut r: Vec<usize> = Vec::new();
    let mut k: usize = 0;
    while k < n
        invariant
            k <= n == rows@.len(),
            crate::table::keys_unique(rows@),
            r@.len() == k,
            forall|i: int| 0 <= i < r@.len() ==> (#[trigger] r@[i]) < k,
            forall|i: int, j: int| 0 <= i < j < r@.len() ==> r@[i] != r@[j],
            forall|i: int, j: int|
                0 <= i < j < r@.len() ==> ordered(by_name, rows@[r@[i] as int], rows@[r@[j] as int]),
            forall|q: int| 0 <= q < k ==> #[trigger] listed(r@, q),
        decreases n - k,
    {
        // place k after every index whose row comes first
        let mut p: usize = 0;
        while p < r.len() && comes_first(by_name, &rows[r[p]], &rows[k])
            invariant
                p <= r@.len(),
                k < n == rows@.len(),
                forall|i: int| 0 <= i < p ==> ordered(by_name, rows@[r@[i] as int], rows@[k as int]),
                forall|i: int| 0 <= i < r@.len() ==> (#[trigger] r@[i]) < k,
            decreases r@.len() - p,
        {
            p = p + 1;
        }
        let ghost before = r@;
        proof {
            if p < before.len() {
                assert(rows@[before[p as int] as int].key != rows@[k as int].key);
                lemma_ordered_total(by_name, rows@[before[p as int] as int], rows@[k as int]);
            }
        }
        r.insert(p, k);
        assert forall|i: int, j: int| 0 <= i < j < r@.len() implies ordered(
            by_name,
            rows@[r@[i] as int],
            rows@[r@[j] as int],
        ) by {
            if j < p {
                assert(r@[i] == before[i] && r@[j] == before[j]);
            } else if j == p {
                assert(r@[i] == before[i]);
            } else if i == p {
                assert(r@[j] == before[j - 1]);
                if j - 1 > p {
                    lemma_ordered_transitive(
                        by_name,
                        rows@[k as int],
                        rows@[before[p as int] as int],
                        rows@[before[j - 1] as int],
                    );
                }
            } else if i < p {
                assert(r@[i] == before[i] && r@[j] == before[j - 1]);
            } else {
                assert(r@[i] == before[i - 1] && r@[j] == before[j - 1]);
            }
        }
        assert forall|i: int, j: int| 0 <= i < j < r@.len() implies r@[i] != r@[j] by {
            if j < p {
                assert(r@[i] == before[i] && r@[j] == before[j]);
            } else if j == p {
                assert(r@[i] == before[i]);
            } else if i == p {
                assert(r@[j] == before[j - 1]);
            } else if i < p {
                assert(r@[i] == before[i] && r@[j] == before[j - 1]);
            } else {
                assert(r@[i] == before[i - 1] && r@[j] == before[j - 1]);
            }
        }
        assert forall|q: int| 0 <= q < k + 1 implies #[trigger] listed(r@, q) by {
            if q == k {
                assert(r@[p as int] == q);
            } else {
                assert(listed(before, q));
                let i = choose|i: int| 0 <= i < before.len() && before[i] == q;
                if i < p {
                    assert(r@[i] == q);
                } else {
                    assert(r@[i + 1] == q);
                }
            }
        }
        assert forall|i: int| 0 <= i < r@.len() implies (#[trigger] r@[i]) < k + 1 by {
            if i < p {
                assert(r@[i] == before[i]);
            } else if i > p {
                assert(r@[i] == before[i - 1]);
            }
        }
        k = k + 1;
    }
    r
}

} // verus!
