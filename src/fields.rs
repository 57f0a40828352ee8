use vstd::prelude::*;

verus! {

/// The pieces of `s` between occurrences of `c`, read left to right; there is
/// always at least one.
pub open spec fn split_on(s: Seq<char>, c: char) -> Seq<Seq<char>>
    decreases s.len(),
{
    if s.len() == 0 {
        seq![Seq::empty()]
    } else {
        let prev = split_on(s.drop_last(), c);
        if s.last() == c {
            prev.push(Seq::empty())
        } else {
            prev.update(prev.len() - 1, prev.last().push(s.last()))
        }
    }
}

/// The pieces joined back together with `c` between them.
pub open spec fn join_with(parts: Seq<Seq<char>>, c: char) -> Seq<char>
    decreases parts.len(),
{
    if parts.len() == 0 {
        Seq::empty()
    } else if parts.len() == 1 {
        parts[0]
    } else {
        join_with(parts.drop_last(), c) + seq![c] + parts.last()
    }
}

pub open spec fn free_of(s: Seq<char>, c: char) -> bool {
    forall|i: int| 0 <= i < s.len() ==> s[i] != c
}

pub proof fn lemma_split_nonempty(s: Seq<char>, c: char)
    ensures
        split_on(s, c).len() >= 1,
    decreases s.len(),
{
    if s.len() > 0 {
        lemma_split_nonempty(s.drop_last(), c);
    }
}

/// Text without the separator is a single piece.
pub proof fn lemma_split_free(s: Seq<char>, c: char)
    requires
        free_of(s, c),
    ensures
        split_on(s, c) == seq![s],
    decreases s.len(),
{
    if s.len() > 0 {
        assert(free_of(s.drop_last(), c));
        lemma_split_free(s.drop_last(), c);
        assert(s.drop_last().push(s.last()) =~= s);
        assert(split_on(s, c) =~= seq![s]);
    } else {
        assert(s =~= Seq::<char>::empty());
    }
}

/// Splitting at the first separator: the first piece, then the pieces of the rest.
pub proof fn lemma_split_first(a: Seq<char>, b: Seq<char>, c: char)
    requires
        free_of(a, c),
    ensures
        split_on(a + seq![c] + b, c) == seq![a] + split_on(b, c),
    decreases b.len(),
{
    let s = a + seq![c] + b;
    if b.len() == 0 {
        lemma_split_free(a, c);
        assert(s.drop_last() =~= a);
        assert(split_on(s, c) =~= seq![a] + split_on(b, c));
    } else {
        let b2 = b.drop_last();
        lemma_split_first(a, b2, c);
        assert(s.drop_last() =~= a + seq![c] + b2);
        lemma_split_nonempty(b2, c);
        let prev = split_on(b2, c);
        if b.last() == c {
            assert(split_on(s, c) =~= seq![a] + split_on(b, c));
        } else {
            assert(split_on(s, c) =~= seq![a] + split_on(b, c));
        }
    }
}

/// Pieces free of the separator, joined and split again, come back.
pub proof fn lemma_split_join(parts: Seq<Seq<char>>, c: char)
    requires
        parts.len() >= 1,
        forall|i: int| 0 <= i < parts.len() ==> free_of(#[trigger] parts[i], c),
    ensures
        split_on(join_with(parts, c), c) == parts,
    decreases parts.len(),
{
    if parts.len() == 1 {
        lemma_split_free(parts[0], c);
        assert(split_on(join_with(parts, c), c) =~= parts);
    } else {
        let init = parts.drop_last();
        assert(forall|i: int| 0 <= i < init.len() ==> free_of(#[trigger] init[i], c)) by {
            assert forall|i: int| 0 <= i < init.len() implies free_of(#[trigger] init[i], c) by {
                assert(init[i] == parts[i]);
            }
        }
        lemma_split_join(init, c);
        lemma_split_append_free(join_with(init, c), parts.last(), c);
        assert(free_of(parts[parts.len() - 1], c));
        assert(split_on(join_with(parts, c), c) =~= parts);
    }
}

/// Appending a separator and a piece free of it adds that piece.
pub proof fn lemma_split_append_free(s: Seq<char>, t: Seq<char>, c: char)
    requires
        free_of(t, c),
    ensures
        split_on(s + seq![c] + t, c) == split_on(s, c).push(t),
    decreases t.len(),
{
    let u = s + seq![c] + t;
    if t.len() == 0 {
        assert(u.drop_last() =~= s);
        assert(u.last() == c);
        assert(t =~= Seq::<char>::empty());
        assert(split_on(u, c) =~= split_on(s, c).push(t));
    } else {
        let t2 = t.drop_last();
        assert(free_of(t2, c));
        lemma_split_append_free(s, t2, c);
        assert(u.drop_last() =~= s + seq![c] + t2);
        assert(t2.push(t.last()) =~= t);
        assert(u.last() == t.last());
        assert(t[t.len() - 1] != c);
        assert(split_on(u, c) =~= split_on(s, c).push(t));
    }
}

/// The first piece is no longer than the text, and shorter when there are more.
pub proof fn lemma_split_first_len(s: Seq<char>, c: char)
    ensures
        split_on(s, c).len() >= 1,
        split_on(s, c)[0].len() <= s.len(),
        split_on(s, c).len() > 1 ==> split_on(s, c)[0].len() < s.len(),
        split_on(s, c).len() > 1 ==> s[split_on(s, c)[0].len() as int] == c,
        split_on(s, c)[0] == s.take(split_on(s, c)[0].len() as int),
        split_on(s, c).len() == 1 ==> split_on(s, c)[0] == s,
    decreases s.len(),
{
    if s.len() > 0 {
        lemma_split_first_len(s.drop_last(), c);
        let prev = split_on(s.drop_last(), c);
        if prev.len() == 1 && s.last() != c {
            assert(s.drop_last().push(s.last()) =~= s);
            assert(split_on(s, c)[0] =~= s);
            assert(s.take(s.len() as int) =~= s);
        } else if prev.len() == 1 {
            assert(split_on(s, c)[0] == prev[0]);
            assert(s.drop_last().take(prev[0].len() as int) =~= s.take(prev[0].len() as int));
            assert(s[s.len() - 1] == c);
        } else {
            assert(split_on(s, c)[0] == prev[0]);
            assert(s.drop_last().take(prev[0].len() as int) =~= s.take(prev[0].len() as int));
        }
    } else {
        assert(split_on(s, c)[0] =~= s.take(0));
    }
}

/// The character sequences that a vector of character vectors holds.
pub open spec fn views(v: Seq<Vec<char>>) -> Seq<Seq<char>> {
    v.map_values(|x: Vec<char>| x@)
}

/// Splits `s` at every `c`.
pub fn split_chars(s: &[char], c: char) -> (r: Vec<Vec<char>>)
    ensures
        views(r@) == split_on(s@, c),
        r@.len() >= 1,
{
    let mut done: Vec<Vec<char>> = Vec::new();
    let mut cur: Vec<char> = Vec::new();
    let mut i: usize = 0;
    while i < s.len()
        invariant
            i <= s@.len(),
            views(done@).push(cur@) == split_on(s@.take(i as int), c),
        decreases s@.len() - i,
    {
        let ghost before = split_on(s@.take(i as int), c);
        assert(s@.take(i + 1).drop_last() =~= s@.take(i as int));
        if s[i] == c {
            let piece = cur;
            let ghost old_done = done@;
            done.push(piece);
            cur = Vec::new();
            assert(views(done@) =~= views(old_done).push(piece@));
            assert(views(done@).push(cur@) =~= before.push(Seq::empty()));
        } else {
            cur.push(s[i]);
            assert(views(done@).push(cur@) =~= before.update(
                before.len() - 1,
                before.last().push(s@[i as int]),
            ));
        }
        i = i + 1;
    }
    assert(s@.take(s@.len() as int) =~= s@);
    let ghost old_done = done@;
    let ghost last = cur@;
    done.push(cur);
    assert(views(done@) =~= views(old_done).push(last));
    done
}

} // verus!
