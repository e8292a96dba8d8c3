//! Character sequences split at a separator, and joined back with it.
use super::textfmt::{first_index, first_index_exec, lemma_first_index};
use vstd::prelude::*;

verus! {

/// The pieces of `s` separated by `c` (at least one piece, possibly empty)
pub open spec fn split_on(s: Seq<char>, c: char) -> Seq<Seq<char>>
    decreases s.len(),
{
    let i = first_index(s, c);
    if 0 <= i < s.len() {
        seq![s.subrange(0, i)] + split_on(s.subrange(i + 1, s.len() as int), c)
    } else {
        seq![s]
    }
}

/// The pieces joined with `c` between them
pub open spec fn join_with(pieces: Seq<Seq<char>>, c: char) -> Seq<char>
    decreases pieces.len(),
{
    if pieces.len() == 0 {
        Seq::empty()
    } else if pieces.len() == 1 {
        pieces[0]
    } else {
        join_with(pieces.drop_last(), c) + seq![c] + pieces.last()
    }
}

/// None of the pieces holds `c`
pub open spec fn all_lack(pieces: Seq<Seq<char>>, c: char) -> bool {
    forall|i: int| 0 <= i < pieces.len() ==> !(#[trigger] pieces[i]).contains(c)
}

pub proof fn lemma_first_index_bounds(s: Seq<char>, c: char)
    ensures
        0 <= first_index(s, c) <= s.len(),
        first_index(s, c) < s.len() ==> s[first_index(s, c)] == c,
        forall|j: int| 0 <= j < first_index(s, c) ==> s[j] != c,
        first_index(s, c) == s.len() <==> !s.contains(c),
    decreases s.len(),
{
    if s.len() > 0 {
        lemma_first_index_bounds(s.drop_first(), c);
        if s[0] != c {
            assert forall|j: int| 0 <= j < first_index(s, c) implies s[j] != c by {
                if j > 0 {
                    assert(s[j] == s.drop_first()[j - 1]);
                }
            }
            if s.contains(c) {
                let k = choose|k: int| 0 <= k < s.len() && s[k] == c;
                assert(s.drop_first()[k - 1] == c);
            }
            if s.drop_first().contains(c) {
                let k = choose|k: int| 0 <= k < s.drop_first().len() && s.drop_first()[k] == c;
                assert(s[k + 1] == c);
            }
        }
    }
}

/// Splitting at a separator that stands between two parts splits each part
pub proof fn lemma_split_concat(a: Seq<char>, b: Seq<char>, c: char)
    ensures
        split_on(a + seq![c] + b, c) == split_on(a, c) + split_on(b, c),
    decreases a.len(),
{
    let s = a + seq![c] + b;
    lemma_first_index_bounds(a, c);
    let i = first_index(a, c);
    if i < a.len() {
        lemma_first_index(s, c, i);
        let rest = a.subrange(i + 1, a.len() as int);
        assert(s.subrange(i + 1, s.len() as int) =~= rest + seq![c] + b);
        assert(s.subrange(0, i) =~= a.subrange(0, i));
        lemma_split_concat(rest, b, c);
        assert(split_on(s, c) =~= split_on(a, c) + split_on(b, c));
    } else {
        lemma_first_index(s, c, a.len() as int);
        assert(s.subrange(0, a.len() as int) =~= a);
        assert(s.subrange(a.len() as int + 1, s.len() as int) =~= b);
        assert(split_on(s, c) =~= split_on(a, c) + split_on(b, c));
    }
}

/// A sequence without the separator is a single piece
pub proof fn lemma_split_single(s: Seq<char>, c: char)
    requires
        !s.contains(c),
    ensures
        split_on(s, c) == seq![s],
{
    lemma_first_index_bounds(s, c);
}

/// Splitting what was joined gives the pieces back
pub proof fn lemma_split_join(pieces: Seq<Seq<char>>, c: char)
    requires
        pieces.len() >= 1,
        all_lack(pieces, c),
    ensures
        split_on(join_with(pieces, c), c) == pieces,
    decreases pieces.len(),
{
    if pieces.len() == 1 {
        lemma_split_single(pieces[0], c);
    } else {
        let init = pieces.drop_last();
        assert(all_lack(init, c)) by {
            assert forall|i: int| 0 <= i < init.len() implies !(#[trigger] init[i]).contains(c) by {
                assert(init[i] == pieces[i]);
            }
        }
        lemma_split_join(init, c);
        lemma_split_concat(join_with(init, c), pieces.last(), c);
        lemma_split_single(pieces.last(), c);
        assert(init.push(pieces.last()) =~= pieces);
    }
}

/// Joining one more piece in front
pub proof fn lemma_join_prepend(x: Seq<char>, ys: Seq<Seq<char>>, c: char)
    requires
        ys.len() >= 1,
    ensures
        join_with(seq![x] + ys, c) == x + seq![c] + join_with(ys, c),
    decreases ys.len(),
{
    let z = seq![x] + ys;
    if ys.len() == 1 {
        assert(z.drop_last() =~= seq![x]);
        assert(join_with(seq![x], c) == x);
        assert(z.last() == ys[0]);
        assert(join_with(z, c) =~= x + seq![c] + join_with(ys, c));
    } else {
        assert(z.drop_last() =~= seq![x] + ys.drop_last());
        lemma_join_prepend(x, ys.drop_last(), c);
        assert(join_with(z, c) =~= x + seq![c] + join_with(ys, c));
    }
}

/// Joining the pieces gives the sequence back
pub proof fn lemma_join_split(s: Seq<char>, c: char)
    ensures
        join_with(split_on(s, c), c) == s,
        split_on(s, c).len() >= 1,
    decreases s.len(),
{
    lemma_first_index_bounds(s, c);
    let i = first_index(s, c);
    if i < s.len() {
        let rest = s.subrange(i + 1, s.len() as int);
        lemma_join_split(rest, c);
        lemma_join_prepend(s.subrange(0, i), split_on(rest, c), c);
        assert(s =~= s.subrange(0, i) + seq![c] + rest);
    }
}

/// No piece holds the separator
pub proof fn lemma_split_lacks(s: Seq<char>, c: char)
    ensures
        all_lack(split_on(s, c), c),
    decreases s.len(),
{
    lemma_first_index_bounds(s, c);
    let i = first_index(s, c);
    let p = split_on(s, c);
    if i < s.len() {
        let rest = s.subrange(i + 1, s.len() as int);
        lemma_split_lacks(rest, c);
        assert forall|k: int| 0 <= k < p.len() implies !(#[trigger] p[k]).contains(c) by {
            if k == 0 {
                if s.subrange(0, i).contains(c) {
                    let j = choose|j: int| 0 <= j < i && s.subrange(0, i)[j] == c;
                    assert(s[j] == c);
                }
            } else {
                assert(p[k] == split_on(rest, c)[k - 1]);
            }
        }
    }
}

/// The pieces hold no character that the sequence lacks
pub proof fn lemma_split_lacks_other(s: Seq<char>, c: char, d: char)
    requires
        !s.contains(d),
    ensures
        all_lack(split_on(s, c), d),
    decreases s.len(),
{
    lemma_first_index_bounds(s, c);
    let i = first_index(s, c);
    let p = split_on(s, c);
    if i < s.len() {
        let rest = s.subrange(i + 1, s.len() as int);
        if rest.contains(d) {
            let j = choose|j: int| 0 <= j < rest.len() && rest[j] == d;
            assert(s[i + 1 + j] == d);
        }
        lemma_split_lacks_other(rest, c, d);
        assert forall|k: int| 0 <= k < p.len() implies !(#[trigger] p[k]).contains(d) by {
            if k == 0 {
                if s.subrange(0, i).contains(d) {
                    let j = choose|j: int| 0 <= j < i && s.subrange(0, i)[j] == d;
                    assert(s[j] == d);
                }
            } else {
                assert(p[k] == split_on(rest, c)[k - 1]);
            }
        }
    }
}

/// Joined pieces lack what every piece and the separator lack
pub proof fn lemma_join_lacks(pieces: Seq<Seq<char>>, c: char, d: char)
    requires
        all_lack(pieces, d),
        c != d,
    ensures
        !join_with(pieces, c).contains(d),
    decreases pieces.len(),
{
    if pieces.len() == 1 {
        assert(pieces[0] == pieces[0]);
    } else if pieces.len() > 1 {
        let init = pieces.drop_last();
        assert(all_lack(init, d)) by {
            assert forall|i: int| 0 <= i < init.len() implies !(#[trigger] init[i]).contains(d) by {
                assert(init[i] == pieces[i]);
            }
        }
        lemma_join_lacks(init, c, d);
        let j = join_with(pieces, c);
        let a = join_with(init, c);
        let l = pieces.last();
        assert(!l.contains(d)) by {
            assert(pieces[pieces.len() - 1] == l);
        }
        if j.contains(d) {
            let k = choose|k: int| 0 <= k < j.len() && j[k] == d;
            if k < a.len() {
                assert(a[k] == d);
            } else if k > a.len() {
                assert(l[k - a.len() - 1] == d);
            }
        }
    }
}

/// The bounds of the pieces of `s` separated by `c`
pub fn split_ranges(s: &[char], c: char) -> (r: Vec<(usize, usize)>)
    ensures
        r@.len() == split_on(s@, c).len(),
        forall|k: int|
            #![trigger r@[k]]
            0 <= k < r@.len() ==> r@[k].0 <= r@[k].1 <= s@.len() && split_on(s@, c)[k]
                == s@.subrange(r@[k].0 as int, r@[k].1 as int),
{
    let mut r: Vec<(usize, usize)> = Vec::new();
    let mut start: usize = 0;
    let mut i: usize = 0;
    assert(s@.subrange(0, s@.len() as int) =~= s@);
    while i < s.len()
        invariant
            start <= i <= s@.len(),
            forall|j: int| start <= j < i ==> s@[j] != c,
            forall|k: int| #![trigger r@[k]] 0 <= k < r@.len() ==> r@[k].0 <= r@[k].1 <= s@.len(),
            split_on(s@, c) =~= Seq::new(
                r@.len(),
                |k: int| s@.subrange(r@[k].0 as int, r@[k].1 as int),
            ) + split_on(s@.subrange(start as int, s@.len() as int), c),
        decreases s@.len() - i,
    {
        if s[i] == c {
            proof {
                let rest = s@.subrange(start as int, s@.len() as int);
                lemma_first_index(rest, c, i - start);
                assert(rest.subrange(0, i - start) =~= s@.subrange(start as int, i as int));
                assert(rest.subrange(i - start + 1, rest.len() as int) =~= s@.subrange(
                    i + 1,
                    s@.len() as int,
                ));
            }
            r.push((start, i));
            start = i + 1;
        }
        i += 1;
    }
    proof {
        let rest = s@.subrange(start as int, s@.len() as int);
        lemma_first_index(rest, c, rest.len() as int);
    }
    r.push((start, s.len()));
    r
}

/// Joining one more piece at the end
pub proof fn lemma_join_push(pieces: Seq<Seq<char>>, x: Seq<char>, c: char)
    requires
        pieces.len() >= 1,
    ensures
        join_with(pieces.push(x), c) == join_with(pieces, c) + seq![c] + x,
{
    assert(pieces.push(x).drop_last() =~= pieces);
}

/// Joining the first `j + 1` pieces
pub proof fn lemma_join_take(pieces: Seq<Seq<char>>, j: int, c: char)
    requires
        0 <= j < pieces.len(),
    ensures
        join_with(pieces.take(j + 1), c) == if j == 0 {
            pieces[0]
        } else {
            join_with(pieces.take(j), c) + seq![c] + pieces[j]
        },
{
    if j == 0 {
        assert(pieces.take(1) =~= seq![pieces[0]]);
    } else {
        assert(pieces.take(j + 1) =~= pieces.take(j).push(pieces[j]));
        lemma_join_push(pieces.take(j), pieces[j], c);
    }
}

/// Whether `s` holds `c`
pub fn contains_char(s: &[char], c: char) -> (r: bool)
    ensures
        r == s@.contains(c),
{
    let i = first_index_exec(s, c);
    proof {
        lemma_first_index_bounds(s@, c);
    }
    i < s.len()
}

} // verus!
