//! Ordered lists of client handles (indices) and what removing or adding one
//! does to them.
use vstd::prelude::*;

verus! {

/// The position of the first occurrence of `c` in `v`, if any.
pub fn position(v: &Vec<usize>, c: usize) -> (r: Option<usize>)
    ensures
        match r {
            Some(i) => i < v@.len() && v@[i as int] == c && forall|j: int|
                0 <= j < i ==> v@[j] != c,
            None => !v@.contains(c),
        },
{
    let mut i: usize = 0;
    while i < v.len()
        invariant
            i <= v@.len(),
            forall|j: int| 0 <= j < i ==> v@[j] != c,
        decreases v@.len() - i,
    {
        if v[i] == c {
            return Some(i);
        }
        i = i + 1;
    }
    None
}

/// `s` with the element at `i` taken out, the others kept in order.
pub open spec fn without_index(s: Seq<usize>, i: int) -> Seq<usize> {
    s.remove(i)
}

/// `s` with its first occurrence of `c` taken out (unchanged when `c` is absent).
pub open spec fn without(s: Seq<usize>, c: usize) -> Seq<usize>
    decreases s.len(),
{
    if s.len() == 0 {
        s
    } else if s[0] == c {
        s.drop_first()
    } else {
        seq![s[0]] + without(s.drop_first(), c)
    }
}

proof fn lemma_without_index(s: Seq<usize>, c: usize, i: int)
    requires
        0 <= i < s.len(),
        s[i] == c,
        forall|j: int| 0 <= j < i ==> s[j] != c,
    ensures
        without(s, c) == s.remove(i),
    decreases s.len(),
{
    if i == 0 {
        assert(s.drop_first() =~= s.remove(0));
    } else {
        lemma_without_index(s.drop_first(), c, i - 1);
        assert(seq![s[0]] + s.drop_first().remove(i - 1) =~= s.remove(i));
    }
}

pub proof fn lemma_without_absent(s: Seq<usize>, c: usize)
    requires
        !s.contains(c),
    ensures
        without(s, c) == s,
    decreases s.len(),
{
    if s.len() > 0 {
        assert(s[0] != c);
        assert(!s.drop_first().contains(c)) by {
            if s.drop_first().contains(c) {
                let j = choose|j: int| 0 <= j < s.drop_first().len() && s.drop_first()[j] == c;
                assert(s[j + 1] == c);
            }
        }
        lemma_without_absent(s.drop_first(), c);
        assert(seq![s[0]] + s.drop_first() =~= s);
    }
}

/// Removing the element at `i` from a list without duplicates leaves exactly
/// the other elements, still without duplicates.
pub proof fn lemma_remove_contents(s: Seq<usize>, i: int)
    requires
        0 <= i < s.len(),
        s.no_duplicates(),
    ensures
        s.remove(i).no_duplicates(),
        s.remove(i).len() == s.len() - 1,
        forall|x: usize| #[trigger] s.remove(i).contains(x) <==> (s.contains(x) && x != s[i]),
{
    let r = s.remove(i);
    assert forall|x: usize| #[trigger] r.contains(x) <==> (s.contains(x) && x != s[i]) by {
        if r.contains(x) {
            let j = choose|j: int| 0 <= j < r.len() && r[j] == x;
            if j < i {
                assert(s[j] == x);
            } else {
                assert(s[j + 1] == x);
            }
        }
        if s.contains(x) && x != s[i] {
            let j = choose|j: int| 0 <= j < s.len() && s[j] == x;
            if j < i {
                assert(r[j] == x);
            } else {
                assert(j != i);
                assert(r[j - 1] == x);
            }
        }
    }
    assert forall|a: int, b: int| 0 <= a < r.len() && 0 <= b < r.len() && a != b implies r[a]
        != r[b] by {
        let sa = if a < i { a } else { a + 1 };
        let sb = if b < i { b } else { b + 1 };
        assert(r[a] == s[sa]);
        assert(r[b] == s[sb]);
    }
}

/// Putting `c` in front of a list without duplicates that lacks it gives a
/// list without duplicates holding `c` and the old elements.
pub proof fn lemma_push_front_contents(s: Seq<usize>, c: usize)
    requires
        s.no_duplicates(),
        !s.contains(c),
    ensures
        s.insert(0, c).no_duplicates(),
        s.insert(0, c).len() == s.len() + 1,
        s.insert(0, c)[0] == c,
        forall|x: usize| #[trigger] s.insert(0, c).contains(x) <==> (s.contains(x) || x == c),
{
    let r = s.insert(0, c);
    assert(r =~= seq![c] + s);
    assert forall|x: usize| #[trigger] r.contains(x) <==> (s.contains(x) || x == c) by {
        if r.contains(x) {
            let j = choose|j: int| 0 <= j < r.len() && r[j] == x;
            if j > 0 {
                assert(s[j - 1] == x);
            }
        }
        if s.contains(x) {
            let j = choose|j: int| 0 <= j < s.len() && s[j] == x;
            assert(r[j + 1] == x);
        }
        if x == c {
            assert(r[0] == x);
        }
    }
    assert forall|a: int, b: int| 0 <= a < r.len() && 0 <= b < r.len() && a != b implies r[a]
        != r[b] by {
        if a > 0 && b > 0 {
            assert(r[a] == s[a - 1]);
            assert(r[b] == s[b - 1]);
        } else if a == 0 {
            assert(r[b] == s[b - 1]);
            assert(s.contains(r[b]));
        } else {
            assert(r[a] == s[a - 1]);
            assert(s.contains(r[a]));
        }
    }
}

/// Takes the first occurrence of `c` out of `v`, keeping the order of the rest.
pub fn remove_value(v: &mut Vec<usize>, c: usize)
    ensures
        final(v)@ == without(old(v)@, c),
        old(v)@.contains(c) ==> exists|i: int|
            0 <= i < old(v)@.len() && old(v)@[i] == c && final(v)@ == old(v)@.remove(i),
        !old(v)@.contains(c) ==> final(v)@ == old(v)@,
{
    match position(v, c) {
        Some(i) => {
            proof {
                lemma_without_index(v@, c, i as int);
            }
            v.remove(i);
        },
        None => {
            proof {
                lemma_without_absent(v@, c);
            }
        },
    }
}

/// Putting `c` in front of a list and then taking it out again gives the list back.
pub proof fn lemma_push_front_then_remove(s: Seq<usize>, c: usize)
    ensures
        without(s.insert(0, c), c) == s,
{
    assert(s.insert(0, c).drop_first() =~= s);
}


/// Inserting an element that is absent keeps a list free of duplicates and
/// adds exactly that element.
pub proof fn lemma_insert_contents(s: Seq<usize>, pos: int, c: usize)
    requires
        s.no_duplicates(),
        !s.contains(c),
        0 <= pos <= s.len(),
    ensures
        s.insert(pos, c).no_duplicates(),
        s.insert(pos, c).len() == s.len() + 1,
        s.insert(pos, c)[pos] == c,
        forall|x: usize| #[trigger] s.insert(pos, c).contains(x) <==> (s.contains(x) || x == c),
{
    let r = s.insert(pos, c);
    assert forall|x: usize| #[trigger] r.contains(x) <==> (s.contains(x) || x == c) by {
        if r.contains(x) {
            let j = choose|j: int| 0 <= j < r.len() && r[j] == x;
            if j < pos {
                assert(s[j] == x);
            } else if j > pos {
                assert(s[j - 1] == x);
            }
        }
        if s.contains(x) {
            let j = choose|j: int| 0 <= j < s.len() && s[j] == x;
            if j < pos {
                assert(r[j] == x);
            } else {
                assert(r[j + 1] == x);
            }
        }
        if x == c {
            assert(r[pos] == x);
        }
    }
    assert forall|a: int, b: int| 0 <= a < r.len() && 0 <= b < r.len() && a != b implies r[a]
        != r[b] by {
        let sa = if a < pos { a } else { a - 1 };
        let sb = if b < pos { b } else { b - 1 };
        if a == pos {
            assert(s.contains(r[b]));
        } else if b == pos {
            assert(s.contains(r[a]));
        } else {
            assert(r[a] == s[sa]);
            assert(r[b] == s[sb]);
        }
    }
}


/// Removing an element only takes away.
pub proof fn lemma_remove_subset(s: Seq<usize>, i: int)
    requires
        0 <= i < s.len(),
    ensures
        forall|x: usize| #[trigger] s.remove(i).contains(x) ==> s.contains(x),
{
    assert forall|x: usize| #[trigger] s.remove(i).contains(x) implies s.contains(x) by {
        let j = choose|j: int| 0 <= j < s.remove(i).len() && s.remove(i)[j] == x;
        if j < i {
            assert(s[j] == x);
        } else {
            assert(s[j + 1] == x);
        }
    }
}

/// Taking out `c` keeps every other element.
pub proof fn lemma_without_keeps(s: Seq<usize>, c: usize, x: usize)
    requires
        s.contains(x),
        x != c,
    ensures
        without(s, c).contains(x),
    decreases s.len(),
{
    if s[0] == x {
        assert(without(s, c)[0] == x);
    } else {
        let j = choose|j: int| 0 <= j < s.len() && s[j] == x;
        assert(s.drop_first()[j - 1] == x);
        lemma_without_keeps(s.drop_first(), c, x);
        if s[0] == c {
            assert(without(s, c) == s.drop_first());
        } else {
            let w = without(s.drop_first(), c);
            let k = choose|k: int| 0 <= k < w.len() && w[k] == x;
            assert((seq![s[0]] + w)[k + 1] == x);
        }
    }
}

/// Taking `c` out of a list without duplicates leaves exactly the other elements.
pub proof fn lemma_without_contents(s: Seq<usize>, c: usize)
    requires
        s.no_duplicates(),
    ensures
        forall|x: usize| #[trigger] without(s, c).contains(x) <==> (s.contains(x) && x != c),
{
    if s.contains(c) {
        let i = s.index_of(c);
        assert forall|j: int| 0 <= j < i implies s[j] != c by {
            if s[j] == c {
                assert(s[j] == s[i]);
            }
        }
        lemma_without_index(s, c, i);
        lemma_remove_contents(s, i);
    } else {
        lemma_without_absent(s, c);
    }
}

} // verus!
