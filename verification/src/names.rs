//! Names in alphabetical order.

use crate::text::chars_of;
use vstd::prelude::*;

verus! {

/// `a` stands before `b`: by the first character in which they differ, a beginning
/// before what it begins.
pub open spec fn name_less(a: Seq<char>, b: Seq<char>) -> bool
    decreases a.len(),
{
    if b.len() == 0 {
        false
    } else if a.len() == 0 {
        true
    } else if a[0] != b[0] {
        a[0] < b[0]
    } else {
        name_less(a.drop_first(), b.drop_first())
    }
}

/// The contents of strings.
pub open spec fn texts(v: Seq<String>) -> Seq<Seq<char>> {
    v.map_values(|s: String| s@)
}

/// Names in strictly alphabetical order.
pub open spec fn alphabetical(names: Seq<Seq<char>>) -> bool {
    forall|i: int, j: int|
        0 <= i < j < names.len() ==> name_less(#[trigger] names[i], #[trigger] names[j])
}

/// No name stands before itself.
pub proof fn lemma_name_irreflexive(a: Seq<char>)
    ensures
        !name_less(a, a),
    decreases a.len(),
{
    if a.len() > 0 {
        lemma_name_irreflexive(a.drop_first());
    }
}

/// What stands before what stands before a name stands before it.
pub proof fn lemma_name_transitive(a: Seq<char>, b: Seq<char>, c: Seq<char>)
    requires
        name_less(a, b),
        name_less(b, c),
    ensures
        name_less(a, c),
    decreases a.len(),
{
    if a.len() > 0 && a[0] == b[0] && b[0] == c[0] {
        lemma_name_transitive(a.drop_first(), b.drop_first(), c.drop_first());
    }
}

/// Of two different names one stands before the other.
pub proof fn lemma_name_total(a: Seq<char>, b: Seq<char>)
    ensures
        name_less(a, b) || name_less(b, a) || a == b,
    decreases a.len(),
{
    if a.len() > 0 && b.len() > 0 && a[0] == b[0] {
        lemma_name_total(a.drop_first(), b.drop_first());
        if a.drop_first() == b.drop_first() {
            assert(a =~= seq![a[0]] + a.drop_first());
            assert(b =~= seq![b[0]] + b.drop_first());
        }
    } else if a.len() == 0 && b.len() == 0 {
        assert(a =~= b);
    }
}

/// Whether one name stands before another.
pub(crate) fn before_name(a: &str, b: &str) -> (r: bool)
    ensures
        r == name_less(a@, b@),
{
    let x = chars_of(a);
    let y = chars_of(b);
    let mut i: usize = 0;
    assert(x@.skip(0) =~= x@ && y@.skip(0) =~= y@);
    while i < x.len() && i < y.len()
        invariant
            x@ == a@,
            y@ == b@,
            i <= x@.len(),
            i <= y@.len(),
            name_less(a@, b@) == name_less(x@.skip(i as int), y@.skip(i as int)),
        decreases x@.len() - i,
    {
        proof {
            assert(x@.skip(i as int)[0] == x@[i as int]);
            assert(y@.skip(i as int)[0] == y@[i as int]);
            assert(x@.skip(i as int).drop_first() =~= x@.skip(i + 1));
            assert(y@.skip(i as int).drop_first() =~= y@.skip(i + 1));
        }
        if x[i] != y[i] {
            return x[i] < y[i];
        }
        i = i + 1;
    }
    i < y.len()
}

/// Add a name to a list in alphabetical order, unless it is there.
pub(crate) fn insert_name(names: &mut Vec<String>, name: &String)
    requires
        alphabetical(texts(old(names)@)),
    ensures
        alphabetical(texts(final(names)@)),
        forall|t: Seq<char>| #[trigger]
            texts(final(names)@).contains(t) <==> texts(old(names)@).contains(t) || t == name@,
{
    let ghost old_texts = texts(names@);
    let mut i: usize = 0;
    while i < names.len() && before_name(names[i].as_str(), name.as_str())
        invariant
            names@ == old(names)@,
            old_texts == texts(names@),
            alphabetical(old_texts),
            i <= names@.len(),
            forall|k: int| 0 <= k < i ==> name_less(#[trigger] old_texts[k], name@),
        decreases names@.len() - i,
    {
        assert(old_texts[i as int] == names@[i as int]@);
        i = i + 1;
    }
    if i < names.len() && !before_name(name.as_str(), names[i].as_str()) {
        proof {
            assert(old_texts[i as int] == names@[i as int]@);
            lemma_name_total(old_texts[i as int], name@);
            assert(old_texts.contains(name@));
        }
        return;
    }
    let ghost before = names@;
    names.insert(i, name.clone());
    proof {
        let t = texts(names@);
        assert(t =~= old_texts.insert(i as int, name@));
        assert forall|k: int| i <= k < old_texts.len() implies name_less(
            name@,
            #[trigger] old_texts[k],
        ) by {
            assert(old_texts[i as int] == before[i as int]@);
            if k > i {
                lemma_name_transitive(name@, old_texts[i as int], old_texts[k]);
            }
        }
        assert forall|a: int, b: int| 0 <= a < b < t.len() implies name_less(
            #[trigger] t[a],
            #[trigger] t[b],
        ) by {
            if a < i && b > i {
                assert(name_less(old_texts[a], old_texts[b - 1]));
            } else if a == i {
                assert(name_less(name@, old_texts[b - 1]));
            } else if a > i {
                assert(name_less(old_texts[a - 1], old_texts[b - 1]));
            } else if b == i {
                assert(name_less(old_texts[a], name@));
            } else {
                assert(name_less(old_texts[a], old_texts[b]));
            }
        }
        assert forall|x: Seq<char>| #[trigger] t.contains(x) <==> old_texts.contains(x) || x == name@ by {
            if t.contains(x) {
                let k = choose|k: int| 0 <= k < t.len() && t[k] == x;
                if k < i {
                    assert(old_texts[k] == x);
                } else if k > i {
                    assert(old_texts[k - 1] == x);
                }
            }
            if old_texts.contains(x) {
                let k = choose|k: int| 0 <= k < old_texts.len() && old_texts[k] == x;
                if k < i {
                    assert(t[k] == x);
                } else {
                    assert(t[k + 1] == x);
                }
            }
            assert(t[i as int] == name@);
        }
    }
}

/// Names that begin alike stand in the order of the characters in which they first differ,
/// and a beginning stands before what it begins.
pub proof fn law_first_difference_counts(
    start: Seq<char>,
    c: char,
    d: char,
    a: Seq<char>,
    b: Seq<char>,
)
    ensures
        c < d ==> name_less(start.push(c) + a, start.push(d) + b),
        d < c ==> !name_less(start.push(c) + a, start.push(d) + b),
        name_less(start, start.push(c) + a),
        !name_less(start.push(c) + a, start),
    decreases start.len(),
{
    let (x, y) = (start.push(c) + a, start.push(d) + b);
    if start.len() == 0 {
        assert(x[0] == c && y[0] == d);
    } else {
        let rest = start.drop_first();
        law_first_difference_counts(rest, c, d, a, b);
        assert(x.drop_first() =~= rest.push(c) + a);
        assert(y.drop_first() =~= rest.push(d) + b);
        assert(x[0] == start[0] && y[0] == start[0]);
    }
}

} // verus!
