//! Lexicographic order on names, and sorted duplicate-free name lists.

use vstd::prelude::*;
use crate::ast::name_views;

verus! {

/// `a` comes strictly before `b` in lexicographic order of code points
/// (the order of `String`'s `Ord`).
pub open spec fn lex_lt(a: Seq<char>, b: Seq<char>) -> bool
    decreases a.len(),
{
    if b.len() == 0 {
        false
    } else if a.len() == 0 {
        true
    } else if a[0] != b[0] {
        (a[0] as u32) < (b[0] as u32)
    } else {
        lex_lt(a.drop_first(), b.drop_first())
    }
}

/// Every name comes strictly before every later one: sorted and free of
/// duplicates.
pub open spec fn strictly_sorted(v: Seq<Seq<char>>) -> bool {
    forall|i: int, j: int| 0 <= i < j < v.len() ==> lex_lt(#[trigger] v[i], #[trigger] v[j])
}

pub proof fn lemma_lex_irreflexive(a: Seq<char>)
    ensures
        !lex_lt(a, a),
    decreases a.len(),
{
    if a.len() > 0 {
        lemma_lex_irreflexive(a.drop_first());
    }
}

pub proof fn lemma_lex_total(a: Seq<char>, b: Seq<char>)
    ensures
        a == b || lex_lt(a, b) || lex_lt(b, a),
    decreases a.len(),
{
    if a.len() > 0 && b.len() > 0 && a[0] == b[0] {
        lemma_lex_total(a.drop_first(), b.drop_first());
        if a.drop_first() == b.drop_first() {
            assert(a =~= seq![a[0]] + a.drop_first());
            assert(b =~= seq![b[0]] + b.drop_first());
        }
    } else if a.len() == 0 && b.len() == 0 {
        assert(a =~= b);
    } else if a.len() > 0 && b.len() > 0 {
        let (x, y) = (a[0] as u32, b[0] as u32);
        assert(a[0] != b[0]);
        assert(x != y) by {
            vstd::utf8::char_u32_cast(a[0], x);
            vstd::utf8::char_u32_cast(b[0], y);
        }
    }
}

pub proof fn lemma_lex_asymmetric(a: Seq<char>, b: Seq<char>)
    ensures
        !(lex_lt(a, b) && lex_lt(b, a)),
    decreases a.len(),
{
    if a.len() > 0 && b.len() > 0 && a[0] == b[0] {
        lemma_lex_asymmetric(a.drop_first(), b.drop_first());
    }
}

pub proof fn lemma_lex_transitive(a: Seq<char>, b: Seq<char>, c: Seq<char>)
    requires
        lex_lt(a, b),
        lex_lt(b, c),
    ensures
        lex_lt(a, c),
    decreases a.len(),
{
    if a.len() > 0 && a[0] == b[0] && b[0] == c[0] {
        lemma_lex_transitive(a.drop_first(), b.drop_first(), c.drop_first());
    }
}

/// Two strictly sorted lists with the same names are equal.
pub proof fn lemma_sorted_unique(a: Seq<Seq<char>>, b: Seq<Seq<char>>)
    requires
        strictly_sorted(a),
        strictly_sorted(b),
        forall|s: Seq<char>| a.contains(s) <==> b.contains(s),
    ensures
        a == b,
    decreases a.len(),
{
    if a.len() == 0 {
        if b.len() > 0 {
            assert(b.contains(b[0]));
        }
        assert(b =~= a);
    } else {
        assert(a.contains(a[0]));
        assert(b.contains(a[0]));
        assert(b.len() > 0);
        assert(b.contains(b[0]));
        assert(a.contains(b[0]));
        if a[0] != b[0] {
            let j = choose|j: int| 0 <= j < b.len() && b[j] == a[0];
            let i = choose|i: int| 0 <= i < a.len() && a[i] == b[0];
            assert(lex_lt(b[0], b[j]));
            assert(lex_lt(a[0], a[i]));
            lemma_lex_asymmetric(a[0], b[0]);
        }
        let (ta, tb) = (a.drop_first(), b.drop_first());
        assert forall|s: Seq<char>| ta.contains(s) <==> tb.contains(s) by {
            if ta.contains(s) {
                let i = choose|i: int| 0 <= i < ta.len() && ta[i] == s;
                assert(lex_lt(a[0], a[i + 1]));
                assert(a.contains(s));
                let j = choose|j: int| 0 <= j < b.len() && b[j] == s;
                if j == 0 {
                    lemma_lex_irreflexive(s);
                }
                assert(tb[j - 1] == s);
            }
            if tb.contains(s) {
                let j = choose|j: int| 0 <= j < tb.len() && tb[j] == s;
                assert(lex_lt(b[0], b[j + 1]));
                assert(b.contains(s));
                let i = choose|i: int| 0 <= i < a.len() && a[i] == s;
                if i == 0 {
                    lemma_lex_irreflexive(s);
                }
                assert(ta[i - 1] == s);
            }
        }
        lemma_sorted_unique(ta, tb);
        assert(a =~= seq![a[0]] + ta);
        assert(b =~= seq![b[0]] + tb);
    }
}

/// Whether `a` comes strictly before `b`.
pub fn name_lt(a: &str, b: &str) -> (r: bool)
    ensures
        r == lex_lt(a@, b@),
{
    let la = a.unicode_len();
    let lb = b.unicode_len();
    let mut i: usize = 0;
    assert(a@.skip(0) =~= a@);
    assert(b@.skip(0) =~= b@);
    while i < la && i < lb
        invariant
            la == a@.len(),
            lb == b@.len(),
            i <= la,
            i <= lb,
            lex_lt(a@, b@) == lex_lt(a@.skip(i as int), b@.skip(i as int)),
        decreases la - i,
    {
        let ca = a.get_char(i);
        let cb = b.get_char(i);
        assert(a@.skip(i as int)[0] == ca);
        assert(b@.skip(i as int)[0] == cb);
        if ca != cb {
            return (ca as u32) < (cb as u32);
        }
        assert(a@.skip(i as int).drop_first() =~= a@.skip(i + 1));
        assert(b@.skip(i as int).drop_first() =~= b@.skip(i + 1));
        i = i + 1;
    }
    i < lb
}

/// Adds `name` to a strictly sorted list, unless it is already there.
pub fn insert_sorted(v: &mut Vec<String>, name: &String)
    requires
        strictly_sorted(name_views(old(v)@)),
    ensures
        strictly_sorted(name_views(final(v)@)),
        forall|s: Seq<char>| #[trigger]
            name_views(final(v)@).contains(s) <==> (name_views(old(v)@).contains(s) || s == name@),
{
    let ghost old_names = name_views(v@);
    let mut i: usize = 0;
    while i < v.len() && name_lt(v[i].as_str(), name.as_str())
        invariant
            v@ == old(v)@,
            old_names == name_views(v@),
            i <= v@.len(),
            forall|k: int| 0 <= k < i ==> lex_lt(#[trigger] old_names[k], name@),
        decreases v@.len() - i,
    {
        i = i + 1;
    }
    assert(i < v@.len() ==> old_names[i as int] == v@[i as int]@);
    if i < v.len() && v[i] == *name {
        assert(old_names.contains(name@) && old_names[i as int] == name@);
        return;
    }
    proof {
        if i < v@.len() {
            lemma_lex_total(old_names[i as int], name@);
            assert(lex_lt(name@, old_names[i as int]));
        }
    }
    v.insert(i, name.clone());
    let ghost new_names = name_views(v@);
    assert(new_names =~= old_names.insert(i as int, name@));
    assert forall|a: int, b: int| 0 <= a < b < new_names.len() implies lex_lt(
        #[trigger] new_names[a],
        #[trigger] new_names[b],
    ) by {
        if b == i {
        } else if a == i {
            if b > i + 1 {
                lemma_lex_transitive(name@, old_names[i as int], old_names[b - 1]);
            }
        } else if a > i {
        } else if b > i {
        }
    }
    assert forall|s: Seq<char>| #[trigger]
        new_names.contains(s) <==> (old_names.contains(s) || s == name@) by {
        if new_names.contains(s) {
            let k = choose|k: int| 0 <= k < new_names.len() && new_names[k] == s;
            if k < i {
                assert(old_names[k] == s);
            } else if k > i {
                assert(old_names[k - 1] == s);
            }
        }
        if old_names.contains(s) {
            let k = choose|k: int| 0 <= k < old_names.len() && old_names[k] == s;
            if k < i {
                assert(new_names[k] == s);
            } else {
                assert(new_names[k + 1] == s);
            }
        }
        if s == name@ {
            assert(new_names[i as int] == s);
        }
    }
}

} // verus!
