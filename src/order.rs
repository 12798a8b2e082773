//! The order of texts, and sorted sets of distinct texts.
use vstd::prelude::*;
use crate::schema::same_text;

verus! {

/// Lexicographic order of texts by code point.
pub open spec fn lex_less(a: Seq<char>, b: Seq<char>) -> bool
    decreases a.len(),
{
    if b.len() == 0 {
        false
    } else if a.len() == 0 {
        true
    } else if a[0] != b[0] {
        (a[0] as int) < (b[0] as int)
    } else {
        lex_less(a.drop_first(), b.drop_first())
    }
}

pub proof fn lemma_lex_total(a: Seq<char>, b: Seq<char>)
    ensures
        a != b ==> lex_less(a, b) || lex_less(b, a),
        !(lex_less(a, b) && lex_less(b, a)),
    decreases a.len(),
{
    if a.len() > 0 && b.len() > 0 {
        lemma_lex_total(a.drop_first(), b.drop_first());
        if a[0] != b[0] {
            assert((a[0] as int) != (b[0] as int));
        }
        if a[0] == b[0] && a != b {
            assert(a.drop_first() != b.drop_first()) by {
                if a.drop_first() == b.drop_first() {
                    assert(a =~= seq![a[0]] + a.drop_first());
                    assert(b =~= seq![b[0]] + b.drop_first());
                }
            }
        }
    } else if a.len() == 0 && b.len() == 0 {
        assert(a =~= b);
    }
}

pub proof fn lemma_lex_transitive(a: Seq<char>, b: Seq<char>, c: Seq<char>)
    requires
        lex_less(a, b),
        lex_less(b, c),
    ensures
        lex_less(a, c),
    decreases a.len(),
{
    if a.len() > 0 && a[0] == b[0] && b[0] == c[0] {
        lemma_lex_transitive(a.drop_first(), b.drop_first(), c.drop_first());
    }
}

/// Relies on `str`'s `<`: strings are ordered lexicographically by their
/// UTF-8 bytes, which orders them as their code points.
#[verifier::external_body]
fn str_less(a: &str, b: &str) -> (r: bool)
    ensures
        r == lex_less(a@, b@),
{
    a < b
}

pub open spec fn view_texts(s: Seq<String>) -> Seq<Seq<char>> {
    Seq::new(s.len(), |i: int| s[i]@)
}

/// Strictly increasing, hence free of repeats.
pub open spec fn strictly_sorted(s: Seq<Seq<char>>) -> bool {
    forall|i: int, j: int| 0 <= i < j < s.len() ==> lex_less(#[trigger] s[i], #[trigger] s[j])
}

/// Adds `k` to a sorted set of texts, keeping it sorted.
pub fn insert_sorted(set: &mut Vec<String>, k: &str)
    requires
        strictly_sorted(view_texts(old(set)@)),
    ensures
        strictly_sorted(view_texts(final(set)@)),
        view_texts(final(set)@).to_set() == view_texts(old(set)@).to_set().insert(k@),
{
    let ghost s0 = view_texts(set@);
    let mut i: usize = 0;
    while i < set.len() && str_less(set[i].as_str(), k)
        invariant
            i <= set.len(),
            set@ == old(set)@,
            s0 == view_texts(set@),
            forall|j: int| 0 <= j < i ==> lex_less(#[trigger] s0[j], k@),
        decreases set.len() - i,
    {
        i = i + 1;
    }
    if i < set.len() && same_text(set[i].as_str(), k) {
        proof {
            assert(s0[i as int] == k@);
            assert(s0.to_set().insert(k@) =~= s0.to_set());
        }
        return;
    }
    proof {
        if i < set.len() {
            lemma_lex_total(s0[i as int], k@);
            assert(lex_less(k@, s0[i as int]));
        }
    }
    set.insert(i, String::from_str(k));
    proof {
        let s1 = view_texts(set@);
        assert(s1 =~= s0.insert(i as int, k@));
        assert forall|a: int, b: int| 0 <= a < b < s1.len() implies lex_less(#[trigger] s1[a], #[trigger] s1[b]) by {
            if a < i && b == i {
            } else if a < i && b > i {
                assert(s1[b] == s0[b - 1]);
            } else if a == i && b > i {
                assert(s1[b] == s0[b - 1]);
                if b - 1 > i {
                    lemma_lex_transitive(k@, s0[i as int], s0[b - 1]);
                }
            } else if a > i {
                assert(s1[a] == s0[a - 1]);
                assert(s1[b] == s0[b - 1]);
            }
        }
        assert(s1.to_set() =~= s0.to_set().insert(k@)) by {
            assert forall|x: Seq<char>| s1.to_set().contains(x) <==> s0.to_set().insert(k@).contains(x) by {
                if s1.to_set().contains(x) {
                    let a = choose|a: int| 0 <= a < s1.len() && s1[a] == x;
                    if a > i {
                        assert(s0[a - 1] == x);
                    }
                }
                if s0.to_set().contains(x) {
                    let a = choose|a: int| 0 <= a < s0.len() && s0[a] == x;
                    if a >= i {
                        assert(s1[a + 1] == x);
                    } else {
                        assert(s1[a] == x);
                    }
                }
                if x == k@ {
                    assert(s1[i as int] == x);
                }
            }
        }
    }
}

} // verus!
