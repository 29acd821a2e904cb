//! The order of strings (by the code points of their characters, which is
//! the byte order of their UTF-8 encoding), and sorting a list of distinct
//! strings by it.
use vstd::prelude::*;

verus! {

broadcast use vstd::seq::group_seq_axioms;

/// Whether `a` comes strictly before `b`: at the first position where they
/// differ, `a` has the smaller character, or `a` is a proper prefix of `b`.
pub open spec fn text_lt(a: Seq<char>, b: Seq<char>) -> bool
    decreases a.len(),
{
    if a.len() == 0 {
        b.len() > 0
    } else if b.len() == 0 {
        false
    } else if a[0] != b[0] {
        (a[0] as int) < (b[0] as int)
    } else {
        text_lt(a.drop_first(), b.drop_first())
    }
}

/// Whether `ks` is in strictly increasing order.
pub open spec fn strictly_sorted(ks: Seq<Seq<char>>) -> bool {
    forall|i: int, j: int| 0 <= i < j < ks.len() ==> text_lt(#[trigger] ks[i], #[trigger] ks[j])
}

/// No string comes before itself.
pub proof fn lemma_text_lt_irreflexive(a: Seq<char>)
    ensures
        !text_lt(a, a),
    decreases a.len(),
{
    if a.len() > 0 {
        lemma_text_lt_irreflexive(a.drop_first());
    }
}

/// Two strings never come before each other.
pub proof fn lemma_text_lt_asymmetric(a: Seq<char>, b: Seq<char>)
    ensures
        !(text_lt(a, b) && text_lt(b, a)),
    decreases a.len(),
{
    if a.len() > 0 && b.len() > 0 && a[0] == b[0] {
        lemma_text_lt_asymmetric(a.drop_first(), b.drop_first());
    }
}

/// The order is transitive.
pub proof fn lemma_text_lt_transitive(a: Seq<char>, b: Seq<char>, c: Seq<char>)
    requires
        text_lt(a, b),
        text_lt(b, c),
    ensures
        text_lt(a, c),
    decreases a.len(),
{
    if a.len() > 0 && b.len() > 0 && c.len() > 0 && a[0] == b[0] && b[0] == c[0] {
        lemma_text_lt_transitive(a.drop_first(), b.drop_first(), c.drop_first());
    }
}

/// Of two different strings, one comes before the other.
pub proof fn lemma_text_lt_total(a: Seq<char>, b: Seq<char>)
    requires
        a != b,
    ensures
        text_lt(a, b) || text_lt(b, a),
    decreases a.len(),
{
    if a.len() > 0 && b.len() > 0 && a[0] == b[0] {
        if a.drop_first() == b.drop_first() {
            assert(a =~= seq![a[0]] + a.drop_first());
            assert(b =~= seq![b[0]] + b.drop_first());
        }
        lemma_text_lt_total(a.drop_first(), b.drop_first());
    } else if a.len() == 0 && b.len() == 0 {
        assert(a =~= b);
    } else if a.len() > 0 && b.len() > 0 {
        assert(a[0] != b[0]);
        assert((a[0] as int) != (b[0] as int));
    }
}

/// Two strictly sorted lists with the same elements are the same list.
pub proof fn lemma_sorted_unique(a: Seq<Seq<char>>, b: Seq<Seq<char>>)
    requires
        strictly_sorted(a),
        strictly_sorted(b),
        forall|x: Seq<char>| a.contains(x) <==> b.contains(x),
    ensures
        a == b,
    decreases a.len() + b.len(),
{
    if a.len() == 0 {
        if b.len() > 0 {
            assert(b.contains(b[0]));
        }
        assert(a =~= b);
    } else if b.len() == 0 {
        assert(a.contains(a[0]));
    } else {
        assert(a.contains(a[0]));
        assert(b.contains(b[0]));
        let k = choose|k: int| 0 <= k < b.len() && b[k] == a[0];
        let m = choose|m: int| 0 <= m < a.len() && a[m] == b[0];
        if k > 0 {
            assert(text_lt(b[0], b[k]));
            if m == 0 {
                lemma_text_lt_irreflexive(b[0]);
            } else {
                assert(text_lt(a[0], a[m]));
                lemma_text_lt_asymmetric(a[0], b[0]);
            }
        }
        assert(a[0] == b[0]);
        let ta = a.drop_first();
        let tb = b.drop_first();
        assert forall|x: Seq<char>| ta.contains(x) <==> tb.contains(x) by {
            if ta.contains(x) {
                let i = choose|i: int| 0 <= i < ta.len() && ta[i] == x;
                assert(text_lt(a[0], a[i + 1]));
                assert(b.contains(x)) by {
                    assert(a[i + 1] == x);
                }
                let j = choose|j: int| 0 <= j < b.len() && b[j] == x;
                if j == 0 {
                    lemma_text_lt_irreflexive(x);
                }
                assert(tb[j - 1] == x);
            }
            if tb.contains(x) {
                let i = choose|i: int| 0 <= i < tb.len() && tb[i] == x;
                assert(text_lt(b[0], b[i + 1]));
                assert(a.contains(x)) by {
                    assert(b[i + 1] == x);
                }
                let j = choose|j: int| 0 <= j < a.len() && a[j] == x;
                if j == 0 {
                    lemma_text_lt_irreflexive(x);
                }
                assert(ta[j - 1] == x);
            }
        }
        assert forall|i: int, j: int| 0 <= i < j < ta.len() implies text_lt(#[trigger] ta[i], #[trigger] ta[j]) by {
            assert(ta[i] == a[i + 1] && ta[j] == a[j + 1]);
        }
        assert forall|i: int, j: int| 0 <= i < j < tb.len() implies text_lt(#[trigger] tb[i], #[trigger] tb[j]) by {
            assert(tb[i] == b[i + 1] && tb[j] == b[j + 1]);
        }
        lemma_sorted_unique(ta, tb);
        assert(a =~= seq![a[0]] + ta);
        assert(b =~= seq![b[0]] + tb);
    }
}

/// The texts of a list of strings.
pub open spec fn string_views(s: Seq<String>) -> Seq<Seq<char>> {
    s.map_values(|m: String| m@)
}

/// Compares two strings by the order above.
pub fn text_less(a: &String, b: &String) -> (r: bool)
    ensures
        r == text_lt(a@, b@),
{
    let sa = a.as_str();
    let sb = b.as_str();
    let la = sa.unicode_len();
    let lb = sb.unicode_len();
    let mut i: usize = 0;
    assert(a@.skip(0) =~= a@);
    assert(b@.skip(0) =~= b@);
    while i < la && i < lb
        invariant
            la == a@.len(),
            lb == b@.len(),
            sa@ == a@,
            sb@ == b@,
            i <= la,
            i <= lb,
            text_lt(a@.skip(i as int), b@.skip(i as int)) == text_lt(a@, b@),
        decreases la - i,
    {
        let ca = sa.get_char(i);
        let cb = sb.get_char(i);
        let ghost xa = a@.skip(i as int);
        let ghost xb = b@.skip(i as int);
        assert(xa[0] == ca && xb[0] == cb);
        if ca != cb {
            return (ca as u32) < (cb as u32);
        }
        assert(xa.drop_first() =~= a@.skip(i + 1));
        assert(xb.drop_first() =~= b@.skip(i + 1));
        i += 1;
    }
    i == la && i < lb
}

/// Sorts a list of distinct strings into strictly increasing order.
pub fn sort_texts(v: Vec<String>) -> (r: Vec<String>)
    requires
        string_views(v@).no_duplicates(),
    ensures
        strictly_sorted(string_views(r@)),
        forall|x: Seq<char>| #[trigger] string_views(r@).contains(x) <==> string_views(v@).contains(x),
{
    let ghost all = string_views(v@);
    let mut rem = v;
    let mut out: Vec<String> = Vec::new();
    while rem.len() > 0
        invariant
            string_views(rem@).no_duplicates(),
            strictly_sorted(string_views(out@)),
            forall|i: int, j: int|
                0 <= i < out@.len() && 0 <= j < rem@.len() ==> text_lt(#[trigger] out@[i]@, #[trigger] rem@[j]@),
            forall|x: Seq<char>| #[trigger] all.contains(x)
                <==> string_views(out@).contains(x) || string_views(rem@).contains(x),
        decreases rem.len(),
    {
        let ghost rv = string_views(rem@);
        let mut m: usize = 0;
        let mut j: usize = 1;
        while j < rem.len()
            invariant
                rv == string_views(rem@),
                rv.no_duplicates(),
                m < j <= rem.len(),
                forall|k: int| 0 <= k < j && k != m ==> text_lt(rem@[m as int]@, #[trigger] rem@[k]@),
            decreases rem.len() - j,
        {
            if text_less(&rem[j], &rem[m]) {
                proof {
                    assert forall|k: int| 0 <= k < j + 1 && k != j implies text_lt(rem@[j as int]@, #[trigger] rem@[k]@) by {
                        if k != m {
                            lemma_text_lt_transitive(rem@[j as int]@, rem@[m as int]@, rem@[k]@);
                        }
                    }
                }
                m = j;
            } else {
                proof {
                    assert(rv[j as int] != rv[m as int]);
                    lemma_text_lt_total(rem@[j as int]@, rem@[m as int]@);
                }
            }
            j += 1;
        }
        let ghost r0 = rem@;
        let ghost o0 = out@;
        let x = rem.remove(m);
        proof {
            assert forall|i: int, k: int| 0 <= i < o0.len() + 1 && 0 <= k < rem@.len() implies text_lt(
                #[trigger] o0.push(x)[i]@,
                #[trigger] rem@[k]@,
            ) by {
                if k < m {
                    assert(rem@[k] == r0[k]);
                } else {
                    assert(rem@[k] == r0[k + 1]);
                }
                if i == o0.len() {
                    assert(o0.push(x)[i] == r0[m as int]);
                } else {
                    assert(o0.push(x)[i] == o0[i]);
                }
            }
            assert(string_views(rem@) =~= rv.remove(m as int));
            let ov = string_views(o0);
            let nv = string_views(o0.push(x));
            let rr = rv.remove(m as int);
            assert(nv =~= ov.push(x@));
            assert(x@ == rv[m as int]);
            assert forall|i: int, k: int| 0 <= i < k < nv.len() implies text_lt(#[trigger] nv[i], #[trigger] nv[k]) by {
                if k == ov.len() {
                    assert(text_lt(o0[i]@, r0[m as int]@));
                } else {
                    assert(nv[i] == ov[i] && nv[k] == ov[k]);
                }
            }
            assert forall|y: Seq<char>| #[trigger] all.contains(y)
                <==> nv.contains(y) || rr.contains(y) by {
                if ov.contains(y) {
                    let k = choose|k: int| 0 <= k < ov.len() && ov[k] == y;
                    assert(nv[k] == y);
                }
                if rv.contains(y) {
                    let k = choose|k: int| 0 <= k < rv.len() && rv[k] == y;
                    if k < m {
                        assert(rr[k] == y);
                    } else if k > m {
                        assert(rr[k - 1] == y);
                    } else {
                        assert(nv[ov.len() as int] == y);
                    }
                }
                if nv.contains(y) {
                    let k = choose|k: int| 0 <= k < nv.len() && nv[k] == y;
                    if k < ov.len() {
                        assert(ov[k] == y);
                        assert(ov.contains(y));
                    } else {
                        assert(rv[m as int] == y);
                        assert(rv.contains(y));
                    }
                }
                if rr.contains(y) {
                    let k = choose|k: int| 0 <= k < rr.len() && rr[k] == y;
                    if k < m {
                        assert(rv[k] == y);
                    } else {
                        assert(rv[k + 1] == y);
                    }
                    assert(rv.contains(y));
                }
            }
        }
        out.push(x);
    }
    proof {
        assert forall|x: Seq<char>| #[trigger] string_views(out@).contains(x) <==> all.contains(x) by {
            if string_views(rem@).contains(x) {
                let k = choose|k: int| 0 <= k < string_views(rem@).len() && string_views(rem@)[k] == x;
            }
        }
    }
    out
}

} // verus!
