//! Strict lexicographic order on paths, and insertion into a sorted list.
//!
//! Orphan reports are ordered deterministically: paths are compared by code
//! point, and the report is a strictly increasing list, so equal inputs give
//! equal output in one order.

use vstd::prelude::*;
use vstd::string::StrSliceExecFns;

verus! {

/// Strict lexicographic order on character sequences, by code point.
pub open spec fn lex_lt(a: Seq<char>, b: Seq<char>) -> bool
    decreases a.len(),
{
    if b.len() == 0 {
        false
    } else if a.len() == 0 {
        true
    } else if (a[0] as u32) < (b[0] as u32) {
        true
    } else if a[0] == b[0] {
        lex_lt(a.skip(1), b.skip(1))
    } else {
        false
    }
}

/// A strictly increasing sequence of paths: sorted, with no repetition.
pub open spec fn sorted_strict(s: Seq<Seq<char>>) -> bool {
    forall|i: int, j: int| 0 <= i < j < s.len() ==> lex_lt(s[i], s[j])
}

/// Characters with the same code point are the same character.
proof fn lemma_char_code_inj(c: char, d: char)
    requires
        c as u32 == d as u32,
    ensures
        c == d,
{
}

pub proof fn lemma_lex_irrefl(a: Seq<char>)
    ensures
        !lex_lt(a, a),
    decreases a.len(),
{
    if a.len() > 0 {
        lemma_lex_irrefl(a.skip(1));
    }
}

pub proof fn lemma_lex_trichotomy(a: Seq<char>, b: Seq<char>)
    ensures
        lex_lt(a, b) || lex_lt(b, a) || a == b,
    decreases a.len(),
{
    if a.len() == 0 && b.len() == 0 {
        assert(a =~= b);
    } else if a.len() > 0 && b.len() > 0 {
        if a[0] == b[0] {
            lemma_lex_trichotomy(a.skip(1), b.skip(1));
            if !lex_lt(a, b) && !lex_lt(b, a) {
                assert(a.skip(1) =~= b.skip(1));
                assert forall|i: int| 0 <= i < a.len() implies a[i] == b[i] by {
                    if i > 0 {
                        assert(a[i] == a.skip(1)[i - 1]);
                    }
                }
                assert(a =~= b);
            }
        } else {
            assert((a[0] as u32) != (b[0] as u32)) by {
                if (a[0] as u32) == (b[0] as u32) {
                    lemma_char_code_inj(a[0], b[0]);
                }
            }
            if (a[0] as u32) < (b[0] as u32) {
                assert(lex_lt(a, b));
            } else {
                assert((b[0] as u32) < (a[0] as u32));
                assert(lex_lt(b, a));
            }
        }
    }
}

pub proof fn lemma_lex_trans(a: Seq<char>, b: Seq<char>, c: Seq<char>)
    requires
        lex_lt(a, b),
        lex_lt(b, c),
    ensures
        lex_lt(a, c),
    decreases a.len(),
{
    if a.len() > 0 {
        if a[0] == b[0] && b[0] == c[0] {
            lemma_lex_trans(a.skip(1), b.skip(1), c.skip(1));
        }
    }
}

/// With the first `i` characters equal, the order is decided by the rest.
pub proof fn lemma_lex_skip(a: Seq<char>, b: Seq<char>, i: int)
    requires
        0 <= i <= a.len(),
        i <= b.len(),
        forall|j: int| 0 <= j < i ==> a[j] == b[j],
    ensures
        lex_lt(a, b) == lex_lt(a.skip(i), b.skip(i)),
    decreases i,
{
    if i == 0 {
        assert(a.skip(0) =~= a);
        assert(b.skip(0) =~= b);
    } else {
        assert(a[0] == b[0]);
        lemma_lex_skip(a.skip(1), b.skip(1), i - 1);
        assert(a.skip(1).skip(i - 1) =~= a.skip(i));
        assert(b.skip(1).skip(i - 1) =~= b.skip(i));
    }
}

/// Decides `lex_lt` on two strings.
pub fn str_lt(a: &str, b: &str) -> (r: bool)
    ensures
        r == lex_lt(a@, b@),
{
    let alen = a.unicode_len();
    let blen = b.unicode_len();
    let mut i: usize = 0;
    loop
        invariant
            0 <= i <= alen,
            i <= blen,
            alen == a@.len(),
            blen == b@.len(),
            forall|j: int| 0 <= j < i ==> a@[j] == b@[j],
        decreases alen - i,
    {
        proof {
            lemma_lex_skip(a@, b@, i as int);
        }
        if i == blen {
            return false;
        }
        if i == alen {
            return true;
        }
        let ca = a.get_char(i);
        let cb = b.get_char(i);
        if ca == cb {
            i += 1;
        } else {
            return (ca as u32) < (cb as u32);
        }
    }
}

/// Whether the list holds this path.
pub fn contains_str(v: &Vec<String>, q: &String) -> (r: bool)
    ensures
        r == v.deep_view().contains(q@),
{
    let n = v.len();
    let mut i: usize = 0;
    while i < n
        invariant
            0 <= i <= n,
            n == v@.len(),
            forall|j: int| 0 <= j < i ==> #[trigger] v.deep_view()[j] != q@,
        decreases n - i,
    {
        if v[i].eq(q) {
            proof {
                assert(v.deep_view()[i as int] == q@);
            }
            return true;
        }
        i += 1;
    }
    proof {
        if v.deep_view().contains(q@) {
            let j = choose|j: int| 0 <= j < v.deep_view().len() && v.deep_view()[j] == q@;
            assert(v.deep_view()[j] != q@);
        }
    }
    false
}

/// Inserts a path into a strictly sorted list, keeping it sorted; a path
/// already present is left alone.
pub fn insert_sorted(v: &mut Vec<String>, s: &String)
    requires
        sorted_strict(old(v).deep_view()),
    ensures
        sorted_strict(final(v).deep_view()),
        forall|q: Seq<char>|
            #[trigger] final(v).deep_view().contains(q) <==> (old(v).deep_view().contains(q) || q
                == s@),
{
    let ghost dv0 = old(v).deep_view();
    let mut idx: usize = 0;
    while idx < v.len() && str_lt(v[idx].as_str(), s.as_str())
        invariant
            0 <= idx <= v.len(),
            *v == *old(v),
            forall|j: int| 0 <= j < idx ==> lex_lt(#[trigger] v.deep_view()[j], s@),
        decreases v.len() - idx,
    {
        idx += 1;
    }
    if idx < v.len() && s.eq(&v[idx]) {
        proof {
            assert(v.deep_view()[idx as int] == s@);
            assert(v.deep_view().contains(s@));
        }
        return ;
    }
    proof {
        if idx < v.len() {
            lemma_lex_trichotomy(v.deep_view()[idx as int], s@);
            assert(lex_lt(s@, v.deep_view()[idx as int]));
        }
    }
    v.insert(idx, s.clone());
    proof {
        let dv = v.deep_view();
        assert forall|k: int| 0 <= k < dv.len() implies dv[k] == (if k < idx {
            dv0[k]
        } else if k == idx {
            s@
        } else {
            dv0[k - 1]
        }) by {
            assert(v@ == old(v)@.insert(idx as int, *s));
        }
        assert forall|i: int, j: int| 0 <= i < j < dv.len() implies lex_lt(dv[i], dv[j]) by {
            if i < idx && j == idx {
                assert(lex_lt(dv0[i], s@));
            } else if i == idx && j > idx {
                if idx < dv0.len() {
                    if lex_lt(s@, dv0[j - 1]) {
                    } else {
                        assert(lex_lt(s@, dv0[idx as int]));
                        if j - 1 > idx {
                            lemma_lex_trans(s@, dv0[idx as int], dv0[j - 1]);
                        }
                    }
                }
            } else if i < idx && j > idx {
                assert(lex_lt(dv0[i], dv0[j - 1]));
            }
        }
        assert forall|q: Seq<char>| #[trigger] dv.contains(q) implies (dv0.contains(q) || q
            == s@) by {
            let k = choose|k: int| 0 <= k < dv.len() && dv[k] == q;
            if k < idx {
                assert(dv0[k] == q);
            } else if k > idx {
                assert(dv0[k - 1] == q);
            }
        }
        assert forall|q: Seq<char>| dv0.contains(q) implies #[trigger] dv.contains(q) by {
            let k = choose|k: int| 0 <= k < dv0.len() && dv0[k] == q;
            if k < idx {
                assert(dv[k] == q);
            } else {
                assert(dv[k + 1] == q);
            }
        }
        assert(dv[idx as int] == s@);
        assert(dv.contains(s@));
    }
}

} // verus!
