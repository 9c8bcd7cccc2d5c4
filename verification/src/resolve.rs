//! Resolution of a module declaration to the file it must live in.
//!
//! A declaration `mod name;` in a file `p` resolves to `name.rs` in the same
//! directory when `p` is an entry point, and to `name.rs` under a directory
//! named after `p`'s own stem otherwise, so nesting adds one directory per
//! level.

use vstd::prelude::*;
use vstd::string::StrSliceExecFns;
use vstd::string::StringExecFns;

verus! {

/// True when the path ends in the source-file suffix `.rs`.
pub open spec fn is_rs_path(p: Seq<char>) -> bool {
    p.len() >= 3 && p[p.len() - 3] == '.' && p[p.len() - 2] == 'r' && p[p.len() - 1] == 's'
}

/// True when the sequence contains no path separator.
pub open spec fn no_slash(s: Seq<char>) -> bool {
    forall|j: int| 0 <= j < s.len() ==> s[j] != '/'
}

/// Index of the last `/` in the path, or `-1` when there is none.
pub open spec fn last_slash(p: Seq<char>) -> int
    decreases p.len(),
{
    if p.len() == 0 {
        -1
    } else if p[p.len() - 1] == '/' {
        p.len() - 1
    } else {
        last_slash(p.drop_last())
    }
}

/// The path's directory part, up to and including the last `/`; empty when
/// the path has no separator.
pub open spec fn dir_of(p: Seq<char>) -> Seq<char> {
    p.subrange(0, last_slash(p) + 1)
}

/// The path's file name without the `.rs` suffix.
pub open spec fn stem_of(p: Seq<char>) -> Seq<char> {
    p.subrange(last_slash(p) + 1, p.len() - 3)
}

pub open spec fn rs_suffix() -> Seq<char> {
    seq!['.', 'r', 's']
}

pub open spec fn slash() -> Seq<char> {
    seq!['/']
}

/// The file a declaration named `name` in file `p` must resolve to.
pub open spec fn resolve_path(p: Seq<char>, name: Seq<char>, entry: bool) -> Seq<char> {
    if entry {
        dir_of(p) + name + rs_suffix()
    } else {
        dir_of(p) + stem_of(p) + slash() + name + rs_suffix()
    }
}

pub open spec fn main_path() -> Seq<char> {
    seq!['s', 'r', 'c', '/', 'm', 'a', 'i', 'n', '.', 'r', 's']
}

pub open spec fn lib_path() -> Seq<char> {
    seq!['s', 'r', 'c', '/', 'l', 'i', 'b', '.', 'r', 's']
}

pub proof fn lemma_last_slash_props(p: Seq<char>)
    ensures
        -1 <= last_slash(p) < p.len(),
        last_slash(p) >= 0 ==> p[last_slash(p)] == '/',
        forall|j: int| last_slash(p) < j < p.len() ==> p[j] != '/',
    decreases p.len(),
{
    if p.len() > 0 && p[p.len() - 1] != '/' {
        lemma_last_slash_props(p.drop_last());
        assert forall|j: int| last_slash(p) < j < p.len() implies p[j] != '/' by {
            if j < p.len() - 1 {
                assert(p.drop_last()[j] != '/');
            }
        }
    }
}

/// Appending separator-free text does not move the last `/`.
pub proof fn lemma_last_slash_concat(d: Seq<char>, t: Seq<char>)
    requires
        no_slash(t),
    ensures
        last_slash(d + t) == last_slash(d),
    decreases t.len(),
{
    if t.len() == 0 {
        assert(d + t =~= d);
    } else {
        assert((d + t)[(d + t).len() - 1] == t[t.len() - 1]);
        assert((d + t).drop_last() =~= d + t.drop_last());
        assert(no_slash(t.drop_last())) by {
            assert(forall|j: int| 0 <= j < t.len() - 1 ==> t.drop_last()[j] == t[j]);
        }
        lemma_last_slash_concat(d, t.drop_last());
    }
}

/// A `.rs` path keeps its last `/` strictly before the suffix.
pub proof fn lemma_last_slash_rs(p: Seq<char>)
    requires
        is_rs_path(p),
    ensures
        -1 <= last_slash(p) <= p.len() - 4,
{
    lemma_last_slash_props(p);
    let ls = last_slash(p);
    if ls > p.len() - 4 {
        assert(p[ls] == '/');
    }
}

/// Nesting resolves one directory deeper per level: from an entry point, a
/// declaration `n1` resolves next to the entry, and a declaration `n2` in
/// that file resolves under a directory named `n1`, not flattened.
#[verifier::rlimit(50)]
pub proof fn lemma_nested_resolution(p: Seq<char>, n1: Seq<char>, n2: Seq<char>)
    requires
        is_rs_path(p),
        no_slash(n1),
        no_slash(n2),
    ensures
        resolve_path(p, n1, true) == dir_of(p) + n1 + rs_suffix(),
        resolve_path(resolve_path(p, n1, true), n2, false) == dir_of(p) + n1 + slash() + n2
            + rs_suffix(),
{
    let d = dir_of(p);
    let q = resolve_path(p, n1, true);
    lemma_last_slash_props(p);
    let tail = n1 + rs_suffix();
    assert(no_slash(tail)) by {
        assert(forall|j: int|
            0 <= j < tail.len() ==> tail[j] == (if j < n1.len() {
                n1[j]
            } else {
                rs_suffix()[j - n1.len()]
            }));
    }
    assert(q =~= d + tail);
    lemma_last_slash_concat(d, tail);
    assert(last_slash(q) == last_slash(d));
    let ls = last_slash(p);
    if ls >= 0 {
        assert(d.len() == ls + 1);
        assert(d[d.len() - 1] == p[ls]);
        assert(last_slash(d) == ls);
    } else {
        assert(d.len() == 0);
    }
    assert(last_slash(q) + 1 == d.len());
    assert(dir_of(q) =~= d);
    assert(stem_of(q) =~= n1);
    assert(resolve_path(q, n2, false) =~= d + n1 + slash() + n2 + rs_suffix());
}

/// A resolved candidate always ends in the source-file suffix.
pub proof fn lemma_resolve_is_rs(p: Seq<char>, name: Seq<char>, entry: bool)
    ensures
        is_rs_path(resolve_path(p, name, entry)),
{
    let r = resolve_path(p, name, entry);
    assert(r.len() >= 3);
    assert(r[r.len() - 3] == rs_suffix()[0]);
    assert(r[r.len() - 2] == rs_suffix()[1]);
    assert(r[r.len() - 1] == rs_suffix()[2]);
}

/// Decides `is_rs_path`.
pub fn ends_with_rs(p: &str) -> (r: bool)
    ensures
        r == is_rs_path(p@),
{
    let n = p.unicode_len();
    if n < 3 {
        return false;
    }
    let c1 = p.get_char(n - 3);
    let c2 = p.get_char(n - 2);
    let c3 = p.get_char(n - 1);
    c1 == '.' && c2 == 'r' && c3 == 's'
}

/// Computes `resolve_path` for a declaration `name` found in file `p`.
pub fn resolve_candidate(p: &str, name: &str, entry: bool) -> (r: String)
    requires
        is_rs_path(p@),
    ensures
        r@ == resolve_path(p@, name@, entry),
{
    let plen = p.unicode_len();
    let mut cut: usize = 0;
    let mut i: usize = 0;
    while i < plen
        invariant
            0 <= i <= plen,
            plen == p@.len(),
            cut == 0 || (1 <= cut <= i && p@[cut - 1] == '/'),
            forall|j: int| cut <= j < i ==> p@[j] != '/',
        decreases plen - i,
    {
        if p.get_char(i) == '/' {
            cut = i + 1;
        }
        i += 1;
    }
    proof {
        if cut == 0 {
            assert(last_slash(p@) == -1) by {
                lemma_last_slash_props(p@);
                if last_slash(p@) >= 0 {
                    assert(p@[last_slash(p@)] == '/');
                }
            }
        } else {
            assert(last_slash(p@) == cut - 1) by {
                lemma_last_slash_props(p@);
                if last_slash(p@) > cut - 1 {
                    assert(p@[last_slash(p@)] == '/');
                } else if last_slash(p@) < cut - 1 {
                    assert(p@[cut - 1] != '/');
                }
            }
        }
        assert(cut == last_slash(p@) + 1);
        lemma_last_slash_rs(p@);
        reveal_strlit(".rs");
        reveal_strlit("/");
        assert(".rs"@ =~= rs_suffix());
        assert("/"@ =~= slash());
    }
    let dir = p.substring_char(0, cut);
    let mut out = dir.to_owned();
    if entry {
        out.append(name);
        out.append(".rs");
        proof {
            assert(out@ =~= resolve_path(p@, name@, true));
        }
    } else {
        let stem = p.substring_char(cut, plen - 3);
        out.append(stem);
        out.append("/");
        out.append(name);
        out.append(".rs");
        proof {
            assert(out@ =~= resolve_path(p@, name@, false));
        }
    }
    out
}

/// The conventional binary entry point, `src/main.rs`.
pub fn main_entry() -> (r: String)
    ensures
        r@ == main_path(),
{
    let s = "src/main.rs".to_owned();
    proof {
        reveal_strlit("src/main.rs");
        assert(s@ =~= main_path());
    }
    s
}

/// The conventional library entry point, `src/lib.rs`.
pub fn lib_entry() -> (r: String)
    ensures
        r@ == lib_path(),
{
    let s = "src/lib.rs".to_owned();
    proof {
        reveal_strlit("src/lib.rs");
        assert(s@ =~= lib_path());
    }
    s
}

} // verus!
