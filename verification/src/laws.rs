//! Properties of the analysis, stated and proved once and for all: the
//! orphan report is a function of the tree alone, never lists an entry
//! point, is empty exactly when nothing is unreachable, and owes nothing
//! to declarations with inline bodies.

use vstd::prelude::*;

use crate::analyze::decls_at;
use crate::analyze::decl_step;
use crate::analyze::file_ok;
use crate::analyze::is_orphan;
use crate::analyze::reachable_any;
use crate::analyze::reaches_file;
use crate::analyze::visits;
use crate::lexord::lemma_lex_irrefl;
use crate::lexord::lemma_lex_trans;
use crate::lexord::lex_lt;
use crate::lexord::sorted_strict;
use crate::resolve::is_rs_path;
use crate::resolve::lib_path;
use crate::resolve::main_path;
use crate::tree::lookup;
use crate::tree::SourceFile;

verus! {

/// Two strictly sorted lists with the same members are the same list.
pub proof fn lemma_sorted_same_membership(r1: Seq<Seq<char>>, r2: Seq<Seq<char>>)
    requires
        sorted_strict(r1),
        sorted_strict(r2),
        forall|q: Seq<char>|
            #![trigger r1.contains(q)]
            #![trigger r2.contains(q)]
            (r1.contains(q) <==> r2.contains(q)),
    ensures
        r1 == r2,
    decreases r1.len(),
{
    if r1.len() == 0 && r2.len() == 0 {
        assert(r1 =~= r2);
    } else if r1.len() == 0 {
        assert(r2.contains(r2[0]));
        assert(r1.contains(r2[0]));
    } else if r2.len() == 0 {
        assert(r1.contains(r1[0]));
        assert(r2.contains(r1[0]));
    } else {
        assert(r1.contains(r1[0]));
        assert(r2.contains(r2[0]));
        let j = choose|j: int| 0 <= j < r2.len() && r2[j] == r1[0];
        let i = choose|i: int| 0 <= i < r1.len() && r1[i] == r2[0];
        assert(r1[0] == r2[0]) by {
            if j > 0 {
                assert(lex_lt(r2[0], r2[j]));
                if i > 0 {
                    assert(lex_lt(r1[0], r1[i]));
                    lemma_lex_trans(r1[0], r2[0], r1[0]);
                    lemma_lex_irrefl(r1[0]);
                } else {
                    lemma_lex_irrefl(r1[0]);
                }
            }
        }
        let t1 = r1.skip(1);
        let t2 = r2.skip(1);
        assert forall|q: Seq<char>| #[trigger] t1.contains(q) implies #[trigger] t2.contains(
            q,
        ) by {
            lemma_tail_membership(r1, q);
            lemma_tail_membership(r2, q);
        }
        assert forall|q: Seq<char>| #[trigger] t2.contains(q) implies #[trigger] t1.contains(
            q,
        ) by {
            lemma_tail_membership(r1, q);
            lemma_tail_membership(r2, q);
        }
        assert(sorted_strict(t1)) by {
            assert(forall|a: int, b: int|
                0 <= a < b < t1.len() ==> t1[a] == r1[a + 1] && t1[b] == r1[b + 1]);
        }
        assert(sorted_strict(t2)) by {
            assert(forall|a: int, b: int|
                0 <= a < b < t2.len() ==> t2[a] == r2[a + 1] && t2[b] == r2[b + 1]);
        }
        lemma_sorted_same_membership(t1, t2);
        assert forall|m: int| 0 <= m < r1.len() implies r1[m] == r2[m] by {
            if m > 0 {
                assert(r1[m] == t1[m - 1] && r2[m] == t2[m - 1]);
            }
        }
        assert(r1 =~= r2);
    }
}

/// In a strictly sorted list, the members of the tail are the members
/// other than the head.
proof fn lemma_tail_membership(r: Seq<Seq<char>>, q: Seq<char>)
    requires
        sorted_strict(r),
        r.len() > 0,
    ensures
        r.skip(1).contains(q) <==> (r.contains(q) && q != r[0]),
{
    let t = r.skip(1);
    if t.contains(q) {
        let m = choose|m: int| 0 <= m < t.len() && t[m] == q;
        assert(r[m + 1] == q);
        assert(r.contains(q));
        assert(lex_lt(r[0], r[m + 1]));
        lemma_lex_irrefl(q);
    }
    if r.contains(q) && q != r[0] {
        let m = choose|m: int| 0 <= m < r.len() && r[m] == q;
        assert(t[m - 1] == q);
        assert(t.contains(q));
    }
}

/// Idempotence: the orphan report is a function of the tree alone, so two
/// analyses of one unmodified tree return identical reports.
pub proof fn lemma_idempotent(t: Seq<SourceFile>, r1: Seq<Seq<char>>, r2: Seq<Seq<char>>)
    requires
        sorted_strict(r1),
        forall|q: Seq<char>| #[trigger] r1.contains(q) <==> is_orphan(t, q),
        sorted_strict(r2),
        forall|q: Seq<char>| #[trigger] r2.contains(q) <==> is_orphan(t, q),
    ensures
        r1 == r2,
{
    lemma_sorted_same_membership(r1, r2);
}

/// Entry-point exclusion: the entry points never appear in the orphan
/// report, though no declaration names them.
pub proof fn lemma_entry_points_excluded(t: Seq<SourceFile>, r: Seq<Seq<char>>)
    requires
        forall|q: Seq<char>| #[trigger] r.contains(q) <==> is_orphan(t, q),
    ensures
        !r.contains(main_path()),
        !r.contains(lib_path()),
{
}

/// Completeness: when every source file of the tree is an entry point or
/// reachable from one, the orphan report is empty.
pub proof fn lemma_completeness(t: Seq<SourceFile>, r: Seq<Seq<char>>)
    requires
        forall|q: Seq<char>| #[trigger] r.contains(q) <==> is_orphan(t, q),
        forall|q: Seq<char>|
            (lookup(t, q) is Some && #[trigger] is_rs_path(q)) ==> (q == main_path() || q
                == lib_path() || reachable_any(t, q)),
    ensures
        r.len() == 0,
{
    if r.len() > 0 {
        assert(r.contains(r[0]));
        assert(is_orphan(t, r[0]));
    }
}

/// Soundness: a source file of the tree that is not an entry point and
/// that no entry point reaches appears in the orphan report.
pub proof fn lemma_soundness(t: Seq<SourceFile>, r: Seq<Seq<char>>, q: Seq<char>)
    requires
        forall|p: Seq<char>| #[trigger] r.contains(p) <==> is_orphan(t, p),
        lookup(t, q) is Some,
        is_rs_path(q),
        q != main_path(),
        q != lib_path(),
        !reachable_any(t, q),
    ensures
        r.contains(q),
{
}

/// Inline-body exemption: only a declaration without an inline body ever
/// resolves to a file, so in a tree whose declarations all carry inline
/// bodies nothing is reachable at all.
pub proof fn lemma_inline_exempt(t: Seq<SourceFile>, root: Seq<char>, entry: bool, q: Seq<char>)
    requires
        forall|p: Seq<char>, i: int|
            file_ok(t, p) && 0 <= i < decls_at(t, p).len() ==> (#[trigger] decls_at(t, p)[i]).1,
    ensures
        !reaches_file(t, root, entry, q),
{
    if reaches_file(t, root, entry, q) {
        let pr = choose|pr: (Seq<char>, bool)|
            visits(t, root, entry, pr.0, pr.1) && decl_step(t, pr.0, pr.1, q);
        assert(decl_step(t, pr.0, pr.1, q));
        let i = choose|i: int|
            0 <= i < decls_at(t, pr.0).len() && !(#[trigger] decls_at(t, pr.0)[i]).1 && q
                == crate::resolve::resolve_path(pr.0, decls_at(t, pr.0)[i].0, pr.1);
        assert(decls_at(t, pr.0)[i].1);
    }
}

} // verus!
