//! The module-reachability analysis and the orphan set.
//!
//! Starting from the entry points, the traversal follows every file-backed
//! `mod` declaration to the file it resolves to, accumulating the reachable
//! set; the orphan set is every source file of the tree that is neither an
//! entry point nor reachable. The traversal is all or nothing: a missing
//! file, a text that does not parse, or a declaration whose candidate file
//! does not exist aborts the whole analysis.

use vstd::prelude::*;

use crate::decls::decls_view;
use crate::decls::mod_decls_of;
use crate::decls::parse_mod_decls;
use crate::lexord::contains_str;
use crate::lexord::insert_sorted;
use crate::lexord::lex_lt;
use crate::lexord::sorted_strict;
use crate::resolve::is_rs_path;
use crate::resolve::lemma_resolve_is_rs;
use crate::resolve::lib_entry;
use crate::resolve::lib_path;
use crate::resolve::main_entry;
use crate::resolve::main_path;
use crate::resolve::resolve_candidate;
use crate::resolve::resolve_path;
use crate::tree::lemma_lookup_mem;
use crate::tree::lookup;
use crate::tree::SourceFile;
use crate::tree::SourceTree;

verus! {

/// Why an analysis stopped; the offending path is carried along.
#[derive(Debug)]
pub enum AnalysisError {
    /// A file whose text was needed is missing from the tree.
    Io { path: String },
    /// A file's text is not syntactically valid source.
    Parse { path: String },
    /// A declaration resolved to a candidate file that does not exist.
    Resolution { path: String },
    /// The tree holds neither `src/main.rs` nor `src/lib.rs`.
    NoEntryPoint,
}

/// The file at `p` is present and its text parses.
pub open spec fn file_ok(t: Seq<SourceFile>, p: Seq<char>) -> bool {
    lookup(t, p) is Some && mod_decls_of(lookup(t, p)->Some_0) is Some
}

/// The declarations of the file at `p`.
pub open spec fn decls_at(t: Seq<SourceFile>, p: Seq<char>) -> Seq<(Seq<char>, bool)> {
    mod_decls_of(lookup(t, p)->Some_0)->Some_0
}

/// One resolution step: the file at `p`, traversed with entry flag `e`, has
/// a file-backed declaration that resolves to `q`.
pub open spec fn decl_step(t: Seq<SourceFile>, p: Seq<char>, e: bool, q: Seq<char>) -> bool {
    file_ok(t, p) && exists|i: int|
        0 <= i < decls_at(t, p).len() && !(#[trigger] decls_at(t, p)[i]).1 && q == resolve_path(
            p,
            decls_at(t, p)[i].0,
            e,
        )
}

/// A traversal chain from the root: pairs of path and entry flag, each
/// reached from the one before by one resolution step.
pub open spec fn is_chain(
    t: Seq<SourceFile>,
    root: Seq<char>,
    entry: bool,
    c: Seq<(Seq<char>, bool)>,
) -> bool {
    c.len() > 0 && c[0] == (root, entry) && forall|i: int|
        1 <= i < c.len() ==> decl_step(t, c[i - 1].0, c[i - 1].1, (#[trigger] c[i]).0) && c[i].1
            == false
}

/// The traversal starting at `root` visits the file at `p` with flag `e`.
pub open spec fn visits(
    t: Seq<SourceFile>,
    root: Seq<char>,
    entry: bool,
    p: Seq<char>,
    e: bool,
) -> bool {
    exists|c: Seq<(Seq<char>, bool)>| is_chain(t, root, entry, c) && c.last() == (p, e)
}

/// `q` is resolved from some visited file: it is in the reachable set.
pub open spec fn reaches_file(
    t: Seq<SourceFile>,
    root: Seq<char>,
    entry: bool,
    q: Seq<char>,
) -> bool {
    exists|pr: (Seq<char>, bool)| visits(t, root, entry, pr.0, pr.1) && decl_step(t, pr.0, pr.1, q)
}

/// The file at `p` is present, parses, and every file-backed declaration in
/// it resolves to a file that exists in the tree.
pub open spec fn pair_clean(t: Seq<SourceFile>, p: Seq<char>, e: bool) -> bool {
    file_ok(t, p) && forall|i: int|
        0 <= i < decls_at(t, p).len() && !(#[trigger] decls_at(t, p)[i]).1 ==> lookup(
            t,
            resolve_path(p, decls_at(t, p)[i].0, e),
        ) is Some
}

/// The whole traversal from `root` goes through without a defect.
pub open spec fn closure_clean(t: Seq<SourceFile>, root: Seq<char>, entry: bool) -> bool {
    forall|p: Seq<char>, e: bool| visits(t, root, entry, p, e) ==> pair_clean(t, p, e)
}

/// What an error returned by the traversal from `root` tells of the tree.
pub open spec fn error_witness(
    t: Seq<SourceFile>,
    root: Seq<char>,
    entry: bool,
    err: AnalysisError,
) -> bool {
    match err {
        AnalysisError::Io { path } => lookup(t, path@) is None && exists|e: bool|
            visits(t, root, entry, path@, e),
        AnalysisError::Parse { path } => lookup(t, path@) is Some && mod_decls_of(
            lookup(t, path@)->Some_0,
        ) is None && exists|e: bool| visits(t, root, entry, path@, e),
        AnalysisError::Resolution { path } => lookup(t, path@) is None && exists|
            pr: (Seq<char>, bool),
        |
            visits(t, root, entry, pr.0, pr.1) && decl_step(t, pr.0, pr.1, path@),
        AnalysisError::NoEntryPoint => false,
    }
}

spec fn pair_view(pr: (String, bool)) -> (Seq<char>, bool) {
    (pr.0@, pr.1)
}

spec fn visited_pairs(s: Seq<(String, bool)>) -> Seq<(Seq<char>, bool)> {
    s.map_values(|pr: (String, bool)| pair_view(pr))
}

/// Every path-and-flag pair the tree can put on the visit list.
spec fn tree_pairs(t: Seq<SourceFile>) -> Set<(Seq<char>, bool)> {
    t.map_values(|f: SourceFile| (f.path@, true)).to_set().union(
        t.map_values(|f: SourceFile| (f.path@, false)).to_set(),
    )
}

/// A visit list without repetition, each entry backed by a tree file, has
/// at most two entries per file; the traversal therefore terminates.
proof fn lemma_visited_bound(t: Seq<SourceFile>, s: Seq<(String, bool)>)
    requires
        forall|k: int| 0 <= k < s.len() ==> lookup(t, (#[trigger] s[k]).0@) is Some,
        forall|k1: int, k2: int| 0 <= k1 < k2 < s.len() ==> pair_view(s[k1]) != pair_view(s[k2]),
    ensures
        s.len() <= 2 * t.len(),
{
    broadcast use vstd::seq_lib::group_seq_lib_default;
    broadcast use vstd::set::group_set_axioms;

    let sv = visited_pairs(s);
    assert(sv.no_duplicates()) by {
        assert(forall|k1: int, k2: int|
            0 <= k1 < k2 < sv.len() ==> sv[k1] == pair_view(s[k1]) && sv[k2] == pair_view(s[k2]));
    }
    sv.unique_seq_to_set();
    let tt = t.map_values(|f: SourceFile| (f.path@, true));
    let tf = t.map_values(|f: SourceFile| (f.path@, false));
    assert forall|pr: (Seq<char>, bool)| sv.to_set().contains(pr) implies tree_pairs(t).contains(
        pr,
    ) by {
        let k = choose|k: int| 0 <= k < sv.len() && sv[k] == pr;
        assert(pr == pair_view(s[k]));
        assert(lookup(t, pr.0) is Some);
        lemma_lookup_mem(t, pr.0);
        let j = choose|j: int| 0 <= j < t.len() && (#[trigger] t[j]).path@ == pr.0;
        if pr.1 {
            assert(tt[j] == pr);
            assert(tt.to_set().contains(pr));
        } else {
            assert(tf[j] == pr);
            assert(tf.to_set().contains(pr));
        }
    }
    vstd::set_lib::lemma_len_subset(sv.to_set(), tree_pairs(t));
    tt.lemma_cardinality_of_set();
    tf.lemma_cardinality_of_set();
    vstd::set_lib::lemma_len_union(tt.to_set(), tf.to_set());
}

spec fn in_list(s: Seq<(String, bool)>, p: Seq<char>, e: bool) -> bool {
    exists|k: int| 0 <= k < s.len() && (#[trigger] s[k]).0@ == p && s[k].1 == e
}

fn pair_in(v: &Vec<(String, bool)>, p: &String, e: bool) -> (r: bool)
    ensures
        r == in_list(v@, p@, e),
{
    let n = v.len();
    let mut i: usize = 0;
    while i < n
        invariant
            0 <= i <= n,
            n == v@.len(),
            forall|k: int| 0 <= k < i ==> !((#[trigger] v@[k]).0@ == p@ && v@[k].1 == e),
        decreases n - i,
    {
        if v[i].0.eq(p) && v[i].1 == e {
            return true;
        }
        i += 1;
    }
    false
}

/// The state the traversal maintains: every pending and every handled pair
/// was visited; handled pairs are clean and their resolutions are recorded,
/// in the accumulating set and on one of the two lists; the accumulating
/// set is sorted and holds, beyond what it started with, only reachable
/// files; the handled list never repeats a pair.
spec fn wl_inv(
    t: Seq<SourceFile>,
    root: Seq<char>,
    e0: bool,
    pv0: Seq<Seq<char>>,
    todo: Seq<(String, bool)>,
    visited: Seq<(String, bool)>,
    paths: Seq<Seq<char>>,
) -> bool {
    &&& sorted_strict(paths)
    &&& forall|k: int|
        0 <= k < todo.len() ==> visits(t, root, e0, (#[trigger] todo[k]).0@, todo[k].1)
            && is_rs_path(todo[k].0@)
    &&& forall|k: int|
        0 <= k < visited.len() ==> visits(t, root, e0, (#[trigger] visited[k]).0@, visited[k].1)
            && pair_clean(t, visited[k].0@, visited[k].1)
    &&& forall|k: int, q: Seq<char>|
        0 <= k < visited.len() && #[trigger] decl_step(
            t,
            (#[trigger] visited[k]).0@,
            visited[k].1,
            q,
        ) ==> paths.contains(q) && (in_list(todo, q, false) || in_list(visited, q, false))
    &&& forall|q: Seq<char>|
        #[trigger] paths.contains(q) ==> pv0.contains(q) || reaches_file(t, root, e0, q)
    &&& forall|q: Seq<char>| pv0.contains(q) ==> #[trigger] paths.contains(q)
    &&& forall|k1: int, k2: int|
        0 <= k1 < k2 < visited.len() ==> pair_view(visited[k1]) != pair_view(visited[k2])
}

/// `wl_inv` while the pair `(curp, cure)` is in hand: that pair has been
/// taken off the pending list, so a resolution recorded only there may
/// instead be the pair itself.
spec fn wl_inv_mid(
    t: Seq<SourceFile>,
    root: Seq<char>,
    e0: bool,
    pv0: Seq<Seq<char>>,
    todo: Seq<(String, bool)>,
    visited: Seq<(String, bool)>,
    paths: Seq<Seq<char>>,
    curp: Seq<char>,
    cure: bool,
) -> bool {
    &&& sorted_strict(paths)
    &&& forall|k: int|
        0 <= k < todo.len() ==> visits(t, root, e0, (#[trigger] todo[k]).0@, todo[k].1)
            && is_rs_path(todo[k].0@)
    &&& forall|k: int|
        0 <= k < visited.len() ==> visits(t, root, e0, (#[trigger] visited[k]).0@, visited[k].1)
            && pair_clean(t, visited[k].0@, visited[k].1)
    &&& forall|k: int, q: Seq<char>|
        0 <= k < visited.len() && #[trigger] decl_step(
            t,
            (#[trigger] visited[k]).0@,
            visited[k].1,
            q,
        ) ==> paths.contains(q) && (in_list(todo, q, false) || in_list(visited, q, false) || (q
            == curp && cure == false))
    &&& forall|q: Seq<char>|
        #[trigger] paths.contains(q) ==> pv0.contains(q) || reaches_file(t, root, e0, q)
    &&& forall|q: Seq<char>| pv0.contains(q) ==> #[trigger] paths.contains(q)
    &&& forall|k1: int, k2: int|
        0 <= k1 < k2 < visited.len() ==> pair_view(visited[k1]) != pair_view(visited[k2])
}

/// Handles one popped pair: parses the file, resolves its file-backed
/// declarations, records each candidate, and appends the pair to the
/// handled list.
#[verifier::rlimit(100)]
fn process_file(
    paths: &mut Vec<String>,
    todo: &mut Vec<(String, bool)>,
    visited: &mut Vec<(String, bool)>,
    tree: &SourceTree,
    cur: String,
    cure: bool,
    Ghost(root): Ghost<Seq<char>>,
    Ghost(e0): Ghost<bool>,
    Ghost(pv0): Ghost<Seq<Seq<char>>>,
) -> (r: Result<(), AnalysisError>)
    requires
        wl_inv_mid(
            tree.files@,
            root,
            e0,
            pv0,
            old(todo)@,
            old(visited)@,
            old(paths).deep_view(),
            cur@,
            cure,
        ),
        visits(tree.files@, root, e0, cur@, cure),
        is_rs_path(cur@),
        !in_list(old(visited)@, cur@, cure),
    ensures
        match r {
            Ok(_) => wl_inv(
                tree.files@,
                root,
                e0,
                pv0,
                final(todo)@,
                final(visited)@,
                final(paths).deep_view(),
            ) && final(visited)@.len() == old(visited)@.len() + 1 && final(visited)@.last().0@
                == cur@ && final(visited)@.last().1 == cure && (forall|k: int|
                0 <= k < old(visited)@.len() ==> final(visited)@[k] == old(visited)@[k])
                && final(todo)@.len() >= old(todo)@.len() && (forall|k: int|
                0 <= k < old(todo)@.len() ==> final(todo)@[k] == old(todo)@[k]),
            Err(e) => !closure_clean(tree.files@, root, e0) && error_witness(
                tree.files@,
                root,
                e0,
                e,
            ),
        },
{
    let ghost t = tree.files@;
    let text = match tree.get_text(&cur) {
        Some(text) => text,
        None => {
            proof {
                assert(!closure_clean(t, root, e0)) by {
                    if closure_clean(t, root, e0) {
                        assert(pair_clean(t, cur@, cure));
                    }
                }
            }
            return Err(AnalysisError::Io { path: cur });
        },
    };
    let ds = match parse_mod_decls(text.as_str()) {
        Some(ds) => ds,
        None => {
            proof {
                assert(!closure_clean(t, root, e0)) by {
                    if closure_clean(t, root, e0) {
                        assert(pair_clean(t, cur@, cure));
                    }
                }
            }
            return Err(AnalysisError::Parse { path: cur });
        },
    };
    proof {
        assert(file_ok(t, cur@));
        assert(decls_at(t, cur@) == decls_view(ds@));
    }
    let n = ds.len();
    let mut di: usize = 0;
    while di < n
        invariant
            0 <= di <= n,
            n == ds@.len(),
            file_ok(t, cur@),
            decls_at(t, cur@) == decls_view(ds@),
            visits(t, root, e0, cur@, cure),
            is_rs_path(cur@),
            !in_list(visited@, cur@, cure),
            wl_inv_mid(t, root, e0, pv0, todo@, visited@, paths.deep_view(), cur@, cure),
            t == tree.files@,
            forall|j: int|
                0 <= j < di && !(#[trigger] decls_at(t, cur@)[j]).1 ==> lookup(
                    t,
                    resolve_path(cur@, decls_at(t, cur@)[j].0, cure),
                ) is Some && paths.deep_view().contains(
                    resolve_path(cur@, decls_at(t, cur@)[j].0, cure),
                ) && in_list(todo@, resolve_path(cur@, decls_at(t, cur@)[j].0, cure), false),
            forall|k: int| 0 <= k < old(visited)@.len() ==> visited@[k] == old(visited)@[k],
            visited@.len() == old(visited)@.len(),
            forall|k: int| 0 <= k < old(todo)@.len() ==> todo@[k] == old(todo)@[k],
            todo@.len() >= old(todo)@.len(),
        decreases n - di,
    {
        let inline = ds[di].has_inline_body;
        proof {
            assert(decls_view(ds@)[di as int] == (ds@[di as int].name@,
            ds@[di as int].has_inline_body));
        }
        if !inline {
            let cand = resolve_candidate(cur.as_str(), ds[di].name.as_str(), cure);
            proof {
                assert(cand@ == resolve_path(cur@, decls_at(t, cur@)[di as int].0, cure));
                assert(!(decls_at(t, cur@)[di as int]).1);
                assert(decl_step(t, cur@, cure, cand@));
                lemma_resolve_is_rs(cur@, decls_at(t, cur@)[di as int].0, cure);
            }
            if !tree.contains_path(&cand) {
                proof {
                    assert(!pair_clean(t, cur@, cure)) by {
                        if pair_clean(t, cur@, cure) {
                            assert(!(#[trigger] decls_at(t, cur@)[di as int]).1);
                        }
                    }
                    assert(!closure_clean(t, root, e0)) by {
                        if closure_clean(t, root, e0) {
                            assert(pair_clean(t, cur@, cure));
                        }
                    }
                    assert(error_witness(t, root, e0, AnalysisError::Resolution { path: cand }))
                        by {
                        let pr0 = (cur@, cure);
                        assert(visits(t, root, e0, pr0.0, pr0.1) && decl_step(
                            t,
                            pr0.0,
                            pr0.1,
                            cand@,
                        ));
                    }
                }
                return Err(AnalysisError::Resolution { path: cand });
            }
            proof {
                assert(reaches_file(t, root, e0, cand@)) by {
                    let pr0 = (cur@, cure);
                    assert(visits(t, root, e0, pr0.0, pr0.1) && decl_step(t, pr0.0, pr0.1, cand@));
                }
                assert(visits(t, root, e0, cand@, false)) by {
                    let c = choose|c: Seq<(Seq<char>, bool)>|
                        is_chain(t, root, e0, c) && c.last() == (cur@, cure);
                    let c2 = c.push((cand@, false));
                    assert(is_chain(t, root, e0, c2)) by {
                        assert(forall|i: int| 0 <= i < c.len() ==> c2[i] == c[i]);
                        assert(c2[c2.len() - 1] == (cand@, false));
                        assert(c2[c2.len() - 2] == c[c.len() - 1]);
                        assert(decl_step(
                            t,
                            c2[c2.len() - 2].0,
                            c2[c2.len() - 2].1,
                            c2[c2.len() - 1].0,
                        ));
                    }
                    assert(c2.last() == (cand@, false));
                }
            }
            let ghost todo_pre = todo@;
            let ghost paths_pre = paths.deep_view();
            insert_sorted(paths, &cand);
            todo.push((cand, false));
            proof {
                assert(forall|k: int| 0 <= k < todo_pre.len() ==> todo@[k] == todo_pre[k]);
                assert((#[trigger] todo@[todo@.len() - 1]).0@ == resolve_path(
                    cur@,
                    decls_at(t, cur@)[di as int].0,
                    cure,
                ) && todo@[todo@.len() - 1].1 == false);
                assert forall|q: Seq<char>, e: bool| in_list(todo_pre, q, e) implies in_list(
                    todo@,
                    q,
                    e,
                ) by {
                    let k = choose|k: int|
                        0 <= k < todo_pre.len() && (#[trigger] todo_pre[k]).0@ == q && todo_pre[k].1
                            == e;
                    assert(todo@[k].0@ == q && todo@[k].1 == e);
                }
            }
        }
        di += 1;
    }
    let ghost curv = cur@;
    let ghost visited_pre = visited@;
    let ghost todo_final = todo@;
    visited.push((cur, cure));
    proof {
        assert(visited@[visited@.len() - 1].0@ == curv && visited@[visited@.len() - 1].1 == cure);
        assert(in_list(visited@, curv, cure));
        assert(pair_clean(t, curv, cure));
        assert forall|q: Seq<char>, e: bool| in_list(visited_pre, q, e) implies in_list(
            visited@,
            q,
            e,
        ) by {
            let k = choose|k: int|
                0 <= k < visited_pre.len() && (#[trigger] visited_pre[k]).0@ == q
                    && visited_pre[k].1 == e;
            assert(visited@[k].0@ == q && visited@[k].1 == e);
        }
        assert forall|k1: int, k2: int| 0 <= k1 < k2 < visited@.len() implies pair_view(
            visited@[k1],
        ) != pair_view(visited@[k2]) by {
            if k2 == visited@.len() - 1 {
                if pair_view(visited@[k1]) == pair_view(visited@[k2]) {
                    assert((#[trigger] visited@[k1]).0@ == curv && visited@[k1].1 == cure);
                }
            }
        }
        assert forall|k: int, q: Seq<char>|
            0 <= k < visited@.len() && #[trigger] decl_step(
                t,
                (#[trigger] visited@[k]).0@,
                visited@[k].1,
                q,
            ) implies paths.deep_view().contains(q) && (in_list(todo@, q, false) || in_list(
            visited@,
            q,
            false,
        )) by {
            if k < visited@.len() - 1 {
                assert(decl_step(t, visited_pre[k].0@, visited_pre[k].1, q));
                if q == curv && cure == false {
                    assert(visited@[visited@.len() - 1].0@ == q && visited@[visited@.len() - 1].1
                        == false);
                    assert(in_list(visited@, q, false));
                }
            } else {
                let i = choose|i: int|
                    0 <= i < decls_at(t, curv).len() && !(#[trigger] decls_at(t, curv)[i]).1 && q
                        == resolve_path(curv, decls_at(t, curv)[i].0, cure);
                assert(paths.deep_view().contains(q) && in_list(todo@, q, false));
            }
        }
    }
    Ok(())
}

/// Every pair of every chain of a closed, clean visit list is itself in the
/// list: the list covers the whole traversal.
proof fn lemma_chain_in_list(
    t: Seq<SourceFile>,
    root: Seq<char>,
    entry: bool,
    dn: Seq<(String, bool)>,
    c: Seq<(Seq<char>, bool)>,
)
    requires
        is_chain(t, root, entry, c),
        in_list(dn, root, entry),
        forall|k: int, q: Seq<char>|
            0 <= k < dn.len() && #[trigger] decl_step(t, (#[trigger] dn[k]).0@, dn[k].1, q)
                ==> in_list(dn, q, false),
    ensures
        forall|i: int| 0 <= i < c.len() ==> in_list(dn, (#[trigger] c[i]).0, c[i].1),
    decreases c.len(),
{
    if c.len() > 1 {
        let pre = c.drop_last();
        assert(is_chain(t, root, entry, pre)) by {
            assert(forall|i: int| 0 <= i < pre.len() ==> pre[i] == c[i]);
        }
        lemma_chain_in_list(t, root, entry, dn, pre);
        let prev = c[c.len() - 2];
        assert(in_list(dn, prev.0, prev.1)) by {
            assert(pre[pre.len() - 1] == prev);
        }
        let k = choose|k: int|
            0 <= k < dn.len() && (#[trigger] dn[k]).0@ == prev.0 && dn[k].1 == prev.1;
        assert(decl_step(t, dn[k].0@, dn[k].1, c[c.len() - 1].0));
        assert(in_list(dn, c[c.len() - 1].0, false));
        assert(forall|i: int|
            0 <= i < c.len() - 1 ==> c[i] == pre[i] && in_list(dn, (#[trigger] c[i]).0, c[i].1));
    }
}

/// Follows the module declarations of the file at `path`, accumulating into
/// `paths` every file the traversal resolves, beside what the set already
/// held. On success the set gained exactly the files reachable from `path`
/// and the whole traversal was found clean; the first defect aborts the
/// analysis and reports its path.
#[verifier::rlimit(100)]
pub fn find_mod_paths(
    paths: &mut Vec<String>,
    tree: &SourceTree,
    path: &String,
    toplevel: bool,
) -> (r: Result<(), AnalysisError>)
    requires
        is_rs_path(path@),
        sorted_strict(old(paths).deep_view()),
    ensures
        match r {
            Ok(_) => closure_clean(tree.files@, path@, toplevel) && sorted_strict(
                final(paths).deep_view(),
            ) && forall|q: Seq<char>|
                #[trigger] final(paths).deep_view().contains(q) <==> (old(
                    paths,
                ).deep_view().contains(q) || reaches_file(tree.files@, path@, toplevel, q)),
            Err(e) => !closure_clean(tree.files@, path@, toplevel) && error_witness(
                tree.files@,
                path@,
                toplevel,
                e,
            ),
        },
{
    let ghost t = tree.files@;
    let ghost root = path@;
    let ghost e0 = toplevel;
    let ghost pv0 = old(paths).deep_view();

    let mut todo: Vec<(String, bool)> = Vec::new();
    todo.push((path.clone(), toplevel));
    let mut visited: Vec<(String, bool)> = Vec::new();

    proof {
        let c0: Seq<(Seq<char>, bool)> = seq![(root, e0)];
        assert(is_chain(t, root, e0, c0));
        assert(c0.last() == (root, e0));
        assert(visits(t, root, e0, root, e0));
        assert(todo@[0].0@ == root && todo@[0].1 == e0);
        assert(in_list(todo@, root, e0));
    }

    while todo.len() > 0
        invariant
            t == tree.files@,
            root == path@,
            e0 == toplevel,
            pv0 == old(paths).deep_view(),
            wl_inv(t, root, e0, pv0, todo@, visited@, paths.deep_view()),
            in_list(todo@, root, e0) || in_list(visited@, root, e0),
        decreases 2 * t.len() - visited@.len(), todo@.len(),
    {
        proof {
            assert forall|k: int| 0 <= k < visited@.len() implies lookup(
                t,
                (#[trigger] visited@[k]).0@,
            ) is Some by {
                assert(pair_clean(t, visited@[k].0@, visited@[k].1));
            }
            lemma_visited_bound(t, visited@);
        }
        let ghost todo0 = todo@;
        let pr = todo.pop().unwrap();
        let cur = pr.0;
        let cure = pr.1;
        proof {
            assert((#[trigger] todo0[todo0.len() - 1]).0@ == cur@ && todo0[todo0.len() - 1].1
                == cure);
            assert(visits(t, root, e0, cur@, cure));
            assert(is_rs_path(cur@));
            assert forall|q: Seq<char>, e: bool| in_list(todo0, q, e) implies in_list(todo@, q, e)
                || (q == cur@ && e == cure) by {
                let k = choose|k: int|
                    0 <= k < todo0.len() && (#[trigger] todo0[k]).0@ == q && todo0[k].1 == e;
                if k < todo0.len() - 1 {
                    assert(todo@[k] == todo0[k]);
                }
            }
            assert(wl_inv_mid(t, root, e0, pv0, todo@, visited@, paths.deep_view(), cur@, cure))
                by {
                assert forall|k: int, q: Seq<char>|
                    0 <= k < visited@.len() && #[trigger] decl_step(
                        t,
                        (#[trigger] visited@[k]).0@,
                        visited@[k].1,
                        q,
                    ) implies paths.deep_view().contains(q) && (in_list(todo@, q, false) || in_list(
                    visited@,
                    q,
                    false,
                ) || (q == cur@ && cure == false)) by {
                    assert(in_list(todo0, q, false) || in_list(visited@, q, false));
                }
            }
        }
        let ghost curv = cur@;
        let dup = pair_in(&visited, &cur, cure);
        if !dup {
            let ghost visited0 = visited@;
            let ghost todo1 = todo@;
            match process_file(
                paths,
                &mut todo,
                &mut visited,
                tree,
                cur,
                cure,
                Ghost(root),
                Ghost(e0),
                Ghost(pv0),
            ) {
                Ok(_) => {
                    proof {
                        assert(visited@[visited@.len() - 1].0@ == curv && visited@[visited@.len()
                            - 1].1 == cure);
                        assert(in_list(visited@, curv, cure));
                        assert forall|q: Seq<char>, e: bool| in_list(todo1, q, e) implies in_list(
                            todo@,
                            q,
                            e,
                        ) by {
                            let k = choose|k: int|
                                0 <= k < todo1.len() && (#[trigger] todo1[k]).0@ == q && todo1[k].1
                                    == e;
                            assert(todo@[k] == todo1[k]);
                        }
                        assert forall|q: Seq<char>, e: bool|
                            in_list(visited0, q, e) implies in_list(visited@, q, e) by {
                            let k = choose|k: int|
                                0 <= k < visited0.len() && (#[trigger] visited0[k]).0@ == q
                                    && visited0[k].1 == e;
                            assert(visited@[k] == visited0[k]);
                        }
                        assert forall|k: int| 0 <= k < visited@.len() implies lookup(
                            t,
                            (#[trigger] visited@[k]).0@,
                        ) is Some by {
                            assert(pair_clean(t, visited@[k].0@, visited@[k].1));
                        }
                        lemma_visited_bound(t, visited@);
                    }
                },
                Err(e) => {
                    return Err(e);
                },
            }
        } else {
            proof {
                assert(in_list(visited@, curv, cure));
                assert(wl_inv(t, root, e0, pv0, todo@, visited@, paths.deep_view())) by {
                    assert forall|k: int, q: Seq<char>|
                        0 <= k < visited@.len() && #[trigger] decl_step(
                            t,
                            (#[trigger] visited@[k]).0@,
                            visited@[k].1,
                            q,
                        ) implies paths.deep_view().contains(q) && (in_list(todo@, q, false)
                        || in_list(visited@, q, false)) by {
                        assert(in_list(todo0, q, false) || in_list(visited@, q, false));
                    }
                }
            }
        }
    }
    proof {
        assert forall|p: Seq<char>, e: bool| visits(t, root, e0, p, e) implies in_list(
            visited@,
            p,
            e,
        ) by {
            let c = choose|c: Seq<(Seq<char>, bool)>|
                is_chain(t, root, e0, c) && c.last() == (p, e);
            lemma_chain_in_list(t, root, e0, visited@, c);
            assert(c[c.len() - 1] == (p, e));
        }
        assert(closure_clean(t, root, e0)) by {
            assert forall|p: Seq<char>, e: bool| visits(t, root, e0, p, e) implies pair_clean(
                t,
                p,
                e,
            ) by {
                let k = choose|k: int|
                    0 <= k < visited@.len() && (#[trigger] visited@[k]).0@ == p && visited@[k].1
                        == e;
                assert(pair_clean(t, visited@[k].0@, visited@[k].1));
            }
        }
        assert forall|q: Seq<char>| reaches_file(t, root, e0, q) implies paths.deep_view().contains(
            q,
        ) by {
            let pr = choose|pr: (Seq<char>, bool)|
                visits(t, root, e0, pr.0, pr.1) && decl_step(t, pr.0, pr.1, q);
            assert(in_list(visited@, pr.0, pr.1));
            let k = choose|k: int|
                0 <= k < visited@.len() && (#[trigger] visited@[k]).0@ == pr.0 && visited@[k].1
                    == pr.1;
            assert(decl_step(t, visited@[k].0@, visited@[k].1, q));
        }
    }
    Ok(())
}

/// The scanner's filter: adds to `paths`, kept sorted, every candidate that
/// names a source file, that is, ends in `.rs`.
pub fn find_rs_paths(paths: &mut Vec<String>, candidates: &Vec<String>)
    requires
        sorted_strict(old(paths).deep_view()),
    ensures
        sorted_strict(final(paths).deep_view()),
        forall|q: Seq<char>|
            #[trigger] final(paths).deep_view().contains(q) <==> (old(
                paths,
            ).deep_view().contains(q) || (candidates.deep_view().contains(q) && is_rs_path(q))),
{
    let ghost pv0 = old(paths).deep_view();
    let n = candidates.len();
    let mut i: usize = 0;
    while i < n
        invariant
            0 <= i <= n,
            n == candidates@.len(),
            sorted_strict(paths.deep_view()),
            forall|q: Seq<char>|
                #[trigger] paths.deep_view().contains(q) <==> (pv0.contains(q) || (exists|j: int|
                    0 <= j < i && candidates.deep_view()[j] == q && is_rs_path(q))),
        decreases n - i,
    {
        let c = &candidates[i];
        proof {
            assert(candidates.deep_view()[i as int] == candidates@[i as int]@);
        }
        if crate::resolve::ends_with_rs(c.as_str()) {
            insert_sorted(paths, c);
        }
        i += 1;
    }
    proof {
        assert forall|q: Seq<char>| candidates.deep_view().contains(q) && is_rs_path(q) implies (
        exists|j: int| 0 <= j < n && candidates.deep_view()[j] == q && is_rs_path(q)) by {
            let j = choose|j: int|
                0 <= j < candidates.deep_view().len() && candidates.deep_view()[j] == q;
            assert(0 <= j < n && candidates.deep_view()[j] == q);
        }
    }
}

/// Reachability from either conventional entry point that is present.
pub open spec fn reachable_any(t: Seq<SourceFile>, q: Seq<char>) -> bool {
    (lookup(t, main_path()) is Some && reaches_file(t, main_path(), true, q)) || (lookup(
        t,
        lib_path(),
    ) is Some && reaches_file(t, lib_path(), true, q))
}

/// An orphan: a source file of the tree that is neither an entry point nor
/// reachable from one.
pub open spec fn is_orphan(t: Seq<SourceFile>, q: Seq<char>) -> bool {
    lookup(t, q) is Some && is_rs_path(q) && q != main_path() && q != lib_path()
        && !reachable_any(t, q)
}

/// The analysis goes through exactly when an entry point is present and the
/// traversal from each present entry point is clean.
pub open spec fn analysis_ok(t: Seq<SourceFile>) -> bool {
    (lookup(t, main_path()) is Some || lookup(t, lib_path()) is Some) && (lookup(
        t,
        main_path(),
    ) is Some ==> closure_clean(t, main_path(), true)) && (lookup(t, lib_path()) is Some
        ==> closure_clean(t, lib_path(), true))
}

/// What an error returned by the whole analysis tells of the tree.
pub open spec fn analysis_error(t: Seq<SourceFile>, err: AnalysisError) -> bool {
    match err {
        AnalysisError::NoEntryPoint => lookup(t, main_path()) is None && lookup(
            t,
            lib_path(),
        ) is None,
        _ => (lookup(t, main_path()) is Some && error_witness(t, main_path(), true, err)) || (
        lookup(t, lib_path()) is Some && error_witness(t, lib_path(), true, err)),
    }
}

/// `q` occurs among the first `k` entries of `ex`.
spec fn from_prefix(ex: Seq<Seq<char>>, k: int, q: Seq<char>) -> bool {
    exists|j: int| 0 <= j < k && ex[j] == q
}

/// Finds every orphan of the snapshot. On success the result lists, in
/// strictly increasing order, exactly the source files that are neither
/// entry points nor reachable from one.
#[verifier::rlimit(100)]
pub fn find_orphans(tree: &SourceTree) -> (r: Result<Vec<String>, AnalysisError>)
    ensures
        match r {
            Ok(orphans) => analysis_ok(tree.files@) && sorted_strict(orphans.deep_view())
                && forall|q: Seq<char>|
                    #[trigger] orphans.deep_view().contains(q) <==> is_orphan(tree.files@, q),
            Err(e) => !analysis_ok(tree.files@) && analysis_error(tree.files@, e),
        },
{
    let ghost t = tree.files@;
    let main_p = main_entry();
    let lib_p = lib_entry();
    let has_main = tree.contains_path(&main_p);
    let has_lib = tree.contains_path(&lib_p);
    if !has_main && !has_lib {
        return Err(AnalysisError::NoEntryPoint);
    }
    proof {
        assert(is_rs_path(main_path()));
        assert(is_rs_path(lib_path()));
    }
    let mut reach: Vec<String> = Vec::new();
    proof {
        assert(reach.deep_view().len() == 0);
    }
    if has_main {
        match find_mod_paths(&mut reach, tree, &main_p, true) {
            Ok(_) => {},
            Err(e) => {
                return Err(e);
            },
        }
    }
    let ghost reach_main = reach.deep_view();
    if has_lib {
        match find_mod_paths(&mut reach, tree, &lib_p, true) {
            Ok(_) => {},
            Err(e) => {
                return Err(e);
            },
        }
    }
    proof {
        assert forall|q: Seq<char>| #[trigger] reach.deep_view().contains(q) <==> reachable_any(
            t,
            q,
        ) by {
            if !has_main {
                assert(reach_main.len() == 0);
            }
        }
    }
    let mut allpaths: Vec<String> = Vec::new();
    let nf = tree.files.len();
    let mut i: usize = 0;
    while i < nf
        invariant
            0 <= i <= nf,
            nf == tree.files@.len(),
            t == tree.files@,
            allpaths@.len() == i,
            forall|j: int| 0 <= j < i ==> (#[trigger] allpaths@[j])@ == tree.files@[j].path@,
        decreases nf - i,
    {
        let ghost ap0 = allpaths@;
        allpaths.push(tree.files[i].path.clone());
        proof {
            assert(allpaths@.len() == i + 1);
            assert(forall|j: int| 0 <= j < i ==> allpaths@[j] == ap0[j]);
            assert(allpaths@[i as int]@ == tree.files@[i as int].path@);
        }
        i += 1;
    }
    proof {
        assert(forall|j: int|
            0 <= j < allpaths@.len() ==> #[trigger] allpaths.deep_view()[j] == allpaths@[j]@);
        assert forall|q: Seq<char>| #[trigger] allpaths.deep_view().contains(q) <==> (lookup(
            t,
            q,
        ) is Some) by {
            lemma_lookup_mem(t, q);
            if allpaths.deep_view().contains(q) {
                let j = choose|j: int|
                    0 <= j < allpaths.deep_view().len() && allpaths.deep_view()[j] == q;
                assert((#[trigger] t[j]).path@ == q);
            }
            if exists|j: int| 0 <= j < t.len() && (#[trigger] t[j]).path@ == q {
                let j = choose|j: int| 0 <= j < t.len() && (#[trigger] t[j]).path@ == q;
                assert(allpaths.deep_view()[j] == q);
                assert(allpaths.deep_view().contains(q));
            }
        }
    }
    let mut existing: Vec<String> = Vec::new();
    find_rs_paths(&mut existing, &allpaths);
    let mut out: Vec<String> = Vec::new();
    let ne = existing.len();
    let mut k: usize = 0;
    while k < ne
        invariant
            0 <= k <= ne,
            ne == existing@.len(),
            t == tree.files@,
            sorted_strict(existing.deep_view()),
            sorted_strict(out.deep_view()),
            main_p@ == main_path(),
            lib_p@ == lib_path(),
            forall|q: Seq<char>| #[trigger] reach.deep_view().contains(q) <==> reachable_any(t, q),
            forall|q: Seq<char>|
                #[trigger] existing.deep_view().contains(q) <==> ((lookup(t, q) is Some)
                    && is_rs_path(q)),
            forall|m: int|
                0 <= m < out.deep_view().len() ==> #[trigger] from_prefix(
                    existing.deep_view(),
                    k as int,
                    out.deep_view()[m],
                ),
            forall|q: Seq<char>|
                #[trigger] out.deep_view().contains(q) <==> (from_prefix(
                    existing.deep_view(),
                    k as int,
                    q,
                ) && q != main_path() && q != lib_path() && !reach.deep_view().contains(q)),
        decreases ne - k,
    {
        let cand = &existing[k];
        proof {
            assert(existing.deep_view()[k as int] == existing@[k as int]@);
            assert(from_prefix(existing.deep_view(), k as int + 1, cand@));
        }
        let is_entry = cand.eq(&main_p) || cand.eq(&lib_p);
        let in_reach = contains_str(&reach, cand);
        let ghost out_pre = out.deep_view();
        if !is_entry && !in_reach {
            out.push(cand.clone());
            proof {
                assert(out.deep_view().len() == out_pre.len() + 1);
                assert(forall|m: int| 0 <= m < out_pre.len() ==> out.deep_view()[m] == out_pre[m]);
                assert(out.deep_view()[out_pre.len() as int] == cand@);
                assert forall|m: int| 0 <= m < out.deep_view().len() implies #[trigger] from_prefix(
                    existing.deep_view(),
                    k as int + 1,
                    out.deep_view()[m],
                ) by {
                    if m < out_pre.len() {
                        assert(from_prefix(existing.deep_view(), k as int, out_pre[m]));
                        let j = choose|j: int|
                            0 <= j < k && existing.deep_view()[j] == out_pre[m];
                        assert(existing.deep_view()[j] == out.deep_view()[m]);
                    } else {
                        assert(existing.deep_view()[k as int] == out.deep_view()[m]);
                    }
                }
                assert forall|m: int, m2: int|
                    0 <= m < m2 < out.deep_view().len() implies lex_lt(
                    out.deep_view()[m],
                    out.deep_view()[m2],
                ) by {
                    if m2 == out.deep_view().len() - 1 {
                        assert(from_prefix(existing.deep_view(), k as int, out_pre[m]));
                        let j = choose|j: int|
                            0 <= j < k && existing.deep_view()[j] == out_pre[m];
                        assert(lex_lt(existing.deep_view()[j], existing.deep_view()[k as int]));
                    } else {
                        assert(lex_lt(out_pre[m], out_pre[m2]));
                    }
                }
                assert forall|q: Seq<char>| #[trigger] out.deep_view().contains(q) implies (
                out_pre.contains(q) || q == cand@) by {
                    let m = choose|m: int|
                        0 <= m < out.deep_view().len() && out.deep_view()[m] == q;
                    if m < out_pre.len() {
                        assert(out_pre[m] == q);
                    }
                }
                assert forall|q: Seq<char>| out_pre.contains(q) implies
                    #[trigger] out.deep_view().contains(q) by {
                    let m = choose|m: int| 0 <= m < out_pre.len() && out_pre[m] == q;
                    assert(out.deep_view()[m] == q);
                }
                assert(out.deep_view().contains(cand@));
                assert forall|q: Seq<char>| #[trigger] out.deep_view().contains(q) implies (
                from_prefix(existing.deep_view(), k as int + 1, q) && q != main_path() && q
                    != lib_path() && !reach.deep_view().contains(q)) by {
                    if out_pre.contains(q) {
                        assert(from_prefix(existing.deep_view(), k as int, q));
                        let j = choose|j: int| 0 <= j < k && existing.deep_view()[j] == q;
                        assert(0 <= j < k + 1 && existing.deep_view()[j] == q);
                    }
                }
                assert forall|q: Seq<char>|
                    (from_prefix(existing.deep_view(), k as int + 1, q) && q != main_path() && q
                        != lib_path() && !reach.deep_view().contains(q)) implies
                    #[trigger] out.deep_view().contains(q) by {
                    let j = choose|j: int| 0 <= j < k + 1 && existing.deep_view()[j] == q;
                    if j < k {
                        assert(from_prefix(existing.deep_view(), k as int, q));
                        assert(out_pre.contains(q));
                    } else {
                        assert(q == cand@);
                    }
                }
            }
        } else {
            proof {
                assert forall|m: int| 0 <= m < out.deep_view().len() implies #[trigger] from_prefix(
                    existing.deep_view(),
                    k as int + 1,
                    out.deep_view()[m],
                ) by {
                    assert(from_prefix(existing.deep_view(), k as int, out.deep_view()[m]));
                    let j = choose|j: int|
                        0 <= j < k && existing.deep_view()[j] == out.deep_view()[m];
                    assert(0 <= j < k + 1 && existing.deep_view()[j] == out.deep_view()[m]);
                }
                assert forall|q: Seq<char>| #[trigger] out.deep_view().contains(q) implies (
                from_prefix(existing.deep_view(), k as int + 1, q) && q != main_path() && q
                    != lib_path() && !reach.deep_view().contains(q)) by {
                    assert(from_prefix(existing.deep_view(), k as int, q));
                    let j = choose|j: int| 0 <= j < k && existing.deep_view()[j] == q;
                    assert(0 <= j < k + 1 && existing.deep_view()[j] == q);
                }
                assert forall|q: Seq<char>|
                    (from_prefix(existing.deep_view(), k as int + 1, q) && q != main_path() && q
                        != lib_path() && !reach.deep_view().contains(q)) implies
                    #[trigger] out.deep_view().contains(q) by {
                    let j = choose|j: int| 0 <= j < k + 1 && existing.deep_view()[j] == q;
                    if j == k {
                        assert(q == cand@);
                        assert(is_entry || in_reach);
                        assert(false);
                    } else {
                        assert(from_prefix(existing.deep_view(), k as int, q));
                    }
                }
            }
        }
        k += 1;
    }
    proof {
        assert forall|q: Seq<char>| #[trigger] out.deep_view().contains(q) <==> is_orphan(t, q) by {
            if from_prefix(existing.deep_view(), ne as int, q) {
                let j = choose|j: int| 0 <= j < ne && existing.deep_view()[j] == q;
                assert(existing.deep_view().contains(q));
            }
            if existing.deep_view().contains(q) {
                let j = choose|j: int|
                    0 <= j < existing.deep_view().len() && existing.deep_view()[j] == q;
                assert(from_prefix(existing.deep_view(), ne as int, q));
            }
        }
    }
    Ok(out)
}

} // verus!
