//! The in-memory snapshot of a project's source tree.
//!
//! A snapshot lists every source file as a path, relative to the project
//! root with `/` separators, together with the file's text. Path identity
//! is plain equality of the path strings; the caller is expected to hand in
//! paths in one consistent, canonical spelling.

use vstd::prelude::*;

verus! {

/// One source file: its path and its text.
pub struct SourceFile {
    pub path: String,
    pub text: String,
}

/// A snapshot of the source tree.
pub struct SourceTree {
    pub files: Vec<SourceFile>,
}

/// The text stored under path `p`; the first entry with that path wins.
pub open spec fn lookup(t: Seq<SourceFile>, p: Seq<char>) -> Option<Seq<char>>
    decreases t.len(),
{
    if t.len() == 0 {
        None
    } else if t[0].path@ == p {
        Some(t[0].text@)
    } else {
        lookup(t.skip(1), p)
    }
}

proof fn lemma_lookup_skip(t: Seq<SourceFile>, p: Seq<char>, i: int)
    requires
        0 <= i <= t.len(),
        forall|j: int| 0 <= j < i ==> t[j].path@ != p,
    ensures
        lookup(t, p) == lookup(t.skip(i), p),
    decreases i,
{
    if i == 0 {
        assert(t.skip(0) =~= t);
    } else {
        assert forall|j: int| 0 <= j < i - 1 implies t.skip(1)[j].path@ != p by {
            assert(t.skip(1)[j] == t[j + 1]);
        }
        lemma_lookup_skip(t.skip(1), p, i - 1);
        assert(t.skip(1).skip(i - 1) =~= t.skip(i));
    }
}

/// A path has text in the tree exactly when some entry carries it.
pub proof fn lemma_lookup_mem(t: Seq<SourceFile>, q: Seq<char>)
    ensures
        (lookup(t, q) is Some) <==> exists|j: int| 0 <= j < t.len() && (#[trigger] t[j]).path@ == q,
    decreases t.len(),
{
    if t.len() > 0 {
        lemma_lookup_mem(t.skip(1), q);
        if t[0].path@ != q {
            if lookup(t, q) is Some {
                let j = choose|j: int|
                    0 <= j < t.skip(1).len() && (#[trigger] t.skip(1)[j]).path@ == q;
                assert(t[j + 1].path@ == q);
            }
            if exists|j: int| 0 <= j < t.len() && (#[trigger] t[j]).path@ == q {
                let j = choose|j: int| 0 <= j < t.len() && (#[trigger] t[j]).path@ == q;
                assert(t.skip(1)[j - 1].path@ == q);
            }
        }
    }
}

impl SourceTree {
    /// The text of the file at `p`, or `None` when the tree has no such file.
    pub fn get_text(&self, p: &String) -> (r: Option<&String>)
        ensures
            match r {
                Some(text) => lookup(self.files@, p@) == Some(text@),
                None => lookup(self.files@, p@) is None,
            },
    {
        let n = self.files.len();
        let mut i: usize = 0;
        while i < n
            invariant
                0 <= i <= n,
                n == self.files@.len(),
                forall|j: int| 0 <= j < i ==> self.files@[j].path@ != p@,
            decreases n - i,
    {
            if self.files[i].path.eq(p) {
                proof {
                    lemma_lookup_skip(self.files@, p@, i as int);
                    assert(self.files@.skip(i as int)[0] == self.files@[i as int]);
                }
                return Some(&self.files[i].text);
            }
            i += 1;
        }
        proof {
            lemma_lookup_skip(self.files@, p@, n as int);
            assert(self.files@.skip(n as int).len() == 0);
        }
        None
    }

    /// Whether the tree holds a file at `p`.
    pub fn contains_path(&self, p: &String) -> (r: bool)
        ensures
            r == (lookup(self.files@, p@) is Some),
    {
        match self.get_text(p) {
            Some(_) => true,
            None => false,
        }
    }
}

} // verus!
