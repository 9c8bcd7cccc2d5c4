//! The textual orphan report: one path per line, in the order of the list.

use vstd::prelude::*;
use vstd::string::StringExecFns;

verus! {

/// The first `n` paths of `os`, each followed by a line break.
pub open spec fn report_of(os: Seq<Seq<char>>, n: int) -> Seq<char>
    decreases n,
{
    if n <= 0 {
        Seq::empty()
    } else {
        report_of(os, n - 1) + os[n - 1] + seq!['\n']
    }
}

/// Renders the orphan list as a report, or `None` when there is nothing to
/// report.
pub fn orphan_report(orphans: &Vec<String>) -> (r: Option<String>)
    ensures
        match r {
            Some(s) => orphans@.len() > 0 && s@ == report_of(
                orphans.deep_view(),
                orphans.deep_view().len() as int,
            ),
            None => orphans@.len() == 0,
        },
{
    if orphans.len() == 0 {
        return None;
    }
    let mut out = String::new();
    let n = orphans.len();
    let mut i: usize = 0;
    proof {
        reveal_strlit("\n");
    }
    while i < n
        invariant
            0 <= i <= n,
            n == orphans@.len(),
            out@ == report_of(orphans.deep_view(), i as int),
            "\n"@ == seq!['\n'],
        decreases n - i,
    {
        out.append(orphans[i].as_str());
        out.append("\n");
        proof {
            assert(orphans.deep_view()[i as int] == orphans@[i as int]@);
            assert(out@ =~= report_of(orphans.deep_view(), i as int + 1));
        }
        i += 1;
    }
    Some(out)
}

} // verus!
