//! The traversal model: a pre-order sequence of filesystem entries, and the
//! pruning of subtrees rooted at ignored directory names.

use vstd::prelude::*;
use crate::config::is_ignored;
use crate::config::name_in;

verus! {

/// One visited filesystem entry, as produced by a pre-order depth-first walk.
pub struct Entry {
    /// The full path of the entry, as text.
    pub path: String,
    /// The last path component.
    pub name: String,
    /// Depth relative to the walk's root; the root itself has depth 0.
    pub depth: usize,
    /// True for a regular file, false for a directory.
    pub is_file: bool,
}

impl Clone for Entry {
    fn clone(&self) -> (r: Self)
        ensures
            r == *self,
    {
        Entry {
            path: self.path.clone(),
            name: self.name.clone(),
            depth: self.depth,
            is_file: self.is_file,
        }
    }
}

/// Entry `j` lies in the subtree rooted at entry `i` of the pre-order
/// sequence `s` (the root of the subtree counts as part of it): every entry
/// strictly between them, and `j` itself, is deeper than `i`.
pub open spec fn in_subtree(s: Seq<Entry>, i: int, j: int) -> bool {
    i <= j && forall|k: int| i < k <= j ==> s[k].depth > s[i].depth
}

/// Entry `j` is excluded from the walk's output: it is, or lies beneath, an
/// entry whose bare name is ignored. The root entry (index 0) is never
/// tested against the ignore set itself.
pub open spec fn excluded(s: Seq<Entry>, ign: Seq<Seq<char>>, j: int) -> bool {
    exists|i: int| 1 <= i <= j && name_in(s[i].name@, ign) && in_subtree(s, i, j)
}

/// Entry `j` survives the pruning.
pub open spec fn included(s: Seq<Entry>, ign: Seq<Seq<char>>, j: int) -> bool {
    !excluded(s, ign, j)
}

/// The included entries among the first `n`, in order.
pub open spec fn pruned_upto(s: Seq<Entry>, ign: Seq<Seq<char>>, n: int) -> Seq<Entry>
    decreases n,
{
    if n <= 0 {
        Seq::empty()
    } else if included(s, ign, n - 1) {
        pruned_upto(s, ign, n - 1).push(s[n - 1])
    } else {
        pruned_upto(s, ign, n - 1)
    }
}

/// The walk's output: the included entries of `s`, in order.
pub open spec fn pruned(s: Seq<Entry>, ign: Seq<Seq<char>>) -> Seq<Entry> {
    pruned_upto(s, ign, s.len() as int)
}

/// The number of included entries among the first `n`.
pub open spec fn count_included(s: Seq<Entry>, ign: Seq<Seq<char>>, n: int) -> int
    decreases n,
{
    if n <= 0 {
        0
    } else if included(s, ign, n - 1) {
        count_included(s, ign, n - 1) + 1
    } else {
        count_included(s, ign, n - 1)
    }
}

/// The pruned sequence has exactly one element per included entry: its
/// length is the number of entries that survive the pruning.
pub proof fn lemma_pruned_len(s: Seq<Entry>, ign: Seq<Seq<char>>)
    ensures
        pruned(s, ign).len() == count_included(s, ign, s.len() as int),
{
    lemma_pruned_upto_len(s, ign, s.len() as int);
}

proof fn lemma_pruned_upto_len(s: Seq<Entry>, ign: Seq<Seq<char>>, n: int)
    ensures
        pruned_upto(s, ign, n).len() == count_included(s, ign, n),
    decreases n,
{
    if n > 0 {
        lemma_pruned_upto_len(s, ign, n - 1);
    }
}

/// Every element of the pruned sequence is an included entry of `s`.
pub proof fn lemma_pruned_membership(s: Seq<Entry>, ign: Seq<Seq<char>>, p: int)
    requires
        0 <= p < pruned(s, ign).len(),
    ensures
        exists|m: int| 0 <= m < s.len() && included(s, ign, m) && pruned(s, ign)[p] == s[m],
{
    lemma_pruned_upto_membership(s, ign, s.len() as int, p);
}

proof fn lemma_pruned_upto_membership(s: Seq<Entry>, ign: Seq<Seq<char>>, n: int, p: int)
    requires
        0 <= p < pruned_upto(s, ign, n).len(),
    ensures
        exists|m: int|
            0 <= m < n && included(s, ign, m) && pruned_upto(s, ign, n)[p] == s[m],
    decreases n,
{
    if n > 0 {
        if included(s, ign, n - 1) && p == pruned_upto(s, ign, n - 1).len() {
            assert(pruned_upto(s, ign, n)[p] == s[n - 1]);
        } else {
            lemma_pruned_upto_membership(s, ign, n - 1, p);
            let m = choose|m: int|
                0 <= m < n - 1 && included(s, ign, m) && pruned_upto(s, ign, n - 1)[p] == s[m];
            assert(pruned_upto(s, ign, n)[p] == s[m]);
        }
    }
}

/// No path that is, or lies beneath, an ignored directory survives the
/// pruning: if entry `j` is excluded and the entries' paths are pairwise
/// distinct, then `j`'s path appears nowhere in the pruned sequence.
pub proof fn lemma_excluded_path_absent(s: Seq<Entry>, ign: Seq<Seq<char>>, j: int)
    requires
        0 <= j < s.len(),
        excluded(s, ign, j),
        forall|a: int, b: int| 0 <= a < b < s.len() ==> s[a].path@ != s[b].path@,
    ensures
        forall|p: int| 0 <= p < pruned(s, ign).len() ==> pruned(s, ign)[p].path@ != s[j].path@,
{
    assert forall|p: int| 0 <= p < pruned(s, ign).len() implies pruned(s, ign)[p].path@
        != s[j].path@ by {
        lemma_pruned_upto_membership(s, ign, s.len() as int, p);
        let m = choose|m: int|
            0 <= m < s.len() && included(s, ign, m) && pruned(s, ign)[p] == s[m];
        if m != j {
            if m < j {
                assert(s[m].path@ != s[j].path@);
            } else {
                assert(s[j].path@ != s[m].path@);
            }
        }
    }
}

/// Removes every entry that is, or lies beneath, a non-root entry whose bare
/// name is in `ignored_dirs`, keeping the rest in their pre-order positions.
pub fn prune_entries(entries: &Vec<Entry>, ignored_dirs: &Vec<String>) -> (r: Vec<Entry>)
    ensures
        r@ == pruned(entries@, ignored_dirs.deep_view()),
{
    let ghost s = entries@;
    let ghost ign = ignored_dirs.deep_view();
    let mut out: Vec<Entry> = Vec::new();
    let mut skip: Option<usize> = None;
    let ghost mut gi: int = 0;
    let mut j: usize = 0;
    while j < entries.len()
        invariant
            j <= entries.len(),
            s == entries@,
            ign == ignored_dirs.deep_view(),
            out@ == pruned_upto(s, ign, j as int),
            match skip {
                Some(d) => {
                    &&& 1 <= gi < j as int
                    &&& name_in(s[gi].name@, ign)
                    &&& s[gi].depth == d
                    &&& forall|k: int| gi < k < j as int ==> s[k].depth > d
                    &&& forall|i: int|
                        1 <= i < j as int && #[trigger] name_in(s[i].name@, ign) ==> (exists|
                            k: int,
                        |
                            i < k < j as int && s[k].depth <= s[i].depth) || s[i].depth >= d
                },
                None => forall|i: int|
                    1 <= i < j as int && #[trigger] name_in(s[i].name@, ign) ==> exists|k: int|
                        i < k < j as int && s[k].depth <= s[i].depth,
            },
        decreases entries.len() - j,
    {
        let e_depth = entries[j].depth;
        let skipping: bool = match skip {
            Some(d) => e_depth > d,
            None => false,
        };
        if skipping {
            proof {
                assert(in_subtree(s, gi, j as int));
                assert(excluded(s, ign, j as int));
            }
        } else {
            let name_ignored = j > 0 && is_ignored(&entries[j].name, ignored_dirs);
            proof {
                if skip is Some {
                    assert(e_depth <= skip->0);
                }
            }
            if name_ignored {
                proof {
                    assert(in_subtree(s, j as int, j as int));
                    assert(excluded(s, ign, j as int));
                    if skip is None {
                        assert(forall|i: int|
                            1 <= i < j as int && #[trigger] name_in(s[i].name@, ign) ==> exists|
                                k: int,
                            |
                                i < k < (j + 1) as int && s[k].depth <= s[i].depth);
                    }
                    gi = j as int;
                }
                skip = Some(e_depth);
            } else {
                proof {
                    let d = if skip is Some {
                        skip->0 as int
                    } else {
                        0
                    };
                    assert forall|i: int| 1 <= i <= j as int implies !(#[trigger] name_in(
                        s[i].name@,
                        ign,
                    ) && in_subtree(s, i, j as int)) by {
                        if i == j as int {
                            assert(!name_in(s[i].name@, ign));
                        } else if name_in(s[i].name@, ign) {
                            if skip is Some && s[i].depth >= d && !(exists|k: int|
                                i < k < j as int && s[k].depth <= s[i].depth)
                            {
                                assert(s[j as int].depth <= d <= s[i].depth);
                                assert(!in_subtree(s, i, j as int));
                            } else {
                                let k = choose|k: int|
                                    i < k < j as int && s[k].depth <= s[i].depth;
                                assert(!in_subtree(s, i, j as int));
                            }
                        }
                    }
                    assert(included(s, ign, j as int));
                    assert forall|i: int|
                        1 <= i < (j + 1) as int && #[trigger] name_in(s[i].name@, ign) implies exists|
                        k: int,
                    |
                        i < k < (j + 1) as int && s[k].depth <= s[i].depth by {
                        if i < j as int {
                            if skip is Some && !(exists|k: int|
                                i < k < j as int && s[k].depth <= s[i].depth) {
                                assert(s[i].depth >= d);
                                assert(i < j as int && (j as int) < (j + 1) as int
                                    && s[j as int].depth <= s[i].depth);
                            }
                        }
                    }
                }
                skip = None;
                out.push(entries[j].clone());
            }
        }
        j += 1;
    }
    out
}

} // verus!
