//! Location of the same-named model files along a directory hierarchy.
use vstd::prelude::*;

verus! {

/// A file path split into the part above the hierarchy (a root such as `/`,
/// or nothing for a relative path), the directory names below it, and the
/// file's own name.
pub struct ModelPath {
    pub root: String,
    pub dirs: Vec<String>,
    pub file_name: String,
}

/// The mathematical model of a `ModelPath`.
pub struct PathModel {
    pub root: Seq<char>,
    pub dirs: Seq<Seq<char>>,
    pub file_name: Seq<char>,
}

impl PathModel {
    /// The file of the same name in the ancestor directory that keeps the
    /// first `depth` directory names.
    pub open spec fn at_depth(self, depth: int) -> PathModel {
        PathModel { root: self.root, dirs: self.dirs.take(depth), file_name: self.file_name }
    }
}

impl View for ModelPath {
    type V = PathModel;

    open spec fn view(&self) -> PathModel {
        PathModel {
            root: self.root@,
            dirs: Seq::new(self.dirs@.len(), |i: int| self.dirs@[i]@),
            file_name: self.file_name@,
        }
    }
}

impl ModelPath {
    /// The file of the same name in the ancestor directory that keeps the
    /// first `depth` directory names.
    pub fn at_depth(&self, depth: usize) -> (r: ModelPath)
        requires
            depth <= self.dirs@.len(),
        ensures
            r@ == self@.at_depth(depth as int),
    {
        let mut dirs: Vec<String> = Vec::new();
        let mut i: usize = 0;
        while i < depth
            invariant
                i <= depth <= self.dirs@.len(),
                dirs@.len() == i,
                forall|j: int| 0 <= j < i ==> (#[trigger] dirs@[j])@ == self.dirs@[j]@,
            decreases depth - i,
        {
            dirs.push(self.dirs[i].clone());
            i += 1;
        }
        let r = ModelPath { root: self.root.clone(), dirs, file_name: self.file_name.clone() };
        assert(r@.dirs =~= self@.dirs.take(depth as int));
        r
    }

    /// The candidate files, one per ancestor directory from the leaf's
    /// grandparent directory outward to the root: the `j`-th keeps all but
    /// the last `j + 1` directory names.
    pub fn candidates(&self) -> (r: Vec<ModelPath>)
        ensures
            r@.len() == self.dirs@.len(),
            forall|j: int|
                0 <= j < r@.len() ==> (#[trigger] r@[j])@ == self@.at_depth(
                    self.dirs@.len() - 1 - j,
                ),
    {
        let n = self.dirs.len();
        let mut r: Vec<ModelPath> = Vec::new();
        let mut j: usize = 0;
        while j < n
            invariant
                n == self.dirs@.len(),
                j <= n,
                r@.len() == j,
                forall|i: int|
                    0 <= i < j ==> (#[trigger] r@[i])@ == self@.at_depth(n - 1 - i),
            decreases n - j,
        {
            r.push(self.at_depth(n - 1 - j));
            j += 1;
        }
        r
    }
}

/// Whether the walk takes the `j`-th candidate (counted outward): its file
/// exists, and either gaps are skipped or every nearer candidate exists.
pub open spec fn taken(found: Seq<bool>, skip_empty: bool, j: int) -> bool {
    found[j] && (skip_empty || forall|i: int| 0 <= i < j ==> found[i])
}

/// `taken` as a predicate on depths, the candidate at depth `d` being the
/// `(n - 1 - d)`-th.
pub open spec fn taken_depth(found: Seq<bool>, skip_empty: bool) -> spec_fn(int) -> bool {
    |d: int| taken(found, skip_empty, found.len() - 1 - d)
}

/// The depths of the files in the chain, topmost first: each ancestor depth
/// whose candidate the walk takes, then the leaf's own depth.
pub open spec fn chain_depths(found: Seq<bool>, skip_empty: bool) -> Seq<int> {
    Seq::new(found.len(), |d: int| d).filter(taken_depth(found, skip_empty)).push(
        found.len() as int,
    )
}

/// The chain of model files for `leaf`, topmost ancestor first and `leaf`
/// last. `found[j]` tells whether the `j`-th of `leaf.candidates()` exists;
/// without `skip_empty` the walk stops at the first that does not.
pub fn locate(leaf: &ModelPath, found: &Vec<bool>, skip_empty: bool) -> (r: Vec<ModelPath>)
    requires
        found@.len() == leaf.dirs@.len(),
    ensures
        r@.len() >= 1,
        r@.last()@ == leaf@,
        r@.len() == chain_depths(found@, skip_empty).len(),
        forall|i: int|
            0 <= i < r@.len() ==> (#[trigger] r@[i])@ == leaf@.at_depth(
                chain_depths(found@, skip_empty)[i],
            ),
{
    let n = found.len();
    let mut gap: usize = 0;
    while gap < n && found[gap]
        invariant
            gap <= n == found@.len(),
            forall|i: int| 0 <= i < gap ==> found@[i],
        decreases n - gap,
    {
        gap += 1;
    }
    let ghost pred = taken_depth(found@, skip_empty);
    let ghost ids = Seq::new(n as nat, |d: int| d);
    let mut r: Vec<ModelPath> = Vec::new();
    let mut d: usize = 0;
    proof {
        reveal(Seq::filter);
        assert(ids.take(0) =~= Seq::<int>::empty());
    }
    while d < n
        invariant
            n == found@.len() == leaf.dirs@.len(),
            d <= n,
            gap <= n,
            gap < n ==> !found@[gap as int],
            forall|i: int| 0 <= i < gap ==> found@[i],
            pred == taken_depth(found@, skip_empty),
            ids == Seq::new(n as nat, |x: int| x),
            r@.len() == ids.take(d as int).filter(pred).len(),
            forall|i: int|
                0 <= i < r@.len() ==> (#[trigger] r@[i])@ == leaf@.at_depth(
                    ids.take(d as int).filter(pred)[i],
                ),
        decreases n - d,
    {
        let j = n - 1 - d;
        let take = found[j] && (skip_empty || j < gap);
        proof {
            reveal(Seq::filter);
            let s = ids.take(d + 1);
            assert(s.drop_last() =~= ids.take(d as int));
            assert(s.last() == d);
            if !skip_empty && found@[j as int] {
                if j < gap {
                    assert(forall|i: int| 0 <= i < j ==> found@[i]);
                } else {
                    assert(!found@[gap as int]);
                }
            }
            assert(take == pred(d as int));
        }
        if take {
            r.push(leaf.at_depth(d));
        }
        d += 1;
    }
    proof {
        assert(ids.take(n as int) =~= ids);
    }
    r.push(leaf.at_depth(n));
    proof {
        lemma_chain_ends_with_leaf(found@, skip_empty);
        assert(leaf@.dirs.take(n as int) =~= leaf@.dirs);
    }
    r
}

/// The chain is never empty: its last file is the leaf itself.
pub proof fn lemma_chain_ends_with_leaf(found: Seq<bool>, skip_empty: bool)
    ensures
        chain_depths(found, skip_empty).len() >= 1,
        chain_depths(found, skip_empty).last() == found.len(),
{
}

/// Without `skip_empty`, a missing candidate ends the walk: no candidate
/// farther out is in the chain, whether or not its file exists.
pub proof fn lemma_stops_at_gap(found: Seq<bool>, gap: int, j: int)
    requires
        0 <= gap < j < found.len(),
        !found[gap],
    ensures
        !chain_depths(found, false).contains(found.len() - 1 - j),
{
    let ids = Seq::new(found.len(), |d: int| d);
    let pred = taken_depth(found, false);
    let kept = ids.filter(pred);
    let d = found.len() - 1 - j;
    broadcast use Seq::lemma_filter_pred;
    if kept.contains(d) {
        let i = choose|i: int| 0 <= i < kept.len() && kept[i] == d;
        assert(pred(kept[i]));
    }
    assert(chain_depths(found, false) == kept.push(found.len() as int));
    if chain_depths(found, false).contains(d) {
        let i = choose|i: int|
            0 <= i < chain_depths(found, false).len() && chain_depths(found, false)[i] == d;
        if i < kept.len() {
            assert(kept[i] == d);
        }
    }
}

/// With `skip_empty`, every candidate whose file exists is in the chain,
/// however many candidates nearer to the leaf are missing.
pub proof fn lemma_skips_gaps(found: Seq<bool>, j: int)
    requires
        0 <= j < found.len(),
        found[j],
    ensures
        chain_depths(found, true).contains(found.len() - 1 - j),
{
    let ids = Seq::new(found.len(), |d: int| d);
    let pred = taken_depth(found, true);
    let kept = ids.filter(pred);
    let d = found.len() - 1 - j;
    broadcast use Seq::lemma_filter_contains;
    assert(ids[d] == d);
    assert(pred(ids[d]));
    assert(kept.contains(ids[d]));
    let i = choose|i: int| 0 <= i < kept.len() && kept[i] == d;
    assert(chain_depths(found, true)[i] == d);
}

} // verus!
