//! The reconciler: which found images still need a tile, and where each new
//! tile goes. Existing tiles are never moved or removed.
use vstd::prelude::*;
use crate::grid::{calculate_grid_position, grid_position, grid_size_for, is_grid_size, GridPosition};
use crate::scan::paths_view;
use vstd::hash_set::StringHashSet;

verus! {

/// Item `i` of `found` needs a new tile: its path has no tile yet and does not
/// already occur earlier in `found`.
pub open spec fn is_new(found: Seq<Seq<char>>, existing: Seq<Seq<char>>, i: int) -> bool {
    !existing.contains(found[i]) && !found.take(i).contains(found[i])
}

/// The indices, among the first `k` of `found`, of the items that need a new
/// tile, in increasing order.
pub open spec fn new_indices(found: Seq<Seq<char>>, existing: Seq<Seq<char>>, k: nat) -> Seq<int>
    decreases k,
{
    if k == 0 {
        Seq::empty()
    } else {
        let prev = new_indices(found, existing, (k - 1) as nat);
        if is_new(found, existing, k - 1) {
            prev.push(k - 1)
        } else {
            prev
        }
    }
}

/// The paths that get a new tile in a pass over `found` when `existing` have
/// one already.
pub open spec fn new_paths(found: Seq<Seq<char>>, existing: Seq<Seq<char>>) -> Seq<Seq<char>> {
    new_indices(found, existing, found.len()).map_values(|i: int| found[i])
}

/// A tile to create: the image it shows, that image's index in the found
/// list, and where it goes.
#[derive(Debug)]
pub struct QuadSpawn {
    pub target: String,
    pub index: usize,
    pub position: GridPosition,
}

/// The tiles that one reconciliation pass creates, and the side of the grid
/// that it laid them out on.
#[derive(Debug)]
pub struct QuadPlan {
    pub grid_size: usize,
    pub spawns: Vec<QuadSpawn>,
}

proof fn lemma_new_indices(found: Seq<Seq<char>>, existing: Seq<Seq<char>>, k: nat)
    requires
        k <= found.len(),
    ensures
        forall|j: int| 0 <= j < new_indices(found, existing, k).len() ==> {
            let i = #[trigger] new_indices(found, existing, k)[j];
            0 <= i < k && is_new(found, existing, i)
        },
        forall|a: int, b: int|
            0 <= a < b < new_indices(found, existing, k).len() ==> new_indices(found, existing, k)[a]
                < new_indices(found, existing, k)[b],
        forall|i: int|
            0 <= i < k && is_new(found, existing, i) ==> new_indices(found, existing, k).contains(i),
    decreases k,
{
    if k > 0 {
        lemma_new_indices(found, existing, (k - 1) as nat);
        let prev = new_indices(found, existing, (k - 1) as nat);
        if is_new(found, existing, k - 1) {
            assert(prev.push(k - 1)[prev.len() as int] == k - 1);
            assert forall|i: int| 0 <= i < k && is_new(found, existing, i) implies new_indices(
                found,
                existing,
                k,
            ).contains(i) by {
                if i < k - 1 {
                    let j = choose|j: int| 0 <= j < prev.len() && prev[j] == i;
                    assert(new_indices(found, existing, k)[j] == i);
                }
            }
        }
    }
}

/// Tiles are never duplicated: when the existing tiles show distinct paths,
/// they still do once a reconciliation pass, over any found list, has added
/// its new tiles. As a registry with no tiles shows distinct paths, this holds
/// after every sequence of passes.
pub proof fn lemma_pass_keeps_tiles_distinct(found: Seq<Seq<char>>, existing: Seq<Seq<char>>)
    requires
        existing.no_duplicates(),
    ensures
        (existing + new_paths(found, existing)).no_duplicates(),
{
    let idx = new_indices(found, existing, found.len());
    let np = new_paths(found, existing);
    let s = existing + np;
    let n = existing.len() as int;
    lemma_new_indices(found, existing, found.len());
    assert forall|a: int, b: int| 0 <= a < s.len() && 0 <= b < s.len() && a < b implies s[a] != s[b] by {
        if b >= n {
            let ib = idx[b - n];
            assert(s[b] == found[ib]);
            assert(is_new(found, existing, ib));
            if a < n {
                assert(existing[a] == s[a]);
            } else {
                let ia = idx[a - n];
                assert(ia < ib);
                assert(found.take(ib)[ia] == found[ia]);
            }
        }
    }
    assert forall|a: int, b: int| 0 <= a < s.len() && 0 <= b < s.len() && a != b implies s[a] != s[b] by {
        if a > b {
            assert(s[b] != s[a]);
        }
    }
}

proof fn lemma_nothing_new(found: Seq<Seq<char>>, existing: Seq<Seq<char>>, k: nat)
    requires
        forall|i: int| 0 <= i < k ==> !is_new(found, existing, i),
    ensures
        new_indices(found, existing, k).len() == 0,
    decreases k,
{
    if k > 0 {
        lemma_nothing_new(found, existing, (k - 1) as nat);
    }
}

/// Reconciling the same found list a second time, once the tiles of the first
/// pass exist, creates no tile.
pub proof fn lemma_second_pass_adds_nothing(found: Seq<Seq<char>>, existing: Seq<Seq<char>>)
    ensures
        new_paths(found, existing + new_paths(found, existing)).len() == 0,
{
    let idx = new_indices(found, existing, found.len());
    let np = new_paths(found, existing);
    let e2 = existing + np;
    let n = existing.len() as int;
    lemma_new_indices(found, existing, found.len());
    assert forall|i: int| 0 <= i < found.len() implies !is_new(found, e2, i) by {
        if existing.contains(found[i]) {
            let w = choose|w: int| 0 <= w < existing.len() && existing[w] == found[i];
            assert(e2[w] == found[i]);
        } else if !found.take(i).contains(found[i]) {
            assert(is_new(found, existing, i));
            let j = choose|j: int| 0 <= j < idx.len() && idx[j] == i;
            assert(e2[n + j] == found[i]);
        }
    }
    lemma_nothing_new(found, e2, found.len());
}

proof fn lemma_first_occurrence(found: Seq<Seq<char>>, i: int) -> (j: int)
    requires
        0 <= i < found.len(),
    ensures
        0 <= j <= i,
        found[j] == found[i],
        !found.take(j).contains(found[i]),
    decreases i,
{
    if found.take(i).contains(found[i]) {
        let k = choose|k: int| 0 <= k < i && found.take(i)[k] == found[i];
        assert(found[k] == found[i]);
        lemma_first_occurrence(found, k)
    } else {
        i
    }
}

/// A path that is found, perhaps several times, and has no tile yet gets
/// exactly one new tile in a pass: it occurs once among the new paths.
pub proof fn lemma_new_path_gets_one_tile(found: Seq<Seq<char>>, existing: Seq<Seq<char>>, p: Seq<char>)
    requires
        found.contains(p),
        !existing.contains(p),
    ensures
        new_paths(found, existing).contains(p),
        new_paths(found, existing).no_duplicates(),
{
    let idx = new_indices(found, existing, found.len());
    let np = new_paths(found, existing);
    lemma_new_indices(found, existing, found.len());
    let i = choose|i: int| 0 <= i < found.len() && found[i] == p;
    let j = lemma_first_occurrence(found, i);
    assert(is_new(found, existing, j));
    let k = choose|k: int| 0 <= k < idx.len() && idx[k] == j;
    assert(np[k] == p);
    assert forall|a: int, b: int| 0 <= a < np.len() && 0 <= b < np.len() && a != b implies np[a] != np[b] by {
        let (lo, hi) = if a < b { (a, b) } else { (b, a) };
        assert(idx[lo] < idx[hi]);
        assert(is_new(found, existing, idx[hi]));
        assert(found.take(idx[hi])[idx[lo]] == found[idx[lo]]);
    }
}

/// Plans one reconciliation pass: each image of `imgs` that has no tile in
/// `existing`, and has not occurred earlier in `imgs`, gets one new tile, in
/// the order of `imgs`. The grid's side is `ceil(sqrt(imgs.len()))`, and a
/// new tile takes the place of its image's index in `imgs`.
pub fn slap_img_on_quad(imgs: &Vec<String>, existing: &Vec<String>) -> (plan: QuadPlan)
    ensures
        is_grid_size(imgs@.len() as nat, plan.grid_size as nat),
        plan.spawns@.map_values(|s: QuadSpawn| s.target@) == new_paths(paths_view(imgs@), paths_view(existing@)),
        plan.spawns@.len() == new_indices(paths_view(imgs@), paths_view(existing@), imgs@.len()).len(),
        forall|j: int| 0 <= j < plan.spawns@.len() ==> {
            let i = new_indices(paths_view(imgs@), paths_view(existing@), imgs@.len())[j];
            &&& #[trigger] plan.spawns@[j].index == i
            &&& plan.spawns@[j].target@ == imgs@[i]@
            &&& plan.spawns@[j].position == grid_position(i as nat, plan.grid_size as nat)
        },
{
    let ghost found = paths_view(imgs@);
    let ghost known = paths_view(existing@);
    let mut seen = StringHashSet::new();
    let mut k: usize = 0;
    while k < existing.len()
        invariant
            k <= existing@.len(),
            known == paths_view(existing@),
            forall|x: Seq<char>| seen@.contains(x) <==> known.take(k as int).contains(x),
        decreases existing@.len() - k,
    {
        seen.insert(existing[k].clone());
        proof {
            assert forall|x: Seq<char>| seen@.contains(x) <==> known.take(k + 1).contains(x) by {
                if known.take(k as int).contains(x) {
                    let w = choose|w: int| 0 <= w < known.take(k as int).len() && #[trigger] known.take(k as int)[w] == x;
                    assert(known.take(k + 1)[w] == x);
                }
                if x == existing@[k as int]@ {
                    assert(known.take(k + 1)[k as int] == x);
                }
                if known.take(k + 1).contains(x) {
                    let w = choose|w: int| 0 <= w < known.take(k + 1).len() && #[trigger] known.take(k + 1)[w] == x;
                    if w < k {
                        assert(known.take(k as int)[w] == x);
                    }
                }
            }
        }
        k = k + 1;
    }
    assert(known.take(k as int) =~= known);
    let grid_size = grid_size_for(imgs.len());
    let mut spawns: Vec<QuadSpawn> = Vec::new();
    let mut i: usize = 0;
    while i < imgs.len()
        invariant
            i <= imgs@.len(),
            found == paths_view(imgs@),
            known == paths_view(existing@),
            forall|x: Seq<char>| seen@.contains(x) <==> (known.contains(x) || found.take(i as int).contains(x)),
            is_grid_size(imgs@.len() as nat, grid_size as nat),
            spawns@.len() == new_indices(found, known, i as nat).len(),
            forall|j: int| 0 <= j < spawns@.len() ==> {
                let k = new_indices(found, known, i as nat)[j];
                &&& #[trigger] spawns@[j].index == k
                &&& spawns@[j].target@ == imgs@[k]@
                &&& spawns@[j].position == grid_position(k as nat, grid_size as nat)
            },
        decreases imgs@.len() - i,
    {
        proof {
            lemma_new_indices(found, known, i as nat);
            lemma_new_indices(found, known, (i + 1) as nat);
        }
        let path = &imgs[i];
        assert(found[i as int] == path@);
        let ghost seen_before = seen@;
        assert(forall|x: Seq<char>| seen_before.contains(x) <==> (known.contains(x) || found.take(i as int).contains(x)));
        let fresh = !seen.contains(path.as_str());
        if fresh {
            assert(!seen_before.contains(path@));
            assert(is_new(found, known, i as int));
            assert(grid_size > 0) by (nonlinear_arith)
                requires grid_size * grid_size >= imgs@.len(), i < imgs@.len();
            let position = calculate_grid_position(i, grid_size);
            let ghost prev = spawns@;
            spawns.push(QuadSpawn { target: path.clone(), index: i, position });
            seen.insert(path.clone());
            assert(new_indices(found, known, (i + 1) as nat) == new_indices(found, known, i as nat).push(i as int));
            assert forall|j: int| 0 <= j < prev.len() implies spawns@[j] == prev[j] by {}
        } else {
            assert(seen_before.contains(path@));
            assert(!is_new(found, known, i as int));
            assert(new_indices(found, known, (i + 1) as nat) == new_indices(found, known, i as nat));
        }
        proof {
            assert(seen@ =~= seen_before.insert(path@));
            assert forall|x: Seq<char>| seen@.contains(x) <==> (known.contains(x) || found.take(i + 1).contains(x)) by {
                if found.take(i as int).contains(x) {
                    let w = choose|w: int| 0 <= w < found.take(i as int).len() && #[trigger] found.take(i as int)[w] == x;
                    assert(found.take(i + 1)[w] == x);
                }
                if x == path@ {
                    assert(found.take(i + 1)[i as int] == x);
                }
                if found.take(i + 1).contains(x) {
                    let w = choose|w: int| 0 <= w < found.take(i + 1).len() && #[trigger] found.take(i + 1)[w] == x;
                    if w < i {
                        assert(found.take(i as int)[w] == x);
                    }
                }
            }
        }
        i = i + 1;
    }
    proof {
        assert(i as nat == imgs@.len());
        lemma_new_indices(found, known, i as nat);
        let idx = new_indices(found, known, i as nat);
        assert(idx == new_indices(paths_view(imgs@), paths_view(existing@), imgs@.len()));
        assert forall|j: int| 0 <= j < spawns@.len() implies {
            &&& spawns@[j].index == idx[j]
            &&& spawns@[j].target@ == imgs@[idx[j]]@
            &&& spawns@[j].target@ == found[idx[j]]
            &&& spawns@[j].position == grid_position(idx[j] as nat, grid_size as nat)
        } by {
            assert(spawns@[j].index == idx[j]);
        }
    }
    assert(spawns@.map_values(|s: QuadSpawn| s.target@) =~= new_paths(found, known));
    QuadPlan { grid_size, spawns }
}

} // verus!
