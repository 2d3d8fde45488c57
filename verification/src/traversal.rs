//! The depth-first traversal that reports import cycles, as a function of the
//! catalog.
//!
//! The traversal keeps the chain of modules from the current root down to the
//! module being visited (`path`) and threads two things through every step
//! (`Walk`): the modules whose visit has begun, in the order it began, and the
//! cycles reported so far.

use crate::catalog::{names_along, resolve, Catalog, Chain};
use vstd::prelude::*;
use vstd::set_lib::{lemma_int_range, lemma_len_subset, set_int_range};

verus! {

/// The state that the traversal threads through its steps.
pub struct Walk {
    /// The modules whose visit has begun, in the order it began.
    pub done: Seq<int>,
    /// The cycles reported so far, oldest first.
    pub cycles: Seq<Chain>,
}

/// The state before anything was visited.
pub open spec fn fresh() -> Walk {
    Walk { done: Seq::empty(), cycles: Seq::empty() }
}

/// The cycle that closes when the module at `path[pos]` is imported again
/// from the end of `path`: the names from `pos` to the end, then the name at
/// `pos` once more.
pub open spec fn closing_chain(g: Catalog, path: Seq<int>, pos: int) -> Chain {
    names_along(g, path.subrange(pos, path.len() as int)).push(g[path[pos]].name)
}

/// The state with module `v` marked: `w` itself if `v` is marked in it, else
/// `w` with `v` added behind the marked modules.
pub open spec fn with_mark(w: Walk, v: int) -> Walk {
    if w.done.contains(v) {
        w
    } else {
        Walk { done: w.done.push(v), cycles: w.cycles }
    }
}

/// Visits module `v`, reached along `path`: marks it unless it is marked
/// already, puts it on the path and takes its imports in order.
///
/// The traversal visits modules that are not on the path, along paths that
/// hold marked modules only and none of them twice (`well_nested`). Such a
/// path is shorter than the catalog (`lemma_visiting_keeps_nesting`), so the
/// comparison below never fails there. On a path that is as long as the
/// catalog, or longer, the visit does nothing; this bounds the depth of the
/// recursion whatever the path holds.
pub open spec fn visit(g: Catalog, v: int, path: Seq<int>, w: Walk) -> Walk
    decreases g.len() - path.len(), 0nat, 0nat,
{
    if path.len() < g.len() {
        scan(g, v, g[v].imports.len(), path.push(v), with_mark(w, v))
    } else {
        w
    }
}

/// The state after the first `k` imports of `v` were taken, starting from `w`,
/// with `v` at the end of `path`.
pub open spec fn scan(g: Catalog, v: int, k: nat, path: Seq<int>, w: Walk) -> Walk
    decreases g.len() - path.len(), k, 2nat,
{
    if k == 0 {
        w
    } else {
        let before = scan(g, v, (k - 1) as nat, path, w);
        follow(g, g[v].imports[k - 1], path, before)
    }
}

/// Takes one import of the module at the end of `path`.
///
/// An import that resolves to no module is skipped. One that resolves to a
/// module not yet marked has that module visited. One that resolves to a
/// marked module reports a cycle if the module is on the path, and is skipped
/// otherwise.
pub open spec fn follow(g: Catalog, import: Seq<char>, path: Seq<int>, w: Walk) -> Walk
    decreases g.len() - path.len(), 0nat, 1nat,
{
    match resolve(g, import) {
        None => w,
        Some(t) => if !w.done.contains(t) {
            visit(g, t, path, w)
        } else {
            match path.index_of_first(t) {
                Some(pos) => Walk {
                    done: w.done,
                    cycles: w.cycles.push(closing_chain(g, path, pos)),
                },
                None => w,
            }
        },
    }
}

/// The state after the modules `0..n` were tried as roots, in order: each one
/// not yet marked is visited with an empty path.
pub open spec fn sweep(g: Catalog, n: nat) -> Walk
    decreases n,
{
    if n == 0 {
        fresh()
    } else {
        let before = sweep(g, (n - 1) as nat);
        if before.done.contains(n - 1) {
            before
        } else {
            visit(g, n - 1, Seq::empty(), before)
        }
    }
}

/// The cycles that the traversal of the whole catalog reports, in the order
/// in which their closing imports are met.
pub open spec fn find_cycles(g: Catalog) -> Seq<Chain> {
    sweep(g, g.len()).cycles
}

/// The path is a duplicate-free chain of marked modules of the catalog.
pub open spec fn well_nested(g: Catalog, path: Seq<int>, w: Walk) -> bool {
    &&& path.no_duplicates()
    &&& forall|i: int|
        0 <= i < path.len() ==> 0 <= #[trigger] path[i] < g.len() && w.done.contains(path[i])
}

/// `later` holds everything `earlier` holds, in the same places, and maybe
/// more behind it.
pub open spec fn extends(earlier: Walk, later: Walk) -> bool {
    &&& earlier.done.is_prefix_of(later.done)
    &&& earlier.cycles.is_prefix_of(later.cycles)
}

/// A duplicate-free path within the catalog that misses one of its modules
/// is shorter than the catalog.
pub proof fn lemma_path_has_room(g: Catalog, path: Seq<int>, v: int)
    requires
        path.no_duplicates(),
        forall|i: int| 0 <= i < path.len() ==> 0 <= #[trigger] path[i] < g.len(),
        0 <= v < g.len(),
        !path.contains(v),
    ensures
        path.len() < g.len(),
{
    let longer = path.push(v);
    assert(longer.no_duplicates());
    longer.unique_seq_to_set();
    let all = set_int_range(0, g.len() as int);
    lemma_int_range(0, g.len() as int);
    assert(longer.to_set().subset_of(all)) by {
        assert forall|x: int| longer.to_set().contains(x) implies all.contains(x) by {
            let i = choose|i: int| 0 <= i < longer.len() && longer[i] == x;
            if i < path.len() {
                assert(longer[i] == path[i]);
            }
        }
    }
    lemma_len_subset(longer.to_set(), all);
}

/// A module marked in a state is marked in every state that extends it.
pub proof fn lemma_extends_keeps_done(earlier: Walk, later: Walk, x: int)
    requires
        extends(earlier, later),
        earlier.done.contains(x),
    ensures
        later.done.contains(x),
{
    let i = choose|i: int| 0 <= i < earlier.done.len() && earlier.done[i] == x;
    assert(later.done[i] == earlier.done[i]);
}

/// A chain reported in a state is reported in every state that extends it.
pub proof fn lemma_extends_keeps_cycles(earlier: Walk, later: Walk, chain: Chain)
    requires
        extends(earlier, later),
        earlier.cycles.contains(chain),
    ensures
        later.cycles.contains(chain),
{
    let i = choose|i: int| 0 <= i < earlier.cycles.len() && earlier.cycles[i] == chain;
    assert(later.cycles[i] == earlier.cycles[i]);
}

/// A visit only adds to the marked modules and to the reported cycles.
pub proof fn lemma_visit_extends(g: Catalog, v: int, path: Seq<int>, w: Walk)
    ensures
        extends(w, visit(g, v, path, w)),
        visit(g, v, path, w).done.contains(v) || path.len() >= g.len(),
    decreases g.len() - path.len(), 0nat, 0nat,
{
    if path.len() < g.len() {
        let marked = with_mark(w, v);
        lemma_scan_extends(g, v, g[v].imports.len(), path.push(v), marked);
        assert(extends(w, marked));
        assert(marked.done.contains(v)) by {
            if !w.done.contains(v) {
                assert(marked.done[w.done.len() as int] == v);
            }
        }
        lemma_extends_keeps_done(marked, visit(g, v, path, w), v);
    }
}

/// Taking imports only adds to the marked modules and to the reported cycles.
pub proof fn lemma_scan_extends(g: Catalog, v: int, k: nat, path: Seq<int>, w: Walk)
    ensures
        extends(w, scan(g, v, k, path, w)),
    decreases g.len() - path.len(), k, 2nat,
{
    if k > 0 {
        let before = scan(g, v, (k - 1) as nat, path, w);
        lemma_scan_extends(g, v, (k - 1) as nat, path, w);
        lemma_follow_extends(g, g[v].imports[k - 1], path, before);
    }
}

/// Taking one import only adds to the marked modules and to the reported
/// cycles.
pub proof fn lemma_follow_extends(g: Catalog, import: Seq<char>, path: Seq<int>, w: Walk)
    ensures
        extends(w, follow(g, import, path, w)),
    decreases g.len() - path.len(), 0nat, 1nat,
{
    match resolve(g, import) {
        None => {},
        Some(t) => {
            if !w.done.contains(t) {
                lemma_visit_extends(g, t, path, w);
            }
        },
    }
}

/// Marking a module that is not on a well nested path and putting it on the
/// path gives a well nested path again, and the path has room for it.
pub proof fn lemma_visiting_keeps_nesting(g: Catalog, v: int, path: Seq<int>, w: Walk)
    requires
        0 <= v < g.len(),
        !path.contains(v),
        well_nested(g, path, w),
    ensures
        path.len() < g.len(),
        well_nested(g, path.push(v), with_mark(w, v)),
{
    let longer = path.push(v);
    let marked = with_mark(w, v);
    lemma_path_has_room(g, path, v);
    assert(marked.done.contains(v)) by {
        if !w.done.contains(v) {
            assert(marked.done[w.done.len() as int] == v);
        }
    }
    assert forall|i: int| 0 <= i < longer.len() implies 0 <= #[trigger] longer[i] < g.len()
        && marked.done.contains(longer[i]) by {
        if i < path.len() {
            let j = choose|j: int| 0 <= j < w.done.len() && w.done[j] == path[i];
            assert(marked.done[j] == path[i]);
        }
    }
}

/// The same for a module that is not marked yet: it is not on the path, and
/// marking it adds it behind the marked modules.
pub proof fn lemma_marking_keeps_nesting(g: Catalog, v: int, path: Seq<int>, w: Walk)
    requires
        0 <= v < g.len(),
        !w.done.contains(v),
        well_nested(g, path, w),
    ensures
        path.len() < g.len(),
        !path.contains(v),
        with_mark(w, v) == (Walk { done: w.done.push(v), cycles: w.cycles }),
        well_nested(g, path.push(v), Walk { done: w.done.push(v), cycles: w.cycles }),
{
    assert(!path.contains(v)) by {
        if path.contains(v) {
            let i = choose|i: int| 0 <= i < path.len() && path[i] == v;
            assert(w.done.contains(path[i]));
        }
    }
    lemma_visiting_keeps_nesting(g, v, path, w);
}

/// Once the roots `0..n` were tried, each of them is marked.
pub proof fn lemma_sweep_marks_roots(g: Catalog, n: nat)
    requires
        n <= g.len(),
    ensures
        forall|i: int| 0 <= i < n ==> sweep(g, n).done.contains(i),
    decreases n,
{
    if n > 0 {
        let before = sweep(g, (n - 1) as nat);
        let after = sweep(g, n);
        lemma_sweep_marks_roots(g, (n - 1) as nat);
        if !before.done.contains(n - 1) {
            let path = Seq::<int>::empty();
            lemma_marking_keeps_nesting(g, n - 1, path, before);
            lemma_visit_extends(g, n - 1, path, before);
        }
        assert forall|i: int| 0 <= i < n implies after.done.contains(i) by {
            if i < n - 1 {
                lemma_extends_keeps_done(before, after, i);
            }
        }
    }
}

/// The path stays well nested in any state that extends the one it is well
/// nested in.
pub proof fn lemma_extends_keeps_marks(earlier: Walk, later: Walk, path: Seq<int>, g: Catalog)
    requires
        extends(earlier, later),
        well_nested(g, path, earlier),
    ensures
        well_nested(g, path, later),
{
    assert forall|i: int| 0 <= i < path.len() implies later.done.contains(#[trigger] path[i]) by {
        let j = choose|j: int| 0 <= j < earlier.done.len() && earlier.done[j] == path[i];
        assert(later.done[j] == earlier.done[j]);
    }
}

} // verus!
