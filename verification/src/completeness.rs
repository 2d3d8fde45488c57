//! The traversal misses no cyclic catalog: where the edges of a catalog close
//! a walk, at least one cycle is reported.
//!
//! The argument follows the first module of a closed walk that gets marked.
//! Its visit marks the whole walk, since every edge out of a module marked
//! during a visit leads to a marked module; so the module before it on the
//! walk is visited while it is still on the path, and the import that leads
//! back to it reports a cycle.

use crate::catalog::{acyclic, edge, is_closed_walk, lemma_resolve, resolve, Catalog, Chain};
use crate::laws::lemma_acyclic_reports_nothing;
use crate::traversal::{
    extends, find_cycles, follow, lemma_extends_keeps_done, lemma_extends_keeps_marks,
    lemma_follow_extends, lemma_marking_keeps_nesting, lemma_scan_extends,
    lemma_sweep_marks_roots, lemma_visit_extends, scan, sweep, visit, well_nested, Walk,
};
use vstd::prelude::*;

verus! {

/// Module `x` is marked in `later` and was not in `earlier`.
pub open spec fn newly_marked(earlier: Walk, later: Walk, x: int) -> bool {
    later.done.contains(x) && !earlier.done.contains(x)
}

/// Every edge out of a module marked between `earlier` and `later` leads to
/// a module marked in `later`.
pub open spec fn edges_followed(g: Catalog, earlier: Walk, later: Walk) -> bool {
    forall|x: int, y: int|
        newly_marked(earlier, later, x) && #[trigger] edge(g, x, y) ==> later.done.contains(y)
}

/// No module of the walk `c` is marked in `w`.
pub open spec fn untouched(c: Seq<int>, w: Walk) -> bool {
    forall|i: int| 0 <= i < c.len() ==> !w.done.contains(#[trigger] c[i])
}

/// Two steps that each follow the edges of what they mark do so together.
proof fn lemma_edges_followed_chain(g: Catalog, a: Walk, b: Walk, c: Walk)
    requires
        extends(a, b),
        extends(b, c),
        edges_followed(g, a, b),
        edges_followed(g, b, c),
    ensures
        edges_followed(g, a, c),
{
    assert forall|x: int, y: int| newly_marked(a, c, x) && #[trigger] edge(g, x, y) implies c.done.contains(
        y,
    ) by {
        if b.done.contains(x) {
            assert(newly_marked(a, b, x));
            lemma_extends_keeps_done(b, c, y);
        } else {
            assert(newly_marked(b, c, x));
        }
    }
}

/// A visit follows every edge out of every module it marks.
proof fn lemma_visit_follows_edges(g: Catalog, v: int, path: Seq<int>, w: Walk)
    requires
        0 <= v < g.len(),
        !w.done.contains(v),
        well_nested(g, path, w),
    ensures
        edges_followed(g, w, visit(g, v, path, w)),
    decreases g.len() - path.len(), 0nat, 0nat,
{
    lemma_marking_keeps_nesting(g, v, path, w);
    let longer = path.push(v);
    let marked = Walk { done: w.done.push(v), cycles: w.cycles };
    let n = g[v].imports.len();
    let r = scan(g, v, n, longer, marked);
    lemma_scan_follows_edges(g, v, n, longer, marked);
    assert forall|x: int, y: int| newly_marked(w, r, x) && #[trigger] edge(g, x, y) implies r.done.contains(
        y,
    ) by {
        if x == v {
            let p = choose|p: int|
                0 <= p < g[v].imports.len() && resolve(g, #[trigger] g[v].imports[p]) == Some(y);
            assert(resolve(g, g[v].imports[p]) is Some);
        } else {
            assert(!marked.done.contains(x)) by {
                if marked.done.contains(x) {
                    let j = choose|j: int| 0 <= j < marked.done.len() && marked.done[j] == x;
                    assert(w.done[j] == x);
                }
            }
            assert(newly_marked(marked, r, x));
        }
    }
}

/// Taking the first `k` imports of the module at the end of the path follows
/// every edge out of every module marked on the way, and marks what these
/// imports resolve to.
proof fn lemma_scan_follows_edges(g: Catalog, v: int, k: nat, path: Seq<int>, w: Walk)
    requires
        path.len() > 0,
        path.last() == v,
        k <= g[v].imports.len(),
        well_nested(g, path, w),
    ensures
        edges_followed(g, w, scan(g, v, k, path, w)),
        forall|p: int|
            0 <= p < k && resolve(g, #[trigger] g[v].imports[p]) is Some ==> scan(
                g,
                v,
                k,
                path,
                w,
            ).done.contains(resolve(g, g[v].imports[p]).unwrap()),
    decreases g.len() - path.len(), k, 2nat,
{
    if k > 0 {
        let before = scan(g, v, (k - 1) as nat, path, w);
        let import = g[v].imports[k - 1];
        let r = follow(g, import, path, before);
        lemma_scan_follows_edges(g, v, (k - 1) as nat, path, w);
        lemma_scan_extends(g, v, (k - 1) as nat, path, w);
        lemma_extends_keeps_marks(w, before, path, g);
        lemma_follow_extends(g, import, path, before);
        lemma_follow_follows_edges(g, import, path, before);
        lemma_edges_followed_chain(g, w, before, r);
        assert forall|p: int|
            0 <= p < k && resolve(g, #[trigger] g[v].imports[p]) is Some implies r.done.contains(
            resolve(g, g[v].imports[p]).unwrap(),
        ) by {
            if p < k - 1 {
                lemma_extends_keeps_done(before, r, resolve(g, g[v].imports[p]).unwrap());
            }
        }
    }
}

/// Taking one import follows every edge out of every module marked on the
/// way, and marks what the import resolves to.
proof fn lemma_follow_follows_edges(g: Catalog, import: Seq<char>, path: Seq<int>, w: Walk)
    requires
        well_nested(g, path, w),
    ensures
        edges_followed(g, w, follow(g, import, path, w)),
        resolve(g, import) is Some ==> follow(g, import, path, w).done.contains(
            resolve(g, import).unwrap(),
        ),
    decreases g.len() - path.len(), 0nat, 1nat,
{
    lemma_resolve(g, import);
    match resolve(g, import) {
        None => {},
        Some(t) => {
            if !w.done.contains(t) {
                lemma_marking_keeps_nesting(g, t, path, w);
                lemma_visit_follows_edges(g, t, path, w);
                lemma_visit_extends(g, t, path, w);
            }
        },
    }
}

/// An import of the module at the end of the path that resolves to a module
/// on the path has a cycle reported when it is taken.
proof fn lemma_back_import_reports(
    g: Catalog,
    v: int,
    k: nat,
    path: Seq<int>,
    w: Walk,
    p: int,
    y: int,
)
    requires
        path.len() > 0,
        path.last() == v,
        k <= g[v].imports.len(),
        well_nested(g, path, w),
        0 <= p < k,
        resolve(g, g[v].imports[p]) == Some(y),
        path.contains(y),
    ensures
        scan(g, v, k, path, w).cycles.len() > w.cycles.len(),
    decreases k,
{
    let before = scan(g, v, (k - 1) as nat, path, w);
    let import = g[v].imports[k - 1];
    lemma_scan_extends(g, v, (k - 1) as nat, path, w);
    lemma_follow_extends(g, import, path, before);
    if p < k - 1 {
        lemma_back_import_reports(g, v, (k - 1) as nat, path, w, p, y);
    } else {
        lemma_extends_keeps_marks(w, before, path, g);
        let i = choose|i: int| 0 <= i < path.len() && path[i] == y;
        assert(before.done.contains(path[i]));
        path.index_of_first_ensures(y);
    }
}

/// A visit that marks a module with an edge to a module on its path, the
/// visited module included, reports a cycle.
proof fn lemma_visit_reports_back_edge(
    g: Catalog,
    v: int,
    path: Seq<int>,
    w: Walk,
    x: int,
    y: int,
)
    requires
        0 <= v < g.len(),
        !w.done.contains(v),
        well_nested(g, path, w),
        newly_marked(w, visit(g, v, path, w), x),
        path.push(v).contains(y),
        edge(g, x, y),
    ensures
        visit(g, v, path, w).cycles.len() > w.cycles.len(),
    decreases g.len() - path.len(), 0nat, 0nat,
{
    lemma_marking_keeps_nesting(g, v, path, w);
    let longer = path.push(v);
    let marked = Walk { done: w.done.push(v), cycles: w.cycles };
    let n = g[v].imports.len();
    let r = scan(g, v, n, longer, marked);
    if x == v {
        let p = choose|p: int|
            0 <= p < g[v].imports.len() && resolve(g, #[trigger] g[v].imports[p]) == Some(y);
        lemma_back_import_reports(g, v, n, longer, marked, p, y);
    } else {
        assert(!marked.done.contains(x)) by {
            if marked.done.contains(x) {
                let j = choose|j: int| 0 <= j < marked.done.len() && marked.done[j] == x;
                assert(w.done[j] == x);
            }
        }
        lemma_scan_reports_back_edge(g, v, n, longer, marked, x, y);
    }
}

/// Taking imports that marks a module with an edge to a module on the path
/// reports a cycle.
proof fn lemma_scan_reports_back_edge(
    g: Catalog,
    v: int,
    k: nat,
    path: Seq<int>,
    w: Walk,
    x: int,
    y: int,
)
    requires
        path.len() > 0,
        path.last() == v,
        k <= g[v].imports.len(),
        well_nested(g, path, w),
        newly_marked(w, scan(g, v, k, path, w), x),
        path.contains(y),
        edge(g, x, y),
    ensures
        scan(g, v, k, path, w).cycles.len() > w.cycles.len(),
    decreases g.len() - path.len(), k, 2nat,
{
    if k > 0 {
        let before = scan(g, v, (k - 1) as nat, path, w);
        let import = g[v].imports[k - 1];
        lemma_scan_extends(g, v, (k - 1) as nat, path, w);
        lemma_extends_keeps_marks(w, before, path, g);
        lemma_follow_extends(g, import, path, before);
        if before.done.contains(x) {
            lemma_scan_reports_back_edge(g, v, (k - 1) as nat, path, w, x, y);
        } else {
            lemma_follow_reports_back_edge(g, import, path, before, x, y);
        }
    }
}

/// Taking one import that marks a module with an edge to a module on the
/// path reports a cycle.
proof fn lemma_follow_reports_back_edge(
    g: Catalog,
    import: Seq<char>,
    path: Seq<int>,
    w: Walk,
    x: int,
    y: int,
)
    requires
        well_nested(g, path, w),
        newly_marked(w, follow(g, import, path, w), x),
        path.contains(y),
        edge(g, x, y),
    ensures
        follow(g, import, path, w).cycles.len() > w.cycles.len(),
    decreases g.len() - path.len(), 0nat, 1nat,
{
    lemma_resolve(g, import);
    match resolve(g, import) {
        None => {},
        Some(t) => {
            if !w.done.contains(t) {
                let i = choose|i: int| 0 <= i < path.len() && path[i] == y;
                assert(path.push(t)[i] == y);
                lemma_visit_reports_back_edge(g, t, path, w, x, y);
            }
        },
    }
}

/// From a marked module of a walk on, every module of the walk is marked,
/// provided that none was marked before and every edge was followed.
proof fn lemma_walk_marked_onward(g: Catalog, c: Seq<int>, w: Walk, r: Walk, i: int, j: int)
    requires
        is_closed_walk(g, c),
        edges_followed(g, w, r),
        untouched(c, w),
        0 <= i <= j < c.len(),
        r.done.contains(c[i]),
    ensures
        r.done.contains(c[j]),
    decreases j - i,
{
    if j > i {
        lemma_walk_marked_onward(g, c, w, r, i, j - 1);
        assert(edge(g, c[j - 1], c[j - 1 + 1]));
        assert(newly_marked(w, r, c[j - 1]));
    }
}

/// If one module of a closed walk is marked, none was marked before and
/// every edge was followed, then every module of the walk is marked.
proof fn lemma_walk_all_marked(g: Catalog, c: Seq<int>, w: Walk, r: Walk, i: int)
    requires
        is_closed_walk(g, c),
        edges_followed(g, w, r),
        untouched(c, w),
        0 <= i < c.len(),
        r.done.contains(c[i]),
    ensures
        forall|j: int| 0 <= j < c.len() ==> r.done.contains(#[trigger] c[j]),
{
    lemma_walk_marked_onward(g, c, w, r, i, c.len() - 1);
    assert(c[0] == c[c.len() - 1]);
    assert forall|j: int| 0 <= j < c.len() implies r.done.contains(#[trigger] c[j]) by {
        lemma_walk_marked_onward(g, c, w, r, 0, j);
    }
}

/// A visit that marks a module of a closed walk of which no module was
/// marked before reports a cycle.
proof fn lemma_visit_reports_walk(
    g: Catalog,
    v: int,
    path: Seq<int>,
    w: Walk,
    c: Seq<int>,
    j: int,
)
    requires
        0 <= v < g.len(),
        !w.done.contains(v),
        well_nested(g, path, w),
        is_closed_walk(g, c),
        untouched(c, w),
        0 <= j < c.len(),
        visit(g, v, path, w).done.contains(c[j]),
    ensures
        visit(g, v, path, w).cycles.len() > w.cycles.len(),
    decreases g.len() - path.len(), 0nat, 0nat,
{
    lemma_marking_keeps_nesting(g, v, path, w);
    let longer = path.push(v);
    let marked = Walk { done: w.done.push(v), cycles: w.cycles };
    let n = g[v].imports.len();
    let r = visit(g, v, path, w);
    if c.contains(v) {
        let i = choose|i: int| 0 <= i < c.len() && c[i] == v;
        lemma_visit_follows_edges(g, v, path, w);
        lemma_visit_extends(g, v, path, w);
        lemma_walk_all_marked(g, c, w, r, i);
        let before = if i > 0 {
            i - 1
        } else {
            c.len() - 2
        };
        assert(edge(g, c[before], c[before + 1]));
        assert(c[before + 1] == v);
        assert(newly_marked(w, r, c[before]));
        assert(longer[path.len() as int] == v);
        lemma_visit_reports_back_edge(g, v, path, w, c[before], v);
    } else {
        assert(untouched(c, marked)) by {
            assert forall|i: int| 0 <= i < c.len() implies !marked.done.contains(#[trigger] c[i]) by {
                if marked.done.contains(c[i]) {
                    let m = choose|m: int| 0 <= m < marked.done.len() && marked.done[m] == c[i];
                    if m < w.done.len() {
                        assert(w.done[m] == c[i]);
                    }
                }
            }
        }
        lemma_scan_reports_walk(g, v, n, longer, marked, c, j);
    }
}

/// Taking imports that marks a module of a closed walk of which no module
/// was marked before reports a cycle.
proof fn lemma_scan_reports_walk(
    g: Catalog,
    v: int,
    k: nat,
    path: Seq<int>,
    w: Walk,
    c: Seq<int>,
    j: int,
)
    requires
        path.len() > 0,
        path.last() == v,
        k <= g[v].imports.len(),
        well_nested(g, path, w),
        is_closed_walk(g, c),
        untouched(c, w),
        0 <= j < c.len(),
        scan(g, v, k, path, w).done.contains(c[j]),
    ensures
        scan(g, v, k, path, w).cycles.len() > w.cycles.len(),
    decreases g.len() - path.len(), k, 2nat,
{
    if k > 0 {
        let before = scan(g, v, (k - 1) as nat, path, w);
        let import = g[v].imports[k - 1];
        lemma_scan_extends(g, v, (k - 1) as nat, path, w);
        lemma_extends_keeps_marks(w, before, path, g);
        lemma_follow_extends(g, import, path, before);
        if untouched(c, before) {
            lemma_follow_reports_walk(g, import, path, before, c, j);
        } else {
            let i = choose|i: int| 0 <= i < c.len() && before.done.contains(#[trigger] c[i]);
            lemma_scan_reports_walk(g, v, (k - 1) as nat, path, w, c, i);
        }
    }
}

/// Taking one import that marks a module of a closed walk of which no
/// module was marked before reports a cycle.
proof fn lemma_follow_reports_walk(
    g: Catalog,
    import: Seq<char>,
    path: Seq<int>,
    w: Walk,
    c: Seq<int>,
    j: int,
)
    requires
        well_nested(g, path, w),
        is_closed_walk(g, c),
        untouched(c, w),
        0 <= j < c.len(),
        follow(g, import, path, w).done.contains(c[j]),
    ensures
        follow(g, import, path, w).cycles.len() > w.cycles.len(),
    decreases g.len() - path.len(), 0nat, 1nat,
{
    lemma_resolve(g, import);
    match resolve(g, import) {
        None => {},
        Some(t) => {
            if !w.done.contains(t) {
                lemma_visit_reports_walk(g, t, path, w, c, j);
            }
        },
    }
}

/// Trying roots until a module of a closed walk is marked reports a cycle.
proof fn lemma_sweep_reports_walk(g: Catalog, n: nat, c: Seq<int>, j: int)
    requires
        n <= g.len(),
        is_closed_walk(g, c),
        0 <= j < c.len(),
        sweep(g, n).done.contains(c[j]),
    ensures
        sweep(g, n).cycles.len() > 0,
    decreases n,
{
    if n > 0 {
        let before = sweep(g, (n - 1) as nat);
        let path = Seq::<int>::empty();
        if !before.done.contains(n - 1) {
            lemma_visit_extends(g, n - 1, path, before);
        }
        if untouched(c, before) {
            lemma_visit_reports_walk(g, n - 1, path, before, c, j);
        } else {
            let i = choose|i: int| 0 <= i < c.len() && before.done.contains(#[trigger] c[i]);
            lemma_sweep_reports_walk(g, (n - 1) as nat, c, i);
        }
    }
}

/// A catalog whose edges close a walk has a cycle reported.
pub proof fn lemma_cyclic_reports_a_cycle(g: Catalog)
    requires
        !acyclic(g),
    ensures
        find_cycles(g).len() > 0,
{
    let c = choose|c: Seq<int>| is_closed_walk(g, c);
    assert(edge(g, c[0], c[0int + 1]));
    lemma_sweep_marks_roots(g, g.len());
    lemma_sweep_reports_walk(g, g.len(), c, 0);
}

/// The traversal reports no cycle exactly if the catalog has no cyclic chain
/// of edges.
pub proof fn lemma_reports_nothing_iff_acyclic(g: Catalog)
    ensures
        find_cycles(g) == Seq::<Chain>::empty() <==> acyclic(g),
{
    if acyclic(g) {
        lemma_acyclic_reports_nothing(g);
    } else {
        lemma_cyclic_reports_a_cycle(g);
    }
}

} // verus!
