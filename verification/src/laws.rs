//! What holds of every catalog and of every traversal of it.

use crate::catalog::{
    acyclic, contents, edge, imports_distinct, is_closed_walk, is_elementary_cycle,
    is_elementary_walk, is_import_cycle, is_walk, lemma_resolve, lemma_resolve_own_name, merged,
    names_along, names_distinct, resolve, Catalog, Chain,
};
use crate::uniqueness::lemma_sweep_reports_once;
use crate::traversal::{
    closing_chain, extends, find_cycles, follow, lemma_extends_keeps_cycles,
    lemma_extends_keeps_marks, lemma_follow_extends, lemma_marking_keeps_nesting,
    lemma_scan_extends, lemma_sweep_marks_roots, lemma_visit_extends,
    lemma_visiting_keeps_nesting, scan, sweep, visit, well_nested, with_mark, Walk,
};
use vstd::prelude::*;

verus! {

/// Every cycle reported so far names the modules of a closed walk that
/// passes no module twice, but for the one it begins and ends with.
pub open spec fn all_closed(g: Catalog, w: Walk) -> bool {
    forall|i: int| 0 <= i < w.cycles.len() ==> is_elementary_cycle(g, #[trigger] w.cycles[i])
}

/// Some module named `a` has `b` among its imports, and `b` names a module
/// of the catalog.
pub open spec fn imports_by_name(g: Catalog, a: Seq<char>, b: Seq<char>) -> bool {
    &&& exists|i: int| 0 <= i < g.len() && (#[trigger] g[i]).name == a && g[i].imports.contains(b)
    &&& resolve(g, b) is Some
}

/// The chain that closes on the path is the chain of names of a closed walk
/// that passes no module twice, provided the path is a walk without
/// duplicates and its last module imports the one at `pos`.
proof fn lemma_closing_chain_is_cycle(g: Catalog, path: Seq<int>, pos: int)
    requires
        0 <= pos < path.len(),
        is_walk(g, path),
        path.no_duplicates(),
        edge(g, path.last(), path[pos]),
    ensures
        is_elementary_cycle(g, closing_chain(g, path, pos)),
{
    let tail = path.subrange(pos, path.len() as int);
    let c = tail.push(path[pos]);
    assert(is_walk(g, c)) by {
        assert forall|k: int| 0 <= k < c.len() - 1 implies edge(g, #[trigger] c[k], c[k + 1]) by {
            assert(c[k] == path[pos + k]);
            if k + 1 < tail.len() {
                assert(c[k + 1] == path[pos + k + 1]);
            }
        }
    }
    assert(names_along(g, c) =~= closing_chain(g, path, pos));
    assert(is_closed_walk(g, c));
    assert(c.drop_last() =~= tail);
    assert(is_elementary_walk(g, c));
}

/// A visit reached along a walk reports only closed walks.
proof fn lemma_visit_reports_cycles(g: Catalog, v: int, path: Seq<int>, w: Walk)
    requires
        is_walk(g, path),
        path.len() > 0 ==> edge(g, path.last(), v),
        0 <= v < g.len(),
        !path.contains(v),
        well_nested(g, path, w),
        all_closed(g, w),
    ensures
        all_closed(g, visit(g, v, path, w)),
    decreases g.len() - path.len(), 0nat, 0nat,
{
    if path.len() < g.len() {
        let longer = path.push(v);
        assert(is_walk(g, longer)) by {
            assert forall|k: int| 0 <= k < longer.len() - 1 implies edge(
                g,
                #[trigger] longer[k],
                longer[k + 1],
            ) by {
                if k + 1 < path.len() {
                    assert(longer[k] == path[k]);
                    assert(longer[k + 1] == path[k + 1]);
                }
            }
        }
        lemma_visiting_keeps_nesting(g, v, path, w);
        lemma_scan_reports_cycles(g, v, g[v].imports.len(), longer, with_mark(w, v));
    }
}

/// Taking the imports of the module at the end of a walk reports only closed
/// walks.
proof fn lemma_scan_reports_cycles(g: Catalog, v: int, k: nat, path: Seq<int>, w: Walk)
    requires
        is_walk(g, path),
        path.len() > 0,
        path.last() == v,
        0 <= v < g.len(),
        k <= g[v].imports.len(),
        well_nested(g, path, w),
        all_closed(g, w),
    ensures
        all_closed(g, scan(g, v, k, path, w)),
    decreases g.len() - path.len(), k, 2nat,
{
    if k > 0 {
        lemma_scan_reports_cycles(g, v, (k - 1) as nat, path, w);
        lemma_scan_extends(g, v, (k - 1) as nat, path, w);
        lemma_extends_keeps_marks(w, scan(g, v, (k - 1) as nat, path, w), path, g);
        lemma_follow_reports_cycles(
            g,
            g[v].imports[k - 1],
            path,
            scan(g, v, (k - 1) as nat, path, w),
        );
    }
}

/// Taking one import of the module at the end of a walk reports only closed
/// walks.
proof fn lemma_follow_reports_cycles(g: Catalog, import: Seq<char>, path: Seq<int>, w: Walk)
    requires
        is_walk(g, path),
        path.len() > 0,
        0 <= path.last() < g.len(),
        g[path.last()].imports.contains(import),
        well_nested(g, path, w),
        all_closed(g, w),
    ensures
        all_closed(g, follow(g, import, path, w)),
    decreases g.len() - path.len(), 0nat, 1nat,
{
    lemma_resolve(g, import);
    match resolve(g, import) {
        None => {},
        Some(t) => {
            assert(edge(g, path.last(), t));
            if !w.done.contains(t) {
                lemma_marking_keeps_nesting(g, t, path, w);
                lemma_visit_reports_cycles(g, t, path, w);
            } else {
                path.index_of_first_ensures(t);
                match path.index_of_first(t) {
                    Some(pos) => {
                        lemma_closing_chain_is_cycle(g, path, pos);
                    },
                    None => {},
                }
            }
        },
    }
}

/// Trying roots reports only closed walks.
proof fn lemma_sweep_reports_cycles(g: Catalog, n: nat)
    requires
        n <= g.len(),
    ensures
        all_closed(g, sweep(g, n)),
    decreases n,
{
    if n > 0 {
        lemma_sweep_reports_cycles(g, (n - 1) as nat);
        let before = sweep(g, (n - 1) as nat);
        if !before.done.contains(n - 1) {
            lemma_visit_reports_cycles(g, n - 1, Seq::empty(), before);
        }
    }
}

/// Every reported cycle names the modules of a closed walk that passes no
/// module twice, but for the one it begins and ends with.
pub proof fn lemma_cycles_are_elementary(g: Catalog)
    ensures
        forall|i: int|
            0 <= i < find_cycles(g).len() ==> is_elementary_cycle(
                g,
                #[trigger] find_cycles(g)[i],
            ),
{
    lemma_sweep_reports_cycles(g, g.len());
}

/// Every reported cycle names the modules of a closed walk: a chain of at
/// least one edge that ends at the module it began with, each module having
/// an import that resolves to the next.
pub proof fn lemma_cycles_are_closed_walks(g: Catalog)
    ensures
        forall|i: int|
            0 <= i < find_cycles(g).len() ==> is_import_cycle(g, #[trigger] find_cycles(g)[i]),
{
    lemma_cycles_are_elementary(g);
    assert forall|i: int| 0 <= i < find_cycles(g).len() implies is_import_cycle(
        g,
        #[trigger] find_cycles(g)[i],
    ) by {
        let chain = find_cycles(g)[i];
        let c = choose|c: Seq<int>| is_elementary_walk(g, c) && chain == names_along(g, c);
        assert(is_closed_walk(g, c));
    }
}

/// In a catalog of distinct names, the chain of a closed walk that passes no
/// module twice holds no name twice, but for the one it begins and ends with.
pub proof fn lemma_elementary_cycle_names(g: Catalog, chain: Chain)
    requires
        names_distinct(g),
        is_elementary_cycle(g, chain),
    ensures
        chain.drop_last().no_duplicates(),
{
    let c = choose|c: Seq<int>| is_elementary_walk(g, c) && chain == names_along(g, c);
    let front = chain.drop_last();
    assert forall|i: int, j: int| 0 <= i < front.len() && 0 <= j < front.len() && i != j implies front[i]
        != front[j] by {
        assert(edge(g, c[i], c[i + 1]));
        assert(edge(g, c[j], c[j + 1]));
        assert(c.drop_last()[i] == c[i]);
        assert(c.drop_last()[j] == c[j]);
        assert(front[i] == g[c[i]].name);
        assert(front[j] == g[c[j]].name);
    }
}

/// In a catalog of distinct names, only the start of a reported chain
/// repeats: without its last name, the chain holds no name twice.
pub proof fn lemma_only_the_start_repeats(g: Catalog)
    requires
        names_distinct(g),
    ensures
        forall|i: int|
            0 <= i < find_cycles(g).len() ==> (#[trigger] find_cycles(g)[i]).drop_last().no_duplicates(),
{
    lemma_cycles_are_elementary(g);
    assert forall|i: int| 0 <= i < find_cycles(g).len() implies (#[trigger] find_cycles(
        g,
    )[i]).drop_last().no_duplicates() by {
        lemma_elementary_cycle_names(g, find_cycles(g)[i]);
    }
}

/// The chain reads as a cycle: it has at least two names, its first and last
/// names are equal, and of any two neighbours the first names a module whose
/// imports contain the second.
pub open spec fn reads_as_cycle(g: Catalog, chain: Chain) -> bool {
    &&& chain.len() >= 2
    &&& chain.first() == chain.last()
    &&& forall|k: int|
        0 <= k < chain.len() - 1 ==> imports_by_name(g, #[trigger] chain[k], chain[k + 1])
}

/// The chain of a closed walk reads as a cycle.
pub proof fn lemma_import_cycle_reads(g: Catalog, chain: Chain)
    requires
        is_import_cycle(g, chain),
    ensures
        reads_as_cycle(g, chain),
{
    let c = choose|c: Seq<int>| is_closed_walk(g, c) && chain == names_along(g, c);
    assert forall|k: int| 0 <= k < chain.len() - 1 implies imports_by_name(
        g,
        #[trigger] chain[k],
        chain[k + 1],
    ) by {
        assert(edge(g, c[k], c[k + 1]));
        let p = choose|p: int|
            0 <= p < g[c[k]].imports.len() && resolve(g, #[trigger] g[c[k]].imports[p]) == Some(
                c[k + 1],
            );
        lemma_resolve(g, g[c[k]].imports[p]);
        assert(g[c[k]].imports[p] == chain[k + 1]);
        assert(g[c[k]].name == chain[k]);
    }
}

/// Where names are distinct and no module lists an import twice, no chain is
/// reported twice. (A module that lists an import twice closes the same
/// chain once for each.)
pub proof fn lemma_no_chain_twice(g: Catalog)
    requires
        names_distinct(g),
        imports_distinct(g),
    ensures
        find_cycles(g).no_duplicates(),
{
    lemma_sweep_reports_once(g, g.len());
}

/// A catalog without a cyclic chain of edges has no cycle reported.
pub proof fn lemma_acyclic_reports_nothing(g: Catalog)
    requires
        acyclic(g),
    ensures
        find_cycles(g) == Seq::<Chain>::empty(),
{
    lemma_cycles_are_closed_walks(g);
    if find_cycles(g).len() > 0 {
        let chain = find_cycles(g)[0];
        assert(is_import_cycle(g, chain));
        let c = choose|c: Seq<int>| is_closed_walk(g, c) && chain == names_along(g, c);
        assert(!is_closed_walk(g, c));
    }
    assert(find_cycles(g) =~= Seq::<Chain>::empty());
}

/// Two traversals of one catalog report the same cycles in the same order.
pub proof fn lemma_traversal_repeats(g: Catalog, first: Seq<Chain>, second: Seq<Chain>)
    requires
        first == find_cycles(g),
        second == find_cycles(g),
    ensures
        first == second,
{
}

/// Module `v` resolves under its own name and has that name among its
/// imports.
pub open spec fn imports_itself(g: Catalog, v: int) -> bool {
    &&& 0 <= v < g.len()
    &&& resolve(g, g[v].name) == Some(v)
    &&& g[v].imports.contains(g[v].name)
}

/// The two-name chain of a module that imports itself.
pub open spec fn self_chain(g: Catalog, v: int) -> Chain {
    seq![g[v].name, g[v].name]
}

/// Of the modules marked in `later` and not in `earlier`, each one that
/// imports itself has its two-name chain reported in `later`.
pub open spec fn self_imports_reported(g: Catalog, earlier: Walk, later: Walk) -> bool {
    forall|u: int|
        #![trigger later.done.contains(u)]
        later.done.contains(u) && !earlier.done.contains(u) && imports_itself(g, u)
            ==> later.cycles.contains(self_chain(g, u))
}

/// Two steps that each report the self-imports of what they mark do so
/// together.
proof fn lemma_self_imports_reported_chain(g: Catalog, a: Walk, b: Walk, c: Walk)
    requires
        extends(a, b),
        extends(b, c),
        self_imports_reported(g, a, b),
        self_imports_reported(g, b, c),
    ensures
        self_imports_reported(g, a, c),
{
    assert forall|u: int|
        #![trigger c.done.contains(u)]
        c.done.contains(u) && !a.done.contains(u) && imports_itself(g, u) implies c.cycles.contains(
        self_chain(g, u),
    ) by {
        if b.done.contains(u) {
            lemma_extends_keeps_cycles(b, c, self_chain(g, u));
        }
    }
}

/// A visit reports the self-imports of every module it marks.
proof fn lemma_visit_reports_self_imports(g: Catalog, v: int, path: Seq<int>, w: Walk)
    requires
        0 <= v < g.len(),
        !w.done.contains(v),
        well_nested(g, path, w),
    ensures
        self_imports_reported(g, w, visit(g, v, path, w)),
    decreases g.len() - path.len(), 0nat, 0nat,
{
    lemma_marking_keeps_nesting(g, v, path, w);
    let longer = path.push(v);
    let marked = Walk { done: w.done.push(v), cycles: w.cycles };
    let n = g[v].imports.len();
    let r = scan(g, v, n, longer, marked);
    lemma_scan_reports_self_imports(g, v, n, longer, marked);
    assert forall|u: int|
        #![trigger r.done.contains(u)]
        r.done.contains(u) && !w.done.contains(u) && imports_itself(g, u) implies r.cycles.contains(
        self_chain(g, u),
    ) by {
        if u == v {
            let p = choose|p: int| 0 <= p < n && g[v].imports[p] == g[v].name;
            assert(g[v].imports[p] == g[v].name);
        } else {
            assert(!marked.done.contains(u)) by {
                if marked.done.contains(u) {
                    let j = choose|j: int| 0 <= j < marked.done.len() && marked.done[j] == u;
                    assert(w.done[j] == u);
                }
            }
        }
    }
}

/// Taking the first `k` imports of the module at the end of the path reports
/// the self-imports of every module marked on the way, and the module's own
/// if one of these imports is its own name.
proof fn lemma_scan_reports_self_imports(g: Catalog, v: int, k: nat, path: Seq<int>, w: Walk)
    requires
        path.len() > 0,
        path.last() == v,
        k <= g[v].imports.len(),
        well_nested(g, path, w),
    ensures
        self_imports_reported(g, w, scan(g, v, k, path, w)),
        forall|p: int|
            0 <= p < k && #[trigger] g[v].imports[p] == g[v].name && resolve(g, g[v].name) == Some(
                v,
            ) ==> scan(g, v, k, path, w).cycles.contains(self_chain(g, v)),
    decreases g.len() - path.len(), k, 2nat,
{
    if k > 0 {
        let before = scan(g, v, (k - 1) as nat, path, w);
        let import = g[v].imports[k - 1];
        let r = follow(g, import, path, before);
        lemma_scan_reports_self_imports(g, v, (k - 1) as nat, path, w);
        lemma_scan_extends(g, v, (k - 1) as nat, path, w);
        lemma_extends_keeps_marks(w, before, path, g);
        lemma_follow_extends(g, import, path, before);
        lemma_follow_reports_self_imports(g, import, path, before);
        lemma_self_imports_reported_chain(g, w, before, r);
        assert forall|p: int|
            0 <= p < k && #[trigger] g[v].imports[p] == g[v].name && resolve(g, g[v].name) == Some(
                v,
            ) implies r.cycles.contains(self_chain(g, v)) by {
            if p < k - 1 {
                lemma_extends_keeps_cycles(before, r, self_chain(g, v));
            } else {
                assert(before.done.contains(path[path.len() - 1]));
                path.index_of_first_ensures(v);
                let pos = path.index_of_first(v).unwrap();
                assert(pos == path.len() - 1);
                assert(closing_chain(g, path, pos) =~= self_chain(g, v));
                assert(r.cycles[before.cycles.len() as int] == self_chain(g, v));
            }
        }
    }
}

/// Taking one import reports the self-imports of every module marked on the
/// way.
proof fn lemma_follow_reports_self_imports(g: Catalog, import: Seq<char>, path: Seq<int>, w: Walk)
    requires
        well_nested(g, path, w),
    ensures
        self_imports_reported(g, w, follow(g, import, path, w)),
    decreases g.len() - path.len(), 0nat, 1nat,
{
    lemma_resolve(g, import);
    match resolve(g, import) {
        None => {},
        Some(t) => {
            if !w.done.contains(t) {
                lemma_visit_reports_self_imports(g, t, path, w);
            }
        },
    }
}

/// After the roots `0..n` were tried, each marked module that imports itself
/// has its two-name chain reported.
proof fn lemma_sweep_reports_self_imports(g: Catalog, n: nat)
    requires
        n <= g.len(),
    ensures
        forall|u: int|
            #![trigger sweep(g, n).done.contains(u)]
            sweep(g, n).done.contains(u) && imports_itself(g, u) ==> sweep(g, n).cycles.contains(
                self_chain(g, u),
            ),
    decreases n,
{
    if n > 0 {
        let before = sweep(g, (n - 1) as nat);
        let r = sweep(g, n);
        lemma_sweep_reports_self_imports(g, (n - 1) as nat);
        if !before.done.contains(n - 1) {
            let path = Seq::<int>::empty();
            lemma_visit_extends(g, n - 1, path, before);
            lemma_visit_reports_self_imports(g, n - 1, path, before);
        }
        assert(extends(before, r));
        assert forall|u: int|
            #![trigger r.done.contains(u)]
            r.done.contains(u) && imports_itself(g, u) implies r.cycles.contains(
            self_chain(g, u),
        ) by {
            if before.done.contains(u) {
                lemma_extends_keeps_cycles(before, r, self_chain(g, u));
            }
        }
    }
}

/// A module that has its own name among its imports, in a catalog of distinct
/// names, has the two-name chain of that name reported.
pub proof fn lemma_self_import_is_reported(g: Catalog, v: int)
    requires
        names_distinct(g),
        0 <= v < g.len(),
        g[v].imports.contains(g[v].name),
    ensures
        find_cycles(g).contains(seq![g[v].name, g[v].name]),
{
    lemma_resolve_own_name(g, v);
    lemma_sweep_marks_roots(g, g.len());
    lemma_sweep_reports_self_imports(g, g.len());
    assert(sweep(g, g.len()).done.contains(v));
}

/// Merging is associative: merging `c` into the merge of `a` and `b` gives
/// the catalog that merging the merge of `b` and `c` into `a` gives, and so
/// the same bag of (name, imports) pairs.
pub proof fn lemma_merge_associative(a: Catalog, b: Catalog, c: Catalog)
    ensures
        merged(merged(a, b), c) == merged(a, merged(b, c)),
        contents(merged(merged(a, b), c)) == contents(merged(a, merged(b, c))),
{
    assert(merged(merged(a, b), c) =~= merged(a, merged(b, c)));
}

} // verus!
