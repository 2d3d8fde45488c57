//! No chain is reported twice, where names are distinct and no module lists
//! an import twice.
//!
//! A chain is closed by the module whose import leads back to its start: the
//! module named before the last name. Every module is visited once, so the
//! chains one module closes all stem from its own imports, each of which
//! leads to another module and so ends the chain with another name.

use crate::catalog::{
    imports_distinct, lemma_resolve, names_along, names_distinct, resolve, Catalog, Chain,
};
use crate::completeness::newly_marked;
use crate::traversal::{
    closing_chain, extends, follow, lemma_extends_keeps_done,
    lemma_extends_keeps_marks, lemma_follow_extends, lemma_marking_keeps_nesting,
    lemma_scan_extends, lemma_visit_extends, scan, sweep, visit, well_nested, Walk,
};
use vstd::prelude::*;

verus! {

/// Module `x` closes the chain: the chain has at least two names, and the
/// name before its last is the name of `x`.
pub open spec fn closed_by(g: Catalog, chain: Chain, x: int) -> bool {
    &&& 0 <= x < g.len()
    &&& chain.len() >= 2
    &&& chain[chain.len() - 2] == g[x].name
}

/// Every chain reported so far is closed by a marked module.
pub open spec fn tails_marked(g: Catalog, w: Walk) -> bool {
    forall|i: int|
        0 <= i < w.cycles.len() ==> exists|x: int|
            w.done.contains(x) && closed_by(g, #[trigger] w.cycles[i], x)
}

/// Every chain reported between `earlier` and `later` is closed by `v` or by
/// a module marked between the two.
pub open spec fn new_tails(g: Catalog, earlier: Walk, later: Walk, v: int) -> bool {
    forall|i: int|
        earlier.cycles.len() <= i < later.cycles.len() ==> closed_by(
            g,
            #[trigger] later.cycles[i],
            v,
        ) || exists|x: int| newly_marked(earlier, later, x) && closed_by(g, later.cycles[i], x)
}

/// The chain ends with the name of a module that one of the first `k`
/// imports of `v` resolves to.
pub open spec fn ends_at_import(g: Catalog, v: int, k: nat, chain: Chain) -> bool {
    exists|p: int|
        0 <= p < k && resolve(g, #[trigger] g[v].imports[p]) is Some && chain.len() >= 2
            && chain.last() == g[resolve(g, g[v].imports[p]).unwrap()].name
}

/// Every chain that `v` closes stems from one of its first `k` imports.
pub open spec fn own_chains_stem(g: Catalog, v: int, k: nat, w: Walk) -> bool {
    forall|i: int|
        0 <= i < w.cycles.len() && closed_by(g, #[trigger] w.cycles[i], v) ==> ends_at_import(
            g,
            v,
            k,
            w.cycles[i],
        )
}

/// In a catalog of distinct names a chain is closed by one module only.
proof fn lemma_one_closer(g: Catalog, chain: Chain, x: int, y: int)
    requires
        names_distinct(g),
        closed_by(g, chain, x),
        closed_by(g, chain, y),
    ensures
        x == y,
{
    if x != y {
        assert(g[x].name != g[y].name);
    }
}

/// Chains closed by marked modules stay so in any state that extends the
/// one they were reported in, once the chains reported since are closed by
/// marked modules too.
proof fn lemma_tails_stay_marked(g: Catalog, earlier: Walk, later: Walk, v: int)
    requires
        extends(earlier, later),
        tails_marked(g, earlier),
        new_tails(g, earlier, later, v),
        later.done.contains(v),
    ensures
        tails_marked(g, later),
{
    assert forall|i: int| 0 <= i < later.cycles.len() implies exists|x: int|
        later.done.contains(x) && closed_by(g, #[trigger] later.cycles[i], x) by {
        if i < earlier.cycles.len() {
            assert(later.cycles[i] == earlier.cycles[i]);
            let x = choose|x: int| earlier.done.contains(x) && closed_by(g, earlier.cycles[i], x);
            lemma_extends_keeps_done(earlier, later, x);
        } else if closed_by(g, later.cycles[i], v) {
        } else {
            let x = choose|x: int|
                newly_marked(earlier, later, x) && closed_by(g, later.cycles[i], x);
            assert(later.done.contains(x));
        }
    }
}

/// A visit of an unmarked module reports no chain twice, and each chain it
/// reports is closed by a module it marks.
proof fn lemma_visit_reports_once(g: Catalog, v: int, path: Seq<int>, w: Walk)
    requires
        names_distinct(g),
        imports_distinct(g),
        0 <= v < g.len(),
        !w.done.contains(v),
        well_nested(g, path, w),
        w.cycles.no_duplicates(),
        tails_marked(g, w),
    ensures
        visit(g, v, path, w).cycles.no_duplicates(),
        tails_marked(g, visit(g, v, path, w)),
        new_tails(g, w, visit(g, v, path, w), v),
    decreases g.len() - path.len(), 0nat, 0nat,
{
    lemma_marking_keeps_nesting(g, v, path, w);
    let longer = path.push(v);
    let marked = Walk { done: w.done.push(v), cycles: w.cycles };
    let n = g[v].imports.len();
    let r = scan(g, v, n, longer, marked);
    assert(marked.done[w.done.len() as int] == v);
    assert(extends(w, marked));
    assert(new_tails(g, w, marked, v));
    lemma_tails_stay_marked(g, w, marked, v);
    assert(own_chains_stem(g, v, 0, marked)) by {
        assert forall|i: int|
            0 <= i < marked.cycles.len() && closed_by(
                g,
                #[trigger] marked.cycles[i],
                v,
            ) implies ends_at_import(g, v, 0, marked.cycles[i]) by {
            let x = choose|x: int| w.done.contains(x) && closed_by(g, w.cycles[i], x);
            lemma_one_closer(g, w.cycles[i], x, v);
        }
    }
    lemma_scan_reports_once(g, v, n, longer, marked);
    lemma_scan_extends(g, v, n, longer, marked);
    assert forall|i: int| w.cycles.len() <= i < r.cycles.len() implies closed_by(
        g,
        #[trigger] r.cycles[i],
        v,
    ) || exists|x: int| newly_marked(w, r, x) && closed_by(g, r.cycles[i], x) by {
        if !closed_by(g, r.cycles[i], v) {
            let x = choose|x: int| newly_marked(marked, r, x) && closed_by(g, r.cycles[i], x);
            assert(!w.done.contains(x)) by {
                if w.done.contains(x) {
                    lemma_extends_keeps_done(w, marked, x);
                }
            }
            assert(newly_marked(w, r, x));
        }
    }
}

/// Taking the first `k` imports of a module reports no chain twice, provided
/// that none was reported twice before and that no chain was closed by this
/// module before its imports were taken.
proof fn lemma_scan_reports_once(g: Catalog, v: int, k: nat, path: Seq<int>, w: Walk)
    requires
        names_distinct(g),
        imports_distinct(g),
        path.len() > 0,
        path.last() == v,
        k <= g[v].imports.len(),
        well_nested(g, path, w),
        w.cycles.no_duplicates(),
        tails_marked(g, w),
        own_chains_stem(g, v, 0, w),
    ensures
        scan(g, v, k, path, w).cycles.no_duplicates(),
        tails_marked(g, scan(g, v, k, path, w)),
        new_tails(g, w, scan(g, v, k, path, w), v),
        own_chains_stem(g, v, k, scan(g, v, k, path, w)),
    decreases g.len() - path.len(), k, 2nat,
{
    if k > 0 {
        let before = scan(g, v, (k - 1) as nat, path, w);
        let import = g[v].imports[k - 1];
        let r = follow(g, import, path, before);
        lemma_scan_reports_once(g, v, (k - 1) as nat, path, w);
        lemma_scan_extends(g, v, (k - 1) as nat, path, w);
        lemma_extends_keeps_marks(w, before, path, g);
        lemma_follow_extends(g, import, path, before);
        lemma_resolve(g, import);
        assert(before.done.contains(path[path.len() - 1]));
        assert(0 <= v < g.len());
        // The chains that were there before this import stem from earlier
        // imports, which are among the first `k` as well.
        assert forall|i: int|
            0 <= i < before.cycles.len() && closed_by(
                g,
                #[trigger] before.cycles[i],
                v,
            ) implies ends_at_import(g, v, k, before.cycles[i]) by {
            let p = choose|p: int|
                0 <= p < k - 1 && resolve(g, #[trigger] g[v].imports[p]) is Some
                    && before.cycles[i].len() >= 2 && before.cycles[i].last() == g[resolve(
                    g,
                    g[v].imports[p],
                ).unwrap()].name;
            assert(0 <= p < k && resolve(g, g[v].imports[p]) is Some);
        }
        match resolve(g, import) {
            None => {},
            Some(t) => {
                if !before.done.contains(t) {
                    lemma_visit_reports_once(g, t, path, before);
                    lemma_visit_extends(g, t, path, before);
                    assert forall|i: int|
                        0 <= i < r.cycles.len() && closed_by(
                            g,
                            #[trigger] r.cycles[i],
                            v,
                        ) implies ends_at_import(g, v, k, r.cycles[i]) by {
                        if i < before.cycles.len() {
                            assert(r.cycles[i] == before.cycles[i]);
                        } else {
                            // A new chain is closed by the visited module or
                            // by one marked during its visit, never by `v`.
                            if closed_by(g, r.cycles[i], t) {
                                lemma_one_closer(g, r.cycles[i], t, v);
                            } else {
                                let x = choose|x: int|
                                    newly_marked(before, r, x) && closed_by(g, r.cycles[i], x);
                                lemma_one_closer(g, r.cycles[i], x, v);
                            }
                        }
                    }
                    assert forall|i: int| w.cycles.len() <= i < r.cycles.len() implies closed_by(
                        g,
                        #[trigger] r.cycles[i],
                        v,
                    ) || exists|x: int|
                        newly_marked(w, r, x) && closed_by(g, r.cycles[i], x) by {
                        if i < before.cycles.len() {
                            assert(r.cycles[i] == before.cycles[i]);
                            if !closed_by(g, before.cycles[i], v) {
                                let x = choose|x: int|
                                    newly_marked(w, before, x) && closed_by(
                                        g,
                                        before.cycles[i],
                                        x,
                                    );
                                lemma_extends_keeps_done(before, r, x);
                                assert(newly_marked(w, r, x));
                            }
                        } else {
                            let x = if closed_by(g, r.cycles[i], t) {
                                t
                            } else {
                                choose|x: int|
                                    newly_marked(before, r, x) && closed_by(g, r.cycles[i], x)
                            };
                            assert(r.done.contains(x));
                            assert(!w.done.contains(x)) by {
                                if w.done.contains(x) {
                                    lemma_extends_keeps_done(w, before, x);
                                }
                            }
                            assert(newly_marked(w, r, x));
                        }
                    }
                } else {
                    path.index_of_first_ensures(t);
                    match path.index_of_first(t) {
                        None => {},
                        Some(pos) => {
                            let chain = closing_chain(g, path, pos);
                            let tail = names_along(g, path.subrange(pos, path.len() as int));
                            assert(chain == tail.push(g[t].name));
                            assert(chain[chain.len() - 2] == tail[tail.len() - 1]);
                            assert(closed_by(g, chain, v));
                            assert(chain.last() == g[t].name);
                            assert(ends_at_import(g, v, k, chain)) by {
                                assert(resolve(g, g[v].imports[k - 1]) is Some);
                            }
                            // The chain is new: one that `v` closed before
                            // ends at what an earlier import resolves to,
                            // and that is another module.
                            assert forall|i: int| 0 <= i < before.cycles.len() implies before.cycles[i]
                                != chain by {
                                if before.cycles[i] == chain {
                                    let p = choose|p: int|
                                        0 <= p < k - 1 && resolve(
                                            g,
                                            #[trigger] g[v].imports[p],
                                        ) is Some && before.cycles[i].len() >= 2
                                            && before.cycles[i].last() == g[resolve(
                                            g,
                                            g[v].imports[p],
                                        ).unwrap()].name;
                                    let earlier = resolve(g, g[v].imports[p]).unwrap();
                                    lemma_resolve(g, g[v].imports[p]);
                                    if earlier != t {
                                        assert(g[earlier].name != g[t].name);
                                    }
                                    assert(g[v].imports[p] == g[v].imports[k - 1]);
                                    assert(g[v].imports.no_duplicates());
                                }
                            }
                            assert(r.cycles == before.cycles.push(chain));
                            assert(r.cycles.no_duplicates()) by {
                                assert forall|i: int, j: int|
                                    0 <= i < r.cycles.len() && 0 <= j < r.cycles.len() && i
                                        != j implies r.cycles[i] != r.cycles[j] by {
                                    if i < before.cycles.len() && j < before.cycles.len() {
                                        assert(r.cycles[i] == before.cycles[i]);
                                        assert(r.cycles[j] == before.cycles[j]);
                                    }
                                }
                            }
                            assert forall|i: int| 0 <= i < r.cycles.len() implies exists|x: int|
                                r.done.contains(x) && closed_by(g, #[trigger] r.cycles[i], x) by {
                                if i < before.cycles.len() {
                                    assert(r.cycles[i] == before.cycles[i]);
                                    let x = choose|x: int|
                                        before.done.contains(x) && closed_by(
                                            g,
                                            before.cycles[i],
                                            x,
                                        );
                                    assert(r.done.contains(x));
                                } else {
                                    assert(r.done.contains(v));
                                }
                            }
                            assert forall|i: int|
                                0 <= i < r.cycles.len() && closed_by(
                                    g,
                                    #[trigger] r.cycles[i],
                                    v,
                                ) implies ends_at_import(g, v, k, r.cycles[i]) by {
                                if i < before.cycles.len() {
                                    assert(r.cycles[i] == before.cycles[i]);
                                }
                            }
                            assert forall|i: int|
                                w.cycles.len() <= i < r.cycles.len() implies closed_by(
                                g,
                                #[trigger] r.cycles[i],
                                v,
                            ) || exists|x: int|
                                newly_marked(w, r, x) && closed_by(g, r.cycles[i], x) by {
                                if i < before.cycles.len() {
                                    assert(r.cycles[i] == before.cycles[i]);
                                    if !closed_by(g, before.cycles[i], v) {
                                        let x = choose|x: int|
                                            newly_marked(w, before, x) && closed_by(
                                                g,
                                                before.cycles[i],
                                                x,
                                            );
                                        assert(newly_marked(w, r, x));
                                    }
                                } else {
                                    assert(r.cycles[i] == chain);
                                }
                            }
                        },
                    }
                }
            },
        }
    }
}

/// Trying the roots `0..n` reports no chain twice, where names are distinct
/// and no module lists an import twice.
pub proof fn lemma_sweep_reports_once(g: Catalog, n: nat)
    requires
        names_distinct(g),
        imports_distinct(g),
        n <= g.len(),
    ensures
        sweep(g, n).cycles.no_duplicates(),
        tails_marked(g, sweep(g, n)),
    decreases n,
{
    if n > 0 {
        let before = sweep(g, (n - 1) as nat);
        lemma_sweep_reports_once(g, (n - 1) as nat);
        if !before.done.contains(n - 1) {
            lemma_visit_reports_once(g, n - 1, Seq::empty(), before);
        }
    }
}

} // verus!
