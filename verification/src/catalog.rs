//! The mathematical model of a module catalog: what a catalog holds, how an
//! import is resolved, how two catalogs are merged, and which modules import
//! which.

use vstd::multiset::Multiset;
use vstd::prelude::*;

verus! {

/// What one module is, as a value: its dotted name, the raw import references
/// in the order they were recorded, and the index the catalog gave it.
pub struct ModuleView {
    pub name: Seq<char>,
    pub imports: Seq<Seq<char>>,
    pub id: nat,
}

/// A catalog is the sequence of its modules, in insertion order.
pub type Catalog = Seq<ModuleView>;

/// A chain of module names, read as "the first imports the second imports ...".
pub type Chain = Seq<Seq<char>>;

/// The module names in catalog order.
pub open spec fn names(g: Catalog) -> Seq<Seq<char>> {
    g.map_values(|m: ModuleView| m.name)
}

/// Every module carries its own position as index.
pub open spec fn indexed(g: Catalog) -> bool {
    forall|i: int| 0 <= i < g.len() ==> (#[trigger] g[i]).id == i
}

/// No two modules share a name.
pub open spec fn names_distinct(g: Catalog) -> bool {
    forall|i: int, j: int|
        0 <= i < g.len() && 0 <= j < g.len() && i != j ==> (#[trigger] g[i]).name != (
        #[trigger] g[j]).name
}

/// The position of the first module whose name is exactly `import`, if any.
pub open spec fn resolve(g: Catalog, import: Seq<char>) -> Option<int> {
    names(g).index_of_first(import)
}

/// The catalog after `append(name, imports)`.
pub open spec fn appended(g: Catalog, name: Seq<char>, imports: Seq<Seq<char>>) -> Catalog {
    g.push(ModuleView { name, imports, id: g.len() })
}

/// The modules of `g`, re-indexed to start at `base`.
pub open spec fn reindexed(g: Catalog, base: nat) -> Catalog {
    Seq::new(
        g.len(),
        |i: int| ModuleView { name: g[i].name, imports: g[i].imports, id: (base + i) as nat },
    )
}

/// The catalog that holds the modules of `a` followed by those of `b`, the
/// latter re-indexed to continue where `a` ends.
pub open spec fn merged(a: Catalog, b: Catalog) -> Catalog {
    a + reindexed(b, a.len())
}

/// What a catalog holds when indices are ignored: the bag of its
/// (name, imports) pairs.
pub open spec fn contents(g: Catalog) -> Multiset<(Seq<char>, Seq<Seq<char>>)> {
    g.map_values(|m: ModuleView| (m.name, m.imports)).to_multiset()
}

/// Module `a` matches module `b`: they have the same name, and every import
/// of `a` occurs among the imports of `b`. Indices play no part.
pub open spec fn module_matches(a: ModuleView, b: ModuleView) -> bool {
    &&& a.name == b.name
    &&& forall|j: int| 0 <= j < a.imports.len() ==> b.imports.contains(#[trigger] a.imports[j])
}

/// Some module of `g` matches `m`.
pub open spec fn matched_in(g: Catalog, m: ModuleView) -> bool {
    exists|j: int| 0 <= j < g.len() && module_matches(#[trigger] g[j], m)
}

/// Catalog `a` is covered by catalog `b`: they hold equally many modules, and
/// each module of `a` is matched by some module of `b`.
pub open spec fn catalog_covered(a: Catalog, b: Catalog) -> bool {
    &&& a.len() == b.len()
    &&& forall|i: int| 0 <= i < a.len() ==> matched_in(b, #[trigger] a[i])
}

/// Module `i` has an import that resolves to module `j`.
pub open spec fn edge(g: Catalog, i: int, j: int) -> bool {
    &&& 0 <= i < g.len()
    &&& exists|k: int| 0 <= k < g[i].imports.len() && resolve(g, #[trigger] g[i].imports[k]) == Some(j)
}

/// `c` leads along edges from each of its modules to the next.
pub open spec fn is_walk(g: Catalog, c: Seq<int>) -> bool {
    forall|k: int| 0 <= k < c.len() - 1 ==> edge(g, #[trigger] c[k], c[k + 1])
}

/// `c` is a walk of at least one edge that ends where it began.
pub open spec fn is_closed_walk(g: Catalog, c: Seq<int>) -> bool {
    &&& c.len() >= 2
    &&& c.first() == c.last()
    &&& is_walk(g, c)
}

/// The catalog has no cyclic chain of edges.
pub open spec fn acyclic(g: Catalog) -> bool {
    forall|c: Seq<int>| !is_closed_walk(g, c)
}

/// The names of the modules that `c` passes, in order.
pub open spec fn names_along(g: Catalog, c: Seq<int>) -> Chain {
    c.map_values(|i: int| g[i].name)
}

/// `chain` names the modules of a closed walk in `g`.
pub open spec fn is_import_cycle(g: Catalog, chain: Chain) -> bool {
    exists|c: Seq<int>| is_closed_walk(g, c) && chain == #[trigger] names_along(g, c)
}

/// `c` is a closed walk that passes no module twice, but for the one it
/// begins and ends with.
pub open spec fn is_elementary_walk(g: Catalog, c: Seq<int>) -> bool {
    is_closed_walk(g, c) && c.drop_last().no_duplicates()
}

/// `chain` names the modules of a closed walk in `g` that passes no module
/// twice, but for the one it begins and ends with.
pub open spec fn is_elementary_cycle(g: Catalog, chain: Chain) -> bool {
    exists|c: Seq<int>| is_elementary_walk(g, c) && chain == #[trigger] names_along(g, c)
}

/// No module lists the same import twice.
pub open spec fn imports_distinct(g: Catalog) -> bool {
    forall|i: int| 0 <= i < g.len() ==> (#[trigger] g[i]).imports.no_duplicates()
}

/// An index that holds `x` and has no earlier occurrence of `x` is the first
/// index of `x`.
pub proof fn lemma_first_index_is<A>(s: Seq<A>, x: A, i: int)
    requires
        0 <= i < s.len(),
        s[i] == x,
        forall|j: int| 0 <= j < i ==> s[j] != x,
    ensures
        s.index_of_first(x) == Some(i),
{
    s.index_of_first_ensures(x);
    assert(s.contains(x));
}

/// A value that occurs nowhere has no first index.
pub proof fn lemma_first_index_none<A>(s: Seq<A>, x: A)
    requires
        forall|j: int| 0 <= j < s.len() ==> s[j] != x,
    ensures
        s.index_of_first(x) is None,
{
    s.index_of_first_ensures(x);
}

/// What `resolve` returns, spelled out: the match is in range, carries the
/// name, and no earlier module does; without a match no module carries it.
pub proof fn lemma_resolve(g: Catalog, import: Seq<char>)
    ensures
        match resolve(g, import) {
            Some(i) => {
                &&& 0 <= i < g.len()
                &&& g[i].name == import
                &&& forall|j: int| 0 <= j < i ==> (#[trigger] g[j]).name != import
            },
            None => forall|j: int| 0 <= j < g.len() ==> (#[trigger] g[j]).name != import,
        },
{
    let ns = names(g);
    ns.index_of_first_ensures(import);
    match resolve(g, import) {
        Some(i) => {
            assert forall|j: int| 0 <= j < i implies (#[trigger] g[j]).name != import by {
                assert(ns[j] == g[j].name);
            }
        },
        None => {
            assert forall|j: int| 0 <= j < g.len() implies (#[trigger] g[j]).name != import by {
                assert(ns[j] == g[j].name);
                assert(ns.contains(ns[j]));
            }
        },
    }
}

/// An index that carries the name and has no earlier namesake is what
/// `resolve` returns.
pub proof fn lemma_resolve_is(g: Catalog, import: Seq<char>, i: int)
    requires
        0 <= i < g.len(),
        g[i].name == import,
        forall|j: int| 0 <= j < i ==> (#[trigger] g[j]).name != import,
    ensures
        resolve(g, import) == Some(i),
{
    lemma_resolve(g, import);
    assert(names(g)[i] == import);
    assert(names(g).contains(import));
}

/// No index carries the name: `resolve` finds nothing.
pub proof fn lemma_resolve_none(g: Catalog, import: Seq<char>)
    requires
        forall|j: int| 0 <= j < g.len() ==> (#[trigger] g[j]).name != import,
    ensures
        resolve(g, import) is None,
{
    lemma_resolve(g, import);
}

/// In a catalog of distinct names every module's own name resolves to it.
pub proof fn lemma_resolve_own_name(g: Catalog, i: int)
    requires
        names_distinct(g),
        0 <= i < g.len(),
    ensures
        resolve(g, g[i].name) == Some(i),
{
    lemma_resolve_is(g, g[i].name, i);
}

} // verus!
