//! Modules, the catalog that owns them, and the search for import cycles.

use crate::catalog::{
    acyclic, appended, catalog_covered, imports_distinct, indexed, is_elementary_cycle,
    is_import_cycle, lemma_first_index_is, lemma_first_index_none, lemma_resolve_is,
    lemma_resolve_none, matched_in, merged, module_matches, names_along, names_distinct, resolve,
    Catalog, Chain, ModuleView,
};
use crate::completeness::lemma_cyclic_reports_a_cycle;
use crate::laws::{
    lemma_acyclic_reports_nothing, lemma_cycles_are_closed_walks, lemma_cycles_are_elementary,
    lemma_elementary_cycle_names, lemma_import_cycle_reads, lemma_no_chain_twice,
    lemma_self_import_is_reported, reads_as_cycle,
};
use crate::traversal::{
    closing_chain, find_cycles, follow, fresh, scan, sweep, visit, with_mark, Walk,
};
use vstd::prelude::*;
use vstd::std_specs::cmp::PartialEqSpecImpl;

verus! {

/// Tells whether `needle` occurs among `haystack`.
fn contains_string(haystack: &Vec<String>, needle: &String) -> (found: bool)
    ensures
        found == haystack.deep_view().contains(needle@),
{
    let mut i: usize = 0;
    while i < haystack.len()
        invariant
            i <= haystack.len(),
            forall|j: int| 0 <= j < i ==> haystack.deep_view()[j] != needle@,
        decreases haystack.len() - i,
    {
        if haystack[i] == *needle {
            assert(haystack.deep_view()[i as int] == needle@);
            return true;
        }
        i += 1;
    }
    false
}

/// Copies a list of strings.
fn copy_strings(list: &Vec<String>) -> (copy: Vec<String>)
    ensures
        copy.deep_view() == list.deep_view(),
{
    let mut copy: Vec<String> = Vec::new();
    let mut i: usize = 0;
    while i < list.len()
        invariant
            i <= list.len(),
            copy.len() == i,
            forall|j: int| 0 <= j < i ==> copy.deep_view()[j] == list.deep_view()[j],
        decreases list.len() - i,
    {
        copy.push(list[i].clone());
        i += 1;
    }
    assert(copy.deep_view() =~= list.deep_view());
    copy
}

/// One source unit: its dotted name, the raw import references found in it,
/// and its index in the catalog that owns it.
#[derive(Debug)]
pub struct PythonModule {
    /// Fully qualified dotted name.
    pub name: String,
    /// Raw import references, in the order they were found.
    pub imports: Vec<String>,
    /// Position within the owning catalog.
    pub self_id: usize,
}

impl View for PythonModule {
    type V = ModuleView;

    /// The view holds the text of `name`, the texts of `imports` in order,
    /// and the index.
    open spec fn view(&self) -> ModuleView {
        ModuleView {
            name: self.name@,
            imports: self.imports.deep_view(),
            id: self.self_id as nat,
        }
    }
}

impl PythonModule {
    /// A module with the given name, imports and index.
    pub fn new(name: String, imports: Vec<String>, self_id: usize) -> (module: Self)
        ensures
            module@ == (ModuleView {
                name: name@,
                imports: imports.deep_view(),
                id: self_id as nat,
            }),
    {
        Self { name, imports, self_id }
    }

    /// The index this module carries.
    pub fn id(&self) -> (id: usize)
        ensures
            id == self@.id,
    {
        self.self_id
    }

    /// The module's dotted name.
    pub fn name(&self) -> (name: &String)
        ensures
            name@ == self@.name,
    {
        &self.name
    }

    /// The module's raw import references, in the order they were found.
    pub fn imports(&self) -> (imports: &Vec<String>)
        ensures
            imports.deep_view() == self@.imports,
    {
        &self.imports
    }

    /// Gives the module another index; name and imports stay.
    pub fn update_id(&mut self, new_id: usize)
        ensures
            final(self)@ == (ModuleView { id: new_id as nat, ..old(self)@ }),
    {
        self.self_id = new_id;
    }
}

impl Clone for PythonModule {
    fn clone(&self) -> (copy: Self)
        ensures
            copy@ == self@,
    {
        Self {
            name: self.name.clone(),
            imports: copy_strings(&self.imports),
            self_id: self.self_id,
        }
    }
}

impl PartialEq for PythonModule {
    /// Two modules compare equal when their names agree and every import of
    /// the left one occurs among the imports of the right one; indices are
    /// not compared.
    fn eq(&self, other: &Self) -> (equal: bool) {
        if !(self.name == other.name) {
            return false;
        }
        let mut i: usize = 0;
        while i < self.imports.len()
            invariant
                i <= self.imports.len(),
                forall|j: int|
                    0 <= j < i ==> other@.imports.contains(#[trigger] self@.imports[j]),
            decreases self.imports.len() - i,
        {
            if !contains_string(&other.imports, &self.imports[i]) {
                assert(!other@.imports.contains(self@.imports[i as int]));
                return false;
            }
            i += 1;
        }
        true
    }
}

impl PartialEqSpecImpl for PythonModule {
    open spec fn obeys_eq_spec() -> bool {
        true
    }

    open spec fn eq_spec(&self, other: &Self) -> bool {
        module_matches(self@, other@)
    }
}

/// One closed import chain: the names of the modules it passes, with the
/// first name repeated at the end.
#[derive(Debug)]
pub struct ImportCycle {
    pub modules: Vec<String>,
}

impl View for ImportCycle {
    type V = Chain;

    open spec fn view(&self) -> Chain {
        self.modules.deep_view()
    }
}

impl ImportCycle {
    /// The empty chain.
    pub fn new() -> (cycle: Self)
        ensures
            cycle@ == Seq::<Seq<char>>::empty(),
    {
        let cycle = Self { modules: Vec::new() };
        assert(cycle@ =~= Seq::<Seq<char>>::empty());
        cycle
    }

    /// Appends one module name to the chain.
    pub fn add_module(&mut self, module: String)
        ensures
            final(self)@ == old(self)@.push(module@),
    {
        self.modules.push(module);
        assert(self@ =~= old(self)@.push(module@));
    }
}

impl PartialEq for ImportCycle {
    /// Two chains are equal when they hold the same names in the same order.
    fn eq(&self, other: &Self) -> (equal: bool) {
        if self.modules.len() != other.modules.len() {
            assert(self@.len() != other@.len());
            return false;
        }
        let mut i: usize = 0;
        while i < self.modules.len()
            invariant
                i <= self.modules.len(),
                self.modules.len() == other.modules.len(),
                forall|j: int| 0 <= j < i ==> self@[j] == other@[j],
            decreases self.modules.len() - i,
        {
            if !(self.modules[i] == other.modules[i]) {
                assert(self@[i as int] != other@[i as int]);
                return false;
            }
            i += 1;
        }
        assert(self@ =~= other@);
        true
    }
}

impl PartialEqSpecImpl for ImportCycle {
    open spec fn obeys_eq_spec() -> bool {
        true
    }

    open spec fn eq_spec(&self, other: &Self) -> bool {
        self@ == other@
    }
}

/// The indices of a list, as mathematical integers.
pub open spec fn ids(list: Seq<usize>) -> Seq<int> {
    list.map_values(|i: usize| i as int)
}

/// The chains that a list of cycles holds.
pub open spec fn chains(cycles: Seq<ImportCycle>) -> Seq<Chain> {
    cycles.map_values(|c: ImportCycle| c@)
}

/// The traversal state that a list of marked indices and a list of reported
/// cycles stand for.
pub open spec fn walk_of(visited: Seq<usize>, cycles: Seq<ImportCycle>) -> Walk {
    Walk { done: ids(visited), cycles: chains(cycles) }
}

/// An index occurs in a list exactly if its integer occurs among the list's
/// integers.
proof fn lemma_ids_contains(list: Seq<usize>, id: usize)
    ensures
        list.contains(id) <==> ids(list).contains(id as int),
{
    if list.contains(id) {
        let i = choose|i: int| 0 <= i < list.len() && list[i] == id;
        assert(ids(list)[i] == id as int);
    }
    if ids(list).contains(id as int) {
        let i = choose|i: int| 0 <= i < ids(list).len() && ids(list)[i] == id as int;
        assert(list[i] == id);
    }
}

/// Tells whether `id` occurs in `list`.
fn contains_id(list: &Vec<usize>, id: usize) -> (found: bool)
    ensures
        found == list@.contains(id),
{
    let mut i: usize = 0;
    while i < list.len()
        invariant
            i <= list.len(),
            forall|j: int| 0 <= j < i ==> list[j] != id,
        decreases list.len() - i,
    {
        if list[i] == id {
            return true;
        }
        i += 1;
    }
    false
}

/// The first position at which `id` occurs in `list`, if it occurs.
fn position_of(list: &Vec<usize>, id: usize) -> (found: Option<usize>)
    ensures
        match found {
            Some(pos) => pos < list.len() && ids(list@).index_of_first(id as int) == Some(
                pos as int,
            ),
            None => ids(list@).index_of_first(id as int) is None,
        },
{
    let mut i: usize = 0;
    while i < list.len()
        invariant
            i <= list.len(),
            forall|j: int| 0 <= j < i ==> list[j] != id,
        decreases list.len() - i,
    {
        if list[i] == id {
            proof {
                lemma_first_index_is(ids(list@), id as int, i as int);
            }
            return Some(i);
        }
        i += 1;
    }
    proof {
        lemma_first_index_none(ids(list@), id as int);
    }
    None
}

/// The catalog: the modules of one analysis run, indexed densely from 0 in
/// insertion order.
#[derive(Debug)]
pub struct ImportGraph {
    /// The modules, each at the position its index names.
    pub modules: Vec<PythonModule>,
}

impl View for ImportGraph {
    type V = Catalog;

    open spec fn view(&self) -> Catalog {
        self.modules@.map_values(|m: PythonModule| m@)
    }
}

impl ImportGraph {
    /// Every module sits at the position its index names.
    pub open spec fn well_formed(&self) -> bool {
        indexed(self@)
    }

    /// The empty catalog.
    pub fn new() -> (graph: Self)
        ensures
            graph@ == Seq::<ModuleView>::empty(),
            graph.well_formed(),
    {
        let graph = Self { modules: Vec::new() };
        assert(graph@ =~= Seq::<ModuleView>::empty());
        graph
    }

    /// Appends a module under the next free index.
    pub fn add_module(&mut self, name: String, imports: Vec<String>)
        ensures
            final(self)@ == appended(old(self)@, name@, imports.deep_view()),
            old(self).well_formed() ==> final(self).well_formed(),
    {
        let mod_id = self.modules.len();
        let pmodule = PythonModule::new(name, imports, mod_id);
        self.modules.push(pmodule);
        assert(self@ =~= appended(old(self)@, name@, imports.deep_view()));
    }

    /// Appends all modules of `other`, re-indexed to continue this catalog's
    /// index sequence.
    pub fn extend(&mut self, other: ImportGraph)
        ensures
            final(self)@ == merged(old(self)@, other@),
            old(self).well_formed() ==> final(self).well_formed(),
    {
        let ghost before = self@;
        let mut i: usize = 0;
        while i < other.modules.len()
            invariant
                i <= other.modules.len(),
                self@.len() == before.len() + i,
                forall|j: int| 0 <= j < before.len() ==> self@[j] == before[j],
                forall|j: int|
                    0 <= j < i ==> #[trigger] self@[before.len() + j] == merged(
                        before,
                        other@,
                    )[before.len() + j],
            decreases other.modules.len() - i,
        {
            let module = &other.modules[i];
            self.add_module(module.name.clone(), copy_strings(&module.imports));
            i += 1;
        }
        assert(self@ =~= merged(before, other@));
    }

    /// The index of the first module whose name is exactly
    /// `target_module_name`, if there is one.
    pub fn get_module_id_from_name(&self, target_module_name: &str) -> (found: Option<usize>)
        ensures
            match found {
                Some(i) => resolve(self@, target_module_name@) == Some(i as int),
                None => resolve(self@, target_module_name@) is None,
            },
            match found {
                Some(i) => {
                    &&& i < self@.len()
                    &&& self@[i as int].name == target_module_name@
                    &&& forall|j: int| 0 <= j < i ==> (#[trigger] self@[j]).name
                        != target_module_name@
                },
                None => forall|j: int|
                    0 <= j < self@.len() ==> (#[trigger] self@[j]).name != target_module_name@,
            },
    {
        let wanted = target_module_name.to_owned();
        let mut i: usize = 0;
        while i < self.modules.len()
            invariant
                i <= self.modules.len(),
                wanted@ == target_module_name@,
                forall|j: int| 0 <= j < i ==> (#[trigger] self.modules[j]).name@ != wanted@,
            decreases self.modules.len() - i,
        {
            if self.modules[i].name == wanted {
                proof {
                    assert forall|j: int| 0 <= j < i implies (#[trigger] self@[j]).name
                        != wanted@ by {
                        assert(self@[j] == self.modules[j]@);
                    }
                    lemma_resolve_is(self@, wanted@, i as int);
                }
                return Some(i);
            }
            i += 1;
        }
        proof {
            assert forall|j: int| 0 <= j < self@.len() implies (#[trigger] self@[j]).name
                != wanted@ by {
                assert(self@[j] == self.modules[j]@);
            }
            lemma_resolve_none(self@, wanted@);
        }
        None
    }

    /// The chain that closes at `dfs_stack[start]`: the module names from
    /// `start` to the top of the stack, then the name at `start` once more.
    fn closing_cycle(&self, dfs_stack: &Vec<usize>, start: usize) -> (cycle: ImportCycle)
        requires
            start < dfs_stack.len(),
            forall|i: int| 0 <= i < dfs_stack.len() ==> dfs_stack[i] < self.modules.len(),
        ensures
            cycle@ == closing_chain(self@, ids(dfs_stack@), start as int),
    {
        let ghost path = ids(dfs_stack@);
        let mut import_cycle = ImportCycle::new();
        let mut i: usize = start;
        while i < dfs_stack.len()
            invariant
                start <= i <= dfs_stack.len(),
                path == ids(dfs_stack@),
                forall|j: int| 0 <= j < dfs_stack.len() ==> dfs_stack[j] < self.modules.len(),
                import_cycle@ == names_along(self@, path.subrange(start as int, i as int)),
            decreases dfs_stack.len() - i,
        {
            let mod_id = dfs_stack[i];
            import_cycle.add_module(self.modules[mod_id].name.clone());
            assert(path.subrange(start as int, i + 1) =~= path.subrange(
                start as int,
                i as int,
            ).push(mod_id as int));
            assert(import_cycle@ =~= names_along(self@, path.subrange(start as int, i + 1)));
            i += 1;
        }
        import_cycle.add_module(self.modules[dfs_stack[start]].name.clone());
        import_cycle
    }

    /// Visits module `root_id`, reached along `dfs_stack`: marks it in
    /// `visited_ids` unless it is marked there already, takes its imports in
    /// order, visiting each unmarked module an import resolves to and
    /// reporting a cycle for each import that resolves to a module on the
    /// stack, and leaves the stack as it found it.
    ///
    /// In a traversal the stack holds the modules from the root down to the
    /// one that imports `root_id`, each of them marked and none twice, and
    /// `root_id` is not among them; such a stack is shorter than the catalog.
    /// A stack that is as long as the catalog, or longer, ends the visit at
    /// once, with nothing marked and nothing reported.
    pub fn dfs_recursion(
        &self,
        root_id: usize,
        dfs_stack: &mut Vec<usize>,
        visited_ids: &mut Vec<usize>,
        import_cycles: &mut Vec<ImportCycle>,
    )
        requires
            root_id < self.modules.len(),
            forall|i: int|
                0 <= i < old(dfs_stack).len() ==> old(dfs_stack)[i] < self.modules.len(),
        ensures
            final(dfs_stack)@ == old(dfs_stack)@,
            walk_of(final(visited_ids)@, final(import_cycles)@) == visit(
                self@,
                root_id as int,
                ids(old(dfs_stack)@),
                walk_of(old(visited_ids)@, old(import_cycles)@),
            ),
        decreases self.modules.len() - old(dfs_stack).len(),
    {
        let ghost g = self@;
        let ghost path0 = ids(dfs_stack@);
        let ghost w0 = walk_of(visited_ids@, import_cycles@);
        let ghost path = path0.push(root_id as int);
        let ghost marked = with_mark(w0, root_id as int);
        if dfs_stack.len() >= self.modules.len() {
            return;
        }
        proof {
            lemma_ids_contains(visited_ids@, root_id);
        }
        if !contains_id(visited_ids, root_id) {
            visited_ids.push(root_id);
        }
        dfs_stack.push(root_id);
        proof {
            assert(ids(visited_ids@) =~= marked.done);
            assert(ids(dfs_stack@) =~= path);
        }
        let n_imports = self.modules[root_id].imports.len();
        let mut k: usize = 0;
        while k < n_imports
            invariant
                k <= n_imports,
                root_id < self.modules.len(),
                n_imports == self.modules[root_id as int].imports.len(),
                g == self@,
                n_imports == g[root_id as int].imports.len(),
                ids(dfs_stack@) == path,
                dfs_stack@ == old(dfs_stack)@.push(root_id),
                forall|i: int| 0 <= i < dfs_stack.len() ==> dfs_stack[i] < self.modules.len(),
                path.len() <= g.len(),
                walk_of(visited_ids@, import_cycles@) == scan(
                    g,
                    root_id as int,
                    k as nat,
                    path,
                    marked,
                ),
            decreases n_imports - k,
        {
            let ghost before = walk_of(visited_ids@, import_cycles@);
            let import_name = &self.modules[root_id].imports[k];
            assert(g[root_id as int].imports[k as int] == import_name@);
            match self.get_module_id_from_name(import_name.as_str()) {
                Some(import_id) => {
                    proof {
                        lemma_ids_contains(visited_ids@, import_id);
                    }
                    if !contains_id(visited_ids, import_id) {
                        self.dfs_recursion(import_id, dfs_stack, visited_ids, import_cycles);
                    } else {
                        match position_of(dfs_stack, import_id) {
                            Some(dfs_stack_id) => {
                                let import_cycle = self.closing_cycle(dfs_stack, dfs_stack_id);
                                import_cycles.push(import_cycle);
                                assert(chains(import_cycles@) =~= before.cycles.push(
                                    closing_chain(g, path, dfs_stack_id as int),
                                ));
                            },
                            None => {},
                        }
                    }
                },
                None => {},
            }
            assert(walk_of(visited_ids@, import_cycles@) == follow(
                g,
                import_name@,
                path,
                before,
            ));
            k += 1;
        }
        dfs_stack.pop();
        assert(dfs_stack@ =~= old(dfs_stack)@);
    }

    /// Reports every import cycle that a depth-first traversal of the whole
    /// catalog meets, in the order in which the closing imports are met.
    ///
    /// Each reported chain names the modules of a closed walk along imports
    /// that resolve within the catalog, a walk that passes no module twice
    /// but for the one it begins and ends with. A catalog without a closed
    /// walk yields no chain, and a catalog with one yields at least one.
    ///
    /// In a catalog of distinct names, only the start of a chain repeats in
    /// it, and a module that imports itself yields the chain of its name
    /// twice. If moreover no module lists an import twice, no chain is
    /// reported twice.
    pub fn find_circular_imports(&self) -> (cycles: Vec<ImportCycle>)
        ensures
            chains(cycles@) == find_cycles(self@),
            forall|i: int|
                0 <= i < cycles.len() ==> is_import_cycle(self@, #[trigger] cycles[i]@)
                    && is_elementary_cycle(self@, cycles[i]@) && reads_as_cycle(
                    self@,
                    cycles[i]@,
                ),
            names_distinct(self@) ==> forall|i: int|
                0 <= i < cycles.len() ==> (#[trigger] cycles[i]@).drop_last().no_duplicates(),
            names_distinct(self@) && imports_distinct(self@) ==> chains(cycles@).no_duplicates(),
            acyclic(self@) <==> cycles.len() == 0,
            names_distinct(self@) ==> forall|v: int|
                0 <= v < self@.len() && (#[trigger] self@[v]).imports.contains(self@[v].name)
                    ==> chains(cycles@).contains(seq![self@[v].name, self@[v].name]),
    {
        let mut dfs_stack: Vec<usize> = Vec::new();
        let mut visited_ids: Vec<usize> = Vec::new();
        let mut import_cycles: Vec<ImportCycle> = Vec::new();
        assert(walk_of(visited_ids@, import_cycles@) =~= fresh()) by {
            assert(ids(visited_ids@) =~= Seq::<int>::empty());
            assert(chains(import_cycles@) =~= Seq::<Chain>::empty());
        }
        let mut mod_id: usize = 0;
        while mod_id < self.modules.len()
            invariant
                mod_id <= self.modules.len(),
                dfs_stack@.len() == 0,
                walk_of(visited_ids@, import_cycles@) == sweep(self@, mod_id as nat),
            decreases self.modules.len() - mod_id,
        {
            proof {
                lemma_ids_contains(visited_ids@, mod_id);
            }
            if !contains_id(&visited_ids, mod_id) {
                assert(ids(dfs_stack@) =~= Seq::<int>::empty());
                self.dfs_recursion(mod_id, &mut dfs_stack, &mut visited_ids, &mut import_cycles);
            }
            mod_id += 1;
        }
        proof {
            assert(walk_of(visited_ids@, import_cycles@).cycles == chains(import_cycles@));
            assert(chains(import_cycles@) == find_cycles(self@));
            lemma_cycles_are_closed_walks(self@);
            lemma_cycles_are_elementary(self@);
            assert forall|i: int| 0 <= i < import_cycles.len() implies is_import_cycle(
                self@,
                #[trigger] import_cycles[i]@,
            ) && is_elementary_cycle(self@, import_cycles[i]@) && reads_as_cycle(
                self@,
                import_cycles[i]@,
            ) by {
                assert(find_cycles(self@)[i] == import_cycles[i]@);
                lemma_import_cycle_reads(self@, import_cycles[i]@);
            }
            if names_distinct(self@) {
                assert forall|i: int| 0 <= i < import_cycles.len() implies (
                #[trigger] import_cycles[i]@).drop_last().no_duplicates() by {
                    assert(find_cycles(self@)[i] == import_cycles[i]@);
                    lemma_elementary_cycle_names(self@, import_cycles[i]@);
                }
                if imports_distinct(self@) {
                    lemma_no_chain_twice(self@);
                }
            }
            if acyclic(self@) {
                lemma_acyclic_reports_nothing(self@);
            } else {
                lemma_cyclic_reports_a_cycle(self@);
            }
            if names_distinct(self@) {
                assert forall|v: int|
                    0 <= v < self@.len() && (#[trigger] self@[v]).imports.contains(
                        self@[v].name,
                    ) implies find_cycles(self@).contains(seq![self@[v].name, self@[v].name]) by {
                    lemma_self_import_is_reported(self@, v);
                }
            }
        }
        import_cycles
    }
}

impl PartialEq for ImportGraph {
    /// Two catalogs compare equal when they hold equally many modules and
    /// each module of the left one is matched by some module of the right
    /// one: a module of the same name whose imports all occur among the
    /// imports of the left module.
    fn eq(&self, other: &ImportGraph) -> (equal: bool) {
        if self.modules.len() != other.modules.len() {
            assert(self@.len() != other@.len());
            return false;
        }
        let mut i: usize = 0;
        while i < self.modules.len()
            invariant
                i <= self.modules.len(),
                self.modules.len() == other.modules.len(),
                forall|k: int| 0 <= k < i ==> matched_in(other@, #[trigger] self@[k]),
            decreases self.modules.len() - i,
        {
            let module = &self.modules[i];
            let mut found = false;
            let mut j: usize = 0;
            while j < other.modules.len() && !found
                invariant
                    j <= other.modules.len(),
                    i < self.modules.len(),
                    module == self.modules[i as int],
                    found ==> matched_in(other@, self@[i as int]),
                    !found ==> forall|m: int|
                        0 <= m < j ==> !module_matches(#[trigger] other@[m], self@[i as int]),
                decreases other.modules.len() - j,
            {
                if other.modules[j] == *module {
                    assert(module_matches(other@[j as int], self@[i as int]));
                    found = true;
                }
                j += 1;
            }
            if !found {
                assert(!matched_in(other@, self@[i as int]));
                return false;
            }
            i += 1;
        }
        true
    }
}

impl PartialEqSpecImpl for ImportGraph {
    open spec fn obeys_eq_spec() -> bool {
        true
    }

    open spec fn eq_spec(&self, other: &Self) -> bool {
        catalog_covered(self@, other@)
    }
}

} // verus!
