use marui::python_module::{ImportCycle, ImportGraph};

fn strings(items: &[&str]) -> Vec<String> {
    items.iter().map(|s| s.to_string()).collect()
}

fn graph(modules: &[(&str, &[&str])]) -> ImportGraph {
    let mut g = ImportGraph::new();
    for (name, imports) in modules {
        g.add_module(name.to_string(), strings(imports));
    }
    g
}

fn cycle(names: &[&str]) -> ImportCycle {
    ImportCycle { modules: strings(names) }
}

fn names(cycles: &[ImportCycle]) -> Vec<Vec<String>> {
    cycles.iter().map(|c| c.modules.clone()).collect()
}

/// Every neighbouring pair of the chain is an import of one module of the
/// graph, and the chain ends where it began.
fn is_closed_chain(g: &ImportGraph, chain: &[String]) -> bool {
    chain.len() >= 2
        && chain.first() == chain.last()
        && chain.windows(2).all(|pair| {
            g.modules.iter().any(|m| m.name == pair[0] && m.imports.contains(&pair[1]))
                && g.modules.iter().any(|m| m.name == pair[1])
        })
}

#[test]
fn test_find_circular_imports() {
    let import_graph = graph(&[
        ("package.module", &["os", "sys", "package.submodule.test1"]),
        ("package.submodule.test1", &["os", "sys", "package.submodule.subsubmodule.test2"]),
        ("package.submodule.subsubmodule.test2", &["os", "sys", "package.module"]),
    ]);
    let import_cycles = import_graph.find_circular_imports();
    let test_cycle = ImportCycle {
        modules: vec![
            "package.module".to_owned(),
            "package.submodule.test1".to_owned(),
            "package.submodule.subsubmodule.test2".to_owned(),
            "package.module".to_owned(),
        ],
    };
    let expected_import_cycles = vec![test_cycle];

    assert_eq!(import_cycles, expected_import_cycles);
}

#[test]
fn empty_catalog_has_no_cycles() {
    let g = ImportGraph::new();
    assert!(g.find_circular_imports().is_empty());
}

#[test]
fn catalog_without_cyclic_edges_has_no_cycles() {
    let g = graph(&[
        ("a", &["b", "c"]),
        ("b", &["c", "d"]),
        ("c", &["d"]),
        ("d", &[]),
        ("e", &["a", "d", "numpy"]),
    ]);
    assert!(g.find_circular_imports().is_empty());
}

#[test]
fn three_module_cycle_with_bystander() {
    let g = graph(&[
        ("P.a", &["P.b"]),
        ("P.b", &["P.c"]),
        ("P.c", &["P.a"]),
        ("P.d", &[]),
    ]);
    let found = g.find_circular_imports();
    assert_eq!(found, vec![cycle(&["P.a", "P.b", "P.c", "P.a"])]);
}

#[test]
fn unresolved_import_closes_no_cycle() {
    let g = graph(&[("P.a", &["numpy"]), ("P.b", &["P.a"])]);
    assert!(g.find_circular_imports().is_empty());
}

#[test]
fn two_independent_cycles() {
    let g = graph(&[("A", &["B"]), ("B", &["A"]), ("C", &["D"]), ("D", &["C"])]);
    let found = g.find_circular_imports();
    assert_eq!(found, vec![cycle(&["A", "B", "A"]), cycle(&["C", "D", "C"])]);
    for chain in names(&found) {
        assert!(is_closed_chain(&g, &chain));
    }
}

#[test]
fn self_import_yields_two_name_chain() {
    let g = graph(&[("X", &["X"])]);
    assert_eq!(g.find_circular_imports(), vec![cycle(&["X", "X"])]);
}

#[test]
fn self_import_below_a_root_yields_two_name_chain() {
    let g = graph(&[("Y", &["X"]), ("X", &["os", "X"])]);
    assert_eq!(g.find_circular_imports(), vec![cycle(&["X", "X"])]);
}

#[test]
fn self_import_beside_a_longer_cycle() {
    let g = graph(&[("a", &["a", "b"]), ("b", &["a"])]);
    assert_eq!(
        g.find_circular_imports(),
        vec![cycle(&["a", "a"]), cycle(&["a", "b", "a"])]
    );
}

#[test]
fn cycles_come_in_the_order_their_closing_import_is_met() {
    let g = graph(&[
        ("a", &["b", "c"]),
        ("b", &["a"]),
        ("c", &["b", "a"]),
    ]);
    // b closes on a first; c finds b marked and off the path, then closes on a.
    assert_eq!(
        g.find_circular_imports(),
        vec![cycle(&["a", "b", "a"]), cycle(&["a", "c", "a"])]
    );
}

#[test]
fn cycle_entered_from_outside_starts_at_the_module_it_closes_on() {
    let g = graph(&[("root", &["x"]), ("x", &["y"]), ("y", &["z"]), ("z", &["x"])]);
    assert_eq!(g.find_circular_imports(), vec![cycle(&["x", "y", "z", "x"])]);
}

#[test]
fn module_marked_by_an_earlier_root_is_not_entered_again() {
    let g = graph(&[("a", &["b"]), ("b", &[]), ("c", &["a", "b"])]);
    assert!(g.find_circular_imports().is_empty());
}

#[test]
fn the_same_import_twice_closes_the_cycle_twice() {
    let g = graph(&[("a", &["b"]), ("b", &["a", "a"])]);
    assert_eq!(
        g.find_circular_imports(),
        vec![cycle(&["a", "b", "a"]), cycle(&["a", "b", "a"])]
    );
}

#[test]
fn every_reported_chain_is_closed_and_follows_imports() {
    let g = graph(&[
        ("m0", &["m1", "m3", "json"]),
        ("m1", &["m2", "m0"]),
        ("m2", &["m0", "m2", "m4"]),
        ("m3", &["m1"]),
        ("m4", &["m3", "m5"]),
        ("m5", &[]),
    ]);
    let found = g.find_circular_imports();
    assert!(!found.is_empty());
    for chain in names(&found) {
        assert!(is_closed_chain(&g, &chain), "{:?}", chain);
    }
}

#[test]
fn searching_twice_gives_the_same_cycles() {
    let g = graph(&[
        ("m0", &["m1", "m3"]),
        ("m1", &["m2", "m0"]),
        ("m2", &["m0", "m2"]),
        ("m3", &["m1"]),
    ]);
    let first = g.find_circular_imports();
    let second = g.find_circular_imports();
    assert_eq!(names(&first), names(&second));
    assert_eq!(first, second);
}

#[test]
fn import_resolves_to_the_first_module_of_that_name() {
    // Two modules share the name "dup"; the import of "dup" leads to the
    // first, which imports "a" back.
    let g = graph(&[("a", &["dup"]), ("dup", &["a"]), ("dup", &[])]);
    assert_eq!(g.get_module_id_from_name("dup"), Some(1));
    assert_eq!(g.find_circular_imports(), vec![cycle(&["a", "dup", "a"])]);
}

#[test]
fn cycle_equality_goes_by_order() {
    assert_eq!(cycle(&["a", "b", "a"]), cycle(&["a", "b", "a"]));
    assert_ne!(cycle(&["a", "b", "a"]), cycle(&["b", "a", "b"]));
    assert_ne!(cycle(&["a", "b", "a"]), cycle(&["a", "b"]));
    assert_ne!(cycle(&["a", "b", "c", "a"]), cycle(&["a", "c", "b", "a"]));
}

#[test]
fn cycle_is_built_name_by_name() {
    let mut c = ImportCycle::new();
    assert!(c.modules.is_empty());
    c.add_module("a".to_string());
    c.add_module("b".to_string());
    c.add_module("a".to_string());
    assert_eq!(c, cycle(&["a", "b", "a"]));
}

#[test]
fn long_chain_of_modules_is_walked_to_its_end() {
    let n = 300;
    let mut g = ImportGraph::new();
    for i in 0..n {
        let next = format!("m{}", (i + 1) % n);
        g.add_module(format!("m{}", i), vec![next]);
    }
    let found = g.find_circular_imports();
    assert_eq!(found.len(), 1);
    assert_eq!(found[0].modules.len(), n + 1);
    assert_eq!(found[0].modules[0], "m0");
    assert_eq!(found[0].modules[n], "m0");
    assert_eq!(found[0].modules[n - 1], format!("m{}", n - 1));
}

#[test]
fn visit_of_a_module_that_is_marked_already_takes_its_imports() {
    let g = graph(&[("A", &["B", "C"]), ("B", &["A"]), ("C", &["A"])]);
    let mut dfs_stack: Vec<usize> = Vec::new();
    let mut visited_ids: Vec<usize> = vec![0];
    let mut import_cycles: Vec<ImportCycle> = Vec::new();
    g.dfs_recursion(0, &mut dfs_stack, &mut visited_ids, &mut import_cycles);
    assert_eq!(import_cycles, vec![cycle(&["A", "B", "A"]), cycle(&["A", "C", "A"])]);
    assert!(dfs_stack.is_empty());
    assert_eq!(visited_ids, vec![0, 1, 2]);
}

#[test]
fn visit_marks_an_unmarked_module_and_restores_the_stack() {
    let g = graph(&[("A", &["B"]), ("B", &["C", "A"]), ("C", &["B"])]);
    let mut dfs_stack: Vec<usize> = vec![0];
    let mut visited_ids: Vec<usize> = vec![0];
    let mut import_cycles: Vec<ImportCycle> = Vec::new();
    g.dfs_recursion(1, &mut dfs_stack, &mut visited_ids, &mut import_cycles);
    assert_eq!(dfs_stack, vec![0]);
    assert_eq!(visited_ids, vec![0, 1, 2]);
    assert_eq!(import_cycles, vec![cycle(&["B", "C", "B"]), cycle(&["A", "B", "A"])]);
}

#[test]
fn only_the_start_of_a_chain_repeats() {
    let g = graph(&[
        ("m0", &["m1", "m3", "json"]),
        ("m1", &["m2", "m0"]),
        ("m2", &["m0", "m2", "m4"]),
        ("m3", &["m1"]),
        ("m4", &["m3", "m5", "m1"]),
        ("m5", &[]),
    ]);
    let found = g.find_circular_imports();
    assert!(!found.is_empty());
    for chain in names(&found) {
        let front = &chain[..chain.len() - 1];
        for i in 0..front.len() {
            for j in 0..i {
                assert_ne!(front[i], front[j], "{:?}", chain);
            }
        }
    }
}

#[test]
fn no_chain_comes_twice_where_no_import_is_listed_twice() {
    let g = graph(&[
        ("m0", &["m1", "m3", "json"]),
        ("m1", &["m2", "m0"]),
        ("m2", &["m0", "m2", "m4"]),
        ("m3", &["m1", "m0"]),
        ("m4", &["m3", "m5", "m1"]),
        ("m5", &["m5"]),
    ]);
    let found = names(&g.find_circular_imports());
    assert!(found.len() >= 4);
    for i in 0..found.len() {
        for j in 0..i {
            assert_ne!(found[i], found[j]);
        }
    }
}

#[test]
fn visit_on_a_stack_as_long_as_the_catalog_does_nothing() {
    let g = graph(&[("A", &["B"]), ("B", &["A"])]);
    let mut dfs_stack: Vec<usize> = vec![0, 1];
    let mut visited_ids: Vec<usize> = vec![0];
    let mut import_cycles: Vec<ImportCycle> = Vec::new();
    g.dfs_recursion(1, &mut dfs_stack, &mut visited_ids, &mut import_cycles);
    assert_eq!(dfs_stack, vec![0, 1]);
    assert_eq!(visited_ids, vec![0]);
    assert!(import_cycles.is_empty());
}

#[test]
fn visit_of_a_module_that_is_on_the_stack_ends() {
    let g = graph(&[("A", &["B"]), ("B", &["C"]), ("C", &["A"]), ("D", &[])]);
    let mut dfs_stack: Vec<usize> = vec![0];
    let mut visited_ids: Vec<usize> = Vec::new();
    let mut import_cycles: Vec<ImportCycle> = Vec::new();
    g.dfs_recursion(0, &mut dfs_stack, &mut visited_ids, &mut import_cycles);
    assert_eq!(dfs_stack, vec![0]);
    assert_eq!(visited_ids, vec![0, 1, 2]);
    // C's import of A closes on the first A of the stack.
    assert_eq!(import_cycles, vec![cycle(&["A", "A", "B", "C", "A"])]);
}
