use marui::python_module::{ImportGraph, PythonModule};

fn strings(items: &[&str]) -> Vec<String> {
    items.iter().map(|s| s.to_string()).collect()
}

fn graph(modules: &[(&str, &[&str])]) -> ImportGraph {
    let mut g = ImportGraph::new();
    for (name, imports) in modules {
        g.add_module(name.to_string(), strings(imports));
    }
    g
}

fn contents(g: &ImportGraph) -> Vec<(String, Vec<String>)> {
    let mut pairs: Vec<(String, Vec<String>)> =
        g.modules.iter().map(|m| (m.name.clone(), m.imports.clone())).collect();
    pairs.sort();
    pairs
}

fn ids(g: &ImportGraph) -> Vec<usize> {
    g.modules.iter().map(|m| m.id()).collect()
}

#[test]
fn test_build_import_tree() {
    // The catalog of one package with a nested package, as discovery builds
    // it: one catalog for each directory, merged upwards.
    let mut subsubmodule = ImportGraph::new();
    subsubmodule.add_module(
        "package.submodule.subsubmodule.test2".to_owned(),
        strings(&["os", "sys"]),
    );
    let mut submodule = ImportGraph::new();
    submodule.add_module("package.submodule.test1".to_owned(), strings(&["os", "sys"]));
    submodule.extend(subsubmodule);
    let mut package = ImportGraph::new();
    package.add_module(
        "package.module".to_owned(),
        strings(&["os", "sys", "numpy", "pandas", "matplotlib.pyplot"]),
    );
    package.extend(submodule);
    let mut import_graph = ImportGraph::new();
    import_graph.extend(package);

    let expected_import_graph = ImportGraph {
        modules: vec![
            PythonModule::new(
                "package.module".to_owned(),
                vec![
                    "os".to_owned(),
                    "sys".to_owned(),
                    "numpy".to_owned(),
                    "pandas".to_owned(),
                    "matplotlib.pyplot".to_owned(),
                ],
                0,
            ),
            PythonModule::new(
                "package.submodule.test1".to_owned(),
                vec!["os".to_owned(), "sys".to_owned()],
                1,
            ),
            PythonModule::new(
                "package.submodule.subsubmodule.test2".to_owned(),
                vec!["os".to_owned(), "sys".to_owned()],
                2,
            ),
        ],
    };
    assert_eq!(import_graph, expected_import_graph);
    assert_eq!(ids(&import_graph), vec![0, 1, 2]);
}

#[test]
fn new_catalog_is_empty() {
    assert!(ImportGraph::new().modules.is_empty());
}

#[test]
fn append_assigns_the_next_free_index() {
    let g = graph(&[("a", &["x"]), ("b", &[]), ("c", &["a", "b"])]);
    assert_eq!(ids(&g), vec![0, 1, 2]);
    assert_eq!(g.modules[2].name, "c");
    assert_eq!(g.modules[2].imports, strings(&["a", "b"]));
}

#[test]
fn merge_reindexes_the_modules_it_appends() {
    let mut left = graph(&[("a", &["b"]), ("b", &[])]);
    let right = graph(&[("c", &["a"]), ("d", &["c"]), ("e", &[])]);
    left.extend(right);
    assert_eq!(ids(&left), vec![0, 1, 2, 3, 4]);
    let names: Vec<&str> = left.modules.iter().map(|m| m.name.as_str()).collect();
    assert_eq!(names, vec!["a", "b", "c", "d", "e"]);
    assert_eq!(left.modules[3].imports, strings(&["c"]));
}

#[test]
fn merge_with_empty_catalogs() {
    let mut g = graph(&[("a", &[])]);
    g.extend(ImportGraph::new());
    assert_eq!(ids(&g), vec![0]);
    let mut empty = ImportGraph::new();
    empty.extend(graph(&[("a", &["b"]), ("b", &[])]));
    assert_eq!(ids(&empty), vec![0, 1]);
    assert_eq!(empty.modules[1].name, "b");
}

#[test]
fn merge_is_associative() {
    let a = || graph(&[("a1", &["b1"]), ("a2", &[])]);
    let b = || graph(&[("b1", &["c1", "a1"])]);
    let c = || graph(&[("c1", &[]), ("c2", &["a2"]), ("c3", &["c3"])]);

    let mut left = a();
    left.extend(b());
    left.extend(c());

    let mut bc = b();
    bc.extend(c());
    let mut right = a();
    right.extend(bc);

    assert_eq!(contents(&left), contents(&right));
    assert_eq!(ids(&left), ids(&right));
    assert_eq!(ids(&left), vec![0, 1, 2, 3, 4, 5]);
}

#[test]
fn resolve_finds_exact_names_only() {
    let g = graph(&[("pkg.a", &[]), ("pkg.b", &[]), ("pkg.ab", &[])]);
    assert_eq!(g.get_module_id_from_name("pkg.a"), Some(0));
    assert_eq!(g.get_module_id_from_name("pkg.b"), Some(1));
    assert_eq!(g.get_module_id_from_name("pkg.ab"), Some(2));
    assert_eq!(g.get_module_id_from_name("pkg"), None);
    assert_eq!(g.get_module_id_from_name("pkg.a "), None);
    assert_eq!(g.get_module_id_from_name("PKG.A"), None);
    assert_eq!(g.get_module_id_from_name(""), None);
    assert_eq!(ImportGraph::new().get_module_id_from_name("pkg.a"), None);
}

#[test]
fn resolve_returns_the_first_match() {
    let g = graph(&[("x", &[]), ("y", &[]), ("x", &[])]);
    assert_eq!(g.get_module_id_from_name("x"), Some(0));
}

#[test]
fn update_id_changes_the_index_only() {
    let mut m = PythonModule::new("a".to_string(), strings(&["b", "c"]), 3);
    assert_eq!(m.id(), 3);
    m.update_id(7);
    assert_eq!(m.id(), 7);
    assert_eq!(m.name, "a");
    assert_eq!(m.imports, strings(&["b", "c"]));
}

#[test]
fn clone_keeps_name_imports_and_index() {
    let m = PythonModule::new("a".to_string(), strings(&["b", "c"]), 3);
    let copy = m.clone();
    assert_eq!(copy.name, "a");
    assert_eq!(copy.imports, strings(&["b", "c"]));
    assert_eq!(copy.id(), 3);
}

#[test]
fn module_equality_ignores_the_index_and_asks_for_the_left_imports() {
    let left = PythonModule::new("a".to_string(), strings(&["os"]), 0);
    let right = PythonModule::new("a".to_string(), strings(&["sys", "os"]), 5);
    assert!(left == right);
    assert!(!(right == left));
    let other = PythonModule::new("b".to_string(), strings(&["os"]), 0);
    assert!(!(left == other));
    let bare = PythonModule::new("a".to_string(), Vec::new(), 1);
    assert!(bare == left);
    assert!(!(left == bare));
}

#[test]
fn catalog_equality_asks_for_equal_size_and_a_match_for_each_module() {
    let full = graph(&[("a", &["os", "sys"]), ("b", &["a"])]);
    let lean = graph(&[("b", &[]), ("a", &["os"])]);
    assert!(full == lean);
    assert!(!(lean == full));
    let short = graph(&[("a", &["os"])]);
    assert!(!(full == short));
    let renamed = graph(&[("a", &["os"]), ("c", &[])]);
    assert!(!(full == renamed));
    assert!(ImportGraph::new() == ImportGraph::new());
}

#[test]
fn accessors_give_name_and_imports() {
    let m = PythonModule::new("pkg.a".to_string(), strings(&["os", "pkg.b"]), 2);
    assert_eq!(m.name(), "pkg.a");
    assert_eq!(m.imports(), &strings(&["os", "pkg.b"]));
    assert_eq!(m.name(), &m.name);
    assert_eq!(m.imports(), &m.imports);
}
