use marui::python_module::ImportCycle;
use marui::report::{format_cycle, import_cycles_report};
use marui::text::{has_prefix, holds_at, remove_all, replace_char, same_text};
use marui::util::UnorderedPair;

fn cycle(names: &[&str]) -> ImportCycle {
    ImportCycle { modules: names.iter().map(|s| s.to_string()).collect() }
}

#[test]
fn pattern_is_found_at_a_character_position() {
    assert!(holds_at("import os", 0, "import"));
    assert!(holds_at("import os", 7, "os"));
    assert!(holds_at("import os", 9, ""));
    assert!(!holds_at("import os", 1, "import"));
    assert!(!holds_at("import os", 8, "os"));
    assert!(holds_at("\u{e9}t\u{e9}.py", 3, ".py"));
    assert!(!holds_at("\u{e9}t\u{e9}.py", 4, ".py"));
}

#[test]
fn prefix_and_equality_go_by_characters() {
    assert!(has_prefix("from x", "from"));
    assert!(has_prefix("from", "from"));
    assert!(has_prefix("from", ""));
    assert!(!has_prefix("fro", "from"));
    assert!(!has_prefix("xfrom", "from"));
    assert!(same_text("abc", "abc"));
    assert!(same_text("", ""));
    assert!(!same_text("abc", "abd"));
    assert!(!same_text("abc", "ab"));
    assert!(!same_text("ab", "abc"));
}

#[test]
fn characters_are_replaced_one_by_one() {
    assert_eq!(replace_char("a/b/c", '/', "."), "a.b.c");
    assert_eq!(replace_char("a/b/c", '/', ""), "abc");
    assert_eq!(replace_char("//", '/', "->"), "->->");
    assert_eq!(replace_char("abc", '/', "."), "abc");
    assert_eq!(replace_char("", '/', "."), "");
    assert_eq!(replace_char("a/b/c", '/', "."), "a/b/c".replace('/', "."));
}

#[test]
fn occurrences_are_removed_from_the_left() {
    assert_eq!(remove_all("a.py", ".py"), "a");
    assert_eq!(remove_all(".py.py", ".py"), "");
    assert_eq!(remove_all("aaa", "aa"), "a");
    assert_eq!(remove_all("ababa", "aba"), "ba");
    assert_eq!(remove_all("xaay", "a"), "xy");
    assert_eq!(remove_all("abc", "abcd"), "abc");
    assert_eq!(remove_all("", "a"), "");
    assert_eq!(remove_all("abc", ""), "abc");
    assert_eq!(remove_all("", ""), "");
    assert_eq!(remove_all("a.b.python.pyc", ".py"), "a.bthonc");
    assert_eq!(remove_all("a.b.python.pyc", ".py"), "a.b.python.pyc".replace(".py", ""));
    assert_eq!(remove_all("ababa", "aba"), "ababa".replace("aba", ""));
}

#[test]
fn cycle_line_joins_names_with_arrows() {
    assert_eq!(format_cycle(&cycle(&["A", "B", "C", "A"])), "A -> B -> C -> A");
    assert_eq!(format_cycle(&cycle(&["X", "X"])), "X -> X");
    assert_eq!(format_cycle(&cycle(&["X"])), "X");
    assert_eq!(format_cycle(&cycle(&[])), "");
}

#[test]
fn report_says_when_nothing_was_found() {
    assert_eq!(
        import_cycles_report(&Vec::new()),
        vec!["\u{2705} No circular imports were found.".to_string()]
    );
}

#[test]
fn report_lists_each_cycle_after_a_heading() {
    let found = vec![cycle(&["A", "B", "A"]), cycle(&["C", "D", "C"])];
    assert_eq!(
        import_cycles_report(&found),
        vec![
            "\u{274C} Circular imports were found: \n".to_string(),
            "A -> B -> A".to_string(),
            "C -> D -> C".to_string(),
        ]
    );
}

#[test]
fn unordered_pairs_are_equal_in_either_order() {
    assert_eq!(UnorderedPair(1, 2), UnorderedPair(1, 2));
    assert_eq!(UnorderedPair(1, 2), UnorderedPair(2, 1));
    assert_eq!(UnorderedPair("a", "a"), UnorderedPair("a", "a"));
    assert_ne!(UnorderedPair(1, 2), UnorderedPair(1, 3));
    assert_ne!(UnorderedPair(1, 1), UnorderedPair(1, 2));
    assert_ne!(UnorderedPair(1, 2), UnorderedPair(2, 2));
}
