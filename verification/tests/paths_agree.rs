use marui::directory::{convert_path_to_module_id, is_python_file, path_is_not_hidden, path_is_under};
use std::path::Path;

const PATHS: [&str; 40] = [
    "a",
    "a/",
    "a//",
    "a/.",
    "a/./",
    "a/b",
    "a/b/",
    "a/b/.",
    "a//b",
    "a/./b",
    "./a",
    "./a/b.py",
    "/a",
    "/a/b",
    "/a/./b/",
    "//a",
    "a/.b",
    "a/.b/",
    ".a",
    ".a/.",
    "a/..b",
    "a/b.",
    "a/b.py",
    "a/b.py/",
    "a/b.py/.",
    "a/b.py//./",
    "a/.py",
    "a/__init__.py",
    "a/__init__.py/",
    "a/x__init__.py",
    "a/b.pyc",
    "a/b.c.py",
    "a.py/b",
    "proj/pkg/mod.py",
    "proj//pkg/./mod.py",
    "./proj/pkg/mod.py",
    "/abs/proj/pkg/mod.py",
    "proj/.git/",
    "src/.",
    "pkg/mod.py/",
];

const PREFIXES: [&str; 22] = [
    "", "a", "a/", "a/.", "a//", "a/b", "/", "/a", "/a/", ".", "./", "./a", "proj", "proj/",
    "proj/.", "proj//", "proj/pkg", "./proj", "/abs/proj", "/abs//proj/.", "pro", "b",
];

#[test]
fn hidden_goes_by_the_last_component_of_the_standard_path() {
    for text in PATHS {
        let name = Path::new(text).file_name().unwrap().to_str().unwrap();
        assert_eq!(path_is_not_hidden(text), !name.starts_with('.'), "{}", text);
    }
}

#[test]
fn module_files_go_by_the_extension_of_the_standard_path() {
    for text in PATHS {
        let path = Path::new(text);
        let expected = !path.ends_with("__init__.py")
            && match path.extension() {
                Some(ext) => ext == "py",
                None => false,
            };
        assert_eq!(is_python_file(text), expected, "{}", text);
    }
}

#[test]
fn lying_under_a_prefix_goes_by_the_components_of_the_standard_path() {
    for text in PATHS {
        for prefix in PREFIXES {
            let expected = Path::new(text).strip_prefix(prefix).is_ok();
            assert_eq!(path_is_under(text, prefix), expected, "{} under {}", text, prefix);
        }
    }
}

#[test]
fn module_id_is_the_dotted_rest_of_the_standard_path_without_the_extension() {
    for text in PATHS {
        for prefix in PREFIXES {
            if let Ok(rest) = Path::new(text).strip_prefix(prefix) {
                let rest_text = rest.to_str().unwrap();
                let without_extension = if Path::new(rest_text).extension().map_or(false, |e| e == "py") {
                    &rest_text[..rest_text.len() - 3]
                } else {
                    rest_text
                };
                let expected = without_extension.replace('/', ".");
                assert_eq!(
                    convert_path_to_module_id(text, prefix),
                    expected,
                    "{} under {}",
                    text,
                    prefix
                );
            }
        }
    }
}
