//! Rules on paths and directory listings: which entries are module files,
//! which are hidden, what marks a package or a project, and how a path turns
//! into a dotted module name.
//!
//! A path is text. Its components are the pieces between its `/`
//! separators, leaving out empty pieces and pieces that are a lone `.`: so
//! `a//b/./c/` has the components `a`, `b` and `c`. A `/` in front makes the
//! path rooted, and a lone `.` in front is kept in mind as its head; neither
//! is a component. The file name of a path is its last component.

use crate::text::{holds_at, replace_char, replaced, same_text};
use vstd::prelude::*;
use vstd::string::*;

verus! {

/// The piece at position `at` is a lone `.`: a `.` with a separator or the end
/// of the path behind it.
pub open spec fn lone_dot_at(path: Seq<char>, at: int) -> bool {
    &&& 0 <= at < path.len()
    &&& path[at] == '.'
    &&& (at + 1 == path.len() || path[at + 1] == '/')
}

/// The end of the piece that holds position `from`: the next `/`, or the end
/// of the path.
pub open spec fn piece_end(path: Seq<char>, from: int) -> int
    decreases path.len() - from,
{
    if 0 <= from < path.len() && path[from] != '/' {
        piece_end(path, from + 1)
    } else {
        from
    }
}

/// Where the next component at or behind the piece boundary `from` begins
/// and ends, if there is one: separators and lone dots are passed over.
pub open spec fn next_span(path: Seq<char>, from: int) -> Option<(int, int)>
    decreases path.len() - from,
{
    if from < 0 || from >= path.len() {
        None
    } else if path[from] == '/' || lone_dot_at(path, from) {
        next_span(path, from + 1)
    } else {
        Some((from, piece_end(path, from)))
    }
}

/// Where the last component at or behind the piece boundary `from` begins
/// and ends, if there is one.
pub open spec fn last_span_from(path: Seq<char>, from: int) -> Option<(int, int)>
    decreases path.len() - from,
{
    match next_span(path, from) {
        None => None,
        Some((start, end)) => {
            proof {
                lemma_next_span_bounds(path, from);
            }
            match last_span_from(path, end) {
                None => Some((start, end)),
                Some(later) => Some(later),
            }
        },
    }
}

/// The head of a path: `/` if it is rooted, `.` if it begins with a lone
/// dot, else nothing.
pub open spec fn head(path: Seq<char>) -> Seq<char> {
    if path.len() > 0 && path[0] == '/' {
        seq!['/']
    } else if lone_dot_at(path, 0) {
        seq!['.']
    } else {
        Seq::empty()
    }
}

/// Where the path ends once separators and lone dots behind its last
/// component are dropped; a path without components ends behind its head.
pub open spec fn tail_end(path: Seq<char>) -> int {
    match last_span_from(path, 0) {
        Some((_, end)) => end,
        None => head(path).len() as int,
    }
}

/// The file name of a path: its last component, or nothing if it has none.
/// Separators and lone dots behind the last component do not count.
pub open spec fn file_name(path: Seq<char>) -> Seq<char> {
    match last_span_from(path, 0) {
        Some((start, end)) => path.subrange(start, end),
        None => Seq::empty(),
    }
}

/// The extension of a file name: what follows its last `.`, unless the name
/// has no `.` or has its only `.` in front.
pub open spec fn extension(name: Seq<char>) -> Option<Seq<char>> {
    match name.index_of_last('.') {
        Some(i) => if i > 0 {
            Some(name.skip(i + 1))
        } else {
            None
        },
        None => None,
    }
}

/// The path's file name has the extension `py`.
pub open spec fn has_py_extension(path: Seq<char>) -> bool {
    extension(file_name(path)) == Some("py"@)
}

/// The path names a module file: its extension is `py`, and it is not a
/// package's `__init__.py`.
pub open spec fn python_file(path: Seq<char>) -> bool {
    &&& file_name(path) != "__init__.py"@
    &&& has_py_extension(path)
}

/// The path up to the end of its file name, without the extension `py` if
/// the file name has it: the `.py` at the end of the file name is dropped,
/// and nothing else of the path's components.
pub open spec fn stem(path: Seq<char>) -> Seq<char> {
    if has_py_extension(path) {
        path.take(tail_end(path) - 3)
    } else {
        path.take(tail_end(path))
    }
}

/// The path's file name begins with a `.`.
pub open spec fn hidden(path: Seq<char>) -> bool {
    file_name(path).len() > 0 && file_name(path)[0] == '.'
}

/// The path has a head or a component.
pub open spec fn has_parts(path: Seq<char>) -> bool {
    head(path).len() > 0 || next_span(path, 0) is Some
}

/// The components of `prefix` from `j` on are, one by one, the components of
/// `path` from `i` on.
pub open spec fn matches_from(path: Seq<char>, i: int, prefix: Seq<char>, j: int) -> bool
    decreases prefix.len() - j,
{
    match next_span(prefix, j) {
        None => true,
        Some((from, to)) => match next_span(path, i) {
            None => false,
            Some((start, end)) => {
                proof {
                    lemma_next_span_bounds(prefix, j);
                }
                path.subrange(start, end) == prefix.subrange(from, to) && matches_from(
                    path,
                    end,
                    prefix,
                    to,
                )
            },
        },
    }
}

/// Where `path` goes on behind the components that the components of
/// `prefix` from `j` on take up in it from `i` on.
pub open spec fn rest_from(path: Seq<char>, i: int, prefix: Seq<char>, j: int) -> int
    decreases prefix.len() - j,
{
    match next_span(prefix, j) {
        None => i,
        Some((from, to)) => match next_span(path, i) {
            None => i,
            Some((start, end)) => {
                proof {
                    lemma_next_span_bounds(prefix, j);
                }
                rest_from(path, end, prefix, to)
            },
        },
    }
}

/// `path` lies at or below `prefix`: the two have the same head, and the
/// components of `prefix` are the first components of `path`. A prefix
/// without head and components lies above every path.
pub open spec fn path_under(prefix: Seq<char>, path: Seq<char>) -> bool {
    !has_parts(prefix) || (head(prefix) == head(path) && matches_from(path, 0, prefix, 0))
}

/// What is left of `path` behind `prefix`, as a relative path: the text from
/// the first component behind those of `prefix` to the end of the last
/// component. Behind a prefix without head and components the whole path is
/// left, up to the end of its last component.
pub open spec fn relative_to(prefix: Seq<char>, path: Seq<char>) -> Seq<char> {
    if !has_parts(prefix) {
        path.take(tail_end(path))
    } else {
        let rest = rest_from(path, 0, prefix, 0);
        match next_span(path, rest) {
            Some((start, _)) => match last_span_from(path, rest) {
                Some((_, end)) => path.subrange(start, end),
                None => Seq::empty(),
            },
            None => Seq::empty(),
        }
    }
}

/// The dotted module name of a relative path: the extension `py` of the file
/// name is dropped, then every `/` becomes a `.`. Directories keep their
/// names as they are, so two files with different paths never share a name.
pub open spec fn module_id(relative_path: Seq<char>) -> Seq<char> {
    replaced(stem(relative_path), '/', "."@)
}

/// A piece ends at or behind where it is entered, within the path, and
/// behind a position that holds no separator.
pub proof fn lemma_piece_end_bounds(path: Seq<char>, from: int)
    requires
        0 <= from <= path.len(),
    ensures
        from <= piece_end(path, from) <= path.len(),
        from < path.len() && path[from] != '/' ==> from < piece_end(path, from),
    decreases path.len() - from,
{
    if from < path.len() && path[from] != '/' {
        lemma_piece_end_bounds(path, from + 1);
    }
}

/// A component lies behind the boundary it is looked for from, within the
/// path, and is not empty.
pub proof fn lemma_next_span_bounds(path: Seq<char>, from: int)
    requires
        0 <= from,
    ensures
        match next_span(path, from) {
            Some((start, end)) => from <= start < end <= path.len(),
            None => true,
        },
    decreases path.len() - from,
{
    if from < path.len() {
        if path[from] == '/' || lone_dot_at(path, from) {
            lemma_next_span_bounds(path, from + 1);
        } else {
            lemma_piece_end_bounds(path, from);
        }
    }
}

/// The last component lies at or behind the next one.
pub proof fn lemma_last_span_bounds(path: Seq<char>, from: int)
    requires
        0 <= from,
    ensures
        match (next_span(path, from), last_span_from(path, from)) {
            (Some((start, end)), Some((last_start, last_end))) => start <= last_start < last_end
                <= path.len() && end <= last_end,
            (None, None) => true,
            _ => false,
        },
    decreases path.len() - from,
{
    lemma_next_span_bounds(path, from);
    match next_span(path, from) {
        None => {},
        Some((start, end)) => {
            lemma_last_span_bounds(path, end);
            lemma_next_span_bounds(path, end);
        },
    }
}

/// The end of the piece that holds position `from`.
fn piece_end_of(path: &str, from: usize) -> (end: usize)
    requires
        from <= path@.len(),
    ensures
        end == piece_end(path@, from as int),
        from <= end <= path@.len(),
{
    let n = path.unicode_len();
    let mut i: usize = from;
    while i < n && path.get_char(i) != '/'
        invariant
            from <= i <= n,
            n == path@.len(),
            piece_end(path@, i as int) == piece_end(path@, from as int),
        decreases n - i,
    {
        i += 1;
    }
    i
}

/// Where the next component at or behind `from` begins and ends.
fn next_component(path: &str, from: usize) -> (span: Option<(usize, usize)>)
    requires
        from <= path@.len(),
    ensures
        match span {
            Some((start, end)) => next_span(path@, from as int) == Some(
                (start as int, end as int),
            ) && from <= start < end <= path@.len(),
            None => next_span(path@, from as int) is None,
        },
{
    let n = path.unicode_len();
    let mut i: usize = from;
    while i < n
        invariant
            from <= i <= n,
            n == path@.len(),
            next_span(path@, i as int) == next_span(path@, from as int),
        decreases n - i,
    {
        let c = path.get_char(i);
        let passed_over = c == '/' || (c == '.' && (i + 1 == n || path.get_char(i + 1) == '/'));
        if !passed_over {
            let end = piece_end_of(path, i);
            proof {
                lemma_piece_end_bounds(path@, i as int);
            }
            return Some((i, end));
        }
        i += 1;
    }
    None
}

/// Where the last component at or behind `from` begins and ends.
fn last_component(path: &str, from: usize) -> (span: Option<(usize, usize)>)
    requires
        from <= path@.len(),
    ensures
        match span {
            Some((start, end)) => last_span_from(path@, from as int) == Some(
                (start as int, end as int),
            ) && from <= start < end <= path@.len(),
            None => last_span_from(path@, from as int) is None,
        },
{
    let n = path.unicode_len();
    let mut found: Option<(usize, usize)> = None;
    let mut i: usize = from;
    let mut done = false;
    while !done
        invariant
            from <= i <= n,
            n == path@.len(),
            done ==> next_span(path@, i as int) is None,
            match found {
                Some((start, end)) => from <= start < end <= n && end <= i,
                None => true,
            },
            last_span_from(path@, from as int) == (match last_span_from(path@, i as int) {
                Some(later) => Some(later),
                None => match found {
                    Some((start, end)) => Some((start as int, end as int)),
                    None => None,
                },
            }),
        decreases n - i + (if done { 0int } else { 1int }),
    {
        proof {
            lemma_next_span_bounds(path@, i as int);
        }
        match next_component(path, i) {
            Some((start, end)) => {
                found = Some((start, end));
                i = end;
            },
            None => {
                done = true;
            },
        }
    }
    found
}

/// Tells whether a file name has the extension `py`.
fn name_ends_in_py(name: &str) -> (found: bool)
    ensures
        found == (extension(name@) == Some("py"@)),
        found ==> name@.len() > 3,
{
    let len = name.unicode_len();
    proof {
        reveal_strlit(".py");
        reveal_strlit("py");
        name@.index_of_last_ensures('.');
    }
    if len <= 3 {
        proof {
            if extension(name@) == Some("py"@) {
                let i = name@.index_of_last('.').unwrap();
                assert(name@.skip(i + 1).len() == 2);
            }
        }
        return false;
    }
    let ends = holds_at(name, len - 3, ".py");
    proof {
        let tail = name@.skip(len - 3);
        if ends {
            assert(tail =~= ".py"@);
            assert(name@[len - 3] == tail[0]);
            assert(name@[len - 2] == tail[1]);
            assert(name@[len - 1] == tail[2]);
            assert(name@.contains('.'));
            let i = name@.index_of_last('.').unwrap();
            assert(i == len - 3);
            assert(name@.skip(i + 1) =~= "py"@);
        } else {
            if extension(name@) == Some("py"@) {
                let i = name@.index_of_last('.').unwrap();
                let rest = name@.skip(i + 1);
                assert(rest.len() == 2);
                assert(i == len - 3);
                assert(rest[0] == name@[len - 2]);
                assert(rest[1] == name@[len - 1]);
                assert(tail =~= ".py"@);
            }
        }
    }
    ends
}

/// Tells whether the file name of `path` has the extension `py`.
pub fn ends_in_py(path: &str) -> (found: bool)
    ensures
        found == has_py_extension(path@),
        found ==> tail_end(path@) > 3,
{
    match last_component(path, 0) {
        Some((start, end)) => name_ends_in_py(path.substring_char(start, end)),
        None => {
            proof {
                Seq::<char>::empty().index_of_last_ensures('.');
            }
            false
        },
    }
}

/// Tells whether `path` names a module file: a file with the extension `py`
/// other than a package's `__init__.py`.
pub fn is_python_file(path: &str) -> (is_module: bool)
    ensures
        is_module == python_file(path@),
{
    match last_component(path, 0) {
        Some((start, end)) => {
            let name = path.substring_char(start, end);
            !same_text(name, "__init__.py") && name_ends_in_py(name)
        },
        None => {
            proof {
                Seq::<char>::empty().index_of_last_ensures('.');
            }
            false
        },
    }
}

/// Tells whether the path's file name does not begin with a `.`.
pub fn path_is_not_hidden(path: &str) -> (visible: bool)
    ensures
        visible == !hidden(path@),
{
    match last_component(path, 0) {
        Some((start, end)) => {
            assert(path@.subrange(start as int, end as int)[0] == path@[start as int]);
            path.get_char(start) != '.'
        },
        None => true,
    }
}

/// The length of the head of `path`, and whether the head is a `/`.
fn head_of(path: &str) -> (found: (usize, bool))
    ensures
        found.0 == head(path@).len(),
        found.1 == (head(path@) == seq!['/']),
{
    let n = path.unicode_len();
    if n == 0 {
        return (0, false);
    }
    let c = path.get_char(0);
    if c == '/' {
        (1, true)
    } else if c == '.' && (n == 1 || path.get_char(1) == '/') {
        assert(head(path@) =~= seq!['.']);
        assert(seq!['.'][0] != seq!['/'][0]);
        (1, false)
    } else {
        (0, false)
    }
}

/// Tells whether `path` has a head or a component.
fn has_any_part(path: &str) -> (found: bool)
    ensures
        found == has_parts(path@),
{
    let (head_length, _) = head_of(path);
    if head_length > 0 {
        return true;
    }
    match next_component(path, 0) {
        Some(_) => true,
        None => false,
    }
}

/// Matches the components of `prefix` against the first components of
/// `path`; tells whether they match and where `path` goes on behind them.
fn match_components(path: &str, prefix: &str) -> (found: (bool, usize))
    ensures
        found.0 == matches_from(path@, 0, prefix@, 0),
        found.0 ==> found.1 == rest_from(path@, 0, prefix@, 0),
        found.1 <= path@.len(),
{
    let n = path.unicode_len();
    let m = prefix.unicode_len();
    let mut i: usize = 0;
    let mut j: usize = 0;
    let mut matched = false;
    let mut failed = false;
    while !matched && !failed
        invariant
            i <= n,
            j <= m,
            n == path@.len(),
            m == prefix@.len(),
            !(matched && failed),
            matched ==> next_span(prefix@, j as int) is None,
            failed ==> !matches_from(path@, i as int, prefix@, j as int),
            matches_from(path@, i as int, prefix@, j as int) == matches_from(path@, 0, prefix@, 0),
            !failed ==> rest_from(path@, i as int, prefix@, j as int) == rest_from(
                path@,
                0,
                prefix@,
                0,
            ),
        decreases m - j + (if matched || failed { 0int } else { 1int }),
    {
        proof {
            lemma_next_span_bounds(prefix@, j as int);
            lemma_next_span_bounds(path@, i as int);
        }
        match next_component(prefix, j) {
            None => {
                matched = true;
            },
            Some((from, to)) => match next_component(path, i) {
                None => {
                    failed = true;
                },
                Some((start, end)) => {
                    if same_text(path.substring_char(start, end), prefix.substring_char(from, to)) {
                        i = end;
                        j = to;
                    } else {
                        failed = true;
                    }
                },
            },
        }
    }
    (matched, i)
}

/// Tells whether `path` lies at or below `prefix`.
pub fn path_is_under(path: &str, prefix: &str) -> (under: bool)
    ensures
        under == path_under(prefix@, path@),
{
    if !has_any_part(prefix) {
        return true;
    }
    let (prefix_head, prefix_rooted) = head_of(prefix);
    let (path_head, path_rooted) = head_of(path);
    if prefix_head != path_head || prefix_rooted != path_rooted {
        proof {
            if head(prefix@) == head(path@) {
                assert(prefix_head == path_head);
            }
        }
        return false;
    }
    proof {
        if prefix_head == 1 {
            if prefix_rooted {
                assert(head(prefix@) == head(path@));
            } else {
                assert(head(prefix@) =~= seq!['.']);
                assert(head(path@) =~= seq!['.']);
            }
        } else {
            assert(head(prefix@) =~= head(path@));
        }
    }
    let (matched, _) = match_components(path, prefix);
    matched
}

/// The dotted module name of the file at `file_path`, relative to the
/// project root `prefix`.
pub fn convert_path_to_module_id(file_path: &str, prefix: &str) -> (id: String)
    requires
        path_under(prefix@, file_path@),
    ensures
        id@ == module_id(relative_to(prefix@, file_path@)),
{
    let relative = if !has_any_part(prefix) {
        let end = match last_component(file_path, 0) {
            Some((_, end)) => end,
            None => head_of(file_path).0,
        };
        file_path.substring_char(0, end)
    } else {
        let (_, rest) = match_components(file_path, prefix);
        proof {
            lemma_last_span_bounds(file_path@, rest as int);
        }
        match next_component(file_path, rest) {
            Some((start, _)) => match last_component(file_path, rest) {
                Some((_, end)) => file_path.substring_char(start, end),
                None => file_path.substring_char(0, 0),
            },
            None => file_path.substring_char(0, 0),
        }
    };
    assert(relative@ =~= relative_to(prefix@, file_path@));
    let end = match last_component(relative, 0) {
        Some((_, end)) => end,
        None => head_of(relative).0,
    };
    let kept = if ends_in_py(relative) {
        end - 3
    } else {
        end
    };
    let stem_text = relative.substring_char(0, kept);
    assert(stem_text@ =~= stem(relative@));
    replace_char(stem_text, '/', ".")
}

/// What the walk over a project does with one directory entry. Hidden
/// entries, directories and files alike, are passed over.
#[derive(Debug, Clone, Copy, PartialEq, Eq, Structural)]
pub enum EntryKind {
    /// A visible directory: to be searched if it is a package.
    Directory,
    /// A visible module file: to be recorded with its imports.
    ModuleFile,
    /// Anything else: passed over.
    Other,
}

/// The kind of the entry at `path`, given whether it is a directory and
/// whether it is a file.
pub open spec fn entry_kind(path: Seq<char>, is_dir: bool, is_file: bool) -> EntryKind {
    if is_dir && !hidden(path) {
        EntryKind::Directory
    } else if is_file && !hidden(path) && python_file(path) {
        EntryKind::ModuleFile
    } else {
        EntryKind::Other
    }
}

/// Decides what to do with the directory entry at `path`.
pub fn classify_entry(path: &str, is_dir: bool, is_file: bool) -> (kind: EntryKind)
    ensures
        kind == entry_kind(path@, is_dir, is_file),
{
    if is_dir && path_is_not_hidden(path) {
        EntryKind::Directory
    } else if is_file && path_is_not_hidden(path) && is_python_file(path) {
        EntryKind::ModuleFile
    } else {
        EntryKind::Other
    }
}

/// Tells whether a directory is a package: whether `__init__.py` is among
/// the names of its files.
pub fn init_file_exists(file_names: &Vec<String>) -> (found: bool)
    ensures
        found == file_names.deep_view().contains("__init__.py"@),
{
    let mut i: usize = 0;
    while i < file_names.len()
        invariant
            i <= file_names.len(),
            forall|j: int| 0 <= j < i ==> file_names.deep_view()[j] != "__init__.py"@,
        decreases file_names.len() - i,
    {
        if same_text(file_names[i].as_str(), "__init__.py") {
            assert(file_names.deep_view()[i as int] == "__init__.py"@);
            return true;
        }
        i += 1;
    }
    false
}

/// Tells whether a directory is a project: whether `pyproject.toml` or
/// `setup.py` is among the names of its files.
pub fn pyproject_exists(file_names: &Vec<String>) -> (found: bool)
    ensures
        found == (file_names.deep_view().contains("pyproject.toml"@)
            || file_names.deep_view().contains("setup.py"@)),
{
    let mut i: usize = 0;
    while i < file_names.len()
        invariant
            i <= file_names.len(),
            forall|j: int|
                0 <= j < i ==> file_names.deep_view()[j] != "pyproject.toml"@
                    && file_names.deep_view()[j] != "setup.py"@,
        decreases file_names.len() - i,
    {
        let name = file_names[i].as_str();
        if same_text(name, "pyproject.toml") || same_text(name, "setup.py") {
            assert(file_names.deep_view()[i as int] == name@);
            return true;
        }
        i += 1;
    }
    false
}

} // verus!
