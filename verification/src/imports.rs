//! Finding the import references in the lines of a source file.
//!
//! A line that begins with `import` or `from` is an import line; the module
//! it refers to is its second word, words being separated by white space.

use crate::text::has_prefix;
use vstd::prelude::*;
use vstd::string::*;

verus! {

/// Whether a character counts as white space: what the standard library's
/// `char::is_whitespace` returns for it. The set of such characters is
/// Unicode's and is not spelled out here.
pub uninterp spec fn is_white_space(c: char) -> bool;

/// Calls `char::is_whitespace`. Taken on trust, not proved: for one character
/// the call gives one answer, the one that `is_white_space` names.
#[verifier::external_body]
fn is_whitespace(c: char) -> (space: bool)
    ensures
        space == is_white_space(c),
{
    c.is_whitespace()
}

/// The white-space flag of each character of `line`.
pub open spec fn space_flags(line: Seq<char>) -> Seq<bool> {
    line.map_values(|c: char| is_white_space(c))
}

/// The end of the run that begins at `from` and holds only white space
/// (`space`) or only other characters (`!space`), going by the flags.
pub open spec fn run_end(flags: Seq<bool>, from: int, space: bool) -> int
    decreases flags.len() - from,
{
    if 0 <= from < flags.len() && flags[from] == space {
        run_end(flags, from + 1, space)
    } else {
        from
    }
}

/// Where the second word begins, or the number of flags if there is none:
/// behind the white space in front, the first word and the white space that
/// follows it.
pub open spec fn second_word_start(flags: Seq<bool>) -> int {
    run_end(flags, run_end(flags, run_end(flags, 0, true), false), true)
}

/// The second word of `line`, if it has one, where `flags` tells which of its
/// characters are white space.
pub open spec fn second_word(line: Seq<char>, flags: Seq<bool>) -> Option<Seq<char>> {
    let start = second_word_start(flags);
    if start < flags.len() {
        Some(line.subrange(start, run_end(flags, start, false)))
    } else {
        None
    }
}

/// The line begins with `import` or `from`.
pub open spec fn import_line(line: Seq<char>) -> bool {
    "import"@.is_prefix_of(line) || "from"@.is_prefix_of(line)
}

/// What one source line contributes to the imports of its module.
#[derive(Debug)]
pub enum ImportLine {
    /// The line is no import line.
    Other,
    /// The line is an import line, and this is its second word.
    Import(String),
    /// The line is an import line without a second word.
    Incomplete,
}

/// The meaning of a line whose white space `flags` marks: nothing for a line
/// that is no import line, else its second word, if it has one.
pub open spec fn read_flagged_line(line: Seq<char>, flags: Seq<bool>) -> Option<
    Option<Seq<char>>,
> {
    if import_line(line) {
        Some(second_word(line, flags))
    } else {
        None
    }
}

/// The meaning of a line, as a value.
pub open spec fn read_line(line: Seq<char>) -> Option<Option<Seq<char>>> {
    read_flagged_line(line, space_flags(line))
}

/// The import references of the lines, in order, skipping the lines that
/// contribute none.
pub open spec fn imports_of(lines: Seq<Seq<char>>) -> Seq<Seq<char>>
    decreases lines.len(),
{
    if lines.len() == 0 {
        Seq::empty()
    } else {
        let before = imports_of(lines.drop_last());
        match read_line(lines.last()) {
            Some(Some(word)) => before.push(word),
            _ => before,
        }
    }
}

/// Some line is an import line without a second word.
pub open spec fn has_incomplete_line(lines: Seq<Seq<char>>) -> bool {
    exists|i: int| 0 <= i < lines.len() && read_line(#[trigger] lines[i]) == Some(None::<Seq<char>>)
}

/// The end of the run of set flags (`space`) or of cleared flags (`!space`)
/// that begins at `from`.
fn find_run_end(flags: &Vec<bool>, from: usize, space: bool) -> (end: usize)
    requires
        from <= flags.len(),
    ensures
        end == run_end(flags@, from as int, space),
        from <= end <= flags.len(),
{
    let mut i: usize = from;
    while i < flags.len() && flags[i] == space
        invariant
            from <= i <= flags.len(),
            run_end(flags@, i as int, space) == run_end(flags@, from as int, space),
        decreases flags.len() - i,
    {
        i += 1;
    }
    i
}

/// Reads one source line, given for each of its characters whether it is
/// white space.
pub fn read_import_line(line: &str, spaces: &Vec<bool>) -> (found: ImportLine)
    requires
        spaces@.len() == line@.len(),
    ensures
        match found {
            ImportLine::Other => read_flagged_line(line@, spaces@) is None,
            ImportLine::Import(word) => read_flagged_line(line@, spaces@) == Some(Some(word@)),
            ImportLine::Incomplete => read_flagged_line(line@, spaces@) == Some(None::<Seq<char>>),
        },
{
    if !(has_prefix(line, "import") || has_prefix(line, "from")) {
        return ImportLine::Other;
    }
    let first = find_run_end(spaces, 0, true);
    let first_end = find_run_end(spaces, first, false);
    let start = find_run_end(spaces, first_end, true);
    if start >= spaces.len() {
        return ImportLine::Incomplete;
    }
    let end = find_run_end(spaces, start, false);
    ImportLine::Import(line.substring_char(start, end).to_owned())
}

/// For each character of `line`, whether it is white space.
fn space_flags_of(line: &str) -> (flags: Vec<bool>)
    ensures
        flags@ == space_flags(line@),
{
    let n = line.unicode_len();
    let mut flags: Vec<bool> = Vec::new();
    let mut i: usize = 0;
    while i < n
        invariant
            i <= n,
            n == line@.len(),
            flags@.len() == i,
            forall|j: int| 0 <= j < i ==> flags@[j] == is_white_space(line@[j]),
        decreases n - i,
    {
        flags.push(is_whitespace(line.get_char(i)));
        i += 1;
    }
    assert(flags@ =~= space_flags(line@));
    flags
}

/// Reads one source line.
pub fn import_of_line(line: &str) -> (found: ImportLine)
    ensures
        match found {
            ImportLine::Other => read_line(line@) is None,
            ImportLine::Import(word) => read_line(line@) == Some(Some(word@)),
            ImportLine::Incomplete => read_line(line@) == Some(None::<Seq<char>>),
        },
{
    if !(has_prefix(line, "import") || has_prefix(line, "from")) {
        return ImportLine::Other;
    }
    let spaces = space_flags_of(line);
    read_import_line(line, &spaces)
}

/// The import references that the lines of a source file hold, in order; or
/// nothing if one of its import lines lacks its second word.
pub fn find_imports_in_py(lines: &Vec<String>) -> (found: Option<Vec<String>>)
    ensures
        found is None <==> has_incomplete_line(lines.deep_view()),
        found matches Some(imports) ==> imports.deep_view() == imports_of(lines.deep_view()),
{
    let ghost texts = lines.deep_view();
    let mut imports: Vec<String> = Vec::new();
    let mut i: usize = 0;
    assert(texts.take(0) =~= Seq::<Seq<char>>::empty());
    assert(imports.deep_view() =~= Seq::<Seq<char>>::empty());
    while i < lines.len()
        invariant
            i <= lines.len(),
            texts == lines.deep_view(),
            imports.deep_view() == imports_of(texts.take(i as int)),
            forall|j: int| 0 <= j < i ==> read_line(#[trigger] texts[j]) != Some(None::<Seq<char>>),
        decreases lines.len() - i,
    {
        proof {
            assert(texts.take(i + 1).drop_last() =~= texts.take(i as int));
            assert(texts.take(i + 1).last() == texts[i as int]);
            assert(texts[i as int] == lines[i as int]@);
        }
        let ghost before = imports.deep_view();
        match import_of_line(lines[i].as_str()) {
            ImportLine::Other => {},
            ImportLine::Import(word) => {
                imports.push(word);
                assert(imports.deep_view() =~= before.push(word@));
            },
            ImportLine::Incomplete => {
                return None;
            },
        }
        i += 1;
    }
    assert(texts.take(lines.len() as int) =~= texts);
    Some(imports)
}

} // verus!
