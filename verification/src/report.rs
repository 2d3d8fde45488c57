//! The lines in which the result of a search is reported.

use crate::catalog::Chain;
use crate::python_module::{chains, ImportCycle};
use crate::text::joined;
use vstd::prelude::*;
use vstd::string::*;

verus! {

/// The line for one cycle: its module names with an arrow between any two
/// neighbours.
pub open spec fn cycle_line(chain: Chain) -> Seq<char> {
    joined(chain, " -> "@)
}

/// The report on a search: one line that says that nothing was found, or a
/// heading followed by one line for each cycle, in order.
pub open spec fn report(cycles: Seq<Chain>) -> Seq<Seq<char>> {
    if cycles.len() == 0 {
        seq!["\u{2705} No circular imports were found."@]
    } else {
        seq!["\u{274C} Circular imports were found: \n"@] + cycles.map_values(
            |chain: Chain| cycle_line(chain),
        )
    }
}

/// The line that reports one cycle.
pub fn format_cycle(cycle: &ImportCycle) -> (line: String)
    ensures
        line@ == cycle_line(cycle@),
{
    let mut line = String::new();
    let mut i: usize = 0;
    assert(cycle@.take(0) =~= Seq::<Seq<char>>::empty());
    while i < cycle.modules.len()
        invariant
            i <= cycle.modules.len(),
            line@ == cycle_line(cycle@.take(i as int)),
        decreases cycle.modules.len() - i,
    {
        proof {
            let now = cycle@.take(i + 1);
            assert(now.drop_last() =~= cycle@.take(i as int));
            assert(now.last() == cycle.modules[i as int]@);
            if i == 0 {
                assert(line@ + now.last() =~= now[0]);
            }
        }
        if i > 0 {
            line.append(" -> ");
        }
        line.append(cycle.modules[i].as_str());
        i += 1;
    }
    assert(cycle@.take(cycle.modules.len() as int) =~= cycle@);
    line
}

/// The lines that report the cycles found.
pub fn import_cycles_report(import_cycles: &Vec<ImportCycle>) -> (lines: Vec<String>)
    ensures
        lines.deep_view() == report(chains(import_cycles@)),
{
    let ghost found = chains(import_cycles@);
    let mut lines: Vec<String> = Vec::new();
    if import_cycles.len() == 0 {
        lines.push("\u{2705} No circular imports were found.".to_owned());
        assert(lines.deep_view() =~= report(found));
        return lines;
    }
    lines.push("\u{274C} Circular imports were found: \n".to_owned());
    let mut i: usize = 0;
    while i < import_cycles.len()
        invariant
            i <= import_cycles.len(),
            found == chains(import_cycles@),
            lines.len() == i + 1,
            lines.deep_view()[0] == "\u{274C} Circular imports were found: \n"@,
            forall|j: int| 0 <= j < i ==> lines.deep_view()[j + 1] == cycle_line(found[j]),
        decreases import_cycles.len() - i,
    {
        let ghost before = lines.deep_view();
        lines.push(format_cycle(&import_cycles[i]));
        assert(lines.deep_view() =~= before.push(cycle_line(found[i as int])));
        i += 1;
    }
    assert(lines.deep_view() =~= report(found));
    lines
}

} // verus!
