//! Running a command: which step comes next, given what has happened so
//! far. The program around the library performs each step and reports back.
use vstd::prelude::*;
use crate::selection::{
    first_out_of_range, indices_of, picks_of, select_by_numbers, selection_of, split_spaces,
    Pick, SelectionError,
};

verus! {

/// What to do with the matches.
#[derive(Debug, Clone, Copy, PartialEq, Eq, Structural)]
pub enum Command {
    /// Show the matches, let the operator choose, extract the chosen ones.
    Choose,
    /// Show the matches, let the operator choose, print the chosen ones.
    View,
    /// Show the matches.
    List,
    /// Extract every match.
    Extract,
}

/// What has happened so far in running a command.
#[derive(Debug)]
pub enum Progress {
    /// Nothing yet.
    Started,
    /// The numbered list of matches has been shown.
    Listed,
    /// The operator chose these names in the interactive picker, in its
    /// order; an aborted picker chose none.
    Picked(Vec<String>),
    /// The operator typed this line of positions and ranges.
    Typed(String),
    /// The entries have been extracted or printed.
    Done,
}

/// What the program does next.
#[derive(Debug)]
pub enum Step {
    /// Print the matches as a numbered list, `0. name` onward.
    ShowMatches,
    /// Ask the operator which matches to take.
    AskSelection,
    /// Extract these entries, in this order.
    Extract(Vec<String>),
    /// Print these entries, in this order.
    View(Vec<String>),
    /// The typed selection was refused; nothing is extracted or printed.
    Refuse(SelectionError),
    /// Nothing more to do.
    Finish,
}

/// The names held by `v`.
pub open spec fn names_of(v: Seq<String>) -> Seq<Seq<char>> {
    v.map_values(|s: String| s@)
}

fn copy_names(v: &Vec<String>) -> (r: Vec<String>)
    ensures
        r@ == v@,
{
    let mut r: Vec<String> = Vec::new();
    let mut i: usize = 0;
    while i < v.len()
        invariant
            i <= v@.len(),
            r@ == v@.take(i as int),
        decreases v@.len() - i,
    {
        r.push(v[i].clone());
        i = i + 1;
        assert(r@ =~= v@.take(i as int));
    }
    assert(v@.take(i as int) =~= v@);
    r
}

impl Command {
    /// The step that follows `progress` when running this command over
    /// `matches`. Typed lines are resolved against `matches`.
    pub fn execute(&self, matches: &Vec<String>, progress: Progress) -> (r: Step)
        ensures
            match (*self, progress) {
                (_, Progress::Done) => r is Finish,
                (Command::List, Progress::Started) => r is ShowMatches,
                (Command::List, _) => r is Finish,
                (Command::Extract, Progress::Started) => r matches Step::Extract(v) && v@ == matches@,
                (Command::Extract, _) => r is Finish,
                (_, Progress::Started) => r is ShowMatches,
                (_, Progress::Listed) => r is AskSelection,
                (Command::Choose, Progress::Picked(p)) => r matches Step::Extract(v) && v@ == p@,
                (_, Progress::Picked(p)) => r matches Step::View(v) && v@ == p@,
                (cmd, Progress::Typed(line)) => match selection_of(line@, matches@.len()) {
                    Ok(ix) => {
                        let chosen = ix.map_values(|i: usize| matches@[i as int]@);
                        if cmd == Command::Choose {
                            r matches Step::Extract(v) && names_of(v@) == chosen
                        } else {
                            r matches Step::View(v) && names_of(v@) == chosen
                        }
                    },
                    Err(e) => r == Step::Refuse(e),
                },
            },
    {
        match progress {
            Progress::Done => Step::Finish,
            Progress::Started => match self {
                Command::Extract => Step::Extract(copy_names(matches)),
                _ => Step::ShowMatches,
            },
            Progress::Listed => match self {
                Command::Choose | Command::View => Step::AskSelection,
                _ => Step::Finish,
            },
            Progress::Picked(p) => match self {
                Command::Choose => Step::Extract(p),
                Command::View => Step::View(p),
                _ => Step::Finish,
            },
            Progress::Typed(line) => match self {
                Command::Choose | Command::View => match select_by_numbers(matches, line.as_str()) {
                    Ok(v) => if let Command::Choose = self {
                        Step::Extract(v)
                    } else {
                        Step::View(v)
                    },
                    Err(e) => Step::Refuse(e),
                },
                _ => Step::Finish,
            },
        }
    }
}

/// Choosing every position in order, as one range from the first to the
/// last, chooses every match, in the order of the list and once each.
pub proof fn lemma_full_range_selects_all(line: Seq<char>, matches: Seq<Seq<char>>)
    requires
        0 < matches.len() <= usize::MAX,
        picks_of(split_spaces(line)) == Ok::<Seq<Pick>, int>(
            seq![Pick::Span(0, (matches.len() - 1) as usize)],
        ),
    ensures
        selection_of(line, matches.len()) matches Ok(ix) && ix.map_values(
            |i: usize| matches[i as int],
        ) == matches,
{
    let ps = seq![Pick::Span(0, (matches.len() - 1) as usize)];
    assert(ps.drop_last() =~= Seq::<Pick>::empty());
    assert(first_out_of_range(Seq::<Pick>::empty(), matches.len()) is None);
    assert(indices_of(Seq::<Pick>::empty()) =~= Seq::<usize>::empty());
    assert(ps.last() == Pick::Span(0, (matches.len() - 1) as usize));
    assert(first_out_of_range(ps, matches.len()) is None);
    let ix = indices_of(ps);
    assert(ix =~= Seq::new(matches.len(), |i: int| i as usize));
    assert(ix.map_values(|i: usize| matches[i as int]) =~= matches);
}

} // verus!
