//! The matchers: which lines of a text contain a query.
//!
//! Every line returned is a view into the text that was searched. Nothing is
//! copied, so the text must live at least as long as the result is used; the
//! lifetime in the signatures says so.

use crate::config::{Config, ConfigView};
use crate::fold::{lowercase_of, to_lowercase};
use crate::lines::{after_first_line, first_line, lines_of, split_first_line};
use crate::pattern::{has_occurrence, lemma_empty_occurs, text_contains};
use vstd::prelude::*;

verus! {

/// The test that a line must pass to be selected: `needle` occurs in the
/// line, or, with `fold`, in the lowercase form of the line.
pub open spec fn passes(needle: Seq<char>, fold: bool) -> spec_fn(Seq<char>) -> bool {
    |line: Seq<char>|
        has_occurrence(
            needle,
            if fold {
                lowercase_of(line)
            } else {
                line
            },
        )
}

/// The lines of `contents` that contain `query` exactly, in their order in
/// `contents`.
pub open spec fn matching_lines(query: Seq<char>, contents: Seq<char>) -> Seq<Seq<char>> {
    lines_of(contents).filter(passes(query, false))
}

/// The lines of `contents` whose lowercase form contains the lowercase form
/// of `query`, in their order in `contents` and as they stand there.
pub open spec fn matching_lines_ignoring_case(query: Seq<char>, contents: Seq<char>) -> Seq<
    Seq<char>,
> {
    lines_of(contents).filter(passes(lowercase_of(query), true))
}

/// The lines that a run with `config` selects from `contents`.
pub open spec fn selected_lines(config: ConfigView, contents: Seq<char>) -> Seq<Seq<char>> {
    if config.ignore_case {
        matching_lines_ignoring_case(config.query, contents)
    } else {
        matching_lines(config.query, contents)
    }
}

/// Every selected line is a line of the text and passes the test.
pub proof fn lemma_selected_are_lines(lines: Seq<Seq<char>>, test: spec_fn(Seq<char>) -> bool)
    ensures
        forall|i: int|
            0 <= i < lines.filter(test).len() ==> lines.contains(#[trigger] lines.filter(test)[i])
                && test(lines.filter(test)[i]),
{
    let kept = lines.filter(test);
    assert forall|i: int| 0 <= i < kept.len() implies lines.contains(#[trigger] kept[i]) && test(
        kept[i],
    ) by {
        lines.lemma_filter_pred(test, i);
        assert(kept.contains(kept[i]));
        lines.lemma_filter_contains_rev(test, kept[i]);
    }
}

/// A test that every line passes selects all lines.
pub proof fn lemma_all_selected(lines: Seq<Seq<char>>, test: spec_fn(Seq<char>) -> bool)
    requires
        forall|i: int| 0 <= i < lines.len() ==> test(#[trigger] lines[i]),
    ensures
        lines.filter(test) == lines,
    decreases lines.len(),
{
    reveal(Seq::filter);
    if lines.len() > 0 {
        let front = lines.drop_last();
        assert forall|i: int| 0 <= i < front.len() implies test(#[trigger] front[i]) by {
            assert(front[i] == lines[i]);
        }
        lemma_all_selected(front, test);
        assert(front.push(lines.last()) =~= lines);
    }
}

/// Case-sensitive search finds the same lines whenever it is asked the same
/// question: what it returns is determined by the query and the text.
pub proof fn lemma_search_repeatable(
    query: Seq<char>,
    contents: Seq<char>,
    first: Seq<Seq<char>>,
    second: Seq<Seq<char>>,
)
    requires
        first == matching_lines(query, contents),
        second == matching_lines(query, contents),
    ensures
        first == second,
{
}

/// Case-insensitive search finds the same lines whenever it is asked the
/// same question: what it returns is determined by the query and the text.
pub proof fn lemma_search_case_insensitive_repeatable(
    query: Seq<char>,
    contents: Seq<char>,
    first: Seq<Seq<char>>,
    second: Seq<Seq<char>>,
)
    requires
        first == matching_lines_ignoring_case(query, contents),
        second == matching_lines_ignoring_case(query, contents),
    ensures
        first == second,
{
}

/// Walks over the lines of `contents` and keeps those that pass the test for
/// `needle`. With `fold`, each line is put to lowercase before it is tested;
/// the line that is kept is the line as it stands in `contents`.
fn select<'a>(needle: &str, contents: &'a str, fold: bool) -> (found: Vec<&'a str>)
    ensures
        found.deep_view() == lines_of(contents@).filter(passes(needle@, fold)),
{
    let ghost test = passes(needle@, fold);
    let mut found: Vec<&'a str> = Vec::new();
    let mut rest: &'a str = contents;
    proof {
        assert(found.deep_view() =~= Seq::<Seq<char>>::empty());
        assert(found.deep_view() + lines_of(rest@).filter(test) =~= lines_of(contents@).filter(
            test,
        ));
    }
    loop
        invariant
            test == passes(needle@, fold),
            found.deep_view() + lines_of(rest@).filter(test) == lines_of(contents@).filter(test),
        decreases rest@.len(),
    {
        match split_first_line(rest) {
            None => {
                proof {
                    assert(lines_of(rest@).filter(test) =~= Seq::<Seq<char>>::empty());
                    assert(found.deep_view() =~= found.deep_view() + lines_of(rest@).filter(test));
                }
                return found;
            },
            Some((line, tail)) => {
                let ghost kept = found.deep_view();
                let hit = if fold {
                    let folded = to_lowercase(line);
                    text_contains(folded.as_str(), needle)
                } else {
                    text_contains(line, needle)
                };
                proof {
                    assert(hit == test(line@));
                    assert(lines_of(rest@) == seq![line@] + lines_of(tail@));
                    lines_of(tail@).lemma_filter_prepend(line@, test);
                }
                if hit {
                    found.push(line);
                    proof {
                        assert(found.deep_view() =~= kept.push(line@));
                        assert(found.deep_view() + lines_of(tail@).filter(test) =~= kept + (
                        seq![line@] + lines_of(tail@).filter(test)));
                    }
                } else {
                    proof {
                        assert(found.deep_view() + lines_of(tail@).filter(test) =~= kept + (
                        Seq::<Seq<char>>::empty() + lines_of(tail@).filter(test)));
                    }
                }
                rest = tail;
            },
        }
    }
}

/// Returns the lines of `contents` that contain `query`, compared exactly, in
/// the order in which they stand in `contents`.
///
/// The empty query is contained in every line, so it selects all of them. A
/// query that no line contains gives an empty result.
pub fn search<'a>(query: &str, contents: &'a str) -> (found: Vec<&'a str>)
    ensures
        found.deep_view() == matching_lines(query@, contents@),
        forall|i: int|
            0 <= i < found@.len() ==> lines_of(contents@).contains(#[trigger] found@[i]@)
                && has_occurrence(query@, found@[i]@),
        query@.len() == 0 ==> found.deep_view() == lines_of(contents@),
{
    let found = select(query, contents, false);
    proof {
        let lines = lines_of(contents@);
        let test = passes(query@, false);
        lemma_selected_are_lines(lines, test);
        assert forall|i: int| 0 <= i < found@.len() implies lines.contains(#[trigger] found@[i]@)
            && has_occurrence(query@, found@[i]@) by {
            assert(found.deep_view()[i] == found@[i]@);
        }
        if query@.len() == 0 {
            assert forall|i: int| 0 <= i < lines.len() implies test(#[trigger] lines[i]) by {
                lemma_empty_occurs(query@, lines[i]);
            }
            lemma_all_selected(lines, test);
        }
    }
    found
}

/// Returns the lines of `contents` whose lowercase form contains the
/// lowercase form of `query`, in the order in which they stand in `contents`.
///
/// Folding serves the comparison only: the lines returned are the lines as
/// they stand in `contents`.
pub fn search_case_insensitive<'a>(query: &str, contents: &'a str) -> (found: Vec<&'a str>)
    ensures
        found.deep_view() == matching_lines_ignoring_case(query@, contents@),
        forall|i: int|
            0 <= i < found@.len() ==> lines_of(contents@).contains(#[trigger] found@[i]@)
                && has_occurrence(lowercase_of(query@), lowercase_of(found@[i]@)),
{
    let needle = to_lowercase(query);
    let found = select(needle.as_str(), contents, true);
    proof {
        let lines = lines_of(contents@);
        let test = passes(lowercase_of(query@), true);
        lemma_selected_are_lines(lines, test);
        assert forall|i: int| 0 <= i < found@.len() implies lines.contains(#[trigger] found@[i]@)
            && has_occurrence(lowercase_of(query@), lowercase_of(found@[i]@)) by {
            assert(found.deep_view()[i] == found@[i]@);
        }
    }
    found
}

/// Returns the lines that a run with `config` prints for a file that holds
/// `contents`: those that contain the query, without regard to letter case
/// if the configuration says so.
pub fn run<'a>(config: &Config, contents: &'a str) -> (found: Vec<&'a str>)
    ensures
        found.deep_view() == selected_lines(config@, contents@),
{
    if config.ignore_case {
        search_case_insensitive(config.query.as_str(), contents)
    } else {
        search(config.query.as_str(), contents)
    }
}

} // verus!
