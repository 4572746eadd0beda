//! A whole run: from the lines of an input to the three ids.

use vstd::prelude::*;
use vstd::seq_lib::group_to_multiset_ensures;
use crate::analysis::{
    analysis_of,
    analyze,
    ids_of,
    lemma_analysis_ignores_order,
    lemma_map_preserves_multiset,
    Analysis,
    AnalysisView,
};
use crate::error::{Error, ErrorView};
use crate::seat::{
    lemma_seats_of_lines,
    line_outcome,
    line_views,
    read_seats,
    seats_of_lines,
};

verus! {

/// What a run over `lines` gives: the analysis of the seats that the lines
/// denote, or the first error on the way.
pub open spec fn survey_of(lines: Seq<Result<Seq<char>, Seq<char>>>) -> Result<
    AnalysisView,
    ErrorView,
> {
    match seats_of_lines(lines) {
        Ok(seats) => analysis_of(ids_of(seats)),
        Err(e) => Err(e),
    }
}

/// Decodes the lines of an input and analyzes the seats they denote.
///
/// Each entry of `lines` is the text of a line, or the reason why the line
/// could not be read. The first line that gives an error ends the run with
/// that error; an analysis is made only of a complete collection.
pub fn survey(lines: Vec<Result<String, String>>) -> (r: Result<Analysis, Error>)
    ensures
        match r {
            Ok(found) => survey_of(line_views(lines@)) == Ok::<AnalysisView, ErrorView>(found@),
            Err(e) => survey_of(line_views(lines@)) == Err::<AnalysisView, ErrorView>(e@),
        },
{
    match read_seats(lines) {
        Ok(seats) => analyze(&seats),
        Err(e) => Err(e),
    }
}

/// The id of the seat that `line` denotes.
pub open spec fn id_of_line(line: Result<Seq<char>, Seq<char>>) -> int {
    match line_outcome(line) {
        Ok(seat) => seat.id as int,
        Err(_) => 0,
    }
}

/// The order of the lines does not matter to the outcome of a run. Lines
/// that all give seats give the same outcome in any order; lines of which
/// one gives an error give an error in any order, each time that of the
/// first such line.
pub proof fn lemma_line_order_is_irrelevant(
    a: Seq<Result<Seq<char>, Seq<char>>>,
    b: Seq<Result<Seq<char>, Seq<char>>>,
)
    requires
        a.to_multiset() == b.to_multiset(),
    ensures
        seats_of_lines(a) is Ok <==> seats_of_lines(b) is Ok,
        seats_of_lines(a) is Ok ==> survey_of(a) == survey_of(b),
        survey_of(a) is Ok <==> survey_of(b) is Ok,
{
    lemma_seats_of_lines(a);
    lemma_seats_of_lines(b);
    if seats_of_lines(a) is Ok {
        lemma_same_lines_all_give_seats(a, b);
    }
    if seats_of_lines(b) is Ok {
        lemma_same_lines_all_give_seats(b, a);
    }
    if seats_of_lines(a) is Ok {
        let seats_a = seats_of_lines(a)->Ok_0;
        let seats_b = seats_of_lines(b)->Ok_0;
        let id = |line: Result<Seq<char>, Seq<char>>| id_of_line(line);
        assert(ids_of(seats_a) =~= a.map_values(id));
        assert(ids_of(seats_b) =~= b.map_values(id));
        lemma_map_preserves_multiset(a, b, id);
        lemma_analysis_ignores_order(ids_of(seats_a), ids_of(seats_b));
    }
}

proof fn lemma_same_lines_all_give_seats(
    a: Seq<Result<Seq<char>, Seq<char>>>,
    b: Seq<Result<Seq<char>, Seq<char>>>,
)
    requires
        a.to_multiset() == b.to_multiset(),
        forall|i: int| 0 <= i < a.len() ==> line_outcome(#[trigger] a[i]) is Ok,
    ensures
        forall|j: int| 0 <= j < b.len() ==> line_outcome(#[trigger] b[j]) is Ok,
{
    broadcast use group_to_multiset_ensures;

    assert forall|j: int| 0 <= j < b.len() implies line_outcome(#[trigger] b[j]) is Ok by {
        assert(b.contains(b[j]));
        assert(b.to_multiset().count(b[j]) > 0);
        assert(a.to_multiset().count(b[j]) > 0);
        assert(a.contains(b[j]));
        let i = choose|i: int| 0 <= i < a.len() && a[i] == b[j];
        assert(line_outcome(a[i]) is Ok);
    }
}

} // verus!
