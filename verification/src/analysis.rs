//! The analyzer: the lowest id, the highest id, and the gap between them.

use vstd::prelude::*;
use vstd::relations::{sorted_by, total_ordering};
use vstd::seq_lib::{group_to_multiset_ensures, lemma_sorted_unique};
use crate::error::{Error, ErrorKind, ErrorView};
use crate::seat::{Seat, SeatView};

verus! {

/// What the analyzer finds in a collection of seats.
#[derive(Clone, Copy, Debug, PartialEq, Eq, Structural)]
pub struct Analysis {
    /// The lowest id that occurs.
    pub lowest: u32,
    /// The highest id that occurs.
    pub highest: u32,
    /// The first id of the range from lowest to highest at whose place, once
    /// the ids stand in ascending order, another id stands.
    pub missing: u32,
}

/// The mathematical content of an [`Analysis`].
pub struct AnalysisView {
    pub lowest: int,
    pub highest: int,
    pub missing: int,
}

impl View for Analysis {
    type V = AnalysisView;

    open spec fn view(&self) -> AnalysisView {
        AnalysisView {
            lowest: self.lowest as int,
            highest: self.highest as int,
            missing: self.missing as int,
        }
    }
}

/// No entry of `ids` is smaller than an entry before it.
pub open spec fn ascending(ids: Seq<int>) -> bool {
    forall|i: int, j: int| 0 <= i < j < ids.len() ==> ids[i] <= ids[j]
}

/// The ids of `seats`, in the order of the seats.
pub open spec fn ids_of(seats: Seq<SeatView>) -> Seq<int> {
    seats.map_values(|seat: SeatView| seat.id as int)
}

/// `id` stands at its place in `sorted`: as far from the first entry as it is
/// larger than it.
pub open spec fn in_place(sorted: Seq<int>, id: int) -> bool {
    sorted[id - sorted.first()] == id
}

/// The first id from `id` up to the last entry of `sorted` that does not
/// stand at its place, if there is one.
pub open spec fn first_mismatch(sorted: Seq<int>, id: int) -> Option<int>
    decreases sorted.last() - id + 1,
{
    if id < sorted.first() || id > sorted.last() {
        None
    } else if !in_place(sorted, id) {
        Some(id)
    } else {
        first_mismatch(sorted, id + 1)
    }
}

/// The error that reports a collection without seats.
pub open spec fn no_seats_error() -> ErrorView {
    ErrorView { kind: ErrorKind::Analysis, message: "no seats to analyze"@ }
}

/// The error that reports a range of ids without a gap.
pub open spec fn no_gap_error() -> ErrorView {
    ErrorView { kind: ErrorKind::Analysis, message: "no missing seat id found"@ }
}

/// What the analyzer finds in ids that stand in ascending order.
pub open spec fn analysis_of_sorted(sorted: Seq<int>) -> Result<AnalysisView, ErrorView> {
    if sorted.len() == 0 {
        Err(no_seats_error())
    } else {
        match first_mismatch(sorted, sorted.first()) {
            Some(id) => Ok(
                AnalysisView { lowest: sorted.first(), highest: sorted.last(), missing: id },
            ),
            None => Err(no_gap_error()),
        }
    }
}

/// What the analyzer finds in `ids`, in whatever order they stand.
pub open spec fn analysis_of(ids: Seq<int>) -> Result<AnalysisView, ErrorView> {
    analysis_of_sorted(ids.sort())
}

/// The entries of `ids` as mathematical integers.
pub open spec fn as_ints(ids: Seq<u32>) -> Seq<int> {
    ids.map_values(|id: u32| id as int)
}

/// Two sequences with the same entries, each as often in one as in the other,
/// still have the same entries after a function is applied to each.
pub proof fn lemma_map_preserves_multiset<A, B>(a: Seq<A>, b: Seq<A>, f: spec_fn(A) -> B)
    requires
        a.to_multiset() == b.to_multiset(),
    ensures
        a.map_values(f).to_multiset() == b.map_values(f).to_multiset(),
    decreases a.len(),
{
    broadcast use group_to_multiset_ensures;

    assert(a.len() == a.to_multiset().len());
    assert(b.len() == b.to_multiset().len());
    if a.len() == 0 {
        assert(a.map_values(f) =~= b.map_values(f));
    } else {
        let x = a.last();
        let last = a.len() - 1;
        assert(a.contains(x));
        assert(a.to_multiset().count(x) > 0);
        assert(b.to_multiset().count(x) > 0);
        assert(b.contains(x));
        let i = choose|i: int| 0 <= i < b.len() && b[i] == x;
        let a_rest = a.remove(last);
        let b_rest = b.remove(i);
        lemma_map_preserves_multiset(a_rest, b_rest, f);
        assert(a.map_values(f) =~= a_rest.map_values(f).insert(last, f(x)));
        assert(b.map_values(f) =~= b_rest.map_values(f).insert(i, f(x)));
    }
}

/// The ascending arrangement of given ids is the only one.
pub proof fn lemma_ascending_is_sort(ids: Seq<int>, sorted: Seq<int>)
    requires
        ascending(sorted),
        sorted.to_multiset() == ids.to_multiset(),
    ensures
        sorted == ids.sort(),
{
    let leq = |x: int, y: int| x <= y;
    ids.lemma_sort_ensures();
    assert(total_ordering(leq));
    assert(sorted_by(sorted, leq));
    lemma_sorted_unique(sorted, ids.sort(), leq);
}

/// The analysis does not depend on the order of the ids.
pub proof fn lemma_analysis_ignores_order(a: Seq<int>, b: Seq<int>)
    requires
        a.to_multiset() == b.to_multiset(),
    ensures
        analysis_of(a) == analysis_of(b),
{
    lemma_sort_is_ascending(a);
    lemma_ascending_is_sort(b, a.sort());
}

/// The ascending arrangement of ids is ascending and holds the same ids.
pub proof fn lemma_sort_is_ascending(ids: Seq<int>)
    ensures
        ascending(ids.sort()),
        ids.sort().to_multiset() == ids.to_multiset(),
        ids.sort().len() == ids.len(),
        forall|id: int| ids.sort().contains(id) <==> ids.contains(id),
{
    broadcast use group_to_multiset_ensures;

    let leq = |x: int, y: int| x <= y;
    let sorted = ids.sort();
    ids.lemma_sort_ensures();
    assert forall|i: int, j: int| 0 <= i < j < sorted.len() implies sorted[i] <= sorted[j] by {
        assert(leq(sorted[i], sorted[j]));
    }
    assert(sorted.len() == sorted.to_multiset().len());
    assert(ids.len() == ids.to_multiset().len());
    assert forall|id: int| sorted.contains(id) <==> ids.contains(id) by {
        assert(sorted.contains(id) <==> sorted.to_multiset().count(id) > 0);
        assert(ids.contains(id) <==> ids.to_multiset().count(id) > 0);
    }
}

/// In ascending ids, every id up to `id` that stands at its place stands at
/// a place that exists.
proof fn lemma_places_exist(sorted: Seq<int>, id: int)
    requires
        sorted.len() > 0,
        ascending(sorted),
        sorted.first() <= id <= sorted.last(),
        forall|k: int| sorted.first() <= k < id ==> #[trigger] in_place(sorted, k),
    ensures
        id - sorted.first() < sorted.len(),
    decreases id - sorted.first(),
{
    if id > sorted.first() {
        lemma_places_exist(sorted, id - 1);
        assert(in_place(sorted, id - 1));
    }
}

/// The first id that does not stand at its place is the least such id of
/// the range, and there is none where every id of the range stands at its
/// place.
pub proof fn lemma_first_mismatch_is_least(sorted: Seq<int>, id: int)
    requires
        sorted.first() <= id,
    ensures
        match first_mismatch(sorted, id) {
            Some(found) => {
                &&& id <= found <= sorted.last()
                &&& !in_place(sorted, found)
                &&& forall|k: int| id <= k < found ==> #[trigger] in_place(sorted, k)
            },
            None => forall|k: int| id <= k <= sorted.last() ==> #[trigger] in_place(sorted, k),
        },
    decreases sorted.last() - id + 1,
{
    if id <= sorted.last() && in_place(sorted, id) {
        lemma_first_mismatch_is_least(sorted, id + 1);
    }
}

/// What the analysis means for ids of which none occurs twice. The lowest
/// and the highest id are the least and the greatest of them. The missing id
/// lies strictly between the two, does not occur, and every id below it down
/// to the lowest occurs. No gap is reported exactly when every id from the
/// least to the greatest occurs.
pub proof fn lemma_analysis_of_distinct_ids(ids: Seq<int>)
    requires
        ids.len() > 0,
        ids.no_duplicates(),
    ensures
        match analysis_of(ids) {
            Ok(found) => {
                &&& ids.contains(found.lowest)
                &&& ids.contains(found.highest)
                &&& forall|i: int| 0 <= i < ids.len() ==> found.lowest <= #[trigger] ids[i] <= found.highest
                &&& found.lowest < found.missing < found.highest
                &&& !ids.contains(found.missing)
                &&& forall|id: int| found.lowest <= id < found.missing ==> ids.contains(id)
            },
            Err(e) => {
                &&& e == no_gap_error()
                &&& forall|id: int|
                    ids.sort().first() <= id <= ids.sort().last() ==> ids.contains(id)
            },
        },
{
    let sorted = ids.sort();
    let n = sorted.len();
    let lowest = sorted.first();
    let highest = sorted.last();
    lemma_sort_is_ascending(ids);
    ids.lemma_multiset_has_no_duplicates();
    sorted.lemma_multiset_has_no_duplicates_conv();
    assert(forall|i: int, j: int| 0 <= i < j < n ==> sorted[i] != sorted[j]);
    assert(sorted.contains(sorted[0]));
    assert(sorted.contains(sorted[n - 1]));
    assert forall|i: int| 0 <= i < ids.len() implies lowest <= #[trigger] ids[i] <= highest by {
        assert(ids.contains(ids[i]));
        assert(sorted.contains(ids[i]));
        let k = choose|k: int| 0 <= k < n && sorted[k] == ids[i];
        assert(sorted[0] <= sorted[k] <= sorted[n - 1]);
    }
    lemma_first_mismatch_is_least(sorted, lowest);
    match first_mismatch(sorted, lowest) {
        Some(missing) => {
            lemma_places_exist(sorted, missing);
            let place = missing - lowest;
            assert(in_place(sorted, lowest));
            assert(place > 0);
            assert(in_place(sorted, missing - 1));
            assert(sorted[place - 1] < sorted[place]);
            assert forall|k: int| 0 <= k < n implies sorted[k] != missing by {
                if k < place {
                    assert(in_place(sorted, lowest + k));
                } else if k > place {
                    assert(sorted[place] < sorted[k]);
                }
            }
            assert(sorted[place] <= sorted[n - 1]);
            assert forall|id: int| lowest <= id < missing implies ids.contains(id) by {
                lemma_places_exist(sorted, id);
                assert(in_place(sorted, id));
                assert(sorted.contains(sorted[id - lowest]));
            }
        },
        None => {
            assert forall|id: int| lowest <= id <= highest implies ids.contains(id) by {
                lemma_places_exist(sorted, id);
                assert(in_place(sorted, id));
                assert(sorted.contains(sorted[id - lowest]));
            }
        },
    }
}

/// Puts `ids` in ascending order.
pub fn sort_ids(ids: &mut Vec<u32>)
    ensures
        final(ids)@.to_multiset() == old(ids)@.to_multiset(),
        ascending(as_ints(final(ids)@)),
{
    let n = ids.len();
    let mut i: usize = 1;
    while i < n
        invariant
            n == ids@.len(),
            1 <= i,
            ids@.to_multiset() == old(ids)@.to_multiset(),
            forall|a: int, b: int| 0 <= a < b < i && b < n ==> ids@[a] <= ids@[b],
        decreases n - i,
    {
        let mut j: usize = i;
        while j > 0 && ids[j - 1] > ids[j]
            invariant
                n == ids@.len(),
                j <= i < n,
                ids@.to_multiset() == old(ids)@.to_multiset(),
                forall|a: int, b: int| 0 <= a < b <= i && b != j ==> ids@[a] <= ids@[b],
            decreases j,
        {
            let ghost before = ids@;
            let left = ids[j - 1];
            let right = ids[j];
            ids.set(j - 1, right);
            ids.set(j, left);
            proof {
                broadcast use group_to_multiset_ensures;

                assert(ids@.to_multiset() =~= before.to_multiset());
            }
            j = j - 1;
        }
        i = i + 1;
    }
}

/// The ids of `seats`, in the order of the seats.
pub fn collect_ids(seats: &Vec<Seat>) -> (ids: Vec<u32>)
    ensures
        as_ints(ids@) == ids_of(crate::seat::seat_views(seats@)),
{
    let mut ids: Vec<u32> = Vec::new();
    let mut i: usize = 0;
    while i < seats.len()
        invariant
            i <= seats@.len(),
            ids@.len() == i,
            forall|j: int| 0 <= j < i ==> ids@[j] == seats@[j]@.id,
        decreases seats@.len() - i,
    {
        ids.push(seats[i].id());
        i = i + 1;
    }
    proof {
        assert(as_ints(ids@) =~= ids_of(crate::seat::seat_views(seats@)));
    }
    ids
}

fn no_seats() -> (e: Error)
    ensures
        e@ == no_seats_error(),
{
    Error::new(ErrorKind::Analysis, String::from_str("no seats to analyze"))
}

fn no_gap() -> (e: Error)
    ensures
        e@ == no_gap_error(),
{
    Error::new(ErrorKind::Analysis, String::from_str("no missing seat id found"))
}

/// Every id before `id` stands at its place, so the first one that does not
/// is the first from `id` on.
proof fn lemma_first_mismatch_skips(sorted: Seq<int>, from: int, id: int)
    requires
        sorted.len() > 0,
        sorted.first() <= from <= id <= sorted.last() + 1,
        forall|k: int| from <= k < id ==> #[trigger] in_place(sorted, k),
    ensures
        first_mismatch(sorted, from) == first_mismatch(sorted, id),
    decreases id - from,
{
    if from < id {
        lemma_first_mismatch_skips(sorted, from + 1, id);
    }
}

/// Analyzes ids that stand in ascending order.
///
/// The lowest id is the first entry and the highest is the last. The missing
/// id is the first id of the range from lowest to highest at whose place,
/// counted from the lowest, another id stands. An empty collection is
/// reported, and so is a range in which every id stands at its place.
pub fn analyze_sorted(sorted: &Vec<u32>) -> (r: Result<Analysis, Error>)
    requires
        ascending(as_ints(sorted@)),
    ensures
        match r {
            Ok(found) => analysis_of_sorted(as_ints(sorted@)) == Ok::<AnalysisView, ErrorView>(
                found@,
            ),
            Err(e) => analysis_of_sorted(as_ints(sorted@)) == Err::<AnalysisView, ErrorView>(e@),
        },
{
    let n = sorted.len();
    if n == 0 {
        return Err(no_seats());
    }
    let ghost ints = as_ints(sorted@);
    let lowest = sorted[0];
    let highest = sorted[n - 1];
    proof {
        assert(ints[0] <= ints[n - 1]);
    }
    let span: u32 = highest - lowest;
    let mut offset: u32 = 0;
    loop
        invariant
            n == sorted@.len(),
            n > 0,
            ints == as_ints(sorted@),
            ascending(ints),
            lowest == ints.first(),
            highest == ints.last(),
            span == highest - lowest,
            offset <= span,
            forall|k: int| 0 <= k < offset ==> k < n && #[trigger] ints[k] == lowest + k,
        decreases span - offset,
    {
        proof {
            if offset as int >= n {
                assert(ints[n - 1] == lowest + (n - 1));
            }
            assert forall|k: int| lowest <= k < lowest + offset implies #[trigger] in_place(
                ints,
                k,
            ) by {
                assert(ints[k - lowest] == lowest + (k - lowest));
            }
            lemma_first_mismatch_skips(ints, lowest as int, lowest + offset);
        }
        let entry = sorted[offset as usize];
        let id: u32 = lowest + offset;
        if entry != id {
            return Ok(Analysis { lowest, highest, missing: id });
        }
        if offset == span {
            proof {
                assert(in_place(ints, id as int));
                assert(first_mismatch(ints, id + 1) is None);
            }
            return Err(no_gap());
        }
        offset = offset + 1;
    }
}

/// Finds the lowest id, the highest id and the missing id of `seats`.
///
/// The seats may stand in any order: their ids are put in ascending order
/// first, and the outcome is that of [`analyze_sorted`].
pub fn analyze(seats: &Vec<Seat>) -> (r: Result<Analysis, Error>)
    ensures
        seats@.len() == 0 <==> (r matches Err(e) && e@ == no_seats_error()),
        r matches Err(e) ==> e@ == no_seats_error() || e@ == no_gap_error(),
        match r {
            Ok(found) => analysis_of(ids_of(crate::seat::seat_views(seats@))) == Ok::<
                AnalysisView,
                ErrorView,
            >(found@),
            Err(e) => analysis_of(ids_of(crate::seat::seat_views(seats@))) == Err::<
                AnalysisView,
                ErrorView,
            >(e@),
        },
{
    let mut ids = collect_ids(seats);
    let ghost unsorted = ids@;
    sort_ids(&mut ids);
    proof {
        lemma_map_preserves_multiset(ids@, unsorted, |id: u32| id as int);
        lemma_ascending_is_sort(as_ints(unsorted), as_ints(ids@));
        lemma_sort_is_ascending(as_ints(unsorted));
        assert(as_ints(ids@).len() == seats@.len());
        assert(no_seats_error() != no_gap_error()) by {
            reveal_strlit("no seats to analyze");
            reveal_strlit("no missing seat id found");
            assert(no_seats_error().message.len() != no_gap_error().message.len());
        }
    }
    analyze_sorted(&ids)
}

} // verus!
