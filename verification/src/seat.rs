//! Seats: a seat id together with the code it was decoded from.

use std::cmp::Ordering;
use vstd::prelude::*;
use vstd::std_specs::cmp::{PartialEqSpecImpl, PartialOrdSpecImpl};
use crate::decode::{check_id, decoded, seat_id, to_id, well_formed};
use crate::error::{Error, ErrorKind, ErrorView};

verus! {

/// A seat: the id and the code that denotes it. A seat is made by decoding
/// its code and never changes afterwards.
#[derive(Debug, Eq)]
pub struct Seat {
    id: u32,
    code: String,
}

/// The mathematical content of a [`Seat`].
pub struct SeatView {
    pub id: nat,
    pub code: Seq<char>,
}

impl View for Seat {
    type V = SeatView;

    closed spec fn view(&self) -> SeatView {
        SeatView { id: self.id as nat, code: self.code@ }
    }
}

/// The seat that `code` denotes, or the error that decoding it gives.
pub open spec fn seat_of(code: Seq<char>) -> Result<SeatView, ErrorView> {
    match decoded(code) {
        Ok(id) => Ok(SeatView { id, code }),
        Err(e) => Err(e),
    }
}

impl Seat {
    /// Every seat holds a code that can be decoded, and the id of that code.
    #[verifier::type_invariant]
    spec fn valid(&self) -> bool {
        &&& well_formed(self.code@)
        &&& self.id == seat_id(self.code@)
    }

    /// Decodes `code` and pairs it with its id.
    pub fn new_for_code(code: String) -> (r: Result<Seat, Error>)
        ensures
            r is Ok <==> well_formed(code@),
            match r {
                Ok(seat) => seat_of(code@) == Ok::<SeatView, ErrorView>(seat@),
                Err(e) => e.kind == ErrorKind::Decode && seat_of(code@) == Err::<
                    SeatView,
                    ErrorView,
                >(e@),
            },
    {
        let id = match to_id(code.as_str()) {
            Ok(id) => id,
            Err(e) => {
                return Err(e);
            },
        };
        match check_id(id) {
            Ok(id) => Ok(Seat { id, code }),
            Err(e) => Err(e),
        }
    }

    /// The id of this seat.
    pub fn id(&self) -> (id: u32)
        ensures
            id == self@.id,
            id == seat_id(self@.code),
            id <= crate::decode::MAX_SEAT_ID,
    {
        proof {
            use_type_invariant(self);
            crate::decode::lemma_seat_id_in_range(self.code@);
        }
        self.id
    }

    /// The code this seat was decoded from.
    pub fn code(&self) -> (code: &str)
        ensures
            code@ == self@.code,
            well_formed(code@),
    {
        proof {
            use_type_invariant(self);
        }
        self.code.as_str()
    }
}

impl PartialEq for Seat {
    fn eq(&self, other: &Seat) -> (r: bool) {
        self.id == other.id && self.code == other.code
    }
}

impl PartialEqSpecImpl for Seat {
    open spec fn obeys_eq_spec() -> bool {
        true
    }

    /// Two seats are equal when they agree in id and code.
    open spec fn eq_spec(&self, other: &Seat) -> bool {
        self@ == other@
    }
}

impl PartialOrd for Seat {
    fn partial_cmp(&self, other: &Seat) -> (r: Option<Ordering>) {
        if self.id < other.id {
            Some(Ordering::Less)
        } else if self.id == other.id {
            Some(Ordering::Equal)
        } else {
            Some(Ordering::Greater)
        }
    }
}

impl PartialOrdSpecImpl for Seat {
    open spec fn obeys_partial_cmp_spec() -> bool {
        true
    }

    /// Seats are ordered by their ids alone; the codes are not compared.
    open spec fn partial_cmp_spec(&self, other: &Seat) -> Option<Ordering> {
        if self@.id < other@.id {
            Some(Ordering::Less)
        } else if self@.id == other@.id {
            Some(Ordering::Equal)
        } else {
            Some(Ordering::Greater)
        }
    }
}

/// The error that reports a line that could not be read, for the reason
/// given.
pub open spec fn bad_line_error(reason: Seq<char>) -> ErrorView {
    ErrorView { kind: ErrorKind::Io, message: "bad line: "@ + reason }
}

/// The mathematical content of a line as a reader hands it on: the letters of
/// its text, or the letters of the reason why it could not be read.
pub open spec fn line_view(line: Result<String, String>) -> Result<Seq<char>, Seq<char>> {
    match line {
        Ok(text) => Ok(text@),
        Err(reason) => Err(reason@),
    }
}

/// The views of `lines`, in order.
pub open spec fn line_views(lines: Seq<Result<String, String>>) -> Seq<
    Result<Seq<char>, Seq<char>>,
> {
    lines.map_values(|line: Result<String, String>| line_view(line))
}

/// What one line of input gives: the seat that its text denotes, or an error.
pub open spec fn line_outcome(line: Result<Seq<char>, Seq<char>>) -> Result<SeatView, ErrorView> {
    match line {
        Ok(code) => seat_of(code),
        Err(reason) => Err(bad_line_error(reason)),
    }
}

/// What the lines of an input give, taken in order: the seats of all of them,
/// or the error of the first line that gives one.
pub open spec fn seats_of_lines(lines: Seq<Result<Seq<char>, Seq<char>>>) -> Result<
    Seq<SeatView>,
    ErrorView,
>
    decreases lines.len(),
{
    if lines.len() == 0 {
        Ok(Seq::empty())
    } else {
        match seats_of_lines(lines.drop_last()) {
            Err(e) => Err(e),
            Ok(seats) => match line_outcome(lines.last()) {
                Ok(seat) => Ok(seats.push(seat)),
                Err(e) => Err(e),
            },
        }
    }
}

/// The views of `seats`, in order.
pub open spec fn seat_views(seats: Seq<Seat>) -> Seq<SeatView> {
    seats.map_values(|seat: Seat| seat@)
}

/// The lines give seats exactly when each of them does, and then one seat
/// for each line, in order. Otherwise they give the error of the first line
/// that gives one.
pub proof fn lemma_seats_of_lines(lines: Seq<Result<Seq<char>, Seq<char>>>)
    ensures
        seats_of_lines(lines) is Ok <==> forall|i: int|
            0 <= i < lines.len() ==> line_outcome(#[trigger] lines[i]) is Ok,
        seats_of_lines(lines) matches Ok(seats) ==> {
            &&& seats.len() == lines.len()
            &&& forall|i: int|
                0 <= i < lines.len() ==> line_outcome(#[trigger] lines[i]) == Ok::<
                    SeatView,
                    ErrorView,
                >(seats[i])
        },
        seats_of_lines(lines) matches Err(e) ==> exists|k: int|
            {
                &&& 0 <= k < lines.len()
                &&& line_outcome(#[trigger] lines[k]) == Err::<SeatView, ErrorView>(e)
                &&& forall|j: int| 0 <= j < k ==> line_outcome(#[trigger] lines[j]) is Ok
            },
    decreases lines.len(),
{
    if lines.len() > 0 {
        let front = lines.drop_last();
        lemma_seats_of_lines(front);
        assert(forall|i: int| 0 <= i < front.len() ==> front[i] == lines[i]);
        match seats_of_lines(front) {
            Err(e) => {
                let k = choose|k: int|
                    {
                        &&& 0 <= k < front.len()
                        &&& line_outcome(#[trigger] front[k]) == Err::<SeatView, ErrorView>(e)
                        &&& forall|j: int| 0 <= j < k ==> line_outcome(#[trigger] front[j]) is Ok
                    };
                assert(line_outcome(lines[k]) == Err::<SeatView, ErrorView>(e));
                assert forall|j: int| 0 <= j < k implies line_outcome(#[trigger] lines[j]) is Ok by {
                    assert(line_outcome(front[j]) is Ok);
                }
            },
            Ok(seats) => {
                let k = lines.len() - 1;
                assert(lines[k] == lines.last());
                assert forall|j: int| 0 <= j < k implies line_outcome(#[trigger] lines[j]) is Ok by {
                    assert(line_outcome(front[j]) is Ok);
                }
                match line_outcome(lines.last()) {
                    Ok(seat) => {
                        assert forall|i: int| 0 <= i < lines.len() implies line_outcome(
                            #[trigger] lines[i],
                        ) == Ok::<SeatView, ErrorView>(seats.push(seat)[i]) by {
                            if i < k {
                                assert(line_outcome(front[i]) == Ok::<SeatView, ErrorView>(
                                    seats[i],
                                ));
                            }
                        }
                    },
                    Err(e) => {
                        assert(line_outcome(lines[k]) is Err);
                    },
                }
            },
        }
    }
}

fn bad_line(reason: &str) -> (e: Error)
    ensures
        e@ == bad_line_error(reason@),
{
    let mut message = String::from_str("bad line: ");
    message.append(reason);
    Error::new(ErrorKind::Io, message)
}

/// Decodes the lines of an input, in order, into seats.
///
/// Each entry of `lines` is the text of a line, or the reason why the line
/// could not be read. The first line that could not be read or decoded ends
/// the run with its error: either every line becomes a seat, or none does.
pub fn read_seats(lines: Vec<Result<String, String>>) -> (r: Result<Vec<Seat>, Error>)
    ensures
        r is Ok <==> forall|i: int|
            0 <= i < lines@.len() ==> line_outcome(#[trigger] line_views(lines@)[i]) is Ok,
        r matches Ok(seats) ==> seats@.len() == lines@.len(),
        match r {
            Ok(seats) => seats_of_lines(line_views(lines@)) == Ok::<Seq<SeatView>, ErrorView>(
                seat_views(seats@),
            ),
            Err(e) => seats_of_lines(line_views(lines@)) == Err::<Seq<SeatView>, ErrorView>(e@),
        },
{
    let ghost views = line_views(lines@);
    let mut seats: Vec<Seat> = Vec::new();
    proof {
        assert(seat_views(seats@) =~= Seq::<SeatView>::empty());
        lemma_seats_of_lines(views);
    }
    for line in it: lines
        invariant
            views == line_views(lines@),
            seats_of_lines(views.take(it.index() as int)) == Ok::<Seq<SeatView>, ErrorView>(
                seat_views(seats@),
            ),
    {
        let ghost k = it.index() as int;
        let ghost before = seat_views(seats@);
        proof {
            assert(views.take(k + 1).drop_last() =~= views.take(k));
            assert(views.take(k + 1).last() == line_view(line));
        }
        let outcome = match line {
            Ok(code) => Seat::new_for_code(code),
            Err(reason) => Err(bad_line(reason.as_str())),
        };
        match outcome {
            Ok(seat) => {
                seats.push(seat);
                proof {
                    assert(seat_views(seats@) =~= before.push(seat@));
                }
            },
            Err(e) => {
                proof {
                    lemma_first_error_stays(views, k + 1);
                }
                return Err(e);
            },
        }
    }
    proof {
        assert(views.take(lines@.len() as int) =~= views);
    }
    Ok(seats)
}

/// Once the first `n` lines give an error, all the lines give that error.
proof fn lemma_first_error_stays(lines: Seq<Result<Seq<char>, Seq<char>>>, n: int)
    requires
        0 <= n <= lines.len(),
        seats_of_lines(lines.take(n)) is Err,
    ensures
        seats_of_lines(lines) == seats_of_lines(lines.take(n)),
    decreases lines.len() - n,
{
    if n < lines.len() {
        assert(lines.take(n + 1).drop_last() =~= lines.take(n));
        lemma_first_error_stays(lines, n + 1);
    } else {
        assert(lines.take(n) =~= lines);
    }
}

} // verus!
