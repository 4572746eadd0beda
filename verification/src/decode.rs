//! The decoder: from the letters of a seat code to a seat id.

use vstd::prelude::*;
use vstd::arithmetic::power2::{lemma2_to64, lemma_pow2_unfold, pow2};
use vstd::bits::lemma_u32_shl_is_mul;
use crate::decimal::{append_decimal, decimal};
use crate::error::{Error, ErrorKind, ErrorView};

verus! {

/// The number of letters that a seat code can hold.
pub const CODE_LENGTH: u32 = 10;

/// The largest seat id.
pub const MAX_SEAT_ID: u32 = 1023;

/// `c` selects the lower half: the bit at its position stays unset.
pub open spec fn selects_lower(c: char) -> bool {
    c == 'F' || c == 'L'
}

/// `c` selects the upper half: the bit at its position is set.
pub open spec fn selects_upper(c: char) -> bool {
    c == 'B' || c == 'R'
}

/// `c` belongs to the alphabet of seat codes.
pub open spec fn is_legal(c: char) -> bool {
    selects_lower(c) || selects_upper(c)
}

/// The value of the bit that the letter at position `i` decides: the first
/// letter decides the most significant of ten bits.
pub open spec fn weight(i: int) -> nat {
    pow2((9 - i) as nat)
}

/// What the first `n` letters of `code` contribute to its id.
pub open spec fn id_of_prefix(code: Seq<char>, n: nat) -> nat
    decreases n,
{
    if n == 0 {
        0
    } else {
        id_of_prefix(code, (n - 1) as nat) + if selects_upper(code[n - 1]) {
            weight(n - 1)
        } else {
            0
        }
    }
}

/// The id that `code` denotes: the sum of the weights of the positions that
/// hold an upper-half letter.
pub open spec fn seat_id(code: Seq<char>) -> nat {
    id_of_prefix(code, code.len())
}

/// `code` can be decoded: it has at most ten letters, all of the alphabet.
pub open spec fn well_formed(code: Seq<char>) -> bool {
    &&& code.len() <= CODE_LENGTH
    &&& forall|i: int| 0 <= i < code.len() ==> is_legal(#[trigger] code[i])
}

/// Position `i` of `code` stops the decoder: it lies beyond the ten bits, or
/// holds a letter outside the alphabet.
pub open spec fn is_fault(code: Seq<char>, i: int) -> bool {
    i >= CODE_LENGTH || !is_legal(code[i])
}

/// The first position at or after `start` that stops the decoder, if any.
pub open spec fn first_fault(code: Seq<char>, start: int) -> Option<int>
    decreases code.len() - start,
{
    if start < 0 || start >= code.len() {
        None
    } else if is_fault(code, start) {
        Some(start)
    } else {
        first_fault(code, start + 1)
    }
}

/// The error that reports a code with more than ten letters.
pub open spec fn too_long_error() -> ErrorView {
    ErrorView { kind: ErrorKind::Decode, message: "code is longer than 10 characters"@ }
}

/// The error that reports the letter `c`, which is outside the alphabet.
pub open spec fn illegal_character_error(c: char) -> ErrorView {
    ErrorView { kind: ErrorKind::Decode, message: seq![c] + " is an illegal character"@ }
}

/// The error that reports `id`, which is larger than any seat id.
pub open spec fn id_too_high_error(id: nat) -> ErrorView {
    ErrorView { kind: ErrorKind::Decode, message: "id "@ + decimal(id) + " is too high"@ }
}

/// The error with which the decoder stops at position `i` of `code`.
pub open spec fn fault_error(code: Seq<char>, i: int) -> ErrorView {
    if i >= CODE_LENGTH {
        too_long_error()
    } else {
        illegal_character_error(code[i])
    }
}

/// The outcome of decoding `code`: its id, or the error of the first position
/// that stops the decoder.
pub open spec fn decoded(code: Seq<char>) -> Result<nat, ErrorView> {
    match first_fault(code, 0) {
        None => Ok(seat_id(code)),
        Some(i) => Err(fault_error(code, i)),
    }
}

/// The low `k` bits of `id` are all unset.
spec fn low_bits_clear(id: u32, k: u32) -> bool {
    (id >> k) << k == id
}

proof fn lemma_keep_bit(id: u32, s: u32, k: u32)
    by (bit_vector)
    requires
        s < 10,
        k == s + 1,
        (id >> k) << k == id,
    ensures
        (id >> s) << s == id,
{
}

proof fn lemma_set_bit(id: u32, s: u32, k: u32)
    by (bit_vector)
    requires
        s < 10,
        k == s + 1,
        id < 1024,
        (id >> k) << k == id,
    ensures
        id | (1u32 << s) == id + (1u32 << s),
        (id | (1u32 << s)) < 1024,
        ((id | (1u32 << s)) >> s) << s == id | (1u32 << s),
{
}

proof fn lemma_weight_is_shift(i: u32)
    requires
        i < 10,
    ensures
        (1u32 << ((9 - i) as u32)) == weight(i as int),
{
    lemma2_to64();
    lemma_u32_shl_is_mul(1u32, (9 - i) as u32);
}

/// No position before `upto` stops the decoder, so the first one that does
/// is the first at or after `upto`.
proof fn lemma_first_fault_skips(code: Seq<char>, start: int, upto: int)
    requires
        0 <= start <= upto <= code.len(),
        forall|j: int| start <= j < upto ==> !is_fault(code, j),
    ensures
        first_fault(code, start) == first_fault(code, upto),
    decreases upto - start,
{
    if start < upto {
        lemma_first_fault_skips(code, start + 1, upto);
    }
}

/// A code can be decoded exactly when no position stops the decoder.
pub proof fn lemma_well_formed_iff_no_fault(code: Seq<char>)
    ensures
        well_formed(code) <==> first_fault(code, 0) is None,
        first_fault(code, 0) matches Some(i) ==> (0 <= i < code.len() && is_fault(code, i)
            && forall|j: int| 0 <= j < i ==> !is_fault(code, j)),
{
    lemma_first_fault_found(code, 0);
    if first_fault(code, 0) is None {
        assert(code.len() > 10 ==> is_fault(code, 10));
        assert forall|i: int| 0 <= i < code.len() implies is_legal(#[trigger] code[i]) by {
            assert(!is_fault(code, i));
        }
    }
    if well_formed(code) {
        assert forall|j: int| 0 <= j < code.len() implies !is_fault(code, j) by {
            assert(is_legal(code[j]));
        }
    }
}

proof fn lemma_first_fault_found(code: Seq<char>, start: int)
    requires
        0 <= start,
    ensures
        first_fault(code, start) is None <==> forall|j: int|
            start <= j < code.len() ==> !is_fault(code, j),
        first_fault(code, start) matches Some(i) ==> (start <= i < code.len() && is_fault(code, i)
            && forall|j: int| start <= j < i ==> !is_fault(code, j)),
    decreases code.len() - start,
{
    if start < code.len() && !is_fault(code, start) {
        lemma_first_fault_found(code, start + 1);
    }
}

fn illegal_character(c: char) -> (e: Error)
    ensures
        e@ == illegal_character_error(c),
{
    let mut message = String::new();
    message.push(c);
    message.append(" is an illegal character");
    proof {
        assert(message@ =~= seq![c] + " is an illegal character"@);
    }
    Error::new(ErrorKind::Decode, message)
}

fn too_long() -> (e: Error)
    ensures
        e@ == too_long_error(),
{
    Error::new(ErrorKind::Decode, String::from_str("code is longer than 10 characters"))
}

/// Decodes `code` into the id it denotes.
///
/// The letters are read from the left. The letter at position `i` decides the
/// bit of weight `2^(9 - i)`: `F` and `L` leave it unset, `B` and `R` set it.
/// Decoding stops with an error at the first position that lies beyond the
/// ten bits or holds any other letter.
pub fn to_id(code: &str) -> (r: Result<u32, Error>)
    ensures
        r is Ok <==> well_formed(code@),
        match r {
            Ok(id) => id <= MAX_SEAT_ID && decoded(code@) == Ok::<nat, ErrorView>(id as nat),
            Err(e) => e.kind == ErrorKind::Decode && decoded(code@) == Err::<nat, ErrorView>(e@),
        },
{
    let n = code.unicode_len();
    let mut id: u32 = 0;
    let mut i: u32 = 0;
    proof {
        assert((0u32 >> 10u32) << 10u32 == 0u32) by (bit_vector);
        lemma_well_formed_iff_no_fault(code@);
    }
    while (i as usize) < n
        invariant
            n == code@.len(),
            i <= 10,
            i <= n,
            id < 1024,
            id == id_of_prefix(code@, i as nat),
            low_bits_clear(id, (10 - i) as u32),
            forall|j: int| 0 <= j < i ==> !is_fault(code@, j),
        decreases n - i,
    {
        proof {
            lemma_first_fault_skips(code@, 0, i as int);
        }
        if i >= CODE_LENGTH {
            return Err(too_long());
        }
        let c = code.get_char(i as usize);
        let shift: u32 = 9 - i;
        let mask: u32 = 1u32 << shift;
        proof {
            lemma_weight_is_shift(i);
        }
        if c == 'F' || c == 'L' {
            proof {
                lemma_keep_bit(id, shift, (10 - i) as u32);
            }
        } else if c == 'B' || c == 'R' {
            proof {
                lemma_set_bit(id, shift, (10 - i) as u32);
            }
            id = id | mask;
        } else {
            return Err(illegal_character(c));
        }
        i = i + 1;
    }
    proof {
        lemma_first_fault_skips(code@, 0, i as int);
    }
    Ok(id)
}

/// Every code that can be decoded is decoded to the id it denotes, and that
/// id has at most ten bits.
pub proof fn lemma_seat_id_in_range(code: Seq<char>)
    requires
        well_formed(code),
    ensures
        decoded(code) == Ok::<nat, ErrorView>(seat_id(code)),
        seat_id(code) <= MAX_SEAT_ID,
{
    lemma_well_formed_iff_no_fault(code);
    lemma_prefix_bound(code, code.len());
    lemma2_to64();
}

/// A code that holds a letter outside the alphabet is rejected with a decode
/// error, wherever the letter stands.
pub proof fn lemma_illegal_character_is_rejected(code: Seq<char>, i: int)
    requires
        0 <= i < code.len(),
        !is_legal(code[i]),
    ensures
        decoded(code) matches Err(e) && e.kind == ErrorKind::Decode,
{
    lemma_well_formed_iff_no_fault(code);
}

proof fn lemma_prefix_bound(code: Seq<char>, n: nat)
    requires
        n <= 10,
    ensures
        id_of_prefix(code, n) + pow2((10 - n) as nat) <= 1024,
    decreases n,
{
    lemma2_to64();
    if n > 0 {
        lemma_prefix_bound(code, (n - 1) as nat);
        lemma_pow2_unfold((11 - n) as nat);
    }
}

/// Accepts `id` if it is a seat id, and reports it otherwise.
pub fn check_id(id: u32) -> (r: Result<u32, Error>)
    ensures
        id <= MAX_SEAT_ID ==> r == Ok::<u32, Error>(id),
        id > MAX_SEAT_ID ==> (r matches Err(e) && e@ == id_too_high_error(id as nat)),
{
    if id <= MAX_SEAT_ID {
        Ok(id)
    } else {
        let mut message = String::from_str("id ");
        append_decimal(&mut message, id);
        message.append(" is too high");
        Err(Error::new(ErrorKind::Decode, message))
    }
}

} // verus!
