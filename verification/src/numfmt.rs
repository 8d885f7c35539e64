//! Rendering line counters: decimal digits, right-aligned in a
//! six-column field and followed by a tab.

use vstd::prelude::*;
use crate::lines::NL;
use crate::lines::push_all;

verus! {

/// Tab byte, separating a counter from its line.
pub const TAB: u8 = 9;
/// Space byte, padding short counters.
pub const SPACE: u8 = 32;
/// Minimum width of a printed counter field.
pub const COUNTER_WIDTH: usize = 6;

/// Decimal digits of `n`, most significant first.
pub open spec fn dec_digits(n: nat) -> Seq<u8>
    decreases n,
{
    if n < 10 {
        seq![(48 + n) as u8]
    } else {
        dec_digits(n / 10).push((48 + n % 10) as u8)
    }
}

/// Decimal digits are ASCII digit bytes, and there is at least one.
pub proof fn lemma_dec_digits_range(n: nat)
    ensures
        dec_digits(n).len() > 0,
        forall|i: int| 0 <= i < dec_digits(n).len() ==> 48 <= #[trigger] dec_digits(n)[i] <= 57,
    decreases n,
{
    if n >= 10 {
        lemma_dec_digits_range(n / 10);
    }
}

/// Digits padded on the left with spaces to the counter width; longer
/// runs of digits stay as they are.
pub open spec fn pad_counter(d: Seq<u8>) -> Seq<u8> {
    if d.len() >= COUNTER_WIDTH {
        d
    } else {
        Seq::new((COUNTER_WIDTH - d.len()) as nat, |i: int| SPACE) + d
    }
}

/// What stands before a numbered line: the padded counter, then a tab.
pub open spec fn counter_prefix(n: nat) -> Seq<u8> {
    pad_counter(dec_digits(n)) + seq![TAB]
}

/// A counter prefix is nonempty and never holds a line feed.
pub proof fn lemma_counter_prefix_no_nl(n: nat)
    ensures
        counter_prefix(n).len() > 0,
        forall|i: int| 0 <= i < counter_prefix(n).len() ==> #[trigger] counter_prefix(n)[i] != NL,
{
    lemma_dec_digits_range(n);
}

/// The decimal digits of `n`.
pub fn format_dec(n: usize) -> (r: Vec<u8>)
    ensures
        r@ == dec_digits(n as nat),
    decreases n,
{
    if n < 10 {
        let mut r: Vec<u8> = Vec::new();
        r.push(48 + n as u8);
        assert(r@ =~= dec_digits(n as nat));
        r
    } else {
        let mut r = format_dec(n / 10);
        r.push(48 + (n % 10) as u8);
        assert(r@ =~= dec_digits(n as nat));
        r
    }
}

/// The counter prefix for counter value `n`.
pub fn format_counter(n: usize) -> (r: Vec<u8>)
    ensures
        r@ == counter_prefix(n as nat),
{
    let digits = format_dec(n);
    let pad: usize = if digits.len() >= COUNTER_WIDTH {
        0
    } else {
        COUNTER_WIDTH - digits.len()
    };
    let mut r: Vec<u8> = Vec::new();
    let mut i: usize = 0;
    while i < pad
        invariant
            i <= pad,
            r@ =~= Seq::new(i as nat, |j: int| SPACE),
        decreases pad - i,
    {
        r.push(SPACE);
        assert(r@ =~= Seq::new(i as nat + 1, |j: int| SPACE));
        i = i + 1;
    }
    push_all(&mut r, &digits);
    r.push(TAB);
    assert(r@ =~= counter_prefix(n as nat));
    r
}

} // verus!
