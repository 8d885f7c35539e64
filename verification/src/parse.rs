//! Validating a textual count argument: a base-10 unsigned integer
//! that must be strictly positive.

use vstd::prelude::*;
use vstd::string::*;

verus! {

/// ASCII plus sign, accepted once in front of the digits.
pub const PLUS: u8 = 43;

/// Is `b` an ASCII decimal digit?
pub open spec fn is_dec_digit(b: u8) -> bool {
    48 <= b <= 57
}

/// The numeric value of a digit byte.
pub open spec fn digit_val(b: u8) -> nat {
    (b - 48) as nat
}

/// A nonempty run of decimal digits.
pub open spec fn digit_seq(s: Seq<u8>) -> bool {
    s.len() > 0 && forall|i: int| 0 <= i < s.len() ==> is_dec_digit(#[trigger] s[i])
}

/// The base-10 value of a digit run.
pub open spec fn dec_value(s: Seq<u8>) -> nat
    decreases s.len(),
{
    if s.len() == 0 {
        0
    } else {
        dec_value(s.drop_last()) * 10 + digit_val(s.last())
    }
}

/// The digits of a count argument: everything after one optional
/// leading plus sign.
pub open spec fn number_body(s: Seq<u8>) -> Seq<u8> {
    if s.len() > 0 && s[0] == PLUS {
        s.skip(1)
    } else {
        s
    }
}

/// A count argument is valid when its digits form a nonempty run whose
/// value is strictly positive and fits in `usize`.
pub open spec fn is_valid_count(s: Seq<u8>) -> bool {
    &&& digit_seq(number_body(s))
    &&& 0 < dec_value(number_body(s)) <= usize::MAX
}

/// The value of a digit run never falls below the value of any of its
/// prefixes.
pub proof fn lemma_dec_value_prefix(s: Seq<u8>, i: int)
    requires
        0 <= i <= s.len(),
    ensures
        dec_value(s.take(i)) <= dec_value(s),
    decreases s.len() - i,
{
    if i == s.len() {
        assert(s.take(i) =~= s);
    } else {
        assert(s.take(i + 1).drop_last() =~= s.take(i));
        assert(s.take(i + 1).last() == s[i]);
        assert(dec_value(s.take(i + 1)) == dec_value(s.take(i)) * 10 + digit_val(s[i]));
        lemma_dec_value_prefix(s, i + 1);
    }
}

/// Parse `val` as a strictly positive base-10 integer. Succeeds
/// exactly on the valid counts; on failure the offending text comes
/// back verbatim.
pub fn parse_positive_int(val: &str) -> (r: Result<usize, String>)
    ensures
        r is Ok <==> is_valid_count(val.spec_bytes()),
        r is Ok ==> r->Ok_0 as nat == dec_value(number_body(val.spec_bytes())),
        r is Err ==> r->Err_0@ == val@,
{
    let bytes = val.as_bytes();
    let n: usize = bytes.len();
    let ghost all = val.spec_bytes();
    let start: usize = if n > 0 && bytes[0] == PLUS {
        1
    } else {
        0
    };
    let ghost body = number_body(all);
    proof {
        assert(body =~= all.skip(start as int));
    }
    if start == n {
        assert(body.len() == 0);
        return Err(val.to_owned());
    }
    let mut acc: usize = 0;
    let mut i: usize = start;
    while i < n
        invariant
            start <= i <= n,
            start < n,
            n == all.len(),
            all == val.spec_bytes(),
            bytes@ == all,
            body == all.skip(start as int),
            body == number_body(all),
            forall|j: int| 0 <= j < i - start ==> is_dec_digit(#[trigger] body[j]),
            acc as nat == dec_value(body.take(i - start)),
        decreases n - i,
    {
        let b = bytes[i];
        assert(body[i - start] == all[i as int]);
        if b < 48 || b > 57 {
            assert(!digit_seq(body));
            return Err(val.to_owned());
        }
        let d: usize = (b - 48) as usize;
        proof {
            assert(body.take(i - start + 1).drop_last() =~= body.take(i - start));
            assert(body.take(i - start + 1).last() == body[i - start]);
            assert(dec_value(body.take(i - start + 1)) == acc as nat * 10 + d as nat);
        }
        if acc > usize::MAX / 10 || (acc == usize::MAX / 10 && d > usize::MAX % 10) {
            proof {
                assert(dec_value(body.take(i - start + 1)) > usize::MAX);
                if digit_seq(body) {
                    lemma_dec_value_prefix(body, i - start + 1);
                    assert(dec_value(body) > usize::MAX);
                }
            }
            return Err(val.to_owned());
        }
        acc = acc * 10 + d;
        i = i + 1;
    }
    proof {
        assert(body.take(n - start) =~= body);
    }
    if acc == 0 {
        return Err(val.to_owned());
    }
    Ok(acc)
}

} // verus!
