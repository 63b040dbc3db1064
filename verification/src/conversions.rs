//! Small adapters between fallible and optional values, and a reading of
//! decimal text as a 32-bit integer.

use vstd::prelude::*;
use vstd::string::StrSliceExecFns;

use crate::tokenize::{frag_digits, frag_sign, is_literal_frag, literal_val, parse_literal};

verus! {

/// Whether text reads as a signed 32-bit decimal integer: an optional
/// sign, then at least one digit, with the signed value in `i32` range.
pub open spec fn is_i32_literal(s: Seq<char>) -> bool {
    &&& frag_digits(s).len() > 0
    &&& crate::tokenize::all_digits(frag_digits(s))
    &&& i32::MIN <= frag_sign(s) * crate::tokenize::digits_val(frag_digits(s)) <= i32::MAX
}

/// The characters of a borrowed string, one by one.
pub fn chars_of(s: &str) -> (v: Vec<char>)
    ensures
        v@ == s@,
{
    let n = s.unicode_len();
    let mut v: Vec<char> = Vec::new();
    let mut i: usize = 0;
    while i < n
        invariant
            i <= n,
            n == s@.len(),
            v@ == s@.take(i as int),
        decreases n - i,
    {
        v.push(s.get_char(i));
        proof {
            assert(s@.take(i as int).push(s@[i as int]) =~= s@.take(i + 1));
        }
        i = i + 1;
    }
    proof {
        assert(s@.take(n as int) =~= s@);
    }
    v
}

/// Reads a successful string result as a 32-bit integer: an error, or text
/// that is not an in-range decimal literal, becomes `None`.
pub fn result_string_to_option_i32<E>(res: Result<String, E>) -> (r: Option<i32>)
    ensures
        match res {
            Ok(s) => {
                &&& is_i32_literal(s@) ==> r == Some((frag_sign(s@) * crate::tokenize::digits_val(
                    frag_digits(s@),
                )) as i32)
                &&& !is_i32_literal(s@) ==> r is None
            },
            Err(_) => r is None,
        },
{
    let s = match res {
        Ok(s) => s,
        Err(_) => {
            return None;
        },
    };
    let chars = chars_of(s.as_str());
    match parse_literal(&chars) {
        Some(v) => {
            proof {
                assert(literal_val(s@) == frag_sign(s@) * crate::tokenize::digits_val(
                    frag_digits(s@),
                ));
            }
            if v >= -2147483648i64 && v <= 2147483647i64 {
                Some(v as i32)
            } else {
                None
            }
        },
        None => None,
    }
}

/// The values of three options, in order, skipping the absent ones.
pub fn options_to_iterator<T>(a: Option<T>, b: Option<T>, c: Option<T>) -> (r: Vec<T>)
    ensures
        r@ == (match a {
            Some(x) => seq![x],
            None => Seq::<T>::empty(),
        }) + (match b {
            Some(y) => seq![y],
            None => Seq::<T>::empty(),
        }) + (match c {
            Some(z) => seq![z],
            None => Seq::<T>::empty(),
        }),
{
    let mut r: Vec<T> = Vec::new();
    match a {
        Some(x) => r.push(x),
        None => {},
    }
    match b {
        Some(y) => r.push(y),
        None => {},
    }
    match c {
        Some(z) => r.push(z),
        None => {},
    }
    proof {
        assert(r@ =~= (match a {
            Some(x) => seq![x],
            None => Seq::<T>::empty(),
        }) + (match b {
            Some(y) => seq![y],
            None => Seq::<T>::empty(),
        }) + (match c {
            Some(z) => seq![z],
            None => Seq::<T>::empty(),
        }));
    }
    r
}

/// Unwraps the outer option, then swaps the result with the inner option:
/// a present value comes out as a present success, an absent inner value
/// as absence, and an error as a present error.
pub fn whatever<T, E>(val: Option<Result<Option<T>, E>>) -> (r: Option<Result<T, E>>)
    requires
        val is Some,
    ensures
        match val {
            Some(Ok(Some(x))) => r matches Some(rr) && rr matches Ok(y) && y == x,
            Some(Ok(None)) => r is None,
            Some(Err(e)) => r matches Some(rr) && rr matches Err(f) && f == e,
            None => true,
        },
{
    match val {
        Some(Ok(Some(x))) => Some(Ok(x)),
        Some(Ok(None)) => None,
        Some(Err(e)) => Some(Err(e)),
        None => {
            proof {
                assert(false);
            }
            None
        },
    }
}

/// Unwraps the outer option and hands the inner result through.
pub fn whatever2<T, E>(val: Option<Result<Option<T>, E>>) -> (r: Result<Option<T>, E>)
    requires
        val is Some,
    ensures
        Some(r) == val,
{
    match val {
        Some(inner) => inner,
        None => vstd::pervasive::unreached(),
    }
}

/// The value, if the whole nesting carries one; anything else is absence.
pub fn whatever3<T, E>(val: Option<Result<Option<T>, E>>) -> (r: Option<T>)
    ensures
        match val {
            Some(Ok(Some(x))) => r matches Some(y) && y == x,
            _ => r is None,
        },
{
    match val {
        Some(Ok(Some(x))) => Some(x),
        _ => None,
    }
}

} // verus!
