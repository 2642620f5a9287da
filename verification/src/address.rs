//! Network addresses of cluster members, in `host:port` form.
//!
//! An address is kept as text. It is well formed when it ends in a colon
//! followed by a decimal port number that fits in sixteen bits, and something
//! stands before that colon. Turning the host part into a socket address is
//! left to whoever opens the connection.

use vstd::prelude::*;
use vstd::string::StrSliceExecFns;

verus! {

/// The largest port number an address may carry.
pub const MAX_PORT: u32 = 65535;

/// The largest number of digits a port may be written with.
pub const MAX_PORT_DIGITS: usize = 5;

/// Whether `c` is one of the ten decimal digits.
pub open spec fn is_digit(c: char) -> bool {
    '0' <= c && c <= '9'
}

/// The number that the digit `c` stands for.
pub open spec fn digit_value(c: char) -> nat
    recommends
        is_digit(c),
{
    (c as nat - '0' as nat) as nat
}

/// Whether every character of `s` is a decimal digit.
pub open spec fn all_digits(s: Seq<char>) -> bool {
    forall|i: int| 0 <= i < s.len() ==> is_digit(#[trigger] s[i])
}

/// The number that the digits of `s` denote, most significant digit first.
pub open spec fn decimal_value(s: Seq<char>) -> nat
    decreases s.len(),
{
    if s.len() == 0 {
        0
    } else {
        decimal_value(s.drop_last()) * 10 + digit_value(s.last())
    }
}

/// Whether `s` is a port number: one to five digits, at most `MAX_PORT`.
pub open spec fn is_port(s: Seq<char>) -> bool {
    &&& 1 <= s.len() <= MAX_PORT_DIGITS
    &&& all_digits(s)
    &&& decimal_value(s) <= MAX_PORT
}

/// Whether `s` divides at position `p` into a host that is not empty, a colon
/// and a port number.
pub open spec fn splits_at(s: Seq<char>, p: int) -> bool {
    &&& 0 < p < s.len()
    &&& s[p] == ':'
    &&& is_port(s.subrange(p + 1, s.len() as int))
}

/// Whether `s` is a well-formed `host:port` address.
pub open spec fn is_valid_address(s: Seq<char>) -> bool {
    exists|p: int| splits_at(s, p)
}

/// The position of the colon that parts host and port in a well-formed address.
pub open spec fn colon_position(s: Seq<char>) -> int
    recommends
        is_valid_address(s),
{
    choose|p: int| splits_at(s, p)
}

/// The port number of a well-formed address.
pub open spec fn address_port(s: Seq<char>) -> nat
    recommends
        is_valid_address(s),
{
    decimal_value(s.subrange(colon_position(s) + 1, s.len() as int))
}

/// An address divides into host and port in at most one way: the port holds
/// digits only, so the colon before it is the last one.
pub proof fn lemma_split_unique(s: Seq<char>, p: int, q: int)
    requires
        splits_at(s, p),
        splits_at(s, q),
    ensures
        p == q,
{
    if p < q {
        let tail = s.subrange(p + 1, s.len() as int);
        assert(is_digit(tail[q - p - 1]));
    } else if q < p {
        let tail = s.subrange(q + 1, s.len() as int);
        assert(is_digit(tail[p - q - 1]));
    }
}

/// A run of `n` digits denotes a number below `10^n`; stated for the lengths
/// that matter when reading a port.
proof fn lemma_decimal_bound(s: Seq<char>)
    requires
        all_digits(s),
        s.len() <= MAX_PORT_DIGITS,
    ensures
        decimal_value(s) <= 99999,
        s.len() <= 4 ==> decimal_value(s) <= 9999,
        s.len() <= 3 ==> decimal_value(s) <= 999,
        s.len() <= 2 ==> decimal_value(s) <= 99,
        s.len() <= 1 ==> decimal_value(s) <= 9,
        s.len() == 0 ==> decimal_value(s) == 0,
    decreases s.len(),
{
    if s.len() > 0 {
        let front = s.drop_last();
        assert(all_digits(front)) by {
            assert forall|i: int| 0 <= i < front.len() implies is_digit(#[trigger] front[i]) by {
                assert(front[i] == s[i]);
            }
        }
        lemma_decimal_bound(front);
        assert(is_digit(s.last()));
    }
}

/// Decides whether `c` is a decimal digit.
pub fn digit(c: char) -> (r: bool)
    ensures
        r == is_digit(c),
{
    '0' <= c && c <= '9'
}

/// Reads the port of a `host:port` address.
///
/// Returns the port exactly when the address is well formed, and nothing
/// otherwise.
pub fn parse_port(addr: &str) -> (r: Option<u16>)
    ensures
        r.is_some() == is_valid_address(addr@),
        r matches Some(port) ==> port as nat == address_port(addr@),
{
    let n: usize = addr.unicode_len();
    let ghost s = addr@;
    // Walk back over the digits at the end.
    let mut j: usize = n;
    while j > 0 && digit(addr.get_char(j - 1))
        invariant
            s == addr@,
            n == s.len(),
            j <= n,
            forall|i: int| j <= i < n ==> is_digit(#[trigger] s[i]),
        decreases j,
    {
        j = j - 1;
    }
    proof {
        // Wherever the address divides, it divides just before the digits found.
        assert forall|p: int| splits_at(s, p) implies p == j - 1 by {
            let tail = s.subrange(p + 1, s.len() as int);
            if p >= j {
                assert(is_digit(s[p]));
            } else if p < j - 1 {
                assert(is_digit(tail[j - 1 - (p + 1)]));
                assert(tail[j - 1 - (p + 1)] == s[j - 1]);
            }
        }
    }
    if j < 2 || n - j < 1 || n - j > MAX_PORT_DIGITS {
        return None;
    }
    if addr.get_char(j - 1) != ':' {
        return None;
    }
    let ghost tail = s.subrange(j as int, n as int);
    let mut value: u32 = 0;
    let mut k: usize = j;
    while k < n
        invariant
            s == addr@,
            n == s.len(),
            2 <= j <= k <= n,
            n - j <= MAX_PORT_DIGITS,
            tail == s.subrange(j as int, n as int),
            all_digits(tail),
            value as nat == decimal_value(tail.subrange(0, k - j)),
        decreases n - k,
    {
        let c: char = addr.get_char(k);
        proof {
            let read = tail.subrange(0, k - j);
            let next = tail.subrange(0, k + 1 - j);
            assert(next.drop_last() == read);
            assert(next.last() == c);
            assert(is_digit(tail[k - j]));
            assert(all_digits(read)) by {
                assert forall|i: int| 0 <= i < read.len() implies is_digit(#[trigger] read[i]) by {
                    assert(read[i] == tail[i]);
                }
            }
            lemma_decimal_bound(read);
        }
        value = value * 10 + (c as u32 - '0' as u32);
        k = k + 1;
    }
    assert(tail.subrange(0, n - j) == tail);
    if value > MAX_PORT {
        return None;
    }
    assert(splits_at(s, j - 1));
    proof {
        lemma_split_unique(s, j - 1, colon_position(s));
    }
    Some(value as u16)
}

/// Decides whether `addr` is a well-formed `host:port` address.
pub fn is_valid(addr: &str) -> (r: bool)
    ensures
        r == is_valid_address(addr@),
{
    parse_port(addr).is_some()
}

} // verus!
