//! Character-level helpers shared by the codec and the dispatcher:
//! decimal rendering and parsing, ASCII lower-casing, and string equality.

use vstd::prelude::*;
use vstd::string::StrSliceExecFns;

verus! {

/// Relies on std's `String::push`: appends the given character at the end
/// of the string; vstd gives this method no specification of its own.
pub assume_specification[ String::push ](s: &mut String, ch: char)
    ensures
        final(s)@ == old(s)@.push(ch),
;

/// The decimal digit character for a value below ten.
pub open spec fn digit_char(d: nat) -> char {
    ((48 + d) as u8) as char
}

/// The decimal rendering of a natural number, most significant digit first,
/// with no sign and no leading zeros (except for zero itself).
pub open spec fn dec_of(n: nat) -> Seq<char>
    decreases n,
{
    if n < 10 {
        seq![digit_char(n)]
    } else {
        dec_of(n / 10).push(digit_char(n % 10))
    }
}

fn push_digit(out: &mut String, d: u8)
    requires
        d < 10,
    ensures
        final(out)@ == old(out)@.push(digit_char(d as nat)),
{
    let c: char = (48 + d) as char;
    proof {
        assert(c == digit_char(d as nat));
    }
    out.push(c);
}

/// Appends the decimal rendering of `n` to `out`.
pub fn push_u64_dec(out: &mut String, n: u64)
    ensures
        final(out)@ == old(out)@ + dec_of(n as nat),
    decreases n,
{
    if n < 10 {
        push_digit(out, n as u8);
        proof {
            assert(out@ =~= old(out)@ + dec_of(n as nat));
        }
    } else {
        push_u64_dec(out, n / 10);
        push_digit(out, (n % 10) as u8);
        proof {
            assert(out@ =~= old(out)@ + dec_of(n as nat));
        }
    }
}

/// Whether `c` is a decimal digit.
pub open spec fn is_digit(c: char) -> bool {
    '0' <= c && c <= '9'
}

/// The value of a decimal digit character.
pub open spec fn digit_val(c: char) -> nat {
    (c as int - 48) as nat
}

/// Whether every character of `s` is a decimal digit.
pub open spec fn all_digits(s: Seq<char>) -> bool {
    forall|i: int| 0 <= i < s.len() ==> is_digit(#[trigger] s[i])
}

/// The value of a digit sequence read as a decimal numeral.
pub open spec fn digits_val(s: Seq<char>) -> nat
    decreases s.len(),
{
    if s.len() == 0 {
        0
    } else {
        digits_val(s.drop_last()) * 10 + digit_val(s.last())
    }
}

/// The value denoted by `s` as an unsigned decimal numeral with an optional
/// leading `+`, or `None` where `s` is not of that shape.
pub open spec fn parsed_uint(s: Seq<char>) -> Option<int> {
    let ds = if s.len() > 0 && s[0] == '+' {
        s.drop_first()
    } else {
        s
    };
    if ds.len() == 0 || !all_digits(ds) {
        None
    } else {
        Some(digits_val(ds) as int)
    }
}

/// `parsed_uint` restricted to the range of `u128`.
pub open spec fn parsed_u128(s: Seq<char>) -> Option<int> {
    match parsed_uint(s) {
        Some(v) => if v <= u128::MAX {
            Some(v)
        } else {
            None
        },
        None => None,
    }
}

/// The ASCII lower-case image of a character; anything outside `A`..`Z`
/// is unchanged.
pub open spec fn lower_char(c: char) -> char {
    if 'A' <= c && c <= 'Z' {
        (((c as u8) + 32) as u8) as char
    } else {
        c
    }
}

/// The ASCII lower-case image of a character sequence.
pub open spec fn lower_seq(s: Seq<char>) -> Seq<char> {
    s.map_values(|c: char| lower_char(c))
}

/// Returns the ASCII lower-case copy of `s`.
pub fn to_lower(s: &str) -> (r: String)
    ensures
        r@ == lower_seq(s@),
{
    let n = s.unicode_len();
    let mut out = String::new();
    let mut i: usize = 0;
    while i < n
        invariant
            n == s@.len(),
            i <= n,
            out@ == lower_seq(s@.subrange(0, i as int)),
        decreases n - i,
    {
        let c = s.get_char(i);
        let u = c as u32;
        let lc: char = if 65 <= u && u <= 90 {
            ((c as u8) + 32) as char
        } else {
            c
        };
        proof {
            assert(lc == lower_char(c));
        }
        out.push(lc);
        proof {
            assert(lower_seq(s@.subrange(0, i + 1 as int)) =~= lower_seq(
                s@.subrange(0, i as int),
            ).push(lower_char(s@[i as int])));
        }
        i = i + 1;
    }
    proof {
        assert(s@.subrange(0, n as int) =~= s@);
    }
    out
}

/// Character-by-character string equality, decided without allocation.
pub fn str_eq(a: &str, b: &str) -> (r: bool)
    ensures
        r == (a@ == b@),
{
    let na = a.unicode_len();
    let nb = b.unicode_len();
    if na != nb {
        return false;
    }
    let mut i: usize = 0;
    while i < na
        invariant
            na == a@.len(),
            na == b@.len(),
            i <= na,
            forall|j: int| 0 <= j < i ==> a@[j] == b@[j],
        decreases na - i,
    {
        if a.get_char(i) != b.get_char(i) {
            return false;
        }
        i = i + 1;
    }
    proof {
        assert(a@ =~= b@);
    }
    true
}

/// Parses an unsigned decimal numeral (optional leading `+`) in the range
/// of `u128`, as a TTL argument requires.
pub fn parse_u128(s: &str) -> (r: Option<u128>)
    ensures
        match parsed_u128(s@) {
            Some(v) => r matches Some(x) && x as int == v,
            None => r is None,
        },
{
    let n = s.unicode_len();
    if n == 0 {
        return None;
    }
    let c0 = s.get_char(0);
    let skip: usize = if c0 == '+' {
        1
    } else {
        0
    };
    if n == skip {
        return None;
    }
    let ghost ds = if skip == 1 {
        s@.drop_first()
    } else {
        s@
    };
    let mut i: usize = skip;
    let mut acc: u128 = 0;
    let mut of = false;
    while i < n
        invariant
            skip <= i <= n,
            skip <= 1,
            n == s@.len(),
            n > skip,
            (skip == 1) == (s@[0] == '+'),
            ds == (if skip == 1 {
                s@.drop_first()
            } else {
                s@
            }),
            ds.len() == n - skip,
            forall|j: int| 0 <= j < i - skip ==> is_digit(#[trigger] ds[j]),
            !of ==> acc == digits_val(ds.subrange(0, i - skip as int)),
            of ==> digits_val(ds.subrange(0, i - skip as int)) > u128::MAX,
        decreases n - i,
    {
        let c = s.get_char(i);
        let u = c as u32;
        if u < 48 || u > 57 {
            proof {
                assert(ds[i - skip as int] == s@[i as int]);
                assert(!is_digit(ds[i - skip as int]));
            }
            return None;
        }
        let d = (u - 48) as u128;
        proof {
            assert(ds.subrange(0, i + 1 - skip as int).drop_last() =~= ds.subrange(
                0,
                i - skip as int,
            ));
            assert(ds[i - skip as int] == s@[i as int]);
            assert(digit_val(ds[i - skip as int]) == d as nat);
            assert(digits_val(ds.subrange(0, i + 1 - skip as int)) == digits_val(
                ds.subrange(0, i - skip as int),
            ) * 10 + digit_val(ds[i - skip as int]));
        }
        let ghost prev = digits_val(ds.subrange(0, i - skip as int));
        if of {
            proof {
                assert(prev * 10 + d as nat > u128::MAX) by (nonlinear_arith)
                    requires
                        prev > u128::MAX,
                        d >= 0,
                ;
            }
        } else if acc > (u128::MAX - d) / 10 {
            of = true;
            proof {
                assert(acc * 10 + d as nat > u128::MAX) by (nonlinear_arith)
                    requires
                        acc > (u128::MAX - d) / 10,
                        d < 10,
                ;
            }
        } else {
            proof {
                assert(acc * 10 + d <= u128::MAX) by (nonlinear_arith)
                    requires
                        acc <= (u128::MAX - d) / 10,
                        d < 10,
                ;
            }
            acc = acc * 10 + d;
        }
        i = i + 1;
    }
    proof {
        assert(ds.subrange(0, n - skip as int) =~= ds);
    }
    if of {
        None
    } else {
        Some(acc)
    }
}

} // verus!
