//! Reading numbers and booleans written in text, as Rust's `str::parse`
//! and `from_str_radix` read them.
use crate::text::chars_of;
use vstd::prelude::*;

verus! {

/// The value of a digit character in base `radix` (10 or 16), if it is one.
pub open spec fn digit_value(c: char, radix: nat) -> Option<nat> {
    if '0' <= c && c <= '9' && (c as nat) - ('0' as nat) < radix {
        Some(((c as nat) - ('0' as nat)) as nat)
    } else if radix == 16 && 'a' <= c && c <= 'f' {
        Some(((c as nat) - ('a' as nat) + 10) as nat)
    } else if radix == 16 && 'A' <= c && c <= 'F' {
        Some(((c as nat) - ('A' as nat) + 10) as nat)
    } else {
        None
    }
}

/// The number written by the digits `s` in base `radix`, if all are digits.
pub open spec fn digits_value(s: Seq<char>, radix: nat) -> Option<nat>
    decreases s.len(),
{
    if s.len() == 0 {
        Some(0)
    } else {
        match (digits_value(s.drop_last(), radix), digit_value(s.last(), radix)) {
            (Some(v), Some(d)) => Some(v * radix + d),
            _ => None,
        }
    }
}

/// The unsigned number `s` writes in base `radix`, with an optional leading
/// '+', at least one digit, and no more than `max`.
pub open spec fn unsigned_value(s: Seq<char>, radix: nat, max: nat) -> Option<nat> {
    let body = if s.len() > 0 && s[0] == '+' { s.drop_first() } else { s };
    if body.len() == 0 {
        None
    } else {
        match digits_value(body, radix) {
            Some(v) => if v <= max { Some(v) } else { None },
            None => None,
        }
    }
}

fn char_digit(c: char, radix: u32) -> (r: Option<u32>)
    requires
        radix == 10 || radix == 16,
    ensures
        r matches Some(d) ==> digit_value(c, radix as nat) == Some(d as nat),
        r is None ==> digit_value(c, radix as nat) is None,
{
    let n = c as u32;
    if '0' <= c && c <= '9' && n - 48 < radix {
        Some(n - 48)
    } else if radix == 16 && 'a' <= c && c <= 'f' {
        Some(n - 97 + 10)
    } else if radix == 16 && 'A' <= c && c <= 'F' {
        Some(n - 65 + 10)
    } else {
        None
    }
}

/// Reads an unsigned number in base 10 or 16 that is at most `max`.
pub fn parse_unsigned(s: &str, radix: u32, max: u64) -> (r: Option<u64>)
    requires
        radix == 10 || radix == 16,
    ensures
        r matches Some(v) ==> unsigned_value(s@, radix as nat, max as nat) == Some(v as nat),
        r is None ==> unsigned_value(s@, radix as nat, max as nat) is None,
{
    let cs = chars_of(s);
    let start: usize = if cs.len() > 0 && cs[0] == '+' { 1 } else { 0 };
    let ghost body = if s@.len() > 0 && s@[0] == '+' { s@.drop_first() } else { s@ };
    assert(body =~= cs@.subrange(start as int, cs@.len() as int));
    if start == cs.len() {
        return None;
    }
    let mut v: u64 = 0;
    let mut i = start;
    while i < cs.len()
        invariant
            start <= i <= cs@.len(),
            cs@ == s@,
            radix == 10 || radix == 16,
            body == cs@.subrange(start as int, cs@.len() as int),
            body == (if s@.len() > 0 && s@[0] == '+' { s@.drop_first() } else { s@ }),
            digits_value(cs@.subrange(start as int, i as int), radix as nat) == Some(v as nat),
            v <= max,
        decreases cs@.len() - i,
    {
        let ghost pre = cs@.subrange(start as int, i as int);
        let ghost next = cs@.subrange(start as int, i + 1);
        assert(next.drop_last() =~= pre);
        assert(next =~= body.subrange(0, next.len() as int));
        assert(next.last() == cs@[i as int]);
        match char_digit(cs[i], radix) {
            None => {
                proof {
                    lemma_digits_prefix_none(body, next, radix as nat);
                }
                return None;
            },
            Some(d) => {
                let big = (v as u128) * (radix as u128) + (d as u128);
                if big > max as u128 {
                    proof {
                        lemma_digits_prefix_grows(body, next, radix as nat);
                    }
                    return None;
                }
                v = big as u64;
            },
        }
        i += 1;
    }
    assert(cs@.subrange(start as int, cs@.len() as int) == body);
    assert(digits_value(body, radix as nat) == Some(v as nat));
    assert(body.len() > 0);
    Some(v)
}

/// A prefix that is not all digits keeps the whole from being all digits.
proof fn lemma_digits_prefix_none(s: Seq<char>, p: Seq<char>, radix: nat)
    requires
        p.len() <= s.len(),
        p == s.subrange(0, p.len() as int),
        digits_value(p, radix) is None,
    ensures
        digits_value(s, radix) is None,
    decreases s.len(),
{
    if s.len() > p.len() {
        assert(p =~= s.drop_last().subrange(0, p.len() as int));
        lemma_digits_prefix_none(s.drop_last(), p, radix);
    } else {
        assert(s =~= p);
    }
}

/// A whole number is at least its prefix's value, when digits go on.
proof fn lemma_digits_prefix_grows(s: Seq<char>, p: Seq<char>, radix: nat)
    requires
        radix >= 1,
        p.len() <= s.len(),
        p == s.subrange(0, p.len() as int),
        digits_value(p, radix) is Some,
    ensures
        digits_value(s, radix) matches Some(w) ==> w >= digits_value(p, radix).unwrap(),
    decreases s.len(),
{
    if s.len() > p.len() {
        assert(p =~= s.drop_last().subrange(0, p.len() as int));
        lemma_digits_prefix_grows(s.drop_last(), p, radix);
        if let (Some(w0), Some(d)) = (digits_value(s.drop_last(), radix), digit_value(s.last(), radix)) {
            assert(w0 * radix + d >= w0) by (nonlinear_arith)
                requires
                    radix >= 1,
                    d >= 0,
                    w0 >= 0,
            ;
        }
    } else {
        assert(s =~= p);
    }
}

/// The boolean `s` writes: exactly "true" or "false".
pub open spec fn bool_value(s: Seq<char>) -> Option<bool> {
    if s == "true"@ {
        Some(true)
    } else if s == "false"@ {
        Some(false)
    } else {
        None
    }
}

/// Reads a boolean as `str::parse::<bool>` does.
pub fn parse_bool(s: &str) -> (r: Option<bool>)
    ensures
        r == bool_value(s@),
{
    let t = crate::text::owned(s);
    if t == crate::text::owned("true") {
        Some(true)
    } else if t == crate::text::owned("false") {
        Some(false)
    } else {
        None
    }
}

/// The signed number `s` writes in base 10, with an optional sign, within
/// `i32`.
pub open spec fn i32_value(s: Seq<char>) -> Option<int> {
    if s.len() > 0 && s[0] == '-' {
        let body = s.drop_first();
        if body.len() == 0 {
            None
        } else {
            match digits_value(body, 10) {
                Some(v) => if v <= 0x8000_0000 { Some(-v) } else { None },
                None => None,
            }
        }
    } else {
        match unsigned_value(s, 10, 0x7fff_ffff) {
            Some(v) => Some(v as int),
            None => None,
        }
    }
}

/// Reads an `i32` as `str::parse::<i32>` does.
pub fn parse_i32(s: &str) -> (r: Option<i32>)
    ensures
        r matches Some(v) ==> i32_value(s@) == Some(v as int),
        r is None ==> i32_value(s@) is None,
{
    let cs = chars_of(s);
    if cs.len() > 0 && cs[0] == '-' {
        let rest = crate::text::string_of(cs.as_slice(), 1, cs.len());
        assert(rest@ =~= s@.drop_first());
        if cs.len() == 1 {
            return None;
        }
        if cs[1] == '+' {
            assert(digits_value(rest@, 10) is None) by {
                lemma_digits_prefix_none(rest@, rest@.subrange(0, 1), 10);
                assert(digits_value(rest@.subrange(0, 1), 10) is None) by {
                    assert(rest@.subrange(0, 1).drop_last() =~= Seq::<char>::empty());
                }
            }
            return None;
        }
        match parse_unsigned(rest.as_str(), 10, 0x8000_0000) {
            Some(v) => {
                if v == 0x8000_0000 {
                    Some(i32::MIN)
                } else {
                    Some(-(v as i32))
                }
            },
            None => None,
        }
    } else {
        match parse_unsigned(s, 10, 0x7fff_ffff) {
            Some(v) => Some(v as i32),
            None => None,
        }
    }
}

} // verus!
