//! Names of snapshot and log files: `snapshot_` followed by the version as
//! sixteen lower-case hexadecimal digits and `.bin`; `wal_` followed by the
//! file number in decimal, at least four digits, and `.wal`.
use crate::numbers::{digit_value, digits_value, parse_unsigned, unsigned_value};
use crate::text::{chars_of, decimal_string, push_char, spec_decimal, string_of};
use vstd::arithmetic::div_mod::lemma_breakdown;
use vstd::prelude::*;

verus! {

/// The character of a digit in base 16 (or 10), lower case.
pub open spec fn digit_of(d: nat) -> char {
    if d < 10 {
        ((48 + d) as u32) as char
    } else {
        ((87 + d) as u32) as char
    }
}

/// The `w` last digits of `n` in base `radix`, leading zeros kept.
pub open spec fn fixed_digits(n: nat, w: nat, radix: nat) -> Seq<char>
    decreases w,
{
    if w == 0 {
        Seq::empty()
    } else {
        fixed_digits(n / radix, (w - 1) as nat, radix).push(digit_of(n % radix))
    }
}

/// `radix` to the power `w`.
pub open spec fn power(radix: nat, w: nat) -> nat
    decreases w,
{
    if w == 0 {
        1
    } else {
        radix * power(radix, (w - 1) as nat)
    }
}

pub open spec fn snapshot_prefix() -> Seq<char> {
    seq!['s', 'n', 'a', 'p', 's', 'h', 'o', 't', '_']
}

pub open spec fn snapshot_suffix() -> Seq<char> {
    seq!['.', 'b', 'i', 'n']
}

pub open spec fn wal_prefix() -> Seq<char> {
    seq!['w', 'a', 'l', '_']
}

pub open spec fn wal_suffix() -> Seq<char> {
    seq!['.', 'w', 'a', 'l']
}

/// The name of the snapshot file of `version`.
pub open spec fn snapshot_name(version: u64) -> Seq<char> {
    snapshot_prefix() + fixed_digits(version as nat, 16, 16) + snapshot_suffix()
}

/// The decimal digits of a log file number: four at least.
pub open spec fn wal_digits(id: u64) -> Seq<char> {
    if id < 10000 {
        fixed_digits(id as nat, 4, 10)
    } else {
        spec_decimal(id as nat)
    }
}

/// The name of log file number `id`.
pub open spec fn wal_name(id: u64) -> Seq<char> {
    wal_prefix() + wal_digits(id) + wal_suffix()
}

/// The text between `prefix` and `suffix` in `s`, if `s` has both.
pub open spec fn between(s: Seq<char>, prefix: Seq<char>, suffix: Seq<char>) -> Option<Seq<char>> {
    if s.len() >= prefix.len() + suffix.len() && s.take(prefix.len() as int) == prefix && s.skip(
        s.len() - suffix.len(),
    ) == suffix {
        Some(s.subrange(prefix.len() as int, s.len() - suffix.len()))
    } else {
        None
    }
}

/// The version a snapshot file name gives, if it is one.
pub open spec fn snapshot_version_of(s: Seq<char>) -> Option<nat> {
    match between(s, snapshot_prefix(), snapshot_suffix()) {
        Some(m) => unsigned_value(m, 16, u64::MAX as nat),
        None => None,
    }
}

/// The number a log file name gives, if it is one.
pub open spec fn wal_id_of(s: Seq<char>) -> Option<nat> {
    match between(s, wal_prefix(), wal_suffix()) {
        Some(m) => unsigned_value(m, 10, u64::MAX as nat),
        None => None,
    }
}

fn digit_char_of(d: u64) -> (c: char)
    requires
        d < 16,
    ensures
        c == digit_of(d as nat),
{
    if d < 10 {
        let code: u8 = 48u8 + (d as u8);
        let c = code as char;
        assert(c == digit_of(d as nat)) by {
            assert(code as u32 == 48 + d);
        }
        c
    } else {
        let code: u8 = 87u8 + (d as u8);
        let c = code as char;
        assert(c == digit_of(d as nat)) by {
            assert(code as u32 == 87 + d);
        }
        c
    }
}

/// The `w` last digits of `n` in base `radix`.
fn fixed_string(n: u64, w: usize, radix: u64) -> (s: String)
    requires
        radix == 10 || radix == 16,
    ensures
        s@ == fixed_digits(n as nat, w as nat, radix as nat),
    decreases w,
{
    if w == 0 {
        String::new()
    } else {
        let mut s = fixed_string(n / radix, w - 1, radix);
        push_char(&mut s, digit_char_of(n % radix));
        s
    }
}

fn append_chars(s: &mut String, cs: &[char])
    ensures
        final(s)@ == old(s)@ + cs@,
{
    let ghost s0 = s@;
    let mut i: usize = 0;
    while i < cs.len()
        invariant
            i <= cs@.len(),
            s@ == s0 + cs@.take(i as int),
        decreases cs@.len() - i,
    {
        push_char(s, cs[i]);
        i += 1;
        assert(s@ =~= s0 + cs@.take(i as int));
    }
    assert(cs@.take(cs@.len() as int) =~= cs@);
}

/// The name of the snapshot file of `version`.
pub fn snapshot_file_name(version: u64) -> (s: String)
    ensures
        s@ == snapshot_name(version),
{
    let mut s = String::new();
    append_chars(&mut s, &['s', 'n', 'a', 'p', 's', 'h', 'o', 't', '_']);
    let hex = fixed_string(version, 16, 16);
    let hc = chars_of(hex.as_str());
    append_chars(&mut s, hc.as_slice());
    append_chars(&mut s, &['.', 'b', 'i', 'n']);
    assert(s@ =~= snapshot_name(version));
    s
}

/// The name of log file number `id`.
pub fn wal_file_name(id: u64) -> (s: String)
    ensures
        s@ == wal_name(id),
{
    let mut s = String::new();
    append_chars(&mut s, &['w', 'a', 'l', '_']);
    let digits = if id < 10000 {
        fixed_string(id, 4, 10)
    } else {
        decimal_string(id)
    };
    let dc = chars_of(digits.as_str());
    append_chars(&mut s, dc.as_slice());
    append_chars(&mut s, &['.', 'w', 'a', 'l']);
    assert(s@ =~= wal_name(id));
    s
}

fn text_between(cs: &Vec<char>, prefix: &[char], suffix: &[char]) -> (r: Option<String>)
    ensures
        match between(cs@, prefix@, suffix@) {
            Some(m) => r matches Some(t) && t@ == m,
            None => r is None,
        },
{
    let n = cs.len();
    if n < prefix.len() || n - prefix.len() < suffix.len() {
        return None;
    }
    let mut i: usize = 0;
    while i < prefix.len()
        invariant
            i <= prefix@.len() <= n,
            n == cs@.len(),
            forall|k: int| 0 <= k < i ==> cs@[k] == prefix@[k],
        decreases prefix@.len() - i,
    {
        if cs[i] != prefix[i] {
            assert(cs@.take(prefix@.len() as int)[i as int] != prefix@[i as int]);
            return None;
        }
        i += 1;
    }
    assert(cs@.take(prefix@.len() as int) =~= prefix@);
    let start = n - suffix.len();
    let mut j: usize = 0;
    while j < suffix.len()
        invariant
            j <= suffix@.len(),
            start + suffix@.len() == n,
            n == cs@.len(),
            forall|k: int| 0 <= k < j ==> cs@[start + k] == suffix@[k],
        decreases suffix@.len() - j,
    {
        if cs[start + j] != suffix[j] {
            assert(cs@.skip(start as int)[j as int] != suffix@[j as int]);
            return None;
        }
        j += 1;
    }
    assert(cs@.skip(start as int) =~= suffix@);
    Some(string_of(cs.as_slice(), prefix.len(), start))
}

/// The version that a snapshot file name gives: `snapshot_`, a hexadecimal
/// number that fits in 64 bits, `.bin`.
pub fn parse_snapshot_file_name(name: &str) -> (r: Option<u64>)
    ensures
        match snapshot_version_of(name@) {
            Some(v) => r == Some(v as u64),
            None => r is None,
        },
{
    let cs = chars_of(name);
    match text_between(&cs, &['s', 'n', 'a', 'p', 's', 'h', 'o', 't', '_'], &['.', 'b', 'i', 'n']) {
        Some(m) => parse_unsigned(m.as_str(), 16, u64::MAX),
        None => None,
    }
}

/// The number that a log file name gives: `wal_`, a decimal number that
/// fits in 64 bits, `.wal`.
pub fn parse_wal_file_name(name: &str) -> (r: Option<u64>)
    ensures
        match wal_id_of(name@) {
            Some(v) => r == Some(v as u64),
            None => r is None,
        },
{
    let cs = chars_of(name);
    match text_between(&cs, &['w', 'a', 'l', '_'], &['.', 'w', 'a', 'l']) {
        Some(m) => parse_unsigned(m.as_str(), 10, u64::MAX),
        None => None,
    }
}

proof fn lemma_digit_of(d: nat, radix: nat)
    requires
        radix == 10 || radix == 16,
        d < radix,
    ensures
        digit_value(digit_of(d), radix) == Some(d),
{
    if d < 10 {
        assert(digit_of(d) as nat == 48 + d);
    } else {
        assert(digit_of(d) as nat == 87 + d);
    }
}

proof fn lemma_power_pos(radix: nat, w: nat)
    requires
        radix > 0,
    ensures
        power(radix, w) > 0,
    decreases w,
{
    if w > 0 {
        lemma_power_pos(radix, (w - 1) as nat);
        assert(radix * power(radix, (w - 1) as nat) > 0) by (nonlinear_arith)
            requires
                radix > 0,
                power(radix, (w - 1) as nat) > 0,
        ;
    }
}

/// The digits of `fixed_digits` read back as the number modulo `radix^w`.
proof fn lemma_fixed_digits(n: nat, w: nat, radix: nat)
    requires
        radix == 10 || radix == 16,
    ensures
        fixed_digits(n, w, radix).len() == w,
        digits_value(fixed_digits(n, w, radix), radix) == Some(n % power(radix, w)),
        forall|i: int| 0 <= i < w ==> digit_value(#[trigger] fixed_digits(n, w, radix)[i], radix) is Some,
    decreases w,
{
    if w == 0 {
        assert(n % 1 == 0);
    } else {
        let w1 = (w - 1) as nat;
        lemma_fixed_digits(n / radix, w1, radix);
        lemma_digit_of(n % radix, radix);
        let s = fixed_digits(n, w, radix);
        assert(s.drop_last() =~= fixed_digits(n / radix, w1, radix));
        lemma_power_pos(radix, w1);
        lemma_breakdown(n as int, radix as int, power(radix, w1) as int);
        assert forall|i: int| 0 <= i < w implies digit_value(#[trigger] s[i], radix) is Some by {
            if i < w1 {
                assert(s[i] == fixed_digits(n / radix, w1, radix)[i]);
            }
        }
    }
}

/// A number's decimal digits read back as the number.
proof fn lemma_decimal_digits(n: nat)
    ensures
        spec_decimal(n).len() > 0,
        digits_value(spec_decimal(n), 10) == Some(n),
        forall|i: int| 0 <= i < spec_decimal(n).len() ==> digit_value(#[trigger] spec_decimal(n)[i], 10) is Some,
    decreases n,
{
    let s = spec_decimal(n);
    if n < 10 {
        lemma_digit_of(n, 10);
        assert(crate::text::digit_char(n) == digit_of(n));
        assert(s.drop_last() =~= Seq::<char>::empty());
        assert(s.last() == digit_of(n));
        assert(digits_value(s.drop_last(), 10) == Some(0nat));
        assert(digits_value(s, 10) == Some(0 * 10 + n));
    } else {
        lemma_decimal_digits(n / 10);
        lemma_digit_of(n % 10, 10);
        assert(crate::text::digit_char(n % 10) == digit_of(n % 10));
        assert(s.drop_last() =~= spec_decimal(n / 10));
        assert(s.last() == digit_of(n % 10));
        assert(digits_value(s, 10) == Some((n / 10) * 10 + n % 10));
        assert((n / 10) * 10 + n % 10 == n);
        assert forall|i: int| 0 <= i < s.len() implies digit_value(#[trigger] s[i], 10) is Some by {
            if i < s.len() - 1 {
                assert(s[i] == spec_decimal(n / 10)[i]);
            }
        }
    }
}

/// Digits with no sign read as their value.
proof fn lemma_unsigned_of_digits(m: Seq<char>, radix: nat, v: nat)
    requires
        m.len() > 0,
        digits_value(m, radix) == Some(v),
        v <= u64::MAX,
        digit_value(m[0], radix) is Some,
    ensures
        unsigned_value(m, radix, u64::MAX as nat) == Some(v),
{
}

/// A snapshot file's name gives back the version it was named for.
pub proof fn law_snapshot_name_roundtrip(version: u64)
    ensures
        snapshot_version_of(snapshot_name(version)) == Some(version as nat),
{
    let s = snapshot_name(version);
    let m = fixed_digits(version as nat, 16, 16);
    lemma_fixed_digits(version as nat, 16, 16);
    assert(power(16, 16) == 0x1_0000_0000_0000_0000) by {
        reveal_with_fuel(power, 17);
    }
    assert(s.take(9) =~= snapshot_prefix());
    assert(s.skip(s.len() - 4) =~= snapshot_suffix());
    assert(s.subrange(9, s.len() - 4) =~= m);
    assert(digit_value(m[0], 16) is Some);
    lemma_unsigned_of_digits(m, 16, version as nat);
}

/// A log file's name gives back the number it was named for.
pub proof fn law_wal_name_roundtrip(id: u64)
    ensures
        wal_id_of(wal_name(id)) == Some(id as nat),
{
    let s = wal_name(id);
    let m = wal_digits(id);
    if id < 10000 {
        lemma_fixed_digits(id as nat, 4, 10);
        assert(power(10, 4) == 10000) by {
            reveal_with_fuel(power, 5);
        }
        assert(digit_value(m[0], 10) is Some);
    } else {
        lemma_decimal_digits(id as nat);
        assert(digit_value(m[0], 10) is Some);
    }
    assert(s.take(4) =~= wal_prefix());
    assert(s.skip(s.len() - 4) =~= wal_suffix());
    assert(s.subrange(4, s.len() - 4) =~= m);
    lemma_unsigned_of_digits(m, 10, id as nat);
}

} // verus!
