//! Character-level building blocks of the wire form: digit and numeral
//! rendering and parsing (decimal, hexadecimal, fixed-point), escaping of
//! reserved characters, and delimiter splitting that respects escapes.
//!
//! Every rendering function has a matching value function on character
//! sequences, and lemmas show that parsing inverts rendering; the codec's
//! round-trip guarantee is assembled from these.

use vstd::prelude::*;
use vstd::string::{StrSliceExecFns, StringExecFns};

verus! {

/// Largest magnitude a fixed-point coordinate field may carry; keeps
/// negation and the scaled re-parse of a rendered field inside `i64`.
pub const COORD_LIMIT: i64 = 0x7fff_ffff_ffff_ffff;

// ---------------------------------------------------------------------------
// Character classes
// ---------------------------------------------------------------------------

/// Characters that structure a record line and must be escaped inside
/// property values: the field separator, the escape character itself, and
/// the coordinate/event separator.
pub open spec fn is_reserved(c: char) -> bool {
    c == ',' || c == '\\' || c == '|'
}

/// A property value may be any single-line text; reserved characters are
/// escaped on the wire.
pub open spec fn ok_property_value(s: Seq<char>) -> bool {
    forall|i: int| 0 <= i < s.len() ==> #[trigger] s[i] != '\n'
}

/// A property name is a nonempty token carrying no structural characters.
pub open spec fn ok_property_name(s: Seq<char>) -> bool {
    &&& s.len() > 0
    &&& forall|i: int|
        0 <= i < s.len() ==> !is_reserved(#[trigger] s[i]) && s[i] != '=' && s[i] != '\n'
}

/// Event parameters and trailing text are emitted raw between pipes, so
/// they must stay clear of every reserved character.
pub open spec fn ok_event_text(s: Seq<char>) -> bool {
    forall|i: int| 0 <= i < s.len() ==> !is_reserved(#[trigger] s[i]) && #[trigger] s[i] != '\n'
}

pub fn is_reserved_char(c: char) -> (b: bool)
    ensures
        b == is_reserved(c),
{
    c == ',' || c == '\\' || c == '|'
}

// ---------------------------------------------------------------------------
// Digits
// ---------------------------------------------------------------------------

/// Numeric value of a digit character, or -1 when it is no digit.
/// Both cases of the hexadecimal letters are read; only lower case is
/// ever written.
pub open spec fn digit_val(c: char) -> int {
    if c == '0' { 0 } else if c == '1' { 1 } else if c == '2' { 2 } else if c == '3' { 3 }
    else if c == '4' { 4 } else if c == '5' { 5 } else if c == '6' { 6 } else if c == '7' { 7 }
    else if c == '8' { 8 } else if c == '9' { 9 } else if c == 'a' || c == 'A' { 10 }
    else if c == 'b' || c == 'B' { 11 } else if c == 'c' || c == 'C' { 12 }
    else if c == 'd' || c == 'D' { 13 } else if c == 'e' || c == 'E' { 14 }
    else if c == 'f' || c == 'F' { 15 } else { -1 }
}

/// Canonical (lower-case) character for a digit value below sixteen.
pub open spec fn digit_char(d: int) -> char {
    if d == 0 { '0' } else if d == 1 { '1' } else if d == 2 { '2' } else if d == 3 { '3' }
    else if d == 4 { '4' } else if d == 5 { '5' } else if d == 6 { '6' } else if d == 7 { '7' }
    else if d == 8 { '8' } else if d == 9 { '9' } else if d == 10 { 'a' } else if d == 11 { 'b' }
    else if d == 12 { 'c' } else if d == 13 { 'd' } else if d == 14 { 'e' } else if d == 15 { 'f' }
    else { '?' }
}

pub open spec fn is_dec_digit(c: char) -> bool {
    0 <= digit_val(c) < 10
}

pub open spec fn is_hex_digit(c: char) -> bool {
    0 <= digit_val(c) < 16
}

/// Canonical digit characters parse back to their value and are distinct
/// from every structural character.
pub proof fn lemma_digit_char_ok(d: int)
    requires
        0 <= d < 16,
    ensures
        digit_val(digit_char(d)) == d,
        !is_reserved(digit_char(d)),
        digit_char(d) != '.',
        digit_char(d) != '-',
        digit_char(d) != '#',
        digit_char(d) != '=',
        digit_char(d) != '\n',
{
}

pub fn char_digit(c: char) -> (r: Option<u8>)
    ensures
        match r {
            Some(d) => digit_val(c) == d as int && d < 16,
            None => digit_val(c) == -1,
        },
{
    if c == '0' { Some(0) } else if c == '1' { Some(1) } else if c == '2' { Some(2) }
    else if c == '3' { Some(3) } else if c == '4' { Some(4) } else if c == '5' { Some(5) }
    else if c == '6' { Some(6) } else if c == '7' { Some(7) } else if c == '8' { Some(8) }
    else if c == '9' { Some(9) } else if c == 'a' || c == 'A' { Some(10) }
    else if c == 'b' || c == 'B' { Some(11) } else if c == 'c' || c == 'C' { Some(12) }
    else if c == 'd' || c == 'D' { Some(13) } else if c == 'e' || c == 'E' { Some(14) }
    else if c == 'f' || c == 'F' { Some(15) } else { None }
}

pub fn digit_to_char(d: u64) -> (c: char)
    requires
        d < 16,
    ensures
        c == digit_char(d as int),
{
    if d == 0 { '0' } else if d == 1 { '1' } else if d == 2 { '2' } else if d == 3 { '3' }
    else if d == 4 { '4' } else if d == 5 { '5' } else if d == 6 { '6' } else if d == 7 { '7' }
    else if d == 8 { '8' } else if d == 9 { '9' } else if d == 10 { 'a' } else if d == 11 { 'b' }
    else if d == 12 { 'c' } else if d == 13 { 'd' } else if d == 14 { 'e' } else { 'f' }
}

// ---------------------------------------------------------------------------
// Decimal numerals
// ---------------------------------------------------------------------------

/// Canonical decimal numeral of a natural number (no sign, no leading
/// zeros except for zero itself).
pub open spec fn dec_seq(n: nat) -> Seq<char>
    decreases n,
{
    if n < 10 {
        seq![digit_char(n as int)]
    } else {
        dec_seq(n / 10) + seq![digit_char((n % 10) as int)]
    }
}

/// Value of a digit string read as decimal (left fold over the digits).
pub open spec fn dec_val(s: Seq<char>) -> int
    decreases s.len(),
{
    if s.len() == 0 {
        0
    } else {
        dec_val(s.drop_last()) * 10 + digit_val(s.last())
    }
}

/// A nonempty string of decimal digits.
pub open spec fn dec_ok(s: Seq<char>) -> bool {
    s.len() > 0 && forall|i: int| 0 <= i < s.len() ==> is_dec_digit(#[trigger] s[i])
}

pub proof fn lemma_dec_seq_digits(n: nat)
    ensures
        dec_seq(n).len() >= 1,
        forall|i: int| 0 <= i < dec_seq(n).len() ==> is_dec_digit(#[trigger] dec_seq(n)[i]),
    decreases n,
{
    if n < 10 {
        lemma_digit_char_ok(n as int);
    } else {
        lemma_dec_seq_digits(n / 10);
        lemma_digit_char_ok((n % 10) as int);
        assert forall|i: int| 0 <= i < dec_seq(n).len() implies is_dec_digit(
            #[trigger] dec_seq(n)[i],
        ) by {
            if i < dec_seq(n / 10).len() {
                assert(dec_seq(n)[i] == dec_seq(n / 10)[i]);
            } else {
                assert(dec_seq(n)[i] == digit_char((n % 10) as int));
            }
        }
    }
}

/// Reading back the canonical decimal numeral gives the number itself.
pub proof fn lemma_dec_val_inverse(n: nat)
    ensures
        dec_val(dec_seq(n)) == n,
    decreases n,
{
    if n < 10 {
        reveal_with_fuel(dec_val, 2);
        lemma_digit_char_ok(n as int);
        assert(dec_seq(n).drop_last() =~= Seq::<char>::empty());
    } else {
        lemma_dec_val_inverse(n / 10);
        lemma_digit_char_ok((n % 10) as int);
        vstd::arithmetic::div_mod::lemma_fundamental_div_mod(n as int, 10);
        let a = dec_seq(n / 10);
        let c = digit_char((n % 10) as int);
        assert((a + seq![c]).drop_last() =~= a);
        assert((a + seq![c]).last() == c);
    }
}

pub proof fn lemma_dec_val_nonneg(s: Seq<char>)
    requires
        forall|i: int| 0 <= i < s.len() ==> is_dec_digit(#[trigger] s[i]),
    ensures
        dec_val(s) >= 0,
    decreases s.len(),
{
    if s.len() > 0 {
        assert(forall|i: int|
            0 <= i < s.drop_last().len() ==> is_dec_digit(#[trigger] s.drop_last()[i]));
        lemma_dec_val_nonneg(s.drop_last());
    }
}

/// One digit extends the value of a prefix in the usual positional way.
pub proof fn lemma_dec_val_take_succ(s: Seq<char>, i: int)
    requires
        0 <= i < s.len(),
    ensures
        dec_val(s.take(i + 1)) == dec_val(s.take(i)) * 10 + digit_val(s[i]),
{
    assert(s.take(i + 1).drop_last() =~= s.take(i));
    assert(s.take(i + 1).last() == s[i]);
}

/// On an all-digit string the value of any prefix bounds the whole value
/// from below.
pub proof fn lemma_dec_val_take_le(s: Seq<char>, i: int)
    requires
        0 <= i <= s.len(),
        forall|j: int| 0 <= j < s.len() ==> is_dec_digit(#[trigger] s[j]),
    ensures
        dec_val(s.take(i)) <= dec_val(s),
    decreases s.len() - i,
{
    if i == s.len() {
        assert(s.take(i) =~= s);
    } else {
        lemma_dec_val_take_succ(s, i);
        assert(forall|j: int| 0 <= j < s.take(i).len() ==> is_dec_digit(#[trigger] s.take(i)[j]));
        lemma_dec_val_nonneg(s.take(i));
        lemma_dec_val_take_le(s, i + 1);
    }
}

// ---------------------------------------------------------------------------
// Hexadecimal numerals
// ---------------------------------------------------------------------------

/// Canonical lower-case hexadecimal numeral of a natural number.
pub open spec fn hex_seq(n: nat) -> Seq<char>
    decreases n,
{
    if n < 16 {
        seq![digit_char(n as int)]
    } else {
        hex_seq(n / 16) + seq![digit_char((n % 16) as int)]
    }
}

/// Value of a digit string read as hexadecimal.
pub open spec fn hex_val(s: Seq<char>) -> int
    decreases s.len(),
{
    if s.len() == 0 {
        0
    } else {
        hex_val(s.drop_last()) * 16 + digit_val(s.last())
    }
}

/// A nonempty string of hexadecimal digits.
pub open spec fn hex_ok(s: Seq<char>) -> bool {
    s.len() > 0 && forall|i: int| 0 <= i < s.len() ==> is_hex_digit(#[trigger] s[i])
}

pub proof fn lemma_hex_seq_digits(n: nat)
    ensures
        hex_seq(n).len() >= 1,
        forall|i: int| 0 <= i < hex_seq(n).len() ==> is_hex_digit(#[trigger] hex_seq(n)[i]),
    decreases n,
{
    if n < 16 {
        lemma_digit_char_ok(n as int);
    } else {
        lemma_hex_seq_digits(n / 16);
        lemma_digit_char_ok((n % 16) as int);
        assert forall|i: int| 0 <= i < hex_seq(n).len() implies is_hex_digit(
            #[trigger] hex_seq(n)[i],
        ) by {
            if i < hex_seq(n / 16).len() {
                assert(hex_seq(n)[i] == hex_seq(n / 16)[i]);
            } else {
                assert(hex_seq(n)[i] == digit_char((n % 16) as int));
            }
        }
    }
}

/// Reading back the canonical hexadecimal numeral gives the number itself.
pub proof fn lemma_hex_val_inverse(n: nat)
    ensures
        hex_val(hex_seq(n)) == n,
    decreases n,
{
    if n < 16 {
        reveal_with_fuel(hex_val, 2);
        lemma_digit_char_ok(n as int);
        assert(hex_seq(n).drop_last() =~= Seq::<char>::empty());
    } else {
        lemma_hex_val_inverse(n / 16);
        lemma_digit_char_ok((n % 16) as int);
        vstd::arithmetic::div_mod::lemma_fundamental_div_mod(n as int, 16);
        let a = hex_seq(n / 16);
        let c = digit_char((n % 16) as int);
        assert((a + seq![c]).drop_last() =~= a);
        assert((a + seq![c]).last() == c);
    }
}

pub proof fn lemma_hex_val_nonneg(s: Seq<char>)
    requires
        forall|i: int| 0 <= i < s.len() ==> is_hex_digit(#[trigger] s[i]),
    ensures
        hex_val(s) >= 0,
    decreases s.len(),
{
    if s.len() > 0 {
        assert(forall|i: int|
            0 <= i < s.drop_last().len() ==> is_hex_digit(#[trigger] s.drop_last()[i]));
        lemma_hex_val_nonneg(s.drop_last());
    }
}

pub proof fn lemma_hex_val_take_succ(s: Seq<char>, i: int)
    requires
        0 <= i < s.len(),
    ensures
        hex_val(s.take(i + 1)) == hex_val(s.take(i)) * 16 + digit_val(s[i]),
{
    assert(s.take(i + 1).drop_last() =~= s.take(i));
    assert(s.take(i + 1).last() == s[i]);
}

pub proof fn lemma_hex_val_take_le(s: Seq<char>, i: int)
    requires
        0 <= i <= s.len(),
        forall|j: int| 0 <= j < s.len() ==> is_hex_digit(#[trigger] s[j]),
    ensures
        hex_val(s.take(i)) <= hex_val(s),
    decreases s.len() - i,
{
    if i == s.len() {
        assert(s.take(i) =~= s);
    } else {
        lemma_hex_val_take_succ(s, i);
        assert(forall|j: int| 0 <= j < s.take(i).len() ==> is_hex_digit(#[trigger] s.take(i)[j]));
        lemma_hex_val_nonneg(s.take(i));
        lemma_hex_val_take_le(s, i + 1);
    }
}

// ---------------------------------------------------------------------------
// Trusted string primitives
// ---------------------------------------------------------------------------

/// Relies on `String::push`: appends exactly the given character.
#[verifier::external_body]
pub fn push_char(s: &mut String, c: char)
    ensures
        final(s)@ == old(s)@.push(c),
{
    s.push(c)
}

// ---------------------------------------------------------------------------
// Rendering numbers into a string buffer
// ---------------------------------------------------------------------------

/// Appends the canonical decimal numeral of `n`.
pub fn push_dec_u64(out: &mut String, n: u64)
    ensures
        final(out)@ == old(out)@ + dec_seq(n as nat),
    decreases n,
{
    if n < 10 {
        push_char(out, digit_to_char(n));
        proof {
            assert(final(out)@ =~= old(out)@ + dec_seq(n as nat));
        }
    } else {
        push_dec_u64(out, n / 10);
        push_char(out, digit_to_char(n % 10));
        proof {
            assert(final(out)@ =~= old(out)@ + dec_seq(n as nat));
        }
    }
}

/// Appends the canonical lower-case hexadecimal numeral of `n`.
pub fn push_hex_u64(out: &mut String, n: u64)
    ensures
        final(out)@ == old(out)@ + hex_seq(n as nat),
    decreases n,
{
    if n < 16 {
        push_char(out, digit_to_char(n));
        proof {
            assert(final(out)@ =~= old(out)@ + hex_seq(n as nat));
        }
    } else {
        push_hex_u64(out, n / 16);
        push_char(out, digit_to_char(n % 16));
        proof {
            assert(final(out)@ =~= old(out)@ + hex_seq(n as nat));
        }
    }
}

// ---------------------------------------------------------------------------
// Parsing numbers
// ---------------------------------------------------------------------------

/// Parses a nonempty decimal digit string into a `u64`; `None` exactly
/// when the text is not all digits or the value does not fit.
pub fn parse_dec_u64(v: &Vec<char>) -> (r: Option<u64>)
    ensures
        r is Some <==> dec_ok(v@) && dec_val(v@) <= u64::MAX,
        r is Some ==> r->Some_0 as int == dec_val(v@),
{
    if v.len() == 0 {
        return None;
    }
    let mut acc: u64 = 0;
    let mut i: usize = 0;
    while i < v.len()
        invariant
            0 <= i <= v.len(),
            forall|j: int| 0 <= j < i ==> is_dec_digit(#[trigger] v@[j]),
            acc as int == dec_val(v@.take(i as int)),
        decreases v.len() - i,
    {
        let c = v[i];
        let d = match char_digit(c) {
            Some(d) => {
                if d >= 10 {
                    return None;
                }
                d as u64
            },
            None => {
                return None;
            },
        };
        if acc > (u64::MAX - d) / 10 {
            proof {
                lemma_dec_val_take_succ(v@, i as int);
                assert(dec_ok(v@) ==> dec_val(v@) > u64::MAX) by {
                    if dec_ok(v@) {
                        lemma_dec_val_take_le(v@, i as int + 1);
                    }
                }
            }
            return None;
        }
        proof {
            lemma_dec_val_take_succ(v@, i as int);
        }
        acc = acc * 10 + d;
        i += 1;
    }
    proof {
        assert(v@.take(i as int) =~= v@);
    }
    Some(acc)
}

/// Parses a nonempty hexadecimal digit string into a `u64`; `None` exactly
/// when the text is not all hex digits or the value does not fit.
pub fn parse_hex_u64(v: &Vec<char>) -> (r: Option<u64>)
    ensures
        r is Some <==> hex_ok(v@) && hex_val(v@) <= u64::MAX,
        r is Some ==> r->Some_0 as int == hex_val(v@),
{
    if v.len() == 0 {
        return None;
    }
    let mut acc: u64 = 0;
    let mut i: usize = 0;
    while i < v.len()
        invariant
            0 <= i <= v.len(),
            forall|j: int| 0 <= j < i ==> is_hex_digit(#[trigger] v@[j]),
            acc as int == hex_val(v@.take(i as int)),
        decreases v.len() - i,
    {
        let c = v[i];
        let d = match char_digit(c) {
            Some(d) => d as u64,
            None => {
                return None;
            },
        };
        if acc > (u64::MAX - d) / 16 {
            proof {
                lemma_hex_val_take_succ(v@, i as int);
                assert(hex_ok(v@) ==> hex_val(v@) > u64::MAX) by {
                    if hex_ok(v@) {
                        lemma_hex_val_take_le(v@, i as int + 1);
                    }
                }
            }
            return None;
        }
        proof {
            lemma_hex_val_take_succ(v@, i as int);
        }
        acc = acc * 16 + d;
        i += 1;
    }
    proof {
        assert(v@.take(i as int) =~= v@);
    }
    Some(acc)
}

// ---------------------------------------------------------------------------
// Conversions between &str, String and Vec<char>
// ---------------------------------------------------------------------------

/// Collects the characters of a string slice into a vector.
pub fn str_to_chars(s: &str) -> (v: Vec<char>)
    ensures
        v@ == s@,
{
    let n = s.unicode_len();
    let mut v: Vec<char> = Vec::new();
    let mut i: usize = 0;
    while i < n
        invariant
            0 <= i <= n,
            n == s@.len(),
            v@ == s@.take(i as int),
        decreases n - i,
    {
        let c = s.get_char(i);
        v.push(c);
        proof {
            assert(s@.take(i + 1 as int) =~= s@.take(i as int).push(c));
        }
        i += 1;
    }
    proof {
        assert(s@.take(n as int) =~= s@);
    }
    v
}

/// Builds a `String` holding exactly the given characters.
pub fn chars_to_string(v: &Vec<char>) -> (s: String)
    ensures
        s@ == v@,
{
    let mut s = String::new();
    let mut i: usize = 0;
    while i < v.len()
        invariant
            0 <= i <= v.len(),
            s@ == v@.take(i as int),
        decreases v.len() - i,
    {
        push_char(&mut s, v[i]);
        proof {
            assert(v@.take(i + 1 as int) =~= v@.take(i as int).push(v@[i as int]));
        }
        i += 1;
    }
    proof {
        assert(v@.take(v@.len() as int) =~= v@);
    }
    s
}

/// Character-wise comparison of a vector against a string slice.
pub fn chars_eq_str(v: &Vec<char>, s: &str) -> (b: bool)
    ensures
        b == (v@ == s@),
{
    let n = s.unicode_len();
    if v.len() != n {
        proof {
            assert(v@ != s@) by {
                if v@ == s@ {
                    assert(v@.len() == s@.len());
                }
            }
        }
        return false;
    }
    let mut i: usize = 0;
    while i < n
        invariant
            0 <= i <= n,
            n == s@.len(),
            n == v@.len(),
            forall|j: int| 0 <= j < i ==> v@[j] == s@[j],
        decreases n - i,
    {
        if v[i] != s.get_char(i) {
            proof {
                assert(v@ != s@) by {
                    if v@ == s@ {
                        assert(v@[i as int] == s@[i as int]);
                    }
                }
            }
            return false;
        }
        i += 1;
    }
    proof {
        assert(v@ =~= s@);
    }
    true
}

// ---------------------------------------------------------------------------
// Searching and slicing
// ---------------------------------------------------------------------------

/// Index of the first occurrence of `c`, if any.
pub open spec fn find_char(s: Seq<char>, c: char) -> Option<int>
    decreases s.len(),
{
    if s.len() == 0 {
        None
    } else if s[0] == c {
        Some(0)
    } else {
        match find_char(s.skip(1), c) {
            None => None,
            Some(i) => Some(i + 1),
        }
    }
}

pub proof fn lemma_find_char_is(s: Seq<char>, c: char, i: int)
    requires
        0 <= i < s.len(),
        s[i] == c,
        forall|j: int| 0 <= j < i ==> s[j] != c,
    ensures
        find_char(s, c) == Some(i),
    decreases i,
{
    if i > 0 {
        assert(s[0] != c);
        assert(s.skip(1)[i - 1] == c);
        assert forall|j: int| 0 <= j < i - 1 implies s.skip(1)[j] != c by {
            assert(s.skip(1)[j] == s[j + 1]);
        }
        lemma_find_char_is(s.skip(1), c, i - 1);
    }
}

pub proof fn lemma_find_char_none(s: Seq<char>, c: char)
    requires
        forall|j: int| 0 <= j < s.len() ==> s[j] != c,
    ensures
        find_char(s, c) is None,
    decreases s.len(),
{
    if s.len() > 0 {
        assert(s[0] != c);
        assert forall|j: int| 0 <= j < s.skip(1).len() implies s.skip(1)[j] != c by {
            assert(s.skip(1)[j] == s[j + 1]);
        }
        lemma_find_char_none(s.skip(1), c);
    }
}

pub fn find_char_at(v: &Vec<char>, c: char) -> (r: Option<usize>)
    ensures
        match r {
            Some(i) => i < v@.len() && find_char(v@, c) == Some(i as int),
            None => find_char(v@, c) is None,
        },
{
    let mut i: usize = 0;
    while i < v.len()
        invariant
            0 <= i <= v.len(),
            forall|j: int| 0 <= j < i ==> v@[j] != c,
        decreases v.len() - i,
    {
        if v[i] == c {
            proof {
                lemma_find_char_is(v@, c, i as int);
            }
            return Some(i);
        }
        i += 1;
    }
    proof {
        lemma_find_char_none(v@, c);
    }
    None
}

/// Copies the characters of `v` between `a` (inclusive) and `b` (exclusive).
pub fn copy_range(v: &Vec<char>, a: usize, b: usize) -> (r: Vec<char>)
    requires
        a <= b <= v.len(),
    ensures
        r@ == v@.subrange(a as int, b as int),
{
    let mut r: Vec<char> = Vec::new();
    let mut i: usize = a;
    while i < b
        invariant
            a <= i <= b <= v.len(),
            r@ == v@.subrange(a as int, i as int),
        decreases b - i,
    {
        r.push(v[i]);
        proof {
            assert(v@.subrange(a as int, i + 1 as int) =~= v@.subrange(a as int, i as int).push(
                v@[i as int],
            ));
        }
        i += 1;
    }
    r
}

/// The text before and after the first occurrence of `d`, if any.
pub open spec fn split_once_at(s: Seq<char>, d: char) -> Option<(Seq<char>, Seq<char>)> {
    match find_char(s, d) {
        None => None,
        Some(i) => Some((s.take(i), s.skip(i + 1))),
    }
}

pub fn split_at_first(v: &Vec<char>, d: char) -> (r: Option<(Vec<char>, Vec<char>)>)
    ensures
        match r {
            Some(p) => split_once_at(v@, d) == Some((p.0@, p.1@)),
            None => split_once_at(v@, d) is None,
        },
{
    match find_char_at(v, d) {
        Some(i) => {
            let n = v.len();
            let a = copy_range(v, 0, i);
            let b = copy_range(v, i + 1, n);
            proof {
                assert(a@ =~= v@.take(i as int));
                assert(b@ =~= v@.skip(i as int + 1));
            }
            Some((a, b))
        },
        None => None,
    }
}

// ---------------------------------------------------------------------------
// Fixed-point numbers (hundredths)
// ---------------------------------------------------------------------------

/// Value in hundredths of a one- or two-digit fraction part.
pub open spec fn frac_scaled(fp: Seq<char>) -> int {
    if fp.len() == 1 {
        digit_val(fp[0]) * 10
    } else {
        digit_val(fp[0]) * 10 + digit_val(fp[1])
    }
}

/// Rendering of a non-negative fixed-point value with trailing zeros of
/// the fraction (and a then-bare point) trimmed away.
pub open spec fn coord_seq_nn(v: int) -> Seq<char>
    recommends
        v >= 0,
{
    let u = v / 100;
    let f = v % 100;
    if f == 0 {
        dec_seq(u as nat)
    } else if f % 10 == 0 {
        dec_seq(u as nat) + seq!['.', digit_char(f / 10)]
    } else {
        dec_seq(u as nat) + seq!['.', digit_char(f / 10), digit_char(f % 10)]
    }
}

/// Rendering of a signed fixed-point coordinate field.
pub open spec fn coord_seq(v: int) -> Seq<char> {
    if v < 0 {
        seq!['-'] + coord_seq_nn(-v)
    } else {
        coord_seq_nn(v)
    }
}

/// Value of a rendered non-negative fixed-point number, bounded by the
/// coordinate limit; `None` on any malformed text.
pub open spec fn coord_val_nn(s: Seq<char>) -> Option<int> {
    match find_char(s, '.') {
        None => if dec_ok(s) && dec_val(s) * 100 <= COORD_LIMIT as int {
            Some(dec_val(s) * 100)
        } else {
            None
        },
        Some(i) => {
            let ip = s.take(i);
            let fp = s.skip(i + 1);
            if dec_ok(ip) && 1 <= fp.len() <= 2 && dec_ok(fp) && dec_val(ip) * 100 + frac_scaled(fp)
                <= COORD_LIMIT as int {
                Some(dec_val(ip) * 100 + frac_scaled(fp))
            } else {
                None
            }
        },
    }
}

/// Value of a rendered signed fixed-point coordinate field.
pub open spec fn coord_val(s: Seq<char>) -> Option<int> {
    if s.len() > 0 && s[0] == '-' {
        match coord_val_nn(s.skip(1)) {
            Some(v) => Some(-v),
            None => None,
        }
    } else {
        coord_val_nn(s)
    }
}

/// Rendering of a frame time offset: always exactly two fraction digits.
pub open spec fn frame_seq(t: nat) -> Seq<char> {
    dec_seq(t / 100) + seq!['.', digit_char(((t % 100) / 10) as int), digit_char(
        ((t % 100) % 10) as int,
    )]
}

/// Value of a frame time offset text, in centiseconds; the fraction may
/// hold one or two digits, or be absent.
pub open spec fn frame_val(s: Seq<char>) -> Option<int> {
    match find_char(s, '.') {
        None => if dec_ok(s) && dec_val(s) * 100 <= u64::MAX {
            Some(dec_val(s) * 100)
        } else {
            None
        },
        Some(i) => {
            let ip = s.take(i);
            let fp = s.skip(i + 1);
            if dec_ok(ip) && 1 <= fp.len() <= 2 && dec_ok(fp) && dec_val(ip) * 100 + frac_scaled(fp)
                <= u64::MAX {
                Some(dec_val(ip) * 100 + frac_scaled(fp))
            } else {
                None
            }
        },
    }
}

proof fn lemma_dec_seq_no_dot(n: nat)
    ensures
        forall|j: int| 0 <= j < dec_seq(n).len() ==> dec_seq(n)[j] != '.',
{
    lemma_dec_seq_digits(n);
    assert forall|j: int| 0 <= j < dec_seq(n).len() implies dec_seq(n)[j] != '.' by {
        assert(is_dec_digit(dec_seq(n)[j]));
    }
}

pub proof fn lemma_coord_nn_roundtrip(v: int)
    requires
        0 <= v <= COORD_LIMIT as int,
    ensures
        coord_val_nn(coord_seq_nn(v)) == Some(v),
{
    let u = v / 100;
    let f = v % 100;
    vstd::arithmetic::div_mod::lemma_fundamental_div_mod(v, 100);
    lemma_dec_seq_digits(u as nat);
    lemma_dec_seq_no_dot(u as nat);
    lemma_dec_val_inverse(u as nat);
    let a = dec_seq(u as nat);
    if f == 0 {
        lemma_find_char_none(a, '.');
    } else if f % 10 == 0 {
        vstd::arithmetic::div_mod::lemma_fundamental_div_mod(f, 10);
        lemma_digit_char_ok(f / 10);
        let s = a + seq!['.', digit_char(f / 10)];
        assert(s[a.len() as int] == '.');
        assert forall|j: int| 0 <= j < a.len() implies s[j] != '.' by {
            assert(s[j] == a[j]);
        }
        lemma_find_char_is(s, '.', a.len() as int);
        assert(s.take(a.len() as int) =~= a);
        assert(s.skip(a.len() as int + 1) =~= seq![digit_char(f / 10)]);
        assert(dec_ok(seq![digit_char(f / 10)]));
    } else {
        vstd::arithmetic::div_mod::lemma_fundamental_div_mod(f, 10);
        lemma_digit_char_ok(f / 10);
        lemma_digit_char_ok(f % 10);
        let s = a + seq!['.', digit_char(f / 10), digit_char(f % 10)];
        assert(s[a.len() as int] == '.');
        assert forall|j: int| 0 <= j < a.len() implies s[j] != '.' by {
            assert(s[j] == a[j]);
        }
        lemma_find_char_is(s, '.', a.len() as int);
        assert(s.take(a.len() as int) =~= a);
        assert(s.skip(a.len() as int + 1) =~= seq![digit_char(f / 10), digit_char(f % 10)]);
        assert(dec_ok(seq![digit_char(f / 10), digit_char(f % 10)]));
    }
}

/// Re-parsing a rendered coordinate field gives back the value.
pub proof fn lemma_coord_roundtrip(v: int)
    requires
        -(COORD_LIMIT as int) <= v <= COORD_LIMIT as int,
    ensures
        coord_val(coord_seq(v)) == Some(v),
{
    if v < 0 {
        lemma_coord_nn_roundtrip(-v);
        let s = seq!['-'] + coord_seq_nn(-v);
        assert(s[0] == '-');
        assert(s.skip(1) =~= coord_seq_nn(-v));
    } else {
        lemma_coord_nn_roundtrip(v);
        let s = coord_seq_nn(v);
        lemma_dec_seq_digits((v / 100) as nat);
        lemma_digit_char_ok(0);
        assert(s.len() > 0 && s[0] == dec_seq((v / 100) as nat)[0]);
        assert(is_dec_digit(s[0]));
        assert(s[0] != '-');
    }
}

/// Re-parsing a rendered frame time gives back the value.
pub proof fn lemma_frame_roundtrip(t: nat)
    requires
        t <= u64::MAX,
    ensures
        frame_val(frame_seq(t)) == Some(t as int),
{
    let u = t / 100;
    let f = t % 100;
    vstd::arithmetic::div_mod::lemma_fundamental_div_mod(t as int, 100);
    vstd::arithmetic::div_mod::lemma_fundamental_div_mod(f as int, 10);
    lemma_dec_seq_digits(u);
    lemma_dec_seq_no_dot(u);
    lemma_dec_val_inverse(u);
    lemma_digit_char_ok((f / 10) as int);
    lemma_digit_char_ok((f % 10) as int);
    let a = dec_seq(u);
    let s = frame_seq(t);
    assert(s[a.len() as int] == '.');
    assert forall|j: int| 0 <= j < a.len() implies s[j] != '.' by {
        assert(s[j] == a[j]);
    }
    lemma_find_char_is(s, '.', a.len() as int);
    assert(s.take(a.len() as int) =~= a);
    assert(s.skip(a.len() as int + 1) =~= seq![digit_char(((t % 100) / 10) as int), digit_char(
        ((t % 100) % 10) as int,
    )]);
    assert(dec_ok(s.skip(a.len() as int + 1)));
}

/// Parses a signed fixed-point coordinate field, in hundredths.
pub fn parse_coord(v: &Vec<char>) -> (r: Option<i64>)
    ensures
        match r {
            Some(x) => coord_val(v@) == Some(x as int),
            None => coord_val(v@) is None,
        },
{
    if v.len() > 0 && v[0] == '-' {
        let t = copy_range(v, 1, v.len());
        proof {
            assert(t@ =~= v@.skip(1));
        }
        match parse_coord_nn(&t) {
            Some(x) => Some(-x),
            None => None,
        }
    } else {
        parse_coord_nn(v)
    }
}

fn parse_coord_nn(v: &Vec<char>) -> (r: Option<i64>)
    ensures
        match r {
            Some(x) => coord_val_nn(v@) == Some(x as int) && 0 <= x <= COORD_LIMIT,
            None => coord_val_nn(v@) is None,
        },
{
    match find_char_at(v, '.') {
        None => {
            match parse_dec_u64(v) {
                Some(u) => {
                    if u <= (COORD_LIMIT as u64) / 100 {
                        Some((u * 100) as i64)
                    } else {
                        None
                    }
                },
                None => {
                    proof {
                        if dec_ok(v@) {
                            lemma_dec_val_nonneg(v@);
                        }
                    }
                    None
                },
            }
        },
        Some(i) => {
            let fplen = v.len() - i - 1;
            if fplen < 1 || fplen > 2 {
                return None;
            }
            let ip = copy_range(v, 0, i);
            let fp = copy_range(v, i + 1, v.len());
            proof {
                assert(ip@ =~= v@.take(i as int));
                assert(fp@ =~= v@.skip(i as int + 1));
            }
            let f = match frac_value(&fp) {
                Some(f) => f,
                None => {
                    return None;
                },
            };
            match parse_dec_u64(&ip) {
                Some(u) => {
                    if u <= ((COORD_LIMIT as u64) - f) / 100 {
                        Some((u * 100 + f) as i64)
                    } else {
                        None
                    }
                },
                None => {
                    proof {
                        if dec_ok(ip@) {
                            lemma_dec_val_nonneg(ip@);
                        }
                    }
                    None
                },
            }
        },
    }
}

/// Parses a one- or two-digit fraction part into hundredths.
fn frac_value(fp: &Vec<char>) -> (r: Option<u64>)
    requires
        1 <= fp.len() <= 2,
    ensures
        match r {
            Some(f) => dec_ok(fp@) && frac_scaled(fp@) == f as int && f <= 99,
            None => !dec_ok(fp@),
        },
{
    let d0 = match char_digit(fp[0]) {
        Some(d) if d < 10 => d as u64,
        _ => {
            return None;
        },
    };
    if fp.len() == 1 {
        Some(d0 * 10)
    } else {
        let d1 = match char_digit(fp[1]) {
            Some(d) if d < 10 => d as u64,
            _ => {
                return None;
            },
        };
        Some(d0 * 10 + d1)
    }
}

/// Parses a frame time offset into centiseconds.
pub fn parse_frame(v: &Vec<char>) -> (r: Option<u64>)
    ensures
        match r {
            Some(x) => frame_val(v@) == Some(x as int),
            None => frame_val(v@) is None,
        },
{
    match find_char_at(v, '.') {
        None => {
            match parse_dec_u64(v) {
                Some(u) => {
                    if u <= u64::MAX / 100 {
                        Some(u * 100)
                    } else {
                        None
                    }
                },
                None => {
                    proof {
                        if dec_ok(v@) {
                            lemma_dec_val_nonneg(v@);
                        }
                    }
                    None
                },
            }
        },
        Some(i) => {
            let fplen = v.len() - i - 1;
            if fplen < 1 || fplen > 2 {
                return None;
            }
            let ip = copy_range(v, 0, i);
            let fp = copy_range(v, i + 1, v.len());
            proof {
                assert(ip@ =~= v@.take(i as int));
                assert(fp@ =~= v@.skip(i as int + 1));
            }
            let f = match frac_value(&fp) {
                Some(f) => f,
                None => {
                    return None;
                },
            };
            match parse_dec_u64(&ip) {
                Some(u) => {
                    if u <= (u64::MAX - f) / 100 {
                        Some(u * 100 + f)
                    } else {
                        None
                    }
                },
                None => {
                    proof {
                        if dec_ok(ip@) {
                            lemma_dec_val_nonneg(ip@);
                        }
                    }
                    None
                },
            }
        },
    }
}

// ---------------------------------------------------------------------------
// Escaping
// ---------------------------------------------------------------------------

/// Escapes every reserved character with a backslash.
pub open spec fn escape_seq(s: Seq<char>) -> Seq<char>
    decreases s.len(),
{
    if s.len() == 0 {
        Seq::empty()
    } else if is_reserved(s[0]) {
        seq!['\\', s[0]] + escape_seq(s.skip(1))
    } else {
        seq![s[0]] + escape_seq(s.skip(1))
    }
}

/// Removes one level of backslash escaping; total, reading a trailing
/// lone backslash as itself.
pub open spec fn unescape_seq(s: Seq<char>) -> Seq<char>
    decreases s.len(),
{
    if s.len() == 0 {
        Seq::empty()
    } else if s[0] == '\\' && s.len() >= 2 {
        seq![s[1]] + unescape_seq(s.skip(2))
    } else {
        seq![s[0]] + unescape_seq(s.skip(1))
    }
}

/// Unescaping inverts escaping.
pub proof fn lemma_unescape_escape(s: Seq<char>)
    ensures
        unescape_seq(escape_seq(s)) == s,
    decreases s.len(),
{
    if s.len() == 0 {
        assert(unescape_seq(escape_seq(s)) =~= s);
    } else {
        lemma_unescape_escape(s.skip(1));
        if is_reserved(s[0]) {
            let e = seq!['\\', s[0]] + escape_seq(s.skip(1));
            assert(escape_seq(s) == e);
            assert(e[0] == '\\' && e.len() >= 2);
            assert(e.skip(2) =~= escape_seq(s.skip(1)));
            assert(unescape_seq(e) =~= s);
        } else {
            let e = seq![s[0]] + escape_seq(s.skip(1));
            assert(escape_seq(s) == e);
            assert(s[0] != '\\');
            assert(e.skip(1) =~= escape_seq(s.skip(1)));
            assert(unescape_seq(e) =~= s);
        }
    }
}

/// Escaping distributes over concatenation.
pub proof fn lemma_escape_concat(a: Seq<char>, b: Seq<char>)
    ensures
        escape_seq(a + b) == escape_seq(a) + escape_seq(b),
    decreases a.len(),
{
    if a.len() == 0 {
        assert(a + b =~= b);
        assert(escape_seq(a) + escape_seq(b) =~= escape_seq(b));
    } else {
        lemma_escape_concat(a.skip(1), b);
        assert((a + b).skip(1) =~= a.skip(1) + b);
        assert((a + b)[0] == a[0]);
        if is_reserved(a[0]) {
            assert(escape_seq(a + b) =~= escape_seq(a) + escape_seq(b));
        } else {
            assert(escape_seq(a + b) =~= escape_seq(a) + escape_seq(b));
        }
    }
}

/// Escaping of a single character.
pub proof fn lemma_escape_one(c: char)
    ensures
        escape_seq(seq![c]) == if is_reserved(c) {
            seq!['\\', c]
        } else {
            seq![c]
        },
{
    reveal_with_fuel(escape_seq, 2);
    assert(seq![c].skip(1) =~= Seq::<char>::empty());
    if is_reserved(c) {
        assert(escape_seq(seq![c]) =~= seq!['\\', c]);
    } else {
        assert(escape_seq(seq![c]) =~= seq![c]);
    }
}

/// Appends the escaped form of `s` to the buffer.
pub fn push_escaped(out: &mut String, s: &str)
    ensures
        final(out)@ == old(out)@ + escape_seq(s@),
{
    let n = s.unicode_len();
    let mut i: usize = 0;
    while i < n
        invariant
            0 <= i <= n,
            n == s@.len(),
            out@ == old(out)@ + escape_seq(s@.take(i as int)),
        decreases n - i,
    {
        let c = s.get_char(i);
        if is_reserved_char(c) {
            push_char(out, '\\');
            push_char(out, c);
        } else {
            push_char(out, c);
        }
        proof {
            assert(s@.take(i + 1 as int) =~= s@.take(i as int) + seq![s@[i as int]]);
            lemma_escape_concat(s@.take(i as int), seq![s@[i as int]]);
            lemma_escape_one(s@[i as int]);
            assert(out@ =~= old(out)@ + escape_seq(s@.take(i + 1 as int)));
        }
        i += 1;
    }
    proof {
        assert(s@.take(n as int) =~= s@);
    }
}

/// Builds the unescaped form of `v` as a fresh string.
pub fn unescape_string(v: &Vec<char>) -> (s: String)
    ensures
        s@ == unescape_seq(v@),
{
    let mut s = String::new();
    unescape_push(&mut s, v, 0);
    proof {
        assert(v@.skip(0) =~= v@);
    }
    s
}

fn unescape_push(out: &mut String, v: &Vec<char>, i: usize)
    requires
        i <= v.len(),
    ensures
        final(out)@ == old(out)@ + unescape_seq(v@.skip(i as int)),
    decreases v.len() - i,
{
    if i == v.len() {
        proof {
            assert(v@.skip(i as int) =~= Seq::<char>::empty());
            assert(final(out)@ =~= old(out)@ + unescape_seq(v@.skip(i as int)));
        }
    } else if v[i] == '\\' && i + 1 < v.len() {
        push_char(out, v[i + 1]);
        unescape_push(out, v, i + 2);
        proof {
            let t = v@.skip(i as int);
            assert(t[0] == '\\' && t.len() >= 2);
            assert(t[1] == v@[i + 1 as int]);
            assert(t.skip(2) =~= v@.skip(i + 2 as int));
            assert(final(out)@ =~= old(out)@ + unescape_seq(t));
        }
    } else {
        push_char(out, v[i]);
        unescape_push(out, v, i + 1);
        proof {
            let t = v@.skip(i as int);
            assert(t[0] == v@[i as int]);
            assert(!(t[0] == '\\' && t.len() >= 2));
            assert(t.skip(1) =~= v@.skip(i + 1 as int));
            assert(final(out)@ =~= old(out)@ + unescape_seq(t));
        }
    }
}

// ---------------------------------------------------------------------------
// Splitting at unescaped delimiters
// ---------------------------------------------------------------------------

/// Text free of unescaped occurrences of `d` and of a dangling final
/// backslash: exactly the text a split at `d` passes through whole.
pub open spec fn esc_clean(s: Seq<char>, d: char) -> bool
    decreases s.len(),
{
    if s.len() == 0 {
        true
    } else if s[0] == d {
        false
    } else if s[0] == '\\' {
        s.len() >= 2 && esc_clean(s.skip(2), d)
    } else {
        esc_clean(s.skip(1), d)
    }
}

/// Escaped text is clean for any reserved delimiter other than the escape
/// character itself.
pub proof fn lemma_escape_clean(s: Seq<char>, d: char)
    requires
        is_reserved(d),
        d != '\\',
    ensures
        esc_clean(escape_seq(s), d),
    decreases s.len(),
{
    if s.len() > 0 {
        lemma_escape_clean(s.skip(1), d);
        if is_reserved(s[0]) {
            let e = seq!['\\', s[0]] + escape_seq(s.skip(1));
            assert(e[0] == '\\' && e.len() >= 2);
            assert(e.skip(2) =~= escape_seq(s.skip(1)));
        } else {
            let e = seq![s[0]] + escape_seq(s.skip(1));
            assert(e[0] != d && e[0] != '\\');
            assert(e.skip(1) =~= escape_seq(s.skip(1)));
        }
    }
}

/// Text with neither the delimiter nor a backslash in it is clean.
pub proof fn lemma_clean_chars(s: Seq<char>, d: char)
    requires
        forall|i: int| 0 <= i < s.len() ==> #[trigger] s[i] != d && s[i] != '\\',
    ensures
        esc_clean(s, d),
    decreases s.len(),
{
    if s.len() > 0 {
        assert forall|i: int| 0 <= i < s.skip(1).len() implies #[trigger] s.skip(1)[i] != d
            && s.skip(1)[i] != '\\' by {
            assert(s.skip(1)[i] == s[i + 1]);
        }
        lemma_clean_chars(s.skip(1), d);
    }
}

/// A join of clean segments by a harmless separator is itself clean.
pub proof fn lemma_join_clean(segs: Seq<Seq<char>>, sep: char, d: char)
    requires
        sep != d,
        sep != '\\',
        forall|i: int| 0 <= i < segs.len() ==> esc_clean(#[trigger] segs[i], d),
    ensures
        esc_clean(join_with(segs, sep), d),
    decreases segs.len(),
{
    if segs.len() == 0 {
    } else if segs.len() == 1 {
        assert(join_with(segs, sep) == segs[0]);
    } else {
        assert forall|i: int| 0 <= i < segs.skip(1).len() implies esc_clean(
            #[trigger] segs.skip(1)[i],
            d,
        ) by {
            assert(segs.skip(1)[i] == segs[i + 1]);
        }
        lemma_join_clean(segs.skip(1), sep, d);
        assert(esc_clean(seq![sep], d)) by {
            reveal_with_fuel(esc_clean, 2);
            assert(seq![sep].skip(1) =~= Seq::<char>::empty());
        }
        lemma_clean_concat(segs[0], seq![sep], d);
        lemma_clean_concat(segs[0] + seq![sep], join_with(segs.skip(1), sep), d);
        assert(segs[0] + seq![sep] + join_with(segs.skip(1), sep) =~= (segs[0] + seq![sep])
            + join_with(segs.skip(1), sep));
    }
}

/// Every character of a rendered coordinate field is a decimal digit,
/// the point, or the minus sign.
pub proof fn lemma_coord_seq_chars(v: int)
    ensures
        forall|i: int|
            0 <= i < coord_seq(v).len() ==> (is_dec_digit(#[trigger] coord_seq(v)[i]) || coord_seq(
                v,
            )[i] == '.' || coord_seq(v)[i] == '-'),
{
    if v < 0 {
        lemma_coord_seq_nn_chars(-v);
        assert forall|i: int| 0 <= i < coord_seq(v).len() implies (is_dec_digit(
            #[trigger] coord_seq(v)[i],
        ) || coord_seq(v)[i] == '.' || coord_seq(v)[i] == '-') by {
            if i > 0 {
                assert(coord_seq(v)[i] == coord_seq_nn(-v)[i - 1]);
            }
        }
    } else {
        lemma_coord_seq_nn_chars(v);
    }
}

proof fn lemma_coord_seq_nn_chars(v: int)
    ensures
        forall|i: int|
            0 <= i < coord_seq_nn(v).len() ==> (is_dec_digit(#[trigger] coord_seq_nn(v)[i])
                || coord_seq_nn(v)[i] == '.'),
{
    let u = v / 100;
    let f = v % 100;
    lemma_dec_seq_digits(u as nat);
    let a = dec_seq(u as nat);
    if f == 0 {
    } else if f % 10 == 0 {
        lemma_digit_char_ok(f / 10);
        assert forall|i: int| 0 <= i < coord_seq_nn(v).len() implies (is_dec_digit(
            #[trigger] coord_seq_nn(v)[i],
        ) || coord_seq_nn(v)[i] == '.') by {
            if i < a.len() {
                assert(coord_seq_nn(v)[i] == a[i]);
            }
        }
    } else {
        lemma_digit_char_ok(f / 10);
        lemma_digit_char_ok(f % 10);
        assert forall|i: int| 0 <= i < coord_seq_nn(v).len() implies (is_dec_digit(
            #[trigger] coord_seq_nn(v)[i],
        ) || coord_seq_nn(v)[i] == '.') by {
            if i < a.len() {
                assert(coord_seq_nn(v)[i] == a[i]);
            }
        }
    }
}

/// Cleanliness is preserved by concatenation.
pub proof fn lemma_clean_concat(a: Seq<char>, b: Seq<char>, d: char)
    requires
        esc_clean(a, d),
        esc_clean(b, d),
    ensures
        esc_clean(a + b, d),
    decreases a.len(),
{
    if a.len() == 0 {
        assert(a + b =~= b);
    } else if a[0] == '\\' {
        assert((a + b).skip(2) =~= a.skip(2) + b);
        lemma_clean_concat(a.skip(2), b, d);
    } else {
        assert((a + b).skip(1) =~= a.skip(1) + b);
        lemma_clean_concat(a.skip(1), b, d);
    }
}

/// Prepends raw text to the first segment of a split result.
pub open spec fn cons_front(p: Seq<char>, segs: Seq<Seq<char>>) -> Seq<Seq<char>>
    recommends
        segs.len() >= 1,
{
    seq![p + segs[0]] + segs.skip(1)
}

/// Splits at unescaped occurrences of `d`; always yields at least one
/// (possibly empty) raw segment.
pub open spec fn split_esc(s: Seq<char>, d: char) -> Seq<Seq<char>>
    decreases s.len(),
{
    if s.len() == 0 {
        seq![Seq::<char>::empty()]
    } else if s[0] == d {
        seq![Seq::<char>::empty()] + split_esc(s.skip(1), d)
    } else if s[0] == '\\' && s.len() >= 2 {
        cons_front(s.take(2), split_esc(s.skip(2), d))
    } else {
        cons_front(s.take(1), split_esc(s.skip(1), d))
    }
}

pub proof fn lemma_split_esc_len(s: Seq<char>, d: char)
    ensures
        split_esc(s, d).len() >= 1,
    decreases s.len(),
{
    if s.len() == 0 {
    } else if s[0] == d {
        lemma_split_esc_len(s.skip(1), d);
    } else if s[0] == '\\' && s.len() >= 2 {
        lemma_split_esc_len(s.skip(2), d);
    } else {
        lemma_split_esc_len(s.skip(1), d);
    }
}

/// A clean text splits into itself alone.
pub proof fn lemma_split_esc_single(s: Seq<char>, d: char)
    requires
        esc_clean(s, d),
    ensures
        split_esc(s, d) == seq![s],
    decreases s.len(),
{
    if s.len() == 0 {
        assert(s =~= Seq::<char>::empty());
        assert(split_esc(s, d) =~= seq![s]);
    } else if s[0] == '\\' {
        lemma_split_esc_single(s.skip(2), d);
        assert(s.take(2) + s.skip(2) =~= s);
        assert(seq![s.skip(2)].skip(1) =~= Seq::<Seq<char>>::empty());
        assert(split_esc(s, d) =~= seq![s]);
    } else {
        lemma_split_esc_single(s.skip(1), d);
        assert(s.take(1) + s.skip(1) =~= s);
        assert(seq![s.skip(1)].skip(1) =~= Seq::<Seq<char>>::empty());
        assert(split_esc(s, d) =~= seq![s]);
    }
}

/// Splitting peels a leading clean segment off at its delimiter.
pub proof fn lemma_split_esc_step(a: Seq<char>, b: Seq<char>, d: char)
    requires
        esc_clean(a, d),
    ensures
        split_esc(a + seq![d] + b, d) == seq![a] + split_esc(b, d),
    decreases a.len(),
{
    let s = a + seq![d] + b;
    if a.len() == 0 {
        assert(a =~= Seq::<char>::empty());
        assert(s[0] == d);
        assert(s.skip(1) =~= b);
        assert(split_esc(s, d) =~= seq![a] + split_esc(b, d));
    } else if a[0] == '\\' {
        assert(a.len() >= 2);
        assert(s[0] == '\\' && s.len() >= 2);
        assert(s[0] != d);
        lemma_split_esc_step(a.skip(2), b, d);
        assert(s.skip(2) =~= a.skip(2) + seq![d] + b);
        assert(s.take(2) =~= a.take(2));
        let inner = seq![a.skip(2)] + split_esc(b, d);
        assert(split_esc(s, d) == cons_front(a.take(2), inner));
        assert(inner[0] == a.skip(2));
        assert(a.take(2) + a.skip(2) =~= a);
        assert(inner.skip(1) =~= split_esc(b, d));
        assert(split_esc(s, d) =~= seq![a] + split_esc(b, d));
    } else {
        assert(s[0] == a[0]);
        assert(s[0] != d && !(s[0] == '\\'));
        lemma_split_esc_step(a.skip(1), b, d);
        assert(s.skip(1) =~= a.skip(1) + seq![d] + b);
        assert(s.take(1) =~= a.take(1));
        let inner = seq![a.skip(1)] + split_esc(b, d);
        assert(split_esc(s, d) == cons_front(a.take(1), inner));
        assert(inner[0] == a.skip(1));
        assert(a.take(1) + a.skip(1) =~= a);
        assert(inner.skip(1) =~= split_esc(b, d));
        assert(split_esc(s, d) =~= seq![a] + split_esc(b, d));
    }
}

/// Joins segments with a delimiter between consecutive segments.
pub open spec fn join_with(segs: Seq<Seq<char>>, d: char) -> Seq<char>
    decreases segs.len(),
{
    if segs.len() == 0 {
        Seq::empty()
    } else if segs.len() == 1 {
        segs[0]
    } else {
        segs[0] + seq![d] + join_with(segs.skip(1), d)
    }
}

/// Splitting inverts joining when every segment is clean.
pub proof fn lemma_split_join(segs: Seq<Seq<char>>, d: char)
    requires
        segs.len() >= 1,
        forall|i: int| 0 <= i < segs.len() ==> esc_clean(#[trigger] segs[i], d),
    ensures
        split_esc(join_with(segs, d), d) == segs,
    decreases segs.len(),
{
    if segs.len() == 1 {
        lemma_split_esc_single(segs[0], d);
        assert(seq![segs[0]] =~= segs);
    } else {
        assert forall|i: int| 0 <= i < segs.skip(1).len() implies esc_clean(
            #[trigger] segs.skip(1)[i],
            d,
        ) by {
            assert(segs.skip(1)[i] == segs[i + 1]);
        }
        lemma_split_join(segs.skip(1), d);
        lemma_split_esc_step(segs[0], join_with(segs.skip(1), d), d);
        assert(seq![segs[0]] + segs.skip(1) =~= segs);
    }
}

/// The views of a sequence of character vectors.
pub open spec fn views_of(v: Seq<Vec<char>>) -> Seq<Seq<char>> {
    v.map_values(|x: Vec<char>| x@)
}

/// Appending one vector appends its view.
pub proof fn lemma_views_push(s: Seq<Vec<char>>, x: Vec<char>)
    ensures
        views_of(s.push(x)) == views_of(s).push(x@),
{
    assert forall|j: int| 0 <= j < s.push(x).len() implies views_of(s.push(x))[j] == views_of(
        s,
    ).push(x@)[j] by {
        if j < s.len() {
            assert(s.push(x)[j] == s[j]);
        } else {
            assert(s.push(x)[j] == x);
        }
    }
    assert(views_of(s.push(x)) =~= views_of(s).push(x@));
}

/// Splits `v` from position `i` at unescaped occurrences of `d`.
pub fn split_esc_exec(v: &Vec<char>, i: usize, d: char) -> (r: Vec<Vec<char>>)
    requires
        i <= v.len(),
    ensures
        views_of(r@) == split_esc(v@.skip(i as int), d),
        r@.len() >= 1,
    decreases v.len() - i,
{
    if i == v.len() {
        let mut r: Vec<Vec<char>> = Vec::new();
        r.push(Vec::new());
        proof {
            assert(v@.skip(i as int) =~= Seq::<char>::empty());
            assert(views_of(r@) =~= split_esc(v@.skip(i as int), d));
        }
        r
    } else if v[i] == d {
        let mut rest = split_esc_exec(v, i + 1, d);
        rest.insert(0, Vec::new());
        proof {
            let t = v@.skip(i as int);
            assert(t[0] == d);
            assert(t.skip(1) =~= v@.skip(i + 1 as int));
            assert(views_of(rest@) =~= split_esc(t, d));
        }
        rest
    } else if v[i] == '\\' && i + 1 < v.len() {
        let mut rest = split_esc_exec(v, i + 2, d);
        let mut first = rest.remove(0);
        first.insert(0, v[i + 1]);
        first.insert(0, v[i]);
        let ghost old_first = split_esc(v@.skip(i + 2 as int), d)[0];
        rest.insert(0, first);
        proof {
            let t = v@.skip(i as int);
            assert(t[0] == '\\' && t.len() >= 2);
            assert(t[0] != d);
            assert(t.skip(2) =~= v@.skip(i + 2 as int));
            assert(t.take(2) =~= seq![v@[i as int], v@[i + 1 as int]]);
            lemma_split_esc_len(v@.skip(i + 2 as int), d);
            assert(first@ =~= t.take(2) + old_first);
            assert(views_of(rest@) =~= cons_front(t.take(2), split_esc(t.skip(2), d)));
            assert(views_of(rest@) =~= split_esc(t, d));
        }
        rest
    } else {
        let mut rest = split_esc_exec(v, i + 1, d);
        let mut first = rest.remove(0);
        first.insert(0, v[i]);
        let ghost old_first = split_esc(v@.skip(i + 1 as int), d)[0];
        rest.insert(0, first);
        proof {
            let t = v@.skip(i as int);
            assert(t[0] == v@[i as int]);
            assert(t[0] != d && !(t[0] == '\\' && t.len() >= 2));
            assert(t.skip(1) =~= v@.skip(i + 1 as int));
            assert(t.take(1) =~= seq![v@[i as int]]);
            lemma_split_esc_len(v@.skip(i + 1 as int), d);
            assert(first@ =~= t.take(1) + old_first);
            assert(views_of(rest@) =~= cons_front(t.take(1), split_esc(t.skip(1), d)));
            assert(views_of(rest@) =~= split_esc(t, d));
        }
        rest
    }
}

/// Splits the whole of `v` at unescaped occurrences of `d`.
pub fn split_all(v: &Vec<char>, d: char) -> (r: Vec<Vec<char>>)
    ensures
        views_of(r@) == split_esc(v@, d),
        r@.len() >= 1,
{
    let r = split_esc_exec(v, 0, d);
    proof {
        assert(v@.skip(0) =~= v@);
    }
    r
}


} // verus!
