//! Verified text utilities: string comparison, decimal rendering and
//! parsing, and the numeric-token grammar used by the boolean view.

use vstd::prelude::*;
use vstd::string::StrSliceExecFns;
use vstd::utf8::{valid_utf8, decode_utf8, encode_utf8};
use crate::error::NXError;

verus! {

/// Whether two string slices hold the same characters.
pub fn str_eq(a: &str, b: &str) -> (r: bool)
    ensures
        r == (a@ == b@),
{
    let na = a.unicode_len();
    let nb = b.unicode_len();
    if na != nb {
        return false;
    }
    let mut i: usize = 0;
    while i < na
        invariant
            na == a@.len(),
            na == b@.len(),
            0 <= i <= na,
            forall|j: int| 0 <= j < i ==> a@[j] == b@[j],
        decreases na - i,
    {
        if a.get_char(i) != b.get_char(i) {
            return false;
        }
        i += 1;
    }
    proof {
        assert(a@ =~= b@);
    }
    true
}

/// Relies on `String::from_utf8`: it succeeds exactly when the bytes are
/// valid UTF-8, and then yields their decoding.
#[verifier::external_body]
pub fn utf8_to_string(bytes: Vec<u8>) -> (r: Option<String>)
    ensures
        match r {
            Option::Some(s) => valid_utf8(bytes@) && s@ == decode_utf8(bytes@),
            Option::None => !valid_utf8(bytes@),
        },
{
    String::from_utf8(bytes).ok()
}

/// A sequence of bytes below 0x80 is valid UTF-8 and decodes to the
/// corresponding ASCII characters.
pub proof fn lemma_ascii_decode(bytes: Seq<u8>)
    requires
        forall|j: int| 0 <= j < bytes.len() ==> bytes[j] < 0x80,
    ensures
        valid_utf8(bytes),
        decode_utf8(bytes) == bytes.map_values(|b: u8| b as char),
{
    let chars = bytes.map_values(|b: u8| b as char);
    assert(vstd::utf8::is_ascii_chars(chars)) by {
        assert(forall|j: int| 0 <= j < chars.len() ==> (chars[j] as u32) < 0x80);
    }
    vstd::utf8::is_ascii_chars_encode_utf8(chars);
    assert(encode_utf8(chars) =~= bytes) by {
        assert(forall|j: int| 0 <= j < chars.len() ==> chars[j] as u8 == bytes[j]);
    }
    vstd::utf8::encode_utf8_valid_utf8(chars);
    vstd::utf8::encode_utf8_decode_utf8(chars);
}

/// The characters a byte sequence spells when every byte is ASCII.
pub open spec fn chars_of(bytes: Seq<u8>) -> Seq<char> {
    bytes.map_values(|b: u8| b as char)
}

/// Whether `c` is a decimal digit.
pub open spec fn is_digit_char(c: char) -> bool {
    48 <= c as int <= 57
}

/// The digit character for a value below ten.
pub open spec fn digit_char(d: int) -> char
    recommends
        0 <= d < 10,
{
    (48 + d) as char
}

/// The decimal digits of a nonnegative number, most significant first.
pub open spec fn dec_of(n: nat) -> Seq<char>
    decreases n,
{
    if n < 10 {
        seq![digit_char(n as int)]
    } else {
        dec_of(n / 10).push(digit_char((n % 10) as int))
    }
}

/// Decimal rendering of a signed integer: a minus sign for negatives,
/// then the digits of the magnitude.
pub open spec fn int_dec_of(i: int) -> Seq<char> {
    if i < 0 {
        seq!['-'] + dec_of((-i) as nat)
    } else {
        dec_of(i as nat)
    }
}

/// Renders an integer in decimal, exactly as [`int_dec_of`] spells it.
pub fn i64_to_string(i: i64) -> (r: String)
    ensures
        r@ == int_dec_of(i as int),
{
    let neg = i < 0;
    let mag: u64 = if i < 0 {
        (-(i as i128)) as u64
    } else {
        i as u64
    };
    let mut bytes: Vec<u8> = Vec::new();
    if mag == 0 {
        bytes.push(48);
        proof {
            assert(chars_of(bytes@) =~= dec_of(0));
        }
    } else {
        let mut m = mag;
        while m > 0
            invariant
                0 <= m <= mag,
                mag > 0,
                forall|j: int| 0 <= j < bytes@.len() ==> 48 <= #[trigger] bytes@[j] <= 57,
                m > 0 ==> dec_of(mag as nat) == dec_of(m as nat) + chars_of(bytes@),
                m == 0 ==> dec_of(mag as nat) == chars_of(bytes@),
            decreases m,
        {
            let d: u8 = 48 + (m % 10) as u8;
            let ghost old_bytes = bytes@;
            bytes.insert(0, d);
            proof {
                assert(chars_of(bytes@) =~= seq![digit_char(m as int % 10)] + chars_of(old_bytes));
                if m >= 10 {
                    assert(dec_of(m as nat) == dec_of((m as nat) / 10).push(
                        digit_char(m as int % 10),
                    ));
                    assert(dec_of((m as nat) / 10).push(digit_char(m as int % 10)) + chars_of(
                        old_bytes,
                    ) =~= dec_of((m as nat) / 10) + chars_of(bytes@));
                } else {
                    assert(dec_of(m as nat) + chars_of(old_bytes) =~= chars_of(bytes@));
                }
            }
            m = m / 10;
        }
    }
    if neg {
        let ghost old_bytes = bytes@;
        bytes.insert(0, 45);
        proof {
            assert(chars_of(bytes@) =~= seq!['-'] + chars_of(old_bytes));
        }
    }
    proof {
        lemma_ascii_decode(bytes@);
    }
    match utf8_to_string(bytes) {
        Option::Some(s) => {
            proof {
                if neg {
                    assert(mag == -(i as int));
                } else {
                    assert(mag == i as int);
                }
                assert(s@ == int_dec_of(i as int));
            }
            s
        },
        Option::None => {
            proof {
                assert(false);
            }
            String::new()
        },
    }
}

/// The sign-stripped form of an integer token.
pub open spec fn strip_sign(s: Seq<char>) -> Seq<char> {
    if s.len() > 0 && (s[0] == '+' || s[0] == '-') {
        s.drop_first()
    } else {
        s
    }
}

/// Whether `s` is a decimal integer token: an optional sign followed by one
/// or more digits.
pub open spec fn is_int_text(s: Seq<char>) -> bool {
    let t = strip_sign(s);
    t.len() > 0 && (forall|k: int| 0 <= k < t.len() ==> is_digit_char(#[trigger] t[k]))
}

/// The value spelled by a digit sequence.
pub open spec fn digits_val(t: Seq<char>) -> int
    decreases t.len(),
{
    if t.len() == 0 {
        0
    } else {
        10 * digits_val(t.drop_last()) + (t.last() as int - 48)
    }
}

/// The signed value spelled by an integer token.
pub open spec fn int_text_val(s: Seq<char>) -> int {
    if s.len() > 0 && s[0] == '-' {
        -digits_val(strip_sign(s))
    } else {
        digits_val(strip_sign(s))
    }
}

/// Ten to the power `n`.
pub open spec fn pow10(n: nat) -> int
    decreases n,
{
    if n == 0 {
        1
    } else {
        10 * pow10((n - 1) as nat)
    }
}

/// A digit sequence spells a value below ten to its length.
proof fn lemma_digits_val_bounds(t: Seq<char>)
    requires
        forall|k: int| 0 <= k < t.len() ==> is_digit_char(#[trigger] t[k]),
    ensures
        0 <= digits_val(t) < pow10(t.len()),
    decreases t.len(),
{
    if t.len() > 0 {
        lemma_digits_val_bounds(t.drop_last());
    }
}

/// A leading zero does not change the value.
proof fn lemma_digits_val_leading_zero(u: Seq<char>)
    ensures
        digits_val(seq!['0'] + u) == digits_val(u),
    decreases u.len(),
{
    if u.len() == 0 {
        assert((seq!['0'] + u) =~= seq!['0']);
        assert(seq!['0'].drop_last() =~= Seq::<char>::empty());
        assert(digits_val(Seq::<char>::empty()) == 0);
        assert(u =~= Seq::<char>::empty());
    } else {
        assert((seq!['0'] + u).drop_last() =~= seq!['0'] + u.drop_last());
        lemma_digits_val_leading_zero(u.drop_last());
    }
}

/// Stripping any run of leading zeros does not change the value.
proof fn lemma_digits_val_skip_zeros(t: Seq<char>, z: int)
    requires
        0 <= z <= t.len(),
        forall|k: int| 0 <= k < z ==> #[trigger] t[k] == '0',
    ensures
        digits_val(t) == digits_val(t.skip(z)),
    decreases z,
{
    if z > 0 {
        let u = t.skip(1);
        assert(t =~= seq!['0'] + u);
        lemma_digits_val_leading_zero(u);
        lemma_digits_val_skip_zeros(u, z - 1);
        assert(u.skip(z - 1) =~= t.skip(z));
    } else {
        assert(t.skip(0) =~= t);
    }
}

/// A digit sequence with a nonzero leading digit spells at least ten to the
/// power of its remaining length.
proof fn lemma_digits_val_lower(t: Seq<char>)
    requires
        t.len() > 0,
        forall|k: int| 0 <= k < t.len() ==> is_digit_char(#[trigger] t[k]),
        t[0] != '0',
    ensures
        digits_val(t) >= pow10((t.len() - 1) as nat),
    decreases t.len(),
{
    if t.len() == 1 {
        assert(t.last() == t[0]);
        assert(is_digit_char(t[0]));
        assert(t[0] as int - 48 >= 1);
        assert(t.drop_last() =~= Seq::<char>::empty());
        assert(digits_val(Seq::<char>::empty()) == 0);
    } else {
        assert(t.drop_last()[0] == t[0]);
        assert(is_digit_char(t.last()));
        lemma_digits_val_lower(t.drop_last());
    }
}

/// Parses a decimal integer: an optional sign followed by one or more
/// digits. Any other shape, or a value outside the `i64` range, is a
/// `ParseError`.
#[verifier::loop_isolation(false)]
#[verifier::rlimit(80)]
pub fn parse_i64(s: &str) -> (r: Result<i64, NXError>)
    ensures
        match r {
            Ok(v) => is_int_text(s@) && i64::MIN <= int_text_val(s@) <= i64::MAX && v
                == int_text_val(s@),
            Err(e) => e == NXError::ParseError && (!is_int_text(s@) || !(i64::MIN <= int_text_val(
                s@,
            ) <= i64::MAX)),
        },
{
    let n = s.unicode_len();
    if n == 0 {
        return Err(NXError::ParseError);
    }
    let c0 = s.get_char(0);
    let neg = c0 == '-';
    let start: usize = if c0 == '-' || c0 == '+' {
        1
    } else {
        0
    };
    let ghost t = strip_sign(s@);
    proof {
        assert(t =~= s@.skip(start as int));
    }
    if start == n {
        // a bare sign has no digits
        return Err(NXError::ParseError);
    }
    // every character after the sign must be a digit
    let mut k = start;
    while k < n
        invariant
            n == s@.len(),
            start <= k <= n,
            forall|j: int| start <= j < k ==> is_digit_char(#[trigger] s@[j]),
        decreases n - k,
    {
        let c = s.get_char(k);
        if !(c >= '0' && c <= '9') {
            proof {
                assert(!is_digit_char(s@[k as int]));
                assert(t[k - start] == s@[k as int]);
            }
            return Err(NXError::ParseError);
        }
        k += 1;
    }
    proof {
        assert(forall|j: int|
            0 <= j < t.len() ==> is_digit_char(#[trigger] t[j]) && t[j] == s@[j + start]);
        assert(is_int_text(s@));
    }
    // skip leading zeros so the significant length is meaningful
    let mut z = start;
    while z < n && s.get_char(z) == '0'
        invariant
            n == s@.len(),
            start <= z <= n,
            forall|j: int| start <= j < z ==> #[trigger] s@[j] == '0',
        decreases n - z,
    {
        z += 1;
    }
    let ghost sig = s@.skip(z as int);
    proof {
        lemma_digits_val_skip_zeros(t, z - start);
        assert(t.skip(z - start) =~= sig);
        assert(digits_val(t) == digits_val(sig));
        assert(forall|j: int| 0 <= j < sig.len() ==> is_digit_char(#[trigger] sig[j]));
    }
    if n - z > 19 {
        // at least twenty significant digits exceed any i64
        proof {
            assert(sig[0] != '0');
            lemma_digits_val_lower(sig);
            assert(pow10((sig.len() - 1) as nat) >= pow10(19)) by {
                lemma_pow10_monotone(19, (sig.len() - 1) as nat);
            }
            assert(pow10(19) == 10_000_000_000_000_000_000) by {
                reveal_with_fuel(pow10, 21);
            }
        }
        return Err(NXError::ParseError);
    }
    let mut acc: u64 = 0;
    let mut k2 = z;
    while k2 < n
        invariant
            n == s@.len(),
            z <= k2 <= n,
            n - z <= 19,
            sig == s@.skip(z as int),
            forall|j: int| 0 <= j < sig.len() ==> is_digit_char(#[trigger] sig[j]),
            forall|j: int| z <= j < n ==> is_digit_char(#[trigger] s@[j]),
            acc == digits_val(sig.take(k2 - z)),
            acc < pow10((k2 - z) as nat),
        decreases n - k2,
    {
        let c = s.get_char(k2);
        let d: u64 = (c as u32 as u64) - 48;
        proof {
            assert(is_digit_char(s@[k2 as int]));
            assert(pow10((k2 - z) as nat) <= pow10(18)) by {
                lemma_pow10_monotone((k2 - z) as nat, 18);
            }
            assert(pow10(18) == 1_000_000_000_000_000_000) by {
                reveal_with_fuel(pow10, 20);
            }
            let taken = sig.take(k2 - z + 1);
            assert(taken.drop_last() =~= sig.take(k2 - z));
            assert(taken.last() == sig[k2 - z]);
            assert(sig[k2 - z] == s@[k2 as int]);
        }
        acc = acc * 10 + d;
        k2 += 1;
    }
    proof {
        assert(sig.take(n - z) =~= sig);
        assert(acc == digits_val(sig));
        assert(acc == digits_val(t));
        lemma_digits_val_bounds(t);
    }
    if neg {
        if acc > 9_223_372_036_854_775_808u64 {
            return Err(NXError::ParseError);
        }
        Ok((-(acc as i128)) as i64)
    } else {
        if acc > 9_223_372_036_854_775_807u64 {
            return Err(NXError::ParseError);
        }
        Ok(acc as i64)
    }
}

/// The end of the run of decimal digits starting at position `i`.
pub open spec fn digits_end(s: Seq<char>, i: int) -> int
    decreases s.len() - i,
    when 0 <= i <= s.len()
{
    if i < s.len() && is_digit_char(s[i]) {
        digits_end(s, i + 1)
    } else {
        i
    }
}

proof fn lemma_digits_end(s: Seq<char>, i: int)
    requires
        0 <= i <= s.len(),
    ensures
        i <= digits_end(s, i) <= s.len(),
        forall|k: int| i <= k < digits_end(s, i) ==> is_digit_char(#[trigger] s[k]),
        digits_end(s, i) < s.len() ==> !is_digit_char(s[digits_end(s, i)]),
    decreases s.len() - i,
{
    if i < s.len() && is_digit_char(s[i]) {
        lemma_digits_end(s, i + 1);
    }
}

/// One past the sign character, when the token starts with one.
pub open spec fn sign_end(s: Seq<char>) -> int {
    if s.len() > 0 && (s[0] == '+' || s[0] == '-') {
        1
    } else {
        0
    }
}

/// An infinity token, case-insensitive: "inf" or "infinity".
pub open spec fn is_inf_token(t: Seq<char>) -> bool {
    ||| (t.len() == 3 && (t[0] == 'i' || t[0] == 'I') && (t[1] == 'n' || t[1] == 'N') && (t[2]
        == 'f' || t[2] == 'F'))
    ||| (t.len() == 8 && (t[0] == 'i' || t[0] == 'I') && (t[1] == 'n' || t[1] == 'N') && (t[2]
        == 'f' || t[2] == 'F') && (t[3] == 'i' || t[3] == 'I') && (t[4] == 'n' || t[4] == 'N') && (
    t[5] == 'i' || t[5] == 'I') && (t[6] == 't' || t[6] == 'T') && (t[7] == 'y' || t[7] == 'Y'))
}

/// A not-a-number token, case-insensitive: "nan".
pub open spec fn is_nan_token(t: Seq<char>) -> bool {
    t.len() == 3 && (t[0] == 'n' || t[0] == 'N') && (t[1] == 'a' || t[1] == 'A') && (t[2] == 'n'
        || t[2] == 'N')
}

/// The end of a mantissa starting at `i0` — digits with at most one point,
/// at least one digit — or -1 when no valid mantissa starts there.
pub open spec fn mantissa_end(s: Seq<char>, i0: int) -> int
    recommends
        0 <= i0 <= s.len(),
{
    let d1 = digits_end(s, i0);
    if d1 > i0 {
        if d1 < s.len() && s[d1] == '.' {
            digits_end(s, d1 + 1)
        } else {
            d1
        }
    } else if i0 < s.len() && s[i0] == '.' && digits_end(s, i0 + 1) > i0 + 1 {
        digits_end(s, i0 + 1)
    } else {
        -1
    }
}

/// Whether the token ends at `j`, or continues there with a well-formed
/// exponent part: 'e' or 'E', an optional sign, one or more digits.
pub open spec fn exp_ok(s: Seq<char>, j: int) -> bool
    recommends
        0 <= j <= s.len(),
{
    if j == s.len() {
        true
    } else if s[j] == 'e' || s[j] == 'E' {
        let k = if j + 1 < s.len() && (s[j + 1] == '+' || s[j + 1] == '-') {
            j + 2
        } else {
            j + 1
        };
        k < s.len() && digits_end(s, k) == s.len()
    } else {
        false
    }
}

/// Whether `s` reads as a number: an optional sign, then an infinity or
/// not-a-number token, or a mantissa with an optional exponent.
pub open spec fn is_numeric_text(s: Seq<char>) -> bool {
    let i0 = sign_end(s);
    ||| is_inf_token(s.skip(i0))
    ||| is_nan_token(s.skip(i0))
    ||| (mantissa_end(s, i0) >= 0 && exp_ok(s, mantissa_end(s, i0)))
}

/// Whether a numeric token spells zero: every mantissa digit is '0'.
/// Infinities and not-a-number tokens never spell zero.
pub open spec fn numeric_is_zero(s: Seq<char>) -> bool
    recommends
        is_numeric_text(s),
{
    let i0 = sign_end(s);
    if is_inf_token(s.skip(i0)) || is_nan_token(s.skip(i0)) {
        false
    } else {
        forall|k: int|
            i0 <= k < mantissa_end(s, i0) && is_digit_char(#[trigger] s[k]) ==> s[k] == '0'
    }
}

/// The boolean reading of a text value: a numeric token is true exactly
/// when it spells a nonzero number; any other text is true exactly when it
/// equals the literal token "true".
pub open spec fn text_truth(s: Seq<char>) -> bool {
    if is_numeric_text(s) {
        !numeric_is_zero(s)
    } else {
        s == seq!['t', 'r', 'u', 'e']
    }
}

/// Scans the run of decimal digits starting at `i`.
#[verifier::loop_isolation(false)]
fn digits_end_exec(s: &str, i: usize) -> (r: usize)
    requires
        i <= s@.len(),
    ensures
        r == digits_end(s@, i as int),
        i <= r <= s@.len(),
{
    proof {
        lemma_digits_end(s@, i as int);
    }
    let n = s.unicode_len();
    let mut k = i;
    while k < n
        invariant
            i <= k <= n,
            digits_end(s@, i as int) == digits_end(s@, k as int),
        decreases n - k,
    {
        let c = s.get_char(k);
        let cu = c as u32;
        if !(48 <= cu && cu <= 57) {
            return k;
        }
        k += 1;
    }
    k
}

/// Evaluates the boolean reading of a text value.
#[verifier::loop_isolation(false)]
#[verifier::rlimit(80)]
pub fn text_truth_exec(s: &str) -> (r: bool)
    ensures
        r == text_truth(s@),
{
    let n = s.unicode_len();
    let mut i0: usize = 0;
    if n > 0 {
        let c = s.get_char(0);
        if c == '+' || c == '-' {
            i0 = 1;
        }
    }
    proof {
        assert(i0 == sign_end(s@));
    }
    // an infinity or not-a-number token is a nonzero number
    if is_word_token(s, i0) {
        return true;
    }
    let d1 = digits_end_exec(s, i0);
    let mut has_mantissa = false;
    let mut me: usize = 0;
    if d1 > i0 {
        has_mantissa = true;
        if d1 < n && s.get_char(d1) == '.' {
            me = digits_end_exec(s, d1 + 1);
        } else {
            me = d1;
        }
    } else if i0 < n && s.get_char(i0) == '.' {
        let d2 = digits_end_exec(s, i0 + 1);
        if d2 > i0 + 1 {
            has_mantissa = true;
            me = d2;
        }
    }
    if !has_mantissa {
        proof {
            assert(mantissa_end(s@, i0 as int) == -1);
            assert(!is_numeric_text(s@));
        }
        return literal_true(s);
    }
    proof {
        assert(me == mantissa_end(s@, i0 as int));
    }
    // exponent part
    let mut ok_exp = false;
    if me == n {
        ok_exp = true;
    } else {
        let c = s.get_char(me);
        if c == 'e' || c == 'E' {
            let mut k = me + 1;
            if me + 1 < n {
                let cs = s.get_char(me + 1);
                if cs == '+' || cs == '-' {
                    k = me + 2;
                }
            }
            if k < n && digits_end_exec(s, k) == n {
                ok_exp = true;
            }
        }
    }
    if !ok_exp {
        proof {
            assert(!exp_ok(s@, me as int));
            assert(!is_numeric_text(s@));
        }
        return literal_true(s);
    }
    proof {
        assert(is_numeric_text(s@));
    }
    // the number is zero exactly when every mantissa digit is '0'
    let mut k = i0;
    while k < me
        invariant
            i0 <= k <= me,
            me <= n,
            n == s@.len(),
            forall|j: int|
                i0 <= j < k && is_digit_char(#[trigger] s@[j]) ==> s@[j] == '0',
        decreases me - k,
    {
        let c = s.get_char(k);
        let cu = c as u32;
        if 48 <= cu && cu <= 57 && cu != 48 {
            proof {
                assert(is_digit_char(s@[k as int]) && s@[k as int] != '0');
                assert(!numeric_is_zero(s@));
            }
            return true;
        }
        k += 1;
    }
    proof {
        assert(numeric_is_zero(s@));
    }
    false
}

/// Whether the characters from `i0` on form an infinity or not-a-number
/// token.
#[verifier::loop_isolation(false)]
fn is_word_token(s: &str, i0: usize) -> (r: bool)
    requires
        i0 <= s@.len(),
    ensures
        r == (is_inf_token(s@.skip(i0 as int)) || is_nan_token(s@.skip(i0 as int))),
{
    let n = s.unicode_len();
    let rest = n - i0;
    if rest == 3 {
        let c0 = s.get_char(i0);
        let c1 = s.get_char(i0 + 1);
        let c2 = s.get_char(i0 + 2);
        ((c0 == 'i' || c0 == 'I') && (c1 == 'n' || c1 == 'N') && (c2 == 'f' || c2 == 'F')) || ((c0
            == 'n' || c0 == 'N') && (c1 == 'a' || c1 == 'A') && (c2 == 'n' || c2 == 'N'))
    } else if rest == 8 {
        let c0 = s.get_char(i0);
        let c1 = s.get_char(i0 + 1);
        let c2 = s.get_char(i0 + 2);
        let c3 = s.get_char(i0 + 3);
        let c4 = s.get_char(i0 + 4);
        let c5 = s.get_char(i0 + 5);
        let c6 = s.get_char(i0 + 6);
        let c7 = s.get_char(i0 + 7);
        (c0 == 'i' || c0 == 'I') && (c1 == 'n' || c1 == 'N') && (c2 == 'f' || c2 == 'F') && (c3
            == 'i' || c3 == 'I') && (c4 == 'n' || c4 == 'N') && (c5 == 'i' || c5 == 'I') && (c6
            == 't' || c6 == 'T') && (c7 == 'y' || c7 == 'Y')
    } else {
        false
    }
}

/// Whether `s` is exactly the literal token "true".
fn literal_true(s: &str) -> (r: bool)
    ensures
        r == (s@ == seq!['t', 'r', 'u', 'e']),
{
    proof {
        reveal_strlit("true");
        assert("true"@ =~= seq!['t', 'r', 'u', 'e']);
    }
    str_eq(s, "true")
}

/// Ten to a larger power is at least ten to a smaller one.
proof fn lemma_pow10_monotone(a: nat, b: nat)
    requires
        a <= b,
    ensures
        pow10(a) <= pow10(b),
        pow10(a) >= 1,
    decreases b,
{
    if b > 0 {
        if a == b {
            lemma_pow10_monotone((a - 1) as nat, (b - 1) as nat);
        } else {
            lemma_pow10_monotone(a, (b - 1) as nat);
        }
    }
}

} // verus!
