//! Decimal text: the textual numbers that appear in the event stream and the
//! life-bar curve.
//!
//! Integer fields are parsed and printed exactly as Rust's integer `from_str`
//! and `Display` do. Coordinate and life values are kept as their decimal
//! source text; their numeric meaning is the exact decimal value of that text.

use vstd::prelude::*;

verus! {

pub const CH_PLUS: u8 = 43;
pub const CH_COMMA: u8 = 44;
pub const CH_MINUS: u8 = 45;
pub const CH_DOT: u8 = 46;
pub const CH_ZERO: u8 = 48;
pub const CH_NINE: u8 = 57;
pub const CH_PIPE: u8 = 124;

pub open spec fn is_digit(b: u8) -> bool {
    CH_ZERO <= b <= CH_NINE
}

pub open spec fn all_digits(s: Seq<u8>) -> bool {
    forall|i: int| 0 <= i < s.len() ==> is_digit(#[trigger] s[i])
}

/// The integer denoted by a string of decimal digits (most significant first).
pub open spec fn digits_value(s: Seq<u8>) -> int
    decreases s.len(),
{
    if s.len() == 0 {
        0
    } else {
        digits_value(s.drop_last()) * 10 + (s.last() - CH_ZERO)
    }
}

/// Splits an optional leading sign from a numeric text: returns the sign
/// (`-1` or `1`) and the unsigned remainder.
pub open spec fn split_sign(s: Seq<u8>) -> (int, Seq<u8>) {
    if s.len() > 0 && s[0] == CH_MINUS {
        (-1, s.skip(1))
    } else if s.len() > 0 && s[0] == CH_PLUS {
        (1, s.skip(1))
    } else {
        (1, s)
    }
}

/// The texts accepted by Rust's signed integer `from_str`: an optional sign
/// followed by one or more digits.
pub open spec fn is_int_text(s: Seq<u8>) -> bool {
    let (_, mag) = split_sign(s);
    mag.len() > 0 && all_digits(mag)
}

/// The signed value denoted by an integer text.
pub open spec fn int_text_value(s: Seq<u8>) -> int {
    let (sign, mag) = split_sign(s);
    sign * digits_value(mag)
}

/// What `i32::from_str` returns on the bytes `s`.
pub open spec fn spec_parse_i32(s: Seq<u8>) -> Option<i32> {
    if is_int_text(s) && i32::MIN <= int_text_value(s) <= i32::MAX {
        Some(int_text_value(s) as i32)
    } else {
        None
    }
}

/// What `u32::from_str` returns on the bytes `s`; a minus sign is refused,
/// `-0` included, while a plus sign is allowed.
pub open spec fn spec_parse_u32(s: Seq<u8>) -> Option<u32> {
    let mag = if s.len() > 0 && s[0] == CH_PLUS {
        s.skip(1)
    } else {
        s
    };
    if mag.len() > 0 && all_digits(mag) && digits_value(mag) <= u32::MAX {
        Some(digits_value(mag) as u32)
    } else {
        None
    }
}

pub proof fn lemma_digits_value_nonneg(s: Seq<u8>)
    requires
        all_digits(s),
    ensures
        digits_value(s) >= 0,
    decreases s.len(),
{
    if s.len() > 0 {
        assert(all_digits(s.drop_last())) by {
            assert(forall|i: int| 0 <= i < s.len() - 1 ==> is_digit(#[trigger] s.drop_last()[i]));
        }
        lemma_digits_value_nonneg(s.drop_last());
    }
}

proof fn lemma_digits_value_grows(s: Seq<u8>, i: int)
    requires
        all_digits(s),
        0 <= i <= s.len(),
    ensures
        digits_value(s.take(i)) <= digits_value(s),
    decreases s.len() - i,
{
    if i < s.len() {
        assert(all_digits(s.take(i + 1))) by {
            assert(forall|j: int| 0 <= j < i + 1 ==> is_digit(#[trigger] s.take(i + 1)[j]));
        }
        assert(s.take(i + 1).drop_last() =~= s.take(i));
        assert(digits_value(s.take(i + 1)) == digits_value(s.take(i)) * 10 + (s[i] - CH_ZERO));
        lemma_digits_value_nonneg(s.take(i));
        lemma_digits_value_grows(s, i + 1);
    } else {
        assert(s.take(i) =~= s);
    }
}

/// Parses an unsigned run of digits, `None` on a non-digit, an empty run, or a
/// value above `bound`.
fn parse_digits_bounded(s: &[u8], from: usize, bound: u64) -> (r: Option<u64>)
    requires
        from <= s@.len(),
        bound <= 0xffff_ffff,
    ensures
        ({
            let mag = s@.skip(from as int);
            match r {
                Some(v) => mag.len() > 0 && all_digits(mag) && v == digits_value(mag) && v
                    <= bound,
                None => mag.len() == 0 || !all_digits(mag) || digits_value(mag) > bound,
            }
        }),
{
    let ghost mag = s@.skip(from as int);
    if from == s.len() {
        return None;
    }
    let mut acc: u64 = 0;
    let mut i: usize = from;
    while i < s.len()
        invariant
            from <= i <= s@.len(),
            mag == s@.skip(from as int),
            all_digits(mag.take(i - from)),
            acc == digits_value(mag.take(i - from)),
            acc <= bound,
            bound <= 0xffff_ffff,
        decreases s@.len() - i,
    {
        let b = s[i];
        if b < CH_ZERO || b > CH_NINE {
            assert(!is_digit(mag[i - from]));
            return None;
        }
        proof {
            assert(mag.take(i - from + 1).drop_last() =~= mag.take(i - from));
            assert(mag.take(i - from + 1).last() == mag[i - from]);
        }
        let next: u64 = acc * 10 + ((b - CH_ZERO) as u64);
        if next > bound {
            proof {
                assert(digits_value(mag.take(i - from + 1)) == next);
                if all_digits(mag) {
                    assert(forall|j: int| 0 <= j < i - from + 1 ==> is_digit(
                        #[trigger] mag.take(i - from + 1)[j],
                    ));
                    lemma_digits_value_grows(mag, i - from + 1);
                }
            }
            return None;
        }
        acc = next;
        i = i + 1;
        proof {
            assert(forall|j: int| 0 <= j < i - from ==> is_digit(#[trigger] mag.take(i - from)[j]));
        }
    }
    proof {
        assert(mag.take(i - from) =~= mag);
    }
    Some(acc)
}

/// What `i32::from_str` returns, on raw bytes.
pub fn parse_i32_bytes(s: &[u8]) -> (r: Option<i32>)
    ensures
        r == spec_parse_i32(s@),
{
    let ghost sign_mag = split_sign(s@);
    if s.len() == 0 {
        return None;
    }
    let negative: bool = s[0] == CH_MINUS;
    let from: usize = if s[0] == CH_MINUS || s[0] == CH_PLUS {
        1
    } else {
        0
    };
    let bound: u64 = if negative {
        0x8000_0000
    } else {
        0x7fff_ffff
    };
    proof {
        assert(sign_mag.1 == s@.skip(from as int));
        if all_digits(sign_mag.1) {
            lemma_digits_value_nonneg(sign_mag.1);
        }
    }
    let res = parse_digits_bounded(s, from, bound);
    proof {
        let mag = sign_mag.1;
        match res {
            Some(v) => {
                assert(is_int_text(s@));
                if negative {
                    assert(sign_mag.0 == -1);
                    assert(int_text_value(s@) == (-1) * digits_value(mag));
                    assert(int_text_value(s@) == -digits_value(mag)) by (nonlinear_arith)
                        requires int_text_value(s@) == (-1) * digits_value(mag);
                } else {
                    assert(sign_mag.0 == 1);
                    assert(int_text_value(s@) == digits_value(mag));
                }
            },
            None => {
                if mag.len() > 0 && all_digits(mag) {
                    assert(digits_value(mag) > bound);
                    if negative {
                        assert(sign_mag.0 == -1);
                        assert(int_text_value(s@) == (-1) * digits_value(mag));
                        assert(int_text_value(s@) == -digits_value(mag)) by (nonlinear_arith)
                            requires int_text_value(s@) == (-1) * digits_value(mag);
                        assert(int_text_value(s@) < i32::MIN);
                    } else {
                        assert(sign_mag.0 == 1);
                        assert(int_text_value(s@) == digits_value(mag));
                        assert(int_text_value(s@) > i32::MAX);
                    }
                } else {
                    assert(!is_int_text(s@));
                }
            },
        }
    }
    match res {
        None => None,
        Some(v) => {
            if negative {
                Some((-(v as i64)) as i32)
            } else {
                Some(v as i32)
            }
        },
    }
}

/// What `u32::from_str` returns, on raw bytes.
pub fn parse_u32_bytes(s: &[u8]) -> (r: Option<u32>)
    ensures
        r == spec_parse_u32(s@),
{
    if s.len() == 0 {
        return None;
    }
    let from: usize = if s[0] == CH_PLUS {
        1
    } else {
        0
    };
    let ghost mag = if s@[0] == CH_PLUS {
        s@.skip(1)
    } else {
        s@
    };
    proof {
        assert(mag == s@.skip(from as int));
        if all_digits(mag) {
            lemma_digits_value_nonneg(mag);
        }
    }
    match parse_digits_bounded(s, from, 0xffff_ffff) {
        None => None,
        Some(v) => Some(v as u32),
    }
}

pub const CH_UPPER_A: u8 = 65;
pub const CH_UPPER_Z: u8 = 90;
pub const CH_UPPER_E: u8 = 69;
pub const CH_LOWER_E: u8 = 101;

/// ASCII lower-casing of one byte.
pub open spec fn lower_byte(b: u8) -> u8 {
    if CH_UPPER_A <= b <= CH_UPPER_Z {
        (b + 32) as u8
    } else {
        b
    }
}

pub open spec fn lower_bytes(s: Seq<u8>) -> Seq<u8> {
    s.map_values(|b: u8| lower_byte(b))
}

pub open spec fn seq_inf() -> Seq<u8> {
    seq![105u8, 110u8, 102u8]
}

pub open spec fn seq_infinity() -> Seq<u8> {
    seq![105u8, 110u8, 102u8, 105u8, 110u8, 105u8, 116u8, 121u8]
}

pub open spec fn seq_nan() -> Seq<u8> {
    seq![110u8, 97u8, 110u8]
}

/// The special words of Rust's float grammar: `inf`, `infinity` and `nan`,
/// case-insensitive.
pub open spec fn is_special_mag(m: Seq<u8>) -> bool {
    lower_bytes(m) == seq_inf() || lower_bytes(m) == seq_infinity() || lower_bytes(m) == seq_nan()
}

/// Index of the first of `d1`/`d2` in `s`, or `s.len()` if neither occurs.
pub open spec fn find_first(s: Seq<u8>, d1: u8, d2: u8) -> int
    decreases s.len(),
{
    if s.len() == 0 {
        0
    } else if s[0] == d1 || s[0] == d2 {
        0
    } else {
        1 + find_first(s.skip(1), d1, d2)
    }
}

pub proof fn lemma_find_first(s: Seq<u8>, d1: u8, d2: u8)
    ensures
        0 <= find_first(s, d1, d2) <= s.len(),
        find_first(s, d1, d2) < s.len() ==> (s[find_first(s, d1, d2)] == d1 || s[find_first(
            s,
            d1,
            d2,
        )] == d2),
        forall|i: int| 0 <= i < find_first(s, d1, d2) ==> s[i] != d1 && s[i] != d2,
    decreases s.len(),
{
    if s.len() > 0 && s[0] != d1 && s[0] != d2 {
        lemma_find_first(s.skip(1), d1, d2);
        assert forall|i: int| 0 <= i < find_first(s, d1, d2) implies s[i] != d1 && s[i] != d2 by {
            if i >= 1 {
                assert(s[i] == s.skip(1)[i - 1]);
            }
        }
    }
}

/// If nothing before `i` matches and `i` is a match or the end, then `i` is
/// the first match.
pub proof fn lemma_find_first_at(s: Seq<u8>, d1: u8, d2: u8, i: int)
    requires
        0 <= i <= s.len(),
        forall|j: int| 0 <= j < i ==> s[j] != d1 && s[j] != d2,
        i < s.len() ==> (s[i] == d1 || s[i] == d2),
    ensures
        find_first(s, d1, d2) == i,
    decreases s.len(),
{
    if s.len() > 0 && i > 0 {
        assert(forall|j: int| 0 <= j < i - 1 ==> s.skip(1)[j] != d1 && s.skip(1)[j] != d2);
        lemma_find_first_at(s.skip(1), d1, d2, i - 1);
    }
}

/// The mantissa of Rust's float grammar: `digits`, `digits '.' digits?`, or
/// `digits? '.' digits`.
pub open spec fn is_mantissa(m: Seq<u8>) -> bool {
    let di = find_first(m, CH_DOT, CH_DOT);
    if di == m.len() {
        m.len() > 0 && all_digits(m)
    } else {
        let ipart = m.take(di);
        let fpart = m.skip(di + 1);
        all_digits(ipart) && all_digits(fpart) && ipart.len() + fpart.len() > 0
    }
}

/// The exponent of Rust's float grammar: an optional sign then digits.
pub open spec fn is_exp_text(e: Seq<u8>) -> bool {
    let (_, d) = split_sign(e);
    d.len() > 0 && all_digits(d)
}

/// A number magnitude: a mantissa, optionally followed by `e`/`E` and an
/// exponent.
pub open spec fn is_number_mag(m: Seq<u8>) -> bool {
    let ei = find_first(m, CH_LOWER_E, CH_UPPER_E);
    if ei == m.len() {
        is_mantissa(m)
    } else {
        is_mantissa(m.take(ei)) && is_exp_text(m.skip(ei + 1))
    }
}

/// The texts accepted by Rust's `f32`-style `from_str`: an optional sign, then
/// a special word or a number.
pub open spec fn is_float_text(s: Seq<u8>) -> bool {
    let (_, m) = split_sign(s);
    is_special_mag(m) || is_number_mag(m)
}

/// A float text in number form (neither an infinity word nor `nan`).
pub open spec fn is_number_text(s: Seq<u8>) -> bool {
    let (_, m) = split_sign(s);
    is_number_mag(m)
}

/// The parts of a number text: sign, integral-and-fraction digits run,
/// fraction length, exponent value.
pub open spec fn number_parts(s: Seq<u8>) -> (int, Seq<u8>, int, int) {
    let (sg, m) = split_sign(s);
    let ei = find_first(m, CH_LOWER_E, CH_UPPER_E);
    let mant = m.take(ei);
    let e = if ei == m.len() {
        0
    } else {
        int_text_value(m.skip(ei + 1))
    };
    let di = find_first(mant, CH_DOT, CH_DOT);
    if di == mant.len() {
        (sg, mant, 0, e)
    } else {
        (sg, mant.take(di) + mant.skip(di + 1), mant.len() - di - 1, e)
    }
}

pub open spec fn pow10(k: nat) -> int
    decreases k,
{
    if k == 0 {
        1
    } else {
        10 * pow10((k - 1) as nat)
    }
}

/// A number text whose exact decimal value is an integer.
pub open spec fn dec_int_valued(s: Seq<u8>) -> bool {
    is_number_text(s) && {
        let (sg, ifd, fl, e) = number_parts(s);
        e - fl >= 0 || digits_value(ifd) % pow10((fl - e) as nat) == 0
    }
}

/// The exact decimal value of an integer-valued number text.
pub open spec fn dec_int_value(s: Seq<u8>) -> int {
    let (sg, ifd, fl, e) = number_parts(s);
    if e - fl >= 0 {
        sg * (digits_value(ifd) * pow10((e - fl) as nat))
    } else {
        sg * (digits_value(ifd) / pow10((fl - e) as nat))
    }
}

/// The exact decimal value of `s` is the integer `k`.
pub open spec fn dec_value_is(s: Seq<u8>, k: int) -> bool {
    dec_int_valued(s) && dec_int_value(s) == k
}

proof fn lemma_pow10_pos(k: nat)
    ensures
        pow10(k) >= 1,
    decreases k,
{
    if k > 0 {
        lemma_pow10_pos((k - 1) as nat);
    }
}

proof fn lemma_pow10_mono(a: nat, b: nat)
    requires
        a <= b,
    ensures
        pow10(a) <= pow10(b),
    decreases b,
{
    if a < b {
        lemma_pow10_mono(a, (b - 1) as nat);
        lemma_pow10_pos((b - 1) as nat);
    }
}

proof fn lemma_digits_concat(a: Seq<u8>, b: Seq<u8>)
    ensures
        digits_value(a + b) == digits_value(a) * pow10(b.len()) + digits_value(b),
    decreases b.len(),
{
    if b.len() == 0 {
        assert(a + b =~= a);
    } else {
        lemma_digits_concat(a, b.drop_last());
        assert((a + b).drop_last() =~= a + b.drop_last());
        assert((a + b).last() == b.last());
        assert(digits_value(a + b) == digits_value(a + b.drop_last()) * 10 + (b.last() - CH_ZERO));
        assert((digits_value(a) * pow10((b.len() - 1) as nat) + digits_value(b.drop_last())) * 10
            == digits_value(a) * (10 * pow10((b.len() - 1) as nat)) + digits_value(b.drop_last())
            * 10) by (nonlinear_arith);
    }
}

proof fn lemma_digits_upper(s: Seq<u8>)
    requires
        all_digits(s),
    ensures
        0 <= digits_value(s) < pow10(s.len()),
    decreases s.len(),
{
    if s.len() == 0 {
    } else {
        assert(all_digits(s.drop_last())) by {
            assert(forall|i: int| 0 <= i < s.len() - 1 ==> is_digit(#[trigger] s.drop_last()[i]));
        }
        lemma_digits_upper(s.drop_last());
    }
}

proof fn lemma_digits_zero_iff(s: Seq<u8>)
    requires
        all_digits(s),
    ensures
        (digits_value(s) == 0) <==> (forall|i: int| 0 <= i < s.len() ==> s[i] == CH_ZERO),
    decreases s.len(),
{
    if s.len() > 0 {
        assert(all_digits(s.drop_last())) by {
            assert(forall|i: int| 0 <= i < s.len() - 1 ==> is_digit(#[trigger] s.drop_last()[i]));
        }
        lemma_digits_zero_iff(s.drop_last());
        lemma_digits_value_nonneg(s.drop_last());
        if digits_value(s) == 0 {
            assert(digits_value(s.drop_last()) == 0 && s.last() == CH_ZERO);
            assert(forall|i: int| 0 <= i < s.len() - 1 ==> #[trigger] s[i] == s.drop_last()[i]);
        } else {
            if forall|i: int| 0 <= i < s.len() ==> s[i] == CH_ZERO {
                assert(forall|i: int|
                    0 <= i < s.len() - 1 ==> #[trigger] s.drop_last()[i] == s[i]);
                assert(s.last() == CH_ZERO);
            }
        }
    }
}

proof fn lemma_digits_skip_zeros(s: Seq<u8>, z: int)
    requires
        all_digits(s),
        0 <= z <= s.len(),
        forall|i: int| 0 <= i < z ==> s[i] == CH_ZERO,
    ensures
        digits_value(s) == digits_value(s.skip(z)),
{
    let a = s.take(z);
    let b = s.skip(z);
    assert(s =~= a + b);
    lemma_digits_concat(a, b);
    assert(all_digits(a)) by {
        assert(forall|i: int| 0 <= i < z ==> is_digit(#[trigger] a[i]));
    }
    assert(forall|i: int| 0 <= i < z ==> #[trigger] a[i] == CH_ZERO);
    lemma_digits_zero_iff(a);
    assert(digits_value(a) == 0);
}

proof fn lemma_digits_lower(s: Seq<u8>)
    requires
        all_digits(s),
        s.len() > 0,
        s[0] != CH_ZERO,
    ensures
        digits_value(s) >= pow10((s.len() - 1) as nat),
    decreases s.len(),
{
    if s.len() == 1 {
        assert(digits_value(s) == digits_value(s.drop_last()) * 10 + (s.last() - CH_ZERO));
    } else {
        assert(all_digits(s.drop_last())) by {
            assert(forall|i: int| 0 <= i < s.len() - 1 ==> is_digit(#[trigger] s.drop_last()[i]));
        }
        lemma_digits_lower(s.drop_last());
    }
}

proof fn lemma_digits_split_mod(s: Seq<u8>, q: nat)
    requires
        all_digits(s),
        q <= s.len(),
    ensures
        digits_value(s) % pow10(q) == digits_value(s.skip(s.len() - q)),
        digits_value(s) / pow10(q) == digits_value(s.take(s.len() - q)),
{
    let a = s.take(s.len() - q);
    let b = s.skip(s.len() - q);
    assert(s =~= a + b);
    lemma_digits_concat(a, b);
    assert(all_digits(b)) by {
        assert(forall|i: int| 0 <= i < b.len() ==> is_digit(#[trigger] b[i]));
    }
    assert(all_digits(a)) by {
        assert(forall|i: int| 0 <= i < a.len() ==> is_digit(#[trigger] a[i]));
    }
    lemma_digits_upper(b);
    lemma_digits_value_nonneg(a);
    lemma_pow10_pos(q);
    vstd::arithmetic::div_mod::lemma_fundamental_div_mod_converse(
        digits_value(s),
        pow10(q),
        digits_value(a),
        digits_value(b),
    );
}

/// Whether every byte of `s[from..to]` is a decimal digit.
pub(crate) fn all_digits_in(s: &[u8], from: usize, to: usize) -> (r: bool)
    requires
        from <= to <= s@.len(),
    ensures
        r == all_digits(s@.subrange(from as int, to as int)),
{
    let ghost sub = s@.subrange(from as int, to as int);
    let mut i: usize = from;
    while i < to
        invariant
            from <= i <= to <= s@.len(),
            sub == s@.subrange(from as int, to as int),
            forall|j: int| 0 <= j < i - from ==> is_digit(#[trigger] sub[j]),
        decreases to - i,
    {
        let b = s[i];
        if b < CH_ZERO || b > CH_NINE {
            assert(!is_digit(sub[i - from]));
            return false;
        }
        i = i + 1;
    }
    true
}

/// Index of the first of `d1`/`d2` in `s[from..to]`, or `to` if absent.
pub(crate) fn find_in(s: &[u8], from: usize, to: usize, d1: u8, d2: u8) -> (r: usize)
    requires
        from <= to <= s@.len(),
    ensures
        from <= r <= to,
        r - from == find_first(s@.subrange(from as int, to as int), d1, d2),
{
    let ghost sub = s@.subrange(from as int, to as int);
    let mut i: usize = from;
    while i < to
        invariant
            from <= i <= to <= s@.len(),
            sub == s@.subrange(from as int, to as int),
            forall|j: int| 0 <= j < i - from ==> sub[j] != d1 && sub[j] != d2,
        decreases to - i,
    {
        let b = s[i];
        if b == d1 || b == d2 {
            proof {
                lemma_find_first_at(sub, d1, d2, i - from);
            }
            return i;
        }
        i = i + 1;
    }
    proof {
        lemma_find_first_at(sub, d1, d2, to - from);
    }
    to
}

pub open spec fn sat_at(x: int, cap: int) -> int {
    if x > cap {
        cap + 1
    } else {
        x
    }
}

/// Parses the digit run `s[from..to]`, saturating the value at `cap + 1`.
/// `None` when the run is empty or holds a non-digit.
fn parse_digits_sat(s: &[u8], from: usize, to: usize, cap: u128) -> (r: Option<u128>)
    requires
        from <= to <= s@.len(),
        cap <= 0x10_0000_0000_0000_0000_0000_0000,
    ensures
        ({
            let sub = s@.subrange(from as int, to as int);
            match r {
                Some(v) => sub.len() > 0 && all_digits(sub) && v == sat_at(
                    digits_value(sub),
                    cap as int,
                ),
                None => sub.len() == 0 || !all_digits(sub),
            }
        }),
{
    let ghost sub = s@.subrange(from as int, to as int);
    if from == to {
        return None;
    }
    let mut acc: u128 = 0;
    let mut i: usize = from;
    while i < to
        invariant
            from <= i <= to <= s@.len(),
            sub == s@.subrange(from as int, to as int),
            cap <= 0x10_0000_0000_0000_0000_0000_0000,
            all_digits(sub.take(i - from)),
            acc == sat_at(digits_value(sub.take(i - from)), cap as int),
            acc <= cap + 1,
        decreases to - i,
    {
        let b = s[i];
        if b < CH_ZERO || b > CH_NINE {
            assert(!is_digit(sub[i - from]));
            return None;
        }
        proof {
            assert(sub.take(i - from + 1).drop_last() =~= sub.take(i - from));
            assert(sub.take(i - from + 1).last() == sub[i - from]);
            lemma_digits_value_nonneg(sub.take(i - from));
        }
        let next: u128 = acc * 10 + ((b - CH_ZERO) as u128);
        acc = if next > cap {
            cap + 1
        } else {
            next
        };
        i = i + 1;
        proof {
            assert(forall|j: int| 0 <= j < i - from ==> is_digit(#[trigger] sub.take(i - from)[j]));
        }
    }
    proof {
        assert(sub.take(i - from) =~= sub);
    }
    Some(acc)
}

proof fn lemma_pow10_add(a: nat, b: nat)
    ensures
        pow10(a + b) == pow10(a) * pow10(b),
    decreases a,
{
    if a == 0 {
    } else {
        lemma_pow10_add((a - 1) as nat, b);
        assert(pow10(a + b) == 10 * pow10((a + b - 1) as nat));
        assert(10 * (pow10((a - 1) as nat) * pow10(b)) == (10 * pow10((a - 1) as nat)) * pow10(b))
            by (nonlinear_arith);
    }
}

fn lower_exec(b: u8) -> (r: u8)
    ensures
        r == lower_byte(b),
{
    if b >= CH_UPPER_A && b <= CH_UPPER_Z {
        b + 32
    } else {
        b
    }
}

/// Whether `s[from..to]` is one of the special float words.
fn is_special_in(s: &[u8], from: usize, to: usize) -> (r: bool)
    requires
        from <= to <= s@.len(),
    ensures
        r == is_special_mag(s@.subrange(from as int, to as int)),
{
    let ghost sub = s@.subrange(from as int, to as int);
    proof {
        assert(lower_bytes(sub).len() == sub.len());
    }
    if to - from == 3 {
        let a = lower_exec(s[from]);
        let b = lower_exec(s[from + 1]);
        let c = lower_exec(s[from + 2]);
        proof {
            assert(lower_bytes(sub)[0] == lower_byte(sub[0]));
            assert(lower_bytes(sub)[1] == lower_byte(sub[1]));
            assert(lower_bytes(sub)[2] == lower_byte(sub[2]));
        }
        let inf = a == 105 && b == 110 && c == 102;
        let nan = a == 110 && b == 97 && c == 110;
        proof {
            if inf {
                assert(lower_bytes(sub) =~= seq_inf());
            }
            if nan {
                assert(lower_bytes(sub) =~= seq_nan());
            }
        }
        inf || nan
    } else if to - from == 8 {
        let mut ok = true;
        let word: [u8; 8] = [105, 110, 102, 105, 110, 105, 116, 121];
        let mut i: usize = 0;
        while i < 8
            invariant
                0 <= i <= 8,
                from + 8 <= s@.len(),
                to - from == 8,
                sub == s@.subrange(from as int, to as int),
                word@ == seq_infinity(),
                ok == (forall|j: int| 0 <= j < i ==> lower_byte(sub[j]) == seq_infinity()[j]),
            decreases 8 - i,
        {
            let lb = lower_exec(s[from + i]);
            if lb != word[i] {
                ok = false;
            }
            ok = ok && true;
            i = i + 1;
        }
        proof {
            if ok {
                assert(forall|j: int|
                    0 <= j < 8 ==> #[trigger] lower_bytes(sub)[j] == lower_byte(sub[j]));
                assert(lower_bytes(sub) =~= seq_infinity());
            } else {
                if lower_bytes(sub) == seq_infinity() {
                    assert(forall|j: int|
                        0 <= j < 8 ==> lower_byte(sub[j]) == #[trigger] lower_bytes(sub)[j]);
                }
            }
        }
        ok
    } else {
        false
    }
}

/// Whether `s[from..to]` is a float-grammar mantissa.
fn is_mantissa_in(s: &[u8], from: usize, to: usize) -> (r: bool)
    requires
        from <= to <= s@.len(),
    ensures
        r == is_mantissa(s@.subrange(from as int, to as int)),
{
    let ghost m = s@.subrange(from as int, to as int);
    let dp = find_in(s, from, to, CH_DOT, CH_DOT);
    if dp == to {
        proof {
            assert(m.take(dp - from) =~= m);
        }
        from < to && all_digits_in(s, from, to)
    } else {
        proof {
            assert(m.take(dp - from) =~= s@.subrange(from as int, dp as int));
            assert(m.skip(dp - from + 1) =~= s@.subrange(dp + 1 as int, to as int));
        }
        let iok = all_digits_in(s, from, dp);
        let fok = all_digits_in(s, dp + 1, to);
        iok && fok && to - from > 1
    }
}

/// Whether `s[from..to]` is a float-grammar exponent.
fn is_exp_in(s: &[u8], from: usize, to: usize) -> (r: bool)
    requires
        from <= to <= s@.len(),
    ensures
        r == is_exp_text(s@.subrange(from as int, to as int)),
{
    let ghost e = s@.subrange(from as int, to as int);
    let from2: usize = if from < to && (s[from] == CH_MINUS || s[from] == CH_PLUS) {
        from + 1
    } else {
        from
    };
    proof {
        assert(split_sign(e).1 =~= s@.subrange(from2 as int, to as int));
    }
    from2 < to && all_digits_in(s, from2, to)
}

/// Whether `s[from..to]` is a float-grammar number.
fn is_number_in(s: &[u8], from: usize, to: usize) -> (r: bool)
    requires
        from <= to <= s@.len(),
    ensures
        r == is_number_mag(s@.subrange(from as int, to as int)),
{
    let ghost m = s@.subrange(from as int, to as int);
    let ep = find_in(s, from, to, CH_LOWER_E, CH_UPPER_E);
    if ep == to {
        proof {
            assert(m.take(ep - from) =~= m);
        }
        is_mantissa_in(s, from, to)
    } else {
        proof {
            assert(m.take(ep - from) =~= s@.subrange(from as int, ep as int));
            assert(m.skip(ep - from + 1) =~= s@.subrange(ep + 1 as int, to as int));
        }
        let mant_ok = is_mantissa_in(s, from, ep);
        if !mant_ok {
            return false;
        }
        is_exp_in(s, ep + 1, to)
    }
}

/// Whether `s` is accepted by the float grammar (`f32`-style `from_str`).
pub fn is_float_text_bytes(s: &[u8]) -> (r: bool)
    ensures
        r == is_float_text(s@),
{
    let n = s.len();
    let from: usize = if n > 0 && (s[0] == CH_MINUS || s[0] == CH_PLUS) {
        1
    } else {
        0
    };
    proof {
        assert(split_sign(s@).1 =~= s@.subrange(from as int, n as int));
    }
    if is_special_in(s, from, n) {
        return true;
    }
    is_number_in(s, from, n)
}

/// A decimal value saturated just past the 32-bit range: large enough to keep
/// every comparison and clamp this codec needs exact.
pub open spec fn dec_clip(x: int) -> i64 {
    if x > 0x1_0000_0000 {
        0x1_0000_0000
    } else if x < -0x1_0000_0000 {
        -0x1_0000_0000i64
    } else {
        x as i64
    }
}

/// The exact value of the digit run `s[from..to]`, which must be short enough
/// to fit.
fn digits_value_u64(s: &[u8], from: usize, to: usize) -> (r: u64)
    requires
        from <= to <= s@.len(),
        to - from <= 10,
        all_digits(s@.subrange(from as int, to as int)),
    ensures
        r == digits_value(s@.subrange(from as int, to as int)),
{
    let ghost sub = s@.subrange(from as int, to as int);
    let mut acc: u64 = 0;
    let mut i: usize = from;
    while i < to
        invariant
            from <= i <= to <= s@.len(),
            to - from <= 10,
            sub == s@.subrange(from as int, to as int),
            all_digits(sub),
            acc == digits_value(sub.take(i - from)),
            acc < 0x1_0000_0000_0000,
        decreases to - i,
    {
        proof {
            assert(sub.take(i - from + 1).drop_last() =~= sub.take(i - from));
            assert(sub.take(i - from + 1).last() == sub[i - from]);
            assert(all_digits(sub.take(i - from + 1))) by {
                assert(forall|j: int|
                    0 <= j < i - from + 1 ==> is_digit(#[trigger] sub.take(i - from + 1)[j]));
            }
            lemma_digits_upper(sub.take(i - from + 1));
            lemma_pow10_mono((i - from + 1) as nat, 10nat);
            lemma_pow10_vals();
        }
        let b = s[i];
        assert(is_digit(sub[i - from]));
        acc = acc * 10 + ((b - CH_ZERO) as u64);
        i = i + 1;
    }
    proof {
        assert(sub.take(i - from) =~= sub);
    }
    acc
}

/// `10^k` for small `k`.
fn pow10_u64(k: usize) -> (r: u64)
    requires
        k <= 10,
    ensures
        r == pow10(k as nat),
{
    let mut acc: u64 = 1;
    let mut i: usize = 0;
    while i < k
        invariant
            0 <= i <= k <= 10,
            acc == pow10(i as nat),
            acc <= 0x2_540B_E400,
        decreases k - i,
    {
        proof {
            lemma_pow10_mono((i + 1) as nat, 10nat);
            lemma_pow10_vals();
        }
        acc = acc * 10;
        i = i + 1;
    }
    acc
}

proof fn lemma_pow10_vals()
    ensures
        pow10(10nat) == 10_000_000_000,
        pow10(11nat) == 100_000_000_000,
{
    reveal_with_fuel(pow10, 13);
}

/// Validates the mantissa `s[from..ep]` and collects its digits; returns the
/// digit run and the fraction length.
#[verifier::loop_isolation(false)]
fn collect_mantissa(s: &[u8], from: usize, ep: usize) -> (r: Option<(Vec<u8>, usize)>)
    requires
        from <= ep <= s@.len(),
    ensures
        ({
            let mant = s@.subrange(from as int, ep as int);
            let di = find_first(mant, CH_DOT, CH_DOT);
            match r {
                Some(p) => is_mantissa(mant) && all_digits(p.0@) && (if di == mant.len() {
                    p.0@ == mant && p.1 == 0
                } else {
                    p.0@ == mant.take(di) + mant.skip(di + 1) && p.1 == mant.len() - di - 1
                }),
                None => !is_mantissa(mant),
            }
        }),
{
    let ghost mant = s@.subrange(from as int, ep as int);
    let dp = find_in(s, from, ep, CH_DOT, CH_DOT);
    proof {
        if dp < ep {
            assert(mant.take(dp - from) =~= s@.subrange(from as int, dp as int));
            assert(mant.skip(dp - from + 1) =~= s@.subrange(dp + 1 as int, ep as int));
        } else {
            assert(mant.take(dp - from) =~= mant);
        }
    }
    let mut digs: Vec<u8> = Vec::new();
    if dp == ep {
        if from >= ep || !all_digits_in(s, from, ep) {
            return None;
        }
        let mut i: usize = from;
        while i < ep
            invariant
                from <= i <= ep,
                digs@ =~= s@.subrange(from as int, i as int),
            decreases ep - i,
        {
            digs.push(s[i]);
            i = i + 1;
        }
        proof {
            assert(digs@ =~= mant);
        }
        Some((digs, 0))
    } else {
        if !all_digits_in(s, from, dp) || !all_digits_in(s, dp + 1, ep) || ep - from <= 1 {
            return None;
        }
        let mut i: usize = from;
        while i < dp
            invariant
                from <= i <= dp,
                digs@ =~= s@.subrange(from as int, i as int),
            decreases dp - i,
        {
            digs.push(s[i]);
            i = i + 1;
        }
        let mut j: usize = dp + 1;
        while j < ep
            invariant
                dp + 1 <= j <= ep,
                digs@ =~= s@.subrange(from as int, dp as int) + s@.subrange(dp + 1 as int, j as int),
            decreases ep - j,
        {
            digs.push(s[j]);
            j = j + 1;
        }
        proof {
            assert(digs@ =~= mant.take(dp - from) + mant.skip(dp - from + 1));
        }
        Some((digs, ep - dp - 1))
    }
}

/// The exact decimal value of the number text `s`, saturated by `dec_clip`;
/// `None` when `s` is not an integer-valued number text.
#[verifier::rlimit(100)]
#[verifier::loop_isolation(false)]
pub fn dec_int_value_clipped(s: &[u8]) -> (r: Option<i64>)
    ensures
        r is Some <==> dec_int_valued(s@),
        r matches Some(v) ==> v == dec_clip(dec_int_value(s@)),
{
    let n = s.len();
    let negative: bool = n > 0 && s[0] == CH_MINUS;
    let from: usize = if n > 0 && (s[0] == CH_MINUS || s[0] == CH_PLUS) {
        1
    } else {
        0
    };
    let ghost m = s@.subrange(from as int, n as int);
    proof {
        assert(split_sign(s@).1 =~= m);
    }
    let ep = find_in(s, from, n, CH_LOWER_E, CH_UPPER_E);
    let ghost mant = s@.subrange(from as int, ep as int);
    proof {
        if ep < n {
            assert(m.take(ep - from) =~= mant);
            assert(m.skip(ep - from + 1) =~= s@.subrange(ep + 1 as int, n as int));
        } else {
            assert(m.take(ep - from) =~= m);
            assert(mant =~= m);
        }
    }
    // Validate the mantissa and gather its digits.
    let mantres = collect_mantissa(s, from, ep);
    let (digs, fl): (Vec<u8>, usize) = match mantres {
        None => {
            return None;
        },
        Some(p) => p,
    };
    let ghost etrue = number_parts(s@).3;
    // Validate and read the exponent, saturating far beyond any text length.
    let e_cap: u128 = 0x10_0000_0000_0000_0000_0000_0000;
    let mut e_neg: bool = false;
    let mut e_sat: u128 = 0;
    if ep < n {
        let ghost etext = s@.subrange(ep + 1 as int, n as int);
        let es: usize = if ep + 1 < n && (s[ep + 1] == CH_MINUS || s[ep + 1] == CH_PLUS) {
            ep + 2
        } else {
            ep + 1
        };
        e_neg = ep + 1 < n && s[ep + 1] == CH_MINUS;
        proof {
            assert(split_sign(etext).1 =~= s@.subrange(es as int, n as int));
        }
        match parse_digits_sat(s, es, n, e_cap) {
            None => {
                proof {
                    assert(!is_exp_text(etext));
                    assert(!is_number_mag(m));
                }
                return None;
            },
            Some(v) => {
                e_sat = v;
                proof {
                    let ed = s@.subrange(es as int, n as int);
                    lemma_digits_value_nonneg(ed);
                    assert(etrue == int_text_value(etext));
                    if e_neg {
                        assert(int_text_value(etext) == (-1) * digits_value(ed));
                        assert(etrue == -digits_value(ed)) by (nonlinear_arith)
                            requires
                                etrue == (-1) * digits_value(ed),
                        ;
                    } else {
                        assert(split_sign(etext).0 == 1);
                        assert(int_text_value(etext) == 1 * digits_value(ed));
                        assert(1 * digits_value(ed) == digits_value(ed)) by (nonlinear_arith);
                        assert(etrue == digits_value(ed));
                    }
                    assert(e_sat == sat_at(digits_value(ed), e_cap as int));
                }
            },
        }
    } else {
        proof {
            assert(etrue == 0);
        }
    }
    let ghost parts = number_parts(s@);
    let ghost dv = digits_value(digs@);
    let ghost sg: int = if negative {
        -1
    } else {
        1
    };
    proof {
        assert(is_number_mag(m));
        assert(parts.0 == sg);
        assert(parts.1 == digs@);
        assert(parts.2 == fl as int);
        assert(all_digits(digs@));
        lemma_digits_value_nonneg(digs@);
    }
    // Locate the first significant digit.
    let dlen = digs.len();
    let mut z: usize = 0;
    while z < dlen && digs[z] == CH_ZERO
        invariant
            0 <= z <= dlen,
            dlen == digs@.len(),
            digs@ == digs@,
            forall|i: int| 0 <= i < z ==> digs@[i] == CH_ZERO,
        decreases dlen - z,
    {
        z = z + 1;
    }
    proof {
        lemma_digits_skip_zeros(digs@, z as int);
    }
    if z == dlen {
        // Every digit is zero: the value is zero whatever the exponent.
        proof {
            lemma_digits_zero_iff(digs@);
            assert(dv == 0);
            if etrue - fl >= 0 {
                assert(0 * pow10((etrue - fl) as nat) == 0) by (nonlinear_arith);
                assert(sg * 0 == 0) by (nonlinear_arith);
            } else {
                lemma_pow10_pos((fl - etrue) as nat);
                vstd::arithmetic::div_mod::lemma_div_of0(pow10((fl - etrue) as nat));
                vstd::arithmetic::div_mod::lemma_small_mod(0nat, pow10((fl - etrue) as nat) as nat);
                assert(sg * 0 == 0) by (nonlinear_arith);
            }
        }
        return Some(0);
    }
    let ghost ltrue = digs@.len() - z;
    proof {
        assert(digs@.skip(z as int).len() == ltrue);
        assert(digs@.skip(z as int)[0] == digs@[z as int]);
        assert(all_digits(digs@.skip(z as int))) by {
            assert(forall|i: int|
                0 <= i < digs@.len() - z ==> is_digit(#[trigger] digs@.skip(z as int)[i]));
        }
        lemma_digits_lower(digs@.skip(z as int));
        lemma_digits_upper(digs@.skip(z as int));
        assert(dv == digits_value(digs@.skip(z as int)));
        lemma_pow10_pos((ltrue - 1) as nat);
        assert(dv >= 1);
        assert(dv < pow10(ltrue as nat));
    }
    let l: usize = dlen - z;
    if e_sat > e_cap {
        if e_neg {
            // A huge negative power of ten: no nonzero mantissa stays integral.
            proof {
                let q = (fl - etrue) as nat;
                lemma_pow10_mono(ltrue as nat, q);
                vstd::arithmetic::div_mod::lemma_small_mod(dv as nat, pow10(q) as nat);
            }
            return None;
        } else {
            // A huge positive power of ten: the value clips.
            proof {
                let p = (etrue - fl) as nat;
                lemma_pow10_pos(p);
                lemma_pow10_mono(11nat, p);
                lemma_pow10_vals();
                assert(dv * pow10(p) >= 1 * pow10(p)) by (nonlinear_arith)
                    requires
                        dv >= 1,
                        pow10(p) >= 0,
                ;
                assert(dec_int_value(s@) == sg * (dv * pow10(p)));
            }
            if negative {
                return Some(-0x1_0000_0000);
            } else {
                return Some(0x1_0000_0000);
            }
        }
    }
    proof {
        if e_neg {
            assert(etrue == -(e_sat as int));
        } else {
            assert(etrue == e_sat as int);
        }
    }
    let e_i: i128 = if e_neg {
        -(e_sat as i128)
    } else {
        e_sat as i128
    };
    let p: i128 = e_i - (fl as i128);
    if p >= 0 {
        let ghost pn = (etrue - fl) as nat;
        if (l as i128) + p >= 11 {
            proof {
                lemma_pow10_pos(pn);
                lemma_pow10_add((ltrue - 1) as nat, pn);
                lemma_pow10_mono(10nat, ((ltrue - 1) + pn) as nat);
                lemma_pow10_vals();
                assert(dv * pow10(pn) >= pow10((ltrue - 1) as nat) * pow10(pn)) by (nonlinear_arith)
                    requires
                        dv >= pow10((ltrue - 1) as nat),
                        pow10(pn) >= 0,
                ;
                assert(dec_int_value(s@) == sg * (dv * pow10(pn)));
            }
            if negative {
                return Some(-0x1_0000_0000);
            } else {
                return Some(0x1_0000_0000);
            }
        }
        let v = digits_value_u64(digs.as_slice(), z, dlen);
        proof {
            assert(digs@.subrange(z as int, dlen as int) =~= digs@.skip(z as int));
        }
        let pw = pow10_u64(p as usize);
        proof {
            lemma_pow10_pos(pn);
            lemma_pow10_add(ltrue as nat, pn);
            assert(dv * pow10(pn) < pow10(ltrue as nat) * pow10(pn)) by (nonlinear_arith)
                requires
                    dv < pow10(ltrue as nat),
                    dv >= 0,
                    pow10(pn) >= 1,
            ;
            lemma_pow10_pos(pn);
            lemma_pow10_mono((ltrue + pn) as nat, 10nat);
            lemma_pow10_vals();
            assert((v as int) * (pw as int) == dv * pow10(pn));
            assert(dec_int_value(s@) == sg * (dv * pow10(pn)));
        }
        let prod: u64 = v * pw;
        let clipped: i64 = if prod > 0x1_0000_0000 {
            0x1_0000_0000
        } else {
            prod as i64
        };
        if negative {
            return Some(-clipped);
        } else {
            return Some(clipped);
        }
    }
    // A negative power of ten: the trailing digits must all be zero.
    let ghost qtrue = (fl - etrue) as nat;
    if -p >= l as i128 {
        proof {
            lemma_pow10_mono(ltrue as nat, qtrue);
            vstd::arithmetic::div_mod::lemma_small_mod(dv as nat, pow10(qtrue) as nat);
        }
        return None;
    }
    let q: usize = (-p) as usize;
    let ghost tail = digs@.skip(digs@.len() - q);
    proof {
        lemma_digits_split_mod(digs@, q as nat);
        assert(all_digits(tail)) by {
            assert(forall|i: int| 0 <= i < q ==> is_digit(#[trigger] tail[i]));
        }
        lemma_digits_zero_iff(tail);
    }
    let mut t: usize = dlen - q;
    while t < dlen
        invariant
            dlen == digs@.len(),
            q <= dlen,
            dlen - q <= t <= dlen,
            tail == digs@.skip(digs@.len() - q),
            forall|i: int| digs@.len() - q <= i < t ==> digs@[i] == CH_ZERO,
        decreases dlen - t,
    {
        if digs[t] != CH_ZERO {
            proof {
                assert(tail[t - (digs@.len() - q)] != CH_ZERO);
                assert(digits_value(tail) != 0);
                assert(dv % pow10(q as nat) != 0);
            }
            return None;
        }
        t = t + 1;
    }
    proof {
        assert(forall|i: int| 0 <= i < q ==> #[trigger] tail[i] == digs@[digs@.len() - q + i]);
        assert(digits_value(tail) == 0);
        assert(dv % pow10(q as nat) == 0);
        assert(dec_int_valued(s@));
        assert(dec_int_value(s@) == sg * (dv / pow10(qtrue)));
        assert(dv / pow10(q as nat) == digits_value(digs@.take(digs@.len() - q)));
    }
    // The value is the remaining digit prefix.
    let ghost pref = digs@.take(digs@.len() - q);
    proof {
        assert(z < digs@.len() - q) by {
            if z >= digs@.len() - q {
                assert(digs@[z as int] == tail[z - (digs@.len() - q)]);
            }
        }
        assert(all_digits(pref)) by {
            assert(forall|i: int| 0 <= i < pref.len() ==> is_digit(#[trigger] pref[i]));
        }
        lemma_digits_skip_zeros(pref, z as int);
        assert(pref.skip(z as int) =~= digs@.subrange(z as int, digs@.len() - q));
        assert(all_digits(pref.skip(z as int))) by {
            assert(forall|i: int|
                0 <= i < pref.len() - z ==> is_digit(#[trigger] pref.skip(z as int)[i]));
        }
        lemma_digits_upper(pref.skip(z as int));
        lemma_digits_lower(pref.skip(z as int));
    }
    let l2: usize = (dlen - q) - z;
    if l2 >= 11 {
        proof {
            lemma_pow10_mono(10nat, (l2 - 1) as nat);
            lemma_pow10_vals();
        }
        if negative {
            return Some(-0x1_0000_0000);
        } else {
            return Some(0x1_0000_0000);
        }
    }
    let v = digits_value_u64(digs.as_slice(), z, dlen - q);
    proof {
        lemma_pow10_mono(l2 as nat, 10nat);
        lemma_pow10_vals();
        assert(digits_value(pref) == v);
    }
    let clipped: i64 = if v > 0x1_0000_0000 {
        0x1_0000_0000
    } else {
        v as i64
    };
    if negative {
        Some(-clipped)
    } else {
        Some(clipped)
    }
}

/// Whether the exact decimal value of `s` is the integer `k`.
pub fn dec_eq_int(s: &[u8], k: i32) -> (r: bool)
    ensures
        r == dec_value_is(s@, k as int),
{
    match dec_int_value_clipped(s) {
        None => false,
        Some(v) => {
            proof {
                if dec_int_value(s@) == k {
                    assert(dec_clip(dec_int_value(s@)) == k as i64);
                }
                if v == k as i64 {
                    assert(dec_int_value(s@) == k);
                }
            }
            v == (k as i64)
        },
    }
}

/// The decimal digits of `n` (`n >= 0`), most significant first, as Rust's
/// integer `Display` writes them.
pub open spec fn spec_dec_digits(n: int) -> Seq<u8>
    decreases n,
    when n >= 0
{
    if n < 10 {
        seq![(CH_ZERO + n) as u8]
    } else {
        spec_dec_digits(n / 10).push((CH_ZERO + (n % 10)) as u8)
    }
}

/// The decimal text of a signed integer, as Rust's `Display` writes it.
pub open spec fn spec_dec_int(n: int) -> Seq<u8> {
    if n < 0 {
        seq![CH_MINUS] + spec_dec_digits(-n)
    } else {
        spec_dec_digits(n)
    }
}

/// Appends the decimal digits of `n` to `out`.
pub fn push_dec_u32(out: &mut Vec<u8>, n: u32)
    ensures
        final(out)@ == old(out)@ + spec_dec_digits(n as int),
    decreases n,
{
    if n < 10 {
        out.push(CH_ZERO + (n as u8));
        proof {
            assert(final(out)@ =~= old(out)@ + spec_dec_digits(n as int));
        }
    } else {
        push_dec_u32(out, n / 10);
        out.push(CH_ZERO + ((n % 10) as u8));
        proof {
            assert(final(out)@ =~= old(out)@ + spec_dec_digits(n as int));
        }
    }
}

/// Appends the decimal text of `n` to `out`.
pub fn push_dec_i32(out: &mut Vec<u8>, n: i32)
    ensures
        final(out)@ == old(out)@ + spec_dec_int(n as int),
{
    if n < 0 {
        out.push(CH_MINUS);
        let mag: u32 = if n == i32::MIN {
            0x8000_0000
        } else {
            (-n) as u32
        };
        push_dec_u32(out, mag);
        proof {
            assert(final(out)@ =~= old(out)@ + spec_dec_int(n as int));
        }
    } else {
        push_dec_u32(out, n as u32);
    }
}

/// The decimal digits of `n` are digits, nonempty, and denote `n`.
pub proof fn lemma_dec_digits(n: int)
    requires
        n >= 0,
    ensures
        all_digits(spec_dec_digits(n)),
        spec_dec_digits(n).len() >= 1,
        digits_value(spec_dec_digits(n)) == n,
    decreases n,
{
    if n < 10 {
        assert(spec_dec_digits(n) =~= seq![(CH_ZERO + n) as u8]);
        assert(digits_value(spec_dec_digits(n)) == digits_value(
            spec_dec_digits(n).drop_last(),
        ) * 10 + ((CH_ZERO + n) - CH_ZERO));
        assert(spec_dec_digits(n).drop_last() =~= Seq::<u8>::empty());
    } else {
        lemma_dec_digits(n / 10);
        let s = spec_dec_digits(n);
        assert(s == spec_dec_digits(n / 10).push((CH_ZERO + (n % 10)) as u8));
        assert(s.drop_last() =~= spec_dec_digits(n / 10));
        assert(digits_value(s) == (n / 10) * 10 + (n % 10));
        vstd::arithmetic::div_mod::lemma_fundamental_div_mod(n, 10);
        assert(forall|i: int| 0 <= i < s.len() ==> is_digit(#[trigger] s[i])) by {
            assert(forall|i: int|
                0 <= i < s.len() - 1 ==> s[i] == #[trigger] spec_dec_digits(n / 10)[i]);
        }
    }
}

/// Parsing gives back what the signed decimal text was printed from.
pub proof fn lemma_parse_dec_i32(n: int)
    requires
        i32::MIN <= n <= i32::MAX,
    ensures
        spec_parse_i32(spec_dec_int(n)) == Some(n as i32),
{
    if n < 0 {
        lemma_dec_digits(-n);
        let s = spec_dec_int(n);
        assert(s[0] == CH_MINUS);
        assert(split_sign(s).1 =~= spec_dec_digits(-n));
        assert(int_text_value(s) == (-1) * digits_value(spec_dec_digits(-n)));
        assert((-1) * digits_value(spec_dec_digits(-n)) == -digits_value(spec_dec_digits(-n)))
            by (nonlinear_arith);
    } else {
        lemma_dec_digits(n);
        let s = spec_dec_int(n);
        assert(is_digit(s[0]));
        assert(split_sign(s).1 =~= s);
        assert(int_text_value(s) == 1 * digits_value(s));
        assert(1 * digits_value(s) == digits_value(s)) by (nonlinear_arith);
    }
}

/// Parsing gives back what the unsigned decimal text was printed from.
pub proof fn lemma_parse_dec_u32(n: int)
    requires
        0 <= n <= u32::MAX,
    ensures
        spec_parse_u32(spec_dec_digits(n)) == Some(n as u32),
{
    lemma_dec_digits(n);
    let s = spec_dec_digits(n);
    assert(is_digit(s[0]));
}

/// A nonempty run of digits is a float text in number form, with its exact
/// value the digits' value.
pub proof fn lemma_digits_dec_value(s: Seq<u8>)
    requires
        all_digits(s),
        s.len() > 0,
    ensures
        is_float_text(s),
        is_number_text(s),
        dec_int_valued(s),
        dec_int_value(s) == digits_value(s),
{
    assert(is_digit(s[0]));
    assert(split_sign(s).1 == s);
    lemma_find_first(s, CH_LOWER_E, CH_UPPER_E);
    let ei = find_first(s, CH_LOWER_E, CH_UPPER_E);
    if ei < s.len() {
        assert(is_digit(s[ei]));
        assert(false);
    }
    lemma_find_first(s, CH_DOT, CH_DOT);
    let di = find_first(s, CH_DOT, CH_DOT);
    if di < s.len() {
        assert(is_digit(s[di]));
        assert(false);
    }
    assert(s.take(ei) =~= s);
    assert(is_mantissa(s));
    assert(is_number_mag(s));
    let parts = number_parts(s);
    assert(parts.0 == 1 && parts.1 == s && parts.2 == 0 && parts.3 == 0);
    assert(pow10(0nat) == 1);
    assert(dec_int_value(s) == 1 * (digits_value(s) * 1));
    assert(1 * (digits_value(s) * 1) == digits_value(s)) by (nonlinear_arith);
}

/// No float text holds a comma or a pipe, and every byte of one is ASCII.
pub proof fn lemma_float_no_seps(s: Seq<u8>)
    requires
        is_float_text(s),
    ensures
        forall|i: int| 0 <= i < s.len() ==> s[i] != CH_COMMA && s[i] != CH_PIPE && s[i] < 128,
{
    let (_, m) = split_sign(s);
    let off: int = s.len() - m.len();
    assert(0 <= off <= 1);
    if off == 1 {
        assert(s[0] == CH_MINUS || s[0] == CH_PLUS);
    }
    assert(forall|i: int| 0 <= i < m.len() ==> m[i] == #[trigger] s[i + off]);
    if is_special_mag(m) {
        assert(lower_bytes(m).len() == m.len());
        assert(seq_inf().len() == 3 && seq_infinity().len() == 8 && seq_nan().len() == 3);
        assert forall|j: int| 0 <= j < m.len() implies m[j] != CH_COMMA && m[j] != CH_PIPE && m[j]
            < 128 by {
            assert(lower_bytes(m).len() == m.len());
            assert(lower_bytes(m)[j] == lower_byte(m[j]));
            if m[j] == CH_COMMA || m[j] == CH_PIPE || m[j] >= 128 {
                assert(lower_bytes(m)[j] == m[j]);
                if lower_bytes(m) == seq_inf() {
                    assert(lower_bytes(m)[j] == seq_inf()[j]);
                    if j == 0 {
                        assert(seq_inf()[0] == 105);
                    } else if j == 1 {
                        assert(seq_inf()[1] == 110);
                    } else {
                        assert(seq_inf()[2] == 102);
                    }
                } else if lower_bytes(m) == seq_infinity() {
                    assert(lower_bytes(m)[j] == seq_infinity()[j]);
                    if j == 0 {
                        assert(seq_infinity()[0] == 105);
                    } else if j == 1 {
                        assert(seq_infinity()[1] == 110);
                    } else if j == 2 {
                        assert(seq_infinity()[2] == 102);
                    } else if j == 3 {
                        assert(seq_infinity()[3] == 105);
                    } else if j == 4 {
                        assert(seq_infinity()[4] == 110);
                    } else if j == 5 {
                        assert(seq_infinity()[5] == 105);
                    } else if j == 6 {
                        assert(seq_infinity()[6] == 116);
                    } else {
                        assert(seq_infinity()[7] == 121);
                    }
                } else {
                    assert(lower_bytes(m)[j] == seq_nan()[j]);
                    if j == 0 {
                        assert(seq_nan()[0] == 110);
                    } else if j == 1 {
                        assert(seq_nan()[1] == 97);
                    } else {
                        assert(seq_nan()[2] == 110);
                    }
                }
                assert(false);
            }
        }
    } else {
        lemma_number_no_seps(m);
    }
    assert forall|i: int| 0 <= i < s.len() implies s[i] != CH_COMMA && s[i] != CH_PIPE && s[i]
        < 128 by {
        if i >= off {
            assert(s[i] == m[i - off]);
        }
    }
}

/// No number magnitude holds a comma or a pipe: every byte is a digit, a
/// sign, a dot, or an exponent letter, all of them ASCII.
proof fn lemma_number_no_seps(m: Seq<u8>)
    requires
        is_number_mag(m),
    ensures
        forall|i: int| 0 <= i < m.len() ==> m[i] != CH_COMMA && m[i] != CH_PIPE && m[i] < 128,
{
    lemma_find_first(m, CH_LOWER_E, CH_UPPER_E);
    let ei = find_first(m, CH_LOWER_E, CH_UPPER_E);
    let mant = if ei == m.len() {
        m
    } else {
        m.take(ei)
    };
    assert(mant =~= m.take(ei));
    assert(is_mantissa(mant));
    lemma_mantissa_no_seps(mant);
    assert forall|i: int| 0 <= i < m.len() implies m[i] != CH_COMMA && m[i] != CH_PIPE && m[i]
        < 128 by {
        if i < ei {
            assert(m[i] == mant[i]);
        } else if i == ei {
            assert(m[i] == CH_LOWER_E || m[i] == CH_UPPER_E);
        } else {
            let e = m.skip(ei + 1);
            assert(m[i] == e[i - ei - 1]);
            let (_, d) = split_sign(e);
            let off2: int = e.len() - d.len();
            assert(0 <= off2 <= 1);
            if i - ei - 1 < off2 {
                assert(e[0] == CH_MINUS || e[0] == CH_PLUS);
            } else {
                assert(e[i - ei - 1] == d[i - ei - 1 - off2]);
                assert(is_digit(d[i - ei - 1 - off2]));
            }
        }
    }
}

/// No mantissa holds a comma or a pipe: every byte is a digit or the dot.
proof fn lemma_mantissa_no_seps(mant: Seq<u8>)
    requires
        is_mantissa(mant),
    ensures
        forall|i: int|
            0 <= i < mant.len() ==> mant[i] != CH_COMMA && mant[i] != CH_PIPE && mant[i] < 128,
{
    lemma_find_first(mant, CH_DOT, CH_DOT);
    let di = find_first(mant, CH_DOT, CH_DOT);
    assert forall|i: int|
        0 <= i < mant.len() implies mant[i] != CH_COMMA && mant[i] != CH_PIPE && mant[i] < 128 by {
        if di == mant.len() {
            assert(is_digit(mant[i]));
        } else if i < di {
            assert(mant[i] == mant.take(di)[i]);
            assert(is_digit(mant.take(di)[i]));
        } else if i == di {
            assert(mant[i] == CH_DOT);
        } else {
            assert(mant[i] == mant.skip(di + 1)[i - di - 1]);
            assert(is_digit(mant.skip(di + 1)[i - di - 1]));
        }
    }
}

/// Every byte of a signed decimal text is a digit or the minus sign.
pub proof fn lemma_dec_int_no_seps(n: int)
    requires
        i32::MIN <= n <= i32::MAX,
    ensures
        forall|i: int|
            0 <= i < spec_dec_int(n).len() ==> #[trigger] spec_dec_int(n)[i] != CH_COMMA
                && spec_dec_int(n)[i] != CH_PIPE && spec_dec_int(n)[i] < 128,
{
    if n < 0 {
        lemma_dec_digits(-n);
        assert forall|i: int|
            0 <= i < spec_dec_int(n).len() implies #[trigger] spec_dec_int(n)[i] != CH_COMMA
            && spec_dec_int(n)[i] != CH_PIPE && spec_dec_int(n)[i] < 128 by {
            if i == 0 {
                assert(spec_dec_int(n)[0] == CH_MINUS);
            } else {
                assert(spec_dec_int(n)[i] == spec_dec_digits(-n)[i - 1]);
                assert(is_digit(spec_dec_digits(-n)[i - 1]));
            }
        }
    } else {
        lemma_dec_digits(n);
        assert forall|i: int|
            0 <= i < spec_dec_int(n).len() implies #[trigger] spec_dec_int(n)[i] != CH_COMMA
            && spec_dec_int(n)[i] != CH_PIPE && spec_dec_int(n)[i] < 128 by {
            assert(is_digit(spec_dec_digits(n)[i]));
        }
    }
}

/// A signed decimal text is a float text in number form, and its exact value
/// is the integer it was printed from.
pub proof fn lemma_dec_int_float(n: int)
    requires
        i32::MIN <= n <= i32::MAX,
    ensures
        is_float_text(spec_dec_int(n)),
        dec_int_valued(spec_dec_int(n)),
        dec_int_value(spec_dec_int(n)) == n,
{
    if n < 0 {
        lemma_dec_digits(-n);
        let s = spec_dec_int(n);
        let d = spec_dec_digits(-n);
        assert(s[0] == CH_MINUS);
        assert(split_sign(s).1 =~= d);
        lemma_digits_dec_value(d);
        assert(is_number_mag(d));
        lemma_find_first(d, CH_LOWER_E, CH_UPPER_E);
        if find_first(d, CH_LOWER_E, CH_UPPER_E) < d.len() {
            assert(is_digit(d[find_first(d, CH_LOWER_E, CH_UPPER_E)]));
            assert(false);
        }
        lemma_find_first(d, CH_DOT, CH_DOT);
        if find_first(d, CH_DOT, CH_DOT) < d.len() {
            assert(is_digit(d[find_first(d, CH_DOT, CH_DOT)]));
            assert(false);
        }
        assert(d.take(d.len() as int) =~= d);
        let parts = number_parts(s);
        assert(parts.0 == -1 && parts.1 == d && parts.2 == 0 && parts.3 == 0);
        assert(pow10(0nat) == 1);
        assert(dec_int_value(s) == (-1) * (digits_value(d) * 1));
        assert((-1) * (digits_value(d) * 1) == -digits_value(d)) by (nonlinear_arith);
    } else {
        lemma_dec_digits(n);
        lemma_digits_dec_value(spec_dec_digits(n));
    }
}

} // verus!
