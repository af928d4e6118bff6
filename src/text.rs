//! Plain-text encodings shared by the file names and the index lines:
//! decimal numbers, hexadecimal bytes and separator-delimited fields.

use vstd::prelude::*;
use vstd::utf8::{encode_utf8, is_ascii_chars};

verus! {

/// The ASCII code of `+`.
pub const PLUS: u8 = 43;

/// The ASCII code of `0`.
pub const DIGIT_ZERO: u8 = 48;

pub open spec fn is_digit(b: u8) -> bool {
    DIGIT_ZERO <= b <= 57
}

pub open spec fn all_digits(s: Seq<u8>) -> bool {
    forall|i: int| 0 <= i < s.len() ==> #[trigger] is_digit(s[i])
}

/// The number that a run of decimal digits denotes, most significant first.
pub open spec fn digits_value(s: Seq<u8>) -> nat
    decreases s.len(),
{
    if s.len() == 0 {
        0
    } else {
        digits_value(s.drop_last()) * 10 + (s.last() - DIGIT_ZERO) as nat
    }
}

/// The digits of an unsigned decimal number, after an optional leading `+`.
pub open spec fn unsigned_digits(s: Seq<u8>) -> Seq<u8> {
    if s.len() > 0 && s[0] == PLUS {
        s.drop_first()
    } else {
        s
    }
}

/// The value of unsigned decimal text, as Rust's integer parsing reads it:
/// an optional `+`, then one or more ASCII digits. `None` for any other text.
pub open spec fn decimal_value(s: Seq<u8>) -> Option<nat> {
    let d = unsigned_digits(s);
    if d.len() > 0 && all_digits(d) {
        Some(digits_value(d))
    } else {
        None
    }
}

/// The canonical decimal text of `n`: no sign, no leading zero.
pub open spec fn decimal_text(n: nat) -> Seq<u8>
    decreases n,
{
    if n < 10 {
        seq![(n + DIGIT_ZERO) as u8]
    } else {
        decimal_text(n / 10).push((n % 10 + DIGIT_ZERO) as u8)
    }
}

proof fn lemma_digits_value_prefix(s: Seq<u8>, i: int)
    requires
        0 <= i <= s.len(),
        all_digits(s),
    ensures
        digits_value(s.take(i)) <= digits_value(s),
    decreases s.len() - i,
{
    if i < s.len() {
        lemma_digits_value_prefix(s, i + 1);
        assert(s.take(i + 1).drop_last() =~= s.take(i));
    } else {
        assert(s.take(i) =~= s);
    }
}

/// Parses unsigned decimal text into a `u128`, as `str::parse::<u128>` does.
pub fn parse_u128(s: &[u8]) -> (r: Option<u128>)
    ensures
        r matches Some(v) <==> (decimal_value(s@) matches Some(n) && n <= u128::MAX),
        r matches Some(v) ==> decimal_value(s@) == Some(v as nat),
{
    let start: usize = if s.len() > 0 && s[0] == PLUS {
        1
    } else {
        0
    };
    if start >= s.len() {
        return None;
    }
    let ghost d = unsigned_digits(s@);
    assert(d =~= s@.skip(start as int));
    let mut value: u128 = 0;
    let mut i: usize = start;
    while i < s.len()
        invariant
            start <= i <= s.len(),
            d == unsigned_digits(s@),
            d =~= s@.skip(start as int),
            all_digits(d.take(i - start)),
            value as nat == digits_value(d.take(i - start)),
        decreases s.len() - i,
    {
        let b = s[i];
        if b < DIGIT_ZERO || b > 57 {
            assert(!is_digit(d[i - start]));
            return None;
        }
        assert(d.take(i + 1 - start).drop_last() =~= d.take(i - start));
        let ghost next = digits_value(d.take(i + 1 - start));
        let digit = (b - DIGIT_ZERO) as u128;
        assert(d.take(i + 1 - start).last() == b);
        assert(next == value * 10 + digit);
        if value > (u128::MAX - digit) / 10 {
            proof {
                assert(next > u128::MAX) by (nonlinear_arith)
                    requires
                        next == value * 10 + digit,
                        value > (u128::MAX - digit) / 10,
                        digit <= 9,
                ;
                if all_digits(d) {
                    lemma_digits_value_prefix(d, i + 1 - start);
                }
            }
            return None;
        }
        proof {
            assert(value * 10 + digit <= u128::MAX) by (nonlinear_arith)
                requires
                    value <= (u128::MAX - digit) / 10,
                    digit <= 9,
            ;
        }
        value = value * 10 + digit;
        i = i + 1;
    }
    assert(d.take(i - start) =~= d);
    Some(value)
}

/// Parses unsigned decimal text into a `u64`, as `str::parse::<u64>` does.
pub fn parse_u64(s: &[u8]) -> (r: Option<u64>)
    ensures
        r matches Some(v) <==> (decimal_value(s@) matches Some(n) && n <= u64::MAX),
        r matches Some(v) ==> decimal_value(s@) == Some(v as nat),
{
    match parse_u128(s) {
        Some(v) => {
            if v <= u64::MAX as u128 {
                Some(v as u64)
            } else {
                None
            }
        },
        None => None,
    }
}

proof fn lemma_decimal_text_digits(n: nat)
    ensures
        decimal_text(n).len() > 0,
        all_digits(decimal_text(n)),
        digits_value(decimal_text(n)) == n,
    decreases n,
{
    if n >= 10 {
        lemma_decimal_text_digits(n / 10);
        let t = decimal_text(n);
        assert(t.drop_last() =~= decimal_text(n / 10));
        assert(t.last() == (n % 10 + DIGIT_ZERO) as u8);
        assert(digits_value(t) == digits_value(t.drop_last()) * 10 + (t.last() - DIGIT_ZERO) as nat);
        assert(digits_value(t) == (n / 10) * 10 + n % 10);
    } else {
        let t = decimal_text(n);
        assert(t.drop_last() =~= Seq::<u8>::empty());
        assert(digits_value(t.drop_last()) == 0);
        assert(digits_value(t) == digits_value(t.drop_last()) * 10 + (t.last() - DIGIT_ZERO) as nat);
    }
}

/// Decimal text reads back as the number it was written from.
pub proof fn lemma_decimal_round_trip(n: nat)
    ensures
        decimal_value(decimal_text(n)) == Some(n),
        forall|i: int| 0 <= i < decimal_text(n).len() ==> #[trigger] is_digit(decimal_text(n)[i]),
{
    lemma_decimal_text_digits(n);
    assert(is_digit(decimal_text(n)[0]));
}

/// Appends the decimal text of `n` to `out`.
pub fn write_decimal(n: u128, out: &mut Vec<u8>)
    ensures
        final(out)@ == old(out)@ + decimal_text(n as nat),
    decreases n,
{
    if n >= 10 {
        write_decimal(n / 10, out);
    }
    out.push((n % 10) as u8 + DIGIT_ZERO);
    assert(final(out)@ =~= old(out)@ + decimal_text(n as nat));
}

/// The value of one hexadecimal digit, in either case.
pub open spec fn hex_digit_value(b: u8) -> Option<u8> {
    if 48 <= b <= 57 {
        Some((b - 48) as u8)
    } else if 97 <= b <= 102 {
        Some((b - 87) as u8)
    } else if 65 <= b <= 70 {
        Some((b - 55) as u8)
    } else {
        None
    }
}

pub open spec fn all_hex_digits(s: Seq<u8>) -> bool {
    forall|i: int| 0 <= i < s.len() ==> #[trigger] hex_digit_value(s[i]) is Some
}

/// The bytes that an even run of hexadecimal digits spells, two digits a byte.
pub open spec fn hex_decoded(s: Seq<u8>) -> Seq<u8> {
    Seq::new(
        s.len() / 2,
        |i: int| (hex_digit_value(s[2 * i])->0 * 16 + hex_digit_value(s[2 * i + 1])->0) as u8,
    )
}

/// The lower-case hexadecimal digit for a value below 16.
pub open spec fn lower_hex_digit(v: u8) -> u8 {
    if v < 10 {
        (v + 48) as u8
    } else {
        (v + 87) as u8
    }
}

/// Two lower-case hexadecimal digits for each byte, high half first.
pub open spec fn hex_text(bytes: Seq<u8>) -> Seq<u8> {
    Seq::new(
        2 * bytes.len(),
        |j: int|
            if j % 2 == 0 {
                lower_hex_digit(bytes[j / 2] / 16)
            } else {
                lower_hex_digit(bytes[j / 2] % 16)
            },
    )
}

/// Reads one hexadecimal digit.
pub fn hex_digit(b: u8) -> (r: Option<u8>)
    ensures
        r == hex_digit_value(b),
{
    if 48 <= b && b <= 57 {
        Some(b - 48)
    } else if 97 <= b && b <= 102 {
        Some(b - 87)
    } else if 65 <= b && b <= 70 {
        Some(b - 55)
    } else {
        None
    }
}

/// Lower-case hexadecimal text reads back as the bytes it was written from.
pub proof fn lemma_hex_round_trip(bytes: Seq<u8>)
    ensures
        hex_text(bytes).len() == 2 * bytes.len(),
        all_hex_digits(hex_text(bytes)),
        hex_decoded(hex_text(bytes)) =~= bytes,
{
    let t = hex_text(bytes);
    assert forall|j: int| 0 <= j < t.len() implies #[trigger] hex_digit_value(t[j]) is Some
        && hex_digit_value(t[j])->0 == (if j % 2 == 0 {
        bytes[j / 2] / 16
    } else {
        bytes[j / 2] % 16
    }) by {}
    assert forall|i: int| 0 <= i < bytes.len() implies #[trigger] hex_decoded(t)[i] == bytes[i] by {
        assert((2 * i) % 2 == 0 && (2 * i) / 2 == i);
        assert((2 * i + 1) % 2 == 1 && (2 * i + 1) / 2 == i);
        assert(hex_digit_value(t[2 * i]) is Some);
        assert(hex_digit_value(t[2 * i + 1]) is Some);
    }
}

/// Appends two lower-case hexadecimal digits for each byte of `bytes`.
pub fn write_hex(bytes: &[u8], out: &mut Vec<u8>)
    ensures
        final(out)@ == old(out)@ + hex_text(bytes@),
{
    let ghost start = out@;
    let mut i: usize = 0;
    while i < bytes.len()
        invariant
            i <= bytes.len(),
            out@ =~= start + hex_text(bytes@.take(i as int)),
        decreases bytes.len() - i,
    {
        let b = bytes[i];
        let hi = b / 16;
        let lo = b % 16;
        out.push(if hi < 10 { hi + 48 } else { hi + 87 });
        out.push(if lo < 10 { lo + 48 } else { lo + 87 });
        i = i + 1;
        proof {
            let t = hex_text(bytes@.take(i as int));
            let p = hex_text(bytes@.take(i - 1));
            assert forall|j: int| 0 <= j < p.len() implies #[trigger] t[j] == p[j] by {
                assert(j / 2 < i - 1);
            }
            assert(t[2 * i - 2] == lower_hex_digit(b / 16));
            assert(t[2 * i - 1] == lower_hex_digit(b % 16));
            assert(t =~= p.push(t[2 * i - 2]).push(t[2 * i - 1]));
        }
    }
    assert(bytes@.take(i as int) =~= bytes@);
}

/// The fields of `s` between occurrences of `sep`, as `str::split` yields them:
/// text without `sep` is one field, and each `sep` starts a new one.
pub open spec fn split_fields(s: Seq<u8>, sep: u8) -> Seq<Seq<u8>>
    decreases s.len(),
{
    if s.len() == 0 {
        seq![Seq::empty()]
    } else {
        let fields = split_fields(s.drop_last(), sep);
        if s.last() == sep {
            fields.push(Seq::empty())
        } else {
            fields.update(fields.len() - 1, fields.last().push(s.last()))
        }
    }
}

pub open spec fn free_of(s: Seq<u8>, sep: u8) -> bool {
    forall|i: int| 0 <= i < s.len() ==> #[trigger] s[i] != sep
}

proof fn lemma_split_fields_nonempty(s: Seq<u8>, sep: u8)
    ensures
        split_fields(s, sep).len() >= 1,
    decreases s.len(),
{
    if s.len() > 0 {
        lemma_split_fields_nonempty(s.drop_last(), sep);
    }
}

/// Text free of the separator extends the last field.
pub proof fn lemma_split_fields_extend(s: Seq<u8>, t: Seq<u8>, sep: u8)
    requires
        free_of(t, sep),
    ensures
        split_fields(s + t, sep) == ({
            let f = split_fields(s, sep);
            f.update(f.len() - 1, f.last() + t)
        }),
    decreases t.len(),
{
    lemma_split_fields_nonempty(s, sep);
    let f = split_fields(s, sep);
    if t.len() == 0 {
        assert(s + t =~= s);
        assert(f.update(f.len() - 1, f.last() + t) =~= f);
    } else {
        let u = t.drop_last();
        assert((s + t).drop_last() =~= s + u);
        assert(free_of(u, sep));
        lemma_split_fields_extend(s, u, sep);
        assert(t[t.len() - 1] != sep);
        assert((f.last() + u).push(t.last()) =~= f.last() + t);
        assert(f.update(f.len() - 1, f.last() + u).update(f.len() - 1, f.last() + t) =~= f.update(
            f.len() - 1,
            f.last() + t,
        ));
    }
}

/// A separator starts a new, empty field.
pub proof fn lemma_split_fields_separator(s: Seq<u8>, sep: u8)
    ensures
        split_fields(s.push(sep), sep) == split_fields(s, sep).push(Seq::empty()),
{
    assert(s.push(sep).drop_last() =~= s);
}

/// Three separator-free texts joined by the separator split back into those three.
pub proof fn lemma_split_three(a: Seq<u8>, h: Seq<u8>, b: Seq<u8>, sep: u8)
    requires
        free_of(a, sep),
        free_of(h, sep),
        free_of(b, sep),
    ensures
        split_fields(a + seq![sep] + h + seq![sep] + b, sep) == seq![a, h, b],
{
    let e = Seq::<u8>::empty();
    lemma_split_fields_extend(e, a, sep);
    assert(e + a =~= a);
    assert(split_fields(a, sep) =~= seq![a]);
    let s1 = a.push(sep);
    lemma_split_fields_separator(a, sep);
    assert(split_fields(s1, sep) =~= seq![a, e]);
    lemma_split_fields_extend(s1, h, sep);
    assert(e + h =~= h);
    assert(split_fields(s1 + h, sep) =~= seq![a, h]);
    let s2 = (s1 + h).push(sep);
    lemma_split_fields_separator(s1 + h, sep);
    assert(split_fields(s2, sep) =~= seq![a, h, e]);
    lemma_split_fields_extend(s2, b, sep);
    assert(e + b =~= b);
    assert(s2 + b =~= a + seq![sep] + h + seq![sep] + b);
    assert(split_fields(s2 + b, sep) =~= seq![a, h, b]);
}

/// The fields joined back with the separator between each two.
pub open spec fn join_fields(f: Seq<Seq<u8>>, sep: u8) -> Seq<u8>
    decreases f.len(),
{
    if f.len() <= 1 {
        if f.len() == 1 {
            f[0]
        } else {
            Seq::empty()
        }
    } else {
        join_fields(f.drop_last(), sep) + seq![sep] + f.last()
    }
}

/// Joining the fields of a text with the separator gives back the text.
pub proof fn lemma_split_join(s: Seq<u8>, sep: u8)
    ensures
        join_fields(split_fields(s, sep), sep) == s,
    decreases s.len(),
{
    if s.len() == 0 {
        assert(join_fields(split_fields(s, sep), sep) =~= s);
    } else {
        let t = s.drop_last();
        let c = s.last();
        lemma_split_join(t, sep);
        lemma_split_fields_nonempty(t, sep);
        let f = split_fields(t, sep);
        if c == sep {
            let g = f.push(Seq::empty());
            assert(g.drop_last() =~= f);
            assert(join_fields(g, sep) =~= s);
        } else {
            let g = f.update(f.len() - 1, f.last().push(c));
            if f.len() == 1 {
                assert(join_fields(g, sep) =~= s);
            } else {
                assert(g.drop_last() =~= f.drop_last());
                assert(join_fields(g, sep) =~= join_fields(f, sep).push(c));
                assert(s =~= t.push(c));
            }
        }
    }
}

/// A text of three fields is those fields joined by the separator.
pub proof fn lemma_three_fields_join(s: Seq<u8>, sep: u8)
    requires
        split_fields(s, sep).len() == 3,
    ensures
        ({
            let f = split_fields(s, sep);
            s == f[0] + seq![sep] + f[1] + seq![sep] + f[2]
        }),
{
    lemma_split_join(s, sep);
    let f = split_fields(s, sep);
    let d = f.drop_last();
    assert(d.drop_last() =~= seq![f[0]]);
    assert(d.last() == f[1]);
    assert(join_fields(d.drop_last(), sep) == f[0]);
    assert(join_fields(d, sep) == f[0] + seq![sep] + f[1]);
    assert(join_fields(f, sep) == join_fields(d, sep) + seq![sep] + f[2]);
}

/// Splits `s` at each occurrence of `sep`.
pub fn split_on(s: &[u8], sep: u8) -> (r: Vec<Vec<u8>>)
    ensures
        r@.map_values(|v: Vec<u8>| v@) == split_fields(s@, sep),
{
    let mut done: Vec<Vec<u8>> = Vec::new();
    let mut current: Vec<u8> = Vec::new();
    let mut i: usize = 0;
    assert(s@.take(0) =~= Seq::<u8>::empty());
    while i < s.len()
        invariant
            i <= s.len(),
            split_fields(s@.take(i as int), sep) =~= done@.map_values(|v: Vec<u8>| v@).push(
                current@,
            ),
        decreases s.len() - i,
    {
        let b = s[i];
        assert(s@.take(i + 1).drop_last() =~= s@.take(i as int));
        let ghost before = done@.map_values(|v: Vec<u8>| v@);
        let ghost c = current@;
        if b == sep {
            done.push(current);
            current = Vec::new();
            assert(done@.map_values(|v: Vec<u8>| v@) =~= before.push(c));
        } else {
            current.push(b);
        }
        i = i + 1;
    }
    assert(s@.take(i as int) =~= s@);
    let ghost before = done@.map_values(|v: Vec<u8>| v@);
    let ghost c = current@;
    done.push(current);
    assert(done@.map_values(|v: Vec<u8>| v@) =~= before.push(c));
    done
}

pub open spec fn is_ascii_bytes(s: Seq<u8>) -> bool {
    forall|i: int| 0 <= i < s.len() ==> #[trigger] s[i] < 128
}

/// The characters that ASCII bytes stand for, one each.
pub open spec fn ascii_chars(s: Seq<u8>) -> Seq<char> {
    s.map_values(|b: u8| b as char)
}

/// Relies on `String::from_utf8`: ASCII bytes are valid UTF-8, each byte one
/// character, so the conversion succeeds and keeps the text.
#[verifier::external_body]
pub(crate) fn ascii_string(bytes: Vec<u8>) -> (r: String)
    requires
        is_ascii_bytes(bytes@),
    ensures
        r@ == ascii_chars(bytes@),
{
    String::from_utf8(bytes).unwrap()
}

/// The UTF-8 bytes of a string built from ASCII bytes are those bytes.
pub proof fn lemma_ascii_utf8(bytes: Seq<u8>)
    requires
        is_ascii_bytes(bytes),
    ensures
        encode_utf8(ascii_chars(bytes)) == bytes,
{
    let c = ascii_chars(bytes);
    assert(is_ascii_chars(c));
    vstd::utf8::is_ascii_chars_encode_utf8(c);
    assert(encode_utf8(c) =~= bytes);
}

} // verus!
