use vstd::prelude::*;

use crate::logic_gate::{fresh_gate, GateModel, IdSource, LogicGate, LogicGateMode};
use crate::logic::{dff, dff_gates, dff_inputs};
use crate::logic_unit::{
    add_inputs_model, connect_all_model, first_gate, first_input, first_output, has_gate,
    has_input, has_output, input_position, inputs_model, lemma_first_input, lemma_first_output,
    lemma_has_gate, output_position, InputModel, IoModel, LogicUnit, Output, UnitModel, IO,
};
use crate::utils::{Id, SignalName};
use vstd::utf8::{decode_first_scalar, is_scalar, length_of_first_scalar, valid_first_scalar};

verus! {

// ---------------------------------------------------------------------------
// Bytes: splitting, words, trimming, numbers
//
// The table is UTF-8 text, read byte by byte: its separators (tab, newline, space, `.`,
// `{`, `}`, `[`, `]`) are ASCII, so they split it where its characters do; signal letters
// are decoded as characters, and words are split at every Unicode white-space character.

/// The pieces of `s` between the bytes `sep`, empty pieces included (`"a,,b"` split at
/// `,` gives `"a", "", "b"`; `""` gives one empty piece).
pub open spec fn split_on(s: Seq<u8>, sep: u8) -> Seq<Seq<u8>>
    decreases s.len(),
{
    if s.len() == 0 {
        seq![Seq::empty()]
    } else {
        let r = split_on(s.drop_last(), sep);
        if s.last() == sep {
            r.push(Seq::empty())
        } else {
            r.update(r.len() - 1, r.last().push(s.last()))
        }
    }
}

/// The code point that `s` starts with, and the length of its encoding, when `s` starts
/// with the UTF-8 encoding of a Unicode scalar value.
pub open spec fn first_scalar(s: Seq<u8>) -> Option<(u32, int)> {
    if valid_first_scalar(s) {
        Some((decode_first_scalar(s), length_of_first_scalar(s)))
    } else {
        None
    }
}

/// The character that `s` starts with, read as UTF-8.
pub open spec fn first_char(s: Seq<u8>) -> Option<char> {
    match first_scalar(s) {
        Some((v, _)) => if is_scalar(v) {
            Some(v as char)
        } else {
            None
        },
        None => None,
    }
}

/// The second character of `s`, read as UTF-8.
pub open spec fn second_char(s: Seq<u8>) -> Option<char> {
    match first_scalar(s) {
        Some((_, n)) => first_char(s.skip(n)),
        None => None,
    }
}

/// The code point is white space as `char::is_whitespace` has it (Unicode `White_Space`):
/// `U+0009 .. U+000D`, `U+0020`, `U+0085`, `U+00A0`, `U+1680`, `U+2000 .. U+200A`,
/// `U+2028`, `U+2029`, `U+202F`, `U+205F`, `U+3000`.
pub open spec fn is_white_space(v: u32) -> bool {
    ||| 9 <= v <= 13
    ||| v == 0x20
    ||| v == 0x85
    ||| v == 0xA0
    ||| v == 0x1680
    ||| 0x2000 <= v <= 0x200A
    ||| v == 0x2028
    ||| v == 0x2029
    ||| v == 0x202F
    ||| v == 0x205F
    ||| v == 0x3000
}

/// The length in bytes of the white-space character that starts at byte `i` of `s`, or 0
/// where none does.
pub open spec fn ws_len(s: Seq<u8>, i: int) -> int {
    match first_scalar(s.skip(i)) {
        Some((v, n)) => if is_white_space(v) {
            n
        } else {
            0
        },
        None => 0,
    }
}

/// The words of the bytes of `s` from `i` on, the first of them prefixed by `cur`: the
/// maximal runs without white-space characters.
pub open spec fn words_from(s: Seq<u8>, i: int, cur: Seq<u8>) -> Seq<Seq<u8>>
    decreases s.len() - i,
{
    if i >= s.len() || i < 0 {
        if cur.len() > 0 {
            seq![cur]
        } else {
            Seq::empty()
        }
    } else if ws_len(s, i) > 0 {
        let rest = words_from(s, i + ws_len(s, i), Seq::empty());
        if cur.len() > 0 {
            seq![cur] + rest
        } else {
            rest
        }
    } else {
        words_from(s, i + 1, cur.push(s[i]))
    }
}

/// The words of `s`, as `str::split_whitespace` gives them.
pub open spec fn words(s: Seq<u8>) -> Seq<Seq<u8>> {
    words_from(s, 0, Seq::empty())
}

/// The first word of `s`, if it has one.
pub open spec fn first_word(s: Seq<u8>) -> Option<Seq<u8>> {
    if words(s).len() > 0 {
        Some(words(s)[0])
    } else {
        None
    }
}

/// The byte is `a` or `b`.
pub open spec fn is_either(c: u8, a: u8, b: u8) -> bool {
    c == a || c == b
}

/// `s` without the bytes `a` and `b` at its start.
pub open spec fn trim_start(s: Seq<u8>, a: u8, b: u8) -> Seq<u8>
    decreases s.len(),
{
    if s.len() > 0 && is_either(s[0], a, b) {
        trim_start(s.drop_first(), a, b)
    } else {
        s
    }
}

/// `s` without the bytes `a` and `b` at its end.
pub open spec fn trim_end(s: Seq<u8>, a: u8, b: u8) -> Seq<u8>
    decreases s.len(),
{
    if s.len() > 0 && is_either(s.last(), a, b) {
        trim_end(s.drop_last(), a, b)
    } else {
        s
    }
}

/// `s` without the bytes `a` and `b` at either end.
pub open spec fn trim(s: Seq<u8>, a: u8, b: u8) -> Seq<u8> {
    trim_end(trim_start(s, a, b), a, b)
}

/// The byte is a decimal digit.
pub open spec fn is_digit(c: u8) -> bool {
    48 <= c <= 57
}

/// The number the decimal digits `s` spell.
pub open spec fn digits_value(s: Seq<u8>) -> int
    decreases s.len(),
{
    if s.len() == 0 {
        0
    } else {
        10 * digits_value(s.drop_last()) + (s.last() - 48)
    }
}

/// The digits of a number: `s` without a leading `+` (unless `s` is just `+`).
pub open spec fn number_digits(s: Seq<u8>) -> Seq<u8> {
    if s.len() > 1 && s[0] == 43 {
        s.drop_first()
    } else {
        s
    }
}

/// `s` read as a `u8` the way Rust's `str::parse::<u8>` reads it: an optional `+`, then
/// one or more decimal digits, of value at most 255.
pub open spec fn parse_u8(s: Seq<u8>) -> Option<u8> {
    let d = number_digits(s);
    if d.len() > 0 && (forall|i: int| 0 <= i < d.len() ==> is_digit(#[trigger] d[i])) && digits_value(d)
        <= 255 {
        Some(digits_value(d) as u8)
    } else {
        None
    }
}

/// The pieces of a split are never none.
proof fn lemma_split_on_len(s: Seq<u8>, sep: u8)
    ensures
        split_on(s, sep).len() >= 1,
    decreases s.len(),
{
    if s.len() > 0 {
        lemma_split_on_len(s.drop_last(), sep);
    }
}

/// The views of a sequence of byte vectors.
pub open spec fn pieces(v: Seq<Vec<u8>>) -> Seq<Seq<u8>> {
    v.map_values(|p: Vec<u8>| p@)
}

/// Splits `s` at every byte `sep`.
pub fn split_bytes(s: &[u8], sep: u8) -> (r: Vec<Vec<u8>>)
    ensures
        pieces(r@) == split_on(s@, sep),
{
    let mut out: Vec<Vec<u8>> = Vec::new();
    let mut cur: Vec<u8> = Vec::new();
    let mut i: usize = 0;
    while i < s.len()
        invariant
            i <= s@.len(),
            pieces(out@).push(cur@) == split_on(s@.take(i as int), sep),
        decreases s@.len() - i,
    {
        let ghost before = pieces(out@).push(cur@);
        proof {
            assert(s@.take(i + 1).drop_last() =~= s@.take(i as int));
            lemma_split_on_len(s@.take(i as int), sep);
        }
        if s[i] == sep {
            out.push(cur);
            cur = Vec::new();
            proof {
                assert(pieces(out@).push(cur@) =~= before.push(Seq::empty()));
            }
        } else {
            cur.push(s[i]);
            proof {
                assert(pieces(out@).push(cur@) =~= before.update(
                    before.len() - 1,
                    before.last().push(s@[i as int]),
                ));
            }
        }
        i += 1;
    }
    out.push(cur);
    proof {
        assert(s@.take(s@.len() as int) =~= s@);
        assert(pieces(out@) =~= split_on(s@, sep));
    }
    out
}

/// The code point encoded at byte `i` of `s`, and the length of its encoding, read as
/// UTF-8.
pub fn decode_scalar_at(s: &[u8], i: usize) -> (r: Option<(u32, usize)>)
    requires
        i <= s@.len(),
    ensures
        match first_scalar(s@.skip(i as int)) {
            Some((v, n)) => r == Some((v, n as usize)),
            None => r is None,
        },
{
    let ghost t = s@.skip(i as int);
    if i >= s.len() {
        return None;
    }
    let b0 = s[i];
    assert(t[0] == b0);
    if b0 <= 0x7f {
        return Some(((b0 & 0x7F) as u32, 1));
    }
    if 0xc0 <= b0 && b0 <= 0xdf {
        if s.len() - i < 2 {
            return None;
        }
        let b1 = s[i + 1];
        assert(t[1] == b1);
        if !(0x80 <= b1 && b1 <= 0xbf) {
            return None;
        }
        let v: u32 = (((b0 & 0x1F) as u32) << 6) | ((b1 & 0x3f) as u32);
        if v < 0x80 || (0xD800 <= v && v <= 0xDFFF) {
            return None;
        }
        return Some((v, 2));
    }
    if 0xe0 <= b0 && b0 <= 0xef {
        if s.len() - i < 3 {
            return None;
        }
        let b1 = s[i + 1];
        let b2 = s[i + 2];
        assert(t[1] == b1 && t[2] == b2);
        if !(0x80 <= b1 && b1 <= 0xbf && 0x80 <= b2 && b2 <= 0xbf) {
            return None;
        }
        let v: u32 = (((b0 & 0x0F) as u32) << 12) | (((b1 & 0x3f) as u32) << 6) | ((b2 & 0x3f) as u32);
        if v < 0x800 || (0xD800 <= v && v <= 0xDFFF) {
            return None;
        }
        return Some((v, 3));
    }
    if 0xf0 <= b0 && b0 <= 0xf7 {
        if s.len() - i < 4 {
            return None;
        }
        let b1 = s[i + 1];
        let b2 = s[i + 2];
        let b3 = s[i + 3];
        assert(t[1] == b1 && t[2] == b2 && t[3] == b3);
        if !(0x80 <= b1 && b1 <= 0xbf && 0x80 <= b2 && b2 <= 0xbf && 0x80 <= b3 && b3 <= 0xbf) {
            return None;
        }
        let v: u32 = (((b0 & 0x07) as u32) << 18) | (((b1 & 0x3f) as u32) << 12) | (((b2 & 0x3f) as u32)
            << 6) | ((b3 & 0x3f) as u32);
        if !(0x10000 <= v && v <= 0x10ffff) || (0xD800 <= v && v <= 0xDFFF) {
            return None;
        }
        return Some((v, 4));
    }
    None
}

/// `char::from_u32`: the character with the code point `v`, when `v` is a Unicode scalar
/// value (at most `0x10FFFF` and outside the surrogates `0xD800 .. 0xDFFF`); none otherwise.
#[verifier::external_body]
fn char_from_u32(v: u32) -> (r: Option<char>)
    ensures
        r == (if is_scalar(v) {
            Some(v as char)
        } else {
            None
        }),
{
    char::from_u32(v)
}

/// The character that `s` starts with, read as UTF-8.
pub fn first_char_of(s: &[u8]) -> (r: Option<char>)
    ensures
        r == first_char(s@),
{
    proof {
        assert(s@.skip(0) =~= s@);
    }
    match decode_scalar_at(s, 0) {
        Some((v, _)) => char_from_u32(v),
        None => None,
    }
}

/// The second character of `s`, read as UTF-8.
pub fn second_char_of(s: &[u8]) -> (r: Option<char>)
    ensures
        r == second_char(s@),
{
    proof {
        assert(s@.skip(0) =~= s@);
    }
    match decode_scalar_at(s, 0) {
        Some((_, n)) => {
            proof {
                assert(valid_first_scalar(s@));
            }
            match decode_scalar_at(s, n) {
                Some((v, _)) => char_from_u32(v),
                None => None,
            }
        },
        None => None,
    }
}

/// The words of `s`.
pub fn split_words(s: &[u8]) -> (r: Vec<Vec<u8>>)
    ensures
        pieces(r@) == words(s@),
{
    let mut out: Vec<Vec<u8>> = Vec::new();
    let mut cur: Vec<u8> = Vec::new();
    let mut i: usize = 0;
    proof {
        assert(pieces(out@) =~= Seq::<Seq<u8>>::empty());
        assert(words(s@) =~= pieces(out@) + words_from(s@, 0, cur@));
    }
    while i < s.len()
        invariant
            i <= s@.len(),
            words(s@) == pieces(out@) + words_from(s@, i as int, cur@),
        decreases s@.len() - i,
    {
        let ghost before = words_from(s@, i as int, cur@);
        let w: usize = match decode_scalar_at(s, i) {
            Some((v, n)) => if v == 0x20 || (9 <= v && v <= 13) || v == 0x85 || v == 0xA0 || v == 0x1680 || (
            0x2000 <= v && v <= 0x200A) || v == 0x2028 || v == 0x2029 || v == 0x202F || v == 0x205F || v
                == 0x3000 {
                n
            } else {
                0
            },
            None => 0,
        };
        assert(w == ws_len(s@, i as int));
        if w > 0 {
            proof {
                assert(valid_first_scalar(s@.skip(i as int)));
                assert(w <= s@.len() - i);
            }
            let ghost rest = words_from(s@, i + w, Seq::empty());
            if cur.len() > 0 {
                proof {
                    assert(before == seq![cur@] + rest);
                }
                let ghost old_out = pieces(out@);
                let ghost c = cur@;
                out.push(cur);
                proof {
                    assert(pieces(out@) =~= old_out.push(c));
                    assert(old_out.push(c) + rest =~= old_out + (seq![c] + rest));
                }
            }
            cur = Vec::new();
            proof {
                assert(cur@ =~= Seq::<u8>::empty());
            }
            i = i + w;
        } else {
            cur.push(s[i]);
            i = i + 1;
        }
    }
    proof {
        let last = words_from(s@, i as int, cur@);
        assert(last == (if cur@.len() > 0 {
            seq![cur@]
        } else {
            Seq::empty()
        }));
    }
    if cur.len() > 0 {
        let ghost old_out = pieces(out@);
        let ghost c = cur@;
        out.push(cur);
        proof {
            assert(pieces(out@) =~= old_out + seq![c]);
        }
    } else {
        proof {
            assert(pieces(out@) =~= pieces(out@) + Seq::<Seq<u8>>::empty());
        }
    }
    out
}

/// `s` without the bytes `a` and `b` at either end.
pub fn trim_bytes(s: &[u8], a: u8, b: u8) -> (r: Vec<u8>)
    ensures
        r@ == trim(s@, a, b),
{
    let mut i: usize = 0;
    proof {
        assert(s@.subrange(0, s@.len() as int) =~= s@);
    }
    while i < s.len() && (s[i] == a || s[i] == b)
        invariant
            i <= s@.len(),
            trim_start(s@, a, b) == trim_start(s@.subrange(i as int, s@.len() as int), a, b),
        decreases s@.len() - i,
    {
        proof {
            let t = s@.subrange(i as int, s@.len() as int);
            assert(t.drop_first() =~= s@.subrange(i + 1, s@.len() as int));
        }
        i += 1;
    }
    let ghost mid = s@.subrange(i as int, s@.len() as int);
    proof {
        assert(trim_start(mid, a, b) == mid);
    }
    let mut j: usize = s.len();
    while j > i && (s[j - 1] == a || s[j - 1] == b)
        invariant
            i <= j <= s@.len(),
            mid == s@.subrange(i as int, s@.len() as int),
            trim_end(mid, a, b) == trim_end(s@.subrange(i as int, j as int), a, b),
        decreases j,
    {
        proof {
            let t = s@.subrange(i as int, j as int);
            assert(t.drop_last() =~= s@.subrange(i as int, j - 1));
        }
        j -= 1;
    }
    let mut r: Vec<u8> = Vec::new();
    let mut k: usize = i;
    while k < j
        invariant
            i <= k <= j <= s@.len(),
            r@ == s@.subrange(i as int, k as int),
        decreases j - k,
    {
        r.push(s[k]);
        proof {
            assert(r@ =~= s@.subrange(i as int, k + 1));
        }
        k += 1;
    }
    proof {
        assert(trim_end(s@.subrange(i as int, j as int), a, b) == s@.subrange(i as int, j as int));
    }
    r
}

/// Digits keep their value as a prefix of a longer run of digits.
proof fn lemma_digits_grow(d: Seq<u8>, k: int)
    requires
        0 <= k <= d.len(),
        forall|i: int| 0 <= i < d.len() ==> is_digit(#[trigger] d[i]),
    ensures
        digits_value(d) >= digits_value(d.take(k)),
        digits_value(d.take(k)) >= 0,
    decreases d.len(),
{
    if k == d.len() {
        assert(d.take(k) =~= d);
        lemma_digits_nonneg(d);
    } else {
        lemma_digits_grow(d.drop_last(), k);
        assert(d.drop_last().take(k) =~= d.take(k));
        lemma_digits_nonneg(d.drop_last());
    }
}

/// Digits spell a number that is not negative.
proof fn lemma_digits_nonneg(d: Seq<u8>)
    requires
        forall|i: int| 0 <= i < d.len() ==> is_digit(#[trigger] d[i]),
    ensures
        digits_value(d) >= 0,
    decreases d.len(),
{
    if d.len() > 0 {
        lemma_digits_nonneg(d.drop_last());
    }
}

/// Where the digits are missing, are not all digits or spell more than 255, there is no
/// `u8`.
proof fn lemma_parse_u8_none(s: Seq<u8>)
    requires
        number_digits(s).len() == 0 || !(forall|i: int|
            0 <= i < number_digits(s).len() ==> is_digit(#[trigger] number_digits(s)[i]))
            || digits_value(number_digits(s)) > 255,
    ensures
        parse_u8(s) is None,
{
}

/// Reads `s` as a `u8`, as Rust's `str::parse::<u8>` does.
pub fn parse_u8_bytes(s: &[u8]) -> (r: Option<u8>)
    ensures
        r == parse_u8(s@),
{
    let start: usize = if s.len() > 1 && s[0] == 43 { 1 } else { 0 };
    let ghost d = s@.subrange(start as int, s@.len() as int);
    proof {
        if start == 1 {
            assert(d =~= s@.drop_first());
        } else {
            assert(d =~= s@);
        }
        assert(d == number_digits(s@));
    }
    if start == s.len() {
        proof {
            lemma_parse_u8_none(s@);
        }
        return None;
    }
    let mut acc: u32 = 0;
    let mut k: usize = start;
    while k < s.len()
        invariant
            start <= k <= s@.len(),
            d == s@.subrange(start as int, s@.len() as int),
            d == number_digits(s@),
            forall|i: int| 0 <= i < k - start ==> is_digit(#[trigger] d[i]),
            acc == digits_value(d.take(k - start)),
            acc <= 255,
        decreases s@.len() - k,
    {
        let c = s[k];
        if c < 48 || c > 57 {
            proof {
                assert(!is_digit(d[k - start]));
                lemma_parse_u8_none(s@);
            }
            return None;
        }
        proof {
            assert(d.take(k - start + 1).drop_last() =~= d.take(k - start));
            assert(d.take(k - start + 1).last() == c);
            assert(digits_value(d.take(k - start + 1)) == 10 * acc + (c - 48));
        }
        acc = acc * 10 + (c - 48) as u32;
        if acc > 255 {
            proof {
                if forall|i: int| 0 <= i < d.len() ==> is_digit(#[trigger] d[i]) {
                    lemma_digits_grow(d, k - start + 1);
                    assert(digits_value(d) > 255);
                }
                lemma_parse_u8_none(s@);
            }
            return None;
        }
        k += 1;
    }
    proof {
        assert(d.take(d.len() as int) =~= d);
    }
    Some(acc as u8)
}

/// The bytes `a` and `b` are equal.
pub fn bytes_eq(a: &[u8], b: &[u8]) -> (r: bool)
    ensures
        r == (a@ == b@),
{
    if a.len() != b.len() {
        return false;
    }
    let mut i: usize = 0;
    while i < a.len()
        invariant
            i <= a@.len(),
            a@.len() == b@.len(),
            forall|j: int| 0 <= j < i ==> a@[j] == b@[j],
        decreases a@.len() - i,
    {
        if a[i] != b[i] {
            return false;
        }
        i += 1;
    }
    proof {
        assert(a@ =~= b@);
    }
    true
}

// ---------------------------------------------------------------------------
// Errors

/// Why a table could not be read.
#[derive(Debug, Clone, Copy, PartialEq, Eq, Structural)]
pub enum TableError {
    /// A record has fewer than six fields.
    MissingField,
    /// A port record is neither `pi` nor `po`.
    BadDirection,
    /// A port name has no character to name the signal by.
    BadName,
    /// A cell type other than the supported gates and `$_DFF_P_`.
    BadCellType,
    /// A pin that is empty or that the cell does not have.
    BadPin,
    /// A pin direction other than `in` and `out`.
    BadPinType,
    /// A connection that names nothing.
    BadConnection,
    /// A bit of a port that was never declared.
    UnknownPort,
    /// A bit index that is not a number from 0 to 255.
    BadIndex,
    /// A wire whose driver is neither a gate nor a declared output.
    UnknownDriver,
    /// The ids ran out: a cell needs ids past `u32::MAX`.
    OutOfIds,
}

// ---------------------------------------------------------------------------
// Name tables

/// A table from port names to signal names, as a sequence of entries.
pub open spec fn names_model(v: Seq<(Vec<u8>, SignalName)>) -> Seq<(Seq<u8>, SignalName)> {
    v.map_values(|e: (Vec<u8>, SignalName)| (e.0@, e.1))
}

/// No name occurs twice.
pub open spec fn names_unique(m: Seq<(Seq<u8>, SignalName)>) -> bool {
    forall|i: int, j: int| 0 <= i < m.len() && 0 <= j < m.len() && #[trigger] m[i].0 == #[trigger] m[j].0 ==> i == j
}

/// The signal that `key` is mapped to, if any.
pub open spec fn name_lookup(m: Seq<(Seq<u8>, SignalName)>, key: Seq<u8>) -> Option<SignalName> {
    if exists|i: int| 0 <= i < m.len() && m[i].0 == key {
        Some(m[choose|i: int| 0 <= i < m.len() && m[i].0 == key].1)
    } else {
        None
    }
}

/// The table with `key` mapped to `sn`, replacing an earlier mapping.
pub open spec fn name_insert(m: Seq<(Seq<u8>, SignalName)>, key: Seq<u8>, sn: SignalName) -> Seq<
    (Seq<u8>, SignalName),
> {
    if exists|i: int| 0 <= i < m.len() && m[i].0 == key {
        m.update(choose|i: int| 0 <= i < m.len() && m[i].0 == key, (key, sn))
    } else {
        m.push((key, sn))
    }
}

/// Finds the entry for `key`.
fn find_name(m: &Vec<(Vec<u8>, SignalName)>, key: &[u8]) -> (r: Option<usize>)
    requires
        names_unique(names_model(m@)),
    ensures
        match r {
            Some(i) => i < m@.len() && names_model(m@)[i as int].0 == key@ && name_lookup(
                names_model(m@),
                key@,
            ) == Some(m@[i as int].1) && (choose|j: int|
                0 <= j < names_model(m@).len() && names_model(m@)[j].0 == key@) == i,
            None => name_lookup(names_model(m@), key@) is None,
        },
{
    let ghost mm = names_model(m@);
    let mut i: usize = 0;
    while i < m.len()
        invariant
            i <= m@.len(),
            mm == names_model(m@),
            names_unique(mm),
            forall|j: int| 0 <= j < i ==> mm[j].0 != key@,
        decreases m@.len() - i,
    {
        if bytes_eq(m[i].0.as_slice(), key) {
            proof {
                assert(mm[i as int] == (m@[i as int].0@, m@[i as int].1));
                assert(mm[i as int].0 == key@);
                assert(exists|j: int| 0 <= j < mm.len() && mm[j].0 == key@);
                let c = choose|j: int| 0 <= j < mm.len() && mm[j].0 == key@;
                assert(mm[c].0 == mm[i as int].0);
            }
            return Some(i);
        }
        i += 1;
    }
    None
}

/// Maps `key` to `sn`, replacing an earlier mapping.
fn insert_name(m: &mut Vec<(Vec<u8>, SignalName)>, key: &[u8], sn: SignalName)
    requires
        names_unique(names_model(old(m)@)),
    ensures
        names_model(final(m)@) == name_insert(names_model(old(m)@), key@, sn),
        names_unique(names_model(final(m)@)),
{
    let ghost before = names_model(m@);
    let mut k: Vec<u8> = Vec::new();
    let mut t: usize = 0;
    while t < key.len()
        invariant
            t <= key@.len(),
            k@ == key@.take(t as int),
        decreases key@.len() - t,
    {
        k.push(key[t]);
        proof {
            assert(key@.take(t + 1) =~= key@.take(t as int).push(key@[t as int]));
        }
        t += 1;
    }
    proof {
        assert(key@.take(key@.len() as int) =~= key@);
    }
    match find_name(m, key) {
        Some(i) => {
            m.set(i, (k, sn));
            proof {
                assert(names_model(m@) =~= before.update(i as int, (key@, sn)));
            }
        },
        None => {
            m.push((k, sn));
            proof {
                assert(names_model(m@) =~= before.push((key@, sn)));
                assert(!(exists|i: int| 0 <= i < before.len() && before[i].0 == key@));
            }
        },
    }
}

// ---------------------------------------------------------------------------
// Wires between cells

/// The wires as values: name, driving gate (0 while none) and driven gates.
pub open spec fn wires_model(v: Seq<(Vec<u8>, Id, Vec<Id>)>) -> Seq<(Seq<u8>, Id, Seq<Id>)> {
    v.map_values(|e: (Vec<u8>, Id, Vec<Id>)| (e.0@, e.1, e.2@))
}

/// No wire name occurs twice.
pub open spec fn wires_unique(w: Seq<(Seq<u8>, Id, Seq<Id>)>) -> bool {
    forall|i: int, j: int| 0 <= i < w.len() && 0 <= j < w.len() && #[trigger] w[i].0 == #[trigger] w[j].0 ==> i == j
}

/// The wires after the wire `name` gets the driven gates `ids` as well (a new wire with no
/// driver if there was none).
pub open spec fn wire_add(w: Seq<(Seq<u8>, Id, Seq<Id>)>, name: Seq<u8>, ids: Seq<Id>) -> Seq<
    (Seq<u8>, Id, Seq<Id>),
> {
    if exists|i: int| 0 <= i < w.len() && w[i].0 == name {
        let i = choose|i: int| 0 <= i < w.len() && w[i].0 == name;
        w.update(i, (name, w[i].1, w[i].2 + ids))
    } else {
        w.push((name, 0, ids))
    }
}

/// The wires after the wire `name` gets the driver `id` (a new wire driving nothing if
/// there was none).
pub open spec fn wire_drive(w: Seq<(Seq<u8>, Id, Seq<Id>)>, name: Seq<u8>, id: Id) -> Seq<
    (Seq<u8>, Id, Seq<Id>),
> {
    if exists|i: int| 0 <= i < w.len() && w[i].0 == name {
        let i = choose|i: int| 0 <= i < w.len() && w[i].0 == name;
        w.update(i, (name, id, w[i].2))
    } else {
        w.push((name, id, Seq::empty()))
    }
}

/// Copies the bytes of `s`.
fn copy_bytes(s: &[u8]) -> (r: Vec<u8>)
    ensures
        r@ == s@,
{
    let mut k: Vec<u8> = Vec::new();
    let mut t: usize = 0;
    while t < s.len()
        invariant
            t <= s@.len(),
            k@ == s@.take(t as int),
        decreases s@.len() - t,
    {
        k.push(s[t]);
        proof {
            assert(s@.take(t + 1) =~= s@.take(t as int).push(s@[t as int]));
        }
        t += 1;
    }
    proof {
        assert(s@.take(s@.len() as int) =~= s@);
    }
    k
}

/// Finds the wire `name`.
fn find_wire(w: &Vec<(Vec<u8>, Id, Vec<Id>)>, name: &[u8]) -> (r: Option<usize>)
    requires
        wires_unique(wires_model(w@)),
    ensures
        match r {
            Some(i) => i < w@.len() && wires_model(w@)[i as int].0 == name@ && (choose|j: int|
                0 <= j < wires_model(w@).len() && wires_model(w@)[j].0 == name@) == i,
            None => !(exists|j: int| 0 <= j < wires_model(w@).len() && wires_model(w@)[j].0 == name@),
        },
{
    let ghost ww = wires_model(w@);
    let mut i: usize = 0;
    while i < w.len()
        invariant
            i <= w@.len(),
            ww == wires_model(w@),
            wires_unique(ww),
            forall|j: int| 0 <= j < i ==> ww[j].0 != name@,
        decreases w@.len() - i,
    {
        if bytes_eq(w[i].0.as_slice(), name) {
            proof {
                assert(ww[i as int] == (w@[i as int].0@, w@[i as int].1, w@[i as int].2@));
                assert(ww[i as int].0 == name@);
                assert(exists|j: int| 0 <= j < ww.len() && ww[j].0 == name@);
                let c = choose|j: int| 0 <= j < ww.len() && ww[j].0 == name@;
                assert(ww[c].0 == ww[i as int].0);
            }
            return Some(i);
        }
        i += 1;
    }
    None
}

/// Lets the wire `name` drive the gates `ids` as well.
fn add_to_wire(w: &mut Vec<(Vec<u8>, Id, Vec<Id>)>, name: &[u8], ids: &Vec<Id>)
    requires
        wires_unique(wires_model(old(w)@)),
    ensures
        wires_model(final(w)@) == wire_add(wires_model(old(w)@), name@, ids@),
        wires_unique(wires_model(final(w)@)),
{
    let ghost before = wires_model(w@);
    match find_wire(w, name) {
        Some(i) => {
            let ghost w0 = w@;
            let mut e = w.remove(i);
            let mut t: usize = 0;
            let ghost old_ids = e.2@;
            let ghost e0 = e;
            while t < ids.len()
                invariant
                    t <= ids@.len(),
                    e.0 == e0.0,
                    e.1 == e0.1,
                    e.2@ == old_ids + ids@.take(t as int),
                decreases ids@.len() - t,
            {
                e.2.push(ids[t]);
                proof {
                    assert(ids@.take(t + 1) =~= ids@.take(t as int).push(ids@[t as int]));
                }
                t += 1;
            }
            proof {
                assert(ids@.take(ids@.len() as int) =~= ids@);
            }
            let ghost e_final = e;
            w.insert(i, e);
            proof {
                assert(w@ =~= w0.update(i as int, e_final));
                assert(wires_model(w@) =~= before.update(i as int, (name@, before[i as int].1, before[i as int].2 + ids@)));
            }
        },
        None => {
            let k = copy_bytes(name);
            let v = ids.clone();
            w.push((k, 0, v));
            proof {
                assert(wires_model(w@) =~= before.push((name@, 0, ids@)));
            }
        },
    }
}

/// Makes gate `id` the driver of the wire `name`.
fn drive_wire(w: &mut Vec<(Vec<u8>, Id, Vec<Id>)>, name: &[u8], id: Id)
    requires
        wires_unique(wires_model(old(w)@)),
    ensures
        wires_model(final(w)@) == wire_drive(wires_model(old(w)@), name@, id),
        wires_unique(wires_model(final(w)@)),
{
    let ghost before = wires_model(w@);
    match find_wire(w, name) {
        Some(i) => {
            let ghost w0 = w@;
            let mut e = w.remove(i);
            e.1 = id;
            let ghost e_final = e;
            w.insert(i, e);
            proof {
                assert(w@ =~= w0.update(i as int, e_final));
            }
            proof {
                assert(wires_model(w@) =~= before.update(i as int, (name@, id, before[i as int].2)));
            }
        },
        None => {
            let k = copy_bytes(name);
            w.push((k, id, Vec::new()));
            proof {
                assert(wires_model(w@) =~= before.push((name@, id, Seq::empty())));
            }
        },
    }
}

// ---------------------------------------------------------------------------
// Port bits

/// The signal a connection `s` names through the table `m`: its first space-separated
/// piece is looked up, and a second piece, with the brackets around it trimmed, is the bit
/// index.
pub open spec fn raw_name(m: Seq<(Seq<u8>, SignalName)>, s: Seq<u8>) -> Result<SignalName, TableError> {
    let ps = split_on(s, 32);
    match name_lookup(m, ps[0]) {
        None => Err(TableError::UnknownPort),
        Some(sn) => if ps.len() > 1 {
            match parse_u8(trim(ps[1], 91, 93)) {
                Some(n) => Ok(SignalName(sn.0, n)),
                None => Err(TableError::BadIndex),
            }
        } else {
            Ok(sn)
        },
    }
}

/// The signal that the connection `s` names through the table `map`.
pub fn parse_raw_name(map: &Vec<(Vec<u8>, SignalName)>, s: &[u8]) -> (r: Result<
    SignalName,
    TableError,
>)
    requires
        names_unique(names_model(map@)),
    ensures
        r == raw_name(names_model(map@), s@),
{
    let ps = split_bytes(s, 32);
    proof {
        lemma_split_on_len(s@, 32);
        assert(pieces(ps@).len() >= 1);
        assert(ps@[0]@ == split_on(s@, 32)[0]);
    }
    match find_name(map, ps[0].as_slice()) {
        None => Err(TableError::UnknownPort),
        Some(i) => {
            let sn = map[i].1;
            if ps.len() > 1 {
                proof {
                    assert(ps@[1]@ == split_on(s@, 32)[1]);
                }
                let t = trim_bytes(ps[1].as_slice(), 91, 93);
                match parse_u8_bytes(t.as_slice()) {
                    Some(n) => Ok(SignalName(sn.0, n)),
                    None => Err(TableError::BadIndex),
                }
            } else {
                Ok(sn)
            }
        },
    }
}

// ---------------------------------------------------------------------------
// Reading the records

/// `"$_DFF_P_"`, the D flip-flop cell.
pub open spec fn dff_cell() -> Seq<u8> {
    seq![36, 95, 68, 70, 70, 95, 80, 95]
}

/// The mode of a cell type: `$_AND_`, `$_OR_`, `$_NAND_` and `$_NOT_` (a one-input
/// `nand`), `$_NOR_`, `$_XOR_`, `$_XNOR_`.
pub open spec fn cell_mode(t: Seq<u8>) -> Option<LogicGateMode> {
    if t == seq![36u8, 95, 65, 78, 68, 95] {
        Some(LogicGateMode::And)
    } else if t == seq![36u8, 95, 79, 82, 95] {
        Some(LogicGateMode::Or)
    } else if t == seq![36u8, 95, 78, 65, 78, 68, 95] || t == seq![36u8, 95, 78, 79, 84, 95] {
        Some(LogicGateMode::Nand)
    } else if t == seq![36u8, 95, 78, 79, 82, 95] {
        Some(LogicGateMode::Nor)
    } else if t == seq![36u8, 95, 88, 79, 82, 95] {
        Some(LogicGateMode::Xor)
    } else if t == seq![36u8, 95, 88, 78, 79, 82, 95] {
        Some(LogicGateMode::Xnor)
    } else {
        None
    }
}

/// `"pi"`, a primary input.
pub open spec fn dir_pi() -> Seq<u8> {
    seq![112, 105]
}

/// `"po"`, a primary output.
pub open spec fn dir_po() -> Seq<u8> {
    seq![112, 111]
}

/// `"in"`, an input pin.
pub open spec fn pin_in() -> Seq<u8> {
    seq![105, 110]
}

/// `"out"`, an output pin.
pub open spec fn pin_out() -> Seq<u8> {
    seq![111, 117, 116]
}

/// What reading a table has built so far: the unit, the last id handed out, the port
/// names, the wires between cells, the interface of the cell being read and the name of
/// that cell (none after a port record).
pub struct TableState {
    pub gates: Seq<GateModel>,
    pub inputs: Seq<InputModel>,
    pub outputs: Seq<Output>,
    pub next: int,
    pub ins: Seq<(Seq<u8>, SignalName)>,
    pub outs: Seq<(Seq<u8>, SignalName)>,
    pub wires: Seq<(Seq<u8>, Id, Seq<Id>)>,
    pub cell: IoModel,
    pub prev: Option<Seq<u8>>,
}

/// Nothing read yet, with `b` the last id handed out.
pub open spec fn table_start(b: int) -> TableState {
    TableState {
        gates: Seq::empty(),
        inputs: Seq::empty(),
        outputs: Seq::empty(),
        next: b,
        ins: Seq::empty(),
        outs: Seq::empty(),
        wires: Seq::empty(),
        cell: IoModel { inputs: Seq::empty(), outputs: Seq::empty() },
        prev: None,
    }
}

/// The interface of a single-gate cell: inputs `A`, `B` and output `Y`, all of them gate `id`.
pub open spec fn gate_cell(id: Id) -> IoModel {
    IoModel {
        inputs: seq![
            InputModel { name: SignalName('A', 0), ids: seq![id] },
            InputModel { name: SignalName('B', 0), ids: seq![id] },
        ],
        outputs: seq![Output { name: SignalName('Y', 0), id }],
    }
}

/// A new cell of type `t`: a D flip-flop (six gates) or one gate.
pub open spec fn new_cell(st: TableState, t: Seq<u8>) -> Result<TableState, TableError> {
    if t == dff_cell() && st.next + 6 > u32::MAX {
        Err(TableError::OutOfIds)
    } else if t == dff_cell() {
        Ok(
            TableState {
                gates: st.gates + dff_gates(st.next),
                cell: IoModel {
                    inputs: dff_inputs(st.next),
                    outputs: seq![Output { name: SignalName('Q', 0), id: (st.next + 1) as Id }],
                },
                next: st.next + 6,
                ..st
            },
        )
    } else {
        match cell_mode(t) {
            None => Err(TableError::BadCellType),
            Some(_) if st.next + 1 > u32::MAX => Err(TableError::OutOfIds),
            Some(mode) => Ok(
                TableState {
                    gates: st.gates.push(fresh_gate((st.next + 1) as Id, mode, false)),
                    cell: gate_cell((st.next + 1) as Id),
                    next: st.next + 1,
                    ..st
                },
            ),
        }
    }
}

/// The pin of a cell record `r` (fields 3 to 5: pin name, `in` or `out`, connection):
/// an input pin joins the gates it drives to the port bit or the wire it is connected
/// to; an output pin becomes the driver of that port bit or wire.
pub open spec fn pin_step(st: TableState, r: Seq<Seq<u8>>) -> Result<TableState, TableError> {
    if first_char(r[3]) is None {
        Err(TableError::BadPin)
    } else {
        let pin = SignalName(first_char(r[3])->Some_0, 0);
        if r[4] == pin_in() {
            if !has_input(st.cell.inputs, pin) {
                Err(TableError::BadPin)
            } else {
                let ids = st.cell.inputs[first_input(st.cell.inputs, pin)].ids;
                match first_word(r[5]) {
                    None => Err(TableError::BadConnection),
                    Some(w) => if name_lookup(st.ins, w) is None {
                        Ok(TableState { wires: wire_add(st.wires, r[5], ids), ..st })
                    } else {
                        match raw_name(st.ins, r[5]) {
                            Err(e) => Err(e),
                            Ok(sn) => Ok(
                                TableState {
                                    inputs: if has_input(st.inputs, sn) {
                                        add_inputs_model(st.inputs, sn, ids)
                                    } else {
                                        st.inputs.push(InputModel { name: sn, ids })
                                    },
                                    ..st
                                },
                            ),
                        }
                    },
                }
            }
        } else if r[4] == pin_out() {
            if !has_output(st.cell.outputs, pin) {
                Err(TableError::BadPin)
            } else {
                let id = st.cell.outputs[first_output(st.cell.outputs, pin)].id;
                match first_word(r[5]) {
                    None => Err(TableError::BadConnection),
                    Some(w) => if name_lookup(st.outs, w) is None {
                        Ok(TableState { wires: wire_drive(st.wires, r[5], id), ..st })
                    } else {
                        match raw_name(st.outs, r[5]) {
                            Err(e) => Err(e),
                            Ok(sn) => Ok(
                                TableState {
                                    outputs: if has_output(st.outputs, sn) {
                                        st.outputs.update(
                                            first_output(st.outputs, sn),
                                            Output { name: sn, id },
                                        )
                                    } else {
                                        st.outputs.push(Output { name: sn, id })
                                    },
                                    ..st
                                },
                            ),
                        }
                    },
                }
            }
        } else {
            Err(TableError::BadPinType)
        }
    }
}

/// A cell record `r` (field 1: cell name, field 2: cell type): a record that starts a new
/// cell (its name differs from the previous record's) creates the cell; then its pin is
/// read.
pub open spec fn body_step(st: TableState, r: Seq<Seq<u8>>) -> Result<TableState, TableError> {
    let first = if st.prev == Some(r[1]) {
        Ok(st)
    } else {
        new_cell(st, r[2])
    };
    match first {
        Err(e) => Err(e),
        Ok(s1) => match pin_step(s1, r) {
            Err(e) => Err(e),
            Ok(s2) => Ok(TableState { prev: Some(r[1]), ..s2 }),
        },
    }
}

/// The first `k` of the words `ws` of a bus port, taken from the last: the `n`-th from the
/// last names bit `n` of the signal named by the first character of its last `.`-separated
/// part.
pub open spec fn port_words(
    ins: Seq<(Seq<u8>, SignalName)>,
    outs: Seq<(Seq<u8>, SignalName)>,
    ws: Seq<Seq<u8>>,
    dir: Seq<u8>,
    k: int,
) -> Result<(Seq<(Seq<u8>, SignalName)>, Seq<(Seq<u8>, SignalName)>), TableError>
    decreases k,
{
    if k <= 0 {
        Ok((ins, outs))
    } else {
        match port_words(ins, outs, ws, dir, k - 1) {
            Err(e) => Err(e),
            Ok(maps) => {
                let n = k - 1;
                let name = ws[ws.len() - 1 - n];
                let part = split_on(name, 46).last();
                if first_char(part) is None {
                    Err(TableError::BadName)
                } else {
                    let sn = SignalName(first_char(part)->Some_0, n as u8);
                    if dir == dir_pi() {
                        Ok((name_insert(maps.0, name, sn), maps.1))
                    } else if dir == dir_po() {
                        Ok((maps.0, name_insert(maps.1, name, sn)))
                    } else {
                        Err(TableError::BadDirection)
                    }
                }
            },
        }
    }
}

/// The port names after the port record `r` (field 4: `pi` or `po`, field 5: the name):
/// a bus `{..}` names its bits word by word; a single port is named by its second
/// character.
pub open spec fn header_maps(
    ins: Seq<(Seq<u8>, SignalName)>,
    outs: Seq<(Seq<u8>, SignalName)>,
    r: Seq<Seq<u8>>,
) -> Result<(Seq<(Seq<u8>, SignalName)>, Seq<(Seq<u8>, SignalName)>), TableError> {
    if r[5].len() > 0 && r[5][0] == 123 {
        let ws = words(trim(r[5], 123, 125));
        port_words(ins, outs, ws, r[4], ws.len() as int)
    } else if r[4] == dir_pi() {
        match second_char(r[5]) {
            None => Err(TableError::BadName),
            Some(c) => Ok((name_insert(ins, r[5], SignalName(c, 0)), outs)),
        }
    } else if r[4] == dir_po() {
        match second_char(r[5]) {
            None => Err(TableError::BadName),
            Some(c) => Ok((ins, name_insert(outs, r[5], SignalName(c, 0)))),
        }
    } else {
        Err(TableError::BadDirection)
    }
}

/// A port record `r`.
pub open spec fn header_step(st: TableState, r: Seq<Seq<u8>>) -> Result<TableState, TableError> {
    match header_maps(st.ins, st.outs, r) {
        Err(e) => Err(e),
        Ok(maps) => Ok(TableState { ins: maps.0, outs: maps.1, prev: None, ..st }),
    }
}

/// One record: six fields at least; a cell record when field 1 starts with `$`.
pub open spec fn record_step(st: TableState, r: Seq<Seq<u8>>) -> Result<TableState, TableError> {
    if r.len() < 6 {
        Err(TableError::MissingField)
    } else if r[1].len() > 0 && r[1][0] == 36 {
        body_step(st, r)
    } else {
        header_step(st, r)
    }
}

/// One line: empty lines are skipped, others are records of tab-separated fields.
#[verifier::opaque]
pub open spec fn line_step(st: TableState, line: Seq<u8>) -> Result<TableState, TableError> {
    if line.len() == 0 {
        Ok(st)
    } else {
        record_step(st, split_on(line, 9))
    }
}

/// The state after the first `n` lines, starting from the last id `b`.
pub open spec fn read_lines(b: int, lines: Seq<Seq<u8>>, n: int) -> Result<TableState, TableError>
    decreases n,
{
    if n <= 0 {
        Ok(table_start(b))
    } else {
        match read_lines(b, lines, n - 1) {
            Err(e) => Err(e),
            Ok(st) => line_step(st, lines[n - 1]),
        }
    }
}

/// Each cell becomes one gate computing its Boolean function: the yosys types
/// `$_AND_`, `$_OR_`, `$_NAND_`, `$_NOT_` (a one-input `nand`), `$_NOR_`, `$_XOR_` and
/// `$_XNOR_` each start a cell of one new gate, with the next id, in the mode of the same
/// name, off and driving nothing; the gates read before stay as they were.
pub proof fn law_cell_gate_modes(st: TableState)
    requires
        st.next + 1 <= u32::MAX,
    ensures
        ({
            let one = |t: Seq<u8>, m: LogicGateMode|
                new_cell(st, t) == Ok::<TableState, TableError>(
                    TableState {
                        gates: st.gates.push(
                            GateModel { id: (st.next + 1) as Id, active: false, mode: m, children: Seq::empty() },
                        ),
                        cell: gate_cell((st.next + 1) as Id),
                        next: st.next + 1,
                        ..st
                    },
                );
            &&& one(seq![36u8, 95, 65, 78, 68, 95], LogicGateMode::And)
            &&& one(seq![36u8, 95, 79, 82, 95], LogicGateMode::Or)
            &&& one(seq![36u8, 95, 78, 65, 78, 68, 95], LogicGateMode::Nand)
            &&& one(seq![36u8, 95, 78, 79, 84, 95], LogicGateMode::Nand)
            &&& one(seq![36u8, 95, 78, 79, 82, 95], LogicGateMode::Nor)
            &&& one(seq![36u8, 95, 88, 79, 82, 95], LogicGateMode::Xor)
            &&& one(seq![36u8, 95, 88, 78, 79, 82, 95], LogicGateMode::Xnor)
        }),
{
    assert(seq![36u8, 95, 65, 78, 68, 95] != dff_cell());
    assert(seq![36u8, 95, 79, 82, 95] != dff_cell());
    assert(seq![36u8, 95, 78, 65, 78, 68, 95] != dff_cell());
    assert(seq![36u8, 95, 78, 79, 84, 95] != dff_cell());
    assert(seq![36u8, 95, 78, 79, 82, 95] != dff_cell());
    assert(seq![36u8, 95, 88, 79, 82, 95] != dff_cell());
    assert(seq![36u8, 95, 88, 78, 79, 82, 95] != dff_cell());
    assert(seq![36u8, 95, 79, 82, 95] != seq![36u8, 95, 65, 78, 68, 95]);
    assert(seq![36u8, 95, 78, 65, 78, 68, 95] != seq![36u8, 95, 65, 78, 68, 95]);
    assert(seq![36u8, 95, 78, 65, 78, 68, 95] != seq![36u8, 95, 79, 82, 95]);
    assert(seq![36u8, 95, 78, 79, 84, 95] != seq![36u8, 95, 65, 78, 68, 95]);
    assert(seq![36u8, 95, 78, 79, 84, 95] != seq![36u8, 95, 79, 82, 95]);
    assert(seq![36u8, 95, 78, 79, 84, 95] != seq![36u8, 95, 78, 65, 78, 68, 95]);
    assert(seq![36u8, 95, 78, 79, 82, 95] != seq![36u8, 95, 65, 78, 68, 95]);
    assert(seq![36u8, 95, 78, 79, 82, 95] != seq![36u8, 95, 79, 82, 95]);
    assert(seq![36u8, 95, 78, 79, 82, 95] != seq![36u8, 95, 78, 65, 78, 68, 95]);
    assert(seq![36u8, 95, 78, 79, 82, 95] != seq![36u8, 95, 78, 79, 84, 95]);
    assert(seq![36u8, 95, 88, 79, 82, 95] != seq![36u8, 95, 65, 78, 68, 95]);
    assert(seq![36u8, 95, 88, 79, 82, 95] != seq![36u8, 95, 79, 82, 95]);
    assert(seq![36u8, 95, 88, 79, 82, 95] != seq![36u8, 95, 78, 65, 78, 68, 95]);
    assert(seq![36u8, 95, 88, 79, 82, 95] != seq![36u8, 95, 78, 79, 84, 95]);
    assert(seq![36u8, 95, 88, 79, 82, 95] != seq![36u8, 95, 78, 79, 82, 95]);
    assert(seq![36u8, 95, 88, 78, 79, 82, 95] != seq![36u8, 95, 65, 78, 68, 95]);
    assert(seq![36u8, 95, 88, 78, 79, 82, 95] != seq![36u8, 95, 79, 82, 95]);
    assert(seq![36u8, 95, 88, 78, 79, 82, 95] != seq![36u8, 95, 78, 65, 78, 68, 95]);
    assert(seq![36u8, 95, 88, 78, 79, 82, 95] != seq![36u8, 95, 78, 79, 84, 95]);
    assert(seq![36u8, 95, 88, 78, 79, 82, 95] != seq![36u8, 95, 78, 79, 82, 95]);
    assert(seq![36u8, 95, 88, 78, 79, 82, 95] != seq![36u8, 95, 88, 79, 82, 95]);
}

/// Inserting into a table without duplicates keeps it without duplicates.
proof fn lemma_name_insert_unique(m: Seq<(Seq<u8>, SignalName)>, key: Seq<u8>, sn: SignalName)
    requires
        names_unique(m),
    ensures
        names_unique(name_insert(m, key, sn)),
{
    let r = name_insert(m, key, sn);
    if exists|i: int| 0 <= i < m.len() && m[i].0 == key {
        let c = choose|i: int| 0 <= i < m.len() && m[i].0 == key;
        assert forall|i: int, j: int| 0 <= i < r.len() && 0 <= j < r.len() && #[trigger] r[i].0 == #[trigger] r[j].0 implies i == j by {
            if i != c && j != c {
                assert(m[i].0 == m[j].0);
            } else if i == c && j != c {
                assert(m[j].0 == m[c].0);
            } else if j == c && i != c {
                assert(m[i].0 == m[c].0);
            }
        }
    } else {
        assert forall|i: int, j: int| 0 <= i < r.len() && 0 <= j < r.len() && #[trigger] r[i].0 == #[trigger] r[j].0 implies i == j by {
            if i < m.len() && j < m.len() {
                assert(m[i].0 == m[j].0);
            } else if i < m.len() {
                assert(m[i].0 == key);
            } else if j < m.len() {
                assert(m[j].0 == key);
            }
        }
    }
}

/// An error in the first `k` words stays the error of the first `m >= k`.
proof fn lemma_port_words_err(
    ins: Seq<(Seq<u8>, SignalName)>,
    outs: Seq<(Seq<u8>, SignalName)>,
    ws: Seq<Seq<u8>>,
    dir: Seq<u8>,
    k: int,
    m: int,
)
    requires
        port_words(ins, outs, ws, dir, k) is Err,
        0 <= k <= m,
    ensures
        port_words(ins, outs, ws, dir, m) == port_words(ins, outs, ws, dir, k),
    decreases m - k,
{
    if m > k {
        lemma_port_words_err(ins, outs, ws, dir, k, m - 1);
    }
}

/// The bytes of `s`, compared with the literal `lit`.
fn is_lit(s: &Vec<u8>, lit: &[u8]) -> (r: bool)
    ensures
        r == (s@ == lit@),
{
    bytes_eq(s.as_slice(), lit)
}

/// Reads the words of a bus port into the name tables.
fn read_port_words(
    ins: &mut Vec<(Vec<u8>, SignalName)>,
    outs: &mut Vec<(Vec<u8>, SignalName)>,
    ws: &Vec<Vec<u8>>,
    dir: &Vec<u8>,
) -> (res: Result<(), TableError>)
    requires
        names_unique(names_model(old(ins)@)),
        names_unique(names_model(old(outs)@)),
    ensures
        names_unique(names_model(final(ins)@)),
        names_unique(names_model(final(outs)@)),
        match port_words(
            names_model(old(ins)@),
            names_model(old(outs)@),
            pieces(ws@),
            dir@,
            ws@.len() as int,
        ) {
            Ok(maps) => res is Ok && names_model(final(ins)@) == maps.0 && names_model(final(outs)@)
                == maps.1,
            Err(e) => res == Err::<(), TableError>(e),
        },
{
    let ghost ins0 = names_model(ins@);
    let ghost outs0 = names_model(outs@);
    let ghost wsm = pieces(ws@);
    let mut k: usize = 0;
    while k < ws.len()
        invariant
            k <= ws@.len(),
            wsm == pieces(ws@),
            wsm.len() == ws@.len(),
            ins0 == names_model(old(ins)@),
            outs0 == names_model(old(outs)@),
            names_unique(names_model(ins@)),
            names_unique(names_model(outs@)),
            port_words(ins0, outs0, wsm, dir@, k as int) == Ok::<
                (Seq<(Seq<u8>, SignalName)>, Seq<(Seq<u8>, SignalName)>),
                TableError,
            >((names_model(ins@), names_model(outs@))),
        decreases ws@.len() - k,
    {
        let name = &ws[ws.len() - 1 - k];
        proof {
            assert(name@ == wsm[wsm.len() - 1 - k]);
        }
        let parts = split_bytes(name.as_slice(), 46);
        proof {
            lemma_split_on_len(name@, 46);
            assert(parts@[parts@.len() - 1]@ == split_on(name@, 46).last());
        }
        let part = &parts[parts.len() - 1];
        let first = first_char_of(part.as_slice());
        if first.is_none() {
            proof {
                assert(port_words(ins0, outs0, wsm, dir@, k + 1) == Err::<
                    (Seq<(Seq<u8>, SignalName)>, Seq<(Seq<u8>, SignalName)>),
                    TableError,
                >(TableError::BadName));
                lemma_port_words_err(ins0, outs0, wsm, dir@, k + 1, wsm.len() as int);
            }
            return Err(TableError::BadName);
        }
        let sn = SignalName(first.unwrap(), k as u8);
        if is_lit(dir, &[112, 105]) {
            proof {
                lemma_name_insert_unique(names_model(ins@), name@, sn);
            }
            insert_name(ins, name.as_slice(), sn);
        } else if is_lit(dir, &[112, 111]) {
            proof {
                lemma_name_insert_unique(names_model(outs@), name@, sn);
            }
            insert_name(outs, name.as_slice(), sn);
        } else {
            proof {
                assert(port_words(ins0, outs0, wsm, dir@, k + 1) == Err::<
                    (Seq<(Seq<u8>, SignalName)>, Seq<(Seq<u8>, SignalName)>),
                    TableError,
                >(TableError::BadDirection));
                lemma_port_words_err(ins0, outs0, wsm, dir@, k + 1, wsm.len() as int);
            }
            return Err(TableError::BadDirection);
        }
        k += 1;
    }
    Ok(())
}

/// The reader of a table: the unit built so far, the port names, the wires between cells,
/// the interface of the cell being read and its name.
struct Reader {
    unit: LogicUnit,
    ins: Vec<(Vec<u8>, SignalName)>,
    outs: Vec<(Vec<u8>, SignalName)>,
    wires: Vec<(Vec<u8>, Id, Vec<Id>)>,
    cell: IO,
    prev: Option<Vec<u8>>,
}

/// A name as a value.
pub open spec fn opt_bytes(o: Option<Vec<u8>>) -> Option<Seq<u8>> {
    match o {
        Some(v) => Some(v@),
        None => None,
    }
}

impl Reader {
    /// The state of the reader, with `next` the last id handed out.
    spec fn state(&self, next: int) -> TableState {
        TableState {
            gates: self.unit@.gates,
            inputs: self.unit@.inputs,
            outputs: self.unit@.outputs,
            next,
            ins: names_model(self.ins@),
            outs: names_model(self.outs@),
            wires: wires_model(self.wires@),
            cell: self.cell@,
            prev: opt_bytes(self.prev),
        }
    }

    /// No name or wire occurs twice.
    spec fn wf(&self) -> bool {
        &&& names_unique(names_model(self.ins@))
        &&& names_unique(names_model(self.outs@))
        &&& wires_unique(wires_model(self.wires@))
    }

    /// Reads a port record.
    fn read_header(&mut self, r: &Vec<Vec<u8>>, Ghost(next): Ghost<int>) -> (res: Result<(), TableError>)
        requires
            old(self).wf(),
            r@.len() >= 6,
        ensures
            final(self).wf(),
            match header_step(old(self).state(next), pieces(r@)) {
                Ok(st) => res is Ok && final(self).state(next) == st,
                Err(e) => res == Err::<(), TableError>(e),
            },
    {
        let f4 = &r[4];
        let f5 = &r[5];
        proof {
            assert(f4@ == pieces(r@)[4]);
            assert(f5@ == pieces(r@)[5]);
        }
        let res = if f5.len() > 0 && f5[0] == 123 {
            let t = trim_bytes(f5.as_slice(), 123, 125);
            let ws = split_words(t.as_slice());
            read_port_words(&mut self.ins, &mut self.outs, &ws, f4)
        } else if is_lit(f4, &[112, 105]) {
            match second_char_of(f5.as_slice()) {
                None => Err(TableError::BadName),
                Some(c) => {
                    let sn = SignalName(c, 0);
                    proof {
                        lemma_name_insert_unique(names_model(self.ins@), f5@, sn);
                    }
                    insert_name(&mut self.ins, f5.as_slice(), sn);
                    Ok(())
                },
            }
        } else if is_lit(f4, &[112, 111]) {
            match second_char_of(f5.as_slice()) {
                None => Err(TableError::BadName),
                Some(c) => {
                    let sn = SignalName(c, 0);
                    proof {
                        lemma_name_insert_unique(names_model(self.outs@), f5@, sn);
                    }
                    insert_name(&mut self.outs, f5.as_slice(), sn);
                    Ok(())
                },
            }
        } else {
            Err(TableError::BadDirection)
        };
        self.prev = None;
        res
    }
}

impl Reader {
    /// Creates the cell of type `t`.
    fn start_cell(&mut self, ids: &mut IdSource, t: &Vec<u8>) -> (res: Result<(), TableError>)
        requires
            old(self).wf(),
        ensures
            final(self).wf(),
            match new_cell(old(self).state(old(ids)@ as int), t@) {
                Ok(st) => res is Ok && final(self).state(final(ids)@ as int) == st,
                Err(e) => res == Err::<(), TableError>(e),
            },
    {
        if is_lit(t, &[36, 95, 68, 70, 70, 95, 80, 95]) {
            if ids.last() > u32::MAX - 6 {
                return Err(TableError::OutOfIds);
            }
            let sub = dff(ids);
            self.cell = self.unit.embed(sub);
            return Ok(());
        }
        let mode = if is_lit(t, &[36, 95, 65, 78, 68, 95]) {
            LogicGateMode::And
        } else if is_lit(t, &[36, 95, 79, 82, 95]) {
            LogicGateMode::Or
        } else if is_lit(t, &[36, 95, 78, 65, 78, 68, 95]) || is_lit(t, &[36, 95, 78, 79, 84, 95]) {
            LogicGateMode::Nand
        } else if is_lit(t, &[36, 95, 78, 79, 82, 95]) {
            LogicGateMode::Nor
        } else if is_lit(t, &[36, 95, 88, 79, 82, 95]) {
            LogicGateMode::Xor
        } else if is_lit(t, &[36, 95, 88, 78, 79, 82, 95]) {
            LogicGateMode::Xnor
        } else {
            return Err(TableError::BadCellType);
        };
        if ids.last() == u32::MAX {
            return Err(TableError::OutOfIds);
        }
        let gate = LogicGate::new(ids, mode, false);
        self.cell = self.unit.embed_gate(gate);
        Ok(())
    }

    /// Reads the pin of a cell record.
    fn read_pin(&mut self, r: &Vec<Vec<u8>>, Ghost(next): Ghost<int>) -> (res: Result<(), TableError>)
        requires
            old(self).wf(),
            r@.len() >= 6,
        ensures
            final(self).wf(),
            match pin_step(old(self).state(next), pieces(r@)) {
                Ok(st) => res is Ok && final(self).state(next) == st,
                Err(e) => res == Err::<(), TableError>(e),
            },
    {
        let f3 = &r[3];
        let f4 = &r[4];
        let f5 = &r[5];
        proof {
            assert(f3@ == pieces(r@)[3]);
            assert(f4@ == pieces(r@)[4]);
            assert(f5@ == pieces(r@)[5]);
        }
        let pin = match first_char_of(f3.as_slice()) {
            Some(c) => SignalName(c, 0),
            None => {
                return Err(TableError::BadPin);
            },
        };
        let ws = split_words(f5.as_slice());
        if is_lit(f4, &[105, 110]) {
            let k = match input_position(&self.cell.inputs, pin) {
                Some(k) => k,
                None => {
                    return Err(TableError::BadPin);
                },
            };
            let ids = self.cell.inputs[k].ids.clone();
            if ws.len() == 0 {
                return Err(TableError::BadConnection);
            }
            proof {
                assert(ws@[0]@ == words(f5@)[0]);
            }
            match find_name(&self.ins, ws[0].as_slice()) {
                None => {
                    add_to_wire(&mut self.wires, f5.as_slice(), &ids);
                },
                Some(_) => {
                    let sn = match parse_raw_name(&self.ins, f5.as_slice()) {
                        Ok(sn) => sn,
                        Err(e) => {
                            return Err(e);
                        },
                    };
                    match input_position(&self.unit.io.inputs, sn) {
                        Some(_) => {
                            self.unit.io.add_inputs(sn, ids.as_slice());
                        },
                        None => {
                            self.unit.io.create_input(sn, ids);
                        },
                    }
                },
            }
            Ok(())
        } else if is_lit(f4, &[111, 117, 116]) {
            let k = match output_position(&self.cell.outputs, pin) {
                Some(k) => k,
                None => {
                    return Err(TableError::BadPin);
                },
            };
            let id = self.cell.outputs[k].id;
            if ws.len() == 0 {
                return Err(TableError::BadConnection);
            }
            proof {
                assert(ws@[0]@ == words(f5@)[0]);
            }
            match find_name(&self.outs, ws[0].as_slice()) {
                None => {
                    drive_wire(&mut self.wires, f5.as_slice(), id);
                },
                Some(_) => {
                    let sn = match parse_raw_name(&self.outs, f5.as_slice()) {
                        Ok(sn) => sn,
                        Err(e) => {
                            return Err(e);
                        },
                    };
                    match output_position(&self.unit.io.outputs, sn) {
                        Some(j) => {
                            self.unit.io.outputs.set(j, Output { name: sn, id });
                        },
                        None => {
                            self.unit.io.create_output(sn, id);
                        },
                    }
                },
            }
            Ok(())
        } else {
            Err(TableError::BadPinType)
        }
    }
}

impl Reader {
    /// Reads a cell record: starts a new cell where the name changes, then reads the pin.
    fn read_body(&mut self, ids: &mut IdSource, r: &Vec<Vec<u8>>) -> (res: Result<(), TableError>)
        requires
            old(self).wf(),
            r@.len() >= 6,
        ensures
            final(self).wf(),
            match body_step(old(self).state(old(ids)@ as int), pieces(r@)) {
                Ok(st) => res is Ok && final(self).state(final(ids)@ as int) == st,
                Err(e) => res == Err::<(), TableError>(e),
            },
    {
        let f1 = &r[1];
        proof {
            assert(f1@ == pieces(r@)[1]);
            assert(r@[2]@ == pieces(r@)[2]);
        }
        let same = match &self.prev {
            Some(p) => bytes_eq(p.as_slice(), f1.as_slice()),
            None => false,
        };
        if !same {
            match self.start_cell(ids, &r[2]) {
                Ok(()) => {},
                Err(e) => {
                    return Err(e);
                },
            }
        }
        match self.read_pin(r, Ghost(ids@ as int)) {
            Ok(()) => {},
            Err(e) => {
                return Err(e);
            },
        }
        self.prev = Some(copy_bytes(f1.as_slice()));
        Ok(())
    }

    /// Reads one line of the table.
    fn read_line(&mut self, ids: &mut IdSource, line: &Vec<u8>) -> (res: Result<(), TableError>)
        requires
            old(self).wf(),
        ensures
            final(self).wf(),
            match line_step(old(self).state(old(ids)@ as int), line@) {
                Ok(st) => res is Ok && final(self).state(final(ids)@ as int) == st,
                Err(e) => res == Err::<(), TableError>(e),
            },
    {
        proof {
            reveal(line_step);
        }
        if line.len() == 0 {
            return Ok(());
        }
        let r = split_bytes(line.as_slice(), 9);
        if r.len() < 6 {
            return Err(TableError::MissingField);
        }
        proof {
            assert(r@[1]@ == pieces(r@)[1]);
        }
        if r[1].len() > 0 && r[1][0] == 36 {
            self.read_body(ids, &r)
        } else {
            self.read_header(&r, Ghost(ids@ as int))
        }
    }
}

// ---------------------------------------------------------------------------
// Wiring the cells together

/// The gates after the wire `w` (name, driver, driven gates) is laid: its driver is the
/// output port it is named after, if it names one, else its driving gate; the driver
/// drives every gate of the wire.
pub open spec fn wire_one(
    gates: Seq<GateModel>,
    outputs: Seq<Output>,
    outs: Seq<(Seq<u8>, SignalName)>,
    w: (Seq<u8>, Id, Seq<Id>),
) -> Result<Seq<GateModel>, TableError> {
    if w.2.len() == 0 {
        Ok(gates)
    } else {
        let from = match first_word(w.0) {
            Some(fw) => match name_lookup(outs, fw) {
                Some(sn) => if has_output(outputs, sn) {
                    Some(outputs[first_output(outputs, sn)].id)
                } else {
                    None
                },
                None => Some(w.1),
            },
            None => Some(w.1),
        };
        match from {
            None => Err(TableError::UnknownDriver),
            Some(f) => if has_gate(gates, f) {
                Ok(connect_all_model(gates, f, w.2))
            } else {
                Err(TableError::UnknownDriver)
            },
        }
    }
}

/// The gates after the first `k` wires of `ws` are laid.
pub open spec fn wire_all(
    gates: Seq<GateModel>,
    outputs: Seq<Output>,
    outs: Seq<(Seq<u8>, SignalName)>,
    ws: Seq<(Seq<u8>, Id, Seq<Id>)>,
    k: int,
) -> Result<Seq<GateModel>, TableError>
    decreases k,
{
    if k <= 0 {
        Ok(gates)
    } else {
        match wire_all(gates, outputs, outs, ws, k - 1) {
            Err(e) => Err(e),
            Ok(gs) => wire_one(gs, outputs, outs, ws[k - 1]),
        }
    }
}

/// A unit read from the table `text` with `b` the last id handed out, and the last id
/// handed out after it.
pub open spec fn read_table(b: int, text: Seq<u8>) -> Result<(UnitModel, int), TableError> {
    let lines = split_on(text, 10);
    match read_lines(b, lines, lines.len() as int) {
        Err(e) => Err(e),
        Ok(st) => match wire_all(st.gates, st.outputs, st.outs, st.wires, st.wires.len() as int) {
            Err(e) => Err(e),
            Ok(gs) => Ok((UnitModel { gates: gs, inputs: st.inputs, outputs: st.outputs }, st.next)),
        },
    }
}

/// An error in the first `k` lines stays the error of the first `m >= k`.
proof fn lemma_read_lines_err(b: int, lines: Seq<Seq<u8>>, k: int, m: int)
    requires
        read_lines(b, lines, k) is Err,
        0 <= k <= m,
    ensures
        read_lines(b, lines, m) == read_lines(b, lines, k),
    decreases m - k,
{
    if m > k {
        lemma_read_lines_err(b, lines, k, m - 1);
    }
}

/// An error in the first `k` wires stays the error of the first `m >= k`.
proof fn lemma_wire_all_err(
    gates: Seq<GateModel>,
    outputs: Seq<Output>,
    outs: Seq<(Seq<u8>, SignalName)>,
    ws: Seq<(Seq<u8>, Id, Seq<Id>)>,
    k: int,
    m: int,
)
    requires
        wire_all(gates, outputs, outs, ws, k) is Err,
        0 <= k <= m,
    ensures
        wire_all(gates, outputs, outs, ws, m) == wire_all(gates, outputs, outs, ws, k),
    decreases m - k,
{
    if m > k {
        lemma_wire_all_err(gates, outputs, outs, ws, k, m - 1);
    }
}

/// A split has at most one piece more than bytes.
proof fn lemma_split_count(s: Seq<u8>, sep: u8)
    ensures
        split_on(s, sep).len() <= s.len() + 1,
    decreases s.len(),
{
    if s.len() > 0 {
        lemma_split_count(s.drop_last(), sep);
        lemma_split_on_len(s.drop_last(), sep);
    }
}

/// Lets gate `from` drive the gates `tos`, in order.
fn connect_all(unit: &mut LogicUnit, from: Id, tos: &Vec<Id>)
    requires
        has_gate(old(unit)@.gates, from),
    ensures
        final(unit)@.gates == connect_all_model(old(unit)@.gates, from, tos@),
        final(unit)@.inputs == old(unit)@.inputs,
        final(unit)@.outputs == old(unit)@.outputs,
{
    let ghost before = unit@.gates;
    let mut i: usize = 0;
    while i < tos.len()
        invariant
            i <= tos@.len(),
            has_gate(before, from),
            unit@.gates == connect_all_model(before, from, tos@.take(i as int)),
            unit@.inputs == old(unit)@.inputs,
            unit@.outputs == old(unit)@.outputs,
        decreases tos@.len() - i,
    {
        proof {
            lemma_has_gate(before, from);
            let k = first_gate(before, from);
            let cur = unit@.gates;
            assert(cur[k].id == from);
            assert(forall|j: int| 0 <= j < k ==> cur[j].id != from) by {
                assert forall|j: int| 0 <= j < k implies cur[j].id != from by {
                    assert(cur[j] == before[j]);
                }
            }
            lemma_first_gate_of(cur, from, k);
        }
        unit.connect(from, tos[i]);
        proof {
            assert(tos@.take(i + 1) =~= tos@.take(i as int).push(tos@[i as int]));
            assert(unit@.gates =~= connect_all_model(before, from, tos@.take(i + 1)));
        }
        i += 1;
    }
    proof {
        assert(tos@.take(tos@.len() as int) =~= tos@);
    }
}

/// With gate `k` the first with id `id`, that is where connecting starts.
proof fn lemma_first_gate_of(gs: Seq<GateModel>, id: Id, k: int)
    requires
        0 <= k < gs.len(),
        gs[k].id == id,
        forall|j: int| 0 <= j < k ==> gs[j].id != id,
    ensures
        first_gate(gs, id) == k,
        has_gate(gs, id),
{
    crate::logic_unit::lemma_first_gate(gs, id, k);
}

impl LogicUnit {
    /// Reads a unit from a table in the format of yosys' `write_table` (one record per
    /// line, tab-separated: module, port or cell name, cell type, pin, direction,
    /// connection). Port records (`pi`/`po`) name the signals; cell records build one gate
    /// per gate cell, or a D flip-flop, with ids taken from `ids`; pins connected to a port
    /// become that input or output bit, and pins connected to the same net are wired
    /// together at the end. A cell for which `ids` has no ids left is an error.
    pub fn from_table(ids: &mut IdSource, table: &[u8]) -> (r: Result<LogicUnit, TableError>)
        ensures
            match read_table(old(ids)@ as int, table@) {
                Ok((u, next)) => r is Ok && r->Ok_0@ == u && final(ids)@ == next,
                Err(e) => r == Err::<LogicUnit, TableError>(e),
            },
    {
        let ghost b = ids@ as int;
        let lines = split_bytes(table, 10);
        let ghost lm = pieces(lines@);
        proof {
            lemma_split_count(table@, 10);
        }
        let mut rd = Reader {
            unit: LogicUnit::new(),
            ins: Vec::new(),
            outs: Vec::new(),
            wires: Vec::new(),
            cell: IO::new(),
            prev: None,
        };
        proof {
            assert(names_model(rd.ins@) =~= Seq::<(Seq<u8>, SignalName)>::empty());
            assert(names_model(rd.outs@) =~= Seq::<(Seq<u8>, SignalName)>::empty());
            assert(wires_model(rd.wires@) =~= Seq::<(Seq<u8>, Id, Seq<Id>)>::empty());
            assert(rd.state(b) == table_start(b));
        }
        let mut i: usize = 0;
        while i < lines.len()
            invariant
                i <= lines@.len(),
                b == old(ids)@,
                lm == pieces(lines@),
                lm == split_on(table@, 10),
                lines@.len() <= table@.len() + 1,
                rd.wf(),
                read_lines(b, lm, i as int) == Ok::<TableState, TableError>(rd.state(ids@ as int)),
            decreases lines@.len() - i,
        {
            proof {
                assert(lines@[i as int]@ == lm[i as int]);
            }
            match rd.read_line(ids, &lines[i]) {
                Ok(()) => {},
                Err(e) => {
                    proof {
                        lemma_read_lines_err(b, lm, i + 1, lm.len() as int);
                    }
                    return Err(e);
                },
            }
            i += 1;
        }
        let ghost st = rd.state(ids@ as int);
        let ghost wm = wires_model(rd.wires@);
        let mut k: usize = 0;
        while k < rd.wires.len()
            invariant
                k <= rd.wires@.len(),
                b == old(ids)@,
                lm == split_on(table@, 10),
                read_lines(b, lm, lm.len() as int) == Ok::<TableState, TableError>(st),
                ids@ == st.next,
                wm == wires_model(rd.wires@),
                rd.wf(),
                st.outputs == rd.unit@.outputs,
                st.inputs == rd.unit@.inputs,
                st.outs == names_model(rd.outs@),
                st.wires == wm,
                wire_all(st.gates, st.outputs, st.outs, wm, k as int) == Ok::<Seq<GateModel>, TableError>(
                    rd.unit@.gates,
                ),
            decreases rd.wires@.len() - k,
        {
            let ghost g0 = rd.unit@.gates;
            let ghost w = wm[k as int];
            proof {
                assert(w == (rd.wires@[k as int].0@, rd.wires@[k as int].1, rd.wires@[k as int].2@));
            }
            if rd.wires[k].2.len() > 0 {
                let ws = split_words(rd.wires[k].0.as_slice());
                let mut from: Option<Id> = Some(rd.wires[k].1);
                if ws.len() > 0 {
                    proof {
                        assert(ws@[0]@ == words(w.0)[0]);
                    }
                    match find_name(&rd.outs, ws[0].as_slice()) {
                        Some(j) => {
                            let sn = rd.outs[j].1;
                            from = match output_position(&rd.unit.io.outputs, sn) {
                                Some(q) => Some(rd.unit.io.outputs[q].id),
                                None => None,
                            };
                        },
                        None => {},
                    }
                }
                match from {
                    None => {
                        proof {
                            lemma_wire_all_err(st.gates, st.outputs, st.outs, wm, k + 1, wm.len() as int);
                        }
                        return Err(TableError::UnknownDriver);
                    },
                    Some(f) => {
                        match crate::logic_unit::find_gate(&rd.unit.gates, f) {
                            None => {
                                proof {
                                    lemma_wire_all_err(st.gates, st.outputs, st.outs, wm, k + 1, wm.len() as int);
                                }
                                return Err(TableError::UnknownDriver);
                            },
                            Some(_) => {
                                let tos = rd.wires[k].2.clone();
                                connect_all(&mut rd.unit, f, &tos);
                            },
                        }
                    },
                }
            }
            k += 1;
        }
        Ok(rd.unit)
    }
}

} // verus!
