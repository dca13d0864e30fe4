//! Color and font values as the configuration and the command line write
//! them.
use vstd::prelude::*;
use crate::number::{at_least, at_most, denotes_at_least, denotes_at_most, digits_value, float_literal, is_float_literal, plain_numeral};
use crate::text::{chars_of, copy_range, debug_quoted, debug_text, is_blank, is_space, last_occurrence, lemma_trim_end_append, lemma_trim_end_keeps_first, lemma_trim_unchanged, rfind, string_from, trim, trim_end, trim_start, trimmed};

verus! {

/// An sRGB color with 8-bit channels; each channel stands for its value
/// divided by 255.
#[derive(Clone, Copy, Debug, PartialEq, Eq, Structural)]
pub struct Color {
    pub red: u8,
    pub green: u8,
    pub blue: u8,
    pub alpha: u8,
}

/// The number of bytes that UTF-8 takes for `c`.
pub open spec fn utf8_len(c: char) -> nat {
    if (c as u32) < 0x80 {
        1
    } else if (c as u32) < 0x800 {
        2
    } else if (c as u32) < 0x10000 {
        3
    } else {
        4
    }
}

/// The number of bytes that UTF-8 takes for `s` (`str::len`).
pub open spec fn utf8_size(s: Seq<char>) -> nat
    decreases s.len(),
{
    if s.len() == 0 {
        0
    } else {
        utf8_size(s.drop_last()) + utf8_len(s.last())
    }
}

/// Whether every character of `s` is ASCII.
pub open spec fn all_ascii(s: Seq<char>) -> bool {
    forall|i: int| 0 <= i < s.len() ==> (#[trigger] s[i] as u32) < 0x80
}

/// The value of the hexadecimal digit `c`, in either case.
pub open spec fn hex_value(c: char) -> Option<u8> {
    if '0' <= c <= '9' {
        Some((c as u32 - '0' as u32) as u8)
    } else if 'a' <= c <= 'f' {
        Some((c as u32 - 'a' as u32 + 10) as u8)
    } else if 'A' <= c <= 'F' {
        Some((c as u32 - 'A' as u32 + 10) as u8)
    } else {
        None
    }
}

/// Two hex digits read as a byte, the first one the high digit.
pub open spec fn hex_pair(a: char, b: char) -> Option<u8> {
    match (hex_value(a), hex_value(b)) {
        (Some(x), Some(y)) => Some((x * 16 + y) as u8),
        _ => None,
    }
}

/// The color text without surrounding whitespace and one leading `#`.
pub open spec fn color_digits(s: Seq<char>) -> Seq<char> {
    let t = trim(s);
    if t.len() > 0 && t[0] == '#' {
        t.drop_first()
    } else {
        t
    }
}

/// The error for a text that is not six or eight bytes long.
pub open spec fn color_shape_error() -> Seq<char> {
    "expected RRGGBB or RRGGBBAA"@
}

/// The error for a text with a character that is no hex digit.
pub open spec fn color_digit_error() -> Seq<char> {
    "color contains a non-hexadecimal digit"@
}

/// `RRGGBB` or `RRGGBBAA`, hexadecimal, with an optional leading `#` and
/// surrounding whitespace; alpha is 255 when omitted. The length is counted
/// in UTF-8 bytes.
pub open spec fn color_of(s: Seq<char>) -> Result<Color, Seq<char>> {
    let w = color_digits(s);
    let n = utf8_size(w);
    if n != 6 && n != 8 {
        Err(color_shape_error())
    } else if !all_ascii(w) {
        Err(color_digit_error())
    } else {
        let r = hex_pair(w[0], w[1]);
        let g = hex_pair(w[2], w[3]);
        let b = hex_pair(w[4], w[5]);
        let a = if n == 8 {
            hex_pair(w[6], w[7])
        } else {
            Some(255u8)
        };
        if r is None || g is None || b is None || a is None {
            Err(color_digit_error())
        } else {
            Ok(Color { red: r->0, green: g->0, blue: b->0, alpha: a->0 })
        }
    }
}

/// A text takes at least one UTF-8 byte per character, and exactly one
/// when it is all ASCII.
pub proof fn lemma_utf8_size_bounds(s: Seq<char>)
    ensures
        utf8_size(s) >= s.len(),
        all_ascii(s) ==> utf8_size(s) == s.len(),
    decreases s.len(),
{
    if s.len() > 0 {
        lemma_utf8_size_bounds(s.drop_last());
        if all_ascii(s) {
            assert forall|i: int| 0 <= i < s.drop_last().len() implies (#[trigger] s.drop_last()[i]
                as u32) < 0x80 by {
                assert(s.drop_last()[i] == s[i]);
            }
            assert((s[s.len() - 1] as u32) < 0x80);
        }
    }
}

/// The number of UTF-8 bytes of `c`.
fn utf8_char_len(c: char) -> (n: usize)
    ensures
        n == utf8_len(c),
{
    let u = c as u32;
    if u < 0x80 {
        1
    } else if u < 0x800 {
        2
    } else if u < 0x10000 {
        3
    } else {
        4
    }
}

/// The number of UTF-8 bytes of `w`, for `w` of at most eight characters.
fn utf8_size_short(w: &[char]) -> (n: usize)
    requires
        w.len() <= 8,
    ensures
        n == utf8_size(w@),
{
    let mut n: usize = 0;
    let mut i: usize = 0;
    while i < w.len()
        invariant
            i <= w.len() <= 8,
            n == utf8_size(w@.take(i as int)),
            n <= 4 * i,
        decreases w.len() - i,
    {
        let ghost prev = w@.take(i as int);
        n = n + utf8_char_len(w[i]);
        i = i + 1;
        assert(w@.take(i as int).drop_last() =~= prev);
    }
    assert(w@.take(w.len() as int) =~= w@);
    n
}

proof fn lemma_utf8_size_prefix(s: Seq<char>, i: int)
    requires
        0 <= i <= s.len(),
    ensures
        utf8_size(s.take(i)) <= utf8_size(s),
    decreases s.len(),
{
    if i < s.len() {
        lemma_utf8_size_prefix(s.drop_last(), i);
        assert(s.drop_last().take(i) =~= s.take(i));
    } else {
        assert(s.take(i) =~= s);
    }
}

/// Whether the UTF-8 encoding of `v` takes at most `limit` bytes.
pub fn utf8_within(v: &[char], limit: usize) -> (b: bool)
    ensures
        b == (utf8_size(v@) <= limit),
{
    let mut n: usize = 0;
    let mut i: usize = 0;
    while i < v.len()
        invariant
            i <= v.len(),
            n == utf8_size(v@.take(i as int)),
            n <= limit,
        decreases v.len() - i,
    {
        let ghost prev = v@.take(i as int);
        let l = utf8_char_len(v[i]);
        assert(v@.take(i + 1).drop_last() =~= prev);
        assert(v@.take(i + 1).last() == v@[i as int]);
        assert(utf8_size(v@.take(i + 1)) == n + l);
        if l > limit - n {
            proof {
                lemma_utf8_size_prefix(v@, i + 1);
            }
            return false;
        }
        n = n + l;
        i = i + 1;
    }
    assert(v@.take(v.len() as int) =~= v@);
    true
}

/// Whether every character of `w` is ASCII.
fn ascii_only(w: &[char]) -> (b: bool)
    ensures
        b == all_ascii(w@),
{
    let mut i: usize = 0;
    while i < w.len()
        invariant
            i <= w.len(),
            forall|k: int| 0 <= k < i ==> (#[trigger] w@[k] as u32) < 0x80,
        decreases w.len() - i,
    {
        if (w[i] as u32) >= 0x80 {
            return false;
        }
        i = i + 1;
    }
    true
}

fn hex_digit(c: char) -> (r: Option<u8>)
    ensures
        r == hex_value(c),
{
    if '0' <= c && c <= '9' {
        Some((c as u32 - '0' as u32) as u8)
    } else if 'a' <= c && c <= 'f' {
        Some((c as u32 - 'a' as u32 + 10) as u8)
    } else if 'A' <= c && c <= 'F' {
        Some((c as u32 - 'A' as u32 + 10) as u8)
    } else {
        None
    }
}

fn hex_byte(a: char, b: char) -> (r: Option<u8>)
    ensures
        r == hex_pair(a, b),
{
    match (hex_digit(a), hex_digit(b)) {
        (Some(x), Some(y)) => Some(x * 16 + y),
        _ => None,
    }
}

/// Reads a color ([`color_of`]) from characters.
pub fn color_from_chars(s: &[char]) -> (r: Result<Color, String>)
    ensures
        match r {
            Ok(c) => color_of(s@) == Ok::<Color, Seq<char>>(c),
            Err(e) => color_of(s@) == Err::<Color, Seq<char>>(e@),
        },
{
    let t = trimmed(s);
    let w = if t.len() > 0 && t[0] == '#' {
        copy_range(t.as_slice(), 1, t.len())
    } else {
        t
    };
    proof {
        if t@.len() > 0 && t@[0] == '#' {
            assert(w@ =~= t@.drop_first());
        }
        lemma_utf8_size_bounds(w@);
    }
    assert(w@ == color_digits(s@));
    if w.len() > 8 {
        return Err(String::from_str("expected RRGGBB or RRGGBBAA"));
    }
    let n = utf8_size_short(w.as_slice());
    if n != 6 && n != 8 {
        return Err(String::from_str("expected RRGGBB or RRGGBBAA"));
    }
    if !ascii_only(w.as_slice()) {
        return Err(String::from_str("color contains a non-hexadecimal digit"));
    }
    let a = if n == 8 {
        hex_byte(w[6], w[7])
    } else {
        Some(255u8)
    };
    let r = hex_byte(w[0], w[1]);
    let g = hex_byte(w[2], w[3]);
    let b = hex_byte(w[4], w[5]);
    match (r, g, b, a) {
        (Some(r), Some(g), Some(b), Some(a)) => Ok(Color { red: r, green: g, blue: b, alpha: a }),
        _ => Err(String::from_str("color contains a non-hexadecimal digit")),
    }
}

/// Reads a color: `RRGGBB` or `RRGGBBAA` in hexadecimal, with an optional
/// leading `#` ([`color_of`]).
pub fn parse_color(value: &str) -> (r: Result<Color, String>)
    ensures
        match r {
            Ok(c) => color_of(value@) == Ok::<Color, Seq<char>>(c),
            Err(e) => color_of(value@) == Err::<Color, Seq<char>>(e@),
        },
{
    let v = chars_of(value);
    color_from_chars(v.as_slice())
}

/// A font: a family name and a size in points, kept as the float literal
/// that was written (`16` when none was).
#[derive(Debug)]
pub struct FontSpec {
    pub family: String,
    pub size: String,
}

/// The marker that separates a font's family from its size.
pub open spec fn size_marker() -> Seq<char> {
    ":size="@
}

/// The digits of the least number that reads as a size of at least 6
/// points, with the point 51 places from their end: `6 - 2^-51`, halfway
/// between 6 and the `f64` below it, which rounds to 6 (ties go to the
/// even neighbour).
pub open spec fn least_size() -> Seq<char> {
    "5999999999999999555910790149937383830547332763671875"@
}

/// The digits of the greatest number that reads as a size of at most 96
/// points, with the point 47 places from their end: `96 + 2^-47`, halfway
/// between 96 and the `f64` above it, which rounds to 96.
pub open spec fn greatest_size() -> Seq<char> {
    "9600000000000000710542735760100185871124267578125"@
}

/// Whether the float literal `size`, read as an `f64` (rounded to the
/// nearest), is a finite number from 6 to 96.
pub open spec fn size_in_range(size: Seq<char>) -> bool {
    &&& denotes_at_least(size, digits_value(least_size()), 51)
    &&& denotes_at_most(size, digits_value(greatest_size()), 47)
}

/// Whether `size` is a float literal whose `f64` is from 6 to 96
/// ([`size_in_range`]).
pub fn size_ok(size: &[char]) -> (r: bool)
    ensures
        r == size_in_range(size@),
{
    let least = chars_of("5999999999999999555910790149937383830547332763671875");
    let greatest = chars_of("9600000000000000710542735760100185871124267578125");
    proof {
        reveal_strlit("5999999999999999555910790149937383830547332763671875");
        reveal_strlit("9600000000000000710542735760100185871124267578125");
        assert(plain_numeral(least@));
        assert(plain_numeral(greatest@));
    }
    float_literal(size) && at_least(size, least.as_slice(), 51) && at_most(size, greatest.as_slice(), 47)
}

/// `family` or `family:size=N`, with surrounding whitespace ignored: the
/// trimmed family and the size's text. The size must be a float literal,
/// the family must not be blank, and the size, read as an `f64`, must be
/// from 6 to 96 ([`size_in_range`]).
pub open spec fn font_of(s: Seq<char>) -> Result<(Seq<char>, Seq<char>), Seq<char>> {
    let v = trim(s);
    let at = last_occurrence(v, size_marker());
    let family = match at {
        Some(i) => v.subrange(0, i),
        None => v,
    };
    let size = match at {
        Some(i) => v.subrange(i + 6, v.len() as int),
        None => "16"@,
    };
    if at is Some && !is_float_literal(size) {
        Err("invalid font size in "@ + debug_text(v))
    } else if trim(family).len() == 0 {
        Err("font family cannot be empty"@)
    } else if !size_in_range(size) {
        Err("font size must be between 6 and 96 points"@)
    } else {
        Ok((trim(family), size))
    }
}

/// Reads a font ([`font_of`]) from characters.
pub fn font_from_chars(s: &[char]) -> (r: Result<FontSpec, String>)
    ensures
        match r {
            Ok(f) => font_of(s@) == Ok::<(Seq<char>, Seq<char>), Seq<char>>((f.family@, f.size@)),
            Err(e) => font_of(s@) == Err::<(Seq<char>, Seq<char>), Seq<char>>(e@),
        },
{
    let v = trimmed(s);
    let marker = [':', 's', 'i', 'z', 'e', '='];
    proof {
        reveal_strlit(":size=");
        assert(marker@ =~= size_marker());
    }
    let at = rfind(v.as_slice(), &marker);
    let (family, size) = match at {
        Some(i) => {
            assert(i + 6 <= v@.len());
            let size = copy_range(v.as_slice(), i + 6, v.len());
            if !float_literal(size.as_slice()) {
                let shown = debug_quoted(string_from(v.as_slice()).as_str());
                let mut msg = String::from_str("invalid font size in ");
                msg.append(shown.as_str());
                proof {
                    reveal_strlit("invalid font size in ");
                }
                return Err(msg);
            }
            (copy_range(v.as_slice(), 0, i), size)
        },
        None => {
            let size = ['1', '6'];
            proof {
                reveal_strlit("16");
                assert(size@ =~= "16"@);
            }
            (copy_range(v.as_slice(), 0, v.len()), copy_range(&size, 0, 2))
        },
    };
    assert(at is None ==> family@ =~= v@);
    assert(at is None ==> size@ =~= "16"@);
    if is_blank(family.as_slice()) {
        return Err(String::from_str("font family cannot be empty"));
    }
    let sized = size_ok(size.as_slice());
    if !sized {
        return Err(String::from_str("font size must be between 6 and 96 points"));
    }
    let family = trimmed(family.as_slice());
    Ok(FontSpec { family: string_from(family.as_slice()), size: string_from(size.as_slice()) })
}

/// Reads a font: `family` or `family:size=N` ([`font_of`]).
pub fn parse_font(value: &str) -> (r: Result<FontSpec, String>)
    ensures
        match r {
            Ok(f) => font_of(value@) == Ok::<(Seq<char>, Seq<char>), Seq<char>>((f.family@, f.size@)),
            Err(e) => font_of(value@) == Err::<(Seq<char>, Seq<char>), Seq<char>>(e@),
        },
{
    let v = chars_of(value);
    font_from_chars(v.as_slice())
}

/// A leading `#` is optional: `#RRGGBB` reads as `RRGGBB`.
pub proof fn lemma_hash_optional(w: Seq<char>)
    requires
        w.len() > 0,
        !is_space(w[0]),
        w[0] != '#',
    ensures
        color_of(seq!['#'] + w) == color_of(w),
{
    let h = seq!['#'];
    let hw = h + w;
    assert(hw[0] == '#');
    assert(!is_space('#'));
    lemma_trim_unchanged(hw);
    lemma_trim_unchanged(w);
    lemma_trim_end_append(h, w);
    lemma_trim_end_keeps_first(w);
    assert(trim(hw) == h + trim_end(w));
    assert((h + trim_end(w)).drop_first() =~= trim_end(w));
    assert(trim(w) == trim_end(w));
}

/// The hex digit characters.
pub open spec fn is_hex(c: char) -> bool {
    hex_value(c) is Some
}

/// An omitted alpha is opaque: six hex digits read as a color with alpha
/// 255, the same color as those digits followed by `ff`.
pub proof fn lemma_alpha_defaults_opaque(w: Seq<char>)
    requires
        w.len() == 6,
        forall|i: int| 0 <= i < 6 ==> is_hex(#[trigger] w[i]),
    ensures
        color_of(w) is Ok,
        color_of(w)->Ok_0.alpha == 255,
        color_of(w + "ff"@) == color_of(w),
{
    reveal_strlit("ff");
    let s = w + "ff"@;
    assert(s.len() == 8);
    assert(s[6] == 'f' && s[7] == 'f');
    assert forall|i: int| 0 <= i < 6 implies s[i] == w[i] by {}
    assert(is_hex(w[0]) && is_hex(w[5]));
    lemma_trim_unchanged(w);
    lemma_trim_unchanged(s);
    assert(trim(w) == w);
    assert(trim(s) == s);
    assert(color_digits(w) == w);
    assert(color_digits(s) == s);
    assert(all_ascii(w)) by {
        assert forall|i: int| 0 <= i < w.len() implies (#[trigger] w[i] as u32) < 0x80 by {
            assert(is_hex(w[i]));
        }
    }
    assert(all_ascii(s)) by {
        assert forall|i: int| 0 <= i < s.len() implies (#[trigger] s[i] as u32) < 0x80 by {
            if i < 6 {
                assert(is_hex(w[i]));
            }
        }
    }
    lemma_utf8_size_bounds(w);
    lemma_utf8_size_bounds(s);
    assert(hex_pair('f', 'f') == Some(255u8));
}

/// `c` with an ASCII capital letter made small.
pub open spec fn ascii_lower(c: char) -> char {
    if 'A' <= c <= 'Z' {
        ((c as u32) + 32) as char
    } else {
        c
    }
}

/// `s` with its ASCII capital letters made small.
pub open spec fn lowercased(s: Seq<char>) -> Seq<char> {
    s.map_values(|c: char| ascii_lower(c))
}

/// A hex digit reads the same in either case, and the small ones are worth
/// ten to fifteen.
pub proof fn lemma_hex_digit_case(c: char)
    ensures
        hex_value(c) == hex_value(ascii_lower(c)),
        'a' <= c <= 'f' ==> hex_value(c) == Some((c as u32 - 'a' as u32 + 10) as u8),
        '0' <= c <= '9' ==> hex_value(c) == Some((c as u32 - '0' as u32) as u8),
        hex_value(c) is Some <==> ('0' <= c <= '9' || 'a' <= ascii_lower(c) <= 'f'),
{
}

proof fn lemma_trim_start_lowercased(s: Seq<char>)
    ensures
        trim_start(lowercased(s)) == lowercased(trim_start(s)),
    decreases s.len(),
{
    if s.len() > 0 {
        assert(lowercased(s)[0] == ascii_lower(s[0]));
        if is_space(s[0]) {
            assert(lowercased(s).drop_first() =~= lowercased(s.drop_first()));
            lemma_trim_start_lowercased(s.drop_first());
        }
    }
}

proof fn lemma_trim_end_lowercased(s: Seq<char>)
    ensures
        trim_end(lowercased(s)) == lowercased(trim_end(s)),
    decreases s.len(),
{
    if s.len() > 0 {
        assert(lowercased(s).last() == ascii_lower(s.last()));
        if is_space(s.last()) {
            assert(lowercased(s).drop_last() =~= lowercased(s.drop_last()));
            lemma_trim_end_lowercased(s.drop_last());
        }
    }
}

proof fn lemma_utf8_size_lowercased(s: Seq<char>)
    ensures
        utf8_size(lowercased(s)) == utf8_size(s),
    decreases s.len(),
{
    if s.len() > 0 {
        assert(lowercased(s).drop_last() =~= lowercased(s.drop_last()));
        assert(lowercased(s).last() == ascii_lower(s.last()));
        lemma_utf8_size_lowercased(s.drop_last());
    }
}

/// Case does not matter in a color: a text and its copy with small letters
/// read as the same color, or fail alike.
pub proof fn lemma_color_ignores_case(s: Seq<char>)
    ensures
        color_of(lowercased(s)) == color_of(s),
{
    lemma_trim_start_lowercased(s);
    lemma_trim_end_lowercased(trim_start(s));
    let t = trim(s);
    assert(trim(lowercased(s)) == lowercased(t));
    let w = color_digits(s);
    let lw = lowercased(w);
    if t.len() > 0 && t[0] == '#' {
        assert(lowercased(t)[0] == '#');
        assert(lowercased(t).drop_first() =~= lowercased(t.drop_first()));
    } else if t.len() > 0 {
        assert(lowercased(t)[0] == ascii_lower(t[0]));
    }
    assert(color_digits(lowercased(s)) == lw);
    lemma_utf8_size_lowercased(w);
    assert(all_ascii(lw) == all_ascii(w)) by {
        if all_ascii(w) {
            assert forall|i: int| 0 <= i < lw.len() implies (#[trigger] lw[i] as u32) < 0x80 by {
                assert(lw[i] == ascii_lower(w[i]));
            }
        } else {
            let i = choose|i: int| 0 <= i < w.len() && !((w[i] as u32) < 0x80);
            assert(lw[i] == ascii_lower(w[i]));
        }
    }
    if w.len() >= 6 {
        assert forall|i: int| 0 <= i < w.len() implies #[trigger] lw[i] == ascii_lower(w[i]) by {}
        lemma_hex_digit_case(w[0]);
        lemma_hex_digit_case(w[1]);
        lemma_hex_digit_case(w[2]);
        lemma_hex_digit_case(w[3]);
        lemma_hex_digit_case(w[4]);
        lemma_hex_digit_case(w[5]);
        if w.len() >= 8 {
            lemma_hex_digit_case(w[6]);
            lemma_hex_digit_case(w[7]);
        }
    }
    lemma_utf8_size_bounds(w);
}

} // verus!
