//! Typed declarations from raw name and value text: colours, lengths and keywords.

use vstd::prelude::*;
use crate::values::{
    AbsoluteSize, Color, DisplayType, FontSize, Length, PositionType, StyleDeclaration,
};

verus! {

pub open spec fn is_digit(c: char) -> bool {
    '0' <= c && c <= '9'
}

pub open spec fn digit_value(c: char) -> int {
    c as int - '0' as int
}

/// The number that a run of decimal digits writes.
pub open spec fn digits_value(s: Seq<char>) -> int
    decreases s.len(),
{
    if s.len() == 0 {
        0
    } else {
        digits_value(s.drop_last()) * 10 + digit_value(s.last())
    }
}

pub open spec fn all_digits(s: Seq<char>) -> bool {
    forall|i: int| 0 <= i < s.len() ==> is_digit(#[trigger] s[i])
}

/// Longest run of integer digits accepted, so that a length fits in thousandths.
pub const MAX_INT_DIGITS: usize = 15;

/// Index of the first `.` in `s`, or its length.
pub open spec fn dot_index(s: Seq<char>) -> nat
    decreases s.len(),
{
    if s.len() == 0 || s[0] == '.' {
        0
    } else {
        1 + dot_index(s.skip(1))
    }
}

/// A decimal number `<digits>` or `<digits>.<digits>`, in thousandths (further decimals are
/// dropped); `None` when malformed or with more than `MAX_INT_DIGITS` integer digits.
pub open spec fn number_value(s: Seq<char>) -> Option<u64> {
    let d = dot_index(s);
    let ip = s.take(d as int);
    let fp = if d < s.len() {
        s.skip(d + 1int)
    } else {
        Seq::empty()
    };
    if ip.len() == 0 || ip.len() > MAX_INT_DIGITS || !all_digits(ip) || !all_digits(fp) || (d
        < s.len() && fp.len() == 0) {
        None
    } else {
        Some((digits_value(ip) * 1000 + frac_thousandths(fp)) as u64)
    }
}

/// Thousandths written by the decimals `fp`: the first three, padded with zeros.
pub open spec fn frac_thousandths(fp: Seq<char>) -> int {
    if fp.len() >= 3 {
        digits_value(fp.take(3))
    } else if fp.len() == 2 {
        digits_value(fp) * 10
    } else if fp.len() == 1 {
        digits_value(fp) * 100
    } else {
        0
    }
}

/// `s` ends with `suffix`.
pub open spec fn ends_with(s: Seq<char>, suffix: Seq<char>) -> bool {
    s.len() >= suffix.len() && s.skip(s.len() - suffix.len()) == suffix
}

/// `s` without its last `n` characters.
pub open spec fn chop(s: Seq<char>, n: nat) -> Seq<char> {
    s.take(s.len() - n)
}

/// A length: `auto`, or a number with unit `px`, `pt`, `mm` or `%`.
pub open spec fn length_of(s: Seq<char>) -> Option<Length> {
    if s == "auto"@ {
        Some(Length::Auto)
    } else if ends_with(s, "px"@) {
        match number_value(chop(s, 2)) {
            Some(v) => Some(Length::Px(v)),
            None => None,
        }
    } else if ends_with(s, "pt"@) {
        match number_value(chop(s, 2)) {
            Some(v) => Some(Length::Pt(v)),
            None => None,
        }
    } else if ends_with(s, "mm"@) {
        match number_value(chop(s, 2)) {
            Some(v) => Some(Length::Mm(v)),
            None => None,
        }
    } else if ends_with(s, "%"@) {
        match number_value(chop(s, 1)) {
            Some(v) => Some(Length::Percent(v)),
            None => None,
        }
    } else {
        None
    }
}

fn eq_lit(s: &String, lit: &str) -> (r: bool)
    ensures
        r == (s@ == lit@),
{
    let t = String::from_str(lit);
    *s == t
}

fn ends_with_lit(s: &String, lit: &str) -> (r: bool)
    ensures
        r == ends_with(s@, lit@),
{
    let ss = s.as_str();
    let n = ss.unicode_len();
    let m = lit.unicode_len();
    if m > n {
        return false;
    }
    let mut k: usize = 0;
    while k < m
        invariant
            ss@ == s@,
            n == s@.len(),
            m == lit@.len(),
            m <= n,
            k <= m,
            forall|j: int| 0 <= j < k ==> s@[n - m + j] == lit@[j],
        decreases m - k,
    {
        if ss.get_char(n - m + k) != lit.get_char(k) {
            assert(s@.skip(n - m)[k as int] != lit@[k as int]);
            return false;
        }
        k = k + 1;
    }
    assert(s@.skip(n - m) =~= lit@);
    true
}

/// The value of the decimal digits `s[from..to]`.
fn digits_in(s: &str, from: usize, to: usize) -> (r: Option<u64>)
    requires
        from <= to <= s@.len(),
    ensures
        r is Some <==> all_digits(s@.subrange(from as int, to as int)) && to - from
            <= MAX_INT_DIGITS,
        r is Some ==> r->0 == digits_value(s@.subrange(from as int, to as int)),
{
    if to - from > MAX_INT_DIGITS {
        return None;
    }
    let mut v: u64 = 0;
    let mut k: usize = from;
    while k < to
        invariant
            from <= k <= to <= s@.len(),
            to - from <= MAX_INT_DIGITS,
            all_digits(s@.subrange(from as int, k as int)),
            v == digits_value(s@.subrange(from as int, k as int)),
            v < pow10((k - from) as nat),
        decreases to - k,
    {
        let c = s.get_char(k);
        if !('0' <= c && c <= '9') {
            assert(s@.subrange(from as int, to as int)[k - from] == c);
            return None;
        }
        let ghost old_sub = s@.subrange(from as int, k as int);
        proof {
            lemma_pow10_bound((k - from) as nat);
        }
        v = v * 10 + (c as u64 - '0' as u64);
        k = k + 1;
        proof {
            let sub = s@.subrange(from as int, k as int);
            assert(sub.drop_last() =~= old_sub);
            assert(sub.last() == c);
            assert(all_digits(sub)) by {
                assert forall|i: int| 0 <= i < sub.len() implies is_digit(#[trigger] sub[i]) by {
                    if i < sub.len() - 1 {
                        assert(sub[i] == old_sub[i]);
                    }
                }
            }
        }
    }
    Some(v)
}

/// Whether `s[from..to]` is all decimal digits.
fn all_digits_in(s: &str, from: usize, to: usize) -> (r: bool)
    requires
        from <= to <= s@.len(),
    ensures
        r == all_digits(s@.subrange(from as int, to as int)),
{
    let mut k: usize = from;
    while k < to
        invariant
            from <= k <= to <= s@.len(),
            forall|j: int| from <= j < k ==> is_digit(#[trigger] s@[j]),
        decreases to - k,
    {
        let c = s.get_char(k);
        if !('0' <= c && c <= '9') {
            assert(s@.subrange(from as int, to as int)[k - from] == c);
            return false;
        }
        k = k + 1;
    }
    assert forall|i: int| 0 <= i < to - from implies is_digit(
        #[trigger] s@.subrange(from as int, to as int)[i],
    ) by {
        assert(s@.subrange(from as int, to as int)[i] == s@[from + i]);
    }
    true
}

/// Index of the first `.` in `s[..end]`, or `end`.
fn find_dot(s: &str, end: usize) -> (r: usize)
    requires
        end <= s@.len(),
    ensures
        r == dot_index(s@.subrange(0, end as int)),
{
    let ghost t = s@.subrange(0, end as int);
    let mut k: usize = 0;
    assert(t.skip(0) =~= t);
    while k < end
        invariant
            k <= end <= s@.len(),
            t == s@.subrange(0, end as int),
            dot_index(t) == k + dot_index(t.skip(k as int)),
        decreases end - k,
    {
        if s.get_char(k) == '.' {
            assert(t.skip(k as int)[0] == '.');
            return k;
        }
        assert(t.skip(k as int).skip(1) =~= t.skip(k + 1));
        k = k + 1;
    }
    assert(t.skip(k as int).len() == 0);
    k
}

/// The number written in `s[..end]`, in thousandths.
fn parse_number(s: &str, end: usize) -> (r: Option<u64>)
    requires
        end <= s@.len(),
    ensures
        r == number_value(s@.subrange(0, end as int)),
{
    let ghost t = s@.subrange(0, end as int);
    let d = find_dot(s, end);
    proof {
        lemma_dot_index(t);
    }
    assert(t.take(d as int) =~= s@.subrange(0, d as int));
    let ip = match digits_in(s, 0, d) {
        Some(v) => v,
        None => {
            return None;
        },
    };
    if d == 0 {
        return None;
    }
    let mut frac: u64 = 0;
    if d < end {
        assert(t.skip(d + 1int) =~= s@.subrange(d + 1, end as int));
        if d + 1 == end || !all_digits_in(s, d + 1, end) {
            return None;
        }
        let n = end - (d + 1);
        let stop = if n >= 3 {
            d + 4
        } else {
            end
        };
        let f = match digits_in(s, d + 1, stop) {
            Some(v) => v,
            None => {
                return None;
            },
        };
        proof {
            let fp = s@.subrange(d + 1, end as int);
            if n >= 3 {
                assert(fp.take(3) =~= s@.subrange(d + 1, stop as int));
            } else {
                assert(fp =~= s@.subrange(d + 1, stop as int));
            }
            lemma_digits_bound(s@.subrange(d + 1, stop as int));
            reveal_with_fuel(pow10, 4);
        }
        frac = if n >= 3 {
            f
        } else if n == 2 {
            f * 10
        } else {
            f * 100
        };
    } else {
        assert(t.take(d as int) =~= t);
    }
    proof {
        lemma_digits_bound(s@.subrange(0, d as int));
        lemma_pow10_mono(d as nat, 15);
        reveal_with_fuel(pow10, 16);
        assert(pow10(15) == 1_000_000_000_000_000);
    }
    Some(ip * 1000 + frac)
}

/// Facts on `dot_index`.
proof fn lemma_dot_index(s: Seq<char>)
    ensures
        dot_index(s) <= s.len(),
        dot_index(s) < s.len() ==> s[dot_index(s) as int] == '.',
    decreases s.len(),
{
    if s.len() > 0 && s[0] != '.' {
        lemma_dot_index(s.skip(1));
        if dot_index(s) < s.len() {
            assert(s[dot_index(s) as int] == s.skip(1)[dot_index(s.skip(1)) as int]);
        }
    }
}

/// Digits are worth less than ten to the power of their count.
proof fn lemma_digits_bound(s: Seq<char>)
    requires
        all_digits(s),
    ensures
        0 <= digits_value(s) < pow10(s.len()),
    decreases s.len(),
{
    if s.len() > 0 {
        assert(all_digits(s.drop_last())) by {
            assert forall|i: int| 0 <= i < s.len() - 1 implies is_digit(#[trigger] s.drop_last()[i]) by {
                assert(s.drop_last()[i] == s[i]);
            }
        }
        lemma_digits_bound(s.drop_last());
        assert(is_digit(s[s.len() - 1]));
    }
}

pub open spec fn pow10(n: nat) -> int
    decreases n,
{
    if n == 0 {
        1
    } else {
        10 * pow10((n - 1) as nat)
    }
}

proof fn lemma_pow10_bound(n: nat)
    requires
        n < MAX_INT_DIGITS,
    ensures
        10 * pow10(n) <= 1_000_000_000_000_000,
        pow10(n) > 0,
{
    lemma_pow10_mono(n, 14);
    reveal_with_fuel(pow10, 15);
    assert(pow10(14) == 100_000_000_000_000);
}

proof fn lemma_pow10_mono(n: nat, m: nat)
    requires
        n <= m,
    ensures
        0 < pow10(n) <= pow10(m),
    decreases m,
{
    if m > n {
        lemma_pow10_mono(n, (m - 1) as nat);
    } else if n > 0 {
        lemma_pow10_mono((n - 1) as nat, (n - 1) as nat);
    }
}

/// The named colours.
pub open spec fn named_color(s: Seq<char>) -> Option<Color> {
    if s == "black"@ {
        Some(Color { red: 0, green: 0, blue: 0 })
    } else if s == "silver"@ {
        Some(Color { red: 192, green: 192, blue: 192 })
    } else if s == "gray"@ {
        Some(Color { red: 128, green: 128, blue: 128 })
    } else if s == "white"@ {
        Some(Color { red: 255, green: 255, blue: 255 })
    } else if s == "maroon"@ {
        Some(Color { red: 128, green: 0, blue: 0 })
    } else if s == "red"@ {
        Some(Color { red: 255, green: 0, blue: 0 })
    } else if s == "purple"@ {
        Some(Color { red: 128, green: 0, blue: 128 })
    } else if s == "fuchsia"@ {
        Some(Color { red: 255, green: 0, blue: 255 })
    } else if s == "green"@ {
        Some(Color { red: 0, green: 128, blue: 0 })
    } else if s == "lime"@ {
        Some(Color { red: 0, green: 255, blue: 0 })
    } else if s == "olive"@ {
        Some(Color { red: 128, green: 128, blue: 0 })
    } else if s == "yellow"@ {
        Some(Color { red: 255, green: 255, blue: 0 })
    } else if s == "navy"@ {
        Some(Color { red: 0, green: 0, blue: 128 })
    } else if s == "blue"@ {
        Some(Color { red: 0, green: 0, blue: 255 })
    } else if s == "teal"@ {
        Some(Color { red: 0, green: 128, blue: 128 })
    } else if s == "aqua"@ {
        Some(Color { red: 0, green: 255, blue: 255 })
    } else {
        None
    }
}

fn parse_named_color(s: &String) -> (r: Option<Color>)
    ensures
        r == named_color(s@),
{
    if eq_lit(s, "black") {
        Some(Color { red: 0, green: 0, blue: 0 })
    } else if eq_lit(s, "silver") {
        Some(Color { red: 192, green: 192, blue: 192 })
    } else if eq_lit(s, "gray") {
        Some(Color { red: 128, green: 128, blue: 128 })
    } else if eq_lit(s, "white") {
        Some(Color { red: 255, green: 255, blue: 255 })
    } else if eq_lit(s, "maroon") {
        Some(Color { red: 128, green: 0, blue: 0 })
    } else if eq_lit(s, "red") {
        Some(Color { red: 255, green: 0, blue: 0 })
    } else if eq_lit(s, "purple") {
        Some(Color { red: 128, green: 0, blue: 128 })
    } else if eq_lit(s, "fuchsia") {
        Some(Color { red: 255, green: 0, blue: 255 })
    } else if eq_lit(s, "green") {
        Some(Color { red: 0, green: 128, blue: 0 })
    } else if eq_lit(s, "lime") {
        Some(Color { red: 0, green: 255, blue: 0 })
    } else if eq_lit(s, "olive") {
        Some(Color { red: 128, green: 128, blue: 0 })
    } else if eq_lit(s, "yellow") {
        Some(Color { red: 255, green: 255, blue: 0 })
    } else if eq_lit(s, "navy") {
        Some(Color { red: 0, green: 0, blue: 128 })
    } else if eq_lit(s, "blue") {
        Some(Color { red: 0, green: 0, blue: 255 })
    } else if eq_lit(s, "teal") {
        Some(Color { red: 0, green: 128, blue: 128 })
    } else if eq_lit(s, "aqua") {
        Some(Color { red: 0, green: 255, blue: 255 })
    } else {
        None
    }
}


/// A hexadecimal digit's value.
pub open spec fn hex_value(c: char) -> Option<u8> {
    if '0' <= c && c <= '9' {
        Some((c as int - '0' as int) as u8)
    } else if 'a' <= c && c <= 'f' {
        Some((c as int - 'a' as int + 10) as u8)
    } else if 'A' <= c && c <= 'F' {
        Some((c as int - 'A' as int + 10) as u8)
    } else {
        None
    }
}

/// A colour: `#rgb`, `#rrggbb` or a name.
pub open spec fn color_of(s: Seq<char>) -> Option<Color> {
    if s.len() == 4 && s[0] == '#' {
        if hex_value(s[1]) is Some && hex_value(s[2]) is Some && hex_value(s[3]) is Some {
            Some(
                Color {
                    red: (hex_value(s[1])->0 * 17) as u8,
                    green: (hex_value(s[2])->0 * 17) as u8,
                    blue: (hex_value(s[3])->0 * 17) as u8,
                },
            )
        } else {
            None
        }
    } else if s.len() == 7 && s[0] == '#' {
        if hex_value(s[1]) is Some && hex_value(s[2]) is Some && hex_value(s[3]) is Some
            && hex_value(s[4]) is Some && hex_value(s[5]) is Some && hex_value(s[6]) is Some {
            Some(
                Color {
                    red: (hex_value(s[1])->0 * 16 + hex_value(s[2])->0) as u8,
                    green: (hex_value(s[3])->0 * 16 + hex_value(s[4])->0) as u8,
                    blue: (hex_value(s[5])->0 * 16 + hex_value(s[6])->0) as u8,
                },
            )
        } else {
            None
        }
    } else {
        named_color(s)
    }
}

fn hex_digit(c: char) -> (r: Option<u8>)
    ensures
        r == hex_value(c),
        r is Some ==> r->0 < 16,
{
    if '0' <= c && c <= '9' {
        Some((c as u32 - '0' as u32) as u8)
    } else if 'a' <= c && c <= 'f' {
        Some((c as u32 - 'a' as u32 + 10) as u8)
    } else if 'A' <= c && c <= 'F' {
        Some((c as u32 - 'A' as u32 + 10) as u8)
    } else {
        None
    }
}

/// Parse a colour value.
pub fn parse_color(s: &String) -> (r: Option<Color>)
    ensures
        r == color_of(s@),
{
    let t = s.as_str();
    let n = t.unicode_len();
    if (n == 4 || n == 7) && t.get_char(0) == '#' {
        let mut digits: Vec<u8> = Vec::new();
        let mut k: usize = 1;
        while k < n
            invariant
                t@ == s@,
                n == s@.len(),
                n == 4 || n == 7,
                s@[0] == '#',
                1 <= k <= n,
                digits@.len() == k - 1,
                forall|i: int| 0 <= i < k - 1 ==> hex_value(s@[i + 1]) == Some(#[trigger] digits@[i]),
                forall|i: int| 0 <= i < digits@.len() ==> #[trigger] digits@[i] < 16,
            decreases n - k,
        {
            match hex_digit(t.get_char(k)) {
                Some(d) => digits.push(d),
                None => {
                    assert(hex_value(s@[k as int]) is None);
                    assert(k == 1 || k == 2 || k == 3 || k == 4 || k == 5 || k == 6);
                    return None;
                },
            }
            k = k + 1;
        }
        assert(hex_value(s@[1]) == Some(digits@[0]));
        assert(hex_value(s@[2]) == Some(digits@[1]));
        assert(hex_value(s@[3]) == Some(digits@[2]));
        assert(digits@[0] < 16 && digits@[1] < 16 && digits@[2] < 16);
        if n == 4 {
            Some(Color { red: digits[0] * 17, green: digits[1] * 17, blue: digits[2] * 17 })
        } else {
            assert(hex_value(s@[4]) == Some(digits@[3]));
            assert(hex_value(s@[5]) == Some(digits@[4]));
            assert(hex_value(s@[6]) == Some(digits@[5]));
            assert(digits@[3] < 16 && digits@[4] < 16 && digits@[5] < 16);
            Some(
                Color {
                    red: digits[0] * 16 + digits[1],
                    green: digits[2] * 16 + digits[3],
                    blue: digits[4] * 16 + digits[5],
                },
            )
        }
    } else {
        parse_named_color(s)
    }
}

/// Parse a length value.
pub fn parse_length(s: &String) -> (r: Option<Length>)
    ensures
        r == length_of(s@),
{
    let t = s.as_str();
    let n = t.unicode_len();
    if eq_lit(s, "auto") {
        Some(Length::Auto)
    } else if ends_with_lit(s, "px") {
        proof {
            reveal_strlit("px");
        }
        match parse_number(t, n - 2) {
            Some(v) => Some(Length::Px(v)),
            None => None,
        }
    } else if ends_with_lit(s, "pt") {
        proof {
            reveal_strlit("pt");
        }
        match parse_number(t, n - 2) {
            Some(v) => Some(Length::Pt(v)),
            None => None,
        }
    } else if ends_with_lit(s, "mm") {
        proof {
            reveal_strlit("mm");
        }
        match parse_number(t, n - 2) {
            Some(v) => Some(Length::Mm(v)),
            None => None,
        }
    } else if ends_with_lit(s, "%") {
        proof {
            reveal_strlit("%");
        }
        match parse_number(t, n - 1) {
            Some(v) => Some(Length::Percent(v)),
            None => None,
        }
    } else {
        None
    }
}

/// A font size: a keyword or a length.
pub open spec fn font_size_of(s: Seq<char>) -> Option<FontSize> {
    if s == "xx-small"@ {
        Some(FontSize::AbsoluteSize(AbsoluteSize::XXSmall))
    } else if s == "x-small"@ {
        Some(FontSize::AbsoluteSize(AbsoluteSize::XSmall))
    } else if s == "small"@ {
        Some(FontSize::AbsoluteSize(AbsoluteSize::Small))
    } else if s == "medium"@ {
        Some(FontSize::AbsoluteSize(AbsoluteSize::Medium))
    } else if s == "large"@ {
        Some(FontSize::AbsoluteSize(AbsoluteSize::Large))
    } else if s == "x-large"@ {
        Some(FontSize::AbsoluteSize(AbsoluteSize::XLarge))
    } else if s == "xx-large"@ {
        Some(FontSize::AbsoluteSize(AbsoluteSize::XXLarge))
    } else if s == "smaller"@ {
        Some(FontSize::Smaller)
    } else if s == "larger"@ {
        Some(FontSize::Larger)
    } else {
        match length_of(s) {
            Some(l) => Some(FontSize::LengthSize(l)),
            None => None,
        }
    }
}

fn parse_font_size(s: &String) -> (r: Option<FontSize>)
    ensures
        r == font_size_of(s@),
{
    if eq_lit(s, "xx-small") {
        Some(FontSize::AbsoluteSize(AbsoluteSize::XXSmall))
    } else if eq_lit(s, "x-small") {
        Some(FontSize::AbsoluteSize(AbsoluteSize::XSmall))
    } else if eq_lit(s, "small") {
        Some(FontSize::AbsoluteSize(AbsoluteSize::Small))
    } else if eq_lit(s, "medium") {
        Some(FontSize::AbsoluteSize(AbsoluteSize::Medium))
    } else if eq_lit(s, "large") {
        Some(FontSize::AbsoluteSize(AbsoluteSize::Large))
    } else if eq_lit(s, "x-large") {
        Some(FontSize::AbsoluteSize(AbsoluteSize::XLarge))
    } else if eq_lit(s, "xx-large") {
        Some(FontSize::AbsoluteSize(AbsoluteSize::XXLarge))
    } else if eq_lit(s, "smaller") {
        Some(FontSize::Smaller)
    } else if eq_lit(s, "larger") {
        Some(FontSize::Larger)
    } else {
        match parse_length(s) {
            Some(l) => Some(FontSize::LengthSize(l)),
            None => None,
        }
    }
}

pub open spec fn display_of(s: Seq<char>) -> Option<DisplayType> {
    if s == "inline"@ {
        Some(DisplayType::DisplayInline)
    } else if s == "block"@ {
        Some(DisplayType::DisplayBlock)
    } else if s == "none"@ {
        Some(DisplayType::DisplayNone)
    } else {
        None
    }
}

pub open spec fn position_of(s: Seq<char>) -> Option<PositionType> {
    if s == "static"@ {
        Some(PositionType::PosStatic)
    } else if s == "relative"@ {
        Some(PositionType::PosRelative)
    } else if s == "absolute"@ {
        Some(PositionType::PosAbsolute)
    } else {
        None
    }
}

/// The typed declaration for a property name and value; `None` for an unknown property or a
/// malformed value.
pub open spec fn decl_of(name: Seq<char>, value: Seq<char>) -> Option<StyleDeclaration> {
    if name == "background-color"@ {
        match color_of(value) {
            Some(c) => Some(StyleDeclaration::BackgroundColor(c)),
            None => None,
        }
    } else if name == "color"@ {
        match color_of(value) {
            Some(c) => Some(StyleDeclaration::Color(c)),
            None => None,
        }
    } else if name == "border-color"@ {
        match color_of(value) {
            Some(c) => Some(StyleDeclaration::BorderColor(c)),
            None => None,
        }
    } else if name == "display"@ {
        match display_of(value) {
            Some(d) => Some(StyleDeclaration::Display(d)),
            None => None,
        }
    } else if name == "position"@ {
        match position_of(value) {
            Some(p) => Some(StyleDeclaration::Position(p)),
            None => None,
        }
    } else if name == "font-size"@ {
        match font_size_of(value) {
            Some(f) => Some(StyleDeclaration::FontSize(f)),
            None => None,
        }
    } else {
        match length_of(value) {
            Some(l) => if name == "height"@ {
                Some(StyleDeclaration::Height(l))
            } else if name == "width"@ {
                Some(StyleDeclaration::Width(l))
            } else if name == "top"@ {
                Some(StyleDeclaration::Top(l))
            } else if name == "right"@ {
                Some(StyleDeclaration::Right(l))
            } else if name == "bottom"@ {
                Some(StyleDeclaration::Bottom(l))
            } else if name == "left"@ {
                Some(StyleDeclaration::Left(l))
            } else if name == "border-width"@ {
                Some(StyleDeclaration::BorderWidth(l))
            } else {
                None
            },
            None => None,
        }
    }
}

/// Turn a raw declaration into a typed one, or `None` when it cannot be used.
pub fn parse_declaration(name: &String, value: &String) -> (r: Option<StyleDeclaration>)
    ensures
        r == decl_of(name@, value@),
{
    if eq_lit(name, "background-color") {
        match parse_color(value) {
            Some(c) => Some(StyleDeclaration::BackgroundColor(c)),
            None => None,
        }
    } else if eq_lit(name, "color") {
        match parse_color(value) {
            Some(c) => Some(StyleDeclaration::Color(c)),
            None => None,
        }
    } else if eq_lit(name, "border-color") {
        match parse_color(value) {
            Some(c) => Some(StyleDeclaration::BorderColor(c)),
            None => None,
        }
    } else if eq_lit(name, "display") {
        if eq_lit(value, "inline") {
            Some(StyleDeclaration::Display(DisplayType::DisplayInline))
        } else if eq_lit(value, "block") {
            Some(StyleDeclaration::Display(DisplayType::DisplayBlock))
        } else if eq_lit(value, "none") {
            Some(StyleDeclaration::Display(DisplayType::DisplayNone))
        } else {
            None
        }
    } else if eq_lit(name, "position") {
        if eq_lit(value, "static") {
            Some(StyleDeclaration::Position(PositionType::PosStatic))
        } else if eq_lit(value, "relative") {
            Some(StyleDeclaration::Position(PositionType::PosRelative))
        } else if eq_lit(value, "absolute") {
            Some(StyleDeclaration::Position(PositionType::PosAbsolute))
        } else {
            None
        }
    } else if eq_lit(name, "font-size") {
        match parse_font_size(value) {
            Some(f) => Some(StyleDeclaration::FontSize(f)),
            None => None,
        }
    } else {
        match parse_length(value) {
            Some(l) => if eq_lit(name, "height") {
                Some(StyleDeclaration::Height(l))
            } else if eq_lit(name, "width") {
                Some(StyleDeclaration::Width(l))
            } else if eq_lit(name, "top") {
                Some(StyleDeclaration::Top(l))
            } else if eq_lit(name, "right") {
                Some(StyleDeclaration::Right(l))
            } else if eq_lit(name, "bottom") {
                Some(StyleDeclaration::Bottom(l))
            } else if eq_lit(name, "left") {
                Some(StyleDeclaration::Left(l))
            } else if eq_lit(name, "border-width") {
                Some(StyleDeclaration::BorderWidth(l))
            } else {
                None
            },
            None => None,
        }
    }
}

} // verus!
