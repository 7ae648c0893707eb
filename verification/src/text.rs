//! Character level helpers shared by the parsers and formatters.

use vstd::prelude::*;

verus! {

/// ASCII lower case of one character, other characters unchanged.
pub open spec fn ascii_lower(c: char) -> char {
    if 'A' <= c && c <= 'Z' {
        ((c as u32) + 32) as char
    } else {
        c
    }
}

/// ASCII lower case of a whole text.
pub open spec fn ascii_lower_seq(s: Seq<char>) -> Seq<char> {
    s.map_values(|c: char| ascii_lower(c))
}

/// Two texts that only differ in the case of ASCII letters.
pub open spec fn same_ignoring_ascii_case(a: Seq<char>, b: Seq<char>) -> bool {
    ascii_lower_seq(a) == ascii_lower_seq(b)
}

/// The characters of a string slice, in order.
///
/// Calls `str::chars` and collects them; the result is exactly the text.
#[verifier::external_body]
pub(crate) fn chars_of(s: &str) -> (result: Vec<char>)
    ensures
        result@ == s@,
{
    s.chars().collect()
}

/// A string made of the given characters, in order.
///
/// Calls `String::from_iter`; the result holds exactly these characters.
#[verifier::external_body]
pub(crate) fn string_from_chars(chars: &[char]) -> (result: String)
    ensures
        result@ == chars@,
{
    String::from_iter(chars.iter())
}

/// `str::eq_ignore_ascii_case`: whether both texts match once ASCII letters
/// are lower cased.
pub fn eq_ignore_ascii_case(a: &str, b: &str) -> (result: bool)
    ensures
        result == same_ignoring_ascii_case(a@, b@),
{
    let x = chars_of(a);
    let y = chars_of(b);
    if x.len() != y.len() {
        proof {
            assert(ascii_lower_seq(a@).len() != ascii_lower_seq(b@).len());
        }
        return false;
    }
    let mut index: usize = 0;
    while index < x.len()
        invariant
            x@ == a@,
            y@ == b@,
            x@.len() == y@.len(),
            index <= x@.len(),
            forall|k: int| 0 <= k < index ==> ascii_lower(#[trigger] x@[k]) == ascii_lower(y@[k]),
        decreases x@.len() - index,
    {
        if lower_char(x[index]) != lower_char(y[index]) {
            proof {
                assert(ascii_lower_seq(a@)[index as int] != ascii_lower_seq(b@)[index as int]);
            }
            return false;
        }
        index += 1;
    }
    proof {
        assert(ascii_lower_seq(a@) =~= ascii_lower_seq(b@));
    }
    true
}

/// `char::to_ascii_lowercase`.
pub fn lower_char(c: char) -> (result: char)
    ensures
        result == ascii_lower(c),
{
    if 'A' <= c && c <= 'Z' {
        ((c as u8) + 32) as char
    } else {
        c
    }
}

/// `char::is_whitespace`: the characters with Unicode's White_Space property.
pub open spec fn is_white(c: char) -> bool {
    ('\u{9}' <= c && c <= '\u{d}') || c == ' ' || c == '\u{85}' || c == '\u{a0}' || c == '\u{1680}'
        || ('\u{2000}' <= c && c <= '\u{200a}') || c == '\u{2028}' || c == '\u{2029}' || c == '\u{202f}'
        || c == '\u{205f}' || c == '\u{3000}'
}

pub fn is_white_char(c: char) -> (result: bool)
    ensures
        result == is_white(c),
{
    ('\u{9}' <= c && c <= '\u{d}') || c == ' ' || c == '\u{85}' || c == '\u{a0}' || c == '\u{1680}'
        || ('\u{2000}' <= c && c <= '\u{200a}') || c == '\u{2028}' || c == '\u{2029}' || c == '\u{202f}'
        || c == '\u{205f}' || c == '\u{3000}'
}

pub open spec fn is_digit(c: char) -> bool {
    '0' <= c && c <= '9'
}

/// Value of a digit character.
pub open spec fn digit_value(c: char) -> nat {
    ((c as u32) - ('0' as u32)) as nat
}

/// The digit character of `d < 10`.
pub open spec fn digit_char(d: nat) -> char {
    ((d + 48) as u32) as char
}

/// Decimal writing of a natural number, without leading zeros.
pub open spec fn decimal(n: nat) -> Seq<char>
    decreases n,
{
    if n < 10 {
        seq![digit_char(n)]
    } else {
        decimal(n / 10) + seq![digit_char(n % 10)]
    }
}

/// Decimal writing of an integer, with a minus sign when negative.
pub open spec fn signed_decimal(n: int) -> Seq<char> {
    if n < 0 {
        seq!['-'] + decimal((-n) as nat)
    } else {
        decimal(n as nat)
    }
}

/// Value of a text made of digits.
pub open spec fn digits_value(s: Seq<char>) -> nat
    decreases s.len(),
{
    if s.len() == 0 {
        0
    } else {
        digits_value(s.drop_last()) * 10 + digit_value(s.last())
    }
}

pub open spec fn all_digits(s: Seq<char>) -> bool {
    forall|i: int| 0 <= i < s.len() ==> is_digit(#[trigger] s[i])
}

fn push_decimal(n: u128, out: &mut Vec<char>)
    ensures
        final(out)@ == old(out)@ + decimal(n as nat),
    decreases n,
{
    if n >= 10 {
        push_decimal(n / 10, out);
    }
    let d = (n % 10) as u8;
    let c = (d + 48) as char;
    out.push(c);
    proof {
        if n >= 10 {
            assert(decimal(n as nat) == decimal((n / 10) as nat) + seq![digit_char((n % 10) as nat)]);
        }
    }
}

/// `u64::to_string`.
pub fn decimal_string(n: u64) -> (result: String)
    ensures
        result@ == decimal(n as nat),
{
    let mut out: Vec<char> = Vec::new();
    push_decimal(n as u128, &mut out);
    proof {
        assert(Seq::<char>::empty() + decimal(n as nat) =~= decimal(n as nat));
    }
    string_from_chars(out.as_slice())
}

/// `u128::to_string`.
pub fn wide_decimal_string(n: u128) -> (result: String)
    ensures
        result@ == decimal(n as nat),
{
    let mut out: Vec<char> = Vec::new();
    push_decimal(n, &mut out);
    proof {
        assert(Seq::<char>::empty() + decimal(n as nat) =~= decimal(n as nat));
    }
    string_from_chars(out.as_slice())
}

/// `i64::to_string`.
pub fn signed_decimal_string(n: i64) -> (result: String)
    ensures
        result@ == signed_decimal(n as int),
{
    let mut out: Vec<char> = Vec::new();
    if n < 0 {
        out.push('-');
        let magnitude: u64 = if n == i64::MIN { 9_223_372_036_854_775_808u64 } else { (-n) as u64 };
        push_decimal(magnitude as u128, &mut out);
        proof {
            assert(out@ =~= seq!['-'] + decimal((-(n as int)) as nat));
        }
    } else {
        push_decimal(n as u128, &mut out);
        proof {
            assert(out@ =~= decimal(n as nat));
        }
    }
    string_from_chars(out.as_slice())
}

/// ASCII lower case of a text, other characters unchanged.
pub fn ascii_lowercase(s: &str) -> (result: String)
    ensures
        result@ == ascii_lower_seq(s@),
{
    let chars = chars_of(s);
    let mut out: Vec<char> = Vec::new();
    let mut index: usize = 0;
    while index < chars.len()
        invariant
            index <= chars@.len(),
            chars@ == s@,
            out@ == ascii_lower_seq(s@.take(index as int)),
        decreases chars@.len() - index,
    {
        out.push(lower_char(chars[index]));
        proof {
            assert(ascii_lower_seq(s@.take(index + 1)) =~= ascii_lower_seq(s@.take(index as int)).push(ascii_lower(s@[index as int])));
        }
        index += 1;
    }
    proof {
        assert(s@.take(index as int) =~= s@);
    }
    string_from_chars(out.as_slice())
}

/// Position of the first character that is not white space, or the length.
pub open spec fn first_non_white(s: Seq<char>) -> int
    decreases s.len(),
{
    if s.len() == 0 || !is_white(s[0]) {
        0
    } else {
        1 + first_non_white(s.drop_first())
    }
}

/// Length once trailing white space is dropped.
pub open spec fn end_non_white(s: Seq<char>) -> int
    decreases s.len(),
{
    if s.len() == 0 || !is_white(s.last()) {
        s.len() as int
    } else {
        end_non_white(s.drop_last())
    }
}

/// `str::trim`: the text without leading and trailing white space.
pub open spec fn trimmed(s: Seq<char>) -> Seq<char> {
    let start = first_non_white(s);
    let end = end_non_white(s);
    if start >= end {
        seq![]
    } else {
        s.subrange(start, end)
    }
}

pub proof fn lemma_first_non_white(s: Seq<char>)
    ensures
        0 <= first_non_white(s) <= s.len(),
        forall|k: int| 0 <= k < first_non_white(s) ==> is_white(#[trigger] s[k]),
        first_non_white(s) < s.len() ==> !is_white(s[first_non_white(s)]),
    decreases s.len(),
{
    if s.len() > 0 && is_white(s[0]) {
        lemma_first_non_white(s.drop_first());
        assert forall|k: int| 0 <= k < first_non_white(s) implies is_white(#[trigger] s[k]) by {
            if k > 0 {
                assert(s[k] == s.drop_first()[k - 1]);
            }
        }
    }
}

pub proof fn lemma_end_non_white(s: Seq<char>)
    ensures
        0 <= end_non_white(s) <= s.len(),
        forall|k: int| end_non_white(s) <= k < s.len() ==> is_white(#[trigger] s[k]),
        end_non_white(s) > 0 ==> !is_white(s[end_non_white(s) - 1]),
    decreases s.len(),
{
    if s.len() > 0 && is_white(s.last()) {
        lemma_end_non_white(s.drop_last());
        assert forall|k: int| end_non_white(s) <= k < s.len() implies is_white(#[trigger] s[k]) by {
            if k < s.len() - 1 {
                assert(s[k] == s.drop_last()[k]);
            }
        }
    }
}

/// Start of the trimmed text, computed from the front.
fn trim_bounds(chars: &Vec<char>) -> (result: (usize, usize))
    ensures
        result.0 == first_non_white(chars@),
        result.1 == end_non_white(chars@),
        result.0 <= chars@.len(),
        result.1 <= chars@.len(),
{
    let mut start: usize = 0;
    proof {
        lemma_first_non_white(chars@);
        lemma_end_non_white(chars@);
    }
    while start < chars.len() && is_white_char(chars[start])
        invariant
            start <= first_non_white(chars@),
            0 <= first_non_white(chars@) <= chars@.len(),
            forall|k: int| 0 <= k < first_non_white(chars@) ==> is_white(#[trigger] chars@[k]),
            first_non_white(chars@) < chars@.len() ==> !is_white(chars@[first_non_white(chars@)]),
        decreases chars@.len() - start,
    {
        start += 1;
    }
    let mut end: usize = chars.len();
    while end > 0 && is_white_char(chars[end - 1])
        invariant
            end_non_white(chars@) <= end <= chars@.len(),
            0 <= end_non_white(chars@) <= chars@.len(),
            forall|k: int| end_non_white(chars@) <= k < chars@.len() ==> is_white(#[trigger] chars@[k]),
            end_non_white(chars@) > 0 ==> !is_white(chars@[end_non_white(chars@) - 1]),
        decreases end,
    {
        end -= 1;
    }
    (start, end)
}

/// `str::trim`.
pub fn trim(s: &str) -> (result: String)
    ensures
        result@ == trimmed(s@),
{
    let chars = chars_of(s);
    let (start, end) = trim_bounds(&chars);
    let mut out: Vec<char> = Vec::new();
    if start < end {
        let mut index = start;
        proof {
            assert(out@ =~= chars@.subrange(start as int, start as int));
        }
        while index < end
            invariant
                start <= index <= end <= chars@.len(),
                out@ == chars@.subrange(start as int, index as int),
            decreases end - index,
        {
            out.push(chars[index]);
            proof {
                assert(out@ =~= chars@.subrange(start as int, index + 1));
            }
            index += 1;
        }
    } else {
        proof {
            assert(out@ =~= Seq::<char>::empty());
        }
    }
    string_from_chars(out.as_slice())
}

/// Index of the first element that satisfies `p`.
pub open spec fn first_where<A>(s: Seq<A>, p: spec_fn(A) -> bool) -> Option<int> {
    if exists|i: int| 0 <= i < s.len() && p(s[i]) && forall|j: int| 0 <= j < i ==> !p(#[trigger] s[j]) {
        Some(choose|i: int| 0 <= i < s.len() && p(s[i]) && forall|j: int| 0 <= j < i ==> !p(#[trigger] s[j]))
    } else {
        None
    }
}

pub proof fn lemma_first_where_found<A>(s: Seq<A>, p: spec_fn(A) -> bool, i: int)
    requires
        0 <= i < s.len(),
        p(s[i]),
        forall|j: int| 0 <= j < i ==> !p(#[trigger] s[j]),
    ensures
        first_where(s, p) == Some(i),
{
    let k = choose|k: int| 0 <= k < s.len() && p(s[k]) && forall|j: int| 0 <= j < k ==> !p(#[trigger] s[j]);
    assert(0 <= k < s.len() && p(s[k]) && forall|j: int| 0 <= j < k ==> !p(#[trigger] s[j]));
    if k < i {
        assert(!p(s[k]));
    } else if i < k {
        assert(!p(s[i]));
    }
}

pub proof fn lemma_first_where_none<A>(s: Seq<A>, p: spec_fn(A) -> bool)
    requires
        forall|j: int| 0 <= j < s.len() ==> !p(#[trigger] s[j]),
    ensures
        first_where(s, p) is None,
{
}

/// Whether two texts are equal, character by character.
pub fn text_eq(a: &str, b: &str) -> (result: bool)
    ensures
        result == (a@ == b@),
{
    let x = chars_of(a);
    let y = chars_of(b);
    if x.len() != y.len() {
        return false;
    }
    let mut index: usize = 0;
    while index < x.len()
        invariant
            x@ == a@,
            y@ == b@,
            x@.len() == y@.len(),
            index <= x@.len(),
            forall|k: int| 0 <= k < index ==> x@[k] == y@[k],
        decreases x@.len() - index,
    {
        if x[index] != y[index] {
            return false;
        }
        index += 1;
    }
    proof {
        assert(a@ =~= b@);
    }
    true
}

/// `str::to_lowercase`: Unicode lower case of a text.
pub uninterp spec fn lowercase(s: Seq<char>) -> Seq<char>;

/// `str::to_lowercase`, the Unicode lower case of the text as the standard
/// library defines it; the result is only named here.
#[verifier::external_body]
pub(crate) fn to_lowercase(s: &str) -> (result: String)
    ensures
        result@ == lowercase(s@),
{
    s.to_lowercase()
}

pub proof fn lemma_digit_char(d: nat)
    requires
        d < 10,
    ensures
        digit_char(d) as u32 == d + 48,
        is_digit(digit_char(d)),
        digit_char(d) != '-',
{
}

pub proof fn lemma_decimal_nonempty(n: nat)
    ensures
        decimal(n).len() >= 1,
        n >= 10 ==> decimal(n).len() >= 2,
        forall|i: int| 0 <= i < decimal(n).len() ==> is_digit(#[trigger] decimal(n)[i]),
    decreases n,
{
    lemma_digit_char(n % 10);
    if n >= 10 {
        lemma_decimal_nonempty(n / 10);
        assert forall|i: int| 0 <= i < decimal(n).len() implies is_digit(#[trigger] decimal(n)[i]) by {
            if i < decimal(n / 10).len() {
                assert(decimal(n)[i] == decimal(n / 10)[i]);
            }
        }
    } else {
        lemma_digit_char(n);
    }
}

/// Different numbers are written differently.
pub proof fn lemma_decimal_injective(a: nat, b: nat)
    requires
        decimal(a) == decimal(b),
    ensures
        a == b,
    decreases a,
{
    lemma_decimal_nonempty(a);
    lemma_decimal_nonempty(b);
    if a < 10 && b < 10 {
        lemma_digit_char(a);
        lemma_digit_char(b);
        assert(decimal(a) == seq![digit_char(a)]);
        assert(decimal(b) == seq![digit_char(b)]);
        assert(seq![digit_char(a)][0] == digit_char(a));
        assert(seq![digit_char(b)][0] == digit_char(b));
        assert(decimal(a)[0] == decimal(b)[0]);
        assert(digit_char(a) == digit_char(b));
        assert(digit_char(a) as u32 == digit_char(b) as u32);
    } else if a >= 10 && b >= 10 {
        let da = decimal(a);
        lemma_digit_char(a % 10);
        lemma_digit_char(b % 10);
        assert(da.last() == digit_char(a % 10));
        assert(decimal(b).last() == digit_char(b % 10));
        assert(decimal(a / 10) =~= da.drop_last());
        assert(decimal(b / 10) =~= decimal(b).drop_last());
        lemma_decimal_injective(a / 10, b / 10);
        assert(digit_char(a % 10) as u32 == digit_char(b % 10) as u32);
        assert(a == b) by (nonlinear_arith)
            requires
                a / 10 == b / 10,
                a % 10 == b % 10,
        {
        }
    } else {
        assert(decimal(a).len() != decimal(b).len());
    }
}


/// An integer as `str::parse` reads it: an optional `+` (or `-` where the
/// type is signed) and at least one ASCII digit; its value, unbounded.
pub open spec fn integer_text(s: Seq<char>, allow_minus: bool) -> Option<int> {
    if s.len() > 0 && (s[0] == '+' || (allow_minus && s[0] == '-')) {
        let rest = s.drop_first();
        if rest.len() > 0 && all_digits(rest) {
            if s[0] == '-' {
                Some(-(digits_value(rest) as int))
            } else {
                Some(digits_value(rest) as int)
            }
        } else {
            None
        }
    } else if s.len() > 0 && all_digits(s) {
        Some(digits_value(s) as int)
    } else {
        None
    }
}

/// `str::parse` into an integer type whose values are `lo..=hi`.
pub open spec fn parsed_integer(s: Seq<char>, allow_minus: bool, lo: int, hi: int) -> Option<int> {
    match integer_text(s, allow_minus) {
        Some(v) => if lo <= v && v <= hi {
            Some(v)
        } else {
            None
        },
        None => None,
    }
}

/// A longer prefix of digits is worth at least as much.
pub proof fn lemma_digits_prefix_grows(s: Seq<char>, i: int, j: int)
    requires
        all_digits(s),
        0 <= i <= j <= s.len(),
    ensures
        digits_value(s.take(i)) <= digits_value(s.take(j)),
    decreases j - i,
{
    if i < j {
        lemma_digits_prefix_grows(s, i, j - 1);
        assert(s.take(j).drop_last() =~= s.take(j - 1));
    }
}

/// Value of `s.take(i + 1)` from the value of `s.take(i)`.
proof fn lemma_digits_step(s: Seq<char>, i: int)
    requires
        0 <= i < s.len(),
    ensures
        digits_value(s.take(i + 1)) == digits_value(s.take(i)) * 10 + digit_value(s[i]),
{
    assert(s.take(i + 1).drop_last() =~= s.take(i));
}

/// Value of the digits `chars[start..]`, or `None` when one of them is not a
/// digit or the value exceeds `cap`.
fn digits_up_to(chars: &[char], start: usize, cap: u128) -> (result: Option<u128>)
    requires
        start <= chars@.len(),
        cap < 0x1_0000_0000_0000_0000_0000_0000,
    ensures
        match result {
            Some(v) => all_digits(chars@.skip(start as int)) && v == digits_value(chars@.skip(start as int)) && v <= cap,
            None => !all_digits(chars@.skip(start as int)) || digits_value(chars@.skip(start as int)) > cap,
        },
{
    let ghost rest = chars@.skip(start as int);
    let mut value: u128 = 0;
    let mut index: usize = start;
    let mut capped = false;
    proof {
        assert(rest.take(0) =~= Seq::<char>::empty());
    }
    while index < chars.len()
        invariant
            rest == chars@.skip(start as int),
            start <= index <= chars@.len(),
            cap < 0x1_0000_0000_0000_0000_0000_0000,
            forall|k: int| 0 <= k < index - start ==> is_digit(#[trigger] rest[k]),
            !capped ==> value == digits_value(rest.take(index - start)) && value <= cap,
            capped ==> digits_value(rest.take(index - start)) > cap,
        decreases chars@.len() - index,
    {
        let c = chars[index];
        if !('0' <= c && c <= '9') {
            proof {
                assert(!is_digit(rest[index - start]));
            }
            return None;
        }
        proof {
            assert(rest[index - start] == c);
            lemma_digits_step(rest, index - start);
        }
        if !capped {
            let d = ((c as u32) - ('0' as u32)) as u128;
            let next = value * 10 + d;
            if next > cap {
                capped = true;
            } else {
                value = next;
            }
        } else {
            proof {
                assert(digits_value(rest.take(index - start + 1)) >= digits_value(rest.take(index - start))) by (nonlinear_arith)
                    requires
                        digits_value(rest.take(index - start + 1)) == digits_value(rest.take(index - start)) * 10 + digit_value(rest[index - start]),
                ;
            }
        }
        index += 1;
    }
    proof {
        assert(rest.take(index - start) =~= rest);
    }
    if capped {
        None
    } else {
        Some(value)
    }
}

/// `str::parse` for an integer type whose values are `lo..=hi`, signed when
/// `allow_minus` holds.
pub fn parse_integer(chars: &[char], allow_minus: bool, lo: i128, hi: i128) -> (result: Option<i128>)
    requires
        -0x1_0000_0000_0000_0000_0000 <= lo <= 0 <= hi <= 0x1_0000_0000_0000_0000_0000,
    ensures
        match result {
            Some(v) => parsed_integer(chars@, allow_minus, lo as int, hi as int) == Some(v as int),
            None => parsed_integer(chars@, allow_minus, lo as int, hi as int) is None,
        },
{
    let len = chars.len();
    if len == 0 {
        return None;
    }
    let first = chars[0];
    let signed = first == '+' || (allow_minus && first == '-');
    let start: usize = if signed { 1 } else { 0 };
    if start >= len {
        return None;
    }
    proof {
        if signed {
            assert(chars@.skip(1) =~= chars@.drop_first());
        } else {
            assert(chars@.skip(0) =~= chars@);
        }
    }
    let cap: u128 = 0x1_0000_0000_0000_0000_0001;
    match digits_up_to(chars, start, cap) {
        Some(magnitude) => {
            let value: i128 = if first == '-' && signed { -(magnitude as i128) } else { magnitude as i128 };
            if lo <= value && value <= hi {
                Some(value)
            } else {
                None
            }
        },
        None => None,
    }
}

/// `str::parse` of a whole string slice; see `parse_integer`.
pub fn parse_str_integer(s: &str, allow_minus: bool, lo: i128, hi: i128) -> (result: Option<i128>)
    requires
        -0x1_0000_0000_0000_0000_0000 <= lo <= 0 <= hi <= 0x1_0000_0000_0000_0000_0000,
    ensures
        match result {
            Some(v) => parsed_integer(s@, allow_minus, lo as int, hi as int) == Some(v as int),
            None => parsed_integer(s@, allow_minus, lo as int, hi as int) is None,
        },
{
    let chars = chars_of(s);
    parse_integer(chars.as_slice(), allow_minus, lo, hi)
}


/// `str` ordering: lexicographic by character, a proper prefix first.
pub open spec fn text_less(a: Seq<char>, b: Seq<char>) -> bool
    decreases a.len(),
{
    if a.len() == 0 {
        b.len() > 0
    } else if b.len() == 0 {
        false
    } else if a[0] != b[0] {
        a[0] < b[0]
    } else {
        text_less(a.drop_first(), b.drop_first())
    }
}

pub proof fn lemma_text_less_irreflexive(a: Seq<char>)
    ensures
        !text_less(a, a),
    decreases a.len(),
{
    if a.len() > 0 {
        lemma_text_less_irreflexive(a.drop_first());
    }
}

pub proof fn lemma_text_less_total(a: Seq<char>, b: Seq<char>)
    ensures
        text_less(a, b) || text_less(b, a) || a == b,
        !(text_less(a, b) && text_less(b, a)),
    decreases a.len(),
{
    if a.len() > 0 && b.len() > 0 {
        if a[0] == b[0] {
            lemma_text_less_total(a.drop_first(), b.drop_first());
            if a.drop_first() == b.drop_first() {
                assert(a =~= seq![a[0]] + a.drop_first());
                assert(b =~= seq![b[0]] + b.drop_first());
            }
        }
    } else if a.len() == 0 && b.len() == 0 {
        assert(a =~= b);
    }
}

pub proof fn lemma_text_less_transitive(a: Seq<char>, b: Seq<char>, c: Seq<char>)
    requires
        text_less(a, b),
        text_less(b, c),
    ensures
        text_less(a, c),
    decreases a.len(),
{
    if a.len() > 0 && b.len() > 0 && c.len() > 0 && a[0] == b[0] && b[0] == c[0] {
        lemma_text_less_transitive(a.drop_first(), b.drop_first(), c.drop_first());
    }
}

/// `a < b` on string slices, as `str` orders them.
pub fn text_less_exec(a: &[char], b: &[char]) -> (result: bool)
    ensures
        result == text_less(a@, b@),
{
    let mut index: usize = 0;
    proof {
        assert(a@.skip(0) =~= a@);
        assert(b@.skip(0) =~= b@);
    }
    while index < a.len() && index < b.len() && a[index] == b[index]
        invariant
            index <= a@.len(),
            index <= b@.len(),
            a@.take(index as int) == b@.take(index as int),
            text_less(a@, b@) == text_less(a@.skip(index as int), b@.skip(index as int)),
        decreases a@.len() - index,
    {
        proof {
            let sa = a@.skip(index as int);
            let sb = b@.skip(index as int);
            assert(sa.drop_first() =~= a@.skip(index + 1));
            assert(sb.drop_first() =~= b@.skip(index + 1));
            assert(a@.take(index + 1) =~= a@.take(index as int).push(a@[index as int]));
            assert(b@.take(index + 1) =~= b@.take(index as int).push(b@[index as int]));
        }
        index += 1;
    }
    proof {
        let sa = a@.skip(index as int);
        let sb = b@.skip(index as int);
        if index < a@.len() {
            assert(sa[0] == a@[index as int]);
        }
        if index < b@.len() {
            assert(sb[0] == b@[index as int]);
        }
    }
    if index == a.len() {
        index < b.len()
    } else if index == b.len() {
        false
    } else {
        a[index] < b[index]
    }
}


/// `needle` occurs in `s` as a run of consecutive characters.
pub open spec fn has_infix(s: Seq<char>, needle: Seq<char>) -> bool {
    exists|i: int| 0 <= i && i + needle.len() <= s.len() && #[trigger] s.subrange(i, i + needle.len()) == needle
}

/// `str::contains` with a string slice pattern.
pub fn contains_text(s: &str, needle: &str) -> (result: bool)
    ensures
        result == has_infix(s@, needle@),
{
    let hay = chars_of(s);
    let pat = chars_of(needle);
    let n = hay.len();
    if pat.len() == 0 {
        proof {
            assert(s@.subrange(0, 0 + needle@.len() as int) =~= needle@);
        }
        return true;
    }
    if pat.len() > n {
        return false;
    }
    let last = n - pat.len();
    let mut start: usize = 0;
    while start <= last
        invariant
            hay@ == s@,
            pat@ == needle@,
            n == hay@.len(),
            1 <= pat@.len() <= hay@.len(),
            last == hay@.len() - pat@.len(),
            start <= last + 1,
            forall|i: int| 0 <= i < start ==> #[trigger] hay@.subrange(i, i + pat@.len()) != pat@,
        decreases last + 1 - start,
    {
        let mut k: usize = 0;
        while k < pat.len()
            invariant
                n == hay@.len(),
                start + pat@.len() <= n,
                k <= pat@.len(),
                forall|m: int| 0 <= m < k ==> hay@[start + m] == pat@[m],
            ensures
                k <= pat@.len(),
                forall|m: int| 0 <= m < k ==> hay@[start + m] == pat@[m],
                k == pat@.len() || hay@[start + k] != pat@[k as int],
            decreases pat@.len() - k,
        {
            if hay[start + k] != pat[k] {
                break;
            }
            k += 1;
        }
        if k == pat.len() {
            proof {
                assert(hay@.subrange(start as int, start + pat@.len()) =~= pat@);
            }
            return true;
        }
        proof {
            assert(hay@.subrange(start as int, start + pat@.len())[k as int] != pat@[k as int]);
        }
        start += 1;
    }
    false
}


/// Filtering with a predicate that every element meets changes nothing.
pub proof fn lemma_filter_keeps_all<A>(s: Seq<A>, keep: spec_fn(A) -> bool)
    requires
        forall|i: int| 0 <= i < s.len() ==> keep(#[trigger] s[i]),
    ensures
        s.filter(keep) == s,
    decreases s.len(),
{
    reveal(Seq::filter);
    if s.len() > 0 {
        lemma_filter_keeps_all(s.drop_last(), keep);
        assert(s.drop_last().push(s.last()) =~= s);
    }
}

} // verus!
