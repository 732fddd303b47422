//! Character-level text operations: scanning, trimming, tokenising, ASCII case
//! mapping and decimal numbers.
//!
//! Each operation is defined as a function on `Seq<char>`; the executable
//! versions work on `&[char]` and are tied to those definitions.

use vstd::prelude::*;
use vstd::slice::slice_subrange;
use vstd::string::*;
use vstd::utf8::*;

verus! {

/// Whether `c` has the Unicode `White_Space` property.
pub open spec fn is_whitespace(c: char) -> bool {
    let n = c as u32;
    ||| 0x09 <= n <= 0x0D
    ||| n == 0x20
    ||| n == 0x85
    ||| n == 0xA0
    ||| n == 0x1680
    ||| 0x2000 <= n <= 0x200A
    ||| n == 0x2028
    ||| n == 0x2029
    ||| n == 0x202F
    ||| n == 0x205F
    ||| n == 0x3000
}

/// A set of characters that scanning and trimming look for.
#[derive(Clone, Copy, Debug)]
pub enum CharClass {
    /// Exactly the given character.
    Only(char),
    /// The characters with the Unicode `White_Space` property.
    Whitespace,
    /// Carriage return and line feed.
    LineBreak,
}

impl CharClass {
    /// Membership of `c` in the class.
    pub open spec fn has(self, c: char) -> bool {
        match self {
            CharClass::Only(x) => c == x,
            CharClass::Whitespace => is_whitespace(c),
            CharClass::LineBreak => c == '\r' || c == '\n',
        }
    }

    /// Tests membership of `c` in the class.
    pub fn contains(&self, c: char) -> (b: bool)
        ensures
            b == self.has(c),
    {
        match self {
            CharClass::Only(x) => c == *x,
            CharClass::Whitespace => whitespace(c),
            CharClass::LineBreak => c == '\r' || c == '\n',
        }
    }
}

/// Tests whether `c` has the Unicode `White_Space` property.
pub fn whitespace(c: char) -> (b: bool)
    ensures
        b == is_whitespace(c),
{
    let n: u32 = c as u32;
    (0x09 <= n && n <= 0x0D) || n == 0x20 || n == 0x85 || n == 0xA0 || n == 0x1680 || (0x2000 <= n
        && n <= 0x200A) || n == 0x2028 || n == 0x2029 || n == 0x202F || n == 0x205F || n
        == 0x3000
}

/// The number of characters of `s` that precede its first member of `class`;
/// the length of `s` when it has none.
pub open spec fn span_until(s: Seq<char>, class: CharClass) -> int
    decreases s.len(),
{
    if s.len() == 0 || class.has(s[0]) {
        0
    } else {
        1 + span_until(s.drop_first(), class)
    }
}

/// `span_until` stops at the first member of the class and nowhere before it.
pub proof fn lemma_span_until(s: Seq<char>, class: CharClass)
    ensures
        0 <= span_until(s, class) <= s.len(),
        forall|j: int| 0 <= j < span_until(s, class) ==> !class.has(#[trigger] s[j]),
        span_until(s, class) < s.len() ==> class.has(s[span_until(s, class)]),
    decreases s.len(),
{
    if s.len() == 0 || class.has(s[0]) {
    } else {
        let t = s.drop_first();
        lemma_span_until(t, class);
        assert forall|j: int| 0 <= j < span_until(s, class) implies !class.has(
            #[trigger] s[j],
        ) by {
            if j > 0 {
                assert(s[j] == t[j - 1]);
            }
        }
        if span_until(s, class) < s.len() {
            assert(s[span_until(s, class)] == t[span_until(t, class)]);
        }
    }
}

/// Any position that is the first member of the class, or the end of a
/// sequence without one, is what `span_until` returns.
pub proof fn lemma_span_until_unique(s: Seq<char>, class: CharClass, i: int)
    requires
        0 <= i <= s.len(),
        forall|j: int| 0 <= j < i ==> !class.has(#[trigger] s[j]),
        i < s.len() ==> class.has(s[i]),
    ensures
        span_until(s, class) == i,
{
    lemma_span_until(s, class);
    let k = span_until(s, class);
    if k < i {
        assert(!class.has(s[k]));
    } else if i < k {
        assert(!class.has(s[i]));
    }
}

/// `s` without its trailing members of `class`.
pub open spec fn drop_trailing(s: Seq<char>, class: CharClass) -> Seq<char>
    decreases s.len(),
{
    if s.len() > 0 && class.has(s.last()) {
        drop_trailing(s.drop_last(), class)
    } else {
        s
    }
}

/// `s` without its leading members of `class`.
pub open spec fn drop_leading(s: Seq<char>, class: CharClass) -> Seq<char>
    decreases s.len(),
{
    if s.len() > 0 && class.has(s[0]) {
        drop_leading(s.drop_first(), class)
    } else {
        s
    }
}

/// `s` without leading and trailing whitespace.
pub open spec fn trim(s: Seq<char>) -> Seq<char> {
    drop_trailing(drop_leading(s, CharClass::Whitespace), CharClass::Whitespace)
}

/// The characters of `s`, as a vector.
pub fn chars_of(s: &str) -> (v: Vec<char>)
    ensures
        v@ == s@,
{
    let mut v: Vec<char> = Vec::new();
    for c in it: s.chars()
        invariant
            it.seq() == s@,
            v@ == it.seq().take(it.index() as int),
    {
        v.push(c);
    }
    v
}

/// `String::push` of the standard library.
///
/// Trusted: the string afterwards is the string before with `ch` appended.
pub assume_specification[ String::push ](s: &mut String, ch: char)
    ensures
        final(s)@ == old(s)@.push(ch),
;

/// The string made of the characters `chars`.
pub fn string_of(chars: &[char]) -> (s: String)
    ensures
        s@ == chars@,
{
    let mut s = String::new();
    let mut i: usize = 0;
    while i < chars.len()
        invariant
            i <= chars.len(),
            s@ == chars@.take(i as int),
        decreases chars.len() - i,
    {
        s.push(chars[i]);
        i += 1;
    }
    s
}

/// Counts the characters of `chars` before its first member of `class`.
pub fn leading_span(chars: &[char], class: CharClass) -> (n: usize)
    ensures
        n == span_until(chars@, class),
        n <= chars.len(),
{
    let mut i: usize = 0;
    while i < chars.len() && !class.contains(chars[i])
        invariant
            i <= chars.len(),
            forall|j: int| 0 <= j < i ==> !class.has(#[trigger] chars@[j]),
        decreases chars.len() - i,
    {
        i += 1;
    }
    proof {
        lemma_span_until_unique(chars@, class, i as int);
    }
    i
}

/// The part of `chars` that is left when its leading members of `class` are
/// dropped.
pub fn skip_leading<'a>(chars: &'a [char], class: CharClass) -> (rest: &'a [char])
    ensures
        rest@ == drop_leading(chars@, class),
{
    let mut i: usize = 0;
    assert(chars@.skip(0) == chars@);
    while i < chars.len() && class.contains(chars[i])
        invariant
            i <= chars.len(),
            drop_leading(chars@, class) == drop_leading(chars@.skip(i as int), class),
        decreases chars.len() - i,
    {
        proof {
            let s = chars@.skip(i as int);
            assert(s.drop_first() == chars@.skip(i + 1));
        }
        i += 1;
    }
    slice_subrange(chars, i, chars.len())
}

/// The part of `chars` that is left when its trailing members of `class` are
/// dropped.
pub fn skip_trailing<'a>(chars: &'a [char], class: CharClass) -> (rest: &'a [char])
    ensures
        rest@ == drop_trailing(chars@, class),
{
    let mut n: usize = chars.len();
    assert(chars@.take(n as int) == chars@);
    while n > 0 && class.contains(chars[n - 1])
        invariant
            n <= chars.len(),
            drop_trailing(chars@, class) == drop_trailing(chars@.take(n as int), class),
        decreases n,
    {
        proof {
            let s = chars@.take(n as int);
            assert(s.drop_last() == chars@.take(n - 1));
        }
        n -= 1;
    }
    slice_subrange(chars, 0, n)
}

/// The part of `chars` between its leading and its trailing whitespace.
pub fn trimmed<'a>(chars: &'a [char]) -> (rest: &'a [char])
    ensures
        rest@ == trim(chars@),
{
    skip_trailing(skip_leading(chars, CharClass::Whitespace), CharClass::Whitespace)
}

/// What `drop_leading` leaves is a suffix of `s` that does not begin with a
/// member of the class.
pub proof fn lemma_drop_leading(s: Seq<char>, class: CharClass)
    ensures
        drop_leading(s, class).len() <= s.len(),
        drop_leading(s, class) == s.skip(s.len() - drop_leading(s, class).len()),
        drop_leading(s, class).len() > 0 ==> !class.has(drop_leading(s, class)[0]),
    decreases s.len(),
{
    if s.len() > 0 && class.has(s[0]) {
        let t = s.drop_first();
        lemma_drop_leading(t, class);
        let k = t.len() - drop_leading(t, class).len();
        assert(t.skip(k) == s.skip(k + 1));
    } else {
        assert(s.skip(0) == s);
    }
}

/// The whitespace-separated words of `s`, in order: maximal runs of characters
/// that are not whitespace.
pub open spec fn tokens(s: Seq<char>) -> Seq<Seq<char>>
    decreases s.len(),
{
    let rest = drop_leading(s, CharClass::Whitespace);
    let n = span_until(rest, CharClass::Whitespace);
    if rest.len() == 0 {
        Seq::empty()
    } else {
        proof {
            lemma_drop_leading(s, CharClass::Whitespace);
            lemma_span_until(rest, CharClass::Whitespace);
        }
        seq![rest.take(n)] + tokens(rest.skip(n))
    }
}

/// Splits the first word off `chars`: the word and what follows it, or `None`
/// when `chars` holds only whitespace.
pub fn split_token<'a>(chars: &'a [char]) -> (r: Option<(&'a [char], &'a [char])>)
    ensures
        match r {
            None => tokens(chars@).len() == 0,
            Some((word, rest)) => {
                &&& tokens(chars@) == seq![word@] + tokens(rest@)
                &&& word@.len() > 0
                &&& rest@.len() < chars@.len()
            },
        },
{
    let rest = skip_leading(chars, CharClass::Whitespace);
    if rest.len() == 0 {
        return None;
    }
    let n = leading_span(rest, CharClass::Whitespace);
    proof {
        lemma_drop_leading(chars@, CharClass::Whitespace);
        lemma_span_until(rest@, CharClass::Whitespace);
    }
    Some((slice_subrange(rest, 0, n), slice_subrange(rest, n, rest.len())))
}

/// The ASCII lower-case form of `c`; `c` itself when it is no ASCII capital.
pub open spec fn to_lower(c: char) -> char {
    if 'A' <= c <= 'Z' {
        ((c as u8 + 32) as u8) as char
    } else {
        c
    }
}

/// The ASCII upper-case form of `c`; `c` itself when it is no ASCII small
/// letter.
pub open spec fn to_upper(c: char) -> char {
    if 'a' <= c <= 'z' {
        ((c as u8 - 32) as u8) as char
    } else {
        c
    }
}

/// `s` with every character mapped by `to_lower`.
pub open spec fn lower(s: Seq<char>) -> Seq<char> {
    Seq::new(s.len(), |i: int| to_lower(s[i]))
}

/// `s` with every character mapped by `to_upper`.
pub open spec fn upper(s: Seq<char>) -> Seq<char> {
    Seq::new(s.len(), |i: int| to_upper(s[i]))
}

/// Maps an ASCII capital to its small letter.
pub fn lower_char(c: char) -> (r: char)
    ensures
        r == to_lower(c),
{
    if 'A' <= c && c <= 'Z' {
        ((c as u8) + 32) as char
    } else {
        c
    }
}

/// Maps an ASCII small letter to its capital.
pub fn upper_char(c: char) -> (r: char)
    ensures
        r == to_upper(c),
{
    if 'a' <= c && c <= 'z' {
        ((c as u8) - 32) as char
    } else {
        c
    }
}

/// The ASCII lower-case form of `chars`, as a string.
pub fn lowercase(chars: &[char]) -> (s: String)
    ensures
        s@ == lower(chars@),
{
    let mut s = String::new();
    let mut i: usize = 0;
    while i < chars.len()
        invariant
            i <= chars.len(),
            s@ == lower(chars@).take(i as int),
        decreases chars.len() - i,
    {
        s.push(lower_char(chars[i]));
        i += 1;
    }
    s
}

/// Whether the ASCII upper-case form of `chars` is exactly `name`.
pub fn uppercase_is(chars: &[char], name: &str) -> (b: bool)
    ensures
        b == (upper(chars@) == name@),
{
    let n = name.unicode_len();
    if chars.len() != n {
        return false;
    }
    let mut i: usize = 0;
    while i < n
        invariant
            i <= n,
            n == chars.len(),
            n == name@.len(),
            forall|j: int| 0 <= j < i ==> to_upper(chars@[j]) == name@[j],
        decreases n - i,
    {
        if upper_char(chars[i]) != name.get_char(i) {
            assert(upper(chars@)[i as int] != name@[i as int]);
            return false;
        }
        i += 1;
    }
    assert(upper(chars@) =~= name@);
    true
}

/// Whether `c` is an ASCII decimal digit.
pub open spec fn is_digit(c: char) -> bool {
    '0' <= c <= '9'
}

/// The number that the digit `c` stands for.
pub open spec fn digit_value(c: char) -> nat {
    (c as u32 - 0x30) as nat
}

/// The digit that stands for `d`, for `d` below ten.
pub open spec fn digit_char(d: nat) -> char {
    ((0x30 + d) as u8) as char
}

/// The number that the digits `s` write in base ten; zero for no digits.
pub open spec fn digits_value(s: Seq<char>) -> nat
    decreases s.len(),
{
    if s.len() == 0 {
        0
    } else {
        digits_value(s.drop_last()) * 10 + digit_value(s.last())
    }
}

/// Whether every character of `s` is a decimal digit.
pub open spec fn all_digits(s: Seq<char>) -> bool {
    forall|i: int| 0 <= i < s.len() ==> is_digit(#[trigger] s[i])
}

/// The number that `s` writes in base ten: one or more digits, which a single
/// `+` may precede. `None` for any other text.
pub open spec fn parse_decimal(s: Seq<char>) -> Option<nat> {
    let digits = if s.len() > 0 && s[0] == '+' {
        s.drop_first()
    } else {
        s
    };
    if digits.len() > 0 && all_digits(digits) {
        Some(digits_value(digits))
    } else {
        None
    }
}

/// A prefix of a digit string writes a number no larger than the whole.
pub proof fn lemma_digits_value_prefix(s: Seq<char>, k: int)
    requires
        0 <= k <= s.len(),
    ensures
        digits_value(s.take(k)) <= digits_value(s),
    decreases s.len(),
{
    if k == s.len() {
        assert(s.take(k) == s);
    } else {
        lemma_digits_value_prefix(s.drop_last(), k);
        assert(s.drop_last().take(k) == s.take(k));
    }
}

/// Reads `chars` as a decimal number that fits in `usize`.
pub fn parse_usize(chars: &[char]) -> (r: Option<usize>)
    ensures
        r == match parse_decimal(chars@) {
            Some(n) => if n <= usize::MAX {
                Some(n as usize)
            } else {
                None
            },
            None => None,
        },
{
    let signed = chars.len() > 0 && chars[0] == '+';
    let digits = if signed {
        slice_subrange(chars, 1, chars.len())
    } else {
        chars
    };
    if digits.len() == 0 {
        return None;
    }
    assert(digits@ == if chars@.len() > 0 && chars@[0] == '+' {
        chars@.drop_first()
    } else {
        chars@
    });
    let mut value: usize = 0;
    let mut i: usize = 0;
    while i < digits.len()
        invariant
            i <= digits.len(),
            digits@.len() > 0,
            digits@ == if chars@.len() > 0 && chars@[0] == '+' {
                chars@.drop_first()
            } else {
                chars@
            },
            forall|j: int| 0 <= j < i ==> is_digit(#[trigger] digits@[j]),
            value == digits_value(digits@.take(i as int)),
        decreases digits.len() - i,
    {
        let c = digits[i];
        if !('0' <= c && c <= '9') {
            assert(!is_digit(digits@[i as int]));
            return None;
        }
        let d: usize = (c as u32 - 0x30) as usize;
        proof {
            let t = digits@.take(i + 1);
            assert(t.drop_last() == digits@.take(i as int));
            assert(digits_value(t) == value * 10 + d);
            lemma_digits_value_prefix(digits@, i + 1);
        }
        let next = match value.checked_mul(10) {
            Some(tens) => tens.checked_add(d),
            None => None,
        };
        match next {
            Some(v) => {
                value = v;
            },
            None => {
                return None;
            },
        }
        i += 1;
    }
    assert(digits@.take(i as int) == digits@);
    Some(value)
}

/// The digits that write `n` in base ten, without leading zeros.
pub open spec fn decimal(n: nat) -> Seq<char>
    decreases n,
{
    if n < 10 {
        seq![digit_char(n)]
    } else {
        decimal(n / 10).push(digit_char(n % 10))
    }
}

/// Appends the decimal digits of `n` to `s`.
pub fn push_decimal(s: &mut String, n: u16)
    ensures
        final(s)@ == old(s)@ + decimal(n as nat),
    decreases n,
{
    if n >= 10 {
        push_decimal(s, n / 10);
    }
    let d: u8 = (n % 10) as u8;
    s.push((0x30 + d) as char);
    proof {
        if n >= 10 {
            assert(old(s)@ + decimal(n as nat) == (old(s)@ + decimal((n / 10) as nat)).push(
                digit_char((n % 10) as nat),
            ));
        } else {
            assert(old(s)@ + decimal(n as nat) == old(s)@.push(digit_char(n as nat)));
        }
    }
}

/// What `decimal` writes, `parse_decimal` reads back: the text is one or more
/// digits and stands for `n`.
pub proof fn lemma_decimal_round_trip(n: nat)
    ensures
        decimal(n).len() > 0,
        all_digits(decimal(n)),
        digits_value(decimal(n)) == n,
        parse_decimal(decimal(n)) == Some(n),
    decreases n,
{
    if n < 10 {
        assert(decimal(n).drop_last() == Seq::<char>::empty());
        assert(digits_value(decimal(n).drop_last()) == 0);
    } else {
        lemma_decimal_round_trip(n / 10);
        let d = decimal(n);
        assert(d.drop_last() == decimal(n / 10));
        assert(is_digit(d.last()));
        assert forall|i: int| 0 <= i < d.len() implies is_digit(#[trigger] d[i]) by {
            if i < d.len() - 1 {
                assert(d[i] == decimal(n / 10)[i]);
            }
        }
    }
    assert(decimal(n)[0] != '+');
}

/// What lossy UTF-8 decoding makes of bytes that are not valid UTF-8: the text
/// in which each invalid sequence is replaced by U+FFFD.
pub uninterp spec fn replaced_text(bytes: Seq<u8>) -> Seq<char>;

/// The text that `bytes` stand for under lossy UTF-8 decoding. Valid UTF-8
/// decodes to its characters.
pub open spec fn text_of(bytes: Seq<u8>) -> Seq<char> {
    if valid_utf8(bytes) {
        decode_utf8(bytes)
    } else {
        replaced_text(bytes)
    }
}

/// Decodes `bytes` with `String::from_utf8_lossy`.
///
/// Trusted: valid UTF-8 comes back as the text it encodes; for any other input
/// the result is only given the name `replaced_text`.
#[verifier::external_body]
pub(crate) fn lossy_text(bytes: &[u8]) -> (text: String)
    ensures
        text@ == (if valid_utf8(bytes@) {
            decode_utf8(bytes@)
        } else {
            replaced_text(bytes@)
        }),
{
    String::from_utf8_lossy(bytes).into_owned()
}

/// Whether two strings hold the same text.
pub fn same_text(a: &str, b: &str) -> (r: bool)
    ensures
        r == (a@ == b@),
{
    let x = a.to_owned();
    let y = b.to_owned();
    x == y
}

/// Whether `s` is a word: not empty, and free of whitespace.
pub open spec fn is_word(s: Seq<char>) -> bool {
    &&& s.len() > 0
    &&& forall|j: int| 0 <= j < s.len() ==> !is_whitespace(#[trigger] s[j])
}

/// Every token of a text is a word.
pub proof fn lemma_tokens_are_words(s: Seq<char>)
    ensures
        forall|i: int| 0 <= i < tokens(s).len() ==> is_word(#[trigger] tokens(s)[i]),
    decreases s.len(),
{
    let rest = drop_leading(s, CharClass::Whitespace);
    let n = span_until(rest, CharClass::Whitespace);
    if rest.len() > 0 {
        lemma_drop_leading(s, CharClass::Whitespace);
        lemma_span_until(rest, CharClass::Whitespace);
        lemma_tokens_are_words(rest.skip(n));
        let first = rest.take(n);
        assert(is_word(first)) by {
            assert forall|j: int| 0 <= j < first.len() implies !is_whitespace(
                #[trigger] first[j],
            ) by {
                assert(!CharClass::Whitespace.has(rest[j]));
            }
        }
        assert forall|i: int| 0 <= i < tokens(s).len() implies is_word(#[trigger] tokens(s)[i]) by {
            if i > 0 {
                assert(tokens(s)[i] == tokens(rest.skip(n))[i - 1]);
            }
        }
    }
}

/// A text in lower case stays as it is when put in lower case again, and the
/// case of a text does not matter to its upper-case form.
pub proof fn lemma_case_mapping(s: Seq<char>)
    ensures
        lower(lower(s)) == lower(s),
        upper(upper(s)) == upper(s),
        upper(lower(s)) == upper(s),
        lower(upper(s)) == lower(s),
{
    assert(lower(lower(s)) =~= lower(s));
    assert(upper(upper(s)) =~= upper(s));
    assert(upper(lower(s)) =~= upper(s));
    assert(lower(upper(s)) =~= lower(s));
}

/// Decodes `bytes` with `String::from_utf8`.
///
/// Trusted: the call succeeds exactly on valid UTF-8, and then yields the text
/// that the bytes encode.
#[verifier::external_body]
pub(crate) fn strict_text(bytes: &[u8]) -> (text: Option<String>)
    ensures
        match text {
            Some(t) => valid_utf8(bytes@) && t@ == decode_utf8(bytes@),
            None => !valid_utf8(bytes@),
        },
{
    String::from_utf8(bytes.to_vec()).ok()
}

/// The text that the standard library's `Debug` formatting makes of a string:
/// the string between double quotes, with its special characters escaped.
pub uninterp spec fn debug_text(s: Seq<char>) -> Seq<char>;

/// Formats `s` with the `Debug` formatting of `str`, as `{:?}` does.
///
/// Trusted: the result depends on the characters of `s` alone; it is given
/// the name `debug_text` and nothing else is claimed of it.
#[verifier::external_body]
pub(crate) fn quoted(s: &str) -> (text: String)
    ensures
        text@ == debug_text(s@),
{
    format!("{:?}", s)
}

/// What `drop_trailing` leaves is a prefix of `s` that does not end in a
/// member of the class.
pub proof fn lemma_drop_trailing(s: Seq<char>, class: CharClass)
    ensures
        drop_trailing(s, class).len() <= s.len(),
        drop_trailing(s, class) == s.take(drop_trailing(s, class).len() as int),
        drop_trailing(s, class).len() > 0 ==> !class.has(drop_trailing(s, class).last()),
    decreases s.len(),
{
    if s.len() > 0 && class.has(s.last()) {
        let t = s.drop_last();
        lemma_drop_trailing(t, class);
        let k = drop_trailing(t, class).len() as int;
        assert(t.take(k) == s.take(k));
    } else {
        assert(s.take(s.len() as int) == s);
    }
}

/// Whether `s` neither begins nor ends with whitespace.
pub open spec fn is_trimmed(s: Seq<char>) -> bool {
    s.len() > 0 ==> !is_whitespace(s[0]) && !is_whitespace(s.last())
}

/// Whether `part` is a run of consecutive characters of `whole`.
pub open spec fn is_piece_of(part: Seq<char>, whole: Seq<char>) -> bool {
    exists|from: int, to: int|
        0 <= from <= to <= whole.len() && part == #[trigger] whole.subrange(from, to)
}

/// A piece of a piece of a text is a piece of that text.
pub proof fn lemma_piece_of_piece(part: Seq<char>, middle: Seq<char>, whole: Seq<char>)
    requires
        is_piece_of(part, middle),
        is_piece_of(middle, whole),
    ensures
        is_piece_of(part, whole),
{
    let (a, b) = choose|a: int, b: int|
        0 <= a <= b <= middle.len() && part == #[trigger] middle.subrange(a, b);
    let (c, d) = choose|c: int, d: int|
        0 <= c <= d <= whole.len() && middle == #[trigger] whole.subrange(c, d);
    assert(part == whole.subrange(c + a, c + b));
}

/// A trimmed text is a piece of the text it was trimmed from, and neither
/// begins nor ends with whitespace.
pub proof fn lemma_trim(s: Seq<char>)
    ensures
        is_trimmed(trim(s)),
        is_piece_of(trim(s), s),
{
    let front = drop_leading(s, CharClass::Whitespace);
    lemma_drop_leading(s, CharClass::Whitespace);
    lemma_drop_trailing(front, CharClass::Whitespace);
    let t = trim(s);
    let skipped = s.len() - front.len();
    assert(t == s.subrange(skipped, skipped + t.len())) by {
        assert(front.take(t.len() as int) == s.subrange(skipped, skipped + t.len()));
    }
    if t.len() > 0 {
        assert(t[0] == front[0]);
    }
}

/// Putting a text in lower case changes neither its length nor where its
/// whitespace stands, so a trimmed text stays trimmed.
pub proof fn lemma_lower_keeps_trimmed(s: Seq<char>)
    requires
        is_trimmed(s),
    ensures
        is_trimmed(lower(s)),
        lower(s).len() == s.len(),
{
    if s.len() > 0 {
        assert(lower(s)[0] == to_lower(s[0]));
        assert(lower(s).last() == to_lower(s.last()));
    }
}

} // verus!
