//! Text helpers: comparing, trimming, splitting and reading numbers out of text.
use vstd::prelude::*;
use vstd::string::*;
use vstd::utf8::*;

verus! {

/// True of the characters with the Unicode `White_Space` property.
pub open spec fn is_space(c: char) -> bool {
    ||| 0x09 <= c as u32 <= 0x0d
    ||| c as u32 == 0x20
    ||| c as u32 == 0x85
    ||| c as u32 == 0xa0
    ||| c as u32 == 0x1680
    ||| 0x2000 <= c as u32 <= 0x200a
    ||| c as u32 == 0x2028
    ||| c as u32 == 0x2029
    ||| c as u32 == 0x202f
    ||| c as u32 == 0x205f
    ||| c as u32 == 0x3000
}

/// `text` without the white space it begins with.
pub open spec fn trim_start(text: Seq<char>) -> Seq<char>
    decreases text.len(),
{
    if text.len() > 0 && is_space(text[0]) {
        trim_start(text.drop_first())
    } else {
        text
    }
}

/// `text` without the white space it ends with.
pub open spec fn trim_end(text: Seq<char>) -> Seq<char>
    decreases text.len(),
{
    if text.len() > 0 && is_space(text.last()) {
        trim_end(text.drop_last())
    } else {
        text
    }
}

/// `text` without the white space at either end.
pub open spec fn trimmed(text: Seq<char>) -> Seq<char> {
    trim_end(trim_start(text))
}

/// The character for a decimal digit.
pub open spec fn digit_char(d: int) -> char {
    (48 + d) as char
}

/// `n` in decimal notation.
pub open spec fn decimal(n: nat) -> Seq<char>
    decreases n,
{
    if n < 10 {
        seq![digit_char(n as int)]
    } else {
        decimal(n / 10).push(digit_char((n % 10) as int))
    }
}

/// True of the ten decimal digits.
pub open spec fn is_digit(c: char) -> bool {
    48 <= c as u32 <= 57
}

/// The number that a run of decimal digits stands for.
pub open spec fn digits_value(text: Seq<char>) -> nat
    decreases text.len(),
{
    if text.len() == 0 {
        0
    } else {
        (digits_value(text.drop_last()) * 10 + (text.last() as u32 - 48)) as nat
    }
}

/// `text` without one leading plus sign.
pub open spec fn unsigned_digits(text: Seq<char>) -> Seq<char> {
    if text.len() > 0 && text[0] == '+' {
        text.drop_first()
    } else {
        text
    }
}

/// True of the texts that denote an unsigned 32-bit number: an optional plus sign and at least
/// one decimal digit, with a value that fits.
pub open spec fn denotes_u32(text: Seq<char>) -> bool {
    let digits = unsigned_digits(text);
    &&& digits.len() > 0
    &&& forall|i: int| 0 <= i < digits.len() ==> is_digit(#[trigger] digits[i])
    &&& digits_value(digits) <= u32::MAX
}

/// Why a text does not denote an unsigned 32-bit number.
#[derive(Clone, Copy, Debug, PartialEq, Eq, Structural)]
pub enum NumberFault {
    /// There is nothing.
    Empty,
    /// A character is no decimal digit, or there is only a sign.
    InvalidDigit,
    /// The value does not fit.
    TooLarge,
}

/// True where the digits that a text begins with stand for too large a number.
pub open spec fn outgrows_u32(digits: Seq<char>) -> bool {
    exists|n: int|
        0 < n <= digits.len() && (forall|i: int| 0 <= i < n ==> is_digit(#[trigger] digits[i]))
            && digits_value(#[trigger] digits.take(n)) > u32::MAX
}

/// Why a text that does not denote an unsigned 32-bit number does not: the first fault from the
/// left.
pub open spec fn number_fault(text: Seq<char>) -> NumberFault {
    if text.len() == 0 {
        NumberFault::Empty
    } else if outgrows_u32(unsigned_digits(text)) {
        NumberFault::TooLarge
    } else {
        NumberFault::InvalidDigit
    }
}

impl NumberFault {
    /// What the fault is called.
    pub open spec fn spec_message(self) -> Seq<char> {
        match self {
            NumberFault::Empty => "cannot parse integer from empty string"@,
            NumberFault::InvalidDigit => "invalid digit found in string"@,
            NumberFault::TooLarge => "number too large to fit in target type"@,
        }
    }

    /// What the fault is called.
    pub fn message(self) -> (text: &'static str)
        ensures
            text@ == self.spec_message(),
    {
        match self {
            NumberFault::Empty => "cannot parse integer from empty string",
            NumberFault::InvalidDigit => "invalid digit found in string",
            NumberFault::TooLarge => "number too large to fit in target type",
        }
    }
}

/// The pieces of `text` between the occurrences of `sep`, in order; there is one more piece than
/// there are occurrences.
pub open spec fn split(text: Seq<char>, sep: char) -> Seq<Seq<char>>
    decreases text.len(),
{
    if text.len() == 0 {
        seq![Seq::empty()]
    } else {
        let before = split(text.drop_last(), sep);
        if text.last() == sep {
            before.push(Seq::empty())
        } else {
            before.drop_last().push(before.last().push(text.last()))
        }
    }
}

/// Whether two texts hold the same characters.
pub fn same_text(a: &str, b: &str) -> (same: bool)
    ensures
        same == (a@ == b@),
{
    let left = a.as_bytes();
    let right = b.as_bytes();
    proof {
        encode_utf8_decode_utf8(a@);
        encode_utf8_decode_utf8(b@);
    }
    if left.len() != right.len() {
        return false;
    }
    let mut i: usize = 0;
    while i < left.len()
        invariant
            i <= left.len(),
            left.len() == right.len(),
            left@ == encode_utf8(a@),
            right@ == encode_utf8(b@),
            forall|j: int| 0 <= j < i ==> left@[j] == right@[j],
        decreases left.len() - i,
    {
        if left[i] != right[i] {
            return false;
        }
        i = i + 1;
    }
    assert(left@ =~= right@);
    true
}

/// True where `part` stands in `text` from place `i` on.
pub open spec fn occurs_at(text: Seq<char>, part: Seq<char>, i: int) -> bool {
    0 <= i <= text.len() - part.len() && text.subrange(i, i + part.len()) == part
}

/// True where `part` stands somewhere in `text`.
pub open spec fn occurs(text: Seq<char>, part: Seq<char>) -> bool {
    exists|i: int| #[trigger] occurs_at(text, part, i)
}

/// Whether a text contains another.
pub fn contains_text(text: &str, part: &str) -> (found: bool)
    ensures
        found == occurs(text@, part@),
{
    let whole = chars_of(text);
    let wanted = chars_of(part);
    if wanted.len() == 0 {
        assert(text@.subrange(0, 0) =~= part@);
        assert(occurs_at(text@, part@, 0));
        return true;
    }
    if wanted.len() > whole.len() {
        return false;
    }
    let places: usize = whole.len() - wanted.len() + 1;
    let mut i: usize = 0;
    while i < places
        invariant
            whole@ == text@,
            wanted@ == part@,
            0 < wanted@.len(),
            places == whole@.len() - wanted@.len() + 1,
            i <= places,
            forall|j: int| 0 <= j < i ==> !occurs_at(text@, part@, j),
        decreases places - i,
    {
        let mut k: usize = 0;
        while k < wanted.len() && whole[i + k] == wanted[k]
            invariant
                places == whole@.len() - wanted@.len() + 1,
                whole.len() == whole@.len(),
                i < places,
                k <= wanted@.len(),
                forall|j: int| 0 <= j < k ==> whole@[i + j] == wanted@[j],
            decreases wanted@.len() - k,
        {
            k = k + 1;
        }
        if k == wanted.len() {
            assert(text@.subrange(i as int, i + part@.len()) =~= part@);
            assert(occurs_at(text@, part@, i as int));
            return true;
        }
        proof {
            if occurs_at(text@, part@, i as int) {
                assert(text@.subrange(i as int, i + part@.len())[k as int] == text@[i + k]);
            }
        }
        i = i + 1;
    }
    false
}

/// The characters of a text.
pub fn chars_of(text: &str) -> (chars: Vec<char>)
    ensures
        chars@ == text@,
{
    let mut chars: Vec<char> = Vec::new();
    for c in it: text.chars()
        invariant
            chars@ == it.seq().take(it.index()),
            it.seq() == text@,
    {
        chars.push(c);
    }
    chars
}

/// Whether a character is white space.
fn is_space_char(c: char) -> (space: bool)
    ensures
        space == is_space(c),
{
    let code: u32 = c as u32;
    (0x09 <= code && code <= 0x0d) || code == 0x20 || code == 0x85 || code == 0xa0 || code == 0x1680
        || (0x2000 <= code && code <= 0x200a) || code == 0x2028 || code == 0x2029 || code == 0x202f
        || code == 0x205f || code == 0x3000
}

proof fn lemma_trim_start(text: Seq<char>, i: int)
    requires
        0 <= i <= text.len(),
        forall|j: int| 0 <= j < i ==> is_space(text[j]),
        i < text.len() ==> !is_space(text[i]),
    ensures
        trim_start(text) == text.skip(i),
    decreases i,
{
    if i > 0 {
        lemma_trim_start(text.drop_first(), i - 1);
        assert(text.drop_first().skip(i - 1) =~= text.skip(i));
    } else {
        assert(text.skip(0) =~= text);
    }
}

proof fn lemma_trim_end(text: Seq<char>, end: int)
    requires
        0 <= end <= text.len(),
        forall|j: int| end <= j < text.len() ==> is_space(text[j]),
        end > 0 ==> !is_space(text[end - 1]),
    ensures
        trim_end(text) == text.take(end),
    decreases text.len() - end,
{
    if end < text.len() {
        lemma_trim_end(text.drop_last(), end);
        assert(text.drop_last().take(end) =~= text.take(end));
    } else {
        assert(text.take(end) =~= text);
    }
}

/// The text without the white space at either end.
pub fn trim_text(text: &str) -> (out: String)
    ensures
        out@ == trimmed(text@),
{
    let chars = chars_of(text);
    let mut start: usize = 0;
    while start < chars.len() && is_space_char(chars[start])
        invariant
            start <= chars.len(),
            forall|j: int| 0 <= j < start ==> is_space(chars@[j]),
        decreases chars.len() - start,
    {
        start = start + 1;
    }
    let mut end: usize = chars.len();
    while end > start && is_space_char(chars[end - 1])
        invariant
            start <= end <= chars.len(),
            forall|j: int| end <= j < chars.len() ==> is_space(chars@[j]),
        decreases end,
    {
        end = end - 1;
    }
    proof {
        lemma_trim_start(text@, start as int);
        let rest = text@.skip(start as int);
        assert forall|j: int| end - start <= j < rest.len() implies is_space(rest[j]) by {
            assert(rest[j] == chars@[j + start]);
        }
        lemma_trim_end(rest, end - start);
        assert(rest.take(end - start) =~= text@.subrange(start as int, end as int));
    }
    text.substring_char(start, end).to_string()
}

/// The text for one decimal digit.
fn digit_text(d: u64) -> (out: &'static str)
    requires
        d < 10,
    ensures
        out@ == seq![digit_char(d as int)],
{
    proof {
        reveal_strlit("0");
        reveal_strlit("1");
        reveal_strlit("2");
        reveal_strlit("3");
        reveal_strlit("4");
        reveal_strlit("5");
        reveal_strlit("6");
        reveal_strlit("7");
        reveal_strlit("8");
        reveal_strlit("9");
    }
    if d == 0 {
        "0"
    } else if d == 1 {
        "1"
    } else if d == 2 {
        "2"
    } else if d == 3 {
        "3"
    } else if d == 4 {
        "4"
    } else if d == 5 {
        "5"
    } else if d == 6 {
        "6"
    } else if d == 7 {
        "7"
    } else if d == 8 {
        "8"
    } else {
        "9"
    }
}

/// Writes a number in decimal behind a text.
pub fn push_decimal(out: &mut String, n: u64)
    ensures
        final(out)@ == old(out)@ + decimal(n as nat),
    decreases n,
{
    if n >= 10 {
        push_decimal(out, n / 10);
    }
    out.append(digit_text(n % 10));
    assert(out@ =~= old(out)@ + decimal(n as nat));
}

/// The pieces of a text between the occurrences of a separator.
pub fn split_text(text: &str, sep: char) -> (pieces: Vec<String>)
    ensures
        pieces.len() == split(text@, sep).len(),
        forall|i: int| 0 <= i < pieces.len() ==> (#[trigger] pieces@[i])@ == split(text@, sep)[i],
{
    let chars = chars_of(text);
    let mut pieces: Vec<String> = Vec::new();
    let mut start: usize = 0;
    let mut i: usize = 0;
    assert(chars@.take(0) =~= Seq::<char>::empty());
    assert(chars@.subrange(0, 0) =~= Seq::<char>::empty());
    while i < chars.len()
        invariant
            start <= i <= chars.len(),
            chars@ == text@,
            ({
                let whole = split(chars@.take(i as int), sep);
                &&& whole.len() == pieces.len() + 1
                &&& whole.last() == chars@.subrange(start as int, i as int)
                &&& forall|j: int| 0 <= j < pieces.len() ==> (#[trigger] pieces@[j])@ == whole[j]
            }),
        decreases chars.len() - i,
    {
        proof {
            assert(chars@.take(i + 1).drop_last() =~= chars@.take(i as int));
            assert(chars@.subrange(start as int, i as int).push(chars@[i as int])
                =~= chars@.subrange(start as int, i + 1));
            assert(chars@.subrange(i + 1, i + 1) =~= Seq::<char>::empty());
        }
        if chars[i] == sep {
            pieces.push(text.substring_char(start, i).to_string());
            start = i + 1;
        }
        i = i + 1;
    }
    assert(chars@.take(i as int) =~= text@);
    pieces.push(text.substring_char(start, i).to_string());
    pieces
}

proof fn lemma_digits_value_grows(text: Seq<char>, i: int)
    requires
        0 <= i <= text.len(),
        forall|j: int| 0 <= j < text.len() ==> is_digit(#[trigger] text[j]),
    ensures
        digits_value(text.take(i)) <= digits_value(text),
    decreases text.len() - i,
{
    if i < text.len() {
        let less = text.drop_last();
        assert(less.take(i) =~= text.take(i));
        assert forall|j: int| 0 <= j < less.len() implies is_digit(#[trigger] less[j]) by {
            assert(less[j] == text[j]);
        }
        lemma_digits_value_grows(less, i);
        assert(is_digit(text[text.len() - 1]));
    } else {
        assert(text.take(i) =~= text);
    }
}

/// The unsigned 32-bit number that a text denotes, or why it denotes none.
pub fn parse_u32(text: &str) -> (value: Result<u32, NumberFault>)
    ensures
        value is Ok <==> denotes_u32(text@),
        value is Ok ==> value->Ok_0 == digits_value(unsigned_digits(text@)),
        value is Err ==> value->Err_0 == number_fault(text@),
{
    let chars = chars_of(text);
    let ghost digits = unsigned_digits(text@);
    let start: usize = if chars.len() > 0 && chars[0] == '+' {
        1
    } else {
        0
    };
    if chars.len() == 0 {
        return Err(NumberFault::Empty);
    }
    assert(digits =~= chars@.skip(start as int));
    if start == chars.len() {
        return Err(NumberFault::InvalidDigit);
    }
    let mut value: u32 = 0;
    let mut i: usize = start;
    assert(digits == chars@.skip(start as int));
    while i < chars.len()
        invariant
            start <= i <= chars.len(),
            start <= 1,
            text@.len() > 0,
            digits == chars@.skip(start as int),
            digits == unsigned_digits(text@),
            value == digits_value(digits.take(i - start)),
            forall|j: int| 0 <= j < i - start ==> is_digit(#[trigger] digits[j]),
        decreases chars.len() - i,
    {
        let code: u32 = chars[i] as u32;
        assert(digits[i - start] == chars@[i as int]);
        assert(digits.take(i + 1 - start).drop_last() =~= digits.take(i - start));
        if code < 48 || code > 57 {
            assert(!is_digit(digits[i - start]));
            proof {
                let right = digits.take(i - start);
                if outgrows_u32(digits) {
                    let n = choose|n: int|
                        0 < n <= digits.len() && (forall|j: int|
                            0 <= j < n ==> is_digit(#[trigger] digits[j])) && digits_value(
                            #[trigger] digits.take(n),
                        ) > u32::MAX;
                    assert(n <= i - start);
                    assert(right.take(n) =~= digits.take(n));
                    assert forall|j: int| 0 <= j < right.len() implies is_digit(
                        #[trigger] right[j],
                    ) by {
                        assert(right[j] == digits[j]);
                    }
                    lemma_digits_value_grows(right, n);
                }
            }
            return Err(NumberFault::InvalidDigit);
        }
        if value > (u32::MAX - (code - 48)) / 10 {
            proof {
                assert(digits_value(digits.take(i + 1 - start)) > u32::MAX);
                if denotes_u32(text@) {
                    lemma_digits_value_grows(digits, i + 1 - start);
                }
                assert(is_digit(digits[i - start]));
                assert(outgrows_u32(digits));
            }
            return Err(NumberFault::TooLarge);
        }
        value = value * 10 + (code - 48);
        i = i + 1;
    }
    assert(digits.take(i - start) =~= digits);
    Ok(value)
}

/// A text followed by another.
pub fn with_text(first: &str, second: &str) -> (out: String)
    ensures
        out@ == first@ + second@,
{
    first.to_string().concat(second)
}

/// A text followed by a number in decimal.
pub fn with_number(first: &str, n: u64) -> (out: String)
    ensures
        out@ == first@ + decimal(n as nat),
{
    let mut out = first.to_string();
    push_decimal(&mut out, n);
    out
}

/// What the `Debug` form of a text is: the text in double quotes, with escapes.
pub uninterp spec fn quoted(text: Seq<char>) -> Seq<char>;

/// Formats a text with `{:?}` of `std::fmt`. Which characters are escaped, and how, follows the
/// Unicode tables of `std`; the result is a function of the text alone.
#[verifier::external_body]
pub(crate) fn quoted_text(text: &str) -> (out: String)
    ensures
        out@ == quoted(text@),
{
    format!("{:?}", text)
}

/// Reads bytes as UTF-8 text with `std::str::from_utf8`: there is a text exactly when the bytes
/// are well-formed UTF-8, and its characters are the ones that the bytes encode.
#[verifier::external_body]
fn str_from_utf8(bytes: &[u8]) -> (text: Option<&str>)
    ensures
        text is Some <==> valid_utf8(bytes@),
        text is Some ==> text->0@ == decode_utf8(bytes@),
{
    std::str::from_utf8(bytes).ok()
}

/// The text that bytes encode in UTF-8, if they are well-formed.
pub fn decode_text(bytes: &[u8]) -> (text: Option<String>)
    ensures
        text is Some <==> valid_utf8(bytes@),
        text is Some ==> text->0@ == decode_utf8(bytes@),
{
    match str_from_utf8(bytes) {
        Some(text) => Some(text.to_string()),
        None => None,
    }
}

} // verus!
