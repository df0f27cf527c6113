//! Text: UTF-8 decoding, white space, decimal numbers.

use crate::path::same_bytes;
use vstd::prelude::*;
use vstd::utf8::*;

verus! {

/// The text that `String::from_utf8_lossy` makes of these bytes: each invalid UTF-8 sequence is
/// replaced by the replacement character U+FFFD.
pub uninterp spec fn utf8_lossy(bytes: Seq<u8>) -> Seq<char>;

/// `String::push` of the standard library appends one character to the text.
pub assume_specification[ String::push ](s: &mut String, c: char)
    ensures
        final(s)@ == old(s)@.push(c),
;

/// `str::from_utf8` of the standard library reads the bytes as text if they are valid UTF-8, and
/// fails if they are not.
#[verifier::external_body]
pub(crate) fn decode(bytes: &[u8]) -> (text: Option<&str>)
    ensures
        text is Some <==> valid_utf8(bytes@),
        text matches Some(t) ==> t@ == decode_utf8(bytes@),
{
    std::str::from_utf8(bytes).ok()
}

/// `String::from_utf8_lossy` of the standard library reads valid UTF-8 as it stands. In other
/// bytes it replaces the invalid sequences by U+FFFD: the text is a function of the bytes, and no
/// ASCII character is in it that is not among the bytes.
#[verifier::external_body]
pub(crate) fn decode_lossy(bytes: &[u8]) -> (text: String)
    ensures
        text@ == utf8_lossy(bytes@),
        valid_utf8(bytes@) ==> text@ == decode_utf8(bytes@),
        forall|i: int|
            0 <= i < text@.len() && (#[trigger] text@[i]) as u32 <= 0x7f ==> bytes@.contains(
                text@[i] as u8,
            ),
{
    String::from_utf8_lossy(bytes).into_owned()
}

/// An ASCII byte of encoded text is an ASCII character of the text.
pub proof fn lemma_encode_ascii(t: Seq<char>, b: u8)
    requires
        b <= 0x7f,
        encode_utf8(t).contains(b),
    ensures
        t.contains(b as char),
    decreases t.len(),
{
    if t.len() > 0 {
        let c = t[0] as u32;
        let first = encode_scalar(c);
        let others = encode_utf8(t.drop_first());
        let k = choose|k: int| 0 <= k < encode_utf8(t).len() && encode_utf8(t)[k] == b;
        if k < first.len() {
            assert(first[k] == b);
            char_is_scalar(t[0]);
            if has_width_1_encoding(c) {
                assert((c & 0x7f) as u8 == c) by (bit_vector)
                    requires
                        c <= 0x7f,
                ;
                assert(first[0] == c as u8);
                char_u32_cast(t[0], c);
                assert(b as u32 == c);
                assert(t[0] == b as char);
            } else {
                assert(0xC0 | ((c >> 6) & 0x1F) as u8 >= 0x80) by (bit_vector);
                assert(0xE0 | ((c >> 12) & 0x0F) as u8 >= 0x80) by (bit_vector);
                assert(0xF0 | ((c >> 18) & 0x7) as u8 >= 0x80) by (bit_vector);
                assert(0x80 | (c & 0x3F) as u8 >= 0x80) by (bit_vector);
                assert(0x80 | ((c >> 6) & 0x3F) as u8 >= 0x80) by (bit_vector);
                assert(0x80 | ((c >> 12) & 0x3F) as u8 >= 0x80) by (bit_vector);
            }
        } else {
            assert(others[k - first.len()] == b);
            lemma_encode_ascii(t.drop_first(), b);
            let i = choose|i: int|
                0 <= i < t.drop_first().len() && t.drop_first()[i] == b as char;
            assert(t[i + 1] == b as char);
        }
    }
}

/// Are these the same text?
pub fn same_text(a: &str, b: &str) -> (same: bool)
    ensures
        same == (a@ == b@),
{
    proof {
        encode_utf8_decode_utf8(a@);
        encode_utf8_decode_utf8(b@);
    }
    same_bytes(a.as_bytes(), b.as_bytes())
}

/// Is this a character with the Unicode property White_Space?
pub open spec fn is_space(c: char) -> bool {
    ||| '\u{9}' <= c <= '\u{d}'
    ||| c == ' '
    ||| c == '\u{85}'
    ||| c == '\u{a0}'
    ||| c == '\u{1680}'
    ||| '\u{2000}' <= c <= '\u{200a}'
    ||| c == '\u{2028}'
    ||| c == '\u{2029}'
    ||| c == '\u{202f}'
    ||| c == '\u{205f}'
    ||| c == '\u{3000}'
}

fn space(c: char) -> (yes: bool)
    ensures
        yes == is_space(c),
{
    ('\u{9}' <= c && c <= '\u{d}') || c == ' ' || c == '\u{85}' || c == '\u{a0}' || c == '\u{1680}'
        || ('\u{2000}' <= c && c <= '\u{200a}') || c == '\u{2028}' || c == '\u{2029}' || c
        == '\u{202f}' || c == '\u{205f}' || c == '\u{3000}'
}

/// The text without white space in front.
pub open spec fn trim_start(t: Seq<char>) -> Seq<char>
    decreases t.len(),
{
    if t.len() > 0 && is_space(t[0]) {
        trim_start(t.skip(1))
    } else {
        t
    }
}

/// The text without white space behind.
pub open spec fn trim_end(t: Seq<char>) -> Seq<char>
    decreases t.len(),
{
    if t.len() > 0 && is_space(t.last()) {
        trim_end(t.drop_last())
    } else {
        t
    }
}

/// The text without white space at either end.
pub open spec fn trim(t: Seq<char>) -> Seq<char> {
    trim_end(trim_start(t))
}

/// How many white space characters a text begins with.
pub open spec fn leading(t: Seq<char>) -> int
    decreases t.len(),
{
    if t.len() > 0 && is_space(t[0]) {
        1 + leading(t.skip(1))
    } else {
        0
    }
}

proof fn lemma_trim_start(t: Seq<char>)
    ensures
        0 <= leading(t) <= t.len(),
        trim_start(t) == t.skip(leading(t)),
        forall|k: int| 0 <= k < leading(t) ==> is_space(t[k]),
        leading(t) < t.len() ==> !is_space(t[leading(t)]),
    decreases t.len(),
{
    if t.len() > 0 && is_space(t[0]) {
        let u = t.skip(1);
        lemma_trim_start(u);
        assert(u.skip(leading(u)) =~= t.skip(leading(t)));
        assert forall|k: int| 0 <= k < leading(t) implies is_space(t[k]) by {
            if k > 0 {
                assert(t[k] == u[k - 1]);
            }
        }
    } else {
        assert(t.skip(0) =~= t);
    }
}

proof fn lemma_trim_end(t: Seq<char>)
    ensures
        trim_end(t).len() <= t.len(),
        trim_end(t) == t.take(trim_end(t).len() as int),
        forall|k: int| trim_end(t).len() <= k < t.len() ==> is_space(t[k]),
        trim_end(t).len() > 0 ==> !is_space(trim_end(t).last()),
    decreases t.len(),
{
    if t.len() > 0 && is_space(t.last()) {
        let u = t.drop_last();
        lemma_trim_end(u);
        assert(u.take(trim_end(u).len() as int) =~= t.take(trim_end(u).len() as int));
        assert forall|k: int| trim_end(t).len() <= k < t.len() implies is_space(t[k]) by {
            if k < u.len() {
                assert(t[k] == u[k]);
            }
        }
    } else {
        assert(t.take(t.len() as int) =~= t);
    }
}

/// Trimming takes away white space at either end and nothing else, and leaves none there.
pub proof fn law_trimming_takes_space_only(t: Seq<char>)
    ensures
        ({
            let (a, z) = (leading(t), leading(t) + trim(t).len());
            &&& 0 <= a <= z <= t.len()
            &&& trim(t) == t.subrange(a, z)
            &&& forall|k: int| 0 <= k < a ==> is_space(t[k])
            &&& forall|k: int| z <= k < t.len() ==> is_space(t[k])
            &&& trim(t).len() > 0 ==> !is_space(trim(t)[0]) && !is_space(trim(t).last())
        }),
{
    lemma_trim_start(t);
    let u = trim_start(t);
    lemma_trim_end(u);
    let a = leading(t);
    let z = a + trim(t).len();
    assert(u.take(trim(t).len() as int) =~= t.subrange(a, z));
    assert forall|k: int| z <= k < t.len() implies is_space(t[k]) by {
        assert(t[k] == u[k - a]);
    }
    if trim(t).len() > 0 {
        assert(trim(t)[0] == t[a]);
    }
}

/// The characters of a text.
pub fn characters(text: &str) -> (chars: Vec<char>)
    ensures
        chars@ == text@,
{
    let mut chars: Vec<char> = Vec::new();
    for c in it: text.chars()
        invariant
            chars@ == it.seq().take(it.index() as int),
            it.seq() == text@,
    {
        chars.push(c);
        assert(it.seq().take(it.index() + 1) =~= it.seq().take(it.index() as int).push(c));
    }
    assert(chars@ =~= text@);
    chars
}

/// The text that is made of these characters.
pub fn assemble(chars: &[char]) -> (text: String)
    ensures
        text@ == chars@,
{
    let mut text = String::new();
    let mut i: usize = 0;
    while i < chars.len()
        invariant
            i <= chars.len(),
            text@ == chars@.take(i as int),
        decreases chars.len() - i,
    {
        text.push(chars[i]);
        i += 1;
        assert(text@ =~= chars@.take(i as int));
    }
    assert(text@ =~= chars@);
    text
}

/// Where the range `start..end` of the characters begins and ends without the white space at
/// either end.
pub fn trim_range(chars: &[char], start: usize, end: usize) -> (range: (usize, usize))
    requires
        start <= end <= chars@.len(),
    ensures
        start <= range.0 <= range.1 <= end,
        chars@.subrange(range.0 as int, range.1 as int) == trim(
            chars@.subrange(start as int, end as int),
        ),
{
    let ghost whole = chars@.subrange(start as int, end as int);
    let mut a = start;
    while a < end && space(chars[a])
        invariant
            start <= a <= end <= chars@.len(),
            trim_start(whole) == trim_start(chars@.subrange(a as int, end as int)),
        decreases end - a,
    {
        assert(chars@.subrange(a as int, end as int).skip(1) =~= chars@.subrange(
            a + 1,
            end as int,
        ));
        a += 1;
    }
    assert(trim_start(whole) == chars@.subrange(a as int, end as int));
    let mut z = end;
    while z > a && space(chars[z - 1])
        invariant
            start <= a <= z <= end <= chars@.len(),
            trim(whole) == trim_end(chars@.subrange(a as int, z as int)),
        decreases z,
    {
        assert(chars@.subrange(a as int, z as int).drop_last() =~= chars@.subrange(
            a as int,
            z - 1,
        ));
        z -= 1;
    }
    (a, z)
}

// ---------------------------------------------------------------------------------------------
// Decimal numbers.
// ---------------------------------------------------------------------------------------------

/// The character for a digit.
pub open spec fn digit(d: int) -> char {
    (48 + d) as char
}

/// A number in decimal digits, without leading zeros.
pub open spec fn decimal(n: nat) -> Seq<char>
    decreases n,
{
    if n < 10 {
        seq![digit(n as int)]
    } else {
        decimal(n / 10).push(digit((n % 10) as int))
    }
}

pub open spec fn is_digit(c: char) -> bool {
    '0' <= c <= '9'
}

pub open spec fn all_digits(t: Seq<char>) -> bool {
    forall|i: int| 0 <= i < t.len() ==> is_digit(#[trigger] t[i])
}

/// The number that a sequence of digits denotes.
pub open spec fn value(t: Seq<char>) -> nat
    decreases t.len(),
{
    if t.len() == 0 {
        0
    } else {
        10 * value(t.drop_last()) + (t.last() as int - 48) as nat
    }
}

/// The number that a text denotes: decimal digits, at least one, with an optional `+` in front.
pub open spec fn number(t: Seq<char>) -> Option<nat> {
    let d = if t.len() > 0 && t[0] == '+' {
        t.skip(1)
    } else {
        t
    };
    if d.len() > 0 && all_digits(d) {
        Some(value(d))
    } else {
        None
    }
}

proof fn lemma_value_grows(t: Seq<char>, n: int)
    requires
        0 <= n <= t.len(),
        all_digits(t),
    ensures
        value(t.take(n)) <= value(t),
    decreases t.len() - n,
{
    if n < t.len() {
        assert(t.take(n + 1).drop_last() =~= t.take(n));
        lemma_value_grows(t, n + 1);
    } else {
        assert(t.take(n) =~= t);
    }
}

pub proof fn lemma_decimal_digits(n: nat)
    ensures
        decimal(n).len() > 0,
        all_digits(decimal(n)),
        value(decimal(n)) == n,
    decreases n,
{
    let t = decimal(n);
    if n < 10 {
        assert(t.drop_last() =~= Seq::<char>::empty());
        assert(value(t.drop_last()) == 0);
    } else {
        lemma_decimal_digits(n / 10);
        assert(t.drop_last() =~= decimal(n / 10));
        assert forall|i: int| 0 <= i < t.len() implies is_digit(#[trigger] t[i]) by {
            if i < t.len() - 1 {
                assert(t[i] == decimal(n / 10)[i]);
            }
        }
    }
}

/// A number of 32 bits has ten decimal digits at most.
pub proof fn lemma_decimal_length(n: u32)
    ensures
        decimal(n as nat).len() <= 10,
{
    reveal_with_fuel(decimal, 11);
}

/// A number written in decimal digits denotes itself.
pub proof fn law_decimal_round_trip(n: nat)
    ensures
        number(decimal(n)) == Some(n),
{
    lemma_decimal_digits(n);
    assert(is_digit(decimal(n)[0]));
}

/// The text of a number in decimal digits.
pub fn decimal_text(n: u64) -> (text: String)
    ensures
        text@ == decimal(n as nat),
{
    let mut reversed: Vec<char> = Vec::new();
    let mut m = n;
    loop
        invariant_except_break
            decimal(n as nat) == decimal(m as nat) + reversed@.reverse(),
        ensures
            decimal(n as nat) == reversed@.reverse(),
        decreases m,
    {
        let c = (48 + (m % 10) as u8) as char;
        let ghost before = reversed@;
        reversed.push(c);
        assert(reversed@.reverse() =~= seq![c] + before.reverse());
        if m < 10 {
            assert(decimal(n as nat) =~= reversed@.reverse());
            break ;
        }
        assert(decimal(n as nat) =~= decimal((m / 10) as nat) + reversed@.reverse());
        m = m / 10;
    }
    let mut text = String::new();
    let mut i = reversed.len();
    while i > 0
        invariant
            i <= reversed.len(),
            text@ == reversed@.reverse().take(reversed.len() - i),
        decreases i,
    {
        i -= 1;
        text.push(reversed[i]);
        assert(text@ =~= reversed@.reverse().take(reversed.len() - i));
    }
    assert(text@ =~= reversed@.reverse());
    text
}

/// The number that a range of characters denotes, if it denotes one that fits 32 bits.
pub fn parse_u32(chars: &[char], start: usize, end: usize) -> (n: Option<u32>)
    requires
        start <= end <= chars@.len(),
    ensures
        match n {
            Some(v) => number(chars@.subrange(start as int, end as int)) == Some(v as nat),
            None => match number(chars@.subrange(start as int, end as int)) {
                Some(v) => v > u32::MAX,
                None => true,
            },
        },
{
    let ghost t = chars@.subrange(start as int, end as int);
    let first = if start < end && chars[start] == '+' {
        start + 1
    } else {
        start
    };
    let ghost d = chars@.subrange(first as int, end as int);
    proof {
        if first != start {
            assert(t.skip(1) =~= d);
        }
    }
    if first == end {
        return None;
    }
    let mut total: u32 = 0;
    let mut i = first;
    while i < end
        invariant
            start <= first <= i <= end <= chars@.len(),
            d == chars@.subrange(first as int, end as int),
            forall|k: int| 0 <= k < i - first ==> is_digit(d[k]),
            total == value(d.take(i - first)),
            t == chars@.subrange(start as int, end as int),
            number(t) == (if all_digits(d) {
                Some(value(d))
            } else {
                None
            }),
        decreases end - i,
    {
        let c = chars[i];
        assert(d[i - first] == c);
        if !('0' <= c && c <= '9') {
            return None;
        }
        let v = c as u32 - 48;
        assert(d.take(i - first + 1).drop_last() =~= d.take(i - first));
        let wide = total as u64 * 10 + v as u64;
        assert(wide == value(d.take(i - first + 1)));
        if wide > u32::MAX as u64 {
            proof {
                if all_digits(d) {
                    lemma_value_grows(d, i - first + 1);
                }
            }
            return None;
        }
        total = wide as u32;
        i += 1;
    }
    assert(d.take(i - first) =~= d);
    Some(total)
}

/// A character is white space exactly if Unicode says so, by its number.
pub proof fn law_white_space_by_number(c: char)
    ensures
        ({
            let n: u32 = c as u32;
            is_space(c) <==> (0x9 <= n <= 0xd || n == 0x20 || n == 0x85 || n == 0xa0 || n == 0x1680
                || 0x2000 <= n <= 0x200a || n == 0x2028 || n == 0x2029 || n == 0x202f || n == 0x205f
                || n == 0x3000)
        }),
{
}

/// What is left of a range has no white space at its ends, and what was taken off is nothing else.
pub proof fn law_a_trimmed_range(chars: &[char], start: usize, end: usize, range: (usize, usize))
    requires
        start <= end <= chars@.len(),
        call_ensures(trim_range, (chars, start, end), range),
    ensures
        start <= range.0 <= range.1 <= end,
        range.0 < range.1 ==> !is_space(chars@[range.0 as int]) && !is_space(
            chars@[range.1 - 1],
        ),
        (exists|k: int| start <= k < end && !is_space(#[trigger] chars@[k])) ==> range.0 < range.1,
{
    let t = chars@.subrange(start as int, end as int);
    let u = chars@.subrange(range.0 as int, range.1 as int);
    law_trimming_takes_space_only(t);
    if range.0 < range.1 {
        assert(u[0] == chars@[range.0 as int]);
        assert(u.last() == chars@[range.1 - 1]);
    }
    if exists|k: int| start <= k < end && !is_space(#[trigger] chars@[k]) {
        let k = choose|k: int| start <= k < end && !is_space(#[trigger] chars@[k]);
        assert(t[k - start] == chars@[k]);
    }
}

/// A number below ten is one digit; any other is what its tenth is, followed by one digit more.
pub proof fn law_a_number_is_written_digit_by_digit(
    n: u64,
    text: String,
    tenth: String,
)
    requires
        call_ensures(decimal_text, (n,), text),
        call_ensures(decimal_text, ((n / 10) as u64,), tenth),
    ensures
        n < 10 ==> text@.len() == 1,
        n >= 10 ==> text@.len() == tenth@.len() + 1 && text@.drop_last() == tenth@,
        text@.last() as u32 == '0' as u32 + n % 10,
{
    if n >= 10 {
        assert(text@.drop_last() =~= tenth@);
    }
}

/// A digit more makes a number ten times as large, and adds the digit; one that is too large for 32 bits
/// is refused. What holds anything but digits denotes none, nor does what holds nothing, and one `+`
/// in front changes nothing.
pub proof fn law_a_number_is_read_digit_by_digit(
    chars: &[char],
    start: usize,
    end: usize,
    shorter: Option<u32>,
    longer: Option<u32>,
)
    requires
        start < end <= chars@.len(),
        call_ensures(parse_u32, (chars, start, (end - 1) as usize), shorter),
        call_ensures(parse_u32, (chars, start, end), longer),
    ensures
        shorter is Some && '0' <= chars@[end - 1] <= '9' ==> ({
            let m: int = 10 * shorter->0 + (chars@[end - 1] as u32 - '0' as u32);
            if m <= 0xffff_ffff {
                longer == Some(m as u32)
            } else {
                longer is None
            }
        }),
        !('0' <= chars@[end - 1] <= '9') ==> longer is None,
        end - start == 1 ==> shorter is None,
        end - start == 1 && '0' <= chars@[start as int] <= '9' ==> longer == Some(
            (chars@[start as int] as u32 - '0' as u32) as u32,
        ),
{
    let t = chars@.subrange(start as int, end as int);
    let s = chars@.subrange(start as int, end - 1);
    let c = chars@[end - 1];
    assert(t.drop_last() =~= s);
    assert(t.last() == c);
    let plus = t.len() > 0 && t[0] == '+';
    let d = if plus {
        t.skip(1)
    } else {
        t
    };
    if plus && s.len() > 0 {
        assert(s[0] == '+');
        assert(d.drop_last() =~= s.skip(1));
    }
    if d.len() > 0 {
        assert(d.last() == c);
        if is_digit(c) && all_digits(d.drop_last()) {
            assert forall|i: int| 0 <= i < d.len() implies is_digit(#[trigger] d[i]) by {
                if i < d.len() - 1 {
                    assert(d[i] == d.drop_last()[i]);
                }
            }
        }
        if !is_digit(c) {
            assert(!is_digit(d[d.len() - 1]));
        }
    }
    if end - start == 1 {
        assert(s =~= Seq::<char>::empty());
        assert(value(s) == 0);
        assert(t[0] == c);
    }
}

/// One `+` in front of a number changes nothing.
pub proof fn law_a_plus_changes_nothing(
    chars: &[char],
    start: usize,
    end: usize,
    plain: Option<u32>,
    signed: Option<u32>,
)
    requires
        start + 1 < end <= chars@.len(),
        chars@[start as int] == '+',
        '0' <= chars@[start + 1] <= '9',
        call_ensures(parse_u32, (chars, (start + 1) as usize, end), plain),
        call_ensures(parse_u32, (chars, start, end), signed),
    ensures
        signed == plain,
{
    let t = chars@.subrange(start as int, end as int);
    let d = chars@.subrange(start + 1, end as int);
    assert(t.skip(1) =~= d);
    assert(t[0] == '+');
    assert(d[0] == chars@[start + 1]);
}

/// A text is made of its characters, and the characters of a text make it again.
pub proof fn law_a_text_is_its_characters(text: &str, chars: Vec<char>, slice: &[char], back: String)
    requires
        call_ensures(characters, (text,), chars),
        slice@ == chars@,
        call_ensures(assemble, (slice,), back),
    ensures
        back@ == text@,
        chars@.len() == text@.len(),
        forall|i: int| 0 <= i < text@.len() ==> chars@[i] == text@[i],
{
}

} // verus!
