//! Operations on text: comparison, splitting, trimming, and decimal numbers.
//!
//! Text is modelled by the sequence of its characters, `s@`.

use crate::agreement;
use vstd::prelude::*;
use vstd::utf8::*;

verus! {

/// Whether two pieces of text are the same.
pub fn text_eq(a: &str, b: &str) -> (same: bool)
    ensures
        same == (a@ == b@),
{
    let x = a.as_bytes();
    let y = b.as_bytes();
    proof {
        encode_utf8_decode_utf8(a@);
        encode_utf8_decode_utf8(b@);
    }
    if x.len() != y.len() {
        return false;
    }
    let mut i: usize = 0;
    while i < x.len()
        invariant
            i <= x@.len(),
            x@.len() == y@.len(),
            x@ == encode_utf8(a@),
            y@ == encode_utf8(b@),
            forall|j: int| 0 <= j < i ==> x@[j] == y@[j],
        decreases x@.len() - i,
    {
        if x[i] != y[i] {
            return false;
        }
        i += 1;
    }
    assert(x@ =~= y@);
    true
}

/// The characters of a piece of text, one by one.
pub fn chars_of(s: &str) -> (chars: Vec<char>)
    ensures
        chars@ == s@,
{
    let mut out: Vec<char> = Vec::new();
    for c in it: s.chars()
        invariant
            out@ == it.seq().take(it.index() as int),
            it.seq() == s@,
    {
        out.push(c);
    }
    out
}

/// What a list of strings says.
pub open spec fn texts(v: Seq<String>) -> Seq<Seq<char>> {
    v.map_values(|s: String| s@)
}

/// Two pieces of text, one after the other.
pub fn pair(a: &str, b: &str) -> (s: String)
    ensures
        s@ == a@ + b@,
{
    let mut s = a.to_string();
    s.append(b);
    s
}

/// Three pieces of text, one after the other.
pub fn join(a: &str, b: &str, c: &str) -> (s: String)
    ensures
        s@ == a@ + b@ + c@,
{
    let mut s = a.to_string();
    s.append(b);
    s.append(c);
    s
}

/// Whether two runs of characters are the same.
pub fn chars_eq(a: &Vec<char>, b: &Vec<char>) -> (same: bool)
    ensures
        same == (a@ == b@),
{
    if a.len() != b.len() {
        return false;
    }
    let mut i: usize = 0;
    while i < a.len()
        invariant
            i <= a@.len(),
            a@.len() == b@.len(),
            forall|j: int| 0 <= j < i ==> a@[j] == b@[j],
        decreases a@.len() - i,
    {
        if a[i] != b[i] {
            return false;
        }
        i += 1;
    }
    assert(a@ =~= b@);
    true
}

/// Whether `s` begins with `prefix`.
pub open spec fn begins_with(s: Seq<char>, prefix: Seq<char>) -> bool {
    prefix.len() <= s.len() && s.take(prefix.len() as int) == prefix
}

/// Whether the text `s` begins with `prefix`.
pub fn starts_with(s: &str, prefix: &str) -> (yes: bool)
    ensures
        yes == begins_with(s@, prefix@),
{
    let a = chars_of(s);
    let b = chars_of(prefix);
    if a.len() < b.len() {
        return false;
    }
    let mut i: usize = 0;
    while i < b.len()
        invariant
            i <= b@.len() <= a@.len(),
            a@ == s@,
            b@ == prefix@,
            forall|j: int| 0 <= j < i ==> a@[j] == b@[j],
        decreases b@.len() - i,
    {
        if a[i] != b[i] {
            assert(s@.take(prefix@.len() as int)[i as int] != prefix@[i as int]);
            return false;
        }
        i += 1;
    }
    assert(s@.take(prefix@.len() as int) =~= prefix@);
    true
}

/// The text that a sequence of bytes encodes in UTF-8, or `None` where the
/// bytes are no UTF-8.
///
/// Calls `std::str::from_utf8`. What is claimed of it: it succeeds exactly on
/// valid UTF-8, and then hands back the characters that the bytes encode.
#[verifier::external_body]
pub(crate) fn utf8_str<'b>(bytes: &'b [u8]) -> (text: Option<&'b str>)
    ensures
        text is Some <==> valid_utf8(bytes@),
        text matches Some(t) ==> t@ == decode_utf8(bytes@),
{
    std::str::from_utf8(bytes).ok()
}

/// The pieces of `s` between the occurrences of `sep`: one more than there are
/// occurrences, so that the empty text has one, empty, piece.
pub open spec fn split(s: Seq<char>, sep: char) -> Seq<Seq<char>>
    decreases s.len(),
{
    if s.len() == 0 {
        seq![seq![]]
    } else {
        let pieces = split(s.drop_last(), sep);
        if s.last() == sep {
            pieces.push(seq![])
        } else {
            pieces.drop_last().push(pieces.last().push(s.last()))
        }
    }
}

/// Text always splits into at least one piece.
pub proof fn split_is_never_empty(s: Seq<char>, sep: char)
    ensures
        split(s, sep).len() >= 1,
    decreases s.len(),
{
    if s.len() > 0 {
        split_is_never_empty(s.drop_last(), sep);
    }
}

/// The contents of a vector of runs of characters.
pub open spec fn runs(v: Seq<Vec<char>>) -> Seq<Seq<char>> {
    v.map_values(|run: Vec<char>| run@)
}

/// Splits text at every occurrence of `sep`.
pub fn split_text(s: &str, sep: char) -> (pieces: Vec<Vec<char>>)
    ensures
        runs(pieces@) == split(s@, sep),
        pieces@.len() >= 1,
{
    let chars = chars_of(s);
    let mut out: Vec<Vec<char>> = Vec::new();
    let mut current: Vec<char> = Vec::new();
    let mut i: usize = 0;
    assert(runs(out@).push(current@) =~= split(chars@.take(0), sep));
    while i < chars.len()
        invariant
            i <= chars@.len(),
            runs(out@).push(current@) == split(chars@.take(i as int), sep),
        decreases chars@.len() - i,
    {
        let ghost before = runs(out@);
        let ghost piece = current@;
        proof {
            assert(chars@.take(i as int + 1).drop_last() =~= chars@.take(i as int));
            assert(before.push(piece).drop_last() =~= before);
        }
        if chars[i] == sep {
            let mut finished: Vec<char> = Vec::new();
            std::mem::swap(&mut finished, &mut current);
            out.push(finished);
            assert(runs(out@) =~= before.push(piece));
            assert(current@ =~= seq![]);
        } else {
            current.push(chars[i]);
        }
        i += 1;
    }
    assert(chars@.take(i as int) =~= s@);
    let ghost before = runs(out@);
    let ghost piece = current@;
    out.push(current);
    assert(runs(out@) =~= before.push(piece));
    out
}

/// Whether a character is white space: the Unicode property `White_Space`.
pub open spec fn is_white_space(c: char) -> bool {
    ||| '\u{9}' <= c <= '\u{d}'
    ||| c == '\u{20}'
    ||| c == '\u{85}'
    ||| c == '\u{a0}'
    ||| c == '\u{1680}'
    ||| '\u{2000}' <= c <= '\u{200a}'
    ||| c == '\u{2028}'
    ||| c == '\u{2029}'
    ||| c == '\u{202f}'
    ||| c == '\u{205f}'
    ||| c == '\u{3000}'
}

fn white_space(c: char) -> (yes: bool)
    ensures
        yes == is_white_space(c),
{
    ('\u{9}' <= c && c <= '\u{d}') || c == '\u{20}' || c == '\u{85}' || c == '\u{a0}' || c
        == '\u{1680}' || ('\u{2000}' <= c && c <= '\u{200a}') || c == '\u{2028}' || c == '\u{2029}'
        || c == '\u{202f}' || c == '\u{205f}' || c == '\u{3000}'
}

/// `s` without its leading white space.
pub open spec fn trim_start(s: Seq<char>) -> Seq<char>
    decreases s.len(),
{
    if s.len() > 0 && is_white_space(s[0]) {
        trim_start(s.drop_first())
    } else {
        s
    }
}

/// `s` without its trailing white space.
pub open spec fn trim_end(s: Seq<char>) -> Seq<char>
    decreases s.len(),
{
    if s.len() > 0 && is_white_space(s.last()) {
        trim_end(s.drop_last())
    } else {
        s
    }
}

/// `s` without white space at either end.
pub open spec fn trim(s: Seq<char>) -> Seq<char> {
    trim_end(trim_start(s))
}

/// Takes white space off both ends.
pub fn trim_chars(s: &Vec<char>) -> (trimmed: Vec<char>)
    ensures
        trimmed@ == trim(s@),
{
    let mut low: usize = 0;
    assert(s@.subrange(0, s@.len() as int) =~= s@);
    while low < s.len() && white_space(s[low])
        invariant
            low <= s@.len(),
            trim_start(s@.subrange(low as int, s@.len() as int)) == trim_start(s@),
        decreases s@.len() - low,
    {
        assert(s@.subrange(low as int, s@.len() as int).drop_first() =~= s@.subrange(
            low as int + 1,
            s@.len() as int,
        ));
        low += 1;
    }
    let ghost rest = s@.subrange(low as int, s@.len() as int);
    assert(trim_start(s@) == rest);
    let mut high: usize = s.len();
    while high > low && white_space(s[high - 1])
        invariant
            low <= high <= s@.len(),
            trim_end(s@.subrange(low as int, high as int)) == trim_end(rest),
        decreases high,
    {
        assert(s@.subrange(low as int, high as int).drop_last() =~= s@.subrange(
            low as int,
            high as int - 1,
        ));
        high -= 1;
    }
    let mut out: Vec<char> = Vec::new();
    let mut i: usize = low;
    while i < high
        invariant
            low <= i <= high <= s@.len(),
            out@ == s@.subrange(low as int, i as int),
        decreases high - i,
    {
        out.push(s[i]);
        assert(out@ =~= s@.subrange(low as int, i as int + 1));
        i += 1;
    }
    out
}

/// Whether the comma-separated list `list` names `item`, white space around
/// the names aside.
pub open spec fn list_names(list: Seq<char>, item: Seq<char>) -> bool {
    exists|i: int|
        0 <= i < split(list, ',').len() && trim(#[trigger] split(list, ',')[i]) == item
}

/// Whether a comma-separated list names `item`.
pub fn list_contains(list: &str, item: &str) -> (yes: bool)
    ensures
        yes == list_names(list@, item@),
{
    let pieces = split_text(list, ',');
    let wanted = chars_of(item);
    let mut i: usize = 0;
    while i < pieces.len()
        invariant
            i <= pieces@.len(),
            wanted@ == item@,
            runs(pieces@) == split(list@, ','),
            forall|j: int| 0 <= j < i ==> trim(#[trigger] split(list@, ',')[j]) != item@,
        decreases pieces@.len() - i,
    {
        let name = trim_chars(&pieces[i]);
        assert(runs(pieces@)[i as int] == pieces@[i as int]@);
        if chars_eq(&name, &wanted) {
            return true;
        }
        i += 1;
    }
    false
}

/// Whether `c` is one of the characters `0` to `9`.
pub open spec fn is_digit(c: char) -> bool {
    '0' <= c <= '9'
}

/// The character that stands for the number `d`, below ten.
pub open spec fn digit(d: nat) -> char {
    (48 + d) as char
}

/// The number that the digits of `s`, read from left to right, make.
pub open spec fn digits_value(s: Seq<char>) -> nat
    decreases s.len(),
{
    if s.len() == 0 {
        0
    } else {
        10 * digits_value(s.drop_last()) + (s.last() as nat - 48) as nat
    }
}

/// Whether `s` is made of digits, and of at least one.
pub open spec fn all_digits(s: Seq<char>) -> bool {
    s.len() > 0 && forall|i: int| 0 <= i < s.len() ==> is_digit(#[trigger] s[i])
}

/// The number that `s` writes out in decimal, an optional `+` in front, if it
/// is at most `max`.
pub open spec fn parse_unsigned(s: Seq<char>, max: nat) -> Option<nat> {
    let digits = if s.len() > 0 && s[0] == '+' {
        s.drop_first()
    } else {
        s
    };
    if all_digits(digits) && digits_value(digits) <= max {
        Some(digits_value(digits))
    } else {
        None
    }
}

/// The number between `min` and `max` that `s` writes out in decimal, an
/// optional sign in front.
pub open spec fn parse_signed(s: Seq<char>, min: int, max: nat) -> Option<int> {
    if s.len() > 0 && s[0] == '-' {
        let digits = s.drop_first();
        if all_digits(digits) && min <= -digits_value(digits) {
            Some(-digits_value(digits))
        } else {
            None
        }
    } else {
        match parse_unsigned(s, max) {
            Some(n) => Some(n as int),
            None => None,
        }
    }
}

/// Reading more digits never makes the number smaller.
proof fn digits_value_grows(s: Seq<char>, k: int)
    requires
        0 <= k <= s.len(),
        forall|i: int| 0 <= i < s.len() ==> is_digit(#[trigger] s[i]),
    ensures
        digits_value(s.take(k)) <= digits_value(s),
    decreases s.len() - k,
{
    if k < s.len() {
        assert(s.take(k + 1).drop_last() =~= s.take(k));
        digits_value_grows(s, k + 1);
    } else {
        assert(s.take(k) =~= s);
    }
}

/// Reads `s` from position `start` to its end as decimal digits.
fn read_digits(s: &Vec<char>, start: usize, max: u64) -> (n: Option<u64>)
    requires
        start <= s@.len(),
    ensures
        ({
            let digits = s@.subrange(start as int, s@.len() as int);
            n == if all_digits(digits) && digits_value(digits) <= max {
                Some(digits_value(digits) as u64)
            } else {
                None
            }
        }),
{
    let ghost digits = s@.subrange(start as int, s@.len() as int);
    if start == s.len() {
        return None;
    }
    let mut value: u64 = 0;
    let mut i: usize = start;
    while i < s.len()
        invariant
            start <= i <= s@.len(),
            digits == s@.subrange(start as int, s@.len() as int),
            forall|j: int| 0 <= j < i - start ==> is_digit(#[trigger] digits[j]),
            value == digits_value(digits.take(i - start)),
            value <= max,
        decreases s@.len() - i,
    {
        let c = s[i];
        assert(digits[i - start] == c);
        assert(digits.take(i - start + 1).drop_last() =~= digits.take(i - start));
        if !('0' <= c && c <= '9') {
            return None;
        }
        let next: u128 = 10u128 * (value as u128) + ((c as u32 - 48) as u128);
        if next > max as u128 {
            proof {
                if all_digits(digits) {
                    digits_value_grows(digits, i - start + 1);
                }
            }
            return None;
        }
        value = next as u64;
        i += 1;
    }
    assert(digits.take(i - start) =~= digits);
    Some(value)
}

/// Reads a number that is at most `max`.
pub fn read_unsigned(s: &Vec<char>, max: u64) -> (n: Option<u64>)
    ensures
        match n {
            Some(v) => parse_unsigned(s@, max as nat) == Some(v as nat),
            None => parse_unsigned(s@, max as nat) is None,
        },
{
    assert(s@.subrange(0, s@.len() as int) =~= s@);
    if s.len() > 0 && s[0] == '+' {
        assert(s@.subrange(1, s@.len() as int) =~= s@.drop_first());
        read_digits(s, 1, max)
    } else {
        read_digits(s, 0, max)
    }
}

/// Reads an `i32`.
pub fn read_i32(s: &Vec<char>) -> (n: Option<i32>)
    ensures
        match n {
            Some(v) => parse_signed(s@, i32::MIN as int, i32::MAX as nat) == Some(v as int),
            None => parse_signed(s@, i32::MIN as int, i32::MAX as nat) is None,
        },
{
    if s.len() > 0 && s[0] == '-' {
        assert(s@.subrange(1, s@.len() as int) =~= s@.drop_first());
        match read_digits(s, 1, 0x8000_0000) {
            Some(v) => Some((0 - v as i64) as i32),
            None => None,
        }
    } else {
        match read_unsigned(s, 0x7fff_ffff) {
            Some(v) => Some(v as i32),
            None => None,
        }
    }
}

/// `n` written out in decimal, without leading zeros.
pub open spec fn decimal(n: nat) -> Seq<char>
    decreases n,
{
    if n < 10 {
        seq![digit(n)]
    } else {
        decimal(n / 10).push(digit(n % 10))
    }
}

fn digit_text(d: u64) -> (s: &'static str)
    requires
        d < 10,
    ensures
        s@ == seq![digit(d as nat)],
{
    proof {
        reveal_strlit("0");
        reveal_strlit("1");
        reveal_strlit("2");
        reveal_strlit("3");
        reveal_strlit("4");
        reveal_strlit("5");
        reveal_strlit("6");
        reveal_strlit("7");
        reveal_strlit("8");
        reveal_strlit("9");
    }
    let s: &'static str = if d == 0 {
        "0"
    } else if d == 1 {
        "1"
    } else if d == 2 {
        "2"
    } else if d == 3 {
        "3"
    } else if d == 4 {
        "4"
    } else if d == 5 {
        "5"
    } else if d == 6 {
        "6"
    } else if d == 7 {
        "7"
    } else if d == 8 {
        "8"
    } else {
        "9"
    };
    assert(s@ =~= seq![digit(d as nat)]);
    s
}

/// Writes `n` out in decimal.
pub fn decimal_text(n: u64) -> (s: String)
    ensures
        s@ == decimal(n as nat),
    decreases n,
{
    let mut s = if n < 10 {
        String::new()
    } else {
        decimal_text(n / 10)
    };
    let ghost front = s@;
    s.append(digit_text(n % 10));
    assert(s@ =~= front.push(digit((n % 10) as nat)));
    assert(n < 10 ==> s@ =~= seq![digit(n as nat)]);
    s
}

/// What `decimal` writes is made of digits and reads back as the same number.
pub proof fn decimal_reads_back(n: nat, max: nat)
    requires
        n <= max,
    ensures
        all_digits(decimal(n)),
        digits_value(decimal(n)) == n,
        parse_unsigned(decimal(n), max) == Some(n),
        parse_signed(decimal(n), -(max as int), max) == Some(n as int),
    decreases n,
{
    if n < 10 {
        let s = decimal(n);
        assert(s.drop_last() =~= Seq::<char>::empty());
        assert(digits_value(s.drop_last()) == 0);
        assert(s.last() as nat == 48 + n);
    } else {
        let front = decimal(n / 10);
        decimal_reads_back(n / 10, max);
        assert(decimal(n).drop_last() =~= front);
        assert(decimal(n).last() as nat == 48 + n % 10);
        assert forall|i: int| 0 <= i < decimal(n).len() implies is_digit(
            #[trigger] decimal(n)[i],
        ) by {
            if i < front.len() {
                assert(decimal(n)[i] == front[i]);
            }
        }
    }
    assert(is_digit(decimal(n)[0]));
}

/// The bytes of a piece of text are valid UTF-8 and encode that text.
pub proof fn text_bytes_decode(s: Seq<char>)
    ensures
        valid_utf8(encode_utf8(s)),
        decode_utf8(encode_utf8(s)) == s,
{
    encode_utf8_valid_utf8(s);
    encode_utf8_decode_utf8(s);
}

/// A text begins with another where it is that other and something after it.
pub proof fn prefixes_are_fronts(s: Seq<char>, prefix: Seq<char>, rest: Seq<char>)
    ensures
        begins_with(prefix + rest, prefix),
        begins_with(s, prefix) ==> s == prefix + s.skip(prefix.len() as int),
{
    assert((prefix + rest).take(prefix.len() as int) =~= prefix);
    if begins_with(s, prefix) {
        assert(s =~= s.take(prefix.len() as int) + s.skip(prefix.len() as int));
    }
}

/// The characters that are white space.
pub proof fn white_space_is_this(c: char)
    ensures
        ({
            let n = c as u32;
            is_white_space(c) <==> 9 <= n <= 13 || n == 32 || n == 133 || n == 160 || n == 5760
                || 8192 <= n <= 8202 || n == 8232 || n == 8233 || n == 8239 || n == 8287 || n
                == 12288
        }),
{
}

proof fn trim_start_stops(front: Seq<char>, s: Seq<char>)
    requires
        forall|i: int| 0 <= i < front.len() ==> is_white_space(#[trigger] front[i]),
        s.len() > 0 ==> !is_white_space(s[0]),
    ensures
        trim_start(front + s) == s,
    decreases front.len(),
{
    let all = front + s;
    if front.len() > 0 {
        let rest = front.drop_first();
        assert(all[0] == front[0]);
        assert(all.drop_first() =~= rest + s);
        assert forall|i: int| 0 <= i < rest.len() implies is_white_space(#[trigger] rest[i]) by {
            assert(rest[i] == front[i + 1]);
        }
        trim_start_stops(rest, s);
    } else {
        assert(all =~= s);
    }
}

proof fn trim_end_stops(s: Seq<char>, back: Seq<char>)
    requires
        forall|i: int| 0 <= i < back.len() ==> is_white_space(#[trigger] back[i]),
        s.len() > 0 ==> !is_white_space(s.last()),
    ensures
        trim_end(s + back) == s,
    decreases back.len(),
{
    let all = s + back;
    if back.len() > 0 {
        let rest = back.drop_last();
        assert(all.last() == back[back.len() - 1]);
        assert(all.drop_last() =~= s + rest);
        assert forall|i: int| 0 <= i < rest.len() implies is_white_space(#[trigger] rest[i]) by {
            assert(rest[i] == back[i]);
        }
        trim_end_stops(s, rest);
    } else {
        assert(all =~= s);
    }
}

/// Trimming takes off the white space at both ends, all of it, and nothing else.
pub proof fn trimming_takes_off_white_space(front: Seq<char>, s: Seq<char>, back: Seq<char>)
    requires
        forall|i: int| 0 <= i < front.len() ==> is_white_space(#[trigger] front[i]),
        forall|i: int| 0 <= i < back.len() ==> is_white_space(#[trigger] back[i]),
        s.len() > 0 ==> !is_white_space(s[0]) && !is_white_space(s.last()),
    ensures
        trim(front + s + back) == s,
{
    if s.len() > 0 {
        assert(front + s + back =~= front + (s + back));
        trim_start_stops(front, s + back);
        trim_end_stops(s, back);
    } else {
        let white = front + back;
        assert(front + s + back =~= white + Seq::<char>::empty());
        assert forall|i: int| 0 <= i < white.len() implies is_white_space(#[trigger] white[i]) by {
            if i >= front.len() {
                assert(white[i] == back[i - front.len()]);
            } else {
                assert(white[i] == front[i]);
            }
        }
        trim_start_stops(white, Seq::empty());
        trim_end_stops(Seq::empty(), Seq::empty());
        assert(s =~= Seq::<char>::empty());
        assert(Seq::<char>::empty() + Seq::<char>::empty() =~= Seq::<char>::empty());
    }
}

/// A list names what one of its parts does, and a part without a comma names the
/// one thing that it is, white space at its ends aside.
pub proof fn lists_name_what_stands_between_commas(
    a: Seq<char>,
    b: Seq<char>,
    name: Seq<char>,
)
    ensures
        list_names(a + seq![','] + b, name) <==> list_names(a, name) || list_names(b, name),
        !a.contains(',') ==> (list_names(a, name) <==> trim(a) == name),
{
    let x = split(a, ',');
    let y = split(b, ',');
    let z = split(a + seq![','] + b, ',');
    agreement::split_of_joined_text(a, b, ',');
    if list_names(a + seq![','] + b, name) {
        let i = choose|i: int| 0 <= i < z.len() && trim(#[trigger] z[i]) == name;
        if i < x.len() {
            assert(x[i] == z[i]);
        } else {
            assert(y[i - x.len()] == z[i]);
        }
    }
    if list_names(a, name) {
        let i = choose|i: int| 0 <= i < x.len() && trim(#[trigger] x[i]) == name;
        assert(z[i] == x[i]);
    }
    if list_names(b, name) {
        let i = choose|i: int| 0 <= i < y.len() && trim(#[trigger] y[i]) == name;
        assert(z[x.len() + i] == y[i]);
    }
    if !a.contains(',') {
        agreement::split_of_plain_text(a, ',');
        assert(x[0] == a);
    }
}

/// What digits stand for: each is worth ten times as much as the next.
pub proof fn digits_are_worth_their_place(s: Seq<char>, c: char)
    ensures
        digits_value(Seq::empty()) == 0,
        '0' <= c <= '9' ==> digits_value(s.push(c)) == 10 * digits_value(s) + (c as nat
            - '0' as nat),
{
    assert(s.push(c).drop_last() =~= s);
}

/// Which texts are numbers without a sign, and which number they are: one or more
/// digits, with a plus sign in front or without, as long as the number is not too
/// large.
pub proof fn unsigned_numbers_are_digits(s: Seq<char>, max: nat)
    ensures
        ({
            let plus = s.len() > 0 && s[0] == '+';
            let from = if plus {
                1int
            } else {
                0int
            };
            let digits = s.skip(from);
            &&& parse_unsigned(s, max) is Some <==> from < s.len() && (forall|i: int|
                from <= i < s.len() ==> '0' <= #[trigger] s[i] <= '9') && digits_value(digits)
                <= max
            &&& parse_unsigned(s, max) matches Some(n) ==> n == digits_value(digits)
        }),
{
    let plus = s.len() > 0 && s[0] == '+';
    let from = if plus {
        1int
    } else {
        0int
    };
    let digits = s.skip(from);
    let read = if plus {
        s.drop_first()
    } else {
        s
    };
    assert(digits =~= read);
    if all_digits(digits) {
        assert forall|i: int| from <= i < s.len() implies '0' <= #[trigger] s[i] <= '9' by {
            assert(is_digit(digits[i - from]));
        }
    }
    if from < s.len() && (forall|i: int| from <= i < s.len() ==> '0' <= #[trigger] s[i] <= '9') {
        assert forall|i: int| 0 <= i < digits.len() implies is_digit(#[trigger] digits[i]) by {
            assert(digits[i] == s[i + from]);
        }
    }
}

/// Which texts are numbers with a sign: those without one, or with a plus sign,
/// and those with a minus sign in front of digits, for the negative number.
pub proof fn signed_numbers_may_be_negative(s: Seq<char>, min: int, max: nat)
    ensures
        s.len() == 0 || s[0] != '-' ==> parse_signed(s, min, max) == (match parse_unsigned(
            s,
            max,
        ) {
            Some(n) => Some(n as int),
            None => None,
        }),
        s.len() > 0 && s[0] == '-' ==> {
            &&& parse_signed(s, min, max) is Some <==> s.len() > 1 && (forall|i: int|
                1 <= i < s.len() ==> '0' <= #[trigger] s[i] <= '9') && min <= -digits_value(
                s.skip(1),
            )
            &&& parse_signed(s, min, max) matches Some(n) ==> n == -digits_value(s.skip(1))
        },
{
    if s.len() > 0 && s[0] == '-' {
        let digits = s.drop_first();
        assert(digits =~= s.skip(1));
        if all_digits(digits) {
            assert forall|i: int| 1 <= i < s.len() implies '0' <= #[trigger] s[i] <= '9' by {
                assert(is_digit(digits[i - 1]));
            }
        }
        if s.len() > 1 && (forall|i: int| 1 <= i < s.len() ==> '0' <= #[trigger] s[i] <= '9') {
            assert forall|i: int| 0 <= i < digits.len() implies is_digit(#[trigger] digits[i]) by {
                assert(digits[i] == s[i + 1]);
            }
        }
    }
}

/// A number is written out with no more digits than it needs: none but zero
/// begins with a zero.
pub proof fn numbers_have_no_leading_zeros(n: nat)
    ensures
        decimal(n).len() >= 1,
        decimal(n)[0] == '0' ==> n == 0 && decimal(n).len() == 1,
    decreases n,
{
    if n >= 10 {
        numbers_have_no_leading_zeros(n / 10);
        assert(decimal(n)[0] == decimal(n / 10)[0]);
    } else {
        assert(decimal(n)[0] == digit(n));
        assert(digit(n) as nat == 48 + n);
    }
}

} // verus!
