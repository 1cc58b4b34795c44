//! How frames are read from bytes.
//!
//! A reading starts at a position of the input and either succeeds, with a
//! value and the position after what was read, or fails, with an error and the
//! position where reading stopped. The input may be the front part of a longer
//! stream: a reading that the bytes at hand do not decide is `Incomplete`.

use crate::encode::{BACKSLASH, COLON, CR, LF, NUL};
use crate::frame::{self, FrameView, Header, StompFrame, StompVersion};
use crate::text;
use std::borrow::Cow;
use vstd::prelude::*;
use vstd::slice::slice_subrange;
use vstd::utf8::*;

verus! {

/// The largest body that is accepted where nothing else is asked for.
pub const DEFAULT_MAX_BODY_SIZE: usize = 67108864;

/// How much more input an undecided reading asks for.
#[derive(Debug, Clone, Copy, PartialEq, Eq, Structural)]
pub enum Needed {
    /// More bytes, without saying how many.
    Unknown,
    /// At least this many more bytes.
    Size(usize),
}

/// Why no frame was read.
#[derive(Debug, Clone, Copy, PartialEq, Eq, Structural)]
pub enum ParseError {
    /// The input ends before the frame does.
    Incomplete(Needed),
    /// The input is no frame.
    Backtrack,
    /// The frame announces a body that is larger than allowed.
    Cut,
}

/// The outcome of a reading.
pub enum Reading<T> {
    /// What was read, and the position after it.
    Done(T, int),
    /// What went wrong, and the position where it did.
    Failed(ParseError, int),
}

/// A line end at position `p`: LF, or CR and LF.
pub open spec fn line_end(s: Seq<u8>, p: int) -> Reading<()> {
    if p >= s.len() {
        Reading::Failed(ParseError::Incomplete(Needed::Unknown), p)
    } else if s[p] == LF {
        Reading::Done((), p + 1)
    } else if s[p] == CR && p + 1 >= s.len() {
        Reading::Failed(ParseError::Incomplete(Needed::Unknown), p)
    } else if s[p] == CR && s[p + 1] == LF {
        Reading::Done((), p + 2)
    } else {
        Reading::Failed(ParseError::Backtrack, p)
    }
}

/// All the line ends from position `p` on.
pub open spec fn line_ends(s: Seq<u8>, p: int) -> Reading<()>
    decreases s.len() - p,
{
    match line_end(s, p) {
        Reading::Done(_, q) => line_ends(s, q),
        Reading::Failed(ParseError::Backtrack, _) => Reading::Done((), p),
        failed => failed,
    }
}

/// The bytes at which a run of bytes ends.
#[derive(Clone, Copy)]
pub enum Stop {
    /// At the first byte that is no ASCII letter.
    NonLetter,
    /// At the end of a header's name.
    NameEnd,
    /// At the end of a header's value.
    ValueEnd,
    /// At the byte that ends a frame.
    FrameEnd,
    /// At the first byte that is no part of a line end.
    NonLineEnd,
}

/// Whether `b` is an ASCII letter.
pub open spec fn is_letter(b: u8) -> bool {
    65 <= b <= 90 || 97 <= b <= 122
}

impl Stop {
    /// Whether the run ends at `b`.
    pub open spec fn at(self, b: u8) -> bool {
        match self {
            Stop::NonLetter => !is_letter(b),
            Stop::NameEnd => b == COLON || b == CR || b == LF,
            Stop::ValueEnd => b == CR || b == LF,
            Stop::FrameEnd => b == NUL,
            Stop::NonLineEnd => b != CR && b != LF,
        }
    }
}

/// The first position from `p` on at which a run ends; the length of the input
/// where there is none.
pub open spec fn find(s: Seq<u8>, p: int, stop: Stop) -> int
    decreases s.len() - p,
{
    if p >= s.len() {
        s.len() as int
    } else if stop.at(s[p]) {
        p
    } else {
        find(s, p + 1, stop)
    }
}

/// The command of a frame, with the line ends before it and the one after it.
pub open spec fn command_at(s: Seq<u8>, p: int) -> Reading<Seq<char>> {
    match line_ends(s, p) {
        Reading::Failed(e, q) => Reading::Failed(e, q),
        Reading::Done(_, a) => {
            let b = find(s, a, Stop::NonLetter);
            if b >= s.len() {
                Reading::Failed(ParseError::Incomplete(Needed::Size(1)), a)
            } else if b == a {
                Reading::Failed(ParseError::Backtrack, a)
            } else {
                match line_end(s, b) {
                    Reading::Failed(e, q) => Reading::Failed(e, q),
                    Reading::Done(_, c) => Reading::Done(decode_utf8(s.subrange(a, b)), c),
                }
            }
        },
    }
}

/// The version whose escapes the headers of a frame are read with. Version 1.0
/// has none, and neither have the answer to a connection request and the
/// `STOMP` command.
pub open spec fn read_rules(command: Seq<char>, version: StompVersion) -> StompVersion {
    if command == "CONNECTED"@ || command == "STOMP"@ {
        StompVersion::V1_0
    } else {
        version
    }
}

/// The byte that a backslash and `code` stand for.
pub open spec fn escaped_byte(code: u8, rules: StompVersion) -> Option<u8> {
    if code == 114 && rules == StompVersion::V1_2 {
        Some(CR)
    } else if code == 110 {
        Some(LF)
    } else if code == 99 {
        Some(COLON)
    } else if code == BACKSLASH {
        Some(BACKSLASH)
    } else {
        None
    }
}

/// `s` with the byte that each escape stands for in its place; `None` where it
/// holds an escape that the version does not have.
pub open spec fn escapes_replaced(s: Seq<u8>, rules: StompVersion) -> Option<Seq<u8>>
    decreases s.len(),
{
    if s.len() == 0 {
        Some(seq![])
    } else if s[0] != BACKSLASH {
        prefixed(seq![s[0]], escapes_replaced(s.skip(1), rules))
    } else if s.len() == 1 {
        None
    } else {
        match escaped_byte(s[1], rules) {
            Some(b) => prefixed(seq![b], escapes_replaced(s.skip(2), rules)),
            None => None,
        }
    }
}

/// The bytes that a header's name or value stands for. In version 1.0 a
/// backslash is a byte like any other.
pub open spec fn unescaped(s: Seq<u8>, rules: StompVersion) -> Option<Seq<u8>> {
    if rules == StompVersion::V1_0 {
        Some(s)
    } else {
        escapes_replaced(s, rules)
    }
}

/// `front` and then `rest`, where there is a rest.
pub open spec fn prefixed(front: Seq<u8>, rest: Option<Seq<u8>>) -> Option<Seq<u8>> {
    match rest {
        Some(r) => Some(front + r),
        None => None,
    }
}

/// The text that bytes encode, where there are bytes and they encode one.
pub open spec fn encoded_text(bytes: Option<Seq<u8>>) -> Option<Seq<char>> {
    match bytes {
        Some(b) => if valid_utf8(b) {
            Some(decode_utf8(b))
        } else {
            None
        },
        None => None,
    }
}

/// The text that the bytes of a header's name or value stand for.
pub open spec fn header_text(s: Seq<u8>, rules: StompVersion) -> Option<Seq<char>> {
    encoded_text(unescaped(s, rules))
}

/// One header: a name, a colon, a value, and a line end.
pub open spec fn header_at(s: Seq<u8>, p: int, rules: StompVersion) -> Reading<Header> {
    let k = find(s, p, Stop::NameEnd);
    if k >= s.len() {
        Reading::Failed(ParseError::Incomplete(Needed::Size(1)), p)
    } else {
        match header_text(s.subrange(p, k), rules) {
            None => Reading::Failed(ParseError::Backtrack, p),
            Some(name) => if s[k] != COLON {
                Reading::Failed(ParseError::Backtrack, k)
            } else {
                let v = find(s, k + 1, Stop::ValueEnd);
                if v >= s.len() {
                    Reading::Failed(ParseError::Incomplete(Needed::Unknown), k + 1)
                } else {
                    match line_end(s, v) {
                        Reading::Failed(e, q) => Reading::Failed(e, q),
                        Reading::Done(_, q) => match header_text(s.subrange(k + 1, v), rules) {
                            None => Reading::Failed(ParseError::Backtrack, k + 1),
                            Some(value) => Reading::Done((name, value), q),
                        },
                    }
                }
            },
        }
    }
}

/// Headers, as many as there are.
pub open spec fn headers_at(s: Seq<u8>, p: int, rules: StompVersion) -> Reading<Seq<Header>>
    decreases s.len() - p,
    when 0 <= p
    via headers_at_decreases
{
    match header_at(s, p, rules) {
        Reading::Done(h, q) => preceded(seq![h], headers_at(s, q, rules)),
        Reading::Failed(ParseError::Backtrack, _) => Reading::Done(seq![], p),
        Reading::Failed(e, q) => Reading::Failed(e, q),
    }
}

#[via_fn]
proof fn headers_at_decreases(s: Seq<u8>, p: int, rules: StompVersion) {
    find_bounds(s, p, Stop::NameEnd);
    let k = find(s, p, Stop::NameEnd);
    if k < s.len() {
        find_bounds(s, k + 1, Stop::ValueEnd);
    }
}

/// A run of bytes ends at or after its start; it does not reach over a byte
/// that ends it, and it ends at one.
pub proof fn find_bounds(s: Seq<u8>, p: int, stop: Stop)
    requires
        0 <= p,
    ensures
        p <= s.len() ==> p <= find(s, p, stop) <= s.len(),
        find(s, p, stop) < s.len() ==> p <= find(s, p, stop) && stop.at(s[find(s, p, stop)]),
        forall|i: int| p <= i < find(s, p, stop) ==> !stop.at(#[trigger] s[i]),
    decreases s.len() - p,
{
    if p < s.len() && !stop.at(s[p]) {
        find_bounds(s, p + 1, stop);
    }
}

/// More headers before those of a reading.
pub open spec fn preceded(front: Seq<Header>, rest: Reading<Seq<Header>>) -> Reading<
    Seq<Header>,
> {
    match rest {
        Reading::Done(hs, q) => Reading::Done(front + hs, q),
        failed => failed,
    }
}

/// The length of the body that the headers announce.
pub open spec fn announced_length(headers: Seq<Header>) -> Option<nat> {
    match frame::header(headers, "content-length"@) {
        Some(value) => text::parse_unsigned(value, usize::MAX as nat),
        None => None,
    }
}

/// The body: as long as announced, or up to the byte that ends a frame. One
/// that is not announced and empty is none.
pub open spec fn body_at(s: Seq<u8>, p: int, length: Option<nat>, max: nat) -> Reading<
    Option<Seq<u8>>,
> {
    match length {
        None => {
            let e = find(s, p, Stop::FrameEnd);
            if e >= s.len() {
                Reading::Failed(ParseError::Incomplete(Needed::Unknown), p)
            } else if e == p {
                Reading::Done(None, e)
            } else {
                Reading::Done(Some(s.subrange(p, e)), e)
            }
        },
        Some(n) => if n > max {
            Reading::Failed(ParseError::Cut, p)
        } else if s.len() - p < n {
            Reading::Failed(
                ParseError::Incomplete(Needed::Size((n - (s.len() - p)) as usize)),
                p,
            )
        } else {
            Reading::Done(Some(s.subrange(p, p + n)), p + n)
        },
    }
}

/// The end of a frame, and one line end after it where it is at hand.
pub open spec fn end_at(s: Seq<u8>, p: int) -> Reading<()> {
    if p >= s.len() {
        Reading::Failed(ParseError::Incomplete(Needed::Unknown), p)
    } else if s[p] != NUL {
        Reading::Failed(ParseError::Backtrack, p)
    } else {
        match line_end(s, p + 1) {
            Reading::Done(_, q) => Reading::Done((), q),
            Reading::Failed(_, _) => Reading::Done((), p + 1),
        }
    }
}

/// The rest of a frame after its command, up to the byte that ends it.
pub open spec fn after_command(
    s: Seq<u8>,
    p: int,
    command: Seq<char>,
    version: StompVersion,
    max: nat,
) -> Reading<FrameView> {
    match headers_at(s, p, read_rules(command, version)) {
        Reading::Failed(e, q) => Reading::Failed(e, q),
        Reading::Done(headers, q) => match line_end(s, q) {
            Reading::Failed(e, r) => Reading::Failed(e, r),
            Reading::Done(_, r) => match body_at(s, r, announced_length(headers), max) {
                Reading::Failed(e, t) => Reading::Failed(e, t),
                Reading::Done(body, t) => Reading::Done(FrameView { command, headers, body }, t),
            },
        },
    }
}

/// A frame at the start of `s`, up to the byte that ends it.
pub open spec fn open_frame_at(s: Seq<u8>, version: StompVersion, max: nat) -> Reading<FrameView> {
    match command_at(s, 0) {
        Reading::Failed(e, q) => Reading::Failed(e, q),
        Reading::Done(command, q) => after_command(s, q, command, version, max),
    }
}

/// A frame at the start of `s`, with a body of at most `max` bytes.
pub open spec fn frame_at(s: Seq<u8>, version: StompVersion, max: nat) -> Reading<FrameView> {
    match open_frame_at(s, version, max) {
        Reading::Failed(e, q) => Reading::Failed(e, q),
        Reading::Done(frame, t) => match end_at(s, t) {
            Reading::Failed(e, u) => Reading::Failed(e, u),
            Reading::Done(_, u) => Reading::Done(frame, u),
        },
    }
}

/// A reading of a list of headers ends between its start and the end of the
/// input.
pub proof fn headers_bounds(s: Seq<u8>, p: int, rules: StompVersion)
    requires
        0 <= p <= s.len(),
    ensures
        match headers_at(s, p, rules) {
            Reading::Done(_, q) => p <= q <= s.len(),
            Reading::Failed(e, q) => p <= q <= s.len() && e is Incomplete,
        },
    decreases s.len() - p,
{
    let k = find(s, p, Stop::NameEnd);
    find_bounds(s, p, Stop::NameEnd);
    if k < s.len() {
        find_bounds(s, k + 1, Stop::ValueEnd);
    }
    if let Reading::Done(_, q) = header_at(s, p, rules) {
        headers_bounds(s, q, rules);
    }
}

/// Where line ends stop.
pub proof fn line_ends_bounds(s: Seq<u8>, p: int)
    requires
        0 <= p <= s.len(),
    ensures
        match line_ends(s, p) {
            Reading::Done(_, q) => p <= q < s.len() && line_end(s, q) == Reading::<()>::Failed(
                ParseError::Backtrack,
                q,
            ),
            Reading::Failed(e, q) => p <= q <= s.len() && e is Incomplete,
        },
    decreases s.len() - p,
{
    if let Reading::Done(_, q) = line_end(s, p) {
        line_ends_bounds(s, q);
    }
}

/// A frame ends inside the input, and holds its command at least.
pub proof fn open_frame_bounds(s: Seq<u8>, version: StompVersion, max: nat)
    ensures
        open_frame_at(s, version, max) matches Reading::Done(_, t) ==> 0 < t <= s.len(),
{
    line_ends_bounds(s, 0);
    if let Reading::Done(_, a) = line_ends(s, 0) {
        find_bounds(s, a, Stop::NonLetter);
    }
    if let Reading::Done(command, p) = command_at(s, 0) {
        let rules = read_rules(command, version);
        headers_bounds(s, p, rules);
        if let Reading::Done(headers, q) = headers_at(s, p, rules) {
            if let Reading::Done(_, r) = line_end(s, q) {
                find_bounds(s, r, Stop::FrameEnd);
            }
        }
    }
}

/// A frame takes at least one byte, and no more than there are.
pub proof fn frames_are_not_empty(s: Seq<u8>, version: StompVersion, max: nat)
    ensures
        frame_at(s, version, max) matches Reading::Done(_, n) ==> 0 < n <= s.len(),
{
    open_frame_bounds(s, version, max);
}

fn read_line_end(s: &[u8], p: usize) -> (end: Result<usize, ParseError>)
    requires
        p <= s@.len(),
    ensures
        match end {
            Ok(q) => line_end(s@, p as int) == Reading::Done((), q as int) && p < q <= s@.len(),
            Err(e) => line_end(s@, p as int) == Reading::<()>::Failed(e, p as int),
        },
{
    if p >= s.len() {
        return Err(ParseError::Incomplete(Needed::Unknown));
    }
    if s[p] == LF {
        return Ok(p + 1);
    }
    if s[p] != CR {
        return Err(ParseError::Backtrack);
    }
    if s.len() - p < 2 {
        return Err(ParseError::Incomplete(Needed::Unknown));
    }
    if s[p + 1] == LF {
        Ok(p + 2)
    } else {
        Err(ParseError::Backtrack)
    }
}

/// Finds the first position from `p` on at which a run ends.
pub fn find_stop(s: &[u8], p: usize, stop: Stop) -> (at: usize)
    requires
        p <= s@.len(),
    ensures
        at == find(s@, p as int, stop),
        p <= at <= s@.len(),
{
    let mut i: usize = p;
    while i < s.len()
        invariant
            p <= i <= s@.len(),
            find(s@, p as int, stop) == find(s@, i as int, stop),
        decreases s@.len() - i,
    {
        let b = s[i];
        let ends = match stop {
            Stop::NonLetter => !((65 <= b && b <= 90) || (97 <= b && b <= 122)),
            Stop::NameEnd => b == COLON || b == CR || b == LF,
            Stop::ValueEnd => b == CR || b == LF,
            Stop::FrameEnd => b == NUL,
            Stop::NonLineEnd => b != CR && b != LF,
        };
        if ends {
            return i;
        }
        i += 1;
    }
    i
}

/// Runs of ASCII letters are text.
proof fn letters_are_text(s: Seq<u8>)
    requires
        forall|i: int| 0 <= i < s.len() ==> is_letter(#[trigger] s[i]),
    ensures
        valid_utf8(s),
    decreases s.len(),
{
    if s.len() > 0 {
        let b = s[0];
        assert(is_letter(b));
        assert((b & 0x7f) as u32 == b as u32) by (bit_vector)
            requires
                b <= 122u8,
        ;
        let rest = s.subrange(1, s.len() as int);
        assert(pop_first_scalar(s) =~= rest);
        assert forall|i: int| 0 <= i < rest.len() implies is_letter(#[trigger] rest[i]) by {
            assert(rest[i] == s[i + 1]);
        }
        letters_are_text(rest);
    }
}

fn read_command<'b>(s: &'b [u8]) -> (read: (Result<&'b str, ParseError>, usize))
    ensures
        read.1 <= s@.len(),
        match read.0 {
            Ok(command) => command_at(s@, 0) == Reading::Done(command@, read.1 as int),
            Err(e) => command_at(s@, 0) == Reading::<Seq<char>>::Failed(e, read.1 as int),
        },
{
    let mut a: usize = 0;
    loop
        invariant
            a <= s@.len(),
            line_ends(s@, 0) == line_ends(s@, a as int),
        ensures
            a <= s@.len(),
            line_ends(s@, 0) == Reading::Done((), a as int),
        decreases s@.len() - a,
    {
        match read_line_end(s, a) {
            Ok(q) => {
                a = q;
            },
            Err(ParseError::Backtrack) => {
                break;
            },
            Err(e) => {
                return (Err(e), a);
            },
        }
    }
    let b = find_stop(s, a, Stop::NonLetter);
    if b >= s.len() {
        return (Err(ParseError::Incomplete(Needed::Size(1))), a);
    }
    if b == a {
        return (Err(ParseError::Backtrack), a);
    }
    match read_line_end(s, b) {
        Err(e) => (Err(e), b),
        Ok(c) => {
            let letters = slice_subrange(s, a, b);
            proof {
                find_bounds(s@, a as int, Stop::NonLetter);
                assert forall|i: int| 0 <= i < letters@.len() implies is_letter(
                    #[trigger] letters@[i],
                ) by {
                    assert(letters@[i] == s@[a + i]);
                }
                letters_are_text(letters@);
            }
            match text::utf8_str(letters) {
                Some(command) => (Ok(command), c),
                None => (Err(ParseError::Backtrack), a),
            }
        },
    }
}

/// Puts the bytes that escapes stand for in their place.
fn replace_escapes(input: &[u8], version: StompVersion) -> (bytes: Option<Vec<u8>>)
    ensures
        match bytes {
            Some(b) => escapes_replaced(input@, version) == Some(b@),
            None => escapes_replaced(input@, version) is None,
        },
{
    let mut out: Vec<u8> = Vec::new();
    let mut i: usize = 0;
    proof {
        assert(input@.skip(0) =~= input@);
        if let Some(r) = escapes_replaced(input@, version) {
            assert(Seq::<u8>::empty() + r =~= r);
        }
    }
    while i < input.len()
        invariant
            i <= input@.len(),
            escapes_replaced(input@, version) == prefixed(
                out@,
                escapes_replaced(input@.skip(i as int), version),
            ),
        decreases input@.len() - i,
    {
        let ghost front = out@;
        let ghost rest = input@.skip(i as int);
        let b = input[i];
        assert(rest[0] == b);
        if b == BACKSLASH {
            if input.len() - i < 2 {
                return None;
            }
            let code = input[i + 1];
            assert(rest[1] == code);
            let decoded: u8 = if code == 114 && version == StompVersion::V1_2 {
                CR
            } else if code == 110 {
                LF
            } else if code == 99 {
                COLON
            } else if code == BACKSLASH {
                BACKSLASH
            } else {
                return None;
            };
            out.push(decoded);
            proof {
                assert(rest.skip(2) =~= input@.skip(i as int + 2));
                if let Some(r) = escapes_replaced(rest.skip(2), version) {
                    assert(front + (seq![decoded] + r) =~= out@ + r);
                }
            }
            i += 2;
        } else {
            out.push(b);
            proof {
                assert(rest.skip(1) =~= input@.skip(i as int + 1));
                if let Some(r) = escapes_replaced(rest.skip(1), version) {
                    assert(front + (seq![b] + r) =~= out@ + r);
                }
            }
            i += 1;
        }
    }
    proof {
        assert(input@.skip(i as int) =~= seq![]);
        assert(out@ + Seq::<u8>::empty() =~= out@);
    }
    Some(out)
}

/// The text of a header's name or value that is written with escapes. It is
/// refused where it holds an escape that the version does not have, or bytes
/// that are no text.
pub fn unescape(input: &[u8], version: StompVersion) -> (text: Option<String>)
    ensures
        match text {
            Some(t) => encoded_text(escapes_replaced(input@, version)) == Some(t@),
            None => encoded_text(escapes_replaced(input@, version)) is None,
        },
{
    match replace_escapes(input, version) {
        Some(bytes) => match text::utf8_str(bytes.as_slice()) {
            Some(t) => Some(t.to_owned()),
            None => None,
        },
        None => None,
    }
}

/// The text that the bytes of a header's name or value stand for.
pub fn parse_header_value(input: &[u8], version: StompVersion) -> (value: Option<String>)
    ensures
        match value {
            Some(v) => header_text(input@, version) == Some(v@),
            None => header_text(input@, version) is None,
        },
{
    match version {
        StompVersion::V1_0 => match text::utf8_str(input) {
            Some(t) => Some(t.to_owned()),
            None => None,
        },
        StompVersion::V1_1 | StompVersion::V1_2 => unescape(input, version),
    }
}

/// Reads one header.
fn parse_header(s: &[u8], p: usize, rules: StompVersion) -> (read: (
    Result<(String, String), ParseError>,
    usize,
))
    requires
        p <= s@.len(),
    ensures
        read.1 <= s@.len(),
        match read.0 {
            Ok(h) => header_at(s@, p as int, rules) == Reading::Done(
                frame::header_view(h),
                read.1 as int,
            ) && p < read.1,
            Err(e) => header_at(s@, p as int, rules) == Reading::<Header>::Failed(e, read.1 as int),
        },
{
    let k = find_stop(s, p, Stop::NameEnd);
    if k >= s.len() {
        return (Err(ParseError::Incomplete(Needed::Size(1))), p);
    }
    let name = match parse_header_value(slice_subrange(s, p, k), rules) {
        Some(name) => name,
        None => {
            return (Err(ParseError::Backtrack), p);
        },
    };
    if s[k] != COLON {
        return (Err(ParseError::Backtrack), k);
    }
    let v = find_stop(s, k + 1, Stop::ValueEnd);
    if v >= s.len() {
        return (Err(ParseError::Incomplete(Needed::Unknown)), k + 1);
    }
    match read_line_end(s, v) {
        Err(e) => (Err(e), v),
        Ok(q) => match parse_header_value(slice_subrange(s, k + 1, v), rules) {
            Some(value) => (Ok((name, value)), q),
            None => (Err(ParseError::Backtrack), k + 1),
        },
    }
}

fn read_headers(s: &[u8], start: usize, rules: StompVersion) -> (read: (
    Result<Vec<(String, String)>, ParseError>,
    usize,
))
    requires
        start <= s@.len(),
    ensures
        read.1 <= s@.len(),
        match read.0 {
            Ok(hs) => headers_at(s@, start as int, rules) == Reading::Done(
                frame::headers_view(hs@),
                read.1 as int,
            ),
            Err(e) => headers_at(s@, start as int, rules) == Reading::<Seq<Header>>::Failed(
                e,
                read.1 as int,
            ),
        },
{
    let mut headers: Vec<(String, String)> = Vec::new();
    let mut p: usize = start;
    proof {
        if let Reading::Done(hs, q) = headers_at(s@, start as int, rules) {
            assert(frame::headers_view(headers@) + hs =~= hs);
        }
    }
    loop
        invariant
            p <= s@.len(),
            headers_at(s@, start as int, rules) == preceded(
                frame::headers_view(headers@),
                headers_at(s@, p as int, rules),
            ),
        decreases s@.len() - p,
    {
        let ghost front = frame::headers_view(headers@);
        let (header, q) = parse_header(s, p, rules);
        match header {
            Ok(h) => {
                let ghost hv = frame::header_view(h);
                headers.push(h);
                proof {
                    assert(frame::headers_view(headers@) =~= front.push(hv));
                    if let Reading::Done(hs, r) = headers_at(s@, q as int, rules) {
                        assert(front + (seq![hv] + hs) =~= front.push(hv) + hs);
                    }
                }
                p = q;
            },
            Err(ParseError::Backtrack) => {
                assert(front + Seq::<Header>::empty() =~= front);
                return (Ok(headers), p);
            },
            Err(e) => {
                return (Err(e), q);
            },
        }
    }
}

/// The length of the body that the headers announce.
pub fn get_content_length(headers: &Vec<(String, String)>) -> (length: Option<usize>)
    ensures
        match length {
            Some(n) => announced_length(frame::headers_view(headers@)) == Some(n as nat),
            None => announced_length(frame::headers_view(headers@)) is None,
        },
{
    match frame::find_header(headers, "content-length") {
        Some(i) => {
            let digits = text::chars_of(headers[i].1.as_str());
            match text::read_unsigned(&digits, usize::MAX as u64) {
                Some(n) => Some(n as usize),
                None => None,
            }
        },
        None => None,
    }
}

/// The bytes, unless there are none.
pub fn map_empty_slice(s: &[u8]) -> (bytes: Option<&[u8]>)
    ensures
        match bytes {
            Some(b) => s@.len() > 0 && b@ == s@,
            None => s@.len() == 0,
        },
{
    if s.len() == 0 {
        None
    } else {
        Some(s)
    }
}

fn read_body<'b>(s: &'b [u8], p: usize, length: Option<usize>, max: usize) -> (read: (
    Result<Option<&'b [u8]>, ParseError>,
    usize,
))
    requires
        p <= s@.len(),
    ensures
        read.1 <= s@.len(),
        ({
            let announced = match length {
                Some(n) => Some(n as nat),
                None => None,
            };
            match read.0 {
                Ok(Some(b)) => body_at(s@, p as int, announced, max as nat) == Reading::Done(
                    Some(b@),
                    read.1 as int,
                ),
                Ok(None) => body_at(s@, p as int, announced, max as nat) == Reading::Done(
                    None::<Seq<u8>>,
                    read.1 as int,
                ),
                Err(e) => body_at(s@, p as int, announced, max as nat) == Reading::<
                    Option<Seq<u8>>,
                >::Failed(e, read.1 as int),
            }
        }),
{
    match length {
        None => {
            let e = find_stop(s, p, Stop::FrameEnd);
            if e >= s.len() {
                return (Err(ParseError::Incomplete(Needed::Unknown)), p);
            }
            (Ok(map_empty_slice(slice_subrange(s, p, e))), e)
        },
        Some(n) => {
            if n > max {
                return (Err(ParseError::Cut), p);
            }
            if s.len() - p < n {
                return (Err(ParseError::Incomplete(Needed::Size(n - (s.len() - p)))), p);
            }
            (Ok(Some(slice_subrange(s, p, p + n))), p + n)
        },
    }
}

fn read_end(s: &[u8], p: usize) -> (end: Result<usize, ParseError>)
    requires
        p <= s@.len(),
    ensures
        match end {
            Ok(q) => end_at(s@, p as int) == Reading::Done((), q as int) && p < q <= s@.len(),
            Err(e) => end_at(s@, p as int) == Reading::<()>::Failed(e, p as int),
        },
{
    if p >= s.len() {
        return Err(ParseError::Incomplete(Needed::Unknown));
    }
    if s[p] != NUL {
        return Err(ParseError::Backtrack);
    }
    match read_line_end(s, p + 1) {
        Ok(q) => Ok(q),
        Err(_) => Ok(p + 1),
    }
}

fn read_frame<'b>(s: &'b [u8], version: StompVersion, max_body_size: usize) -> (read: (
    Result<StompFrame<'b>, ParseError>,
    usize,
))
    ensures
        read.1 <= s@.len(),
        match read.0 {
            Ok(frame) => frame_at(s@, version, max_body_size as nat) == Reading::Done(
                frame@,
                read.1 as int,
            ),
            Err(e) => frame_at(s@, version, max_body_size as nat) == Reading::<FrameView>::Failed(
                e,
                read.1 as int,
            ),
        },
{
    let (command, p) = match read_command(s) {
        (Ok(command), p) => (command, p),
        (Err(e), p) => {
            return (Err(e), p);
        },
    };
    let rules = if text::text_eq(command, "CONNECTED") || text::text_eq(command, "STOMP") {
        StompVersion::V1_0
    } else {
        version
    };
    let (headers, q) = match read_headers(s, p, rules) {
        (Ok(headers), q) => (headers, q),
        (Err(e), q) => {
            return (Err(e), q);
        },
    };
    let r = match read_line_end(s, q) {
        Ok(r) => r,
        Err(e) => {
            return (Err(e), q);
        },
    };
    let length = get_content_length(&headers);
    let (body, t) = match read_body(s, r, length, max_body_size) {
        (Ok(body), t) => (body, t),
        (Err(e), t) => {
            return (Err(e), t);
        },
    };
    match read_end(s, t) {
        Err(e) => (Err(e), t),
        Ok(u) => {
            let body: Option<Cow<'b, [u8]>> = match body {
                Some(b) => Some(Cow::Borrowed(b)),
                None => None,
            };
            let frame = StompFrame { command: Cow::Borrowed(command), headers, body };
            (Ok(frame), u)
        },
    }
}

/// Reads one frame off the front of `input`. The input is left at the position
/// after the frame, or where reading stopped.
pub fn parse_frame_stream<'b>(
    input: &mut &'b [u8],
    version: StompVersion,
    max_body_size: usize,
) -> (frame: Result<StompFrame<'b>, ParseError>)
    ensures
        match frame_at((*old(input))@, version, max_body_size as nat) {
            Reading::Done(f, n) => {
                &&& frame matches Ok(g) && g@ == f
                &&& 0 <= n <= (*old(input))@.len()
                &&& (*final(input))@ == (*old(input))@.skip(n)
            },
            Reading::Failed(e, n) => {
                &&& frame matches Err(d) && d == e
                &&& 0 <= n <= (*old(input))@.len()
                &&& (*final(input))@ == (*old(input))@.skip(n)
            },
        },
{
    let whole: &'b [u8] = *input;
    let (frame, n) = read_frame(whole, version, max_body_size);
    *input = slice_subrange(whole, n, whole.len());
    assert((*input)@ =~= whole@.skip(n as int));
    frame
}

/// What a parsing function hands back for an outcome.
pub open spec fn parsed_as(
    input: Seq<u8>,
    outcome: Reading<FrameView>,
    result: Result<(&[u8], StompFrame<'_>), ParseError>,
) -> bool {
    match outcome {
        Reading::Done(f, n) => {
            &&& 0 <= n <= input.len()
            &&& result matches Ok((rest, frame)) && rest@ == input.skip(n) && frame@ == f
        },
        Reading::Failed(e, _) => result matches Err(d) && d == e,
    }
}

/// Reads one frame of a given version, with a body of at most `max_body_size`
/// bytes, off the front of `input`. Hands back what follows it.
pub fn parse_frame_with_version_and_max_body_size(
    input: &'_ [u8],
    version: StompVersion,
    max_body_size: usize,
) -> (result: Result<(&'_ [u8], StompFrame<'_>), ParseError>)
    ensures
        parsed_as(input@, frame_at(input@, version, max_body_size as nat), result),
{
    let mut rest = input;
    match parse_frame_stream(&mut rest, version, max_body_size) {
        Ok(frame) => Ok((rest, frame)),
        Err(e) => Err(e),
    }
}

/// Reads one frame of a given version off the front of `input`.
pub fn parse_frame_with_version(input: &'_ [u8], version: StompVersion) -> (result: Result<
    (&'_ [u8], StompFrame<'_>),
    ParseError,
>)
    ensures
        parsed_as(input@, frame_at(input@, version, DEFAULT_MAX_BODY_SIZE as nat), result),
{
    parse_frame_with_version_and_max_body_size(input, version, DEFAULT_MAX_BODY_SIZE)
}

/// Reads one frame of the newest version off the front of `input`.
pub fn parse_frame(input: &'_ [u8]) -> (result: Result<(&'_ [u8], StompFrame<'_>), ParseError>)
    ensures
        parsed_as(
            input@,
            frame_at(input@, StompVersion::V1_2, DEFAULT_MAX_BODY_SIZE as nat),
            result,
        ),
{
    parse_frame_with_version_and_max_body_size(
        input,
        StompVersion::V1_2,
        DEFAULT_MAX_BODY_SIZE,
    )
}

} // verus!
