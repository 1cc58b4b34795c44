//! What a frame is on the wire, for those who read it and for those who write it.

use crate::codec::{self, Received};
use crate::encode;
use crate::frame::{self, FrameView, Header, StompFrame, StompVersion};
use crate::parse::{self, Needed, ParseError, Reading, Stop};
use crate::text;
use crate::wire;
use vstd::prelude::*;
use vstd::utf8::*;

verus! {

/// What is written for the bytes of a header, one after the other: in versions
/// 1.1 and 1.2 a backslash and a letter for a line feed and a colon, two
/// backslashes for one, and in version 1.2 a backslash and a letter for a carriage
/// return. All else is written as it is, and in version 1.0 everything.
pub proof fn escapes_are_written_byte_by_byte(
    a: Seq<u8>,
    b: Seq<u8>,
    x: u8,
    rules: StompVersion,
)
    ensures
        encode::escape(Seq::empty(), rules) == Seq::<u8>::empty(),
        encode::escape(a + b, rules) == encode::escape(a, rules) + encode::escape(b, rules),
        encode::escape(seq![x], rules) == if rules == StompVersion::V1_0 {
            seq![x]
        } else if x == 10 {
            seq![92u8, 110u8]
        } else if x == 58 {
            seq![92u8, 99u8]
        } else if x == 92 {
            seq![92u8, 92u8]
        } else if x == 13 && rules == StompVersion::V1_2 {
            seq![92u8, 114u8]
        } else {
            seq![x]
        },
    decreases a.len(),
{
    if a.len() == 0 {
        assert(a + b =~= b);
        assert(encode::escape(a, rules) + encode::escape(b, rules) =~= encode::escape(b, rules));
    } else {
        escapes_are_written_byte_by_byte(a.drop_first(), b, x, rules);
        assert((a + b).drop_first() =~= a.drop_first() + b);
        assert(encode::escape(a + b, rules) =~= encode::escape(a, rules) + encode::escape(
            b,
            rules,
        ));
    }
    assert(seq![x].drop_first() =~= Seq::<u8>::empty());
    assert(encode::escape(seq![x], rules) =~= encode::escape_byte(x, rules));
}

/// Headers are written one line each: the name, a colon, the value, and a line
/// feed.
pub proof fn headers_are_written_line_by_line(
    headers: Seq<Header>,
    last: Header,
    rules: StompVersion,
)
    ensures
        encode::header_lines(Seq::empty(), rules) == Seq::<u8>::empty(),
        encode::header_lines(headers.push(last), rules) == encode::header_lines(headers, rules)
            + encode::escape(encode_utf8(last.0), rules) + seq![58u8] + encode::escape(
            encode_utf8(last.1),
            rules,
        ) + seq![10u8],
{
    assert(headers.push(last).drop_last() =~= headers);
    assert(encode::header_lines(headers.push(last), rules) =~= encode::header_lines(
        headers,
        rules,
    ) + encode::escape(encode_utf8(last.0), rules) + seq![58u8] + encode::escape(
        encode_utf8(last.1),
        rules,
    ) + seq![10u8]);
}

/// A frame is written as its command on a line, its headers, an empty line, its
/// body, and a zero byte. A header `content-length` gives the length of the body,
/// after all others, and no other header of that name is written. Frames that open
/// a connection are written without escapes, and so is everything in version 1.0.
pub proof fn frames_are_written_in_this_form(frame: FrameView, version: StompVersion)
    ensures
        ({
            let opens = frame.command == "CONNECT"@ || frame.command == "CONNECTED"@
                || frame.command == "STOMP"@;
            let rules = if opens {
                StompVersion::V1_0
            } else {
                version
            };
            let own = frame.headers.filter(|h: Header| h.0 != "content-length"@);
            let front = encode_utf8(frame.command) + seq![10u8];
            match frame.body {
                None => encode::frame_bytes(frame, version) == front + encode::header_lines(
                    own,
                    rules,
                ) + seq![10u8, 0u8],
                Some(body) => encode::frame_bytes(frame, version) == front + encode::header_lines(
                    own.push(("content-length"@, text::decimal(body.len()))),
                    rules,
                ) + seq![10u8] + body + seq![0u8],
            }
        }),
{
    let own = frame.headers.filter(|h: Header| h.0 != "content-length"@);
    assert(own == frame::without(frame.headers, "content-length"@));
    let rules = encode::write_rules(frame.command, version);
    let front = encode_utf8(frame.command) + seq![10u8];
    if frame.body is None {
        assert(encode::frame_bytes(frame, version) =~= front + encode::header_lines(own, rules)
            + seq![10u8, 0u8]);
    }
}

/// How escapes are read: the first of them, after bytes that are none, and then
/// the rest. A backslash and `n`, `c`, or a backslash stand for a line feed, a
/// colon, and a backslash; in version 1.2 one and `r` for a carriage return. A
/// backslash and anything else, or nothing, is refused.
pub proof fn escapes_are_read_one_by_one(
    plain: Seq<u8>,
    code: u8,
    rest: Seq<u8>,
    rules: StompVersion,
)
    requires
        !plain.contains(92u8),
    ensures
        parse::escapes_replaced(plain, rules) == Some(plain),
        parse::escapes_replaced(plain.push(92), rules) is None,
        ({
            let meant: Option<u8> = if code == 110 {
                Some(10)
            } else if code == 99 {
                Some(58)
            } else if code == 92 {
                Some(92)
            } else if code == 114 && rules == StompVersion::V1_2 {
                Some(13)
            } else {
                None
            };
            parse::escapes_replaced(plain + seq![92u8, code] + rest, rules) == match (
                meant,
                parse::escapes_replaced(rest, rules),
            ) {
                (Some(b), Some(r)) => Some(plain + seq![b] + r),
                _ => None,
            }
        }),
    decreases plain.len(),
{
    let s = plain + seq![92u8, code] + rest;
    let open = plain.push(92u8);
    if plain.len() == 0 {
        assert(plain =~= Seq::<u8>::empty());
        assert(s.skip(2) =~= rest);
        assert(s[0] == 92 && s[1] == code);
        if let Some(b) = parse::escaped_byte(code, rules) {
            if let Some(r) = parse::escapes_replaced(rest, rules) {
                assert(plain + seq![b] + r =~= seq![b] + r);
            }
        }
    } else {
        let tail = plain.skip(1);
        assert(plain[0] != 92) by {
            assert(plain.contains(plain[0]));
        }
        assert(!tail.contains(92u8)) by {
            if tail.contains(92u8) {
                let j = choose|j: int| 0 <= j < tail.len() && tail[j] == 92u8;
                assert(plain[j + 1] == 92u8);
            }
        }
        escapes_are_read_one_by_one(tail, code, rest, rules);
        assert(s.skip(1) =~= tail + seq![92u8, code] + rest);
        assert(open.skip(1) =~= tail.push(92u8));
        assert(s[0] == plain[0] && open[0] == plain[0]);
        assert(seq![plain[0]] + tail =~= plain);
        if let Some(b) = parse::escaped_byte(code, rules) {
            if let Some(r) = parse::escapes_replaced(rest, rules) {
                assert(seq![plain[0]] + (tail + seq![b] + r) =~= plain + seq![b] + r);
            }
        }
    }
}

/// Which frames are read without escapes: all in version 1.0, and in any version
/// the answer to a request to connect and the command `STOMP`. What is read without
/// escapes is the text that the bytes are; with them, the text that the bytes are
/// after each escape is replaced.
pub proof fn escapes_are_read_by_version(
    command: Seq<char>,
    version: StompVersion,
    bytes: Seq<u8>,
)
    ensures
        ({
            let plain = version == StompVersion::V1_0 || command == "CONNECTED"@ || command
                == "STOMP"@;
            let meant = if plain {
                Some(bytes)
            } else {
                parse::escapes_replaced(bytes, version)
            };
            parse::header_text(bytes, parse::read_rules(command, version)) == match meant {
                Some(b) => if valid_utf8(b) {
                    Some(decode_utf8(b))
                } else {
                    None
                },
                None => None,
            }
        }),
{
}

/// Whether some bytes are one line end: a line feed, with a carriage return before
/// it or without.
pub open spec fn is_line_end(bytes: Seq<u8>) -> bool {
    bytes == seq![10u8] || bytes == seq![13u8, 10u8]
}

/// Pieces in a row.
pub open spec fn in_a_row(pieces: Seq<Seq<u8>>) -> Seq<u8>
    decreases pieces.len(),
{
    if pieces.len() == 0 {
        seq![]
    } else {
        pieces[0] + in_a_row(pieces.drop_first())
    }
}

/// A line that holds a header: its name, its value, and how the line ends.
pub struct HeaderLine {
    pub name: Seq<u8>,
    pub value: Seq<u8>,
    pub end: Seq<u8>,
}

/// The bytes of lines in a row.
pub open spec fn lines_in_a_row(lines: Seq<HeaderLine>) -> Seq<u8>
    decreases lines.len(),
{
    if lines.len() == 0 {
        seq![]
    } else {
        lines[0].name + seq![58u8] + lines[0].value + lines[0].end + lines_in_a_row(
            lines.drop_first(),
        )
    }
}

/// Whether lines hold these headers: no name holds a colon or part of a line end,
/// no value holds part of a line end, and name and value stand for those of the
/// header.
pub open spec fn hold(lines: Seq<HeaderLine>, headers: Seq<Header>, rules: StompVersion) -> bool {
    &&& lines.len() == headers.len()
    &&& forall|i: int| 0 <= i < lines.len() ==> holds(#[trigger] lines[i], headers[i], rules)
}

/// Whether a line holds a header.
pub open spec fn holds(line: HeaderLine, header: Header, rules: StompVersion) -> bool {
    &&& !line.name.contains(58u8) && !line.name.contains(13u8) && !line.name.contains(10u8)
    &&& !line.value.contains(13u8) && !line.value.contains(10u8)
    &&& is_line_end(line.end)
    &&& parse::header_text(line.name, rules) == Some(header.0)
    &&& parse::header_text(line.value, rules) == Some(header.1)
}

/// The bytes of a frame up to its body.
pub open spec fn front_of_a_frame(
    ends: Seq<Seq<u8>>,
    word: Seq<u8>,
    end: Seq<u8>,
    lines: Seq<HeaderLine>,
    empty: Seq<u8>,
) -> Seq<u8> {
    in_a_row(ends) + word + end + lines_in_a_row(lines) + empty
}

/// A byte of a piece that stands somewhere.
proof fn byte_at(s: Seq<u8>, p: int, piece: Seq<u8>, i: int)
    requires
        wire::stands_at(s, p, piece),
        0 <= i < piece.len(),
    ensures
        s[p + i] == piece[i],
{
    assert(s.subrange(p, p + piece.len())[i] == piece[i]);
}

proof fn line_end_is_read(s: Seq<u8>, p: int, e: Seq<u8>)
    requires
        wire::stands_at(s, p, e),
        is_line_end(e),
    ensures
        parse::line_end(s, p) == Reading::Done((), p + e.len()),
        s[p] == 13 || s[p] == 10,
        e.len() > 0,
{
    byte_at(s, p, e, 0);
    if e == seq![13u8, 10u8] {
        byte_at(s, p, e, 1);
    }
}

proof fn line_ends_are_read(s: Seq<u8>, p: int, ends: Seq<Seq<u8>>)
    requires
        wire::stands_at(s, p, in_a_row(ends)),
        forall|i: int| 0 <= i < ends.len() ==> is_line_end(#[trigger] ends[i]),
        p + in_a_row(ends).len() < s.len(),
        s[p + in_a_row(ends).len()] != 13,
        s[p + in_a_row(ends).len()] != 10,
    ensures
        parse::line_ends(s, p) == Reading::Done((), p + in_a_row(ends).len()),
    decreases ends.len(),
{
    if ends.len() > 0 {
        let rest = ends.drop_first();
        assert(is_line_end(ends[0]));
        wire::stands_in_parts(s, p, ends[0], in_a_row(rest));
        line_end_is_read(s, p, ends[0]);
        assert forall|i: int| 0 <= i < rest.len() implies is_line_end(#[trigger] rest[i]) by {
            assert(rest[i] == ends[i + 1]);
        }
        line_ends_are_read(s, p + ends[0].len(), rest);
    }
}

proof fn header_line_is_read(
    s: Seq<u8>,
    p: int,
    line: HeaderLine,
    header: Header,
    rules: StompVersion,
)
    requires
        wire::stands_at(s, p, line.name + seq![58u8] + line.value + line.end),
        holds(line, header, rules),
    ensures
        parse::header_at(s, p, rules) == Reading::Done(
            header,
            p + line.name.len() + 1 + line.value.len() + line.end.len(),
        ),
{
    let name = line.name;
    let value = line.value;
    wire::stands_in_parts(s, p, name + seq![58u8] + value, line.end);
    wire::stands_in_parts(s, p, name + seq![58u8], value);
    wire::stands_in_parts(s, p, name, seq![58u8]);
    let k = p + name.len();
    let v = k + 1 + value.len();
    byte_at(s, k, seq![58u8], 0);
    line_end_is_read(s, v, line.end);
    assert forall|i: int| p <= i < k implies !Stop::NameEnd.at(#[trigger] s[i]) by {
        byte_at(s, p, name, i - p);
        assert(name.contains(name[i - p]));
    }
    wire::find_is(s, p, Stop::NameEnd, k);
    assert forall|i: int| k + 1 <= i < v implies !Stop::ValueEnd.at(#[trigger] s[i]) by {
        byte_at(s, k + 1, value, i - k - 1);
        assert(value.contains(value[i - k - 1]));
    }
    wire::find_is(s, k + 1, Stop::ValueEnd, v);
}

proof fn header_lines_are_read(
    s: Seq<u8>,
    p: int,
    lines: Seq<HeaderLine>,
    headers: Seq<Header>,
    rules: StompVersion,
)
    requires
        wire::stands_at(s, p, lines_in_a_row(lines)),
        hold(lines, headers, rules),
    ensures
        parse::headers_at(s, p, rules) == parse::preceded(
            headers,
            parse::headers_at(s, p + lines_in_a_row(lines).len(), rules),
        ),
    decreases lines.len(),
{
    let after = parse::headers_at(s, p + lines_in_a_row(lines).len(), rules);
    if lines.len() == 0 {
        if let Reading::Done(more, _) = after {
            assert(headers + more =~= more);
        }
    } else {
        let first = lines[0].name + seq![58u8] + lines[0].value + lines[0].end;
        let rest = lines.drop_first();
        let others = headers.drop_first();
        wire::stands_in_parts(s, p, first, lines_in_a_row(rest));
        assert(holds(lines[0], headers[0], rules));
        header_line_is_read(s, p, lines[0], headers[0], rules);
        assert forall|i: int| 0 <= i < rest.len() implies holds(
            #[trigger] rest[i],
            others[i],
            rules,
        ) by {
            assert(holds(lines[i + 1], headers[i + 1], rules));
        }
        header_lines_are_read(s, p + first.len(), rest, others, rules);
        if let Reading::Done(more, _) = after {
            assert(seq![headers[0]] + (others + more) =~= headers + more);
        }
    }
}

/// The front of a frame is read up to its body, wherever the body ends.
proof fn front_is_read(
    s: Seq<u8>,
    ends: Seq<Seq<u8>>,
    word: Seq<u8>,
    end: Seq<u8>,
    lines: Seq<HeaderLine>,
    empty: Seq<u8>,
    headers: Seq<Header>,
    version: StompVersion,
    max: nat,
)
    requires
        wire::stands_at(s, 0, front_of_a_frame(ends, word, end, lines, empty)),
        forall|i: int| 0 <= i < ends.len() ==> is_line_end(#[trigger] ends[i]),
        word.len() > 0,
        forall|i: int|
            0 <= i < word.len() ==> 65 <= #[trigger] word[i] <= 90 || 97 <= word[i] <= 122,
        is_line_end(end),
        is_line_end(empty),
        hold(lines, headers, parse::read_rules(decode_utf8(word), version)),
    ensures
        ({
            let r = front_of_a_frame(ends, word, end, lines, empty).len() as int;
            parse::open_frame_at(s, version, max) == match parse::body_at(
                s,
                r,
                parse::announced_length(headers),
                max,
            ) {
                Reading::Failed(e, t) => Reading::Failed(e, t),
                Reading::Done(body, t) => Reading::Done(
                    FrameView { command: decode_utf8(word), headers, body },
                    t,
                ),
            }
        }),
{
    let rules = parse::read_rules(decode_utf8(word), version);
    let start = in_a_row(ends);
    wire::stands_in_parts(s, 0, start + word + end + lines_in_a_row(lines), empty);
    wire::stands_in_parts(s, 0, start + word + end, lines_in_a_row(lines));
    wire::stands_in_parts(s, 0, start + word, end);
    wire::stands_in_parts(s, 0, start, word);
    let a = start.len() as int;
    let b = a + word.len();
    let c = b + end.len();
    let q = c + lines_in_a_row(lines).len();
    byte_at(s, a, word, 0);
    assert(65 <= word[0] <= 90 || 97 <= word[0] <= 122);
    line_ends_are_read(s, 0, ends);
    line_end_is_read(s, b, end);
    assert forall|i: int| a <= i < b implies !Stop::NonLetter.at(#[trigger] s[i]) by {
        byte_at(s, a, word, i - a);
        assert(65 <= word[i - a] <= 90 || 97 <= word[i - a] <= 122);
    }
    wire::find_is(s, a, Stop::NonLetter, b);
    assert(s.subrange(a, b) == word);
    assert(parse::command_at(s, 0) == Reading::Done(decode_utf8(word), c));
    header_lines_are_read(s, c, lines, headers, rules);
    line_end_is_read(s, q, empty);
    wire::find_is(s, q, Stop::NameEnd, q);
    assert(s.subrange(q, q) =~= Seq::<u8>::empty());
    assert(headers + Seq::<Header>::empty() =~= headers);
}

/// What a frame is. Line ends may come before it. It has a command of one or more
/// letters on a line, headers on a line each, an empty line, a body, and a zero
/// byte. Each line ends in a line feed, with a carriage return before it or
/// without. The body is as long as the first header `content-length` says, if that
/// is a number, and ends at the first zero byte otherwise; an empty one whose
/// length was not given is none. One line end after a frame goes with it, if it is
/// there. Whatever has this form is read as that frame.
pub proof fn frames_are_read_in_this_form(
    ends: Seq<Seq<u8>>,
    word: Seq<u8>,
    end: Seq<u8>,
    lines: Seq<HeaderLine>,
    empty: Seq<u8>,
    headers: Seq<Header>,
    body: Seq<u8>,
    rest: Seq<u8>,
    version: StompVersion,
    max: nat,
)
    requires
        forall|i: int| 0 <= i < ends.len() ==> is_line_end(#[trigger] ends[i]),
        word.len() > 0,
        forall|i: int|
            0 <= i < word.len() ==> 65 <= #[trigger] word[i] <= 90 || 97 <= word[i] <= 122,
        is_line_end(end),
        is_line_end(empty),
        hold(lines, headers, parse::read_rules(decode_utf8(word), version)),
        match frame::header(headers, "content-length"@) {
            Some(value) => match text::parse_unsigned(value, usize::MAX as nat) {
                Some(n) => n == body.len() && n <= max,
                None => !body.contains(0u8),
            },
            None => !body.contains(0u8),
        },
    ensures
        ({
            let front = front_of_a_frame(ends, word, end, lines, empty);
            let announced = match frame::header(headers, "content-length"@) {
                Some(value) => text::parse_unsigned(value, usize::MAX as nat) is Some,
                None => false,
            };
            let after: int = if rest.len() > 0 && rest[0] == 10 {
                1
            } else if rest.len() > 1 && rest[0] == 13 && rest[1] == 10 {
                2
            } else {
                0
            };
            parse::frame_at(front + body + seq![0u8] + rest, version, max) == Reading::Done(
                FrameView {
                    command: decode_utf8(word),
                    headers,
                    body: if announced || body.len() > 0 {
                        Some(body)
                    } else {
                        None
                    },
                },
                front.len() + body.len() + 1 + after,
            )
        }),
{
    let front = front_of_a_frame(ends, word, end, lines, empty);
    let s = front + body + seq![0u8] + rest;
    let r = front.len() as int;
    let t = r + body.len();
    assert(s.subrange(0, r) =~= front);
    front_is_read(s, ends, word, end, lines, empty, headers, version, max);
    assert(s[t] == 0);
    assert(s.subrange(r, t) =~= body);
    if parse::announced_length(headers) is None {
        assert forall|i: int| r <= i < t implies !Stop::FrameEnd.at(#[trigger] s[i]) by {
            assert(s[i] == body[i - r]);
            assert(body.contains(body[i - r]));
        }
        wire::find_is(s, r, Stop::FrameEnd, t);
    }
    assert(forall|i: int| 0 <= i < rest.len() ==> s[t + 1 + i] == #[trigger] rest[i]);
    if rest.len() > 0 {
        assert(s[t + 1] == rest[0]);
    }
    if rest.len() > 1 {
        assert(s[t + 2] == rest[1]);
    }
}

/// Whether a reading fails with an error.
pub open spec fn fails(reading: Reading<FrameView>, error: ParseError) -> bool {
    reading is Failed && reading->Failed_0 == error
}

/// A frame that announces a body larger than is allowed is refused at once,
/// whatever follows. One whose body is not followed by a zero byte where its length
/// says is refused too; and while bytes of it are missing, as many are asked for.
pub proof fn bodies_must_be_as_announced(
    ends: Seq<Seq<u8>>,
    word: Seq<u8>,
    end: Seq<u8>,
    lines: Seq<HeaderLine>,
    empty: Seq<u8>,
    headers: Seq<Header>,
    rest: Seq<u8>,
    version: StompVersion,
    max: nat,
    n: nat,
)
    requires
        forall|i: int| 0 <= i < ends.len() ==> is_line_end(#[trigger] ends[i]),
        word.len() > 0,
        forall|i: int|
            0 <= i < word.len() ==> 65 <= #[trigger] word[i] <= 90 || 97 <= word[i] <= 122,
        is_line_end(end),
        is_line_end(empty),
        hold(lines, headers, parse::read_rules(decode_utf8(word), version)),
        frame::header(headers, "content-length"@) is Some,
        text::parse_unsigned(
            frame::header(headers, "content-length"@)->0,
            usize::MAX as nat,
        ) == Some(n),
    ensures
        ({
            let front = front_of_a_frame(ends, word, end, lines, empty);
            let read = parse::frame_at(front + rest, version, max);
            &&& n > max ==> fails(read, ParseError::Cut)
            &&& n <= max && n < rest.len() && rest[n as int] != 0 ==> fails(
                read,
                ParseError::Backtrack,
            )
            &&& n <= max && n == rest.len() ==> fails(read, ParseError::Incomplete(Needed::Unknown))
            &&& n <= max && n > rest.len() ==> fails(
                read,
                ParseError::Incomplete(Needed::Size((n - rest.len()) as usize)),
            )
        }),
{
    let front = front_of_a_frame(ends, word, end, lines, empty);
    let s = front + rest;
    assert(s.subrange(0, front.len() as int) =~= front);
    front_is_read(s, ends, word, end, lines, empty, headers, version, max);
    if n <= max && n < rest.len() {
        assert(s[(front.len() + n) as int] == rest[n as int]);
    }
}

/// A frame begins with a letter, line ends aside: all else is refused. So is a
/// command that is not followed by a line end.
pub proof fn commands_are_letters(
    ends: Seq<Seq<u8>>,
    word: Seq<u8>,
    b: u8,
    rest: Seq<u8>,
    version: StompVersion,
    max: nat,
)
    requires
        forall|i: int| 0 <= i < ends.len() ==> is_line_end(#[trigger] ends[i]),
        forall|i: int|
            0 <= i < word.len() ==> 65 <= #[trigger] word[i] <= 90 || 97 <= word[i] <= 122,
        !(65 <= b <= 90 || 97 <= b <= 122),
        b != 13 && b != 10,
    ensures
        parse::frame_at(in_a_row(ends) + word + seq![b] + rest, version, max) matches
            Reading::Failed(ParseError::Backtrack, _),
{
    let start = in_a_row(ends);
    let s = start + word + seq![b] + rest;
    let a = start.len() as int;
    let k = a + word.len();
    assert(s.subrange(0, a) =~= start);
    assert(s[k] == b);
    if word.len() > 0 {
        assert(s[a] == word[0]);
        assert(65 <= word[0] <= 90 || 97 <= word[0] <= 122);
    }
    line_ends_are_read(s, 0, ends);
    assert forall|i: int| a <= i < k implies !Stop::NonLetter.at(#[trigger] s[i]) by {
        assert(s[i] == word[i - a]);
        assert(65 <= word[i - a] <= 90 || 97 <= word[i - a] <= 122);
    }
    wire::find_is(s, a, Stop::NonLetter, k);
}

/// A line among the headers that holds no colon is refused.
pub proof fn headers_have_a_colon(
    ends: Seq<Seq<u8>>,
    word: Seq<u8>,
    end: Seq<u8>,
    lines: Seq<HeaderLine>,
    headers: Seq<Header>,
    line: Seq<u8>,
    other: Seq<u8>,
    rest: Seq<u8>,
    version: StompVersion,
    max: nat,
)
    requires
        forall|i: int| 0 <= i < ends.len() ==> is_line_end(#[trigger] ends[i]),
        word.len() > 0,
        forall|i: int|
            0 <= i < word.len() ==> 65 <= #[trigger] word[i] <= 90 || 97 <= word[i] <= 122,
        is_line_end(end),
        hold(lines, headers, parse::read_rules(decode_utf8(word), version)),
        line.len() > 0,
        !line.contains(58u8) && !line.contains(13u8) && !line.contains(10u8),
        is_line_end(other),
    ensures
        parse::frame_at(
            in_a_row(ends) + word + end + lines_in_a_row(lines) + line + other + rest,
            version,
            max,
        ) matches Reading::Failed(ParseError::Backtrack, _),
{
    let rules = parse::read_rules(decode_utf8(word), version);
    let start = in_a_row(ends);
    let row = lines_in_a_row(lines);
    let s = start + word + end + row + line + other + rest;
    let whole = start + word + end + row + line + other;
    assert(s.subrange(0, whole.len() as int) =~= whole);
    wire::stands_in_parts(s, 0, start + word + end + row + line, other);
    wire::stands_in_parts(s, 0, start + word + end + row, line);
    wire::stands_in_parts(s, 0, start + word + end, row);
    wire::stands_in_parts(s, 0, start + word, end);
    wire::stands_in_parts(s, 0, start, word);
    let a = start.len() as int;
    let b = a + word.len();
    let c = b + end.len();
    let q = c + row.len();
    let k = q + line.len();
    byte_at(s, a, word, 0);
    assert(65 <= word[0] <= 90 || 97 <= word[0] <= 122);
    line_ends_are_read(s, 0, ends);
    line_end_is_read(s, b, end);
    assert forall|i: int| a <= i < b implies !Stop::NonLetter.at(#[trigger] s[i]) by {
        byte_at(s, a, word, i - a);
        assert(65 <= word[i - a] <= 90 || 97 <= word[i - a] <= 122);
    }
    wire::find_is(s, a, Stop::NonLetter, b);
    header_lines_are_read(s, c, lines, headers, rules);
    line_end_is_read(s, k, other);
    assert forall|i: int| q <= i < k implies !Stop::NameEnd.at(#[trigger] s[i]) by {
        byte_at(s, q, line, i - q);
        assert(line.contains(line[i - q]));
    }
    wire::find_is(s, q, Stop::NameEnd, k);
    assert(!Stop::NameEnd.at(s[q]));
    assert(headers + Seq::<Header>::empty() =~= headers);
}

/// Where the headers of a frame end is told by what comes after them: where that is
/// no header, and no empty line either, the frame is refused.
proof fn what_follows_the_headers(
    s: Seq<u8>,
    ends: Seq<Seq<u8>>,
    word: Seq<u8>,
    end: Seq<u8>,
    lines: Seq<HeaderLine>,
    headers: Seq<Header>,
    version: StompVersion,
    max: nat,
)
    requires
        wire::stands_at(s, 0, in_a_row(ends) + word + end + lines_in_a_row(lines)),
        forall|i: int| 0 <= i < ends.len() ==> is_line_end(#[trigger] ends[i]),
        word.len() > 0,
        forall|i: int|
            0 <= i < word.len() ==> 65 <= #[trigger] word[i] <= 90 || 97 <= word[i] <= 122,
        is_line_end(end),
        hold(lines, headers, parse::read_rules(decode_utf8(word), version)),
        ({
            let q = (in_a_row(ends) + word + end + lines_in_a_row(lines)).len() as int;
            let rules = parse::read_rules(decode_utf8(word), version);
            &&& parse::header_at(s, q, rules) is Failed
            &&& parse::header_at(s, q, rules)->Failed_0 == ParseError::Backtrack
            &&& parse::line_end(s, q) is Failed
            &&& parse::line_end(s, q)->Failed_0 == ParseError::Backtrack
        }),
    ensures
        fails(parse::frame_at(s, version, max), ParseError::Backtrack),
{
    let rules = parse::read_rules(decode_utf8(word), version);
    let start = in_a_row(ends);
    let row = lines_in_a_row(lines);
    wire::stands_in_parts(s, 0, start + word + end, row);
    wire::stands_in_parts(s, 0, start + word, end);
    wire::stands_in_parts(s, 0, start, word);
    let a = start.len() as int;
    let b = a + word.len();
    let c = b + end.len();
    byte_at(s, a, word, 0);
    assert(65 <= word[0] <= 90 || 97 <= word[0] <= 122);
    line_ends_are_read(s, 0, ends);
    line_end_is_read(s, b, end);
    assert forall|i: int| a <= i < b implies !Stop::NonLetter.at(#[trigger] s[i]) by {
        byte_at(s, a, word, i - a);
        assert(65 <= word[i - a] <= 90 || 97 <= word[i - a] <= 122);
    }
    wire::find_is(s, a, Stop::NonLetter, b);
    header_lines_are_read(s, c, lines, headers, rules);
    assert(headers + Seq::<Header>::empty() =~= headers);
}

/// A carriage return that no line feed follows is refused, after the command and
/// anywhere among the headers.
pub proof fn stray_carriage_returns_are_refused(
    ends: Seq<Seq<u8>>,
    word: Seq<u8>,
    end: Seq<u8>,
    lines: Seq<HeaderLine>,
    headers: Seq<Header>,
    piece: Seq<u8>,
    x: u8,
    rest: Seq<u8>,
    version: StompVersion,
    max: nat,
)
    requires
        forall|i: int| 0 <= i < ends.len() ==> is_line_end(#[trigger] ends[i]),
        word.len() > 0,
        forall|i: int|
            0 <= i < word.len() ==> 65 <= #[trigger] word[i] <= 90 || 97 <= word[i] <= 122,
        is_line_end(end),
        hold(lines, headers, parse::read_rules(decode_utf8(word), version)),
        !piece.contains(13u8) && !piece.contains(10u8),
        x != 10,
    ensures
        fails(
            parse::frame_at(in_a_row(ends) + word + seq![13u8, x] + rest, version, max),
            ParseError::Backtrack,
        ),
        fails(
            parse::frame_at(
                in_a_row(ends) + word + end + lines_in_a_row(lines) + piece + seq![13u8, x] + rest,
                version,
                max,
            ),
            ParseError::Backtrack,
        ),
{
    let rules = parse::read_rules(decode_utf8(word), version);
    let start = in_a_row(ends);
    let short = start + word + seq![13u8, x] + rest;
    let a = start.len() as int;
    let b = a + word.len();
    assert(short.subrange(0, a) =~= start);
    assert(short[b] == 13 && short[b + 1] == x);
    assert(short[a] == word[0]);
    assert(65 <= word[0] <= 90 || 97 <= word[0] <= 122);
    line_ends_are_read(short, 0, ends);
    assert forall|i: int| a <= i < b implies !Stop::NonLetter.at(#[trigger] short[i]) by {
        assert(short[i] == word[i - a]);
        assert(65 <= word[i - a] <= 90 || 97 <= word[i - a] <= 122);
    }
    wire::find_is(short, a, Stop::NonLetter, b);

    let front = start + word + end + lines_in_a_row(lines);
    let s = front + piece + seq![13u8, x] + rest;
    let q = front.len() as int;
    let v = q + piece.len();
    assert(s.subrange(0, q) =~= front);
    assert(s[v] == 13 && s[v + 1] == x);
    assert forall|i: int| q <= i < v implies #[trigger] s[i] != 13 && s[i] != 10 by {
        assert(s[i] == piece[i - q]);
        assert(piece.contains(piece[i - q]));
    }
    parse::find_bounds(s, q, Stop::NameEnd);
    let k = parse::find(s, q, Stop::NameEnd);
    assert(k <= v) by {
        if k > v {
            assert(!Stop::NameEnd.at(s[v]));
        }
    }
    if k < v {
        assert(s[k] == 58);
        assert forall|i: int| k + 1 <= i < v implies !Stop::ValueEnd.at(#[trigger] s[i]) by {
            assert(s[i] != 13 && s[i] != 10);
        }
        wire::find_is(s, k + 1, Stop::ValueEnd, v);
    }
    if q < v {
        assert(s[q] != 13 && s[q] != 10);
    }
    what_follows_the_headers(s, ends, word, end, lines, headers, version, max);
}

/// A header whose name or value is no text, or holds an escape that the version
/// does not have, is refused, whatever headers come before it.
pub proof fn headers_must_be_text(
    ends: Seq<Seq<u8>>,
    word: Seq<u8>,
    end: Seq<u8>,
    lines: Seq<HeaderLine>,
    headers: Seq<Header>,
    line: HeaderLine,
    rest: Seq<u8>,
    version: StompVersion,
    max: nat,
)
    requires
        forall|i: int| 0 <= i < ends.len() ==> is_line_end(#[trigger] ends[i]),
        word.len() > 0,
        forall|i: int|
            0 <= i < word.len() ==> 65 <= #[trigger] word[i] <= 90 || 97 <= word[i] <= 122,
        is_line_end(end),
        hold(lines, headers, parse::read_rules(decode_utf8(word), version)),
        !line.name.contains(58u8) && !line.name.contains(13u8) && !line.name.contains(10u8),
        !line.value.contains(13u8) && !line.value.contains(10u8),
        is_line_end(line.end),
        ({
            let rules = parse::read_rules(decode_utf8(word), version);
            parse::header_text(line.name, rules) is None || parse::header_text(line.value, rules)
                is None
        }),
    ensures
        fails(
            parse::frame_at(
                in_a_row(ends) + word + end + lines_in_a_row(lines) + line.name + seq![58u8]
                    + line.value + line.end + rest,
                version,
                max,
            ),
            ParseError::Backtrack,
        ),
{
    let front = in_a_row(ends) + word + end + lines_in_a_row(lines);
    let name = line.name;
    let value = line.value;
    let s = front + name + seq![58u8] + value + line.end + rest;
    let whole = front + name + seq![58u8] + value + line.end;
    assert(s.subrange(0, whole.len() as int) =~= whole);
    wire::stands_in_parts(s, 0, front + name + seq![58u8] + value, line.end);
    wire::stands_in_parts(s, 0, front + name + seq![58u8], value);
    wire::stands_in_parts(s, 0, front + name, seq![58u8]);
    wire::stands_in_parts(s, 0, front, name);
    let q = front.len() as int;
    let k = q + name.len();
    let v = k + 1 + value.len();
    byte_at(s, k, seq![58u8], 0);
    line_end_is_read(s, v, line.end);
    assert forall|i: int| q <= i < k implies !Stop::NameEnd.at(#[trigger] s[i]) by {
        byte_at(s, q, name, i - q);
        assert(name.contains(name[i - q]));
    }
    wire::find_is(s, q, Stop::NameEnd, k);
    assert forall|i: int| k + 1 <= i < v implies !Stop::ValueEnd.at(#[trigger] s[i]) by {
        byte_at(s, k + 1, value, i - k - 1);
        assert(value.contains(value[i - k - 1]));
    }
    wire::find_is(s, k + 1, Stop::ValueEnd, v);
    assert(s.subrange(q, k) == name);
    assert(s.subrange(k + 1, v) == value);
    assert(s[q] != 13 && s[q] != 10) by {
        if q < k {
            assert(!Stop::NameEnd.at(s[q]));
        }
    }
    what_follows_the_headers(s, ends, word, end, lines, headers, version, max);
}

/// What a decoder takes off a stream: nothing as long as a frame is not complete;
/// all line ends in front, as a heartbeat; otherwise the frame that is read, with
/// all its bytes; and what is no frame, never.
pub proof fn decoders_take_what_is_read(s: Seq<u8>, version: StompVersion, max: nat)
    ensures
        s.len() == 0 ==> codec::received(s, version, max) is Nothing,
        s.len() > 0 && (s[0] == 13 || s[0] == 10) ==> (codec::received(
            s,
            version,
            max,
        ) matches Received::Frame(f, n) && f.command == "HEARTBEAT"@ && f.headers.len() == 0
            && f.body is None && 0 < n <= s.len() && (forall|i: int|
            0 <= i < n ==> #[trigger] s[i] == 13 || s[i] == 10) && (n < s.len() ==> s[n] != 13
            && s[n] != 10)),
        s.len() > 0 && s[0] != 13 && s[0] != 10 ==> match parse::frame_at(s, version, max) {
            Reading::Done(f, n) => codec::received(s, version, max) == Received::Frame(f, n),
            Reading::Failed(ParseError::Incomplete(_), _) => codec::received(s, version, max)
                is Nothing,
            Reading::Failed(e, _) => codec::received(s, version, max) == Received::Invalid(e),
        },
{
    parse::find_bounds(s, 0, Stop::NonLineEnd);
    let n = parse::find(s, 0, Stop::NonLineEnd);
    if s.len() > 0 && (s[0] == 13 || s[0] == 10) {
        assert forall|i: int| 0 <= i < n implies #[trigger] s[i] == 13 || s[i] == 10 by {
            assert(!Stop::NonLineEnd.at(s[i]));
        }
    }
}

/// What parsing hands back: the frame that is read and what follows it, or the
/// error.
pub proof fn parsing_hands_back_what_is_read(
    input: Seq<u8>,
    outcome: Reading<FrameView>,
    result: Result<(&[u8], StompFrame<'_>), ParseError>,
)
    requires
        parse::parsed_as(input, outcome, result),
    ensures
        match outcome {
            Reading::Done(f, n) => {
                &&& result matches Ok(parsed)
                &&& parsed.1@ == f
                &&& 0 <= n <= input.len()
                &&& parsed.0@ == input.subrange(n, input.len() as int)
            },
            Reading::Failed(e, _) => result matches Err(d) && d == e,
        },
{
}

} // verus!
