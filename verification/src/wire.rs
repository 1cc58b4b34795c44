//! What is written is read back, and no reading is decided too early.

use crate::codec::{self, Received};
use crate::encode::{self, BACKSLASH, COLON, CR, LF, NUL};
use crate::frame::{self, FrameView, Header, StompVersion};
use crate::parse::{self, ParseError, Reading, Stop};
use crate::text;
use vstd::prelude::*;
use vstd::utf8::*;

verus! {

/// A byte below 128 in the bytes of a text is a character of that text.
proof fn ascii_bytes_are_characters(s: Seq<char>, i: int)
    requires
        0 <= i < encode_utf8(s).len(),
        encode_utf8(s)[i] < 128,
    ensures
        s.contains(encode_utf8(s)[i] as char),
    decreases s.len(),
{
    let c = s[0] as u32;
    let head = encode_scalar(c);
    let rest = s.drop_first();
    if i < head.len() {
        char_is_scalar(s[0]);
        assert(c <= 0x7f ==> (c & 0x7f) as u8 == c) by (bit_vector);
        assert(0xC0 | ((c >> 6) & 0x1F) as u8 >= 128) by (bit_vector);
        assert(0xE0 | ((c >> 12) & 0x0F) as u8 >= 128) by (bit_vector);
        assert(0xF0 | ((c >> 18) & 0x7) as u8 >= 128) by (bit_vector);
        assert(0x80 | (c & 0x3F) as u8 >= 128) by (bit_vector);
        assert(0x80 | ((c >> 6) & 0x3F) as u8 >= 128) by (bit_vector);
        assert(0x80 | ((c >> 12) & 0x3F) as u8 >= 128) by (bit_vector);
        let b = encode_utf8(s)[i];
        assert(b == head[i]);
        assert(has_width_1_encoding(c)) by {
            if has_width_2_encoding(c) {
                assert(head =~= seq![leading_byte_width_2(c), last_continuation_byte(c)]);
            }
        }
        assert(b == (c & 0x7f) as u8);
        char_u32_cast(s[0], b as u32);
        assert(s[0] == b as char);
    } else {
        assert(encode_utf8(s)[i] == encode_utf8(rest)[i - head.len()]);
        ascii_bytes_are_characters(rest, i - head.len());
        let j = choose|j: int| 0 <= j < rest.len() && rest[j] == encode_utf8(s)[i] as char;
        assert(s[j + 1] == rest[j]);
    }
}

/// Which bytes escapes leave: no line feed and no colon where the version has
/// escapes, and no carriage return where it has one for that.
proof fn escaped_bytes(bytes: Seq<u8>, rules: StompVersion)
    ensures
        forall|i: int|
            0 <= i < encode::escape(bytes, rules).len() ==> {
                let e = #[trigger] encode::escape(bytes, rules)[i];
                &&& e == CR ==> rules != StompVersion::V1_2 && bytes.contains(CR)
                &&& e == LF ==> rules == StompVersion::V1_0 && bytes.contains(LF)
                &&& e == COLON ==> rules == StompVersion::V1_0 && bytes.contains(COLON)
            },
    decreases bytes.len(),
{
    if bytes.len() > 0 {
        let rest = bytes.drop_first();
        let head = encode::escape_byte(bytes[0], rules);
        escaped_bytes(rest, rules);
        assert(bytes.contains(bytes[0]));
        assert forall|b: u8| rest.contains(b) implies bytes.contains(b) by {
            let j = choose|j: int| 0 <= j < rest.len() && rest[j] == b;
            assert(bytes[j + 1] == b);
        }
        assert forall|i: int| 0 <= i < encode::escape(bytes, rules).len() implies {
            let e = #[trigger] encode::escape(bytes, rules)[i];
            &&& e == CR ==> rules != StompVersion::V1_2 && bytes.contains(CR)
            &&& e == LF ==> rules == StompVersion::V1_0 && bytes.contains(LF)
            &&& e == COLON ==> rules == StompVersion::V1_0 && bytes.contains(COLON)
        } by {
            let e = encode::escape(bytes, rules)[i];
            if i < head.len() {
                assert(e == head[i]);
            } else {
                assert(e == encode::escape(rest, rules)[i - head.len()]);
            }
        }
    }
}

/// Undoing escapes gives back what was escaped.
pub proof fn unescape_undoes_escape(bytes: Seq<u8>, rules: StompVersion)
    ensures
        parse::unescaped(encode::escape(bytes, rules), rules) == Some(bytes),
    decreases bytes.len(),
{
    let e = encode::escape(bytes, rules);
    if bytes.len() == 0 {
        assert(e =~= bytes);
    } else {
        let rest = bytes.drop_first();
        let head = encode::escape_byte(bytes[0], rules);
        unescape_undoes_escape(rest, rules);
        assert(e.skip(head.len() as int) =~= encode::escape(rest, rules));
        assert(seq![bytes[0]] + rest =~= bytes);
        if rules == StompVersion::V1_0 {
            assert(e =~= seq![bytes[0]] + rest);
        } else {
            assert(e[0] == head[0]);
            if head.len() == 2 {
                assert(e[1] == head[1]);
            }
        }
    }
}

/// Bytes without a backslash stand for themselves.
pub(crate) proof fn plain_bytes_unescape(bytes: Seq<u8>, rules: StompVersion)
    requires
        !bytes.contains(BACKSLASH),
    ensures
        parse::unescaped(bytes, rules) == Some(bytes),
    decreases bytes.len(),
{
    if bytes.len() > 0 && rules != StompVersion::V1_0 {
        let rest = bytes.skip(1);
        assert(bytes[0] != BACKSLASH) by {
            assert(bytes.contains(bytes[0]));
        }
        assert(!rest.contains(BACKSLASH)) by {
            if rest.contains(BACKSLASH) {
                let j = choose|j: int| 0 <= j < rest.len() && rest[j] == BACKSLASH;
                assert(bytes[j + 1] == BACKSLASH);
            }
        }
        plain_bytes_unescape(rest, rules);
        assert(seq![bytes[0]] + rest =~= bytes);
    } else {
        assert(bytes.len() == 0 ==> bytes =~= seq![]);
    }
}

/// Bytes on both sides of one below 128 are text if, and only if, they are
/// together.
proof fn text_parts_at_ascii(a: Seq<u8>, d: u8, b: Seq<u8>)
    requires
        d < 128,
    ensures
        valid_utf8(a + seq![d] + b) <==> valid_utf8(a) && valid_utf8(b),
{
    let s = a + seq![d] + b;
    let n = a.len() as int;
    let tail = seq![d] + b;
    assert(s =~= a + tail);
    assert(pop_first_scalar(tail) =~= b);
    if valid_utf8(s) {
        is_char_boundary_iff_not_is_continuation_byte(s, n);
        valid_utf8_split(s, n);
        assert(s.subrange(0, n) =~= a);
        assert(s.subrange(n, s.len() as int) =~= tail);
    }
    if valid_utf8(a) && valid_utf8(b) {
        valid_utf8_concat(a, tail);
    }
}

/// Escapes may be replaced before or after bytes are taken for text, whatever
/// stands before them.
proof fn escapes_keep_text(front: Seq<u8>, s: Seq<u8>, rules: StompVersion)
    ensures
        parse::escapes_replaced(s, rules) matches Some(b) ==> (valid_utf8(front + b)
            <==> valid_utf8(front + s)),
    decreases s.len(),
{
    if let Some(b) = parse::escapes_replaced(s, rules) {
        if s.len() == 0 {
            assert(b =~= s);
        } else if s[0] != BACKSLASH {
            let rest = s.skip(1);
            let r = parse::escapes_replaced(rest, rules)->0;
            escapes_keep_text(front.push(s[0]), rest, rules);
            assert(front + b =~= front.push(s[0]) + r);
            assert(front + s =~= front.push(s[0]) + rest);
        } else {
            let rest = s.skip(2);
            let r = parse::escapes_replaced(rest, rules)->0;
            let d = parse::escaped_byte(s[1], rules)->0;
            escapes_keep_text(seq![], rest, rules);
            assert(Seq::<u8>::empty() + r =~= r);
            assert(Seq::<u8>::empty() + rest =~= rest);
            text_parts_at_ascii(front, d, r);
            assert(front + b =~= front + seq![d] + r);
            text_parts_at_ascii(front.push(BACKSLASH), s[1], rest);
            text_parts_at_ascii(front, BACKSLASH, seq![]);
            assert(front.push(BACKSLASH) =~= front + seq![BACKSLASH] + Seq::<u8>::empty());
            assert(front + s =~= front.push(BACKSLASH) + seq![s[1]] + rest);
        }
    }
}

/// A header's name or value with escapes is a text exactly where its bytes are
/// text and each backslash starts an escape that the version has.
pub proof fn escaped_text_is_text(s: Seq<u8>, rules: StompVersion)
    ensures
        parse::encoded_text(parse::escapes_replaced(s, rules)) is Some <==> valid_utf8(s)
            && parse::escapes_replaced(s, rules) is Some,
{
    escapes_keep_text(seq![], s, rules);
    assert(Seq::<u8>::empty() + s =~= s);
    if let Some(b) = parse::escapes_replaced(s, rules) {
        assert(Seq::<u8>::empty() + b =~= b);
    }
}

/// Without escapes, bytes are written as they are.
proof fn escape_without_rules(bytes: Seq<u8>)
    ensures
        encode::escape(bytes, StompVersion::V1_0) == bytes,
{
    unescape_undoes_escape(bytes, StompVersion::V1_0);
}

/// Whether a frame with this command can carry `text` in a header, as its name
/// or as its value, so that it can be read again. Version 1.2 carries any text.
/// Version 1.1 has no escape for a carriage return. Without escapes neither a
/// carriage return nor a line feed can be carried, nor a colon in a name; and
/// no backslash where the reader takes it for an escape.
pub open spec fn carries(
    text: Seq<char>,
    name: bool,
    command: Seq<char>,
    version: StompVersion,
) -> bool {
    match encode::write_rules(command, version) {
        StompVersion::V1_2 => true,
        StompVersion::V1_1 => !text.contains('\r'),
        StompVersion::V1_0 => {
            &&& !text.contains('\r')
            &&& !text.contains('\n')
            &&& name ==> !text.contains(':')
            &&& parse::read_rules(command, version) != StompVersion::V1_0 ==> !text.contains('\\')
        },
    }
}

/// What `carries` says of the bytes that are written.
proof fn carried_text(text: Seq<char>, name: bool, command: Seq<char>, version: StompVersion)
    requires
        carries(text, name, command, version),
    ensures
        ({
            let written = encode::escape(
                encode_utf8(text),
                encode::write_rules(command, version),
            );
            &&& forall|i: int|
                0 <= i < written.len() ==> {
                    let e = #[trigger] written[i];
                    e != CR && e != LF && (name ==> e != COLON)
                }
            &&& parse::header_text(written, parse::read_rules(command, version)) == Some(text)
        }),
{
    let bytes = encode_utf8(text);
    let w = encode::write_rules(command, version);
    let r = parse::read_rules(command, version);
    let written = encode::escape(bytes, w);
    assert forall|b: u8| b < 128 && #[trigger] bytes.contains(b) implies text.contains(
        b as char,
    ) by {
        let j = choose|j: int| 0 <= j < bytes.len() && bytes[j] == b;
        ascii_bytes_are_characters(text, j);
    }
    escaped_bytes(bytes, w);
    text::text_bytes_decode(text);
    assert(CR as char == '\r' && LF as char == '\n' && COLON as char == ':' && BACKSLASH as char
        == '\\');
    assert forall|i: int| 0 <= i < written.len() implies {
        let e = #[trigger] written[i];
        e != CR && e != LF && (name ==> e != COLON)
    } by {
        if bytes.contains(CR) {
            assert(text.contains('\r'));
        }
        if bytes.contains(LF) {
            assert(text.contains('\n'));
        }
        if bytes.contains(COLON) {
            assert(text.contains(':'));
        }
    }
    if w == StompVersion::V1_0 {
        escape_without_rules(bytes);
        if r != StompVersion::V1_0 {
            assert(!bytes.contains(BACKSLASH));
            plain_bytes_unescape(bytes, r);
        }
    } else {
        assert(w == version && r == version) by {
            reveal_strlit("CONNECTED");
            reveal_strlit("STOMP");
        }
        unescape_undoes_escape(bytes, w);
    }
}

/// Whether `piece` stands at position `p` of `s`.
pub open spec fn stands_at(s: Seq<u8>, p: int, piece: Seq<u8>) -> bool {
    &&& 0 <= p
    &&& p + piece.len() <= s.len()
    &&& s.subrange(p, p + piece.len()) == piece
}

/// What stands somewhere in two parts stands there part by part.
pub(crate) proof fn stands_in_parts(s: Seq<u8>, p: int, a: Seq<u8>, b: Seq<u8>)
    requires
        stands_at(s, p, a + b),
    ensures
        stands_at(s, p, a),
        stands_at(s, p + a.len(), b),
{
    assert(s.subrange(p, p + a.len()) =~= a) by {
        assert forall|i: int| 0 <= i < a.len() implies s[p + i] == a[i] by {
            assert(s.subrange(p, p + (a + b).len())[i] == (a + b)[i]);
        }
    }
    assert(s.subrange(p + a.len(), p + a.len() + b.len()) =~= b) by {
        assert forall|i: int| 0 <= i < b.len() implies s[p + a.len() + i] == b[i] by {
            assert(s.subrange(p, p + (a + b).len())[a.len() + i] == (a + b)[a.len() + i]);
        }
    }
}

/// A run ends at the first byte that ends it.
pub(crate) proof fn find_is(s: Seq<u8>, p: int, stop: Stop, k: int)
    requires
        0 <= p <= k < s.len(),
        stop.at(s[k]),
        forall|i: int| p <= i < k ==> !stop.at(#[trigger] s[i]),
    ensures
        parse::find(s, p, stop) == k,
    decreases k - p,
{
    if p < k {
        find_is(s, p + 1, stop, k);
    }
}

/// Whether a frame with this command can carry a list of headers.
pub open spec fn carries_all(
    headers: Seq<Header>,
    command: Seq<char>,
    version: StompVersion,
) -> bool {
    forall|i: int|
        0 <= i < headers.len() ==> {
            let h = #[trigger] headers[i];
            carries(h.0, true, command, version) && carries(h.1, false, command, version)
        }
}

/// The line for a header reads as that header.
proof fn header_reads(s: Seq<u8>, p: int, h: Header, command: Seq<char>, version: StompVersion)
    requires
        stands_at(s, p, encode::header_line(h, encode::write_rules(command, version))),
        carries(h.0, true, command, version),
        carries(h.1, false, command, version),
    ensures
        parse::header_at(s, p, parse::read_rules(command, version)) == Reading::Done(
            h,
            p + encode::header_line(h, encode::write_rules(command, version)).len(),
        ),
{
    let w = encode::write_rules(command, version);
    let name = encode::escape(encode_utf8(h.0), w);
    let value = encode::escape(encode_utf8(h.1), w);
    carried_text(h.0, true, command, version);
    carried_text(h.1, false, command, version);
    stands_in_parts(s, p, name + seq![COLON] + value, seq![LF]);
    stands_in_parts(s, p, name + seq![COLON], value);
    stands_in_parts(s, p, name, seq![COLON]);
    let k = p + name.len();
    let v = k + 1 + value.len();
    assert(s[k] == COLON) by {
        assert(s.subrange(k, k + 1)[0] == seq![COLON][0]);
    }
    assert(s[v] == LF) by {
        assert(s.subrange(v, v + 1)[0] == seq![LF][0]);
    }
    assert forall|i: int| p <= i < k implies !Stop::NameEnd.at(#[trigger] s[i]) by {
        assert(s.subrange(p, k)[i - p] == name[i - p]);
    }
    find_is(s, p, Stop::NameEnd, k);
    assert forall|i: int| k + 1 <= i < v implies !Stop::ValueEnd.at(#[trigger] s[i]) by {
        assert(s.subrange(k + 1, v)[i - k - 1] == value[i - k - 1]);
    }
    find_is(s, k + 1, Stop::ValueEnd, v);
    assert(s.subrange(p, k) == name);
    assert(s.subrange(k + 1, v) == value);
}

/// The lines for headers read as those headers, before whatever headers follow.
proof fn headers_precede(
    s: Seq<u8>,
    p: int,
    headers: Seq<Header>,
    command: Seq<char>,
    version: StompVersion,
)
    requires
        stands_at(s, p, encode::header_lines(headers, encode::write_rules(command, version))),
        carries_all(headers, command, version),
    ensures
        parse::headers_at(s, p, parse::read_rules(command, version)) == parse::preceded(
            headers,
            parse::headers_at(
                s,
                p + encode::header_lines(headers, encode::write_rules(command, version)).len(),
                parse::read_rules(command, version),
            ),
        ),
    decreases headers.len(),
{
    let w = encode::write_rules(command, version);
    let r = parse::read_rules(command, version);
    let lines = encode::header_lines(headers, w);
    let after = parse::headers_at(s, p + lines.len(), r);
    if headers.len() == 0 {
        if let Reading::Done(more, _) = after {
            assert(headers + more =~= more);
        }
    } else {
        let first = encode::header_line(headers[0], w);
        let rest = encode::header_lines(headers.drop_first(), w);
        assert(lines == first + rest) by {
            assert(seq![headers[0]] + headers.drop_first() =~= headers);
            encode::header_lines_concat(seq![headers[0]], headers.drop_first(), w);
            assert(seq![headers[0]].drop_last() =~= seq![]);
            assert(encode::header_lines(Seq::<Header>::empty(), w) =~= seq![]);
            assert(encode::header_lines(seq![headers[0]], w) =~= first);
        }
        stands_in_parts(s, p, first, rest);
        header_reads(s, p, headers[0], command, version);
        assert forall|i: int| 0 <= i < headers.drop_first().len() implies {
            let h = #[trigger] headers.drop_first()[i];
            carries(h.0, true, command, version) && carries(h.1, false, command, version)
        } by {
            assert(headers.drop_first()[i] == headers[i + 1]);
        }
        headers_precede(s, p + first.len(), headers.drop_first(), command, version);
        if let Reading::Done(more, _) = after {
            assert(seq![headers[0]] + (headers.drop_first() + more) =~= headers + more);
        }
    }
}

/// The lines for headers, and an empty line after them, read as those headers.
proof fn headers_read(
    s: Seq<u8>,
    p: int,
    headers: Seq<Header>,
    command: Seq<char>,
    version: StompVersion,
)
    requires
        stands_at(
            s,
            p,
            encode::header_lines(headers, encode::write_rules(command, version)) + seq![LF],
        ),
        carries_all(headers, command, version),
    ensures
        parse::headers_at(s, p, parse::read_rules(command, version)) == Reading::Done(
            headers,
            p + encode::header_lines(headers, encode::write_rules(command, version)).len(),
        ),
{
    let lines = encode::header_lines(headers, encode::write_rules(command, version));
    let q = p + lines.len();
    stands_in_parts(s, p, lines, seq![LF]);
    headers_precede(s, p, headers, command, version);
    assert(s[q] == LF) by {
        assert(s.subrange(q, q + 1)[0] == seq![LF][0]);
    }
    find_is(s, q, Stop::NameEnd, q);
    assert(s.subrange(q, q) =~= seq![]);
    assert(headers + Seq::<Header>::empty() =~= headers);
}

/// No header of that name is left in a list that it was taken out of.
proof fn without_has_none(headers: Seq<Header>, name: Seq<char>)
    ensures
        forall|i: int|
            0 <= i < frame::without(headers, name).len() ==> (#[trigger] frame::without(
                headers,
                name,
            )[i]).0 != name,
    decreases headers.len(),
{
    reveal(Seq::filter);
    if headers.len() > 0 {
        without_has_none(headers.drop_last(), name);
    }
}

/// The headers of a written frame announce the length of its body.
pub proof fn sent_headers_announce_the_body(frame: FrameView)
    requires
        frame.body matches Some(body) ==> body.len() <= usize::MAX,
    ensures
        match frame.body {
            Some(body) => parse::announced_length(encode::sent_headers(frame)) == Some(body.len()),
            None => parse::announced_length(encode::sent_headers(frame)) is None,
        },
{
    let name = "content-length"@;
    match frame.body {
        Some(body) => {
            frame::replaced_headers_are_seen(
                frame.headers,
                name,
                text::decimal(body.len()),
                name,
            );
            text::decimal_reads_back(body.len(), usize::MAX as nat);
        },
        None => {
            frame::header_of_without(frame.headers, name, name);
        },
    }
}

/// The header that gives the length of the body can always be carried.
proof fn length_header_is_carried(n: nat, command: Seq<char>, version: StompVersion)
    ensures
        carries(encode::length_header(n).0, true, command, version),
        carries(encode::length_header(n).1, false, command, version),
{
    reveal_strlit("content-length");
    text::decimal_reads_back(n, n);
    let value = text::decimal(n);
    assert forall|c: char| #[trigger] value.contains(c) implies text::is_digit(c) by {
        let j = choose|j: int| 0 <= j < value.len() && value[j] == c;
        assert(text::is_digit(value[j]));
    }
}

/// Whether a text is a word of ASCII letters.
pub open spec fn is_word(text: Seq<char>) -> bool {
    &&& text.len() > 0
    &&& forall|i: int|
        0 <= i < text.len() ==> {
            let c = #[trigger] text[i];
            'A' <= c <= 'Z' || 'a' <= c <= 'z'
        }
}

/// Whether a frame can be written so that it can be read again: its command is
/// a word of ASCII letters, and its headers can be carried.
pub open spec fn can_be_written(frame: FrameView, version: StompVersion) -> bool {
    &&& is_word(frame.command)
    &&& carries_all(
        frame::without(frame.headers, "content-length"@),
        frame.command,
        version,
    )
}

/// The frame that is read where `frame` was written.
pub open spec fn as_read(frame: FrameView) -> FrameView {
    FrameView {
        command: frame.command,
        headers: encode::sent_headers(frame),
        body: frame.body,
    }
}

/// The bytes of a command are the letters that it is made of.
proof fn command_bytes(command: Seq<char>)
    requires
        is_word(command),
    ensures
        encode_utf8(command).len() == command.len(),
        forall|i: int|
            0 <= i < command.len() ==> parse::is_letter(#[trigger] encode_utf8(command)[i]),
{
    assert(is_ascii_chars(command));
    is_ascii_chars_encode_utf8(command);
    assert forall|i: int| 0 <= i < command.len() implies parse::is_letter(
        #[trigger] encode_utf8(command)[i],
    ) by {
        let c = command[i];
        assert('A' <= c <= 'Z' || 'a' <= c <= 'z');
        assert(c as u8 == encode_utf8(command)[i]);
    }
}

/// The first line of a frame reads as its command.
proof fn command_reads(s: Seq<u8>, command: Seq<char>)
    requires
        is_word(command),
        stands_at(s, 0, encode_utf8(command) + seq![LF]),
    ensures
        parse::command_at(s, 0) == Reading::Done(command, encode_utf8(command).len() + 1int),
        encode_utf8(command).len() > 0,
        parse::is_letter(s[0]),
{
    let word = encode_utf8(command);
    let b = word.len() as int;
    command_bytes(command);
    stands_in_parts(s, 0, word, seq![LF]);
    assert(s[b] == LF) by {
        assert(s.subrange(b, b + 1)[0] == seq![LF][0]);
    }
    assert forall|i: int| 0 <= i < b implies !Stop::NonLetter.at(#[trigger] s[i]) by {
        assert(s.subrange(0, b)[i] == word[i]);
    }
    assert(!Stop::NonLetter.at(s[0]));
    assert(parse::line_ends(s, 0) == Reading::Done((), 0));
    find_is(s, 0, Stop::NonLetter, b);
    text::text_bytes_decode(command);
}

/// Up to the byte that ends it, a written frame reads as what was written.
proof fn open_frame_reads(
    frame: FrameView,
    rest: Seq<u8>,
    version: StompVersion,
    max: nat,
)
    requires
        can_be_written(frame, version),
        frame.body matches Some(body) ==> body.len() <= max && body.len() <= usize::MAX,
    ensures
        parse::open_frame_at(encode::frame_bytes(frame, version) + rest, version, max)
            == Reading::Done(as_read(frame), encode::frame_bytes(frame, version).len() - 1),
        encode::frame_bytes(frame, version).last() == NUL,
        parse::is_letter(encode::frame_bytes(frame, version)[0]),
{
    let w = encode::write_rules(frame.command, version);
    let written = encode::frame_bytes(frame, version);
    let s = written + rest;
    let word = encode_utf8(frame.command);
    let sent = encode::sent_headers(frame);
    let lines = encode::header_lines(sent, w);
    let body = match frame.body {
        Some(body) => body,
        None => seq![],
    };
    assert(s.subrange(0, written.len() as int) =~= written);
    stands_in_parts(s, 0, word + seq![LF] + lines + seq![LF] + body, seq![NUL]);
    stands_in_parts(s, 0, word + seq![LF] + lines + seq![LF], body);
    assert(word + seq![LF] + lines + seq![LF] =~= word + seq![LF] + (lines + seq![LF]));
    stands_in_parts(s, 0, word + seq![LF], lines + seq![LF]);
    let b = word.len() as int;
    let r = b + 1 + lines.len() + 1;
    let t = r + body.len();
    assert(s[t] == NUL) by {
        assert(s.subrange(t, t + 1)[0] == seq![NUL][0]);
    }
    assert(t == written.len() - 1);
    command_reads(s, frame.command);
    assert(s[0] == written[0]);
    assert(carries_all(sent, frame.command, version)) by {
        let own = frame::without(frame.headers, "content-length"@);
        length_header_is_carried(body.len(), frame.command, version);
        assert forall|i: int| 0 <= i < sent.len() implies {
            let h = #[trigger] sent[i];
            carries(h.0, true, frame.command, version) && carries(
                h.1,
                false,
                frame.command,
                version,
            )
        } by {
            if i < own.len() {
                assert(sent[i] == own[i]);
            }
        }
    }
    headers_read(s, b + 1, sent, frame.command, version);
    assert(s[r - 1] == LF) by {
        stands_in_parts(s, b + 1, lines, seq![LF]);
        assert(s.subrange(r - 1, r)[0] == seq![LF][0]);
    }
    sent_headers_announce_the_body(frame);
    assert(s.subrange(r, t) == body);
    if frame.body is None {
        find_is(s, r, Stop::FrameEnd, r);
    }
    assert(written.last() == s[t]);
}

/// How many of the bytes that follow a frame belong to it: those of one line
/// end, if there is one.
pub open spec fn line_end_width(rest: Seq<u8>) -> int {
    match parse::line_end(rest, 0) {
        Reading::Done(_, n) => n,
        Reading::Failed(_, _) => 0,
    }
}

/// A written frame is read back, whatever follows it: the command, the body,
/// and the headers with which it was written. One line end after it goes with
/// it.
pub proof fn written_frames_are_read_back(
    frame: FrameView,
    rest: Seq<u8>,
    version: StompVersion,
    max: nat,
)
    requires
        can_be_written(frame, version),
        frame.body matches Some(body) ==> body.len() <= max && body.len() <= usize::MAX,
    ensures
        parse::frame_at(encode::frame_bytes(frame, version) + rest, version, max)
            == Reading::Done(
            as_read(frame),
            encode::frame_bytes(frame, version).len() + line_end_width(rest),
        ),
{
    let written = encode::frame_bytes(frame, version);
    let s = written + rest;
    open_frame_reads(frame, rest, version, max);
    let n = written.len() as int;
    assert(s[n - 1] == NUL);
    assert(forall|i: int| 0 <= i < rest.len() ==> s[n + i] == #[trigger] rest[i]);
    if rest.len() > 0 {
        assert(s[n] == rest[0]);
    }
    if rest.len() > 1 {
        assert(s[n + 1] == rest[1]);
    }
}

/// A frame whose length is announced as it is written reads back as itself.
pub proof fn frames_read_back_as_themselves(
    frame: FrameView,
    rest: Seq<u8>,
    version: StompVersion,
    max: nat,
)
    requires
        can_be_written(frame, version),
        frame.body matches Some(body) ==> body.len() <= max && body.len() <= usize::MAX,
        frame.headers == encode::sent_headers(frame),
    ensures
        parse::frame_at(encode::frame_bytes(frame, version) + rest, version, max)
            == Reading::Done(
            frame,
            encode::frame_bytes(frame, version).len() + line_end_width(rest),
        ),
{
    written_frames_are_read_back(frame, rest, version, max);
    assert(as_read(frame) =~= frame);
}

/// What is read back is written again as the same bytes.
pub proof fn rewriting_changes_nothing(frame: FrameView, version: StompVersion)
    ensures
        encode::frame_bytes(as_read(frame), version) == encode::frame_bytes(frame, version),
{
    let name = "content-length"@;
    let own = frame::without(frame.headers, name);
    without_has_none(frame.headers, name);
    without_keeps(own, name);
    if let Some(body) = frame.body {
        reveal(Seq::filter);
        assert(own.push(encode::length_header(body.len())).drop_last() =~= own);
    }
}

/// Taking out what is not there changes nothing.
proof fn without_keeps(headers: Seq<Header>, name: Seq<char>)
    requires
        forall|i: int| 0 <= i < headers.len() ==> (#[trigger] headers[i]).0 != name,
    ensures
        frame::without(headers, name) == headers,
    decreases headers.len(),
{
    reveal(Seq::filter);
    if headers.len() > 0 {
        without_keeps(headers.drop_last(), name);
        assert(headers.last().0 != name);
        assert(headers.drop_last().push(headers.last()) =~= headers);
    } else {
        assert(frame::without(headers, name) =~= headers);
    }
}

/// A frame with a header that holds an escape which its version does not have,
/// or bytes that are no text, is refused.
pub proof fn invalid_headers_are_refused(
    command: Seq<char>,
    headers: Seq<Header>,
    name: Seq<u8>,
    value: Seq<u8>,
    rest: Seq<u8>,
    version: StompVersion,
    max: nat,
)
    requires
        is_word(command),
        carries_all(headers, command, version),
        !name.contains(CR) && !name.contains(LF) && !name.contains(COLON),
        !value.contains(CR) && !value.contains(LF),
        ({
            let rules = parse::read_rules(command, version);
            parse::header_text(name, rules) is None || parse::header_text(value, rules) is None
        }),
    ensures
        ({
            let lines = encode_utf8(command) + seq![LF] + encode::header_lines(
                headers,
                encode::write_rules(command, version),
            );
            parse::frame_at(
                lines + (name + seq![COLON] + value + seq![LF]) + rest,
                version,
                max,
            ) == Reading::<FrameView>::Failed(ParseError::Backtrack, lines.len() as int)
        }),
{
    let w = encode::write_rules(command, version);
    let first = encode_utf8(command) + seq![LF];
    let own = encode::header_lines(headers, w);
    let line = name + seq![COLON] + value + seq![LF];
    let s = first + own + line + rest;
    assert(s.subrange(0, (first + own + line).len() as int) =~= first + own + line);
    stands_in_parts(s, 0, first + own, line);
    stands_in_parts(s, 0, first, own);
    command_reads(s, command);
    headers_precede(s, first.len() as int, headers, command, version);
    let p = (first + own).len() as int;
    let k = p + name.len();
    let v = k + 1 + value.len();
    stands_in_parts(s, p, name + seq![COLON] + value, seq![LF]);
    stands_in_parts(s, p, name + seq![COLON], value);
    stands_in_parts(s, p, name, seq![COLON]);
    assert(s[k] == COLON) by {
        assert(s.subrange(k, k + 1)[0] == seq![COLON][0]);
    }
    assert(s[v] == LF) by {
        assert(s.subrange(v, v + 1)[0] == seq![LF][0]);
    }
    assert forall|i: int| p <= i < k implies !Stop::NameEnd.at(#[trigger] s[i]) by {
        assert(s.subrange(p, k)[i - p] == name[i - p]);
        assert(name.contains(name[i - p]));
    }
    find_is(s, p, Stop::NameEnd, k);
    assert forall|i: int| k + 1 <= i < v implies !Stop::ValueEnd.at(#[trigger] s[i]) by {
        assert(s.subrange(k + 1, v)[i - k - 1] == value[i - k - 1]);
        assert(value.contains(value[i - k - 1]));
    }
    find_is(s, k + 1, Stop::ValueEnd, v);
    assert(s.subrange(p, k) == name);
    assert(s.subrange(k + 1, v) == value);
    assert(s[p] != CR && s[p] != LF) by {
        if p < k {
            assert(!Stop::NameEnd.at(s[p]));
        }
    }
    assert(headers + Seq::<Header>::empty() =~= headers);
}

/// An escape of a carriage return is one in version 1.2 only.
pub proof fn carriage_return_escape(before: Seq<u8>, after: Seq<u8>)
    requires
        !before.contains(BACKSLASH),
        !after.contains(BACKSLASH),
    ensures
        parse::unescaped(before + seq![BACKSLASH, 114] + after, StompVersion::V1_2) == Some(
            before + seq![CR] + after,
        ),
        parse::unescaped(before + seq![BACKSLASH, 114] + after, StompVersion::V1_1) is None,
    decreases before.len(),
{
    let s = before + seq![BACKSLASH, 114u8] + after;
    if before.len() == 0 {
        assert(s.skip(2) =~= after);
        plain_bytes_unescape(after, StompVersion::V1_2);
        assert(s[0] == BACKSLASH && s[1] == 114);
        assert(seq![CR] + after =~= before + seq![CR] + after);
    } else {
        let rest = before.skip(1);
        assert(before[0] != BACKSLASH) by {
            assert(before.contains(before[0]));
        }
        assert(!rest.contains(BACKSLASH)) by {
            if rest.contains(BACKSLASH) {
                let j = choose|j: int| 0 <= j < rest.len() && rest[j] == BACKSLASH;
                assert(before[j + 1] == BACKSLASH);
            }
        }
        assert(s.skip(1) =~= rest + seq![BACKSLASH, 114u8] + after);
        carriage_return_escape(rest, after);
        assert(s[0] == before[0]);
        assert(seq![before[0]] + (rest + seq![CR] + after) =~= before + seq![CR] + after);
    }
}

/// A run that ends within the input ends at the same place when more follows.
proof fn find_is_stable(s: Seq<u8>, more: Seq<u8>, p: int, stop: Stop)
    requires
        0 <= p,
        parse::find(s, p, stop) < s.len(),
    ensures
        parse::find(s + more, p, stop) == parse::find(s, p, stop),
    decreases s.len() - p,
{
    if p < s.len() {
        assert((s + more)[p] == s[p]);
        if !stop.at(s[p]) {
            find_is_stable(s, more, p + 1, stop);
        }
    }
}

/// Whether a reading is decided, so that more input makes no difference.
pub open spec fn decided<T>(reading: Reading<T>) -> bool {
    !(reading matches Reading::Failed(ParseError::Incomplete(_), _))
}

/// More input makes no difference to a line end that is decided.
proof fn line_end_is_stable(s: Seq<u8>, more: Seq<u8>, p: int)
    requires
        0 <= p,
        decided(parse::line_end(s, p)),
    ensures
        parse::line_end(s + more, p) == parse::line_end(s, p),
{
    if p < s.len() {
        assert((s + more)[p] == s[p]);
        if p + 1 < s.len() {
            assert((s + more)[p + 1] == s[p + 1]);
        }
    }
}

proof fn line_ends_are_stable(s: Seq<u8>, more: Seq<u8>, p: int)
    requires
        0 <= p,
        decided(parse::line_ends(s, p)),
    ensures
        parse::line_ends(s + more, p) == parse::line_ends(s, p),
    decreases s.len() - p,
{
    line_end_is_stable(s, more, p);
    if let Reading::Done(_, q) = parse::line_end(s, p) {
        line_ends_are_stable(s, more, q);
    }
}

proof fn command_is_stable(s: Seq<u8>, more: Seq<u8>)
    requires
        decided(parse::command_at(s, 0)),
    ensures
        parse::command_at(s + more, 0) == parse::command_at(s, 0),
{
    parse::line_ends_bounds(s, 0);
    line_ends_are_stable(s, more, 0);
    if let Reading::Done(_, a) = parse::line_ends(s, 0) {
        let b = parse::find(s, a, Stop::NonLetter);
        parse::find_bounds(s, a, Stop::NonLetter);
        find_is_stable(s, more, a, Stop::NonLetter);
        assert((s + more).subrange(a, b) =~= s.subrange(a, b));
        if b > a {
            line_end_is_stable(s, more, b);
        }
    }
}

proof fn header_is_stable(s: Seq<u8>, more: Seq<u8>, p: int, rules: StompVersion)
    requires
        0 <= p <= s.len(),
        decided(parse::header_at(s, p, rules)),
    ensures
        parse::header_at(s + more, p, rules) == parse::header_at(s, p, rules),
{
    let k = parse::find(s, p, Stop::NameEnd);
    parse::find_bounds(s, p, Stop::NameEnd);
    find_is_stable(s, more, p, Stop::NameEnd);
    assert((s + more).subrange(p, k) =~= s.subrange(p, k));
    assert((s + more)[k] == s[k]);
    if s[k] == COLON && parse::header_text(s.subrange(p, k), rules) is Some {
        let v = parse::find(s, k + 1, Stop::ValueEnd);
        parse::find_bounds(s, k + 1, Stop::ValueEnd);
        find_is_stable(s, more, k + 1, Stop::ValueEnd);
        assert((s + more).subrange(k + 1, v) =~= s.subrange(k + 1, v));
        line_end_is_stable(s, more, v);
    }
}

proof fn headers_are_stable(s: Seq<u8>, more: Seq<u8>, p: int, rules: StompVersion)
    requires
        0 <= p <= s.len(),
        decided(parse::headers_at(s, p, rules)),
    ensures
        parse::headers_at(s + more, p, rules) == parse::headers_at(s, p, rules),
    decreases s.len() - p,
{
    header_is_stable(s, more, p, rules);
    if let Reading::Done(_, q) = parse::header_at(s, p, rules) {
        parse::find_bounds(s, p, Stop::NameEnd);
        let k = parse::find(s, p, Stop::NameEnd);
        parse::find_bounds(s, k + 1, Stop::ValueEnd);
        headers_are_stable(s, more, q, rules);
    }
}

/// Up to the byte that ends a frame, more input makes no difference to a
/// reading that is decided.
proof fn open_frame_is_stable(s: Seq<u8>, more: Seq<u8>, version: StompVersion, max: nat)
    requires
        decided(parse::open_frame_at(s, version, max)),
    ensures
        parse::open_frame_at(s + more, version, max) == parse::open_frame_at(s, version, max),
{
    command_is_stable(s, more);
    parse::line_ends_bounds(s, 0);
    if let Reading::Done(_, a) = parse::line_ends(s, 0) {
        parse::find_bounds(s, a, Stop::NonLetter);
    }
    if let Reading::Done(command, p) = parse::command_at(s, 0) {
        let rules = parse::read_rules(command, version);
        headers_are_stable(s, more, p, rules);
        parse::headers_bounds(s, p, rules);
        if let Reading::Done(headers, q) = parse::headers_at(s, p, rules) {
            line_end_is_stable(s, more, q);
            if let Reading::Done(_, r) = parse::line_end(s, q) {
                parse::find_bounds(s, r, Stop::FrameEnd);
                match parse::announced_length(headers) {
                    None => {
                        let e = parse::find(s, r, Stop::FrameEnd);
                        find_is_stable(s, more, r, Stop::FrameEnd);
                        assert((s + more).subrange(r, e) =~= s.subrange(r, e));
                    },
                    Some(n) => {
                        if n <= max {
                            assert((s + more).subrange(r, r + n) =~= s.subrange(r, r + n));
                        }
                    },
                }
            }
        }
    }
}

/// No reading is decided too early: when more input comes, a frame that was
/// read is still read, and input that was refused is still refused. A frame may
/// only take with it the line end that follows.
pub proof fn more_input_keeps_decisions(
    s: Seq<u8>,
    more: Seq<u8>,
    version: StompVersion,
    max: nat,
)
    ensures
        match parse::frame_at(s, version, max) {
            Reading::Done(frame, n) => parse::frame_at(s + more, version, max) matches
                Reading::Done(again, m) && again == frame && n <= m <= n + 2,
            Reading::Failed(ParseError::Incomplete(_), _) => true,
            Reading::Failed(e, q) => parse::frame_at(s + more, version, max)
                == Reading::<FrameView>::Failed(e, q),
        },
{
    if decided(parse::frame_at(s, version, max)) {
        open_frame_is_stable(s, more, version, max);
        parse::open_frame_bounds(s, version, max);
        if let Reading::Done(frame, t) = parse::open_frame_at(s, version, max) {
            assert((s + more)[t] == s[t]);
            if decided(parse::line_end(s, t + 1)) {
                line_end_is_stable(s, more, t + 1);
            }
        }
    }
}

/// While only a part of a frame has come, and not yet the byte that ends it, the
/// reader waits for more. Line ends in front of the frame are not waited for by a
/// decoder: they are a heartbeat.
pub proof fn a_part_of_a_frame_waits(s: Seq<u8>, version: StompVersion, max: nat, k: int)
    requires
        parse::frame_at(s, version, max) is Done,
        0 <= k <= parse::open_frame_at(s, version, max)->Done_1,
    ensures
        parse::frame_at(s.take(k), version, max) matches Reading::Failed(
            ParseError::Incomplete(_),
            _,
        ),
        k == 0 || Stop::NonLineEnd.at(s[0]) ==> codec::received(s.take(k), version, max)
            is Nothing,
{
    let part = s.take(k);
    let more = s.skip(k);
    parse::open_frame_bounds(s, version, max);
    assert(part + more =~= s);
    if decided(parse::open_frame_at(part, version, max)) {
        open_frame_is_stable(part, more, version, max);
        parse::open_frame_bounds(part, version, max);
    }
    if k > 0 {
        assert(part[0] == s[0]);
    }
}

/// While only a part of a written frame has come, the reader waits for more.
pub proof fn a_part_of_a_written_frame_waits(
    frame: FrameView,
    version: StompVersion,
    max: nat,
    k: int,
)
    requires
        can_be_written(frame, version),
        frame.body matches Some(body) ==> body.len() <= max && body.len() <= usize::MAX,
        0 <= k < encode::frame_bytes(frame, version).len(),
    ensures
        parse::frame_at(encode::frame_bytes(frame, version).take(k), version, max) matches
            Reading::Failed(ParseError::Incomplete(_), _),
        codec::received(encode::frame_bytes(frame, version).take(k), version, max)
            is Nothing,
{
    let written = encode::frame_bytes(frame, version);
    assert(written + Seq::<u8>::empty() =~= written);
    open_frame_reads(frame, seq![], version, max);
    written_frames_are_read_back(frame, seq![], version, max);
    assert(Stop::NonLineEnd.at(written[0]));
    a_part_of_a_frame_waits(written, version, max, k);
}

/// What an encoder wrote, a decoder takes off the stream again, frame by
/// frame.
pub proof fn encoded_frames_are_decoded(
    frame: FrameView,
    rest: Seq<u8>,
    version: StompVersion,
    max: nat,
)
    requires
        can_be_written(frame, version),
        frame.body matches Some(body) ==> body.len() <= max && body.len() <= usize::MAX,
    ensures
        codec::received(encode::frame_bytes(frame, version) + rest, version, max)
            == Received::Frame(
            as_read(frame),
            encode::frame_bytes(frame, version).len() + line_end_width(rest),
        ),
{
    let written = encode::frame_bytes(frame, version);
    let s = written + rest;
    written_frames_are_read_back(frame, rest, version, max);
    open_frame_reads(frame, rest, version, max);
    assert(s[0] == written[0]);
    assert(Stop::NonLineEnd.at(s[0]));
}

/// Line ends in front of a frame are a heartbeat, and all of them are taken off
/// the stream at once.
pub proof fn line_ends_are_a_heartbeat(
    line_ends: Seq<u8>,
    rest: Seq<u8>,
    version: StompVersion,
    max: nat,
)
    requires
        line_ends.len() > 0,
        forall|i: int|
            0 <= i < line_ends.len() ==> #[trigger] line_ends[i] == CR || line_ends[i] == LF,
        rest.len() > 0 ==> rest[0] != CR && rest[0] != LF,
    ensures
        codec::received(line_ends + rest, version, max) == Received::Frame(
            codec::heartbeat(),
            line_ends.len() as int,
        ),
{
    let s = line_ends + rest;
    let n = line_ends.len() as int;
    assert forall|i: int| 0 <= i < n implies !Stop::NonLineEnd.at(#[trigger] s[i]) by {
        assert(s[i] == line_ends[i]);
    }
    if rest.len() > 0 {
        assert(s[n] == rest[0]);
        find_is(s, 0, Stop::NonLineEnd, n);
    } else {
        parse::find_bounds(s, 0, Stop::NonLineEnd);
        let k = parse::find(s, 0, Stop::NonLineEnd);
        if k < s.len() {
            assert(!Stop::NonLineEnd.at(s[k]));
        }
    }
}

} // verus!
