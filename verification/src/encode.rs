//! How frames are written as bytes.

use crate::frame::{self, FrameView, Header, StompFrame, StompVersion};
use crate::text;
use std::borrow::Cow;
use vstd::prelude::*;
use vstd::utf8::*;

verus! {

pub const NUL: u8 = 0;

pub const LF: u8 = 10;

pub const CR: u8 = 13;

pub const COLON: u8 = 58;

pub const BACKSLASH: u8 = 92;

/// Whether frames with this command open a connection. Their headers are
/// written without escapes.
pub open spec fn opens_connection(command: Seq<char>) -> bool {
    command == "CONNECT"@ || command == "CONNECTED"@ || command == "STOMP"@
}

/// The version whose escapes a frame is written with. Version 1.0 has none.
pub open spec fn write_rules(command: Seq<char>, version: StompVersion) -> StompVersion {
    if opens_connection(command) {
        StompVersion::V1_0
    } else {
        version
    }
}

/// What stands for a byte of a header's name or value.
pub open spec fn escape_byte(b: u8, rules: StompVersion) -> Seq<u8> {
    if rules == StompVersion::V1_0 {
        seq![b]
    } else if b == CR && rules == StompVersion::V1_2 {
        seq![BACKSLASH, 114]
    } else if b == LF {
        seq![BACKSLASH, 110]
    } else if b == COLON {
        seq![BACKSLASH, 99]
    } else if b == BACKSLASH {
        seq![BACKSLASH, BACKSLASH]
    } else {
        seq![b]
    }
}

/// What stands for a header's name or value.
pub open spec fn escape(bytes: Seq<u8>, rules: StompVersion) -> Seq<u8>
    decreases bytes.len(),
{
    if bytes.len() == 0 {
        seq![]
    } else {
        escape_byte(bytes[0], rules) + escape(bytes.drop_first(), rules)
    }
}

/// The line for one header.
pub open spec fn header_line(header: Header, rules: StompVersion) -> Seq<u8> {
    escape(encode_utf8(header.0), rules) + seq![COLON] + escape(encode_utf8(header.1), rules)
        + seq![LF]
}

/// The lines for a list of headers.
pub open spec fn header_lines(headers: Seq<Header>, rules: StompVersion) -> Seq<u8>
    decreases headers.len(),
{
    if headers.len() == 0 {
        seq![]
    } else {
        header_lines(headers.drop_last(), rules) + header_line(headers.last(), rules)
    }
}

/// The header that gives the length of a body.
pub open spec fn length_header(length: nat) -> Header {
    ("content-length"@, text::decimal(length))
}

/// The headers with which a frame is written: its own ones, `content-length`
/// excepted, and the true length of the body where there is one.
pub open spec fn sent_headers(frame: FrameView) -> Seq<Header> {
    let own = frame::without(frame.headers, "content-length"@);
    match frame.body {
        Some(body) => own.push(length_header(body.len())),
        None => own,
    }
}

/// The bytes for a frame.
pub open spec fn frame_bytes(frame: FrameView, version: StompVersion) -> Seq<u8> {
    let rules = write_rules(frame.command, version);
    encode_utf8(frame.command) + seq![LF] + header_lines(sent_headers(frame), rules) + seq![LF] + (
    match frame.body {
        Some(body) => body,
        None => seq![],
    }) + seq![NUL]
}

/// Lines are written one after the other.
pub proof fn header_lines_concat(a: Seq<Header>, b: Seq<Header>, rules: StompVersion)
    ensures
        header_lines(a + b, rules) == header_lines(a, rules) + header_lines(b, rules),
    decreases b.len(),
{
    if b.len() == 0 {
        assert(a + b =~= a);
        assert(header_lines(a, rules) + header_lines(b, rules) =~= header_lines(a, rules));
    } else {
        assert((a + b).drop_last() =~= a + b.drop_last());
        header_lines_concat(a, b.drop_last(), rules);
        assert(header_lines(a + b, rules) =~= header_lines(a, rules) + header_lines(b, rules));
    }
}

/// Bytes without a line end, a colon or a backslash stand for themselves.
pub proof fn plain_bytes_need_no_escape(bytes: Seq<u8>, rules: StompVersion)
    requires
        forall|i: int|
            0 <= i < bytes.len() ==> {
                let b = #[trigger] bytes[i];
                b != CR && b != LF && b != COLON && b != BACKSLASH
            },
    ensures
        escape(bytes, rules) == bytes,
    decreases bytes.len(),
{
    if bytes.len() > 0 {
        assert(bytes[0] != CR);
        assert forall|i: int| 0 <= i < bytes.drop_first().len() implies {
            let b = #[trigger] bytes.drop_first()[i];
            b != CR && b != LF && b != COLON && b != BACKSLASH
        } by {
            assert(bytes.drop_first()[i] == bytes[i + 1]);
        }
        plain_bytes_need_no_escape(bytes.drop_first(), rules);
    }
    assert(escape(bytes, rules) =~= bytes);
}

/// The bytes of a decimal number are digits.
pub proof fn decimal_bytes(n: nat)
    ensures
        encode_utf8(text::decimal(n)).len() == text::decimal(n).len(),
        forall|i: int|
            0 <= i < encode_utf8(text::decimal(n)).len() ==> 48 <= #[trigger] encode_utf8(
                text::decimal(n),
            )[i] <= 57,
{
    let s = text::decimal(n);
    text::decimal_reads_back(n, n);
    assert forall|i: int| 0 <= i < s.len() implies '\0' <= #[trigger] s[i] <= '\u{7f}' by {
        assert(text::is_digit(s[i]));
    }
    is_ascii_chars_encode_utf8(s);
    assert forall|i: int| 0 <= i < encode_utf8(s).len() implies 48 <= #[trigger] encode_utf8(
        s,
    )[i] <= 57 by {
        assert(text::is_digit(s[i]));
        assert(s[i] as u8 == encode_utf8(s)[i]);
    }
}

/// The bytes of the name `content-length` are letters and a hyphen.
pub proof fn length_name_bytes()
    ensures
        encode_utf8("content-length"@).len() == 14,
        forall|i: int|
            0 <= i < 14 ==> {
                let b = #[trigger] encode_utf8("content-length"@)[i];
                b == 45 || 97 <= b <= 122
            },
{
    reveal_strlit("content-length");
    let s = "content-length"@;
    is_ascii_chars_encode_utf8(s);
    assert forall|i: int| 0 <= i < 14 implies {
        let b = #[trigger] encode_utf8(s)[i];
        b == 45 || 97 <= b <= 122
    } by {
        assert(s[i] as u8 == encode_utf8(s)[i]);
    }
}

/// The line for `content-length` holds no escape.
proof fn length_line(n: nat, rules: StompVersion)
    ensures
        header_line(length_header(n), rules) == encode_utf8("content-length"@) + seq![COLON]
            + encode_utf8(text::decimal(n)) + seq![LF],
{
    length_name_bytes();
    decimal_bytes(n);
    plain_bytes_need_no_escape(encode_utf8("content-length"@), rules);
    plain_bytes_need_no_escape(encode_utf8(text::decimal(n)), rules);
}

/// Writes the bytes of a header's name or value.
fn push_escaped(buf: &mut Vec<u8>, bytes: &[u8], rules: StompVersion)
    ensures
        final(buf)@ == old(buf)@ + escape(bytes@, rules),
{
    let ghost start = buf@;
    let mut i: usize = 0;
    assert(bytes@.skip(0) =~= bytes@);
    while i < bytes.len()
        invariant
            i <= bytes@.len(),
            buf@ + escape(bytes@.skip(i as int), rules) == start + escape(bytes@, rules),
        decreases bytes@.len() - i,
    {
        let b = bytes[i];
        let ghost before = buf@;
        assert(bytes@.skip(i as int).drop_first() =~= bytes@.skip(i as int + 1));
        assert(bytes@.skip(i as int)[0] == b);
        let escaped: Option<u8> = if rules == StompVersion::V1_0 {
            None
        } else if b == CR && rules == StompVersion::V1_2 {
            Some(114)
        } else if b == LF {
            Some(110)
        } else if b == COLON {
            Some(99)
        } else if b == BACKSLASH {
            Some(BACKSLASH)
        } else {
            None
        };
        match escaped {
            Some(code) => {
                buf.push(BACKSLASH);
                buf.push(code);
            },
            None => {
                buf.push(b);
            },
        }
        assert(buf@ =~= before + escape_byte(b, rules));
        assert(buf@ + escape(bytes@.skip(i as int + 1), rules) =~= before + escape(
            bytes@.skip(i as int),
            rules,
        ));
        i += 1;
    }
    assert(bytes@.skip(i as int) =~= seq![]);
    assert(buf@ =~= start + escape(bytes@, rules));
}

/// The line that gives the length of a body.
pub fn get_content_length_header(body: &[u8]) -> (line: Vec<u8>)
    ensures
        line@ == encode_utf8("content-length"@) + seq![COLON] + encode_utf8(
            text::decimal(body@.len()),
        ) + seq![LF],
{
    let mut line: Vec<u8> = Vec::new();
    let name = "content-length";
    let digits = text::decimal_text(body.len() as u64);
    line.extend_from_slice(name.as_bytes());
    line.push(COLON);
    line.extend_from_slice(digits.as_str().as_bytes());
    line.push(LF);
    assert(line@ =~= encode_utf8("content-length"@) + seq![COLON] + encode_utf8(
        text::decimal(body@.len()),
    ) + seq![LF]);
    line
}

/// Whether frames with this command open a connection.
fn is_connection_command(command: &str) -> (yes: bool)
    ensures
        yes == opens_connection(command@),
{
    text::text_eq(command, "CONNECT") || text::text_eq(command, "CONNECTED") || text::text_eq(
        command,
        "STOMP",
    )
}

impl StompFrame<'_> {
    /// The bytes for the frame in the newest version of the protocol.
    pub fn serialize(&'_ self) -> (bytes: Cow<'_, [u8]>)
        ensures
            bytes@ == frame_bytes(self@, StompVersion::V1_2),
    {
        self.serialize_with_version(StompVersion::V1_2)
    }

    /// The bytes for the frame in a given version of the protocol.
    pub fn serialize_with_version(&'_ self, version: StompVersion) -> (bytes: Cow<'_, [u8]>)
        ensures
            bytes@ == frame_bytes(self@, version),
    {
        let command = frame::cow_text(&self.command);
        let rules = if is_connection_command(command) {
            StompVersion::V1_0
        } else {
            version
        };
        let ghost all = self@.headers;
        let ghost keep = |h: Header| h.0 != "content-length"@;
        let mut buf: Vec<u8> = Vec::new();
        buf.extend_from_slice(command.as_bytes());
        buf.push(LF);
        let ghost start = buf@;
        assert(start =~= encode_utf8(self@.command) + seq![LF]);
        let mut i: usize = 0;
        proof {
            reveal(Seq::filter);
            assert(all.take(0) =~= seq![]);
            assert(buf@ =~= start + header_lines(all.take(0).filter(keep), rules));
        }
        while i < self.headers.len()
            invariant
                i <= self.headers@.len(),
                all == self@.headers,
                all == frame::headers_view(self.headers@),
                keep == (|h: Header| h.0 != "content-length"@),
                buf@ == start + header_lines(all.take(i as int).filter(keep), rules),
            decreases self.headers@.len() - i,
        {
            let ghost before = all.take(i as int).filter(keep);
            let ghost written = buf@;
            let ghost this = frame::header_view(self.headers@[i as int]);
            proof {
                reveal(Seq::filter);
                assert(all.take(i as int + 1).drop_last() =~= all.take(i as int));
                assert(all.take(i as int + 1).last() == this);
            }
            let name = self.headers[i].0.as_str();
            if !text::text_eq(name, "content-length") {
                push_escaped(&mut buf, name.as_bytes(), rules);
                buf.push(COLON);
                push_escaped(&mut buf, self.headers[i].1.as_str().as_bytes(), rules);
                buf.push(LF);
                assert(buf@ =~= written + header_line(this, rules));
                assert(before.push(this).drop_last() =~= before);
                assert(buf@ =~= start + header_lines(before.push(this), rules));
            }
            i += 1;
        }
        assert(all.take(i as int) =~= all);
        let ghost own = frame::without(all, "content-length"@);
        assert(buf@ == start + header_lines(own, rules));
        match &self.body {
            Some(body) => {
                let body = frame::cow_bytes(body);
                let line = get_content_length_header(body);
                buf.extend_from_slice(line.as_slice());
                buf.push(LF);
                buf.extend_from_slice(body);
                proof {
                    length_line(body@.len(), rules);
                    let sent = own.push(length_header(body@.len()));
                    assert(sent.drop_last() =~= own);
                    assert(buf@ =~= start + header_lines(sent, rules) + seq![LF] + body@);
                }
            },
            None => {
                buf.push(LF);
            },
        }
        buf.push(NUL);
        assert(buf@ =~= frame_bytes(self@, version));
        Cow::Owned(buf)
    }
}

} // verus!
