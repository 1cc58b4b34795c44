//! STOMP frames and protocol versions.

use crate::text;
use std::borrow::Cow;
use vstd::prelude::*;

verus! {

/// A version of the STOMP protocol.
#[derive(Debug, Clone, Copy, PartialEq, Eq, Structural)]
pub enum StompVersion {
    V1_0,
    V1_1,
    V1_2,
}

impl Default for StompVersion {
    fn default() -> (version: Self)
        ensures
            version == StompVersion::V1_2,
    {
        StompVersion::V1_2
    }
}

/// A STOMP frame: a command, headers in order, and an optional body.
#[derive(Debug)]
pub struct StompFrame<'a> {
    pub command: Cow<'a, str>,
    pub headers: Vec<(String, String)>,
    pub body: Option<Cow<'a, [u8]>>,
}

/// A header: its name and its value.
pub type Header = (Seq<char>, Seq<char>);

/// What a frame says.
#[verifier::ext_equal]
pub struct FrameView {
    pub command: Seq<char>,
    pub headers: Seq<Header>,
    pub body: Option<Seq<u8>>,
}

/// What one header says.
pub open spec fn header_view(header: (String, String)) -> Header {
    (header.0@, header.1@)
}

/// What a list of headers says.
pub open spec fn headers_view(headers: Seq<(String, String)>) -> Seq<Header> {
    headers.map_values(|header: (String, String)| header_view(header))
}

impl<'a> View for StompFrame<'a> {
    type V = FrameView;

    open spec fn view(&self) -> FrameView {
        FrameView {
            command: self.command@,
            headers: headers_view(self.headers@),
            body: match self.body {
                Some(body) => Some(body@),
                None => None,
            },
        }
    }
}

/// The value of the first header called `name`.
pub open spec fn header(headers: Seq<Header>, name: Seq<char>) -> Option<Seq<char>>
    decreases headers.len(),
{
    if headers.len() == 0 {
        None
    } else if headers[0].0 == name {
        Some(headers[0].1)
    } else {
        header(headers.drop_first(), name)
    }
}

/// `headers` without those called `name`.
pub open spec fn without(headers: Seq<Header>, name: Seq<char>) -> Seq<Header> {
    headers.filter(|h: Header| h.0 != name)
}

/// A header at the end is seen only where none before it has its name.
pub proof fn header_of_push(headers: Seq<Header>, last: Header, name: Seq<char>)
    ensures
        header(headers.push(last), name) == match header(headers, name) {
            Some(value) => Some(value),
            None => if last.0 == name {
                Some(last.1)
            } else {
                None
            },
        },
    decreases headers.len(),
{
    if headers.len() > 0 {
        assert(headers.push(last).drop_first() =~= headers.drop_first().push(last));
        header_of_push(headers.drop_first(), last, name);
    } else {
        assert(headers.push(last).drop_first() =~= headers);
    }
}

/// Taking out the headers of one name leaves those of other names.
pub proof fn header_of_without(headers: Seq<Header>, gone: Seq<char>, name: Seq<char>)
    ensures
        header(without(headers, gone), name) == if name == gone {
            None
        } else {
            header(headers, name)
        },
    decreases headers.len(),
{
    reveal(Seq::filter);
    if headers.len() > 0 {
        let rest = headers.drop_last();
        header_of_without(rest, gone, name);
        header_of_push(rest, headers.last(), name);
        header_of_push(without(rest, gone), headers.last(), name);
        assert(rest.push(headers.last()) =~= headers);
    }
}

/// A header that replaces those of its name is the one that is seen. Headers of
/// other names are seen as before.
pub proof fn replaced_headers_are_seen(
    headers: Seq<Header>,
    name: Seq<char>,
    value: Seq<char>,
    other: Seq<char>,
)
    ensures
        header(without(headers, name).push((name, value)), name) == Some(value),
        other != name ==> header(without(headers, name).push((name, value)), other) == header(
            headers,
            other,
        ),
{
    header_of_without(headers, name, name);
    header_of_without(headers, name, other);
    header_of_push(without(headers, name), (name, value), name);
    header_of_push(without(headers, name), (name, value), other);
}

/// Where there are no headers, none is seen and none can be taken out. A header
/// at the end is taken out if it has the name, and stays otherwise.
pub proof fn headers_are_taken_out_by_name(
    headers: Seq<Header>,
    last: Header,
    name: Seq<char>,
)
    ensures
        header(Seq::empty(), name) is None,
        without(Seq::empty(), name) == Seq::<Header>::empty(),
        without(headers.push(last), name) == if last.0 == name {
            without(headers, name)
        } else {
            without(headers, name).push(last)
        },
{
    reveal(Seq::filter);
    assert(headers.push(last).drop_last() =~= headers);
    assert(without(Seq::empty(), name) =~= Seq::<Header>::empty());
}

/// The text that a borrowed or owned string holds.
pub fn cow_text<'b>(text: &'b Cow<'_, str>) -> (s: &'b str)
    ensures
        s@ == text@,
{
    match text {
        Cow::Borrowed(s) => s,
        Cow::Owned(s) => s.as_str(),
    }
}

/// The bytes that a borrowed or owned slice holds.
pub fn cow_bytes<'b>(bytes: &'b Cow<'_, [u8]>) -> (s: &'b [u8])
    ensures
        s@ == bytes@,
{
    match bytes {
        Cow::Borrowed(s) => s,
        Cow::Owned(s) => s.as_slice(),
    }
}

/// A copy of a list of headers.
pub fn copy_headers(headers: &Vec<(String, String)>) -> (copy: Vec<(String, String)>)
    ensures
        copy@ == headers@,
{
    let mut out: Vec<(String, String)> = Vec::new();
    let mut i: usize = 0;
    while i < headers.len()
        invariant
            i <= headers@.len(),
            out@ == headers@.take(i as int),
        decreases headers@.len() - i,
    {
        let pair = (headers[i].0.clone(), headers[i].1.clone());
        out.push(pair);
        assert(out@ =~= headers@.take(i as int + 1));
        i += 1;
    }
    assert(out@ =~= headers@);
    out
}

/// A copy of a slice of bytes.
pub fn copy_bytes(bytes: &[u8]) -> (copy: Vec<u8>)
    ensures
        copy@ == bytes@,
{
    let mut out: Vec<u8> = Vec::new();
    out.extend_from_slice(bytes);
    assert(out@ =~= bytes@);
    out
}

/// The position of the first header called `name`.
pub fn find_header(headers: &Vec<(String, String)>, name: &str) -> (at: Option<usize>)
    ensures
        match at {
            Some(i) => {
                &&& i < headers@.len()
                &&& headers@[i as int].0@ == name@
                &&& header(headers_view(headers@), name@) == Some(headers@[i as int].1@)
                &&& forall|j: int| 0 <= j < i ==> (#[trigger] headers@[j]).0@ != name@
            },
            None => {
                &&& header(headers_view(headers@), name@) is None
                &&& forall|j: int| 0 <= j < headers@.len() ==> (#[trigger] headers@[j]).0@ != name@
            },
        },
{
    let ghost all = headers_view(headers@);
    let mut i: usize = 0;
    assert(all.skip(0) =~= all);
    while i < headers.len()
        invariant
            i <= headers@.len(),
            all == headers_view(headers@),
            header(all, name@) == header(all.skip(i as int), name@),
            forall|j: int| 0 <= j < i ==> (#[trigger] headers@[j]).0@ != name@,
        decreases headers@.len() - i,
    {
        assert(all.skip(i as int)[0] == header_view(headers@[i as int]));
        if text::text_eq(headers[i].0.as_str(), name) {
            return Some(i);
        }
        assert(all.skip(i as int).drop_first() =~= all.skip(i as int + 1));
        i += 1;
    }
    None
}

/// Takes every header called `name` out of a list.
pub fn remove_headers(headers: Vec<(String, String)>, name: &str) -> (kept: Vec<(
    String,
    String,
)>)
    ensures
        headers_view(kept@) == without(headers_view(headers@), name@),
{
    let ghost keep = |h: Header| h.0 != name@;
    let ghost all = headers_view(headers@);
    let mut out: Vec<(String, String)> = Vec::new();
    let mut i: usize = 0;
    proof {
        assert(all.take(0) =~= seq![]);
        reveal(Seq::filter);
        assert(headers_view(out@) =~= all.take(0).filter(keep));
    }
    while i < headers.len()
        invariant
            i <= headers@.len(),
            all == headers_view(headers@),
            keep == (|h: Header| h.0 != name@),
            headers_view(out@) == all.take(i as int).filter(keep),
        decreases headers@.len() - i,
    {
        let ghost before = headers_view(out@);
        proof {
            reveal(Seq::filter);
            assert(all.take(i as int + 1).drop_last() =~= all.take(i as int));
            assert(all.take(i as int + 1).last() == header_view(headers@[i as int]));
        }
        if !text::text_eq(headers[i].0.as_str(), name) {
            let pair = (headers[i].0.clone(), headers[i].1.clone());
            out.push(pair);
            assert(headers_view(out@) =~= before.push(header_view(headers@[i as int])));
        }
        i += 1;
    }
    assert(all.take(i as int) =~= all);
    out
}

/// Adds a header at the end of a list.
pub fn push_header(headers: &mut Vec<(String, String)>, name: &str, value: String)
    ensures
        headers_view(final(headers)@) == headers_view(old(headers)@).push((name@, value@)),
{
    let ghost before = headers_view(headers@);
    headers.push((name.to_string(), value));
    assert(headers_view(headers@) =~= before.push((name@, value@)));
}

impl<'a> StompFrame<'a> {
    /// The same frame, borrowing nothing.
    pub fn into_owned(self) -> (owned: StompFrame<'static>)
        ensures
            owned@ == self@,
    {
        let command: Cow<'static, str> = match self.command {
            Cow::Borrowed(s) => Cow::Owned(s.to_owned()),
            Cow::Owned(s) => Cow::Owned(s),
        };
        let body: Option<Cow<'static, [u8]>> = match self.body {
            Some(Cow::Borrowed(b)) => Some(Cow::Owned(copy_bytes(b))),
            Some(Cow::Owned(b)) => Some(Cow::Owned(b)),
            None => None,
        };
        StompFrame { command, headers: self.headers, body }
    }

    /// A copy of the frame that borrows nothing.
    pub fn to_static(&self) -> (copy: StompFrame<'static>)
        ensures
            copy@ == self@,
    {
        let body: Option<Cow<'static, [u8]>> = match &self.body {
            Some(b) => Some(Cow::Owned(copy_bytes(cow_bytes(b)))),
            None => None,
        };
        StompFrame {
            command: Cow::Owned(cow_text(&self.command).to_owned()),
            headers: copy_headers(&self.headers),
            body,
        }
    }

    /// The value of the first header called `name`. Later headers of the same
    /// name are ignored.
    pub fn get_header(&self, name: &str) -> (value: Option<&str>)
        ensures
            match value {
                Some(v) => header(self@.headers, name@) == Some(v@),
                None => header(self@.headers, name@) is None,
            },
    {
        match find_header(&self.headers, name) {
            Some(i) => Some(self.headers[i].1.as_str()),
            None => None,
        }
    }

    /// Whether the frame's command is `name`.
    pub fn is_command(&self, name: &str) -> (yes: bool)
        ensures
            yes == (self@.command == name@),
    {
        text::text_eq(cow_text(&self.command), name)
    }
}

impl<'a> Clone for StompFrame<'a> {
    fn clone(&self) -> (copy: Self)
        ensures
            copy@ == self@,
    {
        self.to_static()
    }
}

/// A frame without a body.
pub fn bodiless(command: &'static str, headers: Vec<(String, String)>) -> (frame: StompFrame<
    'static,
>)
    ensures
        frame@ == (FrameView {
            command: command@,
            headers: headers_view(headers@),
            body: None,
        }),
{
    StompFrame { command: Cow::Borrowed(command), headers, body: None }
}

/// What a frame says is all that it holds: the command, every header in its place
/// with its name and its value, and the body.
pub proof fn frames_say_all_that_they_hold(frame: StompFrame<'_>, i: int)
    ensures
        frame@.command == frame.command@,
        frame@.headers.len() == frame.headers@.len(),
        0 <= i < frame.headers@.len() ==> frame@.headers[i].0 == frame.headers@[i].0@
            && frame@.headers[i].1 == frame.headers@[i].1@,
        frame@.body is Some <==> frame.body is Some,
        frame.body is Some ==> frame@.body->0 == frame.body->0@,
        headers_view(frame.headers@) == frame@.headers,
{
}

} // verus!
