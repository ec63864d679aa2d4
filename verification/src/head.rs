use vstd::prelude::*;
use crate::header::{header_views, Header, HeaderView};

verus! {

/// The parser's error. Nothing of it is looked at: every parse error is a
/// protocol error.
#[verifier::external_type_specification]
#[verifier::external_body]
pub struct ExParseError(httparse::Error);

/// A response head as the parser found it in a buffer.
pub enum Head<'a> {
    /// The buffer begins with a whole head.
    Complete {
        /// How many bytes the head takes.
        len: usize,
        /// The status code, where the status line gave one.
        code: Option<u16>,
        /// The headers, in the order they came.
        headers: Vec<Header<'a>>,
    },
    /// The buffer ends before the head does.
    Partial,
}

/// What a parsed head holds.
pub enum HeadView {
    Complete { len: nat, code: Option<u16>, headers: Seq<HeaderView> },
    Partial,
}

impl<'a> View for Head<'a> {
    type V = HeadView;

    open spec fn view(&self) -> HeadView {
        match *self {
            Head::Complete { len, code, headers } => HeadView::Complete {
                len: len as nat,
                code,
                headers: header_views(headers@),
            },
            Head::Partial => HeadView::Partial,
        }
    }
}

/// What `httparse` makes of `bytes` as the start of a response when it has
/// room for `capacity` headers: the head, or `None` where it rejects the
/// bytes or finds more headers than it has room for.
pub uninterp spec fn parsed_head(bytes: Seq<u8>, capacity: nat) -> Option<HeadView>;

/// What the parser keeps to for a whole head: it lies within the bytes, it
/// has a status code, and its headers are no more than there was room for.
pub open spec fn within(head: HeadView, bytes: Seq<u8>, capacity: nat) -> bool {
    match head {
        HeadView::Complete { len, code, headers } => {
            &&& len <= bytes.len()
            &&& code is Some
            &&& headers.len() <= capacity
        },
        HeadView::Partial => true,
    }
}

/// Parses the head of a response with `httparse::Response::parse`, over
/// `capacity` empty header slots.
///
/// Not proved: that the result is a function of the bytes and the number of
/// slots alone, of which `parsed_head` is the name; and that a whole head
/// is as `within` says: the length that the parser returns is a number of
/// bytes it has read from the buffer, it sets the code before it reads the
/// headers, and it hands back the slots that it has filled.
#[verifier::external_body]
pub(crate) fn parse_head<'a>(buf: &'a [u8], capacity: usize) -> (r: Result<
    Head<'a>,
    httparse::Error,
>)
    ensures
        match r {
            Ok(head) => parsed_head(buf@, capacity as nat) == Some(head@) && within(
                head@,
                buf@,
                capacity as nat,
            ),
            Err(_) => parsed_head(buf@, capacity as nat) is None,
        },
{
    let mut slots = vec![httparse::EMPTY_HEADER; capacity];
    let mut response = httparse::Response::new(&mut slots);
    match response.parse(buf)? {
        httparse::Status::Complete(len) => Ok(
            Head::Complete {
                len,
                code: response.code,
                headers: response.headers.iter().map(
                    |h| Header { name: h.name, value: h.value },
                ).collect(),
            },
        ),
        httparse::Status::Partial => Ok(Head::Partial),
    }
}

} // verus!
