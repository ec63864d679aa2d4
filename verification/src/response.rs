use vstd::prelude::*;
use vstd::slice::slice_subrange;
use crate::head::{Head, HeadView};
use crate::header::{header_views, Header, HeaderView};

verus! {

/// A numeric HTTP status value. No meaning is attached to the number.
#[derive(Debug, Clone, Copy)]
pub struct StatusCode(u16);

impl View for StatusCode {
    type V = u16;

    closed spec fn view(&self) -> u16 {
        self.0
    }
}

impl StatusCode {
    /// The number.
    pub fn as_u16(&self) -> (code: u16)
        ensures
            code == self@,
    {
        self.0
    }
}

/// What a response holds.
pub struct ResponseView {
    pub status_code: u16,
    /// The headers in order, or `None` where the response had none.
    pub headers: Option<Seq<HeaderView>>,
    pub body: Seq<u8>,
}

/// What a parsed head and the buffer it was parsed from give, where `fresh`
/// bytes at the end of `buf` came in with this exchange.
///
/// The body starts `fresh - len` bytes into the buffer, `len` being the
/// length of the head. There is no response where the head is partial, has
/// no status code, or is longer than what came in.
pub open spec fn response_of(head: HeadView, buf: Seq<u8>, fresh: nat) -> Option<ResponseView> {
    match head {
        HeadView::Complete { len, code: Some(code), headers } => if len <= fresh {
            Some(
                ResponseView {
                    status_code: code,
                    headers: if headers.len() != 0 {
                        Some(headers)
                    } else {
                        None
                    },
                    body: buf.subrange(fresh - len, buf.len() as int),
                },
            )
        } else {
            None
        },
        _ => None,
    }
}

/// The result of a request. Headers and body are views into the buffer of
/// the client that made the request.
pub struct Response<'a> {
    status_code: StatusCode,
    headers: Option<Vec<Header<'a>>>,
    body: &'a [u8],
}

impl<'a> View for Response<'a> {
    type V = ResponseView;

    closed spec fn view(&self) -> ResponseView {
        ResponseView {
            status_code: self.status_code@,
            headers: match self.headers {
                Some(headers) => Some(header_views(headers@)),
                None => None,
            },
            body: self.body@,
        }
    }
}

impl<'a> Response<'a> {
    #[verifier::type_invariant]
    spec fn has_headers_or_none(self) -> bool {
        self.headers matches Some(headers) ==> headers@.len() != 0
    }

    /// Builds the response from a parsed head and the buffer that it was
    /// parsed from, of which the last `fresh` bytes came in with this
    /// exchange.
    pub fn from_head(head: Head<'a>, buf: &'a [u8], fresh: usize) -> (r: Option<Response<'a>>)
        requires
            fresh <= buf@.len(),
        ensures
            match r {
                Some(response) => response_of(head@, buf@, fresh as nat) == Some(response@),
                None => response_of(head@, buf@, fresh as nat) is None,
            },
    {
        match head {
            Head::Complete { len, code: Some(code), headers } => {
                if len <= fresh {
                    let body = slice_subrange(buf, fresh - len, buf.len());
                    let headers = if headers.len() != 0 {
                        Some(headers)
                    } else {
                        None
                    };
                    Some(Response { status_code: StatusCode(code), headers, body })
                } else {
                    None
                }
            },
            _ => None,
        }
    }

    /// The status code.
    pub fn status_code(&self) -> (code: StatusCode)
        ensures
            code@ == self@.status_code,
    {
        self.status_code
    }

    /// The headers in order, or `None` where the response had none: never
    /// an empty list.
    pub fn headers(&self) -> (headers: Option<&[Header<'a>]>)
        ensures
            match headers {
                Some(list) => self@.headers == Some(header_views(list@)) && list@.len() != 0,
                None => self@.headers is None,
            },
    {
        proof {
            use_type_invariant(self);
        }
        match &self.headers {
            Some(list) => Some(list.as_slice()),
            None => None,
        }
    }

    /// The body.
    pub fn body(&self) -> (body: &[u8])
        ensures
            body@ == self@.body,
    {
        self.body
    }
}

} // verus!
