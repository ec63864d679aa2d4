use vstd::prelude::*;

verus! {

/// A header as a name and a value, both borrowed from a larger buffer.
#[derive(Debug, Clone, Copy)]
pub struct Header<'a> {
    /// The name, as text.
    pub name: &'a str,
    /// The value, as raw bytes.
    pub value: &'a [u8],
}

/// What a header holds.
pub struct HeaderView {
    pub name: Seq<char>,
    pub value: Seq<u8>,
}

impl<'a> View for Header<'a> {
    type V = HeaderView;

    open spec fn view(&self) -> HeaderView {
        HeaderView { name: self.name@, value: self.value@ }
    }
}

/// What a list of headers holds, in order.
pub open spec fn header_views(headers: Seq<Header<'_>>) -> Seq<HeaderView> {
    headers.map_values(|h: Header<'_>| h@)
}

} // verus!
