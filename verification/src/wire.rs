use vstd::prelude::*;
use vstd::string::*;
use vstd::utf8::encode_utf8;
use crate::header::HeaderView;

verus! {

/// The ASCII digit for `d`, where `d` is below ten.
pub open spec fn digit(d: nat) -> u8 {
    (48 + d) as u8
}

/// The decimal text of `n`: no sign, no leading zero, `0` for zero.
pub open spec fn decimal(n: nat) -> Seq<u8>
    decreases n,
{
    if n < 10 {
        seq![digit(n)]
    } else {
        decimal(n / 10).push(digit(n % 10))
    }
}

/// The number that a run of ASCII digits stands for.
pub open spec fn decimal_value(digits: Seq<u8>) -> nat
    decreases digits.len(),
{
    if digits.len() == 0 {
        0
    } else {
        decimal_value(digits.drop_last()) * 10 + (digits.last() - 48) as nat
    }
}

/// The first line of a request.
pub open spec fn request_line(method: Seq<char>, path: Seq<char>) -> Seq<u8> {
    encode_utf8(method) + " ".spec_bytes() + encode_utf8(path) + " ".spec_bytes()
        + "HTTP/1.1\r\n".spec_bytes()
}

/// One header on the wire: name, colon, value, line end. Nothing is added
/// around the colon.
pub open spec fn header_line(name: Seq<u8>, value: Seq<u8>) -> Seq<u8> {
    name + ":".spec_bytes() + value + "\r\n".spec_bytes()
}

/// The caller's headers on the wire, in the caller's order.
pub open spec fn header_lines(headers: Seq<HeaderView>) -> Seq<u8>
    decreases headers.len(),
{
    if headers.len() == 0 {
        Seq::empty()
    } else {
        header_lines(headers.drop_last()) + header_line(
            encode_utf8(headers.last().name),
            headers.last().value,
        )
    }
}

/// How many bytes of body a request carries: none where it has no body.
pub open spec fn body_len(body: Option<Seq<u8>>) -> nat {
    match body {
        Some(bytes) => bytes.len(),
        None => 0,
    }
}

/// The digits of the `Content-Length` that a request announces.
pub open spec fn length_digits(body: Option<Seq<u8>>) -> Seq<u8> {
    decimal(body_len(body))
}

/// The `Content-Length` header that every request ends its headers with,
/// whatever headers the caller gave.
pub open spec fn content_length_line(body: Option<Seq<u8>>) -> Seq<u8> {
    header_line("Content-Length".spec_bytes(), length_digits(body))
}

/// What follows the blank line that ends the headers: for a request with a
/// body, one more blank line and then the body as it is.
pub open spec fn body_part(body: Option<Seq<u8>>) -> Seq<u8> {
    match body {
        Some(bytes) => "\r\n".spec_bytes() + bytes,
        None => Seq::empty(),
    }
}

/// A whole request as it goes over the wire.
pub open spec fn request_bytes(
    method: Seq<char>,
    path: Seq<char>,
    headers: Seq<HeaderView>,
    body: Option<Seq<u8>>,
) -> Seq<u8> {
    request_line(method, path) + header_lines(headers) + content_length_line(body)
        + "\r\n".spec_bytes() + body_part(body)
}

/// Appends the decimal text of `n` to `out`.
pub fn push_decimal(n: usize, out: &mut Vec<u8>)
    ensures
        final(out)@ == old(out)@ + decimal(n as nat),
    decreases n,
{
    if n >= 10 {
        push_decimal(n / 10, out);
    }
    let d: u8 = (n % 10) as u8;
    out.push(48 + d);
    assert(out@ =~= old(out)@ + decimal(n as nat));
}

/// The decimal text of `n`.
pub fn decimal_text(n: usize) -> (text: Vec<u8>)
    ensures
        text@ == decimal(n as nat),
{
    let mut text: Vec<u8> = Vec::new();
    push_decimal(n, &mut text);
    assert(text@ =~= decimal(n as nat));
    text
}

/// The decimal text of a number reads back as that number.
pub proof fn lemma_decimal_value_of_decimal(n: nat)
    ensures
        decimal_value(decimal(n)) == n,
    decreases n,
{
    if n < 10 {
        let text = seq![digit(n)];
        assert(text.drop_last() =~= Seq::<u8>::empty());
        assert(decimal_value(text.drop_last()) == 0);
    } else {
        lemma_decimal_value_of_decimal(n / 10);
        let text = decimal(n / 10).push(digit(n % 10));
        assert(text.drop_last() =~= decimal(n / 10));
    }
}

/// Decimal text is made of ASCII digits only, and begins with `0` only
/// where the number is zero.
pub proof fn lemma_decimal_is_digits(n: nat)
    ensures
        decimal(n).len() >= 1,
        forall|i: int| 0 <= i < decimal(n).len() ==> 48 <= #[trigger] decimal(n)[i] <= 57,
        decimal(n)[0] == 48 <==> n == 0,
    decreases n,
{
    if n >= 10 {
        lemma_decimal_is_digits(n / 10);
    }
}

/// The `Content-Length` that a request announces is the length of its
/// body, for every body and for none.
pub proof fn lemma_content_length_is_body_length(body: Option<Seq<u8>>)
    ensures
        decimal_value(length_digits(body)) == body_len(body),
        body is None ==> decimal_value(length_digits(body)) == 0,
{
    lemma_decimal_value_of_decimal(body_len(body));
}

/// The fixed parts of a request, byte by byte.
pub proof fn lemma_fixed_parts()
    ensures
        " ".spec_bytes() == seq![32u8],
        ":".spec_bytes() == seq![58u8],
        "\r\n".spec_bytes() == seq![13u8, 10u8],
        "HTTP/1.1\r\n".spec_bytes() == seq![72u8, 84, 84, 80, 47, 49, 46, 49, 13, 10],
        "Content-Length".spec_bytes() == seq![
            67u8,
            111,
            110,
            116,
            101,
            110,
            116,
            45,
            76,
            101,
            110,
            103,
            116,
            104,
        ],
{
    reveal_strlit(" ");
    reveal_strlit(":");
    reveal_strlit("\r\n");
    reveal_strlit("HTTP/1.1\r\n");
    reveal_strlit("Content-Length");
    assert(is_ascii(" ") && is_ascii(":") && is_ascii("\r\n"));
    assert(is_ascii("HTTP/1.1\r\n") && is_ascii("Content-Length"));
    assert(" ".spec_bytes() =~= seq![32u8]);
    assert(":".spec_bytes() =~= seq![58u8]);
    assert("\r\n".spec_bytes() =~= seq![13u8, 10u8]);
    assert("HTTP/1.1\r\n".spec_bytes() =~= seq![72u8, 84, 84, 80, 47, 49, 46, 49, 13, 10]);
    assert("Content-Length".spec_bytes() =~= seq![
        67u8,
        111,
        110,
        116,
        101,
        110,
        116,
        45,
        76,
        101,
        110,
        103,
        116,
        104,
    ]);
}

} // verus!
