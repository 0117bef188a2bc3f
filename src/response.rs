//! The text of the answers: a fixed status line and header set, the body's
//! length in bytes, a blank line and the body.

use vstd::prelude::*;

verus! {

/// The character of the decimal digit `d`.
pub open spec fn digit_char(d: int) -> char {
    seq!['0', '1', '2', '3', '4', '5', '6', '7', '8', '9'][d]
}

/// The decimal digits of `n`, most significant first.
pub open spec fn decimal(n: nat) -> Seq<char>
    decreases n,
{
    if n < 10 {
        seq![digit_char(n as int)]
    } else {
        decimal(n / 10).push(digit_char((n % 10) as int))
    }
}

/// What precedes the body's length in an HTML answer.
pub open spec fn html_head() -> Seq<char> {
    "HTTP/1.1 200 OK\r\nServer: FredWork/0.1.0 \n Content-Type: text/html \nContent-Length: "@
}

/// What precedes the body's length in a JSON answer.
pub open spec fn json_head() -> Seq<char> {
    "HTTP/1.1 200 OK\r\nServer: FredWork/0.1.0\r\nContent-Type: application/json \r\nDataType: json \r\nContent-Length: "@
}

/// What separates the length from the body.
pub open spec fn head_end() -> Seq<char> {
    "\r\n\r\n"@
}

fn push_decimal(n: usize, out: &mut Vec<char>)
    ensures
        final(out)@ == old(out)@ + decimal(n as nat),
    decreases n,
{
    let digits = vec!['0', '1', '2', '3', '4', '5', '6', '7', '8', '9'];
    assert(digits@ == seq!['0', '1', '2', '3', '4', '5', '6', '7', '8', '9']);
    if n >= 10 {
        push_decimal(n / 10, out);
    }
    out.push(digits[n % 10]);
    assert(n < 10 ==> out@ =~= old(out)@ + decimal(n as nat));
    assert(n >= 10 ==> out@ =~= old(out)@ + decimal(n as nat));
}

/// The decimal text of `n`.
pub fn decimal_text(n: usize) -> (r: String)
    ensures
        r@ == decimal(n as nat),
{
    let mut v: Vec<char> = Vec::new();
    push_decimal(n, &mut v);
    assert(v@ =~= decimal(n as nat));
    crate::text::string_of(&v, 0, v.len())
}

/// An HTML answer with `file` as its body.
pub fn html_response(file: &str) -> (r: String)
    ensures
        r@ == html_head() + decimal(file.len() as nat) + head_end() + file@,
{
    let mut r = "HTTP/1.1 200 OK\r\nServer: FredWork/0.1.0 \n Content-Type: text/html \nContent-Length: ".to_owned();
    let len = decimal_text(file.len());
    r.append(len.as_str());
    r.append("\r\n\r\n");
    r.append(file);
    assert(r@ =~= ((html_head() + decimal(file.len() as nat)) + head_end()) + file@);
    r
}

/// A JSON answer with `file` as its body.
pub fn json_response(file: &str) -> (r: String)
    ensures
        r@ == json_head() + decimal(file.len() as nat) + head_end() + file@,
{
    let mut r = "HTTP/1.1 200 OK\r\nServer: FredWork/0.1.0\r\nContent-Type: application/json \r\nDataType: json \r\nContent-Length: ".to_owned();
    let len = decimal_text(file.len());
    r.append(len.as_str());
    r.append("\r\n\r\n");
    r.append(file);
    assert(r@ =~= ((json_head() + decimal(file.len() as nat)) + head_end()) + file@);
    r
}

} // verus!
