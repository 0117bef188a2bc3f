//! The request parser: request line, header block and multipart body.

use vstd::prelude::*;
use crate::table::{find_last, Table};
use crate::text::{
    chars_of, contains, contains_in, crlf_spans, is_ws, join_space, lemma_split_once_at, lemma_tokens_nonempty,
    lemma_tokens_word, lemma_tokens_ws, remove_all, remove_all_in, span_is,
    spans_view, spans_within, split_crlf, split_on, split_once, split_once_spans, split_spans,
    string_of, token_spans, tokens,
};

verus! {

/// The methods that the router knows.
#[derive(Clone, Copy, PartialEq, Eq, Structural, Debug)]
pub enum Protocols {
    GET,
    POST,
    PUT,
    DELETE,
}

/// Why a request is dropped without an answer.
#[derive(Clone, Copy, PartialEq, Eq, Structural, Debug)]
pub enum RequestError {
    /// No request line, or one with fewer than two tokens.
    MalformedRequest,
    /// A method outside `GET`, `POST`, `PUT`, `DELETE`.
    UnsupportedMethod,
}

/// A parsed request.
#[derive(Debug)]
pub struct UrlData {
    pub protocol: Protocols,
    /// The request target up to its first `?`.
    pub end_point: String,
    /// The query parameters, when the target has a `?`.
    pub params: Option<Table<Option<String>>>,
    /// The header lines, name to value.
    pub http_request: Table<String>,
    /// The multipart form fields, when the request has a body.
    pub body: Option<Table<String>>,
}

/// The method that a request line's first token names, if it names one.
pub open spec fn method_of(t: Seq<char>) -> Option<Protocols> {
    if t == "GET"@ {
        Some(Protocols::GET)
    } else if t == "POST"@ {
        Some(Protocols::POST)
    } else if t == "PUT"@ {
        Some(Protocols::PUT)
    } else if t == "DELETE"@ {
        Some(Protocols::DELETE)
    } else {
        None
    }
}

/// The method of a request line.
pub open spec fn protocol_of(line: Seq<char>) -> Result<Protocols, RequestError> {
    let t = tokens(line);
    if t.len() < 2 {
        Err(RequestError::MalformedRequest)
    } else {
        match method_of(t[0]) {
            Some(m) => Ok(m),
            None => Err(RequestError::UnsupportedMethod),
        }
    }
}

/// The request target: the second token of the request line.
pub open spec fn target_of(line: Seq<char>) -> Seq<char> {
    tokens(line)[1]
}

/// The path of a request line: its target up to the first `?`.
pub open spec fn path_of(line: Seq<char>) -> Seq<char> {
    split_once(target_of(line), '?').0
}

/// The query parameters of a query string: each `&`-separated piece cut at
/// its first `=` into a name and, if there is an `=`, a value.
pub open spec fn param_pairs(q: Seq<char>) -> Seq<(Seq<char>, Option<Seq<char>>)> {
    split_on(q, '&').map_values(|p: Seq<char>| split_once(p, '='))
}

/// The query parameters of a request line, if its target has a `?`.
pub open spec fn query_of(line: Seq<char>) -> Option<Seq<(Seq<char>, Option<Seq<char>>)>> {
    match split_once(target_of(line), '?').1 {
        Some(q) => Some(param_pairs(q)),
        None => None,
    }
}

/// The method of a request line.
pub fn get_protocol(request: &str) -> (r: Result<Protocols, RequestError>)
    ensures
        r == protocol_of(request@),
{
    let s = chars_of(request);
    let t = token_spans(&s, 0, s.len());
    assert(s@.subrange(0, s@.len() as int) =~= s@);
    if t.len() < 2 {
        return Err(RequestError::MalformedRequest);
    }
    let (a, b) = t[0];
    assert(spans_view(s@, t@)[0] == s@.subrange(a as int, b as int));
    if span_is(&s, a, b, &chars_of("GET")) {
        Ok(Protocols::GET)
    } else if span_is(&s, a, b, &chars_of("POST")) {
        Ok(Protocols::POST)
    } else if span_is(&s, a, b, &chars_of("PUT")) {
        Ok(Protocols::PUT)
    } else if span_is(&s, a, b, &chars_of("DELETE")) {
        Ok(Protocols::DELETE)
    } else {
        Err(RequestError::UnsupportedMethod)
    }
}

/// The span of the request target in the characters of a request line.
fn target_span(s: &Vec<char>) -> (r: (usize, usize))
    requires
        tokens(s@).len() >= 2,
    ensures
        r.0 <= r.1 <= s@.len(),
        s@.subrange(r.0 as int, r.1 as int) == target_of(s@),
{
    let t = token_spans(s, 0, s.len());
    assert(s@.subrange(0, s@.len() as int) =~= s@);
    assert(spans_view(s@, t@)[1] == s@.subrange(t@[1].0 as int, t@[1].1 as int));
    t[1]
}

/// The path of a request line: its target up to the first `?`.
pub fn get_end_point(request: &str) -> (r: String)
    requires
        tokens(request@).len() >= 2,
    ensures
        r@ == path_of(request@),
{
    let s = chars_of(request);
    let (a, b) = target_span(&s);
    let (p, _) = split_once_spans(&s, a, b, '?');
    string_of(&s, p.0, p.1)
}

/// The query parameters of a request line, when its target has a `?`.
pub fn get_url_params(request: &str) -> (r: Option<Table<Option<String>>>)
    requires
        tokens(request@).len() >= 2,
    ensures
        match query_of(request@) {
            Some(q) => r is Some && r->Some_0.deep() == q,
            None => r is None,
        },
{
    let s = chars_of(request);
    let (a, b) = target_span(&s);
    let (_, q) = split_once_spans(&s, a, b, '?');
    let (qa, qb) = match q {
        Some(q) => q,
        None => return None,
    };
    let ghost qs = s@.subrange(qa as int, qb as int);
    let pieces = split_spans(&s, qa, qb, '&');
    let ghost pv = spans_view(s@, pieces@);
    let mut table: Table<Option<String>> = Table::new();
    proof {
        Table::lemma_deep_empty(&table);
    }
    let mut k: usize = 0;
    while k < pieces.len()
        invariant
            k <= pieces@.len(),
            pv == spans_view(s@, pieces@),
            pv == split_on(qs, '&'),
            spans_within(pieces@, qa as int, qb as int),
            qb <= s@.len(),
            table.deep() == pv.subrange(0, k as int).map_values(
                |p: Seq<char>| split_once(p, '='),
            ),
        decreases pieces@.len() - k,
    {
        let (pa, pb) = pieces[k];
        assert(pv[k as int] == s@.subrange(pa as int, pb as int));
        let (kk, vv) = split_once_spans(&s, pa, pb, '=');
        let key = string_of(&s, kk.0, kk.1);
        let value = match vv {
            Some(v) => Some(string_of(&s, v.0, v.1)),
            None => None,
        };
        let ghost old_t = table;
        table.insert(key, value);
        proof {
            Table::lemma_deep_push(&old_t, &table, key@, value);
            assert(pv.subrange(0, k + 1).map_values(|p: Seq<char>| split_once(p, '='))
                =~= pv.subrange(0, k as int).map_values(|p: Seq<char>| split_once(p, '=')).push(
                split_once(pv[k as int], '='),
            ));
        }
        k = k + 1;
    }
    assert(pv.subrange(0, k as int) =~= pv);
    Some(table)
}

/// A header line split into its name (the first token without its last
/// character, the colon) and its value (the other tokens joined by single
/// spaces); lines with fewer than two tokens give nothing.
pub open spec fn header_entry(line: Seq<char>) -> Option<(Seq<char>, Seq<char>)> {
    let t = tokens(line);
    if t.len() < 2 {
        None
    } else {
        Some((t[0].drop_last(), join_space(t.subrange(1, t.len() as int))))
    }
}

/// The header entries of a sequence of header lines, in order.
pub open spec fn header_pairs(lines: Seq<Seq<char>>) -> Seq<(Seq<char>, Seq<char>)>
    decreases lines.len(),
{
    if lines.len() == 0 {
        seq![]
    } else {
        let r = header_pairs(lines.drop_last());
        match header_entry(lines.last()) {
            Some(e) => r.push(e),
            None => r,
        }
    }
}

/// `e` ends the header block of `lines`, whose first line is the request
/// line: it is the first empty line after the request line, or the end.
pub open spec fn is_head_end(lines: Seq<Seq<char>>, e: int) -> bool {
    &&& 1 <= e <= lines.len()
    &&& forall|k: int| 1 <= k < e ==> lines[k].len() > 0
    &&& e == lines.len() || lines[e].len() == 0
}

/// The lines seen as character sequences.
pub open spec fn lines_view(lines: Seq<String>) -> Seq<Seq<char>> {
    lines.map_values(|l: String| l@)
}

/// A header line split into name and value.
pub fn parse_header_line(line: &str) -> (r: Option<(String, String)>)
    ensures
        match header_entry(line@) {
            Some(e) => r is Some && r->Some_0.0@ == e.0 && r->Some_0.1@ == e.1,
            None => r is None,
        },
{
    let s = chars_of(line);
    let t = token_spans(&s, 0, s.len());
    let ghost tv = spans_view(s@, t@);
    assert(s@.subrange(0, s@.len() as int) =~= s@);
    proof {
        lemma_tokens_nonempty(s@);
    }
    if t.len() < 2 {
        return None;
    }
    let (a, b) = t[0];
    assert(tv[0] == s@.subrange(a as int, b as int));
    assert(tv[0].len() > 0);
    assert(s@.subrange(a as int, b - 1) =~= tv[0].drop_last());
    let key = string_of(&s, a, b - 1);
    let mut value = string_of(&s, t[1].0, t[1].1);
    assert(tv[1] == s@.subrange(t@[1].0 as int, t@[1].1 as int));
    assert(tv.subrange(1, 2) =~= seq![tv[1]]);
    let mut j: usize = 2;
    while j < t.len()
        invariant
            2 <= j <= t@.len(),
            tv == spans_view(s@, t@),
            spans_within(t@, 0, s@.len() as int),
            value@ == join_space(tv.subrange(1, j as int)),
        decreases t@.len() - j,
    {
        let w = string_of(&s, t[j].0, t[j].1);
        assert(tv[j as int] == w@);
        value.append(" ");
        value.append(w.as_str());
        proof {
            reveal_strlit(" ");
            let n = tv.subrange(1, j + 1);
            assert(n.drop_last() =~= tv.subrange(1, j as int));
            assert(n.last() == w@);
        }
        j = j + 1;
    }
    assert(tv.subrange(1, j as int) =~= tv.subrange(1, tv.len() as int));
    Some((key, value))
}

/// The index that ends the header block of `lines`: the first empty line
/// after the request line, or the number of lines.
pub fn header_block_end(lines: &Vec<String>) -> (e: usize)
    requires
        lines@.len() >= 1,
    ensures
        is_head_end(lines_view(lines@), e as int),
{
    let ghost lv = lines_view(lines@);
    let mut e: usize = 1;
    while e < lines.len()
        invariant
            1 <= e <= lines@.len(),
            lv == lines_view(lines@),
            forall|k: int| 1 <= k < e ==> lv[k].len() > 0,
        decreases lines@.len() - e,
    {
        assert(lv[e as int] == lines@[e as int]@);
        if lines[e].as_str().is_empty() {
            return e;
        }
        e = e + 1;
    }
    e
}

/// Parses the request line and the header block of `lines`; the lines past
/// the first empty line after the request line are not read. The body is
/// left for `get_body_data`.
pub fn get_header_data(lines: &Vec<String>) -> (r: Result<UrlData, RequestError>)
    ensures
        lines@.len() == 0 ==> r == Err::<UrlData, RequestError>(RequestError::MalformedRequest),
        lines@.len() > 0 ==> match protocol_of(lines@[0]@) {
            Err(err) => r == Err::<UrlData, RequestError>(err),
            Ok(m) => r is Ok && {
                let u = r->Ok_0;
                &&& u.protocol == m
                &&& u.end_point@ == path_of(lines@[0]@)
                &&& match query_of(lines@[0]@) {
                    Some(q) => u.params is Some && u.params->Some_0.deep() == q,
                    None => u.params is None,
                }
                &&& forall|e: int| #[trigger]
                    is_head_end(lines_view(lines@), e) ==> u.http_request.deep()
                        == header_pairs(lines_view(lines@).subrange(1, e))
                &&& u.body is None
            },
        },
{
    if lines.len() == 0 {
        return Err(RequestError::MalformedRequest);
    }
    let first = lines[0].as_str();
    let protocol = match get_protocol(first) {
        Ok(m) => m,
        Err(err) => return Err(err),
    };
    let end_point = get_end_point(first);
    let params = get_url_params(first);
    let ghost lv = lines_view(lines@);
    let e = header_block_end(lines);
    let mut headers: Table<String> = Table::new();
    proof {
        Table::lemma_deep_empty(&headers);
        assert(lv.subrange(1, 1) =~= Seq::<Seq<char>>::empty());
    }
    let mut j: usize = 1;
    while j < e
        invariant
            1 <= j <= e <= lines@.len(),
            lv == lines_view(lines@),
            headers.deep() == header_pairs(lv.subrange(1, j as int)),
        decreases e - j,
    {
        let ghost old_h = headers;
        let ghost n = lv.subrange(1, j + 1);
        assert(n.drop_last() =~= lv.subrange(1, j as int));
        assert(n.last() == lines@[j as int]@);
        match parse_header_line(lines[j].as_str()) {
            Some((k, v)) => {
                headers.insert(k, v);
                proof {
                    Table::lemma_deep_push(&old_h, &headers, k@, v);
                }
            },
            None => {},
        }
        j = j + 1;
    }
    proof {
        assert forall|e2: int| #[trigger] is_head_end(lv, e2) implies e2 == e by {
            if e2 < e {
                assert(lv[e2].len() > 0);
            } else if e2 > e {
                assert(lv[e as int].len() > 0);
            }
        }
    }
    Ok(UrlData { protocol, end_point, params, http_request: headers, body: None })
}

/// `c` is one of `0` to `9`.
pub open spec fn is_digit(c: char) -> bool {
    48 <= c as u32 <= 57
}

/// `s` is a non-empty run of decimal digits.
pub open spec fn is_digits(s: Seq<char>) -> bool {
    s.len() > 0 && forall|i: int| 0 <= i < s.len() ==> is_digit(#[trigger] s[i])
}

/// The number that the decimal digits `s` write.
pub open spec fn digits_value(s: Seq<char>) -> int
    decreases s.len(),
{
    if s.len() == 0 {
        0
    } else {
        digits_value(s.drop_last()) * 10 + (s.last() as u32 - 48)
    }
}

/// `s` read as a `usize` the way `str::parse` reads it: an optional `+`,
/// then at least one decimal digit, and a value that fits.
pub open spec fn length_value(s: Seq<char>) -> Option<nat> {
    let d = if s.len() > 0 && s[0] == '+' {
        s.drop_first()
    } else {
        s
    };
    if is_digits(d) && digits_value(d) <= usize::MAX {
        Some(digits_value(d) as nat)
    } else {
        None
    }
}

/// How many body bytes to read, given the headers: none without a
/// `Content-Length` header, else one less than its value (nothing when the
/// value is zero or not a number).
pub open spec fn body_read_len(headers: Seq<(Seq<char>, Seq<char>)>) -> Option<nat> {
    match find_last(headers, "Content-Length"@) {
        None => None,
        Some(v) => match length_value(v) {
            Some(n) => if n >= 1 {
                Some((n - 1) as nat)
            } else {
                Some(0)
            },
            None => Some(0),
        },
    }
}

proof fn lemma_digits_prefix(d: Seq<char>, k: int)
    requires
        0 <= k <= d.len(),
        forall|i: int| 0 <= i < d.len() ==> is_digit(#[trigger] d[i]),
    ensures
        0 <= digits_value(d.take(k)) <= digits_value(d),
    decreases d.len(),
{
    if d.len() > 0 {
        let t = d.drop_last();
        assert forall|i: int| 0 <= i < t.len() implies is_digit(#[trigger] t[i]) by {
            assert(t[i] == d[i]);
        }
        assert(d.drop_last() == t);
        lemma_digits_prefix(t, t.len() as int);
        assert(t.take(t.len() as int) =~= t);
        if k < d.len() {
            lemma_digits_prefix(t, k);
            assert(t.take(k) =~= d.take(k));
        } else {
            assert(d.take(k) =~= d);
        }
    } else {
        assert(d.take(k) =~= d);
    }
}

/// `s` read as a `usize`: an optional `+`, then decimal digits.
pub fn parse_length(s: &str) -> (r: Option<usize>)
    ensures
        match r {
            Some(n) => length_value(s@) == Some(n as nat),
            None => length_value(s@) is None,
        },
{
    let c = chars_of(s);
    let mut i: usize = 0;
    if c.len() > 0 && c[0] == '+' {
        i = 1;
    }
    let ghost d = c@.subrange(i as int, c@.len() as int);
    proof {
        if c@.len() > 0 && c@[0] == '+' {
            assert(d =~= s@.drop_first());
        } else {
            assert(d =~= s@);
        }
    }
    assert(length_value(s@) == if is_digits(d) && digits_value(d) <= usize::MAX {
        Some(digits_value(d) as nat)
    } else {
        None
    });
    if i >= c.len() {
        return None;
    }
    let start = i;
    let mut v: usize = 0;
    assert(d.take(0) =~= Seq::<char>::empty());
    while i < c.len()
        invariant
            start <= i <= c@.len(),
            d == c@.subrange(start as int, c@.len() as int),
            length_value(s@) == if is_digits(d) && digits_value(d) <= usize::MAX {
                Some(digits_value(d) as nat)
            } else {
                None
            },
            forall|k: int| 0 <= k < i - start ==> is_digit(#[trigger] d[k]),
            v == digits_value(d.take(i - start)),
        decreases c@.len() - i,
    {
        let ghost pre = d.take(i - start);
        let ghost cur = d.take(i - start + 1);
        assert(cur.drop_last() =~= pre);
        assert(cur.last() == c@[i as int]);
        assert(d[i - start] == c@[i as int]);
        let ch = c[i];
        let u = ch as u32;
        if u < 48 || u > 57 {
            assert(!is_digit(d[i - start]));
            return None;
        }
        let digit = (u - 48) as usize;
        assert(digits_value(cur) == v * 10 + digit);
        let next = match v.checked_mul(10) {
            Some(m) => m.checked_add(digit),
            None => None,
        };
        match next {
            Some(n) => {
                v = n;
            },
            None => {
                proof {
                    if is_digits(d) {
                        lemma_digits_prefix(d, i - start + 1);
                    }
                }
                return None;
            },
        }
        i = i + 1;
    }
    assert(d.take(i - start) =~= d);
    Some(v)
}

/// How many body bytes to read: `None` without a `Content-Length` header.
pub fn body_length(headers: &Table<String>) -> (r: Option<usize>)
    ensures
        match r {
            Some(n) => body_read_len(headers.deep()) == Some(n as nat),
            None => body_read_len(headers.deep()) is None,
        },
{
    proof {
        Table::lemma_deep_find(headers, "Content-Length"@);
    }
    match headers.get("Content-Length") {
        None => None,
        Some(v) => match parse_length(v.as_str()) {
            Some(n) => if n >= 1 {
                Some(n - 1)
            } else {
                Some(0)
            },
            None => Some(0),
        },
    }
}

/// The form field that a line at `x` holding `Content-Disposition` opens: its name
/// is the third token with every `name=` and every `"` taken out, its value
/// the line two further on. Lines that do not fit give nothing.
pub open spec fn disposition_field(lines: Seq<Seq<char>>, x: int) -> Option<(Seq<char>, Seq<char>)> {
    let l = lines[x];
    if contains(l, "Content-Disposition"@) && tokens(l).len() >= 3 && x + 2 < lines.len() {
        Some((remove_all(remove_all(tokens(l)[2], "name="@), "\""@), lines[x + 2]))
    } else {
        None
    }
}

/// The form fields of the body lines from `x` on; after a field the scan
/// goes on past the lines that it used.
pub open spec fn fields_from(lines: Seq<Seq<char>>, x: int) -> Seq<(Seq<char>, Seq<char>)>
    decreases lines.len() - x,
{
    if x < 0 || x >= lines.len() {
        seq![]
    } else {
        match disposition_field(lines, x) {
            Some(f) => seq![f] + fields_from(lines, x + 3),
            None => fields_from(lines, x + 1),
        }
    }
}

/// The multipart form fields of a body.
pub open spec fn form_fields(body: Seq<char>) -> Seq<(Seq<char>, Seq<char>)> {
    fields_from(split_crlf(body), 0)
}

/// The multipart form fields of a body, in order.
pub fn get_body_data(body: &str) -> (r: Table<String>)
    ensures
        r.deep() == form_fields(body@),
{
    let s = chars_of(body);
    let lines = crlf_spans(&s, 0, s.len());
    assert(s@.subrange(0, s@.len() as int) =~= s@);
    let ghost lv = spans_view(s@, lines@);
    let mark = chars_of("Content-Disposition");
    let name_eq = chars_of("name=");
    let quote = chars_of("\"");
    let mut table: Table<String> = Table::new();
    proof {
        Table::lemma_deep_empty(&table);
    }
    let mut x: usize = 0;
    while x < lines.len()
        invariant
            x <= lines@.len() + 2,
            lv == spans_view(s@, lines@),
            spans_within(lines@, 0, s@.len() as int),
            mark@ == "Content-Disposition"@,
            name_eq@ == "name="@,
            quote@ == "\""@,
            table.deep() + fields_from(lv, x as int) == fields_from(lv, 0),
        decreases lines@.len() + 3 - x,
    {
        let (a, b) = lines[x];
        assert(lv[x as int] == s@.subrange(a as int, b as int));
        let ghost l = lv[x as int];
        let is_mark = contains_in(&s, a, b, &mark);
        let t = token_spans(&s, a, b);
        if is_mark && t.len() >= 3 && lines.len() - x > 2 {
            let (ta, tb) = t[2];
            assert(spans_view(s@, t@)[2] == s@.subrange(ta as int, tb as int));
            let first = remove_all_in(&s, ta, tb, &name_eq);
            let name_chars = remove_all_in(&first, 0, first.len(), &quote);
            assert(first@.subrange(0, first@.len() as int) =~= first@);
            let key = string_of(&name_chars, 0, name_chars.len());
            assert(name_chars@.subrange(0, name_chars@.len() as int) =~= name_chars@);
            let (va, vb) = lines[x + 2];
            assert(lv[x + 2] == s@.subrange(va as int, vb as int));
            let value = string_of(&s, va, vb);
            let ghost old_t = table;
            table.insert(key, value);
            proof {
                Table::lemma_deep_push(&old_t, &table, key@, value);
                let f = (key@, value@);
                assert(disposition_field(lv, x as int) == Some(f));
                assert(old_t.deep().push(f) + fields_from(lv, x + 3) =~= old_t.deep() + (seq![f]
                    + fields_from(lv, x + 3)));
            }
            x = x + 3;
        } else {
            assert(disposition_field(lv, x as int) is None);
            x = x + 1;
        }
    }
    assert(table.deep() + Seq::<(Seq<char>, Seq<char>)>::empty() =~= table.deep());
    table
}

/// `w` is a non-empty word without whitespace.
pub open spec fn no_ws(w: Seq<char>) -> bool {
    w.len() > 0 && forall|i: int| 0 <= i < w.len() ==> !is_ws(#[trigger] w[i])
}

/// A request line `<METHOD> <PATH>?<QS> <VERSION>` with a known method
/// parses to that method, to the path `<PATH>`, and to the query
/// parameters of `<QS>`: the `&`-separated pieces, each cut at its first
/// `=` (a piece without `=` names a parameter with no value); looked up by
/// name, the last piece with that name wins.
pub proof fn lemma_request_line(
    m: Seq<char>,
    path: Seq<char>,
    qs: Seq<char>,
    version: Seq<char>,
    method: Protocols,
)
    requires
        method_of(m) == Some(method),
        no_ws(m),
        no_ws(version),
        no_ws(path + seq!['?'] + qs),
        forall|i: int| 0 <= i < path.len() ==> path[i] != '?',
    ensures
        protocol_of(m + seq![' '] + path + seq!['?'] + qs + seq![' '] + version) == Ok::<
            Protocols,
            RequestError,
        >(method),
        path_of(m + seq![' '] + path + seq!['?'] + qs + seq![' '] + version) == path,
        query_of(m + seq![' '] + path + seq!['?'] + qs + seq![' '] + version) == Some(
            param_pairs(qs),
        ),
{
    let target = path + seq!['?'] + qs;
    let e = Seq::<char>::empty();
    lemma_tokens_word(e, m);
    assert(e + m =~= m);
    lemma_tokens_ws(m, ' ');
    let a = m.push(' ');
    lemma_tokens_word(a, target);
    lemma_tokens_ws(a + target, ' ');
    let b = (a + target).push(' ');
    lemma_tokens_word(b, version);
    let line = m + seq![' '] + path + seq!['?'] + qs + seq![' '] + version;
    assert(line =~= b + version);
    assert(tokens(e) =~= Seq::<Seq<char>>::empty());
    let t = tokens(line);
    assert(t =~= seq![m, target, version]);
    assert(target[path.len() as int] == '?');
    assert forall|k: int| 0 <= k < path.len() implies target[k] != '?' by {
        assert(target[k] == path[k]);
    }
    lemma_split_once_at(target, '?', path.len() as int);
    assert(target.take(path.len() as int) =~= path);
    assert(target.skip(path.len() as int + 1) =~= qs);
}

/// The header block ends at the first empty line after the request line:
/// what follows that line (a body) is never read as headers, whatever it is.
pub proof fn lemma_header_block_stops(lines: Seq<Seq<char>>, rest: Seq<Seq<char>>, e1: int, e2: int)
    requires
        lines.len() >= 1,
        is_head_end(lines + seq![Seq::<char>::empty()] + rest, e1),
        is_head_end(lines + seq![Seq::<char>::empty()], e2),
    ensures
        e1 == e2,
        e1 <= lines.len(),
        header_pairs((lines + seq![Seq::<char>::empty()] + rest).subrange(1, e1)) == header_pairs(
            (lines + seq![Seq::<char>::empty()]).subrange(1, e2),
        ),
{
    let a = lines + seq![Seq::<char>::empty()] + rest;
    let b = lines + seq![Seq::<char>::empty()];
    let n = lines.len() as int;
    assert(a[n].len() == 0);
    assert(b[n].len() == 0);
    if e1 < e2 {
        assert(b[e1] == a[e1]);
    } else if e2 < e1 {
        assert(a[e2] == b[e2]);
    }
    assert(a.subrange(1, e1) =~= b.subrange(1, e2));
}

} // verus!
