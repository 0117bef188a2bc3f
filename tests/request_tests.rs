use fredwork::request::{
    body_length, get_body_data, get_end_point, get_header_data, get_protocol, get_url_params,
    parse_header_line, parse_length, Protocols, RequestError,
};

fn lines(v: &[&str]) -> Vec<String> {
    v.iter().map(|s| s.to_string()).collect()
}

#[test]
fn protocol_of_known_methods() {
    assert_eq!(get_protocol("GET / HTTP/1.1"), Ok(Protocols::GET));
    assert_eq!(get_protocol("POST /a HTTP/1.1"), Ok(Protocols::POST));
    assert_eq!(get_protocol("PUT /a HTTP/1.1"), Ok(Protocols::PUT));
    assert_eq!(get_protocol("DELETE /a HTTP/1.1"), Ok(Protocols::DELETE));
}

#[test]
fn protocol_unknown_method_is_rejected() {
    assert_eq!(get_protocol("PATCH /a HTTP/1.1"), Err(RequestError::UnsupportedMethod));
    assert_eq!(get_protocol("get /a HTTP/1.1"), Err(RequestError::UnsupportedMethod));
}

#[test]
fn protocol_of_short_line_is_malformed() {
    assert_eq!(get_protocol(""), Err(RequestError::MalformedRequest));
    assert_eq!(get_protocol("GET"), Err(RequestError::MalformedRequest));
}

#[test]
fn end_point_strips_query() {
    assert_eq!(get_end_point("GET /a/b?x=1 HTTP/1.1"), "/a/b");
    assert_eq!(get_end_point("GET /plain HTTP/1.1"), "/plain");
    assert_eq!(get_end_point("GET /? HTTP/1.1"), "/");
}

#[test]
fn url_params_split_semantics() {
    let p = get_url_params("GET /a?x=1&flag&x=3&z=a=b HTTP/1.1").unwrap();
    assert_eq!(p.get("x"), Some(&Some("3".to_string())));
    assert_eq!(p.get("flag"), Some(&None));
    assert_eq!(p.get("z"), Some(&Some("a=b".to_string())));
    assert_eq!(p.get("missing"), None);
    assert_eq!(p.entry_count(), 4);
}

#[test]
fn url_params_absent_without_question_mark() {
    assert!(get_url_params("GET /a HTTP/1.1").is_none());
}

#[test]
fn url_params_after_first_question_mark() {
    let p = get_url_params("GET /a?k=v?w HTTP/1.1").unwrap();
    assert_eq!(p.get("k"), Some(&Some("v?w".to_string())));
}

#[test]
fn header_line_name_and_value() {
    let (k, v) = parse_header_line("User-Agent:   curl   7.1 ").unwrap();
    assert_eq!(k, "User-Agent");
    assert_eq!(v, "curl 7.1");
    assert!(parse_header_line("Lonely").is_none());
    assert!(parse_header_line("   ").is_none());
}

#[test]
fn header_data_stops_at_first_empty_line() {
    let l = lines(&[
        "GET /p?q=1 HTTP/1.1",
        "Host: example.com",
        "Accept: */*",
        "",
        "Body: not a header",
    ]);
    let u = get_header_data(&l).unwrap();
    assert_eq!(u.protocol, Protocols::GET);
    assert_eq!(u.end_point, "/p");
    assert_eq!(u.http_request.get("Host"), Some(&"example.com".to_string()));
    assert_eq!(u.http_request.get("Accept"), Some(&"*/*".to_string()));
    assert_eq!(u.http_request.get("Body"), None);
    assert_eq!(u.http_request.entry_count(), 2);
    assert_eq!(u.params.unwrap().get("q"), Some(&Some("1".to_string())));
    assert!(u.body.is_none());
}

#[test]
fn header_data_skips_short_lines_and_later_wins() {
    let l = lines(&["POST /f HTTP/1.1", "X: 1", "junk", "X: 2"]);
    let u = get_header_data(&l).unwrap();
    assert_eq!(u.protocol, Protocols::POST);
    assert_eq!(u.http_request.get("X"), Some(&"2".to_string()));
    assert_eq!(u.http_request.entry_count(), 2);
}

#[test]
fn header_data_errors() {
    assert!(matches!(get_header_data(&Vec::new()), Err(RequestError::MalformedRequest)));
    assert!(matches!(
        get_header_data(&lines(&["BREW /pot HTTP/1.1"])),
        Err(RequestError::UnsupportedMethod)
    ));
    assert!(matches!(get_header_data(&lines(&[""])), Err(RequestError::MalformedRequest)));
}

#[test]
fn content_length_reads_one_less() {
    let u = get_header_data(&lines(&["POST /f HTTP/1.1", "Content-Length: 10", ""])).unwrap();
    assert_eq!(body_length(&u.http_request), Some(9));
    let u = get_header_data(&lines(&["POST /f HTTP/1.1", "Content-Length: zero", ""])).unwrap();
    assert_eq!(body_length(&u.http_request), Some(0));
    let u = get_header_data(&lines(&["GET /f HTTP/1.1", "Host: h", ""])).unwrap();
    assert_eq!(body_length(&u.http_request), None);
}

#[test]
fn length_parsing() {
    assert_eq!(parse_length("0"), Some(0));
    assert_eq!(parse_length("1234"), Some(1234));
    assert_eq!(parse_length("+7"), Some(7));
    assert_eq!(parse_length(""), None);
    assert_eq!(parse_length("+"), None);
    assert_eq!(parse_length("12a"), None);
    assert_eq!(parse_length("-1"), None);
    assert_eq!(parse_length("18446744073709551615"), Some(usize::MAX));
    assert_eq!(parse_length("18446744073709551616"), None);
}

#[test]
fn multipart_fields() {
    let body = "------b\r\nContent-Disposition: form-data; name=\"field1\"\r\n\r\nvalue1\r\n------b\r\nContent-Disposition: form-data; name=\"other\"\r\n\r\nsecond value\r\n------b--";
    let t = get_body_data(body);
    assert_eq!(t.get("field1"), Some(&"value1".to_string()));
    assert_eq!(t.get("other"), Some(&"second value".to_string()));
    assert_eq!(t.entry_count(), 2);
}

#[test]
fn multipart_malformed_gives_partial_map() {
    assert_eq!(get_body_data("").entry_count(), 0);
    assert_eq!(get_body_data("Content-Disposition: form-data").entry_count(), 0);
    let t = get_body_data("Content-Disposition: form-data; name=\"a\"\r\n");
    assert_eq!(t.entry_count(), 0);
}

#[test]
fn multipart_marker_anywhere_in_line() {
    let body = "x Content-Disposition: form-data; name=\"f\"\r\n\r\nv\r\n";
    let t = get_body_data(body);
    assert_eq!(t.get("f"), None);
    assert_eq!(t.get("form-data;"), Some(&"v".to_string()));
    let body = "a\r\nhead Content-Disposition name=\"g\"\r\n\r\nw";
    let t = get_body_data(body);
    assert_eq!(t.get("g"), Some(&"w".to_string()));
}

#[test]
fn literal_request_line() {
    let u = get_header_data(&lines(&["GET /a?x=1&y HTTP/1.1", ""])).unwrap();
    assert_eq!(u.protocol, Protocols::GET);
    assert_eq!(u.end_point, "/a");
    let p = u.params.unwrap();
    assert_eq!(p.get("x"), Some(&Some("1".to_string())));
    assert_eq!(p.get("y"), Some(&None));
    assert_eq!(p.entry_count(), 2);
    assert_eq!(u.http_request.entry_count(), 0);
    assert!(u.body.is_none());
}
