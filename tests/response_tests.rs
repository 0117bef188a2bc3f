use fredwork::response::{decimal_text, html_response, json_response};
use fredwork::table::Table;

#[test]
fn html_answer_text() {
    assert_eq!(
        html_response("hi"),
        "HTTP/1.1 200 OK\r\nServer: FredWork/0.1.0 \n Content-Type: text/html \nContent-Length: 2\r\n\r\nhi"
    );
}

#[test]
fn json_answer_counts_bytes() {
    assert_eq!(
        json_response("{\"é\":1}"),
        "HTTP/1.1 200 OK\r\nServer: FredWork/0.1.0\r\nContent-Type: application/json \r\nDataType: json \r\nContent-Length: 8\r\n\r\n{\"é\":1}"
    );
}

#[test]
fn decimal_texts() {
    assert_eq!(decimal_text(0), "0");
    assert_eq!(decimal_text(7), "7");
    assert_eq!(decimal_text(1204), "1204");
    assert_eq!(decimal_text(usize::MAX), usize::MAX.to_string());
}

#[test]
fn table_last_entry_wins() {
    let mut t: Table<u8> = Table::new();
    assert_eq!(t.get("k"), None);
    t.insert("k".to_string(), 1);
    t.insert("j".to_string(), 2);
    t.insert("k".to_string(), 3);
    assert_eq!(t.get("k"), Some(&3));
    assert_eq!(t.get("j"), Some(&2));
    assert_eq!(t.entry_count(), 3);
}
