use fredwork::template::{instructions, render, splice_outputs, TemplateError};

/// Evaluates an instruction with eval under the given bindings, in order.
fn evaluate_with(instruction: String, bindings: &[(&str, eval::Value)]) -> String {
    let mut expr = eval::Expr::new(instruction);
    for (name, value) in bindings {
        expr = expr.value(*name, value);
    }
    match expr.exec() {
        Ok(v) => v.to_string(),
        Err(e) => e.to_string(),
    }
}

fn evaluate(instruction: String) -> String {
    evaluate_with(instruction, &[])
}

#[test]
fn arithmetic_tag_is_replaced() {
    assert_eq!(render("Hello <@=1+1>!".to_string(), evaluate), Ok("Hello 2!".to_string()));
}

#[test]
fn tag_free_text_is_unchanged() {
    let t = "<p>plain <@ text> with = signs</p>".to_string();
    assert_eq!(render(t.clone(), evaluate), Ok(t));
    assert_eq!(render(String::new(), evaluate), Ok(String::new()));
}

#[test]
fn failing_instruction_renders_error_text() {
    let expected_error = evaluate("(1".to_string());
    let out = render("a <@=(1> b".to_string(), evaluate).unwrap();
    assert_eq!(out, format!("a {} b", expected_error));
    assert!(!expected_error.is_empty());
}

#[test]
fn unterminated_tag_fails_with_position() {
    assert_eq!(render("ab <@=1+1".to_string(), evaluate), Err(TemplateError::UnterminatedTag(3)));
    assert_eq!(
        render("<@=1> x <@=2".to_string(), evaluate),
        Err(TemplateError::UnterminatedTag(8))
    );
}

#[test]
fn bindings_are_visible_and_later_shadows() {
    let bindings = vec![
        ("x", eval::to_value(3)),
        ("y", eval::to_value(10)),
        ("x", eval::to_value(5)),
    ];
    let out = render("<@=x+y> and <@=x>".to_string(), |i| evaluate_with(i, &bindings));
    assert_eq!(out, Ok("15 and 5".to_string()));
}

#[test]
fn evaluator_sees_each_instruction_once_in_order() {
    let seen = std::cell::RefCell::new(Vec::new());
    let out = render("<@=a>-<@= b >".to_string(), |i| {
        seen.borrow_mut().push(i.clone());
        format!("[{}]", i)
    });
    assert_eq!(out, Ok("[a]-[ b ]".to_string()));
    assert_eq!(*seen.borrow(), vec!["a".to_string(), " b ".to_string()]);
}

#[test]
fn several_tags_in_order() {
    assert_eq!(render("<@=1>-<@=2*3>".to_string(), evaluate), Ok("1-6".to_string()));
}

#[test]
fn instructions_and_splice() {
    let i = instructions("x<@= a >y<@=b>").unwrap();
    assert_eq!(i, vec![" a ".to_string(), "b".to_string()]);
    let out = splice_outputs("x<@= a >y<@=b>", &vec!["1".to_string(), "22".to_string()]);
    assert_eq!(out, "x1y22");
    assert_eq!(instructions("<@=oops"), Err(TemplateError::UnterminatedTag(0)));
}
