use fmttools::{debug_to_string, render_to_string, replace, DebugOf, Limited, Render, Sink};

#[test]
fn strings_render_as_themselves() {
    assert_eq!(render_to_string(&"abc"), "abc");
    assert_eq!(render_to_string(&String::from("abc")), "abc");
    assert_eq!(render_to_string(&&"abc"), "abc");
    assert_eq!(render_to_string(&""), "");
    assert_eq!(render_to_string(&"日本語 é"), "日本語 é");
}

#[test]
fn strings_inspect_in_quotes() {
    assert_eq!(debug_to_string(&"abc"), "\"abc\"");
    assert_eq!(debug_to_string(&String::from("a\"b")), "\"a\\\"b\"");
    assert_eq!(debug_to_string(&&"a\tb"), "\"a\\tb\"");
    assert_eq!(debug_to_string(&""), "\"\"");
    assert_eq!(render_to_string(&DebugOf(&"a\\b")), "\"a\\\\b\"");
}

#[test]
fn rendering_adds_to_what_the_sink_holds() {
    let mut out = String::from(">> ");
    assert_eq!(out.write_str("a"), Ok(()));
    let (out, done) = "bc".render(out);
    assert_eq!(done, Ok(()));
    let (out, done) = replace("x.y", '.', "::").render(out);
    assert_eq!(done, Ok(()));
    assert_eq!(out, ">> abcx::y");
}

#[test]
fn a_value_can_be_replaced_in_by_reference() {
    let text = String::from("one two");
    let replaced = replace(&text, "two", "2");
    assert_eq!(render_to_string(&replaced), "one 2");
    assert_eq!(render_to_string(&replaced), "one 2");
    assert_eq!(debug_to_string(&replaced), "\"one 2\"");
    assert_eq!(text, "one two");
}

#[test]
fn a_limited_sink_gives_its_text_back() {
    let (out, done) = "abc".render(Limited::new(3));
    assert_eq!(done, Ok(()));
    assert_eq!(out.as_str(), "abc");
    assert_eq!(out.into_string(), "abc");
}

#[test]
fn adapters_combine() {
    let words = ["a.b", "c"];
    let text = render_to_string(&replace(fmttools::join(&words, ", "), '.', "::"));
    assert_eq!(text, "a::b, c");
}
