use avidhd::text::{
    contains_text, is_space_char, join_texts, spaces_to_plus, text_at_least, text_is, trim_text,
};

#[test]
fn whitespace_matches_std() {
    for u in 0u32..0x3100 {
        if let Some(c) = char::from_u32(u) {
            assert_eq!(is_space_char(c), c.is_whitespace(), "code point {:x}", u);
        }
    }
    for c in ['\u{feff}', '\u{200b}', '\u{1680}', '\u{3000}', 'a'] {
        assert_eq!(is_space_char(c), c.is_whitespace());
    }
}

#[test]
fn trim_matches_std() {
    let samples = [
        "",
        "   ",
        "  hello  ",
        "\t\nline\r\n",
        "\u{3000}wide space\u{2003}",
        "inner  spaces stay",
        "x",
        " \u{a0}non-breaking\u{a0} ",
        "\u{200b}zero width is not space\u{200b}",
    ];
    for s in samples {
        assert_eq!(trim_text(s), s.trim(), "sample {:?}", s);
    }
}

#[test]
fn text_equality() {
    assert!(text_is("linear_notification", "linear_notification"));
    assert!(!text_is("linear_notification", "linear_issue"));
    assert!(!text_is("abc", "ab"));
    assert!(text_is("", ""));
}

#[test]
fn contains_matches_std() {
    let hay = [
        "Entity not found: Notification",
        "error: Entity not found",
        "Entity not foun",
        "",
        "entity not found",
    ];
    for h in hay {
        assert_eq!(contains_text(h, "Entity not found"), h.contains("Entity not found"));
    }
    assert!(contains_text("abc", ""));
    assert!(contains_text("", ""));
}

#[test]
fn ordering_matches_std() {
    let samples = [
        "",
        "a",
        "b",
        "ab",
        "2024-01-01T00:00:00.000Z",
        "2024-01-02T00:00:00.000Z",
        "2023-12-31T23:59:59.999Z",
        "é",
        "z",
        "\u{10000}",
        "\u{ffff}",
    ];
    for a in samples {
        for b in samples {
            assert_eq!(text_at_least(a, b), a >= b, "{:?} >= {:?}", a, b);
        }
    }
}

#[test]
fn join_with_separator() {
    let parts = vec!["first".to_string(), "second".to_string(), "third".to_string()];
    assert_eq!(join_texts(&parts, "; "), "first; second; third");
    assert_eq!(join_texts(&vec![], "; "), "");
    assert_eq!(join_texts(&vec!["only".to_string()], "; "), "only");
}

#[test]
fn spaces_become_plus() {
    let q = "is:open is:pr author:@me archived:false";
    assert_eq!(spaces_to_plus(q), q.replace(' ', "+"));
    assert_eq!(spaces_to_plus(""), "");
}
