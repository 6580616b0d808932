use typeforge::content::CodeLanguage;
use typeforge::snippet::{
    candidate_kinds, expand_tabs, legacy_indent, normalize_snippet, split_lines, visual_column,
};

#[test]
fn snippet_limits_are_enforced() {
    assert!(normalize_snippet("fn calculate_total() {\n    let subtotal = 12345678901234567890123456789012345678901234567890;\n    let tax = subtotal / 5;\n    subtotal + tax\n}", 0).is_some());
    assert!(normalize_snippet("fn a() {}\n", 0).is_none());
}

#[test]
fn nested_structure_indentation_becomes_relative() {
    let raw = "async isWaiting(): Promise<boolean> {\n        return this.waiting || this.paused;\n    }";
    let padded = format!("{raw}\n    void this_line_makes_the_snippet_long_enough_to_validate();");
    let normalized = normalize_snippet(&padded, 4).unwrap();
    assert!(normalized.contains("\n    return"));
    assert!(!normalized.contains("\n        return"));
}

#[test]
fn tabs_expand_to_visual_stops() {
    assert_eq!(expand_tabs("  \tvalue\n\tvalue"), "    value\n    value");
}

#[test]
fn malformed_one_space_indentation_is_rejected() {
    let source = "class ImplicitStage implements MarkStage {\n  constructor(private ide: IDE) {}\n  run(): Target[] {\n    return getActiveSelections(this.ide).map(\n      (selection) =>\n new ImplicitTarget({\n   editor: selection.editor,\n   isReversed: selection.selection.isReversed,\n   contentRange: selection.selection,\n }),\n    );\n  }\n}";
    assert!(normalize_snippet(source, 0).is_none());
}

#[test]
fn code_snippets_reject_non_ascii_input() {
    let source = "fn panic_with_emoji() {\n    let message = \"bad 😂 input that cannot be typed normally\";\n    panic!(\"{message}\");\n}";
    assert!(normalize_snippet(source, 0).is_none());
}

fn long_body(indent: &str) -> String {
    format!(
        "fn example() {{\n{indent}let first_value = compute_the_first_value(1, 2, 3);\n{indent}let second_value = compute_the_second_value(4, 5, 6);\n}}"
    )
}

#[test]
fn common_indentation_and_trailing_space_are_removed() {
    let raw = format!("\n\n{}   \n\n", long_body("    "));
    let text = normalize_snippet(&raw, 0).unwrap();
    assert!(text.starts_with("fn example() {\n    let first_value"));
    assert!(text.ends_with('}'));
    assert_eq!(text.lines().count(), 4);
}

#[test]
fn limits_on_lines_width_and_length() {
    let too_many: String = (0..21)
        .map(|i| format!("    line_{i:02}();"))
        .collect::<Vec<_>>()
        .join("\n");
    assert!(normalize_snippet(&format!("fn f() {{\n{too_many}\n}}"), 0).is_none());
    let wide = format!("fn f() {{\n    {}\n    x();\n}}", "y".repeat(90));
    assert!(normalize_snippet(&wide, 0).is_none());
    let flat = "fn f() {\nlet value_one = compute(1);\nlet value_two = compute(2);\nlet value_three = compute(3);\n}";
    assert!(normalize_snippet(flat, 0).is_none());
    let with_nul = long_body("    ").replace("first", "fi\0rst");
    assert!(normalize_snippet(&with_nul, 0).is_none());
}

#[test]
fn tabs_count_as_indentation() {
    let raw = long_body("\t");
    let text = normalize_snippet(&raw, 0).unwrap();
    assert!(text.contains("\n    let first_value"));
}

#[test]
fn lines_split_like_the_standard_library() {
    for text in ["a\nb", "a\r\nb\r", "a\n", "", "\n\nx\r\n"] {
        let chars: Vec<char> = text.chars().collect();
        let lines: Vec<String> = split_lines(&chars, 0, chars.len())
            .into_iter()
            .map(|line| line.into_iter().collect())
            .collect();
        let expected: Vec<String> = text.lines().map(str::to_owned).collect();
        assert_eq!(lines, expected, "{text:?}");
    }
}

#[test]
fn visual_columns_follow_tab_stops() {
    let source = "fn a() {}\n\t  x";
    assert_eq!(visual_column(source, 10), 0);
    assert_eq!(visual_column(source, 11), 4);
    assert_eq!(visual_column(source, 13), 6);
    assert_eq!(visual_column("é\tx", 3), 4);
}

#[test]
fn legacy_indentation_is_recovered() {
    let python = "def f():\n        return 1\n        pass";
    assert_eq!(legacy_indent(python, CodeLanguage::Python), 4);
    assert_eq!(legacy_indent("def f():", CodeLanguage::Python), 0);
    let rust = "fn f() {\n        x();\n    }";
    assert_eq!(legacy_indent(rust, CodeLanguage::Rust), 4);
    assert_eq!(legacy_indent("fn f() {\n    x();\n    };\n\n", CodeLanguage::Go), 4);
    assert_eq!(legacy_indent("fn f() {\n    x()\n  y", CodeLanguage::Rust), 0);
}

#[test]
fn candidate_kinds_per_language() {
    assert_eq!(
        candidate_kinds(CodeLanguage::Python),
        &["function_definition", "class_definition"]
    );
    assert_eq!(candidate_kinds(CodeLanguage::Rust).len(), 5);
    assert!(candidate_kinds(CodeLanguage::TypeScript).contains(&"interface_declaration"));
}
