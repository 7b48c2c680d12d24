use next_code_frame::highlight::{
    adjust_highlights_for_truncation, apply_line_highlights, extract_highlights, ColorScheme,
    Language, TokenType,
};

/// Default language for tests
const JS: Language = Language::JavaScript;

/// Strip ANSI escape codes from a string
pub fn strip_ansi_codes(s: &str) -> String {
    let mut result = String::with_capacity(s.len());
    let mut chars = s.chars();

    while let Some(ch) = chars.next() {
        if ch == '\x1b' {
            if chars.next() == Some('[') {
                for ch in chars.by_ref() {
                    if ch.is_alphabetic() {
                        break;
                    }
                }
            }
        } else {
            result.push(ch);
        }
    }

    result
}

// -----------------------------------------------------------------------
// Basic highlighting tests
// -----------------------------------------------------------------------

#[test]
fn test_apply_line_highlights_basic() {
    let source = "const Foo = 123";
    let highlights = extract_highlights(source, 0..usize::MAX, JS);
    let color_scheme = ColorScheme::colored();

    let result = apply_line_highlights(source, &highlights[0], &color_scheme);

    assert!(result.contains("\x1b["), "Result should contain ANSI codes");
    assert!(result.contains("const"), "Result should contain 'const'");
    assert!(result.contains("Foo"), "Result should contain 'Foo'");
    assert!(result.contains("123"), "Result should contain '123'");
}

#[test]
fn test_apply_line_highlights_plain() {
    let source = "const foo = 123";
    let highlights = extract_highlights(source, 0..usize::MAX, JS);
    let color_scheme = ColorScheme::plain();

    let result = apply_line_highlights(source, &highlights[0], &color_scheme);
    assert_eq!(result, source);
}

#[test]
fn test_only_capitalized_identifiers_highlighted() {
    let source = "const foo = Bar";
    let highlights = extract_highlights(source, 0..usize::MAX, JS);

    let has_identifier = highlights[0]
        .markers
        .iter()
        .any(|m| m.token_type == TokenType::Identifier);
    assert!(has_identifier, "Capitalized 'Bar' should be highlighted");

    let ident_starts: Vec<usize> = highlights[0]
        .markers
        .iter()
        .filter(|m| m.token_type == TokenType::Identifier && m.is_start)
        .map(|m| m.offset)
        .collect();
    assert_eq!(
        ident_starts,
        vec![12],
        "Only 'Bar' at offset 12 should be highlighted"
    );
}

#[test]
fn test_strip_ansi_codes() {
    let input = "\x1b[36mconst\x1b[0m foo = \x1b[35m123\x1b[0m";
    let result = strip_ansi_codes(input);
    assert_eq!(result, "const foo = 123");
}

#[test]
fn test_strip_ansi_codes_preserves_plain_text() {
    let input = "const foo = 123";
    let result = strip_ansi_codes(input);
    assert_eq!(result, input);
}

#[test]
fn test_adjust_highlights_for_truncation() {
    let source = "const Foo = 123";
    let highlights = extract_highlights(source, 0..usize::MAX, JS);

    let adjusted = adjust_highlights_for_truncation(&highlights[0], 6, 9, 0);
    assert!(!adjusted.markers.is_empty());
    assert!(adjusted.markers.iter().any(|m| m.is_start));
}

#[test]
fn test_comments_and_numbers() {
    let source = "const x = 42; // comment\nobj.foo = 10;";
    let highlights = extract_highlights(source, 0..usize::MAX, JS);

    assert_eq!(highlights.len(), 2);

    let line1_has_comment = highlights[0]
        .markers
        .iter()
        .any(|m| m.token_type == TokenType::Comment);
    assert!(line1_has_comment, "First line should have comment markers");

    let line1_has_number = highlights[0]
        .markers
        .iter()
        .any(|m| m.token_type == TokenType::Number);
    let line2_has_number = highlights[1]
        .markers
        .iter()
        .any(|m| m.token_type == TokenType::Number);
    assert!(line1_has_number);
    assert!(line2_has_number);
}

#[test]
fn test_multiline_comment() {
    let source = "const x = 1;\n/* multi\n   line */\nconst y = 2;";
    let highlights = extract_highlights(source, 0..usize::MAX, JS);

    assert_eq!(highlights.len(), 4);

    let line2_has_comment = highlights[1]
        .markers
        .iter()
        .any(|m| m.token_type == TokenType::Comment);
    let line3_has_comment = highlights[2]
        .markers
        .iter()
        .any(|m| m.token_type == TokenType::Comment);

    assert!(line2_has_comment, "Line 2 should have comment marker");
    assert!(line3_has_comment, "Line 3 should have comment marker");
}

#[test]
fn test_multiline_template_literal() {
    let source = "const x = `line1\nline2\nline3`;";
    let highlights = extract_highlights(source, 0..usize::MAX, JS);

    assert_eq!(highlights.len(), 3);

    for (i, highlight) in highlights.iter().enumerate() {
        let has_string = highlight
            .markers
            .iter()
            .any(|m| m.token_type == TokenType::String);
        assert!(
            has_string,
            "Line {} should have string markers for the template literal",
            i + 1
        );
    }
}

#[test]
fn test_template_literal_with_expression() {
    // `hello ${name}!` should mark `hello ` and `!` as string,
    // but NOT mark `name` as string.
    let source = "const x = `hello ${name}!`;";
    let highlights = extract_highlights(source, 0..usize::MAX, JS);

    let string_ranges: Vec<(usize, bool)> = highlights[0]
        .markers
        .iter()
        .filter(|m| m.token_type == TokenType::String)
        .map(|m| (m.offset, m.is_start))
        .collect();

    // Should have two string segments: `hello ${ and }!`
    // The `name` between ${ and } should NOT be in any string range
    assert!(
        string_ranges.len() >= 4,
        "Should have at least 2 string segments (4 markers): got {:?}",
        string_ranges
    );

    // Verify "name" at offset 18..22 is NOT inside any string marker range
    let name_offset = source.find("name").unwrap();
    let name_in_string = highlights[0]
        .markers
        .iter()
        .any(|m| m.token_type == TokenType::String && m.is_start && m.offset == name_offset);
    assert!(
        !name_in_string,
        "'name' should not be marked as part of a string"
    );
}

#[test]
fn test_template_literal_nested() {
    // Nested template literal: `a ${`b ${c}`} d`
    let source = r#"const x = `a ${`b ${c}`} d`;"#;
    let highlights = extract_highlights(source, 0..usize::MAX, JS);

    // Should not panic and should produce some markers
    assert!(!highlights.is_empty());
    let has_string = highlights[0]
        .markers
        .iter()
        .any(|m| m.token_type == TokenType::String);
    assert!(has_string, "Should have string markers");
}

#[test]
fn test_template_literal_no_expressions() {
    // Simple template with no expressions should be one string segment
    let source = "const x = `hello world`;";
    let highlights = extract_highlights(source, 0..usize::MAX, JS);

    let string_starts: Vec<usize> = highlights[0]
        .markers
        .iter()
        .filter(|m| m.token_type == TokenType::String && m.is_start)
        .map(|m| m.offset)
        .collect();

    // Should be a single string segment
    assert_eq!(
        string_starts.len(),
        1,
        "Simple template should be one string segment"
    );
}

// -----------------------------------------------------------------------
// Unbalanced template literal tests
// -----------------------------------------------------------------------

#[test]
fn test_template_unclosed_expression() {
    // `hello ${name` — the `${` is never closed with `}`
    // Should not panic; the string part before `${` should still be marked.
    let source = "const x = `hello ${name";
    let highlights = extract_highlights(source, 0..usize::MAX, JS);
    assert!(!highlights.is_empty(), "Should produce highlights");

    // Should have at least one string marker for the "`hello " part
    let has_string = highlights[0]
        .markers
        .iter()
        .any(|m| m.token_type == TokenType::String);
    assert!(has_string, "Should still mark the string part before ${{");

    // "name" should NOT be marked as string since it's inside an expression hole
    let name_offset = source.find("name").unwrap();
    let name_in_string = highlights[0]
        .markers
        .iter()
        .any(|m| m.token_type == TokenType::String && m.is_start && m.offset == name_offset);
    assert!(
        !name_in_string,
        "'name' inside unclosed expression should not be a string"
    );
}

#[test]
fn test_template_unclosed_backtick() {
    // `hello world  — no closing backtick (regex matches `? at end)
    // Should not panic and should produce some string markers.
    let source = "const x = `hello world";
    let highlights = extract_highlights(source, 0..usize::MAX, JS);
    assert!(!highlights.is_empty(), "Should produce highlights");

    let has_string = highlights[0]
        .markers
        .iter()
        .any(|m| m.token_type == TokenType::String);
    assert!(
        has_string,
        "Unclosed template should still be marked as string"
    );
}

#[test]
fn test_template_unclosed_expression_with_nested_braces() {
    // `value: ${ {a: 1}` — unclosed expression with nested brace inside
    // The inner `{a: 1}` brings depth back to 1, but there's no final `}`
    let source = "const x = `value: ${ {a: 1}`;";
    let highlights = extract_highlights(source, 0..usize::MAX, JS);
    assert!(!highlights.is_empty(), "Should produce highlights");

    // Should have string markers for "`value: " part
    let string_starts: Vec<usize> = highlights[0]
        .markers
        .iter()
        .filter(|m| m.token_type == TokenType::String && m.is_start)
        .map(|m| m.offset)
        .collect();
    assert!(
        !string_starts.is_empty(),
        "Should have string markers for the template"
    );
}

#[test]
fn test_template_brace_in_string_inside_expression() {
    // `${ "}" }` — the `}` inside the string should not close the expression
    let source = r#"const x = `${  "}" } end`;"#;
    let highlights = extract_highlights(source, 0..usize::MAX, JS);
    assert!(!highlights.is_empty());

    // The " end" part after the real closing } should be marked as string
    let end_offset = source.find(" end").unwrap();
    let has_end_string = highlights[0]
        .markers
        .iter()
        .any(|m| m.token_type == TokenType::String && m.is_start && m.offset < end_offset);
    assert!(
        has_end_string,
        "String part after expression should be marked"
    );
}

#[test]
fn test_template_multiple_unclosed_expressions() {
    // `a ${b c ${d` — two unclosed expressions in sequence
    // The first `${` never closes, so the second `${` is inside the first expression
    let source = "const x = `a ${b c ${d";
    let highlights = extract_highlights(source, 0..usize::MAX, JS);
    assert!(
        !highlights.is_empty(),
        "Should not panic on multiple unclosed expressions"
    );
}

#[test]
fn test_template_empty_expression() {
    // `hello ${}world` — empty expression hole
    let source = "const x = `hello ${}world`;";
    let highlights = extract_highlights(source, 0..usize::MAX, JS);
    assert!(!highlights.is_empty());

    // Both "hello " and "world" parts should be string-marked
    let string_starts: Vec<usize> = highlights[0]
        .markers
        .iter()
        .filter(|m| m.token_type == TokenType::String && m.is_start)
        .map(|m| m.offset)
        .collect();
    assert!(
        string_starts.len() >= 2,
        "Empty expression should still split into two string segments, got {:?}",
        string_starts
    );
}

#[test]
fn test_line_range_filtering() {
    let source = "const a = 1;\nconst b = 2;\nconst c = 3;\nconst d = 4;\nconst e = 5;";

    let highlights = extract_highlights(source, 1..4, JS);

    assert_eq!(highlights.len(), 3);
    assert_eq!(highlights[0].line, 2);
    assert_eq!(highlights[1].line, 3);
    assert_eq!(highlights[2].line, 4);

    assert!(!highlights[0].markers.is_empty());
    assert!(!highlights[1].markers.is_empty());
    assert!(!highlights[2].markers.is_empty());
}

#[test]
fn test_line_range_reduces_marker_count() {
    let source = "const a = 1;\nconst b = 2;\nconst c = 3;\nconst d = 4;\nconst e = 5;";

    let all_highlights = extract_highlights(source, 0..usize::MAX, JS);
    let all_marker_count: usize = all_highlights.iter().map(|h| h.markers.len()).sum();

    let filtered_highlights = extract_highlights(source, 2..3, JS);
    let filtered_marker_count: usize =
        filtered_highlights.iter().map(|h| h.markers.len()).sum();

    assert_eq!(filtered_highlights.len(), 1);
    assert!(filtered_marker_count < all_marker_count);
    assert!(filtered_marker_count > 0, "Should still have some markers");
}

// -----------------------------------------------------------------------
// Regex literal tests
// -----------------------------------------------------------------------

#[test]
fn test_regex_after_equals() {
    let source = "const re = /foo/gi;";
    let highlights = extract_highlights(source, 0..usize::MAX, JS);

    let has_regex = highlights[0]
        .markers
        .iter()
        .any(|m| m.token_type == TokenType::Regex);
    assert!(has_regex, "/foo/gi should be highlighted as regex");
}

#[test]
fn test_regex_after_open_paren() {
    let source = "if (/test/.test(x)) {}";
    let highlights = extract_highlights(source, 0..usize::MAX, JS);

    let has_regex = highlights[0]
        .markers
        .iter()
        .any(|m| m.token_type == TokenType::Regex);
    assert!(has_regex, "/test/ should be highlighted as regex");
}

#[test]
fn test_division_not_regex() {
    // After an identifier, `/` is division not regex
    let source = "const x = a / b / c;";
    let highlights = extract_highlights(source, 0..usize::MAX, JS);

    let has_regex = highlights[0]
        .markers
        .iter()
        .any(|m| m.token_type == TokenType::Regex);
    assert!(!has_regex, "a / b / c should not have regex markers");
}

#[test]
fn test_regex_with_char_class() {
    let source = "const re = /[a-z]+/;";
    let highlights = extract_highlights(source, 0..usize::MAX, JS);

    let has_regex = highlights[0]
        .markers
        .iter()
        .any(|m| m.token_type == TokenType::Regex);
    assert!(has_regex, "/[a-z]+/ should be highlighted as regex");
}

#[test]
fn test_regex_at_start_of_line() {
    let source = "/pattern/g.test(str)";
    let highlights = extract_highlights(source, 0..usize::MAX, JS);

    let has_regex = highlights[0]
        .markers
        .iter()
        .any(|m| m.token_type == TokenType::Regex);
    assert!(has_regex, "/pattern/g at start of input should be regex");
}

// -----------------------------------------------------------------------
// Keyword highlighting tests
// -----------------------------------------------------------------------

#[test]
fn test_js_keywords_highlighted() {
    let source = "const foo = function() { return true; }";
    let highlights = extract_highlights(source, 0..usize::MAX, JS);

    let keyword_offsets: Vec<(usize, bool)> = highlights[0]
        .markers
        .iter()
        .filter(|m| m.token_type == TokenType::Keyword)
        .map(|m| (m.offset, m.is_start))
        .collect();

    // "const" at 0..5, "function" at 12..20, "return" at 25..31, "true" at 32..36
    assert!(
        keyword_offsets.contains(&(0, true)),
        "'const' should start at offset 0"
    );
    assert!(
        keyword_offsets.contains(&(12, true)),
        "'function' should start at offset 12"
    );
    assert!(
        keyword_offsets.contains(&(25, true)),
        "'return' should start at offset 25"
    );
    assert!(
        keyword_offsets.contains(&(32, true)),
        "'true' should start at offset 32"
    );
}

#[test]
fn test_js_non_keywords_not_highlighted_as_keyword() {
    let source = "const myVar = something";
    let highlights = extract_highlights(source, 0..usize::MAX, JS);

    // "myVar" and "something" should NOT be highlighted as keywords
    let keyword_starts: Vec<usize> = highlights[0]
        .markers
        .iter()
        .filter(|m| m.token_type == TokenType::Keyword && m.is_start)
        .map(|m| m.offset)
        .collect();

    // Only "const" at offset 0 should be a keyword
    assert_eq!(keyword_starts, vec![0], "Only 'const' should be a keyword");
}

#[test]
fn test_css_no_keywords() {
    let source = "const foo = function() { return true; }";
    let highlights = extract_highlights(source, 0..usize::MAX, Language::Css);

    let has_keyword = highlights[0]
        .markers
        .iter()
        .any(|m| m.token_type == TokenType::Keyword);
    assert!(
        !has_keyword,
        "CSS language should not produce keyword markers"
    );
}

// -----------------------------------------------------------------------
// CSS-like content tests (works via generic tokenizer)
// -----------------------------------------------------------------------

#[test]
fn test_css_basic_highlighting() {
    let source = "div { color: red; }";
    let highlights = extract_highlights(source, 0..usize::MAX, JS);
    let color_scheme = ColorScheme::colored();

    assert_eq!(highlights.len(), 1);
    let stripped = strip_ansi_codes(&apply_line_highlights(
        source,
        &highlights[0],
        &color_scheme,
    ));
    assert_eq!(stripped, source, "Content should be preserved");
}

#[test]
fn test_css_strings_and_comments() {
    let source = "/* a comment */\n.foo { content: 'hello'; }";
    let highlights = extract_highlights(source, 0..usize::MAX, JS);

    assert_eq!(highlights.len(), 2);

    let has_comment = highlights[0]
        .markers
        .iter()
        .any(|m| m.token_type == TokenType::Comment);
    assert!(has_comment, "Should have comment markers");

    let has_string = highlights[1]
        .markers
        .iter()
        .any(|m| m.token_type == TokenType::String);
    assert!(has_string, "Should have string markers");
}

#[test]
fn test_block_comment() {
    let source = "x = 1 /* block\ncomment */ y = 2";
    let highlights = extract_highlights(source, 0..usize::MAX, JS);

    assert_eq!(highlights.len(), 2);

    let line1_has_comment = highlights[0]
        .markers
        .iter()
        .any(|m| m.token_type == TokenType::Comment);
    let line2_has_comment = highlights[1]
        .markers
        .iter()
        .any(|m| m.token_type == TokenType::Comment);

    assert!(line1_has_comment, "Line 1 should have comment marker");
    assert!(line2_has_comment, "Line 2 should have comment marker");
}

#[test]
fn test_line_markers_in_full_order() {
    let source = "x = `a ${b} c` + /r/g; // done\nconst Y = 'q' /* c */ + 1;";
    for highlight in extract_highlights(source, 0..usize::MAX, JS) {
        let width = highlight.line_end_offset - highlight.line_start_offset;
        assert!(highlight.markers.windows(2).all(|w| w[0] <= w[1]));
        assert!(highlight.markers.iter().all(|m| m.offset < width));
    }
}

#[test]
fn test_range_highlights_within_whole() {
    let source = "/* a\n\n b */\nconst X = 1;";
    let whole = extract_highlights(source, 0..usize::MAX, JS);
    let part = extract_highlights(source, 1..3, JS);
    assert_eq!(part.len(), 2);
    for (j, h) in part.iter().enumerate() {
        let w = &whole[1 + j];
        assert_eq!(h.line, w.line);
        assert_eq!(h.line_start_offset, w.line_start_offset);
        assert_eq!(h.line_end_offset, w.line_end_offset);
        let kept: Vec<_> = w
            .markers
            .iter()
            .filter(|m| m.is_start || m.offset != 0 || j != 0)
            .cloned()
            .collect();
        assert_eq!(h.markers, kept);
    }
    // the first requested line loses the end marker that closes the line before
    assert_eq!(part[0].markers.len() + 1, whole[1].markers.len());
}

#[test]
fn test_adjust_without_truncation_keeps_markers() {
    let source = "const Foo = 123";
    let highlights = extract_highlights(source, 0..usize::MAX, JS);
    let h = &highlights[0];
    let adjusted = adjust_highlights_for_truncation(h, 0, source.len(), 0);
    assert_eq!(adjusted.markers, h.markers);
    assert_eq!(adjusted.line, h.line);
    assert_eq!(adjusted.line_start_offset, h.line_start_offset);
    assert_eq!(
        adjusted.line_end_offset,
        (h.line_start_offset + source.len()).min(h.line_end_offset)
    );
}
