use next_code_frame::highlight::{
    add_marker_pair, apply_line_highlights, group_markers_by_line, marker_le_exec, sort_markers,
    ColorScheme, LineHighlight, StyleMarker, TokenType,
};
use next_code_frame::lines::{compute_line_starts, line_bounds, lookup_line};
use next_code_frame::scanner::{extract_markers, scan_token, LastToken, Tokenizer};

fn marker(offset: usize, is_start: bool, token_type: TokenType) -> StyleMarker {
    StyleMarker {
        offset,
        is_start,
        token_type,
    }
}

#[test]
fn test_compute_line_starts() {
    assert_eq!(compute_line_starts(""), vec![0]);
    assert_eq!(compute_line_starts("abc"), vec![0]);
    assert_eq!(compute_line_starts("a\nbc\n"), vec![0, 2, 5]);
    assert_eq!(compute_line_starts("\n\n"), vec![0, 1, 2]);
}

#[test]
fn test_lookup_line() {
    let starts = compute_line_starts("ab\ncd\nef");
    assert_eq!(starts, vec![0, 3, 6]);
    assert_eq!(lookup_line(&starts, 0), 0);
    assert_eq!(lookup_line(&starts, 2), 0);
    assert_eq!(lookup_line(&starts, 3), 1);
    assert_eq!(lookup_line(&starts, 5), 1);
    assert_eq!(lookup_line(&starts, 6), 2);
    assert_eq!(lookup_line(&starts, 100), 2);
}

#[test]
fn test_line_bounds() {
    let starts = vec![0, 3, 6];
    assert_eq!(line_bounds(&starts, 8, 0), (0, 3));
    assert_eq!(line_bounds(&starts, 8, 2), (6, 8));
    assert_eq!(line_bounds(&starts, 8, 3), (8, 8));
}

#[test]
fn test_add_marker_pair_single_line() {
    let starts = vec![0, 4];
    let mut markers = Vec::new();
    add_marker_pair(&mut markers, &starts, 8, 1, 3, TokenType::String, (0, 8));
    assert_eq!(
        markers,
        vec![marker(1, true, TokenType::String), marker(3, false, TokenType::String)]
    );
}

#[test]
fn test_add_marker_pair_splits_lines() {
    let starts = vec![0, 4];
    let mut markers = Vec::new();
    add_marker_pair(&mut markers, &starts, 8, 1, 7, TokenType::Comment, (0, 8));
    assert_eq!(
        markers,
        vec![
            marker(1, true, TokenType::Comment),
            marker(4, false, TokenType::Comment),
            marker(4, true, TokenType::Comment),
            marker(7, false, TokenType::Comment),
        ]
    );
}

#[test]
fn test_add_marker_pair_outside_range_or_empty() {
    let starts = vec![0, 4];
    let mut markers = Vec::new();
    add_marker_pair(&mut markers, &starts, 8, 1, 3, TokenType::String, (4, 8));
    add_marker_pair(&mut markers, &starts, 8, 5, 5, TokenType::String, (0, 8));
    assert!(markers.is_empty());
    // only the piece on the second line overlaps the range
    add_marker_pair(&mut markers, &starts, 8, 1, 7, TokenType::Comment, (4, 8));
    assert_eq!(
        markers,
        vec![marker(4, true, TokenType::Comment), marker(7, false, TokenType::Comment)]
    );
}

#[test]
fn test_sort_markers_order() {
    let markers = vec![
        marker(5, true, TokenType::Number),
        marker(2, true, TokenType::String),
        marker(5, false, TokenType::String),
        marker(5, true, TokenType::Keyword),
    ];
    let sorted = sort_markers(&markers);
    assert_eq!(
        sorted,
        vec![
            marker(2, true, TokenType::String),
            marker(5, false, TokenType::String),
            marker(5, true, TokenType::Keyword),
            marker(5, true, TokenType::Number),
        ]
    );
    let mut expected = markers.clone();
    expected.sort();
    assert_eq!(sorted, expected);
    assert!(marker_le_exec(&sorted[0], &sorted[1]));
    assert!(!marker_le_exec(&sorted[3], &sorted[2]));
}

#[test]
fn test_group_markers_by_line() {
    let source = "ab\ncd\nef";
    let starts = compute_line_starts(source);
    let markers = vec![
        marker(0, true, TokenType::Identifier),
        marker(2, false, TokenType::Identifier),
        marker(3, true, TokenType::Number),
        marker(5, false, TokenType::Number),
    ];
    let groups = group_markers_by_line(&markers, &starts, source, 0..2);
    assert_eq!(groups.len(), 2);
    assert_eq!(groups[0].line, 1);
    assert_eq!(groups[0].line_start_offset, 0);
    assert_eq!(groups[0].line_end_offset, 3);
    assert_eq!(
        groups[0].markers,
        vec![marker(0, true, TokenType::Identifier), marker(2, false, TokenType::Identifier)]
    );
    assert_eq!(groups[1].line, 2);
    assert_eq!(
        groups[1].markers,
        vec![marker(0, true, TokenType::Number), marker(2, false, TokenType::Number)]
    );
    assert!(group_markers_by_line(&markers, &starts, "", 0..2).is_empty());
    assert_eq!(group_markers_by_line(&markers, &starts, source, 2..10).len(), 1);
}

#[test]
fn test_expects_regex() {
    assert!(LastToken::Start.expects_regex());
    assert!(LastToken::Operator.expects_regex());
    assert!(!LastToken::Value.expects_regex());
    assert!(!LastToken::CloseBracket.expects_regex());
    assert!(!LastToken::PostfixOp.expects_regex());
}

#[test]
fn test_extract_markers_tokens() {
    let tok = Tokenizer::new().expect("the token patterns compile");
    let source = "let s = 'x' + 1";
    let starts = compute_line_starts(source);
    let markers = extract_markers(&tok, source, &starts, (0, source.len()), next_code_frame::highlight::Language::JavaScript);
    assert_eq!(
        markers,
        vec![
            marker(0, true, TokenType::Keyword),
            marker(3, false, TokenType::Keyword),
            marker(8, true, TokenType::String),
            marker(11, false, TokenType::String),
            marker(14, true, TokenType::Number),
            marker(15, false, TokenType::Number),
        ]
    );
}

#[test]
fn test_scan_token_steps() {
    let tok = Tokenizer::new().expect("the token patterns compile");
    let source = "x = 42";
    let starts = compute_line_starts(source);
    let mut markers = Vec::new();
    // group 5 is a number: it is marked and leaves a value behind
    let (closes, next, last, depth) = scan_token(
        &mut markers,
        &starts,
        source,
        (0, source.len()),
        next_code_frame::highlight::Language::JavaScript,
        &tok,
        4,
        6,
        5,
        6,
        0,
        LastToken::Operator,
    );
    assert!(!closes);
    assert_eq!(next, 6);
    assert_eq!(last, LastToken::Value);
    assert_eq!(depth, 0);
    assert_eq!(
        markers,
        vec![marker(4, true, TokenType::Number), marker(6, false, TokenType::Number)]
    );
    // group 11 is an operator: no marker, a regex may follow
    let (_, next, last, _) = scan_token(
        &mut markers,
        &starts,
        source,
        (0, source.len()),
        next_code_frame::highlight::Language::JavaScript,
        &tok,
        2,
        3,
        11,
        6,
        0,
        LastToken::Value,
    );
    assert_eq!(next, 3);
    assert_eq!(last, LastToken::Operator);
    assert_eq!(markers.len(), 2);
}

#[test]
fn test_apply_skips_markers_behind_the_text_written() {
    // the end marker inside "é" never cuts the line: the text is already written past it
    let highlight = LineHighlight {
        line: 1,
        line_start_offset: 0,
        line_end_offset: 2,
        markers: vec![marker(2, true, TokenType::String), marker(1, false, TokenType::String)],
    };
    assert_eq!(apply_line_highlights("é", &highlight, &ColorScheme::plain()), "é");
    assert_eq!(
        apply_line_highlights("é", &highlight, &ColorScheme::colored()),
        "é\x1b[32m\x1b[0m"
    );
}

#[test]
fn test_extract_markers_in_pairs() {
    let tok = Tokenizer::new().expect("the token patterns compile");
    let source = "const X = `a ${'b' + /r/g} c`; /* x\ny */ 1.5";
    let starts = compute_line_starts(source);
    let markers = extract_markers(&tok, source, &starts, (0, source.len()), next_code_frame::highlight::Language::JavaScript);
    assert_eq!(markers.len() % 2, 0);
    for pair in markers.chunks(2) {
        assert!(pair[0].is_start && !pair[1].is_start);
        assert_eq!(pair[0].token_type, pair[1].token_type);
        assert!(pair[0].offset < pair[1].offset && pair[1].offset <= source.len());
    }
}
