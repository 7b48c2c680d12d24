use next_code_frame::frame::{
    check_render_fits, render_code_frame, CodeFrameError, CodeFrameLocation, CodeFrameOptions,
    Location,
};
use next_code_frame::highlight::Language;

/// Removes ANSI escape sequences (`ESC [ ... letter`).
fn strip_escapes(s: &str) -> String {
    let mut result = String::new();
    let mut chars = s.chars();
    while let Some(ch) = chars.next() {
        if ch == '\x1b' {
            if chars.next() == Some('[') {
                for ch in chars.by_ref() {
                    if ch.is_ascii_alphabetic() {
                        break;
                    }
                }
            }
        } else {
            result.push(ch);
        }
    }
    result
}

fn plain_options() -> CodeFrameOptions {
    CodeFrameOptions {
        force_color: false,
        highlight_code: false,
        max_width: Some(80),
        ..Default::default()
    }
}

fn at(line: usize, column: Option<usize>) -> CodeFrameLocation {
    CodeFrameLocation {
        start: Location { line, column },
        end: None,
    }
}

const THREE_LINES: &str = "const x = 1;\nconst y = 2;\nconst z = 3;";

#[test]
fn test_default_options() {
    let options = CodeFrameOptions::default();
    assert_eq!(options.lines_above, 2);
    assert_eq!(options.lines_below, 3);
    assert!(options.force_color);
    assert!(options.highlight_code);
    assert_eq!(options.message, None);
    assert_eq!(options.max_width, None);
    assert_eq!(options.language, Language::JavaScript);
}

#[test]
fn test_render_single_column() {
    let out = render_code_frame(THREE_LINES, &at(2, Some(7)), &plain_options(), 80).unwrap();
    assert_eq!(
        out,
        "  1 | const x = 1;\n> 2 | const y = 2;\n    |       ^\n  3 | const z = 3;"
    );
}

#[test]
fn test_render_range_on_one_line() {
    let location = CodeFrameLocation {
        start: Location { line: 2, column: Some(7) },
        end: Some(Location { line: 2, column: Some(12) }),
    };
    let out = render_code_frame(THREE_LINES, &location, &plain_options(), 80).unwrap();
    assert_eq!(
        out,
        "  1 | const x = 1;\n> 2 | const y = 2;\n    |       ^^^^^\n  3 | const z = 3;"
    );
}

#[test]
fn test_render_message_after_marker() {
    let options = CodeFrameOptions {
        message: Some("oops".to_string()),
        ..plain_options()
    };
    let out = render_code_frame(THREE_LINES, &at(2, Some(7)), &options, 80).unwrap();
    assert_eq!(
        out,
        "  1 | const x = 1;\n> 2 | const y = 2;\n    |       ^ oops\n  3 | const z = 3;"
    );
}

#[test]
fn test_render_message_without_column() {
    let options = CodeFrameOptions {
        message: Some("oops".to_string()),
        ..plain_options()
    };
    let out = render_code_frame(THREE_LINES, &at(2, None), &options, 80).unwrap();
    assert_eq!(
        out,
        "      oops\n  1 | const x = 1;\n> 2 | const y = 2;\n  3 | const z = 3;"
    );
}

#[test]
fn test_render_multiline_error() {
    let location = CodeFrameLocation {
        start: Location { line: 1, column: Some(1) },
        end: Some(Location { line: 3, column: Some(2) }),
    };
    let out = render_code_frame("a\nbcd\nef", &location, &plain_options(), 80).unwrap();
    assert_eq!(out, "> 1 | a\n    | ^\n> 2 | bcd\n    | ^\n> 3 | ef\n    | ^");
}

#[test]
fn test_render_window_and_gutter_width() {
    let source = (1..=12).map(|i| format!("l{i}")).collect::<Vec<_>>().join("\n");
    let out = render_code_frame(&source, &at(10, None), &plain_options(), 80).unwrap();
    assert_eq!(out, "   8 | l8\n   9 | l9\n> 10 | l10\n  11 | l11\n  12 | l12");
}

#[test]
fn test_render_strips_carriage_return() {
    let out = render_code_frame("foo\r\nbar", &at(2, Some(1)), &plain_options(), 80).unwrap();
    assert_eq!(out, "  1 | foo\n> 2 | bar\n    | ^");
}

#[test]
fn test_render_line_after_trailing_newline() {
    let out = render_code_frame("foo\n", &at(2, None), &plain_options(), 80).unwrap();
    assert_eq!(out, "  1 | foo\n> 2 |");
}

#[test]
fn test_render_empty_source() {
    let out = render_code_frame("", &at(1, Some(1)), &plain_options(), 80).unwrap();
    assert_eq!(out, "");
}

#[test]
fn test_render_line_past_end() {
    let out = render_code_frame(THREE_LINES, &at(4, Some(1)), &plain_options(), 80).unwrap();
    assert_eq!(out, "");
}

#[test]
fn test_render_end_before_start() {
    let location = CodeFrameLocation {
        start: Location { line: 3, column: None },
        end: Some(Location { line: 1, column: None }),
    };
    let err = render_code_frame(THREE_LINES, &location, &plain_options(), 80).unwrap_err();
    assert_eq!(
        err,
        CodeFrameError::InvalidEndLine {
            end_line: 0,
            start_line: 2
        }
    );
}

#[test]
fn test_render_width_too_small() {
    let options = CodeFrameOptions {
        max_width: Some(6),
        ..plain_options()
    };
    let err = render_code_frame(THREE_LINES, &at(2, Some(1)), &options, 80).unwrap_err();
    assert_eq!(err, CodeFrameError::MaxWidthTooSmall { max_width: 6 });
}

#[test]
fn test_render_terminal_width_used_without_max_width() {
    let options = CodeFrameOptions {
        max_width: None,
        ..plain_options()
    };
    let err = render_code_frame(THREE_LINES, &at(2, Some(1)), &options, 5).unwrap_err();
    assert_eq!(err, CodeFrameError::MaxWidthTooSmall { max_width: 5 });
    let out = render_code_frame(THREE_LINES, &at(2, Some(7)), &options, 80).unwrap();
    assert!(out.contains("> 2 | const y = 2;"));
}

#[test]
fn test_render_truncates_long_line() {
    let source = format!("{}X{}", "a".repeat(50), "b".repeat(49));
    let options = CodeFrameOptions {
        max_width: Some(30),
        ..plain_options()
    };
    let out = render_code_frame(&source, &at(1, Some(51)), &options, 80).unwrap();
    assert_eq!(
        out,
        format!("> 1 | ...aaaaaaaaaXbbbbbbbb...\n    | {}^", " ".repeat(13))
    );
    // the visible content never exceeds the available width
    let first_line = out.lines().next().unwrap();
    assert!(first_line.len() - "> 1 | ".len() <= 24);
}

#[test]
fn test_render_colored_only_adds_escapes() {
    let colored = CodeFrameOptions {
        force_color: true,
        ..plain_options()
    };
    let out = render_code_frame(THREE_LINES, &at(2, Some(7)), &colored, 80).unwrap();
    assert!(out.contains("\x1b["));
    let plain = render_code_frame(THREE_LINES, &at(2, Some(7)), &plain_options(), 80).unwrap();
    assert_eq!(strip_escapes(&out), plain);
}

#[test]
fn test_render_highlighted_only_adds_escapes() {
    let source = "const Foo = 123;\nlet s = 'hi'; // note";
    let colored = CodeFrameOptions {
        force_color: true,
        highlight_code: true,
        ..plain_options()
    };
    let plain = CodeFrameOptions {
        highlight_code: true,
        ..plain_options()
    };
    let out = render_code_frame(source, &at(1, Some(7)), &colored, 80).unwrap();
    assert!(out.contains("\x1b[33mFoo"));
    let expected = "> 1 | const Foo = 123;\n    |       ^\n  2 | let s = 'hi'; // note";
    assert_eq!(render_code_frame(source, &at(1, Some(7)), &plain, 80).unwrap(), expected);
    assert_eq!(strip_escapes(&out), expected);
}

#[test]
fn test_render_empty_line_inside_comment() {
    // An empty line inside a block comment carries only colour codes, so the
    // coloured frame shows a space after its gutter where the plain one does not.
    let source = "/* a\n\n b */";
    let colored = CodeFrameOptions {
        force_color: true,
        highlight_code: true,
        ..plain_options()
    };
    let plain = CodeFrameOptions {
        highlight_code: true,
        ..plain_options()
    };
    let out = render_code_frame(source, &at(2, None), &colored, 80).unwrap();
    assert_eq!(strip_escapes(&out), "  1 | /* a\n> 2 | \n  3 |  b */");
    assert_eq!(
        render_code_frame(source, &at(2, None), &plain, 80).unwrap(),
        "  1 | /* a\n> 2 |\n  3 |  b */"
    );
}

#[test]
fn test_check_render_fits() {
    assert!(check_render_fits(THREE_LINES, &at(2, Some(7)), &plain_options(), 80));
    // nothing is computed for an empty source or a line past the end
    assert!(check_render_fits("", &at(2, Some(usize::MAX)), &plain_options(), 80));
    assert!(check_render_fits(THREE_LINES, &at(9, Some(usize::MAX)), &plain_options(), 80));
    // one past the start column overflows
    assert!(!check_render_fits(THREE_LINES, &at(2, Some(usize::MAX)), &plain_options(), 80));
    // the end of the window overflows
    let below = CodeFrameOptions {
        lines_below: usize::MAX,
        ..plain_options()
    };
    assert!(!check_render_fits(THREE_LINES, &at(2, None), &below, 80));
    // centring a truncated window adds the two columns
    let long = "x".repeat(100);
    assert!(!check_render_fits(&long, &at(1, Some(usize::MAX - 1)), &plain_options(), 80));
    assert!(check_render_fits(&long, &at(1, Some(usize::MAX / 4)), &plain_options(), 80));
}

#[test]
fn test_render_no_trailing_newline() {
    let out = render_code_frame("a\nb\n", &at(1, Some(1)), &plain_options(), 80).unwrap();
    assert_eq!(out, "> 1 | a\n    | ^\n  2 | b\n  3 |");
    assert!(!out.ends_with('\n'));
    // only a message that ends with a newline and is written last ends the frame with one
    let options = CodeFrameOptions {
        message: Some("oops\n".to_string()),
        ..plain_options()
    };
    let out = render_code_frame("a", &at(1, Some(1)), &options, 80).unwrap();
    assert_eq!(out, "> 1 | a\n    | ^ oops\n");
}

#[test]
fn test_render_marker_cut_to_width() {
    let location = CodeFrameLocation {
        start: Location { line: 1, column: Some(1) },
        end: Some(Location { line: 1, column: Some(11) }),
    };
    let options = CodeFrameOptions {
        max_width: Some(12),
        ..plain_options()
    };
    let out = render_code_frame("abcdefghij", &location, &options, 80).unwrap();
    assert_eq!(out, "> 1 | ......\n    |    ^^^");
}

#[test]
fn test_render_truncation_keeps_characters_whole() {
    // two-byte characters: the window is cut between characters on both sides
    let source = "é".repeat(20);
    let options = CodeFrameOptions {
        max_width: Some(21),
        ..plain_options()
    };
    let out = render_code_frame(&source, &at(1, Some(22)), &options, 80).unwrap();
    assert_eq!(out, format!("> 1 | ...éééé...\n    | {}^", " ".repeat(7)));
}

#[test]
fn test_render_uncolored_highlighting_keeps_frame() {
    let source = "/* a\n\n b */\nconst Foo = `x ${y}`; // z";
    let on = CodeFrameOptions {
        highlight_code: true,
        ..plain_options()
    };
    let off = plain_options();
    for line in 1..=4 {
        assert_eq!(
            render_code_frame(source, &at(line, Some(2)), &on, 80).unwrap(),
            render_code_frame(source, &at(line, Some(2)), &off, 80).unwrap()
        );
    }
}

#[test]
fn test_render_multiline_first_line_marked_to_its_end() {
    let location = CodeFrameLocation {
        start: Location { line: 1, column: Some(1) },
        end: Some(Location { line: 2, column: Some(2) }),
    };
    let out = render_code_frame("ab\ncd", &location, &plain_options(), 80).unwrap();
    assert_eq!(out, "> 1 | ab\n    | ^^\n> 2 | cd\n    | ^");
}
