use logseq_view::parser::{
    extract_task_state, line_display_text, line_row_count, line_to_plain_text, parse_file,
    parse_inline, splice_raw_lines, ParsedLine, Segment, TaskState,
};

#[test]
fn line_display_text_includes_indent_bullet_and_task_label() {
    let line = ParsedLine {
        indent: 2,
        is_bullet: true,
        task: Some(TaskState::Todo),
        segments: vec![Segment::Plain("write tests".to_string())],
        ..Default::default()
    };
    assert_eq!(line_display_text(&line), "    ○ TODO write tests");
}

#[test]
fn line_display_text_marks_done_and_cancelled_with_check() {
    let line = ParsedLine {
        indent: 0,
        is_bullet: true,
        task: Some(TaskState::Done),
        segments: vec![Segment::Plain("shipped".to_string())],
        ..Default::default()
    };
    assert_eq!(line_display_text(&line), "✓ DONE shipped");
}

#[test]
fn line_display_text_wraps_segments_like_render_line() {
    let line = ParsedLine {
        indent: 0,
        is_bullet: false,
        task: None,
        segments: vec![
            Segment::Plain("see ".to_string()),
            Segment::PageLink("Other Page".to_string()),
            Segment::Plain(" and ".to_string()),
            Segment::Tag("logseq".to_string()),
            Segment::Plain(" re ".to_string()),
            Segment::BlockRef("0123456789".to_string()),
        ],
        ..Default::default()
    };
    assert_eq!(
        line_display_text(&line),
        "see [[Other Page]] and #logseq re ((01234567…))"
    );
}

#[test]
fn line_display_text_property_matches_key_double_colon_val() {
    let line = ParsedLine {
        indent: 0,
        is_bullet: false,
        task: None,
        segments: vec![Segment::Property(
            "status".to_string(),
            "active".to_string(),
        )],
        ..Default::default()
    };
    assert_eq!(line_display_text(&line), "status:: active");
}

#[test]
fn line_row_count_matches_wrap_row_count_of_display_text() {
    let line = ParsedLine {
        indent: 0,
        is_bullet: false,
        task: None,
        segments: vec![Segment::Plain("x".repeat(200))],
        ..Default::default()
    };
    assert_eq!(
        line_row_count(&line, 19),
        logseq_view::wrap::row_count(&"x".repeat(200), 19)
    );
}

#[test]
fn line_row_count_is_one_for_a_short_line() {
    let line = ParsedLine {
        indent: 0,
        is_bullet: false,
        task: None,
        segments: vec![Segment::Plain("short".to_string())],
        ..Default::default()
    };
    assert_eq!(line_row_count(&line, 80), 1);
}

#[test]
fn test_parse_inline_page_link() {
    let result = parse_inline("Check [[my page]] here");
    assert_eq!(
        result,
        vec![
            Segment::Plain("Check ".to_string()),
            Segment::PageLink("my page".to_string()),
            Segment::Plain(" here".to_string()),
        ]
    );
}

#[test]
fn test_parse_inline_tags() {
    let result = parse_inline("This is #tag and #my-tag and #tag_name");
    assert_eq!(
        result,
        vec![
            Segment::Plain("This is ".to_string()),
            Segment::Tag("tag".to_string()),
            Segment::Plain(" and ".to_string()),
            Segment::Tag("my-tag".to_string()),
            Segment::Plain(" and ".to_string()),
            Segment::Tag("tag_name".to_string()),
        ]
    );
}

#[test]
fn test_parse_inline_tag_with_punctuation() {
    let result = parse_inline("Tagged with #issue, right?");
    assert_eq!(
        result,
        vec![
            Segment::Plain("Tagged with ".to_string()),
            Segment::Tag("issue".to_string()),
            Segment::Plain(", right?".to_string()),
        ]
    );
}

#[test]
fn test_parse_inline_bold() {
    let result = parse_inline("This is **bold** text");
    assert_eq!(
        result,
        vec![
            Segment::Plain("This is ".to_string()),
            Segment::Bold("bold".to_string()),
            Segment::Plain(" text".to_string()),
        ]
    );
}

#[test]
fn test_parse_inline_code() {
    let result = parse_inline("Use `code here` in text");
    assert_eq!(
        result,
        vec![
            Segment::Plain("Use ".to_string()),
            Segment::Code("code here".to_string()),
            Segment::Plain(" in text".to_string()),
        ]
    );
}

#[test]
fn test_parse_inline_italic_asterisk() {
    let result = parse_inline("This is *italic* text");
    assert_eq!(
        result,
        vec![
            Segment::Plain("This is ".to_string()),
            Segment::Italic("italic".to_string()),
            Segment::Plain(" text".to_string()),
        ]
    );
}

#[test]
fn test_parse_inline_italic_underscore() {
    let result = parse_inline("This is _italic_ text");
    assert_eq!(
        result,
        vec![
            Segment::Plain("This is ".to_string()),
            Segment::Italic("italic".to_string()),
            Segment::Plain(" text".to_string()),
        ]
    );
}

#[test]
fn test_parse_inline_italic_underscore_no_false_positives() {
    let result = parse_inline("foo_bar_baz");
    assert_eq!(result, vec![Segment::Plain("foo_bar_baz".to_string())]);
}

#[test]
fn test_parse_inline_italic_underscore_word_boundary() {
    let result = parse_inline("prefix _italic_ suffix");
    assert_eq!(
        result,
        vec![
            Segment::Plain("prefix ".to_string()),
            Segment::Italic("italic".to_string()),
            Segment::Plain(" suffix".to_string()),
        ]
    );
}

#[test]
fn test_parse_inline_italic_underscore_start() {
    let result = parse_inline("_italic_ text");
    assert_eq!(
        result,
        vec![
            Segment::Italic("italic".to_string()),
            Segment::Plain(" text".to_string()),
        ]
    );
}

#[test]
fn test_parse_inline_italic_underscore_end() {
    let result = parse_inline("text _italic_");
    assert_eq!(
        result,
        vec![
            Segment::Plain("text ".to_string()),
            Segment::Italic("italic".to_string()),
        ]
    );
}

#[test]
fn test_parse_inline_italic_underscore_after_punctuation() {
    let result = parse_inline("text, _italic_ here");
    assert_eq!(
        result,
        vec![
            Segment::Plain("text, ".to_string()),
            Segment::Italic("italic".to_string()),
            Segment::Plain(" here".to_string()),
        ]
    );
}

#[test]
fn test_parse_inline_block_ref() {
    let result = parse_inline("See ((block-id-123)) for details");
    assert_eq!(
        result,
        vec![
            Segment::Plain("See ".to_string()),
            Segment::BlockRef("block-id-123".to_string()),
            Segment::Plain(" for details".to_string()),
        ]
    );
}

#[test]
fn test_parse_inline_mixed() {
    let result = parse_inline("foo [[bar]] **baz** *italic* #tag");
    assert_eq!(
        result,
        vec![
            Segment::Plain("foo ".to_string()),
            Segment::PageLink("bar".to_string()),
            Segment::Plain(" ".to_string()),
            Segment::Bold("baz".to_string()),
            Segment::Plain(" ".to_string()),
            Segment::Italic("italic".to_string()),
            Segment::Plain(" ".to_string()),
            Segment::Tag("tag".to_string()),
        ]
    );
}

#[test]
fn test_extract_task_state_todo() {
    let (state, rest) = extract_task_state("TODO do something");
    assert_eq!(state, Some(TaskState::Todo));
    assert_eq!(rest, "do something");
}

#[test]
fn test_extract_task_state_done() {
    let (state, rest) = extract_task_state("DONE finished");
    assert_eq!(state, Some(TaskState::Done));
    assert_eq!(rest, "finished");
}

#[test]
fn test_extract_task_state_later() {
    let (state, rest) = extract_task_state("LATER defer this");
    assert_eq!(state, Some(TaskState::Later));
    assert_eq!(rest, "defer this");
}

#[test]
fn test_extract_task_state_now() {
    let (state, rest) = extract_task_state("NOW urgent task");
    assert_eq!(state, Some(TaskState::Now));
    assert_eq!(rest, "urgent task");
}

#[test]
fn test_extract_task_state_waiting() {
    let (state, rest) = extract_task_state("WAITING on someone");
    assert_eq!(state, Some(TaskState::Waiting));
    assert_eq!(rest, "on someone");
}

#[test]
fn test_extract_task_state_cancelled() {
    let (state, rest) = extract_task_state("CANCELLED cancelled task");
    assert_eq!(state, Some(TaskState::Cancelled));
    assert_eq!(rest, "cancelled task");
}

#[test]
fn test_extract_task_state_none() {
    let (state, rest) = extract_task_state("Just regular text");
    assert_eq!(state, None);
    assert_eq!(rest, "Just regular text");
}

#[test]
fn test_parse_file_simple_line() {
    let content = "Hello world";
    let result = parse_file(content);
    assert_eq!(result.len(), 1);
    assert_eq!(result[0].indent, 0);
    assert!(!result[0].is_bullet);
    assert_eq!(result[0].task, None);
    assert_eq!(
        result[0].segments,
        vec![Segment::Plain("Hello world".to_string())]
    );
}

#[test]
fn test_parse_file_two_space_indent() {
    let content = "  Indented";
    let result = parse_file(content);
    assert_eq!(result[0].indent, 1);
}

#[test]
fn test_parse_file_four_space_indent() {
    let content = "    Indented";
    let result = parse_file(content);
    assert_eq!(result[0].indent, 2);
}

#[test]
fn test_parse_file_tab_indent() {
    let content = "\tIndented";
    let result = parse_file(content);
    assert_eq!(result[0].indent, 1);
}

#[test]
fn test_parse_file_two_tabs_indent() {
    let content = "\t\tIndented";
    let result = parse_file(content);
    assert_eq!(result[0].indent, 2);
}

#[test]
fn test_parse_file_mixed_tab_and_spaces_indent() {
    let content = "\t  Mixed";
    let result = parse_file(content);
    assert_eq!(result[0].indent, 2);
}

#[test]
fn test_parse_file_bullet() {
    let content = "- Item one";
    let result = parse_file(content);
    assert!(result[0].is_bullet);
    assert_eq!(
        result[0].segments,
        vec![Segment::Plain("Item one".to_string())]
    );
}

#[test]
fn test_parse_file_bullet_with_task() {
    let content = "- TODO item";
    let result = parse_file(content);
    assert!(result[0].is_bullet);
    assert_eq!(result[0].task, Some(TaskState::Todo));
    assert_eq!(result[0].segments, vec![Segment::Plain("item".to_string())]);
}

#[test]
fn test_parse_file_property() {
    let content = "key:: value";
    let result = parse_file(content);
    assert_eq!(
        result[0].segments,
        vec![Segment::Property("key".to_string(), "value".to_string())]
    );
}

#[test]
fn test_parse_file_blank_line() {
    let content = "Line one\n\nLine three";
    let result = parse_file(content);
    assert_eq!(result.len(), 3);
    assert_eq!(result[1].segments.len(), 0); // blank line
}

#[test]
fn test_parse_file_fenced_code_block() {
    let content = "```rust\nfn main() {\n    println!(\"Hello\");\n}\n```";
    let result = parse_file(content);
    assert_eq!(result.len(), 1);
    match &result[0].segments[0] {
        Segment::Code(code) => {
            assert!(code.contains("fn main"));
        }
        _ => panic!("Expected Code segment"),
    }
}

#[test]
fn test_parse_file_code_block_strips_tab_outline_indentation() {
    let content = "\t\t\t- ```\n\t\t\t  fn main() {}\n\t\t\t  ```";
    let result = parse_file(content);
    assert_eq!(result.len(), 1);
    match &result[0].segments[0] {
        Segment::Code(code) => {
            assert!(
                !code.contains('\t'),
                "no raw tab byte should survive into the folded code text: {code:?}"
            );
            assert!(code.contains("fn main() {}"));
        }
        _ => panic!("Expected Code segment"),
    }
}

#[test]
fn test_parse_file_code_block_preserves_own_indentation_past_the_outline_prefix() {
    let content = "\t\t- ```json\n\t\t  {\n\t\t    \"a\": 1\n\t\t  }\n\t\t  ```";
    let result = parse_file(content);
    match &result[0].segments[0] {
        Segment::Code(code) => {
            assert!(code.contains("  {"));
            assert!(code.contains("    \"a\": 1"));
        }
        _ => panic!("Expected Code segment"),
    }
}

#[test]
fn test_parse_file_code_block_opened_by_a_bullet() {
    let content = "- ```rust\n  fn main() {}\n  ```";
    let result = parse_file(content);
    assert_eq!(result.len(), 1);
    assert!(result[0].is_bullet);
    match &result[0].segments[0] {
        Segment::Code(code) => assert!(code.contains("fn main")),
        _ => panic!("Expected Code segment"),
    }
}

#[test]
fn test_parse_file_code_block_opened_by_a_bullet_preserves_indent() {
    let content = "- parent\n  - ```rust\n    fn main() {}\n    ```";
    let result = parse_file(content);
    assert_eq!(result.len(), 2);
    assert_eq!(result[1].indent, 1);
    assert!(result[1].is_bullet);
}

#[test]
fn test_parse_file_unrelated_bullets_after_a_bullet_opened_code_block_are_not_swallowed() {
    let content =
        "- v1\n  - ```\n    line one\n    ```\n- v2\n- ```markdown\n  prompt text\n  ```";
    let result = parse_file(content);

    let plain_texts: Vec<&str> = result
        .iter()
        .filter_map(|l| match l.segments.first() {
            Some(Segment::Plain(s)) => Some(s.as_str()),
            _ => None,
        })
        .collect();
    assert_eq!(
        plain_texts,
        vec!["v1", "v2"],
        "\"v2\" must remain its own bullet, not get absorbed into a code block"
    );

    let code_blocks: Vec<&str> = result
        .iter()
        .filter_map(|l| match l.segments.first() {
            Some(Segment::Code(s)) => Some(s.as_str()),
            _ => None,
        })
        .collect();
    assert_eq!(code_blocks.len(), 2, "each code block stays its own fold");
    assert!(code_blocks[0].contains("line one"));
    assert!(!code_blocks[0].contains("v2"));
    assert!(code_blocks[1].contains("prompt text"));
}

#[test]
fn test_parse_file_unterminated_code_block() {
    let content = "```rust\nfn main() {\n    println!(\"Hello\");\n}";
    let result = parse_file(content);
    assert_eq!(result.len(), 1);
    match &result[0].segments[0] {
        Segment::Code(code) => {
            assert!(code.contains("fn main"));
            assert!(code.starts_with("```rust"));
        }
        _ => panic!("Expected Code segment"),
    }
}

#[test]
fn test_parse_file_with_lang() {
    let content = "```python\nprint(\"hello\")\n```";
    let result = parse_file(content);
    assert_eq!(result.len(), 1);
    match &result[0].segments[0] {
        Segment::Code(code) => {
            assert!(code.contains("python"));
        }
        _ => panic!("Expected Code segment"),
    }
}

#[test]
fn test_parse_file_multiple_blocks() {
    let content = "Line one\n\nLine two";
    let result = parse_file(content);
    assert_eq!(result.len(), 3);
    assert_eq!(
        result[0].segments[0],
        Segment::Plain("Line one".to_string())
    );
    assert_eq!(
        result[2].segments[0],
        Segment::Plain("Line two".to_string())
    );
}

#[test]
fn test_line_to_plain_text_plain_only() {
    let line = ParsedLine {
        indent: 0,
        is_bullet: false,
        task: None,
        segments: vec![Segment::Plain("Hello world".to_string())],
        ..Default::default()
    };
    assert_eq!(line_to_plain_text(&line), "Hello world");
}

#[test]
fn test_line_to_plain_text_mixed_segments() {
    let line = ParsedLine {
        indent: 0,
        is_bullet: false,
        task: None,
        segments: vec![
            Segment::Plain("Check ".to_string()),
            Segment::PageLink("my page".to_string()),
            Segment::Plain(" here ".to_string()),
            Segment::Tag("tag".to_string()),
            Segment::Plain(" and ".to_string()),
            Segment::Bold("bold".to_string()),
        ],
        ..Default::default()
    };
    assert_eq!(
        line_to_plain_text(&line),
        "Check my page here #tag and bold"
    );
}

#[test]
fn test_line_to_plain_text_code_segment() {
    let line = ParsedLine {
        indent: 0,
        is_bullet: false,
        task: None,
        segments: vec![
            Segment::Plain("Use ".to_string()),
            Segment::Code("code here".to_string()),
            Segment::Plain(" in text".to_string()),
        ],
        ..Default::default()
    };
    assert_eq!(line_to_plain_text(&line), "Use code here in text");
}

#[test]
fn test_line_to_plain_text_property() {
    let line = ParsedLine {
        indent: 0,
        is_bullet: false,
        task: None,
        segments: vec![Segment::Property("key".to_string(), "value".to_string())],
        ..Default::default()
    };
    assert_eq!(line_to_plain_text(&line), "key:: value");
}

#[test]
fn test_line_to_plain_text_block_ref() {
    let line = ParsedLine {
        indent: 0,
        is_bullet: false,
        task: None,
        segments: vec![
            Segment::Plain("See ".to_string()),
            Segment::BlockRef("block-id-123".to_string()),
            Segment::Plain(" for details".to_string()),
        ],
        ..Default::default()
    };
    assert_eq!(line_to_plain_text(&line), "See block-id-123 for details");
}

#[test]
fn test_line_to_plain_text_empty() {
    let line = ParsedLine {
        indent: 0,
        is_bullet: false,
        task: None,
        segments: vec![],
        ..Default::default()
    };
    assert_eq!(line_to_plain_text(&line), "");
}

#[test]
fn test_line_to_plain_text_italic_and_bold() {
    let line = ParsedLine {
        indent: 0,
        is_bullet: false,
        task: None,
        segments: vec![
            Segment::Italic("italic".to_string()),
            Segment::Plain(" and ".to_string()),
            Segment::Bold("bold".to_string()),
        ],
        ..Default::default()
    };
    assert_eq!(line_to_plain_text(&line), "italic and bold");
}

#[test]
fn test_task_state_keyword() {
    assert_eq!(TaskState::Todo.keyword(), "TODO");
    assert_eq!(TaskState::Done.keyword(), "DONE");
    assert_eq!(TaskState::Later.keyword(), "LATER");
    assert_eq!(TaskState::Now.keyword(), "NOW");
    assert_eq!(TaskState::Waiting.keyword(), "WAITING");
    assert_eq!(TaskState::Cancelled.keyword(), "CANCELLED");
}

#[test]
fn test_line_to_plain_text_with_task_todo() {
    let line = ParsedLine {
        indent: 0,
        is_bullet: false,
        task: Some(TaskState::Todo),
        segments: vec![Segment::Plain("buy milk".to_string())],
        ..Default::default()
    };
    assert_eq!(line_to_plain_text(&line), "TODO buy milk");
}

#[test]
fn test_line_to_plain_text_with_task_done() {
    let line = ParsedLine {
        indent: 0,
        is_bullet: false,
        task: Some(TaskState::Done),
        segments: vec![Segment::Plain("finished task".to_string())],
        ..Default::default()
    };
    assert_eq!(line_to_plain_text(&line), "DONE finished task");
}

#[test]
fn test_line_to_plain_text_with_task_cancelled() {
    let line = ParsedLine {
        indent: 0,
        is_bullet: false,
        task: Some(TaskState::Cancelled),
        segments: vec![Segment::Plain("abandoned".to_string())],
        ..Default::default()
    };
    assert_eq!(line_to_plain_text(&line), "CANCELLED abandoned");
}

#[test]
fn test_line_to_plain_text_with_task_and_mixed_segments() {
    let line = ParsedLine {
        indent: 0,
        is_bullet: false,
        task: Some(TaskState::Later),
        segments: vec![
            Segment::Plain("Review ".to_string()),
            Segment::PageLink("documentation".to_string()),
            Segment::Plain(" tomorrow".to_string()),
        ],
        ..Default::default()
    };
    assert_eq!(
        line_to_plain_text(&line),
        "LATER Review documentation tomorrow"
    );
}

#[test]
fn span_plain_line_is_single_raw_line() {
    let result = parse_file("Hello world");
    assert_eq!(result[0].src_start, 0);
    assert_eq!(result[0].src_end, 1);
}

#[test]
fn span_multiple_plain_lines_track_raw_index() {
    let result = parse_file("first\nsecond\nthird");
    assert_eq!(result.len(), 3);
    assert_eq!((result[0].src_start, result[0].src_end), (0, 1));
    assert_eq!((result[1].src_start, result[1].src_end), (1, 2));
    assert_eq!((result[2].src_start, result[2].src_end), (2, 3));
}

#[test]
fn span_nested_indented_lines() {
    let content = "- A\n  - A1\n    - A1a\n  - A2\n- B";
    let result = parse_file(content);
    assert_eq!(result.len(), 5);
    for (i, line) in result.iter().enumerate() {
        assert_eq!(line.src_start, i);
        assert_eq!(line.src_end, i + 1);
    }
}

#[test]
fn span_blank_line() {
    let result = parse_file("Line one\n\nLine three");
    assert_eq!((result[1].src_start, result[1].src_end), (1, 2));
}

#[test]
fn span_property_line() {
    let result = parse_file("intro\nkey:: value\nmore");
    assert_eq!((result[1].src_start, result[1].src_end), (1, 2));
}

#[test]
fn span_fenced_code_block_covers_all_raw_lines() {
    let content = "before\n```rust\nfn main() {\n  x();\n}\n```\nafter";
    let result = parse_file(content);
    assert_eq!(result.len(), 3); // before, code block, after
    assert_eq!((result[0].src_start, result[0].src_end), (0, 1));
    match &result[1].segments[0] {
        Segment::Code(code) => assert!(code.contains("fn main")),
        _ => panic!("expected Code segment"),
    }
    assert_eq!((result[1].src_start, result[1].src_end), (1, 6));
    assert_eq!((result[2].src_start, result[2].src_end), (6, 7));
}

#[test]
fn span_multiple_code_blocks_each_get_own_span() {
    let content = "```rust\nfn a() {}\n```\ngap\n```python\nprint(1)\nprint(2)\n```";
    let result = parse_file(content);
    assert_eq!(result.len(), 3);
    assert_eq!((result[0].src_start, result[0].src_end), (0, 3));
    assert_eq!((result[1].src_start, result[1].src_end), (3, 4));
    assert_eq!((result[2].src_start, result[2].src_end), (4, 8));
    match &result[2].segments[0] {
        Segment::Code(code) => assert!(code.contains("python")),
        _ => panic!("expected Code segment"),
    }
}

#[test]
fn span_unterminated_code_block_spans_to_eof() {
    let content = "```rust\nfn main() {\n  x();";
    let result = parse_file(content);
    assert_eq!(result.len(), 1);
    assert_eq!((result[0].src_start, result[0].src_end), (0, 3));
}

#[test]
fn splice_middle_block_replacement() {
    let original = "L0\nL1\nL2\nL3\nL4\n";
    let result = splice_raw_lines(original, 1, 3, "NEW\n");
    assert_eq!(result, "L0\nNEW\nL3\nL4\n");
}

#[test]
fn splice_first_block() {
    let original = "L0\nL1\nL2\n";
    let result = splice_raw_lines(original, 0, 1, "FIRST\n");
    assert_eq!(result, "FIRST\nL1\nL2\n");
}

#[test]
fn splice_last_block_at_eof() {
    let original = "L0\nL1\nL2\n";
    let result = splice_raw_lines(original, 1, 3, "TAIL\n");
    assert_eq!(result, "L0\nTAIL\n");
}

#[test]
fn splice_preserves_trailing_newline_present() {
    let original = "L0\nL1\nL2\n";
    let result = splice_raw_lines(original, 1, 2, "MID");
    assert!(result.ends_with('\n'));
    assert_eq!(result, "L0\nMID\nL2\n");
}

#[test]
fn splice_preserves_no_trailing_newline() {
    let original = "L0\nL1\nL2"; // no trailing newline
    let result = splice_raw_lines(original, 2, 3, "NEW");
    assert!(!result.ends_with('\n'));
    assert_eq!(result, "L0\nL1\nNEW");
}

#[test]
fn splice_no_trailing_newline_replacing_middle_still_no_trailing() {
    let original = "L0\nL1\nL2";
    let result = splice_raw_lines(original, 1, 2, "MID");
    assert_eq!(result, "L0\nMID\nL2");
}

#[test]
fn splice_crlf_line_endings_preserved() {
    let original = "L0\r\nL1\r\nL2\r\n";
    let result = splice_raw_lines(original, 1, 2, "NEW");
    assert_eq!(result, "L0\r\nNEW\r\nL2\r\n");
    assert!(!result.contains("\n\n")); // no corrupted/bare LF glue
}

#[test]
fn splice_crlf_no_trailing_newline_preserved() {
    let original = "L0\r\nL1\r\nL2";
    let result = splice_raw_lines(original, 0, 1, "NEW");
    assert_eq!(result, "NEW\r\nL1\r\nL2");
}

#[test]
fn splice_replacement_without_trailing_newline() {
    let original = "L0\nL1\nL2\n";
    let result = splice_raw_lines(original, 1, 2, "NEW");
    assert_eq!(result, "L0\nNEW\nL2\n");
}

#[test]
fn splice_replacement_with_trailing_newline() {
    let original = "L0\nL1\nL2\n";
    let result = splice_raw_lines(original, 1, 2, "NEW\n");
    assert_eq!(result, "L0\nNEW\nL2\n");
}

#[test]
fn splice_replacement_multiline() {
    let original = "L0\nL1\nL2\n";
    let result = splice_raw_lines(original, 1, 2, "A\nB\nC\n");
    assert_eq!(result, "L0\nA\nB\nC\nL2\n");
}

#[test]
fn splice_whole_file_single_block() {
    let original = "only line\n";
    let result = splice_raw_lines(original, 0, 1, "replaced\n");
    assert_eq!(result, "replaced\n");
}

#[test]
fn splice_out_of_range_indices_clamped_not_panicking() {
    let original = "L0\nL1\n";
    let result = splice_raw_lines(original, 5, 10, "NEW\n");
    assert_eq!(result, "L0\nL1\nNEW\n");
}


#[test]
fn splice_drops_blank_tail_when_original_has_no_final_newline() {
    assert_eq!(splice_raw_lines("L0", 0, 1, "A\n\n"), "A");
    assert_eq!(splice_raw_lines("a\n\nb", 2, 3, ""), "a");
    assert_eq!(splice_raw_lines("L0\n", 0, 1, "A\n\n"), "A\n\n");
    assert_eq!(splice_raw_lines("L0\r\nL1", 1, 2, "B\r\n\r\n"), "L0\r\nB");
}
