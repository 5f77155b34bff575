use mdbook_directives::block::{parse_blocks, parse_code_blocks, Block};
use mdbook_directives::token::{BlockKind, Span, Token};

fn sp(start: usize, end: usize) -> Span {
    Span { start, end }
}

fn toml_fence() -> BlockKind {
    BlockKind::FencedCode { tags: vec![b"toml".to_vec()] }
}

#[test]
fn test_parse_blocks() {
    let content = "```toml\nkey1 = \"value1\"\nkey2 = \"value2\"\n```";
    let expected: Vec<Block> = vec![Block {
        closed: true,
        events: vec![
            (Token::CodeBlockStart(b"toml".to_vec()), sp(0, 43)),
            (
                Token::Text(b"key1 = \"value1\"\nkey2 = \"value2\"\n".to_vec()),
                sp(8, 40),
            ),
            (Token::CodeBlockEnd, sp(0, 43)),
        ],
        span: sp(0, 43),
        inner_span: sp(8, 40),
        has_nested: false,
    }];

    let actual = parse_blocks(content.as_bytes(), &toml_fence(), false).unwrap();

    assert_eq!(expected, actual);
}

#[test]
fn test_parse_blocks_surrounded() {
    let content = "Some text before the code block.\n\n```toml\nkey1 = \"value1\"\nkey2 = \"value2\"\n```\n\nSome text after the code block.";
    let expected: Vec<Block> = vec![Block {
        closed: true,
        events: vec![
            (Token::CodeBlockStart(b"toml".to_vec()), sp(34, 77)),
            (
                Token::Text(b"key1 = \"value1\"\nkey2 = \"value2\"\n".to_vec()),
                sp(42, 74),
            ),
            (Token::CodeBlockEnd, sp(34, 77)),
        ],
        span: sp(34, 77),
        inner_span: sp(42, 74),
        has_nested: false,
    }];

    let actual = parse_blocks(content.as_bytes(), &toml_fence(), false).unwrap();

    assert_eq!(expected, actual);
}

#[test]
fn test_parse_blocks_multiple() {
    let content = "First TOML block:\n```toml\nkey1 = \"value1\"\nkey2 = \"value2\"\n```\nFirst non-TOML block:\n```shell\necho test\n```\nSecond TOML block:\n```toml\nkey3 = \"value3\"\nkey4 = \"value4\"\n```";
    let expected: Vec<Block> = vec![
        Block {
            closed: true,
            events: vec![
                (Token::CodeBlockStart(b"toml".to_vec()), sp(18, 61)),
                (
                    Token::Text(b"key1 = \"value1\"\nkey2 = \"value2\"\n".to_vec()),
                    sp(26, 58),
                ),
                (Token::CodeBlockEnd, sp(18, 61)),
            ],
            span: sp(18, 61),
            inner_span: sp(26, 58),
            has_nested: false,
        },
        Block {
            closed: true,
            events: vec![
                (Token::CodeBlockStart(b"toml".to_vec()), sp(126, 169)),
                (
                    Token::Text(b"key3 = \"value3\"\nkey4 = \"value4\"\n".to_vec()),
                    sp(134, 166),
                ),
                (Token::CodeBlockEnd, sp(126, 169)),
            ],
            span: sp(126, 169),
            inner_span: sp(134, 166),
            has_nested: false,
        },
    ];

    let actual = parse_blocks(content.as_bytes(), &toml_fence(), false).unwrap();

    assert_eq!(expected, actual);
}

#[test]
fn test_parse_blocks_text() {
    let content = "{{#tab }}\nSome content.\n{{#endtab }}\n{{#tab }}\n\n```rust\nlet a = 1 + 2;\n```\n\n{{#endtab }}\n";
    let expected: Vec<Block> = vec![
        Block {
            closed: true,
            events: vec![
                (Token::Text(b"{{#tab }}".to_vec()), sp(0, 9)),
                (Token::SoftBreak, sp(9, 10)),
                (Token::Text(b"Some content.".to_vec()), sp(10, 23)),
                (Token::SoftBreak, sp(23, 24)),
                (Token::Text(b"{{#endtab }}".to_vec()), sp(24, 36)),
            ],
            span: sp(0, 36),
            inner_span: sp(9, 24),
            has_nested: false,
        },
        Block {
            closed: true,
            events: vec![
                (Token::Text(b"{{#tab }}".to_vec()), sp(37, 46)),
                (Token::CodeBlockStart(b"rust".to_vec()), sp(48, 74)),
                (Token::Text(b"let a = 1 + 2;\n".to_vec()), sp(56, 71)),
                (Token::CodeBlockEnd, sp(48, 74)),
                (Token::Text(b"{{#endtab }}".to_vec()), sp(76, 88)),
            ],
            span: sp(37, 88),
            inner_span: sp(48, 74),
            has_nested: false,
        },
    ];

    let kind = BlockKind::TextMarker {
        open: b"{{#tab ".to_vec(),
        close: b"{{#endtab ".to_vec(),
    };
    let actual = parse_blocks(content.as_bytes(), &kind, false).unwrap();

    assert_eq!(expected, actual);
}

#[test]
fn test_parse_blocks_nested_error() {
    let content = "*a **sentence** with **some** words*";

    let actual = parse_blocks(content.as_bytes(), &BlockKind::EmphasisOrStrong, false);

    assert_eq!(
        "Block is not closed. Nested blocks are not allowed.",
        actual.unwrap_err().message()
    );
}

#[test]
fn test_parse_blocks_nested() {
    let content = "{{#tabs }}\nLevel 1\n{{#tabs }}\nLevel 2\n{{#tabs }}\nLevel 3\n{{#endtabs }}\n{{#endtabs }}\n{{#endtabs }}\n";

    let expected: Vec<Block> = vec![Block {
        closed: true,
        events: vec![
            (Token::Text(b"{{#tabs }}".to_vec()), sp(0, 10)),
            (Token::SoftBreak, sp(10, 11)),
            (Token::Text(b"Level 1".to_vec()), sp(11, 18)),
            (Token::SoftBreak, sp(18, 19)),
            (Token::Text(b"{{#tabs }}".to_vec()), sp(19, 29)),
            (Token::SoftBreak, sp(29, 30)),
            (Token::Text(b"Level 2".to_vec()), sp(30, 37)),
            (Token::SoftBreak, sp(37, 38)),
            (Token::Text(b"{{#tabs }}".to_vec()), sp(38, 48)),
            (Token::SoftBreak, sp(48, 49)),
            (Token::Text(b"Level 3".to_vec()), sp(49, 56)),
            (Token::SoftBreak, sp(56, 57)),
            (Token::Text(b"{{#endtabs }}".to_vec()), sp(57, 70)),
            (Token::SoftBreak, sp(70, 71)),
            (Token::Text(b"{{#endtabs }}".to_vec()), sp(71, 84)),
            (Token::SoftBreak, sp(84, 85)),
            (Token::Text(b"{{#endtabs }}".to_vec()), sp(85, 98)),
        ],
        span: sp(0, 98),
        inner_span: sp(10, 85),
        has_nested: true,
    }];

    let kind = BlockKind::TextMarker {
        open: b"{{#tabs ".to_vec(),
        close: b"{{#endtabs ".to_vec(),
    };
    let actual = parse_blocks(content.as_bytes(), &kind, true).unwrap();

    assert_eq!(expected, actual);
}

#[test]
fn single_block_inner_is_exact_substring() {
    let content = "Before.\n\n```toml\nkey = \"v\"\n```\n\nAfter.";
    let blocks = parse_blocks(content.as_bytes(), &toml_fence(), false).unwrap();

    assert_eq!(1, blocks.len());
    let b = &blocks[0];
    assert!(b.closed);
    assert!(!b.has_nested);
    let inner = &content.as_bytes()[b.inner_span.start..b.inner_span.end];
    assert_eq!(b"key = \"v\"\n".to_vec(), inner.to_vec());
    let whole = &content.as_bytes()[b.span.start..b.span.end];
    assert_eq!(b"```toml\nkey = \"v\"\n```".to_vec(), whole.to_vec());
}

#[test]
fn unclosed_block_is_returned_open_with_empty_inner() {
    let content = "{{#tabs }}\nsome trailing text\n";
    let kind = BlockKind::TextMarker {
        open: b"{{#tabs ".to_vec(),
        close: b"{{#endtabs ".to_vec(),
    };
    let blocks = parse_blocks(content.as_bytes(), &kind, true).unwrap();

    assert_eq!(1, blocks.len());
    assert!(!blocks[0].closed);
    assert_eq!(sp(0, 0), blocks[0].inner_span);
    assert_eq!(sp(0, 10), blocks[0].span);
}

#[test]
fn empty_block_has_empty_inner_span() {
    // A fence opened and closed with nothing inside: only the two delimiter
    // events remain, so there is no inner content.
    let content = "```toml\n```";
    let blocks = parse_blocks(content.as_bytes(), &toml_fence(), false).unwrap();

    assert_eq!(1, blocks.len());
    assert!(blocks[0].closed);
    assert_eq!(sp(0, 0), blocks[0].inner_span);
}

#[test]
fn start_wins_when_both_predicates_match() {
    // With identical open and close markers, the first marker opens a block
    // (the start interpretation wins) and the second one closes it.
    let content = "{{#mark }}\nmiddle\n{{#mark }}\n";
    let kind = BlockKind::TextMarker {
        open: b"{{#mark ".to_vec(),
        close: b"{{#mark ".to_vec(),
    };
    let err = parse_blocks(content.as_bytes(), &kind, false).unwrap_err();
    assert_eq!(
        "Block is not closed. Nested blocks are not allowed.",
        err.message()
    );
}

#[test]
fn block_new_seeds_an_open_block() {
    let b = Block::new(Token::Text(b"{{#tabs}}".to_vec()), sp(3, 12));
    assert!(!b.closed);
    assert_eq!(sp(3, 12), b.span);
    assert_eq!(sp(0, 0), b.inner_span);
    assert!(!b.has_nested);
    assert_eq!(1, b.events.len());
}

#[test]
fn parse_code_blocks_matches_tag_list_prefix() {
    let content = "```toml,trunk,extra\na = 1\n```\n";
    let blocks = parse_code_blocks(
        content.as_bytes(),
        vec![b"toml".to_vec(), b"trunk".to_vec()],
    )
    .unwrap();
    assert_eq!(1, blocks.len());
    assert!(blocks[0].closed);
    let inner = &content.as_bytes()[blocks[0].inner_span.start..blocks[0].inner_span.end];
    assert_eq!(b"a = 1\n".to_vec(), inner.to_vec());

    let none = parse_code_blocks(content.as_bytes(), vec![b"rust".to_vec()]).unwrap();
    assert!(none.is_empty());
}
