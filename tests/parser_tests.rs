use asciidoc::{
    AsciiDocParser, Block, DelimitedBlockKind, FormattedTextKind, InlineElement, ListItem,
    ListKind, MacroKind,
};
use asciidoc::block::parse_paragraph;
use asciidoc::html::escape_html;
use asciidoc::inline::parse_paragraph_content;
use asciidoc::parser::{extract_language_from_attributes, process_block_attributes};

fn text(s: &str) -> InlineElement {
    InlineElement::Text(s.to_string())
}

#[test]
fn test_simple_document() {
    let input = "= Test Document\n\nHello world!";
    let result = AsciiDocParser::parse_document(input);
    match &result {
        Ok(_) => {}
        Err(e) => println!("Parse error: {:?}", e),
    }
    assert!(result.is_ok());

    let doc = result.unwrap();
    assert!(doc.header.is_some());
    assert_eq!(doc.header.unwrap().title, "Test Document");
    assert_eq!(doc.body.len(), 1);
}

#[test]
fn test_header_with_attributes() {
    let input = "= My Document\n:author: John Doe\n:version: 1.0\n\nContent here.";

    let result = AsciiDocParser::parse_document(input);
    assert!(result.is_ok());

    let doc = result.unwrap();
    let header = doc.header.unwrap();
    assert_eq!(header.title, "My Document");
    assert_eq!(header.attributes.len(), 2);
    assert_eq!(header.attributes[0].name, "author");
    assert_eq!(header.attributes[0].value, Some("John Doe".to_string()));
}

#[test]
fn test_sections() {
    let input = "= Document\n\n== Section 1\n\n=== Subsection\n\nContent";

    let result = AsciiDocParser::parse_document(input);
    match &result {
        Ok(_) => {}
        Err(e) => println!("Parse error: {:?}", e),
    }
    assert!(result.is_ok());

    let doc = result.unwrap();
    println!("Body has {} blocks: {:#?}", doc.body.len(), doc.body);
    // Sections are not nested: the subsection and the paragraph are siblings.
    assert_eq!(doc.body.len(), 3);

    if let Block::Section { level, title, .. } = &doc.body[0] {
        assert_eq!(*level, 2);
        assert_eq!(title, "Section 1");
    } else {
        panic!("Expected section block");
    }
}

#[test]
fn test_delimited_block() {
    let input = "= Document\n\n----\nCode block content\nline 2\n----";

    let result = AsciiDocParser::parse_document(input);
    assert!(result.is_ok());

    let doc = result.unwrap();
    assert_eq!(doc.body.len(), 1);

    if let Block::DelimitedBlock { kind, content, .. } = &doc.body[0] {
        assert!(matches!(kind, DelimitedBlockKind::Listing));
        assert!(content.contains("Code block content"));
    } else {
        panic!("Expected delimited block");
    }
}

#[test]
fn test_unordered_list() {
    let input = "= Document\n\n* Item 1\n* Item 2\n** Nested item";

    let result = AsciiDocParser::parse_document(input);
    assert!(result.is_ok());

    let doc = result.unwrap();
    assert_eq!(doc.body.len(), 1);

    if let Block::List { kind, items } = &doc.body[0] {
        assert!(matches!(kind, ListKind::Unordered));
        assert_eq!(items.len(), 3);
    } else {
        panic!("Expected list block");
    }
}

#[test]
fn test_formatted_text() {
    let input = "= Document\n\nThis is *bold* and _italic_ text.";

    let result = AsciiDocParser::parse_document(input);
    assert!(result.is_ok());

    let doc = result.unwrap();
    assert_eq!(doc.body.len(), 1);

    if let Block::Paragraph { content } = &doc.body[0] {
        assert!(!content.is_empty());
    } else {
        panic!("Expected paragraph block");
    }
}

#[test]
fn test_link_macro() {
    let input = "= Document\n\nVisit link:https://example.com[Example Site] for more info.";

    let result = AsciiDocParser::parse_document(input);
    assert!(result.is_ok());

    let doc = result.unwrap();
    assert_eq!(doc.body.len(), 1);
}

#[test]
fn test_description_list() {
    let input = "= Document\n\nTerm 1:: Definition 1\nTerm 2:: Definition 2";

    let result = AsciiDocParser::parse_document(input);
    assert!(result.is_ok());

    let doc = result.unwrap();
    assert_eq!(doc.body.len(), 1);

    if let Block::List { kind, items } = &doc.body[0] {
        assert!(matches!(kind, ListKind::Description));
        assert_eq!(items.len(), 2);
    } else {
        panic!("Expected description list");
    }
}

#[test]
fn scenario_simple_document_html() {
    let doc = AsciiDocParser::parse_document("= Test Document\n\nHello world!").unwrap();
    assert_eq!(doc.header.as_ref().unwrap().title, "Test Document");
    assert_eq!(doc.body, vec![Block::Paragraph { content: vec![text("Hello world!")] }]);
    assert!(doc.to_html().contains("<h1>Test Document</h1>\n<p>Hello world!</p>\n"));
    assert_eq!(doc.to_html(), "<h1>Test Document</h1>\n<p>Hello world!</p>\n");
}

#[test]
fn scenario_header_attributes() {
    let input = "= My Document\n:author: John Doe\n:version: 1.0\n\nContent here.";
    let doc = AsciiDocParser::parse_document(input).unwrap();
    let header = doc.header.unwrap();
    assert_eq!(header.attributes.len(), 2);
    assert_eq!(header.attributes[0].name, "author");
    assert_eq!(header.attributes[0].value, Some("John Doe".to_string()));
    assert_eq!(header.attributes[1].name, "version");
    assert_eq!(header.attributes[1].value, Some("1.0".to_string()));
    assert_eq!(doc.body.len(), 1);
    assert!(matches!(doc.body[0], Block::Paragraph { .. }));
}

#[test]
fn scenario_sections_are_siblings() {
    let doc = AsciiDocParser::parse_document("= Doc\n\n== Section 1\n\n=== Subsection\n\nContent")
        .unwrap();
    assert_eq!(
        doc.body,
        vec![
            Block::Section { level: 2, title: "Section 1".to_string(), blocks: vec![] },
            Block::Section { level: 3, title: "Subsection".to_string(), blocks: vec![] },
            Block::Paragraph { content: vec![text("Content")] },
        ]
    );
}

#[test]
fn scenario_listing_block() {
    let doc =
        AsciiDocParser::parse_document("= Doc\n\n----\nCode block content\nline 2\n----").unwrap();
    assert_eq!(
        doc.body,
        vec![Block::DelimitedBlock {
            kind: DelimitedBlockKind::Listing,
            content: "Code block content\nline 2".to_string(),
            language: None,
        }]
    );
    assert_eq!(
        doc.body[0].to_html(),
        "<pre><code>Code block content\nline 2</code></pre>\n"
    );
}

#[test]
fn scenario_source_language() {
    let doc =
        AsciiDocParser::parse_document("= Doc\n\n[source,rust]\n----\nfn main() {}\n----").unwrap();
    assert_eq!(
        doc.body,
        vec![Block::DelimitedBlock {
            kind: DelimitedBlockKind::Listing,
            content: "fn main() {}".to_string(),
            language: Some("source".to_string()),
        }]
    );
    assert_eq!(
        doc.body[0].to_html(),
        "<pre><code class=\"language-source\">fn main() {}</code></pre>\n"
    );
}

#[test]
fn scenario_bold_and_italic() {
    let doc = AsciiDocParser::parse_document("= Doc\n\nThis is *bold* and _italic_ text.").unwrap();
    assert_eq!(
        doc.body,
        vec![Block::Paragraph {
            content: vec![
                text("This is "),
                InlineElement::Formatted {
                    kind: FormattedTextKind::Strong,
                    content: vec![text("bold")],
                },
                text(" and "),
                InlineElement::Formatted {
                    kind: FormattedTextKind::Emphasis,
                    content: vec![text("italic")],
                },
                text(" text."),
            ],
        }]
    );
}

#[test]
fn attribute_paragraph_before_other_block_stays() {
    let doc = AsciiDocParser::parse_document("[x,y]\n\nplain text").unwrap();
    assert_eq!(
        doc.body,
        vec![
            Block::Paragraph { content: vec![text("[x,y]")] },
            Block::Paragraph { content: vec![text("plain text")] },
        ]
    );
}

#[test]
fn link_with_empty_text_shows_url() {
    let doc = AsciiDocParser::parse_document("see link:http://a.b/c[] now").unwrap();
    assert_eq!(doc.to_html(), "<p>see <a href=\"http://a.b/c\">http://a.b/c</a> now</p>\n");
}

#[test]
fn unterminated_strong_is_literal() {
    let doc = AsciiDocParser::parse_document("a *b").unwrap();
    assert_eq!(doc.body, vec![Block::Paragraph { content: vec![text("a "), text("*"), text("b")] }]);
    assert_eq!(doc.to_html(), "<p>a *b</p>\n");
}

#[test]
fn section_level_seven_renders_as_h6() {
    let b = Block::Section { level: 7, title: "Deep".to_string(), blocks: vec![] };
    assert_eq!(b.to_html(), "<h6>Deep</h6>\n");
    let b = Block::Section { level: 2, title: "A&B".to_string(), blocks: vec![] };
    assert_eq!(b.to_html(), "<h2>A&amp;B</h2>\n");
}

#[test]
fn unterminated_delimited_block_is_an_error() {
    let result = AsciiDocParser::parse_document("= Doc\n\ntext\n\n....\nno end");
    let e = result.unwrap_err();
    assert_eq!(e.line, 5);
    assert_eq!(e.column, 1);
}

#[test]
fn empty_input_is_an_empty_document() {
    let doc = AsciiDocParser::parse_document("").unwrap();
    assert!(doc.header.is_none());
    assert!(doc.body.is_empty());
    assert_eq!(doc.to_html(), "");
}

#[test]
fn paragraph_lines_are_joined_with_a_space() {
    let doc = AsciiDocParser::parse_document("one\ntwo `x`").unwrap();
    assert_eq!(
        doc.body,
        vec![Block::Paragraph {
            content: vec![
                text("one"),
                text(" "),
                text("two "),
                InlineElement::Formatted {
                    kind: FormattedTextKind::Monospace,
                    content: vec![text("x")],
                },
            ],
        }]
    );
}

#[test]
fn lists_and_metadata() {
    let input = ".A title\n[[anchor-1]]\n. first\n.. second\nword:: \n";
    let doc = AsciiDocParser::parse_document(input).unwrap();
    assert_eq!(doc.body.len(), 4);
    assert!(matches!(&doc.body[0], Block::BlockMetadata { .. }));
    assert!(matches!(&doc.body[1], Block::BlockMetadata { .. }));
    assert_eq!(
        doc.body[2],
        Block::List {
            kind: ListKind::Ordered,
            items: vec![
                ListItem::Ordered { level: 1, content: vec![text("first")] },
                ListItem::Ordered { level: 2, content: vec![text("second")] },
            ],
        }
    );
    assert_eq!(
        doc.body[3],
        Block::List {
            kind: ListKind::Description,
            items: vec![ListItem::Description { term: "word".to_string(), description: None }],
        }
    );
    assert_eq!(doc.to_html(), "<ol>\n<li>first</li>\n<li>second</li>\n</ol>\n<dl>\n<dt>word</dt>\n</dl>\n");
}

#[test]
fn macros_and_autolinks() {
    let doc = AsciiDocParser::parse_document(
        "Go to https://x.org. Or <<sec-a, Section A>> or <<b>> or https://y.io[Y]",
    )
    .unwrap();
    let expected = vec![
        text("Go to "),
        InlineElement::Macro {
            kind: MacroKind::Link {
                url: "https://x.org".to_string(),
                text: Some("https://x.org".to_string()),
            },
        },
        text(". Or "),
        InlineElement::Macro {
            kind: MacroKind::CrossReference {
                target: "sec-a".to_string(),
                text: Some("Section A".to_string()),
            },
        },
        text(" or "),
        InlineElement::Macro {
            kind: MacroKind::CrossReference { target: "b".to_string(), text: None },
        },
        text(" or "),
        InlineElement::Macro {
            kind: MacroKind::Link { url: "https://y.io".to_string(), text: Some("Y".to_string()) },
        },
    ];
    assert_eq!(doc.body, vec![Block::Paragraph { content: expected }]);
    assert_eq!(
        doc.to_html(),
        "<p>Go to <a href=\"https://x.org\">https://x.org</a>. Or <a href=\"#sec-a\">Section A</a> \
         or <a href=\"#b\">b</a> or <a href=\"https://y.io\">Y</a></p>\n"
    );
}

#[test]
fn escaping_and_other_delimiters() {
    let input = "====\n<a & 'b'>\n====\n\n____\n\"q\"\n____\n\n****\nside\n****\n\n....\nlit\n....";
    let doc = AsciiDocParser::parse_document(input).unwrap();
    assert_eq!(
        doc.to_html(),
        "<div class=\"example\">&lt;a &amp; &#39;b&#39;&gt;</div>\n\
         <blockquote>&quot;q&quot;</blockquote>\n\
         <aside>side</aside>\n\
         <pre>lit</pre>\n"
    );
}

#[test]
fn escaping_twice_differs() {
    assert_eq!(escape_html("a<b"), "a&lt;b");
    assert_eq!(escape_html(&escape_html("a<b")), "a&amp;lt;b");
    assert_eq!(escape_html("plain"), "plain");
    assert_eq!(escape_html(&escape_html("plain")), "plain");
}

#[test]
fn inline_scanner_on_its_own() {
    assert_eq!(
        parse_paragraph_content("x^2^ and H~2~O"),
        vec![
            text("x"),
            InlineElement::Formatted { kind: FormattedTextKind::Superscript, content: vec![text("2")] },
            text(" and H"),
            InlineElement::Formatted { kind: FormattedTextKind::Subscript, content: vec![text("2")] },
            text("O"),
        ]
    );
    assert_eq!(parse_paragraph_content("link:nowhere"), vec![text("link:"), text("nowhere")]);
    assert_eq!(parse_paragraph_content("a << b"), vec![text("a "), text("<<"), text(" b")]);
    assert!(parse_paragraph_content("").is_empty());
}

#[test]
fn language_from_attributes() {
    let attrs = Some(vec!["source".to_string(), "rust".to_string()]);
    assert_eq!(extract_language_from_attributes(&attrs), Some("source".to_string()));
    let attrs = Some(vec!["".to_string(), "rust".to_string()]);
    assert_eq!(extract_language_from_attributes(&attrs), Some("rust".to_string()));
    let attrs = Some(vec!["role=x".to_string(), " ,py ".to_string()]);
    assert_eq!(extract_language_from_attributes(&attrs), Some("py".to_string()));
    assert_eq!(extract_language_from_attributes(&None), None);
}

#[test]
fn reconciliation_on_a_block_list() {
    let mut blocks = vec![
        Block::Paragraph { content: vec![text("[,python]")] },
        Block::DelimitedBlock {
            kind: DelimitedBlockKind::Listing,
            content: "x".to_string(),
            language: None,
        },
        Block::Paragraph { content: vec![text("[a=b]")] },
        Block::DelimitedBlock {
            kind: DelimitedBlockKind::Literal,
            content: "y".to_string(),
            language: Some("old".to_string()),
        },
    ];
    process_block_attributes(&mut blocks);
    assert_eq!(
        blocks,
        vec![
            Block::DelimitedBlock {
                kind: DelimitedBlockKind::Listing,
                content: "x".to_string(),
                language: Some("python".to_string()),
            },
            Block::DelimitedBlock {
                kind: DelimitedBlockKind::Literal,
                content: "y".to_string(),
                language: None,
            },
        ]
    );
    let before = format!("{:?}", blocks);
    process_block_attributes(&mut blocks);
    assert_eq!(format!("{:?}", blocks), before);
}

#[test]
fn reconciliation_second_pass_with_stacked_attribute_lines() {
    let mut blocks = vec![
        Block::Paragraph { content: vec![text("[outer]")] },
        Block::Paragraph { content: vec![text("[inner]")] },
        Block::DelimitedBlock {
            kind: DelimitedBlockKind::Listing,
            content: "z".to_string(),
            language: None,
        },
    ];
    process_block_attributes(&mut blocks);
    assert_eq!(
        blocks,
        vec![
            Block::Paragraph { content: vec![text("[outer]")] },
            Block::DelimitedBlock {
                kind: DelimitedBlockKind::Listing,
                content: "z".to_string(),
                language: Some("inner".to_string()),
            },
        ]
    );
    process_block_attributes(&mut blocks);
    assert_eq!(
        blocks,
        vec![Block::DelimitedBlock {
            kind: DelimitedBlockKind::Listing,
            content: "z".to_string(),
            language: Some("outer".to_string()),
        }]
    );
}

#[test]
fn image_and_line_break_rendering() {
    let p = Block::Paragraph {
        content: vec![
            InlineElement::Macro {
                kind: MacroKind::Image { path: "a.png".to_string(), attributes: None },
            },
            InlineElement::LineBreak,
            InlineElement::Macro {
                kind: MacroKind::Image {
                    path: "b.png".to_string(),
                    attributes: Some("A \"b\"".to_string()),
                },
            },
        ],
    };
    assert_eq!(
        p.to_html(),
        "<p><img src=\"a.png\" alt=\"Image\"><br>\n<img src=\"b.png\" alt=\"A &quot;b&quot;\"></p>\n"
    );
}

#[test]
fn delimiter_line_inside_other_block_is_content() {
    let doc = AsciiDocParser::parse_document("----\n====\n-----\n----").unwrap();
    assert_eq!(
        doc.body,
        vec![Block::DelimitedBlock {
            kind: DelimitedBlockKind::Listing,
            content: "====\n-----".to_string(),
            language: None,
        }]
    );
}

#[test]
fn empty_delimited_block_and_blank_header_value() {
    let doc = AsciiDocParser::parse_document("\n\n= T\n:draft:\n....\n....").unwrap();
    let header = doc.header.unwrap();
    assert_eq!(header.title, "T");
    assert_eq!(header.attributes[0].name, "draft");
    assert_eq!(header.attributes[0].value, None);
    assert_eq!(
        doc.body,
        vec![Block::DelimitedBlock {
            kind: DelimitedBlockKind::Literal,
            content: String::new(),
            language: None,
        }]
    );
}

#[test]
fn description_without_space_after_marker() {
    let doc = AsciiDocParser::parse_document("Term::Definition\nOther::\nstd::vec is a module").unwrap();
    assert_eq!(
        doc.body,
        vec![Block::List {
            kind: ListKind::Description,
            items: vec![
                ListItem::Description {
                    term: "Term".to_string(),
                    description: Some(vec![text("Definition")]),
                },
                ListItem::Description { term: "Other".to_string(), description: None },
                ListItem::Description {
                    term: "std".to_string(),
                    description: Some(vec![text("vec is a module")]),
                },
            ],
        }]
    );
}

#[test]
fn cloned_document_is_equal() {
    let doc = AsciiDocParser::parse_document(
        "= T\n\n== S\n\n*b* link:u[x]\n\n* one\n\nt:: d\n\n[[a]]\n\n....\nz\n....",
    )
    .unwrap();
    let copy = doc.clone();
    assert_eq!(copy, doc);
    assert_eq!(copy.to_html(), doc.to_html());
}

#[test]
fn paragraph_from_lines() {
    let ls: Vec<Vec<char>> = vec!["a *b*".chars().collect(), "c".chars().collect(), "".chars().collect()];
    let (b, next) = parse_paragraph(&ls, 0);
    assert_eq!(next, 2);
    assert_eq!(
        b,
        Block::Paragraph {
            content: vec![
                text("a "),
                InlineElement::Formatted { kind: FormattedTextKind::Strong, content: vec![text("b")] },
                text(" "),
                text("c"),
            ],
        }
    );
}
