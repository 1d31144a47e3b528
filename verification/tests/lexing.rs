use tomlplus_syntax::lexer::{split_section_path, tokenize, unquote_key, LineKind, LineToken};
use tomlplus_syntax::span::{LineIndex, Span};

fn kinds(toks: &[LineToken]) -> Vec<LineKind> {
    toks.iter().map(|t| t.kind).collect()
}

#[test]
fn lexer_simple_kv() {
    let toks = tokenize("port = 8080");
    assert_eq!(kinds(&toks), vec![LineKind::Kv]);
    assert_eq!(toks[0].key, "port");
    assert_eq!(toks[0].value, "8080");
}

#[test]
fn section() {
    let toks = tokenize("[server]\nport = 8080");
    assert_eq!(kinds(&toks), vec![LineKind::Section, LineKind::Kv]);
    assert_eq!(toks[0].section, "server");
}

#[test]
fn lexer_dotted_section() {
    let toks = tokenize("[a.b.c]");
    assert_eq!(toks[0].section, "a.b.c");
    assert_eq!(split_section_path(&toks[0].section), vec!["a", "b", "c"]);
}

#[test]
fn quoted_key() {
    let toks = tokenize("\"my key\" = 1");
    assert_eq!(toks[0].kind, LineKind::Kv);
    assert_eq!(toks[0].key, "my key");
}

#[test]
fn annotation_then_kv() {
    let toks = tokenize("@type: int\nport = 80");
    assert_eq!(kinds(&toks), vec![LineKind::Annotation, LineKind::Kv]);
    assert_eq!(toks[0].annotation_text, "@type: int");
}

#[test]
fn block_open_close() {
    let toks = tokenize("headers = #{\n  ct = \"json\"\n}#");
    assert_eq!(
        kinds(&toks),
        vec![LineKind::BlockOpen, LineKind::Kv, LineKind::BlockClose]
    );
}

#[test]
fn multiline_array_joined() {
    let toks = tokenize("tags = [\n  \"a\",\n  \"b\",\n]");
    assert_eq!(kinds(&toks), vec![LineKind::Kv]);
    assert!(toks[0].value.contains('"'));
    assert!(toks[0].value.contains(']'));
}

#[test]
fn comment_after_block_close() {
    let toks = tokenize("opts = #{ a = 1 }# # tail");
    assert_eq!(toks[0].kind, LineKind::Kv);
    assert!(!toks[0].content.contains("tail"));
}

#[test]
fn split_path_quoted() {
    assert_eq!(split_section_path("\"a.b\".c"), vec!["a.b", "c"]);
}

#[test]
fn line_index_basic() {
    let idx = LineIndex::new("abc\ndef\n\nghi");
    assert_eq!(idx.position(0), (0, 0));
    assert_eq!(idx.position(3), (0, 3));
    assert_eq!(idx.position(4), (1, 0));
    assert_eq!(idx.position(8), (2, 0));
    assert_eq!(idx.position(9), (3, 0));
}

#[test]
fn span_merge() {
    let a = Span::new(2, 5);
    let b = Span::new(8, 10);
    assert_eq!(a.merge(b), Span::new(2, 10));
}

// ── Further cases ───────────────────────────────────────────────────────────

#[test]
fn kv_spans_are_byte_offsets() {
    let src = "  port = 8080 # the port";
    let toks = tokenize(src);
    assert_eq!(toks[0].kind, LineKind::Kv);
    assert_eq!(&src[toks[0].key_span.start..toks[0].key_span.end], "port");
    assert_eq!(&src[toks[0].value_span.start..toks[0].value_span.end], "8080");
    assert_eq!(toks[0].content, "port = 8080");
}

#[test]
fn crlf_lines_and_line_numbers() {
    let toks = tokenize("a = 1\r\n\r\nb = 2");
    assert_eq!(kinds(&toks), vec![LineKind::Kv, LineKind::Blank, LineKind::Kv]);
    assert_eq!(toks[0].value, "1");
    assert_eq!(toks[2].lineno, 3);
    assert_eq!(toks[2].span.start, 9);
}

#[test]
fn vars_header_and_comment_only_line() {
    let toks = tokenize("[vars]\n# only a comment\nx = \"#not a comment\"");
    assert_eq!(kinds(&toks), vec![LineKind::Vars, LineKind::Blank, LineKind::Kv]);
    assert_eq!(toks[2].value, "\"#not a comment\"");
}

#[test]
fn multiline_value_joined_with_spaces() {
    let toks = tokenize("x = [1,\n  2, # two\n  3]\ny = 4");
    assert_eq!(kinds(&toks), vec![LineKind::Kv, LineKind::Kv]);
    assert_eq!(toks[0].value, "[1, 2, 3]");
    assert_eq!(toks[0].raw, "x = [1,\n  2, # two\n  3]");
    assert_eq!(toks[1].lineno, 4);
}

#[test]
fn section_with_brackets_inside_is_not_a_section() {
    let toks = tokenize("[a[b]]");
    assert_eq!(toks[0].kind, LineKind::Blank);
}

#[test]
fn unquote_key_unescapes() {
    assert_eq!(unquote_key("\"a\\\"b\""), "a\"b");
    assert_eq!(unquote_key("\"a\\\\b\""), "a\\b");
    assert_eq!(unquote_key("plain"), "plain");
    assert_eq!(unquote_key("\""), "\"");
}

#[test]
fn empty_source_has_no_tokens() {
    assert!(tokenize("").is_empty());
    assert_eq!(tokenize("\n").len(), 1);
}

#[test]
fn line_index_line_start_and_count() {
    let idx = LineIndex::new("ab\ncd\n");
    assert_eq!(idx.line_count(), 3);
    assert_eq!(idx.line_start(1), 3);
    assert_eq!(idx.line_start(7), 6);
    assert_eq!(idx.position(100), (2, 0));
}

#[test]
fn span_basics() {
    let s = Span::new(3, 7);
    assert_eq!(s.len(), 4);
    assert!(s.contains(3));
    assert!(!s.contains(7));
    assert!(Span::point(5).is_empty());
    assert_eq!(Span::dummy(), Span::new(0, 0));
}

#[test]
fn section_span_covers_the_trimmed_name() {
    let src = "[ a ]";
    let toks = tokenize(src);
    assert_eq!(toks[0].kind, LineKind::Section);
    assert_eq!(toks[0].section, "a");
    assert_eq!(toks[0].section_span, Span::new(2, 3));
    let src2 = "x = 1\n  [  server.db  ]  # main";
    let toks2 = tokenize(src2);
    let t = &toks2[1];
    assert_eq!(&src2[t.section_span.start..t.section_span.end], t.section);
}

#[test]
fn value_span_covers_the_value_text() {
    let src = "x = 1 # c";
    let toks = tokenize(src);
    assert_eq!(toks.len(), 1);
    assert_eq!(toks[0].kind, LineKind::Kv);
    assert_eq!(toks[0].key_span, Span::new(0, 1));
    assert_eq!(toks[0].value, "1");
    assert_eq!(toks[0].value_span, Span::new(4, 5));
    let src2 = "a = [1,\n  2]  # c";
    let toks2 = tokenize(src2);
    assert_eq!(toks2[0].value_span, Span::new(4, 12));
    assert_eq!(&src2[4..12], "[1,\n  2]");
    assert_eq!(toks2[0].span, Span::new(0, src2.len()));
}

#[test]
fn line_count_is_one_more_than_newlines() {
    let text = "a\nbé\n\nc";
    let idx = LineIndex::new(text);
    assert_eq!(idx.line_count(), 1 + text.bytes().filter(|b| *b == b'\n').count());
    assert_eq!(idx.line_start(0), 0);
    for i in 1..idx.line_count() {
        assert!(idx.line_start(i - 1) < idx.line_start(i));
        assert_eq!(text.as_bytes()[idx.line_start(i) - 1], b'\n');
    }
    assert_eq!(idx.line_start(idx.line_count()), text.len());
    assert_eq!(idx.position(100), idx.position(text.len()));
    assert_eq!(idx.position(6), (2, 0));
    assert_eq!(idx.position(5), (1, 3));
}

#[test]
fn section_paths_split_joined_parts() {
    let parts = vec!["server".to_string(), "db-main".to_string(), "x_1".to_string()];
    assert_eq!(split_section_path(&parts.join(".")), parts);
    assert_eq!(split_section_path(""), vec!["".to_string()]);
    assert_eq!(split_section_path("a"), vec!["a".to_string()]);
    assert_eq!(split_section_path("\"a.b\".c.d").len(), 3);
    assert_eq!(split_section_path("a..b").len(), 3);
}

#[test]
fn quoted_keys_unquote_to_their_text() {
    for s in ["my key", "a\"b", "back\\slash", "\\\"", ""] {
        let q = format!("\"{}\"", s.replace('\\', "\\\\").replace('"', "\\\""));
        assert_eq!(unquote_key(&q), s);
    }
    assert_eq!(unquote_key("\"my key\""), "my key");
    assert_eq!(unquote_key("plain"), "plain");
    assert_eq!(unquote_key("\""), "\"");
}

#[test]
fn token_raw_is_the_source_at_its_span() {
    let src = "a = 1\nb = [1,\n  2]  # two\n\n[s]\n@min: 1\nc = \"é\"\n";
    let toks = tokenize(src);
    assert!(!toks.is_empty());
    assert_eq!(toks[0].lineno, 1);
    for t in &toks {
        assert_eq!(&src[t.span.start..t.span.end], t.raw);
    }
    for w in toks.windows(2) {
        assert!(w[0].lineno < w[1].lineno);
    }
    let rejoined: Vec<&str> = toks.iter().map(|t| t.raw.as_str()).collect();
    assert_eq!(rejoined.join("\n") + "\n", src);
}
