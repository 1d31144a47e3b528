use std::cmp::Ordering;

use tomlplus_syntax::assist::{definition_at, document_symbols, inlay_hints, symbol_detail, HintKind, SymbolKind};
use tomlplus_syntax::colors::{color_readable, colors_ok, document_colors, format_color_hex, parse_color, Rgba};
use tomlplus_syntax::complete::{
    annotation_completions, annotation_snippet, builtin_vars, completion_at, known_annotations, known_types,
    line_starts_with, previous_token_prefix, type_completions, type_doc, variable_completions, CompletionKind,
    InsertFormat,
};
use tomlplus_syntax::display::{elide, format_annotation_for_hover, format_value_display};
use tomlplus_syntax::editor::{semantic_tokens, SemToken};
use tomlplus_syntax::error::Severity;
use tomlplus_syntax::host::{Builtins, FloatOp, HostQuery, HostReply};
use tomlplus_syntax::hover::{builtin_doc, hover_at, hover_for_key, pos_to_offset, span_to_range, TextRange};
use tomlplus_syntax::parser::{parse_with_env, Document};
use tomlplus_syntax::query::{annotations, deprecated_keys, has_annotation, keys, keys_with_tag, required_keys, tags};
use tomlplus_syntax::report::{diagnostic_line, severity_name, TomlplusDoc};
use tomlplus_syntax::span::{LineIndex, Span};
use tomlplus_syntax::validator::validate;
use tomlplus_syntax::dumper::{dumps, format_value};
use tomlplus_syntax::value::Dict;
use tomlplus_syntax::value_parser::ValueParser;
use tomlplus_syntax::value::Value;

fn host(q: HostQuery) -> HostReply {
    match q {
        HostQuery::ParseFloat(s) => match s.parse::<f64>() {
            Ok(f) => HostReply::Bits(f.to_bits()),
            Err(_) => HostReply::Nothing,
        },
        HostQuery::FromInt(n) => HostReply::Bits((n as f64).to_bits()),
        HostQuery::Arith(op, a, b) => {
            let (a, b) = (f64::from_bits(a), f64::from_bits(b));
            let r = match op {
                FloatOp::Add => a + b,
                FloatOp::Sub => a - b,
                FloatOp::Mul => a * b,
                FloatOp::Div => a / b,
            };
            HostReply::Bits(r.to_bits())
        }
        HostQuery::Display(f) => HostReply::Text(f64::from_bits(f).to_string()),
        HostQuery::Literal(f) => {
            let f = f64::from_bits(f);
            if f.fract() == 0.0 && f.is_finite() {
                HostReply::Text(format!("{:.1}", f))
            } else {
                HostReply::Text(f.to_string())
            }
        }
        HostQuery::Compare(a, b) => match f64::from_bits(a).partial_cmp(&f64::from_bits(b)) {
            Some(Ordering::Less) => HostReply::Int(-1),
            Some(Ordering::Equal) => HostReply::Int(0),
            Some(Ordering::Greater) => HostReply::Int(1),
            None => HostReply::Nothing,
        },
        HostQuery::ToInt(f) => HostReply::Int(f64::from_bits(f) as i64),
        HostQuery::DebugValue(v) => HostReply::Text(format!("{:?}", v)),
        HostQuery::DebugText(s) => HostReply::Text(format!("{:?}", s)),
    }
}

fn no_env(_: &str) -> Option<String> {
    None
}

fn test_env(k: &str) -> Option<String> {
    if k == "PORT" {
        Some("9000".to_string())
    } else {
        None
    }
}

fn builtins() -> Builtins {
    Builtins {
        now: "2024-01-02T03:04:05+00:00".to_string(),
        today: "2024-01-02".to_string(),
        hostname: "testhost".to_string(),
        platform: "linux".to_string(),
        pid: 4242,
        cwd: "/work".to_string(),
    }
}

fn parse_str(s: &str) -> Document {
    parse_with_env(s, &no_env, &host, &builtins())
}

fn parse_env(s: &str) -> Document {
    parse_with_env(s, &test_env, &host, &builtins())
}

fn tok(dl: u32, ds: u32, len: u32, ty: u32, m: u32) -> SemToken {
    SemToken { delta_line: dl, delta_start: ds, length: len, token_type: ty, modifiers: m }
}

// ── Semantic tokens ─────────────────────────────────────────────────────────

#[test]
fn semantic_tokens_key_and_decorator() {
    let src = "@readonly\nport = 80\n";
    let d = parse_str(src);
    let idx = LineIndex::new(src);
    let toks = semantic_tokens(&d, &idx);
    assert_eq!(toks, vec![tok(0, 0, 9, 2, 0), tok(1, 0, 4, 1, 3)]);
}

#[test]
fn semantic_tokens_section_and_env_reference() {
    let src = "[server]\nport = $ENV.PORT ?? 8080\n";
    let d = parse_env(src);
    let idx = LineIndex::new(src);
    let toks = semantic_tokens(&d, &idx);
    assert_eq!(toks, vec![tok(0, 1, 6, 0, 1), tok(1, 0, 4, 1, 1), tok(0, 7, 9, 7, 2)]);
}

#[test]
fn semantic_tokens_deltas_add_up_to_positions() {
    let src = "[a]\n@type: int\nx = 1\n@enum: [p, q]\ny = \"p\"\n";
    let d = parse_str(src);
    let idx = LineIndex::new(src);
    let toks = semantic_tokens(&d, &idx);
    let mut line = 0u32;
    let mut col = 0u32;
    let mut prev = (0u32, 0u32);
    for t in &toks {
        line += t.delta_line;
        col = if t.delta_line == 0 { col + t.delta_start } else { t.delta_start };
        assert!((line, col) >= prev);
        prev = (line, col);
    }
    // the `@enum` items are tokens of their own
    assert!(toks.iter().filter(|t| t.token_type == 4).count() == 2);
}

// ── Display ─────────────────────────────────────────────────────────────────

#[test]
fn display_cuts_long_lists_and_dicts() {
    let xs = Value::Array((1..=7).map(Value::Integer).collect());
    assert_eq!(format_value_display(&xs, &host), "[1, 2, 3, 4, 5, 6, …]");
    let short = Value::Array(vec![Value::Bool(true), Value::Null]);
    assert_eq!(format_value_display(&short, &host), "[true, null]");
    let d = parse_str("x = #{ a = 1, b = 2, c = 3, d = 4, e = 5 }#");
    let v = d.config.get("x").unwrap();
    assert_eq!(format_value_display(v, &host), "#{ a = 1, b = 2, c = 3, d = 4, … }#");
}

#[test]
fn display_escapes_strings() {
    let v = Value::String("a\"b\\c".to_string());
    assert_eq!(format_value_display(&v, &host), "\"a\\\"b\\\\c\"");
    assert_eq!(format_value_display(&Value::Float(1.5f64.to_bits()), &host), "1.5");
}

#[test]
fn elide_keeps_short_and_cuts_long() {
    assert_eq!(elide("abc", 3), "abc");
    assert_eq!(elide("abcdef", 4), "abc…");
    assert_eq!(elide("ééééé", 3), "éé…");
}

#[test]
fn annotation_for_hover_forms() {
    let d = parse_str("@enum: [a, b]\n@min: 3\n@required\nk = \"a\"\n");
    let anns = d.meta.get("k").unwrap();
    let shown: Vec<String> = anns.iter().map(|a| format_annotation_for_hover(a, &host)).collect();
    assert_eq!(shown, vec!["@enum: [a, b]", "@min: 3", "@required"]);
}

// ── Hover ───────────────────────────────────────────────────────────────────

#[test]
fn hover_key_with_annotations_and_tags() {
    let src = "@required\n@tag: owner = \"infra\"\nport = 80\n";
    let d = parse_str(src);
    let idx = LineIndex::new(src);
    let h = hover_for_key(&d, &idx, "port", Span::new(32, 36), &host);
    let expected = "**`port`** &nbsp;·&nbsp; *int*\n\n```tomlplus\n= 80\n```\n\n`@required`\n\n**Annotations**\n- `@required`\n- `@tag: owner = \"infra\"`\n\n**Tags**\n- *owner* = `infra`\n";
    assert_eq!(h.markdown, expected);
    assert_eq!(h.range, TextRange { start_line: 2, start_col: 0, end_line: 2, end_col: 4 });
}

#[test]
fn hover_deprecated_chip() {
    let src = "@deprecated(\"use b\")\na = 1\n";
    let d = parse_str(src);
    let idx = LineIndex::new(src);
    let h = hover_for_key(&d, &idx, "a", Span::new(21, 22), &host);
    assert!(h.markdown.starts_with("**`a`** &nbsp;·&nbsp; *int*\n"));
    assert!(h.markdown.contains("\n⚠ deprecated — use b\n"));
}

#[test]
fn hover_at_env_reference() {
    let src = "port = $ENV.PORT\n";
    let d = parse_env(src);
    let idx = LineIndex::new(src);
    let h = hover_at(&d, &idx, 0, 9, &test_env, &host).unwrap();
    assert_eq!(
        h.markdown,
        "`$ENV.PORT` &nbsp;·&nbsp; **environment variable**\n\n*currently set:* `9000`"
    );
    let unset = hover_at(&d, &idx, 0, 9, &no_env, &host).unwrap();
    assert!(unset.markdown.ends_with("\n*currently:* `<unset>` — use `??` for a fallback"));
    // on the key
    let k = hover_at(&d, &idx, 0, 1, &test_env, &host).unwrap();
    assert!(k.markdown.starts_with("**`port`**"));
    // on the `=` sign: nothing
    assert!(hover_at(&d, &idx, 0, 5, &test_env, &host).is_none());
}

#[test]
fn hover_user_and_builtin_variables() {
    let src = "[vars]\nbase = \"x\"\n[s]\nu = $base\np = $PID\n";
    let d = parse_str(src);
    let idx = LineIndex::new(src);
    let u = hover_at(&d, &idx, 3, 5, &no_env, &host).unwrap();
    assert_eq!(
        u.markdown,
        "`$base` &nbsp;·&nbsp; **user variable**\n\n*type:* `string`\n\n```tomlplus\nbase = \"x\"\n```"
    );
    let p = hover_at(&d, &idx, 4, 5, &no_env, &host).unwrap();
    assert_eq!(p.markdown, "`$PID` &nbsp;·&nbsp; **built-in**\n\nProcess ID of the parser.");
}

#[test]
fn builtin_docs() {
    assert_eq!(builtin_doc("CWD"), "\nCurrent working directory of the parser.");
    assert_eq!(builtin_doc("nope"), "");
}

#[test]
fn positions_and_ranges() {
    let idx = LineIndex::new("ab\ncd\n");
    assert_eq!(pos_to_offset(1, 1, &idx), 4);
    assert_eq!(pos_to_offset(9, 0, &idx), 6);
    assert_eq!(
        span_to_range(Span::new(1, 4), &idx),
        TextRange { start_line: 0, start_col: 1, end_line: 1, end_col: 1 }
    );
}

// ── Inlay hints, definition, outline ────────────────────────────────────────

#[test]
fn inlay_hints_for_env_user_and_type() {
    let src = "[vars]\nname = \"api\"\n[app]\n@type: string\nport = $ENV.PORT\nhost = $name\n";
    let d = parse_env(src);
    let idx = LineIndex::new(src);
    let hints = inlay_hints(&d, &idx, &test_env, &host);
    assert_eq!(hints.len(), 3);
    assert_eq!((hints[0].line, hints[0].col), (4, 16));
    assert_eq!(hints[0].label, " → \"9000\"");
    assert_eq!(hints[0].kind, HintKind::Parameter);
    assert_eq!(hints[0].tooltip.as_deref(), Some("Environment variable PORT resolves to \"9000\""));
    assert_eq!((hints[1].line, hints[1].col), (5, 12));
    assert_eq!(hints[1].label, " → \"api\"");
    assert_eq!(hints[1].tooltip, None);
    assert_eq!((hints[2].line, hints[2].col), (4, 16));
    assert_eq!(hints[2].label, ": string");
    assert_eq!(hints[2].kind, HintKind::Type);
    assert!(hints[2].padding_left);
    // with the variable unset there is no environment hint
    let none = inlay_hints(&d, &idx, &no_env, &host);
    assert_eq!(none.len(), 2);
}

#[test]
fn definition_of_user_variable() {
    let src = "[vars]\nname = \"api\"\n[app]\nhost = $name\nport = $PID\n";
    let d = parse_str(src);
    let idx = LineIndex::new(src);
    assert_eq!(
        definition_at(&d, &idx, 3, 8),
        Some(TextRange { start_line: 1, start_col: 0, end_line: 1, end_col: 4 })
    );
    assert_eq!(definition_at(&d, &idx, 4, 8), None);
    assert_eq!(definition_at(&d, &idx, 3, 1), None);
}

#[test]
fn outline_nests_sections() {
    let src = "[server]\nport = 80\nhosts = [\"a\"]\n";
    let d = parse_str(src);
    let idx = LineIndex::new(src);
    let syms = document_symbols(&d, &idx);
    assert_eq!(syms.len(), 1);
    assert_eq!(syms[0].name, "server");
    assert_eq!(syms[0].kind, SymbolKind::Namespace);
    assert_eq!(syms[0].detail, "dict · 2 keys");
    assert_eq!(syms[0].range, TextRange { start_line: 0, start_col: 1, end_line: 0, end_col: 7 });
    let kids = syms[0].children.as_ref().unwrap();
    assert_eq!(kids.len(), 2);
    assert_eq!(kids[0].name, "hosts");
    assert_eq!(kids[0].kind, SymbolKind::Array);
    assert_eq!(kids[0].detail, "list · 1 items");
    assert_eq!(kids[0].range, TextRange { start_line: 2, start_col: 0, end_line: 2, end_col: 5 });
    assert_eq!(kids[1].name, "port");
    assert_eq!(kids[1].kind, SymbolKind::Number);
    assert_eq!(kids[1].detail, "int");
    assert!(kids[1].children.is_none());
    assert_eq!(symbol_detail(&Value::Null), "null");
}

// ── Completion ──────────────────────────────────────────────────────────────

#[test]
fn token_prefix_before_cursor() {
    assert_eq!(previous_token_prefix("x = $na", 7), "$na");
    assert_eq!(previous_token_prefix("a=@b", 4), "@b");
    assert_eq!(previous_token_prefix("abc", 10), "abc");
    assert_eq!(previous_token_prefix("k = é$x", 9), "$x");
    assert_eq!(previous_token_prefix("f(x", 3), "x");
    assert!(line_starts_with("a\n  @type: int", 14, "@type:"));
    assert!(!line_starts_with("@type: int\nx", 12, "@type:"));
}

#[test]
fn completion_kinds_by_prefix() {
    let src = "[vars]\nbase = 1\n[s]\n@type:\n@\nx = $\n";
    let d = parse_str(src);
    let idx = LineIndex::new(src);
    let types = completion_at(&d, src, &idx, 3, 6, &host);
    assert_eq!(types.len(), 14);
    assert_eq!(types[0].label, "string");
    assert_eq!(types[0].kind, CompletionKind::TypeParameter);
    let anns = completion_at(&d, src, &idx, 4, 1, &host);
    assert_eq!(anns.len(), 16);
    assert_eq!(anns[0].label, "@required");
    assert_eq!(anns[0].insert_format, Some(InsertFormat::PlainText));
    let vars = completion_at(&d, src, &idx, 5, 5, &host);
    assert_eq!(vars.len(), 1 + 9 + 1);
    assert_eq!(vars[0].label, "$base");
    assert_eq!(vars[0].detail, "user variable · int");
    assert_eq!(vars[0].documentation, "```tomlplus\nbase = 1\n```");
    assert_eq!(vars[1].label, "$NOW");
    assert_eq!(vars[10].label, "$ENV.");
    assert_eq!(vars[10].insert_text.as_deref(), Some("$ENV.${1:VAR_NAME}"));
    assert!(completion_at(&d, src, &idx, 1, 3, &host).is_empty());
}

#[test]
fn completion_lists() {
    assert_eq!(known_annotations().len(), 16);
    assert_eq!(known_types().len(), 14);
    assert_eq!(builtin_vars(), vec!["NOW", "TODAY", "TRUE", "FALSE", "NULL", "PID", "HOSTNAME", "PLATFORM", "CWD"]);
    let a = annotation_completions();
    assert_eq!(a[1].label, "@type");
    assert_eq!(a[1].insert_text.as_deref(), Some("@type: ${1:int}"));
    assert_eq!(a[1].insert_format, Some(InsertFormat::Snippet));
    let t = type_completions();
    assert_eq!(t[13].label, "duration");
    assert_eq!(t[13].documentation, "Duration string like `30s`, `5m`, `2h`, `1d`.");
    assert_eq!(annotation_snippet("nope"), ("", InsertFormat::PlainText, ""));
    assert_eq!(annotation_snippet("positive").0, "@positive");
    assert_eq!(type_doc("url"), "String beginning with `http://` or `https://`.");
    let d = parse_str("x = 1\n");
    let v = variable_completions(&d, &host);
    assert_eq!(v.len(), 10);
    assert_eq!(v[0].kind, CompletionKind::Constant);
}

// ── Colours ─────────────────────────────────────────────────────────────────

#[test]
fn colors_parse_all_forms() {
    let rgba = |r, g, b, a| Some(Rgba { red: r, green: g, blue: b, alpha: a });
    assert_eq!(parse_color("#fff"), rgba(255, 255, 255, 255));
    assert_eq!(parse_color("#FF8800"), rgba(255, 136, 0, 255));
    assert_eq!(parse_color("#11223344"), rgba(0x11, 0x22, 0x33, 0x44));
    assert_eq!(parse_color("  #00ff00  "), rgba(0, 255, 0, 255));
    assert_eq!(parse_color("#+f+f+f"), rgba(15, 15, 15, 255));
    assert_eq!(parse_color("#12345"), None);
    assert_eq!(parse_color("#ggg"), None);
    assert_eq!(parse_color("fff"), None);
    assert_eq!(parse_color("#é1234"), None);
    assert!(color_readable("#éab12"));
    assert!(!color_readable("#aé123"));
}

#[test]
fn colors_write_and_read_back() {
    let c = Rgba { red: 255, green: 136, blue: 0, alpha: 255 };
    assert_eq!(format_color_hex(&c), "\"#FF8800\"");
    let t = Rgba { red: 0x11, green: 0x22, blue: 0x33, alpha: 0x44 };
    assert_eq!(format_color_hex(&t), "\"#11223344\"");
    let text = format_color_hex(&t);
    assert_eq!(parse_color(text.trim_matches('"')), Some(t));
}

#[test]
fn colors_in_document() {
    let src = "[theme]\naccent = \"#FF8800\"\nname = \"dark\"\n";
    let d = parse_str(src);
    let idx = LineIndex::new(src);
    assert!(colors_ok(&d));
    let cs = document_colors(&d, &idx);
    assert_eq!(cs.len(), 1);
    assert_eq!(cs[0].color, Rgba { red: 255, green: 136, blue: 0, alpha: 255 });
    assert_eq!(cs[0].range, TextRange { start_line: 1, start_col: 9, end_line: 1, end_col: 18 });
}

// ── Queries ─────────────────────────────────────────────────────────────────

#[test]
fn queries_over_annotations() {
    let src = "@required\n@tag: owner = \"infra\"\n@tag: tier = gold\na = 1\n@deprecated(\"use a\")\nb = 2\n@deprecated\n@tag: owner = web\nc = 3\n";
    let d = parse_str(src);
    assert!(has_annotation(&d, "a", "required"));
    assert!(!has_annotation(&d, "b", "required"));
    assert!(!has_annotation(&d, "zzz", "required"));
    assert_eq!(
        tags(&d, "a"),
        vec![("owner".to_string(), "infra".to_string()), ("tier".to_string(), "gold".to_string())]
    );
    assert!(tags(&d, "b").is_empty());
    assert_eq!(required_keys(&d), vec!["a".to_string()]);
    assert_eq!(
        deprecated_keys(&d),
        vec![("b".to_string(), Some("use a".to_string())), ("c".to_string(), None)]
    );
    assert_eq!(
        keys_with_tag(&d, "owner"),
        vec![("a".to_string(), "infra".to_string()), ("c".to_string(), "web".to_string())]
    );
    assert_eq!(keys(&d), vec!["a".to_string(), "b".to_string(), "c".to_string()]);
    let names: Vec<&str> = annotations(&d, "a").iter().map(|a| a.name.as_str()).collect();
    assert_eq!(names, vec!["required", "tag", "tag"]);
    assert!(annotations(&d, "zzz").is_empty());
}

// ── Reports ─────────────────────────────────────────────────────────────────

#[test]
fn parse_error_sets_last_error() {
    let src = "x = $UNDEFINED";
    let d = parse_str(src);
    let idx = LineIndex::new(src);
    let msg = match TomlplusDoc::accept(d, &idx) {
        Err(m) => m,
        Ok(_) => panic!("expected a refusal"),
    };
    assert!(msg.contains("undefined variable"));
    assert_eq!(msg, "undefined variable `$UNDEFINED` (line 1, col 5)");
}

#[test]
fn validate_returns_empty_array_when_ok() {
    let d = parse_str("@min: 1\nport = 80");
    assert!(validate(&d, &host).is_empty());
}

#[test]
fn dumps_roundtrip() {
    let d = parse_str("[s]\nport = 80");
    let doc = match TomlplusDoc::accept(d, &LineIndex::new("[s]\nport = 80")) {
        Ok(t) => t,
        Err(m) => panic!("{}", m),
    };
    assert!(dumps(&doc.doc, &host).contains("[s]"));
}

#[test]
fn report_lines() {
    assert_eq!(severity_name(Severity::Hint), "hint");
    let src = "a = 1\nb = $nope\n";
    let d = parse_str(src);
    let idx = LineIndex::new(src);
    let line = diagnostic_line("f.tomlp", &idx, &d.diagnostics[0]);
    assert_eq!(line, "f.tomlp:2:5: error: undefined variable `$nope`");
}

#[test]
fn span_into_range() {
    let r: std::ops::Range<usize> = Span::new(2, 5).into();
    assert_eq!(r, 2..5);
}

#[test]
fn written_scalars_read_back() {
    let values = vec![
        Value::Null,
        Value::Bool(false),
        Value::Integer(-42),
        Value::Integer(i64::MAX),
        Value::String("tab\there \\ done\n".to_string()),
    ];
    for v in values {
        let text = format_value(&v, 0, &host);
        let vars = Dict::new();
        let b = builtins();
        let mut vp = ValueParser::new(&vars, &no_env, &host, &b, Span::new(0, text.len()));
        assert_eq!(vp.parse(&text).unwrap(), v);
    }
}

#[test]
fn written_lists_read_back() {
    let values = vec![
        Value::Array(vec![]),
        Value::Array(vec![
            Value::Integer(1),
            Value::String("a, b ?? [c]".to_string()),
            Value::Null,
            Value::Bool(true),
            Value::Integer(-7),
            Value::String(String::new()),
        ]),
    ];
    for v in values {
        let text = format_value(&v, 0, &host);
        let vars = Dict::new();
        let b = builtins();
        let mut vp = ValueParser::new(&vars, &no_env, &host, &b, Span::new(0, text.len()));
        assert_eq!(vp.parse(&text).unwrap(), v);
    }
}

#[test]
fn first_error_of_validation() {
    let d = parse_str("@min: 5\nport = 1\n@type: int\nname = \"x\"\n");
    let errs = validate(&d, &host);
    assert!(!errs.is_empty());
    let first = tomlplus_syntax::report::first_error_message(&errs);
    assert_eq!(first, Some(errs[0].message.clone()));
    assert_eq!(tomlplus_syntax::report::first_error_message(&Vec::new()), None);
}

#[test]
fn written_documents_read_back() {
    let src = "zeta = \"last word\"\nalpha = 1\nmid = true\nnone = null\nneg = -3\n";
    let d = parse_str(src);
    assert!(d.diagnostics.is_empty());
    let text = dumps(&d, &host);
    assert_eq!(text, "alpha = 1\nmid = true\nneg = -3\nnone = null\nzeta = \"last word\"\n");
    let back = parse_str(&text);
    assert!(back.diagnostics.is_empty());
    assert_eq!(back.config, d.config);
    let empty = parse_str("");
    assert_eq!(dumps(&empty, &host), "\n");
    let again = parse_str("\n");
    assert!(again.diagnostics.is_empty());
    assert_eq!(again.config, empty.config);
}

#[test]
fn written_sections_read_back() {
    let src = "top = 1\n[srv]\nport = 80\nhost = \"a b\"\n[db]\nname = \"main\"\n[empty]\n";
    let d = parse_str(src);
    assert!(d.diagnostics.is_empty());
    let text = dumps(&d, &host);
    assert_eq!(
        text,
        "top = 1\n\n[db]\nname = \"main\"\n\n[empty]\n\n[srv]\nhost = \"a b\"\nport = 80\n"
    );
    let back = parse_str(&text);
    assert!(back.diagnostics.is_empty());
    assert_eq!(back.config, d.config);
    let lists = "xs = [1, \"a # b\", null]\n[s]\nys = []\nzs = [true, \"[x]\"]\n";
    let d = parse_str(lists);
    assert!(d.diagnostics.is_empty());
    let text = dumps(&d, &host);
    assert_eq!(text, "xs = [1, \"a # b\", null]\n\n[s]\nys = []\nzs = [true, \"[x]\"]\n");
    let back = parse_str(&text);
    assert!(back.diagnostics.is_empty());
    assert_eq!(back.config, d.config);
    let with_vars = "[vars]\nb = 2\na = \"x\"\n[s]\nk = true\n";
    let d = parse_str(with_vars);
    let text = dumps(&d, &host);
    assert_eq!(text, "[vars]\na = \"x\"\nb = 2\n\n[s]\nk = true\n");
    let back = parse_str(&text);
    assert!(back.diagnostics.is_empty());
    assert_eq!(back.config, d.config);
    assert_eq!(back.vars, d.vars);
}

#[test]
fn top_level_keys_after_vars_are_read_as_vars() {
    let d = parse_str("[vars]\nv = 1\n[s]\nk = 2\n");
    let mut top = d;
    top.config.insert("x".to_string(), Value::Integer(3));
    let text = dumps(&top, &host);
    assert_eq!(text, "[vars]\nv = 1\n\nx = 3\n\n[s]\nk = 2\n");
    let back = parse_str(&text);
    assert!(back.config.get("x").is_none());
    assert!(back.vars.get("x").is_some());
}

#[test]
fn written_annotations_read_back() {
    let src = "@required\n@min: -5\n@enum: [red, green, light blue]\n@type: string\n@tag: owner = infra\n@pattern: ^a\"#\"b$\nx = 1\n";
    let d = parse_str(src);
    assert!(d.diagnostics.is_empty());
    let text = dumps(&d, &host);
    let back = parse_str(&text);
    assert!(back.diagnostics.is_empty());
    let before: Vec<(String, &tomlplus_syntax::annotation::AnnotationArg)> =
        annotations(&d, "x").iter().map(|a| (a.name.clone(), &a.arg)).collect();
    let after: Vec<(String, &tomlplus_syntax::annotation::AnnotationArg)> =
        annotations(&back, "x").iter().map(|a| (a.name.clone(), &a.arg)).collect();
    assert_eq!(before.len(), 6);
    assert_eq!(before, after);
}

#[test]
fn written_section_annotations_read_back() {
    let src = "@deprecated\n[srv]\n@min: 1\nport = 80\n[db]\n@tag: owner = data\nname = \"main\"\n";
    let d = parse_str(src);
    assert!(d.diagnostics.is_empty());
    let text = dumps(&d, &host);
    let back = parse_str(&text);
    assert!(back.diagnostics.is_empty());
    assert_eq!(back.config, d.config);
    for key in ["srv", "srv.port", "db.name", "db"] {
        let a: Vec<(String, &tomlplus_syntax::annotation::AnnotationArg)> =
            annotations(&d, key).iter().map(|x| (x.name.clone(), &x.arg)).collect();
        let b: Vec<(String, &tomlplus_syntax::annotation::AnnotationArg)> =
            annotations(&back, key).iter().map(|x| (x.name.clone(), &x.arg)).collect();
        assert_eq!(a, b);
    }
}

#[test]
fn first_section_annotations_after_vars_are_dropped() {
    let d = parse_str("[vars]\nv = 1\n@deprecated\n[s]\nk = 2\n");
    assert!(annotations(&d, "s").is_empty());
    let d = parse_str("@deprecated\n[s]\nk = 2\n");
    let mut with_vars = d;
    with_vars.vars.insert("v".to_string(), Value::Integer(1));
    let text = dumps(&with_vars, &host);
    assert_eq!(text, "[vars]\nv = 1\n\n@deprecated\n[s]\nk = 2\n");
    let back = parse_str(&text);
    assert!(annotations(&back, "s").is_empty());
}

#[test]
fn non_ascii_strings_read_back() {
    let v = Value::String("é".to_string());
    let text = format_value(&v, 0, &host);
    assert_eq!(text, "\"é\"");
    let vars = Dict::new();
    let b = builtins();
    let mut vp = ValueParser::new(&vars, &no_env, &host, &b, Span::new(0, text.len()));
    let back = vp.parse(&text).unwrap();
    assert_eq!(back, v);
}

#[test]
fn written_block_dicts_read_back() {
    let src = "[s]\nk = 2\nh = #{\n  b = \"x\"\n  a = [1, 2]\n}#\n";
    let d = parse_str(src);
    assert!(d.diagnostics.is_empty());
    let text = dumps(&d, &host);
    assert_eq!(text, "[s]\nh = #{\n  a = [1, 2]\n  b = \"x\"\n}#\nk = 2\n");
    let back = parse_str(&text);
    assert!(back.diagnostics.is_empty());
    assert_eq!(back.config, d.config);
}

#[test]
fn written_block_dict_annotations_read_back() {
    let src = "[s]\n@deprecated: old\nh = #{\n  a = 1\n}#\n@min: 1\nk = 2\n";
    let d = parse_str(src);
    assert!(d.diagnostics.is_empty());
    assert_eq!(annotations(&d, "s.h").len(), 1);
    let text = dumps(&d, &host);
    assert_eq!(text, "[s]\n@deprecated: old\nh = #{\n  a = 1\n}#\n@min: 1\nk = 2\n");
    let back = parse_str(&text);
    assert!(back.diagnostics.is_empty());
    assert_eq!(back.config, d.config);
    for key in ["s", "s.h", "s.k", "s.h.a"] {
        let a: Vec<(String, &tomlplus_syntax::annotation::AnnotationArg)> =
            annotations(&d, key).iter().map(|x| (x.name.clone(), &x.arg)).collect();
        let b: Vec<(String, &tomlplus_syntax::annotation::AnnotationArg)> =
            annotations(&back, key).iter().map(|x| (x.name.clone(), &x.arg)).collect();
        assert_eq!(a, b);
    }
}
