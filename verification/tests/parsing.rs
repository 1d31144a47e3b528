use std::cmp::Ordering;

use tomlplus_syntax::annotation::{parse_annotation, AnnotationArg};
use tomlplus_syntax::dumper::{dumps, format_value};
use tomlplus_syntax::error::{DiagnosticCode, Severity};
use tomlplus_syntax::host::{Builtins, FloatOp, HostQuery, HostReply};
use tomlplus_syntax::parser::{parse_with_env, Document};
use tomlplus_syntax::scan::tokenize_arith;
use tomlplus_syntax::span::Span;
use tomlplus_syntax::validator::validate;
use tomlplus_syntax::value::{Dict, Value};
use tomlplus_syntax::value_parser::{ValueParser, VarRefKind};

fn host(q: HostQuery) -> HostReply {
    match q {
        HostQuery::ParseFloat(s) => match s.parse::<f64>() {
            Ok(f) => HostReply::Bits(f.to_bits()),
            Err(_) => HostReply::Nothing,
        },
        HostQuery::FromInt(n) => HostReply::Bits((n as f64).to_bits()),
        HostQuery::Arith(op, a, b) => {
            let (a, b) = (f64::from_bits(a), f64::from_bits(b));
            let r = match op {
                FloatOp::Add => a + b,
                FloatOp::Sub => a - b,
                FloatOp::Mul => a * b,
                FloatOp::Div => a / b,
            };
            HostReply::Bits(r.to_bits())
        }
        HostQuery::Display(f) => HostReply::Text(f64::from_bits(f).to_string()),
        HostQuery::Literal(f) => {
            let f = f64::from_bits(f);
            if f.fract() == 0.0 && f.is_finite() {
                HostReply::Text(format!("{:.1}", f))
            } else {
                HostReply::Text(f.to_string())
            }
        }
        HostQuery::Compare(a, b) => match f64::from_bits(a).partial_cmp(&f64::from_bits(b)) {
            Some(Ordering::Less) => HostReply::Int(-1),
            Some(Ordering::Equal) => HostReply::Int(0),
            Some(Ordering::Greater) => HostReply::Int(1),
            None => HostReply::Nothing,
        },
        HostQuery::ToInt(f) => HostReply::Int(f64::from_bits(f) as i64),
        HostQuery::DebugValue(v) => HostReply::Text(format!("{:?}", v)),
        HostQuery::DebugText(s) => HostReply::Text(format!("{:?}", s)),
    }
}

fn no_env(_: &str) -> Option<String> {
    None
}

fn test_env(k: &str) -> Option<String> {
    if k == "PORT" {
        Some("9000".to_string())
    } else {
        None
    }
}

fn builtins() -> Builtins {
    Builtins {
        now: "2024-01-02T03:04:05+00:00".to_string(),
        today: "2024-01-02".to_string(),
        hostname: "testhost".to_string(),
        platform: "linux".to_string(),
        pid: 4242,
        cwd: "/work".to_string(),
    }
}

fn parse_value(s: &str) -> Value {
    let vars = Dict::new();
    let b = builtins();
    let mut vp = ValueParser::new(&vars, &no_env, &host, &b, Span::new(0, s.len()));
    vp.parse(s).unwrap()
}

fn parse_err(s: &str) -> String {
    let vars = Dict::new();
    let b = builtins();
    let mut vp = ValueParser::new(&vars, &test_env, &host, &b, Span::new(0, s.len()));
    vp.parse(s).unwrap_err().message()
}

fn parse_str(s: &str) -> Document {
    parse_with_env(s, &no_env, &host, &builtins())
}

fn float(f: f64) -> Value {
    Value::Float(f.to_bits())
}

fn section<'a>(d: &'a Dict, k: &str) -> &'a Dict {
    match d.get(k).unwrap() {
        Value::Dict(d) => d,
        _ => panic!(),
    }
}

// ── Value parser ────────────────────────────────────────────────────────────

#[test]
fn integers() {
    assert_eq!(parse_value("42"), Value::Integer(42));
    assert_eq!(parse_value("-7"), Value::Integer(-7));
    assert_eq!(parse_value("0xff"), Value::Integer(255));
    assert_eq!(parse_value("0o755"), Value::Integer(0o755));
    assert_eq!(parse_value("0b1010"), Value::Integer(0b1010));
    assert_eq!(parse_value("1_000"), Value::Integer(1000));
}

#[test]
fn floats() {
    assert_eq!(parse_value("3.14"), float(3.14));
    assert_eq!(parse_value("1.5e3"), float(1500.0));
}

#[test]
fn bools_null() {
    assert_eq!(parse_value("true"), Value::Bool(true));
    assert_eq!(parse_value("false"), Value::Bool(false));
    assert_eq!(parse_value("null"), Value::Null);
}

#[test]
fn string_escapes() {
    assert_eq!(parse_value("\"a\\nb\""), Value::String("a\nb".to_string()));
}

#[test]
fn array_with_exprs() {
    let v = parse_value("[1, 2, 3]");
    assert_eq!(
        v,
        Value::Array(vec![Value::Integer(1), Value::Integer(2), Value::Integer(3),])
    );
}

#[test]
fn inline_dict() {
    let v = parse_value("#{ a = 1, b = 2 }#");
    let Value::Dict(d) = v else { panic!("not a dict") };
    assert_eq!(*d.get("a").unwrap(), Value::Integer(1));
    assert_eq!(*d.get("b").unwrap(), Value::Integer(2));
}

#[test]
fn fallback_picks_rhs_on_null() {
    assert_eq!(parse_value("null ?? 99"), Value::Integer(99));
    assert_eq!(parse_value("\"x\" ?? 99"), Value::String("x".into()));
}

#[test]
fn arithmetic_left_assoc_no_precedence() {
    assert_eq!(parse_value("2 + 3 * 4"), Value::Integer(20));
}

#[test]
fn string_concat() {
    assert_eq!(
        parse_value("\"hello\" + \" \" + \"world\""),
        Value::String("hello world".to_string())
    );
}

#[test]
fn division_gives_float_and_zero_divisor_is_an_error() {
    assert_eq!(parse_value("7 / 2"), float(3.5));
    assert_eq!(parse_err("1 / 0"), "invalid operands for `/`");
    assert_eq!(parse_value("1.5 * 2"), float(3.0));
    assert_eq!(parse_value("10 - 2.5"), float(7.5));
}

#[test]
fn integer_arithmetic_wraps() {
    assert_eq!(parse_value("9223372036854775807 + 1"), Value::Integer(i64::MIN));
}

#[test]
fn concat_stringifies_other_operands() {
    assert_eq!(parse_value("\"n=\" + 5"), Value::String("n=5".into()));
    assert_eq!(parse_value("\"b=\" + true"), Value::String("b=true".into()));
    assert_eq!(parse_value("\"x\" + null"), Value::String("xnull".into()));
    assert_eq!(parse_value("\"f=\" + 1.5"), Value::String("f=1.5".into()));
}

#[test]
fn error_messages() {
    assert_eq!(parse_err(""), "empty value");
    assert_eq!(parse_err("$nope"), "undefined variable `$nope`");
    assert_eq!(parse_err("abc"), "cannot parse value: `abc`");
    assert_eq!(parse_err("\"open"), "unterminated string");
    assert_eq!(parse_err("[1, 2"), "malformed array");
    assert_eq!(parse_err("#{ a = 1 "), "malformed inline dict");
    assert_eq!(parse_err("#{ a }#"), "inline dict entry missing `=`: `a`");
    assert_eq!(parse_err("true + 1"), "invalid operands for `+`");
}

#[test]
fn error_span_points_at_operand() {
    let vars = Dict::new();
    let b = builtins();
    let mut vp = ValueParser::new(&vars, &no_env, &host, &b, Span::new(10, 20));
    let e = vp.parse("  1 + $missing").unwrap_err();
    assert_eq!(e.span(), Span::new(16, 24));
}

#[test]
fn env_and_builtins_and_refs() {
    let vars = Dict::new();
    let b = builtins();
    let mut vp = ValueParser::new(&vars, &test_env, &host, &b, Span::new(0, 0));
    assert_eq!(vp.parse("$ENV.PORT").unwrap(), Value::String("9000".into()));
    assert_eq!(vp.parse("$ENV.HOME ?? 80").unwrap(), Value::Integer(80));
    assert_eq!(vp.parse("$PID").unwrap(), Value::Integer(4242));
    assert_eq!(vp.parse("$HOSTNAME").unwrap(), Value::String("testhost".into()));
    assert_eq!(vp.var_refs.len(), 4);
    assert_eq!(vp.var_refs[0].kind, VarRefKind::Env);
    assert_eq!(vp.var_refs[0].name, "PORT");
    assert_eq!(vp.var_refs[0].span, Span::new(0, 9));
    assert_eq!(vp.var_refs[2].kind, VarRefKind::Builtin);
}

#[test]
fn nested_structures_and_quoted_dict_keys() {
    let v = parse_value("#{ \"a b\" = [1, #{ c = 2 }#], a = 3, a = 4 }#");
    let Value::Dict(d) = v else { panic!() };
    assert_eq!(d.len(), 2);
    assert_eq!(*d.get("a").unwrap(), Value::Integer(4));
    let Value::Array(items) = d.get("a b").unwrap() else { panic!() };
    assert_eq!(items.len(), 2);
}

#[test]
fn number_forms() {
    assert_eq!(parse_value("-0x10"), Value::Integer(-16));
    assert_eq!(parse_value("1e2"), float(100.0));
    assert_eq!(parse_value("-2.5"), float(-2.5));
}

// ── Document parser ─────────────────────────────────────────────────────────

#[test]
fn parser_simple_kv() {
    let d = parse_str("port = 8080");
    assert_eq!(d.config.get("port"), Some(&Value::Integer(8080)));
    assert!(d.diagnostics.is_empty());
}

#[test]
fn section_kv() {
    let d = parse_str("[server]\nport = 80");
    let server = section(&d.config, "server");
    assert_eq!(server.get("port"), Some(&Value::Integer(80)));
}

#[test]
fn parser_dotted_section() {
    let d = parse_str("[a.b.c]\nx = 1");
    let a = section(&d.config, "a");
    let b = section(a, "b");
    let c = section(b, "c");
    assert_eq!(c.get("x"), Some(&Value::Integer(1)));
}

#[test]
fn vars_resolution() {
    let d = parse_str("[vars]\nbase = \"x\"\n[s]\nu = $base");
    let s = section(&d.config, "s");
    assert_eq!(s.get("u"), Some(&Value::String("x".to_string())));
}

#[test]
fn annotation_and_meta() {
    let d = parse_str("@type: int\nport = 80");
    let anns = d.meta.get("port").unwrap();
    assert_eq!(anns.len(), 1);
    assert_eq!(anns[0].name, "type");
}

#[test]
fn block_dict_with_annotation() {
    let d = parse_str("[server]\nheaders = #{\n  @required\n  ct = \"json\"\n}#");
    let server = section(&d.config, "server");
    let headers = section(server, "headers");
    assert_eq!(headers.get("ct"), Some(&Value::String("json".into())));
    assert!(d.meta.contains_key("server.headers.ct"));
}

#[test]
fn multiline_array() {
    let d = parse_str("tags = [\n  \"a\",\n  \"b\",\n]");
    assert_eq!(
        d.config.get("tags"),
        Some(&Value::Array(vec![
            Value::String("a".into()),
            Value::String("b".into())
        ]))
    );
}

#[test]
fn undefined_var_records_diagnostic() {
    let d = parse_str("x = $UNKNOWN");
    assert!(!d.diagnostics.is_empty());
}

#[test]
fn diagnostic_codes() {
    let d = parse_str("x = $UNKNOWN\ny = 1 +\n@@bad\nz = 2\n[a..b]");
    let codes: Vec<DiagnosticCode> = d.diagnostics.iter().map(|g| g.code).collect();
    assert_eq!(
        codes,
        vec![
            DiagnosticCode::UndefinedVariable,
            DiagnosticCode::BadAnnotation,
            DiagnosticCode::Syntax
        ]
    );
    assert_eq!(d.config.get("y"), Some(&Value::Integer(1)));
    assert_eq!(d.diagnostics[2].message, "invalid section name: `a..b`");
    assert_eq!(d.diagnostics[0].severity, Severity::Error);
}

#[test]
fn spans_and_refs_recorded() {
    let src = "[vars]\nhost = \"h\"\n[srv]\nurl = $host + \"/x\"";
    let d = parse_str(src);
    let ks = d.key_spans.get("srv.url").unwrap();
    assert_eq!(&src[ks.start..ks.end], "url");
    let vs = d.value_spans.get("srv.url").unwrap();
    assert_eq!(&src[vs.start..vs.end], "$host + \"/x\"");
    let def = d.var_def_spans.get("host").unwrap();
    assert_eq!(&src[def.start..def.end], "host");
    assert_eq!(d.var_refs.len(), 1);
    assert_eq!(&src[d.var_refs[0].span.start..d.var_refs[0].span.end], "$host");
    let s = section(&d.config, "srv");
    assert_eq!(s.get("url"), Some(&Value::String("h/x".into())));
}

#[test]
fn block_trailing_comma_and_section_annotation() {
    let d = parse_str("@tag: owner = \"me\"\n[s]\nb = #{\n  k = 1,\n}#");
    assert!(d.meta.contains_key("s"));
    let s = section(&d.config, "s");
    let b = section(s, "b");
    assert_eq!(b.get("k"), Some(&Value::Integer(1)));
    assert!(d.diagnostics.is_empty());
}

// ── Annotations ─────────────────────────────────────────────────────────────

fn ann(s: &str) -> tomlplus_syntax::annotation::Annotation {
    parse_annotation(s, Span::new(0, s.len()), &host).unwrap()
}

#[test]
fn flag() {
    let a = ann("@required");
    assert_eq!(a.name, "required");
    assert_eq!(a.arg, AnnotationArg::NoArg);
    assert_eq!(a.name_span, Span::new(0, 9));
    assert!(a.arg_span.is_none());
}

#[test]
fn colon_int_has_arg_span() {
    let a = ann("@min: 1");
    assert_eq!(a.arg, AnnotationArg::Int(1));
    let arg_span = a.arg_span.unwrap();
    assert_eq!(&"@min: 1"[arg_span.start..arg_span.end], "1");
}

#[test]
fn colon_string_arg_span() {
    let s = "@type: int";
    let a = ann(s);
    let arg_span = a.arg_span.unwrap();
    assert_eq!(&s[arg_span.start..arg_span.end], "int");
}

#[test]
fn colon_list_item_spans() {
    let s = "@enum: [debug, info, warn]";
    let a = ann(s);
    assert_eq!(a.list_item_spans.len(), 3);
    let items: Vec<&str> = a
        .list_item_spans
        .iter()
        .map(|sp| &s[sp.start..sp.end])
        .collect();
    assert_eq!(items, vec!["debug", "info", "warn"]);
}

#[test]
fn deprecated_paren_arg_span() {
    let s = "@deprecated(\"use new\")";
    let a = ann(s);
    let arg_span = a.arg_span.unwrap();
    assert_eq!(&s[arg_span.start..arg_span.end], "\"use new\"");
}

#[test]
fn annotation_args_and_errors() {
    assert_eq!(ann("@max: 2.5").arg, AnnotationArg::Float(2.5f64.to_bits()));
    assert_eq!(ann("@pattern: \"a+\"").arg, AnnotationArg::String("a+".into()));
    assert_eq!(ann("@deprecated(old)").arg, AnnotationArg::String("old".into()));
    let e = parse_annotation("type", Span::new(0, 4), &host).unwrap_err();
    assert_eq!(e.message(), "annotation must start with `@`");
    let e = parse_annotation("@1x", Span::new(0, 3), &host).unwrap_err();
    assert_eq!(e.message(), "annotation missing name");
    let e = parse_annotation("@min:", Span::new(0, 5), &host).unwrap_err();
    assert_eq!(e.message(), "annotation argument is empty");
    let e = parse_annotation("@min 3", Span::new(0, 6), &host).unwrap_err();
    assert_eq!(e.message(), "invalid annotation syntax: `@min 3`");
    assert!(ann("@required").is_metadata());
    assert!(ann("@min: 1").is_validation());
    assert!(ann("@type: int").is_type());
    assert!(ann("@tag: a").is_tag());
}

// ── Dumper ──────────────────────────────────────────────────────────────────

#[test]
fn block_dict_uses_correct_open() {
    let d = parse_str("[s]\nh = #{\n  a = 1\n}#");
    let out = dumps(&d, &host);
    assert!(out.contains("#{"));
    assert!(out.contains("}#"));
    assert!(!out.contains("{#"));
}

#[test]
fn inline_dict_close_pound() {
    let mut d = Dict::new();
    d.insert("a".to_string(), Value::Integer(1));
    let v = Value::Dict(d);
    let s = format_value(&v, 0, &host);
    assert!(s.ends_with("}#"));
}

#[test]
fn dumps_layout() {
    let d = parse_str("@required\ntop = \"a\\\"b\"\nf = 2.0\n[vars]\nv = 1\n[s]\n@min: 1\nport = 80\nh = #{\n  @tag: x\n  k = [1, 2]\n}#");
    let out = dumps(&d, &host);
    assert_eq!(
        out,
        "[vars]\nv = 1\n\nf = 2.0\n@required\ntop = \"a\\\"b\"\n\n[s]\nh = #{\n  @tag: x\n  k = [1, 2]\n}#\n@min: 1\nport = 80\n"
    );
}

#[test]
fn dumps_then_parse_keeps_values() {
    let src = "[s]\na = \"x\\ny\"\nb = [1, 2.5, true, null]\nc = #{ k = \"v\" }#";
    let d1 = parse_str(src);
    let text = dumps(&d1, &host);
    let d2 = parse_str(&text);
    assert_eq!(
        section(&d1.config, "s").get("a"),
        section(&d2.config, "s").get("a")
    );
    assert_eq!(
        section(&d1.config, "s").get("b"),
        section(&d2.config, "s").get("b")
    );
}

// ── Validator ───────────────────────────────────────────────────────────────

fn messages(src: &str) -> Vec<String> {
    let d = parse_str(src);
    validate(&d, &host).into_iter().map(|g| g.message).collect()
}

#[test]
fn validation_messages() {
    assert!(messages("@min: 1\nport = 80").is_empty());
    assert_eq!(messages("@min: 100\nport = 80"), vec!["[port] value 80 is below @min: 100"]);
    assert_eq!(messages("@max: 10\nport = 80"), vec!["[port] value 80 exceeds @max: 10"]);
    assert_eq!(messages("@type: int\nx = \"a\""), vec!["[x] expected @type: int, got string"]);
    assert_eq!(messages("@required\nx = \"\""), vec!["[x] value is @required but is empty or null"]);
    assert_eq!(messages("@minlen: 3\nx = \"ab\""), vec!["[x] length 2 is below @minlen: 3"]);
    assert_eq!(messages("@maxlen: 1\nx = [1, 2]"), vec!["[x] length 2 exceeds @maxlen: 1"]);
    assert_eq!(messages("@enum: [a, b]\nx = \"c\""), vec!["[x] value `c` not in @enum: [a, b]"]);
    assert_eq!(messages("@positive\nx = 0"), vec!["[x] value 0 must be @positive (> 0)"]);
    assert_eq!(messages("@nonzero\nx = 0.0"), vec!["[x] value must be @nonzero"]);
    assert_eq!(messages("@nonempty\nx = []"), vec!["[x] value must be @nonempty"]);
    assert_eq!(messages("@pattern: \"[a-z]+\"\nx = \"abc1\""), vec!["[x] value `abc1` does not match @pattern: `[a-z]+`"]);
    assert!(messages("@pattern: \"[a-z]+\"\nx = \"abc\"").is_empty());
    assert_eq!(messages("@deprecated(\"use y\")\nx = 1"), vec!["`x` is deprecated: use y"]);
}

#[test]
fn validation_types_and_codes() {
    assert!(messages("@type: url\nx = \"https://a\"").is_empty());
    assert_eq!(messages("@type: email\nx = \"a@b\"").len(), 1);
    assert!(messages("@type: email\nx = \"a@b.c\"").is_empty());
    assert!(messages("@type: duration\nx = \"30s\"").is_empty());
    assert_eq!(messages("@type: duration\nx = \"30\"").len(), 1);
    assert!(messages("@type: list[int]\nx = [1, 2]").is_empty());
    assert_eq!(messages("@type: list[int]\nx = [1, \"a\"]").len(), 1);
    assert!(messages("@type: float\nx = 1").is_empty());
    assert!(messages("@type: whatever\nx = 1").is_empty());
    let d = parse_str("@pattern: \"(\"\nx = \"a\"");
    let diags = validate(&d, &host);
    assert_eq!(diags.len(), 1);
    assert_eq!(diags[0].code, DiagnosticCode::BadAnnotation);
    assert!(diags[0].message.starts_with("[x] invalid @pattern regex: "));
    let d = parse_str("@deprecated\nx = 1");
    let diags = validate(&d, &host);
    assert_eq!(diags[0].severity, Severity::Warning);
    assert_eq!(diags[0].code, DiagnosticCode::Deprecated);
}

#[test]
fn leaf_annotations_skip_dicts() {
    assert!(messages("@type: int\n[s]\nk = 1").is_empty());
    assert_eq!(messages("@required\n[s]").len(), 1);
}

#[test]
fn dict_and_table_put_then_get() {
    let mut d = Dict::new();
    d.insert("b".to_string(), Value::Integer(1));
    d.insert("a".to_string(), Value::Integer(2));
    d.insert("b".to_string(), Value::Integer(3));
    assert_eq!(d.get("b"), Some(&Value::Integer(3)));
    assert_eq!(d.get("a"), Some(&Value::Integer(2)));
    assert_eq!(d.get("c"), None);
    assert_eq!(d.len(), 2);
    let mut t: tomlplus_syntax::value::KeyMap<i64> = tomlplus_syntax::value::KeyMap::new();
    t.insert("z".to_string(), 1);
    t.insert("y".to_string(), 2);
    t.insert("z".to_string(), 3);
    assert_eq!(t.get("z"), Some(&3));
    assert_eq!(t.get("y"), Some(&2));
    assert_eq!(t.get("x"), None);
    assert_eq!(t.len(), 2);
}

#[test]
fn unknown_type_passes_validation() {
    let d = parse_with_env("@type: colour\nx = [1, \"a\"]\n", &no_env, &host, &builtins());
    assert!(validate(&d, &host).is_empty());
}

#[test]
fn arith_tokens_start_at_their_text() {
    let raw: Vec<char> = "2 + 3 * 4".chars().collect();
    let toks = tokenize_arith(&raw, 0);
    let texts: Vec<String> = toks.iter().map(|t| t.0.iter().collect()).collect();
    let offs: Vec<usize> = toks.iter().map(|t| t.1).collect();
    assert_eq!(texts, vec!["2", "+", "3", "*", "4"]);
    assert_eq!(offs, vec![0, 2, 4, 6, 8]);
}

#[test]
fn arith_tokens_of_strings_and_brackets_after_operators() {
    let src = "\"a\" +  [1] + (2)";
    let raw: Vec<char> = src.chars().collect();
    let toks = tokenize_arith(&raw, 0);
    for t in &toks {
        let text: String = t.0.iter().collect();
        assert_eq!(&src[t.1..t.1 + text.len()], text);
    }
    assert_eq!(toks.len(), 5);
}

#[test]
fn var_ref_spans_cover_their_names() {
    let src = "$ENV.P ?? $a + $b";
    let mut vars = Dict::new();
    vars.insert("a".to_string(), Value::Integer(1));
    vars.insert("b".to_string(), Value::Integer(2));
    let b = builtins();
    let mut vp = ValueParser::new(&vars, &no_env, &host, &b, Span::new(0, src.len()));
    assert_eq!(vp.parse(src).unwrap(), Value::Integer(3));
    assert_eq!(vp.var_refs.len(), 3);
    assert_eq!(vp.var_refs[0].kind, VarRefKind::Env);
    assert_eq!(vp.var_refs[0].span, Span::new(0, 6));
    assert_eq!(vp.var_refs[1].name, "a");
    assert_eq!(vp.var_refs[1].span, Span::new(10, 12));
    assert_eq!(vp.var_refs[2].name, "b");
    assert_eq!(vp.var_refs[2].span, Span::new(15, 17));
    for r in &vp.var_refs {
        assert!(src[r.span.start..r.span.end].starts_with('$'));
    }
}

#[test]
fn strings_keep_non_ascii_characters() {
    assert_eq!(parse_value("\"é\""), Value::String("é".to_string()));
    assert_eq!(parse_value("\"日本\" + \"語\""), Value::String("日本語".to_string()));
}

#[test]
fn scientific_literals_with_signed_exponents() {
    assert_eq!(parse_value("1.5e-3"), float(0.0015));
    assert_eq!(parse_value("2e+2"), float(200.0));
    assert_eq!(parse_value("1e-2 * 100"), float(1.0));
    assert_eq!(parse_value("5 - 3"), Value::Integer(2));
    assert_eq!(parse_value("-2 - -3"), Value::Integer(1));
}

#[test]
fn durations_with_non_ascii_text_are_rejected() {
    assert_eq!(messages("@type: duration\nx = \"5é\"").len(), 1);
    assert_eq!(messages("@type: duration\nx = \"é\"").len(), 1);
}

#[test]
fn validation_diagnostics_have_three_kinds() {
    let d = parse_str("@min: 100\n@deprecated: \"old\"\nport = 80\n@pattern: \"(\"\nname = \"x\"");
    let ds = validate(&d, &host);
    assert_eq!(ds.len(), 3);
    for g in &ds {
        let ok = (g.severity == Severity::Error && g.code == DiagnosticCode::Validation)
            || (g.severity == Severity::Error && g.code == DiagnosticCode::BadAnnotation)
            || (g.severity == Severity::Warning && g.code == DiagnosticCode::Deprecated);
        assert!(ok);
    }
    assert_eq!(ds[0].code, DiagnosticCode::Validation);
    assert_eq!(ds[1].code, DiagnosticCode::Deprecated);
    assert_eq!(ds[2].code, DiagnosticCode::BadAnnotation);
}

#[test]
fn dict_inserts_keep_keys_sorted_and_unique() {
    let mut d = Dict::new();
    for (k, n) in [("b", 1), ("a", 2), ("é", 3), ("c", 4), ("a", 5), ("B", 6)] {
        d.insert(k.to_string(), Value::Integer(n));
    }
    let ks = d.keys();
    assert_eq!(ks, vec!["B", "a", "b", "c", "é"]);
    assert_eq!(d.get("a"), Some(&Value::Integer(5)));
    assert_eq!(d.len(), 5);
}

#[test]
fn builtins_from_readings_fall_back_to_unknown_host() {
    let b = Builtins::from_readings(
        "2024-01-02T03:04:05+00:00".to_string(),
        "2024-01-02".to_string(),
        None,
        "linux".to_string(),
        7,
        "/w".to_string(),
    );
    assert_eq!(b.hostname, "unknown");
    assert_eq!(b.today, "2024-01-02");
    let b2 = Builtins::from_readings(String::new(), String::new(), Some("box".to_string()), String::new(), 1, String::new());
    assert_eq!(b2.hostname, "box");
    let c = Builtins::capture("linux".to_string(), 1, "/".to_string()).unwrap();
    assert!(c.now.ends_with("+00:00") && c.now.contains('T'));
    assert_eq!(c.today.len(), 10);
}

#[test]
fn one_annotation_reports_once_when_broken() {
    assert_eq!(messages("@min: 5\nx = 3").len(), 1);
    assert!(messages("@min: 5\nx = 7").is_empty());
    assert_eq!(messages("@max: 5\nx = 7").len(), 1);
    assert!(messages("@max: 5\nx = 5").is_empty());
    assert_eq!(messages("@minlen: 3\nx = \"ab\"").len(), 1);
    assert!(messages("@minlen: 2\nx = \"ab\"").is_empty());
    assert_eq!(messages("@maxlen: 2\nx = [1, 2, 3]").len(), 1);
    assert!(messages("@maxlen: 3\nx = [1, 2, 3]").is_empty());
    assert_eq!(messages("@positive\nx = 0"), vec!["[x] value 0 must be @positive (> 0)"]);
    assert!(messages("@positive\nx = 1").is_empty());
    assert_eq!(messages("@nonzero\nx = 0"), vec!["[x] value must be @nonzero"]);
    assert!(messages("@nonzero\nx = -1").is_empty());
    assert_eq!(messages("@enum: [a, b]\nx = \"c\"").len(), 1);
    assert!(messages("@enum: [a, b]\nx = \"b\"").is_empty());
    let d = parse_str("@min: 5\nx = 3");
    let diags = validate(&d, &host);
    assert_eq!(diags[0].severity, Severity::Error);
    assert_eq!(diags[0].code, DiagnosticCode::Validation);
}

#[test]
fn deprecations_once_per_key_that_names_a_value() {
    let mut d = parse_str("@deprecated\na = 1\n@deprecated: use c\nb = 2\n@min: 9\nc = 3");
    let diags = validate(&d, &host);
    let warned = diags.iter().filter(|g| g.code == DiagnosticCode::Deprecated).count();
    assert_eq!(warned, 2);
    let a: Vec<char> = "a".chars().collect();
    assert!(d.config.take(&a).is_some());
    let diags = validate(&d, &host);
    let warned = diags.iter().filter(|g| g.code == DiagnosticCode::Deprecated).count();
    assert_eq!(warned, 1);
    let b: Vec<char> = "b".chars().collect();
    let c: Vec<char> = "c".chars().collect();
    assert!(d.config.take(&b).is_some());
    assert!(d.config.take(&c).is_some());
    assert!(validate(&d, &host).is_empty());
}
