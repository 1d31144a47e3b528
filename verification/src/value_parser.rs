//! Parses a value expression (the right-hand side of `key = …`) into a
//! [`Value`].
//!
//! Grammar:
//!     expr   ::= arith ( "??" expr )?
//!     arith  ::= atom (("+"|"-"|"*"|"/") atom)*
//!     atom   ::= variable | string | bool | null | number | array | dict
//!     array  ::= "["   ( expr ("," expr)* ","? )?  "]"
//!     dict   ::= "#{"  ( entry ("," entry)* ","? )? "}#"
//!     entry  ::= (bare_key | quoted_key) "=" expr
//!
//! Arithmetic is left-associative with no precedence; integer arithmetic
//! wraps; `a ?? b` is `b` exactly when `a` is `null`. Offsets in spans are
//! byte offsets and wrap like release-build `usize` additions.

use vstd::prelude::*;
use crate::error::{error_at, err_model, span_at, ErrModel, ParseError};
use crate::host::{
    ask_env, env_ok, env_reply, float_arith, float_display, float_from_int, float_parse, host_arith,
    host_debug, host_display, host_from_int, host_ok, host_parse_float, debug_text, Builtins,
    FloatOp, HostQuery, HostReply,
};
use crate::numeric::{int_text, int_to_text, parse_i64_radix, parse_int};
use crate::scan::{
    arith_tokens, find_op, find_op_top_level, lemma_arith_from_shape, lemma_find_op_from_bound,
    lemma_split_from_weight, pieces_light, pieces_match, pieces_nonempty, split_top,
    split_top_level, tokenize_arith,
};
use crate::span::Span;
use crate::text::{
    chars_of, cw, char_width, eq_lit, lead_bytes, leading_ws_bytes, lemma_weight_subrange,
    lemma_weight_trim, push_all, push_lit, slice_of, starts_with_lit, string_from, to_chars, trim,
    trimmed, wadd, wblen, wbyte_len, weight,
};
use crate::value::{clone_value, dict_get, dict_put, Dict, Value, ValueModel};

verus! {

// ── Errors ──────────────────────────────────────────────────────────────────

/// `r` is the value or error that `m` describes.
pub open spec fn res_matches(r: Result<Value, ParseError>, m: Result<ValueModel, ErrModel>) -> bool {
    match r {
        Ok(v) => m == Ok::<ValueModel, ErrModel>(v.model()),
        Err(e) => m == Err::<ValueModel, ErrModel>(err_model(e)),
    }
}

// ── Strings ─────────────────────────────────────────────────────────────────

/// What a backslash followed by `c` stands for.
pub open spec fn escape_of(c: char) -> Seq<char> {
    if c == 'n' {
        seq!['\n']
    } else if c == 't' {
        seq!['\t']
    } else if c == 'r' {
        seq!['\r']
    } else if c == '"' {
        seq!['"']
    } else if c == '\\' {
        seq!['\\']
    } else {
        seq!['\\', c]
    }
}

/// The text a string literal's body stands for: `\n`, `\t`, `\r`, `\"`
/// and `\\` are replaced, any other escape and a lone trailing backslash
/// are kept as written.
pub open spec fn unescape(s: Seq<char>) -> Seq<char>
    decreases s.len(),
{
    if s.len() == 0 {
        Seq::empty()
    } else if s[0] == '\\' {
        if s.len() == 1 {
            seq!['\\']
        } else {
            escape_of(s[1]) + unescape(s.skip(2))
        }
    } else {
        seq![s[0]] + unescape(s.skip(1))
    }
}

fn unescape_chars(s: &[char]) -> (r: Vec<char>)
    ensures
        r@ == unescape(s@),
{
    let mut out: Vec<char> = Vec::new();
    let mut i: usize = 0;
    assert(s@.skip(0) =~= s@);
    assert(out@ + unescape(s@) =~= unescape(s@));
    while i < s.len()
        invariant
            i <= s@.len(),
            out@ + unescape(s@.skip(i as int)) == unescape(s@),
        decreases s@.len() - i,
    {
        let c = s[i];
        let ghost rest = s@.skip(i as int);
        if c == '\\' {
            if i + 1 < s.len() {
                let e = s[i + 1];
                assert(rest.skip(2) =~= s@.skip(i + 2));
                if e == 'n' {
                    out.push('\n');
                } else if e == 't' {
                    out.push('\t');
                } else if e == 'r' {
                    out.push('\r');
                } else if e == '"' {
                    out.push('"');
                } else if e == '\\' {
                    out.push('\\');
                } else {
                    out.push('\\');
                    out.push(e);
                }
                assert(out@ + unescape(s@.skip(i + 2)) =~= unescape(s@));
                i = i + 2;
            } else {
                out.push('\\');
                assert(s@.skip(i + 1) =~= Seq::<char>::empty());
                assert(out@ + unescape(s@.skip(i + 1)) =~= unescape(s@));
                i = i + 1;
            }
        } else {
            out.push(c);
            assert(rest.skip(1) =~= s@.skip(i + 1));
            assert(out@ + unescape(s@.skip(i + 1)) =~= unescape(s@));
            i = i + 1;
        }
    }
    assert(s@.skip(i as int) =~= Seq::<char>::empty());
    assert(out@ =~= out@ + unescape(s@.skip(i as int)));
    out
}

/// A string literal: quoted at both ends, its body unescaped.
pub open spec fn sp_string(raw: Seq<char>, span: Span) -> Result<ValueModel, ErrModel> {
    if raw.len() >= 2 && raw[0] == '"' && raw.last() == '"' {
        Ok(ValueModel::Str(unescape(raw.subrange(1, raw.len() - 1))))
    } else {
        Err(ErrModel { message: "unterminated string"@, span })
    }
}

fn parse_string(raw: &[char], span: Span) -> (r: Result<Value, ParseError>)
    ensures
        res_matches(r, sp_string(raw@, span)),
{
    if raw.len() >= 2 && raw[0] == '"' && raw[raw.len() - 1] == '"' {
        let inner = slice_of(raw, 1, raw.len() - 1);
        let body = unescape_chars(inner.as_slice());
        Ok(Value::String(string_from(body.as_slice())))
    } else {
        let m = to_chars("unterminated string");
        Err(ParseError::Generic { message: string_from(m.as_slice()), span })
    }
}

// ── Numbers ─────────────────────────────────────────────────────────────────

/// `s` with every `_` removed.
pub open spec fn drop_underscores(s: Seq<char>) -> Seq<char>
    decreases s.len(),
{
    if s.len() == 0 {
        Seq::empty()
    } else if s.last() == '_' {
        drop_underscores(s.drop_last())
    } else {
        drop_underscores(s.drop_last()).push(s.last())
    }
}

fn without_underscores(s: &[char]) -> (r: Vec<char>)
    ensures
        r@ == drop_underscores(s@),
{
    let mut out: Vec<char> = Vec::new();
    let mut i: usize = 0;
    while i < s.len()
        invariant
            i <= s@.len(),
            out@ == drop_underscores(s@.take(i as int)),
        decreases s@.len() - i,
    {
        assert(s@.take(i + 1).drop_last() =~= s@.take(i as int));
        if s[i] != '_' {
            out.push(s[i]);
        }
        i = i + 1;
    }
    assert(s@.take(i as int) =~= s@);
    out
}

fn has_char(s: &[char], c: char) -> (r: bool)
    ensures
        r == s@.contains(c),
{
    let mut i: usize = 0;
    while i < s.len()
        invariant
            i <= s@.len(),
            forall|j: int| 0 <= j < i ==> s@[j] != c,
        decreases s@.len() - i,
    {
        if s[i] == c {
            assert(s@[i as int] == c);
            return true;
        }
        i = i + 1;
    }
    false
}

/// `s` begins with `0` and then `lower` or `upper`.
pub open spec fn radix_prefix(s: Seq<char>, lower: char, upper: char) -> bool {
    s.len() >= 2 && s[0] == '0' && (s[1] == lower || s[1] == upper)
}

/// An integer read in `radix`, times `sign` (wrapping).
pub open spec fn signed_int(sign: i64, digits: Seq<char>, radix: int) -> Option<ValueModel> {
    match parse_int(digits, radix) {
        Some(n) => Some(ValueModel::Integer(vstd::wrapping::i64_specs::wrapping_mul(sign, n))),
        None => None,
    }
}

/// A number literal: an optional `-`, then (with every `_` removed) a
/// `0x`/`0o`/`0b` integer, a float when a `.`, `e` or `E` occurs, and a
/// decimal integer otherwise.
pub open spec fn sp_number<H: Fn(HostQuery) -> HostReply>(h: H, raw: Seq<char>) -> Option<ValueModel> {
    let neg = raw.len() > 0 && raw[0] == '-';
    let rest = if neg {
        raw.skip(1)
    } else {
        raw
    };
    let sign: i64 = if neg {
        -1i64
    } else {
        1i64
    };
    let cl = drop_underscores(rest);
    if radix_prefix(cl, 'x', 'X') {
        signed_int(sign, cl.skip(2), 16)
    } else if radix_prefix(cl, 'o', 'O') {
        signed_int(sign, cl.skip(2), 8)
    } else if radix_prefix(cl, 'b', 'B') {
        signed_int(sign, cl.skip(2), 2)
    } else if cl.contains('.') || cl.contains('e') || cl.contains('E') {
        match float_parse(h, cl) {
            Some(f) => Some(
                ValueModel::Float(float_arith(h, FloatOp::Mul, float_from_int(h, sign), f)),
            ),
            None => None,
        }
    } else {
        signed_int(sign, cl, 10)
    }
}

pub open spec fn opt_model(o: Option<Value>) -> Option<ValueModel> {
    match o {
        Some(v) => Some(v.model()),
        None => None,
    }
}

fn read_int(sign: i64, digits: &[char], radix: u64) -> (r: Option<Value>)
    requires
        2 <= radix <= 36,
    ensures
        opt_model(r) == signed_int(sign, digits@, radix as int),
{
    match parse_i64_radix(digits, radix) {
        Some(n) => Some(Value::Integer(sign.wrapping_mul(n))),
        None => None,
    }
}

fn parse_number<H: Fn(HostQuery) -> HostReply>(h: &H, raw: &[char]) -> (r: Option<Value>)
    requires
        host_ok(*h),
    ensures
        opt_model(r) == sp_number(*h, raw@),
{
    let neg = raw.len() > 0 && raw[0] == '-';
    let rest = if neg {
        slice_of(raw, 1, raw.len())
    } else {
        slice_of(raw, 0, raw.len())
    };
    assert(raw@.subrange(0, raw@.len() as int) =~= raw@);
    assert(raw@.len() > 0 ==> raw@.subrange(1, raw@.len() as int) =~= raw@.skip(1));
    let sign: i64 = if neg {
        -1
    } else {
        1
    };
    let cl = without_underscores(rest.as_slice());
    let n = cl.len();
    if n >= 2 && cl[0] == '0' && (cl[1] == 'x' || cl[1] == 'X') {
        let ds = slice_of(cl.as_slice(), 2, n);
        assert(ds@ =~= cl@.skip(2));
        return read_int(sign, ds.as_slice(), 16);
    }
    if n >= 2 && cl[0] == '0' && (cl[1] == 'o' || cl[1] == 'O') {
        let ds = slice_of(cl.as_slice(), 2, n);
        assert(ds@ =~= cl@.skip(2));
        return read_int(sign, ds.as_slice(), 8);
    }
    if n >= 2 && cl[0] == '0' && (cl[1] == 'b' || cl[1] == 'B') {
        let ds = slice_of(cl.as_slice(), 2, n);
        assert(ds@ =~= cl@.skip(2));
        return read_int(sign, ds.as_slice(), 2);
    }
    if has_char(cl.as_slice(), '.') || has_char(cl.as_slice(), 'e') || has_char(cl.as_slice(), 'E') {
        match host_parse_float(h, cl.as_slice()) {
            Some(f) => {
                let s = host_from_int(h, sign);
                Some(Value::Float(host_arith(h, FloatOp::Mul, s, f)))
            },
            None => None,
        }
    } else {
        read_int(sign, cl.as_slice(), 10)
    }
}

// ── Operators ───────────────────────────────────────────────────────────────

/// How an operand reads inside a string concatenation.
pub open spec fn stringify<H: Fn(HostQuery) -> HostReply>(h: H, v: ValueModel) -> Seq<char> {
    match v {
        ValueModel::Str(s) => s,
        ValueModel::Integer(n) => int_text(n as int),
        ValueModel::Float(f) => float_display(h, f),
        ValueModel::Bool(b) => if b {
            "true"@
        } else {
            "false"@
        },
        ValueModel::Null => "null"@,
        _ => debug_text(h, v),
    }
}

fn stringify_value<H: Fn(HostQuery) -> HostReply>(h: &H, v: &Value) -> (r: Vec<char>)
    requires
        host_ok(*h),
    ensures
        r@ == stringify(*h, v.model()),
{
    match v {
        Value::String(s) => chars_of(s),
        Value::Integer(n) => int_to_text(*n),
        Value::Float(f) => host_display(h, *f),
        Value::Bool(b) => if *b {
            to_chars("true")
        } else {
            to_chars("false")
        },
        Value::Null => to_chars("null"),
        _ => host_debug(h, clone_value(v)),
    }
}

/// The error for operands an operator does not take.
pub open spec fn binop_err(op: char, at: usize) -> ErrModel {
    ErrModel {
        message: "invalid operands for `"@ + seq![op] + "`"@,
        span: span_at(at, cw(op) as usize),
    }
}

fn binop_error(op: char, at: usize) -> (e: ParseError)
    ensures
        err_model(e) == binop_err(op, at),
{
    let mut m = to_chars("invalid operands for `");
    let ghost head = m@;
    m.push(op);
    assert(m@ =~= head + seq![op]);
    push_lit(&mut m, "`");
    let w = char_width(op);
    error_at(m, at, w)
}

pub open spec fn int_op(op: FloatOp, a: i64, b: i64) -> i64 {
    match op {
        FloatOp::Add => vstd::wrapping::i64_specs::wrapping_add(a, b),
        FloatOp::Sub => vstd::wrapping::i64_specs::wrapping_sub(a, b),
        _ => vstd::wrapping::i64_specs::wrapping_mul(a, b),
    }
}

/// `+`, `-` or `*` on numbers: integers stay integers (wrapping), and a
/// float on either side makes the result a float.
pub open spec fn sp_num_op<H: Fn(HostQuery) -> HostReply>(
    h: H,
    op: FloatOp,
    opc: char,
    l: ValueModel,
    r: ValueModel,
    at: usize,
) -> Result<ValueModel, ErrModel> {
    match (l, r) {
        (ValueModel::Integer(a), ValueModel::Integer(b)) => Ok(ValueModel::Integer(int_op(op, a, b))),
        (ValueModel::Float(a), ValueModel::Float(b)) => Ok(ValueModel::Float(float_arith(h, op, a, b))),
        (ValueModel::Integer(a), ValueModel::Float(b)) => Ok(
            ValueModel::Float(float_arith(h, op, float_from_int(h, a), b)),
        ),
        (ValueModel::Float(a), ValueModel::Integer(b)) => Ok(
            ValueModel::Float(float_arith(h, op, a, float_from_int(h, b))),
        ),
        _ => Err(binop_err(opc, at)),
    }
}

/// `/` always gives a float; an integer divisor of zero is an error.
pub open spec fn sp_div<H: Fn(HostQuery) -> HostReply>(
    h: H,
    l: ValueModel,
    r: ValueModel,
    at: usize,
) -> Result<ValueModel, ErrModel> {
    match (l, r) {
        (ValueModel::Integer(a), ValueModel::Integer(b)) => if b != 0 {
            Ok(
                ValueModel::Float(
                    float_arith(h, FloatOp::Div, float_from_int(h, a), float_from_int(h, b)),
                ),
            )
        } else {
            Err(binop_err('/', at))
        },
        (ValueModel::Float(a), ValueModel::Float(b)) => Ok(
            ValueModel::Float(float_arith(h, FloatOp::Div, a, b)),
        ),
        (ValueModel::Integer(a), ValueModel::Float(b)) => Ok(
            ValueModel::Float(float_arith(h, FloatOp::Div, float_from_int(h, a), b)),
        ),
        (ValueModel::Float(a), ValueModel::Integer(b)) => if b != 0 {
            Ok(ValueModel::Float(float_arith(h, FloatOp::Div, a, float_from_int(h, b))))
        } else {
            Err(binop_err('/', at))
        },
        _ => Err(binop_err('/', at)),
    }
}

/// One binary operation; `+` concatenates when either side is a string.
pub open spec fn sp_binop<H: Fn(HostQuery) -> HostReply>(
    h: H,
    op: char,
    l: ValueModel,
    r: ValueModel,
    at: usize,
) -> Result<ValueModel, ErrModel> {
    if op == '+' {
        if l is Str || r is Str {
            Ok(ValueModel::Str(stringify(h, l) + stringify(h, r)))
        } else {
            sp_num_op(h, FloatOp::Add, op, l, r, at)
        }
    } else if op == '-' {
        sp_num_op(h, FloatOp::Sub, op, l, r, at)
    } else if op == '*' {
        sp_num_op(h, FloatOp::Mul, op, l, r, at)
    } else if op == '/' {
        sp_div(h, l, r, at)
    } else {
        Err(binop_err(op, at))
    }
}

fn num_op<H: Fn(HostQuery) -> HostReply>(
    h: &H,
    op: FloatOp,
    opc: char,
    lhs: Value,
    rhs: Value,
    at: usize,
) -> (r: Result<Value, ParseError>)
    requires
        host_ok(*h),
    ensures
        res_matches(r, sp_num_op(*h, op, opc, lhs.model(), rhs.model(), at)),
{
    match (lhs, rhs) {
        (Value::Integer(a), Value::Integer(b)) => {
            let v = match op {
                FloatOp::Add => a.wrapping_add(b),
                FloatOp::Sub => a.wrapping_sub(b),
                _ => a.wrapping_mul(b),
            };
            Ok(Value::Integer(v))
        },
        (Value::Float(a), Value::Float(b)) => Ok(Value::Float(host_arith(h, op, a, b))),
        (Value::Integer(a), Value::Float(b)) => {
            let fa = host_from_int(h, a);
            Ok(Value::Float(host_arith(h, op, fa, b)))
        },
        (Value::Float(a), Value::Integer(b)) => {
            let fb = host_from_int(h, b);
            Ok(Value::Float(host_arith(h, op, a, fb)))
        },
        _ => Err(binop_error(opc, at)),
    }
}

fn div_op<H: Fn(HostQuery) -> HostReply>(h: &H, lhs: Value, rhs: Value, at: usize) -> (r: Result<
    Value,
    ParseError,
>)
    requires
        host_ok(*h),
    ensures
        res_matches(r, sp_div(*h, lhs.model(), rhs.model(), at)),
{
    match (lhs, rhs) {
        (Value::Integer(a), Value::Integer(b)) => {
            if b != 0 {
                let fa = host_from_int(h, a);
                let fb = host_from_int(h, b);
                Ok(Value::Float(host_arith(h, FloatOp::Div, fa, fb)))
            } else {
                Err(binop_error('/', at))
            }
        },
        (Value::Float(a), Value::Float(b)) => Ok(Value::Float(host_arith(h, FloatOp::Div, a, b))),
        (Value::Integer(a), Value::Float(b)) => {
            let fa = host_from_int(h, a);
            Ok(Value::Float(host_arith(h, FloatOp::Div, fa, b)))
        },
        (Value::Float(a), Value::Integer(b)) => {
            if b != 0 {
                let fb = host_from_int(h, b);
                Ok(Value::Float(host_arith(h, FloatOp::Div, a, fb)))
            } else {
                Err(binop_error('/', at))
            }
        },
        _ => Err(binop_error('/', at)),
    }
}

/// `apply_binop(op, lhs, rhs, at)`: one step of the left-to-right fold.
fn apply_binop<H: Fn(HostQuery) -> HostReply>(
    h: &H,
    op: char,
    lhs: Value,
    rhs: Value,
    at: usize,
) -> (r: Result<Value, ParseError>)
    requires
        host_ok(*h),
    ensures
        res_matches(r, sp_binop(*h, op, lhs.model(), rhs.model(), at)),
{
    if op == '+' {
        let ls = match &lhs {
            Value::String(_) => true,
            _ => false,
        };
        let rs = match &rhs {
            Value::String(_) => true,
            _ => false,
        };
        if ls || rs {
            let mut s = stringify_value(h, &lhs);
            let t = stringify_value(h, &rhs);
            push_all(&mut s, t.as_slice());
            return Ok(Value::String(string_from(s.as_slice())));
        }
        num_op(h, FloatOp::Add, op, lhs, rhs, at)
    } else if op == '-' {
        num_op(h, FloatOp::Sub, op, lhs, rhs, at)
    } else if op == '*' {
        num_op(h, FloatOp::Mul, op, lhs, rhs, at)
    } else if op == '/' {
        div_op(h, lhs, rhs, at)
    } else {
        Err(binop_error(op, at))
    }
}

// ── Variable references ─────────────────────────────────────────────────────

#[derive(Debug, Clone, Copy, PartialEq, Eq, Structural)]
pub enum VarRefKind {
    User,
    Builtin,
    Env,
}

/// A `$variable` reference that was resolved.
#[derive(Debug)]
pub struct VarRef {
    pub name: String,
    pub kind: VarRefKind,
    pub span: Span,
}

pub struct RefModel {
    pub name: Seq<char>,
    pub kind: VarRefKind,
    pub span: Span,
}

impl VarRef {
    pub open spec fn model(self) -> RefModel {
        RefModel { name: self.name@, kind: self.kind, span: self.span }
    }
}

impl Clone for VarRef {
    fn clone(&self) -> (r: Self)
        ensures
            r.model() == self.model(),
    {
        VarRef { name: self.name.clone(), kind: self.kind, span: self.span }
    }
}

pub open spec fn refs_model(v: Seq<VarRef>) -> Seq<RefModel> {
    v.map_values(|r: VarRef| r.model())
}

// ── What a parse yields ─────────────────────────────────────────────────────

/// The inputs a parse reads: the variables, the environment, the host and
/// the builtin values.
pub struct Ctx<E, H> {
    pub vars: Seq<(Seq<char>, ValueModel)>,
    pub env: E,
    pub host: H,
    pub builtins: Builtins,
}

/// A value or an error, and the references resolved on the way (those
/// resolved before an error are kept).
pub struct Outcome {
    pub result: Result<ValueModel, ErrModel>,
    pub refs: Seq<RefModel>,
}

pub open spec fn ok_out(v: ValueModel) -> Outcome {
    Outcome { result: Ok(v), refs: Seq::empty() }
}

pub open spec fn err_out(message: Seq<char>, span: Span) -> Outcome {
    Outcome { result: Err(ErrModel { message, span }), refs: Seq::empty() }
}

/// Value of a builtin variable name.
pub open spec fn builtin_model(b: Builtins, name: Seq<char>) -> Option<ValueModel> {
    if name == "TRUE"@ {
        Some(ValueModel::Bool(true))
    } else if name == "FALSE"@ {
        Some(ValueModel::Bool(false))
    } else if name == "NULL"@ {
        Some(ValueModel::Null)
    } else if name == "NOW"@ {
        Some(ValueModel::Str(b.now@))
    } else if name == "TODAY"@ {
        Some(ValueModel::Str(b.today@))
    } else if name == "PLATFORM"@ {
        Some(ValueModel::Str(b.platform@))
    } else if name == "PID"@ {
        Some(ValueModel::Integer(b.pid))
    } else if name == "HOSTNAME"@ {
        Some(ValueModel::Str(b.hostname@))
    } else if name == "CWD"@ {
        Some(ValueModel::Str(b.cwd@))
    } else {
        None
    }
}

/// `$ENV.X` reads the environment (`null` when unset); otherwise a builtin,
/// then a user variable; anything else is undefined.
pub open spec fn sp_variable<E: Fn(&str) -> Option<String>, H>(
    c: Ctx<E, H>,
    raw: Seq<char>,
    abs: usize,
) -> Outcome {
    let name = raw.skip(1);
    let sp = span_at(abs, wblen(raw));
    if name.len() >= 4 && name.take(4) == seq!['E', 'N', 'V', '.'] {
        let key = name.skip(4);
        Outcome {
            result: Ok(
                match env_reply(c.env, key) {
                    Some(v) => ValueModel::Str(v),
                    None => ValueModel::Null,
                },
            ),
            refs: seq![RefModel { name: key, kind: VarRefKind::Env, span: sp }],
        }
    } else {
        match builtin_model(c.builtins, name) {
            Some(v) => Outcome {
                result: Ok(v),
                refs: seq![RefModel { name, kind: VarRefKind::Builtin, span: sp }],
            },
            None => match dict_get(c.vars, name) {
                Some(v) => Outcome {
                    result: Ok(v),
                    refs: seq![RefModel { name, kind: VarRefKind::User, span: sp }],
                },
                None => err_out("undefined variable `$"@ + name + "`"@, sp),
            },
        }
    }
}

/// A dict key: a key in double quotes loses them.
pub open spec fn dict_key(k: Seq<char>) -> Seq<char> {
    if k.len() >= 2 && k[0] == '"' && k.last() == '"' {
        k.subrange(1, k.len() - 1)
    } else {
        k
    }
}

pub proof fn lemma_weight_all_ascii(s: Seq<char>)
    requires
        forall|j: int| 0 <= j < s.len() ==> (#[trigger] s[j] as u32) < 0x80,
    ensures
        weight(s) == s.len(),
    decreases s.len(),
{
    if s.len() > 0 {
        lemma_weight_all_ascii(s.drop_last());
    }
}

/// Around a `??` at character `k`: both sides weigh no more than the whole,
/// the right side strictly less.
pub proof fn lemma_fallback_split(raw: Seq<char>, k: int)
    requires
        find_op(raw, seq!['?', '?']) == Some(k),
    ensures
        0 <= k,
        k + 2 <= raw.len(),
        weight(trim(raw.take(k))) <= weight(raw),
        weight(trim(raw.skip(k + 2))) < weight(raw),
{
    lemma_find_op_from_bound(raw, seq!['?', '?'], 0, 0, false, false);
    lemma_weight_subrange(raw, k, k + 2);
    lemma_weight_all_ascii(raw.subrange(k, k + 2));
    lemma_weight_trim(raw.take(k));
    lemma_weight_trim(raw.skip(k + 2));
}

/// Stripping `n` ASCII characters from each end takes `2 * n` off the weight.
pub proof fn lemma_weight_strip(raw: Seq<char>, n: int)
    requires
        0 <= n,
        2 * n <= raw.len(),
        forall|j: int| 0 <= j < n ==> (#[trigger] raw[j] as u32) < 0x80,
        forall|j: int| raw.len() - n <= j < raw.len() ==> (#[trigger] raw[j] as u32) < 0x80,
    ensures
        weight(raw.subrange(n, raw.len() - n)) + 2 * n == weight(raw),
{
    lemma_weight_subrange(raw, n, raw.len() - n);
    let a = raw.take(n);
    let b = raw.skip(raw.len() - n);
    assert forall|j: int| 0 <= j < a.len() implies (#[trigger] a[j] as u32) < 0x80 by {
        assert(a[j] == raw[j]);
    }
    assert forall|j: int| 0 <= j < b.len() implies (#[trigger] b[j] as u32) < 0x80 by {
        assert(b[j] == raw[raw.len() - n + j]);
    }
    lemma_weight_all_ascii(a);
    lemma_weight_all_ascii(b);
}

/// `expr ::= arith ( "??" expr )?`: the right side is read only when the
/// left side is `null`.
pub open spec fn sp_expr<E: Fn(&str) -> Option<String>, H: Fn(HostQuery) -> HostReply>(
    c: Ctx<E, H>,
    raw: Seq<char>,
    abs: usize,
) -> Outcome
    decreases weight(raw) as int, 5int, 0int,
{
    match find_op(raw, seq!['?', '?']) {
        Some(k) => {
            proof {
                lemma_fallback_split(raw, k);
            }
            let lhs = sp_arith(c, trim(raw.take(k)), wadd(abs, lead_bytes(raw.take(k))));
            match lhs.result {
                Ok(ValueModel::Null) => {
                    let rhs = sp_expr(
                        c,
                        trim(raw.skip(k + 2)),
                        wadd(wadd(wadd(abs, wblen(raw.take(k))), 2), lead_bytes(raw.skip(k + 2))),
                    );
                    Outcome { result: rhs.result, refs: lhs.refs + rhs.refs }
                },
                _ => lhs,
            }
        },
        None => sp_arith(c, raw, abs),
    }
}

/// `arith ::= atom (op atom)*`, folded left to right.
pub open spec fn sp_arith<E: Fn(&str) -> Option<String>, H: Fn(HostQuery) -> HostReply>(
    c: Ctx<E, H>,
    raw: Seq<char>,
    abs: usize,
) -> Outcome
    decreases weight(raw) as int, 4int, 0int,
{
    let toks = arith_tokens(raw, abs);
    if toks.len() == 0 {
        err_out("empty value"@, span_at(abs, 0))
    } else {
        proof {
            lemma_arith_from_shape(raw, abs, 0, 0, false, true, Seq::<char>::empty(), abs);
        }
        let first = sp_atom(c, toks[0].0, toks[0].1);
        match first.result {
            Ok(v) => sp_fold(c, raw, abs, 1, v, first.refs),
            Err(_) => first,
        }
    }
}

/// The fold from token `i` on, with the value `acc` so far.
pub open spec fn sp_fold<E: Fn(&str) -> Option<String>, H: Fn(HostQuery) -> HostReply>(
    c: Ctx<E, H>,
    raw: Seq<char>,
    abs: usize,
    i: int,
    acc: ValueModel,
    refs: Seq<RefModel>,
) -> Outcome
    decreases weight(raw) as int, 3int, arith_tokens(raw, abs).len() - i,
{
    let toks = arith_tokens(raw, abs);
    if i < 0 || i + 1 >= toks.len() {
        Outcome { result: Ok(acc), refs }
    } else {
        proof {
            lemma_arith_from_shape(raw, abs, 0, 0, false, true, Seq::<char>::empty(), abs);
        }
        let a = sp_atom(c, toks[i + 1].0, toks[i + 1].1);
        let refs2 = refs + a.refs;
        match a.result {
            Err(e) => Outcome { result: Err(e), refs: refs2 },
            Ok(rv) => match sp_binop(c.host, toks[i].0[0], acc, rv, toks[i].1) {
                Err(e) => Outcome { result: Err(e), refs: refs2 },
                Ok(v) => sp_fold(c, raw, abs, i + 2, v, refs2),
            },
        }
    }
}

/// One operand.
pub open spec fn sp_atom<E: Fn(&str) -> Option<String>, H: Fn(HostQuery) -> HostReply>(
    c: Ctx<E, H>,
    raw0: Seq<char>,
    abs: usize,
) -> Outcome
    decreases weight(raw0) as int, 2int, 0int,
{
    let raw = trim(raw0);
    let sp = span_at(abs, wblen(raw));
    proof {
        lemma_weight_trim(raw0);
    }
    if raw.len() > 0 && raw[0] == '$' {
        sp_variable(c, raw, abs)
    } else if raw.len() > 0 && raw[0] == '"' {
        Outcome { result: sp_string(raw, sp), refs: Seq::empty() }
    } else if raw == "true"@ {
        ok_out(ValueModel::Bool(true))
    } else if raw == "false"@ {
        ok_out(ValueModel::Bool(false))
    } else if raw == "null"@ {
        ok_out(ValueModel::Null)
    } else if raw.len() >= 2 && raw[0] == '#' && raw[1] == '{' {
        sp_dict(c, raw, abs)
    } else if raw.len() > 0 && raw[0] == '[' {
        sp_array(c, raw, abs)
    } else {
        match sp_number(c.host, raw) {
            Some(v) => ok_out(v),
            None => err_out("cannot parse value: `"@ + raw + "`"@, sp),
        }
    }
}

/// `[ item, item, … ]`; empty items are skipped.
pub open spec fn sp_array<E: Fn(&str) -> Option<String>, H: Fn(HostQuery) -> HostReply>(
    c: Ctx<E, H>,
    raw: Seq<char>,
    abs: usize,
) -> Outcome
    decreases weight(raw) as int, 1int, 0int,
{
    if raw.len() > 0 && raw[0] == '[' && raw.last() == ']' {
        proof {
            lemma_weight_strip(raw, 1);
        }
        sp_items(c, raw.subrange(1, raw.len() - 1), wadd(abs, 1), 0, Seq::empty(), Seq::empty())
    } else {
        err_out("malformed array"@, span_at(abs, wblen(raw)))
    }
}

/// The array items from piece `k` on.
pub open spec fn sp_items<E: Fn(&str) -> Option<String>, H: Fn(HostQuery) -> HostReply>(
    c: Ctx<E, H>,
    inner: Seq<char>,
    istart: usize,
    k: int,
    items: Seq<ValueModel>,
    refs: Seq<RefModel>,
) -> Outcome
    decreases weight(inner) + 1, 0int, split_top(inner, ',', istart).len() - k,
{
    let ps = split_top(inner, ',', istart);
    if k < 0 || k >= ps.len() {
        Outcome { result: Ok(ValueModel::Array(items)), refs }
    } else {
        let part = ps[k].0;
        let t = trim(part);
        if t.len() == 0 {
            sp_items(c, inner, istart, k + 1, items, refs)
        } else {
            proof {
                lemma_split_from_weight(inner, ',', istart, 0, 0, false, false, 0, istart);
                lemma_weight_trim(part);
            }
            let r = sp_expr(c, t, wadd(ps[k].1, lead_bytes(part)));
            let refs2 = refs + r.refs;
            match r.result {
                Err(e) => Outcome { result: Err(e), refs: refs2 },
                Ok(v) => sp_items(c, inner, istart, k + 1, items.push(v), refs2),
            }
        }
    }
}

/// `#{ key = value, … }#`; empty entries are skipped, a later key replaces
/// an earlier one.
pub open spec fn sp_dict<E: Fn(&str) -> Option<String>, H: Fn(HostQuery) -> HostReply>(
    c: Ctx<E, H>,
    raw: Seq<char>,
    abs: usize,
) -> Outcome
    decreases weight(raw) as int, 1int, 0int,
{
    if raw.len() >= 2 && raw[0] == '#' && raw[1] == '{' && raw[raw.len() - 2] == '}' && raw.last()
        == '#' {
        proof {
            lemma_weight_strip(raw, 2);
        }
        sp_entries(c, raw.subrange(2, raw.len() - 2), wadd(abs, 2), 0, Seq::empty(), Seq::empty())
    } else {
        err_out("malformed inline dict"@, span_at(abs, wblen(raw)))
    }
}

/// The dict entries from piece `k` on.
pub open spec fn sp_entries<E: Fn(&str) -> Option<String>, H: Fn(HostQuery) -> HostReply>(
    c: Ctx<E, H>,
    inner: Seq<char>,
    istart: usize,
    k: int,
    map: Seq<(Seq<char>, ValueModel)>,
    refs: Seq<RefModel>,
) -> Outcome
    decreases weight(inner) + 1, 0int, split_top(inner, ',', istart).len() - k,
{
    let ps = split_top(inner, ',', istart);
    if k < 0 || k >= ps.len() {
        Outcome { result: Ok(ValueModel::Dict(map)), refs }
    } else {
        let part = ps[k].0;
        let off = ps[k].1;
        let t = trim(part);
        if t.len() == 0 {
            sp_entries(c, inner, istart, k + 1, map, refs)
        } else {
            match find_op(t, seq!['=']) {
                None => Outcome {
                    result: Err(
                        ErrModel {
                            message: "inline dict entry missing `=`: `"@ + t + "`"@,
                            span: span_at(off, wblen(t)),
                        },
                    ),
                    refs,
                },
                Some(q) => {
                    proof {
                        lemma_split_from_weight(inner, ',', istart, 0, 0, false, false, 0, istart);
                        lemma_weight_trim(part);
                        lemma_find_op_from_bound(t, seq!['='], 0, 0, false, false);
                        lemma_weight_subrange(t, q + 1, q + 1);
                        lemma_weight_trim(t.skip(q + 1));
                    }
                    let key = dict_key(trim(t.take(q)));
                    let voff = wadd(
                        wadd(wadd(wadd(off, lead_bytes(part)), wblen(t.take(q))), 1),
                        lead_bytes(t.skip(q + 1)),
                    );
                    let r = sp_expr(c, trim(t.skip(q + 1)), voff);
                    let refs2 = refs + r.refs;
                    match r.result {
                        Err(e) => Outcome { result: Err(e), refs: refs2 },
                        Ok(v) => sp_entries(c, inner, istart, k + 1, dict_put(map, key, v), refs2),
                    }
                },
            }
        }
    }
}

/// What `ValueParser::parse` yields for `input` at `origin`.
pub open spec fn sp_parse<E: Fn(&str) -> Option<String>, H: Fn(HostQuery) -> HostReply>(
    c: Ctx<E, H>,
    origin: Span,
    input: Seq<char>,
) -> Outcome {
    sp_expr(c, trim(input), wadd(origin.start, lead_bytes(input)))
}

// ── The parser ──────────────────────────────────────────────────────────────

pub open spec fn values_model(v: Seq<Value>) -> Seq<ValueModel> {
    Seq::new(v.len(), |i: int| v[i].model())
}

proof fn lemma_array_model(v: Vec<Value>)
    ensures
        Value::Array(v).model() == ValueModel::Array(values_model(v@)),
{
    let m = Value::Array(v).model();
    assert(m is Array);
    let s = m->Array_0;
    assert(s.len() == v@.len());
    assert forall|i: int| 0 <= i < s.len() implies s[i] == v@[i].model() by {}
    assert(s =~= values_model(v@));
}

pub struct ValueParser<'a, E, H> {
    /// User variables (`[vars]` entries defined so far).
    pub vars: &'a Dict,
    /// Read-back of `$ENV.X` references.
    pub env: &'a E,
    /// Floating-point host.
    pub host: &'a H,
    /// Values of the builtin variables.
    pub builtins: &'a Builtins,
    /// Span of the whole right-hand side; local offsets are added to its start.
    pub origin: Span,
    /// Every `$variable` reference resolved so far.
    pub var_refs: Vec<VarRef>,
}

impl<'a, E: Fn(&str) -> Option<String>, H: Fn(HostQuery) -> HostReply> ValueParser<'a, E, H> {
    pub open spec fn ctx(self) -> Ctx<E, H> {
        Ctx { vars: self.vars.model(), env: *self.env, host: *self.host, builtins: *self.builtins }
    }

    /// The environment and the host answer consistently.
    pub open spec fn ready(self) -> bool {
        env_ok(*self.env) && host_ok(*self.host)
    }

    /// Everything but the recorded references is the same.
    pub open spec fn same_inputs(self, other: Self) -> bool {
        &&& self.vars == other.vars
        &&& self.env == other.env
        &&& self.host == other.host
        &&& self.builtins == other.builtins
        &&& self.origin == other.origin
    }

    pub fn new(vars: &'a Dict, env: &'a E, host: &'a H, builtins: &'a Builtins, origin: Span) -> (p:
        Self)
        ensures
            p.vars == vars,
            p.env == env,
            p.host == host,
            p.builtins == builtins,
            p.origin == origin,
            p.var_refs@.len() == 0,
    {
        ValueParser { vars, env, host, builtins, origin, var_refs: Vec::new() }
    }

    /// Parses the right-hand side `input`; its spans start at
    /// `origin.start` plus the leading whitespace.
    pub fn parse(&mut self, input: &str) -> (r: Result<Value, ParseError>)
        requires
            old(self).ready(),
        ensures
            final(self).same_inputs(*old(self)),
            refs_model(final(self).var_refs@) == refs_model(old(self).var_refs@) + sp_parse(
                old(self).ctx(),
                old(self).origin,
                input@,
            ).refs,
            res_matches(r, sp_parse(old(self).ctx(), old(self).origin, input@).result),
    {
        let chars = to_chars(input);
        let t = trimmed(chars.as_slice());
        let off = self.origin.start.wrapping_add(leading_ws_bytes(chars.as_slice()));
        self.expr(t.as_slice(), off)
    }

    fn record(&mut self, name: &[char], kind: VarRefKind, span: Span)
        ensures
            final(self).same_inputs(*old(self)),
            refs_model(final(self).var_refs@) == refs_model(old(self).var_refs@) + seq![
                RefModel { name: name@, kind, span },
            ],
    {
        let ghost before = self.var_refs@;
        self.var_refs.push(VarRef { name: string_from(name), kind, span });
        assert(refs_model(self.var_refs@) =~= refs_model(before) + seq![
            RefModel { name: name@, kind, span },
        ]);
    }

    #[verifier::rlimit(50)]
    fn expr(&mut self, raw: &[char], abs: usize) -> (r: Result<Value, ParseError>)
        requires
            old(self).ready(),
        ensures
            final(self).same_inputs(*old(self)),
            refs_model(final(self).var_refs@) == refs_model(old(self).var_refs@) + sp_expr(
                old(self).ctx(),
                raw@,
                abs,
            ).refs,
            res_matches(r, sp_expr(old(self).ctx(), raw@, abs).result),
        decreases weight(raw@) as int, 5int, 0int,
    {
        let mut op: Vec<char> = Vec::new();
        op.push('?');
        op.push('?');
        assert(op@ =~= seq!['?', '?']);
        match find_op_top_level(raw, op.as_slice()) {
            Some(k) => {
                proof {
                    lemma_fallback_split(raw@, k as int);
                }
                let n = raw.len();
                assert(k + 2 <= n);
                let lpart = slice_of(raw, 0, k);
                let rpart = slice_of(raw, k + 2, n);
                assert(lpart@ =~= raw@.take(k as int));
                assert(rpart@ =~= raw@.skip(k + 2));
                let ltrim = trimmed(lpart.as_slice());
                let rtrim = trimmed(rpart.as_slice());
                let lhs_off = abs.wrapping_add(leading_ws_bytes(lpart.as_slice()));
                let bidx = wbyte_len(lpart.as_slice());
                let rhs_off = abs.wrapping_add(bidx).wrapping_add(2).wrapping_add(
                    leading_ws_bytes(rpart.as_slice()),
                );
                let ghost mid_refs = refs_model(old(self).var_refs@);
                let lhs = self.arith(ltrim.as_slice(), lhs_off);
                match lhs {
                    Err(e) => Err(e),
                    Ok(v) => {
                        let is_null = match &v {
                            Value::Null => true,
                            _ => false,
                        };
                        if !is_null {
                            Ok(v)
                        } else {
                            let ghost lrefs = refs_model(self.var_refs@);
                            let r = self.expr(rtrim.as_slice(), rhs_off);
                            proof {
                                let c = old(self).ctx();
                                let lo = sp_arith(c, trim(raw@.take(k as int)), wadd(abs, lead_bytes(raw@.take(k as int))));
                                assert(lrefs == mid_refs + lo.refs);
                                assert(refs_model(self.var_refs@) =~= mid_refs + (lo.refs + sp_expr(
                                    c,
                                    trim(raw@.skip(k + 2)),
                                    rhs_off,
                                ).refs));
                            }
                            r
                        }
                    },
                }
            },
            None => self.arith(raw, abs),
        }
    }

    #[verifier::rlimit(60)]
    fn arith(&mut self, raw: &[char], abs: usize) -> (r: Result<Value, ParseError>)
        requires
            old(self).ready(),
        ensures
            final(self).same_inputs(*old(self)),
            refs_model(final(self).var_refs@) == refs_model(old(self).var_refs@) + sp_arith(
                old(self).ctx(),
                raw@,
                abs,
            ).refs,
            res_matches(r, sp_arith(old(self).ctx(), raw@, abs).result),
        decreases weight(raw@) as int, 4int, 0int,
    {
        let ghost c = old(self).ctx();
        let ghost r0 = refs_model(old(self).var_refs@);
        let toks = tokenize_arith(raw, abs);
        let ghost tm = arith_tokens(raw@, abs);
        proof {
            lemma_arith_from_shape(raw@, abs, 0, 0, false, true, Seq::<char>::empty(), abs);
        }
        if toks.len() == 0 {
            let m = to_chars("empty value");
            assert(r0 + Seq::<RefModel>::empty() =~= r0);
            return Err(error_at(m, abs, 0));
        }
        let first = self.atom(toks[0].0.as_slice(), toks[0].1);
        let mut result = match first {
            Err(e) => return Err(e),
            Ok(v) => v,
        };
        let ghost mut acc_refs: Seq<RefModel> = sp_atom(c, tm[0].0, tm[0].1).refs;
        let mut i: usize = 1;
        while i < toks.len() && i + 1 < toks.len()
            invariant
                self.ready(),
                self.same_inputs(*old(self)),
                c == old(self).ctx(),
                r0 == refs_model(old(self).var_refs@),
                tm == arith_tokens(raw@, abs),
                pieces_match(toks@, tm),
                pieces_light(tm, weight(raw@)),
                pieces_nonempty(tm),
                1 <= i,
                refs_model(self.var_refs@) == r0 + acc_refs,
                sp_fold(c, raw@, abs, i as int, result.model(), acc_refs) == sp_arith(c, raw@, abs),
            decreases toks.len() - i,
        {
            assert(tm[i as int].0.len() > 0);
            let op = toks[i].0[0];
            let ghost before = refs_model(self.var_refs@);
            let rhs = self.atom(toks[i + 1].0.as_slice(), toks[i + 1].1);
            let ghost arefs = sp_atom(c, tm[i + 1].0, tm[i + 1].1).refs;
            proof {
                assert(refs_model(self.var_refs@) =~= r0 + (acc_refs + arefs));
            }
            let rv = match rhs {
                Err(e) => return Err(e),
                Ok(v) => v,
            };
            proof {
                acc_refs = acc_refs + arefs;
            }
            result = match apply_binop(self.host, op, result, rv, toks[i].1) {
                Err(e) => return Err(e),
                Ok(v) => v,
            };
            i = i + 2;
        }
        Ok(result)
    }

    #[verifier::rlimit(50)]
    fn atom(&mut self, raw0: &[char], abs: usize) -> (r: Result<Value, ParseError>)
        requires
            old(self).ready(),
        ensures
            final(self).same_inputs(*old(self)),
            refs_model(final(self).var_refs@) == refs_model(old(self).var_refs@) + sp_atom(
                old(self).ctx(),
                raw0@,
                abs,
            ).refs,
            res_matches(r, sp_atom(old(self).ctx(), raw0@, abs).result),
        decreases weight(raw0@) as int, 2int, 0int,
    {
        let ghost r0 = refs_model(old(self).var_refs@);
        assert(r0 + Seq::<RefModel>::empty() =~= r0);
        let raw = trimmed(raw0);
        proof {
            lemma_weight_trim(raw0@);
        }
        let n = raw.len();
        let blen = wbyte_len(raw.as_slice());
        if n > 0 && raw[0] == '$' {
            return self.variable(raw.as_slice(), abs);
        }
        if n > 0 && raw[0] == '"' {
            return parse_string(raw.as_slice(), Span::new(abs, abs.wrapping_add(blen)));
        }
        if eq_lit(raw.as_slice(), "true") {
            return Ok(Value::Bool(true));
        }
        if eq_lit(raw.as_slice(), "false") {
            return Ok(Value::Bool(false));
        }
        if eq_lit(raw.as_slice(), "null") {
            return Ok(Value::Null);
        }
        if n >= 2 && raw[0] == '#' && raw[1] == '{' {
            return self.inline_dict(raw.as_slice(), abs);
        }
        if n > 0 && raw[0] == '[' {
            return self.array(raw.as_slice(), abs);
        }
        match parse_number(self.host, raw.as_slice()) {
            Some(v) => Ok(v),
            None => {
                let mut m = to_chars("cannot parse value: `");
                push_all(&mut m, raw.as_slice());
                push_lit(&mut m, "`");
                Err(error_at(m, abs, blen))
            },
        }
    }

    #[verifier::rlimit(50)]
    fn variable(&mut self, raw: &[char], abs: usize) -> (r: Result<Value, ParseError>)
        requires
            old(self).ready(),
            raw@.len() > 0,
        ensures
            final(self).same_inputs(*old(self)),
            refs_model(final(self).var_refs@) == refs_model(old(self).var_refs@) + sp_variable(
                old(self).ctx(),
                raw@,
                abs,
            ).refs,
            res_matches(r, sp_variable(old(self).ctx(), raw@, abs).result),
    {
        let ghost r0 = refs_model(old(self).var_refs@);
        assert(r0 + Seq::<RefModel>::empty() =~= r0);
        let name = slice_of(raw, 1, raw.len());
        assert(name@ =~= raw@.skip(1));
        let blen = wbyte_len(raw);
        let sp = Span::new(abs, abs.wrapping_add(blen));
        let is_env = starts_with_lit(name.as_slice(), "ENV.");
        proof {
            reveal_strlit("ENV.");
            assert("ENV."@ =~= seq!['E', 'N', 'V', '.']);
        }
        if is_env {
            let key = slice_of(name.as_slice(), 4, name.len());
            assert(key@ =~= name@.skip(4));
            self.record(key.as_slice(), VarRefKind::Env, sp);
            return match ask_env(self.env, key.as_slice()) {
                Some(v) => Ok(Value::String(v)),
                None => Ok(Value::Null),
            };
        }
        match builtin_value(self.builtins, name.as_slice()) {
            Some(v) => {
                self.record(name.as_slice(), VarRefKind::Builtin, sp);
                return Ok(v);
            },
            None => {},
        }
        match self.vars.find(name.as_slice()) {
            Some(i) => {
                let v = clone_value(self.vars.value_at(i));
                self.record(name.as_slice(), VarRefKind::User, sp);
                Ok(v)
            },
            None => {
                let mut m = to_chars("undefined variable `$");
                push_all(&mut m, name.as_slice());
                push_lit(&mut m, "`");
                Err(error_at(m, abs, blen))
            },
        }
    }

    #[verifier::rlimit(50)]
    fn array(&mut self, raw: &[char], abs: usize) -> (r: Result<Value, ParseError>)
        requires
            old(self).ready(),
        ensures
            final(self).same_inputs(*old(self)),
            refs_model(final(self).var_refs@) == refs_model(old(self).var_refs@) + sp_array(
                old(self).ctx(),
                raw@,
                abs,
            ).refs,
            res_matches(r, sp_array(old(self).ctx(), raw@, abs).result),
        decreases weight(raw@) as int, 1int, 0int,
    {
        let ghost c = old(self).ctx();
        let ghost r0 = refs_model(old(self).var_refs@);
        assert(r0 + Seq::<RefModel>::empty() =~= r0);
        let n = raw.len();
        if !(n > 0 && raw[0] == '[' && raw[n - 1] == ']') {
            let m = to_chars("malformed array");
            let blen = wbyte_len(raw);
            return Err(error_at(m, abs, blen));
        }
        proof {
            lemma_weight_strip(raw@, 1);
        }
        let inner = slice_of(raw, 1, n - 1);
        let istart = abs.wrapping_add(1);
        let parts = split_top_level(inner.as_slice(), ',', istart);
        let ghost pm = split_top(inner@, ',', istart);
        proof {
            lemma_split_from_weight(inner@, ',', istart, 0, 0, false, false, 0, istart);
        }
        let mut items: Vec<Value> = Vec::new();
        let ghost mut acc_refs: Seq<RefModel> = Seq::empty();
        assert(values_model(items@) =~= Seq::<ValueModel>::empty());
        let mut k: usize = 0;
        while k < parts.len()
            invariant
                self.ready(),
                self.same_inputs(*old(self)),
                c == old(self).ctx(),
                r0 == refs_model(old(self).var_refs@),
                pm == split_top(inner@, ',', istart),
                pieces_match(parts@, pm),
                pieces_light(pm, weight(inner@)),
                weight(inner@) + 2 == weight(raw@),
                k <= parts@.len(),
                refs_model(self.var_refs@) == r0 + acc_refs,
                sp_items(c, inner@, istart, k as int, values_model(items@), acc_refs) == sp_array(
                    c,
                    raw@,
                    abs,
                ),
            decreases parts.len() - k,
        {
            let ghost part_m = pm[k as int].0;
            let t = trimmed(parts[k].0.as_slice());
            if t.len() > 0 {
                proof {
                    lemma_weight_trim(part_m);
                }
                let poff = parts[k].1.wrapping_add(leading_ws_bytes(parts[k].0.as_slice()));
                let ghost before = refs_model(self.var_refs@);
                let res = self.expr(t.as_slice(), poff);
                let ghost erefs = sp_expr(c, t@, poff).refs;
                proof {
                    assert(refs_model(self.var_refs@) =~= r0 + (acc_refs + erefs));
                    acc_refs = acc_refs + erefs;
                }
                match res {
                    Err(e) => return Err(e),
                    Ok(v) => {
                        let ghost vm = v.model();
                        let ghost prev = items@;
                        items.push(v);
                        assert(values_model(items@) =~= values_model(prev).push(vm));
                    },
                }
            }
            k = k + 1;
        }
        proof {
            lemma_array_model(items);
        }
        Ok(Value::Array(items))
    }

    #[verifier::rlimit(60)]
    fn inline_dict(&mut self, raw: &[char], abs: usize) -> (r: Result<Value, ParseError>)
        requires
            old(self).ready(),
        ensures
            final(self).same_inputs(*old(self)),
            refs_model(final(self).var_refs@) == refs_model(old(self).var_refs@) + sp_dict(
                old(self).ctx(),
                raw@,
                abs,
            ).refs,
            res_matches(r, sp_dict(old(self).ctx(), raw@, abs).result),
        decreases weight(raw@) as int, 1int, 0int,
    {
        let ghost c = old(self).ctx();
        let ghost r0 = refs_model(old(self).var_refs@);
        assert(r0 + Seq::<RefModel>::empty() =~= r0);
        let n = raw.len();
        if !(n >= 2 && raw[0] == '#' && raw[1] == '{' && raw[n - 2] == '}' && raw[n - 1] == '#') {
            let m = to_chars("malformed inline dict");
            let blen = wbyte_len(raw);
            return Err(error_at(m, abs, blen));
        }
        proof {
            lemma_weight_strip(raw@, 2);
        }
        let inner = slice_of(raw, 2, n - 2);
        let istart = abs.wrapping_add(2);
        let parts = split_top_level(inner.as_slice(), ',', istart);
        let ghost pm = split_top(inner@, ',', istart);
        proof {
            lemma_split_from_weight(inner@, ',', istart, 0, 0, false, false, 0, istart);
        }
        let mut map = Dict::new();
        let ghost mut acc_refs: Seq<RefModel> = Seq::empty();
        let mut eq: Vec<char> = Vec::new();
        eq.push('=');
        assert(eq@ =~= seq!['=']);
        let mut k: usize = 0;
        while k < parts.len()
            invariant
                self.ready(),
                self.same_inputs(*old(self)),
                c == old(self).ctx(),
                r0 == refs_model(old(self).var_refs@),
                eq@ == seq!['='],
                pm == split_top(inner@, ',', istart),
                pieces_match(parts@, pm),
                pieces_light(pm, weight(inner@)),
                weight(inner@) + 4 == weight(raw@),
                k <= parts@.len(),
                refs_model(self.var_refs@) == r0 + acc_refs,
                sp_entries(c, inner@, istart, k as int, map.model(), acc_refs) == sp_dict(
                    c,
                    raw@,
                    abs,
                ),
            decreases parts.len() - k,
        {
            let ghost part_m = pm[k as int].0;
            let off = parts[k].1;
            let t = trimmed(parts[k].0.as_slice());
            if t.len() > 0 {
                match find_op_top_level(t.as_slice(), eq.as_slice()) {
                    None => {
                        let mut m = to_chars("inline dict entry missing `=`: `");
                        push_all(&mut m, t.as_slice());
                        push_lit(&mut m, "`");
                        let tl = wbyte_len(t.as_slice());
                        return Err(error_at(m, off, tl));
                    },
                    Some(q) => {
                        proof {
                            lemma_weight_trim(part_m);
                            lemma_find_op_from_bound(t@, seq!['='], 0, 0, false, false);
                            lemma_weight_subrange(t@, q + 1, q + 1);
                            lemma_weight_trim(t@.skip(q + 1));
                        }
                        let kpart = slice_of(t.as_slice(), 0, q);
                        let vpart = slice_of(t.as_slice(), q + 1, t.len());
                        assert(kpart@ =~= t@.take(q as int));
                        assert(vpart@ =~= t@.skip(q + 1));
                        let key_raw = trimmed(kpart.as_slice());
                        let val_raw = trimmed(vpart.as_slice());
                        let key = quoted_key(key_raw.as_slice());
                        let voff = off.wrapping_add(leading_ws_bytes(parts[k].0.as_slice())).wrapping_add(
                            wbyte_len(kpart.as_slice()),
                        ).wrapping_add(1).wrapping_add(leading_ws_bytes(vpart.as_slice()));
                        let res = self.expr(val_raw.as_slice(), voff);
                        let ghost erefs = sp_expr(c, val_raw@, voff).refs;
                        proof {
                            assert(refs_model(self.var_refs@) =~= r0 + (acc_refs + erefs));
                            acc_refs = acc_refs + erefs;
                        }
                        match res {
                            Err(e) => return Err(e),
                            Ok(v) => {
                                map.insert(string_from(key.as_slice()), v);
                            },
                        }
                    },
                }
            }
            k = k + 1;
        }
        Ok(Value::Dict(map))
    }
}

fn quoted_key(k: &[char]) -> (r: Vec<char>)
    ensures
        r@ == dict_key(k@),
{
    let n = k.len();
    if n >= 2 && k[0] == '"' && k[n - 1] == '"' {
        slice_of(k, 1, n - 1)
    } else {
        slice_of(k, 0, n)
    }
}

fn builtin_value(b: &Builtins, name: &[char]) -> (r: Option<Value>)
    ensures
        opt_model(r) == builtin_model(*b, name@),
{
    if eq_lit(name, "TRUE") {
        Some(Value::Bool(true))
    } else if eq_lit(name, "FALSE") {
        Some(Value::Bool(false))
    } else if eq_lit(name, "NULL") {
        Some(Value::Null)
    } else if eq_lit(name, "NOW") {
        Some(Value::String(b.now.clone()))
    } else if eq_lit(name, "TODAY") {
        Some(Value::String(b.today.clone()))
    } else if eq_lit(name, "PLATFORM") {
        Some(Value::String(b.platform.clone()))
    } else if eq_lit(name, "PID") {
        Some(Value::Integer(b.pid))
    } else if eq_lit(name, "HOSTNAME") {
        Some(Value::String(b.hostname.clone()))
    } else if eq_lit(name, "CWD") {
        Some(Value::String(b.cwd.clone()))
    } else {
        None
    }
}

// ── Laws ────────────────────────────────────────────────────────────────────

/// `a ?? b` is `a` when `a` is not `null` (and `b` is not read), and `b`
/// when `a` is `null`; an error in `a` is the error of the whole.
pub proof fn law_fallback<E: Fn(&str) -> Option<String>, H: Fn(HostQuery) -> HostReply>(
    c: Ctx<E, H>,
    raw: Seq<char>,
    abs: usize,
)
    requires
        find_op(raw, seq!['?', '?']) is Some,
    ensures
        ({
            let k = find_op(raw, seq!['?', '?'])->Some_0;
            let lhs = sp_arith(c, trim(raw.take(k)), wadd(abs, lead_bytes(raw.take(k))));
            let rhs = sp_expr(
                c,
                trim(raw.skip(k + 2)),
                wadd(wadd(wadd(abs, wblen(raw.take(k))), 2), lead_bytes(raw.skip(k + 2))),
            );
            &&& lhs.result is Err ==> sp_expr(c, raw, abs) == lhs
            &&& (lhs.result matches Ok(v) && v !is Null) ==> sp_expr(c, raw, abs) == lhs
            &&& lhs.result == Ok::<ValueModel, ErrModel>(ValueModel::Null) ==> sp_expr(c, raw, abs).result
                == rhs.result && sp_expr(c, raw, abs).refs == lhs.refs + rhs.refs
        }),
{
}

proof fn lemma_int_side<H: Fn(HostQuery) -> HostReply>(
    h: H,
    op: FloatOp,
    opc: char,
    at: usize,
    a: u64,
    n: i64,
)
    ensures
        ({
            let xn = crate::host::host_reply(h, crate::host::QueryModel::FromInt(n));
            let left = crate::host::host_reply(h, crate::host::QueryModel::Arith(op, xn->Bits_0, a));
            let right = crate::host::host_reply(h, crate::host::QueryModel::Arith(op, a, xn->Bits_0));
            &&& xn is Bits && left is Bits ==> sp_num_op(h, op, opc, ValueModel::Integer(n), ValueModel::Float(a), at)
                == Ok::<ValueModel, ErrModel>(ValueModel::Float(left->Bits_0))
            &&& xn is Bits && right is Bits ==> sp_num_op(h, op, opc, ValueModel::Float(a), ValueModel::Integer(n), at)
                == Ok::<ValueModel, ErrModel>(ValueModel::Float(right->Bits_0))
            &&& op == FloatOp::Div && xn is Bits && left is Bits ==> sp_div(h, ValueModel::Integer(n), ValueModel::Float(a), at)
                == Ok::<ValueModel, ErrModel>(ValueModel::Float(left->Bits_0))
            &&& op == FloatOp::Div && n != 0 && xn is Bits && right is Bits ==> sp_div(h, ValueModel::Float(a), ValueModel::Integer(n), at)
                == Ok::<ValueModel, ErrModel>(ValueModel::Float(right->Bits_0))
        }),
{
    let xn = crate::host::host_reply(h, crate::host::QueryModel::FromInt(n));
    if xn is Bits {
        assert(float_from_int(h, n) == xn->Bits_0);
        let left = crate::host::host_reply(h, crate::host::QueryModel::Arith(op, xn->Bits_0, a));
        let right = crate::host::host_reply(h, crate::host::QueryModel::Arith(op, a, xn->Bits_0));
        if left is Bits {
            assert(float_arith(h, op, float_from_int(h, n), a) == left->Bits_0);
        }
        if right is Bits {
            assert(float_arith(h, op, a, float_from_int(h, n)) == right->Bits_0);
        }
    }
}

/// Arithmetic on numbers keeps its operands in order. With a float on
/// either side, the host is asked for `left op right` (an integer operand
/// first converted by the host), so `2.5 - 1` is `2.5 - 1.0`, not
/// `1.0 - 2.5`, and `/` divides the left operand by the right one; two
/// integers add, subtract and multiply as integers when the result fits in
/// `i64`.
pub proof fn law_arith_operand_order<H: Fn(HostQuery) -> HostReply>(
    h: H,
    op: FloatOp,
    opc: char,
    at: usize,
    a: u64,
    b: u64,
    n: i64,
    m: i64,
)
    ensures
        ({
            let q = crate::host::host_reply(h, crate::host::QueryModel::Arith(op, a, b));
            q is Bits ==> sp_num_op(h, op, opc, ValueModel::Float(a), ValueModel::Float(b), at) == Ok::<
                ValueModel,
                ErrModel,
            >(ValueModel::Float(q->Bits_0))
        }),
        ({
            let q = crate::host::host_reply(h, crate::host::QueryModel::Arith(FloatOp::Div, a, b));
            q is Bits ==> sp_div(h, ValueModel::Float(a), ValueModel::Float(b), at) == Ok::<ValueModel, ErrModel>(
                ValueModel::Float(q->Bits_0),
            )
        }),
        ({
            let xn = crate::host::host_reply(h, crate::host::QueryModel::FromInt(n));
            let q = crate::host::host_reply(h, crate::host::QueryModel::Arith(op, xn->Bits_0, b));
            xn is Bits && q is Bits ==> sp_num_op(h, op, opc, ValueModel::Integer(n), ValueModel::Float(b), at)
                == Ok::<ValueModel, ErrModel>(ValueModel::Float(q->Bits_0))
        }),
        ({
            let ym = crate::host::host_reply(h, crate::host::QueryModel::FromInt(m));
            let q = crate::host::host_reply(h, crate::host::QueryModel::Arith(op, a, ym->Bits_0));
            ym is Bits && q is Bits ==> sp_num_op(h, op, opc, ValueModel::Float(a), ValueModel::Integer(m), at)
                == Ok::<ValueModel, ErrModel>(ValueModel::Float(q->Bits_0))
        }),
        ({
            let xn = crate::host::host_reply(h, crate::host::QueryModel::FromInt(n));
            let q = crate::host::host_reply(h, crate::host::QueryModel::Arith(FloatOp::Div, xn->Bits_0, b));
            xn is Bits && q is Bits ==> sp_div(h, ValueModel::Integer(n), ValueModel::Float(b), at) == Ok::<
                ValueModel,
                ErrModel,
            >(ValueModel::Float(q->Bits_0))
        }),
        ({
            let ym = crate::host::host_reply(h, crate::host::QueryModel::FromInt(m));
            let q = crate::host::host_reply(h, crate::host::QueryModel::Arith(FloatOp::Div, a, ym->Bits_0));
            m != 0 && ym is Bits && q is Bits ==> sp_div(h, ValueModel::Float(a), ValueModel::Integer(m), at)
                == Ok::<ValueModel, ErrModel>(ValueModel::Float(q->Bits_0))
        }),
        i64::MIN <= n + m <= i64::MAX ==> sp_num_op(
            h,
            FloatOp::Add,
            opc,
            ValueModel::Integer(n),
            ValueModel::Integer(m),
            at,
        ) == Ok::<ValueModel, ErrModel>(ValueModel::Integer((n + m) as i64)),
        i64::MIN <= n - m <= i64::MAX ==> sp_num_op(
            h,
            FloatOp::Sub,
            opc,
            ValueModel::Integer(n),
            ValueModel::Integer(m),
            at,
        ) == Ok::<ValueModel, ErrModel>(ValueModel::Integer((n - m) as i64)),
        i64::MIN <= n * m <= i64::MAX ==> sp_num_op(
            h,
            FloatOp::Mul,
            opc,
            ValueModel::Integer(n),
            ValueModel::Integer(m),
            at,
        ) == Ok::<ValueModel, ErrModel>(ValueModel::Integer((n * m) as i64)),
{
    lemma_int_side(h, op, opc, at, b, n);
    lemma_int_side(h, op, opc, at, a, m);
    lemma_int_side(h, FloatOp::Div, opc, at, b, n);
    lemma_int_side(h, FloatOp::Div, opc, at, a, m);
}

/// The binary operators on values: `+` joins two strings left to right and
/// adds numbers, `-` subtracts the right operand from the left one, `*`
/// multiplies; on integers whose result fits in `i64` they are the integer
/// sum, difference and product; a float on the left and an integer on the
/// right are combined by the host in that order.
pub proof fn law_binop_values<H: Fn(HostQuery) -> HostReply>(
    h: H,
    at: usize,
    x: Seq<char>,
    y: Seq<char>,
    n: i64,
    m: i64,
    a: u64,
)
    ensures
        sp_binop(h, '+', ValueModel::Str(x), ValueModel::Str(y), at) == Ok::<ValueModel, ErrModel>(
            ValueModel::Str(x + y),
        ),
        sp_binop(h, '+', ValueModel::Str(x), ValueModel::Integer(n), at) == Ok::<ValueModel, ErrModel>(
            ValueModel::Str(x + int_text(n as int)),
        ),
        sp_binop(h, '+', ValueModel::Integer(n), ValueModel::Str(y), at) == Ok::<ValueModel, ErrModel>(
            ValueModel::Str(int_text(n as int) + y),
        ),
        i64::MIN <= n + m <= i64::MAX ==> sp_binop(h, '+', ValueModel::Integer(n), ValueModel::Integer(m), at)
            == Ok::<ValueModel, ErrModel>(ValueModel::Integer((n + m) as i64)),
        i64::MIN <= n - m <= i64::MAX ==> sp_binop(h, '-', ValueModel::Integer(n), ValueModel::Integer(m), at)
            == Ok::<ValueModel, ErrModel>(ValueModel::Integer((n - m) as i64)),
        i64::MIN <= n * m <= i64::MAX ==> sp_binop(h, '*', ValueModel::Integer(n), ValueModel::Integer(m), at)
            == Ok::<ValueModel, ErrModel>(ValueModel::Integer((n * m) as i64)),
        ({
            let ym = crate::host::host_reply(h, crate::host::QueryModel::FromInt(m));
            let q = crate::host::host_reply(h, crate::host::QueryModel::Arith(FloatOp::Sub, a, ym->Bits_0));
            ym is Bits && q is Bits ==> sp_binop(h, '-', ValueModel::Float(a), ValueModel::Integer(m), at) == Ok::<
                ValueModel,
                ErrModel,
            >(ValueModel::Float(q->Bits_0))
        }),
        ({
            let ym = crate::host::host_reply(h, crate::host::QueryModel::FromInt(m));
            let q = crate::host::host_reply(h, crate::host::QueryModel::Arith(FloatOp::Div, a, ym->Bits_0));
            m != 0 && ym is Bits && q is Bits ==> sp_binop(h, '/', ValueModel::Float(a), ValueModel::Integer(m), at)
                == Ok::<ValueModel, ErrModel>(ValueModel::Float(q->Bits_0))
        }),
        ({
            let xn = crate::host::host_reply(h, crate::host::QueryModel::FromInt(n));
            let ym = crate::host::host_reply(h, crate::host::QueryModel::FromInt(m));
            let q = crate::host::host_reply(h, crate::host::QueryModel::Arith(FloatOp::Div, xn->Bits_0, ym->Bits_0));
            m != 0 && xn is Bits && ym is Bits && q is Bits ==> sp_binop(
                h,
                '/',
                ValueModel::Integer(n),
                ValueModel::Integer(m),
                at,
            ) == Ok::<ValueModel, ErrModel>(ValueModel::Float(q->Bits_0))
        }),
        sp_binop(h, '/', ValueModel::Integer(n), ValueModel::Integer(0), at) is Err,
        sp_binop(h, '/', ValueModel::Float(a), ValueModel::Integer(0), at) is Err,
{
    law_arith_operand_order(h, FloatOp::Add, '+', at, a, a, n, m);
    law_arith_operand_order(h, FloatOp::Sub, '-', at, a, a, n, m);
    law_arith_operand_order(h, FloatOp::Mul, '*', at, a, a, n, m);
}

} // verus!
