//! What the library asks of the program around it.
//!
//! * Floating-point work — parsing, arithmetic, comparison and formatting of
//!   IEEE-754 doubles — is answered by a *host* closure, because this crate
//!   holds no floating-point code. A float travels through the library as the
//!   bit pattern of its double.
//! * `$ENV.X` lookups go through the caller's environment closure.
//! * The values of the process builtins (`$PID`, `$CWD`, `$PLATFORM`) come
//!   in as plain values; the clock and the host name are read here.
//!
//! Contracts speak of a closure through what it answers: a closure is
//! *consistent* when equal questions get equal answers, and then
//! [`host_reply`] / [`env_reply`] name those answers.

use vstd::prelude::*;
use crate::text::{string_from, to_chars};
use crate::value::{Value, ValueModel};

verus! {

#[derive(Debug, Clone, Copy, PartialEq, Eq, Structural)]
pub enum FloatOp {
    Add,
    Sub,
    Mul,
    Div,
}

/// A question for the host's floating-point unit.
pub enum HostQuery {
    /// `text.parse::<f64>()`; answered with `Bits` or `Nothing`.
    ParseFloat(String),
    /// `n as f64`.
    FromInt(i64),
    /// `a op b` on doubles.
    Arith(FloatOp, u64, u64),
    /// `f.to_string()` (the `Display` form).
    Display(u64),
    /// The form the dumper writes: `{:.1}` for finite whole numbers,
    /// otherwise `Display`.
    Literal(u64),
    /// `a.partial_cmp(&b)` as `Int(-1 | 0 | 1)`, `Nothing` when unordered.
    Compare(u64, u64),
    /// `f as i64` (saturating, NaN to 0).
    ToInt(u64),
    /// `format!("{:?}", v)` of a value, as the derived `Debug` prints it.
    DebugValue(Value),
    /// `format!("{:?}", s)` of a string.
    DebugText(String),
}

pub enum HostReply {
    Bits(u64),
    Int(i64),
    Text(String),
    Nothing,
}

pub enum QueryModel {
    ParseFloat(Seq<char>),
    FromInt(i64),
    Arith(FloatOp, u64, u64),
    Display(u64),
    Literal(u64),
    Compare(u64, u64),
    ToInt(u64),
    DebugValue(ValueModel),
    DebugText(Seq<char>),
}

pub enum ReplyModel {
    Bits(u64),
    Int(i64),
    Text(Seq<char>),
    Nothing,
}

impl HostQuery {
    pub open spec fn model(self) -> QueryModel {
        match self {
            HostQuery::ParseFloat(s) => QueryModel::ParseFloat(s@),
            HostQuery::FromInt(n) => QueryModel::FromInt(n),
            HostQuery::Arith(op, a, b) => QueryModel::Arith(op, a, b),
            HostQuery::Display(f) => QueryModel::Display(f),
            HostQuery::Literal(f) => QueryModel::Literal(f),
            HostQuery::Compare(a, b) => QueryModel::Compare(a, b),
            HostQuery::ToInt(f) => QueryModel::ToInt(f),
            HostQuery::DebugValue(v) => QueryModel::DebugValue(v.model()),
            HostQuery::DebugText(s) => QueryModel::DebugText(s@),
        }
    }
}

impl HostReply {
    pub open spec fn model(self) -> ReplyModel {
        match self {
            HostReply::Bits(b) => ReplyModel::Bits(b),
            HostReply::Int(n) => ReplyModel::Int(n),
            HostReply::Text(s) => ReplyModel::Text(s@),
            HostReply::Nothing => ReplyModel::Nothing,
        }
    }
}

/// The host can always be asked, and answers equal questions equally.
pub open spec fn host_ok<H: Fn(HostQuery) -> HostReply>(h: H) -> bool {
    &&& forall|q: HostQuery| call_requires(h, (q,))
    &&& forall|q1: HostQuery, q2: HostQuery, r1: HostReply, r2: HostReply|
        #![trigger call_ensures(h, (q1,), r1), call_ensures(h, (q2,), r2)]
        call_ensures(h, (q1,), r1) && call_ensures(h, (q2,), r2) && q1.model() == q2.model()
            ==> r1.model() == r2.model()
}

/// The host's answer to a question.
pub open spec fn host_reply<H: Fn(HostQuery) -> HostReply>(h: H, q: QueryModel) -> ReplyModel {
    let (qe, re) = choose|qe: HostQuery, re: HostReply|
        #![trigger call_ensures(h, (qe,), re)]
        qe.model() == q && call_ensures(h, (qe,), re);
    re.model()
}

proof fn lemma_host_answer<H: Fn(HostQuery) -> HostReply>(h: H, q: HostQuery, r: HostReply)
    requires
        host_ok(h),
        call_ensures(h, (q,), r),
    ensures
        r.model() == host_reply(h, q.model()),
{
    let m = q.model();
    assert(exists|qe: HostQuery, re: HostReply|
        #![trigger call_ensures(h, (qe,), re)]
        qe.model() == m && call_ensures(h, (qe,), re));
    let (qe, re) = choose|qe: HostQuery, re: HostReply|
        #![trigger call_ensures(h, (qe,), re)]
        qe.model() == m && call_ensures(h, (qe,), re);
    assert(call_ensures(h, (q,), r) && call_ensures(h, (qe,), re));
}

/// Asks the host.
pub fn ask<H: Fn(HostQuery) -> HostReply>(h: &H, q: HostQuery) -> (r: HostReply)
    requires
        host_ok(*h),
    ensures
        r.model() == host_reply(*h, q.model()),
{
    let ghost qm = q.model();
    let ghost q0 = q;
    let r = h(q);
    proof {
        lemma_host_answer(*h, q0, r);
    }
    r
}

// ── Typed readings of the host's answers ────────────────────────────────────
// A host answering with the wrong kind of reply is read as 0.0 / 0 / "".

pub open spec fn float_parse<H: Fn(HostQuery) -> HostReply>(h: H, text: Seq<char>) -> Option<u64> {
    match host_reply(h, QueryModel::ParseFloat(text)) {
        ReplyModel::Bits(b) => Some(b),
        _ => None,
    }
}

pub open spec fn float_from_int<H: Fn(HostQuery) -> HostReply>(h: H, n: i64) -> u64 {
    match host_reply(h, QueryModel::FromInt(n)) {
        ReplyModel::Bits(b) => b,
        _ => 0,
    }
}

pub open spec fn float_arith<H: Fn(HostQuery) -> HostReply>(h: H, op: FloatOp, a: u64, b: u64) -> u64 {
    match host_reply(h, QueryModel::Arith(op, a, b)) {
        ReplyModel::Bits(r) => r,
        _ => 0,
    }
}

pub open spec fn float_display<H: Fn(HostQuery) -> HostReply>(h: H, f: u64) -> Seq<char> {
    match host_reply(h, QueryModel::Display(f)) {
        ReplyModel::Text(t) => t,
        _ => Seq::empty(),
    }
}

pub open spec fn float_literal<H: Fn(HostQuery) -> HostReply>(h: H, f: u64) -> Seq<char> {
    match host_reply(h, QueryModel::Literal(f)) {
        ReplyModel::Text(t) => t,
        _ => Seq::empty(),
    }
}

pub open spec fn float_compare<H: Fn(HostQuery) -> HostReply>(h: H, a: u64, b: u64) -> Option<i64> {
    match host_reply(h, QueryModel::Compare(a, b)) {
        ReplyModel::Int(n) => Some(n),
        _ => None,
    }
}

pub open spec fn float_to_int<H: Fn(HostQuery) -> HostReply>(h: H, f: u64) -> i64 {
    match host_reply(h, QueryModel::ToInt(f)) {
        ReplyModel::Int(n) => n,
        _ => 0,
    }
}

pub open spec fn debug_text<H: Fn(HostQuery) -> HostReply>(h: H, v: ValueModel) -> Seq<char> {
    match host_reply(h, QueryModel::DebugValue(v)) {
        ReplyModel::Text(t) => t,
        _ => Seq::empty(),
    }
}

pub open spec fn debug_str<H: Fn(HostQuery) -> HostReply>(h: H, s: Seq<char>) -> Seq<char> {
    match host_reply(h, QueryModel::DebugText(s)) {
        ReplyModel::Text(t) => t,
        _ => Seq::empty(),
    }
}

pub fn host_parse_float<H: Fn(HostQuery) -> HostReply>(h: &H, text: &[char]) -> (r: Option<u64>)
    requires
        host_ok(*h),
    ensures
        r == float_parse(*h, text@),
{
    match ask(h, HostQuery::ParseFloat(string_from(text))) {
        HostReply::Bits(b) => Some(b),
        _ => None,
    }
}

pub fn host_from_int<H: Fn(HostQuery) -> HostReply>(h: &H, n: i64) -> (r: u64)
    requires
        host_ok(*h),
    ensures
        r == float_from_int(*h, n),
{
    match ask(h, HostQuery::FromInt(n)) {
        HostReply::Bits(b) => b,
        _ => 0,
    }
}

pub fn host_arith<H: Fn(HostQuery) -> HostReply>(h: &H, op: FloatOp, a: u64, b: u64) -> (r: u64)
    requires
        host_ok(*h),
    ensures
        r == float_arith(*h, op, a, b),
{
    match ask(h, HostQuery::Arith(op, a, b)) {
        HostReply::Bits(x) => x,
        _ => 0,
    }
}

pub fn host_display<H: Fn(HostQuery) -> HostReply>(h: &H, f: u64) -> (r: Vec<char>)
    requires
        host_ok(*h),
    ensures
        r@ == float_display(*h, f),
{
    match ask(h, HostQuery::Display(f)) {
        HostReply::Text(t) => to_chars(t.as_str()),
        _ => Vec::new(),
    }
}

pub fn host_literal<H: Fn(HostQuery) -> HostReply>(h: &H, f: u64) -> (r: Vec<char>)
    requires
        host_ok(*h),
    ensures
        r@ == float_literal(*h, f),
{
    match ask(h, HostQuery::Literal(f)) {
        HostReply::Text(t) => to_chars(t.as_str()),
        _ => Vec::new(),
    }
}

pub fn host_compare<H: Fn(HostQuery) -> HostReply>(h: &H, a: u64, b: u64) -> (r: Option<i64>)
    requires
        host_ok(*h),
    ensures
        r == float_compare(*h, a, b),
{
    match ask(h, HostQuery::Compare(a, b)) {
        HostReply::Int(n) => Some(n),
        _ => None,
    }
}

pub fn host_to_int<H: Fn(HostQuery) -> HostReply>(h: &H, f: u64) -> (r: i64)
    requires
        host_ok(*h),
    ensures
        r == float_to_int(*h, f),
{
    match ask(h, HostQuery::ToInt(f)) {
        HostReply::Int(n) => n,
        _ => 0,
    }
}

pub fn host_debug<H: Fn(HostQuery) -> HostReply>(h: &H, v: Value) -> (r: Vec<char>)
    requires
        host_ok(*h),
    ensures
        r@ == debug_text(*h, v.model()),
{
    match ask(h, HostQuery::DebugValue(v)) {
        HostReply::Text(t) => to_chars(t.as_str()),
        _ => Vec::new(),
    }
}

pub fn host_debug_str<H: Fn(HostQuery) -> HostReply>(h: &H, s: &[char]) -> (r: Vec<char>)
    requires
        host_ok(*h),
    ensures
        r@ == debug_str(*h, s@),
{
    match ask(h, HostQuery::DebugText(string_from(s))) {
        HostReply::Text(t) => to_chars(t.as_str()),
        _ => Vec::new(),
    }
}

// ── Environment lookups ─────────────────────────────────────────────────────

pub open spec fn opt_view(o: Option<String>) -> Option<Seq<char>> {
    match o {
        Some(s) => Some(s@),
        None => None,
    }
}

/// The environment closure can always be called, and answers equal keys
/// equally.
pub open spec fn env_ok<E: Fn(&str) -> Option<String>>(e: E) -> bool {
    &&& forall|k: &str| call_requires(e, (k,))
    &&& forall|k1: &str, k2: &str, r1: Option<String>, r2: Option<String>|
        #![trigger call_ensures(e, (k1,), r1), call_ensures(e, (k2,), r2)]
        call_ensures(e, (k1,), r1) && call_ensures(e, (k2,), r2) && k1@ == k2@ ==> opt_view(r1)
            == opt_view(r2)
}

/// What the environment holds for `key`.
pub open spec fn env_reply<E: Fn(&str) -> Option<String>>(e: E, key: Seq<char>) -> Option<Seq<char>> {
    let (ke, re) = choose|ke: &str, re: Option<String>|
        #![trigger call_ensures(e, (ke,), re)]
        ke@ == key && call_ensures(e, (ke,), re);
    opt_view(re)
}

pub fn ask_env<E: Fn(&str) -> Option<String>>(e: &E, key: &[char]) -> (r: Option<String>)
    requires
        env_ok(*e),
    ensures
        opt_view(r) == env_reply(*e, key@),
{
    let s = string_from(key);
    let k: &str = s.as_str();
    let r = e(k);
    proof {
        assert(exists|ke: &str, re: Option<String>|
            #![trigger call_ensures(*e, (ke,), re)]
            ke@ == key@ && call_ensures(*e, (ke,), re));
        let (ke, re) = choose|ke: &str, re: Option<String>|
            #![trigger call_ensures(*e, (ke,), re)]
            ke@ == key@ && call_ensures(*e, (ke,), re);
        assert(call_ensures(*e, (k,), r) && call_ensures(*e, (ke,), re));
    }
    r
}

// ── Builtin variables ───────────────────────────────────────────────────────

/// Values of the builtin variables for one parse.
pub struct Builtins {
    /// `$NOW`: RFC 3339 UTC timestamp.
    pub now: String,
    /// `$TODAY`: `YYYY-MM-DD` UTC date.
    pub today: String,
    /// `$HOSTNAME`.
    pub hostname: String,
    /// `$PLATFORM`: the operating system name.
    pub platform: String,
    /// `$PID`.
    pub pid: i64,
    /// `$CWD`.
    pub cwd: String,
}

pub open spec fn ascii_digit(c: char) -> bool {
    '0' <= c <= '9'
}

/// The shape of every RFC 3339 stamp `chrono` writes for a UTC time: a
/// year of at least four digits, `-MM-DD`, `T`, `HH:MM:SS`, an optional
/// fraction, and `+00:00`.
pub open spec fn utc_stamp_shape(s: Seq<char>) -> bool {
    &&& s.len() >= 25
    &&& s.subrange(s.len() - 6, s.len() as int) == seq!['+', '0', '0', ':', '0', '0']
    &&& s.contains('T')
}

/// The shape of every `%Y-%m-%d` date `chrono` writes: a year of at least
/// four characters, then `-MM-DD` with two-digit month and day.
pub open spec fn date_shape(s: Seq<char>) -> bool {
    &&& s.len() >= 10
    &&& s[s.len() - 6] == '-'
    &&& ascii_digit(s[s.len() - 5])
    &&& ascii_digit(s[s.len() - 4])
    &&& s[s.len() - 3] == '-'
    &&& ascii_digit(s[s.len() - 2])
    &&& ascii_digit(s[s.len() - 1])
}

/// `SystemTime::now().duration_since(UNIX_EPOCH)`, as whole seconds and
/// nanoseconds. Which time it is depends on the clock; nothing is stated of
/// it but that the reading is missing (`None`) when the clock is set before
/// 1970 or the seconds do not fit an `i64`.
#[verifier::external_body]
fn clock_reading() -> Option<(i64, u32)> {
    let d = std::time::SystemTime::now().duration_since(std::time::UNIX_EPOCH).ok()?;
    let secs = i64::try_from(d.as_secs()).ok()?;
    Some((secs, d.subsec_nanos()))
}

/// `chrono::DateTime::from_timestamp(secs, nanos)` written by `to_rfc3339`:
/// `None` for a time `chrono` cannot represent, otherwise a stamp in the
/// shape [`utc_stamp_shape`] states (`write_rfc3339` writes the year, at
/// least four characters, `-MM-DD`, `T`, the time, and `+00:00` for UTC).
#[verifier::external_body]
fn rfc3339_at(secs: i64, nanos: u32) -> (r: Option<String>)
    ensures
        r matches Some(s) ==> utc_stamp_shape(s@),
{
    Some(chrono::DateTime::from_timestamp(secs, nanos)?.to_rfc3339())
}

/// `chrono::DateTime::from_timestamp(secs, nanos)` formatted with
/// `%Y-%m-%d`: `None` for a time `chrono` cannot represent, otherwise a
/// date in the shape [`date_shape`] states.
#[verifier::external_body]
fn date_at(secs: i64, nanos: u32) -> (r: Option<String>)
    ensures
        r matches Some(s) ==> date_shape(s@),
{
    Some(chrono::DateTime::from_timestamp(secs, nanos)?.format("%Y-%m-%d").to_string())
}

/// `hostname::get()`, converted to a `String` when it is valid Unicode. The
/// result depends on the machine; nothing is stated of it.
#[verifier::external_body]
fn host_name_lookup() -> Option<String> {
    hostname::get().ok().and_then(|s| s.into_string().ok())
}

impl Builtins {
    /// The builtin values from what was read: a host name that could not be
    /// read becomes `unknown`.
    pub fn from_readings(
        now: String,
        today: String,
        host: Option<String>,
        platform: String,
        pid: i64,
        cwd: String,
    ) -> (b: Builtins)
        ensures
            b.now@ == now@,
            b.today@ == today@,
            b.hostname@ == match host {
                Some(h) => h@,
                None => "unknown"@,
            },
            b.platform@ == platform@,
            b.pid == pid,
            b.cwd@ == cwd@,
    {
        let hostname = match host {
            Some(h) => h,
            None => {
                let c = to_chars("unknown");
                string_from(c.as_slice())
            },
        };
        Builtins { now, today, hostname, platform, pid, cwd }
    }

    /// Reads the clock and the host name; the process values are given by
    /// the caller. A host name that cannot be read becomes `unknown`; a
    /// clock set before 1970, or past what `chrono` can write, gives `None`.
    pub fn capture(platform: String, pid: i64, cwd: String) -> (r: Option<Builtins>)
        ensures
            r matches Some(b) ==> {
                &&& utc_stamp_shape(b.now@)
                &&& date_shape(b.today@)
                &&& b.platform@ == platform@
                &&& b.pid == pid
                &&& b.cwd@ == cwd@
            },
    {
        let (secs, nanos) = match clock_reading() {
            Some(t) => t,
            None => return None,
        };
        let now = match rfc3339_at(secs, nanos) {
            Some(t) => t,
            None => return None,
        };
        let today = match date_at(secs, nanos) {
            Some(t) => t,
            None => return None,
        };
        let host = host_name_lookup();
        Some(Builtins::from_readings(now, today, host, platform, pid, cwd))
    }
}

} // verus!
