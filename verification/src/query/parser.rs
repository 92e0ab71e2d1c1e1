//! The recursive-descent parser of the query language.
//!
//! ```text
//! FIND records
//! [WHERE clause [AND clause ...]]
//! [ORDER BY (time ASC | time DESC | relevance)]
//! [LIMIT n]
//! [OFFSET n]
//!
//! clause:
//!   time BETWEEN <time_ref> AND <time_ref>
//!   time AFTER <time_ref>
//!   time BEFORE <time_ref>
//!   similar_to embedding([n, ...]) [WITH threshold n]
//!   caused_by <hex_id> [WITH depth n]
//!   causes <hex_id> [WITH depth n]
//!   schema = "<name>"
//!   tag <key> = "<value>"
//! ```

use vstd::prelude::*;
use crate::error::AkashaError;
use crate::ext::clock::{iso_instant, date_midnight, parse_instant, parse_date_midnight};
use crate::record::clock_nanos;
use crate::hex::{hex_decoded, decode};
use crate::query::lexer::{Kw, Token, SpecToken, lex, token_views, tokenize_chars, is_digit, unsigned_part};
use crate::record::RecordId;
use crate::text::{chars_of, trim_bounds, trimmed};
use vstd::string::StringExecFns;

verus! {

/// A point in time named in a query.
#[derive(Debug)]
pub enum TimeRef {
    /// Nanoseconds since the Unix epoch.
    Nanos(i64),
    /// An RFC 3339 / ISO 8601 date-time text.
    Iso(String),
    /// The current time.
    Now,
    /// The current time minus the given number of nanoseconds.
    NowMinus(i64),
}

/// A time reference as a mathematical value.
pub enum SpecTimeRef {
    Nanos(i64),
    Iso(Seq<char>),
    Now,
    NowMinus(i64),
}

impl View for TimeRef {
    type V = SpecTimeRef;

    open spec fn view(&self) -> SpecTimeRef {
        match self {
            TimeRef::Nanos(n) => SpecTimeRef::Nanos(*n),
            TimeRef::Iso(s) => SpecTimeRef::Iso(s@),
            TimeRef::Now => SpecTimeRef::Now,
            TimeRef::NowMinus(d) => SpecTimeRef::NowMinus(*d),
        }
    }
}

/// The order of query results.
#[derive(PartialEq, Eq, Structural, Clone, Copy, Debug)]
pub enum OrderDir {
    TimeAsc,
    TimeDesc,
    RelevanceDesc,
}

/// One filter of a query.
#[derive(Debug)]
pub enum Clause {
    /// Records whose timestamp lies in `[from, to]`.
    TimeRange { from: TimeRef, to: TimeRef },
    /// Records strictly after a time.
    TimeAfter(TimeRef),
    /// Records strictly before a time.
    TimeBefore(TimeRef),
    /// Records whose embedding is similar to the given one; the components
    /// and the threshold keep the decimal text they were written with.
    SimilarTo { embedding: Vec<String>, threshold: String },
    /// Causal descendants of a record, up to `depth` hops.
    CausedBy { id: RecordId, depth: usize },
    /// Causal ancestors of a record, up to `depth` hops.
    Causes { id: RecordId, depth: usize },
    /// Records of a schema.
    Schema(String),
    /// Records carrying a metadata tag.
    Tag { key: String, value: String },
}

/// A clause as a mathematical value.
pub enum SpecClause {
    TimeRange { from: SpecTimeRef, to: SpecTimeRef },
    TimeAfter(SpecTimeRef),
    TimeBefore(SpecTimeRef),
    SimilarTo { embedding: Seq<Seq<char>>, threshold: Seq<char> },
    CausedBy { id: Seq<u8>, depth: usize },
    Causes { id: Seq<u8>, depth: usize },
    Schema(Seq<char>),
    Tag { key: Seq<char>, value: Seq<char> },
}

impl View for Clause {
    type V = SpecClause;

    open spec fn view(&self) -> SpecClause {
        match self {
            Clause::TimeRange { from, to } => SpecClause::TimeRange { from: from@, to: to@ },
            Clause::TimeAfter(t) => SpecClause::TimeAfter(t@),
            Clause::TimeBefore(t) => SpecClause::TimeBefore(t@),
            Clause::SimilarTo { embedding, threshold } => SpecClause::SimilarTo {
                embedding: embedding@.map_values(|s: String| s@),
                threshold: threshold@,
            },
            Clause::CausedBy { id, depth } => SpecClause::CausedBy { id: id@, depth: *depth },
            Clause::Causes { id, depth } => SpecClause::Causes { id: id@, depth: *depth },
            Clause::Schema(s) => SpecClause::Schema(s@),
            Clause::Tag { key, value } => SpecClause::Tag { key: key@, value: value@ },
        }
    }
}

/// A parsed query.
#[derive(Debug)]
pub struct AqslQuery {
    pub clauses: Vec<Clause>,
    pub order: OrderDir,
    pub limit: usize,
    pub offset: usize,
}

/// A parsed query as a mathematical value.
pub struct SpecQuery {
    pub clauses: Seq<SpecClause>,
    pub order: OrderDir,
    pub limit: usize,
    pub offset: usize,
}

impl View for AqslQuery {
    type V = SpecQuery;

    open spec fn view(&self) -> SpecQuery {
        SpecQuery {
            clauses: self.clauses@.map_values(|c: Clause| c@),
            order: self.order,
            limit: self.limit,
            offset: self.offset,
        }
    }
}

/// The nanoseconds a date-time text names: the instant chrono reads from it,
/// or else midnight UTC of the calendar date it reads from it; 0 when it
/// reads neither or the instant does not fit in `i64` nanoseconds.
pub open spec fn text_nanos(s: Seq<char>) -> i64 {
    match iso_instant(s) {
        Some(Some(n)) => n,
        Some(None) => 0,
        None => match date_midnight(s) {
            Some(Some(n)) => n,
            _ => 0,
        },
    }
}

/// The nanoseconds a time reference names when the clock reads `now`:
/// nanosecond counts as written, texts as `text_nanos` reads them, `NOW` as
/// `now`, and `NOW n` as `now - n` wrapping around.
pub open spec fn time_ref_nanos(t: SpecTimeRef, now: i64) -> i64 {
    match t {
        SpecTimeRef::Nanos(n) => n,
        SpecTimeRef::Now => now,
        SpecTimeRef::NowMinus(d) => now.wrapping_sub(d),
        SpecTimeRef::Iso(s) => text_nanos(s),
    }
}

/// The nanoseconds a date-time text names (see `text_nanos`).
fn read_text_nanos(s: &str) -> (r: i64)
    ensures
        r == text_nanos(s@),
{
    match parse_instant(s) {
        Some(Some(n)) => n,
        Some(None) => 0,
        None => match parse_date_midnight(s) {
            Some(Some(n)) => n,
            _ => 0,
        },
    }
}

impl TimeRef {
    /// The nanoseconds this reference names when the clock reads `now`.
    pub fn nanos_at(&self, now: i64) -> (r: i64)
        ensures
            r == time_ref_nanos(self@, now),
    {
        match self {
            TimeRef::Nanos(n) => *n,
            TimeRef::Now => now,
            TimeRef::NowMinus(delta) => now.wrapping_sub(*delta),
            TimeRef::Iso(s) => read_text_nanos(s.as_str()),
        }
    }

    /// The nanoseconds this reference names, reading the clock for `NOW`.
    pub fn to_nanos(&self) -> (r: i64)
        ensures
            exists|now: i64| r == time_ref_nanos(self@, now),
    {
        let now = clock_nanos();
        let r = self.nanos_at(now);
        proof {
            assert(r == time_ref_nanos(self@, now));
        }
        r
    }
}

// ---------------------------------------------------------------------------
// Numbers

/// Index of the first character of `s` at or after `i` that is not an ASCII digit.
pub open spec fn digit_run_end(s: Seq<char>, i: int) -> int
    decreases s.len() - i,
{
    if 0 <= i < s.len() && is_digit(s[i]) {
        digit_run_end(s, i + 1)
    } else {
        i
    }
}

/// The value of a string of ASCII digits.
pub open spec fn digits_value(s: Seq<char>) -> nat
    decreases s.len(),
{
    if s.len() == 0 {
        0
    } else {
        digits_value(s.drop_last()) * 10 + (s.last() as nat - '0' as nat) as nat
    }
}

/// The value of the decimal number text `t` truncated toward zero, read
/// exactly from its digits. No floating-point rounding comes first: a text
/// with more fraction digits than a double keeps, such as `2.9999999999999999`,
/// gives 2 here, where reading it as an `f64` first would round it to 3.
pub open spec fn number_trunc(t: Seq<char>) -> int {
    let b = unsigned_part(t);
    let m = digits_value(b.subrange(0, digit_run_end(b, 0)));
    if t.len() > 0 && t[0] == '-' { -m } else { m as int }
}

/// `x` clamped to the range of `usize`.
pub open spec fn sat_usize(x: int) -> usize {
    if x < 0 { 0 } else if x > usize::MAX { usize::MAX } else { x as usize }
}

/// `x` clamped to the range of `i64`.
pub open spec fn sat_i64(x: int) -> i64 {
    if x < i64::MIN { i64::MIN } else if x > i64::MAX { i64::MAX } else { x as i64 }
}

/// The number text `t` as a count: truncated toward zero, clamped to `usize`.
pub open spec fn number_usize(t: Seq<char>) -> usize {
    sat_usize(number_trunc(t))
}

/// The number text `t` as nanoseconds: truncated toward zero, clamped to `i64`.
pub open spec fn number_i64(t: Seq<char>) -> i64 {
    sat_i64(number_trunc(t))
}

pub open spec fn magnitude_cap() -> int {
    100_000_000_000_000_000_000
}

proof fn lemma_digit_run_end(s: Seq<char>, i: int)
    requires
        0 <= i <= s.len(),
    ensures
        i <= digit_run_end(s, i) <= s.len(),
        forall|j: int| i <= j < digit_run_end(s, i) ==> is_digit(#[trigger] s[j]),
        digit_run_end(s, i) < s.len() ==> !is_digit(s[digit_run_end(s, i)]),
    decreases s.len() - i,
{
    if i < s.len() && is_digit(s[i]) {
        lemma_digit_run_end(s, i + 1);
    }
}

/// The sign of the number text `n` and its magnitude truncated toward zero,
/// exact up to `magnitude_cap()` and above it when the magnitude is above it.
fn number_parts(n: &String) -> (r: (bool, u128))
    ensures
        r.0 == (n@.len() > 0 && n@[0] == '-'),
        ({
            let b = unsigned_part(n@);
            let m = digits_value(b.subrange(0, digit_run_end(b, 0)));
            &&& m <= magnitude_cap() ==> r.1 == m
            &&& m > magnitude_cap() ==> r.1 > magnitude_cap()
        }),
{
    let v = chars_of(n.as_str());
    let neg = v.len() > 0 && v[0] == '-';
    let start: usize = if neg { 1 } else { 0 };
    let ghost b = unsigned_part(v@);
    proof {
        assert(b =~= v@.subrange(start as int, v.len() as int));
        lemma_digit_run_end(b, 0);
    }
    let mut acc: u128 = 0;
    let mut k = start;
    while k < v.len() && '0' <= v[k] && v[k] <= '9'
        invariant
            start <= k <= v.len(),
            b == v@.subrange(start as int, v.len() as int),
            digit_run_end(b, 0) == digit_run_end(b, k - start),
            ({
                let m = digits_value(b.subrange(0, k - start));
                &&& m <= magnitude_cap() ==> acc == m
                &&& m > magnitude_cap() ==> acc > magnitude_cap()
            }),
        decreases v.len() - k,
    {
        let d = (v[k] as u32 - 48) as u128;
        proof {
            let pre = b.subrange(0, k - start);
            let post = b.subrange(0, k - start + 1);
            assert(post.drop_last() =~= pre);
            assert(post.last() == v@[k as int]);
            assert(digits_value(post) == digits_value(pre) * 10 + d);
        }
        if acc <= 100_000_000_000_000_000_000 {
            acc = acc * 10 + d;
        }
        k = k + 1;
    }
    proof {
        lemma_digit_run_end(b, k - start);
    }
    (neg, acc)
}

/// The number text `n` as a count (see `number_usize`).
fn number_to_usize(n: &String) -> (r: usize)
    ensures
        r == number_usize(n@),
{
    let (neg, m) = number_parts(n);
    if neg || m == 0 {
        0
    } else if m > usize::MAX as u128 {
        usize::MAX
    } else {
        m as usize
    }
}

/// The number text `n` as nanoseconds (see `number_i64`).
fn number_to_i64(n: &String) -> (r: i64)
    ensures
        r == number_i64(n@),
{
    let (neg, m) = number_parts(n);
    if neg {
        if m > 9_223_372_036_854_775_808u128 {
            i64::MIN
        } else if m == 9_223_372_036_854_775_808u128 {
            i64::MIN
        } else {
            -(m as i64)
        }
    } else if m > 9_223_372_036_854_775_807u128 {
        i64::MAX
    } else {
        m as i64
    }
}


// ---------------------------------------------------------------------------
// The grammar, as functions on token sequences

/// The token at `p`; past the end, `Eof`.
pub open spec fn tok(t: Seq<SpecToken>, p: int) -> SpecToken {
    if 0 <= p < t.len() { t[p] } else { SpecToken::Eof }
}

/// The position after consuming the token at `p` (never past the end).
pub open spec fn adv(t: Seq<SpecToken>, p: int) -> int {
    if p < t.len() { p + 1 } else { p }
}

/// The text of a string literal or an identifier.
pub open spec fn name_text(x: SpecToken) -> Option<Seq<char>> {
    match x {
        SpecToken::StringLit(s) => Some(s),
        SpecToken::Ident(s) => Some(s),
        _ => None,
    }
}

/// `time_ref := "<text>" | n | NOW [n]`
pub open spec fn time_ref_at(t: Seq<SpecToken>, p: int) -> Option<(SpecTimeRef, int)> {
    match tok(t, p) {
        SpecToken::StringLit(s) => Some((SpecTimeRef::Iso(s), adv(t, p))),
        SpecToken::Number(n) => Some((SpecTimeRef::Nanos(number_i64(n)), adv(t, p))),
        SpecToken::Keyword(Kw::Now) => {
            let q = adv(t, p);
            match tok(t, q) {
                SpecToken::Number(n) => Some((SpecTimeRef::NowMinus(number_i64(n)), adv(t, q))),
                _ => Some((SpecTimeRef::Now, q)),
            }
        },
        _ => None,
    }
}

/// `n [, n ...]`: the longest comma-separated list of numbers at `p`.
pub open spec fn float_list_at(t: Seq<SpecToken>, p: int) -> (Seq<Seq<char>>, int)
    decreases t.len() - p,
{
    match tok(t, p) {
        SpecToken::Number(n) => {
            let q = adv(t, p);
            if tok(t, q) == SpecToken::Comma && 0 <= p {
                let rest = float_list_at(t, adv(t, q));
                (seq![n] + rest.0, rest.1)
            } else {
                (seq![n], q)
            }
        },
        _ => (Seq::empty(), p),
    }
}

/// `time [ASC | DESC] | relevance`, with descending time as default.
pub open spec fn order_at(t: Seq<SpecToken>, p: int) -> (OrderDir, int) {
    match tok(t, p) {
        SpecToken::Keyword(Kw::Time) => {
            let q = adv(t, p);
            if tok(t, q) == SpecToken::Keyword(Kw::Asc) {
                (OrderDir::TimeAsc, adv(t, q))
            } else {
                (OrderDir::TimeDesc, q)
            }
        },
        SpecToken::Keyword(Kw::Relevance) => (OrderDir::RelevanceDesc, adv(t, p)),
        _ => (OrderDir::TimeDesc, p),
    }
}

/// The threshold written when none is given.
pub open spec fn default_threshold() -> Seq<char> {
    seq!['0', '.', '7']
}

/// The causal depth used when none is given.
pub open spec fn default_depth() -> usize {
    5
}

/// `[WITH threshold n]`; a token other than a number after the keyword
/// gives the default.
pub open spec fn threshold_at(t: Seq<SpecToken>, p: int) -> Option<(Seq<char>, int)> {
    if tok(t, p) == SpecToken::Keyword(Kw::With) {
        let q = adv(t, p);
        if tok(t, q) == SpecToken::Keyword(Kw::Threshold) {
            let r = adv(t, q);
            match tok(t, r) {
                SpecToken::Number(n) => Some((n, adv(t, r))),
                _ => Some((default_threshold(), adv(t, r))),
            }
        } else {
            None
        }
    } else {
        Some((default_threshold(), p))
    }
}

/// `[WITH depth n]`; a token other than a number after the keyword gives
/// the default.
pub open spec fn depth_at(t: Seq<SpecToken>, p: int) -> Option<(usize, int)> {
    if tok(t, p) == SpecToken::Keyword(Kw::With) {
        let q = adv(t, p);
        if tok(t, q) == SpecToken::Keyword(Kw::Depth) {
            let r = adv(t, q);
            match tok(t, r) {
                SpecToken::Number(n) => Some((number_usize(n), adv(t, r))),
                _ => Some((default_depth(), adv(t, r))),
            }
        } else {
            None
        }
    } else {
        Some((default_depth(), p))
    }
}

/// The 32 bytes a hexadecimal record id names: 64 hexadecimal digits once
/// surrounding white space is cut off.
pub open spec fn hex_id(s: Seq<char>) -> Option<Seq<u8>> {
    match hex_decoded(trimmed(s)) {
        Some(b) => if b.len() == 32 { Some(b) } else { None },
        None => None,
    }
}

/// `<hex_id> [WITH depth n]`: the id and depth of a causal clause.
pub open spec fn causal_target_at(t: Seq<SpecToken>, p: int) -> Option<(Seq<u8>, usize, int)> {
    match name_text(tok(t, p)) {
        Some(s) => match hex_id(s) {
            Some(id) => match depth_at(t, adv(t, p)) {
                Some((d, e)) => Some((id, d, e)),
                None => None,
            },
            None => None,
        },
        None => None,
    }
}

/// One clause at `p`, with the position after it.
#[verifier::opaque]
pub open spec fn clause_at(t: Seq<SpecToken>, p: int) -> Option<(SpecClause, int)> {
    match tok(t, p) {
        SpecToken::Keyword(Kw::Time) => {
            let q = adv(t, p);
            match tok(t, q) {
                SpecToken::Keyword(Kw::Between) => match time_ref_at(t, adv(t, q)) {
                    Some((from, r)) => if tok(t, r) == SpecToken::Keyword(Kw::And) {
                        match time_ref_at(t, adv(t, r)) {
                            Some((to, e)) => Some((SpecClause::TimeRange { from, to }, e)),
                            None => None,
                        }
                    } else {
                        None
                    },
                    None => None,
                },
                SpecToken::Keyword(Kw::After) => match time_ref_at(t, adv(t, q)) {
                    Some((x, e)) => Some((SpecClause::TimeAfter(x), e)),
                    None => None,
                },
                SpecToken::Keyword(Kw::Before) => match time_ref_at(t, adv(t, q)) {
                    Some((x, e)) => Some((SpecClause::TimeBefore(x), e)),
                    None => None,
                },
                _ => None,
            }
        },
        SpecToken::Keyword(Kw::SimilarTo) => {
            let q = adv(t, p);
            if tok(t, q) == SpecToken::Keyword(Kw::Embedding) {
                // the opening parenthesis and bracket are skipped unread
                let list = float_list_at(t, adv(t, adv(t, adv(t, q))));
                // and so are the closing bracket and parenthesis
                match threshold_at(t, adv(t, adv(t, list.1))) {
                    Some((th, e)) => Some((SpecClause::SimilarTo { embedding: list.0, threshold: th }, e)),
                    None => None,
                }
            } else {
                None
            }
        },
        SpecToken::Keyword(Kw::CausedBy) => match causal_target_at(t, adv(t, p)) {
            Some((id, depth, e)) => Some((SpecClause::CausedBy { id, depth }, e)),
            None => None,
        },
        SpecToken::Keyword(Kw::Causes) => match causal_target_at(t, adv(t, p)) {
            Some((id, depth, e)) => Some((SpecClause::Causes { id, depth }, e)),
            None => None,
        },
        SpecToken::Keyword(Kw::Schema) => {
            // the `=` is skipped unread
            let q = adv(t, adv(t, p));
            match name_text(tok(t, q)) {
                Some(s) => Some((SpecClause::Schema(s), adv(t, q))),
                None => None,
            }
        },
        SpecToken::Keyword(Kw::Tag) => {
            let q = adv(t, p);
            match name_text(tok(t, q)) {
                Some(key) => {
                    // the `=` is skipped unread
                    let r = adv(t, adv(t, q));
                    match name_text(tok(t, r)) {
                        Some(value) => Some((SpecClause::Tag { key, value }, adv(t, r))),
                        None => None,
                    }
                },
                None => None,
            }
        },
        _ => None,
    }
}

pub proof fn lemma_float_list_bounds(t: Seq<SpecToken>, p: int)
    requires
        0 <= p <= t.len(),
    ensures
        p <= float_list_at(t, p).1 <= t.len(),
    decreases t.len() - p,
{
    match tok(t, p) {
        SpecToken::Number(n) => {
            let q = adv(t, p);
            if tok(t, q) == SpecToken::Comma {
                lemma_float_list_bounds(t, adv(t, q));
            }
        },
        _ => {},
    }
}

pub proof fn lemma_clause_bounds(t: Seq<SpecToken>, p: int)
    requires
        0 <= p <= t.len(),
    ensures
        clause_at(t, p) matches Some((c, e)) ==> p < e <= t.len(),
{
    reveal(clause_at);
    let q = adv(t, p);
    let r = adv(t, adv(t, adv(t, q)));
    lemma_float_list_bounds(t, r);
}

/// `AND clause` repeated, from `p`.
pub open spec fn and_clauses_at(t: Seq<SpecToken>, p: int) -> Option<(Seq<SpecClause>, int)>
    decreases t.len() - p,
{
    if 0 <= p <= t.len() && tok(t, p) == SpecToken::Keyword(Kw::And) {
        match clause_at(t, adv(t, p)) {
            Some((c, q)) => {
                proof {
                    lemma_clause_bounds(t, adv(t, p));
                }
                match and_clauses_at(t, q) {
                    Some((rest, e)) => Some((seq![c] + rest, e)),
                    None => None,
                }
            },
            None => None,
        }
    } else {
        Some((Seq::empty(), p))
    }
}

/// `clause [AND clause ...]` from `p`.
pub open spec fn where_at(t: Seq<SpecToken>, p: int) -> Option<(Seq<SpecClause>, int)> {
    match clause_at(t, p) {
        Some((c, q)) => match and_clauses_at(t, q) {
            Some((rest, e)) => Some((seq![c] + rest, e)),
            None => None,
        },
        None => None,
    }
}

/// The query built so far while reading the optional parts after `FIND records`.
pub open spec fn initial_query() -> SpecQuery {
    SpecQuery { clauses: Seq::empty(), order: OrderDir::TimeDesc, limit: 100, offset: 0 }
}

/// Reads the optional parts (`WHERE`, `ORDER BY`, `LIMIT`, `OFFSET`) from
/// `p` to the end, in any order and any number of times; other tokens are
/// skipped. `LIMIT` and `OFFSET` not followed by a number leave the value
/// as it was.
pub open spec fn items_at(t: Seq<SpecToken>, p: int, st: SpecQuery) -> Option<SpecQuery>
    decreases t.len() - p,
{
    if p < 0 || p >= t.len() || tok(t, p) == SpecToken::Eof {
        Some(st)
    } else {
        match tok(t, p) {
            SpecToken::Keyword(Kw::Where) => {
                proof {
                    lemma_where_bounds(t, adv(t, p));
                }
                match where_at(t, adv(t, p)) {
                    Some((cs, q)) => items_at(t, q, SpecQuery { clauses: st.clauses + cs, ..st }),
                    None => None,
                }
            },
            SpecToken::Keyword(Kw::Order) => {
                let q = adv(t, p);
                if tok(t, q) == SpecToken::Keyword(Kw::By) {
                    let (o, r) = order_at(t, adv(t, q));
                    items_at(t, r, SpecQuery { order: o, ..st })
                } else {
                    None
                }
            },
            SpecToken::Keyword(Kw::Limit) => {
                let q = adv(t, p);
                let limit = match tok(t, q) {
                    SpecToken::Number(n) => number_usize(n),
                    _ => st.limit,
                };
                items_at(t, adv(t, q), SpecQuery { limit, ..st })
            },
            SpecToken::Keyword(Kw::Offset) => {
                let q = adv(t, p);
                let offset = match tok(t, q) {
                    SpecToken::Number(n) => number_usize(n),
                    _ => st.offset,
                };
                items_at(t, adv(t, q), SpecQuery { offset, ..st })
            },
            _ => items_at(t, adv(t, p), st),
        }
    }
}

pub proof fn lemma_and_clauses_bounds(t: Seq<SpecToken>, p: int)
    requires
        0 <= p <= t.len(),
    ensures
        and_clauses_at(t, p) matches Some((cs, e)) ==> p <= e <= t.len(),
    decreases t.len() - p,
{
    if tok(t, p) == SpecToken::Keyword(Kw::And) {
        lemma_clause_bounds(t, adv(t, p));
        match clause_at(t, adv(t, p)) {
            Some((c, q)) => lemma_and_clauses_bounds(t, q),
            None => {},
        }
    }
}

pub proof fn lemma_where_bounds(t: Seq<SpecToken>, p: int)
    requires
        0 <= p <= t.len(),
    ensures
        where_at(t, p) matches Some((cs, e)) ==> p < e <= t.len(),
{
    lemma_clause_bounds(t, p);
    match clause_at(t, p) {
        Some((c, q)) => lemma_and_clauses_bounds(t, q),
        None => {},
    }
}

/// The query a token sequence spells, if any: `FIND records` then the
/// optional parts.
pub open spec fn parse_tokens(t: Seq<SpecToken>) -> Option<SpecQuery> {
    if tok(t, 0) == SpecToken::Keyword(Kw::Find) && tok(t, adv(t, 0)) == SpecToken::Keyword(Kw::Records) {
        items_at(t, adv(t, adv(t, 0)), initial_query())
    } else {
        None
    }
}

/// The query that the text `input` spells, if any.
pub open spec fn parsed(input: Seq<char>) -> Option<SpecQuery> {
    parse_tokens(lex(trimmed(input)))
}


// ---------------------------------------------------------------------------
// The parser

/// The text that names a token in error messages.
pub open spec fn token_text(t: SpecToken) -> Seq<char> {
    match t {
        SpecToken::Keyword(_) => "a keyword"@,
        SpecToken::Ident(s) => "identifier "@ + s,
        SpecToken::StringLit(s) => "string "@ + s,
        SpecToken::Number(s) => "number "@ + s,
        SpecToken::LBracket => "'['"@,
        SpecToken::RBracket => "']'"@,
        SpecToken::LParen => "'('"@,
        SpecToken::RParen => "')'"@,
        SpecToken::Comma => "','"@,
        SpecToken::Equals => "'='"@,
        SpecToken::Eof => "end of input"@,
    }
}

/// A short description of a token, for error messages.
fn describe(t: &Token) -> (r: String)
    ensures
        r@ == token_text(t@),
{
    match t {
        Token::Keyword(_) => "a keyword".to_owned(),
        Token::Ident(s) => "identifier ".to_owned().concat(s.as_str()),
        Token::StringLit(s) => "string ".to_owned().concat(s.as_str()),
        Token::Number(s) => "number ".to_owned().concat(s.as_str()),
        Token::LBracket => "'['".to_owned(),
        Token::RBracket => "']'".to_owned(),
        Token::LParen => "'('".to_owned(),
        Token::RParen => "')'".to_owned(),
        Token::Comma => "','".to_owned(),
        Token::Equals => "'='".to_owned(),
        Token::Eof => "end of input".to_owned(),
    }
}

/// A parse error that names what was expected and what was found.
fn parse_error(expected: &str, found: &Token) -> (e: AkashaError)
    ensures
        e is QueryParse,
{
    let msg = expected.to_owned().concat(", got ").concat(describe(found).as_str());
    AkashaError::QueryParse(msg)
}

/// The hexadecimal record id in `s`: 64 hexadecimal digits, surrounding
/// white space allowed.
pub fn parse_hex_id(s: &str) -> (r: Result<RecordId, AkashaError>)
    ensures
        match hex_id(s@) {
            Some(b) => r matches Ok(id) && id@ == b,
            None => r matches Err(e) && e is QueryParse,
        },
{
    let v = chars_of(s);
    let (lo, hi) = trim_bounds(&v);
    let mut w: Vec<char> = Vec::new();
    let mut i = lo;
    while i < hi
        invariant
            lo <= i <= hi <= v.len(),
            w@ == v@.subrange(lo as int, i as int),
        decreases hi - i,
    {
        w.push(v[i]);
        proof {
            assert(w@ =~= v@.subrange(lo as int, i + 1));
        }
        i = i + 1;
    }
    match decode(&w) {
        Some(bytes) => {
            if bytes.len() != 32 {
                return Err(AkashaError::QueryParse("hex ID must be 64 hex chars (32 bytes): ".to_owned().concat(s)));
            }
            let mut id: RecordId = [0u8; 32];
            let mut k: usize = 0;
            while k < 32
                invariant
                    k <= 32,
                    bytes@.len() == 32,
                    forall|j: int| 0 <= j < k ==> id@[j] == bytes@[j],
                decreases 32 - k,
            {
                id[k] = bytes[k];
                k = k + 1;
            }
            proof {
                assert(id@ =~= bytes@);
            }
            Ok(id)
        },
        None => Err(AkashaError::QueryParse("invalid hex ID: ".to_owned().concat(s))),
    }
}

/// A cursor over a token sequence that ends with `Eof`.
struct Parser {
    tokens: Vec<Token>,
    pos: usize,
}

impl Parser {
    spec fn toks(&self) -> Seq<SpecToken> {
        token_views(self.tokens@)
    }

    spec fn wf(&self) -> bool {
        &&& self.tokens.len() >= 1
        &&& self.tokens@.last()@ == SpecToken::Eof
        &&& self.pos <= self.tokens.len()
    }

    fn new(tokens: Vec<Token>) -> (p: Self)
        requires
            tokens.len() >= 1,
            tokens@.last()@ == SpecToken::Eof,
        ensures
            p.wf(),
            p.tokens@ == tokens@,
            p.pos == 0,
    {
        Parser { tokens, pos: 0 }
    }

    /// The current token (`Eof` past the end).
    fn peek(&self) -> (r: &Token)
        requires
            self.wf(),
        ensures
            r@ == tok(self.toks(), self.pos as int),
    {
        if self.pos < self.tokens.len() {
            &self.tokens[self.pos]
        } else {
            &self.tokens[self.tokens.len() - 1]
        }
    }

    /// Consumes the current token; returns where it stands.
    fn advance(&mut self) -> (idx: usize)
        requires
            old(self).wf(),
        ensures
            final(self).wf(),
            final(self).tokens@ == old(self).tokens@,
            final(self).pos == adv(old(self).toks(), old(self).pos as int),
            idx < final(self).tokens.len(),
            final(self).tokens@[idx as int]@ == tok(old(self).toks(), old(self).pos as int),
    {
        let idx = if self.pos < self.tokens.len() { self.pos } else { self.tokens.len() - 1 };
        if self.pos < self.tokens.len() {
            self.pos = self.pos + 1;
        }
        idx
    }

    fn peek_is_kw(&self, k: Kw) -> (r: bool)
        requires
            self.wf(),
        ensures
            r == (tok(self.toks(), self.pos as int) == SpecToken::Keyword(k)),
    {
        match self.peek() {
            Token::Keyword(x) => *x == k,
            _ => false,
        }
    }

    fn expect_keyword(&mut self, k: Kw) -> (r: Result<(), AkashaError>)
        requires
            old(self).wf(),
        ensures
            final(self).wf(),
            final(self).tokens@ == old(self).tokens@,
            final(self).pos == adv(old(self).toks(), old(self).pos as int),
            r is Ok <==> tok(old(self).toks(), old(self).pos as int) == SpecToken::Keyword(k),
            r matches Err(e) ==> e is QueryParse,
    {
        let idx = self.advance();
        match &self.tokens[idx] {
            Token::Keyword(x) => {
                if *x == k {
                    return Ok(());
                }
            },
            _ => {},
        }
        Err(parse_error("expected keyword", &self.tokens[idx]))
    }

    /// The text of the token at `idx` if it is a string literal or an identifier.
    fn name_at(&self, idx: usize) -> (r: Option<String>)
        requires
            idx < self.tokens.len(),
        ensures
            match name_text(self.tokens@[idx as int]@) {
                Some(s) => r matches Some(x) && x@ == s,
                None => r is None,
            },
    {
        match &self.tokens[idx] {
            Token::StringLit(s) => Some(s.clone()),
            Token::Ident(s) => Some(s.clone()),
            _ => None,
        }
    }

    fn parse_time_ref(&mut self) -> (r: Result<TimeRef, AkashaError>)
        requires
            old(self).wf(),
        ensures
            final(self).wf(),
            final(self).tokens@ == old(self).tokens@,
            match time_ref_at(old(self).toks(), old(self).pos as int) {
                Some((x, e)) => r matches Ok(v) && v@ == x && final(self).pos == e,
                None => r matches Err(err) && err is QueryParse,
            },
    {
        let ghost t = self.toks();
        match self.peek() {
            Token::StringLit(s) => {
                let s2 = s.clone();
                self.advance();
                Ok(TimeRef::Iso(s2))
            },
            Token::Number(n) => {
                let v = number_to_i64(n);
                self.advance();
                Ok(TimeRef::Nanos(v))
            },
            Token::Keyword(Kw::Now) => {
                self.advance();
                match self.peek() {
                    Token::Number(n) => {
                        let v = number_to_i64(n);
                        self.advance();
                        Ok(TimeRef::NowMinus(v))
                    },
                    _ => Ok(TimeRef::Now),
                }
            },
            other => Err(parse_error("expected time reference", other)),
        }
    }

    fn parse_float_list(&mut self) -> (r: Vec<String>)
        requires
            old(self).wf(),
        ensures
            final(self).wf(),
            final(self).tokens@ == old(self).tokens@,
            r@.map_values(|s: String| s@) == float_list_at(old(self).toks(), old(self).pos as int).0,
            final(self).pos == float_list_at(old(self).toks(), old(self).pos as int).1,
    {
        let ghost t = self.toks();
        let ghost p0 = self.pos as int;
        let ghost tk = self.tokens@;
        let mut vals: Vec<String> = Vec::new();
        loop
            invariant_except_break
                self.wf(),
                self.tokens@ == tk,
                self.toks() == t,
                float_list_at(t, p0).0 == vals@.map_values(|s: String| s@) + float_list_at(t, self.pos as int).0,
                float_list_at(t, p0).1 == float_list_at(t, self.pos as int).1,
            ensures
                self.wf(),
                self.tokens@ == tk,
                self.toks() == t,
                float_list_at(t, p0).0 == vals@.map_values(|s: String| s@),
                float_list_at(t, p0).1 == self.pos,
            decreases self.tokens.len() - self.pos,
        {
            let ghost p = self.pos as int;
            let ghost before = vals@.map_values(|s: String| s@);
            let n = match self.peek() {
                Token::Number(n) => n.clone(),
                _ => {
                    proof {
                        assert(float_list_at(t, p).0 =~= Seq::<Seq<char>>::empty());
                        assert(before + float_list_at(t, p).0 =~= before);
                    }
                    break;
                },
            };
            self.advance();
            vals.push(n);
            proof {
                assert(vals@.map_values(|s: String| s@) =~= before.push(n@));
            }
            if matches!(self.peek(), Token::Comma) {
                self.advance();
                proof {
                    let rest = float_list_at(t, self.pos as int);
                    assert(float_list_at(t, p).0 == seq![n@] + rest.0);
                    assert(before + (seq![n@] + rest.0) =~= before.push(n@) + rest.0);
                }
            } else {
                proof {
                    assert(float_list_at(t, p).0 == seq![n@]);
                    assert(before + seq![n@] =~= before.push(n@));
                }
                break;
            }
        }
        vals
    }

    fn parse_order(&mut self) -> (r: OrderDir)
        requires
            old(self).wf(),
        ensures
            final(self).wf(),
            final(self).tokens@ == old(self).tokens@,
            (r, final(self).pos as int) == order_at(old(self).toks(), old(self).pos as int),
    {
        if self.peek_is_kw(Kw::Time) {
            self.advance();
            if self.peek_is_kw(Kw::Asc) {
                self.advance();
                OrderDir::TimeAsc
            } else {
                OrderDir::TimeDesc
            }
        } else if self.peek_is_kw(Kw::Relevance) {
            self.advance();
            OrderDir::RelevanceDesc
        } else {
            OrderDir::TimeDesc
        }
    }

    /// `<hex_id> [WITH depth n]`.
    fn parse_causal_target(&mut self) -> (r: Result<(RecordId, usize), AkashaError>)
        requires
            old(self).wf(),
        ensures
            final(self).wf(),
            final(self).tokens@ == old(self).tokens@,
            match causal_target_at(old(self).toks(), old(self).pos as int) {
                Some((id, d, e)) => r matches Ok(x) && x.0@ == id && x.1 == d && final(self).pos == e,
                None => r matches Err(err) && err is QueryParse,
            },
    {
        let idx = self.advance();
        let text = match self.name_at(idx) {
            Some(s) => s,
            None => return Err(parse_error("expected hex ID", &self.tokens[idx])),
        };
        let id = parse_hex_id(text.as_str())?;
        let depth = if self.peek_is_kw(Kw::With) {
            self.advance();
            self.expect_keyword(Kw::Depth)?;
            let j = self.advance();
            match &self.tokens[j] {
                Token::Number(n) => number_to_usize(n),
                _ => 5,
            }
        } else {
            5
        };
        Ok((id, depth))
    }

    fn parse_clause(&mut self) -> (r: Result<Clause, AkashaError>)
        requires
            old(self).wf(),
        ensures
            final(self).wf(),
            final(self).tokens@ == old(self).tokens@,
            match clause_at(old(self).toks(), old(self).pos as int) {
                Some((c, e)) => r matches Ok(x) && x@ == c && final(self).pos == e,
                None => r matches Err(err) && err is QueryParse,
            },
    {
        let ghost t = self.toks();
        let ghost p = self.pos as int;
        reveal(clause_at);
        if self.peek_is_kw(Kw::Time) {
            self.advance();
            if self.peek_is_kw(Kw::Between) {
                self.advance();
                let from = self.parse_time_ref()?;
                self.expect_keyword(Kw::And)?;
                let to = self.parse_time_ref()?;
                Ok(Clause::TimeRange { from, to })
            } else if self.peek_is_kw(Kw::After) {
                self.advance();
                let x = self.parse_time_ref()?;
                Ok(Clause::TimeAfter(x))
            } else if self.peek_is_kw(Kw::Before) {
                self.advance();
                let x = self.parse_time_ref()?;
                Ok(Clause::TimeBefore(x))
            } else {
                Err(parse_error("unexpected token after TIME", self.peek()))
            }
        } else if self.peek_is_kw(Kw::SimilarTo) {
            self.advance();
            self.expect_keyword(Kw::Embedding)?;
            self.advance();
            self.advance();
            let embedding = self.parse_float_list();
            self.advance();
            self.advance();
            let threshold = if self.peek_is_kw(Kw::With) {
                self.advance();
                self.expect_keyword(Kw::Threshold)?;
                let j = self.advance();
                match &self.tokens[j] {
                    Token::Number(n) => n.clone(),
                    _ => "0.7".to_owned(),
                }
            } else {
                "0.7".to_owned()
            };
            proof {
                reveal_strlit("0.7");
                assert("0.7"@ =~= default_threshold());
            }
            let c = Clause::SimilarTo { embedding, threshold };
            Ok(c)
        } else if self.peek_is_kw(Kw::CausedBy) {
            self.advance();
            let (id, depth) = self.parse_causal_target()?;
            Ok(Clause::CausedBy { id, depth })
        } else if self.peek_is_kw(Kw::Causes) {
            self.advance();
            let (id, depth) = self.parse_causal_target()?;
            Ok(Clause::Causes { id, depth })
        } else if self.peek_is_kw(Kw::Schema) {
            self.advance();
            self.advance();
            let idx = self.advance();
            match self.name_at(idx) {
                Some(s) => Ok(Clause::Schema(s)),
                None => Err(parse_error("expected schema name", &self.tokens[idx])),
            }
        } else if self.peek_is_kw(Kw::Tag) {
            self.advance();
            let kidx = self.advance();
            let key = match self.name_at(kidx) {
                Some(s) => s,
                None => return Err(parse_error("expected tag key", &self.tokens[kidx])),
            };
            self.advance();
            let vidx = self.advance();
            match self.name_at(vidx) {
                Some(value) => Ok(Clause::Tag { key, value }),
                None => Err(parse_error("expected tag value", &self.tokens[vidx])),
            }
        } else {
            Err(parse_error("unexpected clause start", self.peek()))
        }
    }

    /// `clause [AND clause ...]`, appending the clauses to `clauses`.
    fn parse_where_list(&mut self, clauses: &mut Vec<Clause>) -> (r: Result<(), AkashaError>)
        requires
            old(self).wf(),
        ensures
            final(self).wf(),
            final(self).tokens@ == old(self).tokens@,
            match where_at(old(self).toks(), old(self).pos as int) {
                Some((cs, e)) => r is Ok && final(self).pos == e
                    && final(clauses)@.map_values(|c: Clause| c@) == old(clauses)@.map_values(|c: Clause| c@) + cs,
                None => r matches Err(err) && err is QueryParse,
            },
    {
        let ghost t = self.toks();
        let ghost tk = self.tokens@;
        let ghost p = self.pos as int;
        let ghost start = clauses@.map_values(|c: Clause| c@);
        let ghost goal = where_at(t, p);
        let c = self.parse_clause()?;
        clauses.push(c);
        proof {
            lemma_clause_bounds(t, p);
            assert(clauses@.map_values(|c: Clause| c@) =~= start.push(c@));
        }
        while self.peek_is_kw(Kw::And)
            invariant
                self.wf(),
                self.tokens@ == tk,
                tk == old(self).tokens@,
                t == old(self).toks(),
                p == old(self).pos,
                goal == where_at(t, p),
                self.toks() == t,
                p < self.pos,
                goal == match and_clauses_at(t, self.pos as int) {
                    Some((rest, e)) => Some((clauses@.map_values(|c: Clause| c@).subrange(start.len() as int,
                        clauses@.len() as int) + rest, e)),
                    None => None,
                },
                clauses@.len() >= start.len(),
                clauses@.map_values(|c: Clause| c@).subrange(0, start.len() as int) == start,
            decreases self.tokens.len() - self.pos,
        {
            let ghost q = self.pos as int;
            let ghost before = clauses@.map_values(|c: Clause| c@);
            self.advance();
            let c = match self.parse_clause() {
                Ok(c) => c,
                Err(e) => {
                    proof {
                        assert(and_clauses_at(t, q) is None);
                    }
                    return Err(e);
                },
            };
            clauses.push(c);
            proof {
                lemma_clause_bounds(t, q + 1);
                let after = clauses@.map_values(|c: Clause| c@);
                assert(after =~= before.push(c@));
                assert(after.subrange(0, start.len() as int) =~= before.subrange(0, start.len() as int));
                let added = before.subrange(start.len() as int, before.len() as int);
                assert(after.subrange(start.len() as int, after.len() as int) =~= added.push(c@));
                match and_clauses_at(t, self.pos as int) {
                    Some((rest, e)) => {
                        assert(added + (seq![c@] + rest) =~= added.push(c@) + rest);
                    },
                    None => {},
                }
            }
        }
        proof {
            let after = clauses@.map_values(|c: Clause| c@);
            let added = after.subrange(start.len() as int, after.len() as int);
            assert(added + Seq::<SpecClause>::empty() =~= added);
            assert(after =~= start + added);
        }
        Ok(())
    }

    /// `FIND records` followed by the optional parts.
    fn parse_query(&mut self) -> (r: Result<AqslQuery, AkashaError>)
        requires
            old(self).wf(),
            old(self).pos == 0,
        ensures
            match parse_tokens(old(self).toks()) {
                Some(q) => r matches Ok(x) && x@ == q,
                None => r matches Err(err) && err is QueryParse,
            },
    {
        let ghost t = self.toks();
        let ghost tk = self.tokens@;
        self.expect_keyword(Kw::Find)?;
        self.expect_keyword(Kw::Records)?;
        let mut clauses: Vec<Clause> = Vec::new();
        let mut order = OrderDir::TimeDesc;
        let mut limit: usize = 100;
        let mut offset: usize = 0;
        let ghost goal = parse_tokens(t);
        proof {
            assert(clauses@.map_values(|c: Clause| c@) =~= Seq::<SpecClause>::empty());
        }
        while !matches!(self.peek(), Token::Eof)
            invariant
                self.wf(),
                self.tokens@ == tk,
                self.toks() == t,
                t == old(self).toks(),
                goal == parse_tokens(t),
                goal == items_at(t, self.pos as int, SpecQuery {
                    clauses: clauses@.map_values(|c: Clause| c@), order, limit, offset }),
            decreases self.tokens.len() - self.pos,
        {
            let ghost p = self.pos as int;
            let ghost st = SpecQuery { clauses: clauses@.map_values(|c: Clause| c@), order, limit, offset };
            if self.peek_is_kw(Kw::Where) {
                self.advance();
                match self.parse_where_list(&mut clauses) {
                    Ok(()) => {},
                    Err(e) => {
                        proof {
                            assert(items_at(t, p, st) is None);
                        }
                        return Err(e);
                    },
                }
                proof {
                    lemma_where_bounds(t, p + 1);
                }
            } else if self.peek_is_kw(Kw::Order) {
                self.advance();
                match self.expect_keyword(Kw::By) {
                    Ok(()) => {},
                    Err(e) => {
                        proof {
                            assert(items_at(t, p, st) is None);
                        }
                        return Err(e);
                    },
                }
                order = self.parse_order();
            } else if self.peek_is_kw(Kw::Limit) {
                self.advance();
                let j = self.advance();
                match &self.tokens[j] {
                    Token::Number(n) => {
                        limit = number_to_usize(n);
                    },
                    _ => {},
                }
            } else if self.peek_is_kw(Kw::Offset) {
                self.advance();
                let j = self.advance();
                match &self.tokens[j] {
                    Token::Number(n) => {
                        offset = number_to_usize(n);
                    },
                    _ => {},
                }
            } else {
                self.advance();
            }
        }
        Ok(AqslQuery { clauses, order, limit, offset })
    }
}


/// Parses a query string (surrounding white space is ignored).
pub fn parse(input: &str) -> (r: Result<AqslQuery, AkashaError>)
    ensures
        match parsed(input@) {
            Some(q) => r matches Ok(x) && x@ == q,
            None => r matches Err(e) && e is QueryParse,
        },
{
    let v = chars_of(input);
    let (lo, hi) = trim_bounds(&v);
    let mut w: Vec<char> = Vec::new();
    let mut i = lo;
    while i < hi
        invariant
            lo <= i <= hi <= v.len(),
            w@ == v@.subrange(lo as int, i as int),
        decreases hi - i,
    {
        w.push(v[i]);
        proof {
            assert(w@ =~= v@.subrange(lo as int, i + 1));
        }
        i = i + 1;
    }
    let tokens = tokenize_chars(&w);
    proof {
        assert(token_views(tokens@).len() == tokens@.len());
        assert(tokens@.last()@ == token_views(tokens@).last());
    }
    let mut p = Parser::new(tokens);
    p.parse_query()
}

} // verus!

verus! {

/// A number list is read in the order it is written: from `p`, entry `i`
/// of the list is the number token at `p + 2i`, consecutive numbers are
/// separated by commas, the list is empty exactly when no number stands at
/// `p`, and it stops only where no further number follows a comma.
pub proof fn law_float_list_in_order(t: Seq<SpecToken>, p: int)
    requires
        0 <= p,
    ensures
        ({
            let r = float_list_at(t, p);
            &&& forall|i: int| 0 <= i < r.0.len() ==> tok(t, p + 2 * i) == SpecToken::Number(#[trigger] r.0[i])
            &&& forall|i: int| 0 <= i < r.0.len() - 1 ==> #[trigger] tok(t, p + 2 * i + 1) == SpecToken::Comma
            &&& (r.0.len() == 0 <==> !(tok(t, p) is Number))
            &&& r.0.len() > 0 && tok(t, p + 2 * r.0.len() - 1) == SpecToken::Comma
                ==> !(tok(t, p + 2 * r.0.len()) is Number)
        }),
    decreases t.len() - p,
{
    let r = float_list_at(t, p);
    if let SpecToken::Number(n) = tok(t, p) {
        assert(p < t.len());
        let q = adv(t, p);
        assert(q == p + 1);
        if tok(t, q) == SpecToken::Comma {
            assert(q < t.len());
            law_float_list_in_order(t, p + 2);
            let rest = float_list_at(t, p + 2);
            assert(adv(t, q) == p + 2);
            assert(r.0 == seq![n] + rest.0);
            assert forall|i: int| 0 <= i < r.0.len() implies tok(t, p + 2 * i) == SpecToken::Number(#[trigger] r.0[i]) by {
                if i > 0 {
                    assert(r.0[i] == rest.0[i - 1]);
                    assert(p + 2 * i == (p + 2) + 2 * (i - 1));
                }
            }
            assert forall|i: int| 0 <= i < r.0.len() - 1 implies #[trigger] tok(t, p + 2 * i + 1) == SpecToken::Comma by {
                if i > 0 {
                    assert(p + 2 * i + 1 == (p + 2) + 2 * (i - 1) + 1);
                }
            }
            if rest.0.len() == 0 {
                assert(!(tok(t, p + 2) is Number));
            } else {
                assert(p + 2 * r.0.len() - 1 == (p + 2) + 2 * rest.0.len() - 1);
                assert(p + 2 * r.0.len() == (p + 2) + 2 * rest.0.len());
            }
        }
    }
}

} // verus!
