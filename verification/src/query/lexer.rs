//! Splitting a query string into tokens.

use vstd::prelude::*;
use crate::ext::text::{char_is_alphabetic, char_is_numeric, upper_text, is_alphabetic, is_numeric, to_uppercase};
use crate::text::{ascii_letter, all_ascii, ascii_upper, ascii_upper_char};
use crate::text::{chars_of, string_of};

verus! {

/// The reserved words of the query language.
#[derive(PartialEq, Eq, Structural, Clone, Copy, Debug)]
pub enum Kw {
    Find, Records, Where, And, Or, Order, By, Limit, Offset, Time, Between, After,
    Before, SimilarTo, Embedding, With, Threshold, CausedBy, Causes, Schema, Tag,
    Asc, Desc, Relevance, Now, Depth,
}

/// A lexical token. Numbers keep the text they were written with.
#[derive(Debug)]
pub enum Token {
    Keyword(Kw),
    Ident(String),
    StringLit(String),
    Number(String),
    LBracket,
    RBracket,
    LParen,
    RParen,
    Comma,
    Equals,
    Eof,
}

/// A token as a mathematical value.
pub enum SpecToken {
    Keyword(Kw),
    Ident(Seq<char>),
    StringLit(Seq<char>),
    Number(Seq<char>),
    LBracket,
    RBracket,
    LParen,
    RParen,
    Comma,
    Equals,
    Eof,
}

impl View for Token {
    type V = SpecToken;

    open spec fn view(&self) -> SpecToken {
        match self {
            Token::Keyword(k) => SpecToken::Keyword(*k),
            Token::Ident(s) => SpecToken::Ident(s@),
            Token::StringLit(s) => SpecToken::StringLit(s@),
            Token::Number(s) => SpecToken::Number(s@),
            Token::LBracket => SpecToken::LBracket,
            Token::RBracket => SpecToken::RBracket,
            Token::LParen => SpecToken::LParen,
            Token::RParen => SpecToken::RParen,
            Token::Comma => SpecToken::Comma,
            Token::Equals => SpecToken::Equals,
            Token::Eof => SpecToken::Eof,
        }
    }
}

/// The upper-case spelling of each reserved word.
pub open spec fn kw_text(k: Kw) -> Seq<char> {
    match k {
        Kw::Find => seq!['F', 'I', 'N', 'D'],
        Kw::Records => seq!['R', 'E', 'C', 'O', 'R', 'D', 'S'],
        Kw::Where => seq!['W', 'H', 'E', 'R', 'E'],
        Kw::And => seq!['A', 'N', 'D'],
        Kw::Or => seq!['O', 'R'],
        Kw::Order => seq!['O', 'R', 'D', 'E', 'R'],
        Kw::By => seq!['B', 'Y'],
        Kw::Limit => seq!['L', 'I', 'M', 'I', 'T'],
        Kw::Offset => seq!['O', 'F', 'F', 'S', 'E', 'T'],
        Kw::Time => seq!['T', 'I', 'M', 'E'],
        Kw::Between => seq!['B', 'E', 'T', 'W', 'E', 'E', 'N'],
        Kw::After => seq!['A', 'F', 'T', 'E', 'R'],
        Kw::Before => seq!['B', 'E', 'F', 'O', 'R', 'E'],
        Kw::SimilarTo => seq!['S', 'I', 'M', 'I', 'L', 'A', 'R', '_', 'T', 'O'],
        Kw::Embedding => seq!['E', 'M', 'B', 'E', 'D', 'D', 'I', 'N', 'G'],
        Kw::With => seq!['W', 'I', 'T', 'H'],
        Kw::Threshold => seq!['T', 'H', 'R', 'E', 'S', 'H', 'O', 'L', 'D'],
        Kw::CausedBy => seq!['C', 'A', 'U', 'S', 'E', 'D', '_', 'B', 'Y'],
        Kw::Causes => seq!['C', 'A', 'U', 'S', 'E', 'S'],
        Kw::Schema => seq!['S', 'C', 'H', 'E', 'M', 'A'],
        Kw::Tag => seq!['T', 'A', 'G'],
        Kw::Asc => seq!['A', 'S', 'C'],
        Kw::Desc => seq!['D', 'E', 'S', 'C'],
        Kw::Relevance => seq!['R', 'E', 'L', 'E', 'V', 'A', 'N', 'C', 'E'],
        Kw::Now => seq!['N', 'O', 'W'],
        Kw::Depth => seq!['D', 'E', 'P', 'T', 'H'],
    }
}

/// The reserved word spelled `u`, if any.
pub open spec fn keyword_of(u: Seq<char>) -> Option<Kw> {
    if u == kw_text(Kw::Find) { Some(Kw::Find) }
    else if u == kw_text(Kw::Records) { Some(Kw::Records) }
    else if u == kw_text(Kw::Where) { Some(Kw::Where) }
    else if u == kw_text(Kw::And) { Some(Kw::And) }
    else if u == kw_text(Kw::Or) { Some(Kw::Or) }
    else if u == kw_text(Kw::Order) { Some(Kw::Order) }
    else if u == kw_text(Kw::By) { Some(Kw::By) }
    else if u == kw_text(Kw::Limit) { Some(Kw::Limit) }
    else if u == kw_text(Kw::Offset) { Some(Kw::Offset) }
    else if u == kw_text(Kw::Time) { Some(Kw::Time) }
    else if u == kw_text(Kw::Between) { Some(Kw::Between) }
    else if u == kw_text(Kw::After) { Some(Kw::After) }
    else if u == kw_text(Kw::Before) { Some(Kw::Before) }
    else if u == kw_text(Kw::SimilarTo) { Some(Kw::SimilarTo) }
    else if u == kw_text(Kw::Embedding) { Some(Kw::Embedding) }
    else if u == kw_text(Kw::With) { Some(Kw::With) }
    else if u == kw_text(Kw::Threshold) { Some(Kw::Threshold) }
    else if u == kw_text(Kw::CausedBy) { Some(Kw::CausedBy) }
    else if u == kw_text(Kw::Causes) { Some(Kw::Causes) }
    else if u == kw_text(Kw::Schema) { Some(Kw::Schema) }
    else if u == kw_text(Kw::Tag) { Some(Kw::Tag) }
    else if u == kw_text(Kw::Asc) { Some(Kw::Asc) }
    else if u == kw_text(Kw::Desc) { Some(Kw::Desc) }
    else if u == kw_text(Kw::Relevance) { Some(Kw::Relevance) }
    else if u == kw_text(Kw::Now) { Some(Kw::Now) }
    else if u == kw_text(Kw::Depth) { Some(Kw::Depth) }
    else { None }
}

fn text_is(u: &Vec<char>, k: &[char]) -> (r: bool)
    ensures
        r == (u@ == k@),
{
    if u.len() != k.len() {
        return false;
    }
    let mut i: usize = 0;
    while i < u.len()
        invariant
            u.len() == k@.len(),
            i <= u.len(),
            forall|j: int| 0 <= j < i ==> u@[j] == k@[j],
        decreases u.len() - i,
    {
        if u[i] != k[i] {
            return false;
        }
        i = i + 1;
    }
    proof {
        assert(u@ =~= k@);
    }
    true
}

/// The reserved word spelled by `u`, if any.
pub fn keyword_from(u: &Vec<char>) -> (r: Option<Kw>)
    ensures
        r == keyword_of(u@),
{
    if text_is(u, &['F', 'I', 'N', 'D']) { return Some(Kw::Find); }
    if text_is(u, &['R', 'E', 'C', 'O', 'R', 'D', 'S']) { return Some(Kw::Records); }
    if text_is(u, &['W', 'H', 'E', 'R', 'E']) { return Some(Kw::Where); }
    if text_is(u, &['A', 'N', 'D']) { return Some(Kw::And); }
    if text_is(u, &['O', 'R']) { return Some(Kw::Or); }
    if text_is(u, &['O', 'R', 'D', 'E', 'R']) { return Some(Kw::Order); }
    if text_is(u, &['B', 'Y']) { return Some(Kw::By); }
    if text_is(u, &['L', 'I', 'M', 'I', 'T']) { return Some(Kw::Limit); }
    if text_is(u, &['O', 'F', 'F', 'S', 'E', 'T']) { return Some(Kw::Offset); }
    if text_is(u, &['T', 'I', 'M', 'E']) { return Some(Kw::Time); }
    if text_is(u, &['B', 'E', 'T', 'W', 'E', 'E', 'N']) { return Some(Kw::Between); }
    if text_is(u, &['A', 'F', 'T', 'E', 'R']) { return Some(Kw::After); }
    if text_is(u, &['B', 'E', 'F', 'O', 'R', 'E']) { return Some(Kw::Before); }
    if text_is(u, &['S', 'I', 'M', 'I', 'L', 'A', 'R', '_', 'T', 'O']) { return Some(Kw::SimilarTo); }
    if text_is(u, &['E', 'M', 'B', 'E', 'D', 'D', 'I', 'N', 'G']) { return Some(Kw::Embedding); }
    if text_is(u, &['W', 'I', 'T', 'H']) { return Some(Kw::With); }
    if text_is(u, &['T', 'H', 'R', 'E', 'S', 'H', 'O', 'L', 'D']) { return Some(Kw::Threshold); }
    if text_is(u, &['C', 'A', 'U', 'S', 'E', 'D', '_', 'B', 'Y']) { return Some(Kw::CausedBy); }
    if text_is(u, &['C', 'A', 'U', 'S', 'E', 'S']) { return Some(Kw::Causes); }
    if text_is(u, &['S', 'C', 'H', 'E', 'M', 'A']) { return Some(Kw::Schema); }
    if text_is(u, &['T', 'A', 'G']) { return Some(Kw::Tag); }
    if text_is(u, &['A', 'S', 'C']) { return Some(Kw::Asc); }
    if text_is(u, &['D', 'E', 'S', 'C']) { return Some(Kw::Desc); }
    if text_is(u, &['R', 'E', 'L', 'E', 'V', 'A', 'N', 'C', 'E']) { return Some(Kw::Relevance); }
    if text_is(u, &['N', 'O', 'W']) { return Some(Kw::Now); }
    if text_is(u, &['D', 'E', 'P', 'T', 'H']) { return Some(Kw::Depth); }
    None
}


/// Characters skipped between tokens.
pub open spec fn is_blank(c: char) -> bool {
    c == ' ' || c == '\t' || c == '\n' || c == '\r'
}

/// ASCII decimal digits.
pub open spec fn is_digit(c: char) -> bool {
    '0' <= c && c <= '9'
}

/// Characters that continue a number.
pub open spec fn is_num_char(c: char) -> bool {
    is_digit(c) || c == '.'
}

/// Letters, as `char::is_alphabetic` tests them: in ASCII exactly `a`-`z`
/// and `A`-`Z`.
pub open spec fn letter(c: char) -> bool {
    if (c as u32) < 128 { ascii_letter(c) } else { char_is_alphabetic(c) }
}

/// Numeric characters, as `char::is_numeric` tests them: in ASCII exactly
/// the digits.
pub open spec fn numeric(c: char) -> bool {
    if (c as u32) < 128 { is_digit(c) } else { char_is_numeric(c) }
}

/// The upper-case form of a word, as `str::to_uppercase` gives it: for ASCII
/// text, `a`-`z` made `A`-`Z`.
pub open spec fn upper_word(w: Seq<char>) -> Seq<char> {
    if all_ascii(w) { ascii_upper(w) } else { upper_text(w) }
}

/// Characters that start a word.
pub open spec fn is_word_start(c: char) -> bool {
    letter(c) || c == '_'
}

/// Characters that continue a word: alphanumerics, `_`, `.` and `:`.
pub open spec fn is_word_char(c: char) -> bool {
    letter(c) || numeric(c) || c == '_' || c == '.' || c == ':'
}

/// End of the longest run of number characters of `s` from `i`.
pub open spec fn num_run_end(s: Seq<char>, i: int) -> int
    decreases s.len() - i,
{
    if 0 <= i < s.len() && is_num_char(s[i]) {
        num_run_end(s, i + 1)
    } else {
        i
    }
}

/// End of the longest run of word characters of `s` from `i`.
pub open spec fn word_run_end(s: Seq<char>, i: int) -> int
    decreases s.len() - i,
{
    if 0 <= i < s.len() && is_word_char(s[i]) {
        word_run_end(s, i + 1)
    } else {
        i
    }
}

/// Index of the first `q` in `s` at or after `i`, or `s.len()`.
pub open spec fn quote_end(s: Seq<char>, i: int, q: char) -> int
    decreases s.len() - i,
{
    if 0 <= i < s.len() && s[i] != q {
        quote_end(s, i + 1, q)
    } else {
        i
    }
}

/// Number of ASCII digits in `s`.
pub open spec fn count_digits(s: Seq<char>) -> nat
    decreases s.len(),
{
    if s.len() == 0 {
        0
    } else {
        count_digits(s.drop_last()) + if is_digit(s.last()) { 1nat } else { 0nat }
    }
}

/// Number of dots in `s`.
pub open spec fn count_dots(s: Seq<char>) -> nat
    decreases s.len(),
{
    if s.len() == 0 {
        0
    } else {
        count_dots(s.drop_last()) + if s.last() == '.' { 1nat } else { 0nat }
    }
}

/// The text after an optional leading minus sign.
pub open spec fn unsigned_part(t: Seq<char>) -> Seq<char> {
    if t.len() > 0 && t[0] == '-' { t.drop_first() } else { t }
}

/// Whether a run `-?[0-9.]*` is a decimal number: at least one digit and at
/// most one dot (the strings of this shape that `f64::from_str` accepts).
pub open spec fn number_ok(t: Seq<char>) -> bool {
    count_digits(unsigned_part(t)) >= 1 && count_dots(unsigned_part(t)) <= 1
}

/// The token a word becomes: a reserved word if its upper-case form is one.
pub open spec fn word_token(w: Seq<char>) -> SpecToken {
    match keyword_of(upper_word(w)) {
        Some(k) => SpecToken::Keyword(k),
        None => SpecToken::Ident(w),
    }
}

/// One step of the lexer at index `i`: the token produced, if any, and the
/// index where the next step starts.
pub open spec fn lex_step(s: Seq<char>, i: int) -> (Option<SpecToken>, int) {
    let c = s[i];
    if is_blank(c) {
        (None, i + 1)
    } else if c == '[' {
        (Some(SpecToken::LBracket), i + 1)
    } else if c == ']' {
        (Some(SpecToken::RBracket), i + 1)
    } else if c == '(' {
        (Some(SpecToken::LParen), i + 1)
    } else if c == ')' {
        (Some(SpecToken::RParen), i + 1)
    } else if c == ',' {
        (Some(SpecToken::Comma), i + 1)
    } else if c == '=' {
        (Some(SpecToken::Equals), i + 1)
    } else if c == '"' || c == '\'' {
        let j = quote_end(s, i + 1, c);
        (Some(SpecToken::StringLit(s.subrange(i + 1, j))), if j < s.len() { j + 1 } else { j })
    } else if c == '-' || is_digit(c) {
        let j = num_run_end(s, if c == '-' { i + 1 } else { i });
        let t = s.subrange(i, j);
        (if number_ok(t) { Some(SpecToken::Number(t)) } else { None }, j)
    } else if is_word_start(c) {
        let j = word_run_end(s, i);
        (Some(word_token(s.subrange(i, j))), j)
    } else {
        (None, i + 1)
    }
}

pub proof fn lemma_run_ends(s: Seq<char>, i: int, q: char)
    requires
        0 <= i <= s.len(),
    ensures
        i <= num_run_end(s, i) <= s.len(),
        i <= word_run_end(s, i) <= s.len(),
        i <= quote_end(s, i, q) <= s.len(),
    decreases s.len() - i,
{
    if i < s.len() {
        lemma_run_ends(s, i + 1, q);
    }
}

pub proof fn lemma_step_advances(s: Seq<char>, i: int)
    requires
        0 <= i < s.len(),
    ensures
        i < lex_step(s, i).1 <= s.len(),
{
    lemma_run_ends(s, i, s[i]);
    lemma_run_ends(s, i + 1, s[i]);
}

/// The tokens of `s` from index `i` on (without the final end marker).
pub open spec fn lex_from(s: Seq<char>, i: int) -> Seq<SpecToken>
    decreases s.len() - i,
{
    if 0 <= i < s.len() {
        let (t, n) = lex_step(s, i);
        proof {
            lemma_step_advances(s, i);
        }
        match t {
            Some(tok) => seq![tok] + lex_from(s, n),
            None => lex_from(s, n),
        }
    } else {
        Seq::empty()
    }
}

/// The tokens of `s`, ended by `Eof`.
pub open spec fn lex(s: Seq<char>) -> Seq<SpecToken> {
    lex_from(s, 0).push(SpecToken::Eof)
}

/// The views of a sequence of tokens.
pub open spec fn token_views(v: Seq<Token>) -> Seq<SpecToken> {
    v.map_values(|t: Token| t@)
}

fn num_end(v: &Vec<char>, i: usize) -> (j: usize)
    requires
        i <= v.len(),
    ensures
        j == num_run_end(v@, i as int),
{
    let mut j = i;
    while j < v.len() && (('0' <= v[j] && v[j] <= '9') || v[j] == '.')
        invariant
            i <= j <= v.len(),
            num_run_end(v@, i as int) == num_run_end(v@, j as int),
        decreases v.len() - j,
    {
        j = j + 1;
    }
    j
}

fn word_end(v: &Vec<char>, i: usize) -> (j: usize)
    requires
        i <= v.len(),
    ensures
        j == word_run_end(v@, i as int),
{
    let mut j = i;
    while j < v.len() && (is_alphabetic(v[j]) || is_numeric(v[j]) || v[j] == '_' || v[j] == '.' || v[j] == ':')
        invariant
            i <= j <= v.len(),
            word_run_end(v@, i as int) == word_run_end(v@, j as int),
        decreases v.len() - j,
    {
        j = j + 1;
    }
    j
}

fn find_quote(v: &Vec<char>, i: usize, q: char) -> (j: usize)
    requires
        i <= v.len(),
    ensures
        j == quote_end(v@, i as int, q),
{
    let mut j = i;
    while j < v.len() && v[j] != q
        invariant
            i <= j <= v.len(),
            quote_end(v@, i as int, q) == quote_end(v@, j as int, q),
        decreases v.len() - j,
    {
        j = j + 1;
    }
    j
}

fn is_number_text(v: &Vec<char>, lo: usize, hi: usize) -> (r: bool)
    requires
        lo <= hi <= v.len(),
    ensures
        r == number_ok(v@.subrange(lo as int, hi as int)),
{
    let ghost t = v@.subrange(lo as int, hi as int);
    let start = if lo < hi && v[lo] == '-' { lo + 1 } else { lo };
    let ghost body = v@.subrange(start as int, hi as int);
    assert(unsigned_part(t) =~= body);
    let mut digits: usize = 0;
    let mut dots: usize = 0;
    let mut k = start;
    while k < hi
        invariant
            start <= k <= hi <= v.len(),
            digits == count_digits(v@.subrange(start as int, k as int)),
            dots == count_dots(v@.subrange(start as int, k as int)),
            digits + dots <= k - start,
        decreases hi - k,
    {
        proof {
            let a = v@.subrange(start as int, k + 1);
            assert(a.drop_last() =~= v@.subrange(start as int, k as int));
            assert(a.last() == v@[k as int]);
        }
        if '0' <= v[k] && v[k] <= '9' {
            digits = digits + 1;
        } else if v[k] == '.' {
            dots = dots + 1;
        }
        k = k + 1;
    }
    digits >= 1 && dots <= 1
}

/// The token for the word `v[lo..hi]`.
fn word_to_token(v: &Vec<char>, lo: usize, hi: usize) -> (t: Token)
    requires
        lo <= hi <= v.len(),
    ensures
        t@ == word_token(v@.subrange(lo as int, hi as int)),
{
    let w = string_of(v, lo, hi);
    let up = to_uppercase(w.as_str());
    let upc = chars_of(up.as_str());
    match keyword_from(&upc) {
        Some(k) => Token::Keyword(k),
        None => Token::Ident(w),
    }
}

/// Tokenizes `v`: the tokens of `lex_from(v, 0)` followed by `Eof`.
pub fn tokenize_chars(v: &Vec<char>) -> (toks: Vec<Token>)
    ensures
        token_views(toks@) == lex(v@),
{
    let mut toks: Vec<Token> = Vec::new();
    let mut i: usize = 0;
    while i < v.len()
        invariant
            i <= v.len(),
            token_views(toks@) + lex_from(v@, i as int) == lex_from(v@, 0),
        decreases v.len() - i,
    {
        let ghost s = v@;
        let ghost before = token_views(toks@);
        proof {
            lemma_step_advances(s, i as int);
        }
        let c = v[i];
        let mut produced: Option<Token> = None;
        let next: usize;
        if c == ' ' || c == '\t' || c == '\n' || c == '\r' {
            next = i + 1;
        } else if c == '[' {
            produced = Some(Token::LBracket);
            next = i + 1;
        } else if c == ']' {
            produced = Some(Token::RBracket);
            next = i + 1;
        } else if c == '(' {
            produced = Some(Token::LParen);
            next = i + 1;
        } else if c == ')' {
            produced = Some(Token::RParen);
            next = i + 1;
        } else if c == ',' {
            produced = Some(Token::Comma);
            next = i + 1;
        } else if c == '=' {
            produced = Some(Token::Equals);
            next = i + 1;
        } else if c == '"' || c == '\'' {
            let j = find_quote(v, i + 1, c);
            proof {
                lemma_run_ends(s, i + 1, c);
            }
            produced = Some(Token::StringLit(string_of(v, i + 1, j)));
            next = if j < v.len() { j + 1 } else { j };
        } else if c == '-' || ('0' <= c && c <= '9') {
            let j = num_end(v, if c == '-' { i + 1 } else { i });
            proof {
                lemma_run_ends(s, if c == '-' { i + 1 } else { i as int }, c);
            }
            if is_number_text(v, i, j) {
                produced = Some(Token::Number(string_of(v, i, j)));
            }
            next = j;
        } else if is_alphabetic(c) || c == '_' {
            let j = word_end(v, i);
            proof {
                lemma_run_ends(s, i as int, c);
            }
            produced = Some(word_to_token(v, i, j));
            next = j;
        } else {
            next = i + 1;
        }
        proof {
            assert(produced.is_some() == lex_step(s, i as int).0.is_some());
            assert(produced matches Some(t) ==> lex_step(s, i as int).0 == Some(t@));
            assert(next == lex_step(s, i as int).1);
        }
        match produced {
            Some(t) => {
                toks.push(t);
                proof {
                    assert(token_views(toks@) =~= before.push(lex_step(s, i as int).0->0));
                    assert(lex_from(s, i as int) == seq![lex_step(s, i as int).0->0] + lex_from(s, next as int));
                    assert(token_views(toks@) + lex_from(s, next as int) =~= before + lex_from(s, i as int));
                }
            },
            None => {},
        }
        i = next;
    }
    toks.push(Token::Eof);
    proof {
        assert(token_views(toks@) =~= lex(v@));
    }
    toks
}

/// Tokenizes `input` as written (no trimming): its tokens followed by `Eof`.
pub fn tokenize(input: &str) -> (toks: Vec<Token>)
    ensures
        token_views(toks@) == lex(input@),
{
    let v = chars_of(input);
    tokenize_chars(&v)
}

} // verus!

verus! {

/// Each reserved word is found from its own spelling.
proof fn lemma_keyword_of_text(k: Kw)
    ensures
        keyword_of(kw_text(k)) == Some(k),
{
    match k {
        Kw::Find => {
            assert(keyword_of(kw_text(Kw::Find)) == Some(Kw::Find));
        },
        Kw::Records => {
            assert(keyword_of(kw_text(Kw::Records)) == Some(Kw::Records));
        },
        Kw::Where => {
            assert(keyword_of(kw_text(Kw::Where)) == Some(Kw::Where));
        },
        Kw::And => {
            assert(keyword_of(kw_text(Kw::And)) == Some(Kw::And));
        },
        Kw::Or => {
            assert(keyword_of(kw_text(Kw::Or)) == Some(Kw::Or));
        },
        Kw::Order => {
            assert(kw_text(Kw::Order)[0] != kw_text(Kw::Where)[0]);
            assert(kw_text(Kw::Order) != kw_text(Kw::Where));
            assert(kw_text(Kw::Order).len() != kw_text(Kw::Find).len());
            assert(kw_text(Kw::Order) != kw_text(Kw::Find));
            assert(kw_text(Kw::Order) != kw_text(Kw::Records));
            assert(kw_text(Kw::Order) != kw_text(Kw::And));
            assert(kw_text(Kw::Order) != kw_text(Kw::Or));
            assert(keyword_of(kw_text(Kw::Order)) == Some(Kw::Order));
        },
        Kw::By => {
            assert(keyword_of(kw_text(Kw::By)) == Some(Kw::By));
        },
        Kw::Limit => {
            assert(keyword_of(kw_text(Kw::Limit)) == Some(Kw::Limit));
        },
        Kw::Offset => {
            assert(keyword_of(kw_text(Kw::Offset)) == Some(Kw::Offset));
        },
        Kw::Time => {
            assert(keyword_of(kw_text(Kw::Time)) == Some(Kw::Time));
        },
        Kw::Between => {
            assert(keyword_of(kw_text(Kw::Between)) == Some(Kw::Between));
        },
        Kw::After => {
            assert(keyword_of(kw_text(Kw::After)) == Some(Kw::After));
        },
        Kw::Before => {
            assert(keyword_of(kw_text(Kw::Before)) == Some(Kw::Before));
        },
        Kw::SimilarTo => {
            assert(keyword_of(kw_text(Kw::SimilarTo)) == Some(Kw::SimilarTo));
        },
        Kw::Embedding => {
            assert(keyword_of(kw_text(Kw::Embedding)) == Some(Kw::Embedding));
        },
        Kw::With => {
            assert(keyword_of(kw_text(Kw::With)) == Some(Kw::With));
        },
        Kw::Threshold => {
            assert(keyword_of(kw_text(Kw::Threshold)) == Some(Kw::Threshold));
        },
        Kw::CausedBy => {
            assert(keyword_of(kw_text(Kw::CausedBy)) == Some(Kw::CausedBy));
        },
        Kw::Causes => {
            assert(keyword_of(kw_text(Kw::Causes)) == Some(Kw::Causes));
        },
        Kw::Schema => {
            assert(keyword_of(kw_text(Kw::Schema)) == Some(Kw::Schema));
        },
        Kw::Tag => {
            assert(keyword_of(kw_text(Kw::Tag)) == Some(Kw::Tag));
        },
        Kw::Asc => {
            assert(keyword_of(kw_text(Kw::Asc)) == Some(Kw::Asc));
        },
        Kw::Desc => {
            assert(keyword_of(kw_text(Kw::Desc)) == Some(Kw::Desc));
        },
        Kw::Relevance => {
            assert(keyword_of(kw_text(Kw::Relevance)) == Some(Kw::Relevance));
        },
        Kw::Now => {
            assert(keyword_of(kw_text(Kw::Now)) == Some(Kw::Now));
        },
        Kw::Depth => {
            assert(keyword_of(kw_text(Kw::Depth)) == Some(Kw::Depth));
        },
    }
}

/// Reserved words are spelled with upper-case ASCII letters and `_`.
proof fn lemma_kw_chars(k: Kw)
    ensures
        kw_text(k).len() > 0,
        forall|i: int| 0 <= i < kw_text(k).len() ==> ('A' <= #[trigger] kw_text(k)[i] && kw_text(k)[i] <= 'Z') || kw_text(k)[i] == '_',
{
    match k {
        Kw::Find => {},
        Kw::Records => {},
        Kw::Where => {},
        Kw::And => {},
        Kw::Or => {},
        Kw::Order => {},
        Kw::By => {},
        Kw::Limit => {},
        Kw::Offset => {},
        Kw::Time => {},
        Kw::Between => {},
        Kw::After => {},
        Kw::Before => {},
        Kw::SimilarTo => {},
        Kw::Embedding => {},
        Kw::With => {},
        Kw::Threshold => {},
        Kw::CausedBy => {},
        Kw::Causes => {},
        Kw::Schema => {},
        Kw::Tag => {},
        Kw::Asc => {},
        Kw::Desc => {},
        Kw::Relevance => {},
        Kw::Now => {},
        Kw::Depth => {},
    }
}

/// A word run from `i` reaches the end of `s` when every character from `i`
/// on continues a word.
proof fn lemma_word_run_to_end(s: Seq<char>, i: int)
    requires
        0 <= i <= s.len(),
        forall|j: int| i <= j < s.len() ==> is_word_char(#[trigger] s[j]),
    ensures
        word_run_end(s, i) == s.len(),
    decreases s.len() - i,
{
    if i < s.len() {
        lemma_word_run_to_end(s, i + 1);
    }
}

/// Reserved words are read in any case: an ASCII word whose upper-case form
/// spells a reserved word becomes that reserved word, and text made of that
/// word alone lexes to it followed by the end marker.
pub proof fn law_keyword_any_case(w: Seq<char>, k: Kw)
    requires
        all_ascii(w),
        ascii_upper(w) == kw_text(k),
    ensures
        word_token(w) == SpecToken::Keyword(k),
        lex(w) == seq![SpecToken::Keyword(k), SpecToken::Eof],
{
    lemma_keyword_of_text(k);
    lemma_kw_chars(k);
    assert(upper_word(w) == kw_text(k));
    assert forall|j: int| 0 <= j < w.len() implies letter(#[trigger] w[j]) || w[j] == '_' by {
        assert(ascii_upper(w)[j] == ascii_upper_char(w[j]));
        assert((w[j] as u32) < 128);
        assert(('A' <= kw_text(k)[j] && kw_text(k)[j] <= 'Z') || kw_text(k)[j] == '_');
    }
    assert forall|j: int| 0 <= j < w.len() implies is_word_char(#[trigger] w[j]) by {
        assert(letter(w[j]) || w[j] == '_');
    }
    lemma_word_run_to_end(w, 0);
    assert(w.subrange(0, w.len() as int) =~= w);
    let c = w[0];
    assert(letter(c) || c == '_');
    assert((c as u32) < 128);
    assert(lex_step(w, 0) == (Some(word_token(w)), w.len() as int));
    assert(lex_from(w, w.len() as int) == Seq::<SpecToken>::empty());
    assert(lex_from(w, 0) == seq![SpecToken::Keyword(k)] + lex_from(w, w.len() as int));
    assert(lex(w) =~= seq![SpecToken::Keyword(k), SpecToken::Eof]);
}

} // verus!
