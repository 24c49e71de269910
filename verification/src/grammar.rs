//! The grammar engine: tokenizes source text and matches it against the
//! fixed rule vocabulary, yielding the rule-tagged parse trees that the
//! builders consume. Statements need no terminating semicolon, though one
//! is consumed when present; comments and the end-of-input marker surface
//! as their own rules and are filtered out by the builders.
use vstd::prelude::*;

use crate::errors::ParserError;
use crate::parse_tree::PTree;
use crate::parse_tree::ParseTree;
use crate::parse_tree::Rule;
use crate::parse_tree::lemma_view_trees;
use crate::parse_tree::view_trees;
use crate::parser::lemma_wf_operands_append;
use crate::parser::op_of_rule;
use crate::parser::wf_block;
use crate::parser::wf_branch;
use crate::parser::wf_branches;
use crate::parser::wf_expr;
use crate::parser::wf_operands;
use crate::parser::wf_primary;
use crate::parser::wf_statement;
use crate::parser::wf_statement_inner;
use crate::parser::wf_statements;
use crate::parser::wf_tops;

verus! {

broadcast use vstd::std_specs::vec::group_vec_axioms;

/// The shape of one token.
#[derive(Debug, Clone, Copy, PartialEq, Eq, Structural)]
pub enum TokenKind {
    IntLit,
    FloatLit,
    StrLit,
    BoolLit,
    Name,
    KwLet,
    KwReturn,
    KwIf,
    KwElif,
    KwElse,
    PlusSign,
    MinusSign,
    Star,
    Slash,
    Percent,
    EqEq,
    BangEq,
    GtSign,
    GtEq,
    LtSign,
    LtEq,
    AssignSign,
    Colon,
    Semicolon,
    OpenBrace,
    CloseBrace,
    OpenParen,
    CloseParen,
}

/// One token: its shape and its source text.
struct Token {
    kind: TokenKind,
    text: String,
}

/// The mathematical model of one token.
pub ghost struct Tok {
    pub kind: TokenKind,
    pub text: Seq<char>,
}

spec fn view_tok(t: Token) -> Tok {
    Tok { kind: t.kind, text: t.text@ }
}

spec fn view_toks(s: Seq<Token>) -> Seq<Tok>
    decreases s,
{
    if s.len() == 0 {
        Seq::empty()
    } else {
        view_toks(s.drop_last()).push(view_tok(s.last()))
    }
}

/// The view of a token list is the pointwise view of its elements.
proof fn lemma_view_toks(s: Seq<Token>)
    ensures
        view_toks(s).len() == s.len(),
        forall|i: int| 0 <= i < s.len() ==> view_toks(s)[i] == view_tok(s[i]),
    decreases s.len(),
{
    if s.len() > 0 {
        lemma_view_toks(s.drop_last());
    }
}

/// A whitespace character.
pub open spec fn spec_is_space(c: char) -> bool {
    c == ' ' || c == '\t' || c == '\r' || c == '\n'
}

/// A decimal digit.
pub open spec fn spec_is_digit(c: char) -> bool {
    48 <= c as u32 && c as u32 <= 57
}

/// A character a name may start with.
pub open spec fn spec_is_name_start(c: char) -> bool {
    (65 <= c as u32 && c as u32 <= 90) || (97 <= c as u32 && c as u32 <= 122) || c == '_'
}

/// A character a name may continue with.
pub open spec fn spec_is_name(c: char) -> bool {
    spec_is_name_start(c) || spec_is_digit(c)
}

fn is_space_char(c: char) -> (r: bool)
    ensures
        r == spec_is_space(c),
{
    c == ' ' || c == '\t' || c == '\r' || c == '\n'
}

fn is_digit_char(c: char) -> (r: bool)
    ensures
        r == spec_is_digit(c),
{
    let u = c as u32;
    48 <= u && u <= 57
}

fn is_name_start_char(c: char) -> (r: bool)
    ensures
        r == spec_is_name_start(c),
{
    let u = c as u32;
    (65 <= u && u <= 90) || (97 <= u && u <= 122) || c == '_'
}

fn is_name_char(c: char) -> (r: bool)
    ensures
        r == spec_is_name(c),
{
    is_name_start_char(c) || is_digit_char(c)
}

/// The end of the digit run that starts at the given position.
pub open spec fn scan_digits(s: Seq<char>, i: int) -> int
    decreases s.len() - i,
{
    if 0 <= i < s.len() && spec_is_digit(s[i]) {
        scan_digits(s, i + 1)
    } else {
        i
    }
}

/// The end of the name run that starts at the given position.
pub open spec fn scan_name(s: Seq<char>, i: int) -> int
    decreases s.len() - i,
{
    if 0 <= i < s.len() && spec_is_name(s[i]) {
        scan_name(s, i + 1)
    } else {
        i
    }
}

/// The position of the next line break at or past the given position, or
/// the end of the text.
pub open spec fn scan_line_end(s: Seq<char>, i: int) -> int
    decreases s.len() - i,
{
    if 0 <= i < s.len() && s[i] != '\n' {
        scan_line_end(s, i + 1)
    } else {
        i
    }
}

/// The position of the next double quote at or past the given position,
/// or the end of the text.
pub open spec fn scan_string_end(s: Seq<char>, i: int) -> int
    decreases s.len() - i,
{
    if 0 <= i < s.len() && s[i] != '"' {
        scan_string_end(s, i + 1)
    } else {
        i
    }
}

proof fn lemma_scan_digits(s: Seq<char>, i: int)
    requires
        0 <= i <= s.len(),
    ensures
        i <= scan_digits(s, i) <= s.len(),
    decreases s.len() - i,
{
    if i < s.len() && spec_is_digit(s[i]) {
        lemma_scan_digits(s, i + 1);
    }
}

proof fn lemma_scan_name(s: Seq<char>, i: int)
    requires
        0 <= i <= s.len(),
    ensures
        i <= scan_name(s, i) <= s.len(),
    decreases s.len() - i,
{
    if i < s.len() && spec_is_name(s[i]) {
        lemma_scan_name(s, i + 1);
    }
}

proof fn lemma_scan_line_end(s: Seq<char>, i: int)
    requires
        0 <= i <= s.len(),
    ensures
        i <= scan_line_end(s, i) <= s.len(),
    decreases s.len() - i,
{
    if i < s.len() && s[i] != '\n' {
        lemma_scan_line_end(s, i + 1);
    }
}

proof fn lemma_scan_string_end(s: Seq<char>, i: int)
    requires
        0 <= i <= s.len(),
    ensures
        i <= scan_string_end(s, i) <= s.len(),
    decreases s.len() - i,
{
    if i < s.len() && s[i] != '"' {
        lemma_scan_string_end(s, i + 1);
    }
}

/// The token shape of a name run: a keyword, a boolean literal, or a
/// plain name.
pub open spec fn name_token_kind(t: Seq<char>) -> TokenKind {
    if t == "let"@ {
        TokenKind::KwLet
    } else if t == "return"@ {
        TokenKind::KwReturn
    } else if t == "if"@ {
        TokenKind::KwIf
    } else if t == "elif"@ {
        TokenKind::KwElif
    } else if t == "else"@ {
        TokenKind::KwElse
    } else if t == "true"@ || t == "false"@ {
        TokenKind::BoolLit
    } else {
        TokenKind::Name
    }
}

/// The punctuation token that starts at the given position, if any, with
/// its width; two-character operators win over their one-character
/// prefixes.
pub open spec fn punct_token(s: Seq<char>, i: int) -> Option<(TokenKind, int)> {
    let c = s[i];
    let two = i + 1 < s.len();
    if c == '=' && two && s[i + 1] == '=' {
        Some((TokenKind::EqEq, 2))
    } else if c == '=' {
        Some((TokenKind::AssignSign, 1))
    } else if c == '!' && two && s[i + 1] == '=' {
        Some((TokenKind::BangEq, 2))
    } else if c == '>' && two && s[i + 1] == '=' {
        Some((TokenKind::GtEq, 2))
    } else if c == '>' {
        Some((TokenKind::GtSign, 1))
    } else if c == '<' && two && s[i + 1] == '=' {
        Some((TokenKind::LtEq, 2))
    } else if c == '<' {
        Some((TokenKind::LtSign, 1))
    } else if c == '+' {
        Some((TokenKind::PlusSign, 1))
    } else if c == '-' {
        Some((TokenKind::MinusSign, 1))
    } else if c == '*' {
        Some((TokenKind::Star, 1))
    } else if c == '/' {
        Some((TokenKind::Slash, 1))
    } else if c == '%' {
        Some((TokenKind::Percent, 1))
    } else if c == ':' {
        Some((TokenKind::Colon, 1))
    } else if c == ';' {
        Some((TokenKind::Semicolon, 1))
    } else if c == '{' {
        Some((TokenKind::OpenBrace, 1))
    } else if c == '}' {
        Some((TokenKind::CloseBrace, 1))
    } else if c == '(' {
        Some((TokenKind::OpenParen, 1))
    } else if c == ')' {
        Some((TokenKind::CloseParen, 1))
    } else {
        None
    }
}

/// Conses a token onto the tokens of the rest of the text.
pub open spec fn next_rest(t: Tok, r: Option<Seq<Tok>>) -> Option<Seq<Tok>> {
    match r {
        Some(ts) => Some(seq![t] + ts),
        None => None,
    }
}

/// The token sequence of the text from the given position on: longest
/// match, whitespace and comments skipped; fails on a character no token
/// can start with and on an unterminated string literal.
pub open spec fn spec_tokens_from(s: Seq<char>, i: int) -> Option<Seq<Tok>>
    decreases s.len() - i,
    via spec_tokens_from_dec
{
    if !(0 <= i < s.len()) {
        Some(Seq::empty())
    } else {
        let c = s[i];
        if spec_is_space(c) {
            spec_tokens_from(s, i + 1)
        } else if c == '/' && i + 1 < s.len() && s[i + 1] == '/' {
            spec_tokens_from(s, scan_line_end(s, i + 2))
        } else if spec_is_digit(c) {
            let j = scan_digits(s, i + 1);
            if j < s.len() && s[j] == '.' && j + 1 < s.len() && spec_is_digit(s[j + 1]) {
                let k = scan_digits(s, j + 2);
                next_rest(
                    Tok { kind: TokenKind::FloatLit, text: s.subrange(i, k) },
                    spec_tokens_from(s, k),
                )
            } else {
                next_rest(
                    Tok { kind: TokenKind::IntLit, text: s.subrange(i, j) },
                    spec_tokens_from(s, j),
                )
            }
        } else if spec_is_name_start(c) {
            let j = scan_name(s, i + 1);
            next_rest(
                Tok { kind: name_token_kind(s.subrange(i, j)), text: s.subrange(i, j) },
                spec_tokens_from(s, j),
            )
        } else if c == '"' {
            let j = scan_string_end(s, i + 1);
            if j >= s.len() {
                None
            } else {
                next_rest(
                    Tok { kind: TokenKind::StrLit, text: s.subrange(i, j + 1) },
                    spec_tokens_from(s, j + 1),
                )
            }
        } else {
            match punct_token(s, i) {
                None => None,
                Some((kind, w)) => next_rest(
                    Tok { kind, text: s.subrange(i, i + w) },
                    spec_tokens_from(s, i + w),
                ),
            }
        }
    }
}

#[via_fn]
proof fn spec_tokens_from_dec(s: Seq<char>, i: int) {
    if 0 <= i < s.len() {
        if s[i] == '/' && i + 1 < s.len() && s[i + 1] == '/' {
            lemma_scan_line_end(s, i + 2);
        }
        if spec_is_digit(s[i]) {
            lemma_scan_digits(s, i + 1);
            let j = scan_digits(s, i + 1);
            if j < s.len() && s[j] == '.' && j + 1 < s.len() && spec_is_digit(s[j + 1]) {
                lemma_scan_digits(s, j + 2);
            }
        }
        if spec_is_name_start(s[i]) {
            lemma_scan_name(s, i + 1);
        }
        if s[i] == '"' {
            lemma_scan_string_end(s, i + 1);
        }
    }
}

/// Prepends already-built tokens to a tokenizing outcome.
spec fn prepend_toks(d: Seq<Tok>, r: Option<Seq<Tok>>) -> Option<Seq<Tok>> {
    match r {
        Some(ts) => Some(d + ts),
        None => None,
    }
}

/// Moving a consed token into the prefix keeps the composed result.
proof fn lemma_prepend_push(d: Seq<Tok>, t: Tok, r: Option<Seq<Tok>>)
    ensures
        prepend_toks(d, next_rest(t, r)) == prepend_toks(d.push(t), r),
{
    match r {
        Some(ts) => {
            assert(d + (seq![t] + ts) =~= d.push(t) + ts);
        },
        None => {},
    }
}

/// The view of a tokenizing attempt's outcome.
spec fn tokens_view(r: Result<Vec<Token>, ParserError>) -> Option<Seq<Tok>> {
    match r {
        Ok(ts) => Some(view_toks(ts@)),
        Err(_) => None,
    }
}

#[verifier::loop_isolation(false)]
fn scan_digits_exec(chars: &Vec<char>, from: usize) -> (r: usize)
    requires
        from <= chars@.len(),
    ensures
        r as int == scan_digits(chars@, from as int),
        from <= r <= chars@.len(),
{
    let mut j = from;
    while j < chars.len() && is_digit_char(chars[j])
        invariant
            from <= j <= chars@.len(),
            scan_digits(chars@, from as int) == scan_digits(chars@, j as int),
        decreases chars@.len() - j,
    {
        proof {
            assert(scan_digits(chars@, j as int) == scan_digits(chars@, j as int + 1));
        }
        j = j + 1;
    }
    proof {
        assert(scan_digits(chars@, j as int) == j);
    }
    j
}

#[verifier::loop_isolation(false)]
fn scan_name_exec(chars: &Vec<char>, from: usize) -> (r: usize)
    requires
        from <= chars@.len(),
    ensures
        r as int == scan_name(chars@, from as int),
        from <= r <= chars@.len(),
{
    let mut j = from;
    while j < chars.len() && is_name_char(chars[j])
        invariant
            from <= j <= chars@.len(),
            scan_name(chars@, from as int) == scan_name(chars@, j as int),
        decreases chars@.len() - j,
    {
        proof {
            assert(scan_name(chars@, j as int) == scan_name(chars@, j as int + 1));
        }
        j = j + 1;
    }
    proof {
        assert(scan_name(chars@, j as int) == j);
    }
    j
}

#[verifier::loop_isolation(false)]
fn scan_line_end_exec(chars: &Vec<char>, from: usize) -> (r: usize)
    requires
        from <= chars@.len(),
    ensures
        r as int == scan_line_end(chars@, from as int),
        from <= r <= chars@.len(),
{
    let mut j = from;
    while j < chars.len() && chars[j] != '\n'
        invariant
            from <= j <= chars@.len(),
            scan_line_end(chars@, from as int) == scan_line_end(chars@, j as int),
        decreases chars@.len() - j,
    {
        proof {
            assert(scan_line_end(chars@, j as int) == scan_line_end(chars@, j as int + 1));
        }
        j = j + 1;
    }
    proof {
        assert(scan_line_end(chars@, j as int) == j);
    }
    j
}

#[verifier::loop_isolation(false)]
fn scan_string_end_exec(chars: &Vec<char>, from: usize) -> (r: usize)
    requires
        from <= chars@.len(),
    ensures
        r as int == scan_string_end(chars@, from as int),
        from <= r <= chars@.len(),
{
    let mut j = from;
    while j < chars.len() && chars[j] != '"'
        invariant
            from <= j <= chars@.len(),
            scan_string_end(chars@, from as int) == scan_string_end(chars@, j as int),
        decreases chars@.len() - j,
    {
        proof {
            assert(scan_string_end(chars@, j as int) == scan_string_end(chars@, j as int + 1));
        }
        j = j + 1;
    }
    proof {
        assert(scan_string_end(chars@, j as int) == j);
    }
    j
}

/// Classifies a name run as a keyword, a boolean literal, or a plain
/// name.
fn classify_name(text: &String) -> (kind: TokenKind)
    ensures
        kind == name_token_kind(text@),
{
    if *text == String::from_str("let") {
        TokenKind::KwLet
    } else if *text == String::from_str("return") {
        TokenKind::KwReturn
    } else if *text == String::from_str("if") {
        TokenKind::KwIf
    } else if *text == String::from_str("elif") {
        TokenKind::KwElif
    } else if *text == String::from_str("else") {
        TokenKind::KwElse
    } else if *text == String::from_str("true") || *text == String::from_str("false") {
        TokenKind::BoolLit
    } else {
        TokenKind::Name
    }
}

/// Classifies the punctuation token at the given position, with its
/// width.
fn punct_exec(chars: &Vec<char>, i: usize) -> (r: Option<(TokenKind, usize)>)
    requires
        i < chars@.len(),
    ensures
        match r {
            Some(p) => punct_token(chars@, i as int) == Some((p.0, p.1 as int)) && 1 <= p.1
                && i + p.1 <= chars@.len(),
            None => punct_token(chars@, i as int) is None,
        },
{
    let n = chars.len();
    let c = chars[i];
    let two = i + 1 < n;
    if c == '=' && two && chars[i + 1] == '=' {
        Some((TokenKind::EqEq, 2))
    } else if c == '=' {
        Some((TokenKind::AssignSign, 1))
    } else if c == '!' && two && chars[i + 1] == '=' {
        Some((TokenKind::BangEq, 2))
    } else if c == '>' && two && chars[i + 1] == '=' {
        Some((TokenKind::GtEq, 2))
    } else if c == '>' {
        Some((TokenKind::GtSign, 1))
    } else if c == '<' && two && chars[i + 1] == '=' {
        Some((TokenKind::LtEq, 2))
    } else if c == '<' {
        Some((TokenKind::LtSign, 1))
    } else if c == '+' {
        Some((TokenKind::PlusSign, 1))
    } else if c == '-' {
        Some((TokenKind::MinusSign, 1))
    } else if c == '*' {
        Some((TokenKind::Star, 1))
    } else if c == '/' {
        Some((TokenKind::Slash, 1))
    } else if c == '%' {
        Some((TokenKind::Percent, 1))
    } else if c == ':' {
        Some((TokenKind::Colon, 1))
    } else if c == ';' {
        Some((TokenKind::Semicolon, 1))
    } else if c == '{' {
        Some((TokenKind::OpenBrace, 1))
    } else if c == '}' {
        Some((TokenKind::CloseBrace, 1))
    } else if c == '(' {
        Some((TokenKind::OpenParen, 1))
    } else if c == ')' {
        Some((TokenKind::CloseParen, 1))
    } else {
        None
    }
}

fn syntax_error(description: &str) -> (e: ParserError)
    ensures
        e.kind() == crate::errors::ParseErrKind::Syntax,
{
    ParserError::SyntaxError(String::from_str(description))
}

/// Splits source text into tokens, exactly as the tokenizing relation
/// says: longest match, whitespace and comments skipped; fails on a
/// character no token can start with and on an unterminated string
/// literal.
#[verifier::loop_isolation(false)]
#[verifier::rlimit(100)]
fn tokenize(input: &str) -> (r: Result<Vec<Token>, ParserError>)
    ensures
        tokens_view(r) == spec_tokens_from(input@, 0),
        r matches Err(e) ==> e.kind() == crate::errors::ParseErrKind::Syntax,
{
    let ghost s = input@;
    let len = input.unicode_len();
    let mut chars: Vec<char> = Vec::new();
    let mut p: usize = 0;
    while p < len
        invariant
            0 <= p <= len,
            len == s.len(),
            chars@ == s.subrange(0, p as int),
        decreases len - p,
    {
        chars.push(input.get_char(p));
        proof {
            assert(chars@ =~= s.subrange(0, p as int + 1));
        }
        p = p + 1;
    }
    proof {
        assert(chars@ =~= s);
    }
    let mut tokens: Vec<Token> = Vec::new();
    proof {
        let d = view_toks(tokens@);
        assert(d =~= Seq::<Tok>::empty());
        let r0 = spec_tokens_from(s, 0);
        match r0 {
            Some(ts) => {
                assert(d + ts =~= ts);
            },
            None => {},
        }
        assert(spec_tokens_from(s, 0) == prepend_toks(
            view_toks(tokens@),
            spec_tokens_from(s, 0),
        ));
    }
    let mut i: usize = 0;
    while i < len
        invariant
            0 <= i <= len,
            len == s.len(),
            chars@ == s,
            spec_tokens_from(s, 0) == prepend_toks(
                view_toks(tokens@),
                spec_tokens_from(s, i as int),
            ),
        decreases len - i,
    {
        let ghost done = view_toks(tokens@);
        let ghost toks0 = tokens@;
        let c = chars[i];
        if is_space_char(c) {
            proof {
                assert(spec_tokens_from(s, i as int) == spec_tokens_from(s, i as int + 1));
            }
            i = i + 1;
        } else if c == '/' && i + 1 < len && chars[i + 1] == '/' {
            let mut j = i + 2;
            while j < len && chars[j] != '\n'
                invariant
                    i + 2 <= j <= len,
                    scan_line_end(s, i as int + 2) == scan_line_end(s, j as int),
                decreases len - j,
            {
                j = j + 1;
            }
            proof {
                assert(scan_line_end(s, j as int) == j);
                assert(spec_tokens_from(s, i as int) == spec_tokens_from(s, j as int));
            }
            i = j;
        } else if is_digit_char(c) {
            let mut j = i + 1;
            while j < len && is_digit_char(chars[j])
                invariant
                    i + 1 <= j <= len,
                    scan_digits(s, i as int + 1) == scan_digits(s, j as int),
                decreases len - j,
            {
                j = j + 1;
            }
            proof {
                assert(scan_digits(s, j as int) == j);
            }
            if j < len && chars[j] == '.' && j + 1 < len && is_digit_char(chars[j + 1]) {
                let mut k = j + 2;
                while k < len && is_digit_char(chars[k])
                    invariant
                        j + 2 <= k <= len,
                        scan_digits(s, j as int + 2) == scan_digits(s, k as int),
                    decreases len - k,
                {
                    k = k + 1;
                }
                let text = String::from_str(input.substring_char(i, k));
                let ghost t = Tok { kind: TokenKind::FloatLit, text: s.subrange(
                    i as int,
                    k as int,
                ) };
                proof {
                    assert(scan_digits(s, k as int) == k);
                    assert(spec_tokens_from(s, i as int) == next_rest(
                        t,
                        spec_tokens_from(s, k as int),
                    ));
                    lemma_prepend_push(done, t, spec_tokens_from(s, k as int));
                }
                tokens.push(Token { kind: TokenKind::FloatLit, text });
                proof {
                    lemma_view_toks(tokens@);
                    lemma_view_toks(toks0);
                    assert(view_toks(tokens@) =~= done.push(t));
                }
                i = k;
            } else {
                let text = String::from_str(input.substring_char(i, j));
                let ghost t = Tok { kind: TokenKind::IntLit, text: s.subrange(
                    i as int,
                    j as int,
                ) };
                proof {
                    assert(spec_tokens_from(s, i as int) == next_rest(
                        t,
                        spec_tokens_from(s, j as int),
                    ));
                    lemma_prepend_push(done, t, spec_tokens_from(s, j as int));
                }
                tokens.push(Token { kind: TokenKind::IntLit, text });
                proof {
                    lemma_view_toks(tokens@);
                    lemma_view_toks(toks0);
                    assert(view_toks(tokens@) =~= done.push(t));
                }
                i = j;
            }
        } else if is_name_start_char(c) {
            let mut j = i + 1;
            while j < len && is_name_char(chars[j])
                invariant
                    i + 1 <= j <= len,
                    scan_name(s, i as int + 1) == scan_name(s, j as int),
                decreases len - j,
            {
                j = j + 1;
            }
            let text = String::from_str(input.substring_char(i, j));
            let kind = if text == String::from_str("let") {
                TokenKind::KwLet
            } else if text == String::from_str("return") {
                TokenKind::KwReturn
            } else if text == String::from_str("if") {
                TokenKind::KwIf
            } else if text == String::from_str("elif") {
                TokenKind::KwElif
            } else if text == String::from_str("else") {
                TokenKind::KwElse
            } else if text == String::from_str("true") || text == String::from_str("false") {
                TokenKind::BoolLit
            } else {
                TokenKind::Name
            };
            let ghost t = Tok { kind: name_token_kind(s.subrange(i as int, j as int)), text: s
                .subrange(i as int, j as int) };
            proof {
                assert(scan_name(s, j as int) == j);
                assert(kind == name_token_kind(text@));
                assert(spec_tokens_from(s, i as int) == next_rest(
                    t,
                    spec_tokens_from(s, j as int),
                ));
                lemma_prepend_push(done, t, spec_tokens_from(s, j as int));
            }
            tokens.push(Token { kind, text });
            proof {
                lemma_view_toks(tokens@);
                lemma_view_toks(toks0);
                assert(view_toks(tokens@) =~= done.push(t));
            }
            i = j;
        } else if c == '"' {
            let mut j = i + 1;
            while j < len && chars[j] != '"'
                invariant
                    i + 1 <= j <= len,
                    scan_string_end(s, i as int + 1) == scan_string_end(s, j as int),
                decreases len - j,
            {
                j = j + 1;
            }
            proof {
                assert(scan_string_end(s, j as int) == j);
            }
            if j == len {
                proof {
                    assert(spec_tokens_from(s, i as int) is None);
                }
                return Err(syntax_error("Unterminated string literal"));
            }
            let text = String::from_str(input.substring_char(i, j + 1));
            let ghost t = Tok { kind: TokenKind::StrLit, text: s.subrange(
                i as int,
                j as int + 1,
            ) };
            proof {
                assert(spec_tokens_from(s, i as int) == next_rest(
                    t,
                    spec_tokens_from(s, j as int + 1),
                ));
                lemma_prepend_push(done, t, spec_tokens_from(s, j as int + 1));
            }
            tokens.push(Token { kind: TokenKind::StrLit, text });
            proof {
                lemma_view_toks(tokens@);
                lemma_view_toks(toks0);
                assert(view_toks(tokens@) =~= done.push(t));
            }
            i = j + 1;
        } else {
            let two = i + 1 < len;
            let (kind, width): (TokenKind, usize) = if c == '=' && two && chars[i + 1] == '=' {
                (TokenKind::EqEq, 2)
            } else if c == '=' {
                (TokenKind::AssignSign, 1)
            } else if c == '!' && two && chars[i + 1] == '=' {
                (TokenKind::BangEq, 2)
            } else if c == '>' && two && chars[i + 1] == '=' {
                (TokenKind::GtEq, 2)
            } else if c == '>' {
                (TokenKind::GtSign, 1)
            } else if c == '<' && two && chars[i + 1] == '=' {
                (TokenKind::LtEq, 2)
            } else if c == '<' {
                (TokenKind::LtSign, 1)
            } else if c == '+' {
                (TokenKind::PlusSign, 1)
            } else if c == '-' {
                (TokenKind::MinusSign, 1)
            } else if c == '*' {
                (TokenKind::Star, 1)
            } else if c == '/' {
                (TokenKind::Slash, 1)
            } else if c == '%' {
                (TokenKind::Percent, 1)
            } else if c == ':' {
                (TokenKind::Colon, 1)
            } else if c == ';' {
                (TokenKind::Semicolon, 1)
            } else if c == '{' {
                (TokenKind::OpenBrace, 1)
            } else if c == '}' {
                (TokenKind::CloseBrace, 1)
            } else if c == '(' {
                (TokenKind::OpenParen, 1)
            } else if c == ')' {
                (TokenKind::CloseParen, 1)
            } else {
                proof {
                    assert(punct_token(s, i as int) is None);
                    assert(spec_tokens_from(s, i as int) is None);
                }
                return Err(syntax_error("Unexpected character in input"));
            };
            let text = String::from_str(input.substring_char(i, i + width));
            let ghost t = Tok { kind, text: s.subrange(i as int, i as int + width) };
            proof {
                assert(punct_token(s, i as int) == Some((kind, width as int)));
                assert(spec_tokens_from(s, i as int) == next_rest(
                    t,
                    spec_tokens_from(s, i as int + width),
                ));
                lemma_prepend_push(done, t, spec_tokens_from(s, i as int + width));
            }
            tokens.push(Token { kind, text });
            proof {
                lemma_view_toks(tokens@);
                lemma_view_toks(toks0);
                assert(view_toks(tokens@) =~= done.push(t));
            }
            i = i + width;
        }
    }
    proof {
        assert(spec_tokens_from(s, i as int) == Some(Seq::<Tok>::empty()));
        assert(view_toks(tokens@) + Seq::<Tok>::empty() =~= view_toks(tokens@));
    }
    Ok(tokens)
}

/// A leaf of the parse tree: matched text, no sub-matches.
pub open spec fn sp_leaf(rule: Rule, text: Seq<char>) -> PTree {
    PTree { rule, text, children: Seq::empty() }
}

/// An inner node of the parse tree: sub-matches, no text of its own.
pub open spec fn sp_node(rule: Rule, children: Seq<PTree>) -> PTree {
    PTree { rule, text: Seq::empty(), children }
}

/// A literal wrapped as a constant node.
pub open spec fn sp_constant(rule: Rule, text: Seq<char>) -> PTree {
    sp_node(Rule::Constant, seq![sp_leaf(rule, text)])
}

/// A statement wrapper around one statement shape.
pub open spec fn sp_stmt(inner: PTree) -> PTree {
    sp_node(Rule::Statement, seq![inner])
}

/// The infix-operator rule of a token shape, if any.
pub open spec fn spec_operator_rule(kind: TokenKind) -> Option<Rule> {
    match kind {
        TokenKind::PlusSign => Some(Rule::Add),
        TokenKind::MinusSign => Some(Rule::Subtract),
        TokenKind::Star => Some(Rule::Multiply),
        TokenKind::Slash => Some(Rule::Divide),
        TokenKind::Percent => Some(Rule::Modulo),
        TokenKind::EqEq => Some(Rule::Equals),
        TokenKind::BangEq => Some(Rule::NotEquals),
        TokenKind::GtSign => Some(Rule::GreaterThan),
        TokenKind::GtEq => Some(Rule::GreaterThanOrEqualTo),
        TokenKind::LtSign => Some(Rule::LessThan),
        TokenKind::LtEq => Some(Rule::LessThanOrEqualTo),
        _ => None,
    }
}

/// Clamps a continuation position into the range every matcher returns:
/// strictly past `from`, at most `n`. The matchers always return such a
/// position, so on their results the clamp is the identity; writing it
/// into the descent makes its termination evident by construction.
pub open spec fn next_pos(j: int, from: int, n: int) -> int {
    if j <= from {
        from + 1
    } else if j > n {
        n
    } else {
        j
    }
}

/// Consumes one trailing semicolon when present.
pub open spec fn sp_skip_semi(ts: Seq<Tok>, j: int) -> int {
    if 0 <= j < ts.len() && ts[j].kind == TokenKind::Semicolon {
        j + 1
    } else {
        j
    }
}

/// The primary operand that starts at the given token: a literal, a
/// name, or a parenthesized expression; yields its tree and the position
/// after it.
pub open spec fn sp_primary(ts: Seq<Tok>, i: int) -> Option<(PTree, int)>
    decreases ts.len() - i, 0int,
{
    if !(0 <= i < ts.len()) {
        None
    } else {
        match ts[i].kind {
            TokenKind::IntLit => Some((sp_constant(Rule::Int, ts[i].text), i + 1)),
            TokenKind::FloatLit => Some((sp_constant(Rule::Float, ts[i].text), i + 1)),
            TokenKind::StrLit => Some((sp_constant(Rule::StringLit, ts[i].text), i + 1)),
            TokenKind::BoolLit => Some((sp_constant(Rule::Boolean, ts[i].text), i + 1)),
            TokenKind::Name => Some((sp_leaf(Rule::Ident, ts[i].text), i + 1)),
            TokenKind::OpenParen => match sp_expression(ts, i + 1) {
                None => None,
                Some((inner, j)) => if 0 <= j < ts.len() && ts[j].kind
                    == TokenKind::CloseParen {
                    Some((inner, j + 1))
                } else {
                    None
                },
            },
            _ => None,
        }
    }
}

/// The infix tail that starts at the given token: operator and primary
/// pairs appended to the children collected so far, ending before the
/// first token that is no infix operator.
pub open spec fn sp_infix(ts: Seq<Tok>, j: int, acc: Seq<PTree>) -> Option<(Seq<PTree>, int)>
    decreases ts.len() - j, 0int,
{
    if !(0 <= j < ts.len()) {
        Some((acc, j))
    } else {
        match spec_operator_rule(ts[j].kind) {
            None => Some((acc, j)),
            Some(op) => if j + 1 >= ts.len() {
                None
            } else {
                match sp_primary(ts, j + 1) {
                    None => None,
                    Some((p, np)) => sp_infix(
                        ts,
                        next_pos(np, j + 1, ts.len() as int),
                        acc + seq![sp_leaf(op, ts[j].text), p],
                    ),
                }
            },
        }
    }
}

/// The expression that starts at the given token: a primary, then the
/// infix tail, collected as the flat child list of an expression node.
pub open spec fn sp_expression(ts: Seq<Tok>, i: int) -> Option<(PTree, int)>
    decreases ts.len() - i, 1int,
{
    if !(0 <= i < ts.len()) {
        None
    } else {
        match sp_primary(ts, i) {
            None => None,
            Some((first, fp)) => match sp_infix(
                ts,
                next_pos(fp, i, ts.len() as int),
                seq![first],
            ) {
                None => None,
                Some((children, end)) => Some((sp_node(Rule::Expr, children), end)),
            },
        }
    }
}

/// The braced block that starts at the given token.
pub open spec fn sp_block(ts: Seq<Tok>, i: int) -> Option<(PTree, int)>
    decreases ts.len() - i, 2int,
{
    if !(0 <= i < ts.len()) {
        None
    } else if ts[i].kind != TokenKind::OpenBrace {
        None
    } else {
        match sp_block_items(ts, i + 1) {
            None => None,
            Some((items, j)) => Some((sp_node(Rule::Block, items), j)),
        }
    }
}

/// The statements of a block from the given position up to its closing
/// brace, and the position after the brace.
pub open spec fn sp_block_items(ts: Seq<Tok>, j: int) -> Option<(Seq<PTree>, int)>
    decreases ts.len() - j, 4int,
{
    if !(0 <= j < ts.len()) {
        None
    } else if ts[j].kind == TokenKind::CloseBrace {
        Some((Seq::empty(), j + 1))
    } else {
        match sp_statement(ts, j) {
            None => None,
            Some((st, j2)) => match sp_block_items(ts, next_pos(j2, j, ts.len() as int)) {
                None => None,
                Some((rest, end)) => Some((seq![st] + rest, end)),
            },
        }
    }
}

/// The trailing branches of a conditional from the given position: elif
/// branches while they last, then one optional else branch.
pub open spec fn sp_branches(ts: Seq<Tok>, j: int) -> Option<(Seq<PTree>, int)>
    decreases ts.len() - j, 4int,
{
    if 0 <= j < ts.len() && ts[j].kind == TokenKind::KwElif {
        match sp_expression(ts, j + 1) {
            None => None,
            Some((cond, ee)) => {
                let ce = next_pos(ee, j, ts.len() as int);
                if ce >= ts.len() {
                    None
                } else {
                    match sp_block(ts, ce) {
                        None => None,
                        Some((blk, be)) => match sp_branches(
                            ts,
                            next_pos(be, j, ts.len() as int),
                        ) {
                            None => None,
                            Some((rest, end)) => Some(
                                (seq![sp_node(Rule::ElifStatement, seq![cond, blk])] + rest, end),
                            ),
                        },
                    }
                }
            },
        }
    } else if 0 <= j < ts.len() && ts[j].kind == TokenKind::KwElse {
        if j + 1 >= ts.len() {
            None
        } else {
            match sp_block(ts, j + 1) {
                None => None,
                Some((blk, end)) => Some((seq![sp_node(Rule::ElseStatement, seq![blk])], end)),
            }
        }
    } else {
        Some((Seq::empty(), j))
    }
}

/// The statement that starts at the given token: a declaration, a
/// reassignment, a return, a conditional, a block, or a bare expression,
/// each optionally terminated by a semicolon.
pub open spec fn sp_statement(ts: Seq<Tok>, i: int) -> Option<(PTree, int)>
    decreases ts.len() - i, 3int,
{
    if !(0 <= i < ts.len()) {
        None
    } else {
        match ts[i].kind {
            TokenKind::KwLet => if !(i + 1 < ts.len() && ts[i + 1].kind == TokenKind::Name) {
                None
            } else {
                let name = sp_leaf(Rule::Ident, ts[i + 1].text);
                if i + 2 < ts.len() && ts[i + 2].kind == TokenKind::Colon {
                    if !(i + 3 < ts.len() && ts[i + 3].kind == TokenKind::Name) {
                        None
                    } else {
                        let ann = sp_leaf(Rule::Ident, ts[i + 3].text);
                        if !(i + 4 < ts.len() && ts[i + 4].kind == TokenKind::AssignSign) {
                            None
                        } else {
                            match sp_expression(ts, i + 5) {
                                None => None,
                                Some((value, e)) => Some(
                                    (
                                        sp_stmt(
                                            sp_node(
                                                Rule::AssignStatement,
                                                seq![name, ann, value],
                                            ),
                                        ),
                                        sp_skip_semi(ts, e),
                                    ),
                                ),
                            }
                        }
                    }
                } else {
                    if !(i + 2 < ts.len() && ts[i + 2].kind == TokenKind::AssignSign) {
                        None
                    } else {
                        match sp_expression(ts, i + 3) {
                            None => None,
                            Some((value, e)) => Some(
                                (
                                    sp_stmt(sp_node(Rule::AssignStatement, seq![name, value])),
                                    sp_skip_semi(ts, e),
                                ),
                            ),
                        }
                    }
                }
            },
            TokenKind::KwReturn => match sp_expression(ts, i + 1) {
                None => None,
                Some((value, e)) => Some(
                    (
                        sp_stmt(sp_node(Rule::ReturnBlockStatement, seq![value])),
                        sp_skip_semi(ts, e),
                    ),
                ),
            },
            TokenKind::KwIf => match sp_expression(ts, i + 1) {
                None => None,
                Some((cond, ce)) => {
                    let bp = next_pos(ce, i, ts.len() as int);
                    if bp >= ts.len() {
                        None
                    } else {
                        match sp_block(ts, bp) {
                            None => None,
                            Some((blk, be)) => match sp_branches(
                                ts,
                                next_pos(be, i, ts.len() as int),
                            ) {
                                None => None,
                                Some((brs, end)) => Some(
                                    (
                                        sp_stmt(
                                            sp_node(Rule::IfStatement, seq![cond, blk] + brs),
                                        ),
                                        end,
                                    ),
                                ),
                            },
                        }
                    }
                },
            },
            TokenKind::OpenBrace => match sp_block(ts, i) {
                None => None,
                Some((blk, end)) => Some((sp_stmt(blk), end)),
            },
            TokenKind::Name => if i + 1 < ts.len() && ts[i + 1].kind == TokenKind::AssignSign {
                match sp_expression(ts, i + 2) {
                    None => None,
                    Some((value, e)) => Some(
                        (
                            sp_stmt(
                                sp_node(
                                    Rule::SetValueStatement,
                                    seq![sp_leaf(Rule::Ident, ts[i].text), value],
                                ),
                            ),
                            sp_skip_semi(ts, e),
                        ),
                    ),
                }
            } else {
                match sp_expression(ts, i) {
                    None => None,
                    Some((value, e)) => Some((sp_stmt(value), sp_skip_semi(ts, e))),
                }
            },
            _ => match sp_expression(ts, i) {
                None => None,
                Some((value, e)) => Some((sp_stmt(value), sp_skip_semi(ts, e))),
            },
        }
    }
}

/// The statement trees of the whole token sequence from the given
/// position on.
pub open spec fn sp_stmts(ts: Seq<Tok>, i: int) -> Option<Seq<PTree>>
    decreases ts.len() - i, 5int,
{
    if !(0 <= i < ts.len()) {
        Some(Seq::empty())
    } else {
        match sp_statement(ts, i) {
            None => None,
            Some((st, j)) => match sp_stmts(ts, next_pos(j, i, ts.len() as int)) {
                None => None,
                Some(rest) => Some(seq![st] + rest),
            },
        }
    }
}

/// What the grammar engine yields for source text: its tokens matched as
/// statements, followed by the end-of-input marker; nothing when the text
/// is rejected.
pub open spec fn spec_parse_source(s: Seq<char>) -> Option<Seq<PTree>> {
    match spec_tokens_from(s, 0) {
        None => None,
        Some(ts) => match sp_stmts(ts, 0) {
            None => None,
            Some(sts) => Some(sts.push(sp_leaf(Rule::Eoi, Seq::empty()))),
        },
    }
}

/// The view of one matching attempt's outcome.
spec fn tree_step_view(r: Result<(ParseTree, usize), ParserError>) -> Option<(PTree, int)> {
    match r {
        Ok(p) => Some((p.0@, p.1 as int)),
        Err(_) => None,
    }
}

/// The view of a list-matching attempt's outcome.
spec fn trees_step_view(r: Result<(Vec<ParseTree>, usize), ParserError>) -> Option<(
    Seq<PTree>,
    int,
)> {
    match r {
        Ok(p) => Some((view_trees(p.0@), p.1 as int)),
        Err(_) => None,
    }
}

/// Prepends already-matched trees to a list-matching outcome.
spec fn prepend_items(d: Seq<PTree>, r: Option<(Seq<PTree>, int)>) -> Option<(Seq<PTree>, int)> {
    match r {
        Some(p) => Some((d + p.0, p.1)),
        None => None,
    }
}

/// Conses a tree onto a list-matching outcome.
spec fn cons_item(t: PTree, r: Option<(Seq<PTree>, int)>) -> Option<(Seq<PTree>, int)> {
    match r {
        Some(p) => Some((seq![t] + p.0, p.1)),
        None => None,
    }
}

/// Moving a consed tree into the prefix keeps the composed outcome.
proof fn lemma_prepend_cons(d: Seq<PTree>, t: PTree, r: Option<(Seq<PTree>, int)>)
    ensures
        prepend_items(d, cons_item(t, r)) == prepend_items(d.push(t), r),
{
    match r {
        Some(p) => {
            assert(d + (seq![t] + p.0) =~= d.push(t) + p.0);
        },
        None => {},
    }
}

/// Prepends already-matched statements to a statements outcome.
spec fn prepend_stmts(d: Seq<PTree>, r: Option<Seq<PTree>>) -> Option<Seq<PTree>> {
    match r {
        Some(rest) => Some(d + rest),
        None => None,
    }
}

/// Conses a statement onto a statements outcome.
spec fn cons_stmt(t: PTree, r: Option<Seq<PTree>>) -> Option<Seq<PTree>> {
    match r {
        Some(rest) => Some(seq![t] + rest),
        None => None,
    }
}

/// Moving a consed statement into the prefix keeps the composed outcome.
proof fn lemma_prepend_stmts_cons(d: Seq<PTree>, t: PTree, r: Option<Seq<PTree>>)
    ensures
        prepend_stmts(d, cons_stmt(t, r)) == prepend_stmts(d.push(t), r),
{
    match r {
        Some(rest) => {
            assert(d + (seq![t] + rest) =~= d.push(t) + rest);
        },
        None => {},
    }
}

/// A leaf parse tree.
fn leaf(rule: Rule, text: String) -> (r: ParseTree)
    ensures
        r@.rule == rule,
        r@.text == text@,
        r@.children == Seq::<PTree>::empty(),
        r@ == sp_leaf(rule, text@),
{
    let r = ParseTree { rule, text, children: Vec::new() };
    proof {
        assert(r@.children =~= Seq::<PTree>::empty());
        assert(r@ =~= sp_leaf(rule, r.text@));
    }
    r
}

/// An inner parse tree; inner nodes carry no text of their own.
fn tree(rule: Rule, children: Vec<ParseTree>) -> (r: ParseTree)
    ensures
        r@.rule == rule,
        r@.children == view_trees(children@),
        r@ == sp_node(rule, view_trees(children@)),
{
    let r = ParseTree { rule, text: String::new(), children };
    proof {
        assert(r@ =~= sp_node(rule, view_trees(r.children@)));
    }
    r
}

/// The infix-operator rule of a token, if any.
fn operator_rule(kind: TokenKind) -> (r: Option<Rule>)
    ensures
        r matches Some(rule) ==> op_of_rule(rule) is Some,
        r == spec_operator_rule(kind),
{
    match kind {
        TokenKind::PlusSign => Some(Rule::Add),
        TokenKind::MinusSign => Some(Rule::Subtract),
        TokenKind::Star => Some(Rule::Multiply),
        TokenKind::Slash => Some(Rule::Divide),
        TokenKind::Percent => Some(Rule::Modulo),
        TokenKind::EqEq => Some(Rule::Equals),
        TokenKind::BangEq => Some(Rule::NotEquals),
        TokenKind::GtSign => Some(Rule::GreaterThan),
        TokenKind::GtEq => Some(Rule::GreaterThanOrEqualTo),
        TokenKind::LtSign => Some(Rule::LessThan),
        TokenKind::LtEq => Some(Rule::LessThanOrEqualTo),
        _ => None,
    }
}

/// Whether the token at the given position has the given shape.
fn kind_at(tokens: &Vec<Token>, j: usize, k: TokenKind) -> (r: bool)
    ensures
        r == (j < tokens@.len() && tokens@[j as int].kind == k),
{
    if j < tokens.len() {
        tokens[j].kind == k
    } else {
        false
    }
}

/// Consumes a trailing semicolon when one is present.
fn skip_semicolon(tokens: &Vec<Token>, i: usize) -> (r: usize)
    ensures
        i <= r <= i + 1,
        r <= tokens@.len() || r == i,
        r as int == sp_skip_semi(view_toks(tokens@), i as int),
{
    proof {
        lemma_view_toks(tokens@);
    }
    if i < tokens.len() {
        match tokens[i].kind {
            TokenKind::Semicolon => i + 1,
            _ => i,
        }
    } else {
        i
    }
}

/// A literal wrapped as a constant node.
fn constant_tree(rule: Rule, text: &String) -> (r: ParseTree)
    requires
        rule == Rule::Int || rule == Rule::Float || rule == Rule::StringLit || rule
            == Rule::Boolean,
    ensures
        wf_primary(r@),
        r@ == sp_constant(rule, text@),
{
    let lit = leaf(rule, text.clone());
    let ghost litv = lit@;
    let mut children: Vec<ParseTree> = Vec::new();
    children.push(lit);
    let ghost c = children@;
    let r = tree(Rule::Constant, children);
    proof {
        lemma_view_trees(c);
        assert(r@.children.len() == 1);
        assert(r@.children[0] == litv);
        assert(view_trees(c) =~= seq![sp_leaf(rule, text@)]);
        assert(r@ =~= sp_constant(rule, text@));
    }
    r
}

/// Matches one primary operand: a literal, a name, or a parenthesized
/// expression.
fn match_primary(tokens: &Vec<Token>, i: usize) -> (r: Result<(ParseTree, usize), ParserError>)
    requires
        i < tokens@.len(),
    ensures
        r matches Ok(p) ==> i < p.1 <= tokens@.len() && wf_primary(p.0@),
        r matches Err(e) ==> e.kind() == crate::errors::ParseErrKind::Syntax,
        tree_step_view(r) == sp_primary(view_toks(tokens@), i as int),
    decreases tokens@.len() - i, 0int,
{
    let ghost ts = view_toks(tokens@);
    proof {
        lemma_view_toks(tokens@);
    }
    let n = tokens.len();
    let t = &tokens[i];
    match t.kind {
        TokenKind::IntLit => Ok((constant_tree(Rule::Int, &t.text), i + 1)),
        TokenKind::FloatLit => Ok((constant_tree(Rule::Float, &t.text), i + 1)),
        TokenKind::StrLit => Ok((constant_tree(Rule::StringLit, &t.text), i + 1)),
        TokenKind::BoolLit => Ok((constant_tree(Rule::Boolean, &t.text), i + 1)),
        TokenKind::Name => Ok((leaf(Rule::Ident, t.text.clone()), i + 1)),
        TokenKind::OpenParen => {
            let inner = match_expression(tokens, i + 1)?;
            let (expr_tree, j) = inner;
            if j < tokens.len() {
                match tokens[j].kind {
                    TokenKind::CloseParen => Ok((expr_tree, j + 1)),
                    _ => Err(syntax_error("Expected a closing parenthesis")),
                }
            } else {
                Err(syntax_error("Expected a closing parenthesis"))
            }
        },
        _ => Err(syntax_error("Expected a literal, a name or a parenthesized expression")),
    }
}

/// Matches the infix tail of an expression: operator and primary pairs,
/// appended to the children collected so far.
fn match_infix(tokens: &Vec<Token>, j: usize, children: Vec<ParseTree>) -> (r: Result<(
    Vec<ParseTree>,
    usize,
), ParserError>)
    requires
        j <= tokens@.len(),
        wf_operands(view_trees(children@)),
    ensures
        r matches Ok(p) ==> j <= p.1 <= tokens@.len() && wf_operands(view_trees(p.0@)),
        r matches Err(e) ==> e.kind() == crate::errors::ParseErrKind::Syntax,
        trees_step_view(r) == sp_infix(view_toks(tokens@), j as int, view_trees(children@)),
    decreases tokens@.len() - j, 0int,
{
    let ghost ts = view_toks(tokens@);
    proof {
        lemma_view_toks(tokens@);
    }
    let n = tokens.len();
    if j >= n {
        return Ok((children, j));
    }
    match operator_rule(tokens[j].kind) {
        None => Ok((children, j)),
        Some(op_rule) => {
            let mut children = children;
            let ghost c0 = children@;
            let op_leaf = leaf(op_rule, tokens[j].text.clone());
            let ghost opv = op_leaf@;
            children.push(op_leaf);
            if j + 1 >= tokens.len() {
                return Err(syntax_error("Expected an operand after an infix operator"));
            }
            let next = match_primary(tokens, j + 1)?;
            let ghost pv = next.0@;
            children.push(next.0);
            proof {
                lemma_view_trees(children@);
                lemma_view_trees(c0);
                assert(view_trees(children@) =~= view_trees(c0).push(opv).push(pv));
                lemma_wf_operands_append(view_trees(c0), opv, pv);
                assert(view_trees(children@) =~= view_trees(c0) + seq![opv, pv]);
                assert(next_pos(next.1 as int, j as int + 1, ts.len() as int) == next.1 as int);
            }
            let r = match_infix(tokens, next.1, children);
            proof {
                assert(sp_infix(ts, j as int, view_trees(c0)) == sp_infix(
                    ts,
                    next.1 as int,
                    view_trees(children@),
                ));
            }
            r
        },
    }
}

/// Matches one expression: primaries alternating with infix operators,
/// collected as the flat child list of an expression node.
fn match_expression(tokens: &Vec<Token>, i: usize) -> (r: Result<(ParseTree, usize),
    ParserError,
>)
    ensures
        r matches Ok(p) ==> i < p.1 <= tokens@.len() && wf_expr(p.0@),
        r matches Err(e) ==> e.kind() == crate::errors::ParseErrKind::Syntax,
        tree_step_view(r) == sp_expression(view_toks(tokens@), i as int),
    decreases tokens@.len() - i, 1int,
{
    let ghost ts = view_toks(tokens@);
    proof {
        lemma_view_toks(tokens@);
    }
    let n = tokens.len();
    if i >= n {
        return Err(syntax_error("Expected an expression"));
    }
    let first = match_primary(tokens, i)?;
    let ghost firstv = first.0@;
    let mut children: Vec<ParseTree> = Vec::new();
    children.push(first.0);
    proof {
        lemma_view_trees(children@);
        assert(view_trees(children@).len() == 1);
        assert(view_trees(children@)[0] == firstv);
        assert(view_trees(children@) =~= seq![firstv]);
        assert(next_pos(first.1 as int, i as int, ts.len() as int) == first.1 as int);
    }
    let rest = match_infix(tokens, first.1, children)?;
    let r = tree(Rule::Expr, rest.0);
    Ok((r, rest.1))
}

/// Matches a braced block of statements.
#[verifier::loop_isolation(false)]
fn match_block(tokens: &Vec<Token>, i: usize) -> (r: Result<(ParseTree, usize), ParserError>)
    requires
        i < tokens@.len(),
    ensures
        r matches Ok(p) ==> i < p.1 <= tokens@.len() && wf_block(p.0@),
        r matches Err(e) ==> e.kind() == crate::errors::ParseErrKind::Syntax,
        tree_step_view(r) == sp_block(view_toks(tokens@), i as int),
    decreases tokens@.len() - i, 2int,
{
    let ghost ts = view_toks(tokens@);
    proof {
        lemma_view_toks(tokens@);
    }
    let n = tokens.len();
    match tokens[i].kind {
        TokenKind::OpenBrace => {},
        _ => {
            return Err(syntax_error("Expected an opening brace"));
        },
    }
    let mut children: Vec<ParseTree> = Vec::new();
    proof {
        assert(view_trees(children@) =~= Seq::<PTree>::empty());
        match sp_block_items(ts, i as int + 1) {
            Some(p) => {
                assert(Seq::<PTree>::empty() + p.0 =~= p.0);
            },
            None => {},
        }
    }
    let mut j = i + 1;
    loop
        invariant
            i < j <= tokens@.len(),
            wf_statements(view_trees(children@)),
            sp_block_items(ts, i as int + 1) == prepend_items(
                view_trees(children@),
                sp_block_items(ts, j as int),
            ),
        decreases tokens@.len() - j,
    {
        if j >= tokens.len() {
            proof {
                assert(sp_block_items(ts, j as int) is None);
            }
            return Err(syntax_error("Expected a closing brace"));
        }
        match tokens[j].kind {
            TokenKind::CloseBrace => {
                let r = tree(Rule::Block, children);
                proof {
                    assert(sp_block_items(ts, j as int) == Some(
                        (Seq::<PTree>::empty(), j as int + 1),
                    ));
                    assert(view_trees(children@) + Seq::<PTree>::empty() =~= view_trees(
                        children@,
                    ));
                }
                return Ok((r, j + 1));
            },
            _ => {},
        }
        let st = match_statement(tokens, j)?;
        let ghost c0 = children@;
        let ghost stv = st.0@;
        proof {
            assert(next_pos(st.1 as int, j as int, ts.len() as int) == st.1 as int);
            assert(sp_block_items(ts, j as int) == cons_item(
                stv,
                sp_block_items(ts, st.1 as int),
            ));
            lemma_prepend_cons(view_trees(c0), stv, sp_block_items(ts, st.1 as int));
        }
        children.push(st.0);
        proof {
            lemma_view_trees(children@);
            lemma_view_trees(c0);
            let vs = view_trees(children@);
            assert(vs.drop_last() =~= view_trees(c0));
            assert(vs.last() == stv);
            assert(vs =~= view_trees(c0).push(stv));
        }
        j = st.1;
    }
}

/// Matches one statement: a declaration, a reassignment, a return, a
/// conditional, a block, or a bare expression, each optionally terminated
/// by a semicolon.
#[verifier::loop_isolation(false)]
#[verifier::rlimit(100)]
fn match_statement(tokens: &Vec<Token>, i: usize) -> (r: Result<(ParseTree, usize),
    ParserError,
>)
    requires
        i < tokens@.len(),
    ensures
        r matches Ok(p) ==> i < p.1 <= tokens@.len() && wf_statement(p.0@),
        r matches Err(e) ==> e.kind() == crate::errors::ParseErrKind::Syntax,
        tree_step_view(r) == sp_statement(view_toks(tokens@), i as int),
    decreases tokens@.len() - i, 3int,
{
    let ghost ts = view_toks(tokens@);
    proof {
        lemma_view_toks(tokens@);
    }
    let n = tokens.len();
    match tokens[i].kind {
        TokenKind::KwLet => {
            if i + 1 >= tokens.len() {
                return Err(syntax_error("Expected a name after let"));
            }
            let name = match tokens[i + 1].kind {
                TokenKind::Name => leaf(Rule::Ident, tokens[i + 1].text.clone()),
                _ => {
                    return Err(syntax_error("Expected a name after let"));
                },
            };
            let ghost namev = name@;
            let mut j = i + 2;
            let mut children: Vec<ParseTree> = Vec::new();
            children.push(name);
            let mut has_annotation = false;
            if kind_at(tokens, j, TokenKind::Colon) {
                if j + 1 >= tokens.len() {
                    return Err(syntax_error("Expected a type annotation"));
                }
                match tokens[j + 1].kind {
                    TokenKind::Name => {
                        let ann = leaf(Rule::Ident, tokens[j + 1].text.clone());
                        children.push(ann);
                        has_annotation = true;
                    },
                    _ => {
                        return Err(syntax_error("Expected a type annotation"));
                    },
                }
                j = j + 2;
            }
            if j >= tokens.len() {
                return Err(syntax_error("Expected an assignment sign"));
            }
            match tokens[j].kind {
                TokenKind::AssignSign => {},
                _ => {
                    return Err(syntax_error("Expected an assignment sign"));
                },
            }
            let value = match_expression(tokens, j + 1)?;
            let ghost valuev = value.0@;
            children.push(value.0);
            let ghost c = children@;
            let inner = tree(Rule::AssignStatement, children);
            let ghost innerv = inner@;
            let mut wrapper: Vec<ParseTree> = Vec::new();
            wrapper.push(inner);
            let ghost w = wrapper@;
            let stmt = tree(Rule::Statement, wrapper);
            proof {
                lemma_view_trees(c);
                lemma_view_trees(w);
                if has_annotation {
                    assert(innerv.children.len() == 3);
                    assert(innerv.children[0] == namev);
                    assert(innerv.children[2] == valuev);
                    assert(view_trees(c) =~= seq![namev, view_trees(c)[1], valuev]);
                } else {
                    assert(innerv.children.len() == 2);
                    assert(innerv.children[0] == namev);
                    assert(innerv.children[1] == valuev);
                    assert(view_trees(c) =~= seq![namev, valuev]);
                }
                assert(wf_statement_inner(innerv));
                assert(stmt@.children.len() == 1);
                assert(stmt@.children[0] == innerv);
                assert(view_trees(w) =~= seq![innerv]);
                assert(stmt@ =~= sp_stmt(innerv));
            }
            let end = skip_semicolon(tokens, value.1);
            Ok((stmt, end))
        },
        TokenKind::KwReturn => {
            let value = match_expression(tokens, i + 1)?;
            let ghost valuev = value.0@;
            let mut children: Vec<ParseTree> = Vec::new();
            children.push(value.0);
            let ghost c = children@;
            let inner = tree(Rule::ReturnBlockStatement, children);
            let ghost innerv = inner@;
            let mut wrapper: Vec<ParseTree> = Vec::new();
            wrapper.push(inner);
            let ghost w = wrapper@;
            let stmt = tree(Rule::Statement, wrapper);
            proof {
                lemma_view_trees(c);
                lemma_view_trees(w);
                assert(innerv.children.len() == 1);
                assert(innerv.children[0] == valuev);
                assert(wf_statement_inner(innerv));
                assert(stmt@.children[0] == innerv);
                assert(view_trees(c) =~= seq![valuev]);
                assert(view_trees(w) =~= seq![innerv]);
                assert(stmt@ =~= sp_stmt(innerv));
            }
            let end = skip_semicolon(tokens, value.1);
            Ok((stmt, end))
        },
        TokenKind::KwIf => {
            let cond = match_expression(tokens, i + 1)?;
            let ghost condv = cond.0@;
            proof {
                assert(next_pos(cond.1 as int, i as int, ts.len() as int) == cond.1 as int);
            }
            if cond.1 >= tokens.len() {
                return Err(syntax_error("Expected a block after an if condition"));
            }
            let block = match_block(tokens, cond.1)?;
            let ghost blockv = block.0@;
            let ghost bstart = block.1 as int;
            proof {
                assert(next_pos(bstart, i as int, ts.len() as int) == bstart);
            }
            let mut children: Vec<ParseTree> = Vec::new();
            children.push(cond.0);
            children.push(block.0);
            proof {
                lemma_view_trees(children@);
                let vs = view_trees(children@);
                assert(vs[0] == condv);
                assert(vs[1] == blockv);
                assert(vs.subrange(2, vs.len() as int) =~= Seq::<PTree>::empty());
                match sp_branches(ts, bstart) {
                    Some(p) => {
                        assert(Seq::<PTree>::empty() + p.0 =~= p.0);
                    },
                    None => {},
                }
            }
            let mut j = block.1;
            while kind_at(tokens, j, TokenKind::KwElif)
                invariant
                    i < j <= tokens@.len(),
                    n == tokens@.len(),
                    children@.len() >= 2,
                    view_trees(children@)[0] == condv,
                    view_trees(children@)[1] == blockv,
                    wf_expr(condv),
                    wf_block(blockv),
                    wf_branches(
                        view_trees(children@).subrange(2, view_trees(children@).len() as int),
                    ),
                    sp_branches(ts, bstart) == prepend_items(
                        view_trees(children@).subrange(2, view_trees(children@).len() as int),
                        sp_branches(ts, j as int),
                    ),
                decreases tokens@.len() - j,
            {
                let elif_cond = match_expression(tokens, j + 1)?;
                let ghost ecv = elif_cond.0@;
                proof {
                    assert(next_pos(elif_cond.1 as int, j as int, ts.len() as int)
                        == elif_cond.1 as int);
                }
                if elif_cond.1 >= tokens.len() {
                    return Err(syntax_error("Expected a block after an elif condition"));
                }
                let elif_block = match_block(tokens, elif_cond.1)?;
                let ghost ebv = elif_block.0@;
                let mut branch_children: Vec<ParseTree> = Vec::new();
                branch_children.push(elif_cond.0);
                branch_children.push(elif_block.0);
                let ghost bc = branch_children@;
                let branch = tree(Rule::ElifStatement, branch_children);
                let ghost branchv = branch@;
                let ghost c0 = children@;
                children.push(branch);
                proof {
                    lemma_view_trees(bc);
                    assert(branchv.children.len() == 2);
                    assert(branchv.children[0] == ecv);
                    assert(branchv.children[1] == ebv);
                    assert(wf_branch(branchv));
                    assert(view_trees(bc) =~= seq![ecv, ebv]);
                    assert(branchv =~= sp_node(Rule::ElifStatement, seq![ecv, ebv]));
                    assert(next_pos(elif_block.1 as int, j as int, ts.len() as int)
                        == elif_block.1 as int);
                    assert(sp_branches(ts, j as int) == cons_item(
                        branchv,
                        sp_branches(ts, elif_block.1 as int),
                    ));
                    lemma_view_trees(children@);
                    lemma_view_trees(c0);
                    let vs = view_trees(children@);
                    let old_vs = view_trees(c0);
                    assert(vs.subrange(2, vs.len() as int).drop_last() =~= old_vs.subrange(
                        2,
                        old_vs.len() as int,
                    ));
                    assert(vs.subrange(2, vs.len() as int).last() == branchv);
                    assert(vs.subrange(2, vs.len() as int) =~= old_vs.subrange(
                        2,
                        old_vs.len() as int,
                    ).push(branchv));
                    lemma_prepend_cons(
                        old_vs.subrange(2, old_vs.len() as int),
                        branchv,
                        sp_branches(ts, elif_block.1 as int),
                    );
                }
                j = elif_block.1;
            }
            if kind_at(tokens, j, TokenKind::KwElse) {
                if j + 1 >= tokens.len() {
                    return Err(syntax_error("Expected a block after else"));
                }
                let else_block = match_block(tokens, j + 1)?;
                let ghost ebv = else_block.0@;
                let mut branch_children: Vec<ParseTree> = Vec::new();
                branch_children.push(else_block.0);
                let ghost bc = branch_children@;
                let branch = tree(Rule::ElseStatement, branch_children);
                let ghost branchv = branch@;
                let ghost c0 = children@;
                children.push(branch);
                proof {
                    lemma_view_trees(bc);
                    assert(branchv.children.len() == 1);
                    assert(branchv.children[0] == ebv);
                    assert(wf_branch(branchv));
                    assert(view_trees(bc) =~= seq![ebv]);
                    assert(branchv =~= sp_node(Rule::ElseStatement, seq![ebv]));
                    assert(sp_branches(ts, j as int) == Some(
                        (seq![branchv], else_block.1 as int),
                    ));
                    lemma_view_trees(children@);
                    lemma_view_trees(c0);
                    let vs = view_trees(children@);
                    let old_vs = view_trees(c0);
                    assert(vs.subrange(2, vs.len() as int).drop_last() =~= old_vs.subrange(
                        2,
                        old_vs.len() as int,
                    ));
                    assert(vs.subrange(2, vs.len() as int).last() == branchv);
                    assert(vs.subrange(2, vs.len() as int) =~= old_vs.subrange(
                        2,
                        old_vs.len() as int,
                    ) + seq![branchv]);
                    assert(sp_branches(ts, bstart) == Some(
                        (vs.subrange(2, vs.len() as int), else_block.1 as int),
                    ));
                }
                j = else_block.1;
            } else {
                proof {
                    let vs = view_trees(children@);
                    assert(sp_branches(ts, j as int) == Some(
                        (Seq::<PTree>::empty(), j as int),
                    ));
                    assert(vs.subrange(2, vs.len() as int) + Seq::<PTree>::empty()
                        =~= vs.subrange(2, vs.len() as int));
                    assert(sp_branches(ts, bstart) == Some(
                        (vs.subrange(2, vs.len() as int), j as int),
                    ));
                }
            }
            let ghost c = children@;
            let inner = tree(Rule::IfStatement, children);
            let ghost innerv = inner@;
            let mut wrapper: Vec<ParseTree> = Vec::new();
            wrapper.push(inner);
            let ghost w = wrapper@;
            let stmt = tree(Rule::Statement, wrapper);
            proof {
                lemma_view_trees(c);
                lemma_view_trees(w);
                assert(innerv.children.len() == c.len());
                assert(innerv.children[0] == condv);
                assert(innerv.children[1] == blockv);
                assert(wf_statement_inner(innerv));
                assert(stmt@.children[0] == innerv);
                let vs = view_trees(c);
                assert(vs =~= seq![condv, blockv] + vs.subrange(2, vs.len() as int));
                assert(view_trees(w) =~= seq![innerv]);
                assert(stmt@ =~= sp_stmt(innerv));
                assert(sp_statement(ts, i as int) == Some((stmt@, j as int)));
            }
            Ok((stmt, j))
        },
        TokenKind::OpenBrace => {
            let block = match_block(tokens, i)?;
            let ghost blockv = block.0@;
            let mut wrapper: Vec<ParseTree> = Vec::new();
            wrapper.push(block.0);
            let ghost w = wrapper@;
            let stmt = tree(Rule::Statement, wrapper);
            proof {
                lemma_view_trees(w);
                assert(wf_statement_inner(blockv));
                assert(stmt@.children[0] == blockv);
                assert(view_trees(w) =~= seq![blockv]);
                assert(stmt@ =~= sp_stmt(blockv));
            }
            Ok((stmt, block.1))
        },
        TokenKind::Name => {
            if kind_at(tokens, i + 1, TokenKind::AssignSign) {
                let name = leaf(Rule::Ident, tokens[i].text.clone());
                let ghost namev = name@;
                let value = match_expression(tokens, i + 2)?;
                let ghost valuev = value.0@;
                let mut children: Vec<ParseTree> = Vec::new();
                children.push(name);
                children.push(value.0);
                let ghost c = children@;
                let inner = tree(Rule::SetValueStatement, children);
                let ghost innerv = inner@;
                let mut wrapper: Vec<ParseTree> = Vec::new();
                wrapper.push(inner);
                let ghost w = wrapper@;
                let stmt = tree(Rule::Statement, wrapper);
                proof {
                    lemma_view_trees(c);
                    lemma_view_trees(w);
                    assert(innerv.children.len() == 2);
                    assert(innerv.children[0] == namev);
                    assert(innerv.children[1] == valuev);
                    assert(wf_statement_inner(innerv));
                    assert(stmt@.children[0] == innerv);
                    assert(view_trees(c) =~= seq![namev, valuev]);
                    assert(view_trees(w) =~= seq![innerv]);
                    assert(stmt@ =~= sp_stmt(innerv));
                }
                let end = skip_semicolon(tokens, value.1);
                Ok((stmt, end))
            } else {
                let expr = match_expression(tokens, i)?;
                let ghost exprv = expr.0@;
                let mut wrapper: Vec<ParseTree> = Vec::new();
                wrapper.push(expr.0);
                let ghost w = wrapper@;
                let stmt = tree(Rule::Statement, wrapper);
                proof {
                    lemma_view_trees(w);
                    assert(wf_statement_inner(exprv));
                    assert(stmt@.children[0] == exprv);
                    assert(view_trees(w) =~= seq![exprv]);
                    assert(stmt@ =~= sp_stmt(exprv));
                }
                let end = skip_semicolon(tokens, expr.1);
                Ok((stmt, end))
            }
        },
        _ => {
            let expr = match_expression(tokens, i)?;
            let ghost exprv = expr.0@;
            let mut wrapper: Vec<ParseTree> = Vec::new();
            wrapper.push(expr.0);
            let ghost w = wrapper@;
            let stmt = tree(Rule::Statement, wrapper);
            proof {
                lemma_view_trees(w);
                assert(wf_statement_inner(exprv));
                assert(stmt@.children[0] == exprv);
                assert(view_trees(w) =~= seq![exprv]);
                assert(stmt@ =~= sp_stmt(exprv));
            }
            let end = skip_semicolon(tokens, expr.1);
            Ok((stmt, end))
        },
    }
}

/// Parses source text into the parse trees of its statements, followed by
/// the end-of-input marker, exactly as the grammar relation says. Every
/// returned tree is well-formed: the builders accept it without fail.
#[verifier::loop_isolation(false)]
#[verifier::rlimit(100)]
pub fn parse_source(input: &str) -> (r: Result<Vec<ParseTree>, ParserError>)
    ensures
        r matches Ok(trees) ==> wf_tops(view_trees(trees@)) && spec_parse_source(input@)
            == Some(view_trees(trees@)),
        r matches Err(e) ==> e.kind() == crate::errors::ParseErrKind::Syntax
            && spec_parse_source(input@) is None,
{
    let tokens = match tokenize(input) {
        Ok(tokens) => tokens,
        Err(e) => {
            return Err(e);
        },
    };
    let ghost ts = view_toks(tokens@);
    proof {
        lemma_view_toks(tokens@);
    }
    let mut trees: Vec<ParseTree> = Vec::new();
    proof {
        assert(view_trees(trees@) =~= Seq::<PTree>::empty());
        match sp_stmts(ts, 0) {
            Some(rest) => {
                assert(Seq::<PTree>::empty() + rest =~= rest);
            },
            None => {},
        }
    }
    let mut i: usize = 0;
    while i < tokens.len()
        invariant
            0 <= i <= tokens@.len(),
            wf_tops(view_trees(trees@)),
            sp_stmts(ts, 0) == prepend_stmts(view_trees(trees@), sp_stmts(ts, i as int)),
        decreases tokens@.len() - i,
    {
        let st = match_statement(&tokens, i)?;
        let ghost t0 = trees@;
        let ghost stv = st.0@;
        proof {
            assert(next_pos(st.1 as int, i as int, ts.len() as int) == st.1 as int);
            assert(sp_stmts(ts, i as int) == cons_stmt(stv, sp_stmts(ts, st.1 as int)));
            lemma_prepend_stmts_cons(view_trees(t0), stv, sp_stmts(ts, st.1 as int));
        }
        trees.push(st.0);
        proof {
            lemma_view_trees(trees@);
            lemma_view_trees(t0);
            let vs = view_trees(trees@);
            assert(vs.drop_last() =~= view_trees(t0));
            assert(vs.last() == stv);
            assert(vs =~= view_trees(t0).push(stv));
        }
        i = st.1;
    }
    proof {
        assert(sp_stmts(ts, i as int) == Some(Seq::<PTree>::empty()));
        assert(view_trees(trees@) + Seq::<PTree>::empty() =~= view_trees(trees@));
        assert(sp_stmts(ts, 0) == Some(view_trees(trees@)));
    }
    let eoi = leaf(Rule::Eoi, String::new());
    let ghost eoiv = eoi@;
    let ghost t0 = trees@;
    trees.push(eoi);
    proof {
        lemma_view_trees(trees@);
        lemma_view_trees(t0);
        let vs = view_trees(trees@);
        assert(vs.drop_last() =~= view_trees(t0));
        assert(vs.last() == eoiv);
        assert(eoiv =~= sp_leaf(Rule::Eoi, Seq::empty()));
        assert(vs =~= view_trees(t0).push(sp_leaf(Rule::Eoi, Seq::empty())));
    }
    Ok(trees)
}

} // verus!
