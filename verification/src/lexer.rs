//! Lexing: source text to tokens.
use vstd::prelude::*;
use crate::ast::{CodeLoc, Spanned};
use crate::text::{decimal, push_char, str_chars, u64_to_decimal};
use vstd::string::StringExecFns;

verus! {

/// A token of the source text.
#[derive(Debug)]
pub enum Token {
    Ident(String),
    Num(String),
    LParen,
    RParen,
    Colon,
    Semicolon,
    Eq,
    Neq,
    Leq,
    Lt,
    Geq,
    Gt,
    Plus,
    Minus,
    Asterisk,
    Slash,
    ThickArrow,
    ThinArrow,
    SingleQuote,
    Let,
    In,
    Fn,
    True,
    False,
    If,
    Then,
    Else,
    Match,
    With,
}

/// The model of a [`Token`].
pub enum STok {
    Ident(Seq<char>),
    Num(Seq<char>),
    LParen,
    RParen,
    Colon,
    Semicolon,
    Eq,
    Neq,
    Leq,
    Lt,
    Geq,
    Gt,
    Plus,
    Minus,
    Asterisk,
    Slash,
    ThickArrow,
    ThinArrow,
    SingleQuote,
    Let,
    In,
    Fn,
    True,
    False,
    If,
    Then,
    Else,
    Match,
    With,
}

impl View for Token {
    type V = STok;

    open spec fn view(&self) -> STok {
        match self {
            Token::Ident(x) => STok::Ident(x@),
            Token::Num(x) => STok::Num(x@),
            Token::LParen => STok::LParen,
            Token::RParen => STok::RParen,
            Token::Colon => STok::Colon,
            Token::Semicolon => STok::Semicolon,
            Token::Eq => STok::Eq,
            Token::Neq => STok::Neq,
            Token::Leq => STok::Leq,
            Token::Lt => STok::Lt,
            Token::Geq => STok::Geq,
            Token::Gt => STok::Gt,
            Token::Plus => STok::Plus,
            Token::Minus => STok::Minus,
            Token::Asterisk => STok::Asterisk,
            Token::Slash => STok::Slash,
            Token::ThickArrow => STok::ThickArrow,
            Token::ThinArrow => STok::ThinArrow,
            Token::SingleQuote => STok::SingleQuote,
            Token::Let => STok::Let,
            Token::In => STok::In,
            Token::Fn => STok::Fn,
            Token::True => STok::True,
            Token::False => STok::False,
            Token::If => STok::If,
            Token::Then => STok::Then,
            Token::Else => STok::Else,
            Token::Match => STok::Match,
            Token::With => STok::With,
        }
    }
}

/// The text by which a token is shown in messages: its characters, except
/// that `<=` is shown as `!=`.
pub open spec fn tok_text(t: STok) -> Seq<char> {
    match t {
        STok::Ident(x) => x,
        STok::Num(x) => x,
        STok::LParen => "("@,
        STok::RParen => ")"@,
        STok::Colon => ":"@,
        STok::Semicolon => ";"@,
        STok::Eq => "="@,
        STok::Neq => "!="@,
        STok::Leq => "!="@,
        STok::Lt => "<"@,
        STok::Geq => ">="@,
        STok::Gt => ">"@,
        STok::Plus => "+"@,
        STok::Minus => "-"@,
        STok::Asterisk => "*"@,
        STok::Slash => "/"@,
        STok::ThickArrow => "=>"@,
        STok::ThinArrow => "->"@,
        STok::SingleQuote => "'"@,
        STok::Let => "let"@,
        STok::In => "in"@,
        STok::Fn => "fn"@,
        STok::True => "true"@,
        STok::False => "false"@,
        STok::If => "if"@,
        STok::Then => "then"@,
        STok::Else => "else"@,
        STok::Match => "match"@,
        STok::With => "with"@,
    }
}

impl Token {
    /// The text by which the token is shown in messages.
    pub fn to_text(&self) -> (r: String)
        ensures
            r@ == tok_text(self@),
    {
        match self {
            Token::Ident(x) => x.clone(),
            Token::Num(x) => x.clone(),
            Token::LParen => String::from_str("("),
            Token::RParen => String::from_str(")"),
            Token::Colon => String::from_str(":"),
            Token::Semicolon => String::from_str(";"),
            Token::Eq => String::from_str("="),
            Token::Neq => String::from_str("!="),
            Token::Leq => String::from_str("!="),
            Token::Lt => String::from_str("<"),
            Token::Geq => String::from_str(">="),
            Token::Gt => String::from_str(">"),
            Token::Plus => String::from_str("+"),
            Token::Minus => String::from_str("-"),
            Token::Asterisk => String::from_str("*"),
            Token::Slash => String::from_str("/"),
            Token::ThickArrow => String::from_str("=>"),
            Token::ThinArrow => String::from_str("->"),
            Token::SingleQuote => String::from_str("'"),
            Token::Let => String::from_str("let"),
            Token::In => String::from_str("in"),
            Token::Fn => String::from_str("fn"),
            Token::True => String::from_str("true"),
            Token::False => String::from_str("false"),
            Token::If => String::from_str("if"),
            Token::Then => String::from_str("then"),
            Token::Else => String::from_str("else"),
            Token::Match => String::from_str("match"),
            Token::With => String::from_str("with"),
        }
    }
}

/// The model of a token with its position.
pub open spec fn spanned_tok(t: Spanned<Token>) -> (STok, (int, int)) {
    (t.inner@, (t.span.0 as int, t.span.1 as int))
}

/// The models of tokens with their positions.
pub open spec fn toks_model(ts: Seq<Spanned<Token>>) -> Seq<(STok, (int, int))> {
    ts.map_values(|t: Spanned<Token>| spanned_tok(t))
}

/// Where the text cannot be read, and what stands there.
#[derive(Debug)]
pub struct ParseError {
    /// The position of the offending character or token.
    pub span: CodeLoc,
    /// The text of the offending character or token; `None` at the end of
    /// the input.
    pub found: Option<String>,
}

/// The characters of the text in a [`ParseError`], if any.
pub open spec fn found_model(f: Option<String>) -> Option<Seq<char>> {
    match f {
        Some(s) => Some(s@),
        None => None,
    }
}

/// The message for an error at `span` where `found` stands.
pub open spec fn message_text(span: CodeLoc, found: Option<Seq<char>>) -> Seq<char> {
    "found "@ + match found {
        Some(f) => "'"@ + f + "'"@,
        None => "end of input"@,
    } + " at "@ + decimal(span.0 as nat) + ".."@ + decimal(span.1 as nat)
}

impl ParseError {
    /// A one-line description: what was found, and where.
    pub fn message(&self) -> (r: String)
        ensures
            r@ == message_text(self.span, found_model(self.found)),
    {
        let mut r = String::from_str("found ");
        match &self.found {
            Some(f) => {
                r.append("'");
                r.append(f.as_str());
                r.append("'");
            },
            None => {
                r.append("end of input");
            },
        }
        r.append(" at ");
        let a = u64_to_decimal(self.span.0 as u64);
        r.append(a.as_str());
        r.append("..");
        let b = u64_to_decimal(self.span.1 as u64);
        r.append(b.as_str());
        proof {
            let mid = match found_model(self.found) {
                Some(f) => "'"@ + f + "'"@,
                None => "end of input"@,
            };
            assert(r@ =~= "found "@ + mid + " at "@ + decimal(self.span.0 as nat) + ".."@ + decimal(self.span.1 as nat));
        }
        r
    }
}

pub open spec fn is_ws(c: char) -> bool {
    c == ' ' || c == '\t' || c == '\n' || c == '\r' || c == '\x0b' || c == '\x0c'
}

pub open spec fn is_alpha(c: char) -> bool {
    ('a' <= c && c <= 'z') || ('A' <= c && c <= 'Z') || c == '_'
}

pub open spec fn is_digit(c: char) -> bool {
    '0' <= c && c <= '9'
}

pub open spec fn is_alnum(c: char) -> bool {
    is_alpha(c) || is_digit(c)
}

/// The end of the run of whitespace from `i`.
pub open spec fn ws_end(s: Seq<char>, i: int) -> int
    decreases s.len() - i,
{
    if 0 <= i < s.len() && is_ws(s[i]) {
        ws_end(s, i + 1)
    } else {
        i
    }
}

/// The end of the run of letters, digits and underscores from `i`.
pub open spec fn ident_end(s: Seq<char>, i: int) -> int
    decreases s.len() - i,
{
    if 0 <= i < s.len() && is_alnum(s[i]) {
        ident_end(s, i + 1)
    } else {
        i
    }
}

/// The end of the run of digits from `i`.
pub open spec fn digits_end(s: Seq<char>, i: int) -> int
    decreases s.len() - i,
{
    if 0 <= i < s.len() && is_digit(s[i]) {
        digits_end(s, i + 1)
    } else {
        i
    }
}

/// The end of the number that starts at `i`: `0` or digits that do not
/// start with `0`, then possibly a point followed by at least one digit.
pub open spec fn number_end(s: Seq<char>, i: int) -> int {
    let e = if s[i] == '0' { i + 1 } else { digits_end(s, i) };
    if e + 1 < s.len() && s[e] == '.' && is_digit(s[e + 1]) {
        digits_end(s, e + 1)
    } else {
        e
    }
}

/// The keyword spelled `w`, if any.
pub open spec fn keyword(w: Seq<char>) -> Option<STok> {
    if w == "let"@ {
        Some(STok::Let)
    } else if w == "in"@ {
        Some(STok::In)
    } else if w == "fn"@ {
        Some(STok::Fn)
    } else if w == "true"@ {
        Some(STok::True)
    } else if w == "false"@ {
        Some(STok::False)
    } else if w == "if"@ {
        Some(STok::If)
    } else if w == "then"@ {
        Some(STok::Then)
    } else if w == "else"@ {
        Some(STok::Else)
    } else if w == "match"@ {
        Some(STok::Match)
    } else if w == "with"@ {
        Some(STok::With)
    } else {
        None
    }
}

/// The token of a word: a keyword or an identifier.
pub open spec fn word_token(w: Seq<char>) -> STok {
    match keyword(w) {
        Some(t) => t,
        None => STok::Ident(w),
    }
}

/// The punctuation token at `i` and where it ends; two-character symbols
/// are preferred to their one-character prefixes.
pub open spec fn punct(s: Seq<char>, i: int) -> Option<(STok, int)> {
    let c = s[i];
    let next = if i + 1 < s.len() { Some(s[i + 1]) } else { None };
    if c == '=' && next == Some('>') {
        Some((STok::ThickArrow, i + 2))
    } else if c == '-' && next == Some('>') {
        Some((STok::ThinArrow, i + 2))
    } else if c == '!' && next == Some('=') {
        Some((STok::Neq, i + 2))
    } else if c == '>' && next == Some('=') {
        Some((STok::Geq, i + 2))
    } else if c == '<' && next == Some('=') {
        Some((STok::Leq, i + 2))
    } else if c == '\'' {
        Some((STok::SingleQuote, i + 1))
    } else if c == '+' {
        Some((STok::Plus, i + 1))
    } else if c == '-' {
        Some((STok::Minus, i + 1))
    } else if c == '*' {
        Some((STok::Asterisk, i + 1))
    } else if c == '/' {
        Some((STok::Slash, i + 1))
    } else if c == ':' {
        Some((STok::Colon, i + 1))
    } else if c == ';' {
        Some((STok::Semicolon, i + 1))
    } else if c == '=' {
        Some((STok::Eq, i + 1))
    } else if c == '>' {
        Some((STok::Gt, i + 1))
    } else if c == '<' {
        Some((STok::Lt, i + 1))
    } else if c == '(' {
        Some((STok::LParen, i + 1))
    } else if c == ')' {
        Some((STok::RParen, i + 1))
    } else {
        None
    }
}

/// The token that starts at `i` (not whitespace) and where it ends.
pub open spec fn scan(s: Seq<char>, i: int) -> Option<(STok, int)> {
    if is_alpha(s[i]) {
        let e = ident_end(s, i);
        Some((word_token(s.subrange(i, e)), e))
    } else if is_digit(s[i]) {
        let e = number_end(s, i);
        Some((STok::Num(s.subrange(i, e)), e))
    } else {
        punct(s, i)
    }
}

/// The tokens of `s` from `i` on, each with its position, or the position
/// of the first character that starts no token.
pub open spec fn lex_from(s: Seq<char>, i: int) -> Result<Seq<(STok, (int, int))>, int>
    decreases s.len() - i,
{
    let j = ws_end(s, i);
    if !(0 <= i <= j) || j >= s.len() {
        Ok(Seq::empty())
    } else {
        match scan(s, j) {
            Some((t, e)) => if j < e <= s.len() {
                match lex_from(s, e) {
                    Ok(rest) => Ok(seq![(t, (j, e))] + rest),
                    Err(p) => Err(p),
                }
            } else {
                Err(j)
            },
            None => Err(j),
        }
    }
}

/// The tokens of the whole text `s`.
pub open spec fn lex(s: Seq<char>) -> Result<Seq<(STok, (int, int))>, int> {
    lex_from(s, 0)
}


/// The tokens lie within `lo..hi`, in the order of the text, each non-empty
/// and none overlapping the next.
pub open spec fn spans_ordered(ts: Seq<(STok, (int, int))>, lo: int, hi: int) -> bool {
    &&& forall|i: int| 0 <= i < ts.len() ==> lo <= #[trigger] ts[i].1.0 < ts[i].1.1 <= hi
    &&& forall|i: int, j: int| 0 <= i < j < ts.len() ==> #[trigger] ts[i].1.1 <= #[trigger] ts[j].1.0
}

proof fn lemma_lex_from_ordered(s: Seq<char>, i: int)
    requires
        0 <= i,
        lex_from(s, i) is Ok,
    ensures
        spans_ordered(lex_from(s, i)->Ok_0, i, s.len() as int),
    decreases s.len() - i,
{
    let j = ws_end(s, i);
    if !(0 <= i <= j) || j >= s.len() {
    } else {
        match scan(s, j) {
            Some((t, e)) => {
                if j < e <= s.len() {
                    lemma_lex_from_ordered(s, e);
                    let rest = lex_from(s, e)->Ok_0;
                    let ts = seq![(t, (j, e))] + rest;
                    assert(lex_from(s, i)->Ok_0 == ts);
                    assert forall|a: int| 0 <= a < ts.len() implies i <= #[trigger] ts[a].1.0 < ts[a].1.1
                        <= s.len() by {
                        if a > 0 {
                            assert(ts[a] == rest[a - 1]);
                        }
                    }
                    assert forall|a: int, b: int| 0 <= a < b < ts.len() implies #[trigger] ts[a].1.1
                        <= #[trigger] ts[b].1.0 by {
                        assert(ts[b] == rest[b - 1]);
                        if a > 0 {
                            assert(ts[a] == rest[a - 1]);
                        }
                    }
                }
            },
            None => {},
        }
    }
}

/// The tokens of a text lie within it, in order, each non-empty and none
/// overlapping another.
pub proof fn law_lex_spans(s: Seq<char>)
    requires
        lex(s) is Ok,
    ensures
        spans_ordered(lex(s)->Ok_0, 0, s.len() as int),
{
    lemma_lex_from_ordered(s, 0);
}

/// Each token but `<=` (shown as `!=`) is shown by the characters it was
/// read from.
pub open spec fn texts_match(s: Seq<char>, ts: Seq<(STok, (int, int))>) -> bool {
    forall|i: int|
        0 <= i < ts.len() && !(ts[i].0 is Leq) ==> tok_text(#[trigger] ts[i].0) == s.subrange(
            ts[i].1.0,
            ts[i].1.1,
        )
}

proof fn lemma_scan_text(s: Seq<char>, j: int)
    requires
        0 <= j < s.len(),
    ensures
        scan(s, j) matches Some((t, e)) ==> (j < e <= s.len() && !(t is Leq) ==> tok_text(t)
            == s.subrange(j, e)),
{
    if !is_alpha(s[j]) && !is_digit(s[j]) {
        match punct(s, j) {
            Some((t, e)) => {
                if j < e <= s.len() && !(t is Leq) {
                    reveal_strlit("=>");
                    reveal_strlit("->");
                    reveal_strlit("!=");
                    reveal_strlit(">=");
                    reveal_strlit("'");
                    reveal_strlit("+");
                    reveal_strlit("-");
                    reveal_strlit("*");
                    reveal_strlit("/");
                    reveal_strlit(":");
                    reveal_strlit(";");
                    reveal_strlit("=");
                    reveal_strlit(">");
                    reveal_strlit("<");
                    reveal_strlit("(");
                    reveal_strlit(")");
                    if e == j + 1 {
                        assert(s.subrange(j, e) =~= seq![s[j]]);
                    } else {
                        assert(s.subrange(j, e) =~= seq![s[j], s[j + 1]]);
                    }
                }
            },
            None => {},
        }
    }
}

proof fn lemma_lex_from_texts(s: Seq<char>, i: int)
    requires
        0 <= i,
        lex_from(s, i) is Ok,
    ensures
        texts_match(s, lex_from(s, i)->Ok_0),
    decreases s.len() - i,
{
    let j = ws_end(s, i);
    if !(0 <= i <= j) || j >= s.len() {
    } else {
        match scan(s, j) {
            Some((t, e)) => {
                if j < e <= s.len() {
                    lemma_scan_text(s, j);
                    lemma_lex_from_texts(s, e);
                    let rest = lex_from(s, e)->Ok_0;
                    let ts = seq![(t, (j, e))] + rest;
                    assert(lex_from(s, i)->Ok_0 == ts);
                    assert forall|a: int| 0 <= a < ts.len() && !(ts[a].0 is Leq) implies tok_text(
                        #[trigger] ts[a].0,
                    ) == s.subrange(ts[a].1.0, ts[a].1.1) by {
                        if a > 0 {
                            assert(ts[a] == rest[a - 1]);
                        }
                    }
                }
            },
            None => {},
        }
    }
}

/// Each token of a text is shown by the characters it was read from; the one
/// exception is `<=`, which is shown as `!=`.
pub proof fn law_lex_texts(s: Seq<char>)
    requires
        lex(s) is Ok,
    ensures
        texts_match(s, lex(s)->Ok_0),
{
    lemma_lex_from_texts(s, 0);
}

/// Whether every character of `s` is a decimal digit.
pub open spec fn all_digits(s: Seq<char>) -> bool {
    forall|i: int| 0 <= i < s.len() ==> is_digit(#[trigger] s[i])
}

proof fn lemma_digits_end(s: Seq<char>, i: int, j: int)
    requires
        0 <= i <= j <= s.len(),
        forall|k: int| i <= k < j ==> is_digit(#[trigger] s[k]),
        j == s.len() || !is_digit(s[j]),
    ensures
        digits_end(s, i) == j,
    decreases j - i,
{
    if i < j {
        lemma_digits_end(s, i + 1, j);
    }
}

/// A numeral is read as one number token that spans all of it: an integer
/// part that is `0` or does not start with `0`, optionally followed by a
/// point and at least one digit.
pub proof fn law_lex_number(int_part: Seq<char>, frac: Seq<char>)
    requires
        int_part.len() >= 1,
        all_digits(int_part),
        int_part[0] != '0' || int_part.len() == 1,
        all_digits(frac),
    ensures
        frac.len() >= 1 ==> lex(int_part + seq!['.'] + frac) == Ok::<Seq<(STok, (int, int))>, int>(
            seq![(STok::Num(int_part + seq!['.'] + frac), (0, (int_part.len() + 1 + frac.len()) as int))],
        ),
        lex(int_part) == Ok::<Seq<(STok, (int, int))>, int>(
            seq![(STok::Num(int_part), (0, int_part.len() as int))],
        ),
{
    let n = int_part.len() as int;
    // The integer alone.
    {
        let s = int_part;
        assert(is_digit(s[0]));
        assert(ws_end(s, 0) == 0);
        lemma_digits_end(s, 0, n);
        assert(number_end(s, 0) == n);
        assert(ws_end(s, n) == n);
        assert(lex_from(s, n) == Ok::<Seq<(STok, (int, int))>, int>(Seq::empty()));
        assert(s.subrange(0, n) =~= s);
        assert(seq![(STok::Num(s), (0int, n))] + Seq::<(STok, (int, int))>::empty() =~= seq![(STok::Num(s), (0int, n))]);
    }
    if frac.len() >= 1 {
        let s = int_part + seq!['.'] + frac;
        let len = s.len() as int;
        assert(s[0] == int_part[0]);
        assert(is_digit(s[0]));
        assert(ws_end(s, 0) == 0);
        assert forall|k: int| 0 <= k < n implies is_digit(#[trigger] s[k]) by {
            assert(s[k] == int_part[k]);
        }
        assert(s[n] == '.');
        lemma_digits_end(s, 0, n);
        assert forall|k: int| n + 1 <= k < len implies is_digit(#[trigger] s[k]) by {
            assert(s[k] == frac[k - n - 1]);
        }
        assert(s[n + 1] == frac[0]);
        lemma_digits_end(s, n + 1, len);
        assert(number_end(s, 0) == len);
        assert(ws_end(s, len) == len);
        assert(lex_from(s, len) == Ok::<Seq<(STok, (int, int))>, int>(Seq::empty()));
        assert(s.subrange(0, len) =~= s);
        assert(seq![(STok::Num(s), (0int, len))] + Seq::<(STok, (int, int))>::empty() =~= seq![(STok::Num(s), (0int, len))]);
    }
}

/// Prepends tokens to a lexing outcome.
pub open spec fn prepend(pre: Seq<(STok, (int, int))>, r: Result<Seq<(STok, (int, int))>, int>) -> Result<
    Seq<(STok, (int, int))>,
    int,
> {
    match r {
        Ok(rest) => Ok(pre + rest),
        Err(p) => Err(p),
    }
}

fn is_ws_exec(c: char) -> (r: bool)
    ensures
        r == is_ws(c),
{
    c == ' ' || c == '\t' || c == '\n' || c == '\r' || c == '\x0b' || c == '\x0c'
}

fn is_alpha_exec(c: char) -> (r: bool)
    ensures
        r == is_alpha(c),
{
    ('a' <= c && c <= 'z') || ('A' <= c && c <= 'Z') || c == '_'
}

fn is_digit_exec(c: char) -> (r: bool)
    ensures
        r == is_digit(c),
{
    '0' <= c && c <= '9'
}

fn ws_end_exec(s: &Vec<char>, i: usize) -> (r: usize)
    requires
        i <= s.len(),
    ensures
        r as int == ws_end(s@, i as int),
        i <= r <= s.len(),
{
    let mut j = i;
    while j < s.len() && is_ws_exec(s[j])
        invariant
            i <= j <= s.len(),
            ws_end(s@, i as int) == ws_end(s@, j as int),
        decreases s.len() - j,
    {
        j = j + 1;
    }
    j
}

fn ident_end_exec(s: &Vec<char>, i: usize) -> (r: usize)
    requires
        i <= s.len(),
    ensures
        r as int == ident_end(s@, i as int),
        i <= r <= s.len(),
{
    let mut j = i;
    while j < s.len() && (is_alpha_exec(s[j]) || is_digit_exec(s[j]))
        invariant
            i <= j <= s.len(),
            ident_end(s@, i as int) == ident_end(s@, j as int),
        decreases s.len() - j,
    {
        j = j + 1;
    }
    j
}

fn digits_end_exec(s: &Vec<char>, i: usize) -> (r: usize)
    requires
        i <= s.len(),
    ensures
        r as int == digits_end(s@, i as int),
        i <= r <= s.len(),
{
    let mut j = i;
    while j < s.len() && is_digit_exec(s[j])
        invariant
            i <= j <= s.len(),
            digits_end(s@, i as int) == digits_end(s@, j as int),
        decreases s.len() - j,
    {
        j = j + 1;
    }
    j
}

fn number_end_exec(s: &Vec<char>, i: usize) -> (r: usize)
    requires
        i < s.len(),
        is_digit(s@[i as int]),
    ensures
        r as int == number_end(s@, i as int),
        i < r <= s.len(),
{
    proof {
        assert(digits_end(s@, i as int) == digits_end(s@, i + 1));
    }
    let e = if s[i] == '0' { i + 1 } else { digits_end_exec(s, i + 1) };
    if e < s.len() && s.len() - e > 1 && s[e] == '.' && is_digit_exec(s[e + 1]) {
        digits_end_exec(s, e + 1)
    } else {
        e
    }
}

/// The characters `s[i..e]` as a string.
fn substring(s: &Vec<char>, i: usize, e: usize) -> (r: String)
    requires
        i <= e <= s.len(),
    ensures
        r@ == s@.subrange(i as int, e as int),
{
    let mut r = String::new();
    let mut j = i;
    while j < e
        invariant
            i <= j <= e <= s.len(),
            r@ == s@.subrange(i as int, j as int),
        decreases e - j,
    {
        push_char(&mut r, s[j]);
        proof {
            assert(r@ =~= s@.subrange(i as int, j + 1));
        }
        j = j + 1;
    }
    r
}

/// The token of the word `w`.
fn word_token_exec(w: String) -> (t: Token)
    ensures
        t@ == word_token(w@),
{
    if w == String::from_str("let") {
        Token::Let
    } else if w == String::from_str("in") {
        Token::In
    } else if w == String::from_str("fn") {
        Token::Fn
    } else if w == String::from_str("true") {
        Token::True
    } else if w == String::from_str("false") {
        Token::False
    } else if w == String::from_str("if") {
        Token::If
    } else if w == String::from_str("then") {
        Token::Then
    } else if w == String::from_str("else") {
        Token::Else
    } else if w == String::from_str("match") {
        Token::Match
    } else if w == String::from_str("with") {
        Token::With
    } else {
        Token::Ident(w)
    }
}

/// The punctuation token at `i`.
fn punct_exec(s: &Vec<char>, i: usize) -> (r: Option<(Token, usize)>)
    requires
        i < s.len(),
    ensures
        match r {
            Some((t, e)) => punct(s@, i as int) == Some((t@, e as int)) && i < e <= s.len(),
            None => punct(s@, i as int) is None,
        },
{
    let c = s[i];
    let next: Option<char> = if i + 1 < s.len() { Some(s[i + 1]) } else { None };
    if c == '=' && next == Some('>') {
        Some((Token::ThickArrow, i + 2))
    } else if c == '-' && next == Some('>') {
        Some((Token::ThinArrow, i + 2))
    } else if c == '!' && next == Some('=') {
        Some((Token::Neq, i + 2))
    } else if c == '>' && next == Some('=') {
        Some((Token::Geq, i + 2))
    } else if c == '<' && next == Some('=') {
        Some((Token::Leq, i + 2))
    } else if c == '\'' {
        Some((Token::SingleQuote, i + 1))
    } else if c == '+' {
        Some((Token::Plus, i + 1))
    } else if c == '-' {
        Some((Token::Minus, i + 1))
    } else if c == '*' {
        Some((Token::Asterisk, i + 1))
    } else if c == '/' {
        Some((Token::Slash, i + 1))
    } else if c == ':' {
        Some((Token::Colon, i + 1))
    } else if c == ';' {
        Some((Token::Semicolon, i + 1))
    } else if c == '=' {
        Some((Token::Eq, i + 1))
    } else if c == '>' {
        Some((Token::Gt, i + 1))
    } else if c == '<' {
        Some((Token::Lt, i + 1))
    } else if c == '(' {
        Some((Token::LParen, i + 1))
    } else if c == ')' {
        Some((Token::RParen, i + 1))
    } else {
        None
    }
}

/// The token that starts at `i`.
fn scan_exec(s: &Vec<char>, i: usize) -> (r: Option<(Token, usize)>)
    requires
        i < s.len(),
    ensures
        match r {
            Some((t, e)) => scan(s@, i as int) == Some((t@, e as int)) && i < e <= s.len(),
            None => scan(s@, i as int) is None,
        },
{
    if is_alpha_exec(s[i]) {
        proof {
            assert(ident_end(s@, i as int) == ident_end(s@, i + 1));
        }
        let e = ident_end_exec(s, i + 1);
        let w = substring(s, i, e);
        Some((word_token_exec(w), e))
    } else if is_digit_exec(s[i]) {
        let e = number_end_exec(s, i);
        let w = substring(s, i, e);
        Some((Token::Num(w), e))
    } else {
        punct_exec(s, i)
    }
}

/// The tokens of `src`, each with its position (as character indices), or
/// the position and the text of the first character that starts no token.
pub fn lexer(src: &str) -> (r: Result<Vec<Spanned<Token>>, ParseError>)
    ensures
        match lex(src@) {
            Ok(ts) => r matches Ok(v) && toks_model(v@) == ts,
            Err(p) => r matches Err(e) && e.span == (p as usize, (p + 1) as usize) && (e.found
                matches Some(f) && f@ == seq![src@[p]]),
        },
{
    let s = str_chars(src);
    let mut toks: Vec<Spanned<Token>> = Vec::new();
    let mut i: usize = 0;
    proof {
        assert(toks_model(toks@) =~= Seq::<(STok, (int, int))>::empty());
        assert(prepend(Seq::empty(), lex_from(s@, 0)) =~= lex_from(s@, 0));
    }
    loop
        invariant
            s@ == src@,
            i <= s.len(),
            lex(s@) == prepend(toks_model(toks@), lex_from(s@, i as int)),
        decreases s.len() - i,
    {
        let j = ws_end_exec(&s, i);
        if j >= s.len() {
            proof {
                assert(toks_model(toks@) + Seq::<(STok, (int, int))>::empty() =~= toks_model(toks@));
            }
            return Ok(toks);
        }
        match scan_exec(&s, j) {
            Some((t, e)) => {
                let ghost before = toks@;
                let ghost rest = lex_from(s@, e as int);
                toks.push(Spanned { inner: t, span: (j, e) });
                proof {
                    assert(toks_model(toks@) =~= toks_model(before).push((toks@.last().inner@, (j as int, e as int))));
                    match rest {
                        Ok(r) => {
                            assert(toks_model(before) + (seq![(toks@.last().inner@, (j as int, e as int))] + r) =~= toks_model(toks@) + r);
                        },
                        Err(_) => {},
                    }
                }
                i = e;
            },
            None => {
                let mut found = String::new();
                push_char(&mut found, s[j]);
                proof {
                    assert(found@ =~= seq![s@[j as int]]);
                }
                return Err(ParseError { span: (j, j + 1), found: Some(found) });
            },
        }
    }
}

} // verus!
