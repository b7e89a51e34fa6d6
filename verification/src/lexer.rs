//! A tokenizer for flat, one-level JSON objects: braces, comma-separated
//! `"key":value` pairs, with strings, numbers, the three keywords, and
//! empty nested objects and arrays as values. `spec_lex` is the
//! mathematical tokenizer; `Lexer` is proved to return exactly what it
//! says.

use crate::num::{dec_digits, is_digit, parse_digits, parse_usize, u64_to_string};
use crate::text::str_eq;
use vstd::prelude::*;
use vstd::string::StrSliceExecFns;

verus! {

/// One token of the input.
#[derive(Debug, PartialEq)]
pub enum Token {
    LBraces,
    RBraces,
    Literal(String),
    Number(usize),
    Object,
    Array,
    Colon,
    Coma,
    Null,
    True,
    False,
}

/// The mathematical shape of a token.
pub enum TokenView {
    LBraces,
    RBraces,
    Literal(Seq<char>),
    Number(int),
    Object,
    Array,
    Colon,
    Coma,
    Null,
    True,
    False,
}

/// The abstract token a concrete one stands for.
pub open spec fn tok_view(t: Token) -> TokenView {
    match t {
        Token::LBraces => TokenView::LBraces,
        Token::RBraces => TokenView::RBraces,
        Token::Literal(s) => TokenView::Literal(s@),
        Token::Number(n) => TokenView::Number(n as int),
        Token::Object => TokenView::Object,
        Token::Array => TokenView::Array,
        Token::Colon => TokenView::Colon,
        Token::Coma => TokenView::Coma,
        Token::Null => TokenView::Null,
        Token::True => TokenView::True,
        Token::False => TokenView::False,
    }
}

/// The abstract tokens of a sequence, in order.
pub open spec fn tok_views(ts: Seq<Token>) -> Seq<TokenView>
    decreases ts.len(),
{
    if ts.len() == 0 {
        Seq::empty()
    } else {
        seq![tok_view(ts.first())] + tok_views(ts.drop_first())
    }
}

/// `tok_views` maps `tok_view` over the sequence, element by element.
pub proof fn lemma_tok_views_index(ts: Seq<Token>)
    ensures
        tok_views(ts).len() == ts.len(),
        forall|i: int| 0 <= i < ts.len() ==> tok_views(ts)[i] == tok_view(#[trigger] ts[i]),
    decreases ts.len(),
{
    if ts.len() > 0 {
        lemma_tok_views_index(ts.drop_first());
        assert forall|i: int| 0 <= i < ts.len() implies tok_views(ts)[i] == tok_view(
            #[trigger] ts[i],
        ) by {
            if i > 0 {
                assert(ts.drop_first()[i - 1] == ts[i]);
                assert(tok_views(ts)[i] == tok_views(ts.drop_first())[i - 1]);
            }
        }
    }
}

/// Appending one token appends its abstract shape.
pub proof fn lemma_tok_views_push(ts: Seq<Token>, t: Token)
    ensures
        tok_views(ts.push(t)) == tok_views(ts) + seq![tok_view(t)],
    decreases ts.len(),
{
    if ts.len() == 0 {
        assert(ts.push(t).drop_first() =~= Seq::<Token>::empty());
        assert(tok_views(Seq::<Token>::empty()) =~= Seq::<TokenView>::empty());
        assert(tok_views(ts) =~= Seq::<TokenView>::empty());
        assert(tok_views(ts.push(t)) =~= tok_views(ts) + seq![tok_view(t)]);
    } else {
        assert(ts.push(t).drop_first() =~= ts.drop_first().push(t));
        lemma_tok_views_push(ts.drop_first(), t);
        assert(tok_views(ts.push(t)) =~= tok_views(ts) + seq![tok_view(t)]);
    }
}

/// Why an input failed to tokenize.
#[derive(Clone, Copy, Debug, PartialEq, Eq, Structural)]
pub enum LexError {
    /// Empty input.
    EmptyFile,
    /// A comma right before the closing brace.
    TrailingComa,
    /// A character where only a brace, a comma or a quote can stand.
    UnexpectedToken,
    /// The first token is not an opening brace.
    OpeningCurly,
    /// The last token is not a closing brace.
    ClosingCurly,
    /// A colon or a value is missing after a key.
    InvalidSyntax,
    /// A keyword other than the three the format knows.
    InvalidKeyword,
    /// A colon inside a string, where its closing quote was expected.
    MissingClosingQuote,
    /// A string runs to the end of the input without a closing quote.
    UnterminatedString,
    /// A number runs to the end of the input.
    UnterminatedNumber,
    /// A keyword runs to the end of the input without a comma.
    UnterminatedLiteral,
    /// A number too large for a machine word.
    NumberOutOfRange,
    /// Content inside a nested object or array, which the tokenizer
    /// does not read.
    UnsupportedContent,
}

/// A line break.
pub open spec fn spec_newline(c: char) -> bool {
    c == '\n' || c == '\r'
}

/// A plain space.
pub open spec fn spec_whitespace(c: char) -> bool {
    c == ' '
}

/// First position at or after `pos` holding neither a space nor a line
/// break; the length when none does.
pub open spec fn skip_blank(s: Seq<char>, pos: int) -> int
    decreases s.len() - pos,
{
    if pos < 0 || pos >= s.len() {
        s.len() as int
    } else if spec_newline(s[pos]) || spec_whitespace(s[pos]) {
        skip_blank(s, pos + 1)
    } else {
        pos
    }
}

pub proof fn lemma_skip_blank(s: Seq<char>, pos: int)
    requires
        0 <= pos <= s.len(),
    ensures
        pos <= skip_blank(s, pos) <= s.len(),
        skip_blank(s, pos) < s.len() ==> !spec_newline(s[skip_blank(s, pos)]) && !spec_whitespace(
            s[skip_blank(s, pos)],
        ),
    decreases s.len() - pos,
{
    if pos < s.len() && (spec_newline(s[pos]) || spec_whitespace(s[pos])) {
        lemma_skip_blank(s, pos + 1);
    }
}

/// First position at or after `pos` holding a quote or a colon.
pub open spec fn find_str_end(s: Seq<char>, pos: int) -> Option<int>
    decreases s.len() - pos,
{
    if pos < 0 || pos >= s.len() {
        None
    } else if s[pos] == '"' || s[pos] == ':' {
        Some(pos)
    } else {
        find_str_end(s, pos + 1)
    }
}

pub proof fn lemma_find_str_end(s: Seq<char>, pos: int)
    requires
        0 <= pos,
    ensures
        match find_str_end(s, pos) {
            Option::Some(q) => pos <= q < s.len() && (s[q] == '"' || s[q] == ':'),
            Option::None => true,
        },
    decreases s.len() - pos,
{
    if pos < s.len() && !(s[pos] == '"' || s[pos] == ':') {
        lemma_find_str_end(s, pos + 1);
    }
}

/// First position at or after `pos` holding a comma.
pub open spec fn find_comma(s: Seq<char>, pos: int) -> Option<int>
    decreases s.len() - pos,
{
    if pos < 0 || pos >= s.len() {
        None
    } else if s[pos] == ',' {
        Some(pos)
    } else {
        find_comma(s, pos + 1)
    }
}

pub proof fn lemma_find_comma(s: Seq<char>, pos: int)
    requires
        0 <= pos,
    ensures
        match find_comma(s, pos) {
            Option::Some(q) => pos <= q < s.len() && s[q] == ',',
            Option::None => true,
        },
    decreases s.len() - pos,
{
    if pos < s.len() && s[pos] != ',' {
        lemma_find_comma(s, pos + 1);
    }
}

/// First position at or after `pos` holding something other than a
/// digit; the length when all the rest are digits.
pub open spec fn scan_digits(s: Seq<char>, pos: int) -> int
    decreases s.len() - pos,
{
    if pos < 0 || pos >= s.len() {
        s.len() as int
    } else if is_digit(s[pos]) {
        scan_digits(s, pos + 1)
    } else {
        pos
    }
}

pub proof fn lemma_scan_digits(s: Seq<char>, pos: int)
    requires
        0 <= pos <= s.len(),
    ensures
        pos <= scan_digits(s, pos) <= s.len(),
        scan_digits(s, pos) < s.len() ==> !is_digit(s[scan_digits(s, pos)]),
        forall|k: int| pos <= k < scan_digits(s, pos) ==> is_digit(s[k]),
    decreases s.len() - pos,
{
    if pos < s.len() && is_digit(s[pos]) {
        lemma_scan_digits(s, pos + 1);
    }
}

/// A string body read from just past its opening quote: the text up to
/// the closing quote, a colon being refused in its place.
pub open spec fn spec_string(s: Seq<char>, pos: int) -> Result<(Seq<char>, int), LexError> {
    match find_str_end(s, pos) {
        Option::None => Err(LexError::UnterminatedString),
        Option::Some(q) => {
            if s[q] == ':' {
                Err(LexError::MissingClosingQuote)
            } else {
                Ok((s.subrange(pos, q), q + 1))
            }
        },
    }
}

/// A keyword read from just past its first character: everything up to
/// the next comma joins it, the comma is consumed, and the whole must be
/// one of the three keywords the format knows.
pub open spec fn spec_keyword(s: Seq<char>, pos: int, first: char) -> Result<
    (TokenView, int),
    LexError,
> {
    match find_comma(s, pos) {
        Option::None => Err(LexError::UnterminatedLiteral),
        Option::Some(q) => {
            let acc = seq![first] + s.subrange(pos, q);
            if acc == "null"@ {
                Ok((TokenView::Null, q + 1))
            } else if acc == "true"@ {
                Ok((TokenView::True, q + 1))
            } else if acc == "false"@ {
                Ok((TokenView::False, q + 1))
            } else {
                Err(LexError::InvalidKeyword)
            }
        },
    }
}

/// A number read from its first digit: the digits up to the first
/// non-digit, which is consumed and discarded; the digits must not run
/// to the end of the input, and their value must fit a machine word.
pub open spec fn spec_number(s: Seq<char>, pos: int) -> Result<(TokenView, int), LexError> {
    let q = scan_digits(s, pos + 1);
    if q >= s.len() {
        Err(LexError::UnterminatedNumber)
    } else {
        match parse_digits(s.subrange(pos, q)) {
            Option::Some(v) => {
                if v <= usize::MAX {
                    Ok((TokenView::Number(v), q + 1))
                } else {
                    Err(LexError::NumberOutOfRange)
                }
            },
            Option::None => Err(LexError::NumberOutOfRange),
        }
    }
}

/// A nested object or array read from just past its opening bracket:
/// only an immediate closing bracket, or the end of the input, is
/// understood.
pub open spec fn spec_bracket(s: Seq<char>, pos: int, close: char, t: TokenView) -> Result<
    (TokenView, int),
    LexError,
> {
    if pos >= s.len() {
        Ok((t, pos))
    } else if s[pos] == close {
        Ok((t, pos + 1))
    } else {
        Err(LexError::UnsupportedContent)
    }
}

/// One value, read from its first character.
pub open spec fn spec_value(s: Seq<char>, pos: int) -> Result<(TokenView, int), LexError> {
    let c = s[pos];
    if c == '"' {
        match spec_string(s, pos + 1) {
            Ok((t, p)) => Ok((TokenView::Literal(t), p)),
            Err(e) => Err(e),
        }
    } else if c == 'n' || c == 't' || c == 'f' {
        spec_keyword(s, pos + 1, c)
    } else if c == '{' {
        spec_bracket(s, pos + 1, '}', TokenView::Object)
    } else if c == '[' {
        spec_bracket(s, pos + 1, ']', TokenView::Array)
    } else if is_digit(c) {
        spec_number(s, pos)
    } else {
        Err(LexError::InvalidSyntax)
    }
}

/// One `"key":value` pair, read from just past the key's opening quote.
/// An input that ends right after the colon yields the key and the colon
/// with no value.
pub open spec fn spec_kv(s: Seq<char>, pos: int) -> Result<(Seq<TokenView>, int), LexError> {
    match spec_string(s, pos) {
        Err(e) => Err(e),
        Ok((key, p1)) => {
            let p2 = skip_blank(s, p1);
            if p2 >= s.len() || s[p2] != ':' {
                Err(LexError::InvalidSyntax)
            } else {
                let p3 = skip_blank(s, p2 + 1);
                if p3 >= s.len() {
                    Ok((seq![TokenView::Literal(key), TokenView::Colon], p3))
                } else {
                    match spec_value(s, p3) {
                        Ok((v, p4)) => Ok(
                            (seq![TokenView::Literal(key), TokenView::Colon, v], p4),
                        ),
                        Err(e) => Err(e),
                    }
                }
            }
        },
    }
}

/// The token stream from `pos` on, with `tokens` already read: braces
/// and commas stand alone, a quote opens a pair, and anything else is
/// refused. A closing brace right after a comma is refused too.
pub open spec fn spec_lex_from(s: Seq<char>, pos: int, tokens: Seq<TokenView>) -> Result<
    Seq<TokenView>,
    LexError,
>
    decreases s.len() - pos,
    via spec_lex_from_decreases
{
    let p = skip_blank(s, pos);
    if pos < 0 || p >= s.len() {
        Ok(tokens)
    } else {
        let c = s[p];
        if c == '{' {
            spec_lex_from(s, p + 1, tokens.push(TokenView::LBraces))
        } else if c == '}' {
            if tokens.len() == 0 {
                Err(LexError::OpeningCurly)
            } else if tokens.last() == TokenView::Coma {
                Err(LexError::TrailingComa)
            } else {
                spec_lex_from(s, p + 1, tokens.push(TokenView::RBraces))
            }
        } else if c == ',' {
            spec_lex_from(s, p + 1, tokens.push(TokenView::Coma))
        } else if c == '"' {
            match spec_kv(s, p + 1) {
                Ok((toks, p2)) => {
                    if p < p2 <= s.len() {
                        spec_lex_from(s, p2, tokens + toks)
                    } else {
                        // never reached: a pair ends after its start
                        Err(LexError::UnexpectedToken)
                    }
                },
                Err(e) => Err(e),
            }
        } else {
            Err(LexError::UnexpectedToken)
        }
    }
}

#[via_fn]
proof fn spec_lex_from_decreases(s: Seq<char>, pos: int, tokens: Seq<TokenView>) {
    if 0 <= pos <= s.len() {
        lemma_skip_blank(s, pos);
        let p = skip_blank(s, pos);
        if p < s.len() && s[p] == '"' {
            match spec_kv(s, p + 1) {
                Ok((toks, p2)) => {
                    lemma_kv_advances(s, p + 1);
                },
                Err(_) => {},
            }
        }
    }
}

/// A pair never ends before it starts, nor past the end of the input.
pub proof fn lemma_kv_advances(s: Seq<char>, pos: int)
    requires
        0 <= pos,
    ensures
        spec_kv(s, pos) matches Ok((toks, p2)) ==> pos < p2 <= s.len(),
{
    lemma_find_str_end(s, pos);
    match find_str_end(s, pos) {
        Option::Some(q) => {
            if s[q] != ':' {
                lemma_skip_blank(s, q + 1);
                let p2 = skip_blank(s, q + 1);
                if p2 < s.len() && s[p2] == ':' {
                    lemma_skip_blank(s, p2 + 1);
                    let p3 = skip_blank(s, p2 + 1);
                    if p3 < s.len() {
                        lemma_value_advances(s, p3);
                    }
                }
            }
        },
        Option::None => {},
    }
}

/// A value never ends before it starts, nor past the end of the input.
pub proof fn lemma_value_advances(s: Seq<char>, pos: int)
    requires
        0 <= pos < s.len(),
    ensures
        spec_value(s, pos) matches Ok((t, p)) ==> pos < p <= s.len(),
{
    let c = s[pos];
    if c == '"' {
        lemma_find_str_end(s, pos + 1);
    } else if c == 'n' || c == 't' || c == 'f' {
        lemma_find_comma(s, pos + 1);
    } else if is_digit(c) {
        lemma_scan_digits(s, pos + 1);
    }
}

/// The whole token stream of an input read from `pos`: it must be
/// non-empty, open with a brace and close with one.
pub open spec fn spec_lex(s: Seq<char>, pos: int) -> Result<Seq<TokenView>, LexError> {
    if pos >= s.len() {
        Err(LexError::EmptyFile)
    } else {
        match spec_lex_from(s, pos, Seq::empty()) {
            Ok(tokens) => {
                if tokens.len() == 0 {
                    Err(LexError::OpeningCurly)
                } else if tokens[0] != TokenView::LBraces {
                    Err(LexError::OpeningCurly)
                } else if tokens.last() != TokenView::RBraces {
                    Err(LexError::ClosingCurly)
                } else {
                    Ok(tokens)
                }
            },
            Err(e) => Err(e),
        }
    }
}


/// The text a token prints as.
pub open spec fn literal_text(t: TokenView) -> Seq<char> {
    match t {
        TokenView::LBraces => "{"@,
        TokenView::RBraces => "}"@,
        TokenView::Literal(s) => s,
        TokenView::Number(n) => dec_digits(n),
        TokenView::Object => "{{}}"@,
        TokenView::Array => "[]"@,
        TokenView::Colon => ":"@,
        TokenView::Coma => ","@,
        TokenView::Null => "null"@,
        TokenView::True => "true"@,
        TokenView::False => "false"@,
    }
}

impl Token {
    /// The text the token prints as.
    pub fn literal(&self) -> (r: String)
        ensures
            r@ == literal_text(tok_view(*self)),
    {
        match self {
            Token::LBraces => "{".to_owned(),
            Token::RBraces => "}".to_owned(),
            Token::Literal(s) => s.clone(),
            Token::Number(n) => u64_to_string(*n as u64),
            Token::Object => "{{}}".to_owned(),
            Token::Array => "[]".to_owned(),
            Token::Colon => ":".to_owned(),
            Token::Coma => ",".to_owned(),
            Token::Null => "null".to_owned(),
            Token::True => "true".to_owned(),
            Token::False => "false".to_owned(),
        }
    }
}

/// The executable tokenizer: a cursor over the input text.
pub struct Lexer<'a> {
    input: &'a str,
    len: usize,
    pos: usize,
}

impl<'a> Lexer<'a> {
    /// The text being tokenized.
    pub closed spec fn text(self) -> Seq<char> {
        self.input@
    }

    /// The cursor, as an index into the text.
    pub closed spec fn position(self) -> int {
        self.pos as int
    }

    /// The cursor stays inside the text and the cached length is right.
    pub closed spec fn wf(self) -> bool {
        self.len == self.input@.len() && self.pos <= self.len
    }

    /// A tokenizer at the start of the given text.
    pub fn new(input: &'a str) -> (r: Self)
        ensures
            r.wf(),
            r.text() == input@,
            r.position() == 0,
    {
        let len = input.unicode_len();
        Lexer { input, len, pos: 0 }
    }

    /// First position at or after `from` that is not blank.
    fn skip_blank_exec(&self, from: usize) -> (r: usize)
        requires
            self.wf(),
            from <= self.len,
        ensures
            r == skip_blank(self.text(), from as int),
            from <= r <= self.len,
    {
        let mut i: usize = from;
        while i < self.len
            invariant
                self.wf(),
                from <= i <= self.len,
                skip_blank(self.text(), from as int) == skip_blank(self.text(), i as int),
            decreases self.len - i,
        {
            let c = self.input.get_char(i);
            if !(c == ' ' || c == '\n' || c == '\r') {
                return i;
            }
            i += 1;
        }
        i
    }

    /// First quote or colon at or after `from`.
    fn find_str_end_exec(&self, from: usize) -> (r: Option<usize>)
        requires
            self.wf(),
            from <= self.len,
        ensures
            match r {
                Option::Some(q) => find_str_end(self.text(), from as int) == Some(q as int),
                Option::None => find_str_end(self.text(), from as int) is None,
            },
    {
        let mut i: usize = from;
        while i < self.len
            invariant
                self.wf(),
                from <= i <= self.len,
                find_str_end(self.text(), from as int) == find_str_end(self.text(), i as int),
            decreases self.len - i,
        {
            let c = self.input.get_char(i);
            if c == '"' || c == ':' {
                return Some(i);
            }
            i += 1;
        }
        None
    }

    /// First comma at or after `from`.
    fn find_comma_exec(&self, from: usize) -> (r: Option<usize>)
        requires
            self.wf(),
            from <= self.len,
        ensures
            match r {
                Option::Some(q) => find_comma(self.text(), from as int) == Some(q as int),
                Option::None => find_comma(self.text(), from as int) is None,
            },
    {
        let mut i: usize = from;
        while i < self.len
            invariant
                self.wf(),
                from <= i <= self.len,
                find_comma(self.text(), from as int) == find_comma(self.text(), i as int),
            decreases self.len - i,
        {
            if self.input.get_char(i) == ',' {
                return Some(i);
            }
            i += 1;
        }
        None
    }

    /// First non-digit at or after `from`, or the length.
    fn scan_digits_exec(&self, from: usize) -> (r: usize)
        requires
            self.wf(),
            from <= self.len,
        ensures
            r == scan_digits(self.text(), from as int),
            from <= r <= self.len,
    {
        let mut i: usize = from;
        while i < self.len
            invariant
                self.wf(),
                from <= i <= self.len,
                scan_digits(self.text(), from as int) == scan_digits(self.text(), i as int),
            decreases self.len - i,
        {
            let u = self.input.get_char(i) as u32;
            if u < 48 || u > 57 {
                return i;
            }
            i += 1;
        }
        i
    }

    /// Read a string body from the cursor, which stands just past the
    /// opening quote; the cursor ends past the closing quote.
    fn read_string(&mut self) -> (r: Result<Token, LexError>)
        requires
            old(self).wf(),
        ensures
            final(self).wf(),
            final(self).text() == old(self).text(),
            match spec_string(old(self).text(), old(self).position()) {
                Ok((content, p)) => r matches Ok(t) && tok_view(t) == TokenView::Literal(content)
                    && final(self).position() == p,
                Err(e) => r == Err::<Token, LexError>(e),
            },
    {
        match self.find_str_end_exec(self.pos) {
            Option::None => Err(LexError::UnterminatedString),
            Option::Some(q) => {
                proof {
                    lemma_find_str_end(self.text(), self.position());
                }
                if self.input.get_char(q) == ':' {
                    Err(LexError::MissingClosingQuote)
                } else {
                    let content = self.input.substring_char(self.pos, q).to_owned();
                    self.pos = q + 1;
                    Ok(Token::Literal(content))
                }
            },
        }
    }

    /// Read a keyword whose first character was already consumed; the
    /// comma that ends it is consumed and discarded.
    fn read_keyword(&mut self, first: char) -> (r: Result<Token, LexError>)
        requires
            old(self).wf(),
        ensures
            final(self).wf(),
            final(self).text() == old(self).text(),
            match spec_keyword(old(self).text(), old(self).position(), first) {
                Ok((v, p)) => r matches Ok(t) && tok_view(t) == v && final(self).position() == p,
                Err(e) => r == Err::<Token, LexError>(e),
            },
    {
        match self.find_comma_exec(self.pos) {
            Option::None => Err(LexError::UnterminatedLiteral),
            Option::Some(q) => {
                proof {
                    lemma_find_comma(self.text(), self.position());
                }
                let body = self.input.substring_char(self.pos, q);
                let ghost acc = seq![first] + body@;
                self.pos = q + 1;
                proof {
                    reveal_strlit("null");
                    reveal_strlit("true");
                    reveal_strlit("false");
                    reveal_strlit("ull");
                    reveal_strlit("rue");
                    reveal_strlit("alse");
                }
                if first == 'n' && str_eq(body, "ull") {
                    proof {
                        assert(acc =~= "null"@);
                    }
                    Ok(Token::Null)
                } else if first == 't' && str_eq(body, "rue") {
                    proof {
                        assert(acc =~= "true"@);
                        assert(acc != "null"@) by {
                            assert(acc[0] == 't');
                        }
                    }
                    Ok(Token::True)
                } else if first == 'f' && str_eq(body, "alse") {
                    proof {
                        assert(acc =~= "false"@);
                        assert(acc != "null"@) by {
                            assert(acc[0] == 'f');
                        }
                        assert(acc != "true"@) by {
                            assert(acc[0] == 'f');
                        }
                    }
                    Ok(Token::False)
                } else {
                    proof {
                        assert(acc != "null"@) by {
                            if acc == "null"@ {
                                assert(acc[0] == 'n');
                                assert(body@ =~= acc.drop_first());
                                assert(acc.drop_first() =~= "ull"@);
                            }
                        }
                        assert(acc != "true"@) by {
                            if acc == "true"@ {
                                assert(acc[0] == 't');
                                assert(body@ =~= acc.drop_first());
                                assert(acc.drop_first() =~= "rue"@);
                            }
                        }
                        assert(acc != "false"@) by {
                            if acc == "false"@ {
                                assert(acc[0] == 'f');
                                assert(body@ =~= acc.drop_first());
                                assert(acc.drop_first() =~= "alse"@);
                            }
                        }
                    }
                    Err(LexError::InvalidKeyword)
                }
            },
        }
    }

    /// Read a number from the cursor, which stands on its first digit;
    /// the non-digit that ends it is consumed and discarded.
    fn read_number(&mut self) -> (r: Result<Token, LexError>)
        requires
            old(self).wf(),
            old(self).position() < old(self).text().len(),
        ensures
            final(self).wf(),
            final(self).text() == old(self).text(),
            match spec_number(old(self).text(), old(self).position()) {
                Ok((v, p)) => r matches Ok(t) && tok_view(t) == v && final(self).position() == p,
                Err(e) => r == Err::<Token, LexError>(e),
            },
    {
        let q = self.scan_digits_exec(self.pos + 1);
        if q == self.len {
            Err(LexError::UnterminatedNumber)
        } else {
            let digits = self.input.substring_char(self.pos, q);
            self.pos = q + 1;
            match parse_usize(digits) {
                Option::Some(v) => Ok(Token::Number(v)),
                Option::None => Err(LexError::NumberOutOfRange),
            }
        }
    }

    /// Read a nested object from the cursor, which stands just past the
    /// opening brace; only an immediate closing brace is understood.
    fn read_object(&mut self) -> (r: Result<Token, LexError>)
        requires
            old(self).wf(),
        ensures
            final(self).wf(),
            final(self).text() == old(self).text(),
            match spec_bracket(old(self).text(), old(self).position(), '}', TokenView::Object) {
                Ok((v, p)) => r matches Ok(t) && tok_view(t) == v && final(self).position() == p,
                Err(e) => r == Err::<Token, LexError>(e),
            },
    {
        if self.pos == self.len {
            Ok(Token::Object)
        } else if self.input.get_char(self.pos) == '}' {
            self.pos = self.pos + 1;
            Ok(Token::Object)
        } else {
            Err(LexError::UnsupportedContent)
        }
    }

    /// Read a nested array the same way.
    fn read_array(&mut self) -> (r: Result<Token, LexError>)
        requires
            old(self).wf(),
        ensures
            final(self).wf(),
            final(self).text() == old(self).text(),
            match spec_bracket(old(self).text(), old(self).position(), ']', TokenView::Array) {
                Ok((v, p)) => r matches Ok(t) && tok_view(t) == v && final(self).position() == p,
                Err(e) => r == Err::<Token, LexError>(e),
            },
    {
        if self.pos == self.len {
            Ok(Token::Array)
        } else if self.input.get_char(self.pos) == ']' {
            self.pos = self.pos + 1;
            Ok(Token::Array)
        } else {
            Err(LexError::UnsupportedContent)
        }
    }

    /// Read one `"key":value` pair; the cursor stands just past the
    /// key's opening quote.
    fn parse_kv(&mut self) -> (r: Result<Vec<Token>, LexError>)
        requires
            old(self).wf(),
        ensures
            final(self).wf(),
            final(self).text() == old(self).text(),
            match spec_kv(old(self).text(), old(self).position()) {
                Ok((views, p)) => r matches Ok(ts) && tok_views(ts@) == views
                    && final(self).position() == p,
                Err(e) => r == Err::<Vec<Token>, LexError>(e),
            },
    {
        let key = match self.read_string() {
            Ok(t) => t,
            Err(e) => {
                return Err(e);
            },
        };
        let p2 = self.skip_blank_exec(self.pos);
        if p2 == self.len {
            return Err(LexError::InvalidSyntax);
        }
        if self.input.get_char(p2) != ':' {
            return Err(LexError::InvalidSyntax);
        }
        let p3 = self.skip_blank_exec(p2 + 1);
        let mut tokens: Vec<Token> = Vec::new();
        let ghost key_view = tok_view(key);
        tokens.push(key);
        tokens.push(Token::Colon);
        proof {
            lemma_tok_views_index(tokens@);
            assert(tok_views(tokens@)[0] == tok_view(tokens@[0]));
            assert(tok_views(tokens@)[1] == tok_view(tokens@[1]));
            assert(tok_views(tokens@) =~= seq![key_view, TokenView::Colon]);
        }
        self.pos = p3;
        if p3 == self.len {
            return Ok(tokens);
        }
        let c = self.input.get_char(p3);
        let is_digit_c = {
            let u = c as u32;
            48 <= u && u <= 57
        };
        let val = if c == '"' {
            self.pos = p3 + 1;
            self.read_string()
        } else if c == 'n' || c == 't' || c == 'f' {
            self.pos = p3 + 1;
            self.read_keyword(c)
        } else if c == '{' {
            self.pos = p3 + 1;
            self.read_object()
        } else if c == '[' {
            self.pos = p3 + 1;
            self.read_array()
        } else if is_digit_c {
            self.read_number()
        } else {
            return Err(LexError::InvalidSyntax);
        };
        match val {
            Ok(t) => {
                let ghost t_view = tok_view(t);
                tokens.push(t);
                proof {
                    lemma_tok_views_index(tokens@);
                    assert(tok_views(tokens@)[0] == tok_view(tokens@[0]));
                    assert(tok_views(tokens@)[1] == tok_view(tokens@[1]));
                    assert(tok_views(tokens@)[2] == tok_view(tokens@[2]));
                    assert(tok_views(tokens@) =~= seq![key_view, TokenView::Colon, t_view]);
                }
                Ok(tokens)
            },
            Err(e) => Err(e),
        }
    }

    /// Tokenize the whole input: a non-empty object that opens and
    /// closes with braces, with comma-separated pairs between.
    pub fn lex(&mut self) -> (r: Result<Vec<Token>, LexError>)
        requires
            old(self).wf(),
        ensures
            final(self).wf(),
            final(self).text() == old(self).text(),
            match spec_lex(old(self).text(), old(self).position()) {
                Ok(views) => r matches Ok(ts) && tok_views(ts@) == views,
                Err(e) => r == Err::<Vec<Token>, LexError>(e),
            },
    {
        if self.pos == self.len {
            return Err(LexError::EmptyFile);
        }
        let ghost s = self.text();
        let ghost pos0 = self.position();
        let mut tokens: Vec<Token> = Vec::new();
        proof {
            assert(tok_views(tokens@) =~= Seq::<TokenView>::empty());
        }
        loop
            invariant
                self.wf(),
                self.text() == s,
                s == old(self).text(),
                pos0 == old(self).position(),
                pos0 < s.len(),
                spec_lex_from(s, pos0, Seq::empty()) == spec_lex_from(
                    s,
                    self.position(),
                    tok_views(tokens@),
                ),
            ensures
                self.wf(),
                self.text() == s,
                s == old(self).text(),
                pos0 == old(self).position(),
                pos0 < s.len(),
                spec_lex_from(s, pos0, Seq::empty()) == Ok::<Seq<TokenView>, LexError>(
                    tok_views(tokens@),
                ),
            decreases s.len() - self.position(),
        {
            let ghost cur = self.position();
            let ghost tv = tok_views(tokens@);
            let p = self.skip_blank_exec(self.pos);
            if p == self.len {
                self.pos = p;
                break;
            }
            let c = self.input.get_char(p);
            if c == '{' {
                self.pos = p + 1;
                proof {
                    lemma_tok_views_push(tokens@, Token::LBraces);
                }
                tokens.push(Token::LBraces);
                proof {
                    assert(tok_views(tokens@) =~= tv.push(TokenView::LBraces));
                }
            } else if c == '}' {
                let n = tokens.len();
                proof {
                    lemma_tok_views_index(tokens@);
                }
                if n == 0 {
                    return Err(LexError::OpeningCurly);
                }
                let last_coma = match &tokens[n - 1] {
                    Token::Coma => true,
                    _ => false,
                };
                if last_coma {
                    return Err(LexError::TrailingComa);
                }
                self.pos = p + 1;
                proof {
                    lemma_tok_views_push(tokens@, Token::RBraces);
                }
                tokens.push(Token::RBraces);
                proof {
                    assert(tok_views(tokens@) =~= tv.push(TokenView::RBraces));
                }
            } else if c == ',' {
                self.pos = p + 1;
                proof {
                    lemma_tok_views_push(tokens@, Token::Coma);
                }
                tokens.push(Token::Coma);
                proof {
                    assert(tok_views(tokens@) =~= tv.push(TokenView::Coma));
                }
            } else if c == '"' {
                self.pos = p + 1;
                match self.parse_kv() {
                    Ok(mut ts) => {
                        proof {
                            lemma_kv_advances(s, p + 1int);
                        }
                        let ghost old_toks = tokens@;
                        let ghost ts_seq = ts@;
                        let ghost added = tok_views(ts@);
                        tokens.append(&mut ts);
                        proof {
                            lemma_tok_views_index(old_toks);
                            lemma_tok_views_index(ts_seq);
                            lemma_tok_views_index(tokens@);
                            assert(tokens@ == old_toks + ts_seq);
                            assert forall|i: int| 0 <= i < tokens@.len() implies tok_views(
                                tokens@,
                            )[i] == (tv + added)[i] by {
                                if i < old_toks.len() {
                                    assert(tokens@[i] == old_toks[i]);
                                } else {
                                    assert(tokens@[i] == ts_seq[i - old_toks.len()]);
                                }
                            }
                            assert(tok_views(tokens@) =~= tv + added);
                        }
                    },
                    Err(e) => {
                        return Err(e);
                    },
                }
            } else {
                return Err(LexError::UnexpectedToken);
            }
        }
        let n = tokens.len();
        proof {
            lemma_tok_views_index(tokens@);
        }
        if n == 0 {
            return Err(LexError::OpeningCurly);
        }
        let first_ok = match &tokens[0] {
            Token::LBraces => true,
            _ => false,
        };
        if !first_ok {
            return Err(LexError::OpeningCurly);
        }
        let last_ok = match &tokens[n - 1] {
            Token::RBraces => true,
            _ => false,
        };
        if !last_ok {
            return Err(LexError::ClosingCurly);
        }
        Ok(tokens)
    }
}

} // verus!
