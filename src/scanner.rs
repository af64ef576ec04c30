//! The scanner: source text to tokens.
use vstd::prelude::*;

use crate::token::{decimal, decimal_text, Literal, Token, TokenType, TokenView, Value};

verus! {

pub open spec fn is_digit(c: char) -> bool {
    '0' <= c && c <= '9'
}

pub open spec fn is_alpha(c: char) -> bool {
    ('a' <= c && c <= 'z') || ('A' <= c && c <= 'Z') || c == '_'
}

pub open spec fn is_alphanumeric(c: char) -> bool {
    is_alpha(c) || is_digit(c)
}

/// The number of line breaks in `src[..i]`.
pub open spec fn newlines_before(src: Seq<char>, i: int) -> nat
    decreases i,
{
    if i <= 0 || i > src.len() {
        0
    } else {
        newlines_before(src, i - 1) + if src[i - 1] == '\n' {
            1nat
        } else {
            0nat
        }
    }
}

/// The fixed text of a punctuation or operator token kind.
pub open spec fn operator_text(t: TokenType) -> Option<Seq<char>> {
    match t {
        TokenType::LeftParen => Some(seq!['(']),
        TokenType::RightParen => Some(seq![')']),
        TokenType::LeftBrace => Some(seq!['{']),
        TokenType::RightBrace => Some(seq!['}']),
        TokenType::Comma => Some(seq![',']),
        TokenType::Dot => Some(seq!['.']),
        TokenType::Minus => Some(seq!['-']),
        TokenType::Plus => Some(seq!['+']),
        TokenType::SemiColon => Some(seq![';']),
        TokenType::Slash => Some(seq!['/']),
        TokenType::Star => Some(seq!['*']),
        TokenType::Bang => Some(seq!['!']),
        TokenType::BangEqual => Some(seq!['!', '=']),
        TokenType::Equal => Some(seq!['=']),
        TokenType::EqualEqual => Some(seq!['=', '=']),
        TokenType::Greater => Some(seq!['>']),
        TokenType::GreaterEqual => Some(seq!['>', '=']),
        TokenType::Less => Some(seq!['<']),
        TokenType::LessEqual => Some(seq!['<', '=']),
        _ => None,
    }
}

/// The kind of a word: its keyword kind if it is reserved, else `Identifier`.
pub open spec fn word_kind(s: Seq<char>) -> TokenType {
    if s == "and"@ {
        TokenType::And
    } else if s == "class"@ {
        TokenType::Class
    } else if s == "else"@ {
        TokenType::Else
    } else if s == "false"@ {
        TokenType::False
    } else if s == "for"@ {
        TokenType::For
    } else if s == "fun"@ {
        TokenType::Fun
    } else if s == "if"@ {
        TokenType::If
    } else if s == "nil"@ {
        TokenType::Nil
    } else if s == "or"@ {
        TokenType::Or
    } else if s == "print"@ {
        TokenType::Print
    } else if s == "return"@ {
        TokenType::Return
    } else if s == "super"@ {
        TokenType::Super
    } else if s == "this"@ {
        TokenType::This
    } else if s == "true"@ {
        TokenType::True
    } else if s == "var"@ {
        TokenType::Var
    } else if s == "while"@ {
        TokenType::While
    } else {
        TokenType::Identifier
    }
}

/// The payload that a word token carries.
pub open spec fn word_literal(t: TokenType) -> Option<Value> {
    match t {
        TokenType::True => Some(Value::Bool(true)),
        TokenType::False => Some(Value::Bool(false)),
        TokenType::Nil => Some(Value::Nil),
        _ => None,
    }
}

pub open spec fn all_digits(s: Seq<char>) -> bool {
    s.len() > 0 && forall|i: int| 0 <= i < s.len() ==> is_digit(#[trigger] s[i])
}

/// `[0-9]+(\.[0-9]+)?`
pub open spec fn number_text(s: Seq<char>) -> bool {
    all_digits(s) || exists|k: int|
        0 < k < s.len() && s[k] == '.' && all_digits(#[trigger] s.take(k)) && all_digits(s.skip(k + 1))
}

/// `[A-Za-z_][A-Za-z0-9_]*`
pub open spec fn word_text(s: Seq<char>) -> bool {
    s.len() > 0 && is_alpha(s[0]) && forall|i: int| 0 <= i < s.len() ==> is_alphanumeric(#[trigger] s[i])
}

/// A double-quoted string with no quote inside.
pub open spec fn string_text(s: Seq<char>) -> bool {
    s.len() >= 2 && s[0] == '"' && s.last() == '"' && forall|i: int|
        0 < i < s.len() - 1 ==> #[trigger] s[i] != '"'
}

/// What a token's kind says of its lexeme and payload; `num` gives the value
/// of a number's text.
pub open spec fn token_shape(t: TokenView, num: spec_fn(Seq<char>) -> Option<u64>) -> bool {
    match t.typ {
        TokenType::String => string_text(t.lexeme) && t.literal == Some(
            Value::Str(t.lexeme.subrange(1, t.lexeme.len() - 1)),
        ),
        TokenType::Number => number_text(t.lexeme) && num(t.lexeme) is Some && t.literal == Some(
            Value::Num(num(t.lexeme)->Some_0),
        ),
        TokenType::EOF => false,
        _ => match operator_text(t.typ) {
            Some(text) => t.lexeme == text && t.literal is None,
            None => word_text(t.lexeme) && t.typ == word_kind(t.lexeme) && t.literal == word_literal(
                t.typ,
            ),
        },
    }
}

/// The token's lexeme is the source text at `start`, and its line is one
/// plus the number of line breaks before `start`.
pub open spec fn token_at(src: Seq<char>, t: TokenView, start: int) -> bool {
    0 <= start && start + t.lexeme.len() <= src.len() && src.subrange(start, start + t.lexeme.len())
        == t.lexeme && t.line == 1 + newlines_before(src, start)
}

/// `parse` reads each number text as `num` says.
pub open spec fn parse_agrees<P: Fn(String) -> Option<u64>>(
    parse: P,
    num: spec_fn(Seq<char>) -> Option<u64>,
) -> bool {
    forall|s: String, r: Option<u64>| #[trigger] parse.ensures((s,), r) ==> r == num(s@)
}

pub open spec fn parse_total<P: Fn(String) -> Option<u64>>(parse: P) -> bool {
    forall|s: String| #[trigger] parse.requires((s,))
}

/// The source text of a token that starts at `start`.
pub open spec fn token_end(t: TokenView, start: int) -> int {
    start + t.lexeme.len()
}

/// Tokens `ts`, starting at `starts`, are each the source text they claim,
/// in source order without overlap.
pub open spec fn placed(src: Seq<char>, ts: Seq<TokenView>, starts: Seq<int>) -> bool {
    &&& ts.len() == starts.len()
    &&& forall|k: int| 0 <= k < ts.len() ==> token_at(src, #[trigger] ts[k], starts[k])
    &&& forall|k: int| 0 <= k < ts.len() - 1 ==> token_end(#[trigger] ts[k], starts[k]) <= starts[k + 1]
}

/// Each token has the shape its kind says.
pub open spec fn shaped(ts: Seq<TokenView>, num: spec_fn(Seq<char>) -> Option<u64>) -> bool {
    forall|k: int| 0 <= k < ts.len() ==> token_shape(#[trigger] ts[k], num)
}

/// `after` is `before` with one more token, which starts at `start` and
/// ends by `end`.
pub open spec fn grew_by_token<P: Fn(String) -> Option<u64>>(
    src: Seq<char>,
    start: int,
    end: int,
    before: Seq<Token>,
    after: Seq<Token>,
    parse: P,
) -> bool {
    &&& after.len() == before.len() + 1
    &&& after.drop_last() == before
    &&& token_at(src, after.last()@, start)
    &&& after.last()@.lexeme.len() > 0
    &&& after.last()@.typ != TokenType::EOF
    &&& token_end(after.last()@, start) <= end
    &&& forall|num: spec_fn(Seq<char>) -> Option<u64>| #[trigger]
        parse_agrees(parse, num) ==> token_shape(after.last()@, num)
}

/// A successful scan of `src`: the tokens, each the source text it claims
/// and of the shape its kind says, in source order, then `EOF` with an
/// empty lexeme on the last line.
pub open spec fn scan_succeeded<P: Fn(String) -> Option<u64>>(
    src: Seq<char>,
    ts: Seq<TokenView>,
    parse: P,
) -> bool {
    &&& ts.len() > 0
    &&& ts.last().typ == TokenType::EOF
    &&& ts.last().lexeme.len() == 0
    &&& ts.last().literal is None
    &&& ts.last().line == 1 + newlines_before(src, src.len() as int)
    &&& forall|k: int| 0 <= k < ts.len() - 1 ==> (#[trigger] ts[k]).typ != TokenType::EOF
    &&& forall|k: int| 0 <= k < ts.len() - 1 ==> (#[trigger] ts[k]).lexeme.len() > 0
    &&& exists|starts: Seq<int>| placed(src, ts.drop_last(), starts)
    &&& forall|num: spec_fn(Seq<char>) -> Option<u64>| #[trigger]
        parse_agrees(parse, num) ==> shaped(ts.drop_last(), num)
}

/// The end of the run of digits of `src` from `i` on.
pub open spec fn digits_end(src: Seq<char>, i: int) -> int
    decreases src.len() - i,
{
    if i < 0 || i >= src.len() || !is_digit(src[i]) {
        i
    } else {
        digits_end(src, i + 1)
    }
}

/// The end of the run of word characters of `src` from `i` on.
pub open spec fn word_end(src: Seq<char>, i: int) -> int
    decreases src.len() - i,
{
    if i < 0 || i >= src.len() || !is_alphanumeric(src[i]) {
        i
    } else {
        word_end(src, i + 1)
    }
}

/// The first position at or after `i` that holds `c`, else the length.
pub open spec fn find_char(src: Seq<char>, i: int, c: char) -> int
    decreases src.len() - i,
{
    if i < 0 || i >= src.len() {
        src.len() as int
    } else if src[i] == c {
        i
    } else {
        find_char(src, i + 1, c)
    }
}

/// The position just after the first `*/` at or after `i`.
pub open spec fn comment_close(src: Seq<char>, i: int) -> Option<int>
    decreases src.len() - i,
{
    if i < 0 || i + 1 >= src.len() {
        None
    } else if src[i] == '*' && src[i + 1] == '/' {
        Some(i + 2)
    } else {
        comment_close(src, i + 1)
    }
}

/// The end of the number that starts at `i`.
pub open spec fn number_end(src: Seq<char>, i: int) -> int {
    let d = digits_end(src, i);
    if d + 1 < src.len() && src[d] == '.' && is_digit(src[d + 1]) {
        digits_end(src, d + 1)
    } else {
        d
    }
}

/// The kind of a token that is always one character long.
pub open spec fn single_kind(c: char) -> Option<TokenType> {
    if c == '(' {
        Some(TokenType::LeftParen)
    } else if c == ')' {
        Some(TokenType::RightParen)
    } else if c == '{' {
        Some(TokenType::LeftBrace)
    } else if c == '}' {
        Some(TokenType::RightBrace)
    } else if c == ',' {
        Some(TokenType::Comma)
    } else if c == '.' {
        Some(TokenType::Dot)
    } else if c == '-' {
        Some(TokenType::Minus)
    } else if c == '+' {
        Some(TokenType::Plus)
    } else if c == ';' {
        Some(TokenType::SemiColon)
    } else if c == '*' {
        Some(TokenType::Star)
    } else {
        None
    }
}

/// The kinds of `c=` and of `c` alone, for the characters that may take
/// a following `=`.
pub open spec fn equal_kinds(c: char) -> Option<(TokenType, TokenType)> {
    if c == '!' {
        Some((TokenType::BangEqual, TokenType::Bang))
    } else if c == '=' {
        Some((TokenType::EqualEqual, TokenType::Equal))
    } else if c == '<' {
        Some((TokenType::LessEqual, TokenType::Less))
    } else if c == '>' {
        Some((TokenType::GreaterEqual, TokenType::Greater))
    } else {
        None
    }
}

/// What the scanner does at one position.
pub enum Lexed {
    /// Whitespace or a comment, up to the given position.
    Skip(int),
    /// A token of the kind, ending at the position, with the payload.
    Emit(TokenType, int, Option<Value>),
    /// An error: its description and line.
    Fail(Seq<char>, nat),
}

/// The scanner's action at `pos` of `src`; `num` reads number texts.
pub open spec fn step(src: Seq<char>, pos: int, num: spec_fn(Seq<char>) -> Option<u64>) -> Lexed {
    let c = src[pos];
    if single_kind(c) is Some {
        Lexed::Emit(single_kind(c)->Some_0, pos + 1, None)
    } else if equal_kinds(c) is Some {
        let (pair, single) = equal_kinds(c)->Some_0;
        if pos + 1 < src.len() && src[pos + 1] == '=' {
            Lexed::Emit(pair, pos + 2, None)
        } else {
            Lexed::Emit(single, pos + 1, None)
        }
    } else if c == '/' {
        if pos + 1 < src.len() && src[pos + 1] == '/' {
            Lexed::Skip(find_char(src, pos + 2, '\n'))
        } else if pos + 1 < src.len() && src[pos + 1] == '*' {
            match comment_close(src, pos + 2) {
                Some(e) => Lexed::Skip(e),
                None => Lexed::Fail("Unterminated comment."@, 1 + newlines_before(src, src.len() as int)),
            }
        } else {
            Lexed::Emit(TokenType::Slash, pos + 1, None)
        }
    } else if c == ' ' || c == '\r' || c == '\t' || c == '\n' {
        Lexed::Skip(pos + 1)
    } else if c == '"' {
        let q = find_char(src, pos + 1, '"');
        if q >= src.len() {
            Lexed::Fail("Unterminated string."@, 1 + newlines_before(src, src.len() as int))
        } else {
            Lexed::Emit(TokenType::String, q + 1, Some(Value::Str(src.subrange(pos + 1, q))))
        }
    } else if is_digit(c) {
        let e = number_end(src, pos);
        match num(src.subrange(pos, e)) {
            Some(x) => Lexed::Emit(TokenType::Number, e, Some(Value::Num(x))),
            None => Lexed::Fail("Invalid number."@, 1 + newlines_before(src, e)),
        }
    } else if is_alpha(c) {
        let e = word_end(src, pos);
        let k = word_kind(src.subrange(pos, e));
        Lexed::Emit(k, e, word_literal(k))
    } else {
        Lexed::Fail("Unexpected character."@, 1 + newlines_before(src, pos + 1))
    }
}

/// The scan of `src` from `pos` on, after the tokens `acc`: the tokens and
/// then `EOF`, or the first error's description and line.
pub open spec fn lex(
    src: Seq<char>,
    pos: int,
    acc: Seq<TokenView>,
    num: spec_fn(Seq<char>) -> Option<u64>,
) -> Result<Seq<TokenView>, (Seq<char>, nat)>
    decreases src.len() - pos,
{
    if pos < 0 || pos >= src.len() {
        Ok(
            acc.push(
                TokenView {
                    typ: TokenType::EOF,
                    lexeme: Seq::empty(),
                    literal: None,
                    line: 1 + newlines_before(src, src.len() as int),
                },
            ),
        )
    } else {
        match step(src, pos, num) {
            Lexed::Skip(n) => if pos < n <= src.len() {
                lex(src, n, acc, num)
            } else {
                Ok(acc)
            },
            Lexed::Emit(k, n, lit) => if pos < n <= src.len() {
                lex(
                    src,
                    n,
                    acc.push(
                        TokenView {
                            typ: k,
                            lexeme: src.subrange(pos, n),
                            literal: lit,
                            line: 1 + newlines_before(src, pos),
                        },
                    ),
                    num,
                )
            } else {
                Ok(acc)
            },
            Lexed::Fail(msg, line) => Err((msg, line)),
        }
    }
}

/// The scan of the whole of `src`.
pub open spec fn scan_spec(src: Seq<char>, num: spec_fn(Seq<char>) -> Option<u64>) -> Result<
    Seq<TokenView>,
    (Seq<char>, nat),
> {
    lex(src, 0, Seq::empty(), num)
}

pub open spec fn views(ts: Seq<Token>) -> Seq<TokenView> {
    ts.map_values(|t: Token| t@)
}

/// The display text of a scanning failure.
pub open spec fn scanner_error_text(line: nat, description: Seq<char>) -> Seq<char> {
    "[line "@ + decimal(line) + "] Error: "@ + description
}

/// A scanning failure: its line and what went wrong.
#[derive(Debug)]
pub struct ScannerError {
    line: usize,
    description: String,
}

impl ScannerError {
    pub fn new(line: usize, description: String) -> (r: Self)
        ensures
            r.line() == line,
            r.description() == description@,
    {
        ScannerError { line, description }
    }

    /// `[line <L>] Error: <description>`
    pub fn message(&self) -> (r: String)
        ensures
            r@ == scanner_error_text(self.line() as nat, self.description()),
    {
        "[line ".to_string().concat(decimal_text(self.line).as_str()).concat("] Error: ").concat(
            self.description.as_str(),
        )
    }

    pub closed spec fn line(&self) -> usize {
        self.line
    }

    pub closed spec fn description(&self) -> Seq<char> {
        self.description@
    }
}

pub proof fn lemma_newlines_bound(src: Seq<char>, i: int)
    ensures
        newlines_before(src, i) <= if i < 0 { 0 } else { i },
    decreases i,
{
    if i > 0 && i <= src.len() {
        lemma_newlines_bound(src, i - 1);
    }
}

/// Relies on `Iterator::collect` into `Vec<char>`: the characters of `s`, in order.
#[verifier::external_body]
fn chars_of(s: &str) -> (r: Vec<char>)
    ensures
        r@ == s@,
{
    s.chars().collect()
}

/// Relies on `Iterator::collect` into `String`: the characters `chars[from..to]`.
#[verifier::external_body]
fn text_of(chars: &Vec<char>, from: usize, to: usize) -> (r: String)
    requires
        from <= to <= chars.len(),
    ensures
        r@ == chars@.subrange(from as int, to as int),
{
    chars[from..to].iter().collect()
}

fn word_kind_of(text: &String) -> (r: TokenType)
    ensures
        r == word_kind(text@),
{
    if *text == "and".to_string() {
        TokenType::And
    } else if *text == "class".to_string() {
        TokenType::Class
    } else if *text == "else".to_string() {
        TokenType::Else
    } else if *text == "false".to_string() {
        TokenType::False
    } else if *text == "for".to_string() {
        TokenType::For
    } else if *text == "fun".to_string() {
        TokenType::Fun
    } else if *text == "if".to_string() {
        TokenType::If
    } else if *text == "nil".to_string() {
        TokenType::Nil
    } else if *text == "or".to_string() {
        TokenType::Or
    } else if *text == "print".to_string() {
        TokenType::Print
    } else if *text == "return".to_string() {
        TokenType::Return
    } else if *text == "super".to_string() {
        TokenType::Super
    } else if *text == "this".to_string() {
        TokenType::This
    } else if *text == "true".to_string() {
        TokenType::True
    } else if *text == "var".to_string() {
        TokenType::Var
    } else if *text == "while".to_string() {
        TokenType::While
    } else {
        TokenType::Identifier
    }
}

/// One call of `Scanner::scan_token` did what `step` says at the token's
/// start.
spec fn stepped(
    old: Scanner,
    new: Scanner,
    r: Result<(), ScannerError>,
    num: spec_fn(Seq<char>) -> Option<u64>,
) -> bool {
    let src = old.source@;
    let st = old.start as int;
    match step(src, st, num) {
        Lexed::Skip(n) => r is Ok && n == new.current && new.tokens@ == old.tokens@,
        Lexed::Emit(k, n, lit) => r is Ok && n == new.current && new.tokens@.len() == old.tokens@.len()
            + 1 && new.tokens@.drop_last() == old.tokens@ && new.tokens@.last()@ == (TokenView {
            typ: k,
            lexeme: src.subrange(st, n),
            literal: lit,
            line: old.start_line as nat,
        }),
        Lexed::Fail(msg, line) => r is Err && r->Err_0.description() == msg && r->Err_0.line() as nat
            == line,
    }
}

/// Turns source text into tokens, one token at a time, with a cursor over
/// the source's characters.
pub struct Scanner {
    source: Vec<char>,
    tokens: Vec<Token>,
    start: usize,
    current: usize,
    line: usize,
    start_line: usize,
}

impl Scanner {
    pub closed spec fn source(&self) -> Seq<char> {
        self.source@
    }

    /// Nothing has been scanned yet.
    pub closed spec fn is_fresh(&self) -> bool {
        &&& self.inv()
        &&& self.current == 0
        &&& self.tokens@.len() == 0
    }

    closed spec fn inv(&self) -> bool {
        &&& self.source.len() < usize::MAX
        &&& self.start <= self.current <= self.source.len()
        &&& self.line == 1 + newlines_before(self.source@, self.current as int)
        &&& self.start_line == 1 + newlines_before(self.source@, self.start as int)
    }

    pub fn new(source: &str) -> (r: Self)
        requires
            source@.len() < usize::MAX,
        ensures
            r.is_fresh(),
            r.source() == source@,
    {
        let chars = chars_of(source);
        Scanner { source: chars, tokens: Vec::new(), start: 0, current: 0, line: 1, start_line: 1 }
    }

    fn is_at_end(&self) -> (r: bool)
        ensures
            r == (self.current >= self.source.len()),
    {
        self.current >= self.source.len()
    }

    /// The character under the cursor is `c`.
    fn check(&self, c: char) -> (r: bool)
        ensures
            r == (self.current < self.source.len() && self.source@[self.current as int] == c),
    {
        self.current < self.source.len() && self.source[self.current] == c
    }

    fn check_digit(&self, ahead: usize) -> (r: bool)
        requires
            ahead <= 1,
            self.current <= self.source.len(),
            self.source.len() < usize::MAX,
        ensures
            r == (self.current + ahead < self.source.len() && is_digit(
                self.source@[self.current + ahead],
            )),
    {
        self.current + ahead < self.source.len() && '0' <= self.source[self.current + ahead]
            && self.source[self.current + ahead] <= '9'
    }

    fn check_alphanumeric(&self) -> (r: bool)
        ensures
            r == (self.current < self.source.len() && is_alphanumeric(
                self.source@[self.current as int],
            )),
    {
        if self.current < self.source.len() {
            let c = self.source[self.current];
            ('a' <= c && c <= 'z') || ('A' <= c && c <= 'Z') || c == '_' || ('0' <= c && c <= '9')
        } else {
            false
        }
    }

    fn advance(&mut self) -> (c: char)
        requires
            old(self).inv(),
            old(self).current < old(self).source.len(),
        ensures
            final(self).inv(),
            c == old(self).source@[old(self).current as int],
            final(self).current == old(self).current + 1,
            final(self).source == old(self).source,
            final(self).tokens == old(self).tokens,
            final(self).start == old(self).start,
            final(self).start_line == old(self).start_line,
    {
        proof {
            lemma_newlines_bound(self.source@, self.current as int);
        }
        let c = self.source[self.current];
        self.current = self.current + 1;
        if c == '\n' {
            self.line = self.line + 1;
        }
        c
    }

    /// Consumes the character under the cursor if it is `expected`.
    fn matches(&mut self, expected: char) -> (r: bool)
        requires
            old(self).inv(),
        ensures
            final(self).inv(),
            r == (old(self).current < old(self).source.len() && old(self).source@[old(self).current as int]
                == expected),
            final(self).current == old(self).current + if r { 1int } else { 0 },
            final(self).source == old(self).source,
            final(self).tokens == old(self).tokens,
            final(self).start == old(self).start,
            final(self).start_line == old(self).start_line,
    {
        if self.check(expected) {
            self.advance();
            true
        } else {
            false
        }
    }

    /// Appends a token whose lexeme is the text from the token's start to
    /// the cursor.
    fn add_token(&mut self, typ: TokenType, literal: Option<Literal>)
        requires
            old(self).inv(),
        ensures
            final(self).inv(),
            final(self).current == old(self).current,
            final(self).source == old(self).source,
            final(self).start == old(self).start,
            final(self).start_line == old(self).start_line,
            final(self).tokens@.len() == old(self).tokens@.len() + 1,
            final(self).tokens@.drop_last() == old(self).tokens@,
            final(self).tokens@.last()@ == (TokenView {
                typ,
                lexeme: old(self).source@.subrange(old(self).start as int, old(self).current as int),
                literal: crate::token::opt_value(literal),
                line: old(self).start_line as nat,
            }),
    {
        let text = text_of(&self.source, self.start, self.current);
        let t = Token::new(typ, text, literal, self.start_line);
        self.tokens.push(t);
        assert(self.tokens@.drop_last() =~= old(self).tokens@);
    }

    /// Adds an operator token whose text runs from the token's start to the
    /// cursor.
    fn add_operator<P: Fn(String) -> Option<u64>>(&mut self, typ: TokenType, parse: &P)
        requires
            old(self).inv(),
            old(self).start < old(self).current,
            operator_text(typ) == Some(
                old(self).source@.subrange(old(self).start as int, old(self).current as int),
            ),
        ensures
            final(self).inv(),
            final(self).current == old(self).current,
            final(self).source == old(self).source,
            final(self).start == old(self).start,
            final(self).start_line == old(self).start_line,
            grew_by_token(
                old(self).source@,
                old(self).start as int,
                final(self).current as int,
                old(self).tokens@,
                final(self).tokens@,
                *parse,
            ),
            final(self).tokens@.drop_last() == old(self).tokens@,
            final(self).tokens@.last()@ == (TokenView {
                typ,
                lexeme: old(self).source@.subrange(old(self).start as int, old(self).current as int),
                literal: None,
                line: old(self).start_line as nat,
            }),
    {
        self.add_token(typ, None);
    }

    /// `c` was just consumed; adds `pair` if `=` follows, else `single`.
    fn add_with_equal<P: Fn(String) -> Option<u64>>(
        &mut self,
        c: char,
        pair: TokenType,
        single: TokenType,
        parse: &P,
    )
        requires
            old(self).inv(),
            old(self).current == old(self).start + 1,
            old(self).source@[old(self).start as int] == c,
            operator_text(pair) == Some(seq![c, '=']),
            operator_text(single) == Some(seq![c]),
        ensures
            final(self).inv(),
            final(self).current > old(self).current - 1,
            final(self).source == old(self).source,
            final(self).start == old(self).start,
            final(self).start_line == old(self).start_line,
            grew_by_token(
                old(self).source@,
                old(self).start as int,
                final(self).current as int,
                old(self).tokens@,
                final(self).tokens@,
                *parse,
            ),
            ({
                let eq = old(self).current < old(self).source.len() && old(self).source@[old(self).current as int] == '=';
                &&& final(self).current == old(self).current + if eq { 1int } else { 0 }
                &&& final(self).tokens@.drop_last() == old(self).tokens@
                &&& final(self).tokens@.last()@ == (TokenView {
                    typ: if eq { pair } else { single },
                    lexeme: old(self).source@.subrange(old(self).start as int, final(self).current as int),
                    literal: None,
                    line: old(self).start_line as nat,
                })
            }),
    {
        let ghost st = self.start as int;
        if self.matches('=') {
            assert(self.source@.subrange(st, st + 2) =~= seq![c, '=']);
            self.add_operator(pair, parse);
        } else {
            assert(self.source@.subrange(st, st + 1) =~= seq![c]);
            self.add_operator(single, parse);
        }
    }

    /// Consumes a string's characters up to and including its closing quote.
    fn string<P: Fn(String) -> Option<u64>>(&mut self, parse: &P) -> (r: Result<(), ScannerError>)
        requires
            old(self).inv(),
            old(self).current == old(self).start + 1,
            old(self).source@[old(self).start as int] == '"',
        ensures
            final(self).inv(),
            final(self).current > old(self).start,
            final(self).source == old(self).source,
            final(self).start == old(self).start,
            final(self).start_line == old(self).start_line,
            r is Ok ==> grew_by_token(
                old(self).source@,
                old(self).start as int,
                final(self).current as int,
                old(self).tokens@,
                final(self).tokens@,
                *parse,
            ),
            r is Ok ==> ({
                let src = old(self).source@;
                let st = old(self).start as int;
                &&& final(self).current == find_char(src, st + 1, '"') + 1
                &&& final(self).tokens@.drop_last() == old(self).tokens@
                &&& final(self).tokens@.last()@ == (TokenView {
                    typ: TokenType::String,
                    lexeme: src.subrange(st, final(self).current as int),
                    literal: Some(Value::Str(src.subrange(st + 1, final(self).current - 1))),
                    line: old(self).start_line as nat,
                })
            }),
            r is Err ==> find_char(old(self).source@, old(self).start + 1, '"') >= old(self).source.len()
                && r->Err_0.description() == "Unterminated string."@ && r->Err_0.line() == 1
                + newlines_before(old(self).source@, old(self).source.len() as int),
    {
        let ghost st = self.start as int;
        while !self.check('"') && !self.is_at_end()
            invariant
                self.inv(),
                self.source == old(self).source,
                self.tokens == old(self).tokens,
                self.start == old(self).start,
                self.start_line == old(self).start_line,
                self.current > self.start,
                forall|k: int| st < k < self.current ==> self.source@[k] != '"',
                find_char(self.source@, self.current as int, '"') == find_char(self.source@, st + 1, '"'),
            decreases self.source.len() - self.current,
        {
            self.advance();
        }
        if self.is_at_end() {
            return Err(ScannerError::new(self.line, "Unterminated string.".to_string()));
        }
        self.advance();
        let value = text_of(&self.source, self.start + 1, self.current - 1);
        let ghost lex = self.source@.subrange(st, self.current as int);
        assert(lex.subrange(1, lex.len() - 1) =~= value@);
        assert(string_text(lex)) by {
            assert forall|i: int| 0 < i < lex.len() - 1 implies #[trigger] lex[i] != '"' by {
                assert(lex[i] == self.source@[st + i]);
            }
        }
        self.add_token(TokenType::String, Some(Literal::String(value)));
        Ok(())
    }

    /// Consumes the rest of a number: digits, then `.` and digits if a
    /// digit follows the `.`.
    fn number<P: Fn(String) -> Option<u64>>(&mut self, parse: &P) -> (r: Result<(), ScannerError>)
        requires
            old(self).inv(),
            old(self).current == old(self).start + 1,
            is_digit(old(self).source@[old(self).start as int]),
            parse_total(*parse),
        ensures
            final(self).inv(),
            final(self).current > old(self).start,
            final(self).source == old(self).source,
            final(self).start == old(self).start,
            final(self).start_line == old(self).start_line,
            r is Ok ==> grew_by_token(
                old(self).source@,
                old(self).start as int,
                final(self).current as int,
                old(self).tokens@,
                final(self).tokens@,
                *parse,
            ),
            final(self).current == number_end(old(self).source@, old(self).start as int),
            r is Ok ==> final(self).tokens@.drop_last() == old(self).tokens@,
            forall|num: spec_fn(Seq<char>) -> Option<u64>| #[trigger] parse_agrees(*parse, num) ==> {
                let lex = old(self).source@.subrange(old(self).start as int, final(self).current as int);
                &&& r is Ok ==> num(lex) is Some && final(self).tokens@.last()@ == (TokenView {
                    typ: TokenType::Number,
                    lexeme: lex,
                    literal: Some(Value::Num(num(lex)->Some_0)),
                    line: old(self).start_line as nat,
                })
                &&& r is Err ==> num(lex) is None
            },
            r is Err ==> r->Err_0.description() == "Invalid number."@ && r->Err_0.line() == 1
                + newlines_before(old(self).source@, final(self).current as int),
    {
        let ghost st = self.start as int;
        while self.check_digit(0)
            invariant
                self.inv(),
                self.source == old(self).source,
                self.tokens == old(self).tokens,
                self.start == old(self).start,
                self.start_line == old(self).start_line,
                self.current > self.start,
                forall|k: int| st <= k < self.current ==> is_digit(#[trigger] self.source@[k]),
                digits_end(self.source@, self.current as int) == digits_end(self.source@, st),
            decreases self.source.len() - self.current,
        {
            self.advance();
        }
        let ghost dot = self.current as int;
        if self.check('.') && self.check_digit(1) {
            self.advance();
            self.advance();
            while self.check_digit(0)
                invariant
                    self.inv(),
                    self.source == old(self).source,
                    self.tokens == old(self).tokens,
                    self.start == old(self).start,
                    self.start_line == old(self).start_line,
                    st < dot,
                    dot + 1 < self.current,
                    self.source@[dot] == '.',
                    forall|k: int| st <= k < dot ==> is_digit(#[trigger] self.source@[k]),
                    forall|k: int| dot < k < self.current ==> is_digit(#[trigger] self.source@[k]),
                    digits_end(self.source@, self.current as int) == digits_end(self.source@, dot + 1),
                    number_end(self.source@, st) == digits_end(self.source@, dot + 1),
                decreases self.source.len() - self.current,
            {
                self.advance();
            }
            let ghost lex = self.source@.subrange(st, self.current as int);
            assert(all_digits(lex.take(dot - st))) by {
                assert forall|i: int| 0 <= i < lex.take(dot - st).len() implies is_digit(
                    #[trigger] lex.take(dot - st)[i],
                ) by {
                    assert(lex.take(dot - st)[i] == self.source@[st + i]);
                }
            }
            assert(all_digits(lex.skip(dot - st + 1))) by {
                assert forall|i: int| 0 <= i < lex.skip(dot - st + 1).len() implies is_digit(
                    #[trigger] lex.skip(dot - st + 1)[i],
                ) by {
                    assert(lex.skip(dot - st + 1)[i] == self.source@[dot + 1 + i]);
                }
            }
            assert(lex[dot - st] == '.');
            assert(number_text(lex));
        } else {
            let ghost lex = self.source@.subrange(st, self.current as int);
            assert(all_digits(lex)) by {
                assert forall|i: int| 0 <= i < lex.len() implies is_digit(#[trigger] lex[i]) by {
                    assert(lex[i] == self.source@[st + i]);
                }
            }
        }
        let text = text_of(&self.source, self.start, self.current);
        match parse(text) {
            Some(value) => {
                self.add_token(TokenType::Number, Some(Literal::Number(value)));
                Ok(())
            },
            None => Err(ScannerError::new(self.line, "Invalid number.".to_string())),
        }
    }

    /// Consumes the rest of a word and adds it as a keyword or identifier.
    fn identifier<P: Fn(String) -> Option<u64>>(&mut self, parse: &P)
        requires
            old(self).inv(),
            old(self).current == old(self).start + 1,
            is_alpha(old(self).source@[old(self).start as int]),
        ensures
            final(self).inv(),
            final(self).current > old(self).start,
            final(self).source == old(self).source,
            final(self).start == old(self).start,
            final(self).start_line == old(self).start_line,
            grew_by_token(
                old(self).source@,
                old(self).start as int,
                final(self).current as int,
                old(self).tokens@,
                final(self).tokens@,
                *parse,
            ),
            final(self).current == word_end(old(self).source@, old(self).start as int),
            final(self).tokens@.drop_last() == old(self).tokens@,
            ({
                let lex = old(self).source@.subrange(old(self).start as int, final(self).current as int);
                final(self).tokens@.last()@ == (TokenView {
                    typ: word_kind(lex),
                    lexeme: lex,
                    literal: word_literal(word_kind(lex)),
                    line: old(self).start_line as nat,
                })
            }),
    {
        let ghost st = self.start as int;
        while self.check_alphanumeric()
            invariant
                self.inv(),
                self.source == old(self).source,
                self.tokens == old(self).tokens,
                self.start == old(self).start,
                self.start_line == old(self).start_line,
                self.current > self.start,
                forall|k: int| st <= k < self.current ==> is_alphanumeric(#[trigger] self.source@[k]),
                word_end(self.source@, self.current as int) == word_end(self.source@, st),
            decreases self.source.len() - self.current,
        {
            self.advance();
        }
        let text = text_of(&self.source, self.start, self.current);
        let ghost lex = text@;
        assert(word_text(lex)) by {
            assert forall|i: int| 0 <= i < lex.len() implies is_alphanumeric(#[trigger] lex[i]) by {
                assert(lex[i] == self.source@[st + i]);
            }
            assert(lex[0] == self.source@[st]);
        }
        let typ = word_kind_of(&text);
        let literal = match typ {
            TokenType::True => Some(Literal::Boolean(true)),
            TokenType::False => Some(Literal::Boolean(false)),
            TokenType::Nil => Some(Literal::Nil),
            _ => None,
        };
        self.add_token(typ, literal);
    }

    /// Consumes a block comment up to and including its closing `*/`.
    fn multiline_comment(&mut self) -> (r: Result<(), ScannerError>)
        requires
            old(self).inv(),
        ensures
            final(self).inv(),
            final(self).current >= old(self).current,
            final(self).source == old(self).source,
            final(self).tokens == old(self).tokens,
            final(self).start == old(self).start,
            final(self).start_line == old(self).start_line,
            r is Ok ==> comment_close(old(self).source@, old(self).current as int) == Some(final(self).current as int),
            r is Err ==> comment_close(old(self).source@, old(self).current as int) is None
                && r->Err_0.description() == "Unterminated comment."@ && r->Err_0.line() == 1
                + newlines_before(old(self).source@, old(self).source.len() as int),
    {
        loop
            invariant_except_break
                comment_close(self.source@, self.current as int) == comment_close(self.source@, old(self).current as int),
            invariant
                self.inv(),
                self.source == old(self).source,
                self.tokens == old(self).tokens,
                self.start == old(self).start,
                self.start_line == old(self).start_line,
                self.current >= old(self).current,
            ensures
                comment_close(self.source@, old(self).current as int) == Some(self.current as int),
            decreases self.source.len() - self.current,
        {
            let ghost c0 = self.current;
            while !self.check('*') && !self.is_at_end()
                invariant
                    self.inv(),
                    self.current >= c0,
                    comment_close(self.source@, self.current as int) == comment_close(self.source@, old(self).current as int),
                    self.source == old(self).source,
                    self.tokens == old(self).tokens,
                    self.start == old(self).start,
                    self.start_line == old(self).start_line,
                    self.current >= old(self).current,
                decreases self.source.len() - self.current,
            {
                self.advance();
            }
            if self.is_at_end() {
                return Err(ScannerError::new(self.line, "Unterminated comment.".to_string()));
            }
            self.advance();
            if self.matches('/') {
                break ;
            }
        }
        Ok(())
    }

    /// Consumes one token's characters (or whitespace, or a comment) and
    /// adds the token, if any.
    fn scan_token<P: Fn(String) -> Option<u64>>(&mut self, parse: &P) -> (r: Result<(), ScannerError>)
        requires
            old(self).inv(),
            old(self).start == old(self).current,
            old(self).current < old(self).source.len(),
            parse_total(*parse),
        ensures
            final(self).inv(),
            final(self).current > old(self).current,
            final(self).source == old(self).source,
            final(self).start == old(self).start,
            final(self).start_line == old(self).start_line,
            r is Ok ==> (final(self).tokens@ == old(self).tokens@ || grew_by_token(
                old(self).source@,
                old(self).start as int,
                final(self).current as int,
                old(self).tokens@,
                final(self).tokens@,
                *parse,
            )),
            forall|num: spec_fn(Seq<char>) -> Option<u64>| #[trigger]
                parse_agrees(*parse, num) ==> stepped(*old(self), *final(self), r, num),
    {
        let ghost st = self.start as int;
        let c = self.advance();
        assert(self.source@.subrange(st, st + 1) =~= seq![c]);
        match c {
            '(' => self.add_operator(TokenType::LeftParen, parse),
            ')' => self.add_operator(TokenType::RightParen, parse),
            '{' => self.add_operator(TokenType::LeftBrace, parse),
            '}' => self.add_operator(TokenType::RightBrace, parse),
            ',' => self.add_operator(TokenType::Comma, parse),
            '.' => self.add_operator(TokenType::Dot, parse),
            '-' => self.add_operator(TokenType::Minus, parse),
            '+' => self.add_operator(TokenType::Plus, parse),
            ';' => self.add_operator(TokenType::SemiColon, parse),
            '*' => self.add_operator(TokenType::Star, parse),
            '!' => self.add_with_equal(c, TokenType::BangEqual, TokenType::Bang, parse),
            '=' => self.add_with_equal(c, TokenType::EqualEqual, TokenType::Equal, parse),
            '<' => self.add_with_equal(c, TokenType::LessEqual, TokenType::Less, parse),
            '>' => self.add_with_equal(c, TokenType::GreaterEqual, TokenType::Greater, parse),
            '/' => {
                if self.matches('/') {
                    while !self.check('\n') && !self.is_at_end()
                        invariant
                            self.inv(),
                            self.source == old(self).source,
                            self.tokens == old(self).tokens,
                            self.start == old(self).start,
                            self.start_line == old(self).start_line,
                            self.current > old(self).current,
                            self.current >= st + 2,
                            find_char(self.source@, self.current as int, '\n') == find_char(self.source@, st + 2, '\n'),
                        decreases self.source.len() - self.current,
                    {
                        self.advance();
                    }
                } else if self.matches('*') {
                    return self.multiline_comment();
                } else {
                    self.add_operator(TokenType::Slash, parse);
                }
            },
            ' ' | '\r' | '\t' | '\n' => {},
            '"' => {
                return self.string(parse);
            },
            _ => {
                if '0' <= c && c <= '9' {
                    return self.number(parse);
                } else if ('a' <= c && c <= 'z') || ('A' <= c && c <= 'Z') || c == '_' {
                    self.identifier(parse);
                } else {
                    return Err(ScannerError::new(self.line, "Unexpected character.".to_string()));
                }
            },
        }
        Ok(())
    }

    /// Scans the whole source: its tokens, then `EOF`; or the first error.
    pub fn scan_tokens<P: Fn(String) -> Option<u64>>(&mut self, parse: &P) -> (r: Result<
        Vec<Token>,
        ScannerError,
    >)
        requires
            old(self).is_fresh(),
            parse_total(*parse),
        ensures
            r is Ok ==> scan_succeeded(old(self).source(), views(r->Ok_0@), *parse),
            forall|num: spec_fn(Seq<char>) -> Option<u64>| #[trigger]
                parse_agrees(*parse, num) ==> match r {
                    Ok(ts) => scan_spec(old(self).source(), num) == Ok::<
                        Seq<TokenView>,
                        (Seq<char>, nat),
                    >(views(ts@)),
                    Err(e) => scan_spec(old(self).source(), num) == Err::<
                        Seq<TokenView>,
                        (Seq<char>, nat),
                    >((e.description(), e.line() as nat)),
                },
    {
        let ghost src = self.source@;
        let ghost mut starts: Seq<int> = Seq::empty();
        assert(views(self.tokens@) =~= Seq::<TokenView>::empty());
        while !self.is_at_end()
            invariant
                self.inv(),
                self.source@ == src,
                src == old(self).source(),
                parse_total(*parse),
                placed(src, views(self.tokens@), starts),
                forall|k: int|
                    0 <= k < self.tokens@.len() ==> (#[trigger] self.tokens@[k])@.typ != TokenType::EOF
                        && self.tokens@[k]@.lexeme.len() > 0,
                forall|num: spec_fn(Seq<char>) -> Option<u64>| #[trigger]
                    parse_agrees(*parse, num) ==> shaped(views(self.tokens@), num),
                self.tokens@.len() > 0 ==> token_end(self.tokens@.last()@, starts.last()) <= self.current,
                forall|num: spec_fn(Seq<char>) -> Option<u64>| #[trigger]
                    parse_agrees(*parse, num) ==> scan_spec(src, num) == lex(
                        src,
                        self.current as int,
                        views(self.tokens@),
                        num,
                    ),
            decreases self.source.len() - self.current,
        {
            self.start = self.current;
            self.start_line = self.line;
            let ghost before = self.tokens@;
            let ghost st = self.start as int;
            let stepped_ok = self.scan_token(parse);
            proof {
                assert forall|num: spec_fn(Seq<char>) -> Option<u64>| #[trigger]
                    parse_agrees(*parse, num) implies match stepped_ok {
                        Ok(_) => scan_spec(src, num) == lex(src, self.current as int, views(self.tokens@), num),
                        Err(e) => scan_spec(src, num) == Err::<Seq<TokenView>, (Seq<char>, nat)>(
                            (e.description(), e.line() as nat),
                        ),
                    } by {
                    if let Lexed::Emit(k, n, lit) = step(src, st, num) {
                        assert(views(self.tokens@) =~= views(before).push(self.tokens@.last()@));
                    }
                }
            }
            match stepped_ok {
                Err(e) => {
                    return Err(e);
                },
                Ok(()) => {},
            }
            proof {
                if self.tokens@ != before {
                    let vb = views(before);
                    let va = views(self.tokens@);
                    assert(self.tokens@ == before.push(self.tokens@.last()));
                    assert(va =~= vb.push(self.tokens@.last()@));
                    let new_starts = starts.push(st);
                    assert forall|k: int| 0 <= k < va.len() implies token_at(src, #[trigger] va[k], new_starts[k]) by {
                        if k < vb.len() {
                            assert(va[k] == vb[k]);
                        }
                    }
                    assert forall|k: int| 0 <= k < va.len() - 1 implies token_end(#[trigger] va[k], new_starts[k]) <= new_starts[k + 1] by {
                        assert(va[k] == vb[k]);
                        if k < vb.len() - 1 {
                        } else {
                            assert(before.last()@ == vb[k]);
                        }
                    }
                    assert forall|k: int| 0 <= k < self.tokens@.len() implies (#[trigger] self.tokens@[k])@.typ != TokenType::EOF
                        && self.tokens@[k]@.lexeme.len() > 0 by {
                        if k < before.len() {
                            assert(self.tokens@[k] == before[k]);
                        }
                    }
                    assert forall|num: spec_fn(Seq<char>) -> Option<u64>| #[trigger]
                        parse_agrees(*parse, num) implies shaped(va, num) by {
                        assert forall|k: int| 0 <= k < va.len() implies token_shape(#[trigger] va[k], num) by {
                            if k < vb.len() {
                                assert(va[k] == vb[k]);
                            }
                        }
                    }
                    starts = new_starts;
                }
            }
        }
        let eof = Token::new(TokenType::EOF, String::new(), None, self.line);
        let ghost body = self.tokens@;
        self.tokens.push(eof);
        let mut result: Vec<Token> = Vec::new();
        std::mem::swap(&mut result, &mut self.tokens);
        proof {
            let v = views(result@);
            assert(result@.drop_last() == body);
            assert(v.drop_last() =~= views(body));
            assert(placed(src, v.drop_last(), starts));
            assert forall|k: int| 0 <= k < v.len() - 1 implies (#[trigger] v[k]).typ != TokenType::EOF
                && v[k].lexeme.len() > 0 by {
                assert(result@[k] == body[k]);
            }
            assert(v =~= views(body).push(result@.last()@));
        }
        Ok(result)
    }
}

} // verus!
