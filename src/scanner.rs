use vstd::prelude::*;

use crate::error::{push_char, Error, SpecError};

verus! {

/// The binary operators of the expression language.
#[derive(PartialEq, Eq, Structural, Debug, Clone, Copy)]
pub enum OperatorType {
    Plus,
    Minus,
    Multiply,
    Divide,
    Pow,
}

impl OperatorType {
    /// How tightly the operator binds; higher binds tighter.
    pub open spec fn spec_precedence(&self) -> u8 {
        match self {
            OperatorType::Plus | OperatorType::Minus => 2,
            OperatorType::Multiply | OperatorType::Divide => 3,
            OperatorType::Pow => 4,
        }
    }

    /// Every operator but `Pow` groups from the left.
    pub open spec fn spec_is_left_associative(&self) -> bool {
        !(self is Pow)
    }

    #[verifier::when_used_as_spec(spec_precedence)]
    pub fn precedence(&self) -> (r: u8)
        ensures
            r == self.spec_precedence(),
    {
        match self {
            OperatorType::Plus | OperatorType::Minus => 2,
            OperatorType::Multiply | OperatorType::Divide => 3,
            OperatorType::Pow => 4,
        }
    }

    #[verifier::when_used_as_spec(spec_is_left_associative)]
    pub fn is_left_associative(&self) -> (r: bool)
        ensures
            r == self.spec_is_left_associative(),
    {
        matches!(self, OperatorType::Plus | OperatorType::Minus | OperatorType::Multiply | OperatorType::Divide)
    }
}

/// The built-in functions that an expression may call.
#[derive(PartialEq, Eq, Structural, Debug, Clone, Copy)]
pub enum Builtin {
    Min,
    Max,
    Sin,
    Cos,
}

/// The built-in function that a name denotes, if any.
pub open spec fn builtin_named(name: Seq<char>) -> Option<Builtin> {
    if name == seq!['m', 'i', 'n'] {
        Some(Builtin::Min)
    } else if name == seq!['m', 'a', 'x'] {
        Some(Builtin::Max)
    } else if name == seq!['s', 'i', 'n'] {
        Some(Builtin::Sin)
    } else if name == seq!['c', 'o', 's'] {
        Some(Builtin::Cos)
    } else {
        None
    }
}

impl Builtin {
    /// How many operands the function takes.
    pub open spec fn arity(&self) -> nat {
        match self {
            Builtin::Min | Builtin::Max => 2,
            Builtin::Sin | Builtin::Cos => 1,
        }
    }

    /// Looks a function up by its name.
    pub fn from_name(name: &str) -> (r: Option<Builtin>)
        ensures
            r == builtin_named(name@),
    {
        if name.unicode_len() != 3 {
            proof {
                assert(name@ != seq!['m', 'i', 'n']);
                assert(name@ != seq!['m', 'a', 'x']);
                assert(name@ != seq!['s', 'i', 'n']);
                assert(name@ != seq!['c', 'o', 's']);
            }
            return None;
        }
        let a = name.get_char(0);
        let b = name.get_char(1);
        let c = name.get_char(2);
        proof {
            assert(name@ =~= seq![a, b, c]);
        }
        if a == 'm' && b == 'i' && c == 'n' {
            Some(Builtin::Min)
        } else if a == 'm' && b == 'a' && c == 'x' {
            Some(Builtin::Max)
        } else if a == 's' && b == 'i' && c == 'n' {
            Some(Builtin::Sin)
        } else if a == 'c' && b == 'o' && c == 's' {
            Some(Builtin::Cos)
        } else {
            None
        }
    }
}

/// A lexical token of the expression language.
#[derive(Debug)]
pub enum Token {
    /// A numeric literal, as its source text: digits, optionally a `.` and more digits.
    Number(String),
    /// A call of a built-in function, by its source name.
    Function(String),
    Operator(OperatorType),
    Comma,
    LeftParen,
    RightParen,
}

/// The mathematical model of a [`Token`].
pub enum SpecToken {
    Number(Seq<char>),
    Function(Seq<char>),
    Operator(OperatorType),
    Comma,
    LeftParen,
    RightParen,
}

impl View for Token {
    type V = SpecToken;

    open spec fn view(&self) -> SpecToken {
        match self {
            Token::Number(s) => SpecToken::Number(s@),
            Token::Function(s) => SpecToken::Function(s@),
            Token::Operator(o) => SpecToken::Operator(*o),
            Token::Comma => SpecToken::Comma,
            Token::LeftParen => SpecToken::LeftParen,
            Token::RightParen => SpecToken::RightParen,
        }
    }
}

impl PartialEq for Token {
    fn eq(&self, other: &Token) -> (r: bool)
        ensures
            r == (self@ == other@),
    {
        match (self, other) {
            (Token::Number(a), Token::Number(b)) => *a == *b,
            (Token::Function(a), Token::Function(b)) => *a == *b,
            (Token::Operator(a), Token::Operator(b)) => *a == *b,
            (Token::Comma, Token::Comma) => true,
            (Token::LeftParen, Token::LeftParen) => true,
            (Token::RightParen, Token::RightParen) => true,
            _ => false,
        }
    }
}

impl vstd::std_specs::cmp::PartialEqSpecImpl for Token {
    open spec fn obeys_eq_spec() -> bool {
        true
    }

    open spec fn eq_spec(&self, other: &Token) -> bool {
        self@ == other@
    }
}

/// The models of a sequence of tokens.
pub open spec fn tokens_view(ts: Seq<Token>) -> Seq<SpecToken> {
    ts.map_values(|t: Token| t@)
}

/// The model of a scan: the tokens' models, or the error's.
pub open spec fn tokens_result_view(r: Result<Vec<Token>, Error>) -> Result<Seq<SpecToken>, SpecError> {
    match r {
        Ok(v) => Ok(tokens_view(v@)),
        Err(e) => Err(e@),
    }
}

pub open spec fn is_digit(c: char) -> bool {
    '0' <= c && c <= '9'
}

/// A character that may start an identifier: an ASCII letter or `_`.
pub open spec fn spec_is_alpha(c: char) -> bool {
    ('a' <= c && c <= 'z') || ('A' <= c && c <= 'Z') || c == '_'
}

pub open spec fn is_ident_char(c: char) -> bool {
    spec_is_alpha(c) || is_digit(c)
}

pub open spec fn is_blank(c: char) -> bool {
    c == ' ' || c == '\r' || c == '\t' || c == '\n'
}

/// The first position at or after `i` that holds a newline, or the end.
pub open spec fn line_end(s: Seq<char>, i: int) -> int
    decreases s.len() - i,
{
    if 0 <= i < s.len() && s[i] != '\n' {
        line_end(s, i + 1)
    } else {
        i
    }
}

/// The end of the run of digits that starts at `i`.
pub open spec fn digits_end(s: Seq<char>, i: int) -> int
    decreases s.len() - i,
{
    if 0 <= i < s.len() && is_digit(s[i]) {
        digits_end(s, i + 1)
    } else {
        i
    }
}

/// The end of the run of identifier characters that starts at `i`.
pub open spec fn ident_end(s: Seq<char>, i: int) -> int
    decreases s.len() - i,
{
    if 0 <= i < s.len() && is_ident_char(s[i]) {
        ident_end(s, i + 1)
    } else {
        i
    }
}

pub proof fn lemma_line_end_bounds(s: Seq<char>, i: int)
    requires
        0 <= i <= s.len(),
    ensures
        i <= line_end(s, i) <= s.len(),
    decreases s.len() - i,
{
    if i < s.len() && s[i] != '\n' {
        lemma_line_end_bounds(s, i + 1);
    }
}

pub proof fn lemma_digits_end_bounds(s: Seq<char>, i: int)
    requires
        0 <= i <= s.len(),
    ensures
        i <= digits_end(s, i) <= s.len(),
        forall|k: int| i <= k < digits_end(s, i) ==> is_digit(#[trigger] s[k]),
    decreases s.len() - i,
{
    if i < s.len() && is_digit(s[i]) {
        lemma_digits_end_bounds(s, i + 1);
    }
}

pub proof fn lemma_ident_end_bounds(s: Seq<char>, i: int)
    requires
        0 <= i <= s.len(),
    ensures
        i <= ident_end(s, i) <= s.len(),
    decreases s.len() - i,
{
    if i < s.len() && is_ident_char(s[i]) {
        lemma_ident_end_bounds(s, i + 1);
    }
}

/// The position after the blanks and line comments that start at `i`.
pub open spec fn skip_blank(s: Seq<char>, i: int) -> int
    decreases s.len() - i,
{
    if 0 <= i < s.len() {
        if is_blank(s[i]) {
            skip_blank(s, i + 1)
        } else if s[i] == '/' && i + 1 < s.len() && s[i + 1] == '/' {
            proof {
                lemma_line_end_bounds(s, i + 2);
            }
            skip_blank(s, line_end(s, i + 2))
        } else {
            i
        }
    } else {
        i
    }
}

pub proof fn lemma_skip_blank_bounds(s: Seq<char>, i: int)
    requires
        0 <= i <= s.len(),
    ensures
        i <= skip_blank(s, i) <= s.len(),
    decreases s.len() - i,
{
    if i < s.len() {
        if is_blank(s[i]) {
            lemma_skip_blank_bounds(s, i + 1);
        } else if s[i] == '/' && i + 1 < s.len() && s[i + 1] == '/' {
            lemma_line_end_bounds(s, i + 2);
            lemma_skip_blank_bounds(s, line_end(s, i + 2));
        }
    }
}

/// The end of the numeric literal whose first digit is at `j`: a run of digits,
/// and a fraction where a `.` is followed by a digit.
pub open spec fn number_end(s: Seq<char>, j: int) -> int {
    let k = digits_end(s, j);
    if 0 <= k && k + 1 < s.len() && s[k] == '.' && is_digit(s[k + 1]) {
        digits_end(s, k + 1)
    } else {
        k
    }
}

/// The single-character token that `c` stands for, if any.
pub open spec fn symbol_token(c: char) -> Option<SpecToken> {
    if c == '(' {
        Some(SpecToken::LeftParen)
    } else if c == ')' {
        Some(SpecToken::RightParen)
    } else if c == ',' {
        Some(SpecToken::Comma)
    } else if c == '-' {
        Some(SpecToken::Operator(OperatorType::Minus))
    } else if c == '+' {
        Some(SpecToken::Operator(OperatorType::Plus))
    } else if c == '*' {
        Some(SpecToken::Operator(OperatorType::Multiply))
    } else if c == '/' {
        Some(SpecToken::Operator(OperatorType::Divide))
    } else if c == '^' {
        Some(SpecToken::Operator(OperatorType::Pow))
    } else {
        None
    }
}

/// The token that starts at position `j` and the position after it, or the
/// error that stops the scan there.
pub open spec fn token_at(s: Seq<char>, j: int) -> Result<(SpecToken, int), SpecError>
    recommends
        0 <= j < s.len(),
{
    let c = s[j];
    if symbol_token(c) is Some {
        Ok((symbol_token(c)->Some_0, j + 1))
    } else if spec_is_alpha(c) {
        let k = ident_end(s, j + 1);
        let name = s.subrange(j, k);
        if builtin_named(name) is Some {
            Ok((SpecToken::Function(name), k))
        } else {
            Err(SpecError::UnknownFunction(name))
        }
    } else if is_digit(c) {
        let k = number_end(s, j);
        Ok((SpecToken::Number(s.subrange(j, k)), k))
    } else {
        Err(SpecError::UnexpectedChar(c))
    }
}

pub proof fn lemma_token_at_bounds(s: Seq<char>, j: int)
    requires
        0 <= j < s.len(),
    ensures
        token_at(s, j) matches Ok((_, k)) ==> j < k <= s.len(),
{
    lemma_ident_end_bounds(s, j + 1);
    lemma_digits_end_bounds(s, j);
    lemma_digits_end_bounds(s, j + 1);
    let k = digits_end(s, j);
    if 0 <= k && k + 1 < s.len() {
        lemma_digits_end_bounds(s, k + 1);
    }
}

/// Puts `ts` in front of the tokens of a successful scan; an error stays as it is.
pub open spec fn prepend(ts: Seq<SpecToken>, r: Result<Seq<SpecToken>, SpecError>) -> Result<
    Seq<SpecToken>,
    SpecError,
> {
    match r {
        Ok(rest) => Ok(ts + rest),
        Err(e) => Err(e),
    }
}

/// The tokens of `s` from position `i` on, or the first lexical error.
pub open spec fn scan_from(s: Seq<char>, i: int) -> Result<Seq<SpecToken>, SpecError>
    decreases s.len() - i,
{
    let j = skip_blank(s, i);
    if 0 <= i <= s.len() && j < s.len() {
        proof {
            lemma_skip_blank_bounds(s, i);
            lemma_token_at_bounds(s, j);
        }
        match token_at(s, j) {
            Ok((t, k)) => prepend(seq![t], scan_from(s, k)),
            Err(e) => Err(e),
        }
    } else {
        Ok(seq![])
    }
}

/// The tokens of a whole text, or its first lexical error.
pub open spec fn spec_scan(s: Seq<char>) -> Result<Seq<SpecToken>, SpecError> {
    scan_from(s, 0)
}

/// The character at position `i`, if there is one.
pub open spec fn char_at(s: Seq<char>, i: int) -> Option<char> {
    if 0 <= i < s.len() {
        Some(s[i])
    } else {
        None
    }
}

fn is_digit_char(c: char) -> (r: bool)
    ensures
        r == is_digit(c),
{
    '0' <= c && c <= '9'
}

#[verifier::when_used_as_spec(spec_is_alpha)]
fn is_alpha(c: char) -> (r: bool)
    ensures
        r == spec_is_alpha(c),
{
    ('a' <= c && c <= 'z') || ('A' <= c && c <= 'Z') || c == '_'
}

/// The program text with a cursor that can look two characters ahead.
struct Text {
    chars: Vec<char>,
    pos: usize,
}

impl Text {
    fn new(source: &str) -> (t: Text)
        ensures
            t.chars@ == source@,
            t.pos == 0,
    {
        let mut chars: Vec<char> = Vec::new();
        for c in it: source.chars()
            invariant
                chars@ == it.seq().take(it.index() as int),
        {
            chars.push(c);
        }
        Text { chars, pos: 0 }
    }

    fn peek(&self, offset: usize) -> (r: Option<char>)
        requires
            self.pos <= self.chars.len(),
        ensures
            r == char_at(self.chars@, self.pos + offset),
    {
        if offset < self.chars.len() - self.pos {
            Some(self.chars[self.pos + offset])
        } else {
            None
        }
    }

    fn advance(&mut self) -> (r: Option<char>)
        requires
            old(self).pos <= old(self).chars.len(),
        ensures
            final(self).chars == old(self).chars,
            r == char_at(old(self).chars@, old(self).pos as int),
            final(self).pos == if old(self).pos < old(self).chars.len() {
                old(self).pos + 1
            } else {
                old(self).pos as int
            },
    {
        if self.pos < self.chars.len() {
            let c = self.chars[self.pos];
            self.pos = self.pos + 1;
            Some(c)
        } else {
            None
        }
    }
}

/// Turns program text into tokens.
pub struct Scanner {
    text: Text,
    lexeme: String,
    line: u32,
}

impl Scanner {
    /// The whole text that the scanner reads.
    pub closed spec fn input(&self) -> Seq<char> {
        self.text.chars@
    }

    /// How many characters of the input the scanner has consumed.
    pub closed spec fn position(&self) -> int {
        self.text.pos as int
    }

    /// The scanner stands between two tokens.
    pub closed spec fn wf(&self) -> bool {
        &&& self.text.pos <= self.text.chars.len()
        &&& self.lexeme@ == Seq::<char>::empty()
    }

    /// A scanner at the start of `source`.
    pub fn new(source: &str) -> (r: Scanner)
        ensures
            r.wf(),
            r.input() == source@,
            r.position() == 0,
    {
        Scanner { text: Text::new(source), lexeme: String::new(), line: 1 }
    }

    /// Consumes one character and adds it to the current lexeme.
    fn advance(&mut self) -> (r: Option<char>)
        requires
            old(self).text.pos <= old(self).text.chars.len(),
        ensures
            final(self).text.chars@ == old(self).text.chars@,
            r == char_at(old(self).text.chars@, old(self).text.pos as int),
            final(self).text.pos == if old(self).text.pos < old(self).text.chars.len() {
                old(self).text.pos + 1
            } else {
                old(self).text.pos as int
            },
            final(self).lexeme@ == match r {
                Some(c) => old(self).lexeme@.push(c),
                None => old(self).lexeme@,
            },
    {
        let ch = self.text.advance();
        if let Some(c) = ch {
            push_char(&mut self.lexeme, c);
        }
        ch
    }

    /// Skips blanks and line comments.
    fn skip_whitespace(&mut self)
        requires
            old(self).text.pos <= old(self).text.chars.len(),
        ensures
            final(self).text.chars@ == old(self).text.chars@,
            final(self).lexeme == old(self).lexeme,
            final(self).text.pos == skip_blank(old(self).text.chars@, old(self).text.pos as int),
    {
        let ghost s = self.text.chars@;
        let ghost target = skip_blank(s, self.text.pos as int);
        loop
            invariant
                s == old(self).text.chars@,
                target == skip_blank(s, old(self).text.pos as int),
                self.text.chars@ == s,
                self.lexeme == old(self).lexeme,
                self.text.pos <= s.len(),
                skip_blank(s, self.text.pos as int) == target,
            decreases s.len() - self.text.pos,
        {
            match self.text.peek(0) {
                Some(' ') | Some('\r') | Some('\t') => {
                    self.text.advance();
                },
                Some('\n') => {
                    if self.line < u32::MAX {
                        self.line = self.line + 1;
                    }
                    self.text.advance();
                },
                Some('/') => {
                    if self.text.peek(1) != Some('/') {
                        return;
                    }
                    let ghost start = self.text.pos as int;
                    proof {
                        lemma_line_end_bounds(s, start + 2);
                        assert(line_end(s, start) == line_end(s, start + 1));
                        assert(line_end(s, start + 1) == line_end(s, start + 2));
                    }
                    loop
                        invariant
                            self.text.chars@ == s,
                            self.text.pos <= s.len(),
                            self.lexeme == old(self).lexeme,
                            start <= self.text.pos <= line_end(s, start + 2),
                            line_end(s, self.text.pos as int) == line_end(s, start + 2),
                        ensures
                            self.text.chars@ == s,
                            self.lexeme == old(self).lexeme,
                            self.text.pos == line_end(s, start + 2),
                        decreases s.len() - self.text.pos,
                    {
                        match self.text.peek(0) {
                            Some(ch) => {
                                if ch == '\n' {
                                    break;
                                }
                            },
                            None => break,
                        }
                        proof {
                            lemma_line_end_bounds(s, self.text.pos + 1);
                        }
                        self.text.advance();
                    }
                },
                _ => return,
            }
        }
    }

    /// Consumes a run of digits.
    fn parse_digits(&mut self)
        requires
            old(self).text.pos <= old(self).text.chars.len(),
        ensures
            final(self).text.chars@ == old(self).text.chars@,
            old(self).text.pos <= final(self).text.pos <= old(self).text.chars.len(),
            final(self).text.pos == digits_end(old(self).text.chars@, old(self).text.pos as int),
            final(self).lexeme@ == old(self).lexeme@ + old(self).text.chars@.subrange(
                old(self).text.pos as int,
                final(self).text.pos as int,
            ),
    {
        let ghost s = self.text.chars@;
        let ghost start = self.text.pos as int;
        proof {
            lemma_digits_end_bounds(s, start);
        }
        loop
            invariant
                self.text.chars@ == s,
                0 <= start <= self.text.pos <= s.len(),
                digits_end(s, self.text.pos as int) == digits_end(s, start),
                self.lexeme@ == old(self).lexeme@ + s.subrange(start, self.text.pos as int),
            ensures
                self.text.chars@ == s,
                start <= self.text.pos <= s.len(),
                self.text.pos == digits_end(s, start),
                self.lexeme@ == old(self).lexeme@ + s.subrange(start, self.text.pos as int),
            decreases s.len() - self.text.pos,
        {
            match self.text.peek(0) {
                Some(c) => {
                    if !is_digit_char(c) {
                        break;
                    }
                },
                None => break,
            }
            proof {
                assert(s.subrange(start, self.text.pos + 1) =~= s.subrange(
                    start,
                    self.text.pos as int,
                ).push(s[self.text.pos as int]));
            }
            self.advance();
            assert(self.lexeme@ =~= old(self).lexeme@ + s.subrange(start, self.text.pos as int));
        }
    }

    /// Takes the current lexeme out, leaving it empty.
    fn take_lexeme(&mut self) -> (r: String)
        ensures
            r@ == old(self).lexeme@,
            final(self).lexeme@ == Seq::<char>::empty(),
            final(self).text == old(self).text,
    {
        let mut lexeme = String::new();
        core::mem::swap(&mut self.lexeme, &mut lexeme);
        lexeme
    }

    /// Scans the rest of a numeric literal whose first digit was just consumed.
    fn number(&mut self) -> (r: Token)
        requires
            1 <= old(self).text.pos <= old(self).text.chars.len(),
            is_digit(old(self).text.chars@[old(self).text.pos - 1]),
            old(self).lexeme@ == old(self).text.chars@.subrange(
                old(self).text.pos - 1,
                old(self).text.pos as int,
            ),
        ensures
            final(self).text.chars@ == old(self).text.chars@,
            final(self).lexeme@ == Seq::<char>::empty(),
            final(self).text.pos == number_end(old(self).text.chars@, old(self).text.pos - 1),
            r@ == SpecToken::Number(
                old(self).text.chars@.subrange(
                    old(self).text.pos - 1,
                    number_end(old(self).text.chars@, old(self).text.pos - 1),
                ),
            ),
    {
        let ghost s = self.text.chars@;
        let ghost j = self.text.pos - 1;
        self.parse_digits();
        assert(self.lexeme@ =~= s.subrange(j, self.text.pos as int));
        let ghost k = self.text.pos as int;
        assert(k == digits_end(s, j));
        if self.text.peek(0) == Some('.') {
            if let Some(c) = self.text.peek(1) {
                if is_digit_char(c) {
                    self.advance();
                    proof {
                        lemma_digits_end_bounds(s, k + 1);
                    }
                    self.parse_digits();
                    assert(self.lexeme@ =~= s.subrange(j, self.text.pos as int));
                }
            }
        }
        Token::Number(self.take_lexeme())
    }

    /// Scans the rest of an identifier whose first character was just consumed;
    /// it must name a built-in function.
    fn identifier(&mut self) -> (r: Result<Token, Error>)
        requires
            1 <= old(self).text.pos <= old(self).text.chars.len(),
            spec_is_alpha(old(self).text.chars@[old(self).text.pos - 1]),
            old(self).lexeme@ == old(self).text.chars@.subrange(
                old(self).text.pos - 1,
                old(self).text.pos as int,
            ),
        ensures
            final(self).text.chars@ == old(self).text.chars@,
            final(self).lexeme@ == Seq::<char>::empty(),
            match token_at(old(self).text.chars@, old(self).text.pos - 1) {
                Ok((t, k)) => r is Ok && r->Ok_0@ == t && final(self).text.pos == k,
                Err(e) => r is Err && r->Err_0@ == e,
            },
    {
        let ghost s = self.text.chars@;
        let ghost j = self.text.pos - 1;
        let ghost start = self.text.pos as int;
        proof {
            lemma_ident_end_bounds(s, start);
        }
        loop
            invariant
                self.text.chars@ == s,
                0 <= j,
                start == j + 1,
                start <= self.text.pos <= s.len(),
                ident_end(s, self.text.pos as int) == ident_end(s, start),
                self.lexeme@ == s.subrange(j, self.text.pos as int),
            ensures
                self.text.chars@ == s,
                start <= self.text.pos <= s.len(),
                self.text.pos == ident_end(s, start),
                self.lexeme@ == s.subrange(j, self.text.pos as int),
            decreases s.len() - self.text.pos,
        {
            match self.text.peek(0) {
                Some(c) => {
                    if !(is_alpha(c) || is_digit_char(c)) {
                        break;
                    }
                },
                None => break,
            }
            proof {
                assert(s.subrange(j, self.text.pos + 1) =~= s.subrange(
                    j,
                    self.text.pos as int,
                ).push(s[self.text.pos as int]));
            }
            self.advance();
        }
        let found = Builtin::from_name(self.lexeme.as_str());
        let name = self.take_lexeme();
        match found {
            Some(_) => Ok(Token::Function(name)),
            None => Err(Error::UnknownFunction(name)),
        }
    }

    /// Scans the whole remaining input into tokens, stopping at the first
    /// lexical error.
    pub fn scan_tokens(&mut self) -> (r: Result<Vec<Token>, Error>)
        requires
            old(self).wf(),
        ensures
            final(self).input() == old(self).input(),
            tokens_result_view(r) == scan_from(old(self).input(), old(self).position()),
            r is Ok ==> final(self).wf() && final(self).position() == final(self).input().len(),
    {
        let ghost s = self.text.chars@;
        let ghost i0 = self.text.pos as int;
        let mut tokens: Vec<Token> = Vec::new();
        assert(tokens_view(tokens@) =~= Seq::<SpecToken>::empty());
        assert(prepend(Seq::<SpecToken>::empty(), scan_from(s, i0)) =~= scan_from(s, i0));
        loop
            invariant
                s == old(self).input(),
                i0 == old(self).position(),
                self.text.chars@ == s,
                self.wf(),
                scan_from(s, i0) == prepend(tokens_view(tokens@), scan_from(s, self.text.pos as int)),
            decreases s.len() - self.text.pos,
        {
            let ghost p = self.text.pos as int;
            proof {
                lemma_skip_blank_bounds(s, p);
            }
            self.skip_whitespace();
            let ghost j = self.text.pos as int;
            let ch = match self.advance() {
                Some(c) => c,
                None => {
                    assert(tokens_view(tokens@) + Seq::<SpecToken>::empty() =~= tokens_view(tokens@));
                    return Ok(tokens);
                },
            };
            proof {
                lemma_token_at_bounds(s, j);
                assert(self.lexeme@ =~= s.subrange(j, j + 1));
            }
            let token = if ch == '(' {
                Token::LeftParen
            } else if ch == ')' {
                Token::RightParen
            } else if ch == ',' {
                Token::Comma
            } else if ch == '-' {
                Token::Operator(OperatorType::Minus)
            } else if ch == '+' {
                Token::Operator(OperatorType::Plus)
            } else if ch == '*' {
                Token::Operator(OperatorType::Multiply)
            } else if ch == '/' {
                Token::Operator(OperatorType::Divide)
            } else if ch == '^' {
                Token::Operator(OperatorType::Pow)
            } else if is_alpha(ch) {
                match self.identifier() {
                    Ok(t) => t,
                    Err(e) => return Err(e),
                }
            } else if is_digit_char(ch) {
                self.number()
            } else {
                return Err(Error::UnexpectedChar(ch));
            };
            proof {
                let t = token@;
                let k = self.text.pos as int;
                assert(token_at(s, j) == Ok::<(SpecToken, int), SpecError>((t, k)));
                assert(tokens_view(tokens@.push(token)) =~= tokens_view(tokens@) + seq![t]);
                assert(prepend(tokens_view(tokens@), prepend(seq![t], scan_from(s, k))) == prepend(
                    tokens_view(tokens@) + seq![t],
                    scan_from(s, k),
                )) by {
                    match scan_from(s, k) {
                        Ok(rest) => {
                            assert(tokens_view(tokens@) + (seq![t] + rest) =~= tokens_view(tokens@)
                                + seq![t] + rest);
                        },
                        Err(_) => {},
                    }
                }
            }
            tokens.push(token);
            self.lexeme = String::new();
        }
    }
}

/// Scans a whole text into tokens, or returns its first lexical error.
pub fn scan(source: &str) -> (r: Result<Vec<Token>, Error>)
    ensures
        tokens_result_view(r) == spec_scan(source@),
{
    let mut scanner = Scanner::new(source);
    scanner.scan_tokens()
}

/// A non-empty run of ASCII digits.
pub open spec fn is_digit_run(s: Seq<char>) -> bool {
    s.len() > 0 && forall|i: int| 0 <= i < s.len() ==> is_digit(#[trigger] s[i])
}

/// A numeric literal of the language: digits, optionally followed by a `.`
/// and more digits.
pub open spec fn is_numeric_literal(n: Seq<char>) -> bool {
    is_digit_run(n) || exists|a: Seq<char>, b: Seq<char>|
        is_digit_run(a) && is_digit_run(b) && n == a + seq!['.'] + b
}

proof fn lemma_digits_end_at(s: Seq<char>, i: int, j: int)
    requires
        0 <= i <= j <= s.len(),
        forall|k: int| i <= k < j ==> is_digit(#[trigger] s[k]),
        j == s.len() || !is_digit(s[j]),
    ensures
        digits_end(s, i) == j,
    decreases j - i,
{
    if i < j {
        lemma_digits_end_at(s, i + 1, j);
    }
}

/// Scanning a numeric literal gives exactly one number token, whose text is the literal.
pub proof fn law_numeric_literal(n: Seq<char>)
    requires
        is_numeric_literal(n),
    ensures
        spec_scan(n) == Ok::<Seq<SpecToken>, SpecError>(seq![SpecToken::Number(n)]),
{
    let len = n.len() as int;
    if is_digit_run(n) {
        lemma_digits_end_at(n, 0, len);
    } else {
        let (a, b) = choose|a: Seq<char>, b: Seq<char>|
            is_digit_run(a) && is_digit_run(b) && n == a + seq!['.'] + b;
        let k = a.len() as int;
        assert(n[k] == '.');
        assert forall|i: int| 0 <= i < k implies is_digit(#[trigger] n[i]) by {
            assert(n[i] == a[i]);
        }
        lemma_digits_end_at(n, 0, k);
        assert forall|i: int| k + 1 <= i < len implies is_digit(#[trigger] n[i]) by {
            assert(n[i] == b[i - k - 1]);
        }
        assert(n[k + 1] == b[0]);
        lemma_digits_end_at(n, k + 1, len);
    }
    assert(skip_blank(n, 0) == 0);
    assert(number_end(n, 0) == len);
    assert(n.subrange(0, len) =~= n);
    assert(skip_blank(n, len) == len);
    assert(scan_from(n, len) == Ok::<Seq<SpecToken>, SpecError>(seq![]));
    assert(seq![SpecToken::Number(n)] + Seq::<SpecToken>::empty() =~= seq![SpecToken::Number(n)]);
}

/// Scanning from position `i` reads tokens without error until one starts at `k`.
pub open spec fn token_starts_at(s: Seq<char>, i: int, k: int) -> bool
    decreases s.len() - i,
{
    if 0 <= i <= s.len() && skip_blank(s, i) < s.len() {
        let j = skip_blank(s, i);
        proof {
            lemma_skip_blank_bounds(s, i);
            lemma_token_at_bounds(s, j);
        }
        j == k || match token_at(s, j) {
            Ok((_, e)) => token_starts_at(s, e, k),
            Err(_) => false,
        }
    } else {
        false
    }
}

/// The text of the identifier that starts at `k`.
pub open spec fn identifier_at(s: Seq<char>, k: int) -> Seq<char> {
    s.subrange(k, ident_end(s, k + 1))
}

proof fn lemma_unknown_identifier_from(s: Seq<char>, i: int, k: int)
    requires
        token_starts_at(s, i, k),
        spec_is_alpha(s[k]),
        builtin_named(identifier_at(s, k)) is None,
    ensures
        scan_from(s, i) == Err::<Seq<SpecToken>, SpecError>(
            SpecError::UnknownFunction(identifier_at(s, k)),
        ),
    decreases s.len() - i,
{
    let j = skip_blank(s, i);
    lemma_skip_blank_bounds(s, i);
    lemma_token_at_bounds(s, j);
    if j != k {
        if let Ok((_, e)) = token_at(s, j) {
            lemma_unknown_identifier_from(s, e, k);
        }
    }
}

/// Where the scan reaches an identifier that names no built-in function, it
/// fails with an unknown-function error that carries the identifier.
pub proof fn law_unknown_identifier(s: Seq<char>, k: int)
    requires
        token_starts_at(s, 0, k),
        spec_is_alpha(s[k]),
        builtin_named(identifier_at(s, k)) is None,
    ensures
        spec_scan(s) == Err::<Seq<SpecToken>, SpecError>(
            SpecError::UnknownFunction(identifier_at(s, k)),
        ),
{
    lemma_unknown_identifier_from(s, 0, k);
}

} // verus!
