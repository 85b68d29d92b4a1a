//! The tokenizer: source text to a flat token sequence.
//!
//! `spec_tokens` is the mathematical tokenizer over a sequence of
//! characters; `Lexer::scan_tokens` is proved to produce exactly its
//! result, one end-of-input marker included.
use crate::rat::{rat_make, Number};
use crate::token::{toks_view, Token, TokenView};
use vstd::prelude::*;
use vstd::string::StringExecFns;
use crate::rat::normalize;

verus! {

/// Relies on `str::chars` and `Vec::from_iter`: the characters of the
/// string, in order.
#[verifier::external_body]
pub(crate) fn chars_of(s: &str) -> (r: Vec<char>)
    ensures
        r@ == s@,
{
    s.chars().collect()
}

/// Relies on `String::from_iter`: the string holding exactly the given
/// characters, in order.
#[verifier::external_body]
pub(crate) fn string_from_chars(v: &[char]) -> (r: String)
    ensures
        r@ == v@,
{
    v.iter().collect()
}

/// What `char::is_alphabetic` returns: a function of the character alone.
pub uninterp spec fn char_alphabetic(c: char) -> bool;

/// What `char::is_alphanumeric` returns: a function of the character alone.
pub uninterp spec fn char_alphanumeric(c: char) -> bool;

/// Relies on `char::is_alphabetic`; ASCII letters are documented to be
/// alphabetic.
#[verifier::external_body]
pub(crate) fn exec_char_alphabetic(c: char) -> (r: bool)
    ensures
        r == char_alphabetic(c),
        ('a' <= c && c <= 'z') || ('A' <= c && c <= 'Z') ==> r,
{
    c.is_alphabetic()
}

/// Relies on `char::is_alphanumeric`; ASCII letters and digits are
/// documented to be alphanumeric.
#[verifier::external_body]
pub(crate) fn exec_char_alphanumeric(c: char) -> (r: bool)
    ensures
        r == char_alphanumeric(c),
        ('a' <= c && c <= 'z') || ('A' <= c && c <= 'Z') || ('0' <= c && c <= '9') ==> r,
{
    c.is_alphanumeric()
}

/// An ASCII decimal digit.
pub open spec fn is_digit(c: char) -> bool {
    '0' <= c && c <= '9'
}

/// The numeric value of a digit character.
pub open spec fn digit_of(c: char) -> int {
    c as int - '0' as int
}

/// How many characters a line comment spans, from `i` to the next newline
/// or the end of input, the newline excluded.
pub open spec fn line_comment_len(src: Seq<char>, i: int) -> nat
    decreases src.len() - i,
{
    if i < 0 || i >= src.len() || src[i] == '\n' {
        0
    } else {
        1 + line_comment_len(src, i + 1)
    }
}

/// How many characters a block comment consumes from `i`, the closing
/// `*/` included when there is one, else through the end of input.
pub open spec fn block_comment_len(src: Seq<char>, i: int) -> nat
    decreases src.len() - i,
{
    if i < 0 || i >= src.len() {
        0
    } else if src[i] == '*' && i + 1 < src.len() && src[i + 1] == '/' {
        2
    } else {
        1 + block_comment_len(src, i + 1)
    }
}

/// Whether a block comment starting at `i` reaches a closing `*/`.
pub open spec fn block_comment_terminated(src: Seq<char>, i: int) -> bool
    decreases src.len() - i,
{
    if i < 0 || i >= src.len() {
        false
    } else if src[i] == '*' && i + 1 < src.len() && src[i + 1] == '/' {
        true
    } else {
        block_comment_terminated(src, i + 1)
    }
}

/// How many characters a string literal's contents span, from `i` to the
/// closing quote or the end of input, the quote excluded.
pub open spec fn string_run_len(src: Seq<char>, i: int) -> nat
    decreases src.len() - i,
{
    if i < 0 || i >= src.len() || src[i] == '"' {
        0
    } else {
        1 + string_run_len(src, i + 1)
    }
}

/// How many consecutive digits stand at `i`.
pub open spec fn digit_run_len(src: Seq<char>, i: int) -> nat
    decreases src.len() - i,
{
    if 0 <= i < src.len() && is_digit(src[i]) {
        1 + digit_run_len(src, i + 1)
    } else {
        0
    }
}

/// How many consecutive identifier characters (alphanumeric or `_`)
/// stand at `i`.
pub open spec fn ident_run_len(src: Seq<char>, i: int) -> nat
    decreases src.len() - i,
{
    if 0 <= i < src.len() && (char_alphanumeric(src[i]) || src[i] == '_') {
        1 + ident_run_len(src, i + 1)
    } else {
        0
    }
}

/// The decimal value of the `n` digits starting at `i`.
pub open spec fn digits_val(src: Seq<char>, i: int, n: nat) -> int
    decreases n,
{
    if n == 0 {
        0
    } else {
        digits_val(src, i, (n - 1) as nat) * 10 + digit_of(src[i + n - 1])
    }
}

/// Ten to the `n`.
pub open spec fn pow10(n: nat) -> int
    decreases n,
{
    if n == 0 {
        1
    } else {
        10 * pow10((n - 1) as nat)
    }
}

/// The keyword token for this exact text, or an identifier token.
pub open spec fn keyword_or_ident(text: Seq<char>) -> TokenView {
    if text == "and"@ {
        TokenView::And
    } else if text == "or"@ {
        TokenView::Or
    } else if text == "if"@ {
        TokenView::If
    } else if text == "else"@ {
        TokenView::Else
    } else if text == "true"@ {
        TokenView::True
    } else if text == "false"@ {
        TokenView::False
    } else if text == "nil"@ {
        TokenView::Nil
    } else if text == "let"@ {
        TokenView::Let
    } else if text == "const"@ {
        TokenView::Const
    } else if text == "func"@ {
        TokenView::Func
    } else if text == "return"@ {
        TokenView::Return
    } else if text == "for"@ {
        TokenView::For
    } else if text == "while"@ {
        TokenView::While
    } else if text == "print"@ {
        TokenView::Print
    } else if text == "pub"@ {
        TokenView::Pub
    } else if text == "sym"@ {
        TokenView::Sym
    } else if text == "module"@ {
        TokenView::Module
    } else if text == "import"@ {
        TokenView::Import
    } else if text == "some"@ {
        TokenView::SomeKw
    } else if text == "not"@ {
        TokenView::Not
    } else {
        TokenView::Identifier(text)
    }
}

/// The message for a character no rule admits.
pub open spec fn unexpected_char_msg(c: char) -> Seq<char> {
    "Unexpected character '"@ + seq![c] + "'"@
}

/// The message for an unterminated string literal.
pub open spec fn unterminated_string_msg() -> Seq<char> {
    "Unterminated string."@
}

/// The message for a numeric literal beyond the machine bounds.
pub open spec fn number_range_msg() -> Seq<char> {
    "Number literal out of range."@
}

/// The token (or dropped whitespace) and character count for a numeric
/// literal starting at the digit at `i`.
pub open spec fn number_tok(src: Seq<char>, i: int) -> (TokenView, nat) {
    let wl: nat = 1 + digit_run_len(src, i + 1);
    let has_frac = i + wl < src.len() && src[i + wl] == '.' && i + wl + 1 < src.len() && is_digit(
        src[i + wl + 1],
    );
    let fl: nat = if has_frac {
        digit_run_len(src, i + wl + 1)
    } else {
        0
    };
    let k: nat = if has_frac {
        wl + 1 + fl
    } else {
        wl
    };
    let whole = digits_val(src, i, wl);
    let frac = digits_val(src, i + wl + 1, fl);
    let den = pow10(fl);
    let numer = whole * den + frac;
    let tok = if den > u128::MAX as int {
        TokenView::Error(number_range_msg())
    } else {
        match rat_make(false, numer, den) {
            Option::Some(q) => TokenView::Number(q),
            Option::None => TokenView::Error(number_range_msg()),
        }
    };
    (tok, k)
}

/// The token for an identifier or keyword starting at `i`.
pub open spec fn ident_tok(src: Seq<char>, i: int) -> (TokenView, nat) {
    let k: nat = 1 + ident_run_len(src, i + 1);
    (keyword_or_ident(src.subrange(i, i + k)), k)
}

/// One step of scanning at position `i` (which must be in range): the
/// token produced, or `None` for dropped whitespace, and how many
/// characters were consumed (always at least one).
pub open spec fn scan_tok(src: Seq<char>, i: int) -> (Option<TokenView>, nat) {
    let c = src[i];
    if c == '(' {
        (Some(TokenView::LeftParen), 1)
    } else if c == ')' {
        (Some(TokenView::RightParen), 1)
    } else if c == '{' {
        (Some(TokenView::LeftBrace), 1)
    } else if c == '}' {
        (Some(TokenView::RightBrace), 1)
    } else if c == ',' {
        (Some(TokenView::Comma), 1)
    } else if c == '.' {
        (Some(TokenView::Dot), 1)
    } else if c == '-' {
        (Some(TokenView::Minus), 1)
    } else if c == '+' {
        (Some(TokenView::Plus), 1)
    } else if c == ';' {
        (Some(TokenView::Semicolon), 1)
    } else if c == '*' {
        (Some(TokenView::Star), 1)
    } else if c == '%' {
        (Some(TokenView::Percent), 1)
    } else if c == '~' {
        if i + 1 < src.len() && src[i + 1] == '=' {
            (Some(TokenView::TildeEqual), 2)
        } else {
            (Some(TokenView::Tilde), 1)
        }
    } else if c == '/' {
        if i + 1 < src.len() && src[i + 1] == '/' {
            let n = line_comment_len(src, i + 2);
            (Some(TokenView::Comment(src.subrange(i + 2, i + 2 + n))), (2 + n) as nat)
        } else if i + 1 < src.len() && src[i + 1] == '*' {
            let n = block_comment_len(src, i + 2);
            if block_comment_terminated(src, i + 2) {
                (Some(TokenView::Comment(src.subrange(i + 2, i + 2 + n - 2))), (2 + n) as nat)
            } else if n == 0 {
                (None, 2)
            } else {
                (Some(TokenView::Comment(src.subrange(i + 2, i + 2 + n))), (2 + n) as nat)
            }
        } else {
            (Some(TokenView::Slash), 1)
        }
    } else if c == '#' {
        let n = line_comment_len(src, i + 1);
        (Some(TokenView::Comment(src.subrange(i + 1, i + 1 + n))), (1 + n) as nat)
    } else if c == '!' {
        if i + 1 < src.len() && src[i + 1] == '=' {
            (Some(TokenView::BangEqual), 2)
        } else {
            (Some(TokenView::Error(unexpected_char_msg(c))), 1)
        }
    } else if c == '=' {
        if i + 1 < src.len() && src[i + 1] == '=' {
            (Some(TokenView::EqualEqual), 2)
        } else {
            (Some(TokenView::Equal), 1)
        }
    } else if c == '<' {
        if i + 1 < src.len() && src[i + 1] == '=' {
            (Some(TokenView::LessEqual), 2)
        } else {
            (Some(TokenView::Less), 1)
        }
    } else if c == '>' {
        if i + 1 < src.len() && src[i + 1] == '=' {
            (Some(TokenView::GreaterEqual), 2)
        } else {
            (Some(TokenView::Greater), 1)
        }
    } else if c == ' ' || c == '\r' || c == '\t' || c == '\n' {
        (None, 1)
    } else if c == '"' {
        let n = string_run_len(src, i + 1);
        if i + 1 + n < src.len() {
            (Some(TokenView::StringLiteral(src.subrange(i + 1, i + 1 + n))), (2 + n) as nat)
        } else {
            (Some(TokenView::Error(unterminated_string_msg())), (1 + n) as nat)
        }
    } else if is_digit(c) {
        let (t, k) = number_tok(src, i);
        (Some(t), k)
    } else if char_alphabetic(c) || c == '_' {
        let (t, k) = ident_tok(src, i);
        (Some(t), k)
    } else {
        (Some(TokenView::Error(unexpected_char_msg(c))), 1)
    }
}

/// How many characters stand between position `i` and the end.
pub open spec fn remaining(src: Seq<char>, i: int) -> int {
    if i <= src.len() {
        src.len() - i
    } else {
        0
    }
}

/// Scanning from position `i` to the end: the remaining tokens, closed by
/// the end-of-input marker; an error token ends scanning at once.
pub open spec fn scan_from(src: Seq<char>, i: int) -> Seq<TokenView>
    decreases remaining(src, i),
{
    if i < 0 || i >= src.len() {
        seq![TokenView::EOF]
    } else {
        let (t, k) = scan_tok(src, i);
        let k1: int = if k < 1 {
            1
        } else {
            k as int
        };
        match t {
            Option::None => scan_from(src, i + k1),
            Option::Some(tok) => {
                if tok is Error {
                    seq![tok, TokenView::EOF]
                } else {
                    seq![tok] + scan_from(src, i + k1)
                }
            },
        }
    }
}

/// The full token sequence of a source text.
pub open spec fn spec_tokens(src: Seq<char>) -> Seq<TokenView> {
    scan_from(src, 0)
}

/// The tokenizer: a cursor over the characters of the source text.
pub struct Lexer {
    pub source: Vec<char>,
    pub start: usize,
    pub current: usize,
    pub line: usize,
}

impl Lexer {
    /// The cursor lies within the source.
    pub open spec fn wf(self) -> bool {
        self.current <= self.source.len()
    }

    pub fn new(source: String) -> (r: Lexer)
        ensures
            r.source@ == source@,
            r.start == 0,
            r.current == 0,
            r.line == 1,
            r.wf(),
    {
        Lexer { source: chars_of(source.as_str()), start: 0, current: 0, line: 1 }
    }

    pub fn is_at_end(&self) -> (r: bool)
        ensures
            r == (self.current >= self.source.len()),
    {
        self.current >= self.source.len()
    }

    pub fn advance(&mut self) -> (c: char)
        requires
            old(self).wf(),
        ensures
            final(self).source == old(self).source,
            final(self).start == old(self).start,
            final(self).line == old(self).line,
            final(self).wf(),
            old(self).current < old(self).source.len() ==> c == old(self).source@[old(self).current as int] && final(self).current == old(self).current + 1,
            old(self).current >= old(self).source.len() ==> c == '\0' && final(self).current == old(self).current,
    {
        if self.is_at_end() {
            return '\0';
        }
        let c = self.source[self.current];
        self.current = self.current + 1;
        c
    }

    pub fn match_char(&mut self, expected: char) -> (r: bool)
        requires
            old(self).wf(),
        ensures
            final(self).source == old(self).source,
            final(self).start == old(self).start,
            final(self).line == old(self).line,
            final(self).wf(),
            r == (old(self).current < old(self).source.len() && old(self).source@[old(self).current as int] == expected),
            r ==> final(self).current == old(self).current + 1,
            !r ==> final(self).current == old(self).current,
    {
        if self.is_at_end() {
            return false;
        }
        if self.source[self.current] != expected {
            return false;
        }
        self.current = self.current + 1;
        true
    }

    pub fn peek(&self) -> (c: char)
        requires
            self.wf(),
        ensures
            self.current < self.source.len() ==> c == self.source@[self.current as int],
            self.current >= self.source.len() ==> c == '\0',
    {
        if self.is_at_end() {
            '\0'
        } else {
            self.source[self.current]
        }
    }

    pub fn peek_next(&self) -> (c: char)
        requires
            self.wf(),
        ensures
            self.current + 1 < self.source.len() ==> c == self.source@[self.current + 1],
            self.current + 1 >= self.source.len() ==> c == '\0',
    {
        if self.current >= self.source.len() {
            '\0'
        } else if self.current + 1 >= self.source.len() {
            '\0'
        } else {
            self.source[self.current + 1]
        }
    }

    /// A character that may start an identifier.
    pub fn is_alpha(&self, c: char) -> (r: bool)
        ensures
            r == (char_alphabetic(c) || c == '_'),
    {
        exec_char_alphabetic(c) || c == '_'
    }

    /// A character that may continue an identifier.
    pub fn is_alphanumeric(&self, c: char) -> (r: bool)
        ensures
            r == (char_alphanumeric(c) || c == '_'),
    {
        exec_char_alphanumeric(c) || c == '_'
    }
}

/// The string holding exactly the characters `src[a .. b]`.
fn chars_range_string(src: &Vec<char>, a: usize, b: usize) -> (r: String)
    requires
        a <= b && b <= src.len(),
    ensures
        r@ == src@.subrange(a as int, b as int),
{
    let mut v: Vec<char> = Vec::new();
    let mut j: usize = a;
    while j < b
        invariant
            a <= j <= b <= src.len(),
            v@ == src@.subrange(a as int, j as int),
        decreases b - j,
    {
        let c = src[j];
        v.push(c);
        j = j + 1;
        proof {
            assert(v@ =~= src@.subrange(a as int, j as int));
        }
    }
    string_from_chars(v.as_slice())
}

/// Whether the string is this exact keyword.
fn is_kw(text: &String, kw: &str) -> (r: bool)
    ensures
        r == (text@ == kw@),
{
    let k = String::from_str(kw);
    <String as PartialEq>::eq(text, &k)
}

/// A digit run's value never goes down as the run extends.
proof fn lemma_digits_val_extend(src: Seq<char>, i: int, n: nat, m: nat)
    requires
        n <= m,
        forall|j: int| i <= j < i + m ==> is_digit(#[trigger] src[j]),
    ensures
        0 <= digits_val(src, i, n) <= digits_val(src, i, m),
    decreases m,
{
    if m == 0 {
    } else if n == m {
        lemma_digits_val_extend(src, i, (n - 1) as nat, (m - 1) as nat);
    } else {
        lemma_digits_val_extend(src, i, n, (m - 1) as nat);
    }
}

/// A digit run's value stays under ten to the run's length.
proof fn lemma_digits_val_bound(src: Seq<char>, i: int, n: nat)
    requires
        forall|j: int| i <= j < i + n ==> is_digit(#[trigger] src[j]),
    ensures
        0 <= digits_val(src, i, n) < pow10(n),
    decreases n,
{
    if n > 0 {
        lemma_digits_val_bound(src, i, (n - 1) as nat);
    }
}

/// Ten to any power is positive and never goes down as the power grows.
proof fn lemma_pow10_mono(n: nat, m: nat)
    requires
        n <= m,
    ensures
        1 <= pow10(n) <= pow10(m),
    decreases m,
{
    if m > 0 {
        if n == m {
            lemma_pow10_mono((n - 1) as nat, (m - 1) as nat);
        } else {
            lemma_pow10_mono(n, (m - 1) as nat);
        }
    }
}

impl Lexer {
    /// Scan the rest of a string literal; the opening quote is consumed.
    #[verifier::loop_isolation(false)]
    fn string_lit(&mut self) -> (r: Token)
        requires
            old(self).wf(),
            old(self).current >= 1,
            old(self).start + 1 == old(self).current,
        ensures
            final(self).source == old(self).source,
            final(self).start == old(self).start,
            final(self).wf(),
            ({
                let src = old(self).source@;
                let i = old(self).current as int;
                let n = string_run_len(src, i);
                if i + n < src.len() {
                    r@ == TokenView::StringLiteral(src.subrange(i, i + n)) && final(self).current
                        == i + n + 1
                } else {
                    r@ == TokenView::Error(unterminated_string_msg()) && final(self).current == i
                        + n
                }
            }),
    {
        let ghost src = self.source@;
        let ghost i = self.current as int;
        while self.peek() != '"' && !self.is_at_end()
            invariant
                self.wf(),
                self.source == old(self).source,
                self.start == old(self).start,
                i <= self.current,
                string_run_len(src, i) == (self.current - i) + string_run_len(
                    src,
                    self.current as int,
                ),
            decreases self.source.len() - self.current,
        {
            let c = self.peek();
            if c == '\n' {
                self.line = if self.line == usize::MAX {
                    self.line
                } else {
                    self.line + 1
                };
            }
            proof {
                assert(string_run_len(src, self.current as int) == 1 + string_run_len(
                    src,
                    self.current + 1,
                ));
            }
            self.current = self.current + 1;
        }
        proof {
            assert(string_run_len(src, self.current as int) == 0);
        }
        let ghost n = string_run_len(src, i);
        if self.current >= self.source.len() {
            Token::Error(String::from_str("Unterminated string."))
        } else {
            self.current = self.current + 1;
            let text = chars_range_string(&self.source, (self.start + 1) as usize, self.current
                - 1);
            proof {
                assert(self.start + 1 == i);
            }
            Token::StringLiteral(text)
        }
    }
}


impl Lexer {
    /// Whether the character under the cursor is a digit.
    fn peek_is_digit(&self) -> (r: bool)
        requires
            self.wf(),
        ensures
            r == (self.current < self.source.len() && is_digit(
                self.source@[self.current as int],
            )),
    {
        if self.is_at_end() {
            false
        } else {
            let c = self.source[self.current];
            '0' <= c && c <= '9'
        }
    }

    /// Whether the character under the cursor may continue an identifier.
    fn peek_is_ident_char(&self) -> (r: bool)
        requires
            self.wf(),
        ensures
            r == (self.current < self.source.len() && (char_alphanumeric(
                self.source@[self.current as int],
            ) || self.source@[self.current as int] == '_')),
    {
        if self.is_at_end() {
            false
        } else {
            let c = self.source[self.current];
            exec_char_alphanumeric(c) || c == '_'
        }
    }

    /// Whether the character after the cursor is a digit.
    fn peek_next_is_digit(&self) -> (r: bool)
        requires
            self.wf(),
        ensures
            r == (self.current + 1 < self.source.len() && is_digit(
                self.source@[self.current + 1],
            )),
    {
        if self.current >= self.source.len() {
            false
        } else if self.current + 1 >= self.source.len() {
            false
        } else {
            let c = self.source[self.current + 1];
            '0' <= c && c <= '9'
        }
    }

    /// Scan a run of digits, accumulating its value; the flag comes back
    /// false when the value passes the 128-bit bound. The cursor ends on
    /// the first non-digit.
    #[verifier::loop_isolation(false)]
    fn digit_run(&mut self, acc0: u128, ok0: bool, from: Ghost<int>) -> (r: (u128, bool))
        requires
            old(self).wf(),
            from@ <= old(self).current,
            forall|j: int| from@ <= j < old(self).current ==> is_digit(
                #[trigger] old(self).source@[j],
            ),
            ok0 ==> acc0 == digits_val(old(self).source@, from@, (old(self).current - from@) as nat),
            !ok0 ==> digits_val(old(self).source@, from@, (old(self).current - from@) as nat)
                > u128::MAX,
        ensures
            final(self).source == old(self).source,
            final(self).start == old(self).start,
            final(self).line == old(self).line,
            final(self).wf(),
            final(self).current - old(self).current == digit_run_len(
                old(self).source@,
                old(self).current as int,
            ),
            forall|j: int| from@ <= j < final(self).current ==> is_digit(
                #[trigger] old(self).source@[j],
            ),
            r.1 ==> r.0 == digits_val(old(self).source@, from@, (final(self).current - from@) as nat),
            !r.1 ==> digits_val(old(self).source@, from@, (final(self).current - from@) as nat)
                > u128::MAX,
    {
        let ghost src = self.source@;
        let mut acc = acc0;
        let mut ok = ok0;
        while self.peek_is_digit()
            invariant
                self.wf(),
                self.source == old(self).source,
                self.start == old(self).start,
                self.line == old(self).line,
                from@ <= self.current,
                old(self).current <= self.current,
                forall|j: int| from@ <= j < self.current ==> is_digit(#[trigger] src[j]),
                digit_run_len(src, old(self).current as int) == (self.current - old(self).current) + digit_run_len(src, self.current as int),
                ok ==> acc == digits_val(src, from@, (self.current - from@) as nat),
                !ok ==> digits_val(src, from@, (self.current - from@) as nat) > u128::MAX,
                0 <= digits_val(src, from@, (self.current - from@) as nat),
            decreases self.source.len() - self.current,
        {
            let c = self.source[self.current];
            proof {
                assert(digit_run_len(src, self.current as int) == 1 + digit_run_len(
                    src,
                    self.current + 1,
                ));
                assert(digits_val(src, from@, (self.current + 1 - from@) as nat) == digits_val(
                    src,
                    from@,
                    (self.current - from@) as nat,
                ) * 10 + digit_of(src[self.current as int]));
            }
            self.current = self.current + 1;
            let d: u128 = ((c as u32) - 48) as u128;
            if ok {
                match acc.checked_mul(10) {
                    Option::Some(t1) => {
                        match t1.checked_add(d) {
                            Option::Some(t2) => {
                                acc = t2;
                            },
                            Option::None => {
                                ok = false;
                            },
                        }
                    },
                    Option::None => {
                        proof {
                            assert(acc * 10 + d > u128::MAX);
                        }
                        ok = false;
                    },
                }
            } else {
                proof {
                    let v = digits_val(src, from@, (self.current - 1 - from@) as nat);
                    assert(v * 10 >= v);
                }
            }
        }
        proof {
            assert(digit_run_len(src, self.current as int) == 0);
        }
        (acc, ok)
    }

    /// Scan the rest of a numeric literal; its first digit is consumed.
    #[verifier::loop_isolation(false)]
    fn number(&mut self) -> (r: Token)
        requires
            old(self).wf(),
            old(self).current >= 1,
            is_digit(old(self).source@[old(self).current - 1]),
        ensures
            final(self).source == old(self).source,
            final(self).start == old(self).start,
            final(self).wf(),
            ({
                let (t, k) = number_tok(old(self).source@, old(self).current - 1);
                r@ == t && final(self).current == old(self).current - 1 + k
            }),
    {
        let ghost src = self.source@;
        let ghost i = self.current - 1;
        let first = self.source[self.current - 1];
        let d0: u128 = ((first as u32) - 48) as u128;
        proof {
            assert(digits_val(src, i, 0nat) == 0);
            assert(digits_val(src, i, 1nat) == digit_of(src[i]));
        }
        let (whole, whole_ok) = self.digit_run(d0, true, Ghost(i));
        let ghost wl = (self.current - i) as nat;
        proof {
            assert(wl == 1 + digit_run_len(src, i + 1)) by {
                assert(digit_run_len(src, i + 1) == self.current - (i + 1));
            }
        }
        let ghost has_frac = i + wl < src.len() && src[i + wl] == '.' && i + wl + 1 < src.len()
            && is_digit(src[i + wl + 1]);
        let ghost fl: nat = if has_frac {
            digit_run_len(src, i + wl + 1)
        } else {
            0
        };
        let ghost ww = digits_val(src, i, wl);
        let ghost ff = digits_val(src, i + wl + 1, fl);
        let ghost dd = pow10(fl);
        let mut den: u128 = 1;
        let mut den_ok: bool = true;
        let mut frac: u128 = 0;
        if self.peek() == '.' && self.peek_next_is_digit() {
            proof {
                assert(has_frac);
            }
            self.current = self.current + 1;
            let ghost fstart = self.current as int;
            let mut fcount: usize = 0;
            proof {
                assert(fstart == i + wl + 1);
                assert(pow10(0nat) == 1);
                assert(digits_val(src, fstart, 0nat) == 0);
            }
            while self.peek_is_digit()
                invariant
                    self.wf(),
                    self.source == old(self).source,
                    self.start == old(self).start,
                    fstart <= self.current <= self.source.len(),
                    fcount == self.current - fstart,
                    forall|j: int| fstart <= j < self.current ==> is_digit(#[trigger] src[j]),
                    digit_run_len(src, fstart) == (self.current - fstart) + digit_run_len(
                        src,
                        self.current as int,
                    ),
                    den_ok ==> den == pow10(fcount as nat) && frac == digits_val(
                        src,
                        fstart,
                        fcount as nat,
                    ) && frac < den,
                    !den_ok ==> pow10(fcount as nat) > u128::MAX,
                    1 <= pow10(fcount as nat),
                    0 <= digits_val(src, fstart, fcount as nat),
                decreases self.source.len() - self.current,
            {
                let c = self.source[self.current];
                proof {
                    assert(digit_run_len(src, self.current as int) == 1 + digit_run_len(
                        src,
                        self.current + 1,
                    ));
                    assert(digits_val(src, fstart, (fcount + 1) as nat) == digits_val(
                        src,
                        fstart,
                        fcount as nat,
                    ) * 10 + digit_of(src[self.current as int]));
                    assert(pow10((fcount + 1) as nat) == 10 * pow10(fcount as nat));
                }
                self.current = self.current + 1;
                let d: u128 = ((c as u32) - 48) as u128;
                if den_ok {
                    match den.checked_mul(10) {
                        Option::Some(nd) => {
                            den = nd;
                            frac = frac * 10 + d;
                        },
                        Option::None => {
                            den_ok = false;
                        },
                    }
                }
                fcount = fcount + 1;
            }
            proof {
                assert(digit_run_len(src, self.current as int) == 0);
                assert(fcount == fl);
                assert(self.current == i + wl + 1 + fl);
            }
        } else {
            proof {
                assert(!has_frac);
                assert(pow10(0nat) == 1);
                assert(digits_val(src, i + wl + 1, 0nat) == 0);
            }
        }
        let ghost numer = ww * dd + ff;
        let ghost k: nat = if has_frac {
            (wl + 1 + fl) as nat
        } else {
            wl
        };
        proof {
            assert(number_tok(src, i) == (
                if dd > u128::MAX as int {
                    TokenView::Error(number_range_msg())
                } else {
                    match rat_make(false, numer, dd) {
                        Option::Some(q) => TokenView::Number(q),
                        Option::None => TokenView::Error(number_range_msg()),
                    }
                },
                k,
            ));
            assert(self.current == i + k);
            assert(den_ok ==> den == dd && frac == ff);
            assert(!den_ok ==> dd > u128::MAX);
            assert(0 <= ww && 0 <= ff && 1 <= dd);
            assert(ww * dd >= ww && ww * dd >= 0) by (nonlinear_arith)
                requires
                    0 <= ww,
                    1 <= dd,
            ;
        }
        if !whole_ok || !den_ok {
            proof {
                if den_ok {
                    assert(ww > u128::MAX);
                    assert(numer > u128::MAX as int);
                    assert(rat_make(false, numer, dd) is None);
                }
            }
            number_range_error(Ghost(src), Ghost(i))
        } else {
            match whole.checked_mul(den) {
                Option::Some(wd) => {
                    match wd.checked_add(frac) {
                        Option::Some(nval) => {
                            proof {
                                assert(nval == numer);
                            }
                            match normalize(false, nval, den) {
                                Option::Some(q) => Token::Number(q),
                                Option::None => number_range_error(Ghost(src), Ghost(i)),
                            }
                        },
                        Option::None => {
                            proof {
                                assert(numer > u128::MAX as int);
                                assert(rat_make(false, numer, dd) is None);
                            }
                            number_range_error(Ghost(src), Ghost(i))
                        },
                    }
                },
                Option::None => {
                    proof {
                        assert(ww * dd > u128::MAX as int);
                        assert(numer > u128::MAX as int);
                        assert(rat_make(false, numer, dd) is None);
                    }
                    number_range_error(Ghost(src), Ghost(i))
                },
            }
        }
    }
}

/// The error token for a numeric literal beyond the machine bounds.
fn number_range_error(src: Ghost<Seq<char>>, i: Ghost<int>) -> (r: Token)
    ensures
        r@ == TokenView::Error(number_range_msg()),
{
    Token::Error(String::from_str("Number literal out of range."))
}


/// An unterminated block comment runs to the end of the input.
proof fn lemma_block_comment_unterminated(src: Seq<char>, i: int)
    requires
        0 <= i <= src.len(),
        !block_comment_terminated(src, i),
    ensures
        block_comment_len(src, i) == src.len() - i,
    decreases src.len() - i,
{
    if i < src.len() {
        lemma_block_comment_unterminated(src, i + 1);
    }
}

/// The error token for a character no rule admits.
fn unexpected_char_error(c: char) -> (r: Token)
    ensures
        r@ == TokenView::Error(unexpected_char_msg(c)),
{
    let mut v = chars_of("Unexpected character '");
    v.push(c);
    v.push('\'');
    proof {
        reveal_strlit("'");
        assert(v@ =~= "Unexpected character '"@ + seq![c] + "'"@);
    }
    Token::Error(string_from_chars(v.as_slice()))
}

impl Lexer {
    /// Scan an identifier or keyword; its first character is consumed.
    #[verifier::loop_isolation(false)]
    fn identifier(&mut self) -> (r: Token)
        requires
            old(self).wf(),
            old(self).current >= 1,
            old(self).start + 1 == old(self).current,
        ensures
            final(self).source == old(self).source,
            final(self).start == old(self).start,
            final(self).wf(),
            ({
                let (t, k) = ident_tok(old(self).source@, old(self).current - 1);
                r@ == t && final(self).current == old(self).current - 1 + k
            }),
    {
        let ghost src = self.source@;
        let ghost i = self.current - 1;
        while self.peek_is_ident_char()
            invariant
                self.wf(),
                self.source == old(self).source,
                self.start == old(self).start,
                self.line == old(self).line,
                i + 1 <= self.current <= self.source.len(),
                ident_run_len(src, i + 1) == (self.current - (i + 1)) + ident_run_len(
                    src,
                    self.current as int,
                ),
            decreases self.source.len() - self.current,
        {
            proof {
                assert(ident_run_len(src, self.current as int) == 1 + ident_run_len(
                    src,
                    self.current + 1,
                ));
            }
            self.current = self.current + 1;
        }
        proof {
            assert(ident_run_len(src, self.current as int) == 0);
        }
        let text = chars_range_string(&self.source, self.start, self.current);
        if is_kw(&text, "and") {
            Token::And
        } else if is_kw(&text, "or") {
            Token::Or
        } else if is_kw(&text, "if") {
            Token::If
        } else if is_kw(&text, "else") {
            Token::Else
        } else if is_kw(&text, "true") {
            Token::True
        } else if is_kw(&text, "false") {
            Token::False
        } else if is_kw(&text, "nil") {
            Token::Nil
        } else if is_kw(&text, "let") {
            Token::Let
        } else if is_kw(&text, "const") {
            Token::Const
        } else if is_kw(&text, "func") {
            Token::Func
        } else if is_kw(&text, "return") {
            Token::Return
        } else if is_kw(&text, "for") {
            Token::For
        } else if is_kw(&text, "while") {
            Token::While
        } else if is_kw(&text, "print") {
            Token::Print
        } else if is_kw(&text, "pub") {
            Token::Pub
        } else if is_kw(&text, "sym") {
            Token::Sym
        } else if is_kw(&text, "module") {
            Token::Module
        } else if is_kw(&text, "import") {
            Token::Import
        } else if is_kw(&text, "some") {
            Token::SomeKw
        } else if is_kw(&text, "not") {
            Token::Not
        } else {
            Token::Identifier(text)
        }
    }

    /// Scan the rest of a line comment: everything up to the next newline
    /// or the end of input, excluded.
    #[verifier::loop_isolation(false)]
    fn line_comment_text(&mut self) -> (r: Token)
        requires
            old(self).wf(),
        ensures
            final(self).source == old(self).source,
            final(self).start == old(self).start,
            final(self).wf(),
            ({
                let cur0 = old(self).current as int;
                let n = line_comment_len(old(self).source@, cur0);
                &&& r@ == TokenView::Comment(old(self).source@.subrange(cur0, cur0 + n))
                &&& final(self).current == cur0 + n
            }),
    {
        let ghost src = self.source@;
        let c0 = self.current;
        while self.peek() != '\n' && !self.is_at_end()
            invariant
                self.wf(),
                self.source == old(self).source,
                self.start == old(self).start,
                c0 <= self.current <= self.source.len(),
                line_comment_len(src, c0 as int) == (self.current - c0) + line_comment_len(
                    src,
                    self.current as int,
                ),
            decreases self.source.len() - self.current,
        {
            proof {
                assert(line_comment_len(src, self.current as int) == 1 + line_comment_len(
                    src,
                    self.current + 1,
                ));
            }
            self.current = self.current + 1;
        }
        proof {
            assert(line_comment_len(src, self.current as int) == 0);
        }
        let text = chars_range_string(&self.source, c0, self.current);
        Token::Comment(text)
    }

    /// Scan the rest of a block comment; the opening `/*` is consumed.
    /// An unterminated block comment yields its partial text, or nothing
    /// when it is empty.
    #[verifier::loop_isolation(false)]
    fn consume_block_comment(&mut self) -> (r: Option<Token>)
        requires
            old(self).wf(),
        ensures
            final(self).source == old(self).source,
            final(self).start == old(self).start,
            final(self).wf(),
            ({
                let src = old(self).source@;
                let cur0 = old(self).current as int;
                let n = block_comment_len(src, cur0);
                if block_comment_terminated(src, cur0) {
                    r is Some && r.unwrap()@ == TokenView::Comment(
                        src.subrange(cur0, cur0 + n - 2),
                    ) && final(self).current == cur0 + n
                } else if n == 0 {
                    r is None && final(self).current == cur0
                } else {
                    r is Some && r.unwrap()@ == TokenView::Comment(
                        src.subrange(cur0, src.len() as int),
                    ) && final(self).current == src.len()
                }
            }),
    {
        let ghost src = self.source@;
        let c0 = self.current;
        loop
            invariant
                self.wf(),
                self.source == old(self).source,
                self.start == old(self).start,
                c0 <= self.current <= self.source.len(),
                block_comment_len(src, c0 as int) == (self.current - c0) + block_comment_len(
                    src,
                    self.current as int,
                ),
                block_comment_terminated(src, c0 as int) == block_comment_terminated(
                    src,
                    self.current as int,
                ),
            decreases self.source.len() - self.current,
        {
            if self.is_at_end() {
                proof {
                    assert(block_comment_len(src, self.current as int) == 0);
                    assert(!block_comment_terminated(src, self.current as int));
                }
                if self.current == c0 {
                    return Option::None;
                }
                let text = chars_range_string(&self.source, c0, self.current);
                return Option::Some(Token::Comment(text));
            }
            let c = self.peek();
            if c == '*' && self.peek_next() == '/' {
                proof {
                    assert(self.current + 1 < self.source.len());
                    assert(block_comment_len(src, self.current as int) == 2);
                    assert(block_comment_terminated(src, self.current as int));
                }
                let text = chars_range_string(&self.source, c0, self.current);
                self.current = self.current + 2;
                return Option::Some(Token::Comment(text));
            }
            if c == '\n' {
                self.line = if self.line == usize::MAX {
                    self.line
                } else {
                    self.line + 1
                };
            }
            proof {
                assert(block_comment_len(src, self.current as int) == 1 + block_comment_len(
                    src,
                    self.current + 1,
                ));
                assert(block_comment_terminated(src, self.current as int)
                    == block_comment_terminated(src, self.current + 1));
            }
            self.current = self.current + 1;
        }
    }

    /// Scan one token at the cursor: the token produced, or nothing for
    /// dropped whitespace. The cursor always moves forward.
    #[verifier::rlimit(60)]
    pub fn scan_token(&mut self) -> (r: Option<Token>)
        requires
            old(self).wf(),
            old(self).current < old(self).source.len(),
            old(self).start == old(self).current,
        ensures
            final(self).source == old(self).source,
            final(self).start == old(self).start,
            final(self).wf(),
            final(self).current > old(self).current,
            ({
                let (t, k) = scan_tok(old(self).source@, old(self).current as int);
                &&& final(self).current == old(self).current + k
                &&& match (r, t) {
                    (Option::Some(tok), Option::Some(tv)) => tok@ == tv,
                    (Option::None, Option::None) => true,
                    _ => false,
                }
            }),
    {
        let ghost src = self.source@;
        let ghost i = self.current as int;
        let c = self.advance();
        if c == '(' {
            Option::Some(Token::LeftParen)
        } else if c == ')' {
            Option::Some(Token::RightParen)
        } else if c == '{' {
            Option::Some(Token::LeftBrace)
        } else if c == '}' {
            Option::Some(Token::RightBrace)
        } else if c == ',' {
            Option::Some(Token::Comma)
        } else if c == '.' {
            Option::Some(Token::Dot)
        } else if c == '-' {
            Option::Some(Token::Minus)
        } else if c == '+' {
            Option::Some(Token::Plus)
        } else if c == ';' {
            Option::Some(Token::Semicolon)
        } else if c == '*' {
            Option::Some(Token::Star)
        } else if c == '%' {
            Option::Some(Token::Percent)
        } else if c == '~' {
            if self.match_char('=') {
                Option::Some(Token::TildeEqual)
            } else {
                Option::Some(Token::Tilde)
            }
        } else if c == '/' {
            if self.match_char('/') {
                let t = self.line_comment_text();
                proof {
                    assert(self.current == i + scan_tok(src, i).1);
                    assert(scan_tok(src, i).0 == Option::Some(t@));
                }
                Option::Some(t)
            } else if self.match_char('*') {
                let t = self.consume_block_comment();
                proof {
                    let n = block_comment_len(src, i + 2);
                    let term = block_comment_terminated(src, i + 2);
                    assert(src[i] == '/');
                    assert(i + 1 < src.len() && src[i + 1] == '*');
                    if term {
                        assert(self.current == i + 2 + n);
                        assert(scan_tok(src, i).1 == (2 + n) as nat);
                    } else if n == 0 {
                        assert(self.current == i + 2);
                        assert(scan_tok(src, i).1 == 2);
                    } else {
                        lemma_block_comment_unterminated(src, i + 2);
                        assert(self.current == src.len());
                        assert(self.current == i + 2 + n);
                        assert(scan_tok(src, i).1 == (2 + n) as nat);
                    }
                }
                t
            } else {
                Option::Some(Token::Slash)
            }
        } else if c == '#' {
            Option::Some(self.line_comment_text())
        } else if c == '!' {
            if self.match_char('=') {
                Option::Some(Token::BangEqual)
            } else {
                Option::Some(unexpected_char_error(c))
            }
        } else if c == '=' {
            if self.match_char('=') {
                Option::Some(Token::EqualEqual)
            } else {
                Option::Some(Token::Equal)
            }
        } else if c == '<' {
            if self.match_char('=') {
                Option::Some(Token::LessEqual)
            } else {
                Option::Some(Token::Less)
            }
        } else if c == '>' {
            if self.match_char('=') {
                Option::Some(Token::GreaterEqual)
            } else {
                Option::Some(Token::Greater)
            }
        } else if c == ' ' || c == '\r' || c == '\t' {
            Option::None
        } else if c == '\n' {
            self.line = if self.line == usize::MAX {
                self.line
            } else {
                self.line + 1
            };
            Option::None
        } else if c == '"' {
            let t = self.string_lit();
            proof {
                assert(self.current == i + scan_tok(src, i).1);
                assert(scan_tok(src, i).0 == Option::Some(t@));
            }
            Option::Some(t)
        } else if '0' <= c && c <= '9' {
            let t = self.number();
            proof {
                assert(self.current == i + scan_tok(src, i).1);
                assert(scan_tok(src, i).0 == Option::Some(t@));
            }
            Option::Some(t)
        } else if self.is_alpha(c) {
            let t = self.identifier();
            proof {
                assert(self.current == i + scan_tok(src, i).1);
                assert(scan_tok(src, i).0 == Option::Some(t@));
            }
            Option::Some(t)
        } else {
            Option::Some(unexpected_char_error(c))
        }
    }

    /// Scan the whole source: the token sequence that `spec_tokens` (via
    /// `scan_from`) assigns to it, always closed by the end-of-input
    /// marker, with scanning stopped at the first error token.
    #[verifier::loop_isolation(false)]
    pub fn scan_tokens(&mut self) -> (tokens: Vec<Token>)
        requires
            old(self).wf(),
        ensures
            final(self).source == old(self).source,
            toks_view(tokens@) == scan_from(old(self).source@, old(self).current as int),
    {
        let ghost src = self.source@;
        let ghost i0 = self.current as int;
        let mut tokens: Vec<Token> = Vec::new();
        let mut stopped = false;
        while !stopped && !self.is_at_end()
            invariant
                self.wf(),
                self.source == old(self).source,
                !stopped ==> scan_from(src, i0) == toks_view(tokens@) + scan_from(
                    src,
                    self.current as int,
                ),
                stopped ==> scan_from(src, i0) == toks_view(tokens@).push(TokenView::EOF),
            decreases
                    (if stopped {
                        0int
                    } else {
                        1int
                    }),
                    self.source.len() - self.current,
        {
            self.start = self.current;
            let ghost cur_before = self.current as int;
            let tok_opt = self.scan_token();
            proof {
                assert(scan_from(src, cur_before) == {
                    let (t, k) = scan_tok(src, cur_before);
                    match t {
                        Option::None => scan_from(src, cur_before + k),
                        Option::Some(tok) => {
                            if tok is Error {
                                seq![tok, TokenView::EOF]
                            } else {
                                seq![tok] + scan_from(src, cur_before + k)
                            }
                        },
                    }
                });
            }
            match tok_opt {
                Option::Some(tok) => {
                    let is_err = matches!(tok, Token::Error(_));
                    proof {
                        assert(toks_view(tokens@.push(tok)) =~= toks_view(tokens@).push(tok@));
                    }
                    tokens.push(tok);
                    if is_err {
                        stopped = true;
                        proof {
                            assert(scan_from(src, i0) =~= toks_view(tokens@).push(TokenView::EOF));
                        }
                    }
                },
                Option::None => {},
            }
        }
        proof {
            if !stopped {
                assert(scan_from(src, self.current as int) =~= seq![TokenView::EOF]);
            }
        }
        proof {
            assert(toks_view(tokens@.push(Token::EOF)) =~= toks_view(tokens@).push(TokenView::EOF));
        }
        tokens.push(Token::EOF);
        proof {
            assert(toks_view(tokens@) =~= scan_from(src, i0));
        }
        tokens
    }
}


/// The token that one punctuation character forms on its own, where there
/// is one. `!` is absent: alone it is a lexical error.
pub open spec fn punct_token(c: char) -> Option<TokenView> {
    if c == '(' {
        Some(TokenView::LeftParen)
    } else if c == ')' {
        Some(TokenView::RightParen)
    } else if c == '{' {
        Some(TokenView::LeftBrace)
    } else if c == '}' {
        Some(TokenView::RightBrace)
    } else if c == ',' {
        Some(TokenView::Comma)
    } else if c == '.' {
        Some(TokenView::Dot)
    } else if c == '-' {
        Some(TokenView::Minus)
    } else if c == '+' {
        Some(TokenView::Plus)
    } else if c == ';' {
        Some(TokenView::Semicolon)
    } else if c == '*' {
        Some(TokenView::Star)
    } else if c == '%' {
        Some(TokenView::Percent)
    } else if c == '~' {
        Some(TokenView::Tilde)
    } else if c == '/' {
        Some(TokenView::Slash)
    } else if c == '=' {
        Some(TokenView::Equal)
    } else if c == '<' {
        Some(TokenView::Less)
    } else if c == '>' {
        Some(TokenView::Greater)
    } else {
        None
    }
}

/// Law: tokenizing a source that holds one punctuation character yields
/// exactly the corresponding token, immediately followed by the
/// end-of-input marker.
pub proof fn lemma_single_punctuation(c: char)
    requires
        punct_token(c) is Some,
    ensures
        spec_tokens(seq![c]) == seq![punct_token(c).unwrap(), TokenView::EOF],
{
    let s = seq![c];
    assert(s.len() == 1 && s[0] == c);
    assert(scan_from(s, 1) == seq![TokenView::EOF]);
    assert(scan_tok(s, 0) == (Some(punct_token(c).unwrap()), 1nat));
    assert(scan_from(s, 0) == seq![punct_token(c).unwrap()] + scan_from(s, 1));
    assert(seq![punct_token(c).unwrap()] + seq![TokenView::EOF] =~= seq![
        punct_token(c).unwrap(),
        TokenView::EOF,
    ]);
}

/// The two-character operator token that `c` forms with a following `=`.
pub open spec fn two_char_token(c: char) -> TokenView {
    if c == '!' {
        TokenView::BangEqual
    } else if c == '=' {
        TokenView::EqualEqual
    } else if c == '<' {
        TokenView::LessEqual
    } else {
        TokenView::GreaterEqual
    }
}

/// The token that `c` forms when no `=` follows: the one-character
/// operator, or a lexical error for `!`.
pub open spec fn one_char_or_error(c: char) -> TokenView {
    if c == '!' {
        TokenView::Error(unexpected_char_msg('!'))
    } else if c == '=' {
        TokenView::Equal
    } else if c == '<' {
        TokenView::Less
    } else {
        TokenView::Greater
    }
}

/// Law: on the prefixes `! = < >` the tokenizer prefers the two-character
/// operator whenever the next character is `=`, and otherwise falls back
/// to the one-character form, or to an error for `!`.
pub proof fn lemma_two_char_preference(src: Seq<char>)
    requires
        src.len() >= 1,
        src[0] == '!' || src[0] == '=' || src[0] == '<' || src[0] == '>',
    ensures
        (src.len() >= 2 && src[1] == '=') ==> scan_tok(src, 0) == (
            Some(two_char_token(src[0])),
            2nat,
        ),
        !(src.len() >= 2 && src[1] == '=') ==> scan_tok(src, 0) == (
            Some(one_char_or_error(src[0])),
            1nat,
        ),
{
}

} // verus!
