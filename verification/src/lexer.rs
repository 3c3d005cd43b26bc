use vstd::prelude::*;

use crate::token::{Token, TokenS};

verus! {

// ---------------------------------------------------------------------------
// Character classes
// ---------------------------------------------------------------------------

/// The character at position `i`, with a NUL sentinel past either end.
pub open spec fn char_at(s: Seq<char>, i: int) -> char {
    if 0 <= i < s.len() {
        s[i]
    } else {
        '\0'
    }
}

pub open spec fn is_letter_spec(c: char) -> bool {
    ('a' as u32 <= c as u32 && c as u32 <= 'z' as u32) || ('A' as u32 <= c as u32 && c as u32
        <= 'Z' as u32)
}

pub open spec fn is_digit_spec(c: char) -> bool {
    '0' as u32 <= c as u32 && c as u32 <= '9' as u32
}

pub open spec fn is_ws_spec(c: char) -> bool {
    c == ' ' || c == '\t'
}

/// The numeric value of a digit character.
pub open spec fn digit_val(c: char) -> int {
    c as u32 - '0' as u32
}

/// The value of a run of decimal digits, most significant first.
pub open spec fn digits_val(s: Seq<char>) -> int
    decreases s.len(),
{
    if s.len() == 0 {
        0
    } else {
        digits_val(s.drop_last()) * 10 + digit_val(s.last())
    }
}

// ---------------------------------------------------------------------------
// Maximal-munch scanning, as positions in the input
// ---------------------------------------------------------------------------

/// First position at or after `i` that does not hold a space or tab.
pub open spec fn skip_ws_spec(s: Seq<char>, i: int) -> int
    decreases s.len() - i,
{
    if i < s.len() && is_ws_spec(char_at(s, i)) {
        skip_ws_spec(s, i + 1)
    } else {
        i
    }
}

/// End of the maximal run of alphabetic characters starting at `i`.
pub open spec fn ident_end_spec(s: Seq<char>, i: int) -> int
    decreases s.len() - i,
{
    if i < s.len() && is_letter_spec(char_at(s, i)) {
        ident_end_spec(s, i + 1)
    } else {
        i
    }
}

/// End of the maximal run of digit characters starting at `i`.
pub open spec fn number_end_spec(s: Seq<char>, i: int) -> int
    decreases s.len() - i,
{
    if i < s.len() && is_digit_spec(char_at(s, i)) {
        number_end_spec(s, i + 1)
    } else {
        i
    }
}

/// Position of the closing quote at or after `i`, or the end of the input
/// if the string literal is unterminated.
pub open spec fn str_end_spec(s: Seq<char>, i: int) -> int
    decreases s.len() - i,
{
    if i < s.len() && char_at(s, i) != '"' {
        str_end_spec(s, i + 1)
    } else {
        i
    }
}

// ---------------------------------------------------------------------------
// Tokens, as a function of the input text
// ---------------------------------------------------------------------------

/// The token for a maximal alphabetic run: a keyword if the run is one of
/// the fixed keyword spellings, an identifier otherwise.
pub open spec fn ident_token_spec(seg: Seq<char>) -> TokenS {
    if seg == "func"@ {
        TokenS::Func
    } else if seg == "var"@ {
        TokenS::Var
    } else if seg == "true"@ {
        TokenS::Bool(true)
    } else if seg == "false"@ {
        TokenS::Bool(false)
    } else if seg == "return"@ {
        TokenS::Return
    } else if seg == "if"@ {
        TokenS::If
    } else if seg == "else"@ {
        TokenS::Else
    } else {
        TokenS::Ident(seg)
    }
}

/// What one call of `next_token` scans when the cursor stands at `pos`:
/// the token produced and the cursor position after it.  Whitespace is
/// skipped first; an integer literal whose value does not fit in `i64`
/// is an `Illegal` token; a string literal runs to the next quote or to
/// the end of the input; a NUL character or the end of the input gives
/// `EOF`; any other unrecognized character gives `Illegal`.
pub open spec fn spec_next_token(s: Seq<char>, pos: int) -> (TokenS, int) {
    let i = skip_ws_spec(s, pos);
    let c = char_at(s, i);
    if c == '=' {
        if char_at(s, i + 1) == '=' {
            (TokenS::EQ, i + 2)
        } else {
            (TokenS::Assign, i + 1)
        }
    } else if c == '!' {
        if char_at(s, i + 1) == '=' {
            (TokenS::NotEQ, i + 2)
        } else {
            (TokenS::Illegal, i + 1)
        }
    } else if c == '+' {
        (TokenS::Plus, i + 1)
    } else if c == '-' {
        (TokenS::Minus, i + 1)
    } else if c == '*' {
        (TokenS::Star, i + 1)
    } else if c == '/' {
        (TokenS::Slash, i + 1)
    } else if c == '>' {
        (TokenS::GT, i + 1)
    } else if c == '<' {
        (TokenS::LT, i + 1)
    } else if c == '\n' {
        (TokenS::NewLine, i + 1)
    } else if c == '(' {
        (TokenS::LPAREN, i + 1)
    } else if c == ')' {
        (TokenS::RPAREN, i + 1)
    } else if c == '{' {
        (TokenS::LBRACE, i + 1)
    } else if c == '}' {
        (TokenS::RBRACE, i + 1)
    } else if c == ',' {
        (TokenS::Comma, i + 1)
    } else if c == '[' {
        (TokenS::LBRACKET, i + 1)
    } else if c == ']' {
        (TokenS::RBRACKET, i + 1)
    } else if c == '"' {
        let j = str_end_spec(s, i + 1);
        (TokenS::StrLit(s.subrange(i + 1, j)), if j < s.len() {
            j + 1
        } else {
            j
        })
    } else if c == '\0' {
        (TokenS::EOF, if i < s.len() {
            i + 1
        } else {
            i
        })
    } else if is_letter_spec(c) {
        let j = ident_end_spec(s, i);
        (ident_token_spec(s.subrange(i, j)), j)
    } else if is_digit_spec(c) {
        let j = number_end_spec(s, i);
        let v = digits_val(s.subrange(i, j));
        (if v <= i64::MAX {
            TokenS::Int(v)
        } else {
            TokenS::Illegal
        }, j)
    } else {
        (TokenS::Illegal, i + 1)
    }
}

// ---------------------------------------------------------------------------
// Bounds of the scanning functions
// ---------------------------------------------------------------------------

proof fn lemma_skip_ws_bounds(s: Seq<char>, i: int)
    requires
        0 <= i <= s.len(),
    ensures
        i <= skip_ws_spec(s, i) <= s.len(),
    decreases s.len() - i,
{
    if i < s.len() && is_ws_spec(char_at(s, i)) {
        lemma_skip_ws_bounds(s, i + 1);
    }
}

proof fn lemma_ident_end_bounds(s: Seq<char>, i: int)
    requires
        0 <= i <= s.len(),
    ensures
        i <= ident_end_spec(s, i) <= s.len(),
    decreases s.len() - i,
{
    if i < s.len() && is_letter_spec(char_at(s, i)) {
        lemma_ident_end_bounds(s, i + 1);
    }
}

proof fn lemma_number_end_bounds(s: Seq<char>, i: int)
    requires
        0 <= i <= s.len(),
    ensures
        i <= number_end_spec(s, i) <= s.len(),
    decreases s.len() - i,
{
    if i < s.len() && is_digit_spec(char_at(s, i)) {
        lemma_number_end_bounds(s, i + 1);
    }
}

proof fn lemma_str_end_bounds(s: Seq<char>, i: int)
    requires
        0 <= i <= s.len(),
    ensures
        i <= str_end_spec(s, i) <= s.len(),
    decreases s.len() - i,
{
    if i < s.len() && char_at(s, i) != '"' {
        lemma_str_end_bounds(s, i + 1);
    }
}

/// One scanned token never reaches past the end of the input, and any
/// token but `EOF` consumes at least one character.
pub proof fn lemma_scan_bounds(s: Seq<char>, pos: int)
    requires
        0 <= pos <= s.len(),
    ensures
        pos <= spec_next_token(s, pos).1 <= s.len(),
        spec_next_token(s, pos).0 != TokenS::EOF ==> pos < spec_next_token(s, pos).1,
{
    lemma_skip_ws_bounds(s, pos);
    let i = skip_ws_spec(s, pos);
    let c = char_at(s, i);
    if c == '"' {
        lemma_str_end_bounds(s, i + 1);
    } else if c == '=' || c == '!' || c == '+' || c == '-' || c == '*' || c == '/' || c == '>' || c
        == '<' || c == '\n' || c == '(' || c == ')' || c == '{' || c == '}' || c == ',' || c == '['
        || c == ']' || c == '\0' {
    } else if is_letter_spec(c) {
        lemma_ident_end_bounds(s, i + 1);
        assert(ident_end_spec(s, i) == ident_end_spec(s, i + 1));
    } else if is_digit_spec(c) {
        lemma_number_end_bounds(s, i + 1);
        assert(number_end_spec(s, i) == number_end_spec(s, i + 1));
    }
}

/// Every character of a maximal digit run is a digit.
proof fn lemma_number_digits(s: Seq<char>, i: int)
    requires
        0 <= i <= s.len(),
    ensures
        forall|k: int| i <= k < number_end_spec(s, i) ==> is_digit_spec(#[trigger] char_at(s, k)),
    decreases s.len() - i,
{
    if i < s.len() && is_digit_spec(char_at(s, i)) {
        lemma_number_digits(s, i + 1);
    }
}

/// The value of a digit run is never negative.
proof fn lemma_digits_val_nonneg(s: Seq<char>)
    requires
        forall|k: int| 0 <= k < s.len() ==> is_digit_spec(#[trigger] s[k]),
    ensures
        digits_val(s) >= 0,
    decreases s.len(),
{
    if s.len() > 0 {
        lemma_digits_val_nonneg(s.drop_last());
    }
}

// ---------------------------------------------------------------------------
// The scanner
// ---------------------------------------------------------------------------

/// A cursor over the source text.  `next_token` hands out one token per
/// call and never reads past the end of the input.
pub struct Lexer {
    input: String,
    len: usize,
    pos: usize,
}

impl Lexer {
    /// The source text being scanned.
    pub closed spec fn text(&self) -> Seq<char> {
        self.input@
    }

    /// The cursor: the index of the next character to examine.
    pub closed spec fn at(&self) -> int {
        self.pos as int
    }

    pub closed spec fn wf(&self) -> bool {
        self.len == self.input@.len() && self.pos <= self.len
    }

    /// A well-formed scanner's cursor stands inside its text.
    pub proof fn lemma_wf_bounds(&self)
        requires
            self.wf(),
        ensures
            0 <= self.at() <= self.text().len(),
    {
    }

    pub fn new(input: String) -> (r: Lexer)
        ensures
            r.wf(),
            r.text() == input@,
            r.at() == 0,
    {
        let len = input.as_str().unicode_len();
        Lexer { input, len, pos: 0 }
    }

    /// The character under the cursor, with a NUL sentinel at the end.
    fn cur(&self) -> (c: char)
        requires
            self.wf(),
        ensures
            c == char_at(self.text(), self.at()),
    {
        if self.pos < self.len {
            self.input.as_str().get_char(self.pos)
        } else {
            '\0'
        }
    }

    /// Step the cursor one character forward, if any characters remain.
    pub fn read_char(&mut self)
        requires
            old(self).wf(),
        ensures
            final(self).wf(),
            final(self).text() == old(self).text(),
            final(self).at() == if old(self).at() < old(self).text().len() {
                old(self).at() + 1
            } else {
                old(self).at()
            },
    {
        if self.pos < self.len {
            self.pos = self.pos + 1;
        }
    }

    fn skip_whitespace(&mut self)
        requires
            old(self).wf(),
        ensures
            final(self).wf(),
            final(self).text() == old(self).text(),
            final(self).at() == skip_ws_spec(old(self).text(), old(self).at()),
    {
        loop
            invariant
                self.wf(),
                self.text() == old(self).text(),
                old(self).at() <= self.at(),
                skip_ws_spec(self.text(), self.at()) == skip_ws_spec(
                    old(self).text(),
                    old(self).at(),
                ),
            decreases self.len - self.pos,
        {
            let c = self.cur();
            if self.pos < self.len && (c == ' ' || c == '\t') {
                self.pos = self.pos + 1;
            } else {
                return ;
            }
        }
    }

    /// Scan the maximal alphabetic run under the cursor and return its text.
    fn read_ident(&mut self) -> (r: String)
        requires
            old(self).wf(),
        ensures
            final(self).wf(),
            final(self).text() == old(self).text(),
            final(self).at() == ident_end_spec(old(self).text(), old(self).at()),
            old(self).at() <= final(self).at(),
            r@ == old(self).text().subrange(old(self).at(), final(self).at()),
    {
        let start = self.pos;
        loop
            invariant
                self.wf(),
                self.text() == old(self).text(),
                start == old(self).pos,
                start <= self.pos,
                ident_end_spec(self.text(), self.at()) == ident_end_spec(
                    old(self).text(),
                    old(self).at(),
                ),
            ensures
                self.wf(),
                self.text() == old(self).text(),
                start == old(self).pos,
                start <= self.pos,
                self.at() == ident_end_spec(old(self).text(), old(self).at()),
            decreases self.len - self.pos,
        {
            let c = self.cur();
            if self.pos < self.len && is_char(c) {
                self.pos = self.pos + 1;
            } else {
                break ;
            }
        }
        let s = self.input.as_str().substring_char(start, self.pos);
        s.to_owned()
    }

    /// Scan the maximal digit run under the cursor; the run's value if it
    /// fits in an `i64`, nothing on overflow.
    fn read_number(&mut self) -> (r: Option<i64>)
        requires
            old(self).wf(),
        ensures
            final(self).wf(),
            final(self).text() == old(self).text(),
            final(self).at() == number_end_spec(old(self).text(), old(self).at()),
            old(self).at() <= final(self).at(),
            ({
                let v = digits_val(old(self).text().subrange(old(self).at(), final(self).at()));
                r == if v <= i64::MAX {
                    Some(v as i64)
                } else {
                    Option::<i64>::None
                }
            }),
    {
        let ghost s = old(self).text();
        let start = self.pos;
        let mut val: i64 = 0;
        let mut over: bool = false;
        loop
            invariant
                self.wf(),
                self.text() == s,
                start == old(self).pos,
                start <= self.pos,
                number_end_spec(s, self.at()) == number_end_spec(s, old(self).at()),
                forall|k: int|
                    start <= k < self.at() ==> is_digit_spec(#[trigger] char_at(s, k)),
                !over ==> val == digits_val(s.subrange(start as int, self.at())),
                over ==> digits_val(s.subrange(start as int, self.at())) > i64::MAX,
                val >= 0,
            ensures
                self.wf(),
                self.text() == s,
                start == old(self).pos,
                start <= self.pos,
                self.at() == number_end_spec(s, old(self).at()),
                !over ==> val == digits_val(s.subrange(start as int, self.at())),
                over ==> digits_val(s.subrange(start as int, self.at())) > i64::MAX,
            decreases self.len - self.pos,
        {
            let c = self.cur();
            if self.pos < self.len && is_digit(c) {
                let ghost pre = s.subrange(start as int, self.at());
                let d: u32 = (c as u32) - ('0' as u32);
                proof {
                    assert(s.subrange(start as int, self.at() + 1).drop_last() =~= pre);
                    assert(s.subrange(start as int, self.at() + 1).last() == c);
                    assert forall|k: int| 0 <= k < pre.len() implies is_digit_spec(
                        #[trigger] pre[k],
                    ) by {
                        assert(pre[k] == char_at(s, start + k));
                    }
                    lemma_digits_val_nonneg(pre);
                }
                if !over && (val < 922_337_203_685_477_580i64 || (val == 922_337_203_685_477_580i64
                    && d <= 7)) {
                    val = val * 10 + (d as i64);
                } else {
                    over = true;
                }
                self.pos = self.pos + 1;
            } else {
                break ;
            }
        }
        if over {
            Option::None
        } else {
            Option::Some(val)
        }
    }

    /// Scan the body of a string literal: the text strictly between the
    /// opening quote under the cursor and the next quote, read verbatim.
    /// An unterminated literal runs to the end of the input.
    fn read_str(&mut self) -> (r: String)
        requires
            old(self).wf(),
            char_at(old(self).text(), old(self).at()) == '"',
        ensures
            final(self).wf(),
            final(self).text() == old(self).text(),
            final(self).at() == str_end_spec(old(self).text(), old(self).at() + 1),
            old(self).at() < final(self).at() || old(self).at() + 1 == final(self).at(),
            old(self).at() + 1 <= final(self).at(),
            r@ == old(self).text().subrange(old(self).at() + 1, final(self).at()),
    {
        self.pos = self.pos + 1;
        let start = self.pos;
        loop
            invariant
                self.wf(),
                self.text() == old(self).text(),
                start == old(self).pos + 1,
                start <= self.pos,
                str_end_spec(self.text(), self.at()) == str_end_spec(
                    old(self).text(),
                    old(self).at() + 1,
                ),
            ensures
                self.wf(),
                self.text() == old(self).text(),
                start == old(self).pos + 1,
                start <= self.pos,
                self.at() == str_end_spec(old(self).text(), old(self).at() + 1),
            decreases self.len - self.pos,
        {
            let c = self.cur();
            if self.pos < self.len && c != '"' {
                self.pos = self.pos + 1;
            } else {
                break ;
            }
        }
        let s = self.input.as_str().substring_char(start, self.pos);
        s.to_owned()
    }

    /// Produce the next token and advance the cursor past it.
    pub fn next_token(&mut self) -> (r: Token)
        requires
            old(self).wf(),
        ensures
            final(self).wf(),
            final(self).text() == old(self).text(),
            (r@, final(self).at()) == spec_next_token(old(self).text(), old(self).at()),
            old(self).at() <= final(self).at() <= final(self).text().len(),
            r@ != TokenS::EOF ==> old(self).at() < final(self).at(),
    {
        let ghost s = old(self).text();
        let ghost p0 = old(self).at();
        self.skip_whitespace();
        proof {
            lemma_skip_ws_bounds(s, p0);
        }
        let ghost i = self.at();
        let c = self.cur();
        match c {
            '=' => {
                self.read_char();
                if self.cur() == '=' {
                    self.read_char();
                    Token::EQ
                } else {
                    Token::Assign
                }
            },
            '!' => {
                self.read_char();
                if self.cur() == '=' {
                    self.read_char();
                    Token::NotEQ
                } else {
                    Token::Illegal
                }
            },
            '+' => {
                self.read_char();
                Token::Plus
            },
            '-' => {
                self.read_char();
                Token::Minus
            },
            '*' => {
                self.read_char();
                Token::Star
            },
            '/' => {
                self.read_char();
                Token::Slash
            },
            '>' => {
                self.read_char();
                Token::GT
            },
            '<' => {
                self.read_char();
                Token::LT
            },
            '\n' => {
                self.read_char();
                Token::NewLine
            },
            '(' => {
                self.read_char();
                Token::LPAREN
            },
            ')' => {
                self.read_char();
                Token::RPAREN
            },
            '{' => {
                self.read_char();
                Token::LBRACE
            },
            '}' => {
                self.read_char();
                Token::RBRACE
            },
            ',' => {
                self.read_char();
                Token::Comma
            },
            '[' => {
                self.read_char();
                Token::LBRACKET
            },
            ']' => {
                self.read_char();
                Token::RBRACKET
            },
            '"' => {
                let body = self.read_str();
                proof {
                    lemma_str_end_bounds(s, i + 1);
                }
                self.read_char();
                Token::String(body)
            },
            '\0' => {
                self.read_char();
                Token::EOF
            },
            _ => {
                if is_char(c) {
                    let text = self.read_ident();
                    proof {
                        lemma_ident_end_bounds(s, i + 1);
                        assert(ident_end_spec(s, i) == ident_end_spec(s, i + 1));
                    }
                    keyword_or_ident(text)
                } else if is_digit(c) {
                    proof {
                        lemma_number_end_bounds(s, i + 1);
                        assert(number_end_spec(s, i) == number_end_spec(s, i + 1));
                        lemma_number_digits(s, i);
                        let seg = s.subrange(i, number_end_spec(s, i));
                        assert forall|k: int| 0 <= k < seg.len() implies is_digit_spec(
                            #[trigger] seg[k],
                        ) by {
                            assert(seg[k] == char_at(s, i + k));
                        }
                        lemma_digits_val_nonneg(seg);
                    }
                    match self.read_number() {
                        Option::Some(v) => Token::Int(v),
                        Option::None => Token::Illegal,
                    }
                } else {
                    self.read_char();
                    Token::Illegal
                }
            },
        }
    }
}

/// An alphabetic character, the only class identifiers and keywords use.
fn is_char(ch: char) -> (b: bool)
    ensures
        b == is_letter_spec(ch),
{
    let u = ch as u32;
    (('a' as u32) <= u && u <= ('z' as u32)) || (('A' as u32) <= u && u <= ('Z' as u32))
}

fn is_digit(ch: char) -> (b: bool)
    ensures
        b == is_digit_spec(ch),
{
    let u = ch as u32;
    ('0' as u32) <= u && u <= ('9' as u32)
}

/// Sort a scanned alphabetic run into the fixed keyword set, or wrap it
/// as an identifier.
fn keyword_or_ident(text: String) -> (t: Token)
    ensures
        t@ == ident_token_spec(text@),
{
    if text.eq(&String::from_str("func")) {
        Token::Func
    } else if text.eq(&String::from_str("var")) {
        Token::Var
    } else if text.eq(&String::from_str("true")) {
        Token::Bool(true)
    } else if text.eq(&String::from_str("false")) {
        Token::Bool(false)
    } else if text.eq(&String::from_str("return")) {
        Token::Return
    } else if text.eq(&String::from_str("if")) {
        Token::If
    } else if text.eq(&String::from_str("else")) {
        Token::Else
    } else {
        Token::Ident(text)
    }
}

} // verus!
