//! The lexer: turns source text into tokens, one `next_token` call at a time.
//!
//! The lexer walks the characters of the source. Its abstract state is the
//! index of the current character (`idx`, equal to the length at the end) and
//! the current line number. Token positions are byte offsets into the UTF-8
//! source: the offset of the character the lexer stands on, or of the last
//! character once the end is reached.

use vstd::prelude::*;
use crate::text::{byte_offset, utf8_len, char_width, chars_of, width_of, lemma_byte_offset_mono};
use crate::token::{Token, TokenType, TokenKind, TokenView, keyword_kind, literal_of};

verus! {

/// Whether `char::is_alphabetic` holds of a character (Unicode `Alphabetic`).
pub uninterp spec fn char_is_alphabetic(c: char) -> bool;

/// Whether `char::is_alphanumeric` holds of a character.
pub uninterp spec fn char_is_alphanumeric(c: char) -> bool;

/// Calls `char::is_alphabetic`; the result is named, not restated.
#[verifier::external_body]
fn is_alphabetic(c: char) -> (r: bool)
    ensures
        r == char_is_alphabetic(c),
{
    c.is_alphabetic()
}

/// Calls `char::is_alphanumeric`, which std documents as "alphabetic or
/// numeric": so every alphabetic character is alphanumeric.
#[verifier::external_body]
fn is_alphanumeric(c: char) -> (r: bool)
    ensures
        r == char_is_alphanumeric(c),
        char_is_alphabetic(c) ==> r,
{
    c.is_alphanumeric()
}

pub open spec fn is_ws(c: char) -> bool {
    c == ' ' || c == '\t' || c == '\n' || c == '\r'
}

pub open spec fn is_digit(c: char) -> bool {
    '0' <= c && c <= '9'
}

/// A character that may continue a word: alphanumeric or an underscore.
pub open spec fn is_word_char(c: char) -> bool {
    char_is_alphanumeric(c) || c == '_'
}

/// A character that starts a word.
pub open spec fn starts_word(c: char) -> bool {
    char_is_alphabetic(c) || c == '_'
}

/// What a token that starts with a character other than an operator, a
/// delimiter, a quote or whitespace is.
#[derive(Debug, Clone, Copy, PartialEq, Eq, Structural)]
pub enum StartClass {
    Word,
    Number,
    Illegal,
}

/// The class of such a character `c`, given whether it is alphabetic:
/// alphabetic characters and underscores start words, ASCII digits start
/// numbers, and anything else is illegal.
pub open spec fn start_class(c: char, alphabetic: bool) -> StartClass {
    if alphabetic || c == '_' {
        StartClass::Word
    } else if is_digit(c) {
        StartClass::Number
    } else {
        StartClass::Illegal
    }
}

/// Decides how the lexer goes on from `c`, given whether it is alphabetic.
pub fn classify_start(c: char, alphabetic: bool) -> (r: StartClass)
    ensures
        r == start_class(c, alphabetic),
{
    if alphabetic || c == '_' {
        StartClass::Word
    } else if '0' <= c && c <= '9' {
        StartClass::Number
    } else {
        StartClass::Illegal
    }
}

/// The index after reading one character.
pub open spec fn step(s: Seq<char>, i: int) -> int {
    if i < s.len() {
        i + 1
    } else {
        i
    }
}

/// The index of the character whose offset the lexer reports: the current
/// one, or the last one once the end is reached.
pub open spec fn stale(s: Seq<char>, i: int) -> int {
    if i < s.len() {
        i
    } else if s.len() > 0 {
        s.len() - 1
    } else {
        0
    }
}

/// The byte offset the lexer reports at index `i`.
pub open spec fn pos_at(s: Seq<char>, i: int) -> nat {
    byte_offset(s, stale(s, i))
}

/// Skips blanks, tabs, carriage returns and newlines, counting newlines.
pub open spec fn skip_ws(s: Seq<char>, i: int, line: int) -> (int, int)
    decreases s.len() - i,
{
    if 0 <= i < s.len() && is_ws(s[i]) {
        skip_ws(s, i + 1, if s[i] == '\n' { line + 1 } else { line })
    } else {
        (i, line)
    }
}

/// The first index at or after `i` that does not continue a word.
pub open spec fn word_end(s: Seq<char>, i: int) -> int
    decreases s.len() - i,
{
    if 0 <= i < s.len() && is_word_char(s[i]) {
        word_end(s, i + 1)
    } else {
        i
    }
}

/// The first index at or after `i` holding `c`, or the length.
pub open spec fn find_char(s: Seq<char>, i: int, c: char) -> int
    decreases s.len() - i,
{
    if 0 <= i < s.len() && s[i] != c {
        find_char(s, i + 1, c)
    } else {
        i
    }
}

/// Scans digits and dots from `i`, counting dots: the index where the scan
/// stops, the dot count, and whether it stopped at a second dot.
pub open spec fn num_scan(s: Seq<char>, i: int, dots: int) -> (int, int, bool)
    decreases s.len() - i,
{
    if 0 <= i < s.len() && (is_digit(s[i]) || s[i] == '.') {
        let d = if s[i] == '.' { dots + 1 } else { dots };
        if d > 1 {
            (i, d, true)
        } else {
            num_scan(s, i + 1, d)
        }
    } else {
        (i, dots, false)
    }
}

/// The numeric value of a decimal digit character.
pub open spec fn digit_value(c: char) -> int {
    (c as u32) as int - 48
}

/// The value of a string of decimal digits.
pub open spec fn decimal(s: Seq<char>) -> int
    decreases s.len(),
{
    if s.len() == 0 {
        0
    } else {
        decimal(s.drop_last()) * 10 + digit_value(s.last())
    }
}

/// The value an integer literal of digits gets: its decimal value when it is
/// non-empty and fits in `i32`, else 0.
pub open spec fn int_literal(s: Seq<char>) -> i32 {
    if s.len() > 0 && decimal(s) <= i32::MAX {
        decimal(s) as i32
    } else {
        0
    }
}

pub open spec fn all_digits(s: Seq<char>) -> bool {
    forall|k: int| 0 <= k < s.len() ==> is_digit(#[trigger] s[k])
}

pub open spec fn tok(kind: TokenKind, line: int, pos: nat) -> TokenView {
    TokenView { kind, line_no: line as nat, position: pos }
}

/// A one-character token at `j`.
pub open spec fn single(s: Seq<char>, kind: TokenKind, j: int, l: int) -> (TokenView, int, int) {
    (tok(kind, l, pos_at(s, j)), step(s, j), l)
}

/// A two-character token starting at `j`.
pub open spec fn double(s: Seq<char>, kind: TokenKind, j: int, l: int) -> (TokenView, int, int) {
    (tok(kind, l, pos_at(s, j + 1)), step(s, j + 1), l)
}

pub open spec fn next_is(s: Seq<char>, j: int, c: char) -> bool {
    j + 1 < s.len() && s[j + 1] == c
}

/// A number starting at `j`: an `INT` of its digits, a `FLOAT` of its text
/// when it has one dot, `ILLEGAL` up to a second dot.
pub open spec fn number_token(s: Seq<char>, j: int, l: int) -> (TokenView, int, int) {
    let (e, d, ill) = num_scan(s, j, 0);
    if ill {
        (tok(TokenKind::ILLEGAL(s.subrange(j, e + 1)), l, pos_at(s, step(s, e))), step(s, e), l)
    } else {
        let w = s.subrange(j, stale(s, e));
        (
            tok(
                if d == 0 {
                    TokenKind::INT(int_literal(w))
                } else {
                    TokenKind::FLOAT(w)
                },
                l,
                pos_at(s, e),
            ),
            e,
            l,
        )
    }
}

/// The token at index `i` on line `line`, and the index and line after it.
pub open spec fn lex_next(s: Seq<char>, i: int, line: int) -> (TokenView, int, int)
    decreases s.len() - i,
{
    let (j, l) = skip_ws(s, i, line);
    if !(0 <= j < s.len()) {
        (tok(TokenKind::EOF, l, pos_at(s, j)), j, l)
    } else {
        let c = s[j];
        if c == '+' {
            if next_is(s, j, '=') {
                double(s, TokenKind::PLUSEQ, j, l)
            } else if next_is(s, j, '+') {
                double(s, TokenKind::PLUSPLUS, j, l)
            } else {
                single(s, TokenKind::PLUS, j, l)
            }
        } else if c == '-' {
            if next_is(s, j, '>') {
                double(s, TokenKind::ARROW, j, l)
            } else if next_is(s, j, '=') {
                double(s, TokenKind::MINUSEQ, j, l)
            } else if next_is(s, j, '-') {
                double(s, TokenKind::MINUSMINUS, j, l)
            } else {
                single(s, TokenKind::MINUS, j, l)
            }
        } else if c == '*' {
            if next_is(s, j, '*') {
                double(s, TokenKind::POW, j, l)
            } else if next_is(s, j, '=') {
                double(s, TokenKind::MULEQ, j, l)
            } else {
                single(s, TokenKind::ASTERISK, j, l)
            }
        } else if c == '/' {
            if next_is(s, j, '/') {
                let k = find_char(s, j, '\n');
                if i < k <= s.len() {
                    lex_next(s, k, l)
                } else {
                    (tok(TokenKind::EOF, l, 0), k, l)
                }
            } else if next_is(s, j, '=') {
                double(s, TokenKind::DIVEQ, j, l)
            } else {
                single(s, TokenKind::SLASH, j, l)
            }
        } else if c == '%' {
            if next_is(s, j, '=') {
                double(s, TokenKind::MODEQ, j, l)
            } else {
                single(s, TokenKind::MODULUS, j, l)
            }
        } else if c == '=' {
            if next_is(s, j, '=') {
                double(s, TokenKind::EE, j, l)
            } else {
                single(s, TokenKind::EQ, j, l)
            }
        } else if c == '!' {
            if next_is(s, j, '=') {
                double(s, TokenKind::NE, j, l)
            } else {
                single(s, TokenKind::BANG, j, l)
            }
        } else if c == '<' {
            if next_is(s, j, '=') {
                double(s, TokenKind::LTE, j, l)
            } else {
                single(s, TokenKind::LT, j, l)
            }
        } else if c == '>' {
            if next_is(s, j, '=') {
                double(s, TokenKind::GTE, j, l)
            } else {
                single(s, TokenKind::GT, j, l)
            }
        } else if c == '"' {
            let e = find_char(s, j + 1, '"');
            (
                tok(TokenKind::STRING(s.subrange(j + 1, stale(s, e))), l, pos_at(s, e)),
                step(s, e),
                l,
            )
        } else if c == '[' {
            single(s, TokenKind::LBRACKET, j, l)
        } else if c == ']' {
            single(s, TokenKind::RBRACKET, j, l)
        } else if c == '(' {
            single(s, TokenKind::LPAREN, j, l)
        } else if c == ')' {
            single(s, TokenKind::RPAREN, j, l)
        } else if c == '{' {
            single(s, TokenKind::LBRACE, j, l)
        } else if c == '}' {
            single(s, TokenKind::RBRACE, j, l)
        } else if c == ':' {
            single(s, TokenKind::COLON, j, l)
        } else if c == ';' {
            single(s, TokenKind::SEMICOLON, j, l)
        } else if c == ',' {
            single(s, TokenKind::COMMA, j, l)
        } else {
            match start_class(c, char_is_alphabetic(c)) {
                // A word's first character continues it: every alphabetic
                // character is alphanumeric.
                StartClass::Word => {
                    let e = word_end(s, j + 1);
                    (tok(keyword_kind(s.subrange(j, stale(s, e))), l, pos_at(s, e)), e, l)
                },
                StartClass::Number => number_token(s, j, l),
                StartClass::Illegal => single(s, TokenKind::ILLEGAL(s.subrange(j, j + 1)), j, l),
            }
        }
    }
}

/// Whether lexing the next token from `i` stays clear of the one input the
/// lexer cannot take: an opening quote that is the last character.
pub open spec fn lex_ok(s: Seq<char>, i: int, line: int) -> bool
    decreases s.len() - i,
{
    let (j, l) = skip_ws(s, i, line);
    if 0 <= j < s.len() && s[j] == '"' {
        j + 1 < s.len()
    } else if 0 <= j < s.len() && s[j] == '/' && next_is(s, j, '/') {
        let k = find_char(s, j, '\n');
        if i < k <= s.len() {
            lex_ok(s, k, l)
        } else {
            true
        }
    } else {
        true
    }
}

/// The tokens from state `(i, line)` up to and including the first `EOF`.
pub open spec fn lex_stream(s: Seq<char>, i: int, line: int) -> Seq<TokenView>
    decreases s.len() - i,
{
    let (t, i2, l2) = lex_next(s, i, line);
    if t.kind is EOF || !(i < i2 <= s.len()) {
        seq![t]
    } else {
        seq![t] + lex_stream(s, i2, l2)
    }
}

/// Whether every token up to the first `EOF` can be lexed from `(i, line)`.
pub open spec fn stream_ok(s: Seq<char>, i: int, line: int) -> bool
    decreases s.len() - i,
{
    let (t, i2, l2) = lex_next(s, i, line);
    &&& lex_ok(s, i, line)
    &&& (t.kind is EOF || !(i < i2 <= s.len()) || stream_ok(s, i2, l2))
}

/// The abstract state of a lexer: its source, current index and line.
pub struct LexerView {
    pub source: Seq<char>,
    pub idx: int,
    pub line: int,
}

pub struct Lexer<'a> {
    source: &'a str,
    chars: Vec<char>,
    idx: usize,
    pos: usize,
    line_no: usize,
    curr_char: Option<char>,
}

proof fn lemma_skip_ws(s: Seq<char>, i: int, line: int)
    requires
        0 <= i <= s.len(),
    ensures
        ({
            let (j, l) = skip_ws(s, i, line);
            &&& i <= j <= s.len()
            &&& line <= l <= line + (j - i)
            &&& j < s.len() ==> !is_ws(s[j])
        }),
    decreases s.len() - i,
{
    if i < s.len() && is_ws(s[i]) {
        lemma_skip_ws(s, i + 1, if s[i] == '\n' { line + 1 } else { line });
    }
}

proof fn lemma_word_end(s: Seq<char>, i: int)
    requires
        0 <= i <= s.len(),
    ensures
        i <= word_end(s, i) <= s.len(),
    decreases s.len() - i,
{
    if i < s.len() && is_word_char(s[i]) {
        lemma_word_end(s, i + 1);
    }
}

proof fn lemma_find_char(s: Seq<char>, i: int, c: char)
    requires
        0 <= i <= s.len(),
    ensures
        i <= find_char(s, i, c) <= s.len(),
        find_char(s, i, c) < s.len() ==> s[find_char(s, i, c)] == c,
    decreases s.len() - i,
{
    if i < s.len() && s[i] != c {
        lemma_find_char(s, i + 1, c);
    }
}

proof fn lemma_num_scan(s: Seq<char>, i: int, dots: int)
    requires
        0 <= i <= s.len(),
        0 <= dots <= 1,
    ensures
        ({
            let (e, d, ill) = num_scan(s, i, dots);
            &&& i <= e <= s.len()
            &&& ill ==> e < s.len() && d == 2 && s[e] == '.'
            &&& !ill ==> 0 <= d <= 1 && (d == 0 ==> dots == 0)
            &&& (!ill && d == 0) ==> all_digits(s.subrange(i, e))
        }),
    decreases s.len() - i,
{
    if 0 <= i < s.len() && (is_digit(s[i]) || s[i] == '.') {
        let d = if s[i] == '.' { dots + 1 } else { dots };
        if d <= 1 {
            lemma_num_scan(s, i + 1, d);
            let (e, d2, ill) = num_scan(s, i + 1, d);
            if !ill && d2 == 0 {
                assert forall|k: int| 0 <= k < s.subrange(i, e).len() implies is_digit(
                    #[trigger] s.subrange(i, e)[k],
                ) by {
                    if k > 0 {
                        assert(s.subrange(i, e)[k] == s.subrange(i + 1, e)[k - 1]);
                    }
                }
            }
        }
    }
}

/// Lexing never moves backwards, moves forward on every token but `EOF`,
/// counts at most one line per character, and `EOF` repeats itself.
pub proof fn lemma_lex_next(s: Seq<char>, i: int, line: int)
    requires
        0 <= i <= s.len(),
    ensures
        ({
            let (t, i2, l2) = lex_next(s, i, line);
            &&& i <= i2 <= s.len()
            &&& line <= l2 <= line + (i2 - i)
            &&& !(t.kind is EOF) ==> i < i2
            &&& t.kind is EOF ==> i2 == s.len() && lex_next(s, i2, l2) == (t, i2, l2)
        }),
    decreases s.len() - i,
{
    lemma_skip_ws(s, i, line);
    let (j, l) = skip_ws(s, i, line);
    if 0 <= j < s.len() {
        let c = s[j];
        if c == '/' && next_is(s, j, '/') {
            lemma_find_char(s, j, '\n');
            let k = find_char(s, j, '\n');
            assert(k > j) by {
                assert(s[j] != '\n');
            }
            lemma_lex_next(s, k, l);
        } else if c == '"' {
            lemma_find_char(s, j + 1, '"');
        } else if starts_word(c) && !(c == '+' || c == '-' || c == '*' || c == '/' || c == '%'
            || c == '=' || c == '!' || c == '<' || c == '>' || c == '[' || c == ']' || c == '('
            || c == ')' || c == '{' || c == '}' || c == ':' || c == ';' || c == ',') {
            lemma_word_end(s, j + 1);
        } else if is_digit(c) {
            lemma_num_scan(s, j, 0);
            lemma_num_scan(s, j + 1, 0);
        }
    } else {
        lemma_skip_ws(s, j, l);
    }
}

proof fn lemma_decimal_prefix(s: Seq<char>, m: int)
    requires
        0 <= m <= s.len(),
        all_digits(s),
    ensures
        0 <= decimal(s.take(m)) <= decimal(s),
    decreases s.len() - m,
{
    if m < s.len() {
        lemma_decimal_prefix(s, m + 1);
        assert(s.take(m + 1).drop_last() =~= s.take(m));
        assert(is_digit(s[m]));
    } else {
        assert(s.take(m) =~= s);
        lemma_decimal_nonneg(s);
    }
}

proof fn lemma_decimal_nonneg(s: Seq<char>)
    requires
        all_digits(s),
    ensures
        decimal(s) >= 0,
    decreases s.len(),
{
    if s.len() > 0 {
        assert(all_digits(s.drop_last())) by {
            assert forall|k: int| 0 <= k < s.drop_last().len() implies is_digit(
                #[trigger] s.drop_last()[k],
            ) by {
                assert(s.drop_last()[k] == s[k]);
            }
        }
        lemma_decimal_nonneg(s.drop_last());
        assert(is_digit(s[s.len() - 1]));
    }
}

/// The value `str::parse::<i32>` gives a string of decimal digits, with 0
/// standing in for a failed parse (empty, or too large).
pub fn digits_to_i32(v: &Vec<char>, start: usize, end: usize) -> (r: i32)
    requires
        start <= end <= v.len(),
        all_digits(v@.subrange(start as int, end as int)),
    ensures
        r == int_literal(v@.subrange(start as int, end as int)),
{
    let ghost w = v@.subrange(start as int, end as int);
    if start == end {
        return 0;
    }
    let mut acc: u64 = 0;
    let mut k: usize = start;
    while k < end
        invariant
            start <= k <= end <= v.len(),
            w == v@.subrange(start as int, end as int),
            all_digits(w),
            acc as int == decimal(w.take(k - start)),
            acc <= i32::MAX,
        decreases end - k,
    {
        let c = v[k];
        proof {
            assert(w[k - start] == c);
            assert(is_digit(c));
            assert(w.take(k - start + 1).drop_last() =~= w.take(k - start));
        }
        let d = (c as u32 - 48) as u64;
        acc = acc * 10 + d;
        k = k + 1;
        if acc > 2147483647 {
            proof {
                lemma_decimal_prefix(w, k - start);
            }
            return 0;
        }
    }
    proof {
        assert(w.take(k - start) =~= w);
    }
    acc as i32
}

impl<'a> Lexer<'a> {
    /// The abstract state: source characters, current index, line number.
    pub closed spec fn view(&self) -> LexerView {
        LexerView { source: self.chars@, idx: self.idx as int, line: self.line_no as int }
    }

    /// A well-formed lexer's index lies within its source.
    pub proof fn lemma_view_bounds(&self)
        requires
            self.wf(),
        ensures
            0 <= self@.idx <= self@.source.len(),
            self@.line >= 0,
    {
    }

    /// The source text the lexer reads.
    pub closed spec fn text(&self) -> &'a str {
        self.source
    }

    /// The lexer's fields agree with its abstract state.
    pub closed spec fn wf(&self) -> bool {
        let s = self.chars@;
        &&& s == self.source@
        &&& self.idx <= s.len()
        &&& self.curr_char == if self.idx < s.len() {
            Some(s[self.idx as int])
        } else {
            None
        }
        &&& self.pos == pos_at(s, self.idx as int)
        &&& utf8_len(s) <= usize::MAX
        &&& s.len() < usize::MAX
        &&& self.line_no + (s.len() - self.idx) < usize::MAX
    }

    /// A lexer at the first character of `source`, on line 1.
    pub fn new(source: &'a str) -> (l: Self)
        requires
            utf8_len(source@) + 1 < usize::MAX,
        ensures
            l.wf(),
            l@ == (LexerView { source: source@, idx: 0, line: 1 }),
            l.text() == source,
    {
        let chars = chars_of(source);
        proof {
            lemma_len_le_utf8(chars@, chars@.len() as int);
        }
        let curr_char = if chars.len() > 0 {
            Some(chars[0])
        } else {
            None
        };
        Lexer { source, chars, idx: 0, pos: 0, line_no: 1, curr_char }
    }

    /// Moves to the next character; at the end, stays there.
    fn read_char(&mut self)
        requires
            old(self).wf(),
        ensures
            final(self).wf(),
            final(self).text() == old(self).text(),
            final(self)@ == (LexerView { idx: step(old(self)@.source, old(self)@.idx), ..old(self)@ }),
    {
        if self.idx < self.chars.len() {
            let w = width_of(self.chars[self.idx]);
            proof {
                lemma_byte_offset_mono(self.chars@, self.idx + 1, self.chars@.len() as int);
            }
            self.idx = self.idx + 1;
            if self.idx < self.chars.len() {
                self.pos = self.pos + w;
                self.curr_char = Some(self.chars[self.idx]);
            } else {
                self.curr_char = None;
            }
        }
    }

    /// The character after the current one, if any.
    fn peek_char(&self) -> (r: Option<char>)
        requires
            self.wf(),
        ensures
            r == if self@.idx + 1 < self@.source.len() {
                Some(self@.source[self@.idx + 1])
            } else {
                None
            },
    {
        if self.idx + 1 >= self.chars.len() {
            None
        } else {
            Some(self.chars[self.idx + 1])
        }
    }

    /// Skips whitespace, counting newlines.
    fn skip_whitespace(&mut self)
        requires
            old(self).wf(),
        ensures
            final(self).wf(),
            final(self).text() == old(self).text(),
            final(self)@.source == old(self)@.source,
            (final(self)@.idx, final(self)@.line) == skip_ws(old(self)@.source, old(self)@.idx, old(self)@.line),
    {
        let ghost s = self.chars@;
        let ghost target = skip_ws(s, self.idx as int, self.line_no as int);
        loop
            invariant
                self.wf(),
                self.chars@ == s,
                self.text() == old(self).text(),
                skip_ws(s, self.idx as int, self.line_no as int) == target,
            ensures
                self.wf(),
                self.chars@ == s,
                self.text() == old(self).text(),
                (self.idx as int, self.line_no as int) == target,
            decreases s.len() - self.idx,
        {
            match self.curr_char {
                Some(ch) => {
                    if ch == ' ' || ch == '\t' || ch == '\n' || ch == '\r' {
                        self.read_char();
                        if ch == '\n' {
                            self.line_no = self.line_no + 1;
                        }
                    } else {
                        break ;
                    }
                },
                None => {
                    break ;
                },
            }
        }
    }

    /// A token of the given kind at the current line and offset.
    fn new_token(&self, tt: TokenType<'a>) -> (t: Token<'a>)
        requires
            self.wf(),
        ensures
            t@ == crate::lexer::tok(tt@, self@.line, pos_at(self@.source, self@.idx)),
            t.token_type == tt,
    {
        Token { token_type: tt, line_no: self.line_no, position: self.pos }
    }

    /// The index whose offset is reported (see `stale`).
    fn stale_index(&self) -> (r: usize)
        requires
            self.wf(),
        ensures
            r == stale(self@.source, self@.idx),
    {
        if self.idx < self.chars.len() {
            self.idx
        } else if self.chars.len() > 0 {
            self.chars.len() - 1
        } else {
            0
        }
    }

    /// Reads a string literal whose opening quote is the current character;
    /// stops on the closing quote, or at the end of the source.
    fn read_string(&mut self) -> (r: &'a str)
        requires
            old(self).wf(),
            old(self)@.idx + 1 < old(self)@.source.len(),
            old(self)@.source[old(self)@.idx] == '"',
        ensures
            final(self).wf(),
            final(self).text() == old(self).text(),
            ({
                let s = old(self)@.source;
                let e = find_char(s, old(self)@.idx + 1, '"');
                &&& final(self)@ == (LexerView { idx: e, ..old(self)@ })
                &&& r@ == s.subrange(old(self)@.idx + 1, stale(s, e))
            }),
    {
        let ghost s = self.chars@;
        let start = self.idx + 1;
        proof {
            lemma_find_char(s, start as int, '"');
        }
        let ghost e = find_char(s, start as int, '"');
        loop
            invariant_except_break
                start - 1 <= self.idx < e,
                self.idx >= start ==> find_char(s, self.idx as int, '"') == e,
            invariant
                self.wf(),
                self.chars@ == s,
                self.text() == old(self).text(),
                self.line_no == old(self).line_no,
                e == find_char(s, start as int, '"'),
                start <= e <= s.len(),
            ensures
                self.wf(),
                self.chars@ == s,
                self.text() == old(self).text(),
                self.line_no == old(self).line_no,
                self.idx == e,
            decreases s.len() - self.idx,
        {
            proof {
                if self.idx >= start {
                    assert(s[self.idx as int] != '"');
                }
            }
            let ghost i0 = self.idx as int;
            self.read_char();
            proof {
                if i0 >= start {
                    assert(find_char(s, i0, '"') == find_char(s, i0 + 1, '"'));
                }
                assert(find_char(s, self.idx as int, '"') == e);
                if self.idx < s.len() && s[self.idx as int] != '"' {
                    lemma_find_char(s, self.idx + 1, '"');
                    assert(find_char(s, self.idx as int, '"') == find_char(s, self.idx + 1, '"'));
                }
            }
            match self.curr_char {
                Some(c) => {
                    if c == '"' {
                        break ;
                    }
                },
                None => {
                    break ;
                },
            }
        }
        let end = self.stale_index();
        self.source.substring_char(start, end)
    }

    /// Reads a number starting at the current digit: digits with at most one
    /// dot make an integer or float token; a second dot makes the text up to
    /// it an illegal token.
    fn read_number(&mut self) -> (t: Token<'a>)
        requires
            old(self).wf(),
            old(self)@.idx < old(self)@.source.len(),
            is_digit(old(self)@.source[old(self)@.idx]),
        ensures
            final(self).wf(),
            final(self).text() == old(self).text(),
            final(self)@.source == old(self)@.source,
            (t@, final(self)@.idx, final(self)@.line) == number_token(
                old(self)@.source,
                old(self)@.idx,
                old(self)@.line,
            ),
    {
        let ghost s = self.chars@;
        let start = self.idx;
        let mut dot_cnt: usize = 0;
        proof {
            lemma_num_scan(s, start as int, 0);
        }
        let ghost scan = num_scan(s, start as int, 0);
        loop
            invariant
                self.wf(),
                self.chars@ == s,
                self.text() == old(self).text(),
                self.line_no == old(self).line_no,
                s == old(self)@.source,
                start == old(self).idx,
                start <= self.idx <= s.len(),
                dot_cnt <= 1,
                num_scan(s, self.idx as int, dot_cnt as int) == scan,
                scan == num_scan(s, start as int, 0),
            ensures
                !scan.2,
                self.wf(),
                self.chars@ == s,
                self.text() == old(self).text(),
                self.line_no == old(self).line_no,
                self.idx == scan.0,
                dot_cnt == scan.1,
            decreases s.len() - self.idx,
        {
            match self.curr_char {
                Some(ch) => {
                    if ('0' <= ch && ch <= '9') || ch == '.' {
                        if ch == '.' {
                            dot_cnt = dot_cnt + 1;
                        }
                        if dot_cnt > 1 {
                            let illegal_slice = self.source.substring_char(start, self.idx + 1);
                            self.read_char();
                            return self.new_token(TokenType::ILLEGAL(illegal_slice));
                        }
                        self.read_char();
                    } else {
                        break ;
                    }
                },
                None => {
                    break ;
                },
            }
        }
        let end = self.stale_index();
        let num_slice = self.source.substring_char(start, end);
        if dot_cnt == 0 {
            proof {
                assert(s.subrange(start as int, end as int) =~= s.subrange(
                    start as int,
                    self.idx as int,
                ).take(end - start));
                assert(all_digits(s.subrange(start as int, end as int))) by {
                    assert forall|k: int|
                        0 <= k < s.subrange(start as int, end as int).len() implies is_digit(
                        #[trigger] s.subrange(start as int, end as int)[k],
                    ) by {
                        assert(s.subrange(start as int, end as int)[k] == s.subrange(
                            start as int,
                            self.idx as int,
                        )[k]);
                    }
                }
            }
            let val = digits_to_i32(&self.chars, start, end);
            self.new_token(TokenType::INT(val))
        } else {
            self.new_token(TokenType::FLOAT(num_slice))
        }
    }

    /// Reads a word from the current character: alphanumerics and
    /// underscores, up to the offset the lexer then stands at.
    pub fn read_identifier(&mut self) -> (r: &'a str)
        requires
            old(self).wf(),
        ensures
            final(self).wf(),
            final(self).text() == old(self).text(),
            ({
                let s = old(self)@.source;
                let e = word_end(s, old(self)@.idx);
                &&& final(self)@ == (LexerView { idx: e, ..old(self)@ })
                &&& r@ == s.subrange(stale(s, old(self)@.idx), stale(s, e))
            }),
    {
        let ghost s = self.chars@;
        let start = self.stale_index();
        proof {
            lemma_word_end(s, self.idx as int);
        }
        let ghost e = word_end(s, self.idx as int);
        loop
            invariant
                self.wf(),
                self.chars@ == s,
                self.text() == old(self).text(),
                self.line_no == old(self).line_no,
                old(self).idx <= self.idx <= e <= s.len(),
                word_end(s, self.idx as int) == e,
                start == stale(s, old(self).idx as int),
            ensures
                self.wf(),
                self.chars@ == s,
                self.text() == old(self).text(),
                self.line_no == old(self).line_no,
                self.idx == e,
                start == stale(s, old(self).idx as int),
            decreases s.len() - self.idx,
        {
            match self.curr_char {
                Some(ch) => {
                    if is_alphanumeric(ch) || ch == '_' {
                        proof {
                            lemma_word_end(s, self.idx + 1);
                        }
                        self.read_char();
                    } else {
                        break ;
                    }
                },
                None => {
                    break ;
                },
            }
        }
        let end = self.stale_index();
        self.source.substring_char(start, end)
    }
}

impl<'a> Lexer<'a> {
    /// The next token. Skips whitespace and `//` comments; operators of two
    /// characters win over their one-character prefixes; words are keywords,
    /// type names or identifiers; anything else is an illegal token.
    pub fn next_token(&mut self) -> (t: Token<'a>)
        requires
            old(self).wf(),
            lex_ok(old(self)@.source, old(self)@.idx, old(self)@.line),
        ensures
            final(self).wf(),
            final(self).text() == old(self).text(),
            final(self)@.source == old(self)@.source,
            (t@, final(self)@.idx, final(self)@.line) == lex_next(
                old(self)@.source,
                old(self)@.idx,
                old(self)@.line,
            ),
        decreases old(self)@.source.len() - old(self)@.idx,
    {
        let ghost s = self.chars@;
        let ghost i = self.idx as int;
        proof {
            lemma_skip_ws(s, i, self.line_no as int);
        }
        self.skip_whitespace();
        let tok = match self.curr_char {
            Some('+') => {
                if matches!(self.peek_char(), Some('=')) {
                    self.read_char();
                    self.new_token(TokenType::PLUSEQ)
                } else if matches!(self.peek_char(), Some('+')) {
                    self.read_char();
                    self.new_token(TokenType::PLUSPLUS)
                } else {
                    self.new_token(TokenType::PLUS)
                }
            },
            Some('-') => {
                if matches!(self.peek_char(), Some('>')) {
                    self.read_char();
                    self.new_token(TokenType::ARROW)
                } else if matches!(self.peek_char(), Some('=')) {
                    self.read_char();
                    self.new_token(TokenType::MINUSEQ)
                } else if matches!(self.peek_char(), Some('-')) {
                    self.read_char();
                    self.new_token(TokenType::MINUSMINUS)
                } else {
                    self.new_token(TokenType::MINUS)
                }
            },
            Some('*') => {
                if matches!(self.peek_char(), Some('*')) {
                    self.read_char();
                    self.new_token(TokenType::POW)
                } else if matches!(self.peek_char(), Some('=')) {
                    self.read_char();
                    self.new_token(TokenType::MULEQ)
                } else {
                    self.new_token(TokenType::ASTERISK)
                }
            },
            Some('/') => {
                if matches!(self.peek_char(), Some('/')) {
                    let ghost j = self.idx as int;
                    let ghost l = self.line_no;
                    proof {
                        lemma_find_char(s, j, '\n');
                        lemma_find_char(s, j + 1, '\n');
                    }
                    loop
                        invariant
                            self.wf(),
                            self.chars@ == s,
                            self.text() == old(self).text(),
                            self.line_no == l,
                            j <= self.idx <= s.len(),
                            find_char(s, self.idx as int, '\n') == find_char(s, j, '\n'),
                        ensures
                            self.wf(),
                            self.chars@ == s,
                            self.text() == old(self).text(),
                            self.line_no == l,
                            self.idx == find_char(s, j, '\n'),
                        decreases s.len() - self.idx,
                    {
                        match self.curr_char {
                            Some(c) => {
                                if c != '\n' {
                                    self.read_char();
                                } else {
                                    break ;
                                }
                            },
                            None => {
                                break ;
                            },
                        }
                    }
                    proof {
                        assert(s[j] != '\n');
                    }
                    return self.next_token();
                } else if matches!(self.peek_char(), Some('=')) {
                    self.read_char();
                    self.new_token(TokenType::DIVEQ)
                } else {
                    self.new_token(TokenType::SLASH)
                }
            },
            Some('%') => {
                if matches!(self.peek_char(), Some('=')) {
                    self.read_char();
                    self.new_token(TokenType::MODEQ)
                } else {
                    self.new_token(TokenType::MODULUS)
                }
            },
            Some('=') => {
                if matches!(self.peek_char(), Some('=')) {
                    self.read_char();
                    self.new_token(TokenType::EE)
                } else {
                    self.new_token(TokenType::EQ)
                }
            },
            Some('!') => {
                if matches!(self.peek_char(), Some('=')) {
                    self.read_char();
                    self.new_token(TokenType::NE)
                } else {
                    self.new_token(TokenType::BANG)
                }
            },
            Some('<') => {
                if matches!(self.peek_char(), Some('=')) {
                    self.read_char();
                    self.new_token(TokenType::LTE)
                } else {
                    self.new_token(TokenType::LT)
                }
            },
            Some('>') => {
                if matches!(self.peek_char(), Some('=')) {
                    self.read_char();
                    self.new_token(TokenType::GTE)
                } else {
                    self.new_token(TokenType::GT)
                }
            },
            Some('"') => {
                let lit = self.read_string();
                self.new_token(TokenType::STRING(lit))
            },
            Some('[') => self.new_token(TokenType::LBRACKET),
            Some(']') => self.new_token(TokenType::RBRACKET),
            Some('(') => self.new_token(TokenType::LPAREN),
            Some(')') => self.new_token(TokenType::RPAREN),
            Some('{') => self.new_token(TokenType::LBRACE),
            Some('}') => self.new_token(TokenType::RBRACE),
            Some(':') => self.new_token(TokenType::COLON),
            Some(';') => self.new_token(TokenType::SEMICOLON),
            Some(',') => self.new_token(TokenType::COMMA),
            None => self.new_token(TokenType::EOF),
            Some(ch) => {
                match classify_start(ch, is_alphabetic(ch)) {
                    StartClass::Word => {
                        // Every alphabetic character is alphanumeric, so the
                        // word goes on past its first character.
                        let first_continues = is_alphanumeric(ch) || ch == '_';
                        proof {
                            assert(first_continues);
                            lemma_word_end(s, self.idx + 1);
                        }
                        let ident = self.read_identifier();
                        let tt = TokenType::lookup_ident(ident);
                        return Token { token_type: tt, line_no: self.line_no, position: self.pos };
                    },
                    StartClass::Number => {
                        return self.read_number();
                    },
                    StartClass::Illegal => {
                        let illegal_slice = self.source.substring_char(self.idx, self.idx + 1);
                        self.new_token(TokenType::ILLEGAL(illegal_slice))
                    },
                }
            },
        };
        self.read_char();
        tok
    }
}

/// A token stream as the lexer yields it: non-empty, ending in its only `EOF`.
pub open spec fn wf_stream(t: Seq<TokenView>) -> bool {
    &&& t.len() > 0
    &&& t.last().kind is EOF
    &&& forall|i: int| 0 <= i < t.len() - 1 ==> !(#[trigger] t[i].kind is EOF)
}

/// The stream from a state starts with the next token and is well formed.
pub proof fn lemma_stream_wf(s: Seq<char>, i: int, line: int)
    requires
        0 <= i <= s.len(),
    ensures
        wf_stream(lex_stream(s, i, line)),
        lex_stream(s, i, line)[0] == lex_next(s, i, line).0,
    decreases s.len() - i,
{
    lemma_lex_next(s, i, line);
    let (t, i2, l2) = lex_next(s, i, line);
    if !(t.kind is EOF) {
        lemma_stream_wf(s, i2, l2);
        let rest = lex_stream(s, i2, l2);
        let all = lex_stream(s, i, line);
        assert(all == seq![t] + rest);
        assert forall|k: int| 0 <= k < all.len() - 1 implies !(#[trigger] all[k].kind is EOF) by {
            if k > 0 {
                assert(all[k] == rest[k - 1]);
            }
        }
        assert(all.last() == rest.last());
    }
}

/// One step of the stream: a token other than `EOF` is followed by the
/// stream from the state after it; after `EOF` the stream is that `EOF` again.
pub proof fn lemma_stream_step(s: Seq<char>, i: int, line: int)
    requires
        0 <= i <= s.len(),
    ensures
        ({
            let (t, i2, l2) = lex_next(s, i, line);
            &&& !(t.kind is EOF) ==> lex_stream(s, i, line) == seq![t] + lex_stream(s, i2, l2)
            &&& !(t.kind is EOF) && stream_ok(s, i, line) ==> stream_ok(s, i2, l2)
            &&& t.kind is EOF ==> lex_stream(s, i2, l2) == seq![t] && lex_stream(s, i, line) == seq![t]
            &&& t.kind is EOF ==> stream_ok(s, i2, l2)
            &&& 0 <= i2 <= s.len()
        }),
{
    lemma_lex_next(s, i, line);
    let (t, i2, l2) = lex_next(s, i, line);
    if t.kind is EOF {
        lemma_lex_next(s, i2, l2);
        lemma_skip_ws(s, i2, l2);
    }
}

impl<'a> Lexer<'a> {
    /// Whether `next_token` can lex the next token: false exactly when it
    /// would meet an opening quote that is the last character of the source.
    pub fn next_token_ok(&self) -> (r: bool)
        requires
            self.wf(),
        ensures
            r == lex_ok(self@.source, self@.idx, self@.line),
    {
        let ghost s = self.chars@;
        let n = self.chars.len();
        let mut i = self.idx;
        let ghost mut line: int = self.line_no as int;
        loop
            invariant
                s == self.chars@,
                n == s.len(),
                self.idx <= i <= n,
                self.wf(),
                lex_ok(s, i as int, line) == lex_ok(s, self.idx as int, self.line_no as int),
            decreases n - i,
        {
            let ghost i0 = i as int;
            let ghost line0 = line;
            while i < n && (self.chars[i] == ' ' || self.chars[i] == '\t' || self.chars[i] == '\n'
                || self.chars[i] == '\r')
                invariant
                    s == self.chars@,
                    n == s.len(),
                    i0 <= i <= n,
                    skip_ws(s, i as int, line) == skip_ws(s, i0, line0),
                decreases n - i,
            {
                proof {
                    if s[i as int] == '\n' {
                        line = line + 1;
                    }
                }
                i = i + 1;
            }
            if i < n && self.chars[i] == '"' {
                return i + 1 < n;
            }
            if i < n && self.chars[i] == '/' && i + 1 < n && self.chars[i + 1] == '/' {
                let ghost j = i as int;
                proof {
                    lemma_find_char(s, j, '\n');
                }
                while i < n && self.chars[i] != '\n'
                    invariant
                        s == self.chars@,
                        n == s.len(),
                        j <= i <= n,
                        find_char(s, i as int, '\n') == find_char(s, j, '\n'),
                    decreases n - i,
                {
                    i = i + 1;
                }
                proof {
                    lemma_find_char(s, j + 1, '\n');
                    assert(s[j] != '\n');
                }
            } else {
                return true;
            }
        }
    }
}

/// Whether the whole source can be lexed: every token up to `EOF`.
pub fn source_lexes(source: &str) -> (r: bool)
    requires
        utf8_len(source@) + 1 < usize::MAX,
    ensures
        r == stream_ok(source@, 0, 1),
{
    let mut l = Lexer::new(source);
    loop
        invariant
            l.wf(),
            l@.source == source@,
            0 <= l@.idx <= source@.len(),
            stream_ok(source@, 0, 1) == stream_ok(l@.source, l@.idx, l@.line),
        decreases source@.len() - l@.idx,
    {
        if !l.next_token_ok() {
            return false;
        }
        let ghost before = l@;
        proof {
            lemma_stream_step(before.source, before.idx, before.line);
            lemma_lex_next(before.source, before.idx, before.line);
        }
        let t = l.next_token();
        if matches!(t.token_type, TokenType::EOF) {
            return true;
        }
    }
}

proof fn lemma_len_le_utf8(s: Seq<char>, i: int)
    requires
        0 <= i <= s.len(),
    ensures
        i <= byte_offset(s, i),
    decreases i,
{
    if i > 0 {
        lemma_len_le_utf8(s, i - 1);
    }
}

proof fn lemma_stale_mono(s: Seq<char>, i: int, j: int)
    requires
        0 <= i <= j <= s.len(),
    ensures
        pos_at(s, i) <= pos_at(s, j),
{
    lemma_byte_offset_mono(s, stale(s, i), stale(s, j));
}

/// Where the next token lies: its line is the line after it, no earlier than
/// `line`; its offset lies between those of the states before and after it.
proof fn lemma_token_place(s: Seq<char>, i: int, line: int)
    requires
        0 <= i <= s.len(),
        0 <= line,
    ensures
        ({
            let (t, i2, l2) = lex_next(s, i, line);
            &&& t.line_no == l2
            &&& line <= l2
            &&& pos_at(s, i) <= t.position <= pos_at(s, i2)
        }),
    decreases s.len() - i,
{
    lemma_lex_next(s, i, line);
    lemma_skip_ws(s, i, line);
    let (j, l) = skip_ws(s, i, line);
    let (t, i2, l2) = lex_next(s, i, line);
    lemma_stale_mono(s, i, j);
    if 0 <= j < s.len() {
        let c = s[j];
        if c == '/' && next_is(s, j, '/') {
            lemma_find_char(s, j, '\n');
            lemma_find_char(s, j + 1, '\n');
            let k = find_char(s, j, '\n');
            assert(s[j] != '\n');
            lemma_token_place(s, k, l);
            lemma_stale_mono(s, i, k);
        } else {
            lemma_stale_mono(s, i, j);
            if c == '"' {
                lemma_find_char(s, j + 1, '"');
                let e = find_char(s, j + 1, '"');
                lemma_stale_mono(s, j, e);
                lemma_stale_mono(s, e, step(s, e));
            } else if is_digit(c) && !starts_word(c) {
                lemma_num_scan(s, j, 0);
                let (e, d, ill) = num_scan(s, j, 0);
                lemma_stale_mono(s, j, e);
                lemma_stale_mono(s, e, step(s, e));
            } else if starts_word(c) {
                lemma_word_end(s, j + 1);
                lemma_stale_mono(s, j, i2);
            } else {
                lemma_stale_mono(s, j, i2);
                if j + 1 <= s.len() {
                    lemma_stale_mono(s, j, j + 1);
                }
                if j + 1 < s.len() {
                    lemma_stale_mono(s, j + 1, i2);
                }
            }
        }
    }
}

/// Once the lexer yields `EOF`, it stands at the end of the source and every
/// later call yields that same `EOF` (same line, same offset) again.
pub proof fn law_eof_repeats(s: Seq<char>, i: int, line: int)
    requires
        0 <= i <= s.len(),
        lex_next(s, i, line).0.kind is EOF,
    ensures
        ({
            let (t, i2, l2) = lex_next(s, i, line);
            &&& i2 == s.len()
            &&& lex_next(s, i2, l2) == (t, i2, l2)
        }),
{
    lemma_lex_next(s, i, line);
}

/// Every token but `EOF` consumes input, so the tokens from index `i` are at
/// most one more than the characters left.
pub proof fn law_stream_bounded(s: Seq<char>, i: int, line: int)
    requires
        0 <= i <= s.len(),
    ensures
        lex_stream(s, i, line).len() <= s.len() - i + 1,
    decreases s.len() - i,
{
    lemma_lex_next(s, i, line);
    let (t, i2, l2) = lex_next(s, i, line);
    if !(t.kind is EOF) {
        law_stream_bounded(s, i2, l2);
    }
}

/// Tokens come in source order: along the stream, line numbers and byte
/// offsets never decrease.
pub proof fn law_stream_ordered(s: Seq<char>, i: int, line: int)
    requires
        0 <= i <= s.len(),
        0 <= line,
    ensures
        forall|a: int, b: int|
            0 <= a <= b < lex_stream(s, i, line).len() ==> {
                &&& (#[trigger] lex_stream(s, i, line)[a]).line_no <= (#[trigger] lex_stream(
                    s,
                    i,
                    line,
                )[b]).line_no
                &&& lex_stream(s, i, line)[a].position <= lex_stream(s, i, line)[b].position
            },
        forall|b: int|
            0 <= b < lex_stream(s, i, line).len() ==> {
                &&& line <= (#[trigger] lex_stream(s, i, line)[b]).line_no
                &&& pos_at(s, i) <= lex_stream(s, i, line)[b].position
            },
    decreases s.len() - i,
{
    lemma_lex_next(s, i, line);
    lemma_token_place(s, i, line);
    lemma_stream_wf(s, i, line);
    let (t, i2, l2) = lex_next(s, i, line);
    let all = lex_stream(s, i, line);
    if !(t.kind is EOF) {
        law_stream_ordered(s, i2, l2);
        let rest = lex_stream(s, i2, l2);
        assert(all == seq![t] + rest);
        assert forall|b: int| 0 <= b < all.len() implies line <= (#[trigger] all[b]).line_no
            && pos_at(s, i) <= all[b].position by {
            if b > 0 {
                assert(all[b] == rest[b - 1]);
            }
        }
        assert forall|a: int, b: int| 0 <= a <= b < all.len() implies (#[trigger] all[a]).line_no
            <= (#[trigger] all[b]).line_no && all[a].position <= all[b].position by {
            if a > 0 {
                assert(all[a] == rest[a - 1]);
                assert(all[b] == rest[b - 1]);
            } else if b > 0 {
                assert(all[b] == rest[b - 1]);
            }
        }
    } else {
        assert(all == seq![t]);
    }
}

/// The operators whose literal the lexer reads back: every operator but
/// `POW`, whose literal `^` is no token of the lexer (it spells `POW` `**`).
pub open spec fn is_lexed_operator(k: TokenKind) -> bool {
    match k {
        TokenKind::PLUS => true,
        TokenKind::MINUS => true,
        TokenKind::ASTERISK => true,
        TokenKind::SLASH => true,
        TokenKind::MODULUS => true,
        TokenKind::BANG => true,
        TokenKind::EQ => true,
        TokenKind::PLUSEQ => true,
        TokenKind::MINUSEQ => true,
        TokenKind::MULEQ => true,
        TokenKind::DIVEQ => true,
        TokenKind::MODEQ => true,
        TokenKind::PLUSPLUS => true,
        TokenKind::MINUSMINUS => true,
        TokenKind::LT => true,
        TokenKind::LTE => true,
        TokenKind::GT => true,
        TokenKind::GTE => true,
        TokenKind::EE => true,
        TokenKind::NE => true,
        _ => false,
    }
}

/// An operator's literal, lexed from its start, gives back that operator,
/// and lexing it is admissible.
pub proof fn law_operator_literal_lexes(k: TokenKind)
    requires
        is_lexed_operator(k),
    ensures
        lex_ok(literal_of(k), 0, 1),
        lex_next(literal_of(k), 0, 1).0.kind == k,
{
    match k {
        TokenKind::PLUS => {
            reveal_strlit("+");
        },
        TokenKind::MINUS => {
            reveal_strlit("-");
        },
        TokenKind::ASTERISK => {
            reveal_strlit("*");
        },
        TokenKind::SLASH => {
            reveal_strlit("/");
        },
        TokenKind::MODULUS => {
            reveal_strlit("%");
        },
        TokenKind::BANG => {
            reveal_strlit("!");
        },
        TokenKind::EQ => {
            reveal_strlit("=");
        },
        TokenKind::PLUSEQ => {
            reveal_strlit("+=");
        },
        TokenKind::MINUSEQ => {
            reveal_strlit("-=");
        },
        TokenKind::MULEQ => {
            reveal_strlit("*=");
        },
        TokenKind::DIVEQ => {
            reveal_strlit("/=");
        },
        TokenKind::MODEQ => {
            reveal_strlit("%=");
        },
        TokenKind::PLUSPLUS => {
            reveal_strlit("++");
        },
        TokenKind::MINUSMINUS => {
            reveal_strlit("--");
        },
        TokenKind::LT => {
            reveal_strlit("<");
        },
        TokenKind::LTE => {
            reveal_strlit("<=");
        },
        TokenKind::GT => {
            reveal_strlit(">");
        },
        TokenKind::GTE => {
            reveal_strlit(">=");
        },
        TokenKind::EE => {
            reveal_strlit("==");
        },
        TokenKind::NE => {
            reveal_strlit("!=");
        },
        _ => {},
    }
    let s = literal_of(k);
    assert(skip_ws(s, 0, 1) == (0int, 1int));
}

/// Blanks, tabs, carriage returns and newlines are skipped: lexing from one
/// of them gives what lexing from the next character gives, a newline
/// counting one more line. No token is made of whitespace.
pub proof fn law_whitespace_is_skipped(s: Seq<char>, i: int, line: int)
    requires
        0 <= i < s.len(),
        s[i] == ' ' || s[i] == '\t' || s[i] == '\r' || s[i] == '\n',
    ensures
        ({
            let next_line = if s[i] == '\n' { line + 1 } else { line };
            &&& lex_next(s, i, line) == lex_next(s, i + 1, next_line)
            &&& lex_ok(s, i, line) == lex_ok(s, i + 1, next_line)
        }),
{
    let next_line = if s[i] == '\n' { line + 1 } else { line };
    assert(skip_ws(s, i, line) == skip_ws(s, i + 1, next_line));
    lemma_skip_ws(s, i + 1, next_line);
    let (j, l) = skip_ws(s, i + 1, next_line);
    if 0 <= j < s.len() && s[j] == '/' && next_is(s, j, '/') {
        lemma_find_char(s, j, '\n');
        assert(s[j] != '\n');
    }
    assert(lex_next(s, i, line) == lex_next(s, i + 1, next_line));
}

/// The next token can be lexed unless the source ends in a quote.
proof fn lemma_lex_ok_without_final_quote(s: Seq<char>, i: int, line: int)
    requires
        0 <= i <= s.len(),
        s.len() == 0 || s.last() != '"',
    ensures
        lex_ok(s, i, line),
    decreases s.len() - i,
{
    lemma_skip_ws(s, i, line);
    let (j, l) = skip_ws(s, i, line);
    if 0 <= j < s.len() && s[j] == '"' {
        assert(j != s.len() - 1);
    } else if 0 <= j < s.len() && s[j] == '/' && next_is(s, j, '/') {
        lemma_find_char(s, j, '\n');
        let k = find_char(s, j, '\n');
        if i < k <= s.len() {
            lemma_lex_ok_without_final_quote(s, k, l);
        }
    }
}

/// The only source the lexer cannot take is one that ends in a quote: from
/// any place in any other source, every token up to the end can be lexed.
pub proof fn law_lexes_unless_final_quote(s: Seq<char>, i: int, line: int)
    requires
        0 <= i <= s.len(),
        s.len() == 0 || s.last() != '"',
    ensures
        lex_ok(s, i, line),
        stream_ok(s, i, line),
    decreases s.len() - i,
{
    lemma_lex_ok_without_final_quote(s, i, line);
    lemma_lex_next(s, i, line);
    let (t, i2, l2) = lex_next(s, i, line);
    if !(t.kind is EOF) && i < i2 <= s.len() {
        law_lexes_unless_final_quote(s, i2, l2);
    }
}

} // verus!
