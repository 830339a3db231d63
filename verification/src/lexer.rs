//! The lexer: turns source text into a stream of tokens, one call at a
//! time.  Scanning is specified by pure functions over the text as a
//! sequence of characters, and every method is proved to follow them.
//!
//! Character classes are the ASCII ones: letters `A`-`Z`/`a`-`z`, digits
//! `0`-`9`, and the ASCII whitespace characters.  A NUL character acts as
//! an end-of-input sentinel, as does running off the end of the text.

use vstd::prelude::*;

verus! {

use crate::rational::{Rational, norm_rat, rat_fits, lemma_gcd_pos, lemma_gcd_reduced,
    lemma_gcd_divides, lemma_div_exact, gcd_nat, abs_int};
use crate::token::{Token, TokenKind, TokenValue, TokenValueView, TokenView, keyword_kind,
    lookup_keyword, token_wf};
use vstd::string::StrSliceExecFns;
use vstd::string::StringExecFns;

/// A failure of lexical analysis.
#[derive(Debug, Clone, Copy)]
pub enum LexicalError {
    /// A character that starts no token, and its position.
    Unrecognized(char, usize),
    /// A `{` comment that never closes, at this position.
    Unterminated(usize),
    /// A numeric literal too large for the value representation, starting
    /// at this position.
    NumberTooLarge(usize),
}

/// Mathematical view of a lexical failure.
pub enum LexErrView {
    Unrecognized(char, int),
    Unterminated(int),
    NumberTooLarge(int),
}

impl View for LexicalError {
    type V = LexErrView;

    open spec fn view(&self) -> LexErrView {
        match self {
            LexicalError::Unrecognized(c, p) => LexErrView::Unrecognized(*c, *p as int),
            LexicalError::Unterminated(p) => LexErrView::Unterminated(*p as int),
            LexicalError::NumberTooLarge(p) => LexErrView::NumberTooLarge(*p as int),
        }
    }
}

impl LexicalError {
    /// A one-line diagnostic for the driver.
    pub fn message(&self) -> (r: String)
        ensures
            r@ == lex_error_message(self@),
    {
        match self {
            LexicalError::Unrecognized(_, _) => String::from_str("Unrecognized character"),
            LexicalError::Unterminated(_) => String::from_str("Unterminated comment"),
            LexicalError::NumberTooLarge(_) => String::from_str("Number out of range"),
        }
    }
}

pub open spec fn lex_error_message(e: LexErrView) -> Seq<char> {
    match e {
        LexErrView::Unrecognized(_, _) => "Unrecognized character"@,
        LexErrView::Unterminated(_) => "Unterminated comment"@,
        LexErrView::NumberTooLarge(_) => "Number out of range"@,
    }
}

/// The position is at the end of input: past the text, or at a NUL.
pub open spec fn at_end(s: Seq<char>, i: int) -> bool {
    i >= s.len() || s[i] == '\0'
}

/// ASCII whitespace.
pub open spec fn is_space_char(c: char) -> bool {
    c == ' ' || c == '\t' || c == '\n' || c == '\r' || c == '\u{b}' || c == '\u{c}'
}

/// ASCII decimal digit.
pub open spec fn is_digit_char(c: char) -> bool {
    48 <= c as int <= 57
}

/// ASCII letter.
pub open spec fn is_alpha_char(c: char) -> bool {
    (65 <= c as int <= 90) || (97 <= c as int <= 122)
}

pub open spec fn is_alnum_char(c: char) -> bool {
    is_alpha_char(c) || is_digit_char(c)
}

pub open spec fn digit_val(c: char) -> int {
    c as int - 48
}

/// The character at a position, or the NUL sentinel beyond the end.
pub open spec fn char_at(s: Seq<char>, i: int) -> char {
    if 0 <= i < s.len() {
        s[i]
    } else {
        '\0'
    }
}

/// The end of the whitespace run starting at `i`.
pub open spec fn ws_end(s: Seq<char>, i: int) -> int
    decreases s.len() - i,
{
    if 0 <= i < s.len() && is_space_char(s[i]) {
        ws_end(s, i + 1)
    } else {
        i
    }
}

/// The position of the first `}` at or after `i`, if any.
pub open spec fn comment_close(s: Seq<char>, i: int) -> Option<int>
    decreases s.len() - i,
{
    if !(0 <= i < s.len()) {
        None
    } else if s[i] == '}' {
        Some(i)
    } else {
        comment_close(s, i + 1)
    }
}

/// Where scanning stands after skipping whitespace and comments.
pub enum TriviaResult {
    /// The first position holding neither whitespace nor a comment.
    At(int),
    /// An unterminated comment opened at this position.
    Unterminated(int),
}

/// Skips runs of whitespace and `{ ... }` comments.
pub open spec fn trivia_end(s: Seq<char>, i: int) -> TriviaResult
    decreases s.len() - i,
{
    if !(0 <= i <= s.len()) {
        TriviaResult::At(i)
    } else if at_end(s, i) {
        TriviaResult::At(i)
    } else if is_space_char(s[i]) {
        trivia_end(s, i + 1)
    } else if s[i] == '{' {
        match comment_close(s, i + 1) {
            Some(j) => if i < j && j + 1 <= s.len() {
                trivia_end(s, j + 1)
            } else {
                TriviaResult::At(i)
            },
            None => TriviaResult::Unterminated(i),
        }
    } else {
        TriviaResult::At(i)
    }
}

/// The end of the run of letters and digits starting at `i`.
pub open spec fn ident_end(s: Seq<char>, i: int) -> int
    decreases s.len() - i,
{
    if 0 <= i < s.len() && is_alnum_char(s[i]) {
        ident_end(s, i + 1)
    } else {
        i
    }
}

/// The end of the run of digits starting at `i`.
pub open spec fn digits_end(s: Seq<char>, i: int) -> int
    decreases s.len() - i,
{
    if 0 <= i < s.len() && is_digit_char(s[i]) {
        digits_end(s, i + 1)
    } else {
        i
    }
}

/// The decimal value of the digits `s[i..k]`.
pub open spec fn digits_val(s: Seq<char>, i: int, k: int) -> int
    decreases k - i,
{
    if i < k {
        digits_val(s, i, k - 1) * 10 + digit_val(s[k - 1])
    } else {
        0
    }
}

pub open spec fn pow10(k: nat) -> int
    decreases k,
{
    if k == 0 {
        1
    } else {
        10 * pow10((k - 1) as nat)
    }
}

/// What one scanning step yields: a token and the position after it, or a
/// lexical failure.
pub enum ScanResult {
    Tok(TokenView, int),
    Fail(LexErrView),
}

pub open spec fn eof_token_view() -> TokenView {
    TokenView { kind: TokenKind::EOF, value: TokenValueView::Str(Seq::<char>::empty()) }
}

/// A keyword or identifier starting at the letter at `j`.
pub open spec fn scan_word(s: Seq<char>, j: int) -> ScanResult {
    let k = ident_end(s, j);
    let w = s.subrange(j, k);
    ScanResult::Tok(TokenView { kind: keyword_kind(w), value: TokenValueView::Str(w) }, k)
}

/// A numeric literal starting at the digit at `j`: an integer literal, or,
/// with a `.`, a real literal whose value is an exact decimal rational.
pub open spec fn scan_number(s: Seq<char>, j: int) -> ScanResult {
    let k = digits_end(s, j);
    let ival = digits_val(s, j, k);
    if k < s.len() && s[k] == '.' {
        let m = digits_end(s, k + 1);
        let c = (m - (k + 1)) as nat;
        let num = ival * pow10(c) + digits_val(s, k + 1, m);
        let den = pow10(c);
        if num <= i64::MAX as int && den <= i64::MAX as int {
            ScanResult::Tok(
                TokenView { kind: TokenKind::Real, value: TokenValueView::Real(norm_rat(num, den)) },
                m,
            )
        } else {
            ScanResult::Fail(LexErrView::NumberTooLarge(j))
        }
    } else {
        if ival <= i32::MAX as int {
            ScanResult::Tok(
                TokenView { kind: TokenKind::Integer, value: TokenValueView::Int(ival) },
                k,
            )
        } else {
            ScanResult::Fail(LexErrView::NumberTooLarge(j))
        }
    }
}

pub open spec fn symbol_token(kind: TokenKind, w: Seq<char>, end: int) -> ScanResult {
    ScanResult::Tok(TokenView { kind: kind, value: TokenValueView::Str(w) }, end)
}

/// A punctuation token starting at `j` (neither letter, digit, whitespace,
/// comment nor end).
pub open spec fn scan_symbol(s: Seq<char>, j: int) -> ScanResult {
    let c = s[j];
    if c == '+' {
        symbol_token(TokenKind::Plus, "+"@, j + 1)
    } else if c == '-' {
        symbol_token(TokenKind::Minus, "-"@, j + 1)
    } else if c == '*' {
        symbol_token(TokenKind::Multiply, "*"@, j + 1)
    } else if c == '/' {
        symbol_token(TokenKind::FloatDivide, "/"@, j + 1)
    } else if c == '(' {
        symbol_token(TokenKind::LParen, "("@, j + 1)
    } else if c == ')' {
        symbol_token(TokenKind::RParen, ")"@, j + 1)
    } else if c == ':' {
        if j + 1 < s.len() && s[j + 1] == '=' {
            symbol_token(TokenKind::Assign, ":="@, j + 2)
        } else {
            symbol_token(TokenKind::Colon, ":"@, j + 1)
        }
    } else if c == ';' {
        symbol_token(TokenKind::Semi, ";"@, j + 1)
    } else if c == '.' {
        symbol_token(TokenKind::Dot, "."@, j + 1)
    } else if c == ',' {
        symbol_token(TokenKind::Comma, ","@, j + 1)
    } else {
        ScanResult::Fail(LexErrView::Unrecognized(c, j))
    }
}

/// One whole scanning step from position `i`: skip trivia, then produce
/// the next token (an EOF token, forever, once the end is reached).
pub open spec fn scan_token(s: Seq<char>, i: int) -> ScanResult {
    match trivia_end(s, i) {
        TriviaResult::Unterminated(p) => ScanResult::Fail(LexErrView::Unterminated(p)),
        TriviaResult::At(j) => {
            if at_end(s, j) {
                ScanResult::Tok(eof_token_view(), j)
            } else if is_alpha_char(s[j]) {
                scan_word(s, j)
            } else if is_digit_char(s[j]) {
                scan_number(s, j)
            } else {
                scan_symbol(s, j)
            }
        },
    }
}

// ---------------------------------------------------------------------
// Facts about the scanning functions.
// ---------------------------------------------------------------------

pub proof fn lemma_ws_end(s: Seq<char>, i: int)
    requires
        0 <= i <= s.len(),
    ensures
        i <= ws_end(s, i) <= s.len(),
        ws_end(s, i) == s.len() || !is_space_char(s[ws_end(s, i)]),
    decreases s.len() - i,
{
    if 0 <= i < s.len() && is_space_char(s[i]) {
        lemma_ws_end(s, i + 1);
    }
}

pub proof fn lemma_comment_close(s: Seq<char>, i: int)
    requires
        0 <= i,
    ensures
        match comment_close(s, i) {
            Some(j) => i <= j < s.len() && s[j] == '}',
            None => true,
        },
    decreases s.len() - i,
{
    if 0 <= i < s.len() && s[i] != '}' {
        lemma_comment_close(s, i + 1);
    }
}

pub proof fn lemma_trivia_end(s: Seq<char>, i: int)
    requires
        0 <= i <= s.len(),
    ensures
        match trivia_end(s, i) {
            TriviaResult::At(j) => i <= j <= s.len() && trivia_end(s, j) == TriviaResult::At(j)
                && (!at_end(s, j) ==> !is_space_char(s[j]) && s[j] != '{'),
            TriviaResult::Unterminated(p) => i <= p < s.len(),
        },
    decreases s.len() - i,
{
    if !(0 <= i <= s.len()) {
    } else if at_end(s, i) {
    } else if is_space_char(s[i]) {
        lemma_trivia_end(s, i + 1);
    } else if s[i] == '{' {
        lemma_comment_close(s, i + 1);
        match comment_close(s, i + 1) {
            Some(j) => {
                lemma_trivia_end(s, j + 1);
            },
            None => {},
        }
    }
}

/// Skipping whitespace does not change where trivia skipping lands.
pub proof fn lemma_trivia_ws(s: Seq<char>, i: int)
    requires
        0 <= i <= s.len(),
    ensures
        trivia_end(s, ws_end(s, i)) == trivia_end(s, i),
    decreases s.len() - i,
{
    if 0 <= i < s.len() && is_space_char(s[i]) {
        lemma_trivia_ws(s, i + 1);
    }
}

pub proof fn lemma_ident_end(s: Seq<char>, i: int)
    requires
        0 <= i <= s.len(),
    ensures
        i <= ident_end(s, i) <= s.len(),
        forall|j: int| i <= j < ident_end(s, i) ==> is_alnum_char(s[j]),
        ident_end(s, i) == s.len() || !is_alnum_char(s[ident_end(s, i)]),
    decreases s.len() - i,
{
    if 0 <= i < s.len() && is_alnum_char(s[i]) {
        lemma_ident_end(s, i + 1);
    }
}

pub proof fn lemma_digits_end(s: Seq<char>, i: int)
    requires
        0 <= i <= s.len(),
    ensures
        i <= digits_end(s, i) <= s.len(),
        forall|j: int| i <= j < digits_end(s, i) ==> is_digit_char(s[j]),
        digits_end(s, i) == s.len() || !is_digit_char(s[digits_end(s, i)]),
    decreases s.len() - i,
{
    if 0 <= i < s.len() && is_digit_char(s[i]) {
        lemma_digits_end(s, i + 1);
    }
}

pub proof fn lemma_pow10_pos(k: nat)
    ensures
        pow10(k) >= 1,
    decreases k,
{
    if k > 0 {
        lemma_pow10_pos((k - 1) as nat);
    }
}

pub proof fn lemma_digits_val_nonneg(s: Seq<char>, i: int, k: int)
    requires
        forall|j: int| i <= j < k ==> is_digit_char(s[j]),
    ensures
        digits_val(s, i, k) >= 0,
    decreases k - i,
{
    if i < k {
        lemma_digits_val_nonneg(s, i, k - 1);
        assert(digits_val(s, i, k - 1) * 10 >= 0) by (nonlinear_arith)
            requires
                digits_val(s, i, k - 1) >= 0,
        ;
    }
}

/// Splitting a digit run at `mid` splits its value positionally.
pub proof fn lemma_digits_val_split(s: Seq<char>, i: int, mid: int, k: int)
    requires
        i <= mid <= k,
    ensures
        digits_val(s, i, k) == digits_val(s, i, mid) * pow10((k - mid) as nat) + digits_val(
            s,
            mid,
            k,
        ),
    decreases k - mid,
{
    if mid == k {
        assert(pow10(0) == 1);
    } else {
        lemma_digits_val_split(s, i, mid, k - 1);
        let a = digits_val(s, i, mid);
        let p = pow10((k - 1 - mid) as nat);
        assert(pow10((k - mid) as nat) == 10 * p);
        assert((a * p + digits_val(s, mid, k - 1)) * 10 + digit_val(s[k - 1]) == a * (10 * p)
            + (digits_val(s, mid, k - 1) * 10 + digit_val(s[k - 1]))) by (nonlinear_arith);
    }
}

/// A longer digit run never has a smaller value.
pub proof fn lemma_digits_val_mono(s: Seq<char>, i: int, mid: int, k: int)
    requires
        i <= mid <= k,
        forall|j: int| i <= j < k ==> is_digit_char(s[j]),
    ensures
        digits_val(s, i, k) >= digits_val(s, i, mid),
{
    lemma_digits_val_split(s, i, mid, k);
    lemma_digits_val_nonneg(s, i, mid);
    lemma_digits_val_nonneg(s, mid, k);
    lemma_pow10_pos((k - mid) as nat);
    let a = digits_val(s, i, mid);
    let p = pow10((k - mid) as nat);
    assert(a * p >= a) by (nonlinear_arith)
        requires
            a >= 0,
            p >= 1,
    ;
}

pub proof fn lemma_pow10_mono(a: nat, b: nat)
    requires
        a <= b,
    ensures
        pow10(a) <= pow10(b),
    decreases b,
{
    if a < b {
        lemma_pow10_mono(a, (b - 1) as nat);
        lemma_pow10_pos((b - 1) as nat);
    }
}

/// Normalizing a ratio of bounded nonnegative components stays bounded.
pub proof fn lemma_norm_fits(n: int, d: int)
    requires
        0 <= n <= i64::MAX as int,
        0 < d <= i64::MAX as int,
    ensures
        rat_fits(norm_rat(n, d)),
        norm_rat(n, d).n >= 0,
{
    let g = gcd_nat(abs_int(n) as nat, d as nat) as int;
    lemma_gcd_pos(abs_int(n) as nat, d as nat);
    lemma_gcd_reduced(abs_int(n) as nat, d as nat);
    lemma_gcd_divides(abs_int(n) as nat, d as nat);
    lemma_div_exact(n, g);
    lemma_div_exact(d, g);
    assert(n / g >= 0 && n / g <= n) by (nonlinear_arith)
        requires
            n == g * (n / g),
            g >= 1,
            n >= 0,
    ;
    assert(d / g <= d) by (nonlinear_arith)
        requires
            d == g * (d / g),
            g >= 1,
            d > 0,
            d / g > 0,
    ;
}

/// Once the end is reached, scanning yields the EOF token and stays put.
pub proof fn lemma_scan_eof(s: Seq<char>, i: int)
    requires
        0 <= i <= s.len(),
        at_end(s, i),
    ensures
        scan_token(s, i) == ScanResult::Tok(eof_token_view(), i),
{
}

pub proof fn lemma_pow10_add(a: nat, b: nat)
    ensures
        pow10(a + b) == pow10(a) * pow10(b),
    decreases b,
{
    if b == 0 {
        assert(pow10(a) * 1 == pow10(a)) by (nonlinear_arith);
    } else {
        lemma_pow10_add(a, (b - 1) as nat);
        assert(pow10(a + b) == 10 * pow10((a + b - 1) as nat));
        assert(10 * (pow10(a) * pow10((b - 1) as nat)) == pow10(a) * (10 * pow10(
            (b - 1) as nat,
        ))) by (nonlinear_arith);
    }
}

/// If a prefix of the digit run is already too large, the whole literal is
/// rejected as out of range.
proof fn lemma_scan_number_large(s: Seq<char>, j: int, p: int)
    requires
        0 <= j <= p <= digits_end(s, j),
        digits_val(s, j, p) > i64::MAX as int,
    ensures
        scan_number(s, j) == ScanResult::Fail(LexErrView::NumberTooLarge(j)),
{
    let k = digits_end(s, j);
    lemma_digits_end(s, j);
    lemma_digits_val_mono(s, j, p, k);
    let ival = digits_val(s, j, k);
    if k < s.len() && s[k] == '.' {
        let m = digits_end(s, k + 1);
        lemma_digits_end(s, k + 1);
        lemma_digits_val_nonneg(s, k + 1, m);
        lemma_pow10_pos((m - (k + 1)) as nat);
        assert(ival * pow10((m - (k + 1)) as nat) >= ival) by (nonlinear_arith)
            requires
                ival >= 0,
                pow10((m - (k + 1)) as nat) >= 1,
        ;
    }
}

// ---------------------------------------------------------------------
// The executable lexer.
// ---------------------------------------------------------------------

/// ASCII whitespace test.
pub fn is_space(c: char) -> (r: bool)
    ensures
        r == is_space_char(c),
{
    c == ' ' || c == '\t' || c == '\n' || c == '\r' || c == '\u{b}' || c == '\u{c}'
}

/// ASCII digit test.
pub fn is_digit(c: char) -> (r: bool)
    ensures
        r == is_digit_char(c),
{
    let u = c as u32;
    48 <= u && u <= 57
}

/// ASCII letter test.
pub fn is_alpha(c: char) -> (r: bool)
    ensures
        r == is_alpha_char(c),
{
    let u = c as u32;
    (65 <= u && u <= 90) || (97 <= u && u <= 122)
}

pub fn is_alnum(c: char) -> (r: bool)
    ensures
        r == is_alnum_char(c),
{
    is_alpha(c) || is_digit(c)
}

/// The lexer: the source text, a cursor, and the character under it
/// (the NUL sentinel once the end is passed).
#[derive(Debug)]
pub struct Lexer {
    text: String,
    length: usize,
    pos: usize,
    current_char: char,
}

impl Lexer {
    /// The text being scanned, as a sequence of characters.
    pub closed spec fn text_view(&self) -> Seq<char> {
        self.text@
    }

    /// The cursor: the position the next scan starts from.
    pub closed spec fn pos_view(&self) -> int {
        self.pos as int
    }

    pub closed spec fn wf(&self) -> bool {
        self.length == self.text@.len() && self.pos <= self.length && self.current_char == char_at(
            self.text@,
            self.pos as int,
        )
    }

    /// The cursor of a well-formed lexer lies within its text.
    pub proof fn lemma_bounds(&self)
        requires
            self.wf(),
        ensures
            0 <= self.pos_view() <= self.text_view().len(),
    {
    }

    pub fn new(text: String) -> (r: Lexer)
        ensures
            r.wf(),
            r.text_view() == text@,
            r.pos_view() == 0,
    {
        let length = text.as_str().unicode_len();
        let current_char = if length > 0 {
            text.as_str().get_char(0)
        } else {
            '\0'
        };
        Lexer { text, length, pos: 0, current_char }
    }

    /// Moves the cursor one character forward; at the end it stays and the
    /// current character remains the NUL sentinel.
    pub fn advance(&mut self)
        requires
            old(self).wf(),
        ensures
            final(self).wf(),
            final(self).text_view() == old(self).text_view(),
            final(self).pos_view() == if old(self).pos_view() < old(self).text_view().len() {
                old(self).pos_view() + 1
            } else {
                old(self).pos_view()
            },
    {
        if self.pos < self.length {
            self.pos = self.pos + 1;
        }
        self.current_char = if self.pos < self.length {
            self.text.as_str().get_char(self.pos)
        } else {
            '\0'
        };
    }

    /// Skips the whitespace run under the cursor.
    #[verifier::loop_isolation(false)]
    pub fn skip_whitespace(&mut self)
        requires
            old(self).wf(),
        ensures
            final(self).wf(),
            final(self).text_view() == old(self).text_view(),
            final(self).pos_view() == ws_end(old(self).text_view(), old(self).pos_view()),
    {
        let ghost s = self.text@;
        while self.pos < self.length && is_space(self.current_char)
            invariant
                self.wf(),
                self.text@ == s,
                ws_end(s, self.pos as int) == ws_end(s, old(self).pos_view()),
            decreases self.length - self.pos,
        {
            self.advance();
        }
    }

    /// The character after the cursor, if there is one.
    pub fn peek(&self) -> (r: Option<char>)
        requires
            self.wf(),
        ensures
            r == if self.pos_view() + 1 < self.text_view().len() {
                Some(self.text_view()[self.pos_view() + 1])
            } else {
                None::<char>
            },
    {
        if self.length - self.pos > 1 {
            Some(self.text.as_str().get_char(self.pos + 1))
        } else {
            None
        }
    }

    /// Skips forward past the first `}`.  Returns whether one was found;
    /// otherwise the cursor is left at the end of the text.
    #[verifier::loop_isolation(false)]
    pub fn skip_comment(&mut self) -> (found: bool)
        requires
            old(self).wf(),
        ensures
            final(self).wf(),
            final(self).text_view() == old(self).text_view(),
            match comment_close(old(self).text_view(), old(self).pos_view()) {
                Some(j) => found && final(self).pos_view() == j + 1,
                None => !found && final(self).pos_view() == old(self).text_view().len(),
            },
    {
        let ghost s = self.text@;
        proof {
            lemma_comment_close(s, self.pos as int);
        }
        while self.pos < self.length && self.current_char != '}'
            invariant
                self.wf(),
                self.text@ == s,
                comment_close(s, self.pos as int) == comment_close(s, old(self).pos_view()),
            decreases self.length - self.pos,
        {
            self.advance();
        }
        if self.pos < self.length {
            self.advance();
            true
        } else {
            false
        }
    }

    /// Scans the run of letters and digits under the cursor into a keyword
    /// or identifier token.
    #[verifier::loop_isolation(false)]
    fn id(&mut self) -> (t: Token)
        requires
            old(self).wf(),
            old(self).pos_view() < old(self).text_view().len(),
            is_alpha_char(old(self).text_view()[old(self).pos_view()]),
        ensures
            final(self).wf(),
            final(self).text_view() == old(self).text_view(),
            token_wf(t),
            scan_word(old(self).text_view(), old(self).pos_view()) == ScanResult::Tok(
                t@,
                final(self).pos_view(),
            ),
    {
        let ghost s = self.text@;
        let start = self.pos;
        proof {
            lemma_ident_end(s, start as int);
        }
        while self.pos < self.length && is_alnum(self.current_char)
            invariant
                self.wf(),
                self.text@ == s,
                start as int <= self.pos as int <= ident_end(s, start as int),
                ident_end(s, self.pos as int) == ident_end(s, start as int),
            decreases self.length - self.pos,
        {
            proof {
                lemma_ident_end(s, self.pos as int + 1);
            }
            self.advance();
        }
        let w = self.text.as_str().substring_char(start, self.pos);
        let kind = lookup_keyword(w);
        Token::new(kind, TokenValue::Str(w.to_owned()))
    }

    /// Scans the digit run under the cursor into an integer literal, or,
    /// with a decimal point, a real literal.
    #[verifier::loop_isolation(false)]
    fn number(&mut self) -> (r: Result<Token, LexicalError>)
        requires
            old(self).wf(),
            old(self).pos_view() < old(self).text_view().len(),
            is_digit_char(old(self).text_view()[old(self).pos_view()]),
        ensures
            final(self).wf(),
            final(self).text_view() == old(self).text_view(),
            match r {
                Ok(t) => token_wf(t) && scan_number(old(self).text_view(), old(self).pos_view())
                    == ScanResult::Tok(t@, final(self).pos_view()),
                Err(e) => scan_number(old(self).text_view(), old(self).pos_view())
                    == ScanResult::Fail(e@),
            },
    {
        let ghost s = self.text@;
        let start = self.pos;
        let ghost j = start as int;
        proof {
            lemma_digits_end(s, j);
        }
        let ghost k = digits_end(s, j);
        let mut val: i128 = 0;
        while self.pos < self.length && is_digit(self.current_char)
            invariant
                self.wf(),
                self.text@ == s,
                j == start as int,
                k == digits_end(s, j),
                j <= self.pos as int <= k,
                digits_end(s, self.pos as int) == k,
                val == digits_val(s, j, self.pos as int),
                0 <= val <= i64::MAX as i128,
            decreases self.length - self.pos,
        {
            let ghost p = self.pos as int;
            let d: i128 = (self.current_char as u32 - 48) as i128;
            val = val * 10 + d;
            proof {
                lemma_digits_end(s, p + 1);
                assert(digits_val(s, j, p + 1) == digits_val(s, j, p) * 10 + digit_val(s[p]));
            }
            if val > i64::MAX as i128 {
                proof {
                    lemma_scan_number_large(s, j, p + 1);
                }
                return Err(LexicalError::NumberTooLarge(start));
            }
            self.advance();
        }
        // the cursor is now at the end of the digit run
        let ival = val;
        if self.pos < self.length && self.current_char == '.' {
            self.advance();
            let ghost f = self.pos as int;
            proof {
                assert(f == k + 1);
                lemma_digits_end(s, f);
            }
            let ghost m = digits_end(s, f);
            let mut den: i128 = 1;
            while self.pos < self.length && is_digit(self.current_char)
                invariant
                    self.wf(),
                    self.text@ == s,
                    j == start as int,
                    k == digits_end(s, j),
                    0 <= j <= k < s.len(),
                    s[k] == '.',
                    f == k + 1,
                    m == digits_end(s, f),
                    f <= self.pos as int <= m,
                    digits_end(s, self.pos as int) == m,
                    0 <= ival <= i64::MAX as i128,
                    ival == digits_val(s, j, k),
                    den == pow10((self.pos as int - f) as nat),
                    1 <= den <= i64::MAX as i128,
                    val == ival * den + digits_val(s, f, self.pos as int),
                    0 <= val <= i64::MAX as i128,
                decreases self.length - self.pos,
            {
                let ghost p = self.pos as int;
                let ghost c = (p - f) as nat;
                let d: i128 = (self.current_char as u32 - 48) as i128;
                den = den * 10;
                val = val * 10 + d;
                proof {
                    lemma_digits_end(s, p + 1);
                    assert(digits_val(s, f, p + 1) == digits_val(s, f, p) * 10 + digit_val(s[p]));
                    assert(pow10(c + 1) == 10 * pow10(c));
                    assert((ival * pow10(c) + digits_val(s, f, p)) * 10 + digit_val(s[p]) == ival
                        * (10 * pow10(c)) + (digits_val(s, f, p) * 10 + digit_val(s[p])))
                        by (nonlinear_arith);
                    assert((p + 1 - f) as nat == c + 1);
                }
                if val > i64::MAX as i128 {
                    proof {
                        lemma_real_prefix_large(s, j, k, p + 1);
                    }
                    return Err(LexicalError::NumberTooLarge(start));
                }
                if den > i64::MAX as i128 {
                    proof {
                        lemma_real_den_large(s, j, k, p + 1);
                    }
                    return Err(LexicalError::NumberTooLarge(start));
                }
                self.advance();
            }
            // the cursor is at the end of the fraction digits
            proof {
                lemma_digits_val_nonneg(s, f, m);
                lemma_norm_fits(val as int, den as int);
            }
            match Rational::new(val as i64, den as i64) {
                Some(q) => Ok(Token::new(TokenKind::Real, TokenValue::Real(q))),
                None => {
                    proof {
                        assert(false);
                    }
                    Err(LexicalError::NumberTooLarge(start))
                },
            }
        } else {
            if ival > i32::MAX as i128 {
                Err(LexicalError::NumberTooLarge(start))
            } else {
                Ok(Token::new(TokenKind::Integer, TokenValue::Int(ival as i32)))
            }
        }
    }

    /// Produces the next token, or a lexical failure.  At the end of the
    /// input it returns an EOF token, forever, without moving.
    #[verifier::loop_isolation(false)]
    pub fn get_next_token(&mut self) -> (r: Result<Token, LexicalError>)
        requires
            old(self).wf(),
        ensures
            final(self).wf(),
            final(self).text_view() == old(self).text_view(),
            match r {
                Ok(t) => token_wf(t) && scan_token(old(self).text_view(), old(self).pos_view())
                    == ScanResult::Tok(t@, final(self).pos_view()),
                Err(e) => scan_token(old(self).text_view(), old(self).pos_view())
                    == ScanResult::Fail(e@),
            },
    {
        let ghost s = self.text@;
        let ghost p0 = self.pos as int;
        let ghost q0 = self.pos as int;
        self.skip_whitespace();
        proof {
            lemma_trivia_ws(s, q0);
            lemma_ws_end(s, q0);
        }
        while self.pos < self.length && self.current_char == '{'
            invariant
                self.wf(),
                self.text@ == s,
                trivia_end(s, self.pos as int) == trivia_end(s, p0),
                self.pos as int == s.len() || !is_space_char(s[self.pos as int]),
            decreases self.length - self.pos,
        {
            let bracepos = self.pos;
            self.advance();
            let found = self.skip_comment();
            proof {
                lemma_comment_close(s, bracepos as int + 1);
            }
            if !found {
                return Err(LexicalError::Unterminated(bracepos));
            }
            let ghost q = self.pos as int;
            self.skip_whitespace();
            proof {
                lemma_trivia_ws(s, q);
                lemma_ws_end(s, q);
            }
        }
        proof {
            assert(trivia_end(s, self.pos as int) == TriviaResult::At(self.pos as int));
        }
        if self.current_char == '\0' {
            return Ok(Token::new(TokenKind::EOF, TokenValue::Str(String::new())));
        }
        let c = self.current_char;
        if is_alpha(c) {
            return Ok(self.id());
        }
        if is_digit(c) {
            return self.number();
        }
        let sympos = self.pos;
        if c == '+' {
            self.advance();
            Ok(Token::new(TokenKind::Plus, TokenValue::Str(String::from_str("+"))))
        } else if c == '-' {
            self.advance();
            Ok(Token::new(TokenKind::Minus, TokenValue::Str(String::from_str("-"))))
        } else if c == '*' {
            self.advance();
            Ok(Token::new(TokenKind::Multiply, TokenValue::Str(String::from_str("*"))))
        } else if c == '/' {
            self.advance();
            Ok(Token::new(TokenKind::FloatDivide, TokenValue::Str(String::from_str("/"))))
        } else if c == '(' {
            self.advance();
            Ok(Token::new(TokenKind::LParen, TokenValue::Str(String::from_str("("))))
        } else if c == ')' {
            self.advance();
            Ok(Token::new(TokenKind::RParen, TokenValue::Str(String::from_str(")"))))
        } else if c == ':' {
            let next = self.peek();
            let is_assign = match next {
                Some(e) => e == '=',
                None => false,
            };
            if is_assign {
                self.advance();
                self.advance();
                Ok(Token::new(TokenKind::Assign, TokenValue::Str(String::from_str(":="))))
            } else {
                self.advance();
                Ok(Token::new(TokenKind::Colon, TokenValue::Str(String::from_str(":"))))
            }
        } else if c == ';' {
            self.advance();
            Ok(Token::new(TokenKind::Semi, TokenValue::Str(String::from_str(";"))))
        } else if c == '.' {
            self.advance();
            Ok(Token::new(TokenKind::Dot, TokenValue::Str(String::from_str("."))))
        } else if c == ',' {
            self.advance();
            Ok(Token::new(TokenKind::Comma, TokenValue::Str(String::from_str(","))))
        } else {
            Err(LexicalError::Unrecognized(c, sympos))
        }
    }
}

/// A too-large running value of a real literal rejects the whole literal.
proof fn lemma_real_prefix_large(s: Seq<char>, j: int, k: int, p: int)
    requires
        0 <= j <= k < s.len(),
        k == digits_end(s, j),
        s[k] == '.',
        k + 1 <= p <= digits_end(s, k + 1),
        digits_val(s, j, k) * pow10((p - (k + 1)) as nat) + digits_val(s, k + 1, p) > i64::MAX
            as int,
    ensures
        scan_number(s, j) == ScanResult::Fail(LexErrView::NumberTooLarge(j)),
{
    let f = k + 1;
    let m = digits_end(s, f);
    let ival = digits_val(s, j, k);
    lemma_digits_end(s, j);
    lemma_digits_end(s, f);
    lemma_digits_val_nonneg(s, j, k);
    lemma_digits_val_split(s, f, p, m);
    lemma_digits_val_nonneg(s, f, p);
    lemma_digits_val_nonneg(s, p, m);
    lemma_pow10_pos((m - p) as nat);
    lemma_pow10_pos((p - f) as nat);
    lemma_pow10_add((p - f) as nat, (m - p) as nat);
    let vpre = ival * pow10((p - f) as nat) + digits_val(s, f, p);
    let num = ival * pow10((m - f) as nat) + digits_val(s, f, m);
    assert(num == vpre * pow10((m - p) as nat) + digits_val(s, p, m)) by (nonlinear_arith)
        requires
            pow10((m - f) as nat) == pow10((p - f) as nat) * pow10((m - p) as nat),
            digits_val(s, f, m) == digits_val(s, f, p) * pow10((m - p) as nat) + digits_val(
                s,
                p,
                m,
            ),
            vpre == ival * pow10((p - f) as nat) + digits_val(s, f, p),
            num == ival * pow10((m - f) as nat) + digits_val(s, f, m),
    ;
    assert(num >= vpre) by (nonlinear_arith)
        requires
            num == vpre * pow10((m - p) as nat) + digits_val(s, p, m),
            vpre >= 0,
            pow10((m - p) as nat) >= 1,
            digits_val(s, p, m) >= 0,
    ;
}

/// A too-large denominator (too many fraction digits) rejects the literal.
proof fn lemma_real_den_large(s: Seq<char>, j: int, k: int, p: int)
    requires
        0 <= j <= k < s.len(),
        k == digits_end(s, j),
        s[k] == '.',
        k + 1 <= p <= digits_end(s, k + 1),
        pow10((p - (k + 1)) as nat) > i64::MAX as int,
    ensures
        scan_number(s, j) == ScanResult::Fail(LexErrView::NumberTooLarge(j)),
{
    let f = k + 1;
    let m = digits_end(s, f);
    lemma_digits_end(s, j);
    lemma_digits_end(s, f);
    lemma_pow10_mono((p - f) as nat, (m - f) as nat);
}

} // verus!
