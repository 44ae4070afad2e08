//! The lexer: what the next token of a text is, and the scan that finds it.
use crate::decimal::{
    all_digits, decimal_value, from_decimal, lemma_value_monotone, lemma_value_push,
    spec_from_decimal,
};
use crate::errors::{Error, ErrorView};
use crate::names::{rank, Rank};
use crate::strings::{chars_of, string_of};
use crate::token::{Kind, KindView, Token, TokenView};
use crate::var_type::VarType;
use vstd::prelude::*;

verus! {

/// ASCII white space: space, tab, line feed, form feed, carriage return.
pub open spec fn is_space(c: char) -> bool {
    c == ' ' || c == '\t' || c == '\n' || c == '\x0C' || c == '\r'
}

/// An ASCII letter.
pub open spec fn is_letter(c: char) -> bool {
    ('a' <= c && c <= 'z') || ('A' <= c && c <= 'Z')
}

/// An ASCII decimal digit.
pub open spec fn is_digit(c: char) -> bool {
    '0' <= c && c <= '9'
}

/// An ASCII letter or decimal digit.
pub open spec fn is_alphanumeric(c: char) -> bool {
    is_letter(c) || is_digit(c)
}

/// The number that a decimal digit stands for.
pub open spec fn digit_of(c: char) -> u8 {
    (c as u32 - 48) as u8
}

/// The numbers that a run of decimal digits stands for.
pub open spec fn digit_values(cs: Seq<char>) -> Seq<u8> {
    Seq::new(cs.len(), |i: int| digit_of(cs[i]))
}

/// Where the next token starts: the first position from `pos` on that is
/// neither white space nor inside a comment. A comment runs from `{` to the
/// first `}` after it, or to the end of the text; comments do not nest.
pub open spec fn skip(text: Seq<char>, pos: int, in_comment: bool) -> int
    decreases text.len() - pos,
{
    if pos < 0 || pos >= text.len() {
        pos
    } else if in_comment {
        skip(text, pos + 1, text[pos] != '}')
    } else if text[pos] == '{' {
        skip(text, pos + 1, true)
    } else if is_space(text[pos]) {
        skip(text, pos + 1, false)
    } else {
        pos
    }
}

/// Where the comment ends in which `pos` lies: after the first `}` from
/// `pos` on, or at the end of the text.
pub open spec fn comment_end(text: Seq<char>, pos: int) -> int
    decreases text.len() - pos,
{
    if pos < 0 || pos >= text.len() {
        pos
    } else if text[pos] == '}' {
        pos + 1
    } else {
        comment_end(text, pos + 1)
    }
}

/// Where the run of white space that starts at `pos` ends.
pub open spec fn spaces_end(text: Seq<char>, pos: int) -> int
    decreases text.len() - pos,
{
    if 0 <= pos < text.len() && is_space(text[pos]) {
        spaces_end(text, pos + 1)
    } else {
        pos
    }
}

/// Where the run of letters and digits that starts at `pos` ends.
pub open spec fn word_end(text: Seq<char>, pos: int) -> int
    decreases text.len() - pos,
{
    if 0 <= pos < text.len() && is_alphanumeric(text[pos]) {
        word_end(text, pos + 1)
    } else {
        pos
    }
}

/// Where the run of digits that starts at `pos` ends.
pub open spec fn digits_end(text: Seq<char>, pos: int) -> int
    decreases text.len() - pos,
{
    if 0 <= pos < text.len() && is_digit(text[pos]) {
        digits_end(text, pos + 1)
    } else {
        pos
    }
}

/// The kind of token that a run of letters and digits is: a reserved word,
/// matched with regard to case, or else an identifier.
pub open spec fn word_kind(word: Seq<char>) -> KindView {
    if word == "PROGRAM"@ {
        KindView::PROGRAM
    } else if word == "VAR"@ {
        KindView::VAR
    } else if word == "DIV"@ {
        KindView::INTEGER_DIV
    } else if word == "INTEGER"@ {
        KindView::TYPE(VarType::INTEGER)
    } else if word == "REAL"@ {
        KindView::TYPE(VarType::REAL)
    } else if word == "BEGIN"@ {
        KindView::BEGIN
    } else if word == "END"@ {
        KindView::END
    } else if word == "PROCEDURE"@ {
        KindView::PROCEDURE
    } else {
        KindView::ID(word)
    }
}

/// The kind of token that a character is by itself, if any.
pub open spec fn single_kind(c: char) -> Option<KindView> {
    if c == ';' {
        Some(KindView::SEMI)
    } else if c == '*' {
        Some(KindView::MUL)
    } else if c == '-' {
        Some(KindView::MINUS)
    } else if c == ',' {
        Some(KindView::COMMA)
    } else if c == '+' {
        Some(KindView::PLUS)
    } else if c == '/' {
        Some(KindView::FLOAT_DIV)
    } else if c == ':' {
        Some(KindView::COLON)
    } else if c == '(' {
        Some(KindView::LPAREN)
    } else if c == ')' {
        Some(KindView::RPAREN)
    } else if c == '.' {
        Some(KindView::DOT)
    } else {
        None
    }
}

/// What a scan finds: the kind of the next token, or the character that is
/// refused, with the positions where the token starts and ends.
pub struct Scan {
    pub result: Result<KindView, char>,
    pub start: int,
    pub end: int,
}

/// Whether the numeric literal that starts at `start` has a value: a real
/// always has one, an integer only if it is no more than `i32::MAX`.
pub open spec fn number_fits(text: Seq<char>, start: int) -> bool {
    let dot = digits_end(text, start);
    (dot < text.len() && text[dot] == '.') || decimal_value(
        digit_values(text.subrange(start, dot)),
    ) <= i32::MAX
}

/// The numeric literal that starts at `start`. A run of digits is an integer;
/// a point right after it, with the digits that follow, makes it a real,
/// rounded to the nearest value; a second point is not part of it.
pub open spec fn scan_number(text: Seq<char>, start: int) -> Scan {
    let dot = digits_end(text, start);
    let whole = digit_values(text.subrange(start, dot));
    if dot < text.len() && text[dot] == '.' {
        let end = digits_end(text, dot + 1);
        let fraction = digit_values(text.subrange(dot + 1, end));
        Scan { result: Ok(KindView::REAL_CONST(spec_from_decimal(whole, fraction))), start, end }
    } else {
        Scan { result: Ok(KindView::INTEGER_CONST(decimal_value(whole) as i32)), start, end: dot }
    }
}

/// Whether the next token from `pos` on, if it is a numeric literal, has a
/// value.
pub open spec fn token_fits(text: Seq<char>, pos: int) -> bool {
    let start = skip(text, pos, false);
    0 <= start < text.len() && is_digit(text[start]) ==> number_fits(text, start)
}

/// Whether every numeric literal has a value that the lexer meets from `pos`
/// on, token after token, up to the end of the text or to the first
/// character that is refused.
pub open spec fn literals_fit(text: Seq<char>, pos: int) -> bool
    decreases text.len() - pos,
{
    if pos < 0 || pos > text.len() {
        true
    } else if !token_fits(text, pos) {
        false
    } else if scan(text, pos).result is Ok && scan(text, pos).start < text.len() {
        proof {
            lemma_scan_bounds(text, pos);
        }
        literals_fit(text, scan(text, pos).end)
    } else {
        true
    }
}

/// The next token from `pos` on: white space and comments are passed over;
/// then comes the end of the text, a word, a number, `:=`, or a token of one
/// character. Any other character is refused.
pub open spec fn scan(text: Seq<char>, pos: int) -> Scan {
    let start = skip(text, pos, false);
    if start < 0 || start >= text.len() {
        Scan { result: Ok(KindView::EOF), start, end: start }
    } else if is_letter(text[start]) {
        let end = word_end(text, start);
        Scan { result: Ok(word_kind(text.subrange(start, end))), start, end }
    } else if is_digit(text[start]) {
        scan_number(text, start)
    } else if text[start] == ':' && start + 1 < text.len() && text[start + 1] == '=' {
        Scan { result: Ok(KindView::ASSIGN), start, end: start + 2 }
    } else {
        match single_kind(text[start]) {
            Some(kind) => Scan { result: Ok(kind), start, end: start + 1 },
            None => Scan { result: Err(text[start]), start, end: start },
        }
    }
}

/// The number of line feeds before `pos`.
pub open spec fn newlines_before(text: Seq<char>, pos: int) -> nat
    decreases pos,
{
    if pos <= 0 || pos > text.len() {
        0
    } else {
        newlines_before(text, pos - 1) + if text[pos - 1] == '\n' {
            1nat
        } else {
            0nat
        }
    }
}

/// The number of characters between the last line feed before `pos`, or the
/// start of the text, and `pos`.
pub open spec fn since_newline(text: Seq<char>, pos: int) -> nat
    decreases pos,
{
    if pos <= 0 || pos > text.len() || text[pos - 1] == '\n' {
        0
    } else {
        since_newline(text, pos - 1) + 1
    }
}

/// The token of the given kind that starts at `start`. Line and column count
/// from 1; the end of the text has no place and carries 0 for both.
pub open spec fn token_at(text: Seq<char>, kind: KindView, start: int) -> TokenView {
    if kind is EOF {
        TokenView { kind, lineno: 0, column: 0 }
    } else {
        TokenView {
            kind,
            lineno: newlines_before(text, start) + 1,
            column: since_newline(text, start) + 1,
        }
    }
}

/// There are no more line feeds, and no more characters since the last one,
/// than characters before the position.
pub proof fn lemma_counts_bounded(text: Seq<char>, pos: int)
    requires
        0 <= pos <= text.len(),
    ensures
        newlines_before(text, pos) <= pos,
        since_newline(text, pos) <= pos,
    decreases pos,
{
    if pos > 0 {
        lemma_counts_bounded(text, pos - 1);
    }
}

/// Skipping never moves backwards and never leaves the text.
pub proof fn lemma_skip_bounds(text: Seq<char>, pos: int, in_comment: bool)
    requires
        0 <= pos <= text.len(),
    ensures
        pos <= skip(text, pos, in_comment) <= text.len(),
    decreases text.len() - pos,
{
    if pos < text.len() {
        lemma_skip_bounds(text, pos + 1, true);
        lemma_skip_bounds(text, pos + 1, false);
    }
}

/// Skipping from inside a comment is skipping from where the comment ends.
pub proof fn lemma_skip_comment(text: Seq<char>, pos: int)
    requires
        0 <= pos <= text.len(),
    ensures
        pos <= comment_end(text, pos) <= text.len(),
        skip(text, pos, true) == skip(text, comment_end(text, pos), false),
    decreases text.len() - pos,
{
    if pos < text.len() && text[pos] != '}' {
        lemma_skip_comment(text, pos + 1);
    }
}

/// Skipping from white space is skipping from where the white space ends.
pub proof fn lemma_skip_spaces(text: Seq<char>, pos: int)
    requires
        0 <= pos <= text.len(),
    ensures
        pos <= spaces_end(text, pos) <= text.len(),
        skip(text, pos, false) == skip(text, spaces_end(text, pos), false),
    decreases text.len() - pos,
{
    if pos < text.len() && is_space(text[pos]) {
        lemma_skip_spaces(text, pos + 1);
    }
}

/// A word ends no earlier than it starts, and within the text.
pub proof fn lemma_word_end_bounds(text: Seq<char>, pos: int)
    requires
        0 <= pos <= text.len(),
    ensures
        pos <= word_end(text, pos) <= text.len(),
    decreases text.len() - pos,
{
    if pos < text.len() && is_alphanumeric(text[pos]) {
        lemma_word_end_bounds(text, pos + 1);
    }
}

/// A run of digits ends no earlier than it starts, and within the text.
pub proof fn lemma_digits_end_bounds(text: Seq<char>, pos: int)
    requires
        0 <= pos <= text.len(),
    ensures
        pos <= digits_end(text, pos) <= text.len(),
    decreases text.len() - pos,
{
    if pos < text.len() && is_digit(text[pos]) {
        lemma_digits_end_bounds(text, pos + 1);
    }
}

/// A scan starts no earlier than where it was asked to, ends no earlier than
/// it starts, and ends after its start unless it found the end of the text
/// or a refused character.
pub proof fn lemma_scan_bounds(text: Seq<char>, pos: int)
    requires
        0 <= pos <= text.len(),
    ensures
        pos <= scan(text, pos).start <= scan(text, pos).end <= text.len(),
        scan(text, pos).result == Ok::<KindView, char>(KindView::EOF) <==> scan(text, pos).start
            == text.len(),
        scan(text, pos).result is Ok && scan(text, pos).start < text.len() ==> scan(
            text,
            pos,
        ).start < scan(text, pos).end,
{
    lemma_skip_bounds(text, pos, false);
    let start = skip(text, pos, false);
    if start < text.len() {
        lemma_word_end_bounds(text, start + 1);
        lemma_digits_end_bounds(text, start + 1);
        let dot = digits_end(text, start);
        if is_digit(text[start]) && dot < text.len() {
            lemma_digits_end_bounds(text, dot + 1);
        }
        if is_letter(text[start]) {
            lemma_word_is_no_end(text.subrange(start, word_end(text, start)));
        }
    }
}

/// Once a scan has found the end of the text, every further scan finds it
/// again, at the same place.
pub proof fn lemma_end_repeats(text: Seq<char>, pos: int)
    requires
        0 <= pos <= text.len(),
        scan(text, pos).result == Ok::<KindView, char>(KindView::EOF),
    ensures
        scan(text, scan(text, pos).end) == scan(text, pos),
{
    lemma_scan_bounds(text, pos);
}

/// A character is refused exactly when, after white space and comments, it
/// is no letter, no digit and none of `; * - + / , : ( ) .`; the error
/// carries that character.
pub proof fn lemma_invalid_character(text: Seq<char>, pos: int, c: char)
    ensures
        scan(text, pos).result == Err::<KindView, char>(c) <==> {
            let start = skip(text, pos, false);
            &&& 0 <= start < text.len()
            &&& text[start] == c
            &&& !is_letter(c)
            &&& !is_digit(c)
            &&& single_kind(c) is None
        },
{
}

/// If the literals fit from a position on, the next token's does, and the
/// literals fit from where that token ends.
pub proof fn lemma_literals_fit_on(text: Seq<char>, pos: int)
    requires
        0 <= pos <= text.len(),
        literals_fit(text, pos),
    ensures
        token_fits(text, pos),
        scan(text, pos).result is Ok ==> literals_fit(text, scan(text, pos).end),
{
    lemma_scan_bounds(text, pos);
    if scan(text, pos).result is Ok && scan(text, pos).start >= text.len() {
        let end = scan(text, pos).end;
        assert(end == text.len());
        assert(skip(text, end, false) == end);
        assert(literals_fit(text, end));
    }
}

/// No word is the end of the text.
pub proof fn lemma_word_is_no_end(word: Seq<char>)
    ensures
        !(word_kind(word) is EOF),
{
}

/// The mathematical model of a [`Lexer`]: the text and the position up to
/// which it has been read.
pub struct LexerView {
    pub text: Seq<char>,
    pub pos: int,
}

/// The lexer: a single forward scan over the source text, one token at a
/// time.
#[derive(Debug)]
pub struct Lexer {
    line: Vec<char>,
    pos: usize,
    newlines: usize,
    column: usize,
}

impl View for Lexer {
    type V = LexerView;

    closed spec fn view(&self) -> LexerView {
        LexerView { text: self.line@, pos: self.pos as int }
    }
}

impl Lexer {
    /// The lexer's invariant: the position lies in the text or at its end,
    /// and the line and column counts are those of the position.
    pub closed spec fn wf(&self) -> bool {
        &&& self.pos <= self.line@.len() <= usize::MAX
        &&& self.newlines == newlines_before(self.line@, self.pos as int)
        &&& self.column == since_newline(self.line@, self.pos as int)
    }

    /// In a well-formed lexer the position lies in the text or at its end.
    pub proof fn lemma_position(&self)
        requires
            self.wf(),
        ensures
            0 <= self@.pos <= self@.text.len(),
            self@.text.len() <= usize::MAX,
    {
    }

    /// A lexer at the start of `line`.
    pub fn new(line: &str) -> (r: Result<Lexer, Error>)
        ensures
            r is Ok,
            r->Ok_0.wf(),
            r->Ok_0@ == (LexerView { text: line@, pos: 0 }),
    {
        let chars = chars_of(line);
        assert(chars.len() <= usize::MAX);
        Ok(Lexer { line: chars, pos: 0, newlines: 0, column: 0 })
    }

    /// Moves on by one character.
    fn advance(&mut self)
        requires
            old(self).wf(),
            old(self)@.pos < old(self)@.text.len(),
        ensures
            final(self).wf(),
            final(self)@ == (LexerView { pos: old(self)@.pos + 1, ..old(self)@ }),
    {
        proof {
            lemma_counts_bounded(self.line@, self.pos as int);
        }
        if self.line[self.pos] == '\n' {
            self.newlines += 1;
            self.column = 0;
        } else {
            self.column += 1;
        }
        self.pos += 1;
    }

    /// The character after the one at the position, if there is one.
    fn peek(&self) -> (r: Option<char>)
        requires
            self.wf(),
        ensures
            r == if self@.pos + 1 < self@.text.len() {
                Some(self@.text[self@.pos + 1])
            } else {
                None
            },
    {
        if self.pos < self.line.len() && self.pos + 1 < self.line.len() {
            Some(self.line[self.pos + 1])
        } else {
            None
        }
    }

    /// Moves on to the end of the run of white space at the position.
    fn skip_whitespace(&mut self)
        requires
            old(self).wf(),
        ensures
            final(self).wf(),
            final(self)@ == (LexerView {
                pos: spaces_end(old(self)@.text, old(self)@.pos),
                ..old(self)@
            }),
    {
        while self.pos < self.line.len() && is_space_char(self.line[self.pos])
            invariant
                self.wf(),
                self@.text == old(self)@.text,
                spaces_end(self@.text, self@.pos) == spaces_end(old(self)@.text, old(self)@.pos),
            decreases self.line.len() - self.pos,
        {
            self.advance();
        }
    }

    /// Moves on to the end of the comment in which the position lies.
    fn skip_comment(&mut self)
        requires
            old(self).wf(),
        ensures
            final(self).wf(),
            final(self)@ == (LexerView {
                pos: comment_end(old(self)@.text, old(self)@.pos),
                ..old(self)@
            }),
    {
        while self.pos < self.line.len()
            invariant
                self.wf(),
                self@.text == old(self)@.text,
                comment_end(self@.text, self@.pos) == comment_end(old(self)@.text, old(self)@.pos),
            decreases self.line.len() - self.pos,
        {
            let closing = self.line[self.pos] == '}';
            self.advance();
            if closing {
                return ;
            }
        }
    }

    /// Reads the run of digits at the position.
    fn digits(&mut self) -> (r: Vec<u8>)
        requires
            old(self).wf(),
        ensures
            final(self).wf(),
            final(self)@ == (LexerView {
                pos: digits_end(old(self)@.text, old(self)@.pos),
                ..old(self)@
            }),
            r@ == digit_values(old(self)@.text.subrange(old(self)@.pos, final(self)@.pos)),
            all_digits(r@),
    {
        let mut r: Vec<u8> = Vec::new();
        let ghost from = self.pos as int;
        proof {
            assert(r@ =~= digit_values(self@.text.subrange(from, from)));
        }
        while self.pos < self.line.len() && is_digit_char(self.line[self.pos])
            invariant
                self.wf(),
                self@.text == old(self)@.text,
                from == old(self)@.pos,
                from <= self@.pos <= self@.text.len(),
                digits_end(self@.text, self@.pos) == digits_end(old(self)@.text, from),
                r@ == digit_values(self@.text.subrange(from, self@.pos)),
                all_digits(r@),
            decreases self.line.len() - self.pos,
        {
            let c = self.line[self.pos];
            let ghost before = r@;
            r.push((c as u32 - 48) as u8);
            self.advance();
            proof {
                assert(r@ =~= digit_values(self@.text.subrange(from, self@.pos)));
                assert forall|i: int| 0 <= i < r@.len() implies #[trigger] r@[i] < 10 by {
                    if i < before.len() {
                        assert(r@[i] == before[i]);
                    }
                }
            }
        }
        r
    }

    /// Reads the numeric literal at the position: its kind, or nothing if it
    /// is an integer above `i32::MAX`.
    fn number(&mut self) -> (r: Option<Kind>)
        requires
            old(self).wf(),
            old(self)@.pos < old(self)@.text.len(),
            is_digit(old(self)@.text[old(self)@.pos]),
        ensures
            final(self).wf(),
            final(self)@ == (LexerView {
                pos: scan_number(old(self)@.text, old(self)@.pos).end,
                ..old(self)@
            }),
            r is Some == number_fits(old(self)@.text, old(self)@.pos),
            r is Some ==> scan_number(old(self)@.text, old(self)@.pos).result == Ok::<
                KindView,
                char,
            >(r->0@),
    {
        let whole = self.digits();
        if self.pos < self.line.len() && self.line[self.pos] == '.' {
            self.advance();
            let fraction = self.digits();
            Some(Kind::REAL_CONST(from_decimal(&whole, &fraction)))
        } else {
            match integer_value(&whole) {
                Some(value) => Some(Kind::INTEGER_CONST(value)),
                None => None,
            }
        }
    }

    /// Reads the word at the position: a reserved word or an identifier.
    fn id(&mut self) -> (r: Kind)
        requires
            old(self).wf(),
        ensures
            final(self).wf(),
            final(self)@ == (LexerView {
                pos: word_end(old(self)@.text, old(self)@.pos),
                ..old(self)@
            }),
            r@ == word_kind(old(self)@.text.subrange(old(self)@.pos, final(self)@.pos)),
    {
        let from = self.pos;
        while self.pos < self.line.len() && is_alphanumeric_char(self.line[self.pos])
            invariant
                self.wf(),
                self@.text == old(self)@.text,
                from == old(self)@.pos,
                from <= self@.pos,
                word_end(self@.text, self@.pos) == word_end(old(self)@.text, from as int),
            decreases self.line.len() - self.pos,
        {
            self.advance();
        }
        let word = string_of(&self.line, from, self.pos);
        if is_word(&word, "PROGRAM") {
            Kind::PROGRAM
        } else if is_word(&word, "VAR") {
            Kind::VAR
        } else if is_word(&word, "DIV") {
            Kind::INTEGER_DIV
        } else if is_word(&word, "INTEGER") {
            Kind::TYPE(VarType::INTEGER)
        } else if is_word(&word, "REAL") {
            Kind::TYPE(VarType::REAL)
        } else if is_word(&word, "BEGIN") {
            Kind::BEGIN
        } else if is_word(&word, "END") {
            Kind::END
        } else if is_word(&word, "PROCEDURE") {
            Kind::PROCEDURE
        } else {
            Kind::ID(word)
        }
    }

    /// Reads the next token. After the last token of the text it gives the
    /// end-of-text token, on every call. After an error the lexer stands at
    /// the character that it refused.
    pub fn next_token(&mut self) -> (r: Result<Token, Error>)
        requires
            old(self).wf(),
            token_fits(old(self)@.text, old(self)@.pos),
        ensures
            final(self).wf(),
            final(self)@.text == old(self)@.text,
            match scan(old(self)@.text, old(self)@.pos).result {
                Ok(kind) => {
                    &&& r is Ok
                    &&& r->Ok_0@ == token_at(
                        old(self)@.text,
                        kind,
                        scan(old(self)@.text, old(self)@.pos).start,
                    )
                    &&& final(self)@.pos == scan(old(self)@.text, old(self)@.pos).end
                },
                Err(c) => {
                    &&& r is Err
                    &&& r->Err_0@ == ErrorView::INVALID_CHARACTER(c)
                    &&& final(self)@.pos == scan(old(self)@.text, old(self)@.pos).start
                },
            },
    {
        self.try_token().unwrap()
    }

    /// Reads the next token, or nothing if it is an integer literal above
    /// `i32::MAX`.
    fn try_token(&mut self) -> (r: Option<Result<Token, Error>>)
        requires
            old(self).wf(),
        ensures
            final(self).wf(),
            final(self)@.text == old(self)@.text,
            r is Some == token_fits(old(self)@.text, old(self)@.pos),
            r is Some ==> match scan(old(self)@.text, old(self)@.pos).result {
                Ok(kind) => {
                    &&& r->0 is Ok
                    &&& r->0->Ok_0@ == token_at(
                        old(self)@.text,
                        kind,
                        scan(old(self)@.text, old(self)@.pos).start,
                    )
                    &&& final(self)@.pos == scan(old(self)@.text, old(self)@.pos).end
                },
                Err(c) => {
                    &&& r->0 is Err
                    &&& r->0->Err_0@ == ErrorView::INVALID_CHARACTER(c)
                    &&& final(self)@.pos == scan(old(self)@.text, old(self)@.pos).start
                },
            },
    {
        while self.pos < self.line.len() && (self.line[self.pos] == '{' || is_space_char(
            self.line[self.pos],
        ))
            invariant
                self.wf(),
                self@.text == old(self)@.text,
                skip(self@.text, self@.pos, false) == skip(old(self)@.text, old(self)@.pos, false),
            decreases self.line.len() - self.pos,
        {
            if self.line[self.pos] == '{' {
                self.advance();
                proof {
                    lemma_skip_comment(self@.text, self@.pos);
                }
                self.skip_comment();
            } else {
                proof {
                    lemma_skip_spaces(self@.text, self@.pos);
                    lemma_skip_spaces(self@.text, self@.pos + 1);
                }
                self.skip_whitespace();
            }
        }
        if self.pos >= self.line.len() {
            return Some(Ok(Token { kind: Kind::EOF, lineno: 0, column: 0 }));
        }
        let c = self.line[self.pos];
        proof {
            lemma_counts_bounded(self.line@, self.pos as int);
        }
        let mut token = Token {
            kind: Kind::EOF,
            lineno: self.newlines + 1,
            column: self.column + 1,
        };
        if is_letter_char(c) {
            proof {
                lemma_word_end_bounds(self@.text, self@.pos);
                lemma_word_is_no_end(
                    self@.text.subrange(self@.pos, word_end(self@.text, self@.pos)),
                );
            }
            token.kind = self.id();
            return Some(Ok(token));
        }
        if is_digit_char(c) {
            match self.number() {
                Some(kind) => {
                    token.kind = kind;
                    return Some(Ok(token));
                },
                None => {
                    return None;
                },
            }
        }
        if c == ':' {
            let next = self.peek();
            if next.is_some() && next.unwrap() == '=' {
                self.advance();
                self.advance();
                token.kind = Kind::ASSIGN;
                return Some(Ok(token));
            }
        }
        let kind = match c {
            ';' => Kind::SEMI,
            '*' => Kind::MUL,
            '-' => Kind::MINUS,
            ',' => Kind::COMMA,
            '+' => Kind::PLUS,
            '/' => Kind::FLOAT_DIV,
            ':' => Kind::COLON,
            '(' => Kind::LPAREN,
            ')' => Kind::RPAREN,
            '.' => Kind::DOT,
            other => {
                return Some(Err(Error::INVALID_CHARACTER(other)));
            },
        };
        token.kind = kind;
        self.advance();
        Some(Ok(token))
    }
}

/// Decides whether every numeric literal of a text has a value: whether the
/// lexer, reading the text token after token up to its end or to the first
/// character that it refuses, meets no integer literal above `i32::MAX`.
pub fn check_literals(source: &str) -> (r: bool)
    ensures
        r == literals_fit(source@, 0),
{
    let mut lexer = Lexer { line: chars_of(source), pos: 0, newlines: 0, column: 0 };
    assert(lexer.line.len() <= usize::MAX);
    loop
        invariant
            lexer.wf(),
            lexer@.text == source@,
            0 <= lexer@.pos <= source@.len(),
            literals_fit(source@, lexer@.pos) == literals_fit(source@, 0),
        decreases source@.len() - lexer@.pos,
    {
        proof {
            lemma_scan_bounds(source@, lexer@.pos);
        }
        match lexer.try_token() {
            None => {
                return false;
            },
            Some(Err(_)) => {
                return true;
            },
            Some(Ok(token)) => {
                match token.kind {
                    Kind::EOF => {
                        return true;
                    },
                    _ => {},
                }
            },
        }
    }
}

fn is_space_char(c: char) -> (r: bool)
    ensures
        r == is_space(c),
{
    c == ' ' || c == '\t' || c == '\n' || c == '\x0C' || c == '\r'
}

fn is_letter_char(c: char) -> (r: bool)
    ensures
        r == is_letter(c),
{
    (c >= 'a' && c <= 'z') || (c >= 'A' && c <= 'Z')
}

fn is_digit_char(c: char) -> (r: bool)
    ensures
        r == is_digit(c),
{
    c >= '0' && c <= '9'
}

fn is_alphanumeric_char(c: char) -> (r: bool)
    ensures
        r == is_alphanumeric(c),
{
    is_letter_char(c) || is_digit_char(c)
}

/// Whether `word` reads as `reserved`.
fn is_word(word: &String, reserved: &str) -> (r: bool)
    ensures
        r == (word@ == reserved@),
{
    match rank(word.as_str(), reserved) {
        Rank::Same => true,
        _ => false,
    }
}

/// The number that the digits write, if it is no more than `i32::MAX`.
pub fn integer_value(digits: &Vec<u8>) -> (r: Option<i32>)
    requires
        all_digits(digits@),
    ensures
        r is Some == (decimal_value(digits@) <= i32::MAX),
        r is Some ==> r->0 == decimal_value(digits@),
{
    let mut value: i64 = 0;
    let mut i: usize = 0;
    proof {
        assert(digits@.take(0) =~= Seq::<u8>::empty());
    }
    while i < digits.len()
        invariant
            i <= digits.len(),
            all_digits(digits@),
            0 <= value <= i32::MAX,
            value == decimal_value(digits@.take(i as int)),
        decreases digits.len() - i,
    {
        proof {
            assert(digits@.take(i + 1) =~= digits@.take(i as int).push(digits@[i as int]));
            lemma_value_push(digits@.take(i as int), digits@[i as int]);
            lemma_value_monotone(digits@, i + 1);
        }
        value = value * 10 + digits[i] as i64;
        if value > i32::MAX as i64 {
            return None;
        }
        i += 1;
    }
    proof {
        assert(digits@.take(digits@.len() as int) =~= digits@);
    }
    Some(value as i32)
}

} // verus!
