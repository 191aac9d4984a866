//! The lexer and the recursive-descent reader.
//!
//! [`Reader::new`] tokenizes a line of source text; [`read_form`] consumes
//! tokens from the resulting cursor and builds one form in the heap.
//! [`read_str`] does both for one input string.
//!
//! The reader follows one protocol throughout: a parsing function returns
//! with the last token of its form still under the cursor, and the caller
//! steps past it. The mathematical description of the lexer is
//! [`next_token_at`] / [`lex_all`]; the reader's is [`parse_form_at`] and
//! its companions, which walk the token sequence the same way the
//! executable functions walk the cursor.

use vstd::prelude::*;

use crate::errors::ParseError;
use crate::text::{chars_to_string, str_to_chars};
use crate::types::{
    entries_of, heap_extends, lemma_entries_of_index, lemma_entries_of_prefix,
    lemma_view_at_prefix, lemma_views_of_index, view_at, views_of, Atom, Compound, Form, Heap,
    Object, Val,
};

verus! {

broadcast use vstd::seq::group_seq_axioms;

/// A lexical unit. Whitespace and commas separate tokens and are never
/// emitted.
#[derive(Debug)]
pub enum Token {
    /// The special two characters `~@`.
    SpecialTwoCharacter,
    /// One of ``[ ] { } ( ) ' ` ~ ^ @``.
    SpecialCharacter(char),
    /// A double-quoted string, already un-escaped.
    String(String),
    /// A comment from `;` to end of line, `;` included.
    Comment(String),
    /// A maximal run of non-separator, non-special characters.
    CharacterSequence(String),
}

/// The mathematical model of a token.
pub enum Tok {
    TwoChar,
    Special(char),
    Text(Seq<char>),
    Note(Seq<char>),
    CharSeq(Seq<char>),
}

impl View for Token {
    type V = Tok;

    open spec fn view(&self) -> Tok {
        match self {
            Token::SpecialTwoCharacter => Tok::TwoChar,
            Token::SpecialCharacter(c) => Tok::Special(*c),
            Token::String(s) => Tok::Text(s@),
            Token::Comment(s) => Tok::Note(s@),
            Token::CharacterSequence(s) => Tok::CharSeq(s@),
        }
    }
}

/// The view of one lexer output.
pub open spec fn tok_res_view(r: Result<Token, ParseError>) -> Result<Tok, ParseError> {
    match r {
        Ok(t) => Ok(t@),
        Err(e) => Err(e),
    }
}

/// The views of a whole token vector.
pub open spec fn toks_view(ts: Seq<Result<Token, ParseError>>) -> Seq<Result<Tok, ParseError>> {
    ts.map_values(|r: Result<Token, ParseError>| tok_res_view(r))
}

/// True of the characters Unicode calls white space, as `char::is_whitespace`
/// recognizes them.
pub open spec fn is_ws_char(c: char) -> bool {
    let u = c as u32;
    (9 <= u && u <= 13) || u == 32 || u == 0x85 || u == 0xA0 || u == 0x1680 || (0x2000 <= u && u
        <= 0x200A) || u == 0x2028 || u == 0x2029 || u == 0x202F || u == 0x205F || u == 0x3000
}

/// True of whitespace and of `,`: pure separators.
pub open spec fn is_sep_char(c: char) -> bool {
    is_ws_char(c) || c == ','
}

/// True of the eleven one-character special tokens.
pub open spec fn is_special_char(c: char) -> bool {
    c == '[' || c == ']' || c == '{' || c == '}' || c == '(' || c == ')' || c == '\'' || c == '`'
        || c == '~' || c == '^' || c == '@'
}

/// True of the characters that end a character-sequence token.
pub open spec fn is_stop_char(c: char) -> bool {
    is_sep_char(c) || is_special_char(c)
}

/// Whether `char::is_whitespace` holds of `c`, decided directly.
pub fn ws_char(c: char) -> (r: bool)
    ensures
        r == is_ws_char(c),
{
    let u = c as u32;
    (9 <= u && u <= 13) || u == 32 || u == 0x85 || u == 0xA0 || u == 0x1680 || (0x2000 <= u && u
        <= 0x200A) || u == 0x2028 || u == 0x2029 || u == 0x202F || u == 0x205F || u == 0x3000
}

/// Whether `c` separates tokens.
pub fn sep_char(c: char) -> (r: bool)
    ensures
        r == is_sep_char(c),
{
    ws_char(c) || c == ','
}

/// Whether `c` is a one-character special token.
pub fn special_char(c: char) -> (r: bool)
    ensures
        r == is_special_char(c),
{
    c == '[' || c == ']' || c == '{' || c == '}' || c == '(' || c == ')' || c == '\'' || c == '`'
        || c == '~' || c == '^' || c == '@'
}

/// Whether `c` ends a character-sequence token.
pub fn stop_char(c: char) -> (r: bool)
    ensures
        r == is_stop_char(c),
{
    sep_char(c) || special_char(c)
}

/// The first position at or after `i` that does not hold a separator.
pub open spec fn skip_sep(s: Seq<char>, i: int) -> int
    decreases s.len() - i when 0 <= i <= s.len()
{
    if i == s.len() {
        i
    } else if is_sep_char(s[i]) {
        skip_sep(s, i + 1)
    } else {
        i
    }
}

pub proof fn lemma_skip_sep(s: Seq<char>, i: int)
    requires
        0 <= i <= s.len(),
    ensures
        i <= skip_sep(s, i) <= s.len(),
        skip_sep(s, i) < s.len() ==> !is_sep_char(s[skip_sep(s, i)]),
    decreases s.len() - i,
{
    if i < s.len() && is_sep_char(s[i]) {
        lemma_skip_sep(s, i + 1);
    }
}

/// The position of the next newline at or after `i`, or the end of input.
pub open spec fn line_end(s: Seq<char>, i: int) -> int
    decreases s.len() - i when 0 <= i <= s.len()
{
    if i == s.len() {
        i
    } else if s[i] == '\n' {
        i
    } else {
        line_end(s, i + 1)
    }
}

pub proof fn lemma_line_end(s: Seq<char>, i: int)
    requires
        0 <= i <= s.len(),
    ensures
        i <= line_end(s, i) <= s.len(),
    decreases s.len() - i,
{
    if i < s.len() && s[i] != '\n' {
        lemma_line_end(s, i + 1);
    }
}

/// The position of the next stop character at or after `i`, or the end.
pub open spec fn run_end(s: Seq<char>, i: int) -> int
    decreases s.len() - i when 0 <= i <= s.len()
{
    if i == s.len() {
        i
    } else if is_stop_char(s[i]) {
        i
    } else {
        run_end(s, i + 1)
    }
}

pub proof fn lemma_run_end(s: Seq<char>, i: int)
    requires
        0 <= i <= s.len(),
    ensures
        i <= run_end(s, i) <= s.len(),
    decreases s.len() - i,
{
    if i < s.len() && !is_stop_char(s[i]) {
        lemma_run_end(s, i + 1);
    }
}

/// The character an escape sequence `\c` stands for.
pub open spec fn unescape(c: char) -> char {
    if c == 'n' {
        '\n'
    } else {
        c
    }
}

/// Scans a string body starting just after the opening quote: the
/// un-escaped content and the position just past the closing quote, or
/// `UnbalancedString` when the input ends first.
pub open spec fn scan_string(s: Seq<char>, i: int) -> Result<(Seq<char>, int), ParseError>
    decreases s.len() - i when 0 <= i <= s.len()
{
    if i == s.len() {
        Err(ParseError::UnbalancedString)
    } else if s[i] == '"' {
        Ok((Seq::empty(), i + 1))
    } else if s[i] == '\\' && i + 1 < s.len() && (s[i + 1] == '"' || s[i + 1] == '\\' || s[i + 1]
        == 'n') {
        match scan_string(s, i + 2) {
            Ok((t, e)) => Ok((seq![unescape(s[i + 1])] + t, e)),
            Err(e) => Err(e),
        }
    } else {
        match scan_string(s, i + 1) {
            Ok((t, e)) => Ok((seq![s[i]] + t, e)),
            Err(e) => Err(e),
        }
    }
}

pub proof fn lemma_scan_string(s: Seq<char>, i: int)
    requires
        0 <= i <= s.len(),
    ensures
        match scan_string(s, i) {
            Ok((t, e)) => i < e <= s.len(),
            Err(_) => true,
        },
    decreases s.len() - i,
{
    if i < s.len() && s[i] != '"' {
        if s[i] == '\\' && i + 1 < s.len() && (s[i + 1] == '"' || s[i + 1] == '\\' || s[i + 1]
            == 'n') {
            lemma_scan_string(s, i + 2);
        } else {
            lemma_scan_string(s, i + 1);
        }
    }
}

/// One step of the lexer.
pub enum LexStep {
    /// No further token: the input ended.
    End,
    /// The next token, and the position just past it.
    Step(Tok, int),
    /// The lexer failed.
    Fail(ParseError),
}

/// The token starting at or after position `i`, skipping separators.
pub open spec fn next_token_at(s: Seq<char>, i: int) -> LexStep {
    let j = skip_sep(s, i);
    if j >= s.len() {
        LexStep::End
    } else {
        let c = s[j];
        if c == '~' && j + 1 < s.len() && s[j + 1] == '@' {
            LexStep::Step(Tok::TwoChar, j + 2)
        } else if is_special_char(c) {
            LexStep::Step(Tok::Special(c), j + 1)
        } else if c == '"' {
            match scan_string(s, j + 1) {
                Ok((t, e)) => LexStep::Step(Tok::Text(t), e),
                Err(e) => LexStep::Fail(e),
            }
        } else if c == ';' {
            LexStep::Step(Tok::Note(s.subrange(j, line_end(s, j + 1))), line_end(s, j + 1))
        } else {
            LexStep::Step(Tok::CharSeq(s.subrange(j, run_end(s, j + 1))), run_end(s, j + 1))
        }
    }
}

pub proof fn lemma_next_token_at(s: Seq<char>, i: int)
    requires
        0 <= i <= s.len(),
    ensures
        match next_token_at(s, i) {
            LexStep::Step(_, j) => i < j <= s.len(),
            _ => true,
        },
{
    lemma_skip_sep(s, i);
    let j = skip_sep(s, i);
    if j < s.len() {
        lemma_scan_string(s, j + 1);
        lemma_line_end(s, j + 1);
        lemma_run_end(s, j + 1);
    }
}

/// Every token of the input from position `i` on, in order, ending early
/// with the error when the lexer fails.
pub open spec fn lex_all(s: Seq<char>, i: int) -> Seq<Result<Tok, ParseError>>
    decreases s.len() - i when 0 <= i <= s.len()
{
    match next_token_at(s, i) {
        LexStep::End => Seq::empty(),
        LexStep::Fail(e) => seq![Err(e)],
        LexStep::Step(t, j) => {
            let j2 = if i < j <= s.len() {
                j
            } else {
                s.len() as int
            };
            seq![Ok(t)] + lex_all(s, j2)
        },
    }
}


/// A copy of the characters in `[a, b)`.
fn copy_range(chars: &Vec<char>, a: usize, b: usize) -> (r: Vec<char>)
    requires
        a <= b <= chars@.len(),
    ensures
        r@ == chars@.subrange(a as int, b as int),
{
    let mut r: Vec<char> = Vec::new();
    let mut k = a;
    while k < b
        invariant
            a <= k <= b <= chars@.len(),
            r@ == chars@.subrange(a as int, k as int),
        decreases b - k,
    {
        r.push(chars[k]);
        k = k + 1;
        proof {
            assert(r@ =~= chars@.subrange(a as int, k as int));
        }
    }
    r
}

/// Scans a string body from just after the opening quote, resolving the
/// escapes, as [`scan_string`] describes.
fn consume_string(chars: &Vec<char>, start: usize) -> (r: Result<(String, usize), ParseError>)
    requires
        start <= chars@.len(),
    ensures
        match scan_string(chars@, start as int) {
            Ok((t, e)) => match r {
                Ok((txt, q)) => txt@ == t && q as int == e,
                Err(_) => false,
            },
            Err(pe) => r == Err::<(String, usize), ParseError>(pe),
        },
{
    let ghost s = chars@;
    let mut out: Vec<char> = Vec::new();
    let mut p = start;
    loop
        invariant
            start <= p <= s.len(),
            s == chars@,
            scan_string(s, start as int) == (match scan_string(s, p as int) {
                Ok((t, e)) => Ok::<(Seq<char>, int), ParseError>((out@ + t, e)),
                Err(pe) => Err::<(Seq<char>, int), ParseError>(pe),
            }),
        decreases s.len() - p,
    {
        if p == chars.len() {
            return Err(ParseError::UnbalancedString);
        }
        let c = chars[p];
        if c == '"' {
            proof {
                assert(scan_string(s, p as int) == Ok::<(Seq<char>, int), ParseError>((
                    Seq::empty(),
                    p + 1,
                )));
                assert(out@ + Seq::<char>::empty() =~= out@);
            }
            let txt = chars_to_string(&out);
            return Ok((txt, p + 1));
        }
        if c == '\\' && p + 1 < chars.len() && (chars[p + 1] == '"' || chars[p + 1] == '\\'
            || chars[p + 1] == 'n') {
            let e = chars[p + 1];
            let u = if e == 'n' {
                '\n'
            } else {
                e
            };
            proof {
                let ghost (t2, e2) = match scan_string(s, p + 2) {
                    Ok(x) => x,
                    Err(_) => (Seq::empty(), 0int),
                };
                if scan_string(s, p + 2) is Ok {
                    assert(out@ + (seq![unescape(s[p + 1])] + t2) =~= out@.push(unescape(
                        s[p + 1],
                    )) + t2);
                }
            }
            out.push(u);
            p = p + 2;
        } else {
            proof {
                let ghost (t2, e2) = match scan_string(s, p + 1) {
                    Ok(x) => x,
                    Err(_) => (Seq::empty(), 0int),
                };
                if scan_string(s, p + 1) is Ok {
                    assert(out@ + (seq![s[p as int]] + t2) =~= out@.push(s[p as int]) + t2);
                }
            }
            out.push(c);
            p = p + 1;
        }
    }
}

/// The next token at or after `pos`, and the position just past it; the
/// position is the input's end when there is no token or the lexer failed.
fn lex_token(chars: &Vec<char>, pos: usize) -> (r: (Option<Result<Token, ParseError>>, usize))
    requires
        pos <= chars@.len(),
    ensures
        r.1 <= chars@.len(),
        match next_token_at(chars@, pos as int) {
            LexStep::End => r.0 is None && r.1 == chars@.len(),
            LexStep::Fail(e) => r.0 == Some(Err::<Token, ParseError>(e)) && r.1 == chars@.len(),
            LexStep::Step(t, j) => match r.0 {
                Some(Ok(tok)) => tok@ == t && r.1 as int == j,
                _ => false,
            },
        },
{
    let ghost s = chars@;
    let mut p = pos;
    while p < chars.len() && sep_char(chars[p])
        invariant
            pos <= p <= s.len(),
            s == chars@,
            skip_sep(s, pos as int) == skip_sep(s, p as int),
        decreases s.len() - p,
    {
        p = p + 1;
    }
    proof {
        assert(skip_sep(s, p as int) == p as int);
        assert(skip_sep(s, pos as int) == p as int);
    }
    if p == chars.len() {
        return (None, p);
    }
    let c = chars[p];
    if c == '~' && p + 1 < chars.len() && chars[p + 1] == '@' {
        return (Some(Ok(Token::SpecialTwoCharacter)), p + 2);
    }
    if special_char(c) {
        return (Some(Ok(Token::SpecialCharacter(c))), p + 1);
    }
    if c == '"' {
        proof {
            lemma_scan_string(s, p + 1);
        }
        match consume_string(chars, p + 1) {
            Ok((txt, q)) => {
                return (Some(Ok(Token::String(txt))), q);
            },
            Err(e) => {
                return (Some(Err(e)), chars.len());
            },
        }
    }
    if c == ';' {
        let mut k = p + 1;
        while k < chars.len() && chars[k] != '\n'
            invariant
                p + 1 <= k <= s.len(),
                s == chars@,
                line_end(s, p + 1) == line_end(s, k as int),
            decreases s.len() - k,
        {
            k = k + 1;
        }
        proof {
            assert(line_end(s, k as int) == k as int);
        }
        let body = copy_range(chars, p, k);
        let txt = chars_to_string(&body);
        return (Some(Ok(Token::Comment(txt))), k);
    }
    let mut k = p + 1;
    while k < chars.len() && !stop_char(chars[k])
        invariant
            p + 1 <= k <= s.len(),
            s == chars@,
            run_end(s, p + 1) == run_end(s, k as int),
        decreases s.len() - k,
    {
        k = k + 1;
    }
    proof {
        assert(run_end(s, k as int) == k as int);
    }
    let body = copy_range(chars, p, k);
    let txt = chars_to_string(&body);
    (Some(Ok(Token::CharacterSequence(txt))), k)
}

impl Token {
    /// An equal copy of this token.
    pub fn duplicate(&self) -> (t: Token)
        ensures
            t == *self,
    {
        match self {
            Token::SpecialTwoCharacter => Token::SpecialTwoCharacter,
            Token::SpecialCharacter(c) => Token::SpecialCharacter(*c),
            Token::String(s) => Token::String(s.clone()),
            Token::Comment(s) => Token::Comment(s.clone()),
            Token::CharacterSequence(s) => Token::CharacterSequence(s.clone()),
        }
    }
}

/// The reader's cursor: the tokens of one input, and the position of the
/// token under consideration.
pub struct Reader {
    pub toks: Vec<Result<Token, ParseError>>,
    pub pos: usize,
}

impl Reader {
    /// The token stream as the parser's description sees it.
    pub open spec fn stream(&self) -> Seq<Result<Tok, ParseError>> {
        toks_view(self.toks@)
    }

    /// The cursor never passes the end.
    pub open spec fn wf(&self) -> bool {
        self.pos <= self.toks@.len()
    }

    /// Tokenizes one input.
    pub fn new(input: &str) -> (r: Reader)
        ensures
            r.stream() == lex_all(input@, 0),
            r.pos == 0,
            r.wf(),
    {
        let chars = str_to_chars(input);
        let ghost s = input@;
        let mut toks: Vec<Result<Token, ParseError>> = Vec::new();
        let mut p: usize = 0;
        loop
            invariant_except_break
                p <= s.len(),
                chars@ == s,
                toks_view(toks@) + lex_all(s, p as int) == lex_all(s, 0),
            ensures
                toks_view(toks@) == lex_all(s, 0),
            decreases s.len() - p,
        {
            let (t, np) = lex_token(&chars, p);
            proof {
                lemma_next_token_at(s, p as int);
            }
            match t {
                None => {
                    proof {
                        assert(lex_all(s, p as int) =~= Seq::<Result<Tok, ParseError>>::empty());
                        assert(toks_view(toks@) + lex_all(s, p as int) =~= toks_view(toks@));
                    }
                    break;
                },
                Some(Ok(tok)) => {
                    proof {
                        let ghost stepped = lex_all(s, np as int);
                        assert(lex_all(s, p as int) == seq![Ok::<Tok, ParseError>(tok@)]
                            + stepped);
                        assert(toks_view(toks@.push(Ok(tok))) =~= toks_view(toks@).push(
                            Ok(tok@),
                        ));
                        assert(toks_view(toks@).push(Ok(tok@)) + stepped =~= toks_view(toks@) + (
                        seq![Ok::<Tok, ParseError>(tok@)] + stepped));
                    }
                    toks.push(Ok(tok));
                    p = np;
                },
                Some(Err(e)) => {
                    proof {
                        assert(lex_all(s, p as int) =~= seq![Err::<Tok, ParseError>(e)]);
                        assert(toks_view(toks@.push(Err(e))) =~= toks_view(toks@).push(Err(e)));
                        assert(toks_view(toks@).push(Err(e)) =~= toks_view(toks@) + lex_all(
                            s,
                            p as int,
                        ));
                    }
                    toks.push(Err(e));
                    proof {
                        assert(toks_view(toks@) == lex_all(s, 0));
                    }
                    break;
                },
            }
        }
        Reader { toks, pos: 0 }
    }

    /// The token under the cursor, or `None` at the end. The cursor does
    /// not move.
    pub fn peek(&self) -> (r: Option<Result<Token, ParseError>>)
        requires
            self.wf(),
        ensures
            match r {
                None => self.pos == self.toks@.len(),
                Some(t) => self.pos < self.toks@.len() && t == self.toks@[self.pos as int],
            },
    {
        if self.pos < self.toks.len() {
            match &self.toks[self.pos] {
                Ok(t) => Some(Ok(t.duplicate())),
                Err(e) => Some(Err(*e)),
            }
        } else {
            None
        }
    }

    /// Steps past the token under the cursor, if any.
    pub fn advance(&mut self)
        requires
            old(self).wf(),
        ensures
            final(self).toks == old(self).toks,
            final(self).wf(),
            final(self).pos == if old(self).pos < old(self).toks@.len() {
                old(self).pos + 1
            } else {
                old(self).pos as int
            },
    {
        if self.pos < self.toks.len() {
            self.pos = self.pos + 1;
        }
    }
}


/// What a character sequence reads as: a number when it matches `-?[0-9]+`
/// and fits in a signed 64-bit value, then the three literals, then a
/// keyword on a leading `:`, otherwise a symbol, verbatim.
pub open spec fn classify_text(t: Seq<char>) -> Val {
    if crate::numbers::is_number_text(t) {
        Val::Number(crate::numbers::number_value(t))
    } else if t == "nil"@ {
        Val::Nil
    } else if t == "true"@ {
        Val::True
    } else if t == "false"@ {
        Val::False
    } else if t.len() > 0 && t[0] == ':' {
        Val::Keyword(t.skip(1))
    } else {
        Val::Symbol(t)
    }
}

/// Adds a key/value pair to a map's entries: the first entry with an equal
/// key is replaced, otherwise the pair goes at the end.
pub open spec fn table_insert(pairs: Seq<(Val, Val)>, key: Val, value: Val) -> Seq<(Val, Val)>
    decreases pairs.len(),
{
    if pairs.len() == 0 {
        seq![(key, value)]
    } else if pairs[0].0 == key {
        seq![(key, value)] + pairs.skip(1)
    } else {
        seq![pairs[0]] + table_insert(pairs.skip(1), key, value)
    }
}

/// The form starting at token `k`, and the position of its last token.
///
/// The reader's protocol: a form's description ends at its *last* token,
/// which the caller steps past. A comment is skipped. A bare closer, a
/// missing form and a lexer failure are the errors of §reading.
pub open spec fn parse_form_at(toks: Seq<Result<Tok, ParseError>>, k: int) -> Result<
    (Val, int),
    ParseError,
>
    decreases toks.len() - k, 1int when 0 <= k
{
    if k >= toks.len() {
        Err(ParseError::MissingForm)
    } else {
        match toks[k] {
            Err(e) => Err(e),
            Ok(t) => match t {
                Tok::Special(c) => {
                    if c == '[' {
                        match parse_items(toks, k + 1, ']', ParseError::UnbalancedSquareBrackets) {
                            Ok((items, j)) => Ok((Val::Vector(items), j)),
                            Err(e) => Err(e),
                        }
                    } else if c == ']' {
                        Err(ParseError::UnexpectedCloseSquareBracket)
                    } else if c == '{' {
                        match parse_entries(toks, k + 1, Seq::empty()) {
                            Ok((pairs, j)) => Ok((Val::Table(pairs), j)),
                            Err(e) => Err(e),
                        }
                    } else if c == '}' {
                        Err(ParseError::UnexpectedCloseCurlyBracket)
                    } else if c == '(' {
                        match parse_items(toks, k + 1, ')', ParseError::UnbalancedParens) {
                            Ok((items, j)) => Ok((Val::List(items), j)),
                            Err(e) => Err(e),
                        }
                    } else if c == ')' {
                        Err(ParseError::UnexpectedCloseParen)
                    } else if c == '\'' {
                        parse_wrap(toks, k, "quote"@)
                    } else if c == '`' {
                        parse_wrap(toks, k, "quasiquote"@)
                    } else if c == '~' {
                        parse_wrap(toks, k, "unquote"@)
                    } else if c == '^' {
                        parse_meta(toks, k)
                    } else if c == '@' {
                        parse_wrap(toks, k, "deref"@)
                    } else {
                        Err(ParseError::MissingForm)
                    }
                },
                Tok::TwoChar => parse_wrap(toks, k, "splice-unquote"@),
                Tok::Note(_) => parse_form_at(toks, k + 1),
                Tok::Text(t) => Ok((Val::Text(t), k)),
                Tok::CharSeq(t) => Ok((classify_text(t), k)),
            },
        }
    }
}

/// One reader-macro desugaring: the token at `k` is the sugar itself, and
/// the following form becomes `(name form)`.
pub open spec fn parse_wrap(
    toks: Seq<Result<Tok, ParseError>>,
    k: int,
    name: Seq<char>,
) -> Result<(Val, int), ParseError>
    decreases toks.len() - k, 0int when 0 <= k < toks.len()
{
    match parse_form_at(toks, k + 1) {
        Ok((v, j)) => Ok((Val::List(seq![Val::Symbol(name), v]), j)),
        Err(e) => Err(e),
    }
}

/// The with-meta desugaring: `^meta value` becomes
/// `(with-meta value meta)`, the two arguments swapped relative to their
/// order in the source.
pub open spec fn parse_meta(toks: Seq<Result<Tok, ParseError>>, k: int) -> Result<
    (Val, int),
    ParseError,
>
    decreases toks.len() - k, 0int when 0 <= k < toks.len()
{
    match parse_form_at(toks, k + 1) {
        Ok((meta, j)) => {
            let jc = if j < k { k } else { j };
            if jc >= toks.len() {
                Err(ParseError::MissingForm)
            } else {
                match toks[jc] {
                    Err(e) => Err(e),
                    Ok(_) => match parse_form_at(toks, jc + 1) {
                        Ok((value, j2)) => Ok((
                            Val::List(seq![Val::Symbol("with-meta"@), value, meta]),
                            j2,
                        )),
                        Err(e) => Err(e),
                    },
                }
            }
        },
        Err(e) => Err(e),
    }
}

/// The elements of a list or vector up to, but not past, the closer; ends
/// with the unbalanced error when the input runs out first.
pub open spec fn parse_items(
    toks: Seq<Result<Tok, ParseError>>,
    k: int,
    closer: char,
    unbalanced: ParseError,
) -> Result<(Seq<Val>, int), ParseError>
    decreases toks.len() - k, 2int when 0 <= k
{
    if k >= toks.len() {
        Err(unbalanced)
    } else {
        match toks[k] {
            Err(e) => Err(e),
            Ok(t) => {
                if t == Tok::Special(closer) {
                    Ok((Seq::empty(), k))
                } else {
                    match parse_form_at(toks, k) {
                        Err(e) => Err(e),
                        Ok((v, j)) => {
                            let jc = if j < k || j >= toks.len() {
                                k
                            } else {
                                j
                            };
                            match parse_items(toks, jc + 1, closer, unbalanced) {
                                Ok((rest, j2)) => Ok((seq![v] + rest, j2)),
                                Err(e) => Err(e),
                            }
                        },
                    }
                }
            },
        }
    }
}

/// The key/value pairs of a map up to, but not past, the `}`. A key that
/// reads as a compound fails with `UnexpectedCompound`; a trailing key
/// with `KeyWithoutValue`; pairs accumulate with [`table_insert`].
pub open spec fn parse_entries(
    toks: Seq<Result<Tok, ParseError>>,
    k: int,
    acc: Seq<(Val, Val)>,
) -> Result<(Seq<(Val, Val)>, int), ParseError>
    decreases toks.len() - k, 2int when 0 <= k
{
    if k >= toks.len() {
        Err(ParseError::UnbalancedCurlyBrackets)
    } else {
        match toks[k] {
            Err(e) => Err(e),
            Ok(t) => {
                if t == Tok::Special('}') {
                    Ok((acc, k))
                } else {
                    match parse_form_at(toks, k) {
                        Err(e) => Err(e),
                        Ok((key, j)) => {
                            let jc = if j < k || j >= toks.len() {
                                k
                            } else {
                                j
                            };
                            if !key.is_atom() {
                                Err(ParseError::UnexpectedCompound)
                            } else if jc + 1 >= toks.len() {
                                Err(ParseError::UnbalancedCurlyBrackets)
                            } else {
                                match toks[jc + 1] {
                                    Err(e) => Err(e),
                                    Ok(t2) => {
                                        if t2 == Tok::Special('}') {
                                            Err(ParseError::KeyWithoutValue)
                                        } else {
                                            match parse_form_at(toks, jc + 1) {
                                                Err(e) => Err(e),
                                                Ok((value, j2)) => {
                                                    let j2c = if j2 < jc + 1 || j2
                                                        >= toks.len() {
                                                        jc + 1
                                                    } else {
                                                        j2
                                                    };
                                                    parse_entries(
                                                        toks,
                                                        j2c + 1,
                                                        table_insert(acc, key, value),
                                                    )
                                                },
                                            }
                                        }
                                    },
                                }
                            }
                        },
                    }
                }
            },
        }
    }
}

/// What one input string reads as.
pub open spec fn parse_input(s: Seq<char>) -> Result<Val, ParseError> {
    match parse_form_at(lex_all(s, 0), 0) {
        Ok((v, _)) => Ok(v),
        Err(e) => Err(e),
    }
}

/// A successful parse ends at a real token at or after where it started.
pub proof fn lemma_parse_pos(toks: Seq<Result<Tok, ParseError>>, k: int)
    requires
        0 <= k,
    ensures
        match parse_form_at(toks, k) {
            Ok((_, j)) => k <= j < toks.len() && toks[j] is Ok,
            Err(_) => true,
        },
    decreases toks.len() - k, 1int,
{
    if k < toks.len() {
        match toks[k] {
            Err(_) => {},
            Ok(t) => match t {
                Tok::Special(c) => {
                    if c == '[' {
                        lemma_parse_items_pos(toks, k + 1, ']', ParseError::UnbalancedSquareBrackets);
                    } else if c == '{' {
                        lemma_parse_entries_pos(toks, k + 1, Seq::empty());
                    } else if c == '(' {
                        lemma_parse_items_pos(toks, k + 1, ')', ParseError::UnbalancedParens);
                    } else if c == '\'' {
                        lemma_parse_wrap_pos(toks, k, "quote"@);
                    } else if c == '`' {
                        lemma_parse_wrap_pos(toks, k, "quasiquote"@);
                    } else if c == '~' {
                        lemma_parse_wrap_pos(toks, k, "unquote"@);
                    } else if c == '@' {
                        lemma_parse_wrap_pos(toks, k, "deref"@);
                    } else if c == '^' {
                        lemma_parse_meta_pos(toks, k);
                    }
                },
                Tok::TwoChar => {
                    lemma_parse_wrap_pos(toks, k, "splice-unquote"@);
                },
                Tok::Note(_) => {
                    lemma_parse_pos(toks, k + 1);
                },
                Tok::Text(_) => {},
                Tok::CharSeq(_) => {},
            },
        }
    }
}

proof fn lemma_parse_wrap_pos(toks: Seq<Result<Tok, ParseError>>, k: int, name: Seq<char>)
    requires
        0 <= k < toks.len(),
    ensures
        match parse_wrap(toks, k, name) {
            Ok((_, j)) => k <= j < toks.len() && toks[j] is Ok,
            Err(_) => true,
        },
    decreases toks.len() - k, 0int,
{
    lemma_parse_pos(toks, k + 1);
}

proof fn lemma_parse_meta_pos(toks: Seq<Result<Tok, ParseError>>, k: int)
    requires
        0 <= k < toks.len(),
    ensures
        match parse_meta(toks, k) {
            Ok((_, j)) => k <= j < toks.len() && toks[j] is Ok,
            Err(_) => true,
        },
    decreases toks.len() - k, 0int,
{
    lemma_parse_pos(toks, k + 1);
    match parse_form_at(toks, k + 1) {
        Ok((_, j)) => {
            if j < toks.len() {
                lemma_parse_pos(toks, j + 1);
            }
        },
        Err(_) => {},
    }
}

proof fn lemma_parse_items_pos(
    toks: Seq<Result<Tok, ParseError>>,
    k: int,
    closer: char,
    unbalanced: ParseError,
)
    requires
        0 <= k,
    ensures
        match parse_items(toks, k, closer, unbalanced) {
            Ok((_, j)) => k <= j < toks.len() && toks[j] is Ok,
            Err(_) => true,
        },
    decreases toks.len() - k, 2int,
{
    if k < toks.len() {
        match toks[k] {
            Err(_) => {},
            Ok(t) => {
                if t != Tok::Special(closer) {
                    lemma_parse_pos(toks, k);
                    match parse_form_at(toks, k) {
                        Err(_) => {},
                        Ok((_, j)) => {
                            let jc = if j < k || j >= toks.len() {
                                k
                            } else {
                                j
                            };
                            lemma_parse_items_pos(toks, jc + 1, closer, unbalanced);
                        },
                    }
                }
            },
        }
    }
}

proof fn lemma_parse_entries_pos(
    toks: Seq<Result<Tok, ParseError>>,
    k: int,
    acc: Seq<(Val, Val)>,
)
    requires
        0 <= k,
    ensures
        match parse_entries(toks, k, acc) {
            Ok((_, j)) => k <= j < toks.len() && toks[j] is Ok,
            Err(_) => true,
        },
    decreases toks.len() - k, 2int,
{
    if k < toks.len() {
        match toks[k] {
            Err(_) => {},
            Ok(t) => {
                if t != Tok::Special('}') {
                    lemma_parse_pos(toks, k);
                    match parse_form_at(toks, k) {
                        Err(_) => {},
                        Ok((key, j)) => {
                            let jc = if j < k || j >= toks.len() {
                                k
                            } else {
                                j
                            };
                            if key.is_atom() && jc + 1 < toks.len() && toks[jc + 1] is Ok {
                                lemma_parse_pos(toks, jc + 1);
                                match parse_form_at(toks, jc + 1) {
                                    Err(_) => {},
                                    Ok((value, j2)) => {
                                        let j2c = if j2 < jc + 1 || j2 >= toks.len() {
                                            jc + 1
                                        } else {
                                            j2
                                        };
                                        lemma_parse_entries_pos(
                                            toks,
                                            j2c + 1,
                                            table_insert(acc, key, value),
                                        );
                                    },
                                }
                            }
                        },
                    }
                }
            },
        }
    }
}


/// Classifies a character-sequence token, as [`classify_text`] describes.
fn classify(s: &String) -> (a: Atom)
    ensures
        a@ == classify_text(s@),
{
    let cs = str_to_chars(s.as_str());
    match crate::numbers::parse_number(&cs) {
        Some(n) => {
            return Atom::Number(n);
        },
        None => {},
    }
    proof {
        reveal_strlit("nil");
        reveal_strlit("true");
        reveal_strlit("false");
    }
    if cs.len() == 3 && cs[0] == 'n' && cs[1] == 'i' && cs[2] == 'l' {
        proof {
            assert(s@ =~= "nil"@);
        }
        return Atom::Nil;
    }
    if cs.len() == 4 && cs[0] == 't' && cs[1] == 'r' && cs[2] == 'u' && cs[3] == 'e' {
        proof {
            assert(s@ =~= "true"@);
        }
        return Atom::True;
    }
    if cs.len() == 5 && cs[0] == 'f' && cs[1] == 'a' && cs[2] == 'l' && cs[3] == 's' && cs[4]
        == 'e' {
        proof {
            assert(s@ =~= "false"@);
        }
        return Atom::False;
    }
    proof {
        assert(s@ != "nil"@);
        assert(s@ != "true"@);
        assert(s@ != "false"@);
    }
    if cs.len() > 0 && cs[0] == ':' {
        let rest = copy_range(&cs, 1, cs.len());
        proof {
            assert(rest@ =~= s@.skip(1));
        }
        return Atom::Keyword(chars_to_string(&rest));
    }
    Atom::Symbol(s.clone())
}

/// The token under the cursor, or the given error at the end of input.
fn peek_token(reader: &Reader, none_error: ParseError) -> (r: Result<Token, ParseError>)
    requires
        reader.wf(),
    ensures
        match r {
            Ok(t) => reader.pos < reader.toks@.len() && reader.toks@[reader.pos as int]
                == Ok::<Token, ParseError>(t),
            Err(e) => {
                if reader.pos == reader.toks@.len() {
                    e == none_error
                } else {
                    reader.toks@[reader.pos as int] == Err::<Token, ParseError>(e)
                }
            },
        },
{
    match reader.peek() {
        None => Err(none_error),
        Some(Err(e)) => Err(e),
        Some(Ok(t)) => Ok(t),
    }
}

/// Reads one form from the cursor into the heap. The form's last token is
/// left under the cursor for the caller to step past.
pub fn read_form(reader: &mut Reader, heap: &mut Heap) -> (r: Result<Object, ParseError>)
    requires
        old(reader).wf(),
        old(heap).wf(),
    ensures
        final(reader).wf(),
        final(reader).toks@ == old(reader).toks@,
        final(heap).wf(),
        heap_extends(final(heap).nodes@, old(heap).nodes@),
        match parse_form_at(old(reader).stream(), old(reader).pos as int) {
            Ok((v, j)) => match r {
                Ok(o) => final(reader).pos as int == j && final(heap).contains(o) && final(heap).tree(o) == v,
                Err(_) => false,
            },
            Err(e) => r == Err::<Object, ParseError>(e),
        },
    decreases reader.toks@.len() - reader.pos, 1int,
{
    let ghost toks = old(reader).stream();
    let ghost k = old(reader).pos as int;
    let t = reader.peek();
    match t {
        None => Err(ParseError::MissingForm),
        Some(Err(e)) => Err(e),
        Some(Ok(tok)) => {
            proof {
                assert(toks[k] == tok_res_view(old(reader).toks@[k]));
                assert(toks[k] == Ok::<Tok, ParseError>(tok@));
            }
            match tok {
                Token::SpecialCharacter(c) => {
                    if c == '[' {
                        reader.advance();
                        match read_list(reader, heap, ']', ParseError::UnbalancedSquareBrackets) {
                            Ok(items) => {
                                let ghost nodes1 = heap.nodes@;
                                let o = heap.intern(Form::vector(items));
                                Ok(o)
                            },
                            Err(e) => Err(e),
                        }
                    } else if c == ']' {
                        Err(ParseError::UnexpectedCloseSquareBracket)
                    } else if c == '{' {
                        reader.advance();
                        match read_map(reader, heap) {
                            Ok(entries) => {
                                let o = heap.intern(Form::map(entries));
                                Ok(o)
                            },
                            Err(e) => Err(e),
                        }
                    } else if c == '}' {
                        Err(ParseError::UnexpectedCloseCurlyBracket)
                    } else if c == '(' {
                        reader.advance();
                        match read_list(reader, heap, ')', ParseError::UnbalancedParens) {
                            Ok(items) => {
                                let o = heap.intern(Form::list(items));
                                Ok(o)
                            },
                            Err(e) => Err(e),
                        }
                    } else if c == ')' {
                        Err(ParseError::UnexpectedCloseParen)
                    } else if c == '\'' {
                        call("quote", reader, heap)
                    } else if c == '`' {
                        call("quasiquote", reader, heap)
                    } else if c == '~' {
                        call("unquote", reader, heap)
                    } else if c == '^' {
                        with_meta(reader, heap)
                    } else if c == '@' {
                        call("deref", reader, heap)
                    } else {
                        Err(ParseError::MissingForm)
                    }
                },
                Token::SpecialTwoCharacter => call("splice-unquote", reader, heap),
                Token::Comment(_) => {
                    reader.advance();
                    read_form(reader, heap)
                },
                Token::String(st) => {
                    let o = heap.intern(Form::Atom(Atom::String(st)));
                    Ok(o)
                },
                Token::CharacterSequence(st) => {
                    let a = classify(&st);
                    let o = heap.intern(Form::Atom(a));
                    Ok(o)
                },
            }
        },
    }
}

/// Reads forms until the closing character, which stays under the cursor.
fn read_list(
    reader: &mut Reader,
    heap: &mut Heap,
    end_char: char,
    unbalanced: ParseError,
) -> (r: Result<Vec<Object>, ParseError>)
    requires
        old(reader).wf(),
        old(heap).wf(),
    ensures
        final(reader).wf(),
        final(reader).toks@ == old(reader).toks@,
        final(heap).wf(),
        heap_extends(final(heap).nodes@, old(heap).nodes@),
        match parse_items(
            old(reader).stream(),
            old(reader).pos as int,
            end_char,
            unbalanced,
        ) {
            Ok((vals, j)) => match r {
                Ok(items) => final(reader).pos as int == j && (forall|q: int|
                    0 <= q < items@.len() ==> (#[trigger] items@[q]).id
                        < final(heap).nodes@.len()) && views_of(final(heap).nodes@, items@)
                    == vals,
                Err(_) => false,
            },
            Err(e) => r == Err::<Vec<Object>, ParseError>(e),
        },
    decreases reader.toks@.len() - reader.pos, 2int,
{
    let ghost toks = old(reader).stream();
    let ghost k = old(reader).pos as int;
    let t = peek_token(reader, unbalanced);
    match t {
        Err(e) => {
            proof {
                if reader.pos < reader.toks@.len() {
                    assert(toks[k] == tok_res_view(reader.toks@[k]));
                }
            }
            Err(e)
        },
        Ok(tok) => {
            proof {
                assert(toks[k] == tok_res_view(reader.toks@[k]));
                assert(toks[k] == Ok::<Tok, ParseError>(tok@));
            }
            let is_closer = match &tok {
                Token::SpecialCharacter(c) => *c == end_char,
                _ => false,
            };
            proof {
                assert(is_closer == (tok@ == Tok::Special(end_char)));
            }
            if is_closer {
                let out: Vec<Object> = Vec::new();
                proof {
                    assert(views_of(heap.nodes@, out@) =~= Seq::<Val>::empty());
                }
                return Ok(out);
            }
            let o = match read_form(reader, heap) {
                Err(e) => {
                    return Err(e);
                },
                Ok(o) => o,
            };
            proof {
                lemma_parse_pos(toks, k);
            }
            let ghost h1 = heap.nodes@;
            let ghost v = heap.tree(o);
            reader.advance();
            let mut rest = match read_list(reader, heap, end_char, unbalanced) {
                Err(e) => {
                    return Err(e);
                },
                Ok(items) => items,
            };
            proof {
                lemma_view_at_prefix(h1, heap.nodes@, o.id as int);
            }
            let ghost rest0 = rest@;
            rest.insert(0, o);
            proof {
                assert(rest@ =~= seq![o] + rest0);
                lemma_views_of_index(heap.nodes@, rest@);
                lemma_views_of_index(heap.nodes@, rest0);
                assert(views_of(heap.nodes@, rest@) =~= seq![v] + views_of(
                    heap.nodes@,
                    rest0,
                ));
            }
            Ok(rest)
        },
    }
}

/// Reads key/value pairs until the closing `}`, which stays under the
/// cursor.
fn read_map(reader: &mut Reader, heap: &mut Heap) -> (r: Result<Vec<(Atom, Object)>, ParseError>)
    requires
        old(reader).wf(),
        old(heap).wf(),
    ensures
        final(reader).wf(),
        final(reader).toks@ == old(reader).toks@,
        final(heap).wf(),
        heap_extends(final(heap).nodes@, old(heap).nodes@),
        match parse_entries(old(reader).stream(), old(reader).pos as int, Seq::empty()) {
            Ok((pairs, j)) => match r {
                Ok(entries) => final(reader).pos as int == j && (forall|q: int|
                    0 <= q < entries@.len() ==> (#[trigger] entries@[q]).1.id
                        < final(heap).nodes@.len()) && entries_of(final(heap).nodes@, entries@)
                    == pairs,
                Err(_) => false,
            },
            Err(e) => r == Err::<Vec<(Atom, Object)>, ParseError>(e),
        },
    decreases reader.toks@.len() - reader.pos, 3int,
{
    let entries: Vec<(Atom, Object)> = Vec::new();
    proof {
        assert(entries_of(heap.nodes@, entries@) =~= Seq::<(Val, Val)>::empty());
    }
    read_map_from(reader, heap, entries)
}

/// Continues reading a map's pairs into the entries read so far.
fn read_map_from(
    reader: &mut Reader,
    heap: &mut Heap,
    entries: Vec<(Atom, Object)>,
) -> (r: Result<Vec<(Atom, Object)>, ParseError>)
    requires
        old(reader).wf(),
        old(heap).wf(),
        forall|q: int|
            0 <= q < entries@.len() ==> (#[trigger] entries@[q]).1.id < old(heap).nodes@.len(),
    ensures
        final(reader).wf(),
        final(reader).toks@ == old(reader).toks@,
        final(heap).wf(),
        heap_extends(final(heap).nodes@, old(heap).nodes@),
        match parse_entries(
            old(reader).stream(),
            old(reader).pos as int,
            entries_of(old(heap).nodes@, entries@),
        ) {
            Ok((pairs, j)) => match r {
                Ok(out) => final(reader).pos as int == j && (forall|q: int|
                    0 <= q < out@.len() ==> (#[trigger] out@[q]).1.id
                        < final(heap).nodes@.len()) && entries_of(final(heap).nodes@, out@)
                    == pairs,
                Err(_) => false,
            },
            Err(e) => r == Err::<Vec<(Atom, Object)>, ParseError>(e),
        },
    decreases reader.toks@.len() - reader.pos, 2int,
{
    let ghost toks = old(reader).stream();
    let ghost k = old(reader).pos as int;
    let ghost acc = entries_of(heap.nodes@, entries@);
    let t = peek_token(reader, ParseError::UnbalancedCurlyBrackets);
    match t {
        Err(e) => {
            proof {
                if reader.pos < reader.toks@.len() {
                    assert(toks[k] == tok_res_view(reader.toks@[k]));
                }
            }
            Err(e)
        },
        Ok(tok) => {
            proof {
                assert(toks[k] == tok_res_view(reader.toks@[k]));
                assert(toks[k] == Ok::<Tok, ParseError>(tok@));
            }
            let is_closer = match &tok {
                Token::SpecialCharacter(c) => *c == '}',
                _ => false,
            };
            proof {
                assert(is_closer == (tok@ == Tok::Special('}')));
            }
            if is_closer {
                return Ok(entries);
            }
            let ghost h1 = heap.nodes@;
            let key_obj = match read_form(reader, heap) {
                Err(e) => {
                    return Err(e);
                },
                Ok(o) => o,
            };
            proof {
                lemma_parse_pos(toks, k);
                lemma_entries_of_prefix(h1, heap.nodes@, entries@, h1.len() as int);
            }
            let ghost j = reader.pos as int;
            reader.advance();
            // a compound cannot serve as a key
            let key = match heap.get(key_obj) {
                Form::Atom(a) => a.duplicate(),
                Form::Compound(_) => {
                    proof {
                        assert(!heap.tree(key_obj).is_atom());
                    }
                    return Err(ParseError::UnexpectedCompound);
                },
            };
            proof {
                assert(heap.tree(key_obj) == key@);
                assert(heap.tree(key_obj).is_atom());
            }
            let t2 = peek_token(reader, ParseError::UnbalancedCurlyBrackets);
            let vtok = match t2 {
                Err(e) => {
                    proof {
                        if reader.pos < reader.toks@.len() {
                            assert(toks[j + 1] == tok_res_view(reader.toks@[j + 1]));
                        }
                    }
                    return Err(e);
                },
                Ok(tk) => tk,
            };
            proof {
                assert(toks[j + 1] == tok_res_view(reader.toks@[j + 1]));
                assert(toks[j + 1] == Ok::<Tok, ParseError>(vtok@));
            }
            let v_is_closer = match &vtok {
                Token::SpecialCharacter(c) => *c == '}',
                _ => false,
            };
            proof {
                assert(v_is_closer == (vtok@ == Tok::Special('}')));
            }
            if v_is_closer {
                return Err(ParseError::KeyWithoutValue);
            }
            let ghost h2 = heap.nodes@;
            let value_obj = match read_form(reader, heap) {
                Err(e) => {
                    return Err(e);
                },
                Ok(o) => o,
            };
            proof {
                lemma_parse_pos(toks, j + 1);
                lemma_entries_of_prefix(h2, heap.nodes@, entries@, h2.len() as int);
                lemma_view_at_prefix(h2, heap.nodes@, key_obj.id as int);
            }
            reader.advance();
            let mut entries2 = entries;
            map_insert(heap, &mut entries2, key, value_obj);
            read_map_from(reader, heap, entries2)
        },
    }
}

/// Replaces the first entry with an equal key, or appends the pair.
fn map_insert(heap: &Heap, entries: &mut Vec<(Atom, Object)>, key: Atom, value: Object)
    requires
        forall|q: int|
            0 <= q < old(entries)@.len() ==> (#[trigger] old(entries)@[q]).1.id
                < heap.nodes@.len(),
        value.id < heap.nodes@.len(),
    ensures
        forall|q: int|
            0 <= q < final(entries)@.len() ==> (#[trigger] final(entries)@[q]).1.id
                < heap.nodes@.len(),
        entries_of(heap.nodes@, final(entries)@) == table_insert(
            entries_of(heap.nodes@, old(entries)@),
            key@,
            view_at(heap.nodes@, value.id as int),
        ),
{
    let ghost nodes = heap.nodes@;
    let ghost pairs = entries_of(nodes, entries@);
    proof {
        lemma_entries_of_index(nodes, entries@);
    }
    let n = entries.len();
    let mut i: usize = 0;
    while i < n
        invariant
            i <= n,
            entries@ == old(entries)@,
            n == entries@.len(),
            nodes == heap.nodes@,
            value.id < nodes.len(),
            pairs == entries_of(nodes, entries@),
            pairs.len() == n,
            forall|q: int| 0 <= q < n ==> (#[trigger] pairs[q]).0 == entries@[q].0@,
            forall|q: int| 0 <= q < i ==> (#[trigger] pairs[q]).0 != key@,
            forall|q: int|
                0 <= q < entries@.len() ==> (#[trigger] entries@[q]).1.id < nodes.len(),
        decreases n - i,
    {
        let hit = crate::types::atom_eq(&entries[i].0, &key);
        if hit {
            let ghost before = entries@;
            entries.set(i, (key, value));
            proof {
                lemma_entries_of_index(nodes, before);
                lemma_entries_of_index(nodes, entries@);
                assert(entries_of(nodes, entries@) =~= pairs.update(
                    i as int,
                    (key@, view_at(nodes, value.id as int)),
                ));
                lemma_table_insert_found(
                    pairs,
                    key@,
                    view_at(nodes, value.id as int),
                    i as int,
                );
                assert(pairs == entries_of(heap.nodes@, old(entries)@));
                assert(entries_of(heap.nodes@, entries@) == table_insert(
                    entries_of(heap.nodes@, old(entries)@),
                    key@,
                    view_at(heap.nodes@, value.id as int),
                ));
                assert forall|q: int|
                    0 <= q < entries@.len() implies (#[trigger] entries@[q]).1.id
                    < heap.nodes@.len() by {
                    if q != i {
                        assert(entries@[q] == before[q]);
                    } else {
                        assert(entries@[q] == (key, value));
                    }
                }
            }
            return;
        }
        i = i + 1;
    }
    let ghost before = entries@;
    entries.push((key, value));
    proof {
        lemma_entries_of_index(nodes, before);
        lemma_entries_of_index(nodes, entries@);
        assert(entries_of(nodes, entries@) =~= pairs.push(
            (key@, view_at(nodes, value.id as int)),
        ));
        lemma_table_insert_missing(pairs, key@, view_at(nodes, value.id as int));
    }
}

/// When the first equal key stands at `i`, inserting replaces that entry.
pub proof fn lemma_table_insert_found(pairs: Seq<(Val, Val)>, key: Val, value: Val, i: int)
    requires
        0 <= i < pairs.len(),
        pairs[i].0 == key,
        forall|q: int| 0 <= q < i ==> (#[trigger] pairs[q]).0 != key,
    ensures
        table_insert(pairs, key, value) == pairs.update(i, (key, value)),
    decreases i,
{
    if i == 0 {
        assert(seq![(key, value)] + pairs.skip(1) =~= pairs.update(0, (key, value)));
    } else {
        assert(pairs.skip(1)[i - 1].0 == key);
        assert forall|q: int| 0 <= q < i - 1 implies (#[trigger] pairs.skip(1)[q]).0 != key by {
            assert(pairs.skip(1)[q] == pairs[q + 1]);
        }
        lemma_table_insert_found(pairs.skip(1), key, value, i - 1);
        assert(seq![pairs[0]] + pairs.skip(1).update(i - 1, (key, value)) =~= pairs.update(
            i,
            (key, value),
        ));
    }
}

/// When no key is equal, inserting appends the pair.
pub proof fn lemma_table_insert_missing(pairs: Seq<(Val, Val)>, key: Val, value: Val)
    requires
        forall|q: int| 0 <= q < pairs.len() ==> (#[trigger] pairs[q]).0 != key,
    ensures
        table_insert(pairs, key, value) == pairs.push((key, value)),
    decreases pairs.len(),
{
    if pairs.len() == 0 {
        assert(seq![(key, value)] =~= pairs.push((key, value)));
    } else {
        assert forall|q: int| 0 <= q < pairs.skip(1).len() implies (#[trigger] pairs.skip(
            1,
        )[q]).0 != key by {
            assert(pairs.skip(1)[q] == pairs[q + 1]);
        }
        lemma_table_insert_missing(pairs.skip(1), key, value);
        assert(seq![pairs[0]] + pairs.skip(1).push((key, value)) =~= pairs.push((key, value)));
    }
}

/// Desugars one reader macro: consumes the sugar token, reads the argument
/// and builds the two-element list `(fun argument)`.
fn call(fun: &str, reader: &mut Reader, heap: &mut Heap) -> (r: Result<Object, ParseError>)
    requires
        old(reader).wf(),
        old(reader).pos < old(reader).toks@.len(),
        old(heap).wf(),
    ensures
        final(reader).wf(),
        final(reader).toks@ == old(reader).toks@,
        final(heap).wf(),
        heap_extends(final(heap).nodes@, old(heap).nodes@),
        match parse_wrap(old(reader).stream(), old(reader).pos as int, fun@) {
            Ok((v, j)) => match r {
                Ok(o) => final(reader).pos as int == j && final(heap).contains(o) && final(heap).tree(o) == v,
                Err(_) => false,
            },
            Err(e) => r == Err::<Object, ParseError>(e),
        },
    decreases reader.toks@.len() - reader.pos, 0int,
{
    let ghost toks = old(reader).stream();
    let ghost k = old(reader).pos as int;
    let so = heap.intern(Form::symbol(fun));
    let ghost h1 = heap.nodes@;
    reader.advance();
    match read_form(reader, heap) {
        Ok(arg) => {
            proof {
                lemma_view_at_prefix(h1, heap.nodes@, so.id as int);
            }
            let mut l: Vec<Object> = Vec::new();
            l.push(so);
            l.push(arg);
            proof {
                lemma_views_of_index(heap.nodes@, l@);
                assert(views_of(heap.nodes@, l@) =~= seq![
                    Val::Symbol(fun@),
                    heap.tree(arg),
                ]);
            }
            let o = heap.intern(Form::list(l));
            Ok(o)
        },
        Err(e) => Err(e),
    }
}

/// Desugars `^meta value` to `(with-meta value meta)`: the two source
/// arguments are stored in swapped order.
fn with_meta(reader: &mut Reader, heap: &mut Heap) -> (r: Result<Object, ParseError>)
    requires
        old(reader).wf(),
        old(reader).pos < old(reader).toks@.len(),
        old(heap).wf(),
    ensures
        final(reader).wf(),
        final(reader).toks@ == old(reader).toks@,
        final(heap).wf(),
        heap_extends(final(heap).nodes@, old(heap).nodes@),
        match parse_meta(old(reader).stream(), old(reader).pos as int) {
            Ok((v, j)) => match r {
                Ok(o) => final(reader).pos as int == j && final(heap).contains(o) && final(heap).tree(o) == v,
                Err(_) => false,
            },
            Err(e) => r == Err::<Object, ParseError>(e),
        },
    decreases reader.toks@.len() - reader.pos, 0int,
{
    let ghost toks = old(reader).stream();
    let ghost k = old(reader).pos as int;
    let so = heap.intern(Form::symbol("with-meta"));
    let ghost h1 = heap.nodes@;
    reader.advance();
    match read_form(reader, heap) {
        Ok(meta) => {
            proof {
                lemma_parse_pos(toks, k + 1);
            }
            let ghost j = reader.pos as int;
            match reader.peek() {
                None => Err(ParseError::MissingForm),
                Some(Err(e)) => {
                    proof {
                        assert(toks[j] == tok_res_view(reader.toks@[j]));
                    }
                    Err(e)
                },
                Some(Ok(_)) => {
                    proof {
                        assert(toks[j] == tok_res_view(reader.toks@[j]));
                    }
                    reader.advance();
                    let ghost h2 = heap.nodes@;
                    match read_form(reader, heap) {
                        Ok(value) => {
                            proof {
                                lemma_view_at_prefix(h1, h2, so.id as int);
                                lemma_view_at_prefix(h2, heap.nodes@, so.id as int);
                                lemma_view_at_prefix(h2, heap.nodes@, meta.id as int);
                                crate::types::lemma_heap_extends_trans(
                                    heap.nodes@,
                                    h2,
                                    h1,
                                );
                            }
                            let mut l: Vec<Object> = Vec::new();
                            l.push(so);
                            l.push(value);
                            l.push(meta);
                            proof {
                                lemma_views_of_index(heap.nodes@, l@);
                                assert(views_of(heap.nodes@, l@) =~= seq![
                                    Val::Symbol("with-meta"@),
                                    heap.tree(value),
                                    heap.tree(meta),
                                ]);
                            }
                            let o = heap.intern(Form::list(l));
                            Ok(o)
                        },
                        Err(e) => Err(e),
                    }
                },
            }
        },
        Err(e) => Err(e),
    }
}

/// Reads exactly one form from the input; anything after it is ignored.
pub fn read_str(input: &String, heap: &mut Heap) -> (r: Result<Object, ParseError>)
    requires
        old(heap).wf(),
    ensures
        final(heap).wf(),
        heap_extends(final(heap).nodes@, old(heap).nodes@),
        match parse_input(input@) {
            Ok(v) => match r {
                Ok(o) => final(heap).contains(o) && final(heap).tree(o) == v,
                Err(_) => false,
            },
            Err(e) => r == Err::<Object, ParseError>(e),
        },
{
    let mut reader = Reader::new(input.as_str());
    read_form(&mut reader, heap)
}

} // verus!
