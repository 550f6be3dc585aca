use vstd::prelude::*;
use vstd::std_specs::iter::IteratorSpec;

verus! {

broadcast use vstd::string::group_string_axioms;

/// A lexical unit of a program.
///
/// A number literal is kept as the text that was read (digits and dots);
/// its numeric value is taken by whoever evaluates it.
#[derive(Debug, Clone, PartialEq)]
pub enum Token {
    Show,
    Store,
    Add,
    To,
    From,
    Remove,
    If,
    Else,
    Then,
    End,
    Input,
    Loop,
    Times,
    Function,
    With,
    Do,
    Return,
    Read,
    Write,
    Append,
    Plus,
    Minus,
    Multiply,
    Divide,
    Equals,
    Greater,
    Less,
    Newline,
    Number(String),
    StringLit(String),
    Ident(String),
    EOF,
}

/// The mathematical model of a token: its text payloads are character sequences.
pub enum SpecToken {
    Show,
    Store,
    Add,
    To,
    From,
    Remove,
    If,
    Else,
    Then,
    End,
    Input,
    Loop,
    Times,
    Function,
    With,
    Do,
    Return,
    Read,
    Write,
    Append,
    Plus,
    Minus,
    Multiply,
    Divide,
    Equals,
    Greater,
    Less,
    Newline,
    Number(Seq<char>),
    StringLit(Seq<char>),
    Ident(Seq<char>),
    EOF,
}

impl View for Token {
    type V = SpecToken;

    open spec fn view(&self) -> SpecToken {
        match self {
            Token::Show => SpecToken::Show,
            Token::Store => SpecToken::Store,
            Token::Add => SpecToken::Add,
            Token::To => SpecToken::To,
            Token::From => SpecToken::From,
            Token::Remove => SpecToken::Remove,
            Token::If => SpecToken::If,
            Token::Else => SpecToken::Else,
            Token::Then => SpecToken::Then,
            Token::End => SpecToken::End,
            Token::Input => SpecToken::Input,
            Token::Loop => SpecToken::Loop,
            Token::Times => SpecToken::Times,
            Token::Function => SpecToken::Function,
            Token::With => SpecToken::With,
            Token::Do => SpecToken::Do,
            Token::Return => SpecToken::Return,
            Token::Read => SpecToken::Read,
            Token::Write => SpecToken::Write,
            Token::Append => SpecToken::Append,
            Token::Plus => SpecToken::Plus,
            Token::Minus => SpecToken::Minus,
            Token::Multiply => SpecToken::Multiply,
            Token::Divide => SpecToken::Divide,
            Token::Equals => SpecToken::Equals,
            Token::Greater => SpecToken::Greater,
            Token::Less => SpecToken::Less,
            Token::Newline => SpecToken::Newline,
            Token::Number(s) => SpecToken::Number(s@),
            Token::StringLit(s) => SpecToken::StringLit(s@),
            Token::Ident(s) => SpecToken::Ident(s@),
            Token::EOF => SpecToken::EOF,
        }
    }
}

/// The models of a sequence of tokens.
pub open spec fn tokens_view(ts: Seq<Token>) -> Seq<SpecToken> {
    ts.map_values(|t: Token| t@)
}

/// Whether `char::is_alphanumeric` holds of a character (Unicode's Alphabetic or Numeric).
pub uninterp spec fn alphanumeric(c: char) -> bool;

/// An ASCII letter or digit.
pub open spec fn is_ascii_alphanumeric(c: char) -> bool {
    ('0' <= c && c <= '9') || ('a' <= c && c <= 'z') || ('A' <= c && c <= 'Z')
}

/// Calls `char::is_alphanumeric`; its result is the named predicate `alphanumeric` of `c`.
/// On ASCII characters it holds exactly of the letters and digits (they are the
/// ASCII characters with Unicode's Alphabetic or Numeric property).
#[verifier::external_body]
fn is_alphanumeric(c: char) -> (r: bool)
    ensures
        r == alphanumeric(c),
        c <= '\x7f' ==> (r <==> is_ascii_alphanumeric(c)),
{
    c.is_alphanumeric()
}

/// Calls `String::push`: the character is appended at the end.
#[verifier::external_body]
pub(crate) fn push_char(s: &mut String, c: char)
    ensures
        final(s)@ == old(s)@.push(c),
{
    s.push(c)
}

/// The characters of a string slice, in order.
fn chars_of(input: &str) -> (out: Vec<char>)
    ensures
        out@ == input@,
{
    let mut out: Vec<char> = Vec::new();
    for c in it: input.chars()
        invariant
            out@ == it.seq().take(it.index() as int),
            it.seq() == input@,
    {
        out.push(c);
    }
    out
}

/// The string made of `s[from..to]`.
fn string_of(s: &Vec<char>, from: usize, to: usize) -> (out: String)
    requires
        from <= to <= s@.len(),
    ensures
        out@ == s@.subrange(from as int, to as int),
{
    let mut out = String::new();
    let mut k = from;
    while k < to
        invariant
            from <= k <= to <= s@.len(),
            out@ == s@.subrange(from as int, k as int),
        decreases to - k,
    {
        push_char(&mut out, s[k]);
        k += 1;
        assert(out@ =~= s@.subrange(from as int, k as int));
    }
    out
}

pub open spec fn is_digit(c: char) -> bool {
    '0' <= c && c <= '9'
}

pub open spec fn is_ident_start(c: char) -> bool {
    ('a' <= c && c <= 'z') || ('A' <= c && c <= 'Z') || c == '_'
}

/// A character that continues a word: `_`, an ASCII letter or digit, or a
/// non-ASCII character that is alphanumeric.
pub open spec fn is_word_char(c: char) -> bool {
    c == '_' || if c <= '\x7f' {
        is_ascii_alphanumeric(c)
    } else {
        alphanumeric(c)
    }
}

/// The token of a one-character operator, if `c` is one.
pub open spec fn operator_token(c: char) -> Option<SpecToken> {
    if c == '+' {
        Some(SpecToken::Plus)
    } else if c == '-' {
        Some(SpecToken::Minus)
    } else if c == '*' {
        Some(SpecToken::Multiply)
    } else if c == '/' {
        Some(SpecToken::Divide)
    } else if c == '=' {
        Some(SpecToken::Equals)
    } else if c == '>' {
        Some(SpecToken::Greater)
    } else if c == '<' {
        Some(SpecToken::Less)
    } else {
        None
    }
}

/// The end of the run of digits and dots that starts at `i`.
pub open spec fn number_end(s: Seq<char>, i: int) -> int
    decreases s.len() - i,
{
    if 0 <= i < s.len() && (is_digit(s[i]) || s[i] == '.') {
        number_end(s, i + 1)
    } else {
        i
    }
}

/// The end of the run of word characters that starts at `i`.
pub open spec fn word_end(s: Seq<char>, i: int) -> int
    decreases s.len() - i,
{
    if 0 <= i < s.len() && is_word_char(s[i]) {
        word_end(s, i + 1)
    } else {
        i
    }
}

/// The position of the first double quote at or after `i`, or the end of the input.
pub open spec fn quote_end(s: Seq<char>, i: int) -> int
    decreases s.len() - i,
{
    if 0 <= i < s.len() && s[i] != '"' {
        quote_end(s, i + 1)
    } else {
        i
    }
}

pub proof fn lemma_number_end(s: Seq<char>, i: int)
    requires
        0 <= i <= s.len(),
    ensures
        i <= number_end(s, i) <= s.len(),
    decreases s.len() - i,
{
    if i < s.len() && (is_digit(s[i]) || s[i] == '.') {
        lemma_number_end(s, i + 1);
    }
}

pub proof fn lemma_word_end(s: Seq<char>, i: int)
    requires
        0 <= i <= s.len(),
    ensures
        i <= word_end(s, i) <= s.len(),
    decreases s.len() - i,
{
    if i < s.len() && is_word_char(s[i]) {
        lemma_word_end(s, i + 1);
    }
}

pub proof fn lemma_quote_end(s: Seq<char>, i: int)
    requires
        0 <= i <= s.len(),
    ensures
        i <= quote_end(s, i) <= s.len(),
        quote_end(s, i) < s.len() ==> s[quote_end(s, i)] == '"',
    decreases s.len() - i,
{
    if i < s.len() && s[i] != '"' {
        lemma_quote_end(s, i + 1);
    }
}

/// The token that a word stands for: a keyword, or else an identifier.
pub open spec fn word_token(w: Seq<char>) -> SpecToken {
    if w == seq!['s', 'h', 'o', 'w'] {
        SpecToken::Show
    } else if w == seq!['s', 't', 'o', 'r', 'e'] {
        SpecToken::Store
    } else if w == seq!['a', 'd', 'd'] {
        SpecToken::Add
    } else if w == seq!['t', 'o'] {
        SpecToken::To
    } else if w == seq!['f', 'r', 'o', 'm'] {
        SpecToken::From
    } else if w == seq!['r', 'e', 'm', 'o', 'v', 'e'] {
        SpecToken::Remove
    } else if w == seq!['i', 'f'] {
        SpecToken::If
    } else if w == seq!['e', 'l', 's', 'e'] {
        SpecToken::Else
    } else if w == seq!['t', 'h', 'e', 'n'] {
        SpecToken::Then
    } else if w == seq!['e', 'n', 'd'] {
        SpecToken::End
    } else if w == seq!['i', 'n', 'p', 'u', 't'] {
        SpecToken::Input
    } else if w == seq!['l', 'o', 'o', 'p'] {
        SpecToken::Loop
    } else if w == seq!['t', 'i', 'm', 'e', 's'] {
        SpecToken::Times
    } else if w == seq!['f', 'u', 'n', 'c', 't', 'i', 'o', 'n'] {
        SpecToken::Function
    } else if w == seq!['w', 'i', 't', 'h'] {
        SpecToken::With
    } else if w == seq!['d', 'o'] {
        SpecToken::Do
    } else if w == seq!['r', 'e', 't', 'u', 'r', 'n'] {
        SpecToken::Return
    } else if w == seq!['r', 'e', 'a', 'd'] {
        SpecToken::Read
    } else if w == seq!['w', 'r', 'i', 't', 'e'] {
        SpecToken::Write
    } else if w == seq!['a', 'p', 'p', 'e', 'n', 'd'] {
        SpecToken::Append
    } else {
        SpecToken::Ident(w)
    }
}

/// The tokens of `s` from position `i` on, ending with `EOF`.
///
/// Line breaks are tokens; spaces, tabs and carriage returns separate tokens;
/// a double quote opens a string literal that runs to the next double quote
/// (or to the end of the input); a digit opens a number literal of digits and
/// dots; a letter or `_` opens a word of alphanumeric characters and `_`;
/// any other character is skipped.
pub open spec fn lex_from(s: Seq<char>, i: int) -> Seq<SpecToken>
    decreases s.len() - i,
{
    if i < 0 || i >= s.len() {
        seq![SpecToken::EOF]
    } else {
        let c = s[i];
        if c == '\n' {
            seq![SpecToken::Newline] + lex_from(s, i + 1)
        } else if c == ' ' || c == '\t' || c == '\r' {
            lex_from(s, i + 1)
        } else if operator_token(c) is Some {
            seq![operator_token(c).unwrap()] + lex_from(s, i + 1)
        } else if c == '"' {
            let j = quote_end(s, i + 1);
            proof {
                lemma_quote_end(s, i + 1);
            }
            seq![SpecToken::StringLit(s.subrange(i + 1, j))] + lex_from(
                s,
                if j < s.len() {
                    j + 1
                } else {
                    j
                },
            )
        } else if is_digit(c) {
            let j = number_end(s, i + 1);
            proof {
                lemma_number_end(s, i + 1);
            }
            seq![SpecToken::Number(s.subrange(i, j))] + lex_from(s, j)
        } else if is_ident_start(c) {
            let j = word_end(s, i + 1);
            proof {
                lemma_word_end(s, i + 1);
            }
            seq![word_token(s.subrange(i, j))] + lex_from(s, j)
        } else {
            lex_from(s, i + 1)
        }
    }
}

/// The tokens of a whole program text.
pub open spec fn lex(s: Seq<char>) -> Seq<SpecToken> {
    lex_from(s, 0)
}

/// A token sequence ends with `EOF`, and no other token is `EOF`.
pub open spec fn eof_only_last(ts: Seq<SpecToken>) -> bool {
    &&& ts.len() > 0
    &&& ts.last() is EOF
    &&& forall|k: int| 0 <= k < ts.len() - 1 ==> !(#[trigger] ts[k] is EOF)
}

proof fn lemma_lex_from_eof(s: Seq<char>, i: int)
    ensures
        eof_only_last(lex_from(s, i)),
    decreases s.len() - i,
{
    if 0 <= i < s.len() {
        let c = s[i];
        if c == '"' {
            lemma_quote_end(s, i + 1);
            let j = quote_end(s, i + 1);
            lemma_lex_from_eof(s, if j < s.len() { j + 1 } else { j });
        } else if c != '\n' && !(c == ' ' || c == '\t' || c == '\r') && operator_token(c) is None
            && is_digit(c) {
            lemma_number_end(s, i + 1);
            lemma_lex_from_eof(s, number_end(s, i + 1));
        } else if c != '\n' && !(c == ' ' || c == '\t' || c == '\r') && operator_token(c) is None
            && is_ident_start(c) {
            lemma_word_end(s, i + 1);
            lemma_lex_from_eof(s, word_end(s, i + 1));
        } else {
            lemma_lex_from_eof(s, i + 1);
        }
    }
}

/// The text of a number literal: a digit, then digits and dots.
pub open spec fn number_literal_text(t: Seq<char>) -> bool {
    &&& t.len() > 0
    &&& is_digit(t[0])
    &&& forall|k: int| 0 <= k < t.len() ==> is_digit(#[trigger] t[k]) || t[k] == '.'
}

proof fn lemma_number_run(s: Seq<char>, i: int, j: int)
    requires
        0 <= i <= j <= number_end(s, i),
        number_end(s, i) <= s.len(),
    ensures
        forall|k: int| i <= k < j ==> is_digit(#[trigger] s[k]) || s[k] == '.',
    decreases j - i,
{
    if i < j {
        assert(i < s.len() && (is_digit(s[i]) || s[i] == '.'));
        lemma_number_run(s, i + 1, j);
    }
}

proof fn lemma_lex_from_numbers(s: Seq<char>, i: int)
    ensures
        forall|k: int|
            0 <= k < lex_from(s, i).len() && #[trigger] lex_from(s, i)[k] is Number ==> number_literal_text(
                lex_from(s, i)[k]->Number_0,
            ),
    decreases s.len() - i,
{
    if 0 <= i < s.len() {
        let c = s[i];
        if c == '"' {
            lemma_quote_end(s, i + 1);
            let j = quote_end(s, i + 1);
            lemma_lex_from_numbers(s, if j < s.len() { j + 1 } else { j });
        } else if c != '\n' && !(c == ' ' || c == '\t' || c == '\r') && operator_token(c) is None
            && is_digit(c) {
            lemma_number_end(s, i + 1);
            let j = number_end(s, i + 1);
            lemma_number_run(s, i + 1, j);
            lemma_lex_from_numbers(s, j);
            let t = s.subrange(i, j);
            assert forall|k: int| 0 <= k < t.len() implies is_digit(#[trigger] t[k]) || t[k] == '.' by {
                if k > 0 {
                    assert(t[k] == s[i + k]);
                }
            }
        } else if c != '\n' && !(c == ' ' || c == '\t' || c == '\r') && operator_token(c) is None
            && is_ident_start(c) {
            lemma_word_end(s, i + 1);
            lemma_lex_from_numbers(s, word_end(s, i + 1));
        } else {
            lemma_lex_from_numbers(s, i + 1);
        }
    }
}

/// Every number literal that lexing gives is a digit followed by digits and dots.
pub proof fn lemma_lex_numbers(s: Seq<char>)
    ensures
        forall|k: int|
            0 <= k < lex(s).len() && #[trigger] lex(s)[k] is Number ==> number_literal_text(lex(s)[k]->Number_0),
{
    lemma_lex_from_numbers(s, 0);
}

/// Every program text lexes to a sequence whose last token, and only it, is `EOF`.
pub proof fn lemma_lex_eof_only_last(s: Seq<char>)
    ensures
        eof_only_last(lex(s)),
{
    lemma_lex_from_eof(s, 0);
}


/// Whether `s[from..to]` spells `word`.
fn spells(s: &Vec<char>, from: usize, to: usize, word: &[char]) -> (r: bool)
    requires
        from <= to <= s@.len(),
    ensures
        r == (s@.subrange(from as int, to as int) == word@),
{
    if to - from != word.len() {
        return false;
    }
    let mut k: usize = 0;
    while k < word.len()
        invariant
            from <= to <= s@.len(),
            to - from == word@.len(),
            k <= word@.len(),
            forall|m: int| 0 <= m < k ==> s@[from + m] == word@[m],
        decreases word.len() - k,
    {
        if s[from + k] != word[k] {
            assert(s@.subrange(from as int, to as int)[k as int] != word@[k as int]);
            return false;
        }
        k += 1;
    }
    assert(s@.subrange(from as int, to as int) =~= word@);
    true
}

/// The token for the word `s[from..to]`.
fn word_token_of(s: &Vec<char>, from: usize, to: usize) -> (t: Token)
    requires
        from <= to <= s@.len(),
    ensures
        t@ == word_token(s@.subrange(from as int, to as int)),
{
    let ghost w = s@.subrange(from as int, to as int);
    if spells(s, from, to, &['s', 'h', 'o', 'w']) {
        Token::Show
    } else if spells(s, from, to, &['s', 't', 'o', 'r', 'e']) {
        Token::Store
    } else if spells(s, from, to, &['a', 'd', 'd']) {
        Token::Add
    } else if spells(s, from, to, &['t', 'o']) {
        Token::To
    } else if spells(s, from, to, &['f', 'r', 'o', 'm']) {
        Token::From
    } else if spells(s, from, to, &['r', 'e', 'm', 'o', 'v', 'e']) {
        Token::Remove
    } else if spells(s, from, to, &['i', 'f']) {
        Token::If
    } else if spells(s, from, to, &['e', 'l', 's', 'e']) {
        Token::Else
    } else if spells(s, from, to, &['t', 'h', 'e', 'n']) {
        Token::Then
    } else if spells(s, from, to, &['e', 'n', 'd']) {
        Token::End
    } else if spells(s, from, to, &['i', 'n', 'p', 'u', 't']) {
        Token::Input
    } else if spells(s, from, to, &['l', 'o', 'o', 'p']) {
        Token::Loop
    } else if spells(s, from, to, &['t', 'i', 'm', 'e', 's']) {
        Token::Times
    } else if spells(s, from, to, &['f', 'u', 'n', 'c', 't', 'i', 'o', 'n']) {
        Token::Function
    } else if spells(s, from, to, &['w', 'i', 't', 'h']) {
        Token::With
    } else if spells(s, from, to, &['d', 'o']) {
        Token::Do
    } else if spells(s, from, to, &['r', 'e', 't', 'u', 'r', 'n']) {
        Token::Return
    } else if spells(s, from, to, &['r', 'e', 'a', 'd']) {
        Token::Read
    } else if spells(s, from, to, &['w', 'r', 'i', 't', 'e']) {
        Token::Write
    } else if spells(s, from, to, &['a', 'p', 'p', 'e', 'n', 'd']) {
        Token::Append
    } else {
        Token::Ident(string_of(s, from, to))
    }
}


/// The end of the run of digits and dots that starts at `i`.
fn scan_number(s: &Vec<char>, i: usize) -> (j: usize)
    requires
        i <= s@.len(),
    ensures
        j == number_end(s@, i as int),
{
    let mut j = i;
    while j < s.len() && ((s[j] >= '0' && s[j] <= '9') || s[j] == '.')
        invariant
            i <= j <= s@.len(),
            number_end(s@, j as int) == number_end(s@, i as int),
        decreases s@.len() - j,
    {
        j += 1;
    }
    j
}

/// The end of the run of word characters that starts at `i`.
fn scan_word(s: &Vec<char>, i: usize) -> (j: usize)
    requires
        i <= s@.len(),
    ensures
        j == word_end(s@, i as int),
{
    let mut j = i;
    while j < s.len() && (is_alphanumeric(s[j]) || s[j] == '_')
        invariant
            i <= j <= s@.len(),
            word_end(s@, j as int) == word_end(s@, i as int),
        decreases s@.len() - j,
    {
        j += 1;
    }
    j
}

/// The position of the first double quote at or after `i`, or the end.
fn scan_quote(s: &Vec<char>, i: usize) -> (j: usize)
    requires
        i <= s@.len(),
    ensures
        j == quote_end(s@, i as int),
{
    let mut j = i;
    while j < s.len() && s[j] != '"'
        invariant
            i <= j <= s@.len(),
            quote_end(s@, j as int) == quote_end(s@, i as int),
        decreases s@.len() - j,
    {
        j += 1;
    }
    j
}

/// Splits a program text into tokens; the last token is always `EOF`.
pub fn tokenize(input: &str) -> (tokens: Vec<Token>)
    ensures
        tokens_view(tokens@) == lex(input@),
        eof_only_last(tokens_view(tokens@)),
        forall|k: int|
            0 <= k < tokens@.len() && #[trigger] tokens_view(tokens@)[k] is Number ==> number_literal_text(
                tokens_view(tokens@)[k]->Number_0,
            ),
{
    proof {
        lemma_lex_eof_only_last(input@);
        lemma_lex_numbers(input@);
    }
    let s = chars_of(input);
    let n = s.len();
    let mut tokens: Vec<Token> = Vec::new();
    let mut i: usize = 0;
    while i < n
        invariant
            n == s@.len(),
            s@ == input@,
            i <= n,
            tokens_view(tokens@) + lex_from(s@, i as int) == lex_from(s@, 0),
        decreases n - i,
    {
        let ghost before = tokens@;
        let c = s[i];
        let next: usize;
        if c == '\n' {
            tokens.push(Token::Newline);
            next = i + 1;
        } else if c == ' ' || c == '\t' || c == '\r' {
            next = i + 1;
        } else if c == '+' {
            tokens.push(Token::Plus);
            next = i + 1;
        } else if c == '-' {
            tokens.push(Token::Minus);
            next = i + 1;
        } else if c == '*' {
            tokens.push(Token::Multiply);
            next = i + 1;
        } else if c == '/' {
            tokens.push(Token::Divide);
            next = i + 1;
        } else if c == '=' {
            tokens.push(Token::Equals);
            next = i + 1;
        } else if c == '>' {
            tokens.push(Token::Greater);
            next = i + 1;
        } else if c == '<' {
            tokens.push(Token::Less);
            next = i + 1;
        } else if c == '"' {
            let j = scan_quote(&s, i + 1);
            proof {
                lemma_quote_end(s@, i + 1);
            }
            tokens.push(Token::StringLit(string_of(&s, i + 1, j)));
            next = if j < n {
                j + 1
            } else {
                j
            };
        } else if c >= '0' && c <= '9' {
            let j = scan_number(&s, i + 1);
            proof {
                lemma_number_end(s@, i + 1);
            }
            tokens.push(Token::Number(string_of(&s, i, j)));
            next = j;
        } else if (c >= 'a' && c <= 'z') || (c >= 'A' && c <= 'Z') || c == '_' {
            let j = scan_word(&s, i + 1);
            proof {
                lemma_word_end(s@, i + 1);
            }
            tokens.push(word_token_of(&s, i, j));
            next = j;
        } else {
            next = i + 1;
        }
        proof {
            if tokens@.len() != before.len() {
                assert(tokens_view(before).push(tokens@.last()@) =~= tokens_view(before.push(tokens@.last())));
            }
            assert(tokens@.len() == before.len() ==> tokens@ == before);
            assert(tokens@.len() != before.len() ==> tokens@ == before.push(tokens@.last()));
            assert(tokens_view(tokens@) + lex_from(s@, next as int) =~= lex_from(s@, 0));
        }
        i = next;
    }
    let ghost before = tokens@;
    tokens.push(Token::EOF);
    assert(tokens_view(tokens@) =~= tokens_view(before).push(SpecToken::EOF));
    tokens
}


impl Token {
    /// A copy of this token.
    pub fn copy(&self) -> (t: Token)
        ensures
            t@ == self@,
    {
        match self {
            Token::Show => Token::Show,
            Token::Store => Token::Store,
            Token::Add => Token::Add,
            Token::To => Token::To,
            Token::From => Token::From,
            Token::Remove => Token::Remove,
            Token::If => Token::If,
            Token::Else => Token::Else,
            Token::Then => Token::Then,
            Token::End => Token::End,
            Token::Input => Token::Input,
            Token::Loop => Token::Loop,
            Token::Times => Token::Times,
            Token::Function => Token::Function,
            Token::With => Token::With,
            Token::Do => Token::Do,
            Token::Return => Token::Return,
            Token::Read => Token::Read,
            Token::Write => Token::Write,
            Token::Append => Token::Append,
            Token::Plus => Token::Plus,
            Token::Minus => Token::Minus,
            Token::Multiply => Token::Multiply,
            Token::Divide => Token::Divide,
            Token::Equals => Token::Equals,
            Token::Greater => Token::Greater,
            Token::Less => Token::Less,
            Token::Newline => Token::Newline,
            Token::Number(s) => Token::Number(s.clone()),
            Token::StringLit(s) => Token::StringLit(s.clone()),
            Token::Ident(s) => Token::Ident(s.clone()),
            Token::EOF => Token::EOF,
        }
    }
}

} // verus!
