use lib::lexer::{tokenize, Token};

fn text(s: &str) -> String {
    s.to_string()
}

#[test]
fn show_number() {
    assert_eq!(tokenize("show 5"), vec![Token::Show, Token::Number(text("5")), Token::EOF]);
}

#[test]
fn empty_input_is_only_eof() {
    assert_eq!(tokenize(""), vec![Token::EOF]);
}

#[test]
fn keywords_are_recognised() {
    assert_eq!(
        tokenize("show store add to from remove if else then end input loop times function with do return read write append"),
        vec![
            Token::Show, Token::Store, Token::Add, Token::To, Token::From, Token::Remove,
            Token::If, Token::Else, Token::Then, Token::End, Token::Input, Token::Loop,
            Token::Times, Token::Function, Token::With, Token::Do, Token::Return,
            Token::Read, Token::Write, Token::Append, Token::EOF,
        ]
    );
}

#[test]
fn keyword_prefixes_are_names() {
    assert_eq!(
        tokenize("shows _x end2 If"),
        vec![
            Token::Ident(text("shows")),
            Token::Ident(text("_x")),
            Token::Ident(text("end2")),
            Token::Ident(text("If")),
            Token::EOF,
        ]
    );
}

#[test]
fn operators_and_newlines() {
    assert_eq!(
        tokenize("+-*/\n=><"),
        vec![
            Token::Plus, Token::Minus, Token::Multiply, Token::Divide, Token::Newline,
            Token::Equals, Token::Greater, Token::Less, Token::EOF,
        ]
    );
}

#[test]
fn string_literal_keeps_its_text() {
    assert_eq!(
        tokenize("\"hello world\" + x"),
        vec![Token::StringLit(text("hello world")), Token::Plus, Token::Ident(text("x")), Token::EOF]
    );
}

#[test]
fn unterminated_string_runs_to_the_end() {
    assert_eq!(tokenize("\"abc\ndef"), vec![Token::StringLit(text("abc\ndef")), Token::EOF]);
}

#[test]
fn number_literal_keeps_digits_and_dots() {
    assert_eq!(
        tokenize("3.14 10 2."),
        vec![Token::Number(text("3.14")), Token::Number(text("10")), Token::Number(text("2.")), Token::EOF]
    );
}

#[test]
fn other_characters_are_skipped() {
    assert_eq!(
        tokenize("a ! b\t;\r.c"),
        vec![Token::Ident(text("a")), Token::Ident(text("b")), Token::Ident(text("c")), Token::EOF]
    );
}

#[test]
fn word_continues_with_unicode_letters() {
    // `é` and `٣` are alphanumeric, so the word goes on; `€` is not.
    assert_eq!(
        tokenize("café٣€x"),
        vec![Token::Ident(text("café٣")), Token::Ident(text("x")), Token::EOF]
    );
}

#[test]
fn non_ascii_letter_cannot_start_a_word() {
    assert_eq!(tokenize("éa"), vec![Token::Ident(text("a")), Token::EOF]);
}

#[test]
fn digits_then_letters_split() {
    assert_eq!(
        tokenize("12ab"),
        vec![Token::Number(text("12")), Token::Ident(text("ab")), Token::EOF]
    );
}

#[test]
fn eof_only_at_the_end() {
    let tokens = tokenize("x store y\nshow y\n");
    assert_eq!(tokens.last(), Some(&Token::EOF));
    assert_eq!(tokens.iter().filter(|t| **t == Token::EOF).count(), 1);
}

#[test]
fn copy_keeps_payload() {
    let t = Token::Ident(text("name"));
    assert_eq!(t.copy(), t);
}
