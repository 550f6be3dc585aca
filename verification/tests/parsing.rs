use lib::lexer::tokenize;
use lib::parser::{Expr, Parser};

fn parse(src: &str) -> Vec<Expr> {
    let mut p = Parser::new(tokenize(src));
    p.parse()
}

fn shown(src: &str) -> String {
    format!("{:?}", parse(src))
}

#[test]
fn show_statement() {
    assert_eq!(shown("show 5"), r#"[Show(Number("5"))]"#);
}

#[test]
fn show_operation() {
    assert_eq!(shown("show x + 2"), r#"[Show(BinOp { left: Ident("x"), op: Plus, right: Number("2") })]"#);
}

#[test]
fn store_number() {
    assert_eq!(shown("5 store x"), r#"[Store { value: Number("5"), name: "x" }]"#);
}

#[test]
fn store_operation() {
    assert_eq!(
        shown("a * b store c"),
        r#"[Store { value: BinOp { left: Ident("a"), op: Multiply, right: Ident("b") }, name: "c" }]"#
    );
}

#[test]
fn string_plus_and_store() {
    assert_eq!(
        shown("\"hi \" + name store greeting"),
        r#"[Store { value: BinOp { left: StringLit("hi "), op: Plus, right: Ident("name") }, name: "greeting" }]"#
    );
}

#[test]
fn string_minus_is_not_an_operation() {
    // Only `+` joins a string literal; the `-` then starts a statement of its own.
    assert_eq!(shown("\"a\" - 1"), r#"[StringLit("a"), Number("0"), Number("1")]"#);
}

#[test]
fn call_with_arguments() {
    assert_eq!(shown("greet \"bob\" 3"), r#"[FunctionCall { name: "greet", args: [StringLit("bob"), Number("3")] }]"#);
}

#[test]
fn call_stored() {
    assert_eq!(
        shown("square 4 store r"),
        r#"[Store { value: FunctionCall { name: "square", args: [Number("4")] }, name: "r" }]"#
    );
}

#[test]
fn arguments_stop_at_line_end() {
    assert_eq!(shown("f\n1"), r#"[Ident("f"), Number("1")]"#);
}

#[test]
fn function_definition() {
    assert_eq!(
        shown("function add2 with a b do\n return a + b\nend function"),
        r#"[FunctionDef { name: "add2", params: ["a", "b"], body: [Return(BinOp { left: Ident("a"), op: Plus, right: Ident("b") })] }]"#
    );
}

#[test]
fn function_without_parameters() {
    assert_eq!(
        shown("function hello do\nshow \"hi\"\nend"),
        r#"[FunctionDef { name: "hello", params: [], body: [Show(StringLit("hi"))] }]"#
    );
}

#[test]
fn if_else() {
    assert_eq!(
        shown("if x > 1 then\nshow 1\nelse\nshow 2\nend if"),
        r#"[If { condition: BinOp { left: Ident("x"), op: Greater, right: Number("1") }, body: [Show(Number("1"))], else_body: [Show(Number("2"))] }]"#
    );
}

#[test]
fn loop_statement() {
    assert_eq!(
        shown("loop 3 times\nshow i\nend loop"),
        r#"[Loop { count: Number("3"), body: [Show(Ident("i"))] }]"#
    );
}

#[test]
fn add_and_remove() {
    assert_eq!(
        shown("add 5 to xs\nremove \"a\" from xs"),
        r#"[Add { value: Number("5"), list: "xs" }, Remove { value: StringLit("a"), list: "xs" }]"#
    );
}

#[test]
fn input_statement() {
    assert_eq!(shown("input \"name?\" store n"), r#"[Input { prompt: "name?", store_in: "n" }]"#);
    assert_eq!(shown("input store n"), r#"[Input { prompt: "", store_in: "n" }]"#);
}

#[test]
fn missing_names_read_as_zero() {
    assert_eq!(shown("add 5 to 6"), r#"[Number("0")]"#);
    assert_eq!(shown("input \"p\" store 7"), r#"[Number("0")]"#);
}

#[test]
fn stray_token_reads_as_zero() {
    assert_eq!(shown("then"), r#"[Number("0")]"#);
}

#[test]
fn unterminated_block_stops_at_the_end() {
    assert_eq!(shown("loop 2\nshow 1"), r#"[Loop { count: Number("2"), body: [Show(Number("1"))] }]"#);
}

#[test]
fn blank_lines_are_skipped() {
    assert_eq!(shown("\n\nshow 1\n\n\nshow 2\n"), r#"[Show(Number("1")), Show(Number("2"))]"#);
}

#[test]
fn empty_program() {
    assert_eq!(shown(""), "[]");
    assert_eq!(shown("\n\n"), "[]");
}

#[test]
fn parsing_twice_gives_nothing_more() {
    let mut p = Parser::new(tokenize("show 1"));
    assert_eq!(p.parse().len(), 1);
    assert_eq!(p.parse().len(), 0);
}

#[test]
fn duplicate_keeps_the_expression() {
    let e = &parse("if a then\nshow \"x\" + 1\nend")[0];
    assert_eq!(format!("{:?}", e.duplicate()), format!("{:?}", e));
}
