use lib::interpreter::{decimal_string, Action, Event, Interpreter};
use lib::value::Value;
use lib::lexer::tokenize;
use lib::parser::{Expr, Op, Parser};

/// What a run printed: the shown lines and the error lines, in order.
struct Output {
    shown: Vec<String>,
    errors: Vec<String>,
    all: Vec<String>,
}

fn arith(op: Op, a: f64, b: f64) -> Option<f64> {
    let truth = |c: bool| if c { 1.0 } else { 0.0 };
    match op {
        Op::Plus => Some(a + b),
        Op::Minus => Some(a - b),
        Op::Multiply => Some(a * b),
        Op::Divide => {
            if b == 0.0 {
                None
            } else {
                Some(a / b)
            }
        }
        Op::Equals => Some(truth(a == b)),
        Op::Greater => Some(truth(a > b)),
        Op::Less => Some(truth(a < b)),
    }
}

fn format_number(n: f64) -> String {
    if n == n.floor() {
        format!("{}", n as i64)
    } else {
        format!("{}", n)
    }
}

fn run_with_input(src: &str, input: &[&str]) -> (Output, Interpreter) {
    let mut p = Parser::new(tokenize(src));
    let ast = p.parse();
    let mut interp = Interpreter::new();
    interp.run(ast);
    let mut out = Output { shown: Vec::new(), errors: Vec::new(), all: Vec::new() };
    let mut lines = input.iter();
    let mut event = Event::Proceed;
    for _ in 0..1_000_000 {
        event = match interp.step(event) {
            Action::Finished => return (out, interp),
            Action::Continue => Event::Proceed,
            Action::Print(line) => {
                out.shown.push(line.clone());
                out.all.push(line);
                Event::Proceed
            }
            Action::Error(line) => {
                out.errors.push(line.clone());
                out.all.push(line);
                Event::Proceed
            }
            Action::ParseNumber(text) => Event::Number(text.parse::<f64>().unwrap().to_bits()),
            Action::Arith(op, a, b) => Event::Arith(arith(op, f64::from_bits(a), f64::from_bits(b)).map(f64::to_bits)),
            Action::NumberText(n) => Event::Text(f64::from_bits(n).to_string()),
            Action::Truth(n) => Event::Truth(f64::from_bits(n) != 0.0),
            Action::LoopCount(n) => Event::Count(f64::from_bits(n) as i64),
            Action::CompareNumbers(items, target) => {
                let t = f64::from_bits(target);
                Event::Matches(items.iter().map(|&x| f64::from_bits(x) == t).collect())
            }
            Action::FormatNumbers(ns) => Event::Texts(ns.iter().map(|&n| format_number(f64::from_bits(n))).collect()),
            Action::ReadInput(_) => {
                let line = lines.next().unwrap().trim().to_string();
                match line.parse::<f64>() {
                    Ok(n) => Event::Input(Value::Number(n.to_bits())),
                    Err(_) => Event::Input(Value::Text(line)),
                }
            }
        };
    }
    panic!("the program did not finish");
}

fn run(src: &str) -> Output {
    run_with_input(src, &[]).0
}

fn number_of(v: Option<&Value>) -> Option<f64> {
    match v {
        Some(Value::Number(bits)) => Some(f64::from_bits(*bits)),
        _ => None,
    }
}

#[test]
fn show_numbers_and_text() {
    let out = run("show 5\nshow 2.5\nshow \"hi\"");
    assert_eq!(out.shown, vec!["5", "2.5", "hi"]);
    assert!(out.errors.is_empty());
}

#[test]
fn arithmetic() {
    let out = run("show 2 + 3\nshow 7 - 10\nshow 4 * 2.5\nshow 9 / 2");
    assert_eq!(out.shown, vec!["5", "-3", "10", "4.5"]);
}

#[test]
fn comparisons_give_one_or_zero() {
    let out = run("show 3 > 2\nshow 3 < 2\nshow 2 = 2\nshow \"a\" = \"a\"\nshow \"a\" = \"b\"");
    assert_eq!(out.shown, vec!["1", "0", "1", "1", "0"]);
}

#[test]
fn store_then_show() {
    let out = run("5 store x\nx + 1 store y\nshow y\nshow x");
    assert_eq!(out.shown, vec!["6", "5"]);
}

#[test]
fn read_after_store_gives_the_value() {
    let (out, interp) = run_with_input("\"v\" store a\nshow a\n3 store a\nshow a", &[]);
    assert_eq!(out.shown, vec!["v", "3"]);
    assert_eq!(number_of(interp.vars.get(&"a".to_string())), Some(3.0));
}

#[test]
fn text_joins() {
    let out = run("\"ab\" + \"cd\" store t\nshow t\n\"n=\" + 4 store u\nshow u\n2.5 + \"x\" store w\nshow w");
    assert_eq!(out.shown, vec!["abcd", "n=4", "2.5x"]);
}

#[test]
fn other_text_operations_are_null() {
    let out = run("\"a\" store s\ns - 1 store r\nshow r\ns * s store q\nshow q");
    assert_eq!(out.shown, vec!["null", "null"]);
}

#[test]
fn unknown_variable_is_reported() {
    let out = run("show nothing");
    assert_eq!(out.errors, vec!["RIFT Error: 'nothing' variable nahi mila!"]);
    assert_eq!(out.shown, vec!["null"]);
}

#[test]
fn division_by_zero_is_reported() {
    let out = run("show 1 / 0");
    assert_eq!(out.errors, vec!["RIFT Error: Zero se divide nahi!"]);
    assert_eq!(out.shown, vec!["null"]);
}

#[test]
fn if_else_branches() {
    let out = run("5 store x\nif x > 3 then\nshow \"big\"\nelse\nshow \"small\"\nend if\nif x < 3 then\nshow \"big\"\nelse\nshow \"small\"\nend if");
    assert_eq!(out.shown, vec!["big", "small"]);
}

#[test]
fn truth_of_texts_and_lists() {
    let out = run("\"\" store e\nif e then\nshow 1\nelse\nshow 2\nend\nadd 1 to l\nif l then\nshow 3\nend\nif missing then\nshow 4\nelse\nshow 5\nend");
    assert_eq!(out.shown, vec!["2", "3", "5"]);
    assert_eq!(out.errors, vec!["RIFT Error: 'missing' variable nahi mila!"]);
}

#[test]
fn loop_repeats() {
    let out = run("0 store i\nloop 3 times\ni + 1 store i\nshow i\nend loop");
    assert_eq!(out.shown, vec!["1", "2", "3"]);
}

#[test]
fn loop_with_fraction_and_negative_counts() {
    let out = run("loop 2.7 times\nshow \"a\"\nend\nloop 0 - 2 times\nshow \"b\"\nend\n\"x\" store t\nloop t times\nshow \"c\"\nend");
    assert_eq!(out.shown, vec!["a", "a"]);
}

#[test]
fn function_call_with_return() {
    let out = run("function add2 with a b do\nreturn a + b\nend function\nadd2 2 3 store r\nshow r");
    assert_eq!(out.shown, vec!["5"]);
    assert!(out.errors.is_empty());
}

#[test]
fn function_without_return_gives_null() {
    let out = run("function hi with who do\nshow \"hello \" + who\nend\nhi \"bob\" store r\nshow r");
    assert_eq!(out.shown, vec!["hello bob", "null"]);
}

#[test]
fn a_name_alone_is_a_variable_not_a_call() {
    // Without arguments a function's name reads a variable.
    let out = run("function hi do\nshow \"hello\"\nend\nhi store r\nshow r");
    assert_eq!(out.shown, vec!["null"]);
    assert_eq!(out.errors, vec!["RIFT Error: 'hi' variable nahi mila!"]);
}

#[test]
fn call_restores_caller_scope() {
    let (out, interp) = run_with_input(
        "1 store x\nfunction f with a do\na store x\n5 store inner\nfunction g do\nend\nreturn x\nend\nf 9 store y\nshow x\nshow y\nshow inner\ng 1",
        &[],
    );
    assert_eq!(out.shown, vec!["1", "9", "null"]);
    assert_eq!(
        out.errors,
        vec!["RIFT Error: 'inner' variable nahi mila!", "RIFT Error: 'g' function nahi mila!"]
    );
    assert_eq!(number_of(interp.vars.get(&"x".to_string())), Some(1.0));
    assert!(interp.vars.get(&"inner".to_string()).is_none());
}

#[test]
fn return_only_at_top_level_of_a_body() {
    let out = run("function f do\nif 1 then\nreturn 7\nend\nreturn 8\nend\nf 0 store r\nshow r");
    // `f 0` has one argument too many.
    assert_eq!(out.errors, vec!["RIFT Error: 'f' ko 0 arguments chahiye, 1 diye!"]);
    let out = run("function f with u do\nif 1 then\nreturn 7\nend\nreturn 8\nend\nf 0 store r\nshow r");
    assert_eq!(out.shown, vec!["8"]);
}

#[test]
fn wrong_arity_is_reported() {
    let out = run("function f with a b do\nreturn a\nend\nf 1 store r\nshow r");
    assert_eq!(out.errors, vec!["RIFT Error: 'f' ko 2 arguments chahiye, 1 diye!"]);
    assert_eq!(out.shown, vec!["null"]);
}

#[test]
fn unknown_function_is_reported() {
    let out = run("nope 1 2");
    assert_eq!(out.errors, vec!["RIFT Error: 'nope' function nahi mila!"]);
}

#[test]
fn error_inside_function_names_it() {
    let out = run("function f with a do\nshow zzz\nend\nf 1");
    assert_eq!(out.errors, vec!["RIFT Error in 'f': 'zzz' variable nahi mila!"]);
}

#[test]
fn arguments_see_earlier_parameters() {
    // Each argument is evaluated after the parameters before it are named.
    let out = run("7 store a\nfunction f with a b do\nreturn b\nend\n1 store one\nf 2 a store r\nshow r");
    assert_eq!(out.shown, vec!["2"]);
}

#[test]
fn lists_add_and_show() {
    let out = run("add 1 to xs\nadd \"two\" to xs\nadd 3.5 to xs\nshow xs");
    assert_eq!(out.shown, vec!["1, two, 3.5"]);
}

#[test]
fn remove_text_takes_every_copy() {
    let out = run("add \"a\" to xs\nadd \"b\" to xs\nadd \"a\" to xs\nadd 1 to xs\nremove \"a\" from xs\nshow xs");
    assert_eq!(out.shown, vec!["b, 1"]);
}

#[test]
fn remove_number_takes_equal_numbers() {
    let out = run("add 1 to xs\nadd 2 to xs\nadd 1.0 to xs\nadd \"1\" to xs\nremove 1 from xs\nshow xs");
    assert_eq!(out.shown, vec!["2, 1"]);
}

#[test]
fn add_to_a_non_list_changes_nothing() {
    let out = run("5 store n\nadd 1 to n\nshow n\nremove 5 from n\nshow n\nremove 1 from nolist\nshow nolist");
    assert_eq!(out.shown, vec!["5", "5", "null"]);
    assert_eq!(out.errors, vec!["RIFT Error: 'nolist' variable nahi mila!"]);
}

#[test]
fn nested_lists_are_flattened_when_shown() {
    let out = run("add 1 to inner\nadd 2 to inner\nadd inner to outer\nadd 3 to outer\nshow outer");
    assert_eq!(out.shown, vec!["1, 2, 3"]);
}

#[test]
fn empty_list_shows_empty() {
    let out = run("add 1 to xs\nremove 1 from xs\nshow xs");
    assert_eq!(out.shown, vec![""]);
}

#[test]
fn input_numbers_and_text() {
    let (out, interp) = run_with_input("input \"age?\" store age\nshow age + 1\ninput store name\nshow name", &["41", "ann"]);
    assert_eq!(out.shown, vec!["42", "ann"]);
    assert!(matches!(interp.vars.get(&"name".to_string()), Some(Value::Text(t)) if t == "ann"));
}

#[test]
fn show_gives_its_value() {
    let out = run("show 4 store z");
    // `show 4` is the statement; `store z` starts another that reads as zero.
    assert_eq!(out.shown, vec!["4"]);
}

#[test]
fn show_prints_and_keeps_its_value() {
    // A `show` inside a store: the shown value is also the stored one.
    let program = vec![Expr::Store {
        value: Box::new(Expr::Show(Box::new(Expr::Number("4".to_string())))),
        name: "z".to_string(),
    }];
    let mut interp = Interpreter::new();
    interp.run(program);
    let mut shown = Vec::new();
    let mut event = Event::Proceed;
    loop {
        event = match interp.step(event) {
            Action::Finished => break,
            Action::ParseNumber(t) => Event::Number(t.parse::<f64>().unwrap().to_bits()),
            Action::FormatNumbers(ns) => Event::Texts(ns.iter().map(|&n| format_number(f64::from_bits(n))).collect()),
            Action::Print(line) => {
                shown.push(line);
                Event::Proceed
            }
            _ => Event::Proceed,
        };
    }
    assert_eq!(shown, vec!["4"]);
    assert_eq!(number_of(interp.vars.get(&"z".to_string())), Some(4.0));
}

#[test]
fn answers_of_the_wrong_kind_count_as_empty() {
    // A host that answers nothing: numbers read as null, shows print with empty number texts.
    let mut p = Parser::new(tokenize("5 store x\nshow x\nshow \"t\""));
    let mut interp = Interpreter::new();
    interp.run(p.parse());
    let mut shown = Vec::new();
    loop {
        match interp.step(Event::Proceed) {
            Action::Finished => break,
            Action::Print(line) => shown.push(line),
            _ => {}
        }
    }
    assert_eq!(shown, vec!["null", "t"]);
}

fn drive_all(interp: &mut Interpreter) -> Vec<String> {
    let mut shown = Vec::new();
    let mut event = Event::Proceed;
    loop {
        event = match interp.step(event) {
            Action::Finished => break,
            Action::ParseNumber(t) => Event::Number(t.parse::<f64>().unwrap().to_bits()),
            Action::FormatNumbers(ns) => Event::Texts(ns.iter().map(|&n| format_number(f64::from_bits(n))).collect()),
            Action::Print(line) => {
                shown.push(line);
                Event::Proceed
            }
            _ => Event::Proceed,
        };
    }
    shown
}

fn parsed(src: &str) -> Vec<Expr> {
    let mut p = Parser::new(tokenize(src));
    p.parse()
}

#[test]
fn two_runs_go_in_order() {
    let mut two = Interpreter::new();
    two.run(parsed("\"p\" store x\nshow 1"));
    two.run(parsed("\"q\" store x\nshow 2"));
    let shown_two = drive_all(&mut two);
    let mut one = Interpreter::new();
    one.run(parsed("\"p\" store x\nshow 1\n\"q\" store x\nshow 2"));
    let shown_one = drive_all(&mut one);
    assert_eq!(shown_two, vec!["1", "2"]);
    assert_eq!(shown_one, shown_two);
    assert!(matches!(two.vars.get(&"x".to_string()), Some(Value::Text(t)) if t == "q"));
}

#[test]
fn body_stops_at_first_return() {
    let out = run("function f with a do\nshow \"before\"\nreturn a * 2\nshow \"after\"\nreturn 0\nend\nf 21 store r\nshow r");
    assert_eq!(out.shown, vec!["before", "42"]);
}

#[test]
fn call_stack_comes_back_after_a_nested_call() {
    let out = run("function g with b do\nreturn b\nend\nfunction f with a do\ng a store c\nshow nope\nreturn c\nend\nf 3 store r\nshow r\nshow nope");
    assert_eq!(out.shown, vec!["null", "3", "null"]);
    assert_eq!(
        out.errors,
        vec!["RIFT Error in 'f': 'nope' variable nahi mila!", "RIFT Error: 'nope' variable nahi mila!"]
    );
}

#[test]
fn finished_when_nothing_is_left() {
    let mut interp = Interpreter::new();
    assert!(matches!(interp.step(Event::Proceed), Action::Finished));
}

#[test]
fn decimal_numerals() {
    assert_eq!(decimal_string(0), "0");
    assert_eq!(decimal_string(7), "7");
    assert_eq!(decimal_string(120), "120");
    assert_eq!(decimal_string(usize::MAX), usize::MAX.to_string());
}

#[test]
fn value_duplicate_is_equal() {
    let v = Value::List(vec![Value::Number(1.5f64.to_bits()), Value::Text("a".to_string()), Value::Null]);
    assert_eq!(format!("{:?}", v.duplicate()), format!("{:?}", v));
}

#[test]
fn loop_is_its_body_repeated() {
    let looped = run("0 store i\nloop 3 times\ni + 1 store i\nshow i\nend loop\nshow i");
    let unrolled = run("0 store i\ni + 1 store i\nshow i\ni + 1 store i\nshow i\ni + 1 store i\nshow i\nshow i");
    assert_eq!(looped.all, unrolled.all);
    assert_eq!(looped.shown, vec!["1", "2", "3", "3"]);
}

#[test]
fn if_runs_only_the_chosen_branch() {
    let (out, interp) = run_with_input(
        "1 store x\nif x then\n2 store a\nshow \"then\"\nelse\n3 store b\nshow \"else\"\nend if",
        &[],
    );
    assert_eq!(out.shown, vec!["then"]);
    assert_eq!(number_of(interp.vars.get(&"a".to_string())), Some(2.0));
    assert!(interp.vars.get(&"b".to_string()).is_none());
    let branch = run("1 store x\n2 store a\nshow \"then\"");
    assert_eq!(out.all, branch.all);
}

#[test]
fn call_binds_arguments_then_runs_body() {
    let called = run("function f with a b do\nshow a + b\nreturn a * b\nshow \"never\"\nend\nf 3 a store r\nshow r");
    let inlined = run("3 store a\na store b\nshow a + b\na * b store r\nshow r");
    assert_eq!(called.all, inlined.all);
    assert_eq!(called.shown, vec!["6", "9"]);
}

#[test]
fn value_clone_is_equal() {
    let v = Value::List(vec![Value::Number(2.0f64.to_bits()), Value::Text("b".to_string())]);
    assert_eq!(format!("{:?}", v.clone()), format!("{:?}", v));
}

#[test]
fn expr_clone_is_equal() {
    let exprs = parsed("function f with a do\nreturn a + 1\nend\nif 1 then\nshow \"x\"\nend");
    for e in &exprs {
        assert_eq!(format!("{:?}", e.clone()), format!("{:?}", e));
    }
}
