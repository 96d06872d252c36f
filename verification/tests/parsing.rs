use flanelly::aexp::AExp;
use flanelly::ast::{Prog, ProgAtom};
use flanelly::bexp::BExp;
use flanelly::common::VarName;
use flanelly::parser::{parse, parse_bytes, ParseError};

fn var(s: &str) -> Box<AExp> {
    Box::new(AExp::Var(VarName::new(s)))
}

fn num(n: i32) -> Box<AExp> {
    Box::new(AExp::Num(n))
}

#[test]
fn parses_skip() {
    assert_eq!(parse("skip"), Ok(Prog::Prog(vec![ProgAtom::Skip])));
}

#[test]
fn parses_sequence_with_comments() {
    let text = "  y := 2; # the first\n z := y * 3  # the second\n";
    let expected = Prog::Prog(vec![
        ProgAtom::Assign(VarName::new("y"), num(2)),
        ProgAtom::Assign(VarName::new("z"), Box::new(AExp::Mul(var("y"), num(3)))),
    ]);
    assert_eq!(parse(text), Ok(expected));
}

#[test]
fn sums_and_products_group_to_the_left() {
    let p = parse("z := 1 + 2 * x * (y + 3) + 4").unwrap();
    let product = AExp::Mul(
        Box::new(AExp::Mul(num(2), var("x"))),
        Box::new(AExp::Add(var("y"), num(3))),
    );
    let sum = AExp::Add(Box::new(AExp::Add(num(1), Box::new(product))), num(4));
    assert_eq!(p, Prog::Prog(vec![ProgAtom::Assign(VarName::new("z"), Box::new(sum))]));
}

#[test]
fn parses_conditional_and_loop() {
    let p = parse("if x <= 0 then z := 1 else z := 2 end; while !y <= 10 && 1 <= x do y := y + 1 end").unwrap();
    let cond = ProgAtom::Cond(
        Box::new(BExp::LessEq(var("x"), num(0))),
        Box::new(Prog::Prog(vec![ProgAtom::Assign(VarName::new("z"), num(1))])),
        Box::new(Prog::Prog(vec![ProgAtom::Assign(VarName::new("z"), num(2))])),
    );
    let guard = BExp::Neg(Box::new(BExp::And(
        Box::new(BExp::LessEq(var("y"), num(10))),
        Box::new(BExp::LessEq(num(1), var("x"))),
    )));
    let lp = ProgAtom::While(
        Box::new(guard),
        Box::new(Prog::Prog(vec![ProgAtom::Assign(
            VarName::new("y"),
            Box::new(AExp::Add(var("y"), num(1))),
        )])),
    );
    assert_eq!(p, Prog::Prog(vec![cond, lp]));
}

#[test]
fn negative_literal_is_a_whole_expression() {
    assert_eq!(
        parse("z := -2147483648"),
        Ok(Prog::Prog(vec![ProgAtom::Assign(VarName::new("z"), num(i32::MIN))]))
    );
    assert_eq!(
        parse_bytes(b"z := -5 + 3"),
        Err(ParseError::Trailing(b" + 3".to_vec()))
    );
}

#[test]
fn literal_out_of_range_is_no_program() {
    assert_eq!(
        parse_bytes(b"z := 2147483648"),
        Err(ParseError::NoProgram(b"z := 2147483648".to_vec()))
    );
    assert_eq!(
        parse("z := 2147483647"),
        Ok(Prog::Prog(vec![ProgAtom::Assign(VarName::new("z"), num(i32::MAX))]))
    );
}

#[test]
fn trailing_text_is_reported() {
    assert_eq!(
        parse("skip; )"),
        Err("Parsing failed. The following code was not parsed. ; )".to_string())
    );
    assert_eq!(parse(""), Err("Parsing failed. ".to_string()));
    assert_eq!(parse("if then"), Err("Parsing failed. if then".to_string()));
}

#[test]
fn keywords_need_a_boundary() {
    assert_eq!(
        parse("skipx := 1"),
        Ok(Prog::Prog(vec![ProgAtom::Assign(VarName::new("skipx"), num(1))]))
    );
    assert_eq!(
        parse("if := 1"),
        Ok(Prog::Prog(vec![ProgAtom::Assign(VarName::new("if"), num(1))]))
    );
}

#[test]
fn text_of_a_program_parses_back() {
    let text = "y := x*x; while y <= 10 do y := y + 1 end; if !x <= 0 || y <= (1 + z)*2 then skip else z := -7 end";
    let p = parse(text).unwrap();
    assert_eq!(p.to_string(), text);
    assert_eq!(parse(&p.to_string()), Ok(p));
}

#[test]
fn text_of_a_program_parses_back_grouped_to_the_left() {
    let right = AExp::Add(var("a"), Box::new(AExp::Add(var("b"), var("c"))));
    let left = AExp::Add(Box::new(AExp::Add(var("a"), var("b"))), var("c"));
    let p = Prog::Prog(vec![ProgAtom::Assign(VarName::new("z"), Box::new(right))]);
    assert_eq!(p.to_string(), "z := a + b + c");
    assert_eq!(parse(&p.to_string()), Ok(Prog::Prog(vec![ProgAtom::Assign(VarName::new("z"), Box::new(left))])));
    let right = AExp::Mul(
        Box::new(AExp::Add(var("a"), num(1))),
        Box::new(AExp::Mul(var("b"), Box::new(AExp::Mul(var("c"), var("d"))))),
    );
    let left = AExp::Mul(
        Box::new(AExp::Mul(Box::new(AExp::Mul(Box::new(AExp::Add(var("a"), num(1))), var("b"))), var("c"))),
        var("d"),
    );
    let p = Prog::Prog(vec![ProgAtom::Assign(VarName::new("z"), Box::new(right))]);
    assert_eq!(p.to_string(), "z := (a + 1)*b*c*d");
    assert_eq!(parse(&p.to_string()), Ok(Prog::Prog(vec![ProgAtom::Assign(VarName::new("z"), Box::new(left))])));
}

#[test]
fn texts_of_expressions() {
    let e = AExp::Mul(Box::new(AExp::Mul(Box::new(AExp::Add(var("a"), num(-2))), var("b"))), num(30));
    assert_eq!(e.to_string(), "(a + -2)*b*30");
    assert_eq!(AExp::Num(i32::MIN).to_string(), "-2147483648");
    assert_eq!(AExp::Num(0).to_string(), "0");
    let b = BExp::Or(
        Box::new(BExp::LessEq(var("x"), num(1))),
        Box::new(BExp::Neg(Box::new(BExp::And(
            Box::new(BExp::LessEq(num(2), var("y"))),
            Box::new(BExp::LessEq(var("y"), var("z"))),
        )))),
    );
    assert_eq!(b.to_string(), "x <= 1 || !2 <= y && y <= z");
    assert_eq!(parse_bytes(format!("if {} then skip else skip end", b.to_string()).as_bytes()).is_ok(), true);
    assert_eq!(Prog::Prog(vec![]).to_string(), "");
    assert_eq!(Prog::Prog(vec![ProgAtom::Skip, ProgAtom::Skip]).to_string(), "skip; skip");
}

#[test]
fn white_space_around_the_text_is_dropped() {
    let skip = Ok(Prog::Prog(vec![ProgAtom::Skip]));
    assert_eq!(parse("skip\u{a0}"), skip);
    assert_eq!(parse("\u{2003}\u{85}\t skip \u{3000}\u{1680}\u{202f}\u{205f}\u{2028}\u{2029}\n"), skip);
    assert_eq!(parse("\u{b}skip\u{c}"), skip);
    assert_eq!(parse("skip # the end\u{a0}"), skip);
    assert_eq!(parse("\u{a0}"), Err("Parsing failed. ".to_string()));
    // inside the text, only blanks separate
    assert_eq!(
        parse_bytes("skip;\u{a0}skip".as_bytes()),
        Err(ParseError::Trailing(";\u{a0}skip".as_bytes().to_vec()))
    );
    // a character that is no white space stays
    assert_eq!(
        parse_bytes("skip\u{200b}".as_bytes()),
        Err(ParseError::Trailing("\u{200b}".as_bytes().to_vec()))
    );
}
