use matlib::math_tree::{BinOp, BinaryOp, Expr, MathTree, Parser, Variable};

fn lit(s: &str) -> Box<Expr> {
    Box::new(Expr::Lit(s.to_string()))
}

fn path(s: &str) -> Box<Expr> {
    Box::new(Expr::Path(s.to_string()))
}

fn idx(i: usize) -> Box<MathTree> {
    Box::new(MathTree::Index(i))
}

#[test]
fn variables_are_numbered_in_order_of_appearance() {
    let mut p = Parser::new();
    // 1 + x
    let t = p.parse(Expr::Binary { op: BinaryOp::Add, left: lit("1"), right: path("x") });
    assert_eq!(t, MathTree::BinOp(BinOp::Add { l: idx(0), r: idx(1) }));
    // x * y - 1: x and 1 keep their numbers, y is new
    let e = Expr::Binary {
        op: BinaryOp::Sub,
        left: Box::new(Expr::Binary { op: BinaryOp::Mul, left: path("x"), right: path("y") }),
        right: lit("1"),
    };
    let t = p.parse(e);
    let product = Box::new(MathTree::BinOp(BinOp::Mul { l: idx(1), r: idx(2) }));
    assert_eq!(t, MathTree::BinOp(BinOp::Sub { l: product, r: idx(0) }));
}

#[test]
fn a_literal_and_a_path_with_the_same_text_differ() {
    let mut p = Parser::default();
    let t = p.parse(Expr::Binary { op: BinaryOp::Div, left: lit("a"), right: path("a") });
    assert_eq!(t, MathTree::BinOp(BinOp::Div { l: idx(0), r: idx(1) }));
    let t = p.parse(Expr::Binary { op: BinaryOp::Div, left: path("a"), right: path("a") });
    assert_eq!(t, MathTree::BinOp(BinOp::Div { l: idx(1), r: idx(1) }));
}

#[test]
fn a_single_variable() {
    let mut p = Parser::new();
    assert_eq!(p.parse(Expr::Path("z".to_string())), MathTree::Index(0));
    assert_eq!(p.parse(Expr::Lit("2".to_string())), MathTree::Index(1));
    assert_eq!(p.parse(Expr::Path("z".to_string())), MathTree::Index(0));
}

#[test]
fn index_of_looks_up_or_appends() {
    let mut p = Parser::new();
    assert_eq!(p.index_of(Variable::Path("x".to_string())), 0);
    assert_eq!(p.index_of(Variable::Lit("2".to_string())), 1);
    assert_eq!(p.index_of(Variable::Path("x".to_string())), 0);
    // a literal and a path with the same text are different variables
    assert_eq!(p.index_of(Variable::Path("2".to_string())), 2);
    assert_eq!(p.index_of(Variable::Lit("2".to_string())), 1);
}
