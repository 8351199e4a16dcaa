//! Mathematical expressions as trees, and the reading of expressions into them.
use vstd::prelude::*;

verus! {

/// Similar to a token tree, but providing only mathematical expressions.
///
/// It is used to perform expression -> `Expended` conversions.
#[derive(Debug, PartialEq, Eq)]
pub enum MathTree {
    BinOp(BinOp),
    Index(usize),
}

/// A binary operation between two subtrees.
#[derive(Debug, PartialEq, Eq)]
pub enum BinOp {
    Add { l: Box<MathTree>, r: Box<MathTree> },
    Sub { l: Box<MathTree>, r: Box<MathTree> },
    Mul { l: Box<MathTree>, r: Box<MathTree> },
    Div { l: Box<MathTree>, r: Box<MathTree> },
}

/// An operator between the two sides of a binary expression.
#[derive(Clone, Copy, Debug, PartialEq, Eq, Structural)]
pub enum BinaryOp {
    Add,
    Sub,
    Mul,
    Div,
    /// Any other binary operator.
    Other,
}

/// The parts of a Rust expression that the parser reads: literals and paths by
/// the text of their tokens, binary operations by their operator and sides.
#[derive(Debug)]
pub enum Expr {
    Lit(String),
    Path(String),
    Binary { op: BinaryOp, left: Box<Expr>, right: Box<Expr> },
    /// Any other kind of expression.
    Other,
}

/// A variable of an expression: a literal or a path, by its text.
#[derive(Debug)]
pub enum Variable {
    Lit(String),
    Path(String),
}

/// A variable as the parser tells variables apart: its kind and its text.
pub type VarKey = (bool, Seq<char>);

/// The key of a variable.
pub open spec fn var_key(v: Variable) -> VarKey {
    match v {
        Variable::Lit(s) => (true, s@),
        Variable::Path(s) => (false, s@),
    }
}

/// Whether a key is already in a table.
pub open spec fn has_key(table: Seq<VarKey>, k: VarKey) -> bool {
    exists|i: int| 0 <= i < table.len() && table[i] == k
}

/// The table after meeting a variable, and the index the variable stands for:
/// a known variable keeps its index, a new one gets the next.
pub open spec fn intern(table: Seq<VarKey>, k: VarKey) -> (Seq<VarKey>, nat) {
    if has_key(table, k) {
        (table, choose|i: nat| i < table.len() && table[i as int] == k)
    } else {
        (table.push(k), table.len())
    }
}

/// The table of variables after reading `e`, and the tree read from it.
pub open spec fn parsed(table: Seq<VarKey>, e: Expr) -> (Seq<VarKey>, MathTree)
    decreases e,
{
    match e {
        Expr::Lit(s) => {
            let (t, id) = intern(table, (true, s@));
            (t, MathTree::Index(id as usize))
        },
        Expr::Path(s) => {
            let (t, id) = intern(table, (false, s@));
            (t, MathTree::Index(id as usize))
        },
        Expr::Binary { op, left, right } => {
            let (t1, l) = parsed(table, *left);
            let (t2, r) = parsed(t1, *right);
            let l = Box::new(l);
            let r = Box::new(r);
            (
                t2,
                MathTree::BinOp(
                    match op {
                        BinaryOp::Add => BinOp::Add { l, r },
                        BinaryOp::Sub => BinOp::Sub { l, r },
                        BinaryOp::Mul => BinOp::Mul { l, r },
                        _ => BinOp::Div { l, r },
                    },
                ),
            )
        },
        Expr::Other => (table, MathTree::Index(0)),
    }
}

/// `e` can be read from `table`: it is made of literals, paths and the four
/// operations, and its new variables leave the counter (a `u8`) below 256.
pub open spec fn parsable(table: Seq<VarKey>, e: Expr) -> bool
    decreases e,
{
    match e {
        Expr::Lit(s) => has_key(table, (true, s@)) || table.len() < 255,
        Expr::Path(s) => has_key(table, (false, s@)) || table.len() < 255,
        Expr::Binary { op, left, right } => op != BinaryOp::Other && parsable(table, *left)
            && parsable(parsed(table, *left).0, *right),
        Expr::Other => false,
    }
}

/// No key appears twice in a table.
pub open spec fn distinct_keys(table: Seq<VarKey>) -> bool {
    forall|i: int, j: int| 0 <= i < j < table.len() ==> table[i] != table[j]
}

/// Reads expressions into trees, giving each variable an index.
pub struct Parser {
    map: Vec<Variable>,
    cnt: u8,
}

impl View for Parser {
    type V = Seq<VarKey>;

    closed spec fn view(&self) -> Seq<VarKey> {
        self.map@.map_values(|v: Variable| var_key(v))
    }
}

impl Parser {
    /// The counter is the number of variables met, and each was met once.
    pub closed spec fn wf(&self) -> bool {
        &&& self.map.len() == self.cnt
        &&& distinct_keys(self@)
    }

    /// A parser that has met no variable.
    pub fn new() -> (r: Self)
        ensures
            r.wf(),
            r@ == Seq::<VarKey>::empty(),
    {
        let r = Parser { map: Vec::new(), cnt: 0 };
        proof {
            assert(r@ =~= Seq::<VarKey>::empty());
        }
        r
    }

    /// The index of a variable already met.
    fn find(&self, key: &Variable) -> (r: Option<u8>)
        requires
            self.wf(),
        ensures
            match r {
                Some(id) => id < self@.len() && self@[id as int] == var_key(*key),
                None => !has_key(self@, var_key(*key)),
            },
    {
        let mut i: usize = 0;
        while i < self.map.len()
            invariant
                self.wf(),
                i <= self.map.len(),
                forall|k: int| 0 <= k < i ==> self@[k] != var_key(*key),
            decreases self.map.len() - i,
        {
            let same = match (&self.map[i], key) {
                (Variable::Lit(a), Variable::Lit(b)) => *a == *b,
                (Variable::Path(a), Variable::Path(b)) => *a == *b,
                _ => false,
            };
            if same {
                return Some(i as u8);
            }
            i = i + 1;
        }
        None
    }

    /// The index of a variable: the one it was given, or the next one.
    pub fn index_of(&mut self, key: Variable) -> (id: u8)
        requires
            old(self).wf(),
            has_key(old(self)@, var_key(key)) || old(self)@.len() < 255,
        ensures
            final(self).wf(),
            (final(self)@, id as nat) == intern(old(self)@, var_key(key)),
    {
        match self.find(&key) {
            Some(id) => {
                proof {
                    assert(has_key(self@, var_key(key)));
                    let c = choose|i: nat| i < self@.len() && self@[i as int] == var_key(key);
                    assert(c == id as nat);
                }
                id
            },
            None => {
                let ghost before = self@;
                self.map.push(key);
                self.cnt = self.cnt + 1;
                proof {
                    assert(self@ =~= before.push(var_key(key)));
                }
                self.cnt - 1
            },
        }
    }

    /// Read an expression into a tree. Each literal or path becomes the index
    /// of its variable: the first variable met is 0, the next new one 1, and so
    /// on; the left side of an operation is read before the right.
    pub fn parse(&mut self, expr: Expr) -> (r: MathTree)
        requires
            old(self).wf(),
            parsable(old(self)@, expr),
        ensures
            final(self).wf(),
            (final(self)@, r) == parsed(old(self)@, expr),
            names_leaves(expr, r, final(self)@),
        decreases expr,
    {
        proof {
            lemma_parsed_names_leaves(self@, expr);
        }
        match expr {
            Expr::Lit(lit) => MathTree::Index(self.index_of(Variable::Lit(lit)) as usize),
            Expr::Path(path) => MathTree::Index(self.index_of(Variable::Path(path)) as usize),
            Expr::Binary { op, left, right } => MathTree::BinOp(
                match op {
                    BinaryOp::Add => BinOp::Add {
                        l: Box::new(self.parse(*left)),
                        r: Box::new(self.parse(*right)),
                    },
                    BinaryOp::Sub => BinOp::Sub {
                        l: Box::new(self.parse(*left)),
                        r: Box::new(self.parse(*right)),
                    },
                    BinaryOp::Mul => BinOp::Mul {
                        l: Box::new(self.parse(*left)),
                        r: Box::new(self.parse(*right)),
                    },
                    BinaryOp::Div => BinOp::Div {
                        l: Box::new(self.parse(*left)),
                        r: Box::new(self.parse(*right)),
                    },
                    BinaryOp::Other => {
                        proof {
                            assert(false);
                        }
                        BinOp::Div {
                            l: Box::new(self.parse(*left)),
                            r: Box::new(self.parse(*right)),
                        }
                    },
                },
            ),
            Expr::Other => {
                proof {
                    assert(false);
                }
                MathTree::Index(0)
            },
        }
    }
}

impl Default for Parser {
    /// A parser that has met no variable.
    fn default() -> (r: Self)
        ensures
            r.wf(),
            r@ == Seq::<VarKey>::empty(),
    {
        Parser::new()
    }
}

/// `t2` starts with the keys of `t1`, in the same places.
pub open spec fn extends(t2: Seq<VarKey>, t1: Seq<VarKey>) -> bool {
    t1.len() <= t2.len() && forall|i: int| 0 <= i < t1.len() ==> t2[i] == t1[i]
}

/// Looking a variable up or adding it: a known variable keeps the table and
/// gets its own index; a new one is appended and gets the next index. The
/// table keeps every variable once.
pub proof fn lemma_intern(t: Seq<VarKey>, k: VarKey)
    requires
        distinct_keys(t),
    ensures
        distinct_keys(intern(t, k).0),
        extends(intern(t, k).0, t),
        intern(t, k).1 < intern(t, k).0.len(),
        intern(t, k).0[intern(t, k).1 as int] == k,
        has_key(t, k) ==> intern(t, k).0 == t,
        !has_key(t, k) ==> intern(t, k) == (t.push(k), t.len()),
{
    if has_key(t, k) {
        let i = choose|i: int| 0 <= i < t.len() && t[i] == k;
        assert((i as nat) < t.len() && t[(i as nat) as int] == k);
    }
}

/// Reading an expression only appends to the table of variables, and keeps
/// each variable in it once.
pub proof fn lemma_parsed_grows(t: Seq<VarKey>, e: Expr)
    requires
        distinct_keys(t),
    ensures
        distinct_keys(parsed(t, e).0),
        extends(parsed(t, e).0, t),
    decreases e,
{
    match e {
        Expr::Lit(s) => lemma_intern(t, (true, s@)),
        Expr::Path(s) => lemma_intern(t, (false, s@)),
        Expr::Binary { op, left, right } => {
            lemma_parsed_grows(t, *left);
            lemma_parsed_grows(parsed(t, *left).0, *right);
        },
        Expr::Other => {},
    }
}

proof fn lemma_parsed_in(t: Seq<VarKey>, e: Expr, t2: Seq<VarKey>)
    requires
        distinct_keys(t),
        distinct_keys(t2),
        extends(t2, parsed(t, e).0),
    ensures
        parsed(t2, e) == (t2, parsed(t, e).1),
    decreases e,
{
    match e {
        Expr::Lit(s) => {
            let k = (true, s@);
            lemma_intern(t, k);
            let id = intern(t, k).1;
            assert(t2[id as int] == k);
            assert(has_key(t2, k));
            let c = choose|i: nat| i < t2.len() && t2[i as int] == k;
            assert(c == id);
        },
        Expr::Path(s) => {
            let k = (false, s@);
            lemma_intern(t, k);
            let id = intern(t, k).1;
            assert(t2[id as int] == k);
            assert(has_key(t2, k));
            let c = choose|i: nat| i < t2.len() && t2[i as int] == k;
            assert(c == id);
        },
        Expr::Binary { op, left, right } => {
            let t1 = parsed(t, *left).0;
            lemma_parsed_grows(t, *left);
            lemma_parsed_grows(t1, *right);
            lemma_parsed_in(t, *left, t2);
            lemma_parsed_in(t1, *right, t2);
        },
        Expr::Other => {},
    }
}

/// Reading an expression a second time, with the table the first reading left,
/// meets no new variable and gives the same tree.
pub proof fn lemma_parse_again(t: Seq<VarKey>, e: Expr)
    requires
        distinct_keys(t),
    ensures
        parsed(parsed(t, e).0, e) == parsed(t, e),
{
    lemma_parsed_grows(t, e);
    lemma_parsed_in(t, e, parsed(t, e).0);
}

/// Each literal and path of `e` stands in `tree` as the index of its own key
/// in `table`, and each operation of `e` stands as the same operation on the
/// trees of its two sides.
pub open spec fn names_leaves(e: Expr, tree: MathTree, table: Seq<VarKey>) -> bool
    decreases e,
{
    match e {
        Expr::Lit(s) => tree matches MathTree::Index(id) && id < table.len() && table[id as int] == (true, s@),
        Expr::Path(s) => tree matches MathTree::Index(id) && id < table.len() && table[id as int] == (false, s@),
        Expr::Binary { op, left, right } => match tree {
            MathTree::BinOp(b) => match b {
                BinOp::Add { l, r } => op == BinaryOp::Add && names_leaves(*left, *l, table) && names_leaves(
                    *right,
                    *r,
                    table,
                ),
                BinOp::Sub { l, r } => op == BinaryOp::Sub && names_leaves(*left, *l, table) && names_leaves(
                    *right,
                    *r,
                    table,
                ),
                BinOp::Mul { l, r } => op == BinaryOp::Mul && names_leaves(*left, *l, table) && names_leaves(
                    *right,
                    *r,
                    table,
                ),
                BinOp::Div { l, r } => (op == BinaryOp::Div || op == BinaryOp::Other) && names_leaves(
                    *left,
                    *l,
                    table,
                ) && names_leaves(*right, *r, table),
            },
            MathTree::Index(_) => false,
        },
        Expr::Other => true,
    }
}

proof fn lemma_names_extend(e: Expr, tree: MathTree, ta: Seq<VarKey>, tb: Seq<VarKey>)
    requires
        names_leaves(e, tree, ta),
        extends(tb, ta),
    ensures
        names_leaves(e, tree, tb),
    decreases e,
{
    match e {
        Expr::Binary { op, left, right } => {
            match tree {
                MathTree::BinOp(b) => {
                    match b {
                        BinOp::Add { l, r } => {
                            lemma_names_extend(*left, *l, ta, tb);
                            lemma_names_extend(*right, *r, ta, tb);
                        },
                        BinOp::Sub { l, r } => {
                            lemma_names_extend(*left, *l, ta, tb);
                            lemma_names_extend(*right, *r, ta, tb);
                        },
                        BinOp::Mul { l, r } => {
                            lemma_names_extend(*left, *l, ta, tb);
                            lemma_names_extend(*right, *r, ta, tb);
                        },
                        BinOp::Div { l, r } => {
                            lemma_names_extend(*left, *l, ta, tb);
                            lemma_names_extend(*right, *r, ta, tb);
                        },
                    }
                },
                MathTree::Index(_) => {},
            }
        },
        _ => {},
    }
}

/// Reading an expression numbers its variables: each literal or path becomes
/// the index of its own key in the table that the reading leaves, that table
/// holds each key once (so two leaves get one index exactly when they are the
/// same variable), and the tree keeps the expression's operators in place.
pub proof fn lemma_parsed_names_leaves(t: Seq<VarKey>, e: Expr)
    requires
        distinct_keys(t),
        t.len() <= 255,
        parsable(t, e),
    ensures
        distinct_keys(parsed(t, e).0),
        parsed(t, e).0.len() <= 255,
        names_leaves(e, parsed(t, e).1, parsed(t, e).0),
    decreases e,
{
    lemma_parsed_grows(t, e);
    match e {
        Expr::Lit(s) => {
            lemma_intern(t, (true, s@));
            let id = intern(t, (true, s@)).1;
            assert(id < 256);
            assert((id as usize) as nat == id);
        },
        Expr::Path(s) => {
            lemma_intern(t, (false, s@));
            let id = intern(t, (false, s@)).1;
            assert(id < 256);
            assert((id as usize) as nat == id);
        },
        Expr::Binary { op, left, right } => {
            let t1 = parsed(t, *left).0;
            lemma_parsed_grows(t, *left);
            lemma_parsed_names_leaves(t, *left);
            lemma_parsed_names_leaves(t1, *right);
            lemma_parsed_grows(t1, *right);
            lemma_names_extend(*left, parsed(t, *left).1, t1, parsed(t1, *right).0);
        },
        Expr::Other => {},
    }
}

} // verus!
