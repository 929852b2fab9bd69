use vstd::prelude::*;

verus! {

/// A local variable of the lifted function, identified by its number.
#[derive(Debug, Clone, Copy, PartialEq, Eq, Hash, Structural)]
pub struct RcLocal {
    pub id: u64,
}

#[derive(Debug, Clone, Copy, PartialEq, Eq)]
pub enum BinaryOp {
    Add,
    Sub,
    Mul,
    Div,
    Eq,
    Lt,
    Le,
    And,
    Or,
}

#[derive(Debug, Clone, Copy, PartialEq, Eq)]
pub enum UnaryOp {
    Neg,
    Not,
    Len,
}

#[derive(Debug, PartialEq, Eq)]
pub enum Literal {
    Nil,
    Boolean(bool),
    Number(i64),
    String(String),
}

impl Literal {
    /// A copy of this constant.
    pub fn duplicate(&self) -> (r: Literal)
        ensures
            r == *self,
    {
        match self {
            Literal::Nil => Literal::Nil,
            Literal::Boolean(b) => Literal::Boolean(*b),
            Literal::Number(n) => Literal::Number(*n),
            Literal::String(s) => Literal::String(s.clone()),
        }
    }
}

/// An expression.
#[derive(Debug, PartialEq)]
pub enum RValue {
    Local(RcLocal),
    Literal(Literal),
    Binary(BinaryOp, Box<RValue>, Box<RValue>),
    Unary(UnaryOp, Box<RValue>),
    Call(Box<RValue>, Vec<RValue>),
    Table(Table),
}

/// A table constructor with positional fields.
#[derive(Debug, PartialEq)]
pub struct Table(pub Vec<RValue>);

/// The target of an assignment.
#[derive(Debug, PartialEq)]
pub enum LValue {
    Local(RcLocal),
    Index(Box<RValue>, Box<RValue>),
}

/// The locals an expression reads, in the order in which they occur.
pub open spec fn rvalue_locals(r: RValue) -> Seq<RcLocal>
    decreases r,
{
    match r {
        RValue::Local(l) => seq![l],
        RValue::Literal(_) => Seq::empty(),
        RValue::Binary(_, a, b) => rvalue_locals(*a) + rvalue_locals(*b),
        RValue::Unary(_, a) => rvalue_locals(*a),
        RValue::Call(f, args) => rvalue_locals(*f) + rvalues_locals(args@),
        RValue::Table(t) => rvalues_locals(t.0@),
    }
}

/// The locals read by a list of expressions, left to right.
pub open spec fn rvalues_locals(s: Seq<RValue>) -> Seq<RcLocal>
    decreases s,
{
    if s.len() == 0 {
        Seq::empty()
    } else {
        rvalues_locals(s.subrange(0, s.len() - 1)) + rvalue_locals(s[s.len() - 1])
    }
}


/// An assignment. With `prefix` set it also declares the locals on its left;
/// with `prefix` set and no right-hand side it is a pure declaration.
#[derive(Debug, PartialEq)]
pub struct Assign {
    pub left: Vec<LValue>,
    pub right: Vec<RValue>,
    pub prefix: bool,
}

#[derive(Debug, PartialEq)]
pub struct If {
    pub condition: RValue,
    pub then_block: Block,
    pub else_block: Block,
}

#[derive(Debug, PartialEq)]
pub struct While {
    pub condition: RValue,
    pub block: Block,
}

/// A loop whose condition is tested after its body.
#[derive(Debug, PartialEq)]
pub struct Repeat {
    pub condition: RValue,
    pub block: Block,
}

/// A numeric loop; its header declares the counter.
#[derive(Debug, PartialEq)]
pub struct NumericFor {
    pub counter: RcLocal,
    pub initial: RValue,
    pub limit: RValue,
    pub step: RValue,
    pub block: Block,
}

/// An iterator loop; its header declares the result locals.
#[derive(Debug, PartialEq)]
pub struct GenericFor {
    pub res_locals: Vec<RcLocal>,
    pub right: Vec<RValue>,
    pub block: Block,
}

#[derive(Debug, PartialEq)]
pub struct Return {
    pub values: Vec<RValue>,
}

/// A call whose results are discarded.
#[derive(Debug, PartialEq)]
pub struct Call {
    pub value: RValue,
    pub arguments: Vec<RValue>,
}

#[derive(Debug, PartialEq)]
pub enum Statement {
    Assign(Assign),
    If(If),
    While(While),
    Repeat(Repeat),
    NumericFor(NumericFor),
    GenericFor(GenericFor),
    Return(Return),
    Call(Call),
    Break,
}

/// An ordered sequence of statements.
#[derive(Debug, PartialEq)]
pub struct Block(pub Vec<Statement>);

impl Repeat {
    pub fn new(condition: RValue, block: Block) -> (r: Self)
        ensures
            r.condition == condition,
            r.block == block,
    {
        Repeat { condition, block }
    }

    /// The locals its condition reads.
    pub fn values_read(&self) -> (r: Vec<RcLocal>)
        ensures
            r@ == rvalue_locals(self.condition),
    {
        self.condition.values_read()
    }
}

/// The locals an assignment target mentions.
pub open spec fn lvalue_locals(v: LValue) -> Seq<RcLocal> {
    match v {
        LValue::Local(l) => seq![l],
        LValue::Index(a, b) => rvalue_locals(*a) + rvalue_locals(*b),
    }
}

pub open spec fn lvalues_locals(s: Seq<LValue>) -> Seq<RcLocal>
    decreases s.len(),
{
    if s.len() == 0 {
        Seq::empty()
    } else {
        lvalues_locals(s.subrange(0, s.len() - 1)) + lvalue_locals(s[s.len() - 1])
    }
}

/// The locals that a statement itself reads or writes, nested blocks left out.
pub open spec fn stat_locals(s: Statement) -> Seq<RcLocal> {
    match s {
        Statement::Assign(a) => lvalues_locals(a.left@) + rvalues_locals(a.right@),
        Statement::If(x) => rvalue_locals(x.condition),
        Statement::While(x) => rvalue_locals(x.condition),
        Statement::Repeat(x) => rvalue_locals(x.condition),
        Statement::NumericFor(x) => seq![x.counter] + rvalue_locals(x.initial) + rvalue_locals(
            x.limit,
        ) + rvalue_locals(x.step),
        Statement::GenericFor(x) => x.res_locals@ + rvalues_locals(x.right@),
        Statement::Return(x) => rvalues_locals(x.values@),
        Statement::Call(x) => rvalue_locals(x.value) + rvalues_locals(x.arguments@),
        Statement::Break => Seq::empty(),
    }
}

/// Whether a loop header declares `l` as its counter or result local.
pub open spec fn header_declares(s: Statement, l: RcLocal) -> bool {
    match s {
        Statement::NumericFor(x) => x.counter == l,
        Statement::GenericFor(x) => x.res_locals@.contains(l),
        _ => false,
    }
}

/// Whether `l` occurs in a statement, nested blocks included.
pub open spec fn stat_mentions(s: Statement, l: RcLocal) -> bool
    decreases s,
{
    stat_locals(s).contains(l) || match s {
        Statement::If(x) => block_mentions(x.then_block.0@, l) || block_mentions(
            x.else_block.0@,
            l,
        ),
        Statement::While(x) => block_mentions(x.block.0@, l),
        Statement::Repeat(x) => block_mentions(x.block.0@, l),
        Statement::NumericFor(x) => block_mentions(x.block.0@, l),
        Statement::GenericFor(x) => block_mentions(x.block.0@, l),
        _ => false,
    }
}

/// Whether `l` occurs anywhere in a sequence of statements.
pub open spec fn block_mentions(b: Seq<Statement>, l: RcLocal) -> bool
    decreases b,
{
    if b.len() == 0 {
        false
    } else {
        block_mentions(b.subrange(0, b.len() - 1), l) || stat_mentions(b[b.len() - 1], l)
    }
}


/// Two expressions are the same tree.
pub open spec fn rvalue_same(a: RValue, b: RValue) -> bool
    decreases a,
{
    match (a, b) {
        (RValue::Local(x), RValue::Local(y)) => x == y,
        (RValue::Literal(x), RValue::Literal(y)) => x == y,
        (RValue::Binary(o, a1, a2), RValue::Binary(p, b1, b2)) => o == p && rvalue_same(*a1, *b1)
            && rvalue_same(*a2, *b2),
        (RValue::Unary(o, a1), RValue::Unary(p, b1)) => o == p && rvalue_same(*a1, *b1),
        (RValue::Call(f, xs), RValue::Call(g, ys)) => rvalue_same(*f, *g) && rvalues_same(xs@, ys@),
        (RValue::Table(t), RValue::Table(u)) => rvalues_same(t.0@, u.0@),
        _ => false,
    }
}

/// Two lists of expressions are the same trees, one for one.
pub open spec fn rvalues_same(a: Seq<RValue>, b: Seq<RValue>) -> bool
    decreases a,
{
    a.len() == b.len() && (a.len() == 0 || (rvalues_same(
        a.subrange(0, a.len() - 1),
        b.subrange(0, b.len() - 1),
    ) && rvalue_same(a[a.len() - 1], b[b.len() - 1])))
}

/// `rvalues_same` holds where `rvalue_same` holds element by element.
pub proof fn lemma_rvalues_same(a: Seq<RValue>, b: Seq<RValue>)
    requires
        a.len() == b.len(),
        forall|i: int| 0 <= i < a.len() ==> #[trigger] rvalue_same(a[i], b[i]),
    ensures
        rvalues_same(a, b),
    decreases a.len(),
{
    if a.len() > 0 {
        let a1 = a.subrange(0, a.len() - 1);
        let b1 = b.subrange(0, b.len() - 1);
        assert forall|i: int| 0 <= i < a1.len() implies #[trigger] rvalue_same(a1[i], b1[i]) by {
            assert(a1[i] == a[i] && b1[i] == b[i]);
        }
        lemma_rvalues_same(a1, b1);
        assert(rvalue_same(a[a.len() - 1], b[b.len() - 1]));
    }
}

impl RValue {
    /// The locals this expression reads.
    pub fn values_read(&self) -> (r: Vec<RcLocal>)
        ensures
            r@ == rvalue_locals(*self),
        decreases self,
    {
        match self {
            RValue::Local(l) => vec![*l],
            RValue::Literal(_) => Vec::new(),
            RValue::Binary(_, a, b) => {
                let mut x = a.values_read();
                let mut y = b.values_read();
                x.append(&mut y);
                x
            },
            RValue::Unary(_, a) => a.values_read(),
            RValue::Call(f, args) => {
                let mut x = f.values_read();
                let mut y = rvalues_read(args);
                x.append(&mut y);
                x
            },
            RValue::Table(t) => t.values_read(),
        }
    }

    /// A deep copy of this expression.
    pub fn duplicate(&self) -> (r: RValue)
        ensures
            rvalue_same(r, *self),
            rvalue_locals(r) == rvalue_locals(*self),
        decreases self,
    {
        match self {
            RValue::Local(l) => RValue::Local(*l),
            RValue::Literal(x) => RValue::Literal(x.duplicate()),
            RValue::Binary(op, a, b) => RValue::Binary(
                *op,
                Box::new(a.duplicate()),
                Box::new(b.duplicate()),
            ),
            RValue::Unary(op, a) => RValue::Unary(*op, Box::new(a.duplicate())),
            RValue::Call(f, args) => RValue::Call(Box::new(f.duplicate()), duplicate_all(args)),
            RValue::Table(t) => RValue::Table(Table(duplicate_all(&t.0))),
        }
    }
}

impl Table {
    /// The locals read by the table's fields, left to right.
    pub fn values_read(&self) -> (r: Vec<RcLocal>)
        ensures
            r@ == rvalues_locals(self.0@),
        decreases self,
    {
        rvalues_read(&self.0)
    }
}

/// The locals read by a list of expressions, left to right.
pub fn rvalues_read(v: &Vec<RValue>) -> (r: Vec<RcLocal>)
    ensures
        r@ == rvalues_locals(v@),
    decreases v,
{
    let mut out: Vec<RcLocal> = Vec::new();
    let mut i: usize = 0;
    while i < v.len()
        invariant
            0 <= i <= v.len(),
            out@ == rvalues_locals(v@.subrange(0, i as int)),
        decreases v.len() - i,
    {
        proof {
            assert(v@.subrange(0, i + 1).subrange(0, i as int) =~= v@.subrange(0, i as int));
        }
        let mut x = v[i].values_read();
        out.append(&mut x);
        i += 1;
    }
    proof {
        assert(v@.subrange(0, v@.len() as int) =~= v@);
    }
    out
}

/// A deep copy of a list of expressions.
pub fn duplicate_all(v: &Vec<RValue>) -> (r: Vec<RValue>)
    ensures
        rvalues_same(r@, v@),
        rvalues_locals(r@) == rvalues_locals(v@),
    decreases v,
{
    let mut out: Vec<RValue> = Vec::new();
    let mut i: usize = 0;
    while i < v.len()
        invariant
            0 <= i <= v.len(),
            out@.len() == i,
            forall|j: int| 0 <= j < i ==> rvalue_same(#[trigger] out@[j], v@[j]),
            rvalues_locals(out@) == rvalues_locals(v@.subrange(0, i as int)),
        decreases v.len() - i,
    {
        let x = v[i].duplicate();
        let ghost prev = out@;
        out.push(x);
        i += 1;
        proof {
            assert(out@.subrange(0, i - 1) =~= prev);
            assert(v@.subrange(0, i as int).subrange(0, i - 1) =~= v@.subrange(0, i - 1));
        }
    }
    proof {
        assert(v@.subrange(0, v@.len() as int) =~= v@);
    }
    proof {
        lemma_rvalues_same(out@, v@);
    }
    out
}


impl LValue {
    /// The locals this assignment target mentions.
    pub fn values(&self) -> (r: Vec<RcLocal>)
        ensures
            r@ == lvalue_locals(*self),
    {
        match self {
            LValue::Local(l) => vec![*l],
            LValue::Index(a, b) => {
                let mut x = a.values_read();
                let mut y = b.values_read();
                x.append(&mut y);
                x
            },
        }
    }
}

/// The locals mentioned by a list of assignment targets, left to right.
pub fn lvalues_values(v: &Vec<LValue>) -> (r: Vec<RcLocal>)
    ensures
        r@ == lvalues_locals(v@),
{
    let mut out: Vec<RcLocal> = Vec::new();
    let mut i: usize = 0;
    while i < v.len()
        invariant
            0 <= i <= v.len(),
            out@ == lvalues_locals(v@.subrange(0, i as int)),
        decreases v.len() - i,
    {
        proof {
            assert(v@.subrange(0, i + 1).subrange(0, i as int) =~= v@.subrange(0, i as int));
        }
        let mut x = v[i].values();
        out.append(&mut x);
        i += 1;
    }
    proof {
        assert(v@.subrange(0, v@.len() as int) =~= v@);
    }
    out
}

/// A copy of a list of locals.
pub fn copy_locals(v: &Vec<RcLocal>) -> (r: Vec<RcLocal>)
    ensures
        r@ == v@,
{
    let mut out: Vec<RcLocal> = Vec::new();
    let mut i: usize = 0;
    while i < v.len()
        invariant
            0 <= i <= v.len(),
            out@ == v@.subrange(0, i as int),
        decreases v.len() - i,
    {
        out.push(v[i]);
        i += 1;
        proof {
            assert(out@ =~= v@.subrange(0, i as int));
        }
    }
    proof {
        assert(v@.subrange(0, v@.len() as int) =~= v@);
    }
    out
}

impl Statement {
    /// The locals the statement itself reads or writes; nested blocks are
    /// not searched.
    pub fn values(&self) -> (r: Vec<RcLocal>)
        ensures
            r@ == stat_locals(*self),
    {
        match self {
            Statement::Assign(a) => {
                let mut x = lvalues_values(&a.left);
                let mut y = rvalues_read(&a.right);
                x.append(&mut y);
                x
            },
            Statement::If(x) => x.condition.values_read(),
            Statement::While(x) => x.condition.values_read(),
            Statement::Repeat(x) => x.condition.values_read(),
            Statement::NumericFor(x) => {
                let mut v = vec![x.counter];
                let mut a = x.initial.values_read();
                let mut b = x.limit.values_read();
                let mut c = x.step.values_read();
                v.append(&mut a);
                v.append(&mut b);
                v.append(&mut c);
                v
            },
            Statement::GenericFor(x) => {
                let mut v = copy_locals(&x.res_locals);
                let mut a = rvalues_read(&x.right);
                v.append(&mut a);
                v
            },
            Statement::Return(x) => rvalues_read(&x.values),
            Statement::Call(x) => {
                let mut v = x.value.values_read();
                let mut a = rvalues_read(&x.arguments);
                v.append(&mut a);
                v
            },
            Statement::Break => Vec::new(),
        }
    }
}

} // verus!
