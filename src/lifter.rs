use vstd::prelude::*;

use crate::ast::{Assign, Block, If, LValue, Literal, NumericFor, RValue, RcLocal, Return, Statement};
use crate::cfg::{
    count_false, lemma_closed_reaches, lemma_count_false_set, lemma_reachable_root, lemma_reachable_step,
    reachable_from, reachable_from_nodes, successors, is_path, reachable, successors_of, BasicBlock, Function, Inner, NodeId, Terminator, ValueId};
use crate::error::LiftError;

verus! {

/// The local that stands for an SSA value.
pub open spec fn local_of(v: ValueId) -> RcLocal {
    RcLocal { id: v.0 }
}

/// `s` is the assignment `local_of(dest) = value`.
pub open spec fn assigns_value(s: Statement, dest: ValueId, value: RValue) -> bool {
    &&& s is Assign
    &&& s->Assign_0.left@ == seq![LValue::Local(local_of(dest))]
    &&& s->Assign_0.right@ == seq![value]
    &&& !s->Assign_0.prefix
}

/// The expressions that read the values `vs`, one for one.
pub open spec fn value_locals(vs: Seq<ValueId>) -> Seq<RValue> {
    vs.map_values(|v: ValueId| RValue::Local(local_of(v)))
}

/// `s` is the statement that `i` becomes: an assignment of its value to
/// the local of its destination.
pub open spec fn lifts_to(i: Inner, s: Statement) -> bool {
    match i {
        Inner::LoadConstant { dest, constant } => assigns_value(s, dest, RValue::Literal(constant)),
        Inner::Move { dest, source } => assigns_value(s, dest, RValue::Local(local_of(source))),
        Inner::Binary { dest, op, lhs, rhs } => assigns_value(
            s,
            dest,
            RValue::Binary(op, Box::new(RValue::Local(local_of(lhs))), Box::new(RValue::Local(local_of(rhs)))),
        ),
        Inner::Call { dest, function, arguments } => {
            &&& s is Assign
            &&& s->Assign_0.left@ == seq![LValue::Local(local_of(dest))]
            &&& !s->Assign_0.prefix
            &&& s->Assign_0.right@.len() == 1
            &&& s->Assign_0.right@[0] is Call
            &&& *s->Assign_0.right@[0]->Call_0 == RValue::Local(local_of(function))
            &&& s->Assign_0.right@[0]->Call_1@ == value_locals(arguments@)
        },
    }
}

/// `stats` are the statements that the instructions `inner` become, one
/// for one and in order.
pub open spec fn lifted_inner(inner: Seq<Inner>, stats: Seq<Statement>) -> bool
    decreases inner.len(),
{
    if inner.len() == 0 {
        stats.len() == 0
    } else {
        stats.len() > 0 && lifts_to(inner[inner.len() - 1], stats[stats.len() - 1]) && lifted_inner(
            inner.subrange(0, inner.len() - 1),
            stats.subrange(0, stats.len() - 1),
        )
    }
}

/// `s` is what a terminator becomes: `if` on the condition with empty arms,
/// a `return` of its values, or a numeric `for` with an empty body.
pub open spec fn lifts_terminator(t: Terminator, s: Statement) -> bool {
    match t {
        Terminator::ConditionalJump { condition, .. } => {
            &&& s is If
            &&& s->If_0.condition == RValue::Local(local_of(condition))
            &&& s->If_0.then_block.0@.len() == 0
            &&& s->If_0.else_block.0@.len() == 0
        },
        Terminator::Return(values) => s is Return && s->Return_0.values@ == value_locals(values@),
        Terminator::NumericFor { counter, initial, limit, step, .. } => {
            &&& s is NumericFor
            &&& s->NumericFor_0.counter == local_of(counter)
            &&& s->NumericFor_0.initial == RValue::Local(local_of(initial))
            &&& s->NumericFor_0.limit == RValue::Local(local_of(limit))
            &&& s->NumericFor_0.step == RValue::Local(local_of(step))
            &&& s->NumericFor_0.block.0@.len() == 0
        },
        Terminator::UnconditionalJump(_) => false,
    }
}

/// `b` is the body that block `bb` becomes.
pub open spec fn lifted_block(bb: BasicBlock, b: Seq<Statement>) -> bool {
    match bb.terminator {
        Some(Terminator::UnconditionalJump(_)) => lifted_inner(bb.inner_instructions@, b),
        Some(t) => b.len() > 0 && lifted_inner(bb.inner_instructions@, b.subrange(0, b.len() - 1))
            && lifts_terminator(t, b[b.len() - 1]),
        None => false,
    }
}

/// How the body of a node continues after its own statements.
#[derive(Debug, Clone, Copy, PartialEq, Eq, Structural)]
pub enum Link {
    /// Its successor's body follows.
    Extend(NodeId),
    /// A two-way branch: then, else, and the join point.
    If(NodeId, Option<NodeId>, Option<NodeId>),
    /// Nothing follows.
    Terminal,
}

/// Turns the blocks of a function into AST bodies and links them.
pub struct Lifter<'a> {
    pub function: &'a Function,
}

impl<'a> Lifter<'a> {
    pub fn new(function: &'a Function) -> (r: Self)
        ensures
            r.function == function,
    {
        Lifter { function }
    }

    /// The local expression for an SSA value.
    pub fn local(&self, value: ValueId) -> (r: RValue)
        ensures
            r == RValue::Local(local_of(value)),
    {
        RValue::Local(RcLocal { id: value.0 })
    }

    /// The body of block `node`: constant loads and moves become
    /// assignments, a conditional jump an `if` with empty arms, a return an
    /// empty `return`. A block without terminator is malformed.
    pub fn lift_block(&self, node: NodeId) -> (r: Result<Block, LiftError>)
        requires
            node < self.function.blocks@.len(),
        ensures
            r is Err <==> self.function.blocks@[node as int].terminator is None,
            r is Err ==> r == Err::<Block, LiftError>(LiftError::MalformedAst),
            r is Ok ==> lifted_block(self.function.blocks@[node as int], r->Ok_0.0@),
    {
        let block = &self.function.blocks[node];
        if block.terminator.is_none() {
            return Err(LiftError::MalformedAst);
        }
        let mut body: Vec<Statement> = Vec::new();
        let mut k: usize = 0;
        while k < block.inner_instructions.len()
            invariant
                0 <= k <= block.inner_instructions.len(),
                lifted_inner(block.inner_instructions@.subrange(0, k as int), body@),
            decreases block.inner_instructions.len() - k,
        {
            let ghost prev = body@;
            let stat = match &block.inner_instructions[k] {
                Inner::LoadConstant { dest, constant } => assign_local(
                    *dest,
                    RValue::Literal(constant.duplicate()),
                ),
                Inner::Move { dest, source } => assign_local(*dest, self.local(*source)),
                Inner::Binary { dest, op, lhs, rhs } => assign_local(
                    *dest,
                    RValue::Binary(*op, Box::new(self.local(*lhs)), Box::new(self.local(*rhs))),
                ),
                Inner::Call { dest, function, arguments } => assign_local(
                    *dest,
                    RValue::Call(Box::new(self.local(*function)), local_values(arguments)),
                ),
            };
            body.push(stat);
            k += 1;
            proof {
                let s = block.inner_instructions@.subrange(0, k as int);
                assert(s.subrange(0, k - 1) =~= block.inner_instructions@.subrange(0, k - 1));
                assert(body@.subrange(0, body@.len() - 1) =~= prev);
            }
        }
        proof {
            assert(block.inner_instructions@.subrange(0, block.inner_instructions@.len() as int)
                =~= block.inner_instructions@);
        }
        let ghost inner_body = body@;
        match &block.terminator {
            Some(Terminator::ConditionalJump { condition, .. }) => {
                let stat = Statement::If(
                    If {
                        condition: self.local(*condition),
                        then_block: Block(Vec::new()),
                        else_block: Block(Vec::new()),
                    },
                );
                body.push(stat);
                proof {
                    assert(body@.subrange(0, body@.len() - 1) =~= inner_body);
                }
            },
            Some(Terminator::NumericFor { counter, initial, limit, step, .. }) => {
                let stat = Statement::NumericFor(
                    NumericFor {
                        counter: RcLocal { id: counter.0 },
                        initial: self.local(*initial),
                        limit: self.local(*limit),
                        step: self.local(*step),
                        block: Block(Vec::new()),
                    },
                );
                body.push(stat);
                proof {
                    assert(body@.subrange(0, body@.len() - 1) =~= inner_body);
                }
            },
            Some(Terminator::Return(values)) => {
                body.push(Statement::Return(Return { values: local_values(values) }));
                proof {
                    assert(body@.subrange(0, body@.len() - 1) =~= inner_body);
                }
            },
            _ => {},
        }
        Ok(Block(body))
    }

    /// Walks the graph from `root`, guided by the immediate post-dominator
    /// of each node (`post_dominators`), and says how each body continues:
    /// a node without successors ends, one with a single successor extends
    /// into it unless it was reached before or is a join point, and a
    /// two-way node (a conditional jump, or a numeric-for header with its
    /// body and exit) becomes an `if` link whose join point is its immediate
    /// post-dominator. Each node reached is linked once, and every successor
    /// and join point of a linked node is linked too.
    ///
    /// A root outside the graph is unreachable. Otherwise the walk fails with
    /// `MalformedAst` exactly when a node reachable from `root` is
    /// `node_malformed`, and else with `Irreducible` exactly when a reachable
    /// two-way node has no join point.
    pub fn lift(&self, root: NodeId, post_dominators: &Vec<Option<NodeId>>) -> (r: Result<
        Vec<(NodeId, Link)>,
        LiftError,
    >)
        requires
            post_dominators@.len() == self.function.blocks@.len(),
        ensures
            r == Err::<Vec<(NodeId, Link)>, LiftError>(LiftError::UnreachableRoot) <==> root
                >= self.function.blocks@.len(),
            root < self.function.blocks@.len() ==> (r == Err::<Vec<(NodeId, Link)>, LiftError>(
                LiftError::MalformedAst,
            ) <==> some_malformed(*self.function, post_dominators@, root)),
            root < self.function.blocks@.len() ==> (r == Err::<Vec<(NodeId, Link)>, LiftError>(
                LiftError::Irreducible,
            ) <==> !some_malformed(*self.function, post_dominators@, root) && some_irreducible(
                *self.function,
                post_dominators@,
                root,
            )),
            r is Err ==> r == Err::<Vec<(NodeId, Link)>, LiftError>(LiftError::Irreducible) || r
                == Err::<Vec<(NodeId, Link)>, LiftError>(LiftError::MalformedAst) || r == Err::<
                Vec<(NodeId, Link)>,
                LiftError,
            >(LiftError::UnreachableRoot),
            r is Ok ==> {
                let links = r->Ok_0@;
                &&& links.len() > 0
                &&& links[0].0 == root
                &&& forall|k: int| 0 <= k < links.len() ==> links[k].0 < self.function.blocks@.len()
                &&& forall|k: int, m: int| 0 <= k < m < links.len() ==> links[k].0 != links[m].0
                &&& forall|k: int|
                    0 <= k < links.len() ==> (#[trigger] self.function.blocks@[links[k].0 as int]).terminator is Some
                &&& forall|k: int, y: NodeId|
                    0 <= k < links.len() && #[trigger] successors_of(
                        self.function.blocks@[links[k].0 as int],
                    ).contains(y) ==> linked(links, y)
                &&& forall|k: int|
                    0 <= k < links.len() && #[trigger] successors_of(
                        self.function.blocks@[links[k].0 as int],
                    ).len() == 2 ==> linked(links, post_dominators@[links[k].0 as int]->Some_0)
                &&& forall|k: int|
                    0 <= k < links.len() ==> link_fits(
                        #[trigger] self.function.blocks@[links[k].0 as int],
                        post_dominators@[links[k].0 as int],
                        links[k].1,
                    )
            },
    {
        let n = self.function.blocks.len();
        if root >= n {
            return Err(LiftError::UnreachableRoot);
        }
        let ghost f = *self.function;
        let ghost pd = post_dominators@;
        let live = reachable_from_nodes(self.function, root);
        let mut x: usize = 0;
        while x < n
            invariant
                n == f.blocks@.len(),
                f == *self.function,
                pd == post_dominators@,
                n == pd.len(),
                live@.len() == n,
                forall|y: int| 0 <= y < n ==> (#[trigger] live@[y] <==> reachable_from(f, root, y as NodeId)),
                forall|y: int| 0 <= y < x && live@[y] ==> !#[trigger] node_malformed(f, pd, root, y),
            decreases n - x,
        {
            if live[x] {
                let bb = &self.function.blocks[x];
                let succ = successors(bb);
                let mut bad = bb.terminator.is_none();
                let mut k: usize = 0;
                while k < succ.len()
                    invariant
                        0 <= k <= succ@.len(),
                        x < n,
                        n == f.blocks@.len(),
                        succ@ == successors_of(f.blocks@[x as int]),
                        bad ==> node_malformed(f, pd, root, x as int),
                        !bad ==> f.blocks@[x as int].terminator is Some && forall|j: int|
                            0 <= j < k ==> #[trigger] succ@[j] < n,
                    decreases succ@.len() - k,
                {
                    if succ[k] >= n {
                        proof {
                            assert(successors_of(f.blocks@[x as int])[k as int] >= f.blocks@.len());
                        }
                        bad = true;
                    }
                    k += 1;
                }
                if !bad && succ.len() == 2 {
                    match post_dominators[x] {
                        Some(j) => {
                            if j >= n || !live[j] {
                                bad = true;
                            }
                        },
                        None => {},
                    }
                }
                if bad {
                    proof {
                        assert(reachable_from(f, root, x as NodeId) && node_malformed(f, pd, root, x as int));
                    }
                    return Err(LiftError::MalformedAst);
                }
                proof {
                    if node_malformed(f, pd, root, x as int) {
                        if exists|j: int| 0 <= j < succ@.len() && #[trigger] succ@[j] >= n {
                            let j = choose|j: int| 0 <= j < succ@.len() && #[trigger] succ@[j] >= n;
                            assert(succ@[j] < n);
                        }
                    }
                }
            }
            x += 1;
        }
        let mut x: usize = 0;
        while x < n
            invariant
                n == f.blocks@.len(),
                f == *self.function,
                pd == post_dominators@,
                n == pd.len(),
                live@.len() == n,
                !some_malformed(f, pd, root),
                forall|y: int| 0 <= y < n ==> (#[trigger] live@[y] <==> reachable_from(f, root, y as NodeId)),
                forall|y: int| 0 <= y < x && live@[y] ==> !#[trigger] node_irreducible(f, pd, y),
            decreases n - x,
        {
            if live[x] && post_dominators[x].is_none() {
                let succ = successors(&self.function.blocks[x]);
                if succ.len() == 2 {
                    proof {
                        assert(reachable_from(f, root, x as NodeId) && node_irreducible(f, pd, x as int));
                    }
                    return Err(LiftError::Irreducible);
                }
            }
            x += 1;
        }
        let mut visited: Vec<bool> = Vec::new();
        let mut stops: Vec<bool> = Vec::new();
        while visited.len() < n
            invariant
                visited@.len() == stops@.len(),
                visited@.len() <= n,
                forall|x: int| 0 <= x < visited@.len() ==> !visited@[x] && !stops@[x],
            decreases n - visited.len(),
        {
            visited.push(false);
            stops.push(false);
        }
        let mut stack: Vec<NodeId> = Vec::new();
        stack.push(root);
        let mut links: Vec<(NodeId, Link)> = Vec::new();
        proof {
            lemma_reachable_root(f, root);
            assert(stack@[0] == root);
        }
        while stack.len() > 0
            invariant
                n == f.blocks@.len(),
                f == *self.function,
                pd == post_dominators@,
                n == pd.len(),
                visited@.len() == n,
                stops@.len() == n,
                root < n,
                !some_malformed(f, pd, root),
                !some_irreducible(f, pd, root),
                forall|k: int| 0 <= k < stack@.len() ==> #[trigger] stack@[k] < n && reachable_from(
                    f,
                    root,
                    stack@[k],
                ),
                links@.len() == 0 ==> stack@ == seq![root],
                links@.len() > 0 ==> links@[0].0 == root,
                forall|k: int| 0 <= k < links@.len() ==> links@[k].0 < n,
                forall|k: int, m: int| 0 <= k < m < links@.len() ==> links@[k].0 != links@[m].0,
                forall|k: int|
                    0 <= k < links@.len() ==> (#[trigger] f.blocks@[links@[k].0 as int]).terminator is Some,
                forall|x: int| 0 <= x < n ==> (visited@[x] <==> linked(links@, x as NodeId)),
                forall|x: NodeId| x < n && #[trigger] stops@[x as int] ==> visited@[x as int] || stack@.contains(x),
                forall|x: int, y: NodeId|
                    0 <= x < n && visited@[x] && #[trigger] successors_of(f.blocks@[x]).contains(y)
                        ==> y < n && (visited@[y as int] || stops@[y as int] || stack@.contains(y)),
                forall|x: int|
                    0 <= x < n && visited@[x] && #[trigger] successors_of(f.blocks@[x]).len() == 2
                        ==> pd[x] is Some && pd[x]->Some_0 < n && stops@[pd[x]->Some_0 as int],
                forall|k: int|
                    0 <= k < links@.len() ==> link_fits(
                        #[trigger] f.blocks@[links@[k].0 as int],
                        pd[links@[k].0 as int],
                        links@[k].1,
                    ),
            decreases count_false(visited@), stack@.len(),
        {
            let ghost st0 = stack@;
            let ghost stops0 = stops@;
            let node = stack.pop().unwrap();
            let ghost st1 = stack@;
            proof {
                assert(st0 =~= st1.push(node));
                assert forall|y: NodeId| #[trigger] st0.contains(y) implies y == node || st1.contains(y) by {
                    let k = choose|k: int| 0 <= k < st0.len() && st0[k] == y;
                    if k < st1.len() {
                        assert(st1[k] == y);
                    }
                }
                assert(reachable_from(f, root, node));
            }
            if visited[node] {
                continue;
            }
            proof {
                lemma_count_false_set(visited@, node as int);
                assert(!node_malformed(f, pd, root, node as int));
                assert(!node_irreducible(f, pd, node as int));
            }
            let ghost prev = links@;
            let ghost vis0 = visited@;
            visited.set(node, true);
            let bb = &self.function.blocks[node];
            let succ = successors(bb);
            proof {
                assert forall|j: int| 0 <= j < succ@.len() implies #[trigger] succ@[j] < n by {
                    if succ@[j] >= n {
                        assert(node_malformed(f, pd, root, node as int));
                    }
                }
            }
            let link = if succ.len() == 0 {
                Link::Terminal
            } else if succ.len() == 1 {
                let t = succ[0];
                let ghost sb = stack@;
                let l = edge(&mut stack, &visited, &stops, t);
                proof {
                    lemma_reachable_step(f, root, node, t);
                    assert forall|k: int| 0 <= k < stack@.len() implies #[trigger] stack@[k] < n
                        && reachable_from(f, root, stack@[k]) by {
                        if k < sb.len() {
                            assert(stack@[k] == sb[k]);
                        }
                    }
                    assert forall|y: NodeId| #[trigger] successors_of(*bb).contains(y) implies settled(
                        visited@,
                        stops@,
                        stack@,
                        y,
                    ) by {
                        let k = choose|k: int| 0 <= k < succ@.len() && succ@[k] == y;
                    }
                }
                l
            } else {
                let exit = match post_dominators[node] {
                    Some(j) => j,
                    None => {
                        return Err(LiftError::Irreducible);
                    },
                };
                let a = succ[0];
                let b = succ[1];
                let ghost sa = stack@;
                if !visited[exit] && !stops[exit] {
                    stack.push(exit);
                    proof {
                        assert(stack@[stack@.len() - 1] == exit);
                    }
                }
                proof {
                    assert(reachable_from(f, root, exit));
                    assert forall|y: NodeId| #[trigger] sa.contains(y) implies stack@.contains(y) by {
                        let k = choose|k: int| 0 <= k < sa.len() && sa[k] == y;
                        assert(stack@[k] == y);
                    }
                    assert forall|k: int| 0 <= k < stack@.len() implies #[trigger] stack@[k] < n
                        && reachable_from(f, root, stack@[k]) by {
                        if k < sa.len() {
                            assert(stack@[k] == sa[k]);
                        }
                    }
                    assert(visited@[exit as int] || stops@[exit as int] || stack@.contains(exit));
                }
                let ghost before_stops = stops@;
                stops.set(exit, true);
                proof {
                    assert forall|x: NodeId| x < n && #[trigger] stops@[x as int] && !stops0[x as int] implies visited@[x as int] || stack@.contains(x) by {
                        assert(x == exit);
                        if !visited@[exit as int] && !stack@.contains(exit) {
                            assert(before_stops[exit as int]);
                        }
                    }
                    lemma_reachable_step(f, root, node, a);
                    lemma_reachable_step(f, root, node, b);
                }
                let ghost sb = stack@;
                edge(&mut stack, &visited, &stops, a);
                let ghost sc = stack@;
                edge(&mut stack, &visited, &stops, b);
                proof {
                    assert forall|k: int| 0 <= k < stack@.len() implies #[trigger] stack@[k] < n
                        && reachable_from(f, root, stack@[k]) by {
                        if k < sc.len() {
                            assert(stack@[k] == sc[k]);
                            if k < sb.len() {
                                assert(sc[k] == sb[k]);
                            }
                        }
                    }
                    assert(settled(visited@, stops@, stack@, a));
                    assert forall|x: NodeId| x < n && #[trigger] stops@[x as int] && !stops0[x as int] implies stack@.contains(x) || visited@[x as int] by {
                        assert(x == exit);
                    }
                    assert forall|y: NodeId| #[trigger] successors_of(*bb).contains(y) implies settled(
                        visited@,
                        stops@,
                        stack@,
                        y,
                    ) by {
                        let k = choose|k: int| 0 <= k < succ@.len() && succ@[k] == y;
                    }
                }
                Link::If(a, Some(b), Some(exit))
            };
            links.push((node, link));
            proof {
                assert forall|x: int, y: NodeId|
                    0 <= x < n && visited@[x] && #[trigger] successors_of(f.blocks@[x]).contains(y)
                        implies y < n && (visited@[y as int] || stops@[y as int] || stack@.contains(y)) by {
                    if x != node {
                        assert(vis0[x]);
                    }
                }
                assert forall|x: NodeId| x < n && #[trigger] stops@[x as int] implies visited@[x as int] || stack@.contains(x) by {
                    if stops0[x as int] {
                        assert(vis0[x as int] || st0.contains(x));
                    }
                }
                assert(links@[links@.len() - 1] == (node, link));
                assert forall|k: int| 0 <= k < prev.len() implies links@[k] == prev[k] by {}
                assert forall|x: int| 0 <= x < n implies (visited@[x] <==> linked(links@, x as NodeId)) by {
                    if linked(prev, x as NodeId) {
                        let k = choose|k: int| 0 <= k < prev.len() && #[trigger] prev[k].0 == x as NodeId;
                        assert(links@[k].0 == x as NodeId);
                    }
                    if linked(links@, x as NodeId) && x != node {
                        let k = choose|k: int| 0 <= k < links@.len() && #[trigger] links@[k].0 == x as NodeId;
                        assert(prev[k].0 == x as NodeId);
                    }
                    if x == node {
                        assert(links@[prev.len() as int].0 == x as NodeId);
                    }
                }
                assert forall|k: int, m: int| 0 <= k < m < links@.len() implies links@[k].0 != links@[m].0 by {
                    if m == prev.len() {
                        assert(links@[k] == prev[k]);
                        assert(linked(prev, prev[k].0));
                        assert(vis0[prev[k].0 as int]);
                    }
                }
            }
        }
        proof {
            assert forall|k: int, y: NodeId|
                0 <= k < links@.len() && #[trigger] successors_of(f.blocks@[links@[k].0 as int]).contains(y)
                    implies linked(links@, y) by {
                let x = links@[k].0;
                assert(linked(links@, x));
                assert(visited@[x as int]);
                if stops@[y as int] {
                    assert(visited@[y as int] || stack@.contains(y));
                }
            }
            assert forall|k: int|
                0 <= k < links@.len() && #[trigger] successors_of(f.blocks@[links@[k].0 as int]).len() == 2
                    implies linked(links@, pd[links@[k].0 as int]->Some_0) by {
                let x = links@[k].0;
                assert(linked(links@, x));
                assert(visited@[x as int]);
                let j = pd[x as int]->Some_0;
                assert(stops@[j as int]);
            }
        }
        Ok(links)
    }
}

/// `link` is a link that the structuring may choose for block `bb`, whose
/// immediate post-dominator is `exit`.
pub open spec fn link_fits(bb: BasicBlock, exit: Option<NodeId>, link: Link) -> bool {
    let succ = successors_of(bb);
    if succ.len() == 0 {
        link == Link::Terminal
    } else if succ.len() == 1 {
        link == Link::Terminal || link == Link::Extend(succ[0])
    } else {
        exit is Some && link == Link::If(succ[0], Some(succ[1]), exit)
    }
}

/// Node `x` of `f` cannot be structured: it has no terminator, a successor
/// outside the graph, or, as a two-way node, a join point outside the graph
/// or one that cannot be reached from `root`.
pub open spec fn node_malformed(f: Function, pd: Seq<Option<NodeId>>, root: NodeId, x: int) -> bool {
    let bb = f.blocks@[x];
    ||| bb.terminator is None
    ||| exists|j: int| 0 <= j < successors_of(bb).len() && #[trigger] successors_of(bb)[j] >= f.blocks@.len()
    ||| (successors_of(bb).len() == 2 && pd[x] is Some && (pd[x]->Some_0 >= f.blocks@.len()
        || !reachable_from(f, root, pd[x]->Some_0)))
}

/// Node `x` of `f` is a two-way node without a join point.
pub open spec fn node_irreducible(f: Function, pd: Seq<Option<NodeId>>, x: int) -> bool {
    successors_of(f.blocks@[x]).len() == 2 && pd[x] is None
}

/// Some node reachable from `root` is `node_malformed`.
pub open spec fn some_malformed(f: Function, pd: Seq<Option<NodeId>>, root: NodeId) -> bool {
    exists|x: int|
        0 <= x < f.blocks@.len() && reachable_from(f, root, x as NodeId) && #[trigger] node_malformed(
            f,
            pd,
            root,
            x,
        )
}

/// Some node reachable from `root` is `node_irreducible`.
pub open spec fn some_irreducible(f: Function, pd: Seq<Option<NodeId>>, root: NodeId) -> bool {
    exists|x: int|
        0 <= x < f.blocks@.len() && reachable_from(f, root, x as NodeId) && #[trigger] node_irreducible(
            f,
            pd,
            x,
        )
}

/// Whether `node` heads a link of `links`.
pub open spec fn linked(links: Seq<(NodeId, Link)>, node: NodeId) -> bool {
    exists|k: int| 0 <= k < links.len() && #[trigger] links[k].0 == node
}

/// `y` is in the graph and visited, a stop, or waiting on the stack.
pub open spec fn settled(visited: Seq<bool>, stops: Seq<bool>, stack: Seq<NodeId>, y: NodeId) -> bool {
    y < visited.len() && (visited[y as int] || stops[y as int] || stack.contains(y))
}

/// Pushes `target` unless it is a stop or was visited.
fn edge(stack: &mut Vec<NodeId>, visited: &Vec<bool>, stops: &Vec<bool>, target: NodeId) -> (r: Link)
    requires
        target < visited@.len(),
        target < stops@.len(),
    ensures
        r == Link::Terminal || r == Link::Extend(target),
        r == Link::Extend(target) <==> !stops@[target as int] && !visited@[target as int],
        settled(visited@, stops@, final(stack)@, target),
        forall|y: NodeId| #[trigger] old(stack)@.contains(y) ==> final(stack)@.contains(y),
        r == Link::Extend(target) ==> final(stack)@ == old(stack)@.push(target),
        r == Link::Terminal ==> final(stack)@ == old(stack)@,
{
    if !stops[target] && !visited[target] {
        let ghost s0 = stack@;
        stack.push(target);
        proof {
            assert(stack@[stack@.len() - 1] == target);
            assert forall|y: NodeId| #[trigger] s0.contains(y) implies stack@.contains(y) by {
                let k = choose|k: int| 0 <= k < s0.len() && s0[k] == y;
                assert(stack@[k] == y);
            }
        }
        Link::Extend(target)
    } else {
        Link::Terminal
    }
}

/// The expressions that read `vs`, one for one.
fn local_values(vs: &Vec<ValueId>) -> (r: Vec<RValue>)
    ensures
        r@ == value_locals(vs@),
{
    let mut out: Vec<RValue> = Vec::new();
    let mut i: usize = 0;
    while i < vs.len()
        invariant
            0 <= i <= vs.len(),
            out@ == value_locals(vs@.subrange(0, i as int)),
        decreases vs.len() - i,
    {
        out.push(RValue::Local(RcLocal { id: vs[i].0 }));
        i += 1;
        proof {
            assert(out@ =~= value_locals(vs@.subrange(0, i as int)));
        }
    }
    proof {
        assert(vs@.subrange(0, vs@.len() as int) =~= vs@);
    }
    out
}

/// The assignment `local_of(dest) = value`.
fn assign_local(dest: ValueId, value: RValue) -> (r: Statement)
    ensures
        assigns_value(r, dest, value),
{
    let mut left: Vec<LValue> = Vec::new();
    left.push(LValue::Local(RcLocal { id: dest.0 }));
    let mut right: Vec<RValue> = Vec::new();
    right.push(value);
    proof {
        assert(left@ =~= seq![LValue::Local(local_of(dest))]);
        assert(right@ =~= seq![value]);
    }
    Statement::Assign(Assign { left, right, prefix: false })
}



/// Links the bodies of `function` from its entry; see `Lifter::lift`. On
/// success every node reachable from the entry has its link.
pub fn lift(function: &Function, post_dominators: &Vec<Option<NodeId>>) -> (r: Result<
    Vec<(NodeId, Link)>,
    LiftError,
>)
    requires
        post_dominators@.len() == function.blocks@.len(),
    ensures
        r is Ok ==> forall|m: NodeId| m < function.blocks@.len() && reachable(*function, m) ==> linked(
            r->Ok_0@,
            m,
        ),
        r is Ok ==> forall|m: NodeId|
            m < function.blocks@.len() && reachable(*function, m) ==> (#[trigger] function.blocks@[m as int]).terminator
                is Some && (successors_of(function.blocks@[m as int]).len() == 2
                ==> post_dominators@[m as int] is Some),
        r is Ok ==> r->Ok_0@.len() > 0 && r->Ok_0@[0].0 == function.entry && forall|k: int|
            0 <= k < r->Ok_0@.len() ==> r->Ok_0@[k].0 < function.blocks@.len() && link_fits(
                #[trigger] function.blocks@[r->Ok_0@[k].0 as int],
                post_dominators@[r->Ok_0@[k].0 as int],
                r->Ok_0@[k].1,
            ),
        r == Err::<Vec<(NodeId, Link)>, LiftError>(LiftError::UnreachableRoot) <==> function.entry
            >= function.blocks@.len(),
        function.entry < function.blocks@.len() ==> (r == Err::<Vec<(NodeId, Link)>, LiftError>(
            LiftError::MalformedAst,
        ) <==> some_malformed(*function, post_dominators@, function.entry)),
        function.entry < function.blocks@.len() ==> (r == Err::<Vec<(NodeId, Link)>, LiftError>(
            LiftError::Irreducible,
        ) <==> !some_malformed(*function, post_dominators@, function.entry) && some_irreducible(
            *function,
            post_dominators@,
            function.entry,
        )),
        r is Err ==> r == Err::<Vec<(NodeId, Link)>, LiftError>(LiftError::Irreducible) || r
            == Err::<Vec<(NodeId, Link)>, LiftError>(LiftError::MalformedAst) || r == Err::<
            Vec<(NodeId, Link)>,
            LiftError,
        >(LiftError::UnreachableRoot),
{
    let lifter = Lifter::new(function);
    let r = lifter.lift(function.entry, post_dominators);
    let nb = function.blocks.len();
    proof {
        if r is Ok {
            let links = r->Ok_0@;
            let n = function.blocks@.len();
            assert(n == nb as nat);
            let vis = Seq::new(n, |x: int| linked(links, x as NodeId));
            assert forall|x: int, y: NodeId|
                0 <= x < vis.len() && vis[x] && #[trigger] successors_of(function.blocks@[x]).contains(y)
                    && y < vis.len() implies vis[y as int] by {
                let k = choose|k: int| 0 <= k < links.len() && #[trigger] links[k].0 == x as NodeId;
                assert(links[k].0 as int == x);
                assert(successors_of(function.blocks@[links[k].0 as int]).contains(y));
                assert(linked(links, y));
                assert((y as int) as NodeId == y);
            }
            assert forall|m: NodeId| m < n && reachable(*function, m) implies linked(links, m) by {
                let p = choose|p: Seq<NodeId>| #[trigger] is_path(*function, p) && p[0] == function.entry
                    && p[p.len() - 1] == m;
                assert(links[0].0 == function.entry);
                assert(vis[function.entry as int]);
                lemma_closed_reaches(*function, vis, p);
            }
            assert forall|m: NodeId|
                m < n && reachable(*function, m) implies (#[trigger] function.blocks@[m as int]).terminator
                    is Some && (successors_of(function.blocks@[m as int]).len() == 2
                    ==> post_dominators@[m as int] is Some) by {
                assert(linked(links, m));
                let k = choose|k: int| 0 <= k < links.len() && #[trigger] links[k].0 == m;
                assert(function.blocks@[links[k].0 as int].terminator is Some);
                assert(link_fits(
                    function.blocks@[links[k].0 as int],
                    post_dominators@[links[k].0 as int],
                    links[k].1,
                ));
            }
        }
    }
    r
}

} // verus!
