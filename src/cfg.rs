use vstd::prelude::*;

use crate::ast::{BinaryOp, Literal};

verus! {

/// An SSA value, numbered uniquely within its function.
#[derive(Debug, Clone, Copy, PartialEq, Eq, Structural)]
pub struct ValueId(pub u64);

/// A node of the control-flow graph: the index of its block.
pub type NodeId = usize;

/// An instruction inside a block.
#[derive(Debug, PartialEq)]
pub enum Inner {
    LoadConstant { dest: ValueId, constant: Literal },
    Move { dest: ValueId, source: ValueId },
    Binary { dest: ValueId, op: BinaryOp, lhs: ValueId, rhs: ValueId },
    Call { dest: ValueId, function: ValueId, arguments: Vec<ValueId> },
}

/// A merge at the head of a block: one incoming value per predecessor.
#[derive(Debug, PartialEq)]
pub struct Phi {
    pub dest: ValueId,
    pub incoming: Vec<(NodeId, ValueId)>,
}

#[derive(Debug, PartialEq)]
pub enum Terminator {
    UnconditionalJump(NodeId),
    ConditionalJump { condition: ValueId, true_branch: NodeId, false_branch: NodeId },
    Return(Vec<ValueId>),
    /// A numeric loop header: `counter` runs from `initial` to `limit` by
    /// `step`, entering `body` each round and `exit` at the end.
    NumericFor {
        counter: ValueId,
        initial: ValueId,
        limit: ValueId,
        step: ValueId,
        body: NodeId,
        exit: NodeId,
    },
}

/// Phi instructions, inner instructions and one terminator.
#[derive(Debug, PartialEq)]
pub struct BasicBlock {
    pub phi_instructions: Vec<Phi>,
    pub inner_instructions: Vec<Inner>,
    pub terminator: Option<Terminator>,
}

/// The place of an instruction within its block.
#[derive(Debug, Clone, Copy, PartialEq, Eq, Structural)]
pub enum InstructionIndex {
    Phi(usize),
    Inner(usize),
    Terminator,
}

#[derive(Debug, Clone, Copy, PartialEq, Eq, Structural)]
pub struct InstructionLocation {
    pub node: NodeId,
    pub index: InstructionIndex,
}

/// A function: its blocks, indexed by node, and its entry node.
#[derive(Debug, PartialEq)]
pub struct Function {
    pub blocks: Vec<BasicBlock>,
    pub entry: NodeId,
}

/// Whether `index` names an instruction of `b`.
pub open spec fn has_index(b: BasicBlock, index: InstructionIndex) -> bool {
    match index {
        InstructionIndex::Phi(i) => i < b.phi_instructions@.len(),
        InstructionIndex::Inner(i) => i < b.inner_instructions@.len(),
        InstructionIndex::Terminator => b.terminator is Some,
    }
}

/// The values that the instruction at `index` of `b` reads.
pub open spec fn reads_at(b: BasicBlock, index: InstructionIndex) -> Seq<ValueId> {
    match index {
        InstructionIndex::Phi(i) => b.phi_instructions@[i as int].incoming@.map_values(
            |p: (NodeId, ValueId)| p.1,
        ),
        InstructionIndex::Inner(i) => match b.inner_instructions@[i as int] {
            Inner::LoadConstant { .. } => Seq::empty(),
            Inner::Move { source, .. } => seq![source],
            Inner::Binary { lhs, rhs, .. } => seq![lhs, rhs],
            Inner::Call { function, arguments, .. } => seq![function] + arguments@,
        },
        InstructionIndex::Terminator => match b.terminator {
            Some(Terminator::ConditionalJump { condition, .. }) => seq![condition],
            Some(Terminator::Return(values)) => values@,
            Some(Terminator::NumericFor { initial, limit, step, .. }) => seq![initial, limit, step],
            _ => Seq::empty(),
        },
    }
}

/// The values that the instruction at `index` of `b` writes.
pub open spec fn writes_at(b: BasicBlock, index: InstructionIndex) -> Seq<ValueId> {
    match index {
        InstructionIndex::Phi(i) => seq![b.phi_instructions@[i as int].dest],
        InstructionIndex::Inner(i) => match b.inner_instructions@[i as int] {
            Inner::LoadConstant { dest, .. } => seq![dest],
            Inner::Move { dest, .. } => seq![dest],
            Inner::Binary { dest, .. } => seq![dest],
            Inner::Call { dest, .. } => seq![dest],
        },
        InstructionIndex::Terminator => match b.terminator {
            Some(Terminator::NumericFor { counter, .. }) => seq![counter],
            _ => Seq::empty(),
        },
    }
}

impl BasicBlock {
    /// The values read by the instruction at `index`.
    pub fn values_read(&self, index: InstructionIndex) -> (r: Vec<ValueId>)
        requires
            has_index(*self, index),
        ensures
            r@ == reads_at(*self, index),
    {
        match index {
            InstructionIndex::Phi(i) => {
                let phi = &self.phi_instructions[i];
                let mut out: Vec<ValueId> = Vec::new();
                let mut k: usize = 0;
                while k < phi.incoming.len()
                    invariant
                        0 <= k <= phi.incoming.len(),
                        out@ == phi.incoming@.subrange(0, k as int).map_values(
                            |p: (NodeId, ValueId)| p.1,
                        ),
                    decreases phi.incoming.len() - k,
                {
                    out.push(phi.incoming[k].1);
                    k += 1;
                    proof {
                        assert(out@ =~= phi.incoming@.subrange(0, k as int).map_values(
                            |p: (NodeId, ValueId)| p.1,
                        ));
                    }
                }
                proof {
                    assert(phi.incoming@.subrange(0, phi.incoming@.len() as int) =~= phi.incoming@);
                }
                out
            },
            InstructionIndex::Inner(i) => match &self.inner_instructions[i] {
                Inner::LoadConstant { .. } => Vec::new(),
                Inner::Move { source, .. } => {
                    let mut out: Vec<ValueId> = Vec::new();
                    out.push(*source);
                    proof {
                        assert(out@ =~= seq![*source]);
                    }
                    out
                },
                Inner::Binary { lhs, rhs, .. } => {
                    let mut out: Vec<ValueId> = Vec::new();
                    out.push(*lhs);
                    out.push(*rhs);
                    proof {
                        assert(out@ =~= seq![*lhs, *rhs]);
                    }
                    out
                },
                Inner::Call { function, arguments, .. } => {
                    let mut out: Vec<ValueId> = Vec::new();
                    out.push(*function);
                    let mut k: usize = 0;
                    while k < arguments.len()
                        invariant
                            0 <= k <= arguments.len(),
                            out@ == seq![*function] + arguments@.subrange(0, k as int),
                        decreases arguments.len() - k,
                    {
                        out.push(arguments[k]);
                        k += 1;
                        proof {
                            assert(out@ =~= seq![*function] + arguments@.subrange(0, k as int));
                        }
                    }
                    proof {
                        assert(arguments@.subrange(0, arguments@.len() as int) =~= arguments@);
                    }
                    out
                },
            },
            InstructionIndex::Terminator => match &self.terminator {
                Some(Terminator::ConditionalJump { condition, .. }) => {
                    let mut out: Vec<ValueId> = Vec::new();
                    out.push(*condition);
                    proof {
                        assert(out@ =~= seq![*condition]);
                    }
                    out
                },
                Some(Terminator::NumericFor { initial, limit, step, .. }) => {
                    let mut out: Vec<ValueId> = Vec::new();
                    out.push(*initial);
                    out.push(*limit);
                    out.push(*step);
                    proof {
                        assert(out@ =~= seq![*initial, *limit, *step]);
                    }
                    out
                },
                Some(Terminator::Return(values)) => {
                    let mut out: Vec<ValueId> = Vec::new();
                    let mut k: usize = 0;
                    while k < values.len()
                        invariant
                            0 <= k <= values.len(),
                            out@ == values@.subrange(0, k as int),
                        decreases values.len() - k,
                    {
                        out.push(values[k]);
                        k += 1;
                        proof {
                            assert(out@ =~= values@.subrange(0, k as int));
                        }
                    }
                    proof {
                        assert(values@.subrange(0, values@.len() as int) =~= values@);
                    }
                    out
                },
                _ => Vec::new(),
            },
        }
    }

    /// The values written by the instruction at `index`.
    pub fn values_written(&self, index: InstructionIndex) -> (r: Vec<ValueId>)
        requires
            has_index(*self, index),
        ensures
            r@ == writes_at(*self, index),
    {
        let mut out: Vec<ValueId> = Vec::new();
        match index {
            InstructionIndex::Phi(i) => out.push(self.phi_instructions[i].dest),
            InstructionIndex::Inner(i) => match &self.inner_instructions[i] {
                Inner::LoadConstant { dest, .. } => out.push(*dest),
                Inner::Move { dest, .. } => out.push(*dest),
                Inner::Binary { dest, .. } => out.push(*dest),
                Inner::Call { dest, .. } => out.push(*dest),
            },
            InstructionIndex::Terminator => match &self.terminator {
                Some(Terminator::NumericFor { counter, .. }) => out.push(*counter),
                _ => {},
            },
        }
        proof {
            assert(out@ =~= writes_at(*self, index));
        }
        out
    }
}


/// The successors of a block, in the order its terminator names them.
pub open spec fn successors_of(bb: BasicBlock) -> Seq<NodeId> {
    match bb.terminator {
        Some(Terminator::UnconditionalJump(t)) => seq![t],
        Some(Terminator::ConditionalJump { true_branch, false_branch, .. }) => seq![
            true_branch,
            false_branch,
        ],
        Some(Terminator::NumericFor { body, exit, .. }) => seq![body, exit],
        _ => Seq::empty(),
    }
}

/// `p` is a path of `f`: nodes of `f`, each a successor of the one before.
pub open spec fn is_path(f: Function, p: Seq<NodeId>) -> bool {
    &&& p.len() >= 1
    &&& forall|k: int| 0 <= k < p.len() ==> #[trigger] p[k] < f.blocks@.len()
    &&& forall|k: int|
        0 <= k < p.len() - 1 ==> successors_of(f.blocks@[p[k] as int]).contains(#[trigger] p[k + 1])
}

/// Node `n` can be reached from `root` in `f`.
pub open spec fn reachable_from(f: Function, root: NodeId, n: NodeId) -> bool {
    exists|p: Seq<NodeId>| #[trigger] is_path(f, p) && p[0] == root && p[p.len() - 1] == n
}

/// Node `n` can be reached from the entry of `f`.
pub open spec fn reachable(f: Function, n: NodeId) -> bool {
    reachable_from(f, f.entry, n)
}

/// A node of the graph reaches itself.
pub proof fn lemma_reachable_root(f: Function, root: NodeId)
    requires
        root < f.blocks@.len(),
    ensures
        reachable_from(f, root, root),
{
    let p = seq![root];
    assert(is_path(f, p));
}

/// A successor in the graph of a reachable node is reachable.
pub proof fn lemma_reachable_step(f: Function, root: NodeId, x: NodeId, y: NodeId)
    requires
        reachable_from(f, root, x),
        successors_of(f.blocks@[x as int]).contains(y),
        y < f.blocks@.len(),
    ensures
        reachable_from(f, root, y),
{
    let p = choose|p: Seq<NodeId>| #[trigger] is_path(f, p) && p[0] == root && p[p.len() - 1] == x;
    let q = p.push(y);
    assert forall|k: int| 0 <= k < q.len() - 1 implies successors_of(f.blocks@[q[k] as int]).contains(#[trigger] q[k + 1]) by {
        if k < p.len() - 1 {
            assert(q[k] == p[k] && q[k + 1] == p[k + 1]);
        }
    }
    assert(is_path(f, q));
    assert(q[0] == root && q[q.len() - 1] == y);
}

/// The number of `false` entries of `s`.
pub open spec fn count_false(s: Seq<bool>) -> nat
    decreases s.len(),
{
    if s.len() == 0 {
        0
    } else {
        count_false(s.subrange(0, s.len() - 1)) + if s[s.len() - 1] {
            0nat
        } else {
            1nat
        }
    }
}

/// Setting a `false` entry to `true` lowers the count by one.
pub proof fn lemma_count_false_set(s: Seq<bool>, i: int)
    requires
        0 <= i < s.len(),
        !s[i],
    ensures
        count_false(s.update(i, true)) + 1 == count_false(s),
    decreases s.len(),
{
    let u = s.update(i, true);
    let s1 = s.subrange(0, s.len() - 1);
    let u1 = u.subrange(0, u.len() - 1);
    if i < s.len() - 1 {
        assert(u1 =~= s1.update(i, true));
        lemma_count_false_set(s1, i);
    } else {
        assert(u1 =~= s1);
    }
}

/// A set of nodes that holds the start of a path and every successor of
/// its members holds the end of the path.
pub proof fn lemma_closed_reaches(f: Function, visited: Seq<bool>, p: Seq<NodeId>)
    requires
        is_path(f, p),
        visited.len() == f.blocks@.len(),
        visited[p[0] as int],
        forall|x: int, y: NodeId|
            0 <= x < visited.len() && visited[x] && #[trigger] successors_of(f.blocks@[x]).contains(y)
                && y < visited.len() ==> visited[y as int],
    ensures
        visited[p[p.len() - 1] as int],
    decreases p.len(),
{
    if p.len() > 1 {
        let q = p.subrange(0, p.len() - 1);
        assert forall|k: int| 0 <= k < q.len() - 1 implies successors_of(f.blocks@[q[k] as int]).contains(#[trigger] q[k + 1]) by {
            assert(q[k] == p[k] && q[k + 1] == p[k + 1]);
        }
        assert(forall|k: int| 0 <= k < q.len() ==> #[trigger] q[k] == p[k]);
        assert(is_path(f, q));
        lemma_closed_reaches(f, visited, q);
        let a = p[p.len() - 2];
        assert(p[p.len() - 1] < f.blocks@.len());
        assert(successors_of(f.blocks@[a as int]).contains(p[p.len() - 2 + 1]));
    }
}

/// The successors of `bb`.
pub fn successors(bb: &BasicBlock) -> (r: Vec<NodeId>)
    ensures
        r@ == successors_of(*bb),
{
    let mut r: Vec<NodeId> = Vec::new();
    match &bb.terminator {
        Some(Terminator::UnconditionalJump(t)) => r.push(*t),
        Some(Terminator::ConditionalJump { true_branch, false_branch, .. }) => {
            r.push(*true_branch);
            r.push(*false_branch);
        },
        Some(Terminator::NumericFor { body, exit, .. }) => {
            r.push(*body);
            r.push(*exit);
        },
        _ => {},
    }
    proof {
        assert(r@ =~= successors_of(*bb));
    }
    r
}

/// Every node reachable from the entry of `f`, as a flag per node.
pub fn reachable_nodes(f: &Function) -> (r: Vec<bool>)
    ensures
        r@.len() == f.blocks@.len(),
        forall|n: int| 0 <= n < r@.len() ==> (#[trigger] r@[n] <==> reachable(*f, n as NodeId)),
{
    reachable_from_nodes(f, f.entry)
}

/// Every node reachable from `root` in `f`, as a flag per node.
pub fn reachable_from_nodes(f: &Function, root: NodeId) -> (r: Vec<bool>)
    ensures
        r@.len() == f.blocks@.len(),
        forall|n: int| 0 <= n < r@.len() ==> (#[trigger] r@[n] <==> reachable_from(*f, root, n as NodeId)),
{
    let n = f.blocks.len();
    let mut visited: Vec<bool> = Vec::new();
    while visited.len() < n
        invariant
            visited@.len() <= n,
            forall|x: int| 0 <= x < visited@.len() ==> !visited@[x],
        decreases n - visited.len(),
    {
        visited.push(false);
    }
    if root >= n {
        proof {
            assert forall|x: int| 0 <= x < n implies (#[trigger] visited@[x] <==> reachable_from(*f, root, x as NodeId)) by {
                if reachable_from(*f, root, x as NodeId) {
                    let p = choose|p: Seq<NodeId>| #[trigger] is_path(*f, p) && p[0] == root && p[p.len() - 1] == x as NodeId;
                    assert(p[0] < n);
                }
            }
        }
        return visited;
    }
    let mut stack: Vec<NodeId> = Vec::new();
    proof {
        lemma_count_false_set(visited@, root as int);
        let p = seq![root];
        assert(is_path(*f, p));
    }
    visited.set(root, true);
    stack.push(root);
    proof {
        assert(stack@[0] == root);
        assert(stack@.contains(root));
        assert forall|x: int, y: NodeId|
            0 <= x < n && visited@[x] && !stack@.contains(x as NodeId) && #[trigger] successors_of(
                f.blocks@[x],
            ).contains(y) && y < n implies visited@[y as int] by {
            assert(x == root as int);
        }
    }
    while stack.len() > 0
        invariant
            n == f.blocks@.len(),
            visited@.len() == n,
            root < n,
            visited@[root as int],
            forall|k: int| 0 <= k < stack@.len() ==> #[trigger] stack@[k] < n && visited@[stack@[k] as int],
            forall|x: int| 0 <= x < n && #[trigger] visited@[x] ==> reachable_from(*f, root, x as NodeId),
            forall|x: int, y: NodeId|
                0 <= x < n && visited@[x] && !stack@.contains(x as NodeId) && #[trigger] successors_of(
                    f.blocks@[x],
                ).contains(y) && y < n ==> visited@[y as int],
        decreases count_false(visited@) + stack@.len(),
    {
        let ghost m0 = count_false(visited@) + stack@.len();
        let ghost old_stack = stack@;
        let x = stack.pop().unwrap();
        let ghost popped = stack@;
        proof {
            assert(old_stack =~= popped.push(x));
            assert forall|z: NodeId| z != x && !popped.contains(z) implies !#[trigger] old_stack.contains(z) by {
                if old_stack.contains(z) {
                    let k = choose|k: int| 0 <= k < old_stack.len() && old_stack[k] == z;
                    if k < popped.len() {
                        assert(popped[k] == z);
                    }
                }
            }
        }
        let succ = successors(&f.blocks[x]);
        let mut j: usize = 0;
        while j < succ.len()
            invariant
                n == f.blocks@.len(),
                visited@.len() == n,
                root < n,
                x < n,
                visited@[x as int],
                visited@[root as int],
                succ@ == successors_of(f.blocks@[x as int]),
                0 <= j <= succ@.len(),
                count_false(visited@) + stack@.len() + 1 == m0,
                stack@.len() >= popped.len(),
                forall|k: int| 0 <= k < popped.len() ==> stack@[k] == popped[k],
                forall|k: int| 0 <= k < stack@.len() ==> #[trigger] stack@[k] < n && visited@[stack@[k] as int],
                forall|z: int| 0 <= z < n && #[trigger] visited@[z] ==> reachable_from(*f, root, z as NodeId),
                forall|k: int| 0 <= k < j && succ@[k] < n ==> visited@[#[trigger] succ@[k] as int],
                forall|z: int, y: NodeId|
                    0 <= z < n && visited@[z] && z != x && !stack@.contains(z as NodeId) && #[trigger] successors_of(
                        f.blocks@[z],
                    ).contains(y) && y < n ==> visited@[y as int],
            decreases succ@.len() - j,
        {
            let y = succ[j];
            if y < n && !visited[y] {
                proof {
                    lemma_count_false_set(visited@, y as int);
                    let p = choose|p: Seq<NodeId>| #[trigger] is_path(*f, p) && p[0] == root && p[p.len() - 1] == x;
                    let q = p.push(y);
                    assert(successors_of(f.blocks@[x as int]).contains(y)) by {
                        assert(succ@[j as int] == y);
                    }
                    assert forall|k: int| 0 <= k < q.len() - 1 implies successors_of(f.blocks@[q[k] as int]).contains(#[trigger] q[k + 1]) by {
                        if k < p.len() - 1 {
                            assert(q[k] == p[k] && q[k + 1] == p[k + 1]);
                        }
                    }
                    assert(is_path(*f, q));
                    assert(q[0] == root && q[q.len() - 1] == y);
                }
                let ghost s0 = stack@;
                let ghost v0 = visited@;
                visited.set(y, true);
                stack.push(y);
                proof {
                    assert forall|z: NodeId| !stack@.contains(z) implies !#[trigger] s0.contains(z) by {
                        if s0.contains(z) {
                            let k = choose|k: int| 0 <= k < s0.len() && s0[k] == z;
                            assert(stack@[k] == z);
                        }
                    }
                    assert(stack@[stack@.len() - 1] == y);
                    assert forall|z: int, w: NodeId|
                        0 <= z < n && visited@[z] && z != x && !stack@.contains(z as NodeId) && #[trigger] successors_of(
                            f.blocks@[z],
                        ).contains(w) && w < n implies visited@[w as int] by {
                        assert(z != y as int);
                        assert(v0[z]);
                        assert(!s0.contains(z as NodeId));
                        assert(v0[w as int]);
                    }
                }
            }
            j += 1;
        }
        proof {
            assert forall|z: int, y: NodeId|
                0 <= z < n && visited@[z] && !stack@.contains(z as NodeId) && #[trigger] successors_of(
                    f.blocks@[z],
                ).contains(y) && y < n implies visited@[y as int] by {
                if z == x {
                    let k = choose|k: int| 0 <= k < succ@.len() && succ@[k] == y;
                    assert(succ@[k] < n);
                } else if popped.contains(z as NodeId) {
                    let k = choose|k: int| 0 <= k < popped.len() && popped[k] == z as NodeId;
                    assert(stack@[k] == z as NodeId);
                }
            }
        }
    }
    proof {
        assert forall|z: int| 0 <= z < n implies (#[trigger] visited@[z] <==> reachable_from(*f, root, z as NodeId)) by {
            if reachable_from(*f, root, z as NodeId) {
                let p = choose|p: Seq<NodeId>| #[trigger] is_path(*f, p) && p[0] == root && p[p.len() - 1] == z as NodeId;
                lemma_closed_reaches(*f, visited@, p);
            }
        }
    }
    visited
}

} // verus!
