use vstd::prelude::*;

use crate::ast::{
    lvalue_locals, lvalues_locals, rvalue_locals, rvalue_same, rvalues_locals,
    rvalues_same, stat_mentions,
    block_mentions, Assign, Block, Call, GenericFor, If, LValue, NumericFor, RValue, RcLocal, Repeat,
    Return, Statement, Table, While,
};
use crate::cfg::NodeId;
use crate::local_declarations::{block_mentions_local, contains_local};

verus! {

/// `after` is `before` with each reference to `t` replaced by a copy of `e`.
pub open spec fn substituted(before: RValue, after: RValue, t: RcLocal, e: RValue) -> bool
    decreases before,
{
    match before {
        RValue::Local(x) => if x == t {
            rvalue_same(after, e)
        } else {
            after == before
        },
        RValue::Literal(_) => after == before,
        RValue::Binary(o, a, b) => after is Binary && after->Binary_0 == o && substituted(
            *a,
            *after->Binary_1,
            t,
            e,
        ) && substituted(*b, *after->Binary_2, t, e),
        RValue::Unary(o, a) => after is Unary && after->Unary_0 == o && substituted(
            *a,
            *after->Unary_1,
            t,
            e,
        ),
        RValue::Call(f, args) => after is Call && substituted(*f, *after->Call_0, t, e)
            && substituted_all(args@, after->Call_1@, t, e),
        RValue::Table(tb) => after is Table && substituted_all(tb.0@, after->Table_0.0@, t, e),
    }
}

/// `substituted`, element by element.
pub open spec fn substituted_all(before: Seq<RValue>, after: Seq<RValue>, t: RcLocal, e: RValue) -> bool
    decreases before,
{
    before.len() == after.len() && (before.len() == 0 || (substituted_all(
        before.subrange(0, before.len() - 1),
        after.subrange(0, after.len() - 1),
        t,
        e,
    ) && substituted(before[before.len() - 1], after[after.len() - 1], t, e)))
}

/// `substituted_all` holds where `substituted` holds element by element.
pub proof fn lemma_substituted_all(a: Seq<RValue>, b: Seq<RValue>, t: RcLocal, e: RValue)
    requires
        a.len() == b.len(),
        forall|i: int| 0 <= i < a.len() ==> #[trigger] substituted(a[i], b[i], t, e),
    ensures
        substituted_all(a, b, t, e),
    decreases a.len(),
{
    if a.len() > 0 {
        let a1 = a.subrange(0, a.len() - 1);
        let b1 = b.subrange(0, b.len() - 1);
        assert forall|i: int| 0 <= i < a1.len() implies #[trigger] substituted(a1[i], b1[i], t, e) by {
            assert(a1[i] == a[i] && b1[i] == b[i]);
        }
        lemma_substituted_all(a1, b1, t, e);
        assert(substituted(a[a.len() - 1], b[b.len() - 1], t, e));
    }
}

/// Whether evaluating `r` may call a function.
pub open spec fn rvalue_calls(r: RValue) -> bool
    decreases r,
{
    match r {
        RValue::Local(_) => false,
        RValue::Literal(_) => false,
        RValue::Binary(_, a, b) => rvalue_calls(*a) || rvalue_calls(*b),
        RValue::Unary(_, a) => rvalue_calls(*a),
        RValue::Call(_, _) => true,
        RValue::Table(t) => rvalues_call(t.0@),
    }
}

/// Whether evaluating one of the expressions of `s` may call a function.
pub open spec fn rvalues_call(s: Seq<RValue>) -> bool
    decreases s,
{
    if s.len() == 0 {
        false
    } else {
        rvalues_call(s.subrange(0, s.len() - 1)) || rvalue_calls(s[s.len() - 1])
    }
}

/// Whether every target of `s` is a local.
pub open spec fn all_local(s: Seq<LValue>) -> bool {
    forall|i: int| 0 <= i < s.len() ==> #[trigger] s[i] is Local
}

/// Whether `s` may have an effect beyond the locals it assigns: anything
/// but an assignment to locals of values computed without calls.
pub open spec fn has_side_effects(s: Statement) -> bool {
    match s {
        Statement::Assign(a) => !all_local(a.left@) || rvalues_call(a.right@),
        _ => true,
    }
}


/// `after` is `before` with `t` replaced by `e` in the expressions of the
/// statement itself.
pub open spec fn stat_substituted(before: Statement, after: Statement, t: RcLocal, e: RValue) -> bool {
    match before {
        Statement::Assign(a) => {
            &&& after is Assign
            &&& lvalues_substituted(a.left@, after->Assign_0.left@, t, e)
            &&& after->Assign_0.prefix == a.prefix
            &&& substituted_all(a.right@, after->Assign_0.right@, t, e)
        },
        Statement::Return(x) => after is Return && substituted_all(x.values@, after->Return_0.values@, t, e),
        Statement::Call(x) => {
            &&& after is Call
            &&& substituted(x.value, after->Call_0.value, t, e)
            &&& substituted_all(x.arguments@, after->Call_0.arguments@, t, e)
        },
        Statement::If(x) => {
            &&& after is If
            &&& substituted(x.condition, after->If_0.condition, t, e)
            &&& after->If_0.then_block == x.then_block
            &&& after->If_0.else_block == x.else_block
        },
        Statement::While(x) => {
            &&& after is While
            &&& substituted(x.condition, after->While_0.condition, t, e)
            &&& after->While_0.block == x.block
        },
        Statement::Repeat(x) => {
            &&& after is Repeat
            &&& substituted(x.condition, after->Repeat_0.condition, t, e)
            &&& after->Repeat_0.block == x.block
        },
        Statement::NumericFor(x) => {
            &&& after is NumericFor
            &&& after->NumericFor_0.counter == x.counter
            &&& substituted(x.initial, after->NumericFor_0.initial, t, e)
            &&& substituted(x.limit, after->NumericFor_0.limit, t, e)
            &&& substituted(x.step, after->NumericFor_0.step, t, e)
            &&& after->NumericFor_0.block == x.block
        },
        Statement::GenericFor(x) => {
            &&& after is GenericFor
            &&& after->GenericFor_0.res_locals == x.res_locals
            &&& substituted_all(x.right@, after->GenericFor_0.right@, t, e)
            &&& after->GenericFor_0.block == x.block
        },
        _ => after == before,
    }
}

/// `after` is the assignment target `before` with `t` replaced by `e` in
/// the expressions of an index target; a plain local stays.
pub open spec fn lvalue_substituted(before: LValue, after: LValue, t: RcLocal, e: RValue) -> bool {
    match before {
        LValue::Local(_) => after == before,
        LValue::Index(a, b) => after is Index && substituted(*a, *after->Index_0, t, e) && substituted(
            *b,
            *after->Index_1,
            t,
            e,
        ),
    }
}

/// `lvalue_substituted`, element by element.
pub open spec fn lvalues_substituted(before: Seq<LValue>, after: Seq<LValue>, t: RcLocal, e: RValue) -> bool
    decreases before.len(),
{
    before.len() == after.len() && (before.len() == 0 || (lvalues_substituted(
        before.subrange(0, before.len() - 1),
        after.subrange(0, after.len() - 1),
        t,
        e,
    ) && lvalue_substituted(before[before.len() - 1], after[after.len() - 1], t, e)))
}

/// Whether every occurrence of `t` in `s` is a read that substitution
/// reaches: in the statement's own expressions (values, index targets,
/// conditions, loop headers), with its nested blocks free of `t`. A
/// statement that itself assigns or declares `t` (a target, a loop counter)
/// takes no value.
pub open spec fn can_substitute(s: Statement, t: RcLocal) -> bool {
    match s {
        Statement::Assign(a) => !a.left@.contains(LValue::Local(t)),
        Statement::Return(_) => true,
        Statement::Call(_) => true,
        Statement::If(x) => !block_mentions(x.then_block.0@, t) && !block_mentions(x.else_block.0@, t),
        Statement::While(x) => !block_mentions(x.block.0@, t),
        Statement::Repeat(x) => !block_mentions(x.block.0@, t),
        Statement::NumericFor(x) => x.counter != t && !block_mentions(x.block.0@, t),
        Statement::GenericFor(x) => !x.res_locals@.contains(t) && !block_mentions(x.block.0@, t),
        Statement::Break => false,
    }
}

/// The assignment `t = e`, with one target and one value.
pub open spec fn assigns_single(s: Statement, t: RcLocal) -> bool {
    &&& s is Assign
    &&& s->Assign_0.left@ == seq![LValue::Local(t)]
    &&& s->Assign_0.right@.len() == 1
}

/// The value assigned by a single assignment.
pub open spec fn assigned_value(s: Statement) -> RValue {
    s->Assign_0.right@[0]
}

/// Inlining the assignment at `i` into the statement at `r` is allowed:
/// `i` assigns `t` alone, `r` comes later and can take the value, and no
/// statement in between has side effects.
pub open spec fn can_inline(b: Seq<Statement>, i: int, r: int, t: RcLocal) -> bool {
    &&& 0 <= i < r < b.len()
    &&& assigns_single(b[i], t)
    &&& can_substitute(b[r], t)
    &&& forall|j: int| i < j < r ==> !#[trigger] has_side_effects(b[j])
}

/// `after` is `before` with the value assigned at `i` moved into the statement at
/// `r` in place of `t`, and the assignment removed.
pub open spec fn inlined(before: Seq<Statement>, after: Seq<Statement>, i: int, r: int, t: RcLocal) -> bool {
    &&& after.len() == before.len() - 1
    &&& forall|j: int| 0 <= j < i ==> after[j] == before[j]
    &&& forall|j: int| i < j < before.len() && j != r ==> after[j - 1] == before[j]
    &&& stat_substituted(before[r], after[r - 1], t, assigned_value(before[i]))
}

/// A reference to a local: a statement of a block, or elsewhere.
#[derive(Debug, Clone, Copy, PartialEq, Eq, Structural)]
pub enum Location {
    Block(NodeId, usize),
    Other,
}

/// One reference of a local.
#[derive(Debug, Clone, Copy, PartialEq, Eq, Structural)]
pub struct Reference {
    pub local: RcLocal,
    pub location: Location,
}

/// The references of the locals of a function, as an SSA def-use pass
/// found them.
#[derive(Debug)]
pub struct SsaDefUse {
    pub references: Vec<Reference>,
}

/// Whether `r` may call a function.
pub fn rvalue_calls_exec(r: &RValue) -> (b: bool)
    ensures
        b == rvalue_calls(*r),
    decreases r,
{
    match r {
        RValue::Local(_) => false,
        RValue::Literal(_) => false,
        RValue::Binary(_, a, b) => rvalue_calls_exec(a) || rvalue_calls_exec(b),
        RValue::Unary(_, a) => rvalue_calls_exec(a),
        RValue::Call(_, _) => true,
        RValue::Table(t) => rvalues_call_exec(&t.0),
    }
}

/// Whether one of the expressions of `v` may call a function.
pub fn rvalues_call_exec(v: &Vec<RValue>) -> (b: bool)
    ensures
        b == rvalues_call(v@),
    decreases v,
{
    let mut i: usize = 0;
    let mut found = false;
    while i < v.len()
        invariant
            0 <= i <= v.len(),
            found == rvalues_call(v@.subrange(0, i as int)),
        decreases v.len() - i,
    {
        proof {
            assert(v@.subrange(0, i + 1).subrange(0, i as int) =~= v@.subrange(0, i as int));
        }
        let c = rvalue_calls_exec(&v[i]);
        found = found || c;
        i += 1;
    }
    proof {
        assert(v@.subrange(0, v@.len() as int) =~= v@);
    }
    found
}

/// Whether every target of `v` is a local.
fn all_local_exec(v: &Vec<LValue>) -> (b: bool)
    ensures
        b == all_local(v@),
{
    let mut i: usize = 0;
    while i < v.len()
        invariant
            0 <= i <= v.len(),
            forall|j: int| 0 <= j < i ==> #[trigger] v@[j] is Local,
        decreases v.len() - i,
    {
        match &v[i] {
            LValue::Local(_) => {},
            _ => {
                proof {
                    assert(!(v@[i as int] is Local));
                }
                return false;
            },
        }
        i += 1;
    }
    true
}

/// Whether `s` may have side effects.
pub fn stat_has_side_effects(s: &Statement) -> (b: bool)
    ensures
        b == has_side_effects(*s),
{
    match s {
        Statement::Assign(a) => !all_local_exec(&a.left) || rvalues_call_exec(&a.right),
        _ => true,
    }
}

/// `r` with each reference to `t` replaced by a copy of `e`.
pub fn substitute(r: RValue, t: RcLocal, e: &RValue) -> (out: RValue)
    ensures
        substituted(r, out, t, *e),
    decreases r,
{
    match r {
        RValue::Local(x) => if x == t {
            e.duplicate()
        } else {
            RValue::Local(x)
        },
        RValue::Literal(x) => RValue::Literal(x),
        RValue::Binary(o, a, b) => RValue::Binary(
            o,
            Box::new(substitute(*a, t, e)),
            Box::new(substitute(*b, t, e)),
        ),
        RValue::Unary(o, a) => RValue::Unary(o, Box::new(substitute(*a, t, e))),
        RValue::Call(f, args) => RValue::Call(Box::new(substitute(*f, t, e)), substitute_all(args, t, e)),
        RValue::Table(tb) => RValue::Table(Table(substitute_all(tb.0, t, e))),
    }
}

/// `substitute` on each expression of a list.
pub fn substitute_all(v: Vec<RValue>, t: RcLocal, e: &RValue) -> (out: Vec<RValue>)
    ensures
        substituted_all(v@, out@, t, *e),
    decreases v,
{
    let ghost orig = v@;
    let mut rest = v;
    let mut out: Vec<RValue> = Vec::new();
    while rest.len() > 0
        invariant
            out@.len() + rest@.len() == orig.len(),
            orig == v@,
            rest@ == orig.subrange(out@.len() as int, orig.len() as int),
            forall|j: int| 0 <= j < out@.len() ==> #[trigger] substituted(orig[j], out@[j], t, *e),
        decreases rest@.len(),
    {
        let x = rest.remove(0);
        proof {
            assert(x == orig[out@.len() as int]);
            assert(decreases_to!(v => v@));
            assert(decreases_to!(v@ => v@[out@.len() as int]));
        }
        let y = substitute(x, t, e);
        out.push(y);
        proof {
            assert(rest@ =~= orig.subrange(out@.len() as int, orig.len() as int));
        }
    }
    assert(out@.len() == orig.len());
    assert forall|j: int| 0 <= j < orig.len() implies #[trigger] substituted(orig[j], out@[j], t, *e) by {}
    proof {
        lemma_substituted_all(orig, out@, t, *e);
    }
    out
}


/// `v` with `t` replaced by a copy of `e` in its index expressions.
pub fn substitute_lvalue(v: LValue, t: RcLocal, e: &RValue) -> (out: LValue)
    ensures
        lvalue_substituted(v, out, t, *e),
{
    match v {
        LValue::Local(x) => LValue::Local(x),
        LValue::Index(a, b) => LValue::Index(Box::new(substitute(*a, t, e)), Box::new(substitute(*b, t, e))),
    }
}

/// `substitute_lvalue` on each target of a list.
pub fn substitute_lvalues(v: Vec<LValue>, t: RcLocal, e: &RValue) -> (out: Vec<LValue>)
    ensures
        lvalues_substituted(v@, out@, t, *e),
{
    let ghost orig = v@;
    let mut rest = v;
    let mut out: Vec<LValue> = Vec::new();
    while rest.len() > 0
        invariant
            out@.len() + rest@.len() == orig.len(),
            rest@ == orig.subrange(out@.len() as int, orig.len() as int),
            lvalues_substituted(orig.subrange(0, out@.len() as int), out@, t, *e),
        decreases rest@.len(),
    {
        let x = rest.remove(0);
        let ghost k = out@.len() as int;
        proof {
            assert(x == orig[k]);
        }
        let y = substitute_lvalue(x, t, e);
        let ghost prev = out@;
        out.push(y);
        proof {
            assert(rest@ =~= orig.subrange(out@.len() as int, orig.len() as int));
            assert(orig.subrange(0, k + 1).subrange(0, k) =~= orig.subrange(0, k));
            assert(out@.subrange(0, k) =~= prev);
        }
    }
    proof {
        assert(orig.subrange(0, orig.len() as int) =~= orig);
    }
    out
}

/// `s` with `t` replaced by a copy of `e` in its own expressions.
pub fn substitute_stat(s: Statement, t: RcLocal, e: &RValue) -> (out: Statement)
    ensures
        stat_substituted(s, out, t, *e),
{
    match s {
        Statement::Assign(a) => {
            let Assign { left, right, prefix } = a;
            Statement::Assign(
                Assign {
                    left: substitute_lvalues(left, t, e),
                    right: substitute_all(right, t, e),
                    prefix,
                },
            )
        },
        Statement::Return(x) => Statement::Return(Return { values: substitute_all(x.values, t, e) }),
        Statement::Call(x) => {
            let Call { value, arguments } = x;
            Statement::Call(
                Call { value: substitute(value, t, e), arguments: substitute_all(arguments, t, e) },
            )
        },
        Statement::If(x) => {
            let If { condition, then_block, else_block } = x;
            Statement::If(If { condition: substitute(condition, t, e), then_block, else_block })
        },
        Statement::While(x) => {
            let While { condition, block } = x;
            Statement::While(While { condition: substitute(condition, t, e), block })
        },
        Statement::Repeat(x) => {
            let Repeat { condition, block } = x;
            Statement::Repeat(Repeat { condition: substitute(condition, t, e), block })
        },
        Statement::NumericFor(x) => {
            let NumericFor { counter, initial, limit, step, block } = x;
            Statement::NumericFor(
                NumericFor {
                    counter,
                    initial: substitute(initial, t, e),
                    limit: substitute(limit, t, e),
                    step: substitute(step, t, e),
                    block,
                },
            )
        },
        Statement::GenericFor(x) => {
            let GenericFor { res_locals, right, block } = x;
            Statement::GenericFor(GenericFor { res_locals, right: substitute_all(right, t, e), block })
        },
        other => other,
    }
}

/// Whether `v` holds `t` as a plain local target.
fn lvalues_contain_local(v: &Vec<LValue>, t: RcLocal) -> (b: bool)
    ensures
        b == v@.contains(LValue::Local(t)),
{
    let mut i: usize = 0;
    while i < v.len()
        invariant
            0 <= i <= v.len(),
            forall|j: int| 0 <= j < i ==> v@[j] != LValue::Local(t),
        decreases v.len() - i,
    {
        match &v[i] {
            LValue::Local(x) => {
                if *x == t {
                    proof {
                        assert(v@[i as int] == LValue::Local(t));
                    }
                    return true;
                }
            },
            _ => {},
        }
        i += 1;
    }
    false
}

/// Whether substitution reaches every occurrence of `t` in `s`.
fn can_substitute_exec(s: &Statement, t: RcLocal) -> (b: bool)
    ensures
        b == can_substitute(*s, t),
{
    match s {
        Statement::Assign(a) => !lvalues_contain_local(&a.left, t),
        Statement::Return(_) => true,
        Statement::Call(_) => true,
        Statement::If(x) => !block_mentions_local(&x.then_block, t) && !block_mentions_local(
            &x.else_block,
            t,
        ),
        Statement::While(x) => !block_mentions_local(&x.block, t),
        Statement::Repeat(x) => !block_mentions_local(&x.block, t),
        Statement::NumericFor(x) => x.counter != t && !block_mentions_local(&x.block, t),
        Statement::GenericFor(x) => !contains_local(&x.res_locals, t) && !block_mentions_local(
            &x.block,
            t,
        ),
        Statement::Break => false,
    }
}

/// The local that `s` assigns, where it is a single assignment.
fn single_target(s: &Statement) -> (r: Option<RcLocal>)
    ensures
        r is Some ==> assigns_single(*s, r->Some_0),
        r is None ==> forall|t: RcLocal| !assigns_single(*s, t),
{
    match s {
        Statement::Assign(a) => {
            if a.left.len() != 1 || a.right.len() != 1 {
                return None;
            }
            match &a.left[0] {
                LValue::Local(x) => {
                    proof {
                        assert(a.left@ =~= seq![LValue::Local(*x)]);
                    }
                    Some(*x)
                },
                _ => None,
            }
        },
        _ => None,
    }
}

/// Whether inlining from `i` into `r` is allowed in `b`.
pub fn can_inline_at(b: &Block, i: usize, r: usize, t: RcLocal) -> (ok: bool)
    ensures
        ok == can_inline(b.0@, i as int, r as int, t),
{
    if !(i < r && r < b.0.len()) {
        return false;
    }
    match single_target(&b.0[i]) {
        Some(x) => {
            if x != t {
                proof {
                    if assigns_single(b.0@[i as int], t) {
                        assert(b.0@[i as int]->Assign_0.left@[0] == LValue::Local(t));
                        assert(b.0@[i as int]->Assign_0.left@[0] == LValue::Local(x));
                    }
                }
                return false;
            }
        },
        None => {
            return false;
        },
    }
    if !can_substitute_exec(&b.0[r], t) {
        return false;
    }
    let mut j: usize = i + 1;
    while j < r
        invariant
            i < j <= r,
            r < b.0.len(),
            forall|k: int| i < k < j ==> !#[trigger] has_side_effects(b.0@[k]),
        decreases r - j,
    {
        if stat_has_side_effects(&b.0[j]) {
            return false;
        }
        j += 1;
    }
    true
}

/// Moves the value that the statement `i` assigns to `t` into the
/// statement `r`, in place of `t`, and removes the assignment.
pub fn inline_at(block: &mut Block, i: usize, r: usize, t: RcLocal)
    requires
        can_inline(old(block).0@, i as int, r as int, t),
    ensures
        inlined(old(block).0@, final(block).0@, i as int, r as int, t),
{
    let ghost before = block.0@;
    let st = block.0.remove(r);
    let new_st = match &block.0[i] {
        Statement::Assign(a) => substitute_stat(st, t, &a.right[0]),
        _ => st,
    };
    block.0.insert(r, new_st);
    block.0.remove(i);
}

/// `def_use` holds exactly one reference to `t`, and it is at `loc`.
pub open spec fn single_ref(def_use: SsaDefUse, t: RcLocal, loc: Location) -> bool {
    exists|k: int|
        0 <= k < def_use.references@.len() && #[trigger] def_use.references@[k] == (Reference {
            local: t,
            location: loc,
        }) && forall|m: int|
            0 <= m < def_use.references@.len() && def_use.references@[m].local == t ==> m == k
}

/// The one location at which `def_use` has `t` referenced, if there is
/// exactly one.
pub fn single_reference(def_use: &SsaDefUse, t: RcLocal) -> (r: Option<Location>)
    ensures
        r is Some ==> single_ref(*def_use, t, r->Some_0),
        r is None ==> forall|loc: Location| !single_ref(*def_use, t, loc),
{
    let mut found: Option<Location> = None;
    let mut at: usize = 0;
    let mut i: usize = 0;
    while i < def_use.references.len()
        invariant
            0 <= i <= def_use.references.len(),
            found is Some ==> at < i && def_use.references@[at as int] == (Reference {
                local: t,
                location: found->Some_0,
            }) && forall|m: int| 0 <= m < i && def_use.references@[m].local == t ==> m == at,
            found is None ==> forall|m: int| 0 <= m < i ==> def_use.references@[m].local != t,
        decreases def_use.references.len() - i,
    {
        let x = def_use.references[i];
        if x.local == t {
            if found.is_some() {
                proof {
                    assert forall|loc: Location| !single_ref(*def_use, t, loc) by {
                        if single_ref(*def_use, t, loc) {
                            let k = choose|k: int|
                                0 <= k < def_use.references@.len() && #[trigger] def_use.references@[k]
                                    == (Reference { local: t, location: loc }) && forall|m: int|
                                    0 <= m < def_use.references@.len() && def_use.references@[m].local
                                        == t ==> m == k;
                            assert(at as int == k);
                            assert(i as int == k);
                        }
                    }
                }
                return None;
            }
            found = Some(x.location);
            at = i;
        }
        i += 1;
    }
    proof {
        if found is Some {
            assert(def_use.references@[at as int] == (Reference { local: t, location: found->Some_0 }));
        } else {
            assert forall|loc: Location| !single_ref(*def_use, t, loc) by {
                if single_ref(*def_use, t, loc) {
                    let k = choose|k: int|
                        0 <= k < def_use.references@.len() && #[trigger] def_use.references@[k] == (
                        Reference { local: t, location: loc });
                    assert(def_use.references@[k].local == t);
                }
            }
        }
    }
    found
}

/// Statement `i` of `b`, assigning `t`, is inlined into statement `r`:
/// `def_use` has `t` read once, at `r` of the same block, and inlining is
/// allowed there.
pub open spec fn is_candidate(b: Seq<Statement>, node: NodeId, def_use: SsaDefUse, i: int, r: int, t: RcLocal) -> bool {
    &&& single_ref(def_use, t, Location::Block(node, r as usize))
    &&& 0 <= r
    &&& can_inline(b, i, r, t)
}

/// `cands` lists every candidate of `b` once, from the last statement to
/// the first.
pub open spec fn candidates_of(b: Seq<Statement>, node: NodeId, def_use: SsaDefUse, cands: Seq<(int, int, RcLocal)>) -> bool {
    &&& forall|k: int| 0 <= k < cands.len() ==> is_candidate(b, node, def_use, #[trigger] cands[k].0, cands[k].1, cands[k].2)
    &&& forall|k: int, m: int| 0 <= k < m < cands.len() ==> cands[k].0 > cands[m].0
    &&& forall|i: int, r: int, t: RcLocal| #[trigger] is_candidate(b, node, def_use, i, r, t) ==> exists|k: int|
        0 <= k < cands.len() && #[trigger] cands[k] == (i, r, t)
}

/// `after` is `before` once the candidates `cands` have been applied from
/// the last listed (the first statement) to the first listed, each shifted
/// by the `applied` assignments removed before it, and each only where it
/// is still allowed then.
pub open spec fn applied_all(before: Seq<Statement>, after: Seq<Statement>, cands: Seq<(int, int, RcLocal)>, applied: int) -> bool
    decreases cands.len(),
{
    if cands.len() == 0 {
        after == before && applied == 0
    } else {
        exists|mid: Seq<Statement>, a: int|
            applied_all(before, mid, cands.subrange(1, cands.len() as int), a) && #[trigger] applied_step(
                mid,
                after,
                cands[0],
                a,
                applied,
            )
    }
}

/// Candidate `c`, shifted by the `a` assignments removed before it, is
/// applied to `mid` where still allowed, giving `after`.
pub open spec fn applied_step(mid: Seq<Statement>, after: Seq<Statement>, c: (int, int, RcLocal), a: int, applied: int) -> bool {
    if c.0 >= a && can_inline(mid, c.0 - a, c.1 - a, c.2) {
        inlined(mid, after, c.0 - a, c.1 - a, c.2) && applied == a + 1
    } else {
        after == mid && applied == a
    }
}

/// Inlines, within the block of `node`, each single assignment `t = e`
/// whose target `def_use` shows read exactly once, later in the same block,
/// with no statement with side effects in between, into a statement that
/// can take the value (`can_substitute`: not one that itself assigns or
/// declares `t`). Candidates are found
/// from the last statement to the first and applied from the first on, so
/// that chains of such assignments collapse into one expression; one that
/// an earlier inlining made invalid is skipped.
pub fn inline_expressions(block: &mut Block, node: NodeId, def_use: &SsaDefUse)
    ensures
        exists|cands: Seq<(int, int, RcLocal)>, applied: int|
            candidates_of(old(block).0@, node, *def_use, cands) && #[trigger] applied_all(
                old(block).0@,
                final(block).0@,
                cands,
                applied,
            ),
{
    let ghost start = block.0@;
    let mut candidates: Vec<(usize, usize, RcLocal)> = Vec::new();
    let ghost mut cands: Seq<(int, int, RcLocal)> = Seq::empty();
    let mut index: usize = block.0.len();
    while index > 0
        invariant
            index <= block.0.len(),
            block.0@ == start,
            cands.len() == candidates@.len(),
            forall|k: int| 0 <= k < cands.len() ==> #[trigger] cands[k] == (
                candidates@[k].0 as int,
                candidates@[k].1 as int,
                candidates@[k].2,
            ),
            forall|k: int| 0 <= k < cands.len() ==> is_candidate(start, node, *def_use, #[trigger] cands[k].0, cands[k].1, cands[k].2) && cands[k].0 >= index,
            forall|k: int, m: int| 0 <= k < m < cands.len() ==> cands[k].0 > cands[m].0,
            forall|i: int, r: int, t: RcLocal| index <= i && #[trigger] is_candidate(start, node, *def_use, i, r, t) ==> exists|k: int|
                0 <= k < cands.len() && #[trigger] cands[k] == (i, r, t),
        decreases index,
    {
        index -= 1;
        let ghost prev = cands;
        let mut added = false;
        let target = single_target(&block.0[index]);
        let mut reference: Option<Location> = None;
        if let Some(t) = target {
            reference = single_reference(def_use, t);
            if let Some(Location::Block(n, r)) = reference {
                if n == node && r > index && can_inline_at(block, index, r, t) {
                    candidates.push((index, r, t));
                    proof {
                        cands = cands.push((index as int, r as int, t));
                    }
                    added = true;
                }
            }
        }
        proof {
            assert forall|k: int| 0 <= k < cands.len() implies #[trigger] cands[k] == (
                candidates@[k].0 as int,
                candidates@[k].1 as int,
                candidates@[k].2,
            ) by {
                if k < prev.len() {
                    assert(cands[k] == prev[k]);
                }
            }
            assert forall|i: int, r: int, t: RcLocal| index <= i && #[trigger] is_candidate(start, node, *def_use, i, r, t) implies exists|k: int|
                0 <= k < cands.len() && #[trigger] cands[k] == (i, r, t) by {
                if i > index {
                    let k = choose|k: int| 0 <= k < prev.len() && #[trigger] prev[k] == (i, r, t);
                    assert(cands[k] == prev[k]);
                } else {
                    assert(assigns_single(start[i], t));
                    let t2 = target->Some_0;
                    assert(start[i]->Assign_0.left@[0] == LValue::Local(t));
                    assert(start[i]->Assign_0.left@[0] == LValue::Local(t2));
                    let loc = Location::Block(node, r as usize);
                    assert(single_ref(*def_use, t, loc));
                    let l2 = reference->Some_0;
                    let k1 = choose|k: int|
                        0 <= k < def_use.references@.len() && #[trigger] def_use.references@[k] == (
                        Reference { local: t, location: loc }) && forall|m: int|
                        0 <= m < def_use.references@.len() && def_use.references@[m].local == t ==> m == k;
                    let k2 = choose|k: int|
                        0 <= k < def_use.references@.len() && #[trigger] def_use.references@[k] == (
                        Reference { local: t, location: l2 }) && forall|m: int|
                        0 <= m < def_use.references@.len() && def_use.references@[m].local == t ==> m == k;
                    assert(k1 == k2);
                    assert(added);
                    assert(cands[cands.len() - 1] == (i, r, t));
                }
            }
        }
    }
    proof {
        assert forall|k: int| 0 <= k < cands.len() implies #[trigger] cands[k].0 < cands[k].1 by {
            assert(is_candidate(start, node, *def_use, cands[k].0, cands[k].1, cands[k].2));
        }
    }
    let ghost mut applied_g: int = 0;
    let mut applied: usize = 0;
    let mut c: usize = candidates.len();
    proof {
        assert(cands.subrange(c as int, cands.len() as int) =~= Seq::<(int, int, RcLocal)>::empty());
    }
    while c > 0
        invariant
            c <= candidates.len(),
            cands.len() == candidates@.len(),
            forall|k: int| 0 <= k < cands.len() ==> #[trigger] cands[k] == (
                candidates@[k].0 as int,
                candidates@[k].1 as int,
                candidates@[k].2,
            ),
            applied + c <= candidates.len(),
            applied_g == applied as int,
            forall|k: int| 0 <= k < cands.len() ==> #[trigger] cands[k].0 < cands[k].1,
            applied_all(start, block.0@, cands.subrange(c as int, cands.len() as int), applied_g),
        decreases c,
    {
        c -= 1;
        let (i, r, t) = candidates[c];
        let ghost mid = block.0@;
        let ghost a0 = applied_g;
        let ghost rest = cands.subrange(c + 1, cands.len() as int);
        let mut done = false;
        if i >= applied && r >= applied {
            let i2 = i - applied;
            let r2 = r - applied;
            if can_inline_at(block, i2, r2, t) {
                inline_at(block, i2, r2, t);
                applied += 1;
                done = true;
            }
        }
        proof {
            let now = cands.subrange(c as int, cands.len() as int);
            assert(now.subrange(1, now.len() as int) =~= rest);
            assert(now[0] == cands[c as int]);
            assert(cands[c as int] == (i as int, r as int, t));
            if done {
                applied_g = a0 + 1;
                assert(inlined(mid, block.0@, i - a0, r - a0, t));
            } else {
                assert(block.0@ == mid);
                assert(!(i >= a0 && can_inline(mid, i - a0, r - a0, t)));
            }
            assert(applied_all(start, mid, now.subrange(1, now.len() as int), a0));
            assert(applied_step(mid, block.0@, now[0], a0, applied_g));
        }
    }
    proof {
        assert(cands.subrange(0, cands.len() as int) =~= cands);
        assert(candidates_of(start, node, *def_use, cands));
    }
}

/// A local occurs in a concatenation exactly when it occurs in a part.
pub proof fn lemma_concat_contains(a: Seq<RcLocal>, b: Seq<RcLocal>, x: RcLocal)
    ensures
        (a + b).contains(x) <==> a.contains(x) || b.contains(x),
{
    let c = a + b;
    if c.contains(x) {
        let k = choose|k: int| 0 <= k < c.len() && c[k] == x;
        if k < a.len() {
            assert(a[k] == x);
        } else {
            assert(b[k - a.len()] == x);
        }
    }
    if a.contains(x) {
        let k = choose|k: int| 0 <= k < a.len() && a[k] == x;
        assert(c[k] == x);
    }
    if b.contains(x) {
        let k = choose|k: int| 0 <= k < b.len() && b[k] == x;
        assert(c[k + a.len()] == x);
    }
}

/// Two copies of an expression read the same locals.
pub proof fn lemma_same_locals(a: RValue, b: RValue)
    requires
        rvalue_same(a, b),
    ensures
        rvalue_locals(a) == rvalue_locals(b),
    decreases a,
{
    match a {
        RValue::Binary(_, a1, a2) => {
            lemma_same_locals(*a1, *b->Binary_1);
            lemma_same_locals(*a2, *b->Binary_2);
        },
        RValue::Unary(_, a1) => {
            lemma_same_locals(*a1, *b->Unary_1);
        },
        RValue::Call(f, xs) => {
            lemma_same_locals(*f, *b->Call_0);
            lemma_same_locals_all(xs@, b->Call_1@);
        },
        RValue::Table(t) => {
            lemma_same_locals_all(t.0@, b->Table_0.0@);
        },
        _ => {},
    }
}

/// `lemma_same_locals` for lists.
pub proof fn lemma_same_locals_all(a: Seq<RValue>, b: Seq<RValue>)
    requires
        rvalues_same(a, b),
    ensures
        rvalues_locals(a) == rvalues_locals(b),
    decreases a,
{
    if a.len() > 0 {
        let a1 = a.subrange(0, a.len() - 1);
        let b1 = b.subrange(0, b.len() - 1);
        lemma_same_locals_all(a1, b1);
        lemma_same_locals(a[a.len() - 1], b[b.len() - 1]);
    }
}

/// After substituting `t` by a value that does not read `t`, `t` is gone.
pub proof fn lemma_substitution_clears(r: RValue, n: RValue, t: RcLocal, e: RValue)
    requires
        substituted(r, n, t, e),
        !rvalue_locals(e).contains(t),
    ensures
        !rvalue_locals(n).contains(t),
    decreases r,
{
    match r {
        RValue::Local(x) => {
            if x == t {
                lemma_same_locals(n, e);
            } else {
                assert(rvalue_locals(n) == seq![x]);
                assert(seq![x][0] == x);
            }
        },
        RValue::Binary(_, a, b) => {
            lemma_substitution_clears(*a, *n->Binary_1, t, e);
            lemma_substitution_clears(*b, *n->Binary_2, t, e);
            lemma_concat_contains(rvalue_locals(*n->Binary_1), rvalue_locals(*n->Binary_2), t);
        },
        RValue::Unary(_, a) => {
            lemma_substitution_clears(*a, *n->Unary_1, t, e);
        },
        RValue::Call(f, xs) => {
            lemma_substitution_clears(*f, *n->Call_0, t, e);
            lemma_substitution_clears_all(xs@, n->Call_1@, t, e);
            lemma_concat_contains(rvalue_locals(*n->Call_0), rvalues_locals(n->Call_1@), t);
        },
        RValue::Table(tb) => {
            lemma_substitution_clears_all(tb.0@, n->Table_0.0@, t, e);
        },
        _ => {},
    }
}

/// `lemma_substitution_clears` for lists.
pub proof fn lemma_substitution_clears_all(a: Seq<RValue>, b: Seq<RValue>, t: RcLocal, e: RValue)
    requires
        substituted_all(a, b, t, e),
        !rvalue_locals(e).contains(t),
    ensures
        !rvalues_locals(b).contains(t),
    decreases a,
{
    if a.len() > 0 {
        let a1 = a.subrange(0, a.len() - 1);
        let b1 = b.subrange(0, b.len() - 1);
        lemma_substitution_clears_all(a1, b1, t, e);
        lemma_substitution_clears(a[a.len() - 1], b[b.len() - 1], t, e);
        lemma_concat_contains(rvalues_locals(b1), rvalue_locals(b[b.len() - 1]), t);
    }
}

/// After substitution, targets other than the plain local `t` do not
/// mention `t`.
pub proof fn lemma_lvalues_clear(a: Seq<LValue>, b: Seq<LValue>, t: RcLocal, e: RValue)
    requires
        lvalues_substituted(a, b, t, e),
        !a.contains(LValue::Local(t)),
        !rvalue_locals(e).contains(t),
    ensures
        !lvalues_locals(b).contains(t),
    decreases a.len(),
{
    if a.len() > 0 {
        let a1 = a.subrange(0, a.len() - 1);
        let b1 = b.subrange(0, b.len() - 1);
        assert(!a1.contains(LValue::Local(t))) by {
            if a1.contains(LValue::Local(t)) {
                let k = choose|k: int| 0 <= k < a1.len() && a1[k] == LValue::Local(t);
                assert(a[k] == LValue::Local(t));
            }
        }
        lemma_lvalues_clear(a1, b1, t, e);
        let x = a[a.len() - 1];
        let y = b[b.len() - 1];
        match x {
            LValue::Local(l) => {
                assert(x != LValue::Local(t));
                assert(lvalue_locals(y) == seq![l]);
                assert(seq![l][0] == l);
            },
            LValue::Index(p, q) => {
                lemma_substitution_clears(*p, *y->Index_0, t, e);
                lemma_substitution_clears(*q, *y->Index_1, t, e);
                lemma_concat_contains(rvalue_locals(*y->Index_0), rvalue_locals(*y->Index_1), t);
            },
        }
        lemma_concat_contains(lvalues_locals(b1), lvalue_locals(y), t);
    }
}

/// Inlining removes its target: when `t` is assigned at `i` a value that
/// does not read `t`, and no statement after `i` but `r` mentions `t`, then
/// after inlining the block is one statement shorter, keeps the statements
/// before `i`, and mentions `t` nowhere from `i` on.
pub proof fn lemma_inline_clears_target(b: Seq<Statement>, n: Seq<Statement>, i: int, r: int, t: RcLocal)
    requires
        can_inline(b, i, r, t),
        inlined(b, n, i, r, t),
        !rvalue_locals(assigned_value(b[i])).contains(t),
        forall|j: int| i < j < b.len() && j != r ==> !#[trigger] stat_mentions(b[j], t),
    ensures
        n.len() == b.len() - 1,
        forall|j: int| 0 <= j < i ==> n[j] == b[j],
        forall|j: int| i <= j < n.len() ==> !#[trigger] stat_mentions(n[j], t),
{
    let e = assigned_value(b[i]);
    let s = n[r - 1];
    match b[r] {
        Statement::Assign(a) => {
            lemma_lvalues_clear(a.left@, s->Assign_0.left@, t, e);
            lemma_substitution_clears_all(a.right@, s->Assign_0.right@, t, e);
            lemma_concat_contains(lvalues_locals(s->Assign_0.left@), rvalues_locals(s->Assign_0.right@), t);
        },
        Statement::Return(x) => {
            lemma_substitution_clears_all(x.values@, s->Return_0.values@, t, e);
        },
        Statement::Call(x) => {
            lemma_substitution_clears(x.value, s->Call_0.value, t, e);
            lemma_substitution_clears_all(x.arguments@, s->Call_0.arguments@, t, e);
            lemma_concat_contains(rvalue_locals(s->Call_0.value), rvalues_locals(s->Call_0.arguments@), t);
        },
        Statement::If(x) => {
            lemma_substitution_clears(x.condition, s->If_0.condition, t, e);
        },
        Statement::While(x) => {
            lemma_substitution_clears(x.condition, s->While_0.condition, t, e);
        },
        Statement::Repeat(x) => {
            lemma_substitution_clears(x.condition, s->Repeat_0.condition, t, e);
        },
        Statement::NumericFor(x) => {
            let y = s->NumericFor_0;
            lemma_substitution_clears(x.initial, y.initial, t, e);
            lemma_substitution_clears(x.limit, y.limit, t, e);
            lemma_substitution_clears(x.step, y.step, t, e);
            assert(!seq![y.counter].contains(t)) by {
                assert(seq![y.counter][0] == y.counter);
            }
            lemma_concat_contains(seq![y.counter], rvalue_locals(y.initial), t);
            lemma_concat_contains(seq![y.counter] + rvalue_locals(y.initial), rvalue_locals(y.limit), t);
            lemma_concat_contains(
                seq![y.counter] + rvalue_locals(y.initial) + rvalue_locals(y.limit),
                rvalue_locals(y.step),
                t,
            );
        },
        Statement::GenericFor(x) => {
            let y = s->GenericFor_0;
            lemma_substitution_clears_all(x.right@, y.right@, t, e);
            lemma_concat_contains(y.res_locals@, rvalues_locals(y.right@), t);
        },
        _ => {},
    }
    assert(!stat_mentions(s, t));
    assert forall|j: int| i <= j < n.len() implies !#[trigger] stat_mentions(n[j], t) by {
        if j + 1 != r {
            assert(n[j] == b[j + 1]);
            assert(!stat_mentions(b[j + 1], t));
        }
    }
}

} // verus!
