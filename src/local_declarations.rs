use vstd::prelude::*;

use crate::ast::{
    lvalue_locals, lvalues_locals, block_mentions, header_declares, rvalue_locals, stat_locals, stat_mentions, Assign, Block,
    GenericFor, If, LValue, NumericFor, RcLocal, Repeat, Statement, While,
};
use crate::def_use::lemma_push_no_duplicates;
use crate::error::LiftError;
use indexmap::IndexSet;

verus! {

#[verifier::external_type_specification]
#[verifier::external_body]
#[verifier::reject_recursive_types(T)]
#[verifier::reject_recursive_types(S)]
pub struct ExIndexSet<T, S>(IndexSet<T, S>);

/// The locals an insertion-ordered set holds, in insertion order.
pub uninterp spec fn local_set_items(s: IndexSet<RcLocal>) -> Seq<RcLocal>;

/// Relies on `indexmap::IndexSet::new`: a new set is empty.
#[verifier::external_body]
fn local_set_new() -> (r: IndexSet<RcLocal>)
    ensures
        local_set_items(r) == Seq::<RcLocal>::empty(),
{
    IndexSet::new()
}

/// Relies on `indexmap::IndexSet::insert`: a value that the set lacks is
/// added after the others; an equal value already present leaves the set
/// and its order unchanged.
#[verifier::external_body]
fn local_set_insert(s: &mut IndexSet<RcLocal>, l: RcLocal)
    ensures
        local_set_items(*final(s)) == if local_set_items(*old(s)).contains(l) {
            local_set_items(*old(s))
        } else {
            local_set_items(*old(s)).push(l)
        },
{
    s.insert(l);
}

/// Relies on `indexmap::IndexSet::len`: the number of values held.
#[verifier::external_body]
fn local_set_len(s: &IndexSet<RcLocal>) -> (r: usize)
    ensures
        r == local_set_items(*s).len(),
{
    s.len()
}

/// Relies on `indexmap::IndexSet::get_index`: the value at a valid index,
/// counted in insertion order.
#[verifier::external_body]
fn local_set_get(s: &IndexSet<RcLocal>, i: usize) -> (r: RcLocal)
    requires
        i < local_set_items(*s).len(),
    ensures
        r == local_set_items(*s)[i as int],
{
    *s.get_index(i).unwrap()
}

/// Where a local that a single statement of a block uses gets declared.
#[derive(Debug, Clone, Copy, PartialEq, Eq, Structural)]
pub enum Placement {
    /// Before, or fused with, the statement itself.
    Here,
    /// Inside the then-branch of an `if`.
    Then,
    /// Inside the else-branch of an `if`.
    Else,
    /// Inside the body of a loop.
    Body,
    /// By the header of a `for` loop, which declares its own locals.
    Header,
}

/// Where the declaration of `l` goes when `s` is its only user in a block.
pub open spec fn placement(s: Statement, l: RcLocal) -> Placement {
    match s {
        Statement::If(x) => if rvalue_locals(x.condition).contains(l) {
            Placement::Here
        } else if block_mentions(x.then_block.0@, l) && !block_mentions(x.else_block.0@, l) {
            Placement::Then
        } else if block_mentions(x.else_block.0@, l) && !block_mentions(x.then_block.0@, l) {
            Placement::Else
        } else {
            Placement::Here
        },
        Statement::While(x) => if rvalue_locals(x.condition).contains(l) {
            Placement::Here
        } else {
            Placement::Body
        },
        Statement::Repeat(x) => if block_mentions(x.block.0@, l) {
            Placement::Body
        } else {
            Placement::Here
        },
        Statement::NumericFor(x) => if x.counter == l {
            Placement::Header
        } else if stat_locals(s).contains(l) {
            Placement::Here
        } else {
            Placement::Body
        },
        Statement::GenericFor(x) => if x.res_locals@.contains(l) {
            Placement::Header
        } else if stat_locals(s).contains(l) {
            Placement::Here
        } else {
            Placement::Body
        },
        _ => Placement::Here,
    }
}

/// `i` is the first statement of `b` that mentions `l`.
pub open spec fn is_first_use(b: Seq<Statement>, l: RcLocal, i: int) -> bool {
    0 <= i < b.len() && stat_mentions(b[i], l) && forall|j: int|
        0 <= j < i ==> !#[trigger] stat_mentions(b[j], l)
}

pub open spec fn first_use(b: Seq<Statement>, l: RcLocal) -> int {
    choose|i: int| is_first_use(b, l, i)
}

/// No statement of `b` but the one at `i` mentions `l`.
pub open spec fn used_only_at(b: Seq<Statement>, l: RcLocal, i: int) -> bool {
    forall|j: int| 0 <= j < b.len() && j != i ==> !#[trigger] stat_mentions(b[j], l)
}

/// A statement that declares locals and assigns nothing.
pub open spec fn is_pure_declaration(s: Statement) -> bool {
    &&& s is Assign
    &&& s->Assign_0.prefix
    &&& s->Assign_0.right@.len() == 0
}

/// An assignment whose only target is `l`.
pub open spec fn assigns_only(s: Statement, l: RcLocal) -> bool {
    &&& s is Assign
    &&& s->Assign_0.left@.len() == 1
    &&& s->Assign_0.left@[0] == LValue::Local(l)
}

/// The declaration `local l`.
pub open spec fn is_declaration_of(s: Statement, l: RcLocal) -> bool {
    &&& is_pure_declaration(s)
    &&& s->Assign_0.left@ == seq![LValue::Local(l)]
}

/// A loop header at `i` or later in `b` declares `l`.
pub open spec fn header_from(b: Seq<Statement>, l: RcLocal, i: int) -> bool {
    exists|j: int| i <= j < b.len() && #[trigger] header_declares(b[j], l)
}

/// Declaring `l` in `b` cannot succeed: in the block where `l` has to be
/// declared, a loop header declares `l` after a statement that uses it, or
/// the first statement using `l` is a loop header declaring it and `l` is
/// used again after the loop.
pub open spec fn malformed(b: Seq<Statement>, l: RcLocal) -> bool
    decreases b,
{
    let i = first_use(b, l);
    if block_mentions(b, l) && 0 <= i < b.len() {
        if header_from(b, l, i + 1) || (!used_only_at(b, l, i) && header_declares(b[i], l)) {
            true
        } else if declares(b[i], l) {
            false
        } else if used_only_at(b, l, i) {
            match b[i] {
                Statement::If(x) => if placement(b[i], l) == Placement::Then {
                    malformed(x.then_block.0@, l)
                } else if placement(b[i], l) == Placement::Else {
                    malformed(x.else_block.0@, l)
                } else {
                    false
                },
                Statement::While(x) => placement(b[i], l) == Placement::Body && malformed(
                    x.block.0@,
                    l,
                ),
                Statement::Repeat(x) => placement(b[i], l) == Placement::Body && malformed(
                    x.block.0@,
                    l,
                ),
                Statement::NumericFor(x) => placement(b[i], l) == Placement::Body && malformed(
                    x.block.0@,
                    l,
                ),
                Statement::GenericFor(x) => placement(b[i], l) == Placement::Body && malformed(
                    x.block.0@,
                    l,
                ),
                _ => false,
            }
        } else {
            false
        }
    } else {
        false
    }
}


/// `new` is `old` with `l` declared at the statement `i` of `old` itself:
/// an assignment to `l` alone becomes a declaring one, a pure declaration
/// just before `i` takes `l` as one more target, or else `local l` is
/// inserted before `i`.
pub open spec fn declared_at(old: Seq<Statement>, new: Seq<Statement>, l: RcLocal, i: int) -> bool {
    if assigns_only(old[i], l) {
        new == old.update(
            i,
            Statement::Assign(
                Assign { left: old[i]->Assign_0.left, right: old[i]->Assign_0.right, prefix: true },
            ),
        )
    } else if i > 0 && is_pure_declaration(old[i - 1]) {
        &&& new.len() == old.len()
        &&& forall|j: int| 0 <= j < old.len() && j != i - 1 ==> new[j] == old[j]
        &&& new[i - 1] is Assign
        &&& new[i - 1]->Assign_0.prefix
        &&& new[i - 1]->Assign_0.right == old[i - 1]->Assign_0.right
        &&& new[i - 1]->Assign_0.left@ == old[i - 1]->Assign_0.left@.push(LValue::Local(l))
    } else {
        &&& new.len() == old.len() + 1
        &&& forall|j: int| 0 <= j < i ==> new[j] == old[j]
        &&& forall|j: int| i <= j < old.len() ==> new[j + 1] == old[j]
        &&& is_declaration_of(new[i], l)
    }
}

/// `new` is `old` with `l` declared once, at the tightest place: inside the
/// one branch or loop body that holds every use of `l`, by a loop header
/// that declares `l`, or else at the first statement that uses it.
pub open spec fn declared_in(old: Seq<Statement>, new: Seq<Statement>, l: RcLocal) -> bool
    decreases old,
{
    let i = first_use(old, l);
    if !(block_mentions(old, l) && 0 <= i < old.len()) || declares(old[i], l) {
        new == old
    } else if used_only_at(old, l, i) && placement(old[i], l) != Placement::Here {
        if placement(old[i], l) == Placement::Header {
            new == old
        } else {
            &&& new.len() == old.len()
            &&& forall|j: int| 0 <= j < old.len() && j != i ==> new[j] == old[j]
            &&& match old[i] {
                Statement::If(x) => {
                    &&& new[i] is If
                    &&& new[i]->If_0.condition == x.condition
                    &&& if placement(old[i], l) == Placement::Then {
                        &&& new[i]->If_0.else_block == x.else_block
                        &&& declared_in(x.then_block.0@, new[i]->If_0.then_block.0@, l)
                    } else {
                        &&& new[i]->If_0.then_block == x.then_block
                        &&& declared_in(x.else_block.0@, new[i]->If_0.else_block.0@, l)
                    }
                },
                Statement::While(x) => {
                    &&& new[i] is While
                    &&& new[i]->While_0.condition == x.condition
                    &&& declared_in(x.block.0@, new[i]->While_0.block.0@, l)
                },
                Statement::Repeat(x) => {
                    &&& new[i] is Repeat
                    &&& new[i]->Repeat_0.condition == x.condition
                    &&& declared_in(x.block.0@, new[i]->Repeat_0.block.0@, l)
                },
                Statement::NumericFor(x) => {
                    &&& new[i] is NumericFor
                    &&& new[i]->NumericFor_0.counter == x.counter
                    &&& new[i]->NumericFor_0.initial == x.initial
                    &&& new[i]->NumericFor_0.limit == x.limit
                    &&& new[i]->NumericFor_0.step == x.step
                    &&& declared_in(x.block.0@, new[i]->NumericFor_0.block.0@, l)
                },
                Statement::GenericFor(x) => {
                    &&& new[i] is GenericFor
                    &&& new[i]->GenericFor_0.res_locals == x.res_locals
                    &&& new[i]->GenericFor_0.right == x.right
                    &&& declared_in(x.block.0@, new[i]->GenericFor_0.block.0@, l)
                },
                _ => new == old,
            }
        }
    } else {
        declared_at(old, new, l, i)
    }
}


/// Whether `l` is in `v`.
pub fn contains_local(v: &Vec<RcLocal>, l: RcLocal) -> (r: bool)
    ensures
        r == v@.contains(l),
{
    let mut i: usize = 0;
    while i < v.len()
        invariant
            0 <= i <= v.len(),
            forall|j: int| 0 <= j < i ==> v@[j] != l,
        decreases v.len() - i,
    {
        if v[i] == l {
            return true;
        }
        i += 1;
    }
    false
}

/// Whether `l` occurs in `s`, nested blocks included.
pub fn stat_mentions_local(s: &Statement, l: RcLocal) -> (r: bool)
    ensures
        r == stat_mentions(*s, l),
    decreases s,
{
    let values = s.values();
    if contains_local(&values, l) {
        return true;
    }
    match s {
        Statement::If(x) => block_mentions_local(&x.then_block, l) || block_mentions_local(
            &x.else_block,
            l,
        ),
        Statement::While(x) => block_mentions_local(&x.block, l),
        Statement::Repeat(x) => block_mentions_local(&x.block, l),
        Statement::NumericFor(x) => block_mentions_local(&x.block, l),
        Statement::GenericFor(x) => block_mentions_local(&x.block, l),
        _ => false,
    }
}

/// Whether `l` occurs anywhere in `b`.
pub fn block_mentions_local(b: &Block, l: RcLocal) -> (r: bool)
    ensures
        r == block_mentions(b.0@, l),
    decreases b,
{
    let mut i: usize = 0;
    while i < b.0.len()
        invariant
            0 <= i <= b.0.len(),
            forall|j: int| 0 <= j < i ==> !#[trigger] stat_mentions(b.0@[j], l),
        decreases b.0.len() - i,
    {
        if stat_mentions_local(&b.0[i], l) {
            proof {
                lemma_block_mentions(b.0@, l);
            }
            return true;
        }
        i += 1;
    }
    proof {
        lemma_block_mentions(b.0@, l);
    }
    false
}

/// `l` occurs in `b` exactly when one of its statements mentions it.
pub proof fn lemma_block_mentions(b: Seq<Statement>, l: RcLocal)
    ensures
        block_mentions(b, l) <==> exists|i: int| 0 <= i < b.len() && #[trigger] stat_mentions(b[i], l),
    decreases b.len(),
{
    if b.len() > 0 {
        let p = b.subrange(0, b.len() - 1);
        lemma_block_mentions(p, l);
        assert(block_mentions(b, l) == (block_mentions(p, l) || stat_mentions(b[b.len() - 1], l)));
        if block_mentions(p, l) {
            let k = choose|k: int| 0 <= k < p.len() && #[trigger] stat_mentions(p[k], l);
            assert(b[k] == p[k]);
        }
        if exists|i: int| 0 <= i < b.len() && #[trigger] stat_mentions(b[i], l) {
            let k = choose|k: int| 0 <= k < b.len() && #[trigger] stat_mentions(b[k], l);
            if k < b.len() - 1 {
                assert(p[k] == b[k]);
            }
        }
    }
}

/// The first statement of `b` that mentions `l`, and whether another one
/// does too.
fn find_uses(b: &Block, l: RcLocal) -> (r: (usize, bool))
    requires
        block_mentions(b.0@, l),
    ensures
        is_first_use(b.0@, l, r.0 as int),
        r.0 == first_use(b.0@, l),
        r.1 == !used_only_at(b.0@, l, r.0 as int),
{
    let n = b.0.len();
    let mut first: usize = n;
    let mut multiple = false;
    let mut i: usize = 0;
    while i < n
        invariant
            n == b.0.len(),
            0 <= i <= n,
            first <= n,
            first == n ==> forall|j: int| 0 <= j < i ==> !#[trigger] stat_mentions(b.0@[j], l),
            first == n ==> !multiple,
            first < n ==> first < i && is_first_use(b.0@, l, first as int),
            first < n ==> (multiple <==> exists|j: int|
                first < j < i && #[trigger] stat_mentions(b.0@[j], l)),
        decreases n - i,
    {
        if stat_mentions_local(&b.0[i], l) {
            if first == n {
                first = i;
            } else {
                multiple = true;
            }
        }
        i += 1;
    }
    proof {
        lemma_block_mentions(b.0@, l);
        if first == n {
            let k = choose|k: int| 0 <= k < b.0@.len() && #[trigger] stat_mentions(b.0@[k], l);
            assert(stat_mentions(b.0@[k], l));
        }
        assert(is_first_use(b.0@, l, first as int));
        let c = first_use(b.0@, l);
        assert(is_first_use(b.0@, l, c));
        if c < first {
            assert(!stat_mentions(b.0@[c], l));
        }
        if first < c {
            assert(!stat_mentions(b.0@[first as int], l));
        }
        if !multiple {
            assert forall|j: int| 0 <= j < b.0@.len() && j != first implies !#[trigger] stat_mentions(
                b.0@[j],
                l,
            ) by {
                if j > first {
                    if stat_mentions(b.0@[j], l) {
                        assert(exists|k: int| first < k < i && #[trigger] stat_mentions(b.0@[k], l));
                    }
                }
            }
        }
    }
    (first, multiple)
}


/// Whether a loop header declares `l`.
fn header_declares_local(s: &Statement, l: RcLocal) -> (r: bool)
    ensures
        r == header_declares(*s, l),
{
    match s {
        Statement::NumericFor(x) => x.counter == l,
        Statement::GenericFor(x) => contains_local(&x.res_locals, l),
        _ => false,
    }
}

/// Where `l` is declared when `s` is its only user.
pub fn placement_of(s: &Statement, l: RcLocal) -> (r: Placement)
    ensures
        r == placement(*s, l),
{
    match s {
        Statement::If(x) => {
            let c = x.condition.values_read();
            if contains_local(&c, l) {
                Placement::Here
            } else {
                let t = block_mentions_local(&x.then_block, l);
                let e = block_mentions_local(&x.else_block, l);
                if t && !e {
                    Placement::Then
                } else if e && !t {
                    Placement::Else
                } else {
                    Placement::Here
                }
            }
        },
        Statement::While(x) => {
            let c = x.condition.values_read();
            if contains_local(&c, l) {
                Placement::Here
            } else {
                Placement::Body
            }
        },
        Statement::Repeat(x) => {
            if block_mentions_local(&x.block, l) {
                Placement::Body
            } else {
                Placement::Here
            }
        },
        Statement::NumericFor(x) => {
            if x.counter == l {
                Placement::Header
            } else {
                let v = s.values();
                if contains_local(&v, l) {
                    Placement::Here
                } else {
                    Placement::Body
                }
            }
        },
        Statement::GenericFor(x) => {
            if contains_local(&x.res_locals, l) {
                Placement::Header
            } else {
                let v = s.values();
                if contains_local(&v, l) {
                    Placement::Here
                } else {
                    Placement::Body
                }
            }
        },
        _ => Placement::Here,
    }
}

/// Whether a target of `v` is the local `l`.
fn targets_contain(v: &Vec<LValue>, l: RcLocal) -> (r: bool)
    ensures
        r == v@.contains(LValue::Local(l)),
{
    let mut i: usize = 0;
    while i < v.len()
        invariant
            0 <= i <= v.len(),
            forall|j: int| 0 <= j < i ==> v@[j] != LValue::Local(l),
        decreases v.len() - i,
    {
        match &v[i] {
            LValue::Local(x) => {
                if *x == l {
                    proof {
                        assert(v@[i as int] == LValue::Local(l));
                    }
                    return true;
                }
            },
            _ => {},
        }
        i += 1;
    }
    false
}

/// Whether `s` declares `l`.
pub fn declares_stat(s: &Statement, l: RcLocal) -> (r: bool)
    ensures
        r == declares(*s, l),
{
    match s {
        Statement::Assign(a) => a.prefix && targets_contain(&a.left, l),
        _ => false,
    }
}

/// Whether a loop header at `i` or later in `b` declares `l`.
fn header_from_exec(b: &Block, l: RcLocal, i: usize) -> (r: bool)
    requires
        i <= b.0@.len(),
    ensures
        r == header_from(b.0@, l, i as int),
{
    let mut j: usize = i;
    while j < b.0.len()
        invariant
            i <= j <= b.0.len(),
            forall|k: int| i <= k < j ==> !#[trigger] header_declares(b.0@[k], l),
        decreases b.0.len() - j,
    {
        if header_declares_local(&b.0[j], l) {
            return true;
        }
        j += 1;
    }
    false
}

/// Whether declaring `l` in `b` fails.
pub fn is_malformed(b: &Block, l: RcLocal) -> (r: bool)
    ensures
        r == malformed(b.0@, l),
    decreases b,
{
    if !block_mentions_local(b, l) {
        return false;
    }
    let (i, multiple) = find_uses(b, l);
    let s = &b.0[i];
    let n = b.0.len();
    assert(i < n);
    if header_from_exec(b, l, i + 1) || (multiple && header_declares_local(s, l)) {
        return true;
    }
    if declares_stat(s, l) || multiple {
        return false;
    }
    let p = placement_of(s, l);
    match s {
        Statement::If(x) => {
            if p == Placement::Then {
                is_malformed(&x.then_block, l)
            } else if p == Placement::Else {
                is_malformed(&x.else_block, l)
            } else {
                false
            }
        },
        Statement::While(x) => p == Placement::Body && is_malformed(&x.block, l),
        Statement::Repeat(x) => p == Placement::Body && is_malformed(&x.block, l),
        Statement::NumericFor(x) => p == Placement::Body && is_malformed(&x.block, l),
        Statement::GenericFor(x) => p == Placement::Body && is_malformed(&x.block, l),
        _ => false,
    }
}


/// Declares `l` in `block`, which is known to be free of contradictions.
fn place(block: &mut Block, l: RcLocal)
    requires
        block_mentions(old(block).0@, l),
        !malformed(old(block).0@, l),
    ensures
        declared_in(old(block).0@, final(block).0@, l),
    decreases *old(block),
{
    let ghost before = block.0@;
    let (i, multiple) = find_uses(block, l);
    if declares_stat(&block.0[i], l) {
        return;
    }
    if !multiple {
        let p = placement_of(&block.0[i], l);
        if p == Placement::Header {
            return;
        }
        if p != Placement::Here {
            let st = block.0.remove(i);
            let new_st = match st {
                Statement::If(x) => {
                    let If { condition, mut then_block, mut else_block } = x;
                    if p == Placement::Then {
                        place(&mut then_block, l);
                    } else {
                        place(&mut else_block, l);
                    }
                    Statement::If(If { condition, then_block, else_block })
                },
                Statement::While(x) => {
                    let While { condition, block: mut body } = x;
                    place(&mut body, l);
                    Statement::While(While { condition, block: body })
                },
                Statement::Repeat(x) => {
                    let Repeat { condition, block: mut body } = x;
                    place(&mut body, l);
                    Statement::Repeat(Repeat { condition, block: body })
                },
                Statement::NumericFor(x) => {
                    let NumericFor { counter, initial, limit, step, block: mut body } = x;
                    place(&mut body, l);
                    Statement::NumericFor(NumericFor { counter, initial, limit, step, block: body })
                },
                Statement::GenericFor(x) => {
                    let GenericFor { res_locals, right, block: mut body } = x;
                    place(&mut body, l);
                    Statement::GenericFor(GenericFor { res_locals, right, block: body })
                },
                other => other,
            };
            block.0.insert(i, new_st);
            return;
        }
    }
    if assigns_only_local(&block.0[i], l) {
        let st = block.0.remove(i);
        match st {
            Statement::Assign(a) => {
                let Assign { left, right, prefix: _ } = a;
                block.0.insert(i, Statement::Assign(Assign { left, right, prefix: true }));
                proof {
                    assert(block.0@ =~= before.update(
                        i as int,
                        Statement::Assign(
                            Assign {
                                left: before[i as int]->Assign_0.left,
                                right: before[i as int]->Assign_0.right,
                                prefix: true,
                            },
                        ),
                    ));
                }
            },
            other => block.0.insert(i, other),
        }
    } else if i > 0 && is_pure_declaration_stat(&block.0[i - 1]) {
        let st = block.0.remove(i - 1);
        match st {
            Statement::Assign(a) => {
                let Assign { mut left, right, prefix } = a;
                left.push(LValue::Local(l));
                let merged = Statement::Assign(Assign { left, right, prefix });
                block.0.insert(i - 1, merged);
                proof {
                    assert(block.0@ =~= before.update(i - 1, merged));
                }
            },
            other => block.0.insert(i - 1, other),
        }
    } else {
        let mut left: Vec<LValue> = Vec::new();
        left.push(LValue::Local(l));
        proof {
            assert(left@ =~= seq![LValue::Local(l)]);
        }
        let declaration = Assign { left, right: Vec::new(), prefix: true };
        let d = Statement::Assign(declaration);
        block.0.insert(i, d);
        proof {
            assert(block.0@ =~= before.insert(i as int, d));
            assert(is_declaration_of(d, l));
        }
    }
    proof {
        assert(declared_at(before, block.0@, l, i as int));
    }
}

/// Whether `s` assigns to `l` and nothing else.
fn assigns_only_local(s: &Statement, l: RcLocal) -> (r: bool)
    ensures
        r == assigns_only(*s, l),
{
    match s {
        Statement::Assign(a) => {
            if a.left.len() != 1 {
                return false;
            }
            match &a.left[0] {
                LValue::Local(x) => *x == l,
                _ => false,
            }
        },
        _ => false,
    }
}

/// Whether `s` is a declaration without values.
fn is_pure_declaration_stat(s: &Statement) -> (r: bool)
    ensures
        r == is_pure_declaration(*s),
{
    match s {
        Statement::Assign(a) => a.prefix && a.right.len() == 0,
        _ => false,
    }
}

/// Declares `local` in `block` at the tightest scope that holds all of its
/// uses (see `declared_in`). Fails, leaving `block` as it was, where
/// `malformed` holds: in the block where `local` has to be declared, a loop
/// header declaring it comes after a use of it, or is its first use and
/// `local` is used after the loop too.
pub fn declare_local(block: &mut Block, local: RcLocal) -> (r: Result<(), LiftError>)
    requires
        block_mentions(old(block).0@, local),
    ensures
        r is Err <==> malformed(old(block).0@, local),
        r is Err ==> r == Err::<(), LiftError>(LiftError::MalformedAst) && *final(block) == *old(block),
        r is Ok ==> declared_in(old(block).0@, final(block).0@, local),
{
    if is_malformed(block, local) {
        return Err(LiftError::MalformedAst);
    }
    place(block, local);
    Ok(())
}


/// `locals` grew from `prev` by the locals of `extra` that it lacked: the
/// old entries keep their places and no local is listed twice.
pub open spec fn grown_by(prev: Seq<RcLocal>, locals: Seq<RcLocal>, extra: spec_fn(RcLocal) -> bool) -> bool {
    &&& locals.len() >= prev.len()
    &&& locals.subrange(0, prev.len() as int) == prev
    &&& forall|x: RcLocal| #[trigger] locals.contains(x) <==> prev.contains(x) || extra(x)
    &&& prev.no_duplicates() ==> locals.no_duplicates()
}

/// `acc` with `x` appended unless it holds `x` already.
pub open spec fn add_one(acc: Seq<RcLocal>, x: RcLocal) -> Seq<RcLocal> {
    if acc.contains(x) {
        acc
    } else {
        acc.push(x)
    }
}

/// `acc` with each local of `xs` added in turn by `add_one`.
pub open spec fn add_all(acc: Seq<RcLocal>, xs: Seq<RcLocal>) -> Seq<RcLocal>
    decreases xs.len(),
{
    if xs.len() == 0 {
        acc
    } else {
        add_one(add_all(acc, xs.subrange(0, xs.len() - 1)), xs[xs.len() - 1])
    }
}

/// `acc` extended by the locals of `s` in order of first occurrence: those
/// of the statement itself, then those of its nested blocks in order.
pub open spec fn collected_stat(acc: Seq<RcLocal>, s: Statement) -> Seq<RcLocal>
    decreases s,
{
    let a = add_all(acc, stat_locals(s));
    match s {
        Statement::If(x) => collected_block(collected_block(a, x.then_block.0@), x.else_block.0@),
        Statement::While(x) => collected_block(a, x.block.0@),
        Statement::Repeat(x) => collected_block(a, x.block.0@),
        Statement::NumericFor(x) => collected_block(a, x.block.0@),
        Statement::GenericFor(x) => collected_block(a, x.block.0@),
        _ => a,
    }
}

/// `acc` extended by the locals of `b` in order of first occurrence.
pub open spec fn collected_block(acc: Seq<RcLocal>, b: Seq<Statement>) -> Seq<RcLocal>
    decreases b,
{
    if b.len() == 0 {
        acc
    } else {
        collected_stat(collected_block(acc, b.subrange(0, b.len() - 1)), b[b.len() - 1])
    }
}

/// Appends `l` to `locals` unless it is there already.
fn add_local(locals: &mut IndexSet<RcLocal>, l: RcLocal)
    ensures
        local_set_items(*final(locals)) == add_one(local_set_items(*old(locals)), l),
        grown_by(local_set_items(*old(locals)), local_set_items(*final(locals)), |x: RcLocal| x == l),
{
    let ghost prev = local_set_items(*locals);
    local_set_insert(locals, l);
    proof {
        let now = local_set_items(*locals);
        if !prev.contains(l) {
            assert(now.subrange(0, prev.len() as int) =~= prev);
            assert forall|x: RcLocal| #[trigger] now.contains(x) <==> prev.contains(x) || x == l by {
                if now.contains(x) && x != l {
                    let k = choose|k: int| 0 <= k < now.len() && now[k] == x;
                    assert(prev[k] == x);
                }
                if x == l {
                    assert(now[prev.len() as int] == l);
                }
                if prev.contains(x) {
                    let k = choose|k: int| 0 <= k < prev.len() && prev[k] == x;
                    assert(now[k] == x);
                }
            }
            if prev.no_duplicates() {
                lemma_push_no_duplicates(prev, l);
            }
        } else {
            assert(now.subrange(0, now.len() as int) =~= now);
        }
    }
}

/// Adds to `locals`, after the locals it holds, each local of `stat` and of
/// its nested blocks that it lacks. (The walk adds them in order of first
/// occurrence; the contract states which are added, not their order.)
pub fn collect_stat_locals(stat: &Statement, locals: &mut IndexSet<RcLocal>)
    ensures
        grown_by(
            local_set_items(*old(locals)),
            local_set_items(*final(locals)),
            |x: RcLocal| stat_mentions(*stat, x),
        ),
        local_set_items(*final(locals)) == collected_stat(local_set_items(*old(locals)), *stat),
    decreases stat,
{
    let ghost start = local_set_items(*locals);
    let values = stat.values();
    let mut k: usize = 0;
    proof {
        assert(local_set_items(*locals).subrange(0, local_set_items(*locals).len() as int) =~= local_set_items(*locals));
        assert(values@.subrange(0, 0) =~= Seq::<RcLocal>::empty());
    }
    while k < values.len()
        invariant
            0 <= k <= values.len(),
            grown_by(start, local_set_items(*locals), |x: RcLocal| values@.subrange(0, k as int).contains(x)),
            local_set_items(*locals) == add_all(start, values@.subrange(0, k as int)),
        decreases values.len() - k,
    {
        let ghost mid = local_set_items(*locals);
        add_local(locals, values[k]);
        k += 1;
        proof {
            let q = values@.subrange(0, k as int);
            let p = values@.subrange(0, k - 1);
            assert(q.subrange(0, k - 1) =~= p);
            assert forall|x: RcLocal| q.contains(x) <==> p.contains(x) || x == values@[k - 1] by {
                if q.contains(x) {
                    let j = choose|j: int| 0 <= j < q.len() && q[j] == x;
                    if j < k - 1 {
                        assert(p[j] == x);
                    }
                }
                if p.contains(x) {
                    let j = choose|j: int| 0 <= j < p.len() && p[j] == x;
                    assert(q[j] == x);
                }
                if x == values@[k - 1] {
                    assert(q[k - 1] == x);
                }
            }
            assert(local_set_items(*locals).subrange(0, mid.len() as int).subrange(0, start.len() as int)
                =~= local_set_items(*locals).subrange(0, start.len() as int));
        }
    }
    proof {
        assert(values@.subrange(0, values@.len() as int) =~= values@);
    }
    let ghost mid = local_set_items(*locals);
    match stat {
        Statement::If(x) => {
            collect_block_locals(&x.then_block, locals);
            let ghost mid2 = local_set_items(*locals);
            collect_block_locals(&x.else_block, locals);
            proof {
                assert(local_set_items(*locals).subrange(0, mid2.len() as int).subrange(0, start.len() as int)
                    =~= local_set_items(*locals).subrange(0, start.len() as int));
                assert(mid2.subrange(0, mid.len() as int).subrange(0, start.len() as int)
                    =~= mid2.subrange(0, start.len() as int));
                assert(local_set_items(*locals).subrange(0, mid2.len() as int).subrange(0, mid.len() as int)
                    =~= local_set_items(*locals).subrange(0, mid.len() as int));
            }
        },
        Statement::While(x) => collect_block_locals(&x.block, locals),
        Statement::Repeat(x) => collect_block_locals(&x.block, locals),
        Statement::NumericFor(x) => collect_block_locals(&x.block, locals),
        Statement::GenericFor(x) => collect_block_locals(&x.block, locals),
        _ => {},
    }
    proof {
        assert(local_set_items(*locals).subrange(0, mid.len() as int).subrange(0, start.len() as int)
            =~= local_set_items(*locals).subrange(0, start.len() as int));
    }
}

/// Adds to `locals`, after the locals it holds, each local of `block` that
/// it lacks. (The walk adds them in order of first occurrence; the contract
/// states which are added, not their order.)
pub fn collect_block_locals(block: &Block, locals: &mut IndexSet<RcLocal>)
    ensures
        grown_by(
            local_set_items(*old(locals)),
            local_set_items(*final(locals)),
            |x: RcLocal| block_mentions(block.0@, x),
        ),
        local_set_items(*final(locals)) == collected_block(local_set_items(*old(locals)), block.0@),
    decreases block,
{
    let ghost start = local_set_items(*locals);
    let mut i: usize = 0;
    proof {
        assert(local_set_items(*locals).subrange(0, local_set_items(*locals).len() as int) =~= local_set_items(*locals));
    }
    while i < block.0.len()
        invariant
            0 <= i <= block.0.len(),
            grown_by(
                start,
                local_set_items(*locals),
                |x: RcLocal| block_mentions(block.0@.subrange(0, i as int), x),
            ),
            local_set_items(*locals) == collected_block(start, block.0@.subrange(0, i as int)),
        decreases block.0.len() - i,
    {
        let ghost mid = local_set_items(*locals);
        collect_stat_locals(&block.0[i], locals);
        i += 1;
        proof {
            assert(block.0@.subrange(0, i as int).subrange(0, i - 1) =~= block.0@.subrange(
                0,
                i - 1,
            ));
            assert(local_set_items(*locals).subrange(0, mid.len() as int).subrange(0, start.len() as int)
                =~= local_set_items(*locals).subrange(0, start.len() as int));
        }
    }
    proof {
        assert(block.0@.subrange(0, block.0@.len() as int) =~= block.0@);
    }
}


/// `xs` without the locals of `ignore`, in the same order.
pub open spec fn without(xs: Seq<RcLocal>, ignore: Seq<RcLocal>) -> Seq<RcLocal>
    decreases xs.len(),
{
    if xs.len() == 0 {
        xs
    } else {
        let r = without(xs.subrange(0, xs.len() - 1), ignore);
        if ignore.contains(xs[xs.len() - 1]) {
            r
        } else {
            r.push(xs[xs.len() - 1])
        }
    }
}

/// One step of the declaration pass: `l` is declared if it occurs.
pub open spec fn declare_step(old: Seq<Statement>, new: Seq<Statement>, l: RcLocal) -> bool {
    if block_mentions(old, l) {
        declared_in(old, new, l)
    } else {
        new == old
    }
}

/// `new` is `old` after declaring each local of `order`, in that order.
pub open spec fn declared_all(old: Seq<Statement>, new: Seq<Statement>, order: Seq<RcLocal>) -> bool
    decreases order.len(),
{
    if order.len() == 0 {
        new == old
    } else {
        exists|mid: Seq<Statement>|
            declared_all(old, mid, order.subrange(0, order.len() - 1)) && #[trigger] declare_step(
                mid,
                new,
                order[order.len() - 1],
            )
    }
}

/// `order` lists, once each, the locals of `b` that are not ignored.
pub open spec fn locals_to_declare(b: Seq<Statement>, ignore: Seq<RcLocal>, order: Seq<RcLocal>) -> bool {
    &&& order.no_duplicates()
    &&& forall|x: RcLocal| #[trigger] order.contains(x) <==> block_mentions(b, x) && !ignore.contains(x)
}

/// Declares every local of `block` but those in `locals_to_ignore`, one
/// after the other (the walk takes them in order of first occurrence; the
/// contract states that some order listing each once was used). On failure
/// the locals before the offending one stay declared.
pub fn declare_locals(block: &mut Block, locals_to_ignore: &Vec<RcLocal>) -> (r: Result<(), LiftError>)
    ensures
        ({
            let order = without(collected_block(Seq::empty(), old(block).0@), locals_to_ignore@);
            &&& locals_to_declare(old(block).0@, locals_to_ignore@, order)
            &&& r is Ok ==> declared_all(old(block).0@, final(block).0@, order)
            &&& r is Err ==> exists|k: int|
                0 <= k < order.len() && declared_all(
                    old(block).0@,
                    final(block).0@,
                    #[trigger] order.subrange(0, k),
                ) && malformed(final(block).0@, order[k])
        }),
        r is Err ==> r == Err::<(), LiftError>(LiftError::MalformedAst),
{
    let ghost start = block.0@;
    let mut set = local_set_new();
    collect_block_locals(block, &mut set);
    let ghost all = local_set_items(set);
    let mut order: Vec<RcLocal> = Vec::new();
    let mut i: usize = 0;
    while i < local_set_len(&set)
        invariant
            0 <= i <= all.len(),
            all == local_set_items(set),
            start == old(block).0@,
            start == block.0@,
            all.no_duplicates(),
            forall|x: RcLocal| #[trigger] all.contains(x) <==> block_mentions(start, x),
            order@.no_duplicates(),
            forall|x: RcLocal| #[trigger]
                order@.contains(x) <==> all.subrange(0, i as int).contains(x)
                    && !locals_to_ignore@.contains(x),
            all == collected_block(Seq::empty(), start),
            order@ == without(all.subrange(0, i as int), locals_to_ignore@),
        decreases all.len() - i,
    {
        let l = local_set_get(&set, i);
        let ghost prev = order@;
        if !contains_local(locals_to_ignore, l) {
            order.push(l);
        }
        i += 1;
        proof {
            let q = all.subrange(0, i as int);
            let p = all.subrange(0, i - 1);
            assert(q.subrange(0, i - 1) =~= p);
            assert forall|x: RcLocal| q.contains(x) <==> p.contains(x) || x == l by {
                if q.contains(x) {
                    let j = choose|j: int| 0 <= j < q.len() && q[j] == x;
                    if j < i - 1 {
                        assert(p[j] == x);
                    }
                }
                if p.contains(x) {
                    let j = choose|j: int| 0 <= j < p.len() && p[j] == x;
                    assert(q[j] == x);
                }
                if x == l {
                    assert(q[i - 1] == x);
                }
            }
            assert forall|x: RcLocal| #[trigger] order@.contains(x) <==> prev.contains(x) || (x == l
                && !locals_to_ignore@.contains(l)) by {
                if order@.contains(x) && !prev.contains(x) {
                    let j = choose|j: int| 0 <= j < order@.len() && order@[j] == x;
                    if j < prev.len() {
                        assert(prev[j] == x);
                    }
                }
                if prev.contains(x) {
                    let j = choose|j: int| 0 <= j < prev.len() && prev[j] == x;
                    assert(order@[j] == x);
                }
                if x == l && !locals_to_ignore@.contains(l) {
                    assert(order@[prev.len() as int] == x);
                }
            }
            if !locals_to_ignore@.contains(l) {
                assert(!p.contains(l)) by {
                    if p.contains(l) {
                        let j = choose|j: int| 0 <= j < p.len() && p[j] == l;
                        assert(all[j] == all[i - 1]);
                    }
                }
                assert(!prev.contains(l));
            }
        }
    }
    proof {
        assert(all.subrange(0, all.len() as int) =~= all);
        assert(locals_to_declare(start, locals_to_ignore@, order@));
        assert(declared_all(start, block.0@, order@.subrange(0, 0)));
    }
    let mut k: usize = 0;
    while k < order.len()
        invariant
            0 <= k <= order.len(),
            start == old(block).0@,
            locals_to_declare(start, locals_to_ignore@, order@),
            order@ == without(collected_block(Seq::empty(), start), locals_to_ignore@),
            declared_all(start, block.0@, order@.subrange(0, k as int)),
        decreases order.len() - k,
    {
        let l = order[k];
        let ghost mid = block.0@;
        if block_mentions_local(block, l) {
            match declare_local(block, l) {
                Ok(()) => {},
                Err(e) => {
                    proof {
                        assert(block.0@ == mid);
                        assert(locals_to_declare(start, locals_to_ignore@, order@));
                        assert(declared_all(start, block.0@, order@.subrange(0, k as int)));
                        assert(malformed(block.0@, order@[k as int]));
                    }
                    return Err(e);
                },
            }
        }
        k += 1;
        proof {
            let s = order@.subrange(0, k as int);
            assert(s.subrange(0, k - 1) =~= order@.subrange(0, k - 1));
            assert(s[k - 1] == l);
            assert(declared_all(start, mid, s.subrange(0, s.len() - 1)));
            assert(declare_step(mid, block.0@, s[s.len() - 1]));
        }
    }
    proof {
        assert(order@.subrange(0, order@.len() as int) =~= order@);
    }
    Ok(())
}


/// Declarations coalesce: when `l` is used at several statements, the first
/// of which neither assigns `l` alone nor is a loop header declaring it, and
/// a pure declaration stands just before that statement, `l` joins that
/// declaration's targets instead of getting one of its own.
pub proof fn lemma_declarations_coalesce(old: Seq<Statement>, new: Seq<Statement>, l: RcLocal, i: int)
    requires
        block_mentions(old, l),
        is_first_use(old, l, i),
        !used_only_at(old, l, i),
        !assigns_only(old[i], l),
        !declares(old[i], l),
        i > 0,
        is_pure_declaration(old[i - 1]),
        declared_in(old, new, l),
    ensures
        new.len() == old.len(),
        new[i - 1] is Assign,
        new[i - 1]->Assign_0.prefix,
        new[i - 1]->Assign_0.right@.len() == 0,
        new[i - 1]->Assign_0.left@ == old[i - 1]->Assign_0.left@.push(LValue::Local(l)),
        forall|j: int| 0 <= j < old.len() && j != i - 1 ==> new[j] == old[j],
{
    let c = first_use(old, l);
    assert(is_first_use(old, l, c));
    if c < i {
        assert(!stat_mentions(old[c], l));
    }
    if i < c {
        assert(!stat_mentions(old[i], l));
    }
}


/// `s` declares `l`: a declaring assignment with `l` among its targets.
pub open spec fn declares(s: Statement, l: RcLocal) -> bool {
    &&& s is Assign
    &&& s->Assign_0.prefix
    &&& s->Assign_0.left@.contains(LValue::Local(l))
}

/// Where the declaration pass places `l` in the block itself (its uses are
/// not all inside one branch or loop body, nor is it a loop counter), the
/// block afterwards holds a declaration of `l` that comes before every
/// statement mentioning `l`; if the block declared `l` nowhere before, that
/// declaration is its only one.
pub proof fn lemma_declaration_precedes_uses(old: Seq<Statement>, new: Seq<Statement>, l: RcLocal, i: int)
    requires
        block_mentions(old, l),
        is_first_use(old, l, i),
        !(used_only_at(old, l, i) && placement(old[i], l) != Placement::Here),
        !declares(old[i], l),
        declared_in(old, new, l),
    ensures
        exists|d: int|
            0 <= d < new.len() && #[trigger] declares(new[d], l) && (forall|j: int|
                0 <= j < d ==> !stat_mentions(new[j], l)) && ((forall|j: int|
                0 <= j < old.len() ==> !declares(old[j], l)) ==> forall|j: int|
                0 <= j < new.len() && j != d ==> !declares(new[j], l)),
{
    let c = first_use(old, l);
    assert(is_first_use(old, l, c));
    if c < i {
        assert(!stat_mentions(old[c], l));
    }
    if i < c {
        assert(!stat_mentions(old[i], l));
    }
    assert(declared_at(old, new, l, i));
    if assigns_only(old[i], l) {
        assert(new[i]->Assign_0.left@[0] == LValue::Local(l));
        assert(declares(new[i], l));
        assert forall|j: int| 0 <= j < i implies !stat_mentions(new[j], l) by {
            assert(new[j] == old[j]);
        }
        assert forall|j: int| 0 <= j < new.len() && j != i implies new[j] == old[j] by {}
    } else if i > 0 && is_pure_declaration(old[i - 1]) {
        let left = new[i - 1]->Assign_0.left@;
        assert(left[left.len() - 1] == LValue::Local(l));
        assert(declares(new[i - 1], l));
        assert forall|j: int| 0 <= j < i - 1 implies !stat_mentions(new[j], l) by {
            assert(new[j] == old[j]);
        }
        assert forall|j: int| 0 <= j < new.len() && j != i - 1 implies new[j] == old[j] by {}
    } else {
        assert(new[i]->Assign_0.left@[0] == LValue::Local(l));
        assert(declares(new[i], l));
        assert forall|j: int| 0 <= j < i implies !stat_mentions(new[j], l) by {
            assert(new[j] == old[j]);
        }
        if forall|j: int| 0 <= j < old.len() ==> !declares(old[j], l) {
            assert forall|j: int| 0 <= j < new.len() && j != i implies !declares(new[j], l) by {
                if j > i {
                    assert(new[j] == old[j - 1]);
                    assert(!declares(old[j - 1], l));
                } else {
                    assert(new[j] == old[j]);
                    assert(!declares(old[j], l));
                }
            }
        }
    }
}


/// A target list that holds the local `l` mentions `l`.
pub proof fn lemma_target_mentioned(s: Seq<LValue>, l: RcLocal)
    requires
        s.contains(LValue::Local(l)),
    ensures
        lvalues_locals(s).contains(l),
    decreases s.len(),
{
    let s1 = s.subrange(0, s.len() - 1);
    let last = s[s.len() - 1];
    let k = choose|k: int| 0 <= k < s.len() && s[k] == LValue::Local(l);
    let a = lvalues_locals(s1);
    let b = lvalue_locals(last);
    if k < s.len() - 1 {
        assert(s1[k] == LValue::Local(l));
        lemma_target_mentioned(s1, l);
        let m = choose|m: int| 0 <= m < a.len() && a[m] == l;
        assert((a + b)[m] == l);
    } else {
        assert(b == seq![l]);
        assert((a + b)[a.len() as int] == l);
    }
}

/// Declaring twice changes nothing more: where the pass declares `l` in
/// the block itself, running it again on the result leaves that result as
/// it is.
pub proof fn lemma_declare_twice(old: Seq<Statement>, new: Seq<Statement>, new2: Seq<Statement>, l: RcLocal, i: int)
    requires
        block_mentions(old, l),
        is_first_use(old, l, i),
        !(used_only_at(old, l, i) && placement(old[i], l) != Placement::Here),
        !declares(old[i], l),
        declared_in(old, new, l),
        declared_in(new, new2, l),
    ensures
        new2 == new,
{
    lemma_declaration_precedes_uses(old, new, l, i);
    let d = choose|d: int|
        0 <= d < new.len() && #[trigger] declares(new[d], l) && (forall|j: int|
            0 <= j < d ==> !stat_mentions(new[j], l)) && ((forall|j: int|
            0 <= j < old.len() ==> !declares(old[j], l)) ==> forall|j: int|
            0 <= j < new.len() && j != d ==> !declares(new[j], l));
    let a = new[d]->Assign_0;
    lemma_target_mentioned(a.left@, l);
    lemma_concat_contains_locals(lvalues_locals(a.left@), crate::ast::rvalues_locals(a.right@), l);
    assert(stat_mentions(new[d], l));
    assert(is_first_use(new, l, d));
    lemma_block_mentions(new, l);
    assert(block_mentions(new, l));
    let c = first_use(new, l);
    assert(is_first_use(new, l, c));
    if c < d {
        assert(!stat_mentions(new[c], l));
    }
    if d < c {
        assert(!stat_mentions(new[d], l));
    }
}

/// A local occurs in a concatenation when it occurs in its first part.
proof fn lemma_concat_contains_locals(a: Seq<RcLocal>, b: Seq<RcLocal>, x: RcLocal)
    requires
        a.contains(x),
    ensures
        (a + b).contains(x),
{
    let k = choose|k: int| 0 <= k < a.len() && a[k] == x;
    assert((a + b)[k] == x);
}


/// Two locals first used by the same statement, both declared at the
/// block's own level, one after the other, share a single declaration:
/// afterwards one pure declaration lists both, directly before that
/// statement.
pub proof fn lemma_two_locals_coalesce(
    old: Seq<Statement>,
    mid: Seq<Statement>,
    new: Seq<Statement>,
    l1: RcLocal,
    l2: RcLocal,
    i: int,
)
    requires
        l1 != l2,
        block_mentions(old, l1),
        block_mentions(old, l2),
        is_first_use(old, l1, i),
        is_first_use(old, l2, i),
        !(used_only_at(old, l1, i) && placement(old[i], l1) != Placement::Here),
        !(used_only_at(old, l2, i) && placement(old[i], l2) != Placement::Here),
        !declares(old[i], l1),
        !declares(old[i], l2),
        !assigns_only(old[i], l1),
        !assigns_only(old[i], l2),
        declared_in(old, mid, l1),
        declared_in(mid, new, l2),
    ensures
        exists|d: int|
            0 <= d < new.len() && #[trigger] is_pure_declaration(new[d]) && new[d]->Assign_0.left@.contains(
                LValue::Local(l1),
            ) && new[d]->Assign_0.left@.contains(LValue::Local(l2)) && new[d + 1] == old[i],
{
    let c = first_use(old, l1);
    assert(is_first_use(old, l1, c));
    if c < i {
        assert(!stat_mentions(old[c], l1));
    }
    if i < c {
        assert(!stat_mentions(old[i], l1));
    }
    assert(declared_at(old, mid, l1, i));
    // where `l2` is first used in `mid`, and the pure declaration before it
    let j = if i > 0 && is_pure_declaration(old[i - 1]) {
        i
    } else {
        i + 1
    };
    assert(mid[j] == old[i]);
    assert(is_pure_declaration(mid[j - 1]));
    assert(mid[j - 1]->Assign_0.left@.contains(LValue::Local(l1))) by {
        let left = mid[j - 1]->Assign_0.left@;
        if j == i {
            assert(left[left.len() - 1] == LValue::Local(l1));
        } else {
            assert(left[0] == LValue::Local(l1));
        }
    }
    // no statement of `mid` before `j` mentions `l2`
    assert forall|k: int| 0 <= k < j implies !#[trigger] stat_mentions(mid[k], l2) by {
        if k < i - 1 || (j == i + 1 && k < i) {
            assert(mid[k] == old[k]);
        } else if j == i && k == i - 1 {
            let left = mid[k]->Assign_0.left@;
            let oleft = old[k]->Assign_0.left@;
            assert(!stat_mentions(old[k], l2));
            assert(!lvalues_locals(oleft).contains(l2));
            assert(lvalue_locals(LValue::Local(l1)) == seq![l1]);
            assert(left.subrange(0, left.len() - 1) =~= oleft);
            assert(!lvalue_locals(LValue::Local(l1)).contains(l2)) by {
                assert(seq![l1][0] == l1);
            }
            lemma_concat_not_contains(lvalues_locals(oleft), lvalue_locals(LValue::Local(l1)), l2);
            assert(mid[k]->Assign_0.right@.len() == 0);
            assert(crate::ast::rvalues_locals(mid[k]->Assign_0.right@) =~= Seq::<RcLocal>::empty());
            lemma_concat_not_contains(lvalues_locals(left), crate::ast::rvalues_locals(mid[k]->Assign_0.right@), l2);
        } else {
            // the inserted `local l1`
            let left = mid[k]->Assign_0.left@;
            assert(left == seq![LValue::Local(l1)]);
            assert(left.subrange(0, 0) =~= Seq::<LValue>::empty());
            assert(lvalues_locals(left.subrange(0, 0)) =~= Seq::<RcLocal>::empty());
            assert(lvalues_locals(left) =~= seq![l1]);
            assert(seq![l1][0] == l1);
            assert(crate::ast::rvalues_locals(mid[k]->Assign_0.right@) =~= Seq::<RcLocal>::empty());
            assert(!(seq![l1] + Seq::<RcLocal>::empty()).contains(l2)) by {
                assert(seq![l1] + Seq::<RcLocal>::empty() =~= seq![l1]);
            }
        }
    }
    assert(is_first_use(mid, l2, j));
    lemma_block_mentions(mid, l2);
    let c2 = first_use(mid, l2);
    assert(is_first_use(mid, l2, c2));
    if c2 < j {
        assert(!stat_mentions(mid[c2], l2));
    }
    if j < c2 {
        assert(!stat_mentions(mid[j], l2));
    }
    // `l2`'s uses in `mid` are those in `old`, shifted
    if used_only_at(mid, l2, j) {
        assert(used_only_at(old, l2, i)) by {
            assert forall|k: int| 0 <= k < old.len() && k != i implies !#[trigger] stat_mentions(old[k], l2) by {
                if k > i {
                    assert(mid[k + j - i] == old[k]);
                }
            }
        }
    }
    assert(declared_at(mid, new, l2, j));
    let d = j - 1;
    assert(new[d]->Assign_0.left@ == mid[d]->Assign_0.left@.push(LValue::Local(l2)));
    assert(new[d]->Assign_0.left@.contains(LValue::Local(l1))) by {
        let m = mid[d]->Assign_0.left@;
        let k = choose|k: int| 0 <= k < m.len() && m[k] == LValue::Local(l1);
        assert(new[d]->Assign_0.left@[k] == LValue::Local(l1));
    }
    assert(new[d]->Assign_0.left@[mid[d]->Assign_0.left@.len() as int] == LValue::Local(l2));
    assert(new[d]->Assign_0.left@.contains(LValue::Local(l2)));
    assert(is_pure_declaration(new[d]));
    assert(d + 1 < new.len());
    assert(new[d + 1] == mid[j]);
    assert(0 <= d < new.len() && is_pure_declaration(new[d]) && new[d]->Assign_0.left@.contains(
        LValue::Local(l1),
    ) && new[d]->Assign_0.left@.contains(LValue::Local(l2)) && new[d + 1] == old[i]);
}

/// A local in neither part of a concatenation is not in it.
proof fn lemma_concat_not_contains(a: Seq<RcLocal>, b: Seq<RcLocal>, x: RcLocal)
    requires
        !a.contains(x),
        !b.contains(x),
    ensures
        !(a + b).contains(x),
{
    if (a + b).contains(x) {
        let k = choose|k: int| 0 <= k < (a + b).len() && (a + b)[k] == x;
        if k < a.len() {
            assert(a[k] == x);
        } else {
            assert(b[k - a.len()] == x);
        }
    }
}

} // verus!
