use vstd::prelude::*;

use crate::cfg::{
    has_index, reachable, reachable_nodes, reads_at, writes_at, BasicBlock, Function,
    InstructionIndex, InstructionLocation, NodeId, ValueId,
};

verus! {

/// One read or write of a value at a location.
#[derive(Debug, Clone, Copy, PartialEq, Eq, Structural)]
pub struct Access {
    pub value: ValueId,
    pub location: InstructionLocation,
    pub write: bool,
}

/// What the instruction at `index` of `b` reads (`write` false) or writes.
pub open spec fn accessed_at(b: BasicBlock, index: InstructionIndex, write: bool) -> Seq<ValueId> {
    if write {
        writes_at(b, index)
    } else {
        reads_at(b, index)
    }
}

/// Whether an update of `node` (of its phi slots alone, with `phi_only`)
/// rewrites the records at `loc`.
pub open spec fn in_scope(loc: InstructionLocation, node: NodeId, phi_only: bool) -> bool {
    loc.node == node && (!phi_only || loc.index is Phi)
}

/// Whether `b`, standing at `node`, accesses `v` at `loc` in the given way.
pub open spec fn block_accesses(
    b: BasicBlock,
    node: NodeId,
    v: ValueId,
    loc: InstructionLocation,
    write: bool,
) -> bool {
    loc.node == node && has_index(b, loc.index) && accessed_at(b, loc.index, write).contains(v)
}

/// Whether some block of `f` accesses `v` at `loc` in the given way.
pub open spec fn function_accesses(f: Function, v: ValueId, loc: InstructionLocation, write: bool) -> bool {
    loc.node < f.blocks@.len() && block_accesses(f.blocks@[loc.node as int], loc.node, v, loc, write)
}

/// The reads and the writes of one value.
#[derive(Debug)]
pub struct ValueDefUse {
    pub reads: Vec<InstructionLocation>,
    pub writes: Vec<InstructionLocation>,
}

impl ValueDefUse {
    /// A record with no reads and no writes.
    pub fn new() -> (r: Self)
        ensures
            r.reads@.len() == 0,
            r.writes@.len() == 0,
    {
        ValueDefUse { reads: Vec::new(), writes: Vec::new() }
    }

    pub fn is_empty(&self) -> (r: bool)
        ensures
            r == (self.reads@.len() == 0 && self.writes@.len() == 0),
    {
        self.reads.len() == 0 && self.writes.len() == 0
    }
}

/// Where each value of a function is read and written. A value keeps its
/// record, possibly empty, until `remove_unused`.
#[derive(Debug)]
pub struct DefUse {
    values: Vec<ValueId>,
    accesses: Vec<Access>,
}

impl DefUse {
    /// Every access belongs to a value with a record; no value has two.
    pub closed spec fn wf(&self) -> bool {
        &&& self.values@.no_duplicates()
        &&& forall|k: int| 0 <= k < self.accesses@.len() ==> self.values@.contains(
            #[trigger] self.accesses@[k].value,
        )
    }

    /// Whether `v` has a record.
    pub closed spec fn has_record(&self, v: ValueId) -> bool {
        self.values@.contains(v)
    }

    /// Whether the record of `v` holds `loc` among its writes (`write`) or
    /// its reads.
    pub closed spec fn accessed(&self, v: ValueId, loc: InstructionLocation, write: bool) -> bool {
        self.accesses@.contains(Access { value: v, location: loc, write })
    }

    /// A value with a recorded access has a record.
    pub proof fn lemma_accessed_has_record(&self, v: ValueId, l: InstructionLocation, w: bool)
        requires
            self.wf(),
            self.accessed(v, l, w),
        ensures
            self.has_record(v),
    {
        let a = Access { value: v, location: l, write: w };
        let k = choose|k: int| 0 <= k < self.accesses@.len() && self.accesses@[k] == a;
        assert(self.values@.contains(self.accesses@[k].value));
    }

    /// No records at all.
    pub fn empty() -> (r: Self)
        ensures
            r.wf(),
            forall|v: ValueId| !r.has_record(v),
            forall|v: ValueId, loc: InstructionLocation, w: bool| !r.accessed(v, loc, w),
    {
        DefUse { values: Vec::new(), accesses: Vec::new() }
    }

    /// Gives `v` a record if it has none.
    fn add_record(&mut self, v: ValueId)
        requires
            old(self).wf(),
        ensures
            final(self).wf(),
            final(self).accesses == old(self).accesses,
            forall|x: ValueId| #[trigger] final(self).has_record(x) <==> old(self).has_record(x) || x == v,
    {
        let mut k: usize = 0;
        let mut found = false;
        while k < self.values.len() && !found
            invariant
                0 <= k <= self.values.len(),
                found ==> self.values@.contains(v),
                !found ==> forall|j: int| 0 <= j < k ==> self.values@[j] != v,
            decreases self.values.len() - k + (if found { 0int } else { 1int }),
        {
            if self.values[k] == v {
                found = true;
            } else {
                k += 1;
            }
        }
        if found {
            return;
        }
        let ghost prev = self.values@;
        self.values.push(v);
        proof {
            assert forall|x: ValueId| #[trigger] self.values@.contains(x) <==> prev.contains(x) || x == v by {
                if self.values@.contains(x) && x != v {
                    let j = choose|j: int| 0 <= j < self.values@.len() && self.values@[j] == x;
                    assert(prev[j] == x);
                }
                if prev.contains(x) {
                    let j = choose|j: int| 0 <= j < prev.len() && prev[j] == x;
                    assert(self.values@[j] == x);
                }
                assert(self.values@[prev.len() as int] == v);
            }
            assert forall|k: int| 0 <= k < self.accesses@.len() implies self.values@.contains(
                #[trigger] self.accesses@[k].value,
            ) by {
                assert(old(self).values@.contains(old(self).accesses@[k].value));
                assert(prev.contains(self.accesses@[k].value));
            }
        }
    }

    /// Records that `loc` accesses each value of `vals` in the given way.
    fn record(&mut self, vals: &Vec<ValueId>, loc: InstructionLocation, write: bool)
        requires
            old(self).wf(),
        ensures
            final(self).wf(),
            forall|v: ValueId, l: InstructionLocation, w: bool| #[trigger]
                final(self).accessed(v, l, w) <==> old(self).accessed(v, l, w) || (l == loc && w
                    == write && vals@.contains(v)),
            forall|v: ValueId| #[trigger]
                final(self).has_record(v) <==> old(self).has_record(v) || vals@.contains(v),
    {
        let mut k: usize = 0;
        while k < vals.len()
            invariant
                0 <= k <= vals.len(),
                self.wf(),
                forall|v: ValueId, l: InstructionLocation, w: bool| #[trigger]
                    self.accessed(v, l, w) <==> old(self).accessed(v, l, w) || (l == loc && w
                        == write && vals@.subrange(0, k as int).contains(v)),
                forall|v: ValueId| #[trigger]
                    self.has_record(v) <==> old(self).has_record(v) || vals@.subrange(0, k as int).contains(v),
            decreases vals.len() - k,
        {
            let v = vals[k];
            let ghost before = *self;
            self.add_record(v);
            let ghost after = *self;
            let ghost mid = self.accesses@;
            let a = Access { value: v, location: loc, write };
            self.accesses.push(a);
            k += 1;
            proof {
                let q = vals@.subrange(0, k as int);
                let p = vals@.subrange(0, k - 1);
                assert forall|x: ValueId| q.contains(x) <==> p.contains(x) || x == v by {
                    if q.contains(x) {
                        let j = choose|j: int| 0 <= j < q.len() && q[j] == x;
                        if j < k - 1 {
                            assert(p[j] == x);
                        }
                    }
                    if p.contains(x) {
                        let j = choose|j: int| 0 <= j < p.len() && p[j] == x;
                        assert(q[j] == x);
                    }
                    assert(q[k - 1] == v);
                }
                assert forall|x: Access| #[trigger] self.accesses@.contains(x) <==> mid.contains(x) || x == a by {
                    if self.accesses@.contains(x) && x != a {
                        let j = choose|j: int| 0 <= j < self.accesses@.len() && self.accesses@[j] == x;
                        assert(mid[j] == x);
                    }
                    if mid.contains(x) {
                        let j = choose|j: int| 0 <= j < mid.len() && mid[j] == x;
                        assert(self.accesses@[j] == x);
                    }
                    assert(self.accesses@[mid.len() as int] == a);
                }
                assert(before.accesses@ == mid);
                assert(self.values == after.values);
                assert forall|x: ValueId| #[trigger] self.has_record(x) <==> old(self).has_record(x)
                    || q.contains(x) by {
                    assert(self.has_record(x) == after.has_record(x));
                }
                assert forall|j: int| 0 <= j < self.accesses@.len() implies self.values@.contains(
                    #[trigger] self.accesses@[j].value,
                ) by {
                    if j < mid.len() {
                        assert(mid[j] == self.accesses@[j]);
                        assert(before.values@.contains(before.accesses@[j].value));
                        assert(before.has_record(mid[j].value));
                        assert(self.has_record(mid[j].value));
                    } else {
                        assert(after.has_record(v));
                        assert(self.has_record(v));
                    }
                }
                assert forall|x: ValueId, l: InstructionLocation, w: bool| #[trigger]
                    self.accessed(x, l, w) <==> old(self).accessed(x, l, w) || (l == loc && w
                        == write && q.contains(x)) by {
                    let acc = Access { value: x, location: l, write: w };
                    assert(self.accesses@.contains(acc) <==> mid.contains(acc) || acc == a);
                    assert(before.accessed(x, l, w) == mid.contains(acc));
                }
            }
        }
        proof {
            assert(vals@.subrange(0, vals@.len() as int) =~= vals@);
        }
    }

    /// Drops the accesses that an update of `node` rewrites.
    fn drop_scope(&mut self, node: NodeId, phi_only: bool)
        requires
            old(self).wf(),
        ensures
            final(self).wf(),
            final(self).values == old(self).values,
            forall|v: ValueId, l: InstructionLocation, w: bool| #[trigger]
                final(self).accessed(v, l, w) <==> old(self).accessed(v, l, w) && !in_scope(
                    l,
                    node,
                    phi_only,
                ),
    {
        let mut kept: Vec<Access> = Vec::new();
        let mut k: usize = 0;
        while k < self.accesses.len()
            invariant
                0 <= k <= self.accesses.len(),
                *self == *old(self),
                self.wf(),
                forall|j: int| 0 <= j < kept@.len() ==> self.values@.contains(#[trigger] kept@[j].value),
                forall|a: Access| #[trigger] kept@.contains(a) <==> self.accesses@.subrange(0, k as int).contains(a)
                    && !in_scope(a.location, node, phi_only),
            decreases self.accesses.len() - k,
        {
            let a = self.accesses[k];
            let ghost prev = kept@;
            let keep = !(a.location.node == node && (!phi_only || match a.location.index {
                InstructionIndex::Phi(_) => true,
                _ => false,
            }));
            if keep {
                kept.push(a);
            }
            k += 1;
            proof {
                let q = self.accesses@.subrange(0, k as int);
                let p = self.accesses@.subrange(0, k - 1);
                assert forall|x: Access| q.contains(x) <==> p.contains(x) || x == a by {
                    if q.contains(x) {
                        let j = choose|j: int| 0 <= j < q.len() && q[j] == x;
                        if j < k - 1 {
                            assert(p[j] == x);
                        }
                    }
                    if p.contains(x) {
                        let j = choose|j: int| 0 <= j < p.len() && p[j] == x;
                        assert(q[j] == x);
                    }
                    assert(q[k - 1] == a);
                }
                assert forall|x: Access| #[trigger] kept@.contains(x) <==> prev.contains(x) || (keep
                    && x == a) by {
                    if kept@.contains(x) && !prev.contains(x) {
                        let j = choose|j: int| 0 <= j < kept@.len() && kept@[j] == x;
                        if j < prev.len() {
                            assert(prev[j] == x);
                        }
                    }
                    if prev.contains(x) {
                        let j = choose|j: int| 0 <= j < prev.len() && prev[j] == x;
                        assert(kept@[j] == x);
                    }
                    if keep && x == a {
                        assert(kept@[prev.len() as int] == a);
                    }
                }
                assert forall|j: int| 0 <= j < kept@.len() implies self.values@.contains(
                    #[trigger] kept@[j].value,
                ) by {
                    if j < prev.len() {
                        assert(prev[j] == kept@[j]);
                    } else {
                        assert(self.values@.contains(self.accesses@[k - 1].value));
                    }
                }
            }
        }
        proof {
            assert(self.accesses@.subrange(0, self.accesses@.len() as int) =~= self.accesses@);
        }
        self.accesses = kept;
    }

    /// Records what the instruction at `index` of `block`, at `node`, reads
    /// and writes.
    fn scan_index(&mut self, block: &BasicBlock, node: NodeId, index: InstructionIndex)
        requires
            old(self).wf(),
            has_index(*block, index),
        ensures
            final(self).wf(),
            forall|v: ValueId| #[trigger] old(self).has_record(v) ==> final(self).has_record(v),
            forall|v: ValueId, l: InstructionLocation, w: bool| #[trigger]
                final(self).accessed(v, l, w) <==> old(self).accessed(v, l, w) || (l
                    == InstructionLocation { node, index } && accessed_at(*block, index, w).contains(v)),
            forall|v: ValueId| #[trigger] final(self).has_record(v) ==> old(self).has_record(v) || exists|
                l: InstructionLocation,
                w: bool,
            | final(self).accessed(v, l, w),
    {
        let loc = InstructionLocation { node, index };
        let reads = block.values_read(index);
        self.record(&reads, loc, false);
        let writes = block.values_written(index);
        self.record(&writes, loc, true);
        proof {
            assert forall|v: ValueId| #[trigger] self.has_record(v) implies old(self).has_record(v) || exists|
                l: InstructionLocation,
                w: bool,
            | self.accessed(v, l, w) by {
                if reads@.contains(v) {
                    assert(self.accessed(v, loc, false));
                }
                if writes@.contains(v) {
                    assert(self.accessed(v, loc, true));
                }
            }
        }
    }

    /// Rewrites the records at `node`, or at its phi slots alone, from what
    /// `block` now holds.
    fn update(&mut self, block: &BasicBlock, node: NodeId, phi_only: bool)
        requires
            old(self).wf(),
        ensures
            final(self).wf(),
            forall|v: ValueId| #[trigger] old(self).has_record(v) ==> final(self).has_record(v),
            forall|v: ValueId, l: InstructionLocation, w: bool| #[trigger]
                final(self).accessed(v, l, w) <==> (old(self).accessed(v, l, w) && !in_scope(
                    l,
                    node,
                    phi_only,
                )) || (in_scope(l, node, phi_only) && block_accesses(*block, node, v, l, w)),
            forall|v: ValueId| #[trigger] final(self).has_record(v) ==> old(self).has_record(v) || exists|
                l: InstructionLocation,
                w: bool,
            | final(self).accessed(v, l, w),
    {
        self.drop_scope(node, phi_only);
        let ghost dropped = *self;
        let mut i: usize = 0;
        while i < block.phi_instructions.len()
            invariant
                0 <= i <= block.phi_instructions.len(),
                self.wf(),
                forall|v: ValueId| #[trigger] old(self).has_record(v) ==> self.has_record(v),
                forall|v: ValueId| #[trigger] self.has_record(v) ==> old(self).has_record(v) || exists|
                    l: InstructionLocation,
                    w: bool,
                | self.accessed(v, l, w),
                forall|v: ValueId, l: InstructionLocation, w: bool| #[trigger]
                    self.accessed(v, l, w) <==> dropped.accessed(v, l, w) || (l.node == node
                        && l.index is Phi && l.index->Phi_0 < i && block_accesses(*block, node, v, l, w)),
            decreases block.phi_instructions.len() - i,
        {
            let ghost before = *self;
            self.scan_index(block, node, InstructionIndex::Phi(i));
            proof {
                lemma_backed_step(*old(self), before, *self);
            }
            i += 1;
        }
        if !phi_only {
            let mut i: usize = 0;
            while i < block.inner_instructions.len()
                invariant
                    0 <= i <= block.inner_instructions.len(),
                    self.wf(),
                    forall|v: ValueId| #[trigger] old(self).has_record(v) ==> self.has_record(v),
                    forall|v: ValueId| #[trigger] self.has_record(v) ==> old(self).has_record(v) || exists|
                        l: InstructionLocation,
                        w: bool,
                    | self.accessed(v, l, w),
                    forall|v: ValueId, l: InstructionLocation, w: bool| #[trigger]
                        self.accessed(v, l, w) <==> dropped.accessed(v, l, w) || (l.node == node
                            && (l.index is Phi || (l.index is Inner && l.index->Inner_0 < i))
                            && block_accesses(*block, node, v, l, w)),
                decreases block.inner_instructions.len() - i,
            {
                let ghost before = *self;
                self.scan_index(block, node, InstructionIndex::Inner(i));
                proof {
                    lemma_backed_step(*old(self), before, *self);
                }
                i += 1;
            }
            if block.terminator.is_some() {
                let ghost before = *self;
                self.scan_index(block, node, InstructionIndex::Terminator);
                proof {
                    lemma_backed_step(*old(self), before, *self);
                }
            }
        }
    }

    /// Records the reads and writes of every block of `function` that can
    /// be reached from its entry.
    pub fn new(function: &Function) -> (r: Self)
        ensures
            r.wf(),
            forall|v: ValueId, l: InstructionLocation, w: bool| #[trigger]
                r.accessed(v, l, w) <==> reachable(*function, l.node) && function_accesses(
                    *function,
                    v,
                    l,
                    w,
                ),
            forall|v: ValueId| #[trigger] r.has_record(v) <==> exists|l: InstructionLocation, w: bool|
                r.accessed(v, l, w),
    {
        let live = reachable_nodes(function);
        let mut def_use = DefUse::empty();
        let mut node: usize = 0;
        while node < function.blocks.len()
            invariant
                0 <= node <= function.blocks.len(),
                live@.len() == function.blocks@.len(),
                forall|x: int| 0 <= x < live@.len() ==> (#[trigger] live@[x] <==> reachable(*function, x as NodeId)),
                def_use.wf(),
                forall|v: ValueId, l: InstructionLocation, w: bool| #[trigger]
                    def_use.accessed(v, l, w) <==> l.node < node && reachable(*function, l.node)
                        && function_accesses(*function, v, l, w),
                forall|v: ValueId| #[trigger] def_use.has_record(v) <==> exists|l: InstructionLocation, w: bool|
                    def_use.accessed(v, l, w),
            decreases function.blocks.len() - node,
        {
            if live[node] {
                let ghost before = def_use;
                def_use.update_block(&function.blocks[node], node);
                proof {
                    assert forall|v: ValueId| #[trigger] def_use.has_record(v) <==> exists|
                        l: InstructionLocation,
                        w: bool,
                    | def_use.accessed(v, l, w) by {
                        if def_use.has_record(v) && before.has_record(v) {
                            let (l, w) = choose|l: InstructionLocation, w: bool| before.accessed(v, l, w);
                            assert(def_use.accessed(v, l, w));
                        }
                        if exists|l: InstructionLocation, w: bool| def_use.accessed(v, l, w) {
                            let (l, w) = choose|l: InstructionLocation, w: bool| def_use.accessed(v, l, w);
                            def_use.lemma_accessed_has_record(v, l, w);
                        }
                    }
                }
            }
            node += 1;
        }
        def_use
    }

    /// Forgets every access recorded at `node` and records those of `block`
    /// in its place; records of other nodes are kept.
    pub fn update_block(&mut self, block: &BasicBlock, node: NodeId)
        requires
            old(self).wf(),
        ensures
            final(self).wf(),
            forall|v: ValueId| #[trigger] old(self).has_record(v) ==> final(self).has_record(v),
            forall|v: ValueId, l: InstructionLocation, w: bool| #[trigger]
                final(self).accessed(v, l, w) <==> (old(self).accessed(v, l, w) && l.node != node)
                    || block_accesses(*block, node, v, l, w),
            forall|v: ValueId| #[trigger] final(self).has_record(v) ==> old(self).has_record(v) || exists|
                l: InstructionLocation,
                w: bool,
            | final(self).accessed(v, l, w),
    {
        self.update(block, node, false);
    }

    /// As `update_block`, for the phi slots of `node` alone.
    pub fn update_block_phi(&mut self, block: &BasicBlock, node: NodeId)
        requires
            old(self).wf(),
        ensures
            final(self).wf(),
            forall|v: ValueId| #[trigger] old(self).has_record(v) ==> final(self).has_record(v),
            forall|v: ValueId, l: InstructionLocation, w: bool| #[trigger]
                final(self).accessed(v, l, w) <==> (old(self).accessed(v, l, w) && !(l.node == node
                    && l.index is Phi)) || (l.index is Phi && block_accesses(*block, node, v, l, w)),
            forall|v: ValueId| #[trigger] final(self).has_record(v) ==> old(self).has_record(v) || exists|
                l: InstructionLocation,
                w: bool,
            | final(self).accessed(v, l, w),
    {
        self.update(block, node, true);
    }

    /// Drops the records that hold no read and no write.
    pub fn remove_unused(&mut self)
        requires
            old(self).wf(),
        ensures
            final(self).wf(),
            forall|v: ValueId, l: InstructionLocation, w: bool| #[trigger]
                final(self).accessed(v, l, w) == old(self).accessed(v, l, w),
            forall|v: ValueId| #[trigger]
                final(self).has_record(v) <==> exists|l: InstructionLocation, w: bool|
                    old(self).accessed(v, l, w),
    {
        let mut kept: Vec<ValueId> = Vec::new();
        let mut k: usize = 0;
        while k < self.values.len()
            invariant
                0 <= k <= self.values.len(),
                *self == *old(self),
                self.wf(),
                kept@.no_duplicates(),
                forall|x: ValueId| #[trigger] kept@.contains(x) <==> self.values@.subrange(0, k as int).contains(x)
                    && exists|j: int| 0 <= j < self.accesses@.len() && self.accesses@[j].value == x,
            decreases self.values.len() - k,
        {
            let v = self.values[k];
            let mut used = false;
            let mut j: usize = 0;
            while j < self.accesses.len() && !used
                invariant
                    0 <= j <= self.accesses.len(),
                    used ==> exists|t: int| 0 <= t < self.accesses@.len() && self.accesses@[t].value == v,
                    !used ==> forall|t: int| 0 <= t < j ==> self.accesses@[t].value != v,
                decreases self.accesses.len() - j + (if used { 0int } else { 1int }),
            {
                if self.accesses[j].value == v {
                    used = true;
                } else {
                    j += 1;
                }
            }
            let ghost prev = kept@;
            if used {
                kept.push(v);
            }
            k += 1;
            proof {
                let q = self.values@.subrange(0, k as int);
                let p = self.values@.subrange(0, k - 1);
                assert forall|x: ValueId| q.contains(x) <==> p.contains(x) || x == v by {
                    if q.contains(x) {
                        let t = choose|t: int| 0 <= t < q.len() && q[t] == x;
                        if t < k - 1 {
                            assert(p[t] == x);
                        }
                    }
                    if p.contains(x) {
                        let t = choose|t: int| 0 <= t < p.len() && p[t] == x;
                        assert(q[t] == x);
                    }
                    assert(q[k - 1] == v);
                }
                assert forall|x: ValueId| #[trigger] kept@.contains(x) <==> prev.contains(x) || (used
                    && x == v) by {
                    if kept@.contains(x) && !prev.contains(x) {
                        let t = choose|t: int| 0 <= t < kept@.len() && kept@[t] == x;
                        if t < prev.len() {
                            assert(prev[t] == x);
                        }
                    }
                    if prev.contains(x) {
                        let t = choose|t: int| 0 <= t < prev.len() && prev[t] == x;
                        assert(kept@[t] == x);
                    }
                    if used && x == v {
                        assert(kept@[prev.len() as int] == v);
                    }
                }
                if used {
                    assert(!p.contains(v)) by {
                        if p.contains(v) {
                            let t = choose|t: int| 0 <= t < p.len() && p[t] == v;
                            assert(self.values@[t] == self.values@[k - 1]);
                        }
                    }
                    assert(!prev.contains(v));
                    lemma_push_no_duplicates(prev, v);
                    assert(kept@ == prev.push(v));
                }
            }
        }
        proof {
            assert(self.values@.subrange(0, self.values@.len() as int) =~= self.values@);
            assert forall|x: ValueId| #[trigger] kept@.contains(x) <==> exists|l: InstructionLocation, w: bool|
                old(self).accessed(x, l, w) by {
                if kept@.contains(x) {
                    let j = choose|j: int| 0 <= j < self.accesses@.len() && self.accesses@[j].value == x;
                    let a = self.accesses@[j];
                    assert(self.accessed(x, a.location, a.write));
                }
                if exists|l: InstructionLocation, w: bool| old(self).accessed(x, l, w) {
                    let (l, w) = choose|l: InstructionLocation, w: bool| old(self).accessed(x, l, w);
                    let a = Access { value: x, location: l, write: w };
                    let j = choose|j: int| 0 <= j < self.accesses@.len() && self.accesses@[j] == a;
                    assert(self.values@.contains(self.accesses@[j].value));
                }
            }
        }
        self.values = kept;
    }

    /// The values that have a record.
    pub fn values(&self) -> (r: Vec<ValueId>)
        requires
            self.wf(),
        ensures
            r@.no_duplicates(),
            forall|v: ValueId| #[trigger] r@.contains(v) <==> self.has_record(v),
    {
        let mut out: Vec<ValueId> = Vec::new();
        let mut k: usize = 0;
        while k < self.values.len()
            invariant
                0 <= k <= self.values.len(),
                out@ == self.values@.subrange(0, k as int),
            decreases self.values.len() - k,
        {
            out.push(self.values[k]);
            k += 1;
            proof {
                assert(out@ =~= self.values@.subrange(0, k as int));
            }
        }
        proof {
            assert(self.values@.subrange(0, self.values@.len() as int) =~= self.values@);
        }
        out
    }

    /// The reads and writes of `value`, if it has a record.
    pub fn get(&self, value: ValueId) -> (r: Option<ValueDefUse>)
        requires
            self.wf(),
        ensures
            r is Some <==> self.has_record(value),
            r is Some ==> forall|l: InstructionLocation| #[trigger]
                r->Some_0.reads@.contains(l) <==> self.accessed(value, l, false),
            r is Some ==> forall|l: InstructionLocation| #[trigger]
                r->Some_0.writes@.contains(l) <==> self.accessed(value, l, true),
            r is Some ==> r->Some_0.reads@.no_duplicates() && r->Some_0.writes@.no_duplicates(),
    {
        let mut present = false;
        let mut k: usize = 0;
        while k < self.values.len() && !present
            invariant
                0 <= k <= self.values.len(),
                present ==> self.values@.contains(value),
                !present ==> forall|t: int| 0 <= t < k ==> self.values@[t] != value,
            decreases self.values.len() - k + (if present { 0int } else { 1int }),
        {
            if self.values[k] == value {
                present = true;
            } else {
                k += 1;
            }
        }
        if !present {
            return None;
        }
        let mut record = ValueDefUse::new();
        let mut j: usize = 0;
        while j < self.accesses.len()
            invariant
                0 <= j <= self.accesses.len(),
                record.reads@.no_duplicates(),
                record.writes@.no_duplicates(),
                forall|l: InstructionLocation| #[trigger] record.reads@.contains(l) <==> self.accesses@.subrange(
                    0,
                    j as int,
                ).contains(Access { value, location: l, write: false }),
                forall|l: InstructionLocation| #[trigger] record.writes@.contains(l) <==> self.accesses@.subrange(
                    0,
                    j as int,
                ).contains(Access { value, location: l, write: true }),
            decreases self.accesses.len() - j,
        {
            let a = self.accesses[j];
            let ghost prev_reads = record.reads@;
            let ghost prev_writes = record.writes@;
            if a.value == value {
                if a.write {
                    if !has_location(&record.writes, a.location) {
                        proof {
                            lemma_push_no_duplicates(record.writes@, a.location);
                        }
                        record.writes.push(a.location);
                    }
                } else {
                    if !has_location(&record.reads, a.location) {
                        proof {
                            lemma_push_no_duplicates(record.reads@, a.location);
                        }
                        record.reads.push(a.location);
                    }
                }
            }
            j += 1;
            proof {
                let q = self.accesses@.subrange(0, j as int);
                let p = self.accesses@.subrange(0, j - 1);
                assert forall|x: Access| q.contains(x) <==> p.contains(x) || x == a by {
                    if q.contains(x) {
                        let t = choose|t: int| 0 <= t < q.len() && q[t] == x;
                        if t < j - 1 {
                            assert(p[t] == x);
                        }
                    }
                    if p.contains(x) {
                        let t = choose|t: int| 0 <= t < p.len() && p[t] == x;
                        assert(q[t] == x);
                    }
                    assert(q[j - 1] == a);
                }
                assert forall|l: InstructionLocation| #[trigger] record.reads@.contains(l) <==> prev_reads.contains(l)
                    || (a.value == value && !a.write && a.location == l) by {
                    if record.reads@.contains(l) && !prev_reads.contains(l) {
                        let t = choose|t: int| 0 <= t < record.reads@.len() && record.reads@[t] == l;
                        if t < prev_reads.len() {
                            assert(prev_reads[t] == l);
                        }
                    }
                    if prev_reads.contains(l) {
                        let t = choose|t: int| 0 <= t < prev_reads.len() && prev_reads[t] == l;
                        assert(record.reads@[t] == l);
                    }
                    if a.value == value && !a.write && a.location == l {
                        if !prev_reads.contains(l) {
                            assert(record.reads@[prev_reads.len() as int] == l);
                        }
                    }
                }
                assert forall|l: InstructionLocation| #[trigger] record.writes@.contains(l) <==> prev_writes.contains(l)
                    || (a.value == value && a.write && a.location == l) by {
                    if record.writes@.contains(l) && !prev_writes.contains(l) {
                        let t = choose|t: int| 0 <= t < record.writes@.len() && record.writes@[t] == l;
                        if t < prev_writes.len() {
                            assert(prev_writes[t] == l);
                        }
                    }
                    if prev_writes.contains(l) {
                        let t = choose|t: int| 0 <= t < prev_writes.len() && prev_writes[t] == l;
                        assert(record.writes@[t] == l);
                    }
                    if a.value == value && a.write && a.location == l {
                        if !prev_writes.contains(l) {
                            assert(record.writes@[prev_writes.len() as int] == l);
                        }
                    }
                }
            }
        }
        proof {
            assert(self.accesses@.subrange(0, self.accesses@.len() as int) =~= self.accesses@);
        }
        Some(record)
    }
}

/// Whether `v` holds `l`.
fn has_location(v: &Vec<InstructionLocation>, l: InstructionLocation) -> (r: bool)
    ensures
        r == v@.contains(l),
{
    let mut i: usize = 0;
    while i < v.len()
        invariant
            0 <= i <= v.len(),
            forall|j: int| 0 <= j < i ==> v@[j] != l,
        decreases v.len() - i,
    {
        if v[i] == l {
            return true;
        }
        i += 1;
    }
    false
}

/// Records that come from accesses, or were there at `o`, stay so through
/// a step that keeps every access.
proof fn lemma_backed_step(o: DefUse, a: DefUse, b: DefUse)
    requires
        forall|v: ValueId| #[trigger] a.has_record(v) ==> o.has_record(v) || exists|
            l: InstructionLocation,
            w: bool,
        | a.accessed(v, l, w),
        forall|v: ValueId| #[trigger] b.has_record(v) ==> a.has_record(v) || exists|
            l: InstructionLocation,
            w: bool,
        | b.accessed(v, l, w),
        forall|v: ValueId, l: InstructionLocation, w: bool| #[trigger] a.accessed(v, l, w) ==> b.accessed(v, l, w),
    ensures
        forall|v: ValueId| #[trigger] b.has_record(v) ==> o.has_record(v) || exists|
            l: InstructionLocation,
            w: bool,
        | b.accessed(v, l, w),
{
    assert forall|v: ValueId| #[trigger] b.has_record(v) implies o.has_record(v) || exists|
        l: InstructionLocation,
        w: bool,
    | b.accessed(v, l, w) by {
        if a.has_record(v) && !o.has_record(v) {
            if exists|l: InstructionLocation, w: bool| a.accessed(v, l, w) {
                let (l, w) = choose|l: InstructionLocation, w: bool| a.accessed(v, l, w);
                assert(b.accessed(v, l, w));
            }
        }
    }
}

/// Appending a new element keeps a sequence free of duplicates.
pub proof fn lemma_push_no_duplicates<T>(s: Seq<T>, x: T)
    requires
        s.no_duplicates(),
        !s.contains(x),
    ensures
        s.push(x).no_duplicates(),
{
    assert forall|i: int, j: int| 0 <= i < j < s.push(x).len() implies s.push(x)[i] != s.push(x)[j] by {
        if j == s.len() {
            assert(s[i] == s.push(x)[i]);
        }
    }
}

/// In SSA form every value is written at one place at most: where no two
/// instructions of a function write the same value, the records built from
/// it hold at most one write per value.
pub proof fn lemma_single_write(function: Function, def_use: DefUse, v: ValueId, l1: InstructionLocation, l2: InstructionLocation)
    requires
        forall|a: InstructionLocation, b: InstructionLocation|
            function_accesses(function, v, a, true) && function_accesses(function, v, b, true) ==> a == b,
        forall|x: ValueId, l: InstructionLocation, w: bool| #[trigger]
            def_use.accessed(x, l, w) <==> reachable(function, l.node) && function_accesses(
                function,
                x,
                l,
                w,
            ),
        def_use.accessed(v, l1, true),
        def_use.accessed(v, l2, true),
    ensures
        l1 == l2,
{
}

} // verus!
