//! Inference of origin contracts: which lifetime parameters of a function's
//! inputs may flow into the origin lifetimes of its output.
//!
//! Every region occurrence in the type of a MIR local is a slot. A dataflow
//! analysis over the MIR body tracks, for each slot, the set of input region
//! sources whose values it may hold, plus one bit for "unknown". The sets are
//! packed into words of 64 bits.
use std::collections::VecDeque;
use std::ops::ControlFlow;
use vstd::prelude::*;

use crate::ty::{OriginSlot, Region, RegionSlot, TyCtxt, TyId};
use crate::visit::all_free;

pub mod infer;

verus! {

pub type Local = usize;

pub type BasicBlock = usize;

/// The local that holds the return value.
pub const RETURN_PLACE: Local = 0;

/// The block where execution starts.
pub const START_BLOCK: BasicBlock = 0;

#[derive(Clone, Copy, PartialEq, Eq, Structural, Debug)]
pub enum ProjectionElem {
    Deref,
    Other,
}

/// A place, with its type as the MIR typing gives it.
#[derive(Clone, Debug)]
pub struct Place {
    pub local: Local,
    pub projection: Vec<ProjectionElem>,
    pub ty: TyId,
}

impl Place {
    pub open spec fn spec_as_local(&self) -> Option<Local> {
        if self.projection@.len() == 0 {
            Some(self.local)
        } else {
            None
        }
    }

    pub fn as_local(&self) -> (local: Option<Local>)
        ensures
            local == self.spec_as_local(),
    {
        if self.projection.len() == 0 {
            Some(self.local)
        } else {
            None
        }
    }
}

/// A constant operand: its type and, where it evaluates to bits, its value.
#[derive(Clone, Copy, PartialEq, Eq, Structural, Debug)]
pub struct ConstOperand {
    pub ty: TyId,
    pub bits: Option<u128>,
}

#[derive(Clone, Debug)]
pub enum Operand {
    Copy(Place),
    Move(Place),
    Constant(ConstOperand),
    /// A runtime-checks flag, of type `bool`.
    RuntimeChecks,
}

#[derive(Clone, Debug)]
pub enum Rvalue {
    Use(Operand),
    CopyForDeref(Place),
    Ref(Place),
    Repeat(Operand),
    Cast(Operand),
    WrapUnsafeBinder(Operand),
    Aggregate(Vec<Operand>),
    /// Any other rvalue, with its type.
    Other(TyId),
}

#[derive(Clone, Debug)]
pub enum Statement {
    Assign(Place, Rvalue),
    StorageLive(Local),
    StorageDead(Local),
    Nop,
}

#[derive(Clone, Debug)]
pub struct SwitchTargets {
    pub values: Vec<u128>,
    pub targets: Vec<BasicBlock>,
    pub otherwise: BasicBlock,
}

#[derive(Clone, Debug)]
pub enum TerminatorKind {
    Return,
    Goto { target: BasicBlock },
    SwitchInt { discr: Operand, targets: SwitchTargets },
    Call { args: Vec<Operand>, destination: Place, target: Option<BasicBlock>, unwind: Option<BasicBlock> },
    Drop { place: Place, target: BasicBlock, unwind: Option<BasicBlock> },
    /// Any other terminator, with its successors.
    Other(Vec<BasicBlock>),
}

#[derive(Clone, Debug)]
pub struct Terminator {
    pub kind: TerminatorKind,
    pub span: u64,
}

#[derive(Clone, Debug)]
pub struct BasicBlockData {
    pub statements: Vec<Statement>,
    pub terminator: Terminator,
}

/// A MIR body: the types of its locals (the return place first, then the
/// arguments), and its blocks.
#[derive(Clone, Debug)]
pub struct Body {
    pub local_decls: Vec<TyId>,
    pub arg_count: usize,
    pub basic_blocks: Vec<BasicBlockData>,
    pub span: u64,
}

/// `f` may answer `Continue` on `r`.
pub open spec fn continues<F: Fn(Region) -> ControlFlow<()>>(f: &F, r: Region) -> bool {
    exists|c: ControlFlow<()>| #[trigger] f.ensures((r,), c) && c is Continue
}

/// Calls `f` on the free regions of `ty` in visiting order, repeats
/// included and bound regions left out, and stops at the first call that
/// answers `Break`: then it answers `Break`, else `Continue`. `f` is not
/// called again after a `Break`.
pub fn visit_region_occurrences<F: Fn(Region) -> ControlFlow<()>>(tcx: &TyCtxt, ty: TyId, f: &F) -> (flow: ControlFlow<()>)
    requires
        tcx.wf(),
        tcx.valid_ty(ty),
        forall|r: Region| f.requires((r,)),
    ensures
        all_free(tcx.regions_ty(ty)),
        flow is Break ==> exists|i: int, c: ControlFlow<()>|
            0 <= i < tcx.regions_ty(ty).len() && #[trigger] f.ensures((tcx.regions_ty(ty)[i],), c) && c is Break,
        flow is Continue ==> forall|i: int|
            0 <= i < tcx.regions_ty(ty).len() ==> #[trigger] continues(f, tcx.regions_ty(ty)[i]),
{
    let regions = region_occurrences(tcx, ty);
    proof {
        tcx.lemma_regions_ty_free(ty);
    }
    let n = regions.len();
    let ghost mut results: Seq<ControlFlow<()>> = Seq::empty();
    let mut k: usize = 0;
    while k < n
        invariant
            n == regions@.len(),
            regions@ == tcx.regions_ty(ty),
            all_free(tcx.regions_ty(ty)),
            k <= n,
            forall|r: Region| f.requires((r,)),
            results.len() == k,
            forall|i: int| 0 <= i < k ==> #[trigger] f.ensures((regions@[i],), results[i]) && results[i] is Continue,
        decreases n - k,
    {
        let r = regions[k];
        let c = f(r);
        if let ControlFlow::Break(_) = c {
            proof {
                assert(f.ensures((tcx.regions_ty(ty)[k as int],), c));
            }
            return ControlFlow::Break(());
        }
        proof {
            results = results.push(c);
            assert forall|i: int| 0 <= i < k + 1 implies #[trigger] f.ensures((regions@[i],), results[i])
                && results[i] is Continue by {
                if i < k {
                    assert(results[i] == results.drop_last()[i]);
                }
            }
        }
        k = k + 1;
    }
    proof {
        assert forall|i: int| 0 <= i < tcx.regions_ty(ty).len() implies #[trigger] continues(f, tcx.regions_ty(ty)[i]) by {
            assert(f.ensures((regions@[i],), results[i]));
        }
    }
    ControlFlow::Continue(())
}

/// The free regions of `ty`, in visiting order.
pub fn region_occurrences(tcx: &TyCtxt, ty: TyId) -> (regions: Vec<Region>)
    requires
        tcx.wf(),
        tcx.valid_ty(ty),
    ensures
        regions@ == tcx.regions_ty(ty),
        all_free(regions@),
{
    let mut regions = Vec::new();
    tcx.visit_regions_ty(ty, &mut regions);
    proof {
        assert(regions@ =~= tcx.regions_ty(ty));
        tcx.lemma_regions_ty_free(ty);
    }
    regions
}

pub fn region_occurrence_count(tcx: &TyCtxt, ty: TyId) -> (count: usize)
    requires
        tcx.wf(),
        tcx.valid_ty(ty),
    ensures
        count == tcx.regions_ty(ty).len(),
{
    let regions = region_occurrences(tcx, ty);
    regions.len()
}

pub fn has_region_occurrence(tcx: &TyCtxt, ty: TyId) -> (has: bool)
    requires
        tcx.wf(),
        tcx.valid_ty(ty),
    ensures
        has == (tcx.regions_ty(ty).len() > 0),
{
    let stop = |_r: Region| -> (c: ControlFlow<()>)
        ensures
            c is Break,
        { ControlFlow::Break(()) };
    let flow = visit_region_occurrences(tcx, ty, &stop);
    proof {
        if flow is Continue && tcx.regions_ty(ty).len() > 0 {
            assert(continues(&stop, tcx.regions_ty(ty)[0]));
            let c = choose|c: ControlFlow<()>| #[trigger] stop.ensures((tcx.regions_ty(ty)[0],), c) && c is Continue;
            assert(c is Break);
        }
    }
    matches!(flow, ControlFlow::Break(_))
}

pub proof fn lemma_mul_le(a: int, b: int, w: int)
    by (nonlinear_arith)
    requires
        0 <= a <= b,
        0 <= w,
    ensures
        a * w <= b * w,
{
}

pub proof fn lemma_slot_words(slot: int, total: int, w: int)
    by (nonlinear_arith)
    requires
        0 <= slot < total,
        0 <= w,
    ensures
        0 <= slot * w,
        slot * w + w <= total * w,
{
}

/// Where each local's slots lie, and how many words one set of bits takes.
pub struct Layout {
    pub offsets: Vec<usize>,
    pub words_per_set: usize,
    pub unknown_bit: usize,
}

impl Layout {
    pub open spec fn n_locals(&self) -> int {
        self.offsets@.len() - 1
    }

    pub open spec fn total_slots(&self) -> int {
        self.offsets@[self.offsets@.len() - 1] as int
    }

    pub open spec fn w(&self) -> int {
        self.words_per_set as int
    }

    pub open spec fn spec_state_words(&self) -> int {
        self.total_slots() * self.w()
    }

    pub open spec fn wf(&self) -> bool {
        &&& 1 <= self.offsets@.len() <= usize::MAX
        &&& self.offsets@[0] == 0
        &&& forall|i: int, j: int|
            0 <= i <= j < self.offsets@.len() ==> #[trigger] self.offsets@[i] <= #[trigger] self.offsets@[j]
        &&& self.words_per_set == self.unknown_bit / 64 + 1
        &&& self.spec_state_words() <= usize::MAX
    }

    pub open spec fn lo(&self, local: int) -> int {
        self.offsets@[local] * self.w()
    }

    pub open spec fn hi(&self, local: int) -> int {
        self.offsets@[local + 1] * self.w()
    }

    pub open spec fn slot_count(&self, local: int) -> int {
        self.offsets@[local + 1] - self.offsets@[local]
    }

    /// The word of a slot's set that holds the unknown bit, and its mask.
    pub open spec fn unknown_mask(&self) -> u64 {
        1u64 << ((self.unknown_bit % 64) as u64)
    }

    /// The words of `local` once every slot of it holds only the unknown bit.
    pub open spec fn unknown_word(&self, i: int) -> u64 {
        if i % self.w() == self.unknown_bit / 64 {
            self.unknown_mask()
        } else {
            0
        }
    }

    pub open spec fn spec_clear_local(&self, s: Seq<u64>, local: int) -> Seq<u64> {
        Seq::new(s.len(), |i: int| if self.lo(local) <= i < self.hi(local) { 0u64 } else { s[i] })
    }

    pub open spec fn spec_set_unknown_local(&self, s: Seq<u64>, local: int) -> Seq<u64> {
        Seq::new(
            s.len(),
            |i: int| if self.lo(local) <= i < self.hi(local) { self.unknown_word(i) } else { s[i] },
        )
    }

    pub open spec fn spec_set_bit(&self, s: Seq<u64>, slot: int, bit: int) -> Seq<u64> {
        let i = slot * self.w() + bit / 64;
        s.update(i, s[i] | (1u64 << ((bit % 64) as u64)))
    }

    pub open spec fn spec_copy_local(&self, s: Seq<u64>, destination: int, source: int) -> Seq<u64> {
        if self.slot_count(destination) != self.slot_count(source) {
            self.spec_set_unknown_local(s, destination)
        } else if destination == source {
            s
        } else {
            Seq::new(
                s.len(),
                |i: int|
                    if self.lo(destination) <= i < self.hi(destination) {
                        s[i - self.lo(destination) + self.lo(source)]
                    } else {
                        s[i]
                    },
            )
        }
    }

    /// The local is one of the layout's, and the state holds all its words.
    /// `after` differs from `before` at most in the words of `local`'s slots.
    pub open spec fn only_local_changed(&self, before: Seq<u64>, after: Seq<u64>, local: int) -> bool {
        &&& after.len() == before.len()
        &&& forall|i: int|
            0 <= i < before.len() && !(self.lo(local) <= i < self.hi(local)) ==> #[trigger] after[i] == before[i]
    }

    pub open spec fn local_ok(&self, s: Seq<u64>, local: int) -> bool {
        &&& 0 <= local < self.n_locals()
        &&& s.len() >= self.spec_state_words()
    }

    pub proof fn lemma_local_range(&self, local: int)
        requires
            self.wf(),
            0 <= local < self.n_locals(),
        ensures
            0 <= self.lo(local) <= self.hi(local) <= self.spec_state_words(),
            self.slot_count(local) >= 0,
    {
        lemma_mul_le(self.offsets@[local] as int, self.offsets@[local + 1] as int, self.w());
        lemma_mul_le(self.offsets@[local + 1] as int, self.total_slots(), self.w());
        assert(self.offsets@[local + 1] <= self.offsets@[self.offsets@.len() - 1]);
    }

    /// Two different locals have disjoint words.
    pub proof fn lemma_locals_disjoint(&self, a: int, b: int)
        requires
            self.wf(),
            0 <= a < self.n_locals(),
            0 <= b < self.n_locals(),
            a != b,
        ensures
            self.hi(a) <= self.lo(b) || self.hi(b) <= self.lo(a),
    {
        if a < b {
            lemma_mul_le(self.offsets@[a + 1] as int, self.offsets@[b] as int, self.w());
        } else {
            lemma_mul_le(self.offsets@[b + 1] as int, self.offsets@[a] as int, self.w());
        }
    }

    pub fn local_slots(&self, local: Local) -> (slots: std::ops::Range<usize>)
        requires
            self.wf(),
            local < self.n_locals(),
        ensures
            slots.start == self.offsets@[local as int],
            slots.end == self.offsets@[local + 1],
            slots.start <= slots.end,
    {
        self.offsets[local]..self.offsets[local + 1]
    }

    pub fn state_words(&self) -> (n: usize)
        requires
            self.wf(),
        ensures
            n == self.spec_state_words(),
    {
        self.offsets[self.offsets.len() - 1] * self.words_per_set
    }

    /// The largest number of slots of one local.
    pub fn max_local_slots(&self) -> (max: usize)
        requires
            self.wf(),
        ensures
            forall|l: int| 0 <= l < self.n_locals() ==> self.slot_count(l) <= max,
            self.n_locals() > 0 ==> exists|l: int| 0 <= l < self.n_locals() && self.slot_count(l) == max,
            self.n_locals() == 0 ==> max == 0,
    {
        let mut max: usize = 0;
        let mut i: usize = 0;
        let n = self.offsets.len() - 1;
        while i < n
            invariant
                self.wf(),
                n == self.n_locals(),
                i <= n,
                forall|l: int| 0 <= l < i ==> self.slot_count(l) <= max,
                i > 0 ==> exists|l: int| 0 <= l < i && self.slot_count(l) == max,
                i == 0 ==> max == 0,
            decreases n - i,
        {
            let len = self.offsets[i + 1] - self.offsets[i];
            if i == 0 || len > max {
                max = len;
                assert(self.slot_count(i as int) == max);
            }
            i = i + 1;
        }
        max
    }

    pub fn slot_words(&self, slot: usize) -> (words: std::ops::Range<usize>)
        requires
            self.wf(),
            slot < self.total_slots(),
        ensures
            words.start == slot * self.w(),
            words.end == slot * self.w() + self.w(),
            words.end <= self.spec_state_words(),
    {
        proof {
            lemma_slot_words(slot as int, self.total_slots(), self.w());
        }
        let start = slot * self.words_per_set;
        start..start + self.words_per_set
    }

    pub fn clear_local(&self, state: &mut Vec<u64>, local: Local)
        requires
            self.wf(),
            self.local_ok(old(state)@, local as int),
        ensures
            final(state)@ == self.spec_clear_local(old(state)@, local as int),
            self.only_local_changed(old(state)@, final(state)@, local as int),
    {
        proof {
            self.lemma_local_range(local as int);
        }
        let start = self.offsets[local] * self.words_per_set;
        let end = self.offsets[local + 1] * self.words_per_set;
        let mut i = start;
        while i < end
            invariant
                self.wf(),
                start == self.lo(local as int),
                end == self.hi(local as int),
                start <= i <= end,
                end <= state@.len(),
                state@.len() == old(state)@.len(),
                forall|j: int| 0 <= j < state@.len() ==> #[trigger] state@[j] == if start <= j < i {
                    0u64
                } else {
                    old(state)@[j]
                },
            decreases end - i,
        {
            state.set(i, 0);
            i = i + 1;
        }
        proof {
            assert(state@ =~= self.spec_clear_local(old(state)@, local as int));
        }
    }

    pub fn set_bit(&self, state: &mut Vec<u64>, slot: usize, bit: usize)
        requires
            self.wf(),
            slot < self.total_slots(),
            bit <= self.unknown_bit,
            old(state)@.len() >= self.spec_state_words(),
        ensures
            final(state)@ == self.spec_set_bit(old(state)@, slot as int, bit as int),
            final(state)@.len() == old(state)@.len(),
    {
        let words = self.slot_words(slot);
        let i = words.start + bit / 64;
        state.set(i, state[i] | (1u64 << ((bit % 64) as u64)));
    }

    pub fn set_unknown_local(&self, state: &mut Vec<u64>, local: Local)
        requires
            self.wf(),
            self.local_ok(old(state)@, local as int),
        ensures
            final(state)@ == self.spec_set_unknown_local(old(state)@, local as int),
            self.only_local_changed(old(state)@, final(state)@, local as int),
    {
        proof {
            self.lemma_local_range(local as int);
        }
        self.clear_local(state, local);
        let slots = self.local_slots(local);
        let mut slot = slots.start;
        while slot < slots.end
            invariant
                self.wf(),
                self.local_ok(old(state)@, local as int),
                slots.start == self.offsets@[local as int],
                slots.end == self.offsets@[local + 1],
                slots.start <= slot <= slots.end,
                state@.len() == old(state)@.len(),
                forall|j: int|
                    0 <= j < state@.len() ==> #[trigger] state@[j] == if self.lo(local as int) <= j
                        < slot * self.w() {
                        self.unknown_word(j)
                    } else if slot * self.w() <= j < self.hi(local as int) {
                        0u64
                    } else {
                        old(state)@[j]
                    },
            decreases slots.end - slot,
        {
            proof {
                lemma_slot_words(slot as int, self.total_slots(), self.w());
                assert(self.offsets@[local + 1] <= self.offsets@[self.offsets@.len() - 1]);
                lemma_slot_words(slot as int, slots.end as int, self.w());
                lemma_mul_le(slots.start as int, slot as int, self.w());
            }
            let ghost before = state@;
            self.set_bit(state, slot, self.unknown_bit);
            proof {
                let k = slot * self.w() + self.unknown_bit / 64;
                lemma_word_in_slot(slot as int, self.w(), (self.unknown_bit / 64) as int);
                assert forall|j: int| 0 <= j < state@.len() implies #[trigger] state@[j] == if self.lo(local as int)
                    <= j < (slot + 1) * self.w() {
                    self.unknown_word(j)
                } else if (slot + 1) * self.w() <= j < self.hi(local as int) {
                    0u64
                } else {
                    old(state)@[j]
                } by {
                    assert((slot + 1) * self.w() == slot * self.w() + self.w()) by (nonlinear_arith);
                    if slot * self.w() <= j < (slot + 1) * self.w() {
                        lemma_word_in_slot(slot as int, self.w(), j - slot * self.w());
                        if j == k {
                            let m = self.unknown_mask();
                            assert(0u64 | m == m) by (bit_vector);
                        }
                    }
                }
            }
            slot = slot + 1;
        }
        proof {
            assert(state@ =~= self.spec_set_unknown_local(old(state)@, local as int));
        }
    }

    pub fn copy_local(&self, state: &mut Vec<u64>, destination: Local, source: Local)
        requires
            self.wf(),
            self.local_ok(old(state)@, destination as int),
            self.local_ok(old(state)@, source as int),
        ensures
            final(state)@ == self.spec_copy_local(old(state)@, destination as int, source as int),
            self.only_local_changed(old(state)@, final(state)@, destination as int),
    {
        let dst = self.local_slots(destination);
        let src = self.local_slots(source);
        if dst.end - dst.start != src.end - src.start {
            self.set_unknown_local(state, destination);
            return;
        }
        if destination == source {
            return;
        }
        proof {
            self.lemma_local_range(destination as int);
            self.lemma_local_range(source as int);
            self.lemma_locals_disjoint(destination as int, source as int);
        }
        self.clear_local(state, destination);
        let dlo = self.offsets[destination] * self.words_per_set;
        let dhi = self.offsets[destination + 1] * self.words_per_set;
        let slo = self.offsets[source] * self.words_per_set;
        proof {
            assert(dhi - dlo == (self.offsets@[destination + 1] - self.offsets@[destination as int]) * self.w()) by (nonlinear_arith)
                requires dhi == self.offsets@[destination + 1] * self.w(), dlo == self.offsets@[destination as int] * self.w();
            assert(self.hi(source as int) - slo == (self.offsets@[source + 1] - self.offsets@[source as int]) * self.w()) by (nonlinear_arith)
                requires slo == self.offsets@[source as int] * self.w();
        }
        let mut i = dlo;
        while i < dhi
            invariant
                self.wf(),
                dlo == self.lo(destination as int),
                dhi == self.hi(destination as int),
                slo == self.lo(source as int),
                dhi - dlo == self.hi(source as int) - slo,
                self.hi(destination as int) <= self.lo(source as int) || self.hi(source as int) <= self.lo(destination as int),
                self.hi(source as int) <= state@.len(),
                dhi <= state@.len(),
                dlo <= i <= dhi,
                state@.len() == old(state)@.len(),
                self.hi(source as int) <= self.spec_state_words(),
                forall|j: int| 0 <= j < state@.len() ==> #[trigger] state@[j] == if dlo <= j < i {
                    old(state)@[j - dlo + slo]
                } else if i <= j < dhi {
                    0u64
                } else {
                    old(state)@[j]
                },
            decreases dhi - i,
        {
            let value = state[slo + (i - dlo)];
            state.set(i, value);
            i = i + 1;
        }
        proof {
            assert(state@ =~= self.spec_copy_local(old(state)@, destination as int, source as int));
        }
    }
}


/// The sum of the region counts of the first `k` local declarations.
pub open spec fn slots_prefix(tcx: &TyCtxt, decls: Seq<TyId>, k: int) -> int
    decreases k,
{
    if k <= 0 {
        0
    } else {
        slots_prefix(tcx, decls, k - 1) + tcx.regions_ty(decls[k - 1]).len()
    }
}

pub proof fn lemma_slots_prefix_mono(tcx: &TyCtxt, decls: Seq<TyId>, i: int, j: int)
    requires
        0 <= i <= j,
    ensures
        slots_prefix(tcx, decls, i) <= slots_prefix(tcx, decls, j),
    decreases j - i,
{
    if i < j {
        lemma_slots_prefix_mono(tcx, decls, i, j - 1);
    }
}

pub open spec fn words_for(source_count: int) -> int {
    source_count / 64 + 1
}

impl Layout {
    /// The layout of a body's locals for `source_count` input region sources.
    pub fn new(tcx: &TyCtxt, body: &Body, source_count: usize) -> (layout: Self)
        requires
            tcx.wf(),
            forall|i: int| 0 <= i < body.local_decls@.len() ==> tcx.valid_ty(#[trigger] body.local_decls@[i]),
            slots_prefix(tcx, body.local_decls@, body.local_decls@.len() as int) * words_for(
                source_count as int,
            ) <= usize::MAX,
        ensures
            layout.wf(),
            layout.n_locals() == body.local_decls@.len(),
            forall|i: int| 0 <= i < layout.offsets@.len() ==> #[trigger] layout.offsets@[i] == slots_prefix(tcx, body.local_decls@, i),
            layout.unknown_bit == source_count,
    {
        let n = body.local_decls.len();
        let ghost total = slots_prefix(tcx, body.local_decls@, n as int);
        proof {
            lemma_slots_prefix_mono(tcx, body.local_decls@, 0, n as int);
            assert(total <= usize::MAX) by (nonlinear_arith)
                requires total * words_for(source_count as int) <= usize::MAX, total >= 0,
                    words_for(source_count as int) >= 1;
        }
        let mut offsets: Vec<usize> = Vec::new();
        offsets.push(0);
        let mut i: usize = 0;
        while i < n
            invariant
                tcx.wf(),
                n == body.local_decls@.len(),
                forall|j: int| 0 <= j < body.local_decls@.len() ==> tcx.valid_ty(#[trigger] body.local_decls@[j]),
                total == slots_prefix(tcx, body.local_decls@, n as int),
                total <= usize::MAX,
                i <= n,
                offsets@.len() == i + 1,
                forall|j: int| 0 <= j <= i ==> #[trigger] offsets@[j] == slots_prefix(tcx, body.local_decls@, j),
            decreases n - i,
        {
            proof {
                lemma_slots_prefix_mono(tcx, body.local_decls@, i + 1, n as int);
            }
            let last = offsets[i];
            let count = region_occurrence_count(tcx, body.local_decls[i]);
            offsets.push(last + count);
            i = i + 1;
        }
        let len = offsets.len();
        assert(len == offsets@.len());
        let layout = Layout { offsets, words_per_set: source_count / 64 + 1, unknown_bit: source_count };
        proof {
            assert forall|a: int, b: int| 0 <= a <= b < layout.offsets@.len() implies #[trigger] layout.offsets@[a]
                <= #[trigger] layout.offsets@[b] by {
                lemma_slots_prefix_mono(tcx, body.local_decls@, a, b);
            }
            assert(layout.offsets@.len() == n + 1);
            assert(layout.offsets@[layout.offsets@.len() - 1] == total);
        }
        layout
    }
}

/// Merges `source` into `destination`, word by word; says whether a word changed.
pub fn merge_state(destination: &mut Vec<u64>, source: &Vec<u64>) -> (changed: bool)
    ensures
        final(destination)@.len() == old(destination)@.len(),
        forall|i: int| 0 <= i < old(destination)@.len() ==> #[trigger] final(destination)@[i] == if i
            < source@.len() {
            old(destination)@[i] | source@[i]
        } else {
            old(destination)@[i]
        },
        changed == exists|i: int| 0 <= i < old(destination)@.len() && #[trigger] final(destination)@[i] != old(destination)@[i],
{
    let mut changed = false;
    let n = if destination.len() < source.len() {
        destination.len()
    } else {
        source.len()
    };
    let mut i: usize = 0;
    while i < n
        invariant
            n <= destination@.len(),
            n <= source@.len(),
            destination@.len() == old(destination)@.len(),
            i <= n,
            forall|j: int| 0 <= j < destination@.len() ==> #[trigger] destination@[j] == if j < i {
                old(destination)@[j] | source@[j]
            } else {
                old(destination)@[j]
            },
            changed == exists|j: int| 0 <= j < i && #[trigger] destination@[j] != old(destination)@[j],
        decreases n - i,
    {
        let old_word = destination[i];
        let ghost before = destination@;
        destination.set(i, old_word | source[i]);
        let ghost prev = changed;
        changed = changed || old_word != destination[i];
        proof {
            if old_word != destination[i as int] {
                assert(0 <= i < i + 1 && destination@[i as int] != old(destination)@[i as int]);
            }
            if prev {
                let j = choose|j: int| 0 <= j < i && #[trigger] before[j] != old(destination)@[j];
                assert(destination@[j] == before[j]);
                assert(0 <= j < i + 1 && destination@[j] != old(destination)@[j]);
            }
            if !changed {
                assert forall|j: int| 0 <= j < i + 1 implies !(#[trigger] destination@[j] != old(destination)@[j]) by {
                    if j < i {
                        assert(!(0 <= j < i && destination@[j] != old(destination)@[j]));
                    }
                }
            }
        }
        i = i + 1;
    }
    proof {
        if changed {
            let j = choose|j: int| 0 <= j < i && #[trigger] destination@[j] != old(destination)@[j];
            assert(0 <= j < old(destination)@.len() && destination@[j] != old(destination)@[j]);
        } else {
            assert forall|j: int| 0 <= j < old(destination)@.len() implies #[trigger] destination@[j] == old(destination)@[j] by {
                if j >= n {
                    if j < source@.len() {
                    }
                }
            }
        }
    }
    changed
}


pub open spec fn spec_operand_local(operand: Operand) -> Option<Local> {
    match operand {
        Operand::Copy(place) | Operand::Move(place) => place.spec_as_local(),
        Operand::Constant(_) | Operand::RuntimeChecks => None,
    }
}

/// The number of region occurrences of the operand's type.
pub open spec fn operand_ty_slots(tcx: &TyCtxt, operand: Operand) -> int {
    match operand {
        Operand::Copy(place) | Operand::Move(place) => tcx.regions_ty(place.ty).len() as int,
        Operand::Constant(c) => tcx.regions_ty(c.ty).len() as int,
        Operand::RuntimeChecks => 0,
    }
}

pub open spec fn place_ok(tcx: &TyCtxt, n_locals: int, place: Place) -> bool {
    place.local < n_locals && tcx.valid_ty(place.ty)
}

pub open spec fn operand_ok(tcx: &TyCtxt, n_locals: int, operand: Operand) -> bool {
    match operand {
        Operand::Copy(place) | Operand::Move(place) => place_ok(tcx, n_locals, place),
        Operand::Constant(c) => tcx.valid_ty(c.ty),
        Operand::RuntimeChecks => true,
    }
}

/// The operand's type is interned.
pub open spec fn operand_ty_ok(tcx: &TyCtxt, operand: Operand) -> bool {
    match operand {
        Operand::Copy(place) | Operand::Move(place) => tcx.valid_ty(place.ty),
        Operand::Constant(c) => tcx.valid_ty(c.ty),
        Operand::RuntimeChecks => true,
    }
}

pub open spec fn rvalue_ok(tcx: &TyCtxt, n_locals: int, rvalue: Rvalue) -> bool {
    match rvalue {
        Rvalue::Use(op) | Rvalue::Repeat(op) | Rvalue::Cast(op) | Rvalue::WrapUnsafeBinder(op) => operand_ok(
            tcx,
            n_locals,
            op,
        ),
        Rvalue::CopyForDeref(place) | Rvalue::Ref(place) => place_ok(tcx, n_locals, place),
        Rvalue::Aggregate(ops) => forall|k: int| 0 <= k < ops@.len() ==> operand_ok(tcx, n_locals, #[trigger] ops@[k]),
        Rvalue::Other(ty) => tcx.valid_ty(ty),
    }
}

pub open spec fn statement_ok(tcx: &TyCtxt, n_locals: int, statement: Statement) -> bool {
    match statement {
        Statement::Assign(place, rvalue) => place_ok(tcx, n_locals, place) && rvalue_ok(tcx, n_locals, rvalue),
        Statement::StorageLive(local) | Statement::StorageDead(local) => local < n_locals,
        Statement::Nop => true,
    }
}

/// The number of words that the operands `0..k` of an aggregate fill.
pub open spec fn aggregate_len(tcx: &TyCtxt, w: int, ops: Seq<Operand>, k: int) -> int
    decreases k,
{
    if k <= 0 {
        0
    } else {
        aggregate_len(tcx, w, ops, k - 1) + operand_ty_slots(tcx, ops[k - 1]) * w
    }
}

/// Every aggregate rvalue fits its scratch words in memory.
pub open spec fn rvalue_fits(tcx: &TyCtxt, w: int, rvalue: Rvalue) -> bool {
    match rvalue {
        Rvalue::Aggregate(ops) => aggregate_len(tcx, w, ops@, ops@.len() as int) <= usize::MAX,
        _ => true,
    }
}

impl Layout {
    pub open spec fn spec_assign_operand(&self, s: Seq<u64>, destination: int, operand: Operand) -> Seq<u64> {
        match operand {
            Operand::Copy(place) | Operand::Move(place) => match place.spec_as_local() {
                Some(source) => self.spec_copy_local(s, destination, source as int),
                None => self.spec_set_unknown_local(s, destination),
            },
            Operand::Constant(_) | Operand::RuntimeChecks => self.spec_clear_local(s, destination),
        }
    }

    pub open spec fn spec_assign_ref(&self, s: Seq<u64>, destination: int, place: Place) -> Seq<u64> {
        if place.projection@.len() > 0 && place.projection@[0] == ProjectionElem::Deref
            && self.slot_count(destination) == self.slot_count(place.local as int) {
            self.spec_copy_local(s, destination, place.local as int)
        } else {
            self.spec_set_unknown_local(s, destination)
        }
    }

    /// The words that one operand of an aggregate contributes.
    pub open spec fn aggregate_part(&self, tcx: &TyCtxt, s: Seq<u64>, operand: Operand) -> Seq<u64> {
        let slots = operand_ty_slots(tcx, operand);
        match spec_operand_local(operand) {
            Some(local) => if self.slot_count(local as int) == slots {
                s.subrange(self.lo(local as int), self.hi(local as int))
            } else {
                Seq::new((slots * self.w()) as nat, |i: int| self.unknown_word(i))
            },
            None => if operand is Constant || operand is RuntimeChecks {
                Seq::new((slots * self.w()) as nat, |i: int| 0u64)
            } else {
                Seq::new((slots * self.w()) as nat, |i: int| self.unknown_word(i))
            },
        }
    }

    pub open spec fn aggregate_scratch(&self, tcx: &TyCtxt, s: Seq<u64>, ops: Seq<Operand>, k: int) -> Seq<u64>
        decreases k,
    {
        if k <= 0 {
            Seq::empty()
        } else {
            self.aggregate_scratch(tcx, s, ops, k - 1) + self.aggregate_part(tcx, s, ops[k - 1])
        }
    }

    pub open spec fn spec_assign_rvalue(&self, tcx: &TyCtxt, s: Seq<u64>, destination: int, rvalue: Rvalue) -> Seq<u64> {
        match rvalue {
            Rvalue::Use(operand) => self.spec_assign_operand(s, destination, operand),
            Rvalue::CopyForDeref(place) => match place.spec_as_local() {
                Some(source) => self.spec_copy_local(s, destination, source as int),
                None => self.spec_set_unknown_local(s, destination),
            },
            Rvalue::Ref(place) => self.spec_assign_ref(s, destination, place),
            Rvalue::Repeat(operand) | Rvalue::Cast(operand) | Rvalue::WrapUnsafeBinder(operand) => {
                if self.slot_count(destination) == operand_ty_slots(tcx, operand) {
                    self.spec_assign_operand(s, destination, operand)
                } else if self.slot_count(destination) == 0 {
                    self.spec_clear_local(s, destination)
                } else {
                    self.spec_set_unknown_local(s, destination)
                }
            },
            Rvalue::Aggregate(ops) => {
                let scratch = self.aggregate_scratch(tcx, s, ops@, ops@.len() as int);
                if scratch.len() == self.slot_count(destination) * self.w() {
                    Seq::new(
                        s.len(),
                        |i: int|
                            if self.lo(destination) <= i < self.hi(destination) {
                                scratch[i - self.lo(destination)]
                            } else {
                                s[i]
                            },
                    )
                } else {
                    self.spec_set_unknown_local(s, destination)
                }
            },
            Rvalue::Other(ty) => if tcx.regions_ty(ty).len() > 0 {
                self.spec_set_unknown_local(s, destination)
            } else {
                self.spec_clear_local(s, destination)
            },
        }
    }

    pub open spec fn spec_statement(&self, tcx: &TyCtxt, s: Seq<u64>, statement: Statement) -> Seq<u64> {
        match statement {
            Statement::Assign(place, rvalue) => match place.spec_as_local() {
                Some(destination) => self.spec_assign_rvalue(tcx, s, destination as int, rvalue),
                None => if tcx.regions_ty(place.ty).len() > 0 {
                    self.spec_set_unknown_local(s, place.local as int)
                } else {
                    s
                },
            },
            Statement::StorageLive(local) | Statement::StorageDead(local) => self.spec_clear_local(
                s,
                local as int,
            ),
            Statement::Nop => s,
        }
    }
}

pub fn operand_local(operand: &Operand) -> (local: Option<Local>)
    ensures
        local == spec_operand_local(*operand),
{
    match operand {
        Operand::Copy(place) | Operand::Move(place) => place.as_local(),
        Operand::Constant(_) | Operand::RuntimeChecks => None,
    }
}

pub fn assign_operand(layout: &Layout, state: &mut Vec<u64>, destination: Local, operand: &Operand)
    requires
        layout.wf(),
        layout.local_ok(old(state)@, destination as int),
        operand_ok_for(layout, *operand),
    ensures
        final(state)@ == layout.spec_assign_operand(old(state)@, destination as int, *operand),
        layout.only_local_changed(old(state)@, final(state)@, destination as int),
{
    match operand {
        Operand::Copy(place) | Operand::Move(place) => {
            if let Some(source) = place.as_local() {
                layout.copy_local(state, destination, source);
            } else {
                layout.set_unknown_local(state, destination);
            }
        },
        Operand::Constant(_) | Operand::RuntimeChecks => layout.clear_local(state, destination),
    }
}

/// The operand's local, if it has one, is one of the layout's.
pub open spec fn operand_ok_for(layout: &Layout, operand: Operand) -> bool {
    match operand {
        Operand::Copy(place) | Operand::Move(place) => place.local < layout.n_locals(),
        _ => true,
    }
}

impl Layout {
    /// Copying local `source` into `destination`, where both have as many
    /// origin slots, gives the destination exactly the words of the source;
    /// where the counts differ, the destination becomes of unknown origin.
    /// No word outside the destination's changes.
    pub proof fn lemma_copy_local_origins(&self, s: Seq<u64>, destination: int, source: int)
        requires
            self.wf(),
            self.local_ok(s, destination),
            0 <= source < self.n_locals(),
        ensures
            ({
                let r = self.spec_copy_local(s, destination, source);
                &&& r.len() == s.len()
                &&& forall|i: int|
                    0 <= i < s.len() && !(self.lo(destination) <= i < self.hi(destination)) ==> #[trigger] r[i] == s[i]
                &&& self.slot_count(destination) == self.slot_count(source) ==> forall|k: int|
                    0 <= k < self.hi(destination) - self.lo(destination) ==> #[trigger] r[self.lo(destination) + k]
                        == s[self.lo(source) + k]
                &&& self.slot_count(destination) != self.slot_count(source) ==> forall|i: int|
                    self.lo(destination) <= i < self.hi(destination) ==> #[trigger] r[i] == self.unknown_word(i)
            }),
    {
        let r = self.spec_copy_local(s, destination, source);
        self.lemma_local_range(destination);
        self.lemma_local_range(source);
        if self.slot_count(destination) == self.slot_count(source) && destination != source {
            assert forall|k: int| 0 <= k < self.hi(destination) - self.lo(destination) implies #[trigger] r[self.lo(
                destination,
            ) + k] == s[self.lo(source) + k] by {
                assert(self.lo(destination) + k < s.len());
            }
        }
    }
}

impl Layout {
    /// Assigning a copy or a move of a whole local `p`, or a copy of it for a
    /// dereference, where `p` has as many origin slots as the destination,
    /// gives the destination exactly the words of `p`; assigning a constant
    /// leaves the destination with no origin at all.
    pub proof fn lemma_assign_use_origins(&self, tcx: &TyCtxt, s: Seq<u64>, destination: int, rvalue: Rvalue)
        requires
            self.wf(),
            self.local_ok(s, destination),
        ensures
            ({
                let r = self.spec_assign_rvalue(tcx, s, destination, rvalue);
                let lo = self.lo(destination);
                let hi = self.hi(destination);
                &&& (rvalue matches Rvalue::Use(op) && (op is Copy || op is Move)) || rvalue is CopyForDeref ==> {
                    let p = match rvalue {
                        Rvalue::Use(Operand::Copy(p)) | Rvalue::Use(Operand::Move(p)) | Rvalue::CopyForDeref(p) => p,
                        _ => arbitrary(),
                    };
                    p.projection@.len() == 0 && p.local < self.n_locals() && self.slot_count(destination) == self.slot_count(
                        p.local as int,
                    ) ==> forall|k: int| 0 <= k < hi - lo ==> #[trigger] r[lo + k] == s[self.lo(p.local as int) + k]
                }
                &&& (rvalue matches Rvalue::Use(op) && (op is Constant || op is RuntimeChecks)) ==> forall|i: int|
                    lo <= i < hi ==> #[trigger] r[i] == 0u64
            }),
    {
        self.lemma_local_range(destination);
        match rvalue {
            Rvalue::Use(Operand::Copy(p)) | Rvalue::Use(Operand::Move(p)) | Rvalue::CopyForDeref(p) => {
                if p.projection@.len() == 0 && p.local < self.n_locals() {
                    self.lemma_copy_local_origins(s, destination, p.local as int);
                }
            },
            _ => {},
        }
    }
}

impl Layout {
    /// A reference to a place that starts by dereferencing a local `p` with
    /// as many origin slots as the destination (a reborrow of `*p`) gives the
    /// destination exactly the origins of `p`, word for word; any other
    /// reference leaves the destination of unknown origin. No word outside
    /// the destination's changes.
    pub proof fn lemma_assign_ref_origins(&self, s: Seq<u64>, destination: int, place: Place)
        requires
            self.wf(),
            self.local_ok(s, destination),
            place.local < self.n_locals(),
        ensures
            ({
                let r = self.spec_assign_ref(s, destination, place);
                let src = place.local as int;
                let reborrow = place.projection@.len() > 0 && place.projection@[0] == ProjectionElem::Deref
                    && self.slot_count(destination) == self.slot_count(src);
                &&& r.len() == s.len()
                &&& forall|i: int|
                    0 <= i < s.len() && !(self.lo(destination) <= i < self.hi(destination)) ==> #[trigger] r[i] == s[i]
                &&& reborrow ==> forall|k: int|
                    0 <= k < self.hi(destination) - self.lo(destination) ==> #[trigger] r[self.lo(destination) + k] == s[self.lo(
                        src,
                    ) + k]
                &&& !reborrow ==> forall|i: int|
                    self.lo(destination) <= i < self.hi(destination) ==> #[trigger] r[i] == self.unknown_word(i)
            }),
    {
        let r = self.spec_assign_ref(s, destination, place);
        let src = place.local as int;
        self.lemma_local_range(destination);
        self.lemma_local_range(src);
        if place.projection@.len() > 0 && place.projection@[0] == ProjectionElem::Deref
            && self.slot_count(destination) == self.slot_count(src) {
            if destination != src {
                assert forall|k: int| 0 <= k < self.hi(destination) - self.lo(destination) implies #[trigger] r[self.lo(
                    destination,
                ) + k] == s[self.lo(src) + k] by {
                    assert(self.lo(destination) + k < s.len());
                }
            }
        }
    }
}

pub fn assign_ref(layout: &Layout, state: &mut Vec<u64>, destination: Local, place: &Place)
    requires
        layout.wf(),
        layout.local_ok(old(state)@, destination as int),
        place.local < layout.n_locals(),
    ensures
        final(state)@ == layout.spec_assign_ref(old(state)@, destination as int, *place),
        layout.only_local_changed(old(state)@, final(state)@, destination as int),
{
    let destination_slots = layout.local_slots(destination);
    let source_slots = layout.local_slots(place.local);
    if place.projection.len() > 0 && place.projection[0] == ProjectionElem::Deref
        && destination_slots.end - destination_slots.start == source_slots.end - source_slots.start {
        layout.copy_local(state, destination, place.local);
    } else {
        layout.set_unknown_local(state, destination);
    }
}


pub fn operand_slots(tcx: &TyCtxt, operand: &Operand) -> (slots: usize)
    requires
        tcx.wf(),
        operand_ty_ok(tcx, *operand),
    ensures
        slots == operand_ty_slots(tcx, *operand),
{
    match operand {
        Operand::Copy(place) | Operand::Move(place) => region_occurrence_count(tcx, place.ty),
        Operand::Constant(c) => region_occurrence_count(tcx, c.ty),
        Operand::RuntimeChecks => 0,
    }
}

pub proof fn lemma_aggregate_len(layout: &Layout, tcx: &TyCtxt, s: Seq<u64>, ops: Seq<Operand>, k: int)
    requires
        layout.wf(),
        0 <= k <= ops.len(),
        forall|j: int| 0 <= j < ops.len() && spec_operand_local(#[trigger] ops[j]) is Some
            ==> spec_operand_local(ops[j]).unwrap() < layout.n_locals(),
        s.len() >= layout.spec_state_words(),
    ensures
        layout.aggregate_scratch(tcx, s, ops, k).len() == aggregate_len(tcx, layout.w(), ops, k),
        aggregate_len(tcx, layout.w(), ops, k) >= 0,
    decreases k,
{
    if k > 0 {
        lemma_aggregate_len(layout, tcx, s, ops, k - 1);
        let op = ops[k - 1];
        let slots = operand_ty_slots(tcx, op);
        assert(slots >= 0);
        assert(slots * layout.w() >= 0) by (nonlinear_arith) requires slots >= 0, layout.w() >= 0;
        if let Some(local) = spec_operand_local(op) {
            if layout.slot_count(local as int) == slots {
                layout.lemma_local_range(local as int);
                assert(layout.hi(local as int) - layout.lo(local as int) == slots * layout.w()) by (nonlinear_arith)
                    requires layout.hi(local as int) == layout.offsets@[local + 1] * layout.w(),
                        layout.lo(local as int) == layout.offsets@[local as int] * layout.w(),
                        layout.offsets@[local + 1] - layout.offsets@[local as int] == slots;
            }
        }
    }
}

pub proof fn lemma_aggregate_len_mono(tcx: &TyCtxt, w: int, ops: Seq<Operand>, i: int, j: int)
    requires
        0 <= i <= j,
        w >= 0,
    ensures
        aggregate_len(tcx, w, ops, i) <= aggregate_len(tcx, w, ops, j),
    decreases j - i,
{
    if i < j {
        lemma_aggregate_len_mono(tcx, w, ops, i, j - 1);
        let slots = operand_ty_slots(tcx, ops[j - 1]);
        assert(slots * w >= 0) by (nonlinear_arith) requires slots >= 0, w >= 0;
    }
}

/// Appends to `scratch` the words that `operand` contributes to an aggregate.
pub fn push_aggregate_part(
    tcx: &TyCtxt,
    layout: &Layout,
    state: &Vec<u64>,
    scratch: &mut Vec<u64>,
    operand: &Operand,
)
    requires
        tcx.wf(),
        layout.wf(),
        state@.len() >= layout.spec_state_words(),
        operand_ok(tcx, layout.n_locals(), *operand),
        old(scratch)@.len() + operand_ty_slots(tcx, *operand) * layout.w() <= usize::MAX,
    ensures
        final(scratch)@ == old(scratch)@ + layout.aggregate_part(tcx, state@, *operand),
{
    let slots = operand_slots(tcx, operand);
    let w = layout.words_per_set;
    proof {
        assert(slots * w >= 0) by (nonlinear_arith) requires slots >= 0, w >= 0;
    }
    let local = operand_local(operand);
    let mut take_words = false;
    if let Some(l) = local {
        let range = layout.local_slots(l);
        take_words = range.end - range.start == slots;
    }
    if take_words {
        let l = local.unwrap();
        proof {
            layout.lemma_local_range(l as int);
        }
        let lo = layout.offsets[l] * w;
        let hi = layout.offsets[l + 1] * w;
        let mut i = lo;
        while i < hi
            invariant
                lo == layout.lo(l as int),
                hi == layout.hi(l as int),
                hi <= state@.len(),
                lo <= i <= hi,
                scratch@ == old(scratch)@ + state@.subrange(lo as int, i as int),
            decreases hi - i,
        {
            scratch.push(state[i]);
            proof {
                assert(scratch@ =~= old(scratch)@ + state@.subrange(lo as int, i + 1));
            }
            i = i + 1;
        }
        return;
    }
    let unknown = local.is_some() || !(matches!(operand, Operand::Constant(_)) || matches!(operand, Operand::RuntimeChecks));
    let word = layout.unknown_bit / 64;
    let mask = 1u64 << ((layout.unknown_bit % 64) as u64);
    let n = slots * w;
    let mut i: usize = 0;
    let mut j: usize = 0;
    while i < n
        invariant
            layout.wf(),
            w == layout.w(),
            w > 0,
            n == slots * w,
            old(scratch)@.len() + n <= usize::MAX,
            i <= n,
            j < w,
            (i as int) % (w as int) == j,
            word == layout.unknown_bit / 64,
            mask == layout.unknown_mask(),
            scratch@.len() == old(scratch)@.len() + i,
            forall|k: int| 0 <= k < old(scratch)@.len() ==> #[trigger] scratch@[k] == old(scratch)@[k],
            forall|k: int| 0 <= k < i ==> #[trigger] scratch@[old(scratch)@.len() + k] == if unknown {
                layout.unknown_word(k)
            } else {
                0u64
            },
        decreases n - i,
    {
        if unknown && j == word {
            scratch.push(mask);
        } else {
            scratch.push(0);
        }
        proof {
            assert((i + 1) % (w as int) == if j + 1 == w { 0 } else { j + 1 }) by (nonlinear_arith)
                requires (i as int) % (w as int) == j, j < w, w > 0, i >= 0;
        }
        i = i + 1;
        j = if j + 1 == w { 0 } else { j + 1 };
    }
    proof {
        let part = layout.aggregate_part(tcx, state@, *operand);
        assert(local.is_some() ==> layout.slot_count(local.unwrap() as int) != slots);
        assert(part.len() == n);
        assert forall|k: int| 0 <= k < n implies #[trigger] part[k] == if unknown {
            layout.unknown_word(k)
        } else {
            0u64
        } by {}
        let m = old(scratch)@.len() as int;
        assert forall|j: int| m <= j < scratch@.len() implies scratch@[j] == part[j - m] by {
            assert(scratch@[m + (j - m)] == part[j - m]);
        }
        assert(scratch@ =~= old(scratch)@ + part);
    }
}

pub fn assign_rvalue(
    tcx: &TyCtxt,
    layout: &Layout,
    state: &mut Vec<u64>,
    scratch: &mut Vec<u64>,
    destination: Local,
    rvalue: &Rvalue,
)
    requires
        tcx.wf(),
        layout.wf(),
        layout.local_ok(old(state)@, destination as int),
        rvalue_ok(tcx, layout.n_locals(), *rvalue),
        rvalue_fits(tcx, layout.w(), *rvalue),
    ensures
        final(state)@ == layout.spec_assign_rvalue(tcx, old(state)@, destination as int, *rvalue),
        layout.only_local_changed(old(state)@, final(state)@, destination as int),
{
    match rvalue {
        Rvalue::Use(operand) => assign_operand(layout, state, destination, operand),
        Rvalue::CopyForDeref(place) => {
            if let Some(source) = place.as_local() {
                layout.copy_local(state, destination, source);
            } else {
                layout.set_unknown_local(state, destination);
            }
        },
        Rvalue::Ref(place) => assign_ref(layout, state, destination, place),
        Rvalue::Repeat(operand) | Rvalue::Cast(operand) | Rvalue::WrapUnsafeBinder(operand) => {
            let range = layout.local_slots(destination);
            let destination_slots = range.end - range.start;
            if destination_slots == operand_slots(tcx, operand) {
                assign_operand(layout, state, destination, operand);
            } else if destination_slots == 0 {
                layout.clear_local(state, destination);
            } else {
                layout.set_unknown_local(state, destination);
            }
        },
        Rvalue::Aggregate(operands) => {
            let ghost s = state@;
            let destination_range = layout.local_slots(destination);
            scratch.clear();
            let n = operands.len();
            let mut k: usize = 0;
            while k < n
                invariant
                    tcx.wf(),
                    layout.wf(),
                    state@ == s,
                    s.len() >= layout.spec_state_words(),
                    n == operands@.len(),
                    k <= n,
                    forall|j: int| 0 <= j < operands@.len() ==> operand_ok(tcx, layout.n_locals(), #[trigger] operands@[j]),
                    aggregate_len(tcx, layout.w(), operands@, n as int) <= usize::MAX,
                    scratch@ == layout.aggregate_scratch(tcx, s, operands@, k as int),
                decreases n - k,
            {
                proof {
                    assert forall|j: int| 0 <= j < operands@.len() && spec_operand_local(#[trigger] operands@[j]) is Some
                        implies spec_operand_local(operands@[j]).unwrap() < layout.n_locals() by {
                        assert(operand_ok(tcx, layout.n_locals(), operands@[j]));
                    }
                    lemma_aggregate_len(layout, tcx, s, operands@, k as int);
                    lemma_aggregate_len_mono(tcx, layout.w(), operands@, k + 1, n as int);
                }
                push_aggregate_part(tcx, layout, state, scratch, &operands[k]);
                k = k + 1;
            }
            layout.clear_local(state, destination);
            proof {
                layout.lemma_local_range(destination as int);
            }
            let w = layout.words_per_set;
            let lo = layout.offsets[destination] * w;
            let hi = layout.offsets[destination + 1] * w;
            proof {
                assert(hi - lo == (destination_range.end - destination_range.start) * w) by (nonlinear_arith)
                    requires hi == destination_range.end * w, lo == destination_range.start * w;
            }
            if scratch.len() == hi - lo {
                let ghost cleared = state@;
                let mut i = lo;
                while i < hi
                    invariant
                        lo == layout.lo(destination as int),
                        hi == layout.hi(destination as int),
                        lo <= i <= hi,
                        hi <= state@.len(),
                        scratch@.len() == hi - lo,
                        state@.len() == s.len(),
                        forall|j: int| 0 <= j < state@.len() ==> #[trigger] state@[j] == if lo <= j < i {
                            scratch@[j - lo]
                        } else {
                            cleared[j]
                        },
                        forall|j: int| 0 <= j < state@.len() ==> cleared[j] == if lo <= j < hi {
                            0u64
                        } else {
                            s[j]
                        },
                    decreases hi - i,
                {
                    state.set(i, scratch[i - lo]);
                    i = i + 1;
                }
                proof {
                    assert(state@ =~= layout.spec_assign_rvalue(tcx, s, destination as int, *rvalue));
                }
            } else {
                layout.set_unknown_local(state, destination);
                proof {
                    assert(layout.spec_set_unknown_local(layout.spec_clear_local(s, destination as int), destination as int)
                        =~= layout.spec_set_unknown_local(s, destination as int));
                }
            }
        },
        Rvalue::Other(ty) => {
            if has_region_occurrence(tcx, *ty) {
                layout.set_unknown_local(state, destination);
            } else {
                layout.clear_local(state, destination);
            }
        },
    }
}


impl SwitchTargets {
    pub open spec fn wf(&self) -> bool {
        self.values@.len() == self.targets@.len()
    }

    /// The index of the first target for `value`, if one is listed.
    pub open spec fn spec_index_for(&self, value: u128, k: int) -> int
        decreases self.values@.len() - k,
    {
        if k < 0 || k >= self.values@.len() {
            -1
        } else if self.values@[k] == value {
            k
        } else {
            self.spec_index_for(value, k + 1)
        }
    }

    pub open spec fn spec_target_for_value(&self, value: u128) -> BasicBlock {
        let k = self.spec_index_for(value, 0);
        if k < 0 {
            self.otherwise
        } else {
            self.targets@[k]
        }
    }

    pub fn target_for_value(&self, value: u128) -> (target: BasicBlock)
        requires
            self.wf(),
        ensures
            target == self.spec_target_for_value(value),
    {
        let n = self.values.len();
        let mut k: usize = 0;
        while k < n
            invariant
                self.wf(),
                n == self.values@.len(),
                k <= n,
                self.spec_index_for(value, 0) == self.spec_index_for(value, k as int),
            decreases n - k,
        {
            if self.values[k] == value {
                return self.targets[k];
            }
            k = k + 1;
        }
        self.otherwise
    }
}

impl TerminatorKind {
    pub open spec fn spec_successors(&self) -> Seq<BasicBlock> {
        match self {
            TerminatorKind::Return => Seq::empty(),
            TerminatorKind::Goto { target } => seq![*target],
            TerminatorKind::SwitchInt { targets, .. } => targets.targets@.push(targets.otherwise),
            TerminatorKind::Call { target, unwind, .. } => (match target {
                Some(t) => seq![*t],
                None => Seq::empty(),
            }) + (match unwind {
                Some(u) => seq![*u],
                None => Seq::empty(),
            }),
            TerminatorKind::Drop { target, unwind, .. } => seq![*target] + (match unwind {
                Some(u) => seq![*u],
                None => Seq::empty(),
            }),
            TerminatorKind::Other(succ) => succ@,
        }
    }

    pub fn successors(&self) -> (succ: Vec<BasicBlock>)
        ensures
            succ@ == self.spec_successors(),
    {
        let mut succ = Vec::new();
        match self {
            TerminatorKind::Return => {},
            TerminatorKind::Goto { target } => succ.push(*target),
            TerminatorKind::SwitchInt { targets, .. } => {
                succ = targets.targets.clone();
                succ.push(targets.otherwise);
            },
            TerminatorKind::Call { target, unwind, .. } => {
                if let Some(t) = target {
                    succ.push(*t);
                }
                if let Some(u) = unwind {
                    succ.push(*u);
                }
            },
            TerminatorKind::Drop { target, unwind, .. } => {
                succ.push(*target);
                if let Some(u) = unwind {
                    succ.push(*u);
                }
            },
            TerminatorKind::Other(s) => succ = s.clone(),
        }
        proof {
            assert(succ@ =~= self.spec_successors());
        }
        succ
    }
}

/// The value that a switch on `discr` at the end of `block` takes, when the
/// discriminant is a constant or a local that the block's last statement sets
/// to a constant.
pub open spec fn spec_switch_value(body: &Body, block: BasicBlock, discr: Operand) -> Option<u128> {
    match discr {
        Operand::Constant(c) => c.bits,
        Operand::Copy(place) | Operand::Move(place) => match place.spec_as_local() {
            None => None,
            Some(local) => {
                let statements = body.basic_blocks@[block as int].statements@;
                if statements.len() == 0 {
                    None
                } else {
                    match statements[statements.len() - 1] {
                        Statement::Assign(destination, Rvalue::Use(Operand::Constant(c))) => if destination.spec_as_local()
                            == Some(local) {
                            c.bits
                        } else {
                            None
                        },
                        _ => None,
                    }
                }
            },
        },
        Operand::RuntimeChecks => None,
    }
}

pub fn switch_value(body: &Body, block: BasicBlock, discr: &Operand) -> (value: Option<u128>)
    requires
        block < body.basic_blocks@.len(),
    ensures
        value == spec_switch_value(body, block, *discr),
{
    match discr {
        Operand::Constant(constant) => constant.bits,
        Operand::Copy(place) | Operand::Move(place) => {
            let local = place.as_local()?;
            let statements = &body.basic_blocks[block].statements;
            if statements.len() == 0 {
                return None;
            }
            match &statements[statements.len() - 1] {
                Statement::Assign(destination, Rvalue::Use(Operand::Constant(constant))) => {
                    if destination.as_local() == Some(local) {
                        constant.bits
                    } else {
                        None
                    }
                },
                _ => None,
            }
        },
        Operand::RuntimeChecks => None,
    }
}

/// The entry state of `target` after `state` flows into it: the merge of the
/// two, or `state` itself if `target` was not reached yet.
pub open spec fn spec_entry_after(entries: Seq<u64>, reached: bool, start: int, state: Seq<u64>, i: int) -> u64 {
    if reached {
        entries[i] | state[i - start]
    } else {
        state[i - start]
    }
}

pub fn propagate_state(
    entries: &mut Vec<u64>,
    reached: &mut Vec<bool>,
    queued: &mut Vec<bool>,
    queue: &mut VecDeque<BasicBlock>,
    state_words: usize,
    target: BasicBlock,
    state: &Vec<u64>,
)
    requires
        target < old(reached)@.len(),
        old(queued)@.len() == old(reached)@.len(),
        (target + 1) * state_words <= old(entries)@.len(),
        state@.len() == state_words,
    ensures
        final(entries)@.len() == old(entries)@.len(),
        final(reached)@ == old(reached)@.update(target as int, true),
        ({
            let start = target * state_words;
            forall|i: int| 0 <= i < old(entries)@.len() ==> #[trigger] final(entries)@[i] == if start <= i < start
                + state_words {
                spec_entry_after(old(entries)@, old(reached)@[target as int], start, state@, i)
            } else {
                old(entries)@[i]
            }
        }),
        ({
            let changed = !old(reached)@[target as int] || exists|i: int|
                target * state_words <= i < target * state_words + state_words
                    && #[trigger] final(entries)@[i] != old(entries)@[i];
            &&& final(queued)@ == if changed { old(queued)@.update(target as int, true) } else { old(queued)@ }
            &&& final(queue)@ == if changed && !old(queued)@[target as int] {
                old(queue)@.push(target)
            } else {
                old(queue)@
            }
        }),
{
    let total = entries.len();
    proof {
        assert(target * state_words + state_words == (target + 1) * state_words) by (nonlinear_arith);
        assert(0 <= target * state_words) by (nonlinear_arith)
            requires target >= 0, state_words >= 0;
    }
    let start = target * state_words;
    let changed = if reached[target] {
        let mut changed = false;
        let mut i: usize = 0;
        while i < state_words
            invariant
                start == target * state_words,
                start + state_words <= entries@.len(),
                entries@.len() <= usize::MAX,
                state@.len() == state_words,
                entries@.len() == old(entries)@.len(),
                i <= state_words,
                forall|j: int| 0 <= j < entries@.len() ==> #[trigger] entries@[j] == if start <= j < start + i {
                    old(entries)@[j] | state@[j - start]
                } else {
                    old(entries)@[j]
                },
                changed == exists|j: int| start <= j < start + i && #[trigger] entries@[j] != old(entries)@[j],
            decreases state_words - i,
        {
            let old_word = entries[start + i];
            let ghost before = entries@;
            entries.set(start + i, old_word | state[i]);
            let ghost prev = changed;
            changed = changed || old_word != entries[start + i];
            proof {
                if prev {
                    let j = choose|j: int| start <= j < start + i && #[trigger] before[j] != old(entries)@[j];
                    assert(entries@[j] == before[j]);
                    assert(start <= j < start + i + 1 && entries@[j] != old(entries)@[j]);
                }
                if old_word != entries@[start + i] {
                    assert(start <= start + i < start + i + 1 && entries@[start + i] != old(entries)@[start + i]);
                }
                if !changed {
                    assert forall|j: int| start <= j < start + i + 1 implies !(#[trigger] entries@[j] != old(entries)@[j]) by {
                        if j < start + i {
                            assert(!(start <= j < start + i && before[j] != old(entries)@[j]));
                        }
                    }
                }
            }
            i = i + 1;
        }
        changed
    } else {
        let mut i: usize = 0;
        while i < state_words
            invariant
                start == target * state_words,
                start + state_words <= entries@.len(),
                entries@.len() <= usize::MAX,
                state@.len() == state_words,
                entries@.len() == old(entries)@.len(),
                i <= state_words,
                forall|j: int| 0 <= j < entries@.len() ==> #[trigger] entries@[j] == if start <= j < start + i {
                    state@[j - start]
                } else {
                    old(entries)@[j]
                },
            decreases state_words - i,
        {
            entries.set(start + i, state[i]);
            i = i + 1;
        }
        reached.set(target, true);
        true
    };
    proof {
        if old(reached)@[target as int] {
            assert(reached@ =~= old(reached)@.update(target as int, true));
        }
    }
    if changed && !queued[target] {
        queued.set(target, true);
        queue.push_back(target);
    } else if changed {
        proof {
            assert(queued@ =~= old(queued)@.update(target as int, true));
        }
    }
}


impl Layout {
    /// The state after the first `k` statements, from `s`.
    pub open spec fn spec_statements(&self, tcx: &TyCtxt, s: Seq<u64>, statements: Seq<Statement>, k: int) -> Seq<u64>
        decreases k,
    {
        if k <= 0 {
            s
        } else {
            self.spec_statement(tcx, self.spec_statements(tcx, s, statements, k - 1), statements[k - 1])
        }
    }

    /// The state at the end of `block`'s statements, from its entry state.
    pub open spec fn spec_block_exit(&self, tcx: &TyCtxt, body: &Body, block: int, entry: Seq<u64>) -> Seq<u64> {
        let statements = body.basic_blocks@[block].statements@;
        self.spec_statements(tcx, entry, statements, statements.len() as int)
    }
}

/// The body is one that the analysis can run on: its locals, places, types
/// and block targets all exist, and its aggregates fit in memory.
pub open spec fn body_ok(tcx: &TyCtxt, body: &Body, w: int) -> bool {
    let n = body.local_decls@.len() as int;
    let nb = body.basic_blocks@.len() as int;
    &&& forall|i: int| 0 <= i < n ==> tcx.valid_ty(#[trigger] body.local_decls@[i])
    &&& body.arg_count < n
    &&& forall|b: int| 0 <= b < nb ==> block_ok(tcx, #[trigger] body.basic_blocks@[b], n, nb, w)
}

pub open spec fn block_ok(tcx: &TyCtxt, data: BasicBlockData, n: int, nb: int, w: int) -> bool {
    &&& forall|k: int| 0 <= k < data.statements@.len() ==> {
        let st = #[trigger] data.statements@[k];
        &&& statement_ok(tcx, n, st)
        &&& (st matches Statement::Assign(_, rv) ==> rvalue_fits(tcx, w, rv))
    }
    &&& forall|k: int| 0 <= k < data.terminator.kind.spec_successors().len()
        ==> 0 <= #[trigger] data.terminator.kind.spec_successors()[k] < nb
    &&& match data.terminator.kind {
        TerminatorKind::SwitchInt { discr, targets } => targets.wf() && operand_ok(tcx, n, discr),
        TerminatorKind::Call { args, destination, .. } => place_ok(tcx, n, destination) && forall|k: int|
            0 <= k < args@.len() ==> operand_ok(tcx, n, #[trigger] args@[k]),
        TerminatorKind::Drop { place, .. } => place_ok(tcx, n, place),
        _ => true,
    }
}

pub fn apply_statements(
    tcx: &TyCtxt,
    layout: &Layout,
    body: &Body,
    block: BasicBlock,
    state: &mut Vec<u64>,
    scratch: &mut Vec<u64>,
)
    requires
        tcx.wf(),
        layout.wf(),
        block < body.basic_blocks@.len(),
        layout.n_locals() == body.local_decls@.len(),
        body_ok(tcx, body, layout.w()),
        old(state)@.len() == layout.spec_state_words(),
    ensures
        final(state)@ == layout.spec_block_exit(tcx, body, block as int, old(state)@),
{
    let statements = &body.basic_blocks[block].statements;
    let n = statements.len();
    let mut k: usize = 0;
    proof {
        assert(block_ok(tcx, body.basic_blocks@[block as int], body.local_decls@.len() as int, body.basic_blocks@.len() as int, layout.w()));
    }
    while k < n
        invariant
            tcx.wf(),
            layout.wf(),
            layout.n_locals() == body.local_decls@.len(),
            block < body.basic_blocks@.len(),
            statements == body.basic_blocks@[block as int].statements,
            block_ok(tcx, body.basic_blocks@[block as int], body.local_decls@.len() as int, body.basic_blocks@.len() as int, layout.w()),
            n == statements@.len(),
            k <= n,
            state@.len() == layout.spec_state_words(),
            state@ == layout.spec_statements(tcx, old(state)@, statements@, k as int),
        decreases n - k,
    {
        let ghost before = state@;
        proof {
            assert(statement_ok(tcx, body.local_decls@.len() as int, statements@[k as int]));
        }
        match &statements[k] {
            Statement::Assign(place, rvalue) => {
                if let Some(destination) = place.as_local() {
                    assign_rvalue(tcx, layout, state, scratch, destination, rvalue);
                } else if has_region_occurrence(tcx, place.ty) {
                    layout.set_unknown_local(state, place.local);
                }
            },
            Statement::StorageLive(local) | Statement::StorageDead(local) => {
                layout.clear_local(state, *local);
            },
            Statement::Nop => {},
        }
        k = k + 1;
    }
}


pub proof fn lemma_or_trans(a: u64, b: u64, c: u64)
    by (bit_vector)
    requires
        a | b == b,
        b | c == c,
    ensures
        a | c == c,
{
}

pub proof fn lemma_or_facts(a: u64, b: u64, m: u64)
    by (bit_vector)
    ensures
        a | a == a,
        0u64 | a == a,
        a | (a | m) == a | m,
        m | (a | m) == a | m,
        a | b == b ==> (a | m) | (b | m) == b | m,
        a | b == b ==> a <= b,
        a | b == b && a != b ==> a < b,
{
}

pub proof fn lemma_or_lub(a: u64, b: u64, c: u64)
    by (bit_vector)
    requires
        a | c == c,
        b | c == c,
    ensures
        (a | b) | c == c,
{
}

/// Every bit set in `a` is set in `b`, word by word.
pub open spec fn le(a: Seq<u64>, b: Seq<u64>) -> bool {
    &&& a.len() == b.len()
    &&& forall|i: int| 0 <= i < a.len() ==> #[trigger] a[i] | b[i] == b[i]
}

pub proof fn lemma_le_refl(a: Seq<u64>)
    ensures
        le(a, a),
{
    assert forall|i: int| 0 <= i < a.len() implies #[trigger] a[i] | a[i] == a[i] by {
        lemma_or_facts(a[i], a[i], 0);
    }
}

pub proof fn lemma_le_trans(a: Seq<u64>, b: Seq<u64>, c: Seq<u64>)
    requires
        le(a, b),
        le(b, c),
    ensures
        le(a, c),
{
    assert forall|i: int| 0 <= i < a.len() implies #[trigger] a[i] | c[i] == c[i] by {
        lemma_or_trans(a[i], b[i], c[i]);
    }
}

impl Layout {
    pub proof fn lemma_clear_mono(&self, a: Seq<u64>, b: Seq<u64>, local: int)
        requires
            le(a, b),
        ensures
            le(self.spec_clear_local(a, local), self.spec_clear_local(b, local)),
    {
        let x = self.spec_clear_local(a, local);
        let y = self.spec_clear_local(b, local);
        assert forall|i: int| 0 <= i < x.len() implies #[trigger] x[i] | y[i] == y[i] by {
            lemma_or_facts(x[i], y[i], 0);
        }
    }

    pub proof fn lemma_set_unknown_mono(&self, a: Seq<u64>, b: Seq<u64>, local: int)
        requires
            le(a, b),
        ensures
            le(self.spec_set_unknown_local(a, local), self.spec_set_unknown_local(b, local)),
    {
        let x = self.spec_set_unknown_local(a, local);
        let y = self.spec_set_unknown_local(b, local);
        assert forall|i: int| 0 <= i < x.len() implies #[trigger] x[i] | y[i] == y[i] by {
            lemma_or_facts(x[i], y[i], 0);
        }
    }

    pub proof fn lemma_copy_mono(&self, a: Seq<u64>, b: Seq<u64>, destination: int, source: int)
        requires
            self.wf(),
            le(a, b),
            self.local_ok(a, destination),
            self.local_ok(a, source),
        ensures
            le(self.spec_copy_local(a, destination, source), self.spec_copy_local(b, destination, source)),
    {
        if self.slot_count(destination) != self.slot_count(source) {
            self.lemma_set_unknown_mono(a, b, destination);
        } else if destination != source {
            self.lemma_local_range(destination);
            self.lemma_local_range(source);
            assert(self.hi(destination) - self.lo(destination) == self.hi(source) - self.lo(source)) by (nonlinear_arith)
                requires self.hi(destination) == self.offsets@[destination + 1] * self.w(),
                    self.lo(destination) == self.offsets@[destination] * self.w(),
                    self.hi(source) == self.offsets@[source + 1] * self.w(),
                    self.lo(source) == self.offsets@[source] * self.w(),
                    self.offsets@[destination + 1] - self.offsets@[destination]
                        == self.offsets@[source + 1] - self.offsets@[source];
            let x = self.spec_copy_local(a, destination, source);
            let y = self.spec_copy_local(b, destination, source);
            assert forall|i: int| 0 <= i < x.len() implies #[trigger] x[i] | y[i] == y[i] by {
                if self.lo(destination) <= i < self.hi(destination) {
                    let j = i - self.lo(destination) + self.lo(source);
                    assert(a[j] | b[j] == b[j]);
                }
            }
        }
    }

    pub proof fn lemma_assign_operand_mono(&self, a: Seq<u64>, b: Seq<u64>, destination: int, operand: Operand)
        requires
            self.wf(),
            le(a, b),
            self.local_ok(a, destination),
            operand_ok_for(self, operand),
        ensures
            le(self.spec_assign_operand(a, destination, operand), self.spec_assign_operand(b, destination, operand)),
    {
        match operand {
            Operand::Copy(place) | Operand::Move(place) => match place.spec_as_local() {
                Some(source) => self.lemma_copy_mono(a, b, destination, source as int),
                None => self.lemma_set_unknown_mono(a, b, destination),
            },
            _ => self.lemma_clear_mono(a, b, destination),
        }
    }

    pub proof fn lemma_aggregate_mono(&self, tcx: &TyCtxt, a: Seq<u64>, b: Seq<u64>, ops: Seq<Operand>, k: int)
        requires
            self.wf(),
            le(a, b),
            a.len() >= self.spec_state_words(),
            0 <= k <= ops.len(),
            forall|j: int| 0 <= j < ops.len() ==> operand_ok(tcx, self.n_locals(), #[trigger] ops[j]),
        ensures
            le(self.aggregate_scratch(tcx, a, ops, k), self.aggregate_scratch(tcx, b, ops, k)),
        decreases k,
    {
        if k > 0 {
            self.lemma_aggregate_mono(tcx, a, b, ops, k - 1);
            let op = ops[k - 1];
            assert(operand_ok(tcx, self.n_locals(), op));
            let pa = self.aggregate_part(tcx, a, op);
            let pb = self.aggregate_part(tcx, b, op);
            if let Some(local) = spec_operand_local(op) {
                if self.slot_count(local as int) == operand_ty_slots(tcx, op) {
                    self.lemma_local_range(local as int);
                }
            }
            assert(le(pa, pb)) by {
                assert forall|i: int| 0 <= i < pa.len() implies #[trigger] pa[i] | pb[i] == pb[i] by {
                    lemma_or_facts(pa[i], pb[i], 0);
                    if let Some(local) = spec_operand_local(op) {
                        if self.slot_count(local as int) == operand_ty_slots(tcx, op) {
                            assert(a[self.lo(local as int) + i] | b[self.lo(local as int) + i] == b[self.lo(local as int) + i]);
                        }
                    }
                }
            }
            let sa = self.aggregate_scratch(tcx, a, ops, k - 1);
            let sb = self.aggregate_scratch(tcx, b, ops, k - 1);
            assert forall|i: int| 0 <= i < (sa + pa).len() implies #[trigger] (sa + pa)[i] | (sb + pb)[i] == (sb + pb)[i] by {
                if i < sa.len() {
                    assert(sa[i] | sb[i] == sb[i]);
                } else {
                    assert(pa[i - sa.len()] | pb[i - sa.len()] == pb[i - sa.len()]);
                }
            }
        }
    }

    pub proof fn lemma_assign_rvalue_mono(&self, tcx: &TyCtxt, a: Seq<u64>, b: Seq<u64>, destination: int, rvalue: Rvalue)
        requires
            self.wf(),
            le(a, b),
            self.local_ok(a, destination),
            rvalue_ok(tcx, self.n_locals(), rvalue),
        ensures
            le(self.spec_assign_rvalue(tcx, a, destination, rvalue), self.spec_assign_rvalue(tcx, b, destination, rvalue)),
    {
        match rvalue {
            Rvalue::Use(operand) => self.lemma_assign_operand_mono(a, b, destination, operand),
            Rvalue::CopyForDeref(place) => match place.spec_as_local() {
                Some(source) => self.lemma_copy_mono(a, b, destination, source as int),
                None => self.lemma_set_unknown_mono(a, b, destination),
            },
            Rvalue::Ref(place) => {
                if place.projection@.len() > 0 && place.projection@[0] == ProjectionElem::Deref
                    && self.slot_count(destination) == self.slot_count(place.local as int) {
                    self.lemma_copy_mono(a, b, destination, place.local as int);
                } else {
                    self.lemma_set_unknown_mono(a, b, destination);
                }
            },
            Rvalue::Repeat(operand) | Rvalue::Cast(operand) | Rvalue::WrapUnsafeBinder(operand) => {
                self.lemma_assign_operand_mono(a, b, destination, operand);
                self.lemma_clear_mono(a, b, destination);
                self.lemma_set_unknown_mono(a, b, destination);
            },
            Rvalue::Aggregate(ops) => {
                self.lemma_aggregate_mono(tcx, a, b, ops@, ops@.len() as int);
                self.lemma_set_unknown_mono(a, b, destination);
                let x = self.spec_assign_rvalue(tcx, a, destination, rvalue);
                let y = self.spec_assign_rvalue(tcx, b, destination, rvalue);
                let sa = self.aggregate_scratch(tcx, a, ops@, ops@.len() as int);
                let sb = self.aggregate_scratch(tcx, b, ops@, ops@.len() as int);
                if sa.len() == self.slot_count(destination) * self.w() {
                    self.lemma_local_range(destination);
                    assert(self.hi(destination) - self.lo(destination) == self.slot_count(destination) * self.w()) by (nonlinear_arith)
                        requires self.hi(destination) == self.offsets@[destination + 1] * self.w(),
                            self.lo(destination) == self.offsets@[destination] * self.w(),
                            self.slot_count(destination) == self.offsets@[destination + 1] - self.offsets@[destination];
                    assert forall|i: int| 0 <= i < x.len() implies #[trigger] x[i] | y[i] == y[i] by {
                        if self.lo(destination) <= i < self.hi(destination) {
                            assert(sa[i - self.lo(destination)] | sb[i - self.lo(destination)] == sb[i - self.lo(destination)]);
                        }
                    }
                }
            },
            Rvalue::Other(_) => {
                self.lemma_clear_mono(a, b, destination);
                self.lemma_set_unknown_mono(a, b, destination);
            },
        }
    }

    pub proof fn lemma_statement_mono(&self, tcx: &TyCtxt, a: Seq<u64>, b: Seq<u64>, statement: Statement)
        requires
            self.wf(),
            le(a, b),
            a.len() == self.spec_state_words(),
            statement_ok(tcx, self.n_locals(), statement),
        ensures
            le(self.spec_statement(tcx, a, statement), self.spec_statement(tcx, b, statement)),
            self.spec_statement(tcx, a, statement).len() == a.len(),
    {
        match statement {
            Statement::Assign(place, rvalue) => match place.spec_as_local() {
                Some(destination) => self.lemma_assign_rvalue_mono(tcx, a, b, destination as int, rvalue),
                None => self.lemma_set_unknown_mono(a, b, place.local as int),
            },
            Statement::StorageLive(local) | Statement::StorageDead(local) => self.lemma_clear_mono(a, b, local as int),
            Statement::Nop => {},
        }
    }

    pub proof fn lemma_statements_mono(&self, tcx: &TyCtxt, a: Seq<u64>, b: Seq<u64>, statements: Seq<Statement>, k: int)
        requires
            self.wf(),
            le(a, b),
            a.len() == self.spec_state_words(),
            0 <= k <= statements.len(),
            forall|j: int| 0 <= j < statements.len() ==> statement_ok(tcx, self.n_locals(), #[trigger] statements[j]),
        ensures
            le(self.spec_statements(tcx, a, statements, k), self.spec_statements(tcx, b, statements, k)),
            self.spec_statements(tcx, a, statements, k).len() == a.len(),
        decreases k,
    {
        if k > 0 {
            self.lemma_statements_mono(tcx, a, b, statements, k - 1);
            assert(statement_ok(tcx, self.n_locals(), statements[k - 1]));
            self.lemma_statement_mono(
                tcx,
                self.spec_statements(tcx, a, statements, k - 1),
                self.spec_statements(tcx, b, statements, k - 1),
                statements[k - 1],
            );
        }
    }
}


#[derive(Clone, Copy, PartialEq, Eq, Structural, Debug)]
pub enum OriginContractErrorKind {
    CallMayMutateOrigin,
    DropMayMutateOrigin,
    UnrepresentableValue,
}

#[derive(Clone, Copy, PartialEq, Eq, Structural, Debug)]
pub struct OriginContractError {
    pub span: u64,
    pub kind: OriginContractErrorKind,
}

/// The output origin `target` may hold the value of the input region `source`.
#[derive(Clone, Copy, PartialEq, Eq, Structural, Debug)]
pub struct OriginRequirement {
    pub source: RegionSlot,
    pub target: OriginSlot,
}

impl OriginRequirement {
    pub fn new(source: RegionSlot, target: OriginSlot) -> (requirement: Self)
        ensures
            requirement == (OriginRequirement { source, target }),
    {
        OriginRequirement { source, target }
    }
}

/// What a function's origin lifetimes may hold, as requirements.
#[derive(Clone, Debug)]
pub struct OriginContract {
    pub requirements: Vec<OriginRequirement>,
}

/// The outcome of inferring a function's origin contract.
#[derive(Clone, Debug)]
pub enum OriginContractAnalysis {
    Contract(OriginContract),
    Unrepresentable(OriginContractError),
}

/// Whether the block ends in a call that receives a value holding regions, or
/// in a drop of one: the analysis cannot describe what those do to origins.
pub open spec fn spec_bad(tcx: &TyCtxt, body: &Body, b: int) -> bool {
    match body.basic_blocks@[b].terminator.kind {
        TerminatorKind::Call { args, target: Some(_), .. } => exists|k: int|
            0 <= k < args@.len() && operand_ty_slots(tcx, #[trigger] args@[k]) > 0,
        TerminatorKind::Drop { place, .. } => tcx.regions_ty(place.ty).len() > 0,
        _ => false,
    }
}

pub open spec fn bad_kind(body: &Body, b: int) -> OriginContractErrorKind {
    match body.basic_blocks@[b].terminator.kind {
        TerminatorKind::Call { .. } => OriginContractErrorKind::CallMayMutateOrigin,
        _ => OriginContractErrorKind::DropMayMutateOrigin,
    }
}

/// The blocks that the state at the end of `b` flows into.
pub open spec fn spec_succs(body: &Body, b: int) -> Seq<BasicBlock> {
    let kind = body.basic_blocks@[b].terminator.kind;
    match kind {
        TerminatorKind::SwitchInt { discr, targets } => match spec_switch_value(body, b as usize, discr) {
            Some(value) => seq![targets.spec_target_for_value(value)],
            None => kind.spec_successors(),
        },
        _ => kind.spec_successors(),
    }
}

/// `p` is a walk of the analysis from the start block: each block of it but
/// the last is not a bad one, and the next is one of its successors.
pub open spec fn walk_path(tcx: &TyCtxt, body: &Body, p: Seq<BasicBlock>) -> bool {
    &&& p.len() > 0
    &&& p[0] == START_BLOCK
    &&& forall|i: int|
        0 <= i < p.len() - 1 ==> !spec_bad(tcx, body, #[trigger] p[i] as int) && spec_succs(body, p[i] as int).contains(
            p[i + 1],
        )
}

/// The analysis's walk from the start block reaches `b`.
#[verifier::opaque]
pub open spec fn walk_reaches(tcx: &TyCtxt, body: &Body, b: int) -> bool {
    exists|p: Seq<BasicBlock>| #[trigger] walk_path(tcx, body, p) && p.last() as int == b
}

pub proof fn lemma_walk_start(tcx: &TyCtxt, body: &Body)
    ensures
        walk_reaches(tcx, body, 0),
{
    let p = seq![START_BLOCK];
    assert(walk_path(tcx, body, p));
    reveal(walk_reaches);
}

/// Marking a successor of a reached, good block as reached keeps every
/// reached block reachable by the walk.
pub proof fn lemma_walk_step(tcx: &TyCtxt, body: &Body, nb: int, r1: Seq<bool>, r2: Seq<bool>, b: int, t: BasicBlock)
    requires
        r1.len() == nb,
        0 <= b < nb,
        0 <= t < nb,
        r1[b],
        forall|x: int| 0 <= x < nb && #[trigger] r1[x] ==> walk_reaches(tcx, body, x),
        r2 == r1.update(t as int, true),
        !spec_bad(tcx, body, b),
        spec_succs(body, b).contains(t),
    ensures
        r2.len() == nb,
        forall|x: int| 0 <= x < nb && #[trigger] r2[x] ==> walk_reaches(tcx, body, x),
{
    lemma_walk_extend(tcx, body, b, t);
    assert forall|x: int| 0 <= x < nb && #[trigger] r2[x] implies walk_reaches(tcx, body, x) by {
        if x != t as int {
            assert(r1[x]);
        }
    }
}

pub proof fn lemma_walk_extend(tcx: &TyCtxt, body: &Body, b: int, t: BasicBlock)
    requires
        walk_reaches(tcx, body, b),
        !spec_bad(tcx, body, b),
        spec_succs(body, b).contains(t),
    ensures
        walk_reaches(tcx, body, t as int),
{
    reveal(walk_reaches);
    let p = choose|p: Seq<BasicBlock>| #[trigger] walk_path(tcx, body, p) && p.last() as int == b;
    let q = p.push(t);
    assert forall|i: int| 0 <= i < q.len() - 1 implies !spec_bad(tcx, body, #[trigger] q[i] as int) && spec_succs(
        body,
        q[i] as int,
    ).contains(q[i + 1]) by {
        if i < p.len() - 1 {
            assert(q[i] == p[i] && q[i + 1] == p[i + 1]);
            assert(!spec_bad(tcx, body, p[i] as int));
        } else {
            assert(q[i] == p.last() && q[i + 1] == t);
        }
    }
    assert(walk_path(tcx, body, q));
}

impl Layout {
    /// The state after a call returns into its destination.
    pub open spec fn call_edge_state(&self, tcx: &TyCtxt, exit: Seq<u64>, destination: Place) -> Seq<u64> {
        match destination.spec_as_local() {
            Some(local) => if self.slot_count(local as int) != 0 {
                self.spec_set_unknown_local(exit, local as int)
            } else {
                exit
            },
            None => if tcx.regions_ty(destination.ty).len() > 0 {
                self.spec_set_unknown_local(exit, destination.local as int)
            } else {
                exit
            },
        }
    }

    /// The state that flows from the end of `b` into its successor `succ`.
    pub open spec fn spec_edge_state(&self, tcx: &TyCtxt, body: &Body, b: int, succ: BasicBlock, exit: Seq<u64>) -> Seq<u64> {
        match body.basic_blocks@[b].terminator.kind {
            TerminatorKind::Call { destination, target: Some(t), .. } => if succ == t {
                self.call_edge_state(tcx, exit, destination)
            } else {
                exit
            },
            _ => exit,
        }
    }

    pub open spec fn sw(&self) -> int {
        self.spec_state_words()
    }

    /// The words of the state at the return place.
    pub open spec fn return_words(&self, s: Seq<u64>) -> Seq<u64> {
        s.subrange(0, self.hi(0))
    }

    /// Block `b` is closed under the analysis in (`e`, `r`, `ret`): its
    /// terminator is one the analysis describes, every successor is reached and
    /// holds what flows into it, and a return is covered by `ret`.
    pub open spec fn closed_at(&self, tcx: &TyCtxt, body: &Body, e: Seq<u64>, r: Seq<bool>, ret: Seq<u64>, b: int) -> bool {
        let exit = self.spec_block_exit(tcx, body, b, entry_of(e, b, self.sw()));
        let succs = spec_succs(body, b);
        &&& !spec_bad(tcx, body, b)
        &&& forall|k: int| 0 <= k < succs.len() ==> {
            let t = #[trigger] succs[k];
            &&& r[t as int]
            &&& le(self.spec_edge_state(tcx, body, b, t, exit), entry_of(e, t as int, self.sw()))
        }
        &&& (body.basic_blocks@[b].terminator.kind is Return ==> le(self.return_words(exit), ret))
    }

    /// (`e`, `r`, `ret`) is a solution of the analysis of `body` from the entry
    /// state `start`: per block an entry state, whether it is reached, and what
    /// the returns may hold.
    pub open spec fn is_solution(&self, tcx: &TyCtxt, body: &Body, start: Seq<u64>, e: Seq<u64>, r: Seq<bool>, ret: Seq<u64>) -> bool {
        let nb = body.basic_blocks@.len() as int;
        &&& e.len() == nb * self.sw()
        &&& r.len() == nb
        &&& ret.len() == self.hi(0)
        &&& nb > 0
        &&& r[0]
        &&& le(start, entry_of(e, 0, self.sw()))
        &&& forall|b: int| 0 <= b < nb && #[trigger] r[b] ==> self.closed_at(tcx, body, e, r, ret, b)
    }
}

pub open spec fn entry_of(e: Seq<u64>, b: int, sw: int) -> Seq<u64> {
    e.subrange(b * sw, b * sw + sw)
}

/// Each of (`e`, `r`, `ret`) is below the other triple.
pub open spec fn below(e: Seq<u64>, r: Seq<bool>, ret: Seq<u64>, e2: Seq<u64>, r2: Seq<bool>, ret2: Seq<u64>) -> bool {
    &&& le(e, e2)
    &&& r.len() == r2.len()
    &&& forall|b: int| 0 <= b < r.len() && #[trigger] r[b] ==> r2[b]
    &&& le(ret, ret2)
}

/// The sum of what is still unset in the words of `e`.
pub open spec fn gap(e: Seq<u64>) -> int
    decreases e.len(),
{
    if e.len() == 0 {
        0
    } else {
        gap(e.drop_last()) + (u64::MAX - e.last())
    }
}

pub open spec fn unreached_count(r: Seq<bool>) -> int
    decreases r.len(),
{
    if r.len() == 0 {
        0
    } else {
        unreached_count(r.drop_last()) + if r.last() {
            0int
        } else {
            1int
        }
    }
}

pub proof fn lemma_gap_mono(a: Seq<u64>, b: Seq<u64>)
    requires
        le(a, b),
    ensures
        gap(b) <= gap(a),
        gap(a) >= 0,
        a != b ==> gap(b) < gap(a),
    decreases a.len(),
{
    if a.len() > 0 {
        let a2 = a.drop_last();
        let b2 = b.drop_last();
        assert forall|i: int| 0 <= i < a2.len() implies #[trigger] a2[i] | b2[i] == b2[i] by {
            assert(a[i] | b[i] == b[i]);
        }
        lemma_gap_mono(a2, b2);
        lemma_or_facts(a.last(), b.last(), 0);
        if a != b {
            assert(!(a =~= b));
            let i = choose|i: int| 0 <= i < a.len() && a[i] != b[i];
            if i < a.len() - 1 {
                assert(a2[i] != b2[i]);
            }
        }
    } else {
        assert(a =~= b);
    }
}

pub proof fn lemma_unreached_update(r: Seq<bool>, t: int)
    requires
        0 <= t < r.len(),
    ensures
        unreached_count(r.update(t, true)) == unreached_count(r) - if r[t] {
            0int
        } else {
            1int
        },
        unreached_count(r) >= 0,
    decreases r.len(),
{
    let r2 = r.update(t, true);
    if t == r.len() - 1 {
        assert(r2.drop_last() =~= r.drop_last());
        lemma_unreached_nonneg(r.drop_last());
    } else {
        assert(r2.drop_last() =~= r.drop_last().update(t, true));
        lemma_unreached_update(r.drop_last(), t);
    }
}

pub proof fn lemma_unreached_nonneg(r: Seq<bool>)
    ensures
        unreached_count(r) >= 0,
    decreases r.len(),
{
    if r.len() > 0 {
        lemma_unreached_nonneg(r.drop_last());
    }
}


/// `e2`, `r2` are `e`, `r` after `st` flowed into block `t`.
pub open spec fn propagated(e: Seq<u64>, r: Seq<bool>, e2: Seq<u64>, r2: Seq<bool>, sw: int, t: int, st: Seq<u64>) -> bool {
    &&& e2.len() == e.len()
    &&& r2 == r.update(t, true)
    &&& forall|i: int| 0 <= i < e.len() ==> #[trigger] e2[i] == if t * sw <= i < t * sw + sw {
        spec_entry_after(e, r[t], t * sw, st, i)
    } else {
        e[i]
    }
}

/// Blocks not reached yet have an empty entry state.
pub open spec fn zero_unreached(e: Seq<u64>, r: Seq<bool>, sw: int) -> bool {
    forall|b: int, i: int| 0 <= b < r.len() && !r[b] && b * sw <= i < b * sw + sw ==> #[trigger] e[i] == 0u64 && #[trigger] r[b] == false
}

pub proof fn lemma_block_range(b: int, nb: int, sw: int)
    by (nonlinear_arith)
    requires
        0 <= b < nb,
        0 <= sw,
    ensures
        0 <= b * sw,
        b * sw + sw <= nb * sw,
        (b + 1) * sw <= nb * sw,
{
}

pub proof fn lemma_blocks_disjoint(a: int, b: int, sw: int)
    by (nonlinear_arith)
    requires
        0 <= a < b,
        0 <= sw,
    ensures
        a * sw + sw <= b * sw,
{
}

pub proof fn lemma_propagated(e: Seq<u64>, r: Seq<bool>, e2: Seq<u64>, r2: Seq<bool>, sw: int, t: int, st: Seq<u64>)
    requires
        propagated(e, r, e2, r2, sw, t, st),
        zero_unreached(e, r, sw),
        0 <= t < r.len(),
        sw >= 0,
        e.len() == r.len() * sw,
        st.len() == sw,
    ensures
        le(e, e2),
        zero_unreached(e2, r2, sw),
        le(st, entry_of(e2, t, sw)),
        forall|u: int| 0 <= u < r.len() && u != t ==> #[trigger] entry_of(e2, u, sw) == entry_of(e, u, sw),
        forall|u: int| 0 <= u < r.len() ==> le(#[trigger] entry_of(e, u, sw), entry_of(e2, u, sw)),
        !r[t] || e2 != e ==> unreached_count(r2) < unreached_count(r) || (unreached_count(r2) == unreached_count(r)
            && gap(e2) < gap(e)),
        unreached_count(r2) <= unreached_count(r),
        gap(e2) <= gap(e),
{
    lemma_block_range(t, r.len() as int, sw);
    assert forall|i: int| 0 <= i < e.len() implies #[trigger] e[i] | e2[i] == e2[i] by {
        if t * sw <= i < t * sw + sw {
            if r[t] {
                lemma_or_facts(e[i], e2[i], st[i - t * sw]);
            } else {
                assert(e[i] == 0u64 && r[t] == false);
                lemma_or_facts(e2[i], e2[i], 0);
            }
        } else {
            lemma_or_facts(e[i], e2[i], 0);
        }
    }
    assert forall|b: int, i: int| 0 <= b < r2.len() && !r2[b] && b * sw <= i < b * sw + sw implies #[trigger] e2[i]
        == 0u64 && #[trigger] r2[b] == false by {
        assert(b != t);
        lemma_block_range(b, r.len() as int, sw);
        assert(e[i] == 0u64 && r[b] == false);
        if b < t {
            lemma_blocks_disjoint(b, t, sw);
        } else {
            lemma_blocks_disjoint(t, b, sw);
        }
    }
    let x = entry_of(e2, t, sw);
    assert forall|i: int| 0 <= i < st.len() implies #[trigger] st[i] | x[i] == x[i] by {
        let j = t * sw + i;
        assert(x[i] == e2[j]);
        if r[t] {
            lemma_or_facts(e[j], e2[j], st[i]);
        } else {
            lemma_or_facts(st[i], st[i], 0);
        }
    }
    assert forall|u: int| 0 <= u < r.len() && u != t implies #[trigger] entry_of(e2, u, sw) == entry_of(e, u, sw) by {
        lemma_block_range(u, r.len() as int, sw);
        if u < t {
            lemma_blocks_disjoint(u, t, sw);
        } else {
            lemma_blocks_disjoint(t, u, sw);
        }
        assert(entry_of(e2, u, sw) =~= entry_of(e, u, sw));
    }
    assert forall|u: int| 0 <= u < r.len() implies le(#[trigger] entry_of(e, u, sw), entry_of(e2, u, sw)) by {
        lemma_block_range(u, r.len() as int, sw);
        let a = entry_of(e, u, sw);
        let b = entry_of(e2, u, sw);
        assert forall|i: int| 0 <= i < a.len() implies #[trigger] a[i] | b[i] == b[i] by {
            assert(e[u * sw + i] | e2[u * sw + i] == e2[u * sw + i]);
        }
    }
    lemma_unreached_update(r, t);
    lemma_gap_mono(e, e2);
}

pub proof fn lemma_below_after_propagate(
    e: Seq<u64>, r: Seq<bool>, e2: Seq<u64>, r2: Seq<bool>, sw: int, t: int, st: Seq<u64>,
    ret: Seq<u64>, se: Seq<u64>, sr: Seq<bool>, sret: Seq<u64>,
)
    requires
        propagated(e, r, e2, r2, sw, t, st),
        below(e, r, ret, se, sr, sret),
        0 <= t < r.len(),
        sw >= 0,
        e.len() == r.len() * sw,
        st.len() == sw,
        sr[t],
        le(st, entry_of(se, t, sw)),
    ensures
        below(e2, r2, ret, se, sr, sret),
{
    lemma_block_range(t, r.len() as int, sw);
    assert forall|i: int| 0 <= i < e2.len() implies #[trigger] e2[i] | se[i] == se[i] by {
        assert(e[i] | se[i] == se[i]);
        if t * sw <= i < t * sw + sw {
            let k = i - t * sw;
            assert(st[k] | entry_of(se, t, sw)[k] == entry_of(se, t, sw)[k]);
            assert(entry_of(se, t, sw)[k] == se[i]);
            if r[t] {
                lemma_or_lub(e[i], st[k], se[i]);
            }
        }
    }
}


pub open spec fn is_call_target(body: &Body, b: int, succ: BasicBlock) -> bool {
    body.basic_blocks@[b].terminator.kind matches TerminatorKind::Call { target: Some(t), .. } && succ == t
}

/// The flows out of block `b`, each a successor and whether it receives the
/// state after a call's return, cover exactly the successors of `b`.
pub open spec fn flows_ok(body: &Body, b: int, flows: Seq<(BasicBlock, bool)>) -> bool {
    flows_sound(body, b, flows, spec_succs(body, b)) && flows_cover(body, b, flows, spec_succs(body, b))
}

pub open spec fn flow_matches(body: &Body, b: int, flow: (BasicBlock, bool), succ: BasicBlock) -> bool {
    flow.0 == succ && (flow.1 <==> is_call_target(body, b, flow.0))
}

pub open spec fn flow_sound_at(body: &Body, b: int, flows: Seq<(BasicBlock, bool)>, succs: Seq<BasicBlock>, j: int) -> bool {
    exists|k: int| 0 <= k < succs.len() && #[trigger] flow_matches(body, b, flows[j], succs[k])
}

pub open spec fn flow_cover_at(body: &Body, b: int, flows: Seq<(BasicBlock, bool)>, succs: Seq<BasicBlock>, k: int) -> bool {
    exists|j: int| 0 <= j < flows.len() && #[trigger] flow_matches(body, b, flows[j], succs[k])
}

pub open spec fn flows_sound(body: &Body, b: int, flows: Seq<(BasicBlock, bool)>, succs: Seq<BasicBlock>) -> bool {
    forall|j: int| 0 <= j < flows.len() ==> #[trigger] flow_sound_at(body, b, flows, succs, j)
}

pub open spec fn flows_cover(body: &Body, b: int, flows: Seq<(BasicBlock, bool)>, succs: Seq<BasicBlock>) -> bool {
    forall|k: int| 0 <= k < succs.len() ==> #[trigger] flow_cover_at(body, b, flows, succs, k)
}

pub proof fn lemma_succs_in_range(tcx: &TyCtxt, body: &Body, w: int, b: int)
    requires
        body_ok(tcx, body, w),
        0 <= b < body.basic_blocks@.len(),
    ensures
        forall|k: int| 0 <= k < spec_succs(body, b).len() ==> #[trigger] spec_succs(body, b)[k]
            < body.basic_blocks@.len(),
{
    let data = body.basic_blocks@[b];
    assert(block_ok(tcx, data, body.local_decls@.len() as int, body.basic_blocks@.len() as int, w));
    if let TerminatorKind::SwitchInt { discr, targets } = data.terminator.kind {
        if let Some(value) = spec_switch_value(body, b as usize, discr) {
            let succ = data.terminator.kind.spec_successors();
            let k = targets.spec_index_for(value, 0);
            lemma_index_for(targets, value, 0);
            if k < 0 {
                assert(succ[succ.len() - 1] == targets.otherwise);
            } else {
                assert(succ[k] == targets.targets@[k]);
            }
        }
    }
}

pub proof fn lemma_index_for(targets: SwitchTargets, value: u128, k: int)
    requires
        targets.wf(),
        0 <= k,
    ensures
        targets.spec_index_for(value, k) < targets.values@.len(),
        targets.spec_index_for(value, k) >= 0 ==> targets.spec_index_for(value, k) >= k,
        targets.spec_index_for(value, k) < 0 ==> targets.spec_index_for(value, k) == -1,
    decreases targets.values@.len() - k,
{
    if k < targets.values@.len() && targets.values@[k] != value {
        lemma_index_for(targets, value, k + 1);
    }
}

/// Whether some argument's type holds regions.
pub fn args_have_regions(tcx: &TyCtxt, args: &Vec<Operand>) -> (has: bool)
    requires
        tcx.wf(),
        forall|j: int| 0 <= j < args@.len() ==> operand_ty_ok(tcx, #[trigger] args@[j]),
    ensures
        has == exists|k: int| 0 <= k < args@.len() && operand_ty_slots(tcx, #[trigger] args@[k]) > 0,
{
    let n = args.len();
    let mut k: usize = 0;
    while k < n
        invariant
            tcx.wf(),
            n == args@.len(),
            k <= n,
            forall|j: int| 0 <= j < args@.len() ==> operand_ty_ok(tcx, #[trigger] args@[j]),
            forall|j: int| 0 <= j < k ==> operand_ty_slots(tcx, #[trigger] args@[j]) == 0,
        decreases n - k,
    {
        if operand_slots(tcx, &args[k]) > 0 {
            assert(operand_ty_slots(tcx, args@[k as int]) > 0);
            return true;
        }
        k = k + 1;
    }
    false
}

/// A flow for each of `succs` other than `first`, in order.
pub open spec fn spec_others(succs: Seq<BasicBlock>, first: Option<BasicBlock>) -> Seq<(BasicBlock, bool)>
    decreases succs.len(),
{
    if succs.len() == 0 {
        Seq::empty()
    } else {
        spec_others(succs.drop_last(), first) + if Some(succs.last()) != first {
            seq![(succs.last(), false)]
        } else {
            Seq::empty()
        }
    }
}

/// The flows out of a good block, in the order the analysis propagates them.
pub open spec fn spec_flows(body: &Body, b: int) -> Seq<(BasicBlock, bool)> {
    let kind = body.basic_blocks@[b].terminator.kind;
    let succs = kind.spec_successors();
    match kind {
        TerminatorKind::SwitchInt { discr, targets } => match spec_switch_value(body, b as usize, discr) {
            Some(value) => seq![(targets.spec_target_for_value(value), false)],
            None => spec_others(succs, None),
        },
        TerminatorKind::Call { target: Some(t), .. } => seq![(t, true)] + spec_others(succs, Some(t)),
        TerminatorKind::Drop { target, .. } => seq![(target, false)] + spec_others(succs, Some(target)),
        _ => spec_others(succs, None),
    }
}

/// Appends a flow for each successor other than `first`, in order.
pub fn push_other_successors(flows: &mut Vec<(BasicBlock, bool)>, successors: &Vec<BasicBlock>, first: Option<BasicBlock>)
    ensures
        final(flows)@ == old(flows)@ + spec_others(successors@, first),
        final(flows)@.subrange(0, old(flows)@.len() as int) == old(flows)@,
        final(flows)@.len() >= old(flows)@.len(),
        forall|j: int| old(flows)@.len() <= j < final(flows)@.len() ==> !(#[trigger] final(flows)@[j]).1
            && Some(final(flows)@[j].0) != first && successors@.contains(final(flows)@[j].0),
        forall|i: int| 0 <= i < successors@.len() && Some(#[trigger] successors@[i]) != first ==> exists|j: int|
            old(flows)@.len() <= j < final(flows)@.len() && final(flows)@[j].0 == successors@[i],
{
    let ghost base = flows@;
    let n = successors.len();
    let mut k: usize = 0;
    while k < n
        invariant
            n == successors@.len(),
            k <= n,
            base == old(flows)@,
            flows@ == base + spec_others(successors@.take(k as int), first),
            flows@.len() >= base.len(),
            flows@.subrange(0, base.len() as int) == base,
            forall|j: int| base.len() <= j < flows@.len() ==> !(#[trigger] flows@[j]).1 && Some(flows@[j].0) != first
                && successors@.contains(flows@[j].0),
            forall|i: int| 0 <= i < k && Some(#[trigger] successors@[i]) != first ==> exists|j: int|
                base.len() <= j < flows@.len() && flows@[j].0 == successors@[i],
        decreases n - k,
    {
        let s = successors[k];
        let ghost prev = flows@;
        if first != Some(s) {
            flows.push((s, false));
        }
        proof {
            assert forall|j: int| base.len() <= j < flows@.len() implies !(#[trigger] flows@[j]).1 && Some(flows@[j].0) != first
                && successors@.contains(flows@[j].0) by {
                if j < prev.len() {
                    assert(flows@[j] == prev[j]);
                } else {
                    assert(successors@[k as int] == flows@[j].0);
                }
            }
            assert forall|i: int| 0 <= i < k + 1 && Some(#[trigger] successors@[i]) != first implies exists|j: int|
                base.len() <= j < flows@.len() && flows@[j].0 == successors@[i] by {
                if i < k {
                    let j = choose|j: int| base.len() <= j < prev.len() && prev[j].0 == successors@[i];
                    assert(flows@[j] == prev[j]);
                    assert(base.len() <= j < flows@.len() && flows@[j].0 == successors@[i]);
                } else {
                    assert(base.len() <= prev.len() < flows@.len() && flows@[prev.len() as int].0 == successors@[i]);
                }
            }
            assert(flows@.subrange(0, base.len() as int) =~= base);
            let t = successors@.take(k + 1);
            assert(t.drop_last() =~= successors@.take(k as int));
            assert(t.last() == s);
            assert(flows@ =~= base + spec_others(t, first));
        }
        k = k + 1;
    }
    proof {
        assert(successors@.take(n as int) =~= successors@);
    }
}

/// The successors of a block and what flows into each, in the order the
/// analysis propagates them; or the error for a block the analysis cannot describe.
#[verifier::rlimit(40)]
pub fn block_flows(tcx: &TyCtxt, body: &Body, block: BasicBlock, w: usize) -> (flows: Result<Vec<(BasicBlock, bool)>, OriginContractError>)
    requires
        tcx.wf(),
        body_ok(tcx, body, w as int),
        block < body.basic_blocks@.len(),
    ensures
        flows matches Ok(f) ==> !spec_bad(tcx, body, block as int) && flows_ok(body, block as int, f@) && forall|j: int|
            0 <= j < f@.len() ==> #[trigger] f@[j].0 < body.basic_blocks@.len(),
        flows matches Ok(f) ==> f@ == spec_flows(body, block as int),
        flows matches Err(e) ==> spec_bad(tcx, body, block as int) && e == (OriginContractError {
            span: body.basic_blocks@[block as int].terminator.span,
            kind: bad_kind(body, block as int),
        }),
{
    proof {
        lemma_succs_in_range(tcx, body, w as int, block as int);
        assert(block_ok(tcx, body.basic_blocks@[block as int], body.local_decls@.len() as int, body.basic_blocks@.len() as int, w as int));
    }
    let terminator = &body.basic_blocks[block].terminator;
    let successors = terminator.kind.successors();
    let mut flows: Vec<(BasicBlock, bool)> = Vec::new();
    let mut first: Option<BasicBlock> = None;
    match &terminator.kind {
        TerminatorKind::Return => {},
        TerminatorKind::SwitchInt { discr, targets } => {
            if let Some(value) = switch_value(body, block, discr) {
                flows.push((targets.target_for_value(value), false));
                proof {
                    assert(flow_matches(body, block as int, flows@[0], spec_succs(body, block as int)[0]));
                    assert(flow_sound_at(body, block as int, flows@, spec_succs(body, block as int), 0));
                    assert(flow_cover_at(body, block as int, flows@, spec_succs(body, block as int), 0));
                    assert(flows_ok(body, block as int, flows@));
                }
                return Ok(flows);
            }
        },
        TerminatorKind::Call { args, target, .. } => {
            if let Some(t) = target {
                proof {
                    assert forall|j: int| 0 <= j < args@.len() implies operand_ty_ok(tcx, #[trigger] args@[j]) by {
                        assert(operand_ok(tcx, body.local_decls@.len() as int, args@[j]));
                    }
                }
                if args_have_regions(tcx, args) {
                    return Err(
                        OriginContractError { span: terminator.span, kind: OriginContractErrorKind::CallMayMutateOrigin },
                    );
                }
                flows.push((*t, true));
                first = Some(*t);
                assert(flows@ =~= seq![(*t, true)]);
            }
        },
        TerminatorKind::Drop { place, target, .. } => {
            if has_region_occurrence(tcx, place.ty) {
                return Err(
                    OriginContractError { span: terminator.span, kind: OriginContractErrorKind::DropMayMutateOrigin },
                );
            }
            flows.push((*target, false));
            first = Some(*target);
            assert(flows@ =~= seq![(*target, false)]);
        },
        _ => {},
    }
    let ghost base = flows@;
    push_other_successors(&mut flows, &successors, first);
    proof {
        let succs = spec_succs(body, block as int);
        let f = flows@;
        assert forall|j: int| 0 <= j < f.len() implies #[trigger] flow_sound_at(body, block as int, f, succs, j) by {
            if j < base.len() {
                assert(f.subrange(0, base.len() as int)[j] == base[j]);
                assert(flow_matches(body, block as int, f[j], succs[0]));
            } else {
                assert(successors@.contains(f[j].0));
                let i = choose|i: int| 0 <= i < successors@.len() && successors@[i] == f[j].0;
                assert(flow_matches(body, block as int, f[j], succs[i]));
            }
        }
        assert forall|i: int| 0 <= i < succs.len() implies #[trigger] flow_cover_at(body, block as int, f, succs, i) by {
            if Some(succs[i]) != first {
                assert(Some(successors@[i]) != first);
                let j = choose|j: int| base.len() <= j < f.len() && f[j].0 == successors@[i];
                assert(flow_matches(body, block as int, f[j], succs[i]));
            } else {
                assert(f.subrange(0, base.len() as int)[0] == base[0]);
                assert(flow_matches(body, block as int, f[0], succs[i]));
            }
        }
        assert forall|j: int| 0 <= j < f.len() implies #[trigger] f[j].0 < body.basic_blocks@.len() by {
            assert(flow_sound_at(body, block as int, f, succs, j));
            let i = choose|i: int| 0 <= i < succs.len() && #[trigger] flow_matches(body, block as int, f[j], succs[i]);
        }
        assert(flows_sound(body, block as int, f, succs));
        assert(flows_cover(body, block as int, f, succs));
        assert(!spec_bad(tcx, body, block as int));
        assert(f =~= spec_flows(body, block as int));
    }
    Ok(flows)
}


impl Layout {
    pub proof fn lemma_edge_mono(&self, tcx: &TyCtxt, body: &Body, b: int, succ: BasicBlock, x: Seq<u64>, y: Seq<u64>)
        requires
            self.wf(),
            tcx.wf(),
            0 <= b < body.basic_blocks@.len(),
            body_ok(tcx, body, self.w()),
            self.n_locals() == body.local_decls@.len(),
            le(x, y),
            x.len() == self.sw(),
        ensures
            le(self.spec_edge_state(tcx, body, b, succ, x), self.spec_edge_state(tcx, body, b, succ, y)),
            self.spec_edge_state(tcx, body, b, succ, x).len() == x.len(),
    {
        assert(block_ok(tcx, body.basic_blocks@[b], body.local_decls@.len() as int, body.basic_blocks@.len() as int, self.w()));
        if let TerminatorKind::Call { destination, target: Some(t), .. } = body.basic_blocks@[b].terminator.kind {
            if succ == t {
                match destination.spec_as_local() {
                    Some(local) => self.lemma_set_unknown_mono(x, y, local as int),
                    None => self.lemma_set_unknown_mono(x, y, destination.local as int),
                }
            }
        }
    }

    pub proof fn lemma_exit_mono(&self, tcx: &TyCtxt, body: &Body, b: int, x: Seq<u64>, y: Seq<u64>)
        requires
            self.wf(),
            tcx.wf(),
            0 <= b < body.basic_blocks@.len(),
            body_ok(tcx, body, self.w()),
            self.n_locals() == body.local_decls@.len(),
            le(x, y),
            x.len() == self.sw(),
        ensures
            le(self.spec_block_exit(tcx, body, b, x), self.spec_block_exit(tcx, body, b, y)),
            self.spec_block_exit(tcx, body, b, x).len() == x.len(),
    {
        let data = body.basic_blocks@[b];
        assert(block_ok(tcx, data, body.local_decls@.len() as int, body.basic_blocks@.len() as int, self.w()));
        assert forall|j: int| 0 <= j < data.statements@.len() implies statement_ok(tcx, self.n_locals(), #[trigger] data.statements@[j]) by {
        }
        self.lemma_statements_mono(tcx, x, y, data.statements@, data.statements@.len() as int);
    }

    pub proof fn lemma_return_words_mono(&self, x: Seq<u64>, y: Seq<u64>)
        requires
            self.wf(),
            self.n_locals() > 0,
            le(x, y),
            x.len() == self.sw(),
        ensures
            le(self.return_words(x), self.return_words(y)),
    {
        self.lemma_local_range(0);
        assert forall|i: int| 0 <= i < self.return_words(x).len() implies #[trigger] self.return_words(x)[i]
            | self.return_words(y)[i] == self.return_words(y)[i] by {
            assert(x[i] | y[i] == y[i]);
        }
    }

    /// Closedness of a block survives growth of the other blocks' entries, of
    /// the reached blocks and of the returns.
    pub proof fn lemma_closed_grow(
        &self, tcx: &TyCtxt, body: &Body,
        e: Seq<u64>, r: Seq<bool>, ret: Seq<u64>, e2: Seq<u64>, r2: Seq<bool>, ret2: Seq<u64>, b: int,
    )
        requires
            body_ok(tcx, body, self.w()),
            0 <= b < body.basic_blocks@.len(),
            self.closed_at(tcx, body, e, r, ret, b),
            entry_of(e2, b, self.sw()) == entry_of(e, b, self.sw()),
            forall|u: int| 0 <= u < r.len() ==> le(#[trigger] entry_of(e, u, self.sw()), entry_of(e2, u, self.sw())),
            r.len() == body.basic_blocks@.len(),
            r2.len() == r.len(),
            forall|u: int| 0 <= u < r.len() && #[trigger] r[u] ==> r2[u],
            le(ret, ret2),
        ensures
            self.closed_at(tcx, body, e2, r2, ret2, b),
    {
        lemma_succs_in_range(tcx, body, self.w(), b);
        let exit = self.spec_block_exit(tcx, body, b, entry_of(e, b, self.sw()));
        let succs = spec_succs(body, b);
        assert forall|k: int| 0 <= k < succs.len() implies {
            let t = #[trigger] succs[k];
            &&& r2[t as int]
            &&& le(self.spec_edge_state(tcx, body, b, t, exit), entry_of(e2, t as int, self.sw()))
        } by {
            let t = succs[k];
            assert(r[t as int]);
            lemma_le_trans(self.spec_edge_state(tcx, body, b, t, exit), entry_of(e, t as int, self.sw()), entry_of(e2, t as int, self.sw()));
        }
        if body.basic_blocks@[b].terminator.kind is Return {
            lemma_le_trans(self.return_words(exit), ret, ret2);
        }
    }

    pub open spec fn least_solution(&self, tcx: &TyCtxt, body: &Body, start: Seq<u64>, ret: Seq<u64>) -> bool {
        exists|e: Seq<u64>, r: Seq<bool>| {
            &&& #[trigger] self.is_solution(tcx, body, start, e, r, ret)
            &&& forall|e2: Seq<u64>, r2: Seq<bool>, ret2: Seq<u64>| #[trigger] self.is_solution(tcx, body, start, e2, r2, ret2)
                ==> below(e, r, ret, e2, r2, ret2)
        }
    }

    pub open spec fn no_solution(&self, tcx: &TyCtxt, body: &Body, start: Seq<u64>) -> bool {
        forall|e2: Seq<u64>, r2: Seq<bool>, ret2: Seq<u64>| !#[trigger] self.is_solution(tcx, body, start, e2, r2, ret2)
    }

    /// Every solution lies above (`e`, `r`, `ret`).
    pub open spec fn below_all(&self, tcx: &TyCtxt, body: &Body, start: Seq<u64>, e: Seq<u64>, r: Seq<bool>, ret: Seq<u64>) -> bool {
        forall|e2: Seq<u64>, r2: Seq<bool>, ret2: Seq<u64>| #[trigger] self.is_solution(tcx, body, start, e2, r2, ret2)
            ==> below(e, r, ret, e2, r2, ret2)
    }

    /// What holds of the worklist between two blocks; `skip` is the block in
    /// progress, whose own closedness is not yet owed.
    pub open spec fn dataflow_inv(
        &self, tcx: &TyCtxt, body: &Body, start: Seq<u64>,
        e: Seq<u64>, r: Seq<bool>, q: Seq<bool>, queue: Seq<BasicBlock>, ret: Seq<u64>, skip: int,
    ) -> bool {
        let nb = body.basic_blocks@.len() as int;
        let sw = self.sw();
        &&& e.len() == nb * sw
        &&& r.len() == nb
        &&& q.len() == nb
        &&& ret.len() == self.hi(0)
        &&& forall|i: int| 0 <= i < queue.len() ==> #[trigger] queue[i] < nb && r[queue[i] as int]
        &&& forall|b: int| 0 <= b < nb && #[trigger] q[b] ==> r[b] && queue.contains(b as usize)
        &&& zero_unreached(e, r, sw)
        &&& r[0]
        &&& le(start, entry_of(e, 0, sw))
        &&& self.below_all(tcx, body, start, e, r, ret)
        &&& forall|b: int| 0 <= b < nb && b != skip && #[trigger] r[b] && !q[b] ==> self.closed_at(tcx, body, e, r, ret, b)
    }
}

pub fn zeros(n: usize) -> (v: Vec<u64>)
    ensures
        v@.len() == n,
        forall|i: int| 0 <= i < n ==> #[trigger] v@[i] == 0u64,
{
    let mut v = Vec::new();
    let mut i: usize = 0;
    while i < n
        invariant
            i <= n,
            v@.len() == i,
            forall|j: int| 0 <= j < i ==> #[trigger] v@[j] == 0u64,
        decreases n - i,
    {
        v.push(0);
        i = i + 1;
    }
    v
}

pub fn falses(n: usize) -> (v: Vec<bool>)
    ensures
        v@.len() == n,
        forall|i: int| 0 <= i < n ==> #[trigger] v@[i] == false,
{
    let mut v = Vec::new();
    let mut i: usize = 0;
    while i < n
        invariant
            i <= n,
            v@.len() == i,
            forall|j: int| 0 <= j < i ==> #[trigger] v@[j] == false,
        decreases n - i,
    {
        v.push(false);
        i = i + 1;
    }
    v
}

/// A copy of the entry state of `block`.
pub fn entry_state(entries: &Vec<u64>, block: usize, sw: usize, nb: usize) -> (state: Vec<u64>)
    requires
        block < nb,
        entries@.len() == nb * sw,
    ensures
        state@ == entry_of(entries@, block as int, sw as int),
{
    let total = entries.len();
    proof {
        lemma_block_range(block as int, nb as int, sw as int);
    }
    let start = block * sw;
    let mut state = Vec::new();
    let mut i: usize = 0;
    while i < sw
        invariant
            start == block * sw,
            start + sw <= entries@.len(),
            entries@.len() <= usize::MAX,
            i <= sw,
            state@ == entries@.subrange(start as int, start + i),
        decreases sw - i,
    {
        state.push(entries[start + i]);
        proof {
            assert(state@ =~= entries@.subrange(start as int, start + i + 1));
        }
        i = i + 1;
    }
    state
}


impl Layout {
    /// One flow of the state at the end of `block` into its successor `t`
    /// keeps the worklist's invariant.
    pub proof fn lemma_flow_step(
        &self, tcx: &TyCtxt, body: &Body, start: Seq<u64>,
        e: Seq<u64>, r: Seq<bool>, q: Seq<bool>, queue: Seq<BasicBlock>,
        e2: Seq<u64>, r2: Seq<bool>, q2: Seq<bool>, queue2: Seq<BasicBlock>,
        ret: Seq<u64>, block: int, k: int, st: Seq<u64>, entry0: Seq<u64>,
    )
        requires
            self.wf(),
            tcx.wf(),
            body_ok(tcx, body, self.w()),
            self.n_locals() == body.local_decls@.len(),
            self.dataflow_inv(tcx, body, start, e, r, q, queue, ret, block),
            0 <= block < body.basic_blocks@.len(),
            r[block],
            le(entry0, entry_of(e, block, self.sw())),
            0 <= k < spec_succs(body, block).len(),
            st == self.spec_edge_state(tcx, body, block, spec_succs(body, block)[k], self.spec_block_exit(tcx, body, block, entry0)),
            propagated(e, r, e2, r2, self.sw(), spec_succs(body, block)[k] as int, st),
            q2 == if !r[spec_succs(body, block)[k] as int] || e2 != e {
                q.update(spec_succs(body, block)[k] as int, true)
            } else {
                q
            },
            queue2 == if (!r[spec_succs(body, block)[k] as int] || e2 != e) && !q[spec_succs(body, block)[k] as int] {
                queue.push(spec_succs(body, block)[k])
            } else {
                queue
            },
        ensures
            self.dataflow_inv(tcx, body, start, e2, r2, q2, queue2, ret, block),
            le(entry0, entry_of(e2, block, self.sw())),
            le(st, entry_of(e2, spec_succs(body, block)[k] as int, self.sw())),
            r2[spec_succs(body, block)[k] as int],
            forall|u: int| 0 <= u < r.len() ==> le(#[trigger] entry_of(e, u, self.sw()), entry_of(e2, u, self.sw())),
            forall|u: int| 0 <= u < r.len() && #[trigger] r[u] ==> r2[u],
            q[block] || entry_of(e, block, self.sw()) == entry0 ==> q2[block] || entry_of(e2, block, self.sw()) == entry0,
            unreached_count(r2) <= unreached_count(r),
            gap(e2) <= gap(e),
            queue2 != queue ==> unreached_count(r2) < unreached_count(r) || (unreached_count(r2) == unreached_count(r)
                && gap(e2) < gap(e)),
    {
        let sw = self.sw();
        let nb = body.basic_blocks@.len() as int;
        let succs = spec_succs(body, block);
        let t = succs[k] as int;
        let changed = !r[t] || e2 != e;
        lemma_succs_in_range(tcx, body, self.w(), block);
        assert(0 <= sw) by (nonlinear_arith) requires self.offsets@[self.offsets@.len() - 1] >= 0, self.w() >= 0,
            sw == self.offsets@[self.offsets@.len() - 1] * self.w();
        lemma_block_range(block, nb, sw);
        assert(entry0.len() == sw);
        lemma_le_refl(entry0);
        self.lemma_exit_mono(tcx, body, block, entry0, entry0);
        let exit0 = self.spec_block_exit(tcx, body, block, entry0);
        lemma_le_refl(exit0);
        self.lemma_edge_mono(tcx, body, block, succs[k], exit0, exit0);
        lemma_propagated(e, r, e2, r2, sw, t, st);
        // Every solution lies above the new state.
        assert forall|se: Seq<u64>, sr: Seq<bool>, sret: Seq<u64>| #[trigger] self.is_solution(tcx, body, start, se, sr, sret)
            implies below(e2, r2, ret, se, sr, sret) by {
            assert(below(e, r, ret, se, sr, sret));
            assert(sr[block]);
            assert(self.closed_at(tcx, body, se, sr, sret, block));
            lemma_block_range(block, nb, sw);
            let ese = entry_of(se, block, sw);
            assert(le(entry_of(e, block, sw), ese)) by {
                assert forall|i: int| 0 <= i < sw implies #[trigger] entry_of(e, block, sw)[i] | ese[i] == ese[i] by {
                    assert(e[block * sw + i] | se[block * sw + i] == se[block * sw + i]);
                }
            }
            lemma_le_trans(entry0, entry_of(e, block, sw), ese);
            self.lemma_exit_mono(tcx, body, block, entry0, ese);
            let exit_se = self.spec_block_exit(tcx, body, block, ese);
            self.lemma_edge_mono(tcx, body, block, succs[k], exit0, exit_se);
            assert(sr[t]);
            lemma_le_trans(st, self.spec_edge_state(tcx, body, block, succs[k], exit_se), entry_of(se, t, sw));
            lemma_below_after_propagate(e, r, e2, r2, sw, t, st, ret, se, sr, sret);
        }
        if !changed {
            assert(e2 =~= e);
        }
        // The other blocks stay closed.
        assert forall|b: int| 0 <= b < nb && b != block && #[trigger] r2[b] && !q2[b] implies self.closed_at(tcx, body, e2, r2, ret, b) by {
            assert(r[b]);
            assert(!q[b]);
            if b != t {
                assert(entry_of(e2, b, sw) == entry_of(e, b, sw));
            }
            lemma_le_refl(ret);
            self.lemma_closed_grow(tcx, body, e, r, ret, e2, r2, ret, b);
        }
        // The queue holds every queued block.
        assert forall|b: int| 0 <= b < nb && #[trigger] q2[b] implies r2[b] && queue2.contains(b as usize) by {
            if b == t && changed && !q[t] {
                assert(queue2[queue2.len() - 1] == b as usize);
            } else {
                assert(q[b]);
                let i = choose|i: int| 0 <= i < queue.len() && queue[i] == b as usize;
                assert(queue2[i] == b as usize);
            }
        }
        assert forall|i: int| 0 <= i < queue2.len() implies #[trigger] queue2[i] < nb && r2[queue2[i] as int] by {
            if i < queue.len() {
                assert(queue2[i] == queue[i]);
                assert(r[queue[i] as int]);
            }
        }
        lemma_le_trans(start, entry_of(e, 0, sw), entry_of(e2, 0, sw));
        lemma_le_trans(entry0, entry_of(e, block, sw), entry_of(e2, block, sw));
    }
}


impl Layout {
    pub proof fn lemma_return_step(
        &self, tcx: &TyCtxt, body: &Body, start: Seq<u64>,
        e: Seq<u64>, r: Seq<bool>, q: Seq<bool>, queue: Seq<BasicBlock>, ret: Seq<u64>, ret2: Seq<u64>,
        block: int, entry0: Seq<u64>,
    )
        requires
            self.wf(),
            tcx.wf(),
            body_ok(tcx, body, self.w()),
            self.n_locals() == body.local_decls@.len(),
            self.dataflow_inv(tcx, body, start, e, r, q, queue, ret, block),
            0 <= block < body.basic_blocks@.len(),
            r[block],
            le(entry0, entry_of(e, block, self.sw())),
            body.basic_blocks@[block].terminator.kind is Return,
            ret2.len() == ret.len(),
            forall|i: int| 0 <= i < ret.len() ==> #[trigger] ret2[i] == ret[i] | self.return_words(
                self.spec_block_exit(tcx, body, block, entry0),
            )[i],
        ensures
            self.dataflow_inv(tcx, body, start, e, r, q, queue, ret2, block),
            le(self.return_words(self.spec_block_exit(tcx, body, block, entry0)), ret2),
            le(ret, ret2),
    {
        let sw = self.sw();
        let nb = body.basic_blocks@.len() as int;
        lemma_block_range(block, nb, sw);
        assert(0 <= sw) by (nonlinear_arith) requires self.offsets@[self.offsets@.len() - 1] >= 0, self.w() >= 0,
            sw == self.offsets@[self.offsets@.len() - 1] * self.w();
        lemma_block_range(block, nb, sw);
        let exit0 = self.spec_block_exit(tcx, body, block, entry0);
        lemma_le_refl(entry0);
        self.lemma_exit_mono(tcx, body, block, entry0, entry0);
        self.lemma_local_range(0);
        let rw = self.return_words(exit0);
        assert forall|i: int| 0 <= i < ret.len() implies #[trigger] ret[i] | ret2[i] == ret2[i] by {
            lemma_or_facts(ret[i], ret2[i], rw[i]);
        }
        assert forall|i: int| 0 <= i < rw.len() implies #[trigger] rw[i] | ret2[i] == ret2[i] by {
            lemma_or_facts(ret[i], ret2[i], rw[i]);
        }
        assert forall|se: Seq<u64>, sr: Seq<bool>, sret: Seq<u64>| #[trigger] self.is_solution(tcx, body, start, se, sr, sret)
            implies below(e, r, ret2, se, sr, sret) by {
            assert(below(e, r, ret, se, sr, sret));
            assert(sr[block]);
            assert(self.closed_at(tcx, body, se, sr, sret, block));
            let ese = entry_of(se, block, sw);
            assert(le(entry_of(e, block, sw), ese)) by {
                assert forall|i: int| 0 <= i < sw implies #[trigger] entry_of(e, block, sw)[i] | ese[i] == ese[i] by {
                    assert(e[block * sw + i] | se[block * sw + i] == se[block * sw + i]);
                }
            }
            lemma_le_trans(entry0, entry_of(e, block, sw), ese);
            self.lemma_exit_mono(tcx, body, block, entry0, ese);
            self.lemma_return_words_mono(exit0, self.spec_block_exit(tcx, body, block, ese));
            lemma_le_trans(rw, self.return_words(self.spec_block_exit(tcx, body, block, ese)), sret);
            assert forall|i: int| 0 <= i < ret2.len() implies #[trigger] ret2[i] | sret[i] == sret[i] by {
                assert(ret[i] | sret[i] == sret[i]);
                assert(rw[i] | sret[i] == sret[i]);
                lemma_or_lub(ret[i], rw[i], sret[i]);
            }
        }
        assert forall|b: int| 0 <= b < nb && b != block && #[trigger] r[b] && !q[b] implies self.closed_at(tcx, body, e, r, ret2, b) by {
            assert forall|u: int| 0 <= u < r.len() implies le(#[trigger] entry_of(e, u, sw), entry_of(e, u, sw)) by {
                lemma_le_refl(entry_of(e, u, sw));
            }
            self.lemma_closed_grow(tcx, body, e, r, ret, e, r, ret2, b);
        }
    }

    pub proof fn lemma_pop(
        &self, tcx: &TyCtxt, body: &Body, start: Seq<u64>,
        e: Seq<u64>, r: Seq<bool>, q: Seq<bool>, queue: Seq<BasicBlock>, ret: Seq<u64>,
    )
        requires
            self.dataflow_inv(tcx, body, start, e, r, q, queue, ret, -1),
            queue.len() > 0,
            body.basic_blocks@.len() <= usize::MAX,
        ensures
            ({
                let block = queue[0] as int;
                &&& self.dataflow_inv(tcx, body, start, e, r, q.update(block, false), queue.subrange(1, queue.len() as int), ret, block)
                &&& r[block]
                &&& 0 <= block < body.basic_blocks@.len()
            }),
    {
        let block = queue[0] as int;
        let nb = body.basic_blocks@.len() as int;
        let q2 = q.update(block, false);
        let queue2 = queue.subrange(1, queue.len() as int);
        assert(queue[0] < nb);
        assert forall|b: int| 0 <= b < nb && #[trigger] q2[b] implies r[b] && queue2.contains(b as usize) by {
            assert(q[b]);
            assert(b != block);
            let i = choose|i: int| 0 <= i < queue.len() && queue[i] == b as usize;
            if i == 0 {
                assert(b as usize == queue[0]);
                assert(b == block);
            }
            assert(queue2[i - 1] == b as usize);
        }
        assert forall|i: int| 0 <= i < queue2.len() implies #[trigger] queue2[i] < nb && r[queue2[i] as int] by {
            assert(queue2[i] == queue[i + 1]);
        }
        assert(r[queue[0] as int]);
    }

    pub proof fn lemma_bad_block(
        &self, tcx: &TyCtxt, body: &Body, start: Seq<u64>,
        e: Seq<u64>, r: Seq<bool>, q: Seq<bool>, queue: Seq<BasicBlock>, ret: Seq<u64>, block: int,
    )
        requires
            self.dataflow_inv(tcx, body, start, e, r, q, queue, ret, block),
            0 <= block < body.basic_blocks@.len(),
            r[block],
            spec_bad(tcx, body, block),
        ensures
            self.no_solution(tcx, body, start),
    {
        assert forall|se: Seq<u64>, sr: Seq<bool>, sret: Seq<u64>| !#[trigger] self.is_solution(tcx, body, start, se, sr, sret) by {
            if self.is_solution(tcx, body, start, se, sr, sret) {
                assert(below(e, r, ret, se, sr, sret));
                assert(sr[block]);
                assert(self.closed_at(tcx, body, se, sr, sret, block));
            }
        }
    }

    pub proof fn lemma_block_done(
        &self, tcx: &TyCtxt, body: &Body, start: Seq<u64>,
        e: Seq<u64>, r: Seq<bool>, q: Seq<bool>, queue: Seq<BasicBlock>, ret: Seq<u64>,
        block: int, entry0: Seq<u64>, flows: Seq<(BasicBlock, bool)>,
    )
        requires
            self.dataflow_inv(tcx, body, start, e, r, q, queue, ret, block),
            0 <= block < body.basic_blocks@.len(),
            r[block],
            q[block] || entry_of(e, block, self.sw()) == entry0,
            !spec_bad(tcx, body, block),
            flows_ok(body, block, flows),
            forall|j: int| 0 <= j < flows.len() ==> {
                let t = (#[trigger] flows[j]).0;
                &&& r[t as int]
                &&& le(self.spec_edge_state(tcx, body, block, t, self.spec_block_exit(tcx, body, block, entry0)), entry_of(e, t as int, self.sw()))
            },
            body.basic_blocks@[block].terminator.kind is Return ==> le(
                self.return_words(self.spec_block_exit(tcx, body, block, entry0)),
                ret,
            ),
        ensures
            self.dataflow_inv(tcx, body, start, e, r, q, queue, ret, -1),
    {
        if !q[block] {
            let succs = spec_succs(body, block);
            assert forall|k: int| 0 <= k < succs.len() implies {
                let t = #[trigger] succs[k];
                &&& r[t as int]
                &&& le(self.spec_edge_state(tcx, body, block, t, self.spec_block_exit(tcx, body, block, entry_of(e, block, self.sw()))), entry_of(e, t as int, self.sw()))
            } by {
                assert(flow_cover_at(body, block, flows, succs, k));
                let j = choose|j: int| 0 <= j < flows.len() && #[trigger] flow_matches(body, block, flows[j], succs[k]);
                assert(flows[j].0 == succs[k]);
            }
            assert(self.closed_at(tcx, body, e, r, ret, block));
        }
    }

    pub proof fn lemma_dataflow_end(
        &self, tcx: &TyCtxt, body: &Body, start: Seq<u64>,
        e: Seq<u64>, r: Seq<bool>, q: Seq<bool>, queue: Seq<BasicBlock>, ret: Seq<u64>,
    )
        requires
            self.dataflow_inv(tcx, body, start, e, r, q, queue, ret, -1),
            queue.len() == 0,
            body.basic_blocks@.len() > 0,
        ensures
            self.least_solution(tcx, body, start, ret),
    {
        let nb = body.basic_blocks@.len() as int;
        assert forall|b: int| 0 <= b < nb && #[trigger] r[b] implies self.closed_at(tcx, body, e, r, ret, b) by {
            if q[b] {
                assert(queue.contains(b as usize));
            }
        }
        assert(self.is_solution(tcx, body, start, e, r, ret));
        assert(self.below_all(tcx, body, start, e, r, ret));
    }

    pub proof fn lemma_dataflow_init(
        &self, tcx: &TyCtxt, body: &Body, start: Seq<u64>,
        e: Seq<u64>, r: Seq<bool>, q: Seq<bool>, queue: Seq<BasicBlock>, ret: Seq<u64>,
    )
        requires
            self.wf(),
            body.basic_blocks@.len() > 0,
            start.len() == self.sw(),
            e.len() == body.basic_blocks@.len() * self.sw(),
            forall|i: int| 0 <= i < e.len() ==> #[trigger] e[i] == if i < self.sw() { start[i] } else { 0u64 },
            r == Seq::new(body.basic_blocks@.len(), |b: int| b == 0),
            q == r,
            queue == seq![0usize],
            ret.len() == self.hi(0),
            forall|i: int| 0 <= i < ret.len() ==> #[trigger] ret[i] == 0u64,
        ensures
            self.dataflow_inv(tcx, body, start, e, r, q, queue, ret, -1),
    {
        let sw = self.sw();
        let nb = body.basic_blocks@.len() as int;
        assert(0 <= sw) by (nonlinear_arith) requires self.offsets@[self.offsets@.len() - 1] >= 0, self.w() >= 0,
            sw == self.offsets@[self.offsets@.len() - 1] * self.w();
        lemma_block_range(0, nb, sw);
        assert(entry_of(e, 0, sw) =~= start);
        lemma_le_refl(start);
        assert forall|b: int, i: int| 0 <= b < r.len() && !r[b] && b * sw <= i < b * sw + sw implies #[trigger] e[i] == 0u64
            && #[trigger] r[b] == false by {
            lemma_block_range(b, nb, sw);
            assert(b >= 1);
            assert(b * sw >= sw) by (nonlinear_arith) requires b >= 1, sw >= 0;
        }
        assert forall|se: Seq<u64>, sr: Seq<bool>, sret: Seq<u64>| #[trigger] self.is_solution(tcx, body, start, se, sr, sret)
            implies below(e, r, ret, se, sr, sret) by {
            let e0 = entry_of(se, 0, sw);
            assert forall|i: int| 0 <= i < e.len() implies #[trigger] e[i] | se[i] == se[i] by {
                if i < sw {
                    assert(start[i] | e0[i] == e0[i]);
                } else {
                    lemma_or_facts(se[i], se[i], 0);
                }
            }
            assert forall|i: int| 0 <= i < ret.len() implies #[trigger] ret[i] | sret[i] == sret[i] by {
                lemma_or_facts(sret[i], sret[i], 0);
            }
        }
        assert forall|b: int| 0 <= b < nb && #[trigger] q[b] implies r[b] && queue.contains(b as usize) by {
            assert(queue[0] == b as usize);
        }
    }
}

/// A copy of `state`.
pub fn copy_words(state: &Vec<u64>) -> (copy: Vec<u64>)
    ensures
        copy@ == state@,
{
    let mut copy = Vec::new();
    let mut i: usize = 0;
    while i < state.len()
        invariant
            i <= state@.len(),
            copy@ == state@.subrange(0, i as int),
        decreases state@.len() - i,
    {
        copy.push(state[i]);
        proof {
            assert(copy@ =~= state@.subrange(0, i + 1));
        }
        i = i + 1;
    }
    proof {
        assert(copy@ =~= state@);
    }
    copy
}

impl Layout {
    /// The state that a call hands to its return target: the destination's
    /// slots hold only the unknown bit.
    pub fn call_edge(&self, tcx: &TyCtxt, destination: &Place, state: &Vec<u64>) -> (edge: Vec<u64>)
        requires
            tcx.wf(),
            self.wf(),
            place_ok(tcx, self.n_locals(), *destination),
            state@.len() == self.sw(),
        ensures
            edge@ == self.call_edge_state(tcx, state@, *destination),
    {
        let mut edge = copy_words(state);
        match destination.as_local() {
            Some(local) => {
                let slots = self.local_slots(local);
                if slots.start != slots.end {
                    self.set_unknown_local(&mut edge, local);
                }
            },
            None => {
                if has_region_occurrence(tcx, destination.ty) {
                    self.set_unknown_local(&mut edge, destination.local);
                }
            },
        }
        edge
    }
}

/// The state of the worklist: entry states, reached and queued blocks, the
/// queue, and what the returns may hold.
pub type Worklist = (Seq<u64>, Seq<bool>, Seq<bool>, Seq<BasicBlock>, Seq<u64>);

/// The worklist after `x` flows into block `t` (see `propagate_state`).
pub open spec fn spec_propagate(w: Worklist, sw: int, t: BasicBlock, x: Seq<u64>) -> Worklist {
    let start = t * sw;
    let e = Seq::new(
        w.0.len(),
        |i: int| if start <= i < start + sw { spec_entry_after(w.0, w.1[t as int], start, x, i) } else { w.0[i] },
    );
    let changed = !w.1[t as int] || exists|i: int| start <= i < start + sw && #[trigger] e[i] != w.0[i];
    (
        e,
        w.1.update(t as int, true),
        if changed { w.2.update(t as int, true) } else { w.2 },
        if changed && !w.2[t as int] { w.3.push(t) } else { w.3 },
        w.4,
    )
}

/// `words` merged into `ret`, word by word where `words` has one.
pub open spec fn spec_merge(ret: Seq<u64>, words: Seq<u64>) -> Seq<u64> {
    Seq::new(ret.len(), |i: int| if i < words.len() { ret[i] | words[i] } else { ret[i] })
}

impl Layout {
    /// The worklist after the first `k` of `flows` out of block `b`, whose
    /// statements end in `exit`, have been propagated.
    pub open spec fn spec_propagate_flows(
        &self, tcx: &TyCtxt, body: &Body, b: int, exit: Seq<u64>, w: Worklist, flows: Seq<(BasicBlock, bool)>, k: int,
    ) -> Worklist
        decreases k,
    {
        if k <= 0 {
            w
        } else {
            let prev = self.spec_propagate_flows(tcx, body, b, exit, w, flows, k - 1);
            let t = flows[k - 1].0;
            spec_propagate(prev, self.sw(), t, self.spec_edge_state(tcx, body, b, t, exit))
        }
    }

    /// One step of the worklist: the block at the head of the queue is taken
    /// off, its statements run from its entry state, a return merges into
    /// what returns hold, and its flows propagate in order.
    pub open spec fn spec_wl_step(&self, tcx: &TyCtxt, body: &Body, w: Worklist) -> Worklist {
        let b = w.3[0];
        let sw = self.sw();
        let exit = self.spec_block_exit(tcx, body, b as int, entry_of(w.0, b as int, sw));
        let ret = if body.basic_blocks@[b as int].terminator.kind is Return { spec_merge(w.4, exit) } else { w.4 };
        let flows = spec_flows(body, b as int);
        self.spec_propagate_flows(
            tcx, body, b as int, exit, (w.0, w.1, w.2.update(b as int, false), w.3.drop_first(), ret), flows,
            flows.len() as int,
        )
    }

    /// The worklist at the start: the start block reached and queued with
    /// entry state `start`.
    pub open spec fn spec_wl_init(&self, body: &Body, start: Seq<u64>) -> Worklist {
        let nb = body.basic_blocks@.len() as int;
        let sw = self.sw();
        (
            Seq::new((nb * sw) as nat, |j: int| if j < sw { start[j] } else { 0u64 }),
            Seq::new(nb as nat, |b: int| b == 0),
            Seq::new(nb as nat, |b: int| b == 0),
            seq![START_BLOCK],
            Seq::new(self.hi(0) as nat, |i: int| 0u64),
        )
    }

    /// The worklist after `n` steps.
    pub open spec fn spec_wl_run(&self, tcx: &TyCtxt, body: &Body, start: Seq<u64>, n: nat) -> Worklist
        decreases n,
    {
        if n == 0 {
            self.spec_wl_init(body, start)
        } else {
            self.spec_wl_step(tcx, body, self.spec_wl_run(tcx, body, start, (n - 1) as nat))
        }
    }

    /// Step `n` takes a block the analysis cannot describe off the queue, and
    /// every step before took a good one.
    pub open spec fn first_bad_pop(&self, tcx: &TyCtxt, body: &Body, start: Seq<u64>, n: nat) -> bool {
        &&& self.spec_wl_run(tcx, body, start, n).3.len() > 0
        &&& spec_bad(tcx, body, self.spec_wl_run(tcx, body, start, n).3[0] as int)
        &&& forall|m: nat|
            m < n ==> #[trigger] self.spec_wl_run(tcx, body, start, m).3.len() > 0 && !spec_bad(
                tcx,
                body,
                self.spec_wl_run(tcx, body, start, m).3[0] as int,
            )
    }
}

/// Runs the analysis from `start`, one block at a time off a worklist, until
/// no entry state grows. Gives what the returns may hold, which is the least
/// solution; or, where a reached block ends in a terminator the analysis
/// cannot describe, that block's error, and then there is no solution.
pub fn run_dataflow(tcx: &TyCtxt, layout: &Layout, body: &Body, start: &Vec<u64>) -> (result: Result<Vec<u64>, OriginContractError>)
    requires
        tcx.wf(),
        layout.wf(),
        layout.n_locals() == body.local_decls@.len(),
        body_ok(tcx, body, layout.w()),
        body.basic_blocks@.len() > 0,
        start@.len() == layout.sw(),
        body.basic_blocks@.len() * layout.sw() <= usize::MAX,
    ensures
        result matches Ok(ret) ==> layout.least_solution(tcx, body, start@, ret@),
        result matches Err(e) ==> layout.no_solution(tcx, body, start@) && exists|b: int|
            0 <= b < body.basic_blocks@.len() && #[trigger] spec_bad(tcx, body, b) && walk_reaches(tcx, body, b) && e == (OriginContractError {
                span: body.basic_blocks@[b].terminator.span,
                kind: bad_kind(body, b),
            }),
        result matches Err(e) ==> exists|n: nat| #[trigger] layout.first_bad_pop(tcx, body, start@, n) && e == (OriginContractError {
            span: body.basic_blocks@[layout.spec_wl_run(tcx, body, start@, n).3[0] as int].terminator.span,
            kind: bad_kind(body, layout.spec_wl_run(tcx, body, start@, n).3[0] as int),
        }),
{
    let nb = body.basic_blocks.len();
    let sw = layout.state_words();
    proof {
        assert(0 <= sw) by (nonlinear_arith) requires layout.offsets@[layout.offsets@.len() - 1] >= 0, layout.w() >= 0,
            sw == layout.offsets@[layout.offsets@.len() - 1] * layout.w();
        lemma_block_range(0, nb as int, sw as int);
    }
    let mut entries = zeros(nb * sw);
    let mut i: usize = 0;
    while i < sw
        invariant
            start@.len() == sw,
            sw <= nb * sw,
            entries@.len() == nb * sw,
            i <= sw,
            forall|j: int| 0 <= j < entries@.len() ==> #[trigger] entries@[j] == if j < i { start@[j] } else { 0u64 },
        decreases sw - i,
    {
        entries.set(i, start[i]);
        i = i + 1;
    }
    let mut reached = falses(nb);
    reached.set(0, true);
    let mut queued = falses(nb);
    queued.set(0, true);
    let mut queue: VecDeque<BasicBlock> = VecDeque::new();
    queue.push_back(0);
    proof {
        layout.lemma_local_range(0);
    }
    let ret_len = layout.offsets[1] * layout.words_per_set;
    let mut returned = zeros(ret_len);
    let mut scratch: Vec<u64> = Vec::new();
    proof {
        assert(reached@ =~= Seq::new(body.basic_blocks@.len(), |b: int| b == 0));
        assert(queued@ =~= reached@);
        assert(queue@ =~= seq![0usize]);
        layout.lemma_dataflow_init(tcx, body, start@, entries@, reached@, queued@, queue@, returned@);
        lemma_walk_start(tcx, body);
        let w0 = layout.spec_wl_init(body, start@);
        assert(entries@ =~= w0.0);
        assert(reached@ =~= w0.1);
        assert(queued@ =~= w0.2);
        assert(queue@ =~= w0.3);
        assert(returned@ =~= w0.4);
        assert((entries@, reached@, queued@, queue@, returned@) == layout.spec_wl_run(tcx, body, start@, 0));
    }
    let ghost mut steps: nat = 0;
    while queue.len() > 0
        invariant
            tcx.wf(),
            layout.wf(),
            layout.n_locals() == body.local_decls@.len(),
            body_ok(tcx, body, layout.w()),
            nb == body.basic_blocks@.len(),
            nb > 0,
            sw == layout.sw(),
            nb * sw <= usize::MAX,
            start@.len() == sw,
            layout.dataflow_inv(tcx, body, start@, entries@, reached@, queued@, queue@, returned@, -1),
            reached@.len() == nb,
            forall|b: int| 0 <= b < nb && #[trigger] reached@[b] ==> walk_reaches(tcx, body, b),
            (entries@, reached@, queued@, queue@, returned@) == layout.spec_wl_run(tcx, body, start@, steps),
            forall|m: nat|
                m < steps ==> #[trigger] layout.spec_wl_run(tcx, body, start@, m).3.len() > 0 && !spec_bad(
                    tcx,
                    body,
                    layout.spec_wl_run(tcx, body, start@, m).3[0] as int,
                ),
        decreases unreached_count(reached@), gap(entries@), queue@.len(),
    {
        let ghost u0 = unreached_count(reached@);
        let ghost g0 = gap(entries@);
        proof {
            layout.lemma_pop(tcx, body, start@, entries@, reached@, queued@, queue@, returned@);
        }
        let ghost wl = layout.spec_wl_run(tcx, body, start@, steps);
        let block = queue.pop_front().unwrap();
        queued.set(block, false);
        let ghost queue_pop = queue@;
        let mut state = entry_state(&entries, block, sw, nb);
        let ghost entry0 = state@;
        proof {
            lemma_block_range(block as int, nb as int, sw as int);
            assert(entry0.len() == sw);
            lemma_le_refl(entry0);
        }
        apply_statements(tcx, layout, body, block, &mut state, &mut scratch);
        let flows = match block_flows(tcx, body, block, layout.words_per_set) {
            Ok(f) => f,
            Err(e) => {
                proof {
                    layout.lemma_bad_block(tcx, body, start@, entries@, reached@, queued@, queue@, returned@, block as int);
                    assert(wl.3[0] == block);
                    assert(layout.first_bad_pop(tcx, body, start@, steps));
                }
                return Err(e);
            },
        };
        proof {
            assert(block_ok(tcx, body.basic_blocks@[block as int], body.local_decls@.len() as int, nb as int, layout.w()));
            lemma_le_refl(state@);
            layout.lemma_exit_mono(tcx, body, block as int, entry0, entry0);
        }
        let edge: Vec<u64> = match &body.basic_blocks[block].terminator.kind {
            TerminatorKind::Return => {
                let ghost ret0 = returned@;
                merge_state(&mut returned, &state);
                proof {
                    layout.lemma_local_range(0);
                    assert forall|i: int| 0 <= i < ret0.len() implies #[trigger] returned@[i] == ret0[i]
                        | layout.return_words(state@)[i] by {
                        assert(i < state@.len());
                    }
                    layout.lemma_return_step(
                        tcx, body, start@, entries@, reached@, queued@, queue@, ret0, returned@, block as int, entry0,
                    );
                }
                Vec::new()
            },
            TerminatorKind::Call { destination, target: Some(_), .. } => layout.call_edge(tcx, destination, &state),
            _ => Vec::new(),
        };
        proof {
            assert forall|k: int| 0 <= k < flows@.len() && (#[trigger] flows@[k]).1 implies edge@ == layout.spec_edge_state(
                tcx, body, block as int, flows@[k].0, state@) by {
                assert(flow_sound_at(body, block as int, flows@, spec_succs(body, block as int), k));
            }
            assert forall|k: int| 0 <= k < flows@.len() && !(#[trigger] flows@[k]).1 implies state@ == layout.spec_edge_state(
                tcx, body, block as int, flows@[k].0, state@) by {
                assert(flow_sound_at(body, block as int, flows@, spec_succs(body, block as int), k));
            }
            assert(entry0 == entry_of(wl.0, block as int, sw as int));
            if body.basic_blocks@[block as int].terminator.kind is Return {
                assert(returned@ =~= spec_merge(wl.4, state@));
            }
            assert(queue@ =~= wl.3.drop_first());
        }
        let ghost w1 = (entries@, reached@, queued@, queue@, returned@);
        proof {
            assert(layout.spec_propagate_flows(tcx, body, block as int, state@, w1, flows@, 0) == w1);
        }
        let mut j: usize = 0;
        while j < flows.len()
            invariant
                tcx.wf(),
                layout.wf(),
                layout.n_locals() == body.local_decls@.len(),
                body_ok(tcx, body, layout.w()),
                nb == body.basic_blocks@.len(),
                sw == layout.sw(),
                nb * sw <= usize::MAX,
                start@.len() == sw,
                block < nb,
                flows_ok(body, block as int, flows@),
                forall|k: int| 0 <= k < flows@.len() ==> #[trigger] flows@[k].0 < nb,
                forall|k: int| 0 <= k < flows@.len() && (#[trigger] flows@[k]).1 ==> edge@ == layout.spec_edge_state(
                    tcx, body, block as int, flows@[k].0, state@),
                !spec_bad(tcx, body, block as int),
                entry0.len() == sw,
                state@.len() == sw,
                state@ == layout.spec_block_exit(tcx, body, block as int, entry0),
                layout.dataflow_inv(tcx, body, start@, entries@, reached@, queued@, queue@, returned@, block as int),
                reached@[block as int],
                reached@.len() == nb,
                (entries@, reached@, queued@, queue@, returned@) == layout.spec_propagate_flows(
                    tcx, body, block as int, state@, w1, flows@, j as int),
                forall|k: int| 0 <= k < flows@.len() && !(#[trigger] flows@[k]).1 ==> state@ == layout.spec_edge_state(
                    tcx, body, block as int, flows@[k].0, state@),
                forall|b: int| 0 <= b < nb && #[trigger] reached@[b] ==> walk_reaches(tcx, body, b),
                le(entry0, entry_of(entries@, block as int, sw as int)),
                queued@[block as int] || entry_of(entries@, block as int, sw as int) == entry0,
                j <= flows@.len(),
                forall|k: int| 0 <= k < j ==> {
                    let t = (#[trigger] flows@[k]).0;
                    &&& reached@[t as int]
                    &&& le(layout.spec_edge_state(tcx, body, block as int, t, state@), entry_of(entries@, t as int, sw as int))
                },
                body.basic_blocks@[block as int].terminator.kind is Return ==> le(layout.return_words(state@), returned@),
                unreached_count(reached@) <= u0,
                gap(entries@) <= g0,
                unreached_count(reached@) < u0 || (unreached_count(reached@) == u0 && gap(entries@) < g0) || (
                unreached_count(reached@) == u0 && gap(entries@) == g0 && queue@ == queue_pop),
            decreases flows@.len() - j,
        {
            let t = flows[j].0;
            let ghost e1 = entries@;
            let ghost r1 = reached@;
            let ghost q1 = queued@;
            let ghost queue1 = queue@;
            let ghost succs = spec_succs(body, block as int);
            proof {
                assert(flow_sound_at(body, block as int, flows@, succs, j as int));
            }
            let ghost k = choose|k: int| 0 <= k < succs.len() && #[trigger] flow_matches(body, block as int, flows@[j as int], succs[k]);
            let ghost st = layout.spec_edge_state(tcx, body, block as int, t, state@);
            proof {
                lemma_le_refl(state@);
                layout.lemma_edge_mono(tcx, body, block as int, t, state@, state@);
                lemma_block_range(t as int, nb as int, sw as int);
            }
            if flows[j].1 {
                propagate_state(&mut entries, &mut reached, &mut queued, &mut queue, sw, t, &edge);
            } else {
                propagate_state(&mut entries, &mut reached, &mut queued, &mut queue, sw, t, &state);
            }
            proof {
                assert(succs[k] == t);
                lemma_walk_step(tcx, body, nb as int, r1, reached@, block as int, t);
                let prev = layout.spec_propagate_flows(tcx, body, block as int, state@, w1, flows@, j as int);
                let x = layout.spec_edge_state(tcx, body, block as int, t, state@);
                assert(flows@[j as int].0 == t);
                let nxt = spec_propagate(prev, sw as int, t, x);
                assert(entries@ =~= nxt.0);
                assert(layout.spec_propagate_flows(tcx, body, block as int, state@, w1, flows@, j + 1) == nxt);
                let changed_words = exists|i: int| t * sw <= i < t * sw + sw && #[trigger] entries@[i] != e1[i];
                if !changed_words {
                    assert(entries@ =~= e1);
                }
                assert(propagated(e1, r1, entries@, reached@, sw as int, t as int, st));
                layout.lemma_flow_step(
                    tcx, body, start@, e1, r1, q1, queue1, entries@, reached@, queued@, queue@, returned@,
                    block as int, k, st, entry0,
                );
                assert forall|k2: int| 0 <= k2 < j + 1 implies {
                    let t2 = (#[trigger] flows@[k2]).0;
                    &&& reached@[t2 as int]
                    &&& le(layout.spec_edge_state(tcx, body, block as int, t2, state@), entry_of(entries@, t2 as int, sw as int))
                } by {
                    let t2 = flows@[k2].0;
                    if k2 < j {
                        lemma_le_trans(
                            layout.spec_edge_state(tcx, body, block as int, t2, state@),
                            entry_of(e1, t2 as int, sw as int),
                            entry_of(entries@, t2 as int, sw as int),
                        );
                    }
                }
            }
            j = j + 1;
        }
        proof {
            assert(flows@ == spec_flows(body, block as int));
            assert(layout.spec_wl_step(tcx, body, wl) == layout.spec_propagate_flows(
                tcx, body, block as int, state@, w1, flows@, flows@.len() as int));
            assert(layout.spec_wl_run(tcx, body, start@, steps + 1) == layout.spec_wl_step(tcx, body, wl));
            steps = steps + 1;
            layout.lemma_block_done(
                tcx, body, start@, entries@, reached@, queued@, queue@, returned@, block as int, entry0, flows@,
            );
            lemma_unreached_nonneg(reached@);
            lemma_le_refl(entries@);
            lemma_gap_mono(entries@, entries@);
        }
    }
    proof {
        layout.lemma_dataflow_end(tcx, body, start@, entries@, reached@, queued@, queue@, returned@);
    }
    Ok(returned)
}

/// The word `slot * w + k` of a slot's set is the `k`-th word of that set.
pub proof fn lemma_word_in_slot(slot: int, w: int, k: int)
    by (nonlinear_arith)
    requires
        0 <= slot,
        0 <= k < w,
    ensures
        (slot * w + k) % w == k,
        (slot * w + k) / w == slot,
{
}

} // verus!
