//! From a function's signature and MIR body to its origin contract: which
//! region sources the analysis starts from, where it starts them, and which
//! requirements the returned origins give.
use vstd::prelude::*;

use crate::origin_contract::{
    bad_kind, body_ok, lemma_block_range, run_dataflow, slots_prefix, spec_bad, walk_reaches, words_for, Body, Layout,
    OriginContract, OriginContractAnalysis, OriginContractError, OriginContractErrorKind, OriginRequirement,
};
use crate::ty::{DefId, GenericParamDef, GenericParamDefKind, OriginSlot, Region, RegionSlot, TyCtxt, TyId};

verus! {

/// The first of `params`, from index `k` on, that has generic index `index`.
pub open spec fn param_in(params: Seq<GenericParamDef>, index: u32, k: int) -> Option<GenericParamDef>
    decreases params.len() - k,
{
    if k < 0 || k >= params.len() {
        None
    } else if params[k].index == index {
        Some(params[k])
    } else {
        param_in(params, index, k + 1)
    }
}

/// The generic parameter with index `index` of `def` or of the definitions it
/// is nested in, looking through at most `fuel` of them.
pub open spec fn spec_param_at(tcx: &TyCtxt, def: DefId, index: u32, fuel: nat) -> Option<GenericParamDef>
    decreases fuel,
{
    if fuel == 0 || def >= tcx.defs@.len() {
        None
    } else {
        match param_in(tcx.defs@[def as int].own_params@, index, 0) {
            Some(p) => Some(p),
            None => match tcx.defs@[def as int].parent {
                Some(parent) => spec_param_at(tcx, parent, index, (fuel - 1) as nat),
                None => None,
            },
        }
    }
}

/// `generics_of(owner).param_at(index)`.
pub open spec fn owner_param(tcx: &TyCtxt, owner: DefId, index: u32) -> Option<GenericParamDef> {
    spec_param_at(tcx, owner, index, tcx.defs@.len())
}

/// The region is an early-bound parameter of `owner` that names a lifetime
/// parameter, or not an early-bound parameter at all; and a liberated
/// late-bound region names a definition.
pub open spec fn region_resolves(tcx: &TyCtxt, owner: DefId, region: Region) -> bool {
    match region {
        Region::EarlyParam(i) => match owner_param(tcx, owner, i) {
            Some(p) => (p.kind == GenericParamDefKind::Lifetime || p.kind == GenericParamDefKind::OriginLifetime)
                && p.def_id < tcx.defs@.len(),
            None => false,
        },
        Region::LateParam(Some(d)) => d < tcx.defs@.len(),
        _ => true,
    }
}

/// The region slot of a region of `owner`'s signature, if it has one.
pub open spec fn spec_region_slot(tcx: &TyCtxt, owner: DefId, region: Region) -> Option<RegionSlot> {
    match region {
        Region::EarlyParam(i) => match owner_param(tcx, owner, i) {
            Some(p) => tcx.defs@[p.def_id as int].region_slot,
            None => None,
        },
        Region::LateParam(Some(d)) => tcx.defs@[d as int].region_slot,
        _ => None,
    }
}

/// The origin slot of a region of `owner`'s signature, if it has one.
pub open spec fn spec_origin_slot(tcx: &TyCtxt, owner: DefId, region: Region) -> Option<OriginSlot> {
    match region {
        Region::EarlyParam(i) => match owner_param(tcx, owner, i) {
            Some(p) => tcx.defs@[p.def_id as int].origin_slot,
            None => None,
        },
        _ => None,
    }
}

/// The first of `params` with generic index `index`.
fn find_param(params: &Vec<GenericParamDef>, index: u32) -> (found: Option<GenericParamDef>)
    ensures
        found == param_in(params@, index, 0),
{
    let n = params.len();
    let mut k: usize = 0;
    while k < n
        invariant
            n == params@.len(),
            k <= n,
            param_in(params@, index, k as int) == param_in(params@, index, 0),
        decreases n - k,
    {
        if params[k].index == index {
            return Some(params[k]);
        }
        k = k + 1;
    }
    None
}

/// `generics_of(owner).param_at(index)`, through the parents of `owner`.
pub fn param_at(tcx: &TyCtxt, owner: DefId, index: u32) -> (found: Option<GenericParamDef>)
    ensures
        found == owner_param(tcx, owner, index),
{
    let mut def = owner;
    let mut fuel = tcx.defs.len();
    while fuel > 0 && def < tcx.defs.len()
        invariant
            spec_param_at(tcx, def, index, fuel as nat) == owner_param(tcx, owner, index),
        decreases fuel,
    {
        let data = &tcx.defs[def];
        match find_param(&data.own_params, index) {
            Some(p) => {
                return Some(p);
            },
            None => match data.parent {
                Some(parent) => {
                    def = parent;
                    fuel = fuel - 1;
                },
                None => {
                    return None;
                },
            },
        }
    }
    None
}

/// The region slot of `region`, a region of `owner`'s signature.
pub fn region_slot(tcx: &TyCtxt, owner: DefId, region: Region) -> (slot: Option<RegionSlot>)
    requires
        region_resolves(tcx, owner, region),
    ensures
        slot == spec_region_slot(tcx, owner, region),
{
    match region {
        Region::EarlyParam(i) => match param_at(tcx, owner, i) {
            Some(p) => tcx.defs[p.def_id].region_slot,
            None => None,
        },
        Region::LateParam(Some(d)) => tcx.defs[d].region_slot,
        _ => None,
    }
}

/// The origin slot of `region`, a region of `owner`'s signature.
pub fn origin_slot(tcx: &TyCtxt, owner: DefId, region: Region) -> (slot: Option<OriginSlot>)
    requires
        region_resolves(tcx, owner, region),
    ensures
        slot == spec_origin_slot(tcx, owner, region),
{
    match region {
        Region::EarlyParam(i) => match param_at(tcx, owner, i) {
            Some(p) => tcx.defs[p.def_id].origin_slot,
            None => None,
        },
        _ => None,
    }
}

/// The number of the first `k` parameters that are origin lifetimes.
pub open spec fn origin_count(params: Seq<GenericParamDef>, k: int) -> int
    decreases k,
{
    if k <= 0 {
        0
    } else {
        origin_count(params, k - 1) + if params[k - 1].kind == GenericParamDefKind::OriginLifetime {
            1int
        } else {
            0int
        }
    }
}

/// `generics_of(def).own_origin_lifetime_count()`.
pub fn own_origin_lifetime_count(tcx: &TyCtxt, def: DefId) -> (count: usize)
    requires
        def < tcx.defs@.len(),
    ensures
        count == origin_count(tcx.defs@[def as int].own_params@, tcx.defs@[def as int].own_params@.len() as int),
{
    let params = &tcx.defs[def].own_params;
    let n = params.len();
    let mut count: usize = 0;
    let mut k: usize = 0;
    while k < n
        invariant
            n == params@.len(),
            k <= n,
            count == origin_count(params@, k as int),
            count <= k,
        decreases n - k,
    {
        if params[k].kind == GenericParamDefKind::OriginLifetime {
            count = count + 1;
        }
        k = k + 1;
    }
    count
}

/// The regions of the types in `tys`, one type after the other.
pub open spec fn flat_regions(tcx: &TyCtxt, tys: Seq<TyId>) -> Seq<Region>
    decreases tys.len(),
{
    if tys.len() == 0 {
        Seq::empty()
    } else {
        flat_regions(tcx, tys.drop_last()) + tcx.regions_ty(tys.last())
    }
}

pub proof fn lemma_flat_take(tcx: &TyCtxt, tys: Seq<TyId>, i: int)
    requires
        0 <= i < tys.len(),
    ensures
        flat_regions(tcx, tys.take(i + 1)) == flat_regions(tcx, tys.take(i)) + tcx.regions_ty(tys[i]),
{
    assert(tys.take(i + 1).drop_last() =~= tys.take(i));
}

/// The regions of a prefix of `tys` are a prefix of the regions of a longer one.
pub proof fn lemma_flat_prefix(tcx: &TyCtxt, tys: Seq<TyId>, i: int, n: int)
    requires
        0 <= i <= n <= tys.len(),
    ensures
        flat_regions(tcx, tys.take(i)).len() <= flat_regions(tcx, tys.take(n)).len(),
        flat_regions(tcx, tys.take(n)).subrange(0, flat_regions(tcx, tys.take(i)).len() as int) == flat_regions(
            tcx,
            tys.take(i),
        ),
    decreases n - i,
{
    if i < n {
        lemma_flat_prefix(tcx, tys, i, n - 1);
        lemma_flat_take(tcx, tys, n - 1);
        let a = flat_regions(tcx, tys.take(i));
        let b = flat_regions(tcx, tys.take(n - 1));
        let c = flat_regions(tcx, tys.take(n));
        assert(c.subrange(0, a.len() as int) =~= b.subrange(0, a.len() as int));
    } else {
        assert(flat_regions(tcx, tys.take(n)).subrange(0, flat_regions(tcx, tys.take(n)).len() as int) =~= flat_regions(
            tcx,
            tys.take(n),
        ));
    }
}

/// The `j`-th region of input `i` sits at its offset plus `j` in the regions
/// of all inputs.
pub proof fn lemma_input_region(tcx: &TyCtxt, tys: Seq<TyId>, i: int, j: int)
    requires
        0 <= i < tys.len(),
        0 <= j < tcx.regions_ty(tys[i]).len(),
    ensures
        flat_regions(tcx, tys.take(i)).len() + j < flat_regions(tcx, tys.take(i + 1)).len(),
        flat_regions(tcx, tys.take(i + 1)).len() <= flat_regions(tcx, tys).len(),
        flat_regions(tcx, tys)[flat_regions(tcx, tys.take(i)).len() + j] == tcx.regions_ty(tys[i])[j],
{
    lemma_flat_take(tcx, tys, i);
    lemma_flat_prefix(tcx, tys, i + 1, tys.len() as int);
    assert(tys.take(tys.len() as int) =~= tys);
    let k = flat_regions(tcx, tys.take(i)).len() + j;
    assert(flat_regions(tcx, tys.take(tys.len() as int)).subrange(0, flat_regions(tcx, tys.take(i + 1)).len() as int)[k]
        == flat_regions(tcx, tys)[k]);
}

/// The regions of the inputs, one input after the other, and the offset at
/// which each input's regions start, followed by their total count.
pub fn input_regions(tcx: &TyCtxt, inputs: &Vec<TyId>) -> (regions: (Vec<Region>, Vec<usize>))
    requires
        tcx.wf(),
        forall|i: int| 0 <= i < inputs@.len() ==> tcx.valid_ty(#[trigger] inputs@[i]),
    ensures
        regions.0@ == flat_regions(tcx, inputs@),
        regions.1@.len() == inputs@.len() + 1,
        forall|i: int| 0 <= i <= inputs@.len() ==> #[trigger] regions.1@[i] == flat_regions(tcx, inputs@.take(i)).len(),
{
    let mut all: Vec<Region> = Vec::new();
    let mut offsets: Vec<usize> = Vec::new();
    offsets.push(0);
    let n = inputs.len();
    let mut i: usize = 0;
    proof {
        assert(inputs@.take(0) =~= Seq::<TyId>::empty());
    }
    while i < n
        invariant
            tcx.wf(),
            n == inputs@.len(),
            forall|k: int| 0 <= k < inputs@.len() ==> tcx.valid_ty(#[trigger] inputs@[k]),
            i <= n,
            all@ == flat_regions(tcx, inputs@.take(i as int)),
            offsets@.len() == i + 1,
            forall|k: int| 0 <= k <= i ==> #[trigger] offsets@[k] == flat_regions(tcx, inputs@.take(k)).len(),
        decreases n - i,
    {
        tcx.visit_regions_ty(inputs[i], &mut all);
        proof {
            lemma_flat_take(tcx, inputs@, i as int);
        }
        offsets.push(all.len());
        i = i + 1;
    }
    proof {
        assert(inputs@.take(n as int) =~= inputs@);
    }
    (all, offsets)
}

/// The first index of `x` in `s` at or after `k`.
pub open spec fn position_from(s: Seq<RegionSlot>, x: RegionSlot, k: int) -> Option<int>
    decreases s.len() - k,
{
    if k < 0 || k >= s.len() {
        None
    } else if s[k] == x {
        Some(k)
    } else {
        position_from(s, x, k + 1)
    }
}

pub proof fn lemma_position_from(s: Seq<RegionSlot>, x: RegionSlot, k: int)
    requires
        0 <= k,
    ensures
        position_from(s, x, k) matches Some(i) ==> k <= i < s.len() && s[i] == x,
        position_from(s, x, k) is None ==> forall|i: int| k <= i < s.len() ==> s[i] != x,
    decreases s.len() - k,
{
    if k < s.len() && s[k] != x {
        lemma_position_from(s, x, k + 1);
    }
}

/// The first index of `x` in `s`.
pub fn position(s: &Vec<RegionSlot>, x: RegionSlot) -> (found: Option<usize>)
    ensures
        found matches Some(i) ==> position_from(s@, x, 0) == Some(i as int),
        found is None ==> position_from(s@, x, 0) is None,
{
    let n = s.len();
    let mut k: usize = 0;
    while k < n
        invariant
            n == s@.len(),
            k <= n,
            position_from(s@, x, k as int) == position_from(s@, x, 0),
        decreases n - k,
    {
        if s[k] == x {
            return Some(k);
        }
        k = k + 1;
    }
    None
}

/// The distinct region slots of the non-static regions, in order of first
/// occurrence.
pub open spec fn spec_sources(tcx: &TyCtxt, owner: DefId, regions: Seq<Region>) -> Seq<RegionSlot>
    decreases regions.len(),
{
    if regions.len() == 0 {
        Seq::empty()
    } else {
        let prev = spec_sources(tcx, owner, regions.drop_last());
        let region = regions.last();
        if region == Region::Static {
            prev
        } else {
            match spec_region_slot(tcx, owner, region) {
                Some(slot) => if position_from(prev, slot, 0) is None {
                    prev.push(slot)
                } else {
                    prev
                },
                None => prev,
            }
        }
    }
}

pub proof fn lemma_sources_len(tcx: &TyCtxt, owner: DefId, regions: Seq<Region>)
    ensures
        spec_sources(tcx, owner, regions).len() <= regions.len(),
    decreases regions.len(),
{
    if regions.len() > 0 {
        lemma_sources_len(tcx, owner, regions.drop_last());
    }
}

/// The region sources of the inputs: each region slot of their non-static
/// regions, once, in order of first occurrence.
pub fn collect_sources(tcx: &TyCtxt, owner: DefId, regions: &Vec<Region>) -> (sources: Vec<RegionSlot>)
    requires
        forall|k: int| 0 <= k < regions@.len() ==> region_resolves(tcx, owner, #[trigger] regions@[k]),
    ensures
        sources@ == spec_sources(tcx, owner, regions@),
{
    let mut sources: Vec<RegionSlot> = Vec::new();
    let n = regions.len();
    let mut k: usize = 0;
    proof {
        assert(regions@.take(0) =~= Seq::<Region>::empty());
    }
    while k < n
        invariant
            n == regions@.len(),
            forall|j: int| 0 <= j < regions@.len() ==> region_resolves(tcx, owner, #[trigger] regions@[j]),
            k <= n,
            sources@ == spec_sources(tcx, owner, regions@.take(k as int)),
        decreases n - k,
    {
        let region = regions[k];
        proof {
            assert(regions@.take(k + 1).drop_last() =~= regions@.take(k as int));
        }
        if region != Region::Static {
            if let Some(source) = region_slot(tcx, owner, region) {
                if position(&sources, source).is_none() {
                    sources.push(source);
                }
            }
        }
        k = k + 1;
    }
    proof {
        assert(regions@.take(n as int) =~= regions@);
    }
    sources
}

/// The bit that the start state sets in the `j`-th slot of local `l`, if any:
/// for an argument, the index of the source its region names, or the unknown
/// bit where it names none; nothing for a static region or another local.
pub open spec fn spec_start_bit(
    tcx: &TyCtxt, owner: DefId, body: &Body, inputs: Seq<TyId>, sources: Seq<RegionSlot>, unknown: int, l: int, j: int,
) -> Option<int> {
    if l < 1 || l > body.arg_count {
        None
    } else if l > inputs.len() {
        Some(unknown)
    } else {
        let region = tcx.regions_ty(inputs[l - 1])[j];
        if region == Region::Static {
            None
        } else {
            match spec_region_slot(tcx, owner, region) {
                Some(slot) => match position_from(sources, slot, 0) {
                    Some(i) => Some(i),
                    None => Some(unknown),
                },
                None => Some(unknown),
            }
        }
    }
}

impl Layout {
    /// `s` once the first `j` slots of local `l` have their start bits.
    pub open spec fn start_slots(
        &self, tcx: &TyCtxt, owner: DefId, body: &Body, inputs: Seq<TyId>, sources: Seq<RegionSlot>,
        s: Seq<u64>, l: int, j: int,
    ) -> Seq<u64>
        decreases j,
    {
        if j <= 0 {
            s
        } else {
            let prev = self.start_slots(tcx, owner, body, inputs, sources, s, l, j - 1);
            match spec_start_bit(tcx, owner, body, inputs, sources, self.unknown_bit as int, l, j - 1) {
                Some(b) => self.spec_set_bit(prev, self.offsets@[l] + j - 1, b),
                None => prev,
            }
        }
    }

    /// The all-zero state once locals `1..=l` have their start bits.
    pub open spec fn start_upto(
        &self, tcx: &TyCtxt, owner: DefId, body: &Body, inputs: Seq<TyId>, sources: Seq<RegionSlot>, l: int,
    ) -> Seq<u64>
        decreases l,
    {
        if l <= 0 {
            Seq::new(self.sw() as nat, |i: int| 0u64)
        } else {
            let prev = self.start_upto(tcx, owner, body, inputs, sources, l - 1);
            self.start_slots(tcx, owner, body, inputs, sources, prev, l, self.slot_count(l))
        }
    }

    /// The state at the entry of the body: each argument slot holds the
    /// source its region names.
    pub open spec fn spec_start(&self, tcx: &TyCtxt, owner: DefId, body: &Body, inputs: Seq<TyId>, sources: Seq<RegionSlot>) -> Seq<u64> {
        self.start_upto(tcx, owner, body, inputs, sources, body.arg_count as int)
    }

}

/// The entry state: zero words, then for each argument local and each of its
/// slots, the bit of the source that the slot's region names.
pub fn start_state(
    tcx: &TyCtxt,
    owner: DefId,
    layout: &Layout,
    body: &Body,
    inputs: &Vec<TyId>,
    regions: &Vec<Region>,
    offsets: &Vec<usize>,
    sources: &Vec<RegionSlot>,
) -> (start: Vec<u64>)
    requires
        tcx.wf(),
        layout.wf(),
        layout.n_locals() == body.local_decls@.len(),
        body.arg_count < body.local_decls@.len(),
        layout.unknown_bit == sources@.len(),
        inputs@.len() <= body.arg_count,
        forall|i: int| 0 <= i < inputs@.len() ==> tcx.valid_ty(#[trigger] inputs@[i]),
        regions@ == flat_regions(tcx, inputs@),
        offsets@.len() == inputs@.len() + 1,
        forall|i: int| 0 <= i <= inputs@.len() ==> #[trigger] offsets@[i] == flat_regions(tcx, inputs@.take(i)).len(),
        forall|l: int| 1 <= l <= inputs@.len() ==> #[trigger] layout.slot_count(l) == tcx.regions_ty(inputs@[l - 1]).len(),
        forall|k: int| 0 <= k < regions@.len() ==> region_resolves(tcx, owner, #[trigger] regions@[k]),
    ensures
        start@ == layout.spec_start(tcx, owner, body, inputs@, sources@),
        start@.len() == layout.spec_state_words(),
{
    let sw = layout.state_words();
    let mut start = vec![0u64; sw];
    proof {
        assert(start@ =~= layout.start_upto(tcx, owner, body, inputs@, sources@, 0));
    }
    let arg_count = body.arg_count;
    let n_inputs = inputs.len();
    let mut local: usize = 1;
    while local <= arg_count
        invariant
            tcx.wf(),
            layout.wf(),
            layout.n_locals() == body.local_decls@.len(),
            arg_count == body.arg_count,
            arg_count < body.local_decls@.len(),
            layout.unknown_bit == sources@.len(),
            n_inputs == inputs@.len(),
            n_inputs <= arg_count,
            regions@ == flat_regions(tcx, inputs@),
            offsets@.len() == inputs@.len() + 1,
            forall|i: int| 0 <= i <= inputs@.len() ==> #[trigger] offsets@[i] == flat_regions(tcx, inputs@.take(i)).len(),
            forall|l: int| 1 <= l <= inputs@.len() ==> #[trigger] layout.slot_count(l) == tcx.regions_ty(inputs@[l - 1]).len(),
            forall|k: int| 0 <= k < regions@.len() ==> region_resolves(tcx, owner, #[trigger] regions@[k]),
            1 <= local <= arg_count + 1,
            start@.len() == layout.spec_state_words(),
            start@ == layout.start_upto(tcx, owner, body, inputs@, sources@, local - 1),
        decreases arg_count + 1 - local,
    {
        let slots = layout.local_slots(local);
        let ghost before = start@;
        let mut slot = slots.start;
        while slot < slots.end
            invariant
                layout.wf(),
                layout.n_locals() == body.local_decls@.len(),
                1 <= local < layout.n_locals(),
                local <= body.arg_count,
                layout.unknown_bit == sources@.len(),
                n_inputs == inputs@.len(),
                regions@ == flat_regions(tcx, inputs@),
                offsets@.len() == inputs@.len() + 1,
                forall|i: int| 0 <= i <= inputs@.len() ==> #[trigger] offsets@[i] == flat_regions(tcx, inputs@.take(i)).len(),
                forall|l: int| 1 <= l <= inputs@.len() ==> #[trigger] layout.slot_count(l) == tcx.regions_ty(inputs@[l - 1]).len(),
                forall|k: int| 0 <= k < regions@.len() ==> region_resolves(tcx, owner, #[trigger] regions@[k]),
                slots.start == layout.offsets@[local as int],
                slots.end == layout.offsets@[local + 1],
                slots.start <= slot <= slots.end,
                start@.len() == layout.spec_state_words(),
                start@ == layout.start_slots(tcx, owner, body, inputs@, sources@, before, local as int, slot - slots.start),
            decreases slots.end - slot,
        {
            let j = slot - slots.start;
            proof {
                assert(layout.offsets@[local + 1] <= layout.offsets@[layout.offsets@.len() - 1]);
            }
            if local > n_inputs {
                layout.set_bit(&mut start, slot, layout.unknown_bit);
            } else {
                proof {
                    assert(layout.slot_count(local as int) == slots.end - slots.start);
                    lemma_input_region(tcx, inputs@, local - 1, j as int);
                    assert(inputs@.take(local as int) == inputs@.take(local - 1 + 1));
                    assert(offsets@[local - 1] == flat_regions(tcx, inputs@.take(local - 1)).len());
                    assert(offsets@[local as int] == flat_regions(tcx, inputs@.take(local as int)).len());
                }
                let region = regions[offsets[local - 1] + j];
                if region != Region::Static {
                    let bit = match region_slot(tcx, owner, region) {
                        Some(source) => match position(sources, source) {
                            Some(i) => {
                                proof {
                                    lemma_position_from(sources@, source, 0);
                                }
                                i
                            },
                            None => layout.unknown_bit,
                        },
                        None => layout.unknown_bit,
                    };
                    layout.set_bit(&mut start, slot, bit);
                }
            }
            slot = slot + 1;
        }
        local = local + 1;
    }
    start
}

/// Bit `bit` of the set of bits that starts at word `base`.
pub open spec fn bit_set(words: Seq<u64>, base: int, bit: int) -> bool {
    words[base + bit / 64] & (1u64 << ((bit % 64) as u64)) != 0u64
}

/// A requirement from each of the first `n` sources whose bit is set in the
/// set at `base`, to `target`, in the order of the sources.
pub open spec fn requirements_for(sources: Seq<RegionSlot>, words: Seq<u64>, base: int, target: OriginSlot, n: int) -> Seq<
    OriginRequirement,
>
    decreases n,
{
    if n <= 0 {
        Seq::empty()
    } else {
        requirements_for(sources, words, base, target, n - 1) + if bit_set(words, base, n - 1) {
            seq![OriginRequirement { source: sources[n - 1], target }]
        } else {
            Seq::empty()
        }
    }
}

/// The requirements that the first `n` output regions give, from what the
/// returns hold (`w` words per slot); `None` where an output origin may hold
/// a value of unknown source.
pub open spec fn spec_extract(
    tcx: &TyCtxt, owner: DefId, outputs: Seq<Region>, returned: Seq<u64>, w: int, unknown: int,
    sources: Seq<RegionSlot>, n: int,
) -> Option<Seq<OriginRequirement>>
    decreases n,
{
    if n <= 0 {
        Some(Seq::empty())
    } else {
        match spec_extract(tcx, owner, outputs, returned, w, unknown, sources, n - 1) {
            None => None,
            Some(prev) => match spec_origin_slot(tcx, owner, outputs[n - 1]) {
                None => Some(prev),
                Some(target) => if bit_set(returned, (n - 1) * w, unknown) {
                    None
                } else {
                    Some(prev + requirements_for(sources, returned, (n - 1) * w, target, sources.len() as int))
                },
            },
        }
    }
}

/// Once an output origin may hold a value of unknown source, so may one of
/// every longer prefix of the outputs.
pub proof fn lemma_extract_none(
    tcx: &TyCtxt, owner: DefId, outputs: Seq<Region>, returned: Seq<u64>, w: int, unknown: int,
    sources: Seq<RegionSlot>, k: int, n: int,
)
    requires
        k <= n,
        spec_extract(tcx, owner, outputs, returned, w, unknown, sources, k) is None,
    ensures
        spec_extract(tcx, owner, outputs, returned, w, unknown, sources, n) is None,
    decreases n - k,
{
    if k < n {
        lemma_extract_none(tcx, owner, outputs, returned, w, unknown, sources, k, n - 1);
    }
}

/// The requirements of the output origins, from what the returns hold; `None`
/// where an output origin may hold a value of unknown source.
pub fn extract_requirements(
    tcx: &TyCtxt,
    owner: DefId,
    outputs: &Vec<Region>,
    returned: &Vec<u64>,
    w: usize,
    unknown: usize,
    sources: &Vec<RegionSlot>,
) -> (requirements: Option<Vec<OriginRequirement>>)
    requires
        returned@.len() == outputs@.len() * w,
        w == unknown / 64 + 1,
        sources@.len() == unknown,
        forall|k: int| 0 <= k < outputs@.len() ==> region_resolves(tcx, owner, #[trigger] outputs@[k]),
    ensures
        requirements matches Some(r) ==> spec_extract(tcx, owner, outputs@, returned@, w as int, unknown as int, sources@, outputs@.len() as int) == Some(r@),
        requirements is None ==> spec_extract(tcx, owner, outputs@, returned@, w as int, unknown as int, sources@, outputs@.len() as int) is None,
{
    let mut requirements: Vec<OriginRequirement> = Vec::new();
    let total = returned.len();
    let n = outputs.len();
    let mut output: usize = 0;
    while output < n
        invariant
            n == outputs@.len(),
            returned@.len() == outputs@.len() * w,
            total == returned@.len(),
            w == unknown / 64 + 1,
            sources@.len() == unknown,
            forall|k: int| 0 <= k < outputs@.len() ==> region_resolves(tcx, owner, #[trigger] outputs@[k]),
            output <= n,
            spec_extract(tcx, owner, outputs@, returned@, w as int, unknown as int, sources@, output as int) == Some(requirements@),
        decreases n - output,
    {
        proof {
            lemma_block_range(output as int, n as int, w as int);
        }
        if let Some(target) = origin_slot(tcx, owner, outputs[output]) {
            let base = output * w;
            if returned[base + unknown / 64] & (1u64 << ((unknown % 64) as u64)) != 0 {
                proof {
                    lemma_extract_none(
                        tcx, owner, outputs@, returned@, w as int, unknown as int, sources@, output + 1, n as int,
                    );
                }
                return None;
            }
            let ghost prev = requirements@;
            let m = sources.len();
            let mut source: usize = 0;
            while source < m
                invariant
                    m == sources@.len(),
                    m == unknown,
                    w == unknown / 64 + 1,
                    base + w <= returned@.len(),
                    returned@.len() == total,
                    source <= m,
                    requirements@ == prev + requirements_for(sources@, returned@, base as int, target, source as int),
                decreases m - source,
            {
                if returned[base + source / 64] & (1u64 << ((source % 64) as u64)) != 0 {
                    requirements.push(OriginRequirement::new(sources[source], target));
                }
                proof {
                    let step = if bit_set(returned@, base as int, source as int) {
                        seq![OriginRequirement { source: sources@[source as int], target }]
                    } else {
                        Seq::empty()
                    };
                    assert(requirements@ =~= prev + requirements_for(sources@, returned@, base as int, target, source as int)
                        + step);
                }
                source = source + 1;
            }
        }
        output = output + 1;
    }
    Some(requirements)
}

/// The region sources of `owner`'s inputs.
pub open spec fn infer_sources(tcx: &TyCtxt, owner: DefId, inputs: Seq<TyId>) -> Seq<RegionSlot> {
    spec_sources(tcx, owner, flat_regions(tcx, inputs))
}

/// The layout that the analysis gives the body for `n` sources.
pub open spec fn layout_for(layout: Layout, tcx: &TyCtxt, body: &Body, n: int) -> bool {
    &&& layout.wf()
    &&& layout.n_locals() == body.local_decls@.len()
    &&& forall|i: int| 0 <= i < layout.offsets@.len() ==> #[trigger] layout.offsets@[i] == slots_prefix(tcx, body.local_decls@, i)
    &&& layout.unknown_bit == n
    &&& layout.words_per_set == n / 64 + 1
}

/// The number of origin lifetime parameters of `def` itself.
pub open spec fn own_origin_count(tcx: &TyCtxt, def: DefId) -> int {
    origin_count(tcx.defs@[def as int].own_params@, tcx.defs@[def as int].own_params@.len() as int)
}

/// What the analysis asks of a function with origin lifetimes: its signature
/// (`inputs`, `output`) and MIR body agree, every region of the signature
/// resolves, and the analysis state fits in memory.
pub open spec fn infer_ok(tcx: &TyCtxt, owner: DefId, body: &Body, inputs: Seq<TyId>, output: TyId) -> bool {
    let n = infer_sources(tcx, owner, inputs).len() as int;
    let nb = body.basic_blocks@.len() as int;
    let total = slots_prefix(tcx, body.local_decls@, body.local_decls@.len() as int);
    &&& forall|i: int| 0 <= i < inputs.len() ==> tcx.valid_ty(#[trigger] inputs[i])
    &&& tcx.valid_ty(output)
    &&& inputs.len() <= body.arg_count
    &&& body_ok(tcx, body, words_for(n))
    &&& nb > 0
    &&& total * words_for(n) <= usize::MAX
    &&& nb * (total * words_for(n)) <= usize::MAX
    &&& forall|l: int| 1 <= l <= inputs.len() ==> #[trigger] tcx.regions_ty(body.local_decls@[l]).len() == tcx.regions_ty(
        inputs[l - 1],
    ).len()
    &&& tcx.regions_ty(output).len() == tcx.regions_ty(body.local_decls@[0]).len()
    &&& forall|k: int| 0 <= k < flat_regions(tcx, inputs).len() ==> region_resolves(
        tcx,
        owner,
        #[trigger] flat_regions(tcx, inputs)[k],
    )
    &&& forall|k: int| 0 <= k < tcx.regions_ty(output).len() ==> region_resolves(
        tcx,
        owner,
        #[trigger] tcx.regions_ty(output)[k],
    )
}

/// What the analysis gives with `layout`: the requirements of the least
/// solution's returns; or the error of a reached block the analysis cannot
/// describe, the first such block that the worklist takes; or, where an
/// output origin may hold a value of unknown source,
/// that error at the body.
pub open spec fn infer_outcome(
    layout: Layout, tcx: &TyCtxt, owner: DefId, body: &Body, inputs: Seq<TyId>, output: TyId,
    analysis: OriginContractAnalysis,
) -> bool {
    let sources = infer_sources(tcx, owner, inputs);
    let start = layout.spec_start(tcx, owner, body, inputs, sources);
    let outputs = tcx.regions_ty(output);
    match analysis {
        OriginContractAnalysis::Contract(c) => exists|ret: Seq<u64>| #[trigger]
            layout.least_solution(tcx, body, start, ret) && spec_extract(
                tcx, owner, outputs, ret, layout.w(), layout.unknown_bit as int, sources, outputs.len() as int,
            ) == Some(c.requirements@),
        OriginContractAnalysis::Unrepresentable(e) => {
            ||| layout.no_solution(tcx, body, start) && exists|b: int|
                0 <= b < body.basic_blocks@.len() && #[trigger] spec_bad(tcx, body, b) && walk_reaches(tcx, body, b) && e == (OriginContractError {
                    span: body.basic_blocks@[b].terminator.span,
                    kind: bad_kind(body, b),
                }) && exists|n: nat| #[trigger] layout.first_bad_pop(tcx, body, start, n) && e == (OriginContractError {
                    span: body.basic_blocks@[layout.spec_wl_run(tcx, body, start, n).3[0] as int].terminator.span,
                    kind: bad_kind(body, layout.spec_wl_run(tcx, body, start, n).3[0] as int),
                })
            ||| exists|ret: Seq<u64>| #[trigger]
                layout.least_solution(tcx, body, start, ret) && spec_extract(
                    tcx, owner, outputs, ret, layout.w(), layout.unknown_bit as int, sources, outputs.len() as int,
                ) is None && e == (OriginContractError {
                    span: body.span,
                    kind: OriginContractErrorKind::UnrepresentableValue,
                })
        },
    }
}

/// Infers the origin contract of `def_id` from its signature (`inputs`,
/// `output`) and MIR body. A function without origin lifetimes has the empty
/// contract; otherwise the analysis runs from the input region sources and
/// the contract holds, for each output origin, a requirement from each source
/// that its returned value may hold.
pub fn infer_inner(tcx: &TyCtxt, def_id: DefId, body: &Body, inputs: &Vec<TyId>, output: TyId) -> (analysis: OriginContractAnalysis)
    requires
        tcx.wf(),
        def_id < tcx.defs@.len(),
        own_origin_count(tcx, def_id) > 0 ==> infer_ok(tcx, def_id, body, inputs@, output),
    ensures
        own_origin_count(tcx, def_id) == 0 ==> (analysis matches OriginContractAnalysis::Contract(c) && c.requirements@.len() == 0),
        own_origin_count(tcx, def_id) > 0 ==> exists|layout: Layout| #[trigger]
            layout_for(layout, tcx, body, infer_sources(tcx, def_id, inputs@).len() as int) && infer_outcome(
                layout, tcx, def_id, body, inputs@, output, analysis,
            ),
{
    if own_origin_lifetime_count(tcx, def_id) == 0 {
        return OriginContractAnalysis::Contract(OriginContract { requirements: Vec::new() });
    }
    let (regions, offsets) = input_regions(tcx, inputs);
    let sources = collect_sources(tcx, def_id, &regions);
    proof {
        lemma_sources_len(tcx, def_id, regions@);
    }
    let layout = Layout::new(tcx, body, sources.len());
    proof {
        assert forall|l: int| 1 <= l <= inputs@.len() implies #[trigger] layout.slot_count(l) == tcx.regions_ty(inputs@[l - 1]).len() by {
            assert(tcx.regions_ty(body.local_decls@[l]).len() == tcx.regions_ty(inputs@[l - 1]).len());
            assert(layout.offsets@[l + 1] == slots_prefix(tcx, body.local_decls@, l + 1));
            assert(layout.offsets@[l] == slots_prefix(tcx, body.local_decls@, l));
        }
        assert(layout.offsets@[layout.offsets@.len() - 1] == slots_prefix(tcx, body.local_decls@, body.local_decls@.len() as int));
    }
    let start = start_state(tcx, def_id, &layout, body, inputs, &regions, &offsets, &sources);
    let ghost start_spec = layout.spec_start(tcx, def_id, body, inputs@, sources@);
    let returned = match run_dataflow(tcx, &layout, body, &start) {
        Ok(returned) => returned,
        Err(e) => {
            proof {
                assert(layout_for(layout, tcx, body, sources@.len() as int));
                assert(infer_outcome(layout, tcx, def_id, body, inputs@, output, OriginContractAnalysis::Unrepresentable(e)));
            }
            return OriginContractAnalysis::Unrepresentable(e);
        },
    };
    let ghost ret = returned@;
    let outputs = crate::origin_contract::region_occurrences(tcx, output);
    proof {
        layout.lemma_local_range(0);
        assert(layout.offsets@[1] == slots_prefix(tcx, body.local_decls@, 1));
        assert(layout.offsets@[0] == 0);
        assert(returned@.len() == outputs@.len() * layout.words_per_set) by (nonlinear_arith)
            requires returned@.len() == layout.offsets@[1] * layout.words_per_set,
                layout.offsets@[1] == outputs@.len();
    }
    match extract_requirements(tcx, def_id, &outputs, &returned, layout.words_per_set, layout.unknown_bit, &sources) {
        Some(requirements) => {
            let analysis = OriginContractAnalysis::Contract(OriginContract { requirements });
            proof {
                assert(layout_for(layout, tcx, body, sources@.len() as int));
                assert(infer_outcome(layout, tcx, def_id, body, inputs@, output, analysis));
            }
            analysis
        },
        None => {
            let analysis = OriginContractAnalysis::Unrepresentable(
                OriginContractError { span: body.span, kind: OriginContractErrorKind::UnrepresentableValue },
            );
            proof {
                assert(layout_for(layout, tcx, body, sources@.len() as int));
                assert(infer_outcome(layout, tcx, def_id, body, inputs@, output, analysis));
            }
            analysis
        },
    }
}

} // verus!
