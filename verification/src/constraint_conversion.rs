//! Converting the region constraints that type checking produces into the
//! outlives constraints of the borrow checker; and which regions must
//! outlive `'static`, so that a type outliving them keeps the components of
//! its callable interface.
use smallvec::SmallVec;
use vstd::prelude::*;

use crate::ty::{GenericArg, Region, TyId};

verus! {

/// A region variable of the borrow checker.
pub type RegionVid = u32;

/// Region variables, kept in a `SmallVec` of eight inline slots.
#[verifier::external_body]
pub struct RegionVids {
    inner: SmallVec<[RegionVid; 8]>,
}

/// The region variables that a `RegionVids` holds, in order.
pub uninterp spec fn vids_of(v: RegionVids) -> Seq<RegionVid>;

/// The most region variables that the library keeps in one `SmallVec`.
/// `SmallVec::push` panics with "capacity overflow" only when the doubled
/// capacity overflows `usize` or its bytes exceed `isize::MAX`; for items of
/// at most 128 bytes that takes more than 2^55 items on a 64-bit target and
/// more than 2^24 on a 32-bit one. This bound, 2^23, lies below both, so no
/// push within it panics; it is a limit chosen by the library, far above any
/// body the compiler checks.
pub const MAX_REGION_VIDS: usize = 0x80_0000;

impl RegionVids {
    /// `SmallVec::new`: holds nothing.
    #[verifier::external_body]
    fn smallvec_new() -> (v: Self)
        ensures
            vids_of(v) == Seq::<RegionVid>::empty(),
    {
        RegionVids { inner: SmallVec::new() }
    }

    /// `SmallVec::push`: appends `r`. It panics when the grown capacity
    /// overflows, which the bound on the length rules out; a failed
    /// allocation aborts the process, which no contract here can exclude.
    #[verifier::external_body]
    fn smallvec_push(&mut self, r: RegionVid)
        requires
            vids_of(*old(self)).len() < MAX_REGION_VIDS,
        ensures
            vids_of(*final(self)) == vids_of(*old(self)).push(r),
    {
        self.inner.push(r);
    }

    /// `SmallVec::len`.
    #[verifier::external_body]
    fn smallvec_len(&self) -> (n: usize)
        ensures
            n == vids_of(*self).len(),
    {
        self.inner.len()
    }

    /// `SmallVec`'s indexing: the region variable at `i`.
    #[verifier::external_body]
    fn smallvec_index(&self, i: usize) -> (r: RegionVid)
        requires
            i < vids_of(*self).len(),
        ensures
            r == vids_of(*self)[i as int],
    {
        self.inner[i]
    }
}

/// Edges `(sup, sub)` between region variables, kept in a `SmallVec` of eight
/// inline slots.
#[verifier::external_body]
pub struct RegionEdges {
    inner: SmallVec<[(RegionVid, RegionVid); 8]>,
}

/// The edges that a `RegionEdges` holds, in order.
pub uninterp spec fn edges_of(v: RegionEdges) -> Seq<(RegionVid, RegionVid)>;

impl RegionEdges {
    /// `SmallVec::new`: holds no edge.
    #[verifier::external_body]
    fn smallvec_new() -> (v: Self)
        ensures
            edges_of(v) == Seq::<(RegionVid, RegionVid)>::empty(),
    {
        RegionEdges { inner: SmallVec::new() }
    }

    /// `SmallVec::push`: appends `e`. It panics when the grown capacity
    /// overflows, which the bound on the length rules out; a failed
    /// allocation aborts the process, which no contract here can exclude.
    #[verifier::external_body]
    fn smallvec_push(&mut self, e: (RegionVid, RegionVid))
        requires
            edges_of(*old(self)).len() < MAX_REGION_VIDS,
        ensures
            edges_of(*final(self)) == edges_of(*old(self)).push(e),
    {
        self.inner.push(e);
    }

    /// `SmallVec::len`.
    #[verifier::external_body]
    fn smallvec_len(&self) -> (n: usize)
        ensures
            n == edges_of(*self).len(),
    {
        self.inner.len()
    }

    /// `SmallVec`'s indexing: the edge at `i`.
    #[verifier::external_body]
    fn smallvec_index(&self, i: usize) -> (e: (RegionVid, RegionVid))
        requires
            i < edges_of(*self).len(),
        ensures
            e == edges_of(*self)[i as int],
    {
        self.inner[i]
    }
}

/// The regions known to outlive `'static`, each once.
pub struct StaticOutlivesRegions {
    pub regions: RegionVids,
}

impl StaticOutlivesRegions {
    pub open spec fn view(&self) -> Seq<RegionVid> {
        vids_of(self.regions)
    }

    pub fn contains(&self, region: RegionVid) -> (found: bool)
        ensures
            found == self.view().contains(region),
    {
        let n = self.regions.smallvec_len();
        let mut i: usize = 0;
        while i < n
            invariant
                n == self.view().len(),
                i <= n,
                forall|j: int| 0 <= j < i ==> self.view()[j] != region,
            decreases n - i,
        {
            if self.regions.smallvec_index(i) == region {
                return true;
            }
            i = i + 1;
        }
        false
    }

    /// Adds `region` unless it is there already.
    pub fn insert(&mut self, region: RegionVid)
        requires
            old(self).view().len() < MAX_REGION_VIDS,
        ensures
            final(self).view() == if old(self).view().contains(region) {
                old(self).view()
            } else {
                old(self).view().push(region)
            },
    {
        if !self.contains(region) {
            self.regions.smallvec_push(region);
        }
    }

    /// The regions, in the order they were found.
    pub fn to_vec(&self) -> (v: Vec<RegionVid>)
        ensures
            v@ == self.view(),
    {
        let n = self.regions.smallvec_len();
        let mut v: Vec<RegionVid> = Vec::new();
        let mut i: usize = 0;
        while i < n
            invariant
                n == self.view().len(),
                i <= n,
                v@ == self.view().subrange(0, i as int),
            decreases n - i,
        {
            v.push(self.regions.smallvec_index(i));
            proof {
                assert(v@ =~= self.view().subrange(0, i + 1));
            }
            i = i + 1;
        }
        proof {
            assert(v@ =~= self.view());
        }
        v
    }
}

/// The largest index of a region variable.
pub const MAX_REGION_VID: u32 = 0xFFFF_FF00;

/// Where a constraint holds: everywhere in the body, or at one location.
#[derive(Clone, Copy, PartialEq, Eq, Structural, Debug)]
pub enum Locations {
    All(u64),
    Single(u64),
}

/// Why a constraint holds; the boring ones give way to a more specific one.
#[derive(Clone, Copy, PartialEq, Eq, Structural, Debug)]
pub enum ConstraintCategory {
    Boring,
    BoringNoLocation,
    Specific(u32),
}

/// `sup: sub`.
#[derive(Clone, Copy, PartialEq, Eq, Structural, Debug)]
pub struct OutlivesConstraint {
    pub locations: Locations,
    pub category: ConstraintCategory,
    pub span: u64,
    pub sub: RegionVid,
    pub sup: RegionVid,
    pub from_closure: bool,
}

/// A test that a generic kind outlives a region, checked after inference;
/// the kind and the bound are those of the type-outlives machinery.
#[derive(Clone, Copy, PartialEq, Eq, Structural, Debug)]
pub struct TypeTest {
    pub generic_kind: u64,
    pub lower_bound: RegionVid,
    pub span: u64,
    pub verify_bound: u64,
}

/// The universal regions of the body being checked.
pub struct UniversalRegions {
    pub fr_static: RegionVid,
    /// `implicit_region_bound()`.
    pub implicit_region_bound: RegionVid,
    /// The region variable of each universal region.
    pub indices: Vec<(Region, RegionVid)>,
    /// `universal_regions_iter()`.
    pub universal: Vec<RegionVid>,
}

/// What is known of how the universal regions outlive each other.
pub struct UniversalRegionRelations {
    pub universal_regions: UniversalRegions,
    /// The pairs `(a, b)` with `a: b`, closed under transitivity.
    pub outlives: Vec<(RegionVid, RegionVid)>,
}

/// The region constraints of a body, as the type checker builds them.
pub struct MirTypeckRegionConstraints {
    /// The placeholders met so far, and the region variable of each.
    pub placeholder_indices: Vec<u32>,
    pub placeholder_index_to_region: Vec<RegionVid>,
    /// The next fresh region variable.
    pub next_region_var: RegionVid,
    pub outlives_constraints: Vec<OutlivesConstraint>,
    pub type_tests: Vec<TypeTest>,
}

/// The first index of `x` in `s` at or after `k`.
pub open spec fn first_index(s: Seq<u32>, x: u32, k: int) -> Option<int>
    decreases s.len() - k,
{
    if k < 0 || k >= s.len() {
        None
    } else if s[k] == x {
        Some(k)
    } else {
        first_index(s, x, k + 1)
    }
}

/// The region variable of the first entry of `indices` from `k` on for `r`.
pub open spec fn lookup_region(indices: Seq<(Region, RegionVid)>, r: Region, k: int) -> Option<RegionVid>
    decreases indices.len() - k,
{
    if k < 0 || k >= indices.len() {
        None
    } else if indices[k].0 == r {
        Some(indices[k].1)
    } else {
        lookup_region(indices, r, k + 1)
    }
}

impl UniversalRegions {
    /// The region variable of `r`: itself for a variable, `'static` for an
    /// error, else its entry.
    pub open spec fn spec_to_region_vid(&self, r: Region) -> Option<RegionVid> {
        match r {
            Region::Var(v) => Some(v),
            Region::Error => Some(self.fr_static),
            _ => lookup_region(self.indices@, r, 0),
        }
    }

    pub fn to_region_vid(&self, r: Region) -> (vid: RegionVid)
        requires
            self.spec_to_region_vid(r) is Some,
        ensures
            Some(vid) == self.spec_to_region_vid(r),
    {
        match r {
            Region::Var(v) => v,
            Region::Error => self.fr_static,
            _ => {
                let n = self.indices.len();
                let mut k: usize = 0;
                while k < n
                    invariant
                        n == self.indices@.len(),
                        k <= n,
                        lookup_region(self.indices@, r, k as int) == lookup_region(self.indices@, r, 0),
                        lookup_region(self.indices@, r, 0) is Some,
                        self.spec_to_region_vid(r) == lookup_region(self.indices@, r, 0),
                    decreases n - k,
                {
                    let entry = self.indices[k];
                    if entry.0 == r {
                        proof {
                            assert(self.indices@[k as int] == entry);
                            assert(lookup_region(self.indices@, r, k as int) == Some(entry.1));
                        }
                        return entry.1;
                    }
                    k = k + 1;
                }
                0
            },
        }
    }
}

impl UniversalRegionRelations {
    pub open spec fn spec_outlives(&self, a: RegionVid, b: RegionVid) -> bool {
        self.outlives@.contains((a, b))
    }

    /// `a: b` is known.
    pub fn outlives(&self, a: RegionVid, b: RegionVid) -> (known: bool)
        ensures
            known == self.spec_outlives(a, b),
    {
        let n = self.outlives.len();
        let mut k: usize = 0;
        while k < n
            invariant
                n == self.outlives@.len(),
                k <= n,
                forall|j: int| 0 <= j < k ==> self.outlives@[j] != (a, b),
            decreases n - k,
        {
            if self.outlives[k].0 == a && self.outlives[k].1 == b {
                assert(self.outlives@[k as int] == (a, b));
                return true;
            }
            k = k + 1;
        }
        false
    }
}

/// The placeholder state of the constraints: the placeholders met, their
/// region variables, and the next fresh variable.
pub type PlaceholderView = (Seq<u32>, Seq<RegionVid>, int);

impl MirTypeckRegionConstraints {
    pub open spec fn placeholders(&self) -> PlaceholderView {
        (self.placeholder_indices@, self.placeholder_index_to_region@, self.next_region_var as int)
    }

    pub open spec fn wf(&self) -> bool {
        self.placeholder_indices@.len() == self.placeholder_index_to_region@.len()
    }
}

/// The region variable of placeholder `p`, and the state after: the one it
/// was given when first met, or a fresh one.
pub open spec fn spec_placeholder_region(c: PlaceholderView, p: u32) -> (RegionVid, PlaceholderView) {
    match first_index(c.0, p, 0) {
        Some(i) => (c.1[i], c),
        None => (c.2 as RegionVid, (c.0.push(p), c.1.push(c.2 as RegionVid), c.2 + 1)),
    }
}

/// The region variable of `r`, and the placeholder state after.
pub open spec fn spec_to_vid(ur: &UniversalRegions, c: PlaceholderView, r: Region) -> (RegionVid, PlaceholderView) {
    match r {
        Region::Placeholder(p) => spec_placeholder_region(c, p),
        _ => (ur.spec_to_region_vid(r)->Some_0, c),
    }
}

/// `r` has a region variable: it is a placeholder, a variable, an error or a
/// universal region.
pub open spec fn resolvable(ur: &UniversalRegions, r: Region) -> bool {
    r is Placeholder || ur.spec_to_region_vid(r) is Some
}

impl MirTypeckRegionConstraints {
    /// The region variable of placeholder `p`: the one it was given when
    /// first met, or a fresh one.
    pub fn placeholder_region(&mut self, p: u32) -> (vid: RegionVid)
        requires
            old(self).wf(),
            old(self).next_region_var < MAX_REGION_VID,
        ensures
            final(self).wf(),
            (vid, final(self).placeholders()) == spec_placeholder_region(old(self).placeholders(), p),
            final(self).outlives_constraints == old(self).outlives_constraints,
            final(self).type_tests == old(self).type_tests,
            final(self).next_region_var <= old(self).next_region_var + 1,
    {
        let n = self.placeholder_indices.len();
        let mut k: usize = 0;
        while k < n
            invariant
                n == self.placeholder_indices@.len(),
                self.wf(),
                k <= n,
                first_index(self.placeholder_indices@, p, k as int) == first_index(self.placeholder_indices@, p, 0),
            decreases n - k,
        {
            if self.placeholder_indices[k] == p {
                return self.placeholder_index_to_region[k];
            }
            k = k + 1;
        }
        let vid = self.next_region_var;
        self.placeholder_indices.push(p);
        self.placeholder_index_to_region.push(vid);
        self.next_region_var = vid + 1;
        vid
    }
}

/// A type that must outlive a region: the work that the type-outlives
/// machinery does with it, with whether the components of the type's
/// callable interface are kept because the region must outlive `'static`.
#[derive(Clone, Copy, PartialEq, Eq, Structural, Debug)]
pub struct TypeOutlivesRequest {
    pub ty: TyId,
    pub region: Region,
    pub category: ConstraintCategory,
    pub preserve_static_identity: bool,
    pub implicit_region_bound: RegionVid,
    pub span: u64,
}

/// Converts region constraints into the outlives constraints of a body.
pub struct ConstraintConversion {
    pub universal_region_relations: UniversalRegionRelations,
    pub locations: Locations,
    pub span: u64,
    pub category: ConstraintCategory,
    pub from_closure: bool,
    /// Whether constraints implied by higher-ranked assumptions are dropped.
    pub higher_ranked_assumptions: bool,
    pub constraints: MirTypeckRegionConstraints,
}

/// Whether a constraint at `edge` applies where `required` is asked for.
pub open spec fn applies(required: Locations, edge: Locations) -> bool {
    match (required, edge) {
        (_, Locations::All(_)) => true,
        (Locations::Single(r), Locations::Single(e)) => r == e,
        (Locations::All(_), Locations::Single(_)) => false,
    }
}

/// Where a constraint applies: one recorded at every location applies
/// everywhere; one recorded at a single location applies where that same
/// location is required, and nowhere else.
pub proof fn lemma_applies(required: Locations, edge: Locations)
    ensures
        edge is All ==> applies(required, edge),
        forall|r: u64, e: u64| #[trigger] applies(Locations::Single(r), Locations::Single(e)) <==> r == e,
        (required is All && edge is Single) ==> !applies(required, edge),
        applies(required, edge) <==> (edge is All || (required is Single && edge is Single && required->Single_0 == edge->Single_0)),
{
}

pub fn locations_apply(required: Locations, edge: Locations) -> (a: bool)
    ensures
        a == applies(required, edge),
        a <==> (edge is All || (required is Single && edge is Single && required->Single_0 == edge->Single_0)),
{
    match (required, edge) {
        (_, Locations::All(_)) => true,
        (Locations::Single(r), Locations::Single(e)) => r == e,
        (Locations::All(_), Locations::Single(_)) => false,
    }
}

impl ConstraintConversion {
    pub open spec fn wf(&self) -> bool {
        self.constraints.wf()
    }

    pub open spec fn ur(&self) -> &UniversalRegions {
        &self.universal_region_relations.universal_regions
    }

    /// Everything of `after` but its constraints is as in `self`.
    pub open spec fn same_setting(&self, after: &ConstraintConversion) -> bool {
        &&& after.universal_region_relations == self.universal_region_relations
        &&& after.locations == self.locations
        &&& after.span == self.span
        &&& after.category == self.category
        &&& after.from_closure == self.from_closure
        &&& after.higher_ranked_assumptions == self.higher_ranked_assumptions
    }

    pub fn new(
        universal_region_relations: UniversalRegionRelations,
        locations: Locations,
        span: u64,
        category: ConstraintCategory,
        higher_ranked_assumptions: bool,
        constraints: MirTypeckRegionConstraints,
    ) -> (cx: Self)
        ensures
            cx.universal_region_relations == universal_region_relations,
            cx.locations == locations,
            cx.span == span,
            cx.category == category,
            !cx.from_closure,
            cx.higher_ranked_assumptions == higher_ranked_assumptions,
            cx.constraints == constraints,
    {
        ConstraintConversion {
            universal_region_relations,
            locations,
            span,
            category,
            from_closure: false,
            higher_ranked_assumptions,
            constraints,
        }
    }

    /// The region variable of `r`: a placeholder's own variable, else the
    /// universal region's.
    pub fn to_region_vid(&mut self, r: Region) -> (vid: RegionVid)
        requires
            old(self).wf(),
            resolvable(old(self).ur(), r),
            old(self).constraints.next_region_var < MAX_REGION_VID,
        ensures
            final(self).wf(),
            old(self).same_setting(&*final(self)),
            (vid, final(self).constraints.placeholders()) == spec_to_vid(old(self).ur(), old(self).constraints.placeholders(), r),
            final(self).constraints.outlives_constraints == old(self).constraints.outlives_constraints,
            final(self).constraints.type_tests == old(self).constraints.type_tests,
            final(self).constraints.next_region_var <= old(self).constraints.next_region_var + 1,
    {
        match r {
            Region::Placeholder(p) => self.constraints.placeholder_region(p),
            _ => self.universal_region_relations.universal_regions.to_region_vid(r),
        }
    }

    /// The constraint `sup: sub` that `add_outlives` records.
    pub open spec fn spec_outlives_constraint(&self, sup: RegionVid, sub: RegionVid, category: ConstraintCategory) -> OutlivesConstraint {
        OutlivesConstraint {
            locations: self.locations,
            category: match self.category {
                ConstraintCategory::Boring | ConstraintCategory::BoringNoLocation => category,
                _ => self.category,
            },
            span: self.span,
            sub,
            sup,
            from_closure: self.from_closure,
        }
    }

    /// Records `sup: sub`, in the conversion's category unless that is a
    /// boring one.
    pub fn add_outlives(&mut self, sup: RegionVid, sub: RegionVid, category: ConstraintCategory)
        requires
            old(self).wf(),
        ensures
            final(self).wf(),
            old(self).same_setting(&*final(self)),
            final(self).constraints.placeholders() == old(self).constraints.placeholders(),
            final(self).constraints.type_tests == old(self).constraints.type_tests,
            final(self).constraints.outlives_constraints@ == old(self).constraints.outlives_constraints@.push(
                old(self).spec_outlives_constraint(sup, sub, category),
            ),
    {
        let category = match self.category {
            ConstraintCategory::Boring | ConstraintCategory::BoringNoLocation => category,
            _ => self.category,
        };
        let constraint = OutlivesConstraint {
            locations: self.locations,
            category,
            span: self.span,
            sub,
            sup,
            from_closure: self.from_closure,
        };
        self.constraints.outlives_constraints.push(constraint);
    }

    /// Records that `b` outlives `a`: the sub-region constraint `a <= b`
    /// that the type-outlives machinery asks for.
    pub fn push_sub_region_constraint(&mut self, a: Region, b: Region, category: ConstraintCategory)
        requires
            old(self).wf(),
            resolvable(old(self).ur(), a),
            resolvable(old(self).ur(), b),
            old(self).constraints.next_region_var + 2 <= MAX_REGION_VID,
        ensures
            final(self).wf(),
            old(self).same_setting(&*final(self)),
            ({
                let (b_vid, c1) = spec_to_vid(old(self).ur(), old(self).constraints.placeholders(), b);
                let (a_vid, c2) = spec_to_vid(old(self).ur(), c1, a);
                &&& final(self).constraints.placeholders() == c2
                &&& final(self).constraints.outlives_constraints@ == old(self).constraints.outlives_constraints@.push(
                    old(self).spec_outlives_constraint(b_vid, a_vid, category),
                )
            }),
    {
        let b_vid = self.to_region_vid(b);
        let a_vid = self.to_region_vid(a);
        self.add_outlives(b_vid, a_vid, category);
    }

    /// The type test that `generic_kind` outlives `region` by `verify_bound`.
    pub fn verify_to_type_test(&mut self, generic_kind: u64, region: Region, verify_bound: u64) -> (test: TypeTest)
        requires
            old(self).wf(),
            resolvable(old(self).ur(), region),
            old(self).constraints.next_region_var < MAX_REGION_VID,
        ensures
            final(self).wf(),
            old(self).same_setting(&*final(self)),
            ({
                let (vid, c) = spec_to_vid(old(self).ur(), old(self).constraints.placeholders(), region);
                &&& final(self).constraints.placeholders() == c
                &&& test == (TypeTest { generic_kind, lower_bound: vid, span: old(self).span, verify_bound })
            }),
            final(self).constraints.outlives_constraints == old(self).constraints.outlives_constraints,
            final(self).constraints.type_tests == old(self).constraints.type_tests,
    {
        let lower_bound = self.to_region_vid(region);
        TypeTest { generic_kind, lower_bound, span: self.span, verify_bound }
    }

    /// Records the type test that `kind` outlives `a` by `bound`; `kind`
    /// and `bound` come with their placeholder regions already replaced by
    /// region variables.
    pub fn push_verify(&mut self, kind: u64, a: Region, bound: u64)
        requires
            old(self).wf(),
            resolvable(old(self).ur(), a),
            old(self).constraints.next_region_var < MAX_REGION_VID,
        ensures
            final(self).wf(),
            old(self).same_setting(&*final(self)),
            ({
                let (vid, c) = spec_to_vid(old(self).ur(), old(self).constraints.placeholders(), a);
                &&& final(self).constraints.placeholders() == c
                &&& final(self).constraints.type_tests@ == old(self).constraints.type_tests@.push(
                    TypeTest { generic_kind: kind, lower_bound: vid, span: old(self).span, verify_bound: bound },
                )
            }),
            final(self).constraints.outlives_constraints == old(self).constraints.outlives_constraints,
    {
        let type_test = self.verify_to_type_test(kind, a, bound);
        self.add_type_test(type_test);
    }

    pub fn add_type_test(&mut self, type_test: TypeTest)
        ensures
            old(self).same_setting(&*final(self)),
            final(self).constraints.placeholders() == old(self).constraints.placeholders(),
            final(self).constraints.outlives_constraints == old(self).constraints.outlives_constraints,
            final(self).constraints.type_tests@ == old(self).constraints.type_tests@.push(type_test),
    {
        self.constraints.type_tests.push(type_test);
    }
}

/// The region variables of the edges `(sup, sub)` among the first `k`, each
/// `sup` before its `sub`, and the placeholder state after.
pub open spec fn edge_vids(ur: &UniversalRegions, c: PlaceholderView, edges: Seq<(Region, Region)>, k: int) -> (Seq<(RegionVid, RegionVid)>, PlaceholderView)
    decreases k,
{
    if k <= 0 {
        (Seq::empty(), c)
    } else {
        let prev = edge_vids(ur, c, edges, k - 1);
        let (sup, c1) = spec_to_vid(ur, prev.1, edges[k - 1].0);
        let (sub, c2) = spec_to_vid(ur, c1, edges[k - 1].1);
        (prev.0.push((sup, sub)), c2)
    }
}

/// `sup: sub` is an outlives constraint of `oc` that applies at `locations`,
/// or one of `extra`.
pub open spec fn is_edge_in(
    locations: Locations,
    oc: Seq<OutlivesConstraint>,
    extra: Seq<(RegionVid, RegionVid)>,
    sup: RegionVid,
    sub: RegionVid,
) -> bool {
    ||| exists|i: int|
        0 <= i < oc.len() && {
            let c = #[trigger] oc[i];
            applies(locations, c.locations) && c.sub == sub && c.sup == sup
        }
    ||| extra.contains((sup, sub))
}

/// A universal region known to outlive `'static`.
pub open spec fn is_seed_in(rel: &UniversalRegionRelations, r: RegionVid) -> bool {
    &&& rel.universal_regions.universal@.contains(r)
    &&& rel.spec_outlives(r, rel.universal_regions.fr_static)
}

/// `p` starts at a universal region known to outlive `'static`, and each
/// next region outlives the one before.
pub open spec fn static_path_in(
    rel: &UniversalRegionRelations,
    locations: Locations,
    oc: Seq<OutlivesConstraint>,
    extra: Seq<(RegionVid, RegionVid)>,
    p: Seq<RegionVid>,
) -> bool {
    &&& p.len() > 0
    &&& is_seed_in(rel, p[0])
    &&& forall|i: int| 0 <= i < p.len() - 1 ==> #[trigger] is_edge_in(locations, oc, extra, p[i + 1], p[i])
}

/// `r` must outlive `'static`: it outlives, through the constraints that
/// apply at `locations` and `extra`, a universal region known to outlive
/// `'static`.
pub open spec fn must_outlive_static_in(
    rel: &UniversalRegionRelations,
    locations: Locations,
    oc: Seq<OutlivesConstraint>,
    extra: Seq<(RegionVid, RegionVid)>,
    r: RegionVid,
) -> bool {
    exists|p: Seq<RegionVid>| #[trigger] static_path_in(rel, locations, oc, extra, p) && p.last() == r
}

impl ConstraintConversion {
    /// `sup: sub` is an outlives constraint that applies here, or one of
    /// `extra`.
    pub open spec fn is_edge(&self, extra: Seq<(RegionVid, RegionVid)>, sup: RegionVid, sub: RegionVid) -> bool {
        is_edge_in(self.locations, self.constraints.outlives_constraints@, extra, sup, sub)
    }

    /// A universal region known to outlive `'static`.
    pub open spec fn is_seed(&self, r: RegionVid) -> bool {
        is_seed_in(&self.universal_region_relations, r)
    }

    pub open spec fn static_path(&self, extra: Seq<(RegionVid, RegionVid)>, p: Seq<RegionVid>) -> bool {
        static_path_in(&self.universal_region_relations, self.locations, self.constraints.outlives_constraints@, extra, p)
    }

    pub open spec fn must_outlive_static(&self, extra: Seq<(RegionVid, RegionVid)>, r: RegionVid) -> bool {
        must_outlive_static_in(&self.universal_region_relations, self.locations, self.constraints.outlives_constraints@, extra, r)
    }

    /// The regions that may be found: the universal ones, and those that
    /// outlive another by a constraint or an edge of `extra`.
    pub open spec fn candidates(&self, extra: Seq<(RegionVid, RegionVid)>) -> Seq<RegionVid> {
        self.ur().universal@ + Seq::new(
            self.constraints.outlives_constraints@.len(),
            |i: int| self.constraints.outlives_constraints@[i].sup,
        ) + Seq::new(extra.len(), |i: int| extra[i].0)
    }

    pub proof fn lemma_must_outlive_step(&self, extra: Seq<(RegionVid, RegionVid)>, sub: RegionVid, sup: RegionVid)
        requires
            self.must_outlive_static(extra, sub),
            self.is_edge(extra, sup, sub),
        ensures
            self.must_outlive_static(extra, sup),
    {
        let p = choose|p: Seq<RegionVid>| #[trigger] static_path_in(&self.universal_region_relations, self.locations, self.constraints.outlives_constraints@, extra, p) && p.last() == sub;
        let q = p.push(sup);
        assert forall|i: int| 0 <= i < q.len() - 1 implies #[trigger] is_edge_in(self.locations, self.constraints.outlives_constraints@, extra, q[i + 1], q[i]) by {
            if i < p.len() - 1 {
                assert(q[i] == p[i] && q[i + 1] == p[i + 1]);
            } else {
                assert(q[i] == sub && q[i + 1] == sup);
            }
        }
        assert(self.static_path(extra, q));
    }
}

/// A sequence without duplicates whose items all occur in `c` is no longer
/// than `c`.
pub proof fn lemma_unique_len(s: Seq<RegionVid>, c: Seq<RegionVid>)
    requires
        s.no_duplicates(),
        forall|i: int| 0 <= i < s.len() ==> c.contains(#[trigger] s[i]),
    ensures
        s.len() <= c.len(),
{
    s.unique_seq_to_set();
    c.lemma_cardinality_of_set();
    assert(s.to_set().subset_of(c.to_set())) by {
        assert forall|x: RegionVid| s.to_set().contains(x) implies c.to_set().contains(x) by {
            let i = choose|i: int| 0 <= i < s.len() && s[i] == x;
            assert(c.contains(s[i]));
        }
    }
    vstd::seq_lib::seq_to_set_is_finite(c);
    vstd::set_lib::lemma_len_subset(s.to_set(), c.to_set());
}

impl ConstraintConversion {
    /// Every region that outlives `x` by a constraint that applies here, or
    /// by an edge of `extra`, is in `view`.
    pub open spec fn closed_at(&self, extra: Seq<(RegionVid, RegionVid)>, view: Seq<RegionVid>, x: RegionVid) -> bool {
        &&& forall|i: int|
            0 <= i < self.constraints.outlives_constraints@.len() && applies(
                self.locations,
                (#[trigger] self.constraints.outlives_constraints@[i]).locations,
            ) && self.constraints.outlives_constraints@[i].sub == x ==> view.contains(
                self.constraints.outlives_constraints@[i].sup,
            )
        &&& forall|i: int| 0 <= i < extra.len() && (#[trigger] extra[i]).1 == x ==> view.contains(extra[i].0)
    }

    /// A set that holds the seeds and is closed holds every region that
    /// must outlive `'static`.
    pub proof fn lemma_closed_least(&self, extra: Seq<(RegionVid, RegionVid)>, view: Seq<RegionVid>, p: Seq<RegionVid>, k: int)
        requires
            forall|r: RegionVid| #[trigger] self.is_seed(r) ==> view.contains(r),
            forall|j: int| 0 <= j < view.len() ==> self.closed_at(extra, view, #[trigger] view[j]),
            self.static_path(extra, p),
            0 <= k < p.len(),
        ensures
            view.contains(p[k]),
        decreases k,
    {
        if k == 0 {
            assert(self.is_seed(p[0]));
        } else {
            self.lemma_closed_least(extra, view, p, k - 1);
            let j = choose|j: int| 0 <= j < view.len() && view[j] == p[k - 1];
            assert(self.closed_at(extra, view, view[j]));
            let oc = self.constraints.outlives_constraints@;
            assert(is_edge_in(self.locations, oc, extra, p[(k - 1) + 1], p[k - 1]));
            assert(p[(k - 1) + 1] == p[k]);
            if extra.contains((p[k], p[k - 1])) {
                let i = choose|i: int| 0 <= i < extra.len() && extra[i] == (p[k], p[k - 1]);
                assert(extra[i].1 == p[k - 1]);
                assert(view.contains(extra[i].0));
            } else {
                let i = choose|i: int|
                    0 <= i < oc.len() && {
                        let c = #[trigger] oc[i];
                        applies(self.locations, c.locations) && c.sub == p[k - 1] && c.sup == p[k]
                    };
                assert(applies(self.locations, oc[i].locations) && oc[i].sub == view[j]);
                assert(view.contains(oc[i].sup));
            }
        }
    }

    /// What the closure of the regions that must outlive `'static` keeps
    /// between steps: no region twice, each must outlive `'static`, each is
    /// a candidate, the seeds are in, and the first `next` are closed.
    pub open spec fn statics_inv(&self, extra: Seq<(RegionVid, RegionVid)>, view: Seq<RegionVid>, next: int) -> bool {
        &&& view.no_duplicates()
        &&& forall|j: int| 0 <= j < view.len() ==> self.must_outlive_static(extra, #[trigger] view[j])
        &&& forall|j: int| 0 <= j < view.len() ==> self.candidates(extra).contains(#[trigger] view[j])
        &&& 0 <= next <= view.len()
        &&& forall|j: int| 0 <= j < next ==> self.closed_at(extra, view, #[trigger] view[j])
    }

    /// Adding a region that must outlive `'static` and is a candidate keeps
    /// the invariant, and the seeds and closedness found so far.
    pub proof fn lemma_statics_insert(&self, extra: Seq<(RegionVid, RegionVid)>, view: Seq<RegionVid>, next: int, x: RegionVid)
        requires
            self.statics_inv(extra, view, next),
            self.must_outlive_static(extra, x),
            self.candidates(extra).contains(x),
            !view.contains(x),
        ensures
            self.statics_inv(extra, view.push(x), next),
            forall|r: RegionVid| view.contains(r) ==> view.push(x).contains(r),
    {
        let v2 = view.push(x);
        assert forall|a: int, b: int| 0 <= a < b < v2.len() implies v2[a] != v2[b] by {
            if b == view.len() {
                assert(v2[a] == view[a]);
            }
        }
        assert forall|j: int| 0 <= j < v2.len() implies self.must_outlive_static(extra, #[trigger] v2[j]) by {
            if j < view.len() {
                assert(v2[j] == view[j]);
            }
        }
        assert forall|j: int| 0 <= j < v2.len() implies self.candidates(extra).contains(#[trigger] v2[j]) by {
            if j < view.len() {
                assert(v2[j] == view[j]);
            }
        }
        assert forall|r: RegionVid| view.contains(r) implies v2.contains(r) by {
            let j = choose|j: int| 0 <= j < view.len() && view[j] == r;
            assert(v2[j] == r);
        }
        assert forall|j: int| 0 <= j < next implies self.closed_at(extra, v2, #[trigger] v2[j]) by {
            assert(v2[j] == view[j]);
            assert(self.closed_at(extra, view, view[j]));
        }
    }
}

pub proof fn lemma_edge_vids_len(ur: &UniversalRegions, c: PlaceholderView, edges: Seq<(Region, Region)>, k: int)
    requires
        k >= 0,
    ensures
        edge_vids(ur, c, edges, k).0.len() == k,
    decreases k,
{
    if k > 0 {
        lemma_edge_vids_len(ur, c, edges, k - 1);
    }
}

impl ConstraintConversion {
    /// The regions that must outlive `'static`: the universal regions known
    /// to, and, closing over them, every region that outlives one of them
    /// by an outlives constraint that applies here or by one of `edges`.
    /// Each is there once.
    pub fn static_outlives_regions(&mut self, edges: &Vec<(Region, Region)>) -> (statics: StaticOutlivesRegions)
        requires
            old(self).wf(),
            forall|k: int| 0 <= k < edges@.len() ==> resolvable(old(self).ur(), (#[trigger] edges@[k]).0)
                && resolvable(old(self).ur(), edges@[k].1),
            old(self).constraints.next_region_var + 2 * edges@.len() <= MAX_REGION_VID,
            old(self).ur().universal@.len() + old(self).constraints.outlives_constraints@.len() + edges@.len() < MAX_REGION_VIDS,
        ensures
            final(self).wf(),
            old(self).same_setting(&*final(self)),
            final(self).constraints.placeholders() == edge_vids(
                old(self).ur(),
                old(self).constraints.placeholders(),
                edges@,
                edges@.len() as int,
            ).1,
            final(self).constraints.outlives_constraints == old(self).constraints.outlives_constraints,
            final(self).constraints.type_tests == old(self).constraints.type_tests,
            statics.view().no_duplicates(),
            forall|r: RegionVid| #[trigger] statics.view().contains(r) <==> final(self).must_outlive_static(
                edge_vids(old(self).ur(), old(self).constraints.placeholders(), edges@, edges@.len() as int).0,
                r,
            ),
    {
        let ghost c0 = self.constraints.placeholders();
        let ghost entry = *self;
        let mut additional_edges = RegionEdges::smallvec_new();
        let n = edges.len();
        let mut k: usize = 0;
        while k < n
            invariant
                n == edges@.len(),
                k <= n,
                self.wf(),
                entry.same_setting(&*self),
                forall|j: int| 0 <= j < edges@.len() ==> resolvable(entry.ur(), (#[trigger] edges@[j]).0)
                    && resolvable(entry.ur(), edges@[j].1),
                self.constraints.next_region_var + 2 * (n - k) <= MAX_REGION_VID,
                (edges_of(additional_edges), self.constraints.placeholders()) == edge_vids(entry.ur(), c0, edges@, k as int),
                n < MAX_REGION_VIDS,
                self.constraints.outlives_constraints == entry.constraints.outlives_constraints,
                self.constraints.type_tests == entry.constraints.type_tests,
            decreases n - k,
        {
            let (sup_region, sub_region) = edges[k];
            let sup = self.to_region_vid(sup_region);
            let sub = self.to_region_vid(sub_region);
            proof {
                lemma_edge_vids_len(entry.ur(), c0, edges@, k as int);
            }
            additional_edges.smallvec_push((sup, sub));
            k = k + 1;
        }
        let ghost extra = edges_of(additional_edges);
        let ghost cands = self.candidates(extra);
        proof {
            lemma_edge_vids_len(entry.ur(), c0, edges@, n as int);
            assert(cands.len() == self.ur().universal@.len() + self.constraints.outlives_constraints@.len() + edges@.len());
        }
        let fr_static = self.universal_region_relations.universal_regions.fr_static;
        let mut statics = StaticOutlivesRegions { regions: RegionVids::smallvec_new() };
        let nu = self.universal_region_relations.universal_regions.universal.len();
        let mut u: usize = 0;
        while u < nu
            invariant
                nu == self.ur().universal@.len(),
                u <= nu,
                fr_static == self.ur().fr_static,
                cands == self.candidates(extra),
                cands.len() < MAX_REGION_VIDS,
                self.statics_inv(extra, statics.view(), 0),
                forall|j: int| 0 <= j < u ==> #[trigger] self.is_seed(self.ur().universal@[j]) ==> statics.view().contains(
                    self.ur().universal@[j],
                ),
            decreases nu - u,
        {
            let region = self.universal_region_relations.universal_regions.universal[u];
            if self.universal_region_relations.outlives(region, fr_static) {
                proof {
                    assert(self.is_seed(region));
                    let p = seq![region];
                    assert(self.static_path(extra, p));
                    assert(cands[u as int] == region);
                    lemma_unique_len(statics.view(), cands);
                }
                let ghost before = statics.view();
                statics.insert(region);
                proof {
                    if !before.contains(region) {
                        self.lemma_statics_insert(extra, before, 0, region);
                        assert(statics.view()[before.len() as int] == region);
                    }
                    assert(statics.view().contains(region));
                    assert(forall|r: RegionVid| before.contains(r) ==> statics.view().contains(r));
                }
            }
            u = u + 1;
        }
        proof {
            assert forall|r: RegionVid| #[trigger] self.is_seed(r) implies statics.view().contains(r) by {
                let j = choose|j: int| 0 <= j < self.ur().universal@.len() && self.ur().universal@[j] == r;
            }
        }
        let noc = self.constraints.outlives_constraints.len();
        let nx = additional_edges.smallvec_len();
        let mut next: usize = 0;
        while next < statics.regions.smallvec_len()
            invariant
                fr_static == self.ur().fr_static,
                cands == self.candidates(extra),
                cands.len() < MAX_REGION_VIDS,
                extra == edges_of(additional_edges),
                noc == self.constraints.outlives_constraints@.len(),
                nx == extra.len(),
                self.statics_inv(extra, statics.view(), next as int),
                forall|r: RegionVid| #[trigger] self.is_seed(r) ==> statics.view().contains(r),
            decreases cands.len() - next,
        {
            proof {
                lemma_unique_len(statics.view(), cands);
            }
            let sub = statics.regions.smallvec_index(next);
            next = next + 1;
            let mut i: usize = 0;
            while i < noc
                invariant
                    cands == self.candidates(extra),
                    cands.len() < MAX_REGION_VIDS,
                    noc == self.constraints.outlives_constraints@.len(),
                    1 <= next <= statics.view().len(),
                    sub == statics.view()[next - 1],
                    self.statics_inv(extra, statics.view(), next - 1),
                    forall|r: RegionVid| #[trigger] self.is_seed(r) ==> statics.view().contains(r),
                    i <= noc,
                    forall|j: int|
                        0 <= j < i && applies(self.locations, (#[trigger] self.constraints.outlives_constraints@[j]).locations)
                            && self.constraints.outlives_constraints@[j].sub == sub ==> statics.view().contains(
                            self.constraints.outlives_constraints@[j].sup,
                        ),
                decreases noc - i,
            {
                let constraint = self.constraints.outlives_constraints[i];
                let applies_here = locations_apply(self.locations, constraint.locations);
                if applies_here && constraint.sub == sub {
                    let ghost before = statics.view();
                    proof {
                        lemma_unique_len(before, cands);
                        assert(self.is_edge(extra, constraint.sup, sub));
                        assert(self.must_outlive_static(extra, sub));
                        self.lemma_must_outlive_step(extra, sub, constraint.sup);
                        let idx = self.ur().universal@.len() + i;
                        assert(cands[idx] == constraint.sup);
                    }
                    statics.insert(constraint.sup);
                    proof {
                        if !before.contains(constraint.sup) {
                            self.lemma_statics_insert(extra, before, next - 1, constraint.sup);
                            assert(statics.view()[before.len() as int] == constraint.sup);
                        }
                        assert(statics.view()[next - 1] == sub);
                        assert(statics.view().contains(constraint.sup));
                        assert(forall|r: RegionVid| before.contains(r) ==> statics.view().contains(r));
                        assert(self.constraints.outlives_constraints@[i as int] == constraint);
                    }
                }
                i = i + 1;
            }
            let mut i: usize = 0;
            while i < nx
                invariant
                    cands == self.candidates(extra),
                    cands.len() < MAX_REGION_VIDS,
                    extra == edges_of(additional_edges),
                    noc == self.constraints.outlives_constraints@.len(),
                    nx == extra.len(),
                    1 <= next <= statics.view().len(),
                    sub == statics.view()[next - 1],
                    self.statics_inv(extra, statics.view(), next - 1),
                    forall|r: RegionVid| #[trigger] self.is_seed(r) ==> statics.view().contains(r),
                    forall|j: int|
                        0 <= j < noc && applies(self.locations, (#[trigger] self.constraints.outlives_constraints@[j]).locations)
                            && self.constraints.outlives_constraints@[j].sub == sub ==> statics.view().contains(
                            self.constraints.outlives_constraints@[j].sup,
                        ),
                    i <= nx,
                    forall|j: int| 0 <= j < i && (#[trigger] extra[j]).1 == sub ==> statics.view().contains(extra[j].0),
                decreases nx - i,
            {
                let (sup, edge_sub) = additional_edges.smallvec_index(i);
                if edge_sub == sub {
                    let ghost before = statics.view();
                    proof {
                        lemma_unique_len(before, cands);
                        assert(extra[i as int] == (sup, sub));
                        assert(self.is_edge(extra, sup, sub));
                        self.lemma_must_outlive_step(extra, sub, sup);
                        let idx = self.ur().universal@.len() + noc + i;
                        assert(cands[idx] == sup);
                    }
                    statics.insert(sup);
                    proof {
                        if !before.contains(sup) {
                            self.lemma_statics_insert(extra, before, next - 1, sup);
                            assert(statics.view()[before.len() as int] == sup);
                        }
                        assert(statics.view()[next - 1] == sub);
                        assert(statics.view().contains(sup));
                        assert(forall|r: RegionVid| before.contains(r) ==> statics.view().contains(r));
                    }
                }
                i = i + 1;
            }
            proof {
                assert(self.closed_at(extra, statics.view(), statics.view()[next - 1]));
            }
        }
        proof {
            assert forall|r: RegionVid| #[trigger] statics.view().contains(r) <==> self.must_outlive_static(extra, r) by {
                if statics.view().contains(r) {
                    let j = choose|j: int| 0 <= j < statics.view().len() && statics.view()[j] == r;
                    assert(self.must_outlive_static(extra, statics.view()[j]));
                }
                if self.must_outlive_static(extra, r) {
                    let p = choose|p: Seq<RegionVid>| #[trigger] static_path_in(&self.universal_region_relations, self.locations, self.constraints.outlives_constraints@, extra, p) && p.last() == r;
                    self.lemma_closed_least(extra, statics.view(), p, p.len() - 1);
                }
            }
        }
        statics
    }
}

/// `arg: region`.
#[derive(Clone, Copy, PartialEq, Eq, Structural, Debug)]
pub struct ArgOutlivesClause {
    pub arg: GenericArg,
    pub region: Region,
}

/// A region constraint from a query, as its outlives clauses.
pub struct QueryRegionConstraint {
    pub outlives: Vec<ArgOutlivesClause>,
    pub category: ConstraintCategory,
}

#[derive(Clone, Copy, PartialEq, Eq, Structural, Debug)]
pub enum ClosureOutlivesSubject {
    /// A type, with its regions already those of the closure's creator.
    Ty(TyId),
    Region(RegionVid),
}

#[derive(Clone, Copy, PartialEq, Eq, Structural, Debug)]
pub struct ClosureOutlivesRequirement {
    pub subject: ClosureOutlivesSubject,
    pub outlived_free_region: RegionVid,
    pub blame_span: u64,
    pub category: ConstraintCategory,
}

/// What a closure's body requires of the regions of its creator.
pub struct ClosureRegionRequirements {
    pub num_external_vids: usize,
    pub outlives_requirements: Vec<ClosureOutlivesRequirement>,
}

/// What converting a constraint reads of the conversion.
pub struct ConvSetting {
    pub locations: Locations,
    pub span: u64,
    pub category: ConstraintCategory,
    pub from_closure: bool,
    pub higher_ranked_assumptions: bool,
}

/// What converting a constraint changes: the placeholders' variables and
/// the outlives constraints.
pub struct ConvState {
    pub placeholders: PlaceholderView,
    pub outlives: Seq<OutlivesConstraint>,
}

pub open spec fn constraint_in(setting: ConvSetting, sup: RegionVid, sub: RegionVid, category: ConstraintCategory) -> OutlivesConstraint {
    OutlivesConstraint {
        locations: setting.locations,
        category: match setting.category {
            ConstraintCategory::Boring | ConstraintCategory::BoringNoLocation => category,
            _ => setting.category,
        },
        span: setting.span,
        sub,
        sup,
        from_closure: setting.from_closure,
    }
}

/// Converting `clause`: nothing where a higher-ranked assumption implies it;
/// for a region, the constraint that it outlives the clause's region; for a
/// type, the request that it outlive the region, keeping the components of
/// its callable interface where the region is a placeholder or must outlive
/// `'static`.
pub open spec fn spec_convert(
    ur: &UniversalRegions,
    setting: ConvSetting,
    st: ConvState,
    clause: ArgOutlivesClause,
    category: ConstraintCategory,
    assumptions: Seq<ArgOutlivesClause>,
    is_static: spec_fn(RegionVid) -> bool,
) -> (ConvState, Option<TypeOutlivesRequest>) {
    if setting.higher_ranked_assumptions && assumptions.contains(clause) {
        (st, None)
    } else {
        match clause.arg {
            GenericArg::Lifetime(r1) => {
                let (v1, c1) = spec_to_vid(ur, st.placeholders, r1);
                let (v2, c2) = spec_to_vid(ur, c1, clause.region);
                (ConvState { placeholders: c2, outlives: st.outlives.push(constraint_in(setting, v1, v2, category)) }, None)
            },
            GenericArg::Type(t1) => {
                let (v2, c1) = spec_to_vid(ur, st.placeholders, clause.region);
                let preserve = clause.region is Placeholder || is_static(v2);
                (
                    ConvState { placeholders: c1, outlives: st.outlives },
                    Some(
                        TypeOutlivesRequest {
                            ty: t1,
                            region: clause.region,
                            category,
                            preserve_static_identity: preserve,
                            implicit_region_bound: ur.implicit_region_bound,
                            span: setting.span,
                        },
                    ),
                )
            },
            GenericArg::Const(_) => (st, None),
        }
    }
}

/// The regions of a clause have variables, and it is not about a constant.
pub open spec fn clause_ok(ur: &UniversalRegions, clause: ArgOutlivesClause) -> bool {
    &&& !(clause.arg is Const)
    &&& resolvable(ur, clause.region)
    &&& clause.arg matches GenericArg::Lifetime(r) ==> resolvable(ur, r)
}

impl ConstraintConversion {
    pub open spec fn setting(&self) -> ConvSetting {
        ConvSetting {
            locations: self.locations,
            span: self.span,
            category: self.category,
            from_closure: self.from_closure,
            higher_ranked_assumptions: self.higher_ranked_assumptions,
        }
    }

    pub open spec fn state(&self) -> ConvState {
        ConvState { placeholders: self.constraints.placeholders(), outlives: self.constraints.outlives_constraints@ }
    }

    /// Converts `clause`: records an outlives constraint for a region, or
    /// gives the request for a type (see `spec_convert`).
    pub fn convert(
        &mut self,
        clause: ArgOutlivesClause,
        constraint_category: ConstraintCategory,
        higher_ranked_assumptions: &Vec<ArgOutlivesClause>,
        static_outlives: &StaticOutlivesRegions,
    ) -> (request: Option<TypeOutlivesRequest>)
        requires
            old(self).wf(),
            clause_ok(old(self).ur(), clause),
            old(self).constraints.next_region_var + 2 <= MAX_REGION_VID,
        ensures
            final(self).wf(),
            old(self).same_setting(&*final(self)),
            final(self).constraints.type_tests == old(self).constraints.type_tests,
            (final(self).state(), request) == spec_convert(
                old(self).ur(),
                old(self).setting(),
                old(self).state(),
                clause,
                constraint_category,
                higher_ranked_assumptions@,
                |v: RegionVid| static_outlives.view().contains(v),
            ),
            final(self).constraints.next_region_var <= old(self).constraints.next_region_var + 2,
    {
        if self.higher_ranked_assumptions {
            let n = higher_ranked_assumptions.len();
            let mut k: usize = 0;
            while k < n
                invariant
                    n == higher_ranked_assumptions@.len(),
                    k <= n,
                    *self == *old(self),
                    old(self).wf(),
                    self.higher_ranked_assumptions,
                    forall|j: int| 0 <= j < k ==> higher_ranked_assumptions@[j] != clause,
                decreases n - k,
            {
                if higher_ranked_assumptions[k] == clause {
                    proof {
                        assert(higher_ranked_assumptions@[k as int] == clause);
                    }
                    return None;
                }
                k = k + 1;
            }
        }
        match clause.arg {
            GenericArg::Lifetime(r1) => {
                let r1_vid = self.to_region_vid(r1);
                let r2_vid = self.to_region_vid(clause.region);
                self.add_outlives(r1_vid, r2_vid, constraint_category);
                None
            },
            GenericArg::Type(t1) => {
                let r2_vid = self.to_region_vid(clause.region);
                let preserve_static_identity = matches!(clause.region, Region::Placeholder(_))
                    || static_outlives.contains(r2_vid);
                Some(
                    TypeOutlivesRequest {
                        ty: t1,
                        region: clause.region,
                        category: constraint_category,
                        preserve_static_identity,
                        implicit_region_bound: self.universal_region_relations.universal_regions.implicit_region_bound,
                        span: self.span,
                    },
                )
            },
            GenericArg::Const(_) => None,
        }
    }
}


/// The clauses of a query constraint, each with the constraint's category.
pub open spec fn items_of(c: QueryRegionConstraint) -> Seq<(ArgOutlivesClause, ConstraintCategory)> {
    c.outlives@.map_values(|a: ArgOutlivesClause| (a, c.category))
}

/// The clauses of all the constraints, in order.
pub open spec fn flat_items(cs: Seq<QueryRegionConstraint>) -> Seq<(ArgOutlivesClause, ConstraintCategory)>
    decreases cs.len(),
{
    if cs.len() == 0 {
        Seq::empty()
    } else {
        flat_items(cs.drop_last()) + items_of(cs.last())
    }
}

/// The region edges `(sup, sub)` of the clauses that relate two regions.
pub open spec fn lifetime_edges(items: Seq<(ArgOutlivesClause, ConstraintCategory)>) -> Seq<(Region, Region)>
    decreases items.len(),
{
    if items.len() == 0 {
        Seq::empty()
    } else {
        let prev = lifetime_edges(items.drop_last());
        match items.last().0.arg {
            GenericArg::Lifetime(sup) => prev.push((sup, items.last().0.region)),
            _ => prev,
        }
    }
}

pub proof fn lemma_lifetime_edges_len(items: Seq<(ArgOutlivesClause, ConstraintCategory)>)
    ensures
        lifetime_edges(items).len() <= items.len(),
    decreases items.len(),
{
    if items.len() > 0 {
        lemma_lifetime_edges_len(items.drop_last());
    }
}

/// A request, as a sequence of none or one.
pub open spec fn opt_seq(r: Option<TypeOutlivesRequest>) -> Seq<TypeOutlivesRequest> {
    match r {
        Some(x) => seq![x],
        None => Seq::empty(),
    }
}

/// Converting `items` in order: the state after, and the requests for types.
pub open spec fn spec_convert_seq(
    ur: &UniversalRegions,
    setting: ConvSetting,
    st: ConvState,
    items: Seq<(ArgOutlivesClause, ConstraintCategory)>,
    assumptions: Seq<ArgOutlivesClause>,
    is_static: spec_fn(RegionVid) -> bool,
) -> (ConvState, Seq<TypeOutlivesRequest>)
    decreases items.len(),
{
    if items.len() == 0 {
        (st, Seq::empty())
    } else {
        let (s1, reqs) = spec_convert_seq(ur, setting, st, items.drop_last(), assumptions, is_static);
        let (s2, r) = spec_convert(ur, setting, s1, items.last().0, items.last().1, assumptions, is_static);
        (s2, reqs + opt_seq(r))
    }
}

pub proof fn lemma_push_drop_last<A>(s: Seq<A>, x: A)
    ensures
        s.push(x).drop_last() == s,
        s.push(x).last() == x,
{
    assert(s.push(x).drop_last() =~= s);
}

impl ConstraintConversion {
    /// The region edges between the clauses of `constraints`, as pairs
    /// `(sup, sub)`.
    fn query_edges(constraints: &Vec<QueryRegionConstraint>) -> (edges: Vec<(Region, Region)>)
        ensures
            edges@ == lifetime_edges(flat_items(constraints@)),
    {
        let mut edges: Vec<(Region, Region)> = Vec::new();
        let n = constraints.len();
        let mut i: usize = 0;
        while i < n
            invariant
                n == constraints@.len(),
                i <= n,
                edges@ == lifetime_edges(flat_items(constraints@.take(i as int))),
            decreases n - i,
        {
            let constraint = &constraints[i];
            let m = constraint.outlives.len();
            let ghost done = flat_items(constraints@.take(i as int));
            let mut j: usize = 0;
            while j < m
                invariant
                    n == constraints@.len(),
                    i < n,
                    *constraint == constraints@[i as int],
                    m == constraint.outlives@.len(),
                    j <= m,
                    done == flat_items(constraints@.take(i as int)),
                    edges@ == lifetime_edges(done + items_of(*constraint).take(j as int)),
                decreases m - j,
            {
                let clause = constraint.outlives[j];
                proof {
                    let prefix = done + items_of(*constraint).take(j as int);
                    assert(done + items_of(*constraint).take(j + 1) =~= prefix.push((clause, constraint.category)));
                    lemma_push_drop_last(prefix, (clause, constraint.category));
                }
                match clause.arg {
                    GenericArg::Lifetime(sup) => edges.push((sup, clause.region)),
                    _ => {},
                }
                j = j + 1;
            }
            proof {
                let t = constraints@.take(i + 1);
                assert(t.drop_last() =~= constraints@.take(i as int));
                assert(items_of(*constraint).take(m as int) =~= items_of(*constraint));
            }
            i = i + 1;
        }
        proof {
            assert(constraints@.take(n as int) =~= constraints@);
        }
        edges
    }
}


pub proof fn lemma_flat_take_step(cs: Seq<QueryRegionConstraint>, i: int)
    requires
        0 <= i < cs.len(),
    ensures
        flat_items(cs.take(i + 1)) == flat_items(cs.take(i)) + items_of(cs[i]),
{
    assert(cs.take(i + 1).drop_last() =~= cs.take(i));
    assert(cs.take(i + 1).last() == cs[i]);
}

pub proof fn lemma_flat_len_mono(cs: Seq<QueryRegionConstraint>, i: int)
    requires
        0 <= i <= cs.len(),
    ensures
        flat_items(cs.take(i)).len() <= flat_items(cs).len(),
    decreases cs.len(),
{
    if i == cs.len() {
        assert(cs.take(i) =~= cs);
    } else {
        lemma_flat_len_mono(cs.drop_last(), i);
        assert(cs.drop_last().take(i) =~= cs.take(i));
    }
}

/// Every clause of the constraints is in order, so is every item.
pub proof fn lemma_flat_ok(ur: &UniversalRegions, cs: Seq<QueryRegionConstraint>)
    requires
        forall|i: int, j: int|
            0 <= i < cs.len() && 0 <= j < cs[i].outlives@.len() ==> clause_ok(ur, #[trigger] cs[i].outlives@[j]),
    ensures
        forall|k: int| 0 <= k < flat_items(cs).len() ==> clause_ok(ur, (#[trigger] flat_items(cs)[k]).0),
    decreases cs.len(),
{
    if cs.len() > 0 {
        let d = cs.drop_last();
        assert forall|i: int, j: int| 0 <= i < d.len() && 0 <= j < d[i].outlives@.len() implies clause_ok(ur, #[trigger] d[i].outlives@[j]) by {
            assert(d[i] == cs[i]);
        }
        lemma_flat_ok(ur, d);
        let f = flat_items(cs);
        let a = flat_items(d);
        assert forall|k: int| 0 <= k < f.len() implies clause_ok(ur, (#[trigger] f[k]).0) by {
            if k < a.len() {
                assert(f[k] == a[k]);
            } else {
                let j = k - a.len();
                assert(f[k] == items_of(cs.last())[j]);
                assert(cs.last() == cs[cs.len() - 1]);
                assert(clause_ok(ur, cs[cs.len() - 1].outlives@[j]));
            }
        }
    }
}

/// The edges of items in order relate regions that have variables.
pub proof fn lemma_edges_ok(ur: &UniversalRegions, items: Seq<(ArgOutlivesClause, ConstraintCategory)>)
    requires
        forall|k: int| 0 <= k < items.len() ==> clause_ok(ur, (#[trigger] items[k]).0),
    ensures
        forall|k: int| 0 <= k < lifetime_edges(items).len() ==> resolvable(ur, (#[trigger] lifetime_edges(items)[k]).0)
            && resolvable(ur, lifetime_edges(items)[k].1),
    decreases items.len(),
{
    if items.len() > 0 {
        let d = items.drop_last();
        assert forall|k: int| 0 <= k < d.len() implies clause_ok(ur, (#[trigger] d[k]).0) by {
            assert(d[k] == items[k]);
        }
        lemma_edges_ok(ur, d);
        assert(clause_ok(ur, items[items.len() - 1].0));
        let prev = lifetime_edges(d);
        let e = lifetime_edges(items);
        assert forall|k: int| 0 <= k < e.len() implies resolvable(ur, (#[trigger] e[k]).0) && resolvable(ur, e[k].1) by {
            if k < prev.len() {
                assert(e[k] == prev[k]);
            }
        }
    }
}

/// Each edge gives at most two fresh region variables.
pub proof fn lemma_edge_vids_next(ur: &UniversalRegions, c: PlaceholderView, edges: Seq<(Region, Region)>, k: int)
    requires
        k >= 0,
    ensures
        edge_vids(ur, c, edges, k).1.2 <= c.2 + 2 * k,
    decreases k,
{
    if k > 0 {
        lemma_edge_vids_next(ur, c, edges, k - 1);
    }
}

impl ConstraintConversion {
    /// Converts the region constraints of a query: first the regions that
    /// must outlive `'static` through the edges between the constraints'
    /// regions, then each clause in order (see `spec_convert`). The clauses
    /// that `assumptions`, already elaborated, imply are dropped when
    /// higher-ranked assumptions are on. Gives the requests for types, in
    /// order.
    pub fn convert_all(
        &mut self,
        constraints: &Vec<QueryRegionConstraint>,
        assumptions: &Vec<ArgOutlivesClause>,
    ) -> (requests: Vec<TypeOutlivesRequest>)
        requires
            old(self).wf(),
            forall|i: int, j: int|
                0 <= i < constraints@.len() && 0 <= j < constraints@[i].outlives@.len() ==> clause_ok(
                    old(self).ur(),
                    #[trigger] constraints@[i].outlives@[j],
                ),
            old(self).constraints.next_region_var + 4 * flat_items(constraints@).len() <= MAX_REGION_VID,
            old(self).ur().universal@.len() + old(self).constraints.outlives_constraints@.len() + flat_items(
                constraints@,
            ).len() < MAX_REGION_VIDS,
        ensures
            final(self).wf(),
            old(self).same_setting(&*final(self)),
            final(self).constraints.type_tests == old(self).constraints.type_tests,
            ({
                let items = flat_items(constraints@);
                let edges = lifetime_edges(items);
                let (extra, c1) = edge_vids(old(self).ur(), old(self).constraints.placeholders(), edges, edges.len() as int);
                let is_static = |v: RegionVid|
                    must_outlive_static_in(
                        &old(self).universal_region_relations,
                        old(self).locations,
                        old(self).constraints.outlives_constraints@,
                        extra,
                        v,
                    );
                (final(self).state(), requests@) == spec_convert_seq(
                    old(self).ur(),
                    old(self).setting(),
                    ConvState { placeholders: c1, outlives: old(self).constraints.outlives_constraints@ },
                    items,
                    assumptions@,
                    is_static,
                )
            }),
    {
        let ghost entry = *self;
        let ghost items = flat_items(constraints@);
        let ghost total = items.len();
        let edges = Self::query_edges(constraints);
        proof {
            lemma_flat_ok(entry.ur(), constraints@);
            lemma_edges_ok(entry.ur(), items);
            lemma_lifetime_edges_len(items);
            lemma_edge_vids_next(entry.ur(), entry.constraints.placeholders(), edges@, edges@.len() as int);
        }
        let statics = self.static_outlives_regions(&edges);
        let ghost extra = edge_vids(entry.ur(), entry.constraints.placeholders(), edges@, edges@.len() as int).0;
        let ghost is_static = |v: RegionVid| statics.view().contains(v);
        let ghost st1 = self.state();
        let ghost setting = entry.setting();
        let mut requests: Vec<TypeOutlivesRequest> = Vec::new();
        let n = constraints.len();
        let mut i: usize = 0;
        while i < n
            invariant
                n == constraints@.len(),
                i <= n,
                items == flat_items(constraints@),
                total == items.len(),
                forall|v: RegionVid| #[trigger] is_static(v) == statics.view().contains(v),
                setting == entry.setting(),
                self.wf(),
                entry.same_setting(&*self),
                self.constraints.type_tests == entry.constraints.type_tests,
                forall|a: int, b: int|
                    0 <= a < constraints@.len() && 0 <= b < constraints@[a].outlives@.len() ==> clause_ok(
                        entry.ur(),
                        #[trigger] constraints@[a].outlives@[b],
                    ),
                self.constraints.next_region_var + 2 * (total - flat_items(constraints@.take(i as int)).len()) <= MAX_REGION_VID,
                flat_items(constraints@.take(i as int)).len() <= total,
                (self.state(), requests@) == spec_convert_seq(
                    entry.ur(),
                    setting,
                    st1,
                    flat_items(constraints@.take(i as int)),
                    assumptions@,
                    is_static,
                ),
            decreases n - i,
        {
            let constraint = &constraints[i];
            let m = constraint.outlives.len();
            let ghost done = flat_items(constraints@.take(i as int));
            proof {
                lemma_flat_take_step(constraints@, i as int);
                lemma_flat_len_mono(constraints@, i + 1);
            }
            let mut j: usize = 0;
            while j < m
                invariant
                    n == constraints@.len(),
                    i < n,
                    *constraint == constraints@[i as int],
                    m == constraint.outlives@.len(),
                    j <= m,
                    done == flat_items(constraints@.take(i as int)),
                    done.len() + m <= total,
                    forall|v: RegionVid| #[trigger] is_static(v) == statics.view().contains(v),
                    setting == entry.setting(),
                    self.wf(),
                    entry.same_setting(&*self),
                    self.constraints.type_tests == entry.constraints.type_tests,
                    forall|a: int, b: int|
                        0 <= a < constraints@.len() && 0 <= b < constraints@[a].outlives@.len() ==> clause_ok(
                            entry.ur(),
                            #[trigger] constraints@[a].outlives@[b],
                        ),
                    self.constraints.next_region_var + 2 * (total - done.len() - j) <= MAX_REGION_VID,
                    (self.state(), requests@) == spec_convert_seq(
                        entry.ur(),
                        setting,
                        st1,
                        done + items_of(*constraint).take(j as int),
                        assumptions@,
                        is_static,
                    ),
                decreases m - j,
            {
                let clause = constraint.outlives[j];
                let ghost prefix = done + items_of(*constraint).take(j as int);
                proof {
                    assert(clause == constraints@[i as int].outlives@[j as int]);
                    assert(done + items_of(*constraint).take(j + 1) =~= prefix.push((clause, constraint.category)));
                    lemma_push_drop_last(prefix, (clause, constraint.category));
                }
                let ghost before = requests@;
                let ghost state_before = self.state();
                let ghost setting_before = self.setting();
                let request = self.convert(clause, constraint.category, assumptions, &statics);
                proof {
                    let conv = |v: RegionVid| statics.view().contains(v);
                    assert(conv =~= is_static);
                    assert(setting_before == setting);
                    assert((self.state(), request) == spec_convert(
                        entry.ur(),
                        setting,
                        state_before,
                        clause,
                        constraint.category,
                        assumptions@,
                        is_static,
                    ));
                    let item = (clause, constraint.category);
                    assert(prefix.push(item).last() == item);
                    assert(spec_convert_seq(entry.ur(), setting, st1, prefix.push(item), assumptions@, is_static) == (
                        self.state(),
                        before + opt_seq(request),
                    ));
                }
                match request {
                    Some(r) => requests.push(r),
                    None => {},
                }
                proof {
                    assert(requests@ =~= before + opt_seq(request));
                }
                j = j + 1;
            }
            proof {
                assert(items_of(*constraint).take(m as int) =~= items_of(*constraint));
            }
            i = i + 1;
        }
        proof {
            assert(constraints@.take(n as int) =~= constraints@);
            let must = |v: RegionVid|
                must_outlive_static_in(
                    &entry.universal_region_relations,
                    entry.locations,
                    entry.constraints.outlives_constraints@,
                    extra,
                    v,
                );
            assert(is_static =~= must);
        }
        requests
    }
}


/// The clause that a closure's requirement becomes in its creator: the
/// subject, its regions mapped, outlives the mapped outlived region.
pub open spec fn closure_clause(mapping: Seq<Region>, r: ClosureOutlivesRequirement) -> ArgOutlivesClause {
    ArgOutlivesClause {
        arg: match r.subject {
            ClosureOutlivesSubject::Region(re) => GenericArg::Lifetime(mapping[re as int]),
            ClosureOutlivesSubject::Ty(t) => GenericArg::Type(t),
        },
        region: mapping[r.outlived_free_region as int],
    }
}

/// The region edges `(sup, sub)` of the requirements whose subject is a
/// region, mapped into the creator.
pub open spec fn closure_edges(mapping: Seq<Region>, reqs: Seq<ClosureOutlivesRequirement>) -> Seq<(Region, Region)>
    decreases reqs.len(),
{
    if reqs.len() == 0 {
        Seq::empty()
    } else {
        let prev = closure_edges(mapping, reqs.drop_last());
        match reqs.last().subject {
            ClosureOutlivesSubject::Region(re) => prev.push(
                (mapping[re as int], mapping[reqs.last().outlived_free_region as int]),
            ),
            ClosureOutlivesSubject::Ty(_) => prev,
        }
    }
}

pub proof fn lemma_closure_edges_len(mapping: Seq<Region>, reqs: Seq<ClosureOutlivesRequirement>)
    ensures
        closure_edges(mapping, reqs).len() <= reqs.len(),
    decreases reqs.len(),
{
    if reqs.len() > 0 {
        lemma_closure_edges_len(mapping, reqs.drop_last());
    }
}

/// The requirement's regions are mapped, and the mapped ones have variables.
pub open spec fn requirement_ok(ur: &UniversalRegions, mapping: Seq<Region>, r: ClosureOutlivesRequirement) -> bool {
    &&& r.outlived_free_region < mapping.len()
    &&& r.subject matches ClosureOutlivesSubject::Region(re) ==> re < mapping.len()
    &&& clause_ok(ur, closure_clause(mapping, r))
}

pub proof fn lemma_closure_edges_ok(ur: &UniversalRegions, mapping: Seq<Region>, reqs: Seq<ClosureOutlivesRequirement>)
    requires
        forall|k: int| 0 <= k < reqs.len() ==> requirement_ok(ur, mapping, #[trigger] reqs[k]),
    ensures
        forall|k: int|
            0 <= k < closure_edges(mapping, reqs).len() ==> resolvable(ur, (#[trigger] closure_edges(mapping, reqs)[k]).0)
                && resolvable(ur, closure_edges(mapping, reqs)[k].1),
    decreases reqs.len(),
{
    if reqs.len() > 0 {
        let d = reqs.drop_last();
        assert forall|k: int| 0 <= k < d.len() implies requirement_ok(ur, mapping, #[trigger] d[k]) by {
            assert(d[k] == reqs[k]);
        }
        lemma_closure_edges_ok(ur, mapping, d);
        assert(requirement_ok(ur, mapping, reqs[reqs.len() - 1]));
        let prev = closure_edges(mapping, d);
        let e = closure_edges(mapping, reqs);
        assert forall|k: int| 0 <= k < e.len() implies resolvable(ur, (#[trigger] e[k]).0) && resolvable(ur, e[k].1) by {
            if k < prev.len() {
                assert(e[k] == prev[k]);
            }
        }
    }
}

/// The setting in which a closure's requirement is converted: from the
/// closure, in the requirement's category and at its span.
pub open spec fn closure_setting(base: ConvSetting, r: ClosureOutlivesRequirement) -> ConvSetting {
    ConvSetting {
        locations: base.locations,
        span: r.blame_span,
        category: r.category,
        from_closure: true,
        higher_ranked_assumptions: base.higher_ranked_assumptions,
    }
}

/// Converting a closure's requirements in order: the state after, and the
/// requests for types.
pub open spec fn spec_apply_seq(
    ur: &UniversalRegions,
    base: ConvSetting,
    st: ConvState,
    reqs: Seq<ClosureOutlivesRequirement>,
    mapping: Seq<Region>,
    is_static: spec_fn(RegionVid) -> bool,
) -> (ConvState, Seq<TypeOutlivesRequest>)
    decreases reqs.len(),
{
    if reqs.len() == 0 {
        (st, Seq::empty())
    } else {
        let (s1, out) = spec_apply_seq(ur, base, st, reqs.drop_last(), mapping, is_static);
        let r = reqs.last();
        let (s2, q) = spec_convert(ur, closure_setting(base, r), s1, closure_clause(mapping, r), r.category, Seq::empty(), is_static);
        (s2, out + opt_seq(q))
    }
}

impl ConstraintConversion {
    /// The region edges of a closure's requirements, mapped into its creator.
    fn closure_region_edges(reqs: &Vec<ClosureOutlivesRequirement>, closure_mapping: &Vec<Region>) -> (edges: Vec<(Region, Region)>)
        requires
            forall|k: int|
                0 <= k < reqs@.len() ==> (#[trigger] reqs@[k]).outlived_free_region < closure_mapping@.len() && (reqs@[k].subject matches ClosureOutlivesSubject::Region(
                    re,
                ) ==> re < closure_mapping@.len()),
        ensures
            edges@ == closure_edges(closure_mapping@, reqs@),
    {
        let mut edges: Vec<(Region, Region)> = Vec::new();
        let n = reqs.len();
        let mut k: usize = 0;
        while k < n
            invariant
                n == reqs@.len(),
                k <= n,
                forall|j: int|
                    0 <= j < reqs@.len() ==> (#[trigger] reqs@[j]).outlived_free_region < closure_mapping@.len() && (reqs@[j].subject matches ClosureOutlivesSubject::Region(
                        re,
                    ) ==> re < closure_mapping@.len()),
                edges@ == closure_edges(closure_mapping@, reqs@.take(k as int)),
            decreases n - k,
        {
            let req = reqs[k];
            proof {
                assert(reqs@.take(k + 1).drop_last() =~= reqs@.take(k as int));
                assert(reqs@.take(k + 1).last() == req);
            }
            let sub = closure_mapping[req.outlived_free_region as usize];
            match req.subject {
                ClosureOutlivesSubject::Region(re) => edges.push((closure_mapping[re as usize], sub)),
                ClosureOutlivesSubject::Ty(_) => {},
            }
            k = k + 1;
        }
        proof {
            assert(reqs@.take(n as int) =~= reqs@);
        }
        edges
    }

    /// Applies what a closure's body requires of its creator's regions,
    /// given `closure_mapping`, the creator's region for each region of the
    /// closure. First the regions that must outlive `'static` through the
    /// requirements between regions, then each requirement converted as a
    /// clause from the closure, in its category and at its span. The
    /// conversion's own category, span and origin are as before after.
    /// Gives the requests for types, in order.
    pub fn apply_closure_requirements(
        &mut self,
        closure_requirements: &ClosureRegionRequirements,
        closure_mapping: &Vec<Region>,
    ) -> (requests: Vec<TypeOutlivesRequest>)
        requires
            old(self).wf(),
            forall|k: int|
                0 <= k < closure_requirements.outlives_requirements@.len() ==> requirement_ok(
                    old(self).ur(),
                    closure_mapping@,
                    #[trigger] closure_requirements.outlives_requirements@[k],
                ),
            old(self).constraints.next_region_var + 4 * closure_requirements.outlives_requirements@.len() <= MAX_REGION_VID,
            old(self).ur().universal@.len() + old(self).constraints.outlives_constraints@.len()
                + closure_requirements.outlives_requirements@.len() < MAX_REGION_VIDS,
        ensures
            final(self).wf(),
            old(self).same_setting(&*final(self)),
            final(self).constraints.type_tests == old(self).constraints.type_tests,
            ({
                let reqs = closure_requirements.outlives_requirements@;
                let edges = closure_edges(closure_mapping@, reqs);
                let (extra, c1) = edge_vids(old(self).ur(), old(self).constraints.placeholders(), edges, edges.len() as int);
                let is_static = |v: RegionVid|
                    must_outlive_static_in(
                        &old(self).universal_region_relations,
                        old(self).locations,
                        old(self).constraints.outlives_constraints@,
                        extra,
                        v,
                    );
                (final(self).state(), requests@) == spec_apply_seq(
                    old(self).ur(),
                    old(self).setting(),
                    ConvState { placeholders: c1, outlives: old(self).constraints.outlives_constraints@ },
                    reqs,
                    closure_mapping@,
                    is_static,
                )
            }),
    {
        let ghost entry = *self;
        let reqs = &closure_requirements.outlives_requirements;
        let edges = Self::closure_region_edges(reqs, closure_mapping);
        proof {
            lemma_closure_edges_ok(entry.ur(), closure_mapping@, reqs@);
            lemma_closure_edges_len(closure_mapping@, reqs@);
            lemma_edge_vids_next(entry.ur(), entry.constraints.placeholders(), edges@, edges@.len() as int);
        }
        let statics = self.static_outlives_regions(&edges);
        let ghost is_static = |v: RegionVid| statics.view().contains(v);
        let ghost st1 = self.state();
        let ghost base = entry.setting();
        let backup = (self.category, self.span, self.from_closure);
        self.from_closure = true;
        let no_assumptions: Vec<ArgOutlivesClause> = Vec::new();
        let mut requests: Vec<TypeOutlivesRequest> = Vec::new();
        let n = reqs.len();
        let mut k: usize = 0;
        while k < n
            invariant
                n == reqs@.len(),
                k <= n,
                no_assumptions@ == Seq::<ArgOutlivesClause>::empty(),
                forall|v: RegionVid| #[trigger] is_static(v) == statics.view().contains(v),
                base == entry.setting(),
                forall|j: int| 0 <= j < reqs@.len() ==> requirement_ok(entry.ur(), closure_mapping@, #[trigger] reqs@[j]),
                self.wf(),
                self.universal_region_relations == entry.universal_region_relations,
                self.locations == entry.locations,
                self.higher_ranked_assumptions == entry.higher_ranked_assumptions,
                self.from_closure,
                self.constraints.type_tests == entry.constraints.type_tests,
                self.constraints.next_region_var + 2 * (n - k) <= MAX_REGION_VID,
                (self.state(), requests@) == spec_apply_seq(entry.ur(), base, st1, reqs@.take(k as int), closure_mapping@, is_static),
            decreases n - k,
        {
            let req = reqs[k];
            proof {
                assert(reqs@.take(k + 1).drop_last() =~= reqs@.take(k as int));
                assert(reqs@.take(k + 1).last() == req);
                assert(requirement_ok(entry.ur(), closure_mapping@, req));
            }
            let outlived_region = closure_mapping[req.outlived_free_region as usize];
            let subject = match req.subject {
                ClosureOutlivesSubject::Region(re) => GenericArg::Lifetime(closure_mapping[re as usize]),
                ClosureOutlivesSubject::Ty(subject_ty) => GenericArg::Type(subject_ty),
            };
            let clause = ArgOutlivesClause { arg: subject, region: outlived_region };
            self.category = req.category;
            self.span = req.blame_span;
            let ghost before = requests@;
            let ghost state_before = self.state();
            proof {
                assert(clause == closure_clause(closure_mapping@, req));
                assert(self.setting() == closure_setting(base, req));
            }
            let category = self.category;
            let request = self.convert(clause, category, &no_assumptions, &statics);
            proof {
                let conv = |v: RegionVid| statics.view().contains(v);
                assert(conv =~= is_static);
            }
            match request {
                Some(r) => requests.push(r),
                None => {},
            }
            proof {
                assert(requests@ =~= before + opt_seq(request));
            }
            k = k + 1;
        }
        let (category, span, from_closure) = backup;
        self.category = category;
        self.span = span;
        self.from_closure = from_closure;
        proof {
            assert(reqs@.take(n as int) =~= reqs@);
            let extra = edge_vids(entry.ur(), entry.constraints.placeholders(), edges@, edges@.len() as int).0;
            let must = |v: RegionVid|
                must_outlive_static_in(
                    &entry.universal_region_relations,
                    entry.locations,
                    entry.constraints.outlives_constraints@,
                    extra,
                    v,
                );
            assert(is_static =~= must);
        }
        requests
    }
}

} // verus!
