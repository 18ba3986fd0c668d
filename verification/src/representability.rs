//! Representability of ADTs: which type parameters of an ADT its
//! representation holds by value, and whether checking that each ADT has a
//! finite size runs into a cycle.
use vstd::prelude::*;

use crate::ty::{DefId, DefKind, GenericArg, GenericParamDef, TyCtxt, TyId, TyKind, VariantResultProjection, VariantScheme};

verus! {

/// Joins two answers; `None` (a case the compiler rejects as a bug) wins.
pub open spec fn join_sets(a: Option<Set<int>>, b: Option<Set<int>>) -> Option<Set<int>> {
    match (a, b) {
        (Some(x), Some(y)) => Some(x.union(y)),
        _ => None,
    }
}

impl TyCtxt {
    /// Whether argument `k` of an ADT is held in the ADT's representation,
    /// as the `params_in_repr` query answers for the ADT's definition.
    pub open spec fn param_in_repr(&self, adt: DefId, k: int) -> bool {
        let inner = self.defs@[adt as int].params_in_repr@;
        k < inner.len() && inner[k]
    }

    /// The family parameters that `t` holds by value in a representation of
    /// `n` parameters: its parameters, through `map` where given; `None` where
    /// the compiler would stop on a bug.
    pub open spec fn repr_ty(&self, t: TyId, map: Option<Seq<Option<u32>>>, n: int) -> Option<Set<int>>
        decreases t + 1, 0int, 0int,
    {
        if t >= self.types@.len() {
            Some(Set::empty())
        } else {
            match self.types@[t as int] {
                TyKind::Adt(adt, a) => self.repr_args(adt, a, t as int, map, n, 0),
                TyKind::Array(u, _) => if u < t {
                    self.repr_ty(u, map, n)
                } else {
                    Some(Set::empty())
                },
                TyKind::Tuple(l) => self.repr_list(l, t as int, map, n, 0),
                TyKind::Param(i) => {
                    let f = match map {
                        None => Some(i as int),
                        Some(m) => if i < m.len() {
                            match m[i as int] {
                                Some(f) => Some(f as int),
                                None => None,
                            }
                        } else {
                            None
                        },
                    };
                    match f {
                        Some(f) => if f < n {
                            Some(set![f])
                        } else {
                            None
                        },
                        None => None,
                    }
                },
                _ => Some(Set::empty()),
            }
        }
    }

    /// The type arguments `k..` of list `a` that the ADT `adt` holds.
    pub open spec fn repr_args(&self, adt: DefId, a: usize, bound: int, map: Option<Seq<Option<u32>>>, n: int, k: int) -> Option<Set<int>>
        decreases bound, 1int, self.arg_lists@[a as int]@.len() - k,
    {
        if a >= self.arg_lists@.len() || k < 0 || k >= self.arg_lists@[a as int]@.len() {
            Some(Set::empty())
        } else {
            let head = match self.arg_lists@[a as int]@[k] {
                GenericArg::Type(u) => if k >= self.defs@[adt as int].params_in_repr@.len() {
                    None
                } else if self.param_in_repr(adt, k) && u < bound {
                    self.repr_ty(u, map, n)
                } else {
                    Some(Set::empty())
                },
                _ => Some(Set::empty()),
            };
            join_sets(head, self.repr_args(adt, a, bound, map, n, k + 1))
        }
    }

    /// The types `k..` of list `l`.
    pub open spec fn repr_list(&self, l: usize, bound: int, map: Option<Seq<Option<u32>>>, n: int, k: int) -> Option<Set<int>>
        decreases bound, 1int, self.ty_lists@[l as int]@.len() - k,
    {
        if l >= self.ty_lists@.len() || k < 0 || k >= self.ty_lists@[l as int]@.len() {
            Some(Set::empty())
        } else {
            let u = self.ty_lists@[l as int]@[k];
            join_sets(
                if u < bound {
                    self.repr_ty(u, map, n)
                } else {
                    Some(Set::empty())
                },
                self.repr_list(l, bound, map, n, k + 1),
            )
        }
    }
}

/// Marks in `set` the family parameters that `ty` holds by value; through
/// `map` from scheme parameters to family parameters where given.
pub fn params_in_repr_ty(tcx: &TyCtxt, ty: TyId, map: Option<&Vec<Option<u32>>>, set: &mut Vec<bool>)
    requires
        tcx.wf(),
        tcx.valid_ty(ty),
        tcx.repr_ty(ty, map_view(map), old(set)@.len() as int) is Some,
    ensures
        final(set)@.len() == old(set)@.len(),
        forall|i: int| 0 <= i < old(set)@.len() ==> #[trigger] final(set)@[i] == (old(set)@[i] || tcx.repr_ty(
            ty,
            map_view(map),
            old(set)@.len() as int,
        ).unwrap().contains(i)),
    decreases ty + 1, 0int, 0int,
{
    let ghost n = set@.len() as int;
    proof {
        assert(tcx.kind_below(tcx.types@[ty as int], ty as int));
    }
    match tcx.types[ty] {
        TyKind::Adt(adt, a) => params_in_repr_args(tcx, adt, a, ty, map, set),
        TyKind::Array(u, _) => params_in_repr_ty(tcx, u, map, set),
        TyKind::Tuple(l) => params_in_repr_list(tcx, l, ty, map, set),
        TyKind::Param(i) => {
            let f = match map {
                None => i,
                Some(m) => m[i as usize].unwrap(),
            };
            set.set(f as usize, true);
        },
        _ => {},
    }
}

pub open spec fn map_view(map: Option<&Vec<Option<u32>>>) -> Option<Seq<Option<u32>>> {
    match map {
        None => None,
        Some(m) => Some(m@),
    }
}

fn params_in_repr_args(tcx: &TyCtxt, adt: DefId, a: usize, bound: usize, map: Option<&Vec<Option<u32>>>, set: &mut Vec<bool>)
    requires
        tcx.wf(),
        bound <= tcx.types@.len(),
        tcx.args_below(a, bound as int),
        adt < tcx.defs@.len(),
        tcx.repr_args(adt, a, bound as int, map_view(map), old(set)@.len() as int, 0) is Some,
    ensures
        final(set)@.len() == old(set)@.len(),
        forall|i: int| 0 <= i < old(set)@.len() ==> #[trigger] final(set)@[i] == (old(set)@[i] || tcx.repr_args(
            adt,
            a,
            bound as int,
            map_view(map),
            old(set)@.len() as int,
            0,
        ).unwrap().contains(i)),
    decreases bound, 1int, tcx.arg_lists@[a as int]@.len() + 1,
{
    let ghost n = set@.len() as int;
    let ghost total = tcx.repr_args(adt, a, bound as int, map_view(map), n, 0).unwrap();
    let ghost mut acc: Set<int> = Set::empty();
    let len = tcx.arg_lists[a].len();
    let mut k: usize = 0;
    while k < len
        invariant
            tcx.wf(),
            bound <= tcx.types@.len(),
            tcx.args_below(a, bound as int),
            adt < tcx.defs@.len(),
            len == tcx.arg_lists@[a as int]@.len(),
            k <= len,
            set@.len() == n,
            n == old(set)@.len(),
            tcx.repr_args(adt, a, bound as int, map_view(map), n, k as int) is Some,
            total == acc.union(tcx.repr_args(adt, a, bound as int, map_view(map), n, k as int).unwrap()),
            forall|i: int| 0 <= i < n ==> #[trigger] set@[i] == (old(set)@[i] || acc.contains(i)),
        decreases len - k,
    {
        proof {
            assert(crate::ty::args_below_in(tcx.arg_lists@, a, bound as int));
            assert(match tcx.arg_lists@[a as int]@[k as int] {
                GenericArg::Type(t) => t < bound,
                GenericArg::Const(crate::ty::Const::Alias(b)) => b < a && crate::ty::args_below_in(tcx.arg_lists@, b, bound as int),
                _ => true,
            });
        }
        let ghost head = match tcx.arg_lists@[a as int]@[k as int] {
            GenericArg::Type(u) => if tcx.param_in_repr(adt, k as int) && u < bound {
                tcx.repr_ty(u, map_view(map), n).unwrap()
            } else {
                Set::empty()
            },
            _ => Set::empty(),
        };
        if let GenericArg::Type(u) = tcx.arg_lists[a][k] {
            let inner = &tcx.defs[adt].params_in_repr;
            if inner[k] {
                params_in_repr_ty(tcx, u, map, set);
            }
        }
        proof {
            acc = acc.union(head);
            assert(total =~= acc.union(tcx.repr_args(adt, a, bound as int, map_view(map), n, k + 1).unwrap()));
        }
        k = k + 1;
    }
    proof {
        assert(total =~= acc);
    }
}

fn params_in_repr_list(tcx: &TyCtxt, l: usize, bound: usize, map: Option<&Vec<Option<u32>>>, set: &mut Vec<bool>)
    requires
        tcx.wf(),
        bound <= tcx.types@.len(),
        tcx.list_below(l, bound as int),
        tcx.repr_list(l, bound as int, map_view(map), old(set)@.len() as int, 0) is Some,
    ensures
        final(set)@.len() == old(set)@.len(),
        forall|i: int| 0 <= i < old(set)@.len() ==> #[trigger] final(set)@[i] == (old(set)@[i] || tcx.repr_list(
            l,
            bound as int,
            map_view(map),
            old(set)@.len() as int,
            0,
        ).unwrap().contains(i)),
    decreases bound, 1int, tcx.ty_lists@[l as int]@.len() + 1,
{
    let ghost n = set@.len() as int;
    let ghost total = tcx.repr_list(l, bound as int, map_view(map), n, 0).unwrap();
    let ghost mut acc: Set<int> = Set::empty();
    let len = tcx.ty_lists[l].len();
    let mut k: usize = 0;
    while k < len
        invariant
            tcx.wf(),
            bound <= tcx.types@.len(),
            tcx.list_below(l, bound as int),
            len == tcx.ty_lists@[l as int]@.len(),
            k <= len,
            set@.len() == n,
            n == old(set)@.len(),
            tcx.repr_list(l, bound as int, map_view(map), n, k as int) is Some,
            total == acc.union(tcx.repr_list(l, bound as int, map_view(map), n, k as int).unwrap()),
            forall|i: int| 0 <= i < n ==> #[trigger] set@[i] == (old(set)@[i] || acc.contains(i)),
        decreases len - k,
    {
        let u = tcx.ty_lists[l][k];
        let ghost head = tcx.repr_ty(u, map_view(map), n).unwrap();
        params_in_repr_ty(tcx, u, map, set);
        proof {
            acc = acc.union(head);
            assert(total =~= acc.union(tcx.repr_list(l, bound as int, map_view(map), n, k + 1).unwrap()));
        }
        k = k + 1;
    }
    proof {
        assert(total =~= acc);
    }
}

/// The first of `params` that is the definition `d`.
pub open spec fn find_by_def(params: Seq<GenericParamDef>, d: DefId, k: int) -> Option<GenericParamDef>
    decreases params.len() - k,
{
    if k < 0 || k >= params.len() {
        None
    } else if params[k].def_id == d {
        Some(params[k])
    } else {
        find_by_def(params, d, k + 1)
    }
}

pub fn find_param_by_def(params: &Vec<GenericParamDef>, d: DefId) -> (found: Option<GenericParamDef>)
    ensures
        found == find_by_def(params@, d, 0),
{
    let n = params.len();
    let mut k: usize = 0;
    while k < n
        invariant
            n == params@.len(),
            k <= n,
            find_by_def(params@, d, k as int) == find_by_def(params@, d, 0),
        decreases n - k,
    {
        if params[k].def_id == d {
            return Some(params[k]);
        }
        k = k + 1;
    }
    None
}

/// The scheme map once the first `k` family binders of `scheme` are mapped
/// to the parameters of `def` that they name.
pub open spec fn map_family(tcx: &TyCtxt, def: DefId, scheme: crate::ty::RefinedVariantScheme, k: int) -> Option<Seq<Option<u32>>>
    decreases k,
{
    if k <= 0 {
        Some(Seq::new((scheme.binders.family@.len() + scheme.binders.local@.len()) as nat, |i: int| None))
    } else {
        match map_family(tcx, def, scheme, k - 1) {
            None => None,
            Some(m) => {
                let binder = scheme.binders.family@[k - 1];
                match find_by_def(tcx.defs@[def as int].own_params@, binder.def_id, 0) {
                    Some(p) => if binder.index < m.len() {
                        Some(m.update(binder.index as int, Some(p.index)))
                    } else {
                        None
                    },
                    None => None,
                }
            },
        }
    }
}

/// The scheme map once the first `k` recoveries of `scheme` also map their
/// binders to the family arguments they are recovered from.
pub open spec fn map_recoveries(tcx: &TyCtxt, def: DefId, scheme: crate::ty::RefinedVariantScheme, k: int) -> Option<Seq<Option<u32>>>
    decreases k,
{
    if k <= 0 {
        map_family(tcx, def, scheme, scheme.binders.family@.len() as int)
    } else {
        match map_recoveries(tcx, def, scheme, k - 1) {
            None => None,
            Some(m) => {
                let recovery = scheme.recoveries@[k - 1];
                let binders = scheme.binders.family@ + scheme.binders.local@;
                match find_by_def(binders, recovery.binder_def_id, 0) {
                    Some(p) => if recovery.path@.len() > 0 && recovery.path@[0] is GenericArg {
                        let family_index = recovery.path@[0]->GenericArg_0;
                        if family_index < tcx.defs@[def as int].own_params@.len() && p.index < m.len() {
                            Some(m.update(p.index as int, Some(family_index)))
                        } else {
                            None
                        }
                    } else {
                        None
                    },
                    None => None,
                }
            },
        }
    }
}

impl TyCtxt {
    /// The parameters that the types `tys` hold by value.
    pub open spec fn repr_tys(&self, tys: Seq<TyId>, map: Option<Seq<Option<u32>>>, n: int) -> Option<Set<int>>
        decreases tys.len(),
    {
        if tys.len() == 0 {
            Some(Set::empty())
        } else {
            join_sets(self.repr_tys(tys.drop_last(), map, n), self.repr_ty(tys.last(), map, n))
        }
    }

    pub open spec fn field_tys(&self, fields: Seq<DefId>) -> Seq<TyId> {
        Seq::new(fields.len(), |i: int| self.defs@[fields[i] as int].type_of)
    }

    /// The parameters of the ADT `def` that one of its variants holds by value.
    pub open spec fn variant_repr(&self, def: DefId, variant: crate::ty::VariantDef, n: int) -> Option<Set<int>> {
        if self.defs@[def as int].kind != DefKind::Enum {
            self.repr_tys(self.field_tys(variant.fields@), None, n)
        } else {
            match self.defs@[variant.def_id as int].scheme {
                VariantScheme::Ordinary => self.repr_tys(self.field_tys(variant.fields@), None, n),
                VariantScheme::Invalid => Some(Set::empty()),
                VariantScheme::Refined(scheme) => match map_recoveries(self, def, scheme, scheme.recoveries@.len() as int) {
                    Some(m) => self.repr_tys(scheme.fields@, Some(m), n),
                    None => None,
                },
            }
        }
    }

    /// The parameters of the ADT `def` that its first `k` variants hold by value.
    pub open spec fn variants_repr(&self, def: DefId, k: int) -> Option<Set<int>>
        decreases k,
    {
        if k <= 0 {
            Some(Set::empty())
        } else {
            let n = self.defs@[def as int].own_params@.len() as int;
            join_sets(self.variants_repr(def, k - 1), self.variant_repr(def, self.defs@[def as int].variants@[k - 1], n))
        }
    }

    /// The parameters of the ADT `def` that its representation holds by
    /// value; `None` where the compiler would stop on a bug.
    pub open spec fn spec_params_in_repr(&self, def: DefId) -> Option<Set<int>> {
        self.variants_repr(def, self.defs@[def as int].variants@.len() as int)
    }

    /// Every definition and type that computing `params_in_repr(def)` reads
    /// exists.
    pub open spec fn repr_defs_ok(&self, def: DefId) -> bool {
        &&& def < self.defs@.len()
        &&& forall|k: int| 0 <= k < self.defs@[def as int].variants@.len() ==> {
            let v = #[trigger] self.defs@[def as int].variants@[k];
            &&& v.def_id < self.defs@.len()
            &&& forall|j: int| 0 <= j < v.fields@.len() ==> #[trigger] v.fields@[j] < self.defs@.len()
                && self.valid_ty(self.defs@[v.fields@[j] as int].type_of)
            &&& match self.defs@[v.def_id as int].scheme {
                VariantScheme::Refined(scheme) => forall|j: int| 0 <= j < scheme.fields@.len() ==> self.valid_ty(#[trigger] scheme.fields@[j]),
                _ => true,
            }
        }
    }
}

/// The scheme map of a refined variant: for each scheme binder, the family
/// parameter it stands for.
fn scheme_param_to_family(tcx: &TyCtxt, def: DefId, scheme: &crate::ty::RefinedVariantScheme) -> (map: Vec<Option<u32>>)
    requires
        def < tcx.defs@.len(),
        map_recoveries(tcx, def, *scheme, scheme.recoveries@.len() as int) is Some,
        scheme.binders.family@.len() + scheme.binders.local@.len() <= usize::MAX,
    ensures
        map_recoveries(tcx, def, *scheme, scheme.recoveries@.len() as int) == Some(map@),
{
    proof {
        assert forall|j: int| 0 <= j <= scheme.recoveries@.len() implies #[trigger] map_recoveries(tcx, def, *scheme, j) is Some by {
            lemma_map_recoveries_some(tcx, def, *scheme, j, scheme.recoveries@.len() as int);
        }
        assert(map_recoveries(tcx, def, *scheme, 0) is Some);
        assert forall|j: int| 0 <= j <= scheme.binders.family@.len() implies #[trigger] map_family(tcx, def, *scheme, j) is Some by {
            lemma_map_family_some(tcx, def, *scheme, j, scheme.binders.family@.len() as int);
        }
    }
    let n = scheme.binders.family.len() + scheme.binders.local.len();
    let mut map: Vec<Option<u32>> = vec![None; n];
    proof {
        assert(map@ =~= Seq::new(n as nat, |i: int| None));
    }
    let own = &tcx.defs[def].own_params;
    let nf = scheme.binders.family.len();
    let mut k: usize = 0;
    while k < nf
        invariant
            def < tcx.defs@.len(),
            own == tcx.defs@[def as int].own_params,
            nf == scheme.binders.family@.len(),
            k <= nf,
            map_family(tcx, def, *scheme, nf as int) is Some,
            forall|j: int| 0 <= j <= nf ==> #[trigger] map_family(tcx, def, *scheme, j) is Some,
            map_family(tcx, def, *scheme, k as int) == Some(map@),
        decreases nf - k,
    {
        let binder = scheme.binders.family[k];
        let p = find_param_by_def(own, binder.def_id).unwrap();
        proof {
            assert(map_family(tcx, def, *scheme, k + 1) is Some);
        }
        map.set(binder.index as usize, Some(p.index));
        k = k + 1;
    }
    let mut binders: Vec<GenericParamDef> = Vec::new();
    let mut j: usize = 0;
    while j < nf
        invariant
            nf == scheme.binders.family@.len(),
            j <= nf,
            binders@ == scheme.binders.family@.subrange(0, j as int),
        decreases nf - j,
    {
        binders.push(scheme.binders.family[j]);
        proof {
            assert(binders@ =~= scheme.binders.family@.subrange(0, j + 1));
        }
        j = j + 1;
    }
    let nl = scheme.binders.local.len();
    let mut j: usize = 0;
    while j < nl
        invariant
            nl == scheme.binders.local@.len(),
            nf == scheme.binders.family@.len(),
            j <= nl,
            binders@ == scheme.binders.family@ + scheme.binders.local@.subrange(0, j as int),
        decreases nl - j,
    {
        binders.push(scheme.binders.local[j]);
        proof {
            assert(binders@ =~= scheme.binders.family@ + scheme.binders.local@.subrange(0, j + 1));
        }
        j = j + 1;
    }
    proof {
        assert(binders@ =~= scheme.binders.family@ + scheme.binders.local@);
    }
    let nr = scheme.recoveries.len();
    let mut k: usize = 0;
    while k < nr
        invariant
            def < tcx.defs@.len(),
            own == tcx.defs@[def as int].own_params,
            binders@ == scheme.binders.family@ + scheme.binders.local@,
            nr == scheme.recoveries@.len(),
            k <= nr,
            forall|j: int| 0 <= j <= nr ==> #[trigger] map_recoveries(tcx, def, *scheme, j) is Some,
            map_recoveries(tcx, def, *scheme, k as int) == Some(map@),
        decreases nr - k,
    {
        let recovery = &scheme.recoveries[k];
        let p = find_param_by_def(&binders, recovery.binder_def_id).unwrap();
        proof {
            assert(map_recoveries(tcx, def, *scheme, k + 1) is Some);
        }
        let family_index = match recovery.path[0] {
            VariantResultProjection::GenericArg(i) => i,
            VariantResultProjection::Other => 0,
        };
        map.set(p.index as usize, Some(family_index));
        k = k + 1;
    }
    map
}

pub proof fn lemma_map_family_some(tcx: &TyCtxt, def: DefId, scheme: crate::ty::RefinedVariantScheme, j: int, k: int)
    requires
        0 <= j <= k,
        map_family(tcx, def, scheme, k) is Some,
    ensures
        map_family(tcx, def, scheme, j) is Some,
    decreases k - j,
{
    if j < k {
        lemma_map_family_some(tcx, def, scheme, j, k - 1);
    }
}

pub proof fn lemma_map_recoveries_some(tcx: &TyCtxt, def: DefId, scheme: crate::ty::RefinedVariantScheme, j: int, k: int)
    requires
        0 <= j <= k,
        map_recoveries(tcx, def, scheme, k) is Some,
    ensures
        map_recoveries(tcx, def, scheme, j) is Some,
    decreases k - j,
{
    if j < k {
        lemma_map_recoveries_some(tcx, def, scheme, j, k - 1);
    }
}

pub proof fn lemma_repr_tys_prefix(tcx: &TyCtxt, tys: Seq<TyId>, map: Option<Seq<Option<u32>>>, n: int, k: int)
    requires
        0 <= k <= tys.len(),
        tcx.repr_tys(tys, map, n) is Some,
    ensures
        tcx.repr_tys(tys.take(k), map, n) is Some,
        k < tys.len() ==> tcx.repr_ty(tys[k], map, n) is Some && tcx.repr_tys(tys.take(k + 1), map, n) == join_sets(
            tcx.repr_tys(tys.take(k), map, n),
            tcx.repr_ty(tys[k], map, n),
        ),
    decreases tys.len() - k,
{
    if k < tys.len() {
        lemma_repr_tys_prefix(tcx, tys, map, n, k + 1);
        assert(tys.take(k + 1).drop_last() =~= tys.take(k));
    } else {
        assert(tys.take(k) =~= tys);
    }
}

pub proof fn lemma_variants_prefix(tcx: &TyCtxt, def: DefId, j: int, k: int)
    requires
        0 <= j <= k,
        tcx.variants_repr(def, k) is Some,
    ensures
        tcx.variants_repr(def, j) is Some,
    decreases k - j,
{
    if j < k {
        lemma_variants_prefix(tcx, def, j, k - 1);
    }
}

/// Marks in `set` the parameters that the types `tys` hold by value.
fn params_in_repr_tys(tcx: &TyCtxt, tys: &Vec<TyId>, map: Option<&Vec<Option<u32>>>, set: &mut Vec<bool>)
    requires
        tcx.wf(),
        forall|j: int| 0 <= j < tys@.len() ==> tcx.valid_ty(#[trigger] tys@[j]),
        tcx.repr_tys(tys@, map_view(map), old(set)@.len() as int) is Some,
    ensures
        final(set)@.len() == old(set)@.len(),
        forall|i: int| 0 <= i < old(set)@.len() ==> #[trigger] final(set)@[i] == (old(set)@[i] || tcx.repr_tys(
            tys@,
            map_view(map),
            old(set)@.len() as int,
        ).unwrap().contains(i)),
{
    let ghost n = set@.len() as int;
    let len = tys.len();
    let mut k: usize = 0;
    proof {
        lemma_repr_tys_prefix(tcx, tys@, map_view(map), n, 0);
        assert(tcx.repr_tys(tys@.take(0), map_view(map), n).unwrap() =~= Set::empty());
    }
    while k < len
        invariant
            tcx.wf(),
            forall|j: int| 0 <= j < tys@.len() ==> tcx.valid_ty(#[trigger] tys@[j]),
            tcx.repr_tys(tys@, map_view(map), n) is Some,
            len == tys@.len(),
            k <= len,
            set@.len() == n,
            n == old(set)@.len(),
            tcx.repr_tys(tys@.take(k as int), map_view(map), n) is Some,
            forall|i: int| 0 <= i < n ==> #[trigger] set@[i] == (old(set)@[i] || tcx.repr_tys(
                tys@.take(k as int),
                map_view(map),
                n,
            ).unwrap().contains(i)),
        decreases len - k,
    {
        proof {
            lemma_repr_tys_prefix(tcx, tys@, map_view(map), n, k as int);
            lemma_repr_tys_prefix(tcx, tys@, map_view(map), n, k + 1);
        }
        params_in_repr_ty(tcx, tys[k], map, set);
        k = k + 1;
    }
    proof {
        assert(tys@.take(len as int) =~= tys@);
    }
}

/// The types of the fields `fields`.
fn field_types(tcx: &TyCtxt, fields: &Vec<DefId>) -> (tys: Vec<TyId>)
    requires
        forall|j: int| 0 <= j < fields@.len() ==> #[trigger] fields@[j] < tcx.defs@.len(),
    ensures
        tys@ == tcx.field_tys(fields@),
{
    let mut tys: Vec<TyId> = Vec::new();
    let n = fields.len();
    let mut k: usize = 0;
    while k < n
        invariant
            forall|j: int| 0 <= j < fields@.len() ==> #[trigger] fields@[j] < tcx.defs@.len(),
            n == fields@.len(),
            k <= n,
            tys@ == tcx.field_tys(fields@).subrange(0, k as int),
        decreases n - k,
    {
        tys.push(tcx.defs[fields[k]].type_of);
        proof {
            assert(tys@ =~= tcx.field_tys(fields@).subrange(0, k + 1));
        }
        k = k + 1;
    }
    proof {
        assert(tys@ =~= tcx.field_tys(fields@));
    }
    tys
}

/// The refined variants of `def` have scheme maps that fit in memory.
pub open spec fn schemes_fit(tcx: &TyCtxt, def: DefId) -> bool {
    forall|k: int| 0 <= k < tcx.defs@[def as int].variants@.len() ==> match tcx.defs@[(#[trigger] tcx.defs@[def as int].variants@[k]).def_id as int].scheme {
        VariantScheme::Refined(scheme) => scheme.binders.family@.len() + scheme.binders.local@.len() <= usize::MAX,
        _ => true,
    }
}

/// Which parameters of the ADT `def_id` its representation holds by value:
/// for a struct or union those its fields hold; for an enum those the fields
/// of its ordinary variants hold, and for a refined variant the family
/// parameters that the parameters its fields hold stand for.
pub fn params_in_repr(tcx: &TyCtxt, def_id: DefId) -> (set: Vec<bool>)
    requires
        tcx.wf(),
        tcx.repr_defs_ok(def_id),
        schemes_fit(tcx, def_id),
        tcx.spec_params_in_repr(def_id) is Some,
    ensures
        set@.len() == tcx.defs@[def_id as int].own_params@.len(),
        forall|i: int| 0 <= i < set@.len() ==> #[trigger] set@[i] == tcx.spec_params_in_repr(def_id).unwrap().contains(i),
{
    let data = &tcx.defs[def_id];
    let is_enum = data.kind == DefKind::Enum;
    let n = data.own_params.len();
    let mut set = vec![false; n];
    let nv = data.variants.len();
    proof {
        assert(tcx.variants_repr(def_id, 0).unwrap() =~= Set::empty());
    }
    let mut k: usize = 0;
    while k < nv
        invariant
            tcx.wf(),
            tcx.repr_defs_ok(def_id),
            schemes_fit(tcx, def_id),
            data == tcx.defs@[def_id as int],
            is_enum == (data.kind == DefKind::Enum),
            tcx.spec_params_in_repr(def_id) is Some,
            n == data.own_params@.len(),
            nv == data.variants@.len(),
            k <= nv,
            set@.len() == n,
            tcx.variants_repr(def_id, k as int) is Some,
            forall|i: int| 0 <= i < n ==> #[trigger] set@[i] == tcx.variants_repr(def_id, k as int).unwrap().contains(i),
        decreases nv - k,
    {
        proof {
            lemma_variants_prefix(tcx, def_id, k + 1, nv as int);
        }
        let variant = &data.variants[k];
        proof {
            assert(variant.def_id < tcx.defs@.len());
        }
        let ghost before = set@;
        if !is_enum {
            let tys = field_types(tcx, &variant.fields);
            params_in_repr_tys(tcx, &tys, None, &mut set);
        } else {
            match &tcx.defs[variant.def_id].scheme {
                VariantScheme::Ordinary => {
                    let tys = field_types(tcx, &variant.fields);
                    params_in_repr_tys(tcx, &tys, None, &mut set);
                },
                VariantScheme::Invalid => {},
                VariantScheme::Refined(scheme) => {
                    let map = scheme_param_to_family(tcx, def_id, scheme);
                    params_in_repr_tys(tcx, &scheme.fields, Some(&map), &mut set);
                },
            }
        }
        proof {
            assert forall|i: int| 0 <= i < n implies #[trigger] set@[i] == tcx.variants_repr(def_id, k + 1).unwrap().contains(i) by {
            }
        }
        k = k + 1;
    }
    set
}

/// A query of the representability check.
#[derive(Clone, Copy, PartialEq, Eq, Structural, Debug)]
pub enum ReprQuery {
    /// `check_representability(def)`: an ADT, or a field.
    Def(DefId),
    /// `check_representability_adt_ty(ty)`: an ADT type with its arguments.
    AdtTy(TyId),
}

impl TyCtxt {
    /// The ADT types that `check_representability_ty(t)` asks about: those
    /// held by value, through arrays and tuples.
    pub open spec fn ty_queries(&self, t: TyId) -> Seq<ReprQuery>
        decreases t + 1, 0int,
    {
        if t >= self.types@.len() {
            Seq::empty()
        } else {
            match self.types@[t as int] {
                TyKind::Adt(..) => seq![ReprQuery::AdtTy(t)],
                TyKind::Array(u, _) => if u < t {
                    self.ty_queries(u)
                } else {
                    Seq::empty()
                },
                TyKind::Tuple(l) => self.list_queries(l, t as int, 0),
                _ => Seq::empty(),
            }
        }
    }

    pub open spec fn list_queries(&self, l: usize, bound: int, k: int) -> Seq<ReprQuery>
        decreases bound, self.ty_lists@[l as int]@.len() - k,
    {
        if l >= self.ty_lists@.len() || k < 0 || k >= self.ty_lists@[l as int]@.len() {
            Seq::empty()
        } else {
            let u = self.ty_lists@[l as int]@[k];
            (if u < bound {
                self.ty_queries(u)
            } else {
                Seq::empty()
            }) + self.list_queries(l, bound, k + 1)
        }
    }

    /// The queries for the type arguments `k..` of `a` that the ADT `adt`
    /// holds in its representation.
    pub open spec fn arg_queries(&self, adt: DefId, a: usize, bound: int, k: int) -> Seq<ReprQuery>
        decreases bound, self.arg_lists@[a as int]@.len() - k,
    {
        if a >= self.arg_lists@.len() || k < 0 || k >= self.arg_lists@[a as int]@.len() {
            Seq::empty()
        } else {
            (match self.arg_lists@[a as int]@[k] {
                GenericArg::Type(u) => if self.param_in_repr(adt, k) && u < bound {
                    self.ty_queries(u)
                } else {
                    Seq::empty()
                },
                _ => Seq::empty(),
            }) + self.arg_queries(adt, a, bound, k + 1)
        }
    }

    /// The fields of the first `k` variants, in order.
    pub open spec fn variant_fields(&self, variants: Seq<crate::ty::VariantDef>, k: int) -> Seq<ReprQuery>
        decreases k,
    {
        if k <= 0 {
            Seq::empty()
        } else {
            let fields = variants[k - 1].fields@;
            self.variant_fields(variants, k - 1) + Seq::new(fields.len(), |i: int| ReprQuery::Def(fields[i]))
        }
    }

    /// The queries that query `q` asks, in order.
    pub open spec fn succs(&self, q: ReprQuery) -> Seq<ReprQuery> {
        match q {
            ReprQuery::Def(d) => if d >= self.defs@.len() {
                Seq::empty()
            } else {
                match self.defs@[d as int].kind {
                    DefKind::Struct | DefKind::Union | DefKind::Enum => self.variant_fields(
                        self.defs@[d as int].variants@,
                        self.defs@[d as int].variants@.len() as int,
                    ),
                    DefKind::Field => self.ty_queries(self.defs@[d as int].type_of),
                    _ => Seq::empty(),
                }
            },
            ReprQuery::AdtTy(t) => if t >= self.types@.len() {
                Seq::empty()
            } else {
                match self.types@[t as int] {
                    TyKind::Adt(adt, a) => (if adt < self.defs@.len() && self.defs@[adt as int].is_local {
                        seq![ReprQuery::Def(adt)]
                    } else {
                        Seq::empty()
                    }) + self.arg_queries(adt, a, t as int, 0),
                    _ => Seq::empty(),
                }
            },
        }
    }

    /// Query `q` runs without the compiler stopping on a bug: it is about an
    /// ADT or a field whose fields are local, or about an ADT type whose
    /// type arguments its `params_in_repr` covers.
    pub open spec fn query_ok(&self, q: ReprQuery) -> bool {
        match q {
            ReprQuery::Def(d) => d < self.defs@.len() && match self.defs@[d as int].kind {
                DefKind::Struct | DefKind::Union | DefKind::Enum => forall|k: int, j: int|
                    0 <= k < self.defs@[d as int].variants@.len() && 0 <= j
                        < self.defs@[d as int].variants@[k].fields@.len() ==> {
                        let f = #[trigger] self.defs@[d as int].variants@[k].fields@[j];
                        f < self.defs@.len() && self.defs@[f as int].is_local
                    },
                DefKind::Field => self.valid_ty(self.defs@[d as int].type_of),
                _ => false,
            },
            ReprQuery::AdtTy(t) => self.valid_ty(t) && match self.types@[t as int] {
                TyKind::Adt(adt, a) => adt < self.defs@.len() && forall|k: int|
                    0 <= k < self.arg_lists@[a as int]@.len() && (#[trigger] self.arg_lists@[a as int]@[k]) is Type
                        ==> k < self.defs@[adt as int].params_in_repr@.len(),
                _ => false,
            },
        }
    }
}

/// Each query of `p` asks the next.
pub open spec fn is_path(tcx: &TyCtxt, p: Seq<ReprQuery>) -> bool {
    forall|i: int| 0 <= i < p.len() - 1 ==> tcx.succs(#[trigger] p[i]).contains(p[i + 1])
}

/// Query `q` is asked, directly or not, by `start`.
pub open spec fn reachable(tcx: &TyCtxt, start: ReprQuery, q: ReprQuery) -> bool {
    exists|p: Seq<ReprQuery>| #[trigger] is_path(tcx, p) && p.len() > 0 && p[0] == start && p.last() == q
}

/// Some query that `start` asks, directly or not, asks itself again: a
/// query cycle, which means an infinitely sized type.
pub open spec fn has_cycle_from(tcx: &TyCtxt, start: ReprQuery) -> bool {
    exists|p: Seq<ReprQuery>, i: int|
        #![trigger is_path(tcx, p), p[i]]
        is_path(tcx, p) && p.len() > 0 && p[0] == start && 0 <= i < p.len() && tcx.succs(p.last()).contains(
            p[i],
        )
}

pub open spec fn valid_query(tcx: &TyCtxt, q: ReprQuery) -> bool {
    match q {
        ReprQuery::Def(d) => d < tcx.defs@.len(),
        ReprQuery::AdtTy(t) => t < tcx.types@.len(),
    }
}

pub open spec fn all_valid(tcx: &TyCtxt, s: Seq<ReprQuery>) -> bool {
    forall|i: int| 0 <= i < s.len() ==> valid_query(tcx, #[trigger] s[i])
}

/// `check_representability_ty`: appends the ADT types that `t` holds by
/// value, through arrays and tuples, to the queries in `out`.
pub fn check_representability_ty(tcx: &TyCtxt, t: TyId, out: &mut Vec<ReprQuery>)
    requires
        tcx.wf(),
        tcx.valid_ty(t),
        all_valid(tcx, old(out)@),
    ensures
        final(out)@ == old(out)@ + tcx.ty_queries(t),
        all_valid(tcx, final(out)@),
    decreases t + 1, 0int,
{
    proof {
        assert(tcx.kind_below(tcx.types@[t as int], t as int));
    }
    match tcx.types[t] {
        TyKind::Adt(..) => {
            out.push(ReprQuery::AdtTy(t));
        },
        TyKind::Array(u, _) => check_representability_ty(tcx, u, out),
        TyKind::Tuple(l) => {
            let n = tcx.ty_lists[l].len();
            let mut k: usize = 0;
            while k < n
                invariant
                    tcx.wf(),
                    tcx.list_below(l, t as int),
                    t < tcx.types@.len(),
                    n == tcx.ty_lists@[l as int]@.len(),
                    k <= n,
                    all_valid(tcx, out@),
                    old(out)@ + tcx.list_queries(l, t as int, 0) == out@ + tcx.list_queries(l, t as int, k as int),
                decreases n - k,
            {
                let ghost before = out@;
                check_representability_ty(tcx, tcx.ty_lists[l][k], out);
                proof {
                    assert(before + tcx.list_queries(l, t as int, k as int) =~= out@ + tcx.list_queries(l, t as int, k + 1));
                }
                k = k + 1;
            }
            proof {
                assert(out@ + tcx.list_queries(l, t as int, k as int) =~= out@);
            }
        },
        _ => {},
    }
}

/// `check_representability_adt_ty`: the queries that checking the ADT type
/// `t` asks: its definition, where it is local, and the ADT types that the
/// arguments its representation holds hold by value.
pub fn check_representability_adt_ty(tcx: &TyCtxt, t: TyId) -> (queries: Vec<ReprQuery>)
    requires
        tcx.wf(),
        tcx.query_ok(ReprQuery::AdtTy(t)),
    ensures
        queries@ == tcx.succs(ReprQuery::AdtTy(t)),
        all_valid(tcx, queries@),
{
    let mut out: Vec<ReprQuery> = Vec::new();
    proof {
        assert(tcx.kind_below(tcx.types@[t as int], t as int));
    }
    if let TyKind::Adt(adt, a) = tcx.types[t] {
        if tcx.defs[adt].is_local {
            out.push(ReprQuery::Def(adt));
        }
        let ghost base = out@;
        let inner = &tcx.defs[adt].params_in_repr;
        let n = tcx.arg_lists[a].len();
        let mut k: usize = 0;
        while k < n
            invariant
                tcx.wf(),
                tcx.query_ok(ReprQuery::AdtTy(t)),
                tcx.types@[t as int] == TyKind::Adt(adt, a),
                tcx.args_below(a, t as int),
                t < tcx.types@.len(),
                adt < tcx.defs@.len(),
                inner == tcx.defs@[adt as int].params_in_repr,
                n == tcx.arg_lists@[a as int]@.len(),
                k <= n,
                all_valid(tcx, out@),
                base + tcx.arg_queries(adt, a, t as int, 0) == out@ + tcx.arg_queries(adt, a, t as int, k as int),
            decreases n - k,
        {
            proof {
                assert(crate::ty::args_below_in(tcx.arg_lists@, a, t as int));
                assert(match tcx.arg_lists@[a as int]@[k as int] {
                    GenericArg::Type(u) => u < t,
                    GenericArg::Const(crate::ty::Const::Alias(b)) => b < a && crate::ty::args_below_in(tcx.arg_lists@, b, t as int),
                    _ => true,
                });
            }
            let ghost before = out@;
            if let GenericArg::Type(u) = tcx.arg_lists[a][k] {
                if inner[k] {
                    check_representability_ty(tcx, u, &mut out);
                }
            }
            proof {
                assert(before + tcx.arg_queries(adt, a, t as int, k as int) =~= out@ + tcx.arg_queries(adt, a, t as int, k + 1));
            }
            k = k + 1;
        }
        proof {
            assert(out@ + tcx.arg_queries(adt, a, t as int, k as int) =~= out@);
        }
    }
    out
}

/// The queries that checking the definition `d` asks: each field of an ADT,
/// or the ADT types that a field's type holds by value.
pub fn check_representability_def(tcx: &TyCtxt, d: DefId) -> (queries: Vec<ReprQuery>)
    requires
        tcx.wf(),
        tcx.query_ok(ReprQuery::Def(d)),
    ensures
        queries@ == tcx.succs(ReprQuery::Def(d)),
        all_valid(tcx, queries@),
{
    let mut out: Vec<ReprQuery> = Vec::new();
    let data = &tcx.defs[d];
    match data.kind {
        DefKind::Struct | DefKind::Union | DefKind::Enum => {
            let nv = data.variants.len();
            let mut k: usize = 0;
            while k < nv
                invariant
                    tcx.query_ok(ReprQuery::Def(d)),
                    data == tcx.defs@[d as int],
                    data.kind == DefKind::Struct || data.kind == DefKind::Union || data.kind == DefKind::Enum,
                    nv == data.variants@.len(),
                    k <= nv,
                    all_valid(tcx, out@),
                    out@ == tcx.variant_fields(data.variants@, k as int),
                decreases nv - k,
            {
                let fields = &data.variants[k].fields;
                let ghost before = out@;
                let nf = fields.len();
                let mut j: usize = 0;
                while j < nf
                    invariant
                        tcx.query_ok(ReprQuery::Def(d)),
                        data == tcx.defs@[d as int],
                        data.kind == DefKind::Struct || data.kind == DefKind::Union || data.kind == DefKind::Enum,
                        k < nv,
                        nv == data.variants@.len(),
                        fields == data.variants@[k as int].fields,
                        nf == fields@.len(),
                        j <= nf,
                        all_valid(tcx, out@),
                        out@ == before + Seq::new(j as nat, |i: int| ReprQuery::Def(fields@[i])),
                    decreases nf - j,
                {
                    proof {
                        let f = tcx.defs@[d as int].variants@[k as int].fields@[j as int];
                        assert(f < tcx.defs@.len());
                    }
                    out.push(ReprQuery::Def(fields[j]));
                    proof {
                        assert(out@ =~= before + Seq::new((j + 1) as nat, |i: int| ReprQuery::Def(fields@[i])));
                    }
                    j = j + 1;
                }
                k = k + 1;
            }
        },
        DefKind::Field => {
            check_representability_ty(tcx, data.type_of, &mut out);
            proof {
                assert(out@ =~= tcx.ty_queries(data.type_of));
            }
        },
        _ => {},
    }
    out
}

/// The queries that query `q` asks.
pub fn queries_of(tcx: &TyCtxt, q: ReprQuery) -> (queries: Vec<ReprQuery>)
    requires
        tcx.wf(),
        tcx.query_ok(q),
    ensures
        queries@ == tcx.succs(q),
        all_valid(tcx, queries@),
{
    match q {
        ReprQuery::Def(d) => check_representability_def(tcx, d),
        ReprQuery::AdtTy(t) => check_representability_adt_ty(tcx, t),
    }
}

/// The number of zeros in `s`.
pub open spec fn zero_count(s: Seq<u8>) -> nat
    decreases s.len(),
{
    if s.len() == 0 {
        0
    } else {
        zero_count(s.drop_last()) + if s.last() == 0 {
            1nat
        } else {
            0nat
        }
    }
}

pub proof fn lemma_zero_update(s: Seq<u8>, i: int, v: u8)
    requires
        0 <= i < s.len(),
        v != 0,
    ensures
        zero_count(s.update(i, v)) == zero_count(s) - if s[i] == 0 {
            1int
        } else {
            0int
        },
        s[i] == 0 ==> zero_count(s) >= 1,
    decreases s.len(),
{
    let s2 = s.update(i, v);
    if i == s.len() - 1 {
        assert(s2.drop_last() =~= s.drop_last());
    } else {
        assert(s2.drop_last() =~= s.drop_last().update(i, v));
        lemma_zero_update(s.drop_last(), i, v);
    }
}

/// For each query: not asked yet (0), being answered (1) or answered (2);
/// and the ranks of the answered queries.
pub struct ReprState {
    pub def_status: Vec<u8>,
    pub ty_status: Vec<u8>,
    /// The queries being answered, outermost first.
    pub stack: Ghost<Seq<ReprQuery>>,
    /// For each answered query, when its answer was finished.
    pub rank: Ghost<Map<ReprQuery, nat>>,
    pub clock: Ghost<nat>,
}

impl ReprState {
    pub open spec fn status(&self, q: ReprQuery) -> u8 {
        match q {
            ReprQuery::Def(d) => self.def_status@[d as int],
            ReprQuery::AdtTy(t) => self.ty_status@[t as int],
        }
    }

    pub open spec fn in_range(&self, q: ReprQuery) -> bool {
        match q {
            ReprQuery::Def(d) => d < self.def_status@.len(),
            ReprQuery::AdtTy(t) => t < self.ty_status@.len(),
        }
    }

    pub open spec fn zeros(&self) -> nat {
        zero_count(self.def_status@) + zero_count(self.ty_status@)
    }

    /// An answered query asks only answered queries, each finished before it.
    pub open spec fn done_ok(&self, tcx: &TyCtxt, q: ReprQuery) -> bool {
        &&& self.rank@.dom().contains(q)
        &&& self.rank@[q] < self.clock@
        &&& all_valid(tcx, tcx.succs(q))
        &&& forall|j: int| 0 <= j < tcx.succs(q).len() ==> {
            let c = #[trigger] tcx.succs(q)[j];
            &&& self.status(c) == 2
            &&& self.rank@[c] < self.rank@[q]
        }
    }

    pub open spec fn inv(&self, tcx: &TyCtxt, start: ReprQuery) -> bool {
        &&& self.def_status@.len() == tcx.defs@.len()
        &&& self.ty_status@.len() == tcx.types@.len()
        &&& is_path(tcx, self.stack@)
        &&& self.stack@.len() > 0 ==> self.stack@[0] == start
        &&& all_valid(tcx, self.stack@)
        &&& forall|q: ReprQuery| valid_query(tcx, q) ==> (#[trigger] self.status(q) == 1 <==> self.stack@.contains(q))
        &&& forall|q: ReprQuery| valid_query(tcx, q) ==> #[trigger] self.status(q) <= 2
        &&& forall|q: ReprQuery| valid_query(tcx, q) && #[trigger] self.status(q) == 2 ==> self.done_ok(tcx, q)
    }

    /// What `after` kept of `self`: answered queries stay answered, with the
    /// same rank; queries being answered stay so.
    pub open spec fn kept(&self, tcx: &TyCtxt, after: &ReprState) -> bool {
        &&& forall|q: ReprQuery| valid_query(tcx, q) && #[trigger] self.status(q) == 2 ==> after.status(q) == 2
            && after.rank@[q] == self.rank@[q]
        &&& forall|q: ReprQuery| valid_query(tcx, q) && #[trigger] self.status(q) == 1 ==> after.status(q) == 1
        &&& after.zeros() <= self.zeros()
        &&& after.clock@ >= self.clock@
    }

    fn get(&self, q: ReprQuery) -> (status: u8)
        requires
            match q {
                ReprQuery::Def(d) => d < self.def_status@.len(),
                ReprQuery::AdtTy(t) => t < self.ty_status@.len(),
            },
        ensures
            status == self.status(q),
    {
        match q {
            ReprQuery::Def(d) => self.def_status[d],
            ReprQuery::AdtTy(t) => self.ty_status[t],
        }
    }

    fn set(&mut self, q: ReprQuery, v: u8)
        requires
            match q {
                ReprQuery::Def(d) => d < old(self).def_status@.len(),
                ReprQuery::AdtTy(t) => t < old(self).ty_status@.len(),
            },
            v != 0,
        ensures
            final(self).def_status@.len() == old(self).def_status@.len(),
            final(self).ty_status@.len() == old(self).ty_status@.len(),
            final(self).status(q) == v,
            forall|q2: ReprQuery| q2 != q && old(self).in_range(q2) ==> #[trigger] final(self).status(q2) == old(self).status(q2),
            final(self).stack == old(self).stack,
            final(self).rank == old(self).rank,
            final(self).clock == old(self).clock,
            final(self).zeros() == old(self).zeros() - if old(self).status(q) == 0 {
                1int
            } else {
                0int
            },
    {
        match q {
            ReprQuery::Def(d) => {
                proof {
                    lemma_zero_update(self.def_status@, d as int, v);
                }
                self.def_status.set(d, v);
            },
            ReprQuery::AdtTy(t) => {
                proof {
                    lemma_zero_update(self.ty_status@, t as int, v);
                }
                self.ty_status.set(t, v);
            },
        }
    }
}

/// Each query of `p` but the last asks the next; `p` extended by a query
/// that its last one asks is a path too.
pub proof fn lemma_path_push(tcx: &TyCtxt, p: Seq<ReprQuery>, c: ReprQuery)
    requires
        is_path(tcx, p),
        p.len() > 0,
        tcx.succs(p.last()).contains(c),
    ensures
        is_path(tcx, p.push(c)),
{
    let p2 = p.push(c);
    assert forall|i: int| 0 <= i < p2.len() - 1 implies tcx.succs(#[trigger] p2[i]).contains(p2[i + 1]) by {
        if i < p.len() - 1 {
            assert(p2[i] == p[i] && p2[i + 1] == p[i + 1]);
        } else {
            assert(p2[i] == p.last() && p2[i + 1] == c);
        }
    }
}

pub proof fn lemma_path_pop(tcx: &TyCtxt, p: Seq<ReprQuery>)
    requires
        is_path(tcx, p),
        p.len() > 0,
    ensures
        is_path(tcx, p.drop_last()),
{
    let p2 = p.drop_last();
    assert forall|i: int| 0 <= i < p2.len() - 1 implies tcx.succs(#[trigger] p2[i]).contains(p2[i + 1]) by {
        assert(p2[i] == p[i] && p2[i + 1] == p[i + 1]);
    }
}

impl ReprState {
    /// `after` is `self` but for the status of `q`.
    pub open spec fn same_but(&self, tcx: &TyCtxt, after: &ReprState, q: ReprQuery) -> bool {
        &&& after.def_status@.len() == self.def_status@.len()
        &&& after.ty_status@.len() == self.ty_status@.len()
        &&& forall|q2: ReprQuery| q2 != q && valid_query(tcx, q2) ==> #[trigger] after.status(q2) == self.status(q2)
    }

    /// Marking a new query `q` as being answered, on top of the stack, keeps
    /// the invariant.
    pub proof fn lemma_mark(&self, tcx: &TyCtxt, start: ReprQuery, after: &ReprState, q: ReprQuery)
        requires
            self.inv(tcx, start),
            valid_query(tcx, q),
            self.status(q) == 0,
            self.same_but(tcx, after, q),
            after.status(q) == 1,
            after.stack@ == self.stack@.push(q),
            is_path(tcx, after.stack@),
            after.stack@[0] == start,
            after.rank == self.rank,
            after.clock == self.clock,
        ensures
            after.inv(tcx, start),
    {
        assert forall|x: ReprQuery| valid_query(tcx, x) implies (#[trigger] after.status(x) == 1 <==> after.stack@.contains(x)) by {
            if x == q {
                assert(after.stack@[after.stack@.len() - 1] == q);
            } else {
                assert(after.status(x) == self.status(x));
                if after.stack@.contains(x) {
                    let i = choose|i: int| 0 <= i < after.stack@.len() && after.stack@[i] == x;
                    assert(self.stack@[i] == x);
                }
                if self.stack@.contains(x) {
                    let i = choose|i: int| 0 <= i < self.stack@.len() && self.stack@[i] == x;
                    assert(after.stack@[i] == x);
                }
            }
        }
        assert forall|x: ReprQuery| valid_query(tcx, x) implies #[trigger] after.status(x) <= 2 by {
            if x != q {
                assert(after.status(x) == self.status(x));
            }
        }
        assert forall|x: ReprQuery| valid_query(tcx, x) && #[trigger] after.status(x) == 2 implies after.done_ok(tcx, x) by {
            assert(after.status(x) == self.status(x));
            assert(self.done_ok(tcx, x));
            assert forall|j: int| 0 <= j < tcx.succs(x).len() implies {
                let c = #[trigger] tcx.succs(x)[j];
                &&& after.status(c) == 2
                &&& after.rank@[c] < after.rank@[x]
            } by {
                let c = tcx.succs(x)[j];
                assert(self.status(c) == 2);
                assert(valid_query(tcx, c));
                assert(after.status(c) == self.status(c));
            }
        }
        assert forall|i: int| 0 <= i < after.stack@.len() implies valid_query(tcx, #[trigger] after.stack@[i]) by {
            if i < self.stack@.len() {
                assert(after.stack@[i] == self.stack@[i]);
            }
        }
    }

    /// Finishing the query `q` on top of the stack, once every query it asks
    /// is answered, keeps the invariant.
    pub proof fn lemma_finish(&self, tcx: &TyCtxt, start: ReprQuery, after: &ReprState, q: ReprQuery)
        requires
            self.inv(tcx, start),
            valid_query(tcx, q),
            self.status(q) == 1,
            self.stack@.len() > 0,
            self.stack@.last() == q,
            !self.stack@.drop_last().contains(q),
            all_valid(tcx, tcx.succs(q)),
            forall|k: int| 0 <= k < tcx.succs(q).len() ==> #[trigger] self.status(tcx.succs(q)[k]) == 2
                && self.rank@[tcx.succs(q)[k]] < self.clock@,
            self.same_but(tcx, after, q),
            after.status(q) == 2,
            after.stack@ == self.stack@.drop_last(),
            after.rank@ == self.rank@.insert(q, self.clock@),
            after.clock@ == self.clock@ + 1,
        ensures
            after.inv(tcx, start),
    {
        lemma_path_pop(tcx, self.stack@);
        let outer = after.stack@;
        assert forall|k: int| 0 <= k < tcx.succs(q).len() implies {
            let c = #[trigger] tcx.succs(q)[k];
            &&& after.status(c) == 2
            &&& after.rank@[c] < after.rank@[q]
        } by {
            let c = tcx.succs(q)[k];
            assert(self.status(c) == 2);
            assert(valid_query(tcx, c));
            assert(c != q);
            assert(after.status(c) == self.status(c));
        }
        assert(after.done_ok(tcx, q));
        assert forall|x: ReprQuery| valid_query(tcx, x) implies (#[trigger] after.status(x) == 1 <==> after.stack@.contains(x)) by {
            if x != q {
                assert(after.status(x) == self.status(x));
                if self.stack@.contains(x) {
                    let i = choose|i: int| 0 <= i < self.stack@.len() && self.stack@[i] == x;
                    assert(i < outer.len());
                    assert(outer[i] == x);
                }
                if outer.contains(x) {
                    let i = choose|i: int| 0 <= i < outer.len() && outer[i] == x;
                    assert(self.stack@[i] == x);
                }
            }
        }
        assert forall|x: ReprQuery| valid_query(tcx, x) implies #[trigger] after.status(x) <= 2 by {
            if x != q {
                assert(after.status(x) == self.status(x));
            }
        }
        assert forall|x: ReprQuery| valid_query(tcx, x) && #[trigger] after.status(x) == 2 implies after.done_ok(tcx, x) by {
            if x != q {
                assert(after.status(x) == self.status(x));
                assert(self.done_ok(tcx, x));
                assert forall|k: int| 0 <= k < tcx.succs(x).len() implies {
                    let c = #[trigger] tcx.succs(x)[k];
                    &&& after.status(c) == 2
                    &&& after.rank@[c] < after.rank@[x]
                } by {
                    let c = tcx.succs(x)[k];
                    assert(self.status(c) == 2);
                    assert(valid_query(tcx, c));
                    assert(c != q);
                    assert(after.status(c) == self.status(c));
                }
            }
        }
        assert forall|i: int| 0 <= i < outer.len() implies valid_query(tcx, #[trigger] outer[i]) by {
            assert(self.stack@[i] == outer[i]);
        }
    }
}

/// Answers query `q` and, first, every query it asks that has no answer yet;
/// `Err` where a query it asks, directly or not, is being answered already.
#[verifier::rlimit(30)]
#[verifier::spinoff_prover]
fn visit_query(tcx: &TyCtxt, start: ReprQuery, q: ReprQuery, st: &mut ReprState, fuel: Ghost<nat>) -> (r: Result<(), ()>)
    requires
        fuel@ >= old(st).zeros(),
        tcx.wf(),
        forall|x: ReprQuery| #[trigger] reachable(tcx, start, x) ==> tcx.query_ok(x),
        old(st).inv(tcx, start),
        valid_query(tcx, q),
        old(st).status(q) == 0,
        is_path(tcx, old(st).stack@.push(q)),
        old(st).stack@.push(q)[0] == start,
    ensures
        r is Ok ==> final(st).inv(tcx, start) && final(st).status(q) == 2 && final(st).stack@ == old(st).stack@
            && old(st).kept(tcx, &*final(st)),
        r is Err ==> has_cycle_from(tcx, start),
    decreases fuel@,
{
    let ghost entry = *st;
    let ghost outer = st.stack@;
    let ghost path = outer.push(q);
    proof {
        assert(path.last() == q);
        assert(reachable(tcx, start, q));
        assert(!outer.contains(q));
        assert(path.drop_last() =~= outer);
    }
    let children = queries_of(tcx, q);
    proof {
        st.stack@ = path;
    }
    let ghost pre = *st;
    st.set(q, 1);
    proof {
        assert forall|q2: ReprQuery| q2 != q && valid_query(tcx, q2) implies #[trigger] st.status(q2) == entry.status(q2) by {
            assert(pre.in_range(q2));
            assert(pre.status(q2) == entry.status(q2));
        }
        assert(pre.zeros() == entry.zeros());
        entry.lemma_mark(tcx, start, &*st, q);
    }
    let ghost marked = *st;
    let n = children.len();
    let mut j: usize = 0;
    while j < n
        invariant
            tcx.wf(),
            forall|x: ReprQuery| #[trigger] reachable(tcx, start, x) ==> tcx.query_ok(x),
            children@ == tcx.succs(q),
            all_valid(tcx, children@),
            n == children@.len(),
            j <= n,
            valid_query(tcx, q),
            st.inv(tcx, start),
            st.stack@ == path,
            path == outer.push(q),
            path.drop_last() == outer,
            !outer.contains(q),
            is_path(tcx, path),
            path[0] == start,
            st.status(q) == 1,
            marked.kept(tcx, &*st),
            marked.zeros() < entry.zeros(),
            fuel@ >= entry.zeros(),
            entry.kept(tcx, &marked),
            forall|k: int| 0 <= k < j ==> #[trigger] st.status(children@[k]) == 2 && st.rank@[children@[k]] < st.clock@,
        decreases n - j,
    {
        let c = children[j];
        proof {
            assert(valid_query(tcx, c));
            assert(tcx.succs(q)[j as int] == c);
        }
        let status = st.get(c);
        if status == 1 {
            proof {
                assert(st.stack@.contains(c));
                let i = choose|i: int| 0 <= i < path.len() && path[i] == c;
                assert(tcx.succs(path.last()).contains(path[i]));
                assert(has_cycle_from(tcx, start));
            }
            return Err(());
        }
        let ghost before = *st;
        if status == 0 {
            proof {
                lemma_path_push(tcx, path, c);
                assert(marked.kept(tcx, &*st));
                assert(st.zeros() <= marked.zeros());
                assert(st.zeros() < entry.zeros());
            }
            let r = visit_query(tcx, start, c, st, Ghost((fuel@ - 1) as nat));
            if r.is_err() {
                return Err(());
            }
            proof {
                assert(before.kept(tcx, &*st));
                assert(st.status(c) == 2);
                assert(marked.kept(tcx, &*st)) by {
                    assert forall|x: ReprQuery| valid_query(tcx, x) && #[trigger] marked.status(x) == 2 implies st.status(x) == 2
                        && st.rank@[x] == marked.rank@[x] by {
                        assert(before.status(x) == 2);
                    }
                    assert forall|x: ReprQuery| valid_query(tcx, x) && #[trigger] marked.status(x) == 1 implies st.status(x) == 1 by {
                        assert(before.status(x) == 1);
                    }
                }
                assert(st.status(q) == 1) by {
                    assert(before.status(q) == 1);
                }
            }
        } else {
            proof {
                assert(st.status(c) <= 2);
                assert(st.status(c) == 2);
            }
        }
        proof {
            assert(st.done_ok(tcx, c));
            assert(st.status(children@[j as int]) == 2);
            assert(st.rank@[children@[j as int]] < st.clock@);
            assert forall|k: int| 0 <= k < j + 1 implies #[trigger] st.status(children@[k]) == 2 && st.rank@[children@[k]] < st.clock@ by {
                if k < j {
                    assert(before.status(children@[k]) == 2);
                    assert(before.rank@[children@[k]] < before.clock@);
                    assert(valid_query(tcx, children@[k]));
                    assert(st.rank@[children@[k]] == before.rank@[children@[k]]);
                }
            }
        }
        j = j + 1;
    }
    let ghost before_done = *st;
    proof {
        let clock = st.clock@;
        st.rank@ = st.rank@.insert(q, clock);
        st.clock@ = clock + 1;
        st.stack@ = outer;
    }
    let ghost pre_done = *st;
    st.set(q, 2);
    proof {
        assert forall|q2: ReprQuery| q2 != q && valid_query(tcx, q2) implies #[trigger] st.status(q2) == before_done.status(q2) by {
            assert(pre_done.in_range(q2));
            assert(pre_done.status(q2) == before_done.status(q2));
        }
        assert(pre_done.zeros() == before_done.zeros());
        before_done.lemma_finish(tcx, start, &*st, q);
        assert forall|x: ReprQuery| valid_query(tcx, x) && #[trigger] entry.status(x) == 2 implies st.status(x) == 2
            && st.rank@[x] == entry.rank@[x] by {
            assert(marked.status(x) == 2);
            assert(before_done.status(x) == 2);
        }
        assert forall|x: ReprQuery| valid_query(tcx, x) && #[trigger] entry.status(x) == 1 implies st.status(x) == 1 by {
            assert(marked.status(x) == 1);
            assert(before_done.status(x) == 1);
            assert(x != q);
        }
    }
    Ok(())
}

impl ReprState {
    /// Along a path from an answered query, every query is answered and the
    /// ranks fall by at least one per step.
    pub proof fn lemma_ranks_fall(&self, tcx: &TyCtxt, start: ReprQuery, p: Seq<ReprQuery>, k: int)
        requires
            self.inv(tcx, start),
            is_path(tcx, p),
            p.len() > 0,
            valid_query(tcx, p[0]),
            self.status(p[0]) == 2,
            0 <= k < p.len(),
        ensures
            valid_query(tcx, p[k]),
            self.status(p[k]) == 2,
            self.rank@[p[k]] + k <= self.rank@[p[0]],
        decreases k,
    {
        if k > 0 {
            self.lemma_ranks_fall(tcx, start, p, k - 1);
            assert(tcx.succs(p[k - 1]).contains(p[k]));
            assert(self.done_ok(tcx, p[k - 1]));
            let j = choose|j: int| 0 <= j < tcx.succs(p[k - 1]).len() && #[trigger] tcx.succs(p[k - 1])[j] == p[k];
            assert(valid_query(tcx, tcx.succs(p[k - 1])[j]));
        }
    }

    /// Where `start` is answered, no query cycle is reachable from it.
    pub proof fn lemma_no_cycle(&self, tcx: &TyCtxt, start: ReprQuery)
        requires
            self.inv(tcx, start),
            valid_query(tcx, start),
            self.status(start) == 2,
        ensures
            !has_cycle_from(tcx, start),
    {
        if has_cycle_from(tcx, start) {
            let (p, i) = choose|p: Seq<ReprQuery>, i: int|
                #![trigger is_path(tcx, p), p[i]]
                is_path(tcx, p) && p.len() > 0 && p[0] == start && 0 <= i < p.len() && tcx.succs(p.last()).contains(p[i]);
            let m = p.len() - 1;
            self.lemma_ranks_fall(tcx, start, p, m);
            // The ranks fall along the path from `p[i]` to its end.
            let q = p.subrange(i, p.len() as int);
            assert(is_path(tcx, q)) by {
                assert forall|k: int| 0 <= k < q.len() - 1 implies tcx.succs(#[trigger] q[k]).contains(q[k + 1]) by {
                    assert(q[k] == p[i + k] && q[k + 1] == p[i + k + 1]);
                }
            }
            self.lemma_ranks_fall(tcx, start, p, i);
            self.lemma_ranks_fall(tcx, start, q, q.len() - 1);
            assert(q.last() == p.last());
            assert(self.done_ok(tcx, p[m]));
            let j = choose|j: int| 0 <= j < tcx.succs(p[m]).len() && #[trigger] tcx.succs(p[m])[j] == p[i];
            assert(self.rank@[tcx.succs(p[m])[j]] < self.rank@[p[m]]);
        }
    }
}

/// Whether every ADT reachable by value from a definition has a finite size.
#[derive(Clone, Copy, PartialEq, Eq, Structural, Debug)]
pub enum Representability {
    Representable,
    /// A query cycle: some type holds itself by value.
    Infinite,
}

/// Checks that the ADT or field `def_id` is representable: that answering
/// its representability query, and every query that query asks, never asks
/// a query that is being answered.
pub fn check_representability(tcx: &TyCtxt, def_id: DefId) -> (r: Representability)
    requires
        tcx.wf(),
        def_id < tcx.defs@.len(),
        forall|x: ReprQuery| #[trigger] reachable(tcx, ReprQuery::Def(def_id), x) ==> tcx.query_ok(x),
    ensures
        r == Representability::Representable <==> !has_cycle_from(tcx, ReprQuery::Def(def_id)),
{
    let start = ReprQuery::Def(def_id);
    let mut st = ReprState {
        def_status: vec![0u8; tcx.defs.len()],
        ty_status: vec![0u8; tcx.types.len()],
        stack: Ghost(Seq::empty()),
        rank: Ghost(Map::empty()),
        clock: Ghost(0),
    };
    proof {
        assert(st.inv(tcx, start));
        assert(st.stack@.push(start) =~= seq![start]);
        assert(is_path(tcx, st.stack@.push(start)));
    }
    let ghost fuel = st.zeros();
    match visit_query(tcx, start, start, &mut st, Ghost(fuel)) {
        Ok(()) => {
            proof {
                st.lemma_no_cycle(tcx, start);
            }
            Representability::Representable
        },
        Err(()) => Representability::Infinite,
    }
}

impl TyCtxt {
    /// The types `k..` of list `l` hold, between them, exactly the parameters
    /// that one of them holds; and the list has an answer exactly when each
    /// of them has.
    pub proof fn lemma_repr_list_elems(&self, l: usize, bound: int, map: Option<Seq<Option<u32>>>, n: int, k: int)
        requires
            self.list_below(l, bound),
            0 <= k,
        ensures
            self.repr_list(l, bound, map, n, k) is Some <==> forall|j: int|
                k <= j < self.ty_lists@[l as int]@.len() ==> #[trigger] self.repr_ty(self.ty_lists@[l as int]@[j], map, n) is Some,
            self.repr_list(l, bound, map, n, k) is Some ==> forall|i: int|
                #[trigger] self.repr_list(l, bound, map, n, k).unwrap().contains(i) <==> exists|j: int|
                    k <= j < self.ty_lists@[l as int]@.len() && #[trigger] self.repr_ty(self.ty_lists@[l as int]@[j], map, n).unwrap().contains(i),
        decreases self.ty_lists@[l as int]@.len() - k,
    {
        let len = self.ty_lists@[l as int]@.len();
        if k < len {
            self.lemma_repr_list_elems(l, bound, map, n, k + 1);
            let u = self.ty_lists@[l as int]@[k];
            assert(u < bound);
            let rest = self.repr_list(l, bound, map, n, k + 1);
            if self.repr_list(l, bound, map, n, k) is Some {
                assert forall|i: int|
                    #[trigger] self.repr_list(l, bound, map, n, k).unwrap().contains(i) <==> exists|j: int|
                        k <= j < len && #[trigger] self.repr_ty(self.ty_lists@[l as int]@[j], map, n).unwrap().contains(i) by {
                    if self.repr_ty(u, map, n).unwrap().contains(i) {
                        assert(self.repr_ty(self.ty_lists@[l as int]@[k], map, n).unwrap().contains(i));
                    }
                    if rest.unwrap().contains(i) {
                        let j = choose|j: int|
                            k + 1 <= j < len && #[trigger] self.repr_ty(self.ty_lists@[l as int]@[j], map, n).unwrap().contains(i);
                    }
                    if exists|j: int| k <= j < len && #[trigger] self.repr_ty(self.ty_lists@[l as int]@[j], map, n).unwrap().contains(i) {
                        let j = choose|j: int| k <= j < len && #[trigger] self.repr_ty(self.ty_lists@[l as int]@[j], map, n).unwrap().contains(i);
                        if j > k {
                            assert(rest.unwrap().contains(i));
                        }
                    }
                }
            }
            if forall|j: int| k <= j < len ==> #[trigger] self.repr_ty(self.ty_lists@[l as int]@[j], map, n) is Some {
                assert(self.repr_ty(self.ty_lists@[l as int]@[k], map, n) is Some);
                assert forall|j: int| k + 1 <= j < len implies #[trigger] self.repr_ty(self.ty_lists@[l as int]@[j], map, n) is Some by {
                }
            }
        }
    }

    /// The queries that the types `k..` of list `l` ask are exactly those that
    /// one of them asks.
    pub proof fn lemma_list_queries_elems(&self, l: usize, bound: int, k: int)
        requires
            self.list_below(l, bound),
            0 <= k,
        ensures
            forall|q: ReprQuery|
                #[trigger] self.list_queries(l, bound, k).contains(q) <==> exists|j: int|
                    k <= j < self.ty_lists@[l as int]@.len() && #[trigger] self.ty_queries(self.ty_lists@[l as int]@[j]).contains(q),
        decreases self.ty_lists@[l as int]@.len() - k,
    {
        let len = self.ty_lists@[l as int]@.len();
        if k < len {
            self.lemma_list_queries_elems(l, bound, k + 1);
            let u = self.ty_lists@[l as int]@[k];
            assert(u < bound);
            let head = self.ty_queries(u);
            let rest = self.list_queries(l, bound, k + 1);
            assert(self.list_queries(l, bound, k) == head + rest);
            assert forall|q: ReprQuery|
                #[trigger] self.list_queries(l, bound, k).contains(q) <==> exists|j: int|
                    k <= j < len && #[trigger] self.ty_queries(self.ty_lists@[l as int]@[j]).contains(q) by {
                if (head + rest).contains(q) {
                    let x = choose|x: int| 0 <= x < (head + rest).len() && (head + rest)[x] == q;
                    if x < head.len() {
                        assert(head[x] == q);
                        assert(self.ty_queries(self.ty_lists@[l as int]@[k]).contains(q));
                    } else {
                        assert(rest[x - head.len()] == q);
                        assert(rest.contains(q));
                    }
                }
                if exists|j: int| k <= j < len && #[trigger] self.ty_queries(self.ty_lists@[l as int]@[j]).contains(q) {
                    let j = choose|j: int| k <= j < len && #[trigger] self.ty_queries(self.ty_lists@[l as int]@[j]).contains(q);
                    if j == k {
                        let x = choose|x: int| 0 <= x < head.len() && head[x] == q;
                        assert((head + rest)[x] == q);
                    } else {
                        assert(rest.contains(q));
                        let x = choose|x: int| 0 <= x < rest.len() && rest[x] == q;
                        assert((head + rest)[head.len() + x] == q);
                    }
                }
            }
        } else {
            assert forall|q: ReprQuery| !#[trigger] self.list_queries(l, bound, k).contains(q) by {}
        }
    }
}

/// A tuple holds by value exactly the parameters that one of its element
/// types holds, and has an answer exactly when each element has.
pub proof fn lemma_repr_tuple(tcx: &TyCtxt, t: TyId, map: Option<Seq<Option<u32>>>, n: int)
    requires
        tcx.wf(),
        tcx.valid_ty(t),
        tcx.kind(t) is Tuple,
    ensures
        ({
            let l = tcx.kind(t)->Tuple_0;
            let elems = tcx.ty_lists@[l as int]@;
            &&& tcx.repr_ty(t, map, n) is Some <==> forall|j: int| 0 <= j < elems.len() ==> #[trigger] tcx.repr_ty(elems[j], map, n) is Some
            &&& tcx.repr_ty(t, map, n) is Some ==> forall|i: int| #[trigger] tcx.repr_ty(t, map, n).unwrap().contains(i)
                <==> exists|j: int| 0 <= j < elems.len() && #[trigger] tcx.repr_ty(elems[j], map, n).unwrap().contains(i)
        }),
{
    assert(tcx.kind_below(tcx.types@[t as int], t as int));
    let l = tcx.kind(t)->Tuple_0;
    tcx.lemma_repr_list_elems(l, t as int, map, n, 0);
}

impl TyCtxt {
    /// The queries that the types `k..` of list `l` ask: those of each type in
    /// turn, one after another.
    pub proof fn lemma_list_queries_concat(&self, l: usize, bound: int, k: int)
        requires
            self.list_below(l, bound),
            0 <= k <= self.ty_lists@[l as int]@.len(),
        ensures
            self.list_queries(l, bound, k) == self.ty_lists@[l as int]@.subrange(k, self.ty_lists@[l as int]@.len() as int).map_values(
                |u: TyId| self.ty_queries(u),
            ).flatten(),
        decreases self.ty_lists@[l as int]@.len() - k,
    {
        let elems = self.ty_lists@[l as int]@;
        let parts = elems.subrange(k, elems.len() as int).map_values(|u: TyId| self.ty_queries(u));
        if k < elems.len() {
            self.lemma_list_queries_concat(l, bound, k + 1);
            assert(elems[k] < bound);
            assert(parts.drop_first() =~= elems.subrange(k + 1, elems.len() as int).map_values(|u: TyId| self.ty_queries(u)));
            assert(parts.first() == self.ty_queries(elems[k]));
        } else {
            assert(parts =~= Seq::<Seq<ReprQuery>>::empty());
        }
    }

    /// Field `j` of variant `kv` is among the fields of the first `k` variants.
    pub proof fn lemma_variant_fields_contains(&self, variants: Seq<crate::ty::VariantDef>, k: int, kv: int, j: int)
        requires
            0 <= kv < k <= variants.len(),
            0 <= j < variants[kv].fields@.len(),
        ensures
            self.variant_fields(variants, k).contains(ReprQuery::Def(variants[kv].fields@[j])),
        decreases k,
    {
        let prev = self.variant_fields(variants, k - 1);
        let fields = variants[k - 1].fields@;
        let last = Seq::new(fields.len(), |i: int| ReprQuery::Def(fields[i]));
        assert(self.variant_fields(variants, k) == prev + last);
        if kv < k - 1 {
            self.lemma_variant_fields_contains(variants, k - 1, kv, j);
            let x = choose|x: int| 0 <= x < prev.len() && prev[x] == ReprQuery::Def(variants[kv].fields@[j]);
            assert((prev + last)[x] == prev[x]);
        } else {
            assert((prev + last)[prev.len() + j] == last[j]);
        }
    }
}

/// A tuple type asks the representability queries of its element types, in
/// order, one list after another; so it asks exactly the queries that one of
/// its element types asks.
pub proof fn lemma_tuple_queries(tcx: &TyCtxt, t: TyId)
    requires
        tcx.wf(),
        tcx.valid_ty(t),
        tcx.kind(t) is Tuple,
    ensures
        ({
            let elems = tcx.ty_lists@[tcx.kind(t)->Tuple_0 as int]@;
            &&& tcx.ty_queries(t) == elems.map_values(|u: TyId| tcx.ty_queries(u)).flatten()
            &&& forall|q: ReprQuery| #[trigger] tcx.ty_queries(t).contains(q) <==> exists|j: int|
                0 <= j < elems.len() && #[trigger] tcx.ty_queries(elems[j]).contains(q)
        }),
{
    assert(tcx.kind_below(tcx.types@[t as int], t as int));
    let l = tcx.kind(t)->Tuple_0;
    let elems = tcx.ty_lists@[l as int]@;
    assert(tcx.ty_queries(t) == tcx.list_queries(l, t as int, 0));
    tcx.lemma_list_queries_elems(l, t as int, 0);
    tcx.lemma_list_queries_concat(l, t as int, 0);
    assert(elems.subrange(0, elems.len() as int) =~= elems);
}

/// A local struct, enum or union with a field whose type is a tuple holding
/// the ADT itself by value is infinitely sized: its query asks the field's,
/// which asks about the ADT type in the tuple, which asks the first again.
pub proof fn lemma_self_in_tuple_field_cycle(tcx: &TyCtxt, d: DefId, kv: int, j: int, e: int)
    requires
        tcx.wf(),
        d < tcx.defs@.len(),
        tcx.defs@[d as int].is_local,
        tcx.defs@[d as int].kind is Struct || tcx.defs@[d as int].kind is Enum || tcx.defs@[d as int].kind is Union,
        0 <= kv < tcx.defs@[d as int].variants@.len(),
        0 <= j < tcx.defs@[d as int].variants@[kv].fields@.len(),
        ({
            let f = tcx.defs@[d as int].variants@[kv].fields@[j];
            &&& f < tcx.defs@.len()
            &&& tcx.defs@[f as int].kind is Field
            &&& tcx.valid_ty(tcx.defs@[f as int].type_of)
            &&& tcx.kind(tcx.defs@[f as int].type_of) is Tuple
            &&& 0 <= e < tcx.ty_lists@[tcx.kind(tcx.defs@[f as int].type_of)->Tuple_0 as int]@.len()
            &&& ({
                let u = tcx.ty_lists@[tcx.kind(tcx.defs@[f as int].type_of)->Tuple_0 as int]@[e];
                tcx.valid_ty(u) && tcx.kind(u) is Adt && tcx.kind(u)->Adt_0 == d
            })
        }),
    ensures
        has_cycle_from(tcx, ReprQuery::Def(d)),
{
    let variants = tcx.defs@[d as int].variants@;
    let f = variants[kv].fields@[j];
    let tt = tcx.defs@[f as int].type_of;
    let l = tcx.kind(tt)->Tuple_0;
    let u = tcx.ty_lists@[l as int]@[e];
    tcx.lemma_variant_fields_contains(variants, variants.len() as int, kv, j);
    assert(tcx.succs(ReprQuery::Def(d)).contains(ReprQuery::Def(f)));
    lemma_tuple_queries(tcx, tt);
    assert(tcx.ty_queries(u) == seq![ReprQuery::AdtTy(u)]);
    assert(tcx.ty_queries(u)[0] == ReprQuery::AdtTy(u));
    assert(tcx.ty_queries(u).contains(ReprQuery::AdtTy(u)));
    assert(tcx.succs(ReprQuery::Def(f)).contains(ReprQuery::AdtTy(u)));
    let a = tcx.kind(u)->Adt_1;
    let head: Seq<ReprQuery> = seq![ReprQuery::Def(d)];
    assert(tcx.succs(ReprQuery::AdtTy(u)) == head + tcx.arg_queries(d, a, u as int, 0));
    assert((head + tcx.arg_queries(d, a, u as int, 0))[0] == ReprQuery::Def(d));
    assert(tcx.succs(ReprQuery::AdtTy(u)).contains(ReprQuery::Def(d)));
    let p: Seq<ReprQuery> = seq![ReprQuery::Def(d), ReprQuery::Def(f), ReprQuery::AdtTy(u)];
    assert(is_path(tcx, p));
    assert(p.last() == ReprQuery::AdtTy(u));
    assert(p[0] == ReprQuery::Def(d));
}

/// An array holds by value what its element type holds, and asks the
/// queries that its element type asks.
pub proof fn lemma_array_repr(tcx: &TyCtxt, t: TyId, map: Option<Seq<Option<u32>>>, n: int)
    requires
        tcx.wf(),
        tcx.valid_ty(t),
        tcx.kind(t) is Array,
    ensures
        tcx.repr_ty(t, map, n) == tcx.repr_ty(tcx.kind(t)->Array_0, map, n),
        tcx.ty_queries(t) == tcx.ty_queries(tcx.kind(t)->Array_0),
{
    assert(tcx.kind_below(tcx.types@[t as int], t as int));
}

} // verus!
