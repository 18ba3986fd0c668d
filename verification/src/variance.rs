//! Variance constraints: for each item with generics, where each of its
//! parameters occurs and with which variance, as terms over the variances
//! still being inferred.
use vstd::prelude::*;

use crate::refinement::RefinementTypeInvariant;
use crate::representability::{find_by_def, find_param_by_def};
use crate::ty::{
    args_below_in, AliasTyKind, Const, DefId, DefKind, GenericArg, GenericParamDef, GenericParamDefKind,
    Mutability, PatternKind, RefinementDefinition, Region, Term, TyCtxt, TyId, TyKind, Variance,
    VariantScheme,
};

verus! {

impl Variance {
    /// The variance of a position with variance `v` inside a position with
    /// variance `self`.
    pub open spec fn spec_xform(self, v: Variance) -> Variance {
        match (self, v) {
            (Variance::Covariant, Variance::Covariant) => Variance::Covariant,
            (Variance::Covariant, Variance::Contravariant) => Variance::Contravariant,
            (Variance::Covariant, Variance::Invariant) => Variance::Invariant,
            (Variance::Covariant, Variance::Bivariant) => Variance::Bivariant,
            (Variance::Contravariant, Variance::Covariant) => Variance::Contravariant,
            (Variance::Contravariant, Variance::Contravariant) => Variance::Covariant,
            (Variance::Contravariant, Variance::Invariant) => Variance::Invariant,
            (Variance::Contravariant, Variance::Bivariant) => Variance::Bivariant,
            (Variance::Invariant, _) => Variance::Invariant,
            (Variance::Bivariant, _) => Variance::Bivariant,
        }
    }

    pub fn xform(self, v: Variance) -> (r: Variance)
        ensures
            r == self.spec_xform(v),
    {
        match (self, v) {
            (Variance::Covariant, Variance::Covariant) => Variance::Covariant,
            (Variance::Covariant, Variance::Contravariant) => Variance::Contravariant,
            (Variance::Covariant, Variance::Invariant) => Variance::Invariant,
            (Variance::Covariant, Variance::Bivariant) => Variance::Bivariant,
            (Variance::Contravariant, Variance::Covariant) => Variance::Contravariant,
            (Variance::Contravariant, Variance::Contravariant) => Variance::Covariant,
            (Variance::Contravariant, Variance::Invariant) => Variance::Invariant,
            (Variance::Contravariant, Variance::Bivariant) => Variance::Bivariant,
            (Variance::Invariant, _) => Variance::Invariant,
            (Variance::Bivariant, _) => Variance::Bivariant,
        }
    }
}

/// Composing variances is associative.
pub proof fn lemma_xform_associative(a: Variance, b: Variance, c: Variance)
    ensures
        a.spec_xform(b).spec_xform(c) == a.spec_xform(b.spec_xform(c)),
{
}

/// Covariance is the identity of composition, on either side.
pub proof fn lemma_xform_covariant_identity(a: Variance)
    ensures
        a.spec_xform(Variance::Covariant) == a,
        Variance::Covariant.spec_xform(a) == a,
{
}

/// Twice contravariant is covariant.
pub proof fn lemma_xform_contravariant_involution(a: Variance)
    ensures
        a.spec_xform(Variance::Contravariant).spec_xform(Variance::Contravariant) == a,
{
}

/// Invariance and bivariance absorb whatever they contain.
pub proof fn lemma_xform_absorbing(a: Variance)
    ensures
        Variance::Invariant.spec_xform(a) == Variance::Invariant,
        Variance::Bivariant.spec_xform(a) == Variance::Bivariant,
{
}

/// A variance term, as what it stands for: a constant, the composition of
/// two terms, or the variance being inferred for one parameter.
pub enum VarianceExpr {
    Constant(Variance),
    Transform(Box<VarianceExpr>, Box<VarianceExpr>),
    Inferred(usize),
}

/// The variance that a term has once each inferred variance is given.
pub open spec fn eval(e: VarianceExpr, inferred: Seq<Variance>) -> Variance
    decreases e,
{
    match e {
        VarianceExpr::Constant(v) => v,
        VarianceExpr::Transform(a, b) => eval(*a, inferred).spec_xform(eval(*b, inferred)),
        VarianceExpr::Inferred(i) => inferred[i as int],
    }
}

/// The term for `v1` composed with `v2`: `v1` itself where `v2` is
/// covariant, the composed constant where both are constants, otherwise a
/// new composition.
pub open spec fn spec_xform_term(v1: VarianceExpr, v2: VarianceExpr) -> VarianceExpr {
    if v2 == VarianceExpr::Constant(Variance::Covariant) {
        v1
    } else {
        match (v1, v2) {
            (VarianceExpr::Constant(c1), VarianceExpr::Constant(c2)) => VarianceExpr::Constant(c1.spec_xform(c2)),
            _ => VarianceExpr::Transform(Box::new(v1), Box::new(v2)),
        }
    }
}

/// The shortcuts that composing terms takes keep what the terms mean.
pub proof fn lemma_xform_term_sound(v1: VarianceExpr, v2: VarianceExpr, inferred: Seq<Variance>)
    ensures
        eval(spec_xform_term(v1, v2), inferred) == eval(v1, inferred).spec_xform(eval(v2, inferred)),
{
    if v2 == VarianceExpr::Constant(Variance::Covariant) {
        lemma_xform_covariant_identity(eval(v1, inferred));
    }
}

/// A term of the arena: what terms are built from, by index.
#[derive(Clone, Copy, PartialEq, Eq, Structural, Debug)]
pub enum VarianceTerm {
    ConstantTerm(Variance),
    TransformTerm(usize, usize),
    InferredTerm(usize),
}

/// Each composition in the arena is of terms allocated before it.
pub open spec fn arena_wf(arena: Seq<VarianceTerm>) -> bool {
    forall|i: int| 0 <= i < arena.len() ==> match #[trigger] arena[i] {
        VarianceTerm::TransformTerm(a, b) => a < i && b < i,
        _ => true,
    }
}

/// What term `t` of the arena stands for.
pub open spec fn denote(arena: Seq<VarianceTerm>, t: int) -> VarianceExpr
    decreases t,
{
    if t < 0 || t >= arena.len() {
        VarianceExpr::Constant(Variance::Bivariant)
    } else {
        match arena[t] {
            VarianceTerm::ConstantTerm(v) => VarianceExpr::Constant(v),
            VarianceTerm::TransformTerm(a, b) => if a < t && b < t {
                VarianceExpr::Transform(Box::new(denote(arena, a as int)), Box::new(denote(arena, b as int)))
            } else {
                VarianceExpr::Constant(Variance::Bivariant)
            },
            VarianceTerm::InferredTerm(i) => VarianceExpr::Inferred(i),
        }
    }
}

/// Allocating a term keeps what the earlier terms stand for.
pub proof fn lemma_denote_push(arena: Seq<VarianceTerm>, x: VarianceTerm, t: int)
    requires
        0 <= t < arena.len(),
    ensures
        denote(arena.push(x), t) == denote(arena, t),
    decreases t,
{
    match arena[t] {
        VarianceTerm::TransformTerm(a, b) => {
            if a < t && b < t {
                lemma_denote_push(arena, x, a as int);
                lemma_denote_push(arena, x, b as int);
            }
        },
        _ => {},
    }
}

/// What the terms context answers, as the contracts speak of it: where each
/// local item's inferred variances start, and what each inferred term stands
/// for.
pub struct TermsView {
    pub starts: Seq<Option<usize>>,
    pub terms: Seq<VarianceExpr>,
}

/// The item whose constraints are being built: where its inferred variances
/// start, and the map from scheme parameters to family parameters while
/// inside a refined variant.
pub type ItemView = (int, Option<Seq<Option<u32>>>);

/// The constraints built so far, each the inferred variance it is about and
/// its term; and whether a case the compiler rejects as a bug was met.
pub type Built = (Seq<(int, VarianceExpr)>, bool);

pub open spec fn built_stuck(s: Built) -> Built {
    (s.0, true)
}

/// Parameter `index` of the item occurs with variance `v`; through the map,
/// where there is one, and only for the parameters it maps.
pub open spec fn built_add(s: Built, cur: ItemView, index: u32, v: VarianceExpr) -> Built {
    let mapped = match cur.1 {
        Some(m) => if index < m.len() {
            m[index as int]
        } else {
            None
        },
        None => Some(index),
    };
    match mapped {
        Some(i) => if cur.0 + i <= usize::MAX {
            (s.0.push((cur.0 + i, v)), s.1)
        } else {
            built_stuck(s)
        },
        None => s,
    }
}

/// Only an early-bound parameter constrains; a late-bound, inference,
/// placeholder or erased region is a bug here.
pub open spec fn built_region(s: Built, cur: ItemView, r: Region, v: VarianceExpr) -> Built {
    match r {
        Region::EarlyParam(i) => built_add(s, cur, i, v),
        Region::Static | Region::Bound(_) | Region::Error => s,
        _ => built_stuck(s),
    }
}

pub open spec fn invariant_term() -> VarianceExpr {
    VarianceExpr::Constant(Variance::Invariant)
}

pub open spec fn contravariant_term() -> VarianceExpr {
    VarianceExpr::Constant(Variance::Contravariant)
}

impl TyCtxt {
    /// The declared variance of argument `i` of the ADT `d`: the term being
    /// inferred for a local ADT, the known variance for another crate's.
    pub open spec fn decl_at(&self, env: TermsView, d: DefId, i: int) -> Option<VarianceExpr> {
        if d >= self.defs@.len() {
            None
        } else if self.defs@[d as int].is_local {
            if d < env.starts.len() {
                match env.starts[d as int] {
                    Some(start) => if start + i < env.terms.len() {
                        Some(env.terms[start + i])
                    } else {
                        None
                    },
                    None => None,
                }
            } else {
                None
            }
        } else if i < self.defs@[d as int].variances@.len() {
            Some(VarianceExpr::Constant(self.defs@[d as int].variances@[i]))
        } else {
            None
        }
    }

    /// The constraints of `t` in a position of variance `v`.
    pub open spec fn cons_ty(&self, env: TermsView, cur: ItemView, s: Built, t: TyId, v: VarianceExpr) -> Built
        decreases t + 1, 0int, 0int, 0int, 0int,
    {
        if t >= self.types@.len() {
            s
        } else {
            match self.types@[t as int] {
                TyKind::Prim(_) | TyKind::Foreign(_) | TyKind::Error => s,
                TyKind::FnDef(..) | TyKind::Coroutine(..) | TyKind::Closure(..) | TyKind::CoroutineClosure(..)
                | TyKind::Placeholder(_) | TyKind::CoroutineWitness(_) | TyKind::Bound(_)
                | TyKind::Infer(_) => built_stuck(s),
                TyKind::Ref(r, ty, m) => if ty < t {
                    self.cons_mt(env, cur, built_region(s, cur, r, v), ty, m, v)
                } else {
                    s
                },
                TyKind::Array(ty, c) => if ty < t {
                    let s1 = match c {
                        Const::Alias(b) => self.cons_inv_args(env, cur, s, b, t as int, spec_xform_term(v, invariant_term()), 0),
                        _ => s,
                    };
                    self.cons_ty(env, cur, s1, ty, v)
                } else {
                    s
                },
                TyKind::Pat(ty, p) => if ty < t {
                    self.cons_ty(env, cur, self.cons_pat(env, cur, s, p, t as int, v), ty, v)
                } else {
                    s
                },
                TyKind::Refined(ty, key) => if ty < t {
                    let s1 = match Self::spec_refinement_type_invariant(key) {
                        RefinementTypeInvariant::ScalarPattern(p) => self.cons_pat(env, cur, s, p, t as int, v),
                        _ => s,
                    };
                    self.cons_ty(env, cur, s1, ty, v)
                } else {
                    s
                },
                TyKind::Slice(ty) | TyKind::UnsafeBinder(ty) => if ty < t {
                    self.cons_ty(env, cur, s, ty, v)
                } else {
                    s
                },
                TyKind::RawPtr(ty, m) => if ty < t {
                    self.cons_mt(env, cur, s, ty, m, v)
                } else {
                    s
                },
                TyKind::Tuple(l) => self.cons_list(env, cur, s, l, t as int, v, v, 0),
                TyKind::FnPtr(l) => self.cons_list(env, cur, s, l, t as int, spec_xform_term(v, contravariant_term()), v, 0),
                TyKind::Adt(d, a) => self.cons_args(env, cur, s, d, a, t as int, v, 0),
                TyKind::Alias(_, alias) => match alias.kind {
                    AliasTyKind::Free(_) => if t < self.free_alias_expansions@.len() {
                        match self.free_alias_expansions@[t as int] {
                            Some(e) => if e < t {
                                self.cons_ty(env, cur, s, e, v)
                            } else {
                                built_stuck(s)
                            },
                            None => built_stuck(s),
                        }
                    } else {
                        built_stuck(s)
                    },
                    _ => self.cons_inv_args(env, cur, s, alias.args, t as int, spec_xform_term(v, invariant_term()), 0),
                },
                TyKind::Dynamic(d, r) => self.cons_dyn(env, cur, built_region(s, cur, r, v), d, t as int, v),
                TyKind::Param(i) => built_add(s, cur, i, v),
            }
        }
    }

    /// A pointee or referent of mutability `m`: a mutable one is invariant.
    pub open spec fn cons_mt(&self, env: TermsView, cur: ItemView, s: Built, ty: TyId, m: Mutability, v: VarianceExpr) -> Built
        decreases ty + 1, 0int, 0int, 0int, 1int,
    {
        match m {
            Mutability::Mut => self.cons_ty(env, cur, s, ty, spec_xform_term(v, invariant_term())),
            Mutability::Not => self.cons_ty(env, cur, s, ty, v),
        }
    }

    /// Argument `k` of the ADT `d`, in a position of variance `v`.
    pub open spec fn cons_arg_at(&self, env: TermsView, cur: ItemView, s: Built, d: DefId, a: usize, bound: int, v: VarianceExpr, k: int) -> Built
        decreases bound, 1int, a, self.arg_lists@[a as int]@.len() - k, 1int,
    {
        if a >= self.arg_lists@.len() || k < 0 || k >= self.arg_lists@[a as int]@.len() {
            s
        } else {
            match self.decl_at(env, d, k) {
                None => built_stuck(s),
                Some(decl) => {
                    let vi = spec_xform_term(v, decl);
                    match self.arg_lists@[a as int]@[k] {
                        GenericArg::Lifetime(r) => built_region(s, cur, r, vi),
                        GenericArg::Type(u) => if u < bound {
                            self.cons_ty(env, cur, s, u, vi)
                        } else {
                            s
                        },
                        GenericArg::Const(Const::Alias(b)) => if b < a {
                            self.cons_inv_args(env, cur, s, b, bound, spec_xform_term(v, invariant_term()), 0)
                        } else {
                            s
                        },
                        GenericArg::Const(_) => s,
                    }
                },
            }
        }
    }

    /// Arguments `k..` of the ADT `d`.
    pub open spec fn cons_args(&self, env: TermsView, cur: ItemView, s: Built, d: DefId, a: usize, bound: int, v: VarianceExpr, k: int) -> Built
        decreases bound, 1int, a, self.arg_lists@[a as int]@.len() - k + 1, 0int,
    {
        if a >= self.arg_lists@.len() || k < 0 || k >= self.arg_lists@[a as int]@.len() {
            s
        } else {
            self.cons_args(env, cur, self.cons_arg_at(env, cur, s, d, a, bound, v, k), d, a, bound, v, k + 1)
        }
    }

    /// Argument `k` of a list whose arguments are all invariant; `vi` is
    /// the variance of the position already made invariant.
    pub open spec fn cons_inv_arg_at(&self, env: TermsView, cur: ItemView, s: Built, a: usize, bound: int, vi: VarianceExpr, k: int) -> Built
        decreases bound, 1int, a, self.arg_lists@[a as int]@.len() - k, 1int,
    {
        if a >= self.arg_lists@.len() || k < 0 || k >= self.arg_lists@[a as int]@.len() {
            s
        } else {
            match self.arg_lists@[a as int]@[k] {
                GenericArg::Lifetime(r) => built_region(s, cur, r, vi),
                GenericArg::Type(u) => if u < bound {
                    self.cons_ty(env, cur, s, u, vi)
                } else {
                    s
                },
                GenericArg::Const(Const::Alias(b)) => if b < a {
                    self.cons_inv_args(env, cur, s, b, bound, spec_xform_term(vi, invariant_term()), 0)
                } else {
                    s
                },
                GenericArg::Const(_) => s,
            }
        }
    }

    pub open spec fn cons_inv_args(&self, env: TermsView, cur: ItemView, s: Built, a: usize, bound: int, vi: VarianceExpr, k: int) -> Built
        decreases bound, 1int, a, self.arg_lists@[a as int]@.len() - k + 1, 0int,
    {
        if a >= self.arg_lists@.len() || k < 0 || k >= self.arg_lists@[a as int]@.len() {
            s
        } else {
            self.cons_inv_args(env, cur, self.cons_inv_arg_at(env, cur, s, a, bound, vi, k), a, bound, vi, k + 1)
        }
    }

    /// Types `k..` of list `l`: the last one in a position of variance
    /// `v_last`, the others of variance `v`.
    pub open spec fn cons_list(&self, env: TermsView, cur: ItemView, s: Built, l: usize, bound: int, v: VarianceExpr, v_last: VarianceExpr, k: int) -> Built
        decreases bound, 1int, 0int, self.ty_lists@[l as int]@.len() - k, 0int,
    {
        if l >= self.ty_lists@.len() || k < 0 || k >= self.ty_lists@[l as int]@.len() {
            s
        } else {
            let u = self.ty_lists@[l as int]@[k];
            let vk = if k == self.ty_lists@[l as int]@.len() - 1 {
                v_last
            } else {
                v
            };
            let s1 = if u < bound {
                self.cons_ty(env, cur, s, u, vk)
            } else {
                s
            };
            self.cons_list(env, cur, s1, l, bound, v, v_last, k + 1)
        }
    }

    pub open spec fn cons_pat(&self, env: TermsView, cur: ItemView, s: Built, p: usize, bound: int, v: VarianceExpr) -> Built
        decreases bound, 2int, p, self.pat_alternatives(p) + 1, 0int,
    {
        if p >= self.patterns@.len() {
            s
        } else {
            match self.patterns@[p as int] {
                PatternKind::Range { start, end } => {
                    let vi = spec_xform_term(v, invariant_term());
                    let s1 = match start {
                        Const::Alias(b) => self.cons_inv_args(env, cur, s, b, bound, vi, 0),
                        _ => s,
                    };
                    match end {
                        Const::Alias(b) => self.cons_inv_args(env, cur, s1, b, bound, vi, 0),
                        _ => s1,
                    }
                },
                PatternKind::NotNull => s,
                PatternKind::Or(_) => self.cons_pats(env, cur, s, p, bound, v, 0),
            }
        }
    }

    pub open spec fn cons_pats(&self, env: TermsView, cur: ItemView, s: Built, p: usize, bound: int, v: VarianceExpr, k: int) -> Built
        decreases bound, 2int, p, self.pat_alternatives(p) - k, 0int,
    {
        if p >= self.patterns@.len() || k < 0 {
            s
        } else {
            match self.patterns@[p as int] {
                PatternKind::Or(ps) => if k >= ps@.len() {
                    s
                } else {
                    let s1 = if ps@[k] < p {
                        self.cons_pat(env, cur, s, ps@[k], bound, v)
                    } else {
                        s
                    };
                    self.cons_pats(env, cur, s1, p, bound, v, k + 1)
                },
                _ => s,
            }
        }
    }

    /// A trait object: its principal's arguments are invariant, and so is
    /// the term of each projection bound.
    pub open spec fn cons_dyn(&self, env: TermsView, cur: ItemView, s: Built, d: usize, bound: int, v: VarianceExpr) -> Built
        decreases bound, 4int, 0int, 0int, 0int,
    {
        if d >= self.dyns@.len() {
            s
        } else {
            let s1 = match self.dyns@[d as int].principal {
                Some(a) => self.cons_inv_args(env, cur, s, a, bound, spec_xform_term(v, invariant_term()), 0),
                None => s,
            };
            self.cons_projections(env, cur, s1, d, bound, 0)
        }
    }

    pub open spec fn cons_projections(&self, env: TermsView, cur: ItemView, s: Built, d: usize, bound: int, k: int) -> Built
        decreases bound, 3int, 0int, self.dyns@[d as int].projections@.len() - k, 0int,
    {
        if d >= self.dyns@.len() || k < 0 || k >= self.dyns@[d as int].projections@.len() {
            s
        } else {
            let s1 = match self.dyns@[d as int].projections@[k].term {
                Term::Ty(u) => if u < bound {
                    self.cons_ty(env, cur, s, u, invariant_term())
                } else {
                    s
                },
                Term::Const(Const::Alias(b)) => self.cons_inv_args(
                    env,
                    cur,
                    s,
                    b,
                    bound,
                    spec_xform_term(invariant_term(), invariant_term()),
                    0,
                ),
                Term::Const(_) => s,
            };
            self.cons_projections(env, cur, s1, d, bound, k + 1)
        }
    }
}

/// Allocating terms at the end keeps what the earlier terms stand for.
pub proof fn lemma_denote_prefix(a: Seq<VarianceTerm>, b: Seq<VarianceTerm>, t: int)
    requires
        a.len() <= b.len(),
        b.subrange(0, a.len() as int) == a,
        0 <= t < a.len(),
    ensures
        denote(b, t) == denote(a, t),
    decreases t,
{
    assert(b[t] == b.subrange(0, a.len() as int)[t]);
    match a[t] {
        VarianceTerm::TransformTerm(x, y) => {
            if x < t && y < t {
                lemma_denote_prefix(a, b, x as int);
                lemma_denote_prefix(a, b, y as int);
            }
        },
        _ => {},
    }
}

/// The terms, and where each local item's inferred variances start.
pub struct TermsContext {
    pub arena: Vec<VarianceTerm>,
    /// For each definition of this crate with generics, the index of its
    /// first inferred variance.
    pub inferred_starts: Vec<Option<usize>>,
    /// For each inferred variance, its term.
    pub inferred_terms: Vec<usize>,
}

/// The variance term `variance` for the inferred variance `inferred`.
#[derive(Clone, Copy, PartialEq, Eq, Structural, Debug)]
pub struct Constraint {
    pub inferred: usize,
    pub variance: usize,
}

/// The item whose constraints are being built.
pub struct CurrentItem {
    pub inferred_start: usize,
    pub param_index_map: Option<Vec<Option<u32>>>,
}

impl CurrentItem {
    pub open spec fn view(&self) -> ItemView {
        (
            self.inferred_start as int,
            match self.param_index_map {
                Some(m) => Some(m@),
                None => None,
            },
        )
    }
}

pub struct ConstraintContext {
    pub terms_cx: TermsContext,
    pub covariant: usize,
    pub contravariant: usize,
    pub invariant: usize,
    pub bivariant: usize,
    pub constraints: Vec<Constraint>,
    /// Whether a case the compiler rejects as a bug was met.
    pub stuck: Ghost<bool>,
}

impl TermsContext {
    pub open spec fn wf(&self) -> bool {
        &&& arena_wf(self.arena@)
        &&& forall|k: int| 0 <= k < self.inferred_terms@.len() ==> #[trigger] self.inferred_terms@[k] < self.arena@.len()
    }

    pub open spec fn env(&self) -> TermsView {
        TermsView {
            starts: self.inferred_starts@,
            terms: Seq::new(self.inferred_terms@.len(), |k: int| denote(self.arena@, self.inferred_terms@[k] as int)),
        }
    }
}

impl ConstraintContext {
    pub open spec fn arena(&self) -> Seq<VarianceTerm> {
        self.terms_cx.arena@
    }

    pub open spec fn term(&self, t: usize) -> VarianceExpr {
        denote(self.arena(), t as int)
    }

    pub open spec fn wf(&self) -> bool {
        &&& self.terms_cx.wf()
        &&& self.covariant < self.arena().len() && self.arena()[self.covariant as int] == VarianceTerm::ConstantTerm(Variance::Covariant)
        &&& self.contravariant < self.arena().len() && self.arena()[self.contravariant as int] == VarianceTerm::ConstantTerm(
            Variance::Contravariant,
        )
        &&& self.invariant < self.arena().len() && self.arena()[self.invariant as int] == VarianceTerm::ConstantTerm(Variance::Invariant)
        &&& self.bivariant < self.arena().len() && self.arena()[self.bivariant as int] == VarianceTerm::ConstantTerm(Variance::Bivariant)
        &&& forall|i: int| 0 <= i < self.constraints@.len() ==> #[trigger] self.constraints@[i].variance < self.arena().len()
    }

    pub open spec fn env(&self) -> TermsView {
        self.terms_cx.env()
    }

    /// The constraints built so far, by what their terms stand for.
    pub open spec fn built(&self) -> Built {
        (
            Seq::new(
                self.constraints@.len(),
                |i: int| (self.constraints@[i].inferred as int, denote(self.arena(), self.constraints@[i].variance as int)),
            ),
            self.stuck@,
        )
    }

    /// `after` only added terms at the end of the arena, and left the
    /// constants and the inferred terms alone.
    pub open spec fn grown(&self, after: &ConstraintContext) -> bool {
        &&& after.arena().len() >= self.arena().len()
        &&& after.arena().subrange(0, self.arena().len() as int) == self.arena()
        &&& after.covariant == self.covariant
        &&& after.contravariant == self.contravariant
        &&& after.invariant == self.invariant
        &&& after.bivariant == self.bivariant
        &&& after.terms_cx.inferred_starts == self.terms_cx.inferred_starts
        &&& after.terms_cx.inferred_terms == self.terms_cx.inferred_terms
    }

    pub proof fn lemma_grown(&self, after: &ConstraintContext, t: usize)
        requires
            self.grown(after),
            t < self.arena().len(),
        ensures
            after.term(t) == self.term(t),
    {
        lemma_denote_prefix(self.arena(), after.arena(), t as int);
    }

    pub proof fn lemma_grown_env(&self, after: &ConstraintContext)
        requires
            self.wf(),
            self.grown(after),
        ensures
            after.env() == self.env(),
    {
        assert forall|k: int| 0 <= k < self.terms_cx.inferred_terms@.len() implies #[trigger] after.env().terms[k] == self.env().terms[k] by {
            self.lemma_grown(after, self.terms_cx.inferred_terms@[k]);
        }
        assert(after.env().terms =~= self.env().terms);
    }

    pub proof fn lemma_grown_refl(&self)
        ensures
            self.grown(self),
    {
        assert(self.arena().subrange(0, self.arena().len() as int) =~= self.arena());
    }

    pub proof fn lemma_grown_trans(&self, mid: &ConstraintContext, after: &ConstraintContext)
        requires
            self.grown(mid),
            mid.grown(after),
        ensures
            self.grown(after),
    {
        assert(after.arena().subrange(0, self.arena().len() as int) =~= mid.arena().subrange(0, self.arena().len() as int));
    }

    /// Allocates `term` at the end of the arena.
    fn alloc_term(&mut self, term: VarianceTerm) -> (t: usize)
        requires
            old(self).wf(),
            match term {
                VarianceTerm::TransformTerm(a, b) => a < old(self).arena().len() && b < old(self).arena().len(),
                _ => true,
            },
        ensures
            final(self).wf(),
            old(self).grown(&*final(self)),
            final(self).arena() == old(self).arena().push(term),
            t == old(self).arena().len(),
            final(self).built() == old(self).built(),
            final(self).env() == old(self).env(),
    {
        let t = self.terms_cx.arena.len();
        let ghost before = *self;
        self.terms_cx.arena.push(term);
        proof {
            assert(self.arena().subrange(0, before.arena().len() as int) =~= before.arena());
            assert forall|i: int| 0 <= i < self.constraints@.len() implies #[trigger] self.built().0[i] == before.built().0[i] by {
                before.lemma_grown(&*self, self.constraints@[i].variance);
            }
            assert(self.built().0 =~= before.built().0);
            before.lemma_grown_env(&*self);
        }
        t
    }

    /// The preallocated term of the constant `v`.
    pub open spec fn spec_constant_term(&self, v: Variance) -> usize {
        match v {
            Variance::Covariant => self.covariant,
            Variance::Invariant => self.invariant,
            Variance::Contravariant => self.contravariant,
            Variance::Bivariant => self.bivariant,
        }
    }

    /// The term of the constant `v`.
    fn constant_term(&self, v: Variance) -> (t: usize)
        requires
            self.wf(),
        ensures
            t == self.spec_constant_term(v),
            t < self.arena().len(),
            self.term(t) == VarianceExpr::Constant(v),
    {
        match v {
            Variance::Covariant => self.covariant,
            Variance::Invariant => self.invariant,
            Variance::Contravariant => self.contravariant,
            Variance::Bivariant => self.bivariant,
        }
    }

    /// `v1` composed with `v2`.
    fn xform(&mut self, v1: usize, v2: usize) -> (t: usize)
        requires
            old(self).wf(),
            v1 < old(self).arena().len(),
            v2 < old(self).arena().len(),
        ensures
            final(self).wf(),
            old(self).grown(&*final(self)),
            final(self).built() == old(self).built(),
            final(self).env() == old(self).env(),
            t < final(self).arena().len(),
            final(self).term(t) == spec_xform_term(old(self).term(v1), old(self).term(v2)),
            match (old(self).arena()[v1 as int], old(self).arena()[v2 as int]) {
                (_, VarianceTerm::ConstantTerm(Variance::Covariant)) => t == v1 && *final(self) == *old(self),
                (VarianceTerm::ConstantTerm(c1), VarianceTerm::ConstantTerm(c2)) => t == old(self).spec_constant_term(
                    c1.spec_xform(c2),
                ) && *final(self) == *old(self),
                _ => t == old(self).arena().len() && final(self).arena() == old(self).arena().push(
                    VarianceTerm::TransformTerm(v1, v2),
                ),
            },
    {
        proof {
            self.lemma_grown_refl();
        }
        match (self.terms_cx.arena[v1], self.terms_cx.arena[v2]) {
            (_, VarianceTerm::ConstantTerm(Variance::Covariant)) => v1,
            (VarianceTerm::ConstantTerm(c1), VarianceTerm::ConstantTerm(c2)) => {
                proof {
                    assert(self.term(v2) != VarianceExpr::Constant(Variance::Covariant));
                }
                self.constant_term(c1.xform(c2))
            },
            _ => {
                let ghost before = *self;
                proof {
                    assert(self.term(v2) != VarianceExpr::Constant(Variance::Covariant));
                }
                let t = self.alloc_term(VarianceTerm::TransformTerm(v1, v2));
                proof {
                    before.lemma_grown(&*self, v1);
                    before.lemma_grown(&*self, v2);
                }
                t
            },
        }
    }

    fn contravariant(&mut self, variance: usize) -> (t: usize)
        requires
            old(self).wf(),
            variance < old(self).arena().len(),
        ensures
            final(self).wf(),
            old(self).grown(&*final(self)),
            final(self).built() == old(self).built(),
            final(self).env() == old(self).env(),
            t < final(self).arena().len(),
            final(self).term(t) == spec_xform_term(old(self).term(variance), contravariant_term()),
    {
        let c = self.contravariant;
        self.xform(variance, c)
    }

    fn xform_invariant(&mut self, variance: usize) -> (t: usize)
        requires
            old(self).wf(),
            variance < old(self).arena().len(),
        ensures
            final(self).wf(),
            old(self).grown(&*final(self)),
            final(self).built() == old(self).built(),
            final(self).env() == old(self).env(),
            t < final(self).arena().len(),
            final(self).term(t) == spec_xform_term(old(self).term(variance), invariant_term()),
    {
        let i = self.invariant;
        self.xform(variance, i)
    }

    /// Records that parameter `index` of the current item occurs with
    /// variance `variance`.
    fn add_constraint(&mut self, current: &CurrentItem, index: u32, variance: usize)
        requires
            old(self).wf(),
            variance < old(self).arena().len(),
        ensures
            final(self).wf(),
            old(self).grown(&*final(self)),
            final(self).env() == old(self).env(),
            final(self).built() == built_add(old(self).built(), current.view(), index, old(self).term(variance)),
    {
        proof {
            self.lemma_grown_refl();
        }
        let index = match &current.param_index_map {
            Some(map) => {
                if (index as usize) < map.len() {
                    match map[index as usize] {
                        Some(index) => index,
                        None => {
                            return;
                        },
                    }
                } else {
                    return;
                }
            },
            None => index,
        };
        let ghost before = *self;
        match current.inferred_start.checked_add(index as usize) {
            Some(inferred) => {
                self.constraints.push(Constraint { inferred, variance });
                proof {
                    assert(self.built().0 =~= before.built().0.push((inferred as int, before.term(variance))));
                }
            },
            None => {
                proof {
                    self.stuck@ = true;
                }
            },
        }
        proof {
            assert(self.arena().subrange(0, before.arena().len() as int) =~= before.arena());
        }
    }
}

impl ConstraintContext {
    /// `after` is `self` with terms added at the end of the arena and
    /// constraints possibly added.
    pub open spec fn step(&self, after: &ConstraintContext) -> bool {
        &&& after.wf()
        &&& self.grown(after)
        &&& after.env() == self.env()
    }

    pub proof fn lemma_step_trans(&self, mid: &ConstraintContext, after: &ConstraintContext)
        requires
            self.step(mid),
            mid.step(after),
        ensures
            self.step(after),
    {
        self.lemma_grown_trans(mid, after);
    }

    pub proof fn lemma_step_refl(&self)
        requires
            self.wf(),
        ensures
            self.step(self),
    {
        self.lemma_grown_refl();
    }

    fn set_stuck(&mut self)
        requires
            old(self).wf(),
        ensures
            old(self).step(&*final(self)),
            final(self).built() == built_stuck(old(self).built()),
    {
        proof {
            self.lemma_grown_refl();
            self.stuck@ = true;
        }
    }

    fn add_constraints_from_region(&mut self, current: &CurrentItem, region: Region, variance: usize)
        requires
            old(self).wf(),
            variance < old(self).arena().len(),
        ensures
            old(self).step(&*final(self)),
            final(self).built() == built_region(old(self).built(), current.view(), region, old(self).term(variance)),
    {
        proof {
            self.lemma_grown_refl();
        }
        match region {
            Region::EarlyParam(index) => self.add_constraint(current, index, variance),
            Region::Static | Region::Bound(_) | Region::Error => {},
            _ => self.set_stuck(),
        }
    }

    /// The declared variance term of argument `i` of the ADT `d`.
    fn decl_term(&self, tcx: &TyCtxt, d: DefId, i: usize) -> (t: Option<usize>)
        requires
            self.wf(),
        ensures
            t is None <==> tcx.decl_at(self.env(), d, i as int) is None,
            t matches Some(t) ==> t < self.arena().len() && tcx.decl_at(self.env(), d, i as int) == Some(self.term(t)),
    {
        if d >= tcx.defs.len() {
            return None;
        }
        if tcx.defs[d].is_local {
            if d >= self.terms_cx.inferred_starts.len() {
                return None;
            }
            match self.terms_cx.inferred_starts[d] {
                Some(start) => {
                    let n = self.terms_cx.inferred_terms.len();
                    assert(self.env().terms.len() == n);
                    if start < n && i < n - start {
                        let k = start + i;
                        proof {
                            assert(self.env().terms[k as int] == self.term(self.terms_cx.inferred_terms@[k as int]));
                        }
                        Some(self.terms_cx.inferred_terms[k])
                    } else {
                        None
                    }
                },
                None => None,
            }
        } else if i < tcx.defs[d].variances.len() {
            Some(self.constant_term(tcx.defs[d].variances[i]))
        } else {
            None
        }
    }
}

impl ConstraintContext {
    /// Adds the constraints of `ty` in a position of variance `variance`.
    fn add_constraints_from_ty(&mut self, tcx: &TyCtxt, current: &CurrentItem, ty: TyId, variance: usize)
        requires
            tcx.wf(),
            tcx.valid_ty(ty),
            old(self).wf(),
            variance < old(self).arena().len(),
        ensures
            old(self).step(&*final(self)),
            final(self).built() == tcx.cons_ty(old(self).env(), current.view(), old(self).built(), ty, old(self).term(variance)),
        decreases ty + 1, 0int, 0int, 0int, 0int,
    {
        let ghost entry = *self;
        proof {
            self.lemma_step_refl();
            assert(tcx.kind_below(tcx.types@[ty as int], ty as int));
        }
        match tcx.types[ty] {
            TyKind::Prim(_) | TyKind::Foreign(_) | TyKind::Error => {},
            TyKind::FnDef(..) | TyKind::Coroutine(..) | TyKind::Closure(..) | TyKind::CoroutineClosure(..)
            | TyKind::Placeholder(_) | TyKind::CoroutineWitness(_) | TyKind::Bound(_) | TyKind::Infer(_) => {
                self.set_stuck();
            },
            TyKind::Ref(region, inner, m) => {
                self.add_constraints_from_region(current, region, variance);
                let ghost mid = *self;
                proof {
                    entry.lemma_grown(&mid, variance);
                }
                self.add_constraints_from_mt(tcx, current, inner, m, variance);
                proof {
                    entry.lemma_step_trans(&mid, &*self);
                }
            },
            TyKind::Array(inner, c) => {
                if let Const::Alias(b) = c {
                    self.add_constraints_from_invariant_args(tcx, current, b, ty, variance);
                }
                let ghost mid = *self;
                proof {
                    entry.lemma_grown(&mid, variance);
                }
                self.add_constraints_from_ty(tcx, current, inner, variance);
                proof {
                    entry.lemma_step_trans(&mid, &*self);
                }
            },
            TyKind::Pat(inner, p) => {
                self.add_constraints_from_pat(tcx, current, variance, p, ty);
                let ghost mid = *self;
                proof {
                    entry.lemma_grown(&mid, variance);
                }
                self.add_constraints_from_ty(tcx, current, inner, variance);
                proof {
                    entry.lemma_step_trans(&mid, &*self);
                }
            },
            TyKind::Refined(inner, refinement) => {
                if let RefinementTypeInvariant::ScalarPattern(p) = tcx.refinement_type_invariant(refinement) {
                    self.add_constraints_from_pat(tcx, current, variance, p, ty);
                }
                let ghost mid = *self;
                proof {
                    entry.lemma_grown(&mid, variance);
                }
                self.add_constraints_from_ty(tcx, current, inner, variance);
                proof {
                    entry.lemma_step_trans(&mid, &*self);
                }
            },
            TyKind::Slice(inner) | TyKind::UnsafeBinder(inner) => {
                self.add_constraints_from_ty(tcx, current, inner, variance);
            },
            TyKind::RawPtr(inner, m) => {
                self.add_constraints_from_mt(tcx, current, inner, m, variance);
            },
            TyKind::Tuple(l) => {
                self.add_constraints_from_list(tcx, current, l, ty, variance, variance);
            },
            TyKind::FnPtr(l) => {
                self.add_constraints_from_sig(tcx, current, l, ty, variance);
            },
            TyKind::Adt(d, a) => {
                self.add_constraints_from_args(tcx, current, d, a, ty, variance);
            },
            TyKind::Alias(_, alias) => match alias.kind {
                AliasTyKind::Free(_) => {
                    if ty < tcx.free_alias_expansions.len() {
                        match tcx.free_alias_expansions[ty] {
                            Some(expanded) => {
                                if expanded < ty {
                                    self.add_constraints_from_ty(tcx, current, expanded, variance);
                                } else {
                                    self.set_stuck();
                                }
                            },
                            None => self.set_stuck(),
                        }
                    } else {
                        self.set_stuck();
                    }
                },
                _ => {
                    self.add_constraints_from_invariant_args(tcx, current, alias.args, ty, variance);
                },
            },
            TyKind::Dynamic(d, region) => {
                self.add_constraints_from_region(current, region, variance);
                let ghost mid = *self;
                proof {
                    entry.lemma_grown(&mid, variance);
                }
                self.add_constraints_from_dyn(tcx, current, d, ty, variance);
                proof {
                    entry.lemma_step_trans(&mid, &*self);
                }
            },
            TyKind::Param(index) => {
                self.add_constraint(current, index, variance);
            },
        }
    }

    /// A referent or pointee of mutability `m`: a mutable one is invariant.
    fn add_constraints_from_mt(&mut self, tcx: &TyCtxt, current: &CurrentItem, ty: TyId, m: Mutability, variance: usize)
        requires
            tcx.wf(),
            tcx.valid_ty(ty),
            old(self).wf(),
            variance < old(self).arena().len(),
        ensures
            old(self).step(&*final(self)),
            final(self).built() == tcx.cons_mt(old(self).env(), current.view(), old(self).built(), ty, m, old(self).term(variance)),
        decreases ty + 1, 0int, 0int, 0int, 1int,
    {
        let ghost entry = *self;
        match m {
            Mutability::Mut => {
                let invar = self.xform_invariant(variance);
                let ghost mid = *self;
                self.add_constraints_from_ty(tcx, current, ty, invar);
                proof {
                    entry.lemma_step_trans(&mid, &*self);
                }
            },
            Mutability::Not => {
                self.add_constraints_from_ty(tcx, current, ty, variance);
            },
        }
    }

    /// Adds the constraints of the arguments of the ADT `d`: each in a
    /// position of its declared variance composed with `variance`.
    fn add_constraints_from_args(&mut self, tcx: &TyCtxt, current: &CurrentItem, d: DefId, a: usize, bound: usize, variance: usize)
        requires
            tcx.wf(),
            bound <= tcx.types@.len(),
            tcx.args_below(a, bound as int),
            old(self).wf(),
            variance < old(self).arena().len(),
        ensures
            old(self).step(&*final(self)),
            final(self).built() == tcx.cons_args(old(self).env(), current.view(), old(self).built(), d, a, bound as int, old(self).term(variance), 0),
        decreases bound, 1int, a, tcx.arg_lists@[a as int]@.len() + 1, 0int,
    {
        let ghost entry = *self;
        proof {
            self.lemma_step_refl();
        }
        let n = tcx.arg_lists[a].len();
        let mut k: usize = 0;
        while k < n
            invariant
                tcx.wf(),
                bound <= tcx.types@.len(),
                tcx.args_below(a, bound as int),
                n == tcx.arg_lists@[a as int]@.len(),
                k <= n,
                entry.step(&*self),
                variance < entry.arena().len(),
                tcx.cons_args(entry.env(), current.view(), entry.built(), d, a, bound as int, entry.term(variance), 0)
                    == tcx.cons_args(entry.env(), current.view(), self.built(), d, a, bound as int, entry.term(variance), k as int),
            decreases n - k,
        {
            let ghost before = *self;
            proof {
                entry.lemma_grown(&before, variance);
            }
            self.add_constraints_from_arg_at(tcx, current, d, a, bound, variance, k);
            proof {
                entry.lemma_step_trans(&before, &*self);
            }
            k = k + 1;
        }
    }

    fn add_constraints_from_arg_at(&mut self, tcx: &TyCtxt, current: &CurrentItem, d: DefId, a: usize, bound: usize, variance: usize, k: usize)
        requires
            tcx.wf(),
            bound <= tcx.types@.len(),
            tcx.args_below(a, bound as int),
            k < tcx.arg_lists@[a as int]@.len(),
            old(self).wf(),
            variance < old(self).arena().len(),
        ensures
            old(self).step(&*final(self)),
            final(self).built() == tcx.cons_arg_at(old(self).env(), current.view(), old(self).built(), d, a, bound as int, old(self).term(variance), k as int),
        decreases bound, 1int, a, tcx.arg_lists@[a as int]@.len() - k, 1int,
    {
        let ghost entry = *self;
        proof {
            self.lemma_step_refl();
            assert(args_below_in(tcx.arg_lists@, a, bound as int));
            assert(match tcx.arg_lists@[a as int]@[k as int] {
                GenericArg::Type(t) => t < bound,
                GenericArg::Const(Const::Alias(b)) => b < a && args_below_in(tcx.arg_lists@, b, bound as int),
                _ => true,
            });
        }
        match self.decl_term(tcx, d, k) {
            None => self.set_stuck(),
            Some(decl) => {
                let variance_i = self.xform(variance, decl);
                let ghost mid = *self;
                proof {
                    mid.lemma_step_refl();
                }
                match tcx.arg_lists[a][k] {
                    GenericArg::Lifetime(region) => self.add_constraints_from_region(current, region, variance_i),
                    GenericArg::Type(u) => self.add_constraints_from_ty(tcx, current, u, variance_i),
                    GenericArg::Const(Const::Alias(b)) => {
                        proof {
                            entry.lemma_grown(&mid, variance);
                        }
                        self.add_constraints_from_invariant_args(tcx, current, b, bound, variance);
                    },
                    GenericArg::Const(_) => {},
                }
                proof {
                    entry.lemma_step_trans(&mid, &*self);
                }
            },
        }
    }

    /// Adds the constraints of arguments that are all invariant, such as a
    /// trait's.
    fn add_constraints_from_invariant_args(&mut self, tcx: &TyCtxt, current: &CurrentItem, a: usize, bound: usize, variance: usize)
        requires
            tcx.wf(),
            bound <= tcx.types@.len(),
            tcx.args_below(a, bound as int),
            old(self).wf(),
            variance < old(self).arena().len(),
        ensures
            old(self).step(&*final(self)),
            final(self).built() == tcx.cons_inv_args(
                old(self).env(),
                current.view(),
                old(self).built(),
                a,
                bound as int,
                spec_xform_term(old(self).term(variance), invariant_term()),
                0,
            ),
        decreases bound, 1int, a, tcx.arg_lists@[a as int]@.len() + 1, 0int,
    {
        let ghost entry = *self;
        let variance_i = self.xform_invariant(variance);
        let ghost vi = self.term(variance_i);
        let ghost start = *self;
        proof {
            self.lemma_step_refl();
        }
        let n = tcx.arg_lists[a].len();
        let mut k: usize = 0;
        while k < n
            invariant
                tcx.wf(),
                bound <= tcx.types@.len(),
                tcx.args_below(a, bound as int),
                n == tcx.arg_lists@[a as int]@.len(),
                k <= n,
                entry.step(&start),
                start.step(&*self),
                variance_i < start.arena().len(),
                vi == start.term(variance_i),
                tcx.cons_inv_args(entry.env(), current.view(), start.built(), a, bound as int, vi, 0)
                    == tcx.cons_inv_args(entry.env(), current.view(), self.built(), a, bound as int, vi, k as int),
            decreases n - k,
        {
            let ghost before = *self;
            proof {
                start.lemma_grown(&before, variance_i);
            }
            self.add_constraints_from_inv_arg_at(tcx, current, a, bound, variance_i, k);
            proof {
                start.lemma_step_trans(&before, &*self);
            }
            k = k + 1;
        }
        proof {
            entry.lemma_step_trans(&start, &*self);
        }
    }

    fn add_constraints_from_inv_arg_at(&mut self, tcx: &TyCtxt, current: &CurrentItem, a: usize, bound: usize, variance_i: usize, k: usize)
        requires
            tcx.wf(),
            bound <= tcx.types@.len(),
            tcx.args_below(a, bound as int),
            k < tcx.arg_lists@[a as int]@.len(),
            old(self).wf(),
            variance_i < old(self).arena().len(),
        ensures
            old(self).step(&*final(self)),
            final(self).built() == tcx.cons_inv_arg_at(old(self).env(), current.view(), old(self).built(), a, bound as int, old(self).term(variance_i), k as int),
        decreases bound, 1int, a, tcx.arg_lists@[a as int]@.len() - k, 1int,
    {
        proof {
            self.lemma_step_refl();
            assert(args_below_in(tcx.arg_lists@, a, bound as int));
            assert(match tcx.arg_lists@[a as int]@[k as int] {
                GenericArg::Type(t) => t < bound,
                GenericArg::Const(Const::Alias(b)) => b < a && args_below_in(tcx.arg_lists@, b, bound as int),
                _ => true,
            });
        }
        match tcx.arg_lists[a][k] {
            GenericArg::Lifetime(region) => self.add_constraints_from_region(current, region, variance_i),
            GenericArg::Type(u) => self.add_constraints_from_ty(tcx, current, u, variance_i),
            GenericArg::Const(Const::Alias(b)) => self.add_constraints_from_invariant_args(tcx, current, b, bound, variance_i),
            GenericArg::Const(_) => {},
        }
    }

    /// Adds the constraints of the types of list `l`: the last in a
    /// position of variance `last`, the others of `variance`.
    fn add_constraints_from_list(&mut self, tcx: &TyCtxt, current: &CurrentItem, l: usize, bound: usize, variance: usize, last: usize)
        requires
            tcx.wf(),
            bound <= tcx.types@.len(),
            tcx.list_below(l, bound as int),
            old(self).wf(),
            variance < old(self).arena().len(),
            last < old(self).arena().len(),
        ensures
            old(self).step(&*final(self)),
            final(self).built() == tcx.cons_list(
                old(self).env(),
                current.view(),
                old(self).built(),
                l,
                bound as int,
                old(self).term(variance),
                old(self).term(last),
                0,
            ),
        decreases bound, 1int, 0int, 0int, 0int,
    {
        let ghost entry = *self;
        proof {
            self.lemma_step_refl();
        }
        let n = tcx.ty_lists[l].len();
        let mut k: usize = 0;
        while k < n
            invariant
                tcx.wf(),
                bound <= tcx.types@.len(),
                tcx.list_below(l, bound as int),
                n == tcx.ty_lists@[l as int]@.len(),
                k <= n,
                entry.step(&*self),
                variance < entry.arena().len(),
                last < entry.arena().len(),
                tcx.cons_list(entry.env(), current.view(), entry.built(), l, bound as int, entry.term(variance), entry.term(last), 0)
                    == tcx.cons_list(entry.env(), current.view(), self.built(), l, bound as int, entry.term(variance), entry.term(last), k as int),
            decreases n - k,
        {
            let ghost before = *self;
            proof {
                entry.lemma_grown(&before, variance);
                entry.lemma_grown(&before, last);
            }
            let u = tcx.ty_lists[l][k];
            let vk = if k == n - 1 {
                last
            } else {
                variance
            };
            self.add_constraints_from_ty(tcx, current, u, vk);
            proof {
                entry.lemma_step_trans(&before, &*self);
            }
            k = k + 1;
        }
    }

    /// Adds the constraints of a signature, inputs followed by the output:
    /// the inputs are contravariant.
    fn add_constraints_from_sig(&mut self, tcx: &TyCtxt, current: &CurrentItem, l: usize, bound: usize, variance: usize)
        requires
            tcx.wf(),
            bound <= tcx.types@.len(),
            tcx.list_below(l, bound as int),
            old(self).wf(),
            variance < old(self).arena().len(),
        ensures
            old(self).step(&*final(self)),
            final(self).built() == tcx.cons_list(
                old(self).env(),
                current.view(),
                old(self).built(),
                l,
                bound as int,
                spec_xform_term(old(self).term(variance), contravariant_term()),
                old(self).term(variance),
                0,
            ),
        decreases bound, 1int, 0int, 0int, 1int,
    {
        let ghost entry = *self;
        let contra = self.contravariant(variance);
        let ghost mid = *self;
        proof {
            entry.lemma_grown(&mid, variance);
        }
        self.add_constraints_from_list(tcx, current, l, bound, contra, variance);
        proof {
            entry.lemma_step_trans(&mid, &*self);
        }
    }

    fn add_constraints_from_pat(&mut self, tcx: &TyCtxt, current: &CurrentItem, variance: usize, p: usize, bound: usize)
        requires
            tcx.wf(),
            bound <= tcx.types@.len(),
            tcx.pattern_wf(p, bound as int),
            old(self).wf(),
            variance < old(self).arena().len(),
        ensures
            old(self).step(&*final(self)),
            final(self).built() == tcx.cons_pat(old(self).env(), current.view(), old(self).built(), p, bound as int, old(self).term(variance)),
        decreases bound, 2int, p, tcx.pat_alternatives(p) + 1, 0int,
    {
        let ghost entry = *self;
        proof {
            self.lemma_step_refl();
        }
        match &tcx.patterns[p] {
            PatternKind::Range { start, end } => {
                if let Const::Alias(b) = *start {
                    self.add_constraints_from_invariant_args(tcx, current, b, bound, variance);
                }
                let ghost mid = *self;
                proof {
                    entry.lemma_grown(&mid, variance);
                    mid.lemma_step_refl();
                }
                if let Const::Alias(b) = *end {
                    self.add_constraints_from_invariant_args(tcx, current, b, bound, variance);
                }
                proof {
                    entry.lemma_step_trans(&mid, &*self);
                }
            },
            PatternKind::NotNull => {},
            PatternKind::Or(ps) => {
                let n = ps.len();
                let mut k: usize = 0;
                while k < n
                    invariant
                        tcx.wf(),
                        bound <= tcx.types@.len(),
                        tcx.pattern_wf(p, bound as int),
                        tcx.patterns@[p as int] == PatternKind::Or(*ps),
                        n == ps@.len(),
                        k <= n,
                        entry.step(&*self),
                        variance < entry.arena().len(),
                        tcx.cons_pats(entry.env(), current.view(), entry.built(), p, bound as int, entry.term(variance), 0)
                            == tcx.cons_pats(entry.env(), current.view(), self.built(), p, bound as int, entry.term(variance), k as int),
                    decreases n - k,
                {
                    let ghost before = *self;
                    proof {
                        entry.lemma_grown(&before, variance);
                    }
                    let q = ps[k];
                    self.add_constraints_from_pat(tcx, current, variance, q, bound);
                    proof {
                        entry.lemma_step_trans(&before, &*self);
                    }
                    k = k + 1;
                }
            },
        }
    }

    fn add_constraints_from_dyn(&mut self, tcx: &TyCtxt, current: &CurrentItem, d: usize, bound: usize, variance: usize)
        requires
            tcx.wf(),
            bound <= tcx.types@.len(),
            tcx.dyn_below(d, bound as int),
            old(self).wf(),
            variance < old(self).arena().len(),
        ensures
            old(self).step(&*final(self)),
            final(self).built() == tcx.cons_dyn(old(self).env(), current.view(), old(self).built(), d, bound as int, old(self).term(variance)),
        decreases bound, 4int, 0int, 0int, 0int,
    {
        let ghost entry = *self;
        proof {
            self.lemma_step_refl();
        }
        if let Some(a) = tcx.dyns[d].principal {
            self.add_constraints_from_invariant_args(tcx, current, a, bound, variance);
        }
        let ghost mid = *self;
        proof {
            mid.lemma_step_refl();
        }
        let n = tcx.dyns[d].projections.len();
        let mut k: usize = 0;
        while k < n
            invariant
                tcx.wf(),
                bound <= tcx.types@.len(),
                tcx.dyn_below(d, bound as int),
                n == tcx.dyns@[d as int].projections@.len(),
                k <= n,
                entry.step(&mid),
                mid.step(&*self),
                tcx.cons_projections(entry.env(), current.view(), mid.built(), d, bound as int, 0)
                    == tcx.cons_projections(entry.env(), current.view(), self.built(), d, bound as int, k as int),
            decreases n - k,
        {
            let ghost before = *self;
            let invariant_term_id = self.invariant;
            proof {
                let pp = tcx.dyns@[d as int].projections@[k as int];
                assert(tcx.args_below(pp.args, bound as int));
            }
            match tcx.dyns[d].projections[k].term {
                Term::Ty(u) => self.add_constraints_from_ty(tcx, current, u, invariant_term_id),
                Term::Const(Const::Alias(b)) => self.add_constraints_from_invariant_args(tcx, current, b, bound, invariant_term_id),
                Term::Const(_) => {
                    proof {
                        self.lemma_step_refl();
                    }
                },
            }
            proof {
                mid.lemma_step_trans(&before, &*self);
            }
            k = k + 1;
        }
        proof {
            entry.lemma_step_trans(&mid, &*self);
        }
    }
}

/// The map from the scheme parameters of the refined variant `variant` to
/// the parameters of its family `family` that its family binders name.
pub open spec fn spec_family_index_map(tcx: &TyCtxt, family: DefId, variant: DefId) -> Seq<Option<u32>> {
    let binders = tcx.defs@[variant as int].binder_scheme;
    Seq::new(
        binders.family@.len(),
        |i: int|
            match find_by_def(tcx.defs@[family as int].own_params@, binders.family@[i].def_id, 0) {
                Some(p) => Some(p.index),
                None => None,
            },
    ) + Seq::new(binders.local@.len(), |i: int| None::<u32>)
}

/// The argument of a refined variant's result is the scheme binder that
/// stands for `family_param`, unchanged.
pub open spec fn spec_scheme_arg_is_family_param(
    tcx: &TyCtxt,
    arg: GenericArg,
    scheme: crate::ty::RefinedVariantScheme,
    family_param: GenericParamDef,
) -> bool {
    match find_by_def(scheme.binders.family@, family_param.def_id, 0) {
        None => false,
        Some(sp) => match arg {
            GenericArg::Type(t) => sp.kind == GenericParamDefKind::Type && t < tcx.types@.len() && tcx.types@[t as int]
                == TyKind::Param(sp.index),
            GenericArg::Lifetime(r) => (sp.kind == GenericParamDefKind::Lifetime || sp.kind
                == GenericParamDefKind::OriginLifetime) && r == Region::EarlyParam(sp.index),
            GenericArg::Const(c) => sp.kind == GenericParamDefKind::Const && c == Const::Param(sp.index),
        },
    }
}

/// The result of the refined variant `variant` passes the family parameter
/// at `position` through unchanged.
pub open spec fn spec_preserves_family_param(
    tcx: &TyCtxt,
    family: DefId,
    variant: DefId,
    position: int,
    family_param: GenericParamDef,
) -> bool {
    match tcx.defs@[variant as int].scheme {
        VariantScheme::Refined(scheme) => scheme.result < tcx.types@.len() && match tcx.types@[scheme.result as int] {
            TyKind::Adt(rd, ra) => rd == family && ra < tcx.arg_lists@.len() && 0 <= position
                < tcx.arg_lists@[ra as int]@.len() && spec_scheme_arg_is_family_param(
                tcx,
                tcx.arg_lists@[ra as int]@[position],
                scheme,
                family_param,
            ),
            _ => false,
        },
        _ => false,
    }
}

/// Every variant of the family is local and passes the family parameter at
/// `position` through unchanged.
pub open spec fn spec_uniform(tcx: &TyCtxt, family: DefId, position: int) -> bool {
    let variants = tcx.defs@[family as int].variants@;
    let param = tcx.defs@[family as int].own_params@[position];
    forall|k: int| 0 <= k < variants.len() ==> {
        let vd = (#[trigger] variants[k]).def_id;
        &&& vd < tcx.defs@.len()
        &&& tcx.defs@[vd as int].is_local
        &&& spec_preserves_family_param(tcx, family, vd, position, param)
    }
}

/// The generics of `d`, or of a definition it is nested in, have a
/// parameter; looking through at most `fuel` of them.
pub open spec fn has_params(tcx: &TyCtxt, d: DefId, fuel: nat) -> bool
    decreases fuel,
{
    if fuel == 0 || d >= tcx.defs@.len() {
        false
    } else if tcx.defs@[d as int].own_params@.len() > 0 {
        true
    } else {
        match tcx.defs@[d as int].parent {
            Some(p) => has_params(tcx, p, (fuel - 1) as nat),
            None => false,
        }
    }
}

impl TyCtxt {
    /// The fields `k..` of a variant, each covariant.
    pub open spec fn cons_fields(&self, env: TermsView, cur: ItemView, s: Built, fields: Seq<DefId>, k: int) -> Built
        decreases fields.len() - k,
    {
        if k < 0 || k >= fields.len() {
            s
        } else {
            let f = fields[k];
            let s1 = if f < self.defs@.len() && self.valid_ty(self.defs@[f as int].type_of) {
                self.cons_ty(env, cur, s, self.defs@[f as int].type_of, VarianceExpr::Constant(Variance::Covariant))
            } else {
                built_stuck(s)
            };
            self.cons_fields(env, cur, s1, fields, k + 1)
        }
    }

    /// The fields of the variants `k..`, each covariant.
    pub open spec fn cons_all_fields(&self, env: TermsView, cur: ItemView, s: Built, variants: Seq<crate::ty::VariantDef>, k: int) -> Built
        decreases variants.len() - k,
    {
        if k < 0 || k >= variants.len() {
            s
        } else {
            self.cons_all_fields(env, cur, self.cons_fields(env, cur, s, variants[k].fields@, 0), variants, k + 1)
        }
    }

    /// The fields of the variants `k..` of the enum `adt`, an item of the
    /// family `family`: those of a refined variant through its map to the
    /// family's parameters.
    pub open spec fn cons_enum_variants(&self, env: TermsView, cur: ItemView, s: Built, family: DefId, adt: DefId, k: int) -> Built
        decreases self.defs@[adt as int].variants@.len() - k,
    {
        let variants = self.defs@[adt as int].variants@;
        if k < 0 || k >= variants.len() {
            s
        } else {
            let vd = variants[k].def_id;
            let s1 = if vd >= self.defs@.len() || !self.defs@[vd as int].is_local {
                built_stuck(s)
            } else if self.defs@[vd as int].refined_syntax {
                self.cons_fields(env, (cur.0, Some(spec_family_index_map(self, family, vd))), s, variants[k].fields@, 0)
            } else {
                self.cons_fields(env, cur, s, variants[k].fields@, 0)
            };
            self.cons_enum_variants(env, cur, s1, family, adt, k + 1)
        }
    }

    /// The family parameters `k..` that some variant does not pass through
    /// unchanged are invariant.
    pub open spec fn cons_floor(&self, cur: ItemView, s: Built, family: DefId, k: int) -> Built
        decreases self.defs@[family as int].own_params@.len() - k,
    {
        let params = self.defs@[family as int].own_params@;
        if k < 0 || k >= params.len() {
            s
        } else {
            let s1 = if spec_uniform(self, family, k) {
                s
            } else {
                built_add(s, cur, params[k].index, invariant_term())
            };
            self.cons_floor(cur, s1, family, k + 1)
        }
    }

    /// Some variant of the enum `family` is written with a result family.
    pub open spec fn any_refined_syntax(&self, family: DefId) -> bool {
        exists|k: int| 0 <= k < self.defs@[family as int].variants@.len() && {
            let vd = (#[trigger] self.defs@[family as int].variants@[k]).def_id;
            vd < self.defs@.len() && self.defs@[vd as int].refined_syntax
        }
    }

    /// The constraints of the item `d`: for a struct, union or constructor
    /// those of its fields; for an enum those of its variants' fields and the
    /// invariance of the family parameters a refined variant does not pass
    /// through; for a function those of its signature.
    pub open spec fn cons_item(&self, env: TermsView, s: Built, d: DefId) -> Built {
        if d >= self.defs@.len() || !has_params(self, d, self.defs@.len()) {
            s
        } else if d >= env.starts.len() || env.starts[d as int] is None {
            built_stuck(s)
        } else {
            let cur: ItemView = (env.starts[d as int]->Some_0 as int, None);
            let t0 = self.defs@[d as int].type_of;
            if !self.valid_ty(t0) {
                built_stuck(s)
            } else {
                let t = match self.spec_exact_constructor_type(t0) {
                    Some(e) => e.base,
                    None => t0,
                };
                if !self.valid_ty(t) {
                    built_stuck(s)
                } else {
                    match self.types@[t as int] {
                        TyKind::Adt(adt, _) => if adt >= self.defs@.len() {
                            built_stuck(s)
                        } else {
                            match self.defs@[d as int].kind {
                                DefKind::Enum => {
                                    let s1 = self.cons_enum_variants(env, cur, s, d, adt, 0);
                                    if self.any_refined_syntax(d) {
                                        self.cons_floor(cur, s1, d, 0)
                                    } else {
                                        s1
                                    }
                                },
                                DefKind::Struct | DefKind::Union | DefKind::Ctor => self.cons_all_fields(
                                    env,
                                    cur,
                                    s,
                                    self.defs@[adt as int].variants@,
                                    0,
                                ),
                                _ => built_stuck(s),
                            }
                        },
                        TyKind::FnDef(_, _, l) => self.cons_list(
                            env,
                            cur,
                            s,
                            l,
                            t as int,
                            spec_xform_term(VarianceExpr::Constant(Variance::Covariant), contravariant_term()),
                            VarianceExpr::Constant(Variance::Covariant),
                            0,
                        ),
                        TyKind::Error => s,
                        _ => built_stuck(s),
                    }
                }
            }
        }
    }

    /// The constraints of the constructors of the variants `k..` of `d`.
    pub open spec fn cons_ctors(&self, env: TermsView, s: Built, d: DefId, k: int) -> Built
        decreases self.defs@[d as int].variants@.len() - k,
    {
        let variants = self.defs@[d as int].variants@;
        if k < 0 || k >= variants.len() {
            s
        } else {
            let s1 = match variants[k].ctor_def_id {
                Some(c) => if c < self.defs@.len() && self.defs@[c as int].is_local {
                    self.cons_item(env, s, c)
                } else {
                    built_stuck(s)
                },
                None => s,
            };
            self.cons_ctors(env, s1, d, k + 1)
        }
    }

    /// The constraints of the local definitions `0..k` of the crate.
    pub open spec fn cons_crate(&self, env: TermsView, k: int) -> Built
        decreases k,
    {
        if k <= 0 {
            (Seq::empty(), false)
        } else {
            let s = self.cons_crate(env, k - 1);
            let d = (k - 1) as usize;
            if !self.defs@[d as int].is_local {
                s
            } else {
                match self.defs@[d as int].kind {
                    DefKind::Struct | DefKind::Union | DefKind::Enum => self.cons_ctors(env, self.cons_item(env, s, d), d, 0),
                    DefKind::Fn | DefKind::AssocFn => self.cons_item(env, s, d),
                    _ => s,
                }
            }
        }
    }
}

/// The map from the scheme parameters of the refined variant `variant_def_id`
/// to the parameters of the family `family_def_id` that its family binders
/// name; its local binders map to nothing.
pub fn refined_variant_family_index_map(tcx: &TyCtxt, family_def_id: DefId, variant_def_id: DefId) -> (map: Vec<Option<u32>>)
    requires
        family_def_id < tcx.defs@.len(),
        variant_def_id < tcx.defs@.len(),
    ensures
        map@ == spec_family_index_map(tcx, family_def_id, variant_def_id),
{
    let binders = &tcx.defs[variant_def_id].binder_scheme;
    let own = &tcx.defs[family_def_id].own_params;
    let mut map: Vec<Option<u32>> = Vec::new();
    let nf = binders.family.len();
    let mut k: usize = 0;
    while k < nf
        invariant
            binders == tcx.defs@[variant_def_id as int].binder_scheme,
            own == tcx.defs@[family_def_id as int].own_params,
            nf == binders.family@.len(),
            k <= nf,
            map@ == spec_family_index_map(tcx, family_def_id, variant_def_id).subrange(0, k as int),
        decreases nf - k,
    {
        let entry = match find_param_by_def(own, binders.family[k].def_id) {
            Some(p) => Some(p.index),
            None => None,
        };
        map.push(entry);
        proof {
            assert(map@ =~= spec_family_index_map(tcx, family_def_id, variant_def_id).subrange(0, k + 1));
        }
        k = k + 1;
    }
    let nl = binders.local.len();
    let mut j: usize = 0;
    while j < nl
        invariant
            binders == tcx.defs@[variant_def_id as int].binder_scheme,
            nf == binders.family@.len(),
            nl == binders.local@.len(),
            j <= nl,
            map@ == spec_family_index_map(tcx, family_def_id, variant_def_id).subrange(0, nf + j),
        decreases nl - j,
    {
        map.push(None);
        proof {
            assert(map@ =~= spec_family_index_map(tcx, family_def_id, variant_def_id).subrange(0, nf + j + 1));
        }
        j = j + 1;
    }
    proof {
        assert(map@ =~= spec_family_index_map(tcx, family_def_id, variant_def_id));
    }
    map
}

/// The argument `arg` of a refined variant's result is the scheme binder
/// that stands for `family_param`, unchanged.
pub fn scheme_arg_is_family_param(
    tcx: &TyCtxt,
    arg: GenericArg,
    scheme: &crate::ty::RefinedVariantScheme,
    family_param: &GenericParamDef,
) -> (is: bool)
    ensures
        is == spec_scheme_arg_is_family_param(tcx, arg, *scheme, *family_param),
{
    let scheme_param = match find_param_by_def(&scheme.binders.family, family_param.def_id) {
        Some(p) => p,
        None => {
            return false;
        },
    };
    match arg {
        GenericArg::Type(t) => {
            if scheme_param.kind != GenericParamDefKind::Type || t >= tcx.types.len() {
                return false;
            }
            tcx.types[t] == TyKind::Param(scheme_param.index)
        },
        GenericArg::Lifetime(r) => (scheme_param.kind == GenericParamDefKind::Lifetime || scheme_param.kind
            == GenericParamDefKind::OriginLifetime) && r == Region::EarlyParam(scheme_param.index),
        GenericArg::Const(c) => scheme_param.kind == GenericParamDefKind::Const && c == Const::Param(scheme_param.index),
    }
}

/// The result of the refined variant `variant_def_id` passes the family
/// parameter at `position` through unchanged.
pub fn refined_result_preserves_family_param(
    tcx: &TyCtxt,
    family_def_id: DefId,
    variant_def_id: DefId,
    position: usize,
    family_param: &GenericParamDef,
) -> (preserves: bool)
    requires
        variant_def_id < tcx.defs@.len(),
    ensures
        preserves == spec_preserves_family_param(tcx, family_def_id, variant_def_id, position as int, *family_param),
{
    let scheme = match &tcx.defs[variant_def_id].scheme {
        VariantScheme::Refined(scheme) => scheme,
        _ => {
            return false;
        },
    };
    if scheme.result >= tcx.types.len() {
        return false;
    }
    let (result_def, result_args) = match tcx.types[scheme.result] {
        TyKind::Adt(d, a) => (d, a),
        _ => {
            return false;
        },
    };
    if result_def != family_def_id || result_args >= tcx.arg_lists.len() {
        return false;
    }
    if position >= tcx.arg_lists[result_args].len() {
        return false;
    }
    scheme_arg_is_family_param(tcx, tcx.arg_lists[result_args][position], scheme, family_param)
}

impl ConstraintContext {
    /// Makes invariant each family parameter of `family_def_id` that some
    /// variant does not pass through unchanged.
    fn add_refined_result_variance_floor(&mut self, tcx: &TyCtxt, family_def_id: DefId, current: &CurrentItem)
        requires
            old(self).wf(),
            family_def_id < tcx.defs@.len(),
        ensures
            old(self).step(&*final(self)),
            final(self).built() == tcx.cons_floor(current.view(), old(self).built(), family_def_id, 0),
    {
        let ghost entry = *self;
        proof {
            self.lemma_step_refl();
        }
        let params = &tcx.defs[family_def_id].own_params;
        let variants = &tcx.defs[family_def_id].variants;
        let n = params.len();
        let mut position: usize = 0;
        while position < n
            invariant
                family_def_id < tcx.defs@.len(),
                params == tcx.defs@[family_def_id as int].own_params,
                variants == tcx.defs@[family_def_id as int].variants,
                n == params@.len(),
                position <= n,
                entry.step(&*self),
                tcx.cons_floor(current.view(), entry.built(), family_def_id, 0) == tcx.cons_floor(
                    current.view(),
                    self.built(),
                    family_def_id,
                    position as int,
                ),
            decreases n - position,
        {
            let family_param = &params[position];
            let nv = variants.len();
            let mut uniform = true;
            let mut k: usize = 0;
            while k < nv
                invariant
                    family_def_id < tcx.defs@.len(),
                    params == tcx.defs@[family_def_id as int].own_params,
                    variants == tcx.defs@[family_def_id as int].variants,
                    position < n,
                    n == params@.len(),
                    *family_param == params@[position as int],
                    nv == variants@.len(),
                    k <= nv,
                    uniform == forall|j: int| 0 <= j < k ==> {
                        let vd = (#[trigger] variants@[j]).def_id;
                        &&& vd < tcx.defs@.len()
                        &&& tcx.defs@[vd as int].is_local
                        &&& spec_preserves_family_param(tcx, family_def_id, vd, position as int, *family_param)
                    },
                decreases nv - k,
            {
                let vd = variants[k].def_id;
                let ok = vd < tcx.defs.len() && tcx.defs[vd].is_local && refined_result_preserves_family_param(
                    tcx,
                    family_def_id,
                    vd,
                    position,
                    family_param,
                );
                if !ok {
                    uniform = false;
                }
                k = k + 1;
            }
            assert(uniform == spec_uniform(tcx, family_def_id, position as int));
            let ghost before = *self;
            if !uniform {
                let invariant_term_id = self.invariant;
                self.add_constraint(current, family_param.index, invariant_term_id);
                proof {
                    entry.lemma_step_trans(&before, &*self);
                }
            }
            position = position + 1;
        }
    }

    /// Adds the constraints of the fields of a variant, each covariant.
    fn add_constraints_from_fields(&mut self, tcx: &TyCtxt, current: &CurrentItem, fields: &Vec<DefId>)
        requires
            tcx.wf(),
            old(self).wf(),
        ensures
            old(self).step(&*final(self)),
            final(self).built() == tcx.cons_fields(old(self).env(), current.view(), old(self).built(), fields@, 0),
    {
        let ghost entry = *self;
        proof {
            self.lemma_step_refl();
        }
        let n = fields.len();
        let mut k: usize = 0;
        while k < n
            invariant
                tcx.wf(),
                n == fields@.len(),
                k <= n,
                entry.step(&*self),
                tcx.cons_fields(entry.env(), current.view(), entry.built(), fields@, 0) == tcx.cons_fields(
                    entry.env(),
                    current.view(),
                    self.built(),
                    fields@,
                    k as int,
                ),
            decreases n - k,
        {
            let ghost before = *self;
            let f = fields[k];
            if f < tcx.defs.len() && tcx.defs[f].type_of < tcx.types.len() {
                let covariant = self.covariant;
                self.add_constraints_from_ty(tcx, current, tcx.defs[f].type_of, covariant);
            } else {
                self.set_stuck();
            }
            proof {
                entry.lemma_step_trans(&before, &*self);
            }
            k = k + 1;
        }
    }

    /// Adds the constraints of the fields of all the variants, each covariant.
    fn add_constraints_from_all_fields(&mut self, tcx: &TyCtxt, current: &CurrentItem, variants: &Vec<crate::ty::VariantDef>)
        requires
            tcx.wf(),
            old(self).wf(),
        ensures
            old(self).step(&*final(self)),
            final(self).built() == tcx.cons_all_fields(old(self).env(), current.view(), old(self).built(), variants@, 0),
    {
        let ghost entry = *self;
        proof {
            self.lemma_step_refl();
        }
        let n = variants.len();
        let mut k: usize = 0;
        while k < n
            invariant
                tcx.wf(),
                n == variants@.len(),
                k <= n,
                entry.step(&*self),
                tcx.cons_all_fields(entry.env(), current.view(), entry.built(), variants@, 0) == tcx.cons_all_fields(
                    entry.env(),
                    current.view(),
                    self.built(),
                    variants@,
                    k as int,
                ),
            decreases n - k,
        {
            let ghost before = *self;
            self.add_constraints_from_fields(tcx, current, &variants[k].fields);
            proof {
                entry.lemma_step_trans(&before, &*self);
            }
            k = k + 1;
        }
    }

    /// Adds the constraints of the variants of the enum `adt`, an item of
    /// the family `family`.
    fn add_constraints_from_enum_variants(&mut self, tcx: &TyCtxt, current: &CurrentItem, family: DefId, adt: DefId)
        requires
            tcx.wf(),
            old(self).wf(),
            family < tcx.defs@.len(),
            adt < tcx.defs@.len(),
            current.param_index_map is None,
        ensures
            old(self).step(&*final(self)),
            final(self).built() == tcx.cons_enum_variants(old(self).env(), current.view(), old(self).built(), family, adt, 0),
    {
        let ghost entry = *self;
        proof {
            self.lemma_step_refl();
        }
        let variants = &tcx.defs[adt].variants;
        let n = variants.len();
        let mut k: usize = 0;
        while k < n
            invariant
                tcx.wf(),
                family < tcx.defs@.len(),
                adt < tcx.defs@.len(),
                current.param_index_map is None,
                variants == tcx.defs@[adt as int].variants,
                n == variants@.len(),
                k <= n,
                entry.step(&*self),
                tcx.cons_enum_variants(entry.env(), current.view(), entry.built(), family, adt, 0)
                    == tcx.cons_enum_variants(entry.env(), current.view(), self.built(), family, adt, k as int),
            decreases n - k,
        {
            let ghost before = *self;
            let vd = variants[k].def_id;
            if vd >= tcx.defs.len() || !tcx.defs[vd].is_local {
                self.set_stuck();
            } else if tcx.defs[vd].refined_syntax {
                let mapped_item = CurrentItem {
                    inferred_start: current.inferred_start,
                    param_index_map: Some(refined_variant_family_index_map(tcx, family, vd)),
                };
                self.add_constraints_from_fields(tcx, &mapped_item, &variants[k].fields);
            } else {
                self.add_constraints_from_fields(tcx, current, &variants[k].fields);
            }
            proof {
                entry.lemma_step_trans(&before, &*self);
            }
            k = k + 1;
        }
    }
}

/// The generics of `d`, or of a definition it is nested in, have a parameter.
pub fn generics_have_params(tcx: &TyCtxt, d: DefId) -> (has: bool)
    ensures
        has == has_params(tcx, d, tcx.defs@.len()),
{
    let mut def = d;
    let mut fuel = tcx.defs.len();
    while fuel > 0 && def < tcx.defs.len()
        invariant
            has_params(tcx, def, fuel as nat) == has_params(tcx, d, tcx.defs@.len()),
        decreases fuel,
    {
        if tcx.defs[def].own_params.len() > 0 {
            return true;
        }
        match tcx.defs[def].parent {
            Some(p) => {
                def = p;
                fuel = fuel - 1;
            },
            None => {
                return false;
            },
        }
    }
    false
}

impl ConstraintContext {
    /// Adds the constraints of the item `def_id`: for a struct, union or
    /// constructor those of its fields; for an enum those of its variants'
    /// fields and the invariance of the family parameters a refined variant
    /// does not pass through; for a function those of its signature. An item
    /// without generics has none.
    fn build_constraints_for_item(&mut self, tcx: &TyCtxt, def_id: DefId)
        requires
            tcx.wf(),
            old(self).wf(),
        ensures
            old(self).step(&*final(self)),
            final(self).built() == tcx.cons_item(old(self).env(), old(self).built(), def_id),
    {
        let ghost entry = *self;
        proof {
            self.lemma_step_refl();
        }
        if def_id >= tcx.defs.len() || !generics_have_params(tcx, def_id) {
            return;
        }
        if def_id >= self.terms_cx.inferred_starts.len() {
            self.set_stuck();
            return;
        }
        let inferred_start = match self.terms_cx.inferred_starts[def_id] {
            Some(start) => start,
            None => {
                self.set_stuck();
                return;
            },
        };
        let current_item = CurrentItem { inferred_start, param_index_map: None };
        let ty0 = tcx.defs[def_id].type_of;
        if ty0 >= tcx.types.len() {
            self.set_stuck();
            return;
        }
        let ty = match tcx.exact_constructor_type(ty0) {
            Some(exact) => exact.base,
            None => ty0,
        };
        if ty >= tcx.types.len() {
            self.set_stuck();
            return;
        }
        proof {
            assert(tcx.kind_below(tcx.types@[ty as int], ty as int));
        }
        match tcx.types[ty] {
            TyKind::Adt(adt, _) => {
                if adt >= tcx.defs.len() {
                    self.set_stuck();
                    return;
                }
                match tcx.defs[def_id].kind {
                    DefKind::Enum => {
                        self.add_constraints_from_enum_variants(tcx, &current_item, def_id, adt);
                        let ghost mid = *self;
                        let variants = &tcx.defs[def_id].variants;
                        let mut any_refined = false;
                        let n = variants.len();
                        let mut k: usize = 0;
                        while k < n
                            invariant
                                def_id < tcx.defs@.len(),
                                variants == tcx.defs@[def_id as int].variants,
                                n == variants@.len(),
                                k <= n,
                                any_refined == exists|j: int| 0 <= j < k && {
                                    let vd = (#[trigger] variants@[j]).def_id;
                                    vd < tcx.defs@.len() && tcx.defs@[vd as int].refined_syntax
                                },
                            decreases n - k,
                        {
                            let vd = variants[k].def_id;
                            if vd < tcx.defs.len() && tcx.defs[vd].refined_syntax {
                                any_refined = true;
                            }
                            k = k + 1;
                        }
                        if any_refined {
                            self.add_refined_result_variance_floor(tcx, def_id, &current_item);
                            proof {
                                entry.lemma_step_trans(&mid, &*self);
                            }
                        }
                    },
                    DefKind::Struct | DefKind::Union | DefKind::Ctor => {
                        self.add_constraints_from_all_fields(tcx, &current_item, &tcx.defs[adt].variants);
                    },
                    _ => self.set_stuck(),
                }
            },
            TyKind::FnDef(_, _, l) => {
                let covariant = self.covariant;
                self.add_constraints_from_sig(tcx, &current_item, l, ty, covariant);
            },
            TyKind::Error => {},
            _ => self.set_stuck(),
        }
    }
}

/// Builds the variance constraints of every item of the crate that has
/// generics, from the terms context of the inferred variances. The crate must
/// hold none of the forms that the compiler rejects as a bug (an item without
/// inferred variances, or whose type is not an ADT or a function): the
/// `stuck` flag of `cons_crate` marks them.
pub fn add_constraints_from_crate(tcx: &TyCtxt, terms_cx: TermsContext) -> (cx: ConstraintContext)
    requires
        tcx.wf(),
        terms_cx.wf(),
        !tcx.cons_crate(terms_cx.env(), tcx.defs@.len() as int).1,
    ensures
        cx.wf(),
        cx.env() == terms_cx.env(),
        cx.built() == tcx.cons_crate(terms_cx.env(), tcx.defs@.len() as int),
        !cx.stuck@,
{
    let ghost env0 = terms_cx.env();
    let mut arena = terms_cx.arena;
    let ghost arena0 = arena@;
    let covariant = arena.len();
    arena.push(VarianceTerm::ConstantTerm(Variance::Covariant));
    let contravariant = arena.len();
    arena.push(VarianceTerm::ConstantTerm(Variance::Contravariant));
    let invariant_id = arena.len();
    arena.push(VarianceTerm::ConstantTerm(Variance::Invariant));
    let bivariant = arena.len();
    arena.push(VarianceTerm::ConstantTerm(Variance::Bivariant));
    let mut cx = ConstraintContext {
        terms_cx: TermsContext {
            arena,
            inferred_starts: terms_cx.inferred_starts,
            inferred_terms: terms_cx.inferred_terms,
        },
        covariant,
        contravariant,
        invariant: invariant_id,
        bivariant,
        constraints: Vec::new(),
        stuck: Ghost(false),
    };
    proof {
        assert(cx.arena().subrange(0, arena0.len() as int) =~= arena0);
        assert forall|k: int| 0 <= k < cx.terms_cx.inferred_terms@.len() implies #[trigger] cx.env().terms[k] == env0.terms[k] by {
            lemma_denote_prefix(arena0, cx.arena(), cx.terms_cx.inferred_terms@[k] as int);
        }
        assert(cx.env().terms =~= env0.terms);
        assert(cx.built().0 =~= Seq::<(int, VarianceExpr)>::empty());
        assert(arena_wf(cx.arena())) by {
            assert forall|i: int| 0 <= i < cx.arena().len() implies match #[trigger] cx.arena()[i] {
                VarianceTerm::TransformTerm(a, b) => a < i && b < i,
                _ => true,
            } by {
                if i < arena0.len() {
                    assert(cx.arena()[i] == arena0[i]);
                }
            }
        }
    }
    let n = tcx.defs.len();
    let mut d: usize = 0;
    while d < n
        invariant
            tcx.wf(),
            n == tcx.defs@.len(),
            d <= n,
            cx.wf(),
            cx.env() == env0,
            cx.built() == tcx.cons_crate(env0, d as int),
        decreases n - d,
    {
        if tcx.defs[d].is_local {
            match tcx.defs[d].kind {
                DefKind::Struct | DefKind::Union | DefKind::Enum => {
                    cx.build_constraints_for_item(tcx, d);
                    let variants = &tcx.defs[d].variants;
                    let nv = variants.len();
                    let mut k: usize = 0;
                    while k < nv
                        invariant
                            tcx.wf(),
                            d < tcx.defs@.len(),
                            variants == tcx.defs@[d as int].variants,
                            nv == variants@.len(),
                            k <= nv,
                            cx.wf(),
                            cx.env() == env0,
                            tcx.cons_ctors(env0, tcx.cons_item(env0, tcx.cons_crate(env0, d as int), d), d, 0) == tcx.cons_ctors(
                                env0,
                                cx.built(),
                                d,
                                k as int,
                            ),
                        decreases nv - k,
                    {
                        match variants[k].ctor_def_id {
                            Some(c) => {
                                if c < tcx.defs.len() && tcx.defs[c].is_local {
                                    cx.build_constraints_for_item(tcx, c);
                                } else {
                                    cx.set_stuck();
                                }
                            },
                            None => {},
                        }
                        k = k + 1;
                    }
                },
                DefKind::Fn | DefKind::AssocFn => {
                    cx.build_constraints_for_item(tcx, d);
                },
                _ => {},
            }
        }
        d = d + 1;
    }
    cx
}

/// An exact constructor type has exactly the variance constraints of its
/// base: walking it adds what walking the base adds.
pub proof fn lemma_exact_constructor_variance(
    tcx: &TyCtxt,
    env: TermsView,
    cur: ItemView,
    s: Built,
    t: TyId,
    v: VarianceExpr,
)
    requires
        tcx.wf(),
        tcx.valid_ty(t),
        tcx.kind(t) matches TyKind::Refined(_, key) && key.0 is Constructor,
    ensures
        tcx.kind(t) matches TyKind::Refined(base, _) && tcx.cons_ty(env, cur, s, t, v) == tcx.cons_ty(env, cur, s, base, v),
{
    assert(tcx.kind_below(tcx.types@[t as int], t as int));
}

/// A raw pointer is walked as a reference is: a `*mut U` in a position of
/// variance `v` gives the constraints of `U` in a position of `v` composed
/// with invariance, as `&mut U` does, and a `*const U` those of `U` in the
/// position `v` itself. Composed with invariance, any position but a
/// bivariant one is invariant.
pub proof fn lemma_raw_ptr_variance(
    tcx: &TyCtxt,
    env: TermsView,
    cur: ItemView,
    s: Built,
    t: TyId,
    v: VarianceExpr,
)
    requires
        tcx.wf(),
        tcx.valid_ty(t),
        tcx.kind(t) is RawPtr,
    ensures
        tcx.kind(t) matches TyKind::RawPtr(u, m) && tcx.cons_ty(env, cur, s, t, v) == tcx.cons_mt(env, cur, s, u, m, v),
        tcx.kind(t) matches TyKind::RawPtr(u, Mutability::Mut)
            ==> tcx.cons_ty(env, cur, s, t, v) == tcx.cons_ty(env, cur, s, u, spec_xform_term(v, invariant_term())),
        tcx.kind(t) matches TyKind::RawPtr(u, Mutability::Not) ==> tcx.cons_ty(env, cur, s, t, v) == tcx.cons_ty(env, cur, s, u, v),
        forall|inferred: Seq<Variance>| eval(v, inferred) != Variance::Bivariant
            ==> #[trigger] eval(spec_xform_term(v, invariant_term()), inferred) == Variance::Invariant,
{
    assert(tcx.kind_below(tcx.types@[t as int], t as int));
    let u = tcx.kind(t)->RawPtr_0;
    let m = tcx.kind(t)->RawPtr_1;
    assert(tcx.cons_ty(env, cur, s, t, v) == tcx.cons_mt(env, cur, s, u, m, v));
    assert(tcx.cons_mt(env, cur, s, u, Mutability::Mut, v) == tcx.cons_ty(env, cur, s, u, spec_xform_term(v, invariant_term())));
    assert(tcx.cons_mt(env, cur, s, u, Mutability::Not, v) == tcx.cons_ty(env, cur, s, u, v));
    assert forall|inferred: Seq<Variance>| eval(v, inferred) != Variance::Bivariant
        implies #[trigger] eval(spec_xform_term(v, invariant_term()), inferred) == Variance::Invariant by {
        lemma_xform_term_sound(v, invariant_term(), inferred);
    }
}

/// A `&mut U` in a position of variance `v` gives the constraints of its
/// region in the position `v`, then those of `U` in the position `v` composed
/// with invariance; a `&U` those of `U` in the position `v` itself.
pub proof fn lemma_ref_variance(
    tcx: &TyCtxt,
    env: TermsView,
    cur: ItemView,
    s: Built,
    t: TyId,
    v: VarianceExpr,
)
    requires
        tcx.wf(),
        tcx.valid_ty(t),
        tcx.kind(t) is Ref,
    ensures
        tcx.kind(t) matches TyKind::Ref(r, u, Mutability::Mut) ==> tcx.cons_ty(env, cur, s, t, v) == tcx.cons_ty(
            env,
            cur,
            built_region(s, cur, r, v),
            u,
            spec_xform_term(v, invariant_term()),
        ),
        tcx.kind(t) matches TyKind::Ref(r, u, Mutability::Not) ==> tcx.cons_ty(env, cur, s, t, v) == tcx.cons_ty(
            env,
            cur,
            built_region(s, cur, r, v),
            u,
            v,
        ),
{
    assert(tcx.kind_below(tcx.types@[t as int], t as int));
    let r = tcx.kind(t)->Ref_0;
    let u = tcx.kind(t)->Ref_1;
    let m = tcx.kind(t)->Ref_2;
    let s1 = built_region(s, cur, r, v);
    assert(tcx.cons_ty(env, cur, s, t, v) == tcx.cons_mt(env, cur, s1, u, m, v));
    assert(tcx.cons_mt(env, cur, s1, u, Mutability::Mut, v) == tcx.cons_ty(env, cur, s1, u, spec_xform_term(v, invariant_term())));
    assert(tcx.cons_mt(env, cur, s1, u, Mutability::Not, v) == tcx.cons_ty(env, cur, s1, u, v));
}

/// Element types keep the position they stand in: a slice's or an array's
/// element, and each element of a tuple, in a position of variance `v`;
/// the inputs of a function pointer in the position of `v` composed with
/// contravariance, its output (the last type of its list) in `v` itself. An
/// array's length, where it is an unevaluated constant, is invariant.
pub proof fn lemma_element_variance(
    tcx: &TyCtxt,
    env: TermsView,
    cur: ItemView,
    s: Built,
    t: TyId,
    v: VarianceExpr,
)
    requires
        tcx.wf(),
        tcx.valid_ty(t),
    ensures
        tcx.kind(t) matches TyKind::Slice(u) ==> tcx.cons_ty(env, cur, s, t, v) == tcx.cons_ty(env, cur, s, u, v),
        tcx.kind(t) matches TyKind::Array(u, c) ==> tcx.cons_ty(env, cur, s, t, v) == tcx.cons_ty(
            env,
            cur,
            match c {
                Const::Alias(b) => tcx.cons_inv_args(env, cur, s, b, t as int, spec_xform_term(v, invariant_term()), 0),
                _ => s,
            },
            u,
            v,
        ),
        tcx.kind(t) matches TyKind::Tuple(l) ==> tcx.cons_ty(env, cur, s, t, v) == tcx.cons_list(env, cur, s, l, t as int, v, v, 0),
        tcx.kind(t) matches TyKind::FnPtr(l) ==> tcx.cons_ty(env, cur, s, t, v) == tcx.cons_list(
            env,
            cur,
            s,
            l,
            t as int,
            spec_xform_term(v, contravariant_term()),
            v,
            0,
        ),
{
    assert(tcx.kind_below(tcx.types@[t as int], t as int));
}

} // verus!
