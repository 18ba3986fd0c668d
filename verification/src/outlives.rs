//! The outlives relation `T: 'a`: the components of a type that must each
//! outlive `'a` for `T: 'a` to hold.
use smallvec::SmallVec;
use vstd::prelude::*;

use crate::ty::{
    args_below_in, AliasTy, AliasTyKind, ClauseKind, Const, GenericArg, PatternKind, RefinementDefinition, Region,
    Term, TyCtxt, TyId, TyKind, Variance,
};

verus! {

/// A part of a type that must outlive a region for the type to outlive it.
#[derive(Debug, PartialEq, Eq)]
pub enum Component {
    Region(Region),
    Param(u32),
    Placeholder(u32),
    UnresolvedInferenceVariable(u32),
    /// An alias without escaping bound variables, with whether it is rigid.
    Alias(bool, AliasTy),
    /// The components of an alias whose arguments hold escaping bound
    /// variables.
    EscapingAlias(Vec<Component>),
}

/// The components found so far, kept in a `SmallVec` of four inline slots.
#[verifier::external_body]
pub struct Components {
    inner: SmallVec<[Component; 4]>,
}

/// The components that a `Components` holds, in order.
pub uninterp spec fn components_of(v: Components) -> Seq<Component>;

/// The most components that the library keeps in one `SmallVec`.
/// `SmallVec::push` panics with "capacity overflow" only when the doubled
/// capacity overflows `usize` or its bytes exceed `isize::MAX`; for items of
/// at most 128 bytes that takes more than 2^55 items on a 64-bit target and
/// more than 2^24 on a 32-bit one. This bound, 2^23, lies below both, so no
/// push within it panics; it is a limit chosen by the library, far above the
/// components of any type the compiler meets.
pub const MAX_COMPONENTS: usize = 0x80_0000;

impl Components {
    /// `SmallVec::new`: holds no component.
    #[verifier::external_body]
    fn smallvec_new() -> (v: Self)
        ensures
            components_of(v) == Seq::<Component>::empty(),
    {
        Components { inner: SmallVec::new() }
    }

    /// No component yet.
    pub fn new() -> (v: Self)
        ensures
            components_of(v) == Seq::<Component>::empty(),
    {
        Self::smallvec_new()
    }

    /// The components, in order.
    pub fn into_vec(self) -> (v: Vec<Component>)
        ensures
            v@ == components_of(self),
    {
        self.smallvec_into_vec()
    }

    /// `SmallVec::push`: appends `component`. It panics when the grown
    /// capacity overflows, which the bound on the length rules out; a failed
    /// allocation aborts the process, which no contract here can exclude.
    #[verifier::external_body]
    fn smallvec_push(&mut self, component: Component)
        requires
            components_of(*old(self)).len() < MAX_COMPONENTS,
        ensures
            components_of(*final(self)) == components_of(*old(self)).push(component),
    {
        self.inner.push(component);
    }

    /// `SmallVec::into_vec`: the components, in order.
    #[verifier::external_body]
    fn smallvec_into_vec(self) -> (v: Vec<Component>)
        ensures
            v@ == components_of(self),
    {
        self.inner.into_vec()
    }
}

/// Appends `found` to `out`, in order.
pub fn extend_components(out: &mut Components, found: Vec<Component>)
    requires
        components_of(*old(out)).len() + found@.len() <= MAX_COMPONENTS,
    ensures
        components_of(*final(out)) == components_of(*old(out)) + found@,
{
    let ghost base = components_of(*out);
    let ghost all = found@;
    let mut rest = found;
    while rest.len() > 0
        invariant
            base.len() + all.len() <= MAX_COMPONENTS,
            components_of(*out) + rest@ == base + all,
            components_of(*out).len() + rest@.len() == base.len() + all.len(),
        decreases rest@.len(),
    {
        let ghost before = components_of(*out);
        let ghost rest_before = rest@;
        let c = rest.remove(0);
        out.smallvec_push(c);
        proof {
            assert(components_of(*out) + rest@ =~= before + rest_before);
        }
    }
    proof {
        assert(components_of(*out) + rest@ =~= components_of(*out));
    }
}

/// Combines two answers of the escape check: `None` wins, else either.
pub open spec fn or_esc(a: Option<bool>, b: Option<bool>) -> Option<bool> {
    match (a, b) {
        (Some(x), Some(y)) => Some(x || y),
        _ => None,
    }
}

/// The binder depth inside one more binder; a depth past every de Bruijn
/// index stays where it is.
pub open spec fn inner_depth(depth: int) -> int {
    if depth > u32::MAX {
        depth
    } else {
        depth + 1
    }
}

/// An instantiation for the escape check: the arguments, and whether each
/// holds a bound variable escaping it.
pub type EscSubst = Option<(Seq<GenericArg>, Seq<bool>)>;

/// Whether `r`, under `depth` binders, refers to a binder outside them; after
/// instantiation with `subst` where given. `None` where a parameter has no
/// argument of its kind.
pub open spec fn esc_region(r: Region, depth: int, subst: EscSubst) -> Option<bool> {
    match r {
        Region::Bound(d) => Some(d >= depth),
        Region::EarlyParam(i) => match subst {
            None => Some(false),
            Some((args, escapes)) => if i < args.len() && args[i as int] is Lifetime {
                Some(escapes[i as int])
            } else {
                None
            },
        },
        _ => Some(false),
    }
}

/// The escape check of a constant that is not an unevaluated one.
pub open spec fn esc_const_leaf(c: Const, subst: EscSubst) -> Option<bool> {
    match c {
        Const::Param(i) => match subst {
            None => Some(false),
            Some((args, escapes)) => if i < args.len() && args[i as int] is Const {
                Some(escapes[i as int])
            } else {
                None
            },
        },
        _ => Some(false),
    }
}

impl TyCtxt {
    /// Whether `t`, under `depth` binders, holds a bound variable that refers
    /// to a binder outside them; after instantiation with `subst` where given.
    pub open spec fn esc_ty(&self, t: TyId, depth: int, subst: EscSubst) -> Option<bool>
        decreases t + 1, 0int, 0int, 0int, 0int,
    {
        if t >= self.types@.len() {
            Some(false)
        } else {
            match self.types@[t as int] {
                TyKind::Bound(d) => Some(d >= depth),
                TyKind::Param(i) => match subst {
                    None => Some(false),
                    Some((args, escapes)) => if i < args.len() && args[i as int] is Type {
                        Some(escapes[i as int])
                    } else {
                        None
                    },
                },
                TyKind::Adt(_, a) | TyKind::FnDef(_, a, _) => self.esc_args(a, t as int, depth, subst, 0),
                TyKind::Alias(_, alias) => self.esc_args(alias.args, t as int, depth, subst, 0),
                TyKind::Array(ty, c) => if ty < t {
                    or_esc(
                        self.esc_ty(ty, depth, subst),
                        match c {
                            Const::Alias(b) => self.esc_args(b, t as int, depth, subst, 0),
                            _ => esc_const_leaf(c, subst),
                        },
                    )
                } else {
                    Some(false)
                },
                TyKind::Pat(ty, p) => if ty < t {
                    or_esc(self.esc_ty(ty, depth, subst), self.esc_pat(p, t as int, depth, subst))
                } else {
                    Some(false)
                },
                TyKind::Slice(ty) | TyKind::RawPtr(ty, _) => if ty < t {
                    self.esc_ty(ty, depth, subst)
                } else {
                    Some(false)
                },
                TyKind::UnsafeBinder(ty) => if ty < t {
                    self.esc_ty(ty, inner_depth(depth), subst)
                } else {
                    Some(false)
                },
                TyKind::Ref(r, ty, _) => if ty < t {
                    or_esc(esc_region(r, depth, subst), self.esc_ty(ty, depth, subst))
                } else {
                    Some(false)
                },
                TyKind::FnPtr(l) => self.esc_list(l, t as int, inner_depth(depth), subst, 0),
                TyKind::Tuple(l) => self.esc_list(l, t as int, depth, subst, 0),
                TyKind::Dynamic(d, r) => or_esc(self.esc_dyn(d, t as int, inner_depth(depth), subst), esc_region(r, depth, subst)),
                TyKind::Closure(_, c) => if c.sig_as_fn_ptr < t && c.upvars < t {
                    or_esc(
                        self.esc_args(c.parent, t as int, depth, subst, 0),
                        or_esc(self.esc_ty(c.sig_as_fn_ptr, depth, subst), self.esc_ty(c.upvars, depth, subst)),
                    )
                } else {
                    Some(false)
                },
                TyKind::CoroutineClosure(_, c) => if c.signature_parts < t && c.upvars < t && c.captures_by_ref < t {
                    or_esc(
                        self.esc_args(c.parent, t as int, depth, subst, 0),
                        or_esc(
                            self.esc_ty(c.signature_parts, depth, subst),
                            or_esc(self.esc_ty(c.captures_by_ref, depth, subst), self.esc_ty(c.upvars, depth, subst)),
                        ),
                    )
                } else {
                    Some(false)
                },
                TyKind::Coroutine(_, c) => if c.resume < t && c.yield_ty < t && c.return_ty < t && c.upvars < t {
                    or_esc(
                        self.esc_args(c.parent, t as int, depth, subst, 0),
                        or_esc(
                            or_esc(self.esc_ty(c.resume, depth, subst), self.esc_ty(c.yield_ty, depth, subst)),
                            or_esc(self.esc_ty(c.return_ty, depth, subst), self.esc_ty(c.upvars, depth, subst)),
                        ),
                    )
                } else {
                    Some(false)
                },
                TyKind::Refined(ty, key) => if ty < t {
                    or_esc(
                        self.esc_ty(ty, depth, subst),
                        match key.0 {
                            RefinementDefinition::Pattern(p) => self.esc_pat(p, t as int, depth, subst),
                            RefinementDefinition::Constructor { .. } => Some(false),
                        },
                    )
                } else {
                    Some(false)
                },
                _ => Some(false),
            }
        }
    }

    /// The escape check of the arguments `k..` of list `a`.
    pub open spec fn esc_args(&self, a: usize, bound: int, depth: int, subst: EscSubst, k: int) -> Option<bool>
        decreases bound, 1int, a, self.arg_lists@[a as int]@.len() - k + 1, 0int,
    {
        if a >= self.arg_lists@.len() || k < 0 || k >= self.arg_lists@[a as int]@.len() {
            Some(false)
        } else {
            or_esc(self.esc_arg_at(a, bound, depth, subst, k), self.esc_args(a, bound, depth, subst, k + 1))
        }
    }

    /// The escape check of argument `k` of list `a`.
    pub open spec fn esc_arg_at(&self, a: usize, bound: int, depth: int, subst: EscSubst, k: int) -> Option<bool>
        decreases bound, 1int, a, self.arg_lists@[a as int]@.len() - k, 1int,
    {
        if a >= self.arg_lists@.len() || k < 0 || k >= self.arg_lists@[a as int]@.len() {
            Some(false)
        } else {
            match self.arg_lists@[a as int]@[k] {
                GenericArg::Lifetime(r) => esc_region(r, depth, subst),
                GenericArg::Type(ty) => if ty < bound {
                    self.esc_ty(ty, depth, subst)
                } else {
                    Some(false)
                },
                GenericArg::Const(Const::Alias(b)) => if b < a {
                    self.esc_args(b, bound, depth, subst, 0)
                } else {
                    Some(false)
                },
                GenericArg::Const(c) => esc_const_leaf(c, subst),
            }
        }
    }

    /// The escape check of the types `k..` of list `l`.
    pub open spec fn esc_list(&self, l: usize, bound: int, depth: int, subst: EscSubst, k: int) -> Option<bool>
        decreases bound, 1int, 0int, self.ty_lists@[l as int]@.len() - k, 0int,
    {
        if l >= self.ty_lists@.len() || k < 0 || k >= self.ty_lists@[l as int]@.len() {
            Some(false)
        } else {
            let ty = self.ty_lists@[l as int]@[k];
            or_esc(
                if ty < bound {
                    self.esc_ty(ty, depth, subst)
                } else {
                    Some(false)
                },
                self.esc_list(l, bound, depth, subst, k + 1),
            )
        }
    }

    pub open spec fn esc_pat(&self, p: usize, bound: int, depth: int, subst: EscSubst) -> Option<bool>
        decreases bound, 2int, p, self.pat_alternatives(p) + 1, 0int,
    {
        if p >= self.patterns@.len() {
            Some(false)
        } else {
            match self.patterns@[p as int] {
                PatternKind::Range { start, end } => or_esc(
                    match start {
                        Const::Alias(b) => self.esc_args(b, bound, depth, subst, 0),
                        _ => Some(false),
                    },
                    match end {
                        Const::Alias(b) => self.esc_args(b, bound, depth, subst, 0),
                        _ => Some(false),
                    },
                ),
                PatternKind::NotNull => Some(false),
                PatternKind::Or(ps) => self.esc_pats(p, bound, depth, subst, 0),
            }
        }
    }

    pub open spec fn esc_pats(&self, p: usize, bound: int, depth: int, subst: EscSubst, k: int) -> Option<bool>
        decreases bound, 2int, p, self.pat_alternatives(p) - k, 0int,
    {
        if p >= self.patterns@.len() || k < 0 {
            Some(false)
        } else {
            match self.patterns@[p as int] {
                PatternKind::Or(ps) => if k >= ps@.len() {
                    Some(false)
                } else {
                    or_esc(
                        if ps@[k] < p {
                            self.esc_pat(ps@[k], bound, depth, subst)
                        } else {
                            Some(false)
                        },
                        self.esc_pats(p, bound, depth, subst, k + 1),
                    )
                },
                _ => Some(false),
            }
        }
    }

    pub open spec fn esc_dyn(&self, d: usize, bound: int, depth: int, subst: EscSubst) -> Option<bool>
        decreases bound, 4int, 0int, 0int, 0int,
    {
        if d >= self.dyns@.len() {
            Some(false)
        } else {
            or_esc(
                match self.dyns@[d as int].principal {
                    Some(a) => self.esc_args(a, bound, depth, subst, 0),
                    None => Some(false),
                },
                self.esc_projections(d, bound, depth, subst, 0),
            )
        }
    }

    pub open spec fn esc_projections(&self, d: usize, bound: int, depth: int, subst: EscSubst, k: int) -> Option<bool>
        decreases bound, 3int, 0int, self.dyns@[d as int].projections@.len() - k, 0int,
    {
        if d >= self.dyns@.len() || k < 0 || k >= self.dyns@[d as int].projections@.len() {
            Some(false)
        } else {
            let p = self.dyns@[d as int].projections@[k];
            or_esc(
                or_esc(
                    self.esc_args(p.args, bound, depth, subst, 0),
                    match p.term {
                        Term::Ty(ty) => if ty < bound {
                            self.esc_ty(ty, depth, subst)
                        } else {
                            Some(false)
                        },
                        Term::Const(Const::Alias(b)) => self.esc_args(b, bound, depth, subst, 0),
                        Term::Const(c) => esc_const_leaf(c, subst),
                    },
                ),
                self.esc_projections(d, bound, depth, subst, k + 1),
            )
        }
    }
}

/// The spec form of an instantiation for the escape check.
pub open spec fn subst_view(subst: Option<(&Vec<GenericArg>, &Vec<bool>)>) -> EscSubst {
    match subst {
        None => None,
        Some((args, escapes)) => Some((args@, escapes@)),
    }
}

pub open spec fn subst_ok(subst: Option<(&Vec<GenericArg>, &Vec<bool>)>) -> bool {
    match subst {
        None => true,
        Some((args, escapes)) => args@.len() == escapes@.len(),
    }
}

fn or_opt(a: Option<bool>, b: Option<bool>) -> (c: Option<bool>)
    ensures
        c == or_esc(a, b),
{
    match (a, b) {
        (Some(x), Some(y)) => Some(x || y),
        _ => None,
    }
}

fn next_depth(depth: u64) -> (inner: u64)
    requires
        depth <= 0x1_0000_0000,
    ensures
        inner == inner_depth(depth as int),
        inner <= 0x1_0000_0000,
{
    if depth > 0xFFFF_FFFF {
        depth
    } else {
        depth + 1
    }
}

fn escapes_region(r: Region, depth: u64, subst: Option<(&Vec<GenericArg>, &Vec<bool>)>) -> (e: Option<bool>)
    requires
        subst_ok(subst),
    ensures
        e == esc_region(r, depth as int, subst_view(subst)),
{
    match r {
        Region::Bound(d) => Some(d as u64 >= depth),
        Region::EarlyParam(i) => match subst {
            None => Some(false),
            Some((args, escapes)) => {
                if (i as usize) < args.len() {
                    if let GenericArg::Lifetime(_) = args[i as usize] {
                        return Some(escapes[i as usize]);
                    }
                }
                None
            },
        },
        _ => Some(false),
    }
}

fn escapes_const_leaf(c: Const, subst: Option<(&Vec<GenericArg>, &Vec<bool>)>) -> (e: Option<bool>)
    requires
        subst_ok(subst),
    ensures
        e == esc_const_leaf(c, subst_view(subst)),
{
    match c {
        Const::Param(i) => match subst {
            None => Some(false),
            Some((args, escapes)) => {
                if (i as usize) < args.len() {
                    if let GenericArg::Const(_) = args[i as usize] {
                        return Some(escapes[i as usize]);
                    }
                }
                None
            },
        },
        _ => Some(false),
    }
}

/// Whether `t`, under `depth` binders, holds a bound variable that refers to
/// a binder outside them; after instantiation with `subst` where given.
pub fn escapes_ty(tcx: &TyCtxt, t: TyId, depth: u64, subst: Option<(&Vec<GenericArg>, &Vec<bool>)>) -> (e: Option<bool>)
    requires
        tcx.wf(),
        tcx.valid_ty(t),
        depth <= 0x1_0000_0000,
        subst_ok(subst),
    ensures
        e == tcx.esc_ty(t, depth as int, subst_view(subst)),
    decreases t + 1, 0int, 0int, 0int, 0int,
{
    proof {
        assert(tcx.kind_below(tcx.types@[t as int], t as int));
    }
    match tcx.types[t] {
        TyKind::Bound(d) => Some(d as u64 >= depth),
        TyKind::Param(i) => match subst {
            None => Some(false),
            Some((args, escapes)) => {
                if (i as usize) < args.len() {
                    if let GenericArg::Type(_) = args[i as usize] {
                        return Some(escapes[i as usize]);
                    }
                }
                None
            },
        },
        TyKind::Adt(_, a) | TyKind::FnDef(_, a, _) => escapes_args(tcx, a, t, depth, subst),
        TyKind::Alias(_, alias) => escapes_args(tcx, alias.args, t, depth, subst),
        TyKind::Array(ty, c) => {
            let x = escapes_ty(tcx, ty, depth, subst);
            let y = match c {
                Const::Alias(b) => escapes_args(tcx, b, t, depth, subst),
                _ => escapes_const_leaf(c, subst),
            };
            or_opt(x, y)
        },
        TyKind::Pat(ty, p) => {
            let x = escapes_ty(tcx, ty, depth, subst);
            let y = escapes_pat(tcx, p, t, depth, subst);
            or_opt(x, y)
        },
        TyKind::Slice(ty) | TyKind::RawPtr(ty, _) => escapes_ty(tcx, ty, depth, subst),
        TyKind::UnsafeBinder(ty) => escapes_ty(tcx, ty, next_depth(depth), subst),
        TyKind::Ref(r, ty, _) => {
            let x = escapes_region(r, depth, subst);
            let y = escapes_ty(tcx, ty, depth, subst);
            or_opt(x, y)
        },
        TyKind::FnPtr(l) => escapes_list(tcx, l, t, next_depth(depth), subst),
        TyKind::Tuple(l) => escapes_list(tcx, l, t, depth, subst),
        TyKind::Dynamic(d, r) => {
            let x = escapes_dyn(tcx, d, t, next_depth(depth), subst);
            let y = escapes_region(r, depth, subst);
            or_opt(x, y)
        },
        TyKind::Closure(_, c) => {
            let x = escapes_args(tcx, c.parent, t, depth, subst);
            let y = escapes_ty(tcx, c.sig_as_fn_ptr, depth, subst);
            let z = escapes_ty(tcx, c.upvars, depth, subst);
            or_opt(x, or_opt(y, z))
        },
        TyKind::CoroutineClosure(_, c) => {
            let x = escapes_args(tcx, c.parent, t, depth, subst);
            let y = escapes_ty(tcx, c.signature_parts, depth, subst);
            let z = escapes_ty(tcx, c.captures_by_ref, depth, subst);
            let u = escapes_ty(tcx, c.upvars, depth, subst);
            or_opt(x, or_opt(y, or_opt(z, u)))
        },
        TyKind::Coroutine(_, c) => {
            let x = escapes_args(tcx, c.parent, t, depth, subst);
            let y = escapes_ty(tcx, c.resume, depth, subst);
            let z = escapes_ty(tcx, c.yield_ty, depth, subst);
            let u = escapes_ty(tcx, c.return_ty, depth, subst);
            let v = escapes_ty(tcx, c.upvars, depth, subst);
            or_opt(x, or_opt(or_opt(y, z), or_opt(u, v)))
        },
        TyKind::Refined(ty, key) => {
            let x = escapes_ty(tcx, ty, depth, subst);
            let y = match key.0 {
                RefinementDefinition::Pattern(p) => escapes_pat(tcx, p, t, depth, subst),
                RefinementDefinition::Constructor { .. } => Some(false),
            };
            or_opt(x, y)
        },
        _ => Some(false),
    }
}

pub fn escapes_args(tcx: &TyCtxt, a: usize, bound: usize, depth: u64, subst: Option<(&Vec<GenericArg>, &Vec<bool>)>) -> (e: Option<bool>)
    requires
        tcx.wf(),
        bound <= tcx.types@.len(),
        tcx.args_below(a, bound as int),
        depth <= 0x1_0000_0000,
        subst_ok(subst),
    ensures
        e == tcx.esc_args(a, bound as int, depth as int, subst_view(subst), 0),
    decreases bound, 1int, a, tcx.arg_lists@[a as int]@.len() + 1, 0int,
{
    let n = tcx.arg_lists[a].len();
    let mut found: Vec<Option<bool>> = Vec::new();
    let mut k: usize = 0;
    while k < n
        invariant
            tcx.wf(),
            bound <= tcx.types@.len(),
            tcx.args_below(a, bound as int),
            depth <= 0x1_0000_0000,
            subst_ok(subst),
            n == tcx.arg_lists@[a as int]@.len(),
            k <= n,
            found@.len() == k,
            forall|j: int| 0 <= j < k ==> #[trigger] found@[j] == tcx.esc_arg_at(a, bound as int, depth as int, subst_view(subst), j),
        decreases n - k,
    {
        proof {
            assert(args_below_in(tcx.arg_lists@, a, bound as int));
            assert(match tcx.arg_lists@[a as int]@[k as int] {
                GenericArg::Type(t) => t < bound,
                GenericArg::Const(Const::Alias(b)) => b < a && args_below_in(tcx.arg_lists@, b, bound as int),
                _ => true,
            });
        }
        let head = match tcx.arg_lists[a][k] {
            GenericArg::Lifetime(r) => escapes_region(r, depth, subst),
            GenericArg::Type(ty) => escapes_ty(tcx, ty, depth, subst),
            GenericArg::Const(Const::Alias(b)) => escapes_args(tcx, b, bound, depth, subst),
            GenericArg::Const(c) => escapes_const_leaf(c, subst),
        };
        found.push(head);
        k = k + 1;
    }
    let mut acc: Option<bool> = Some(false);
    let mut j: usize = n;
    while j > 0
        invariant
            n == tcx.arg_lists@[a as int]@.len(),
            found@.len() == n,
            j <= n,
            forall|i: int| 0 <= i < n ==> #[trigger] found@[i] == tcx.esc_arg_at(a, bound as int, depth as int, subst_view(subst), i),
            acc == tcx.esc_args(a, bound as int, depth as int, subst_view(subst), j as int),
        decreases j,
    {
        j = j - 1;
        acc = or_opt(found[j], acc);
    }
    acc
}

pub fn escapes_list(tcx: &TyCtxt, l: usize, bound: usize, depth: u64, subst: Option<(&Vec<GenericArg>, &Vec<bool>)>) -> (e: Option<bool>)
    requires
        tcx.wf(),
        bound <= tcx.types@.len(),
        tcx.list_below(l, bound as int),
        depth <= 0x1_0000_0000,
        subst_ok(subst),
    ensures
        e == tcx.esc_list(l, bound as int, depth as int, subst_view(subst), 0),
    decreases bound, 1int, 0int, 0int, 0int,
{
    let n = tcx.ty_lists[l].len();
    let mut acc: Option<bool> = Some(false);
    let mut k: usize = 0;
    while k < n
        invariant
            tcx.wf(),
            bound <= tcx.types@.len(),
            tcx.list_below(l, bound as int),
            depth <= 0x1_0000_0000,
            subst_ok(subst),
            n == tcx.ty_lists@[l as int]@.len(),
            k <= n,
            tcx.esc_list(l, bound as int, depth as int, subst_view(subst), 0) == or_esc(
                acc,
                tcx.esc_list(l, bound as int, depth as int, subst_view(subst), k as int),
            ),
        decreases n - k,
    {
        let ty = tcx.ty_lists[l][k];
        let head = escapes_ty(tcx, ty, depth, subst);
        acc = or_opt(acc, head);
        k = k + 1;
    }
    acc
}

pub fn escapes_pat(tcx: &TyCtxt, p: usize, bound: usize, depth: u64, subst: Option<(&Vec<GenericArg>, &Vec<bool>)>) -> (e: Option<bool>)
    requires
        tcx.wf(),
        bound <= tcx.types@.len(),
        tcx.pattern_wf(p, bound as int),
        depth <= 0x1_0000_0000,
        subst_ok(subst),
    ensures
        e == tcx.esc_pat(p, bound as int, depth as int, subst_view(subst)),
    decreases bound, 2int, p, tcx.pat_alternatives(p) + 1, 0int,
{
    match &tcx.patterns[p] {
        PatternKind::Range { start, end } => {
            let x = match *start {
                Const::Alias(b) => escapes_args(tcx, b, bound, depth, subst),
                _ => Some(false),
            };
            let y = match *end {
                Const::Alias(b) => escapes_args(tcx, b, bound, depth, subst),
                _ => Some(false),
            };
            or_opt(x, y)
        },
        PatternKind::NotNull => Some(false),
        PatternKind::Or(ps) => {
            let n = ps.len();
            let mut acc: Option<bool> = Some(false);
            let mut k: usize = 0;
            while k < n
                invariant
                    tcx.wf(),
                    bound <= tcx.types@.len(),
                    tcx.pattern_wf(p, bound as int),
                    depth <= 0x1_0000_0000,
                    subst_ok(subst),
                    tcx.patterns@[p as int] == PatternKind::Or(*ps),
                    n == ps@.len(),
                    k <= n,
                    tcx.esc_pats(p, bound as int, depth as int, subst_view(subst), 0) == or_esc(
                        acc,
                        tcx.esc_pats(p, bound as int, depth as int, subst_view(subst), k as int),
                    ),
                decreases n - k,
            {
                let q = ps[k];
                let head = escapes_pat(tcx, q, bound, depth, subst);
                acc = or_opt(acc, head);
                k = k + 1;
            }
            acc
        },
    }
}

pub fn escapes_dyn(tcx: &TyCtxt, d: usize, bound: usize, depth: u64, subst: Option<(&Vec<GenericArg>, &Vec<bool>)>) -> (e: Option<bool>)
    requires
        tcx.wf(),
        bound <= tcx.types@.len(),
        tcx.dyn_below(d, bound as int),
        depth <= 0x1_0000_0000,
        subst_ok(subst),
    ensures
        e == tcx.esc_dyn(d, bound as int, depth as int, subst_view(subst)),
    decreases bound, 4int, 0int, 0int, 0int,
{
    let principal = match tcx.dyns[d].principal {
        Some(a) => escapes_args(tcx, a, bound, depth, subst),
        None => Some(false),
    };
    let n = tcx.dyns[d].projections.len();
    let mut acc: Option<bool> = Some(false);
    let mut k: usize = 0;
    while k < n
        invariant
            tcx.wf(),
            bound <= tcx.types@.len(),
            tcx.dyn_below(d, bound as int),
            depth <= 0x1_0000_0000,
            subst_ok(subst),
            n == tcx.dyns@[d as int].projections@.len(),
            k <= n,
            tcx.esc_projections(d, bound as int, depth as int, subst_view(subst), 0) == or_esc(
                acc,
                tcx.esc_projections(d, bound as int, depth as int, subst_view(subst), k as int),
            ),
        decreases n - k,
    {
        let proj = tcx.dyns[d].projections[k];
        proof {
            let pp = tcx.dyns@[d as int].projections@[k as int];
            assert(tcx.args_below(pp.args, bound as int));
        }
        let x = escapes_args(tcx, proj.args, bound, depth, subst);
        let y = match proj.term {
            Term::Ty(ty) => escapes_ty(tcx, ty, depth, subst),
            Term::Const(Const::Alias(b)) => escapes_args(tcx, b, bound, depth, subst),
            Term::Const(c) => escapes_const_leaf(c, subst),
        };
        acc = or_opt(acc, or_opt(x, y));
        k = k + 1;
    }
    or_opt(principal, acc)
}

/// A component as the contracts speak of it.
pub enum ComponentView {
    Region(Region),
    Param(u32),
    Placeholder(u32),
    UnresolvedInferenceVariable(u32),
    Alias(bool, AliasTy),
    EscapingAlias(Seq<ComponentView>),
}

pub open spec fn component_view(c: Component) -> ComponentView
    decreases c,
{
    match c {
        Component::Region(r) => ComponentView::Region(r),
        Component::Param(p) => ComponentView::Param(p),
        Component::Placeholder(p) => ComponentView::Placeholder(p),
        Component::UnresolvedInferenceVariable(v) => ComponentView::UnresolvedInferenceVariable(v),
        Component::Alias(rigid, alias) => ComponentView::Alias(rigid, alias),
        Component::EscapingAlias(v) => ComponentView::EscapingAlias(
            Seq::new(
                v@.len(),
                |i: int|
                    if 0 <= i < v@.len() {
                        component_view(v@[i])
                    } else {
                        ComponentView::Param(0)
                    },
            ),
        ),
    }
}

pub open spec fn views(s: Seq<Component>) -> Seq<ComponentView> {
    Seq::new(s.len(), |i: int| component_view(s[i]))
}

pub proof fn lemma_views_push(s: Seq<Component>, c: Component)
    ensures
        views(s.push(c)) == views(s).push(component_view(c)),
{
    assert(views(s.push(c)) =~= views(s).push(component_view(c)));
}

/// What a collector has found, which types it has visited, and whether it
/// has met a function item whose arguments hold escaping bound variables
/// (which it cannot describe).
pub type Collected = (Seq<ComponentView>, Seq<bool>, bool);

pub open spec fn col_push(s: Collected, c: ComponentView) -> Collected {
    (s.0.push(c), s.1, s.2)
}

/// A region is a component unless a binder inside the type binds it.
pub open spec fn col_region(s: Collected, r: Region) -> Collected {
    if r is Bound {
        s
    } else {
        col_push(s, ComponentView::Region(r))
    }
}

pub open spec fn alias_def(kind: AliasTyKind) -> usize {
    match kind {
        AliasTyKind::Projection(d) | AliasTyKind::Inherent(d) | AliasTyKind::Opaque(d) | AliasTyKind::Free(d) => d,
    }
}

impl TyCtxt {
    /// Argument `k` of the alias is bivariant, so it imposes no outlives
    /// requirement.
    pub open spec fn skips_arg(&self, alias: AliasTy, k: int) -> bool {
        let d = alias_def(alias.kind);
        &&& d < self.defs@.len()
        &&& match self.defs@[d as int].alias_variances {
            Some(v) => k < v@.len() && v@[k] == Variance::Bivariant,
            None => false,
        }
    }

    /// A collector's visited types at its start: none.
    pub open spec fn fresh_visited(&self) -> Seq<bool> {
        Seq::new(self.types@.len(), |i: int| false)
    }

    /// The components of `t` that a collector in state `s` finds, and its
    /// state after: a type met before is skipped; callable, closure and
    /// coroutine types give what is observable of them (their signature only
    /// where `p`, static identity, is kept); an alias without escaping bound
    /// variables is one component, one with them gives its arguments'
    /// components.
    pub open spec fn col_ty(&self, s: Collected, t: TyId, p: bool) -> Collected
        decreases t + 1, 0int, 0int, 0int, 0int,
    {
        if t >= self.types@.len() || s.1[t as int] {
            s
        } else {
            let s1 = (s.0, s.1.update(t as int, true), s.2);
            match self.types@[t as int] {
                TyKind::FnDef(_, a, l) => if self.esc_args(a, t as int, 0, None, 0) == Some(true) {
                    (s1.0, s1.1, true)
                } else {
                    let s2 = self.col_args(s1, a, t as int, p, true, 0);
                    if p {
                        self.col_list(s2, l, t as int, p, 0)
                    } else {
                        s2
                    }
                },
                TyKind::Closure(_, c) => if c.sig_as_fn_ptr < t && c.upvars < t {
                    let s2 = self.col_ty(s1, c.upvars, p);
                    if p {
                        self.col_ty(s2, c.sig_as_fn_ptr, p)
                    } else {
                        s2
                    }
                } else {
                    s1
                },
                TyKind::CoroutineClosure(_, c) => if c.signature_parts < t && c.upvars < t && c.captures_by_ref < t {
                    let s2 = self.col_ty(s1, c.upvars, p);
                    if p {
                        self.col_ty(self.col_ty(s2, c.signature_parts, p), c.captures_by_ref, p)
                    } else {
                        s2
                    }
                } else {
                    s1
                },
                TyKind::Coroutine(_, c) => if c.resume < t && c.yield_ty < t && c.return_ty < t && c.upvars < t {
                    let s2 = self.col_ty(self.col_ty(s1, c.upvars, p), c.resume, p);
                    if p {
                        self.col_ty(self.col_ty(s2, c.yield_ty, p), c.return_ty, p)
                    } else {
                        s2
                    }
                } else {
                    s1
                },
                TyKind::CoroutineWitness(_) => s1,
                TyKind::Param(i) => col_push(s1, ComponentView::Param(i)),
                TyKind::Placeholder(i) => col_push(s1, ComponentView::Placeholder(i)),
                TyKind::Infer(i) => col_push(s1, ComponentView::UnresolvedInferenceVariable(i)),
                TyKind::Alias(rigid, alias) => if self.esc_args(alias.args, t as int, 0, None, 0) == Some(true) {
                    let inner = self.col_alias_args((Seq::empty(), self.fresh_visited(), false), alias, t as int, p, 0);
                    (s1.0.push(ComponentView::EscapingAlias(inner.0)), s1.1, s1.2 || inner.2)
                } else {
                    col_push(s1, ComponentView::Alias(rigid, alias))
                },
                TyKind::Adt(_, a) => self.col_args(s1, a, t as int, p, false, 0),
                TyKind::Array(ty, c) => if ty < t {
                    let s2 = self.col_ty(s1, ty, p);
                    match c {
                        Const::Alias(b) => self.col_args(s2, b, t as int, p, false, 0),
                        _ => s2,
                    }
                } else {
                    s1
                },
                TyKind::Pat(ty, q) => if ty < t {
                    self.col_pat(self.col_ty(s1, ty, p), q, t as int, p)
                } else {
                    s1
                },
                TyKind::Slice(ty) | TyKind::RawPtr(ty, _) | TyKind::UnsafeBinder(ty) => if ty < t {
                    self.col_ty(s1, ty, p)
                } else {
                    s1
                },
                TyKind::Ref(r, ty, _) => if ty < t {
                    self.col_ty(col_region(s1, r), ty, p)
                } else {
                    s1
                },
                TyKind::FnPtr(l) | TyKind::Tuple(l) => self.col_list(s1, l, t as int, p, 0),
                TyKind::Dynamic(d, r) => col_region(self.col_dyn(s1, d, t as int, p), r),
                TyKind::Refined(ty, key) => if ty < t {
                    let s2 = self.col_ty(s1, ty, p);
                    match key.0 {
                        RefinementDefinition::Pattern(q) => self.col_pat(s2, q, t as int, p),
                        RefinementDefinition::Constructor { .. } => s2,
                    }
                } else {
                    s1
                },
                _ => s1,
            }
        }
    }

    /// Argument `k` of list `a`; its lifetimes are skipped where `skip`.
    pub open spec fn col_arg_at(&self, s: Collected, a: usize, bound: int, p: bool, skip: bool, k: int) -> Collected
        decreases bound, 1int, a, self.arg_lists@[a as int]@.len() - k, 1int,
    {
        if a >= self.arg_lists@.len() || k < 0 || k >= self.arg_lists@[a as int]@.len() {
            s
        } else {
            match self.arg_lists@[a as int]@[k] {
                GenericArg::Lifetime(r) => if skip {
                    s
                } else {
                    col_region(s, r)
                },
                GenericArg::Type(ty) => if ty < bound {
                    self.col_ty(s, ty, p)
                } else {
                    s
                },
                GenericArg::Const(Const::Alias(b)) => if b < a {
                    self.col_args(s, b, bound, p, false, 0)
                } else {
                    s
                },
                GenericArg::Const(_) => s,
            }
        }
    }

    /// Arguments `k..` of list `a`.
    pub open spec fn col_args(&self, s: Collected, a: usize, bound: int, p: bool, skip: bool, k: int) -> Collected
        decreases bound, 1int, a, self.arg_lists@[a as int]@.len() - k + 1, 0int,
    {
        if a >= self.arg_lists@.len() || k < 0 || k >= self.arg_lists@[a as int]@.len() {
            s
        } else {
            self.col_args(self.col_arg_at(s, a, bound, p, skip, k), a, bound, p, skip, k + 1)
        }
    }

    /// Arguments `k..` of the alias, but for the bivariant ones.
    pub open spec fn col_alias_args(&self, s: Collected, alias: AliasTy, bound: int, p: bool, k: int) -> Collected
        decreases bound, 1int, alias.args, self.arg_lists@[alias.args as int]@.len() - k + 1, 0int,
    {
        let a = alias.args;
        if a >= self.arg_lists@.len() || k < 0 || k >= self.arg_lists@[a as int]@.len() {
            s
        } else if self.skips_arg(alias, k) {
            self.col_alias_args(s, alias, bound, p, k + 1)
        } else {
            self.col_alias_args(self.col_arg_at(s, a, bound, p, false, k), alias, bound, p, k + 1)
        }
    }

    /// Types `k..` of list `l`.
    pub open spec fn col_list(&self, s: Collected, l: usize, bound: int, p: bool, k: int) -> Collected
        decreases bound, 1int, 0int, self.ty_lists@[l as int]@.len() - k, 0int,
    {
        if l >= self.ty_lists@.len() || k < 0 || k >= self.ty_lists@[l as int]@.len() {
            s
        } else {
            let ty = self.ty_lists@[l as int]@[k];
            let s2 = if ty < bound {
                self.col_ty(s, ty, p)
            } else {
                s
            };
            self.col_list(s2, l, bound, p, k + 1)
        }
    }

    pub open spec fn col_pat(&self, s: Collected, q: usize, bound: int, p: bool) -> Collected
        decreases bound, 2int, q, self.pat_alternatives(q) + 1, 0int,
    {
        if q >= self.patterns@.len() {
            s
        } else {
            match self.patterns@[q as int] {
                PatternKind::Range { start, end } => {
                    let s2 = match start {
                        Const::Alias(b) => self.col_args(s, b, bound, p, false, 0),
                        _ => s,
                    };
                    match end {
                        Const::Alias(b) => self.col_args(s2, b, bound, p, false, 0),
                        _ => s2,
                    }
                },
                PatternKind::NotNull => s,
                PatternKind::Or(_) => self.col_pats(s, q, bound, p, 0),
            }
        }
    }

    pub open spec fn col_pats(&self, s: Collected, q: usize, bound: int, p: bool, k: int) -> Collected
        decreases bound, 2int, q, self.pat_alternatives(q) - k, 0int,
    {
        if q >= self.patterns@.len() || k < 0 {
            s
        } else {
            match self.patterns@[q as int] {
                PatternKind::Or(ps) => if k >= ps@.len() {
                    s
                } else {
                    let s2 = if ps@[k] < q {
                        self.col_pat(s, ps@[k], bound, p)
                    } else {
                        s
                    };
                    self.col_pats(s2, q, bound, p, k + 1)
                },
                _ => s,
            }
        }
    }

    pub open spec fn col_dyn(&self, s: Collected, d: usize, bound: int, p: bool) -> Collected
        decreases bound, 4int, 0int, 0int, 0int,
    {
        if d >= self.dyns@.len() {
            s
        } else {
            let s2 = match self.dyns@[d as int].principal {
                Some(a) => self.col_args(s, a, bound, p, false, 0),
                None => s,
            };
            self.col_projections(s2, d, bound, p, 0)
        }
    }

    pub open spec fn col_projections(&self, s: Collected, d: usize, bound: int, p: bool, k: int) -> Collected
        decreases bound, 3int, 0int, self.dyns@[d as int].projections@.len() - k, 0int,
    {
        if d >= self.dyns@.len() || k < 0 || k >= self.dyns@[d as int].projections@.len() {
            s
        } else {
            let proj = self.dyns@[d as int].projections@[k];
            let s2 = self.col_args(s, proj.args, bound, p, false, 0);
            let s3 = match proj.term {
                Term::Ty(ty) => if ty < bound {
                    self.col_ty(s2, ty, p)
                } else {
                    s2
                },
                Term::Const(Const::Alias(b)) => self.col_args(s2, b, bound, p, false, 0),
                Term::Const(_) => s2,
            };
            self.col_projections(s3, d, bound, p, k + 1)
        }
    }
}

/// What a fresh collector gives for `ty`: the components that must each
/// outlive `'a` for `ty: 'a` to hold, with the callable interface kept where
/// `preserve_static_identity`.
pub open spec fn outlives_collected(tcx: &TyCtxt, ty: TyId, preserve_static_identity: bool) -> Collected {
    tcx.col_ty((Seq::empty(), tcx.fresh_visited(), false), ty, preserve_static_identity)
}

/// What a fresh collector gives for the arguments of `alias`, but for the
/// bivariant ones.
pub open spec fn alias_collected(tcx: &TyCtxt, alias: AliasTy, preserve_static_identity: bool) -> Collected {
    tcx.col_alias_args(
        (Seq::empty(), tcx.fresh_visited(), false),
        alias,
        tcx.types@.len() as int,
        preserve_static_identity,
        0,
    )
}

/// Collects the outlives components of types, visiting each type once.
pub struct OutlivesCollector {
    pub preserve_static_identity: bool,
    /// `visited[t]`: type `t` was visited.
    pub visited: Vec<bool>,
    /// Whether a function item whose arguments hold escaping bound variables
    /// was met.
    pub stuck: Ghost<bool>,
}

impl OutlivesCollector {
    pub open spec fn state(&self, out: Seq<Component>) -> Collected {
        (views(out), self.visited@, self.stuck@)
    }

    pub open spec fn ready(&self, tcx: &TyCtxt) -> bool {
        self.visited@.len() == tcx.types@.len()
    }

    /// A collector that has visited nothing.
    pub fn new(tcx: &TyCtxt, preserve_static_identity: bool) -> (collector: Self)
        ensures
            collector.ready(tcx),
            collector.visited@ == tcx.fresh_visited(),
            !collector.stuck@,
            collector.preserve_static_identity == preserve_static_identity,
    {
        let collector = OutlivesCollector {
            preserve_static_identity,
            visited: vec![false; tcx.types.len()],
            stuck: Ghost(false),
        };
        proof {
            assert(collector.visited@ =~= tcx.fresh_visited());
        }
        collector
    }

    fn visit_region(&self, r: Region, out: &mut Vec<Component>)
        ensures
            self.state(final(out)@) == col_region(self.state(old(out)@), r),
    {
        if !matches!(r, Region::Bound(_)) {
            proof {
                lemma_views_push(out@, Component::Region(r));
            }
            out.push(Component::Region(r));
        }
    }

    fn visit_ty(&mut self, tcx: &TyCtxt, t: TyId, out: &mut Vec<Component>)
        requires
            tcx.wf(),
            tcx.valid_ty(t),
            old(self).ready(tcx),
        ensures
            final(self).ready(tcx),
            final(self).preserve_static_identity == old(self).preserve_static_identity,
            final(self).state(final(out)@) == tcx.col_ty(
                old(self).state(old(out)@),
                t,
                old(self).preserve_static_identity,
            ),
        decreases t + 1, 0int, 0int, 0int, 0int,
    {
        if self.visited[t] {
            return;
        }
        self.visited.set(t, true);
        proof {
            assert(tcx.kind_below(tcx.types@[t as int], t as int));
        }
        match tcx.types[t] {
            TyKind::FnDef(_, a, l) => {
                if escapes_args(tcx, a, t, 0, None) == Some(true) {
                    proof {
                        self.stuck@ = true;
                    }
                    return;
                }
                self.visit_args(tcx, a, t, true, out);
                if self.preserve_static_identity {
                    self.visit_list(tcx, l, t, out);
                }
            },
            TyKind::Closure(_, c) => {
                self.visit_ty(tcx, c.upvars, out);
                if self.preserve_static_identity {
                    self.visit_ty(tcx, c.sig_as_fn_ptr, out);
                }
            },
            TyKind::CoroutineClosure(_, c) => {
                self.visit_ty(tcx, c.upvars, out);
                if self.preserve_static_identity {
                    self.visit_ty(tcx, c.signature_parts, out);
                    self.visit_ty(tcx, c.captures_by_ref, out);
                }
            },
            TyKind::Coroutine(_, c) => {
                self.visit_ty(tcx, c.upvars, out);
                self.visit_ty(tcx, c.resume, out);
                if self.preserve_static_identity {
                    self.visit_ty(tcx, c.yield_ty, out);
                    self.visit_ty(tcx, c.return_ty, out);
                }
            },
            TyKind::CoroutineWitness(_) => {},
            TyKind::Param(i) => {
                proof {
                    lemma_views_push(out@, Component::Param(i));
                }
                out.push(Component::Param(i));
            },
            TyKind::Placeholder(i) => {
                proof {
                    lemma_views_push(out@, Component::Placeholder(i));
                }
                out.push(Component::Placeholder(i));
            },
            TyKind::Infer(i) => {
                proof {
                    lemma_views_push(out@, Component::UnresolvedInferenceVariable(i));
                }
                out.push(Component::UnresolvedInferenceVariable(i));
            },
            TyKind::Alias(rigid, alias) => {
                if escapes_args(tcx, alias.args, t, 0, None) == Some(true) {
                    let mut sub: Vec<Component> = Vec::new();
                    let mut inner = OutlivesCollector::new(tcx, self.preserve_static_identity);
                    proof {
                        assert(views(sub@) =~= Seq::<ComponentView>::empty());
                    }
                    inner.visit_alias_args(tcx, alias, t, &mut sub);
                    let component = Component::EscapingAlias(sub);
                    proof {
                        assert(component_view(component) == ComponentView::EscapingAlias(views(sub@))) by {
                            assert(component_view(component)->EscapingAlias_0 =~= views(sub@));
                        }
                        lemma_views_push(out@, component);
                    }
                    out.push(component);
                    proof {
                        self.stuck@ = self.stuck@ || inner.stuck@;
                    }
                } else {
                    proof {
                        lemma_views_push(out@, Component::Alias(rigid, alias));
                    }
                    out.push(Component::Alias(rigid, alias));
                }
            },
            TyKind::Adt(_, a) => self.visit_args(tcx, a, t, false, out),
            TyKind::Array(ty, c) => {
                self.visit_ty(tcx, ty, out);
                if let Const::Alias(b) = c {
                    self.visit_args(tcx, b, t, false, out);
                }
            },
            TyKind::Pat(ty, q) => {
                self.visit_ty(tcx, ty, out);
                self.visit_pat(tcx, q, t, out);
            },
            TyKind::Slice(ty) | TyKind::RawPtr(ty, _) | TyKind::UnsafeBinder(ty) => self.visit_ty(tcx, ty, out),
            TyKind::Ref(r, ty, _) => {
                self.visit_region(r, out);
                self.visit_ty(tcx, ty, out);
            },
            TyKind::FnPtr(l) | TyKind::Tuple(l) => self.visit_list(tcx, l, t, out),
            TyKind::Dynamic(d, r) => {
                self.visit_dyn(tcx, d, t, out);
                self.visit_region(r, out);
            },
            TyKind::Refined(ty, key) => {
                self.visit_ty(tcx, ty, out);
                if let RefinementDefinition::Pattern(q) = key.0 {
                    self.visit_pat(tcx, q, t, out);
                }
            },
            _ => {},
        }
    }

    /// Visits argument `k` of list `a`; its lifetimes are skipped where `skip`.
    fn visit_arg_at(&mut self, tcx: &TyCtxt, a: usize, bound: usize, skip: bool, k: usize, out: &mut Vec<Component>)
        requires
            tcx.wf(),
            bound <= tcx.types@.len(),
            tcx.args_below(a, bound as int),
            k < tcx.arg_lists@[a as int]@.len(),
            old(self).ready(tcx),
        ensures
            final(self).ready(tcx),
            final(self).preserve_static_identity == old(self).preserve_static_identity,
            final(self).state(final(out)@) == tcx.col_arg_at(
                old(self).state(old(out)@),
                a,
                bound as int,
                old(self).preserve_static_identity,
                skip,
                k as int,
            ),
        decreases bound, 1int, a, tcx.arg_lists@[a as int]@.len() - k, 1int,
    {
        proof {
            assert(args_below_in(tcx.arg_lists@, a, bound as int));
            assert(match tcx.arg_lists@[a as int]@[k as int] {
                GenericArg::Type(t) => t < bound,
                GenericArg::Const(Const::Alias(b)) => b < a && args_below_in(tcx.arg_lists@, b, bound as int),
                _ => true,
            });
        }
        match tcx.arg_lists[a][k] {
            GenericArg::Lifetime(r) => {
                if !skip {
                    self.visit_region(r, out);
                }
            },
            GenericArg::Type(ty) => self.visit_ty(tcx, ty, out),
            GenericArg::Const(Const::Alias(b)) => self.visit_args(tcx, b, bound, false, out),
            GenericArg::Const(_) => {},
        }
    }

    /// Visits the arguments of list `a`; their lifetimes are skipped where `skip`.
    fn visit_args(&mut self, tcx: &TyCtxt, a: usize, bound: usize, skip: bool, out: &mut Vec<Component>)
        requires
            tcx.wf(),
            bound <= tcx.types@.len(),
            tcx.args_below(a, bound as int),
            old(self).ready(tcx),
        ensures
            final(self).ready(tcx),
            final(self).preserve_static_identity == old(self).preserve_static_identity,
            final(self).state(final(out)@) == tcx.col_args(
                old(self).state(old(out)@),
                a,
                bound as int,
                old(self).preserve_static_identity,
                skip,
                0,
            ),
        decreases bound, 1int, a, tcx.arg_lists@[a as int]@.len() + 1, 0int,
    {
        let n = tcx.arg_lists[a].len();
        let ghost p = self.preserve_static_identity;
        let mut k: usize = 0;
        while k < n
            invariant
                tcx.wf(),
                bound <= tcx.types@.len(),
                tcx.args_below(a, bound as int),
                n == tcx.arg_lists@[a as int]@.len(),
                k <= n,
                self.ready(tcx),
                self.preserve_static_identity == p,
                tcx.col_args(old(self).state(old(out)@), a, bound as int, p, skip, 0) == tcx.col_args(
                    self.state(out@),
                    a,
                    bound as int,
                    p,
                    skip,
                    k as int,
                ),
            decreases n - k,
        {
            self.visit_arg_at(tcx, a, bound, skip, k, out);
            k = k + 1;
        }
    }

    /// Visits the arguments of `alias`, but for the bivariant ones.
    fn visit_alias_args(&mut self, tcx: &TyCtxt, alias: AliasTy, bound: usize, out: &mut Vec<Component>)
        requires
            tcx.wf(),
            bound <= tcx.types@.len(),
            tcx.args_below(alias.args, bound as int),
            old(self).ready(tcx),
        ensures
            final(self).ready(tcx),
            final(self).preserve_static_identity == old(self).preserve_static_identity,
            final(self).state(final(out)@) == tcx.col_alias_args(
                old(self).state(old(out)@),
                alias,
                bound as int,
                old(self).preserve_static_identity,
                0,
            ),
        decreases bound, 1int, alias.args, tcx.arg_lists@[alias.args as int]@.len() + 1, 0int,
    {
        let a = alias.args;
        let def = match alias.kind {
            AliasTyKind::Projection(d) | AliasTyKind::Inherent(d) | AliasTyKind::Opaque(d) | AliasTyKind::Free(d) => d,
        };
        let n = tcx.arg_lists[a].len();
        let ghost p = self.preserve_static_identity;
        let mut k: usize = 0;
        while k < n
            invariant
                tcx.wf(),
                bound <= tcx.types@.len(),
                tcx.args_below(a, bound as int),
                a == alias.args,
                def == alias_def(alias.kind),
                n == tcx.arg_lists@[a as int]@.len(),
                k <= n,
                self.ready(tcx),
                self.preserve_static_identity == p,
                tcx.col_alias_args(old(self).state(old(out)@), alias, bound as int, p, 0) == tcx.col_alias_args(
                    self.state(out@),
                    alias,
                    bound as int,
                    p,
                    k as int,
                ),
            decreases n - k,
        {
            let mut bivariant = false;
            if def < tcx.defs.len() {
                if let Some(variances) = &tcx.defs[def].alias_variances {
                    if k < variances.len() {
                        bivariant = variances[k] == Variance::Bivariant;
                    }
                }
            }
            assert(bivariant == tcx.skips_arg(alias, k as int));
            if !bivariant {
                self.visit_arg_at(tcx, a, bound, false, k, out);
            }
            k = k + 1;
        }
    }

    fn visit_list(&mut self, tcx: &TyCtxt, l: usize, bound: usize, out: &mut Vec<Component>)
        requires
            tcx.wf(),
            bound <= tcx.types@.len(),
            tcx.list_below(l, bound as int),
            old(self).ready(tcx),
        ensures
            final(self).ready(tcx),
            final(self).preserve_static_identity == old(self).preserve_static_identity,
            final(self).state(final(out)@) == tcx.col_list(
                old(self).state(old(out)@),
                l,
                bound as int,
                old(self).preserve_static_identity,
                0,
            ),
        decreases bound, 1int, 0int, 0int, 0int,
    {
        let n = tcx.ty_lists[l].len();
        let ghost p = self.preserve_static_identity;
        let mut k: usize = 0;
        while k < n
            invariant
                tcx.wf(),
                bound <= tcx.types@.len(),
                tcx.list_below(l, bound as int),
                n == tcx.ty_lists@[l as int]@.len(),
                k <= n,
                self.ready(tcx),
                self.preserve_static_identity == p,
                tcx.col_list(old(self).state(old(out)@), l, bound as int, p, 0) == tcx.col_list(
                    self.state(out@),
                    l,
                    bound as int,
                    p,
                    k as int,
                ),
            decreases n - k,
        {
            let ty = tcx.ty_lists[l][k];
            self.visit_ty(tcx, ty, out);
            k = k + 1;
        }
    }

    fn visit_pat(&mut self, tcx: &TyCtxt, q: usize, bound: usize, out: &mut Vec<Component>)
        requires
            tcx.wf(),
            bound <= tcx.types@.len(),
            tcx.pattern_wf(q, bound as int),
            old(self).ready(tcx),
        ensures
            final(self).ready(tcx),
            final(self).preserve_static_identity == old(self).preserve_static_identity,
            final(self).state(final(out)@) == tcx.col_pat(
                old(self).state(old(out)@),
                q,
                bound as int,
                old(self).preserve_static_identity,
            ),
        decreases bound, 2int, q, tcx.pat_alternatives(q) + 1, 0int,
    {
        match &tcx.patterns[q] {
            PatternKind::Range { start, end } => {
                if let Const::Alias(b) = *start {
                    self.visit_args(tcx, b, bound, false, out);
                }
                if let Const::Alias(b) = *end {
                    self.visit_args(tcx, b, bound, false, out);
                }
            },
            PatternKind::NotNull => {},
            PatternKind::Or(ps) => {
                let n = ps.len();
                let ghost p = self.preserve_static_identity;
                let mut k: usize = 0;
                while k < n
                    invariant
                        tcx.wf(),
                        bound <= tcx.types@.len(),
                        tcx.pattern_wf(q, bound as int),
                        tcx.patterns@[q as int] == PatternKind::Or(*ps),
                        n == ps@.len(),
                        k <= n,
                        self.ready(tcx),
                        self.preserve_static_identity == p,
                        tcx.col_pats(old(self).state(old(out)@), q, bound as int, p, 0) == tcx.col_pats(
                            self.state(out@),
                            q,
                            bound as int,
                            p,
                            k as int,
                        ),
                    decreases n - k,
                {
                    let alt = ps[k];
                    self.visit_pat(tcx, alt, bound, out);
                    k = k + 1;
                }
            },
        }
    }

    fn visit_dyn(&mut self, tcx: &TyCtxt, d: usize, bound: usize, out: &mut Vec<Component>)
        requires
            tcx.wf(),
            bound <= tcx.types@.len(),
            tcx.dyn_below(d, bound as int),
            old(self).ready(tcx),
        ensures
            final(self).ready(tcx),
            final(self).preserve_static_identity == old(self).preserve_static_identity,
            final(self).state(final(out)@) == tcx.col_dyn(
                old(self).state(old(out)@),
                d,
                bound as int,
                old(self).preserve_static_identity,
            ),
        decreases bound, 4int, 0int, 0int, 0int,
    {
        if let Some(a) = tcx.dyns[d].principal {
            self.visit_args(tcx, a, bound, false, out);
        }
        let ghost mid = self.state(out@);
        let ghost p = self.preserve_static_identity;
        let n = tcx.dyns[d].projections.len();
        let mut k: usize = 0;
        while k < n
            invariant
                tcx.wf(),
                bound <= tcx.types@.len(),
                tcx.dyn_below(d, bound as int),
                n == tcx.dyns@[d as int].projections@.len(),
                k <= n,
                self.ready(tcx),
                self.preserve_static_identity == p,
                tcx.col_projections(mid, d, bound as int, p, 0) == tcx.col_projections(
                    self.state(out@),
                    d,
                    bound as int,
                    p,
                    k as int,
                ),
            decreases n - k,
        {
            let proj = tcx.dyns[d].projections[k];
            proof {
                let pp = tcx.dyns@[d as int].projections@[k as int];
                assert(tcx.args_below(pp.args, bound as int));
            }
            self.visit_args(tcx, proj.args, bound, false, out);
            match proj.term {
                Term::Ty(ty) => self.visit_ty(tcx, ty, out),
                Term::Const(Const::Alias(b)) => self.visit_args(tcx, b, bound, false, out),
                Term::Const(_) => {},
            }
            k = k + 1;
        }
    }
}

/// Collects the components of `ty` with a fresh collector.
pub fn collect_outlives_components(tcx: &TyCtxt, ty: TyId, preserve_static_identity: bool) -> (found: Vec<Component>)
    requires
        tcx.wf(),
        tcx.valid_ty(ty),
        !outlives_collected(tcx, ty, preserve_static_identity).2,
    ensures
        views(found@) == outlives_collected(tcx, ty, preserve_static_identity).0,
{
    let mut found: Vec<Component> = Vec::new();
    let mut collector = OutlivesCollector::new(tcx, preserve_static_identity);
    proof {
        assert(views(found@) =~= Seq::<ComponentView>::empty());
    }
    collector.visit_ty(tcx, ty, &mut found);
    found
}

/// Collects the components of the arguments of `alias`, but for the
/// bivariant ones, with a fresh collector.
pub fn collect_alias_components(tcx: &TyCtxt, alias: AliasTy, preserve_static_identity: bool) -> (found: Vec<Component>)
    requires
        tcx.wf(),
        tcx.args_below(alias.args, tcx.types@.len() as int),
        !alias_collected(tcx, alias, preserve_static_identity).2,
    ensures
        views(found@) == alias_collected(tcx, alias, preserve_static_identity).0,
{
    let mut found: Vec<Component> = Vec::new();
    let mut collector = OutlivesCollector::new(tcx, preserve_static_identity);
    proof {
        assert(views(found@) =~= Seq::<ComponentView>::empty());
    }
    collector.visit_alias_args(tcx, alias, tcx.types.len(), &mut found);
    found
}

/// `out` grew from `before` by components whose views are `added`.
pub open spec fn appended(before: Seq<Component>, after: Seq<Component>, added: Seq<ComponentView>) -> bool {
    &&& after.len() == before.len() + added.len()
    &&& after.subrange(0, before.len() as int) == before
    &&& views(after.subrange(before.len() as int, after.len() as int)) == added
}

proof fn lemma_appended(before: Seq<Component>, found: Seq<Component>, added: Seq<ComponentView>)
    requires
        views(found) == added,
    ensures
        appended(before, before + found, added),
{
    assert((before + found).subrange(0, before.len() as int) =~= before);
    assert((before + found).subrange(before.len() as int, (before + found).len() as int) =~= found);
}

fn push_outlives_components_inner(tcx: &TyCtxt, ty: TyId, preserve_static_identity: bool, out: &mut Components)
    requires
        tcx.wf(),
        tcx.valid_ty(ty),
        !outlives_collected(tcx, ty, preserve_static_identity).2,
        components_of(*old(out)).len() + outlives_collected(tcx, ty, preserve_static_identity).0.len() <= MAX_COMPONENTS,
    ensures
        appended(components_of(*old(out)), components_of(*final(out)), outlives_collected(tcx, ty, preserve_static_identity).0),
{
    let found = collect_outlives_components(tcx, ty, preserve_static_identity);
    proof {
        lemma_appended(components_of(*out), found@, outlives_collected(tcx, ty, preserve_static_identity).0);
    }
    extend_components(out, found);
}

/// Pushes onto `out` all the things that must outlive `'a` for `ty: 'a` to
/// hold.
pub fn push_outlives_components(tcx: &TyCtxt, ty: TyId, out: &mut Components)
    requires
        tcx.wf(),
        tcx.valid_ty(ty),
        !outlives_collected(tcx, ty, false).2,
        components_of(*old(out)).len() + outlives_collected(tcx, ty, false).0.len() <= MAX_COMPONENTS,
    ensures
        appended(components_of(*old(out)), components_of(*final(out)), outlives_collected(tcx, ty, false).0),
{
    push_outlives_components_inner(tcx, ty, false, out);
}

/// Like `push_outlives_components`, but keeps the components of the callable
/// interface, for a target that is or may become `'static`.
pub fn push_static_outlives_components(tcx: &TyCtxt, ty: TyId, out: &mut Components)
    requires
        tcx.wf(),
        tcx.valid_ty(ty),
        !outlives_collected(tcx, ty, true).2,
        components_of(*old(out)).len() + outlives_collected(tcx, ty, true).0.len() <= MAX_COMPONENTS,
    ensures
        appended(components_of(*old(out)), components_of(*final(out)), outlives_collected(tcx, ty, true).0),
{
    push_outlives_components_inner(tcx, ty, true, out);
}

fn compute_alias_components_recursive_inner(tcx: &TyCtxt, alias: AliasTy, preserve_static_identity: bool, out: &mut Components)
    requires
        tcx.wf(),
        tcx.args_below(alias.args, tcx.types@.len() as int),
        !alias_collected(tcx, alias, preserve_static_identity).2,
        components_of(*old(out)).len() + alias_collected(tcx, alias, preserve_static_identity).0.len() <= MAX_COMPONENTS,
    ensures
        appended(components_of(*old(out)), components_of(*final(out)), alias_collected(tcx, alias, preserve_static_identity).0),
{
    let found = collect_alias_components(tcx, alias, preserve_static_identity);
    proof {
        lemma_appended(components_of(*out), found@, alias_collected(tcx, alias, preserve_static_identity).0);
    }
    extend_components(out, found);
}

/// Pushes onto `out` the components of all the arguments of `alias` (not of
/// the alias itself), but for the bivariant ones.
pub fn compute_alias_components_recursive(tcx: &TyCtxt, alias: AliasTy, out: &mut Components)
    requires
        tcx.wf(),
        tcx.args_below(alias.args, tcx.types@.len() as int),
        !alias_collected(tcx, alias, false).2,
        components_of(*old(out)).len() + alias_collected(tcx, alias, false).0.len() <= MAX_COMPONENTS,
    ensures
        appended(components_of(*old(out)), components_of(*final(out)), alias_collected(tcx, alias, false).0),
{
    compute_alias_components_recursive_inner(tcx, alias, false, out);
}

/// Like `compute_alias_components_recursive`, but keeps the components of
/// the callable interface.
pub fn compute_alias_components_recursive_for_static(tcx: &TyCtxt, alias: AliasTy, out: &mut Components)
    requires
        tcx.wf(),
        tcx.args_below(alias.args, tcx.types@.len() as int),
        !alias_collected(tcx, alias, true).2,
        components_of(*old(out)).len() + alias_collected(tcx, alias, true).0.len() <= MAX_COMPONENTS,
    ensures
        appended(components_of(*old(out)), components_of(*final(out)), alias_collected(tcx, alias, true).0),
{
    compute_alias_components_recursive_inner(tcx, alias, true, out);
}

/// Whether an argument holds a bound variable escaping it.
pub open spec fn arg_escapes(tcx: &TyCtxt, arg: GenericArg) -> bool {
    match arg {
        GenericArg::Lifetime(r) => r is Bound,
        GenericArg::Type(u) => tcx.esc_ty(u, 0, None) == Some(true),
        GenericArg::Const(Const::Alias(b)) => tcx.esc_args(b, tcx.types@.len() as int, 0, None, 0) == Some(true),
        GenericArg::Const(_) => false,
    }
}

/// The instantiation with the arguments of `alias`, for the escape check.
pub open spec fn alias_subst(tcx: &TyCtxt, alias: AliasTy) -> EscSubst {
    let args = tcx.arg_lists@[alias.args as int]@;
    Some((args, Seq::new(args.len(), |i: int| arg_escapes(tcx, args[i]))))
}

/// `r` instantiated with `args`.
pub open spec fn subst_region(r: Region, args: Seq<GenericArg>) -> Region {
    match r {
        Region::EarlyParam(i) => match args[i as int] {
            GenericArg::Lifetime(r2) => r2,
            _ => r,
        },
        _ => r,
    }
}

/// The region that a bound of the alias's definition declares, once
/// instantiated with the alias's arguments: only for a bound `ty: 'r` with
/// no bound variables.
pub open spec fn declared_bound(tcx: &TyCtxt, alias: AliasTy, clause: ClauseKind) -> Option<Region> {
    match clause {
        ClauseKind::TypeOutlives(ty, r) => if tcx.esc_ty(ty, 0, alias_subst(tcx, alias)) == Some(false) && esc_region(
            r,
            0,
            alias_subst(tcx, alias),
        ) == Some(false) {
            Some(subst_region(r, tcx.arg_lists@[alias.args as int]@))
        } else {
            None
        },
        ClauseKind::Other => None,
    }
}

/// The regions that the first `n` bounds of the alias's definition declare.
pub open spec fn declared_bounds(tcx: &TyCtxt, alias: AliasTy, n: int) -> Seq<Region>
    decreases n,
{
    if n <= 0 {
        Seq::empty()
    } else {
        let bounds = tcx.defs@[alias_def(alias.kind) as int].self_bounds@;
        declared_bounds(tcx, alias, n - 1) + match declared_bound(tcx, alias, bounds[n - 1]) {
            Some(r) => seq![r],
            None => Seq::empty(),
        }
    }
}

/// Every bound `ty: 'r` of the alias's definition can be instantiated with
/// the alias's arguments: each parameter it names has an argument of its kind.
pub open spec fn bounds_instantiable(tcx: &TyCtxt, alias: AliasTy) -> bool {
    let bounds = tcx.defs@[alias_def(alias.kind) as int].self_bounds@;
    forall|k: int| 0 <= k < bounds.len() ==> match #[trigger] bounds[k] {
        ClauseKind::TypeOutlives(ty, r) => tcx.valid_ty(ty) && tcx.esc_ty(ty, 0, alias_subst(tcx, alias)) is Some
            && esc_region(r, 0, alias_subst(tcx, alias)) is Some,
        ClauseKind::Other => true,
    }
}

/// Given a projection like `<T as Foo<'x>>::Bar`, the regions that the
/// definition declares that the projection outlives, instantiated with its
/// arguments: for `trait Foo<'a> { type Bar: 'a; }`, `'x`. Bounds with bound
/// variables are left out.
pub fn declared_bounds_from_definition(tcx: &TyCtxt, alias: AliasTy) -> (regions: Vec<Region>)
    requires
        tcx.wf(),
        alias_def(alias.kind) < tcx.defs@.len(),
        tcx.args_below(alias.args, tcx.types@.len() as int),
        bounds_instantiable(tcx, alias),
    ensures
        regions@ == declared_bounds(tcx, alias, tcx.defs@[alias_def(alias.kind) as int].self_bounds@.len() as int),
{
    let def_id = match alias.kind {
        AliasTyKind::Projection(d) | AliasTyKind::Inherent(d) | AliasTyKind::Opaque(d) | AliasTyKind::Free(d) => d,
    };
    let args = &tcx.arg_lists[alias.args];
    let mut escapes: Vec<bool> = Vec::new();
    let n = args.len();
    let mut k: usize = 0;
    while k < n
        invariant
            tcx.wf(),
            tcx.args_below(alias.args, tcx.types@.len() as int),
            args@ == tcx.arg_lists@[alias.args as int]@,
            n == args@.len(),
            k <= n,
            escapes@.len() == k,
            forall|j: int| 0 <= j < k ==> #[trigger] escapes@[j] == arg_escapes(tcx, args@[j]),
        decreases n - k,
    {
        proof {
            assert(args_below_in(tcx.arg_lists@, alias.args, tcx.types@.len() as int));
            assert(match tcx.arg_lists@[alias.args as int]@[k as int] {
                GenericArg::Type(t) => t < tcx.types@.len(),
                GenericArg::Const(Const::Alias(b)) => b < alias.args && args_below_in(tcx.arg_lists@, b, tcx.types@.len() as int),
                _ => true,
            });
        }
        let e = match args[k] {
            GenericArg::Lifetime(r) => matches!(r, Region::Bound(_)),
            GenericArg::Type(u) => escapes_ty(tcx, u, 0, None) == Some(true),
            GenericArg::Const(Const::Alias(b)) => escapes_args(tcx, b, tcx.types.len(), 0, None) == Some(true),
            GenericArg::Const(_) => false,
        };
        escapes.push(e);
        k = k + 1;
    }
    proof {
        assert(subst_view(Some((args, &escapes))) == alias_subst(tcx, alias)) by {
            assert(escapes@ =~= Seq::new(args@.len(), |i: int| arg_escapes(tcx, args@[i])));
        }
    }
    let bounds = &tcx.defs[def_id].self_bounds;
    let m = bounds.len();
    let mut regions: Vec<Region> = Vec::new();
    let mut j: usize = 0;
    while j < m
        invariant
            tcx.wf(),
            bounds@ == tcx.defs@[alias_def(alias.kind) as int].self_bounds@,
            bounds_instantiable(tcx, alias),
            subst_view(Some((args, &escapes))) == alias_subst(tcx, alias),
            args@ == tcx.arg_lists@[alias.args as int]@,
            escapes@.len() == args@.len(),
            m == bounds@.len(),
            j <= m,
            regions@ == declared_bounds(tcx, alias, j as int),
        decreases m - j,
    {
        let clause = bounds[j];
        proof {
            assert(match bounds@[j as int] {
                ClauseKind::TypeOutlives(ty, r) => tcx.valid_ty(ty) && tcx.esc_ty(ty, 0, alias_subst(tcx, alias)) is Some
                    && esc_region(r, 0, alias_subst(tcx, alias)) is Some,
                ClauseKind::Other => true,
            });
        }
        if let ClauseKind::TypeOutlives(ty, r) = clause {
            let ty_escapes = escapes_ty(tcx, ty, 0, Some((args, &escapes)));
            let region_escapes = escapes_region(r, 0, Some((args, &escapes)));
            if ty_escapes == Some(false) && region_escapes == Some(false) {
                let region = match r {
                    Region::EarlyParam(i) => match args[i as usize] {
                        GenericArg::Lifetime(r2) => r2,
                        _ => r,
                    },
                    _ => r,
                };
                regions.push(region);
            }
        }
        proof {
            assert(regions@ =~= declared_bounds(tcx, alias, j + 1));
        }
        j = j + 1;
    }
    regions
}

} // verus!
