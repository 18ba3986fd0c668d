//! The type context: an interner of types, generic argument lists and patterns,
//! together with the definition tables that the analyses query.
//!
//! Types are referred to by their index in `TyCtxt::types`. Because the interner
//! never holds the same kind twice, two types are equal exactly when their
//! indices are equal, and every type only refers to types with smaller indices.
use vstd::prelude::*;

verus! {

/// A definition, by its index in `TyCtxt::defs`.
pub type DefId = usize;

/// An interned type, by its index in `TyCtxt::types`.
pub type TyId = usize;

/// An interned list of generic arguments, by its index in `TyCtxt::arg_lists`.
pub type ArgsId = usize;

/// An interned list of types, by its index in `TyCtxt::ty_lists`.
pub type TyListId = usize;

/// An interned pattern, by its index in `TyCtxt::patterns`.
pub type PatternId = usize;

/// Existential predicates of a trait object, by index in `TyCtxt::dyns`.
pub type DynId = usize;

#[derive(Clone, Copy, PartialEq, Eq, Structural, Debug)]
pub enum Mutability {
    Not,
    Mut,
}

/// A region as it occurs inside a type.
#[derive(Clone, Copy, PartialEq, Eq, Structural, Debug)]
pub enum Region {
    /// An early-bound lifetime parameter, by its index in the generics.
    EarlyParam(u32),
    /// A liberated late-bound lifetime; the definition of the named parameter, if any.
    LateParam(Option<DefId>),
    /// A region bound by an enclosing binder, by de Bruijn index.
    Bound(u32),
    Static,
    Var(u32),
    Placeholder(u32),
    Erased,
    Error,
}

/// A constant as it occurs inside a type.
#[derive(Clone, Copy, PartialEq, Eq, Structural, Debug)]
pub enum Const {
    Param(u32),
    Value(u64),
    /// An unevaluated constant: the arguments of the constant item it names.
    Alias(ArgsId),
    Error,
}

#[derive(Clone, Copy, PartialEq, Eq, Structural, Debug)]
pub enum GenericArg {
    Lifetime(Region),
    Type(TyId),
    Const(Const),
}

#[derive(Clone, Debug)]
pub enum PatternKind {
    Range { start: Const, end: Const },
    NotNull,
    Or(Vec<PatternId>),
}

/// What a refinement type refines its base type by.
#[derive(Clone, Copy, PartialEq, Eq, Structural, Debug)]
pub enum RefinementDefinition {
    Pattern(PatternId),
    Constructor { variant_def_id: DefId },
}

/// The interned key of a refinement.
#[derive(Clone, Copy, PartialEq, Eq, Structural, Debug)]
pub struct RefinementTypeKey(pub RefinementDefinition);

#[derive(Clone, Copy, PartialEq, Eq, Structural, Debug)]
pub enum PrimTy {
    Bool,
    Char,
    Int,
    Uint,
    Float,
    Str,
    Never,
}

#[derive(Clone, Copy, PartialEq, Eq, Structural, Debug)]
pub enum AliasTyKind {
    Projection(DefId),
    Inherent(DefId),
    Opaque(DefId),
    Free(DefId),
}

#[derive(Clone, Copy, PartialEq, Eq, Structural, Debug)]
pub struct AliasTy {
    pub kind: AliasTyKind,
    pub args: ArgsId,
}

#[derive(Clone, Copy, PartialEq, Eq, Structural, Debug)]
pub enum Term {
    Ty(TyId),
    Const(Const),
}

#[derive(Clone, Copy, PartialEq, Eq, Structural, Debug)]
pub struct ExistentialProjection {
    pub args: ArgsId,
    pub term: Term,
}

/// The predicates of a trait object type; they sit under one binder.
#[derive(Clone, Debug)]
pub struct DynData {
    pub principal: Option<ArgsId>,
    pub projections: Vec<ExistentialProjection>,
}

#[derive(Clone, Copy, PartialEq, Eq, Structural, Debug)]
pub struct ClosureArgs {
    pub parent: ArgsId,
    pub sig_as_fn_ptr: TyId,
    pub upvars: TyId,
}

#[derive(Clone, Copy, PartialEq, Eq, Structural, Debug)]
pub struct CoroutineClosureArgs {
    pub parent: ArgsId,
    pub signature_parts: TyId,
    pub captures_by_ref: TyId,
    pub upvars: TyId,
}

#[derive(Clone, Copy, PartialEq, Eq, Structural, Debug)]
pub struct CoroutineArgs {
    pub parent: ArgsId,
    pub resume: TyId,
    pub yield_ty: TyId,
    pub return_ty: TyId,
    pub upvars: TyId,
}

/// The kind of an interned type.
#[derive(Clone, Copy, PartialEq, Eq, Structural, Debug)]
pub enum TyKind {
    Prim(PrimTy),
    Error,
    Foreign(DefId),
    Adt(DefId, ArgsId),
    Array(TyId, Const),
    Pat(TyId, PatternId),
    Slice(TyId),
    RawPtr(TyId, Mutability),
    Ref(Region, TyId, Mutability),
    /// A function item: its arguments and its signature instantiated with them
    /// (inputs followed by the output).
    FnDef(DefId, ArgsId, TyListId),
    /// A function pointer: inputs followed by the output, under one binder.
    FnPtr(TyListId),
    UnsafeBinder(TyId),
    Dynamic(DynId, Region),
    Closure(DefId, ClosureArgs),
    CoroutineClosure(DefId, CoroutineClosureArgs),
    Coroutine(DefId, CoroutineArgs),
    CoroutineWitness(DefId),
    Tuple(TyListId),
    /// An alias type; the flag says whether it is rigid.
    Alias(bool, AliasTy),
    Param(u32),
    /// A type bound by an enclosing binder, by de Bruijn index.
    Bound(u32),
    Placeholder(u32),
    Infer(u32),
    Refined(TyId, RefinementTypeKey),
}

#[derive(Clone, Copy, PartialEq, Eq, Structural, Debug)]
pub enum DefKind {
    Struct,
    Union,
    Enum,
    Variant,
    Field,
    Fn,
    AssocFn,
    Ctor,
    Other,
}

#[derive(Clone, Copy, PartialEq, Eq, Structural, Debug)]
pub enum Variance {
    Covariant,
    Invariant,
    Contravariant,
    Bivariant,
}

#[derive(Clone, Copy, PartialEq, Eq, Structural, Debug)]
pub enum GenericParamDefKind {
    Lifetime,
    OriginLifetime,
    Type,
    Const,
}

/// A lifetime of a function's signature that an origin contract can name as
/// the source of a requirement.
#[derive(Clone, Copy, PartialEq, Eq, Structural, Debug)]
pub struct RegionSlot(pub u32);

/// An origin lifetime parameter that an origin contract can name as the
/// target of a requirement.
#[derive(Clone, Copy, PartialEq, Eq, Structural, Debug)]
pub struct OriginSlot(pub u32);

#[derive(Clone, Copy, PartialEq, Eq, Structural, Debug)]
pub struct GenericParamDef {
    pub def_id: DefId,
    pub index: u32,
    pub kind: GenericParamDefKind,
}

#[derive(Clone, Debug)]
pub struct VariantDef {
    pub def_id: DefId,
    pub fields: Vec<DefId>,
    pub ctor_def_id: Option<DefId>,
}

#[derive(Clone, Copy, PartialEq, Eq, Structural, Debug)]
pub enum VariantResultProjection {
    GenericArg(u32),
    Other,
}

#[derive(Clone, Debug)]
pub struct Recovery {
    pub binder_def_id: DefId,
    pub path: Vec<VariantResultProjection>,
}

#[derive(Clone, Debug)]
pub struct VariantBinders {
    pub family: Vec<GenericParamDef>,
    pub local: Vec<GenericParamDef>,
}

/// The scheme of a variant written `V(..) -> Family<..>`.
#[derive(Clone, Debug)]
pub struct RefinedVariantScheme {
    pub result: TyId,
    pub binders: VariantBinders,
    pub recoveries: Vec<Recovery>,
    pub fields: Vec<TyId>,
}

#[derive(Clone, Debug)]
pub enum VariantScheme {
    Ordinary,
    Refined(RefinedVariantScheme),
    Invalid,
}

/// A bound of an alias as its definition states it, before instantiation.
#[derive(Clone, Copy, PartialEq, Eq, Structural, Debug)]
pub enum ClauseKind {
    /// `ty: 'region`.
    TypeOutlives(TyId, Region),
    Other,
}

/// What the queries of the compiler answer about one definition.
#[derive(Clone, Debug)]
pub struct DefData {
    pub kind: DefKind,
    pub parent: Option<DefId>,
    pub is_local: bool,
    /// `type_of(def)`, instantiated with the identity arguments.
    pub type_of: TyId,
    /// Whether the definition carries `#[exact_variants]`.
    pub exact_variants: bool,
    /// `adt_def(def).variants()`, for an ADT.
    pub variants: Vec<VariantDef>,
    /// `variant_scheme(def)`, for a variant.
    pub scheme: VariantScheme,
    /// `generics_of(def).own_params`.
    pub own_params: Vec<GenericParamDef>,
    /// `variances_of(def)`, for a definition of another crate.
    pub variances: Vec<Variance>,
    /// `opt_alias_variances` of an alias to this definition: the variances of
    /// its arguments, where they are tracked.
    pub alias_variances: Option<Vec<Variance>>,
    /// `params_in_repr(def)`, for an ADT: which of its parameters its
    /// representation holds by value.
    pub params_in_repr: Vec<bool>,
    /// `item_self_bounds(def)`, for an associated type or other alias.
    pub self_bounds: Vec<ClauseKind>,
    /// For a variant: whether it is written with a result family,
    /// `V(..) -> Family<..>`.
    pub refined_syntax: bool,
    /// For a variant: `variant_binder_scheme(def)`.
    pub binder_scheme: VariantBinders,
    /// For a lifetime parameter: the region slot it is known by
    /// (`RegionSlot::from_def_id`).
    pub region_slot: Option<RegionSlot>,
    /// For a lifetime parameter: the origin slot it is known by
    /// (`OriginSlot::from_param`).
    pub origin_slot: Option<OriginSlot>,
}

/// Every type in list `a` of `lists`, and in the lists of the unevaluated
/// constants in it, is below `bound`.
pub open spec fn args_below_in(lists: Seq<Vec<GenericArg>>, a: ArgsId, bound: int) -> bool
    decreases a,
{
    &&& a < lists.len()
    &&& forall|k: int|
        0 <= k < lists[a as int]@.len() ==> match #[trigger] lists[a as int]@[k] {
            GenericArg::Type(t) => t < bound,
            GenericArg::Const(Const::Alias(b)) => b < a && args_below_in(lists, b, bound),
            _ => true,
        }
}

pub open spec fn const_below_in(lists: Seq<Vec<GenericArg>>, c: Const, bound: int) -> bool {
    match c {
        Const::Alias(a) => args_below_in(lists, a, bound),
        _ => true,
    }
}

/// Pattern `p` is interned, its alternatives are interned before it, and the
/// types in its constants are below `bound`.
pub open spec fn pattern_below_in(
    patterns: Seq<PatternKind>,
    lists: Seq<Vec<GenericArg>>,
    p: PatternId,
    bound: int,
) -> bool
    decreases p,
{
    &&& p < patterns.len()
    &&& match patterns[p as int] {
        PatternKind::Range { start, end } => const_below_in(lists, start, bound) && const_below_in(
            lists,
            end,
            bound,
        ),
        PatternKind::NotNull => true,
        PatternKind::Or(ps) => forall|k: int|
            0 <= k < ps@.len() ==> #[trigger] ps@[k] < p && pattern_below_in(patterns, lists, ps@[k], bound),
    }
}

pub struct TyCtxt {
    pub types: Vec<TyKind>,
    pub arg_lists: Vec<Vec<GenericArg>>,
    pub ty_lists: Vec<Vec<TyId>>,
    pub patterns: Vec<PatternKind>,
    pub dyns: Vec<DynData>,
    pub defs: Vec<DefData>,
    /// `expand_free_alias_tys(t)` for each type `t` that is a free alias; the
    /// expansion is interned before the alias.
    pub free_alias_expansions: Vec<Option<TyId>>,
}

impl TyCtxt {
    pub open spec fn kind(&self, ty: TyId) -> TyKind {
        self.types@[ty as int]
    }

    pub open spec fn valid_ty(&self, ty: TyId) -> bool {
        ty < self.types@.len()
    }

    /// Every type in argument list `a`, and in the lists of the unevaluated
    /// constants in it, is below `bound`.
    pub open spec fn args_below(&self, a: ArgsId, bound: int) -> bool {
        args_below_in(self.arg_lists@, a, bound)
    }

    pub open spec fn const_below(&self, c: Const, bound: int) -> bool {
        match c {
            Const::Alias(a) => self.args_below(a, bound),
            _ => true,
        }
    }

    pub open spec fn list_below(&self, l: TyListId, bound: int) -> bool {
        &&& l < self.ty_lists@.len()
        &&& forall|k: int| 0 <= k < self.ty_lists@[l as int]@.len()
            ==> #[trigger] self.ty_lists@[l as int]@[k] < bound
    }

    pub open spec fn pattern_wf(&self, p: PatternId, bound: int) -> bool {
        pattern_below_in(self.patterns@, self.arg_lists@, p, bound)
    }

    pub open spec fn dyn_below(&self, d: DynId, bound: int) -> bool {
        &&& d < self.dyns@.len()
        &&& match self.dyns@[d as int].principal {
            Some(a) => self.args_below(a, bound),
            None => true,
        }
        &&& forall|k: int| 0 <= k < self.dyns@[d as int].projections@.len() ==> {
            let p = #[trigger] self.dyns@[d as int].projections@[k];
            &&& self.args_below(p.args, bound)
            &&& match p.term {
                Term::Ty(t) => t < bound,
                Term::Const(c) => self.const_below(c, bound),
            }
        }
    }

    /// A refinement key is well formed: its pattern is interned, or its
    /// constructor names a definition.
    pub open spec fn key_wf(&self, key: RefinementTypeKey, bound: int) -> bool {
        match key.0 {
            RefinementDefinition::Pattern(p) => self.pattern_wf(p, bound),
            RefinementDefinition::Constructor { variant_def_id } => variant_def_id < self.defs@.len(),
        }
    }

    /// The kind refers only to interned data, and to types below `bound`.
    pub open spec fn kind_below(&self, kind: TyKind, bound: int) -> bool {
        match kind {
            TyKind::Prim(_) | TyKind::Error | TyKind::Param(_) | TyKind::Bound(_)
            | TyKind::Placeholder(_) | TyKind::Infer(_) => true,
            TyKind::Foreign(d) | TyKind::CoroutineWitness(d) => d < self.defs@.len(),
            TyKind::Adt(d, a) => d < self.defs@.len() && self.args_below(a, bound),
            TyKind::Array(t, c) => t < bound && self.const_below(c, bound),
            TyKind::Pat(t, p) => t < bound && self.pattern_wf(p, bound),
            TyKind::Slice(t) | TyKind::RawPtr(t, _) | TyKind::Ref(_, t, _) | TyKind::UnsafeBinder(t) => t < bound,
            TyKind::FnDef(d, a, l) => d < self.defs@.len() && self.args_below(a, bound) && self.list_below(l, bound),
            TyKind::FnPtr(l) | TyKind::Tuple(l) => self.list_below(l, bound),
            TyKind::Dynamic(d, _) => self.dyn_below(d, bound),
            TyKind::Closure(d, c) => d < self.defs@.len() && self.args_below(c.parent, bound)
                && c.sig_as_fn_ptr < bound && c.upvars < bound,
            TyKind::CoroutineClosure(d, c) => d < self.defs@.len() && self.args_below(c.parent, bound)
                && c.signature_parts < bound && c.captures_by_ref < bound && c.upvars < bound,
            TyKind::Coroutine(d, c) => d < self.defs@.len() && self.args_below(c.parent, bound)
                && c.resume < bound && c.yield_ty < bound && c.return_ty < bound && c.upvars < bound,
            TyKind::Alias(_, alias) => self.args_below(alias.args, bound),
            TyKind::Refined(t, key) => t < bound && self.key_wf(key, bound),
        }
    }

    /// The interner invariant: each type refers only to types interned before
    /// it, and no kind is interned twice.
    pub open spec fn wf(&self) -> bool {
        &&& forall|i: int| 0 <= i < self.types@.len() ==> self.kind_below(#[trigger] self.types@[i], i)
        &&& forall|i: int, j: int|
            0 <= i < self.types@.len() && 0 <= j < self.types@.len() && i != j
                ==> #[trigger] self.types@[i] != #[trigger] self.types@[j]
    }

    /// Interns `kind`: returns the type that already has it, or appends it.
    pub fn mk_ty(&mut self, kind: TyKind) -> (ty: TyId)
        requires
            old(self).wf(),
            old(self).kind_below(kind, old(self).types@.len() as int),
            old(self).types@.len() < usize::MAX,
        ensures
            final(self).wf(),
            final(self).arg_lists == old(self).arg_lists,
            final(self).ty_lists == old(self).ty_lists,
            final(self).patterns == old(self).patterns,
            final(self).dyns == old(self).dyns,
            final(self).defs == old(self).defs,
            final(self).free_alias_expansions == old(self).free_alias_expansions,
            final(self).valid_ty(ty),
            final(self).kind(ty) == kind,
            old(self).types@.contains(kind) ==> final(self).types@ == old(self).types@,
            !old(self).types@.contains(kind) ==> final(self).types@ == old(self).types@.push(kind),
    {
        let n = self.types.len();
        let mut i: usize = 0;
        while i < n
            invariant
                n == self.types@.len(),
                *self == *old(self),
                self.wf(),
                i <= n,
                forall|j: int| 0 <= j < i ==> self.types@[j] != kind,
            decreases n - i,
        {
            if self.types[i] == kind {
                return i;
            }
            i = i + 1;
        }
        let ghost before = *self;
        self.types.push(kind);
        proof {
            assert forall|i: int| 0 <= i < self.types@.len() implies self.kind_below(#[trigger] self.types@[i], i) by {
                if i < n {
                    assert(before.kind_below(before.types@[i], i));
                }
            }
        }
        n
    }
}

/// Interning: in a well-formed context two types are the same type exactly
/// when they have the same kind.
pub proof fn lemma_interned_types_equal(tcx: &TyCtxt, a: TyId, b: TyId)
    requires
        tcx.wf(),
        tcx.valid_ty(a),
        tcx.valid_ty(b),
    ensures
        a == b <==> tcx.kind(a) == tcx.kind(b),
{
    if a != b {
        assert(tcx.types@[a as int] != tcx.types@[b as int]);
    }
}

} // verus!
