//! Refinement types: a base type refined by a pattern or by one exact
//! constructor of an enum, and the conversions between refined types and
//! their bases.
use vstd::prelude::*;

use crate::ty::{
    lemma_interned_types_equal, DefId, DefKind, Mutability, PatternId, PatternKind, RefinementDefinition,
    RefinementTypeKey, Region, TyCtxt, TyId, TyKind, VariantScheme,
};

verus! {

#[derive(Clone, Copy, PartialEq, Eq, Structural, Debug)]
pub enum RefinementLayoutAuthority {
    ScalarPattern(PatternId),
    BaseRepresentation,
}

#[derive(Clone, Copy, PartialEq, Eq, Structural, Debug)]
pub enum KnownConstructor {
    NotKnown,
    Variant(DefId),
}

#[derive(Clone, Copy, PartialEq, Eq, Structural, Debug)]
pub enum RefinementTypeIdentity {
    Pattern(PatternId),
    Constructor(DefId),
}

#[derive(Clone, Copy, PartialEq, Eq, Structural, Debug)]
pub enum RefinementTypeInvariant {
    ScalarPattern(PatternId),
    ExactConstructor(DefId),
}

#[derive(Clone, Copy, PartialEq, Eq, Structural, Debug)]
pub struct ExactConstructorType {
    pub base: TyId,
    pub variant_def_id: DefId,
}

#[derive(Clone, Copy, PartialEq, Eq, Structural, Debug)]
pub enum RefinementUnsizeKind {
    TransparentBase,
    Unsupported,
}

#[derive(Clone, Copy, PartialEq, Eq, Structural, Debug)]
pub enum RefinementConversion {
    Identity,
    ForgetExactConstructor,
    ForgetSharedExactConstructor { relation_source: TyId },
}

#[derive(Clone, Copy, PartialEq, Eq, Structural, Debug)]
pub enum RefinementImplHead {
    ExactConstructor { base: TyId, owner: DefId },
    Pattern { base: TyId },
}

#[derive(Clone, Copy, PartialEq, Eq, Structural, Debug)]
pub enum RefinementJoinConversion {
    Identity,
    ForgetExactConstructor,
}

#[derive(Clone, Copy, PartialEq, Eq, Structural, Debug)]
pub struct RefinementJoin {
    pub target: TyId,
    pub left: RefinementJoinConversion,
    pub right: RefinementJoinConversion,
}

/// How a value of one type converts to another: what `refinement_conversion`
/// decides, with the shared reference it builds given by its region and pointee.
#[derive(Clone, Copy, PartialEq, Eq, Structural, Debug)]
pub enum ConversionShape {
    Identity,
    Forget,
    ForgetShared(Region, TyId),
}

impl RefinementTypeKey {
    pub fn kind(self) -> (def: RefinementDefinition)
        ensures
            def == self.0,
    {
        self.0
    }
}

/// The types of `new` extend those of `old`; nothing else changed.
pub open spec fn interned_extension(old: TyCtxt, new: TyCtxt) -> bool {
    &&& new.wf()
    &&& new.arg_lists == old.arg_lists
    &&& new.ty_lists == old.ty_lists
    &&& new.patterns == old.patterns
    &&& new.dyns == old.dyns
    &&& new.defs == old.defs
    &&& old.types@.len() <= new.types@.len()
    &&& forall|i: int| 0 <= i < old.types@.len() ==> #[trigger] new.types@[i] == old.types@[i]
}

impl TyCtxt {
    pub open spec fn spec_exact_constructor_type(&self, ty: TyId) -> Option<ExactConstructorType> {
        match self.kind(ty) {
            TyKind::Refined(base, key) => match key.0 {
                RefinementDefinition::Constructor { variant_def_id } => Some(
                    ExactConstructorType { base, variant_def_id },
                ),
                RefinementDefinition::Pattern(_) => None,
            },
            _ => None,
        }
    }

    /// The kind of the type that forgetting the exact constructor of `source` leads to.
    pub open spec fn forget_target_kind(&self, source: TyId) -> Option<TyKind> {
        match self.spec_exact_constructor_type(source) {
            Some(exact) => Some(self.kind(exact.base)),
            None => match self.kind(source) {
                TyKind::Ref(region, pointee, Mutability::Not) => match self.spec_exact_constructor_type(
                    pointee,
                ) {
                    Some(exact) => Some(TyKind::Ref(region, exact.base, Mutability::Not)),
                    None => None,
                },
                _ => None,
            },
        }
    }

    pub open spec fn conversion_shape(&self, source: TyId, target: TyId) -> Option<ConversionShape> {
        if source == target {
            Some(ConversionShape::Identity)
        } else if self.spec_exact_constructor_type(source) matches Some(exact) && exact.base == target {
            Some(ConversionShape::Forget)
        } else {
            match (self.kind(source), self.kind(target)) {
                (
                    TyKind::Ref(region, source_pointee, Mutability::Not),
                    TyKind::Ref(_, target_pointee, Mutability::Not),
                ) => match self.spec_exact_constructor_type(source_pointee) {
                    Some(exact) => if exact.base == target_pointee {
                        Some(ConversionShape::ForgetShared(region, exact.base))
                    } else {
                        None
                    },
                    None => None,
                },
                _ => None,
            }
        }
    }

    pub open spec fn spec_refinement_join(&self, left: TyId, right: TyId) -> Option<RefinementJoin> {
        if left == right {
            Some(
                RefinementJoin {
                    target: left,
                    left: RefinementJoinConversion::Identity,
                    right: RefinementJoinConversion::Identity,
                },
            )
        } else {
            match (self.spec_exact_constructor_type(left), self.spec_exact_constructor_type(right)) {
                (Some(l), Some(r)) => if l.base == r.base {
                    Some(
                        RefinementJoin {
                            target: l.base,
                            left: RefinementJoinConversion::ForgetExactConstructor,
                            right: RefinementJoinConversion::ForgetExactConstructor,
                        },
                    )
                } else {
                    None
                },
                (Some(l), None) => if l.base == right {
                    Some(
                        RefinementJoin {
                            target: right,
                            left: RefinementJoinConversion::ForgetExactConstructor,
                            right: RefinementJoinConversion::Identity,
                        },
                    )
                } else {
                    None
                },
                (None, Some(r)) => if left == r.base {
                    Some(
                        RefinementJoin {
                            target: left,
                            left: RefinementJoinConversion::Identity,
                            right: RefinementJoinConversion::ForgetExactConstructor,
                        },
                    )
                } else {
                    None
                },
                (None, None) => None,
            }
        }
    }

    pub open spec fn spec_refinement_type_invariant(key: RefinementTypeKey) -> RefinementTypeInvariant {
        match key.0 {
            RefinementDefinition::Pattern(pattern) => RefinementTypeInvariant::ScalarPattern(pattern),
            RefinementDefinition::Constructor { variant_def_id } => RefinementTypeInvariant::ExactConstructor(
                variant_def_id,
            ),
        }
    }

    pub open spec fn spec_refinement_type_identity(key: RefinementTypeKey) -> RefinementTypeIdentity {
        match key.0 {
            RefinementDefinition::Pattern(pattern) => RefinementTypeIdentity::Pattern(pattern),
            RefinementDefinition::Constructor { variant_def_id } => RefinementTypeIdentity::Constructor(
                variant_def_id,
            ),
        }
    }

    pub open spec fn spec_refinement_known_constructor(key: RefinementTypeKey) -> KnownConstructor {
        match key.0 {
            RefinementDefinition::Pattern(_) => KnownConstructor::NotKnown,
            RefinementDefinition::Constructor { variant_def_id } => KnownConstructor::Variant(variant_def_id),
        }
    }

    pub open spec fn spec_refinement_layout_authority(key: RefinementTypeKey) -> RefinementLayoutAuthority {
        match key.0 {
            RefinementDefinition::Pattern(pattern) => RefinementLayoutAuthority::ScalarPattern(pattern),
            RefinementDefinition::Constructor { .. } => RefinementLayoutAuthority::BaseRepresentation,
        }
    }

    /// The head under which impls of `ty` are looked up.
    pub open spec fn spec_refinement_impl_head(&self, ty: TyId) -> Option<RefinementImplHead> {
        match self.kind(ty) {
            TyKind::Refined(base, key) => match key.0 {
                RefinementDefinition::Constructor { .. } => match self.kind(base) {
                    TyKind::Adt(owner, _) => Some(RefinementImplHead::ExactConstructor { base, owner }),
                    _ => None,
                },
                RefinementDefinition::Pattern(_) => Some(RefinementImplHead::Pattern { base }),
            },
            _ => None,
        }
    }

    pub open spec fn variant_is_uniform(&self, variant: DefId, identity: TyId) -> bool {
        match self.defs@[variant as int].scheme {
            VariantScheme::Ordinary => true,
            VariantScheme::Refined(scheme) => scheme.result == identity,
            VariantScheme::Invalid => false,
        }
    }

    pub open spec fn defs_in_range(&self, def: DefId) -> bool {
        &&& def < self.defs@.len()
        &&& forall|i: int| 0 <= i < self.defs@[def as int].variants@.len()
            ==> #[trigger] self.defs@[def as int].variants@[i].def_id < self.defs@.len()
    }

    pub fn refinement_for_pattern(&self, pattern: PatternId) -> (key: RefinementTypeKey)
        ensures
            key == RefinementTypeKey(RefinementDefinition::Pattern(pattern)),
    {
        RefinementTypeKey(RefinementDefinition::Pattern(pattern))
    }

    /// The key of the refinement to the exact constructor `variant_def_id`,
    /// which must name a variant.
    pub fn refinement_for_constructor(&self, variant_def_id: DefId) -> (key: RefinementTypeKey)
        requires
            variant_def_id < self.defs@.len(),
            self.defs@[variant_def_id as int].kind == DefKind::Variant,
        ensures
            key == RefinementTypeKey(RefinementDefinition::Constructor { variant_def_id }),
    {
        RefinementTypeKey(RefinementDefinition::Constructor { variant_def_id })
    }

    /// The type of values of `base` built by the variant `variant_def_id`; `base`
    /// must be an ADT type of the enum that the variant belongs to.
    pub fn exact_variant_ty(&mut self, base: TyId, variant_def_id: DefId) -> (ty: TyId)
        requires
            old(self).wf(),
            old(self).valid_ty(base),
            old(self).types@.len() < usize::MAX,
            variant_def_id < old(self).defs@.len(),
            old(self).defs@[variant_def_id as int].kind == DefKind::Variant,
            old(self).defs@[variant_def_id as int].parent matches Some(family)
                && old(self).kind(base) matches TyKind::Adt(adt, _) && adt == family,
        ensures
            interned_extension(*old(self), *final(self)),
            final(self).types@ == old(self).types@ || final(self).types@ == old(self).types@.push(final(self).kind(ty)),
            final(self).valid_ty(ty),
            final(self).kind(ty) == TyKind::Refined(
                base,
                RefinementTypeKey(RefinementDefinition::Constructor { variant_def_id }),
            ),
            final(self).spec_exact_constructor_type(ty) == Some(
                ExactConstructorType { base, variant_def_id },
            ),
    {
        let key = self.refinement_for_constructor(variant_def_id);
        self.mk_ty(TyKind::Refined(base, key))
    }

    /// Whether the enum keeps its values at their exact variant types.
    pub fn enum_preserves_exact_variants(&self, enum_def_id: DefId) -> (b: bool)
        requires
            enum_def_id < self.defs@.len(),
        ensures
            b == (self.defs@[enum_def_id as int].kind == DefKind::Enum
                && self.defs@[enum_def_id as int].exact_variants),
    {
        self.defs[enum_def_id].kind == DefKind::Enum && self.defs[enum_def_id].exact_variants
    }

    /// Whether every variant of the enum produces the enum at its identity arguments.
    pub fn enum_refinement_is_representation_uniform(&self, enum_def_id: DefId) -> (b: bool)
        requires
            self.defs_in_range(enum_def_id),
        ensures
            b == (self.defs@[enum_def_id as int].kind != DefKind::Enum || forall|i: int|
                0 <= i < self.defs@[enum_def_id as int].variants@.len() ==> self.variant_is_uniform(
                    #[trigger] self.defs@[enum_def_id as int].variants@[i].def_id,
                    self.defs@[enum_def_id as int].type_of,
                )),
    {
        let def = &self.defs[enum_def_id];
        if def.kind != DefKind::Enum {
            return true;
        }
        let identity = def.type_of;
        let n = def.variants.len();
        let mut i: usize = 0;
        while i < n
            invariant
                self.defs_in_range(enum_def_id),
                def == self.defs@[enum_def_id as int],
                def.kind == DefKind::Enum,
                n == def.variants@.len(),
                identity == def.type_of,
                i <= n,
                forall|j: int| 0 <= j < i ==> self.variant_is_uniform(#[trigger] def.variants@[j].def_id, identity),
            decreases n - i,
        {
            let uniform = match &self.defs[def.variants[i].def_id].scheme {
                VariantScheme::Ordinary => true,
                VariantScheme::Refined(scheme) => scheme.result == identity,
                VariantScheme::Invalid => false,
            };
            if !uniform {
                assert(!self.variant_is_uniform(def.variants@[i as int].def_id, identity));
                return false;
            }
            i = i + 1;
        }
        true
    }

    pub fn exact_constructor_type(&self, ty: TyId) -> (exact: Option<ExactConstructorType>)
        requires
            self.valid_ty(ty),
        ensures
            exact == self.spec_exact_constructor_type(ty),
    {
        let TyKind::Refined(base, refinement) = self.types[ty] else {
            return None;
        };
        let RefinementTypeInvariant::ExactConstructor(variant_def_id) = self.refinement_type_invariant(
            refinement,
        ) else {
            return None;
        };
        Some(ExactConstructorType { base, variant_def_id })
    }

    /// The type that `source` converts to by forgetting an exact constructor,
    /// directly or behind a shared reference.
    pub fn refinement_forget_target(&mut self, source: TyId) -> (target: Option<TyId>)
        requires
            old(self).wf(),
            old(self).valid_ty(source),
            old(self).types@.len() < usize::MAX,
        ensures
            interned_extension(*old(self), *final(self)),
            final(self).types@ == old(self).types@ || (target matches Some(t) && final(self).types@
                == old(self).types@.push(final(self).kind(t))),
            final(self).forget_target_kind(source) == old(self).forget_target_kind(source),
            target is None <==> old(self).forget_target_kind(source) is None,
            target matches Some(t) ==> final(self).valid_ty(t) && old(self).forget_target_kind(source)
                == Some(final(self).kind(t)),
            old(self).spec_exact_constructor_type(source) matches Some(exact) ==> target == Some(
                exact.base,
            ),
    {
        if let Some(exact) = self.exact_constructor_type(source) {
            return Some(exact.base);
        }
        let TyKind::Ref(region, pointee, Mutability::Not) = self.types[source] else {
            return None;
        };
        let exact = self.exact_constructor_type(pointee)?;
        let ghost before = *self;
        let t = self.mk_ty(TyKind::Ref(region, exact.base, Mutability::Not));
        Some(t)
    }

    /// The variant by which a value of `source` is built into `target`, when
    /// `target` is `source` refined to an exact constructor.
    pub fn refinement_construction_variant(&self, source: TyId, target: TyId) -> (variant: Option<
        DefId,
    >)
        requires
            self.valid_ty(target),
        ensures
            variant == match self.spec_exact_constructor_type(target) {
                Some(exact) => if exact.base == source {
                    Some(exact.variant_def_id)
                } else {
                    None
                },
                None => None,
            },
    {
        let exact = self.exact_constructor_type(target)?;
        if exact.base == source {
            Some(exact.variant_def_id)
        } else {
            None
        }
    }

    /// The head under which impls of a refined type are looked up. An exact
    /// constructor refinement must have an ADT as its base.
    pub fn refinement_impl_head(&self, ty: TyId) -> (head: Option<RefinementImplHead>)
        requires
            self.wf(),
            self.valid_ty(ty),
            match self.kind(ty) {
                TyKind::Refined(base, key) => key.0 is Constructor ==> self.kind(base) is Adt,
                _ => true,
            },
        ensures
            head == self.spec_refinement_impl_head(ty),
    {
        let TyKind::Refined(base, refinement) = self.types[ty] else {
            return None;
        };
        match self.refinement_type_invariant(refinement) {
            RefinementTypeInvariant::ExactConstructor(_) => {
                let TyKind::Adt(def, _) = self.types[base] else {
                    return None;
                };
                Some(RefinementImplHead::ExactConstructor { base, owner: def })
            },
            RefinementTypeInvariant::ScalarPattern(_) => Some(RefinementImplHead::Pattern { base }),
        }
    }

    /// How a value of `source` converts to `target`: unchanged, by forgetting an
    /// exact constructor, or by forgetting it behind a shared reference.
    pub fn refinement_conversion(&mut self, source: TyId, target: TyId) -> (conversion: Option<
        RefinementConversion,
    >)
        requires
            old(self).wf(),
            old(self).valid_ty(source),
            old(self).valid_ty(target),
            old(self).types@.len() < usize::MAX,
        ensures
            interned_extension(*old(self), *final(self)),
            final(self).types@ == old(self).types@ || (conversion matches Some(
                RefinementConversion::ForgetSharedExactConstructor { relation_source },
            ) && final(self).types@ == old(self).types@.push(final(self).kind(relation_source))),
            final(self).conversion_shape(source, target) == old(self).conversion_shape(source, target),
            match old(self).conversion_shape(source, target) {
                None => conversion is None,
                Some(ConversionShape::Identity) => conversion == Some(RefinementConversion::Identity),
                Some(ConversionShape::Forget) => conversion == Some(
                    RefinementConversion::ForgetExactConstructor,
                ),
                Some(ConversionShape::ForgetShared(region, base)) => conversion matches Some(
                    RefinementConversion::ForgetSharedExactConstructor { relation_source },
                ) && final(self).valid_ty(relation_source) && final(self).kind(relation_source)
                    == TyKind::Ref(region, base, Mutability::Not),
            },
    {
        if source == target {
            return Some(RefinementConversion::Identity);
        }
        if let Some(exact) = self.exact_constructor_type(source) {
            if exact.base == target {
                return Some(RefinementConversion::ForgetExactConstructor);
            }
        }
        let (source_region, source_pointee) = match (self.types[source], self.types[target]) {
            (TyKind::Ref(r, p, Mutability::Not), TyKind::Ref(_, _, Mutability::Not)) => (r, p),
            _ => {
                return None;
            },
        };
        let TyKind::Ref(_, target_pointee, _) = self.types[target] else {
            return None;
        };
        let exact = self.exact_constructor_type(source_pointee)?;
        if exact.base != target_pointee {
            return None;
        }
        let ghost before = *self;
        let relation_source = self.mk_ty(TyKind::Ref(source_region, exact.base, Mutability::Not));
        Some(RefinementConversion::ForgetSharedExactConstructor { relation_source })
    }

    /// The type that two types meet at, and how each side converts to it.
    pub fn refinement_join(&self, left: TyId, right: TyId) -> (join: Option<RefinementJoin>)
        requires
            self.valid_ty(left),
            self.valid_ty(right),
        ensures
            join == self.spec_refinement_join(left, right),
    {
        if left == right {
            return Some(
                RefinementJoin {
                    target: left,
                    left: RefinementJoinConversion::Identity,
                    right: RefinementJoinConversion::Identity,
                },
            );
        }
        let left_exact = self.exact_constructor_type(left);
        let right_exact = self.exact_constructor_type(right);
        match (left_exact, right_exact) {
            (Some(l), Some(r)) => if l.base == r.base {
                Some(
                    RefinementJoin {
                        target: l.base,
                        left: RefinementJoinConversion::ForgetExactConstructor,
                        right: RefinementJoinConversion::ForgetExactConstructor,
                    },
                )
            } else {
                None
            },
            (Some(l), None) => if l.base == right {
                Some(
                    RefinementJoin {
                        target: right,
                        left: RefinementJoinConversion::ForgetExactConstructor,
                        right: RefinementJoinConversion::Identity,
                    },
                )
            } else {
                None
            },
            (None, Some(r)) => if left == r.base {
                Some(
                    RefinementJoin {
                        target: left,
                        left: RefinementJoinConversion::Identity,
                        right: RefinementJoinConversion::ForgetExactConstructor,
                    },
                )
            } else {
                None
            },
            (None, None) => None,
        }
    }

    pub fn refinement_type_identity(&self, key: RefinementTypeKey) -> (identity: RefinementTypeIdentity)
        ensures
            identity == Self::spec_refinement_type_identity(key),
    {
        match key.0 {
            RefinementDefinition::Pattern(pattern) => RefinementTypeIdentity::Pattern(pattern),
            RefinementDefinition::Constructor { variant_def_id } => RefinementTypeIdentity::Constructor(
                variant_def_id,
            ),
        }
    }

    pub fn refinement_type_invariant(&self, key: RefinementTypeKey) -> (type_invariant: RefinementTypeInvariant)
        ensures
            type_invariant == Self::spec_refinement_type_invariant(key),
    {
        match key.0 {
            RefinementDefinition::Pattern(pattern) => RefinementTypeInvariant::ScalarPattern(pattern),
            RefinementDefinition::Constructor { variant_def_id } => RefinementTypeInvariant::ExactConstructor(
                variant_def_id,
            ),
        }
    }

    /// Only a non-null pattern lets a refined type unsize through its base.
    pub fn refinement_unsize_kind(&self, key: RefinementTypeKey) -> (kind: RefinementUnsizeKind)
        requires
            key.0 matches RefinementDefinition::Pattern(p) ==> p < self.patterns@.len(),
        ensures
            kind == if key.0 matches RefinementDefinition::Pattern(p) && self.patterns@[p as int] is NotNull {
                RefinementUnsizeKind::TransparentBase
            } else {
                RefinementUnsizeKind::Unsupported
            },
    {
        match key.0 {
            RefinementDefinition::Pattern(pattern) => match self.patterns[pattern] {
                PatternKind::NotNull => RefinementUnsizeKind::TransparentBase,
                _ => RefinementUnsizeKind::Unsupported,
            },
            RefinementDefinition::Constructor { .. } => RefinementUnsizeKind::Unsupported,
        }
    }

    pub fn refinement_layout_authority(&self, key: RefinementTypeKey) -> (authority: RefinementLayoutAuthority)
        ensures
            authority == Self::spec_refinement_layout_authority(key),
    {
        match key.0 {
            RefinementDefinition::Pattern(pattern) => RefinementLayoutAuthority::ScalarPattern(pattern),
            RefinementDefinition::Constructor { .. } => RefinementLayoutAuthority::BaseRepresentation,
        }
    }

    pub fn refinement_known_constructor(&self, key: RefinementTypeKey) -> (known: KnownConstructor)
        ensures
            known == Self::spec_refinement_known_constructor(key),
    {
        match key.0 {
            RefinementDefinition::Pattern(_) => KnownConstructor::NotKnown,
            RefinementDefinition::Constructor { variant_def_id } => KnownConstructor::Variant(
                variant_def_id,
            ),
        }
    }
}

/// Joining is symmetric: the join of `right` and `left` meets at the same
/// target as that of `left` and `right`, with the two conversions swapped.
pub proof fn lemma_join_symmetric(tcx: &TyCtxt, left: TyId, right: TyId)
    ensures
        match (tcx.spec_refinement_join(left, right), tcx.spec_refinement_join(right, left)) {
            (Some(j1), Some(j2)) => j1.target == j2.target && j1.left == j2.right && j1.right == j2.left,
            (None, None) => true,
            _ => false,
        },
{
}

/// Each side of a join converts to the join's target as the join says:
/// unchanged, or by forgetting its exact constructor.
pub proof fn lemma_join_sides_convert(tcx: &TyCtxt, left: TyId, right: TyId)
    requires
        tcx.wf(),
        tcx.valid_ty(left),
        tcx.valid_ty(right),
        tcx.spec_refinement_join(left, right) is Some,
    ensures
        ({
            let join = tcx.spec_refinement_join(left, right).unwrap();
            &&& join.left == RefinementJoinConversion::Identity ==> left == join.target
            &&& join.left == RefinementJoinConversion::ForgetExactConstructor ==> (tcx.spec_exact_constructor_type(left)
                matches Some(e) && e.base == join.target)
            &&& join.right == RefinementJoinConversion::Identity ==> right == join.target
            &&& join.right == RefinementJoinConversion::ForgetExactConstructor ==> (tcx.spec_exact_constructor_type(right)
                matches Some(e) && e.base == join.target)
            &&& tcx.conversion_shape(left, join.target) == Some(
                if join.left == RefinementJoinConversion::Identity {
                    ConversionShape::Identity
                } else {
                    ConversionShape::Forget
                },
            )
            &&& tcx.conversion_shape(right, join.target) == Some(
                if join.right == RefinementJoinConversion::Identity {
                    ConversionShape::Identity
                } else {
                    ConversionShape::Forget
                },
            )
        }),
{
    assert(tcx.kind_below(tcx.kind(left), left as int));
    assert(tcx.kind_below(tcx.kind(right), right as int));
}

/// A type that `source` forgets its exact constructor into is another type,
/// that `source` converts to by forgetting: for an exact constructor type its
/// base, which `refinement_conversion` reaches by `ForgetExactConstructor`;
/// for a shared reference to one, the same reference to the base, which it
/// reaches by `ForgetSharedExactConstructor` relating through that very type
/// (the reference it interns has the target's kind, so it is the target).
pub proof fn lemma_forget_target_converts(tcx: &TyCtxt, source: TyId, target: TyId)
    requires
        tcx.wf(),
        tcx.valid_ty(source),
        tcx.valid_ty(target),
        tcx.forget_target_kind(source) == Some(tcx.kind(target)),
    ensures
        target != source,
        tcx.spec_exact_constructor_type(source) matches Some(exact) ==> (target == exact.base && tcx.conversion_shape(
            source,
            target,
        ) == Some(ConversionShape::Forget)),
        tcx.spec_exact_constructor_type(source) is None ==> (tcx.kind(source) matches TyKind::Ref(
            region,
            pointee,
            Mutability::Not,
        ) && tcx.spec_exact_constructor_type(pointee) matches Some(exact) && tcx.kind(target) == TyKind::Ref(
            region,
            exact.base,
            Mutability::Not,
        ) && tcx.conversion_shape(source, target) == Some(ConversionShape::ForgetShared(region, exact.base))),
        forall|t: TyId|
            tcx.valid_ty(t) && tcx.kind(t) == tcx.kind(target) ==> t == target,
{
    assert(tcx.kind_below(tcx.kind(source), source as int));
    assert forall|t: TyId| tcx.valid_ty(t) && tcx.kind(t) == tcx.kind(target) implies t == target by {
        lemma_interned_types_equal(tcx, t, target);
    }
    if tcx.spec_exact_constructor_type(source) is None {
        if let TyKind::Ref(region, pointee, _) = tcx.kind(source) {
            assert(tcx.kind_below(tcx.kind(pointee), pointee as int));
            assert(source != target);
        }
    } else {
        let exact = tcx.spec_exact_constructor_type(source).unwrap();
        lemma_interned_types_equal(tcx, exact.base, target);
        assert(exact.base == target);
    }
}

/// An exact variant type agrees with the other queries: it is the exact
/// constructor type of its base and variant, its impls are looked up under
/// that exact constructor of the enum that owns the variant, and forgetting
/// leads back to the base.
pub proof fn lemma_exact_variant_agrees(tcx: &TyCtxt, ty: TyId, base: TyId, variant_def_id: DefId)
    requires
        tcx.wf(),
        tcx.valid_ty(ty),
        variant_def_id < tcx.defs@.len(),
        tcx.defs@[variant_def_id as int].parent matches Some(family) && tcx.kind(base) matches TyKind::Adt(adt, _)
            && adt == family,
        tcx.kind(ty) == TyKind::Refined(base, RefinementTypeKey(RefinementDefinition::Constructor { variant_def_id })),
    ensures
        tcx.spec_exact_constructor_type(ty) == Some(ExactConstructorType { base, variant_def_id }),
        tcx.spec_refinement_impl_head(ty) == Some(
            RefinementImplHead::ExactConstructor { base, owner: tcx.defs@[variant_def_id as int].parent.unwrap() },
        ),
        tcx.forget_target_kind(ty) == Some(tcx.kind(base)),
        tcx.conversion_shape(ty, base) == Some(ConversionShape::Forget),
{
    assert(tcx.kind_below(tcx.kind(ty), ty as int));
}

/// Building a value into an exact constructor type and forgetting the
/// constructor again lead back to the type it was built from.
pub proof fn lemma_construction_then_forget(tcx: &TyCtxt, source: TyId, target: TyId)
    requires
        tcx.wf(),
        tcx.valid_ty(target),
        tcx.spec_exact_constructor_type(target) matches Some(exact) && exact.base == source,
    ensures
        tcx.conversion_shape(target, source) == Some(ConversionShape::Forget),
        tcx.forget_target_kind(target) == Some(tcx.kind(source)),
{
    assert(tcx.kind_below(tcx.kind(target), target as int));
}

/// The views of a refinement key agree: its identity is a constructor, its
/// invariant is that exact constructor, and it has that known constructor, all
/// for the same variant or not at all; and exactly then its layout is that of
/// its base.
pub proof fn lemma_key_views_agree(key: RefinementTypeKey, variant: DefId)
    ensures
        TyCtxt::spec_refinement_type_identity(key) == RefinementTypeIdentity::Constructor(variant)
            <==> TyCtxt::spec_refinement_type_invariant(key) == RefinementTypeInvariant::ExactConstructor(variant),
        TyCtxt::spec_refinement_type_invariant(key) == RefinementTypeInvariant::ExactConstructor(variant)
            <==> TyCtxt::spec_refinement_known_constructor(key) == KnownConstructor::Variant(variant),
        TyCtxt::spec_refinement_known_constructor(key) is Variant
            <==> TyCtxt::spec_refinement_layout_authority(key) == RefinementLayoutAuthority::BaseRepresentation,
{
}

} // verus!
