use refined_rustc::refinement::{
    ExactConstructorType, KnownConstructor, RefinementConversion, RefinementImplHead, RefinementJoin,
    RefinementJoinConversion, RefinementLayoutAuthority, RefinementTypeIdentity, RefinementTypeInvariant,
    RefinementUnsizeKind,
};
use refined_rustc::ty::{
    DefData, DefKind, Mutability, PatternKind, PrimTy, RefinementDefinition, RefinementTypeKey, Region, TyCtxt,
    TyKind, VariantBinders, VariantDef, VariantScheme,
};

fn def(kind: DefKind, parent: Option<usize>) -> DefData {
    DefData {
        kind,
        parent,
        is_local: true,
        type_of: 0,
        exact_variants: false,
        variants: vec![],
        scheme: VariantScheme::Ordinary,
        own_params: vec![],
        variances: vec![],
        alias_variances: None,
        params_in_repr: vec![],
        self_bounds: vec![],
        refined_syntax: false,
        binder_scheme: VariantBinders { family: vec![], local: vec![] },
        region_slot: None,
        origin_slot: None,
    }
}

/// `enum E { A, B }` with `#[exact_variants]`: type 0 is `bool`, type 1 is `E`,
/// pattern 0 is "not null" and pattern 1 a range.
fn enum_ctxt() -> TyCtxt {
    let mut e = def(DefKind::Enum, None);
    e.exact_variants = true;
    e.type_of = 1;
    e.variants = vec![
        VariantDef { def_id: 1, fields: vec![], ctor_def_id: None },
        VariantDef { def_id: 2, fields: vec![], ctor_def_id: None },
    ];
    TyCtxt {
        types: vec![TyKind::Prim(PrimTy::Bool), TyKind::Adt(0, 0)],
        arg_lists: vec![vec![]],
        ty_lists: vec![],
        patterns: vec![
            PatternKind::NotNull,
            PatternKind::Range { start: refined_rustc::ty::Const::Value(1), end: refined_rustc::ty::Const::Value(9) },
        ],
        dyns: vec![],
        defs: vec![e, def(DefKind::Variant, Some(0)), def(DefKind::Variant, Some(0))],
        free_alias_expansions: vec![None, None],
    }
}

#[test]
fn exact_variant_ty_interns_once() {
    let mut tcx = enum_ctxt();
    let a = tcx.exact_variant_ty(1, 1);
    assert_eq!(a, 2);
    assert_eq!(
        tcx.types[a],
        TyKind::Refined(1, RefinementTypeKey(RefinementDefinition::Constructor { variant_def_id: 1 }))
    );
    let again = tcx.exact_variant_ty(1, 1);
    assert_eq!(again, a);
    assert_eq!(tcx.types.len(), 3);
    assert_eq!(tcx.exact_constructor_type(a), Some(ExactConstructorType { base: 1, variant_def_id: 1 }));
    assert_eq!(tcx.exact_constructor_type(1), None);
}

#[test]
fn join_of_two_exact_variants_is_their_base() {
    let mut tcx = enum_ctxt();
    let a = tcx.exact_variant_ty(1, 1);
    let b = tcx.exact_variant_ty(1, 2);
    let join = tcx.refinement_join(a, b);
    assert_eq!(
        join,
        Some(RefinementJoin {
            target: 1,
            left: RefinementJoinConversion::ForgetExactConstructor,
            right: RefinementJoinConversion::ForgetExactConstructor,
        })
    );
}

#[test]
fn join_is_symmetric_on_concrete_types() {
    let mut tcx = enum_ctxt();
    let a = tcx.exact_variant_ty(1, 1);
    let j1 = tcx.refinement_join(a, 1).unwrap();
    let j2 = tcx.refinement_join(1, a).unwrap();
    assert_eq!(j1.target, 1);
    assert_eq!(j1.target, j2.target);
    assert_eq!(j1.left, j2.right);
    assert_eq!(j1.right, j2.left);
    assert_eq!(j1.left, RefinementJoinConversion::ForgetExactConstructor);
    assert_eq!(j1.right, RefinementJoinConversion::Identity);
    assert_eq!(tcx.refinement_join(0, 1), None);
    assert_eq!(tcx.refinement_join(1, 0), None);
    assert_eq!(
        tcx.refinement_join(0, 0),
        Some(RefinementJoin {
            target: 0,
            left: RefinementJoinConversion::Identity,
            right: RefinementJoinConversion::Identity,
        })
    );
}

#[test]
fn join_sides_convert_to_the_target() {
    let mut tcx = enum_ctxt();
    let a = tcx.exact_variant_ty(1, 1);
    let b = tcx.exact_variant_ty(1, 2);
    let join = tcx.refinement_join(a, b).unwrap();
    assert_eq!(tcx.refinement_conversion(a, join.target), Some(RefinementConversion::ForgetExactConstructor));
    assert_eq!(tcx.refinement_conversion(b, join.target), Some(RefinementConversion::ForgetExactConstructor));
    let join = tcx.refinement_join(1, a).unwrap();
    assert_eq!(tcx.refinement_conversion(1, join.target), Some(RefinementConversion::Identity));
}

#[test]
fn conversions_between_exact_variants_and_bases() {
    let mut tcx = enum_ctxt();
    let a = tcx.exact_variant_ty(1, 1);
    assert_eq!(tcx.refinement_conversion(a, a), Some(RefinementConversion::Identity));
    assert_eq!(tcx.refinement_conversion(a, 1), Some(RefinementConversion::ForgetExactConstructor));
    assert_eq!(tcx.refinement_conversion(1, a), None);
    assert_eq!(tcx.refinement_conversion(a, 0), None);
}

#[test]
fn forgetting_behind_a_shared_reference() {
    let mut tcx = enum_ctxt();
    let a = tcx.exact_variant_ty(1, 1);
    let ref_a = tcx.mk_ty(TyKind::Ref(Region::Static, a, Mutability::Not));
    let target = tcx.refinement_forget_target(ref_a).unwrap();
    assert_eq!(tcx.types[target], TyKind::Ref(Region::Static, 1, Mutability::Not));
    match tcx.refinement_conversion(ref_a, target) {
        Some(RefinementConversion::ForgetSharedExactConstructor { relation_source }) => {
            assert_eq!(relation_source, target);
        }
        other => panic!("unexpected conversion {:?}", other),
    }
    let mut_a = tcx.mk_ty(TyKind::Ref(Region::Static, a, Mutability::Mut));
    assert_eq!(tcx.refinement_forget_target(mut_a), None);
    assert_eq!(tcx.refinement_forget_target(1), None);
    assert_eq!(tcx.refinement_forget_target(a), Some(1));
}

#[test]
fn construction_variant_then_forget_returns_to_the_base() {
    let mut tcx = enum_ctxt();
    let b = tcx.exact_variant_ty(1, 2);
    assert_eq!(tcx.refinement_construction_variant(1, b), Some(2));
    assert_eq!(tcx.refinement_construction_variant(0, b), None);
    assert_eq!(tcx.refinement_construction_variant(1, 1), None);
    let back = tcx.refinement_forget_target(b).unwrap();
    assert_eq!(back, 1);
    assert_eq!(tcx.refinement_conversion(b, 1), Some(RefinementConversion::ForgetExactConstructor));
}

#[test]
fn impl_heads_of_refined_types() {
    let mut tcx = enum_ctxt();
    let a = tcx.exact_variant_ty(1, 1);
    let key = tcx.refinement_for_pattern(0);
    let nonnull = tcx.mk_ty(TyKind::Refined(0, key));
    assert_eq!(tcx.refinement_impl_head(a), Some(RefinementImplHead::ExactConstructor { base: 1, owner: 0 }));
    assert_eq!(tcx.refinement_impl_head(nonnull), Some(RefinementImplHead::Pattern { base: 0 }));
    assert_eq!(tcx.refinement_impl_head(1), None);
}

#[test]
fn views_of_refinement_keys() {
    let tcx = enum_ctxt();
    let pattern = tcx.refinement_for_pattern(0);
    let range = tcx.refinement_for_pattern(1);
    let ctor = tcx.refinement_for_constructor(2);
    assert_eq!(pattern.kind(), RefinementDefinition::Pattern(0));
    assert_eq!(ctor.kind(), RefinementDefinition::Constructor { variant_def_id: 2 });
    assert_eq!(tcx.refinement_type_identity(pattern), RefinementTypeIdentity::Pattern(0));
    assert_eq!(tcx.refinement_type_identity(ctor), RefinementTypeIdentity::Constructor(2));
    assert_eq!(tcx.refinement_type_invariant(pattern), RefinementTypeInvariant::ScalarPattern(0));
    assert_eq!(tcx.refinement_type_invariant(ctor), RefinementTypeInvariant::ExactConstructor(2));
    assert_eq!(tcx.refinement_known_constructor(pattern), KnownConstructor::NotKnown);
    assert_eq!(tcx.refinement_known_constructor(ctor), KnownConstructor::Variant(2));
    assert_eq!(tcx.refinement_layout_authority(pattern), RefinementLayoutAuthority::ScalarPattern(0));
    assert_eq!(tcx.refinement_layout_authority(ctor), RefinementLayoutAuthority::BaseRepresentation);
    assert_eq!(tcx.refinement_unsize_kind(pattern), RefinementUnsizeKind::TransparentBase);
    assert_eq!(tcx.refinement_unsize_kind(range), RefinementUnsizeKind::Unsupported);
    assert_eq!(tcx.refinement_unsize_kind(ctor), RefinementUnsizeKind::Unsupported);
}

#[test]
fn exact_variants_and_uniform_representation() {
    let mut tcx = enum_ctxt();
    assert!(tcx.enum_preserves_exact_variants(0));
    assert!(!tcx.enum_preserves_exact_variants(1));
    assert!(tcx.enum_refinement_is_representation_uniform(0));
    assert!(tcx.enum_refinement_is_representation_uniform(1));
    tcx.defs[2].scheme = VariantScheme::Invalid;
    assert!(!tcx.enum_refinement_is_representation_uniform(0));
    tcx.defs[0].exact_variants = false;
    assert!(!tcx.enum_preserves_exact_variants(0));
}

#[test]
fn shared_forgetting_relates_through_the_source_region() {
    let mut tcx = enum_ctxt();
    let a = tcx.exact_variant_ty(1, 1);
    let long_a = tcx.mk_ty(TyKind::Ref(Region::EarlyParam(0), a, Mutability::Not));
    let short_state = tcx.mk_ty(TyKind::Ref(Region::EarlyParam(1), 1, Mutability::Not));
    match tcx.refinement_conversion(long_a, short_state) {
        Some(RefinementConversion::ForgetSharedExactConstructor { relation_source }) => {
            assert_eq!(tcx.types[relation_source], TyKind::Ref(Region::EarlyParam(0), 1, Mutability::Not));
        }
        other => panic!("unexpected conversion {:?}", other),
    }
}

#[test]
fn mutable_references_do_not_forget() {
    let mut tcx = enum_ctxt();
    let a = tcx.exact_variant_ty(1, 1);
    let mut_a = tcx.mk_ty(TyKind::Ref(Region::EarlyParam(0), a, Mutability::Mut));
    let mut_state = tcx.mk_ty(TyKind::Ref(Region::EarlyParam(0), 1, Mutability::Mut));
    assert_eq!(tcx.refinement_conversion(mut_a, mut_state), None);
    assert_eq!(tcx.refinement_forget_target(mut_a), None);
}

#[test]
fn exact_variant_type_agrees_with_the_other_queries() {
    let mut tcx = enum_ctxt();
    let before = tcx.types.len();
    let b = tcx.exact_variant_ty(1, 2);
    assert_eq!(tcx.types.len(), before + 1);
    assert_eq!(tcx.exact_constructor_type(b), Some(ExactConstructorType { base: 1, variant_def_id: 2 }));
    assert_eq!(tcx.refinement_impl_head(b), Some(RefinementImplHead::ExactConstructor { base: 1, owner: 0 }));
    assert_eq!(tcx.refinement_forget_target(b), Some(1));
    assert_eq!(tcx.types.len(), before + 1);
    assert_eq!(tcx.refinement_conversion(b, 1), Some(RefinementConversion::ForgetExactConstructor));
}
