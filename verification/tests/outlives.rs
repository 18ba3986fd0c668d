use refined_rustc::outlives::{
    compute_alias_components_recursive, compute_alias_components_recursive_for_static,
    declared_bounds_from_definition, push_outlives_components, push_static_outlives_components, Component,
    Components,
};
use refined_rustc::ty::{
    AliasTy, AliasTyKind, ClauseKind, ClosureArgs, DefData, DefKind, GenericArg, Mutability, PrimTy, Region, TyCtxt, TyKind,
    Variance, VariantBinders, VariantScheme,
};

fn def(kind: DefKind) -> DefData {
    DefData {
        kind,
        parent: None,
        is_local: true,
        type_of: 0,
        exact_variants: false,
        variants: vec![],
        scheme: VariantScheme::Ordinary,
        own_params: vec![],
        variances: vec![],
        alias_variances: None,
        params_in_repr: vec![],
        self_bounds: vec![],
        refined_syntax: false,
        binder_scheme: VariantBinders { family: vec![], local: vec![] },
        region_slot: None,
        origin_slot: None,
    }
}

/// Types: 0 `T`, 1 `&'a T`, 2 `bool`, 3 `fn() -> T` as a function item,
/// 4 `(&'a T, T)`, 5 `U`, 6 `<T as Tr<U, 'c>>::Assoc`, 7 `str`, 8 `&'b str`,
/// 9 the item `returns::<'b>` of `fn returns<'b>() -> &'b str`, 10 its
/// signature as a pointer, 11 `()`, 12 a closure `|| -> &'b str` that
/// captures nothing.
fn ctxt() -> TyCtxt {
    let mut assoc = def(DefKind::Other);
    assoc.alias_variances = Some(vec![Variance::Invariant, Variance::Bivariant, Variance::Invariant]);
    assoc.self_bounds = vec![
        ClauseKind::Other,
        ClauseKind::TypeOutlives(0, Region::EarlyParam(2)),
        ClauseKind::TypeOutlives(0, Region::Bound(0)),
        ClauseKind::TypeOutlives(0, Region::Static),
    ];
    TyCtxt {
        types: vec![
            TyKind::Param(0),
            TyKind::Ref(Region::EarlyParam(0), 0, Mutability::Not),
            TyKind::Prim(PrimTy::Bool),
            TyKind::FnDef(0, 0, 0),
            TyKind::Tuple(1),
            TyKind::Param(1),
            TyKind::Alias(true, AliasTy { kind: AliasTyKind::Projection(1), args: 1 }),
            TyKind::Prim(PrimTy::Str),
            TyKind::Ref(Region::EarlyParam(1), 7, Mutability::Not),
            TyKind::FnDef(0, 2, 2),
            TyKind::FnPtr(2),
            TyKind::Tuple(3),
            TyKind::Closure(0, ClosureArgs { parent: 0, sig_as_fn_ptr: 10, upvars: 11 }),
        ],
        arg_lists: vec![
            vec![],
            vec![GenericArg::Type(0), GenericArg::Type(5), GenericArg::Lifetime(Region::EarlyParam(2))],
            vec![GenericArg::Lifetime(Region::EarlyParam(1))],
        ],
        ty_lists: vec![vec![0], vec![1, 0], vec![8], vec![]],
        patterns: vec![],
        dyns: vec![],
        defs: vec![def(DefKind::Fn), assoc],
        free_alias_expansions: vec![None; 13],
    }
}

fn components_of(tcx: &TyCtxt, ty: usize, preserve: bool) -> Vec<Component> {
    let mut out = Components::new();
    if preserve {
        push_static_outlives_components(tcx, ty, &mut out);
    } else {
        push_outlives_components(tcx, ty, &mut out);
    }
    out.into_vec()
}

#[test]
fn reference_gives_its_region_then_its_referent() {
    let tcx = ctxt();
    assert_eq!(components_of(&tcx, 1, false), vec![Component::Region(Region::EarlyParam(0)), Component::Param(0)]);
}

#[test]
fn a_type_met_twice_gives_its_components_once() {
    let tcx = ctxt();
    assert_eq!(components_of(&tcx, 4, false), vec![Component::Region(Region::EarlyParam(0)), Component::Param(0)]);
}

#[test]
fn static_identity_keeps_the_signature_of_a_function_item() {
    let tcx = ctxt();
    assert_eq!(components_of(&tcx, 3, false), vec![]);
    assert_eq!(components_of(&tcx, 3, true), vec![Component::Param(0)]);
    assert_eq!(components_of(&tcx, 2, true), vec![]);
}

#[test]
fn components_are_appended_after_earlier_ones() {
    let tcx = ctxt();
    let mut out = Components::new();
    push_outlives_components(&tcx, 0, &mut out);
    push_outlives_components(&tcx, 1, &mut out);
    assert_eq!(
        out.into_vec(),
        vec![Component::Param(0), Component::Region(Region::EarlyParam(0)), Component::Param(0)]
    );
}

#[test]
fn an_alias_without_escaping_variables_is_one_component() {
    let tcx = ctxt();
    assert_eq!(
        components_of(&tcx, 6, false),
        vec![Component::Alias(true, AliasTy { kind: AliasTyKind::Projection(1), args: 1 })]
    );
}

#[test]
fn alias_arguments_skip_the_bivariant_ones() {
    let tcx = ctxt();
    let alias = AliasTy { kind: AliasTyKind::Projection(1), args: 1 };
    let mut out = Components::new();
    compute_alias_components_recursive(&tcx, alias, &mut out);
    assert_eq!(out.into_vec(), vec![Component::Param(0), Component::Region(Region::EarlyParam(2))]);
    let mut out = Components::new();
    compute_alias_components_recursive_for_static(&tcx, alias, &mut out);
    assert_eq!(out.into_vec(), vec![Component::Param(0), Component::Region(Region::EarlyParam(2))]);
}

#[test]
fn declared_bounds_are_instantiated_with_the_alias_arguments() {
    let tcx = ctxt();
    let alias = AliasTy { kind: AliasTyKind::Projection(1), args: 1 };
    assert_eq!(declared_bounds_from_definition(&tcx, alias), vec![Region::EarlyParam(2), Region::Static]);
}

#[test]
fn a_function_item_is_static_only_with_its_signature() {
    let tcx = ctxt();
    assert_eq!(components_of(&tcx, 9, false), vec![]);
    assert_eq!(components_of(&tcx, 9, true), vec![Component::Region(Region::EarlyParam(1))]);
}

#[test]
fn a_closure_is_static_only_with_its_signature() {
    let tcx = ctxt();
    assert_eq!(components_of(&tcx, 12, false), vec![]);
    assert_eq!(components_of(&tcx, 12, true), vec![Component::Region(Region::EarlyParam(1))]);
}

#[test]
fn static_identity_only_adds_components() {
    let tcx = ctxt();
    for ty in 0..tcx.types.len() {
        let plain = components_of(&tcx, ty, false);
        let with_static = components_of(&tcx, ty, true);
        for c in &plain {
            assert!(with_static.contains(c));
        }
    }
}
