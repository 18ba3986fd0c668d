use refined_rustc::ty::{
    DefData, DefKind, GenericArg, GenericParamDef, GenericParamDefKind, Mutability, Region, TyCtxt, TyKind, Variance,
    VariantBinders, VariantDef, VariantScheme,
};
use refined_rustc::variance::{add_constraints_from_crate, Constraint, TermsContext, VarianceTerm};

fn all() -> Vec<Variance> {
    vec![Variance::Covariant, Variance::Invariant, Variance::Contravariant, Variance::Bivariant]
}

fn def(kind: DefKind, type_of: usize) -> DefData {
    DefData {
        kind,
        parent: None,
        is_local: true,
        type_of,
        exact_variants: false,
        variants: vec![],
        scheme: VariantScheme::Ordinary,
        own_params: vec![],
        variances: vec![],
        alias_variances: None,
        params_in_repr: vec![],
        self_bounds: vec![],
        refined_syntax: false,
        binder_scheme: VariantBinders { family: vec![], local: vec![] },
        region_slot: None,
        origin_slot: None,
    }
}

#[test]
fn xform_table() {
    assert_eq!(Variance::Covariant.xform(Variance::Contravariant), Variance::Contravariant);
    assert_eq!(Variance::Contravariant.xform(Variance::Contravariant), Variance::Covariant);
    assert_eq!(Variance::Contravariant.xform(Variance::Invariant), Variance::Invariant);
    assert_eq!(Variance::Contravariant.xform(Variance::Bivariant), Variance::Bivariant);
    assert_eq!(Variance::Invariant.xform(Variance::Bivariant), Variance::Invariant);
    assert_eq!(Variance::Bivariant.xform(Variance::Invariant), Variance::Bivariant);
}

#[test]
fn xform_laws_on_all_variances() {
    for a in all() {
        assert_eq!(a.xform(Variance::Covariant), a);
        assert_eq!(Variance::Covariant.xform(a), a);
        assert_eq!(a.xform(Variance::Contravariant).xform(Variance::Contravariant), a);
        assert_eq!(Variance::Invariant.xform(a), Variance::Invariant);
        assert_eq!(Variance::Bivariant.xform(a), Variance::Bivariant);
        for b in all() {
            for c in all() {
                assert_eq!(a.xform(b).xform(c), a.xform(b.xform(c)));
            }
        }
    }
}

/// `struct S<T> { f: T }` and `struct M<T> { f: &'static mut T }`.
fn ctxt() -> TyCtxt {
    let param = GenericParamDef { def_id: 3, index: 0, kind: GenericParamDefKind::Type };
    let mut s = def(DefKind::Struct, 1);
    s.own_params = vec![param];
    s.variants = vec![VariantDef { def_id: 1, fields: vec![2], ctor_def_id: None }];
    let mut m = def(DefKind::Struct, 3);
    m.own_params = vec![param];
    m.variants = vec![VariantDef { def_id: 5, fields: vec![6], ctor_def_id: None }];
    TyCtxt {
        types: vec![
            TyKind::Param(0),
            TyKind::Adt(0, 0),
            TyKind::Ref(Region::Static, 0, Mutability::Mut),
            TyKind::Adt(4, 0),
        ],
        arg_lists: vec![vec![GenericArg::Type(0)]],
        ty_lists: vec![],
        patterns: vec![],
        dyns: vec![],
        defs: vec![
            s,
            def(DefKind::Variant, 1),
            def(DefKind::Field, 0),
            def(DefKind::Other, 0),
            m,
            def(DefKind::Variant, 3),
            def(DefKind::Field, 2),
        ],
        free_alias_expansions: vec![None; 4],
    }
}

#[test]
fn field_constraints_of_structs() {
    let tcx = ctxt();
    let terms = TermsContext {
        arena: vec![VarianceTerm::InferredTerm(0), VarianceTerm::InferredTerm(1)],
        inferred_starts: vec![Some(0), None, None, None, Some(1), None, None],
        inferred_terms: vec![0, 1],
    };
    let cx = add_constraints_from_crate(&tcx, terms);
    assert_eq!(cx.covariant, 2);
    assert_eq!(cx.contravariant, 3);
    assert_eq!(cx.invariant, 4);
    assert_eq!(cx.bivariant, 5);
    assert_eq!(
        cx.constraints,
        vec![Constraint { inferred: 0, variance: 2 }, Constraint { inferred: 1, variance: 4 }]
    );
    assert_eq!(cx.terms_cx.arena[4], VarianceTerm::ConstantTerm(Variance::Invariant));
}

#[test]
fn items_without_generics_have_no_constraints() {
    let mut tcx = ctxt();
    tcx.defs[0].own_params = vec![];
    tcx.defs[4].own_params = vec![];
    let terms = TermsContext { arena: vec![], inferred_starts: vec![], inferred_terms: vec![] };
    let cx = add_constraints_from_crate(&tcx, terms);
    assert_eq!(cx.constraints, vec![]);
    assert_eq!(cx.terms_cx.arena.len(), 4);
}
