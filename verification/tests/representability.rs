use refined_rustc::representability::{check_representability, params_in_repr, Representability};
use refined_rustc::ty::{
    Const, DefData, DefKind, GenericParamDef, GenericParamDefKind, Mutability, PrimTy, Region, TyCtxt, TyKind,
    VariantBinders, VariantDef, VariantScheme,
};

fn def(kind: DefKind, type_of: usize) -> DefData {
    DefData {
        kind,
        parent: None,
        is_local: true,
        type_of,
        exact_variants: false,
        variants: vec![],
        scheme: VariantScheme::Ordinary,
        own_params: vec![],
        variances: vec![],
        alias_variances: None,
        params_in_repr: vec![],
        self_bounds: vec![],
        refined_syntax: false,
        binder_scheme: VariantBinders { family: vec![], local: vec![] },
        region_slot: None,
        origin_slot: None,
    }
}

fn strukt(variant: usize, fields: Vec<usize>) -> DefData {
    let mut d = def(DefKind::Struct, 0);
    d.variants = vec![VariantDef { def_id: variant, fields, ctor_def_id: None }];
    d
}

/// `struct S { s: S }`, `struct T { b: bool }`, `struct R { r: &'static R }`,
/// `struct A { a: [A; 2] }`.
fn ctxt() -> TyCtxt {
    TyCtxt {
        types: vec![
            TyKind::Adt(0, 0),
            TyKind::Prim(PrimTy::Bool),
            TyKind::Adt(6, 0),
            TyKind::Ref(Region::Static, 2, Mutability::Not),
            TyKind::Adt(9, 0),
            TyKind::Array(4, Const::Value(2)),
        ],
        arg_lists: vec![vec![]],
        ty_lists: vec![],
        patterns: vec![],
        dyns: vec![],
        defs: vec![
            strukt(1, vec![2]),
            def(DefKind::Variant, 0),
            def(DefKind::Field, 0),
            strukt(4, vec![5]),
            def(DefKind::Variant, 0),
            def(DefKind::Field, 1),
            strukt(7, vec![8]),
            def(DefKind::Variant, 0),
            def(DefKind::Field, 3),
            strukt(10, vec![11]),
            def(DefKind::Variant, 0),
            def(DefKind::Field, 5),
        ],
        free_alias_expansions: vec![None; 6],
    }
}

#[test]
fn a_struct_holding_itself_is_infinite() {
    let tcx = ctxt();
    assert_eq!(check_representability(&tcx, 0), Representability::Infinite);
    assert_eq!(check_representability(&tcx, 2), Representability::Infinite);
}

#[test]
fn a_struct_of_scalars_is_representable() {
    let tcx = ctxt();
    assert_eq!(check_representability(&tcx, 3), Representability::Representable);
}

#[test]
fn a_reference_breaks_the_cycle() {
    let tcx = ctxt();
    assert_eq!(check_representability(&tcx, 6), Representability::Representable);
}

#[test]
fn an_array_does_not_break_the_cycle() {
    let tcx = ctxt();
    assert_eq!(check_representability(&tcx, 9), Representability::Infinite);
}

#[test]
fn params_held_by_value() {
    // `struct P<T, U> { a: T, b: &'static U }` and `struct Q<T, U> { a: T, c: [U; 1] }`.
    let mut p = def(DefKind::Struct, 0);
    p.own_params = vec![
        GenericParamDef { def_id: 2, index: 0, kind: GenericParamDefKind::Type },
        GenericParamDef { def_id: 3, index: 1, kind: GenericParamDefKind::Type },
    ];
    p.variants = vec![VariantDef { def_id: 1, fields: vec![2, 3], ctor_def_id: None }];
    let mut q = def(DefKind::Struct, 0);
    q.own_params = p.own_params.clone();
    q.variants = vec![VariantDef { def_id: 1, fields: vec![2, 4], ctor_def_id: None }];
    let tcx = TyCtxt {
        types: vec![
            TyKind::Param(0),
            TyKind::Param(1),
            TyKind::Ref(Region::Static, 1, Mutability::Not),
            TyKind::Array(1, Const::Value(1)),
        ],
        arg_lists: vec![],
        ty_lists: vec![],
        patterns: vec![],
        dyns: vec![],
        defs: vec![p, def(DefKind::Variant, 0), def(DefKind::Field, 0), def(DefKind::Field, 2), def(DefKind::Field, 3), q],
        free_alias_expansions: vec![None; 4],
    };
    assert_eq!(params_in_repr(&tcx, 0), vec![true, false]);
    assert_eq!(params_in_repr(&tcx, 5), vec![true, true]);
}
