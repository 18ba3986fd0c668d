use refined_rustc::origin_contract::infer::infer_inner;
use refined_rustc::origin_contract::{
    has_region_occurrence, merge_state, propagate_state, visit_region_occurrences, Layout, region_occurrences, BasicBlockData, Body, Operand, OriginContractAnalysis, OriginContractError,
    OriginContractErrorKind, OriginRequirement, Place, Rvalue, Statement, Terminator, TerminatorKind,
};
use std::collections::VecDeque;
use std::ops::ControlFlow;
use refined_rustc::ty::{
    DefData, DefKind, GenericParamDef, GenericParamDefKind, Mutability, OriginSlot, PrimTy, Region, RegionSlot,
    TyCtxt, TyKind, VariantBinders, VariantScheme,
};

fn def(kind: DefKind) -> DefData {
    DefData {
        kind,
        parent: None,
        is_local: true,
        type_of: 0,
        exact_variants: false,
        variants: vec![],
        scheme: VariantScheme::Ordinary,
        own_params: vec![],
        variances: vec![],
        alias_variances: None,
        params_in_repr: vec![],
        self_bounds: vec![],
        refined_syntax: false,
        binder_scheme: VariantBinders { family: vec![], local: vec![] },
        region_slot: None,
        origin_slot: None,
    }
}

/// `fn f<'a, 'o>(x: &'a bool, y: &'static bool) -> &'o bool` with `'o` an
/// origin lifetime: types 0 `bool`, 1 `&'a bool`, 2 `&'o bool`, 3
/// `&'static bool`.
fn ctxt() -> TyCtxt {
    let mut f = def(DefKind::Fn);
    f.own_params = vec![
        GenericParamDef { def_id: 1, index: 0, kind: GenericParamDefKind::Lifetime },
        GenericParamDef { def_id: 2, index: 1, kind: GenericParamDefKind::OriginLifetime },
    ];
    let mut a = def(DefKind::Other);
    a.region_slot = Some(RegionSlot(7));
    let mut o = def(DefKind::Other);
    o.origin_slot = Some(OriginSlot(3));
    TyCtxt {
        types: vec![
            TyKind::Prim(PrimTy::Bool),
            TyKind::Ref(Region::EarlyParam(0), 0, Mutability::Not),
            TyKind::Ref(Region::EarlyParam(1), 0, Mutability::Not),
            TyKind::Ref(Region::Static, 0, Mutability::Not),
        ],
        arg_lists: vec![],
        ty_lists: vec![],
        patterns: vec![],
        dyns: vec![],
        defs: vec![f, a, o],
        free_alias_expansions: vec![None; 4],
    }
}

fn local(l: usize, ty: usize) -> Place {
    Place { local: l, projection: vec![], ty }
}

fn body(statements: Vec<Statement>, terminator: TerminatorKind) -> Body {
    Body {
        local_decls: vec![2, 1, 3],
        arg_count: 2,
        basic_blocks: vec![BasicBlockData { statements, terminator: Terminator { kind: terminator, span: 40 } }],
        span: 10,
    }
}

#[test]
fn returning_an_input_requires_its_region() {
    let tcx = ctxt();
    let b = body(vec![Statement::Assign(local(0, 2), Rvalue::Use(Operand::Copy(local(1, 1))))], TerminatorKind::Return);
    match infer_inner(&tcx, 0, &b, &vec![1, 3], 2) {
        OriginContractAnalysis::Contract(c) => {
            assert_eq!(c.requirements, vec![OriginRequirement { source: RegionSlot(7), target: OriginSlot(3) }]);
        }
        other => panic!("unexpected analysis {:?}", other),
    }
}

#[test]
fn returning_a_static_input_requires_nothing() {
    let tcx = ctxt();
    let b = body(vec![Statement::Assign(local(0, 2), Rvalue::Use(Operand::Copy(local(2, 3))))], TerminatorKind::Return);
    match infer_inner(&tcx, 0, &b, &vec![1, 3], 2) {
        OriginContractAnalysis::Contract(c) => assert_eq!(c.requirements, vec![]),
        other => panic!("unexpected analysis {:?}", other),
    }
}

#[test]
fn a_function_without_origin_lifetimes_has_the_empty_contract() {
    let mut tcx = ctxt();
    tcx.defs[0].own_params.pop();
    let b = body(vec![], TerminatorKind::Return);
    match infer_inner(&tcx, 0, &b, &vec![1, 3], 2) {
        OriginContractAnalysis::Contract(c) => assert_eq!(c.requirements, vec![]),
        other => panic!("unexpected analysis {:?}", other),
    }
}

#[test]
fn dropping_a_value_with_regions_is_unrepresentable() {
    let tcx = ctxt();
    let b = body(vec![], TerminatorKind::Drop { place: local(1, 1), target: 0, unwind: None });
    match infer_inner(&tcx, 0, &b, &vec![1, 3], 2) {
        OriginContractAnalysis::Unrepresentable(e) => {
            assert_eq!(e, OriginContractError { span: 40, kind: OriginContractErrorKind::DropMayMutateOrigin });
        }
        other => panic!("unexpected analysis {:?}", other),
    }
}

#[test]
fn a_call_receiving_regions_is_unrepresentable() {
    let tcx = ctxt();
    let b = body(
        vec![],
        TerminatorKind::Call { args: vec![Operand::Copy(local(1, 1))], destination: local(0, 2), target: Some(0), unwind: None },
    );
    match infer_inner(&tcx, 0, &b, &vec![1, 3], 2) {
        OriginContractAnalysis::Unrepresentable(e) => {
            assert_eq!(e, OriginContractError { span: 40, kind: OriginContractErrorKind::CallMayMutateOrigin });
        }
        other => panic!("unexpected analysis {:?}", other),
    }
}

#[test]
fn a_call_result_of_unknown_origin_is_unrepresentable() {
    let tcx = ctxt();
    let mut b = body(
        vec![],
        TerminatorKind::Call { args: vec![], destination: local(0, 2), target: Some(1), unwind: None },
    );
    b.basic_blocks.push(BasicBlockData { statements: vec![], terminator: Terminator { kind: TerminatorKind::Return, span: 50 } });
    match infer_inner(&tcx, 0, &b, &vec![1, 3], 2) {
        OriginContractAnalysis::Unrepresentable(e) => {
            assert_eq!(e, OriginContractError { span: 10, kind: OriginContractErrorKind::UnrepresentableValue });
        }
        other => panic!("unexpected analysis {:?}", other),
    }
}

#[test]
fn region_occurrences_in_visiting_order() {
    let tcx = ctxt();
    assert_eq!(region_occurrences(&tcx, 1), vec![Region::EarlyParam(0)]);
    assert_eq!(region_occurrences(&tcx, 0), vec![]);
}

#[test]
fn merging_reports_a_change_only_for_new_bits() {
    let mut destination = vec![0b0101u64, 0];
    assert!(merge_state(&mut destination, &vec![0b0011, 0]));
    assert_eq!(destination, vec![0b0111, 0]);
    assert!(!merge_state(&mut destination, &vec![0b0001, 0]));
    assert_eq!(destination, vec![0b0111, 0]);
}

#[test]
fn layout_of_slots_and_words() {
    let tcx = ctxt();
    let b = body(vec![], TerminatorKind::Return);
    let layout = Layout::new(&tcx, &b, 70);
    assert_eq!(layout.offsets, vec![0, 1, 2, 3]);
    assert_eq!(layout.unknown_bit, 70);
    assert_eq!(layout.words_per_set, 2);
    assert_eq!(layout.state_words(), 6);
    assert_eq!(layout.max_local_slots(), 1);
    assert_eq!(layout.local_slots(1), 1..2);
    assert_eq!(layout.slot_words(2), 4..6);
    let mut state = vec![0u64; 6];
    layout.set_bit(&mut state, 1, 65);
    assert_eq!(state, vec![0, 0, 0, 0b10, 0, 0]);
    layout.set_unknown_local(&mut state, 2);
    assert_eq!(state, vec![0, 0, 0, 0b10, 0, 1 << 6]);
    layout.copy_local(&mut state, 0, 1);
    assert_eq!(state, vec![0, 0b10, 0, 0b10, 0, 1 << 6]);
    layout.clear_local(&mut state, 1);
    assert_eq!(state, vec![0, 0b10, 0, 0, 0, 1 << 6]);
}

#[test]
fn visiting_regions_stops_at_the_first_break() {
    let mut tcx = ctxt();
    tcx.arg_lists.push(vec![]);
    tcx.ty_lists.push(vec![3, 1, 2]);
    tcx.types.push(TyKind::Tuple(0));
    tcx.free_alias_expansions.push(None);
    let stop_at_a = |r: Region| if r == Region::EarlyParam(0) { ControlFlow::Break(()) } else { ControlFlow::Continue(()) };
    assert_eq!(visit_region_occurrences(&tcx, 4, &stop_at_a), ControlFlow::Break(()));
    assert_eq!(visit_region_occurrences(&tcx, 3, &stop_at_a), ControlFlow::Continue(()));
    assert_eq!(visit_region_occurrences(&tcx, 0, &stop_at_a), ControlFlow::Continue(()));
    assert!(has_region_occurrence(&tcx, 4));
    assert!(!has_region_occurrence(&tcx, 0));
}

#[test]
fn layout_works_on_a_longer_state() {
    let tcx = ctxt();
    let b = body(vec![], TerminatorKind::Return);
    let layout = Layout::new(&tcx, &b, 3);
    let mut state = vec![0b1u64, 0b10, 0b100, 7, 9];
    layout.copy_local(&mut state, 0, 2);
    assert_eq!(state, vec![0b100, 0b10, 0b100, 7, 9]);
    layout.set_unknown_local(&mut state, 1);
    assert_eq!(state, vec![0b100, 0b1000, 0b100, 7, 9]);
}

#[test]
fn propagating_into_a_larger_entry_table() {
    let mut entries = vec![0u64; 7];
    let mut reached = vec![false, false];
    let mut queued = vec![false, false];
    let mut queue: VecDeque<usize> = VecDeque::new();
    propagate_state(&mut entries, &mut reached, &mut queued, &mut queue, 2, 1, &vec![5, 6]);
    assert_eq!(entries, vec![0, 0, 5, 6, 0, 0, 0]);
    assert_eq!(reached, vec![false, true]);
    assert_eq!(queue, VecDeque::from(vec![1]));
    propagate_state(&mut entries, &mut reached, &mut queued, &mut queue, 2, 1, &vec![1, 2]);
    assert_eq!(entries, vec![0, 0, 5, 6, 0, 0, 0]);
    assert_eq!(queue, VecDeque::from(vec![1]));
}
