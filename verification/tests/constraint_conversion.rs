use refined_rustc::constraint_conversion::{
    ArgOutlivesClause, ClosureOutlivesRequirement, ClosureOutlivesSubject, ClosureRegionRequirements,
    ConstraintCategory, ConstraintConversion, Locations, MirTypeckRegionConstraints, OutlivesConstraint,
    QueryRegionConstraint, TypeOutlivesRequest, TypeTest, UniversalRegionRelations, UniversalRegions,
};
use refined_rustc::ty::{GenericArg, Region};

/// `'static` is variable 0, `'a` variable 1 and `'b` variable 2; `'a:
/// 'static` is known. Fresh variables start at 10.
fn conversion(locations: Locations, outlives_constraints: Vec<OutlivesConstraint>, higher_ranked: bool) -> ConstraintConversion {
    let universal_regions = UniversalRegions {
        fr_static: 0,
        implicit_region_bound: 1,
        indices: vec![(Region::Static, 0), (Region::EarlyParam(0), 1), (Region::EarlyParam(1), 2)],
        universal: vec![0, 1, 2],
    };
    let relations = UniversalRegionRelations {
        universal_regions,
        outlives: vec![(0, 0), (0, 1), (0, 2), (1, 1), (2, 2), (1, 0)],
    };
    let constraints = MirTypeckRegionConstraints {
        placeholder_indices: vec![],
        placeholder_index_to_region: vec![],
        next_region_var: 10,
        outlives_constraints,
        type_tests: vec![],
    };
    ConstraintConversion::new(relations, locations, 5, ConstraintCategory::Boring, higher_ranked, constraints)
}

fn edge(locations: Locations, sup: u32, sub: u32) -> OutlivesConstraint {
    OutlivesConstraint { locations, category: ConstraintCategory::Boring, span: 0, sub, sup, from_closure: false }
}

#[test]
fn regions_outliving_static_are_closed_over_edges() {
    let mut cx = conversion(Locations::All(0), vec![], false);
    let edges = vec![
        (Region::Var(5), Region::EarlyParam(0)),
        (Region::Var(6), Region::EarlyParam(1)),
        (Region::Var(7), Region::Var(5)),
    ];
    let statics = cx.static_outlives_regions(&edges);
    assert_eq!(statics.to_vec(), vec![0, 1, 5, 7]);
    assert!(statics.contains(7));
    assert!(!statics.contains(6));
    assert!(!statics.contains(2));
}

#[test]
fn only_constraints_that_apply_here_are_followed() {
    let existing = vec![edge(Locations::Single(3), 8, 1), edge(Locations::All(0), 9, 1)];
    let mut cx = conversion(Locations::All(0), existing.clone(), false);
    let statics = cx.static_outlives_regions(&vec![]);
    assert_eq!(statics.to_vec(), vec![0, 1, 9]);
    let mut cx = conversion(Locations::Single(3), existing, false);
    let statics = cx.static_outlives_regions(&vec![]);
    assert_eq!(statics.to_vec(), vec![0, 1, 8, 9]);
}

#[test]
fn inserting_a_region_twice_keeps_one() {
    let mut cx = conversion(Locations::All(0), vec![], false);
    let mut statics = cx.static_outlives_regions(&vec![]);
    statics.insert(4);
    statics.insert(4);
    statics.insert(1);
    assert_eq!(statics.to_vec(), vec![0, 1, 4]);
}

#[test]
fn convert_all_records_region_constraints_and_requests_for_types() {
    let mut cx = conversion(Locations::All(0), vec![], false);
    let constraints = vec![QueryRegionConstraint {
        outlives: vec![
            ArgOutlivesClause { arg: GenericArg::Lifetime(Region::Var(5)), region: Region::EarlyParam(0) },
            ArgOutlivesClause { arg: GenericArg::Type(3), region: Region::Var(5) },
            ArgOutlivesClause { arg: GenericArg::Type(4), region: Region::Var(6) },
        ],
        category: ConstraintCategory::Specific(9),
    }];
    let requests = cx.convert_all(&constraints, &vec![]);
    assert_eq!(
        cx.constraints.outlives_constraints,
        vec![OutlivesConstraint {
            locations: Locations::All(0),
            category: ConstraintCategory::Specific(9),
            span: 5,
            sub: 1,
            sup: 5,
            from_closure: false,
        }]
    );
    assert_eq!(
        requests,
        vec![
            TypeOutlivesRequest {
                ty: 3,
                region: Region::Var(5),
                category: ConstraintCategory::Specific(9),
                preserve_static_identity: true,
                implicit_region_bound: 1,
                span: 5,
            },
            TypeOutlivesRequest {
                ty: 4,
                region: Region::Var(6),
                category: ConstraintCategory::Specific(9),
                preserve_static_identity: false,
                implicit_region_bound: 1,
                span: 5,
            },
        ]
    );
}

#[test]
fn higher_ranked_assumptions_drop_the_clauses_they_imply() {
    let clause = ArgOutlivesClause { arg: GenericArg::Lifetime(Region::Var(5)), region: Region::EarlyParam(1) };
    let constraints = vec![QueryRegionConstraint { outlives: vec![clause], category: ConstraintCategory::Boring }];
    let mut cx = conversion(Locations::All(0), vec![], true);
    let requests = cx.convert_all(&constraints, &vec![clause]);
    assert_eq!(requests, vec![]);
    assert_eq!(cx.constraints.outlives_constraints, vec![]);
    let mut cx = conversion(Locations::All(0), vec![], false);
    cx.convert_all(&constraints, &vec![clause]);
    assert_eq!(cx.constraints.outlives_constraints, vec![edge_in(5, 2, ConstraintCategory::Boring)]);
}

fn edge_in(sup: u32, sub: u32, category: ConstraintCategory) -> OutlivesConstraint {
    OutlivesConstraint { locations: Locations::All(0), category, span: 5, sub, sup, from_closure: false }
}

#[test]
fn a_specific_category_of_the_conversion_wins_over_the_clause() {
    let mut cx = conversion(Locations::All(0), vec![], false);
    cx.category = ConstraintCategory::Specific(1);
    cx.add_outlives(3, 4, ConstraintCategory::Specific(2));
    cx.category = ConstraintCategory::BoringNoLocation;
    cx.add_outlives(3, 4, ConstraintCategory::Specific(2));
    assert_eq!(
        cx.constraints.outlives_constraints,
        vec![edge_in(3, 4, ConstraintCategory::Specific(1)), edge_in(3, 4, ConstraintCategory::Specific(2))]
    );
}

#[test]
fn closure_requirements_apply_in_the_creator() {
    let mut cx = conversion(Locations::All(0), vec![], false);
    let requirements = ClosureRegionRequirements {
        num_external_vids: 3,
        outlives_requirements: vec![
            ClosureOutlivesRequirement {
                subject: ClosureOutlivesSubject::Region(1),
                outlived_free_region: 0,
                blame_span: 77,
                category: ConstraintCategory::Specific(2),
            },
            ClosureOutlivesRequirement {
                subject: ClosureOutlivesSubject::Ty(3),
                outlived_free_region: 2,
                blame_span: 78,
                category: ConstraintCategory::Specific(3),
            },
        ],
    };
    let mapping = vec![Region::EarlyParam(0), Region::Var(6), Region::Placeholder(4)];
    let requests = cx.apply_closure_requirements(&requirements, &mapping);
    assert_eq!(
        cx.constraints.outlives_constraints,
        vec![OutlivesConstraint {
            locations: Locations::All(0),
            category: ConstraintCategory::Specific(2),
            span: 77,
            sub: 1,
            sup: 6,
            from_closure: true,
        }]
    );
    assert_eq!(
        requests,
        vec![TypeOutlivesRequest {
            ty: 3,
            region: Region::Placeholder(4),
            category: ConstraintCategory::Specific(3),
            preserve_static_identity: true,
            implicit_region_bound: 1,
            span: 78,
        }]
    );
    assert_eq!(cx.category, ConstraintCategory::Boring);
    assert_eq!(cx.span, 5);
    assert!(!cx.from_closure);
    assert_eq!(cx.constraints.placeholder_indices, vec![4]);
    assert_eq!(cx.constraints.placeholder_index_to_region, vec![10]);
    assert_eq!(cx.constraints.next_region_var, 11);
}

#[test]
fn a_placeholder_keeps_its_region_variable() {
    let mut cx = conversion(Locations::All(0), vec![], false);
    assert_eq!(cx.to_region_vid(Region::Placeholder(4)), 10);
    assert_eq!(cx.to_region_vid(Region::Placeholder(8)), 11);
    assert_eq!(cx.to_region_vid(Region::Placeholder(4)), 10);
    assert_eq!(cx.to_region_vid(Region::EarlyParam(1)), 2);
    assert_eq!(cx.to_region_vid(Region::Error), 0);
    assert_eq!(cx.to_region_vid(Region::Var(42)), 42);
    assert_eq!(cx.constraints.next_region_var, 12);
}

#[test]
fn type_outlives_callbacks_record_constraints_and_tests() {
    let mut cx = conversion(Locations::All(0), vec![], false);
    cx.push_sub_region_constraint(Region::Var(3), Region::EarlyParam(1), ConstraintCategory::Specific(6));
    assert_eq!(cx.constraints.outlives_constraints, vec![edge_in(2, 3, ConstraintCategory::Specific(6))]);
    cx.push_verify(11, Region::Placeholder(4), 12);
    assert_eq!(cx.constraints.type_tests, vec![TypeTest { generic_kind: 11, lower_bound: 10, span: 5, verify_bound: 12 }]);
}
