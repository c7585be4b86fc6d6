use avocado_mst::corr_matrix::{Corr, CorrMatrix, SCALE};
use avocado_mst::errors::MstError;

fn s(x: &str) -> String {
    x.to_string()
}

/// A defined coefficient from a real-valued correlation.
fn d(frac: f64) -> Corr {
    Corr::Defined((frac * SCALE as f64).round() as i64)
}

#[test]
fn test_corr_small() {
    let regions = vec![s("Boston"), s("New York")];
    let values = vec![d(1.0), d(0.5), d(0.5), d(1.0)];
    let corr_matrix = CorrMatrix::new(regions, values).unwrap();

    assert_eq!(corr_matrix.get(&s("Boston"), &s("Boston")).unwrap(), d(1.0));
    assert_eq!(corr_matrix.get(&s("Boston"), &s("New York")).unwrap(), d(0.5));
    assert_eq!(corr_matrix.get(&s("New York"), &s("Boston")).unwrap(), d(0.5));
    assert_eq!(corr_matrix.get(&s("New York"), &s("New York")).unwrap(), d(1.0));
}

#[test]
fn test_corr_big() {
    let regions = vec![s("Boston"), s("Chicago"), s("New York"), s("San Francisco")];
    let values = vec![
        d(1.0),
        d(0.67),
        d(0.33),
        d(0.0),
        d(0.67),
        d(1.0),
        d(0.0),
        d(0.0),
        d(0.33),
        d(0.0),
        d(1.0),
        d(0.0),
        d(0.0),
        d(0.0),
        d(0.0),
        d(1.0),
    ];
    let corr_matrix = CorrMatrix::new(regions, values).unwrap();

    assert_eq!(corr_matrix.get(&s("Boston"), &s("Boston")).unwrap(), d(1.0));
    assert_eq!(corr_matrix.get(&s("Boston"), &s("Chicago")).unwrap(), d(0.67));
    assert_eq!(corr_matrix.get(&s("Boston"), &s("New York")).unwrap(), d(0.33));
    assert_eq!(
        corr_matrix.get(&s("Boston"), &s("San Francisco")).unwrap(),
        d(0.0)
    );
}

#[test]
fn lookup_is_symmetric() {
    let regions = vec![s("Boston"), s("Chicago"), s("New York")];
    let values = vec![
        d(1.0),
        d(0.67),
        d(0.33),
        d(0.67),
        d(1.0),
        d(-0.25),
        d(0.33),
        d(-0.25),
        d(1.0),
    ];
    let m = CorrMatrix::new(regions, values).unwrap();
    for a in ["Boston", "Chicago", "New York"] {
        for b in ["Boston", "Chicago", "New York"] {
            assert_eq!(m.get(&s(a), &s(b)), m.get(&s(b), &s(a)));
        }
    }
}

#[test]
fn defined_self_correlation_is_one() {
    let regions = vec![s("Boston"), s("Chicago")];
    let values = vec![d(1.0), d(0.5), d(0.5), d(1.0)];
    let m = CorrMatrix::new(regions, values).unwrap();
    assert_eq!(m.get(&s("Boston"), &s("Boston")).unwrap(), Corr::Defined(SCALE));
    assert_eq!(m.get(&s("Chicago"), &s("Chicago")).unwrap(), Corr::Defined(SCALE));
}

#[test]
fn unknown_region_gives_lookup_error_and_leaves_matrix_usable() {
    let regions = vec![s("Boston"), s("New York")];
    let values = vec![d(1.0), d(0.5), d(0.5), d(1.0)];
    let m = CorrMatrix::new(regions, values).unwrap();

    assert_eq!(m.get(&s("Chicago"), &s("Boston")), Err(MstError::Lookup));
    assert_eq!(m.get(&s("Boston"), &s("Chicago")), Err(MstError::Lookup));
    assert_eq!(m.get(&s("Chicago"), &s("Denver")), Err(MstError::Lookup));

    // The matrix is unchanged: the same lookups still succeed afterwards.
    assert_eq!(m.get(&s("Boston"), &s("New York")).unwrap(), d(0.5));
    assert_eq!(m.get(&s("New York"), &s("New York")).unwrap(), d(1.0));
}

#[test]
fn duplicate_regions_are_malformed() {
    let regions = vec![s("Boston"), s("Boston")];
    let values = vec![d(1.0), d(0.5), d(0.5), d(1.0)];
    assert!(matches!(
        CorrMatrix::new(regions, values),
        Err(MstError::MalformedInput)
    ));
}

#[test]
fn wrong_shape_is_malformed() {
    let regions = vec![s("Boston"), s("New York")];
    let values = vec![d(1.0), d(0.5), d(0.5)];
    assert!(matches!(
        CorrMatrix::new(regions, values),
        Err(MstError::MalformedInput)
    ));
}

#[test]
fn asymmetric_table_is_malformed() {
    let regions = vec![s("Boston"), s("New York")];
    let values = vec![d(1.0), d(0.5), d(0.4), d(1.0)];
    assert!(matches!(
        CorrMatrix::new(regions, values),
        Err(MstError::MalformedInput)
    ));
}

#[test]
fn defined_diagonal_other_than_one_is_malformed() {
    let regions = vec![s("Boston"), s("New York")];
    let values = vec![d(0.9), d(0.5), d(0.5), d(1.0)];
    assert!(matches!(
        CorrMatrix::new(regions, values),
        Err(MstError::MalformedInput)
    ));
}

#[test]
fn out_of_range_coefficient_is_malformed() {
    let regions = vec![s("Boston"), s("New York")];
    let values = vec![d(1.0), d(1.5), d(1.5), d(1.0)];
    assert!(matches!(
        CorrMatrix::new(regions, values),
        Err(MstError::MalformedInput)
    ));
}

#[test]
fn undefined_diagonal_is_accepted() {
    // A zero-variance region has an undefined self-correlation; the matrix
    // stores that as-is instead of substituting a default.
    let regions = vec![s("Boston"), s("Flatland")];
    let values = vec![d(1.0), Corr::Undefined, Corr::Undefined, Corr::Undefined];
    let m = CorrMatrix::new(regions, values).unwrap();
    assert_eq!(
        m.get(&s("Flatland"), &s("Flatland")).unwrap(),
        Corr::Undefined
    );
}

#[test]
fn empty_matrix_is_well_formed() {
    let m = CorrMatrix::new(Vec::new(), Vec::new()).unwrap();
    assert_eq!(m.get(&s("Boston"), &s("Boston")), Err(MstError::Lookup));
}

#[test]
fn error_labels() {
    assert_eq!(MstError::Lookup.label(), "unknown region");
    assert_eq!(MstError::MalformedInput.label(), "malformed input");
    assert_eq!(
        MstError::Disconnected { unreached: 2 }.label(),
        "graph is disconnected"
    );
}
