use squab::feature::{Feature, Strand};

fn build_feature() -> Feature {
    Feature::new(String::from("sq0"), 8, 13, Strand::Forward)
}

#[test]
fn test_reference_name() {
    let feature = build_feature();
    assert_eq!(feature.reference_name(), "sq0");
}

#[test]
fn test_start() {
    let feature = build_feature();
    assert_eq!(feature.start(), 8);
}

#[test]
fn test_end() {
    let feature = build_feature();
    assert_eq!(feature.end(), 13);
}

#[test]
fn test_strand() {
    let feature = build_feature();
    assert_eq!(feature.strand(), Strand::Forward);
}

#[test]
fn test_len() {
    let feature = build_feature();
    assert_eq!(feature.len(), 6);
}

#[test]
fn test_is_empty() {
    let feature = Feature::new(String::from("sq0"), 1, 1, Strand::Forward);
    assert!(feature.is_empty());

    let feature = build_feature();
    assert!(!feature.is_empty());
}

#[test]
fn test_set_end() {
    let mut feature = build_feature();
    feature.set_end(21);
    assert_eq!(feature.end(), 21);
    assert_eq!(feature.start(), 8);
    assert_eq!(feature.len(), 14);
}
