use hen::errors::{cannot_read, cannot_verb};
use hen::util::{has_unique_elements, HenInfo, WithMeta};

#[test]
fn test_has_unique_elements() {
    assert!(!has_unique_elements(&vec![10, 20, 30, 10, 50]));
    assert!(has_unique_elements(&vec![10, 20, 30, 40, 50]));
    assert!(has_unique_elements(&Vec::<u8>::new()));
    assert!(has_unique_elements(&vec![(1, 2), (1, 3)]));
    assert!(!has_unique_elements(&vec![(1, 2), (1, 2)]));
    assert!(!has_unique_elements(&vec!["a".to_string(), "a".to_string()]));
}

#[test]
fn test_error_messages() {
    assert_eq!(cannot_verb("open", "box"), "Cannot open box");
    assert_eq!(cannot_read("input.egsinp"), "Cannot read input.egsinp");
}

#[test]
fn test_with_meta() {
    let hen = HenInfo::new(
        "0.4.0".to_string(),
        "0f3a".to_string(),
        "2018-05-01".to_string(),
    );
    assert_eq!(hen.api_version, 0);
    let w = WithMeta::new(vec![1u64, 2], hen.clone());
    assert_eq!(w.hen, hen);
    assert_eq!(w.content, vec![1u64, 2]);
}
