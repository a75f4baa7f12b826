use calibration::resolver::resolve;
use calibration::types::{Question, ResolutionValue, Verdict};

fn question_with(resolution: Option<ResolutionValue>) -> Question {
    Question {
        id: String::from("q"),
        created_time: 0,
        close_time: None,
        mechanism: None,
        type_tag: None,
        resolution,
        resolution_time: None,
    }
}

fn text(s: &str) -> Option<ResolutionValue> {
    Some(ResolutionValue::Text(String::from(s)))
}

fn verdict(resolution: Option<ResolutionValue>, answer: Option<&str>) -> Verdict {
    resolve(&question_with(resolution), answer)
}

#[test]
fn no_resolution_is_unresolved() {
    assert_eq!(verdict(None, None), Verdict::Unresolved);
    assert_eq!(verdict(None, Some("abcdefghijkl")), Verdict::Unresolved);
}

#[test]
fn yes_and_no_without_selector() {
    assert_eq!(verdict(text("YES"), None), Verdict::Yes);
    assert_eq!(verdict(text("NO"), None), Verdict::No);
}

#[test]
fn undefined_selector_is_normalized_away() {
    assert_eq!(verdict(text("YES"), Some("undefined")), Verdict::Yes);
    assert_eq!(verdict(text("NO"), Some("undefined")), Verdict::No);
}

#[test]
fn cancel_is_voided_with_or_without_selector() {
    assert_eq!(verdict(text("CANCEL"), None), Verdict::Voided);
    assert_eq!(verdict(text("CANCEL"), Some("abcdefghijkl")), Verdict::Voided);
}

#[test]
fn choose_multiple_with_selector_is_voided() {
    assert_eq!(verdict(text("CHOOSE_MULTIPLE"), Some("abcdefghijkl")), Verdict::Voided);
}

#[test]
fn choose_multiple_without_selector_is_invalid() {
    assert_eq!(verdict(text("CHOOSE_MULTIPLE"), None), Verdict::Invalid);
}

#[test]
fn mkt_without_selector_is_voided() {
    assert_eq!(verdict(text("MKT"), None), Verdict::Voided);
}

#[test]
fn mkt_with_selector_is_invalid() {
    assert_eq!(verdict(text("MKT"), Some("abcdefghijkl")), Verdict::Invalid);
}

#[test]
fn answer_id_resolution_checks_the_selector() {
    assert_eq!(verdict(text("abcdefghijkl"), Some("abcdefghijkl")), Verdict::Yes);
    assert_eq!(verdict(text("abcdefghijkl"), Some("mnopqrstuvwx")), Verdict::No);
}

#[test]
fn answer_id_resolution_without_selector_is_invalid() {
    assert_eq!(verdict(text("abcdefghijkl"), None), Verdict::Invalid);
}

#[test]
fn yes_with_selector_is_invalid() {
    assert_eq!(verdict(text("YES"), Some("abcdefghijkl")), Verdict::Invalid);
}

#[test]
fn short_opaque_resolution_with_selector_is_invalid() {
    assert_eq!(verdict(text("abcde"), Some("abcdefghijkl")), Verdict::Invalid);
}

#[test]
fn numeric_resolutions() {
    assert_eq!(verdict(Some(ResolutionValue::Numeric(0)), None), Verdict::No);
    assert_eq!(verdict(Some(ResolutionValue::Numeric(1)), None), Verdict::Yes);
    assert_eq!(verdict(Some(ResolutionValue::Numeric(2)), None), Verdict::Invalid);
    assert_eq!(verdict(Some(ResolutionValue::Numeric(-1)), None), Verdict::Invalid);
    assert_eq!(verdict(Some(ResolutionValue::Numeric(1)), Some("abcdefghijkl")), Verdict::Invalid);
}

#[test]
fn non_integer_and_other_shapes_are_invalid() {
    assert_eq!(verdict(Some(ResolutionValue::NonIntegerNumeric), None), Verdict::Invalid);
    assert_eq!(verdict(Some(ResolutionValue::OtherShape), None), Verdict::Invalid);
}

#[test]
fn table_is_exhaustive_over_representative_product() {
    let resolutions: Vec<Option<ResolutionValue>> = vec![
        None,
        text("YES"),
        text("NO"),
        text("CANCEL"),
        text("CHOOSE_MULTIPLE"),
        text("MKT"),
        text("abcdefghijkl"),
        text("abcde"),
        Some(ResolutionValue::Numeric(0)),
        Some(ResolutionValue::Numeric(1)),
        Some(ResolutionValue::Numeric(7)),
        Some(ResolutionValue::NonIntegerNumeric),
        Some(ResolutionValue::OtherShape),
    ];
    let answers: Vec<Option<&str>> = vec![None, Some("undefined"), Some("abcdefghijkl"), Some("zz")];
    for r in &resolutions {
        for a in &answers {
            let cloned = match r {
                None => None,
                Some(ResolutionValue::Text(s)) => Some(ResolutionValue::Text(s.clone())),
                Some(ResolutionValue::Numeric(n)) => Some(ResolutionValue::Numeric(*n)),
                Some(ResolutionValue::NonIntegerNumeric) => {
                    Some(ResolutionValue::NonIntegerNumeric)
                }
                Some(ResolutionValue::OtherShape) => Some(ResolutionValue::OtherShape),
            };
            let v = verdict(cloned, *a);
            assert!(matches!(
                v,
                Verdict::Yes | Verdict::No | Verdict::Unresolved | Verdict::Voided
                    | Verdict::Invalid
            ));
        }
    }
}
