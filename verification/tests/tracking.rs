use max_detector::MaxDetector;

#[derive(PartialEq, Debug, Clone)]
struct StringStruct {
    value: String,
}

impl PartialOrd for StringStruct {
    fn partial_cmp(&self, other: &Self) -> Option<std::cmp::Ordering> {
        Some(self.value.len().cmp(&other.value.len()))
    }
}

#[test]
fn tracks_max_ascending_list() {
    let array = [0.0, 0.1, 0.2, 0.3, 0.4, 0.5];
    let mut detector = MaxDetector::new(10);
    let detected_maxes = array.map(|it| detector.next(it));
    assert_eq!(detected_maxes, array);
}

#[test]
fn tracks_max_descending_list() {
    let array = [0.5, 0.4, 0.3, 0.2, 0.1];
    let mut detector = MaxDetector::new(10);
    let detected_maxes = array.map(|it| detector.next(it));
    assert_eq!(detected_maxes, [0.5; 5])
}

#[test]
fn max_outside_of_buffer_is_removed() {
    let array = [0.5, 0.4, 0.3, 0.2, 0.1];
    let mut detector = MaxDetector::new(4);
    for value in array {
        detector.next(value);
    }
    let expected = Some(0.4);
    assert_eq!(detector.current(), expected)
}

#[test]
fn detector_handles_array_larger_than_buffer() {
    let array = [0.8, 0.1, 0.3, 0.2, 0.1, 0.6, 0.2];
    let mut detector = MaxDetector::new(4);
    for value in array {
        detector.next(value);
    }
    let expected = Some(0.6);
    assert_eq!(detector.current(), expected)
}

#[test]
fn detector_handles_usize() {
    let array = [2, 5, 1, 0, 2, 3, 1, 0];
    let mut detector = MaxDetector::<usize>::new(4);
    for value in array {
        detector.next(value);
    }
    let expected = Some(3);
    assert_eq!(detector.current(), expected)
}

#[test]
fn detector_handles_negatives() {
    let array = [2, -5, 1, 0, -2, 3, -1, 0];
    let mut detector = MaxDetector::<isize>::new(4);
    for value in array {
        detector.next(value);
    }
    let expected = Some(3);
    assert_eq!(detector.current(), expected)
}

#[test]
fn new_max_is_detected() {
    let array = [0.5, 0.0, 0.1, 0.0, 0.8];
    let mut detector = MaxDetector::new(10);
    for value in array {
        detector.next(value);
    }
    let expected = Some(0.8);
    assert_eq!(detector.current(), expected);
}

#[test]
fn empty_buffer_returns_none() {
    let detector = MaxDetector::<f32>::new(10);
    assert_eq!(detector.current(), None);
}

#[test]
fn detector_handles_custom_type() {
    let values = [
        StringStruct {
            value: "abc".into(),
        },
        StringStruct { value: "a".into() },
        StringStruct { value: "ab".into() },
    ];

    let mut detector = MaxDetector::new(5);
    for value in values {
        detector.next(value);
    }
    let expected = Some(StringStruct {
        value: "abc".into(),
    });
    assert_eq!(detector.current(), expected);
}

#[test]
fn detector_keeps_newest_of_equal_values() {
    let values = [
        StringStruct {
            value: "abc".into(),
        },
        StringStruct { value: "a".into() },
        StringStruct {
            value: "def".into(),
        },
    ];

    let mut detector = MaxDetector::new(5);
    for value in values {
        detector.next(value);
    }
    let expected = Some(StringStruct {
        value: "def".into(),
    });
    assert_eq!(detector.current(), expected);
}
