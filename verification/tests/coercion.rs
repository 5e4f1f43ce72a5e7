use nx::error::{NXError, NXScalarKind};
use nx::nx_node::{NXAudioData, NXBitmapData, NXNodeData, NXNodeType, NXVectorData};

#[test]
fn int64_renders_in_decimal() {
    assert_eq!(NXNodeData::Int64(5).as_text().unwrap(), "5");
    assert_eq!(NXNodeData::Int64(0).as_text().unwrap(), "0");
    assert_eq!(NXNodeData::Int64(-42).as_text().unwrap(), "-42");
    assert_eq!(
        NXNodeData::Int64(i64::MIN).as_text().unwrap(),
        "-9223372036854775808"
    );
    assert_eq!(
        NXNodeData::Int64(i64::MAX).as_text().unwrap(),
        "9223372036854775807"
    );
}

#[test]
fn text_passes_through_and_parses() {
    assert_eq!(NXNodeData::Text("hi".to_string()).as_text().unwrap(), "hi");
    assert_eq!(NXNodeData::Text("123".to_string()).as_int64().unwrap(), 123);
    assert_eq!(NXNodeData::Text("+7".to_string()).as_int64().unwrap(), 7);
    assert_eq!(NXNodeData::Text("-15".to_string()).as_int64().unwrap(), -15);
    assert_eq!(NXNodeData::Text("007".to_string()).as_int64().unwrap(), 7);
    assert_eq!(
        NXNodeData::Text("-9223372036854775808".to_string())
            .as_int64()
            .unwrap(),
        i64::MIN
    );
    assert_eq!(
        NXNodeData::Text("9223372036854775807".to_string())
            .as_int64()
            .unwrap(),
        i64::MAX
    );
    // malformed or out-of-range text is a ParseError
    assert_eq!(
        NXNodeData::Text("12x".to_string()).as_int64().unwrap_err(),
        NXError::ParseError
    );
    assert_eq!(
        NXNodeData::Text("".to_string()).as_int64().unwrap_err(),
        NXError::ParseError
    );
    assert_eq!(
        NXNodeData::Text("-".to_string()).as_int64().unwrap_err(),
        NXError::ParseError
    );
    assert_eq!(
        NXNodeData::Text("9223372036854775808".to_string())
            .as_int64()
            .unwrap_err(),
        NXError::ParseError
    );
    assert_eq!(
        NXNodeData::Text("-9223372036854775809".to_string())
            .as_int64()
            .unwrap_err(),
        NXError::ParseError
    );
}

#[test]
fn boolean_view() {
    // numeric text is true exactly when nonzero
    assert!(NXNodeData::Text("1".to_string()).as_bool().unwrap());
    assert!(NXNodeData::Text("3.5".to_string()).as_bool().unwrap());
    assert!(NXNodeData::Text("-0.5e3".to_string()).as_bool().unwrap());
    assert!(!NXNodeData::Text("0".to_string()).as_bool().unwrap());
    assert!(!NXNodeData::Text("0.00".to_string()).as_bool().unwrap());
    assert!(!NXNodeData::Text("-0".to_string()).as_bool().unwrap());
    assert!(!NXNodeData::Text("0e5".to_string()).as_bool().unwrap());
    assert!(NXNodeData::Text("inf".to_string()).as_bool().unwrap());
    assert!(NXNodeData::Text("NaN".to_string()).as_bool().unwrap());
    // non-numeric text is true only for the literal token "true"
    assert!(NXNodeData::Text("true".to_string()).as_bool().unwrap());
    assert!(!NXNodeData::Text("True".to_string()).as_bool().unwrap());
    assert!(!NXNodeData::Text("false".to_string()).as_bool().unwrap());
    assert!(!NXNodeData::Text("yes".to_string()).as_bool().unwrap());
    assert!(!NXNodeData::Text("1.2.3".to_string()).as_bool().unwrap());
    // integers are true exactly when nonzero
    assert!(NXNodeData::Int64(5).as_bool().unwrap());
    assert!(NXNodeData::Int64(-1).as_bool().unwrap());
    assert!(!NXNodeData::Int64(0).as_bool().unwrap());
    // doubles are true for every bit pattern but positive and negative zero
    assert!(!NXNodeData::Double(0.0f64.to_bits()).as_bool().unwrap());
    assert!(!NXNodeData::Double((-0.0f64).to_bits()).as_bool().unwrap());
    assert!(NXNodeData::Double(2.5f64.to_bits()).as_bool().unwrap());
    assert!(NXNodeData::Double(f64::NAN.to_bits()).as_bool().unwrap());
    assert!(NXNodeData::Double(f64::INFINITY.to_bits()).as_bool().unwrap());
}

#[test]
fn double_bits_pass_through() {
    let bits = 3.5f64.to_bits();
    assert_eq!(NXNodeData::Double(bits).as_double_bits().unwrap(), bits);
    assert_eq!(f64::from_bits(bits), 3.5);
}

#[test]
fn incompatible_variants_mismatch() {
    let vector = NXNodeData::Vector(NXVectorData { x: 1, y: 2 });
    assert_eq!(
        vector.as_int64().unwrap_err(),
        NXError::TypeMismatch {
            requested: NXScalarKind::Int64,
            actual: NXNodeType::Vector,
        }
    );
    assert_eq!(
        vector.as_text().unwrap_err(),
        NXError::TypeMismatch {
            requested: NXScalarKind::Text,
            actual: NXNodeType::Vector,
        }
    );
    let bitmap = NXNodeData::Bitmap(NXBitmapData { id: 1, width: 2, height: 3 });
    assert_eq!(
        bitmap.as_bool().unwrap_err(),
        NXError::TypeMismatch {
            requested: NXScalarKind::Bool,
            actual: NXNodeType::Bitmap,
        }
    );
    let audio = NXNodeData::Audio(NXAudioData { id: 1, length: 2 });
    assert_eq!(
        audio.as_double_bits().unwrap_err(),
        NXError::TypeMismatch {
            requested: NXScalarKind::Double,
            actual: NXNodeType::Audio,
        }
    );
    assert_eq!(
        NXNodeData::Empty.as_text().unwrap_err(),
        NXError::TypeMismatch {
            requested: NXScalarKind::Text,
            actual: NXNodeType::Empty,
        }
    );
}

#[test]
fn type_tags_decode() {
    assert_eq!(NXNodeType::from_tag(0), NXNodeType::Empty);
    assert_eq!(NXNodeType::from_tag(1), NXNodeType::Int64);
    assert_eq!(NXNodeType::from_tag(2), NXNodeType::Double);
    assert_eq!(NXNodeType::from_tag(3), NXNodeType::Text);
    assert_eq!(NXNodeType::from_tag(4), NXNodeType::Vector);
    assert_eq!(NXNodeType::from_tag(5), NXNodeType::Bitmap);
    assert_eq!(NXNodeType::from_tag(6), NXNodeType::Audio);
    assert_eq!(NXNodeType::from_tag(7), NXNodeType::Empty);
    assert_eq!(NXNodeType::from_tag(60000), NXNodeType::Empty);
}
