use mobius::loader::{
    ground_truth_records, prediction_records, read_ground_truth, read_prediction, Document, FieldValue, LoadError,
    RecordsAt,
};

fn field_value(v: &serde_json::Value) -> FieldValue {
    match v {
        serde_json::Value::Number(n) => n.as_f64().map(|x| FieldValue::Number(x.to_bits())).unwrap_or(FieldValue::Other),
        serde_json::Value::String(s) => FieldValue::Text(s.clone()),
        serde_json::Value::Array(items) => FieldValue::Array(items.iter().map(|e| e.as_str().map(String::from)).collect()),
        _ => FieldValue::Other,
    }
}

fn fields_of(v: &serde_json::Value) -> Vec<(String, FieldValue)> {
    v.as_object().unwrap().iter().map(|(k, v)| (k.clone(), field_value(v))).collect()
}

fn document_of(value: &serde_json::Value) -> Document {
    match value {
        serde_json::Value::Array(_) => Document::Array,
        serde_json::Value::Object(_) => Document::Object(fields_of(value)),
        _ => Document::Other,
    }
}

/// The records of a document as the library locates them.
fn records(value: &serde_json::Value, at: RecordsAt) -> Vec<serde_json::Value> {
    match at {
        RecordsAt::Whole => value.as_array().unwrap().clone(),
        RecordsAt::Field(i) => value.as_object().unwrap().values().nth(i).unwrap().as_array().unwrap().clone(),
    }
}

fn time(bits: Option<u64>) -> f64 {
    f64::from_bits(bits.unwrap())
}

#[test]
fn test_load_predictions_bare_array() {
    let value: serde_json::Value =
        serde_json::from_str(r#"[{"timestamp": 10.5, "result": "make"}, {"timestamp": 20.0, "result": "miss"}]"#).unwrap();
    let at = prediction_records(&document_of(&value)).unwrap();
    assert_eq!(at, RecordsAt::Whole);
    let preds: Vec<_> = records(&value, at).iter().map(|r| read_prediction(&fields_of(r))).collect();
    assert_eq!(preds.len(), 2);
    assert_eq!(preds[0].label.as_deref(), Some("make"));
    assert!((time(preds[0].timestamp) - 10.5).abs() < 0.01);
}

#[test]
fn test_load_predictions_wrapped() {
    let value: serde_json::Value = serde_json::from_str(r#"{"shots": [{"time_sec": 5.0, "label": "make"}]}"#).unwrap();
    let at = prediction_records(&document_of(&value)).unwrap();
    let preds: Vec<_> = records(&value, at).iter().map(|r| read_prediction(&fields_of(r))).collect();
    assert_eq!(preds.len(), 1);
    assert!((time(preds[0].timestamp) - 5.0).abs() < 0.01);
}

#[test]
fn test_load_ground_truth() {
    let value: serde_json::Value = serde_json::from_str(
        r#"[{"time_sec": 10.0, "result": "MAKE", "shot_type": "2pt", "edge_case_tags": ["free_throw"]}]"#,
    )
    .unwrap();
    let at = ground_truth_records(&document_of(&value)).unwrap();
    let items = records(&value, at);
    let fields = fields_of(&items[0]);
    let gt = read_ground_truth(&fields, 0);
    assert_eq!(items.len(), 1);
    assert_eq!(gt.label, "MAKE");
    assert_eq!(gt.tags, vec!["free_throw"]);
    assert!(gt.attributes.iter().any(|&i| fields[i].0 == "shot_type"));
}

#[test]
fn aliases_follow_their_precedence() {
    let value: serde_json::Value =
        serde_json::from_str(r#"{"time": 3.0, "time_sec": 2.0, "shot_result": "miss", "label": "make", "confidence": 0.75}"#)
            .unwrap();
    let p = read_prediction(&fields_of(&value));
    assert_eq!(time(p.timestamp), 2.0);
    assert_eq!(p.label.as_deref(), Some("make"));
    assert_eq!(p.confidence.map(f64::from_bits), Some(0.75));
    assert_eq!(p.source, None);
    assert!(p.attributes.is_empty());
}

#[test]
fn a_present_alias_of_the_wrong_kind_gives_nothing() {
    // `timestamp` is present but not a number: the later aliases are not consulted.
    let value: serde_json::Value = serde_json::from_str(r#"{"timestamp": "soon", "time": 4.0}"#).unwrap();
    let p = read_prediction(&fields_of(&value));
    assert_eq!(p.timestamp, None);
}

#[test]
fn ground_truth_defaults() {
    let value: serde_json::Value = serde_json::from_str(r#"{"id": 7, "tags": ["a", 1, "b"], "team": "home"}"#).unwrap();
    let fields = fields_of(&value);
    let gt = read_ground_truth(&fields, 12);
    assert_eq!(gt.id, "gt-12");
    assert_eq!(gt.label, "unknown");
    assert_eq!(gt.timestamp, None);
    assert_eq!(gt.tags, vec!["a", "b"]);
    assert_eq!(gt.attributes.len(), 1);
    assert_eq!(fields[gt.attributes[0]].0, "team");
    let named: serde_json::Value = serde_json::from_str(r#"{"id": "shot-3"}"#).unwrap();
    assert_eq!(read_ground_truth(&fields_of(&named), 0).id, "shot-3");
}

#[test]
fn attributes_keep_their_fixed_order() {
    let value: serde_json::Value =
        serde_json::from_str(r#"{"team": "a", "jersey": 5, "shot_type": "3pt", "other": 1}"#).unwrap();
    let fields = fields_of(&value);
    let p = read_prediction(&fields);
    let names: Vec<&str> = p.attributes.iter().map(|&i| fields[i].0.as_str()).collect();
    assert_eq!(names, vec!["shot_type", "jersey", "team"]);
}

#[test]
fn prediction_wrappers_in_order_and_errors() {
    let value: serde_json::Value =
        serde_json::from_str(r#"{"detections": [{"time": 1.0}], "predictions": [], "shots": 3}"#).unwrap();
    let at = prediction_records(&document_of(&value)).unwrap();
    // `shots` is not an array, `confirmed` is absent: `predictions` is the first array.
    match at {
        RecordsAt::Field(i) => assert_eq!(value.as_object().unwrap().keys().nth(i).unwrap(), "predictions"),
        RecordsAt::Whole => panic!("expected a field"),
    }
    let none: serde_json::Value = serde_json::from_str(r#"{"items": []}"#).unwrap();
    let err = prediction_records(&document_of(&none)).unwrap_err();
    assert_eq!(err, LoadError::NoPredictionArray);
    assert_eq!(err.message(), "No recognized prediction array in JSON");
    let scalar: serde_json::Value = serde_json::from_str("42").unwrap();
    let err = prediction_records(&document_of(&scalar)).unwrap_err();
    assert_eq!(err, LoadError::NotArrayOrObject);
    assert_eq!(err.message(), "Expected JSON array or object");
}

#[test]
fn ground_truth_needs_a_shots_array() {
    let wrapped: serde_json::Value = serde_json::from_str(r#"{"meta": 1, "shots": [{"label": "make"}]}"#).unwrap();
    let at = ground_truth_records(&document_of(&wrapped)).unwrap();
    assert_eq!(records(&wrapped, at).len(), 1);
    let other: serde_json::Value = serde_json::from_str(r#"{"predictions": []}"#).unwrap();
    let err = ground_truth_records(&document_of(&other)).unwrap_err();
    assert_eq!(err, LoadError::NoShotsArray);
    assert_eq!(err.message(), "No 'shots' array in ground truth JSON");
}
