//! Prediction and ground-truth documents: which array of a JSON document
//! holds the records, and which fields of a record give its time, label,
//! identifier, tags and attributes (with the field-name aliases that the
//! supported formats use).

use vstd::prelude::*;
use crate::compute::text_opt;
use crate::text::{decimal, decimal_chars, extend_chars, extend_str, string_of};

verus! {

/// A JSON value as the record readers see it.
pub enum FieldValue {
    /// A number, held as the bits of its `f64` value.
    Number(u64),
    /// A string.
    Text(String),
    /// An array; each element is held as its text when it is a string.
    Array(Vec<Option<String>>),
    /// Anything else: an object, a boolean or null.
    Other,
}

/// The top level of a JSON document.
pub enum Document {
    /// An array (of records).
    Array,
    /// An object, by its fields in order.
    Object(Vec<(String, FieldValue)>),
    /// Any other value.
    Other,
}

/// Where the records of a document are.
#[derive(Debug, PartialEq, Eq)]
pub enum RecordsAt {
    /// The document itself is the array of records.
    Whole,
    /// The array held by the document's field at this position.
    Field(usize),
}

/// Why a document holds no records.
#[derive(Debug, PartialEq, Eq)]
pub enum LoadError {
    /// An object without any of the prediction array fields.
    NoPredictionArray,
    /// An object without a `shots` array.
    NoShotsArray,
    /// Neither an array nor an object.
    NotArrayOrObject,
}

/// The sentence that describes a load error.
pub open spec fn load_error_text(e: LoadError) -> Seq<char> {
    match e {
        LoadError::NoPredictionArray => "No recognized prediction array in JSON"@,
        LoadError::NoShotsArray => "No 'shots' array in ground truth JSON"@,
        LoadError::NotArrayOrObject => "Expected JSON array or object"@,
    }
}

impl LoadError {
    /// The sentence that describes the error.
    pub fn message(&self) -> (r: String)
        ensures
            r@ == load_error_text(*self),
    {
        let mut out: Vec<char> = Vec::new();
        match self {
            LoadError::NoPredictionArray => extend_str(&mut out, "No recognized prediction array in JSON"),
            LoadError::NoShotsArray => extend_str(&mut out, "No 'shots' array in ground truth JSON"),
            LoadError::NotArrayOrObject => extend_str(&mut out, "Expected JSON array or object"),
        }
        string_of(&out)
    }
}

// ---------------------------------------------------------------------------
// Fields by name
// ---------------------------------------------------------------------------

/// Field `i` is the first one named `name`.
pub open spec fn first_named(fields: Seq<(String, FieldValue)>, name: Seq<char>, i: int) -> bool {
    &&& 0 <= i < fields.len()
    &&& fields[i].0@ == name
    &&& forall|j: int| 0 <= j < i ==> (#[trigger] fields[j]).0@ != name
}

/// The position of the first field named `name`, if any.
pub open spec fn position_of(fields: Seq<(String, FieldValue)>, name: Seq<char>) -> Option<int> {
    if exists|i: int| first_named(fields, name, i) {
        Some(choose|i: int| first_named(fields, name, i))
    } else {
        None
    }
}

/// At most one field is the first one with a name.
proof fn lemma_first_named_unique(fields: Seq<(String, FieldValue)>, name: Seq<char>, a: int, b: int)
    requires
        first_named(fields, name, a),
        first_named(fields, name, b),
    ensures
        a == b,
{
    if a < b {
        assert(fields[a].0@ != name);
    } else if b < a {
        assert(fields[b].0@ != name);
    }
}

/// Finds the first field named `name`.
fn find_field(fields: &[(String, FieldValue)], name: &str) -> (r: Option<usize>)
    ensures
        match r {
            Some(i) => position_of(fields@, name@) == Some(i as int),
            None => position_of(fields@, name@) is None,
        },
{
    let key = name.to_owned();
    let mut i: usize = 0;
    while i < fields.len()
        invariant
            i <= fields.len(),
            key@ == name@,
            forall|j: int| 0 <= j < i ==> (#[trigger] fields@[j]).0@ != name@,
        decreases fields.len() - i,
    {
        if fields[i].0 == key {
            assert(first_named(fields@, name@, i as int));
            proof {
                let c = choose|k: int| first_named(fields@, name@, k);
                lemma_first_named_unique(fields@, name@, c, i as int);
            }
            return Some(i);
        }
        i += 1;
    }
    assert(!exists|k: int| first_named(fields@, name@, k)) by {
        if exists|k: int| first_named(fields@, name@, k) {
            let k = choose|k: int| first_named(fields@, name@, k);
            assert(fields@[k].0@ != name@);
        }
    }
    None
}

/// The first of two lookups that found a field.
pub open spec fn either(a: Option<int>, b: Option<int>) -> Option<int> {
    match a {
        Some(i) => Some(i),
        None => b,
    }
}

/// The number held by the field at `at`, if it holds one.
pub open spec fn number_in(fields: Seq<(String, FieldValue)>, at: Option<int>) -> Option<u64> {
    match at {
        Some(i) => match fields[i].1 {
            FieldValue::Number(b) => Some(b),
            _ => None,
        },
        None => None,
    }
}

/// The text held by the field at `at`, if it holds a string.
pub open spec fn text_in(fields: Seq<(String, FieldValue)>, at: Option<int>) -> Option<Seq<char>> {
    match at {
        Some(i) => match fields[i].1 {
            FieldValue::Text(s) => Some(s@),
            _ => None,
        },
        None => None,
    }
}

/// The strings among the elements of an array, in order.
pub open spec fn strings_of(items: Seq<Option<String>>) -> Seq<Seq<char>>
    decreases items.len(),
{
    if items.len() == 0 {
        Seq::empty()
    } else {
        let rest = strings_of(items.drop_last());
        match items.last() {
            Some(s) => rest.push(s@),
            None => rest,
        }
    }
}

/// The strings of the array held by the field at `at` (none when it holds no array).
pub open spec fn strings_in(fields: Seq<(String, FieldValue)>, at: Option<int>) -> Seq<Seq<char>> {
    match at {
        Some(i) => match fields[i].1 {
            FieldValue::Array(items) => strings_of(items@),
            _ => Seq::empty(),
        },
        None => Seq::empty(),
    }
}

/// The field holding a record's time: `timestamp`, else `time_sec`, else `time`.
pub open spec fn time_field(fields: Seq<(String, FieldValue)>) -> Option<int> {
    either(
        position_of(fields, "timestamp"@),
        either(position_of(fields, "time_sec"@), position_of(fields, "time"@)),
    )
}

/// The field holding a record's label: `label`, else `result`, else `shot_result`.
pub open spec fn label_field(fields: Seq<(String, FieldValue)>) -> Option<int> {
    either(
        position_of(fields, "label"@),
        either(position_of(fields, "result"@), position_of(fields, "shot_result"@)),
    )
}

/// The field holding a ground-truth record's tags: `edge_case_tags`, else `tags`.
pub open spec fn tags_field(fields: Seq<(String, FieldValue)>) -> Option<int> {
    either(position_of(fields, "edge_case_tags"@), position_of(fields, "tags"@))
}

/// A found position as a sequence of at most one element.
pub open spec fn found(at: Option<int>) -> Seq<int> {
    match at {
        Some(i) => seq![i],
        None => Seq::empty(),
    }
}

/// The positions of the attribute fields a record has, in the order
/// `shot_type`, `shooter_jersey`, `shooter_team`, `jersey`, `team`.
pub open spec fn attribute_positions(fields: Seq<(String, FieldValue)>) -> Seq<int> {
    found(position_of(fields, "shot_type"@)) + found(position_of(fields, "shooter_jersey"@))
        + found(position_of(fields, "shooter_team"@)) + found(position_of(fields, "jersey"@))
        + found(position_of(fields, "team"@))
}

/// Positions as integers.
pub open spec fn positions(v: Seq<usize>) -> Seq<int> {
    v.map_values(|i: usize| i as int)
}

fn number_at(fields: &[(String, FieldValue)], at: Option<usize>) -> (r: Option<u64>)
    requires
        match at {
            Some(i) => i < fields.len(),
            None => true,
        },
    ensures
        r == number_in(
            fields@,
            match at {
                Some(i) => Some(i as int),
                None => None,
            },
        ),
{
    match at {
        Some(i) => match &fields[i].1 {
            FieldValue::Number(b) => Some(*b),
            _ => None,
        },
        None => None,
    }
}

fn text_at(fields: &[(String, FieldValue)], at: Option<usize>) -> (r: Option<String>)
    requires
        match at {
            Some(i) => i < fields.len(),
            None => true,
        },
    ensures
        text_opt(r) == text_in(
            fields@,
            match at {
                Some(i) => Some(i as int),
                None => None,
            },
        ),
{
    match at {
        Some(i) => match &fields[i].1 {
            FieldValue::Text(s) => Some(s.clone()),
            _ => None,
        },
        None => None,
    }
}

fn strings_at(fields: &[(String, FieldValue)], at: Option<usize>) -> (r: Vec<String>)
    requires
        match at {
            Some(i) => i < fields.len(),
            None => true,
        },
    ensures
        r@.map_values(|s: String| s@) == strings_in(
            fields@,
            match at {
                Some(i) => Some(i as int),
                None => None,
            },
        ),
{
    let mut out: Vec<String> = Vec::new();
    match at {
        Some(p) => match &fields[p].1 {
            FieldValue::Array(items) => {
                let mut i: usize = 0;
                while i < items.len()
                    invariant
                        i <= items.len(),
                        out@.map_values(|s: String| s@) == strings_of(items@.take(i as int)),
                    decreases items.len() - i,
                {
                    assert(items@.take(i + 1).drop_last() =~= items@.take(i as int));
                    match &items[i] {
                        Some(s) => {
                            out.push(s.clone());
                        },
                        None => {},
                    }
                    assert(out@.map_values(|s: String| s@) =~= strings_of(items@.take(i + 1)));
                    i += 1;
                }
                assert(items@.take(items.len() as int) =~= items@);
            },
            _ => {
                assert(out@.map_values(|s: String| s@) =~= Seq::<Seq<char>>::empty());
            },
        },
        None => {
            assert(out@.map_values(|s: String| s@) =~= Seq::<Seq<char>>::empty());
        },
    }
    out
}

/// The first of two lookups that found a field (`either`).
fn or_else(a: Option<usize>, b: Option<usize>) -> (r: Option<usize>)
    ensures
        r == match a {
            Some(i) => Some(i),
            None => b,
        },
{
    match a {
        Some(i) => Some(i),
        None => b,
    }
}

/// The view of a found position.
pub open spec fn at_int(at: Option<usize>) -> Option<int> {
    match at {
        Some(i) => Some(i as int),
        None => None,
    }
}

fn push_found(out: &mut Vec<usize>, at: Option<usize>)
    ensures
        positions(final(out)@) == positions(old(out)@) + found(at_int(at)),
{
    match at {
        Some(i) => {
            out.push(i);
            assert(positions(out@) =~= positions(old(out)@) + seq![i as int]);
        },
        None => {
            assert(positions(out@) =~= positions(old(out)@) + Seq::<int>::empty());
        },
    }
}

fn attributes_of(fields: &[(String, FieldValue)]) -> (r: Vec<usize>)
    ensures
        positions(r@) == attribute_positions(fields@),
{
    let mut out: Vec<usize> = Vec::new();
    assert(positions(out@) =~= Seq::<int>::empty());
    push_found(&mut out, find_field(fields, "shot_type"));
    push_found(&mut out, find_field(fields, "shooter_jersey"));
    push_found(&mut out, find_field(fields, "shooter_team"));
    push_found(&mut out, find_field(fields, "jersey"));
    push_found(&mut out, find_field(fields, "team"));
    assert(positions(out@) =~= attribute_positions(fields@));
    out
}

fn time_position(fields: &[(String, FieldValue)]) -> (r: Option<usize>)
    ensures
        at_int(r) == time_field(fields@),
        match r {
            Some(i) => i < fields.len(),
            None => true,
        },
{
    or_else(find_field(fields, "timestamp"), or_else(find_field(fields, "time_sec"), find_field(fields, "time")))
}

fn label_position(fields: &[(String, FieldValue)]) -> (r: Option<usize>)
    ensures
        at_int(r) == label_field(fields@),
        match r {
            Some(i) => i < fields.len(),
            None => true,
        },
{
    or_else(find_field(fields, "label"), or_else(find_field(fields, "result"), find_field(fields, "shot_result")))
}

/// A position that `position_of` found is a field's.
proof fn lemma_position_in_range(fields: Seq<(String, FieldValue)>, name: Seq<char>)
    ensures
        match position_of(fields, name) {
            Some(i) => 0 <= i < fields.len(),
            None => true,
        },
{
    if exists|i: int| first_named(fields, name, i) {
        let i = choose|i: int| first_named(fields, name, i);
        assert(first_named(fields, name, i));
    }
}

// ---------------------------------------------------------------------------
// Records
// ---------------------------------------------------------------------------

/// A prediction as a record gives it.
pub struct PredictionRecord {
    /// The time (bits of the number), from `timestamp`, `time_sec` or `time`.
    pub timestamp: Option<u64>,
    /// The label, from `label`, `result` or `shot_result`.
    pub label: Option<String>,
    /// The confidence (bits of the number).
    pub confidence: Option<u64>,
    /// The source.
    pub source: Option<String>,
    /// Positions of the attribute fields kept.
    pub attributes: Vec<usize>,
}

/// A ground-truth item as a record gives it.
pub struct GroundTruthRecord {
    /// The `id` string, else `gt-` and the record's position.
    pub id: String,
    /// The time (bits of the number), from `timestamp`, `time_sec` or `time`.
    pub timestamp: Option<u64>,
    /// The label, from `label`, `result` or `shot_result`, else `unknown`.
    pub label: String,
    /// The strings of `edge_case_tags`, else of `tags`.
    pub tags: Vec<String>,
    /// Positions of the attribute fields kept.
    pub attributes: Vec<usize>,
}

/// Reads a prediction from the fields of a record.
pub fn read_prediction(fields: &[(String, FieldValue)]) -> (r: PredictionRecord)
    ensures
        r.timestamp == number_in(fields@, time_field(fields@)),
        text_opt(r.label) == text_in(fields@, label_field(fields@)),
        r.confidence == number_in(fields@, position_of(fields@, "confidence"@)),
        text_opt(r.source) == text_in(fields@, position_of(fields@, "source"@)),
        positions(r.attributes@) == attribute_positions(fields@),
{
    proof {
        lemma_position_in_range(fields@, "timestamp"@);
        lemma_position_in_range(fields@, "time_sec"@);
        lemma_position_in_range(fields@, "time"@);
        lemma_position_in_range(fields@, "label"@);
        lemma_position_in_range(fields@, "result"@);
        lemma_position_in_range(fields@, "shot_result"@);
        lemma_position_in_range(fields@, "confidence"@);
        lemma_position_in_range(fields@, "source"@);
    }
    let t = time_position(fields);
    let l = label_position(fields);
    let c = find_field(fields, "confidence");
    let s = find_field(fields, "source");
    PredictionRecord {
        timestamp: number_at(fields, t),
        label: text_at(fields, l),
        confidence: number_at(fields, c),
        source: text_at(fields, s),
        attributes: attributes_of(fields),
    }
}

/// The identifier a ground-truth record gets: its `id` string, else `gt-`
/// and its position among the records.
pub open spec fn ground_truth_id(fields: Seq<(String, FieldValue)>, index: nat) -> Seq<char> {
    match text_in(fields, position_of(fields, "id"@)) {
        Some(t) => t,
        None => "gt-"@ + decimal(index),
    }
}

/// The label a ground-truth record gets, `unknown` when it has none.
pub open spec fn ground_truth_label(fields: Seq<(String, FieldValue)>) -> Seq<char> {
    match text_in(fields, label_field(fields)) {
        Some(t) => t,
        None => "unknown"@,
    }
}

/// Reads the ground-truth item at position `index` from the fields of its record.
pub fn read_ground_truth(fields: &[(String, FieldValue)], index: usize) -> (r: GroundTruthRecord)
    ensures
        r.id@ == ground_truth_id(fields@, index as nat),
        r.timestamp == number_in(fields@, time_field(fields@)),
        r.label@ == ground_truth_label(fields@),
        r.tags@.map_values(|s: String| s@) == strings_in(fields@, tags_field(fields@)),
        positions(r.attributes@) == attribute_positions(fields@),
{
    proof {
        lemma_position_in_range(fields@, "id"@);
        lemma_position_in_range(fields@, "edge_case_tags"@);
        lemma_position_in_range(fields@, "tags"@);
    }
    let id = match text_at(fields, find_field(fields, "id")) {
        Some(t) => t,
        None => {
            let mut out: Vec<char> = Vec::new();
            extend_str(&mut out, "gt-");
            let d = decimal_chars(index as u64);
            extend_chars(&mut out, &d);
            string_of(&out)
        },
    };
    let label = match text_at(fields, label_position(fields)) {
        Some(t) => t,
        None => {
            let mut out: Vec<char> = Vec::new();
            extend_str(&mut out, "unknown");
            string_of(&out)
        },
    };
    let tags_at = or_else(find_field(fields, "edge_case_tags"), find_field(fields, "tags"));
    GroundTruthRecord {
        id,
        timestamp: number_at(fields, time_position(fields)),
        label,
        tags: strings_at(fields, tags_at),
        attributes: attributes_of(fields),
    }
}

// ---------------------------------------------------------------------------
// Documents
// ---------------------------------------------------------------------------

/// The field named `name`, when it holds an array.
pub open spec fn array_field(fields: Seq<(String, FieldValue)>, name: Seq<char>) -> Option<int> {
    match position_of(fields, name) {
        Some(i) => if fields[i].1 is Array {
            Some(i)
        } else {
            None
        },
        None => None,
    }
}

/// The array of predictions in an object: the first of `shots`,
/// `confirmed`, `predictions`, `detected_shots`, `merged_shots` and
/// `detections` that holds an array.
pub open spec fn prediction_array(fields: Seq<(String, FieldValue)>) -> Option<int> {
    either(
        array_field(fields, "shots"@),
        either(
            array_field(fields, "confirmed"@),
            either(
                array_field(fields, "predictions"@),
                either(
                    array_field(fields, "detected_shots"@),
                    either(array_field(fields, "merged_shots"@), array_field(fields, "detections"@)),
                ),
            ),
        ),
    )
}

/// Where the predictions of a document are.
pub open spec fn prediction_records_at(doc: Document) -> Result<RecordsAt, LoadError> {
    match doc {
        Document::Array => Ok(RecordsAt::Whole),
        Document::Object(fields) => match prediction_array(fields@) {
            Some(i) => Ok(RecordsAt::Field(i as usize)),
            None => Err(LoadError::NoPredictionArray),
        },
        Document::Other => Err(LoadError::NotArrayOrObject),
    }
}

/// Where the ground-truth items of a document are.
pub open spec fn ground_truth_records_at(doc: Document) -> Result<RecordsAt, LoadError> {
    match doc {
        Document::Array => Ok(RecordsAt::Whole),
        Document::Object(fields) => match array_field(fields@, "shots"@) {
            Some(i) => Ok(RecordsAt::Field(i as usize)),
            None => Err(LoadError::NoShotsArray),
        },
        Document::Other => Err(LoadError::NotArrayOrObject),
    }
}

fn find_array(fields: &[(String, FieldValue)], name: &str) -> (r: Option<usize>)
    ensures
        at_int(r) == array_field(fields@, name@),
{
    proof {
        lemma_position_in_range(fields@, name@);
    }
    match find_field(fields, name) {
        Some(i) => match &fields[i].1 {
            FieldValue::Array(_) => Some(i),
            _ => None,
        },
        None => None,
    }
}

/// Finds the predictions of a document.
pub fn prediction_records(doc: &Document) -> (r: Result<RecordsAt, LoadError>)
    ensures
        r == prediction_records_at(*doc),
{
    match doc {
        Document::Array => Ok(RecordsAt::Whole),
        Document::Object(fields) => {
            let found = or_else(
                find_array(fields, "shots"),
                or_else(
                    find_array(fields, "confirmed"),
                    or_else(
                        find_array(fields, "predictions"),
                        or_else(
                            find_array(fields, "detected_shots"),
                            or_else(find_array(fields, "merged_shots"), find_array(fields, "detections")),
                        ),
                    ),
                ),
            );
            match found {
                Some(i) => Ok(RecordsAt::Field(i)),
                None => Err(LoadError::NoPredictionArray),
            }
        },
        Document::Other => Err(LoadError::NotArrayOrObject),
    }
}

/// Finds the ground-truth items of a document.
pub fn ground_truth_records(doc: &Document) -> (r: Result<RecordsAt, LoadError>)
    ensures
        r == ground_truth_records_at(*doc),
{
    match doc {
        Document::Array => Ok(RecordsAt::Whole),
        Document::Object(fields) => match find_array(fields, "shots") {
            Some(i) => Ok(RecordsAt::Field(i)),
            None => Err(LoadError::NoShotsArray),
        },
        Document::Other => Err(LoadError::NotArrayOrObject),
    }
}

} // verus!
