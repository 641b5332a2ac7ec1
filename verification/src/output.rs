//! Reading the subprocess backend's captured output. The tool may
//! print banner lines before its structured result; the payload is
//! everything from the first line that opens with `{` to the end of
//! the output. The payload's leading JSON value is decoded through
//! serde_json; output with no such line, or with a payload that is
//! not JSON, is `MalformedOutput`.

use vstd::prelude::*;

use crate::format::copy_range;
use crate::BenchError;

verus! {

/// serde_json's structured value type, carried opaquely.
#[verifier::external_type_specification]
#[verifier::external_body]
pub struct ExValue(serde_json::Value);

/// What `StreamDeserializer::next` yields on these bytes: the first
/// JSON value they spell, trailing text allowed, or nothing when no
/// value parses at the front. The outcome depends on the bytes alone.
pub uninterp spec fn json_prefix_value(s: Seq<u8>) -> Option<serde_json::Value>;

/// Whether serde_json decodes a value from the front of these bytes.
pub open spec fn json_prefix_accepts(s: Seq<u8>) -> bool {
    json_prefix_value(s).is_some()
}

/// What `Value::get` yields: the member of a JSON object under the
/// given key, or nothing when the value is no object or lacks the
/// key. A function of the value and the key alone.
pub uninterp spec fn json_member(v: serde_json::Value, key: Seq<char>) -> Option<
    serde_json::Value,
>;

/// What the `Value::String` variant holds for the given text.
pub uninterp spec fn json_string_of(s: Seq<char>) -> serde_json::Value;

/// Relies on serde_json::Deserializer::from_slice and
/// StreamDeserializer::next: decodes the first JSON value the bytes
/// spell, ignoring anything after it.
#[verifier::external_body]
fn json_first_value(b: &Vec<u8>) -> (r: Option<serde_json::Value>)
    ensures
        r == json_prefix_value(b@),
{
    let mut iter = serde_json::Deserializer::from_slice(b.as_slice()).into_iter::<
        serde_json::Value,
    >();
    match iter.next() {
        Some(Ok(v)) => Some(v),
        Some(Err(_)) => None,
        None => None,
    }
}

/// Relies on serde_json::Value::get: the member of a JSON object
/// under the given key, if the value is an object that holds it.
#[verifier::external_body]
fn json_get_inner(v: &serde_json::Value, key: &str) -> (r: Option<serde_json::Value>)
    ensures
        r == json_member(*v, key@),
{
    v.get(key).cloned()
}

/// Relies on serde_json::Value::String: wraps text as a JSON string.
#[verifier::external_body]
fn json_string(s: &str) -> (r: serde_json::Value)
    ensures
        r == json_string_of(s@),
{
    serde_json::Value::String(s.to_string())
}

/// Whether position `i` opens a line with `{`.
pub open spec fn line_start_brace(s: Seq<u8>, i: int) -> bool {
    0 <= i < s.len() && s[i] == 123u8 && (i == 0 || s[i - 1] == 10u8)
}

/// Whether `i` is the first position that opens a line with `{`.
pub open spec fn json_start_at(s: Seq<u8>, i: int) -> bool {
    line_start_brace(s, i) && forall|j: int| 0 <= j < i ==> !line_start_brace(s, j)
}

/// The payload: everything from the first line that opens with `{`
/// to the end of the output, or nothing when no line does.
pub fn extract_json_payload(text: &Vec<u8>) -> (r: Option<Vec<u8>>)
    ensures
        match r {
            Option::Some(p) => exists|i: int| #[trigger] json_start_at(text@, i) && p@ == text@.skip(i),
            Option::None => forall|i: int| !line_start_brace(text@, i),
        },
{
    let mut i: usize = 0;
    while i < text.len()
        invariant
            i <= text.len(),
            forall|j: int| 0 <= j < i ==> !line_start_brace(text@, j),
        decreases text.len() - i,
    {
        if text[i] == 123 && (i == 0 || text[i - 1] == 10) {
            let p = copy_range(text, i, text.len());
            proof {
                assert(p@ =~= text@.skip(i as int));
                assert(json_start_at(text@, i as int));
            }
            return Option::Some(p);
        }
        i += 1;
    }
    Option::None
}

/// Locates the payload and decodes its leading JSON value. `Ok`
/// carries exactly what serde_json decodes from the first line that
/// opens with `{`; output with no such line, or with text there that
/// is not JSON, is malformed.
pub fn parse_backend_output(text: &Vec<u8>) -> (r: Result<serde_json::Value, BenchError>)
    ensures
        match r {
            Result::Ok(v) => exists|i: int|
                #[trigger] json_start_at(text@, i) && json_prefix_value(text@.skip(i))
                    == Option::Some(v),
            Result::Err(e) => {
                &&& e == BenchError::MalformedOutput
                &&& ((forall|i: int| !line_start_brace(text@, i)) || exists|i: int|
                    #[trigger] json_start_at(text@, i) && !json_prefix_accepts(text@.skip(i)))
            },
        },
{
    match extract_json_payload(text) {
        Option::Some(payload) => {
            let ghost i = choose|i: int|
                #[trigger] json_start_at(text@, i) && payload@ == text@.skip(i);
            match json_first_value(&payload) {
                Option::Some(v) => {
                    proof {
                        assert(json_start_at(text@, i) && json_prefix_value(text@.skip(i))
                            == Option::Some(v));
                    }
                    Result::Ok(v)
                },
                Option::None => {
                    proof {
                        assert(json_start_at(text@, i) && !json_prefix_accepts(text@.skip(i)));
                    }
                    Result::Err(BenchError::MalformedOutput)
                },
            }
        },
        Option::None => Result::Err(BenchError::MalformedOutput),
    }
}

/// Whether the structured result holds the given top-level key.
pub fn has_metric(v: &serde_json::Value, key: &str) -> (r: bool)
    ensures
        r == json_member(*v, key@).is_some(),
{
    match json_get_inner(v, key) {
        Option::Some(_) => true,
        Option::None => false,
    }
}

/// The caller's lookup rule for the structured result: the member
/// under `key`, or the JSON string `"unknown"` when the key is
/// absent, never a failure.
pub fn metric_or_unknown(v: &serde_json::Value, key: &str) -> (r: serde_json::Value)
    ensures
        r == match json_member(*v, key@) {
            Option::Some(x) => x,
            Option::None => json_string_of("unknown"@),
        },
{
    match json_get_inner(v, key) {
        Option::Some(x) => x,
        Option::None => json_string("unknown"),
    }
}

} // verus!
