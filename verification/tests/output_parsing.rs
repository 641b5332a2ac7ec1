use lyssa::doc::JobDocument;
use lyssa::output::{extract_json_payload, has_metric, metric_or_unknown, parse_backend_output};
use lyssa::split::gen_fio_job_configs;
use lyssa::BenchError;

#[test]
fn payload_starts_at_the_first_brace_line() {
    let text = b"noise\nmore noise\n{\"a\":1}\ntrailing".to_vec();
    let payload = extract_json_payload(&text).expect("a line starts with a brace");
    assert_eq!(payload, b"{\"a\":1}\ntrailing".to_vec());
}

#[test]
fn banner_lines_before_the_json_are_ignored() {
    let text = b"noise\nmore noise\n{\"a\":1}\ntrailing".to_vec();
    let v = parse_backend_output(&text).expect("the JSON object must decode");
    assert!(has_metric(&v, "a"));
    assert_eq!(
        metric_or_unknown(&v, "a"),
        serde_json::Value::Number(serde_json::Number::from(1))
    );
}

#[test]
fn output_without_a_brace_line_is_malformed() {
    let text = b"no json here\nat all\n".to_vec();
    assert!(extract_json_payload(&text).is_none());
    assert_eq!(parse_backend_output(&text), Err(BenchError::MalformedOutput));
}

#[test]
fn a_brace_inside_a_line_does_not_start_the_payload() {
    let text = b"noise {\"a\":1}\n".to_vec();
    assert_eq!(parse_backend_output(&text), Err(BenchError::MalformedOutput));
}

#[test]
fn a_brace_line_that_is_not_json_is_malformed() {
    let text = b"banner\n{not json at all\n".to_vec();
    assert_eq!(parse_backend_output(&text), Err(BenchError::MalformedOutput));
}

#[test]
fn absent_metric_reads_as_the_unknown_sentinel() {
    let text = b"{\"jobs\":[]}".to_vec();
    let v = parse_backend_output(&text).expect("the JSON object must decode");
    assert!(!has_metric(&v, "global options"));
    assert_eq!(
        metric_or_unknown(&v, "global options"),
        serde_json::Value::String("unknown".to_string())
    );
}

#[test]
fn two_jobs_yield_two_indexable_results() {
    let mut doc = JobDocument::new();
    doc.set(&b"global".to_vec(), &b"ioengine".to_vec(), Some(b"libaio".to_vec()));
    doc.set(&b"seq-read".to_vec(), &b"rw".to_vec(), Some(b"read".to_vec()));
    doc.set(&b"seq-write".to_vec(), &b"rw".to_vec(), Some(b"write".to_vec()));
    let jobs = gen_fio_job_configs(&doc);
    assert_eq!(jobs.len(), 2);
    assert_eq!(jobs[0].sections[1].name, b"seq-read".to_vec());
    assert_eq!(jobs[1].sections[1].name, b"seq-write".to_vec());

    // a stub backend that always answers with the same structured result
    let stub_output = b"{\"jobs\":[{\"read\":{\"bw\":100}}]}".to_vec();
    let mut results = Vec::new();
    for _job in &jobs {
        let v = parse_backend_output(&stub_output).expect("the stub output must decode");
        results.push(v);
    }
    assert_eq!(results.len(), 2);
    for v in &results {
        assert!(has_metric(v, "jobs"));
    }
}
