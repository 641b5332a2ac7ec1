use lyssa::doc::JobDocument;
use lyssa::format::{read_config_str, render};
use lyssa::split::gen_fio_job_configs;
use lyssa::BenchError;

fn sample_doc() -> JobDocument {
    let mut doc = JobDocument::new();
    doc.set(&b"global".to_vec(), &b"ioengine".to_vec(), Some(b"libaio".to_vec()));
    doc.set(&b"seq-read".to_vec(), &b"bs".to_vec(), Some(b"1M".to_vec()));
    doc.set(&b"seq-read".to_vec(), &b"time_based".to_vec(), None);
    doc
}

#[test]
fn render_writes_the_exact_text() {
    let doc = sample_doc();
    let text = render(&doc);
    assert_eq!(
        text,
        b"[global]\nioengine=libaio\n[seq-read]\nbs=1M\ntime_based\n".to_vec()
    );
}

#[test]
fn round_trip_preserves_the_document() {
    let doc = sample_doc();
    let text = render(&doc);
    let back = read_config_str(&text).expect("rendered text must read back");
    assert_eq!(back, doc);
}

#[test]
fn round_trip_preserves_a_split_job() {
    let doc = sample_doc();
    let jobs = gen_fio_job_configs(&doc);
    assert_eq!(jobs.len(), 1);
    let text = render(&jobs[0]);
    let back = read_config_str(&text).expect("rendered job must read back");
    assert_eq!(back, jobs[0]);
    assert_eq!(
        back.get(&b"seq-read".to_vec(), &b"startdelay".to_vec()),
        Some(Some(b"0".to_vec()))
    );
    assert_eq!(
        back.get(&b"global".to_vec(), &b"ioengine".to_vec()),
        Some(Some(b"libaio".to_vec()))
    );
}

#[test]
fn reader_skips_blank_and_comment_lines() {
    let text = b"\n; a comment\n[a]\n# another\nk=v\n\n".to_vec();
    let doc = read_config_str(&text).expect("text must parse");
    assert_eq!(doc.sections.len(), 1);
    assert_eq!(doc.get(&b"a".to_vec(), &b"k".to_vec()), Some(Some(b"v".to_vec())));
}

#[test]
fn reader_accepts_missing_final_newline() {
    let text = b"[a]\nk=v".to_vec();
    let doc = read_config_str(&text).expect("text must parse");
    assert_eq!(doc.get(&b"a".to_vec(), &b"k".to_vec()), Some(Some(b"v".to_vec())));
}

#[test]
fn reader_keeps_later_equals_signs_in_the_value() {
    let text = b"[a]\nk=v=w\n".to_vec();
    let doc = read_config_str(&text).expect("text must parse");
    assert_eq!(doc.get(&b"a".to_vec(), &b"k".to_vec()), Some(Some(b"v=w".to_vec())));
}

#[test]
fn reader_rejects_option_before_any_section() {
    let text = b"k=v\n[a]\n".to_vec();
    assert_eq!(read_config_str(&text), Err(BenchError::ConfigurationError));
}

#[test]
fn reader_rejects_duplicate_section() {
    let text = b"[a]\nk=v\n[a]\n".to_vec();
    assert_eq!(read_config_str(&text), Err(BenchError::ConfigurationError));
}

#[test]
fn reader_rejects_duplicate_key() {
    let text = b"[a]\nk=v\nk=w\n".to_vec();
    assert_eq!(read_config_str(&text), Err(BenchError::ConfigurationError));
}

#[test]
fn reader_rejects_unclosed_header() {
    let text = b"[a\nk=v\n".to_vec();
    assert_eq!(read_config_str(&text), Err(BenchError::ConfigurationError));
}

#[test]
fn reader_of_empty_text_is_the_empty_document() {
    let doc = read_config_str(&b"".to_vec()).expect("empty text must parse");
    assert!(doc.sections.is_empty());
}
