use lyssa::doc::JobDocument;
use lyssa::split::gen_fio_job_configs;

fn sample_doc() -> JobDocument {
    let mut doc = JobDocument::new();
    doc.set(&b"global".to_vec(), &b"ioengine".to_vec(), Some(b"libaio".to_vec()));
    doc.set(&b"seq-read".to_vec(), &b"bs".to_vec(), Some(b"1M".to_vec()));
    doc.set(&b"seq-read".to_vec(), &b"rw".to_vec(), Some(b"read".to_vec()));
    doc.set(&b"seq-write".to_vec(), &b"bs".to_vec(), Some(b"1M".to_vec()));
    doc.set(&b"seq-write".to_vec(), &b"rw".to_vec(), Some(b"write".to_vec()));
    doc
}

#[test]
fn splitter_fans_one_job_per_section() {
    let doc = sample_doc();
    let jobs = gen_fio_job_configs(&doc);
    assert_eq!(jobs.len(), 2);
    // order follows the document's section order
    assert_eq!(jobs[0].sections[1].name, b"seq-read".to_vec());
    assert_eq!(jobs[1].sections[1].name, b"seq-write".to_vec());
    for job in &jobs {
        // the global section is carried unchanged
        assert_eq!(job.sections[0].name, b"global".to_vec());
        assert_eq!(
            job.get(&b"global".to_vec(), &b"ioengine".to_vec()),
            Some(Some(b"libaio".to_vec()))
        );
        // exactly the global section plus one target
        assert_eq!(job.sections.len(), 2);
    }
}

#[test]
fn splitter_forces_startdelay_zero() {
    let doc = sample_doc();
    let jobs = gen_fio_job_configs(&doc);
    assert_eq!(
        jobs[0].get(&b"seq-read".to_vec(), &b"startdelay".to_vec()),
        Some(Some(b"0".to_vec()))
    );
    assert_eq!(
        jobs[1].get(&b"seq-write".to_vec(), &b"startdelay".to_vec()),
        Some(Some(b"0".to_vec()))
    );
    // the global section is not given a startdelay
    assert_eq!(jobs[0].get(&b"global".to_vec(), &b"startdelay".to_vec()), None);
}

#[test]
fn splitter_overwrites_existing_startdelay() {
    let mut doc = JobDocument::new();
    doc.set(&b"slow".to_vec(), &b"startdelay".to_vec(), Some(b"30".to_vec()));
    let jobs = gen_fio_job_configs(&doc);
    assert_eq!(jobs.len(), 1);
    assert_eq!(
        jobs[0].get(&b"slow".to_vec(), &b"startdelay".to_vec()),
        Some(Some(b"0".to_vec()))
    );
    // overwriting keeps the section at one entry, in place
    assert_eq!(jobs[0].sections[0].entries.len(), 1);
}

#[test]
fn splitter_of_global_only_is_empty() {
    let mut doc = JobDocument::new();
    doc.set(&b"global".to_vec(), &b"ioengine".to_vec(), Some(b"libaio".to_vec()));
    let jobs = gen_fio_job_configs(&doc);
    assert!(jobs.is_empty());
}

#[test]
fn splitter_of_empty_document_is_empty() {
    let doc = JobDocument::new();
    assert!(gen_fio_job_configs(&doc).is_empty());
}

#[test]
fn splitting_a_job_again_yields_the_same_job() {
    let doc = sample_doc();
    let jobs = gen_fio_job_configs(&doc);
    for job in &jobs {
        let again = gen_fio_job_configs(job);
        assert_eq!(again.len(), 1);
        assert_eq!(&again[0], job);
    }
}

#[test]
fn document_set_and_get() {
    let mut doc = JobDocument::new();
    doc.set(&b"a".to_vec(), &b"k".to_vec(), Some(b"v".to_vec()));
    doc.set(&b"a".to_vec(), &b"bare".to_vec(), None);
    doc.set(&b"a".to_vec(), &b"k".to_vec(), Some(b"w".to_vec()));
    assert_eq!(doc.get(&b"a".to_vec(), &b"k".to_vec()), Some(Some(b"w".to_vec())));
    assert_eq!(doc.get(&b"a".to_vec(), &b"bare".to_vec()), Some(None));
    assert_eq!(doc.get(&b"a".to_vec(), &b"missing".to_vec()), None);
    assert_eq!(doc.get(&b"other".to_vec(), &b"k".to_vec()), None);
    assert_eq!(doc.sections.len(), 1);
    assert_eq!(doc.sections[0].entries.len(), 2);
}
