//! The job splitter: fans one multi-section job document into
//! independently runnable single-target jobs. Every job keeps the
//! shared `global` section (unchanged, in its original position) plus
//! exactly one target section, on which the `startdelay` option is
//! forced to `"0"`: the orchestrator manages its own inter-trial
//! delay, so the backend must not add one.

use vstd::prelude::*;

use crate::doc::{
    bytes_eq, clone_section, doc_lookup, doc_wf, global_name, is_global_name, keys_unique,
    lemma_lookup_sec_some, lemma_set_key_gets, lookup_sec, names_unique, set_entry, set_key_spec,
    startdelay_key, zero_value, EntryV, JobDocument, SecV, Section,
};

verus! {

/// The names of the non-`global` sections, in document order: one job
/// is produced per element.
pub open spec fn targets(d: Seq<SecV>) -> Seq<Seq<u8>>
    decreases d.len(),
{
    if d.len() == 0 {
        Seq::empty()
    } else if d[0].name == global_name() {
        targets(d.skip(1))
    } else {
        seq![d[0].name] + targets(d.skip(1))
    }
}

/// A section with its `startdelay` option forced to `"0"`.
pub open spec fn force_startdelay(s: SecV) -> SecV {
    SecV {
        name: s.name,
        entries: set_key_spec(s.entries, startdelay_key(), Option::Some(zero_value())),
    }
}

/// The job for target `tname`: the document restricted to its
/// `global` sections and the sections called `tname`, the latter with
/// `startdelay` forced.
pub open spec fn job_of(d: Seq<SecV>, tname: Seq<u8>) -> Seq<SecV>
    decreases d.len(),
{
    if d.len() == 0 {
        Seq::empty()
    } else {
        let rest = job_of(d.skip(1), tname);
        if d[0].name == tname {
            seq![force_startdelay(d[0])] + rest
        } else if d[0].name == global_name() {
            seq![d[0]] + rest
        } else {
            rest
        }
    }
}

/// The splitter: one job per non-`global` section, in document order.
pub open spec fn split_spec(d: Seq<SecV>) -> Seq<Seq<SecV>> {
    targets(d).map_values(|t: Seq<u8>| job_of(d, t))
}

/// How `targets` grows when one section is appended.
pub proof fn lemma_targets_push(s: Seq<SecV>, x: SecV)
    ensures
        targets(s.push(x)) == targets(s) + (if x.name == global_name() {
            Seq::<Seq<u8>>::empty()
        } else {
            seq![x.name]
        }),
    decreases s.len(),
{
    let tail: Seq<Seq<u8>> = if x.name == global_name() {
        Seq::empty()
    } else {
        seq![x.name]
    };
    if s.len() == 0 {
        assert(s.push(x).skip(1) =~= s);
        assert(targets(s.push(x)) =~= targets(s) + tail);
    } else {
        assert(s.push(x)[0] == s[0]);
        assert(s.push(x).skip(1) =~= s.skip(1).push(x));
        lemma_targets_push(s.skip(1), x);
        if s[0].name == global_name() {
            assert(targets(s.push(x)) == targets(s.skip(1).push(x)));
            assert(targets(s.push(x)) =~= targets(s) + tail);
        } else {
            assert(targets(s.push(x)) == seq![s[0].name] + targets(s.skip(1).push(x)));
            assert(targets(s.push(x)) =~= targets(s) + tail);
        }
    }
}

/// How a job grows when one section is appended to the document.
pub proof fn lemma_job_of_push(s: Seq<SecV>, x: SecV, tname: Seq<u8>)
    ensures
        job_of(s.push(x), tname) == job_of(s, tname) + (if x.name == tname {
            seq![force_startdelay(x)]
        } else if x.name == global_name() {
            seq![x]
        } else {
            Seq::<SecV>::empty()
        }),
    decreases s.len(),
{
    let tail: Seq<SecV> = if x.name == tname {
        seq![force_startdelay(x)]
    } else if x.name == global_name() {
        seq![x]
    } else {
        Seq::empty()
    };
    if s.len() == 0 {
        assert(s.push(x).skip(1) =~= s);
        assert(job_of(s.push(x), tname) =~= job_of(s, tname) + tail);
    } else {
        assert(s.push(x)[0] == s[0]);
        assert(s.push(x).skip(1) =~= s.skip(1).push(x));
        lemma_job_of_push(s.skip(1), x, tname);
        if s[0].name == tname {
            assert(job_of(s.push(x), tname) == seq![force_startdelay(s[0])] + job_of(
                s.skip(1).push(x),
                tname,
            ));
            assert(job_of(s.push(x), tname) =~= job_of(s, tname) + tail);
        } else if s[0].name == global_name() {
            assert(job_of(s.push(x), tname) == seq![s[0]] + job_of(s.skip(1).push(x), tname));
            assert(job_of(s.push(x), tname) =~= job_of(s, tname) + tail);
        } else {
            assert(job_of(s.push(x), tname) == job_of(s.skip(1).push(x), tname));
            assert(job_of(s.push(x), tname) =~= job_of(s, tname) + tail);
        }
    }
}

/// Every section of a job carries a name from the source document.
pub proof fn lemma_job_names_src(s: Seq<SecV>, tname: Seq<u8>)
    ensures
        forall|j: int|
            0 <= j < job_of(s, tname).len() ==> exists|l: int|
                0 <= l < s.len() && s[l].name == (#[trigger] job_of(s, tname)[j]).name,
    decreases s.len(),
{
    if s.len() > 0 {
        lemma_job_names_src(s.skip(1), tname);
        let job = job_of(s, tname);
        let rest = job_of(s.skip(1), tname);
        assert forall|j: int| 0 <= j < job.len() implies exists|l: int|
            0 <= l < s.len() && s[l].name == (#[trigger] job[j]).name by {
            let off: int = if s[0].name == tname || s[0].name == global_name() {
                1
            } else {
                0
            };
            if j >= off {
                assert(job[j] == rest[j - off]);
                let l = choose|l: int|
                    0 <= l < s.skip(1).len() && s.skip(1)[l].name == rest[j - off].name;
                assert(s[l + 1] == s.skip(1)[l]);
            } else {
                assert(s[0].name == job[j].name);
            }
        }
    }
}

/// A job of a well-formed document is itself well-formed.
pub proof fn lemma_job_of_wf(d: Seq<SecV>, tname: Seq<u8>)
    requires
        doc_wf(d),
    ensures
        doc_wf(job_of(d, tname)),
    decreases d.len(),
{
    if d.len() > 0 {
        assert forall|i: int, j: int| 0 <= i < j < d.skip(1).len() implies d.skip(1)[i].name
            != d.skip(1)[j].name by {
            assert(d.skip(1)[i] == d[i + 1] && d.skip(1)[j] == d[j + 1]);
        }
        assert forall|i: int| 0 <= i < d.skip(1).len() implies keys_unique(
            #[trigger] d.skip(1)[i].entries,
        ) by {
            assert(d.skip(1)[i] == d[i + 1]);
        }
        lemma_job_of_wf(d.skip(1), tname);
        lemma_job_names_src(d.skip(1), tname);
        let job = job_of(d, tname);
        let rest = job_of(d.skip(1), tname);
        let off: int = if d[0].name == tname || d[0].name == global_name() {
            1
        } else {
            0
        };
        if off == 1 {
            assert forall|j: int| 0 <= j < rest.len() implies rest[j].name != d[0].name by {
                let l = choose|l: int|
                    0 <= l < d.skip(1).len() && d.skip(1)[l].name == rest[j].name;
                assert(d.skip(1)[l] == d[l + 1]);
            }
            if d[0].name == tname {
                crate::doc::lemma_set_key_unique(
                    d[0].entries,
                    startdelay_key(),
                    Option::Some(zero_value()),
                );
            }
        }
        assert forall|i: int, j: int| 0 <= i < j < job.len() implies job[i].name
            != job[j].name by {
            if i >= off {
                assert(job[i] == rest[i - off] && job[j] == rest[j - off]);
            } else {
                assert(job[j] == rest[j - off]);
            }
        }
        assert forall|i: int| 0 <= i < job.len() implies keys_unique(
            #[trigger] job[i].entries,
        ) by {
            if i >= off {
                assert(job[i] == rest[i - off]);
            }
        }
    }
}

/// How many sections of a document are not the `global` section.
pub open spec fn non_global_count(d: Seq<SecV>) -> nat
    decreases d.len(),
{
    if d.len() == 0 {
        0
    } else {
        (if d[0].name == global_name() {
            0nat
        } else {
            1nat
        }) + non_global_count(d.skip(1))
    }
}

/// One target per non-`global` section.
pub proof fn lemma_targets_len(d: Seq<SecV>)
    ensures
        targets(d).len() == non_global_count(d),
    decreases d.len(),
{
    if d.len() > 0 {
        lemma_targets_len(d.skip(1));
    }
}

/// No target is the `global` name.
pub proof fn lemma_targets_not_global(d: Seq<SecV>)
    ensures
        forall|k: int| 0 <= k < targets(d).len() ==> #[trigger] targets(d)[k] != global_name(),
    decreases d.len(),
{
    if d.len() > 0 {
        lemma_targets_not_global(d.skip(1));
        assert forall|k: int| 0 <= k < targets(d).len() implies #[trigger] targets(d)[k]
            != global_name() by {
            if d[0].name == global_name() {
                assert(targets(d) == targets(d.skip(1)));
                assert(targets(d)[k] == targets(d.skip(1))[k]);
            } else if k > 0 {
                assert(targets(d)[k] == targets(d.skip(1))[k - 1]);
            } else {
                assert(targets(d)[0] == d[0].name);
            }
        }
    }
}

/// Every target is the name of some document section.
pub proof fn lemma_targets_mem(d: Seq<SecV>)
    ensures
        forall|k: int|
            0 <= k < targets(d).len() ==> exists|l: int|
                0 <= l < d.len() && (#[trigger] d[l]).name == #[trigger] targets(d)[k],
    decreases d.len(),
{
    if d.len() > 0 {
        lemma_targets_mem(d.skip(1));
        assert forall|k: int| 0 <= k < targets(d).len() implies exists|l: int|
            0 <= l < d.len() && (#[trigger] d[l]).name == #[trigger] targets(d)[k] by {
            let off: int = if d[0].name == global_name() {
                0
            } else {
                1
            };
            if k >= off {
                assert(targets(d)[k] == targets(d.skip(1))[k - off]);
                let l = choose|l: int|
                    0 <= l < d.skip(1).len() && (#[trigger] d.skip(1)[l]).name == targets(
                        d.skip(1),
                    )[k - off];
                assert(d[l + 1] == d.skip(1)[l]);
            } else {
                assert(d[0].name == targets(d)[k]);
            }
        }
    }
}

/// Every section of a job is the `global` section or the target.
pub proof fn lemma_job_names(d: Seq<SecV>, t: Seq<u8>)
    ensures
        forall|j: int|
            0 <= j < job_of(d, t).len() ==> ((#[trigger] job_of(d, t)[j]).name == global_name()
                || job_of(d, t)[j].name == t),
    decreases d.len(),
{
    if d.len() > 0 {
        lemma_job_names(d.skip(1), t);
        let job = job_of(d, t);
        let rest = job_of(d.skip(1), t);
        assert forall|j: int| 0 <= j < job.len() implies ((#[trigger] job[j]).name
            == global_name() || job[j].name == t) by {
            let off: int = if d[0].name == t || d[0].name == global_name() {
                1
            } else {
                0
            };
            if j >= off {
                assert(job[j] == rest[j - off]);
            }
        }
    }
}

/// A job keeps the document's `global` section exactly as it stands.
pub proof fn lemma_job_global(d: Seq<SecV>, t: Seq<u8>)
    requires
        t != global_name(),
    ensures
        lookup_sec(job_of(d, t), global_name()) == lookup_sec(d, global_name()),
    decreases d.len(),
{
    if d.len() > 0 {
        lemma_job_global(d.skip(1), t);
        let job = job_of(d, t);
        let rest = job_of(d.skip(1), t);
        if d[0].name == t {
            assert(job[0] == force_startdelay(d[0]));
            assert(job.skip(1) =~= rest);
        } else if d[0].name == global_name() {
            assert(job[0] == d[0]);
        } else {
            assert(job == rest);
        }
    }
}

/// A job's target section is the document's, with `startdelay` forced.
pub proof fn lemma_job_target(d: Seq<SecV>, t: Seq<u8>)
    requires
        t != global_name(),
    ensures
        lookup_sec(job_of(d, t), t) == match lookup_sec(d, t) {
            Option::Some(s) => Option::Some(force_startdelay(s)),
            Option::None => Option::None,
        },
    decreases d.len(),
{
    if d.len() > 0 {
        lemma_job_target(d.skip(1), t);
        let job = job_of(d, t);
        let rest = job_of(d.skip(1), t);
        if d[0].name == t {
            assert(job[0] == force_startdelay(d[0]));
        } else if d[0].name == global_name() {
            assert(job[0] == d[0]);
            assert(job.skip(1) =~= rest);
        } else {
            assert(job == rest);
        }
    }
}

/// Law: a well-formed document with `n` non-`global` sections splits
/// into exactly `n` jobs, in document order. Every job is well-formed,
/// holds the document's `global` section unchanged, holds its own
/// target section with `startdelay` forced to `"0"`, and holds no
/// section besides those two.
pub proof fn lemma_splitter_fanout(d: Seq<SecV>)
    requires
        doc_wf(d),
    ensures
        split_spec(d).len() == non_global_count(d),
        forall|k: int|
            0 <= k < split_spec(d).len() ==> #[trigger] split_spec(d)[k] == job_of(
                d,
                targets(d)[k],
            ),
        forall|k: int|
            #![trigger targets(d)[k]]
            0 <= k < split_spec(d).len() ==> {
                let t = targets(d)[k];
                let job = job_of(d, t);
                &&& t != global_name()
                &&& doc_wf(job)
                &&& lookup_sec(job, global_name()) == lookup_sec(d, global_name())
                &&& doc_lookup(job, t, startdelay_key()) == Option::Some(
                    Option::Some(zero_value()),
                )
                &&& forall|j: int|
                    0 <= j < job.len() ==> ((#[trigger] job[j]).name == global_name()
                        || job[j].name == t)
            },
{
    lemma_targets_len(d);
    lemma_targets_not_global(d);
    lemma_targets_mem(d);
    assert forall|k: int| #![trigger targets(d)[k]] 0 <= k < split_spec(d).len() implies {
        let t = targets(d)[k];
        let job = job_of(d, t);
        &&& t != global_name()
        &&& doc_wf(job)
        &&& lookup_sec(job, global_name()) == lookup_sec(d, global_name())
        &&& doc_lookup(job, t, startdelay_key()) == Option::Some(Option::Some(zero_value()))
        &&& forall|j: int|
            0 <= j < job.len() ==> ((#[trigger] job[j]).name == global_name() || job[j].name == t)
    } by {
        let t = targets(d)[k];
        lemma_job_of_wf(d, t);
        lemma_job_global(d, t);
        lemma_job_target(d, t);
        lemma_job_names(d, t);
        lemma_lookup_sec_some(d, t);
        let s = lookup_sec(d, t).unwrap();
        lemma_set_key_gets(s.entries, startdelay_key(), Option::Some(zero_value()));
    }
}

/// Law: a document whose sections are all `global` splits into no
/// jobs at all; the empty fan-out is not an error.
pub proof fn lemma_splitter_empty(d: Seq<SecV>)
    requires
        forall|i: int| 0 <= i < d.len() ==> (#[trigger] d[i]).name == global_name(),
    ensures
        split_spec(d) == Seq::<Seq<SecV>>::empty(),
{
    lemma_targets_all_global(d);
    assert(split_spec(d) =~= Seq::<Seq<SecV>>::empty());
}

/// A document of only `global` sections has no targets.
pub proof fn lemma_targets_all_global(d: Seq<SecV>)
    requires
        forall|i: int| 0 <= i < d.len() ==> (#[trigger] d[i]).name == global_name(),
    ensures
        targets(d) == Seq::<Seq<u8>>::empty(),
    decreases d.len(),
{
    if d.len() > 0 {
        assert forall|i: int| 0 <= i < d.skip(1).len() implies (#[trigger] d.skip(1)[i]).name
            == global_name() by {
            assert(d.skip(1)[i] == d[i + 1]);
        }
        lemma_targets_all_global(d.skip(1));
    }
}

/// Forcing `startdelay` twice equals forcing it once.
pub proof fn lemma_set_key_idem(es: Seq<crate::doc::EntryV>, key: Seq<u8>, value: Option<Seq<u8>>)
    ensures
        set_key_spec(set_key_spec(es, key, value), key, value) == set_key_spec(es, key, value),
    decreases es.len(),
{
    let inner = set_key_spec(es, key, value);
    if es.len() == 0 {
        assert(set_key_spec(inner, key, value) =~= inner);
    } else if es[0].key == key {
        assert(set_key_spec(inner, key, value) =~= inner);
    } else {
        lemma_set_key_idem(es.skip(1), key, value);
        assert(inner[0] == es[0]);
        assert(inner.skip(1) =~= set_key_spec(es.skip(1), key, value));
        assert(set_key_spec(inner, key, value) =~= inner);
    }
}

/// Re-deriving a job from itself changes nothing.
pub proof fn lemma_job_idem(d: Seq<SecV>, t: Seq<u8>)
    requires
        t != global_name(),
    ensures
        job_of(job_of(d, t), t) == job_of(d, t),
    decreases d.len(),
{
    if d.len() > 0 {
        lemma_job_idem(d.skip(1), t);
        let job = job_of(d, t);
        let rest = job_of(d.skip(1), t);
        if d[0].name == t {
            lemma_set_key_idem(d[0].entries, startdelay_key(), Option::Some(zero_value()));
            assert(force_startdelay(force_startdelay(d[0])) == force_startdelay(d[0]));
            assert(job[0] == force_startdelay(d[0]));
            assert(job.skip(1) =~= rest);
            assert(job_of(job, t) =~= job);
        } else if d[0].name == global_name() {
            assert(job[0] == d[0]);
            assert(job.skip(1) =~= rest);
            assert(job_of(job, t) =~= job);
        } else {
            assert(job == rest);
        }
    }
}

/// A document without the target yields a job of only `global`
/// sections, which itself has no targets.
pub proof fn lemma_job_no_target(s: Seq<SecV>, t: Seq<u8>)
    requires
        t != global_name(),
        forall|l: int| 0 <= l < s.len() ==> (#[trigger] s[l]).name != t,
    ensures
        targets(job_of(s, t)) == Seq::<Seq<u8>>::empty(),
    decreases s.len(),
{
    if s.len() > 0 {
        assert forall|l: int| 0 <= l < s.skip(1).len() implies (#[trigger] s.skip(1)[l]).name
            != t by {
            assert(s.skip(1)[l] == s[l + 1]);
        }
        lemma_job_no_target(s.skip(1), t);
        let job = job_of(s, t);
        let rest = job_of(s.skip(1), t);
        if s[0].name == global_name() {
            assert(job[0] == s[0]);
            assert(job.skip(1) =~= rest);
            assert(targets(job) =~= Seq::<Seq<u8>>::empty());
        } else {
            assert(job == rest);
        }
    }
}

/// A job for a present target has exactly that one target.
pub proof fn lemma_targets_of_job(d: Seq<SecV>, t: Seq<u8>)
    requires
        names_unique(d),
        t != global_name(),
        exists|l: int| 0 <= l < d.len() && (#[trigger] d[l]).name == t,
    ensures
        targets(job_of(d, t)) == seq![t],
    decreases d.len(),
{
    let job = job_of(d, t);
    let rest = job_of(d.skip(1), t);
    assert forall|i: int, j: int| 0 <= i < j < d.skip(1).len() implies d.skip(1)[i].name
        != d.skip(1)[j].name by {
        assert(d.skip(1)[i] == d[i + 1] && d.skip(1)[j] == d[j + 1]);
    }
    if d[0].name == t {
        assert forall|l: int| 0 <= l < d.skip(1).len() implies (#[trigger] d.skip(1)[l]).name
            != t by {
            assert(d.skip(1)[l] == d[l + 1]);
        }
        lemma_job_no_target(d.skip(1), t);
        assert(job[0] == force_startdelay(d[0]));
        assert(job.skip(1) =~= rest);
        assert(targets(job) =~= seq![t]);
    } else {
        let l = choose|l: int| 0 <= l < d.len() && (#[trigger] d[l]).name == t;
        assert(d.skip(1)[l - 1] == d[l]);
        lemma_targets_of_job(d.skip(1), t);
        if d[0].name == global_name() {
            assert(job[0] == d[0]);
            assert(job.skip(1) =~= rest);
            assert(targets(job) =~= seq![t]);
        } else {
            assert(job == rest);
        }
    }
}

/// Law: splitting is idempotent on its own output. Each job the
/// splitter produces splits into exactly that job again: the job's
/// one target is its own section, and forcing `startdelay` a second
/// time changes nothing.
pub proof fn lemma_split_idempotent(d: Seq<SecV>, k: int)
    requires
        doc_wf(d),
        0 <= k < split_spec(d).len(),
    ensures
        split_spec(split_spec(d)[k]) == seq![split_spec(d)[k]],
{
    let t = targets(d)[k];
    let job = job_of(d, t);
    lemma_targets_not_global(d);
    lemma_targets_mem(d);
    lemma_targets_of_job(d, t);
    lemma_job_idem(d, t);
    assert(split_spec(job) =~= seq![job]);
}

/// Forcing `startdelay` keeps a section renderable: the forced key
/// and value survive rendering, and so does every old entry.
pub proof fn lemma_force_startdelay_ok(s: SecV)
    requires
        crate::format::sec_ok(s),
    ensures
        crate::format::sec_ok(force_startdelay(s)),
{
    assert(crate::format::key_ok(startdelay_key())) by {
        if startdelay_key().contains(10u8) {
            let j = choose|j: int|
                0 <= j < startdelay_key().len() && startdelay_key()[j] == 10u8;
        }
        if startdelay_key().contains(61u8) {
            let j = choose|j: int|
                0 <= j < startdelay_key().len() && startdelay_key()[j] == 61u8;
        }
    }
    assert(crate::format::value_ok(Option::Some(zero_value()))) by {
        if zero_value().contains(10u8) {
            let j = choose|j: int| 0 <= j < zero_value().len() && zero_value()[j] == 10u8;
        }
    }
    let forced = EntryV { key: startdelay_key(), value: Option::Some(zero_value()) };
    crate::doc::lemma_set_key_elems(s.entries, startdelay_key(), Option::Some(zero_value()));
    let r = force_startdelay(s).entries;
    assert forall|j: int| 0 <= j < r.len() implies crate::format::entry_ok(#[trigger] r[j]) by {
        if r[j] != forced {
            let l = choose|l: int| 0 <= l < s.entries.len() && s.entries[l] == r[j];
        }
    }
}

/// Every section of a job of a renderable document is renderable.
pub proof fn lemma_job_renderable(d: Seq<SecV>, t: Seq<u8>)
    requires
        crate::format::doc_renderable(d),
    ensures
        crate::format::doc_renderable(job_of(d, t)),
    decreases d.len(),
{
    if d.len() > 0 {
        assert forall|i: int| 0 <= i < d.skip(1).len() implies crate::format::sec_ok(
            #[trigger] d.skip(1)[i],
        ) by {
            assert(d.skip(1)[i] == d[i + 1]);
        }
        lemma_job_renderable(d.skip(1), t);
        let job = job_of(d, t);
        let rest = job_of(d.skip(1), t);
        let off: int = if d[0].name == t || d[0].name == global_name() {
            1
        } else {
            0
        };
        if d[0].name == t {
            lemma_force_startdelay_ok(d[0]);
        }
        assert forall|i: int| 0 <= i < job.len() implies crate::format::sec_ok(
            #[trigger] job[i],
        ) by {
            if i >= off {
                assert(job[i] == rest[i - off]);
            }
        }
    }
}

/// Law: each job the splitter yields from a well-formed, renderable
/// document serializes to the backend's job-file text and re-parses
/// through the same document model as exactly that job — the same
/// retained section, the same `global` options, with the forced
/// `startdelay` already in place.
pub proof fn lemma_job_round_trip(d: Seq<SecV>, k: int)
    requires
        doc_wf(d),
        crate::format::doc_renderable(d),
        0 <= k < split_spec(d).len(),
    ensures
        crate::format::parse_doc(crate::format::render_doc(split_spec(d)[k])) == Option::Some(
            split_spec(d)[k],
        ),
{
    let t = targets(d)[k];
    lemma_job_of_wf(d, t);
    lemma_job_renderable(d, t);
    crate::format::lemma_round_trip(job_of(d, t));
}

/// The exec byte string of the forced option key.
pub fn startdelay_key_bytes() -> (r: Vec<u8>)
    ensures
        r@ == startdelay_key(),
{
    let mut v: Vec<u8> = Vec::new();
    v.push(115);
    v.push(116);
    v.push(97);
    v.push(114);
    v.push(116);
    v.push(100);
    v.push(101);
    v.push(108);
    v.push(97);
    v.push(121);
    proof {
        assert(v@ =~= startdelay_key());
    }
    v
}

/// The exec byte string of the forced option value.
pub fn zero_value_bytes() -> (r: Vec<u8>)
    ensures
        r@ == zero_value(),
{
    let mut v: Vec<u8> = Vec::new();
    v.push(48);
    proof {
        assert(v@ =~= zero_value());
    }
    v
}

/// Builds the job for one target section name.
pub fn make_job(config: &JobDocument, tname: &Vec<u8>) -> (r: JobDocument)
    ensures
        r@ == job_of(config@, tname@),
{
    let mut sections: Vec<Section> = Vec::new();
    let mut i: usize = 0;
    while i < config.sections.len()
        invariant
            i <= config.sections.len(),
            sections@.map_values(|s: Section| s@) =~= job_of(config@.take(i as int), tname@),
        decreases config.sections.len() - i,
    {
        let sec = &config.sections[i];
        if bytes_eq(&sec.name, tname) {
            let mut c = clone_section(sec);
            let sd = startdelay_key_bytes();
            let zv = zero_value_bytes();
            set_entry(&mut c.entries, &sd, Option::Some(zv));
            proof {
                assert(c@ == force_startdelay(config@[i as int]));
            }
            sections.push(c);
        } else if is_global_name(&sec.name) {
            sections.push(clone_section(sec));
        }
        proof {
            lemma_job_of_push(config@.take(i as int), config@[i as int], tname@);
            assert(config@.take(i + 1 as int) =~= config@.take(i as int).push(config@[i as int]));
            assert(sections@.map_values(|s: Section| s@) =~= job_of(
                config@.take(i + 1 as int),
                tname@,
            ));
        }
        i += 1;
    }
    proof {
        assert(config@.take(config.sections.len() as int) =~= config@);
    }
    JobDocument { sections }
}

/// The job splitter: one job per non-`global` section of the
/// document, in document order, each carrying the `global` section
/// plus its own target section with `startdelay` forced to `"0"`.
pub fn gen_fio_job_configs(config: &JobDocument) -> (r: Vec<JobDocument>)
    ensures
        r@.map_values(|d: JobDocument| d@) == split_spec(config@),
        config.wf() ==> forall|k: int|
            0 <= k < r@.len() ==> doc_wf((#[trigger] r@[k])@),
{
    let mut jobs: Vec<JobDocument> = Vec::new();
    let mut i: usize = 0;
    while i < config.sections.len()
        invariant
            i <= config.sections.len(),
            jobs.len() == targets(config@.take(i as int)).len(),
            forall|j: int|
                0 <= j < jobs@.len() ==> (#[trigger] jobs@[j])@ == job_of(
                    config@,
                    targets(config@.take(i as int))[j],
                ),
        decreases config.sections.len() - i,
    {
        let sec = &config.sections[i];
        let ghost t0 = targets(config@.take(i as int));
        let ghost jobs0 = jobs@;
        if !is_global_name(&sec.name) {
            jobs.push(make_job(config, &sec.name));
        }
        proof {
            lemma_targets_push(config@.take(i as int), config@[i as int]);
            assert(config@.take(i + 1 as int) =~= config@.take(i as int).push(config@[i as int]));
            let t1 = targets(config@.take(i + 1 as int));
            if config@[i as int].name == global_name() {
                assert(t1 =~= t0);
            } else {
                assert(t1 =~= t0.push(config@[i as int].name));
                assert(jobs@[jobs@.len() - 1]@ == job_of(config@, t1[t1.len() - 1]));
            }
            assert forall|j: int| 0 <= j < jobs@.len() implies (#[trigger] jobs@[j])@ == job_of(
                config@,
                t1[j],
            ) by {
                if j < jobs0.len() {
                    assert(jobs@[j] == jobs0[j]);
                    assert(t1[j] == t0[j]);
                }
            }
        }
        i += 1;
    }
    proof {
        assert(config@.take(config.sections.len() as int) =~= config@);
        assert(jobs@.map_values(|d: JobDocument| d@) =~= split_spec(config@));
        if config.wf() {
            assert forall|k: int| 0 <= k < jobs@.len() implies doc_wf((#[trigger] jobs@[k])@) by {
                lemma_job_of_wf(config@, targets(config@)[k]);
            }
        }
    }
    jobs
}

} // verus!
