//! The job document model: an ordered list of named sections, each an
//! ordered list of key/value options. Option values may be absent (a
//! bare key). Section names are unique in a well-formed document, and
//! keys are unique within a section; names and keys are compared
//! byte-for-byte, exactly as they stand in the source text.

use vstd::prelude::*;

verus! {

/// One option of a section; `value == None` is a bare key.
#[derive(Debug, PartialEq, Eq)]
pub struct Entry {
    pub key: Vec<u8>,
    pub value: Option<Vec<u8>>,
}

/// Spec-level image of an [`Entry`].
pub ghost struct EntryV {
    pub key: Seq<u8>,
    pub value: Option<Seq<u8>>,
}

/// One named section of a job document.
#[derive(Debug, PartialEq, Eq)]
pub struct Section {
    pub name: Vec<u8>,
    pub entries: Vec<Entry>,
}

/// Spec-level image of a [`Section`].
pub ghost struct SecV {
    pub name: Seq<u8>,
    pub entries: Seq<EntryV>,
}

/// An ordered job document: the unit the splitter consumes and the
/// backend drivers serialize.
#[derive(Debug, PartialEq, Eq)]
pub struct JobDocument {
    pub sections: Vec<Section>,
}

/// Spec-level image of an `Option<Vec<u8>>` value.
pub open spec fn opt_bytes_view(o: Option<Vec<u8>>) -> Option<Seq<u8>> {
    match o {
        Option::Some(v) => Option::Some(v@),
        Option::None => Option::None,
    }
}

impl View for Entry {
    type V = EntryV;

    open spec fn view(&self) -> EntryV {
        EntryV { key: self.key@, value: opt_bytes_view(self.value) }
    }
}

impl View for Section {
    type V = SecV;

    open spec fn view(&self) -> SecV {
        SecV { name: self.name@, entries: self.entries@.map_values(|e: Entry| e@) }
    }
}

impl View for JobDocument {
    type V = Seq<SecV>;

    open spec fn view(&self) -> Seq<SecV> {
        self.sections@.map_values(|s: Section| s@)
    }
}

/// Keys of a section are pairwise distinct.
pub open spec fn keys_unique(es: Seq<EntryV>) -> bool {
    forall|i: int, j: int| 0 <= i < j < es.len() ==> es[i].key != es[j].key
}

/// Section names of a document are pairwise distinct.
pub open spec fn names_unique(ss: Seq<SecV>) -> bool {
    forall|i: int, j: int| 0 <= i < j < ss.len() ==> ss[i].name != ss[j].name
}

/// A well-formed document: unique section names, unique keys per section.
pub open spec fn doc_wf(ss: Seq<SecV>) -> bool {
    &&& names_unique(ss)
    &&& forall|i: int| 0 <= i < ss.len() ==> keys_unique(#[trigger] ss[i].entries)
}

/// The one reserved section name: its options are shared by every job
/// and it is never itself run as a job.
pub open spec fn global_name() -> Seq<u8> {
    seq![103u8, 108u8, 111u8, 98u8, 97u8, 108u8]
}

/// The option key the splitter forces on each retained section.
pub open spec fn startdelay_key() -> Seq<u8> {
    seq![115u8, 116u8, 97u8, 114u8, 116u8, 100u8, 101u8, 108u8, 97u8, 121u8]
}

/// The forced value of that option: the single byte `0`.
pub open spec fn zero_value() -> Seq<u8> {
    seq![48u8]
}

impl JobDocument {
    /// The empty document.
    pub fn new() -> (r: JobDocument)
        ensures
            r@ == Seq::<SecV>::empty(),
            doc_wf(r@),
    {
        let r = JobDocument { sections: Vec::new() };
        proof {
            assert(r@ =~= Seq::<SecV>::empty());
        }
        r
    }

    /// Well-formedness of this document's image.
    pub open spec fn wf(&self) -> bool {
        doc_wf(self@)
    }
}

/// Byte-for-byte equality of two byte vectors.
pub fn bytes_eq(a: &Vec<u8>, b: &Vec<u8>) -> (r: bool)
    ensures
        r == (a@ == b@),
{
    if a.len() != b.len() {
        return false;
    }
    let mut i: usize = 0;
    while i < a.len()
        invariant
            i <= a.len(),
            a.len() == b.len(),
            forall|j: int| 0 <= j < i ==> a@[j] == b@[j],
        decreases a.len() - i,
    {
        if a[i] != b[i] {
            return false;
        }
        i += 1;
    }
    proof {
        assert(a@ =~= b@);
    }
    true
}

/// Whether a section name is the reserved shared-options name.
pub fn is_global_name(name: &Vec<u8>) -> (r: bool)
    ensures
        r == (name@ == global_name()),
{
    if name.len() != 6 {
        return false;
    }
    let r = name[0] == 103 && name[1] == 108 && name[2] == 111 && name[3] == 98
        && name[4] == 97 && name[5] == 108;
    proof {
        if r {
            assert(name@ =~= global_name());
        }
    }
    r
}

/// The value of the first entry with the given key: `None` when the
/// key is absent, `Some(value)` when present (a bare key gives
/// `Some(None)`).
pub open spec fn lookup_key(es: Seq<EntryV>, key: Seq<u8>) -> Option<Option<Seq<u8>>>
    decreases es.len(),
{
    if es.len() == 0 {
        Option::None
    } else if es[0].key == key {
        Option::Some(es[0].value)
    } else {
        lookup_key(es.skip(1), key)
    }
}

/// The first section with the given name, if any.
pub open spec fn lookup_sec(ss: Seq<SecV>, name: Seq<u8>) -> Option<SecV>
    decreases ss.len(),
{
    if ss.len() == 0 {
        Option::None
    } else if ss[0].name == name {
        Option::Some(ss[0])
    } else {
        lookup_sec(ss.skip(1), name)
    }
}

/// The value of a key inside a named section of a document.
pub open spec fn doc_lookup(ss: Seq<SecV>, name: Seq<u8>, key: Seq<u8>) -> Option<
    Option<Seq<u8>>,
> {
    match lookup_sec(ss, name) {
        Option::Some(s) => lookup_key(s.entries, key),
        Option::None => Option::None,
    }
}

/// Entries after setting `key` to `value`: the first entry with that
/// key is replaced in place; if the key is absent the entry is
/// appended.
pub open spec fn set_key_spec(es: Seq<EntryV>, key: Seq<u8>, value: Option<Seq<u8>>) -> Seq<
    EntryV,
>
    decreases es.len(),
{
    if es.len() == 0 {
        seq![EntryV { key: key, value: value }]
    } else if es[0].key == key {
        seq![EntryV { key: key, value: value }] + es.skip(1)
    } else {
        seq![es[0]] + set_key_spec(es.skip(1), key, value)
    }
}

/// A document after setting `key` to `value` in the section called
/// `name`: the first section with that name has its entries updated;
/// if no section has the name, a new one-entry section is appended.
pub open spec fn doc_set_spec(
    ss: Seq<SecV>,
    name: Seq<u8>,
    key: Seq<u8>,
    value: Option<Seq<u8>>,
) -> Seq<SecV>
    decreases ss.len(),
{
    if ss.len() == 0 {
        seq![SecV { name: name, entries: seq![EntryV { key: key, value: value }] }]
    } else if ss[0].name == name {
        seq![SecV { name: ss[0].name, entries: set_key_spec(ss[0].entries, key, value) }]
            + ss.skip(1)
    } else {
        seq![ss[0]] + doc_set_spec(ss.skip(1), name, key, value)
    }
}

/// Setting a key always leaves it present with the given value.
pub proof fn lemma_set_key_gets(es: Seq<EntryV>, key: Seq<u8>, value: Option<Seq<u8>>)
    ensures
        lookup_key(set_key_spec(es, key, value), key) == Option::Some(value),
    decreases es.len(),
{
    if es.len() == 0 {
    } else if es[0].key == key {
    } else {
        lemma_set_key_gets(es.skip(1), key, value);
        assert((seq![es[0]] + set_key_spec(es.skip(1), key, value)).skip(1) =~= set_key_spec(
            es.skip(1),
            key,
            value,
        ));
    }
}

/// When the first occurrence of `key` is at `i`, setting the key is an
/// in-place update at `i`.
pub proof fn lemma_set_key_found(es: Seq<EntryV>, key: Seq<u8>, value: Option<Seq<u8>>, i: int)
    requires
        0 <= i < es.len(),
        es[i].key == key,
        forall|j: int| 0 <= j < i ==> es[j].key != key,
    ensures
        set_key_spec(es, key, value) == es.update(i, EntryV { key: key, value: value }),
    decreases i,
{
    if i == 0 {
        assert(set_key_spec(es, key, value) =~= es.update(0, EntryV { key: key, value: value }));
    } else {
        assert(es.skip(1)[i - 1] == es[i]);
        assert forall|j: int| 0 <= j < i - 1 implies es.skip(1)[j].key != key by {
            assert(es.skip(1)[j] == es[j + 1]);
        }
        lemma_set_key_found(es.skip(1), key, value, i - 1);
        assert(set_key_spec(es, key, value) =~= es.update(i, EntryV { key: key, value: value }));
    }
}

/// When `key` occurs nowhere, setting it appends a new entry.
pub proof fn lemma_set_key_missing(es: Seq<EntryV>, key: Seq<u8>, value: Option<Seq<u8>>)
    requires
        forall|j: int| 0 <= j < es.len() ==> es[j].key != key,
    ensures
        set_key_spec(es, key, value) == es.push(EntryV { key: key, value: value }),
    decreases es.len(),
{
    if es.len() == 0 {
        assert(set_key_spec(es, key, value) =~= es.push(EntryV { key: key, value: value }));
    } else {
        assert forall|j: int| 0 <= j < es.skip(1).len() implies es.skip(1)[j].key != key by {
            assert(es.skip(1)[j] == es[j + 1]);
        }
        lemma_set_key_missing(es.skip(1), key, value);
        assert(set_key_spec(es, key, value) =~= es.push(EntryV { key: key, value: value }));
    }
}

/// Setting a key never disturbs the other keys of a section.
pub proof fn lemma_set_key_unique(es: Seq<EntryV>, key: Seq<u8>, value: Option<Seq<u8>>)
    requires
        keys_unique(es),
    ensures
        keys_unique(set_key_spec(es, key, value)),
    decreases es.len(),
{
    if es.len() == 0 {
    } else if es[0].key == key {
        let r = seq![EntryV { key: key, value: value }] + es.skip(1);
        assert forall|i: int, j: int| 0 <= i < j < r.len() implies r[i].key != r[j].key by {
            if i == 0 {
                assert(r[j] == es[j]);
            } else {
                assert(r[i] == es[i] && r[j] == es[j]);
            }
        }
    } else {
        assert forall|i: int, j: int| 0 <= i < j < es.skip(1).len() implies es.skip(1)[i].key
            != es.skip(1)[j].key by {
            assert(es.skip(1)[i] == es[i + 1] && es.skip(1)[j] == es[j + 1]);
        }
        lemma_set_key_unique(es.skip(1), key, value);
        lemma_set_key_keys(es.skip(1), key, value);
        let r = seq![es[0]] + set_key_spec(es.skip(1), key, value);
        let t = set_key_spec(es.skip(1), key, value);
        assert forall|i: int, j: int| 0 <= i < j < r.len() implies r[i].key != r[j].key by {
            if i == 0 {
                assert(r[j] == t[j - 1]);
                assert(t[j - 1].key == key || exists|l: int|
                    0 <= l < es.skip(1).len() && es.skip(1)[l].key == t[j - 1].key);
                if t[j - 1].key != key {
                    let l = choose|l: int|
                        0 <= l < es.skip(1).len() && es.skip(1)[l].key == t[j - 1].key;
                    assert(es.skip(1)[l] == es[l + 1]);
                }
            } else {
                assert(r[i] == t[i - 1] && r[j] == t[j - 1]);
            }
        }
    }
}

/// Every key after a set is the set key or one of the old keys.
pub proof fn lemma_set_key_keys(es: Seq<EntryV>, key: Seq<u8>, value: Option<Seq<u8>>)
    ensures
        forall|j: int|
            0 <= j < set_key_spec(es, key, value).len() ==> (#[trigger] set_key_spec(
                es,
                key,
                value,
            )[j].key == key || exists|l: int|
                0 <= l < es.len() && es[l].key == set_key_spec(es, key, value)[j].key),
    decreases es.len(),
{
    let r = set_key_spec(es, key, value);
    if es.len() == 0 {
    } else if es[0].key == key {
        assert forall|j: int| 0 <= j < r.len() implies (r[j].key == key || exists|l: int|
            0 <= l < es.len() && es[l].key == r[j].key) by {
            if j > 0 {
                assert(r[j] == es[j]);
            }
        }
    } else {
        lemma_set_key_keys(es.skip(1), key, value);
        let t = set_key_spec(es.skip(1), key, value);
        assert forall|j: int| 0 <= j < r.len() implies (r[j].key == key || exists|l: int|
            0 <= l < es.len() && es[l].key == r[j].key) by {
            if j == 0 {
                assert(r[0] == es[0] && es[0].key == es[0].key);
            } else {
                assert(r[j] == t[j - 1]);
                if t[j - 1].key != key {
                    let l = choose|l: int|
                        0 <= l < es.skip(1).len() && es.skip(1)[l].key == t[j - 1].key;
                    assert(es.skip(1)[l] == es[l + 1]);
                }
            }
        }
    }
}

/// A first occurrence of a key characterizes `lookup_key`.
pub proof fn lemma_lookup_key_found(es: Seq<EntryV>, key: Seq<u8>, i: int)
    requires
        0 <= i < es.len(),
        es[i].key == key,
        forall|j: int| 0 <= j < i ==> es[j].key != key,
    ensures
        lookup_key(es, key) == Option::Some(es[i].value),
    decreases i,
{
    if i > 0 {
        assert(es.skip(1)[i - 1] == es[i]);
        assert forall|j: int| 0 <= j < i - 1 implies es.skip(1)[j].key != key by {
            assert(es.skip(1)[j] == es[j + 1]);
        }
        lemma_lookup_key_found(es.skip(1), key, i - 1);
    }
}

/// An absent key characterizes `lookup_key`.
pub proof fn lemma_lookup_key_missing(es: Seq<EntryV>, key: Seq<u8>)
    requires
        forall|j: int| 0 <= j < es.len() ==> es[j].key != key,
    ensures
        lookup_key(es, key) == Option::None::<Option<Seq<u8>>>,
    decreases es.len(),
{
    if es.len() > 0 {
        assert forall|j: int| 0 <= j < es.skip(1).len() implies es.skip(1)[j].key != key by {
            assert(es.skip(1)[j] == es[j + 1]);
        }
        lemma_lookup_key_missing(es.skip(1), key);
    }
}

/// A first occurrence of a name characterizes `lookup_sec`.
pub proof fn lemma_lookup_sec_found(ss: Seq<SecV>, name: Seq<u8>, i: int)
    requires
        0 <= i < ss.len(),
        ss[i].name == name,
        forall|j: int| 0 <= j < i ==> ss[j].name != name,
    ensures
        lookup_sec(ss, name) == Option::Some(ss[i]),
    decreases i,
{
    if i > 0 {
        assert(ss.skip(1)[i - 1] == ss[i]);
        assert forall|j: int| 0 <= j < i - 1 implies ss.skip(1)[j].name != name by {
            assert(ss.skip(1)[j] == ss[j + 1]);
        }
        lemma_lookup_sec_found(ss.skip(1), name, i - 1);
    }
}

/// An absent name characterizes `lookup_sec`.
pub proof fn lemma_lookup_sec_missing(ss: Seq<SecV>, name: Seq<u8>)
    requires
        forall|j: int| 0 <= j < ss.len() ==> ss[j].name != name,
    ensures
        lookup_sec(ss, name) == Option::None::<SecV>,
    decreases ss.len(),
{
    if ss.len() > 0 {
        assert forall|j: int| 0 <= j < ss.skip(1).len() implies ss.skip(1)[j].name != name by {
            assert(ss.skip(1)[j] == ss[j + 1]);
        }
        lemma_lookup_sec_missing(ss.skip(1), name);
    }
}

/// A section name that occurs somewhere is found by `lookup_sec`.
pub proof fn lemma_lookup_sec_some(ss: Seq<SecV>, name: Seq<u8>)
    requires
        exists|l: int| 0 <= l < ss.len() && (#[trigger] ss[l]).name == name,
    ensures
        lookup_sec(ss, name).is_some(),
    decreases ss.len(),
{
    if ss[0].name != name {
        let l = choose|l: int| 0 <= l < ss.len() && (#[trigger] ss[l]).name == name;
        assert(ss.skip(1)[l - 1] == ss[l]);
        lemma_lookup_sec_some(ss.skip(1), name);
    }
}

/// When the first section called `name` stands at `i`, a set is an
/// in-place update of that section's entries.
pub proof fn lemma_doc_set_found(
    ss: Seq<SecV>,
    name: Seq<u8>,
    key: Seq<u8>,
    value: Option<Seq<u8>>,
    i: int,
)
    requires
        0 <= i < ss.len(),
        ss[i].name == name,
        forall|j: int| 0 <= j < i ==> ss[j].name != name,
    ensures
        doc_set_spec(ss, name, key, value) == ss.update(
            i,
            SecV { name: ss[i].name, entries: set_key_spec(ss[i].entries, key, value) },
        ),
    decreases i,
{
    let target = SecV { name: ss[i].name, entries: set_key_spec(ss[i].entries, key, value) };
    if i == 0 {
        assert(doc_set_spec(ss, name, key, value) =~= ss.update(0, target));
    } else {
        assert(ss.skip(1)[i - 1] == ss[i]);
        assert forall|j: int| 0 <= j < i - 1 implies ss.skip(1)[j].name != name by {
            assert(ss.skip(1)[j] == ss[j + 1]);
        }
        lemma_doc_set_found(ss.skip(1), name, key, value, i - 1);
        assert(doc_set_spec(ss, name, key, value) =~= ss.update(i, target));
    }
}

/// When no section is called `name`, a set appends a fresh section.
pub proof fn lemma_doc_set_missing(
    ss: Seq<SecV>,
    name: Seq<u8>,
    key: Seq<u8>,
    value: Option<Seq<u8>>,
)
    requires
        forall|j: int| 0 <= j < ss.len() ==> ss[j].name != name,
    ensures
        doc_set_spec(ss, name, key, value) == ss.push(
            SecV { name: name, entries: seq![EntryV { key: key, value: value }] },
        ),
    decreases ss.len(),
{
    let target = SecV { name: name, entries: seq![EntryV { key: key, value: value }] };
    if ss.len() == 0 {
        assert(doc_set_spec(ss, name, key, value) =~= ss.push(target));
    } else {
        assert forall|j: int| 0 <= j < ss.skip(1).len() implies ss.skip(1)[j].name != name by {
            assert(ss.skip(1)[j] == ss[j + 1]);
        }
        lemma_doc_set_missing(ss.skip(1), name, key, value);
        assert(doc_set_spec(ss, name, key, value) =~= ss.push(target));
    }
}

/// The position of the first entry with the given key, if any.
pub fn find_entry_idx(es: &Vec<Entry>, key: &Vec<u8>) -> (r: Option<usize>)
    ensures
        match r {
            Option::Some(i) => i < es.len() && es@[i as int]@.key == key@ && forall|j: int|
                0 <= j < i ==> es@[j]@.key != key@,
            Option::None => forall|j: int| 0 <= j < es.len() ==> es@[j]@.key != key@,
        },
{
    let mut i: usize = 0;
    while i < es.len()
        invariant
            i <= es.len(),
            forall|j: int| 0 <= j < i ==> es@[j]@.key != key@,
        decreases es.len() - i,
    {
        if bytes_eq(&es[i].key, key) {
            return Option::Some(i);
        }
        i += 1;
    }
    Option::None
}

/// The position of the first section with the given name, if any.
pub fn find_section_idx(ss: &Vec<Section>, name: &Vec<u8>) -> (r: Option<usize>)
    ensures
        match r {
            Option::Some(i) => i < ss.len() && ss@[i as int]@.name == name@ && forall|j: int|
                0 <= j < i ==> ss@[j]@.name != name@,
            Option::None => forall|j: int| 0 <= j < ss.len() ==> ss@[j]@.name != name@,
        },
{
    let mut i: usize = 0;
    while i < ss.len()
        invariant
            i <= ss.len(),
            forall|j: int| 0 <= j < i ==> ss@[j]@.name != name@,
        decreases ss.len() - i,
    {
        if bytes_eq(&ss[i].name, name) {
            return Option::Some(i);
        }
        i += 1;
    }
    Option::None
}

/// Sets `key` to `value` among `es`, replacing the first occurrence in
/// place or appending a fresh entry.
pub fn set_entry(es: &mut Vec<Entry>, key: &Vec<u8>, value: Option<Vec<u8>>)
    ensures
        final(es)@.map_values(|e: Entry| e@) == set_key_spec(
            old(es)@.map_values(|e: Entry| e@),
            key@,
            opt_bytes_view(value),
        ),
        keys_unique(old(es)@.map_values(|e: Entry| e@)) ==> keys_unique(
            final(es)@.map_values(|e: Entry| e@),
        ),
{
    let ghost es0 = es@.map_values(|e: Entry| e@);
    let ghost val = opt_bytes_view(value);
    let idx = find_entry_idx(es, key);
    match idx {
        Option::Some(i) => {
            es.set(i, Entry { key: clone_bytes(key), value });
            proof {
                lemma_set_key_found(es0, key@, val, i as int);
                assert(es@.map_values(|e: Entry| e@) =~= es0.update(
                    i as int,
                    EntryV { key: key@, value: val },
                ));
                if keys_unique(es0) {
                    let r = es@.map_values(|e: Entry| e@);
                    assert forall|a: int, b: int| 0 <= a < b < r.len() implies r[a].key
                        != r[b].key by {
                        assert(r[a].key == es0[a].key && r[b].key == es0[b].key);
                    }
                }
            }
        },
        Option::None => {
            es.push(Entry { key: clone_bytes(key), value });
            proof {
                lemma_set_key_missing(es0, key@, val);
                assert(es@.map_values(|e: Entry| e@) =~= es0.push(EntryV { key: key@, value: val }));
                if keys_unique(es0) {
                    let r = es@.map_values(|e: Entry| e@);
                    assert forall|a: int, b: int| 0 <= a < b < r.len() implies r[a].key
                        != r[b].key by {
                        if b < r.len() - 1 {
                            assert(r[a].key == es0[a].key && r[b].key == es0[b].key);
                        } else {
                            assert(r[a].key == es0[a].key && r[b].key == key@);
                        }
                    }
                }
            }
        },
    }
}

impl JobDocument {
    /// Sets `key` to `value` in the section called `name`, creating
    /// the section at the end of the document when it is absent.
    pub fn set(&mut self, name: &Vec<u8>, key: &Vec<u8>, value: Option<Vec<u8>>)
        ensures
            final(self)@ == doc_set_spec(old(self)@, name@, key@, opt_bytes_view(value)),
            old(self).wf() ==> final(self).wf(),
    {
        let ghost ss0 = self@;
        let ghost val = opt_bytes_view(value);
        let idx = find_section_idx(&self.sections, name);
        match idx {
            Option::Some(i) => {
                let mut sec = self.sections.remove(i);
                let ghost secv = sec@;
                set_entry(&mut sec.entries, key, value);
                let ghost secv2 = sec@;
                self.sections.insert(i, sec);
                proof {
                    lemma_doc_set_found(ss0, name@, key@, val, i as int);
                    assert(secv2 == SecV {
                        name: ss0[i as int].name,
                        entries: set_key_spec(ss0[i as int].entries, key@, val),
                    });
                    assert(self@ =~= ss0.update(i as int, secv2));
                    if doc_wf(ss0) {
                        let r = self@;
                        assert forall|a: int, b: int| 0 <= a < b < r.len() implies r[a].name
                            != r[b].name by {
                            assert(r[a].name == ss0[a].name && r[b].name == ss0[b].name);
                        }
                        assert forall|a: int| 0 <= a < r.len() implies keys_unique(
                            #[trigger] r[a].entries,
                        ) by {
                            if a != i {
                                assert(r[a] == ss0[a]);
                            }
                        }
                    }
                }
            },
            Option::None => {
                let mut entries: Vec<Entry> = Vec::new();
                entries.push(Entry { key: clone_bytes(key), value });
                let sec = Section { name: clone_bytes(name), entries };
                proof {
                    assert(sec@.entries =~= seq![EntryV { key: key@, value: val }]);
                }
                self.sections.push(sec);
                proof {
                    lemma_doc_set_missing(ss0, name@, key@, val);
                    assert(self@ =~= ss0.push(
                        SecV { name: name@, entries: seq![EntryV { key: key@, value: val }] },
                    ));
                    if doc_wf(ss0) {
                        let r = self@;
                        assert forall|a: int, b: int| 0 <= a < b < r.len() implies r[a].name
                            != r[b].name by {
                            if b < r.len() - 1 {
                                assert(r[a].name == ss0[a].name && r[b].name == ss0[b].name);
                            } else {
                                assert(r[a].name == ss0[a].name && r[b].name == name@);
                            }
                        }
                        assert forall|a: int| 0 <= a < r.len() implies keys_unique(
                            #[trigger] r[a].entries,
                        ) by {
                            if a < r.len() - 1 {
                                assert(r[a] == ss0[a]);
                            }
                        }
                    }
                }
            },
        }
    }

    /// The value of `key` in the section called `name`: `None` when
    /// the section or the key is absent, `Some(None)` for a bare key,
    /// `Some(Some(v))` for a key with a value.
    pub fn get(&self, name: &Vec<u8>, key: &Vec<u8>) -> (r: Option<Option<Vec<u8>>>)
        ensures
            match r {
                Option::Some(v) => doc_lookup(self@, name@, key@) == Option::Some(
                    opt_bytes_view(v),
                ),
                Option::None => doc_lookup(self@, name@, key@) == Option::None::<Option<Seq<u8>>>,
            },
    {
        let idx = find_section_idx(&self.sections, name);
        match idx {
            Option::Some(i) => {
                proof {
                    lemma_lookup_sec_found(self@, name@, i as int);
                }
                let sec = &self.sections[i];
                let ghost esv = sec@.entries;
                let eidx = find_entry_idx(&sec.entries, key);
                match eidx {
                    Option::Some(j) => {
                        proof {
                            lemma_lookup_key_found(esv, key@, j as int);
                        }
                        Option::Some(clone_opt_bytes(&sec.entries[j].value))
                    },
                    Option::None => {
                        proof {
                            lemma_lookup_key_missing(esv, key@);
                        }
                        Option::None
                    },
                }
            },
            Option::None => {
                proof {
                    lemma_lookup_sec_missing(self@, name@);
                }
                Option::None
            },
        }
    }
}

/// Every entry after a set is the set entry or one of the old ones.
pub proof fn lemma_set_key_elems(es: Seq<EntryV>, key: Seq<u8>, value: Option<Seq<u8>>)
    ensures
        forall|j: int|
            0 <= j < set_key_spec(es, key, value).len() ==> (#[trigger] set_key_spec(
                es,
                key,
                value,
            )[j] == EntryV { key: key, value: value } || exists|l: int|
                0 <= l < es.len() && es[l] == set_key_spec(es, key, value)[j]),
    decreases es.len(),
{
    let r = set_key_spec(es, key, value);
    if es.len() == 0 {
    } else if es[0].key == key {
        assert forall|j: int| 0 <= j < r.len() implies (r[j] == EntryV { key: key, value: value }
            || exists|l: int| 0 <= l < es.len() && es[l] == r[j]) by {
            if j > 0 {
                assert(r[j] == es[j]);
            }
        }
    } else {
        lemma_set_key_elems(es.skip(1), key, value);
        let t = set_key_spec(es.skip(1), key, value);
        assert forall|j: int| 0 <= j < r.len() implies (r[j] == EntryV { key: key, value: value }
            || exists|l: int| 0 <= l < es.len() && es[l] == r[j]) by {
            if j == 0 {
                assert(r[0] == es[0]);
            } else {
                assert(r[j] == t[j - 1]);
                if t[j - 1] != (EntryV { key: key, value: value }) {
                    let l = choose|l: int|
                        0 <= l < es.skip(1).len() && es.skip(1)[l] == t[j - 1];
                    assert(es.skip(1)[l] == es[l + 1]);
                }
            }
        }
    }
}

/// A fresh copy of a byte vector, equal in every position.
pub fn clone_bytes(v: &Vec<u8>) -> (r: Vec<u8>)
    ensures
        r@ == v@,
{
    let mut r: Vec<u8> = Vec::new();
    let mut i: usize = 0;
    while i < v.len()
        invariant
            i <= v.len(),
            r@ =~= v@.subrange(0, i as int),
        decreases v.len() - i,
    {
        r.push(v[i]);
        i += 1;
    }
    proof {
        assert(r@ =~= v@);
    }
    r
}

/// A fresh copy of an optional byte vector.
pub fn clone_opt_bytes(v: &Option<Vec<u8>>) -> (r: Option<Vec<u8>>)
    ensures
        opt_bytes_view(r) == opt_bytes_view(*v),
{
    match v {
        Option::Some(x) => Option::Some(clone_bytes(x)),
        Option::None => Option::None,
    }
}

/// A fresh copy of an entry with the same image.
pub fn clone_entry(e: &Entry) -> (r: Entry)
    ensures
        r@ == e@,
{
    Entry { key: clone_bytes(&e.key), value: clone_opt_bytes(&e.value) }
}

/// A fresh copy of a section with the same image.
pub fn clone_section(s: &Section) -> (r: Section)
    ensures
        r@ == s@,
{
    let mut entries: Vec<Entry> = Vec::new();
    let mut i: usize = 0;
    while i < s.entries.len()
        invariant
            i <= s.entries.len(),
            entries.len() == i,
            forall|j: int| 0 <= j < i ==> entries@[j]@ == s.entries@[j]@,
        decreases s.entries.len() - i,
    {
        entries.push(clone_entry(&s.entries[i]));
        i += 1;
    }
    let r = Section { name: clone_bytes(&s.name), entries };
    proof {
        assert(r@.entries =~= s@.entries);
    }
    r
}

} // verus!
