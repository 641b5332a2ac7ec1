//! The textual job-file format the subprocess backend consumes: one
//! `[name]` header line per section, one `key=value` (or bare `key`)
//! line per option. The reader accepts the same dialect back, skipping
//! blank lines and `;`/`#` comment lines, and rejects text that names
//! a section or key twice, so every document it yields is well-formed.

use vstd::prelude::*;

use crate::doc::{
    doc_wf, find_entry_idx, find_section_idx, keys_unique, names_unique, opt_bytes_view, Entry,
    EntryV, JobDocument, SecV, Section,
};
use crate::BenchError;

verus! {

/// Position of the first occurrence of `b`, or the length when absent.
pub open spec fn find_byte(s: Seq<u8>, b: u8) -> nat
    decreases s.len(),
{
    if s.len() == 0 {
        0
    } else if s[0] == b {
        0
    } else {
        (1 + find_byte(s.skip(1), b)) as nat
    }
}

/// `find_byte` never passes the end of the sequence.
pub proof fn lemma_find_byte_le(s: Seq<u8>, b: u8)
    ensures
        find_byte(s, b) <= s.len(),
    decreases s.len(),
{
    if s.len() > 0 && s[0] != b {
        lemma_find_byte_le(s.skip(1), b);
    }
}

/// A scan that saw no `b` before `n` and stopped at `b` or the end
/// has found `find_byte`.
pub proof fn lemma_find_byte_is(s: Seq<u8>, b: u8, n: int)
    requires
        0 <= n <= s.len(),
        forall|j: int| 0 <= j < n ==> s[j] != b,
        n == s.len() || s[n] == b,
    ensures
        find_byte(s, b) == n,
    decreases n,
{
    if s.len() > 0 {
        if n > 0 {
            assert forall|j: int| 0 <= j < n - 1 implies s.skip(1)[j] != b by {
                assert(s.skip(1)[j] == s[j + 1]);
            }
            if n < s.len() {
                assert(s.skip(1)[n - 1] == s[n]);
            }
            lemma_find_byte_is(s.skip(1), b, n - 1);
        }
    }
}

/// The line text of one entry, without its terminating newline.
pub open spec fn entry_line(e: EntryV) -> Seq<u8> {
    match e.value {
        Option::Some(v) => e.key + seq![61u8] + v,
        Option::None => e.key,
    }
}

/// The rendered text of one entry.
pub open spec fn render_entry(e: EntryV) -> Seq<u8> {
    entry_line(e) + seq![10u8]
}

/// The rendered text of a run of entries.
pub open spec fn render_entries(es: Seq<EntryV>) -> Seq<u8>
    decreases es.len(),
{
    if es.len() == 0 {
        Seq::empty()
    } else {
        render_entry(es[0]) + render_entries(es.skip(1))
    }
}

/// The rendered text of one section: its header line, then its entries.
pub open spec fn render_sec(s: SecV) -> Seq<u8> {
    seq![91u8] + s.name + seq![93u8, 10u8] + render_entries(s.entries)
}

/// The rendered text of a whole document.
pub open spec fn render_doc(d: Seq<SecV>) -> Seq<u8>
    decreases d.len(),
{
    if d.len() == 0 {
        Seq::empty()
    } else {
        render_sec(d[0]) + render_doc(d.skip(1))
    }
}

/// A section name survives rendering when it holds no newline.
pub open spec fn name_ok(n: Seq<u8>) -> bool {
    !n.contains(10u8)
}

/// A key survives rendering when it is non-empty, holds no newline or
/// `=`, and does not open like a header or comment line.
pub open spec fn key_ok(k: Seq<u8>) -> bool {
    &&& k.len() > 0
    &&& !k.contains(10u8)
    &&& !k.contains(61u8)
    &&& k[0] != 91u8
    &&& k[0] != 59u8
    &&& k[0] != 35u8
}

/// A value survives rendering when it holds no newline.
pub open spec fn value_ok(v: Option<Seq<u8>>) -> bool {
    match v {
        Option::Some(x) => !x.contains(10u8),
        Option::None => true,
    }
}

/// An entry whose rendered line reads back as the same entry.
pub open spec fn entry_ok(e: EntryV) -> bool {
    key_ok(e.key) && value_ok(e.value)
}

/// A section whose rendered text reads back as the same section.
pub open spec fn sec_ok(s: SecV) -> bool {
    name_ok(s.name) && forall|j: int| 0 <= j < s.entries.len() ==> entry_ok(#[trigger] s.entries[j])
}

/// A document whose rendered text reads back as the same document.
pub open spec fn doc_renderable(d: Seq<SecV>) -> bool {
    forall|i: int| 0 <= i < d.len() ==> sec_ok(#[trigger] d[i])
}

/// One line folded into the document built so far: a blank or comment
/// line changes nothing; a header opens a fresh section; any other
/// line is an option of the last opened section. A malformed header,
/// a duplicate name or key, or an option before the first header is a
/// refusal.
pub open spec fn parse_line_into(line: Seq<u8>, acc: Seq<SecV>) -> Option<Seq<SecV>> {
    if line.len() == 0 {
        Option::Some(acc)
    } else if line[0] == 59u8 || line[0] == 35u8 {
        Option::Some(acc)
    } else if line[0] == 91u8 {
        if line.len() >= 2 && line[line.len() - 1] == 93u8 {
            let name = line.subrange(1, line.len() - 1);
            if exists|l: int| 0 <= l < acc.len() && (#[trigger] acc[l]).name == name {
                Option::None
            } else {
                Option::Some(acc.push(SecV { name: name, entries: Seq::empty() }))
            }
        } else {
            Option::None
        }
    } else {
        if acc.len() == 0 {
            Option::None
        } else {
            let e = find_byte(line, 61u8);
            let entry = if e < line.len() {
                EntryV {
                    key: line.take(e as int),
                    value: Option::Some(line.skip(e + 1 as int)),
                }
            } else {
                EntryV { key: line, value: Option::None }
            };
            let last = acc[acc.len() - 1];
            if exists|l: int| 0 <= l < last.entries.len() && (#[trigger] last.entries[l]).key
                == entry.key {
                Option::None
            } else {
                Option::Some(
                    acc.update(
                        acc.len() - 1,
                        SecV { name: last.name, entries: last.entries.push(entry) },
                    ),
                )
            }
        }
    }
}

/// The text split at newlines and folded line by line onto `acc`.
pub open spec fn parse_lines(s: Seq<u8>, acc: Seq<SecV>) -> Option<Seq<SecV>>
    decreases s.len(),
{
    if s.len() == 0 {
        Option::Some(acc)
    } else {
        let n = find_byte(s, 10u8);
        let line = s.take(n as int);
        let rest = if n < s.len() {
            s.skip(n + 1 as int)
        } else {
            Seq::empty()
        };
        match parse_line_into(line, acc) {
            Option::Some(acc2) => parse_lines(rest, acc2),
            Option::None => Option::None,
        }
    }
}

/// The document a job-file text denotes, if it is well formed.
pub open spec fn parse_doc(s: Seq<u8>) -> Option<Seq<SecV>> {
    parse_lines(s, Seq::empty())
}

/// A byte that occurs nowhere is never found.
pub proof fn lemma_find_byte_absent(s: Seq<u8>, b: u8)
    requires
        !s.contains(b),
    ensures
        find_byte(s, b) == s.len(),
    decreases s.len(),
{
    if s.len() > 0 {
        assert(s[0] != b);
        assert(!s.skip(1).contains(b)) by {
            if s.skip(1).contains(b) {
                let i = choose|i: int| 0 <= i < s.skip(1).len() && s.skip(1)[i] == b;
                assert(s[i + 1] == b);
            }
        }
        lemma_find_byte_absent(s.skip(1), b);
    }
}

/// The first `b` of `a + [b] + t` stands right after `a`.
pub proof fn lemma_find_byte_concat(a: Seq<u8>, b: u8, t: Seq<u8>)
    requires
        !a.contains(b),
    ensures
        find_byte(a + seq![b] + t, b) == a.len(),
    decreases a.len(),
{
    let s = a + seq![b] + t;
    if a.len() == 0 {
        assert(s[0] == b);
    } else {
        assert(s[0] == a[0]);
        assert(a[0] != b);
        assert(!a.skip(1).contains(b)) by {
            if a.skip(1).contains(b) {
                let i = choose|i: int| 0 <= i < a.skip(1).len() && a.skip(1)[i] == b;
                assert(a[i + 1] == b);
            }
        }
        lemma_find_byte_concat(a.skip(1), b, t);
        assert(s.skip(1) =~= a.skip(1) + seq![b] + t);
    }
}

/// Reading one newline-terminated line off the front of the text.
pub proof fn lemma_parse_one_line(a: Seq<u8>, t: Seq<u8>, acc: Seq<SecV>)
    requires
        !a.contains(10u8),
    ensures
        parse_lines(a + seq![10u8] + t, acc) == match parse_line_into(a, acc) {
            Option::Some(acc2) => parse_lines(t, acc2),
            Option::None => Option::None::<Seq<SecV>>,
        },
{
    let s = a + seq![10u8] + t;
    lemma_find_byte_concat(a, 10u8, t);
    assert(s.len() == a.len() + 1 + t.len());
    assert(s.take(a.len() as int) =~= a);
    assert(s.skip(a.len() + 1 as int) =~= t);
}

/// The rendered line of a sound entry reads back as that entry.
pub proof fn lemma_entry_line_reads(e: EntryV)
    requires
        entry_ok(e),
    ensures
        entry_line(e).len() > 0,
        entry_line(e)[0] != 91u8 && entry_line(e)[0] != 59u8 && entry_line(e)[0] != 35u8,
        !entry_line(e).contains(10u8),
        ({
            let line = entry_line(e);
            let n = find_byte(line, 61u8);
            let entry = if n < line.len() {
                EntryV {
                    key: line.take(n as int),
                    value: Option::Some(line.skip(n + 1 as int)),
                }
            } else {
                EntryV { key: line, value: Option::None }
            };
            entry == e
        }),
{
    let line = entry_line(e);
    match e.value {
        Option::Some(v) => {
            assert(line =~= e.key + seq![61u8] + v);
            assert(line[0] == e.key[0]);
            assert(!line.contains(10u8)) by {
                if line.contains(10u8) {
                    let i = choose|i: int| 0 <= i < line.len() && line[i] == 10u8;
                    if i < e.key.len() {
                        assert(e.key[i] == 10u8);
                        assert(e.key.contains(10u8));
                    } else if i > e.key.len() {
                        assert(v[i - e.key.len() - 1] == 10u8);
                        assert(v.contains(10u8));
                    }
                }
            }
            lemma_find_byte_concat(e.key, 61u8, v);
            lemma_find_byte_le(line, 61u8);
            assert(find_byte(line, 61u8) == e.key.len() < line.len());
            assert(line.take(e.key.len() as int) =~= e.key);
            assert(line.skip(e.key.len() + 1 as int) =~= v);
        },
        Option::None => {
            assert(line == e.key);
            assert(line[0] == e.key[0]);
            lemma_find_byte_absent(line, 61u8);
        },
    }
}

/// A run of sound entry lines fills the last opened section in order.
pub proof fn lemma_parse_entries(
    es: Seq<EntryV>,
    t: Seq<u8>,
    acc0: Seq<SecV>,
    name: Seq<u8>,
    done: Seq<EntryV>,
)
    requires
        forall|j: int| 0 <= j < es.len() ==> entry_ok(#[trigger] es[j]),
        keys_unique(done + es),
    ensures
        parse_lines(render_entries(es) + t, acc0.push(SecV { name: name, entries: done }))
            == parse_lines(t, acc0.push(SecV { name: name, entries: done + es })),
    decreases es.len(),
{
    if es.len() == 0 {
        assert(render_entries(es) + t =~= t);
        assert(done + es =~= done);
    } else {
        let e0 = es[0];
        let acc = acc0.push(SecV { name: name, entries: done });
        lemma_entry_line_reads(e0);
        assert(render_entries(es) + t =~= entry_line(e0) + seq![10u8] + (render_entries(
            es.skip(1),
        ) + t));
        lemma_parse_one_line(entry_line(e0), render_entries(es.skip(1)) + t, acc);
        // the duplicate-key test fails: e0's key is fresh among `done`
        assert(acc[acc.len() - 1] == SecV { name: name, entries: done });
        assert forall|l: int| 0 <= l < done.len() implies (#[trigger] done[l]).key != e0.key by {
            assert((done + es)[l] == done[l]);
            assert((done + es)[done.len() as int] == e0);
        }
        // the line is an entry line, so the fold appends e0 to the section
        let entry_parsed = ({
            let line = entry_line(e0);
            let n = find_byte(line, 61u8);
            if n < line.len() {
                EntryV {
                    key: line.take(n as int),
                    value: Option::Some(line.skip(n + 1 as int)),
                }
            } else {
                EntryV { key: line, value: Option::None }
            }
        });
        assert(entry_parsed == e0);
        assert(parse_line_into(entry_line(e0), acc) == Option::Some(
            acc.update(acc.len() - 1, SecV { name: name, entries: done.push(e0) }),
        ));
        assert(acc.update(acc.len() - 1, SecV { name: name, entries: done.push(e0) }) =~= acc0.push(
            SecV { name: name, entries: done.push(e0) },
        ));
        assert forall|j: int| 0 <= j < es.skip(1).len() implies entry_ok(
            #[trigger] es.skip(1)[j],
        ) by {
            assert(es.skip(1)[j] == es[j + 1]);
        }
        assert(done.push(e0) + es.skip(1) =~= done + es);
        lemma_parse_entries(es.skip(1), t, acc0, name, done.push(e0));
    }
}

/// Rendered sections parse back, appended in order onto `acc`.
pub proof fn lemma_parse_render_doc(ds: Seq<SecV>, acc: Seq<SecV>)
    requires
        names_unique(acc + ds),
        forall|i: int| 0 <= i < ds.len() ==> keys_unique((#[trigger] ds[i]).entries),
        doc_renderable(ds),
    ensures
        parse_lines(render_doc(ds), acc) == Option::Some(acc + ds),
    decreases ds.len(),
{
    if ds.len() == 0 {
        assert(acc + ds =~= acc);
    } else {
        let s0 = ds[0];
        let hdr = seq![91u8] + s0.name + seq![93u8];
        let rest1 = render_entries(s0.entries) + render_doc(ds.skip(1));
        assert(render_doc(ds) =~= hdr + seq![10u8] + rest1);
        assert(!hdr.contains(10u8)) by {
            if hdr.contains(10u8) {
                let i = choose|i: int| 0 <= i < hdr.len() && hdr[i] == 10u8;
                if 1 <= i < s0.name.len() + 1 {
                    assert(s0.name[i - 1] == 10u8);
                    assert(s0.name.contains(10u8));
                }
            }
        }
        lemma_parse_one_line(hdr, rest1, acc);
        // the line is a sound header for s0's name
        assert(hdr[0] == 91u8 && hdr[hdr.len() - 1] == 93u8 && hdr.len() >= 2);
        assert(hdr.subrange(1, hdr.len() - 1) =~= s0.name);
        // the duplicate-name test fails: s0's name is fresh among `acc`
        assert forall|l: int| 0 <= l < acc.len() implies (#[trigger] acc[l]).name != s0.name by {
            assert((acc + ds)[l] == acc[l]);
            assert((acc + ds)[acc.len() as int] == s0);
        }
        assert(parse_line_into(hdr, acc) == Option::Some(
            acc.push(SecV { name: s0.name, entries: Seq::empty() }),
        ));
        assert(Seq::<EntryV>::empty() + s0.entries =~= s0.entries);
        assert(sec_ok(s0));
        lemma_parse_entries(
            s0.entries,
            render_doc(ds.skip(1)),
            acc,
            s0.name,
            Seq::<EntryV>::empty(),
        );
        assert(SecV { name: s0.name, entries: Seq::<EntryV>::empty() + s0.entries } == s0);
        assert(acc.push(s0) + ds.skip(1) =~= acc + ds);
        assert forall|i: int| 0 <= i < ds.skip(1).len() implies keys_unique(
            (#[trigger] ds.skip(1)[i]).entries,
        ) by {
            assert(ds.skip(1)[i] == ds[i + 1]);
        }
        assert forall|i: int| 0 <= i < ds.skip(1).len() implies sec_ok(
            #[trigger] ds.skip(1)[i],
        ) by {
            assert(ds.skip(1)[i] == ds[i + 1]);
        }
        lemma_parse_render_doc(ds.skip(1), acc.push(s0));
    }
}

/// Law: rendering a well-formed, renderable document to the backend's
/// job-file text and reading the text back yields exactly the same
/// document — the same sections, the same `global` options.
pub proof fn lemma_round_trip(d: Seq<SecV>)
    requires
        doc_wf(d),
        doc_renderable(d),
    ensures
        parse_doc(render_doc(d)) == Option::Some(d),
{
    assert(Seq::<SecV>::empty() + d =~= d);
    lemma_parse_render_doc(d, Seq::empty());
}

/// How a rendered document grows when one section is appended.
pub proof fn lemma_render_doc_push(s: Seq<SecV>, x: SecV)
    ensures
        render_doc(s.push(x)) == render_doc(s) + render_sec(x),
    decreases s.len(),
{
    if s.len() == 0 {
        assert(s.push(x).skip(1) =~= s);
        assert(render_doc(s.push(x)) =~= render_doc(s) + render_sec(x));
    } else {
        assert(s.push(x)[0] == s[0]);
        assert(s.push(x).skip(1) =~= s.skip(1).push(x));
        lemma_render_doc_push(s.skip(1), x);
        assert(render_doc(s.push(x)) == render_sec(s[0]) + render_doc(s.skip(1).push(x)));
        assert(render_doc(s.push(x)) =~= render_doc(s) + render_sec(x));
    }
}

/// How a rendered entry run grows when one entry is appended.
pub proof fn lemma_render_entries_push(es: Seq<EntryV>, x: EntryV)
    ensures
        render_entries(es.push(x)) == render_entries(es) + render_entry(x),
    decreases es.len(),
{
    if es.len() == 0 {
        assert(es.push(x).skip(1) =~= es);
        assert(render_entries(es.push(x)) =~= render_entries(es) + render_entry(x));
    } else {
        assert(es.push(x)[0] == es[0]);
        assert(es.push(x).skip(1) =~= es.skip(1).push(x));
        lemma_render_entries_push(es.skip(1), x);
        assert(render_entries(es.push(x)) == render_entry(es[0]) + render_entries(
            es.skip(1).push(x),
        ));
        assert(render_entries(es.push(x)) =~= render_entries(es) + render_entry(x));
    }
}

/// Appends a copy of `v` to `out`.
pub fn push_bytes(out: &mut Vec<u8>, v: &Vec<u8>)
    ensures
        final(out)@ == old(out)@ + v@,
{
    let mut i: usize = 0;
    while i < v.len()
        invariant
            i <= v.len(),
            out@ =~= old(out)@ + v@.subrange(0, i as int),
        decreases v.len() - i,
    {
        out.push(v[i]);
        proof {
            assert(out@ =~= old(out)@ + v@.subrange(0, i + 1 as int));
        }
        i += 1;
    }
    proof {
        assert(out@ =~= old(out)@ + v@);
    }
}

/// A copy of the bytes of `v` between `a` and `b`.
pub fn copy_range(v: &Vec<u8>, a: usize, b: usize) -> (r: Vec<u8>)
    requires
        a <= b <= v.len(),
    ensures
        r@ == v@.subrange(a as int, b as int),
{
    let mut r: Vec<u8> = Vec::new();
    let mut i: usize = a;
    while i < b
        invariant
            a <= i <= b <= v.len(),
            r@ =~= v@.subrange(a as int, i as int),
        decreases b - i,
    {
        r.push(v[i]);
        proof {
            assert(r@ =~= v@.subrange(a as int, i + 1 as int));
        }
        i += 1;
    }
    r
}

/// Renders a document to the backend's job-file text.
pub fn render(doc: &JobDocument) -> (r: Vec<u8>)
    ensures
        r@ == render_doc(doc@),
{
    let mut out: Vec<u8> = Vec::new();
    let mut i: usize = 0;
    while i < doc.sections.len()
        invariant
            i <= doc.sections.len(),
            out@ == render_doc(doc@.take(i as int)),
        decreases doc.sections.len() - i,
    {
        let ghost head = render_doc(doc@.take(i as int));
        let sec = &doc.sections[i];
        out.push(91);
        push_bytes(&mut out, &sec.name);
        out.push(93);
        out.push(10);
        let ghost hdr = head + seq![91u8] + doc@[i as int].name + seq![93u8, 10u8];
        proof {
            assert(out@ =~= hdr);
        }
        let mut j: usize = 0;
        while j < sec.entries.len()
            invariant
                j <= sec.entries.len(),
                sec@ == doc@[i as int],
                i < doc.sections.len(),
                out@ == hdr + render_entries(doc@[i as int].entries.take(j as int)),
            decreases sec.entries.len() - j,
        {
            let ghost es = doc@[i as int].entries;
            let ghost done = out@;
            let e = &sec.entries[j];
            push_bytes(&mut out, &e.key);
            match &e.value {
                Option::Some(v) => {
                    out.push(61);
                    push_bytes(&mut out, v);
                },
                Option::None => {},
            }
            out.push(10);
            proof {
                assert(e@ == es[j as int]);
                assert(out@ =~= done + render_entry(es[j as int]));
                lemma_render_entries_push(es.take(j as int), es[j as int]);
                assert(es.take(j + 1 as int) =~= es.take(j as int).push(es[j as int]));
                assert(out@ =~= hdr + render_entries(es.take(j + 1 as int)));
            }
            j += 1;
        }
        proof {
            let ghost es = doc@[i as int].entries;
            assert(es.take(es.len() as int) =~= es);
            lemma_render_doc_push(doc@.take(i as int), doc@[i as int]);
            assert(render_sec(doc@[i as int]) =~= seq![91u8] + doc@[i as int].name + seq![
                93u8,
                10u8,
            ] + render_entries(es));
            assert(doc@.take(i + 1 as int) =~= doc@.take(i as int).push(doc@[i as int]));
            assert(out@ =~= render_doc(doc@.take(i + 1 as int)));
        }
        i += 1;
    }
    proof {
        assert(doc@.take(doc.sections.len() as int) =~= doc@);
    }
    out
}

/// Reads a job-file text back into the document model. The text is
/// accepted exactly when every line is blank, a comment, a sound
/// `[name]` header, or an option line under some header, with no
/// section name or key given twice; anything else is a
/// `ConfigurationError`.
pub fn read_config_str(text: &Vec<u8>) -> (r: Result<JobDocument, BenchError>)
    ensures
        match r {
            Result::Ok(doc) => parse_doc(text@) == Option::Some(doc@) && doc.wf(),
            Result::Err(e) => parse_doc(text@) == Option::None::<Seq<SecV>> && e
                == BenchError::ConfigurationError,
        },
{
    let mut sections: Vec<Section> = Vec::new();
    let mut p: usize = 0;
    proof {
        assert(sections@.map_values(|s: Section| s@) =~= Seq::<SecV>::empty());
        assert(text@.skip(0) =~= text@);
    }
    while p < text.len()
        invariant
            p <= text.len(),
            parse_lines(text@, Seq::empty()) == parse_lines(
                text@.skip(p as int),
                sections@.map_values(|s: Section| s@),
            ),
            doc_wf(sections@.map_values(|s: Section| s@)),
        decreases text.len() - p,
    {
        let ghost srem = text@.skip(p as int);
        let ghost accv = sections@.map_values(|s: Section| s@);
        let mut q: usize = p;
        while q < text.len() && text[q] != 10
            invariant
                p <= q <= text.len(),
                forall|k: int| p <= k < q ==> text@[k] != 10u8,
            decreases text.len() - q,
        {
            q += 1;
        }
        let ghost n = (q - p) as int;
        let ghost line = text@.subrange(p as int, q as int);
        proof {
            assert forall|j: int| 0 <= j < n implies srem[j] != 10u8 by {
                assert(srem[j] == text@[p + j]);
            }
            if q < text.len() {
                assert(srem[n] == text@[q as int]);
            }
            lemma_find_byte_is(srem, 10u8, n);
            assert(line =~= srem.take(n));
        }
        // fold the line, mirroring `parse_line_into` case by case
        if q == p {
            // blank line
            proof {
                assert(parse_line_into(line, accv) == Option::Some(accv));
            }
        } else if text[p] == 59 || text[p] == 35 {
            // comment line
            proof {
                assert(line[0] == text@[p as int]);
                assert(parse_line_into(line, accv) == Option::Some(accv));
            }
        } else if text[p] == 91 {
            if q - p >= 2 && text[q - 1] == 93 {
                let name = copy_range(text, p + 1, q - 1);
                proof {
                    assert(line[0] == text@[p as int]);
                    assert(line[line.len() - 1] == text@[q - 1]);
                    assert(name@ =~= line.subrange(1, line.len() - 1));
                }
                let found = find_section_idx(&sections, &name);
                if found.is_some() {
                    proof {
                        let i = found.unwrap() as int;
                        assert(accv[i] == sections@[i]@);
                        assert(exists|l: int|
                            0 <= l < accv.len() && (#[trigger] accv[l]).name == name@);
                        assert(parse_line_into(line, accv) == Option::None::<Seq<SecV>>);
                        assert(parse_lines(srem, accv) == Option::None::<Seq<SecV>>);
                    }
                    return Result::Err(BenchError::ConfigurationError);
                }
                proof {
                    assert forall|l: int| 0 <= l < accv.len() implies (#[trigger] accv[l]).name
                        != name@ by {
                        assert(accv[l] == sections@[l]@);
                    }
                }
                sections.push(Section { name, entries: Vec::new() });
                proof {
                    let accv2 = sections@.map_values(|s: Section| s@);
                    assert(accv2[accv2.len() - 1].entries =~= Seq::<EntryV>::empty());
                    assert(accv2 =~~= accv.push(
                        SecV { name: line.subrange(1, line.len() - 1), entries: Seq::empty() },
                    ));
                    assert(parse_line_into(line, accv) == Option::Some(accv2));
                    assert forall|a: int, b: int| 0 <= a < b < accv2.len() implies accv2[a].name
                        != accv2[b].name by {
                        if b < accv2.len() - 1 {
                            assert(accv2[a] == accv[a] && accv2[b] == accv[b]);
                        } else {
                            assert(accv2[a] == accv[a]);
                        }
                    }
                    assert forall|a: int| 0 <= a < accv2.len() implies keys_unique(
                        #[trigger] accv2[a].entries,
                    ) by {
                        if a < accv2.len() - 1 {
                            assert(accv2[a] == accv[a]);
                        }
                    }
                }
            } else {
                proof {
                    assert(line[0] == text@[p as int]);
                    if line.len() >= 2 {
                        assert(line[line.len() - 1] == text@[q - 1]);
                    }
                    assert(parse_line_into(line, accv) == Option::None::<Seq<SecV>>);
                    assert(parse_lines(srem, accv) == Option::None::<Seq<SecV>>);
                }
                return Result::Err(BenchError::ConfigurationError);
            }
        } else {
            proof {
                assert(line[0] == text@[p as int]);
            }
            if sections.len() == 0 {
                proof {
                    assert(parse_line_into(line, accv) == Option::None::<Seq<SecV>>);
                    assert(parse_lines(srem, accv) == Option::None::<Seq<SecV>>);
                }
                return Result::Err(BenchError::ConfigurationError);
            }
            let mut e: usize = p;
            while e < q && text[e] != 61
                invariant
                    p <= e <= q <= text.len(),
                    forall|k: int| p <= k < e ==> text@[k] != 61u8,
                decreases q - e,
            {
                e += 1;
            }
            proof {
                assert forall|j: int| 0 <= j < e - p implies line[j] != 61u8 by {
                    assert(line[j] == text@[p + j]);
                }
                if e < q {
                    assert(line[e - p] == text@[e as int]);
                }
                lemma_find_byte_is(line, 61u8, e - p);
            }
            let key = copy_range(text, p, e);
            let value: Option<Vec<u8>> = if e < q {
                Option::Some(copy_range(text, e + 1, q))
            } else {
                Option::None
            };
            let ghost entryv = EntryV { key: key@, value: opt_bytes_view(value) };
            proof {
                if e < q {
                    assert(key@ =~= line.take((e - p) as int));
                    assert(opt_bytes_view(value).unwrap() =~= line.skip((e - p) + 1 as int));
                } else {
                    assert(key@ =~= line);
                }
            }
            let last = sections.len() - 1;
            let efound = find_entry_idx(&sections[last].entries, &key);
            if efound.is_some() {
                proof {
                    let lastv = accv[accv.len() - 1];
                    assert(lastv == sections@[last as int]@);
                    let l0 = efound.unwrap() as int;
                    assert(lastv.entries[l0] == sections@[last as int].entries@[l0]@);
                    assert(exists|l: int|
                        0 <= l < lastv.entries.len() && (#[trigger] lastv.entries[l]).key
                            == entryv.key);
                    assert(parse_line_into(line, accv) == Option::None::<Seq<SecV>>);
                    assert(parse_lines(srem, accv) == Option::None::<Seq<SecV>>);
                }
                return Result::Err(BenchError::ConfigurationError);
            }
            proof {
                let lastv = accv[accv.len() - 1];
                assert(lastv == sections@[last as int]@);
                assert forall|l: int| 0 <= l < lastv.entries.len() implies (
                #[trigger] lastv.entries[l]).key != entryv.key by {
                    assert(lastv.entries[l] == sections@[last as int].entries@[l]@);
                }
            }
            let mut sec = match sections.pop() {
                Option::Some(s) => s,
                Option::None => {
                    proof {
                        assert(false);
                    }
                    return Result::Err(BenchError::ConfigurationError);
                },
            };
            let ghost secv = sec@;
            sec.entries.push(Entry { key, value });
            sections.push(sec);
            proof {
                let accv2 = sections@.map_values(|s: Section| s@);
                assert(sec@.entries =~= secv.entries.push(entryv));
                assert(accv2 =~= accv.update(
                    accv.len() - 1,
                    SecV { name: secv.name, entries: secv.entries.push(entryv) },
                ));
                assert(parse_line_into(line, accv) == Option::Some(accv2));
                assert forall|a: int, b: int| 0 <= a < b < accv2.len() implies accv2[a].name
                    != accv2[b].name by {
                    assert(accv2[a].name == accv[a].name && accv2[b].name == accv[b].name);
                }
                assert forall|a: int| 0 <= a < accv2.len() implies keys_unique(
                    #[trigger] accv2[a].entries,
                ) by {
                    if a < accv2.len() - 1 {
                        assert(accv2[a] == accv[a]);
                    } else {
                        let es2 = accv2[a].entries;
                        assert(es2 =~= accv[a].entries.push(entryv));
                        assert forall|x: int, y: int| 0 <= x < y < es2.len() implies es2[x].key
                            != es2[y].key by {
                            if y < es2.len() - 1 {
                                assert(es2[x] == accv[a].entries[x] && es2[y]
                                    == accv[a].entries[y]);
                            } else {
                                assert(es2[x] == accv[a].entries[x]);
                            }
                        }
                    }
                }
            }
        }
        // advance past the line and its newline
        let ghost accv2 = sections@.map_values(|s: Section| s@);
        proof {
            assert(parse_lines(srem, accv) == parse_lines(
                if n < srem.len() {
                    srem.skip(n + 1)
                } else {
                    Seq::empty()
                },
                accv2,
            ));
        }
        if q < text.len() {
            proof {
                assert(srem.skip(n + 1) =~= text@.skip(q + 1 as int));
            }
            p = q + 1;
        } else {
            proof {
                assert(text@.skip(q as int) =~= Seq::<u8>::empty());
            }
            p = q;
        }
    }
    proof {
        assert(text@.skip(p as int) =~= Seq::<u8>::empty());
    }
    Result::Ok(JobDocument { sections })
}

} // verus!
