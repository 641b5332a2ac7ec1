//! The version-probe cleanup: the external tool reports its version
//! as a line like `fio-3.36`; the probe's caller wants the bare
//! version, so surrounding whitespace is trimmed and every `fio-`
//! tag is removed.

use vstd::prelude::*;

verus! {

/// ASCII whitespace, as the trimming rule counts it.
pub open spec fn is_ws(b: u8) -> bool {
    b == 9 || b == 10 || b == 11 || b == 12 || b == 13 || b == 32
}

/// The text with leading whitespace dropped.
pub open spec fn trim_left(s: Seq<u8>) -> Seq<u8>
    decreases s.len(),
{
    if s.len() > 0 && is_ws(s[0]) {
        trim_left(s.skip(1))
    } else {
        s
    }
}

/// The text with trailing whitespace dropped.
pub open spec fn trim_right(s: Seq<u8>) -> Seq<u8>
    decreases s.len(),
{
    if s.len() > 0 && is_ws(s[s.len() - 1]) {
        trim_right(s.take(s.len() - 1))
    } else {
        s
    }
}

/// The text with whitespace dropped at both ends.
pub open spec fn trim_spec(s: Seq<u8>) -> Seq<u8> {
    trim_right(trim_left(s))
}

/// The tag the tool prefixes to its version: `fio-`.
pub open spec fn tool_tag() -> Seq<u8> {
    seq![102u8, 105u8, 111u8, 45u8]
}

/// The text with every occurrence of the tag removed, scanning left
/// to right without overlap.
pub open spec fn strip_tag(s: Seq<u8>) -> Seq<u8>
    decreases s.len(),
{
    if s.len() >= 4 && s.take(4) == tool_tag() {
        strip_tag(s.skip(4))
    } else if s.len() == 0 {
        s
    } else {
        seq![s[0]] + strip_tag(s.skip(1))
    }
}

/// Dropping a whitespace head steps `trim_left` once.
proof fn lemma_trim_left_at(s: Seq<u8>, a: int)
    requires
        0 <= a <= s.len(),
        forall|j: int| 0 <= j < a ==> is_ws(s[j]),
        a == s.len() || !is_ws(s[a]),
    ensures
        trim_left(s) == s.skip(a),
    decreases a,
{
    if a == 0 {
        if s.len() > 0 && is_ws(s[0]) {
            assert(false);
        }
        assert(s.skip(0) =~= s);
    } else {
        assert(is_ws(s[0]));
        assert forall|j: int| 0 <= j < a - 1 implies is_ws(s.skip(1)[j]) by {
            assert(s.skip(1)[j] == s[j + 1]);
        }
        if a < s.len() {
            assert(s.skip(1)[a - 1] == s[a]);
        }
        lemma_trim_left_at(s.skip(1), a - 1);
        assert(s.skip(1).skip(a - 1) =~= s.skip(a));
    }
}

/// Dropping a whitespace tail steps `trim_right` once.
proof fn lemma_trim_right_at(s: Seq<u8>, b: int)
    requires
        0 <= b <= s.len(),
        forall|j: int| b <= j < s.len() ==> is_ws(s[j]),
        b == 0 || !is_ws(s[b - 1]),
    ensures
        trim_right(s) == s.take(b),
    decreases s.len() - b,
{
    if b == s.len() {
        if s.len() > 0 && is_ws(s[s.len() - 1]) {
            assert(false);
        }
        assert(s.take(b) =~= s);
    } else {
        assert(is_ws(s[s.len() - 1]));
        let t = s.take(s.len() - 1);
        assert forall|j: int| b <= j < t.len() implies is_ws(t[j]) by {
            assert(t[j] == s[j]);
        }
        if b > 0 {
            assert(t[b - 1] == s[b - 1]);
        }
        lemma_trim_right_at(t, b);
        assert(t.take(b) =~= s.take(b));
    }
}

/// Whether one byte is whitespace under the trimming rule.
pub fn is_ws_byte(c: u8) -> (r: bool)
    ensures
        r == is_ws(c),
{
    c == 9 || c == 10 || c == 11 || c == 12 || c == 13 || c == 32
}

/// The cleanup: whitespace trimmed at both ends, then every `fio-`
/// tag removed.
pub fn clean_fio_version(raw: &Vec<u8>) -> (r: Vec<u8>)
    ensures
        r@ == strip_tag(trim_spec(raw@)),
{
    let mut a: usize = 0;
    while a < raw.len() && is_ws_byte(raw[a])
        invariant
            a <= raw.len(),
            forall|j: int| 0 <= j < a ==> is_ws(raw@[j]),
        decreases raw.len() - a,
    {
        a += 1;
    }
    let mut b: usize = raw.len();
    while b > a && is_ws_byte(raw[b - 1])
        invariant
            a <= b <= raw.len(),
            forall|j: int| b <= j < raw.len() ==> is_ws(raw@[j]),
        decreases b,
    {
        b -= 1;
    }
    let ghost trimmed = raw@.subrange(a as int, b as int);
    proof {
        lemma_trim_left_at(raw@, a as int);
        let t = raw@.skip(a as int);
        assert forall|j: int| (b - a) <= j < t.len() implies is_ws(t[j]) by {
            assert(t[j] == raw@[j + a]);
        }
        if b > a {
            assert(t[b - a - 1] == raw@[b - 1]);
            assert(!is_ws(t[b - a - 1]));
        }
        lemma_trim_right_at(t, b - a as int);
        assert(t.take(b - a as int) =~= trimmed);
        assert(trim_spec(raw@) == trimmed);
    }
    // strip every tag occurrence from the trimmed text
    let mut out: Vec<u8> = Vec::new();
    let mut i: usize = a;
    proof {
        assert(trimmed.skip(0) =~= trimmed);
        assert(out@ =~= Seq::<u8>::empty());
    }
    while i < b
        invariant
            a <= i <= b <= raw.len(),
            trimmed == raw@.subrange(a as int, b as int),
            strip_tag(trimmed) == out@ + strip_tag(trimmed.skip(i - a as int)),
        decreases b - i,
    {
        let ghost rem = trimmed.skip(i - a as int);
        if b - i >= 4 && raw[i] == 102 && raw[i + 1] == 105 && raw[i + 2] == 111 && raw[i + 3]
            == 45 {
            proof {
                assert forall|j: int| 0 <= j < 4 implies rem.take(4)[j] == tool_tag()[j] by {
                    assert(rem[j] == raw@[i + a - a + j]);
                }
                assert(rem.take(4) =~= tool_tag());
                assert(rem.skip(4) =~= trimmed.skip(i + 4 - a as int));
            }
            i += 4;
        } else {
            proof {
                if rem.len() >= 4 {
                    assert(rem[0] == raw@[i as int]);
                    assert(rem[1] == raw@[i + 1]);
                    assert(rem[2] == raw@[i + 2]);
                    assert(rem[3] == raw@[i + 3]);
                    if rem.take(4) == tool_tag() {
                        assert(rem.take(4)[0] == 102u8 && rem.take(4)[1] == 105u8 && rem.take(4)[2]
                            == 111u8 && rem.take(4)[3] == 45u8);
                        assert(false);
                    }
                }
                assert(rem[0] == raw@[i as int]);
                assert(rem.skip(1) =~= trimmed.skip(i + 1 - a as int));
            }
            out.push(raw[i]);
            proof {
                assert(out@ =~= (out@.subrange(0, out@.len() - 1)) + seq![raw@[i as int]]);
            }
            i += 1;
        }
    }
    proof {
        assert(trimmed.skip(b - a as int) =~= Seq::<u8>::empty());
        assert(strip_tag(Seq::<u8>::empty()) =~= Seq::<u8>::empty());
        assert(out@ + Seq::<u8>::empty() =~= out@);
    }
    out
}

} // verus!
