//! The backend choice a run is made with, and how a command-line
//! name selects it.

use vstd::prelude::*;

use crate::doc::bytes_eq;

verus! {

/// The two interchangeable measurement backends.
#[derive(Clone, Copy, Debug, PartialEq, Eq, Structural)]
pub enum Backend {
    /// The external load-generation tool, run as a subprocess.
    Fio,
    /// The embedded read/write verification engine.
    Disktest,
}

/// The backend name `fio`.
pub open spec fn fio_name() -> Seq<u8> {
    seq![102u8, 105u8, 111u8]
}

/// The backend name `disktest`.
pub open spec fn disktest_name() -> Seq<u8> {
    seq![100u8, 105u8, 115u8, 107u8, 116u8, 101u8, 115u8, 116u8]
}

/// The exec bytes of `fio`.
pub fn fio_name_bytes() -> (r: Vec<u8>)
    ensures
        r@ == fio_name(),
{
    let mut v: Vec<u8> = Vec::new();
    v.push(102);
    v.push(105);
    v.push(111);
    proof {
        assert(v@ =~= fio_name());
    }
    v
}

/// The exec bytes of `disktest`.
pub fn disktest_name_bytes() -> (r: Vec<u8>)
    ensures
        r@ == disktest_name(),
{
    let mut v: Vec<u8> = Vec::new();
    v.push(100);
    v.push(105);
    v.push(115);
    v.push(107);
    v.push(116);
    v.push(101);
    v.push(115);
    v.push(116);
    proof {
        assert(v@ =~= disktest_name());
    }
    v
}

/// The backend a command-line name selects: `fio` or `disktest`, and
/// `Fio` for anything else.
pub fn backend_of(s: &Vec<u8>) -> (r: Backend)
    ensures
        r == if s@ == fio_name() {
            Backend::Fio
        } else if s@ == disktest_name() {
            Backend::Disktest
        } else {
            Backend::Fio
        },
{
    if bytes_eq(s, &fio_name_bytes()) {
        Backend::Fio
    } else if bytes_eq(s, &disktest_name_bytes()) {
        Backend::Disktest
    } else {
        Backend::Fio
    }
}

} // verus!
