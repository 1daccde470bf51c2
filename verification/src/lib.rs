//! A git client core without I/O: input comes in as byte slices, output goes out as byte vectors.

use vstd::prelude::*;

pub mod build;
pub mod bundle;
pub mod bytes;
pub mod checkout;
pub mod cli;
pub mod clone;
pub mod delta;
pub mod err;
pub mod history;
pub mod http;
pub mod json;
pub mod laws;
pub mod log;
pub mod mcu;
pub mod object;
pub mod oid;
pub mod pack;
pub mod pkt;
pub mod protov0;
pub mod protov2;
pub mod publish;
pub mod push;
pub mod sha1;
pub mod sort;
pub mod text;
pub mod web;
pub mod zlib;

use object::Kind;
use oid::Oid;

verus! {

/// A store of objects: a pack, loose objects, memory.
pub trait Odb {
    /// The object with the given id: its kind and its body. A store that does not say otherwise is
    /// empty.
    open spec fn lookup(&self, oid: Seq<u8>) -> Option<(Kind, Seq<u8>)> {
        None
    }

    /// Reads an object; `None` if there is none with the id.
    fn read(&self, oid: &Oid) -> (r: Option<(Kind, Vec<u8>)>)
        ensures
            match r {
                Some((kind, body)) => self.lookup(oid@) == Some((kind, body@)),
                None => self.lookup(oid@) is None,
            },
    ;
}

} // verus!
