use vstd::prelude::*;

pub mod access;
pub mod bucket;
pub mod bytes;
pub mod calls;
pub mod can;
pub mod client;
pub mod cluster;
pub mod codec;
pub mod file;
pub mod ids;
pub mod init;
pub mod folder;
pub mod fs;
pub mod http;
pub mod object_types;
pub mod objects;
pub mod order;
pub mod paths;
pub mod permission;
pub mod text;
pub mod tree;

verus! {

/// Millisecond divisor used to turn nanosecond timestamps into milliseconds.
pub const MILLISECONDS: u64 = 1_000_000;

pub fn ns_to_ms(ns: u64) -> (r: u64)
    ensures
        r == ns / MILLISECONDS,
{
    ns / MILLISECONDS
}

} // verus!
