use vstd::prelude::*;

pub mod adfgvx;
pub mod archive;
pub mod ai;
pub mod b64;
pub mod basex;
pub mod bifid;
pub mod bitgrid;
pub mod binfmt;
pub mod bkcrack;
pub mod blockcipher;
pub mod bmp;
pub mod brainfuck;
pub mod cancel;
pub mod classic;
pub mod compress;
pub mod error;
pub mod formats;
pub mod graph;
pub mod hexcodec;
pub mod input;
pub mod model;
pub mod node;
pub mod objfile;
pub mod objsyms;
pub mod packer;
pub mod peres;
pub mod pwhash;
pub mod readers;
pub mod stego;
pub mod text;
pub mod viz;
pub mod zipcrypto;
pub mod ziplist;

verus! {

/// The engine version.
pub fn core_version() -> (v: &'static str)
    ensures
        v@ == "0.1.0"@,
{
    "0.1.0"
}

} // verus!
