//! A relation compiled to bytecode, ready for the simulator.

use vstd::prelude::*;
use crate::ir::{FloatPatch, le_u64};

verus! {

/// A compiled relation: its name, an estimate of its cost, and its bytecode.
/// The bits of real immediates are written into the bytecode at the places
/// `float_patches` lists (see `write_immediate`).
#[derive(PartialEq, Debug)]
pub struct CompiledRel {
    pub name: String,
    pub complexity: usize,
    pub bytecode: Vec<u8>,
    pub float_patches: Vec<FloatPatch>,
}

/// Writes the eight little-endian bytes of `bits` at `pos`, where the
/// encoding of an immediate goes.
pub fn write_immediate(bytes: &mut Vec<u8>, pos: usize, bits: u64)
    requires
        pos + 8 <= old(bytes)@.len(),
    ensures
        final(bytes)@ == old(bytes)@.subrange(0, pos as int) + le_u64(bits)
            + old(bytes)@.subrange(pos + 8, old(bytes)@.len() as int),
{
    let len = bytes.len();
    assert(pos + 8 <= len);
    bytes.set(pos, bits as u8);
    bytes.set(pos + 1, (bits >> 8u64) as u8);
    bytes.set(pos + 2, (bits >> 16u64) as u8);
    bytes.set(pos + 3, (bits >> 24u64) as u8);
    bytes.set(pos + 4, (bits >> 32u64) as u8);
    bytes.set(pos + 5, (bits >> 40u64) as u8);
    bytes.set(pos + 6, (bits >> 48u64) as u8);
    bytes.set(pos + 7, (bits >> 56u64) as u8);
    assert(final(bytes)@ =~= old(bytes)@.subrange(0, pos as int) + le_u64(bits)
        + old(bytes)@.subrange(pos + 8, old(bytes)@.len() as int));
}

} // verus!
