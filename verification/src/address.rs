//! Decomposition of 64-bit addresses into tag / set-index / block-offset
//! fields, given a fixed split of the 64 address bits.

use vstd::prelude::*;

verus! {

/// Bits `[lo, lo + width)` of `x`, shifted down to the low end.
/// Bit 0 is the least significant bit; the range is half-open.
pub open spec fn field_bits(x: u64, lo: u64, width: u64) -> u64
    recommends
        lo + width <= 64,
{
    if width == 0 {
        0u64
    } else if width >= 64 {
        x
    } else {
        (x >> lo) & (((1u64 << width) - 1) as u64)
    }
}

/// A field of fewer than 64 bits is bounded by 2^width.
pub proof fn lemma_field_bits_bound(x: u64, lo: u64, width: u64)
    requires
        width < 64,
    ensures
        field_bits(x, lo, width) < (1u64 << width),
{
    if width == 0 {
        assert(1u64 << 0u64 == 1) by (bit_vector);
    } else {
        assert(((x >> lo) & (((1u64 << width) - 1) as u64)) < (1u64 << width)) by (bit_vector)
            requires
                0 < width < 64,
        ;
    }
}

/// Extracts bits `[lo, lo + width)` of `x`.
fn extract(x: u64, lo: u64, width: u64) -> (r: u64)
    requires
        lo + width <= 64,
    ensures
        r == field_bits(x, lo, width),
{
    if width == 0 {
        0
    } else if width == 64 {
        x
    } else {
        proof {
            assert(1u64 << width >= 1) by (bit_vector)
                requires
                    0 < width < 64,
            ;
        }
        let mask: u64 = (1u64 << width) - 1;
        (x >> lo) & mask
    }
}

/// The fixed tag/index split of a 64-bit address: the top `tag_bits` bits
/// are the tag, the `index_bits` bits below them are the set index, and
/// everything below those is the block offset.
#[derive(Clone, Copy, PartialEq, Eq, Structural)]
pub struct Address {
    pub tag_bits: usize,
    pub index_bits: usize,
}

impl Address {
    /// The two fields fit inside the 64 address bits.
    pub open spec fn wf(self) -> bool {
        self.tag_bits + self.index_bits <= 64
    }

    /// The tag field: bits `[64 - tag_bits, 64)` of the address.
    pub open spec fn spec_tag(self, address: u64) -> u64 {
        field_bits(address, (64 - self.tag_bits) as u64, self.tag_bits as u64)
    }

    /// The set-index field: bits `[64 - tag_bits - index_bits, 64 - tag_bits)`.
    pub open spec fn spec_index(self, address: u64) -> u64 {
        field_bits(
            address,
            ((64 - self.tag_bits) - self.index_bits) as u64,
            self.index_bits as u64,
        )
    }

    /// The block-offset field: bits `[0, 64 - tag_bits - index_bits)`.
    pub open spec fn spec_offset(self, address: u64) -> u64 {
        field_bits(address, 0, ((64 - self.tag_bits) - self.index_bits) as u64)
    }

    pub fn new(tag_bits: usize, index_bits: usize) -> (r: Address)
        requires
            tag_bits + index_bits <= 64,
        ensures
            r == (Address { tag_bits, index_bits }),
            r.wf(),
    {
        Address { tag_bits, index_bits }
    }

    pub fn tag(&self, address: u64) -> (r: u64)
        requires
            self.wf(),
        ensures
            r == self.spec_tag(address),
    {
        extract(address, (64 - self.tag_bits) as u64, self.tag_bits as u64)
    }

    pub fn index(&self, address: u64) -> (r: u64)
        requires
            self.wf(),
        ensures
            r == self.spec_index(address),
    {
        extract(address, ((64 - self.tag_bits) - self.index_bits) as u64, self.index_bits as u64)
    }

    pub fn _offset(&self, address: u64) -> (r: u64)
        requires
            self.wf(),
        ensures
            r == self.spec_offset(address),
    {
        extract(address, 0, ((64 - self.tag_bits) - self.index_bits) as u64)
    }
}

/// The tag and index fields occupy disjoint, contiguous bit ranges of the
/// address: re-attaching the index below the tag recovers the top
/// `tag_bits + index_bits` bits of the address in one piece.
#[verifier::rlimit(100)]
pub proof fn lemma_tag_index_partition(cfg: Address, address: u64)
    requires
        cfg.wf(),
    ensures
        (cfg.spec_tag(address) << (cfg.index_bits as u64)) | cfg.spec_index(address)
            == field_bits(
            address,
            ((64 - cfg.tag_bits) - cfg.index_bits) as u64,
            (cfg.tag_bits + cfg.index_bits) as u64,
        ),
{
    let tb = cfg.tag_bits as u64;
    let ib = cfg.index_bits as u64;
    if ib == 64 {
        assert((0u64 << 64u64) | address == address) by (bit_vector);
    } else {
        assert((field_bits(address, (64 - tb) as u64, tb) << ib) | field_bits(
            address,
            ((64 - tb) - ib) as u64,
            ib,
        ) == field_bits(address, ((64 - tb) - ib) as u64, (tb + ib) as u64)) by (bit_vector)
            requires
                tb + ib <= 64,
                ib < 64,
        ;
    }
}

} // verus!
