use vstd::prelude::*;

verus! {

/// Geometry of a NAND image: page and spare-area sizes, erase-block size,
/// and the figures derived from them for the whole device.
#[derive(Copy, Clone, Debug)]
pub struct Config {
    pub page_size: usize,
    pub extra_size: usize,
    pub erase: usize,
    pub chunks_per_block: usize,
    pub nblocks: usize,
    pub nchunks: usize,
    pub block_size: usize,
    pub tags_offset: usize,
}

/// The number of spare areas that fit in an erase block, the factor by
/// which the device size is divided into blocks.
pub open spec fn spare_areas_per_erase(mtd_erase: int, mtd_extra_size: int) -> int {
    mtd_erase / mtd_extra_size
}

/// The size in bytes of the unit by which the device is counted in blocks.
pub open spec fn block_stride(mtd_page_size: int, mtd_extra_size: int, mtd_erase: int) -> int {
    spare_areas_per_erase(mtd_erase, mtd_extra_size) * (mtd_page_size + mtd_extra_size)
}

/// The inputs on which the geometry can be computed without a division by
/// zero or an overflow of `usize`.
pub open spec fn geometry_computable(
    device_size: int,
    mtd_page_size: int,
    mtd_extra_size: int,
    mtd_erase: int,
) -> bool {
    &&& mtd_page_size > 0
    &&& mtd_extra_size > 0
    &&& mtd_erase >= mtd_extra_size
    &&& mtd_page_size + mtd_extra_size <= usize::MAX
    &&& block_stride(mtd_page_size, mtd_extra_size, mtd_erase) <= usize::MAX
}

/// The geometry that `Config::new` computes.
pub open spec fn spec_config(
    device_size: int,
    mtd_page_size: int,
    mtd_extra_size: int,
    mtd_erase: int,
    offset: int,
) -> Config {
    let nblocks = device_size / block_stride(mtd_page_size, mtd_extra_size, mtd_erase);
    Config {
        page_size: mtd_page_size as usize,
        extra_size: mtd_extra_size as usize,
        erase: mtd_erase as usize,
        chunks_per_block: (mtd_erase / mtd_page_size) as usize,
        nblocks: nblocks as usize,
        nchunks: (nblocks * spare_areas_per_erase(mtd_erase, mtd_extra_size)) as usize,
        block_size: (mtd_page_size + mtd_extra_size) as usize,
        tags_offset: offset as usize,
    }
}

proof fn lemma_chunk_count_fits(device: nat, q: nat, b: nat)
    requires
        q > 0,
        b > 0,
        q * b <= usize::MAX,
        device <= usize::MAX,
    ensures
        (device / (q * b)) * q <= device,
        q * b > 0,
{
    assert(q * b > 0) by (nonlinear_arith)
        requires
            q > 0,
            b > 0,
    ;
    let n = device / (q * b);
    assert(n * (q * b) <= device) by (nonlinear_arith)
        requires
            q * b > 0,
            n == device / (q * b),
    ;
    assert(n * q <= n * (q * b)) by (nonlinear_arith)
        requires
            b > 0,
            n >= 0,
            q >= 0,
    ;
}

impl Config {
    /// Whether `Config::new` can compute the geometry of these inputs
    /// without a division by zero or an overflow.
    pub fn is_computable(
        device_size: usize,
        mtd_page_size: usize,
        mtd_extra_size: usize,
        mtd_erase: usize,
    ) -> (ok: bool)
        ensures
            ok == geometry_computable(
                device_size as int,
                mtd_page_size as int,
                mtd_extra_size as int,
                mtd_erase as int,
            ),
    {
        if mtd_page_size == 0 || mtd_extra_size == 0 || mtd_erase < mtd_extra_size {
            return false;
        }
        let block = match mtd_page_size.checked_add(mtd_extra_size) {
            Some(b) => b,
            None => {
                return false;
            },
        };
        let spares = mtd_erase / mtd_extra_size;
        spares.checked_mul(block).is_some()
    }

    /// Derives the geometry of a device of `device_size` bytes from its
    /// page size, spare-area size, erase-block size and the offset of the
    /// tags inside the spare area.
    pub fn new(
        device_size: usize,
        mtd_page_size: usize,
        mtd_extra_size: usize,
        mtd_erase: usize,
        offset: usize,
    ) -> (config: Self)
        requires
            geometry_computable(
                device_size as int,
                mtd_page_size as int,
                mtd_extra_size as int,
                mtd_erase as int,
            ),
        ensures
            config == spec_config(
                device_size as int,
                mtd_page_size as int,
                mtd_extra_size as int,
                mtd_erase as int,
                offset as int,
            ),
    {
        let spares = mtd_erase / mtd_extra_size;
        let block = mtd_page_size + mtd_extra_size;
        proof {
            assert(spares > 0) by (nonlinear_arith)
                requires
                    mtd_erase >= mtd_extra_size,
                    mtd_extra_size > 0,
                    spares == mtd_erase / mtd_extra_size,
            ;
            lemma_chunk_count_fits(device_size as nat, spares as nat, block as nat);
        }
        let stride = spares * block;
        let nblocks = device_size / stride;
        Self {
            page_size: mtd_page_size,
            extra_size: mtd_extra_size,
            erase: mtd_erase,
            chunks_per_block: mtd_erase / mtd_page_size,
            nblocks,
            nchunks: nblocks * spares,
            block_size: block,
            tags_offset: offset,
        }
    }
}

/// The geometry used when none is given: 2048-byte pages with 64-byte
/// spare areas in 128 KiB erase blocks, tags at offset 30, no blocks.
pub open spec fn default_config() -> Config {
    Config {
        page_size: 2048,
        extra_size: 64,
        erase: 131072,
        chunks_per_block: 2048,
        nblocks: 0,
        nchunks: 0,
        block_size: 2112,
        tags_offset: 30,
    }
}

impl Default for Config {
    fn default() -> (config: Self)
        ensures
            config == default_config(),
    {
        Self {
            page_size: 2048,
            extra_size: 64,
            erase: 131072,
            chunks_per_block: 131072 / 64,
            nblocks: 0,
            nchunks: 0,
            block_size: 2112,
            tags_offset: 30,
        }
    }
}

} // verus!
