//! How byte offsets of the device fall on objects.
use vstd::prelude::*;

verus! {

/// Sizes of the device, its sectors and its objects.
#[derive(Debug, Clone, Copy, PartialEq, Eq, Structural)]
pub struct BlockMap {
    pub device_size: u64,
    pub logical_sector_size: u32,
    pub object_size: u32,
}

/// Why sizes or an offset do not fit.
#[derive(Debug, Clone, Copy, PartialEq, Eq, Structural)]
pub enum BlockMapError {
    DeviceNotSectorAligned,
    ObjectNotSectorAligned,
    OffsetOutOfBounds,
}

/// `value` is a multiple of `factor`; of zero, only zero is.
pub open spec fn divides(value: int, factor: int) -> bool {
    if factor == 0 {
        value == 0
    } else {
        value % factor == 0
    }
}

/// The number of parts of at most `part` that `whole` falls into.
pub open spec fn parts_of(whole: int, part: int) -> int {
    (whole + part - 1) / part
}

/// Tells whether `value` is a multiple of `factor`.
pub fn is_multiple(value: u64, factor: u64) -> (multiple: bool)
    ensures
        multiple == divides(value as int, factor as int),
{
    if factor == 0 {
        value == 0
    } else {
        value % factor == 0
    }
}

/// The number of parts of at most `part` that `whole` falls into.
pub fn count_parts(whole: u64, part: u64) -> (count: u64)
    requires
        part > 0,
    ensures
        count == parts_of(whole as int, part as int),
{
    let quotient = whole / part;
    let rest = whole % part;
    proof {
        let w = whole as int;
        let p = part as int;
        let q = quotient as int;
        let r = rest as int;
        vstd::arithmetic::div_mod::lemma_fundamental_div_mod(w, p);
        assert(w == p * q + r);
        assert(q <= w) by (nonlinear_arith)
            requires
                w == p * q + r,
                p >= 1,
                q >= 0,
                r >= 0,
        ;
        if r > 0 {
            assert(w + p - 1 == (q + 1) * p + (r - 1)) by (nonlinear_arith)
                requires
                    w == p * q + r,
            ;
            vstd::arithmetic::div_mod::lemma_fundamental_div_mod_converse(w + p - 1, p, q + 1, r - 1);
            assert(q + 1 <= w) by (nonlinear_arith)
                requires
                    w == p * q + r,
                    p >= 1,
                    q >= 0,
                    r >= 1,
            ;
        } else {
            assert(w + p - 1 == q * p + (p - 1)) by (nonlinear_arith)
                requires
                    w == p * q + r,
                    r == 0,
            ;
            vstd::arithmetic::div_mod::lemma_fundamental_div_mod_converse(w + p - 1, p, q, p - 1);
        }
    }
    if rest > 0 {
        quotient + 1
    } else {
        quotient
    }
}

impl BlockMap {
    /// Checks that device and objects consist of whole sectors.
    pub fn new(device_size: u64, logical_sector_size: u32, object_size: u32) -> (result: Result<
        Self,
        BlockMapError,
    >)
        ensures
            result == if !divides(device_size as int, logical_sector_size as int) {
                Err::<BlockMap, BlockMapError>(BlockMapError::DeviceNotSectorAligned)
            } else if !divides(object_size as int, logical_sector_size as int) {
                Err(BlockMapError::ObjectNotSectorAligned)
            } else {
                Ok(BlockMap { device_size, logical_sector_size, object_size })
            },
    {
        if !is_multiple(device_size, logical_sector_size as u64) {
            return Err(BlockMapError::DeviceNotSectorAligned);
        }
        if !is_multiple(object_size as u64, logical_sector_size as u64) {
            return Err(BlockMapError::ObjectNotSectorAligned);
        }
        Ok(BlockMap { device_size, logical_sector_size, object_size })
    }

    /// The number of objects that the device falls into.
    pub fn object_count(&self) -> (count: u64)
        requires
            self.object_size > 0,
        ensures
            count == parts_of(self.device_size as int, self.object_size as int),
    {
        count_parts(self.device_size, self.object_size as u64)
    }

    /// The object that holds an offset, and the place in it.
    pub fn locate(&self, offset: u64) -> (result: Result<(u64, usize), BlockMapError>)
        requires
            offset < self.device_size ==> self.object_size > 0,
        ensures
            match result {
                Ok((object_id, place)) => offset < self.device_size && place < self.object_size
                    && object_id == offset as int / self.object_size as int && place == offset as int
                    % self.object_size as int,
                Err(error) => offset >= self.device_size && error
                    == BlockMapError::OffsetOutOfBounds,
            },
    {
        if offset >= self.device_size {
            return Err(BlockMapError::OffsetOutOfBounds);
        }
        let size = self.object_size as u64;
        Ok((offset / size, (offset % size) as usize))
    }
}

/// Every byte of the device has exactly one place: the object that holds an offset
/// is one of the counted objects, and object and place give the offset back.
pub proof fn law_places_are_exact(map: BlockMap, offset: int)
    requires
        map.object_size > 0,
        0 <= offset < map.device_size,
    ensures
        ({
            let size = map.object_size as int;
            &&& 0 <= offset / size < parts_of(map.device_size as int, size)
            &&& 0 <= offset % size < size
            &&& (offset / size) * size + offset % size == offset
        }),
{
    let size = map.object_size as int;
    let device = map.device_size as int;
    vstd::arithmetic::div_mod::lemma_fundamental_div_mod(offset, size);
    let q = offset / size;
    assert(size * q == q * size) by (nonlinear_arith);
    assert((q + 1) * size == q * size + size) by (nonlinear_arith);
    vstd::arithmetic::div_mod::lemma_fundamental_div_mod(device + size - 1, size);
    let n = parts_of(device, size);
    assert(size * n == n * size) by (nonlinear_arith);
    assert(n > q) by (nonlinear_arith)
        requires
            n * size >= device,
            q * size <= offset,
            offset < device,
            size > 0,
    ;
    assert(q >= 0) by (nonlinear_arith)
        requires
            offset >= 0,
            size > 0,
            q * size + offset % size == offset,
            offset % size < size,
    ;
}

} // verus!
