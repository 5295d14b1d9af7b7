//! Object headers: a `u64` written in front of every object sent between porters. The lower
//! 16 bits hold the size of the object's metadata and the upper 48 bits the size of its data.

use vstd::prelude::*;

verus! {

/// Largest metadata size accepted when sending an object: the largest that the 16-bit field of
/// the header can hold.
pub const MAX_META_SIZE: u64 = 65_535;

/// Largest data size accepted when sending an object: the largest that the 48-bit field of the
/// header can hold.
pub const MAX_DATA_SIZE: u64 = 281_474_976_710_655;

/// Errors building an object header.
#[derive(Debug, Clone, Copy, PartialEq, Eq, Structural)]
pub enum HeaderError {
    /// The metadata is larger than `MAX_META_SIZE`; carries the metadata size.
    ObjectMetaTooLarge(usize),
    /// The data is larger than `MAX_DATA_SIZE`; carries the metadata size of the object.
    ObjectDataTooLarge(usize),
}

/// The header of an object with `meta_len` bytes of metadata and `data_len` bytes of data: the
/// metadata size in the low 16 bits and the data size in the 48 bits above them, or the error
/// naming the first size that does not fit.
pub open spec fn object_header(meta_len: usize, data_len: usize) -> Result<u64, HeaderError> {
    if meta_len > MAX_META_SIZE {
        Err(HeaderError::ObjectMetaTooLarge(meta_len))
    } else if data_len > MAX_DATA_SIZE {
        Err(HeaderError::ObjectDataTooLarge(meta_len))
    } else {
        Ok((meta_len + data_len * 65536) as u64)
    }
}

/// Creates the header of an object with `meta_len` bytes of metadata and `data_len` bytes of
/// data: the metadata size in the low bits, OR-ed with the data size shifted left by 16.
pub fn build_object_header(meta_len: usize, data_len: usize) -> (r: Result<u64, HeaderError>)
    ensures
        r == object_header(meta_len, data_len),
{
    let meta_size = meta_len as u64;
    if meta_size > MAX_META_SIZE {
        return Err(HeaderError::ObjectMetaTooLarge(meta_size as usize));
    }
    let data_size = data_len as u64;
    if data_size > MAX_DATA_SIZE {
        return Err(HeaderError::ObjectDataTooLarge(meta_size as usize));
    }
    assert(meta_size | (data_size << 16u64) == meta_size + data_size * 65536) by (bit_vector)
        requires
            meta_size <= 65535,
            data_size <= 281_474_976_710_655u64,
    ;
    Ok(meta_size | (data_size << 16u64))
}

/// Breaks an object header into the metadata size (lower 16 bits) and the data size (upper 48
/// bits).
pub fn parse_object_header(header: u64) -> (r: (usize, usize))
    ensures
        r.0 == header % 65536,
        r.1 == (header / 65536) as usize,
{
    let meta_size = (header as u16) as usize;
    let data_size = (header >> 16u64) as usize;
    assert(header as u16 == header % 65536) by (bit_vector);
    assert(header >> 16u64 == header / 65536) by (bit_vector);
    (meta_size, data_size)
}

/// Round trip: parsing a header that `build_object_header` built gives back the metadata and
/// data sizes it was built from.
pub proof fn lemma_header_round_trip(meta_len: usize, data_len: usize, header: u64)
    requires
        object_header(meta_len, data_len) == Ok::<u64, HeaderError>(header),
    ensures
        header % 65536 == meta_len,
        (header / 65536) as usize == data_len,
{
    assert(meta_len < 65536 && data_len < 281_474_976_710_656);
    assert(header == meta_len + data_len * 65536);
    assert((meta_len + data_len * 65536) % 65536 == meta_len as int) by (nonlinear_arith)
        requires
            0 <= meta_len < 65536,
            data_len >= 0,
    ;
    assert((meta_len + data_len * 65536) / 65536 == data_len as int) by (nonlinear_arith)
        requires
            0 <= meta_len < 65536,
            data_len >= 0,
    ;
}

} // verus!
