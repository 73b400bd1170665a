use vstd::prelude::*;

verus! {

/// The sizes of a buffer and of its encoded form, both in bits.
#[derive(Debug, Clone, Copy, PartialEq, Eq, Structural)]
pub struct EncodingStats {
    /// The size of the data, in bits.
    pub data_size: u128,
    /// The size of the encoded data, in bits.
    pub encoded_size: u128,
}

impl EncodingStats {
    /// The sizes of a buffer of `data_len` bytes and an encoded form of
    /// `encoded_len` bytes.
    pub open spec fn of(data_len: nat, encoded_len: nat) -> EncodingStats {
        EncodingStats {
            data_size: (8 * data_len) as u128,
            encoded_size: (8 * encoded_len) as u128,
        }
    }

    /// The sizes of `data` and of `encoded_data`, eight bits to the byte.
    pub fn new(data: &[u8], encoded_data: &[u8]) -> (stats: EncodingStats)
        ensures
            stats == EncodingStats::of(data@.len(), encoded_data@.len()),
            stats.data_size == 8 * data@.len(),
            stats.encoded_size == 8 * encoded_data@.len(),
    {
        let data_size: u128 = (data.len() as u128) * 8;
        let encoded_size: u128 = (encoded_data.len() as u128) * 8;
        EncodingStats { data_size, encoded_size }
    }
}

} // verus!
