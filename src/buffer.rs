use vstd::prelude::*;

verus! {

/// Size of the smallest read buffer, for files under one mebibyte.
pub const SMALL_BUFFER: usize = 8192;

/// One mebibyte.
pub const MIB: u64 = 1048576;

/// One gibibyte.
pub const GIB: u64 = 1073741824;

/// The read-buffer size chosen for a file of `file_size` bytes.
pub open spec fn buffer_size_for(file_size: u64) -> nat {
    if file_size < MIB {
        SMALL_BUFFER as nat
    } else if file_size < GIB {
        MIB as nat
    } else {
        GIB as nat
    }
}

/// Picks a read-buffer size from the size of the file: larger files get
/// larger buffers, so that fewer reads are needed.
pub fn calculate_buffer_size(file_size: u64) -> (r: usize)
    ensures
        r as nat == buffer_size_for(file_size),
{
    if file_size < MIB {
        SMALL_BUFFER
    } else if file_size < GIB {
        MIB as usize
    } else {
        GIB as usize
    }
}

/// The buffer size is always one of the three tiers.
pub proof fn lemma_buffer_size_tiers(file_size: u64)
    ensures
        buffer_size_for(file_size) == SMALL_BUFFER as nat
            || buffer_size_for(file_size) == MIB as nat
            || buffer_size_for(file_size) == GIB as nat,
{
}

/// A larger file never gets a smaller buffer.
pub proof fn lemma_buffer_size_monotonic(a: u64, b: u64)
    requires
        a <= b,
    ensures
        buffer_size_for(a) <= buffer_size_for(b),
{
}

} // verus!
