use vstd::prelude::*;

pub mod buffer;
pub mod count;
pub mod extract;
pub mod partition;

pub use buffer::calculate_buffer_size;
pub use count::{count_newlines, LineCounter};
pub use extract::{RowFilter, RowStep};
pub use partition::{chunk_count, partition, worker_range, RowRange};
