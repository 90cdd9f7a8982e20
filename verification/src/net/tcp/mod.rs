pub mod read_buf;
pub mod stream;
pub mod write_all;
