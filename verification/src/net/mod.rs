pub mod tcp;

pub use crate::net::tcp::stream::TcpStream;
