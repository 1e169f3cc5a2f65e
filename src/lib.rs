//! Reading and writing CDB ("constant database") files: an immutable,
//! on-disk associative array from byte-string keys to byte-string values,
//! with multiple values per key, fast keyed lookup and sequential iteration.
//!
//! The library works on bytes: a reader is built from the whole file image,
//! and the writer hands back the bytes to be written. Files, mapping and the
//! atomic rename live with the caller.
pub mod error;
pub mod hash;
pub mod image;
pub mod reader;
pub mod uint32;
pub mod writer;

pub use crate::error::{err_badfile, err_toobig, Error};
pub use crate::reader::{CDBKeyValueIter, CDBValueIter, CDB};
pub use crate::uint32::{pack, pack2, unpack, unpack2};
pub use crate::writer::{CDBMake, HashPos};
