pub mod config;
pub mod de;
pub mod error;
pub mod laws;
pub mod round_trip;
pub mod ser;
pub mod text;
pub mod value;

pub use crate::config::SerdeXml;
pub use crate::de::{from_str, Deserializer};
pub use crate::error::XmlError;
pub use crate::ser::{to_string, Serializer};
