pub mod bytes;
pub mod deserializer;
pub mod error;
pub mod head;
pub mod metadata;
pub mod model;
pub mod round_trip;
pub mod serializer;
pub mod stream;

pub use self::error::Error;
pub use self::model::{ClassDesc, FieldDesc, FieldValue, NamedValue, ObjectValue, Shape, Value};
pub use self::serializer::{Compound, JvmSerializer};
pub use self::stream::{ObjectInputStream, ObjectOutputStream};
