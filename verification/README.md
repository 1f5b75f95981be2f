# jvm_serializable

Writes Rust values in the Java object serialization stream format and reads
them back, verified with Verus.

- `src/java/io/model.rs`: the plain values the library works on: a class
  description (`ClassDesc`), an object's fields (`ObjectValue`, each field
  with the Rust path of its value's type), and the shapes (`Shape`) and values
  (`Value`) a reader deals in.
- `src/java/io/bytes.rs`: big-endian encodings and length prefixes.
- `src/java/io/metadata.rs`: the class table, a map from type names.
- `src/java/io/serializer.rs`: the writer, a state machine specified by
  `ser_value`, `ser_field`, `ser_fields` and `ser_end`.
- `src/java/io/head.rs`: registering classes and writing the stream head.
- `src/java/io/deserializer.rs`: the reader, specified by `rd_head`,
  `rd_value` and `rd_tuple`. Each read asks for input that holds what it
  reads; the `can_read_*` methods tell beforehand.
- `src/java/io/stream.rs`: `ObjectOutputStream` and `ObjectInputStream`.
- `src/java/io/round_trip.rs`: what a reader gives back of what a writer wrote.
- `app/lib.rs`: the serde glue: it turns `Serialize`/`Deserialize` and
  `Serializable` impls into the library's values.
