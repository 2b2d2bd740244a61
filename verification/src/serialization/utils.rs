//! Writing and reading a single value.
use crate::error::Result;
use crate::serialization::{Deserialize, Deserializer, Serialize, Serializer};
use vstd::prelude::*;

verus! {

/// The bytes of `value`.
pub fn serialize<T: Serialize>(value: &T) -> (r: Result<Vec<u8>>)
    ensures
        match r {
            Ok(bytes) => value.writes(Seq::empty(), bytes@),
            Err(e) => value.refuses(Seq::empty(), e@),
        },
{
    let mut serializer = Serializer::new();
    value.serialize(&mut serializer)?;
    Ok(serializer.finish())
}

/// The value at the front of `data`.
pub fn deseriaze<'a, T: Deserialize<'a>>(data: &'a [u8]) -> (r: Result<T>)
    ensures
        match r {
            Ok(v) => exists|to: nat| T::reads(data@, 0, to, v),
            Err(e) => T::fails(data@, 0, e@),
        },
{
    let mut deserializer = Deserializer::new(data);
    T::deserialize(&mut deserializer)
}

/// The number of bytes of `value`.
pub fn serialized_sized<T: Serialize>(value: &T) -> (r: Result<usize>)
    ensures
        match r {
            Ok(n) => exists|bytes: Seq<u8>| value.writes(Seq::empty(), bytes) && n == bytes.len(),
            Err(e) => value.refuses(Seq::empty(), e@),
        },
{
    let mut serializer = Serializer::new();
    value.serialize(&mut serializer)?;
    Ok(serializer.size())
}

} // verus!
