//! The contract between the store and the application's component values.
//!
//! The store is generic over one application-supplied value type, typically a
//! closed tagged variant with one arm per concrete component kind. Each value
//! carries a stable type key that names its kind, and a byte encoding owned by
//! the application's codec. The store never looks inside a value: it routes,
//! copies and persists values purely through this trait.

use vstd::prelude::*;

verus! {

/// A family of component values: each value names its kind by a stable type
/// key and round-trips through an application-owned byte encoding.
///
/// Implementations live outside this crate; a caller is responsible for
/// meeting the stated contracts, which the proofs here rely on.
pub trait Component: Sized {
    /// The type key of this value.
    spec fn key(self) -> u128;

    /// The bytes this value encodes to.
    spec fn enc(self) -> Seq<u8>;

    /// What decoding a payload of the given type key yields.
    spec fn dec(key: u128, bytes: Seq<u8>) -> Option<Self>;

    /// The stable type key distinguishing this value's kind.
    fn type_key(&self) -> (k: u128)
        ensures
            k == self.key(),
    ;

    /// Encodes the value for persistence.
    fn encode(&self) -> (b: Vec<u8>)
        ensures
            b@ == self.enc(),
    ;

    /// Decodes a persisted payload of the given type key; a decoded value is
    /// of the kind the key names.
    fn decode(key: u128, bytes: &[u8]) -> (r: Option<Self>)
        ensures
            r == Self::dec(key, bytes@),
            r matches Some(v) ==> v.key() == key,
    ;

    /// An owned copy equal to this value.
    fn duplicate(&self) -> (r: Self)
        ensures
            r == *self,
    ;
}

/// A component kind fit for a singleton slot: it has a default value for each
/// type key, the value the slot holds from registration and returns to on
/// clear.
pub trait Singleton: Component {
    /// The default value of the kind the given type key names.
    spec fn default_spec(key: u128) -> Self;

    /// Builds the default value for a type key; its key is that key.
    fn default_for(key: u128) -> (r: Self)
        ensures
            r == Self::default_spec(key),
            r.key() == key,
    ;
}

} // verus!
