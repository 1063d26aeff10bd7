use vstd::prelude::*;

verus! {

/// A JSON Web Key, held as opaque key-material bytes. Generating fresh key
/// material and stripping private fields are cryptographic concerns that
/// live with the application around this library; here a key is a value
/// compared and carried, never interpreted.
#[derive(Clone, Debug, PartialEq, Eq)]
pub struct JWK(pub Vec<u8>);

impl View for JWK {
    type V = Seq<u8>;

    open spec fn view(&self) -> Seq<u8> {
        self.0@
    }
}

impl JWK {
    /// Wrap existing key-material bytes.
    pub fn new_from_bytes(bytes: Vec<u8>) -> (r: Self)
        ensures
            r@ == bytes@,
    {
        JWK(bytes)
    }
}

} // verus!
