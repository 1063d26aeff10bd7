use vstd::prelude::*;

verus! {

/// A public key in multibase format, held as the decoded bytes. The
/// self-describing base encoding and decoding of the wire text are a
/// serialization concern that lives with the application around this
/// library.
#[derive(Clone, Debug, Default, PartialEq, Eq, Hash)]
pub struct MultiBase(Vec<u8>);

impl View for MultiBase {
    type V = Seq<u8>;

    closed spec fn view(&self) -> Seq<u8> {
        self.0@
    }
}

impl MultiBase {
    /// Wrap decoded key bytes.
    pub fn from_bytes(bytes: Vec<u8>) -> (r: Self)
        ensures
            r@ == bytes@,
    {
        MultiBase(bytes)
    }

    /// The decoded key bytes.
    pub fn as_bytes(&self) -> (r: &Vec<u8>)
        ensures
            r@ == self@,
    {
        &self.0
    }
}

} // verus!
