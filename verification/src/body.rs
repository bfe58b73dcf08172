use vstd::prelude::*;

verus! {

/// The payload of a message: nothing, or a run of bytes.
#[derive(Debug)]
pub enum HttpBody {
    Empty,
    Content(Vec<u8>),
}

impl View for HttpBody {
    type V = Option<Seq<u8>>;

    open spec fn view(&self) -> Option<Seq<u8>> {
        match self {
            HttpBody::Empty => None,
            HttpBody::Content(bytes) => Some(bytes@),
        }
    }
}

impl HttpBody {
    /// The bytes that go on the wire for this body.
    pub open spec fn bytes(self) -> Seq<u8> {
        match self {
            HttpBody::Empty => Seq::empty(),
            HttpBody::Content(bytes) => bytes@,
        }
    }

    /// How many bytes the body has; none for an empty one.
    pub fn len(&self) -> (n: usize)
        ensures
            n == self.bytes().len(),
    {
        match self {
            HttpBody::Empty => 0,
            HttpBody::Content(bytes) => bytes.len(),
        }
    }
}

} // verus!
