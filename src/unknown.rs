//! Packets whose tag the library does not interpret.

use vstd::prelude::*;

verus! {

/// A packet kept as raw bytes because its tag is not understood.
#[derive(Debug)]
pub struct Unknown {
    tag: u8,
    body: Option<Vec<u8>>,
}

impl Unknown {
    /// A packet with this tag and no body yet.
    pub fn new(tag: u8) -> (r: Self)
        ensures
            r.spec_tag() == tag,
            r.spec_body() == None::<Seq<u8>>,
    {
        Unknown { tag, body: None }
    }

    pub closed spec fn spec_tag(&self) -> u8 {
        self.tag
    }

    pub closed spec fn spec_body(&self) -> Option<Seq<u8>> {
        match self.body {
            Some(b) => Some(b@),
            None => None,
        }
    }

    /// The packet's tag.
    pub fn tag(&self) -> (r: u8)
        ensures
            r == self.spec_tag(),
    {
        self.tag
    }

    /// Sets the packet's tag.
    pub fn set_tag(&mut self, tag: u8)
        ensures
            final(self).spec_tag() == tag,
            final(self).spec_body() == old(self).spec_body(),
    {
        self.tag = tag;
    }

    /// The packet's raw content: without the cipher type byte and the
    /// length, and not chunked.
    pub fn body(&self) -> (r: Option<&[u8]>)
        ensures
            match r {
                Some(b) => self.spec_body() == Some(b@),
                None => self.spec_body() is None,
            },
    {
        match &self.body {
            Some(b) => Some(b.as_slice()),
            None => None,
        }
    }

    /// Sets the packet's raw content.
    pub fn set_body(&mut self, data: Vec<u8>)
        ensures
            final(self).spec_body() == Some(data@),
            final(self).spec_tag() == old(self).spec_tag(),
    {
        self.body = Some(data);
    }
}

} // verus!
