//! A lazily allocated receive buffer of fixed size, shared by the reads of
//! one thread.
use vstd::prelude::*;

verus! {

/// Size of the receive buffer (512 KiB).
pub const RECV_SIZE: usize = 524288;

/// A receive buffer that is allocated on first use.
pub struct SharedRecv {
    inner: Option<Vec<u8>>,
}

impl View for SharedRecv {
    type V = Option<Seq<u8>>;

    closed spec fn view(&self) -> Option<Seq<u8>> {
        match self.inner {
            Some(v) => Some(v@),
            None => None,
        }
    }
}

impl SharedRecv {
    /// No buffer yet.
    pub fn null() -> (r: Self)
        ensures
            r@ is None,
    {
        SharedRecv { inner: None }
    }

    /// Allocates the buffer (zeroed, `RECV_SIZE` bytes) unless it already
    /// exists.
    pub fn init(&mut self)
        ensures
            old(self)@ is Some ==> final(self)@ == old(self)@,
            old(self)@ is None ==> final(self)@ == Some(Seq::new(RECV_SIZE as nat, |i: int| 0u8)),
    {
        if self.inner.is_none() {
            let v: Vec<u8> = vec![0u8; RECV_SIZE];
            self.inner = Some(v);
            assert(self@->0 =~= Seq::new(RECV_SIZE as nat, |i: int| 0u8));
        }
    }

    /// The buffer, for reading into.
    pub fn get_mut(&mut self) -> (r: &mut [u8])
        requires
            old(self)@ is Some,
        ensures
            r@ == old(self)@->0,
            final(self)@ == Some(final(r)@),
    {
        match &mut self.inner {
            Some(v) => v.as_mut_slice(),
            None => vstd::pervasive::unreached(),
        }
    }
}

} // verus!
