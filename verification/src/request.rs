//! A message of the handshake: its bytes, and the descriptors that travel
//! with it.
use vstd::prelude::*;
use crate::error::RtipcError;
use crate::unix::MAX_FD;

verus! {

/// The bytes of a message and its descriptors, each of which can be taken
/// once.
pub struct Request {
    msg: Vec<u8>,
    fds: Vec<i32>,
}

impl Request {
    /// The bytes of the message.
    pub closed spec fn content(&self) -> Seq<u8> {
        self.msg@
    }

    /// The descriptors of the message; a taken one is `-1`.
    pub closed spec fn descriptors(&self) -> Seq<i32> {
        self.fds@
    }

    /// A message with the given bytes and descriptors.
    pub fn new(msg: Vec<u8>, fds: Vec<i32>) -> (r: Self)
        ensures
            r.content() == msg@,
            r.descriptors() == fds@,
    {
        Request { msg, fds }
    }

    /// The bytes of the message.
    pub fn msg(&self) -> (r: &Vec<u8>)
        ensures
            r@ == self.content(),
    {
        &self.msg
    }

    /// The descriptors of the message, as they are sent.
    pub fn fds(&self) -> (r: &Vec<i32>)
        ensures
            r@ == self.descriptors(),
    {
        &self.fds
    }

    /// Takes the descriptor at `index`. There is none where the message has
    /// no such place or the descriptor was taken before.
    pub fn take_fd(&mut self, index: usize) -> (r: Option<i32>)
        ensures
            final(self).content() == old(self).content(),
            r.is_some() <==> index < old(self).descriptors().len() && old(
                self,
            ).descriptors()[index as int] >= 0,
            r matches Some(fd) ==> {
                &&& fd == old(self).descriptors()[index as int]
                &&& final(self).descriptors() == old(self).descriptors().update(index as int, -1i32)
            },
            r.is_none() ==> final(self).descriptors() == old(self).descriptors(),
    {
        if index >= self.fds.len() {
            return None;
        }
        let fd: i32 = self.fds[index];
        if fd < 0 {
            None
        } else {
            self.fds[index] = -1;
            Some(fd)
        }
    }

    /// Takes every descriptor that is still there, in order.
    pub fn take_fds(&mut self) -> (r: Vec<i32>)
        ensures
            final(self).content() == old(self).content(),
            r@ == old(self).descriptors().filter(|fd: i32| fd >= 0),
            final(self).descriptors() == Seq::<i32>::empty(),
    {
        let mut taken: Vec<i32> = Vec::new();
        let mut i: usize = 0;
        let ghost all = self.fds@;
        proof {
            assert(all.take(0) =~= Seq::<i32>::empty());
        }
        while i < self.fds.len()
            invariant
                0 <= i <= self.fds@.len(),
                self.fds@ == all,
                self.msg@ == old(self).msg@,
                taken@ == all.take(i as int).filter(|fd: i32| fd >= 0),
            decreases self.fds@.len() - i,
        {
            let fd: i32 = self.fds[i];
            proof {
                assert(all.take(i + 1) =~= all.take(i as int).push(fd));
                all.take(i as int).lemma_filter_push(fd, |fd: i32| fd >= 0);
            }
            if fd >= 0 {
                taken.push(fd);
            }
            i = i + 1;
        }
        proof {
            assert(all.take(all.len() as int) =~= all);
        }
        self.fds.clear();
        taken
    }

    /// Adds a descriptor; `RtipcError::Argument` where the message holds
    /// `MAX_FD` descriptors already, and is then unchanged.
    pub fn add_fd(&mut self, fd: i32) -> (r: Result<(), RtipcError>)
        ensures
            final(self).content() == old(self).content(),
            r.is_ok() <==> old(self).descriptors().len() < MAX_FD,
            r.is_ok() ==> final(self).descriptors() == old(self).descriptors().push(fd),
            r matches Err(e) ==> e == RtipcError::Argument && final(self).descriptors() == old(
                self,
            ).descriptors(),
    {
        if self.fds.len() >= MAX_FD {
            return Err(RtipcError::Argument);
        }
        self.fds.push(fd);
        Ok(())
    }
}

} // verus!
