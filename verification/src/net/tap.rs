//! The TAP-like network interface the MAC bridges to, and an in-memory
//! stand-in for tests: frames injected into it are received in order, and
//! frames sent through it are queued for the test to collect.
use vstd::prelude::*;
use std::collections::VecDeque;

verus! {

/// A failure of the network interface.
#[derive(Debug)]
pub enum TapError {
    /// The operating system refused the operation; the message says why.
    Io(String),
}

/// A network interface carrying Ethernet frames.
pub trait Tappable {
    fn iface_name(&self) -> Result<String, TapError>;

    /// Send one frame; the number of bytes sent.
    fn send(&mut self, buf: &[u8]) -> Result<usize, TapError>;

    /// Receive one frame into `buf`, if one is waiting; its length.
    fn recv(&mut self, buf: &mut [u8]) -> Result<Option<usize>, TapError>;

    fn set_nonblocking(&mut self, nb: bool) -> Result<(), TapError>;

    /// The interface name, or "sosw" when it cannot be had: the default
    /// mapping of what `iface_name` returned.
    fn name_string(&self) -> (s: String)
        ensures
            exists|r: Result<String, TapError>|
                call_ensures(Self::iface_name, (self,), r) && s@ == name_or_default(r),
    {
        let r = self.iface_name();
        let ghost rr = r;
        let s = match r {
            Ok(n) => n,
            Err(_) => "sosw".to_string(),
        };
        assert(call_ensures(Self::iface_name, (self,), rr) && s@ == name_or_default(rr));
        s
    }
}

/// The name that an `iface_name` result gives: the name itself, or "sosw"
/// on an error.
pub open spec fn name_or_default(r: Result<String, TapError>) -> Seq<char> {
    match r {
        Ok(n) => n@,
        Err(_) => "sosw"@,
    }
}

/// An in-memory interface: `inject` queues frames for `recv`, and `send`
/// queues frames for `sent`.
pub struct MockTap {
    name: String,
    recv_queue: VecDeque<Vec<u8>>,
    sent_queue: VecDeque<Vec<u8>>,
}

/// The byte views of queued frames.
pub open spec fn queue_view(q: Seq<Vec<u8>>) -> Seq<Seq<u8>> {
    Seq::new(q.len(), |i: int| q[i]@)
}

impl MockTap {
    pub closed spec fn spec_name(&self) -> Seq<char> {
        self.name@
    }

    /// Frames waiting to be received, oldest first.
    pub closed spec fn spec_incoming(&self) -> Seq<Seq<u8>> {
        queue_view(self.recv_queue@)
    }

    /// Frames sent and not yet collected, oldest first.
    pub closed spec fn spec_outgoing(&self) -> Seq<Seq<u8>> {
        queue_view(self.sent_queue@)
    }

    pub fn new(name: &str) -> (t: Self)
        ensures
            t.spec_name() == name@,
            t.spec_incoming() == Seq::<Seq<u8>>::empty(),
            t.spec_outgoing() == Seq::<Seq<u8>>::empty(),
    {
        let t = MockTap { name: name.to_string(), recv_queue: VecDeque::new(), sent_queue: VecDeque::new() };
        assert(t.spec_incoming() =~= Seq::<Seq<u8>>::empty());
        assert(t.spec_outgoing() =~= Seq::<Seq<u8>>::empty());
        t
    }

    /// Queue a frame for `recv`.
    pub fn inject(&mut self, packet: Vec<u8>)
        ensures
            final(self).spec_incoming() == old(self).spec_incoming().push(packet@),
            final(self).spec_outgoing() == old(self).spec_outgoing(),
            final(self).spec_name() == old(self).spec_name(),
    {
        self.recv_queue.push_back(packet);
        assert(self.spec_incoming() =~= old(self).spec_incoming().push(packet@));
    }

    /// Collect the oldest sent frame.
    pub fn sent(&mut self) -> (p: Option<Vec<u8>>)
        ensures
            old(self).spec_outgoing().len() == 0 ==> p.is_none() && final(self).spec_outgoing()
                == old(self).spec_outgoing(),
            old(self).spec_outgoing().len() > 0 ==> p.is_some() && p.unwrap()@ == old(
                self,
            ).spec_outgoing()[0] && final(self).spec_outgoing() == old(self).spec_outgoing().drop_first(),
            final(self).spec_incoming() == old(self).spec_incoming(),
            final(self).spec_name() == old(self).spec_name(),
    {
        let p = self.sent_queue.pop_front();
        assert(self.spec_outgoing() =~= if old(self).spec_outgoing().len() > 0 {
            old(self).spec_outgoing().drop_first()
        } else {
            old(self).spec_outgoing()
        });
        p
    }

    /// How many sent frames await collection.
    pub fn sent_count(&self) -> (n: usize)
        ensures
            n == self.spec_outgoing().len(),
    {
        self.sent_queue.len()
    }
}

impl Tappable for MockTap {
    fn iface_name(&self) -> (r: Result<String, TapError>)
        ensures
            r is Ok && r->Ok_0@ == self.spec_name(),
    {
        Ok(self.name.clone())
    }

    fn send(&mut self, buf: &[u8]) -> (r: Result<usize, TapError>)
        ensures
            r is Ok && r->Ok_0 == buf@.len(),
            final(self).spec_outgoing() == old(self).spec_outgoing().push(buf@),
            final(self).spec_incoming() == old(self).spec_incoming(),
            final(self).spec_name() == old(self).spec_name(),
    {
        self.sent_queue.push_back(vstd::slice::slice_to_vec(buf));
        assert(self.spec_outgoing() =~= old(self).spec_outgoing().push(buf@));
        Ok(buf.len())
    }

    fn recv(&mut self, buf: &mut [u8]) -> (r: Result<Option<usize>, TapError>)
        ensures
            r is Ok,
            final(buf)@.len() == old(buf)@.len(),
            old(self).spec_incoming().len() == 0 ==> r->Ok_0.is_none() && final(self).spec_incoming()
                == old(self).spec_incoming() && final(buf)@ == old(buf)@,
            old(self).spec_incoming().len() > 0 ==> {
                let pkt = old(self).spec_incoming()[0];
                let n = if pkt.len() < old(buf)@.len() {
                    pkt.len()
                } else {
                    old(buf)@.len()
                };
                &&& r->Ok_0 == Some(n as usize)
                &&& final(buf)@ == pkt.take(n as int) + old(buf)@.skip(n as int)
                &&& final(self).spec_incoming() == old(self).spec_incoming().drop_first()
            },
            final(self).spec_outgoing() == old(self).spec_outgoing(),
            final(self).spec_name() == old(self).spec_name(),
    {
        match self.recv_queue.pop_front() {
            Some(pkt) => {
                assert(self.spec_incoming() =~= old(self).spec_incoming().drop_first());
                let n = if pkt.len() < buf.len() {
                    pkt.len()
                } else {
                    buf.len()
                };
                let mut i: usize = 0;
                while i < n
                    invariant
                        n <= pkt@.len(),
                        n <= buf@.len(),
                        buf@.len() == old(buf)@.len(),
                        i <= n,
                        buf@ == pkt@.take(i as int) + old(buf)@.skip(i as int),
                    decreases n - i,
                {
                    buf[i] = pkt[i];
                    i = i + 1;
                    assert(buf@ =~= pkt@.take(i as int) + old(buf)@.skip(i as int));
                }
                Ok(Some(n))
            },
            None => {
                assert(self.spec_incoming() =~= old(self).spec_incoming());
                Ok(None)
            },
        }
    }

    fn set_nonblocking(&mut self, nb: bool) -> (r: Result<(), TapError>)
        ensures
            r is Ok,
            *final(self) == *old(self),
    {
        Ok(())
    }
}

} // verus!
