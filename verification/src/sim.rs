//! A simulated register port: scripted hardware replies, recorded events.
//!
//! [`SimTwi`] implements [`TwiPort`] entirely in memory. It is constructed
//! with a script of [`TwiReply`] values that are consumed one per protocol
//! step; once the script runs out every further step reports a silent
//! device (status zero), which matches no expected code. Every event the
//! master puts on the wire is recorded and can be read back.

use vstd::prelude::*;

use crate::bus::BusEvent;
use crate::bus::TwiPort;
use crate::bus::TwiReply;

verus! {

/// The reply of a device that never answers: no collision, status zero,
/// data zero. Status zero matches no expected protocol code.
pub open spec fn silent_reply() -> TwiReply {
    TwiReply { wc: false, status: 0, data: 0 }
}

/// An in-memory two-wire port driven by a reply script.
pub struct SimTwi {
    script: Vec<TwiReply>,
    log: Vec<BusEvent>,
    taken: Ghost<nat>,
}

impl SimTwi {
    /// Build a port that will play back `script`, one reply per step.
    pub fn new(script: Vec<TwiReply>) -> (r: Self)
        ensures
            r.wire() == Seq::<BusEvent>::empty(),
            r.consumed() == 0,
            forall|i: nat|
                r.reply(i) == if i < script@.len() {
                    script@[i as int]
                } else {
                    silent_reply()
                },
    {
        SimTwi { script, log: Vec::new(), taken: Ghost(0) }
    }

    /// Read back everything the master has put on the wire.
    pub fn recorded(&self) -> (r: &Vec<BusEvent>)
        ensures
            r@ == self.wire(),
    {
        &self.log
    }

    /// Consume the next scripted reply; past the end of the script the
    /// device is silent.
    fn take_reply(&mut self) -> (rep: TwiReply)
        ensures
            rep == old(self).reply(old(self).consumed()),
            final(self).consumed() == old(self).consumed() + 1,
            final(self).wire() == old(self).wire(),
            forall|i: nat|
                i >= final(self).consumed() ==> final(self).reply(i) == old(self).reply(i),
    {
        let rep = if self.script.len() > 0 {
            self.script.remove(0)
        } else {
            TwiReply { wc: false, status: 0, data: 0 }
        };
        proof {
            self.taken@ = self.taken@ + 1;
        }
        rep
    }
}

impl TwiPort for SimTwi {
    closed spec fn wire(&self) -> Seq<BusEvent> {
        self.log@
    }

    closed spec fn reply(&self, i: nat) -> TwiReply {
        if i >= self.taken@ && i - self.taken@ < self.script@.len() {
            self.script@[i - self.taken@]
        } else {
            silent_reply()
        }
    }

    closed spec fn consumed(&self) -> nat {
        self.taken@
    }

    fn issue_start(&mut self) -> (st: u8) {
        let rep = self.take_reply();
        self.log.push(BusEvent::Start);
        rep.status
    }

    fn issue_stop(&mut self) {
        self.log.push(BusEvent::Stop);
    }

    fn transmit(&mut self, data: u8) -> (r: (bool, u8)) {
        let rep = self.take_reply();
        if !rep.wc {
            self.log.push(BusEvent::Write(data));
        }
        (rep.wc, rep.status)
    }

    fn receive(&mut self, ack: bool) -> (r: (u8, u8)) {
        let rep = self.take_reply();
        self.log.push(BusEvent::Read(ack));
        (rep.data, rep.status)
    }
}

} // verus!
