//! Bus-master driver for the two-wire serial interface.
//!
//! The master drives a slave device through four hardware registers (bit
//! rate, control, data, status). Register access is abstracted behind the
//! [`TwiPort`] trait: each protocol step (start condition, stop condition,
//! byte transmit, byte receive) is one port operation that appends an event
//! to a ghost wire log and consumes one [`TwiReply`] from a reply stream
//! that models what the hardware reports.

use vstd::prelude::*;

verus! {

/// Bit position of the completion flag in the control register.
pub const TWINT: u8 = 7;
/// Bit position of the acknowledge-enable bit in the control register.
pub const TWEA: u8 = 6;
/// Bit position of the start-request bit in the control register.
pub const TWSTA: u8 = 5;
/// Bit position of the stop-request bit in the control register.
pub const TWSTO: u8 = 4;
/// Bit position of the write-collision flag in the control register.
pub const TWWC: u8 = 3;
/// Bit position of the interface-enable bit in the control register.
pub const TWEN: u8 = 0;

/// Status code reported after a start condition has been transmitted.
pub const TW_START: u8 = 0x08;
/// Status code family: master transmitted a byte and the peer acknowledged.
pub const TW_MT_DATA_ACK: u8 = 0x28;
/// Status code family: master received a byte and returned an acknowledge.
pub const TW_MR_DATA_ACK: u8 = 0x50;
/// Mask that strips the prescaler bits from a raw status register value.
pub const STATUS_MASK: u8 = 0xF8;

/// One observable event on the two-wire bus, as seen by the slave device.
#[derive(Clone, Copy, PartialEq, Eq, Debug)]
pub enum BusEvent {
    /// A start condition was asserted.
    Start,
    /// A byte was driven onto the bus by the master.
    Write(u8),
    /// The master clocked in a byte; the flag says whether it acknowledged.
    Read(bool),
    /// A stop condition was asserted.
    Stop,
}

/// What the hardware reports for one protocol step: the write-collision
/// flag, the status register code, and (for receive steps) the data byte.
#[derive(Clone, Copy, PartialEq, Eq, Debug)]
pub struct TwiReply {
    /// Write-collision flag: the data register was loaded at the wrong time.
    pub wc: bool,
    /// Raw status register value (prescaler bits included).
    pub status: u8,
    /// Data register contents, meaningful for receive steps.
    pub data: u8,
}

/// Errors a bus transaction can fail with.
#[derive(Clone, Copy, PartialEq, Eq, Debug)]
pub enum I2cError {
    /// The peer did not acknowledge a transmitted byte.
    NackError,
    /// A status code did not match the expected code for the current step.
    ProtocolError,
    /// The hardware flagged a write collision on the data register.
    WriteCollision,
}

/// The status code with its prescaler bits stripped.
pub open spec fn code_of(st: u8) -> u8 {
    st & STATUS_MASK
}

/// A reply that reports a transmitted start condition.
pub open spec fn rep_started(rep: TwiReply) -> bool {
    code_of(rep.status) == TW_START
}

/// A reply that reports a cleanly transmitted and acknowledged byte.
pub open spec fn rep_mt_acked(rep: TwiReply) -> bool {
    !rep.wc && code_of(rep.status) == TW_MT_DATA_ACK
}

/// A reply that reports a cleanly received byte.
pub open spec fn rep_mr_acked(rep: TwiReply) -> bool {
    code_of(rep.status) == TW_MR_DATA_ACK
}

/// Address byte that opens a write transaction: address shifted left,
/// direction bit clear.
pub open spec fn sla_w(addr: u8) -> u8 {
    (addr << 1) as u8
}

/// Address byte that opens a read transaction: address shifted left,
/// direction bit set.
pub open spec fn sla_r(addr: u8) -> u8 {
    ((addr << 1) | 1) as u8
}

/// The wire events of driving each byte of `payload` onto the bus in order.
pub open spec fn writes_of(payload: Seq<u8>) -> Seq<BusEvent> {
    payload.map_values(|b: u8| BusEvent::Write(b))
}

/// The bytes a write transaction to `addr` puts on the bus when nothing
/// fails: the address byte, then the data bytes.
pub open spec fn wr_payload(addr: u8, bytes: Seq<u8>) -> Seq<u8> {
    seq![sla_w(addr)] + bytes
}

/// The wire events of the first `t` receive steps of an `n`-byte read:
/// every byte is acknowledged except the last of the `n`.
pub open spec fn reads_of(n: nat, t: nat) -> Seq<BusEvent> {
    Seq::new(t, |j: int| BusEvent::Read(j < n as int - 1))
}

/// Exclusive handle on the four two-wire registers.
///
/// An implementation performs one complete protocol step per call: it sets
/// the control register bits for the step, busy-waits on the completion
/// flag, and samples the status (and data) registers. The contract models
/// this as appending one event to the wire log `wire()` and consuming one
/// entry of the reply stream `reply(consumed())`; replies not yet consumed
/// are pinned by every operation.
pub trait TwiPort: Sized {
    /// Everything the master has put on the bus so far. The default model
    /// is an empty log; a verified port overrides it.
    open spec fn wire(&self) -> Seq<BusEvent> {
        Seq::<BusEvent>::empty()
    }

    /// The stream of hardware replies, indexed from the first step ever
    /// taken. The default model is a silent device; a verified port
    /// overrides it.
    open spec fn reply(&self, i: nat) -> TwiReply {
        TwiReply { wc: false, status: 0, data: 0 }
    }

    /// How many replies have been consumed so far.
    open spec fn consumed(&self) -> nat {
        0
    }

    /// Assert the start-request and enable bits, wait for completion, and
    /// return the raw status register value.
    fn issue_start(&mut self) -> (st: u8)
        ensures
            final(self).wire() == old(self).wire().push(BusEvent::Start),
            final(self).consumed() == old(self).consumed() + 1,
            st == old(self).reply(old(self).consumed()).status,
            forall|i: nat|
                i >= final(self).consumed() ==> final(self).reply(i) == old(self).reply(i),
    ;

    /// Assert the stop-request and enable bits and wait until the hardware
    /// clears the stop request. No status is reported for a stop.
    fn issue_stop(&mut self)
        ensures
            final(self).wire() == old(self).wire().push(BusEvent::Stop),
            final(self).consumed() == old(self).consumed(),
            forall|i: nat|
                i >= final(self).consumed() ==> final(self).reply(i) == old(self).reply(i),
    ;

    /// Load `data` into the data register and trigger a transmit step.
    /// Returns the write-collision flag and the raw status value; on a
    /// collision the byte never reaches the bus.
    fn transmit(&mut self, data: u8) -> (r: (bool, u8))
        ensures
            ({
                let rep = old(self).reply(old(self).consumed());
                &&& r.0 == rep.wc
                &&& r.1 == rep.status
                &&& final(self).consumed() == old(self).consumed() + 1
                &&& final(self).wire() == (if rep.wc {
                    old(self).wire()
                } else {
                    old(self).wire().push(BusEvent::Write(data))
                })
                &&& forall|i: nat|
                    i >= final(self).consumed() ==> final(self).reply(i) == old(self).reply(i)
            }),
    ;

    /// Trigger a receive step, acknowledging the byte iff `ack` is set, and
    /// return the data register contents and the raw status value.
    fn receive(&mut self, ack: bool) -> (r: (u8, u8))
        ensures
            ({
                let rep = old(self).reply(old(self).consumed());
                &&& r.0 == rep.data
                &&& r.1 == rep.status
                &&& final(self).consumed() == old(self).consumed() + 1
                &&& final(self).wire() == old(self).wire().push(BusEvent::Read(ack))
                &&& forall|i: nat|
                    i >= final(self).consumed() ==> final(self).reply(i) == old(self).reply(i)
            }),
    ;
}

/// The bus master: owns the register port and drives the strictly ordered
/// protocol (start, address, data bytes, stop) over it.
pub struct LocalI2C<P: TwiPort> {
    port: P,
}

impl<P: TwiPort> LocalI2C<P> {
    /// The wire log of the underlying port.
    pub closed spec fn wire(&self) -> Seq<BusEvent> {
        self.port.wire()
    }

    /// The reply stream of the underlying port.
    pub closed spec fn reply(&self, i: nat) -> TwiReply {
        self.port.reply(i)
    }

    /// How many hardware replies have been consumed.
    pub closed spec fn consumed(&self) -> nat {
        self.port.consumed()
    }

    /// Take exclusive ownership of the register port.
    pub fn new(port: P) -> (r: Self)
        ensures
            r.wire() == port.wire(),
            r.consumed() == port.consumed(),
            forall|i: nat| r.reply(i) == port.reply(i),
    {
        LocalI2C { port }
    }

    /// Borrow the underlying port, e.g. to inspect a simulated bus.
    pub fn port(&self) -> (r: &P)
        ensures
            r.wire() == self.wire(),
            r.consumed() == self.consumed(),
            forall|i: nat| r.reply(i) == self.reply(i),
    {
        &self.port
    }

    /// Assert a start condition and check that the hardware reports it
    /// transmitted; any other status is a protocol error.
    pub fn start(&mut self) -> (r: Result<(), I2cError>)
        ensures
            final(self).wire() == old(self).wire().push(BusEvent::Start),
            final(self).consumed() == old(self).consumed() + 1,
            forall|i: nat|
                i >= final(self).consumed() ==> final(self).reply(i) == old(self).reply(i),
            r is Ok <==> rep_started(old(self).reply(old(self).consumed())),
            r is Err ==> r == Err::<(), I2cError>(I2cError::ProtocolError),
    {
        let st = self.port.issue_start();
        if st & STATUS_MASK == TW_START {
            Ok(())
        } else {
            Err(I2cError::ProtocolError)
        }
    }

    /// Assert a stop condition, releasing the bus. Always succeeds once the
    /// hardware clears the stop request; no status is defined for a stop.
    pub fn stop(&mut self)
        ensures
            final(self).wire() == old(self).wire().push(BusEvent::Stop),
            final(self).consumed() == old(self).consumed(),
            forall|i: nat|
                i >= final(self).consumed() ==> final(self).reply(i) == old(self).reply(i),
    {
        self.port.issue_stop();
    }

    /// Transmit one byte and check the acknowledge status. A write collision
    /// is surfaced as [`I2cError::WriteCollision`]; a status outside the
    /// master-transmit acknowledged family as [`I2cError::NackError`].
    pub fn send_byte(&mut self, data: u8) -> (r: Result<(), I2cError>)
        ensures
            ({
                let rep = old(self).reply(old(self).consumed());
                &&& final(self).consumed() == old(self).consumed() + 1
                &&& final(self).wire() == (if rep.wc {
                    old(self).wire()
                } else {
                    old(self).wire().push(BusEvent::Write(data))
                })
                &&& forall|i: nat|
                    i >= final(self).consumed() ==> final(self).reply(i) == old(self).reply(i)
                &&& (r is Ok <==> rep_mt_acked(rep))
                &&& (rep.wc ==> r == Err::<(), I2cError>(I2cError::WriteCollision))
                &&& (!rep.wc && code_of(rep.status) != TW_MT_DATA_ACK ==> r == Err::<(),
                    I2cError,
                >(I2cError::NackError))
            }),
    {
        let (wc, st) = self.port.transmit(data);
        if wc {
            Err(I2cError::WriteCollision)
        } else if st & STATUS_MASK == TW_MT_DATA_ACK {
            Ok(())
        } else {
            Err(I2cError::NackError)
        }
    }

    /// Receive one byte, acknowledging it iff `ack` is set (a cleared
    /// acknowledge tells the peer this is the last byte). A status outside
    /// the master-receive acknowledged family is a protocol error.
    pub fn receive_byte(&mut self, ack: bool) -> (r: Result<u8, I2cError>)
        ensures
            ({
                let rep = old(self).reply(old(self).consumed());
                &&& final(self).consumed() == old(self).consumed() + 1
                &&& final(self).wire() == old(self).wire().push(BusEvent::Read(ack))
                &&& forall|i: nat|
                    i >= final(self).consumed() ==> final(self).reply(i) == old(self).reply(i)
                &&& (r is Ok <==> rep_mr_acked(rep))
                &&& (r is Ok ==> r == Ok::<u8, I2cError>(rep.data))
                &&& (r is Err ==> r == Err::<u8, I2cError>(I2cError::ProtocolError))
            }),
    {
        let (data, st) = self.port.receive(ack);
        if st & STATUS_MASK == TW_MR_DATA_ACK {
            Ok(data)
        } else {
            Err(I2cError::ProtocolError)
        }
    }

    /// How many of `n` consecutive transmit steps, whose replies start at
    /// index `base`, go through acknowledged before the first failure.
    pub open spec fn acked_steps(&self, base: nat, n: nat) -> nat
        decreases n,
    {
        if n == 0 {
            0
        } else if rep_mt_acked(self.reply(base)) {
            1 + self.acked_steps(base + 1, (n - 1) as nat)
        } else {
            0
        }
    }

    /// How many of `n` consecutive receive steps, whose replies start at
    /// index `base`, report the acknowledged-receive status.
    pub open spec fn recv_acked_steps(&self, base: nat, n: nat) -> nat
        decreases n,
    {
        if n == 0 {
            0
        } else if rep_mr_acked(self.reply(base)) {
            1 + self.recv_acked_steps(base + 1, (n - 1) as nat)
        } else {
            0
        }
    }

    /// The received-step count depends only on the replies it reads.
    proof fn lemma_recv_acked_steps_frame(a: &Self, b: &Self, base: nat, n: nat)
        requires
            forall|j: nat| base <= j < base + n ==> #[trigger] a.reply(j) == b.reply(j),
        ensures
            a.recv_acked_steps(base, n) == b.recv_acked_steps(base, n),
        decreases n,
    {
        if n > 0 {
            assert(a.reply(base) == b.reply(base));
            Self::lemma_recv_acked_steps_frame(a, b, base + 1, (n - 1) as nat);
        }
    }

    /// The acknowledged-step count never exceeds `n`, every counted step
    /// is acknowledged, and when the count falls short the step right
    /// after it is the failing one.
    pub(crate) proof fn lemma_acked_steps_props(&self, base: nat, n: nat)
        ensures
            self.acked_steps(base, n) <= n,
            forall|j: nat|
                base <= j < base + self.acked_steps(base, n) ==> rep_mt_acked(
                    #[trigger] self.reply(j),
                ),
            self.acked_steps(base, n) < n ==> !rep_mt_acked(
                self.reply(base + self.acked_steps(base, n)),
            ),
        decreases n,
    {
        if n > 0 && rep_mt_acked(self.reply(base)) {
            self.lemma_acked_steps_props(base + 1, (n - 1) as nat);
        }
    }

    /// The acknowledged-step count depends only on the replies it reads.
    pub(crate) proof fn lemma_acked_steps_frame(a: &Self, b: &Self, base: nat, n: nat)
        requires
            forall|j: nat| base <= j < base + n ==> #[trigger] a.reply(j) == b.reply(j),
        ensures
            a.acked_steps(base, n) == b.acked_steps(base, n),
        decreases n,
    {
        if n > 0 {
            assert(a.reply(base) == b.reply(base));
            Self::lemma_acked_steps_frame(a, b, base + 1, (n - 1) as nat);
        }
    }

    pub(crate) proof fn lemma_acked_steps_full(&self, base: nat, n: nat)
        requires
            forall|j: nat| base <= j < base + n ==> rep_mt_acked(self.reply(j)),
        ensures
            self.acked_steps(base, n) == n,
        decreases n,
    {
        if n > 0 {
            assert(rep_mt_acked(self.reply(base)));
            self.lemma_acked_steps_full(base + 1, (n - 1) as nat);
        }
    }

    proof fn lemma_acked_steps_stops(&self, base: nat, n: nat, s: nat)
        requires
            s < n,
            forall|j: nat| base <= j < base + s ==> rep_mt_acked(self.reply(j)),
            !rep_mt_acked(self.reply(base + s)),
        ensures
            self.acked_steps(base, n) == s,
        decreases s,
    {
        if s > 0 {
            assert(rep_mt_acked(self.reply(base)));
            self.lemma_acked_steps_stops(base + 1, (n - 1) as nat, (s - 1) as nat);
        }
    }

    proof fn lemma_recv_acked_steps_full(&self, base: nat, n: nat)
        requires
            forall|j: nat| base <= j < base + n ==> rep_mr_acked(self.reply(j)),
        ensures
            self.recv_acked_steps(base, n) == n,
        decreases n,
    {
        if n > 0 {
            assert(rep_mr_acked(self.reply(base)));
            self.lemma_recv_acked_steps_full(base + 1, (n - 1) as nat);
        }
    }

    proof fn lemma_recv_acked_steps_stops(&self, base: nat, n: nat, s: nat)
        requires
            s < n,
            forall|j: nat| base <= j < base + s ==> rep_mr_acked(self.reply(j)),
            !rep_mr_acked(self.reply(base + s)),
        ensures
            self.recv_acked_steps(base, n) == s,
        decreases s,
    {
        if s > 0 {
            assert(rep_mr_acked(self.reply(base)));
            self.lemma_recv_acked_steps_stops(base + 1, (n - 1) as nat, (s - 1) as nat);
        }
    }

    /// A whole write transaction: start, address byte with the write
    /// direction bit clear, every data byte in order, stop.
    ///
    /// The stop condition is always issued, also when a step fails, so
    /// that the bus is released rather than left wedged; this is the
    /// explicit recovery policy of this driver. The wire therefore always
    /// carries a start, the bytes that were driven before the first
    /// failure, and a stop.
    pub fn write(&mut self, addr: u8, bytes: &[u8]) -> (r: Result<(), I2cError>)
        requires
            addr < 128,
        ensures
            ({
                let c0 = old(self).consumed();
                let payload = wr_payload(addr, bytes@);
                let n = payload.len();
                let started = rep_started(old(self).reply(c0));
                let k = old(self).acked_steps(c0 + 1, n);
                let a: nat = if !started {
                    0
                } else if k == n {
                    n
                } else {
                    k + 1
                };
                let w: int = if !started {
                    0
                } else if k == n {
                    n as int
                } else if old(self).reply(c0 + 1 + k).wc {
                    k as int
                } else {
                    k as int + 1
                };
                &&& final(self).consumed() == c0 + 1 + a
                &&& final(self).wire() == old(self).wire() + seq![BusEvent::Start] + writes_of(
                    payload.take(w),
                ) + seq![BusEvent::Stop]
                &&& forall|i: nat|
                    i >= final(self).consumed() ==> final(self).reply(i) == old(self).reply(i)
                &&& (r is Ok <==> started && k == n)
                &&& (!started ==> r == Err::<(), I2cError>(I2cError::ProtocolError))
                &&& (started && k < n ==> r == (if old(self).reply(c0 + 1 + k).wc {
                    Err::<(), I2cError>(I2cError::WriteCollision)
                } else {
                    Err::<(), I2cError>(I2cError::NackError)
                }))
            }),
    {
        let ghost c0 = self.consumed();
        let ghost payload = wr_payload(addr, bytes@);
        let ghost n = payload.len();
        let started = self.start();
        if let Err(e) = started {
            self.stop();
            assert(final(self).wire() =~= old(self).wire() + seq![BusEvent::Start] + writes_of(
                payload.take(0),
            ) + seq![BusEvent::Stop]);
            return Err(e);
        }
        let first = self.send_byte(addr << 1);
        if let Err(e) = first {
            self.stop();
            proof {
                old(self).lemma_acked_steps_stops(c0 + 1, n, 0);
                assert(self.wire() =~= old(self).wire() + seq![BusEvent::Start] + writes_of(
                    payload.take(
                        if old(self).reply(c0 + 1).wc {
                            0
                        } else {
                            1
                        },
                    ),
                ) + seq![BusEvent::Stop]);
            }
            return Err(e);
        }
        let mut i: usize = 0;
        while i < bytes.len()
            invariant
                addr < 128,
                i <= bytes@.len(),
                c0 == old(self).consumed(),
                payload == wr_payload(addr, bytes@),
                n == payload.len(),
                self.consumed() == c0 + 2 + i,
                self.wire() == old(self).wire() + seq![BusEvent::Start] + writes_of(
                    payload.take(1 + i as int),
                ),
                forall|j: nat| j >= self.consumed() ==> self.reply(j) == old(self).reply(j),
                forall|j: nat| c0 + 1 <= j < c0 + 2 + i ==> rep_mt_acked(old(self).reply(j)),
                rep_started(old(self).reply(c0)),
            decreases bytes@.len() - i,
        {
            let rb = self.send_byte(bytes[i]);
            if let Err(e) = rb {
                self.stop();
                proof {
                    old(self).lemma_acked_steps_stops(c0 + 1, n, 1 + i as nat);
                    assert(self.wire() =~= old(self).wire() + seq![BusEvent::Start] + writes_of(
                        payload.take(
                            if old(self).reply((c0 + 2 + i) as nat).wc {
                                1 + i as int
                            } else {
                                2 + i as int
                            },
                        ),
                    ) + seq![BusEvent::Stop]);
                }
                return Err(e);
            }
            i = i + 1;
            proof {
                assert(payload[i as int] == bytes@[i - 1]);
                assert(self.wire() =~= old(self).wire() + seq![BusEvent::Start] + writes_of(
                    payload.take(1 + i as int),
                ));
            }
        }
        self.stop();
        proof {
            old(self).lemma_acked_steps_full(c0 + 1, n);
            assert(payload.take(n as int) =~= payload);
            assert(self.wire() =~= old(self).wire() + seq![BusEvent::Start] + writes_of(payload)
                + seq![BusEvent::Stop]);
        }
        Ok(())
    }

    /// A whole read transaction: start, address byte with the read
    /// direction bit set, `count` received bytes, stop. Every byte but the
    /// last is acknowledged; the cleared acknowledge on the final byte
    /// tells the peer to release the bus before the stop.
    ///
    /// As with [`Self::write`], the stop condition is always issued, also
    /// when a step fails.
    pub fn read(&mut self, addr: u8, count: usize) -> (r: Result<Vec<u8>, I2cError>)
        requires
            addr < 128,
        ensures
            ({
                let c0 = old(self).consumed();
                let started = rep_started(old(self).reply(c0));
                let arep = old(self).reply(c0 + 1);
                let m = old(self).recv_acked_steps(c0 + 2, count as nat);
                let t: nat = if !started || !rep_mt_acked(arep) {
                    0
                } else if m == count {
                    m
                } else {
                    m + 1
                };
                &&& final(self).wire() == old(self).wire() + seq![BusEvent::Start] + (if !started
                    || arep.wc {
                    Seq::<BusEvent>::empty()
                } else {
                    seq![BusEvent::Write(sla_r(addr))]
                }) + reads_of(count as nat, t) + seq![BusEvent::Stop]
                &&& final(self).consumed() == c0 + (if !started {
                    1
                } else {
                    2 + t
                })
                &&& forall|i: nat|
                    i >= final(self).consumed() ==> final(self).reply(i) == old(self).reply(i)
                &&& (r is Ok <==> started && rep_mt_acked(arep) && m == count)
                &&& (r is Ok ==> r->Ok_0@.len() == count && forall|j: int|
                    0 <= j < count ==> r->Ok_0@[j] == old(self).reply((c0 + 2 + j) as nat).data)
                &&& (!started ==> r == Err::<Vec<u8>, I2cError>(I2cError::ProtocolError))
                &&& (started && arep.wc ==> r == Err::<Vec<u8>, I2cError>(I2cError::WriteCollision))
                &&& (started && !arep.wc && code_of(arep.status) != TW_MT_DATA_ACK ==> r == Err::<
                    Vec<u8>,
                    I2cError,
                >(I2cError::NackError))
                &&& (started && rep_mt_acked(arep) && m < count ==> r == Err::<
                    Vec<u8>,
                    I2cError,
                >(I2cError::ProtocolError))
            }),
    {
        let ghost c0 = self.consumed();
        let started = self.start();
        if let Err(e) = started {
            self.stop();
            assert(final(self).wire() =~= old(self).wire() + seq![BusEvent::Start]
                + Seq::<BusEvent>::empty() + reads_of(count as nat, 0) + seq![BusEvent::Stop]);
            return Err(e);
        }
        let ares = self.send_byte((addr << 1) | 1);
        if let Err(e) = ares {
            self.stop();
            proof {
                if old(self).reply(c0 + 1).wc {
                    assert(self.wire() =~= old(self).wire() + seq![BusEvent::Start]
                        + Seq::<BusEvent>::empty() + reads_of(count as nat, 0)
                        + seq![BusEvent::Stop]);
                } else {
                    assert(self.wire() =~= old(self).wire() + seq![BusEvent::Start] + seq![
                        BusEvent::Write(sla_r(addr)),
                    ] + reads_of(count as nat, 0) + seq![BusEvent::Stop]);
                }
            }
            return Err(e);
        }
        let mut out: Vec<u8> = Vec::new();
        let mut i: usize = 0;
        while i < count
            invariant
                i <= count,
                addr < 128,
                c0 == old(self).consumed(),
                out@.len() == i,
                forall|j: int| 0 <= j < i ==> out@[j] == old(self).reply((c0 + 2 + j) as nat).data,
                self.consumed() == c0 + 2 + i,
                self.wire() == old(self).wire() + seq![BusEvent::Start] + seq![
                    BusEvent::Write(sla_r(addr)),
                ] + reads_of(count as nat, i as nat),
                forall|j: nat| j >= self.consumed() ==> self.reply(j) == old(self).reply(j),
                forall|j: nat| c0 + 2 <= j < c0 + 2 + i ==> rep_mr_acked(old(self).reply(j)),
                rep_started(old(self).reply(c0)),
                rep_mt_acked(old(self).reply(c0 + 1)),
            decreases count - i,
        {
            let ack = i + 1 < count;
            let rb = self.receive_byte(ack);
            match rb {
                Ok(b) => {
                    out.push(b);
                    i = i + 1;
                    proof {
                        assert(self.wire() =~= old(self).wire() + seq![BusEvent::Start] + seq![
                            BusEvent::Write(sla_r(addr)),
                        ] + reads_of(count as nat, i as nat));
                    }
                },
                Err(e) => {
                    self.stop();
                    proof {
                        old(self).lemma_recv_acked_steps_stops(c0 + 2, count as nat, i as nat);
                        assert(self.wire() =~= old(self).wire() + seq![BusEvent::Start] + seq![
                            BusEvent::Write(sla_r(addr)),
                        ] + reads_of(count as nat, 1 + i as nat) + seq![BusEvent::Stop]);
                    }
                    return Err(e);
                },
            }
        }
        self.stop();
        proof {
            old(self).lemma_recv_acked_steps_full(c0 + 2, count as nat);
            assert(self.wire() =~= old(self).wire() + seq![BusEvent::Start] + seq![
                BusEvent::Write(sla_r(addr)),
            ] + reads_of(count as nat, count as nat) + seq![BusEvent::Stop]);
        }
        Ok(out)
    }

    /// A write transaction followed by a read transaction at the same
    /// address: the combined operation this driver offers. Each phase is a
    /// whole transaction of its own, stop condition included, so the bus
    /// is released between the phases; the read phase only runs when the
    /// whole write phase was acknowledged.
    pub fn write_read(&mut self, addr: u8, bytes: &[u8], count: usize) -> (r: Result<
        Vec<u8>,
        I2cError,
    >)
        requires
            addr < 128,
        ensures
            ({
                let c0 = old(self).consumed();
                let payload = wr_payload(addr, bytes@);
                let n = payload.len();
                let started = rep_started(old(self).reply(c0));
                let k = old(self).acked_steps(c0 + 1, n);
                let wr_ok = started && k == n;
                let c1 = c0 + 1 + n;
                let rstarted = rep_started(old(self).reply(c1));
                let arep = old(self).reply(c1 + 1);
                let m = old(self).recv_acked_steps(c1 + 2, count as nat);
                &&& final(self).consumed() >= c0
                &&& forall|i: nat|
                    i >= final(self).consumed() ==> final(self).reply(i) == old(self).reply(i)
                &&& (r is Ok <==> wr_ok && rstarted && rep_mt_acked(arep) && m == count)
                &&& (r is Ok ==> final(self).wire() == old(self).wire() + seq![BusEvent::Start]
                    + writes_of(payload) + seq![BusEvent::Stop] + seq![
                    BusEvent::Start,
                    BusEvent::Write(sla_r(addr)),
                ] + reads_of(count as nat, count as nat) + seq![BusEvent::Stop] && final(self).consumed()
                    == c1 + 2 + count && r->Ok_0@.len() == count && (forall|j: int|
                    0 <= j < count ==> r->Ok_0@[j] == old(self).reply((c1 + 2 + j) as nat).data))
                &&& (!started ==> r == Err::<Vec<u8>, I2cError>(I2cError::ProtocolError))
                &&& (started && k < n ==> r == (if old(self).reply(c0 + 1 + k).wc {
                    Err::<Vec<u8>, I2cError>(I2cError::WriteCollision)
                } else {
                    Err::<Vec<u8>, I2cError>(I2cError::NackError)
                }))
                &&& (wr_ok && !rstarted ==> r == Err::<Vec<u8>, I2cError>(I2cError::ProtocolError))
                &&& (wr_ok && rstarted && arep.wc ==> r == Err::<Vec<u8>, I2cError>(
                    I2cError::WriteCollision,
                ))
                &&& (wr_ok && rstarted && !arep.wc && code_of(arep.status) != TW_MT_DATA_ACK ==> r
                    == Err::<Vec<u8>, I2cError>(I2cError::NackError))
                &&& (wr_ok && rstarted && rep_mt_acked(arep) && m < count ==> r == Err::<
                    Vec<u8>,
                    I2cError,
                >(I2cError::ProtocolError))
            }),
    {
        let ghost c0 = self.consumed();
        let ghost n = wr_payload(addr, bytes@).len();
        let wr = self.write(addr, bytes);
        if let Err(e) = wr {
            return Err(e);
        }
        let ghost mid = *self;
        let r = self.read(addr, count);
        proof {
            Self::lemma_recv_acked_steps_frame(&mid, old(self), c0 + 1 + n + 2, count as nat);
            assert(wr_payload(addr, bytes@).take(n as int) =~= wr_payload(addr, bytes@));
            if r is Ok {
                assert forall|j: int| 0 <= j < count implies r->Ok_0@[j] == old(self).reply(
                    (c0 + 1 + n + 2 + j) as nat,
                ).data by {
                    assert(mid.reply((c0 + 1 + n + 2 + j) as nat) == old(self).reply(
                        (c0 + 1 + n + 2 + j) as nat,
                    ));
                }
                assert(self.wire() =~= old(self).wire() + seq![BusEvent::Start] + writes_of(
                    wr_payload(addr, bytes@),
                ) + seq![BusEvent::Stop] + seq![BusEvent::Start, BusEvent::Write(sla_r(addr))]
                    + reads_of(count as nat, count as nat) + seq![BusEvent::Stop]);
            }
        }
        r
    }
}

} // verus!
