//! The transmit side of the BCM2835 auxiliary mini UART: which bytes go out
//! for a character, and when the transmitter takes one.

use vstd::prelude::*;
use vstd::utf8::encode_scalar;

verus! {

/// Bit of the line status register that is set while the transmit FIFO can
/// take at least one byte.
pub const LSR_TRANSMITTER_EMPTY: u32 = 1 << 5;

/// Bit of the line status register that is set while a received byte waits.
pub const LSR_DATA_READY: u32 = 1;

/// Bit of the interrupt enable register that is set at start-up.
pub const IER_ENABLE: u32 = 1;

/// The bytes that go out for a character: a line feed is sent as carriage
/// return and line feed, any other character as its UTF-8 encoding.
pub open spec fn wire_bytes(c: char) -> Seq<u8> {
    if c == '\n' {
        seq![0x0du8, 0x0au8]
    } else {
        encode_scalar(c as u32)
    }
}

/// The bytes that go out for a run of characters.
pub open spec fn wire_bytes_of(chars: Seq<char>) -> Seq<u8>
    decreases chars.len(),
{
    if chars.len() == 0 {
        Seq::empty()
    } else {
        wire_bytes_of(chars.drop_last()) + wire_bytes(chars.last())
    }
}

/// Whether a value of the line status register says that the transmitter
/// can take a byte.
pub fn transmitter_can_accept(lsr: u32) -> (r: bool)
    ensures
        r == (lsr & LSR_TRANSMITTER_EMPTY != 0),
{
    lsr & LSR_TRANSMITTER_EMPTY != 0
}

/// The received byte in a value read from the data register: its low eight
/// bits.
pub fn received_byte(io: u32) -> (r: u8)
    ensures
        r == io & 0xff,
{
    assert(io & 0xff < 0x100) by (bit_vector);
    (io & 0xff) as u8
}

/// The register bank of the mini UART as the driver sees it: the interrupt
/// enable register and the bytes written to the data register, in order.
#[derive(Debug)]
pub struct Bcm2835AuxRegBank {
    ier: u32,
    sent: Vec<u8>,
}

impl Bcm2835AuxRegBank {
    /// What the interrupt enable register holds.
    pub closed spec fn spec_ier(self) -> u32 {
        self.ier
    }

    /// The bytes written to the data register so far and not yet taken.
    pub closed spec fn sent(self) -> Seq<u8> {
        self.sent@
    }

    /// A bank with interrupts off and nothing written.
    pub fn new() -> (r: Bcm2835AuxRegBank)
        ensures
            r.spec_ier() == 0,
            r.sent() == Seq::<u8>::empty(),
    {
        Bcm2835AuxRegBank { ier: 0, sent: Vec::new() }
    }

    /// Turns the receive interrupt on.
    pub fn init(&mut self)
        ensures
            final(self).spec_ier() == IER_ENABLE,
            final(self).sent() == old(self).sent(),
    {
        self.ier = IER_ENABLE;
    }

    /// What the interrupt enable register holds.
    pub fn ier(&self) -> (r: u32)
        ensures
            r == self.spec_ier(),
    {
        self.ier
    }

    /// Writes one byte to the data register.
    pub fn send_byte(&mut self, b: u8)
        ensures
            final(self).spec_ier() == old(self).spec_ier(),
            final(self).sent() == old(self).sent().push(b),
    {
        self.sent.push(b);
    }

    /// Sends one character.
    pub fn put_char(&mut self, c: char)
        ensures
            final(self).spec_ier() == old(self).spec_ier(),
            final(self).sent() == old(self).sent() + wire_bytes(c),
    {
        if c == '\n' {
            self.send_byte(0x0d);
            self.send_byte(0x0a);
            assert(self.sent() =~= old(self).sent() + wire_bytes(c));
        } else {
            let v = c as u32;
            proof {
                vstd::utf8::char_is_scalar(c);
            }
            if v <= 0x7f {
                let b0 = (v & 0x7f) as u8;
                self.send_byte(b0);
            } else if v <= 0x7ff {
                let b0 = 0xc0 | (((v >> 6) & 0x1f) as u8);
                let b1 = 0x80 | ((v & 0x3f) as u8);
                self.send_byte(b0);
                self.send_byte(b1);
            } else if v <= 0xffff {
                let b0 = 0xe0 | (((v >> 12) & 0x0f) as u8);
                let b1 = 0x80 | (((v >> 6) & 0x3f) as u8);
                let b2 = 0x80 | ((v & 0x3f) as u8);
                self.send_byte(b0);
                self.send_byte(b1);
                self.send_byte(b2);
            } else {
                let b0 = 0xf0 | (((v >> 18) & 0x07) as u8);
                let b1 = 0x80 | (((v >> 12) & 0x3f) as u8);
                let b2 = 0x80 | (((v >> 6) & 0x3f) as u8);
                let b3 = 0x80 | ((v & 0x3f) as u8);
                self.send_byte(b0);
                self.send_byte(b1);
                self.send_byte(b2);
                self.send_byte(b3);
            }
            assert(self.sent() =~= old(self).sent() + wire_bytes(c));
        }
    }

    /// Sends the characters of a string, in order.
    pub fn write_str(&mut self, s: &str)
        ensures
            final(self).spec_ier() == old(self).spec_ier(),
            final(self).sent() == old(self).sent() + wire_bytes_of(s@),
    {
        let ghost start = self.sent();
        for c in iter: s.chars()
            invariant
                self.spec_ier() == old(self).spec_ier(),
                start == old(self).sent(),
                iter.seq() == s@,
                self.sent() == start + wire_bytes_of(s@.take(iter.index() as int)),
        {
            let ghost before = self.sent();
            self.put_char(c);
            proof {
                let i = iter.index() as int;
                assert(s@.take(i + 1).drop_last() =~= s@.take(i));
                assert(s@.take(i + 1).last() == c);
                assert(self.sent() =~= start + wire_bytes_of(s@.take(i + 1)));
            }
        }
        assert(s@.take(s@.len() as int) =~= s@);
    }

    /// Hands over the bytes written so far, for the device to take, and
    /// starts anew.
    pub fn take_sent(&mut self) -> (r: Vec<u8>)
        ensures
            r@ == old(self).sent(),
            final(self).sent() == Seq::<u8>::empty(),
            final(self).spec_ier() == old(self).spec_ier(),
    {
        let mut out: Vec<u8> = Vec::new();
        std::mem::swap(&mut out, &mut self.sent);
        out
    }
}

} // verus!
