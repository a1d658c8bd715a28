//! The values that the fastboot exchange works with: slots, byte buffers,
//! reply headers, and the decisions taken on each reply.

use vstd::prelude::*;
use vstd::string::StringSliceAdditionalSpecFns;

use crate::number::{
    lemma_parse_padded, lemma_radix_digits_len, pad_left, pad_left_bytes, parse_bounded, parse_unsigned_bytes,
    radix_digits, format_radix,
};

verus! {

/// One of the two A/B slots of a device.
#[derive(Clone, Copy, Debug, PartialEq, Eq, Structural)]
pub enum Slot {
    A,
    B,
}

/// The lower-case name of a slot.
pub open spec fn slot_name(slot: Slot) -> Seq<char> {
    match slot {
        Slot::A => seq!['a'],
        Slot::B => seq!['b'],
    }
}

/// The slot that a name denotes: `a`/`A` or `b`/`B`.
pub open spec fn slot_of_name(name: Seq<char>) -> Option<Slot> {
    if name == seq!['a'] || name == seq!['A'] {
        Some(Slot::A)
    } else if name == seq!['b'] || name == seq!['B'] {
        Some(Slot::B)
    } else {
        None
    }
}

/// The slot that is not `slot`.
pub open spec fn other_slot(slot: Slot) -> Slot {
    match slot {
        Slot::A => Slot::B,
        Slot::B => Slot::A,
    }
}

impl Slot {
    /// The other slot.
    pub fn other(&self) -> (r: Slot)
        ensures
            r == other_slot(*self),
    {
        match self {
            Slot::A => Slot::B,
            Slot::B => Slot::A,
        }
    }

    /// The slot's name as fastboot spells it: `"a"` or `"b"`.
    pub fn as_str(&self) -> (r: &'static str)
        ensures
            r@ == slot_name(*self),
    {
        match self {
            Slot::A => {
                proof {
                    reveal_strlit("a");
                }
                "a"
            },
            Slot::B => {
                proof {
                    reveal_strlit("b");
                }
                "b"
            },
        }
    }

    /// Reads a slot name, `a`/`A` or `b`/`B`; `None` for any other text.
    pub fn parse(value: &str) -> (r: Option<Slot>)
        ensures
            r == slot_of_name(value@),
    {
        if value.unicode_len() != 1 {
            assert(value@ != seq!['a'] && value@ != seq!['A'] && value@ != seq!['b'] && value@
                != seq!['B']);
            return None;
        }
        let c = value.get_char(0);
        assert(value@ =~= seq![c]);
        if c == 'a' || c == 'A' {
            Some(Slot::A)
        } else if c == 'b' || c == 'B' {
            Some(Slot::B)
        } else {
            None
        }
    }

    /// The slot that a name denotes; the name must be `a`, `A`, `b` or `B`.
    pub fn from(value: &str) -> (r: Slot)
        requires
            slot_of_name(value@) is Some,
        ensures
            Some(r) == slot_of_name(value@),
    {
        match Slot::parse(value) {
            Some(s) => s,
            None => Slot::A,
        }
    }
}

/// Each slot is the other of its other.
pub proof fn lemma_other_slot_involution(slot: Slot)
    ensures
        other_slot(other_slot(slot)) == slot,
        other_slot(slot) != slot,
{
}

/// The upper-case name of a slot.
pub open spec fn slot_upper_name(slot: Slot) -> Seq<char> {
    match slot {
        Slot::A => seq!['A'],
        Slot::B => seq!['B'],
    }
}

/// A slot's name, in lower or upper case, reads back as that slot.
pub proof fn lemma_slot_name_round_trip(slot: Slot)
    ensures
        slot_of_name(slot_name(slot)) == Some(slot),
        slot_of_name(slot_upper_name(slot)) == Some(slot),
{
    assert(seq!['B'][0] != seq!['a'][0]);
    assert(seq!['B'][0] != seq!['A'][0]);
    assert(seq!['b'][0] != seq!['a'][0]);
    assert(seq!['b'][0] != seq!['A'][0]);
}

/// A growable buffer of bytes: a command to send or a reply received.
#[derive(Debug)]
pub struct ByteVec {
    pub data: Vec<u8>,
}

impl View for ByteVec {
    type V = Seq<u8>;

    open spec fn view(&self) -> Seq<u8> {
        self.data@
    }
}

/// A number that could not be read from text.
#[derive(Clone, Copy, Debug, PartialEq, Eq, Structural)]
pub struct InvalidNumber;

/// The eight lower-case hexadecimal digits, zero-padded on the left, that
/// announce a transfer of `len` bytes.
pub open spec fn spec_hex_len(len: nat) -> Seq<u8> {
    pad_left(radix_digits(len, 16, false), 8, 48u8)
}

impl ByteVec {
    /// An empty buffer.
    pub fn new() -> (r: ByteVec)
        ensures
            r@ == Seq::<u8>::empty(),
    {
        ByteVec { data: Vec::new() }
    }

    /// The buffer that holds `data`.
    pub fn from_vec(data: Vec<u8>) -> (r: ByteVec)
        ensures
            r@ == data@,
    {
        ByteVec { data }
    }

    /// A buffer with a copy of `data`.
    pub fn from_slice(data: &[u8]) -> (r: ByteVec)
        ensures
            r@ == data@,
    {
        ByteVec { data: vstd::slice::slice_to_vec(data) }
    }

    /// A buffer with the UTF-8 bytes of `text`.
    pub fn from_text(text: &str) -> (r: ByteVec)
        ensures
            r@ == text.spec_bytes(),
    {
        ByteVec { data: vstd::slice::slice_to_vec(text.as_bytes()) }
    }

    /// Appends a copy of the bytes of `vec`.
    pub fn append(&mut self, vec: &Self)
        ensures
            final(self)@ == old(self)@ + vec@,
    {
        let mut i: usize = 0;
        let ghost start = self.data@;
        while i < vec.data.len()
            invariant
                i <= vec.data.len(),
                self.data@ =~= start + vec.data@.take(i as int),
            decreases vec.data.len() - i,
        {
            self.data.push(vec.data[i]);
            i = i + 1;
        }
        assert(vec.data@.take(vec.data.len() as int) =~= vec.data@);
    }

    /// Appends the bytes of `vec`, which it takes.
    pub fn extend_vec(&mut self, vec: Self)
        ensures
            final(self)@ == old(self)@ + vec@,
    {
        self.append(&vec);
    }

    /// The announced length of a `len`-byte transfer: `len` in lower-case
    /// hexadecimal, zero-padded to eight digits.
    pub fn from_len(len: usize) -> (r: ByteVec)
        ensures
            r@ == spec_hex_len(len as nat),
    {
        let digits = format_radix(len as u64, 16, false);
        ByteVec { data: pad_left_bytes(digits, 8, 48u8) }
    }

    /// The buffer read as a decimal `u32`: an optional `+` and at least one
    /// digit, nothing else, the value at most `u32::MAX`.
    pub fn as_decimal(&self) -> (r: Result<u32, InvalidNumber>)
        ensures
            match parse_bounded(self@, 10, u32::MAX as nat) {
                Some(v) => r == Ok::<u32, InvalidNumber>(v as u32),
                None => r == Err::<u32, InvalidNumber>(InvalidNumber),
            },
    {
        match parse_unsigned_bytes(self.data.as_slice(), 10, u32::MAX as u64) {
            Some(v) => Ok(v as u32),
            None => Err(InvalidNumber),
        }
    }

    /// The buffer read as a hexadecimal `u32` (either case): an optional `+`
    /// and at least one digit, nothing else, the value at most `u32::MAX`.
    pub fn as_hexadecimal(&self) -> (r: Result<u32, InvalidNumber>)
        ensures
            match parse_bounded(self@, 16, u32::MAX as nat) {
                Some(v) => r == Ok::<u32, InvalidNumber>(v as u32),
                None => r == Err::<u32, InvalidNumber>(InvalidNumber),
            },
    {
        match parse_unsigned_bytes(self.data.as_slice(), 16, u32::MAX as u64) {
            Some(v) => Ok(v as u32),
            None => Err(InvalidNumber),
        }
    }

    /// The number of bytes held.
    pub fn len(&self) -> (r: usize)
        ensures
            r == self@.len(),
    {
        self.data.len()
    }

    /// No byte is held.
    pub fn is_empty(&self) -> (r: bool)
        ensures
            r == (self@.len() == 0),
    {
        self.data.len() == 0
    }

    /// The bytes held.
    pub fn as_slice(&self) -> (r: &[u8])
        ensures
            r@ == self@,
    {
        self.data.as_slice()
    }

    /// Drops every byte.
    pub fn clear(&mut self)
        ensures
            final(self)@ == Seq::<u8>::empty(),
    {
        self.data.clear();
    }

    /// The buffer holds exactly the bytes of `other`.
    pub fn eq_bytes(&self, other: &[u8]) -> (r: bool)
        ensures
            r == (self@ == other@),
    {
        if self.data.len() != other.len() {
            return false;
        }
        let mut i: usize = 0;
        while i < other.len()
            invariant
                i <= other.len(),
                self.data@.len() == other@.len(),
                forall|k: int| 0 <= k < i ==> self.data@[k] == other@[k],
            decreases other.len() - i,
        {
            if self.data[i] != other[i] {
                return false;
            }
            i = i + 1;
        }
        assert(self.data@ =~= other@);
        true
    }

    /// Gives up the buffer's bytes.
    pub fn into_vec(self) -> (r: Vec<u8>)
        ensures
            r@ == self@,
    {
        self.data
    }
}

/// A length announced with `from_len` reads back with `as_hexadecimal`.
pub proof fn lemma_hex_len_round_trip(len: nat)
    requires
        len <= u32::MAX,
    ensures
        parse_bounded(spec_hex_len(len), 16, u32::MAX as nat) == Some(len),
{
    lemma_parse_padded(len, 16, 8, false);
}

impl Default for ByteVec {
    fn default() -> (r: ByteVec)
        ensures
            r@ == Seq::<u8>::empty(),
    {
        ByteVec::new()
    }
}

impl From<Vec<u8>> for ByteVec {
    fn from(data: Vec<u8>) -> (r: ByteVec) {
        ByteVec { data }
    }
}

impl vstd::std_specs::convert::FromSpecImpl<Vec<u8>> for ByteVec {
    open spec fn obeys_from_spec() -> bool {
        true
    }

    open spec fn from_spec(data: Vec<u8>) -> ByteVec {
        ByteVec { data }
    }
}

impl PartialEq for ByteVec {
    fn eq(&self, other: &ByteVec) -> (r: bool) {
        self.eq_bytes(other.data.as_slice())
    }
}

impl vstd::std_specs::cmp::PartialEqSpecImpl for ByteVec {
    open spec fn obeys_eq_spec() -> bool {
        true
    }

    open spec fn eq_spec(&self, other: &ByteVec) -> bool {
        self@ == other@
    }
}

/// The header that opens a fastboot reply.
#[derive(Clone, Copy, Debug, PartialEq, Eq, Structural)]
pub enum FastbootHeader {
    Error,
    Okay,
    Data,
    Fail,
    NoHeader,
}

/// The header that the bytes `value` spell, compared as a whole.
pub open spec fn header_of(value: Seq<u8>) -> FastbootHeader {
    if value == seq![79u8, 75u8, 65u8, 89u8] {
        FastbootHeader::Okay
    } else if value == seq![68u8, 65u8, 84u8, 65u8] {
        FastbootHeader::Data
    } else if value == seq![70u8, 65u8, 73u8, 76u8] {
        FastbootHeader::Fail
    } else {
        FastbootHeader::NoHeader
    }
}

impl FastbootHeader {
    /// The header that `value` spells as a whole: `OKAY`, `DATA`, `FAIL`,
    /// or none of them.
    pub fn from_bytes(value: &[u8]) -> (r: FastbootHeader)
        ensures
            r == header_of(value@),
    {
        if value.len() != 4 {
            return FastbootHeader::NoHeader;
        }
        let (a, b, c, d) = (value[0], value[1], value[2], value[3]);
        assert(value@ =~= seq![a, b, c, d]);
        if a == 79 && b == 75 && c == 65 && d == 89 {
            FastbootHeader::Okay
        } else if a == 68 && b == 65 && c == 84 && d == 65 {
            FastbootHeader::Data
        } else if a == 70 && b == 65 && c == 73 && d == 76 {
            FastbootHeader::Fail
        } else {
            FastbootHeader::NoHeader
        }
    }
}

/// The header of a freshly read reply, and what is kept of the reply: an
/// `OKAY` or `FAIL` prefix is stripped; a `DATA` reply of 12 or 13 bytes
/// keeps the eight bytes after the prefix; anything else is kept whole.
pub open spec fn spec_read_reply(reply: Seq<u8>) -> (FastbootHeader, Seq<u8>) {
    if reply.len() < 4 {
        (FastbootHeader::NoHeader, reply)
    } else {
        let prefix = header_of(reply.take(4));
        if (prefix == FastbootHeader::Okay || prefix == FastbootHeader::Fail) && reply.len() == 4 {
            (prefix, Seq::<u8>::empty())
        } else if prefix == FastbootHeader::Okay || prefix == FastbootHeader::Fail {
            (prefix, reply.skip(4))
        } else if prefix == FastbootHeader::Data && (reply.len() == 12 || reply.len() == 13) {
            (prefix, reply.subrange(4, 12))
        } else {
            (prefix, reply)
        }
    }
}

/// The bytes `v[from..to]` in a new vector.
fn copy_range(v: &[u8], from: usize, to: usize) -> (r: Vec<u8>)
    requires
        from <= to <= v@.len(),
    ensures
        r@ == v@.subrange(from as int, to as int),
{
    let mut r: Vec<u8> = Vec::new();
    let mut i = from;
    while i < to
        invariant
            from <= i <= to,
            to <= v@.len(),
            r@ =~= v@.subrange(from as int, i as int),
        decreases to - i,
    {
        r.push(v[i]);
        i = i + 1;
    }
    r
}

/// Takes the header off a reply just read into `reply` and returns it, as
/// `spec_read_reply` states.
pub fn read_reply_header(reply: &mut ByteVec) -> (h: FastbootHeader)
    ensures
        (h, final(reply)@) == spec_read_reply(old(reply)@),
{
    let len = reply.data.len();
    if len < 4 {
        return FastbootHeader::NoHeader;
    }
    let head = copy_range(reply.data.as_slice(), 0, 4);
    assert(head@ =~= old(reply)@.take(4));
    let prefix = FastbootHeader::from_bytes(head.as_slice());
    let stripped = prefix == FastbootHeader::Okay || prefix == FastbootHeader::Fail;
    if stripped && len == 4 {
        reply.data.clear();
    } else if stripped {
        let rest = copy_range(reply.data.as_slice(), 4, len);
        assert(rest@ =~= old(reply)@.skip(4));
        reply.data = rest;
    } else if prefix == FastbootHeader::Data && (len == 12 || len == 13) {
        let rest = copy_range(reply.data.as_slice(), 4, 12);
        reply.data = rest;
    }
    prefix
}

/// An `OKAY` or `FAIL` reply keeps exactly the text after its header.
pub proof fn lemma_read_reply_strips_status(status: Seq<u8>, text: Seq<u8>)
    requires
        status == seq![79u8, 75u8, 65u8, 89u8] || status == seq![70u8, 65u8, 73u8, 76u8],
    ensures
        spec_read_reply(status + text) == (header_of(status), text),
        header_of(status) != FastbootHeader::NoHeader,
{
    let r = status + text;
    assert(r.take(4) =~= status);
    assert(r.skip(4) =~= text);
    assert(seq![79u8, 75u8, 65u8, 89u8][0] != seq![68u8, 65u8, 84u8, 65u8][0]);
    assert(seq![70u8, 65u8, 73u8, 76u8][0] != seq![68u8, 65u8, 84u8, 65u8][0]);
    assert(seq![70u8, 65u8, 73u8, 76u8][0] != seq![79u8, 75u8, 65u8, 89u8][0]);
    if text.len() == 0 {
        assert(text =~= Seq::<u8>::empty());
    }
}

/// A `DATA` reply announcing a length keeps the eight length digits,
/// whether or not a terminating byte follows them.
pub proof fn lemma_read_reply_data_length(digits: Seq<u8>, tail: Seq<u8>)
    requires
        digits.len() == 8,
        tail.len() <= 1,
    ensures
        spec_read_reply(seq![68u8, 65u8, 84u8, 65u8] + digits + tail) == (
            FastbootHeader::Data,
            digits,
        ),
{
    let r = seq![68u8, 65u8, 84u8, 65u8] + digits + tail;
    assert(r.take(4) =~= seq![68u8, 65u8, 84u8, 65u8]);
    assert(r.subrange(4, 12) =~= digits);
    assert(seq![79u8, 75u8, 65u8, 89u8][0] != seq![68u8, 65u8, 84u8, 65u8][0]);
    assert(seq![70u8, 65u8, 73u8, 76u8][0] != seq![68u8, 65u8, 84u8, 65u8][0]);
}

/// Why an exchange with the device went wrong.
#[derive(Clone, Copy, Debug, PartialEq, Eq, Structural)]
pub enum FastbootError {
    /// The reply's header was not the one expected.
    UnexpectedHeader { expected: FastbootHeader, received: FastbootHeader },
    /// The reply did not hold the number expected.
    InvalidNumber,
    /// The data received was not as long as announced.
    LengthMismatch { announced: usize, received_len: usize },
}

/// Succeeds when the received header is the expected one.
pub fn expect_header(received: FastbootHeader, expected: FastbootHeader) -> (r: Result<
    (),
    FastbootError,
>)
    ensures
        r == (if received == expected {
            Ok::<(), FastbootError>(())
        } else {
            Err(FastbootError::UnexpectedHeader { expected, received })
        }),
{
    if received == expected {
        Ok(())
    } else {
        Err(FastbootError::UnexpectedHeader { expected, received })
    }
}

/// `"download:"`, the command that announces a transfer.
pub open spec fn download_prefix() -> Seq<u8> {
    seq![100u8, 111u8, 119u8, 110u8, 108u8, 111u8, 97u8, 100u8, 58u8]
}

/// The command that announces a transfer of `len` bytes:
/// `download:` and the eight hexadecimal digits of `len`.
pub fn download_command(len: usize) -> (r: Vec<u8>)
    ensures
        r@ == download_prefix() + spec_hex_len(len as nat),
{
    let mut cmd = ByteVec::from_vec(vec![100u8, 111u8, 119u8, 110u8, 108u8, 111u8, 97u8, 100u8, 58u8]);
    let hex = ByteVec::from_len(len);
    cmd.append(&hex);
    cmd.into_vec()
}

/// The number a `getvar` reply gives: the decimal value of the reply when
/// its header is `OKAY` and it reads as a `u32`, else `default`.
pub fn getvar_u32_value(header: FastbootHeader, reply: &ByteVec, default: u32) -> (r: u32)
    ensures
        r == (if header == FastbootHeader::Okay {
            match parse_bounded(reply@, 10, u32::MAX as nat) {
                Some(v) => v as u32,
                None => default,
            }
        } else {
            default
        }),
{
    if header == FastbootHeader::Okay {
        match reply.as_decimal() {
            Ok(v) => v,
            Err(_) => default,
        }
    } else {
        default
    }
}

/// The first answer to a data request: it must be a `DATA` header whose
/// reply is the hexadecimal length of the data to come.
pub fn get_data_length(header: FastbootHeader, reply: &ByteVec) -> (r: Result<u32, FastbootError>)
    ensures
        header != FastbootHeader::Data ==> r == Err::<u32, FastbootError>(
            FastbootError::UnexpectedHeader { expected: FastbootHeader::Data, received: header },
        ),
        header == FastbootHeader::Data ==> match parse_bounded(reply@, 16, u32::MAX as nat) {
            Some(v) => r == Ok::<u32, FastbootError>(v as u32),
            None => r == Err::<u32, FastbootError>(FastbootError::InvalidNumber),
        },
{
    expect_header(header, FastbootHeader::Data)?;
    match reply.as_hexadecimal() {
        Ok(v) => Ok(v),
        Err(_) => Err(FastbootError::InvalidNumber),
    }
}

/// The data answer to a data request: it must be as long as announced.
/// `Ok(true)` when it is exactly `OKAY` and the exchange is over,
/// `Ok(false)` when an `OKAY` acknowledgement is still to be read.
pub fn get_data_payload(len: u32, payload: &ByteVec) -> (r: Result<bool, FastbootError>)
    ensures
        len as nat != payload@.len() ==> r == Err::<bool, FastbootError>(
            FastbootError::LengthMismatch { announced: len as usize, received_len: payload@.len() as usize },
        ),
        len as nat == payload@.len() ==> r == Ok::<bool, FastbootError>(
            header_of(payload@) == FastbootHeader::Okay,
        ),
{
    let received = payload.len();
    if len as usize != received {
        return Err(FastbootError::LengthMismatch { announced: len as usize, received_len: received });
    }
    Ok(FastbootHeader::from_bytes(payload.as_slice()) == FastbootHeader::Okay)
}

/// A tar entry of this size is sent to the device in one copy; any other
/// is sent in chunks of at most 2 MiB.
pub fn tar_entry_sent_whole(size: u64) -> (r: bool)
    ensures
        r == (0x10 <= size < 0x200000),
{
    size >= 0x10 && size < 0x200000
}

/// What a reply leaves in a C buffer of `capacity` bytes: as many bytes of
/// the reply as fit, the last of them replaced by the terminating NUL.
pub open spec fn spec_c_reply(reply: Seq<u8>, capacity: nat) -> Seq<u8> {
    let n = if capacity < reply.len() {
        capacity
    } else {
        reply.len()
    };
    reply.take(n as int).update(n - 1, 0u8)
}

/// The bytes a reply leaves in a C buffer of `capacity` bytes.
pub fn c_reply(reply: &[u8], capacity: usize) -> (r: Vec<u8>)
    requires
        capacity > 0,
        reply@.len() > 0,
    ensures
        r@ == spec_c_reply(reply@, capacity as nat),
{
    let n = if capacity < reply.len() {
        capacity
    } else {
        reply.len()
    };
    let mut v = copy_range(reply, 0, n);
    v.set(n - 1, 0u8);
    assert(v@ =~= spec_c_reply(reply@, capacity as nat));
    v
}

/// `set_active:` and the slot's name: the command that makes a slot the
/// one booted.
pub fn set_active_command(slot: Slot) -> (r: Vec<u8>)
    ensures
        r@ == seq![115u8, 101u8, 116u8, 95u8, 97u8, 99u8, 116u8, 105u8, 118u8, 101u8, 58u8] + seq![
            match slot {
                Slot::A => 97u8,
                Slot::B => 98u8,
            },
        ],
{
    let mut v: Vec<u8> = vec![115u8, 101u8, 116u8, 95u8, 97u8, 99u8, 116u8, 105u8, 118u8, 101u8, 58u8];
    match slot {
        Slot::A => v.push(97u8),
        Slot::B => v.push(98u8),
    }
    v
}

/// A download is answered by `DATA` and the announced length: reading that
/// reply keeps exactly the eight digits that `from_len` wrote, so the
/// download's check that the reply is the announced length holds.
pub proof fn lemma_download_echo(len: nat)
    requires
        len <= u32::MAX,
    ensures
        spec_hex_len(len).len() == 8,
        spec_read_reply(seq![68u8, 65u8, 84u8, 65u8] + spec_hex_len(len)) == (
            FastbootHeader::Data,
            spec_hex_len(len),
        ),
{
    assert(vstd::arithmetic::power::pow(16, 8) == 0x1_0000_0000) by {
        reveal_with_fuel(vstd::arithmetic::power::pow, 9);
    }
    lemma_radix_digits_len(len, 16, false, 8);
    let d = spec_hex_len(len);
    assert(d.len() == 8);
    lemma_read_reply_data_length(d, Seq::<u8>::empty());
    assert(seq![68u8, 65u8, 84u8, 65u8] + d + Seq::<u8>::empty() =~= seq![68u8, 65u8, 84u8, 65u8] + d);
}

} // verus!
