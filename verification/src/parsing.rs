//! Packet framing: a packet is a byte buffer that starts with the id of the
//! parser that understands the bytes after it.
use crate::decimal::{decimal_digits, push_digits};
use vstd::prelude::*;
use vstd::string::StringExecFns;

verus! {

/// The number of bytes of a packet id.
pub const U32_SIZE: usize = 4;

/// A packet as it came in: the id, then the payload.
#[derive(Debug, Clone, Copy, PartialEq, Eq)]
pub struct Packet<'a> {
    pub bytes: &'a [u8],
}

/// The payload of a packet, as a parser gets it.
#[derive(Debug, Clone, Copy, PartialEq, Eq)]
pub struct ParserPacket<'a> {
    pub bytes: &'a [u8],
}

/// What a parser makes of a payload.
#[derive(Debug, Clone, Copy, PartialEq, Eq, Structural)]
pub enum Response {
    X,
}

/// Why a packet could not be handed to a parser.
#[derive(Debug, Clone, Copy, PartialEq, Eq, Structural)]
pub enum PacketError {
    /// The packet is too short to contain an id.
    PacketHasNoId,
    /// No parser is registered under the packet's id, which hints at a
    /// client and a server that have lost step.
    IdDoesNotExist(u32),
}

/// The number that the first four bytes of `bytes` spell, the most
/// significant byte first.
pub open spec fn packet_id_of(bytes: Seq<u8>) -> int {
    bytes[0] * 0x100_0000 + bytes[1] * 0x1_0000 + bytes[2] * 0x100 + bytes[3]
}

impl PacketError {
    /// The message of the error.
    pub fn to_string(&self) -> (message: String)
        ensures
            message@ == match *self {
                PacketError::PacketHasNoId => "packet is to short to contain an id"@,
                PacketError::IdDoesNotExist(id) => "packet with id "@
                    + decimal_digits(id as nat)
                    + " does not exist. This is indicative of a client-server desync"@,
            },
    {
        match self {
            PacketError::PacketHasNoId => "packet is to short to contain an id".to_owned(),
            PacketError::IdDoesNotExist(id) => {
                let mut message = "packet with id ".to_owned();
                push_digits(&mut message, *id as u64);
                message.append(" does not exist. This is indicative of a client-server desync");
                message
            },
        }
    }
}

impl<'a> Packet<'a> {
    /// The id of a packet that is long enough to have one.
    pub fn get_packet_id_unchecked(&self) -> (id: u32)
        requires
            self.bytes@.len() >= U32_SIZE,
        ensures
            id == packet_id_of(self.bytes@),
    {
        let mut id: u32 = 0;
        let mut i: usize = 0;
        while i < U32_SIZE
            invariant
                i <= 4,
                self.bytes@.len() >= 4,
                i == 0 ==> id == 0,
                i == 1 ==> id == self.bytes[0],
                i == 2 ==> id == self.bytes[0] * 0x100 + self.bytes[1],
                i == 3 ==> id == self.bytes[0] * 0x1_0000 + self.bytes[1] * 0x100 + self.bytes[2],
                i == 4 ==> id == packet_id_of(self.bytes@),
            decreases 4 - i,
        {
            let byte = self.bytes[i];
            assert((id << 8) | (byte as u32) == id * 0x100 + byte) by (bit_vector)
                requires
                    id < 0x100_0000,
            ;
            id = (id << 8) | (byte as u32);
            i += 1;
        }
        id
    }

    /// The id of the packet, which a packet of fewer than four bytes does
    /// not have.
    pub fn get_packet_id(&self) -> (id: Result<u32, PacketError>)
        ensures
            id == if self.bytes@.len() < U32_SIZE {
                Err::<u32, PacketError>(PacketError::PacketHasNoId)
            } else {
                Ok(packet_id_of(self.bytes@) as u32)
            },
    {
        if self.bytes.len() < U32_SIZE {
            return Err(PacketError::PacketHasNoId);
        }
        Ok(self.get_packet_id_unchecked())
    }

    /// The payload of the packet: what follows the id.
    pub fn try_into(self) -> (payload: Result<ParserPacket<'a>, PacketError>)
        ensures
            self.bytes@.len() < U32_SIZE ==> payload == Err::<ParserPacket<'a>, PacketError>(
                PacketError::PacketHasNoId,
            ),
            self.bytes@.len() >= U32_SIZE ==> payload is Ok && payload->Ok_0.bytes@
                == self.bytes@.skip(U32_SIZE as int),
    {
        if self.bytes.len() < U32_SIZE {
            return Err(PacketError::PacketHasNoId);
        }
        Ok(
            ParserPacket {
                bytes: vstd::slice::slice_subrange(self.bytes, U32_SIZE, self.bytes.len()),
            },
        )
    }
}

/// The parsers of a connection, each under the id that it was given when it
/// was registered.
pub struct PacketParser<P> {
    parser_types: Vec<P>,
}

impl<P: Fn(ParserPacket) -> Response> PacketParser<P> {
    /// The registered parsers, in the order of their ids.
    pub closed spec fn parsers(&self) -> Seq<P> {
        self.parser_types@
    }

    /// Whether every registered parser takes every payload.
    pub open spec fn wf(&self) -> bool {
        forall|i: int, payload: ParserPacket|
            0 <= i < self.parsers().len() ==> #[trigger] call_requires(
                self.parsers()[i],
                (payload,),
            )
    }

    /// No parsers.
    pub fn new() -> (parser: Self)
        ensures
            parser.parsers() == Seq::<P>::empty(),
            parser.wf(),
    {
        PacketParser { parser_types: Vec::new() }
    }

    /// The number of registered parsers: the id that the next one gets.
    pub fn len(&self) -> (count: usize)
        ensures
            count == self.parsers().len(),
    {
        self.parser_types.len()
    }

    /// The parser that is registered under `id`, if there is one.
    pub fn parser(&self, id: u32) -> (parser: Option<&P>)
        ensures
            parser is Some <==> id < self.parsers().len(),
            parser matches Some(found) ==> *found == self.parsers()[id as int],
    {
        if (id as usize) < self.parser_types.len() {
            Some(&self.parser_types[id as usize])
        } else {
            None
        }
    }

    /// Registers `parser` under the next free id, which is returned.
    pub fn register_parser(&mut self, parser: P) -> (id: u32)
        requires
            old(self).wf(),
            old(self).parsers().len() < u32::MAX,
            forall|payload: ParserPacket| call_requires(parser, (payload,)),
        ensures
            id == old(self).parsers().len(),
            final(self).parsers() == old(self).parsers().push(parser),
            final(self).wf(),
    {
        self.parser_types.push(parser);
        (self.parser_types.len() - 1) as u32
    }

    /// Hands the payload of `packet` to the parser that is registered under
    /// the packet's id.
    pub fn parse_packet(&self, packet: Packet) -> (response: Result<Response, PacketError>)
        requires
            self.wf(),
        ensures
            packet.bytes@.len() < U32_SIZE ==> response == Err::<Response, PacketError>(
                PacketError::PacketHasNoId,
            ),
            packet.bytes@.len() >= U32_SIZE && packet_id_of(packet.bytes@) >= self.parsers().len()
                ==> response == Err::<Response, PacketError>(
                PacketError::IdDoesNotExist(packet_id_of(packet.bytes@) as u32),
            ),
            packet.bytes@.len() >= U32_SIZE && packet_id_of(packet.bytes@) < self.parsers().len()
                ==> response is Ok && exists|payload: ParserPacket|
                payload.bytes@ == packet.bytes@.skip(U32_SIZE as int) && call_ensures(
                    self.parsers()[packet_id_of(packet.bytes@)],
                    (payload,),
                    #[trigger] response->Ok_0,
                ),
    {
        let packet_id = match packet.get_packet_id() {
            Ok(id) => id,
            Err(error) => {
                return Err(error);
            },
        };
        if packet_id as usize >= self.parser_types.len() {
            return Err(PacketError::IdDoesNotExist(packet_id));
        }
        let parser = &self.parser_types[packet_id as usize];
        let payload = match packet.try_into() {
            Ok(payload) => payload,
            Err(error) => {
                return Err(error);
            },
        };
        Ok(parser(payload))
    }
}

} // verus!
