use voxelrun::parsing::{Packet, PacketError, PacketParser, ParserPacket, Response};

fn parser_fn(_packet: ParserPacket) -> Response {
    println!("hi");
    Response::X
}

#[test]
fn register_parser() {
    let mut packet_parser = PacketParser::<fn(ParserPacket) -> Response>::new();
    assert_eq!(packet_parser.register_parser(parser_fn), 0);
    assert_eq!(packet_parser.register_parser(parser_fn), 1);
    assert_eq!(
        *packet_parser.parser(0).unwrap() as usize,
        parser_fn as fn(ParserPacket) -> Response as usize
    );
    assert_eq!(
        *packet_parser.parser(1).unwrap() as usize,
        parser_fn as fn(ParserPacket) -> Response as usize
    );
    assert!(packet_parser.parser(2).is_none());
    assert_eq!(packet_parser.len(), 2);
}

#[test]
fn parse_packet_not_exist() {
    let packet_parser = PacketParser::<fn(ParserPacket) -> Response>::new();
    let result = 2u32;
    let test_packet = Packet {
        bytes: &[
            ((result & 0xff000000) >> 24) as u8,
            ((result & 0x00ff0000) >> 16) as u8,
            ((result & 0x0000ff00) >> 8) as u8,
            (result & 0x000000ff) as u8,
        ],
    };
    assert_eq!(
        Err(PacketError::IdDoesNotExist(result)),
        packet_parser.parse_packet(test_packet)
    );
}

#[test]
fn parse_packet_exist() {
    let mut packet_parser = PacketParser::<fn(ParserPacket) -> Response>::new();
    packet_parser.register_parser(parser_fn);
    let result = 0u32;
    let test_packet = Packet {
        bytes: &[
            ((result & 0xff000000) >> 24) as u8,
            ((result & 0x00ff0000) >> 16) as u8,
            ((result & 0x0000ff00) >> 8) as u8,
            (result & 0x000000ff) as u8,
        ],
    };
    assert_eq!(Ok(Response::X), packet_parser.parse_packet(test_packet));
}

#[test]
fn parse_packet_without_id() {
    let mut packet_parser = PacketParser::<fn(ParserPacket) -> Response>::new();
    packet_parser.register_parser(parser_fn);
    assert_eq!(
        Err(PacketError::PacketHasNoId),
        packet_parser.parse_packet(Packet { bytes: &[0, 0, 0] })
    );
}

#[test]
fn parse_packet_hands_payload_to_the_parser_of_the_id() {
    fn first(packet: ParserPacket) -> Response {
        assert_eq!(packet.bytes, &[9u8, 8, 7]);
        panic!("the parser with the id 0 was called");
    }
    fn second(packet: ParserPacket) -> Response {
        assert_eq!(packet.bytes, &[9u8, 8, 7]);
        Response::X
    }
    let mut packet_parser = PacketParser::<fn(ParserPacket) -> Response>::new();
    packet_parser.register_parser(first);
    packet_parser.register_parser(second);
    let packet = Packet { bytes: &[0, 0, 0, 1, 9, 8, 7] };
    assert_eq!(Ok(Response::X), packet_parser.parse_packet(packet));
    let packet = Packet { bytes: &[0, 0, 0, 2, 9, 8, 7] };
    assert_eq!(Err(PacketError::IdDoesNotExist(2)), packet_parser.parse_packet(packet));
}

#[test]
fn get_packet_id_longer() {
    let result = 0x01020304u32;
    let test_packet = Packet {
        bytes: &[
            ((result & 0xff000000) >> 24) as u8,
            ((result & 0x00ff0000) >> 16) as u8,
            ((result & 0x0000ff00) >> 8) as u8,
            (result & 0x000000ff) as u8,
            7u8,
        ],
    };
    assert_eq!(result, test_packet.get_packet_id().unwrap())
}

#[test]
fn get_packet_id_precise() {
    let result = 0x01020304u32;
    let test_packet = Packet {
        bytes: &[
            ((result & 0xff000000) >> 24) as u8,
            ((result & 0x00ff0000) >> 16) as u8,
            ((result & 0x0000ff00) >> 8) as u8,
            (result & 0x000000ff) as u8,
        ],
    };
    assert_eq!(result, test_packet.get_packet_id().unwrap())
}

#[test]
fn get_packet_id_shorter() {
    let result = 0x01020304u32;
    let test_packet = Packet {
        bytes: &[
            ((result & 0xff000000) >> 24) as u8,
            ((result & 0x00ff0000) >> 16) as u8,
            ((result & 0x0000ff00) >> 8) as u8,
        ],
    };
    assert_eq!(Err(PacketError::PacketHasNoId), test_packet.get_packet_id())
}

#[test]
fn get_packet_id_of_high_bytes() {
    let test_packet = Packet { bytes: &[0xff, 0xfe, 0xfd, 0xfc, 1, 2] };
    assert_eq!(Ok(0xfffefdfc), test_packet.get_packet_id());
    assert_eq!(0xfffefdfc, test_packet.get_packet_id_unchecked());
}

#[test]
fn try_into_parser_packet_longer() {
    let result = 0x01020304u32;
    let bytes = [
        ((result & 0xff000000) >> 24) as u8,
        ((result & 0x00ff0000) >> 16) as u8,
        ((result & 0x0000ff00) >> 8) as u8,
        (result & 0x000000ff) as u8,
        7u8,
    ];
    let test_packet = Packet { bytes: &bytes };
    let reference = ParserPacket { bytes: &bytes[4..] };
    assert_eq!(reference.bytes.len(), 1);
    let parsed: ParserPacket = test_packet.try_into().unwrap();
    assert_eq!(reference, parsed);
    assert_eq!(reference.bytes.as_ptr(), parsed.bytes.as_ptr());
}

#[test]
fn try_into_parser_packet_precise() {
    let result = 0x01020304u32;
    let test_packet = Packet {
        bytes: &[
            ((result & 0xff000000) >> 24) as u8,
            ((result & 0x00ff0000) >> 16) as u8,
            ((result & 0x0000ff00) >> 8) as u8,
            (result & 0x000000ff) as u8,
        ],
    };
    assert_eq!(result, test_packet.get_packet_id().unwrap());
    assert_eq!(test_packet.try_into().unwrap().bytes.len(), 0);
}

#[test]
fn try_into_parser_packet_to_short() {
    let result = 0x01020304u32;
    let test_packet = Packet {
        bytes: &[
            ((result & 0xff000000) >> 24) as u8,
            ((result & 0x00ff0000) >> 16) as u8,
            ((result & 0x0000ff00) >> 8) as u8,
        ],
    };
    assert_eq!(Err(PacketError::PacketHasNoId), test_packet.try_into())
}

#[test]
fn packet_error_messages() {
    assert_eq!(
        PacketError::PacketHasNoId.to_string(),
        "packet is to short to contain an id"
    );
    assert_eq!(
        PacketError::IdDoesNotExist(4070).to_string(),
        "packet with id 4070 does not exist. This is indicative of a client-server desync"
    );
}
