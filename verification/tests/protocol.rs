use rtipc::header::verify_header;
use rtipc::header::write_header;
use rtipc::protocol::create_request_message;
use rtipc::protocol::respond;
use rtipc::protocol::check_response;
use rtipc::protocol::create_response;
use rtipc::protocol::parse_request;
use rtipc::protocol::parse_response;
use rtipc::protocol::request_read;
use rtipc::protocol::ChannelEntry;
use rtipc::protocol::Layout;
use rtipc::ChannelParam;
use rtipc::MessageError;
use rtipc::RtipcError;
use rtipc::VectorParam;

fn sample() -> VectorParam {
    VectorParam {
        producers: vec![ChannelParam::new(0, 8, false, vec![0xa1, 0xa2])],
        consumers: vec![
            ChannelParam::new(10, 16, true, Vec::new()),
            ChannelParam::new(1, 0x0102_0304, true, vec![0xc1]),
        ],
        info: vec![0x11, 0x22, 0x33],
    }
}

fn same(a: &ChannelParam, b: &ChannelParam) -> bool {
    a.additional_messages == b.additional_messages
        && a.message_size == b.message_size
        && a.eventfd == b.eventfd
        && a.info == b.info
}

fn sample_bytes() -> Vec<u8> {
    vec![
        0x0c, 0x1f, 0x01, 0x00, 0x40, 0x00, 0x04, 0x00, // header
        0x03, 0x00, 0x00, 0x00, // size of the vector's metadata
        0x01, 0x00, 0x00, 0x00, // producers
        0x02, 0x00, 0x00, 0x00, // consumers
        0x00, 0x00, 0x00, 0x00, 0x08, 0x00, 0x00, 0x00, 0x00, 0x00, 0x00, 0x00, 0x02, 0x00, 0x00,
        0x00, // first entry
        0x0a, 0x00, 0x00, 0x00, 0x10, 0x00, 0x00, 0x00, 0x01, 0x00, 0x00, 0x00, 0x00, 0x00, 0x00,
        0x00, // second entry
        0x01, 0x00, 0x00, 0x00, 0x04, 0x03, 0x02, 0x01, 0x01, 0x00, 0x00, 0x00, 0x01, 0x00, 0x00,
        0x00, // third entry
        0x11, 0x22, 0x33, // the vector's metadata
        0xa1, 0xa2, // metadata of the producer
        0xc1, // metadata of the second consumer
    ]
}

#[test]
fn request_bytes() {
    assert_eq!(create_request_message(&sample(), 64), sample_bytes());
}

#[test]
fn request_of_an_empty_vector() {
    let empty = VectorParam { producers: Vec::new(), consumers: Vec::new(), info: Vec::new() };
    let bytes = create_request_message(&empty, 128);
    assert_eq!(
        bytes,
        vec![
            0x0c, 0x1f, 0x01, 0x00, 0x80, 0x00, 0x04, 0x00, 0, 0, 0, 0, 0, 0, 0, 0, 0, 0, 0, 0
        ]
    );
    let read = parse_request(&bytes, 128).unwrap();
    assert!(read.producers.is_empty());
    assert!(read.consumers.is_empty());
    assert!(read.info.is_empty());
}

#[test]
fn request_round_trip() {
    let written = sample();
    let read = parse_request(&create_request_message(&written, 64), 64).unwrap();
    assert_eq!(read.info, written.info);
    assert_eq!(read.producers.len(), 1);
    assert_eq!(read.consumers.len(), 2);
    assert!(same(&read.producers[0], &written.producers[0]));
    assert!(same(&read.consumers[0], &written.consumers[0]));
    assert!(same(&read.consumers[1], &written.consumers[1]));
}

#[test]
fn request_ignores_what_follows() {
    let mut bytes = sample_bytes();
    bytes.extend_from_slice(&[1, 2, 3]);
    let read = parse_request(&bytes, 64).unwrap();
    assert_eq!(read.consumers[1].info, vec![0xc1]);
}

#[test]
fn request_layout() {
    let layout = Layout::calc(&sample()).unwrap();
    assert_eq!(layout.vector_info_offset, 8);
    assert_eq!(layout.num_channels, [12, 16]);
    assert_eq!(layout.channel_table, 20);
    assert_eq!(layout.vector_info, 68);
    assert_eq!(layout.channel_infos, 71);
    assert_eq!(layout.size, 74);
    assert_eq!(layout.size, sample_bytes().len());
}

#[test]
fn entry_cuts_numbers_to_their_field() {
    let entry = ChannelEntry::from_param(&ChannelParam::new(3, 24, true, vec![0; 5]));
    assert_eq!(entry.additional_messages, 3);
    assert_eq!(entry.message_size, 24);
    assert_eq!(entry.eventfd, 1);
    assert_eq!(entry.info_size, 5);
    if usize::BITS > 32 {
        let wide = ChannelParam::new(0x1_0000_0005, 0x2_0000_0000, false, Vec::new());
        let entry = ChannelEntry::from_param(&wide);
        assert_eq!(entry.additional_messages, 5);
        assert_eq!(entry.message_size, 0);
        assert_eq!(entry.eventfd, 0);
    }
}

#[test]
fn header_mismatches() {
    let good = sample_bytes();
    assert_eq!(verify_header(&good, 64), Ok(()));
    assert_eq!(verify_header(&good[..8], 64), Ok(()));
    assert_eq!(verify_header(&good[..7], 64), Err(MessageError::Size));
    assert_eq!(verify_header(&[], 64), Err(MessageError::Size));
    let mut bad = good.clone();
    bad[0] = 0x0d;
    assert_eq!(verify_header(&bad, 64), Err(MessageError::Magic));
    assert_eq!(parse_request(&bad, 64).err(), Some(MessageError::Magic));
    let mut bad = good.clone();
    bad[2] = 2;
    assert_eq!(verify_header(&bad, 64), Err(MessageError::Version));
    assert_eq!(parse_request(&bad, 64).err(), Some(MessageError::Version));
    assert_eq!(verify_header(&good, 128), Err(MessageError::CachelineSize));
    assert_eq!(parse_request(&good, 128).err(), Some(MessageError::CachelineSize));
    assert_eq!(verify_header(&good, 0x1_0040), Err(MessageError::CachelineSize));
    let mut bad = good.clone();
    bad[6] = 8;
    assert_eq!(verify_header(&bad, 64), Err(MessageError::AtomicSize));
    assert_eq!(parse_request(&bad, 64).err(), Some(MessageError::AtomicSize));
    // The first field that differs decides.
    let mut bad = good.clone();
    bad[1] = 0;
    bad[3] = 7;
    assert_eq!(verify_header(&bad, 128), Err(MessageError::Magic));
}

#[test]
fn write_header_in_place() {
    let mut buf = vec![0xee; 10];
    write_header(&mut buf, 64);
    assert_eq!(buf, vec![0x0c, 0x1f, 0x01, 0x00, 0x40, 0x00, 0x04, 0x00, 0xee, 0xee]);
    let mut short = vec![0xee; 7];
    write_header(&mut short, 64);
    assert_eq!(short, vec![0xee; 7]);
    let mut buf = vec![0; 8];
    write_header(&mut buf, 0x1234);
    assert_eq!(buf, vec![0x0c, 0x1f, 0x01, 0x00, 0x34, 0x12, 0x04, 0x00]);
}

#[test]
fn truncated_requests() {
    let good = sample_bytes();
    for len in 8..good.len() {
        assert_eq!(parse_request(&good[..len], 64).err(), Some(MessageError::Size), "{}", len);
    }
    assert!(parse_request(&good, 64).is_ok());
}

#[test]
fn request_with_message_size_zero() {
    let mut bad = sample_bytes();
    bad[24] = 0;
    assert_eq!(parse_request(&bad, 64).err(), Some(MessageError::Size));
    let zero = VectorParam {
        producers: vec![ChannelParam::new(0, 0, false, Vec::new())],
        consumers: Vec::new(),
        info: Vec::new(),
    };
    assert_eq!(
        parse_request(&create_request_message(&zero, 64), 64).err(),
        Some(MessageError::Size)
    );
}

#[test]
fn request_with_metadata_beyond_its_end() {
    let mut bad = sample_bytes();
    // The last entry announces two bytes where one is left.
    bad[64] = 2;
    assert_eq!(parse_request(&bad, 64).err(), Some(MessageError::Size));
    let mut bad = sample_bytes();
    // The vector's metadata alone reaches beyond the end.
    bad[8] = 7;
    assert_eq!(parse_request(&bad, 64).err(), Some(MessageError::Size));
    let mut bad = sample_bytes();
    // More channels than the request has entries for.
    bad[12] = 0xff;
    bad[13] = 0xff;
    bad[14] = 0xff;
    bad[15] = 0xff;
    assert_eq!(parse_request(&bad, 64).err(), Some(MessageError::Size));
}

#[test]
fn request_read_words() {
    let bytes = [0x78, 0x56, 0x34, 0x12, 0xff];
    assert_eq!(request_read(&bytes, 0), Ok(0x1234_5678));
    assert_eq!(request_read(&bytes, 1), Ok(0xff12_3456));
    assert_eq!(request_read(&bytes, 2), Err(MessageError::Size));
    assert_eq!(request_read(&bytes, usize::MAX), Err(MessageError::Size));
}

#[test]
fn responses() {
    assert_eq!(create_response(true), vec![0, 0, 0, 0]);
    assert_eq!(create_response(false), vec![0xff, 0xff, 0xff, 0xff]);
    assert_eq!(parse_response(&create_response(true)), Ok(true));
    assert_eq!(parse_response(&create_response(false)), Ok(false));
    assert_eq!(parse_response(&[0, 0, 0, 1]), Err(MessageError::Cookie));
    assert_eq!(parse_response(&[0xff, 0xff, 0xff, 0]), Err(MessageError::Cookie));
    assert_eq!(parse_response(&[0, 0, 0]), Err(MessageError::Cookie));
    assert_eq!(parse_response(&[0, 0, 0, 0, 0]), Err(MessageError::Cookie));
    assert_eq!(parse_response(&[]), Err(MessageError::Cookie));
}

#[test]
fn handshake_outcomes() {
    assert!(check_response(&[0, 0, 0, 0]).is_ok());
    assert!(matches!(check_response(&[0xff; 4]), Err(RtipcError::Rejected)));
    assert!(matches!(
        check_response(&[0xff, 0, 0, 0]),
        Err(RtipcError::Message(MessageError::Cookie))
    ));
    assert!(matches!(check_response(&[]), Err(RtipcError::Message(MessageError::Cookie))));
    let (response, outcome) = respond(Ok(7u32), true);
    assert_eq!(response, vec![0, 0, 0, 0]);
    assert!(matches!(outcome, Ok(7)));
    let (response, outcome) = respond(Ok(7u32), false);
    assert_eq!(response, vec![0xff; 4]);
    assert!(matches!(outcome, Err(RtipcError::Rejected)));
    assert!(matches!(check_response(&response), Err(RtipcError::Rejected)));
    // What could not be built is not accepted, whatever the caller says.
    let failed: Result<u32, RtipcError> = Err(RtipcError::MissingDescriptor);
    let (response, outcome) = respond(failed, true);
    assert_eq!(response, vec![0xff; 4]);
    assert!(matches!(outcome, Err(RtipcError::MissingDescriptor)));
    let failed: Result<u32, RtipcError> = Err(RtipcError::Message(MessageError::Magic));
    let (response, outcome) = respond(failed, false);
    assert_eq!(response, vec![0xff; 4]);
    assert!(matches!(outcome, Err(RtipcError::Message(MessageError::Magic))));
}
