use jump10::audio::{append_packet, take_packet};
use std::io::Cursor;

/// A tiny Ogg Vorbis stream: mono, 8000 Hz, three silent short blocks.
const SILENT_OGG: [u8; 192] = [
    0x4f, 0x67, 0x67, 0x53, 0x00, 0x02, 0x00, 0x00, 0x00, 0x00, 0x00, 0x00,
    0x00, 0x00, 0x34, 0x12, 0x00, 0x00, 0x00, 0x00, 0x00, 0x00, 0xc5, 0x37,
    0xc7, 0x50, 0x01, 0x1e, 0x01, 0x76, 0x6f, 0x72, 0x62, 0x69, 0x73, 0x00,
    0x00, 0x00, 0x00, 0x01, 0x40, 0x1f, 0x00, 0x00, 0x00, 0x00, 0x00, 0x00,
    0x00, 0x00, 0x00, 0x00, 0x00, 0x00, 0x00, 0x00, 0x66, 0x01, 0x4f, 0x67,
    0x67, 0x53, 0x00, 0x00, 0x00, 0x00, 0x00, 0x00, 0x00, 0x00, 0x00, 0x00,
    0x34, 0x12, 0x00, 0x00, 0x01, 0x00, 0x00, 0x00, 0xcc, 0x53, 0x31, 0xb4,
    0x02, 0x14, 0x34, 0x03, 0x76, 0x6f, 0x72, 0x62, 0x69, 0x73, 0x04, 0x00,
    0x00, 0x00, 0x74, 0x65, 0x73, 0x74, 0x00, 0x00, 0x00, 0x00, 0x01, 0x05,
    0x76, 0x6f, 0x72, 0x62, 0x69, 0x73, 0x00, 0x42, 0x43, 0x56, 0x01, 0x00,
    0x02, 0x00, 0x00, 0x00, 0x00, 0x00, 0x00, 0x00, 0x10, 0x00, 0x00, 0x20,
    0x40, 0x00, 0x00, 0x00, 0x00, 0x00, 0x00, 0x00, 0x00, 0x00, 0x00, 0x00,
    0x00, 0x00, 0x00, 0x00, 0x00, 0x00, 0x00, 0x00, 0x00, 0x00, 0x00, 0x00,
    0x00, 0x00, 0x01, 0x4f, 0x67, 0x67, 0x53, 0x00, 0x04, 0x40, 0x00, 0x00,
    0x00, 0x00, 0x00, 0x00, 0x00, 0x34, 0x12, 0x00, 0x00, 0x02, 0x00, 0x00,
    0x00, 0x20, 0xe6, 0xd8, 0x7a, 0x03, 0x01, 0x01, 0x01, 0x00, 0x00, 0x00,
];

/// Reads the packets of a stream with lewton, joined by `take_packet`.
fn decode(ogg: &[u8]) -> Option<(u8, u32, Vec<i16>)> {
    let mut reader = lewton::inside_ogg::OggStreamReader::new(Cursor::new(ogg.to_vec())).ok()?;
    let mut samples = Vec::new();
    while take_packet(&mut samples, reader.read_dec_packet_itl()) {}
    Some((reader.ident_hdr.audio_channels, reader.ident_hdr.audio_sample_rate, samples))
}

#[test]
fn decode_rejects_bytes_that_are_not_ogg_vorbis() {
    assert!(decode(b"definitely not an ogg stream").is_none());
    assert!(decode(&[]).is_none());
}

#[test]
fn decode_reads_header_and_joins_packets() {
    let (channels, rate, samples) = decode(&SILENT_OGG).expect("the stream decodes");
    assert_eq!((channels, rate), (1, 8000));
    assert!(samples.iter().all(|&s| s == 0));
    assert_eq!(samples.len(), 64);
}

#[test]
fn decode_of_a_cut_stream_stops_at_the_cut() {
    // Without its last page the headers still read, and no packet follows.
    let (channels, rate, samples) = decode(&SILENT_OGG[..159]).expect("the headers decode");
    assert_eq!((channels, rate), (1, 8000));
    assert!(samples.is_empty());
}

#[test]
fn append_packet_adds_the_samples_at_the_end() {
    let mut samples: Vec<i16> = vec![1, -2];
    append_packet(&mut samples, &vec![3, 4, -5]);
    assert_eq!(samples, vec![1, -2, 3, 4, -5]);
    append_packet(&mut samples, &vec![]);
    assert_eq!(samples, vec![1, -2, 3, 4, -5]);
}

#[test]
fn take_packet_appends_a_packet_and_stops_at_the_end() {
    let mut samples: Vec<i16> = vec![7];
    assert!(take_packet(&mut samples, Ok(Some(vec![8, 9]))));
    assert_eq!(samples, vec![7, 8, 9]);
    assert!(!take_packet(&mut samples, Ok(None)));
    assert_eq!(samples, vec![7, 8, 9]);
}
