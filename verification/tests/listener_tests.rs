use resolver_core::listener::{
    decode_query, encode_response, frame_length, frame_stream_message, truncate_answer,
};
use resolver_core::message::{Answer, Record};
use resolver_core::query::Query;

/// A hand-assembled datagram asking for `WWW.Example.com A IN`, id 0x1234.
fn sample_packet() -> Vec<u8> {
    let mut p = vec![
        0x12, 0x34, // transaction id
        0x00, 0x00, // flags: a plain query
        0x00, 0x01, // one question
        0x00, 0x00, 0x00, 0x00, 0x00, 0x00, // no other sections
    ];
    p.push(3);
    p.extend_from_slice(b"WWW");
    p.push(7);
    p.extend_from_slice(b"Example");
    p.push(3);
    p.extend_from_slice(b"com");
    p.push(0);
    p.extend_from_slice(&[0x00, 0x01, 0x00, 0x01]); // A, IN
    p
}

#[test]
fn decode_extracts_canonical_question() {
    let q = decode_query(&sample_packet(), b"192.0.2.7".to_vec()).expect("valid packet");
    assert_eq!(q.name, b"www.example.com.".to_vec());
    assert_eq!(q.qtype, 1);
    assert_eq!(q.qclass, 1);
    assert_eq!(q.txid, 0x1234);
    assert_eq!(q.client, b"192.0.2.7".to_vec());
}

#[test]
fn decode_rejects_malformed_packets() {
    // too short for a header
    assert!(decode_query(&vec![0; 5], vec![]).is_err());
    // a response, not a query
    let mut p = sample_packet();
    p[2] = 0x80;
    assert!(decode_query(&p, vec![]).is_err());
    // wrong question count
    let mut p = sample_packet();
    p[5] = 2;
    assert!(decode_query(&p, vec![]).is_err());
    // truncated mid-label
    let mut p = sample_packet();
    p.truncate(14);
    assert!(decode_query(&p, vec![]).is_err());
    // compression pointer in a query name
    let mut p = sample_packet();
    p[12] = 0xc0;
    assert!(decode_query(&p, vec![]).is_err());
}

fn sample_query() -> Query {
    Query::new(&b"www.example.com".to_vec(), 1, 1, 0x1234, vec![]).expect("valid")
}

#[test]
fn encode_echoes_id_and_carries_counts_and_rcode() {
    let answer = Answer {
        records: vec![Record { rtype: 1, rclass: 1, data: vec![93, 184, 216, 34] }],
        rcode: 0,
        authoritative: true,
    };
    let bytes = encode_response(&sample_query(), &answer, 300, false);
    assert_eq!(&bytes[0..2], &[0x12, 0x34]); // id echoed
    assert_eq!(bytes[2], 0x84); // QR set, AA set, TC clear
    assert_eq!(bytes[3], 0x00); // NOERROR
    assert_eq!(&bytes[4..6], &[0, 1]); // one question
    assert_eq!(&bytes[6..8], &[0, 1]); // one answer record
    // question: 3www7example3com0 A IN
    let mut expected_q = vec![3u8];
    expected_q.extend_from_slice(b"www");
    expected_q.push(7);
    expected_q.extend_from_slice(b"example");
    expected_q.push(3);
    expected_q.extend_from_slice(b"com");
    expected_q.extend_from_slice(&[0, 0, 1, 0, 1]);
    assert_eq!(&bytes[12..12 + expected_q.len()], expected_q.as_slice());
    // record: pointer, type, class, ttl, rdlength, rdata
    let rec_start = 12 + expected_q.len();
    assert_eq!(
        &bytes[rec_start..],
        &[0xc0, 0x0c, 0, 1, 0, 1, 0, 0, 1, 44, 0, 4, 93, 184, 216, 34]
    );
}

#[test]
fn encode_sets_truncation_bit_when_asked() {
    let answer = Answer { records: vec![], rcode: 3, authoritative: false };
    let bytes = encode_response(&sample_query(), &answer, 0, true);
    assert_eq!(bytes[2], 0x82); // QR set, TC set
    assert_eq!(bytes[3], 0x03); // NXDOMAIN
}

#[test]
fn truncation_drops_trailing_records_not_leading_ones() {
    let rec = |b: u8| Record { rtype: 1, rclass: 1, data: vec![b, b, b, b] };
    let answer = Answer {
        records: vec![rec(1), rec(2), rec(3)],
        rcode: 0,
        authoritative: false,
    };
    let q = sample_query();
    // header 12 + question (17 + 4) + one record of 16 bytes = 49
    let (kept, tc) = truncate_answer(&q, &answer, 49);
    assert!(tc);
    assert_eq!(kept.records.len(), 1);
    assert_eq!(kept.records[0].data, vec![1, 1, 1, 1]);

    // room for everything: nothing is dropped and the bit stays clear
    let (all, tc2) = truncate_answer(&q, &answer, 512);
    assert!(!tc2);
    assert_eq!(all.records.len(), 3);
}

#[test]
fn stream_framing_round_trips() {
    let msg = vec![1u8, 2, 3, 4, 5];
    let framed = frame_stream_message(&msg);
    assert_eq!(framed.len(), msg.len() + 2);
    assert_eq!(frame_length(framed[0], framed[1]) as usize, msg.len());
    assert_eq!(&framed[2..], msg.as_slice());
}
