use update_ip::addr::{Ipv4Address, Ipv6Address};
use update_ip::resolver::opendns::{invalid_data, OpenDNS, QTYPE_A, QTYPE_AAAA};
use update_ip::resolver::ResolveErrorKind;

const QUESTION_NAME: [u8; 18] = [
    4, b'm', b'y', b'i', b'p', 7, b'o', b'p', b'e', b'n', b'd', b'n', b's', 3, b'c', b'o', b'm', 0,
];

/// A response with our ID, one answer named by a compression pointer.
fn answer(qtype: u16, rdata: &[u8]) -> Vec<u8> {
    let mut r = vec![0xAB, 0xCD, 0x81, 0x80, 0x00, 0x01, 0x00, 0x01, 0x00, 0x00, 0x00, 0x00];
    r.extend_from_slice(&QUESTION_NAME);
    r.extend_from_slice(&qtype.to_be_bytes());
    r.extend_from_slice(&[0x00, 0x01]);
    r.extend_from_slice(&[0xC0, 0x0C]);
    r.extend_from_slice(&qtype.to_be_bytes());
    r.extend_from_slice(&[0x00, 0x01, 0x00, 0x00, 0x00, 0x3C]);
    r.extend_from_slice(&(rdata.len() as u16).to_be_bytes());
    r.extend_from_slice(rdata);
    r
}

#[test]
fn build_query_for_a_and_aaaa() {
    let mut expected = vec![0xAB, 0xCD, 0x01, 0x00, 0x00, 0x01, 0, 0, 0, 0, 0, 0];
    expected.extend_from_slice(&QUESTION_NAME);
    expected.extend_from_slice(&[0x00, 0x01, 0x00, 0x01]);
    assert_eq!(OpenDNS::build_query(QTYPE_A), expected);
    let q = OpenDNS::build_query(QTYPE_AAAA);
    assert_eq!(q.len(), 34);
    assert_eq!(&q[30..], &[0x00, 28, 0x00, 0x01]);
    assert_eq!(&OpenDNS::build_query(0x1234)[30..32], &[0x12, 0x34]);
}

#[test]
fn answer_rdata_is_found() {
    let resp = answer(1, &[203, 0, 113, 7]);
    assert_eq!(OpenDNS::parse_rdata(&resp, resp.len()).unwrap(), &[203, 0, 113, 7]);
    // bytes past `len` are not read
    let mut padded = resp.clone();
    padded.extend_from_slice(&[0xEE; 40]);
    assert_eq!(OpenDNS::parse_rdata(&padded, resp.len()).unwrap(), &[203, 0, 113, 7]);
    // an empty RDATA
    let resp = answer(1, &[]);
    assert_eq!(OpenDNS::parse_rdata(&resp, resp.len()).unwrap(), &[] as &[u8]);
}

#[test]
fn answer_with_uncompressed_name() {
    let mut r = vec![0xAB, 0xCD, 0x81, 0x80, 0x00, 0x01, 0x00, 0x01, 0, 0, 0, 0];
    r.extend_from_slice(&QUESTION_NAME);
    r.extend_from_slice(&[0x00, 0x01, 0x00, 0x01]);
    r.extend_from_slice(&[2, b'a', b'b', 0]);
    r.extend_from_slice(&[0x00, 0x01, 0x00, 0x01, 0, 0, 0, 0, 0x00, 0x04, 9, 8, 7, 6]);
    assert_eq!(OpenDNS::parse_rdata(&r, r.len()).unwrap(), &[9, 8, 7, 6]);
}

#[test]
fn bad_header_is_invalid_data() {
    let resp = answer(1, &[1, 2, 3, 4]);
    for (buf, len) in [(&resp[..], 11), (&[0xAA, 0xCD, 0, 0, 0, 0, 0, 1, 0, 0, 0, 0][..], 12)] {
        let e = OpenDNS::parse_rdata(buf, len).unwrap_err();
        assert_eq!(e.kind, ResolveErrorKind::InvalidData);
        assert_eq!(e.message, "invalid DNS response header");
    }
    let mut wrong_id = resp.clone();
    wrong_id[1] = 0xCE;
    let e = OpenDNS::parse_rdata(&wrong_id, wrong_id.len()).unwrap_err();
    assert_eq!(e.message, "invalid DNS response header");
}

#[test]
fn zero_answers_is_no_address() {
    let mut resp = answer(28, &[0; 16]);
    resp[6] = 0;
    resp[7] = 0;
    let e = OpenDNS::parse_rdata(&resp, resp.len()).unwrap_err();
    assert_eq!(e.kind, ResolveErrorKind::AddrNotAvailable);
    assert_eq!(e.message, "no address in DNS response");
}

#[test]
fn truncated_responses() {
    let resp = answer(1, &[1, 2, 3, 4]);
    // ends right after the question
    let e = OpenDNS::parse_rdata(&resp, 34).unwrap_err();
    assert_eq!(e.kind, ResolveErrorKind::InvalidData);
    assert_eq!(e.message, "truncated DNS answer");
    // ends inside the answer's fixed fields
    let e = OpenDNS::parse_rdata(&resp, 45).unwrap_err();
    assert_eq!(e.message, "truncated DNS answer record");
    // RDATA runs past the end
    let e = OpenDNS::parse_rdata(&resp, 49).unwrap_err();
    assert_eq!(e.message, "RDATA extends past response");
    // a question name whose label runs past the end
    let mut bad = vec![0xAB, 0xCD, 0, 0, 0, 1, 0, 1, 0, 0, 0, 0, 60, b'x'];
    bad.extend_from_slice(&[0; 10]);
    let e = OpenDNS::parse_rdata(&bad, bad.len()).unwrap_err();
    assert_eq!(e.message, "truncated DNS answer");
}

#[test]
fn addresses_from_responses() {
    let resp = answer(1, &[198, 51, 100, 23]);
    assert_eq!(OpenDNS::ipv4_address(&resp, resp.len()).unwrap(), Ipv4Address([198, 51, 100, 23]));
    let octets = [0x20, 0x01, 0x0d, 0xb8, 0, 0, 0, 0, 0, 0, 0, 0, 0, 0, 0, 1];
    let resp = answer(28, &octets);
    assert_eq!(OpenDNS::ipv6_address(&resp, resp.len()).unwrap(), Ipv6Address(octets));
}

#[test]
fn wrong_rdata_length_is_invalid_data() {
    let resp = answer(1, &[1, 2, 3]);
    let e = OpenDNS::ipv4_address(&resp, resp.len()).unwrap_err();
    assert_eq!(e.kind, ResolveErrorKind::InvalidData);
    assert_eq!(e.message, "could not convert slice to array");
    let resp = answer(28, &[1, 2, 3, 4]);
    let e = OpenDNS::ipv6_address(&resp, resp.len()).unwrap_err();
    assert_eq!(e.message, "could not convert slice to array");
    // parse errors come through unchanged
    let e = OpenDNS::ipv4_address(&resp, 5).unwrap_err();
    assert_eq!(e.message, "invalid DNS response header");
}

#[test]
fn invalid_data_keeps_its_message() {
    let e = invalid_data("some message");
    assert_eq!(e.kind, ResolveErrorKind::InvalidData);
    assert_eq!(e.message, "some message");
}
