//! Resolution through OpenDNS: `myip.opendns.com` answers with the address
//! the query came from.

use vstd::prelude::*;

use super::{ResolveError, ResolveErrorKind};
use crate::addr::{Ipv4Address, Ipv6Address};

verus! {

/// The OpenDNS resolver. It needs no configuration.
pub struct OpenDNS;

/// The QTYPE that asks for an IPv4 address (an A record).
pub const QTYPE_A: u16 = 1;

/// The QTYPE that asks for an IPv6 address (an AAAA record).
pub const QTYPE_AAAA: u16 = 28;

/// The message of the error for an answer of the wrong length.
pub open spec fn wrong_length_message() -> Seq<char> {
    "could not convert slice to array"@
}

/// The header of every query: ID 0xABCD, a standard query with recursion
/// desired, one question and no other records.
pub open spec fn query_header() -> Seq<u8> {
    seq![0xABu8, 0xCD, 0x01, 0x00, 0x00, 0x01, 0x00, 0x00, 0x00, 0x00, 0x00, 0x00]
}

/// The name `myip.opendns.com` as DNS labels, with its terminating zero.
pub open spec fn query_name() -> Seq<u8> {
    seq![
        4u8, 0x6d, 0x79, 0x69, 0x70,
        7u8, 0x6f, 0x70, 0x65, 0x6e, 0x64, 0x6e, 0x73,
        3u8, 0x63, 0x6f, 0x6d,
        0u8,
    ]
}

/// A 16-bit value in network byte order.
pub open spec fn be_bytes(v: u16) -> Seq<u8> {
    seq![(v / 256) as u8, (v % 256) as u8]
}

/// The value of two bytes in network byte order.
pub open spec fn be_value(hi: u8, lo: u8) -> int {
    hi * 256 + lo
}

/// The query for `myip.opendns.com` with the given QTYPE and QCLASS IN.
pub open spec fn query_bytes(qtype: u16) -> Seq<u8> {
    query_header() + query_name() + be_bytes(qtype) + seq![0x00u8, 0x01]
}

/// The layout of every query: ID 0xABCD, flags 0x0100 (a standard query
/// with recursion desired), exactly one question and no other records; the
/// question names `myip.opendns.com` (labels 4 "myip", 7 "opendns", 3 "com",
/// then the root) with the given QTYPE and class IN. Only the two QTYPE bytes
/// depend on the QTYPE.
pub proof fn lemma_query_layout(qtype: u16, other: u16)
    ensures
        query_bytes(qtype).len() == 34,
        query_bytes(qtype)[0] == 0xAB && query_bytes(qtype)[1] == 0xCD,
        be_value(query_bytes(qtype)[2], query_bytes(qtype)[3]) == 0x0100,
        be_value(query_bytes(qtype)[4], query_bytes(qtype)[5]) == 1,
        be_value(query_bytes(qtype)[6], query_bytes(qtype)[7]) == 0,
        be_value(query_bytes(qtype)[8], query_bytes(qtype)[9]) == 0,
        be_value(query_bytes(qtype)[10], query_bytes(qtype)[11]) == 0,
        query_bytes(qtype).subrange(12, 30) == seq![
            4u8, 0x6d, 0x79, 0x69, 0x70,
            7u8, 0x6f, 0x70, 0x65, 0x6e, 0x64, 0x6e, 0x73,
            3u8, 0x63, 0x6f, 0x6d,
            0u8,
        ],
        be_value(query_bytes(qtype)[30], query_bytes(qtype)[31]) == qtype,
        be_value(query_bytes(qtype)[32], query_bytes(qtype)[33]) == 1,
        query_bytes(qtype).take(30) == query_bytes(other).take(30),
        query_bytes(qtype).skip(32) == query_bytes(other).skip(32),
{
    let q = query_bytes(qtype);
    assert(q.subrange(12, 30) =~= query_name());
    assert(q.take(30) =~= query_bytes(other).take(30));
    assert(q.skip(32) =~= query_bytes(other).skip(32));
}

/// Where a name that starts at `pos` ends, reading labels the way the
/// response parser does: each non-zero length byte skips itself and the
/// label; a zero byte, or the end of the data, stops.
pub open spec fn name_end(buf: Seq<u8>, len: int, pos: int) -> int
    decreases (if pos < len { len - pos } else { 0 }),
{
    if 0 <= pos < len && buf[pos] != 0 {
        name_end(buf, len, pos + buf[pos] + 1)
    } else {
        pos
    }
}

/// Why a DNS response was refused.
#[derive(Debug, Clone, Copy, PartialEq, Eq, Structural)]
pub enum ResponseFault {
    /// Shorter than a header, or not an answer to our query ID.
    BadHeader,
    /// The answer count is zero.
    NoAnswer,
    /// The data ends before the answer starts.
    TruncatedAnswer,
    /// The data ends inside the fixed fields of the answer record.
    TruncatedRecord,
    /// The answer's RDATA runs past the end of the data.
    RdataOverrun,
}

/// The error that a fault is reported as.
pub open spec fn fault_kind(f: ResponseFault) -> ResolveErrorKind {
    match f {
        ResponseFault::NoAnswer => ResolveErrorKind::AddrNotAvailable,
        _ => ResolveErrorKind::InvalidData,
    }
}

/// The message that a fault is reported with.
pub open spec fn fault_message(f: ResponseFault) -> Seq<char> {
    match f {
        ResponseFault::BadHeader => "invalid DNS response header"@,
        ResponseFault::NoAnswer => "no address in DNS response"@,
        ResponseFault::TruncatedAnswer => "truncated DNS answer"@,
        ResponseFault::TruncatedRecord => "truncated DNS answer record"@,
        ResponseFault::RdataOverrun => "RDATA extends past response"@,
    }
}

/// Where the first answer's RDATA lies in the first `len` bytes of `buf`
/// (start and end), or why there is none.
pub open spec fn rdata_span(buf: Seq<u8>, len: int) -> Result<(int, int), ResponseFault> {
    if len < 12 || buf[0] != 0xAB || buf[1] != 0xCD {
        Err(ResponseFault::BadHeader)
    } else if be_value(buf[6], buf[7]) == 0 {
        Err(ResponseFault::NoAnswer)
    } else {
        // header, question name, QTYPE and QCLASS
        let answer = name_end(buf, len, 12) + 1 + 4;
        if answer >= len {
            Err(ResponseFault::TruncatedAnswer)
        } else {
            // the answer's name: a compression pointer or labels
            let fields = if buf[answer] >= 0xC0 {
                answer + 2
            } else {
                name_end(buf, len, answer) + 1
            };
            if fields + 10 > len {
                Err(ResponseFault::TruncatedRecord)
            } else {
                let start = fields + 10;
                let end = start + be_value(buf[fields + 8], buf[fields + 9]);
                if end > len {
                    Err(ResponseFault::RdataOverrun)
                } else {
                    Ok((start, end))
                }
            }
        }
    }
}

/// A response to `query_bytes(qtype)` with one answer: the given header, the
/// question echoed back, then an answer whose name is a compression pointer
/// (`pointer`), its TYPE, CLASS and TTL (`fields`), RDLENGTH and RDATA.
pub open spec fn answer_bytes(
    header: Seq<u8>,
    qtype: u16,
    pointer: Seq<u8>,
    fields: Seq<u8>,
    rdata: Seq<u8>,
) -> Seq<u8> {
    header + query_name() + be_bytes(qtype) + seq![0x00u8, 0x01] + pointer + fields + be_bytes(
        rdata.len() as u16,
    ) + rdata
}

/// An answer to our query is read back: when a response carries our ID, a
/// non-zero answer count, the question as `build_query` wrote it and one
/// answer record named by a compression pointer, the RDATA found is exactly
/// that record's data.
pub proof fn lemma_answer_rdata_found(
    header: Seq<u8>,
    qtype: u16,
    pointer: Seq<u8>,
    fields: Seq<u8>,
    rdata: Seq<u8>,
)
    requires
        header.len() == 12,
        header[0] == 0xAB,
        header[1] == 0xCD,
        be_value(header[6], header[7]) != 0,
        pointer.len() == 2,
        pointer[0] >= 0xC0,
        fields.len() == 8,
        rdata.len() <= 0xFFFF,
    ensures
        ({
            let resp = answer_bytes(header, qtype, pointer, fields, rdata);
            &&& rdata_span(resp, resp.len() as int) == Ok::<(int, int), ResponseFault>(
                (46, 46 + rdata.len() as int),
            )
            &&& resp.subrange(46, 46 + rdata.len() as int) == rdata
        }),
{
    let resp = answer_bytes(header, qtype, pointer, fields, rdata);
    let len = resp.len() as int;
    assert(len == 46 + rdata.len() as int);
    assert(resp[0] == 0xAB && resp[1] == 0xCD && resp[6] == header[6] && resp[7] == header[7]);
    assert(resp[12] == 4 && resp[17] == 7 && resp[25] == 3 && resp[29] == 0);
    assert(name_end(resp, len, 29) == 29);
    assert(name_end(resp, len, 25) == 29);
    assert(name_end(resp, len, 17) == 29);
    assert(name_end(resp, len, 12) == 29);
    assert(resp[34] == pointer[0]);
    let n = rdata.len() as u16;
    assert(resp[44] == (n / 256) as u8 && resp[45] == (n % 256) as u8);
    assert(be_value(resp[44], resp[45]) == rdata.len());
    assert(resp.subrange(46, 46 + rdata.len() as int) =~= rdata);
}

/// The same holds when the answer names itself in full, with the labels of
/// the question's name rather than a compression pointer: the RDATA found is
/// exactly the record's data, after that name and the fixed fields.
pub proof fn lemma_answer_rdata_found_full_name(
    header: Seq<u8>,
    qtype: u16,
    fields: Seq<u8>,
    rdata: Seq<u8>,
)
    requires
        header.len() == 12,
        header[0] == 0xAB,
        header[1] == 0xCD,
        be_value(header[6], header[7]) != 0,
        fields.len() == 8,
        rdata.len() <= 0xFFFF,
    ensures
        ({
            let resp = answer_bytes(header, qtype, query_name(), fields, rdata);
            &&& rdata_span(resp, resp.len() as int) == Ok::<(int, int), ResponseFault>(
                (62, 62 + rdata.len() as int),
            )
            &&& resp.subrange(62, 62 + rdata.len() as int) == rdata
        }),
{
    let resp = answer_bytes(header, qtype, query_name(), fields, rdata);
    let len = resp.len() as int;
    assert(len == 62 + rdata.len() as int);
    assert(resp[0] == 0xAB && resp[1] == 0xCD && resp[6] == header[6] && resp[7] == header[7]);
    assert(resp[12] == 4 && resp[17] == 7 && resp[25] == 3 && resp[29] == 0);
    assert(name_end(resp, len, 29) == 29);
    assert(name_end(resp, len, 25) == 29);
    assert(name_end(resp, len, 17) == 29);
    assert(name_end(resp, len, 12) == 29);
    assert(resp[34] == 4 && resp[39] == 7 && resp[47] == 3 && resp[51] == 0);
    assert(name_end(resp, len, 51) == 51);
    assert(name_end(resp, len, 47) == 51);
    assert(name_end(resp, len, 39) == 51);
    assert(name_end(resp, len, 34) == 51);
    let n = rdata.len() as u16;
    assert(resp[60] == (n / 256) as u8 && resp[61] == (n % 256) as u8);
    assert(be_value(resp[60], resp[61]) == rdata.len());
    assert(resp.subrange(62, 62 + rdata.len() as int) =~= rdata);
}

/// The `InvalidData` error with the given message.
pub fn invalid_data(message: &str) -> (e: ResolveError)
    ensures
        e.kind == ResolveErrorKind::InvalidData,
        e.message@ == message@,
{
    ResolveError { kind: ResolveErrorKind::InvalidData, message: String::from_str(message) }
}

/// The error for a refused response.
fn fault_error(f: ResponseFault) -> (e: ResolveError)
    ensures
        e.kind == fault_kind(f),
        e.message@ == fault_message(f),
{
    match f {
        ResponseFault::BadHeader => invalid_data("invalid DNS response header"),
        ResponseFault::NoAnswer => ResolveError {
            kind: ResolveErrorKind::AddrNotAvailable,
            message: String::from_str("no address in DNS response"),
        },
        ResponseFault::TruncatedAnswer => invalid_data("truncated DNS answer"),
        ResponseFault::TruncatedRecord => invalid_data("truncated DNS answer record"),
        ResponseFault::RdataOverrun => invalid_data("RDATA extends past response"),
    }
}

/// Skips the name that starts at `start`; where it ends, or `len` when it
/// would end at or past the end of the data.
fn skip_name(buf: &[u8], len: usize, start: usize) -> (end: usize)
    requires
        len <= buf@.len(),
        start <= len,
    ensures
        end <= len,
        end == if name_end(buf@, len as int, start as int) < len {
            name_end(buf@, len as int, start as int)
        } else {
            len as int
        },
{
    let mut pos = start;
    while pos < len && buf[pos] != 0
        invariant
            len <= buf@.len(),
            start <= pos <= len,
            name_end(buf@, len as int, start as int) >= len ==> name_end(
                buf@,
                len as int,
                pos as int,
            ) >= len,
            name_end(buf@, len as int, start as int) < len ==> name_end(buf@, len as int, pos as int)
                == name_end(buf@, len as int, start as int),
        decreases len - pos,
    {
        let step = buf[pos] as usize + 1;
        assert(name_end(buf@, len as int, pos as int) == name_end(
            buf@,
            len as int,
            pos + step,
        ));
        if step > len - pos {
            pos = len;
        } else {
            pos = pos + step;
        }
    }
    pos
}

impl OpenDNS {
    /// Build a DNS query for myip.opendns.com with the given QTYPE.
    pub fn build_query(qtype: u16) -> (query: Vec<u8>)
        ensures
            query@ == query_bytes(qtype),
    {
        let mut query: Vec<u8> = Vec::new();
        // Header: ID=0xABCD, flags=0x0100 (standard query, RD=1)
        // QDCOUNT=1, ANCOUNT=0, NSCOUNT=0, ARCOUNT=0
        query.push(0xAB);
        query.push(0xCD);
        query.push(0x01);
        query.push(0x00);
        query.push(0x00);
        query.push(0x01);
        let mut i: usize = 0;
        while i < 6
            invariant
                0 <= i <= 6,
                query@ == seq![0xABu8, 0xCD, 0x01, 0x00, 0x00, 0x01] + Seq::new(
                    i as nat,
                    |j: int| 0u8,
                ),
            decreases 6 - i,
        {
            query.push(0x00);
            i = i + 1;
        }
        assert(query@ == query_header());
        // QNAME: myip.opendns.com
        // 4 "myip" 7 "opendns" 3 "com" 0
        let name: [u8; 18] = [
            4, 0x6d, 0x79, 0x69, 0x70,
            7, 0x6f, 0x70, 0x65, 0x6e, 0x64, 0x6e, 0x73,
            3, 0x63, 0x6f, 0x6d,
            0,
        ];
        let mut k: usize = 0;
        while k < 18
            invariant
                0 <= k <= 18,
                name@ == query_name(),
                query@ == query_header() + query_name().take(k as int),
            decreases 18 - k,
        {
            query.push(name[k]);
            k = k + 1;
            assert(query_name().take(k as int) == query_name().take((k - 1) as int).push(
                query_name()[k - 1],
            ));
        }
        assert(query_name().take(18) == query_name());
        query.push((qtype / 256) as u8);
        query.push((qtype % 256) as u8);
        // QCLASS=IN
        query.push(0x00);
        query.push(0x01);
        assert(query@ == query_bytes(qtype));
        query
    }

    /// Parse the first answer RDATA from a DNS response held in the first
    /// `len` bytes of `buf`.
    pub fn parse_rdata(buf: &[u8], len: usize) -> (res: Result<&[u8], ResolveError>)
        requires
            len <= buf@.len(),
        ensures
            match (res, rdata_span(buf@, len as int)) {
                (Ok(rdata), Ok((start, end))) => 0 <= start <= end <= len && rdata@ == buf@.subrange(start, end),
                (Err(e), Err(f)) => e.kind == fault_kind(f) && e.message@ == fault_message(f),
                _ => false,
            },
    {
        if len < 12 || buf[0] != 0xAB || buf[1] != 0xCD {
            return Err(fault_error(ResponseFault::BadHeader));
        }
        let ancount = buf[6] as usize * 256 + buf[7] as usize;
        if ancount == 0 {
            return Err(fault_error(ResponseFault::NoAnswer));
        }
        // Skip header (12 bytes) then question QNAME,
        // then the null terminator, QTYPE and QCLASS
        let qname_end = skip_name(buf, len, 12);
        if qname_end >= len || len - qname_end <= 5 {
            return Err(fault_error(ResponseFault::TruncatedAnswer));
        }
        let answer = qname_end + 5;
        // Skip answer NAME; then TYPE(2) + CLASS(2) + TTL(4) + RDLENGTH(2)
        let fields;
        let first = buf[answer];
        assert(first & 0xC0 == 0xC0 <==> first >= 0xC0) by (bit_vector);
        if first & 0xC0 == 0xC0 {
            if len - answer < 12 {
                return Err(fault_error(ResponseFault::TruncatedRecord));
            }
            fields = answer + 2;
        } else {
            let aname_end = skip_name(buf, len, answer);
            if aname_end >= len || len - aname_end < 11 {
                return Err(fault_error(ResponseFault::TruncatedRecord));
            }
            fields = aname_end + 1;
        }
        let rdlength = buf[fields + 8] as usize * 256 + buf[fields + 9] as usize;
        let start = fields + 10;
        if rdlength > len - start {
            return Err(fault_error(ResponseFault::RdataOverrun));
        }
        Ok(&buf[start..start + rdlength])
    }

    /// The IPv4 address that a response to the A query carries.
    pub fn ipv4_address(buf: &[u8], len: usize) -> (res: Result<Ipv4Address, ResolveError>)
        requires
            len <= buf@.len(),
        ensures
            match (res, rdata_span(buf@, len as int)) {
                (Ok(a), Ok((start, end))) => end - start == 4 && a.0@ == buf@.subrange(start, end),
                (Err(e), Ok((start, end))) => end - start != 4 && e.kind
                    == ResolveErrorKind::InvalidData && e.message@ == wrong_length_message(),
                (Err(e), Err(f)) => e.kind == fault_kind(f) && e.message@ == fault_message(f),
                _ => false,
            },
    {
        let octets = OpenDNS::parse_rdata(buf, len)?;
        if octets.len() != 4 {
            return Err(invalid_data("could not convert slice to array"));
        }
        let a = Ipv4Address([octets[0], octets[1], octets[2], octets[3]]);
        assert(a.0@ =~= octets@);
        Ok(a)
    }

    /// The IPv6 address that a response to the AAAA query carries.
    pub fn ipv6_address(buf: &[u8], len: usize) -> (res: Result<Ipv6Address, ResolveError>)
        requires
            len <= buf@.len(),
        ensures
            match (res, rdata_span(buf@, len as int)) {
                (Ok(a), Ok((start, end))) => end - start == 16 && a.0@ == buf@.subrange(start, end),
                (Err(e), Ok((start, end))) => end - start != 16 && e.kind
                    == ResolveErrorKind::InvalidData && e.message@ == wrong_length_message(),
                (Err(e), Err(f)) => e.kind == fault_kind(f) && e.message@ == fault_message(f),
                _ => false,
            },
    {
        let octets = OpenDNS::parse_rdata(buf, len)?;
        if octets.len() != 16 {
            return Err(invalid_data("could not convert slice to array"));
        }
        let a = Ipv6Address(
            [
                octets[0],
                octets[1],
                octets[2],
                octets[3],
                octets[4],
                octets[5],
                octets[6],
                octets[7],
                octets[8],
                octets[9],
                octets[10],
                octets[11],
                octets[12],
                octets[13],
                octets[14],
                octets[15],
            ],
        );
        assert(a.0@ =~= octets@);
        Ok(a)
    }
}

} // verus!
