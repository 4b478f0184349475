use update_ip::addr::{Ipv4Address, Ipv6Address};
use update_ip::provider::cloudflare::{Cloudflare, HOST};
use update_ip::provider::{upsert_report, HandleRecord};
use update_ip::req::Response;

fn zone() -> Cloudflare {
    Cloudflare::new("tok", "zone1")
}

#[test]
fn cloudflare_access() {
    let c = zone();
    assert_eq!(c.auth(), "Bearer tok");
    assert_eq!(c.zone_id(), "zone1");
    assert_eq!(HOST, "api.cloudflare.com");
}

#[test]
fn cloudflare_paths() {
    let c = zone();
    assert_eq!(
        c.lookup_path::<Ipv4Address>("pc.example.com"),
        "/client/v4/zones/zone1/dns_records?name=pc.example.com&type=A"
    );
    assert_eq!(
        c.lookup_path::<Ipv6Address>("pc.example.com"),
        "/client/v4/zones/zone1/dns_records?name=pc.example.com&type=AAAA"
    );
    assert_eq!(c.record_path("abc123"), "/client/v4/zones/zone1/dns_records/abc123");
    assert_eq!(c.records_path(), "/client/v4/zones/zone1/dns_records");
}

#[test]
fn cloudflare_record_body() {
    assert_eq!(
        Cloudflare::record_body("pc.example.com", Ipv4Address([1, 2, 3, 4])),
        r#"{"type":"A","name":"pc.example.com","content":"1.2.3.4","ttl":120,"proxied":false}"#
    );
    let ip = Ipv6Address([0x20, 0x01, 0x0d, 0xb8, 0, 0, 0, 0, 0, 0, 0, 0, 0, 0, 0, 1]);
    assert_eq!(
        Cloudflare::record_body("h", ip),
        r#"{"type":"AAAA","name":"h","content":"2001:db8:0:0:0:0:0:1","ttl":120,"proxied":false}"#
    );
}

#[test]
fn cloudflare_requests() {
    let c = zone();
    assert_eq!(
        c.lookup_request::<Ipv4Address>("n"),
        "GET /client/v4/zones/zone1/dns_records?name=n&type=A HTTP/1.0\r\nHost: api.cloudflare.com\r\nAuthorization: Bearer tok\r\n\r\n"
    );
    let body = r#"{"type":"A","name":"n","content":"9.9.9.9","ttl":120,"proxied":false}"#;
    assert_eq!(
        c.update_request("id7", "n", Ipv4Address([9, 9, 9, 9])),
        format!(
            "PUT /client/v4/zones/zone1/dns_records/id7 HTTP/1.0\r\nHost: api.cloudflare.com\r\nAuthorization: Bearer tok\r\nContent-Type: application/json\r\nContent-Length: {}\r\n\r\n{}",
            body.len(),
            body
        )
    );
    assert_eq!(
        c.create_request("n", Ipv4Address([9, 9, 9, 9])),
        format!(
            "POST /client/v4/zones/zone1/dns_records HTTP/1.0\r\nHost: api.cloudflare.com\r\nAuthorization: Bearer tok\r\nContent-Type: application/json\r\nContent-Length: {}\r\n\r\n{}",
            body.len(),
            body
        )
    );
}

fn reply(status: u16, body: &str) -> Response {
    Response { status, body: body.to_string() }
}

#[test]
fn record_id_from_lookup_reply() {
    let r = reply(
        200,
        r#"{"result":[{"id":"372e67954025e0ba6aaa6d586b9e0b59","name":"pc.example.com"}],"success":true}"#,
    );
    assert_eq!(Cloudflare::record_id(&r).unwrap(), "372e67954025e0ba6aaa6d586b9e0b59");
    assert_eq!(Cloudflare::record_id(&reply(200, r#""id":"""#)).unwrap(), "");
    assert_eq!(Cloudflare::record_id(&reply(200, r#"é"id":"ü1"x"id":"2""#)).unwrap(), "ü1");
}

#[test]
fn record_id_absent() {
    assert!(Cloudflare::record_id(&reply(200, r#"{"result":[],"success":true}"#)).is_none());
    assert!(Cloudflare::record_id(&reply(404, r#"{"id":"abc"}"#)).is_none());
    assert!(Cloudflare::record_id(&reply(200, r#"{"id":"abc"#)).is_none());
}

#[test]
fn change_succeeds_on_status_200_only() {
    assert!(Cloudflare::succeeded(&Some(reply(200, ""))));
    assert!(!Cloudflare::succeeded(&Some(reply(201, ""))));
    assert!(!Cloudflare::succeeded(&None));
}

#[test]
fn upsert_reports() {
    let ip = Ipv4Address([1, 2, 3, 4]);
    assert_eq!(upsert_report(ip, true, true), "Updated A record to 1.2.3.4.\n");
    assert_eq!(upsert_report(ip, true, false), "Failed to update A record.\n");
    assert_eq!(upsert_report(ip, false, true), "Created A record with 1.2.3.4.\n");
    assert_eq!(upsert_report(ip, false, false), "Failed to create A record.\n");
    let ip6 = Ipv6Address([0; 16]);
    assert_eq!(upsert_report(ip6, true, true), "Updated AAAA record to 0:0:0:0:0:0:0:0.\n");
}

/// A provider that knows one record and accepts or refuses every change.
struct Fake {
    existing: &'static str,
    accept: bool,
}

impl HandleRecord<Ipv4Address> for Fake {
    type RecordId = u32;

    fn get_record_id(&self, record_name: &str) -> Option<u32> {
        if record_name == self.existing {
            Some(7)
        } else {
            None
        }
    }

    fn update_dns_record(&self, record_id: u32, _record_name: &str, _ip: Ipv4Address) -> bool {
        record_id == 7 && self.accept
    }

    fn create_dns_record(&self, _record_name: &str, _ip: Ipv4Address) -> bool {
        self.accept
    }
}

#[test]
fn upsert_record_updates_or_creates() {
    let ip = Ipv4Address([5, 6, 7, 8]);
    let p = Fake { existing: "a", accept: true };
    assert_eq!(p.upsert_record("a", ip), "Updated A record to 5.6.7.8.\n");
    assert_eq!(p.upsert_record("b", ip), "Created A record with 5.6.7.8.\n");
    let p = Fake { existing: "a", accept: false };
    assert_eq!(p.upsert_record("a", ip), "Failed to update A record.\n");
    assert_eq!(p.upsert_record("b", ip), "Failed to create A record.\n");
}
