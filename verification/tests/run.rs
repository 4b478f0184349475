use update_ip::addr::{Ipv4Address, Ipv6Address};
use update_ip::provider::{DnsProvider, HandleRecord};
use update_ip::resolver::{ResolveError, ResolveErrorKind};
use update_ip::update::{record_names, resolution_outcome, update_records};
use update_ip::util::{ascii_string, cat, decimal_string};

#[test]
fn record_names_skip_empty_pieces() {
    assert_eq!(record_names("pc.example.com"), vec!["pc.example.com"]);
    assert_eq!(record_names("a.com;;b.com;"), vec!["a.com", "b.com"]);
    assert_eq!(record_names(";x;"), vec!["x"]);
    assert!(record_names("").is_empty());
    assert!(record_names(";;;").is_empty());
    assert_eq!(record_names("é;ü ö"), vec!["é", "ü ö"]);
}

#[test]
fn record_names_rejoin_to_the_list() {
    let list = "a;b;c";
    assert_eq!(record_names(list).join(";"), list);
}

/// A provider that accepts every change and knows the record "old".
struct Always;

impl HandleRecord<Ipv4Address> for Always {
    type RecordId = ();
    fn get_record_id(&self, record_name: &str) -> Option<()> {
        if record_name == "old" {
            Some(())
        } else {
            None
        }
    }
    fn update_dns_record(&self, _id: (), _name: &str, _ip: Ipv4Address) -> bool {
        true
    }
    fn create_dns_record(&self, _name: &str, _ip: Ipv4Address) -> bool {
        true
    }
}

impl HandleRecord<Ipv6Address> for Always {
    type RecordId = ();
    fn get_record_id(&self, _record_name: &str) -> Option<()> {
        None
    }
    fn update_dns_record(&self, _id: (), _name: &str, _ip: Ipv6Address) -> bool {
        true
    }
    fn create_dns_record(&self, _name: &str, _ip: Ipv6Address) -> bool {
        false
    }
}

impl DnsProvider for Always {
    fn new() -> Self {
        Always
    }
}

#[test]
fn update_records_reports_each_name_and_address() {
    let p = Always::new();
    let v4 = Some(Ipv4Address([1, 1, 1, 1]));
    let v6 = Some(Ipv6Address([0; 16]));
    let reports = update_records(&p, "old;new;", v4, v6).unwrap();
    assert_eq!(
        reports,
        vec![
            "Updated A record to 1.1.1.1.\n",
            "Failed to create AAAA record.\n",
            "Created A record with 1.1.1.1.\n",
            "Failed to create AAAA record.\n",
        ]
    );
    let reports = update_records(&p, "new", None, v6).unwrap();
    assert_eq!(reports, vec!["Failed to create AAAA record.\n"]);
    let reports = update_records(&p, "old", v4, None).unwrap();
    assert_eq!(reports, vec!["Updated A record to 1.1.1.1.\n"]);
    assert!(update_records(&p, ";", v4, v6).unwrap().is_empty());
}

#[test]
fn update_records_needs_an_address() {
    assert!(update_records(&Always, "a;b", None, None).is_none());
}

#[test]
fn resolution_outcomes() {
    let ip = Ipv4Address([8, 8, 4, 4]);
    assert_eq!(resolution_outcome("IPv4", Ok(ip)), (Some(ip), None));
    let none = ResolveError {
        kind: ResolveErrorKind::AddrNotAvailable,
        message: "no address in DNS response".to_string(),
    };
    assert_eq!(resolution_outcome::<Ipv4Address>("IPv4", Err(none)), (None, None));
    let failed = ResolveError { kind: ResolveErrorKind::Other, message: "timed out".to_string() };
    assert_eq!(
        resolution_outcome::<Ipv6Address>("IPv6", Err(failed)),
        (None, Some("IPv6 resolution failed: timed out".to_string()))
    );
    let bad = ResolveError { kind: ResolveErrorKind::InvalidData, message: "x".to_string() };
    assert_eq!(
        resolution_outcome::<Ipv4Address>("IPv4", Err(bad)).1.unwrap(),
        "IPv4 resolution failed: x"
    );
}

#[test]
fn text_helpers() {
    assert_eq!(cat(&["a", "", "bc", "é"]), "abcé");
    assert_eq!(cat(&[]), "");
    assert_eq!(decimal_string(0), "0");
    assert_eq!(decimal_string(10), "10");
    assert_eq!(decimal_string(usize::MAX), usize::MAX.to_string());
    assert_eq!(ascii_string(b"1.2.3.4"), "1.2.3.4");
}

