//! DNS record management with a domain provider.
//!
//! Implementations create and update DNS records (A/AAAA) via a provider's API.

use vstd::prelude::*;

use crate::addr::{Address, Ipv4Address, Ipv6Address};
use crate::util::ascii_chars;

pub mod cloudflare;

verus! {

/// The line that reports an upsert: whether the record was found (and so
/// updated rather than created) and whether the provider accepted the change.
pub open spec fn upsert_report_text(
    record_type: Seq<char>,
    ip: Seq<char>,
    found: bool,
    ok: bool,
) -> Seq<char> {
    if found {
        if ok {
            "Updated "@ + record_type + " record to "@ + ip + ".\n"@
        } else {
            "Failed to update "@ + record_type + " record.\n"@
        }
    } else {
        if ok {
            "Created "@ + record_type + " record with "@ + ip + ".\n"@
        } else {
            "Failed to create "@ + record_type + " record.\n"@
        }
    }
}

/// The four outcomes of an upsert read differently; a failure's report does
/// not name the address, and a success's report ends with the whole
/// address's text and `.` and a line break.
pub proof fn lemma_upsert_reports(
    record_type: Seq<char>,
    ip: Seq<char>,
    other_ip: Seq<char>,
    found: bool,
    ok: bool,
    other_found: bool,
    other_ok: bool,
)
    ensures
        upsert_report_text(record_type, ip, found, ok) == upsert_report_text(
            record_type,
            ip,
            other_found,
            other_ok,
        ) ==> found == other_found && ok == other_ok,
        upsert_report_text(record_type, ip, found, false) == upsert_report_text(
            record_type,
            other_ip,
            found,
            false,
        ),
        ({
            let bare = upsert_report_text(record_type, Seq::empty(), found, true);
            upsert_report_text(record_type, ip, found, true) == bare.take(bare.len() - 2) + ip
                + seq!['.', '\n']
        }),
{
    reveal_strlit("Updated ");
    reveal_strlit("Created ");
    reveal_strlit("Failed to update ");
    reveal_strlit("Failed to create ");
    reveal_strlit(".\n");
    let t = record_type;
    let r = upsert_report_text(t, ip, found, ok);
    let q = upsert_report_text(t, ip, other_found, other_ok);
    if r == q {
        assert(r[0] == q[0]);
        if !ok && !other_ok {
            assert(r[10] == q[10]);
        }
    }
    let bare = upsert_report_text(t, Seq::empty(), found, true);
    if found {
        let head = "Updated "@ + t + " record to "@;
        assert(bare =~= head + ".\n"@);
        assert(bare.take(bare.len() - 2) =~= head);
        assert(upsert_report_text(t, ip, found, true) =~= head + ip + seq!['.', '\n']);
    } else {
        let head = "Created "@ + t + " record with "@;
        assert(bare =~= head + ".\n"@);
        assert(bare.take(bare.len() - 2) =~= head);
        assert(upsert_report_text(t, ip, found, true) =~= head + ip + seq!['.', '\n']);
    }
}

/// What an upsert of `ip` under `name` reports, given what the provider
/// answered: the lookup found `id` (or nothing), the change that followed
/// (an update of `id` when one was found, a creation otherwise) was answered
/// with `ok`, and the report says which change it was and how it went.
pub open spec fn upsert_answered<A: Address, H: HandleRecord<A>>(
    provider: &H,
    name: Seq<char>,
    ip: A,
    report: Seq<char>,
) -> bool {
    exists|id: Option<H::RecordId>, ok: bool|
        provider.lookup_answer(name, id) && provider.change_answer(id, name, ip, ok) && report
            == upsert_report_text(A::spec_record_type(), ascii_chars(ip.spec_text()), id is Some, ok)
}

/// The report of an upsert of `ip`.
pub fn upsert_report<A: Address>(ip: A, found: bool, ok: bool) -> (report: String)
    ensures
        report@ == upsert_report_text(A::spec_record_type(), ascii_chars(ip.spec_text()), found, ok),
{
    let record_type = A::record_type();
    let mut report = String::new();
    if found {
        if ok {
            report.append("Updated ");
            report.append(record_type);
            report.append(" record to ");
            let text = ip.to_string();
            report.append(text.as_str());
            report.append(".\n");
        } else {
            report.append("Failed to update ");
            report.append(record_type);
            report.append(" record.\n");
        }
    } else {
        if ok {
            report.append("Created ");
            report.append(record_type);
            report.append(" record with ");
            let text = ip.to_string();
            report.append(text.as_str());
            report.append(".\n");
        } else {
            report.append("Failed to create ");
            report.append(record_type);
            report.append(" record.\n");
        }
    }
    report
}

/// The records of one address kind at a provider. The three required
/// methods talk to the provider; what they return is whatever the provider
/// answered, recorded by the relations `lookup_answer` and `change_answer`,
/// which promise nothing about what the provider answers.
pub trait HandleRecord<A: Address> {
    type RecordId;

    /// The provider answered a lookup of `name` with `id` (none: no record).
    /// An implementation that does not define it claims nothing of its
    /// answers.
    open spec fn lookup_answer(&self, name: Seq<char>, id: Option<Self::RecordId>) -> bool {
        true
    }

    /// The provider answered a change with `ok`: an update of the record `id`
    /// when `id` is some, a creation otherwise, of a record `name` holding `ip`.
    /// An implementation that does not define it claims nothing of its
    /// answers.
    open spec fn change_answer(&self, id: Option<Self::RecordId>, name: Seq<char>, ip: A, ok: bool) -> bool {
        true
    }

    fn get_record_id(&self, record_name: &str) -> (id: Option<Self::RecordId>)
        ensures
            self.lookup_answer(record_name@, id),
    ;

    fn update_dns_record(&self, record_id: Self::RecordId, record_name: &str, ip: A) -> (ok: bool)
        ensures
            self.change_answer(Some(record_id), record_name@, ip, ok),
    ;

    fn create_dns_record(&self, record_name: &str, ip: A) -> (ok: bool)
        ensures
            self.change_answer(None, record_name@, ip, ok),
    ;

    /// Looks the record up; updates it when it exists, creates it otherwise;
    /// returns the line that reports what happened.
    fn upsert_record(&self, record_name: &str, ip: A) -> (report: String)
        ensures
            exists|id: Option<Self::RecordId>, ok: bool|
                self.lookup_answer(record_name@, id) && self.change_answer(id, record_name@, ip, ok)
                    && report@ == upsert_report_text(
                    A::spec_record_type(),
                    ascii_chars(ip.spec_text()),
                    id is Some,
                    ok,
                ),
    {
        match self.get_record_id(record_name) {
            Some(record_id) => {
                let ghost id = Some(record_id);
                let ok = self.update_dns_record(record_id, record_name, ip);
                let report = upsert_report(ip, true, ok);
                assert(self.lookup_answer(record_name@, id) && self.change_answer(id, record_name@, ip, ok));
                report
            },
            None => {
                let ok = self.create_dns_record(record_name, ip);
                upsert_report(ip, false, ok)
            },
        }
    }
}

/// A provider of both A and AAAA records.
pub trait DnsProvider: HandleRecord<Ipv4Address> + HandleRecord<Ipv6Address> + Sized {
    fn new() -> Self;
}

} // verus!
