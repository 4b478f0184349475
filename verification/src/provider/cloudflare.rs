//! Cloudflare's DNS records API: the requests that look up, update and create
//! a record, and what is read from the replies.

use vstd::prelude::*;

use crate::addr::Address;
use crate::req::{get, header_views, post, put, request_text, Response};
use crate::util::{
    ascii_chars, cat, chars_of, concat, find, find_at, lemma_find, lemma_find_first, str_views,
    string_of,
};

verus! {

/// The API's host.
pub const HOST: &'static str = "api.cloudflare.com";

/// A Cloudflare account's access to one zone.
pub struct Cloudflare {
    auth: String,
    zone_id: String,
}

/// The key that precedes a record's id in the API's replies.
pub open spec fn id_key() -> Seq<char> {
    seq!['"', 'i', 'd', '"', ':', '"']
}

/// The id of the first record in a reply body: what lies between the first
/// `"id":"` and the next `"`.
pub open spec fn record_id_in(body: Seq<char>) -> Option<Seq<char>> {
    match find(body, id_key(), 0) {
        None => None,
        Some(i) => match find(body, seq!['"'], i + 6) {
            None => None,
            Some(end) => Some(body.subrange(i + 6, end)),
        },
    }
}

/// An id is read back: in a body where the first `"id":"` is followed by an
/// id without quotes and a closing quote, that id is what is read.
pub proof fn lemma_record_id_read_back(prefix: Seq<char>, id: Seq<char>, rest: Seq<char>)
    requires
        find(prefix + id_key(), id_key(), 0) == Some(prefix.len() as int),
        forall|i: int| 0 <= i < id.len() ==> #[trigger] id[i] != '"',
    ensures
        record_id_in(prefix + id_key() + id + seq!['"'] + rest) == Some(id),
{
    let head = prefix + id_key();
    let body = head + id + seq!['"'] + rest;
    let p = prefix.len() as int;
    lemma_find(head, id_key(), 0);
    assert(body.subrange(p, p + 6) =~= id_key());
    assert forall|j: int| 0 <= j < p implies #[trigger] body.subrange(j, j + 6) != id_key() by {
        assert(body.subrange(j, j + 6) =~= head.subrange(j, j + 6));
    }
    lemma_find_first(body, id_key(), 0, p);
    let start = p + 6;
    let end = start + id.len();
    assert(body.subrange(end, end + 1) =~= seq!['"']);
    assert forall|j: int| start <= j < end implies #[trigger] body.subrange(j, j + 1) != seq!['"'] by {
        assert(body.subrange(j, j + 1)[0] == id[j - start]);
    }
    lemma_find_first(body, seq!['"'], start, end);
    assert(body.subrange(start, end) =~= id);
}

/// The JSON body that sets a record of the given type and name to the address.
pub open spec fn record_body_text(record_type: Seq<char>, record_name: Seq<char>, ip: Seq<char>) -> Seq<char> {
    "{\"type\":\""@ + record_type + "\",\"name\":\""@ + record_name + "\",\"content\":\""@ + ip
        + "\",\"ttl\":120,\"proxied\":false}"@
}

/// What opens a JSON string field: `"key":"`.
pub open spec fn json_open(key: Seq<char>) -> Seq<char> {
    seq!['"'] + key + seq!['"', ':', '"']
}

/// The value of a JSON string field as a simple reader takes it: what lies
/// between the first `"key":"` and the next `"`.
pub open spec fn json_string_field(body: Seq<char>, key: Seq<char>) -> Option<Seq<char>> {
    match find(body, json_open(key), 0) {
        None => None,
        Some(i) => match find(body, seq!['"'], i + json_open(key).len()) {
            None => None,
            Some(end) => Some(body.subrange(i + json_open(key).len(), end)),
        },
    }
}

/// The characters do not include a double quote.
pub open spec fn quote_free(s: Seq<char>) -> bool {
    forall|i: int| 0 <= i < s.len() ==> #[trigger] s[i] != '"'
}

/// A field is read back from a text where it follows its key and a closing
/// quote follows it, when no earlier `"key":"` stands in the text.
proof fn lemma_json_field_read_back(
    body: Seq<char>,
    head: Seq<char>,
    key: Seq<char>,
    value: Seq<char>,
    rest: Seq<char>,
)
    requires
        body == head + json_open(key) + value + seq!['"'] + rest,
        quote_free(value),
        forall|j: int|
            0 <= j < head.len() ==> #[trigger] body.subrange(j, j + key.len() + 4) != json_open(
                key,
            ),
    ensures
        json_string_field(body, key) == Some(value),
{
    let open = json_open(key);
    let p = head.len() as int;
    assert(body.subrange(p, p + open.len()) =~= open);
    assert forall|j: int| 0 <= j < p implies #[trigger] body.subrange(j, j + open.len()) != open by {
        assert(body.subrange(j, j + key.len() + 4) != json_open(key));
    }
    lemma_find_first(body, open, 0, p);
    let start = p + open.len();
    let end = start + value.len();
    assert(body.subrange(end, end + 1) =~= seq!['"']);
    assert forall|j: int| start <= j < end implies #[trigger] body.subrange(j, j + 1) != seq!['"'] by {
        assert(body.subrange(j, j + 1)[0] == value[j - start]);
    }
    lemma_find_first(body, seq!['"'], start, end);
}

/// The pieces of the record body around the fields, as characters.
proof fn lemma_record_body_pieces(record_type: Seq<char>, record_name: Seq<char>, ip: Seq<char>)
    ensures
        record_body_text(record_type, record_name, ip) == seq!['{', '"', 't', 'y', 'p', 'e', '"', ':', '"']
            + record_type + seq!['"', ',', '"', 'n', 'a', 'm', 'e', '"', ':', '"'] + record_name
            + seq!['"', ',', '"', 'c', 'o', 'n', 't', 'e', 'n', 't', '"', ':', '"'] + ip
            + "\",\"ttl\":120,\"proxied\":false}"@,
        json_open("type"@) == seq!['"', 't', 'y', 'p', 'e', '"', ':', '"'],
        json_open("name"@) == seq!['"', 'n', 'a', 'm', 'e', '"', ':', '"'],
        json_open("content"@) == seq!['"', 'c', 'o', 'n', 't', 'e', 'n', 't', '"', ':', '"'],
{
    reveal_strlit("{\"type\":\"");
    reveal_strlit("\",\"name\":\"");
    reveal_strlit("\",\"content\":\"");
    reveal_strlit("type");
    reveal_strlit("name");
    reveal_strlit("content");
    assert(record_body_text(record_type, record_name, ip) =~= seq![
        '{',
        '"',
        't',
        'y',
        'p',
        'e',
        '"',
        ':',
        '"',
    ] + record_type + seq!['"', ',', '"', 'n', 'a', 'm', 'e', '"', ':', '"'] + record_name
        + seq!['"', ',', '"', 'c', 'o', 'n', 't', 'e', 'n', 't', '"', ':', '"'] + ip
        + "\",\"ttl\":120,\"proxied\":false}"@);
    assert(json_open("type"@) =~= seq!['"', 't', 'y', 'p', 'e', '"', ':', '"']);
    assert(json_open("name"@) =~= seq!['"', 'n', 'a', 'm', 'e', '"', ':', '"']);
    assert(json_open("content"@) =~= seq![
        '"',
        'c',
        'o',
        'n',
        't',
        'e',
        'n',
        't',
        '"',
        ':',
        '"',
    ]);
}

/// The record body's `type` field reads back as the record's kind.
proof fn lemma_record_body_type(record_type: Seq<char>, record_name: Seq<char>, ip: Seq<char>)
    requires
        quote_free(record_type),
    ensures
        json_string_field(record_body_text(record_type, record_name, ip), "type"@) == Some(
            record_type,
        ),
{
    lemma_record_body_pieces(record_type, record_name, ip);
    let b = seq!['"', ',', '"', 'n', 'a', 'm', 'e', '"', ':', '"'];
    let c = seq!['"', ',', '"', 'c', 'o', 'n', 't', 'e', 'n', 't', '"', ':', '"'];
    let d = "\",\"ttl\":120,\"proxied\":false}"@;
    let body = record_body_text(record_type, record_name, ip);
    let rest = b.drop_first() + record_name + c + ip + d;
    assert(body =~= seq!['{'] + json_open("type"@) + record_type + seq!['"'] + rest);
    assert forall|j: int| 0 <= j < 1 implies #[trigger] body.subrange(j, j + 8) != json_open(
        "type"@,
    ) by {
        assert(body.subrange(j, j + 8)[0] == '{');
    }
    lemma_json_field_read_back(body, seq!['{'], "type"@, record_type, rest);
}

/// Before the `name` key, the text holds no `"name":"`.
proof fn lemma_no_early_name(t: Seq<char>, j: int)
    requires
        quote_free(t),
        0 <= j < t.len() + 11,
    ensures
        (seq!['{', '"', 't', 'y', 'p', 'e', '"', ':', '"'] + t + seq![
            '"',
            ',',
            '"',
            'n',
            'a',
            'm',
            'e',
            '"',
            ':',
            '"',
        ]).subrange(j, j + 8) != seq!['"', 'n', 'a', 'm', 'e', '"', ':', '"'],
{
    let a = seq!['{', '"', 't', 'y', 'p', 'e', '"', ':', '"'];
    let b = seq!['"', ',', '"', 'n', 'a', 'm', 'e', '"', ':', '"'];
    let on = seq!['"', 'n', 'a', 'm', 'e', '"', ':', '"'];
    let pre = a + t + b;
    let tl = t.len() as int;
    let w = pre.subrange(j, j + 8);
    if w == on {
        assert(pre[j] == '"') by {
            assert(w[0] == on[0]);
        }
        assert(pre[j + 1] == 'n') by {
            assert(w[1] == on[1]);
        }
        if j < 9 {
            if j == 8 {
                assert(pre[13] == '"') by {
                    assert(w[5] == on[5]);
                }
                assert(pre[14] == ':') by {
                    assert(w[6] == on[6]);
                }
                if tl > 4 {
                    assert(pre[13] == t[4]);
                } else {
                    assert(pre[13] == b[4 - tl]);
                    assert(pre[14] == b[5 - tl]);
                }
            } else {
                assert(pre[j] == a[j]);
                assert(pre[j + 1] == a[j + 1]);
            }
        } else if j < 9 + tl {
            assert(pre[j] == t[j - 9]);
        } else {
            assert(pre[j] == b[j - 9 - tl]);
            assert(pre[j + 1] == b[j + 1 - 9 - tl]);
        }
    }
}

/// The record body's `name` field reads back as the record's name.
#[verifier::rlimit(60)]
proof fn lemma_record_body_name(record_type: Seq<char>, record_name: Seq<char>, ip: Seq<char>)
    requires
        quote_free(record_type),
        quote_free(record_name),
    ensures
        json_string_field(record_body_text(record_type, record_name, ip), "name"@) == Some(
            record_name,
        ),
{
    lemma_record_body_pieces(record_type, record_name, ip);
    let t = record_type;
    let a = seq!['{', '"', 't', 'y', 'p', 'e', '"', ':', '"'];
    let b = seq!['"', ',', '"', 'n', 'a', 'm', 'e', '"', ':', '"'];
    let c = seq!['"', ',', '"', 'c', 'o', 'n', 't', 'e', 'n', 't', '"', ':', '"'];
    let d = "\",\"ttl\":120,\"proxied\":false}"@;
    let body = record_body_text(record_type, record_name, ip);
    let on = json_open("name"@);
    let head = a + t + seq!['"', ','];
    let rest = c.drop_first() + ip + d;
    let pre = a + t + b;
    let tail = record_name + c + ip + d;
    assert(body =~= head + on + record_name + seq!['"'] + rest);
    assert(body =~= pre + tail);
    assert forall|j: int| 0 <= j < head.len() implies #[trigger] body.subrange(j, j + 8) != on by {
        lemma_no_early_name(t, j);
        assert(body.subrange(j, j + 8) =~= pre.subrange(j, j + 8));
    }
    lemma_json_field_read_back(body, head, "name"@, record_name, rest);
}

/// Before the `content` key, the text holds no `"content":"`.
#[verifier::rlimit(60)]
proof fn lemma_no_early_content(t: Seq<char>, n: Seq<char>, j: int)
    requires
        quote_free(t),
        quote_free(n),
        0 <= j < t.len() + n.len() + 21,
    ensures
        (seq!['{', '"', 't', 'y', 'p', 'e', '"', ':', '"'] + t + seq![
            '"',
            ',',
            '"',
            'n',
            'a',
            'm',
            'e',
            '"',
            ':',
            '"',
        ] + n + seq!['"', ',', '"', 'c', 'o', 'n', 't', 'e', 'n', 't', '"', ':', '"']).subrange(
            j,
            j + 11,
        ) != seq!['"', 'c', 'o', 'n', 't', 'e', 'n', 't', '"', ':', '"'],
{
    let a = seq!['{', '"', 't', 'y', 'p', 'e', '"', ':', '"'];
    let b = seq!['"', ',', '"', 'n', 'a', 'm', 'e', '"', ':', '"'];
    let c = seq!['"', ',', '"', 'c', 'o', 'n', 't', 'e', 'n', 't', '"', ':', '"'];
    let oc = seq!['"', 'c', 'o', 'n', 't', 'e', 'n', 't', '"', ':', '"'];
    let pre = a + t + b + n + c;
    let tl = t.len() as int;
    let nl = n.len() as int;
    let r = 19 + tl;
    let w = pre.subrange(j, j + 11);
    if w == oc {
        assert(pre[j] == '"') by {
            assert(w[0] == oc[0]);
        }
        assert(pre[j + 1] == 'c') by {
            assert(w[1] == oc[1]);
        }
        assert(pre[j + 8] == '"') by {
            assert(w[8] == oc[8]);
        }
        assert(pre[j + 9] == ':') by {
            assert(w[9] == oc[9]);
        }
        if j < 9 {
            if j == 8 {
                if tl > 7 {
                    assert(pre[16] == t[7]);
                } else {
                    assert(pre[16] == b[7 - tl]);
                    assert(pre[17] == b[8 - tl]);
                }
            } else {
                assert(pre[j] == a[j]);
                assert(pre[j + 1] == a[j + 1]);
            }
        } else if j < 9 + tl {
            assert(pre[j] == t[j - 9]);
        } else if j < r - 1 {
            assert(pre[j] == b[j - 9 - tl]);
            assert(pre[j + 1] == b[j + 1 - 9 - tl]);
        } else if j == r - 1 {
            if nl > 7 {
                assert(pre[j + 8] == n[7]);
            } else {
                assert(pre[j + 8] == c[7 - nl]);
                assert(pre[j + 9] == c[8 - nl]);
            }
        } else if j < r + nl {
            assert(pre[j] == n[j - r]);
        } else {
            assert(pre[j] == c[j - r - nl]);
            assert(pre[j + 1] == c[j + 1 - r - nl]);
        }
    }
}

/// The record body's `content` field reads back as the address's text.
#[verifier::rlimit(60)]
proof fn lemma_record_body_content(record_type: Seq<char>, record_name: Seq<char>, ip: Seq<char>)
    requires
        quote_free(record_type),
        quote_free(record_name),
        quote_free(ip),
    ensures
        json_string_field(record_body_text(record_type, record_name, ip), "content"@) == Some(ip),
{
    lemma_record_body_pieces(record_type, record_name, ip);
    let t = record_type;
    let n = record_name;
    let a = seq!['{', '"', 't', 'y', 'p', 'e', '"', ':', '"'];
    let b = seq!['"', ',', '"', 'n', 'a', 'm', 'e', '"', ':', '"'];
    let c = seq!['"', ',', '"', 'c', 'o', 'n', 't', 'e', 'n', 't', '"', ':', '"'];
    let d = "\",\"ttl\":120,\"proxied\":false}"@;
    let body = record_body_text(record_type, record_name, ip);
    let oc = json_open("content"@);
    let head = a + t + b + n + seq!['"', ','];
    let rest = d.drop_first();
    let pre = a + t + b + n + c;
    let tail = ip + d;
    reveal_strlit("\",\"ttl\":120,\"proxied\":false}");
    assert(d[0] == '"');
    assert(body =~= head + oc + ip + seq!['"'] + rest);
    assert(body =~= pre + tail);
    assert forall|j: int| 0 <= j < head.len() implies #[trigger] body.subrange(j, j + 11) != oc by {
        lemma_no_early_content(t, n, j);
        assert(body.subrange(j, j + 11) =~= pre.subrange(j, j + 11));
    }
    lemma_json_field_read_back(body, head, "content"@, ip, rest);
}

/// The body that sets a record is read back by a JSON reader: its `type`,
/// `name` and `content` fields are the record's kind, its name and the
/// address's text, each whole, when none of them holds a double quote.
pub proof fn lemma_record_body_fields(record_type: Seq<char>, record_name: Seq<char>, ip: Seq<char>)
    requires
        quote_free(record_type),
        quote_free(record_name),
        quote_free(ip),
    ensures
        json_string_field(record_body_text(record_type, record_name, ip), "type"@) == Some(
            record_type,
        ),
        json_string_field(record_body_text(record_type, record_name, ip), "name"@) == Some(
            record_name,
        ),
        json_string_field(record_body_text(record_type, record_name, ip), "content"@) == Some(ip),
{
    lemma_record_body_type(record_type, record_name, ip);
    lemma_record_body_name(record_type, record_name, ip);
    lemma_record_body_content(record_type, record_name, ip);
}

impl Cloudflare {
    /// The `Authorization` header's value.
    pub closed spec fn spec_auth(&self) -> Seq<char> {
        self.auth@
    }

    /// The zone's id.
    pub closed spec fn spec_zone_id(&self) -> Seq<char> {
        self.zone_id@
    }

    /// Access with the given API token to the given zone.
    pub fn new(api_token: &str, zone_id: &str) -> (c: Self)
        ensures
            c.spec_auth() == "Bearer "@ + api_token@,
            c.spec_zone_id() == zone_id@,
    {
        let mut auth = String::from_str("Bearer ");
        auth.append(api_token);
        Cloudflare { auth, zone_id: String::from_str(zone_id) }
    }

    /// The `Authorization` header's value.
    pub fn auth(&self) -> (a: &str)
        ensures
            a@ == self.spec_auth(),
    {
        self.auth.as_str()
    }

    /// The zone's id.
    pub fn zone_id(&self) -> (z: &str)
        ensures
            z@ == self.spec_zone_id(),
    {
        self.zone_id.as_str()
    }

    /// The path that lists the records of the given name and kind.
    pub open spec fn lookup_path_text(&self, record_type: Seq<char>, record_name: Seq<char>) -> Seq<char> {
        "/client/v4/zones/"@ + self.spec_zone_id() + "/dns_records?name="@ + record_name + "&type="@
            + record_type
    }

    /// The path of the record with the given id.
    pub open spec fn record_path_text(&self, record_id: Seq<char>) -> Seq<char> {
        "/client/v4/zones/"@ + self.spec_zone_id() + "/dns_records/"@ + record_id
    }

    /// The path of the zone's records.
    pub open spec fn records_path_text(&self) -> Seq<char> {
        "/client/v4/zones/"@ + self.spec_zone_id() + "/dns_records"@
    }

    /// The paths of the zone's API, one from another: a record's path is the
    /// records' path, a slash and the whole record id, which reads back from
    /// it and tells records apart; the lookup path is the records' path with
    /// the name and the kind as query.
    pub proof fn lemma_paths(
        &self,
        record_id: Seq<char>,
        other_id: Seq<char>,
        record_type: Seq<char>,
        record_name: Seq<char>,
    )
        ensures
            self.record_path_text(record_id) == self.records_path_text() + "/"@ + record_id,
            self.record_path_text(record_id).skip(self.record_path_text(Seq::empty()).len() as int)
                == record_id,
            self.record_path_text(record_id + other_id) == self.record_path_text(record_id)
                + other_id,
            self.record_path_text(record_id) == self.record_path_text(other_id) ==> record_id
                == other_id,
            self.lookup_path_text(record_type, record_name) == self.records_path_text()
                + "?name="@ + record_name + "&type="@ + record_type,
    {
        reveal_strlit("/dns_records");
        reveal_strlit("/dns_records/");
        reveal_strlit("/");
        reveal_strlit("/dns_records?name=");
        reveal_strlit("?name=");
        let prefix = "/client/v4/zones/"@ + self.spec_zone_id();
        assert("/dns_records"@ + "/"@ =~= "/dns_records/"@);
        assert("/dns_records"@ + "?name="@ =~= "/dns_records?name="@);
        assert(self.record_path_text(record_id) =~= self.records_path_text() + "/"@ + record_id);
        assert(self.lookup_path_text(record_type, record_name) =~= self.records_path_text()
            + "?name="@ + record_name + "&type="@ + record_type);
        let empty = self.record_path_text(Seq::empty());
        assert(empty =~= prefix + "/dns_records/"@);
        assert(self.record_path_text(record_id) =~= empty + record_id);
        assert(self.record_path_text(record_id).skip(empty.len() as int) =~= record_id);
        assert(self.record_path_text(other_id) =~= empty + other_id);
        assert(self.record_path_text(record_id + other_id) =~= self.record_path_text(record_id)
            + other_id);
        if self.record_path_text(record_id) == self.record_path_text(other_id) {
            assert(record_id =~= self.record_path_text(record_id).skip(empty.len() as int));
            assert(other_id =~= self.record_path_text(other_id).skip(empty.len() as int));
        }
    }

    /// The path that lists the records of the given name and kind.
    pub fn lookup_path<A: Address>(&self, record_name: &str) -> (p: String)
        ensures
            p@ == self.lookup_path_text(A::spec_record_type(), record_name@),
    {
        let parts: [&str; 6] = [
            "/client/v4/zones/",
            self.zone_id.as_str(),
            "/dns_records?name=",
            record_name,
            "&type=",
            A::record_type(),
        ];
        let p = cat(&parts);
        reveal_with_fuel(concat, 7);
        assert(str_views(parts@) =~= seq![
            "/client/v4/zones/"@,
            self.spec_zone_id(),
            "/dns_records?name="@,
            record_name@,
            "&type="@,
            A::spec_record_type(),
        ]);
        p
    }

    /// The path of the record with the given id.
    pub fn record_path(&self, record_id: &str) -> (p: String)
        ensures
            p@ == self.record_path_text(record_id@),
    {
        let parts: [&str; 4] = [
            "/client/v4/zones/",
            self.zone_id.as_str(),
            "/dns_records/",
            record_id,
        ];
        let p = cat(&parts);
        reveal_with_fuel(concat, 5);
        assert(str_views(parts@) =~= seq![
            "/client/v4/zones/"@,
            self.spec_zone_id(),
            "/dns_records/"@,
            record_id@,
        ]);
        p
    }

    /// The path of the zone's records.
    pub fn records_path(&self) -> (p: String)
        ensures
            p@ == self.records_path_text(),
    {
        let parts: [&str; 3] = ["/client/v4/zones/", self.zone_id.as_str(), "/dns_records"];
        let p = cat(&parts);
        reveal_with_fuel(concat, 4);
        assert(str_views(parts@) =~= seq![
            "/client/v4/zones/"@,
            self.spec_zone_id(),
            "/dns_records"@,
        ]);
        p
    }

    /// The JSON body that sets a record of `ip`'s kind and the given name to `ip`.
    pub fn record_body<A: Address>(record_name: &str, ip: A) -> (b: String)
        ensures
            b@ == record_body_text(A::spec_record_type(), record_name@, ascii_chars(ip.spec_text())),
    {
        let ip_text = ip.to_string();
        let parts: [&str; 7] = [
            "{\"type\":\"",
            A::record_type(),
            "\",\"name\":\"",
            record_name,
            "\",\"content\":\"",
            ip_text.as_str(),
            "\",\"ttl\":120,\"proxied\":false}",
        ];
        let b = cat(&parts);
        reveal_with_fuel(concat, 8);
        assert(str_views(parts@) =~= seq![
            "{\"type\":\""@,
            A::spec_record_type(),
            "\",\"name\":\""@,
            record_name@,
            "\",\"content\":\""@,
            ascii_chars(ip.spec_text()),
            "\",\"ttl\":120,\"proxied\":false}"@,
        ]);
        b
    }

    /// The headers of a request that only reads.
    pub open spec fn read_headers(&self) -> Seq<(Seq<char>, Seq<char>)> {
        seq![("Authorization"@, self.spec_auth())]
    }

    /// The headers of a request that sends a JSON body.
    pub open spec fn write_headers(&self) -> Seq<(Seq<char>, Seq<char>)> {
        seq![("Authorization"@, self.spec_auth()), ("Content-Type"@, "application/json"@)]
    }

    /// The request that looks up the record of the given name and of `A`'s kind.
    pub fn lookup_request<A: Address>(&self, record_name: &str) -> (req: String)
        ensures
            req@ == request_text(
                "GET"@,
                HOST@,
                self.lookup_path_text(A::spec_record_type(), record_name@),
                self.read_headers(),
                None,
            ),
    {
        let path = self.lookup_path::<A>(record_name);
        let headers: [(&str, &str); 1] = [("Authorization", self.auth.as_str())];
        assert(header_views(headers@) =~= self.read_headers());
        get(HOST, path.as_str(), &headers)
    }

    /// The request that sets the record with the given id to `ip`.
    pub fn update_request<A: Address>(&self, record_id: &str, record_name: &str, ip: A) -> (req: String)
        ensures
            req@ == request_text(
                "PUT"@,
                HOST@,
                self.record_path_text(record_id@),
                self.write_headers(),
                Some(record_body_text(A::spec_record_type(), record_name@, ascii_chars(ip.spec_text()))),
            ),
    {
        let path = self.record_path(record_id);
        let body = Cloudflare::record_body(record_name, ip);
        let headers: [(&str, &str); 2] = [
            ("Authorization", self.auth.as_str()),
            ("Content-Type", "application/json"),
        ];
        assert(header_views(headers@) =~= self.write_headers());
        put(HOST, path.as_str(), &headers, body.as_str())
    }

    /// The request that creates a record of the given name holding `ip`.
    pub fn create_request<A: Address>(&self, record_name: &str, ip: A) -> (req: String)
        ensures
            req@ == request_text(
                "POST"@,
                HOST@,
                self.records_path_text(),
                self.write_headers(),
                Some(record_body_text(A::spec_record_type(), record_name@, ascii_chars(ip.spec_text()))),
            ),
    {
        let path = self.records_path();
        let body = Cloudflare::record_body(record_name, ip);
        let headers: [(&str, &str); 2] = [
            ("Authorization", self.auth.as_str()),
            ("Content-Type", "application/json"),
        ];
        assert(header_views(headers@) =~= self.write_headers());
        post(HOST, path.as_str(), &headers, body.as_str())
    }

    /// The id that a lookup reply names: none unless the status is 200 and
    /// the body holds an id.
    pub fn record_id(resp: &Response) -> (id: Option<String>)
        ensures
            match id {
                Some(i) => resp.status == 200 && record_id_in(resp.body@) == Some(i@),
                None => resp.status != 200 || record_id_in(resp.body@) is None,
            },
    {
        if resp.status != 200 {
            return None;
        }
        let body = chars_of(resp.body.as_str());
        let key: Vec<char> = vec!['"', 'i', 'd', '"', ':', '"'];
        let quote: Vec<char> = vec!['"'];
        assert(key@ =~= id_key());
        assert(quote@ =~= seq!['"']);
        proof {
            lemma_find(body@, key@, 0);
        }
        let i = match find_at(body.as_slice(), key.as_slice(), 0) {
            Some(i) => i,
            None => {
                assert(find(body@, key@, 0) is None);
                return None;
            },
        };
        assert(find(body@, key@, 0) == Some(i as int));
        // the id starts after the key, within the body, whose length is a `usize`
        let total = body.len();
        assert(i + 6 <= total);
        let start = i + 6;
        proof {
            lemma_find(body@, quote@, start as int);
        }
        let end = match find_at(body.as_slice(), quote.as_slice(), start) {
            Some(e) => e,
            None => {
                assert(find(body@, quote@, start as int) is None);
                return None;
            },
        };
        assert(find(body@, quote@, start as int) == Some(end as int));
        let id = string_of(&body.as_slice()[start..end]);
        assert(id@ =~= body@.subrange(start as int, end as int));
        Some(id)
    }

    /// Whether the provider accepted a change: a reply with status 200.
    pub fn succeeded(resp: &Option<Response>) -> (ok: bool)
        ensures
            ok == match resp {
                Some(r) => r.status == 200,
                None => false,
            },
    {
        match resp {
            Some(r) => r.status == 200,
            None => false,
        }
    }
}

} // verus!
