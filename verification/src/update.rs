//! One run of the updater: every record named in the configuration gets the
//! public addresses that were found.

use vstd::prelude::*;

use crate::addr::{Address, Ipv4Address, Ipv6Address};
use crate::resolver::{ResolveError, ResolveErrorKind};
use crate::provider::{upsert_answered, DnsProvider, HandleRecord};
use crate::util::{chars_of, push_char};

verus! {

/// What a resolution gives the run: the address when there is one, and a
/// warning line when it failed for any reason other than there being no
/// address of that kind.
pub open spec fn resolution_text(family: Seq<char>, message: Seq<char>) -> Seq<char> {
    family + " resolution failed: "@ + message
}

/// The address a resolution found, if any, and the warning to print, if any.
pub fn resolution_outcome<A: Address>(family: &str, result: Result<A, ResolveError>) -> (r: (
    Option<A>,
    Option<String>,
))
    ensures
        match result {
            Ok(a) => r.0 == Some(a) && r.1 is None,
            Err(e) => r.0 is None && if e.kind == ResolveErrorKind::AddrNotAvailable {
                r.1 is None
            } else {
                r.1 matches Some(w) && w@ == resolution_text(family@, e.message@)
            },
        },
{
    match result {
        Ok(a) => (Some(a), None),
        Err(e) => {
            if e.kind == ResolveErrorKind::AddrNotAvailable {
                (None, None)
            } else {
                let mut w = String::from_str(family);
                w.append(" resolution failed: ");
                w.append(e.message.as_str());
                (None, Some(w))
            }
        },
    }
}

/// The pieces of a list that semicolons separate, empty ones included.
pub open spec fn pieces(s: Seq<char>) -> Seq<Seq<char>>
    decreases s.len(),
{
    if s.len() == 0 {
        seq![Seq::empty()]
    } else {
        let p = pieces(s.drop_last());
        if s.last() == ';' {
            p.push(Seq::empty())
        } else {
            p.update(p.len() - 1, p.last().push(s.last()))
        }
    }
}

/// A piece that names a record: a non-empty one.
pub open spec fn is_name(p: Seq<char>) -> bool {
    p.len() > 0
}

/// The record names in a list: its non-empty pieces, in order.
pub open spec fn record_name_list(s: Seq<char>) -> Seq<Seq<char>> {
    pieces(s).filter(|p: Seq<char>| is_name(p))
}

/// The views of strings.
pub open spec fn string_views(v: Seq<String>) -> Seq<Seq<char>> {
    v.map_values(|s: String| s@)
}

/// There is always at least one piece.
pub proof fn lemma_pieces_len(s: Seq<char>)
    ensures
        pieces(s).len() >= 1,
    decreases s.len(),
{
    if s.len() > 0 {
        lemma_pieces_len(s.drop_last());
    }
}

/// The pieces joined back with semicolons.
pub open spec fn join_pieces(p: Seq<Seq<char>>) -> Seq<char>
    decreases p.len(),
{
    if p.len() <= 1 {
        if p.len() == 1 {
            p[0]
        } else {
            Seq::empty()
        }
    } else {
        join_pieces(p.drop_last()) + seq![';'] + p.last()
    }
}

/// Splitting a list at its semicolons and joining the pieces back with
/// semicolons gives the list back; no piece holds a semicolon.
pub proof fn lemma_pieces_rejoin(s: Seq<char>)
    ensures
        join_pieces(pieces(s)) == s,
        forall|i: int, j: int|
            0 <= i < pieces(s).len() && 0 <= j < pieces(s)[i].len() ==> #[trigger] pieces(s)[i][j]
                != ';',
    decreases s.len(),
{
    if s.len() == 0 {
        assert(join_pieces(pieces(s)) =~= s);
    } else {
        let prev = s.drop_last();
        lemma_pieces_rejoin(prev);
        lemma_pieces_len(prev);
        let p = pieces(prev);
        let c = s.last();
        if c == ';' {
            let q = p.push(Seq::empty());
            assert(q.drop_last() =~= p);
            assert(join_pieces(q) =~= s);
            assert forall|i: int, j: int|
                0 <= i < q.len() && 0 <= j < q[i].len() implies #[trigger] q[i][j] != ';' by {
                assert(q[i] == p[i]);
            }
        } else {
            let q = p.update(p.len() - 1, p.last().push(c));
            assert(q.drop_last() =~= p.drop_last());
            if p.len() == 1 {
                assert(join_pieces(p) == p[0]);
                assert(join_pieces(q) =~= s);
            } else {
                assert(join_pieces(p) == join_pieces(p.drop_last()) + seq![';'] + p.last());
                assert(join_pieces(q) == join_pieces(q.drop_last()) + seq![';'] + q.last());
                assert(q.last() == p.last().push(c));
                assert(s =~= prev.push(c));
                assert(join_pieces(q) =~= s);
            }
            assert forall|i: int, j: int|
                0 <= i < q.len() && 0 <= j < q[i].len() implies #[trigger] q[i][j] != ';' by {
                if i < p.len() - 1 {
                    assert(q[i] == p[i]);
                } else if j < p.last().len() {
                    assert(q[i][j] == p[i][j]);
                }
            }
        }
    }
}

/// Every record name is non-empty and holds no semicolon.
pub proof fn lemma_record_names_clean(s: Seq<char>)
    ensures
        forall|i: int|
            0 <= i < record_name_list(s).len() ==> #[trigger] record_name_list(s)[i].len() > 0
                && forall|j: int|
                0 <= j < record_name_list(s)[i].len() ==> record_name_list(s)[i][j] != ';',
{
    let names = record_name_list(s);
    let pred = |p: Seq<char>| is_name(p);
    lemma_pieces_rejoin(s);
    assert forall|i: int| 0 <= i < names.len() implies #[trigger] names[i].len() > 0 && forall|
        j: int,
    | 0 <= j < names[i].len() ==> names[i][j] != ';' by {
        pieces(s).lemma_filter_pred(pred, i);
        assert(names.contains(names[i]));
        pieces(s).lemma_filter_contains_rev(pred, names[i]);
        let k = choose|k: int| 0 <= k < pieces(s).len() && pieces(s)[k] == names[i];
        assert forall|j: int| 0 <= j < names[i].len() implies names[i][j] != ';' by {
            assert(pieces(s)[k][j] != ';');
        }
    }
}

/// A list without a semicolon is one piece.
proof fn lemma_pieces_single(s: Seq<char>)
    requires
        forall|i: int| 0 <= i < s.len() ==> #[trigger] s[i] != ';',
    ensures
        pieces(s) == seq![s],
    decreases s.len(),
{
    if s.len() == 0 {
        assert(s =~= Seq::<char>::empty());
        assert(pieces(s) =~= seq![s]);
    } else {
        let prev = s.drop_last();
        lemma_pieces_single(prev);
        assert(prev.push(s.last()) =~= s);
        assert(pieces(s) =~= seq![s]);
    }
}

/// The pieces of two lists joined by a semicolon are the pieces of the
/// first followed by those of the second.
pub proof fn lemma_pieces_append(a: Seq<char>, b: Seq<char>)
    ensures
        pieces(a + seq![';'] + b) == pieces(a) + pieces(b),
    decreases b.len(),
{
    let t = a + seq![';'] + b;
    if b.len() == 0 {
        assert(t.drop_last() =~= a);
        assert(pieces(b) =~= seq![Seq::<char>::empty()]);
        assert(pieces(t) =~= pieces(a) + pieces(b));
    } else {
        let prev = b.drop_last();
        lemma_pieces_append(a, prev);
        lemma_pieces_len(prev);
        assert(t.drop_last() =~= a + seq![';'] + prev);
        assert(t.last() == b.last());
        assert(pieces(t) =~= pieces(a) + pieces(b));
    }
}

/// A non-empty list without a semicolon names exactly one record: itself.
pub proof fn lemma_record_names_single(s: Seq<char>)
    requires
        s.len() > 0,
        forall|i: int| 0 <= i < s.len() ==> #[trigger] s[i] != ';',
    ensures
        record_name_list(s) == seq![s],
{
    lemma_pieces_single(s);
    let pred = |p: Seq<char>| is_name(p);
    assert(seq![s].drop_last() =~= Seq::<Seq<char>>::empty());
    assert(seq![s].filter(pred) =~= seq![s]) by {
        reveal(Seq::filter);
        assert(Seq::<Seq<char>>::empty().filter(pred) =~= Seq::<Seq<char>>::empty());
    }
}

/// Joining two lists with a semicolon joins their record names: the names of
/// the first, then those of the second.
pub proof fn lemma_record_names_append(a: Seq<char>, b: Seq<char>)
    ensures
        record_name_list(a + seq![';'] + b) == record_name_list(a) + record_name_list(b),
{
    lemma_pieces_append(a, b);
    Seq::filter_distributes_over_add(pieces(a), pieces(b), |p: Seq<char>| is_name(p));
}

/// The record names are exactly the non-empty pieces of the list; an empty
/// list names none.
pub proof fn lemma_record_names_members(s: Seq<char>, p: Seq<char>)
    ensures
        record_name_list(s).contains(p) <==> (pieces(s).contains(p) && p.len() > 0),
        record_name_list(Seq::empty()).len() == 0,
{
    let pred = |q: Seq<char>| is_name(q);
    if record_name_list(s).contains(p) {
        pieces(s).lemma_filter_contains_rev(pred, p);
        let i = choose|i: int| 0 <= i < record_name_list(s).len() && record_name_list(s)[i] == p;
        pieces(s).lemma_filter_pred(pred, i);
    }
    if pieces(s).contains(p) && p.len() > 0 {
        let k = choose|k: int| 0 <= k < pieces(s).len() && pieces(s)[k] == p;
        pieces(s).lemma_filter_contains(pred, k);
    }
    let e = pieces(Seq::<char>::empty());
    assert(e =~= seq![Seq::<char>::empty()]);
    assert(e.drop_last() =~= Seq::<Seq<char>>::empty());
    assert(e.filter(pred).len() == 0) by {
        reveal(Seq::filter);
        assert(Seq::<Seq<char>>::empty().filter(pred) =~= Seq::<Seq<char>>::empty());
    }
}

/// The record names in a `;`-separated list, empty names left out.
pub fn record_names(list: &str) -> (names: Vec<String>)
    ensures
        string_views(names@) == record_name_list(list@),
{
    let cs = chars_of(list);
    let mut names: Vec<String> = Vec::new();
    let mut cur = String::new();
    let mut i: usize = 0;
    let ghost nonempty = |p: Seq<char>| is_name(p);
    while i < cs.len()
        invariant
            0 <= i <= cs@.len(),
            cs@ == list@,
            nonempty == (|p: Seq<char>| is_name(p)),
            pieces(cs@.take(i as int)).len() >= 1,
            string_views(names@) == pieces(cs@.take(i as int)).drop_last().filter(nonempty),
            cur@ == pieces(cs@.take(i as int)).last(),
        decreases cs@.len() - i,
    {
        let ghost before = pieces(cs@.take(i as int));
        let c = cs[i];
        assert(cs@.take(i + 1).drop_last() =~= cs@.take(i as int));
        assert(cs@.take(i + 1).last() == c);
        if c == ';' {
            let ghost old_names = string_views(names@);
            if !cur.as_str().is_empty() {
                names.push(cur);
                assert(string_views(names@) =~= old_names.push(before.last()));
                assert(before.filter(nonempty) == before.drop_last().filter(nonempty).push(
                    before.last(),
                )) by {
                    reveal(Seq::filter);
                }
            } else {
                assert(before.filter(nonempty) == before.drop_last().filter(nonempty)) by {
                    reveal(Seq::filter);
                }
            }
            cur = String::new();
            proof {
                let after = before.push(Seq::empty());
                assert(pieces(cs@.take(i + 1)) == after);
                assert(after.drop_last() =~= before);
            }
        } else {
            push_char(&mut cur, c);
            proof {
                let after = before.update(before.len() - 1, before.last().push(c));
                assert(pieces(cs@.take(i + 1)) == after);
                assert(after.drop_last() =~= before.drop_last());
            }
        }
        i = i + 1;
    }
    assert(cs@.take(cs@.len() as int) =~= cs@);
    let ghost all = pieces(cs@);
    let ghost old_names = string_views(names@);
    if !cur.as_str().is_empty() {
        names.push(cur);
        assert(string_views(names@) =~= old_names.push(all.last()));
    }
    assert(string_views(names@) == all.filter(nonempty)) by {
        reveal(Seq::filter);
    }
    assert(all.filter(nonempty) =~= record_name_list(list@));
    names
}

/// The reports of a run, in order: for each of the record names, the report
/// of the upsert of the IPv4 address under that name when there is an IPv4
/// address, then that of the IPv6 address under that name when there is an
/// IPv6 address; each as the provider's answers made it.
pub open spec fn run_reports<P: DnsProvider>(
    provider: &P,
    reports: Seq<Seq<char>>,
    names: Seq<Seq<char>>,
    ipv4: Option<Ipv4Address>,
    ipv6: Option<Ipv6Address>,
) -> bool {
    match (ipv4, ipv6) {
        (Some(v4), Some(v6)) => reports.len() == 2 * names.len() && forall|k: int|
            0 <= k < names.len() ==> upsert_answered::<Ipv4Address, P>(
                provider,
                names[k],
                v4,
                #[trigger] reports[2 * k],
            ) && upsert_answered::<Ipv6Address, P>(provider, names[k], v6, reports[2 * k + 1]),
        (Some(v4), None) => reports.len() == names.len() && forall|k: int|
            0 <= k < names.len() ==> upsert_answered::<Ipv4Address, P>(
                provider,
                names[k],
                v4,
                #[trigger] reports[k],
            ),
        (None, Some(v6)) => reports.len() == names.len() && forall|k: int|
            0 <= k < names.len() ==> upsert_answered::<Ipv6Address, P>(
                provider,
                names[k],
                v6,
                #[trigger] reports[k],
            ),
        (None, None) => false,
    }
}

/// A run's reports grow by the reports for one more record name.
proof fn lemma_run_reports_step<P: DnsProvider>(
    provider: &P,
    before: Seq<Seq<char>>,
    after: Seq<Seq<char>>,
    names: Seq<Seq<char>>,
    k: int,
    ipv4: Option<Ipv4Address>,
    ipv6: Option<Ipv6Address>,
)
    requires
        0 <= k < names.len(),
        run_reports(provider, before, names.take(k), ipv4, ipv6),
        after.len() == before.len() + (if ipv4 is Some { 1int } else { 0 }) + (if ipv6 is Some {
            1int
        } else {
            0
        }),
        forall|j: int| 0 <= j < before.len() ==> after[j] == before[j],
        ipv4 matches Some(v4) ==> upsert_answered::<Ipv4Address, P>(
            provider,
            names[k],
            v4,
            after[before.len() as int],
        ),
        ipv6 matches Some(v6) ==> upsert_answered::<Ipv6Address, P>(
            provider,
            names[k],
            v6,
            after[after.len() - 1],
        ),
    ensures
        run_reports(provider, after, names.take(k + 1), ipv4, ipv6),
{
    let prev = names.take(k);
    let next = names.take(k + 1);
    assert(forall|j: int| 0 <= j < k ==> #[trigger] next[j] == prev[j]);
    assert(next[k] == names[k]);
    match (ipv4, ipv6) {
        (Some(v4), Some(v6)) => {
            assert forall|j: int| 0 <= j < k + 1 implies upsert_answered::<Ipv4Address, P>(
                provider,
                next[j],
                v4,
                #[trigger] after[2 * j],
            ) && upsert_answered::<Ipv6Address, P>(provider, next[j], v6, after[2 * j + 1]) by {
                if j < k {
                    assert(after[2 * j] == before[2 * j]);
                    assert(after[2 * j + 1] == before[2 * j + 1]);
                }
            }
        },
        (Some(v4), None) => {
            assert forall|j: int| 0 <= j < k + 1 implies upsert_answered::<Ipv4Address, P>(
                provider,
                next[j],
                v4,
                #[trigger] after[j],
            ) by {
                if j < k {
                    assert(after[j] == before[j]);
                }
            }
        },
        (None, Some(v6)) => {
            assert forall|j: int| 0 <= j < k + 1 implies upsert_answered::<Ipv6Address, P>(
                provider,
                next[j],
                v6,
                #[trigger] after[j],
            ) by {
                if j < k {
                    assert(after[j] == before[j]);
                }
            }
        },
        (None, None) => {},
    }
}

/// Upserts every record named in `record_names` with each address that was
/// found; none when no address was found.
pub fn update_records<P: DnsProvider>(
    provider: &P,
    record_names: &str,
    ipv4: Option<Ipv4Address>,
    ipv6: Option<Ipv6Address>,
) -> (reports: Option<Vec<String>>)
    ensures
        reports is None <==> ipv4 is None && ipv6 is None,
        reports matches Some(r) ==> run_reports(
            provider,
            string_views(r@),
            record_name_list(record_names@),
            ipv4,
            ipv6,
        ),
{
    if ipv4.is_none() && ipv6.is_none() {
        return None;
    }
    let names = self::record_names(record_names);
    let ghost all = string_views(names@);
    let mut reports: Vec<String> = Vec::new();
    let mut k: usize = 0;
    assert(all.take(0) =~= Seq::<Seq<char>>::empty());
    while k < names.len()
        invariant
            0 <= k <= names@.len(),
            all == string_views(names@),
            run_reports(provider, string_views(reports@), all.take(k as int), ipv4, ipv6),
        decreases names@.len() - k,
    {
        let name = names[k].as_str();
        assert(name@ == all[k as int]);
        let ghost old_views = string_views(reports@);
        if let Some(ip) = ipv4 {
            let report = <P as HandleRecord<Ipv4Address>>::upsert_record(provider, name, ip);
            reports.push(report);
        }
        if let Some(ip) = ipv6 {
            let report = <P as HandleRecord<Ipv6Address>>::upsert_record(provider, name, ip);
            reports.push(report);
        }
        proof {
            lemma_run_reports_step(
                provider,
                old_views,
                string_views(reports@),
                all,
                k as int,
                ipv4,
                ipv6,
            );
        }
        k = k + 1;
    }
    assert(all.take(names@.len() as int) =~= all);
    Some(reports)
}

} // verus!
