//! Networks in range, as `wpa_cli scan_results` reports them.
//!
//! The report is a heading and one line for each access point, with five
//! tab-separated columns: BSSID, frequency, signal level, flags and SSID.

use crate::number::{i32_of, parse_i32};
use crate::text::{
    blank, contains, contains_text, find_char, is_trimmed, law_contains_text, law_splitn, law_trim,
    lemma_find_char, lemma_lines_no_feed, lemma_trim, lines, lines_of, same_text, splitn, splitn_of,
    str_views, trim, trim_of, white_space,
};
use vstd::prelude::*;

verus! {

/// The signal level of an access point whose level cannot be read.
pub const UNKNOWN_SIGNAL: i32 = -100;

/// A network in range.
#[derive(Debug)]
pub struct Network {
    pub ssid: String,
    pub signal: i32,
    pub flags: String,
}

/// What is known of a network: its SSID, its signal level in dBm and its flags.
pub struct Record {
    pub ssid: Seq<char>,
    pub signal: i32,
    pub flags: Seq<char>,
}

impl View for Network {
    type V = Record;

    open spec fn view(&self) -> Record {
        Record { ssid: self.ssid@, signal: self.signal, flags: self.flags@ }
    }
}

impl Clone for Network {
    fn clone(&self) -> (r: Self)
        ensures
            r@ == self@,
    {
        Network { ssid: self.ssid.clone(), signal: self.signal, flags: self.flags.clone() }
    }
}

/// Whether flags name no encryption, neither WPA nor WEP.
pub open spec fn open_flags(flags: Seq<char>) -> bool {
    !contains_text(flags, "WPA"@) && !contains_text(flags, "WEP"@)
}

impl Network {
    /// Whether the network is open: its flags hold neither `WPA` nor `WEP`, at any place.
    pub fn is_open(&self) -> (r: bool)
        ensures
            r == open_flags(self@.flags),
            r <==> {
                &&& !exists|a: Seq<char>, b: Seq<char>|
                    self.flags@ == #[trigger] a.add("WPA"@).add(b)
                &&& !exists|a: Seq<char>, b: Seq<char>|
                    self.flags@ == #[trigger] a.add("WEP"@).add(b)
            },
    {
        proof {
            lemma_open_flags(self.flags@);
        }
        !contains(self.flags.as_str(), "WPA") && !contains(self.flags.as_str(), "WEP")
    }
}

/// Flags are open exactly if they cannot be taken apart around `WPA` or `WEP`.
proof fn lemma_open_flags(flags: Seq<char>)
    ensures
        open_flags(flags) <==> {
            &&& !exists|a: Seq<char>, b: Seq<char>| flags == #[trigger] a.add("WPA"@).add(b)
            &&& !exists|a: Seq<char>, b: Seq<char>| flags == #[trigger] a.add("WEP"@).add(b)
        },
{
    let none = Seq::<char>::empty();
    law_contains_text(flags, "WPA"@, none, none);
    law_contains_text(flags, "WEP"@, none, none);
    if exists|a: Seq<char>, b: Seq<char>| flags == #[trigger] a.add("WPA"@).add(b) {
        let (a, b) = choose|a: Seq<char>, b: Seq<char>| flags == #[trigger] a.add("WPA"@).add(b);
        law_contains_text(flags, "WPA"@, a, b);
        assert(contains_text(a + "WPA"@ + b, "WPA"@));
    }
    if exists|a: Seq<char>, b: Seq<char>| flags == #[trigger] a.add("WEP"@).add(b) {
        let (a, b) = choose|a: Seq<char>, b: Seq<char>| flags == #[trigger] a.add("WEP"@).add(b);
        law_contains_text(flags, "WEP"@, a, b);
        assert(contains_text(a + "WEP"@ + b, "WEP"@));
    }
}

/// A network is secured if `WPA` or `WEP` stands anywhere in its flags, whatever stands around
/// it; and where it is secured, one of the two stands there.
pub proof fn law_secured(a: Seq<char>, b: Seq<char>, flags: Seq<char>)
    ensures
        !open_flags(a + "WPA"@ + b),
        !open_flags(a + "WEP"@ + b),
        !open_flags(flags) ==> (exists|x: Seq<char>, y: Seq<char>|
            flags == #[trigger] x.add("WPA"@).add(y)) || (exists|x: Seq<char>, y: Seq<char>|
            flags == #[trigger] x.add("WEP"@).add(y)),
{
    law_contains_text(flags, "WPA"@, a, b);
    law_contains_text(flags, "WEP"@, a, b);
}

/// The views of a list of networks.
pub open spec fn network_views(v: Seq<Network>) -> Seq<Record> {
    v.map_values(|n: Network| n@)
}

/// The network that a line of the report describes.  A line with fewer than five
/// columns, or with a blank SSID, describes none.
pub open spec fn record_of(line: Seq<char>) -> Option<Record> {
    let cols = splitn_of(line, '\t', 5);
    if cols.len() < 5 || trim_of(cols[4]).len() == 0 {
        None
    } else {
        Some(
            Record {
                ssid: trim_of(cols[4]),
                signal: match i32_of(trim_of(cols[2])) {
                    Some(level) => level,
                    None => UNKNOWN_SIGNAL,
                },
                flags: trim_of(cols[3]),
            },
        )
    }
}

/// The networks that a list of lines describes, in order.
pub open spec fn records_in(ls: Seq<Seq<char>>) -> Seq<Record>
    decreases ls.len(),
{
    if ls.len() == 0 {
        Seq::empty()
    } else {
        let earlier = records_in(ls.drop_last());
        match record_of(ls.last()) {
            Some(r) => earlier.push(r),
            None => earlier,
        }
    }
}

/// The lines below the heading.
pub open spec fn below_heading(ls: Seq<Seq<char>>) -> Seq<Seq<char>> {
    if ls.len() == 0 {
        Seq::empty()
    } else {
        ls.skip(1)
    }
}

/// The networks that a report describes below its heading, in order.
pub open spec fn records_of(raw: Seq<char>) -> Seq<Record> {
    records_in(below_heading(lines_of(raw)))
}

/// Whether the record at `i` is the first of the strongest for its SSID.
pub open spec fn strongest_at(rs: Seq<Record>, i: int) -> bool {
    &&& 0 <= i < rs.len()
    &&& forall|j: int|
        0 <= j < rs.len() && (#[trigger] rs[j]).ssid == rs[i].ssid ==> rs[j].signal <= rs[i].signal
            && (j < i ==> rs[j].signal < rs[i].signal)
}

/// Whether `r` is the first of the strongest records for its SSID.
pub open spec fn strongest(rs: Seq<Record>, r: Record) -> bool {
    exists|i: int| #[trigger] strongest_at(rs, i) && rs[i] == r
}

/// Whether no SSID occurs twice.
pub open spec fn distinct_ssids(rs: Seq<Record>) -> bool {
    forall|i: int, j: int| 0 <= i < j < rs.len() ==> rs[i].ssid != rs[j].ssid
}

/// Whether no network stands behind a weaker one.
pub open spec fn by_signal(rs: Seq<Record>) -> bool {
    forall|i: int, j: int| 0 <= i <= j < rs.len() ==> rs[i].signal >= rs[j].signal
}

/// Whether `v` lists the networks of a report: for each SSID the first of its strongest
/// records and nothing else, each once, the strongest network first.
pub open spec fn listed(v: Seq<Record>, raw: Seq<char>) -> bool {
    &&& forall|r: Record| #[trigger] v.contains(r) <==> strongest(records_of(raw), r)
    &&& distinct_ssids(v)
    &&& by_signal(v)
}

/// The record kept for an SSID while the report is read from the top: a record
/// replaces the kept one only if it is stronger.
spec fn kept(rs: Seq<Record>, ssid: Seq<char>) -> Option<Record>
    decreases rs.len(),
{
    if rs.len() == 0 {
        None
    } else {
        let earlier = kept(rs.drop_last(), ssid);
        if rs.last().ssid != ssid {
            earlier
        } else {
            match earlier {
                None => Some(rs.last()),
                Some(k) => if rs.last().signal > k.signal {
                    Some(rs.last())
                } else {
                    earlier
                },
            }
        }
    }
}

/// The record kept is the first of the strongest.
proof fn lemma_kept(rs: Seq<Record>, ssid: Seq<char>)
    ensures
        match kept(rs, ssid) {
            Some(k) => k.ssid == ssid && exists|i: int|
                #[trigger] strongest_at(rs, i) && rs[i] == k,
            None => forall|j: int| 0 <= j < rs.len() ==> (#[trigger] rs[j]).ssid != ssid,
        },
    decreases rs.len(),
{
    if rs.len() > 0 {
        let rs0 = rs.drop_last();
        let n = rs.len() - 1;
        lemma_kept(rs0, ssid);
        if rs[n].ssid != ssid {
            if let Some(k) = kept(rs0, ssid) {
                let i = choose|i: int| #[trigger] strongest_at(rs0, i) && rs0[i] == k;
                assert forall|j: int|
                    0 <= j < rs.len() && (#[trigger] rs[j]).ssid == rs[i].ssid implies rs[j].signal
                    <= rs[i].signal && (j < i ==> rs[j].signal < rs[i].signal) by {
                    assert(j < n);
                    assert(rs0[j] == rs[j]);
                }
                assert(strongest_at(rs, i));
            } else {
                assert forall|j: int| 0 <= j < rs.len() implies (#[trigger] rs[j]).ssid != ssid by {
                    if j < n {
                        assert(rs0[j] == rs[j]);
                    }
                }
            }
        } else {
            match kept(rs0, ssid) {
                None => {
                    assert forall|j: int|
                        0 <= j < rs.len() && (#[trigger] rs[j]).ssid == rs[n].ssid implies j
                        == n by {
                        if j < n {
                            assert(rs0[j] == rs[j]);
                        }
                    }
                    assert(strongest_at(rs, n));
                },
                Some(k) => {
                    let i = choose|i: int| #[trigger] strongest_at(rs0, i) && rs0[i] == k;
                    if rs[n].signal > k.signal {
                        assert forall|j: int|
                            0 <= j < n && (#[trigger] rs[j]).ssid == rs[n].ssid implies rs[j].signal
                            < rs[n].signal by {
                            assert(rs0[j] == rs[j]);
                        }
                        assert(strongest_at(rs, n));
                    } else {
                        assert forall|j: int|
                            0 <= j < rs.len() && (#[trigger] rs[j]).ssid
                                == rs[i].ssid implies rs[j].signal <= rs[i].signal && (j < i
                            ==> rs[j].signal < rs[i].signal) by {
                            if j < n {
                                assert(rs0[j] == rs[j]);
                            }
                        }
                        assert(strongest_at(rs, i));
                    }
                },
            }
        }
    }
}

/// At most one record is the first of the strongest for an SSID.
proof fn lemma_strongest_unique(rs: Seq<Record>, i: int, j: int)
    requires
        strongest_at(rs, i),
        strongest_at(rs, j),
        rs[i].ssid == rs[j].ssid,
    ensures
        i == j,
{
    assert(rs[i].signal <= rs[j].signal);
    assert(rs[j].signal <= rs[i].signal);
}

/// A record is the first of the strongest exactly if it is the one kept.
proof fn lemma_strongest_is_kept(rs: Seq<Record>, r: Record)
    ensures
        strongest(rs, r) <==> kept(rs, r.ssid) == Some(r),
{
    lemma_kept(rs, r.ssid);
    if strongest(rs, r) {
        let i = choose|i: int| #[trigger] strongest_at(rs, i) && rs[i] == r;
        assert(rs[i].ssid == r.ssid);
        match kept(rs, r.ssid) {
            Some(k) => {
                let j = choose|j: int| #[trigger] strongest_at(rs, j) && rs[j] == k;
                lemma_strongest_unique(rs, i, j);
            },
            None => {},
        }
    }
}

/// Whether `found` holds the record kept for each SSID, each once.
spec fn holds_kept(found: Seq<Record>, rs: Seq<Record>) -> bool {
    &&& distinct_ssids(found)
    &&& forall|k: int|
        0 <= k < found.len() ==> kept(rs, (#[trigger] found[k]).ssid) == Some(found[k])
    &&& forall|ssid: Seq<char>|
        (#[trigger] kept(rs, ssid)) is Some ==> exists|k: int|
            0 <= k < found.len() && (#[trigger] found[k]).ssid == ssid
}

/// Reads one line of the report.
fn read_line(line: &str) -> (r: Option<Network>)
    ensures
        match record_of(line@) {
            Some(rec) => r matches Some(n) && n@ == rec,
            None => r is None,
        },
{
    let cols: Vec<&str> = splitn(line, '\t', 5);
    proof {
        assert(str_views(cols@).len() == cols@.len());
        if cols@.len() >= 5 {
            assert(str_views(cols@)[2] == cols@[2]@);
            assert(str_views(cols@)[3] == cols@[3]@);
            assert(str_views(cols@)[4] == cols@[4]@);
        }
    }
    if cols.len() < 5 {
        return None;
    }
    let ssid: &str = trim(cols[4]);
    if ssid.is_empty() {
        return None;
    }
    let signal: i32 = match parse_i32(trim(cols[2])) {
        Some(level) => level,
        None => UNKNOWN_SIGNAL,
    };
    Some(Network { ssid: ssid.to_owned(), signal, flags: trim(cols[3]).to_owned() })
}

/// Takes one more record into account.
fn note(found: &mut Vec<Network>, n: Network, Ghost(rs): Ghost<Seq<Record>>)
    requires
        holds_kept(network_views(old(found)@), rs),
    ensures
        holds_kept(network_views(final(found)@), rs.push(n@)),
{
    let ghost before = network_views(found@);
    let ghost rec = n@;
    let ghost now = rs.push(rec);
    proof {
        assert(now.drop_last() =~= rs);
        assert forall|ssid: Seq<char>| ssid != rec.ssid implies #[trigger] kept(now, ssid) == kept(
            rs,
            ssid,
        ) by {}
    }
    let mut i: usize = 0;
    while i < found.len() && !same_text(found[i].ssid.as_str(), n.ssid.as_str())
        invariant
            i <= found@.len(),
            found@ == old(found)@,
            n@ == rec,
            forall|j: int| 0 <= j < i ==> (#[trigger] found@[j]).ssid@ != rec.ssid,
        decreases found@.len() - i,
    {
        i += 1;
    }
    if i < found.len() {
        proof {
            assert(before[i as int].ssid == rec.ssid);
            assert(kept(rs, rec.ssid) == Some(before[i as int]));
        }
        if n.signal > found[i].signal {
            found.set(i, n);
            proof {
                let after = network_views(found@);
                assert(after =~= before.update(i as int, rec));
                assert forall|k: int| 0 <= k < after.len() implies kept(
                    now,
                    (#[trigger] after[k]).ssid,
                ) == Some(after[k]) by {
                    if k != i {
                        assert(before[k].ssid != before[i as int].ssid);
                        assert(kept(rs, before[k].ssid) == Some(before[k]));
                    }
                }
                assert forall|ssid: Seq<char>|
                    (#[trigger] kept(now, ssid)) is Some implies exists|k: int|
                    0 <= k < after.len() && (#[trigger] after[k]).ssid == ssid by {
                    if ssid == rec.ssid {
                        assert(after[i as int].ssid == ssid);
                    } else {
                        assert(kept(rs, ssid) is Some);
                        let k = choose|k: int|
                            0 <= k < before.len() && (#[trigger] before[k]).ssid == ssid;
                        assert(after[k].ssid == ssid);
                    }
                }
            }
        } else {
            proof {
                let after = network_views(found@);
                assert(after =~= before);
                assert forall|k: int| 0 <= k < after.len() implies kept(
                    now,
                    (#[trigger] after[k]).ssid,
                ) == Some(after[k]) by {
                    assert(kept(rs, before[k].ssid) == Some(before[k]));
                }
                assert forall|ssid: Seq<char>|
                    (#[trigger] kept(now, ssid)) is Some implies exists|k: int|
                    0 <= k < after.len() && (#[trigger] after[k]).ssid == ssid by {
                    assert(kept(rs, ssid) is Some);
                }
            }
        }
    } else {
        proof {
            if kept(rs, rec.ssid) is Some {
                let k = choose|k: int|
                    0 <= k < before.len() && (#[trigger] before[k]).ssid == rec.ssid;
                assert(found@[k].ssid@ == rec.ssid);
            }
        }
        found.push(n);
        proof {
            let after = network_views(found@);
            assert(after =~= before.push(rec));
            assert forall|k: int| 0 <= k < after.len() implies kept(now, (#[trigger] after[k]).ssid)
                == Some(after[k]) by {
                if k < before.len() {
                    assert(old(found)@[k].ssid@ != rec.ssid);
                    assert(kept(rs, before[k].ssid) == Some(before[k]));
                }
            }
            assert forall|i: int, j: int| 0 <= i < j < after.len() implies after[i].ssid
                != after[j].ssid by {
                if j == before.len() {
                    assert(old(found)@[i].ssid@ != rec.ssid);
                }
            }
            assert forall|ssid: Seq<char>|
                (#[trigger] kept(now, ssid)) is Some implies exists|k: int|
                0 <= k < after.len() && (#[trigger] after[k]).ssid == ssid by {
                if ssid == rec.ssid {
                    assert(after[before.len() as int].ssid == ssid);
                } else {
                    assert(kept(rs, ssid) is Some);
                    let k = choose|k: int|
                        0 <= k < before.len() && (#[trigger] before[k]).ssid == ssid;
                    assert(after[k].ssid == ssid);
                }
            }
        }
    }
}

/// Puts the networks in order, the strongest first.
fn sort_by_signal(found: Vec<Network>) -> (v: Vec<Network>)
    ensures
        network_views(v@).to_multiset() == network_views(found@).to_multiset(),
        by_signal(network_views(v@)),
{
    let mut rest: Vec<Network> = found;
    let mut v: Vec<Network> = Vec::new();
    let ghost all = network_views(found@).to_multiset();
    proof {
        assert(network_views(v@) =~= Seq::<Record>::empty());
        broadcast use vstd::seq_lib::group_to_multiset_ensures;
        assert(network_views(rest@).to_multiset().add(network_views(v@).to_multiset()) =~= all);
    }
    while rest.len() > 0
        invariant
            network_views(rest@).to_multiset().add(network_views(v@).to_multiset()) == all,
            by_signal(network_views(v@)),
        decreases rest@.len(),
    {
        let ghost rest0 = network_views(rest@);
        let ghost v0 = network_views(v@);
        let n: Network = match rest.pop() {
            Some(n) => n,
            None => {
                return v;
            },
        };
        let ghost rec = n@;
        let mut i: usize = 0;
        while i < v.len() && v[i].signal > n.signal
            invariant
                i <= v@.len(),
                n@ == rec,
                v0 == network_views(v@),
                forall|j: int| 0 <= j < i ==> (#[trigger] v0[j]).signal > n.signal,
            decreases v@.len() - i,
        {
            i += 1;
        }
        v.insert(i, n);
        proof {
            broadcast use vstd::seq_lib::group_to_multiset_ensures;
            assert(network_views(rest@) =~= rest0.drop_last());
            assert(rest0 =~= rest0.drop_last().push(rec));
            assert(network_views(v@) =~= v0.insert(i as int, rec));
            vstd::seq_lib::to_multiset_insert(v0, i as int, rec);
            vstd::seq_lib::to_multiset_build(rest0.drop_last(), rec);
            assert(network_views(rest@).to_multiset().add(network_views(v@).to_multiset())
                =~= rest0.to_multiset().add(v0.to_multiset()));
            let after = v0.insert(i as int, rec);
            assert forall|a: int, b: int| 0 <= a <= b < after.len() implies after[a].signal
                >= after[b].signal by {
                let x = if a < i {
                    a
                } else {
                    a - 1
                };
                let y = if b < i {
                    b
                } else {
                    b - 1
                };
                if a != i && b != i {
                    assert(v0[x].signal >= v0[y].signal);
                } else if a < i {
                    assert(v0[a].signal > rec.signal);
                } else if b > i {
                    assert(v0[i as int].signal >= v0[b - 1].signal);
                }
            }
        }
    }
    proof {
        broadcast use vstd::seq_lib::group_to_multiset_ensures;
        assert(network_views(rest@) =~= Seq::<Record>::empty());
        assert(network_views(v@).to_multiset() =~= all);
    }
    v
}

/// The networks in a report of `wpa_cli scan_results`: for each SSID the first of
/// its strongest records, the strongest network first.  The order among networks
/// of one level is left open.
pub fn fetch_networks(raw: &str) -> (v: Vec<Network>)
    ensures
        listed(network_views(v@), raw@),
{
    let ls: Vec<&str> = lines(raw);
    let ghost all = lines_of(raw@);
    let ghost body = below_heading(all);
    let ghost mut rs: Seq<Record> = Seq::empty();
    let mut found: Vec<Network> = Vec::new();
    let mut i: usize = 1;
    proof {
        assert(network_views(found@) =~= Seq::<Record>::empty());
        assert(records_in(body.take(0)) =~= rs);
    }
    while i < ls.len()
        invariant
            1 <= i,
            all == str_views(ls@),
            body == below_heading(all),
            ls@.len() > 0 ==> i <= ls@.len(),
            rs == records_in(body.take(if ls@.len() > 0 {
                i - 1
            } else {
                0
            })),
            holds_kept(network_views(found@), rs),
        decreases ls@.len() - i,
    {
        proof {
            assert(body.take(i as int).drop_last() =~= body.take(i - 1));
            assert(body.take(i as int).last() == ls@[i as int]@);
        }
        if let Some(n) = read_line(ls[i]) {
            let ghost rec = n@;
            note(&mut found, n, Ghost(rs));
            proof {
                rs = rs.push(rec);
            }
        }
        i += 1;
    }
    proof {
        assert(body.take(body.len() as int) =~= body);
        assert(rs == records_of(raw@));
    }
    let v: Vec<Network> = sort_by_signal(found);
    proof {
        let ns = network_views(found@);
        let vs = network_views(v@);
        broadcast use vstd::seq_lib::group_to_multiset_ensures;

        assert(ns.no_duplicates());
        ns.lemma_multiset_has_no_duplicates();
        vs.lemma_multiset_has_no_duplicates_conv();
        assert forall|r: Record| #[trigger] vs.contains(r) <==> strongest(rs, r) by {
            lemma_strongest_is_kept(rs, r);
            assert(vs.contains(r) <==> vs.to_multiset().count(r) > 0);
            assert(ns.contains(r) <==> ns.to_multiset().count(r) > 0);
            if ns.contains(r) {
                let k = choose|k: int| 0 <= k < ns.len() && ns[k] == r;
                assert(kept(rs, ns[k].ssid) == Some(ns[k]));
            }
            if kept(rs, r.ssid) == Some(r) {
                let k = choose|k: int| 0 <= k < ns.len() && (#[trigger] ns[k]).ssid == r.ssid;
                assert(kept(rs, ns[k].ssid) == Some(ns[k]));
            }
        }
        assert forall|i: int, j: int| 0 <= i < j < vs.len() implies vs[i].ssid != vs[j].ssid by {
            assert(vs.contains(vs[i]) && vs.contains(vs[j]));
            lemma_strongest_is_kept(rs, vs[i]);
            lemma_strongest_is_kept(rs, vs[j]);
        }
    }
    v
}

// ---------------------------------------------------------------------------
// What a list of networks tells
// ---------------------------------------------------------------------------

/// No network is lost: for each line of the report that describes a network, the list holds
/// a network of that SSID that is at least as strong.
pub proof fn law_every_network_listed(v: Seq<Record>, raw: Seq<char>, j: int)
    requires
        listed(v, raw),
        0 <= j < records_of(raw).len(),
    ensures
        exists|k: int|
            0 <= k < v.len() && (#[trigger] v[k]).ssid == records_of(raw)[j].ssid && v[k].signal
                >= records_of(raw)[j].signal,
{
    let rs = records_of(raw);
    let ssid = rs[j].ssid;
    lemma_kept(rs, ssid);
    match kept(rs, ssid) {
        Some(r) => {
            let i = choose|i: int| #[trigger] strongest_at(rs, i) && rs[i] == r;
            assert(rs[j].signal <= rs[i].signal);
            assert(strongest(rs, r));
            assert(v.contains(r));
            let k = choose|k: int| 0 <= k < v.len() && v[k] == r;
            assert(v[k].ssid == ssid);
        },
        None => {
            assert(rs[j].ssid != ssid);
        },
    }
}

/// A record comes from a line of the report.
proof fn lemma_records_from_lines(ls: Seq<Seq<char>>, i: int)
    requires
        0 <= i < records_in(ls).len(),
    ensures
        exists|j: int|
            0 <= j < ls.len() && record_of(#[trigger] ls[j]) == Some(records_in(ls)[i]),
    decreases ls.len(),
{
    if ls.len() > 0 {
        let ls0 = ls.drop_last();
        if i < records_in(ls0).len() {
            lemma_records_from_lines(ls0, i);
            let j = choose|j: int|
                0 <= j < ls0.len() && record_of(#[trigger] ls0[j]) == Some(records_in(ls0)[i]);
            assert(ls[j] == ls0[j]);
        } else {
            assert(record_of(ls[ls.len() - 1]) == Some(records_in(ls)[i]));
        }
    }
}

/// The columns of a line hold no character that the line does not hold.
proof fn lemma_column_chars(s: Seq<char>, c: char, n: nat, x: char)
    requires
        !s.contains(x),
    ensures
        forall|i: int|
            0 <= i < splitn_of(s, c, n).len() ==> !(#[trigger] splitn_of(s, c, n)[i]).contains(x),
    decreases n,
{
    if n == 0 || n == 1 || find_char(s, c) == s.len() {
    } else {
        lemma_find_char(s, c);
        let k = find_char(s, c);
        let rest = s.skip(k + 1);
        assert(!rest.contains(x)) by {
            if rest.contains(x) {
                let j = choose|j: int| 0 <= j < rest.len() && rest[j] == x;
                assert(s[k + 1 + j] == x);
            }
        }
        assert(!s.take(k).contains(x)) by {
            if s.take(k).contains(x) {
                let j = choose|j: int| 0 <= j < k && s.take(k)[j] == x;
                assert(s[j] == x);
            }
        }
        lemma_column_chars(rest, c, (n - 1) as nat, x);
        assert forall|i: int| 0 <= i < splitn_of(s, c, n).len() implies !(
        #[trigger] splitn_of(s, c, n)[i]).contains(x) by {
            if i > 0 {
                assert(splitn_of(s, c, n)[i] == splitn_of(rest, c, (n - 1) as nat)[i - 1]);
            }
        }
    }
}

/// The SSID of a listed network is not blank, has no white space around it and no line feed
/// in it.
pub proof fn law_listed_ssid_is_clean(v: Seq<Record>, raw: Seq<char>, k: int)
    requires
        listed(v, raw),
        0 <= k < v.len(),
    ensures
        v[k].ssid.len() > 0,
        is_trimmed(v[k].ssid),
        !v[k].ssid.contains('\n'),
{
    let rs = records_of(raw);
    let all = lines_of(raw);
    assert(v.contains(v[k]));
    assert(strongest(rs, v[k]));
    let i = choose|i: int| #[trigger] strongest_at(rs, i) && rs[i] == v[k];
    let ls = below_heading(all);
    lemma_records_from_lines(ls, i);
    let j = choose|j: int| 0 <= j < ls.len() && record_of(#[trigger] ls[j]) == Some(rs[i]);
    lemma_lines_no_feed(raw);
    assert(ls[j] == all[j + 1]);
    assert(!all[j + 1].contains('\n'));
    lemma_column_chars(ls[j], '\t', 5, '\n');
    let col = splitn_of(ls[j], '\t', 5)[4];
    assert(!col.contains('\n'));
    lemma_trim(col);
}

/// A line that describes a network is among the records.
proof fn lemma_line_recorded(ls: Seq<Seq<char>>, j: int)
    requires
        0 <= j < ls.len(),
        record_of(ls[j]) is Some,
    ensures
        exists|i: int|
            0 <= i < records_in(ls).len() && Some(#[trigger] records_in(ls)[i]) == record_of(ls[j]),
    decreases ls.len(),
{
    let ls0 = ls.drop_last();
    let rs = records_in(ls);
    if j < ls0.len() {
        lemma_line_recorded(ls0, j);
        let i = choose|i: int|
            0 <= i < records_in(ls0).len() && Some(#[trigger] records_in(ls0)[i]) == record_of(
                ls0[j],
            );
        assert(rs[i] == records_in(ls0)[i]);
    } else {
        assert(Some(rs[rs.len() - 1]) == record_of(ls[j]));
    }
}

/// Whether each of `a` is one of `b`.
pub open spec fn all_among<T>(a: Seq<T>, b: Seq<T>) -> bool {
    forall|i: int| 0 <= i < a.len() ==> b.contains(#[trigger] a[i])
}

/// Whether all of the strongest records for the SSID of `r` agree with it in their flags.
pub open spec fn flags_agree(rs: Seq<Record>, r: Record) -> bool {
    forall|i: int|
        0 <= i < rs.len() && (#[trigger] rs[i]).ssid == r.ssid && rs[i].signal == r.signal
            ==> rs[i].flags == r.flags
}

/// Of lines that occur elsewhere, the records occur there.
proof fn lemma_records_among(ls1: Seq<Seq<char>>, ls2: Seq<Seq<char>>)
    requires
        all_among(ls1, ls2),
    ensures
        all_among(records_in(ls1), records_in(ls2)),
{
    let rs1 = records_in(ls1);
    let rs2 = records_in(ls2);
    assert forall|i: int| 0 <= i < rs1.len() implies rs2.contains(#[trigger] rs1[i]) by {
        lemma_records_from_lines(ls1, i);
        let j = choose|j: int| 0 <= j < ls1.len() && record_of(#[trigger] ls1[j]) == Some(rs1[i]);
        assert(ls2.contains(ls1[j]));
        let m = choose|m: int| 0 <= m < ls2.len() && ls2[m] == ls1[j];
        lemma_line_recorded(ls2, m);
    }
}

/// The same records in another order, or repeated, have strongest ones of the same level.
proof fn lemma_same_strongest(rs1: Seq<Record>, rs2: Seq<Record>, i: int) -> (j: int)
    requires
        all_among(rs1, rs2),
        all_among(rs2, rs1),
        strongest_at(rs1, i),
    ensures
        strongest_at(rs2, j),
        rs2[j].ssid == rs1[i].ssid,
        rs2[j].signal == rs1[i].signal,
        rs1.contains(rs2[j]),
{
    assert(rs2.contains(rs1[i]));
    let m = choose|m: int| 0 <= m < rs2.len() && rs2[m] == rs1[i];
    lemma_kept(rs2, rs1[i].ssid);
    match kept(rs2, rs1[i].ssid) {
        Some(k) => {
            let j = choose|j: int| #[trigger] strongest_at(rs2, j) && rs2[j] == k;
            assert(rs2[m].signal <= rs2[j].signal);
            assert(rs1.contains(rs2[j]));
            let n = choose|n: int| 0 <= n < rs1.len() && rs1[n] == rs2[j];
            assert(rs1[n].signal <= rs1[i].signal);
            j
        },
        None => {
            assert(rs2[m].ssid != rs1[i].ssid);
            m
        },
    }
}

/// The SSIDs and levels of a list.
pub open spec fn levels(v: Seq<Record>) -> Seq<(Seq<char>, i32)> {
    v.map_values(|r: Record| (r.ssid, r.signal))
}

/// A list whose SSIDs occur in another with the same levels is no longer than that, and at no
/// place stronger.
proof fn lemma_levels_among(v1: Seq<Record>, v2: Seq<Record>)
    requires
        distinct_ssids(v1),
        distinct_ssids(v2),
        by_signal(v1),
        by_signal(v2),
        all_among(levels(v1), levels(v2)),
    ensures
        v1.len() <= v2.len(),
        forall|k: int|
            0 <= k < v1.len() && k < v2.len() ==> (#[trigger] v1[k]).signal <= v2[k].signal,
{
    let p1 = levels(v1);
    let p2 = levels(v2);
    assert(p1.no_duplicates());
    assert(p2.no_duplicates());
    p1.unique_seq_to_set();
    p2.unique_seq_to_set();
    assert(p1.to_set().subset_of(p2.to_set())) by {
        assert forall|p: (Seq<char>, i32)| p1.to_set().contains(p) implies p2.to_set().contains(
            p,
        ) by {
            let i = choose|i: int| 0 <= i < p1.len() && p1[i] == p;
            assert(p2.contains(p1[i]));
        }
    }
    vstd::set_lib::lemma_len_subset(p1.to_set(), p2.to_set());
    assert forall|k: int| 0 <= k < v1.len() && k < v2.len() implies (#[trigger] v1[k]).signal
        <= v2[k].signal by {
        if v1[k].signal > v2[k].signal {
            let a = p1.take(k + 1);
            let b = p2.take(k);
            a.unique_seq_to_set();
            b.unique_seq_to_set();
            assert forall|p: (Seq<char>, i32)| a.to_set().contains(p) implies b.to_set().contains(
                p,
            ) by {
                let i = choose|i: int| 0 <= i < a.len() && a[i] == p;
                assert(p1[i] == p);
                assert(p2.contains(p1[i]));
                let j = choose|j: int| 0 <= j < p2.len() && p2[j] == p;
                assert(v1[i].signal >= v1[k].signal);
                if j >= k {
                    assert(v2[k].signal >= v2[j].signal);
                }
                assert(b[j] == p);
            }
            vstd::set_lib::lemma_len_subset(a.to_set(), b.to_set());
        }
    }
}

/// Each network of one list is in the other, with the same level.
proof fn lemma_rows_among(v1: Seq<Record>, raw1: Seq<char>, v2: Seq<Record>, raw2: Seq<char>)
    requires
        listed(v1, raw1),
        listed(v2, raw2),
        all_among(records_of(raw1), records_of(raw2)),
        all_among(records_of(raw2), records_of(raw1)),
    ensures
        all_among(levels(v1), levels(v2)),
        forall|k: int|
            0 <= k < v1.len() && flags_agree(records_of(raw1), v1[k]) ==> v2.contains(
                #[trigger] v1[k],
            ),
{
    let rs1 = records_of(raw1);
    let rs2 = records_of(raw2);
    assert forall|k: int| 0 <= k < v1.len() implies levels(v2).contains(#[trigger] levels(v1)[k])
        && (flags_agree(rs1, v1[k]) ==> v2.contains(v1[k])) by {
        assert(v1.contains(v1[k]));
        assert(strongest(rs1, v1[k]));
        let i = choose|i: int| #[trigger] strongest_at(rs1, i) && rs1[i] == v1[k];
        let j = lemma_same_strongest(rs1, rs2, i);
        assert(strongest(rs2, rs2[j]));
        assert(v2.contains(rs2[j]));
        let m = choose|m: int| 0 <= m < v2.len() && v2[m] == rs2[j];
        assert(levels(v2)[m] == levels(v1)[k]);
        if flags_agree(rs1, v1[k]) {
            let n = choose|n: int| 0 <= n < rs1.len() && rs1[n] == rs2[j];
            assert(rs1[n].flags == v1[k].flags);
            assert(rs2[j] == v1[k]);
        }
    }
    assert forall|k: int| 0 <= k < v1.len() && flags_agree(rs1, v1[k]) implies v2.contains(
        #[trigger] v1[k],
    ) by {
        assert(levels(v2).contains(levels(v1)[k]));
    }
}

/// The list depends on neither the order nor the repetition of the rows below the heading.
/// Where two reports have the same rows there, their lists are of one length, place by place
/// of the same level, and hold the same SSIDs with the same levels.  A network is in both
/// lists with the same flags too, unless equally strong rows of its SSID disagree on them: of
/// such rows the first one counts.
pub proof fn law_rows_in_any_order(
    v1: Seq<Record>,
    raw1: Seq<char>,
    v2: Seq<Record>,
    raw2: Seq<char>,
)
    requires
        listed(v1, raw1),
        listed(v2, raw2),
        all_among(below_heading(lines_of(raw1)), below_heading(lines_of(raw2))),
        all_among(below_heading(lines_of(raw2)), below_heading(lines_of(raw1))),
    ensures
        v1.len() == v2.len(),
        forall|k: int| 0 <= k < v1.len() ==> (#[trigger] v1[k]).signal == v2[k].signal,
        all_among(levels(v1), levels(v2)),
        all_among(levels(v2), levels(v1)),
        forall|k: int|
            0 <= k < v1.len() && flags_agree(records_of(raw1), v1[k]) ==> v2.contains(
                #[trigger] v1[k],
            ),
{
    lemma_records_among(below_heading(lines_of(raw1)), below_heading(lines_of(raw2)));
    lemma_records_among(below_heading(lines_of(raw2)), below_heading(lines_of(raw1)));
    lemma_rows_among(v1, raw1, v2, raw2);
    lemma_rows_among(v2, raw2, v1, raw1);
    lemma_levels_among(v1, v2);
    lemma_levels_among(v2, v1);
    assert forall|k: int| 0 <= k < v1.len() implies (#[trigger] v1[k]).signal == v2[k].signal by {
        assert(v2[k].signal <= v1[k].signal);
    }
}

/// What a row of five columns tells: the SSID is all of the fifth column but the white space
/// around it, with its inner spaces and tabs; the level is the number in the third, or -100
/// where that is no number; the flags are the fourth without white space around them.
pub proof fn law_row_read(
    bssid: Seq<char>,
    frequency: Seq<char>,
    level: Seq<char>,
    flags: Seq<char>,
    left: Seq<char>,
    ssid: Seq<char>,
    right: Seq<char>,
)
    requires
        !bssid.contains('\t'),
        !frequency.contains('\t'),
        !level.contains('\t'),
        !flags.contains('\t'),
        blank(left),
        blank(right),
        ssid.len() > 0,
        !white_space(ssid[0]),
        !white_space(ssid.last()),
    ensures
        ({
            let tab = seq!['\t'];
            let line = bssid + tab + frequency + tab + level + tab + flags + tab + (left + ssid
                + right);
            let blank_line = bssid + tab + frequency + tab + level + tab + flags + tab + left;
            &&& record_of(line) matches Some(r) && r.ssid == ssid && r.flags == trim_of(flags) && (
            i32_of(trim_of(level)) matches Some(n) ==> r.signal == n) && (i32_of(
                trim_of(level),
            ) is None ==> r.signal == -100)
            &&& record_of(blank_line) is None
        }),
{
    let tab = seq!['\t'];
    law_trim(left, ssid, right);
    lemma_five_columns(bssid, frequency, level, flags, left + ssid + right);
    law_trim(left, Seq::<char>::empty(), Seq::<char>::empty());
    assert(left + Seq::<char>::empty() + Seq::<char>::empty() =~= left);
    lemma_five_columns(bssid, frequency, level, flags, left);
}

/// Five columns are read as they were put together.
proof fn lemma_five_columns(
    a: Seq<char>,
    b: Seq<char>,
    c: Seq<char>,
    d: Seq<char>,
    e: Seq<char>,
)
    requires
        !a.contains('\t'),
        !b.contains('\t'),
        !c.contains('\t'),
        !d.contains('\t'),
    ensures
        ({
            let tab = seq!['\t'];
            splitn_of(a + tab + b + tab + c + tab + d + tab + e, '\t', 5) == seq![a, b, c, d, e]
        }),
{
    let tab = seq!['\t'];
    let after_c = d + tab + e;
    let after_b = c + tab + after_c;
    let after_a = b + tab + after_b;
    law_splitn(e, '\t', d, e, 2);
    law_splitn(e, '\t', c, after_c, 3);
    law_splitn(e, '\t', b, after_b, 4);
    law_splitn(e, '\t', a, after_a, 5);
    assert(a + tab + b + tab + c + tab + d + tab + e =~= a + tab + after_a);
    assert(splitn_of(after_c, '\t', 2) =~= seq![d, e]);
    assert(splitn_of(after_b, '\t', 3) =~= seq![c, d, e]);
    assert(splitn_of(after_a, '\t', 4) =~= seq![b, c, d, e]);
    assert(splitn_of(a + tab + after_a, '\t', 5) =~= seq![a, b, c, d, e]);
}

/// A row with fewer than five columns tells of no network.
pub proof fn law_short_row(a: Seq<char>, b: Seq<char>, c: Seq<char>, d: Seq<char>)
    requires
        !a.contains('\t'),
        !b.contains('\t'),
        !c.contains('\t'),
        !d.contains('\t'),
    ensures
        ({
            let tab = seq!['\t'];
            &&& record_of(a) is None
            &&& record_of(a + tab + b) is None
            &&& record_of(a + tab + b + tab + c) is None
            &&& record_of(a + tab + b + tab + c + tab + d) is None
        }),
{
    let tab = seq!['\t'];
    law_splitn(a, '\t', a, b, 5);
    law_splitn(a, '\t', b, c, 4);
    law_splitn(a, '\t', c, d, 3);
    law_splitn(a, '\t', d, d, 2);
    assert(splitn_of(b, '\t', 4) =~= seq![b]);
    let bc = b + tab + c;
    law_splitn(a, '\t', a, bc, 5);
    assert(a + tab + b + tab + c =~= a + tab + bc);
    let cd = c + tab + d;
    let bcd = b + tab + cd;
    law_splitn(a, '\t', b, cd, 4);
    law_splitn(a, '\t', a, bcd, 5);
    assert(a + tab + b + tab + c + tab + d =~= a + tab + bcd);
}

/// A record comes from a row, and the rows before it come before it.
proof fn lemma_record_order(ls: Seq<Seq<char>>, i: int, j: int)
    requires
        0 <= i < records_in(ls).len(),
        0 <= j < ls.len(),
        record_of(ls[j]) is Some,
        i == records_in(ls.take(j)).len(),
    ensures
        Some(records_in(ls)[i]) == record_of(ls[j]),
    decreases ls.len(),
{
    let ls0 = ls.drop_last();
    if j == ls.len() - 1 {
        assert(ls.take(j) =~= ls0);
    } else {
        assert(ls0.take(j) =~= ls.take(j));
        lemma_records_grow(ls0, j);
        lemma_record_order(ls0, i, j);
        assert(records_in(ls)[i] == records_in(ls0)[i]);
    }
}

/// A row that tells of a network adds a record.
proof fn lemma_records_grow(ls: Seq<Seq<char>>, j: int)
    requires
        0 <= j < ls.len(),
    ensures
        records_in(ls.take(j)).len() <= records_in(ls).len(),
        record_of(ls[j]) is Some ==> records_in(ls.take(j)).len() < records_in(ls).len(),
    decreases ls.len(),
{
    let ls0 = ls.drop_last();
    if j == ls.len() - 1 {
        assert(ls.take(j) =~= ls0);
    } else {
        assert(ls0.take(j) =~= ls.take(j));
        lemma_records_grow(ls0, j);
    }
}

/// More rows never give fewer records.
proof fn lemma_records_monotone(ls: Seq<Seq<char>>, i: int, j: int)
    requires
        0 <= i <= j <= ls.len(),
    ensures
        records_in(ls.take(i)).len() <= records_in(ls.take(j)).len(),
{
    if i < j {
        assert(ls.take(j).take(i) =~= ls.take(i));
        lemma_records_grow(ls.take(j), i);
    }
}

/// For each record there is the row that gave it.
proof fn lemma_row_of_record(ls: Seq<Seq<char>>, i: int) -> (j: int)
    requires
        0 <= i < records_in(ls).len(),
    ensures
        0 <= j < ls.len(),
        record_of(ls[j]) == Some(records_in(ls)[i]),
        records_in(ls.take(j)).len() == i,
    decreases ls.len(),
{
    let ls0 = ls.drop_last();
    if i < records_in(ls0).len() {
        let j = lemma_row_of_record(ls0, i);
        assert(ls0.take(j) =~= ls.take(j));
        j
    } else {
        assert(ls.take(ls.len() - 1) =~= ls0);
        ls.len() - 1
    }
}

/// The list and the rows of the report.  Each network of the list is told of by a row below
/// the heading, as that row has it, such that no row of the same SSID is stronger and no
/// earlier one as strong; each row below the heading that tells of a network has its SSID in
/// the list; no SSID is listed twice; and no network stands behind a weaker one.
pub proof fn law_list_of_rows(v: Seq<Record>, raw: Seq<char>)
    requires
        listed(v, raw),
    ensures
        ({
            let rows = lines_of(raw);
            &&& forall|k: int|
                0 <= k < v.len() ==> exists|j: int|
                    1 <= j < rows.len() && record_of(#[trigger] rows[j]) == Some(#[trigger] v[k])
                        && forall|m: int|
                        1 <= m < rows.len() ==> (record_of(#[trigger] rows[m]) matches Some(r)
                            ==> r.ssid == v[k].ssid ==> r.signal <= v[k].signal && (m < j
                            ==> r.signal < v[k].signal))
            &&& forall|j: int|
                1 <= j < rows.len() ==> (record_of(#[trigger] rows[j]) matches Some(r) ==> exists|
                    k: int,
                | 0 <= k < v.len() && (#[trigger] v[k]).ssid == r.ssid)
            &&& forall|i: int, k: int| 0 <= i < k < v.len() ==> v[i].ssid != v[k].ssid
            &&& forall|i: int, k: int| 0 <= i < k < v.len() ==> v[i].signal >= v[k].signal
        }),
{
    let rows = lines_of(raw);
    let ls = below_heading(rows);
    let rs = records_of(raw);
    assert forall|k: int| 0 <= k < v.len() implies exists|j: int|
        1 <= j < rows.len() && record_of(#[trigger] rows[j]) == Some(#[trigger] v[k]) && forall|
            m: int,
        |
            1 <= m < rows.len() ==> (record_of(#[trigger] rows[m]) matches Some(r) ==> r.ssid
                == v[k].ssid ==> r.signal <= v[k].signal && (m < j ==> r.signal
                < v[k].signal)) by {
        assert(v.contains(v[k]));
        assert(strongest(rs, v[k]));
        let i = choose|i: int| #[trigger] strongest_at(rs, i) && rs[i] == v[k];
        let j = lemma_row_of_record(ls, i);
        assert(rows[j + 1] == ls[j]);
        assert forall|m: int| 1 <= m < rows.len() implies (record_of(
            #[trigger] rows[m],
        ) matches Some(r) ==> r.ssid == v[k].ssid ==> r.signal <= v[k].signal && (m < j + 1
            ==> r.signal < v[k].signal)) by {
            if let Some(r) = record_of(rows[m]) {
                assert(ls[m - 1] == rows[m]);
                let n = records_in(ls.take(m - 1)).len() as int;
                lemma_records_grow(ls, m - 1);
                lemma_record_order(ls, n, m - 1);
                assert(rs[n] == r);
                if m < j + 1 {
                    lemma_records_monotone(ls, m, j);
                    assert(ls.take(m).drop_last() =~= ls.take(m - 1));
                    assert(ls.take(m).last() == ls[m - 1]);
                    assert(n < i);
                }
            }
        }
    }
    assert forall|j: int| 1 <= j < rows.len() implies (record_of(
        #[trigger] rows[j],
    ) matches Some(r) ==> exists|k: int| 0 <= k < v.len() && (#[trigger] v[k]).ssid == r.ssid) by {
        if let Some(r) = record_of(rows[j]) {
            assert(ls[j - 1] == rows[j]);
            let n = records_in(ls.take(j - 1)).len() as int;
            lemma_records_grow(ls, j - 1);
            lemma_record_order(ls, n, j - 1);
            law_every_network_listed(v, raw, n);
        }
    }
}

/// The view of a network shows its SSID, its level and its flags.
pub proof fn law_network_view(n: Network, v: Seq<Network>, i: int)
    requires
        0 <= i < v.len(),
    ensures
        n@.ssid == n.ssid@,
        n@.signal == n.signal,
        n@.flags == n.flags@,
        network_views(v).len() == v.len(),
        network_views(v)[i] == v[i]@,
{
}

} // verus!
