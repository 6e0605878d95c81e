//! Worker liveness records: one row per peer in the shared clients table,
//! the liveness window that separates live peers from stale ones, and the
//! sorted live-peer list every rebalance pass works from.

use vstd::prelude::*;
use vstd::utf8::encode_utf8;

verus! {


/// How often a worker refreshes its own record, in seconds.
pub const REGISTRATION_FREQUENCY_SEC: u32 = 5;

/// How long a record stays live without a refresh: three heartbeat periods.
pub const LIVENESS_WINDOW_SEC: i64 = 15;

/// One peer's most recent heartbeat: its identity and the time of its last
/// refresh, as seconds since the epoch.
pub struct ClientRecord {
    pub id: String,
    pub last_update: i64,
}

/// The peer list, as read back from the clients table.
pub struct ClientRecords(pub Vec<ClientRecord>);

/// The identities of a record sequence, in order, as character sequences.
pub open spec fn id_views(records: Seq<ClientRecord>) -> Seq<Seq<char>> {
    Seq::new(records.len(), |i: int| records[i].id@)
}

/// Byte-wise lexicographic order, the order the registry sorts by.
pub open spec fn lex_le(a: Seq<u8>, b: Seq<u8>) -> bool
    decreases a.len(),
{
    if a.len() == 0 {
        true
    } else if b.len() == 0 {
        false
    } else if a[0] < b[0] {
        true
    } else if a[0] > b[0] {
        false
    } else {
        lex_le(a.drop_first(), b.drop_first())
    }
}

/// `a` sorts no later than `b`: its identity's UTF-8 bytes are
/// lexicographically no greater.
pub open spec fn id_le(a: ClientRecord, b: ClientRecord) -> bool {
    lex_le(encode_utf8(a.id@), encode_utf8(b.id@))
}

/// Ascending by identity.
pub open spec fn ids_sorted(records: Seq<ClientRecord>) -> bool {
    forall|i: int, j: int| 0 <= i < j < records.len() ==> id_le(records[i], records[j])
}

proof fn lemma_lex_le_total(a: Seq<u8>, b: Seq<u8>)
    ensures
        lex_le(a, b) || lex_le(b, a),
    decreases a.len(),
{
    if a.len() > 0 && b.len() > 0 && a[0] == b[0] {
        lemma_lex_le_total(a.drop_first(), b.drop_first());
    }
}

proof fn lemma_lex_le_trans(a: Seq<u8>, b: Seq<u8>, c: Seq<u8>)
    requires
        lex_le(a, b),
        lex_le(b, c),
    ensures
        lex_le(a, c),
    decreases a.len(),
{
    if a.len() > 0 && b.len() > 0 && c.len() > 0 && a[0] == b[0] && b[0] == c[0] {
        lemma_lex_le_trans(a.drop_first(), b.drop_first(), c.drop_first());
    }
}

/// A record is live at `now` iff its last refresh is at most the liveness
/// window ago.
pub open spec fn is_live(last_update: i64, now: i64) -> bool {
    now - last_update <= LIVENESS_WINDOW_SEC
}

/// The live records of a sequence, in their original order.
pub open spec fn live_records(records: Seq<ClientRecord>, now: i64) -> Seq<ClientRecord>
    decreases records.len(),
{
    if records.len() == 0 {
        Seq::empty()
    } else {
        let rest = live_records(records.drop_last(), now);
        if is_live(records.last().last_update, now) {
            rest.push(records.last())
        } else {
            rest
        }
    }
}

/// Whether a record counts as live at `now`.
pub fn record_is_live(last_update: i64, now: i64) -> (r: bool)
    ensures
        r == is_live(last_update, now),
{
    match now.checked_sub(LIVENESS_WINDOW_SEC) {
        None => true,
        Some(threshold) => last_update >= threshold,
    }
}

/// Compare two records by identity.
#[verifier::loop_isolation(false)]
fn record_le(a: &ClientRecord, b: &ClientRecord) -> (r: bool)
    ensures
        r == id_le(*a, *b),
{
    let ab = a.id.as_str().as_bytes();
    let bb = b.id.as_str().as_bytes();
    proof {
        assert(ab@.skip(0) =~= ab@);
        assert(bb@.skip(0) =~= bb@);
    }
    let mut i: usize = 0;
    while i < ab.len() && i < bb.len()
        invariant
            i <= ab@.len(),
            i <= bb@.len(),
            lex_le(ab@, bb@) == lex_le(ab@.skip(i as int), bb@.skip(i as int)),
            forall|k: int| 0 <= k < i ==> ab@[k] == bb@[k],
        decreases ab@.len() - i,
    {
        let x = ab[i];
        let y = bb[i];
        if x < y {
            proof {
                assert(ab@.skip(i as int)[0] == x);
                assert(bb@.skip(i as int)[0] == y);
            }
            return true;
        }
        if x > y {
            proof {
                assert(ab@.skip(i as int)[0] == x);
                assert(bb@.skip(i as int)[0] == y);
            }
            return false;
        }
        proof {
            assert(ab@.skip(i as int).drop_first() =~= ab@.skip(i + 1));
            assert(bb@.skip(i as int).drop_first() =~= bb@.skip(i + 1));
            assert(ab@.skip(i as int)[0] == bb@.skip(i as int)[0]);
        }
        i = i + 1;
    }
    proof {
        if ab@.len() <= bb@.len() {
            assert(ab@.skip(i as int).len() == 0);
        } else {
            assert(bb@.skip(i as int).len() == 0);
            assert(ab@.skip(i as int).len() > 0);
        }
    }
    ab.len() <= bb.len()
}

/// Drop every stale record and sort the rest ascending by identity. The
/// result holds exactly the live records of the input: nothing older than the
/// liveness window ever appears in it.
#[verifier::loop_isolation(false)]
pub fn live_sorted(records: Vec<ClientRecord>, now: i64) -> (r: ClientRecords)
    ensures
        forall|k: int| 0 <= k < r.0@.len() ==> is_live(#[trigger] r.0@[k].last_update, now),
        r.0@.to_multiset() == live_records(records@, now).to_multiset(),
        ids_sorted(r.0@),
{
    broadcast use vstd::seq_lib::group_to_multiset_ensures;
    broadcast use vstd::seq_lib::to_multiset_insert;
    broadcast use vstd::multiset::group_multiset_axioms;

    let mut rest = records;
    let mut kept: Vec<ClientRecord> = Vec::new();
    proof {
        assert(kept@.to_multiset().add(live_records(rest@, now).to_multiset()) =~= live_records(
            records@,
            now,
        ).to_multiset());
    }
    while rest.len() > 0
        invariant
            forall|k: int| 0 <= k < kept@.len() ==> is_live(#[trigger] kept@[k].last_update, now),
            ids_sorted(kept@),
            kept@.to_multiset().add(live_records(rest@, now).to_multiset()) == live_records(
                records@,
                now,
            ).to_multiset(),
        decreases rest@.len(),
    {
        let ghost old_rest = rest@;
        let ghost old_kept = kept@;
        let rec = rest.pop().unwrap();
        proof {
            assert(rest@ =~= old_rest.drop_last());
            assert(rec == old_rest.last());
        }
        if record_is_live(rec.last_update, now) {
            let mut p: usize = 0;
            while p < kept.len() && record_le(&kept[p], &rec)
                invariant
                    p <= kept@.len(),
                    forall|k: int| 0 <= k < p ==> id_le(#[trigger] kept@[k], rec),
                decreases kept@.len() - p,
            {
                p = p + 1;
            }
            proof {
                if (p as int) < kept@.len() {
                    lemma_lex_le_total(encode_utf8(kept@[p as int].id@), encode_utf8(rec.id@));
                }
            }
            kept.insert(p, rec);
            proof {
                old_kept.insert_ensures(p as int, rec);
                assert(kept@ == old_kept.insert(p as int, rec));
                assert forall|i: int, j: int|
                    0 <= i < j < kept@.len() implies id_le(kept@[i], kept@[j]) by {
                    if j < p {
                        assert(id_le(old_kept[i], old_kept[j]));
                    } else if j == p {
                        assert(kept@[j] == rec);
                        assert(id_le(old_kept[i], rec));
                    } else if i == p {
                        assert(kept@[i] == rec);
                        assert(id_le(rec, old_kept[j - 1])) by {
                            if p as int <= j - 1 {
                                if p as int == j - 1 {
                                } else {
                                    assert(id_le(old_kept[p as int], old_kept[j - 1]));
                                    lemma_lex_le_trans(
                                        encode_utf8(rec.id@),
                                        encode_utf8(old_kept[p as int].id@),
                                        encode_utf8(old_kept[j - 1].id@),
                                    );
                                }
                            }
                        }
                    } else if i < p {
                        assert(id_le(old_kept[i], old_kept[j - 1]));
                    } else {
                        assert(id_le(old_kept[i - 1], old_kept[j - 1]));
                    }
                }
                assert(live_records(old_rest, now) =~= live_records(rest@, now).push(rec));
                assert(kept@.to_multiset() =~= old_kept.to_multiset().insert(rec));
                assert(kept@.to_multiset().add(live_records(rest@, now).to_multiset())
                    =~= old_kept.to_multiset().add(live_records(old_rest, now).to_multiset()));
            }
        } else {
            proof {
                assert(live_records(old_rest, now) =~= live_records(rest@, now));
            }
        }
    }
    proof {
        assert(rest@.len() == 0);
        assert(live_records(rest@, now) =~= Seq::<ClientRecord>::empty());
        assert(kept@.to_multiset().add(Seq::<ClientRecord>::empty().to_multiset()) =~= kept@.to_multiset());
    }
    ClientRecords(kept)
}

/// What an RFC 3339 timestamp string denotes, as seconds since the epoch;
/// nothing when the string is not a valid timestamp.
pub uninterp spec fn rfc3339_epoch_of(s: Seq<char>) -> Option<i64>;

/// Relies on `chrono::DateTime::parse_from_rfc3339`: parses an RFC 3339
/// timestamp, a function of the string alone.
#[verifier::external_body]
fn parse_rfc3339_epoch(s: &str) -> (r: Option<i64>)
    ensures
        r == rfc3339_epoch_of(s@),
{
    match chrono::DateTime::parse_from_rfc3339(s) {
        Ok(dt) => Some(dt.timestamp()),
        Err(_) => None,
    }
}

/// The RFC 3339 rendering of an epoch second count; nothing when the value
/// lies outside the representable date range.
pub uninterp spec fn rfc3339_of(t: i64) -> Option<Seq<char>>;

/// Relies on `chrono::DateTime::from_timestamp` and `to_rfc3339`: renders an
/// epoch second count as an RFC 3339 timestamp, a function of the value
/// alone, and refuses out-of-range values.
#[verifier::external_body]
fn format_rfc3339_epoch(t: i64) -> (r: Option<String>)
    ensures
        r.deep_view() == rfc3339_of(t),
{
    chrono::DateTime::<chrono::Utc>::from_timestamp(t, 0).map(|dt| dt.to_rfc3339())
}

impl ClientRecord {
    /// Build a record from the stored fields: the key and the `LastUpdate`
    /// timestamp string. Yields a record exactly when the identity is
    /// non-empty and the timestamp parses.
    pub fn from_fields(id: String, last_update: &str) -> (r: Option<ClientRecord>)
        ensures
            r is Some <==> (id@.len() > 0 && rfc3339_epoch_of(last_update@) is Some),
            r matches Some(rec) ==> rec.id@ == id@ && Some(rec.last_update) == rfc3339_epoch_of(
                last_update@,
            ),
    {
        if !crate::config::string_nonempty(&id) {
            return None;
        }
        match parse_rfc3339_epoch(last_update) {
            Some(t) => Some(ClientRecord { id, last_update: t }),
            None => None,
        }
    }

    /// The stored form of the record's timestamp.
    pub fn last_update_field(&self) -> (r: Option<String>)
        ensures
            r.deep_view() == rfc3339_of(self.last_update),
    {
        format_rfc3339_epoch(self.last_update)
    }
}

/// The values one heartbeat write stores: the RFC 3339 rendering of `now`
/// for `LastUpdate`, and `now` plus the liveness window for `TTL`.
pub fn registration_values(now: i64) -> (r: Option<(String, i64)>)
    requires
        now + LIVENESS_WINDOW_SEC <= i64::MAX,
    ensures
        r is Some <==> rfc3339_of(now) is Some,
        r matches Some(v) ==> Some(v.0@) == rfc3339_of(now) && v.1 == now + LIVENESS_WINDOW_SEC,
{
    match format_rfc3339_epoch(now) {
        Some(s) => Some((s, now + LIVENESS_WINDOW_SEC)),
        None => None,
    }
}

impl ClientRecords {
    /// The identities of the records, in order.
    pub fn ids(&mut self) -> (r: Vec<String>)
        ensures
            *final(self) == *old(self),
            r.deep_view() == id_views(old(self).0@),
    {
        let mut r: Vec<String> = Vec::new();
        let mut i: usize = 0;
        while i < self.0.len()
            invariant
                i <= self.0@.len(),
                *self == *old(self),
                r.deep_view() == id_views(self.0@.take(i as int)),
            decreases self.0@.len() - i,
        {
            r.push(self.0[i].id.clone());
            proof {
                assert(r.deep_view() =~= id_views(self.0@.take(i as int)).push(
                    self.0@[i as int].id@,
                ));
                assert(id_views(self.0@.take(i + 1)) =~= id_views(self.0@.take(i as int)).push(
                    self.0@[i as int].id@,
                ));
            }
            i = i + 1;
        }
        proof {
            assert(self.0@.take(self.0@.len() as int) =~= self.0@);
        }
        r
    }
}

} // verus!
