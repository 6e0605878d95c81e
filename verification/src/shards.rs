//! Maglev-style consistent-hash shard assignment.
//!
//! Every worker computes, from the same sorted peer list and the same shard
//! list, the same lookup table mapping each shard slot to one peer, and then
//! projects out the slots owned by its own identity. Each peer's slot
//! preference order is a pseudo-random permutation of the slot indices,
//! seeded deterministically from its identity and the shard count, so that
//! all peers agree on every peer's permutation.

use vstd::prelude::*;
use vstd::string::StringSliceAdditionalSpecFns;
use rand::seq::SliceRandom;
use rand::SeedableRng;

verus! {

use crate::clients::ClientRecords;
use crate::errors::HydraError;

/// FNV-1a offset basis.
pub const FNV_OFFSET_BASIS: u64 = 0xcbf29ce484222325;

/// FNV-1a prime.
pub const FNV_PRIME: u64 = 0x100000001b3;

/// One FNV-1a round: fold one byte into the running hash.
pub open spec fn fnv1a_step(h: u64, b: u8) -> u64 {
    vstd::wrapping::u64_specs::wrapping_mul(h ^ (b as u64), FNV_PRIME)
}

/// FNV-1a hash of a byte sequence.
pub open spec fn fnv1a(bytes: Seq<u8>) -> u64
    decreases bytes.len(),
{
    if bytes.len() == 0 {
        FNV_OFFSET_BASIS
    } else {
        fnv1a_step(fnv1a(bytes.drop_last()), bytes.last())
    }
}

/// FNV-1a over the UTF-8 bytes of a worker identity.
pub fn fnv1a_hash(s: &str) -> (h: u64)
    ensures
        h == fnv1a(s.spec_bytes()),
{
    let bytes = s.as_bytes();
    let mut h: u64 = FNV_OFFSET_BASIS;
    let mut i: usize = 0;
    while i < bytes.len()
        invariant
            i <= bytes@.len(),
            bytes@ == s.spec_bytes(),
            h == fnv1a(bytes@.subrange(0, i as int)),
        decreases bytes@.len() - i,
    {
        let b = bytes[i];
        h = (h ^ (b as u64)).wrapping_mul(FNV_PRIME);
        proof {
            assert(bytes@.subrange(0, i + 1).drop_last() =~= bytes@.subrange(0, i as int));
            assert(bytes@.subrange(0, i + 1).last() == bytes@[i as int]);
        }
        i = i + 1;
    }
    proof {
        assert(bytes@.subrange(0, bytes@.len() as int) =~= bytes@);
    }
    h
}

/// The permutation seed for one worker: its identity hash, mixed with the
/// shard count so the permutation changes when the slot space changes.
pub open spec fn seed_of(id: Seq<char>, m: usize) -> u64 {
    fnv1a(vstd::utf8::encode_utf8(id)) ^ (m as u64)
}

/// The slot indices `0 .. m` in order.
pub open spec fn identity_perm(m: int) -> Seq<usize> {
    Seq::new(m as nat, |i: int| i as usize)
}

/// What the seeded shuffle returns for a given input and seed. The result
/// depends on the two arguments alone, which is what makes every peer's
/// permutations agree.
pub uninterp spec fn shuffle_of(v: Seq<usize>, seed: u64) -> Seq<usize>;

/// Relies on `rand`'s `SliceRandom::shuffle` with a `StdRng` seeded by
/// `seed_from_u64`: a Fisher-Yates shuffle that permutes the slice in place,
/// driven only by the seeded generator, so the result is a rearrangement of
/// the input determined by the input and the seed.
#[verifier::external_body]
fn shuffled(v: Vec<usize>, seed: u64) -> (r: Vec<usize>)
    ensures
        r@ == shuffle_of(v@, seed),
        r@.to_multiset() == v@.to_multiset(),
{
    let mut v = v;
    let mut rng = rand::rngs::StdRng::seed_from_u64(seed);
    v.shuffle(&mut rng);
    v
}

/// A sequence is a permutation of the slot indices `0 .. m`: it has length
/// `m`, every entry is a valid slot, and every slot occurs in it.
pub open spec fn is_slot_perm(p: Seq<usize>, m: int) -> bool {
    &&& p.len() == m
    &&& forall|i: int| 0 <= i < m ==> p[i] < m
    &&& forall|s: usize| s < m ==> p.contains(s)
}

/// A rearrangement of the slot indices `0 .. m` is a slot permutation.
proof fn lemma_multiset_of_identity_is_perm(p: Seq<usize>, m: int)
    requires
        0 <= m <= usize::MAX,
        p.to_multiset() == identity_perm(m).to_multiset(),
    ensures
        is_slot_perm(p, m),
{
    let idn = identity_perm(m);
    vstd::seq_lib::to_multiset_len(p);
    vstd::seq_lib::to_multiset_len(idn);
    assert(p.len() == idn.len());
    assert forall|s: usize| s < m implies p.contains(s) by {
        assert(idn[s as int] == s);
        assert(idn.contains(s));
        vstd::seq_lib::to_multiset_contains(idn, s);
        vstd::seq_lib::to_multiset_contains(p, s);
    }
    assert forall|i: int| 0 <= i < m implies p[i] < m by {
        assert(p.contains(p[i]));
        vstd::seq_lib::to_multiset_contains(p, p[i]);
        vstd::seq_lib::to_multiset_contains(idn, p[i]);
        assert(idn.contains(p[i]));
        let k = choose|k: int| 0 <= k < idn.len() && idn[k] == p[i];
        assert(p[i] == k as usize);
    }
}

/// The slot indices `0 .. m` as a vector.
fn identity_vec(m: usize) -> (r: Vec<usize>)
    ensures
        r@ == identity_perm(m as int),
{
    let mut r: Vec<usize> = Vec::new();
    let mut i: usize = 0;
    while i < m
        invariant
            i <= m,
            r@ == identity_perm(i as int),
        decreases m - i,
    {
        r.push(i);
        proof {
            assert(r@ =~= identity_perm(i + 1));
        }
        i = i + 1;
    }
    r
}

/// The first index `j' >= j` in the preference order `perm` that points at a
/// free slot of `lookup`.
pub open spec fn first_free(lookup: Seq<Option<usize>>, perm: Seq<usize>, j: int) -> int
    decreases perm.len() - j
        when 0 <= j <= perm.len()
{
    if j >= perm.len() {
        j
    } else if perm[j] < lookup.len() && lookup[perm[j] as int] is None {
        j
    } else {
        first_free(lookup, perm, j + 1)
    }
}

/// How many slots of the table are still unclaimed.
pub open spec fn count_free(lookup: Seq<Option<usize>>) -> int
    decreases lookup.len(),
{
    if lookup.len() == 0 {
        0
    } else {
        count_free(lookup.drop_last()) + if lookup.last() is None {
            1int
        } else {
            0int
        }
    }
}

proof fn lemma_count_free_all_none(k: int)
    requires
        k >= 0,
    ensures
        count_free(Seq::new(k as nat, |i: int| None::<usize>)) == k,
    decreases k,
{
    if k > 0 {
        lemma_count_free_all_none(k - 1);
        assert(Seq::new(k as nat, |i: int| None::<usize>).drop_last() =~= Seq::new(
            (k - 1) as nat,
            |i: int| None::<usize>,
        ));
    }
}

proof fn lemma_count_free_pos(lookup: Seq<Option<usize>>)
    requires
        count_free(lookup) > 0,
    ensures
        exists|s: int| 0 <= s < lookup.len() && lookup[s] is None,
    decreases lookup.len(),
{
    if lookup.last() is None {
        assert(lookup[lookup.len() - 1] is None);
    } else {
        lemma_count_free_pos(lookup.drop_last());
        let s = choose|s: int| 0 <= s < lookup.drop_last().len() && lookup.drop_last()[s] is None;
        assert(lookup[s] is None);
    }
}

proof fn lemma_count_free_none(lookup: Seq<Option<usize>>, i: int)
    requires
        0 <= i < lookup.len(),
        lookup[i] is None,
    ensures
        count_free(lookup) > 0,
    decreases lookup.len(),
{
    if i == lookup.len() - 1 {
        assert(count_free(lookup.drop_last()) >= 0) by {
            lemma_count_free_nonneg(lookup.drop_last());
        }
    } else {
        lemma_count_free_none(lookup.drop_last(), i);
    }
}

proof fn lemma_count_free_nonneg(lookup: Seq<Option<usize>>)
    ensures
        count_free(lookup) >= 0,
    decreases lookup.len(),
{
    if lookup.len() > 0 {
        lemma_count_free_nonneg(lookup.drop_last());
    }
}

proof fn lemma_count_free_update(lookup: Seq<Option<usize>>, i: int, c: usize)
    requires
        0 <= i < lookup.len(),
        lookup[i] is None,
    ensures
        count_free(lookup.update(i, Some(c))) == count_free(lookup) - 1,
    decreases lookup.len(),
{
    let upd = lookup.update(i, Some(c));
    if i == lookup.len() - 1 {
        assert(upd.drop_last() =~= lookup.drop_last());
    } else {
        lemma_count_free_update(lookup.drop_last(), i, c);
        assert(upd.drop_last() =~= lookup.drop_last().update(i, Some(c)));
        assert(upd.last() == lookup.last());
    }
}

/// When the preference order is a slot permutation, every slot it skipped so
/// far is claimed, and a free slot remains, the scan from `j0` stops at a
/// free slot before running off the end.
proof fn lemma_first_free(lookup: Seq<Option<usize>>, perm: Seq<usize>, j0: int, m: int)
    requires
        lookup.len() == m,
        m <= usize::MAX,
        is_slot_perm(perm, m),
        0 <= j0 <= m,
        forall|k: int| 0 <= k < j0 ==> lookup[#[trigger] perm[k] as int] is Some,
        count_free(lookup) > 0,
    ensures
        ({
            let ff = first_free(lookup, perm, j0);
            &&& j0 <= ff < m
            &&& perm[ff] < m
            &&& lookup[perm[ff] as int] is None
            &&& forall|k: int| j0 <= k < ff ==> lookup[#[trigger] perm[k] as int] is Some
        }),
    decreases m - j0,
{
    lemma_count_free_pos(lookup);
    let s = choose|s: int| 0 <= s < lookup.len() && lookup[s] is None;
    let su = s as usize;
    assert(su as int == s);
    assert(perm.contains(su));
    let js = choose|js: int| 0 <= js < perm.len() && perm[js] == su;
    assert(lookup[perm[js] as int] is None);
    assert(js >= j0);
    if perm[j0] < lookup.len() && lookup[perm[j0] as int] is None {
    } else {
        assert(j0 < m);
        lemma_first_free(lookup, perm, j0 + 1, m);
    }
}

/// The whole table-filling pass, one claim at a time: the client for claim
/// number `assigned` scans its preference order from its cursor, claims the
/// first free slot, and advances the cursor past it.
pub open spec fn fill_rec(
    lookup: Seq<Option<usize>>,
    next: Seq<usize>,
    perms: Seq<Seq<usize>>,
    assigned: int,
    m: int,
) -> Seq<Option<usize>>
    decreases m - assigned
        when 0 <= assigned <= m && perms.len() > 0
{
    if assigned >= m {
        lookup
    } else {
        let n = perms.len() as int;
        let c = assigned % n;
        let j = first_free(lookup, perms[c], next[c] as int);
        fill_rec(
            lookup.update(perms[c][j] as int, Some(c as usize)),
            next.update(c, (j + 1) as usize),
            perms,
            assigned + 1,
            m,
        )
    }
}

/// The lookup table every peer computes from the same permutations: slot `i`
/// belongs to the client index stored at entry `i`.
pub open spec fn maglev_lookup(perms: Seq<Seq<usize>>, m: int) -> Seq<Option<usize>> {
    fill_rec(
        Seq::new(m as nat, |i: int| None::<usize>),
        Seq::new(perms.len(), |c: int| 0usize),
        perms,
        0,
        m,
    )
}

/// The state of a partially filled table, as the filling pass maintains it.
pub open spec fn fill_inv(
    lookup: Seq<Option<usize>>,
    next: Seq<usize>,
    perms: Seq<Seq<usize>>,
    assigned: int,
    m: int,
) -> bool {
    &&& 0 < perms.len() <= usize::MAX
    &&& 0 < m <= usize::MAX
    &&& lookup.len() == m
    &&& next.len() == perms.len()
    &&& 0 <= assigned <= m
    &&& count_free(lookup) == m - assigned
    &&& forall|c: int| 0 <= c < perms.len() ==> is_slot_perm(#[trigger] perms[c], m)
    &&& forall|c: int| 0 <= c < perms.len() ==> #[trigger] next[c] <= m
    &&& forall|c: int, k: int|
        0 <= c < perms.len() && 0 <= k < next[c] ==> lookup[#[trigger] perms[c][k] as int] is Some
    &&& forall|i: int| 0 <= i < m ==> (#[trigger] lookup[i] matches Some(cc) ==> cc < perms.len())
}

/// One claim preserves the filling invariant and one unfolding of `fill_rec`.
proof fn lemma_fill_step(
    lookup: Seq<Option<usize>>,
    next: Seq<usize>,
    perms: Seq<Seq<usize>>,
    assigned: int,
    m: int,
)
    requires
        fill_inv(lookup, next, perms, assigned, m),
        assigned < m,
    ensures
        ({
            let n = perms.len() as int;
            let c = assigned % n;
            let j = first_free(lookup, perms[c], next[c] as int);
            &&& 0 <= c < n
            &&& next[c] <= j < m
            &&& perms[c][j] < m
            &&& lookup[perms[c][j] as int] is None
            &&& forall|k: int| next[c] <= k < j ==> lookup[#[trigger] perms[c][k] as int] is Some
            &&& fill_inv(
                lookup.update(perms[c][j] as int, Some(c as usize)),
                next.update(c, (j + 1) as usize),
                perms,
                assigned + 1,
                m,
            )
            &&& fill_rec(lookup, next, perms, assigned, m) == fill_rec(
                lookup.update(perms[c][j] as int, Some(c as usize)),
                next.update(c, (j + 1) as usize),
                perms,
                assigned + 1,
                m,
            )
        }),
{
    let n = perms.len() as int;
    let c = assigned % n;
    assert(0 <= c < n);
    lemma_first_free(lookup, perms[c], next[c] as int, m);
    let j = first_free(lookup, perms[c], next[c] as int);
    let slot = perms[c][j] as int;
    let lookup2 = lookup.update(slot, Some(c as usize));
    let next2 = next.update(c, (j + 1) as usize);
    lemma_count_free_update(lookup, slot, c as usize);
    assert forall|c2: int, k: int|
        0 <= c2 < perms.len() && 0 <= k < next2[c2] implies lookup2[#[trigger] perms[c2][k] as int]
        is Some by {
        if perms[c2][k] as int == slot {
        } else if c2 == c {
            if k < next[c] {
                assert(lookup[perms[c][k] as int] is Some);
            } else if k < j {
                assert(lookup[perms[c][k] as int] is Some);
            } else {
                assert(k == j);
            }
        } else {
            assert(lookup[perms[c2][k] as int] is Some);
        }
    }
    assert(fill_inv(lookup2, next2, perms, assigned + 1, m));
}

/// Fill the lookup table by round-robin claim over the clients' preference
/// permutations. Every slot ends up claimed by exactly one client index, and
/// the whole table is a function of the permutations alone.
#[verifier::loop_isolation(false)]
fn build_lookup(perms: &Vec<Vec<usize>>, m: usize) -> (lookup: Vec<Option<usize>>)
    requires
        perms@.len() > 0,
        m > 0,
        forall|c: int| 0 <= c < perms@.len() ==> is_slot_perm(#[trigger] perms@[c]@, m as int),
    ensures
        lookup@ == maglev_lookup(perms.deep_view(), m as int),
        lookup@.len() == m,
        forall|i: int|
            0 <= i < m ==> (#[trigger] lookup@[i] matches Some(cc) && cc < perms@.len()),
{
    let ghost permsv = perms.deep_view();
    proof {
        assert forall|c: int| 0 <= c < permsv.len() implies #[trigger] permsv[c] == perms@[c]@ by {}
    }
    let n = perms.len();
    let mut lookup: Vec<Option<usize>> = vec![None; m];
    let mut next: Vec<usize> = vec![0; n];
    let mut assigned: usize = 0;
    proof {
        lemma_count_free_all_none(m as int);
        assert(lookup@ =~= Seq::new(m as nat, |i: int| None::<usize>));
        assert(next@ =~= Seq::new(permsv.len(), |c: int| 0usize));
        assert(fill_inv(lookup@, next@, permsv, 0, m as int));
    }
    while assigned < m
        invariant
            fill_inv(lookup@, next@, permsv, assigned as int, m as int),
            fill_rec(lookup@, next@, permsv, assigned as int, m as int) == maglev_lookup(
                permsv,
                m as int,
            ),
        decreases m - assigned,
    {
        let c = assigned % n;
        proof {
            lemma_fill_step(lookup@, next@, permsv, assigned as int, m as int);
        }
        let ghost ff = first_free(lookup@, permsv[c as int], next@[c as int] as int);
        let permc = &perms[c];
        let mut j = next[c];
        while lookup[permc[j]].is_some()
            invariant
                next@[c as int] <= j as int <= ff,
            decreases ff - j,
        {
            j = j + 1;
        }
        proof {
            assert(j as int == ff);
        }
        let slot = permc[j];
        lookup.set(slot, Some(c));
        next.set(c, j + 1);
        assigned = assigned + 1;
    }
    proof {
        assert forall|i: int|
            0 <= i < m implies (#[trigger] lookup@[i] matches Some(cc) && cc < perms@.len()) by {
            if lookup@[i] is None {
                lemma_count_free_none(lookup@, i);
            }
        }
    }
    lookup
}

/// The permutation one worker identity induces over `m` slots: the seeded
/// shuffle of the slot indices. Should the shuffle ever fail to be a
/// permutation the slots are taken in index order instead, so that the
/// assignment is total for every conceivable shuffle; the shuffle in use
/// always permutes, so the fallback is never taken at run time.
pub open spec fn perm_of(id: Seq<char>, m: int) -> Seq<usize> {
    let p = shuffle_of(identity_perm(m), seed_of(id, m as usize));
    if is_slot_perm(p, m) {
        p
    } else {
        identity_perm(m)
    }
}

/// Compute one worker's slot preference permutation. The result is a
/// permutation of `0 .. m` determined by the identity and `m` alone.
fn build_perm(id: &String, m: usize) -> (p: Vec<usize>)
    ensures
        p@ == perm_of(id@, m as int),
        is_slot_perm(p@, m as int),
{
    let h = fnv1a_hash(id.as_str());
    let seed = h ^ (m as u64);
    let idn = identity_vec(m);
    let p = shuffled(idn, seed);
    proof {
        lemma_multiset_of_identity_is_perm(p@, m as int);
    }
    p
}

/// Collapse adjacent equal identities, keeping the first of each run. On a
/// list sorted ascending by identity this removes every duplicate.
pub open spec fn dedup_adjacent(ids: Seq<Seq<char>>) -> Seq<Seq<char>>
    decreases ids.len(),
{
    if ids.len() <= 1 {
        ids
    } else {
        let rest = dedup_adjacent(ids.drop_last());
        if ids.last() == ids[ids.len() - 2] {
            rest
        } else {
            rest.push(ids.last())
        }
    }
}

/// Collapsing runs keeps the last element in place.
proof fn lemma_dedup_last(ids: Seq<Seq<char>>)
    requires
        ids.len() > 0,
    ensures
        dedup_adjacent(ids).len() > 0,
        dedup_adjacent(ids).last() == ids.last(),
    decreases ids.len(),
{
    if ids.len() > 1 {
        lemma_dedup_last(ids.drop_last());
    }
}

/// The index of the first identity equal to `id`, scanning from `k`.
pub open spec fn find_pos(ids: Seq<Seq<char>>, id: Seq<char>, k: int) -> Option<int>
    decreases ids.len() - k
        when 0 <= k <= ids.len()
{
    if k >= ids.len() {
        None
    } else if ids[k] == id {
        Some(k)
    } else {
        find_pos(ids, id, k + 1)
    }
}

/// The permutations of all clients, in client order.
pub open spec fn perms_of(ids: Seq<Seq<char>>, m: int) -> Seq<Seq<usize>> {
    Seq::new(ids.len(), |c: int| perm_of(ids[c], m))
}

/// The shards a client at position `pos` owns among the first `k` slots, in
/// slot order.
pub open spec fn owned_prefix(
    lookup: Seq<Option<usize>>,
    shardsv: Seq<Seq<char>>,
    pos: usize,
    k: int,
) -> Seq<Seq<char>>
    decreases k,
{
    if k <= 0 {
        Seq::empty()
    } else {
        let rest = owned_prefix(lookup, shardsv, pos, k - 1);
        if lookup[k - 1] == Some(pos) {
            rest.push(shardsv[k - 1])
        } else {
            rest
        }
    }
}

/// The owned set of the worker `client_id`, given the peer identities (in
/// registry order, expected sorted) and the shard identifiers: a function of
/// these inputs alone, so every peer that sees the same inputs computes the
/// same owned set for every worker.
pub open spec fn owned_shards_of(
    client_id: Seq<char>,
    clientsv: Seq<Seq<char>>,
    shardsv: Seq<Seq<char>>,
) -> Seq<Seq<char>> {
    let ids = dedup_adjacent(clientsv);
    let m = shardsv.len() as int;
    if ids.len() == 0 || m == 0 {
        Seq::empty()
    } else {
        match find_pos(ids, client_id, 0) {
            None => Seq::empty(),
            Some(p) => owned_prefix(
                maglev_lookup(perms_of(ids, m), m),
                shardsv,
                p as usize,
                m,
            ),
        }
    }
}

proof fn lemma_identity_is_slot_perm(m: int)
    requires
        0 <= m <= usize::MAX,
    ensures
        is_slot_perm(identity_perm(m), m),
{
    let idn = identity_perm(m);
    assert forall|s: usize| s < m implies idn.contains(s) by {
        assert(idn[s as int] == s);
    }
}

/// Every permutation the assignment uses is a slot permutation.
proof fn lemma_perm_of_is_slot_perm(id: Seq<char>, m: int)
    requires
        0 <= m <= usize::MAX,
    ensures
        is_slot_perm(perm_of(id, m), m),
{
    lemma_identity_is_slot_perm(m);
}

/// On a list without duplicate identities, collapsing adjacent runs changes
/// nothing.
proof fn lemma_dedup_distinct_identity(ids: Seq<Seq<char>>)
    requires
        forall|i: int, j: int| 0 <= i < j < ids.len() ==> ids[i] != ids[j],
    ensures
        dedup_adjacent(ids) == ids,
    decreases ids.len(),
{
    if ids.len() > 1 {
        lemma_dedup_distinct_identity(ids.drop_last());
        assert(ids.last() != ids[ids.len() - 2]);
        assert(ids.drop_last().push(ids.last()) =~= ids);
    }
}

/// Scanning from `k0` finds the match at `c` when nothing before `c` matches.
proof fn lemma_find_pos_first(ids: Seq<Seq<char>>, id: Seq<char>, k0: int, c: int)
    requires
        0 <= k0 <= c < ids.len(),
        ids[c] == id,
        forall|k: int| k0 <= k < c ==> ids[k] != id,
    ensures
        find_pos(ids, id, k0) == Some(c),
    decreases c - k0,
{
    if k0 < c {
        lemma_find_pos_first(ids, id, k0 + 1, c);
    }
}

/// The filling pass claims every slot: the finished table maps each slot to
/// some client index.
proof fn lemma_fill_rec_total(
    lookup: Seq<Option<usize>>,
    next: Seq<usize>,
    perms: Seq<Seq<usize>>,
    assigned: int,
    m: int,
)
    requires
        fill_inv(lookup, next, perms, assigned, m),
    ensures
        ({
            let r = fill_rec(lookup, next, perms, assigned, m);
            &&& r.len() == m
            &&& forall|i: int| 0 <= i < m ==> (#[trigger] r[i] matches Some(cc) && cc < perms.len())
        }),
    decreases m - assigned,
{
    if assigned >= m {
        assert forall|i: int|
            0 <= i < m implies (#[trigger] lookup[i] matches Some(cc) && cc < perms.len()) by {
            if lookup[i] is None {
                lemma_count_free_none(lookup, i);
            }
        }
    } else {
        lemma_fill_step(lookup, next, perms, assigned, m);
        let n = perms.len() as int;
        let c = assigned % n;
        let j = first_free(lookup, perms[c], next[c] as int);
        lemma_fill_rec_total(
            lookup.update(perms[c][j] as int, Some(c as usize)),
            next.update(c, (j + 1) as usize),
            perms,
            assigned + 1,
            m,
        );
    }
}

/// The finished table for a set of slot permutations maps every slot to a
/// client index below the client count.
proof fn lemma_maglev_total(perms: Seq<Seq<usize>>, m: int)
    requires
        0 < perms.len() <= usize::MAX,
        0 < m <= usize::MAX,
        forall|c: int| 0 <= c < perms.len() ==> is_slot_perm(#[trigger] perms[c], m),
    ensures
        ({
            let r = maglev_lookup(perms, m);
            &&& r.len() == m
            &&& forall|i: int| 0 <= i < m ==> (#[trigger] r[i] matches Some(cc) && cc < perms.len())
        }),
{
    let lookup0 = Seq::new(m as nat, |i: int| None::<usize>);
    let next0 = Seq::new(perms.len(), |c: int| 0usize);
    lemma_count_free_all_none(m);
    assert(fill_inv(lookup0, next0, perms, 0, m));
    lemma_fill_rec_total(lookup0, next0, perms, 0, m);
}

/// A shard is in the owned prefix exactly when its slot is claimed by the
/// given client position.
proof fn lemma_owned_prefix_mem(
    lookup: Seq<Option<usize>>,
    shardsv: Seq<Seq<char>>,
    pos: usize,
    k: int,
)
    requires
        0 <= k <= shardsv.len(),
    ensures
        forall|s: Seq<char>|
            #[trigger] owned_prefix(lookup, shardsv, pos, k).contains(s) <==> exists|i: int|
                0 <= i < k && shardsv[i] == s && lookup[i] == Some(pos),
    decreases k,
{
    if k > 0 {
        lemma_owned_prefix_mem(lookup, shardsv, pos, k - 1);
        let rest = owned_prefix(lookup, shardsv, pos, k - 1);
        let cur = owned_prefix(lookup, shardsv, pos, k);
        assert forall|s: Seq<char>| #[trigger] cur.contains(s) implies exists|i: int|
            0 <= i < k && shardsv[i] == s && lookup[i] == Some(pos) by {
            if lookup[k - 1] == Some(pos) {
                let j = choose|j: int| 0 <= j < cur.len() && cur[j] == s;
                if j < rest.len() {
                    assert(rest.contains(s));
                } else {
                    assert(shardsv[k - 1] == s && lookup[k - 1] == Some(pos));
                }
            } else {
                assert(rest.contains(s));
            }
        }
        assert forall|s: Seq<char>|
            (exists|i: int| 0 <= i < k && shardsv[i] == s && lookup[i] == Some(pos)) implies cur.contains(
            s,
        ) by {
            let i = choose|i: int| 0 <= i < k && shardsv[i] == s && lookup[i] == Some(pos);
            if i < k - 1 {
                assert(rest.contains(s));
                let j = choose|j: int| 0 <= j < rest.len() && rest[j] == s;
                if lookup[k - 1] == Some(pos) {
                    assert(cur[j] == s);
                } else {
                    assert(cur[j] == s);
                }
            } else {
                assert(lookup[k - 1] == Some(pos));
                assert(cur.last() == s);
            }
        }
    }
}

/// The index of the peer that owns shard slot `i` under the assignment.
pub open spec fn owner_of(clientsv: Seq<Seq<char>>, shardsv: Seq<Seq<char>>, i: int) -> int {
    let ids = dedup_adjacent(clientsv);
    let m = shardsv.len() as int;
    maglev_lookup(perms_of(ids, m), m)[i]->Some_0 as int
}

/// For one fixed peer list without duplicate identities and one fixed shard
/// list without duplicate identifiers, the owned sets the peers compute form
/// a partition of the shard set: every owned shard comes from the shard list,
/// no shard is owned by two distinct peers, and every shard is owned by the
/// peer the lookup table names for its slot.
pub proof fn lemma_owned_shards_partition(clientsv: Seq<Seq<char>>, shardsv: Seq<Seq<char>>)
    requires
        0 < clientsv.len() <= usize::MAX,
        shardsv.len() <= usize::MAX,
        forall|i: int, j: int| 0 <= i < j < clientsv.len() ==> clientsv[i] != clientsv[j],
        forall|i: int, j: int| 0 <= i < j < shardsv.len() ==> shardsv[i] != shardsv[j],
    ensures
        forall|c: int, s: Seq<char>|
            0 <= c < clientsv.len() && #[trigger] owned_shards_of(
                clientsv[c],
                clientsv,
                shardsv,
            ).contains(s) ==> shardsv.contains(s),
        forall|a: int, b: int, s: Seq<char>|
            0 <= a < b < clientsv.len() ==> !(#[trigger] owned_shards_of(
                clientsv[a],
                clientsv,
                shardsv,
            ).contains(s) && #[trigger] owned_shards_of(clientsv[b], clientsv, shardsv).contains(
                s,
            )),
        forall|i: int|
            #![trigger shardsv[i]]
            0 <= i < shardsv.len() ==> {
                let c = owner_of(clientsv, shardsv, i);
                &&& 0 <= c < clientsv.len()
                &&& owned_shards_of(clientsv[c], clientsv, shardsv).contains(shardsv[i])
            },
{
    lemma_dedup_distinct_identity(clientsv);
    let n = clientsv.len() as int;
    let m = shardsv.len() as int;
    if m == 0 {
        assert forall|c: int, s: Seq<char>|
            0 <= c < n && #[trigger] owned_shards_of(clientsv[c], clientsv, shardsv).contains(
                s,
            ) implies shardsv.contains(s) by {
            assert(!Seq::<Seq<char>>::empty().contains(s));
        }
        assert forall|a: int, b: int, s: Seq<char>| 0 <= a < b < n implies !(
        #[trigger] owned_shards_of(clientsv[a], clientsv, shardsv).contains(s)
            && #[trigger] owned_shards_of(clientsv[b], clientsv, shardsv).contains(s)) by {
            assert(!Seq::<Seq<char>>::empty().contains(s));
        }
    } else {
        let perms = perms_of(clientsv, m);
        assert forall|c: int| 0 <= c < n implies is_slot_perm(#[trigger] perms[c], m) by {
            lemma_perm_of_is_slot_perm(clientsv[c], m);
        }
        let lookup = maglev_lookup(perms, m);
        lemma_maglev_total(perms, m);
        assert forall|c: int| 0 <= c < n implies #[trigger] find_pos(clientsv, clientsv[c], 0)
            == Some(c) by {
            lemma_find_pos_first(clientsv, clientsv[c], 0, c);
        }
        assert forall|c: int|
            0 <= c < n implies #[trigger] owned_shards_of(clientsv[c], clientsv, shardsv)
            == owned_prefix(lookup, shardsv, c as usize, m) by {}
        assert forall|c: int, s: Seq<char>|
            0 <= c < n && #[trigger] owned_shards_of(clientsv[c], clientsv, shardsv).contains(
                s,
            ) implies shardsv.contains(s) by {
            lemma_owned_prefix_mem(lookup, shardsv, c as usize, m);
            let i = choose|i: int| 0 <= i < m && shardsv[i] == s && lookup[i] == Some(c as usize);
            assert(shardsv[i] == s);
        }
        assert forall|a: int, b: int, s: Seq<char>| 0 <= a < b < n implies !(
        #[trigger] owned_shards_of(clientsv[a], clientsv, shardsv).contains(s)
            && #[trigger] owned_shards_of(clientsv[b], clientsv, shardsv).contains(s)) by {
            if owned_shards_of(clientsv[a], clientsv, shardsv).contains(s) && owned_shards_of(
                clientsv[b],
                clientsv,
                shardsv,
            ).contains(s) {
                lemma_owned_prefix_mem(lookup, shardsv, a as usize, m);
                lemma_owned_prefix_mem(lookup, shardsv, b as usize, m);
                let i = choose|i: int|
                    0 <= i < m && shardsv[i] == s && lookup[i] == Some(a as usize);
                let j = choose|j: int|
                    0 <= j < m && shardsv[j] == s && lookup[j] == Some(b as usize);
                assert(i == j);
            }
        }
        assert forall|i: int| #![trigger shardsv[i]] 0 <= i < shardsv.len() implies {
            let c = owner_of(clientsv, shardsv, i);
            &&& 0 <= c < clientsv.len()
            &&& owned_shards_of(clientsv[c], clientsv, shardsv).contains(shardsv[i])
        } by {
            let cc = lookup[i]->Some_0;
            assert(lookup[i] == Some(cc) && cc < n);
            assert(owner_of(clientsv, shardsv, i) == cc as int);
            lemma_owned_prefix_mem(lookup, shardsv, cc, m);
            assert(owned_prefix(lookup, shardsv, cc, m).contains(shardsv[i]));
            assert((cc as int) < clientsv.len());
            assert(owned_shards_of(clientsv[cc as int], clientsv, shardsv).contains(shardsv[i]));
        }
    }
}

/// How many slots of the table are claimed by client index `c`.
pub open spec fn count_entries(lookup: Seq<Option<usize>>, c: usize) -> int
    decreases lookup.len(),
{
    if lookup.len() == 0 {
        0
    } else {
        count_entries(lookup.drop_last(), c) + if lookup.last() == Some(c) {
            1int
        } else {
            0int
        }
    }
}

proof fn lemma_count_entries_all_none(k: int, c: usize)
    requires
        k >= 0,
    ensures
        count_entries(Seq::new(k as nat, |i: int| None::<usize>), c) == 0,
    decreases k,
{
    if k > 0 {
        lemma_count_entries_all_none(k - 1, c);
        assert(Seq::new(k as nat, |i: int| None::<usize>).drop_last() =~= Seq::new(
            (k - 1) as nat,
            |i: int| None::<usize>,
        ));
    }
}

proof fn lemma_count_entries_update(lookup: Seq<Option<usize>>, i: int, c0: usize, c: usize)
    requires
        0 <= i < lookup.len(),
        lookup[i] is None,
    ensures
        count_entries(lookup.update(i, Some(c0)), c) == count_entries(lookup, c) + if c0 == c {
            1int
        } else {
            0int
        },
    decreases lookup.len(),
{
    let upd = lookup.update(i, Some(c0));
    if i == lookup.len() - 1 {
        assert(upd.drop_last() =~= lookup.drop_last());
    } else {
        lemma_count_entries_update(lookup.drop_last(), i, c0, c);
        assert(upd.drop_last() =~= lookup.drop_last().update(i, Some(c0)));
        assert(upd.last() == lookup.last());
    }
}

/// How many of the first `a` claims fall to client `c` when claim number `k`
/// goes to client `k % n`.
pub open spec fn claims_by(a: int, n: int, c: int) -> int
    decreases a,
{
    if a <= 0 {
        0
    } else {
        claims_by(a - 1, n, c) + if (a - 1) % n == c {
            1int
        } else {
            0int
        }
    }
}

proof fn lemma_mod_step(a: int, n: int)
    requires
        a >= 0,
        n > 0,
    ensures
        (a + 1) % n == if a % n == n - 1 {
            0int
        } else {
            a % n + 1
        },
{
    vstd::arithmetic::div_mod::lemma_add_mod_noop(a, 1, n);
    let r = a % n;
    if n == 1 {
        vstd::arithmetic::div_mod::lemma_small_mod(0, 1);
    } else {
        vstd::arithmetic::div_mod::lemma_small_mod(1, n as nat);
        if r == n - 1 {
            vstd::arithmetic::div_mod::lemma_mod_self_0(n);
        } else {
            vstd::arithmetic::div_mod::lemma_small_mod((r + 1) as nat, n as nat);
        }
    }
}

/// The phase pattern of round-robin claiming: after `a` claims, the clients
/// below `a % n` are exactly one claim ahead of the clients at or above it.
proof fn lemma_claims_phase(a: int, n: int, c1: int, c2: int)
    requires
        a >= 0,
        0 <= c1 < c2 < n,
    ensures
        claims_by(a, n, c1) - claims_by(a, n, c2) == (if c1 < a % n {
            1int
        } else {
            0int
        }) - (if c2 < a % n {
            1int
        } else {
            0int
        }),
    decreases a,
{
    if a == 0 {
        vstd::arithmetic::div_mod::lemma_small_mod(0, n as nat);
    } else {
        lemma_claims_phase(a - 1, n, c1, c2);
        lemma_mod_step(a - 1, n);
    }
}

/// Through the whole filling pass, each client gains exactly its round-robin
/// share of claims.
proof fn lemma_fill_rec_count(
    lookup: Seq<Option<usize>>,
    next: Seq<usize>,
    perms: Seq<Seq<usize>>,
    assigned: int,
    m: int,
    c: usize,
)
    requires
        fill_inv(lookup, next, perms, assigned, m),
        (c as int) < perms.len(),
    ensures
        count_entries(fill_rec(lookup, next, perms, assigned, m), c) - count_entries(lookup, c)
            == claims_by(m, perms.len() as int, c as int) - claims_by(
            assigned,
            perms.len() as int,
            c as int,
        ),
    decreases m - assigned,
{
    if assigned < m {
        lemma_fill_step(lookup, next, perms, assigned, m);
        let n = perms.len() as int;
        let cc = assigned % n;
        let j = first_free(lookup, perms[cc], next[cc] as int);
        let slot = perms[cc][j] as int;
        lemma_count_entries_update(lookup, slot, cc as usize, c);
        lemma_fill_rec_count(
            lookup.update(slot, Some(cc as usize)),
            next.update(cc, (j + 1) as usize),
            perms,
            assigned + 1,
            m,
            c,
        );
        assert((cc as usize == c) <==> (cc == c as int));
    }
}

/// Balance: the finished table never hands one peer two slots more than
/// another; any two peers' slot counts differ by at most one.
pub proof fn lemma_maglev_balanced(perms: Seq<Seq<usize>>, m: int, c1: usize, c2: usize)
    requires
        0 < perms.len() <= usize::MAX,
        0 < m <= usize::MAX,
        forall|c: int| 0 <= c < perms.len() ==> is_slot_perm(#[trigger] perms[c], m),
        (c1 as int) < perms.len(),
        (c2 as int) < perms.len(),
    ensures
        count_entries(maglev_lookup(perms, m), c1) <= count_entries(maglev_lookup(perms, m), c2)
            + 1,
{
    let n = perms.len() as int;
    let lookup0 = Seq::new(m as nat, |i: int| None::<usize>);
    let next0 = Seq::new(perms.len(), |c: int| 0usize);
    lemma_count_free_all_none(m);
    assert(fill_inv(lookup0, next0, perms, 0, m));
    lemma_count_entries_all_none(m, c1);
    lemma_count_entries_all_none(m, c2);
    lemma_fill_rec_count(lookup0, next0, perms, 0, m, c1);
    lemma_fill_rec_count(lookup0, next0, perms, 0, m, c2);
    if (c1 as int) < (c2 as int) {
        lemma_claims_phase(m, n, c1 as int, c2 as int);
    } else if (c2 as int) < (c1 as int) {
        lemma_claims_phase(m, n, c2 as int, c1 as int);
    }
}

proof fn lemma_owned_prefix_len(
    lookup: Seq<Option<usize>>,
    shardsv: Seq<Seq<char>>,
    pos: usize,
    k: int,
)
    requires
        0 <= k <= lookup.len(),
    ensures
        owned_prefix(lookup, shardsv, pos, k).len() == count_entries(lookup.take(k), pos),
    decreases k,
{
    if k > 0 {
        lemma_owned_prefix_len(lookup, shardsv, pos, k - 1);
        assert(lookup.take(k).drop_last() =~= lookup.take(k - 1));
        assert(lookup.take(k).last() == lookup[k - 1]);
    }
}

/// Balance, at the level of the owned sets: for one fixed peer list without
/// duplicate identities and one fixed shard list, no peer owns two shards
/// more than any other peer.
pub proof fn lemma_owned_shards_balanced(
    clientsv: Seq<Seq<char>>,
    shardsv: Seq<Seq<char>>,
    a: int,
    b: int,
)
    requires
        0 < clientsv.len() <= usize::MAX,
        shardsv.len() <= usize::MAX,
        forall|i: int, j: int| 0 <= i < j < clientsv.len() ==> clientsv[i] != clientsv[j],
        0 <= a < clientsv.len(),
        0 <= b < clientsv.len(),
    ensures
        owned_shards_of(clientsv[a], clientsv, shardsv).len() <= owned_shards_of(
            clientsv[b],
            clientsv,
            shardsv,
        ).len() + 1,
{
    lemma_dedup_distinct_identity(clientsv);
    let n = clientsv.len() as int;
    let m = shardsv.len() as int;
    if m > 0 {
        let perms = perms_of(clientsv, m);
        assert forall|c: int| 0 <= c < n implies is_slot_perm(#[trigger] perms[c], m) by {
            lemma_perm_of_is_slot_perm(clientsv[c], m);
        }
        let lookup = maglev_lookup(perms, m);
        lemma_maglev_total(perms, m);
        lemma_find_pos_first(clientsv, clientsv[a], 0, a);
        lemma_find_pos_first(clientsv, clientsv[b], 0, b);
        lemma_owned_prefix_len(lookup, shardsv, a as usize, m);
        lemma_owned_prefix_len(lookup, shardsv, b as usize, m);
        assert(lookup.take(m) =~= lookup);
        lemma_maglev_balanced(perms, m, a as usize, b as usize);
    }
}

/// Determinism: the owned set of any worker identity is a function of the
/// peer identities and the shard identifiers alone, so two peers whose
/// sharders hold the same identity and see the same inputs compute the same
/// owned set, and every peer projects the same assignment for every other
/// peer.
pub proof fn lemma_owned_shards_deterministic(
    id_a: Seq<char>,
    id_b: Seq<char>,
    clientsv: Seq<Seq<char>>,
    shardsv: Seq<Seq<char>>,
)
    requires
        id_a == id_b,
    ensures
        owned_shards_of(id_a, clientsv, shardsv) == owned_shards_of(id_b, clientsv, shardsv),
{
}

/// Sharder configuration: the identity under which this worker claims slots.
pub struct Config {
    pub client_id: String,
}

/// Deterministically maps the live peer list and the shard list to the subset
/// of shards this worker owns.
pub struct Sharder {
    pub config: Config,
}

/// Clone the identities of the records, collapsing adjacent duplicates.
#[verifier::loop_isolation(false)]
fn dedup_ids(records: &Vec<crate::clients::ClientRecord>) -> (ids: Vec<String>)
    ensures
        ids.deep_view() == dedup_adjacent(crate::clients::id_views(records@)),
{
    let mut ids: Vec<String> = Vec::new();
    let mut i: usize = 0;
    while i < records.len()
        invariant
            i <= records@.len(),
            ids.deep_view() == dedup_adjacent(
                crate::clients::id_views(records@.take(i as int)),
            ),
        decreases records@.len() - i,
    {
        let ghost prefix = crate::clients::id_views(records@.take(i as int));
        proof {
            assert(crate::clients::id_views(records@.take(i + 1)).drop_last() =~= prefix);
            if i > 0 {
                lemma_dedup_last(prefix);
            }
        }
        let keep: bool = if ids.len() == 0 {
            true
        } else {
            let last = &ids[ids.len() - 1];
            !(*last == records[i].id)
        };
        if keep {
            ids.push(records[i].id.clone());
            proof {
                assert(ids.deep_view() =~= dedup_adjacent(prefix).push(records@[i as int].id@));
            }
        }
        proof {
            let cur = crate::clients::id_views(records@.take(i + 1));
            assert(cur.last() == records@[i as int].id@);
            if i > 0 {
                assert(cur[cur.len() - 2] == prefix.last());
            }
        }
        i = i + 1;
    }
    proof {
        assert(records@.take(records@.len() as int) =~= records@);
    }
    ids
}

impl Sharder {
    pub fn new(c: Config) -> (r: Result<Self, HydraError>)
        ensures
            r matches Ok(s) && s.config == c,
    {
        Ok(Sharder { config: c })
    }

    /// The Maglev-style assignment: build each peer's deterministic slot
    /// preference permutation, fill the lookup table by round-robin claim,
    /// and project out the slots owned by this worker. The result is pinned
    /// by `owned_shards_of`, a function of the identities and the shard list
    /// alone, so all peers with the same view of the fleet agree on every
    /// worker's owned set.
    #[verifier::loop_isolation(false)]
    pub fn calculate_owned_shards(&mut self, clients: ClientRecords, shards: Vec<String>) -> (owned:
        Vec<String>)
        ensures
            *final(self) == *old(self),
            owned.deep_view() == owned_shards_of(
                old(self).config.client_id@,
                crate::clients::id_views(clients.0@),
                shards.deep_view(),
            ),
    {
        let ghost shardsv = shards.deep_view();
        proof {
            assert forall|i: int| 0 <= i < shardsv.len() implies #[trigger] shardsv[i]
                == shards@[i]@ by {}
        }
        let m = shards.len();
        let ids = dedup_ids(&clients.0);
        let ghost idsv = ids.deep_view();
        proof {
            assert forall|i: int| 0 <= i < idsv.len() implies #[trigger] idsv[i] == ids@[i]@ by {}
        }
        let n = ids.len();
        if n == 0 || m == 0 {
            let empty_owned: Vec<String> = Vec::new();
            proof {
                assert(empty_owned.deep_view() =~= Seq::<Seq<char>>::empty());
            }
            return empty_owned;
        }
        let mut perms: Vec<Vec<usize>> = Vec::new();
        let mut c: usize = 0;
        while c < n
            invariant
                c <= n,
                perms@.len() == c,
                forall|cc: int|
                    0 <= cc < c ==> #[trigger] perms@[cc]@ == perm_of(idsv[cc], m as int),
                forall|cc: int| 0 <= cc < c ==> is_slot_perm(#[trigger] perms@[cc]@, m as int),
            decreases n - c,
        {
            let p = build_perm(&ids[c], m);
            perms.push(p);
            c = c + 1;
        }
        proof {
            assert(perms.deep_view() =~~= perms_of(idsv, m as int));
        }
        let lookup = build_lookup(&perms, m);
        let mut pos: usize = 0;
        let mut found: bool = false;
        while pos < n && !found
            invariant
                pos <= n,
                !found ==> find_pos(idsv, self.config.client_id@, 0) == find_pos(
                    idsv,
                    self.config.client_id@,
                    pos as int,
                ),
                found ==> pos < n && find_pos(idsv, self.config.client_id@, 0) == Some(
                    pos as int,
                ),
            decreases n - pos, (if found { 0int } else { 1int }),
        {
            if ids[pos] == self.config.client_id {
                found = true;
            } else {
                pos = pos + 1;
            }
        }
        if !found {
            let empty_owned: Vec<String> = Vec::new();
            proof {
                assert(empty_owned.deep_view() =~= Seq::<Seq<char>>::empty());
            }
            return empty_owned;
        }
        let mut owned: Vec<String> = Vec::new();
        let mut i: usize = 0;
        while i < m
            invariant
                i <= m,
                owned.deep_view() == owned_prefix(lookup@, shardsv, pos, i as int),
            decreases m - i,
        {
            let take = match lookup[i] {
                Some(cc) => cc == pos,
                None => false,
            };
            if take {
                owned.push(shards[i].clone());
                proof {
                    assert(owned.deep_view() =~= owned_prefix(lookup@, shardsv, pos, i as int).push(
                        shardsv[i as int],
                    ));
                }
            }
            i = i + 1;
        }
        owned
    }
}

} // verus!
