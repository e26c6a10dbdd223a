//! Kademlia-based DHT routing with k-buckets.
//!
//! The distance between two identifiers is `8 * i + b`, where `i` is the
//! first byte in which they differ and `b` the position of the highest set
//! bit of the xor of those bytes, except that identifiers differing only in
//! the lowest bit of their first byte are at distance 1: only identical
//! identifiers are at distance 0. A node lives in bucket
//! `min(distance, 159)`.

use vstd::prelude::*;
use crate::clock::{unix_time_nanos, unix_time_secs};
use crate::hashing::{blake3_digest, blake3_hash};
use crate::types::{
    entries_view, DhtNode, DhtNodeView, Hash256, KBucket, KBucketView, NodeId, RoutingEntry,
    RoutingEntryView,
};

verus! {

/// Number of buckets in a routing table.
pub const NUM_BUCKETS: usize = 160;

/// A table of 160 empty buckets of size `k`, stamped `now`.
pub open spec fn empty_table(k: usize, now: u64) -> Seq<KBucketView> {
    Seq::new(NUM_BUCKETS as nat, |b: int| KBucketView { k, nodes: Seq::empty(), last_updated: now })
}

/// Position of the highest set bit of `x`, 0 for `x <= 1`.
pub open spec fn msb(x: nat) -> nat
    decreases x,
{
    if x <= 1 {
        0
    } else {
        1 + msb(x / 2)
    }
}

/// Distance of `a` and `b` looking at bytes from `i` on.
pub open spec fn distance_from(a: Seq<u8>, b: Seq<u8>, i: nat) -> nat
    decreases 32 - i,
{
    if i >= 32 {
        0
    } else if a[i as int] ^ b[i as int] != 0 {
        if 8 * i + msb((a[i as int] ^ b[i as int]) as nat) == 0 {
            1
        } else {
            8 * i + msb((a[i as int] ^ b[i as int]) as nat)
        }
    } else {
        distance_from(a, b, i + 1)
    }
}

/// XOR distance of two 32-byte identifiers.
pub open spec fn xor_distance(a: Seq<u8>, b: Seq<u8>) -> nat {
    distance_from(a, b, 0)
}

/// Bucket of a distance: `min(distance, 159)`.
pub open spec fn bucket_index(d: nat) -> nat {
    if d < 159 { d } else { 159 }
}

proof fn lemma_xor_u8(x: u8, y: u8)
    ensures
        x ^ x == 0,
        x ^ y == y ^ x,
{
    assert(x ^ x == 0 && x ^ y == y ^ x) by (bit_vector);
}

/// `msb(x) < 8` for a byte.
proof fn lemma_msb_bound(x: nat)
    requires
        x < 256,
    ensures
        msb(x) < 8,
{
    reveal_with_fuel(msb, 9);
}

/// Distances are below 256.
pub proof fn lemma_distance_bound(a: Seq<u8>, b: Seq<u8>, i: nat)
    ensures
        distance_from(a, b, i) < 256,
        i < 32 ==> distance_from(a, b, i) < 8 * 32,
    decreases 32 - i,
{
    if i < 32 {
        if a[i as int] ^ b[i as int] != 0 {
            lemma_msb_bound((a[i as int] ^ b[i as int]) as nat);
        } else {
            lemma_distance_bound(a, b, i + 1);
        }
    }
}

/// A node is at distance 0 from itself.
pub proof fn lemma_distance_self(a: Seq<u8>, i: nat)
    ensures
        distance_from(a, a, i) == 0,
    decreases 32 - i,
{
    if i < 32 {
        lemma_xor_u8(a[i as int], a[i as int]);
        lemma_distance_self(a, i + 1);
    }
}

/// The distance is symmetric.
pub proof fn lemma_distance_symmetric(a: Seq<u8>, b: Seq<u8>, i: nat)
    ensures
        distance_from(a, b, i) == distance_from(b, a, i),
    decreases 32 - i,
{
    if i < 32 {
        lemma_xor_u8(a[i as int], b[i as int]);
        lemma_distance_symmetric(a, b, i + 1);
    }
}

/// Keeping the responsive entries keeps a subsequence: no entry is new and
/// identifiers stay distinct.
/// Every entry that failed at most `max_failed` pings is kept.
proof fn lemma_responsive_keeps(s: Seq<RoutingEntryView>, max_failed: u32)
    ensures
        forall|i: int| 0 <= i < s.len() && (#[trigger] s[i]).failed_attempts <= max_failed
            ==> responsive_entries(s, max_failed).contains(s[i]),
    decreases s.len(),
{
    if s.len() > 0 {
        let s0 = s.drop_last();
        lemma_responsive_keeps(s0, max_failed);
        let r0 = responsive_entries(s0, max_failed);
        let r = responsive_entries(s, max_failed);
        assert forall|i: int| 0 <= i < s.len() && (#[trigger] s[i]).failed_attempts <= max_failed
            implies r.contains(s[i]) by {
            if i < s0.len() {
                assert(s0[i] == s[i]);
                assert(r0.contains(s0[i]));
                let j = choose|j: int| 0 <= j < r0.len() && r0[j] == s0[i];
                assert(r[j] == r0[j]);
            } else {
                assert(r[r.len() - 1] == s[i]);
            }
        }
    }
}

proof fn lemma_responsive(s: Seq<RoutingEntryView>, max_failed: u32)
    ensures
        responsive_entries(s, max_failed).len() <= s.len(),
        forall|i: int| 0 <= i < responsive_entries(s, max_failed).len()
            ==> s.contains(#[trigger] responsive_entries(s, max_failed)[i]),
        ids_unique(s) ==> ids_unique(responsive_entries(s, max_failed)),
        forall|i: int| 0 <= i < responsive_entries(s, max_failed).len()
            ==> (#[trigger] responsive_entries(s, max_failed)[i]).failed_attempts <= max_failed,
    decreases s.len(),
{
    if s.len() > 0 {
        let s0 = s.drop_last();
        lemma_responsive(s0, max_failed);
        let r0 = responsive_entries(s0, max_failed);
        let r = responsive_entries(s, max_failed);
        assert forall|i: int| 0 <= i < r.len() implies (#[trigger] r[i]).failed_attempts <= max_failed by {
            if i < r0.len() {
                assert(r[i] == r0[i]);
            }
        }
        assert forall|i: int| 0 <= i < r.len() implies s.contains(#[trigger] r[i]) by {
            if i < r0.len() {
                assert(s0.contains(r0[i]));
                let j = choose|j: int| 0 <= j < s0.len() && s0[j] == r0[i];
                assert(s[j] == r[i]);
            } else {
                assert(r[i] == s[s.len() - 1]);
            }
        }
        if ids_unique(s) {
            assert(ids_unique(s0)) by {
                assert forall|i: int, j: int| 0 <= i < s0.len() && 0 <= j < s0.len() && i != j
                    implies #[trigger] s0[i].node.id != #[trigger] s0[j].node.id by {
                    assert(s0[i] == s[i] && s0[j] == s[j]);
                }
            }
            assert forall|i: int, j: int| 0 <= i < r.len() && 0 <= j < r.len() && i != j
                implies #[trigger] r[i].node.id != #[trigger] r[j].node.id by {
                if i < r0.len() && j < r0.len() {
                } else {
                    let (x, y) = if i < r0.len() { (i, j) } else { (j, i) };
                    // y is the last position, holding the last entry of s
                    assert(r[y] == s[s.len() - 1]);
                    assert(s0.contains(r0[x]));
                    let m = choose|m: int| 0 <= m < s0.len() && s0[m] == r0[x];
                    assert(s[m] == r[x]);
                    assert(s[m].node.id != s[s.len() - 1].node.id);
                }
            }
        }
    }
}

/// `total_entries` over a prefix grows by the size of the next bucket.
proof fn lemma_counts_take(t: Seq<KBucketView>, i: int, k: nat, max_failed: u32, now: u64, interval: u64)
    requires
        0 <= i < t.len(),
    ensures
        total_entries(t.take(i + 1)) == total_entries(t.take(i)) + t[i].nodes.len(),
        non_empty_count(t.take(i + 1)) == non_empty_count(t.take(i)) + (if t[i].nodes.len() > 0 { 1nat } else { 0nat }),
        full_count(t.take(i + 1), k) == full_count(t.take(i), k) + (if t[i].nodes.len() >= k { 1nat } else { 0nat }),
        unresponsive_count(t.take(i + 1), max_failed) == unresponsive_count(t.take(i), max_failed)
            + (t[i].nodes.len() - responsive_entries(t[i].nodes, max_failed).len()) as nat,
        stale_buckets(t.take(i + 1), now, interval) == (if now > t[i].last_updated && now - t[i].last_updated > interval {
            stale_buckets(t.take(i), now, interval).push(i as usize)
        } else {
            stale_buckets(t.take(i), now, interval)
        }),
{
    assert(t.take(i + 1).drop_last() =~= t.take(i));
}

/// The table after dropping, in every bucket, the entries that failed more
/// than `max_failed` times.
pub open spec fn maintained(t: Seq<KBucketView>, max_failed: u32) -> Seq<KBucketView> {
    t.map_values(|bv: KBucketView| KBucketView {
        k: bv.k,
        nodes: responsive_entries(bv.nodes, max_failed),
        last_updated: bv.last_updated,
    })
}

/// Fewer entries are unresponsive than there are entries.
proof fn lemma_unresponsive_bound(t: Seq<KBucketView>, max_failed: u32)
    ensures
        unresponsive_count(t, max_failed) <= total_entries(t),
    decreases t.len(),
{
    if t.len() > 0 {
        lemma_unresponsive_bound(t.drop_last(), max_failed);
        lemma_responsive(t.last().nodes, max_failed);
    }
}

/// The responsive entries of a bucket.
fn responsive_of(nodes: &Vec<RoutingEntry>, max_failed: u32) -> (r: Vec<RoutingEntry>)
    ensures
        entries_view(r@) == responsive_entries(entries_view(nodes@), max_failed),
{
    let ghost s = entries_view(nodes@);
    let mut r: Vec<RoutingEntry> = Vec::new();
    let mut i: usize = 0;
    assert(s.take(0) =~= Seq::<RoutingEntryView>::empty());
    while i < nodes.len()
        invariant
            s == entries_view(nodes@),
            i <= nodes@.len(),
            entries_view(r@) == responsive_entries(s.take(i as int), max_failed),
        decreases nodes@.len() - i,
    {
        assert(s.take(i + 1).drop_last() =~= s.take(i as int));
        if nodes[i].failed_attempts <= max_failed {
            let ghost before = r@;
            r.push(nodes[i].duplicate());
            assert(entries_view(r@) =~= entries_view(before).push(s[i as int]));
        }
        i += 1;
    }
    assert(s.take(nodes@.len() as int) =~= s);
    r
}

/// Counts over a prefix are at most the counts over the whole table.
proof fn lemma_total_prefix(t: Seq<KBucketView>, n: int)
    requires
        0 <= n <= t.len(),
    ensures
        total_entries(t.take(n)) <= total_entries(t),
    decreases t.len() - n,
{
    if n < t.len() {
        lemma_total_prefix(t, n + 1);
        lemma_counts_take(t, n, 0, 0, 0, 0);
    } else {
        assert(t.take(n) =~= t);
    }
}

/// Counts over a prefix are at most the counts over the whole table.
proof fn lemma_unresponsive_prefix(t: Seq<KBucketView>, max_failed: u32, n: int)
    requires
        0 <= n <= t.len(),
    ensures
        unresponsive_count(t.take(n), max_failed) <= unresponsive_count(t, max_failed),
    decreases t.len() - n,
{
    if n < t.len() {
        lemma_unresponsive_prefix(t, max_failed, n + 1);
        lemma_counts_take(t, n, 0, max_failed, 0, 0);
    } else {
        assert(t.take(n) =~= t);
    }
}

/// The node information of routing entries.
pub open spec fn node_views(s: Seq<RoutingEntryView>) -> Seq<DhtNodeView> {
    s.map_values(|e: RoutingEntryView| e.node)
}

/// The node information behind references.
pub open spec fn ref_views(v: Seq<&DhtNode>) -> Seq<DhtNodeView> {
    v.map_values(|n: &DhtNode| n@)
}

/// The nodes of `c` at distance `d` from `target`, in their order in `c`.
pub open spec fn at_distance(c: Seq<DhtNodeView>, target: Seq<u8>, d: nat) -> Seq<DhtNodeView>
    decreases c.len(),
{
    if c.len() == 0 {
        c
    } else {
        let r = at_distance(c.drop_last(), target, d);
        if xor_distance(target, c.last().id) == d { r.push(c.last()) } else { r }
    }
}

/// The nodes of `c` at distance below `d` from `target`, nearer first and
/// in their order in `c` among equally near ones.
pub open spec fn nearer_than(c: Seq<DhtNodeView>, target: Seq<u8>, d: nat) -> Seq<DhtNodeView>
    decreases d,
{
    if d == 0 {
        Seq::empty()
    } else {
        nearer_than(c, target, (d - 1) as nat) + at_distance(c, target, (d - 1) as nat)
    }
}

/// `c` sorted by distance to `target`, keeping the order of equally near nodes.
pub open spec fn sorted_by_distance(c: Seq<DhtNodeView>, target: Seq<u8>) -> Seq<DhtNodeView> {
    nearer_than(c, target, 256)
}

/// The nodes of the table, bucket by bucket, in the order of each bucket.
pub open spec fn all_nodes(t: Seq<KBucketView>) -> Seq<DhtNodeView>
    decreases t.len(),
{
    if t.len() == 0 {
        Seq::empty()
    } else {
        all_nodes(t.drop_last()) + node_views(t.last().nodes)
    }
}

/// The nodes that `find_closest_nodes(target, count)` returns on table `t`
/// with bucket size `k`: all nodes of the table sorted by distance to
/// `target` (equally near ones in table order), the first `min(count, k)`.
pub open spec fn closest_nodes(t: Seq<KBucketView>, k: nat, target: Seq<u8>, count: nat) -> Seq<DhtNodeView> {
    let req: nat = if count < k { count } else { k };
    let sorted = sorted_by_distance(all_nodes(t), target);
    sorted.take(if req < sorted.len() { req as int } else { sorted.len() as int })
}

/// Every node of `c` at distance `d` is among `at_distance(c, target, d)`.
proof fn lemma_at_distance_complete(c: Seq<DhtNodeView>, target: Seq<u8>, d: nat)
    ensures
        forall|j: int| 0 <= j < c.len() && xor_distance(target, c[j].id) == d
            ==> at_distance(c, target, d).contains(#[trigger] c[j]),
    decreases c.len(),
{
    if c.len() > 0 {
        let c0 = c.drop_last();
        lemma_at_distance_complete(c0, target, d);
        let r0 = at_distance(c0, target, d);
        let r = at_distance(c, target, d);
        assert forall|j: int| 0 <= j < c.len() && xor_distance(target, c[j].id) == d
            implies r.contains(#[trigger] c[j]) by {
            if j < c.len() - 1 {
                assert(c0[j] == c[j]);
                assert(r0.contains(c0[j]));
                let m = choose|m: int| 0 <= m < r0.len() && r0[m] == c0[j];
                assert(r[m] == r0[m]);
            } else {
                assert(r[r.len() - 1] == c[j]);
            }
        }
    }
}

/// Every node of `c` below distance `d` is among `nearer_than(c, target, d)`.
proof fn lemma_nearer_complete(c: Seq<DhtNodeView>, target: Seq<u8>, d: nat)
    ensures
        forall|j: int| 0 <= j < c.len() && xor_distance(target, c[j].id) < d
            ==> nearer_than(c, target, d).contains(#[trigger] c[j]),
    decreases d,
{
    if d > 0 {
        let d0 = (d - 1) as nat;
        lemma_nearer_complete(c, target, d0);
        lemma_at_distance_complete(c, target, d0);
        let a = nearer_than(c, target, d0);
        let b = at_distance(c, target, d0);
        let n = nearer_than(c, target, d);
        assert(n =~= a + b);
        assert forall|j: int| 0 <= j < c.len() && xor_distance(target, c[j].id) < d
            implies n.contains(#[trigger] c[j]) by {
            if xor_distance(target, c[j].id) < d0 {
                assert(a.contains(c[j]));
                let m = choose|m: int| 0 <= m < a.len() && a[m] == c[j];
                assert(n[m] == a[m]);
            } else {
                assert(b.contains(c[j]));
                let m = choose|m: int| 0 <= m < b.len() && b[m] == c[j];
                assert(n[a.len() + m] == b[m]);
            }
        }
    }
}

/// `nearer_than` for a smaller bound is a prefix of `nearer_than` for a larger one.
proof fn lemma_nearer_prefix(c: Seq<DhtNodeView>, target: Seq<u8>, d1: nat, d2: nat)
    requires
        d1 <= d2,
    ensures
        nearer_than(c, target, d1).len() <= nearer_than(c, target, d2).len(),
        forall|m: int| 0 <= m < nearer_than(c, target, d1).len()
            ==> #[trigger] nearer_than(c, target, d2)[m] == nearer_than(c, target, d1)[m],
    decreases d2,
{
    if d2 > d1 {
        let d0 = (d2 - 1) as nat;
        lemma_nearer_prefix(c, target, d1, d0);
        let a = nearer_than(c, target, d0);
        assert(nearer_than(c, target, d2) =~= a + at_distance(c, target, d0));
    }
}

/// The nodes collected from the first buckets are a prefix of `all_nodes`.
proof fn lemma_all_nodes_step(t: Seq<KBucketView>, b: int)
    requires
        0 <= b < t.len(),
    ensures
        all_nodes(t.take(b + 1)) == all_nodes(t.take(b)) + node_views(t[b].nodes),
{
    assert(t.take(b + 1).drop_last() =~= t.take(b));
}

/// Number of nodes of `c` at distance below `d` from `target`.
spec fn count_below(c: Seq<DhtNodeView>, target: Seq<u8>, d: nat) -> nat
    decreases c.len(),
{
    if c.len() == 0 {
        0
    } else {
        count_below(c.drop_last(), target, d) + (if xor_distance(target, c.last().id) < d { 1nat } else { 0nat })
    }
}

proof fn lemma_count_step(c: Seq<DhtNodeView>, target: Seq<u8>, d: nat)
    ensures
        count_below(c, target, d) + at_distance(c, target, d).len() == count_below(c, target, d + 1),
        count_below(c, target, 0) == 0,
    decreases c.len(),
{
    if c.len() > 0 {
        lemma_count_step(c.drop_last(), target, d);
    }
}

proof fn lemma_count_all(c: Seq<DhtNodeView>, target: Seq<u8>)
    ensures
        count_below(c, target, 256) == c.len(),
    decreases c.len(),
{
    if c.len() > 0 {
        lemma_count_all(c.drop_last(), target);
        lemma_distance_bound(target, c.last().id, 0);
    }
}

/// The nodes at a distance are at that distance.
proof fn lemma_at_distance(c: Seq<DhtNodeView>, target: Seq<u8>, d: nat)
    ensures
        forall|i: int| 0 <= i < at_distance(c, target, d).len()
            ==> xor_distance(target, (#[trigger] at_distance(c, target, d)[i]).id) == d,
    decreases c.len(),
{
    if c.len() > 0 {
        lemma_at_distance(c.drop_last(), target, d);
        let r0 = at_distance(c.drop_last(), target, d);
        let r = at_distance(c, target, d);
        assert forall|i: int| 0 <= i < r.len() implies xor_distance(target, (#[trigger] r[i]).id) == d by {
            if i < r0.len() {
                assert(r[i] == r0[i]);
            }
        }
    }
}

/// `nearer_than(c, target, d)` holds the nodes of `c` below distance `d`,
/// nearer first.
proof fn lemma_nearer_than(c: Seq<DhtNodeView>, target: Seq<u8>, d: nat)
    ensures
        nearer_than(c, target, d).len() == count_below(c, target, d),
        forall|i: int| 0 <= i < nearer_than(c, target, d).len()
            ==> xor_distance(target, (#[trigger] nearer_than(c, target, d)[i]).id) < d,
        forall|i: int, j: int| 0 <= i <= j < nearer_than(c, target, d).len()
            ==> xor_distance(target, (#[trigger] nearer_than(c, target, d)[i]).id)
                <= xor_distance(target, (#[trigger] nearer_than(c, target, d)[j]).id),
    decreases d,
{
    lemma_count_step(c, target, 0);
    if d > 0 {
        let d0 = (d - 1) as nat;
        lemma_nearer_than(c, target, d0);
        lemma_count_step(c, target, d0);
        lemma_at_distance(c, target, d0);
        let a = nearer_than(c, target, d0);
        let b = at_distance(c, target, d0);
        let n = nearer_than(c, target, d);
        assert(n =~= a + b);
        assert forall|i: int| 0 <= i < n.len() implies xor_distance(target, (#[trigger] n[i]).id) < d by {
            if i < a.len() { assert(n[i] == a[i]); } else { assert(n[i] == b[i - a.len()]); }
        }
        assert forall|i: int, j: int| 0 <= i <= j < n.len()
            implies xor_distance(target, (#[trigger] n[i]).id) <= xor_distance(target, (#[trigger] n[j]).id) by {
            if j < a.len() {
                assert(n[i] == a[i] && n[j] == a[j]);
            } else if i < a.len() {
                assert(n[i] == a[i] && n[j] == b[j - a.len()]);
            } else {
                assert(n[i] == b[i - a.len()] && n[j] == b[j - a.len()]);
            }
        }
    }
}

/// Sorting keeps the number of nodes.
proof fn lemma_sorted_len(c: Seq<DhtNodeView>, target: Seq<u8>)
    ensures
        sorted_by_distance(c, target).len() == c.len(),
{
    lemma_nearer_than(c, target, 256);
    lemma_count_all(c, target);
}

/// No bucket holds more than `k` nodes, no node appears twice in a bucket,
/// and the local node is in no bucket.
pub proof fn lemma_bucket_limits(r: &KademliaRouter)
    requires
        r.wf(),
    ensures
        r.spec_table().len() == NUM_BUCKETS,
        forall|b: int| 0 <= b < NUM_BUCKETS ==> (#[trigger] r.spec_table()[b]).nodes.len() <= r.spec_k(),
        forall|b: int| 0 <= b < NUM_BUCKETS ==> ids_unique(#[trigger] r.spec_table()[b].nodes),
        forall|b: int, e: int| 0 <= b < NUM_BUCKETS && 0 <= e < r.spec_table()[b].nodes.len()
            ==> (#[trigger] r.spec_table()[b].nodes[e]).node.id != r.spec_local_id(),
{
    assert forall|b: int| 0 <= b < NUM_BUCKETS implies (#[trigger] r.spec_table()[b]).nodes.len() <= r.spec_k() by {
        assert(bucket_ok(r.spec_local_id(), r.spec_k(), b, r.spec_table()[b]));
    }
    assert forall|b: int| 0 <= b < NUM_BUCKETS implies ids_unique(#[trigger] r.spec_table()[b].nodes) by {
        assert(bucket_ok(r.spec_local_id(), r.spec_k(), b, r.spec_table()[b]));
    }
    assert forall|b: int, e: int| 0 <= b < NUM_BUCKETS && 0 <= e < r.spec_table()[b].nodes.len()
        implies (#[trigger] r.spec_table()[b].nodes[e]).node.id != r.spec_local_id() by {
        assert(bucket_ok(r.spec_local_id(), r.spec_k(), b, r.spec_table()[b]));
    }
}

/// Adding a node that is in its bucket already, or that takes a place
/// there, leaves exactly one entry for it, holding its information, seen
/// at `now` and with no failed pings; otherwise the bucket is unchanged.
pub proof fn lemma_add_then_present(s: Seq<RoutingEntryView>, k: nat, node: DhtNodeView, distance: u32, now: u64)
    requires
        ids_unique(s),
    ensures
        (find_entry(s, node.id) is Some || takes_place(s, k)) ==> {
            let r = entries_after_add(s, k, node, distance, now);
            &&& ids_unique(r)
            &&& find_entry(r, node.id) is Some
            &&& r[find_entry(r, node.id).unwrap()].node == node
            &&& r[find_entry(r, node.id).unwrap()].last_contact == now
            &&& r[find_entry(r, node.id).unwrap()].failed_attempts == 0
        },
        !(find_entry(s, node.id) is Some || takes_place(s, k)) ==> entries_after_add(s, k, node, distance, now) == s,
{
    let r = entries_after_add(s, k, node, distance, now);
    match find_entry(s, node.id) {
        Some(p) => {
            assert(s[p].node.id == node.id);
            assert forall|i: int, j: int| 0 <= i < r.len() && 0 <= j < r.len() && i != j
                implies #[trigger] r[i].node.id != #[trigger] r[j].node.id by {
                if i != p && j != p {
                    assert(s[i].node.id != s[j].node.id);
                } else if i == p {
                    assert(s[j].node.id != s[p].node.id);
                } else {
                    assert(s[i].node.id != s[p].node.id);
                }
            }
            lemma_find_entry_at(r, node.id, p);
        },
        None => {
            if s.len() < k {
                assert forall|i: int, j: int| 0 <= i < r.len() && 0 <= j < r.len() && i != j
                    implies #[trigger] r[i].node.id != #[trigger] r[j].node.id by {
                    if i < s.len() && j < s.len() {
                        assert(s[i].node.id != s[j].node.id);
                    } else if i < s.len() {
                        assert(r[i] == s[i]);
                    } else {
                        assert(r[j] == s[j]);
                    }
                }
                lemma_find_entry_at(r, node.id, s.len() as int);
            } else if takes_place(s, k) {
                lemma_lrs_exists(s);
                let p = lrs_index(s);
                assert forall|i: int, j: int| 0 <= i < r.len() && 0 <= j < r.len() && i != j
                    implies #[trigger] r[i].node.id != #[trigger] r[j].node.id by {
                    if i != p && j != p {
                        assert(s[i].node.id != s[j].node.id);
                    } else if i == p {
                        assert(r[j] == s[j]);
                    } else {
                        assert(r[i] == s[i]);
                    }
                }
                lemma_find_entry_at(r, node.id, p);
            }
        },
    }
}

proof fn lemma_at_distance_from(c: Seq<DhtNodeView>, target: Seq<u8>, d: nat)
    ensures
        forall|i: int| 0 <= i < at_distance(c, target, d).len() ==> c.contains(#[trigger] at_distance(c, target, d)[i]),
    decreases c.len(),
{
    if c.len() > 0 {
        let c0 = c.drop_last();
        lemma_at_distance_from(c0, target, d);
        let r0 = at_distance(c0, target, d);
        let r = at_distance(c, target, d);
        assert forall|i: int| 0 <= i < r.len() implies c.contains(#[trigger] r[i]) by {
            if i < r0.len() {
                assert(r[i] == r0[i]);
                assert(c0.contains(r0[i]));
                let j = choose|j: int| 0 <= j < c0.len() && c0[j] == r0[i];
                assert(c[j] == r[i]);
            } else {
                assert(r[i] == c[c.len() - 1]);
            }
        }
    }
}

proof fn lemma_nearer_than_from(c: Seq<DhtNodeView>, target: Seq<u8>, d: nat)
    ensures
        forall|i: int| 0 <= i < nearer_than(c, target, d).len() ==> c.contains(#[trigger] nearer_than(c, target, d)[i]),
    decreases d,
{
    if d > 0 {
        let d0 = (d - 1) as nat;
        lemma_nearer_than_from(c, target, d0);
        lemma_at_distance_from(c, target, d0);
        let a = nearer_than(c, target, d0);
        let b = at_distance(c, target, d0);
        let n = nearer_than(c, target, d);
        assert(n =~= a + b);
        assert forall|i: int| 0 <= i < n.len() implies c.contains(#[trigger] n[i]) by {
            if i < a.len() { assert(n[i] == a[i]); } else { assert(n[i] == b[i - a.len()]); }
        }
    }
}

/// Adding `node` changes only its bucket `b`: the node is in bucket `b`
/// afterwards, with its information, seen at `now` and with no failed
/// pings, when it was there already or takes a place there (room in the
/// bucket, or a least recently seen entry that failed more than 3 pings);
/// otherwise the bucket keeps its entries.
pub proof fn lemma_add_node_effect(t: Seq<KBucketView>, local: Seq<u8>, k: nat, node: DhtNodeView, now: u64)
    requires
        t.len() == NUM_BUCKETS,
        ids_unique(t[bucket_index(xor_distance(local, node.id)) as int].nodes),
    ensures
        ({
            let b = bucket_index(xor_distance(local, node.id)) as int;
            let s = t[b].nodes;
            let r = table_after_add(t, local, k, node, now);
            &&& r.len() == t.len()
            &&& forall|c: int| 0 <= c < t.len() && c != b ==> #[trigger] r[c] == t[c]
            &&& r[b].last_updated == now
            &&& (find_entry(s, node.id) is Some || takes_place(s, k)) ==> {
                &&& ids_unique(r[b].nodes)
                &&& find_entry(r[b].nodes, node.id) is Some
                &&& r[b].nodes[find_entry(r[b].nodes, node.id).unwrap()].node == node
                &&& r[b].nodes[find_entry(r[b].nodes, node.id).unwrap()].last_contact == now
                &&& r[b].nodes[find_entry(r[b].nodes, node.id).unwrap()].failed_attempts == 0
            }
            &&& !(find_entry(s, node.id) is Some || takes_place(s, k)) ==> r[b].nodes == s
        }),
{
    lemma_distance_bound(local, node.id, 0);
    let d = xor_distance(local, node.id);
    let b = bucket_index(d) as int;
    lemma_add_then_present(t[b].nodes, k, node, d as u32, now);
}

/// `find_closest_nodes` returns `min(count, k, number of nodes)` nodes,
/// sorted by distance to the target.
pub proof fn lemma_closest_nodes(t: Seq<KBucketView>, k: nat, target: Seq<u8>, count: nat)
    ensures
        ({
            let req: nat = if count < k { count } else { k };
            closest_nodes(t, k, target, count).len()
                == if req < all_nodes(t).len() { req } else { all_nodes(t).len() }
        }),
        closest_nodes(t, k, target, count).len() <= count,
        closest_nodes(t, k, target, count).len() <= k,
        forall|i: int, j: int| 0 <= i <= j < closest_nodes(t, k, target, count).len()
            ==> xor_distance(target, (#[trigger] closest_nodes(t, k, target, count)[i]).id)
                <= xor_distance(target, (#[trigger] closest_nodes(t, k, target, count)[j]).id),
{
    let c = all_nodes(t);
    let sorted = sorted_by_distance(c, target);
    lemma_nearer_than(c, target, 256);
    lemma_sorted_len(c, target);
    let r = closest_nodes(t, k, target, count);
    assert forall|i: int, j: int| 0 <= i <= j < r.len()
        implies xor_distance(target, (#[trigger] r[i]).id) <= xor_distance(target, (#[trigger] r[j]).id) by {
        assert(r[i] == sorted[i] && r[j] == sorted[j]);
    }
}

/// `find_closest_nodes` returns only nodes of the table, and the nearest
/// ones: a node of the table strictly nearer to the target than a returned
/// node is returned too.
pub proof fn lemma_closest_nodes_nearest(t: Seq<KBucketView>, k: nat, target: Seq<u8>, count: nat)
    ensures
        forall|i: int| 0 <= i < closest_nodes(t, k, target, count).len()
            ==> all_nodes(t).contains(#[trigger] closest_nodes(t, k, target, count)[i]),
        forall|i: int, j: int| #![trigger closest_nodes(t, k, target, count)[i], all_nodes(t)[j]]
            0 <= i < closest_nodes(t, k, target, count).len() && 0 <= j < all_nodes(t).len()
            && xor_distance(target, all_nodes(t)[j].id) < xor_distance(target, closest_nodes(t, k, target, count)[i].id)
            ==> closest_nodes(t, k, target, count).contains(all_nodes(t)[j]),
{
    let c = all_nodes(t);
    let sorted = sorted_by_distance(c, target);
    let r = closest_nodes(t, k, target, count);
    lemma_nearer_than_from(c, target, 256);
    lemma_nearer_than(c, target, 256);
    assert forall|i: int| 0 <= i < r.len() implies c.contains(#[trigger] r[i]) by {
        assert(r[i] == sorted[i]);
    }
    assert forall|i: int, j: int| #![trigger r[i], c[j]] 0 <= i < r.len() && 0 <= j < c.len()
        && xor_distance(target, c[j].id) < xor_distance(target, r[i].id)
        implies r.contains(c[j]) by {
        let dd = xor_distance(target, r[i].id);
        assert(r[i] == sorted[i]);
        lemma_distance_bound(target, r[i].id, 0);
        lemma_nearer_prefix(c, target, dd, 256);
        lemma_nearer_than(c, target, dd);
        lemma_nearer_complete(c, target, dd);
        let p = nearer_than(c, target, dd);
        if i < p.len() {
            assert(sorted[i] == p[i]);
        }
        assert(p.contains(c[j]));
        let m = choose|m: int| 0 <= m < p.len() && p[m] == c[j];
        assert(sorted[m] == p[m]);
        assert(r[m] == sorted[m]);
    }
}

/// Maintenance with `max_failed` drops exactly the entries that failed more
/// than `max_failed` pings: every remaining entry was in its bucket before
/// and failed at most `max_failed` pings, and every entry of the old table
/// that failed at most `max_failed` pings is still in its bucket.
pub proof fn lemma_maintenance_drops_unresponsive(t: Seq<KBucketView>, max_failed: u32)
    ensures
        maintained(t, max_failed).len() == t.len(),
        forall|b: int, e: int| 0 <= b < t.len() && 0 <= e < maintained(t, max_failed)[b].nodes.len()
            ==> (#[trigger] maintained(t, max_failed)[b].nodes[e]).failed_attempts <= max_failed
                && t[b].nodes.contains(maintained(t, max_failed)[b].nodes[e]),
        forall|b: int, e: int| 0 <= b < t.len() && 0 <= e < t[b].nodes.len()
            && (#[trigger] t[b].nodes[e]).failed_attempts <= max_failed
            ==> maintained(t, max_failed)[b].nodes.contains(t[b].nodes[e]),
{
    assert forall|b: int, e: int| 0 <= b < t.len() && 0 <= e < maintained(t, max_failed)[b].nodes.len()
        implies (#[trigger] maintained(t, max_failed)[b].nodes[e]).failed_attempts <= max_failed
            && t[b].nodes.contains(maintained(t, max_failed)[b].nodes[e]) by {
        lemma_responsive(t[b].nodes, max_failed);
        assert(maintained(t, max_failed)[b].nodes == responsive_entries(t[b].nodes, max_failed));
    }
    assert forall|b: int, e: int| 0 <= b < t.len() && 0 <= e < t[b].nodes.len()
        && (#[trigger] t[b].nodes[e]).failed_attempts <= max_failed
        implies maintained(t, max_failed)[b].nodes.contains(t[b].nodes[e]) by {
        lemma_responsive_keeps(t[b].nodes, max_failed);
        assert(maintained(t, max_failed)[b].nodes == responsive_entries(t[b].nodes, max_failed));
    }
}

/// Only identical identifiers are at distance 0.
pub proof fn lemma_distance_zero_iff_equal(a: Seq<u8>, b: Seq<u8>)
    requires
        a.len() == 32,
        b.len() == 32,
    ensures
        (xor_distance(a, b) == 0) <==> (a == b),
{
    if a == b {
        lemma_distance_self(a, 0);
    } else {
        let j = choose|j: int| 0 <= j < 32 && a[j] != b[j];
        assert(exists|j: int| 0 <= j < 32 && a[j] != b[j]) by {
            if forall|j: int| 0 <= j < 32 ==> a[j] == b[j] {
                assert(a =~= b);
            }
        }
        lemma_distance_positive(a, b, 0, j);
    }
}

/// Bytes that differ at `j >= i` give a positive distance from `i` on.
proof fn lemma_distance_positive(a: Seq<u8>, b: Seq<u8>, i: nat, j: int)
    requires
        i <= j < 32,
        a.len() == 32,
        b.len() == 32,
        a[j] != b[j],
    ensures
        distance_from(a, b, i) > 0,
    decreases 32 - i,
{
    let x = a[i as int];
    let y = b[i as int];
    if x ^ y == 0 {
        assert(x ^ y == 0u8 ==> x == y) by (bit_vector);
        lemma_distance_positive(a, b, i + 1, j);
    }
}

/// Position of the highest set bit of a non-zero byte.
fn highest_bit(x: u8) -> (r: u32)
    ensures
        r == msb(x as nat),
        r < 8,
{
    let mut v = x;
    let mut pos: u32 = 0;
    proof {
        lemma_msb_bound(x as nat);
    }
    while v > 1
        invariant
            pos + msb(v as nat) == msb(x as nat),
            msb(x as nat) < 8,
        decreases v,
    {
        v = v / 2;
        pos = pos + 1;
    }
    pos
}

/// Position of the entry with identifier `id`, if any: the first such entry.
fn position_of(nodes: &Vec<RoutingEntry>, id: &NodeId) -> (r: Option<usize>)
    ensures
        match r {
            Some(p) => p < nodes@.len() && nodes@[p as int].node.id@ == id@,
            None => forall|j: int| 0 <= j < nodes@.len() ==> (#[trigger] nodes@[j]).node.id@ != id@,
        },
{
    let mut i: usize = 0;
    while i < nodes.len()
        invariant
            i <= nodes@.len(),
            forall|j: int| 0 <= j < i ==> (#[trigger] nodes@[j]).node.id@ != id@,
        decreases nodes@.len() - i,
    {
        if nodes[i].node.id == *id {
            return Some(i);
        }
        i += 1;
    }
    None
}

/// Position of the least recently seen entry of a non-empty bucket.
fn lrs_position(nodes: &Vec<RoutingEntry>) -> (p: usize)
    requires
        nodes@.len() > 0,
    ensures
        is_lrs(entries_view(nodes@), p as int),
{
    let ghost s = entries_view(nodes@);
    let mut best: usize = 0;
    let mut i: usize = 1;
    while i < nodes.len()
        invariant
            s == entries_view(nodes@),
            1 <= i <= nodes@.len(),
            best < i,
            forall|j: int| 0 <= j < i ==> s[best as int].last_contact <= #[trigger] s[j].last_contact,
            forall|j: int| 0 <= j < best ==> s[best as int].last_contact < #[trigger] s[j].last_contact,
        decreases nodes@.len() - i,
    {
        if nodes[i].last_contact < nodes[best].last_contact {
            best = i;
        }
        i += 1;
    }
    best
}

/// The bytes hashed into a random identifier for bucket `bucket_index`:
/// the local identifier with, for a bucket below 160, the bit of that index
/// (counted from the top of the first byte) flipped, and with its last 8
/// bytes xored with the little-endian bytes of `nanos`.
pub open spec fn random_id_seed(local: Seq<u8>, bucket_index: nat, nanos: u64) -> Seq<u8> {
    Seq::new(32, |i: int| {
        let flipped = if bucket_index < 160 && i == bucket_index / 8 {
            local[i] ^ (1u8 << ((7 - bucket_index % 8) as u8))
        } else {
            local[i]
        };
        if i >= 24 {
            flipped ^ (((nanos >> ((8 * (i - 24)) as u64)) & 0xffu64) as u8)
        } else {
            flipped
        }
    })
}

/// The seed bytes of a random identifier for bucket `bucket_index` around
/// `local`, with `nanos` as the source of randomness.
pub fn random_id_seed_bytes(local: &NodeId, bucket_index: usize, nanos: u64) -> (r: Vec<u8>)
    ensures
        r@ == random_id_seed(local@, bucket_index as nat, nanos),
{
    let bytes = local.as_bytes();
    let mut id_bytes: Vec<u8> = Vec::new();
    for i in 0..32
        invariant
            bytes@ == local@,
            bytes@.len() == 32,
            id_bytes@ == bytes@.take(i as int),
    {
        id_bytes.push(bytes[i]);
        assert(bytes@.take(i + 1) =~= bytes@.take(i as int).push(bytes@[i as int]));
    }
    assert(bytes@.take(32) =~= bytes@);
    let ghost flipped: Seq<u8> = Seq::new(32, |i: int|
        if bucket_index < 160 && i == bucket_index / 8 {
            local@[i] ^ (1u8 << ((7 - bucket_index % 8) as u8))
        } else {
            local@[i]
        });
    if bucket_index < 160 {
        let byte_index = bucket_index / 8;
        let shift: u8 = (7 - bucket_index % 8) as u8;
        let v = id_bytes[byte_index] ^ (1u8 << shift);
        id_bytes.set(byte_index, v);
    }
    assert(id_bytes@ =~= flipped);
    let ghost seed = random_id_seed(local@, bucket_index as nat, nanos);
    assert forall|i: int| 24 <= i < 32 implies #[trigger] seed[i]
        == flipped[i] ^ (((nanos >> ((8 * (i - 24)) as u64)) & 0xffu64) as u8) by {}
    assert forall|i: int| 0 <= i < 24 implies #[trigger] seed[i] == flipped[i] by {}
    for j in 0..8
        invariant
            id_bytes@.len() == 32,
            flipped.len() == 32,
            seed == random_id_seed(local@, bucket_index as nat, nanos),
            forall|i: int| 24 <= i < 32 ==> #[trigger] seed[i]
                == flipped[i] ^ (((nanos >> ((8 * (i - 24)) as u64)) & 0xffu64) as u8),
            forall|i: int| 0 <= i < 24 + j ==> #[trigger] id_bytes@[i] == random_id_seed(local@, bucket_index as nat, nanos)[i],
            forall|i: int| 24 + j <= i < 32 ==> #[trigger] id_bytes@[i] == flipped[i],
    {
        let shift: u64 = 8 * j as u64;
        let b: u8 = ((nanos >> shift) & 0xffu64) as u8;
        let v = id_bytes[24 + j] ^ b;
        id_bytes.set(24 + j, v);
        assert(shift == (8 * ((24 + j) - 24)) as u64);
        assert(id_bytes@[24 + j as int] == seed[24 + j as int]);
    }
    assert(id_bytes@ =~= random_id_seed(local@, bucket_index as nat, nanos));
    id_bytes
}

/// Why the routing table refused an operation.
#[derive(Debug, Clone, Copy, PartialEq, Eq, Structural)]
pub enum RoutingError {
    /// The local node cannot be added to its own routing table.
    LocalNode,
    /// The system clock reads before the Unix epoch.
    ClockBeforeEpoch,
}

/// Routing table statistics.
#[derive(Debug, Clone, Copy, PartialEq, Eq, Structural)]
pub struct RoutingStats {
    pub total_nodes: usize,
    pub non_empty_buckets: usize,
    pub total_buckets: usize,
    pub full_buckets: usize,
    pub k_value: usize,
}

/// Total number of entries in the buckets.
pub open spec fn total_entries(t: Seq<KBucketView>) -> nat
    decreases t.len(),
{
    if t.len() == 0 {
        0
    } else {
        total_entries(t.drop_last()) + t.last().nodes.len()
    }
}

/// Number of buckets with at least one entry.
pub open spec fn non_empty_count(t: Seq<KBucketView>) -> nat
    decreases t.len(),
{
    if t.len() == 0 {
        0
    } else {
        non_empty_count(t.drop_last()) + (if t.last().nodes.len() > 0 { 1nat } else { 0nat })
    }
}

/// Number of buckets holding at least `k` entries.
pub open spec fn full_count(t: Seq<KBucketView>, k: nat) -> nat
    decreases t.len(),
{
    if t.len() == 0 {
        0
    } else {
        full_count(t.drop_last(), k) + (if t.last().nodes.len() >= k { 1nat } else { 0nat })
    }
}

/// No two entries share an identifier.
pub open spec fn ids_unique(s: Seq<RoutingEntryView>) -> bool {
    forall|i: int, j: int| 0 <= i < s.len() && 0 <= j < s.len() && i != j ==> #[trigger] s[i].node.id != #[trigger] s[j].node.id
}

/// Bucket `b` of a routing table for `local` with bucket size `k`: at most
/// `k` entries with distinct identifiers, none of them `local`, each at its
/// recorded distance from `local` and in the bucket of that distance.
pub open spec fn bucket_ok(local: Seq<u8>, k: nat, b: int, bv: KBucketView) -> bool {
    &&& bv.k == k
    &&& bv.nodes.len() <= k
    &&& ids_unique(bv.nodes)
    &&& forall|e: int| 0 <= e < bv.nodes.len() ==> {
        &&& #[trigger] bv.nodes[e].node.id != local
        &&& bucket_index(xor_distance(local, bv.nodes[e].node.id)) == b
        &&& bv.nodes[e].distance == xor_distance(local, bv.nodes[e].node.id)
    }
}

/// Index of the entry with identifier `id`, if any.
pub open spec fn find_entry(s: Seq<RoutingEntryView>, id: Seq<u8>) -> Option<int> {
    if exists|i: int| 0 <= i < s.len() && #[trigger] s[i].node.id == id {
        Some(choose|i: int| 0 <= i < s.len() && #[trigger] s[i].node.id == id)
    } else {
        None
    }
}

/// Whether entry `i` is the least recently seen one: the first with the
/// smallest `last_contact`.
pub open spec fn is_lrs(s: Seq<RoutingEntryView>, i: int) -> bool {
    &&& 0 <= i < s.len()
    &&& forall|j: int| 0 <= j < s.len() ==> s[i].last_contact <= #[trigger] s[j].last_contact
    &&& forall|j: int| 0 <= j < i ==> s[i].last_contact < #[trigger] s[j].last_contact
}

/// Index of the least recently seen entry.
pub open spec fn lrs_index(s: Seq<RoutingEntryView>) -> int {
    choose|i: int| is_lrs(s, i)
}

/// There is exactly one least recently seen entry.
proof fn lemma_lrs_unique(s: Seq<RoutingEntryView>, p: int)
    requires
        is_lrs(s, p),
    ensures
        lrs_index(s) == p,
{
    let i = lrs_index(s);
    assert(is_lrs(s, i));
    if i < p {
        assert(s[p].last_contact < s[i].last_contact);
    } else if p < i {
        assert(s[i].last_contact < s[p].last_contact);
    }
}

/// A non-empty bucket has a least recently seen entry.
proof fn lemma_lrs_exists(s: Seq<RoutingEntryView>)
    requires
        s.len() > 0,
    ensures
        is_lrs(s, lrs_index(s)),
    decreases s.len(),
{
    if s.len() == 1 {
        assert(is_lrs(s, 0));
    } else {
        let s0 = s.drop_last();
        lemma_lrs_exists(s0);
        let i0 = lrs_index(s0);
        let last = s.len() - 1;
        if s[last].last_contact < s0[i0].last_contact {
            assert forall|j: int| 0 <= j < s.len() implies s[last].last_contact <= #[trigger] s[j].last_contact by {
                if j < last { assert(s[j] == s0[j]); }
            }
            assert forall|j: int| 0 <= j < last implies s[last].last_contact < #[trigger] s[j].last_contact by {
                assert(s[j] == s0[j]);
            }
            assert(is_lrs(s, last));
        } else {
            assert forall|j: int| 0 <= j < s.len() implies s[i0].last_contact <= #[trigger] s[j].last_contact by {
                if j < last { assert(s[j] == s0[j]); }
            }
            assert forall|j: int| 0 <= j < i0 implies s[i0].last_contact < #[trigger] s[j].last_contact by {
                assert(s[j] == s0[j]);
            }
            assert(is_lrs(s, i0));
        }
    }
}

/// With distinct identifiers, the entry for `id` is the one at `p`.
proof fn lemma_find_entry_at(s: Seq<RoutingEntryView>, id: Seq<u8>, p: int)
    requires
        ids_unique(s),
        0 <= p < s.len(),
        s[p].node.id == id,
    ensures
        find_entry(s, id) == Some(p),
{
    let i = choose|i: int| 0 <= i < s.len() && #[trigger] s[i].node.id == id;
    assert(s[i].node.id == id);
    if i != p {
        assert(s[i].node.id != s[p].node.id);
    }
}

/// A fresh routing entry.
pub open spec fn fresh_entry(node: DhtNodeView, distance: u32, now: u64) -> RoutingEntryView {
    RoutingEntryView { node, distance, last_contact: now, failed_attempts: 0 }
}

/// Whether a new node takes a place in bucket entries `s` of size `k`:
/// there is room, or the least recently seen entry failed more than 3 times.
pub open spec fn takes_place(s: Seq<RoutingEntryView>, k: nat) -> bool {
    s.len() < k || (s.len() > 0 && s[lrs_index(s)].failed_attempts > 3)
}

/// Bucket entries after adding `node` at `distance`, seen at `now`: an
/// existing entry for the node is refreshed; otherwise the node is appended
/// when there is room, or replaces the least recently seen entry when that
/// entry failed more than 3 pings; otherwise nothing changes.
pub open spec fn entries_after_add(s: Seq<RoutingEntryView>, k: nat, node: DhtNodeView, distance: u32, now: u64) -> Seq<RoutingEntryView> {
    match find_entry(s, node.id) {
        Some(p) => s.update(p, fresh_entry(node, s[p].distance, now)),
        None => if s.len() < k {
            s.push(fresh_entry(node, distance, now))
        } else if s.len() > 0 && s[lrs_index(s)].failed_attempts > 3 {
            s.update(lrs_index(s), fresh_entry(node, distance, now))
        } else {
            s
        },
    }
}

/// Failed pings recorded for node `id` in the table of a router for `local`.
pub open spec fn failed_count(t: Seq<KBucketView>, local: Seq<u8>, id: Seq<u8>) -> Option<u32> {
    let b = bucket_index(xor_distance(local, id)) as int;
    match find_entry(t[b].nodes, id) {
        Some(p) => Some(t[b].nodes[p].failed_attempts),
        None => None,
    }
}

/// The table of a router for `local` with bucket size `k` after adding
/// `node` at time `now`: only the node's bucket changes.
pub open spec fn table_after_add(t: Seq<KBucketView>, local: Seq<u8>, k: nat, node: DhtNodeView, now: u64) -> Seq<KBucketView> {
    let d = xor_distance(local, node.id);
    let b = bucket_index(d) as int;
    t.update(b, KBucketView {
        k: t[b].k,
        nodes: entries_after_add(t[b].nodes, k, node, d as u32, now),
        last_updated: now,
    })
}

/// Bucket entries after one more failed ping of `id`.
pub open spec fn entries_after_failure(s: Seq<RoutingEntryView>, id: Seq<u8>) -> Seq<RoutingEntryView> {
    match find_entry(s, id) {
        Some(p) => s.update(p, RoutingEntryView {
            node: s[p].node,
            distance: s[p].distance,
            last_contact: s[p].last_contact,
            failed_attempts: (s[p].failed_attempts + 1) as u32,
        }),
        None => s,
    }
}

/// Bucket entries after `id` answered at time `now`.
pub open spec fn entries_after_response(s: Seq<RoutingEntryView>, id: Seq<u8>, now: u64) -> Seq<RoutingEntryView> {
    match find_entry(s, id) {
        Some(p) => s.update(p, RoutingEntryView {
            node: s[p].node,
            distance: s[p].distance,
            last_contact: now,
            failed_attempts: 0,
        }),
        None => s,
    }
}

/// Bucket entries without the entry for `id`.
pub open spec fn entries_without(s: Seq<RoutingEntryView>, id: Seq<u8>) -> Seq<RoutingEntryView> {
    match find_entry(s, id) {
        Some(p) => s.remove(p),
        None => s,
    }
}

/// The table with the nodes of bucket `b` replaced by `nodes`.
pub open spec fn with_nodes(t: Seq<KBucketView>, b: int, nodes: Seq<RoutingEntryView>) -> Seq<KBucketView> {
    t.update(b, KBucketView { k: t[b].k, nodes, last_updated: t[b].last_updated })
}

/// Indices of the buckets not updated for more than `interval` seconds at
/// time `now`, among the first `t.len()`.
pub open spec fn stale_buckets(t: Seq<KBucketView>, now: u64, interval: u64) -> Seq<usize>
    decreases t.len(),
{
    if t.len() == 0 {
        Seq::empty()
    } else {
        let rest = stale_buckets(t.drop_last(), now, interval);
        if now > t.last().last_updated && now - t.last().last_updated > interval {
            rest.push((t.len() - 1) as usize)
        } else {
            rest
        }
    }
}

/// Number of entries that failed more than `max_failed` times.
pub open spec fn unresponsive_count(t: Seq<KBucketView>, max_failed: u32) -> nat
    decreases t.len(),
{
    if t.len() == 0 {
        0
    } else {
        unresponsive_count(t.drop_last(), max_failed) + (t.last().nodes.len()
            - responsive_entries(t.last().nodes, max_failed).len()) as nat
    }
}

/// `s` without the entries that failed more than `max_failed` times.
pub open spec fn responsive_entries(s: Seq<RoutingEntryView>, max_failed: u32) -> Seq<RoutingEntryView>
    decreases s.len(),
{
    if s.len() == 0 {
        s
    } else {
        let rest = responsive_entries(s.drop_last(), max_failed);
        if s.last().failed_attempts <= max_failed { rest.push(s.last()) } else { rest }
    }
}

/// Kademlia routing table.
#[derive(Debug)]
pub struct KademliaRouter {
    /// Local node ID.
    local_id: NodeId,
    /// Routing table of 160 k-buckets.
    routing_table: Vec<KBucket>,
    /// Bucket size.
    k: usize,
}

impl KademliaRouter {
    /// Well-formedness: 160 buckets, each as `bucket_ok` describes.
    pub closed spec fn wf(&self) -> bool {
        let t = self.spec_table();
        &&& t.len() == NUM_BUCKETS
        &&& forall|b: int| 0 <= b < t.len() ==> #[trigger] bucket_ok(self.local_id@, self.k as nat, b, t[b])
    }

    /// The local node identifier.
    pub closed spec fn spec_local_id(&self) -> Seq<u8> {
        self.local_id@
    }

    /// The bucket size.
    pub closed spec fn spec_k(&self) -> nat {
        self.k as nat
    }

    /// The buckets.
    pub closed spec fn spec_table(&self) -> Seq<KBucketView> {
        self.routing_table@.map_values(|b: KBucket| b@)
    }

    /// Create a routing table of 160 empty buckets of size `k`, stamped with the current time.
    pub fn new(local_id: NodeId, k: usize) -> (r: KademliaRouter)
        ensures
            r.wf(),
            r.spec_local_id() == local_id@,
            r.spec_k() == k,
            r.spec_table().len() == NUM_BUCKETS,
            exists|now: u64| r.spec_table() == #[trigger] empty_table(k, now),
    {
        let now = match unix_time_secs() {
            Some(t) => t,
            None => 0,
        };
        Self::new_at(local_id, k, now)
    }

    /// Create a routing table of 160 empty buckets of size `k`, stamped `now`.
    pub fn new_at(local_id: NodeId, k: usize, now: u64) -> (r: KademliaRouter)
        ensures
            r.wf(),
            r.spec_local_id() == local_id@,
            r.spec_k() == k,
            r.spec_table().len() == NUM_BUCKETS,
            r.spec_table() == empty_table(k, now),
    {
        let mut routing_table: Vec<KBucket> = Vec::new();
        for i in 0..NUM_BUCKETS
            invariant
                routing_table@.len() == i,
                forall|b: int| 0 <= b < i ==> #[trigger] routing_table@[b]@ == (KBucketView {
                    k,
                    nodes: Seq::empty(),
                    last_updated: now,
                }),
        {
            let bucket = KBucket { k, nodes: Vec::new(), last_updated: now };
            assert(bucket@.nodes =~= Seq::<RoutingEntryView>::empty());
            routing_table.push(bucket);
        }
        let r = KademliaRouter { local_id, routing_table, k };
        assert(r.spec_table() =~= empty_table(k, now));
        r
    }

    /// Take bucket `b` out of the table, leaving an empty bucket in its place.
    fn take_bucket(&mut self, b: usize) -> (bucket: KBucket)
        requires
            b < NUM_BUCKETS,
            old(self).wf(),
        ensures
            bucket@ == old(self).spec_table()[b as int],
            bucket_ok(old(self).spec_local_id(), old(self).spec_k(), b as int, bucket@),
            final(self).spec_table() == old(self).spec_table().update(b as int, KBucketView {
                k: old(self).spec_k() as usize,
                nodes: Seq::empty(),
                last_updated: 0,
            }),
            final(self).spec_local_id() == old(self).spec_local_id(),
            final(self).spec_k() == old(self).spec_k(),
            final(self).wf(),
    {
        assert(bucket_ok(self.local_id@, self.k as nat, b as int, self.spec_table()[b as int]));
        let mut bucket = KBucket { k: self.k, nodes: Vec::new(), last_updated: 0 };
        assert(bucket@.nodes =~= Seq::<RoutingEntryView>::empty());
        let ghost placeholder = bucket@;
        self.routing_table.set_and_swap(b, &mut bucket);
        assert(self.spec_table() =~= old(self).spec_table().update(b as int, placeholder));
        bucket
    }

    /// Put `bucket` back as bucket `b`.
    fn put_bucket(&mut self, b: usize, bucket: KBucket)
        requires
            b < NUM_BUCKETS,
            old(self).wf(),
            bucket_ok(old(self).spec_local_id(), old(self).spec_k(), b as int, bucket@),
        ensures
            final(self).wf(),
            final(self).spec_table() == old(self).spec_table().update(b as int, bucket@),
            final(self).spec_local_id() == old(self).spec_local_id(),
            final(self).spec_k() == old(self).spec_k(),
    {
        let ghost bv = bucket@;
        let mut bucket = bucket;
        self.routing_table.set_and_swap(b, &mut bucket);
        assert(self.spec_table() =~= old(self).spec_table().update(b as int, bv));
    }

    /// Add `node`, seen at time `now`, to its bucket: an existing entry for
    /// it is refreshed; otherwise it is appended when the bucket has room, or
    /// replaces the least recently seen entry when that entry failed more
    /// than 3 pings; otherwise the bucket keeps its entries. The bucket is
    /// stamped `now`. The local node itself is refused.
    pub fn add_node_at(&mut self, node: DhtNode, now: u64) -> (r: Result<(), RoutingError>)
        requires
            old(self).wf(),
        ensures
            final(self).wf(),
            final(self).spec_local_id() == old(self).spec_local_id(),
            final(self).spec_k() == old(self).spec_k(),
            node@.id == old(self).spec_local_id() ==> r == Err::<(), RoutingError>(RoutingError::LocalNode)
                && final(self).spec_table() == old(self).spec_table(),
            node@.id != old(self).spec_local_id() ==> r is Ok && final(self).spec_table()
                == table_after_add(old(self).spec_table(), old(self).spec_local_id(), old(self).spec_k(), node@, now),
    {
        if node.id == self.local_id {
            return Err(RoutingError::LocalNode);
        }
        let distance = self.calculate_distance(&self.local_id, &node.id);
        proof { lemma_distance_bound(self.local_id@, node.id@, 0); }
        let b = self.get_bucket_index(distance);
        let ghost local = self.local_id@;
        let ghost k = self.k as nat;
        let mut bucket = self.take_bucket(b);
        let ghost s = bucket@.nodes;
        let ghost nv = node@;
        match position_of(&bucket.nodes, &node.id) {
            Some(pos) => {
                proof { lemma_find_entry_at(s, nv.id, pos as int); }
                let old_distance = bucket.nodes[pos].distance;
                let entry = RoutingEntry { node, distance: old_distance, last_contact: now, failed_attempts: 0 };
                bucket.nodes.set(pos, entry);
                assert(bucket@.nodes =~= s.update(pos as int, fresh_entry(nv, s[pos as int].distance, now)));
            },
            None => {
                assert(find_entry(s, nv.id) is None);
                if bucket.nodes.len() < bucket.k {
                    let entry = RoutingEntry { node, distance, last_contact: now, failed_attempts: 0 };
                    bucket.nodes.push(entry);
                    assert(bucket@.nodes =~= s.push(fresh_entry(nv, distance, now)));
                } else if bucket.nodes.len() > 0 {
                    let p = lrs_position(&bucket.nodes);
                    proof { lemma_lrs_unique(s, p as int); }
                    if bucket.nodes[p].failed_attempts > 3 {
                        let entry = RoutingEntry { node, distance, last_contact: now, failed_attempts: 0 };
                        bucket.nodes.set(p, entry);
                        assert(bucket@.nodes =~= s.update(p as int, fresh_entry(nv, distance, now)));
                    }
                }
            },
        }
        bucket.last_updated = now;
        assert(bucket_ok(local, k, b as int, bucket@));
        self.put_bucket(b, bucket);
        Ok(())
    }

    /// Add `node` to its bucket, stamped with the current time (see
    /// `add_node_at`). Fails when the local node is added, or when the clock
    /// reads before the Unix epoch, leaving the table unchanged.
    pub fn add_node(&mut self, node: DhtNode) -> (r: Result<(), RoutingError>)
        requires
            old(self).wf(),
        ensures
            final(self).wf(),
            final(self).spec_local_id() == old(self).spec_local_id(),
            final(self).spec_k() == old(self).spec_k(),
            node@.id == old(self).spec_local_id() ==> r == Err::<(), RoutingError>(RoutingError::LocalNode)
                && final(self).spec_table() == old(self).spec_table(),
            node@.id != old(self).spec_local_id() ==> (r == Err::<(), RoutingError>(RoutingError::ClockBeforeEpoch)
                && final(self).spec_table() == old(self).spec_table()) || (r is Ok && exists|now: u64| final(self).spec_table()
                == #[trigger] table_after_add(old(self).spec_table(), old(self).spec_local_id(), old(self).spec_k(), node@, now)),
    {
        if node.id == self.local_id {
            return Err(RoutingError::LocalNode);
        }
        match unix_time_secs() {
            Some(now) => self.add_node_at(node, now),
            None => Err(RoutingError::ClockBeforeEpoch),
        }
    }

    /// Failed pings recorded for the node `node_id`, if it is in the table.
    pub fn failed_attempts(&self, node_id: &NodeId) -> (r: Option<u32>)
        requires
            self.wf(),
        ensures
            r == failed_count(self.spec_table(), self.spec_local_id(), node_id@),
    {
        let distance = self.calculate_distance(&self.local_id, node_id);
        proof { lemma_distance_bound(self.local_id@, node_id@, 0); }
        let b = self.get_bucket_index(distance);
        let ghost s = self.spec_table()[b as int].nodes;
        assert(bucket_ok(self.local_id@, self.k as nat, b as int, self.spec_table()[b as int]));
        match position_of(&self.routing_table[b].nodes, node_id) {
            Some(pos) => {
                proof { lemma_find_entry_at(s, node_id@, pos as int); }
                Some(self.routing_table[b].nodes[pos].failed_attempts)
            },
            None => {
                assert(find_entry(s, node_id@) is None);
                None
            },
        }
    }

    /// Count one more failed ping for the node `node_id`, if it is in the table.
    pub fn mark_node_failed(&mut self, node_id: &NodeId)
        requires
            old(self).wf(),
            failed_count(old(self).spec_table(), old(self).spec_local_id(), node_id@) != Some(u32::MAX),
        ensures
            final(self).wf(),
            final(self).spec_local_id() == old(self).spec_local_id(),
            final(self).spec_k() == old(self).spec_k(),
            ({
                let b = bucket_index(xor_distance(old(self).spec_local_id(), node_id@)) as int;
                final(self).spec_table() == with_nodes(old(self).spec_table(), b,
                    entries_after_failure(old(self).spec_table()[b].nodes, node_id@))
            }),
    {
        let distance = self.calculate_distance(&self.local_id, node_id);
        proof { lemma_distance_bound(self.local_id@, node_id@, 0); }
        let b = self.get_bucket_index(distance);
        let ghost local = self.local_id@;
        let ghost k = self.k as nat;
        let ghost t = self.spec_table();
        let mut bucket = self.take_bucket(b);
        let ghost s = bucket@.nodes;
        match position_of(&bucket.nodes, node_id) {
            Some(pos) => {
                proof { lemma_find_entry_at(s, node_id@, pos as int); }
                assert(t[b as int].nodes[pos as int] == s[pos as int]);
                let mut entry = bucket.nodes[pos].duplicate();
                entry.failed_attempts = entry.failed_attempts + 1;
                bucket.nodes.set(pos, entry);
                assert(bucket@.nodes =~= entries_after_failure(s, node_id@));
            },
            None => {
                assert(bucket@.nodes =~= entries_after_failure(s, node_id@));
            },
        }
        assert(bucket_ok(local, k, b as int, bucket@));
        self.put_bucket(b, bucket);
        assert(self.spec_table() =~= with_nodes(t, b as int, entries_after_failure(s, node_id@)));
    }

    /// Record that the node `node_id` answered at time `now`: its failed
    /// pings are reset and its last contact is `now`.
    pub fn mark_node_responsive_at(&mut self, node_id: &NodeId, now: u64)
        requires
            old(self).wf(),
        ensures
            final(self).wf(),
            final(self).spec_local_id() == old(self).spec_local_id(),
            final(self).spec_k() == old(self).spec_k(),
            ({
                let b = bucket_index(xor_distance(old(self).spec_local_id(), node_id@)) as int;
                final(self).spec_table() == with_nodes(old(self).spec_table(), b,
                    entries_after_response(old(self).spec_table()[b].nodes, node_id@, now))
            }),
    {
        let distance = self.calculate_distance(&self.local_id, node_id);
        proof { lemma_distance_bound(self.local_id@, node_id@, 0); }
        let b = self.get_bucket_index(distance);
        let ghost local = self.local_id@;
        let ghost k = self.k as nat;
        let ghost t = self.spec_table();
        let mut bucket = self.take_bucket(b);
        let ghost s = bucket@.nodes;
        match position_of(&bucket.nodes, node_id) {
            Some(pos) => {
                proof { lemma_find_entry_at(s, node_id@, pos as int); }
                let mut entry = bucket.nodes[pos].duplicate();
                entry.failed_attempts = 0;
                entry.last_contact = now;
                bucket.nodes.set(pos, entry);
                assert(bucket@.nodes =~= entries_after_response(s, node_id@, now));
            },
            None => {
                assert(bucket@.nodes =~= entries_after_response(s, node_id@, now));
            },
        }
        assert(bucket_ok(local, k, b as int, bucket@));
        self.put_bucket(b, bucket);
        assert(self.spec_table() =~= with_nodes(t, b as int, entries_after_response(s, node_id@, now)));
    }

    /// Record that the node `node_id` answered now (see
    /// `mark_node_responsive_at`). A node that is not in its bucket leaves
    /// the table as it is, whatever the clock reads; otherwise the call
    /// fails, changing nothing, when the clock reads before the Unix epoch.
    pub fn mark_node_responsive(&mut self, node_id: &NodeId) -> (r: Result<(), RoutingError>)
        requires
            old(self).wf(),
        ensures
            final(self).wf(),
            final(self).spec_local_id() == old(self).spec_local_id(),
            final(self).spec_k() == old(self).spec_k(),
            failed_count(old(self).spec_table(), old(self).spec_local_id(), node_id@) is None
                ==> r is Ok && final(self).spec_table() == old(self).spec_table(),
            failed_count(old(self).spec_table(), old(self).spec_local_id(), node_id@) is Some
                ==> (r == Err::<(), RoutingError>(RoutingError::ClockBeforeEpoch) && final(self).spec_table() == old(self).spec_table())
                || (r is Ok && exists|now: u64| final(self).spec_table() == with_nodes(old(self).spec_table(),
                    bucket_index(xor_distance(old(self).spec_local_id(), node_id@)) as int,
                    #[trigger] entries_after_response(old(self).spec_table()[bucket_index(xor_distance(
                        old(self).spec_local_id(), node_id@)) as int].nodes, node_id@, now))),
    {
        if self.failed_attempts(node_id).is_none() {
            return Ok(());
        }
        match unix_time_secs() {
            Some(now) => {
                self.mark_node_responsive_at(node_id, now);
                Ok(())
            },
            None => Err(RoutingError::ClockBeforeEpoch),
        }
    }

    /// Remove the node `node_id` from the table, if it is there.
    pub fn remove_node(&mut self, node_id: &NodeId)
        requires
            old(self).wf(),
        ensures
            final(self).wf(),
            final(self).spec_local_id() == old(self).spec_local_id(),
            final(self).spec_k() == old(self).spec_k(),
            ({
                let b = bucket_index(xor_distance(old(self).spec_local_id(), node_id@)) as int;
                final(self).spec_table() == with_nodes(old(self).spec_table(), b,
                    entries_without(old(self).spec_table()[b].nodes, node_id@))
            }),
    {
        let distance = self.calculate_distance(&self.local_id, node_id);
        proof { lemma_distance_bound(self.local_id@, node_id@, 0); }
        let b = self.get_bucket_index(distance);
        let ghost local = self.local_id@;
        let ghost k = self.k as nat;
        let ghost t = self.spec_table();
        let mut bucket = self.take_bucket(b);
        let ghost s = bucket@.nodes;
        match position_of(&bucket.nodes, node_id) {
            Some(pos) => {
                proof { lemma_find_entry_at(s, node_id@, pos as int); }
                let _removed = bucket.nodes.remove(pos);
                assert(bucket@.nodes =~= entries_without(s, node_id@));
                assert forall|i: int, j: int| 0 <= i < bucket@.nodes.len() && 0 <= j < bucket@.nodes.len() && i != j
                    implies #[trigger] bucket@.nodes[i].node.id != #[trigger] bucket@.nodes[j].node.id by {
                    let si = if i < pos { i } else { i + 1 };
                    let sj = if j < pos { j } else { j + 1 };
                    assert(bucket@.nodes[i] == s[si] && bucket@.nodes[j] == s[sj]);
                }
                assert forall|e: int| 0 <= e < bucket@.nodes.len() implies {
                    &&& #[trigger] bucket@.nodes[e].node.id != local
                    &&& bucket_index(xor_distance(local, bucket@.nodes[e].node.id)) == b
                    &&& bucket@.nodes[e].distance == xor_distance(local, bucket@.nodes[e].node.id)
                } by {
                    let se = if e < pos { e } else { e + 1 };
                    assert(bucket@.nodes[e] == s[se]);
                }
            },
            None => {
                assert(bucket@.nodes =~= entries_without(s, node_id@));
            },
        }
        assert(bucket_ok(local, k, b as int, bucket@));
        self.put_bucket(b, bucket);
        assert(self.spec_table() =~= with_nodes(t, b as int, entries_without(s, node_id@)));
    }

    /// The nodes of bucket `bucket_index`, none when there is no such bucket.
    pub fn get_bucket_nodes(&self, bucket_index: usize) -> (r: Vec<&DhtNode>)
        requires
            self.wf(),
        ensures
            bucket_index < NUM_BUCKETS ==> r@.len() == self.spec_table()[bucket_index as int].nodes.len()
                && forall|i: int| 0 <= i < r@.len() ==> (#[trigger] r@[i])@ == self.spec_table()[bucket_index as int].nodes[i].node,
            bucket_index >= NUM_BUCKETS ==> r@.len() == 0,
    {
        let mut r: Vec<&DhtNode> = Vec::new();
        if bucket_index < self.routing_table.len() {
            let nodes = &self.routing_table[bucket_index].nodes;
            let ghost s = self.spec_table()[bucket_index as int].nodes;
            assert(s == entries_view(nodes@));
            for i in 0..nodes.len()
                invariant
                    s == entries_view(nodes@),
                    r@.len() == i,
                    forall|j: int| 0 <= j < i ==> (#[trigger] r@[j])@ == s[j].node,
            {
                r.push(&nodes[i].node);
            }
        }
        r
    }

    /// Routing table statistics.
    pub fn get_stats(&self) -> (st: RoutingStats)
        requires
            self.wf(),
            total_entries(self.spec_table()) <= usize::MAX,
        ensures
            st.total_nodes == total_entries(self.spec_table()),
            st.non_empty_buckets == non_empty_count(self.spec_table()),
            st.total_buckets == NUM_BUCKETS,
            st.full_buckets == full_count(self.spec_table(), self.spec_k()),
            st.k_value == self.spec_k(),
    {
        let ghost t = self.spec_table();
        let mut total: usize = 0;
        let mut non_empty: usize = 0;
        let mut full: usize = 0;
        let mut i: usize = 0;
        assert(t.take(0) =~= Seq::<KBucketView>::empty());
        while i < self.routing_table.len()
            invariant
                t == self.spec_table(),
                t.len() == NUM_BUCKETS,
                self.routing_table@.len() == NUM_BUCKETS,
                total_entries(t) <= usize::MAX,
                i <= NUM_BUCKETS,
                total == total_entries(t.take(i as int)),
                non_empty == non_empty_count(t.take(i as int)),
                full == full_count(t.take(i as int), self.k as nat),
                non_empty <= i,
                full <= i,
            decreases NUM_BUCKETS - i,
        {
            proof {
                lemma_counts_take(t, i as int, self.k as nat, 0, 0, 0);
                lemma_total_prefix(t, i as int + 1);
            }
            let n = self.routing_table[i].nodes.len();
            total = total + n;
            if n > 0 {
                non_empty = non_empty + 1;
            }
            if n >= self.k {
                full = full + 1;
            }
            i += 1;
        }
        assert(t.take(NUM_BUCKETS as int) =~= t);
        RoutingStats {
            total_nodes: total,
            non_empty_buckets: non_empty,
            total_buckets: self.routing_table.len(),
            full_buckets: full,
            k_value: self.k,
        }
    }

    /// Drop, in every bucket, the entries that failed more than
    /// `max_failed` pings; returns how many were dropped.
    pub fn perform_bucket_maintenance(&mut self, max_failed_attempts: u32) -> (removed: usize)
        requires
            old(self).wf(),
            total_entries(old(self).spec_table()) <= usize::MAX,
        ensures
            final(self).wf(),
            final(self).spec_local_id() == old(self).spec_local_id(),
            final(self).spec_k() == old(self).spec_k(),
            final(self).spec_table() == maintained(old(self).spec_table(), max_failed_attempts),
            removed == unresponsive_count(old(self).spec_table(), max_failed_attempts),
    {
        let ghost t = self.spec_table();
        let ghost local = self.local_id@;
        let ghost k = self.k as nat;
        let ghost m = maintained(t, max_failed_attempts);
        proof { lemma_unresponsive_bound(t, max_failed_attempts); }
        let mut removed: usize = 0;
        let mut b: usize = 0;
        assert(t.take(0) =~= Seq::<KBucketView>::empty());
        while b < NUM_BUCKETS
            invariant
                self.wf(),
                self.spec_local_id() == local,
                self.spec_k() == k,
                t.len() == NUM_BUCKETS,
                m == maintained(t, max_failed_attempts),
                b <= NUM_BUCKETS,
                unresponsive_count(t, max_failed_attempts) <= usize::MAX,
                removed == unresponsive_count(t.take(b as int), max_failed_attempts),
                forall|j: int| 0 <= j < b ==> #[trigger] self.spec_table()[j] == m[j],
                forall|j: int| b <= j < NUM_BUCKETS ==> #[trigger] self.spec_table()[j] == t[j],
                forall|j: int| 0 <= j < NUM_BUCKETS ==> #[trigger] bucket_ok(local, k, j, t[j]),
            decreases NUM_BUCKETS - b,
        {
            proof {
                lemma_counts_take(t, b as int, k, max_failed_attempts, 0, 0);
                lemma_unresponsive_prefix(t, max_failed_attempts, b as int + 1);
            }
            let mut bucket = self.take_bucket(b);
            let ghost bv = bucket@;
            assert(bv == t[b as int]);
            let kept = responsive_of(&bucket.nodes, max_failed_attempts);
            proof { lemma_responsive(bv.nodes, max_failed_attempts); }
            let dropped = bucket.nodes.len() - kept.len();
            bucket.nodes = kept;
            assert(bucket@ == m[b as int]);
            assert forall|e: int| 0 <= e < bucket@.nodes.len() implies {
                &&& #[trigger] bucket@.nodes[e].node.id != local
                &&& bucket_index(xor_distance(local, bucket@.nodes[e].node.id)) == b
                &&& bucket@.nodes[e].distance == xor_distance(local, bucket@.nodes[e].node.id)
            } by {
                assert(bv.nodes.contains(bucket@.nodes[e]));
            }
            self.put_bucket(b, bucket);
            removed = removed + dropped;
            b += 1;
        }
        assert(t.take(NUM_BUCKETS as int) =~= t);
        assert(self.spec_table() =~= m);
        removed
    }

    /// Indices of the buckets not updated for more than `interval` seconds
    /// at time `now`.
    pub fn get_buckets_needing_refresh_at(&self, refresh_interval_secs: u64, now: u64) -> (r: Vec<usize>)
        requires
            self.wf(),
        ensures
            r@ == stale_buckets(self.spec_table(), now, refresh_interval_secs),
    {
        let ghost t = self.spec_table();
        let mut r: Vec<usize> = Vec::new();
        let mut i: usize = 0;
        assert(t.take(0) =~= Seq::<KBucketView>::empty());
        while i < self.routing_table.len()
            invariant
                t == self.spec_table(),
                self.routing_table@.len() == NUM_BUCKETS,
                t.len() == NUM_BUCKETS,
                i <= NUM_BUCKETS,
                r@ == stale_buckets(t.take(i as int), now, refresh_interval_secs),
            decreases NUM_BUCKETS - i,
        {
            proof { lemma_counts_take(t, i as int, 0, 0, now, refresh_interval_secs); }
            let last = self.routing_table[i].last_updated;
            if now > last && now - last > refresh_interval_secs {
                r.push(i);
            }
            i += 1;
        }
        assert(t.take(NUM_BUCKETS as int) =~= t);
        r
    }

    /// Indices of the buckets not updated for more than `interval` seconds,
    /// by the current time (taken as 0 when the clock reads before the Unix
    /// epoch).
    pub fn get_buckets_needing_refresh(&self, refresh_interval_secs: u64) -> (r: Vec<usize>)
        requires
            self.wf(),
        ensures
            exists|now: u64| r@ == #[trigger] stale_buckets(self.spec_table(), now, refresh_interval_secs),
    {
        let now = match unix_time_secs() {
            Some(t) => t,
            None => 0,
        };
        self.get_buckets_needing_refresh_at(refresh_interval_secs, now)
    }

    /// The nodes nearest to `target`, at most `min(count, k)` of them: all
    /// nodes of the table sorted by distance to `target`, equally near ones
    /// in table order, cut to `min(count, k)`.
    pub fn find_closest_nodes(&self, target: &NodeId, count: usize) -> (r: Vec<DhtNode>)
        requires
            self.wf(),
        ensures
            r@.map_values(|n: DhtNode| n@) == closest_nodes(self.spec_table(), self.spec_k(), target@, count as nat),
    {
        let ghost t = self.spec_table();
        let requested = if count < self.k { count } else { self.k };
        let mut cands: Vec<&DhtNode> = Vec::new();
        assert(t.take(0) =~= Seq::<KBucketView>::empty());
        for b in 0..self.routing_table.len()
            invariant
                t == self.spec_table(),
                self.routing_table@.len() == t.len(),
                ref_views(cands@) == all_nodes(t.take(b as int)),
        {
            let nodes = &self.routing_table[b].nodes;
            let ghost s0 = entries_view(nodes@);
            let ghost base = ref_views(cands@);
            assert(s0 == t[b as int].nodes);
            assert(s0.take(0) =~= Seq::<RoutingEntryView>::empty());
            assert(node_views(s0.take(0)) =~= Seq::<DhtNodeView>::empty());
            for i in 0..nodes.len()
                invariant
                    s0 == entries_view(nodes@),
                    ref_views(cands@) == base + node_views(s0.take(i as int)),
            {
                let ghost before = cands@;
                cands.push(&nodes[i].node);
                assert(ref_views(cands@) =~= ref_views(before).push(s0[i as int].node));
                assert(node_views(s0.take(i + 1)) =~= node_views(s0.take(i as int)).push(s0[i as int].node));
            }
            assert(s0.take(nodes@.len() as int) =~= s0);
            proof { lemma_all_nodes_step(t, b as int); }
        }
        assert(t.take(t.len() as int) =~= t);
        let ghost c = ref_views(cands@);
        assert(c == all_nodes(t));
        let mut dists: Vec<u32> = Vec::new();
        for i in 0..cands.len()
            invariant
                c == ref_views(cands@),
                dists@.len() == i,
                forall|j: int| 0 <= j < i ==> #[trigger] dists@[j] == xor_distance(target@, c[j].id),
        {
            let d = self.calculate_distance(target, &cands[i].id);
            dists.push(d);
        }
        let mut sorted: Vec<&DhtNode> = Vec::new();
        for d in 0..256u32
            invariant
                c == ref_views(cands@),
                dists@.len() == cands@.len(),
                forall|j: int| 0 <= j < cands@.len() ==> #[trigger] dists@[j] == xor_distance(target@, c[j].id),
                ref_views(sorted@) == nearer_than(c, target@, d as nat),
        {
            let ghost base = ref_views(sorted@);
            assert(c.take(0) =~= Seq::<DhtNodeView>::empty());
            for i in 0..cands.len()
                invariant
                    c == ref_views(cands@),
                    dists@.len() == cands@.len(),
                    forall|j: int| 0 <= j < cands@.len() ==> #[trigger] dists@[j] == xor_distance(target@, c[j].id),
                    ref_views(sorted@) == base + at_distance(c.take(i as int), target@, d as nat),
            {
                assert(c.take(i + 1).drop_last() =~= c.take(i as int));
                if dists[i] == d {
                    let ghost before = sorted@;
                    sorted.push(cands[i]);
                    assert(ref_views(sorted@) =~= ref_views(before).push(c[i as int]));
                }
            }
            assert(c.take(cands@.len() as int) =~= c);
            assert(nearer_than(c, target@, (d + 1) as nat) == nearer_than(c, target@, d as nat) + at_distance(c, target@, d as nat));
        }
        let ghost sv = ref_views(sorted@);
        assert(sv == sorted_by_distance(c, target@));
        let n = if requested < sorted.len() { requested } else { sorted.len() };
        let mut r: Vec<DhtNode> = Vec::new();
        for i in 0..n
            invariant
                sv == ref_views(sorted@),
                n <= sorted@.len(),
                r@.map_values(|x: DhtNode| x@) == sv.take(i as int),
        {
            let ghost before = r@;
            r.push(sorted[i].duplicate());
            assert(r@.map_values(|x: DhtNode| x@) =~= before.map_values(|x: DhtNode| x@).push(sv[i as int]));
            assert(sv.take(i + 1) =~= sv.take(i as int).push(sv[i as int]));
        }
        r
    }

    /// A random-looking identifier for refreshing bucket `bucket_index`:
    /// the BLAKE3 digest of `random_id_seed(local, bucket_index, nanos)`.
    pub fn random_id_for_bucket_at(&self, bucket_index: usize, nanos: u64) -> (id: NodeId)
        ensures
            id@ == blake3_digest(random_id_seed(self.spec_local_id(), bucket_index as nat, nanos)),
    {
        let seed = random_id_seed_bytes(&self.local_id, bucket_index, nanos);
        let h = blake3_hash(seed.as_slice());
        Hash256::from_bytes(&h)
    }

    /// A random identifier for refreshing bucket `bucket_index`, with the
    /// low 64 bits of the current time in nanoseconds as randomness (0 when
    /// the clock reads before the Unix epoch).
    pub fn generate_random_id_for_bucket(&self, bucket_index: usize) -> (id: NodeId)
        ensures
            exists|nanos: u64| id@ == blake3_digest(#[trigger] random_id_seed(self.spec_local_id(), bucket_index as nat, nanos)),
    {
        let nanos: u64 = match unix_time_nanos() {
            Some(n) => n as u64,
            None => 0,
        };
        self.random_id_for_bucket_at(bucket_index, nanos)
    }

    /// XOR distance between two node identifiers.
    pub fn calculate_distance(&self, a: &NodeId, b: &NodeId) -> (d: u32)
        ensures
            d == xor_distance(a@, b@),
    {
        let a_bytes = a.as_bytes();
        let b_bytes = b.as_bytes();
        let mut i: usize = 0;
        while i < 32
            invariant
                i <= 32,
                a_bytes@ == a@,
                b_bytes@ == b@,
                a@.len() == 32,
                b@.len() == 32,
                distance_from(a@, b@, 0) == distance_from(a@, b@, i as nat),
            decreases 32 - i,
        {
            let xor = a_bytes[i] ^ b_bytes[i];
            if xor != 0 {
                let hb = highest_bit(xor);
                let d = (i as u32) * 8 + hb;
                return if d == 0 { 1 } else { d };
            }
            i += 1;
        }
        0
    }

    /// Bucket index for a distance: `min(distance, 159)`.
    pub fn get_bucket_index(&self, distance: u32) -> (b: usize)
        ensures
            b == bucket_index(distance as nat),
    {
        if distance < 159 { distance as usize } else { 159 }
    }

    /// The bucket size.
    pub fn get_k_value(&self) -> (k: usize)
        ensures
            k == self.spec_k(),
    {
        self.k
    }

    /// Whether bucket `bucket_index` exists and holds at least `k` nodes.
    pub fn is_bucket_full(&self, bucket_index: usize) -> (b: bool)
        requires
            self.wf(),
        ensures
            b == (bucket_index < self.spec_table().len()
                && self.spec_table()[bucket_index as int].nodes.len() >= self.spec_k()),
    {
        if bucket_index < self.routing_table.len() {
            self.routing_table[bucket_index].nodes.len() >= self.k
        } else {
            false
        }
    }

    /// Whether bucket `bucket_index` should be split: it is the bucket of the
    /// local node itself (bucket 0) and it is full.
    pub fn should_split_bucket(&self, bucket_index: usize) -> (b: bool)
        requires
            self.wf(),
        ensures
            b == (bucket_index == 0 && self.spec_table()[0].nodes.len() >= self.spec_k()),
    {
        proof { lemma_distance_self(self.local_id@, 0); }
        let local_distance = self.calculate_distance(&self.local_id, &self.local_id);
        let local_bucket_index = self.get_bucket_index(local_distance);
        bucket_index == local_bucket_index && self.is_bucket_full(bucket_index)
    }
}

} // verus!
