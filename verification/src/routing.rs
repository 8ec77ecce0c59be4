use vstd::prelude::*;
use rand::Rng;
use crate::errors::{RedisError, RedisErrorKind};
use crate::value::RedisValue;
use vstd::multiset::Multiset;
use crate::server::{Server, server_lt, lemma_server_lt_total, lemma_server_lt_trans};

verus! {

/// The number of hash slots a cluster partitions its key space into.
pub const REDIS_CLUSTER_SLOTS: u16 = 16384;

/// A slot range and associated node information from a topology response.
#[derive(Debug)]
pub struct SlotRange {
    /// The first slot of the range.
    pub start: u16,
    /// The last slot of the range, inclusive.
    pub end: u16,
    /// The primary server owner.
    pub primary: Server,
    /// The opaque node identifier reported by the server, for diagnostics.
    pub id: String,
    /// Replica node owners.
    pub replicas: Vec<Server>,
}

/// Two slot ranges with the same bounds, owners and identifier.
pub open spec fn range_eq(a: SlotRange, b: SlotRange) -> bool {
    a.start == b.start && a.end == b.end && a.primary == b.primary && a.id == b.id
        && a.replicas@ == b.replicas@
}

impl Clone for SlotRange {
    fn clone(&self) -> (r: SlotRange)
        ensures
            range_eq(r, *self),
    {
        let mut replicas: Vec<Server> = Vec::new();
        let mut i: usize = 0;
        while i < self.replicas.len()
            invariant
                0 <= i <= self.replicas@.len(),
                replicas@ =~= self.replicas@.take(i as int),
            decreases self.replicas@.len() - i,
        {
            replicas.push(self.replicas[i].clone());
            proof {
                assert(replicas@ =~= self.replicas@.take(i as int + 1));
            }
            i = i + 1;
        }
        proof {
            assert(self.replicas@.take(self.replicas@.len() as int) =~= self.replicas@);
        }
        SlotRange {
            start: self.start,
            end: self.end,
            primary: self.primary.clone(),
            id: self.id.clone(),
            replicas,
        }
    }
}

/// A routing table's contents are well-formed: each range is non-empty and
/// earlier ranges end strictly before later ranges begin, so the ranges are
/// sorted and pairwise non-overlapping.
pub open spec fn ranges_wf(s: Seq<SlotRange>) -> bool {
    &&& forall|i: int| 0 <= i < s.len() ==> (#[trigger] s[i]).start <= s[i].end
    &&& forall|i: int, j: int| 0 <= i < j < s.len() ==> (#[trigger] s[i]).end < (
    #[trigger] s[j]).start
}

/// A strictly ascending sequence of servers, which is therefore free of
/// duplicate identities.
pub open spec fn servers_sorted(s: Seq<Server>) -> bool {
    forall|i: int, j: int| 0 <= i < j < s.len() ==> server_lt(#[trigger] s[i], #[trigger] s[j])
}

/// The cached view of the cluster used to route commands to the nodes that
/// own their hash slots. Created empty; replaced wholesale by a successful
/// rebuild, never mutated incrementally, so a reader holding the table sees
/// either the whole old contents or the whole new contents.
#[derive(Debug)]
pub struct ClusterRouting {
    data: Vec<SlotRange>,
}

pub uninterp spec fn keyslot_of(key: Seq<u8>) -> u16;

/// Relies on `redis_protocol::redis_keyslot`: the slot of a key, a pure
/// function of the key bytes (hashing the first `{...}` tag when one is
/// present), reduced modulo the 16384-slot space by its `crc16_xmodem`.
#[verifier::external_body]
fn keyslot(key: &[u8]) -> (r: u16)
    ensures
        r == keyslot_of(key@),
        r < 16384,
{
    redis_protocol::redis_keyslot(key)
}

/// Relies on `rand::Rng::gen_range` over `0..n`: a uniformly drawn index
/// below `n`; nothing more is assumed of the draw.
#[verifier::external_body]
fn random_index(n: usize) -> (r: usize)
    requires
        n > 0,
    ensures
        r < n,
{
    rand::thread_rng().gen_range(0..n)
}

impl ClusterRouting {
    /// The table's ranges.
    pub closed spec fn view(&self) -> Seq<SlotRange> {
        self.data@
    }

    /// The table invariant: sorted, non-overlapping, non-empty ranges.
    pub open spec fn wf(&self) -> bool {
        ranges_wf(self@)
    }

    /// Create a new empty routing table: the "not yet connected" state, on
    /// which every query degrades gracefully.
    pub fn new() -> (r: ClusterRouting)
        ensures
            r@.len() == 0,
            r.wf(),
    {
        ClusterRouting { data: Vec::new() }
    }

    /// Read the number of hash slot ranges in the cluster.
    pub fn len(&self) -> (n: usize)
        ensures
            n == self@.len(),
    {
        self.data.len()
    }

    /// Read the hash slot ranges in the cluster.
    pub fn slots(&self) -> (r: &Vec<SlotRange>)
        ensures
            r@ == self@,
    {
        &self.data
    }

    /// Calculate the cluster hash slot for the provided key.
    pub fn hash_key(key: &[u8]) -> (r: u16)
        ensures
            r == keyslot_of(key@),
            r < 16384,
    {
        keyslot(key)
    }

    /// Find the primary that owns the provided hash slot by binary search:
    /// the primary of the unique range containing the slot, or nothing when
    /// the table is empty or the slot falls in a gap between ranges.
    pub fn get_server(&self, slot: u16) -> (r: Option<Server>)
        requires
            self.wf(),
        ensures
            match r {
                Some(s) => exists|i: int|
                    0 <= i < self@.len() && (#[trigger] self@[i]).start <= slot <= self@[i].end
                        && s == self@[i].primary,
                None => forall|i: int|
                    0 <= i < self@.len() ==> !((#[trigger] self@[i]).start <= slot
                        <= self@[i].end),
            },
    {
        let mut lo: usize = 0;
        let mut hi: usize = self.data.len();
        while lo < hi
            invariant
                self.wf(),
                0 <= lo <= hi <= self@.len(),
                forall|i: int| 0 <= i < lo ==> (#[trigger] self@[i]).end < slot,
                forall|i: int| hi <= i < self@.len() ==> (#[trigger] self@[i]).start > slot,
            decreases hi - lo,
        {
            let mid = lo + (hi - lo) / 2;
            if self.data[mid].end < slot {
                lo = mid + 1;
            } else if self.data[mid].start > slot {
                proof {
                    assert forall|i: int| mid <= i < self@.len() implies (
                    #[trigger] self@[i]).start > slot by {
                        if i > mid {
                            assert(self@[mid as int].end < self@[i].start);
                            assert(self@[mid as int].start <= self@[mid as int].end);
                        }
                    }
                }
                hi = mid;
            } else {
                return Some(self.data[mid].primary.clone());
            }
        }
        None
    }

    /// Read a random primary node hash slot range from the cluster cache,
    /// or nothing when the table is empty.
    pub fn random_slot(&self) -> (r: Option<SlotRange>)
        ensures
            r is Some <==> self@.len() > 0,
            match r {
                Some(x) => exists|i: int| 0 <= i < self@.len() && range_eq(x, #[trigger] self@[i]),
                None => true,
            },
    {
        if self.data.len() > 0 {
            let idx = random_index(self.data.len());
            let x = self.data[idx].clone();
            proof {
                assert(range_eq(x, self@[idx as int]));
            }
            Some(x)
        } else {
            None
        }
    }

    /// Read a random primary node from the cluster cache, or nothing when
    /// the table is empty.
    pub fn random_node(&self) -> (r: Option<Server>)
        ensures
            r is Some <==> self@.len() > 0,
            match r {
                Some(s) => exists|i: int| 0 <= i < self@.len() && s == (
                #[trigger] self@[i]).primary,
                None => true,
            },
    {
        match self.random_slot() {
            Some(range) => Some(range.primary),
            None => None,
        }
    }

    /// Read the set of unique primary nodes in the cluster: a strictly
    /// ascending, duplicate-free listing regardless of input order or of
    /// primaries repeated across ranges.
    pub fn unique_primary_nodes(&self) -> (r: Vec<Server>)
        ensures
            servers_sorted(r@),
            forall|e: Server| r@.contains(e) ==> is_primary_in(self@, e),
            forall|j: int| 0 <= j < self@.len() ==> contains_id(
                r@,
                (#[trigger] self@[j]).primary.id(),
            ),
    {
        let mut out: Vec<Server> = Vec::new();
        let mut j: usize = 0;
        while j < self.data.len()
            invariant
                servers_sorted(out@),
                0 <= j <= self@.len(),
                forall|e: Server| out@.contains(e) ==> is_primary_in(self@, e),
                forall|l: int| 0 <= l < j ==> contains_id(
                    out@,
                    (#[trigger] self@[l]).primary.id(),
                ),
            decreases self@.len() - j,
        {
            let ghost out_before = out@;
            let x = self.data[j].primary.clone();
            insert_server_sorted(&mut out, x);
            proof {
                assert forall|e: Server| out@.contains(e) implies is_primary_in(self@, e) by {
                    if out_before.contains(e) {
                    } else {
                        assert(e == x);
                        assert((#[trigger] self@[j as int]).primary == e);
                    }
                }
                assert forall|l: int| 0 <= l < j + 1 implies contains_id(
                    out@,
                    (#[trigger] self@[l]).primary.id(),
                ) by {
                    if l < j {
                        let i0 = choose|i0: int|
                            0 <= i0 < out_before.len() && (#[trigger] out_before[i0]).id()
                                == self@[l].primary.id();
                        assert(out_before.contains(out_before[i0]));
                        assert(out@.contains(out_before[i0]));
                        let i1 = choose|i1: int|
                            0 <= i1 < out@.len() && out@[i1] == out_before[i0];
                        assert(out@[i1].id() == self@[l].primary.id());
                    } else {
                        assert(contains_id(out@, x.id()));
                    }
                }
            }
            j = j + 1;
        }
        out
    }

    /// Read one representative hash slot per distinct primary: the start of
    /// the first range, in table order, owned by that primary. Used to fan
    /// commands out once per node rather than once per range.
    /// Read one representative hash slot per distinct primary: the start of
    /// the first range, in table order, owned by that primary. Used to fan
    /// commands out once per node rather than once per range.
    #[verifier::rlimit(100)]
    #[verifier::spinoff_prover]
    pub fn unique_hash_slots(&self) -> (r: Vec<u16>)
        requires
            self.wf(),
        ensures
            r@.len() <= self@.len(),
            forall|i: int| 0 <= i < r@.len() ==> first_start_in(self@, #[trigger] r@[i]),
            forall|j: int|
                first_owned(self@, j) ==> r@.contains((#[trigger] self@[j]).start),
            forall|i1: int, i2: int| 0 <= i1 < i2 < r@.len() ==> r@[i1] != r@[i2],
    {
        let mut out: Vec<u16> = Vec::new();
        let mut seen: Vec<Server> = Vec::new();
        let mut j: usize = 0;
        while j < self.data.len()
            invariant
                self.wf(),
                0 <= j <= self@.len(),
                out@.len() <= j,
                forall|t: int| 0 <= t < seen@.len() ==> id_in_prefix(
                    self@,
                    j as int,
                    (#[trigger] seen@[t]).id(),
                ),
                forall|l: int| 0 <= l < j ==> contains_id(
                    seen@,
                    (#[trigger] self@[l]).primary.id(),
                ),
                forall|i: int| 0 <= i < out@.len() ==> first_start_in(
                    self@,
                    #[trigger] out@[i],
                ),
                forall|l: int|
                    0 <= l < j && first_owned(self@, l) ==> out@.contains(
                        (#[trigger] self@[l]).start,
                    ),
                forall|i: int| 0 <= i < out@.len() ==> start_in_prefix(
                    self@,
                    j as int,
                    #[trigger] out@[i],
                ),
                forall|i1: int, i2: int| 0 <= i1 < i2 < out@.len() ==> out@[i1] != out@[i2],
            decreases self@.len() - j,
        {
            let ghost out_before = out@;
            let ghost seen_before = seen@;
            let found = id_seen(&seen, &self.data[j].primary);
            if !found {
                proof {
                    lemma_unseen_is_first_owned(self@, seen@, j as int);
                }
                out.push(self.data[j].start);
                proof {
                    assert(out@[out@.len() - 1] == (#[trigger] self@[j as int]).start);
                    assert(first_start_in(self@, self@[j as int].start));
                    assert(start_in_prefix(self@, j as int + 1, self@[j as int].start));
                    // earlier representatives come from earlier ranges, whose
                    // starting slots are strictly below this range's start
                    assert forall|i: int| 0 <= i < out@.len() - 1 implies start_in_prefix(
                        self@,
                        j as int + 1,
                        #[trigger] out@[i],
                    ) && out@[i] != self@[j as int].start by {
                        assert(out@[i] == out_before[i]);
                        let l = choose|l: int|
                            0 <= l < j && #[trigger] out_before[i] == self@[l].start;
                        assert(self@[l].end < self@[j as int].start);
                        assert(self@[l].start <= self@[l].end);
                    }
                    assert forall|l: int|
                        0 <= l < j + 1 && first_owned(self@, l) implies out@.contains(
                        (#[trigger] self@[l]).start,
                    ) by {
                        if l < j {
                            let i0 = choose|i0: int|
                                0 <= i0 < out_before.len() && out_before[i0] == self@[l].start;
                            assert(out@[i0] == self@[l].start);
                        } else {
                            assert(out@[out@.len() - 1] == self@[l].start);
                        }
                    }
                }
            } else {
                proof {
                    lemma_seen_is_not_first_owned(self@, seen@, j as int);
                    assert forall|i: int| 0 <= i < out@.len() implies start_in_prefix(
                        self@,
                        j as int + 1,
                        #[trigger] out@[i],
                    ) by {
                        let l = choose|l: int|
                            0 <= l < j && #[trigger] out@[i] == self@[l].start;
                    }
                }
            }
            seen.push(self.data[j].primary.clone());
            proof {
                lemma_seen_push_prefix(self@, seen_before, seen@, j as int);
            }
            j = j + 1;
        }
        out
    }

    /// Read the replicas associated with the provided primary node: the
    /// deduplicated, strictly ascending union of the replica lists of every
    /// range the primary owns.
    pub fn replicas(&self, primary: &Server) -> (r: Vec<Server>)
        ensures
            servers_sorted(r@),
            forall|e: Server| r@.contains(e) ==> is_replica_under(self@, primary.id(), e),
            forall|j: int, l: int|
                #![trigger self@[j].replicas@[l]]
                0 <= j < self@.len() && self@[j].primary.id() == primary.id() && 0 <= l
                    < self@[j].replicas@.len() ==> contains_id(
                    r@,
                    self@[j].replicas@[l].id(),
                ),
    {
        let mut out: Vec<Server> = Vec::new();
        let mut j: usize = 0;
        while j < self.data.len()
            invariant
                servers_sorted(out@),
                0 <= j <= self@.len(),
                forall|e: Server| out@.contains(e) ==> is_replica_under(self@, primary.id(), e),
                forall|j0: int, l0: int|
                    #![trigger self@[j0].replicas@[l0]]
                    0 <= j0 < j && self@[j0].primary.id() == primary.id() && 0 <= l0
                        < self@[j0].replicas@.len() ==> contains_id(
                        out@,
                        self@[j0].replicas@[l0].id(),
                    ),
            decreases self@.len() - j,
        {
            if self.data[j].primary == *primary {
                let mut l: usize = 0;
                while l < self.data[j].replicas.len()
                    invariant
                        servers_sorted(out@),
                        0 <= j < self@.len(),
                        self@[j as int].primary.id() == primary.id(),
                        0 <= l <= self@[j as int].replicas@.len(),
                        forall|e: Server| out@.contains(e) ==> is_replica_under(
                            self@,
                            primary.id(),
                            e,
                        ),
                        forall|j0: int, l0: int|
                            #![trigger self@[j0].replicas@[l0]]
                            0 <= j0 < j && self@[j0].primary.id() == primary.id() && 0 <= l0
                                < self@[j0].replicas@.len() ==> contains_id(
                                out@,
                                self@[j0].replicas@[l0].id(),
                            ),
                        forall|l0: int|
                            #![trigger self@[j as int].replicas@[l0]]
                            0 <= l0 < l ==> contains_id(
                                out@,
                                self@[j as int].replicas@[l0].id(),
                            ),
                    decreases self@[j as int].replicas@.len() - l,
                {
                    let ghost out_before = out@;
                    let x = self.data[j].replicas[l].clone();
                    proof {
                        assert(x == self@[j as int].replicas@[l as int]);
                    }
                    insert_server_sorted(&mut out, x);
                    proof {
                        assert forall|e: Server| out@.contains(e) implies is_replica_under(
                            self@,
                            primary.id(),
                            e,
                        ) by {
                            if out_before.contains(e) {
                            } else {
                                assert(e == x);
                                assert(e == self@[j as int].replicas@[l as int]);
                            }
                        }
                        assert forall|j0: int, l0: int|
                            #![trigger self@[j0].replicas@[l0]]
                            (0 <= j0 < j && self@[j0].primary.id() == primary.id() && 0 <= l0
                                < self@[j0].replicas@.len()) || (j0 == j && l0 == l) implies
                        contains_id(out@, self@[j0].replicas@[l0].id()) by {
                            if j0 == j && l0 == l {
                                assert(contains_id(out@, x.id()));
                            } else {
                                let i0 = choose|i0: int|
                                    0 <= i0 < out_before.len() && (
                                    #[trigger] out_before[i0]).id()
                                        == self@[j0].replicas@[l0].id();
                                assert(out_before.contains(out_before[i0]));
                                assert(out@.contains(out_before[i0]));
                                let i1 = choose|i1: int|
                                    0 <= i1 < out@.len() && out@[i1] == out_before[i0];
                                assert(out@[i1].id() == self@[j0].replicas@[l0].id());
                            }
                        }
                        assert forall|l0: int|
                            #![trigger self@[j as int].replicas@[l0]]
                            0 <= l0 < l + 1 implies contains_id(
                            out@,
                            self@[j as int].replicas@[l0].id(),
                        ) by {
                            if l0 < l {
                                let i0 = choose|i0: int|
                                    0 <= i0 < out_before.len() && (
                                    #[trigger] out_before[i0]).id() == self@[
                                        j as int].replicas@[l0].id();
                                assert(out_before.contains(out_before[i0]));
                                assert(out@.contains(out_before[i0]));
                                let i1 = choose|i1: int|
                                    0 <= i1 < out@.len() && out@[i1] == out_before[i0];
                                assert(out@[i1].id() == self@[j as int].replicas@[l0].id());
                            } else {
                                assert(contains_id(out@, x.id()));
                            }
                        }
                    }
                    l = l + 1;
                }
            }
            proof {
                assert forall|j0: int, l0: int|
                    #![trigger self@[j0].replicas@[l0]]
                    0 <= j0 < j + 1 && self@[j0].primary.id() == primary.id() && 0 <= l0
                        < self@[j0].replicas@.len() implies contains_id(
                    out@,
                    self@[j0].replicas@[l0].id(),
                ) by {}
            }
            j = j + 1;
        }
        out
    }
}

/// A well-formed table assigns each slot at most one owner: two ranges
/// that both contain a slot are the same range, so the primary that
/// `get_server` finds is the primary of the unique containing range.
pub proof fn lemma_unique_owner(s: Seq<SlotRange>, slot: u16, i: int, j: int)
    requires
        ranges_wf(s),
        0 <= i < s.len(),
        0 <= j < s.len(),
        s[i].start <= slot <= s[i].end,
        s[j].start <= slot <= s[j].end,
    ensures
        i == j,
{
    if i < j {
        assert(s[i].end < s[j].start);
    } else if j < i {
        assert(s[j].end < s[i].start);
    }
}

/// Whether a server of this identity has been recorded.
fn id_seen(seen: &Vec<Server>, s: &Server) -> (r: bool)
    ensures
        r == contains_id(seen@, s.id()),
{
    let mut t: usize = 0;
    while t < seen.len()
        invariant
            0 <= t <= seen@.len(),
            forall|u: int| 0 <= u < t ==> (#[trigger] seen@[u]).id() != s.id(),
        decreases seen@.len() - t,
    {
        if &seen[t] == s {
            proof {
                assert((#[trigger] seen@[t as int]).id() == s.id());
            }
            return true;
        }
        t = t + 1;
    }
    false
}

/// A primary whose identity is not yet recorded owns its first range: all
/// earlier primaries are recorded, so none shares the identity.
proof fn lemma_unseen_is_first_owned(table: Seq<SlotRange>, seen: Seq<Server>, j: int)
    requires
        0 <= j < table.len(),
        forall|l: int| 0 <= l < j ==> contains_id(seen, (#[trigger] table[l]).primary.id()),
        !contains_id(seen, table[j].primary.id()),
    ensures
        first_owned(table, j),
{
    assert forall|k: int| 0 <= k < j implies (#[trigger] table[k]).primary.id()
        != table[j].primary.id() by {
        let u = choose|u: int|
            0 <= u < seen.len() && (#[trigger] seen[u]).id() == table[k].primary.id();
    }
}

/// A primary whose identity is recorded does not own its first range: the
/// record stems from an earlier range of the same identity.
proof fn lemma_seen_is_not_first_owned(table: Seq<SlotRange>, seen: Seq<Server>, j: int)
    requires
        0 <= j < table.len(),
        forall|t: int| 0 <= t < seen.len() ==> id_in_prefix(
            table,
            j,
            (#[trigger] seen[t]).id(),
        ),
        contains_id(seen, table[j].primary.id()),
    ensures
        !first_owned(table, j),
{
    let u = choose|u: int|
        0 <= u < seen.len() && (#[trigger] seen[u]).id() == table[j].primary.id();
    let l = choose|l: int| 0 <= l < j && (#[trigger] table[l]).primary.id() == seen[u].id();
    assert(table[l].primary.id() == table[j].primary.id());
}

/// Recording range `j`'s primary keeps both bookkeeping facts: every
/// record stems from a processed range, and every processed range is
/// recorded.
proof fn lemma_seen_push_prefix(
    table: Seq<SlotRange>,
    before: Seq<Server>,
    after: Seq<Server>,
    j: int,
)
    requires
        0 <= j < table.len(),
        after == before.push(table[j].primary),
        forall|t: int| 0 <= t < before.len() ==> id_in_prefix(
            table,
            j,
            (#[trigger] before[t]).id(),
        ),
        forall|l: int| 0 <= l < j ==> contains_id(before, (#[trigger] table[l]).primary.id()),
    ensures
        forall|t: int| 0 <= t < after.len() ==> id_in_prefix(
            table,
            j + 1,
            (#[trigger] after[t]).id(),
        ),
        forall|l: int| 0 <= l < j + 1 ==> contains_id(after, (#[trigger] table[l]).primary.id()),
{
    assert(after[after.len() - 1] == table[j].primary);
    assert forall|t: int| 0 <= t < after.len() implies id_in_prefix(
        table,
        j + 1,
        (#[trigger] after[t]).id(),
    ) by {
        if t < after.len() - 1 {
            assert(after[t] == before[t]);
            let l = choose|l: int|
                0 <= l < j && (#[trigger] table[l]).primary.id() == before[t].id();
            assert(table[l].primary.id() == after[t].id());
        } else {
            assert(table[j].primary.id() == after[t].id());
        }
    }
    assert forall|l: int| 0 <= l < j + 1 implies contains_id(
        after,
        (#[trigger] table[l]).primary.id(),
    ) by {
        if l < j {
            let u = choose|u: int|
                0 <= u < before.len() && (#[trigger] before[u]).id() == table[l].primary.id();
            assert(after[u].id() == table[l].primary.id());
        } else {
            assert(after[after.len() - 1].id() == table[l].primary.id());
        }
    }
}

/// Range `j` is the first range, in table order, owned by its primary.
pub open spec fn first_owned(s: Seq<SlotRange>, j: int) -> bool {
    0 <= j < s.len() && forall|k: int|
        0 <= k < j ==> (#[trigger] s[k]).primary.id() != s[j].primary.id()
}

/// `v` is the starting slot of the first range owned by some primary.
pub open spec fn first_start_in(s: Seq<SlotRange>, v: u16) -> bool {
    exists|j: int| #[trigger] first_owned(s, j) && v == s[j].start
}

/// One of the first `j` ranges begins at this slot.
pub open spec fn start_in_prefix(s: Seq<SlotRange>, j: int, v: u16) -> bool {
    exists|l: int| 0 <= l < j && v == (#[trigger] s[l]).start
}

/// An earlier range than `j` is owned by a primary of the given identity.
pub open spec fn id_in_prefix(s: Seq<SlotRange>, j: int, id: (Seq<char>, u16)) -> bool {
    exists|l: int| 0 <= l < j && (#[trigger] s[l]).primary.id() == id
}

/// Some range of the table has this very server as its primary.
pub open spec fn is_primary_in(s: Seq<SlotRange>, e: Server) -> bool {
    exists|j: int| 0 <= j < s.len() && (#[trigger] s[j]).primary == e
}

/// Some range owned by a primary of the given identity lists this very
/// server as a replica.
pub open spec fn is_replica_under(s: Seq<SlotRange>, id: (Seq<char>, u16), e: Server) -> bool {
    exists|j: int, l: int|
        #![trigger s[j].replicas@[l]]
        0 <= j < s.len() && s[j].primary.id() == id && 0 <= l < s[j].replicas@.len() && e
            == s[j].replicas@[l]
}

/// Some listed server has the given identity.
pub open spec fn contains_id(s: Seq<Server>, id: (Seq<char>, u16)) -> bool {
    exists|i: int| 0 <= i < s.len() && (#[trigger] s[i]).id() == id
}

/// Insert a server into a strictly ascending listing, keeping it strictly
/// ascending; an already-listed identity is left as it stands.
pub fn insert_server_sorted(v: &mut Vec<Server>, x: Server)
    requires
        servers_sorted(old(v)@),
    ensures
        servers_sorted(final(v)@),
        forall|e: Server| old(v)@.contains(e) ==> final(v)@.contains(e),
        forall|e: Server| final(v)@.contains(e) ==> old(v)@.contains(e) || e == x,
        contains_id(final(v)@, x.id()),
{
    let ghost orig = v@;
    let mut idx: usize = 0;
    while idx < v.len() && server_cmp_lt_ref(&v[idx], &x)
        invariant
            servers_sorted(v@),
            v@ == orig,
            0 <= idx <= v@.len(),
            forall|i: int| 0 <= i < idx ==> server_lt(#[trigger] v@[i], x),
        decreases v@.len() - idx,
    {
        idx = idx + 1;
    }
    if idx < v.len() {
        let same = v[idx] == x;
        if same {
            proof {
                assert((#[trigger] v@[idx as int]).id() == x.id());
                assert(contains_id(v@, x.id()));
            }
            return ;
        }
        proof {
            lemma_server_lt_total(orig[idx as int], x);
            assert(server_lt(x, orig[idx as int]));
        }
    }
    v.insert(idx, x);
    proof {
        let cur = v@;
        assert(cur =~= orig.insert(idx as int, x));
        assert(cur[idx as int] == x);
        assert forall|i: int, j: int| 0 <= i < j < cur.len() implies server_lt(
            #[trigger] cur[i],
            #[trigger] cur[j],
        ) by {
            if i < idx {
                assert(cur[i] == orig[i]);
            }
            if i > idx {
                assert(cur[i] == orig[i - 1]);
            }
            if j < idx {
                assert(cur[j] == orig[j]);
            }
            if j > idx {
                assert(cur[j] == orig[j - 1]);
            }
            if j == idx {
                // i < idx, so orig[i] is below x by the scan
            } else if i == idx {
                // x is below orig[idx] and orig is sorted
                if j - 1 > idx {
                    lemma_server_lt_trans(x, orig[idx as int], orig[j - 1]);
                }
            } else if i < idx && j > idx {
                if j - 1 == i {
                    assert(i == idx - 1 && j - 1 == idx && idx < orig.len());
                    assert(server_lt(cur[i], x));
                    assert(server_lt(x, orig[idx as int]));
                    lemma_server_lt_trans(orig[i], x, orig[idx as int]);
                }
            }
        }
        assert forall|e: Server| orig.contains(e) implies cur.contains(e) by {
            let k = choose|k: int| 0 <= k < orig.len() && orig[k] == e;
            if k < idx {
                assert(cur[k] == e);
            } else {
                assert(cur[k + 1] == e);
            }
        }
        assert forall|e: Server| cur.contains(e) implies orig.contains(e) || e == x by {
            let k = choose|k: int| 0 <= k < cur.len() && cur[k] == e;
            if k < idx {
                assert(orig[k] == e);
            } else if k > idx {
                assert(orig[k - 1] == e);
            }
        }
        assert(contains_id(cur, x.id()));
    }
}

// ---------------------------------------------------------------------------
// Rebuilding the table from a topology response.
//
// A topology response is a nested array: one entry per slot range, each
// entry an array of the two slot bounds, the primary node and any replica
// nodes; a node is an array of a host, a port and, on newer servers, an
// opaque node identifier. A node reporting an empty host means "the host
// that sent this response" and is given the fallback host.
// ---------------------------------------------------------------------------

/// A well-shaped node element of a topology entry.
pub open spec fn node_wf(v: RedisValue) -> bool {
    &&& v matches RedisValue::Array(items)
    &&& items@.len() >= 2
    &&& items@[0] is String
    &&& items@[1] matches RedisValue::Integer(p) && 0 <= p <= 65535
}

/// The host a node element names, after empty-host substitution.
pub open spec fn node_host(v: RedisValue, fallback: Seq<char>) -> Seq<char>
    recommends
        node_wf(v),
{
    let h = v->Array_0@[0]->String_0@;
    if h.len() == 0 {
        fallback
    } else {
        h
    }
}

/// The port a node element names.
pub open spec fn node_port(v: RedisValue) -> int
    recommends
        node_wf(v),
{
    v->Array_0@[1]->Integer_0 as int
}

/// The opaque node identifier, empty when the server reports none.
pub open spec fn node_id_of(v: RedisValue) -> Seq<char> {
    if v matches RedisValue::Array(items) && items@.len() >= 3 && items@[2] is String {
        v->Array_0@[2]->String_0@
    } else {
        Seq::empty()
    }
}

/// A server decoded from a node element: its host and port, with no TLS
/// name yet.
pub open spec fn node_matches(v: RedisValue, fallback: Seq<char>, s: Server) -> bool {
    &&& s.host@ == node_host(v, fallback)
    &&& s.port as int == node_port(v)
    &&& s.tls_server_name is None
}

/// A well-shaped topology entry: two slot bounds and at least a primary
/// node, followed by replica nodes.
pub open spec fn entry_wf(v: RedisValue) -> bool {
    &&& v matches RedisValue::Array(items)
    &&& items@.len() >= 3
    &&& items@[0] matches RedisValue::Integer(s) && 0 <= s <= 16383
    &&& items@[1] matches RedisValue::Integer(e) && 0 <= e <= 16383
    &&& node_wf(items@[2])
    &&& forall|l: int| 3 <= l < items@.len() ==> node_wf(#[trigger] items@[l])
}

/// The slot range a topology entry decodes to.
pub open spec fn entry_matches(v: RedisValue, fallback: Seq<char>, r: SlotRange) -> bool {
    &&& v matches RedisValue::Array(items)
    &&& items@.len() >= 3
    &&& r.start as int == items@[0]->Integer_0
    &&& r.end as int == items@[1]->Integer_0
    &&& node_matches(items@[2], fallback, r.primary)
    &&& r.id@ == node_id_of(items@[2])
    &&& r.replicas@.len() == items@.len() - 3
    &&& forall|l: int|
        0 <= l < r.replicas@.len() ==> node_matches(
            items@[3 + l],
            fallback,
            #[trigger] r.replicas@[l],
        )
}

/// A well-shaped topology response: an array of well-shaped entries.
pub open spec fn response_wf(v: RedisValue) -> bool {
    &&& v matches RedisValue::Array(entries)
    &&& forall|i: int| 0 <= i < entries@.len() ==> entry_wf(#[trigger] entries@[i])
}

/// The ranges a topology response decodes to, entry by entry.
pub open spec fn response_matches(v: RedisValue, fallback: Seq<char>, p: Seq<SlotRange>) -> bool {
    &&& v matches RedisValue::Array(entries)
    &&& p.len() == entries@.len()
    &&& forall|i: int|
        0 <= i < p.len() ==> entry_matches(entries@[i], fallback, #[trigger] p[i])
}

/// Decode one node element, substituting the fallback host for an empty
/// reported host.
pub fn parse_node(v: &RedisValue, default_host: &str) -> (r: Result<(Server, String), RedisError>)
    ensures
        r is Ok <==> node_wf(*v),
        r matches Ok(p) ==> node_matches(*v, default_host@, p.0) && p.1@ == node_id_of(*v),
        r matches Err(e) ==> e.kind == RedisErrorKind::Protocol,
{
    match v {
        RedisValue::Array(items) => {
            if items.len() < 2 {
                return Err(
                    RedisError::new(
                        RedisErrorKind::Protocol,
                        "Invalid topology entry. Expected a host and port.",
                    ),
                );
            }
            match (&items[0], &items[1]) {
                (RedisValue::String(host_text), RedisValue::Integer(port)) => {
                    let port = *port;
                    if port < 0 || port > 65535 {
                        return Err(
                            RedisError::new(
                                RedisErrorKind::Protocol,
                                "Invalid topology entry. Expected a valid port.",
                            ),
                        );
                    }
                    let host = if host_text.as_str().is_empty() {
                        default_host.to_owned()
                    } else {
                        host_text.clone()
                    };
                    let id: String = if items.len() >= 3 {
                        match &items[2] {
                            RedisValue::String(text) => text.clone(),
                            _ => String::new(),
                        }
                    } else {
                        String::new()
                    };
                    Ok((Server { host, port: port as u16, tls_server_name: None }, id))
                },
                _ => Err(
                    RedisError::new(
                        RedisErrorKind::Protocol,
                        "Invalid topology entry. Expected a host and port.",
                    ),
                ),
            }
        },
        _ => Err(
            RedisError::new(
                RedisErrorKind::Protocol,
                "Invalid topology entry. Expected an array.",
            ),
        ),
    }
}

/// Decode one topology entry into a slot range.
pub fn parse_entry(v: &RedisValue, default_host: &str) -> (r: Result<SlotRange, RedisError>)
    ensures
        r is Ok <==> entry_wf(*v),
        r matches Ok(out) ==> entry_matches(*v, default_host@, out),
        r matches Err(e) ==> e.kind == RedisErrorKind::Protocol,
{
    match v {
        RedisValue::Array(items) => {
            if items.len() < 3 {
                return Err(
                    RedisError::new(
                        RedisErrorKind::Protocol,
                        "Invalid topology entry. Expected bounds and a primary node.",
                    ),
                );
            }
            let start: u16 = match &items[0] {
                RedisValue::Integer(n) => {
                    let n = *n;
                    if n < 0 || n > 16383 {
                        return Err(
                            RedisError::new(
                                RedisErrorKind::Protocol,
                                "Invalid topology entry. Expected a hash slot.",
                            ),
                        );
                    }
                    n as u16
                },
                _ => {
                    return Err(
                        RedisError::new(
                            RedisErrorKind::Protocol,
                            "Invalid topology entry. Expected a hash slot.",
                        ),
                    );
                },
            };
            let end: u16 = match &items[1] {
                RedisValue::Integer(n) => {
                    let n = *n;
                    if n < 0 || n > 16383 {
                        return Err(
                            RedisError::new(
                                RedisErrorKind::Protocol,
                                "Invalid topology entry. Expected a hash slot.",
                            ),
                        );
                    }
                    n as u16
                },
                _ => {
                    return Err(
                        RedisError::new(
                            RedisErrorKind::Protocol,
                            "Invalid topology entry. Expected a hash slot.",
                        ),
                    );
                },
            };
            let (primary, id) = match parse_node(&items[2], default_host) {
                Ok(x) => x,
                Err(e) => {
                    return Err(e);
                },
            };
            let mut replicas: Vec<Server> = Vec::new();
            let mut l: usize = 3;
            while l < items.len()
                invariant
                    v matches RedisValue::Array(vitems) && vitems@ == items@,
                    items@.len() >= 3,
                    3 <= l <= items@.len(),
                    replicas@.len() == l - 3,
                    forall|t: int|
                        0 <= t < replicas@.len() ==> node_matches(
                            items@[3 + t],
                            default_host@,
                            #[trigger] replicas@[t],
                        ),
                    forall|t: int| 3 <= t < l ==> node_wf(#[trigger] items@[t]),
                decreases items@.len() - l,
            {
                match parse_node(&items[l], default_host) {
                    Ok((srv, _node_id)) => {
                        replicas.push(srv);
                    },
                    Err(e) => {
                        proof {
                            assert(!node_wf(items@[l as int]));
                            assert(!entry_wf(*v));
                        }
                        return Err(e);
                    },
                }
                l = l + 1;
            }
            let out = SlotRange { start, end, primary, id, replicas };
            proof {
                assert(entry_wf(*v));
                assert(entry_matches(*v, default_host@, out));
            }
            Ok(out)
        },
        _ => Err(
            RedisError::new(
                RedisErrorKind::Protocol,
                "Invalid topology entry. Expected an array.",
            ),
        ),
    }
}

/// Decode a whole topology response into slot ranges, entry by entry.
pub fn parse_cluster_slots(v: &RedisValue, default_host: &str) -> (r: Result<
    Vec<SlotRange>,
    RedisError,
>)
    ensures
        r is Ok <==> response_wf(*v),
        r matches Ok(out) ==> response_matches(*v, default_host@, out@),
        r matches Err(e) ==> e.kind == RedisErrorKind::Protocol,
{
    match v {
        RedisValue::Array(entries) => {
            let mut out: Vec<SlotRange> = Vec::new();
            let mut i: usize = 0;
            while i < entries.len()
                invariant
                    v matches RedisValue::Array(ventries) && ventries@ == entries@,
                    0 <= i <= entries@.len(),
                    out@.len() == i,
                    forall|t: int|
                        0 <= t < out@.len() ==> entry_matches(
                            entries@[t],
                            default_host@,
                            #[trigger] out@[t],
                        ),
                    forall|t: int| 0 <= t < i ==> entry_wf(#[trigger] entries@[t]),
                decreases entries@.len() - i,
            {
                match parse_entry(&entries[i], default_host) {
                    Ok(range) => {
                        out.push(range);
                    },
                    Err(e) => {
                        proof {
                            assert(!entry_wf(entries@[i as int]));
                            assert(!response_wf(*v));
                        }
                        return Err(e);
                    },
                }
                i = i + 1;
            }
            proof {
                assert(response_wf(*v));
                assert(response_matches(*v, default_host@, out@));
            }
            Ok(out)
        },
        _ => Err(
            RedisError::new(
                RedisErrorKind::Protocol,
                "Invalid topology response. Expected an array.",
            ),
        ),
    }
}

/// Non-decreasing order of range starting slots.
pub open spec fn ranges_sorted(s: Seq<SlotRange>) -> bool {
    forall|i: int, j: int|
        0 <= i < j < s.len() ==> (#[trigger] s[i]).start <= (#[trigger] s[j]).start
}

/// Sort ranges ascending by their starting slot, keeping exactly the same
/// collection of ranges.
#[verifier::rlimit(50)]
pub fn sort_ranges(v: &mut Vec<SlotRange>)
    ensures
        ranges_sorted(final(v)@),
        final(v)@.to_multiset() == old(v)@.to_multiset(),
{
    broadcast use vstd::seq_lib::group_to_multiset_ensures;

    let ghost orig = v@;
    let mut out: Vec<SlotRange> = Vec::new();
    proof {
        assert(out@.to_multiset().add(v@.to_multiset()) =~= orig.to_multiset());
    }
    while v.len() > 0
        invariant
            out@.to_multiset().add(v@.to_multiset()) == orig.to_multiset(),
            ranges_sorted(out@),
            forall|i: int, j: int|
                0 <= i < out@.len() && 0 <= j < v@.len() ==> (#[trigger] out@[i]).start <= (
                #[trigger] v@[j]).start,
        decreases v@.len(),
    {
        let mut m: usize = 0;
        let mut k: usize = 1;
        while k < v.len()
            invariant
                v@.len() > 0,
                0 <= m < v@.len(),
                1 <= k <= v@.len(),
                forall|t: int| 0 <= t < k ==> v@[m as int].start <= (#[trigger] v@[t]).start,
            decreases v@.len() - k,
        {
            if v[k].start < v[m].start {
                m = k;
            }
            k = k + 1;
        }
        let ghost v_before = v@;
        let ghost out_before = out@;
        let x = v.remove(m);
        out.push(x);
        proof {
            assert(x == v_before[m as int]);
            assert(v_before.contains(x));
            v_before.to_multiset_ensures();
            out_before.to_multiset_ensures();
            assert(v@ == v_before.remove(m as int));
            assert(v_before.remove(m as int).to_multiset() =~= v_before.to_multiset().remove(x));
            assert(out@ == out_before.push(x));
            assert(out_before.push(x).to_multiset() =~= out_before.to_multiset().insert(x));
            assert(v_before.to_multiset().count(x) > 0);
            assert(out@.to_multiset().add(v@.to_multiset()) =~= orig.to_multiset());
            assert forall|i: int, j: int|
                0 <= i < out@.len() && 0 <= j < v@.len() implies (#[trigger] out@[i]).start <= (
            #[trigger] v@[j]).start by {
                assert(v@[j] == v_before[if j < m { j } else { j + 1 }]);
                if i < out@.len() - 1 {
                } else {
                    assert(out@[i] == x);
                }
            }
            assert forall|i: int, j: int| 0 <= i < j < out@.len() implies (
            #[trigger] out@[i]).start <= (#[trigger] out@[j]).start by {
                if j == out@.len() - 1 {
                    assert(v_before.contains(x));
                }
            }
        }
    }
    proof {
        assert(v@ =~= Seq::<SlotRange>::empty());
        assert(v@.to_multiset() =~= Multiset::<SlotRange>::empty());
        assert(out@.to_multiset() =~= orig.to_multiset());
    }
    *v = out;
}

// ---------------------------------------------------------------------------
// When a rebuild is owed success: exactly when the response is well-shaped
// and its stated slot ranges are non-empty and pairwise disjoint, so that
// some ordering of them forms a well-formed table. Disjointness is a
// property of the collection, indifferent to order, which lets the success
// condition be read off the response itself.
// ---------------------------------------------------------------------------

/// The starting slot a topology entry states.
pub open spec fn entry_start(v: RedisValue) -> int
    recommends
        entry_wf(v),
{
    v->Array_0@[0]->Integer_0 as int
}

/// The last slot a topology entry states.
pub open spec fn entry_end(v: RedisValue) -> int
    recommends
        entry_wf(v),
{
    v->Array_0@[1]->Integer_0 as int
}

/// The response's slot ranges are non-empty and pairwise disjoint.
pub open spec fn response_ranges_disjoint(v: RedisValue) -> bool {
    &&& v matches RedisValue::Array(entries)
    &&& forall|i: int|
        0 <= i < entries@.len() ==> entry_start(#[trigger] entries@[i]) <= entry_end(
            entries@[i],
        )
    &&& forall|i: int, j: int|
        0 <= i < j < entries@.len() ==> entry_end(#[trigger] entries@[i]) < entry_start(
            #[trigger] entries@[j],
        ) || entry_end(entries@[j]) < entry_start(entries@[i])
}

/// Decoded ranges that are non-empty and pairwise disjoint, in any order.
pub open spec fn ranges_disjoint(s: Seq<SlotRange>) -> bool {
    &&& forall|i: int| 0 <= i < s.len() ==> (#[trigger] s[i]).start <= s[i].end
    &&& forall|i: int, j: int|
        0 <= i < j < s.len() ==> (#[trigger] s[i]).end < (#[trigger] s[j]).start || s[j].end
            < s[i].start
}

/// Two positions holding one value put its count at two or more.
proof fn lemma_two_indices_count(s: Seq<SlotRange>, i: int, j: int)
    requires
        0 <= i < j < s.len(),
        s[i] == s[j],
    ensures
        s.to_multiset().count(s[i]) >= 2,
{
    broadcast use vstd::multiset::group_multiset_axioms;

    s.to_multiset_ensures();
    let r = s.remove(i);
    r.to_multiset_ensures();
    assert(r.to_multiset() =~= s.to_multiset().remove(s[i]));
    assert(r[j - 1] == s[j]);
    assert(r.contains(s[i]));
    assert(r.to_multiset().count(s[i]) > 0);
    assert(s.to_multiset().remove(s[i]).count(s[i]) == s.to_multiset().count(s[i]) - 1);
}

/// A count of two or more puts one value at two distinct positions.
proof fn lemma_count_two_indices(s: Seq<SlotRange>, x: SlotRange)
    requires
        s.to_multiset().count(x) >= 2,
    ensures
        exists|i: int, j: int|
            #![trigger s[i], s[j]]
            0 <= i < s.len() && 0 <= j < s.len() && i != j && s[i] == x && s[j] == x,
{
    broadcast use vstd::multiset::group_multiset_axioms;

    s.to_multiset_ensures();
    assert(s.contains(x));
    let a = choose|a: int| 0 <= a < s.len() && s[a] == x;
    let r = s.remove(a);
    r.to_multiset_ensures();
    assert(r.to_multiset() =~= s.to_multiset().remove(x));
    assert(r.to_multiset().count(x) >= 1);
    assert(r.contains(x));
    let b0 = choose|b0: int| 0 <= b0 < r.len() && r[b0] == x;
    let b = if b0 < a {
        b0
    } else {
        b0 + 1
    };
    assert(s[b] == x);
    assert(s[a] == x);
    assert(a != b);
}

/// Disjointness depends on the collection of ranges alone, not on their
/// order: it carries across any two sequences with the same multiset.
proof fn lemma_disjoint_transfer(a: Seq<SlotRange>, b: Seq<SlotRange>)
    requires
        ranges_disjoint(a),
        a.to_multiset() == b.to_multiset(),
    ensures
        ranges_disjoint(b),
{
    broadcast use vstd::multiset::group_multiset_axioms;

    a.to_multiset_ensures();
    b.to_multiset_ensures();
    assert forall|i: int| 0 <= i < b.len() implies (#[trigger] b[i]).start <= b[i].end by {
        assert(b.contains(b[i]));
        assert(b.to_multiset().count(b[i]) > 0);
        assert(a.to_multiset().count(b[i]) > 0);
        assert(a.contains(b[i]));
        let k = choose|k: int| 0 <= k < a.len() && a[k] == b[i];
    }
    assert forall|i: int, j: int| 0 <= i < j < b.len() implies (#[trigger] b[i]).end < (
    #[trigger] b[j]).start || b[j].end < b[i].start by {
        let x = b[i];
        let y = b[j];
        if x == y {
            lemma_two_indices_count(b, i, j);
            lemma_count_two_indices(a, x);
            let (k, l): (int, int) = choose|k: int, l: int|
                #![trigger a[k], a[l]]
                0 <= k < a.len() && 0 <= l < a.len() && k != l && a[k] == x && a[l] == x;
            if k < l {
                assert(a[k].end < a[l].start || a[l].end < a[k].start);
            } else {
                assert(a[l].end < a[k].start || a[k].end < a[l].start);
            }
            assert(x.start <= x.end);
            assert(false);
        } else {
            assert(b.contains(x));
            assert(b.contains(y));
            assert(b.to_multiset().count(x) > 0);
            assert(b.to_multiset().count(y) > 0);
            assert(a.to_multiset().count(x) > 0);
            assert(a.to_multiset().count(y) > 0);
            assert(a.contains(x));
            assert(a.contains(y));
            let k = choose|k: int| 0 <= k < a.len() && a[k] == x;
            let l = choose|l: int| 0 <= l < a.len() && a[l] == y;
            if k < l {
                assert(a[k].end < a[l].start || a[l].end < a[k].start);
            } else {
                assert(a[l].end < a[k].start || a[k].end < a[l].start);
            }
        }
    }
}

/// A sorted sequence of disjoint ranges is a well-formed table.
proof fn lemma_sorted_disjoint_wf(q: Seq<SlotRange>)
    requires
        ranges_sorted(q),
        ranges_disjoint(q),
    ensures
        ranges_wf(q),
{
    assert forall|i: int, j: int| 0 <= i < j < q.len() implies (#[trigger] q[i]).end < (
    #[trigger] q[j]).start by {
        assert(q[i].start <= q[j].start);
        if q[j].end < q[i].start {
            assert(q[j].start <= q[j].end);
            assert(false);
        }
    }
}

/// Decoded ranges are disjoint exactly when the response's stated ranges
/// are: decoding pins every bound to the response's integers.
proof fn lemma_response_disjoint_iff(v: RedisValue, fallback: Seq<char>, p: Seq<SlotRange>)
    requires
        response_matches(v, fallback, p),
    ensures
        ranges_disjoint(p) <==> response_ranges_disjoint(v),
{
    let entries = v->Array_0;
    assert forall|i: int| 0 <= i < p.len() implies (#[trigger] p[i]).start as int
        == entry_start(entries@[i]) && p[i].end as int == entry_end(entries@[i]) by {
        assert(entry_matches(entries@[i], fallback, p[i]));
    }
    if ranges_disjoint(p) {
        assert forall|i: int| 0 <= i < entries@.len() implies entry_start(
            #[trigger] entries@[i],
        ) <= entry_end(entries@[i]) by {
            assert(p[i].start <= p[i].end);
        }
        assert forall|i: int, j: int| 0 <= i < j < entries@.len() implies entry_end(
            #[trigger] entries@[i],
        ) < entry_start(#[trigger] entries@[j]) || entry_end(entries@[j]) < entry_start(
            entries@[i],
        ) by {
            assert(p[i].end < p[j].start || p[j].end < p[i].start);
        }
    }
    if response_ranges_disjoint(v) {
        assert forall|i: int| 0 <= i < p.len() implies (#[trigger] p[i]).start <= p[i].end by {
            assert(entry_start(entries@[i]) <= entry_end(entries@[i]));
        }
        assert forall|i: int, j: int| 0 <= i < j < p.len() implies (#[trigger] p[i]).end < (
        #[trigger] p[j]).start || p[j].end < p[i].start by {
            assert(entry_end(entries@[i]) < entry_start(entries@[j]) || entry_end(entries@[j])
                < entry_start(entries@[i]));
        }
    }
}

/// Sorted, pairwise non-overlapping adjacent ranges cover every pair.
proof fn lemma_adjacent_non_overlap(s: Seq<SlotRange>, i: int, j: int)
    requires
        forall|t: int| 0 <= t < s.len() ==> (#[trigger] s[t]).start <= s[t].end,
        forall|t: int| 0 <= t && t + 1 < s.len() ==> (#[trigger] s[t]).end < s[t + 1].start,
        0 <= i < j < s.len(),
    ensures
        s[i].end < s[j].start,
    decreases j - i,
{
    if j == i + 1 {
        assert(s[i].end < s[i + 1].start);
    } else {
        lemma_adjacent_non_overlap(s, i, j - 1);
        assert(s[j - 1].end < s[j].start);
        assert(s[j - 1].start <= s[j - 1].end);
    }
}

/// Check that a sorted listing of ranges is well-formed: every range is
/// non-empty and adjacent ranges do not touch or overlap.
#[verifier::rlimit(50)]
pub fn check_ranges(v: &Vec<SlotRange>) -> (r: bool)
    ensures
        r == ranges_wf(v@),
{
    let mut i: usize = 0;
    while i < v.len()
        invariant
            0 <= i <= v@.len(),
            forall|t: int| 0 <= t < i ==> (#[trigger] v@[t]).start <= v@[t].end,
            forall|t: int| 0 <= t && t + 1 < i ==> (#[trigger] v@[t]).end < v@[t + 1].start,
        decreases v@.len() - i,
    {
        if v[i].start > v[i].end {
            return false;
        }
        if i > 0 && v[i - 1].end >= v[i].start {
            return false;
        }
        proof {
            assert forall|t: int| 0 <= t && t + 1 < i + 1 implies (#[trigger] v@[t]).end < v@[t
                + 1].start by {
                if t + 1 == i {
                    assert(i >= 1);
                    assert(v@[i as int - 1].end < v@[i as int].start);
                    assert(t == i as int - 1);
                }
            }
        }
        i = i + 1;
    }
    proof {
        assert forall|a: int, b: int| 0 <= a < b < v@.len() implies (#[trigger] v@[a]).end < (
        #[trigger] v@[b]).start by {
            lemma_adjacent_non_overlap(v@, a, b);
        }
    }
    true
}

// ---------------------------------------------------------------------------
// Hostname normalization: a configuration-driven pass applied to a decoded
// topology before it is installed, mapping unusable reported addresses
// (for instance container-internal or unspecified ones) to a usable form.
// ---------------------------------------------------------------------------

/// How reported hostnames are normalized after a topology rebuild.
#[derive(Clone, Copy, Debug, PartialEq, Eq, Structural)]
pub enum HostPolicy {
    /// Keep hostnames exactly as reported.
    Preserve,
    /// Present every node under the host that answered the topology query.
    UseDefaultHost,
    /// Replace only unspecified addresses with the host that answered.
    DefaultForUnspecified,
}

/// The host a node is presented under after normalization.
pub open spec fn normalized_host(
    policy: HostPolicy,
    reported: Seq<char>,
    fallback: Seq<char>,
) -> Seq<char> {
    match policy {
        HostPolicy::Preserve => reported,
        HostPolicy::UseDefaultHost => fallback,
        HostPolicy::DefaultForUnspecified => if reported.len() == 0 || reported == "0.0.0.0"@
            || reported == "::"@ {
            fallback
        } else {
            reported
        },
    }
}

/// A server after normalization: the mapped host, everything else kept.
pub open spec fn server_normalized(
    a: Server,
    b: Server,
    policy: HostPolicy,
    fallback: Seq<char>,
) -> bool {
    &&& b.host@ == normalized_host(policy, a.host@, fallback)
    &&& b.port == a.port
    &&& b.tls_server_name == a.tls_server_name
}

/// A slot range after normalization: bounds and identifier kept, primary
/// and every replica normalized in place.
pub open spec fn range_normalized(
    a: SlotRange,
    b: SlotRange,
    policy: HostPolicy,
    fallback: Seq<char>,
) -> bool {
    &&& b.start == a.start
    &&& b.end == a.end
    &&& b.id == a.id
    &&& server_normalized(a.primary, b.primary, policy, fallback)
    &&& b.replicas@.len() == a.replicas@.len()
    &&& forall|l: int|
        0 <= l < a.replicas@.len() ==> server_normalized(
            a.replicas@[l],
            #[trigger] b.replicas@[l],
            policy,
            fallback,
        )
}

/// A table after normalization, range by range.
pub open spec fn ranges_normalized(
    a: Seq<SlotRange>,
    b: Seq<SlotRange>,
    policy: HostPolicy,
    fallback: Seq<char>,
) -> bool {
    &&& b.len() == a.len()
    &&& forall|i: int|
        0 <= i < a.len() ==> range_normalized(a[i], #[trigger] b[i], policy, fallback)
}

/// Normalize one server's host under the policy.
fn normalize_server(s: &mut Server, policy: &HostPolicy, default_host: &str)
    ensures
        server_normalized(*old(s), *final(s), *policy, default_host@),
{
    match *policy {
        HostPolicy::Preserve => {},
        HostPolicy::UseDefaultHost => {
            s.host = default_host.to_owned();
        },
        HostPolicy::DefaultForUnspecified => {
            let unspecified = s.host.as_str().is_empty() || crate::value::str_eq(
                s.host.as_str(),
                "0.0.0.0",
            ) || crate::value::str_eq(s.host.as_str(), "::");
            if unspecified {
                s.host = default_host.to_owned();
            }
        },
    }
}

/// Apply the hostname-normalization pass to a decoded table: every range
/// keeps its bounds, identifier and layout, and every node's host is the
/// policy's mapping of the reported host.
pub fn normalize_hostnames(ranges: &mut Vec<SlotRange>, policy: &HostPolicy, default_host: &str)
    ensures
        ranges_normalized(old(ranges)@, final(ranges)@, *policy, default_host@),
{
    let ghost orig = ranges@;
    let mut out: Vec<SlotRange> = Vec::new();
    let ghost mut done: int = 0;
    while ranges.len() > 0
        invariant
            0 <= done <= orig.len(),
            out@.len() == done,
            ranges@ =~= orig.skip(done),
            forall|i: int|
                0 <= i < done ==> range_normalized(
                    orig[i],
                    #[trigger] out@[i],
                    *policy,
                    default_host@,
                ),
        decreases ranges@.len(),
    {
        let ghost rest_before = ranges@;
        let r = ranges.remove(0);
        proof {
            assert(rest_before =~= orig.skip(done));
            assert(r == rest_before[0]);
            assert(rest_before[0] == orig.skip(done)[0]);
            assert(r == orig[done]);
            assert(ranges@ =~= rest_before.drop_first());
            assert(ranges@ =~= orig.skip(done + 1));
        }
        let ghost r0 = r;
        let SlotRange { start, end, primary, id, replicas } = r;
        let mut primary = primary;
        normalize_server(&mut primary, policy, default_host);
        let ghost reps0 = replicas@;
        let mut reps_in = replicas;
        let mut reps_out: Vec<Server> = Vec::new();
        let ghost mut reps_done: int = 0;
        while reps_in.len() > 0
            invariant
                0 <= reps_done <= reps0.len(),
                reps_out@.len() == reps_done,
                reps_in@ =~= reps0.skip(reps_done),
                forall|l: int|
                    0 <= l < reps_done ==> server_normalized(
                        reps0[l],
                        #[trigger] reps_out@[l],
                        *policy,
                        default_host@,
                    ),
            decreases reps_in@.len(),
        {
            let ghost reps_before = reps_in@;
            let mut x = reps_in.remove(0);
            proof {
                assert(reps_before =~= reps0.skip(reps_done));
                assert(x == reps_before[0]);
                assert(reps_before[0] == reps0.skip(reps_done)[0]);
                assert(x == reps0[reps_done]);
                assert(reps_in@ =~= reps_before.drop_first());
                assert(reps_in@ =~= reps0.skip(reps_done + 1));
            }
            normalize_server(&mut x, policy, default_host);
            reps_out.push(x);
            proof {
                reps_done = reps_done + 1;
            }
        }
        let normalized = SlotRange { start, end, primary, id, replicas: reps_out };
        proof {
            assert(reps_out@.len() == reps0.len());
            assert(range_normalized(r0, normalized, *policy, default_host@));
        }
        out.push(normalized);
        proof {
            done = done + 1;
        }
    }
    proof {
        assert(out@.len() == orig.len());
    }
    *ranges = out;
}

impl ClusterRouting {
    /// Rebuild the cache in place from a topology response: decode the
    /// entries, sort them ascending by starting slot, check the table
    /// invariant, normalize the hostnames under the configured policy, and
    /// only then replace the contents, atomically from a reader's point of
    /// view. The rebuild succeeds exactly when the response is well-shaped
    /// and states non-empty, pairwise disjoint slot ranges; any failure
    /// leaves the previous table intact.
    pub fn rebuild(
        &mut self,
        cluster_slots: &RedisValue,
        policy: &HostPolicy,
        default_host: &str,
    ) -> (r: Result<(), RedisError>)
        ensures
            r is Ok <==> response_wf(*cluster_slots) && response_ranges_disjoint(
                *cluster_slots,
            ),
            r is Ok ==> final(self).wf(),
            r is Ok ==> exists|p: Seq<SlotRange>, q: Seq<SlotRange>|
                response_matches(*cluster_slots, default_host@, p) && q.to_multiset()
                    == p.to_multiset() && ranges_sorted(q) && ranges_normalized(
                    q,
                    final(self)@,
                    *policy,
                    default_host@,
                ),
            r is Err ==> final(self)@ == old(self)@,
            r matches Err(e) ==> e.kind == RedisErrorKind::Protocol,
    {
        let mut ranges = match parse_cluster_slots(cluster_slots, default_host) {
            Ok(p) => p,
            Err(e) => {
                return Err(e);
            },
        };
        let ghost parsed = ranges@;
        sort_ranges(&mut ranges);
        let ghost sorted = ranges@;
        if !check_ranges(&ranges) {
            proof {
                // the sorted decode is not well-formed, so the response's
                // stated ranges overlap or are empty
                lemma_response_disjoint_iff(*cluster_slots, default_host@, parsed);
                if response_ranges_disjoint(*cluster_slots) {
                    lemma_disjoint_transfer(parsed, sorted);
                    lemma_sorted_disjoint_wf(sorted);
                    assert(false);
                }
            }
            return Err(
                RedisError::new(
                    RedisErrorKind::Protocol,
                    "Invalid topology response. Overlapping or empty slot ranges.",
                ),
            );
        }
        proof {
            // a well-formed sorted decode means the response's stated
            // ranges are disjoint, so success is owed
            assert(ranges_disjoint(sorted));
            lemma_disjoint_transfer(sorted, parsed);
            lemma_response_disjoint_iff(*cluster_slots, default_host@, parsed);
        }
        normalize_hostnames(&mut ranges, policy, default_host);
        proof {
            // normalization keeps every bound, so the table stays sorted
            // and non-overlapping
            assert forall|i: int| 0 <= i < ranges@.len() implies (#[trigger] ranges@[i]).start
                <= ranges@[i].end by {
                assert(range_normalized(sorted[i], ranges@[i], *policy, default_host@));
            }
            assert forall|i: int, j: int| 0 <= i < j < ranges@.len() implies (
            #[trigger] ranges@[i]).end < (#[trigger] ranges@[j]).start by {
                assert(range_normalized(sorted[i], ranges@[i], *policy, default_host@));
                assert(range_normalized(sorted[j], ranges@[j], *policy, default_host@));
            }
        }
        self.data = ranges;
        Ok(())
    }
}

/// Compare two servers by reference in the listing order.
fn server_cmp_lt_ref(a: &Server, b: &Server) -> (r: bool)
    ensures
        r == server_lt(*a, *b),
{
    crate::server::server_cmp_lt(a, b)
}

} // verus!
