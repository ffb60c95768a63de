//! Which server holds which chunk: consistent hashing over a fixed number of slots.

use crate::cluster::{AvalonCluster, ClusterView};
use crate::error::{AvalonError, AvalonErrorView};
use crate::modular::{is_prime, lemma_steps_distinct, lemma_steps_reach, step};
use crate::ordered::{ascending, ids_of, lemma_ids_ordered};
use crate::siphash::{sip13, sip_hash13};
use crate::slots::{
    assign_slots, claims, is_claimed, is_table, law_claimed_has_owner, law_one_owner,
    law_others_keep_slots, list_slots, listing, lists, owns, slot_holds, UNASSIGNED,
};
use crate::text::{decimal, join, push_decimal};
use std::collections::BTreeSet;
use vstd::prelude::*;

verus! {

/// The number of slots: a prime, so that every stride that is no multiple of it visits all slots.
pub const NUM_SLOTS: usize = 31991;

/// `NUM_SLOTS` is a prime.
pub proof fn law_num_slots_prime()
    ensures
        is_prime(NUM_SLOTS as int),
{
    assert forall|d: int| 1 < d < NUM_SLOTS implies #[trigger] (NUM_SLOTS as int % d) != 0 by {
        let e: u16 = d as u16;
        assert(1 < e && e < 31991 ==> 31991u16 % e != 0) by (bit_vector);
    }
}

/// The `n` lowest bytes of `x`, the lowest first.
pub open spec fn le_bytes(x: nat, n: nat) -> Seq<u8>
    decreases n,
{
    if n == 0 {
        Seq::empty()
    } else {
        seq![(x % 256) as u8] + le_bytes(x / 256, (n - 1) as nat)
    }
}

/// Appends the `n` lowest bytes of `x`, the lowest first.
fn push_le_bytes(out: &mut Vec<u8>, x: u64, n: usize)
    ensures
        final(out)@ =~= old(out)@ + le_bytes(x as nat, n as nat),
    decreases n,
{
    if n > 0 {
        out.push((x % 256) as u8);
        push_le_bytes(out, x / 256, n - 1);
    }
}

/// The order in which `server` lists the slots.
pub open spec fn server_listing(server: int, num_slots: int) -> Seq<u16> {
    listing(
        sip13(0, 0, le_bytes(server as nat, 4)),
        sip13(123, 456, le_bytes(server as nat, 4)),
        num_slots,
    )
}

/// What each server lists: all slots in its order where it is up, and nothing where it is down.
pub open spec fn preferences(servers: Seq<bool>) -> Seq<Seq<u16>> {
    Seq::new(
        servers.len(),
        |s: int|
            if servers[s] {
                server_listing(s, NUM_SLOTS as int)
            } else {
                Seq::empty()
            },
    )
}

/// Some server is up.
pub open spec fn any_up(servers: Seq<bool>) -> bool {
    exists|s: int| 0 <= s < servers.len() && #[trigger] servers[s]
}

/// Every slot is listed by a server that is up.
pub open spec fn covers(servers: Seq<bool>) -> bool {
    forall|t: int| 0 <= t < NUM_SLOTS ==> #[trigger] is_claimed(preferences(servers), t)
}

/// Server `s` holds slot `t`.
pub open spec fn holds(servers: Seq<bool>, s: int, t: int) -> bool {
    owns(preferences(servers), s, t)
}

/// A listing has all slots for rows.
proof fn lemma_preferences_table(servers: Seq<bool>)
    ensures
        is_table(preferences(servers), NUM_SLOTS as int),
{
    assert forall|s: int, row: int|
        #![trigger preferences(servers)[s][row]]
        0 <= s < servers.len() && 0 <= row
            < preferences(servers)[s].len() implies preferences(servers)[s][row] < NUM_SLOTS by {
        assert(servers[s]);
    }
}

/// A server lists each slot once where its stride is no multiple of the number of slots.
pub proof fn law_listing_is_permutation(k_hash: u64, l_hash: u64)
    requires
        l_hash as int % NUM_SLOTS as int != 0,
    ensures
        listing(k_hash, l_hash, NUM_SLOTS as int).len() == NUM_SLOTS,
        listing(k_hash, l_hash, NUM_SLOTS as int).no_duplicates(),
        forall|t: u16|
            t < NUM_SLOTS ==> #[trigger] listing(k_hash, l_hash, NUM_SLOTS as int).contains(t),
{
    let n = NUM_SLOTS as int;
    let k = k_hash as int % n;
    let l = l_hash as int % n;
    let list = listing(k_hash, l_hash, n);
    law_num_slots_prime();
    assert forall|i: int, j: int|
        0 <= i < list.len() && 0 <= j < list.len() && i != j implies list[i] != list[j] by {
        if i < j {
            lemma_steps_distinct(k, l, n, i, j);
        } else {
            lemma_steps_distinct(k, l, n, j, i);
        }
    }
    assert forall|t: u16| t < NUM_SLOTS implies #[trigger] list.contains(t) by {
        lemma_steps_reach(k, l, n, t as int);
        let j = choose|j: int| 0 <= j < n && #[trigger] step(k, l, n, j) == t;
        assert(list[j] == t);
    }
}

/// One server that is up, and whose stride is no multiple of the number of slots, is enough for
/// every slot to be listed.
pub proof fn law_one_stride_covers(servers: Seq<bool>, s: int)
    requires
        0 <= s < servers.len(),
        servers[s],
        sip13(123, 456, le_bytes(s as nat, 4)) as int % NUM_SLOTS as int != 0,
    ensures
        covers(servers),
{
    let k_hash = sip13(0, 0, le_bytes(s as nat, 4));
    let l_hash = sip13(123, 456, le_bytes(s as nat, 4));
    law_listing_is_permutation(k_hash, l_hash);
    assert forall|t: int| 0 <= t < NUM_SLOTS implies #[trigger] is_claimed(
        preferences(servers),
        t,
    ) by {
        let list = listing(k_hash, l_hash, NUM_SLOTS as int);
        assert(list.contains(t as u16));
        let row = choose|row: int| 0 <= row < list.len() && list[row] == t as u16;
        assert(claims(preferences(servers), s, row, t));
    }
}

/// The server that holds a slot is up.
pub proof fn law_holder_is_up(servers: Seq<bool>, s: int, t: int)
    requires
        holds(servers, s, t),
    ensures
        0 <= s < servers.len(),
        servers[s],
{
}

/// One server holds a slot, and no other.
pub proof fn law_one_holder(servers: Seq<bool>, s1: int, s2: int, t: int)
    requires
        holds(servers, s1, t),
        holds(servers, s2, t),
    ensures
        s1 == s2,
{
    law_one_owner(preferences(servers), s1, s2, t);
}

/// Where every slot is listed by a server that is up, every slot has a holder.
pub proof fn law_covered_slot_has_holder(servers: Seq<bool>, t: int)
    requires
        covers(servers),
        0 <= t < NUM_SLOTS,
    ensures
        exists|s: int| #[trigger] holds(servers, s, t),
{
    assert(is_claimed(preferences(servers), t));
    law_claimed_has_owner(preferences(servers), t);
    let s = choose|s: int| #[trigger] owns(preferences(servers), s, t);
    assert(holds(servers, s, t));
}

/// Where one server alone is up, and every slot is listed, it holds them all.
pub proof fn law_single_server_holds_all(servers: Seq<bool>, s: int, t: int)
    requires
        forall|i: int| 0 <= i < servers.len() && #[trigger] servers[i] ==> i == s,
        covers(servers),
        0 <= t < NUM_SLOTS,
    ensures
        holds(servers, s, t),
{
    law_covered_slot_has_holder(servers, t);
    let holder = choose|holder: int| #[trigger] holds(servers, holder, t);
    law_holder_is_up(servers, holder, t);
}

/// When servers go down, and none comes up, a slot whose server stays up does not move.
pub proof fn law_servers_down_move_only_their_slots(
    servers: Seq<bool>,
    fewer: Seq<bool>,
    s: int,
    t: int,
)
    requires
        holds(servers, s, t),
        0 <= s < fewer.len(),
        fewer[s],
        forall|i: int|
            0 <= i < fewer.len() && #[trigger] fewer[i] ==> i < servers.len() && servers[i],
    ensures
        holds(fewer, s, t),
{
    assert(servers[s]);
    assert forall|i: int|
        0 <= i < preferences(fewer).len() && (#[trigger] preferences(fewer)[i]).len() > 0 implies i
        < preferences(servers).len() && preferences(fewer)[i] == preferences(servers)[i] by {
        assert(fewer[i]);
    }
    law_others_keep_slots(preferences(servers), preferences(fewer), s, t);
}

/// When servers come up, and none goes down, a slot stays where it is or moves to a server that
/// came up.
pub proof fn law_servers_up_take_slots_for_themselves(
    servers: Seq<bool>,
    more: Seq<bool>,
    s: int,
    s2: int,
    t: int,
)
    requires
        holds(servers, s, t),
        holds(more, s2, t),
        forall|i: int|
            0 <= i < servers.len() && #[trigger] servers[i] ==> i < more.len() && more[i],
    ensures
        s2 == s || s2 >= servers.len() || !servers[s2],
{
    if s2 < servers.len() && servers[s2] {
        law_servers_down_move_only_their_slots(more, servers, s2, t);
        law_one_holder(servers, s, s2, t);
    }
}

/// What a chunk is hashed by.
#[derive(Clone, Debug, Hash, PartialEq)]
pub struct Indicator<'a> {
    pub prefix: &'a str,
    pub path: &'a str,
    pub offset: u64,
}

/// The bytes that are hashed for a chunk.
pub open spec fn chunk_bytes(prefix: Seq<char>, path: Seq<char>, offset: u64) -> Seq<u8> {
    vstd::utf8::encode_utf8(prefix) + vstd::utf8::encode_utf8(path) + le_bytes(offset as nat, 8)
}

/// The digest of a chunk.
pub open spec fn chunk_hash(prefix: Seq<char>, path: Seq<char>, offset: u64) -> u64 {
    sip13(0, 0, chunk_bytes(prefix, path, offset))
}

/// The slot of a digest.
pub open spec fn slot_of(hash: u64) -> int {
    hash as int % NUM_SLOTS as int
}

/// The slots, and the server that holds each.
pub struct AvalonHasher {
    num_slots: u16,
    servers: Vec<bool>,
    slot_to_server: Vec<u16>,
}

/// `true` or `false`.
pub open spec fn bool_text(b: bool) -> Seq<char> {
    if b {
        "true"@
    } else {
        "false"@
    }
}

/// What is shown of a hasher.
pub open spec fn hasher_text(servers: Seq<bool>) -> Seq<char> {
    "AvalonHasher{num_slots: "@ + decimal(
        if any_up(servers) {
            NUM_SLOTS as nat
        } else {
            0
        },
    ) + ", servers: ["@ + join(servers.map_values(|b: bool| bool_text(b)), ", "@) + "]}"@
}

impl AvalonHasher {
    /// Which servers there are, and whether each is up.
    pub closed spec fn servers(&self) -> Seq<bool> {
        self.servers@
    }

    #[verifier::type_invariant]
    spec fn well_formed(self) -> bool {
        if any_up(self.servers@) {
            &&& self.num_slots == NUM_SLOTS
            &&& self.slot_to_server.len() == NUM_SLOTS
            &&& forall|t: int|
                0 <= t < NUM_SLOTS ==> holds(
                    self.servers@,
                    (#[trigger] self.slot_to_server[t]) as int,
                    t,
                )
        } else {
            &&& self.num_slots == 0
            &&& self.slot_to_server.len() == 0
        }
    }

    /// Shares the slots among the servers that are up.
    pub fn new(servers: Vec<bool>) -> (r: Result<Self, AvalonError>)
        requires
            servers.len() < UNASSIGNED && any_up(servers@) ==> covers(servers@),
        ensures
            r is Err <==> servers.len() >= UNASSIGNED,
            match r {
                Ok(h) => h.servers() == servers@,
                Err(e) => e@ == AvalonErrorView::TooManyServers,
            },
    {
        if servers.len() >= UNASSIGNED as usize {
            return Err(AvalonError::TooManyServers);
        }
        if first_up(&servers).is_none() {
            return Ok(AvalonHasher { num_slots: 0, servers, slot_to_server: Vec::new() });
        }
        let mut table: Vec<Vec<u16>> = Vec::with_capacity(servers.len());
        let mut server: usize = 0;
        while server < servers.len()
            invariant
                servers.len() < UNASSIGNED,
                server <= servers.len(),
                table.len() == server,
                forall|s: int|
                    0 <= s < server ==> (#[trigger] table[s])@ =~= preferences(servers@)[s],
            decreases servers.len() - server,
        {
            if servers[server] {
                table.push(Self::permutations_for_server(server as u32, NUM_SLOTS));
            } else {
                table.push(Vec::new());
            }
            server = server + 1;
        }
        proof {
            assert(lists(table@) =~= preferences(servers@));
            lemma_preferences_table(servers@);
        }
        let (slot_to_server, _) = assign_slots(&table, NUM_SLOTS);
        proof {
            assert forall|t: int| 0 <= t < NUM_SLOTS implies holds(
                servers@,
                (#[trigger] slot_to_server[t]) as int,
                t,
            ) by {
                assert(is_claimed(preferences(servers@), t));
                assert(slot_holds(lists(table@), t, slot_to_server[t]));
            }
        }
        Ok(AvalonHasher { num_slots: NUM_SLOTS as u16, servers, slot_to_server })
    }

    /// Shares the slots among the servers that are up, where that leaves no slot without a server;
    /// else gives nothing.
    pub fn try_new(servers: Vec<bool>) -> (r: Option<Result<Self, AvalonError>>)
        ensures
            r is None <==> servers.len() < UNASSIGNED && any_up(servers@) && !covers(servers@),
            match r {
                None => true,
                Some(Ok(h)) => servers.len() < UNASSIGNED && h.servers() == servers@,
                Some(Err(e)) => servers.len() >= UNASSIGNED && e@
                    == AvalonErrorView::TooManyServers,
            },
    {
        if servers.len() >= UNASSIGNED as usize || first_up(&servers).is_none()
            || Self::covers_slots(&servers) {
            Some(Self::new(servers))
        } else {
            None
        }
    }

    /// Whether every slot is listed by a server that is up.
    fn covers_slots(servers: &Vec<bool>) -> (r: bool)
        requires
            servers.len() < UNASSIGNED,
        ensures
            r == covers(servers@),
    {
        let mut listed: Vec<bool> = Vec::with_capacity(NUM_SLOTS);
        let mut t: usize = 0;
        while t < NUM_SLOTS
            invariant
                t <= NUM_SLOTS,
                listed.len() == t,
                forall|i: int| 0 <= i < t ==> !listed[i],
            decreases NUM_SLOTS - t,
        {
            listed.push(false);
            t = t + 1;
        }
        let mut server: usize = 0;
        while server < servers.len()
            invariant
                servers.len() < UNASSIGNED,
                server <= servers.len(),
                listed.len() == NUM_SLOTS,
                forall|i: int|
                    0 <= i < NUM_SLOTS ==> (#[trigger] listed[i] <==> listed_before(
                        servers@,
                        server as int,
                        i,
                    )),
                forall|s: int|
                    0 <= s < server && #[trigger] servers[s] ==> sip13(
                        123,
                        456,
                        le_bytes(s as nat, 4),
                    ) as int % NUM_SLOTS as int == 0,
            decreases servers.len() - server,
        {
            let ghost before = listed@;
            if servers[server] {
                let mut id: Vec<u8> = Vec::new();
                push_le_bytes(&mut id, server as u64, 4);
                let k: u64 = sip_hash13(0, 0, id.as_slice()) % (NUM_SLOTS as u64);
                let l: u64 = sip_hash13(123, 456, id.as_slice()) % (NUM_SLOTS as u64);
                if l != 0 {
                    proof {
                        law_one_stride_covers(servers@, server as int);
                    }
                    return true;
                }
                listed.set(k as usize, true);
                proof {
                    assert forall|i: int| 0 <= i < NUM_SLOTS implies (#[trigger] listed[i]
                        <==> listed_before(servers@, server + 1, i)) by {
                        lemma_listed_step(servers@, server as int, i);
                        lemma_standing_listing(server as int);
                        assert(before[i] <==> listed_before(servers@, server as int, i));
                        if i == k {
                            assert(claims(preferences(servers@), server as int, 0, i));
                        }
                    }
                }
            } else {
                proof {
                    assert forall|i: int| 0 <= i < NUM_SLOTS implies (#[trigger] listed[i]
                        <==> listed_before(servers@, server + 1, i)) by {
                        lemma_listed_step(servers@, server as int, i);
                    }
                }
            }
            server = server + 1;
        }
        let mut i: usize = 0;
        while i < NUM_SLOTS
            invariant
                i <= NUM_SLOTS,
                listed.len() == NUM_SLOTS,
                forall|t: int|
                    0 <= t < NUM_SLOTS ==> (#[trigger] listed[t] <==> listed_before(
                        servers@,
                        servers.len() as int,
                        t,
                    )),
                forall|t: int| 0 <= t < i ==> #[trigger] listed[t],
            decreases NUM_SLOTS - i,
        {
            if !listed[i] {
                proof {
                    if is_claimed(preferences(servers@), i as int) {
                        let (s, row) = choose|s: int, row: int| #[trigger]
                            claims(preferences(servers@), s, row, i as int);
                        assert(s < servers.len());
                        assert(listed_before(servers@, servers.len() as int, i as int));
                    }
                }
                return false;
            }
            i = i + 1;
        }
        proof {
            assert forall|t: int| 0 <= t < NUM_SLOTS implies #[trigger] is_claimed(
                preferences(servers@),
                t,
            ) by {
                assert(listed[t]);
            }
        }
        true
    }

    /// The order in which `server` lists the slots.
    pub fn permutations_for_server(server: u32, num_slots: usize) -> (r: Vec<u16>)
        requires
            0 < num_slots <= 65536,
        ensures
            r@ =~= server_listing(server as int, num_slots as int),
    {
        let mut id: Vec<u8> = Vec::new();
        push_le_bytes(&mut id, server as u64, 4);
        let k_hash: u64 = sip_hash13(0, 0, id.as_slice());
        let l_hash: u64 = sip_hash13(123, 456, id.as_slice());
        list_slots(k_hash, l_hash, num_slots)
    }

    /// The server that holds a chunk.
    pub fn lookup(&self, indicator: &Indicator) -> (r: Option<u16>)
        ensures
            r is None <==> !any_up(self.servers()),
            r matches Some(s) ==> holds(
                self.servers(),
                s as int,
                slot_of(chunk_hash(indicator.prefix@, indicator.path@, indicator.offset)),
            ) && s < self.servers().len() && self.servers()[s as int],
    {
        if self.num_slots == 0 {
            proof {
                use_type_invariant(self);
            }
            return None;
        }
        let mut data: Vec<u8> = Vec::new();
        data.extend_from_slice(indicator.prefix.as_bytes());
        data.extend_from_slice(indicator.path.as_bytes());
        push_le_bytes(&mut data, indicator.offset, 8);
        assert(data@ =~= chunk_bytes(indicator.prefix@, indicator.path@, indicator.offset));
        self.lookup_hash(sip_hash13(0, 0, data.as_slice()))
    }

    /// The server that holds the chunks with this digest.
    pub fn lookup_hash(&self, hash: u64) -> (r: Option<u16>)
        ensures
            r is None <==> !any_up(self.servers()),
            r matches Some(s) ==> holds(self.servers(), s as int, slot_of(hash)) && s
                < self.servers().len() && self.servers()[s as int],
    {
        proof {
            use_type_invariant(self);
        }
        if self.num_slots == 0 {
            return None;
        }
        let slot: u64 = hash % (self.num_slots as u64);
        let server = self.slot_to_server[slot as usize];
        proof {
            law_holder_is_up(self.servers@, server as int, slot as int);
        }
        Some(server)
    }

    /// What is shown of this hasher.
    pub fn debug_text(&self) -> (r: String)
        ensures
            r@ =~= hasher_text(self.servers()),
    {
        proof {
            use_type_invariant(self);
        }
        let mut out = String::new();
        out.append("AvalonHasher{num_slots: ");
        push_decimal(&mut out, self.num_slots as u64);
        out.append(", servers: [");
        let ghost head = out@;
        let ghost names = self.servers@.map_values(|b: bool| bool_text(b));
        let mut i: usize = 0;
        while i < self.servers.len()
            invariant
                i <= self.servers.len(),
                names == self.servers@.map_values(|b: bool| bool_text(b)),
                out@ =~= head + join(names.take(i as int), ", "@),
            decreases self.servers.len() - i,
        {
            let ghost next = names.take(i + 1);
            proof {
                assert(next.drop_last() =~= names.take(i as int));
                assert(next.last() == names[i as int]);
            }
            if i > 0 {
                out.append(", ");
            }
            if self.servers[i] {
                out.append("true");
            } else {
                out.append("false");
            }
            i = i + 1;
        }
        assert(names.take(i as int) =~= names);
        out.append("]}");
        out
    }
}

/// A server before `end` that is up lists slot `t`.
spec fn listed_before(servers: Seq<bool>, end: int, t: int) -> bool {
    exists|s: int, row: int| s < end && #[trigger] claims(preferences(servers), s, row, t)
}

/// Whether a slot is listed before one server more.
proof fn lemma_listed_step(servers: Seq<bool>, end: int, t: int)
    ensures
        listed_before(servers, end + 1, t) <==> listed_before(servers, end, t) || (exists|row: int|
            #[trigger] claims(preferences(servers), end, row, t)),
{
    if listed_before(servers, end + 1, t) {
        let (s, row) = choose|s: int, row: int|
            s < end + 1 && #[trigger] claims(preferences(servers), s, row, t);
        assert(s == end || s < end);
    }
}

/// A server whose stride is a multiple of the number of slots lists its first slot in every row.
proof fn lemma_standing_listing(server: int)
    requires
        sip13(123, 456, le_bytes(server as nat, 4)) as int % NUM_SLOTS as int == 0,
    ensures
        forall|row: int|
            0 <= row < NUM_SLOTS ==> #[trigger] server_listing(server, NUM_SLOTS as int)[row]
                == sip13(0, 0, le_bytes(server as nat, 4)) as int % NUM_SLOTS as int,
{
    assert forall|row: int| 0 <= row < NUM_SLOTS implies #[trigger] server_listing(
        server,
        NUM_SLOTS as int,
    )[row] == sip13(0, 0, le_bytes(server as nat, 4)) as int % NUM_SLOTS as int by {
        assert(row * 0 == 0);
    }
}

/// The first server that is up.
fn first_up(servers: &Vec<bool>) -> (r: Option<usize>)
    ensures
        match r {
            Some(s) => s < servers.len() && servers[s as int],
            None => !any_up(servers@),
        },
{
    let mut i: usize = 0;
    while i < servers.len()
        invariant
            i <= servers.len(),
            forall|s: int| 0 <= s < i ==> !#[trigger] servers[s],
        decreases servers.len() - i,
    {
        if servers[i] {
            return Some(i);
        }
        i = i + 1;
    }
    None
}

/// `last` is the largest id of a set.
pub open spec fn is_last_id(ids: Set<u32>, last: u32) -> bool {
    ids.contains(last) && (forall|id: u32| #[trigger] ids.contains(id) ==> id <= last)
}

/// The largest id of a set.
pub open spec fn last_id(ids: Set<u32>) -> u32 {
    choose|last: u32| is_last_id(ids, last)
}

/// The largest id of a set is the last of its ids in ascending order.
proof fn lemma_last_id(ids: Seq<u32>, dom: Set<u32>)
    requires
        ascending(ids),
        ids.to_set() =~= dom,
        ids.len() > 0,
    ensures
        dom.contains(ids.last()),
        last_id(dom) == ids.last(),
{
    let last = ids.last();
    assert(ids.to_set().contains(last));
    assert forall|id: u32| #[trigger] dom.contains(id) implies id <= last by {
        assert(ids.to_set().contains(id));
        let i = choose|i: int| 0 <= i < ids.len() && ids[i] == id;
        if i < ids.len() - 1 {
            assert(ids[i] < ids[ids.len() - 1]);
        }
    }
    assert(is_last_id(dom, last));
    assert(is_last_id(dom, last_id(dom)));
}

/// The servers of a cluster: one for each id up to the largest id of its nodes.
pub open spec fn server_bits(c: ClusterView) -> Seq<bool> {
    if c.nodes.dom() =~= Set::empty() {
        Seq::empty()
    } else {
        Seq::new((last_id(c.nodes.dom()) + 1) as nat, |i: int| c.up.contains(i as u32))
    }
}

/// The servers of a cluster, whose ids in ascending order are `ids`.
proof fn lemma_server_bits(c: ClusterView, ids: Seq<u32>, servers: Seq<bool>)
    requires
        ascending(ids),
        ids.to_set() =~= c.nodes.dom(),
        if ids.len() == 0 {
            servers.len() == 0
        } else {
            servers.len() == ids.last() + 1
        },
        forall|i: int| 0 <= i < servers.len() ==> #[trigger] servers[i] == c.up.contains(i as u32),
    ensures
        servers =~= server_bits(c),
{
    if ids.len() == 0 {
        assert(ids.to_set() =~= Set::empty());
    } else {
        lemma_last_id(ids, c.nodes.dom());
    }
}

/// Which of the ids up to `last` a set holds.
fn bits_up_to(up: &BTreeSet<u32>, last: u32) -> (r: Vec<bool>)
    requires
        last < u32::MAX,
    ensures
        r.len() == last + 1,
        forall|i: int| 0 <= i < r.len() ==> #[trigger] r[i] == up@.contains(i as u32),
{
    let mut bits: Vec<bool> = Vec::new();
    let mut i: u32 = 0;
    while i <= last
        invariant
            last < u32::MAX,
            i <= last + 1,
            bits.len() == i,
            forall|j: int| 0 <= j < i ==> #[trigger] bits[j] == up@.contains(j as u32),
        decreases last + 1 - i,
    {
        proof {
            lemma_ids_ordered();
        }
        bits.push(up.contains(&i));
        i = i + 1;
    }
    bits
}

/// A cluster, and which of its nodes holds which chunk.
pub struct AvalonClusterAndHasher {
    pub inner: AvalonCluster,
    pub hasher: AvalonHasher,
}

impl AvalonClusterAndHasher {
    /// The hasher is that of the cluster.
    pub open spec fn well_formed(&self) -> bool {
        self.hasher.servers() == server_bits(self.inner@)
    }

    /// The cluster with its hasher.
    pub fn new(cluster: AvalonCluster) -> (r: Result<Self, AvalonError>)
        requires
            !cluster@.nodes.contains_key(u32::MAX),
            server_bits(cluster@).len() < UNASSIGNED && any_up(server_bits(cluster@)) ==> covers(
                server_bits(cluster@),
            ),
        ensures
            r is Err <==> server_bits(cluster@).len() >= UNASSIGNED,
            match r {
                Ok(c) => c.inner == cluster && c.well_formed(),
                Err(e) => e@ == AvalonErrorView::TooManyServers,
            },
    {
        let servers = Self::servers_of(&cluster);
        match AvalonHasher::new(servers) {
            Ok(hasher) => Ok(AvalonClusterAndHasher { inner: cluster, hasher }),
            Err(e) => Err(e),
        }
    }

    /// The cluster with its hasher, where its servers leave no slot without a server; else nothing.
    pub fn try_new(cluster: AvalonCluster) -> (r: Option<Result<Self, AvalonError>>)
        requires
            !cluster@.nodes.contains_key(u32::MAX),
        ensures
            r is None <==> server_bits(cluster@).len() < UNASSIGNED && any_up(server_bits(cluster@))
                && !covers(server_bits(cluster@)),
            match r {
                None => true,
                Some(Ok(c)) => server_bits(cluster@).len() < UNASSIGNED && c.inner == cluster
                    && c.well_formed(),
                Some(Err(e)) => server_bits(cluster@).len() >= UNASSIGNED && e@
                    == AvalonErrorView::TooManyServers,
            },
    {
        match AvalonHasher::try_new(Self::servers_of(&cluster)) {
            None => None,
            Some(Ok(hasher)) => Some(Ok(AvalonClusterAndHasher { inner: cluster, hasher })),
            Some(Err(e)) => Some(Err(e)),
        }
    }

    /// The servers of a cluster.
    fn servers_of(cluster: &AvalonCluster) -> (r: Vec<bool>)
        requires
            !cluster@.nodes.contains_key(u32::MAX),
        ensures
            r@ =~= server_bits(cluster@),
    {
        let ids = ids_of(&cluster.nodes);
        assert(cluster@.nodes.dom() =~= cluster.nodes@.dom());
        if ids.len() == 0 {
            proof {
                lemma_server_bits(cluster@, ids@, Seq::empty());
            }
            return Vec::new();
        }
        let last: u32 = ids[ids.len() - 1];
        proof {
            lemma_last_id(ids@, cluster@.nodes.dom());
        }
        let servers = bits_up_to(&cluster.up, last);
        proof {
            lemma_server_bits(cluster@, ids@, servers@);
        }
        servers
    }

    /// The node that holds a chunk.
    pub fn lookup(&self, indicator: &Indicator) -> (r: Option<u32>)
        ensures
            r is None <==> !any_up(self.hasher.servers()),
            r matches Some(node) ==> holds(
                self.hasher.servers(),
                node as int,
                slot_of(chunk_hash(indicator.prefix@, indicator.path@, indicator.offset)),
            ),
            self.well_formed() ==> (r matches Some(node) ==> self.inner@.up.contains(node)),
    {
        match self.hasher.lookup(indicator) {
            Some(node) => Some(node as u32),
            None => None,
        }
    }
}

} // verus!
