//! Consistent hashing: which server is found for a chunk, told from the digests alone.

use crate::cluster::AvalonCluster;
use crate::error::AvalonError;
use crate::hash::{
    any_up, chunk_bytes, covers, holds, is_last_id, last_id, le_bytes, preferences, server_bits,
    server_listing, AvalonClusterAndHasher, AvalonHasher, Indicator,
};
use crate::siphash::sip13;
use crate::slots::{assign_slots, claims, is_claimed, list_slots, lists, none_earlier, owns};
use crate::text::{decimal, join};
use vstd::arithmetic::power::{lemma_pow0, lemma_pow1, lemma_pow_adds, lemma_pow_positive, pow};
use vstd::prelude::*;
use vstd::utf8::encode_utf8;

verus! {

/// The `count` lowest bytes of `x`, the lowest first.
pub open spec fn bytes_of_number(x: int, count: nat) -> Seq<u8> {
    Seq::new(count, |i: int| (x / pow(256, i as nat) % 256) as u8)
}

/// The bytes of a number are its digits to the base 256.
proof fn lemma_le_bytes(x: nat, count: nat)
    ensures
        le_bytes(x, count) =~= bytes_of_number(x as int, count),
    decreases count,
{
    if count > 0 {
        lemma_le_bytes(x / 256, (count - 1) as nat);
        lemma_pow0(256);
        let all = bytes_of_number(x as int, count);
        let rest = bytes_of_number((x / 256) as int, (count - 1) as nat);
        assert forall|i: int| 0 < i < count implies all[i] == rest[i - 1] by {
            let p = pow(256, (i - 1) as nat);
            lemma_pow_positive(256, (i - 1) as nat);
            lemma_pow1(256);
            lemma_pow_adds(256, 1, (i - 1) as nat);
            assert(pow(256, i as nat) == 256 * p);
            vstd::arithmetic::div_mod::lemma_div_denominator(x as int, 256, p);
        }
        assert(x as int / 1 == x);
    }
}

/// Numbers that fit in 8 bytes and have the same 8 bytes are the same.
proof fn lemma_bytes_determine(x: nat, y: nat, count: nat)
    requires
        le_bytes(x, count) == le_bytes(y, count),
    ensures
        x as int % pow(256, count) == y as int % pow(256, count),
    decreases count,
{
    lemma_pow_positive(256, count);
    if count > 0 {
        let rest = (count - 1) as nat;
        let (bx, by) = (le_bytes(x, count), le_bytes(y, count));
        assert(bx[0] == (x % 256) as u8 && by[0] == (y % 256) as u8);
        assert(bx.skip(1) =~= le_bytes(x / 256, rest));
        assert(by.skip(1) =~= le_bytes(y / 256, rest));
        lemma_bytes_determine(x / 256, y / 256, rest);
        lemma_pow_positive(256, rest);
        lemma_pow1(256);
        lemma_pow_adds(256, 1, rest);
        let p = pow(256, rest);
        assert(pow(256, count) == 256 * p);
        vstd::arithmetic::div_mod::lemma_mod_breakdown(x as int, 256, p);
        vstd::arithmetic::div_mod::lemma_mod_breakdown(y as int, 256, p);
    } else {
        lemma_pow0(256);
    }
}

/// The bytes that are hashed for a chunk are those of the prefix, those of the path, and the 8
/// bytes of the offset; and so chunks of one object are hashed by different bytes.
pub proof fn law_hashed_bytes_tell_chunks_apart(
    prefix: Seq<char>,
    path: Seq<char>,
    offset: u64,
    other: u64,
)
    ensures
        chunk_bytes(prefix, path, offset) =~= encode_utf8(prefix) + encode_utf8(path)
            + bytes_of_number(offset as int, 8),
        chunk_bytes(prefix, path, offset) == chunk_bytes(prefix, path, other) ==> offset == other,
{
    lemma_le_bytes(offset as nat, 8);
    let head = encode_utf8(prefix) + encode_utf8(path);
    if chunk_bytes(prefix, path, offset) == chunk_bytes(prefix, path, other) {
        let n = head.len() as int;
        assert(chunk_bytes(prefix, path, offset).skip(n) =~= le_bytes(offset as nat, 8));
        assert(chunk_bytes(prefix, path, other).skip(n) =~= le_bytes(other as nat, 8));
        lemma_bytes_determine(offset as nat, other as nat, 8);
        assert(pow(256, 8) == 0x1_0000_0000_0000_0000) by {
            lemma_pow1(256);
            lemma_pow_adds(256, 1, 1);
            assert(pow(256, 2) == 0x1_0000);
            lemma_pow_adds(256, 2, 2);
            assert(pow(256, 4) == 0x1_0000_0000);
            lemma_pow_adds(256, 4, 4);
        }
        vstd::arithmetic::div_mod::lemma_small_mod(offset as nat, 0x1_0000_0000_0000_0000);
        vstd::arithmetic::div_mod::lemma_small_mod(other as nat, 0x1_0000_0000_0000_0000);
    }
}

/// The slot that server `s` names in round `round`: it begins with its first digest and goes on in
/// strides of its second, round 31991 slots.
pub open spec fn slot_named(s: int, round: int) -> int {
    let id = bytes_of_number(s, 4);
    (sip13(0, 0, id) as int % 31991 + round * (sip13(123, 456, id) as int % 31991)) % 31991
}

/// Among the servers of `up`, `s` is the first to name `slot`: in an earlier round than any other,
/// or in the same round with a lower number.
pub open spec fn first_to_name(up: Set<int>, s: int, slot: int) -> bool {
    &&& up.contains(s)
    &&& exists|round: int| 0 <= round < 31991 && #[trigger] slot_named(s, round) == slot
        && no_one_sooner(up, s, round, slot)
}

/// No server of `up` names `slot` before server `s` does so in round `round`.
pub open spec fn no_one_sooner(up: Set<int>, s: int, round: int, slot: int) -> bool {
    forall|s2: int, round2: int|
        up.contains(s2) && 0 <= round2 < 31991 && #[trigger] slot_named(s2, round2) == slot
            ==> round < round2 || (round == round2 && s <= s2)
}

/// The servers that are up, by number.
pub open spec fn up_servers(servers: Seq<bool>) -> Set<int> {
    Set::new(|s: int| 0 <= s < servers.len() && servers[s])
}

/// What a server lists is what it names.
proof fn lemma_listing(s: int, round: int)
    requires
        0 <= s,
        0 <= round < 31991,
    ensures
        server_listing(s, 31991).len() == 31991,
        server_listing(s, 31991)[round] == slot_named(s, round),
{
    lemma_le_bytes(s as nat, 4);
}

/// A listing claims what its server names.
proof fn lemma_claims(servers: Seq<bool>, s: int, round: int, slot: int)
    ensures
        claims(preferences(servers), s, round, slot) <==> up_servers(servers).contains(s) && 0
            <= round < 31991 && slot_named(s, round) == slot,
{
    if up_servers(servers).contains(s) && 0 <= round < 31991 {
        lemma_listing(s, round);
    }
    if claims(preferences(servers), s, round, slot) {
        assert(servers[s]);
        lemma_listing(s, round);
    }
}

/// A server holds a slot where it is the first to name it.
proof fn lemma_holds(servers: Seq<bool>, s: int, slot: int)
    requires
        holds(servers, s, slot),
    ensures
        first_to_name(up_servers(servers), s, slot),
{
    let table = preferences(servers);
    let round = choose|row: int| #[trigger]
        claims(table, s, row, slot) && none_earlier(table, s, row, slot);
    lemma_claims(servers, s, round, slot);
    assert forall|s2: int, round2: int|
        up_servers(servers).contains(s2) && 0 <= round2 < 31991 && #[trigger] slot_named(s2, round2)
            == slot implies round < round2 || (round == round2 && s <= s2) by {
        lemma_claims(servers, s2, round2, slot);
        assert(claims(table, s2, round2, slot));
    }
    assert(no_one_sooner(up_servers(servers), s, round, slot));
    assert(slot_named(s, round) == slot);
}

/// Every slot is named by a server that is up.
pub open spec fn all_named(up: Set<int>) -> bool {
    forall|slot: int| 0 <= slot < 31991 ==> #[trigger] is_named(up, slot)
}

/// `slot` is named by a server of `up`.
pub open spec fn is_named(up: Set<int>, slot: int) -> bool {
    exists|s: int, round: int|
        up.contains(s) && 0 <= round < 31991 && #[trigger] slot_named(s, round) == slot
}

/// Slots are listed where they are named.
proof fn lemma_covers(servers: Seq<bool>)
    ensures
        covers(servers) <==> all_named(up_servers(servers)),
{
    let up = up_servers(servers);
    assert forall|slot: int| is_claimed(preferences(servers), slot) <==> #[trigger] is_named(
        up,
        slot,
    ) by {
        if is_claimed(preferences(servers), slot) {
            let (s, round) = choose|s: int, round: int| #[trigger]
                claims(preferences(servers), s, round, slot);
            lemma_claims(servers, s, round, slot);
            assert(slot_named(s, round) == slot);
        }
        if is_named(up, slot) {
            let (s, round) = choose|s: int, round: int|
                up.contains(s) && 0 <= round < 31991 && #[trigger] slot_named(s, round) == slot;
            lemma_claims(servers, s, round, slot);
            assert(claims(preferences(servers), s, round, slot));
        }
    }
    if covers(servers) {
        assert forall|slot: int| 0 <= slot < 31991 implies #[trigger] is_named(up, slot) by {
            assert(is_claimed(preferences(servers), slot));
        }
    }
    if all_named(up) {
        assert forall|t: int| 0 <= t < 31991 implies #[trigger] is_claimed(
            preferences(servers),
            t,
        ) by {
            assert(is_named(up, t));
        }
    }
}

/// The digest by which a chunk is found.
pub open spec fn digest_of(indicator: Indicator) -> u64 {
    sip13(
        0,
        0,
        encode_utf8(indicator.prefix@) + encode_utf8(indicator.path@) + bytes_of_number(
            indicator.offset as int,
            8,
        ),
    )
}

/// A chunk is found with the server that is up and is the first to name the slot of its digest; it
/// is found nowhere exactly where no server is up. The digest is over the bytes of the prefix, of
/// the path and of the offset, and finding by the digest alone finds the same server.
pub proof fn law_lookup_finds_first_to_name(
    servers: Vec<bool>,
    h: AvalonHasher,
    indicator: &Indicator,
    found: Option<u16>,
    by_hash: Option<u16>,
)
    requires
        call_ensures(AvalonHasher::new, (servers,), Ok::<AvalonHasher, AvalonError>(h))
            || call_ensures(
            AvalonHasher::try_new,
            (servers,),
            Some(Ok::<AvalonHasher, AvalonError>(h)),
        ),
        call_ensures(AvalonHasher::lookup, (&h, indicator), found),
        call_ensures(AvalonHasher::lookup_hash, (&h, digest_of(*indicator)), by_hash),
    ensures
        found is None <==> up_servers(servers@) =~= Set::<int>::empty(),
        found matches Some(s) ==> first_to_name(
            up_servers(servers@),
            s as int,
            digest_of(*indicator) as int % 31991,
        ),
        by_hash == found,
{
    law_hashed_bytes_tell_chunks_apart(
        indicator.prefix@,
        indicator.path@,
        indicator.offset,
        indicator.offset,
    );
    lemma_any_up(servers@);
    let slot = digest_of(*indicator) as int % 31991;
    if let Some(s) = found {
        lemma_holds(servers@, s as int, slot);
    }
    if let (Some(s), Some(s2)) = (found, by_hash) {
        crate::hash::law_one_holder(servers@, s as int, s2 as int, slot);
    }
}

/// The chunks with a digest are found with the server that is up and is the first to name the slot
/// of that digest; they are found nowhere exactly where no server is up.
pub proof fn law_digest_finds_first_to_name(
    servers: Vec<bool>,
    h: AvalonHasher,
    hash: u64,
    found: Option<u16>,
)
    requires
        call_ensures(AvalonHasher::new, (servers,), Ok::<AvalonHasher, AvalonError>(h)),
        call_ensures(AvalonHasher::lookup_hash, (&h, hash), found),
    ensures
        found is None <==> up_servers(servers@) =~= Set::<int>::empty(),
        found matches Some(s) ==> first_to_name(
            up_servers(servers@),
            s as int,
            hash as int % 31991,
        ),
{
    lemma_any_up(servers@);
    if let Some(s) = found {
        lemma_holds(servers@, s as int, hash as int % 31991);
    }
}

/// Some server is up where the set of those that are is not empty.
proof fn lemma_any_up(servers: Seq<bool>)
    ensures
        any_up(servers) <==> !(up_servers(servers) =~= Set::<int>::empty()),
{
    if any_up(servers) {
        let s = choose|s: int| 0 <= s < servers.len() && #[trigger] servers[s];
        assert(up_servers(servers).contains(s));
    }
    if !(up_servers(servers) =~= Set::<int>::empty()) {
        let s = choose|s: int| up_servers(servers).contains(s);
        assert(servers[s]);
    }
}

/// A hasher is refused where there are too many servers to number, and nowhere else; and the
/// careful way to make one gives none exactly where a server is up and a slot is left that no
/// server names.
pub proof fn law_hasher_made_or_refused(
    servers: Vec<bool>,
    r: Result<AvalonHasher, AvalonError>,
    careful: Option<Result<AvalonHasher, AvalonError>>,
)
    requires
        call_ensures(AvalonHasher::new, (servers,), r),
        call_ensures(AvalonHasher::try_new, (servers,), careful),
    ensures
        r is Err <==> servers.len() >= 65535,
        r matches Err(e) ==> e is TooManyServers,
        careful is None <==> servers.len() < 65535 && !(up_servers(servers@)
            =~= Set::<int>::empty()) && !all_named(up_servers(servers@)),
        careful matches Some(c) ==> (c is Err <==> servers.len() >= 65535),
        careful matches Some(Err(e)) ==> e is TooManyServers,
{
    lemma_any_up(servers@);
    lemma_covers(servers@);
}

/// What a server lists begins with the one digest of its number and goes on in strides of the other,
/// round the slots; with 31991 of them it is, in each round, the slot that the server names there.
pub proof fn law_listing_names_slots(server: u32, num_slots: usize, r: Vec<u16>, round: int)
    requires
        0 < num_slots <= 65536,
        call_ensures(AvalonHasher::permutations_for_server, (server, num_slots), r),
        0 <= round < num_slots,
    ensures
        ({
            let id = bytes_of_number(server as int, 4);
            let n = num_slots as int;
            &&& r.len() == num_slots
            &&& r[round] == (sip13(0, 0, id) as int % n + round * (sip13(123, 456, id) as int % n))
                % n
            &&& num_slots == 31991 ==> r[round] == slot_named(server as int, round)
        }),
{
    lemma_le_bytes(server as nat, 4);
}

/// A listing begins with the first digest and goes on in strides of the second, round the slots.
pub proof fn law_listing_strides(
    k_hash: u64,
    l_hash: u64,
    num_slots: usize,
    r: Vec<u16>,
    round: int,
)
    requires
        0 < num_slots <= 65536,
        call_ensures(list_slots, (k_hash, l_hash, num_slots), r),
        0 <= round < num_slots,
    ensures
        r.len() == num_slots,
        r[round] == (k_hash as int % num_slots as int + round * (l_hash as int
            % num_slots as int)) % num_slots as int,
{
}

/// Server `s` has slot `t` in row `row` of a table.
pub open spec fn in_row(table: Seq<Vec<u16>>, s: int, row: int, t: int) -> bool {
    0 <= s < table.len() && 0 <= row < table[s].len() && table[s][row] == t
}

/// A slot goes to the server that has it in the highest row, and in that row to the lowest number;
/// a slot that no server has goes to nobody. As many slots are counted as went to somebody.
pub proof fn law_slots_go_to_first(
    table: &Vec<Vec<u16>>,
    num_slots: usize,
    r: (Vec<u16>, usize),
    t: int,
)
    requires
        call_ensures(assign_slots, (table, num_slots), r),
        0 <= t < num_slots,
    ensures
        r.0.len() == num_slots,
        (forall|s: int, row: int| !#[trigger] in_row(table@, s, row, t)) ==> r.0[t] == 65535,
        (exists|s: int, row: int| #[trigger] in_row(table@, s, row, t)) ==> (exists|row: int|
            #[trigger] in_row(table@, r.0[t] as int, row, t) && (forall|s2: int, row2: int|
                #[trigger] in_row(table@, s2, row2, t) ==> row < row2 || (row == row2 && r.0[t]
                    <= s2))),
        r.1 == Set::new(|u: int| 0 <= u < r.0.len() && r.0[u] != 65535).len(),
{
    let rows = lists(table@);
    assert forall|s: int, row: int| #[trigger] in_row(table@, s, row, t) <==> claims(
        rows,
        s,
        row,
        t,
    ) by {
        if 0 <= s < table.len() {
            assert(rows[s] == table[s]@);
        }
    }
    assert(crate::slots::slot_holds(rows, t, r.0[t]));
    if exists|s: int, row: int| #[trigger] in_row(table@, s, row, t) {
        let (s, row) = choose|s: int, row: int| #[trigger] in_row(table@, s, row, t);
        assert(claims(rows, s, row, t));
        assert(owns(rows, r.0[t] as int, t));
        let first = choose|row: int| #[trigger]
            claims(rows, r.0[t] as int, row, t) && none_earlier(rows, r.0[t] as int, row, t);
        assert(in_row(table@, r.0[t] as int, first, t));
    } else if is_claimed(rows, t) {
        let (s, row) = choose|s: int, row: int| #[trigger] claims(rows, s, row, t);
        assert(in_row(table@, s, row, t));
    }
    assert(crate::slots::assigned(r.0@) =~= Set::new(
        |u: int| 0 <= u < r.0.len() && r.0[u] != 65535,
    ));
}

/// The nodes of a cluster among which the slots are shared: the ids that are up, as far as the
/// largest id of a node goes.
pub open spec fn sharing_nodes(c: AvalonCluster) -> Set<int> {
    Set::new(
        |id: int|
            0 <= id <= u32::MAX && c.up@.contains(id as u32) && exists|node: u32| #[trigger]
                c.nodes@.contains_key(node) && id <= node,
    )
}

/// The servers of a cluster are the nodes among which its slots are shared.
proof fn lemma_server_bits(c: AvalonCluster)
    requires
        !c.nodes@.contains_key(u32::MAX),
    ensures
        up_servers(server_bits(c@)) =~= sharing_nodes(c),
        server_bits(c@).len() >= 65535 <==> exists|node: u32| #[trigger]
            c.nodes@.contains_key(node) && node >= 65534,
{
    let dom = c@.nodes.dom();
    assert(dom =~= c.nodes@.dom());
    if dom =~= Set::empty() {
        assert(forall|node: u32| !(#[trigger] c.nodes@.contains_key(node)));
    } else {
        let some = dom.choose();
        assert(dom.contains(some));
        lemma_has_last(dom, some);
        let last = last_id(dom);
        assert(is_last_id(dom, last));
        assert(c.nodes@.contains_key(last));
        assert forall|id: int| up_servers(server_bits(c@)).contains(id) <==> sharing_nodes(
            c,
        ).contains(id) by {
            if sharing_nodes(c).contains(id) {
                let node = choose|node: u32| #[trigger] c.nodes@.contains_key(node) && id <= node;
                assert(dom.contains(node));
            }
        }
        if exists|node: u32| #[trigger] c.nodes@.contains_key(node) && node >= 65534 {
            let node = choose|node: u32| #[trigger] c.nodes@.contains_key(node) && node >= 65534;
            assert(dom.contains(node));
        }
    }
}

/// A set of ids that is not empty has a largest one.
proof fn lemma_has_last(ids: Set<u32>, from: u32)
    requires
        ids.contains(from),
    ensures
        exists|last: u32| is_last_id(ids, last),
    decreases u32::MAX - from,
{
    if !is_last_id(ids, from) {
        let more = choose|id: u32| #[trigger] ids.contains(id) && id > from;
        lemma_has_last(ids, more);
    }
}

/// A chunk is found with a node of the cluster that is up, the first of them to name the slot of
/// its digest; it is found nowhere exactly where none of them is up. The cluster is kept as it was
/// given.
pub proof fn law_cluster_lookup_finds_first_to_name(
    cluster: AvalonCluster,
    c: AvalonClusterAndHasher,
    indicator: &Indicator,
    found: Option<u32>,
)
    requires
        !cluster.nodes@.contains_key(u32::MAX),
        call_ensures(
            AvalonClusterAndHasher::new,
            (cluster,),
            Ok::<AvalonClusterAndHasher, AvalonError>(c),
        ) || call_ensures(
            AvalonClusterAndHasher::try_new,
            (cluster,),
            Some(Ok::<AvalonClusterAndHasher, AvalonError>(c)),
        ),
        call_ensures(AvalonClusterAndHasher::lookup, (&c, indicator), found),
    ensures
        c.inner == cluster,
        found is None <==> sharing_nodes(cluster) =~= Set::<int>::empty(),
        found matches Some(node) ==> first_to_name(
            sharing_nodes(cluster),
            node as int,
            digest_of(*indicator) as int % 31991,
        ),
{
    law_known_lookup_finds_first_to_name(&c, indicator, found);
}

/// The same of a cluster that has its own hasher.
pub proof fn law_known_lookup_finds_first_to_name(
    c: &AvalonClusterAndHasher,
    indicator: &Indicator,
    found: Option<u32>,
)
    requires
        c.well_formed(),
        !c.inner.nodes@.contains_key(u32::MAX),
        call_ensures(AvalonClusterAndHasher::lookup, (c, indicator), found),
    ensures
        found is None <==> sharing_nodes(c.inner) =~= Set::<int>::empty(),
        found matches Some(node) ==> first_to_name(
            sharing_nodes(c.inner),
            node as int,
            digest_of(*indicator) as int % 31991,
        ),
{
    law_hashed_bytes_tell_chunks_apart(
        indicator.prefix@,
        indicator.path@,
        indicator.offset,
        indicator.offset,
    );
    let servers = server_bits(c.inner@);
    lemma_server_bits(c.inner);
    lemma_any_up(servers);
    if let Some(node) = found {
        lemma_holds(servers, node as int, digest_of(*indicator) as int % 31991);
    }
}

/// A cluster has a hasher unless one of its nodes has an id that is too large to number; and the
/// careful way to make it gives none exactly where a node is up and a slot is left that none names.
pub proof fn law_cluster_made_or_refused(
    cluster: AvalonCluster,
    r: Result<AvalonClusterAndHasher, AvalonError>,
    careful: Option<Result<AvalonClusterAndHasher, AvalonError>>,
)
    requires
        !cluster.nodes@.contains_key(u32::MAX),
        call_ensures(AvalonClusterAndHasher::new, (cluster,), r),
        call_ensures(AvalonClusterAndHasher::try_new, (cluster,), careful),
    ensures
        ({
            let too_large = exists|node: u32| #[trigger]
                cluster.nodes@.contains_key(node) && node >= 65534;
            let up = sharing_nodes(cluster);
            &&& r is Err <==> too_large
            &&& r matches Err(e) ==> e is TooManyServers
            &&& careful is None <==> !too_large && !(up =~= Set::<int>::empty()) && !all_named(up)
            &&& careful matches Some(made) ==> (made is Err <==> too_large)
            &&& careful matches Some(Err(e)) ==> e is TooManyServers
        }),
{
    let servers = server_bits(cluster@);
    lemma_server_bits(cluster);
    lemma_any_up(servers);
    lemma_covers(servers);
}

/// What is shown of a hasher tells how many slots it shares and each of its servers in turn.
pub proof fn law_shown_hasher(servers: Vec<bool>, h: AvalonHasher, r: String, names: Seq<Seq<char>>)
    requires
        call_ensures(AvalonHasher::new, (servers,), Ok::<AvalonHasher, AvalonError>(h)),
        call_ensures(AvalonHasher::debug_text, (&h,), r),
        names.len() == servers.len(),
        forall|i: int|
            0 <= i < servers.len() ==> #[trigger] names[i] == if servers[i] {
                "true"@
            } else {
                "false"@
            },
    ensures
        r@ =~= "AvalonHasher{num_slots: "@ + (if up_servers(servers@) =~= Set::<int>::empty() {
            decimal(0)
        } else {
            decimal(31991)
        }) + ", servers: ["@ + join(names, ", "@) + "]}"@,
{
    lemma_any_up(servers@);
    assert(names =~= servers@.map_values(|b: bool| crate::hash::bool_text(b)));
}

} // verus!
