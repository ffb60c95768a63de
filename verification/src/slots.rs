//! Sharing slots among servers.
//!
//! Each server lists all slots in an order of its own. Row by row, the servers in turn claim the
//! slot that they list there, and a slot goes to the first that claims it.

use crate::modular::step;
use vstd::prelude::*;

verus! {

/// What a slot holds that no server has claimed.
pub const UNASSIGNED: u16 = 65535;

/// The tables' rows as sequences.
pub open spec fn lists(table: Seq<Vec<u16>>) -> Seq<Seq<u16>> {
    table.map_values(|row: Vec<u16>| row@)
}

/// Server `s` lists slot `t` in row `row`.
pub open spec fn claims(table: Seq<Seq<u16>>, s: int, row: int, t: int) -> bool {
    &&& 0 <= s < table.len()
    &&& 0 <= row < table[s].len()
    &&& table[s][row] == t
}

/// Some server lists slot `t`.
pub open spec fn is_claimed(table: Seq<Seq<u16>>, t: int) -> bool {
    exists|s: int, row: int| #[trigger] claims(table, s, row, t)
}

/// No server lists slot `t` in a row above `row`, and none before `s` lists it in that row.
pub open spec fn none_earlier(table: Seq<Seq<u16>>, s: int, row: int, t: int) -> bool {
    forall|s2: int, row2: int| #[trigger]
        claims(table, s2, row2, t) ==> row < row2 || (row == row2 && s <= s2)
}

/// Server `s` is the first to claim slot `t`.
pub open spec fn owns(table: Seq<Seq<u16>>, s: int, t: int) -> bool {
    exists|row: int| #[trigger] claims(table, s, row, t) && none_earlier(table, s, row, t)
}

/// What slot `t` holds in the end.
pub open spec fn slot_holds(table: Seq<Seq<u16>>, t: int, held: u16) -> bool {
    if is_claimed(table, t) {
        owns(table, held as int, t)
    } else {
        held == UNASSIGNED
    }
}

/// The slots that hold a server.
pub open spec fn assigned(slots: Seq<u16>) -> Set<int> {
    Set::new(|t: int| 0 <= t < slots.len() && slots[t] != UNASSIGNED)
}

/// Every list is empty or has one entry for each of `num_slots` rows, and the entries are slots.
pub open spec fn is_table(table: Seq<Seq<u16>>, num_slots: int) -> bool {
    &&& forall|s: int|
        0 <= s < table.len() ==> (#[trigger] table[s]).len() == 0 || table[s].len() == num_slots
    &&& forall|s: int, row: int|
        #![trigger table[s][row]]
        0 <= s < table.len() && 0 <= row < table[s].len() ==> table[s][row] < num_slots
}

/// A slot has one owner.
pub proof fn law_one_owner(table: Seq<Seq<u16>>, s1: int, s2: int, t: int)
    requires
        owns(table, s1, t),
        owns(table, s2, t),
    ensures
        s1 == s2,
{
    let row1 = choose|row: int| #[trigger]
        claims(table, s1, row, t) && none_earlier(table, s1, row, t);
    let row2 = choose|row: int| #[trigger]
        claims(table, s2, row, t) && none_earlier(table, s2, row, t);
    assert(claims(table, s1, row1, t) && claims(table, s2, row2, t));
}

/// A slot that is listed has an owner.
pub proof fn law_claimed_has_owner(table: Seq<Seq<u16>>, t: int)
    requires
        is_claimed(table, t),
    ensures
        exists|s: int| #[trigger] owns(table, s, t),
{
    let (s, row) = choose|s: int, row: int| #[trigger] claims(table, s, row, t);
    lemma_earliest(table, s, row, t);
}

/// Going back from a claim to the earliest one.
proof fn lemma_earliest(table: Seq<Seq<u16>>, s: int, row: int, t: int)
    requires
        claims(table, s, row, t),
    ensures
        exists|first: int| #[trigger] owns(table, first, t),
    decreases row, s,
{
    if none_earlier(table, s, row, t) {
        assert(owns(table, s, t));
    } else {
        let (s2, row2) = choose|s2: int, row2: int|
            #[trigger] claims(table, s2, row2, t) && !(row < row2 || (row == row2 && s <= s2));
        lemma_earliest(table, s2, row2, t);
    }
}

/// A server that stops listing slots loses those that it owned, and no other slot changes hands.
/// The same, read backwards, holds of a server that starts: what it does not take stays.
pub proof fn law_others_keep_slots(table: Seq<Seq<u16>>, smaller: Seq<Seq<u16>>, s: int, t: int)
    requires
        owns(table, s, t),
        0 <= s < smaller.len(),
        smaller[s] == table[s],
        forall|i: int|
            0 <= i < smaller.len() && (#[trigger] smaller[i]).len() > 0 ==> i < table.len()
                && smaller[i] == table[i],
    ensures
        owns(smaller, s, t),
{
    let row = choose|row: int| #[trigger]
        claims(table, s, row, t) && none_earlier(table, s, row, t);
    assert(claims(smaller, s, row, t));
    assert forall|s2: int, row2: int| #[trigger] claims(smaller, s2, row2, t) implies row < row2
        || (row == row2 && s <= s2) by {
        assert(smaller[s2].len() > 0);
        assert(claims(table, s2, row2, t));
    }
}

/// The order in which a server lists the slots: from `k` on in steps of `l`, both taken from its
/// two digests.
pub open spec fn listing(k_hash: u64, l_hash: u64, num_slots: int) -> Seq<u16> {
    Seq::new(
        num_slots as nat,
        |j: int| step(k_hash as int % num_slots, l_hash as int % num_slots, num_slots, j) as u16,
    )
}

/// The order in which a server with these digests lists the slots.
pub fn list_slots(k_hash: u64, l_hash: u64, num_slots: usize) -> (r: Vec<u16>)
    requires
        0 < num_slots <= 65536,
    ensures
        r@ =~= listing(k_hash, l_hash, num_slots as int),
        forall|j: int| 0 <= j < r.len() ==> r[j] < num_slots,
{
    let mut results: Vec<u16> = Vec::with_capacity(num_slots);
    let n: u64 = num_slots as u64;
    let k: u64 = k_hash % n;
    let l: u64 = l_hash % n;
    let mut j: u64 = 0;
    while j < n
        invariant
            0 < n == num_slots <= 65536,
            k == k_hash as int % num_slots as int,
            l == l_hash as int % num_slots as int,
            k < n,
            l < n,
            j <= n,
            results.len() == j,
            forall|i: int|
                0 <= i < j ==> #[trigger] results[i] == listing(k_hash, l_hash, num_slots as int)[i]
                    && results[i] < num_slots,
        decreases n - j,
    {
        assert(j * l <= 65536 * 65536) by (nonlinear_arith)
            requires
                0 <= j <= 65536,
                0 <= l <= 65536,
        ;
        let slot: u64 = (k + j * l) % n;
        results.push(slot as u16);
        j = j + 1;
    }
    results
}

/// Shares the slots. Gives what each slot holds, and how many of them hold a server.
pub fn assign_slots(table: &Vec<Vec<u16>>, num_slots: usize) -> (r: (Vec<u16>, usize))
    requires
        table.len() < UNASSIGNED,
        is_table(lists(table@), num_slots as int),
    ensures
        r.0.len() == num_slots,
        forall|t: int| 0 <= t < num_slots ==> slot_holds(lists(table@), t, #[trigger] r.0[t]),
        r.1 == assigned(r.0@).len(),
{
    let ghost rows = lists(table@);
    let mut slots: Vec<u16> = Vec::with_capacity(num_slots);
    let mut fill: usize = 0;
    while fill < num_slots
        invariant
            fill <= num_slots,
            slots.len() == fill,
            forall|t: int| 0 <= t < fill ==> slots[t] == UNASSIGNED,
        decreases num_slots - fill,
    {
        slots.push(UNASSIGNED);
        fill = fill + 1;
    }
    let mut num_assigned: usize = 0;
    assert(assigned(slots@) =~= Set::empty());
    let mut row: usize = 0;
    while row < num_slots
        invariant
            table.len() < UNASSIGNED,
            rows == lists(table@),
            is_table(rows, num_slots as int),
            row <= num_slots,
            slots.len() == num_slots,
            num_assigned == assigned(slots@).len(),
            assigned(slots@).finite(),
            shared_up_to(rows, slots@, row as int, 0),
        decreases num_slots - row,
    {
        let mut server: usize = 0;
        while server < table.len()
            invariant
                table.len() < UNASSIGNED,
                rows == lists(table@),
                is_table(rows, num_slots as int),
                row < num_slots,
                server <= table.len(),
                slots.len() == num_slots,
                num_assigned == assigned(slots@).len(),
                assigned(slots@).finite(),
                shared_up_to(rows, slots@, row as int, server as int),
            decreases table.len() - server,
        {
            proof {
                lemma_assigned_all(slots@);
            }
            if num_assigned >= num_slots {
                return (slots, num_assigned);
            }
            let ghost before = slots@;
            assert(rows[server as int] == table[server as int]@);
            if table[server].len() > 0 {
                let index = table[server][row] as usize;
                assert(rows[server as int][row as int] < num_slots);
                assert(claims(rows, server as int, row as int, index as int));
                if slots[index] == UNASSIGNED {
                    slots.set(index, server as u16);
                    num_assigned = num_assigned + 1;
                    assert(assigned(slots@) =~= assigned(before).insert(index as int));
                    assert(none_earlier(rows, server as int, row as int, index as int));
                    assert(owns(rows, server as int, index as int));
                }
            }
            server = server + 1;
        }
        row = row + 1;
    }
    (slots, num_assigned)
}

/// What the slots hold after the claims of all rows above `row`, and in that row of the servers
/// before `server`.
spec fn shared_up_to(table: Seq<Seq<u16>>, slots: Seq<u16>, row: int, server: int) -> bool {
    forall|t: int|
        #![trigger slots[t]]
        0 <= t < slots.len() ==> if slots[t] == UNASSIGNED {
            forall|s2: int, row2: int| #[trigger]
                claims(table, s2, row2, t) ==> row < row2 || (row == row2 && server <= s2)
        } else {
            owns(table, slots[t] as int, t)
        }
}

/// As many slots as there are hold a server exactly when each does.
pub proof fn lemma_assigned_all(slots: Seq<u16>)
    ensures
        assigned(slots).finite(),
        assigned(slots).len() <= slots.len(),
        assigned(slots).len() == slots.len() <==> (forall|t: int|
            0 <= t < slots.len() ==> slots[t] != UNASSIGNED),
{
    let all = vstd::set_lib::set_int_range(0, slots.len() as int);
    vstd::set_lib::lemma_int_range(0, slots.len() as int);
    assert(assigned(slots).subset_of(all));
    vstd::set_lib::lemma_len_subset(assigned(slots), all);
    if assigned(slots).len() == slots.len() {
        vstd::set_lib::lemma_subset_equality(assigned(slots), all);
        assert forall|t: int| 0 <= t < slots.len() implies slots[t] != UNASSIGNED by {
            assert(all.contains(t));
        }
    }
    if forall|t: int| 0 <= t < slots.len() ==> slots[t] != UNASSIGNED {
        assert(assigned(slots) =~= all);
    }
}

} // verus!
