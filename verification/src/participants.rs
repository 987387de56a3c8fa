//! The table of participants of a transfer.

use crate::addr::{Ipv4Addr, SocketAddrV4};
use crate::bitmap::{bit_at, numbers_below};
use vstd::prelude::*;

pub use crate::bitmap::{bit_is_set, clear_bit, set_bit};

verus! {

/// The number of places in the table.
pub const MAX_CLIENTS: usize = 1024;

/// One place in the table.
#[derive(Clone, Copy, Debug, PartialEq, Eq)]
pub struct ClientDesc {
    pub addr: SocketAddrV4,
    pub used: bool,
    pub capabilities: u32,
    pub rcvbuf: u32,
    /// The participant has answered something since the transfer started.
    pub ever_answered: bool,
    /// The slice that the participant answered last and the round in which it
    /// first answered that slice.
    pub first_answered_round: Option<(i32, i32)>,
}

/// The participants of a transfer, each under its number in the table.
pub struct ParticipantsDb {
    nr_participants: usize,
    client_table: Vec<ClientDesc>,
}

impl View for ParticipantsDb {
    type V = Seq<ClientDesc>;

    /// The places, taken and free.
    closed spec fn view(&self) -> Seq<ClientDesc> {
        self.client_table@
    }
}

/// The numbers of the places that are taken.
pub open spec fn members(table: Seq<ClientDesc>) -> Set<int> {
    Set::new(|i: int| 0 <= i < table.len() && table[i].used)
}

/// The first place taken under `addr`, or -1.
pub open spec fn place_of(table: Seq<ClientDesc>, addr: SocketAddrV4, r: int) -> bool {
    if r < 0 {
        &&& r == -1
        &&& forall|i: int| 0 <= i < table.len() ==> !(table[i].used && table[i].addr == addr)
    } else {
        &&& r < table.len()
        &&& table[r].used
        &&& table[r].addr == addr
        &&& forall|i: int| 0 <= i < r ==> !(table[i].used && table[i].addr == addr)
    }
}

/// The first free place, or -1; in point-to-point mode the first place only.
pub open spec fn place_for(table: Seq<ClientDesc>, pointopoint: bool, r: int) -> bool {
    if r < 0 {
        &&& r == -1
        &&& pointopoint ==> table.len() == 0 || table[0].used
        &&& !pointopoint ==> forall|i: int| 0 <= i < table.len() ==> table[i].used
    } else {
        &&& r < table.len()
        &&& !table[r].used
        &&& forall|i: int| 0 <= i < r ==> table[i].used
        &&& pointopoint ==> r == 0
    }
}

/// A free place, as it is when the table is made.
pub open spec fn vacant() -> ClientDesc {
    ClientDesc {
        addr: SocketAddrV4 { ip: Ipv4Addr { a: 0, b: 0, c: 0, d: 0 }, port: 0 },
        used: false,
        capabilities: 0,
        rcvbuf: 0,
        ever_answered: false,
        first_answered_round: None,
    }
}

/// A place after an answer to `slice_no` in round `round`.
pub open spec fn answered(c: ClientDesc, slice_no: Option<i32>, round: i32) -> ClientDesc {
    ClientDesc {
        ever_answered: true,
        first_answered_round: match (slice_no, c.first_answered_round) {
            (None, f) => f,
            (Some(s), Some((t, r))) => if s == t {
                Some((t, r))
            } else {
                Some((s, round))
            },
            (Some(s), None) => Some((s, round)),
        },
        ..c
    }
}

/// The table with one more participant in place `i`, which has not answered yet.
pub open spec fn joined(
    table: Seq<ClientDesc>,
    i: int,
    addr: SocketAddrV4,
    capabilities: u32,
    rcvbuf: u32,
) -> Seq<ClientDesc> {
    table.update(
        i,
        ClientDesc {
            addr,
            used: true,
            capabilities,
            rcvbuf,
            ever_answered: false,
            first_answered_round: None,
        },
    )
}

/// Whoever joins is found under the number that it was given, and whoever was there
/// before is found as before.
pub proof fn law_joined_is_found(
    table: Seq<ClientDesc>,
    r: int,
    addr: SocketAddrV4,
    capabilities: u32,
    rcvbuf: u32,
    pointopoint: bool,
    other: SocketAddrV4,
    k: int,
)
    requires
        place_of(table, addr, -1),
        place_for(table, pointopoint, r),
        0 <= r < table.len(),
    ensures
        ({
            let after = joined(table, r, addr, capabilities, rcvbuf);
            &&& place_of(after, addr, r)
            &&& other != addr && place_of(table, other, k) ==> place_of(after, other, k)
            &&& members(after) == members(table).insert(r)
            &&& after[r].capabilities == capabilities
            &&& after[r].rcvbuf == rcvbuf
            &&& !after[r].ever_answered
            &&& after[r].first_answered_round is None
        }),
{
    let after = joined(table, r, addr, capabilities, rcvbuf);
    assert(members(after) =~= members(table).insert(r));
}

/// There is room as long as a place is free; in point-to-point mode for one only.
pub proof fn law_room_for_all(table: Seq<ClientDesc>, pointopoint: bool, r: int, i: int)
    requires
        place_for(table, pointopoint, r),
        0 <= i < table.len(),
        !table[i].used,
    ensures
        !pointopoint ==> 0 <= r <= i,
        pointopoint && i == 0 ==> r == 0,
        pointopoint ==> r <= 0,
{
}

/// The round in which a participant first answered about a slice is that of its first
/// answer: later answers about the slice do not change it.
pub proof fn law_the_first_answer_counts(c: ClientDesc, slice_no: i32, first: i32, later: i32)
    requires
        c.first_answered_round matches Some((no, _)) ==> no != slice_no,
    ensures
        ({
            let once = answered(c, Some(slice_no), first);
            let twice = answered(once, Some(slice_no), later);
            &&& once.first_answered_round == Some((slice_no, first))
            &&& twice.first_answered_round == Some((slice_no, first))
            &&& answered(once, None, later).first_answered_round == Some((slice_no, first))
            &&& once.ever_answered
            &&& once.used == c.used
            &&& once.addr == c.addr
        }),
{
}

/// Participants are a finite set of table numbers.
pub proof fn lemma_members_finite(table: Seq<ClientDesc>)
    ensures
        members(table).finite(),
        members(table).subset_of(numbers_below(table.len() as int)),
        members(table).len() <= table.len(),
{
    vstd::set_lib::lemma_int_range(0, table.len() as int);
    vstd::set_lib::lemma_len_subset(members(table), numbers_below(table.len() as int));
}

impl ParticipantsDb {
    /// The table has its full size, the counter is right and no two
    /// participants have the same address.
    pub closed spec fn wf(&self) -> bool {
        &&& self@.len() == 1024
        &&& self.nr_participants == members(self@).len()
        &&& forall|i: int, j: int|
            0 <= i < j < 1024 && (#[trigger] self@[i]).used && (#[trigger] self@[j]).used
                ==> self@[i].addr != self@[j].addr
    }

    /// The participants.
    pub open spec fn participants(&self) -> Set<int> {
        members(self@)
    }

    /// What well-formedness tells a user of the table.
    pub proof fn lemma_wf(&self)
        requires
            self.wf(),
        ensures
            self@.len() == 1024,
            self.participants().finite(),
            self.participants().len() <= 1024,
            self.participants().subset_of(numbers_below(1024)),
    {
        lemma_members_finite(self@);
    }

    /// No two participants have the same address.
    pub proof fn law_addresses_distinct(&self, i: int, j: int)
        requires
            self.wf(),
            self.participants().contains(i),
            self.participants().contains(j),
            self@[i].addr == self@[j].addr,
        ensures
            i == j,
    {
    }

    /// An empty table.
    pub fn new() -> (r: Self)
        ensures
            r.wf(),
            r@ == Seq::new(1024, |i: int| vacant()),
            r.participants() == Set::<int>::empty(),
    {
        let mut client_table: Vec<ClientDesc> = Vec::new();
        let mut i: usize = 0;
        while i < MAX_CLIENTS
            invariant
                i <= 1024,
                client_table@.len() == i,
                forall|k: int| 0 <= k < i ==> #[trigger] client_table@[k] == vacant(),
            decreases 1024 - i,
        {
            client_table.push(
                ClientDesc {
                    addr: SocketAddrV4 { ip: Ipv4Addr { a: 0, b: 0, c: 0, d: 0 }, port: 0 },
                    used: false,
                    capabilities: 0,
                    rcvbuf: 0,
                    ever_answered: false,
                    first_answered_round: None,
                },
            );
            i += 1;
        }
        let r = ParticipantsDb { nr_participants: 0, client_table };
        assert(r@ =~= Seq::new(1024, |i: int| vacant()));
        assert(members(r@) =~= Set::<int>::empty());
        r
    }

    /// Whether place `i` is taken.
    pub fn is_participant_valid(&self, i: usize) -> (r: bool)
        requires
            self.wf(),
        ensures
            r <==> self.participants().contains(i as int),
    {
        i < self.client_table.len() && self.client_table[i].used
    }

    /// Frees place `i`.
    pub fn remove_participant(&mut self, i: usize) -> (r: i32)
        requires
            old(self).wf(),
        ensures
            final(self).wf(),
            r == 0,
            i < 1024 ==> final(self)@ == old(self)@.update(
                i as int,
                ClientDesc { used: false, ..old(self)@[i as int] },
            ),
            i >= 1024 ==> final(self)@ == old(self)@,
            final(self).participants() == old(self).participants().remove(i as int),
    {
        let ghost before = *self;
        proof {
            self.lemma_wf();
        }
        if i < self.client_table.len() {
            let mut client: ClientDesc = self.client_table[i];
            if client.used {
                assert(members(before@).contains(i as int));
                client.used = false;
                self.client_table.set(i, client);
                assert(members(self@) =~= members(before@).remove(i as int));
                self.nr_participants -= 1;
            } else {
                assert(self@ =~= before@.update(i as int, client));
            }
        }
        assert(members(self@) =~= members(before@).remove(i as int));
        0
    }

    /// The number of the participant at `addr`, or -1.
    pub fn lookup_participant(&self, addr: &SocketAddrV4) -> (r: i32)
        requires
            self.wf(),
        ensures
            place_of(self@, *addr, r as int),
    {
        let mut i: usize = 0;
        while i < self.client_table.len()
            invariant
                self.wf(),
                i <= self@.len(),
                forall|k: int| 0 <= k < i ==> !(self@[k].used && self@[k].addr == *addr),
            decreases self@.len() - i,
        {
            if self.client_table[i].used && self.client_table[i].addr == *addr {
                return i as i32;
            }
            i += 1;
        }
        -1
    }

    /// How many participants there are.
    pub fn nr_participants(&self) -> (r: usize)
        requires
            self.wf(),
        ensures
            r == self.participants().len(),
    {
        self.nr_participants
    }

    /// Takes in the participant at `addr`: the number it has already, else that
    /// of the first free place, else -1. In point-to-point mode there is room
    /// for one only.
    pub fn add_participant(
        &mut self,
        addr: &SocketAddrV4,
        capabilities: u32,
        rcvbuf: u32,
        pointopoint: bool,
    ) -> (r: i32)
        requires
            old(self).wf(),
        ensures
            final(self).wf(),
            (exists|i: int| 0 <= i < 1024 && old(self)@[i].used && old(self)@[i].addr == *addr) ==> {
                &&& place_of(old(self)@, *addr, r as int)
                &&& r >= 0
                &&& final(self)@ == old(self)@
            },
            (forall|i: int|
                0 <= i < 1024 ==> !(old(self)@[i].used && old(self)@[i].addr == *addr)) ==> {
                &&& place_for(old(self)@, pointopoint, r as int)
                &&& r < 0 ==> final(self)@ == old(self)@
                &&& r >= 0 ==> final(self)@ == joined(
                    old(self)@,
                    r as int,
                    *addr,
                    capabilities,
                    rcvbuf,
                )
            },
            r >= 0 ==> final(self).participants() == old(self).participants().insert(r as int),
            r < 0 ==> final(self).participants() == old(self).participants(),
    {
        let ghost before = *self;
        proof {
            self.lemma_wf();
        }
        let existing: i32 = self.lookup_participant(addr);
        if existing >= 0 {
            assert(members(before@) =~= members(before@).insert(existing as int));
            return existing;
        }
        let mut i: usize = 0;
        while i < self.client_table.len()
            invariant
                *self == before,
                before == *old(self),
                before.wf(),
                place_of(before@, *addr, -1),
                i <= before@.len(),
                forall|k: int| 0 <= k < i ==> before@[k].used,
                pointopoint ==> i == 0,
            decreases before@.len() - i,
        {
            if !self.client_table[i].used {
                let client = ClientDesc {
                    addr: *addr,
                    used: true,
                    capabilities,
                    rcvbuf,
                    ever_answered: false,
                    first_answered_round: None,
                };
                proof {
                    before.lemma_wf();
                    vstd::set_lib::lemma_int_range(0, 1024);
                    vstd::set_lib::lemma_len_subset(
                        members(before@).insert(i as int),
                        numbers_below(1024),
                    );
                }
                self.client_table.set(i, client);
                assert(members(self@) =~= members(before@).insert(i as int));
                self.nr_participants += 1;
                return i as i32;
            } else if pointopoint {
                return -1;
            }
            i += 1;
        }
        -1
    }

    /// The capabilities that participant `i` declared.
    pub fn get_participant_capabilities(&self, i: usize) -> (r: u32)
        requires
            self.wf(),
        ensures
            r == if i < 1024 {
                self@[i as int].capabilities
            } else {
                0
            },
    {
        if i < self.client_table.len() {
            self.client_table[i].capabilities
        } else {
            0
        }
    }

    /// Records that participant `i` answered, slice `slice_no` if it is one in
    /// transfer, in round `round`.
    pub fn mark_answered(&mut self, i: usize, slice_no: Option<i32>, round: i32)
        requires
            old(self).wf(),
        ensures
            final(self).wf(),
            i < 1024 ==> final(self)@ == old(self)@.update(
                i as int,
                answered(old(self)@[i as int], slice_no, round),
            ),
            i >= 1024 ==> final(self)@ == old(self)@,
            final(self).participants() == old(self).participants(),
    {
        let ghost before = *self;
        if i < self.client_table.len() {
            let mut client: ClientDesc = self.client_table[i];
            client.ever_answered = true;
            if let Some(sn) = slice_no {
                let stamped: bool = match client.first_answered_round {
                    Some((s, _)) => s == sn,
                    None => false,
                };
                if !stamped {
                    client.first_answered_round = Some((sn, round));
                }
            }
            self.client_table.set(i, client);
        }
        assert(members(self@) =~= members(before@));
    }

    /// Whether participant `i` has answered anything.
    pub fn ever_answered(&self, i: usize) -> (r: bool)
        requires
            self.wf(),
        ensures
            r <==> i < 1024 && self@[i as int].ever_answered,
    {
        i < self.client_table.len() && self.client_table[i].ever_answered
    }

    /// The slice that participant `i` answered last, and the round in which it
    /// first did.
    pub fn first_answered_round(&self, i: usize) -> (r: Option<(i32, i32)>)
        requires
            self.wf(),
        ensures
            r == if i < 1024 {
                self@[i as int].first_answered_round
            } else {
                None
            },
    {
        if i < self.client_table.len() {
            self.client_table[i].first_answered_round
        } else {
            None
        }
    }

    /// The receive buffer that participant `i` declared.
    pub fn get_participant_rcvbuf(&self, i: usize) -> (r: u32)
        requires
            self.wf(),
        ensures
            r == if i < 1024 {
                self@[i as int].rcvbuf
            } else {
                0
            },
    {
        if i < self.client_table.len() {
            self.client_table[i].rcvbuf
        } else {
            0
        }
    }

    /// The address in place `i`.
    pub fn get_participant_ip(&self, i: usize) -> (r: Option<&SocketAddrV4>)
        requires
            self.wf(),
        ensures
            r == if i < 1024 {
                Some(&self@[i as int].addr)
            } else {
                None
            },
    {
        if i < self.client_table.len() {
            Some(&self.client_table[i].addr)
        } else {
            None
        }
    }

    /// The participants whose bit in `d` is as `set` says, in order.
    pub fn select_by_bit(&self, d: &[u8], set: bool) -> (r: Vec<usize>)
        requires
            self.wf(),
        ensures
            r@ == selected(self@, d@, set, 1024),
    {
        let mut r: Vec<usize> = Vec::new();
        let mut i: usize = 0;
        while i < self.client_table.len()
            invariant
                self.wf(),
                i <= self@.len(),
                r@ == selected(self@, d@, set, i as nat),
            decreases self@.len() - i,
        {
            if self.client_table[i].used && bit_is_set(i, d) == set {
                r.push(i);
            }
            i += 1;
        }
        r
    }
}

/// Exactly the participants whose bit is as asked for are listed, each once, in order.
pub proof fn law_selected_are_listed(table: Seq<ClientDesc>, d: Seq<u8>, set: bool, n: nat, i: int)
    requires
        n <= table.len(),
        n <= usize::MAX,
        0 <= i < n,
    ensures
        selected(table, d, set, n).contains(i as usize) <==> table[i].used && bit_at(d, i) == set,
        forall|a: int, b: int|
            0 <= a < b < selected(table, d, set, n).len() ==> selected(table, d, set, n)[a]
                < selected(table, d, set, n)[b],
        forall|a: int|
            0 <= a < selected(table, d, set, n).len() ==> (#[trigger] selected(
                table,
                d,
                set,
                n,
            )[a]) < n,
    decreases n,
{
    let all = selected(table, d, set, n);
    let m = (n - 1) as nat;
    let head = selected(table, d, set, m);
    if m > 0 {
        law_selected_are_listed(table, d, set, m, if i < m { i } else { 0 });
    } else {
        assert(head =~= Seq::<usize>::empty());
    }
    let here = table[n - 1].used && bit_at(d, n - 1) == set;
    if here {
        assert(all == head.push((n - 1) as usize));
        assert(all[head.len() as int] == (n - 1) as usize);
    }
    if i < m {
        if head.contains(i as usize) {
            let k = choose|k: int| 0 <= k < head.len() && head[k] == i as usize;
            assert(all[k] == i as usize);
        }
        if all.contains(i as usize) {
            let k = choose|k: int| 0 <= k < all.len() && all[k] == i as usize;
            assert(head[k] == i as usize);
        }
    } else if all.contains(i as usize) && !here {
        let k = choose|k: int| 0 <= k < head.len() && head[k] == i as usize;
        assert(head[k] < m);
    }
}

/// The participants below `n` whose bit in `d` is as `set` says, in order.
pub open spec fn selected(table: Seq<ClientDesc>, d: Seq<u8>, set: bool, n: nat) -> Seq<usize>
    decreases n,
{
    if n == 0 {
        Seq::empty()
    } else {
        let s = selected(table, d, set, (n - 1) as nat);
        if table[n - 1].used && bit_at(d, n - 1) == set {
            s.push((n - 1) as usize)
        } else {
            s
        }
    }
}

} // verus!
