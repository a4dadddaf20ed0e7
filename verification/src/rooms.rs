use vstd::prelude::*;

use crate::find_index;
use crate::messages::{BrokerMsg, Connected, JoinErr};
use crate::randomness::{crockford_of, encode_crockford, random_byte};

verus! {

/// No two entries of `s` hold the same characters.
pub open spec fn distinct_seqs(s: Seq<Seq<char>>) -> bool {
    forall|i: int, j: int| 0 <= i < j < s.len() ==> s[i] != s[j]
}

/// The characters of every element of a vector of strings, in order.
pub open spec fn views_of(v: Seq<String>) -> Seq<Seq<char>> {
    v.map_values(|s: String| s@)
}

/// One room: the ordered member names and, index-aligned with them, the
/// handle of each member's outbound event channel.
#[derive(Debug)]
pub struct Room {
    pub names: Vec<String>,
    pub chans: Vec<u64>,
}

impl Room {
    /// The member names of this room, as character sequences, in join order.
    pub open spec fn names_seq(self) -> Seq<Seq<char>> {
        views_of(self.names@)
    }

    /// Names and channel handles are index-aligned, and names are unique
    /// within the room.
    pub open spec fn wf(self) -> bool {
        &&& self.names@.len() == self.chans@.len()
        &&& distinct_seqs(self.names_seq())
    }
}

/// The table of all live rooms: ids and rooms are index-aligned, ids are
/// unique, and no room is ever empty.
#[derive(Debug)]
pub struct RoomTable {
    pub ids: Vec<String>,
    pub rooms: Vec<Room>,
}

impl RoomTable {
    /// The room ids, as character sequences, in insertion order.
    pub open spec fn ids_seq(self) -> Seq<Seq<char>> {
        views_of(self.ids@)
    }

    pub open spec fn wf(self) -> bool {
        &&& self.ids@.len() == self.rooms@.len()
        &&& distinct_seqs(self.ids_seq())
        &&& forall|i: int| 0 <= i < self.rooms@.len() ==> (#[trigger] self.rooms@[i]).wf()
        &&& forall|i: int|
            0 <= i < self.rooms@.len() ==> (#[trigger] self.rooms@[i]).names@.len() > 0
    }

    /// Whether a room with id `id` is in the table.
    pub open spec fn contains_id(self, id: Seq<char>) -> bool {
        self.ids_seq().contains(id)
    }

    /// The index of the room with id `id`; meaningful only when the table
    /// contains that id (unique then, since ids are distinct).
    pub open spec fn id_index(self, id: Seq<char>) -> int {
        self.ids_seq().index_of(id)
    }

    /// The room stored under `id`.
    pub open spec fn room_of(self, id: Seq<char>) -> Room {
        self.rooms@[self.id_index(id)]
    }

    /// The member names of the room stored under `id`.
    pub open spec fn room_names(self, id: Seq<char>) -> Seq<Seq<char>> {
        self.room_of(id).names_seq()
    }

    /// The whole table as a map from room id to the member names of that
    /// room: the mathematical model of the table.
    pub open spec fn names_map(self) -> Map<Seq<char>, Seq<Seq<char>>> {
        Map::new(|id: Seq<char>| self.contains_id(id), |id: Seq<char>| self.room_names(id))
    }

    /// For a contained id, `id_index` is its one index in the id list.
    pub proof fn lemma_index_unique(self, id: Seq<char>)
        requires
            self.wf(),
            self.contains_id(id),
        ensures
            0 <= self.id_index(id) < self.ids@.len(),
            self.ids_seq()[self.id_index(id)] == id,
            forall|j: int|
                0 <= j < self.ids@.len() && self.ids_seq()[j] == id ==> j == self.id_index(id),
    {
        let i = choose|i: int| 0 <= i < self.ids_seq().len() && self.ids_seq()[i] == id;
        assert(self.ids_seq()[i] == id);
        assert(0 <= self.id_index(id) < self.ids@.len() && self.ids_seq()[self.id_index(id)] == id);
    }

    /// An empty table, holding no rooms.
    pub fn new() -> (r: RoomTable)
        ensures
            r.wf(),
            r.ids@.len() == 0,
            r.names_map() == Map::<Seq<char>, Seq<Seq<char>>>::empty(),
    {
        let r = RoomTable { ids: Vec::new(), rooms: Vec::new() };
        proof {
            assert(r.names_map() =~= Map::<Seq<char>, Seq<Seq<char>>>::empty());
        }
        r
    }

    /// How many rooms the table currently holds.
    pub fn room_count(&self) -> (n: usize)
        ensures
            n == self.ids@.len(),
    {
        self.ids.len()
    }

    /// The index of the room with this id, or `NoSuchRoom` when the table
    /// has no room under it.
    pub fn get_room_entry(&self, room_id: &String) -> (r: Result<usize, JoinErr>)
        requires
            self.wf(),
        ensures
            match r {
                Ok(i) => self.contains_id(room_id@) && i == self.id_index(room_id@),
                Err(e) => e == JoinErr::NoSuchRoom && !self.contains_id(room_id@),
            },
    {
        match find_index(&self.ids, room_id) {
            Some(i) => {
                proof {
                    assert(self.ids_seq()[i as int] == room_id@);
                    self.lemma_index_unique(room_id@);
                }
                Ok(i)
            },
            None => {
                proof {
                    assert forall|k: int| 0 <= k < self.ids_seq().len() implies self.ids_seq()[k]
                        != room_id@ by {
                        assert(self.ids@[k]@ != room_id@);
                    }
                }
                Err(JoinErr::NoSuchRoom)
            },
        }
    }

    /// Whether the table holds a room under this id.
    pub fn contains_room(&self, room_id: &String) -> (b: bool)
        ensures
            b == self.contains_id(room_id@),
    {
        match find_index(&self.ids, room_id) {
            Some(i) => {
                proof {
                    assert(self.ids_seq()[i as int] == room_id@);
                }
                true
            },
            None => {
                proof {
                    assert forall|k: int| 0 <= k < self.ids_seq().len() implies self.ids_seq()[k]
                        != room_id@ by {
                        assert(self.ids@[k]@ != room_id@);
                    }
                }
                false
            },
        }
    }

    /// The room stored under this id, if any.
    pub fn get_room(&self, room_id: &String) -> (r: Option<&Room>)
        requires
            self.wf(),
        ensures
            match r {
                Some(room) => self.contains_id(room_id@) && *room == self.room_of(room_id@),
                None => !self.contains_id(room_id@),
            },
    {
        match self.get_room_entry(room_id) {
            Ok(i) => Some(&self.rooms[i]),
            Err(_) => None,
        }
    }
}

/// How a successful or failed join changes the table model: the name is
/// appended to the room's member list when the room exists and the name is
/// not yet taken there; otherwise nothing changes.
pub open spec fn spec_join(
    m: Map<Seq<char>, Seq<Seq<char>>>,
    room: Seq<char>,
    name: Seq<char>,
) -> Map<Seq<char>, Seq<Seq<char>>> {
    if m.contains_key(room) && !m[room].contains(name) {
        m.insert(room, m[room].push(name))
    } else {
        m
    }
}

/// How a leave changes the table model: the name is removed from the room's
/// member list when present, and the room disappears when it thereby becomes
/// empty; otherwise nothing changes.
pub open spec fn spec_leave(
    m: Map<Seq<char>, Seq<Seq<char>>>,
    room: Seq<char>,
    name: Seq<char>,
) -> Map<Seq<char>, Seq<Seq<char>>> {
    if m.contains_key(room) && m[room].contains(name) {
        let rest = m[room].remove(m[room].index_of(name));
        if rest.len() == 0 {
            m.remove(room)
        } else {
            m.insert(room, rest)
        }
    } else {
        m
    }
}

/// One membership operation on a room, as the table model sees it.
pub enum MemberOp {
    Join(Seq<char>),
    Leave(Seq<char>),
}

/// Apply one membership operation to the table model.
pub open spec fn apply_op(
    m: Map<Seq<char>, Seq<Seq<char>>>,
    room: Seq<char>,
    op: MemberOp,
) -> Map<Seq<char>, Seq<Seq<char>>> {
    match op {
        MemberOp::Join(n) => spec_join(m, room, n),
        MemberOp::Leave(n) => spec_leave(m, room, n),
    }
}

/// Apply a sequence of membership operations to the table model, in order.
pub open spec fn apply_ops(
    m: Map<Seq<char>, Seq<Seq<char>>>,
    room: Seq<char>,
    ops: Seq<MemberOp>,
) -> Map<Seq<char>, Seq<Seq<char>>>
    decreases ops.len(),
{
    if ops.len() == 0 {
        m
    } else {
        apply_ops(apply_op(m, room, ops[0]), room, ops.drop_first())
    }
}

/// Whether one operation succeeds on the current model: a join of a name
/// not yet in an existing room, or a leave of a name present in it.
pub open spec fn op_succeeds(
    m: Map<Seq<char>, Seq<Seq<char>>>,
    room: Seq<char>,
    op: MemberOp,
) -> bool {
    match op {
        MemberOp::Join(n) => m.contains_key(room) && !m[room].contains(n),
        MemberOp::Leave(n) => m.contains_key(room) && m[room].contains(n),
    }
}

/// How many of the operations succeed as joins, applied in order.
pub open spec fn successful_joins(
    m: Map<Seq<char>, Seq<Seq<char>>>,
    room: Seq<char>,
    ops: Seq<MemberOp>,
) -> int
    decreases ops.len(),
{
    if ops.len() == 0 {
        0
    } else {
        (if ops[0] is Join && op_succeeds(m, room, ops[0]) {
            1int
        } else {
            0int
        }) + successful_joins(apply_op(m, room, ops[0]), room, ops.drop_first())
    }
}

/// How many of the operations succeed as leaves, applied in order.
pub open spec fn successful_leaves(
    m: Map<Seq<char>, Seq<Seq<char>>>,
    room: Seq<char>,
    ops: Seq<MemberOp>,
) -> int
    decreases ops.len(),
{
    if ops.len() == 0 {
        0
    } else {
        (if ops[0] is Leave && op_succeeds(m, room, ops[0]) {
            1int
        } else {
            0int
        }) + successful_leaves(apply_op(m, room, ops[0]), room, ops.drop_first())
    }
}

/// The member count of a room in the model; zero when the room is absent.
pub open spec fn room_size(m: Map<Seq<char>, Seq<Seq<char>>>, room: Seq<char>) -> int {
    if m.contains_key(room) {
        m[room].len() as int
    } else {
        0
    }
}

/// Law: over any sequence of join and leave operations on one room, the
/// room's member count always equals its starting count plus the number of
/// successful joins minus the number of successful leaves, and the room is
/// in the table exactly while that count is positive. `add_player` and
/// `try_remove_player` state their effect on `names_map` as `spec_join`
/// and `spec_leave`, so this covers any run of those operations.
pub proof fn lemma_membership_accounting(
    m: Map<Seq<char>, Seq<Seq<char>>>,
    room: Seq<char>,
    ops: Seq<MemberOp>,
)
    requires
        m.contains_key(room) ==> m[room].len() > 0,
    ensures
        room_size(apply_ops(m, room, ops), room) == room_size(m, room) + successful_joins(
            m,
            room,
            ops,
        ) - successful_leaves(m, room, ops),
        apply_ops(m, room, ops).contains_key(room) <==> room_size(apply_ops(m, room, ops), room)
            > 0,
    decreases ops.len(),
{
    if ops.len() == 0 {
    } else {
        let m1 = apply_op(m, room, ops[0]);
        match ops[0] {
            MemberOp::Join(n) => {
                if op_succeeds(m, room, ops[0]) {
                    assert(m1 == m.insert(room, m[room].push(n)));
                    assert(room_size(m1, room) == room_size(m, room) + 1);
                } else {
                    assert(m1 == m);
                }
            },
            MemberOp::Leave(n) => {
                if op_succeeds(m, room, ops[0]) {
                    let names = m[room];
                    let i = names.index_of(n);
                    let w = choose|w: int| 0 <= w < names.len() && names[w] == n;
                    assert(names[w] == n);
                    assert(0 <= i < names.len());
                    let rest = names.remove(i);
                    assert(rest.len() == names.len() - 1);
                    if rest.len() == 0 {
                        assert(m1 == m.remove(room));
                        assert(room_size(m1, room) == 0);
                    } else {
                        assert(m1 == m.insert(room, rest));
                        assert(room_size(m1, room) == room_size(m, room) - 1);
                    }
                } else {
                    assert(m1 == m);
                }
            },
        }
        assert(m1.contains_key(room) ==> m1[room].len() > 0);
        lemma_membership_accounting(m1, room, ops.drop_first());
    }
}

/// In a duplicate-free sequence, `index_of` is the one index of `x`.
pub proof fn lemma_distinct_index_of(s: Seq<Seq<char>>, x: Seq<char>)
    requires
        distinct_seqs(s),
        s.contains(x),
    ensures
        0 <= s.index_of(x) < s.len(),
        s[s.index_of(x)] == x,
        forall|j: int| 0 <= j < s.len() && s[j] == x ==> j == s.index_of(x),
{
    let i = choose|i: int| 0 <= i < s.len() && s[i] == x;
    assert(0 <= s.index_of(x) < s.len() && s[s.index_of(x)] == x);
}

pub(crate) proof fn lemma_views_push(v: Seq<String>, s: String)
    ensures
        views_of(v.push(s)) =~= views_of(v).push(s@),
{
}

pub(crate) proof fn lemma_views_remove(v: Seq<String>, i: int)
    requires
        0 <= i < v.len(),
    ensures
        views_of(v.remove(i)) =~= views_of(v).remove(i),
{
    assert forall|j: int| 0 <= j < v.remove(i).len() implies views_of(v.remove(i))[j] == views_of(
        v,
    ).remove(i)[j] by {
        if j < i {
        } else {
            assert(v.remove(i)[j] == v[j + 1]);
        }
    }
}

/// Removing one index from a duplicate-free sequence keeps it
/// duplicate-free and drops exactly the removed entry's occurrences.
pub proof fn lemma_distinct_remove(s: Seq<Seq<char>>, i: int)
    requires
        distinct_seqs(s),
        0 <= i < s.len(),
    ensures
        distinct_seqs(s.remove(i)),
        forall|j: int| 0 <= j < s.remove(i).len() ==> s.remove(i)[j] != s[i],
{
    assert forall|a: int, b: int| 0 <= a < b < s.remove(i).len() implies s.remove(i)[a] != s.remove(
        i,
    )[b] by {
        if b < i {
        } else if a < i {
            assert(s.remove(i)[b] == s[b + 1]);
        } else {
            assert(s.remove(i)[a] == s[a + 1]);
            assert(s.remove(i)[b] == s[b + 1]);
        }
    }
    assert forall|j: int| 0 <= j < s.remove(i).len() implies s.remove(i)[j] != s[i] by {
        if j < i {
        } else {
            assert(s.remove(i)[j] == s[j + 1]);
        }
    }
}

impl RoomTable {
    /// After replacing the room at index `i` only, the model is the old
    /// model with that room's entry overwritten.
    proof fn lemma_map_after_update(self, post: RoomTable, i: int)
        requires
            self.wf(),
            0 <= i < self.ids@.len(),
            post.ids@ == self.ids@,
            post.rooms@.len() == self.rooms@.len(),
            forall|j: int| 0 <= j < self.rooms@.len() && j != i ==> post.rooms@[j] == self.rooms@[j],
        ensures
            post.names_map() =~= self.names_map().insert(
                self.ids_seq()[i],
                post.rooms@[i].names_seq(),
            ),
    {
        let rid = self.ids_seq()[i];
        assert(self.contains_id(rid));
        assert(post.ids_seq() == self.ids_seq());
        assert forall|k: Seq<char>| #[trigger] post.names_map().dom().contains(k) implies
            post.names_map()[k] == self.names_map().insert(rid, post.rooms@[i].names_seq())[k] by {
            self.lemma_index_unique(k);
            let idx = self.id_index(k);
            assert(post.id_index(k) == idx);
            if idx == i {
                assert(k == rid);
            } else {
                assert(post.rooms@[idx] == self.rooms@[idx]);
                assert(k != rid);
            }
        }
        assert(post.names_map().dom() =~= self.names_map().insert(
            rid,
            post.rooms@[i].names_seq(),
        ).dom());
        assert(post.names_map() =~= self.names_map().insert(rid, post.rooms@[i].names_seq()));
    }

    /// After appending a room under a fresh id, the model is the old model
    /// with one new entry, and the ids stay duplicate-free.
    proof fn lemma_map_after_push(self, post: RoomTable, id: Seq<char>, room: Room)
        requires
            self.wf(),
            !self.contains_id(id),
            post.ids_seq() == self.ids_seq().push(id),
            post.rooms@ == self.rooms@.push(room),
        ensures
            distinct_seqs(post.ids_seq()),
            post.contains_id(id),
            post.id_index(id) == self.ids@.len(),
            post.room_of(id) == room,
            post.names_map() =~= self.names_map().insert(id, room.names_seq()),
    {
        let n = self.ids_seq().len() as int;
        assert(n == self.ids@.len());
        assert forall|j: int| 0 <= j < n implies self.ids_seq()[j] != id by {
            assert(!self.ids_seq().contains(id));
        }
        assert forall|a: int, b: int| 0 <= a < b < post.ids_seq().len() implies post.ids_seq()[a]
            != post.ids_seq()[b] by {
            if b < n {
            } else {
                assert(post.ids_seq()[b] == id);
                assert(post.ids_seq()[a] == self.ids_seq()[a]);
            }
        }
        assert(post.ids_seq()[n] == id);
        assert(post.contains_id(id));
        lemma_distinct_index_of(post.ids_seq(), id);
        assert(post.id_index(id) == n);
        assert(post.room_of(id) == room);
        assert forall|k: Seq<char>| #[trigger] post.names_map().dom().contains(k) implies
            post.names_map()[k] == self.names_map().insert(id, room.names_seq())[k] by {
            lemma_distinct_index_of(post.ids_seq(), k);
            let idx = post.id_index(k);
            if idx == n {
                assert(k == id);
            } else {
                assert(post.ids_seq()[idx] == self.ids_seq()[idx]);
                assert(self.contains_id(k));
                self.lemma_index_unique(k);
                assert(self.id_index(k) == idx);
                assert(post.rooms@[idx] == self.rooms@[idx]);
                assert(k != id);
            }
        }
        assert forall|k: Seq<char>| #[trigger] self.names_map().insert(
            id,
            room.names_seq(),
        ).dom().contains(k) implies post.names_map().dom().contains(k) by {
            if k == id {
            } else {
                self.lemma_index_unique(k);
                let idx = self.id_index(k);
                assert(post.ids_seq()[idx] == k);
            }
        }
        assert(post.names_map().dom() =~= self.names_map().insert(id, room.names_seq()).dom());
        assert(post.names_map() =~= self.names_map().insert(id, room.names_seq()));
    }

    /// After deleting the room at index `i` and its id, the model is the old
    /// model without that id's entry, and the ids stay duplicate-free.
    proof fn lemma_map_after_remove(self, post: RoomTable, i: int)
        requires
            self.wf(),
            0 <= i < self.ids@.len(),
            post.ids@ == self.ids@.remove(i),
            post.rooms@ == self.rooms@.remove(i),
        ensures
            distinct_seqs(post.ids_seq()),
            !post.contains_id(self.ids_seq()[i]),
            post.names_map() =~= self.names_map().remove(self.ids_seq()[i]),
    {
        let rid = self.ids_seq()[i];
        lemma_views_remove(self.ids@, i);
        assert(post.ids_seq() == self.ids_seq().remove(i));
        lemma_distinct_remove(self.ids_seq(), i);
        assert forall|j: int| 0 <= j < post.ids_seq().len() implies post.ids_seq()[j] != rid by {
            assert(self.ids_seq().remove(i)[j] != self.ids_seq()[i]);
        }
        assert(!post.contains_id(rid));
        assert forall|k: Seq<char>| #[trigger] post.names_map().dom().contains(k) implies
            self.names_map().remove(rid).dom().contains(k) && post.names_map()[k]
                == self.names_map().remove(rid)[k] by {
            lemma_distinct_index_of(post.ids_seq(), k);
            let idx = post.id_index(k);
            let pre_idx: int = if idx < i {
                idx
            } else {
                idx + 1
            };
            assert(post.ids_seq()[idx] == self.ids_seq()[pre_idx]);
            assert(post.rooms@[idx] == self.rooms@[pre_idx]);
            assert(self.contains_id(k));
            self.lemma_index_unique(k);
            assert(self.id_index(k) == pre_idx);
            assert(k != rid);
        }
        assert forall|k: Seq<char>| #[trigger] self.names_map().remove(rid).dom().contains(k)
            implies post.names_map().dom().contains(k) by {
            self.lemma_index_unique(k);
            let pre_idx = self.id_index(k);
            let idx: int = if pre_idx < i {
                pre_idx
            } else {
                pre_idx - 1
            };
            assert(pre_idx != i);
            assert(post.ids_seq()[idx] == self.ids_seq()[pre_idx]);
        }
        assert(post.names_map().dom() =~= self.names_map().remove(rid).dom());
        assert(post.names_map() =~= self.names_map().remove(rid));
    }
}

impl RoomTable {
    /// Admit `name` to the room `room_id`, registering `chan` as the new
    /// member's channel handle. On success, the result carries the room id
    /// and the full member list, and one `Join(name)` event is addressed to
    /// each channel the room held before the join, in member order — the
    /// joiner is told nothing. `NoSuchRoom` and `UsernameTaken` leave the
    /// table untouched and address nobody.
    pub fn add_player(&mut self, room_id: String, name: String, chan: u64) -> (r: (
        Result<Connected, JoinErr>,
        Vec<(u64, BrokerMsg)>,
    ))
        requires
            old(self).wf(),
        ensures
            final(self).wf(),
            final(self).names_map() == spec_join(old(self).names_map(), room_id@, name@),
            final(self).ids@ == old(self).ids@,
            (r.0 matches Ok(_)) <==> (old(self).contains_id(room_id@) && !old(self).room_names(
                room_id@,
            ).contains(name@)),
            r.0 matches Ok(conn) ==> ({
                &&& conn.room_id@ == room_id@
                &&& views_of(conn.players@) == old(self).room_names(room_id@).push(name@)
                &&& final(self).room_of(room_id@).chans@ == old(self).room_of(
                    room_id@,
                ).chans@.push(chan)
                &&& final(self).rooms@.len() == old(self).rooms@.len()
                &&& forall|j: int|
                    0 <= j < old(self).rooms@.len() && j != old(self).id_index(room_id@)
                        ==> #[trigger] final(self).rooms@[j] == old(self).rooms@[j]
                &&& r.1@.len() == old(self).room_of(room_id@).chans@.len()
                &&& forall|k: int|
                    0 <= k < r.1@.len() ==> (#[trigger] r.1@[k]).0 == old(self).room_of(
                        room_id@,
                    ).chans@[k] && r.1@[k].1.is_join(name@)
            }),
            !old(self).contains_id(room_id@) ==> r.0 == Err::<Connected, JoinErr>(
                JoinErr::NoSuchRoom,
            ) && *final(self) == *old(self) && r.1@.len() == 0,
            old(self).contains_id(room_id@) && old(self).room_names(room_id@).contains(name@)
                ==> r.0 == Err::<Connected, JoinErr>(JoinErr::UsernameTaken) && *final(self) == *old(
                self,
            ) && r.1@.len() == 0,
    {
        let entry = self.get_room_entry(&room_id);
        match entry {
            Err(e) => (Err(e), Vec::new()),
            Ok(i) => {
                match find_index(&self.rooms[i].names, &name) {
                    Some(j) => {
                        proof {
                            assert(self.room_names(room_id@)[j as int] == name@);
                        }
                        (Err(JoinErr::UsernameTaken), Vec::new())
                    },
                    None => {
                        proof {
                            assert forall|k: int|
                                0 <= k < self.room_names(room_id@).len() implies self.room_names(
                                room_id@,
                            )[k] != name@ by {
                                assert(self.rooms@[i as int].names@[k]@ != name@);
                            }
                            assert(!self.room_names(room_id@).contains(name@));
                        }
                        let mut sends: Vec<(u64, BrokerMsg)> = Vec::new();
                        let n_chans = self.rooms[i].chans.len();
                        let mut k: usize = 0;
                        while k < n_chans
                            invariant
                                k <= n_chans,
                                i < self.rooms@.len(),
                                n_chans == self.rooms@[i as int].chans@.len(),
                                sends@.len() == k,
                                forall|j: int|
                                    0 <= j < k ==> (#[trigger] sends@[j]).0 == self.rooms@[i as int].chans@[j]
                                        && sends@[j].1.is_join(name@),
                            decreases n_chans - k,
                        {
                            sends.push((self.rooms[i].chans[k], BrokerMsg::Join(name.clone())));
                            k += 1;
                        }
                        let mut room = self.rooms.remove(i);
                        let ghost pre_room = room;
                        room.names.push(name);
                        room.chans.push(chan);
                        let players = clone_strings(&room.names);
                        let ghost new_room = room;
                        self.rooms.insert(i, room);
                        proof {
                            let pre = *old(self);
                            let ii = i as int;
                            assert(pre_room == pre.rooms@[ii]);
                            assert(self.rooms@.len() == pre.rooms@.len());
                            assert forall|j: int|
                                0 <= j < pre.rooms@.len() && j != ii implies self.rooms@[j]
                                == pre.rooms@[j] by {
                                if j < ii {
                                    assert(self.rooms@[j] == pre.rooms@.remove(ii)[j]);
                                } else {
                                    assert(self.rooms@[j] == pre.rooms@.remove(ii)[j - 1]);
                                    assert(pre.rooms@.remove(ii)[j - 1] == pre.rooms@[j]);
                                }
                            }
                            assert(self.rooms@[ii] == new_room);
                            lemma_views_push(pre_room.names@, name);
                            assert(new_room.names_seq() =~= pre.room_names(room_id@).push(name@));
                            // the grown room is well formed
                            assert forall|a: int, b: int|
                                0 <= a < b < new_room.names_seq().len() implies new_room.names_seq()[a]
                                != new_room.names_seq()[b] by {
                                if b < pre_room.names@.len() {
                                    assert(pre_room.names_seq()[a] != pre_room.names_seq()[b]);
                                } else {
                                    assert(new_room.names_seq()[b] == name@);
                                    assert(!pre.room_names(room_id@).contains(name@));
                                    assert(new_room.names_seq()[a] == pre_room.names_seq()[a]);
                                }
                            }
                            assert(new_room.wf());
                            assert(self.wf());
                            pre.lemma_map_after_update(*self, ii);
                            assert(pre.ids_seq()[ii] == room_id@);
                            assert(self.names_map() =~= pre.names_map().insert(
                                room_id@,
                                new_room.names_seq(),
                            ));
                            assert(pre.names_map()[room_id@] == pre.room_names(room_id@));
                            assert(spec_join(pre.names_map(), room_id@, name@) == pre.names_map()
                                .insert(room_id@, pre.room_names(room_id@).push(name@)));
                            assert(self.names_map() == spec_join(pre.names_map(), room_id@, name@));
                            assert(self.room_of(room_id@) == new_room);
                            assert(views_of(players@) == new_room.names_seq());
                        }
                        (Ok(Connected { room_id, players }), sends)
                    },
                }
            },
        }
    }
}

impl RoomTable {
    /// Remove the member `name` from the room `room_id`. A missing room or
    /// an absent name is a no-op. When the member leaves a room that still
    /// has others, the result carries the remaining members' channel
    /// handles; when the room thereby becomes empty it is deleted from the
    /// table and the result is `None`.
    pub fn try_remove_player(&mut self, name: &String, room_id: String) -> (r: Option<Vec<u64>>)
        requires
            old(self).wf(),
        ensures
            final(self).wf(),
            final(self).names_map() == spec_leave(old(self).names_map(), room_id@, name@),
            (r matches Some(_)) <==> (old(self).contains_id(room_id@) && old(self).room_names(
                room_id@,
            ).contains(name@) && old(self).room_names(room_id@).len() > 1),
            r matches Some(chans) ==> ({
                &&& final(self).contains_id(room_id@)
                &&& chans@ == final(self).room_of(room_id@).chans@
                &&& final(self).room_names(room_id@) == old(self).room_names(room_id@).remove(
                    old(self).room_names(room_id@).index_of(name@),
                )
                &&& final(self).room_of(room_id@).chans@ == old(self).room_of(
                    room_id@,
                ).chans@.remove(old(self).room_names(room_id@).index_of(name@))
                &&& final(self).ids@ == old(self).ids@
                &&& final(self).rooms@.len() == old(self).rooms@.len()
                &&& forall|j: int|
                    0 <= j < old(self).rooms@.len() && j != old(self).id_index(room_id@)
                        ==> #[trigger] final(self).rooms@[j] == old(self).rooms@[j]
            }),
            !(old(self).contains_id(room_id@) && old(self).room_names(room_id@).contains(name@))
                ==> *final(self) == *old(self),
            old(self).contains_id(room_id@) && old(self).room_names(room_id@).contains(name@)
                && old(self).room_names(room_id@).len() == 1 ==> !final(self).contains_id(room_id@)
                && final(self).ids@ == old(self).ids@.remove(old(self).id_index(room_id@))
                && final(self).rooms@ == old(self).rooms@.remove(old(self).id_index(room_id@)),
    {
        match self.get_room_entry(&room_id) {
            Err(_) => None,
            Ok(i) => {
                match find_index(&self.rooms[i].names, name) {
                    None => {
                        proof {
                            assert forall|k: int|
                                0 <= k < self.room_names(room_id@).len() implies self.room_names(
                                room_id@,
                            )[k] != name@ by {
                                assert(self.rooms@[i as int].names@[k]@ != name@);
                            }
                            assert(!self.room_names(room_id@).contains(name@));
                        }
                        None
                    },
                    Some(j) => {
                        proof {
                            assert(self.room_names(room_id@)[j as int] == name@);
                            lemma_distinct_index_of(self.room_names(room_id@), name@);
                            assert(self.room_names(room_id@).index_of(name@) == j as int);
                        }
                        let mut room = self.rooms.remove(i);
                        let ghost pre_room = room;
                        room.names.remove(j);
                        room.chans.remove(j);
                        if room.names.len() == 0 {
                            self.ids.remove(i);
                            proof {
                                let pre = *old(self);
                                let ii = i as int;
                                pre.lemma_map_after_remove(*self, ii);
                                assert(pre.ids_seq()[ii] == room_id@);
                                assert(self.names_map() =~= pre.names_map().remove(room_id@));
                                assert(pre.names_map()[room_id@] == pre.room_names(room_id@));
                                assert(pre.room_names(room_id@).remove(
                                    pre.room_names(room_id@).index_of(name@),
                                ).len() == 0);
                                assert(self.names_map() == spec_leave(
                                    pre.names_map(),
                                    room_id@,
                                    name@,
                                ));
                                assert forall|a: int|
                                    0 <= a < self.rooms@.len() implies (#[trigger] self.rooms@[a]).wf()
                                        && self.rooms@[a].names@.len() > 0 by {
                                    if a < ii {
                                        assert(self.rooms@[a] == pre.rooms@[a]);
                                    } else {
                                        assert(self.rooms@[a] == pre.rooms@[a + 1]);
                                    }
                                }
                                assert(self.wf());
                            }
                            None
                        } else {
                            let chans = copy_chans(&room.chans);
                            let ghost new_room = room;
                            self.rooms.insert(i, room);
                            proof {
                                let pre = *old(self);
                                let ii = i as int;
                                let jj = j as int;
                                assert(pre_room == pre.rooms@[ii]);
                                assert(self.rooms@.len() == pre.rooms@.len());
                                assert forall|a: int|
                                    0 <= a < pre.rooms@.len() && a != ii implies self.rooms@[a]
                                    == pre.rooms@[a] by {
                                    if a < ii {
                                        assert(self.rooms@[a] == pre.rooms@.remove(ii)[a]);
                                    } else {
                                        assert(self.rooms@[a] == pre.rooms@.remove(ii)[a - 1]);
                                        assert(pre.rooms@.remove(ii)[a - 1] == pre.rooms@[a]);
                                    }
                                }
                                assert(self.rooms@[ii] == new_room);
                                lemma_views_remove(pre_room.names@, jj);
                                assert(new_room.names_seq() =~= pre.room_names(room_id@).remove(
                                    jj,
                                ));
                                lemma_distinct_remove(pre.room_names(room_id@), jj);
                                assert(new_room.wf());
                                assert(self.wf());
                                pre.lemma_map_after_update(*self, ii);
                                assert(pre.ids_seq()[ii] == room_id@);
                                assert(self.names_map() =~= pre.names_map().insert(
                                    room_id@,
                                    new_room.names_seq(),
                                ));
                                assert(pre.names_map()[room_id@] == pre.room_names(room_id@));
                                assert(self.names_map() == spec_leave(
                                    pre.names_map(),
                                    room_id@,
                                    name@,
                                ));
                                assert(self.room_of(room_id@) == new_room);
                            }
                            Some(chans)
                        }
                    },
                }
            },
        }
    }
}

/// How many random bytes go into a room id.
pub const ROOM_ID_BYTES: usize = 5;

/// How many candidate ids are drawn before room creation gives up.
pub const MAX_ROOM_CREATION_ATTEMPTS: usize = 5;

/// A fresh candidate room id: a fixed number of independently drawn random
/// bytes, encoded in the Crockford base-32 alphabet for a short, typeable
/// code.
fn create_room_id(rng: &mut fastrand::Rng) -> (r: String)
    ensures
        exists|bs: Seq<u8>| bs.len() == ROOM_ID_BYTES && r@ == #[trigger] crockford_of(bs),
{
    let mut bytes: Vec<u8> = Vec::new();
    let mut k: usize = 0;
    while k < ROOM_ID_BYTES
        invariant
            k <= ROOM_ID_BYTES,
            bytes@.len() == k,
        decreases ROOM_ID_BYTES - k,
    {
        bytes.push(random_byte(rng));
        k += 1;
    }
    encode_crockford(&bytes)
}

impl RoomTable {
    /// The first candidate id that no existing room uses, or `None` when
    /// every candidate collides with the table.
    pub fn pick_unused_id(&self, candidates: &Vec<String>) -> (r: Option<String>)
        ensures
            match r {
                Some(id) => exists|i: int|
                    0 <= i < candidates@.len() && candidates@[i]@ == id@ && !self.contains_id(id@)
                        && (forall|j: int|
                        0 <= j < i ==> self.contains_id(#[trigger] candidates@[j]@)),
                None => forall|i: int|
                    0 <= i < candidates@.len() ==> self.contains_id(#[trigger] candidates@[i]@),
            },
    {
        let mut k: usize = 0;
        while k < candidates.len()
            invariant
                k <= candidates@.len(),
                forall|j: int| 0 <= j < k ==> self.contains_id(#[trigger] candidates@[j]@),
            decreases candidates@.len() - k,
        {
            if !self.contains_room(&candidates[k]) {
                let id = candidates[k].clone();
                proof {
                    assert(candidates@[k as int]@ == id@);
                }
                return Some(id);
            }
            k += 1;
        }
        None
    }

    /// Draw a bounded number of candidate ids and return the first unused
    /// one, or `None` when every draw collided; the table is never changed.
    /// An empty table has no id to collide with, so there success is owed.
    pub fn try_create_room(&self, rng: &mut fastrand::Rng) -> (r: Option<String>)
        ensures
            r matches Some(id) ==> !self.contains_id(id@),
            self.ids@.len() == 0 ==> r is Some,
    {
        let mut candidates: Vec<String> = Vec::new();
        let mut k: usize = 0;
        while k < MAX_ROOM_CREATION_ATTEMPTS
            invariant
                k <= MAX_ROOM_CREATION_ATTEMPTS,
                candidates@.len() == k,
            decreases MAX_ROOM_CREATION_ATTEMPTS - k,
        {
            candidates.push(create_room_id(rng));
            k += 1;
        }
        let r = self.pick_unused_id(&candidates);
        proof {
            if self.ids@.len() == 0 && r is None {
                assert(self.contains_id(candidates@[0]@));
                let w = choose|w: int| 0 <= w < self.ids_seq().len() && self.ids_seq()[w]
                    == candidates@[0]@;
                assert(false);
            }
        }
        r
    }

    /// Create a room holding exactly the creating member, under an id that
    /// collides with no existing room, registering `chan` as the member's
    /// channel handle. When all candidate ids collide, the table is left
    /// unchanged and `FailedToCreateRoom` is returned — the only failure.
    pub fn create_room(&mut self, name: String, chan: u64, rng: &mut fastrand::Rng) -> (r: Result<
        Connected,
        JoinErr,
    >)
        requires
            old(self).wf(),
        ensures
            final(self).wf(),
            old(self).ids@.len() == 0 ==> r is Ok,
            r matches Ok(conn) ==> ({
                &&& !old(self).contains_id(conn.room_id@)
                &&& final(self).contains_id(conn.room_id@)
                &&& final(self).names_map() == old(self).names_map().insert(
                    conn.room_id@,
                    seq![name@],
                )
                &&& conn.players@.len() == 1 && conn.players@[0]@ == name@
                &&& final(self).room_of(conn.room_id@).names_seq() == seq![name@]
                &&& final(self).room_of(conn.room_id@).chans@ == seq![chan]
                &&& final(self).ids@.len() == old(self).ids@.len() + 1
                &&& final(self).ids@[old(self).ids@.len() as int]@ == conn.room_id@
                &&& forall|j: int|
                    0 <= j < old(self).ids@.len() ==> (#[trigger] final(self).ids@[j])
                        == old(self).ids@[j] && final(self).rooms@[j] == old(self).rooms@[j]
            }),
            r matches Err(e) ==> e == JoinErr::FailedToCreateRoom && *final(self) == *old(self),
    {
        match self.try_create_room(rng) {
            None => Err(JoinErr::FailedToCreateRoom),
            Some(id) => {
                let room_id = id.clone();
                let mut names: Vec<String> = Vec::new();
                names.push(name.clone());
                let mut chans: Vec<u64> = Vec::new();
                chans.push(chan);
                let room = Room { names, chans };
                let ghost new_room = room;
                let ghost id_chars = id@;
                self.ids.push(id);
                self.rooms.push(room);
                proof {
                    let pre = *old(self);
                    assert(self.ids_seq() =~= pre.ids_seq().push(id_chars));
                    pre.lemma_map_after_push(*self, id_chars, new_room);
                    assert(new_room.names_seq() =~= seq![name@]);
                    assert(distinct_seqs(new_room.names_seq()));
                    assert(new_room.wf());
                    assert forall|a: int|
                        0 <= a < self.rooms@.len() implies (#[trigger] self.rooms@[a]).wf()
                            && self.rooms@[a].names@.len() > 0 by {
                        if a < pre.rooms@.len() {
                            assert(self.rooms@[a] == pre.rooms@[a]);
                        } else {
                            assert(self.rooms@[a] == new_room);
                        }
                    }
                    assert(self.wf());
                    assert(self.names_map() == pre.names_map().insert(
                        id_chars,
                        new_room.names_seq(),
                    ));
                }
                let mut players: Vec<String> = Vec::new();
                players.push(name);
                Ok(Connected { room_id, players })
            },
        }
    }
}

/// An element-by-element copy of a vector of names.
pub(crate) fn clone_strings(v: &Vec<String>) -> (r: Vec<String>)
    ensures
        r@ == v@,
{
    let mut r: Vec<String> = Vec::new();
    let mut k: usize = 0;
    while k < v.len()
        invariant
            k <= v@.len(),
            r@.len() == k,
            forall|j: int| 0 <= j < k ==> r@[j] == v@[j],
        decreases v@.len() - k,
    {
        r.push(v[k].clone());
        k += 1;
    }
    proof {
        assert(r@ =~= v@);
    }
    r
}

/// An element-by-element copy of a vector of channel handles.
pub(crate) fn copy_chans(v: &Vec<u64>) -> (r: Vec<u64>)
    ensures
        r@ == v@,
{
    let mut r: Vec<u64> = Vec::new();
    let mut k: usize = 0;
    while k < v.len()
        invariant
            k <= v@.len(),
            r@.len() == k,
            forall|j: int| 0 <= j < k ==> r@[j] == v@[j],
        decreases v@.len() - k,
    {
        r.push(v[k]);
        k += 1;
    }
    proof {
        assert(r@ =~= v@);
    }
    r
}

} // verus!

