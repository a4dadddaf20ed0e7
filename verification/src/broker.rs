use vstd::prelude::*;

use crate::assign::{assign_roles, pair_names, pair_roles, SpyfallRepo};
use crate::messages::{Assignment, BrokerMsg, ClientMsg, Connected, Join, JoinErr, RoomMsg, Start};
use crate::rooms::{clone_strings, distinct_seqs, spec_join, spec_leave, views_of, Room, RoomTable};

verus! {

/// The fewest members a room needs before a round can start.
pub const MIN_PLAYERS_TO_START_GAME: usize = 3;

/// What the transport is asked to do after one command: deliver at most one
/// direct reply to the requester, and push each listed event onto the
/// channel with the listed handle, in order.
pub struct Effects {
    pub reply: Option<Result<Connected, JoinErr>>,
    pub sends: Vec<(u64, BrokerMsg)>,
}

/// Every channel of `room` is addressed once, in member order, with a
/// `Join(name)` event.
pub open spec fn join_sends_ok(room: Room, name: Seq<char>, sends: Seq<(u64, BrokerMsg)>) -> bool {
    &&& sends.len() == room.chans@.len()
    &&& forall|k: int|
        0 <= k < sends.len() ==> (#[trigger] sends[k]).0 == room.chans@[k] && sends[k].1.is_join(
            name,
        )
}

/// Every listed channel is addressed once, in order, with a `Left(name)`
/// event.
pub open spec fn left_sends_ok(chans: Seq<u64>, name: Seq<char>, sends: Seq<(u64, BrokerMsg)>) -> bool {
    &&& sends.len() == chans.len()
    &&& forall|k: int|
        0 <= k < sends.len() ==> (#[trigger] sends[k]).0 == chans[k] && sends[k].1.is_left(name)
}

/// Every channel of `room` is addressed once, in member order, with a
/// `NotEnoughPlayers` event.
pub open spec fn nep_sends_ok(room: Room, sends: Seq<(u64, BrokerMsg)>) -> bool {
    &&& sends.len() == room.chans@.len()
    &&& forall|k: int|
        0 <= k < sends.len() ==> (#[trigger] sends[k]).0 == room.chans@[k] && sends[k].1
            is NotEnoughPlayers
}

/// A started-round event for a non-spy member: the shared first player and
/// location, and exactly the role `role`.
pub open spec fn is_exact_role_start(
    e: BrokerMsg,
    first: Seq<char>,
    loc: Seq<char>,
    role: Seq<char>,
) -> bool {
    &&& e matches BrokerMsg::Started(st)
    &&& st.first@ == first
    &&& st.assignment matches Some(a) && a.location@ == loc && a.role@ == role
}

/// The position of member `k` among the non-spy members, when the spy sits
/// at index `si`.
pub open spec fn non_spy_index(k: int, si: int) -> int {
    if k < si {
        k
    } else {
        k - 1
    }
}

/// Every member of `room` is told the round started, in member order, all
/// with the same first player (a member). Exactly one member — the spy —
/// receives no assignment; every other member receives the same location
/// and the role at its position in some permutation of that location's role
/// list, cycled when members outnumber the roles.
pub open spec fn started_sends_ok(room: Room, repo: SpyfallRepo, sends: Seq<(u64, BrokerMsg)>) -> bool {
    &&& sends.len() == room.chans@.len()
    &&& forall|k: int| 0 <= k < sends.len() ==> (#[trigger] sends[k]).0 == room.chans@[k]
    &&& exists|fi: int, si: int, loc: Seq<char>, perm: Seq<String>|
        #![trigger room.names_seq()[fi], room.names_seq()[si], repo.roles_at(loc), perm.to_multiset()]
        {
            &&& 0 <= fi < room.names_seq().len()
            &&& 0 <= si < room.names_seq().len()
            &&& repo.has_location(loc)
            &&& perm.to_multiset() == repo.roles_at(loc).to_multiset()
            &&& perm.len() > 0
            &&& forall|k: int|
                0 <= k < sends.len() ==> if k == si {
                    (#[trigger] sends[k]).1.is_spy_start(room.names_seq()[fi])
                } else {
                    is_exact_role_start(
                        sends[k].1,
                        room.names_seq()[fi],
                        loc,
                        perm[non_spy_index(k, si) % (perm.len() as int)]@,
                    )
                }
        }
}

/// The role assigned to `name`, looked up among the round's role pairs.
fn find_role(pairs: &Vec<(String, String)>, name: &String) -> (r: Option<String>)
    ensures
        match r {
            Some(role) => exists|i: int|
                0 <= i < pairs@.len() && (#[trigger] pairs@[i]).0@ == name@ && role@
                    == pairs@[i].1@,
            None => forall|i: int| 0 <= i < pairs@.len() ==> (#[trigger] pairs@[i]).0@ != name@,
        },
{
    let mut i: usize = 0;
    while i < pairs.len()
        invariant
            i <= pairs@.len(),
            forall|j: int| 0 <= j < i ==> (#[trigger] pairs@[j]).0@ != name@,
        decreases pairs@.len() - i,
    {
        if pairs[i].0 == *name {
            return Some(pairs[i].1.clone());
        }
        i += 1;
    }
    None
}

/// Start a round in the room `room_id`. A missing room is a silent no-op.
/// A room below the minimum player count has `NotEnoughPlayers` broadcast
/// to every member, and its membership is untouched. Otherwise every member
/// is sent its own view of the started round: the spy gets no assignment,
/// everyone else the shared location and a role, and all see the same first
/// player.
pub fn start_game(
    rooms: &RoomTable,
    room_id: &String,
    repo: &SpyfallRepo,
    rng: &mut fastrand::Rng,
) -> (sends: Vec<(u64, BrokerMsg)>)
    requires
        rooms.wf(),
        repo.wf(),
        repo.locations@.len() > 0,
    ensures
        !rooms.contains_id(room_id@) ==> sends@.len() == 0,
        rooms.contains_id(room_id@) && rooms.room_names(room_id@).len()
            < MIN_PLAYERS_TO_START_GAME ==> nep_sends_ok(rooms.room_of(room_id@), sends@),
        rooms.contains_id(room_id@) && rooms.room_names(room_id@).len()
            >= MIN_PLAYERS_TO_START_GAME ==> started_sends_ok(
            rooms.room_of(room_id@),
            *repo,
            sends@,
        ),
{
    match rooms.get_room(room_id) {
        None => Vec::new(),
        Some(room) => {
            if room.names.len() < MIN_PLAYERS_TO_START_GAME {
                let mut sends: Vec<(u64, BrokerMsg)> = Vec::new();
                let mut k: usize = 0;
                while k < room.chans.len()
                    invariant
                        k <= room.chans@.len(),
                        sends@.len() == k,
                        forall|j: int|
                            0 <= j < k ==> (#[trigger] sends@[j]).0 == room.chans@[j]
                                && sends@[j].1 is NotEnoughPlayers,
                    decreases room.chans@.len() - k,
                {
                    sends.push((room.chans[k], BrokerMsg::NotEnoughPlayers));
                    k += 1;
                }
                sends
            } else {
                let names = clone_strings(&room.names);
                let game = assign_roles(names, repo, rng);
                let ghost nsq = room.names_seq();
                let ghost fi = choose|fi: int|
                    0 <= fi < room.names@.len() && game.first@ == #[trigger] room.names@[fi]@;
                let ghost si = choose|si: int|
                    0 <= si < room.names@.len() && game.spy@ == #[trigger] room.names@[si]@
                        && pair_names(game.player_roles@) == views_of(room.names@).remove(si);
                let ghost loc = game.location@;
                let ghost pool = repo.roles_at(loc);
                let ghost perm = choose|perm: Seq<String>|
                    #![auto]
                    perm.to_multiset() == repo.roles_at(game.location@).to_multiset()
                        && perm.len() > 0 && (forall|j: int|
                        0 <= j < game.player_roles@.len() ==> pair_roles(game.player_roles@)[j]
                            == perm[j % (perm.len() as int)]@);
                proof {
                    assert(nsq[fi] == game.first@);
                    assert(nsq[si] == game.spy@);
                    assert(perm.to_multiset() == pool.to_multiset() && perm.len() > 0);
                }
                let n = room.names.len();
                let mut sends: Vec<(u64, BrokerMsg)> = Vec::new();
                let mut k: usize = 0;
                while k < n
                    invariant
                        k <= n,
                        n == room.names@.len(),
                        n == room.chans@.len(),
                        room.wf(),
                        0 <= si < n,
                        0 <= fi < n,
                        nsq == room.names_seq(),
                        nsq[fi] == game.first@,
                        nsq[si] == game.spy@,
                        pool == repo.roles_at(loc),
                        loc == game.location@,
                        pair_names(game.player_roles@) == views_of(room.names@).remove(si),
                        game.player_roles@.len() == n - 1,
                        perm.to_multiset() == pool.to_multiset(),
                        perm.len() > 0,
                        forall|j: int|
                            0 <= j < game.player_roles@.len() ==> #[trigger] pair_roles(
                                game.player_roles@,
                            )[j] == perm[j % (perm.len() as int)]@,
                        sends@.len() == k,
                        forall|j: int| 0 <= j < k ==> (#[trigger] sends@[j]).0 == room.chans@[j],
                        forall|j: int|
                            0 <= j < k ==> if j == si {
                                (#[trigger] sends@[j]).1.is_spy_start(nsq[fi])
                            } else {
                                is_exact_role_start(
                                    sends@[j].1,
                                    nsq[fi],
                                    loc,
                                    perm[non_spy_index(j, si) % (perm.len() as int)]@,
                                )
                            },
                    decreases n - k,
                {
                    if room.names[k] == game.spy {
                        proof {
                            assert(nsq[k as int] == game.spy@);
                            assert(k as int == si);
                        }
                        sends.push(
                            (
                                room.chans[k],
                                BrokerMsg::Started(
                                    Start { assignment: None, first: game.first.clone() },
                                ),
                            ),
                        );
                    } else {
                        proof {
                            assert(nsq[k as int] != game.spy@);
                            assert(k as int != si);
                            let kk = k as int;
                            let keys = pair_names(game.player_roles@);
                            if kk < si {
                                assert(keys[kk] == views_of(room.names@).remove(si)[kk]);
                                assert(keys[kk] == nsq[kk]);
                            } else {
                                assert(keys[kk - 1] == views_of(room.names@).remove(si)[kk - 1]);
                                assert(keys[kk - 1] == nsq[kk]);
                            }
                        }
                        let role_opt = find_role(&game.player_roles, &room.names[k]);
                        proof {
                            let kk = k as int;
                            let keys = pair_names(game.player_roles@);
                            if role_opt is None {
                                let w: int = if kk < si {
                                    kk
                                } else {
                                    kk - 1
                                };
                                assert(keys[w] == game.player_roles@[w].0@);
                                assert(game.player_roles@[w].0@ == room.names@[kk]@);
                                assert(false);
                            }
                        }
                        let role = role_opt.unwrap();
                        proof {
                            let kk = k as int;
                            let keys = pair_names(game.player_roles@);
                            let w = non_spy_index(kk, si);
                            assert(keys[w] == game.player_roles@[w].0@);
                            assert(game.player_roles@[w].0@ == room.names@[kk]@);
                            let i = choose|i: int|
                                0 <= i < game.player_roles@.len() && (
                                #[trigger] game.player_roles@[i]).0@ == room.names@[k as int]@
                                    && role@ == game.player_roles@[i].1@;
                            assert(pair_roles(game.player_roles@)[i] == role@);
                            assert(keys[i] == room.names@[kk]@);
                            // member names are unique, so the matched pair is the one
                            // at this member's non-spy position
                            crate::rooms::lemma_distinct_remove(nsq, si);
                            assert(distinct_seqs(keys));
                            assert(i == w);
                            assert(role@ == perm[w % (perm.len() as int)]@);
                        }
                        sends.push(
                            (
                                room.chans[k],
                                BrokerMsg::Started(
                                    Start {
                                        assignment: Some(
                                            Assignment {
                                                location: game.location.clone(),
                                                role,
                                            },
                                        ),
                                        first: game.first.clone(),
                                    },
                                ),
                            ),
                        );
                    }
                    k += 1;
                }
                proof {
                    assert(repo.has_location(loc));
                    assert(perm.to_multiset() == repo.roles_at(loc).to_multiset());
                    assert(started_sends_ok(rooms.room_of(room_id@), *repo, sends@));
                }
                sends
            }
        },
    }
}

/// What the direct reply to a join request must look like: success carries
/// the room id and the member list as it stands after the join; the errors
/// come exactly on a missing room and on a taken name.
pub open spec fn join_reply_ok(
    pre: RoomTable,
    rid: Seq<char>,
    name: Seq<char>,
    rep: Result<Connected, JoinErr>,
) -> bool {
    match rep {
        Ok(conn) => pre.contains_id(rid) && !pre.room_names(rid).contains(name) && conn.room_id@
            == rid && views_of(conn.players@) == pre.room_names(rid).push(name),
        Err(e) => if !pre.contains_id(rid) {
            e == JoinErr::NoSuchRoom
        } else {
            pre.room_names(rid).contains(name) && e == JoinErr::UsernameTaken
        },
    }
}

/// Process one command against the room table: the broker's whole decision
/// step. The returned effects say what to reply and which events to push
/// onto which member channels; the table itself is the only state changed.
pub fn handle_msg(
    rooms: &mut RoomTable,
    msg: ClientMsg,
    repo: &SpyfallRepo,
    rng: &mut fastrand::Rng,
) -> (eff: Effects)
    requires
        old(rooms).wf(),
        repo.wf(),
        repo.locations@.len() > 0,
    ensures
        final(rooms).wf(),
        match msg {
            ClientMsg::Join(join, chan) => match join.room {
                Some(rid) => {
                    &&& final(rooms).names_map() == spec_join(
                        old(rooms).names_map(),
                        rid@,
                        join.name@,
                    )
                    &&& eff.reply matches Some(rep) && join_reply_ok(
                        *old(rooms),
                        rid@,
                        join.name@,
                        rep,
                    )
                    &&& (eff.reply matches Some(rep) && rep matches Ok(_)) ==> join_sends_ok(
                        old(rooms).room_of(rid@),
                        join.name@,
                        eff.sends@,
                    )
                    &&& (eff.reply matches Some(rep) && rep matches Err(_)) ==> eff.sends@.len()
                        == 0 && *final(rooms) == *old(rooms)
                },
                None => {
                    &&& eff.reply matches Some(rep)
                    &&& old(rooms).ids@.len() == 0 ==> (rep matches Ok(_))
                    &&& rep matches Ok(conn) ==> !old(rooms).contains_id(conn.room_id@)
                        && final(rooms).names_map() == old(rooms).names_map().insert(
                        conn.room_id@,
                        seq![join.name@],
                    ) && conn.players@.len() == 1 && conn.players@[0]@ == join.name@
                    &&& rep matches Err(e) ==> e == JoinErr::FailedToCreateRoom && *final(rooms)
                        == *old(rooms)
                    &&& eff.sends@.len() == 0
                },
            },
            ClientMsg::Room(room_msg) => match room_msg {
                RoomMsg::Leave { room, name } => {
                    &&& eff.reply is None
                    &&& final(rooms).names_map() == spec_leave(
                        old(rooms).names_map(),
                        room@,
                        name@,
                    )
                    &&& (old(rooms).contains_id(room@) && old(rooms).room_names(room@).contains(
                        name@,
                    ) && old(rooms).room_names(room@).len() > 1) ==> left_sends_ok(
                        final(rooms).room_of(room@).chans@,
                        name@,
                        eff.sends@,
                    )
                    &&& !(old(rooms).contains_id(room@) && old(rooms).room_names(room@).contains(
                        name@,
                    ) && old(rooms).room_names(room@).len() > 1) ==> eff.sends@.len() == 0
                },
                RoomMsg::Start { room } => {
                    &&& eff.reply is None
                    &&& *final(rooms) == *old(rooms)
                    &&& !old(rooms).contains_id(room@) ==> eff.sends@.len() == 0
                    &&& (old(rooms).contains_id(room@) && old(rooms).room_names(room@).len()
                        < MIN_PLAYERS_TO_START_GAME) ==> nep_sends_ok(
                        old(rooms).room_of(room@),
                        eff.sends@,
                    )
                    &&& (old(rooms).contains_id(room@) && old(rooms).room_names(room@).len()
                        >= MIN_PLAYERS_TO_START_GAME) ==> started_sends_ok(
                        old(rooms).room_of(room@),
                        *repo,
                        eff.sends@,
                    )
                },
            },
        },
{
    match msg {
        ClientMsg::Join(join, chan) => {
            let Join { room, name } = join;
            match room {
                Some(room_id) => {
                    let (reply, sends) = rooms.add_player(room_id, name, chan);
                    Effects { reply: Some(reply), sends }
                },
                None => {
                    let reply = rooms.create_room(name, chan, rng);
                    Effects { reply: Some(reply), sends: Vec::new() }
                },
            }
        },
        ClientMsg::Room(room_msg) => match room_msg {
            RoomMsg::Leave { room, name } => {
                let mut sends: Vec<(u64, BrokerMsg)> = Vec::new();
                match rooms.try_remove_player(&name, room) {
                    Some(chans) => {
                        let mut k: usize = 0;
                        while k < chans.len()
                            invariant
                                k <= chans@.len(),
                                sends@.len() == k,
                                forall|j: int|
                                    0 <= j < k ==> (#[trigger] sends@[j]).0 == chans@[j]
                                        && sends@[j].1.is_left(name@),
                            decreases chans@.len() - k,
                        {
                            sends.push((chans[k], BrokerMsg::Left(name.clone())));
                            k += 1;
                        }
                    },
                    None => {},
                }
                Effects { reply: None, sends }
            },
            RoomMsg::Start { room } => {
                let sends = start_game(rooms, &room, repo, rng);
                Effects { reply: None, sends }
            },
        },
    }
}

} // verus!

