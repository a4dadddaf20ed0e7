use spyfall::assign::{assign_roles, SpyfallRepo};
use spyfall::broker::{handle_msg, Effects};
use spyfall::find_index;
use spyfall::messages::{BrokerMsg, ClientMsg, Connected, Join, JoinErr, RoomMsg};
use spyfall::rooms::RoomTable;

fn make_repo() -> SpyfallRepo {
    let entries: Vec<(String, Vec<String>)> = vec![
        (
            "Pequod".to_string(),
            vec![
                "Captain".to_string(),
                "Harpooneer".to_string(),
                "Cook".to_string(),
            ],
        ),
        (
            "Lighthouse".to_string(),
            vec!["Keeper".to_string(), "Visitor".to_string()],
        ),
    ];
    SpyfallRepo::new(entries).expect("a valid dataset")
}

fn join_cmd(room: Option<String>, name: &str, chan: u64) -> ClientMsg {
    ClientMsg::Join(
        Join {
            room,
            name: name.to_string(),
        },
        chan,
    )
}

fn sorted(mut v: Vec<String>) -> Vec<String> {
    v.sort();
    v
}

#[test]
fn assign_roles_properties() {
    let repo = make_repo();
    let players = (b'a'..=b'z')
        .map(char::from)
        .map(String::from)
        .collect::<Vec<_>>();
    let mut rng = fastrand::Rng::new();

    let game_info = assign_roles(players.clone(), &repo, &mut rng);
    assert!(game_info
        .player_roles
        .iter()
        .find(|(non_spy, _)| *non_spy == game_info.spy)
        .is_none());
}

#[test]
fn enter_leave_room_deletes_room() {
    let player_name = "Ahab".to_string();
    let repo = make_repo();
    let mut rng = fastrand::Rng::with_seed(7);
    let mut rooms = RoomTable::new();

    let eff = handle_msg(
        &mut rooms,
        join_cmd(None, &player_name, 1),
        &repo,
        &mut rng,
    );
    let Connected { room_id, players } = eff.reply.expect("a reply").expect("room created");
    assert_eq!(players, vec![player_name.clone()]);

    handle_msg(
        &mut rooms,
        ClientMsg::Room(RoomMsg::Leave {
            room: room_id,
            name: player_name,
        }),
        &repo,
        &mut rng,
    );
    // at the end, the table should be empty
    assert_eq!(rooms.room_count(), 0);
}

#[test]
fn two_players_in_room_cant_start_game() {
    let player_one = "Ahab".to_string();
    let player_two = "Ishmael".to_string();
    let repo = make_repo();
    let mut rng = fastrand::Rng::with_seed(11);
    let mut rooms = RoomTable::new();

    let eff = handle_msg(&mut rooms, join_cmd(None, &player_one, 1), &repo, &mut rng);
    let Connected { room_id, players } = eff.reply.unwrap().unwrap();
    assert_eq!(players, vec![player_one.clone()]);

    let eff = handle_msg(
        &mut rooms,
        join_cmd(Some(room_id.clone()), &player_two, 2),
        &repo,
        &mut rng,
    );
    let Connected { room_id, players } = eff.reply.unwrap().unwrap();
    assert_eq!(
        sorted(players),
        sorted(vec![player_one.clone(), player_two.clone()])
    );
    // the first player is told about the second joining; the joiner is not
    assert_eq!(eff.sends.len(), 1);
    assert_eq!(eff.sends[0].0, 1);
    assert!(matches!(&eff.sends[0].1, BrokerMsg::Join(n) if *n == player_two));

    let eff = handle_msg(
        &mut rooms,
        ClientMsg::Room(RoomMsg::Start { room: room_id }),
        &repo,
        &mut rng,
    );
    assert_eq!(eff.sends.len(), 2);
    for (chan, msg) in [(1u64, &eff.sends[0]), (2u64, &eff.sends[1])] {
        assert_eq!(msg.0, chan);
        assert!(matches!(msg.1, BrokerMsg::NotEnoughPlayers));
    }
}

#[test]
fn join_leave_scenario_events() {
    let repo = make_repo();
    let mut rng = fastrand::Rng::with_seed(21);
    let mut rooms = RoomTable::new();

    let eff = handle_msg(&mut rooms, join_cmd(None, "Ahab", 10), &repo, &mut rng);
    let Connected { room_id, players } = eff.reply.unwrap().unwrap();
    assert_eq!(players, vec!["Ahab".to_string()]);
    assert!(eff.sends.is_empty());

    let eff = handle_msg(
        &mut rooms,
        join_cmd(Some(room_id.clone()), "Ishmael", 20),
        &repo,
        &mut rng,
    );
    let Connected {
        room_id: second_id,
        players,
    } = eff.reply.unwrap().unwrap();
    assert_eq!(second_id, room_id);
    assert_eq!(
        sorted(players),
        sorted(vec!["Ahab".to_string(), "Ishmael".to_string()])
    );
    assert_eq!(eff.sends.len(), 1);
    assert_eq!(eff.sends[0].0, 10);
    assert!(matches!(&eff.sends[0].1, BrokerMsg::Join(n) if n == "Ishmael"));

    // Ahab leaves: Ishmael is told, and the room survives with one member
    let eff = handle_msg(
        &mut rooms,
        ClientMsg::Room(RoomMsg::Leave {
            room: room_id.clone(),
            name: "Ahab".to_string(),
        }),
        &repo,
        &mut rng,
    );
    assert_eq!(eff.sends.len(), 1);
    assert_eq!(eff.sends[0].0, 20);
    assert!(matches!(&eff.sends[0].1, BrokerMsg::Left(n) if n == "Ahab"));
    assert_eq!(rooms.room_count(), 1);

    // Ishmael leaves: the room is gone
    let eff = handle_msg(
        &mut rooms,
        ClientMsg::Room(RoomMsg::Leave {
            room: room_id.clone(),
            name: "Ishmael".to_string(),
        }),
        &repo,
        &mut rng,
    );
    assert!(eff.sends.is_empty());
    assert_eq!(rooms.room_count(), 0);
}

#[test]
fn three_players_start_round() {
    let repo = make_repo();
    let mut rng = fastrand::Rng::with_seed(42);
    let mut rooms = RoomTable::new();

    let eff = handle_msg(&mut rooms, join_cmd(None, "Ahab", 1), &repo, &mut rng);
    let Connected { room_id, .. } = eff.reply.unwrap().unwrap();
    handle_msg(
        &mut rooms,
        join_cmd(Some(room_id.clone()), "Ishmael", 2),
        &repo,
        &mut rng,
    );

    // with only two members, starting broadcasts NotEnoughPlayers to all
    let eff = handle_msg(
        &mut rooms,
        ClientMsg::Room(RoomMsg::Start {
            room: room_id.clone(),
        }),
        &repo,
        &mut rng,
    );
    assert_eq!(eff.sends.len(), 2);
    for s in &eff.sends {
        assert!(matches!(s.1, BrokerMsg::NotEnoughPlayers));
    }

    // membership was untouched, so a third member can join and start works
    handle_msg(
        &mut rooms,
        join_cmd(Some(room_id.clone()), "Queequeg", 3),
        &repo,
        &mut rng,
    );
    let eff = handle_msg(
        &mut rooms,
        ClientMsg::Room(RoomMsg::Start {
            room: room_id.clone(),
        }),
        &repo,
        &mut rng,
    );
    assert_eq!(eff.sends.len(), 3);

    let members = ["Ahab", "Ishmael", "Queequeg"];
    let mut spy_count = 0;
    let mut locations: Vec<String> = Vec::new();
    let mut firsts: Vec<String> = Vec::new();
    for (k, (chan, msg)) in eff.sends.iter().enumerate() {
        assert_eq!(*chan, (k + 1) as u64);
        match msg {
            BrokerMsg::Started(start) => {
                firsts.push(start.first.clone());
                match &start.assignment {
                    None => spy_count += 1,
                    Some(a) => {
                        locations.push(a.location.clone());
                        let roles = repo.roles(&a.location);
                        assert!(roles.contains(&a.role));
                    }
                }
            }
            other => panic!("expected a Started event, got {:?}", other),
        }
    }
    // exactly one member is the spy
    assert_eq!(spy_count, 1);
    // the two non-spies share one location, drawn from the dataset
    assert_eq!(locations.len(), 2);
    assert_eq!(locations[0], locations[1]);
    assert!(repo.locations().contains(&locations[0]));
    // everyone sees the same first player, who is a member
    assert_eq!(firsts.len(), 3);
    assert!(firsts.iter().all(|f| f == &firsts[0]));
    assert!(members.contains(&firsts[0].as_str()));
}

#[test]
fn start_on_missing_room_is_silent() {
    let repo = make_repo();
    let mut rng = fastrand::Rng::with_seed(3);
    let mut rooms = RoomTable::new();
    let eff = handle_msg(
        &mut rooms,
        ClientMsg::Room(RoomMsg::Start {
            room: "nowhere".to_string(),
        }),
        &repo,
        &mut rng,
    );
    assert!(eff.reply.is_none());
    assert!(eff.sends.is_empty());
    assert_eq!(rooms.room_count(), 0);
}

#[test]
fn duplicate_name_is_rejected_without_change() {
    let repo = make_repo();
    let mut rng = fastrand::Rng::with_seed(5);
    let mut rooms = RoomTable::new();

    let eff = handle_msg(&mut rooms, join_cmd(None, "Ahab", 1), &repo, &mut rng);
    let Connected { room_id, .. } = eff.reply.unwrap().unwrap();

    let eff = handle_msg(
        &mut rooms,
        join_cmd(Some(room_id.clone()), "Ahab", 2),
        &repo,
        &mut rng,
    );
    assert_eq!(eff.reply.unwrap().unwrap_err(), JoinErr::UsernameTaken);
    assert!(eff.sends.is_empty());
    let room = rooms.get_room(&room_id).expect("the room is still there");
    assert_eq!(room.names, vec!["Ahab".to_string()]);
}

#[test]
fn join_missing_room_fails() {
    let repo = make_repo();
    let mut rng = fastrand::Rng::with_seed(9);
    let mut rooms = RoomTable::new();
    let eff = handle_msg(
        &mut rooms,
        join_cmd(Some("nowhere".to_string()), "Ahab", 1),
        &repo,
        &mut rng,
    );
    assert_eq!(eff.reply.unwrap().unwrap_err(), JoinErr::NoSuchRoom);
    assert_eq!(rooms.room_count(), 0);
}

#[test]
fn exhausted_id_candidates_pick_nothing() {
    let mut rng = fastrand::Rng::with_seed(13);
    let mut rooms = RoomTable::new();
    let mut rng2 = fastrand::Rng::with_seed(13);
    let reply = rooms.create_room("Ahab".to_string(), 1, &mut rng2);
    let conn = reply.unwrap();

    // every candidate collides with the existing room: creation must give up
    let candidates = vec![conn.room_id.clone(); 5];
    assert!(rooms.pick_unused_id(&candidates).is_none());
    assert_eq!(rooms.room_count(), 1);

    // with a free candidate among them, the first free one is picked
    let mut with_free = candidates.clone();
    with_free.push("FRESH".to_string());
    assert_eq!(rooms.pick_unused_id(&with_free).unwrap(), "FRESH");

    // an ordinary draw finds an unused id
    let id = rooms.try_create_room(&mut rng).expect("an unused id");
    assert_ne!(id, conn.room_id);
}

#[test]
fn room_ids_are_typeable_codes() {
    let mut rng = fastrand::Rng::with_seed(17);
    let mut rooms = RoomTable::new();
    let reply = rooms.create_room("Ahab".to_string(), 1, &mut rng);
    let conn = reply.unwrap();
    // five random bytes in base-32: an eight-character code
    assert_eq!(conn.room_id.len(), 8);
    for c in conn.room_id.chars() {
        assert!(c.is_ascii_alphanumeric());
    }
}

#[test]
fn dataset_rejects_bad_entries() {
    let dup: Vec<(String, Vec<String>)> = vec![
        ("Pequod".to_string(), vec!["Captain".to_string()]),
        ("Pequod".to_string(), vec!["Cook".to_string()]),
    ];
    assert!(SpyfallRepo::new(dup).is_none());

    let empty_roles: Vec<(String, Vec<String>)> =
        vec![("Pequod".to_string(), Vec::new())];
    assert!(SpyfallRepo::new(empty_roles).is_none());

    let fine: Vec<(String, Vec<String>)> =
        vec![("Pequod".to_string(), vec!["Captain".to_string()])];
    assert!(SpyfallRepo::new(fine).is_some());
}

#[test]
fn find_index_picks_first_match() {
    let names = vec![
        "Ahab".to_string(),
        "Ishmael".to_string(),
        "Ahab".to_string(),
    ];
    assert_eq!(find_index(&names, &"Ahab".to_string()), Some(0));
    assert_eq!(find_index(&names, &"Ishmael".to_string()), Some(1));
    assert_eq!(find_index(&names, &"Starbuck".to_string()), None);
}

#[test]
fn role_list_cycles_when_members_outnumber_roles() {
    // one location with a single role: every non-spy member gets that role
    let entries: Vec<(String, Vec<String>)> =
        vec![("Lighthouse".to_string(), vec!["Keeper".to_string()])];
    let repo = SpyfallRepo::new(entries).unwrap();
    let players = vec![
        "Ahab".to_string(),
        "Ishmael".to_string(),
        "Queequeg".to_string(),
        "Starbuck".to_string(),
    ];
    let mut rng = fastrand::Rng::with_seed(23);
    let game = assign_roles(players.clone(), &repo, &mut rng);
    assert_eq!(game.location, "Lighthouse");
    assert_eq!(game.player_roles.len(), 3);
    for (member, role) in &game.player_roles {
        assert_ne!(*member, game.spy);
        assert!(players.contains(member));
        assert_eq!(role, "Keeper");
    }
    assert!(players.contains(&game.first));
    assert!(players.contains(&game.spy));
}

#[test]
fn leave_of_unknown_member_is_a_no_op() {
    let repo = make_repo();
    let mut rng = fastrand::Rng::with_seed(29);
    let mut rooms = RoomTable::new();
    let eff = handle_msg(&mut rooms, join_cmd(None, "Ahab", 1), &repo, &mut rng);
    let Connected { room_id, .. } = eff.reply.unwrap().unwrap();

    let eff = handle_msg(
        &mut rooms,
        ClientMsg::Room(RoomMsg::Leave {
            room: room_id.clone(),
            name: "Fedallah".to_string(),
        }),
        &repo,
        &mut rng,
    );
    assert!(eff.sends.is_empty());
    assert_eq!(rooms.room_count(), 1);
    let room = rooms.get_room(&room_id).unwrap();
    assert_eq!(room.names, vec!["Ahab".to_string()]);
}

#[test]
fn effects_carry_no_reply_for_room_commands() {
    let repo = make_repo();
    let mut rng = fastrand::Rng::with_seed(31);
    let mut rooms = RoomTable::new();
    let eff: Effects = handle_msg(
        &mut rooms,
        ClientMsg::Room(RoomMsg::Leave {
            room: "nowhere".to_string(),
            name: "Ahab".to_string(),
        }),
        &repo,
        &mut rng,
    );
    assert!(eff.reply.is_none());
    assert!(eff.sends.is_empty());
}
