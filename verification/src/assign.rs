use vstd::prelude::*;

use crate::randomness::{random_index, shuffle_strings};
use crate::rooms::{
    clone_strings, distinct_seqs, lemma_distinct_index_of, lemma_distinct_remove,
    lemma_views_remove, views_of,
};

verus! {

broadcast use vstd::seq_lib::group_to_multiset_ensures;

/// The static dataset handed to the broker at startup: each location and,
/// index-aligned with it, the list of cover roles available there.
#[derive(Debug, Clone)]
pub struct SpyfallRepo {
    pub locations: Vec<String>,
    pub role_lists: Vec<Vec<String>>,
}

/// The location names of a list of dataset entries.
pub open spec fn entry_names(entries: Seq<(String, Vec<String>)>) -> Seq<Seq<char>> {
    entries.map_values(|e: (String, Vec<String>)| e.0@)
}

impl SpyfallRepo {
    /// Locations are unique, each has a role list, and no role list is
    /// empty.
    pub open spec fn wf(self) -> bool {
        &&& self.locations@.len() == self.role_lists@.len()
        &&& distinct_seqs(views_of(self.locations@))
        &&& forall|i: int|
            0 <= i < self.role_lists@.len() ==> (#[trigger] self.role_lists@[i])@.len() > 0
    }

    /// Whether the dataset knows a location named `loc`.
    pub open spec fn has_location(self, loc: Seq<char>) -> bool {
        views_of(self.locations@).contains(loc)
    }

    /// The index of the location named `loc`; meaningful only when the
    /// dataset has it (unique then, since locations are distinct).
    pub open spec fn location_index(self, loc: Seq<char>) -> int {
        views_of(self.locations@).index_of(loc)
    }

    /// The roles available at the location named `loc`.
    pub open spec fn roles_at(self, loc: Seq<char>) -> Seq<String> {
        self.role_lists@[self.location_index(loc)]@
    }

    /// Whether this dataset holds exactly these location/role-list pairs,
    /// in order.
    pub open spec fn holds_entries(self, entries: Seq<(String, Vec<String>)>) -> bool {
        &&& self.locations@.len() == entries.len()
        &&& forall|i: int|
            0 <= i < entries.len() ==> (#[trigger] self.locations@[i])@ == entries[i].0@
                && self.role_lists@[i]@ == entries[i].1@
    }

    /// Build the dataset from location/role-list pairs. Rejected exactly
    /// when a location repeats or some location has no roles.
    #[verifier::rlimit(60)]
    pub fn new(entries: Vec<(String, Vec<String>)>) -> (r: Option<SpyfallRepo>)
        ensures
            (r matches Some(_)) <==> (distinct_seqs(entry_names(entries@)) && (forall|i: int|
                0 <= i < entries@.len() ==> (#[trigger] entries@[i]).1@.len() > 0)),
            r matches Some(repo) ==> repo.wf() && repo.holds_entries(entries@),
    {
        let mut locations: Vec<String> = Vec::new();
        let mut role_lists: Vec<Vec<String>> = Vec::new();
        let mut k: usize = 0;
        while k < entries.len()
            invariant
                k <= entries@.len(),
                locations@.len() == k,
                role_lists@.len() == k,
                forall|i: int|
                    0 <= i < k ==> (#[trigger] locations@[i])@ == entries@[i].0@
                        && role_lists@[i]@ == entries@[i].1@,
                forall|i: int| 0 <= i < k ==> (#[trigger] entries@[i]).1@.len() > 0,
                distinct_seqs(views_of(locations@)),
            decreases entries@.len() - k,
        {
            if entries[k].1.len() == 0 {
                return None;
            }
            match crate::find_index(&locations, &entries[k].0) {
                Some(d) => {
                    proof {
                        assert(locations@[d as int]@ == entries@[k as int].0@);
                        assert(locations@[d as int]@ == entries@[d as int].0@);
                        assert(entry_names(entries@)[d as int] == entries@[d as int].0@);
                        assert(entry_names(entries@)[k as int] == entries@[k as int].0@);
                        assert(entry_names(entries@)[d as int] == entry_names(entries@)[k as int]);
                        assert(0 <= d < k < entry_names(entries@).len());
                        assert(!distinct_seqs(entry_names(entries@)));
                    }
                    return None;
                },
                None => {},
            }
            let ghost pre_locs = locations@;
            locations.push(entries[k].0.clone());
            role_lists.push(clone_strings(&entries[k].1));
            proof {
                assert forall|a: int, b: int|
                    0 <= a < b < views_of(locations@).len() implies views_of(locations@)[a]
                    != views_of(locations@)[b] by {
                    if b < k as int {
                        assert(views_of(locations@)[a] == pre_locs[a]@);
                        assert(views_of(locations@)[b] == pre_locs[b]@);
                        assert(views_of(pre_locs)[a] != views_of(pre_locs)[b]);
                        assert(views_of(pre_locs)[a] == pre_locs[a]@);
                        assert(views_of(pre_locs)[b] == pre_locs[b]@);
                    } else {
                        assert(b == k as int);
                        assert(views_of(locations@)[b] == entries@[k as int].0@);
                        assert(views_of(locations@)[a] == pre_locs[a]@);
                        assert(pre_locs[a]@ != entries@[k as int].0@);
                    }
                }
            }
            k += 1;
        }
        let repo = SpyfallRepo { locations, role_lists };
        proof {
            assert forall|a: int, b: int|
                0 <= a < b < entry_names(entries@).len() implies entry_names(entries@)[a]
                != entry_names(entries@)[b] by {
                assert(entry_names(entries@)[a] == entries@[a].0@);
                assert(entry_names(entries@)[b] == entries@[b].0@);
                assert(views_of(repo.locations@)[a] == repo.locations@[a]@);
                assert(views_of(repo.locations@)[b] == repo.locations@[b]@);
                assert(repo.locations@[a]@ == entries@[a].0@);
                assert(repo.locations@[b]@ == entries@[b].0@);
                assert(views_of(repo.locations@)[a] != views_of(repo.locations@)[b]);
            }
            assert(distinct_seqs(entry_names(entries@)));
            assert forall|i: int|
                0 <= i < repo.role_lists@.len() implies (#[trigger] repo.role_lists@[i])@.len()
                > 0 by {
                assert(repo.locations@[i]@ == entries@[i].0@ && repo.role_lists@[i]@
                    == entries@[i].1@);
                assert(entries@[i].1@.len() > 0);
            }
            assert(repo.wf());
            assert(repo.locations@.len() == entries@.len());
            assert forall|i: int|
                0 <= i < entries@.len() implies ((#[trigger] repo.locations@[i])@
                == entries@[i].0@ && repo.role_lists@[i]@ == entries@[i].1@) by {}
            assert(repo.holds_entries(entries@));
            assert(forall|i: int|
                0 <= i < entries@.len() ==> (#[trigger] entries@[i]).1@.len() > 0);
        }
        Some(repo)
    }

    /// How many locations the dataset holds.
    pub fn locations(&self) -> (r: &Vec<String>)
        ensures
            r == self.locations,
    {
        &self.locations
    }

    /// The role list of the location named `location`.
    pub fn roles(&self, location: &String) -> (r: &Vec<String>)
        requires
            self.wf(),
            self.has_location(location@),
        ensures
            r@ == self.roles_at(location@),
    {
        match crate::find_index(&self.locations, location) {
            Some(i) => {
                proof {
                    assert(views_of(self.locations@)[i as int] == location@);
                    lemma_distinct_index_of(views_of(self.locations@), location@);
                }
                &self.role_lists[i]
            },
            None => {
                proof {
                    assert forall|j: int|
                        0 <= j < views_of(self.locations@).len() implies views_of(
                        self.locations@,
                    )[j] != location@ by {
                        assert(self.locations@[j]@ != location@);
                    }
                    assert(false);
                }
                &self.role_lists[0]
            },
        }
    }
}

/// One round's full assignment: for every non-spy member, in member order,
/// that member's name and role; the shared location; the first player; and
/// the spy.
#[derive(Debug, Clone)]
pub struct GameInfo {
    pub player_roles: Vec<(String, String)>,
    pub location: String,
    pub first: String,
    pub spy: String,
}

/// The member names of an assignment's role pairs.
pub open spec fn pair_names(ps: Seq<(String, String)>) -> Seq<Seq<char>> {
    ps.map_values(|p: (String, String)| p.0@)
}

/// The roles of an assignment's role pairs.
pub open spec fn pair_roles(ps: Seq<(String, String)>) -> Seq<Seq<char>> {
    ps.map_values(|p: (String, String)| p.1@)
}

/// Whether `role` occurs in the role pool `pool`.
pub open spec fn role_from(pool: Seq<String>, role: Seq<char>) -> bool {
    exists|j: int| 0 <= j < pool.len() && role == #[trigger] pool[j]@
}

/// Law: when the member names are distinct and the role keys are the member
/// list with the spy's entry removed, the spy holds no role, every other
/// member holds exactly one, and only members hold roles.
pub proof fn lemma_spy_has_no_role(
    players: Seq<Seq<char>>,
    si: int,
    keys: Seq<Seq<char>>,
    spy: Seq<char>,
)
    requires
        distinct_seqs(players),
        0 <= si < players.len(),
        spy == players[si],
        keys == players.remove(si),
    ensures
        !keys.contains(spy),
        distinct_seqs(keys),
        forall|n: Seq<char>| #[trigger] keys.contains(n) <==> (players.contains(n) && n != spy),
{
    lemma_distinct_remove(players, si);
    assert forall|j: int| 0 <= j < keys.len() implies keys[j] != spy by {
        assert(players.remove(si)[j] != players[si]);
    }
    assert(!keys.contains(spy));
    assert forall|n: Seq<char>| #[trigger] keys.contains(n) implies (players.contains(n) && n
        != spy) by {
        let j = choose|j: int| 0 <= j < keys.len() && keys[j] == n;
        if j < si {
            assert(players[j] == n);
        } else {
            assert(players[j + 1] == n);
        }
    }
    assert forall|n: Seq<char>| players.contains(n) && n != spy implies #[trigger] keys.contains(
        n,
    ) by {
        let j = choose|j: int| 0 <= j < players.len() && players[j] == n;
        if j < si {
            assert(keys[j] == n);
        } else {
            assert(j != si);
            assert(keys[j - 1] == players[j]);
        }
    }
}

/// Draw a first player, a spy, and a location uniformly; shuffle the
/// location's roles; and assign a role to every non-spy member in member
/// order, cycling the shuffled roles when members outnumber them.
pub fn assign_roles(players: Vec<String>, repo: &SpyfallRepo, rng: &mut fastrand::Rng) -> (r:
    GameInfo)
    requires
        players@.len() > 0,
        repo.wf(),
        repo.locations@.len() > 0,
    ensures
        exists|fi: int| 0 <= fi < players@.len() && r.first@ == #[trigger] players@[fi]@,
        repo.has_location(r.location@),
        exists|si: int|
            0 <= si < players@.len() && r.spy@ == #[trigger] players@[si]@ && pair_names(
                r.player_roles@,
            ) == views_of(players@).remove(si),
        r.player_roles@.len() == players@.len() - 1,
        exists|perm: Seq<String>|
            #![auto]
            perm.to_multiset() == repo.roles_at(r.location@).to_multiset() && perm.len() > 0
                && (forall|k: int|
                0 <= k < r.player_roles@.len() ==> pair_roles(r.player_roles@)[k] == perm[k % (
                perm.len() as int)]@),
        forall|k: int|
            0 <= k < r.player_roles@.len() ==> role_from(
                repo.roles_at(r.location@),
                #[trigger] pair_roles(r.player_roles@)[k],
            ),
        distinct_seqs(views_of(players@)) ==> !pair_names(r.player_roles@).contains(r.spy@),
{
    let n = players.len();
    let first_player_index = random_index(rng, n);
    let spy_index = random_index(rng, n);
    let loc_index = random_index(rng, repo.locations.len());
    let location = repo.locations[loc_index].clone();
    proof {
        assert(views_of(repo.locations@)[loc_index as int] == location@);
        lemma_distinct_index_of(views_of(repo.locations@), location@);
        assert(repo.location_index(location@) == loc_index as int);
        assert(repo.roles_at(location@) == repo.role_lists@[loc_index as int]@);
    }
    let mut roles = clone_strings(&repo.role_lists[loc_index]);
    shuffle_strings(rng, &mut roles);
    let first = players[first_player_index].clone();
    let mut rest = players;
    let ghost pre_players = rest@;
    let spy = rest.remove(spy_index);
    let rl = roles.len();
    let mut player_roles: Vec<(String, String)> = Vec::new();
    let mut k: usize = 0;
    while k < rest.len()
        invariant
            k <= rest@.len(),
            rl == roles@.len(),
            rl > 0,
            player_roles@.len() == k,
            forall|j: int|
                0 <= j < k ==> (#[trigger] player_roles@[j]).0@ == rest@[j]@
                    && player_roles@[j].1@ == roles@[j % (rl as int)]@,
        decreases rest@.len() - k,
    {
        player_roles.push((rest[k].clone(), roles[k % rl].clone()));
        k += 1;
    }
    let r = GameInfo { player_roles, location, first, spy };
    proof {
        let si = spy_index as int;
        assert(rest@ == pre_players.remove(si));
        lemma_views_remove(pre_players, si);
        assert(pair_names(r.player_roles@) =~= views_of(rest@));
        assert(views_of(rest@) == views_of(pre_players).remove(si));
        assert(r.spy@ == pre_players[si]@);
        assert(views_of(pre_players)[si] == pre_players[si]@);
        // the shuffled list is a permutation of the location's roles
        assert(roles@.to_multiset() == repo.roles_at(r.location@).to_multiset());
        assert forall|k2: int|
            0 <= k2 < r.player_roles@.len() implies pair_roles(r.player_roles@)[k2] == roles@[k2
            % (rl as int)]@ by {
            assert(r.player_roles@[k2].1@ == roles@[k2 % (rl as int)]@);
        }
        // every assigned role occurs in the location's role list
        assert forall|k2: int|
            0 <= k2 < r.player_roles@.len() implies role_from(
            repo.roles_at(r.location@),
            #[trigger] pair_roles(r.player_roles@)[k2],
        ) by {
            let m = k2 % (rl as int);
            assert(0 <= m < rl);
            assert(roles@.contains(roles@[m]));
            assert(roles@.to_multiset().count(roles@[m]) > 0);
            assert(repo.roles_at(r.location@).to_multiset().count(roles@[m]) > 0);
            assert(repo.roles_at(r.location@).contains(roles@[m]));
            let j = choose|j: int|
                0 <= j < repo.roles_at(r.location@).len() && repo.roles_at(r.location@)[j]
                    == roles@[m];
            assert(pair_roles(r.player_roles@)[k2] == repo.roles_at(r.location@)[j]@);
        }
        if distinct_seqs(views_of(pre_players)) {
            lemma_spy_has_no_role(
                views_of(pre_players),
                si,
                pair_names(r.player_roles@),
                r.spy@,
            );
        }
    }
    r
}

} // verus!
