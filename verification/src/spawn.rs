//! Where the player appears when a level is loaded.
use vstd::prelude::*;

verus! {

/// What to do about spawning the player.
#[derive(Clone, Copy, Debug, PartialEq, Eq, Structural)]
pub enum SpawnDecision {
    /// A player exists already; none is spawned.
    PlayerExists,
    /// The level has no spawn point; none is spawned.
    NoSpawnPoint,
    /// One player is spawned, at the first spawn point.
    SpawnAtFirstPoint,
}

/// The decision for `player_count` existing players and
/// `spawn_point_count` spawn points: an existing player wins over
/// everything, then a missing spawn point.
pub open spec fn decide_spawn(player_count: int, spawn_point_count: int) -> SpawnDecision {
    if player_count > 0 {
        SpawnDecision::PlayerExists
    } else if spawn_point_count == 0 {
        SpawnDecision::NoSpawnPoint
    } else {
        SpawnDecision::SpawnAtFirstPoint
    }
}

/// Decides whether to spawn the player, given how many players exist and
/// how many spawn points the level has.
pub fn spawn_decision(player_count: usize, spawn_point_count: usize) -> (d: SpawnDecision)
    ensures
        d == decide_spawn(player_count as int, spawn_point_count as int),
        player_count > 0 ==> d == SpawnDecision::PlayerExists,
        d == SpawnDecision::NoSpawnPoint <==> (player_count == 0 && spawn_point_count == 0),
        d == SpawnDecision::SpawnAtFirstPoint <==> (player_count == 0 && spawn_point_count > 0),
{
    if player_count > 0 {
        SpawnDecision::PlayerExists
    } else if spawn_point_count == 0 {
        SpawnDecision::NoSpawnPoint
    } else {
        SpawnDecision::SpawnAtFirstPoint
    }
}

/// How many players exist after a decision: a spawn adds exactly one.
pub open spec fn players_after(player_count: int, d: SpawnDecision) -> int {
    match d {
        SpawnDecision::SpawnAtFirstPoint => player_count + 1,
        _ => player_count,
    }
}

/// Spawning never makes a second player: after the decision at most one
/// player exists when at most one existed before, and exactly one when the
/// level has a spawn point.
pub proof fn lemma_at_most_one_player(player_count: nat, spawn_point_count: nat)
    requires
        player_count <= 1,
    ensures
        players_after(player_count as int, decide_spawn(player_count as int, spawn_point_count as int)) <= 1,
        spawn_point_count > 0 ==> players_after(
            player_count as int,
            decide_spawn(player_count as int, spawn_point_count as int),
        ) == 1,
{
}

/// An existing player wins over everything: whenever at least one player
/// exists, whatever the number of spawn points, the decision is to spawn
/// nobody because a player exists.
pub proof fn lemma_existing_player_wins(player_count: nat, spawn_point_count: nat)
    requires
        player_count > 0,
    ensures
        decide_spawn(player_count as int, spawn_point_count as int) == SpawnDecision::PlayerExists,
        players_after(player_count as int, decide_spawn(player_count as int, spawn_point_count as int))
            == player_count,
{
}

/// A player is spawned exactly when none exists and the level has a spawn
/// point; the level is reported to lack a spawn point exactly when none
/// exists and there is no player.
pub proof fn lemma_spawn_only_when_no_player(player_count: nat, spawn_point_count: nat)
    ensures
        decide_spawn(player_count as int, spawn_point_count as int) == SpawnDecision::SpawnAtFirstPoint
            <==> (player_count == 0 && spawn_point_count > 0),
        decide_spawn(player_count as int, spawn_point_count as int) == SpawnDecision::NoSpawnPoint
            <==> (player_count == 0 && spawn_point_count == 0),
        players_after(player_count as int, decide_spawn(player_count as int, spawn_point_count as int))
            == if player_count == 0 && spawn_point_count > 0 { 1int } else { player_count as int },
{
}

} // verus!
