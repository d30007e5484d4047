//! Players taking part in a game.
use vstd::prelude::*;
use crate::cycle::Command;

verus! {

/// A player's unique id.
pub type PlayerUid = u32;

/// A command sent by a player.
#[derive(Clone, Copy, PartialEq, Eq, Debug, Structural)]
pub struct Input {
    pub uid: PlayerUid,
    pub command: Command,
}

/// Whether a player takes part in the next round.
#[derive(Clone, Copy, PartialEq, Eq, Debug, Structural)]
pub enum PlayerStatus {
    Active,
}

/// A player.
pub struct Player {
    uid: PlayerUid,
    status: PlayerStatus,
}

/// The abstract state of a player.
pub struct PlayerView {
    pub uid: PlayerUid,
    pub status: PlayerStatus,
}

impl View for Player {
    type V = PlayerView;

    closed spec fn view(&self) -> PlayerView {
        PlayerView { uid: self.uid, status: self.status }
    }
}

/// The uids of the active players, in order.
pub open spec fn active_uids_of(players: Seq<PlayerView>) -> Seq<PlayerUid>
    decreases players.len(),
{
    if players.len() == 0 {
        Seq::empty()
    } else {
        let rest = active_uids_of(players.drop_last());
        if players.last().status == PlayerStatus::Active {
            rest.push(players.last().uid)
        } else {
            rest
        }
    }
}

/// The abstract states of a sequence of players.
pub open spec fn player_views(players: Seq<Player>) -> Seq<PlayerView> {
    players.map_values(|p: Player| p@)
}

impl Player {
    /// A new, active player.
    pub fn new(uid: PlayerUid) -> (p: Player)
        ensures
            p@ == (PlayerView { uid, status: PlayerStatus::Active }),
    {
        Player { uid, status: PlayerStatus::Active }
    }

    pub fn uid(&self) -> (r: PlayerUid)
        ensures
            r == self@.uid,
    {
        self.uid
    }

    pub fn is_active(&self) -> (r: bool)
        ensures
            r == (self@.status == PlayerStatus::Active),
    {
        self.status == PlayerStatus::Active
    }
}

/// The uids of the active players among `players`, in order.
pub fn active_uids(players: &[Player]) -> (uids: Vec<PlayerUid>)
    ensures
        uids@ == active_uids_of(player_views(players@)),
{
    let mut uids: Vec<PlayerUid> = Vec::new();
    let mut i: usize = 0;
    while i < players.len()
        invariant
            i <= players.len(),
            uids@ == active_uids_of(player_views(players@).take(i as int)),
        decreases players.len() - i,
    {
        assert(player_views(players@).take(i + 1).drop_last() =~= player_views(players@).take(i as int));
        if players[i].is_active() {
            uids.push(players[i].uid());
        }
        i += 1;
    }
    assert(player_views(players@).take(i as int) =~= player_views(players@));
    uids
}

} // verus!
