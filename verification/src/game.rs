//! The game-state coordinator: the single owner of all player state.
//!
//! Every mutation of the world happens through the methods here, driven by
//! commands drained from one ordered queue. The surrounding application owns
//! clocks and channels; it passes the current time in as a plain value and
//! reports outbound-send failures back for deferred removal.

use vstd::prelude::*;

use crate::messages::{GameOutputMessage, GameStateMsg, OutputView};
use crate::rules::{
    fix_position_within_bounds, in_bounds, movement_allowed, movement_within_limit, rate_allows,
    spec_clamp, spec_elapsed, START_X_Y, TIME_PER_TICK,
};

verus! {

/// One player's authoritative state. The position is always inside the world
/// bounds; `last_cmd_at` is the timestamp of the player's last accepted
/// movement command (or of registration), in tenths of a millisecond.
#[derive(PartialEq, Eq, Structural, Clone, Copy, Debug)]
pub struct PlayerState {
    pub x: i64,
    pub y: i64,
    pub last_cmd_at: u64,
}

/// The position invariant every stored player satisfies.
pub open spec fn player_ok(p: PlayerState) -> bool {
    in_bounds(p.x as int) && in_bounds(p.y as int)
}

/// The state a freshly registered player starts in.
pub open spec fn start_player(now: u64) -> PlayerState {
    PlayerState { x: START_X_Y, y: START_X_Y, last_cmd_at: now }
}

/// Index of the first entry carrying `id`, or `-1` when none does.
pub open spec fn idx_of(s: Seq<(u64, PlayerState)>, id: u64) -> int
    decreases s.len(),
{
    if s.len() == 0 {
        -1
    } else if s[0].0 == id {
        0
    } else {
        let r = idx_of(s.drop_first(), id);
        if r < 0 {
            -1
        } else {
            r + 1
        }
    }
}

/// Some entry carries `id`.
pub open spec fn has_id(s: Seq<(u64, PlayerState)>, id: u64) -> bool {
    exists|k: int| 0 <= k < s.len() && s[k].0 == id
}

/// The player registered under `id`, if any.
pub open spec fn lookup(s: Seq<(u64, PlayerState)>, id: u64) -> Option<PlayerState> {
    if idx_of(s, id) >= 0 {
        Some(s[idx_of(s, id)].1)
    } else {
        None
    }
}

/// `idx_of` finds the first entry with the sought id, and fails exactly when
/// no entry has it.
pub proof fn lemma_idx_of(s: Seq<(u64, PlayerState)>, id: u64)
    ensures
        -1 <= idx_of(s, id) < s.len(),
        idx_of(s, id) >= 0 ==> s[idx_of(s, id)].0 == id,
        idx_of(s, id) >= 0 ==> forall|k: int| 0 <= k < idx_of(s, id) ==> s[k].0 != id,
        idx_of(s, id) == -1 ==> forall|k: int| 0 <= k < s.len() ==> s[k].0 != id,
        (idx_of(s, id) >= 0) == has_id(s, id),
    decreases s.len(),
{
    if s.len() == 0 {
    } else if s[0].0 == id {
        assert(has_id(s, id));
    } else {
        let t = s.drop_first();
        lemma_idx_of(t, id);
        assert(forall|k: int| 0 <= k < t.len() ==> t[k] == s[k + 1]);
        if idx_of(t, id) >= 0 {
            assert(s[idx_of(s, id)].0 == id);
            assert(has_id(s, id));
            assert forall|k: int| 0 <= k < idx_of(s, id) implies s[k].0 != id by {
                if k >= 1 {
                    assert(t[k - 1].0 != id);
                }
            }
        } else {
            assert forall|k: int| 0 <= k < s.len() implies s[k].0 != id by {
                if k >= 1 {
                    assert(t[k - 1].0 != id);
                }
            }
        }
    }
}

/// A position where the sought id stands, with nothing equal before it, is
/// exactly where `idx_of` points.
pub proof fn lemma_idx_of_is_first(s: Seq<(u64, PlayerState)>, id: u64, i: int)
    requires
        0 <= i < s.len(),
        s[i].0 == id,
        forall|k: int| 0 <= k < i ==> s[k].0 != id,
    ensures
        idx_of(s, id) == i,
{
    lemma_idx_of(s, id);
    let x = idx_of(s, id);
    assert(has_id(s, id));
    if x < i {
        assert(s[x].0 != id);
    }
    if x > i {
        assert(s[i].0 != id);
    }
}

/// No two entries carry the same id.
pub open spec fn unique_ids(s: Seq<(u64, PlayerState)>) -> bool {
    forall|i: int, j: int| 0 <= i < j < s.len() ==> s[i].0 != s[j].0
}

/// Every stored player is within the world bounds.
pub open spec fn players_ok(s: Seq<(u64, PlayerState)>) -> bool {
    forall|k: int| 0 <= k < s.len() ==> player_ok(#[trigger] s[k].1)
}

/// A movement command passes both validation rules: at least one tick period
/// since the player's previous accepted command, and deltas within the
/// per-command magnitude limit.
pub open spec fn move_accepted(p: PlayerState, mx: i64, my: i64, now: u64) -> bool {
    spec_elapsed(now, p.last_cmd_at) >= TIME_PER_TICK && movement_allowed(mx, my)
}

/// Effect of one `MoveBy` command on one player: accepted commands displace
/// and clamp, rejected ones leave the player untouched.
pub open spec fn move_step(p: PlayerState, mx: i64, my: i64, now: u64) -> PlayerState {
    if move_accepted(p, mx, my, now) {
        PlayerState {
            x: spec_clamp(p.x + mx) as i64,
            y: spec_clamp(p.y + my) as i64,
            last_cmd_at: now,
        }
    } else {
        p
    }
}

/// Effect of `PlayerRegistered{id}` on the player table: the entry for `id`
/// is (re)set to the starting state.
pub open spec fn spec_register(s: Seq<(u64, PlayerState)>, id: u64, now: u64) -> Seq<
    (u64, PlayerState),
> {
    if idx_of(s, id) >= 0 {
        s.update(idx_of(s, id), (id, start_player(now)))
    } else {
        s.push((id, start_player(now)))
    }
}

/// Effect of `MoveBy{id, mx, my}` on the player table: a no-op for an unknown
/// id, otherwise `move_step` on that one player.
pub open spec fn spec_move(s: Seq<(u64, PlayerState)>, id: u64, mx: i64, my: i64, now: u64) -> Seq<
    (u64, PlayerState),
> {
    if idx_of(s, id) >= 0 {
        s.update(idx_of(s, id), (id, move_step(s[idx_of(s, id)].1, mx, my, now)))
    } else {
        s
    }
}

/// The immutable positions snapshot a `Tick` broadcasts.
pub open spec fn spec_snapshot(s: Seq<(u64, PlayerState)>) -> Seq<(u64, (i64, i64))> {
    s.map_values(|p: (u64, PlayerState)| (p.0, (p.1.x, p.1.y)))
}

/// The filter a removal pass keeps an entry by: its id saw no send failure.
pub open spec fn keep_pred(ids: Seq<u64>) -> spec_fn((u64, PlayerState)) -> bool {
    |p: (u64, PlayerState)| !ids.contains(p.0)
}

/// Effect of the deferred removal after a `Tick` fan-out: every entry whose
/// outbound send failed is dropped, all others stay, in order.
pub open spec fn spec_remove(s: Seq<(u64, PlayerState)>, ids: Seq<u64>) -> Seq<(u64, PlayerState)> {
    s.filter(keep_pred(ids))
}

/// The authoritative world state: the table of registered players. Owned by
/// exactly one task; everyone else sends commands.
pub struct GameState {
    pub players: Vec<(u64, PlayerState)>,
}

impl GameState {
    /// Ids unique, every position in bounds.
    pub open spec fn wf(&self) -> bool {
        unique_ids(self.players@) && players_ok(self.players@)
    }

    pub fn new() -> (r: GameState)
        ensures
            r.players@.len() == 0,
            r.wf(),
    {
        GameState { players: Vec::new() }
    }
}

impl Default for GameState {
    fn default() -> (r: GameState)
        ensures
            r.players@.len() == 0,
            r.wf(),
    {
        GameState::new()
    }
}

/// Position of the entry carrying `id`, if one exists.
fn index_of_id(players: &Vec<(u64, PlayerState)>, id: u64) -> (r: Option<usize>)
    ensures
        match r {
            Some(i) => idx_of(players@, id) == i as int && (i as int) < players@.len(),
            None => idx_of(players@, id) == -1,
        },
{
    let n = players.len();
    let mut k: usize = 0;
    while k < n
        invariant
            n == players@.len(),
            k <= n,
            forall|j: int| 0 <= j < k ==> players@[j].0 != id,
        decreases n - k,
    {
        if players[k].0 == id {
            proof {
                lemma_idx_of_is_first(players@, id, k as int);
            }
            return Some(k);
        }
        k += 1;
    }
    proof {
        lemma_idx_of(players@, id);
        if idx_of(players@, id) >= 0 {
            assert(players@[idx_of(players@, id)].0 == id);
        }
    }
    None
}

impl GameState {
    /// Handles `PlayerRegistered{id}`: stores the player at the starting
    /// position and hands back the `YouAre` greeting the caller should try to
    /// send on the new player's outbound channel (a failed send is non-fatal;
    /// the next tick's fan-out cleans the entry up).
    pub fn register_player(&mut self, id: u64, now: u64) -> (msg: GameOutputMessage)
        requires
            old(self).wf(),
        ensures
            final(self).players@ == spec_register(old(self).players@, id, now),
            final(self).wf(),
            msg@ == (OutputView::YouAre { id }),
    {
        let ghost s0 = self.players@;
        let fresh = PlayerState { x: START_X_Y, y: START_X_Y, last_cmd_at: now };
        match index_of_id(&self.players, id) {
            Some(i) => {
                proof {
                    lemma_idx_of(s0, id);
                }
                let slot = &mut self.players[i];
                *slot = (id, fresh);
                proof {
                    let s1 = self.players@;
                    assert forall|a: int, b: int| 0 <= a < b < s1.len() implies s1[a].0
                        != s1[b].0 by {
                        assert(s0[a].0 != s0[b].0);
                    }
                }
            },
            None => {
                proof {
                    lemma_idx_of(s0, id);
                }
                self.players.push((id, fresh));
                proof {
                    let s1 = self.players@;
                    assert forall|a: int, b: int| 0 <= a < b < s1.len() implies s1[a].0
                        != s1[b].0 by {
                        if b < s1.len() - 1 {
                            assert(s0[a].0 != s0[b].0);
                        } else {
                            assert(s0[a].0 != id);
                        }
                    }
                }
            },
        }
        GameOutputMessage::YouAre { id }
    }

    /// Handles `MoveBy{id, mx, my}`: drops the command silently when the id
    /// is unknown, the rate limit is violated, or a delta exceeds the
    /// magnitude limit; otherwise displaces the player and clamps the result
    /// into the world bounds.
    pub fn move_by(&mut self, id: u64, mx: i64, my: i64, now: u64)
        requires
            old(self).wf(),
        ensures
            final(self).players@ == spec_move(old(self).players@, id, mx, my, now),
            final(self).wf(),
    {
        let ghost s0 = self.players@;
        match index_of_id(&self.players, id) {
            None => {
                // Stale or unknown id: the player was already removed.
            },
            Some(i) => {
                proof {
                    lemma_idx_of(s0, id);
                }
                let p: PlayerState = self.players[i].1;
                let accepted = rate_allows(now, p.last_cmd_at) && movement_within_limit(mx, my);
                if !accepted {
                    proof {
                        assert(move_step(p, mx, my, now) == p);
                        assert(s0[i as int] == (id, p));
                        assert(spec_move(s0, id, mx, my, now) =~= s0);
                    }
                    return ;
                }
                let mut nx = p.x + mx;
                let mut ny = p.y + my;
                fix_position_within_bounds(&mut nx, &mut ny);
                let slot = &mut self.players[i];
                *slot = (id, PlayerState { x: nx, y: ny, last_cmd_at: now });
                proof {
                    let s1 = self.players@;
                    assert forall|a: int, b: int| 0 <= a < b < s1.len() implies s1[a].0
                        != s1[b].0 by {
                        assert(s0[a].0 != s0[b].0);
                    }
                }
            },
        }
    }

    /// Builds the `PlayerPositions` snapshot one `Tick` broadcasts to every
    /// registered player's outbound channel.
    pub fn to_output_msg(&self) -> (r: GameOutputMessage)
        ensures
            r@ == (OutputView::PlayerPositions { positions: spec_snapshot(self.players@) }),
    {
        let mut positions: Vec<(u64, (i64, i64))> = Vec::new();
        let n = self.players.len();
        let mut k: usize = 0;
        while k < n
            invariant
                n == self.players@.len(),
                k <= n,
                positions@.len() == k,
                forall|j: int|
                    0 <= j < k ==> positions@[j] == (
                        self.players@[j].0,
                        (self.players@[j].1.x, self.players@[j].1.y),
                    ),
            decreases n - k,
        {
            let pr = self.players[k];
            positions.push((pr.0, (pr.1.x, pr.1.y)));
            k += 1;
        }
        proof {
            assert(positions@ =~= spec_snapshot(self.players@));
        }
        GameOutputMessage::PlayerPositions { positions }
    }

    /// Applies the deferred removals after a `Tick` fan-out: every player
    /// whose outbound send failed is retired; everyone else keeps their exact
    /// state and relative order.
    pub fn remove_players(&mut self, ids: &Vec<u64>)
        requires
            old(self).wf(),
        ensures
            final(self).players@ == spec_remove(old(self).players@, ids@),
            final(self).wf(),
    {
        let ghost s0 = self.players@;
        let ghost pred = keep_pred(ids@);
        let mut kept: Vec<(u64, PlayerState)> = Vec::new();
        proof {
            reveal(Seq::filter);
            assert(s0.subrange(0, 0) =~= Seq::<(u64, PlayerState)>::empty());
        }
        let n = self.players.len();
        let mut k: usize = 0;
        while k < n
            invariant
                n == s0.len(),
                self.players@ == s0,
                k <= n,
                kept@ == s0.subrange(0, k as int).filter(pred),
                pred == keep_pred(ids@),
            decreases n - k,
        {
            let pr = self.players[k];
            let ghost prefix = s0.subrange(0, k as int);
            if !ids_contain(ids, pr.0) {
                kept.push(pr);
            }
            proof {
                reveal(Seq::filter);
                let ext = s0.subrange(0, k + 1);
                assert(ext.drop_last() =~= prefix);
                assert(ext.last() == s0[k as int]);
                assert(pred(s0[k as int]) == !ids@.contains(s0[k as int].0));
            }
            k += 1;
        }
        proof {
            assert(s0.subrange(0, n as int) =~= s0);
        }
        self.players = kept;
        proof {
            lemma_remove_keeps(s0, ids@);
        }
    }

    /// Drains one command: the coordinator's whole decision procedure.
    ///
    /// Returns the message the caller must now deliver: the `YouAre` greeting
    /// for a registration (to that player alone), the positions snapshot for
    /// a `Tick` (to every registered player; failed ids go back in through
    /// `remove_players`), and nothing for a movement command.
    pub fn process(&mut self, msg: &GameStateMsg, now: u64) -> (out: Option<GameOutputMessage>)
        requires
            old(self).wf(),
        ensures
            final(self).wf(),
            match msg {
                GameStateMsg::PlayerRegistered { id } => final(self).players@ == spec_register(
                    old(self).players@,
                    *id,
                    now,
                ) && (out matches Some(m) && m@ == (OutputView::YouAre { id: *id })),
                GameStateMsg::MoveBy { id, mx, my } => final(self).players@ == spec_move(
                    old(self).players@,
                    *id,
                    *mx,
                    *my,
                    now,
                ) && out is None,
                GameStateMsg::Tick => final(self).players@ == old(self).players@ && (
                out matches Some(m) && m@ == (OutputView::PlayerPositions {
                    positions: spec_snapshot(old(self).players@),
                })),
            },
    {
        match msg {
            GameStateMsg::PlayerRegistered { id } => Some(self.register_player(*id, now)),
            GameStateMsg::MoveBy { id, mx, my } => {
                self.move_by(*id, *mx, *my, now);
                None
            },
            GameStateMsg::Tick => Some(self.to_output_msg()),
        }
    }
}

/// Linear membership test on the failed-send id list.
fn ids_contain(ids: &Vec<u64>, id: u64) -> (r: bool)
    ensures
        r == ids@.contains(id),
{
    let n = ids.len();
    let mut k: usize = 0;
    while k < n
        invariant
            n == ids@.len(),
            k <= n,
            forall|j: int| 0 <= j < k ==> ids@[j] != id,
        decreases n - k,
    {
        if ids[k] == id {
            return true;
        }
        k += 1;
    }
    false
}

/// The player table after a whole sequence of `MoveBy` commands, each given
/// as `(id, mx, my, now)`, has been processed in order.
pub open spec fn apply_moves(s: Seq<(u64, PlayerState)>, cmds: Seq<(u64, i64, i64, u64)>) -> Seq<
    (u64, PlayerState),
>
    decreases cmds.len(),
{
    if cmds.len() == 0 {
        s
    } else {
        apply_moves(
            spec_move(s, cmds[0].0, cmds[0].1, cmds[0].2, cmds[0].3),
            cmds.drop_first(),
        )
    }
}

/// One movement command keeps the table well formed: ids stay unique and the
/// touched player is clamped back into the world bounds.
pub proof fn lemma_move_preserves_wf(s: Seq<(u64, PlayerState)>, id: u64, mx: i64, my: i64, now: u64)
    requires
        unique_ids(s),
        players_ok(s),
    ensures
        unique_ids(spec_move(s, id, mx, my, now)),
        players_ok(spec_move(s, id, mx, my, now)),
{
    lemma_idx_of(s, id);
    let i = idx_of(s, id);
    if i >= 0 {
        let s1 = spec_move(s, id, mx, my, now);
        assert forall|a: int, b: int| 0 <= a < b < s1.len() implies s1[a].0 != s1[b].0 by {
            assert(s[a].0 != s[b].0);
        }
        assert forall|k: int| 0 <= k < s1.len() implies player_ok(#[trigger] s1[k].1) by {
            assert(player_ok(s[k].1));
        }
    }
}

/// However long the stream of `MoveBy` commands, accepted or rejected, every
/// player's position stays within `MIN_X_Y ..= MAX_X_Y` on both axes.
pub proof fn lemma_moves_stay_in_bounds(
    s: Seq<(u64, PlayerState)>,
    cmds: Seq<(u64, i64, i64, u64)>,
)
    requires
        unique_ids(s),
        players_ok(s),
    ensures
        unique_ids(apply_moves(s, cmds)),
        players_ok(apply_moves(s, cmds)),
    decreases cmds.len(),
{
    if cmds.len() > 0 {
        lemma_move_preserves_wf(s, cmds[0].0, cmds[0].1, cmds[0].2, cmds[0].3);
        lemma_moves_stay_in_bounds(
            spec_move(s, cmds[0].0, cmds[0].1, cmds[0].2, cmds[0].3),
            cmds.drop_first(),
        );
    }
}

/// A command whose delta exceeds `MAX_MOVEMENT` on either axis is rejected
/// wholesale: the whole state is exactly what it was.
pub proof fn lemma_oversized_move_rejected(
    s: Seq<(u64, PlayerState)>,
    id: u64,
    mx: i64,
    my: i64,
    now: u64,
)
    requires
        !movement_allowed(mx, my),
    ensures
        spec_move(s, id, mx, my, now) == s,
{
    lemma_idx_of(s, id);
    let i = idx_of(s, id);
    if i >= 0 {
        assert(move_step(s[i].1, mx, my, now) == s[i].1);
        assert(s[i] == (id, s[i].1));
        assert(spec_move(s, id, mx, my, now) =~= s);
    }
}

/// Of two movement commands from one player closer together than the tick
/// period, only the first takes effect: the second finds the rate limit
/// closed and leaves the state unchanged.
pub proof fn lemma_rate_limit_drops_second(
    s: Seq<(u64, PlayerState)>,
    id: u64,
    mx1: i64,
    my1: i64,
    t1: u64,
    mx2: i64,
    my2: i64,
    t2: u64,
)
    requires
        has_id(s, id),
        move_accepted(s[idx_of(s, id)].1, mx1, my1, t1),
        spec_elapsed(t2, t1) < TIME_PER_TICK,
    ensures
        spec_move(spec_move(s, id, mx1, my1, t1), id, mx2, my2, t2) == spec_move(
            s,
            id,
            mx1,
            my1,
            t1,
        ),
{
    lemma_idx_of(s, id);
    let i = idx_of(s, id);
    let s1 = spec_move(s, id, mx1, my1, t1);
    assert(s1[i].0 == id);
    lemma_idx_of_is_first(s1, id, i);
    assert(s1[i].1.last_cmd_at == t1);
    assert(!move_accepted(s1[i].1, mx2, my2, t2));
    assert(s1[i] == (id, s1[i].1));
    assert(spec_move(s1, id, mx2, my2, t2) =~= s1);
}

/// A registration followed immediately by a tick: the snapshot the tick
/// broadcasts contains the new player at the configured starting coordinate.
pub proof fn lemma_register_then_tick(s: Seq<(u64, PlayerState)>, id: u64, now: u64)
    ensures
        spec_snapshot(spec_register(s, id, now)).contains((id, (START_X_Y, START_X_Y))),
{
    lemma_idx_of(s, id);
    let s1 = spec_register(s, id, now);
    let i: int = if idx_of(s, id) >= 0 {
        idx_of(s, id)
    } else {
        s.len() as int
    };
    assert(s1[i] == (id, start_player(now)));
    assert(spec_snapshot(s1)[i] == (id, (START_X_Y, START_X_Y)));
}

/// Removing the players whose sends failed erases exactly those ids: they are
/// absent from every later snapshot.
pub proof fn lemma_removed_ids_absent(s: Seq<(u64, PlayerState)>, ids: Seq<u64>)
    requires
        unique_ids(s),
        players_ok(s),
    ensures
        forall|id: u64| ids.contains(id) ==> !has_id(spec_remove(s, ids), id),
{
    lemma_remove_keeps(s, ids);
    let f = spec_remove(s, ids);
    assert forall|id: u64| ids.contains(id) implies !has_id(f, id) by {
        if has_id(f, id) {
            let k = choose|k: int| 0 <= k < f.len() && f[k].0 == id;
            assert(!ids.contains(f[k].0));
        }
    }
}

/// Every player whose sends did not fail keeps exactly the state it had:
/// looking it up after the removal pass gives the same answer as before.
pub proof fn lemma_remove_preserves_live_players(s: Seq<(u64, PlayerState)>, ids: Seq<u64>)
    requires
        unique_ids(s),
        players_ok(s),
    ensures
        forall|id: u64|
            !ids.contains(id) ==> #[trigger] lookup(spec_remove(s, ids), id) == lookup(s, id),
{
    lemma_remove_keeps(s, ids);
    let f = spec_remove(s, ids);
    assert forall|id: u64| !ids.contains(id) implies #[trigger] lookup(f, id) == lookup(s, id) by {
        lemma_idx_of(s, id);
        lemma_idx_of(f, id);
        if has_id(s, id) {
            let is = idx_of(s, id);
            assert(f.contains(s[is]));
            assert(has_id(f, id)) by {
                let k = choose|k: int| 0 <= k < f.len() && f[k] == s[is];
                assert(f[k].0 == id);
            }
            let ik = idx_of(f, id);
            assert(s.contains(f[ik]));
            let j = choose|j: int| 0 <= j < s.len() && s[j] == f[ik];
            assert(s[j].0 == id);
            assert(j == is);
        } else {
            if has_id(f, id) {
                let k = choose|k: int| 0 <= k < f.len() && f[k].0 == id;
                assert(s.contains(f[k]));
                let j = choose|j: int| 0 <= j < s.len() && s[j] == f[k];
                assert(s[j].0 == id);
            }
        }
    }
}

/// Removal keeps exactly the entries whose id did not fail: survivors are
/// unchanged entries of the old table, every live entry survives, and the
/// table stays well-formed.
pub proof fn lemma_remove_keeps(s: Seq<(u64, PlayerState)>, ids: Seq<u64>)
    requires
        unique_ids(s),
        players_ok(s),
    ensures
        unique_ids(spec_remove(s, ids)),
        players_ok(spec_remove(s, ids)),
        forall|k: int|
            0 <= k < spec_remove(s, ids).len() ==> s.contains(#[trigger] spec_remove(s, ids)[k])
                && !ids.contains(spec_remove(s, ids)[k].0),
        forall|j: int|
            0 <= j < s.len() && !ids.contains(s[j].0) ==> spec_remove(s, ids).contains(
                #[trigger] s[j],
            ),
    decreases s.len(),
{
    broadcast use vstd::seq_lib::group_filter_ensures;

    let pred = keep_pred(ids);
    let f = spec_remove(s, ids);
    assert forall|k: int| 0 <= k < f.len() implies s.contains(#[trigger] f[k]) && !ids.contains(
        f[k].0,
    ) by {
        assert(f.contains(f[k]));
        s.lemma_filter_contains_rev(pred, f[k]);
        assert(pred(f[k]));
    }
    assert forall|k: int| 0 <= k < f.len() implies player_ok(#[trigger] f[k].1) by {
        let j = choose|j: int| 0 <= j < s.len() && s[j] == f[k];
        assert(player_ok(s[j].1));
    }
    if s.len() > 0 {
        reveal(Seq::filter);
        let t = s.drop_last();
        let e = s.last();
        assert(forall|k: int| 0 <= k < t.len() ==> t[k] == s[k]);
        lemma_remove_keeps(t, ids);
        let ft = spec_remove(t, ids);
        assert forall|a: int, b: int| 0 <= a < b < f.len() implies f[a].0 != f[b].0 by {
            if pred(e) {
                assert(f == ft.push(e));
                if b < ft.len() {
                    assert(ft[a].0 != ft[b].0);
                } else {
                    assert(f[b] == e);
                    assert(ft.contains(ft[a]));
                    t.lemma_filter_contains_rev(pred, ft[a]);
                    let j = choose|j: int| 0 <= j < t.len() && t[j] == ft[a];
                    assert(s[j].0 != s[s.len() - 1].0);
                }
            } else {
                assert(f == ft);
                assert(ft[a].0 != ft[b].0);
            }
        }
    }
}

} // verus!
