//! The maze session: a grid, a roster of named players, move validation
//! and the win state machine.
//!
//! A session is `Active` until some player reaches the grid's end position,
//! which makes it `Finished` with that player recorded as the winner; only
//! an explicit restart leaves `Finished`, regenerating the maze and putting
//! every player back on the start cell. A player placed directly onto the
//! end position (which happens exactly when the grid has a single cell)
//! wins immediately by the initial-placement check, not by a move.

use vstd::prelude::*;

use crate::custom_events::CustomEvent;
use crate::custom_events::str_eq;
use crate::direction::Direction;
use crate::maze::Cell;
use crate::maze::Color;
use crate::maze::MAX_SIZE;
use crate::maze::MazeGrid;
use crate::rng::random_color_component;
use crate::rng::random_player_id;

verus! {

/// A player: an identifier, a name, a cosmetic colour and a grid position.
#[derive(Debug)]
pub struct Player {
    pub id: u128,
    pub name: String,
    pub color: Color,
    pub pos: (i32, i32),
}

impl Player {
    /// The player's position, as mathematical integers.
    pub open spec fn pos_spec(self) -> (int, int) {
        (self.pos.0 as int, self.pos.1 as int)
    }

    /// A player standing at `pos`, with a freshly drawn random identifier
    /// and a random opaque colour.
    pub fn new(pos: (i32, i32), name: String) -> (p: Player)
        ensures
            p.pos == pos,
            p.name == name,
            p.color.a == 255,
    {
        let id = random_player_id();
        let color = Color::new(
            255,
            random_color_component(),
            random_color_component(),
            random_color_component(),
        );
        Player { id, name, color, pos }
    }

    /// Moves the player onto the given cell; identity, name and colour are
    /// untouched.
    pub fn move_to(&mut self, cell: &Cell)
        ensures
            final(self).pos_spec() == cell.pos_spec(),
            final(self).id == old(self).id,
            final(self).name == old(self).name,
            final(self).color == old(self).color,
    {
        self.pos = cell.pos();
    }

    /// The player's identifier.
    pub fn id(&self) -> (r: u128)
        ensures
            r == self.id,
    {
        self.id
    }
}

impl Clone for Player {
    fn clone(&self) -> (res: Player)
        ensures
            res == *self,
    {
        Player { id: self.id, name: self.name.clone(), color: self.color, pos: self.pos }
    }
}

/// Whether some player in the roster carries this name.
pub open spec fn has_named(players: Seq<Player>, name: Seq<char>) -> bool {
    exists|i: int| 0 <= i < players.len() && (#[trigger] players[i]).name@ == name
}

/// `i` is the first roster index whose player carries this name.
pub open spec fn is_first_named(players: Seq<Player>, name: Seq<char>, i: int) -> bool {
    &&& 0 <= i < players.len()
    &&& players[i].name@ == name
    &&& forall|j: int| 0 <= j < i ==> (#[trigger] players[j]).name@ != name
}

/// The first roster index whose player carries this name.
pub open spec fn first_named(players: Seq<Player>, name: Seq<char>) -> int {
    choose|i: int| is_first_named(players, name, i)
}

/// Whether some player in the roster carries this identifier.
pub open spec fn has_with_id(players: Seq<Player>, id: u128) -> bool {
    exists|i: int| 0 <= i < players.len() && (#[trigger] players[i]).id == id
}

/// `i` is the first roster index whose player carries this identifier.
pub open spec fn is_first_with_id(players: Seq<Player>, id: u128, i: int) -> bool {
    &&& 0 <= i < players.len()
    &&& players[i].id == id
    &&& forall|j: int| 0 <= j < i ==> (#[trigger] players[j]).id != id
}

/// The first roster index whose player carries this identifier.
pub open spec fn first_with_id(players: Seq<Player>, id: u128) -> int {
    choose|i: int| is_first_with_id(players, id, i)
}

/// The roster with every player of this name removed, order kept.
pub open spec fn remove_named(players: Seq<Player>, name: Seq<char>) -> Seq<Player>
    decreases players.len(),
{
    if players.len() == 0 {
        Seq::empty()
    } else {
        let rest = remove_named(players.drop_last(), name);
        if players.last().name@ == name {
            rest
        } else {
            rest.push(players.last())
        }
    }
}

/// A first match determines `first_named`.
pub proof fn lemma_first_named_is(players: Seq<Player>, name: Seq<char>, i: int)
    requires
        is_first_named(players, name, i),
    ensures
        first_named(players, name) == i,
{
    assert(is_first_named(players, name, first_named(players, name))) by {
        assert(exists|k: int| is_first_named(players, name, k));
    }
    let w = first_named(players, name);
    if w < i {
        assert(players[w].name@ != name);
    } else if w > i {
        assert(players[i].name@ != name);
    }
}

/// A first match determines `first_with_id`.
pub proof fn lemma_first_with_id_is(players: Seq<Player>, id: u128, i: int)
    requires
        is_first_with_id(players, id, i),
    ensures
        first_with_id(players, id) == i,
{
    assert(is_first_with_id(players, id, first_with_id(players, id))) by {
        assert(exists|k: int| is_first_with_id(players, id, k));
    }
    let w = first_with_id(players, id);
    if w < i {
        assert(players[w].id != id);
    } else if w > i {
        assert(players[i].id != id);
    }
}

/// One maze session: the grid, the roster and the win state.
#[derive(Debug)]
pub struct MazeGame {
    pub maze: MazeGrid,
    pub players: Vec<Player>,
    pub is_finished: bool,
    pub winner: Option<u128>,
}

/// The effect of one attempted move of the player at roster index `i`:
/// through a reciprocal passage the position becomes the exact target cell
/// and reaching the end position finishes the session with that player as
/// winner; a missing passage or an off-grid target changes nothing.
pub open spec fn step_transition(pre: MazeGame, post: MazeGame, i: int, d: Direction) -> bool {
    let from = pre.players@[i].pos_spec();
    let to = (from.0 + d.offset_spec().0, from.1 + d.offset_spec().1);
    if pre.maze.linked(from, to) {
        &&& post.maze == pre.maze
        &&& post.players@.len() == pre.players@.len()
        &&& post.players@[i].id == pre.players@[i].id
        &&& post.players@[i].name == pre.players@[i].name
        &&& post.players@[i].color == pre.players@[i].color
        &&& post.players@[i].pos_spec() == to
        &&& (forall|j: int|
            0 <= j < pre.players@.len() && j != i ==> post.players@[j] == #[trigger] pre.players@[j])
        &&& (to == pre.maze.end_spec() ==> post.is_finished && post.winner == Some(
            pre.players@[i].id,
        ))
        &&& (to != pre.maze.end_spec() ==> post.is_finished == pre.is_finished && post.winner
            == pre.winner)
    } else {
        post == pre
    }
}

/// The effect of a connect event: a new player appears at the start cell
/// unless the name is already taken, and wins immediately when the start
/// cell is the end cell and the session is active.
pub open spec fn connect_transition(pre: MazeGame, post: MazeGame, name: Seq<char>) -> bool {
    if has_named(pre.players@, name) {
        post == pre
    } else {
        &&& post.maze == pre.maze
        &&& post.players@.len() == pre.players@.len() + 1
        &&& (forall|j: int|
            0 <= j < pre.players@.len() ==> post.players@[j] == #[trigger] pre.players@[j])
        &&& post.players@.last().name@ == name
        &&& post.players@.last().pos_spec() == pre.maze.start_spec()
        &&& if !pre.is_finished && pre.maze.start_spec() == pre.maze.end_spec() {
            post.is_finished && post.winner == Some(post.players@.last().id)
        } else {
            post.is_finished == pre.is_finished && post.winner == pre.winner
        }
    }
}

/// The effect of a disconnect event: every player of that name leaves; the
/// grid and the win state stay.
pub open spec fn disconnect_transition(pre: MazeGame, post: MazeGame, name: Seq<char>) -> bool {
    &&& post.maze == pre.maze
    &&& post.is_finished == pre.is_finished
    &&& post.winner == pre.winner
    &&& post.players@ == remove_named(pre.players@, name)
}

/// The effect of a move event: in an active session the first player of
/// that name attempts the move; a finished session or an unknown name
/// changes nothing.
pub open spec fn move_transition(pre: MazeGame, post: MazeGame, name: Seq<char>, d: Direction) -> bool {
    if pre.is_finished || !has_named(pre.players@, name) {
        post == pre
    } else {
        step_transition(pre, post, first_named(pre.players@, name), d)
    }
}

impl MazeGame {
    /// Session well-formedness: a well-formed grid of side length at least
    /// one, start at the origin, end at the opposite corner, every player
    /// on an in-bounds cell, and a winner only in a finished session.
    pub open spec fn wf(self) -> bool {
        &&& self.maze.wf()
        &&& 1 <= self.maze.size
        &&& self.maze.start_spec() == (0int, 0int)
        &&& self.maze.end_spec() == (self.maze.size_spec() - 1, self.maze.size_spec() - 1)
        &&& forall|i: int|
            0 <= i < self.players@.len() ==> self.maze.in_bounds(
                (#[trigger] self.players@[i]).pos_spec().0,
                self.players@[i].pos_spec().1,
            )
        &&& (self.winner is Some ==> self.is_finished)
    }

    /// Whether some player carries this name.
    pub open spec fn has_player_named(self, name: Seq<char>) -> bool {
        has_named(self.players@, name)
    }

    /// Whether some player carries this identifier.
    pub open spec fn has_player_with_id(self, id: u128) -> bool {
        has_with_id(self.players@, id)
    }

    /// A fresh session over a newly generated perfect maze of the given
    /// side length, with an empty roster and an active state. A side
    /// length below one or above the supported maximum is rejected before
    /// any allocation.
    pub fn new(grid_size: i32) -> (r: Option<MazeGame>)
        ensures
            match r {
                Some(g) => {
                    &&& 1 <= grid_size <= MAX_SIZE
                    &&& g.wf()
                    &&& g.maze.size == grid_size
                    &&& g.maze.is_perfect()
                    &&& g.players@.len() == 0
                    &&& !g.is_finished
                    &&& g.winner is None
                },
                None => !(1 <= grid_size <= MAX_SIZE),
            },
    {
        if grid_size < 1 || grid_size > MAX_SIZE {
            return None;
        }
        let maze = MazeGrid::new(grid_size, (0, 0), (grid_size - 1, grid_size - 1));
        Some(MazeGame { maze, players: Vec::new(), is_finished: false, winner: None })
    }

    /// The first roster index of the player with this identifier.
    fn find_player_by_id(&self, id: u128) -> (r: Option<usize>)
        ensures
            match r {
                Some(i) => is_first_with_id(self.players@, id, i as int),
                None => !self.has_player_with_id(id),
            },
    {
        let n = self.players.len();
        let mut k: usize = 0;
        while k < n
            invariant
                k <= n,
                n == self.players@.len(),
                forall|j: int| 0 <= j < k ==> (#[trigger] self.players@[j]).id != id,
            decreases n - k,
        {
            if self.players[k].id == id {
                return Some(k);
            }
            k += 1;
        }
        None
    }

    /// The first roster index of the player with this name.
    fn find_player_by_name(&self, name: &str) -> (r: Option<usize>)
        ensures
            match r {
                Some(i) => is_first_named(self.players@, name@, i as int),
                None => !self.has_player_named(name@),
            },
    {
        let n = self.players.len();
        let mut k: usize = 0;
        while k < n
            invariant
                k <= n,
                n == self.players@.len(),
                forall|j: int| 0 <= j < k ==> (#[trigger] self.players@[j]).name@ != name@,
            decreases n - k,
        {
            if str_eq(self.players[k].name.as_str(), name) {
                return Some(k);
            }
            k += 1;
        }
        None
    }

    /// Attempts to move the player at roster index `i` one cell along
    /// `dir`, applying the session's move-validation rule.
    fn try_move_at(&mut self, i: usize, dir: Direction)
        requires
            old(self).wf(),
            !old(self).is_finished,
            i < old(self).players@.len(),
        ensures
            final(self).wf(),
            step_transition(*old(self), *final(self), i as int, dir),
    {
        let ppos = self.players[i].pos;
        proof {
            assert(old(self).maze.in_bounds(
                old(self).players@[i as int].pos_spec().0,
                old(self).players@[i as int].pos_spec().1,
            ));
        }
        let (dx, dy) = dir.grid_dir();
        let tx = ppos.0 + dx;
        let ty = ppos.1 + dy;
        let pid = self.players[i].id;
        let target = self.maze.cell_at(tx, ty);
        match target {
            None => {},
            Some(tc) => {
                let cur_opt = self.maze.cell_at(ppos.0, ppos.1);
                match cur_opt {
                    None => {
                        proof {
                            assert(false);
                        }
                    },
                    Some(cur) => {
                        if cur.has_link_to(tc) {
                            let pref = &mut self.players[i];
                            pref.move_to(tc);
                            let endp = self.maze.end_pos();
                            if tx == endp.0 && ty == endp.1 {
                                self.is_finished = true;
                                self.winner = Some(pid);
                            }
                        } else {
                            proof {
                                assert(!old(self).maze.linked(
                                    old(self).players@[i as int].pos_spec(),
                                    (tx as int, ty as int),
                                ));
                            }
                        }
                    },
                }
            },
        }
    }

    /// Attempts to move the first player with this identifier one cell
    /// along `dir`. A finished session or an unknown identifier changes
    /// nothing; otherwise the session's move-validation rule applies.
    pub fn try_move(&mut self, player_id: u128, dir: Direction)
        requires
            old(self).wf(),
        ensures
            final(self).wf(),
            old(self).is_finished ==> *final(self) == *old(self),
            !old(self).has_player_with_id(player_id) ==> *final(self) == *old(self),
            (!old(self).is_finished && old(self).has_player_with_id(player_id))
                ==> step_transition(
                *old(self),
                *final(self),
                first_with_id(old(self).players@, player_id),
                dir,
            ),
    {
        if self.is_finished {
            return;
        }
        let idx = self.find_player_by_id(player_id);
        match idx {
            None => {},
            Some(i) => {
                proof {
                    lemma_first_with_id_is(self.players@, player_id, i as int);
                }
                self.try_move_at(i, dir);
            },
        }
    }

    /// Adds a player of this name, placed on the start cell, unless the
    /// name is already taken. A player placed directly onto the end cell
    /// of an active session wins immediately.
    pub fn connect_player(&mut self, name: String)
        requires
            old(self).wf(),
        ensures
            final(self).wf(),
            connect_transition(*old(self), *final(self), name@),
    {
        let present = self.find_player_by_name(name.as_str());
        match present {
            Some(_) => {},
            None => {
                let p = Player::new((0, 0), name);
                let pid = p.id;
                self.players.push(p);
                if !self.is_finished && self.maze.size() == 1 {
                    self.is_finished = true;
                    self.winner = Some(pid);
                }
                proof {
                    assert(old(self).maze.start_spec() == old(self).maze.end_spec()
                        <==> old(self).maze.size == 1);
                }
            },
        }
    }

    /// Removes every player of this name; the grid and the win state stay.
    pub fn disconnect_player(&mut self, name: &str)
        requires
            old(self).wf(),
        ensures
            final(self).wf(),
            disconnect_transition(*old(self), *final(self), name@),
    {
        let n = self.players.len();
        let mut kept: Vec<Player> = Vec::new();
        let mut k: usize = 0;
        while k < n
            invariant
                k <= n,
                n == self.players@.len(),
                *self == *old(self),
                old(self).wf(),
                kept@ == remove_named(self.players@.subrange(0, k as int), name@),
                forall|j: int|
                    0 <= j < kept@.len() ==> self.maze.in_bounds(
                        (#[trigger] kept@[j]).pos_spec().0,
                        kept@[j].pos_spec().1,
                    ),
            decreases n - k,
        {
            let ghost pre_sub = self.players@.subrange(0, k as int);
            let keep_it = !str_eq(self.players[k].name.as_str(), name);
            if keep_it {
                let p = self.players[k].clone();
                kept.push(p);
            }
            proof {
                let sub2 = self.players@.subrange(0, k as int + 1);
                assert(sub2.drop_last() =~= pre_sub);
                assert(sub2.last() == self.players@[k as int]);
            }
            k += 1;
        }
        proof {
            assert(self.players@.subrange(0, n as int) =~= self.players@);
        }
        self.players = kept;
    }

    /// Attempts to move the first player with this name one cell along
    /// `dir`. A finished session or an unknown name changes nothing.
    pub fn move_player(&mut self, name: &str, dir: Direction)
        requires
            old(self).wf(),
        ensures
            final(self).wf(),
            move_transition(*old(self), *final(self), name@, dir),
    {
        if self.is_finished {
            return;
        }
        let idx = self.find_player_by_name(name);
        match idx {
            None => {},
            Some(i) => {
                proof {
                    lemma_first_named_is(self.players@, name@, i as int);
                }
                self.try_move_at(i, dir);
            },
        }
    }

    /// Applies one decoded protocol event to the session.
    pub fn handle_input(&mut self, event: &CustomEvent)
        requires
            old(self).wf(),
        ensures
            final(self).wf(),
            match *event {
                CustomEvent::PlayerConnected(ref n) => connect_transition(
                    *old(self),
                    *final(self),
                    n@,
                ),
                CustomEvent::PlayerDisconnected(ref n) => disconnect_transition(
                    *old(self),
                    *final(self),
                    n@,
                ),
                CustomEvent::PlayerMove(ref n, d) => move_transition(
                    *old(self),
                    *final(self),
                    n@,
                    d,
                ),
            },
    {
        match event {
            CustomEvent::PlayerConnected(n) => {
                let name = n.clone();
                self.connect_player(name);
            },
            CustomEvent::PlayerDisconnected(n) => {
                self.disconnect_player(n.as_str());
            },
            CustomEvent::PlayerMove(n, d) => {
                self.move_player(n.as_str(), *d);
            },
        }
    }

    /// Replaces the maze with a freshly generated one of the same side
    /// length, puts every player back on the start cell and clears the win
    /// state; on a single-cell grid the initial-placement check then makes
    /// the roster's first player the immediate winner.
    pub fn restart(&mut self)
        requires
            old(self).wf(),
        ensures
            final(self).wf(),
            final(self).maze.size == old(self).maze.size,
            final(self).maze.is_perfect(),
            final(self).players@.len() == old(self).players@.len(),
            forall|j: int|
                0 <= j < old(self).players@.len() ==> {
                    &&& (#[trigger] final(self).players@[j]).id == old(self).players@[j].id
                    &&& final(self).players@[j].name == old(self).players@[j].name
                    &&& final(self).players@[j].color == old(self).players@[j].color
                    &&& final(self).players@[j].pos_spec() == (0int, 0int)
                },
            (old(self).maze.size == 1 && old(self).players@.len() > 0) ==> final(self).is_finished
                && final(self).winner == Some(old(self).players@[0].id),
            !(old(self).maze.size == 1 && old(self).players@.len() > 0) ==> !final(self).is_finished
                && final(self).winner is None,
    {
        let n = self.players.len();
        let mut k: usize = 0;
        while k < n
            invariant
                k <= n,
                n == self.players@.len(),
                self.maze == old(self).maze,
                self.is_finished == old(self).is_finished,
                self.winner == old(self).winner,
                forall|j: int|
                    0 <= j < k ==> {
                        &&& (#[trigger] self.players@[j]).id == old(self).players@[j].id
                        &&& self.players@[j].name == old(self).players@[j].name
                        &&& self.players@[j].color == old(self).players@[j].color
                        &&& self.players@[j].pos == (0i32, 0i32)
                    },
                forall|j: int| k <= j < n ==> self.players@[j] == old(self).players@[j],
            decreases n - k,
        {
            let pref = &mut self.players[k];
            pref.pos = (0, 0);
            k += 1;
        }
        let size = self.maze.size();
        let maze = MazeGrid::new(size, (0, 0), (size - 1, size - 1));
        self.maze = maze;
        self.is_finished = false;
        self.winner = None;
        if size == 1 && self.players.len() > 0 {
            let pid = self.players[0].id;
            self.is_finished = true;
            self.winner = Some(pid);
        }
    }

    /// The name of the winning player, or `None` while the session is
    /// active or when the winner has since disconnected.
    pub fn winner_name(&self) -> (r: Option<String>)
        ensures
            match self.winner {
                None => r is None,
                Some(id) => {
                    &&& (self.has_player_with_id(id) ==> match r {
                        Some(s) => s == self.players@[first_with_id(self.players@, id)].name,
                        None => false,
                    })
                    &&& (!self.has_player_with_id(id) ==> r is None)
                },
            },
    {
        match self.winner {
            None => None,
            Some(id) => {
                let idx = self.find_player_by_id(id);
                match idx {
                    None => None,
                    Some(i) => {
                        proof {
                            lemma_first_with_id_is(self.players@, id, i as int);
                        }
                        Some(self.players[i].name.clone())
                    },
                }
            },
        }
    }

    /// The roster's names and colours, in roster order, for display.
    pub fn players(&self) -> (r: Vec<(String, Color)>)
        ensures
            r@.len() == self.players@.len(),
            forall|i: int|
                0 <= i < r@.len() ==> (#[trigger] r@[i]).0 == self.players@[i].name && r@[i].1
                    == self.players@[i].color,
    {
        let n = self.players.len();
        let mut r: Vec<(String, Color)> = Vec::new();
        let mut k: usize = 0;
        while k < n
            invariant
                k <= n,
                n == self.players@.len(),
                r@.len() == k,
                forall|i: int|
                    0 <= i < k ==> (#[trigger] r@[i]).0 == self.players@[i].name && r@[i].1
                        == self.players@[i].color,
            decreases n - k,
        {
            let name = self.players[k].name.clone();
            let color = self.players[k].color;
            r.push((name, color));
            k += 1;
        }
        r
    }
}

} // verus!
