use crate::game::{Game, Square};
use vstd::prelude::*;

verus! {

/// One position of the search tree, with the statistics of the playouts through it.
pub struct Node {
    childrens: Vec<usize>,
    game: Game,
    wins: u32,
    parent: usize,
    playouts: u32,
}

impl Node {
    /// Arena indices of the children.
    pub closed spec fn children(&self) -> Seq<usize> {
        self.childrens@
    }

    /// The position this node stands for.
    pub closed spec fn position(&self) -> Game {
        self.game
    }

    /// Score of the playouts through this node for the side that moved into it, in half
    /// points: two for a win, one for a draw.
    pub closed spec fn score(&self) -> nat {
        self.wins as nat
    }

    /// Arena index of the parent.
    pub closed spec fn parent_index(&self) -> usize {
        self.parent
    }

    /// Number of playouts through this node.
    pub closed spec fn visits(&self) -> nat {
        self.playouts as nat
    }

    pub fn new(game: Game, parent: usize) -> (r: Self)
        ensures
            r.children() == Seq::<usize>::empty(),
            r.position() == game,
            r.score() == 0,
            r.parent_index() == parent,
            r.visits() == 0,
    {
        Node {
            childrens: Vec::with_capacity(Square::COUNT as usize),
            game,
            wins: 0,
            parent,
            playouts: 0,
        }
    }

    pub fn get_childrens(&self) -> (r: &Vec<usize>)
        ensures
            r@ == self.children(),
    {
        &self.childrens
    }

    pub fn get_game(&self) -> (r: &Game)
        ensures
            *r == self.position(),
    {
        &self.game
    }

    /// The score in half points.
    pub fn get_wins(&self) -> (r: u32)
        ensures
            r == self.score(),
    {
        self.wins
    }

    pub fn get_parent(&self) -> (r: usize)
        ensures
            r == self.parent_index(),
    {
        self.parent
    }

    pub fn get_playouts(&self) -> (r: u32)
        ensures
            r == self.visits(),
    {
        self.playouts
    }

    /// Credits a won playout: two half points.
    pub fn add_win(&mut self)
        requires
            old(self).score() + 2 <= u32::MAX,
        ensures
            final(self).score() == old(self).score() + 2,
            final(self).children() == old(self).children(),
            final(self).position() == old(self).position(),
            final(self).parent_index() == old(self).parent_index(),
            final(self).visits() == old(self).visits(),
    {
        self.wins = self.wins + 2;
    }

    /// Credits a drawn playout: one half point.
    pub fn add_draw(&mut self)
        requires
            old(self).score() + 1 <= u32::MAX,
        ensures
            final(self).score() == old(self).score() + 1,
            final(self).children() == old(self).children(),
            final(self).position() == old(self).position(),
            final(self).parent_index() == old(self).parent_index(),
            final(self).visits() == old(self).visits(),
    {
        self.wins = self.wins + 1;
    }

    pub fn add_children(&mut self, index: usize)
        ensures
            final(self).children() == old(self).children().push(index),
            final(self).position() == old(self).position(),
            final(self).score() == old(self).score(),
            final(self).parent_index() == old(self).parent_index(),
            final(self).visits() == old(self).visits(),
    {
        self.childrens.push(index);
    }

    pub fn add_playout(&mut self)
        requires
            old(self).visits() + 1 <= u32::MAX,
        ensures
            final(self).visits() == old(self).visits() + 1,
            final(self).children() == old(self).children(),
            final(self).position() == old(self).position(),
            final(self).score() == old(self).score(),
            final(self).parent_index() == old(self).parent_index(),
    {
        self.playouts = self.playouts + 1;
    }
}

} // verus!
