//! Scores of a series of games: how many games took how many turns.

use vstd::prelude::*;

verus! {

/// `histogram` made long enough to have a place `turns`, with zeros.
pub open spec fn with_room(histogram: Seq<usize>, turns: int) -> Seq<usize> {
    if histogram.len() > turns {
        histogram
    } else {
        histogram + Seq::new((turns + 1 - histogram.len()) as nat, |i: int| 0usize)
    }
}

/// The tally of the games that were won.
pub struct Statistics {
    games: usize,
    score: usize,
    histogram: Vec<usize>,
}

impl Statistics {
    /// The number of games counted.
    pub closed spec fn games(&self) -> nat {
        self.games as nat
    }

    /// The turns of all counted games together.
    pub closed spec fn score(&self) -> nat {
        self.score as nat
    }

    /// At each place, the number of games that took that many turns.
    pub closed spec fn histogram(&self) -> Seq<usize> {
        self.histogram@
    }

    /// Counting a game of `turns` turns would overflow none of the numbers.
    pub open spec fn has_room(&self, turns: usize) -> bool {
        &&& self.games() < usize::MAX
        &&& self.score() + turns <= usize::MAX
        &&& turns < usize::MAX
        &&& with_room(self.histogram(), turns as int)[turns as int] < usize::MAX
    }

    /// A tally of no games.
    pub fn new() -> (stats: Statistics)
        ensures
            stats.games() == 0,
            stats.score() == 0,
            stats.histogram() == Seq::<usize>::empty(),
    {
        Statistics { games: 0, score: 0, histogram: Vec::new() }
    }

    /// Counts a game that was won in `turns` turns and says so; where a
    /// number would overflow, nothing is counted.
    pub fn record(&mut self, turns: usize) -> (counted: bool)
        ensures
            counted == old(self).has_room(turns),
            counted ==> {
                &&& final(self).games() == old(self).games() + 1
                &&& final(self).score() == old(self).score() + turns
                &&& final(self).histogram() == with_room(old(self).histogram(), turns as int).update(
                    turns as int,
                    (with_room(old(self).histogram(), turns as int)[turns as int] + 1) as usize,
                )
            },
            !counted ==> {
                &&& final(self).games() == old(self).games()
                &&& final(self).score() == old(self).score()
                &&& final(self).histogram() == old(self).histogram()
            },
    {
        if self.games == usize::MAX || turns > usize::MAX - self.score || turns == usize::MAX {
            return false;
        }
        if turns < self.histogram.len() && self.histogram[turns] == usize::MAX {
            return false;
        }
        let ghost before = self.histogram@;
        while self.histogram.len() <= turns
            invariant
                self.games == old(self).games,
                self.score == old(self).score,
                before == old(self).histogram@,
                before.len() <= self.histogram@.len(),
                self.histogram@.len() <= turns + 1 || self.histogram@ == before,
                self.histogram@ == before + Seq::new(
                    (self.histogram@.len() - before.len()) as nat,
                    |i: int| 0usize,
                ),
            decreases turns + 1 - self.histogram@.len(),
        {
            self.histogram.push(0);
            assert(self.histogram@ =~= before + Seq::new(
                (self.histogram@.len() - before.len()) as nat,
                |i: int| 0usize,
            ));
        }
        assert(self.histogram@ =~= with_room(before, turns as int));
        self.games = self.games + 1;
        self.score = self.score + turns;
        let count = self.histogram[turns];
        self.histogram.set(turns, count + 1);
        true
    }

    /// The number of games counted.
    pub fn games_played(&self) -> (games: usize)
        ensures
            games == self.games(),
    {
        self.games
    }

    /// The turns of all counted games together.
    pub fn total_score(&self) -> (score: usize)
        ensures
            score == self.score(),
    {
        self.score
    }

    /// At each place, the number of games that took that many turns.
    pub fn counts(&self) -> (histogram: &Vec<usize>)
        ensures
            histogram@ == self.histogram(),
    {
        &self.histogram
    }
}

} // verus!
