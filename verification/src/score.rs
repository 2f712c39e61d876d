//! The ordered, negatable value that adversarial searches maximise, with the
//! laws that make alpha-beta pruning exact, and the concrete score kinds: a
//! plain signed score and the win/draw/loss tally of rollout evaluation.

use vstd::prelude::*;

verus! {

/// A search score: totally ordered, bounded by two sentinels and negatable,
/// so that a zero-sum position can be revalued from the other player's point
/// of view.  The order and negation are given as explicit spec functions
/// rather than through operator traits, with executable counterparts.
pub trait Score: Sized + Copy {
    /// Values the score kind fully supports; outside it negation may wrap.
    spec fn in_range(self) -> bool;

    /// The order the searches maximise by.
    spec fn spec_le(self, other: Self) -> bool;

    /// The value as seen by the opponent.
    spec fn spec_flip(self) -> Self;

    /// Sentinel below every in-range value.
    spec fn spec_min() -> Self;

    /// Sentinel above every in-range value.
    spec fn spec_max() -> Self;

    /// Whether this kind satisfies the order and negation laws that make
    /// pruned search agree with full-width search: a total antisymmetric
    /// transitive order, an involutive order-reversing `flip`, and sentinels
    /// that bound every in-range value.
    spec fn obeys_laws() -> bool;

    /// The laws themselves, for kinds that claim them.
    proof fn lemma_laws(a: Self, b: Self, c: Self)
        requires
            a.in_range(),
            b.in_range(),
            c.in_range(),
        ensures
            Self::obeys_laws() ==> {
                &&& a.spec_le(b) || b.spec_le(a)
                &&& (a.spec_le(b) && b.spec_le(a)) ==> a == b
                &&& (a.spec_le(b) && b.spec_le(c)) ==> a.spec_le(c)
                &&& a.spec_flip().spec_flip() == a
                &&& (a.spec_le(b) <==> b.spec_flip().spec_le(a.spec_flip()))
                &&& Self::spec_min().spec_le(a)
                &&& a.spec_le(Self::spec_max())
            },
    ;

    /// For kinds that claim the laws, the sentinels are themselves
    /// supported values.
    proof fn lemma_sentinels()
        ensures
            Self::obeys_laws() ==> (Self::spec_min().in_range() && Self::spec_max().in_range()
                && Self::spec_min() != Self::spec_max()),
    ;

    /// Negation keeps a value supported, whether or not the laws hold.
    proof fn lemma_flip_range(a: Self)
        requires
            a.in_range(),
        ensures
            a.spec_flip().in_range(),
    ;

    fn le(&self, other: &Self) -> (r: bool)
        ensures
            r == self.spec_le(*other),
    ;

    fn flip(&self) -> (r: Self)
        requires
            self.in_range(),
        ensures
            r == self.spec_flip(),
    ;

    fn min_value() -> (r: Self)
        ensures
            r == Self::spec_min(),
            r.in_range(),
    ;

    fn max_value() -> (r: Self)
        ensures
            r == Self::spec_max(),
            r.in_range(),
    ;
}

impl Score for i32 {
    open spec fn in_range(self) -> bool {
        self as int > i32::MIN
    }

    open spec fn spec_le(self, other: Self) -> bool {
        self as int <= other as int
    }

    open spec fn spec_flip(self) -> Self {
        (-(self as int)) as i32
    }

    open spec fn spec_min() -> Self {
        (i32::MIN + 1) as i32
    }

    open spec fn spec_max() -> Self {
        i32::MAX
    }

    open spec fn obeys_laws() -> bool {
        true
    }

    proof fn lemma_laws(a: Self, b: Self, c: Self) {
        assert(a.spec_flip() == -(a as int));
        assert(b.spec_flip() == -(b as int));
    }

    proof fn lemma_sentinels() {
    }

    proof fn lemma_flip_range(a: Self) {
    }

    fn le(&self, other: &Self) -> (r: bool) {
        *self <= *other
    }

    fn flip(&self) -> (r: Self) {
        -*self
    }

    fn min_value() -> (r: Self) {
        i32::MIN + 1
    }

    fn max_value() -> (r: Self) {
        i32::MAX
    }
}

/// Outcome tally of repeated random playouts: wins, draws and losses seen,
/// and the summed final score difference.  Ordered by wins, then draws, then
/// summed score; negating swaps wins with losses and negates the sum.  The
/// order ignores the loss count, so this kind does not claim the pruning
/// laws: two tallies can be order-equivalent without being equal, and
/// negation is not order-reversing across different totals.
#[derive(Debug, Clone, Copy)]
pub struct WinRateScore {
    pub win: u32,
    pub draw: u32,
    pub lose: u32,
    pub score: i32,
}

impl WinRateScore {
    /// The tally of no playouts at all.
    pub fn new() -> (r: WinRateScore)
        ensures
            r.win == 0 && r.draw == 0 && r.lose == 0 && r.score == 0,
    {
        WinRateScore { win: 0, draw: 0, lose: 0, score: 0 }
    }

    /// Record one playout that ended with the given score difference.
    pub fn count(&mut self, score: i32)
        requires
            old(self).win + old(self).draw + old(self).lose < u32::MAX,
            i32::MIN <= old(self).score + score <= i32::MAX,
        ensures
            final(self).win == old(self).win + (if score > 0 { 1int } else { 0int }),
            final(self).draw == old(self).draw + (if score == 0 { 1int } else { 0int }),
            final(self).lose == old(self).lose + (if score < 0 { 1int } else { 0int }),
            final(self).score == old(self).score + score,
    {
        if score > 0 {
            self.win = self.win + 1;
        } else if score == 0 {
            self.draw = self.draw + 1;
        } else {
            self.lose = self.lose + 1;
        }
        self.score = self.score + score;
    }

    /// How many playouts the tally covers.
    pub open spec fn rounds(self) -> int {
        self.win + self.draw + self.lose
    }

    pub open spec fn wins(self) -> int {
        self.win as int
    }

    pub open spec fn draws(self) -> int {
        self.draw as int
    }

    pub open spec fn losses(self) -> int {
        self.lose as int
    }

    pub open spec fn score_sum(self) -> int {
        self.score as int
    }
}

impl Score for WinRateScore {
    open spec fn in_range(self) -> bool {
        self.score as int > i32::MIN
    }

    open spec fn spec_le(self, other: Self) -> bool {
        ||| self.win < other.win
        ||| (self.win == other.win && self.draw < other.draw)
        ||| (self.win == other.win && self.draw == other.draw && self.score as int <= other.score
            as int)
    }

    open spec fn spec_flip(self) -> Self {
        WinRateScore {
            win: self.lose,
            draw: self.draw,
            lose: self.win,
            score: (-(self.score as int)) as i32,
        }
    }

    open spec fn spec_min() -> Self {
        WinRateScore { win: 0, draw: 0, lose: 0, score: (i32::MIN + 1) as i32 }
    }

    open spec fn spec_max() -> Self {
        WinRateScore { win: u32::MAX, draw: u32::MAX, lose: 0, score: (i32::MAX - 1) as i32 }
    }

    open spec fn obeys_laws() -> bool {
        false
    }

    proof fn lemma_laws(a: Self, b: Self, c: Self) {
    }

    proof fn lemma_sentinels() {
    }

    proof fn lemma_flip_range(a: Self) {
    }

    fn le(&self, other: &Self) -> (r: bool) {
        self.win < other.win || (self.win == other.win && (self.draw < other.draw || (self.draw
            == other.draw && self.score <= other.score)))
    }

    fn flip(&self) -> (r: Self) {
        WinRateScore { win: self.lose, draw: self.draw, lose: self.win, score: -self.score }
    }

    fn min_value() -> (r: Self) {
        WinRateScore { win: 0, draw: 0, lose: 0, score: i32::MIN + 1 }
    }

    fn max_value() -> (r: Self) {
        WinRateScore { win: u32::MAX, draw: u32::MAX, lose: 0, score: i32::MAX - 1 }
    }
}

} // verus!
