//! The board: thirteen places of river, the boat, the three pools of
//! colours, and the rules that move them.
use crate::color::{d6, face_color, is_race, Color, Winner};
use crate::fische::Fische;
use vstd::prelude::*;

verus! {

broadcast use Fische::lemma_holds_race;

/// Index of the last place of the river, the one next to the ocean.
pub const LAST: usize = 12;

/// A game in progress.
///
/// `fisch_cols` holds the colours still racing, `free_cols` those that
/// reached the ocean and `caught_cols` those the boat has caught.
pub struct Game {
    pub fluss: [Fische; 13],
    pub fisch_cols: Fische,
    pub free_cols: Fische,
    pub caught_cols: Fische,
    pub boot_pos: u8,
    pub last_col: Color,
    pub round: u8,
}

/// The first place at or after `i` that holds colour `c`, or 13 if none does.
pub open spec fn first_at(fl: Seq<Fische>, c: Color, i: int) -> int
    decreases 13 - i,
{
    if i >= 13 || i < 0 {
        13
    } else if fl[i].holds(c) {
        i
    } else {
        first_at(fl, c, i + 1)
    }
}

/// The first colour, in priority order, of the first non-empty place at or
/// after `i`.
pub open spec fn lead_from(fl: Seq<Fische>, i: int) -> Option<Color>
    decreases 13 - i,
{
    if i >= 13 || i < 0 {
        None
    } else if fl[i].first() is Some {
        fl[i].first()
    } else {
        lead_from(fl, i + 1)
    }
}

/// A starting layout: each racing colour at exactly one place in `1..=11`.
pub open spec fn valid_layout(fl: [Fische; 13]) -> bool {
    &&& forall|c: Color| is_race(c) ==> exists|j: int| 1 <= j <= 11 && #[trigger] fl[j].holds(c)
    &&& forall|c: Color, i: int, j: int|
        0 <= i < 13 && 0 <= j < 13 && #[trigger] fl[i].holds(c) && #[trigger] fl[j].holds(c) ==> i == j
    &&& forall|c: Color| !(#[trigger] fl[0].holds(c)) && !fl[12].holds(c)
}

/// The outcome that the pool sizes and the boat position decide.
pub open spec fn outcome(free: nat, caught: nat, boot: int) -> Winner {
    if boot == 12 {
        if free == caught {
            Winner::Unentschieden
        } else if free > caught {
            Winner::Fisch
        } else {
            Winner::Boot
        }
    } else if free >= 3 {
        Winner::Fisch
    } else if caught >= 3 {
        Winner::Boot
    } else if free == 2 && caught == 2 {
        Winner::Unentschieden
    } else {
        Winner::Undecided
    }
}

impl Game {
    /// Whether colour `c` is at place `j` of the river.
    #[verifier::inline]
    pub open spec fn at(self, c: Color, j: int) -> bool {
        self.fluss@[j].holds(c)
    }

    /// The place of colour `c` on the river, or 13 if it is not there.
    pub open spec fn pos(self, c: Color) -> int {
        first_at(self.fluss@, c, 0)
    }

    /// How far colour `c` still has to swim to the last place.
    pub open spec fn dist(self, c: Color) -> int {
        if self.pos(c) < 13 {
            12 - self.pos(c)
        } else {
            0
        }
    }

    /// The moves left at most: the boat's way to the end plus each racing
    /// fish's way to the ocean.
    pub open spec fn potential(self) -> int {
        (12 - self.boot_pos) + self.dist(Color::Blau) + self.dist(Color::Orange)
            + self.dist(Color::Gelb) + self.dist(Color::Rosa)
    }

    /// Each racing colour is in exactly one of the pools, and is on the river
    /// at exactly one place when it is still racing.
    pub open spec fn colors_ok(self) -> bool {
        &&& forall|c: Color, j: int| 0 <= j < 13 ==> (#[trigger] self.at(c, j) <==> j == self.pos(c))
        &&& forall|c: Color| #[trigger] self.fisch_cols.holds(c) <==> self.pos(c) < 13
        &&& forall|c: Color|
            is_race(c) ==> (#[trigger] self.fisch_cols.holds(c) || self.free_cols.holds(c)
                || self.caught_cols.holds(c))
        &&& forall|c: Color|
            !(#[trigger] self.free_cols.holds(c) && self.caught_cols.holds(c))
        &&& forall|c: Color|
            !(#[trigger] self.fisch_cols.holds(c) && self.free_cols.holds(c))
        &&& forall|c: Color|
            !(#[trigger] self.fisch_cols.holds(c) && self.caught_cols.holds(c))
    }

    /// The invariant of every reachable board: the boat is on the river, the
    /// places up to the boat and the last place are empty, the colours are
    /// each in one place, and the rounds played plus the moves left stay
    /// within what a `u8` round counter can hold.
    pub open spec fn inv(self) -> bool {
        &&& self.boot_pos <= 12
        &&& forall|c: Color, j: int| 0 <= j <= self.boot_pos ==> !#[trigger] self.at(c, j)
        &&& forall|c: Color| !#[trigger] self.at(c, 12)
        &&& self.colors_ok()
        &&& self.round + self.potential() <= 56
    }

    /// `next` is this board after the fish of colour `c` swam one place:
    /// from its place `p` to `p + 1`, and into the ocean (the free pool) when
    /// `p + 1` is the last place. A colour not on the river does not move.
    pub open spec fn fish_step(self, next: Game, c: Color) -> bool {
        let p = self.pos(c);
        let escapes = p + 1 == 12;
        &&& next.boot_pos == self.boot_pos
        &&& forall|d: Color| #[trigger] next.caught_cols.holds(d) == self.caught_cols.holds(d)
        &&& if p < 12 {
            &&& forall|d: Color, j: int|
                0 <= j < 13 ==> #[trigger] next.at(d, j) == (if d == c {
                    j == p + 1 && !escapes
                } else {
                    self.at(d, j)
                })
            &&& forall|d: Color|
                #[trigger] next.fisch_cols.holds(d) == (self.fisch_cols.holds(d) && !(d == c
                    && escapes))
            &&& forall|d: Color|
                #[trigger] next.free_cols.holds(d) == (self.free_cols.holds(d) || (d == c
                    && escapes))
        } else {
            &&& forall|d: Color, j: int| 0 <= j < 13 ==> #[trigger] next.at(d, j) == self.at(d, j)
            &&& forall|d: Color| #[trigger] next.fisch_cols.holds(d) == self.fisch_cols.holds(d)
            &&& forall|d: Color| #[trigger] next.free_cols.holds(d) == self.free_cols.holds(d)
        }
    }

    /// `next` is this board after the boat moved one place on and caught
    /// every fish at its new place.
    pub open spec fn boat_step(self, next: Game) -> bool {
        let b = self.boot_pos + 1;
        &&& next.boot_pos == b
        &&& forall|d: Color, j: int|
            0 <= j < 13 ==> #[trigger] next.at(d, j) == (self.at(d, j) && j != b)
        &&& forall|d: Color|
            #[trigger] next.fisch_cols.holds(d) == (self.fisch_cols.holds(d) && !self.at(d, b))
        &&& forall|d: Color|
            #[trigger] next.caught_cols.holds(d) == (self.caught_cols.holds(d) || self.at(d, b))
        &&& forall|d: Color| #[trigger] next.free_cols.holds(d) == self.free_cols.holds(d)
    }

    /// Which fish a roll of `col` moves: the fish of that colour while it
    /// races; for a colour already free, the first fish of the first
    /// non-empty place; `None` where the boat moves instead.
    pub open spec fn mover(self, col: Color) -> Option<Color> {
        if self.fisch_cols.holds(col) {
            Some(col)
        } else if self.free_cols.holds(col) {
            lead_from(self.fluss@, 0)
        } else {
            None
        }
    }

    /// `next` is this board after a roll of `col` was played.
    pub open spec fn step(self, next: Game, col: Color) -> bool {
        match self.mover(col) {
            Some(c) => self.fish_step(next, c),
            None => self.boat_step(next),
        }
    }

    /// The state of the game as `check_for_winner` decides it.
    pub open spec fn winner(self) -> Winner {
        outcome(self.free_cols.size(), self.caught_cols.size(), self.boot_pos as int)
    }
}

impl Game {
    /// A new game on the layout `fluss`: all four colours racing, the boat at
    /// the first place, nothing rolled yet.
    pub fn new(fluss: [Fische; 13]) -> (r: Game)
        requires
            valid_layout(fluss),
        ensures
            r.inv(),
            start_of(r, fluss),
    {
        let g = Game {
            fluss,
            fisch_cols: all_colors(),
            free_cols: Fische::default(),
            caught_cols: Fische::default(),
            boot_pos: 0,
            last_col: Color::NotRolled,
            round: 0,
        };
        proof {
            assert forall|c: Color| #[trigger] g.pos(c) == (if is_race(c) {
                choose|j: int| 1 <= j <= 11 && #[trigger] fluss[j].holds(c)
            } else {
                13
            }) by {
                if is_race(c) {
                    let k = choose|j: int| 1 <= j <= 11 && #[trigger] fluss[j].holds(c);
                    assert forall|j: int| 0 <= j < 13 implies (#[trigger] g.fluss@[j].holds(c) <==> j == k) by {
                        if g.fluss@[j].holds(c) {
                            assert(fluss[j].holds(c) && fluss[k].holds(c));
                        }
                    }
                    lemma_first_at(g.fluss@, c, 0, k);
                } else {
                    lemma_first_at(g.fluss@, c, 0, 13);
                }
            }
        }
        g
    }

    /// Whether the game is over, and who won. The boat at the last place ends
    /// the game, with the larger pool winning; otherwise three free fish, or
    /// three caught, win, and two of each is a tie.
    pub fn check_for_winner(&self) -> (r: Option<Winner>)
        ensures
            r == (if self.winner() == Winner::Undecided {
                None
            } else {
                Some(self.winner())
            }),
    {
        let free = self.free_cols.count();
        let caught = self.caught_cols.count();

        if self.fluss.len() - 1 == self.boot_pos as usize {
            if free == caught {
                Some(Winner::Unentschieden)
            } else if free > caught {
                Some(Winner::Fisch)
            } else {
                Some(Winner::Boot)
            }
        } else if free >= 3 {
            Some(Winner::Fisch)
        } else if caught >= 3 {
            Some(Winner::Boot)
        } else if free == 2 && caught == 2 {
            Some(Winner::Unentschieden)
        } else {
            None
        }
    }
}

impl Game {
    /// Moves the boat one place on and puts every fish at its new place,
    /// in priority order, into the caught pool.
    pub fn mv_boot(&mut self)
        requires
            old(self).inv(),
            old(self).boot_pos < 12,
        ensures
            final(self).inv(),
            old(self).boat_step(*final(self)),
            final(self).round == old(self).round,
            final(self).last_col == old(self).last_col,
            final(self).potential() < old(self).potential(),
    {
        self.boot_pos += 1;

        let index: usize = self.boot_pos as usize;
        let ghost b = index as int;
        let ghost orig = self.fluss[b];
        let ghost before = *self;
        let mut slot = self.fluss[index];

        loop
            invariant
                index == b,
                1 <= b <= 12,
                self.boot_pos == b,
                self.fluss == before.fluss,
                self.free_cols == before.free_cols,
                self.round == before.round,
                self.last_col == before.last_col,
                forall|d: Color| #[trigger] slot.holds(d) ==> orig.holds(d),
                forall|d: Color|
                    #[trigger] self.fisch_cols.holds(d) == (before.fisch_cols.holds(d) && !(
                    orig.holds(d) && !slot.holds(d))),
                forall|d: Color|
                    #[trigger] self.caught_cols.holds(d) == (before.caught_cols.holds(d) || (
                    orig.holds(d) && !slot.holds(d))),
            ensures
                forall|d: Color| !#[trigger] slot.holds(d),
            decreases slot.size(),
        {
            match slot.extract_first() {
                Some(fisch) => {
                    self.fisch_cols.rm(&fisch.0);
                    self.caught_cols.add(fisch.0);
                },
                None => {
                    proof {
                        slot.lemma_empty();
                    }
                    break;
                },
            }
        }
        self.fluss[index] = slot;
        proof {
            let o = *old(self);
            let n = *self;
            assert forall|d: Color, j: int|
                0 <= j < 13 implies #[trigger] n.at(d, j) == (o.at(d, j) && j != b) by {
                if j == b {
                    assert(!slot.holds(d));
                }
            }
            assert forall|d: Color, j: int|
                0 <= j < 13 implies (#[trigger] o.at(d, j) <==> j == o.pos(d)) by {}
            assert forall|d: Color| #[trigger] n.pos(d) == (if o.pos(d) == b {
                13
            } else {
                o.pos(d)
            }) by {
                let k = if o.pos(d) == b {
                    13
                } else {
                    o.pos(d)
                };
                assert(0 <= o.pos(d) <= 13) by {
                    lemma_first_at_range(o.fluss@, d, 0);
                }
                assert forall|j: int| 0 <= j < 13 implies (#[trigger] n.fluss@[j].holds(d) <==> j == k) by {
                    assert(n.at(d, j) == (o.at(d, j) && j != b));
                }
                lemma_first_at(n.fluss@, d, 0, k);
            }
            assert forall|c: Color, j: int| 0 <= j <= n.boot_pos implies !#[trigger] n.at(c, j) by {
                assert(n.at(c, j) == (o.at(c, j) && j != b));
            }
            assert forall|c: Color| !#[trigger] n.at(c, 12) by {
                assert(n.at(c, 12) == (o.at(c, 12) && 12 != b));
            }
            assert forall|c: Color, j: int| 0 <= j < 13 implies (#[trigger] n.at(c, j) <==> j == n.pos(c)) by {
                assert(n.at(c, j) == (o.at(c, j) && j != b));
                assert(o.at(c, j) <==> j == o.pos(c));
            }
            assert forall|c: Color| #[trigger] n.fisch_cols.holds(c) <==> n.pos(c) < 13 by {
                assert(o.at(c, b) <==> b == o.pos(c));
                assert(o.fisch_cols.holds(c) <==> o.pos(c) < 13);
            }
            assert forall|c: Color| is_race(c) implies (#[trigger] n.fisch_cols.holds(c) || n.free_cols.holds(c)
                || n.caught_cols.holds(c)) by {
                assert(o.fisch_cols.holds(c) || o.free_cols.holds(c) || o.caught_cols.holds(c));
                assert(o.at(c, b) <==> b == o.pos(c));
                assert(o.fisch_cols.holds(c) <==> o.pos(c) < 13);
            }
            assert forall|c: Color| !(#[trigger] n.fisch_cols.holds(c) && n.caught_cols.holds(c)) by {
                assert(!(o.fisch_cols.holds(c) && o.caught_cols.holds(c)));
                assert(!(o.free_cols.holds(c) && o.caught_cols.holds(c)));
                assert(o.at(c, b) <==> b == o.pos(c));
            }
            assert forall|c: Color| !(#[trigger] n.free_cols.holds(c) && n.caught_cols.holds(c)) by {
                assert(!(o.fisch_cols.holds(c) && o.free_cols.holds(c)));
                assert(!(o.free_cols.holds(c) && o.caught_cols.holds(c)));
                assert(o.at(c, b) <==> b == o.pos(c));
                assert(o.fisch_cols.holds(c) <==> o.pos(c) < 13);
            }
            assert(n.colors_ok());
        }
    }
}

impl Game {
    /// Moves the fish of colour `col` one place down the river, if it swims
    /// ahead of the boat, and lets a fish that reached the last place out
    /// into the ocean.
    pub fn mv_fisch(&mut self, col: &Color)
        requires
            old(self).inv(),
            is_race(*col),
        ensures
            final(self).inv(),
            old(self).fish_step(*final(self), *col),
            final(self).round == old(self).round,
            final(self).last_col == old(self).last_col,
            old(self).pos(*col) < 13 ==> final(self).potential() < old(self).potential(),
            old(self).pos(*col) == 13 ==> final(self).potential() == old(self).potential(),
    {
        let ghost c = *col;
        let ghost o = *self;
        let ghost p = o.pos(c);
        proof {
            lemma_first_at_range(o.fluss@, c, 0);
            if p < 13 {
                assert(o.at(c, p));
            }
        }
        let start: usize = (self.boot_pos + 1) as usize;

        if start < self.fluss.len() {
            // Only the places ahead of the boat are searched.
            let mut i: usize = start;
            let mut found: Option<usize> = None;
            while i < 13
                invariant_except_break
                    found is None,
                invariant
                    start <= i <= 13,
                    start == o.boot_pos + 1,
                    c == *col,
                    is_race(c),
                    *self == o,
                    o.inv(),
                    forall|k: int| start <= k < i ==> !#[trigger] o.at(c, k),
                ensures
                    found is Some ==> found == Some(i) && i < 13 && o.at(c, i as int),
                    found is None ==> i == 13,
                decreases 13 - i,
            {
                if self.fluss[i].has(col) {
                    found = Some(i);
                    break;
                }
                i += 1;
            }
            proof {
                if found is None {
                    if p < 13 {
                        assert(o.at(c, p));
                        assert(p > o.boot_pos);
                    }
                }
            }

            if let Some(i) = found {
                let mut from = self.fluss[i];
                from.rm(col);
                self.fluss[i] = from;
                let mut to = self.fluss[i + 1];
                to.add(*col);
                self.fluss[i + 1] = to;
            }
        }
        proof {
            if p < 13 {
                assert(o.at(c, p));
                assert(p > o.boot_pos);
                assert(p != 12);
            }
            assert forall|d: Color, j: int| 0 <= j < 13 implies #[trigger] self.at(d, j) == (if d == c && p < 13 {
                j == p + 1
            } else {
                o.at(d, j)
            }) by {
                assert(o.at(d, j) <==> j == o.pos(d));
            }
        }
        let ghost mid = *self;
        let ghost escapes = p < 13 && p + 1 == 12;

        // A fish at the last place swims out to freedom.
        let mut last = self.fluss[LAST];
        let out = last.extract_first();
        self.fluss[LAST] = last;
        proof {
            if escapes {
                assert(mid.fluss@[12].holds(c));
            }
            assert forall|d: Color| mid.fluss@[12].holds(d) <==> (d == c && escapes) by {
                assert(!o.at(d, 12));
                assert(mid.at(d, 12) == (d == c && p < 13 && p + 1 == 12));
            }
        }
        if let Some(fisch) = out {
            self.fisch_cols.rm(&fisch.0);
            self.free_cols.add(fisch.0);
        }
        proof {
            let n = *self;
            let k = if p < 13 && !escapes {
                p + 1
            } else {
                13
            };
            assert(out == (if escapes {
                Some(crate::fische::Fisch(c))
            } else {
                None
            }));
            assert forall|d: Color, j: int| 0 <= j < 13 implies #[trigger] n.at(d, j) == (if d == c && p < 13 {
                j == p + 1 && !escapes
            } else {
                o.at(d, j)
            }) by {
                assert(mid.at(d, j) == (if d == c && p < 13 {
                    j == p + 1
                } else {
                    o.at(d, j)
                }));
                assert(o.at(d, j) <==> j == o.pos(d));
            }
            assert forall|d: Color| #[trigger] n.pos(d) == (if d == c {
                k
            } else {
                o.pos(d)
            }) by {
                let kd = if d == c {
                    k
                } else {
                    o.pos(d)
                };
                lemma_first_at_range(o.fluss@, d, 0);
                assert forall|j: int| 0 <= j < 13 implies (#[trigger] n.fluss@[j].holds(d) <==> j == kd) by {
                    assert(n.at(d, j) == n.fluss@[j].holds(d));
                    assert(o.at(d, j) <==> j == o.pos(d));
                }
                lemma_first_at(n.fluss@, d, 0, kd);
            }
            assert forall|d: Color, j: int| 0 <= j <= n.boot_pos implies !#[trigger] n.at(d, j) by {
                assert(!o.at(d, j));
            }
            assert forall|d: Color| !#[trigger] n.at(d, 12) by {
                assert(!o.at(d, 12));
            }
            assert forall|d: Color, j: int| 0 <= j < 13 implies (#[trigger] n.at(d, j) <==> j == n.pos(d)) by {
                assert(o.at(d, j) <==> j == o.pos(d));
            }
            assert forall|d: Color| #[trigger] n.fisch_cols.holds(d) <==> n.pos(d) < 13 by {
                assert(o.fisch_cols.holds(d) <==> o.pos(d) < 13);
            }
            assert forall|d: Color| is_race(d) implies (#[trigger] n.fisch_cols.holds(d) || n.free_cols.holds(d)
                || n.caught_cols.holds(d)) by {
                assert(o.fisch_cols.holds(d) || o.free_cols.holds(d) || o.caught_cols.holds(d));
            }
            assert forall|d: Color| !(#[trigger] n.fisch_cols.holds(d) && n.caught_cols.holds(d)) by {
                assert(!(o.fisch_cols.holds(d) && o.caught_cols.holds(d)));
            }
            assert forall|d: Color| !(#[trigger] n.free_cols.holds(d) && n.caught_cols.holds(d)) by {
                assert(!(o.free_cols.holds(d) && o.caught_cols.holds(d)));
                assert(o.fisch_cols.holds(d) <==> o.pos(d) < 13);
                assert(!(o.fisch_cols.holds(d) && o.caught_cols.holds(d)));
            }
            assert forall|d: Color| !(#[trigger] n.fisch_cols.holds(d) && n.free_cols.holds(d)) by {
                assert(!(o.fisch_cols.holds(d) && o.free_cols.holds(d)));
                assert(o.fisch_cols.holds(d) <==> o.pos(d) < 13);
            }
            assert(n.colors_ok());
        }
    }
}

impl Game {
    /// Plays a roll of `col`: the racing fish of that colour swims; a colour
    /// already free lets the foremost fish swim instead; otherwise (a caught
    /// colour, a neutral face, or no fish left on the river) the boat moves.
    pub fn mv(&mut self, col: Color)
        requires
            old(self).inv(),
            old(self).winner() == Winner::Undecided,
        ensures
            final(self).inv(),
            old(self).step(*final(self), col),
            final(self).potential() < old(self).potential(),
            final(self).round == old(self).round,
            final(self).last_col == old(self).last_col,
    {
        if !col.is_fish() {
            // A neutral face moves the boat.
            self.mv_boot();
        } else if self.fisch_cols.has(&col) {
            proof {
                assert(self.fisch_cols.holds(col) <==> self.pos(col) < 13);
            }
            self.mv_fisch(&col);
        } else if self.free_cols.has(&col) {
            // The foremost fish swims in place of the free one.
            let mut j: usize = 0;
            let mut lead: Option<Color> = None;
            while j < 13
                invariant_except_break
                    lead is None,
                invariant
                    j <= 13,
                    lead_from(self.fluss@, 0) == lead_from(self.fluss@, j as int),
                ensures
                    lead == lead_from(self.fluss@, 0),
                decreases 13 - j,
            {
                match self.fluss[j].get_first() {
                    Some(f) => {
                        lead = Some(f.0);
                        break;
                    },
                    None => {},
                }
                j += 1;
            }
            match lead {
                Some(c) => {
                    proof {
                        lemma_lead_from(self.fluss@, 0);
                        let k = choose|k: int| 0 <= k < 13 && #[trigger] self.fluss@[k].holds(c);
                        assert(self.at(c, k));
                    }
                    self.mv_fisch(&c);
                },
                None => {
                    self.mv_boot();
                },
            }
        } else {
            self.mv_boot();
        }
    }

    /// Plays one round with the roll `col`: a finished game is returned as
    /// it is, untouched; otherwise the roll is played, remembered and
    /// counted, and the game is still undecided.
    pub fn tick_with(&mut self, col: Color) -> (r: Winner)
        requires
            old(self).inv(),
        ensures
            final(self).inv(),
            old(self).winner() != Winner::Undecided ==> r == old(self).winner() && *final(self)
                == *old(self),
            old(self).winner() == Winner::Undecided ==> {
                &&& r == Winner::Undecided
                &&& old(self).step(*final(self), col)
                &&& final(self).last_col == col
                &&& final(self).round == old(self).round + 1
                &&& final(self).potential() < old(self).potential()
            },
    {
        if let Some(winner) = self.check_for_winner() {
            winner
        } else {
            self.mv(col);
            let ghost moved = *self;
            proof {
                lemma_rounds_bounded(moved);
            }
            self.last_col = col;
            self.round += 1;
            Winner::Undecided
        }
    }

    /// Plays one round with a roll of the die; see `tick_with`.
    pub fn tick(&mut self) -> (r: Winner)
        requires
            old(self).inv(),
        ensures
            final(self).inv(),
            old(self).winner() != Winner::Undecided ==> r == old(self).winner() && *final(self)
                == *old(self),
            old(self).winner() == Winner::Undecided ==> {
                &&& r == Winner::Undecided
                &&& round_step(*old(self), *final(self))
                &&& final(self).potential() < old(self).potential()
            },
            old(self).boot_pos <= final(self).boot_pos <= 12,
    {
        if let Some(winner) = self.check_for_winner() {
            winner
        } else {
            let col = d6();
            self.tick_with(col)
        }
    }
}

/// `lead_from` names a fish that is on the river.
pub proof fn lemma_lead_from(fl: Seq<Fische>, i: int)
    requires
        0 <= i <= 13,
    ensures
        lead_from(fl, i) matches Some(c) ==> is_race(c) && exists|k: int|
            i <= k < 13 && #[trigger] fl[k].holds(c),
    decreases 13 - i,
{
    if i < 13 {
        lemma_lead_from(fl, i + 1);
        if fl[i].first() is Some {
            let c = fl[i].first().unwrap();
            assert(fl[i].holds(c));
        }
    }
}

/// On a board that keeps the invariant the moves left are never negative,
/// and the rounds played plus the moves left never exceed 56. As every
/// undecided `tick` adds a round and uses up at least one move, a game
/// from a valid layout ends within 56 rounds.
pub proof fn lemma_rounds_bounded(g: Game)
    requires
        g.inv(),
    ensures
        0 <= g.potential() <= 56,
        g.round <= 56,
{
    let cs = seq![Color::Blau, Color::Orange, Color::Gelb, Color::Rosa];
    assert forall|i: int| 0 <= i < 4 implies 0 <= g.dist(#[trigger] cs[i]) <= 12 by {
        lemma_first_at_range(g.fluss@, cs[i], 0);
    }
    assert(0 <= g.dist(cs[0]) && 0 <= g.dist(cs[1]) && 0 <= g.dist(cs[2]) && 0 <= g.dist(cs[3]));
}

/// Each racing colour is in exactly one place: on the river, at exactly one
/// place and in the racing pool; or in the free pool; or in the caught pool.
pub proof fn lemma_one_location(g: Game, c: Color)
    requires
        g.inv(),
        is_race(c),
    ensures
        (if g.pos(c) < 13 { 1int } else { 0 }) + (if g.free_cols.holds(c) { 1int } else { 0 })
            + (if g.caught_cols.holds(c) { 1int } else { 0 }) == 1,
        forall|i: int, j: int| 0 <= i < 13 && 0 <= j < 13 && g.at(c, i) && g.at(c, j) ==> i == j,
        g.fisch_cols.holds(c) <==> exists|j: int| 0 <= j < 13 && g.at(c, j),
{
    lemma_first_at_range(g.fluss@, c, 0);
    if g.pos(c) < 13 {
        assert(g.at(c, g.pos(c)));
    }
    assert(g.fisch_cols.holds(c) || g.free_cols.holds(c) || g.caught_cols.holds(c));
}

impl Default for Game {
    /// The usual start: Blau, Gelb and Orange at place 6, Rosa at place 7.
    fn default() -> (r: Game)
        ensures
            r.inv(),
            r.boot_pos == 0,
            r.round == 0,
            r.last_col == Color::NotRolled,
            forall|c: Color| r.fisch_cols.holds(c) <==> is_race(c),
            forall|c: Color| !r.free_cols.holds(c) && !r.caught_cols.holds(c),
            forall|c: Color, j: int|
                0 <= j < 13 ==> (#[trigger] r.at(c, j) <==> (j == 6 && (c == Color::Blau || c
                    == Color::Gelb || c == Color::Orange)) || (j == 7 && c == Color::Rosa)),
    {
        let e = Fische::default();
        let six_cols = vec![Color::Blau, Color::Gelb, Color::Orange];
        let seven_cols = vec![Color::Rosa];
        proof {
            assert(six_cols@[0] == Color::Blau && six_cols@[1] == Color::Gelb && six_cols@[2] == Color::Orange);
            assert(seven_cols@[0] == Color::Rosa);
        }
        let six = Fische::fill(six_cols);
        let seven = Fische::fill(seven_cols);
        let fluss = [e, e, e, e, e, e, six, seven, e, e, e, e, e];
        proof {
            assert(forall|c: Color, j: int|
                0 <= j < 13 ==> (#[trigger] fluss@[j].holds(c) <==> (j == 6 && (c == Color::Blau
                    || c == Color::Gelb || c == Color::Orange)) || (j == 7 && c == Color::Rosa)));
            assert forall|c: Color| is_race(c) implies exists|j: int| 1 <= j <= 11 && #[trigger] fluss[j].holds(c) by {
                if c == Color::Rosa {
                    assert(fluss[7].holds(c));
                } else {
                    assert(fluss[6].holds(c));
                }
            }
        }
        Game::new(fluss)
    }
}

/// A pool holding all four racing colours.
fn all_colors() -> (r: Fische)
    ensures
        forall|c: Color| r.holds(c) <==> is_race(c),
{
    let cols = vec![Color::Blau, Color::Orange, Color::Gelb, Color::Rosa];
    proof {
        assert forall|c: Color| is_race(c) implies cols@.contains(c) by {
            match c {
                Color::Blau => assert(cols@[0] == c),
                Color::Orange => assert(cols@[1] == c),
                Color::Gelb => assert(cols@[2] == c),
                _ => assert(cols@[3] == c),
            }
        }
    }
    Fische::fill(cols)
}

/// `next` follows `g` by one round of play: `g` was undecided, a face of
/// the die was rolled, and its roll was played, remembered and counted.
pub open spec fn round_step(g: Game, next: Game) -> bool {
    exists|k: int|
        0 <= k <= 5 && g.winner() == Winner::Undecided && #[trigger] g.step(next, face_color(k))
            && next.last_col == face_color(k) && next.round == g.round + 1
}

/// The boards of a game, round after round: each follows the one before by
/// a round of play.
pub open spec fn is_play(gs: Seq<Game>) -> bool {
    forall|i: int| 0 <= i < gs.len() - 1 ==> round_step(#[trigger] gs[i], gs[i + 1])
}

/// `g` is reached from `start` by `n` rounds of play.
pub open spec fn plays(start: Game, g: Game, n: nat) -> bool {
    exists|gs: Seq<Game>|
        #[trigger] is_play(gs) && gs.len() == n + 1 && gs[0] == start && gs[n as int] == g
}

/// A game of no rounds.
pub proof fn lemma_plays_none(start: Game)
    ensures
        plays(start, start, 0),
{
    let gs = seq![start];
    assert(is_play(gs));
}

/// One more round of play extends a game played from `start`.
pub proof fn lemma_plays_step(start: Game, mid: Game, g: Game, n: nat)
    requires
        plays(start, mid, n),
        round_step(mid, g),
    ensures
        plays(start, g, n + 1),
{
    let gs = choose|gs: Seq<Game>|
        #[trigger] is_play(gs) && gs.len() == n + 1 && gs[0] == start && gs[n as int] == mid;
    let hs = gs.push(g);
    assert forall|i: int| 0 <= i < hs.len() - 1 implies round_step(#[trigger] hs[i], hs[i + 1]) by {
        if i < n {
            assert(hs[i] == gs[i] && hs[i + 1] == gs[i + 1]);
            assert(round_step(gs[i], gs[i + 1]));
        }
    }
    assert(is_play(hs));
}

/// `g` is the board that `Game::new(fluss)` makes: all four colours racing
/// from `fluss`, both pools empty, the boat at the first place, no round
/// played and nothing rolled.
pub open spec fn start_of(g: Game, fluss: [Fische; 13]) -> bool {
    &&& g.fluss == fluss
    &&& g.boot_pos == 0
    &&& g.round == 0
    &&& g.last_col == Color::NotRolled
    &&& forall|c: Color| #[trigger] g.fisch_cols.holds(c) <==> is_race(c)
    &&& forall|c: Color| !(#[trigger] g.free_cols.holds(c)) && !g.caught_cols.holds(c)
}

/// `first_at` is a place, or 13.
pub proof fn lemma_first_at_range(fl: Seq<Fische>, c: Color, s: int)
    requires
        0 <= s <= 13,
    ensures
        s <= first_at(fl, c, s) <= 13,
    decreases 13 - s,
{
    if s < 13 {
        lemma_first_at_range(fl, c, s + 1);
    }
}

/// `first_at` finds place `k` when `c` is at `k` and at no other place from
/// `s` on.
pub proof fn lemma_first_at(fl: Seq<Fische>, c: Color, s: int, k: int)
    requires
        0 <= s <= k <= 13,
        forall|j: int| s <= j < 13 ==> (#[trigger] fl[j].holds(c) <==> j == k),
    ensures
        first_at(fl, c, s) == k,
    decreases 13 - s,
{
    if s < 13 && s != k {
        lemma_first_at(fl, c, s + 1, k);
    }
}

} // verus!
