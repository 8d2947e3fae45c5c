//! Playing many games from one layout and counting who wins, and the
//! layouts worth playing.
use crate::color::{is_race, Color, Winner};
use crate::fische::Fische;
use crate::game::{lemma_plays_none, lemma_plays_step, lemma_rounds_bounded, plays, round_step, start_of, valid_layout, Game};
use vstd::prelude::*;

verus! {

/// The digit of a place holding `n` fish.
pub open spec fn digit(n: nat) -> char {
    if n == 0 {
        '0'
    } else if n == 1 {
        '1'
    } else if n == 2 {
        '2'
    } else if n == 3 {
        '3'
    } else {
        '4'
    }
}

/// The fingerprint of a river: how many fish each place holds, one digit a
/// place. Layouts with the same fingerprint count as one.
pub open spec fn pattern(fl: Seq<Fische>) -> Seq<char> {
    Seq::new(fl.len(), |j: int| digit(fl[j].size()))
}

/// How many of the four positions are `j`.
pub open spec fn occupants(blau: int, gelb: int, rosa: int, orange: int, j: int) -> nat {
    (if blau == j { 1nat } else { 0nat }) + (if gelb == j { 1nat } else { 0nat }) + (if rosa
        == j { 1nat } else { 0nat }) + (if orange == j { 1nat } else { 0nat })
}

/// The fingerprint of the layout with the four colours at these places.
pub open spec fn occupancy(blau: int, gelb: int, rosa: int, orange: int) -> Seq<char> {
    Seq::new(13, |j: int| digit(occupants(blau, gelb, rosa, orange, j)))
}

/// Some layout of `r` has the fingerprint of the layout with the four
/// colours at these places.
pub open spec fn covered(r: Seq<[Fische; 13]>, blau: int, gelb: int, rosa: int, orange: int) -> bool {
    exists|i: int| 0 <= i < r.len() && #[trigger] pattern(r[i]@) == occupancy(blau, gelb, rosa, orange)
}

/// A place of the river where a layout may put a fish.
pub open spec fn inner(j: int) -> bool {
    1 <= j <= 11
}

/// Relies on `String::push`: the character is appended at the end.
#[verifier::external_body]
fn push_char(s: &mut String, c: char)
    ensures
        final(s)@ == old(s)@.push(c),
{
    s.push(c)
}

/// The fingerprint of a river: one digit per place, the number of fish
/// there.
pub fn fisch_pattern(fische: &[Fische; 13]) -> (r: String)
    ensures
        r@ == pattern(fische@),
{
    let mut s = String::new();
    let mut j: usize = 0;
    while j < 13
        invariant
            j <= 13,
            s@ == pattern(fische@.subrange(0, j as int)),
        decreases 13 - j,
    {
        let n = fische[j].count();
        let c = match n {
            0 => '0',
            1 => '1',
            2 => '2',
            3 => '3',
            _ => '4',
        };
        push_char(&mut s, c);
        proof {
            assert(pattern(fische@.subrange(0, j + 1)) =~= pattern(fische@.subrange(0, j as int)).push(c));
        }
        j += 1;
    }
    proof {
        assert(fische@.subrange(0, 13) =~= fische@);
    }
    s
}

/// The river with Blau, Gelb, Rosa and Orange at the places given.
pub fn layout_of(blau: usize, gelb: usize, rosa: usize, orange: usize) -> (r: [Fische; 13])
    requires
        inner(blau as int),
        inner(gelb as int),
        inner(rosa as int),
        inner(orange as int),
    ensures
        valid_layout(r),
        forall|c: Color, j: int|
            0 <= j < 13 ==> (#[trigger] r@[j].holds(c) <==> (c == Color::Blau && j == blau) || (c
                == Color::Gelb && j == gelb) || (c == Color::Rosa && j == rosa) || (c
                == Color::Orange && j == orange)),
        pattern(r@) == occupancy(blau as int, gelb as int, rosa as int, orange as int),
{
    let e = Fische::default();
    let mut fisches = [e, e, e, e, e, e, e, e, e, e, e, e, e];
    let mut f = fisches[blau];
    f.add(Color::Blau);
    fisches[blau] = f;
    let mut f = fisches[gelb];
    f.add(Color::Gelb);
    fisches[gelb] = f;
    let mut f = fisches[rosa];
    f.add(Color::Rosa);
    fisches[rosa] = f;
    let mut f = fisches[orange];
    f.add(Color::Orange);
    fisches[orange] = f;
    proof {
        assert forall|c: Color| is_race(c) implies exists|j: int| 1 <= j <= 11 && #[trigger] fisches[j].holds(c) by {
            match c {
                Color::Blau => assert(fisches[blau as int].holds(c)),
                Color::Gelb => assert(fisches[gelb as int].holds(c)),
                Color::Rosa => assert(fisches[rosa as int].holds(c)),
                _ => assert(fisches[orange as int].holds(c)),
            }
        }
        assert(pattern(fisches@) =~= occupancy(blau as int, gelb as int, rosa as int, orange as int));
    }
    fisches
}

/// Whether one of `pats` equals `p`.
fn contains_pattern(pats: &Vec<String>, p: &String) -> (r: bool)
    ensures
        r == exists|i: int| 0 <= i < pats@.len() && #[trigger] pats@[i]@ == p@,
{
    let mut k: usize = 0;
    while k < pats.len()
        invariant
            k <= pats@.len(),
            forall|i: int| 0 <= i < k ==> #[trigger] pats@[i]@ != p@,
        decreases pats@.len() - k,
    {
        if pats[k] == *p {
            return true;
        }
        k += 1;
    }
    false
}

/// Layouts that put each colour at a place in `1..=11`, one for each
/// fingerprint: every such layout's fingerprint is among them, and no two of
/// them share one. Of layouts with the same fingerprint the first is kept,
/// going through Blau's place, then Gelb's, Rosa's and Orange's.
pub fn distinct_layouts() -> (r: Vec<[Fische; 13]>)
    ensures
        forall|i: int| 0 <= i < r@.len() ==> valid_layout(#[trigger] r@[i]),
        forall|i: int, j: int|
            0 <= i < r@.len() && 0 <= j < r@.len() && i != j ==> pattern(#[trigger] r@[i]@)
                != pattern(#[trigger] r@[j]@),
        forall|b: int, g: int, ro: int, o: int|
            inner(b) && inner(g) && inner(ro) && inner(o) ==> #[trigger] covered(r@, b, g, ro, o),
{
    let mut runs: Vec<[Fische; 13]> = Vec::new();
    let mut pats: Vec<String> = Vec::new();
    let mut blau: usize = 1;
    while blau < 12
        invariant
            1 <= blau <= 12,
            runs@.len() == pats@.len(),
            forall|i: int| 0 <= i < runs@.len() ==> valid_layout(#[trigger] runs@[i]),
            forall|i: int| 0 <= i < runs@.len() ==> #[trigger] pats@[i]@ == pattern(runs@[i]@),
            forall|i: int, j: int|
                0 <= i < pats@.len() && 0 <= j < pats@.len() && i != j ==> #[trigger] pats@[i]@
                    != #[trigger] pats@[j]@,
            forall|b: int, g: int, ro: int, o: int|
                inner(b) && inner(g) && inner(ro) && inner(o) && b < blau ==> #[trigger] covered(
                    runs@, b, g, ro, o),
        decreases 12 - blau,
    {
        let mut gelb: usize = 1;
        while gelb < 12
            invariant
                1 <= blau < 12,
                1 <= gelb <= 12,
                runs@.len() == pats@.len(),
                forall|i: int| 0 <= i < runs@.len() ==> valid_layout(#[trigger] runs@[i]),
                forall|i: int| 0 <= i < runs@.len() ==> #[trigger] pats@[i]@ == pattern(runs@[i]@),
                forall|i: int, j: int|
                    0 <= i < pats@.len() && 0 <= j < pats@.len() && i != j ==> #[trigger] pats@[i]@
                        != #[trigger] pats@[j]@,
                forall|b: int, g: int, ro: int, o: int|
                    inner(b) && inner(g) && inner(ro) && inner(o) && (b < blau || (b == blau && g
                        < gelb)) ==> #[trigger] covered(runs@, b, g, ro, o),
            decreases 12 - gelb,
        {
            let mut rosa: usize = 1;
            while rosa < 12
                invariant
                    1 <= blau < 12,
                    1 <= gelb < 12,
                    1 <= rosa <= 12,
                    runs@.len() == pats@.len(),
                    forall|i: int| 0 <= i < runs@.len() ==> valid_layout(#[trigger] runs@[i]),
                    forall|i: int|
                        0 <= i < runs@.len() ==> #[trigger] pats@[i]@ == pattern(runs@[i]@),
                    forall|i: int, j: int|
                        0 <= i < pats@.len() && 0 <= j < pats@.len() && i != j
                            ==> #[trigger] pats@[i]@ != #[trigger] pats@[j]@,
                    forall|b: int, g: int, ro: int, o: int|
                        inner(b) && inner(g) && inner(ro) && inner(o) && (b < blau || (b == blau
                            && (g < gelb || (g == gelb && ro < rosa)))) ==> #[trigger] covered(
                            runs@, b, g, ro, o),
                decreases 12 - rosa,
            {
                let mut orange: usize = 1;
                while orange < 12
                    invariant
                        1 <= blau < 12,
                        1 <= gelb < 12,
                        1 <= rosa < 12,
                        1 <= orange <= 12,
                        runs@.len() == pats@.len(),
                        forall|i: int| 0 <= i < runs@.len() ==> valid_layout(#[trigger] runs@[i]),
                        forall|i: int|
                            0 <= i < runs@.len() ==> #[trigger] pats@[i]@ == pattern(runs@[i]@),
                        forall|i: int, j: int|
                            0 <= i < pats@.len() && 0 <= j < pats@.len() && i != j
                                ==> #[trigger] pats@[i]@ != #[trigger] pats@[j]@,
                        forall|b: int, g: int, ro: int, o: int|
                            inner(b) && inner(g) && inner(ro) && inner(o) && (b < blau || (b
                                == blau && (g < gelb || (g == gelb && (ro < rosa || (ro == rosa
                                && o < orange)))))) ==> #[trigger] covered(runs@, b, g, ro, o),
                    decreases 12 - orange,
                {
                    let fl = layout_of(blau, gelb, rosa, orange);
                    let p = fisch_pattern(&fl);
                    let ghost old_runs = runs@;
                    if !contains_pattern(&pats, &p) {
                        pats.push(p);
                        runs.push(fl);
                        proof {
                            assert forall|b: int, g: int, ro: int, o: int|
                                covered(old_runs, b, g, ro, o) implies #[trigger] covered(
                                runs@, b, g, ro, o) by {
                                let i = choose|i: int|
                                    0 <= i < old_runs.len() && #[trigger] pattern(old_runs[i]@)
                                        == occupancy(b, g, ro, o);
                                assert(runs@[i] == old_runs[i]);
                            }
                            let n = old_runs.len() as int;
                            assert(runs@[n] == fl);
                            assert(covered(runs@, blau as int, gelb as int, rosa as int, orange as int));
                        }
                    } else {
                        proof {
                            let i = choose|i: int| 0 <= i < pats@.len() && #[trigger] pats@[i]@ == p@;
                            assert(pattern(runs@[i]@) == occupancy(blau as int, gelb as int, rosa as int, orange as int));
                        }
                    }
                    orange += 1;
                }
                rosa += 1;
            }
            gelb += 1;
        }
        blau += 1;
    }
    proof {
        assert forall|i: int, j: int|
            0 <= i < runs@.len() && 0 <= j < runs@.len() && i != j implies pattern(
            #[trigger] runs@[i]@) != pattern(#[trigger] runs@[j]@) by {
            assert(pats@[i]@ != pats@[j]@);
        }
    }
    runs
}

/// Number of games won by `w` among `s`.
pub open spec fn wins(s: Seq<(Winner, u8)>, w: Winner) -> nat
    decreases s.len(),
{
    if s.len() == 0 {
        0
    } else {
        wins(s.drop_last(), w) + (if s.last().0 == w { 1nat } else { 0nat })
    }
}

/// Rounds played, summed over the games among `s` that `w` won.
pub open spec fn rounds(s: Seq<(Winner, u8)>, w: Winner) -> nat
    decreases s.len(),
{
    if s.len() == 0 {
        0
    } else {
        rounds(s.drop_last(), w) + (if s.last().0 == w { s.last().1 as nat } else { 0nat })
    }
}

/// The average rounds of the games `w` won, or 0 if it won none.
pub open spec fn average(s: Seq<(Winner, u8)>, w: Winner) -> nat {
    rounds(s, w) / (if wins(s, w) == 0 { 1nat } else { wins(s, w) })
}

/// A finished game: decided, after between 1 and 56 rounds.
pub open spec fn finished(o: (Winner, u8)) -> bool {
    o.0 != Winner::Undecided && 0 < o.1 <= 56
}

/// `o` is the winner and the number of rounds of a game played from the
/// layout `fluss` to its end.
pub open spec fn played_from(fluss: [Fische; 13], o: (Winner, u8)) -> bool {
    exists|g0: Game, g: Game|
        start_of(g0, fluss) && #[trigger] plays(g0, g, o.1 as nat) && g.winner() == o.0
}

/// How often each side won and how many rounds its wins took on average.
#[derive(Debug, Copy, Clone, PartialEq, Eq, Structural)]
pub struct Tally {
    pub b_win: usize,
    pub b_rounds: usize,
    pub f_win: usize,
    pub f_rounds: usize,
    pub tie: usize,
    pub t_rounds: usize,
}

impl Tally {
    /// This tally counts the games `s`.
    pub open spec fn counts(self, s: Seq<(Winner, u8)>) -> bool {
        &&& self.b_win == wins(s, Winner::Boot)
        &&& self.b_rounds == average(s, Winner::Boot)
        &&& self.f_win == wins(s, Winner::Fisch)
        &&& self.f_rounds == average(s, Winner::Fisch)
        &&& self.tie == wins(s, Winner::Unentschieden)
        &&& self.t_rounds == average(s, Winner::Unentschieden)
    }
}

/// Counts and rounds never exceed the number of games and 255 per game.
proof fn lemma_sums_bounded(s: Seq<(Winner, u8)>, w: Winner)
    ensures
        wins(s, w) <= s.len(),
        rounds(s, w) <= 255 * s.len(),
    decreases s.len(),
{
    if s.len() > 0 {
        lemma_sums_bounded(s.drop_last(), w);
    }
}

/// Where every game took 1 to 56 rounds, a side's wins took at least one
/// round each and at most 56.
proof fn lemma_rounds_range(s: Seq<(Winner, u8)>, w: Winner)
    requires
        forall|i: int| 0 <= i < s.len() ==> finished(#[trigger] s[i]),
    ensures
        wins(s, w) <= rounds(s, w) <= 56 * wins(s, w),
    decreases s.len(),
{
    if s.len() > 0 {
        let t = s.drop_last();
        assert forall|i: int| 0 <= i < t.len() implies finished(#[trigger] t[i]) by {
            assert(t[i] == s[i]);
        }
        lemma_rounds_range(t, w);
        assert(finished(s[s.len() - 1]));
    }
}

/// The average of a side's wins lies between 1 and 56 rounds.
proof fn lemma_average_range(s: Seq<(Winner, u8)>, w: Winner)
    requires
        forall|i: int| 0 <= i < s.len() ==> finished(#[trigger] s[i]),
        wins(s, w) > 0,
    ensures
        1 <= average(s, w) <= 56,
{
    lemma_rounds_range(s, w);
    let n = wins(s, w) as int;
    let t = rounds(s, w) as int;
    assert(1 <= t / n <= 56) by (nonlinear_arith)
        requires
            n > 0,
            n <= t <= 56 * n,
    ;
}

/// Decided games are won by exactly one of the three outcomes.
proof fn lemma_wins_add_up(s: Seq<(Winner, u8)>)
    requires
        forall|i: int| 0 <= i < s.len() ==> (#[trigger] s[i]).0 != Winner::Undecided,
    ensures
        wins(s, Winner::Boot) + wins(s, Winner::Fisch) + wins(s, Winner::Unentschieden) == s.len(),
    decreases s.len(),
{
    if s.len() > 0 {
        let t = s.drop_last();
        assert forall|i: int| 0 <= i < t.len() implies (#[trigger] t[i]).0 != Winner::Undecided by {
            assert(t[i] == s[i]);
        }
        lemma_wins_add_up(t);
        assert(s.last() == s[s.len() - 1]);
    }
}

/// Counts the outcomes of a series of games: wins of each side, and the
/// average rounds of each side's wins (0 where it won none).
pub fn tally(outcomes: &Vec<(Winner, u8)>) -> (r: Tally)
    requires
        outcomes@.len() <= usize::MAX / 256,
    ensures
        r.counts(outcomes@),
{
    let mut t = Tally { b_win: 0, b_rounds: 0, f_win: 0, f_rounds: 0, tie: 0, t_rounds: 0 };
    let mut i: usize = 0;
    while i < outcomes.len()
        invariant
            i <= outcomes@.len(),
            outcomes@.len() <= usize::MAX / 256,
            t.b_win == wins(outcomes@.subrange(0, i as int), Winner::Boot),
            t.b_rounds == rounds(outcomes@.subrange(0, i as int), Winner::Boot),
            t.f_win == wins(outcomes@.subrange(0, i as int), Winner::Fisch),
            t.f_rounds == rounds(outcomes@.subrange(0, i as int), Winner::Fisch),
            t.tie == wins(outcomes@.subrange(0, i as int), Winner::Unentschieden),
            t.t_rounds == rounds(outcomes@.subrange(0, i as int), Winner::Unentschieden),
        decreases outcomes@.len() - i,
    {
        let (w, n) = outcomes[i];
        let ghost pre = outcomes@.subrange(0, i as int);
        let ghost next = outcomes@.subrange(0, i + 1);
        proof {
            assert(next.drop_last() =~= pre);
            lemma_sums_bounded(pre, Winner::Boot);
            lemma_sums_bounded(pre, Winner::Fisch);
            lemma_sums_bounded(pre, Winner::Unentschieden);
        }
        match w {
            Winner::Boot => {
                t.b_win += 1;
                t.b_rounds += n as usize;
            },
            Winner::Fisch => {
                t.f_win += 1;
                t.f_rounds += n as usize;
            },
            Winner::Unentschieden => {
                t.tie += 1;
                t.t_rounds += n as usize;
            },
            Winner::Undecided => {},
        }
        i += 1;
    }
    proof {
        assert(outcomes@.subrange(0, i as int) =~= outcomes@);
    }
    t.b_rounds = t.b_rounds / if t.b_win > 0 { t.b_win } else { 1 };
    t.f_rounds = t.f_rounds / if t.f_win > 0 { t.f_win } else { 1 };
    t.t_rounds = t.t_rounds / if t.tie > 0 { t.tie } else { 1 };
    t
}

/// Plays one game from the layout `fluss` to its end, and returns who won
/// and after how many rounds.
pub fn run_trial(fluss: [Fische; 13]) -> (r: (Winner, u8))
    requires
        valid_layout(fluss),
    ensures
        finished(r),
        played_from(fluss, r),
{
    let mut g = Game::new(fluss);
    let ghost g0 = g;
    proof {
        lemma_rounds_bounded(g);
        lemma_plays_none(g0);
    }
    let first = g.tick();
    proof {
        assert(g0.free_cols.size() == 0 && g0.caught_cols.size() == 0);
        assert(g0.winner() == Winner::Undecided);
        assert(round_step(g0, g));
        lemma_plays_step(g0, g0, g, 0);
    }
    loop
        invariant
            g.inv(),
            g.round > 0,
            first == Winner::Undecided,
            start_of(g0, fluss),
            plays(g0, g, g.round as nat),
        ensures
            g.inv(),
            g.round > 0,
            g.winner() != Winner::Undecided,
            plays(g0, g, g.round as nat),
        decreases g.potential(),
    {
        let ghost before = g;
        proof {
            lemma_rounds_bounded(g);
        }
        if g.tick() != Winner::Undecided {
            break;
        }
        proof {
            lemma_rounds_bounded(g);
            assert(g.potential() < before.potential());
            assert(before.winner() == Winner::Undecided);
            assert(round_step(before, g));
            lemma_plays_step(g0, before, g, before.round as nat);
        }
    }
    let w = g.tick();
    proof {
        lemma_rounds_bounded(g);
        assert(plays(g0, g, g.round as nat) && g.winner() == w);
    }
    (w, g.round)
}

/// Plays `runs` games from the layout `fluss` and counts the outcomes.
pub fn benchmark(fluss: [Fische; 13], runs: usize) -> (r: Tally)
    requires
        valid_layout(fluss),
        runs <= usize::MAX / 256,
    ensures
        exists|s: Seq<(Winner, u8)>|
            {
                &&& s.len() == runs
                &&& forall|i: int| 0 <= i < s.len() ==> finished(#[trigger] s[i])
                &&& forall|i: int| 0 <= i < s.len() ==> played_from(fluss, #[trigger] s[i])
                &&& r.counts(s)
            },
        r.b_win + r.f_win + r.tie == runs,
        r.b_win > 0 ==> 1 <= r.b_rounds <= 56,
        r.f_win > 0 ==> 1 <= r.f_rounds <= 56,
        r.tie > 0 ==> 1 <= r.t_rounds <= 56,
{
    let mut winners: Vec<(Winner, u8)> = Vec::new();
    let mut k: usize = 0;
    while k < runs
        invariant
            k <= runs,
            winners@.len() == k,
            valid_layout(fluss),
            forall|i: int| 0 <= i < winners@.len() ==> finished(#[trigger] winners@[i]),
            forall|i: int| 0 <= i < winners@.len() ==> played_from(fluss, #[trigger] winners@[i]),
        decreases runs - k,
    {
        winners.push(run_trial(fluss));
        k += 1;
    }
    proof {
        lemma_wins_add_up(winners@);
        if wins(winners@, Winner::Boot) > 0 {
            lemma_average_range(winners@, Winner::Boot);
        }
        if wins(winners@, Winner::Fisch) > 0 {
            lemma_average_range(winners@, Winner::Fisch);
        }
        if wins(winners@, Winner::Unentschieden) > 0 {
            lemma_average_range(winners@, Winner::Unentschieden);
        }
    }
    tally(&winners)
}

} // verus!
