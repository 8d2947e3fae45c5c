use fischrennen::{layout_of, Color, Fische, Game, Winner};

fn river(places: &[(usize, Color)]) -> [Fische; 13] {
    let mut fl = [Fische::default(); 13];
    for (j, c) in places {
        fl[*j].add(*c);
    }
    fl
}

fn board(places: &[(usize, Color)], boot_pos: u8) -> Game {
    let mut g = Game::new(layout_of(1, 1, 1, 1));
    g.fluss = river(places);
    g.boot_pos = boot_pos;
    g
}

#[test]
fn default_layout() {
    let g = Game::default();
    assert!(g.fluss[6].has(&Color::Blau));
    assert!(g.fluss[6].has(&Color::Orange));
    assert!(g.fluss[6].has(&Color::Gelb));
    assert!(g.fluss[7].has(&Color::Rosa));
    assert_eq!(g.fluss[6].count() + g.fluss[7].count(), 4);
    assert_eq!(g.fisch_cols.count(), 4);
    assert_eq!(g.free_cols.count(), 0);
    assert_eq!(g.caught_cols.count(), 0);
    assert_eq!(g.boot_pos, 0);
    assert_eq!(g.round, 0);
    assert_eq!(g.last_col, Color::NotRolled);
    assert_eq!(g.check_for_winner(), None);
}

#[test]
fn racing_fish_moves_one_place() {
    let mut g = board(&[(6, Color::Blau), (8, Color::Orange), (9, Color::Gelb), (10, Color::Rosa)], 5);
    g.mv(Color::Blau);
    assert!(!g.fluss[6].has(&Color::Blau));
    assert!(g.fluss[7].has(&Color::Blau));
    assert!(g.fisch_cols.has(&Color::Blau));
    assert_eq!(g.boot_pos, 5);
}

#[test]
fn fish_reaching_the_end_goes_free() {
    let mut g = board(&[(11, Color::Blau), (8, Color::Orange), (9, Color::Gelb), (10, Color::Rosa)], 5);
    g.mv(Color::Blau);
    assert!(!g.fluss[11].has(&Color::Blau));
    assert!(!g.fluss[12].has(&Color::Blau));
    assert!(!g.fisch_cols.has(&Color::Blau));
    assert!(g.free_cols.has(&Color::Blau));
}

#[test]
fn boat_catches_every_fish_at_its_place() {
    let mut g = board(&[(4, Color::Blau), (4, Color::Orange), (9, Color::Gelb), (10, Color::Rosa)], 3);
    g.mv_boot();
    assert_eq!(g.boot_pos, 4);
    assert_eq!(g.fluss[4].count(), 0);
    assert!(g.caught_cols.has(&Color::Blau));
    assert!(g.caught_cols.has(&Color::Orange));
    assert!(!g.fisch_cols.has(&Color::Blau));
    assert!(!g.fisch_cols.has(&Color::Orange));
    assert_eq!(g.caught_cols.count(), 2);
}

#[test]
fn free_colour_moves_the_foremost_fish() {
    let mut g = board(&[(5, Color::Orange), (8, Color::Gelb), (9, Color::Rosa)], 2);
    g.fisch_cols.rm(&Color::Blau);
    g.free_cols.add(Color::Blau);
    g.mv(Color::Blau);
    assert!(g.fluss[6].has(&Color::Orange));
    assert!(g.fluss[8].has(&Color::Gelb));
    assert!(g.fluss[9].has(&Color::Rosa));
}

#[test]
fn free_colour_picks_by_priority_within_a_place() {
    let mut g = board(&[(5, Color::Rosa), (5, Color::Gelb), (9, Color::Orange)], 2);
    g.fisch_cols.rm(&Color::Blau);
    g.free_cols.add(Color::Blau);
    g.mv(Color::Blau);
    assert!(g.fluss[6].has(&Color::Gelb));
    assert!(g.fluss[5].has(&Color::Rosa));
}

#[test]
fn neutral_and_caught_rolls_move_the_boat() {
    let mut g = Game::default();
    g.mv(Color::Rot);
    assert_eq!(g.boot_pos, 1);
    g.mv(Color::Gruen);
    assert_eq!(g.boot_pos, 2);
    let mut h = board(&[(5, Color::Orange), (8, Color::Gelb), (9, Color::Rosa)], 2);
    h.fisch_cols.rm(&Color::Blau);
    h.caught_cols.add(Color::Blau);
    h.mv(Color::Blau);
    assert_eq!(h.boot_pos, 3);
    assert!(h.fluss[5].has(&Color::Orange));
}

#[test]
fn winner_rules() {
    let mut g = Game::default();
    assert_eq!(g.check_for_winner(), None);
    g.free_cols.add(Color::Blau);
    g.free_cols.add(Color::Orange);
    g.caught_cols.add(Color::Gelb);
    g.caught_cols.add(Color::Rosa);
    assert_eq!(g.check_for_winner(), Some(Winner::Unentschieden));
    let mut h = Game::default();
    h.free_cols.add(Color::Blau);
    h.free_cols.add(Color::Orange);
    h.free_cols.add(Color::Gelb);
    assert_eq!(h.check_for_winner(), Some(Winner::Fisch));
    let mut k = Game::default();
    k.caught_cols.add(Color::Blau);
    k.caught_cols.add(Color::Orange);
    k.caught_cols.add(Color::Gelb);
    assert_eq!(k.check_for_winner(), Some(Winner::Boot));
    let mut b = Game::default();
    b.boot_pos = 12;
    assert_eq!(b.check_for_winner(), Some(Winner::Unentschieden));
    b.free_cols.add(Color::Rosa);
    assert_eq!(b.check_for_winner(), Some(Winner::Fisch));
    b.caught_cols.add(Color::Blau);
    b.caught_cols.add(Color::Gelb);
    assert_eq!(b.check_for_winner(), Some(Winner::Boot));
}

#[test]
fn tick_with_plays_counts_and_remembers_the_roll() {
    let mut g = Game::default();
    assert_eq!(g.tick_with(Color::Rosa), Winner::Undecided);
    assert_eq!(g.round, 1);
    assert_eq!(g.last_col, Color::Rosa);
    assert!(g.fluss[8].has(&Color::Rosa));
    assert_eq!(g.tick_with(Color::Gruen), Winner::Undecided);
    assert_eq!(g.round, 2);
    assert_eq!(g.boot_pos, 1);
}

#[test]
fn finished_game_stays_finished() {
    let mut g = Game::default();
    for _ in 0..6 {
        assert_eq!(g.tick_with(Color::Rot), Winner::Undecided);
    }
    assert_eq!(g.boot_pos, 6);
    assert_eq!(g.caught_cols.count(), 3);
    let round = g.round;
    for _ in 0..5 {
        assert_eq!(g.tick(), Winner::Boot);
        assert_eq!(g.tick_with(Color::Blau), Winner::Boot);
    }
    assert_eq!(g.round, round);
    assert_eq!(g.boot_pos, 6);
    assert_eq!(g.caught_cols.count(), 3);
    assert_eq!(g.last_col, Color::Rot);
}

#[test]
fn every_colour_in_one_place_and_boat_moves_forward() {
    for _ in 0..200 {
        let mut g = Game::new(layout_of(3, 7, 11, 1));
        let mut boot = g.boot_pos;
        loop {
            let w = g.tick();
            assert!(g.boot_pos >= boot && g.boot_pos <= 12);
            boot = g.boot_pos;
            for c in [Color::Blau, Color::Orange, Color::Gelb, Color::Rosa] {
                let on_river = (0..13).filter(|j| g.fluss[*j].has(&c)).count();
                assert!(on_river <= 1);
                let places = on_river
                    + usize::from(g.free_cols.has(&c))
                    + usize::from(g.caught_cols.has(&c));
                assert_eq!(places, 1);
                assert_eq!(g.fisch_cols.has(&c), on_river == 1);
            }
            if w != Winner::Undecided {
                break;
            }
            assert!(g.round <= 56);
        }
    }
}
