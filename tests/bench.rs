use fischrennen::{
    benchmark, d6, distinct_layouts, fisch_pattern, layout_of, run_trial, tally, Color, Game,
    Winner,
};

#[test]
fn pattern_of_default_layout() {
    let g = Game::default();
    assert_eq!(fisch_pattern(&g.fluss), "0000003100000");
    assert_eq!(fisch_pattern(&layout_of(1, 2, 2, 11)), "0120000000010");
}

#[test]
fn distinct_layouts_one_per_fingerprint() {
    let runs = distinct_layouts();
    assert_eq!(runs.len(), 1001);
    let mut pats: Vec<String> = runs.iter().map(fisch_pattern).collect();
    pats.sort();
    pats.dedup();
    assert_eq!(pats.len(), 1001);
    assert_eq!(fisch_pattern(&runs[0]), "0400000000000");
}

#[test]
fn tally_counts_and_averages() {
    let outcomes = vec![
        (Winner::Boot, 10),
        (Winner::Fisch, 20),
        (Winner::Boot, 15),
        (Winner::Fisch, 31),
        (Winner::Fisch, 30),
    ];
    let t = tally(&outcomes);
    assert_eq!(t.b_win, 2);
    assert_eq!(t.b_rounds, 12);
    assert_eq!(t.f_win, 3);
    assert_eq!(t.f_rounds, 27);
    assert_eq!(t.tie, 0);
    assert_eq!(t.t_rounds, 0);
}

#[test]
fn trials_end_after_some_rounds() {
    for _ in 0..1000 {
        let (w, r) = run_trial(layout_of(6, 6, 7, 6));
        assert!(w != Winner::Undecided);
        assert!(r > 0 && r <= 56);
    }
}

#[test]
fn sweep_of_default_layout_adds_up() {
    let runs = 100_000;
    let t = benchmark(Game::default().fluss, runs);
    assert_eq!(t.b_win + t.f_win + t.tie, runs);
    let pct = (t.b_win as f64 + t.f_win as f64 + t.tie as f64) / runs as f64 * 100.0;
    assert!((pct - 100.0).abs() < 1e-9);
    assert!(t.b_win == 0 || (1..=56).contains(&t.b_rounds));
    assert!(t.f_win == 0 || (1..=56).contains(&t.f_rounds));
    assert!(t.tie == 0 || (1..=56).contains(&t.t_rounds));
}

#[test]
fn die_shows_all_six_faces() {
    let mut seen = [false; 6];
    for _ in 0..10_000 {
        let i = match d6() {
            Color::Blau => 0,
            Color::Orange => 1,
            Color::Gelb => 2,
            Color::Rosa => 3,
            Color::Rot => 4,
            Color::Gruen => 5,
            Color::NotRolled => panic!("the die showed no face"),
        };
        seen[i] = true;
    }
    assert!(seen.iter().all(|s| *s));
}

#[test]
fn faces_map_to_colours() {
    assert_eq!(Color::from_face(0), Color::Blau);
    assert_eq!(Color::from_face(3), Color::Rosa);
    assert_eq!(Color::from_face(4), Color::Rot);
    assert_eq!(Color::from_face(5), Color::Gruen);
}
