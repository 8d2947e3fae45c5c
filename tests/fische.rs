use fischrennen::{Color, Fisch, Fische};

#[test]
fn empty_holds_nothing() {
    let f = Fische::default();
    for c in [Color::Blau, Color::Orange, Color::Gelb, Color::Rosa] {
        assert!(!f.has(&c));
    }
    assert_eq!(f.count(), 0);
    assert_eq!(*f.get_first(), None);
}

#[test]
fn fill_holds_given_colors() {
    let f = Fische::fill(vec![Color::Gelb, Color::Blau]);
    assert!(f.has(&Color::Blau));
    assert!(!f.has(&Color::Orange));
    assert!(f.has(&Color::Gelb));
    assert!(!f.has(&Color::Rosa));
    assert_eq!(f.count(), 2);
}

#[test]
fn only_the_four_colours_race() {
    let f = Fische::fill(vec![Color::Blau, Color::Orange, Color::Gelb, Color::Rosa]);
    for c in [Color::Blau, Color::Orange, Color::Gelb, Color::Rosa] {
        assert!(c.is_fish());
        assert!(f.has(&c));
    }
    for c in [Color::Rot, Color::Gruen, Color::NotRolled] {
        assert!(!c.is_fish());
    }
    assert_eq!(f.count(), 4);
}

#[test]
fn add_is_idempotent_and_rm_of_absent_is_noop() {
    let mut f = Fische::default();
    f.add(Color::Rosa);
    f.add(Color::Rosa);
    assert_eq!(f.count(), 1);
    f.rm(&Color::Blau);
    assert_eq!(f.count(), 1);
    f.rm(&Color::Rosa);
    assert_eq!(f.count(), 0);
}

#[test]
fn first_goes_by_priority_not_insertion() {
    let mut f = Fische::default();
    f.add(Color::Rosa);
    f.add(Color::Orange);
    f.add(Color::Gelb);
    assert_eq!(*f.get_first(), Some(Fisch(Color::Orange)));
    assert_eq!(f.extract_first(), Some(Fisch(Color::Orange)));
    assert_eq!(f.extract_first(), Some(Fisch(Color::Gelb)));
    assert_eq!(f.extract_first(), Some(Fisch(Color::Rosa)));
    assert_eq!(f.extract_first(), None);
    assert_eq!(f.count(), 0);
}

#[test]
fn getters_and_iter_show_cells_in_order() {
    let f = Fische::fill(vec![Color::Blau, Color::Rosa]);
    assert_eq!(*f.get_blau(), Some(Fisch(Color::Blau)));
    assert_eq!(*f.get_orange(), None);
    assert_eq!(*f.get_gelb(), None);
    assert_eq!(*f.get_rosa(), Some(Fisch(Color::Rosa)));
    let cells: Vec<Option<Fisch>> = f.iter().copied().collect();
    assert_eq!(cells, vec![Some(Fisch(Color::Blau)), None, None, Some(Fisch(Color::Rosa))]);
}
