//! A place on the river, or a pool of colours: a set that holds each racing
//! colour at most once.
use crate::color::{is_race, race_index, Color};
use vstd::prelude::*;
use vstd::std_specs::iter::IteratorSpec;

verus! {

/// One fish token, named by its colour.
#[derive(Debug, Copy, Clone, PartialEq, Eq, Structural)]
pub struct Fisch(pub Color);

/// At most one fish of each racing colour, kept in a cell per colour in the
/// priority order Blau, Orange, Gelb, Rosa.
#[derive(Debug, Copy, Clone)]
pub struct Fische {
    all: [Option<Fisch>; 4],
}

/// The cell of a racing colour: empty, or that colour's fish.
pub open spec fn cell_ok(o: Option<Fisch>, c: Color) -> bool {
    o matches Some(f) ==> f.0 == c
}

/// The cell that holds colour `c` exactly when `present`.
pub open spec fn cell_of(c: Color, present: bool) -> Option<Fisch> {
    if present {
        Some(Fisch(c))
    } else {
        None
    }
}

impl Fische {
    /// Each cell holds nothing or the fish of its own colour.
    #[verifier::type_invariant]
    spec fn cells_ok(self) -> bool {
        &&& self.all@.len() == 4
        &&& cell_ok(self.all[0], Color::Blau)
        &&& cell_ok(self.all[1], Color::Orange)
        &&& cell_ok(self.all[2], Color::Gelb)
        &&& cell_ok(self.all[3], Color::Rosa)
    }

    /// Whether the fish of colour `c` is here. Never true of a neutral face.
    pub closed spec fn holds(self, c: Color) -> bool {
        is_race(c) && self.all[race_index(c)] is Some
    }

    /// Only racing colours are ever held.
    pub broadcast proof fn lemma_holds_race(self, c: Color)
        ensures
            #[trigger] self.holds(c) ==> is_race(c),
    {
    }

    /// Empty means holding no colour at all.
    pub proof fn lemma_empty(self)
        ensures
            self.is_empty() <==> forall|c: Color| !self.holds(c),
    {
        if self.is_empty() {
            assert forall|c: Color| !self.holds(c) by {
                match c {
                    Color::Blau | Color::Orange | Color::Gelb | Color::Rosa => {},
                    _ => {},
                }
            }
        }
    }

    /// The cells in priority order, each as `holds` describes it.
    pub open spec fn cells(self) -> Seq<Option<Fisch>> {
        seq![
            cell_of(Color::Blau, self.holds(Color::Blau)),
            cell_of(Color::Orange, self.holds(Color::Orange)),
            cell_of(Color::Gelb, self.holds(Color::Gelb)),
            cell_of(Color::Rosa, self.holds(Color::Rosa)),
        ]
    }

    /// How many fish are here.
    pub open spec fn size(self) -> nat {
        (if self.holds(Color::Blau) { 1nat } else { 0nat })
            + (if self.holds(Color::Orange) { 1nat } else { 0nat })
            + (if self.holds(Color::Gelb) { 1nat } else { 0nat })
            + (if self.holds(Color::Rosa) { 1nat } else { 0nat })
    }

    /// The first colour here in priority order, if any.
    pub open spec fn first(self) -> Option<Color> {
        if self.holds(Color::Blau) {
            Some(Color::Blau)
        } else if self.holds(Color::Orange) {
            Some(Color::Orange)
        } else if self.holds(Color::Gelb) {
            Some(Color::Gelb)
        } else if self.holds(Color::Rosa) {
            Some(Color::Rosa)
        } else {
            None
        }
    }

    /// Nothing is here.
    pub open spec fn is_empty(self) -> bool {
        self.first() is None
    }

    /// The collection holding exactly the colours of `cols`.
    pub fn fill(cols: Vec<Color>) -> (r: Fische)
        requires
            forall|i: int| 0 <= i < cols@.len() ==> is_race(#[trigger] cols@[i]),
        ensures
            forall|c: Color| r.holds(c) <==> cols@.contains(c),
    {
        let mut fisches = Fische::default();
        let mut k: usize = 0;
        while k < cols.len()
            invariant
                k <= cols@.len(),
                forall|i: int| 0 <= i < cols@.len() ==> is_race(#[trigger] cols@[i]),
                forall|c: Color| fisches.holds(c) <==> cols@.subrange(0, k as int).contains(c),
            decreases cols@.len() - k,
        {
            fisches.add(cols[k]);
            assert(cols@.subrange(0, k + 1) =~= cols@.subrange(0, k as int).push(cols@[k as int]));
            assert forall|c: Color| fisches.holds(c) <==> cols@.subrange(0, k + 1).contains(c) by {
                if cols@.subrange(0, k + 1).contains(c) {
                    let j = choose|j: int| 0 <= j < k + 1 && #[trigger] cols@.subrange(0, k + 1)[j] == c;
                    if j < k {
                        assert(cols@.subrange(0, k as int)[j] == c);
                    }
                }
                if c == cols@[k as int] {
                    assert(cols@.subrange(0, k + 1)[k as int] == c);
                }
            }
            k += 1;
        }
        assert(cols@.subrange(0, cols@.len() as int) =~= cols@);
        fisches
    }

    /// The cell of Blau.
    pub fn get_blau(&self) -> (r: &Option<Fisch>)
        ensures
            *r == self.cells()[0],
    {
        proof {
            use_type_invariant(self);
        }
        &self.all[0]
    }

    /// The cell of Orange.
    pub fn get_orange(&self) -> (r: &Option<Fisch>)
        ensures
            *r == self.cells()[1],
    {
        proof {
            use_type_invariant(self);
        }
        &self.all[1]
    }

    /// The cell of Gelb.
    pub fn get_gelb(&self) -> (r: &Option<Fisch>)
        ensures
            *r == self.cells()[2],
    {
        proof {
            use_type_invariant(self);
        }
        &self.all[2]
    }

    /// The cell of Rosa.
    pub fn get_rosa(&self) -> (r: &Option<Fisch>)
        ensures
            *r == self.cells()[3],
    {
        proof {
            use_type_invariant(self);
        }
        &self.all[3]
    }

    /// How many fish are here.
    pub fn count(&self) -> (r: usize)
        ensures
            r == self.size(),
            r <= 4,
    {
        proof {
            use_type_invariant(self);
        }
        let mut n: usize = 0;
        if self.all[0].is_some() {
            n += 1;
        }
        if self.all[1].is_some() {
            n += 1;
        }
        if self.all[2].is_some() {
            n += 1;
        }
        if self.all[3].is_some() {
            n += 1;
        }
        n
    }

    /// Whether the fish of colour `col` is here. Only a racing colour may
    /// be asked for.
    pub fn has(&self, col: &Color) -> (r: bool)
        requires
            is_race(*col),
        ensures
            r == self.holds(*col),
    {
        match col {
            Color::Blau => self.get_blau(),
            Color::Orange => self.get_orange(),
            Color::Gelb => self.get_gelb(),
            _ => self.get_rosa(),
        }.is_some()
    }

    /// The cells in priority order.
    pub fn iter(&self) -> (r: core::slice::Iter<'_, Option<Fisch>>)
        ensures
            r.remaining().len() == 4,
            forall|i: int| 0 <= i < 4 ==> *#[trigger] r.remaining()[i] == self.cells()[i],
    {
        proof {
            use_type_invariant(self);
            assert(self.all@ =~= self.cells());
        }
        self.all.as_slice().iter()
    }

    /// The cell of the first colour here in priority order, or an empty cell.
    pub fn get_first(&self) -> (r: &Option<Fisch>)
        ensures
            *r == (match self.first() {
                Some(c) => Some(Fisch(c)),
                None => None,
            }),
    {
        proof {
            use_type_invariant(self);
        }
        if self.all[0].is_some() {
            &self.all[0]
        } else if self.all[1].is_some() {
            &self.all[1]
        } else if self.all[2].is_some() {
            &self.all[2]
        } else {
            &self.all[3]
        }
    }

    /// Takes out the first fish in priority order, if there is one.
    pub fn extract_first(&mut self) -> (r: Option<Fisch>)
        ensures
            r == (match old(self).first() {
                Some(c) => Some(Fisch(c)),
                None => None,
            }),
            forall|c: Color| final(self).holds(c) <==> (old(self).holds(c) && Some(c) != old(self).first()),
    {
        let col = match self.get_first() {
            Some(f) => Some(f.0),
            None => None,
        };
        match col {
            Some(col) => {
                self.rm(&col);
                Some(Fisch(col))
            },
            None => None,
        }
    }

    /// Takes the fish of colour `col` out; nothing happens if it is not here.
    pub fn rm(&mut self, col: &Color)
        requires
            is_race(*col),
        ensures
            forall|c: Color| final(self).holds(c) <==> (old(self).holds(c) && c != *col),
    {
        proof {
            use_type_invariant(&*self);
        }
        let i = col.race_slot();
        self.all[i] = None;
    }

    /// Puts the fish of colour `col` here; nothing changes if it already is.
    pub fn add(&mut self, col: Color)
        requires
            is_race(col),
        ensures
            forall|c: Color| final(self).holds(c) <==> (old(self).holds(c) || c == col),
    {
        proof {
            use_type_invariant(&*self);
        }
        let i = col.race_slot();
        self.all[i] = Some(Fisch(col));
    }
}

impl Default for Fische {
    /// An empty collection.
    fn default() -> (r: Fische)
        ensures
            forall|c: Color| !r.holds(c),
            r.size() == 0,
            r.first() is None,
    {
        Fische { all: [None, None, None, None] }
    }
}

} // verus!
