//! Case folding of identifiers, and sets of identifiers.

use vstd::prelude::*;

verus! {

/// The lower-case form of an ASCII capital; every other character itself.
pub open spec fn lower_char(c: char) -> char {
    if 'A' <= c && c <= 'Z' {
        ((c as u8) + 32) as char
    } else {
        c
    }
}

/// The text with each ASCII capital replaced by its lower-case form.
pub open spec fn lower_model(text: Seq<char>) -> Seq<char> {
    text.map_values(|c: char| lower_char(c))
}

/// `str::to_ascii_lowercase`: a copy of the text in which the ASCII letters
/// 'A' to 'Z' are replaced by 'a' to 'z' and nothing else changes.
#[verifier::external_body]
pub(crate) fn ascii_lowercase(text: &str) -> (lower: String)
    ensures
        lower@ == lower_model(text@),
{
    text.to_ascii_lowercase()
}

/// A set of identifiers, kept in the order in which they came.
pub struct IdSet {
    pub ids: Vec<String>,
}

impl View for IdSet {
    type V = Set<Seq<char>>;

    open spec fn view(&self) -> Set<Seq<char>> {
        Set::new(
            |id: Seq<char>|
                exists|i: int| 0 <= i < self.ids@.len() && (#[trigger] self.ids@[i])@ == id,
        )
    }
}

impl IdSet {
    /// The empty set.
    pub fn new() -> (set: Self)
        ensures
            set@ == Set::<Seq<char>>::empty(),
    {
        let set = IdSet { ids: Vec::new() };
        assert(set@ =~= Set::<Seq<char>>::empty());
        set
    }

    /// Tells whether the identifier is in the set.
    pub fn contains(&self, id: &String) -> (held: bool)
        ensures
            held == self@.contains(id@),
    {
        let n = self.ids.len();
        let mut i: usize = 0;
        while i < n
            invariant
                n == self.ids@.len(),
                i <= n,
                forall|j: int| 0 <= j < i ==> (#[trigger] self.ids@[j])@ != id@,
            decreases n - i,
        {
            if self.ids[i] == *id {
                return true;
            }
            i = i + 1;
        }
        false
    }

    /// Puts the identifier into the set, and tells whether it was new.
    pub fn insert(&mut self, id: String) -> (fresh: bool)
        ensures
            fresh == !old(self)@.contains(id@),
            final(self)@ == old(self)@.insert(id@),
    {
        if self.contains(&id) {
            assert(self@ =~= self@.insert(id@));
            false
        } else {
            let ghost before = self.ids@;
            let ghost added = id@;
            self.ids.push(id);
            proof {
                assert forall|x: Seq<char>| self@.contains(x) <==> old(self)@.insert(added).contains(
                    x,
                ) by {
                    if self@.contains(x) {
                        let i = choose|i: int| 0 <= i < self.ids@.len() && (#[trigger] self.ids@[i])@ == x;
                        if i < before.len() {
                            assert(before[i]@ == x);
                        }
                    }
                    if old(self)@.contains(x) {
                        let i = choose|i: int| 0 <= i < before.len() && (#[trigger] before[i])@ == x;
                        assert(self.ids@[i]@ == x);
                    }
                    if x == added {
                        assert(self.ids@[before.len() as int]@ == x);
                    }
                }
                assert(self@ =~= old(self)@.insert(added));
            }
            true
        }
    }
}

} // verus!
