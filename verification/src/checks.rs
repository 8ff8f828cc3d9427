//! The checks a whole-stack run makes, and which of them failed.
use vstd::prelude::*;

verus! {

/// Failed checks, in the order they were made.
pub struct Checks {
    pub failed: Vec<String>,
}

impl Checks {
    pub fn new() -> (c: Self)
        ensures
            c.failed@.len() == 0,
    {
        Checks { failed: Vec::new() }
    }

    /// Record whether a check held, keeping the description of one that did not, and pass
    /// the answer on.
    pub fn require(&mut self, held: bool, what: &str) -> (r: bool)
        ensures
            r == held,
            held ==> final(self).failed@ == old(self).failed@,
            !held ==> final(self).failed@.len() == old(self).failed@.len() + 1,
            !held ==> final(self).failed@.drop_last() == old(self).failed@,
            !held ==> final(self).failed@.last()@ == what@,
    {
        if !held {
            self.failed.push(what.to_owned());
            assert(self.failed@.drop_last() =~= old(self).failed@);
        }
        held
    }
}

} // verus!
