use vstd::prelude::*;
use crate::text::chars_eq_str;

verus! {

/// The value that a variable has in a list of assignments: the last
/// assignment to that name wins; an unassigned name has none.
pub open spec fn lookup_var(vars: Seq<(Seq<char>, Seq<char>)>, name: Seq<char>) -> Option<Seq<char>>
    decreases vars.len(),
{
    if vars.len() == 0 {
        None
    } else if vars.last().0 == name {
        Some(vars.last().1)
    } else {
        lookup_var(vars.drop_last(), name)
    }
}

/// A snapshot of the shell variables that `$NAME` expands to.
pub struct Variables {
    entries: Vec<(String, String)>,
}

impl View for Variables {
    type V = Seq<(Seq<char>, Seq<char>)>;

    closed spec fn view(&self) -> Seq<(Seq<char>, Seq<char>)> {
        self.entries@.map_values(|e: (String, String)| (e.0@, e.1@))
    }
}

impl Variables {
    /// No variable is set.
    pub fn new() -> (v: Variables)
        ensures
            v@ == Seq::<(Seq<char>, Seq<char>)>::empty(),
    {
        let v = Variables { entries: Vec::new() };
        assert(v@ =~= Seq::<(Seq<char>, Seq<char>)>::empty());
        v
    }

    /// Assigns `value` to `name`; a later assignment hides an earlier one.
    pub fn set(&mut self, name: String, value: String)
        ensures
            final(self)@ == old(self)@.push((name@, value@)),
    {
        let ghost n = name@;
        let ghost v = value@;
        self.entries.push((name, value));
        assert(self@ =~= old(self)@.push((n, v)));
    }

    /// The value of the variable whose name is the given characters.
    pub fn get(&self, name: &Vec<char>) -> (r: Option<&String>)
        ensures
            match r {
                Some(v) => lookup_var(self@, name@) == Some(v@),
                None => lookup_var(self@, name@) is None,
            },
    {
        let mut i: usize = self.entries.len();
        assert(self@.subrange(0, i as int) =~= self@);
        while i > 0
            invariant
                i <= self.entries.len(),
                lookup_var(self@, name@) == lookup_var(self@.subrange(0, i as int), name@),
            decreases i,
        {
            let ghost pre = self@.subrange(0, i as int);
            assert(pre.drop_last() =~= self@.subrange(0, i - 1));
            if chars_eq_str(name, self.entries[i - 1].0.as_str()) {
                return Some(&self.entries[i - 1].1);
            }
            i = i - 1;
        }
        assert(self@.subrange(0, 0) =~= Seq::<(Seq<char>, Seq<char>)>::empty());
        None
    }
}

} // verus!
