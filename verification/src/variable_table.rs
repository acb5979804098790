//! Mapping between user-supplied variable names and internal bit indices.
//!
//! Variables in a boolean expression are referred to internally by bit index (so they fit in the `Term` bitmask used by
//! the simplifier). Users, however, name their variables with arbitrary strings. A [`VariableTable`] assigns each
//! distinct name a stable index on first use and restores the original name when serializing the simplified result.
//!
//! The number of distinct variables is bounded by [`MAX_VARIABLES`]; registering more than that is an error.

use vstd::prelude::*;

use crate::quine_mccluskey::MAX_VARIABLES;

verus! {

/// A bidirectional map between variable names and bit indices.
///
/// Indices are assigned densely starting from 0 in the order names are first seen, so [`len`](VariableTable::len) is
/// also one past the largest index in use. The names are kept in index order and never repeat, so the index of a name
/// is its position.
///
/// A lookup searches the names in order, with no separate map from name to index: a table holds at most
/// [`MAX_VARIABLES`] names, and for a `HashMap` keyed by `String` vstd gives no specification from which the index a
/// lookup returns could be proved.
#[derive(Clone, Debug, PartialEq, Eq)]
pub struct VariableTable {
    /// Index -> name.
    names: Vec<String>,
}

impl View for VariableTable {
    type V = Seq<Seq<char>>;

    /// The registered names, in index order.
    closed spec fn view(&self) -> Seq<Seq<char>> {
        self.names@.map_values(|s: String| s@)
    }
}

/// The text of the error returned when a table is full.
pub open spec fn too_many_variables_message() -> Seq<char> {
    "too many distinct variables: at most 32 are supported"@
}

/// What registering `name` in a table holding `names` gives: the table afterwards and the index of the name, or the
/// error message when the name is new and the table is full.
pub open spec fn register(names: Seq<Seq<char>>, name: Seq<char>) -> Result<(Seq<Seq<char>>, nat), Seq<char>> {
    if names.contains(name) {
        Ok((names, names.index_of(name) as nat))
    } else if names.len() >= MAX_VARIABLES {
        Err(too_many_variables_message())
    } else {
        Ok((names.push(name), names.len()))
    }
}

impl VariableTable {
    /// A reachable table: no name is registered twice and at most [`MAX_VARIABLES`] are registered.
    pub open spec fn wf(&self) -> bool {
        &&& self@.no_duplicates()
        &&& self@.len() <= MAX_VARIABLES
    }

    /// Creates an empty table.
    pub fn new() -> (t: Self)
        ensures
            t@ == Seq::<Seq<char>>::empty(),
            t.wf(),
    {
        let t = VariableTable { names: Vec::new() };
        assert(t@ =~= Seq::<Seq<char>>::empty());
        t
    }

    /// Returns the index for `name`, assigning a new one if the name is unseen.
    ///
    /// Indices are stable: the same name always resolves to the same index.
    ///
    /// # Errors
    ///
    /// Returns `Err` when `name` is previously unseen and the table already holds [`MAX_VARIABLES`] distinct names. An
    /// already-known name always succeeds, even once the table is full.
    pub fn index_of(&mut self, name: &str) -> (r: Result<usize, String>)
        requires
            old(self).wf(),
        ensures
            final(self).wf(),
            old(self)@.contains(name@) ==> final(self)@ == old(self)@ && (r matches Ok(i) && i
                < old(self)@.len() && old(self)@[i as int] == name@),
            !old(self)@.contains(name@) && old(self)@.len() < MAX_VARIABLES ==> final(self)@
                == old(self)@.push(name@) && r == Ok::<usize, String>(old(self)@.len() as usize),
            !old(self)@.contains(name@) && old(self)@.len() >= MAX_VARIABLES ==> final(self)@
                == old(self)@ && (r matches Err(e) && e@ == too_many_variables_message()),
            match register(old(self)@, name@) {
                Ok((names, i)) => final(self)@ == names && r == Ok::<usize, String>(i as usize),
                Err(m) => final(self)@ == old(self)@ && (r matches Err(e) && e@ == m),
            },
    {
        let owned: String = name.to_owned();
        let mut i: usize = 0;
        while i < self.names.len()
            invariant
                i <= self.names.len(),
                owned@ == name@,
                forall|j: int| 0 <= j < i ==> self@[j] != name@,
                self@.len() == self.names.len(),
                self@ == old(self)@,
                self.wf(),
            decreases self.names.len() - i,
        {
            if self.names[i] == owned {
                proof {
                    assert(self@[i as int] == name@);
                    assert(self@.contains(name@));
                    let j = self@.index_of(name@);
                    assert(self@[j] == name@);
                    assert(self@.no_duplicates());
                    assert(j == i);
                }
                return Ok(i);
            }
            i += 1;
        }
        proof {
            assert forall|j: int| 0 <= j < self@.len() implies self@[j] != name@ by {}
        }
        if self.names.len() >= MAX_VARIABLES {
            let e: String = "too many distinct variables: at most 32 are supported".to_owned();
            proof {
                reveal_strlit("too many distinct variables: at most 32 are supported");
            }
            return Err(e);
        }
        let index = self.names.len();
        let ghost before = self@;
        self.names.push(owned);
        proof {
            assert(self@ =~= before.push(name@));
            assert(!before.contains(name@));
        }
        Ok(index)
    }

    /// Returns the original name registered for `index`.
    pub fn name_of(&self, index: usize) -> (r: &str)
        requires
            index < self@.len(),
        ensures
            r@ == self@[index as int],
    {
        self.names[index].as_str()
    }

    /// Returns the number of distinct variables registered.
    pub fn len(&self) -> (r: usize)
        ensures
            r == self@.len(),
    {
        self.names.len()
    }

    /// Returns `true` if no variables have been registered.
    pub fn is_empty(&self) -> (r: bool)
        ensures
            r == (self@.len() == 0),
    {
        self.names.len() == 0
    }
}

impl Default for VariableTable {
    fn default() -> (t: Self)
        ensures
            t@ == Seq::<Seq<char>>::empty(),
            t.wf(),
    {
        VariableTable::new()
    }
}

} // verus!
