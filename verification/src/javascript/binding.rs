//! The table through which the guest reaches nodes. A guest object holds a
//! handle, a small number; the table holds, for each handle that was given
//! out, the place of its node in the document, or nothing once the node is
//! gone.

use crate::dom::path_of;
use vstd::prelude::*;

verus! {

/// Whether `path` leads strictly below the node at `above`.
pub open spec fn strictly_below(path: Seq<int>, above: Seq<int>) -> bool {
    above.len() < path.len() && path.take(above.len() as int) == above
}

/// The table's entries after every place strictly below `above` is released.
pub open spec fn released_below(entries: Seq<Option<Seq<int>>>, above: Seq<int>) -> Seq<
    Option<Seq<int>>,
> {
    Seq::new(
        entries.len(),
        |handle: int|
            if entries[handle] is Some && strictly_below(entries[handle].unwrap(), above) {
                None
            } else {
                entries[handle]
            },
    )
}

/// The table of the places that handles stand for.
#[derive(Debug)]
pub struct NodeTable {
    entries: Vec<Option<Vec<usize>>>,
}

impl View for NodeTable {
    type V = Seq<Option<Seq<int>>>;

    /// For each handle given out so far, the place of its node, or nothing
    /// once the handle is released.
    closed spec fn view(&self) -> Seq<Option<Seq<int>>> {
        self.entries@.map_values(
            |entry: Option<Vec<usize>>|
                match entry {
                    Some(path) => Some(path_of(path@)),
                    None => None,
                },
        )
    }
}

/// Tells whether `path` leads strictly below the node at `above`.
fn is_strictly_below(path: &Vec<usize>, above: &Vec<usize>) -> (b: bool)
    ensures
        b == strictly_below(path_of(path@), path_of(above@)),
{
    if above.len() >= path.len() {
        return false;
    }
    let mut i: usize = 0;
    while i < above.len()
        invariant
            i <= above.len() < path.len(),
            forall|j: int| 0 <= j < i ==> path@[j] == above@[j],
        decreases above.len() - i,
    {
        if path[i] != above[i] {
            proof {
                let front = path_of(path@).take(above.len() as int);
                assert(front[i as int] == path@[i as int] as int);
                assert(path_of(above@)[i as int] == above@[i as int] as int);
            }
            return false;
        }
        i += 1;
    }
    assert(path_of(path@).take(above.len() as int) =~= path_of(above@));
    true
}

impl NodeTable {
    /// A table in which no handle was given out yet.
    pub fn new() -> (table: Self)
        ensures
            table@ == Seq::<Option<Seq<int>>>::empty(),
    {
        let table = NodeTable { entries: Vec::new() };
        assert(table@ =~= Seq::<Option<Seq<int>>>::empty());
        table
    }

    /// The number of handles given out so far.
    pub fn len(&self) -> (n: usize)
        ensures
            n == self@.len(),
    {
        self.entries.len()
    }

    /// Gives out a new handle for the node at `path`.
    pub fn bind(&mut self, path: Vec<usize>) -> (handle: usize)
        ensures
            handle == old(self)@.len(),
            final(self)@ == old(self)@.push(Some(path_of(path@))),
    {
        let handle = self.entries.len();
        self.entries.push(Some(path));
        assert(self@ =~= old(self)@.push(Some(path_of(path@))));
        handle
    }

    /// The place that the handle stands for, if the handle was given out
    /// and is not released.
    pub fn resolve(&self, handle: usize) -> (r: Option<&Vec<usize>>)
        ensures
            match r {
                Some(path) => handle < self@.len() && self@[handle as int] == Some(
                    path_of(path@),
                ),
                None => handle >= self@.len() || self@[handle as int] is None,
            },
    {
        if handle >= self.entries.len() {
            return None;
        }
        match &self.entries[handle] {
            Some(path) => Some(path),
            None => None,
        }
    }

    /// Releases every handle whose node stands strictly below the node at
    /// `above`.
    pub fn release_below(&mut self, above: &Vec<usize>)
        ensures
            final(self)@ == released_below(old(self)@, path_of(above@)),
    {
        let ghost before = self@;
        let mut i: usize = 0;
        while i < self.entries.len()
            invariant
                i <= self.entries.len(),
                self@.len() == before.len(),
                forall|h: int| 0 <= h < i ==> self@[h] == released_below(before, path_of(above@))[h],
                forall|h: int| i <= h < before.len() ==> self@[h] == before[h],
            decreases self.entries.len() - i,
        {
            let gone = match &self.entries[i] {
                Some(path) => is_strictly_below(path, above),
                None => false,
            };
            proof {
                assert(gone == (before[i as int] is Some && strictly_below(
                    before[i as int].unwrap(),
                    path_of(above@),
                )));
            }
            let ghost sofar = self@;
            if gone {
                self.entries[i] = None;
            }
            proof {
                let target = released_below(before, path_of(above@));
                assert(self@[i as int] == target[i as int]);
                assert forall|h: int| 0 <= h < i + 1 implies self@[h] == target[h] by {
                    if h < i {
                        assert(self@[h] == sofar[h]);
                    }
                }
                assert forall|h: int| i + 1 <= h < before.len() implies self@[h] == before[h] by {
                    assert(self@[h] == sofar[h]);
                }
            }
            i += 1;
        }
        assert(self@ =~= released_below(before, path_of(above@)));
    }
}

} // verus!
