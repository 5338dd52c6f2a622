//! The variable store: a mapping from variable name to value, written by
//! assignment lines during parsing and read by macro expansion.  Viewed
//! abstractly as a `Map<Seq<u8>, Seq<u8>>`; a later assignment to the same
//! name replaces the earlier one.

use vstd::prelude::*;

use crate::text::slice_eq;

verus! {

/// The map described by an ordered list of (name, value) entries, a later
/// entry overriding an earlier one with the same name.
pub open spec fn map_of<V>(entries: Seq<(Seq<u8>, V)>) -> Map<Seq<u8>, V>
    decreases entries.len(),
{
    if entries.len() == 0 {
        Map::empty()
    } else {
        map_of(entries.drop_last()).insert(entries.last().0, entries.last().1)
    }
}

#[derive(Debug)]
pub struct VarStore {
    entries: Vec<(Vec<u8>, Vec<u8>)>,
}

/// The entry list of a store, with each side viewed as a byte sequence.
pub open spec fn entries_view(entries: Seq<(Vec<u8>, Vec<u8>)>) -> Seq<(Seq<u8>, Seq<u8>)> {
    Seq::new(entries.len(), |i: int| (entries[i].0@, entries[i].1@))
}

impl View for VarStore {
    type V = Map<Seq<u8>, Seq<u8>>;

    closed spec fn view(&self) -> Map<Seq<u8>, Seq<u8>> {
        map_of(entries_view(self.entries@))
    }
}

impl VarStore {
    /// An empty store.
    pub fn new() -> (r: VarStore)
        ensures
            r@ == Map::<Seq<u8>, Seq<u8>>::empty(),
    {
        let r = VarStore { entries: Vec::new() };
        proof {
            assert(entries_view(r.entries@) =~= Seq::<(Seq<u8>, Seq<u8>)>::empty());
        }
        r
    }

    /// Bind `name` to `value`, replacing any earlier binding.
    pub fn insert(&mut self, name: Vec<u8>, value: Vec<u8>)
        ensures
            final(self)@ == old(self)@.insert(name@, value@),
    {
        let ghost prev = entries_view(self.entries@);
        self.entries.push((name, value));
        proof {
            let cur = entries_view(self.entries@);
            assert(cur.drop_last() =~= prev);
        }
    }

    /// Is `name` bound in the store?
    pub fn contains(&self, name: &[u8]) -> (r: bool)
        ensures
            r == self@.dom().contains(name@),
    {
        self.get(name).is_some()
    }

    /// The value bound to `name`, if any.
    pub fn get(&self, name: &[u8]) -> (r: Option<&Vec<u8>>)
        ensures
            match r {
                Some(v) => self@.dom().contains(name@) && v@ == self@[name@],
                None => !self@.dom().contains(name@),
            },
    {
        let ghost s = entries_view(self.entries@);
        let mut i: usize = self.entries.len();
        proof {
            assert(s.take(s.len() as int) =~= s);
        }
        while i > 0
            invariant
                i <= self.entries@.len(),
                s == entries_view(self.entries@),
                map_of(s).dom().contains(name@) == map_of(s.take(i as int)).dom().contains(name@),
                map_of(s).dom().contains(name@) ==> map_of(s)[name@] == map_of(
                    s.take(i as int),
                )[name@],
            decreases i,
        {
            i = i - 1;
            proof {
                assert(s.take(i + 1 as int).drop_last() =~= s.take(i as int));
                assert(s.take(i + 1 as int).last() == s[i as int]);
            }
            if slice_eq(self.entries[i].0.as_slice(), name) {
                return Some(&self.entries[i].1);
            }
        }
        proof {
            assert(s.take(0) =~= Seq::<(Seq<u8>, Seq<u8>)>::empty());
        }
        None
    }
}

} // verus!
