//! The version map: the latest version issued for each core identifier.

use crate::identifier::{CoreIdentifier, CoreIdentifierView};
use crate::model::{duplicate_all, views, Modelled};
use crate::table::{lemma_table_at, lemma_table_push, lemma_table_update, place, position, table};
use vstd::prelude::*;

verus! {

/// Mathematical model of a version map.
pub type VersionsView = Map<CoreIdentifierView, usize>;

/// The version that the next definition of `k` gets: 0 for a name that has
/// none yet, else one more than its latest. `None` where the latest version
/// is the largest that the machine can hold.
pub open spec fn next_version(m: VersionsView, k: CoreIdentifierView) -> Option<usize> {
    if !m.contains_key(k) {
        Some(0)
    } else if m[k] < usize::MAX {
        Some((m[k] + 1) as usize)
    } else {
        None
    }
}

/// The version at which `k` is read: its latest, or 0 where it has none.
pub open spec fn read_version(m: VersionsView, k: CoreIdentifierView) -> usize {
    if m.contains_key(k) {
        m[k]
    } else {
        0
    }
}

/// Whether every version of the map can be raised by `by`.
pub open spec fn can_shift(m: VersionsView, by: usize) -> bool {
    forall|k: CoreIdentifierView| m.contains_key(k) ==> #[trigger] m[k] + by <= usize::MAX
}

/// The map with every version raised by `by`.
pub open spec fn shifted(m: VersionsView, by: usize) -> VersionsView {
    Map::new(|k: CoreIdentifierView| m.contains_key(k), |k: CoreIdentifierView| (m[k] + by) as usize)
}

/// The latest version issued for each core identifier. Versions only grow.
#[derive(Debug)]
pub struct Versions {
    ids: Vec<CoreIdentifier>,
    versions: Vec<usize>,
}

impl View for Versions {
    type V = VersionsView;

    closed spec fn view(&self) -> VersionsView {
        table(views(self.ids@), self.versions@)
    }
}

impl Versions {
    #[verifier::type_invariant]
    spec fn well_formed(&self) -> bool {
        &&& self.ids@.len() <= self.versions@.len()
        &&& views(self.ids@).no_duplicates()
    }

    /// The identifiers of the map, each once, in the order in which they
    /// were first issued.
    pub closed spec fn keys(&self) -> Seq<CoreIdentifierView> {
        views(self.ids@)
    }

    /// An empty map.
    pub fn new() -> (r: Versions)
        ensures
            r@ == Map::<CoreIdentifierView, usize>::empty(),
            r.keys() == Seq::<CoreIdentifierView>::empty(),
    {
        let r = Versions { ids: Vec::new(), versions: Vec::new() };
        assert(r@ =~= Map::<CoreIdentifierView, usize>::empty());
        assert(r.keys() =~= Seq::<CoreIdentifierView>::empty());
        r
    }

    /// The number of identifiers in the map. They are pairwise different,
    /// and they are the domain of the map.
    pub fn len(&self) -> (n: usize)
        ensures
            n == self.keys().len(),
            self.keys().no_duplicates(),
            forall|k: CoreIdentifierView| self@.contains_key(k) <==> self.keys().contains(k),
    {
        proof {
            use_type_invariant(self);
        }
        self.ids.len()
    }

    /// The identifier at a position of `keys`.
    pub fn key(&self, i: usize) -> (r: &CoreIdentifier)
        requires
            i < self.keys().len(),
        ensures
            r@ == self.keys()[i as int],
            self@.contains_key(r@),
    {
        proof {
            use_type_invariant(self);
            lemma_table_at(views(self.ids@), self.versions@, i as int);
        }
        &self.ids[i]
    }

    /// The latest version issued for an identifier, if it has one.
    pub fn current(&self, id: &CoreIdentifier) -> (r: Option<usize>)
        ensures
            r == (if self@.contains_key(id@) {
                Some(self@[id@])
            } else {
                None
            }),
    {
        proof {
            use_type_invariant(self);
        }
        match position(&self.ids, id) {
            Some(i) => {
                proof {
                    lemma_table_at(views(self.ids@), self.versions@, i as int);
                }
                Some(self.versions[i])
            },
            None => None,
        }
    }

    /// Issues the next version of an identifier and records it. Where the
    /// identifier is at the largest version already, nothing changes.
    pub fn fresh(&mut self, id: &CoreIdentifier) -> (r: Option<usize>)
        ensures
            r == next_version(old(self)@, id@),
            final(self)@ == (match r {
                Some(v) => old(self)@.insert(id@, v),
                None => old(self)@,
            }),
            r is Some && old(self)@.contains_key(id@) ==> r->0 > old(self)@[id@],
    {
        proof {
            use_type_invariant(&*self);
        }
        let ghost keys = views(self.ids@);
        let ghost values = self.versions@;
        match position(&self.ids, id) {
            Some(i) => {
                proof {
                    lemma_table_at(keys, values, i as int);
                    lemma_table_update(keys, values, i as int, (values[i as int] + 1) as usize);
                }
                let v = self.versions[i];
                if v == usize::MAX {
                    return None;
                }
                self.versions[i] = v + 1;
                Some(v + 1)
            },
            None => {
                let key = id.duplicate();
                let mut ids: Vec<CoreIdentifier> = Vec::new();
                let mut versions: Vec<usize> = Vec::new();
                core::mem::swap(&mut self.ids, &mut ids);
                core::mem::swap(&mut self.versions, &mut versions);
                versions.truncate(ids.len());
                proof {
                    assert(table(keys, versions@) =~= table(keys, values)) by {
                        assert forall|k: CoreIdentifierView| keys.contains(k) implies versions@[place(
                            keys,
                            k,
                        )] == values[place(keys, k)] by {
                            lemma_table_at(keys, values, place(keys, k));
                        }
                    }
                    lemma_table_push(keys, versions@, id@, 0usize);
                }
                versions.push(0);
                ids.push(key);
                assert(views(ids@) =~= keys.push(id@));
                core::mem::swap(&mut self.versions, &mut versions);
                core::mem::swap(&mut self.ids, &mut ids);
                Some(0)
            },
        }
    }

    /// Raises every version by `by`. Where one of them cannot be raised,
    /// nothing changes and the result is `false`.
    pub fn shift(&mut self, by: usize) -> (r: bool)
        ensures
            r == can_shift(old(self)@, by),
            final(self)@ == (if r {
                shifted(old(self)@, by)
            } else {
                old(self)@
            }),
            final(self).keys() == old(self).keys(),
    {
        proof {
            use_type_invariant(&*self);
        }
        let ghost keys = views(self.ids@);
        let ghost values = self.versions@;
        let n = self.ids.len();
        let mut i: usize = 0;
        while i < n
            invariant
                i <= n,
                n == self.ids@.len(),
                n <= self.versions@.len(),
                keys == views(self.ids@),
                keys.no_duplicates(),
                values == self.versions@,
                *self == *old(self),
                forall|j: int| 0 <= j < i ==> #[trigger] self.versions@[j] + by <= usize::MAX,
            decreases n - i,
        {
            if self.versions[i] > usize::MAX - by {
                proof {
                    lemma_table_at(keys, values, i as int);
                }
                return false;
            }
            i += 1;
        }
        proof {
            assert forall|k: CoreIdentifierView| table(keys, values).contains_key(k) implies #[trigger]
                table(keys, values)[k] + by <= usize::MAX by {
                lemma_table_at(keys, values, place(keys, k));
            }
        }
        let mut i: usize = 0;
        while i < n
            invariant
                i <= n,
                n == self.ids@.len(),
                views(self.ids@) == keys,
                keys.no_duplicates(),
                old(self)@ == table(keys, values),
                self.ids == old(self).ids,
                self.versions@.len() == values.len(),
                n <= values.len(),
                forall|j: int| 0 <= j < n ==> #[trigger] values[j] + by <= usize::MAX,
                forall|j: int| 0 <= j < i ==> #[trigger] self.versions@[j] == values[j] + by,
                forall|j: int| i <= j < n ==> #[trigger] self.versions@[j] == values[j],
            decreases n - i,
        {
            let v = self.versions[i];
            self.versions[i] = v + by;
            i += 1;
        }
        proof {
            assert forall|k: CoreIdentifierView| #[trigger] self@.contains_key(k) implies self@[k]
                == shifted(table(keys, values), by)[k] by {
                lemma_table_at(keys, values, place(keys, k));
                lemma_table_at(keys, self.versions@, place(keys, k));
            }
            assert(self@ =~= shifted(table(keys, values), by));
        }
        true
    }

    /// Raises every version by one: the versions up to the new ones are
    /// reserved. Where one of them cannot be raised, nothing changes and the
    /// result is `false`.
    pub fn bump_all(&mut self) -> (r: bool)
        ensures
            r == can_shift(old(self)@, 1),
            final(self)@ == (if r {
                shifted(old(self)@, 1)
            } else {
                old(self)@
            }),
            final(self).keys() == old(self).keys(),
    {
        self.shift(1)
    }

    /// A copy of the map as it is now.
    pub fn snapshot(&self) -> (r: Versions)
        ensures
            r@ == self@,
            r.keys() == self.keys(),
    {
        proof {
            use_type_invariant(self);
        }
        let ids = duplicate_all(&self.ids);
        let n = self.ids.len();
        let mut versions: Vec<usize> = Vec::new();
        let mut i: usize = 0;
        while i < n
            invariant
                i <= n,
                n <= self.versions@.len(),
                versions@.len() == i,
                forall|j: int| 0 <= j < i ==> #[trigger] versions@[j] == self.versions@[j],
            decreases n - i,
        {
            versions.push(self.versions[i]);
            i += 1;
        }
        proof {
            let keys = views(self.ids@);
            assert(ids@.len() == views(ids@).len());
            assert forall|k: CoreIdentifierView| keys.contains(k) implies versions@[place(keys, k)]
                == self.versions@[place(keys, k)] by {
                lemma_table_at(keys, self.versions@, place(keys, k));
            }
            assert(table(keys, versions@) =~= table(keys, self.versions@));
        }
        Versions { ids, versions }
    }
}

impl Clone for Versions {
    fn clone(&self) -> (r: Versions)
        ensures
            r@ == self@,
    {
        self.snapshot()
    }
}

} // verus!
