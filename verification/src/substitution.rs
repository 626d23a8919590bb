//! The substitution map: version rewrites that are recorded while loops are
//! unrolled and applied afterwards.

use crate::identifier::{CoreIdentifier, CoreIdentifierView, Identifier, IdentifierView};
use crate::laws::paths::{acyclic, lemma_compressed_flat};
use crate::model::{duplicate_all, views, Modelled};
use crate::table::{lemma_table_at, lemma_table_push, lemma_table_update, place, position, table};
use crate::versions::{Versions, VersionsView};
use std::collections::HashMap;
use vstd::prelude::*;
use vstd::std_specs::hash::*;

verus! {

/// Mathematical model of the rewrites of one identifier: from a version to
/// the version that replaces it.
pub type RedirectsView = Map<usize, usize>;

/// Mathematical model of a substitution map.
pub type SubstitutionsView = Map<CoreIdentifierView, RedirectsView>;

/// Where a walk from `v` along the rewrites ends: at the first version that
/// is not rewritten, or after `fuel` steps.
pub open spec fn terminal(m: RedirectsView, v: usize, fuel: nat) -> usize
    decreases fuel,
{
    if fuel == 0 || !m.contains_key(v) {
        v
    } else {
        terminal(m, m[v], (fuel - 1) as nat)
    }
}

/// The rewrites with every path compressed: each version that `m` rewrites
/// goes straight to the end of its path. A path in a map without cycles has
/// no more steps than the map has entries.
pub open spec fn compressed(m: RedirectsView) -> RedirectsView {
    Map::new(|k: usize| m.contains_key(k), |k: usize| terminal(m, k, m.dom().len()))
}

/// Whether no rewrite leads to a version that is rewritten again.
pub open spec fn flat(m: RedirectsView) -> bool {
    forall|k: usize| m.contains_key(k) ==> !m.contains_key(#[trigger] m[k])
}

/// The rewrites with one more: `from` goes to `to`, or to what `to` is
/// rewritten to already.
pub open spec fn with_edge(m: RedirectsView, from: usize, to: usize) -> RedirectsView {
    m.insert(
        from,
        if m.contains_key(to) {
            m[to]
        } else {
            to
        },
    )
}

/// The version that the substitution gives to an identifier: the target of
/// its rewrite, or its own version where it has none.
pub open spec fn redirect(s: SubstitutionsView, id: IdentifierView) -> usize {
    if s.contains_key(id.id) && s[id.id].contains_key(id.version) {
        s[id.id][id.version]
    } else {
        id.version
    }
}

/// Whether `register` records a rewrite for `k`: both maps know it, at
/// different versions.
pub open spec fn differs(from: VersionsView, to: VersionsView, k: CoreIdentifierView) -> bool {
    from.contains_key(k) && to.contains_key(k) && from[k] != to[k]
}

/// The rewrites of `k` in `s`, none where `s` has no entry for it.
pub open spec fn redirects_of(s: SubstitutionsView, k: CoreIdentifierView) -> RedirectsView {
    if s.contains_key(k) {
        s[k]
    } else {
        Map::empty()
    }
}

/// The substitution map after the versions of `from` are rewritten to
/// those of `to`, for the identifiers among `among`.
pub open spec fn registered_among(
    s: SubstitutionsView,
    from: VersionsView,
    to: VersionsView,
    among: Set<CoreIdentifierView>,
) -> SubstitutionsView {
    Map::new(
        |k: CoreIdentifierView| s.contains_key(k) || (among.contains(k) && differs(from, to, k)),
        |k: CoreIdentifierView|
            if among.contains(k) && differs(from, to, k) {
                with_edge(redirects_of(s, k), from[k], to[k])
            } else {
                s[k]
            },
    )
}

/// The substitution map after the versions of `from` are rewritten to
/// those of `to`: for every identifier that both know at different
/// versions, its version in `from` goes to its version in `to`, or to what
/// that one is rewritten to already.
pub open spec fn registered(s: SubstitutionsView, from: VersionsView, to: VersionsView)
    -> SubstitutionsView {
    registered_among(s, from, to, Set::full())
}

/// The substitution map with the paths of every identifier compressed.
pub open spec fn compressed_all(s: SubstitutionsView) -> SubstitutionsView {
    Map::new(|k: CoreIdentifierView| s.contains_key(k), |k: CoreIdentifierView| compressed(s[k]))
}

/// The rewrites of the versions of one identifier.
#[derive(Debug)]
pub struct Redirects {
    edges: HashMap<usize, usize>,
}

impl View for Redirects {
    type V = RedirectsView;

    closed spec fn view(&self) -> RedirectsView {
        self.edges@
    }
}

impl Redirects {
    /// No rewrites.
    pub fn new() -> (r: Redirects)
        ensures
            r@ == Map::<usize, usize>::empty(),
    {
        Redirects { edges: HashMap::new() }
    }

    /// What a version is rewritten to, if it is.
    pub fn get(&self, k: usize) -> (r: Option<usize>)
        ensures
            r == (if self@.contains_key(k) {
                Some(self@[k])
            } else {
                None
            }),
    {
        broadcast use group_hash_axioms;

        match self.edges.get(&k) {
            Some(v) => Some(*v),
            None => None,
        }
    }

    /// Rewrites `k` to `v` from now on.
    pub fn insert(&mut self, k: usize, v: usize)
        ensures
            final(self)@ == old(self)@.insert(k, v),
    {
        broadcast use group_hash_axioms;

        self.edges.insert(k, v);
    }

    /// Records that `from` goes to `to`, or to what `to` is rewritten to
    /// already.
    pub fn add(&mut self, from: usize, to: usize)
        ensures
            final(self)@ == with_edge(old(self)@, from, to),
    {
        let target = match self.get(to) {
            Some(t) => t,
            None => to,
        };
        self.insert(from, target);
    }

    fn walk(&self, v: usize, fuel: usize) -> (r: usize)
        ensures
            r == terminal(self@, v, fuel as nat),
    {
        let mut current = v;
        let mut left = fuel;
        while left > 0
            invariant
                terminal(self@, v, fuel as nat) == terminal(self@, current, left as nat),
            decreases left,
        {
            match self.get(current) {
                Some(next) => {
                    current = next;
                    left -= 1;
                },
                None => {
                    return current;
                },
            }
        }
        current
    }

    /// The same rewrites with every path compressed. Where the rewrites
    /// have no cycle, every path that is left has one step.
    pub fn canonicalize(&self) -> (r: Redirects)
        ensures
            r@ == compressed(self@),
            acyclic(self@) ==> flat(r@),
    {
        broadcast use group_hash_axioms;

        proof {
            if acyclic(self@) {
                lemma_compressed_flat(self@);
            }
        }
        let n = self.edges.len();
        let mut out: HashMap<usize, usize> = HashMap::new();
        for k in it: self.edges.keys()
            invariant
                n == self@.dom().len(),
                it.seq().unref().to_set() == self@.dom(),
                forall|j: int|
                    0 <= j < it.index() ==> out@.contains_key(#[trigger] it.seq().unref()[j]),
                forall|x: usize| #[trigger]
                    out@.contains_key(x) ==> self@.contains_key(x) && out@[x] == terminal(
                        self@,
                        x,
                        n as nat,
                    ),
        {
            assert(it.seq().unref()[it.index()] == *k);
            assert(it.seq().unref().to_set().contains(*k));
            assert(self@.dom().contains(*k));
            let target = self.walk(*k, n);
            out.insert(*k, target);
        }
        let r = Redirects { edges: out };
        assert forall|x: usize| self@.contains_key(x) implies r@.contains_key(x) by {
            assert(self@.dom().contains(x));
        }
        assert(r@.dom() =~= compressed(self@).dom());
        assert(r@ =~= compressed(self@));
        r
    }
}

/// The version rewrites of every identifier.
#[derive(Debug)]
pub struct Substitutions {
    ids: Vec<CoreIdentifier>,
    subs: Vec<Redirects>,
}

impl View for Substitutions {
    type V = SubstitutionsView;

    closed spec fn view(&self) -> SubstitutionsView {
        table(views(self.ids@), views(self.subs@))
    }
}

impl Substitutions {
    #[verifier::type_invariant]
    spec fn well_formed(&self) -> bool {
        &&& self.ids@.len() <= self.subs@.len()
        &&& views(self.ids@).no_duplicates()
    }

    /// No rewrites.
    pub fn new() -> (r: Substitutions)
        ensures
            r@ == Map::<CoreIdentifierView, RedirectsView>::empty(),
    {
        let r = Substitutions { ids: Vec::new(), subs: Vec::new() };
        assert(r@ =~= Map::<CoreIdentifierView, RedirectsView>::empty());
        r
    }

    /// The version that the substitution gives to an identifier.
    pub fn target(&self, id: &Identifier) -> (r: usize)
        ensures
            r == redirect(self@, id@),
    {
        proof {
            use_type_invariant(self);
        }
        match position(&self.ids, &id.id) {
            Some(i) => {
                proof {
                    lemma_table_at(views(self.ids@), views(self.subs@), i as int);
                }
                match self.subs[i].get(id.version) {
                    Some(v) => v,
                    None => id.version,
                }
            },
            None => id.version,
        }
    }

    /// Records for one identifier that `from` goes to `to`, or to what `to`
    /// is rewritten to already.
    pub fn add(&mut self, id: &CoreIdentifier, from: usize, to: usize)
        ensures
            final(self)@ == old(self)@.insert(
                id@,
                with_edge(redirects_of(old(self)@, id@), from, to),
            ),
    {
        proof {
            use_type_invariant(&*self);
        }
        let ghost keys = views(self.ids@);
        let ghost values = views(self.subs@);
        match position(&self.ids, id) {
            Some(i) => {
                proof {
                    lemma_table_at(keys, values, i as int);
                }
                let mut sub = Redirects::new();
                core::mem::swap(&mut self.subs[i], &mut sub);
                sub.add(from, to);
                proof {
                    lemma_table_update(keys, values, i as int, sub@);
                }
                core::mem::swap(&mut self.subs[i], &mut sub);
                assert(views(self.subs@) =~= values.update(i as int, self.subs@[i as int]@));
            },
            None => {
                let mut sub = Redirects::new();
                sub.add(from, to);
                let key = id.duplicate();
                let mut ids: Vec<CoreIdentifier> = Vec::new();
                let mut subs: Vec<Redirects> = Vec::new();
                core::mem::swap(&mut self.ids, &mut ids);
                core::mem::swap(&mut self.subs, &mut subs);
                subs.truncate(ids.len());
                proof {
                    assert(table(keys, views(subs@)) =~= table(keys, values)) by {
                        assert forall|k: CoreIdentifierView| keys.contains(k) implies views(
                            subs@,
                        )[place(keys, k)] == values[place(keys, k)] by {
                            lemma_table_at(keys, values, place(keys, k));
                        }
                    }
                    lemma_table_push(keys, views(subs@), id@, sub@);
                }
                let ghost shorter = views(subs@);
                subs.push(sub);
                ids.push(key);
                assert(views(ids@) =~= keys.push(id@));
                assert(views(subs@) =~= shorter.push(sub@));
                core::mem::swap(&mut self.subs, &mut subs);
                core::mem::swap(&mut self.ids, &mut ids);
            },
        }
    }

    /// Rewrites the versions of `substitute` to those of `with`: for every
    /// identifier that both know at different versions.
    pub fn register(&mut self, substitute: &Versions, with: &Versions)
        ensures
            final(self)@ == registered(old(self)@, substitute@, with@),
    {
        let ghost before = self@;
        let ghost keys = substitute.keys();
        let n = substitute.len();
        let mut i: usize = 0;
        assert(self@ =~= registered_among(before, substitute@, with@, keys.take(0).to_set()));
        while i < n
            invariant
                i <= n,
                n == keys.len(),
                keys == substitute.keys(),
                keys.no_duplicates(),
                forall|k: CoreIdentifierView| substitute@.contains_key(k) <==> keys.contains(k),
                self@ == registered_among(before, substitute@, with@, keys.take(i as int).to_set()),
            decreases n - i,
        {
            let id = substitute.key(i);
            let ghost head = keys.take(i as int);
            let ghost upto = keys.take(i + 1);
            let ghost done = head.to_set();
            let ghost next = upto.to_set();
            proof {
                assert(!done.contains(id@)) by {
                    if head.contains(id@) {
                        let j = choose|j: int| 0 <= j < head.len() && head[j] == id@;
                        assert(keys[j] == keys[i as int]);
                    }
                }
                assert(next =~= done.insert(id@)) by {
                    assert forall|k: CoreIdentifierView| next.contains(k) <==> done.insert(
                        id@,
                    ).contains(k) by {
                        if upto.contains(k) {
                            let j = choose|j: int| 0 <= j < upto.len() && upto[j] == k;
                            if j < i {
                                assert(head[j] == k);
                            }
                        }
                        if head.contains(k) {
                            let j = choose|j: int| 0 <= j < head.len() && head[j] == k;
                            assert(upto[j] == k);
                        }
                        if k == id@ {
                            assert(upto[i as int] == k);
                        }
                    }
                }
            }
            let from = substitute.current(id);
            let to = with.current(id);
            match (from, to) {
                (Some(f), Some(t)) => {
                    if f != t {
                        self.add(id, f, t);
                    }
                },
                _ => {},
            }
            assert(self@ =~= registered_among(before, substitute@, with@, next));
            i += 1;
        }
        proof {
            assert(keys.take(n as int) =~= keys);
            assert(self@ =~= registered(before, substitute@, with@)) by {
                assert forall|k: CoreIdentifierView| differs(substitute@, with@, k) implies keys.to_set().contains(
                    k,
                ) by {
                    assert(keys.contains(k));
                }
            }
        }
    }

    /// The same rewrites with the paths of every identifier compressed.
    /// Where the rewrites of an identifier have no cycle, every path of it
    /// that is left has one step.
    pub fn canonicalize(&self) -> (r: Substitutions)
        ensures
            r@ == compressed_all(self@),
            forall|k: CoreIdentifierView|
                self@.contains_key(k) && acyclic(#[trigger] self@[k]) ==> flat(r@[k]),
    {
        proof {
            use_type_invariant(self);
        }
        let ids = duplicate_all(&self.ids);
        let n = self.ids.len();
        let mut subs: Vec<Redirects> = Vec::new();
        let mut i: usize = 0;
        while i < n
            invariant
                i <= n,
                n <= self.subs@.len(),
                subs@.len() == i,
                forall|j: int| 0 <= j < i ==> (#[trigger] subs@[j])@ == compressed(self.subs@[j]@),
            decreases n - i,
        {
            subs.push(self.subs[i].canonicalize());
            i += 1;
        }
        proof {
            let keys = views(self.ids@);
            assert(ids@.len() == views(ids@).len());
            assert forall|k: CoreIdentifierView| keys.contains(k) implies table(keys, views(subs@))[k]
                == compressed(self@[k]) by {
                lemma_table_at(keys, views(subs@), place(keys, k));
                lemma_table_at(keys, views(self.subs@), place(keys, k));
            }
            assert(table(keys, views(subs@)) =~= compressed_all(self@));
            assert forall|k: CoreIdentifierView|
                self@.contains_key(k) && acyclic(#[trigger] self@[k]) implies flat(
                compressed_all(self@)[k],
            ) by {
                lemma_compressed_flat(self@[k]);
            }
        }
        Substitutions { ids, subs }
    }
}

} // verus!
