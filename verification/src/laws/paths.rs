//! Compressing the paths of rewrites that have no cycle leaves rewrites that
//! go straight to the end of each path.

use crate::substitution::{compressed, flat, terminal, RedirectsView};
use vstd::prelude::*;

verus! {

/// The version that `n` rewrites lead to from `v`, where there are as many
/// in a row.
pub open spec fn after(m: RedirectsView, v: usize, n: nat) -> Option<usize>
    decreases n,
{
    if n == 0 {
        Some(v)
    } else if m.contains_key(v) {
        after(m, m[v], (n - 1) as nat)
    } else {
        None
    }
}

/// Whether no version is rewritten, in one step or more, to itself.
pub open spec fn acyclic(m: RedirectsView) -> bool {
    forall|v: usize, n: nat| n >= 1 ==> #[trigger] after(m, v, n) != Some(v)
}

/// Rewrites in a row can be taken in two parts.
pub proof fn lemma_after_split(m: RedirectsView, v: usize, i: nat, j: nat)
    requires
        after(m, v, i + j) is Some,
    ensures
        after(m, v, i) is Some,
        after(m, after(m, v, i)->0, j) == after(m, v, i + j),
    decreases i,
{
    if i > 0 {
        lemma_after_split(m, m[v], (i - 1) as nat, j);
    }
}

/// A walk that ends on a version that is rewritten took every one of its
/// steps, and ends where that many rewrites lead.
pub proof fn lemma_terminal_inside(m: RedirectsView, v: usize, fuel: nat)
    requires
        m.contains_key(terminal(m, v, fuel)),
    ensures
        after(m, v, fuel) == Some(terminal(m, v, fuel)),
    decreases fuel,
{
    if fuel > 0 {
        lemma_terminal_inside(m, m[v], (fuel - 1) as nat);
    }
}

/// Among more versions than a finite set holds, all of them in the set, two
/// are the same.
pub proof fn lemma_pigeonhole(s: Seq<usize>, d: Set<usize>)
    requires
        d.finite(),
        s.len() > d.len(),
        forall|i: int| 0 <= i < s.len() ==> d.contains(#[trigger] s[i]),
    ensures
        exists|i: int, j: int| 0 <= i < j < s.len() && s[i] == s[j],
{
    if s.no_duplicates() {
        s.unique_seq_to_set();
        assert(s.to_set().subset_of(d)) by {
            assert forall|x: usize| s.to_set().contains(x) implies d.contains(x) by {
                let i = choose|i: int| 0 <= i < s.len() && s[i] == x;
                assert(d.contains(s[i]));
            }
        }
        vstd::set_lib::lemma_len_subset(s.to_set(), d);
    } else {
        let (i, j) = choose|i: int, j: int|
            0 <= i < s.len() && 0 <= j < s.len() && i != j && s[i] == s[j];
        if i < j {
            assert(s[i] == s[j]);
        } else {
            assert(s[j] == s[i]);
        }
    }
}

/// In rewrites without a cycle, a walk of as many steps as there are
/// rewrites ends on a version that is not rewritten.
pub proof fn lemma_walk_ends(m: RedirectsView, v: usize)
    requires
        acyclic(m),
    ensures
        !m.contains_key(terminal(m, v, m.dom().len())),
{
    lemma_versions_finite(m.dom());
    let n = m.dom().len();
    if m.contains_key(terminal(m, v, n)) {
        lemma_terminal_inside(m, v, n);
        // the versions on the way are all rewritten
        let way = Seq::new((n + 1) as nat, |i: int| after(m, v, i as nat)->0);
        assert forall|i: int| 0 <= i < way.len() implies m.dom().contains(#[trigger] way[i]) by {
            lemma_after_split(m, v, i as nat, (n - i) as nat);
            if i < n {
                lemma_after_split(m, way[i], 1, (n - i - 1) as nat);
            }
        }
        lemma_pigeonhole(way, m.dom());
        let (i, j) = choose|i: int, j: int| 0 <= i < j < way.len() && way[i] == way[j];
        lemma_after_split(m, v, j as nat, (n - j) as nat);
        lemma_after_split(m, v, i as nat, (j - i) as nat);
        assert(after(m, way[i], (j - i) as nat) == Some(way[i]));
    }
}

/// Compressing the paths of rewrites without a cycle gives flat rewrites:
/// every version that is rewritten goes straight to a version that is not.
pub proof fn lemma_compressed_flat(m: RedirectsView)
    requires
        acyclic(m),
    ensures
        flat(compressed(m)),
        compressed(m).dom() == m.dom(),
{
    let c = compressed(m);
    assert(c.dom() =~= m.dom());
    assert forall|k: usize| c.contains_key(k) implies !c.contains_key(#[trigger] c[k]) by {
        lemma_walk_ends(m, k);
    }
}

/// There are finitely many versions, as many as the machine has numbers.
pub proof fn lemma_versions_finite(d: Set<usize>)
    ensures
        d.finite(),
{
    let all = Set::new(|x: usize| true);
    assert(all.finite()) by {
        vstd::set_lib::lemma_int_range(0, usize::MAX as int + 1);
        let range = vstd::set_lib::set_int_range(0, usize::MAX as int + 1);
        let image = range.map(|i: int| i as usize);
        range.lemma_map_finite(|i: int| i as usize);
        assert(all =~= image) by {
            assert forall|x: usize| image.contains(x) by {
                assert(range.contains(x as int));
            }
        }
    }
    vstd::set_lib::lemma_len_subset(d, all);
}

/// Compressing flat rewrites changes nothing.
pub proof fn lemma_compressed_of_flat(m: RedirectsView)
    requires
        flat(m),
    ensures
        compressed(m) == m,
{
    let c = compressed(m);
    lemma_versions_finite(m.dom());
    assert forall|k: usize| m.contains_key(k) implies c[k] == m[k] by {
        let n = m.dom().len();
        assert(m.dom().contains(k));
        assert(n > 0);
        assert(!m.contains_key(m[k]));
        assert(terminal(m, m[k], (n - 1) as nat) == m[k]);
    }
    assert(c =~= m);
}

/// Compressing a second time changes nothing, where the rewrites have no
/// cycle.
pub proof fn lemma_compressed_twice(m: RedirectsView)
    requires
        acyclic(m),
    ensures
        compressed(compressed(m)) == compressed(m),
{
    lemma_compressed_flat(m);
    lemma_compressed_of_flat(compressed(m));
}

} // verus!
