//! No identifier is defined twice in a reduced function.

use crate::absy::{
    ExpressionInnerView, ExpressionView, FunctionView, ModuleView, ProgramView, StatementView,
    SymbolView, TypedFunction, VariableView,
};
use crate::apply::{apply_statement, apply_statements, lemma_apply_for};
use crate::driver::{keeps_loops, paired, reduce_pass, reduction, run, PassView, ProgressView};
use crate::embed::{embed_entries, embed_key};
use crate::error::ErrorView;
use crate::identifier::{CoreIdentifierView, IdentifierView};
use crate::inline::{
    call_slots, concrete_key, inline_function, inlining, input_bindings, non_returns,
    output_bindings, returned_values, CacheView, InlineErrorView,
};
use crate::laws::loops::{
    lemma_loops_concat, lemma_loops_single, lemma_pass_paired, lemma_reduce_statements_loops,
    lemma_ssa_function_paired,
};
use crate::laws::reduced::lemma_find_main;
use crate::program::{extended, has_entry, main_entry, program_reduction, reduced_program};
use crate::rename::{rename_variables, Renaming};
use crate::reducer::{
    literal_bounds, loops, supplied, index_literal, reduce_call, reduce_call_statement,
    reduce_expression, reduce_expressions, reduce_loop, reduce_statement, reduce_statement_inner,
    reduce_statements, reducer_start, result_definitions, unroll, ReducerView,
};
use crate::resolve::{find_module, resolve};
use crate::shallow_ssa::{
    define, define_all, generic_definitions, has_call, shallow_start, ssa_function, ssa_statement,
    ssa_statements, ShallowView,
};
use crate::substitution::{compressed_all, differs, redirects_of, registered, SubstitutionsView};
use crate::types::{FunctionKeyView, TypeView};
use crate::unify::{specialize, AssignmentView};
use crate::versions::{next_version, shifted, VersionsView};
use vstd::prelude::*;

verus! {

/// The identifiers of the variables of a sequence.
pub open spec fn identifiers(vs: Seq<VariableView>) -> Seq<IdentifierView> {
    Seq::new(vs.len(), |i: int| vs[i].id)
}

/// The identifiers that a statement defines: the variable of a definition,
/// the variables of a call statement.
pub open spec fn defined(s: StatementView) -> Seq<IdentifierView> {
    match s {
        StatementView::Definition(v, _) => seq![v.id],
        StatementView::MultipleDefinition(vs, _, _, _) => identifiers(vs),
        _ => Seq::empty(),
    }
}

/// The identifiers that the statements of a body define, in order. What
/// the body of a loop defines does not count.
pub open spec fn definitions(body: Seq<StatementView>) -> Seq<IdentifierView>
    decreases body.len(),
{
    if body.len() == 0 {
        Seq::empty()
    } else {
        definitions(body.drop_last()) + defined(body.last())
    }
}

/// Whether no identifier is defined twice in a body.
pub open spec fn single_assignment(body: Seq<StatementView>) -> bool {
    definitions(body).no_duplicates()
}

/// Whether an identifier is at a version that the map has not reached.
pub open spec fn above(id: IdentifierView, v: VersionsView) -> bool {
    !v.contains_key(id.id) || id.version > v[id.id]
}

/// Whether an identifier is at a version that the map has reached.
pub open spec fn within(id: IdentifierView, v: VersionsView) -> bool {
    v.contains_key(id.id) && id.version <= v[id.id]
}

/// Whether every version of the second map is at least what it is in the
/// first.
pub open spec fn grown(v: VersionsView, w: VersionsView) -> bool {
    forall|x: CoreIdentifierView| #[trigger]
        v.contains_key(x) ==> w.contains_key(x) && v[x] <= w[x]
}

/// Whether the identifiers are pairwise different, above the first map and
/// within the second: they were issued between the two.
pub open spec fn fresh(ids: Seq<IdentifierView>, v: VersionsView, w: VersionsView) -> bool {
    &&& ids.no_duplicates()
    &&& forall|i: int| 0 <= i < ids.len() ==> above(#[trigger] ids[i], v) && within(ids[i], w)
}

/// Whether every identifier of the set is within the map.
pub open spec fn all_within(used: Set<IdentifierView>, v: VersionsView) -> bool {
    forall|id: IdentifierView| #[trigger] used.contains(id) ==> within(id, v)
}

/// Whether the two versions that a loop reserves after the versions
/// before it are reached and not defined.
pub open spec fn gap(before: VersionsView, v: VersionsView, used: Set<IdentifierView>) -> bool {
    forall|x: CoreIdentifierView| #[trigger]
        before.contains_key(x) ==> {
            &&& v.contains_key(x)
            &&& before[x] + 2 <= v[x]
            &&& !used.contains(IdentifierView { id: x, version: (before[x] + 1) as usize })
            &&& !used.contains(IdentifierView { id: x, version: (before[x] + 2) as usize })
        }
}

/// Whether every one of the versions recorded before loops has its gap.
pub open spec fn gaps(l: Seq<VersionsView>, v: VersionsView, used: Set<IdentifierView>) -> bool {
    forall|i: int| 0 <= i < l.len() ==> gap(#[trigger] l[i], v, used)
}

/// Whether every version that the substitution rewrites is reached and not
/// defined.
pub open spec fn avoided(s: SubstitutionsView, v: VersionsView, used: Set<IdentifierView>) -> bool {
    forall|x: CoreIdentifierView, k: usize|
        s.contains_key(x) && #[trigger] s[x].contains_key(k) ==> {
            &&& v.contains_key(x)
            &&& k <= v[x]
            &&& !used.contains(IdentifierView { id: x, version: k })
        }
}

/// The definitions of two bodies one after the other are those of the
/// first, then those of the second.
pub proof fn lemma_definitions_concat(a: Seq<StatementView>, b: Seq<StatementView>)
    ensures
        definitions(a + b) == definitions(a) + definitions(b),
    decreases b.len(),
{
    if b.len() == 0 {
        assert(a + b =~= a);
        assert(definitions(a) + definitions(b) =~= definitions(a));
    } else {
        assert((a + b).drop_last() =~= a + b.drop_last());
        assert((a + b).last() == b.last());
        lemma_definitions_concat(a, b.drop_last());
        assert(definitions(a) + definitions(b.drop_last()) + defined(b.last()) =~= definitions(a)
            + (definitions(b.drop_last()) + defined(b.last())));
    }
}

/// The definitions of a body of one statement are those of the statement.
pub proof fn lemma_definitions_single(s: StatementView)
    ensures
        definitions(seq![s]) == defined(s),
{
    assert(seq![s].drop_last() =~= Seq::empty());
    assert(definitions(seq![s].drop_last()) + defined(s) =~= defined(s));
}

/// Growth goes on: what has grown twice has grown.
pub proof fn lemma_grown_trans(a: VersionsView, b: VersionsView, c: VersionsView)
    requires
        grown(a, b),
        grown(b, c),
    ensures
        grown(a, c),
{
    assert forall|x: CoreIdentifierView| #[trigger] a.contains_key(x) implies c.contains_key(x)
        && a[x] <= c[x] by {
        assert(b.contains_key(x));
    }
}

/// Identifiers issued one batch after the other are issued between the
/// first map and the last.
pub proof fn lemma_fresh_concat(
    a: Seq<IdentifierView>,
    b: Seq<IdentifierView>,
    u: VersionsView,
    v: VersionsView,
    w: VersionsView,
)
    requires
        fresh(a, u, v),
        fresh(b, v, w),
        grown(u, v),
        grown(v, w),
    ensures
        fresh(a + b, u, w),
{
    let all = a + b;
    assert forall|i: int| 0 <= i < all.len() implies above(#[trigger] all[i], u) && within(
        all[i],
        w,
    ) by {
        if i < a.len() {
            assert(all[i] == a[i]);
            assert(v.contains_key(a[i].id));
        } else {
            assert(all[i] == b[i - a.len()]);
            let id = b[i - a.len()];
            if u.contains_key(id.id) {
                assert(v.contains_key(id.id));
            }
        }
    }
    assert forall|i: int, j: int| 0 <= i < j < all.len() implies all[i] != all[j] by {
        if j < a.len() {
            assert(all[i] == a[i] && all[j] == a[j]);
        } else if i >= a.len() {
            assert(all[i] == b[i - a.len()] && all[j] == b[j - a.len()]);
        } else {
            assert(all[i] == a[i] && all[j] == b[j - a.len()]);
            assert(within(a[i], v));
            assert(above(b[j - a.len()], v));
        }
    }
}

/// No identifiers are fresh between any two maps.
pub proof fn lemma_fresh_empty(v: VersionsView, w: VersionsView)
    ensures
        fresh(Seq::empty(), v, w),
{
}

/// Identifiers that were issued after a map has grown were issued after
/// the map as it was, and those issued before a map grew are within it.
pub proof fn lemma_fresh_widen(
    ids: Seq<IdentifierView>,
    u: VersionsView,
    v: VersionsView,
    w: VersionsView,
    z: VersionsView,
)
    requires
        fresh(ids, v, w),
        grown(u, v),
        grown(w, z),
    ensures
        fresh(ids, u, z),
{
    assert forall|i: int| 0 <= i < ids.len() implies above(#[trigger] ids[i], u) && within(
        ids[i],
        z,
    ) by {
        let id = ids[i];
        assert(above(id, v) && within(id, w));
        if u.contains_key(id.id) {
            assert(v.contains_key(id.id));
        }
        assert(w.contains_key(id.id));
    }
}

/// A variable that is given its version is above the versions before and
/// within the versions after, which have grown.
pub proof fn lemma_define_fresh(t: ShallowView, v: VariableView)
    ensures
        match define(t, v) {
            None => true,
            Some((t1, v1)) => {
                &&& above(v1.id, t.versions)
                &&& within(v1.id, t1.versions)
                &&& grown(t.versions, t1.versions)
                &&& t1.backups == t.backups
                &&& t1.blocked == t.blocked
            },
        },
{
}

/// Variables that are given their versions are fresh.
pub proof fn lemma_define_all_fresh(t: ShallowView, vs: Seq<VariableView>)
    ensures
        match define_all(t, vs) {
            None => true,
            Some((t1, out)) => {
                &&& fresh(identifiers(out), t.versions, t1.versions)
                &&& grown(t.versions, t1.versions)
                &&& t1.backups == t.backups
                &&& t1.blocked == t.blocked
            },
        },
    decreases vs.len(),
{
    if vs.len() > 0 {
        lemma_define_all_fresh(t, vs.drop_last());
        match define_all(t, vs.drop_last()) {
            None => {},
            Some((t1, out)) => {
                lemma_define_fresh(t1, vs.last());
                match define(t1, vs.last()) {
                    None => {},
                    Some((t2, v)) => {
                        assert(fresh(seq![v.id], t1.versions, t2.versions));
                        lemma_fresh_concat(
                            identifiers(out),
                            seq![v.id],
                            t.versions,
                            t1.versions,
                            t2.versions,
                        );
                        lemma_grown_trans(t.versions, t1.versions, t2.versions);
                        assert(identifiers(out.push(v)) =~= identifiers(out) + seq![v.id]);
                    },
                }
            },
        }
    } else {
        assert(identifiers(Seq::<VariableView>::empty()) =~= Seq::empty());
    }
}

/// The identifiers of two sequences one after the other are those of the
/// first together with those of the second.
pub proof fn lemma_to_set_concat(a: Seq<IdentifierView>, b: Seq<IdentifierView>)
    ensures
        (a + b).to_set() == a.to_set() + b.to_set(),
{
    let all = a + b;
    assert forall|id: IdentifierView| all.to_set().contains(id) <==> (a.to_set() + b.to_set()).contains(
        id,
    ) by {
        if all.contains(id) {
            let i = choose|i: int| 0 <= i < all.len() && all[i] == id;
            if i < a.len() {
                assert(a[i] == id);
            } else {
                assert(b[i - a.len()] == id);
            }
        }
        if a.contains(id) {
            let i = choose|i: int| 0 <= i < a.len() && a[i] == id;
            assert(all[i] == id);
        }
        if b.contains(id) {
            let i = choose|i: int| 0 <= i < b.len() && b[i] == id;
            assert(all[i + a.len()] == id);
        }
    }
    assert(all.to_set() =~= a.to_set() + b.to_set());
}

/// Identifiers within a map stay within it when it grows, and fresh ones
/// come to be within it.
pub proof fn lemma_within_grow(
    used: Set<IdentifierView>,
    ids: Seq<IdentifierView>,
    v: VersionsView,
    w: VersionsView,
)
    requires
        all_within(used, v),
        grown(v, w),
        fresh(ids, v, w),
    ensures
        all_within(used + ids.to_set(), w),
{
    assert forall|id: IdentifierView| #[trigger] (used + ids.to_set()).contains(id) implies within(
        id,
        w,
    ) by {
        if used.contains(id) {
            assert(within(id, v));
        } else {
            assert(ids.to_set().contains(id));
            let i = choose|i: int| 0 <= i < ids.len() && ids[i] == id;
            assert(within(ids[i], w));
        }
    }
}

/// The gaps of loops stay when the versions grow and fresh identifiers are
/// defined.
pub proof fn lemma_gaps_grow(
    l: Seq<VersionsView>,
    used: Set<IdentifierView>,
    ids: Seq<IdentifierView>,
    v: VersionsView,
    w: VersionsView,
)
    requires
        gaps(l, v, used),
        grown(v, w),
        fresh(ids, v, w),
    ensures
        gaps(l, w, used + ids.to_set()),
{
    let all = used + ids.to_set();
    assert forall|i: int| 0 <= i < l.len() implies gap(#[trigger] l[i], w, all) by {
        let b = l[i];
        assert(gap(b, v, used));
        assert forall|x: CoreIdentifierView| #[trigger] b.contains_key(x) implies {
            &&& w.contains_key(x)
            &&& b[x] + 2 <= w[x]
            &&& !all.contains(IdentifierView { id: x, version: (b[x] + 1) as usize })
            &&& !all.contains(IdentifierView { id: x, version: (b[x] + 2) as usize })
        } by {
            assert(v.contains_key(x));
            let one = IdentifierView { id: x, version: (b[x] + 1) as usize };
            let two = IdentifierView { id: x, version: (b[x] + 2) as usize };
            if ids.to_set().contains(one) {
                let j = choose|j: int| 0 <= j < ids.len() && ids[j] == one;
                assert(above(ids[j], v));
            }
            if ids.to_set().contains(two) {
                let j = choose|j: int| 0 <= j < ids.len() && ids[j] == two;
                assert(above(ids[j], v));
            }
        }
    }
}

/// What a substitution rewrites stays reached and not defined when the
/// versions grow and fresh identifiers are defined.
pub proof fn lemma_avoided_grow(
    s: SubstitutionsView,
    used: Set<IdentifierView>,
    ids: Seq<IdentifierView>,
    v: VersionsView,
    w: VersionsView,
)
    requires
        avoided(s, v, used),
        grown(v, w),
        fresh(ids, v, w),
    ensures
        avoided(s, w, used + ids.to_set()),
{
    let all = used + ids.to_set();
    assert forall|x: CoreIdentifierView, k: usize|
        s.contains_key(x) && #[trigger] s[x].contains_key(k) implies {
        &&& w.contains_key(x)
        &&& k <= w[x]
        &&& !all.contains(IdentifierView { id: x, version: k })
    } by {
        assert(v.contains_key(x));
        let id = IdentifierView { id: x, version: k };
        if ids.to_set().contains(id) {
            let j = choose|j: int| 0 <= j < ids.len() && ids[j] == id;
            assert(above(ids[j], v));
        }
    }
}

/// The definitions of a statement in shallow single-assignment form are
/// fresh, and the loops recorded keep their gaps.
pub proof fn lemma_ssa_statement_fresh(t: ShallowView, s: StatementView, used: Set<IdentifierView>)
    requires
        all_within(used, t.versions),
        gaps(t.backups, t.versions, used),
    ensures
        match ssa_statement(t, s) {
            None => true,
            Some((t1, s1)) => {
                &&& fresh(defined(s1), t.versions, t1.versions)
                &&& grown(t.versions, t1.versions)
                &&& gaps(t1.backups, t1.versions, used + defined(s1).to_set())
            },
        },
{
    match ssa_statement(t, s) {
        None => {},
        Some((t1, s1)) => {
            match s {
                StatementView::Definition(v, e) => {
                    let t0 = ShallowView {
                        blocked: t.blocked || has_call(e),
                        ..t
                    };
                    lemma_define_fresh(t0, v);
                    assert(fresh(defined(s1), t.versions, t1.versions));
                    lemma_gaps_grow(t.backups, used, defined(s1), t.versions, t1.versions);
                },
                StatementView::MultipleDefinition(vs, _, _, _) => {
                    lemma_define_all_fresh(ShallowView { blocked: true, ..t }, vs);
                    lemma_gaps_grow(t.backups, used, defined(s1), t.versions, t1.versions);
                },
                StatementView::For(_, _, _, _) => {
                    let v = t.versions;
                    let w = shifted(v, 2);
                    assert(grown(v, w));
                    assert(defined(s1) =~= Seq::empty());
                    lemma_fresh_empty(v, w);
                    lemma_gaps_grow(t.backups, used, defined(s1), v, w);
                    let all = used + defined(s1).to_set();
                    assert(gap(v, w, all)) by {
                        assert forall|x: CoreIdentifierView| #[trigger] v.contains_key(x) implies {
                            &&& w.contains_key(x)
                            &&& v[x] + 2 <= w[x]
                            &&& !all.contains(IdentifierView { id: x, version: (v[x] + 1) as usize })
                            &&& !all.contains(IdentifierView { id: x, version: (v[x] + 2) as usize })
                        } by {
                            let one = IdentifierView { id: x, version: (v[x] + 1) as usize };
                            let two = IdentifierView { id: x, version: (v[x] + 2) as usize };
                            assert(v[x] + 2 <= usize::MAX);
                            if used.contains(one) {
                                assert(within(one, v));
                            }
                            if used.contains(two) {
                                assert(within(two, v));
                            }
                        }
                    }
                    assert forall|i: int| 0 <= i < t1.backups.len() implies gap(
                        #[trigger] t1.backups[i],
                        w,
                        all,
                    ) by {
                        if i < t.backups.len() {
                            assert(t1.backups[i] == t.backups[i]);
                        }
                    }
                },
                _ => {
                    assert(defined(s1) =~= Seq::empty());
                    lemma_fresh_empty(t.versions, t1.versions);
                    lemma_gaps_grow(t.backups, used, defined(s1), t.versions, t1.versions);
                },
            }
        },
    }
}

/// The definitions of a body in shallow single-assignment form are fresh,
/// and the loops recorded keep their gaps.
pub proof fn lemma_ssa_statements_fresh(
    t: ShallowView,
    body: Seq<StatementView>,
    used: Set<IdentifierView>,
)
    requires
        all_within(used, t.versions),
        gaps(t.backups, t.versions, used),
    ensures
        match ssa_statements(t, body) {
            None => true,
            Some((t1, out)) => {
                &&& fresh(definitions(out), t.versions, t1.versions)
                &&& grown(t.versions, t1.versions)
                &&& gaps(t1.backups, t1.versions, used + definitions(out).to_set())
            },
        },
    decreases body.len(),
{
    if body.len() > 0 {
        lemma_ssa_statements_fresh(t, body.drop_last(), used);
        match ssa_statements(t, body.drop_last()) {
            None => {},
            Some((t1, out)) => {
                let used1 = used + definitions(out).to_set();
                lemma_within_grow(used, definitions(out), t.versions, t1.versions);
                lemma_ssa_statement_fresh(t1, body.last(), used1);
                match ssa_statement(t1, body.last()) {
                    None => {},
                    Some((t2, s)) => {
                        let all = out.push(s);
                        assert(all.drop_last() =~= out);
                        lemma_fresh_concat(
                            definitions(out),
                            defined(s),
                            t.versions,
                            t1.versions,
                            t2.versions,
                        );
                        lemma_grown_trans(t.versions, t1.versions, t2.versions);
                        lemma_to_set_concat(definitions(out), defined(s));
                        assert(used1 + defined(s).to_set() =~= used + definitions(all).to_set());
                    },
                }
            },
        }
    } else {
        assert(used + Seq::<IdentifierView>::empty().to_set() =~= used);
    }
}

/// The rounds of a loop define fresh identifiers, and the loops recorded
/// keep their gaps.
pub proof fn lemma_unroll_fresh(
    t: ShallowView,
    v: VariableView,
    from: u128,
    to: u128,
    body: Seq<StatementView>,
    used: Set<IdentifierView>,
)
    requires
        all_within(used, t.versions),
        gaps(t.backups, t.versions, used),
    ensures
        match unroll(t, v, from, to, body) {
            None => true,
            Some((t1, out)) => {
                &&& fresh(definitions(out), t.versions, t1.versions)
                &&& grown(t.versions, t1.versions)
                &&& gaps(t1.backups, t1.versions, used + definitions(out).to_set())
            },
        },
    decreases to,
{
    if from < to {
        lemma_unroll_fresh(t, v, from, (to - 1) as u128, body, used);
        match unroll(t, v, from, (to - 1) as u128, body) {
            None => {},
            Some((t1, out)) => {
                let used1 = used + definitions(out).to_set();
                lemma_within_grow(used, definitions(out), t.versions, t1.versions);
                let round = seq![
                    StatementView::Definition(v, index_literal((to - 1) as u128)),
                ] + body;
                lemma_ssa_statements_fresh(t1, round, used1);
                match ssa_statements(t1, round) {
                    None => {},
                    Some((t2, more)) => {
                        lemma_definitions_concat(out, more);
                        lemma_fresh_concat(
                            definitions(out),
                            definitions(more),
                            t.versions,
                            t1.versions,
                            t2.versions,
                        );
                        lemma_grown_trans(t.versions, t1.versions, t2.versions);
                        lemma_to_set_concat(definitions(out), definitions(more));
                        assert(used1 + definitions(more).to_set() =~= used + definitions(
                            out + more,
                        ).to_set());
                    },
                }
            },
        }
    } else {
        assert(used + Seq::<IdentifierView>::empty().to_set() =~= used);
    }
}

/// The result slots of a call are fresh.
pub proof fn lemma_call_slots_fresh(v: VersionsView, types: Seq<TypeView>)
    ensures
        match call_slots(v, types) {
            None => true,
            Some((w, slots)) => {
                &&& fresh(identifiers(slots), v, w)
                &&& grown(v, w)
                &&& slots.len() == types.len()
            },
        },
    decreases types.len(),
{
    if types.len() > 0 {
        lemma_call_slots_fresh(v, types.drop_last());
        match call_slots(v, types.drop_last()) {
            None => {},
            Some((v1, out)) => {
                let id = CoreIdentifierView::Call((types.len() - 1) as usize);
                match next_version(v1, id) {
                    None => {},
                    Some(n) => {
                        let w = v1.insert(id, n);
                        let slot = IdentifierView { id, version: n };
                        assert(grown(v1, w));
                        assert(fresh(seq![slot], v1, w));
                        lemma_fresh_concat(identifiers(out), seq![slot], v, v1, w);
                        lemma_grown_trans(v, v1, w);
                        let slots = out.push(
                            VariableView { id: slot, ty: types.last() },
                        );
                        assert(identifiers(slots) =~= identifiers(out) + seq![slot]);
                    },
                }
            },
        }
    } else {
        assert(identifiers(Seq::<VariableView>::empty()) =~= Seq::empty());
    }
}

/// A body of definitions of the given identifiers defines these.
pub proof fn lemma_definitions_pointwise(body: Seq<StatementView>, ids: Seq<IdentifierView>)
    requires
        body.len() == ids.len(),
        forall|i: int| 0 <= i < body.len() ==> defined(#[trigger] body[i]) == seq![ids[i]],
    ensures
        definitions(body) == ids,
    decreases body.len(),
{
    if body.len() > 0 {
        assert forall|i: int| 0 <= i < body.drop_last().len() implies defined(
            #[trigger] body.drop_last()[i],
        ) == seq![ids.drop_last()[i]] by {
            assert(body.drop_last()[i] == body[i]);
        }
        lemma_definitions_pointwise(body.drop_last(), ids.drop_last());
        assert(defined(body[body.len() - 1]) == seq![ids[body.len() - 1]]);
        assert(ids.drop_last() + seq![ids.last()] =~= ids);
    } else {
        assert(ids =~= Seq::empty());
    }
}

/// A body without its `Return` statements defines what the body defines.
pub proof fn lemma_definitions_non_returns(body: Seq<StatementView>)
    ensures
        definitions(non_returns(body)) == definitions(body),
    decreases body.len(),
{
    if body.len() > 0 {
        lemma_definitions_non_returns(body.drop_last());
        let head = non_returns(body.drop_last());
        if body.last() is Return {
            assert(definitions(body.drop_last()) + defined(body.last()) =~= definitions(
                body.drop_last(),
            ));
        } else {
            assert(head.push(body.last()).drop_last() =~= head);
        }
    }
}

/// The first of fresh identifiers are fresh.
pub proof fn lemma_fresh_prefix(ids: Seq<IdentifierView>, n: int, v: VersionsView, w: VersionsView)
    requires
        fresh(ids, v, w),
        0 <= n <= ids.len(),
    ensures
        fresh(ids.take(n), v, w),
        ids.take(n).to_set().subset_of(ids.to_set()),
{
    let head = ids.take(n);
    assert forall|i: int| 0 <= i < head.len() implies above(#[trigger] head[i], v) && within(
        head[i],
        w,
    ) by {
        assert(head[i] == ids[i]);
    }
    assert forall|i: int, j: int| 0 <= i < j < head.len() implies head[i] != head[j] by {
        assert(head[i] == ids[i] && head[j] == ids[j]);
    }
    assert forall|id: IdentifierView| head.to_set().contains(id) implies ids.to_set().contains(
        id,
    ) by {
        let i = choose|i: int| 0 <= i < head.len() && head[i] == id;
        assert(ids[i] == id);
    }
}

/// Loops keep their gaps when fewer identifiers are defined.
pub proof fn lemma_gaps_subset(
    l: Seq<VersionsView>,
    v: VersionsView,
    big: Set<IdentifierView>,
    small: Set<IdentifierView>,
)
    requires
        gaps(l, v, big),
        small.subset_of(big),
    ensures
        gaps(l, v, small),
{
    assert forall|i: int| 0 <= i < l.len() implies gap(#[trigger] l[i], v, small) by {
        assert(gap(l[i], v, big));
    }
}

/// What inlining a function defines is fresh, the versions grow, and the
/// loops that it leaves have their gaps.
pub proof fn lemma_inline_function_fresh(
    f: FunctionView,
    key: FunctionKeyView,
    assignment: AssignmentView,
    args: Seq<ExpressionView>,
    types: Seq<TypeView>,
    cache: CacheView,
    versions: VersionsView,
    used: Set<IdentifierView>,
)
    requires
        all_within(used, versions),
    ensures
        ({
            let o = inline_function(f, key, assignment, args, types, cache, versions);
            &&& grown(versions, o.versions)
            &&& match o.result {
                Ok(inlined) => {
                    &&& fresh(definitions(inlined.statements), versions, o.versions)
                    &&& match inlined.backups {
                        Some(b) => gaps(b, o.versions, used + definitions(inlined.statements).to_set()),
                        None => true,
                    }
                },
                Err(_) => true,
            }
        }),
{
    let start = shallow_start(versions);
    match ssa_function(f, assignment, versions) {
        None => {},
        Some((t, g)) => {
            lemma_define_all_fresh(start, f.arguments);
            let (t1, arguments) = define_all(start, f.arguments).unwrap();
            let a = identifiers(arguments);
            let used1 = used + a.to_set();
            lemma_within_grow(used, a, versions, t1.versions);
            assert(gaps(t1.backups, t1.versions, used1));
            lemma_ssa_statements_fresh(t1, generic_definitions(assignment) + f.statements, used1);
            let b = definitions(g.statements);
            lemma_grown_trans(versions, t1.versions, t.versions);
            let returned = returned_values(g.statements);
            if returned.len() == 1 && returned[0].len() == types.len() {
                lemma_call_slots_fresh(t.versions, types);
                match call_slots(t.versions, types) {
                    None => {},
                    Some((v2, slots)) => {
                        lemma_grown_trans(versions, t.versions, v2);
                        let c = identifiers(slots);
                        let inputs = input_bindings(g.arguments, args);
                        let body = non_returns(g.statements);
                        let outputs = output_bindings(slots, returned[0]);
                        let push = seq![StatementView::PushCallLog(key, assignment)];
                        let pop = seq![StatementView::PopCallLog];
                        let n = inputs.len() as int;
                        lemma_definitions_pointwise(inputs, a.take(n));
                        lemma_definitions_non_returns(g.statements);
                        lemma_definitions_pointwise(outputs, c);
                        lemma_definitions_single(push[0]);
                        lemma_definitions_single(pop[0]);
                        assert(push =~= seq![push[0]]);
                        assert(pop =~= seq![pop[0]]);
                        let all = push + inputs + body + outputs + pop;
                        lemma_definitions_concat(push + inputs + body + outputs, pop);
                        lemma_definitions_concat(push + inputs + body, outputs);
                        lemma_definitions_concat(push + inputs, body);
                        lemma_definitions_concat(push, inputs);
                        assert(definitions(all) =~= a.take(n) + b + c);
                        lemma_fresh_prefix(a, n, versions, t1.versions);
                        lemma_fresh_concat(a.take(n), b, versions, t1.versions, t.versions);
                        lemma_fresh_concat(a.take(n) + b, c, versions, t.versions, v2);
                        // the loops that are left
                        let used2 = used1 + b.to_set();
                        lemma_within_grow(used1, b, t1.versions, t.versions);
                        lemma_gaps_grow(t.backups, used2, c, t.versions, v2);
                        lemma_to_set_concat(a.take(n) + b, c);
                        lemma_to_set_concat(a.take(n), b);
                        assert((used + definitions(all).to_set()).subset_of(used2 + c.to_set()));
                        lemma_gaps_subset(
                            t.backups,
                            v2,
                            used2 + c.to_set(),
                            used + definitions(all).to_set(),
                        );
                    },
                }
            }
        },
    }
}

/// What inlining a call defines is fresh, the versions grow, and the loops
/// that it leaves have their gaps.
pub proof fn lemma_inlining_fresh(
    key: FunctionKeyView,
    args: Seq<ExpressionView>,
    types: Seq<TypeView>,
    p: ProgramView,
    cache: CacheView,
    versions: VersionsView,
    used: Set<IdentifierView>,
)
    requires
        all_within(used, versions),
    ensures
        ({
            let o = inlining(key, args, types, p, cache, versions);
            &&& grown(versions, o.versions)
            &&& match o.result {
                Ok(inlined) => {
                    &&& fresh(definitions(inlined.statements), versions, o.versions)
                    &&& match inlined.backups {
                        Some(b) => gaps(b, o.versions, used + definitions(inlined.statements).to_set()),
                        None => true,
                    }
                },
                Err(_) => true,
            }
        }),
{
    match resolve(p, key) {
        Some(SymbolView::Here(f)) => {
            let concrete = concrete_key(key, args, types);
            match specialize(key.signature, concrete.signature) {
                None => {},
                Some(assignment) => {
                    lemma_inline_function_fresh(
                        f,
                        key,
                        assignment,
                        args,
                        types,
                        cache,
                        versions,
                        used,
                    );
                },
            }
        },
        _ => {},
    }
}

/// What a pass keeps true of its reducer, where `base_used` are the
/// identifiers defined outside the buffer and `base` the versions when the
/// buffer was empty: every definition is within the versions, the loops
/// recorded have their gaps, the versions that the substitution rewrites
/// are not defined, and the definitions in the buffer are fresh since
/// `base`.
pub open spec fn versioned(
    st: ReducerView,
    base_used: Set<IdentifierView>,
    base: VersionsView,
) -> bool {
    let used = base_used + definitions(st.buffer).to_set();
    &&& all_within(used, st.versions)
    &&& gaps(st.pending, st.versions, used)
    &&& gaps(st.after, st.versions, used)
    &&& avoided(st.substitutions, st.versions, used)
    &&& fresh(definitions(st.buffer), base, st.versions)
    &&& grown(base, st.versions)
}

/// The reducer stays versioned when the versions grow and fresh
/// definitions come into the buffer.
pub proof fn lemma_versioned_step(
    st: ReducerView,
    st1: ReducerView,
    more: Seq<StatementView>,
    base_used: Set<IdentifierView>,
    base: VersionsView,
)
    requires
        versioned(st, base_used, base),
        st1.buffer == st.buffer + more,
        st1.pending == st.pending,
        st1.after == st.after,
        st1.substitutions == st.substitutions,
        grown(st.versions, st1.versions),
        fresh(definitions(more), st.versions, st1.versions),
    ensures
        versioned(st1, base_used, base),
{
    let used = base_used + definitions(st.buffer).to_set();
    let ids = definitions(more);
    lemma_definitions_concat(st.buffer, more);
    lemma_to_set_concat(definitions(st.buffer), ids);
    assert(base_used + definitions(st1.buffer).to_set() =~= used + ids.to_set());
    lemma_within_grow(used, ids, st.versions, st1.versions);
    lemma_gaps_grow(st.pending, used, ids, st.versions, st1.versions);
    lemma_gaps_grow(st.after, used, ids, st.versions, st1.versions);
    lemma_avoided_grow(st.substitutions, used, ids, st.versions, st1.versions);
    lemma_fresh_concat(definitions(st.buffer), ids, base, st.versions, st1.versions);
    lemma_grown_trans(base, st.versions, st1.versions);
}

/// Loops recorded one after the other have their gaps where both parts
/// have.
pub proof fn lemma_gaps_concat(
    a: Seq<VersionsView>,
    b: Seq<VersionsView>,
    v: VersionsView,
    used: Set<IdentifierView>,
)
    requires
        gaps(a, v, used),
        gaps(b, v, used),
    ensures
        gaps(a + b, v, used),
{
    assert forall|i: int| 0 <= i < (a + b).len() implies gap(#[trigger] (a + b)[i], v, used) by {
        if i < a.len() {
            assert((a + b)[i] == a[i]);
        } else {
            assert((a + b)[i] == b[i - a.len()]);
        }
    }
}

/// Folding a call keeps the reducer versioned.
pub proof fn lemma_reduce_call_versions(
    st: ReducerView,
    key: FunctionKeyView,
    args: Seq<ExpressionView>,
    ty: TypeView,
    base_used: Set<IdentifierView>,
    base: VersionsView,
)
    requires
        versioned(st, base_used, base),
    ensures
        match reduce_call(st, key, args, ty) {
            Err(_) => true,
            Ok((st1, _)) => {
                &&& versioned(st1, base_used, base)
                &&& grown(st.versions, st1.versions)
                &&& st1.pending == st.pending
                &&& st1.substitutions == st.substitutions
                &&& st1.program == st.program
            },
        },
{
    let used = base_used + definitions(st.buffer).to_set();
    let o = inlining(key, args, seq![ty], st.program, st.cache, st.versions);
    lemma_inlining_fresh(key, args, seq![ty], st.program, st.cache, st.versions, used);
    let none = Seq::<StatementView>::empty();
    assert(st.buffer + none =~= st.buffer);
    lemma_fresh_empty(st.versions, o.versions);
    match reduce_call(st, key, args, ty) {
        Err(_) => {},
        Ok((st1, _)) => {
            match o.result {
                Ok(inlined) => {
                    let mid = ReducerView { after: st.after, ..st1 };
                    lemma_versioned_step(st, mid, inlined.statements, base_used, base);
                    match inlined.backups {
                        None => {},
                        Some(b) => {
                            lemma_definitions_concat(st.buffer, inlined.statements);
                            lemma_to_set_concat(
                                definitions(st.buffer),
                                definitions(inlined.statements),
                            );
                            let used1 = base_used + definitions(st1.buffer).to_set();
                            assert(used1 =~= used + definitions(inlined.statements).to_set());
                            lemma_gaps_concat(st.after, b, st1.versions, used1);
                        },
                    }
                },
                Err(InlineErrorView::Flat(embed, a, t)) => {
                    let id = CoreIdentifierView::Call(0);
                    let n = next_version(o.versions, id).unwrap();
                    let slot = IdentifierView { id, version: n };
                    let call = StatementView::MultipleDefinition(
                        seq![VariableView { id: slot, ty }],
                        embed_key(embed, st.program.main),
                        a,
                        t,
                    );
                    assert(st.buffer.push(call) =~= st.buffer + seq![call]);
                    lemma_definitions_single(call);
                    assert(identifiers(seq![VariableView { id: slot, ty }]) =~= seq![slot]);
                    assert(fresh(seq![slot], st.versions, st1.versions));
                    lemma_versioned_step(st, st1, seq![call], base_used, base);
                },
                _ => {
                    lemma_versioned_step(st, st1, none, base_used, base);
                },
            }
        },
    }
}

/// Folding an expression keeps the reducer versioned.
pub proof fn lemma_reduce_expression_versions(
    st: ReducerView,
    e: ExpressionView,
    base_used: Set<IdentifierView>,
    base: VersionsView,
)
    requires
        versioned(st, base_used, base),
    ensures
        match reduce_expression(st, e) {
            Err(_) => true,
            Ok((st1, _)) => {
                &&& versioned(st1, base_used, base)
                &&& grown(st.versions, st1.versions)
                &&& st1.pending == st.pending
                &&& st1.substitutions == st.substitutions
                &&& st1.program == st.program
            },
        },
    decreases e,
{
    match e.inner {
        ExpressionInnerView::FunctionCall(key, args) => {
            lemma_reduce_expressions_versions(st, args, base_used, base);
            match reduce_expressions(st, args) {
                Err(_) => {},
                Ok((st1, args1)) => {
                    lemma_reduce_call_versions(st1, key, args1, e.ty, base_used, base);
                    match reduce_call(st1, key, args1, e.ty) {
                        Err(_) => {},
                        Ok((st2, _)) => {
                            lemma_grown_trans(st.versions, st1.versions, st2.versions);
                        },
                    }
                },
            }
        },
        ExpressionInnerView::Values(es) => {
            lemma_reduce_expressions_versions(st, es, base_used, base);
        },
        ExpressionInnerView::Operation(_, es) => {
            lemma_reduce_expressions_versions(st, es, base_used, base);
        },
        _ => {},
    }
}

/// Folding expressions keeps the reducer versioned.
pub proof fn lemma_reduce_expressions_versions(
    st: ReducerView,
    es: Seq<ExpressionView>,
    base_used: Set<IdentifierView>,
    base: VersionsView,
)
    requires
        versioned(st, base_used, base),
    ensures
        match reduce_expressions(st, es) {
            Err(_) => true,
            Ok((st1, _)) => {
                &&& versioned(st1, base_used, base)
                &&& grown(st.versions, st1.versions)
                &&& st1.pending == st.pending
                &&& st1.substitutions == st.substitutions
                &&& st1.program == st.program
            },
        },
    decreases es,
{
    if es.len() > 0 {
        lemma_reduce_expressions_versions(st, es.drop_last(), base_used, base);
        match reduce_expressions(st, es.drop_last()) {
            Err(_) => {},
            Ok((st1, _)) => {
                lemma_reduce_expression_versions(st1, es.last(), base_used, base);
                match reduce_expression(st1, es.last()) {
                    Err(_) => {},
                    Ok((st2, _)) => {
                        lemma_grown_trans(st.versions, st1.versions, st2.versions);
                    },
                }
            },
        }
    }
}

/// The reducer stays versioned when the versions grow and fresh
/// definitions are made outside the buffer.
pub proof fn lemma_versioned_outside(
    st: ReducerView,
    st1: ReducerView,
    ids: Seq<IdentifierView>,
    base_used: Set<IdentifierView>,
    base: VersionsView,
)
    requires
        versioned(st, base_used, base),
        st1.buffer == st.buffer,
        st1.pending == st.pending,
        st1.after == st.after,
        st1.substitutions == st.substitutions,
        grown(st.versions, st1.versions),
        fresh(ids, st.versions, st1.versions),
    ensures
        versioned(st1, base_used + ids.to_set(), base),
{
    let used = base_used + definitions(st.buffer).to_set();
    assert(base_used + ids.to_set() + definitions(st1.buffer).to_set() =~= used + ids.to_set());
    lemma_within_grow(used, ids, st.versions, st1.versions);
    lemma_gaps_grow(st.pending, used, ids, st.versions, st1.versions);
    lemma_gaps_grow(st.after, used, ids, st.versions, st1.versions);
    lemma_avoided_grow(st.substitutions, used, ids, st.versions, st1.versions);
    lemma_fresh_widen(definitions(st.buffer), base, base, st.versions, st1.versions);
    lemma_grown_trans(base, st.versions, st1.versions);
}

/// Whether a body defines fresh identifiers first and then the given ones.
pub open spec fn extends(
    out: Seq<StatementView>,
    own: Seq<IdentifierView>,
    v: VersionsView,
    w: VersionsView,
) -> bool {
    let d = definitions(out);
    &&& d.len() >= own.len()
    &&& d.skip(d.len() - own.len()) == own
    &&& fresh(d.take(d.len() - own.len()), v, w)
}

/// A body that defines fresh identifiers and then the given ones extends
/// these.
pub proof fn lemma_extends(
    out: Seq<StatementView>,
    front: Seq<IdentifierView>,
    own: Seq<IdentifierView>,
    v: VersionsView,
    w: VersionsView,
)
    requires
        definitions(out) == front + own,
        fresh(front, v, w),
    ensures
        extends(out, own, v, w),
        definitions(out).to_set() == front.to_set() + own.to_set(),
{
    let d = front + own;
    assert(d.skip(d.len() - own.len()) =~= own);
    assert(d.take(d.len() - own.len()) =~= front);
    lemma_to_set_concat(front, own);
}

/// The definitions that assign the results of a call define the variables
/// of the call statement.
pub proof fn lemma_result_definitions(vars: Seq<VariableView>, results: Seq<ExpressionView>)
    ensures
        definitions(result_definitions(vars, results)) == identifiers(vars),
{
    lemma_definitions_pointwise(result_definitions(vars, results), identifiers(vars));
}

/// Folding a call statement keeps the reducer versioned, and what it
/// becomes defines fresh identifiers and then the variables of the
/// statement.
pub proof fn lemma_reduce_call_statement_versions(
    st: ReducerView,
    vars: Seq<VariableView>,
    key: FunctionKeyView,
    args: Seq<ExpressionView>,
    types: Seq<TypeView>,
    base_used: Set<IdentifierView>,
    base: VersionsView,
)
    requires
        versioned(st, base_used, base),
        identifiers(vars).to_set().subset_of(base_used),
    ensures
        match reduce_call_statement(st, vars, key, args, types) {
            Err(_) => true,
            Ok((st1, out)) => {
                &&& extends(out, identifiers(vars), st.versions, st1.versions)
                &&& grown(st.versions, st1.versions)
                &&& st1.buffer == st.buffer
                &&& st1.program == st.program
                &&& versioned(st1, base_used + definitions(out).to_set(), base)
            },
        },
{
    let own = identifiers(vars);
    let used = base_used + definitions(st.buffer).to_set();
    let none = Seq::<IdentifierView>::empty();
    match reduce_call_statement(st, vars, key, args, types) {
        Err(_) => {},
        Ok((st1, out)) => {
            let o = inlining(key, args, types, st.program, st.cache, st.versions);
            lemma_inlining_fresh(key, args, types, st.program, st.cache, st.versions, used);
            lemma_fresh_empty(st.versions, st1.versions);
            if o.result is Ok {
                let inlined = o.result->Ok_0;
                let front = definitions(inlined.statements);
                // the results are assigned, or the statement stays: the
                // variables of the statement are defined either way
                let kept = StatementView::MultipleDefinition(vars, key, args, types);
                let rest = if vars.len() == inlined.expressions.len() {
                    result_definitions(vars, inlined.expressions)
                } else {
                    seq![kept]
                };
                lemma_result_definitions(vars, inlined.expressions);
                lemma_definitions_single(kept);
                assert(definitions(rest) == own);
                lemma_definitions_concat(inlined.statements, rest);
                lemma_extends(out, front, own, st.versions, st1.versions);
                let mid = ReducerView { after: st.after, ..st1 };
                lemma_versioned_outside(st, mid, front, base_used, base);
                assert(base_used + definitions(out).to_set() =~= base_used + front.to_set());
                match inlined.backups {
                    None => {},
                    Some(b) => {
                        let used1 = base_used + definitions(out).to_set() + definitions(
                            st1.buffer,
                        ).to_set();
                        assert(used1 =~= used + front.to_set());
                        lemma_gaps_concat(st.after, b, st1.versions, used1);
                    },
                }
            } else {
                // the statement stays, with the same variables
                lemma_definitions_single(out[0]);
                assert(out =~= seq![out[0]]);
                assert(definitions(out) =~= none + own);
                lemma_extends(out, none, own, st.versions, st1.versions);
                lemma_versioned_outside(st, st1, none, base_used, base);
                assert(base_used + definitions(out).to_set() =~= base_used + none.to_set());
            }
        },
    }
}

/// Rewriting the versions of one map to those of another keeps what the
/// substitution rewrites reached and not defined, where the versions of
/// the first map are.
pub proof fn lemma_registered_avoided(
    s: SubstitutionsView,
    from: VersionsView,
    to: VersionsView,
    v: VersionsView,
    used: Set<IdentifierView>,
)
    requires
        avoided(s, v, used),
        forall|x: CoreIdentifierView| #[trigger]
            from.contains_key(x) && to.contains_key(x) ==> {
                &&& v.contains_key(x)
                &&& from[x] <= v[x]
                &&& !used.contains(IdentifierView { id: x, version: from[x] })
            },
    ensures
        avoided(registered(s, from, to), v, used),
{
    let r = registered(s, from, to);
    assert forall|x: CoreIdentifierView, k: usize|
        r.contains_key(x) && #[trigger] r[x].contains_key(k) implies {
        &&& v.contains_key(x)
        &&& k <= v[x]
        &&& !used.contains(IdentifierView { id: x, version: k })
    } by {
        if differs(from, to, x) {
            let sub = redirects_of(s, x);
            if k != from[x] {
                assert(sub.contains_key(k));
                assert(s.contains_key(x) && s[x].contains_key(k));
            } else {
                assert(from.contains_key(x) && to.contains_key(x));
            }
        } else {
            assert(s.contains_key(x) && s[x].contains_key(k));
        }
    }
}

/// Folding a loop keeps the reducer versioned, and what it becomes defines
/// fresh identifiers.
pub proof fn lemma_reduce_loop_versions(
    st: ReducerView,
    v: VariableView,
    from: ExpressionView,
    to: ExpressionView,
    body: Seq<StatementView>,
    base_used: Set<IdentifierView>,
    base: VersionsView,
)
    requires
        versioned(st, base_used, base),
        st.pending.len() > 0,
    ensures
        match reduce_loop(st, v, from, to, body) {
            Err(_) => true,
            Ok((st1, out)) => {
                &&& fresh(definitions(out), st.versions, st1.versions)
                &&& grown(st.versions, st1.versions)
                &&& st1.buffer == st.buffer
                &&& st1.program == st.program
                &&& versioned(st1, base_used + definitions(out).to_set(), base)
            },
        },
{
    let used = base_used + definitions(st.buffer).to_set();
    let none = Seq::<IdentifierView>::empty();
    match reduce_loop(st, v, from, to, body) {
        Err(_) => {},
        Ok((st1, out)) => {
            let unrolled = literal_bounds(from, to) is Some;
            if !unrolled {
                lemma_definitions_single(out[0]);
                assert(out =~= seq![out[0]]);
                assert(definitions(out) =~= none);
                lemma_fresh_empty(st.versions, st1.versions);
                assert(base_used + definitions(out).to_set() + definitions(st1.buffer).to_set()
                    =~= used);
                {
                    let before = st.pending.first();
                    assert(gap(before, st.versions, used));
                    assert forall|i: int| 0 <= i < st1.pending.len() implies gap(
                        #[trigger] st1.pending[i],
                        st.versions,
                        used,
                    ) by {
                        assert(st1.pending[i] == st.pending[i + 1]);
                    }
                    assert forall|i: int| 0 <= i < st1.after.len() implies gap(
                        #[trigger] st1.after[i],
                        st.versions,
                        used,
                    ) by {
                        if i < st.after.len() {
                            assert(st1.after[i] == st.after[i]);
                        }
                    }
                }
            } else {
                let lo = literal_bounds(from, to).unwrap().0;
                let hi = literal_bounds(from, to).unwrap().1;
                let before = st.pending.first();
                let now = shifted(st.versions, 1);
                let after = shifted(before, 2);
                let s1 = registered(st.substitutions, now, before);
                assert(grown(st.versions, now));
                assert(gap(before, st.versions, used));
                // the versions raised by one are new
                assert(all_within(used, now)) by {
                    assert forall|id: IdentifierView| #[trigger] used.contains(id) implies within(
                        id,
                        now,
                    ) by {
                        assert(within(id, st.versions));
                    }
                }
                lemma_fresh_empty(st.versions, now);
                assert(used + none.to_set() =~= used);
                lemma_avoided_grow(st.substitutions, used, none, st.versions, now);
                assert forall|x: CoreIdentifierView| #[trigger]
                    now.contains_key(x) && before.contains_key(x) implies {
                    &&& now.contains_key(x)
                    &&& now[x] <= now[x]
                    &&& !used.contains(IdentifierView { id: x, version: now[x] })
                } by {
                    let id = IdentifierView { id: x, version: now[x] };
                    if used.contains(id) {
                        assert(within(id, st.versions));
                    }
                }
                lemma_registered_avoided(st.substitutions, now, before, now, used);
                // the rounds
                let start = shallow_start(now);
                lemma_unroll_fresh(start, v, lo, hi, body, used);
                let (t, rounds) = unroll(start, v, lo, hi, body).unwrap();
                let ids = definitions(rounds);
                let used1 = used + ids.to_set();
                lemma_fresh_widen(ids, st.versions, now, t.versions, t.versions);
                lemma_grown_trans(st.versions, now, t.versions);
                lemma_within_grow(used, ids, now, t.versions);
                lemma_avoided_grow(s1, used, ids, now, t.versions);
                lemma_gaps_grow(st.pending, used, ids, st.versions, t.versions);
                lemma_gaps_grow(st.after, used, ids, st.versions, t.versions);
                assert(gap(before, t.versions, used1));
                assert forall|x: CoreIdentifierView| #[trigger]
                    after.contains_key(x) && t.versions.contains_key(x) implies {
                    &&& t.versions.contains_key(x)
                    &&& after[x] <= t.versions[x]
                    &&& !used1.contains(IdentifierView { id: x, version: after[x] })
                } by {
                    assert(before.contains_key(x));
                    assert(before[x] + 2 <= usize::MAX);
                }
                lemma_registered_avoided(s1, after, t.versions, t.versions, used1);
                assert(base_used + definitions(out).to_set() + definitions(st1.buffer).to_set()
                    =~= used1);
                assert forall|i: int| 0 <= i < st1.pending.len() implies gap(
                    #[trigger] st1.pending[i],
                    t.versions,
                    used1,
                ) by {
                    assert(st1.pending[i] == st.pending[i + 1]);
                }
                lemma_gaps_concat(st.after, t.backups, t.versions, used1);
                lemma_fresh_widen(definitions(st.buffer), base, base, st.versions, t.versions);
                lemma_grown_trans(base, st.versions, t.versions);
            }
        },
    }
}

/// The statements that stand for a statement after the pass define fresh
/// identifiers and then what the statement defined, and the reducer stays
/// versioned.
pub proof fn lemma_reduce_statement_versions(
    st: ReducerView,
    s: StatementView,
    base_used: Set<IdentifierView>,
)
    requires
        st.buffer == Seq::<StatementView>::empty(),
        versioned(st, base_used, st.versions),
        defined(s).to_set().subset_of(base_used),
        supplied(st, s),
    ensures
        match reduce_statement(st, s) {
            Err(_) => true,
            Ok((st1, out)) => {
                &&& extends(out, defined(s), st.versions, st1.versions)
                &&& grown(st.versions, st1.versions)
                &&& st1.buffer == Seq::<StatementView>::empty()
                &&& st1.program == st.program
                &&& versioned(st1, base_used + definitions(out).to_set(), st1.versions)
            },
        },
{
    let base = st.versions;
    let own = defined(s);
    match reduce_statement_inner(st, s) {
        Err(_) => {},
        Ok((st1, res)) => {
            let out = st1.buffer + res;
            let st2 = ReducerView { buffer: Seq::empty(), ..st1 };
            let in_buffer = definitions(st1.buffer);
            // what the statement itself became: fresh definitions, then its own
            let front: Seq<IdentifierView>;
            let mid: VersionsView;
            match s {
                StatementView::MultipleDefinition(vars, key, args, types) => {
                    lemma_reduce_expressions_versions(st, args, base_used, base);
                    let folded = reduce_expressions(st, args)->Ok_0;
                    let st0 = folded.0;
                    let args1 = folded.1;
                    lemma_reduce_call_statement_versions(
                        st0,
                        vars,
                        key,
                        args1,
                        types,
                        base_used,
                        base,
                    );
                    let d = definitions(res);
                    front = d.take(d.len() - own.len());
                    mid = st0.versions;
                    assert(d =~= front + own);
                    lemma_to_set_concat(front, own);
                    lemma_grown_trans(st.versions, st0.versions, st1.versions);
                },
                StatementView::For(v, from, to, body) => {
                    assert(st.pending.len() > 0);
                    lemma_reduce_loop_versions(st, v, from, to, body, base_used, base);
                    front = definitions(res);
                    mid = st.versions;
                    assert(definitions(res) =~= front + own);
                },
                StatementView::Definition(v, e) => {
                    lemma_reduce_expression_versions(st, e, base_used, base);
                    front = Seq::empty();
                    mid = st1.versions;
                    lemma_definitions_single(res[0]);
                    assert(res =~= seq![res[0]]);
                    assert(definitions(res) =~= front + own);
                    lemma_fresh_empty(mid, st1.versions);
                    assert(base_used + definitions(res).to_set() =~= base_used);
                },
                StatementView::Return(es) => {
                    lemma_reduce_expressions_versions(st, es, base_used, base);
                    front = Seq::empty();
                    mid = st1.versions;
                    lemma_definitions_single(res[0]);
                    assert(res =~= seq![res[0]]);
                    assert(definitions(res) =~= front + own);
                    lemma_fresh_empty(mid, st1.versions);
                    assert(base_used + definitions(res).to_set() =~= base_used);
                },
                _ => {
                    front = Seq::empty();
                    mid = st1.versions;
                    lemma_definitions_single(res[0]);
                    assert(res =~= seq![res[0]]);
                    assert(definitions(res) =~= front + own);
                    lemma_fresh_empty(mid, st1.versions);
                    assert(base_used + definitions(res).to_set() =~= base_used);
                },
            }
            assert(versioned(st1, base_used + definitions(res).to_set(), base));
            assert(fresh(in_buffer, base, st1.versions));
            assert(fresh(front, mid, st1.versions));
            assert(grown(base, mid));
            // the buffer was filled before the statement became what it is
            lemma_definitions_concat(st1.buffer, res);
            lemma_to_set_concat(in_buffer, definitions(res));
            lemma_fresh_joined(in_buffer, front, base, mid, st1.versions, base_used + definitions(
                res,
            ).to_set());
            assert(definitions(out) =~= (in_buffer + front) + own);
            lemma_extends(out, in_buffer + front, own, st.versions, st1.versions);
            assert(base_used + definitions(out).to_set() + definitions(st2.buffer).to_set()
                =~= base_used + definitions(res).to_set() + in_buffer.to_set());
            lemma_fresh_empty(st1.versions, st1.versions);
        },
    }
}

/// Fresh identifiers in the buffer and fresh identifiers that came after
/// the versions `mid` are fresh together, where those of the buffer are all
/// defined and the later ones are not among the defined ones of the buffer.
pub proof fn lemma_fresh_joined(
    a: Seq<IdentifierView>,
    b: Seq<IdentifierView>,
    base: VersionsView,
    mid: VersionsView,
    w: VersionsView,
    used: Set<IdentifierView>,
)
    requires
        fresh(a, base, w),
        fresh(b, mid, w),
        grown(base, mid),
        forall|i: int, j: int| 0 <= i < a.len() && 0 <= j < b.len() ==> a[i] != b[j],
    ensures
        fresh(a + b, base, w),
{
    let all = a + b;
    assert forall|i: int| 0 <= i < all.len() implies above(#[trigger] all[i], base) && within(
        all[i],
        w,
    ) by {
        if i < a.len() {
            assert(all[i] == a[i]);
        } else {
            let id = b[i - a.len()];
            assert(all[i] == id);
            assert(above(id, mid));
            if base.contains_key(id.id) {
                assert(mid.contains_key(id.id));
            }
        }
    }
    assert forall|i: int, j: int| 0 <= i < j < all.len() implies all[i] != all[j] by {
        if j < a.len() {
            assert(all[i] == a[i] && all[j] == a[j]);
        } else if i >= a.len() {
            assert(all[i] == b[i - a.len()] && all[j] == b[j - a.len()]);
        } else {
            assert(all[i] == a[i] && all[j] == b[j - a.len()]);
        }
    }
}

/// Identifiers that are pairwise different in three parts, with no
/// identifier in two parts, are pairwise different together.
pub proof fn lemma_no_duplicates_three(
    a: Seq<IdentifierView>,
    b: Seq<IdentifierView>,
    c: Seq<IdentifierView>,
)
    requires
        a.no_duplicates(),
        b.no_duplicates(),
        c.no_duplicates(),
        forall|i: int, j: int| 0 <= i < a.len() && 0 <= j < b.len() ==> a[i] != b[j],
        forall|i: int, j: int| 0 <= i < a.len() && 0 <= j < c.len() ==> a[i] != c[j],
        forall|i: int, j: int| 0 <= i < b.len() && 0 <= j < c.len() ==> b[i] != c[j],
    ensures
        (a + b + c).no_duplicates(),
{
    let all = a + b + c;
    assert forall|i: int, j: int| 0 <= i < j < all.len() implies all[i] != all[j] by {
        let n = a.len();
        let m = a.len() + b.len();
        let x = if i < n {
            a[i]
        } else if i < m {
            b[i - n]
        } else {
            c[i - m]
        };
        let y = if j < n {
            a[j]
        } else if j < m {
            b[j - n]
        } else {
            c[j - m]
        };
        assert(all[i] == x);
        assert(all[j] == y);
    }
}

/// The definitions after one more statement are pairwise different: those
/// that were there, the fresh ones, and those of the statement.
pub proof fn lemma_step_no_duplicates(
    d1: Seq<IdentifierView>,
    front: Seq<IdentifierView>,
    own: Seq<IdentifierView>,
    done: Seq<IdentifierView>,
    rest: Seq<IdentifierView>,
    v0: VersionsView,
    v1: VersionsView,
    v2: VersionsView,
)
    requires
        d1.no_duplicates(),
        (done + own + rest).no_duplicates(),
        fresh(front, v1, v2),
        forall|i: int| 0 <= i < d1.len() ==> within(#[trigger] d1[i], v1),
        forall|i: int| 0 <= i < own.len() ==> within(#[trigger] own[i], v1) && within(own[i], v0),
        forall|i: int| 0 <= i < d1.len() ==> done.contains(#[trigger] d1[i]) || above(d1[i], v0),
    ensures
        (d1 + front + own).no_duplicates(),
{
    let whole = done + own + rest;
    assert forall|i: int, j: int| 0 <= i < d1.len() && 0 <= j < front.len() implies d1[i]
        != front[j] by {
        assert(within(d1[i], v1));
        assert(above(front[j], v1));
    }
    assert forall|i: int, j: int| 0 <= i < front.len() && 0 <= j < own.len() implies front[i]
        != own[j] by {
        assert(within(own[j], v1));
        assert(above(front[i], v1));
    }
    assert forall|i: int, j: int| 0 <= i < d1.len() && 0 <= j < own.len() implies d1[i] != own[j] by {
        assert(whole[done.len() + j] == own[j]);
        if done.contains(d1[i]) {
            let n = choose|n: int| 0 <= n < done.len() && done[n] == d1[i];
            assert(whole[n] == done[n]);
        } else {
            assert(above(d1[i], v0));
            assert(within(own[j], v0));
        }
    }
    assert(own.no_duplicates()) by {
        assert forall|i: int, j: int| 0 <= i < j < own.len() implies own[i] != own[j] by {
            assert(whole[done.len() + i] == own[i]);
            assert(whole[done.len() + j] == own[j]);
        }
    }
    lemma_no_duplicates_three(d1, front, own);
}

/// The definitions after one more statement are those of the statements
/// done, or new since the pass began.
pub proof fn lemma_step_origin(
    d1: Seq<IdentifierView>,
    front: Seq<IdentifierView>,
    own: Seq<IdentifierView>,
    done: Seq<IdentifierView>,
    v0: VersionsView,
    v1: VersionsView,
    v2: VersionsView,
)
    requires
        fresh(front, v1, v2),
        grown(v0, v1),
        forall|i: int| 0 <= i < d1.len() ==> done.contains(#[trigger] d1[i]) || above(d1[i], v0),
    ensures
        forall|i: int|
            0 <= i < (d1 + front + own).len() ==> (done + own).contains(
                #[trigger] (d1 + front + own)[i],
            ) || above((d1 + front + own)[i], v0),
{
    let all = d1 + front + own;
    assert forall|i: int| 0 <= i < all.len() implies (done + own).contains(#[trigger] all[i])
        || above(all[i], v0) by {
        let id = all[i];
        if i < d1.len() {
            assert(id == d1[i]);
            if done.contains(id) {
                let n = choose|n: int| 0 <= n < done.len() && done[n] == id;
                assert((done + own)[n] == id);
            }
        } else if i < d1.len() + front.len() {
            assert(id == front[i - d1.len()]);
            assert(above(id, v1));
            if v0.contains_key(id.id) {
                assert(v1.contains_key(id.id));
            }
        } else {
            let j = i - d1.len() - front.len();
            assert(id == own[j]);
            assert((done + own)[done.len() + j] == id);
        }
    }
}

/// A pass over the first statements of a body in single-assignment form
/// leaves a body in single-assignment form, whose definitions are those of
/// the statements or new, and a versioned reducer. `extra` are identifiers
/// that are defined outside the body, as the parameters are.
pub proof fn lemma_reduce_statements_versions(
    st0: ReducerView,
    whole: Seq<StatementView>,
    k: int,
    extra: Set<IdentifierView>,
)
    requires
        0 <= k <= whole.len(),
        st0.buffer == Seq::<StatementView>::empty(),
        st0.pending.len() >= loops(whole),
        single_assignment(whole),
        versioned(st0, definitions(whole).to_set() + extra, st0.versions),
    ensures
        match reduce_statements(st0, whole.take(k)) {
            Err(_) => true,
            Ok((st, out)) => {
                &&& st.buffer == Seq::<StatementView>::empty()
                &&& st.program == st0.program
                &&& grown(st0.versions, st.versions)
                &&& single_assignment(out)
                &&& forall|i: int|
                    0 <= i < definitions(out).len() ==> definitions(whole.take(k)).contains(
                        #[trigger] definitions(out)[i],
                    ) || above(definitions(out)[i], st0.versions)
                &&& versioned(
                    st,
                    definitions(whole).to_set() + extra + definitions(out).to_set(),
                    st.versions,
                )
            },
        },
    decreases k,
{
    let all = definitions(whole).to_set() + extra;
    if k == 0 {
        assert(whole.take(0) =~= Seq::empty());
        assert(all + Seq::<IdentifierView>::empty().to_set() =~= all);
    } else {
        let body = whole.take(k);
        let s = whole[k - 1];
        assert(body.drop_last() =~= whole.take(k - 1));
        assert(body.last() == s);
        lemma_reduce_statements_versions(st0, whole, k - 1, extra);
        match reduce_statements(st0, whole.take(k - 1)) {
            Err(_) => {},
            Ok((st1, out1)) => {
                let own = defined(s);
                let done = definitions(whole.take(k - 1));
                let used = all + definitions(out1).to_set();
                assert(whole =~= whole.take(k) + whole.skip(k));
                lemma_definitions_concat(whole.take(k), whole.skip(k));
                let rest = definitions(whole.skip(k));
                assert(definitions(whole) == done + own + rest);
                lemma_to_set_concat(done + own, rest);
                lemma_to_set_concat(done, own);
                assert(own.to_set().subset_of(used));
                assert(supplied(st1, s)) by {
                    lemma_loops_concat(whole.take(k), whole.skip(k));
                    lemma_loops_concat(whole.take(k - 1), seq![s]);
                    assert(whole.take(k) =~= whole.take(k - 1) + seq![s]);
                    lemma_loops_single(s);
                    lemma_reduce_statements_loops(st0, whole.take(k - 1));
                }
                lemma_reduce_statement_versions(st1, s, used);
                match reduce_statement(st1, s) {
                    Err(_) => {},
                    Ok((st2, more)) => {
                        let out = out1 + more;
                        let d1 = definitions(out1);
                        let d = definitions(more);
                        let front = d.take(d.len() - own.len());
                        assert(d =~= front + own);
                        lemma_definitions_concat(out1, more);
                        assert(definitions(out) =~= d1 + front + own);
                        lemma_grown_trans(st0.versions, st1.versions, st2.versions);
                        let u0 = all + definitions(st0.buffer).to_set();
                        let u1 = used + definitions(st1.buffer).to_set();
                        assert(all_within(u0, st0.versions));
                        assert(all_within(u1, st1.versions));
                        assert forall|i: int| 0 <= i < d1.len() implies within(
                            #[trigger] d1[i],
                            st1.versions,
                        ) by {
                            assert(definitions(out1).to_set().contains(d1[i]));
                            assert(u1.contains(d1[i]));
                        }
                        assert forall|i: int| 0 <= i < own.len() implies within(
                            #[trigger] own[i],
                            st1.versions,
                        ) && within(own[i], st0.versions) by {
                            assert(own.to_set().contains(own[i]));
                            assert(all.contains(own[i]));
                            assert(u0.contains(own[i]));
                            assert(u1.contains(own[i]));
                        }
                        lemma_step_no_duplicates(
                            d1,
                            front,
                            own,
                            done,
                            rest,
                            st0.versions,
                            st1.versions,
                            st2.versions,
                        );
                        lemma_step_origin(
                            d1,
                            front,
                            own,
                            done,
                            st0.versions,
                            st1.versions,
                            st2.versions,
                        );
                        assert(definitions(whole.take(k)) == done + own);
                        lemma_to_set_concat(d1, d);
                        assert(all + definitions(out).to_set() =~= used + d.to_set());
                    },
                }
            },
        }
    }
}

/// A substitution that rewrites no defined version leaves the definitions
/// of a statement as they are.
pub proof fn lemma_apply_statement_definitions(
    s: SubstitutionsView,
    st: StatementView,
    v: VersionsView,
    used: Set<IdentifierView>,
)
    requires
        avoided(s, v, used),
        defined(st).to_set().subset_of(used),
    ensures
        defined(apply_statement(s, st)) == defined(st),
{
    let own = defined(st);
    match st {
        StatementView::Definition(var, _) => {
            assert(own[0] == var.id);
            assert(own.to_set().contains(own[0]));
            assert(used.contains(var.id));
        },
        StatementView::MultipleDefinition(vars, _, _, _) => {
            let out = defined(apply_statement(s, st));
            assert forall|i: int| 0 <= i < vars.len() implies out[i] == own[i] by {
                assert(own[i] == vars[i].id);
                assert(own.to_set().contains(own[i]));
                assert(used.contains(vars[i].id));
            }
            assert(out =~= own);
        },
        StatementView::For(_, _, _, _) => {
            lemma_apply_for(s, st);
        },
        _ => {},
    }
}

/// A substitution that rewrites no defined version leaves the definitions
/// of a body as they are.
pub proof fn lemma_apply_definitions(
    s: SubstitutionsView,
    body: Seq<StatementView>,
    v: VersionsView,
    used: Set<IdentifierView>,
)
    requires
        avoided(s, v, used),
        definitions(body).to_set().subset_of(used),
    ensures
        definitions(apply_statements(s, body)) == definitions(body),
    decreases body.len(),
{
    let out = apply_statements(s, body);
    if body.len() > 0 {
        assert(out.drop_last() =~= apply_statements(s, body.drop_last()));
        assert(out.last() == apply_statement(s, body.last()));
        lemma_to_set_concat(definitions(body.drop_last()), defined(body.last()));
        lemma_apply_definitions(s, body.drop_last(), v, used);
        lemma_apply_statement_definitions(s, body.last(), v, used);
    } else {
        assert(out =~= Seq::empty());
    }
}

/// The substitution with its paths compressed rewrites the same versions.
pub proof fn lemma_compressed_avoided(s: SubstitutionsView, v: VersionsView, used: Set<IdentifierView>)
    requires
        avoided(s, v, used),
    ensures
        avoided(compressed_all(s), v, used),
{
    let c = compressed_all(s);
    assert forall|x: CoreIdentifierView, k: usize|
        c.contains_key(x) && #[trigger] c[x].contains_key(k) implies {
        &&& v.contains_key(x)
        &&& k <= v[x]
        &&& !used.contains(IdentifierView { id: x, version: k })
    } by {
        assert(s.contains_key(x) && s[x].contains_key(k));
    }
}

/// Whether a function between two passes is in single-assignment form,
/// with every definition within the versions, the loops recorded with
/// their gaps, and no defined version rewritten. `extra` are identifiers
/// that are defined outside the body, as the parameters are: the body
/// defines none of them, and they count as defined.
pub open spec fn ready(p: ProgressView, extra: Set<IdentifierView>) -> bool {
    let used = definitions(p.function.statements).to_set() + extra;
    &&& single_assignment(p.function.statements)
    &&& apart(p.function.statements, extra)
    &&& all_within(used, p.versions)
    &&& gaps(p.pending, p.versions, used)
    &&& avoided(p.substitutions, p.versions, used)
}

/// Whether a body defines none of the identifiers.
pub open spec fn apart(body: Seq<StatementView>, extra: Set<IdentifierView>) -> bool {
    forall|i: int| 0 <= i < definitions(body).len() ==> !extra.contains(#[trigger] definitions(body)[i])
}

/// A substitution that rewrites no defined version leaves the identifiers
/// of variables that count as defined as they are.
pub proof fn lemma_apply_variables(
    s: SubstitutionsView,
    vs: Seq<VariableView>,
    v: VersionsView,
    used: Set<IdentifierView>,
)
    requires
        avoided(s, v, used),
        identifiers(vs).to_set().subset_of(used),
    ensures
        identifiers(rename_variables(Renaming::Substitute(s), vs)) == identifiers(vs),
{
    let out = identifiers(rename_variables(Renaming::Substitute(s), vs));
    assert forall|i: int| 0 <= i < vs.len() implies out[i] == identifiers(vs)[i] by {
        assert(identifiers(vs).to_set().contains(identifiers(vs)[i]));
        assert(used.contains(vs[i].id));
    }
    assert(out =~= identifiers(vs));
}

/// A pass over a function that is ready leaves a function in
/// single-assignment form, ready for the next pass where there is one. The
/// parameters keep their identifiers where they count as defined.
pub proof fn lemma_pass_single_assignment(
    program: ProgramView,
    p: ProgressView,
    extra: Set<IdentifierView>,
)
    requires
        ready(p, extra),
        paired(p),
    ensures
        match reduce_pass(program, p) {
            Err(_) => true,
            Ok(PassView::Done(f)) => {
                &&& single_assignment(f.statements)
                &&& apart(f.statements, extra)
                &&& identifiers(p.function.arguments).to_set().subset_of(extra) ==> identifiers(
                    f.arguments,
                ) == identifiers(p.function.arguments)
            },
            Ok(PassView::Again(next)) => {
                &&& ready(next, extra)
                &&& identifiers(p.function.arguments).to_set().subset_of(extra) ==> identifiers(
                    next.function.arguments,
                ) == identifiers(p.function.arguments)
            },
        },
{
    let body = p.function.statements;
    let all = definitions(body).to_set() + extra;
    let start = reducer_start(program, p.versions, p.substitutions, p.pending);
    assert(all + definitions(start.buffer).to_set() =~= all);
    lemma_fresh_empty(p.versions, p.versions);
    assert(versioned(start, all, start.versions));
    assert(body.take(body.len() as int) =~= body);
    lemma_reduce_statements_versions(start, body, body.len() as int, extra);
    match reduce_pass(program, p) {
        Err(_) => {},
        Ok(pass) => {
            let folded = reduce_statements(start, body)->Ok_0;
            let st = folded.0;
            let out = folded.1;
            let used = all + definitions(out).to_set() + definitions(st.buffer).to_set();
            let left = definitions(out).to_set() + extra;
            assert(definitions(out).to_set().subset_of(used));
            assert(left.subset_of(used));
            lemma_compressed_avoided(st.substitutions, st.versions, used);
            lemma_apply_definitions(
                compressed_all(st.substitutions),
                out,
                st.versions,
                used,
            );
            lemma_apply_definitions(st.substitutions, out, st.versions, used);
            lemma_gaps_subset(st.after, st.versions, used, left);
            assert(avoided(st.substitutions, st.versions, left));
            assert(all_within(left, st.versions)) by {
                assert(all_within(used, st.versions));
            }
            // what is defined is defined in the body before the pass, or
            // new since it began: none of it is among the others
            assert(apart(out, extra)) by {
                assert forall|i: int| 0 <= i < definitions(out).len() implies !extra.contains(
                    #[trigger] definitions(out)[i],
                ) by {
                    let d = definitions(out)[i];
                    if extra.contains(d) {
                        assert(all.contains(d));
                        assert(within(d, p.versions));
                        if definitions(body).contains(d) {
                            let j = choose|j: int|
                                0 <= j < definitions(body).len() && definitions(body)[j] == d;
                            assert(!extra.contains(definitions(body)[j]));
                        }
                    }
                }
            }
            if identifiers(p.function.arguments).to_set().subset_of(extra) {
                lemma_apply_variables(
                    compressed_all(st.substitutions),
                    p.function.arguments,
                    st.versions,
                    used,
                );
                lemma_apply_variables(st.substitutions, p.function.arguments, st.versions, used);
            }
        },
    }
}

/// Whether `propagate` defines no identifier that the function did not
/// define, and hands back a function in single-assignment form for one in
/// that form.
pub open spec fn keeps_definitions<P: Fn(TypedFunction) -> TypedFunction>(propagate: P) -> bool {
    forall|x: TypedFunction, y: TypedFunction| #[trigger]
        call_ensures(propagate, (x,), y) ==> {
            &&& definitions(y@.statements).to_set().subset_of(definitions(x@.statements).to_set())
            &&& single_assignment(x@.statements) ==> single_assignment(y@.statements)
        }
}

/// Whether `propagate` hands back a function with the parameters that the
/// function had, at their versions.
pub open spec fn keeps_parameters<P: Fn(TypedFunction) -> TypedFunction>(propagate: P) -> bool {
    forall|x: TypedFunction, y: TypedFunction| #[trigger]
        call_ensures(propagate, (x,), y) ==> identifiers(y@.arguments) == identifiers(x@.arguments)
}

/// A run from a function that is ready, with the versions before its
/// loops recorded, ends with a function in single-assignment form, where the
/// propagation keeps the loops and the definitions. Where it keeps the
/// parameters too, and these count as defined, they end as they were.
pub proof fn lemma_run_single_assignment<P: Fn(TypedFunction) -> TypedFunction>(
    propagate: P,
    program: ProgramView,
    p: ProgressView,
    budget: nat,
    h: FunctionView,
    extra: Set<IdentifierView>,
)
    requires
        keeps_loops(propagate),
        keeps_definitions(propagate),
        ready(p, extra),
        paired(p),
        run(propagate, program, p, budget, Ok(h)),
    ensures
        single_assignment(h.statements),
        apart(h.statements, extra),
        keeps_parameters(propagate) && identifiers(p.function.arguments).to_set().subset_of(extra)
            ==> identifiers(h.arguments) == identifiers(p.function.arguments),
    decreases budget,
{
    reveal(run);
    if budget > 0 {
        lemma_pass_single_assignment(program, p, extra);
        lemma_pass_paired(program, p);
        match reduce_pass(program, p) {
            Ok(PassView::Again(next)) => {
                let (x, y) = choose|x: TypedFunction, y: TypedFunction|
                    x@ == next.function && #[trigger] call_ensures(propagate, (x,), y)
                        && run(
                        propagate,
                        program,
                        ProgressView { function: y@, ..next },
                        (budget - 1) as nat,
                        Ok(h),
                    );
                let after = ProgressView { function: y@, ..next };
                let big = definitions(next.function.statements).to_set() + extra;
                let small = definitions(y@.statements).to_set() + extra;
                assert(definitions(y@.statements).to_set().subset_of(
                    definitions(next.function.statements).to_set(),
                ));
                assert(small.subset_of(big));
                lemma_gaps_subset(next.pending, next.versions, big, small);
                assert(apart(y@.statements, extra)) by {
                    assert forall|i: int| 0 <= i < definitions(y@.statements).len() implies !extra.contains(
                        #[trigger] definitions(y@.statements)[i],
                    ) by {
                        let d = definitions(y@.statements)[i];
                        assert(definitions(y@.statements).to_set().contains(d));
                        assert(definitions(next.function.statements).contains(d));
                        let j = choose|j: int|
                            0 <= j < definitions(next.function.statements).len() && definitions(
                                next.function.statements,
                            )[j] == d;
                        assert(!extra.contains(definitions(next.function.statements)[j]));
                    }
                }
                assert(ready(after, extra));
                lemma_run_single_assignment(
                    propagate,
                    program,
                    after,
                    (budget - 1) as nat,
                    h,
                    extra,
                );
            },
            _ => {},
        }
    }
}

/// The identifiers of the parameters of a function in shallow
/// single-assignment form, from no versions at all.
pub open spec fn shallow_parameters(f: FunctionView, generics: Seq<(Seq<char>, u32)>) -> Seq<
    IdentifierView,
> {
    identifiers(ssa_function(f, generics, Map::empty()).unwrap().1.arguments)
}

/// Parameters with different names are all at version 0 in the shallow
/// form.
pub proof fn lemma_parameters_zero(t: ShallowView, vs: Seq<VariableView>)
    requires
        forall|i: int, j: int| 0 <= i < j < vs.len() ==> vs[i].id.id != vs[j].id.id,
        forall|i: int| 0 <= i < vs.len() ==> !t.versions.contains_key(#[trigger] vs[i].id.id),
    ensures
        match define_all(t, vs) {
            None => false,
            Some((t1, out)) => {
                &&& out.len() == vs.len()
                &&& forall|i: int|
                    0 <= i < vs.len() ==> (#[trigger] out[i]).id == (IdentifierView {
                        id: vs[i].id.id,
                        version: 0,
                    })
                &&& forall|x: CoreIdentifierView|
                    t1.versions.contains_key(x) ==> t.versions.contains_key(x) || exists|i: int|
                        0 <= i < vs.len() && #[trigger] vs[i].id.id == x
            },
        },
    decreases vs.len(),
{
    if vs.len() > 0 {
        let head = vs.drop_last();
        assert forall|i: int, j: int| 0 <= i < j < head.len() implies head[i].id.id
            != head[j].id.id by {
            assert(head[i] == vs[i] && head[j] == vs[j]);
        }
        assert forall|i: int| 0 <= i < head.len() implies !t.versions.contains_key(
            #[trigger] head[i].id.id,
        ) by {
            assert(head[i] == vs[i]);
        }
        lemma_parameters_zero(t, head);
        let (t1, out) = define_all(t, head).unwrap();
        let last = vs.last();
        assert(!t1.versions.contains_key(last.id.id)) by {
            if t1.versions.contains_key(last.id.id) {
                let i = choose|i: int| 0 <= i < head.len() && #[trigger] head[i].id.id == last.id.id;
                assert(vs[i].id.id != vs[vs.len() - 1].id.id);
            }
        }
        let (t2, v) = define(t1, last).unwrap();
        let all = out.push(v);
        assert forall|i: int| 0 <= i < vs.len() implies (#[trigger] all[i]).id == (IdentifierView {
            id: vs[i].id.id,
            version: 0,
        }) by {
            if i < head.len() {
                assert(all[i] == out[i]);
                assert(head[i] == vs[i]);
            }
        }
        assert forall|x: CoreIdentifierView| t2.versions.contains_key(x) implies t.versions.contains_key(
            x,
        ) || exists|i: int| 0 <= i < vs.len() && #[trigger] vs[i].id.id == x by {
            if x == last.id.id {
                assert(vs[vs.len() - 1].id.id == x);
            } else if !t.versions.contains_key(x) {
                let i = choose|i: int| 0 <= i < head.len() && #[trigger] head[i].id.id == x;
                assert(vs[i].id.id == x);
            }
        }
    }
}

/// The parameters of the shallow form of a function whose parameters have
/// different names are these names at version 0.
pub proof fn lemma_shallow_parameters_zero(f: FunctionView, generics: Seq<(Seq<char>, u32)>)
    requires
        forall|i: int, j: int|
            0 <= i < j < f.arguments.len() ==> f.arguments[i].id.id != f.arguments[j].id.id,
        ssa_function(f, generics, Map::empty()) is Some,
    ensures
        shallow_parameters(f, generics).len() == f.arguments.len(),
        forall|i: int|
            0 <= i < f.arguments.len() ==> #[trigger] shallow_parameters(f, generics)[i] == (
            IdentifierView { id: f.arguments[i].id.id, version: 0 }),
{
    lemma_parameters_zero(shallow_start(Map::empty()), f.arguments);
}

/// The reduction of a function ends with a function in single-assignment
/// form: no identifier is defined twice in its body, and none that is
/// defined is a parameter as the shallow form has it. This holds where the
/// propagation keeps the loops and the definitions. Where it keeps the
/// parameters too, they stay as the shallow form has them.
pub proof fn lemma_reduction_single_assignment<P: Fn(TypedFunction) -> TypedFunction>(
    propagate: P,
    f: FunctionView,
    generics: Seq<(Seq<char>, u32)>,
    program: ProgramView,
    passes: nat,
    h: FunctionView,
)
    requires
        keeps_loops(propagate),
        keeps_definitions(propagate),
        reduction(propagate, f, generics, program, passes, Ok(h)),
    ensures
        single_assignment(h.statements),
        apart(h.statements, shallow_parameters(f, generics).to_set()),
        keeps_parameters(propagate) ==> identifiers(h.arguments) == shallow_parameters(
            f,
            generics,
        ),
{
    match ssa_function(f, generics, Map::empty()) {
        None => {},
        Some((t, g)) => {
            let start = shallow_start(Map::empty());
            let none = Set::<IdentifierView>::empty();
            lemma_define_all_fresh(start, f.arguments);
            let t1 = define_all(start, f.arguments).unwrap().0;
            let parameters = identifiers(g.arguments);
            let extra = parameters.to_set();
            assert(none + extra =~= extra);
            lemma_within_grow(none, parameters, start.versions, t1.versions);
            lemma_ssa_statements_fresh(t1, generic_definitions(generics) + f.statements, extra);
            let ids = definitions(g.statements);
            lemma_within_grow(extra, ids, t1.versions, t.versions);
            assert(extra + ids.to_set() =~= ids.to_set() + extra);
            assert(apart(g.statements, extra)) by {
                assert forall|i: int| 0 <= i < ids.len() implies !extra.contains(#[trigger] ids[i]) by {
                    if extra.contains(ids[i]) {
                        assert(within(ids[i], t1.versions));
                        assert(above(ids[i], t1.versions));
                    }
                }
            }
            if t.blocked {
                let p = ProgressView {
                    function: g,
                    versions: t.versions,
                    substitutions: Map::empty(),
                    pending: t.backups,
                };
                assert(ready(p, extra));
                lemma_ssa_function_paired(f, generics, Map::empty());
                lemma_run_single_assignment(propagate, program, p, passes, h, extra);
            }
        },
    }
}

/// In the program that a reduction gives, no identifier is defined twice
/// in the entry function. This holds where the propagation keeps the loops
/// and the definitions.
pub proof fn lemma_program_reduction_single_assignment<P: Fn(TypedFunction) -> TypedFunction>(
    propagate: P,
    p: ProgramView,
    field_bits: u32,
    passes: nat,
    q: ProgramView,
)
    requires
        has_entry(p),
        keeps_loops(propagate),
        keeps_definitions(propagate),
        program_reduction(propagate, p, field_bits, passes, Ok(q)),
    ensures
        has_entry(q),
        single_assignment(main_entry(q).unwrap().1->Here_0.statements),
{
    let key = main_entry(p).unwrap().0;
    let f = main_entry(p).unwrap().1->Here_0;
    let extended = extended(p, field_bits);
    let h = choose|h: Result<FunctionView, ErrorView>| #[trigger]
        reduction(propagate, f, Seq::empty(), extended, passes, h) && Ok::<
            ProgramView,
            ErrorView,
        >(q) == (match h {
            Ok(g) => Ok::<ProgramView, ErrorView>(
                reduced_program(p.main, key, g, field_bits),
            ),
            Err(e) => Err::<ProgramView, ErrorView>(e),
        });
    let g = h->Ok_0;
    lemma_reduction_single_assignment(propagate, f, Seq::empty(), extended, passes, g);
    lemma_find_main(
        find_module(p.modules, p.main).unwrap().functions,
    );
    let entry = (key, SymbolView::Here(g));
    let functions = seq![entry] + embed_entries(p.main, field_bits);
    assert(q.modules.last() == (p.main, ModuleView { functions }));
    assert(functions.first() == entry);
    assert(main_entry(q) == Some(entry));
}

} // verus!
