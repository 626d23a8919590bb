//! What a loop becomes: its rounds in order, versions above a floor, and
//! rewrites that lead the readers of the loop to the right versions.

use crate::absy::{ExpressionView, StatementView, VariableView};
use crate::identifier::{CoreIdentifierView, IdentifierView};
use crate::laws::reduced::lemma_ssa_statements_plain;
use crate::laws::single_assignment::{above, definitions, grown, lemma_unroll_fresh, within};
use crate::reducer::{index_literal, literal_bounds, reduce_loop, unroll, ReducerView};
use crate::rename::{lemma_rename_expression, Renaming};
use crate::shallow_ssa::{lemma_ssa_statements_concat, shallow_start, ssa_statements, ShallowView};
use crate::substitution::{redirect, redirects_of, registered, SubstitutionsView};
use crate::versions::{shifted, VersionsView};
use vstd::prelude::*;

verus! {

/// The number of rounds of a loop from `from` up to, and not including,
/// `to`.
pub open spec fn rounds(from: u128, to: u128) -> nat {
    if from < to {
        (to - from) as nat
    } else {
        0
    }
}

/// The statements of round `k`, where a round has `width` statements.
pub open spec fn round(out: Seq<StatementView>, k: int, width: nat) -> Seq<StatementView> {
    out.subrange(k * width, (k + 1) * width)
}

/// Whether the statements are one round of a loop: the definition of the
/// loop variable as the index and then the body, in shallow
/// single-assignment form from some versions.
pub open spec fn is_round(
    statements: Seq<StatementView>,
    v: VariableView,
    index: u128,
    body: Seq<StatementView>,
) -> bool {
    exists|t: ShallowView|
        {
            let shallow = #[trigger] ssa_statements(
                t,
                seq![StatementView::Definition(v, index_literal(index))] + body,
            );
            shallow is Some && shallow.unwrap().1 == statements
        }
}

/// A round starts with the definition of the loop variable, at some
/// version, as the literal of the index.
pub proof fn lemma_round_starts(
    t: ShallowView,
    v: VariableView,
    index: u128,
    body: Seq<StatementView>,
)
    ensures
        match ssa_statements(t, seq![StatementView::Definition(v, index_literal(index))] + body) {
            None => true,
            Some((_, out)) => {
                &&& out.len() == body.len() + 1
                &&& out[0] is Definition
                &&& out[0]->Definition_0.id.id == v.id.id
                &&& out[0]->Definition_1 == index_literal(index)
            },
        },
{
    let definition = StatementView::Definition(v, index_literal(index));
    let head = seq![definition];
    lemma_ssa_statements_concat(t, head, body);
    lemma_ssa_statements_plain(t, head + body);
    assert(head.drop_last() =~= Seq::empty());
    assert(head.last() == definition);
    lemma_rename_expression(Renaming::Latest(t.versions), index_literal(index));
    match ssa_statements(t, head) {
        None => {},
        Some((t1, o1)) => {
            lemma_ssa_statements_plain(t1, body);
            match ssa_statements(t1, body) {
                None => {},
                Some((_, o2)) => {
                    assert((o1 + o2)[0] == o1[0]);
                },
            }
        },
    }
}

/// What a loop is unrolled to: as many rounds as the bounds say, none
/// where the lower bound is not below the upper one. Round `k` is the
/// definition of the loop variable as the lower bound plus `k`, then the
/// body.
pub proof fn lemma_unroll_rounds(
    t: ShallowView,
    v: VariableView,
    from: u128,
    to: u128,
    body: Seq<StatementView>,
)
    ensures
        match unroll(t, v, from, to, body) {
            None => true,
            Some((_, out)) => {
                &&& out.len() == rounds(from, to) * (body.len() + 1)
                &&& forall|k: int|
                    0 <= k < rounds(from, to) ==> is_round(
                        #[trigger] round(out, k, body.len() + 1),
                        v,
                        (from + k) as u128,
                        body,
                    )
                &&& forall|k: int|
                    0 <= k < rounds(from, to) ==> {
                        let first = (#[trigger] round(out, k, body.len() + 1))[0];
                        &&& first is Definition
                        &&& first->Definition_0.id.id == v.id.id
                        &&& first->Definition_1 == index_literal((from + k) as u128)
                    }
            },
        },
    decreases to,
{
    let width = body.len() + 1;
    if from < to {
        let last = (to - 1) as u128;
        lemma_unroll_rounds(t, v, from, last, body);
        match unroll(t, v, from, last, body) {
            None => {},
            Some((t1, before)) => {
                let statements = seq![StatementView::Definition(v, index_literal(last))] + body;
                lemma_round_starts(t1, v, last, body);
                match ssa_statements(t1, statements) {
                    None => {},
                    Some((t2, more)) => {
                        let out = before + more;
                        let n = rounds(from, last) as int;
                        assert(rounds(from, to) == n + 1);
                        assert(before.len() == n * width);
                        assert(out.len() == (n + 1) * width) by (nonlinear_arith)
                            requires
                                out.len() == before.len() + more.len(),
                                before.len() == n * width,
                                more.len() == width,
                        ;
                        assert forall|k: int| 0 <= k < n + 1 implies is_round(
                            #[trigger] round(out, k, width),
                            v,
                            (from + k) as u128,
                            body,
                        ) && {
                            let first = round(out, k, width)[0];
                            &&& first is Definition
                            &&& first->Definition_0.id.id == v.id.id
                            &&& first->Definition_1 == index_literal((from + k) as u128)
                        } by {
                            if k < n {
                                assert(0 <= k * width && (k + 1) * width <= n * width)
                                    by (nonlinear_arith)
                                    requires
                                        0 <= k < n,
                                        width >= 1,
                                ;
                                assert((k + 1) * width == k * width + width) by (nonlinear_arith);
                                let lo = k * width;
                                let hi = (k + 1) * width;
                                assert(0 <= lo <= hi <= before.len());
                                assert(out.subrange(lo, hi) =~= before.subrange(lo, hi));
                                assert(round(out, k, width) =~= round(before, k, width));
                                assert(is_round(round(before, k, width), v, (from + k) as u128, body));
                            } else {
                                assert((k + 1) * width == n * width + width) by (nonlinear_arith)
                                    requires
                                        k == n,
                                ;
                                assert(round(out, k, width) =~= more);
                                assert(ssa_statements(t1, statements) == Some((t2, more)));
                            }
                        }
                    },
                }
            },
        }
    } else {
        assert(rounds(from, to) * width == 0) by (nonlinear_arith)
            requires
                rounds(from, to) == 0,
        ;
    }
}

/// Whether the two versions after the versions before a loop are within
/// the versions: they were reserved when the loop was passed.
pub open spec fn reserved(before: VersionsView, v: VersionsView) -> bool {
    forall|x: CoreIdentifierView| #[trigger]
        before.contains_key(x) ==> v.contains_key(x) && before[x] + 2 <= v[x]
}

/// Whether every version that the substitution rewrites is within the
/// versions.
pub open spec fn rewrites_within(s: SubstitutionsView, v: VersionsView) -> bool {
    forall|x: CoreIdentifierView, k: usize|
        s.contains_key(x) && #[trigger] s[x].contains_key(k) ==> v.contains_key(x) && k <= v[x]
}

/// The rounds of a loop define versions above a floor: the versions of the
/// reducer raised by one. The floor is above the versions before the loop
/// and above the two that were reserved after them.
pub proof fn lemma_loop_floor(
    st: ReducerView,
    v: VariableView,
    from: ExpressionView,
    to: ExpressionView,
    body: Seq<StatementView>,
)
    requires
        st.pending.len() > 0,
        reserved(st.pending.first(), st.versions),
        literal_bounds(from, to) is Some,
    ensures
        match reduce_loop(st, v, from, to, body) {
            Err(_) => true,
            Ok((st1, out)) => {
                let floor = shifted(st.versions, 1);
                &&& grown(floor, st1.versions)
                &&& forall|x: CoreIdentifierView| #[trigger]
                    st.pending.first().contains_key(x) ==> floor[x] > st.pending.first()[x] + 2
                &&& forall|i: int|
                    0 <= i < definitions(out).len() ==> above(
                        #[trigger] definitions(out)[i],
                        floor,
                    ) && within(definitions(out)[i], st1.versions)
            },
        },
{
    let bounds = literal_bounds(from, to).unwrap();
    let floor = shifted(st.versions, 1);
    let none = Set::<IdentifierView>::empty();
    match reduce_loop(st, v, from, to, body) {
        Err(_) => {},
        Ok((st1, out)) => {
            lemma_unroll_fresh(shallow_start(floor), v, bounds.0, bounds.1, body, none);
            assert forall|x: CoreIdentifierView| #[trigger]
                st.pending.first().contains_key(x) implies floor[x] > st.pending.first()[x]
                + 2 by {
                assert(st.versions.contains_key(x));
                assert(st.versions[x] + 1 <= usize::MAX);
            }
        },
    }
}

/// After a loop is unrolled, the rewrites lead its readers to the right
/// versions, for every name that had a version before the loop.
///
/// - The version reserved for the readers after the loop, two above the
///   version before it, goes to the version that the last round left: the
///   last definition of the name in the rounds, or, where the rounds define
///   it nowhere, what read the version before the loop.
/// - The floor, which the first round reads, goes to what read the version
///   before the loop.
pub proof fn lemma_loop_readers(
    st: ReducerView,
    v: VariableView,
    from: ExpressionView,
    to: ExpressionView,
    body: Seq<StatementView>,
    x: CoreIdentifierView,
)
    requires
        st.pending.len() > 0,
        reserved(st.pending.first(), st.versions),
        rewrites_within(st.substitutions, st.versions),
        literal_bounds(from, to) is Some,
        st.pending.first().contains_key(x),
    ensures
        match reduce_loop(st, v, from, to, body) {
            Err(_) => true,
            Ok((st1, _)) => {
                let before = st.pending.first()[x];
                let floor = (st.versions[x] + 1) as usize;
                let read_before = redirect(st.substitutions, IdentifierView { id: x, version: before });
                let after = IdentifierView { id: x, version: (before + 2) as usize };
                &&& st1.versions.contains_key(x)
                &&& st1.versions[x] >= floor
                &&& redirect(st1.substitutions, IdentifierView { id: x, version: floor })
                    == read_before
                &&& redirect(st1.substitutions, after) == (if st1.versions[x] > floor {
                    st1.versions[x]
                } else {
                    read_before
                })
            },
        },
{
    let bounds = literal_bounds(from, to).unwrap();
    let b = st.pending.first();
    let now = shifted(st.versions, 1);
    let none = Set::<IdentifierView>::empty();
    match reduce_loop(st, v, from, to, body) {
        Err(_) => {},
        Ok((st1, out)) => {
            lemma_unroll_fresh(shallow_start(now), v, bounds.0, bounds.1, body, none);
            let t = unroll(shallow_start(now), v, bounds.0, bounds.1, body).unwrap().0;
            let s1 = registered(st.substitutions, now, b);
            let then = shifted(b, 2);
            assert(st.versions.contains_key(x));
            assert(b[x] + 2 <= st.versions[x]);
            assert(st.versions[x] + 1 <= usize::MAX);
            assert(now.contains_key(x) && now[x] == st.versions[x] + 1);
            assert(t.versions.contains_key(x) && t.versions[x] >= now[x]);
            // the floor goes to what read the version before the loop
            let old = redirects_of(st.substitutions, x);
            assert(s1.contains_key(x));
            assert(s1[x] == crate::substitution::with_edge(old, now[x], b[x]));
            assert(!old.contains_key(now[x])) by {
                if st.substitutions.contains_key(x) && st.substitutions[x].contains_key(now[x]) {
                    assert(now[x] <= st.versions[x]);
                }
            }
            // the reserved version goes to the last version of the rounds
            assert(then.contains_key(x) && then[x] == b[x] + 2);
            assert(st1.substitutions == registered(s1, then, t.versions));
            assert(st1.substitutions[x] == crate::substitution::with_edge(
                s1[x],
                then[x],
                t.versions[x],
            ));
            if t.versions[x] > now[x] {
                assert(!s1[x].contains_key(t.versions[x])) by {
                    if old.contains_key(t.versions[x]) {
                        assert(t.versions[x] <= st.versions[x]);
                    }
                }
            }
        },
    }
}

} // verus!
