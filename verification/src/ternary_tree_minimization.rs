use vstd::prelude::*;

use crate::literal_value::{lit_subsumes, LiteralValue};
use crate::product_term::ProductTerm;
use crate::term_model::{
    diff_at, distinct_keys, equiv, exact_match, has_key, key_at, lemma_equiv_exact_match,
    lemma_equiv_sat, lemma_equiv_trans, mergeable,
    lemma_equiv_subsumes, lemma_exact_match_equiv, lemma_push_keys,
    lemma_equiv_join, lemma_equiv_sym, lemma_push_equiv_parts, lemma_push_sat, lemma_subsumes_sat,
    lemma_subsumes_trans, lemma_value_at, lemma_with_axis_equiv, lemma_with_axis_keys,
    lemma_with_axis_push, merged, prefix_of, subsumes, term_sat, value_of, with_axis, Assignment,
    Entries,
};
use crate::ternary_node::TernaryNode;
use vstd::set_lib::{lemma_int_range, lemma_len_subset, set_int_range};

verus! {

/// Why the minimizer could not run a round.
#[derive(Debug, Clone, Copy, PartialEq, Eq, Structural)]
pub enum MinimizeError {
    /// Fewer than two variables remain in the ordering.
    TooFewVariables,
}

/// The names of a variable ordering, as character sequences.
pub open spec fn names(order: Seq<String>) -> Seq<Seq<char>> {
    order.map_values(|s: String| s@)
}

/// No variable name occurs twice in the ordering.
pub open spec fn distinct_names(vs: Seq<Seq<char>>) -> bool {
    forall|i: int, j: int| 0 <= i < j < vs.len() ==> vs[i] != vs[j]
}

/// Every term of the sequence keeps each variable at most once.
pub open spec fn all_wf(ts: Seq<ProductTerm>) -> bool {
    forall|i: int| 0 <= i < ts.len() ==> (#[trigger] ts[i]).wf()
}

/// The term mentions exactly the variables listed in `vs`.
pub open spec fn vars_exactly(ps: Entries, vs: Seq<Seq<char>>) -> bool {
    &&& forall|k: Seq<char>| #[trigger] has_key(ps, k) ==> vs.contains(k)
    &&& forall|i: int| 0 <= i < vs.len() ==> has_key(ps, #[trigger] vs[i])
}

/// Every term of the sequence mentions exactly the variables in `vs`.
pub open spec fn all_over(ts: Seq<ProductTerm>, vs: Seq<Seq<char>>) -> bool {
    forall|i: int| 0 <= i < ts.len() ==> vars_exactly((#[trigger] ts[i])@, vs)
}

/// No two terms of the sequence carry the same mapping: the sequence
/// behaves as a set of product terms.
pub open spec fn distinct_terms(ts: Seq<ProductTerm>) -> bool {
    forall|i: int, j: int| 0 <= i < j < ts.len() ==> !equiv((#[trigger] ts[i])@, (#[trigger] ts[j])@)
}

/// The assignment satisfies at least one term of the sequence.
pub open spec fn sat_any(ts: Seq<ProductTerm>, asg: Assignment) -> bool {
    exists|i: int| 0 <= i < ts.len() && term_sat((#[trigger] ts[i])@, asg)
}

/// Soundness of one term against a term set: every assignment the term
/// admits is admitted by some member of the set.
pub open spec fn covered_by(o: Entries, ts: Seq<ProductTerm>) -> bool {
    forall|asg: Assignment| #[trigger] term_sat(o, asg) ==> sat_any(ts, asg)
}

/// Soundness of a whole output set: each of its terms only admits
/// assignments that the input set already admitted.
pub open spec fn sound_wrt(out: Seq<ProductTerm>, input: Seq<ProductTerm>) -> bool {
    forall|j: int| 0 <= j < out.len() ==> covered_by((#[trigger] out[j])@, input)
}

/// Some member of `out` covers the term `t`.
pub open spec fn term_covered(t: Entries, out: Seq<ProductTerm>) -> bool {
    exists|j: int| 0 <= j < out.len() && subsumes((#[trigger] out[j])@, t)
}

/// Completeness of an output set: every input term is covered by some
/// output term.
pub open spec fn covers_all(out: Seq<ProductTerm>, input: Seq<ProductTerm>) -> bool {
    forall|i: int| 0 <= i < input.len() ==> term_covered((#[trigger] input[i])@, out)
}

/// The partial term `p` is `t` restricted to the variables in `vs`: it
/// holds exactly those of `t`'s variables, with `t`'s literals.
pub open spec fn restriction_of(p: Entries, t: Entries, vs: Seq<Seq<char>>) -> bool {
    &&& forall|k: Seq<char>|
        #[trigger] has_key(p, k) ==> has_key(t, k) && vs.contains(k) && value_of(p, k) == value_of(
            t,
            k,
        )
    &&& forall|i: int|
        0 <= i < vs.len() ==> (has_key(t, #[trigger] vs[i]) ==> has_key(p, vs[i]))
}

/// Some leaf of the frontier carries the restriction of `t` to `vs`.
pub open spec fn some_leaf_restricts(leaves: Seq<TernaryNode>, t: Entries, vs: Seq<Seq<char>>) -> bool {
    exists|l: int|
        0 <= l < leaves.len() && restriction_of((#[trigger] leaves[l]).term_entries(), t, vs)
}

/// How an output term is accounted against the working set: it carries
/// the same mapping as the member at its charged index, or it is a
/// don't-care on the axis whose False rewrite does.
pub open spec fn charge_link(x: Entries, w: Entries, axis: Seq<char>) -> bool {
    ||| equiv(x, w)
    ||| (has_key(x, axis) && value_of(x, axis) == LiteralValue::DontCare && equiv(
        with_axis(x, axis, LiteralValue::False),
        w,
    ))
}

/// The term is one of the first `bound` leaves extended by a literal on
/// the axis.
pub open spec fn from_leaf(
    x: Entries,
    leaves: Seq<TernaryNode>,
    bound: int,
    axis: Seq<char>,
) -> bool {
    exists|l2: int, lit: LiteralValue|
        0 <= l2 < bound && x == #[trigger] leaves[l2].term_entries().push((axis, lit))
}

/// The bookkeeping that bounds an output set by the working set: each
/// output term is charged to a distinct working-set index it is linked
/// to, and no output term is a concrete rewrite of a term charged
/// through its don't-care.
#[verifier::opaque]
pub open spec fn charged(
    ft: Seq<ProductTerm>,
    ch: Seq<int>,
    w: Seq<ProductTerm>,
    axis: Seq<char>,
) -> bool {
    &&& ch.len() == ft.len()
    &&& forall|j: int| 0 <= j < ch.len() ==> 0 <= #[trigger] ch[j] < w.len()
    &&& forall|j1: int, j2: int| 0 <= j1 < j2 < ch.len() ==> ch[j1] != ch[j2]
    &&& forall|j: int| 0 <= j < ch.len() ==> charge_link((#[trigger] ft[j])@, (w[ch[j]])@, axis)
    &&& forall|j: int, j2: int|
        0 <= j < ch.len() && 0 <= j2 < ft.len() && !equiv((#[trigger] ft[j])@, (w[ch[j]])@)
            ==> !equiv((#[trigger] ft[j2])@, with_axis((ft[j])@, axis, LiteralValue::False))
                && !equiv((ft[j2])@, with_axis((ft[j])@, axis, LiteralValue::True))
}

/// An output set whose charges are accounted never outgrows the working
/// set.
proof fn lemma_charged_bound(ft: Seq<ProductTerm>, ch: Seq<int>, w: Seq<ProductTerm>, axis: Seq<char>)
    requires
        charged(ft, ch, w, axis),
    ensures
        ft.len() <= w.len(),
{
    reveal(charged);
    lemma_distinct_indices_bound(ch, w.len() as int);
}

/// Membership up to mapping equality in a set of entry sequences.
pub open spec fn mem_of(s: Set<Entries>, x: Entries) -> bool {
    exists|e: Entries| s.contains(e) && equiv(e, x)
}

/// The mappings a term sequence holds, as a set of entry sequences.
pub open spec fn entry_set(ts: Seq<ProductTerm>) -> Set<Entries> {
    Set::new(|e: Entries| exists|j: int| 0 <= j < ts.len() && e == (#[trigger] ts[j])@)
}

/// What the merge step emits for one completed path `p`: the don't-care
/// extension when the working set holds it, and then nothing else for
/// this path; else the merge of the two matching concrete extensions;
/// else the single matching one; else nothing.
#[verifier::opaque]
pub open spec fn leaf_emits(p: Entries, s: Set<Entries>, axis: Seq<char>, e: Entries) -> bool {
    let star = p.push((axis, LiteralValue::DontCare));
    let f = p.push((axis, LiteralValue::False));
    let t = p.push((axis, LiteralValue::True));
    if mem_of(s, star) {
        e == star
    } else if mem_of(s, f) && mem_of(s, t) {
        e == merged(f, t)
    } else if mem_of(s, f) {
        e == f
    } else if mem_of(s, t) {
        e == t
    } else {
        false
    }
}

/// The term is what the merge step emits for one of the first `bound`
/// leaves.
pub open spec fn emitted_by(
    x: Entries,
    leaves: Seq<TernaryNode>,
    bound: int,
    s: Set<Entries>,
    axis: Seq<char>,
) -> bool {
    exists|l2: int|
        0 <= l2 < bound && leaf_emits((#[trigger] leaves[l2]).term_entries(), s, axis, x)
}

/// A canonical path over the given variables that is a prefix of some
/// member of the set: one node of the pruned tree frontier.
pub open spec fn pruned_prefix(p: Entries, s: Set<Entries>, prefix: Seq<Seq<char>>) -> bool {
    canonical_over(p, prefix) && exists|w: Entries| s.contains(w) && prefix_of(p, w)
}

/// One round of the algorithm as a set transformer: what the merge step
/// emits over the whole pruned frontier for the given ordering, whose
/// last variable is the deferred merge axis.
#[verifier::opaque]
pub open spec fn round_of(s: Set<Entries>, ord: Seq<Seq<char>>) -> Set<Entries> {
    Set::new(
        |e: Entries|
            exists|p: Entries|
                #[trigger] pruned_prefix(p, s, ord.drop_last()) && leaf_emits(
                    p,
                    s,
                    ord.last(),
                    e,
                ),
    )
}

/// The term sequence holds exactly the mappings of the set.
pub open spec fn matches_set(ts: Seq<ProductTerm>, s: Set<Entries>) -> bool {
    &&& forall|j: int| 0 <= j < ts.len() ==> mem_of(s, (#[trigger] ts[j])@)
    &&& forall|e: Entries|
        #[trigger] s.contains(e) ==> exists|j: int| 0 <= j < ts.len() && equiv((#[trigger] ts[j])@, e)
}

/// Some member of the term sequence carries the mapping `x`.
pub open spec fn appears(x: Entries, ts: Seq<ProductTerm>) -> bool {
    exists|i: int| 0 <= i < ts.len() && equiv((#[trigger] ts[i])@, x)
}

/// The ordering after one rotation: the first name moved to the end.
pub open spec fn rotated(ord: Seq<Seq<char>>) -> Seq<Seq<char>> {
    ord.subrange(1, ord.len() as int).push(ord[0])
}

/// The whole minimization as a set transformer: `k` rounds over the
/// mapping set, the ordering rotating after every round; a round needs
/// at least two variables, and a shorter ordering leaves the set as it
/// stands.
#[verifier::opaque]
pub open spec fn minimized(s: Set<Entries>, ord: Seq<Seq<char>>, k: nat) -> Set<Entries>
    decreases k,
{
    if k == 0 {
        s
    } else if ord.len() < 2 {
        minimized(s, ord, (k - 1) as nat)
    } else {
        minimized(round_of(s, ord), rotated(ord), (k - 1) as nat)
    }
}

/// With fewer than two variables no round can run, however many rounds
/// are attempted.
proof fn lemma_minimized_short(s: Set<Entries>, ord: Seq<Seq<char>>, k: nat)
    requires
        ord.len() < 2,
    ensures
        minimized(s, ord, k) == s,
    decreases k,
{
    reveal_with_fuel(minimized, 1);
    if k > 0 {
        lemma_minimized_short(s, ord, (k - 1) as nat);
    }
}

/// A term sequence matching a set holds exactly the set's mappings.
proof fn lemma_entry_classes(ts: Seq<ProductTerm>, s: Set<Entries>)
    requires
        matches_set(ts, s),
    ensures
        forall|x: Entries| mem_of(entry_set(ts), x) <==> #[trigger] mem_of(s, x),
{
    assert forall|x: Entries| mem_of(entry_set(ts), x) implies #[trigger] mem_of(s, x) by {
        let e = choose|e: Entries| entry_set(ts).contains(e) && equiv(e, x);
        let j = choose|j: int| 0 <= j < ts.len() && e == (#[trigger] ts[j])@;
        assert(mem_of(s, e));
        let w = choose|w: Entries| s.contains(w) && equiv(w, e);
        lemma_equiv_trans(w, e, x);
        assert(mem_of(s, x));
    }
    assert forall|x: Entries| #[trigger] mem_of(s, x) implies mem_of(entry_set(ts), x) by {
        let w = choose|w: Entries| s.contains(w) && equiv(w, x);
        let j = choose|j: int| 0 <= j < ts.len() && equiv((#[trigger] ts[j])@, w);
        lemma_equiv_trans((ts[j])@, w, x);
        assert(entry_set(ts).contains((ts[j])@));
        assert(mem_of(entry_set(ts), x));
    }
}

/// A prefix test does not depend on the representative of a mapping.
proof fn lemma_prefix_respects(p: Entries, e1: Entries, e2: Entries)
    requires
        equiv(e1, e2),
    ensures
        prefix_of(p, e1) <==> prefix_of(p, e2),
{
    lemma_equiv_sym(e1, e2);
    if prefix_of(p, e1) {
        assert(prefix_of(p, e2)) by {
            assert forall|i: int|
                0 <= i < p.len() implies #[trigger] has_key(e2, key_at(p, i)) && value_of(
                e2,
                key_at(p, i),
            ) == p[i].1 by {
                assert(has_key(e1, key_at(p, i)));
                assert(value_of(e1, key_at(p, i)) == p[i].1);
            }
        }
    }
    if prefix_of(p, e2) {
        assert(prefix_of(p, e1)) by {
            assert forall|i: int|
                0 <= i < p.len() implies #[trigger] has_key(e1, key_at(p, i)) && value_of(
                e1,
                key_at(p, i),
            ) == p[i].1 by {
                assert(has_key(e2, key_at(p, i)));
                assert(value_of(e2, key_at(p, i)) == p[i].1);
            }
        }
    }
}

/// The round transformer depends only on the mappings the working set
/// holds, not on their representatives.
proof fn lemma_round_same(s1: Set<Entries>, s2: Set<Entries>, ord: Seq<Seq<char>>)
    requires
        forall|x: Entries| #[trigger] mem_of(s1, x) <==> mem_of(s2, x),
    ensures
        round_of(s1, ord) == round_of(s2, ord),
{
    reveal(leaf_emits);
    reveal(round_of);
    let prefix = ord.drop_last();
    let axis = ord.last();
    assert forall|p: Entries| #[trigger] pruned_prefix(p, s1, prefix) implies pruned_prefix(
        p,
        s2,
        prefix,
    ) by {
        let w = choose|w: Entries| s1.contains(w) && prefix_of(p, w);
        assert(equiv(w, w));
        assert(mem_of(s1, w));
        assert(mem_of(s2, w));
        let w2 = choose|w2: Entries| s2.contains(w2) && equiv(w2, w);
        lemma_prefix_respects(p, w2, w);
        assert(prefix_of(p, w2));
    }
    assert forall|p: Entries| #[trigger] pruned_prefix(p, s2, prefix) implies pruned_prefix(
        p,
        s1,
        prefix,
    ) by {
        let w = choose|w: Entries| s2.contains(w) && prefix_of(p, w);
        assert(equiv(w, w));
        assert(mem_of(s2, w));
        assert(mem_of(s1, w));
        let w2 = choose|w2: Entries| s1.contains(w2) && equiv(w2, w);
        lemma_prefix_respects(p, w2, w);
        assert(prefix_of(p, w2));
    }
    assert forall|p: Entries, e: Entries|
        #[trigger] leaf_emits(p, s1, axis, e) == #[trigger] leaf_emits(p, s2, axis, e) by {
        assert(mem_of(s1, p.push((axis, LiteralValue::DontCare))) <==> mem_of(
            s2,
            p.push((axis, LiteralValue::DontCare)),
        ));
        assert(mem_of(s1, p.push((axis, LiteralValue::False))) <==> mem_of(
            s2,
            p.push((axis, LiteralValue::False)),
        ));
        assert(mem_of(s1, p.push((axis, LiteralValue::True))) <==> mem_of(
            s2,
            p.push((axis, LiteralValue::True)),
        ));
    }
    assert forall|e: Entries|
        round_of(s1, ord).contains(e) == round_of(s2, ord).contains(e) by {
        if round_of(s1, ord).contains(e) {
            let p = choose|p: Entries|
                #[trigger] pruned_prefix(p, s1, prefix) && leaf_emits(p, s1, axis, e);
            assert(pruned_prefix(p, s2, prefix) && leaf_emits(p, s2, axis, e));
        }
        if round_of(s2, ord).contains(e) {
            let p = choose|p: Entries|
                #[trigger] pruned_prefix(p, s2, prefix) && leaf_emits(p, s2, axis, e);
            assert(pruned_prefix(p, s1, prefix) && leaf_emits(p, s1, axis, e));
        }
    }
    assert(round_of(s1, ord) =~= round_of(s2, ord));
}

/// Membership in a term sequence's mapping set is exact matching with
/// one of its members.
proof fn lemma_mem_exact(ts: Seq<ProductTerm>, x: Entries)
    requires
        all_wf(ts),
        distinct_keys(x),
    ensures
        mem_of(entry_set(ts), x) <==> exists|j: int|
            0 <= j < ts.len() && exact_match(x, (#[trigger] ts[j])@),
{
    if mem_of(entry_set(ts), x) {
        let e = choose|e: Entries| entry_set(ts).contains(e) && equiv(e, x);
        let j = choose|j: int| 0 <= j < ts.len() && e == (#[trigger] ts[j])@;
        lemma_equiv_sym(e, x);
        lemma_equiv_exact_match(x, (ts[j])@);
        assert(exact_match(x, (ts[j])@));
    }
    if exists|j: int| 0 <= j < ts.len() && exact_match(x, (#[trigger] ts[j])@) {
        let j = choose|j: int| 0 <= j < ts.len() && exact_match(x, (#[trigger] ts[j])@);
        lemma_exact_match_equiv(x, (ts[j])@);
        lemma_equiv_sym(x, (ts[j])@);
        assert(entry_set(ts).contains((ts[j])@));
        assert(mem_of(entry_set(ts), x));
    }
}

/// The two concrete extensions of one path always merge: they differ
/// exactly on the axis.
proof fn lemma_siblings_mergeable(p: Entries, axis: Seq<char>)
    requires
        distinct_keys(p),
        !has_key(p, axis),
    ensures
        mergeable(
            p.push((axis, LiteralValue::False)),
            p.push((axis, LiteralValue::True)),
        ),
{
    let f = p.push((axis, LiteralValue::False));
    let t = p.push((axis, LiteralValue::True));
    lemma_push_keys(p, axis, LiteralValue::False);
    lemma_push_keys(p, axis, LiteralValue::True);
    assert forall|k: Seq<char>| has_key(f, k) <==> has_key(t, k) by {}
    assert forall|k: Seq<char>| #[trigger] diff_at(f, t, k) implies k == axis by {
        if k != axis {
            assert(has_key(p, k));
            assert(value_of(f, k) == value_of(p, k));
            assert(value_of(t, k) == value_of(p, k));
        }
    }
}

/// The canonical path `p` survives pruning: it is a prefix of at least
/// one working-set term.
pub open spec fn survives(p: Entries, ts: Seq<ProductTerm>) -> bool {
    exists|j: int| 0 <= j < ts.len() && prefix_of(p, (#[trigger] ts[j])@)
}

/// The entries list the variables of `vs` in order: the canonical form
/// every tree path is built in.
pub open spec fn canonical_over(p: Entries, vs: Seq<Seq<char>>) -> bool {
    p.len() == vs.len() && forall|i: int| 0 <= i < p.len() ==> (#[trigger] p[i]).0 == vs[i]
}

/// The term `x` is `parent` extended by one literal for the variable
/// `k`.
pub open spec fn extension_of(x: Entries, parent: Entries, k: Seq<char>) -> bool {
    exists|lit: LiteralValue| x == #[trigger] parent.push((k, lit))
}

/// The term `x` extends the attached term of one of the first `bound`
/// nodes.
pub open spec fn child_of_processed(
    x: Entries,
    nodes: Seq<TernaryNode>,
    bound: int,
    k: Seq<char>,
) -> bool {
    exists|m: int| 0 <= m < bound && extension_of(x, (#[trigger] nodes[m]).term_entries(), k)
}

/// A term whose variables all lie in `vs` cannot mention a name outside
/// `vs`.
proof fn lemma_vars_excludes(p: Entries, vs: Seq<Seq<char>>, k: Seq<char>)
    requires
        vars_exactly(p, vs),
        !vs.contains(k),
    ensures
        !has_key(p, k),
{
}

/// Extensions of terms with different mappings, or by different
/// literals, have different mappings.
proof fn lemma_ext_distinct(
    p1: Entries,
    p2: Entries,
    k: Seq<char>,
    v1: LiteralValue,
    v2: LiteralValue,
)
    requires
        distinct_keys(p1),
        distinct_keys(p2),
        !has_key(p1, k),
        !has_key(p2, k),
        !equiv(p1, p2) || v1 != v2,
    ensures
        !equiv(p1.push((k, v1)), p2.push((k, v2))),
{
    if equiv(p1.push((k, v1)), p2.push((k, v2))) {
        lemma_push_equiv_parts(p1, p2, k, v1, v2);
    }
}

/// What one pruning probe does to the frontier under construction: when
/// the extension of `p` by `lit` is a prefix of some working-set term, a
/// node carrying it and tagged `nv` is appended; otherwise nothing
/// changes.
pub open spec fn probe_step(
    before: Seq<TernaryNode>,
    after: Seq<TernaryNode>,
    p: Entries,
    k: Seq<char>,
    lit: LiteralValue,
    nv: Seq<char>,
    ts: Seq<ProductTerm>,
) -> bool {
    if survives(p.push((k, lit)), ts) {
        &&& after.len() == before.len() + 1
        &&& forall|i: int| 0 <= i < before.len() ==> after[i] == before[i]
        &&& after.last().has_term()
        &&& after.last().term_entries() == p.push((k, lit))
        &&& after.last().var_name() == Some(nv)
    } else {
        after == before
    }
}

/// After the three probes of one node, every child is a canonical
/// surviving path one variable longer, tagged with the next variable.
proof fn lemma_frontier_props(
    cs0: Seq<TernaryNode>,
    cs1: Seq<TernaryNode>,
    cs2: Seq<TernaryNode>,
    cs3: Seq<TernaryNode>,
    p: Entries,
    vsc: Seq<Seq<char>>,
    k: Seq<char>,
    nv: Seq<char>,
    ts: Seq<ProductTerm>,
)
    requires
        canonical_over(p, vsc),
        probe_step(cs0, cs1, p, k, LiteralValue::False, nv, ts),
        probe_step(cs1, cs2, p, k, LiteralValue::DontCare, nv, ts),
        probe_step(cs2, cs3, p, k, LiteralValue::True, nv, ts),
        forall|ch: int|
            0 <= ch < cs0.len() ==> canonical_over(
                (#[trigger] cs0[ch]).term_entries(),
                vsc.push(k),
            ) && survives(cs0[ch].term_entries(), ts) && cs0[ch].var_name() == Some(nv),
    ensures
        forall|ch: int|
            0 <= ch < cs3.len() ==> canonical_over(
                (#[trigger] cs3[ch]).term_entries(),
                vsc.push(k),
            ) && survives(cs3[ch].term_entries(), ts) && cs3[ch].var_name() == Some(nv),
{
    assert forall|ch: int| 0 <= ch < cs3.len() implies canonical_over(
        (#[trigger] cs3[ch]).term_entries(),
        vsc.push(k),
    ) && survives(cs3[ch].term_entries(), ts) && cs3[ch].var_name() == Some(nv) by {
        if ch < cs0.len() {
            assert(cs3[ch] == cs0[ch]);
        } else {
            if ch < cs1.len() {
                assert(cs3[ch] == cs1.last());
                lemma_canonical_push(p, vsc, k, LiteralValue::False);
            } else if ch < cs2.len() {
                assert(cs3[ch] == cs2.last());
                lemma_canonical_push(p, vsc, k, LiteralValue::DontCare);
            } else {
                assert(cs3[ch] == cs3.last());
                lemma_canonical_push(p, vsc, k, LiteralValue::True);
            }
        }
    }
}

/// After the three probes of one node, every surviving canonical path
/// one variable longer is either already a child or still reachable
/// from an unprocessed node.
proof fn lemma_frontier_complete(
    nodes: Seq<TernaryNode>,
    index: int,
    cs0: Seq<TernaryNode>,
    cs1: Seq<TernaryNode>,
    cs2: Seq<TernaryNode>,
    cs3: Seq<TernaryNode>,
    p: Entries,
    vsc: Seq<Seq<char>>,
    k: Seq<char>,
    nv: Seq<char>,
    ts: Seq<ProductTerm>,
)
    requires
        0 <= index < nodes.len(),
        p == nodes[index].term_entries(),
        canonical_over(p, vsc),
        p.len() == vsc.len(),
        probe_step(cs0, cs1, p, k, LiteralValue::False, nv, ts),
        probe_step(cs1, cs2, p, k, LiteralValue::DontCare, nv, ts),
        probe_step(cs2, cs3, p, k, LiteralValue::True, nv, ts),
        forall|pp: Entries|
            #[trigger] canonical_over(pp, vsc.push(k)) && survives(pp, ts) ==> (exists|ch: int|
                0 <= ch < cs0.len() && (#[trigger] cs0[ch]).term_entries() == pp) || (exists|
                m: int,
            | index <= m < nodes.len() && (#[trigger] nodes[m]).term_entries() == pp.drop_last()),
    ensures
        forall|pp: Entries|
            #[trigger] canonical_over(pp, vsc.push(k)) && survives(pp, ts) ==> (exists|ch: int|
                0 <= ch < cs3.len() && (#[trigger] cs3[ch]).term_entries() == pp) || (exists|
                m: int,
            | index + 1 <= m < nodes.len() && (#[trigger] nodes[m]).term_entries()
                == pp.drop_last()),
{
    assert forall|pp: Entries|
        #[trigger] canonical_over(pp, vsc.push(k)) && survives(pp, ts) implies (exists|ch: int|
        0 <= ch < cs3.len() && (#[trigger] cs3[ch]).term_entries() == pp) || (exists|m: int|
        index + 1 <= m < nodes.len() && (#[trigger] nodes[m]).term_entries()
            == pp.drop_last()) by {
        if exists|ch: int| 0 <= ch < cs0.len() && (#[trigger] cs0[ch]).term_entries() == pp {
            let ch = choose|ch: int|
                0 <= ch < cs0.len() && (#[trigger] cs0[ch]).term_entries() == pp;
            assert(cs3[ch] == cs0[ch]);
            assert(cs3[ch].term_entries() == pp);
        } else {
            let m = choose|m: int|
                index <= m < nodes.len() && (#[trigger] nodes[m]).term_entries()
                    == pp.drop_last();
            if m == index {
                let lit = pp.last().1;
                assert(pp.last().0 == vsc.push(k)[vsc.len() as int]);
                assert(pp.last().0 == k);
                assert(pp.drop_last() == p);
                assert(pp =~= p.push((k, lit))) by {
                    assert forall|i: int| 0 <= i < pp.len() implies #[trigger] pp[i] == p.push(
                        (k, lit),
                    )[i] by {
                        if i < p.len() {
                            assert(pp[i] == pp.drop_last()[i]);
                        } else {
                            assert(pp[i] == pp.last());
                        }
                    }
                }
                assert(survives(p.push((k, lit)), ts));
                if lit == LiteralValue::False {
                    assert(cs1.len() == cs0.len() + 1 && cs1.last().term_entries() == pp);
                    assert(cs3[cs0.len() as int].term_entries() == pp);
                } else if lit == LiteralValue::DontCare {
                    assert(cs2.len() == cs1.len() + 1 && cs2.last().term_entries() == pp);
                    assert(cs3[cs1.len() as int].term_entries() == pp);
                } else {
                    assert(cs3.len() == cs2.len() + 1 && cs3.last().term_entries() == pp);
                    assert(cs3[cs2.len() as int].term_entries() == pp);
                }
            }
        }
    }
}

/// After the three probes of one node, the children remain well-formed
/// frontier members: terms attached, duplicate-free, over the consumed
/// variables, provenanced to processed nodes, and pairwise distinct.
proof fn lemma_frontier_misc(
    nodes: Seq<TernaryNode>,
    index: int,
    cs0: Seq<TernaryNode>,
    cs1: Seq<TernaryNode>,
    cs2: Seq<TernaryNode>,
    cs3: Seq<TernaryNode>,
    p: Entries,
    full: Seq<Seq<char>>,
    c: int,
    ts: Seq<ProductTerm>,
)
    requires
        0 <= index < nodes.len(),
        0 <= c <= full.len() - 2,
        distinct_names(full),
        !full.subrange(0, c).contains(full[c]),
        p == nodes[index].term_entries(),
        distinct_keys(p),
        vars_exactly(p, full.subrange(0, c)),
        !has_key(p, full[c]),
        probe_step(cs0, cs1, p, full[c], LiteralValue::False, full[c + 1], ts),
        probe_step(cs1, cs2, p, full[c], LiteralValue::DontCare, full[c + 1], ts),
        probe_step(cs2, cs3, p, full[c], LiteralValue::True, full[c + 1], ts),
        forall|n: int|
            0 <= n < nodes.len() ==> distinct_keys((#[trigger] nodes[n]).term_entries())
                && vars_exactly(nodes[n].term_entries(), full.subrange(0, c)),
        forall|n1: int, n2: int|
            0 <= n1 < n2 < nodes.len() ==> !equiv(
                (#[trigger] nodes[n1]).term_entries(),
                (#[trigger] nodes[n2]).term_entries(),
            ),
        forall|ch: int|
            0 <= ch < cs0.len() ==> (#[trigger] cs0[ch]).has_term() && distinct_keys(
                cs0[ch].term_entries(),
            ) && vars_exactly(cs0[ch].term_entries(), full.subrange(0, c + 1)),
        forall|ch: int|
            0 <= ch < cs0.len() ==> child_of_processed(
                (#[trigger] cs0[ch]).term_entries(),
                nodes,
                index,
                full[c],
            ),
        forall|c1: int, c2: int|
            0 <= c1 < c2 < cs0.len() ==> !equiv(
                (#[trigger] cs0[c1]).term_entries(),
                (#[trigger] cs0[c2]).term_entries(),
            ),
    ensures
        forall|ch: int|
            0 <= ch < cs3.len() ==> (#[trigger] cs3[ch]).has_term() && distinct_keys(
                cs3[ch].term_entries(),
            ) && vars_exactly(cs3[ch].term_entries(), full.subrange(0, c + 1)),
        forall|ch: int|
            0 <= ch < cs3.len() ==> child_of_processed(
                (#[trigger] cs3[ch]).term_entries(),
                nodes,
                index + 1,
                full[c],
            ),
        forall|c1: int, c2: int|
            0 <= c1 < c2 < cs3.len() ==> !equiv(
                (#[trigger] cs3[c1]).term_entries(),
                (#[trigger] cs3[c2]).term_entries(),
            ),
{
    assert(full.subrange(0, c + 1) =~= full.subrange(0, c).push(full[c]));
    assert forall|ch: int| 0 <= ch < cs3.len() implies (#[trigger] cs3[ch]).has_term()
        && distinct_keys(cs3[ch].term_entries()) && vars_exactly(
        cs3[ch].term_entries(),
        full.subrange(0, c + 1),
    ) by {
        if ch < cs0.len() {
            assert(cs3[ch] == cs0[ch]);
        } else if ch < cs1.len() {
            assert(cs3[ch] == cs1.last());
            lemma_ext_vars(p, full.subrange(0, c), full[c], LiteralValue::False);
        } else if ch < cs2.len() {
            assert(cs3[ch] == cs2.last());
            lemma_ext_vars(p, full.subrange(0, c), full[c], LiteralValue::DontCare);
        } else {
            assert(cs3[ch] == cs3.last());
            lemma_ext_vars(p, full.subrange(0, c), full[c], LiteralValue::True);
        }
    }
    assert forall|ch: int| 0 <= ch < cs3.len() implies child_of_processed(
        (#[trigger] cs3[ch]).term_entries(),
        nodes,
        index + 1,
        full[c],
    ) by {
        if ch < cs0.len() {
            let m = choose|m: int|
                0 <= m < index && extension_of(
                    cs0[ch].term_entries(),
                    (#[trigger] nodes[m]).term_entries(),
                    full[c],
                );
            assert(cs3[ch] == cs0[ch]);
            assert(extension_of(cs3[ch].term_entries(), nodes[m].term_entries(), full[c]));
        } else {
            let e = cs3[ch].term_entries();
            if ch < cs1.len() {
                assert(cs3[ch] == cs1.last());
                assert(e == p.push((full[c], LiteralValue::False)));
            } else if ch < cs2.len() {
                assert(cs3[ch] == cs2.last());
                assert(e == p.push((full[c], LiteralValue::DontCare)));
            } else {
                assert(cs3[ch] == cs3.last());
                assert(e == p.push((full[c], LiteralValue::True)));
            }
            assert(extension_of(e, nodes[index].term_entries(), full[c]));
        }
    }
    assert forall|c1: int, c2: int| 0 <= c1 < c2 < cs3.len() implies !equiv(
        (#[trigger] cs3[c1]).term_entries(),
        (#[trigger] cs3[c2]).term_entries(),
    ) by {
        let e1 = cs3[c1].term_entries();
        let e2 = cs3[c2].term_entries();
        if c2 < cs0.len() {
            assert(cs3[c1] == cs0[c1] && cs3[c2] == cs0[c2]);
            assert(!equiv(cs0[c1].term_entries(), cs0[c2].term_entries()));
        } else if c1 < cs0.len() {
            let m = choose|m: int|
                0 <= m < index && extension_of(
                    cs0[c1].term_entries(),
                    (#[trigger] nodes[m]).term_entries(),
                    full[c],
                );
            let q = nodes[m].term_entries();
            let lit1 = choose|lit1: LiteralValue| cs0[c1].term_entries() == q.push((full[c], lit1));
            assert(cs3[c1] == cs0[c1]);
            assert(e1 == q.push((full[c], lit1)));
            lemma_vars_excludes(q, full.subrange(0, c), full[c]);
            let lit2: LiteralValue = if c2 < cs1.len() {
                LiteralValue::False
            } else if c2 < cs2.len() {
                LiteralValue::DontCare
            } else {
                LiteralValue::True
            };
            if c2 < cs1.len() {
                assert(cs3[c2] == cs1.last());
            } else if c2 < cs2.len() {
                assert(cs3[c2] == cs2.last());
            } else {
                assert(cs3[c2] == cs3.last());
            }
            assert(e2 == p.push((full[c], lit2)));
            assert(!equiv(q, p));
            lemma_ext_distinct(q, p, full[c], lit1, lit2);
        } else {
            let lit1: LiteralValue = if c1 < cs1.len() {
                LiteralValue::False
            } else if c1 < cs2.len() {
                LiteralValue::DontCare
            } else {
                LiteralValue::True
            };
            let lit2: LiteralValue = if c2 < cs1.len() {
                LiteralValue::False
            } else if c2 < cs2.len() {
                LiteralValue::DontCare
            } else {
                LiteralValue::True
            };
            if c1 < cs1.len() {
                assert(cs3[c1] == cs1.last());
            } else if c1 < cs2.len() {
                assert(cs3[c1] == cs2.last());
            } else {
                assert(cs3[c1] == cs3.last());
            }
            if c2 < cs1.len() {
                assert(cs3[c2] == cs1.last());
            } else if c2 < cs2.len() {
                assert(cs3[c2] == cs2.last());
            } else {
                assert(cs3[c2] == cs3.last());
            }
            assert(e1 == p.push((full[c], lit1)));
            assert(e2 == p.push((full[c], lit2)));
            assert(lit1 != lit2);
            lemma_ext_distinct(p, p, full[c], lit1, lit2);
        }
    }
}

/// After the three probes of one node, every working-set term whose
/// restriction was reachable stays reachable: as a child already built,
/// or through a node not yet processed.
proof fn lemma_frontier_restrict(
    nodes: Seq<TernaryNode>,
    index: int,
    cs0: Seq<TernaryNode>,
    cs1: Seq<TernaryNode>,
    cs2: Seq<TernaryNode>,
    cs3: Seq<TernaryNode>,
    p: Entries,
    full: Seq<Seq<char>>,
    c: int,
    ts: Seq<ProductTerm>,
)
    requires
        0 <= index < nodes.len(),
        0 <= c <= full.len() - 2,
        all_wf(ts),
        p == nodes[index].term_entries(),
        distinct_keys(p),
        !has_key(p, full[c]),
        probe_step(cs0, cs1, p, full[c], LiteralValue::False, full[c + 1], ts),
        probe_step(cs1, cs2, p, full[c], LiteralValue::DontCare, full[c + 1], ts),
        probe_step(cs2, cs3, p, full[c], LiteralValue::True, full[c + 1], ts),
        forall|i: int|
            0 <= i < ts.len() && vars_exactly((#[trigger] ts[i])@, full) ==> {
                ||| some_leaf_restricts(cs0, ts[i]@, full.subrange(0, c + 1))
                ||| exists|m: int|
                    index <= m < nodes.len() && restriction_of(
                        (#[trigger] nodes[m]).term_entries(),
                        ts[i]@,
                        full.subrange(0, c),
                    )
            },
    ensures
        forall|i: int|
            0 <= i < ts.len() && vars_exactly((#[trigger] ts[i])@, full) ==> {
                ||| some_leaf_restricts(cs3, ts[i]@, full.subrange(0, c + 1))
                ||| exists|m: int|
                    index + 1 <= m < nodes.len() && restriction_of(
                        (#[trigger] nodes[m]).term_entries(),
                        ts[i]@,
                        full.subrange(0, c),
                    )
            },
{
    assert(full.subrange(0, c + 1) =~= full.subrange(0, c).push(full[c]));
    assert forall|i: int|
        0 <= i < ts.len() && vars_exactly((#[trigger] ts[i])@, full) implies {
        ||| some_leaf_restricts(cs3, ts[i]@, full.subrange(0, c + 1))
        ||| exists|m: int|
            index + 1 <= m < nodes.len() && restriction_of(
                (#[trigger] nodes[m]).term_entries(),
                ts[i]@,
                full.subrange(0, c),
            )
    } by {
        let t = ts[i]@;
        if some_leaf_restricts(cs0, t, full.subrange(0, c + 1)) {
            let l = choose|l: int|
                0 <= l < cs0.len() && restriction_of(
                    (#[trigger] cs0[l]).term_entries(),
                    t,
                    full.subrange(0, c + 1),
                );
            assert(cs3[l] == cs0[l]);
            assert(restriction_of((cs3[l]).term_entries(), t, full.subrange(0, c + 1)));
            assert(some_leaf_restricts(cs3, t, full.subrange(0, c + 1)));
        } else {
            let m = choose|m: int|
                index <= m < nodes.len() && restriction_of(
                    (#[trigger] nodes[m]).term_entries(),
                    t,
                    full.subrange(0, c),
                );
            if m == index {
                assert(has_key(t, full[c])) by {
                    assert(full.subrange(0, c + 1)[c] == full[c]);
                    assert(vars_exactly(t, full));
                    assert(has_key(t, full[c]));
                }
                let v = value_of(t, full[c]);
                lemma_restrict_step(p, t, full.subrange(0, c), full[c]);
                let ext = p.push((full[c], v));
                assert(prefix_of(ext, t));
                assert(survives(ext, ts));
                if v == LiteralValue::False {
                    assert(cs1.len() == cs0.len() + 1 && cs1.last().term_entries() == ext);
                    assert(cs3[cs0.len() as int] == cs1[cs0.len() as int]);
                    assert(restriction_of(
                        cs3[cs0.len() as int].term_entries(),
                        t,
                        full.subrange(0, c + 1),
                    ));
                } else if v == LiteralValue::DontCare {
                    assert(cs2.len() == cs1.len() + 1 && cs2.last().term_entries() == ext);
                    assert(cs3[cs1.len() as int] == cs2[cs1.len() as int]);
                    assert(restriction_of(
                        cs3[cs1.len() as int].term_entries(),
                        t,
                        full.subrange(0, c + 1),
                    ));
                } else {
                    assert(cs3.len() == cs2.len() + 1 && cs3.last().term_entries() == ext);
                    assert(restriction_of(
                        cs3[cs2.len() as int].term_entries(),
                        t,
                        full.subrange(0, c + 1),
                    ));
                }
                assert(some_leaf_restricts(cs3, t, full.subrange(0, c + 1)));
            }
        }
    }
}

/// Extending a canonical path by the next variable keeps it canonical.
proof fn lemma_canonical_push(p: Entries, vs: Seq<Seq<char>>, k: Seq<char>, lit: LiteralValue)
    requires
        canonical_over(p, vs),
    ensures
        canonical_over(p.push((k, lit)), vs.push(k)),
{
    let e = p.push((k, lit));
    assert forall|i: int| 0 <= i < e.len() implies (#[trigger] e[i]).0 == vs.push(k)[i] by {
        if i < p.len() {
            assert(e[i] == p[i]);
            assert(vs.push(k)[i] == vs[i]);
        } else {
            assert(e[i] == (k, lit));
            assert(vs.push(k)[i] == k);
        }
    }
}

/// Extending a term by a fresh variable extends its variable list.
proof fn lemma_ext_vars(p: Entries, vs: Seq<Seq<char>>, k: Seq<char>, lit: LiteralValue)
    requires
        distinct_keys(p),
        vars_exactly(p, vs),
        !has_key(p, k),
    ensures
        distinct_keys(p.push((k, lit))),
        vars_exactly(p.push((k, lit)), vs.push(k)),
{
    lemma_push_keys(p, k, lit);
    let ext = p.push((k, lit));
    assert forall|k0: Seq<char>| #[trigger] has_key(ext, k0) implies vs.push(k).contains(k0) by {
        if has_key(p, k0) {
            let i = choose|i: int| 0 <= i < vs.len() && vs[i] == k0;
            assert(vs.push(k)[i] == k0);
        } else {
            assert(vs.push(k)[vs.len() as int] == k0);
        }
    }
    assert forall|i: int| 0 <= i < vs.push(k).len() implies has_key(ext, #[trigger] vs.push(k)[i]) by {
        if i < vs.len() {
            assert(vs.push(k)[i] == vs[i]);
            assert(has_key(p, vs[i]));
        } else {
            assert(vs.push(k)[i] == k);
        }
    }
}

/// Extending the restriction of `t` with `t`'s own literal for a fresh
/// variable keeps it a prefix of `t`, and a restriction one variable
/// wider.
proof fn lemma_restrict_step(p: Entries, t: Entries, vs: Seq<Seq<char>>, k: Seq<char>)
    requires
        distinct_keys(p),
        distinct_keys(t),
        restriction_of(p, t, vs),
        !has_key(p, k),
        has_key(t, k),
    ensures
        prefix_of(p.push((k, value_of(t, k))), t),
        restriction_of(p.push((k, value_of(t, k))), t, vs.push(k)),
{
    let v = value_of(t, k);
    let ext = p.push((k, v));
    lemma_push_keys(p, k, v);
    assert forall|i: int| 0 <= i < ext.len() implies #[trigger] has_key(t, key_at(ext, i))
        && value_of(t, key_at(ext, i)) == ext[i].1 by {
        if i < p.len() {
            assert(key_at(ext, i) == key_at(p, i));
            lemma_value_at(p, i);
            assert(has_key(p, key_at(p, i)));
        } else {
            assert(key_at(ext, i) == k && ext[i].1 == v);
        }
    }
    assert forall|k0: Seq<char>| #[trigger] has_key(ext, k0) implies has_key(t, k0)
        && vs.push(k).contains(k0) && value_of(ext, k0) == value_of(t, k0) by {
        if has_key(p, k0) {
            let i = choose|i: int| 0 <= i < vs.len() && vs[i] == k0;
            assert(vs.push(k)[i] == k0);
        } else {
            assert(k0 == k);
            assert(vs.push(k)[vs.len() as int] == k0);
        }
    }
    assert forall|i: int|
        0 <= i < vs.push(k).len() && has_key(t, #[trigger] vs.push(k)[i]) implies has_key(
        ext,
        vs.push(k)[i],
    ) by {
        if i < vs.len() {
            assert(vs.push(k)[i] == vs[i]);
        } else {
            assert(vs.push(k)[i] == k);
        }
    }
}

/// A term that exactly matches a member of the set is covered by the
/// set.
proof fn lemma_emit_matched(ext: Entries, ts: Seq<ProductTerm>, j: int)
    requires
        all_wf(ts),
        distinct_keys(ext),
        0 <= j < ts.len(),
        exact_match(ext, (ts[j])@),
    ensures
        covered_by(ext, ts),
{
    lemma_exact_match_equiv(ext, ts[j]@);
    assert forall|asg: Assignment| #[trigger] term_sat(ext, asg) implies sat_any(ts, asg) by {
        lemma_equiv_sat(ext, ts[j]@, asg);
        assert(term_sat((ts[j])@, asg));
    }
}

/// Every member of a term set is covered by that set.
proof fn lemma_member_covered(ts: Seq<ProductTerm>, i: int)
    requires
        0 <= i < ts.len(),
    ensures
        covered_by((ts[i])@, ts),
{
    assert forall|asg: Assignment| #[trigger] term_sat((ts[i])@, asg) implies sat_any(ts, asg) by {
        assert(0 <= i < ts.len() && term_sat((ts[i])@, asg));
    }
}

/// A set holding a term equal to `x` covers everything `x` subsumes.
proof fn lemma_covered_after_insert(ft: Seq<ProductTerm>, x: Entries, t: Entries)
    requires
        exists|j: int| 0 <= j < ft.len() && equiv((#[trigger] ft[j])@, x),
        subsumes(x, t),
    ensures
        term_covered(t, ft),
{
    let j = choose|j: int| 0 <= j < ft.len() && equiv((#[trigger] ft[j])@, x);
    lemma_equiv_subsumes((ft[j])@, x);
    lemma_subsumes_trans((ft[j])@, x, t);
}

/// Covering persists when the set only grows at the end.
proof fn lemma_covered_grow(t: Entries, s1: Seq<ProductTerm>, s2: Seq<ProductTerm>)
    requires
        term_covered(t, s1),
        s1.len() <= s2.len(),
        forall|j: int| 0 <= j < s1.len() ==> s2[j] == s1[j],
    ensures
        term_covered(t, s2),
{
    let j = choose|j: int| 0 <= j < s1.len() && subsumes((#[trigger] s1[j])@, t);
    assert(subsumes((s2[j])@, t));
}

/// Completing the restriction of `t` with `t`'s own literal on the axis
/// rebuilds `t`'s mapping exactly.
proof fn lemma_restrict_full(p: Entries, t: Entries, prefix: Seq<Seq<char>>, axis: Seq<char>)
    requires
        distinct_keys(p),
        distinct_keys(t),
        restriction_of(p, t, prefix),
        !has_key(p, axis),
        has_key(t, axis),
        vars_exactly(t, prefix.push(axis)),
    ensures
        equiv(p.push((axis, value_of(t, axis))), t),
{
    let v = value_of(t, axis);
    let ext = p.push((axis, v));
    lemma_push_keys(p, axis, v);
    assert forall|k: Seq<char>| #[trigger] has_key(ext, k) implies has_key(t, k) && value_of(
        ext,
        k,
    ) == value_of(t, k) by {}
    assert forall|k: Seq<char>| #[trigger] has_key(t, k) implies has_key(ext, k) by {
        assert(prefix.push(axis).contains(k));
        let i = choose|i: int| 0 <= i < prefix.push(axis).len() && prefix.push(axis)[i] == k;
        if i < prefix.len() {
            assert(prefix.push(axis)[i] == prefix[i]);
            assert(has_key(p, prefix[i]));
        } else {
            assert(k == axis);
        }
    }
}

/// A don't-care on the axis over the restriction of `t` covers `t`.
proof fn lemma_star_subsumes(p: Entries, t: Entries, prefix: Seq<Seq<char>>, axis: Seq<char>)
    requires
        distinct_keys(p),
        distinct_keys(t),
        restriction_of(p, t, prefix),
        !has_key(p, axis),
        has_key(t, axis),
        vars_exactly(t, prefix.push(axis)),
    ensures
        subsumes(p.push((axis, LiteralValue::DontCare)), t),
{
    let star = p.push((axis, LiteralValue::DontCare));
    let ext = p.push((axis, value_of(t, axis)));
    lemma_restrict_full(p, t, prefix, axis);
    lemma_push_keys(p, axis, LiteralValue::DontCare);
    lemma_push_keys(p, axis, value_of(t, axis));
    assert forall|k: Seq<char>| has_key(star, k) <==> has_key(t, k) by {
        assert(has_key(star, k) <==> has_key(p, k) || k == axis);
        assert(has_key(ext, k) <==> has_key(p, k) || k == axis);
    }
    assert forall|k: Seq<char>| #[trigger] has_key(star, k) implies lit_subsumes(
        value_of(star, k),
        value_of(t, k),
    ) by {
        if k != axis {
            assert(has_key(p, k));
            assert(value_of(star, k) == value_of(p, k));
            assert(value_of(p, k) == value_of(t, k));
        }
    }
}

/// The merge of the False and True extensions of one path is the
/// don't-care extension of that path.
proof fn lemma_merged_is_star(p: Entries, axis: Seq<char>)
    requires
        distinct_keys(p),
        !has_key(p, axis),
    ensures
        merged(p.push((axis, LiteralValue::False)), p.push((axis, LiteralValue::True))) == p.push(
            (axis, LiteralValue::DontCare),
        ),
{
    let ef = p.push((axis, LiteralValue::False));
    let et = p.push((axis, LiteralValue::True));
    lemma_push_keys(p, axis, LiteralValue::False);
    lemma_push_keys(p, axis, LiteralValue::True);
    let m = merged(ef, et);
    assert forall|i: int| 0 <= i < m.len() implies m[i] == p.push(
        (axis, LiteralValue::DontCare),
    )[i] by {
        if i < p.len() {
            lemma_value_at(p, i);
            assert(ef[i] == p[i]);
            assert(has_key(p, key_at(p, i)));
            assert(value_of(et, key_at(p, i)) == value_of(p, key_at(p, i)));
            assert(value_of(p, key_at(p, i)) == p[i].1);
        } else {
            assert(ef[i] == (axis, LiteralValue::False));
            assert(value_of(et, axis) == LiteralValue::True);
        }
    }
    assert(m =~= p.push((axis, LiteralValue::DontCare)));
}

/// When both concrete extensions of a path exactly match working-set
/// terms, the don't-care extension is covered by the working set.
proof fn lemma_star_covered(p: Entries, axis: Seq<char>, ts: Seq<ProductTerm>, jf: int, jt: int)
    requires
        all_wf(ts),
        distinct_keys(p),
        !has_key(p, axis),
        0 <= jf < ts.len(),
        exact_match(p.push((axis, LiteralValue::False)), (ts[jf])@),
        0 <= jt < ts.len(),
        exact_match(p.push((axis, LiteralValue::True)), (ts[jt])@),
    ensures
        covered_by(p.push((axis, LiteralValue::DontCare)), ts),
{
    let ef = p.push((axis, LiteralValue::False));
    let et = p.push((axis, LiteralValue::True));
    let star = p.push((axis, LiteralValue::DontCare));
    lemma_push_keys(p, axis, LiteralValue::False);
    lemma_push_keys(p, axis, LiteralValue::True);
    lemma_push_keys(p, axis, LiteralValue::DontCare);
    assert forall|asg: Assignment| #[trigger] term_sat(star, asg) implies sat_any(ts, asg) by {
        lemma_push_sat(p, axis, LiteralValue::DontCare, asg);
        if asg[axis] {
            lemma_push_sat(p, axis, LiteralValue::True, asg);
            assert(term_sat(et, asg));
            lemma_exact_match_equiv(et, (ts[jt])@);
            lemma_equiv_sat(et, (ts[jt])@, asg);
            assert(term_sat((ts[jt])@, asg));
        } else {
            lemma_push_sat(p, axis, LiteralValue::False, asg);
            assert(term_sat(ef, asg));
            lemma_exact_match_equiv(ef, (ts[jf])@);
            lemma_equiv_sat(ef, (ts[jf])@, asg);
            assert(term_sat((ts[jf])@, asg));
        }
    }
}

/// Extending a charged account by one more output term with a fresh
/// charge keeps every account invariant: the charges stay in range and
/// pairwise distinct, every output term stays linked to its charged
/// member, and no False or True rewrite of a don't-care-linked term
/// occurs among the output terms.
proof fn lemma_charge_push(
    ft: Seq<ProductTerm>,
    charges: Seq<int>,
    w: Seq<ProductTerm>,
    axis: Seq<char>,
    x: ProductTerm,
    c: int,
)
    requires
        all_wf(ft),
        all_wf(w),
        x.wf(),
        charges.len() == ft.len(),
        forall|j: int| 0 <= j < charges.len() ==> 0 <= #[trigger] charges[j] < w.len(),
        forall|j1: int, j2: int| 0 <= j1 < j2 < charges.len() ==> charges[j1] != charges[j2],
        forall|j: int|
            0 <= j < charges.len() ==> charge_link((#[trigger] ft[j])@, (w[charges[j]])@, axis),
        forall|j: int, j2: int|
            0 <= j < charges.len() && 0 <= j2 < ft.len() && !equiv(
                (#[trigger] ft[j])@,
                (w[charges[j]])@,
            ) ==> !equiv(
                (#[trigger] ft[j2])@,
                with_axis((ft[j])@, axis, LiteralValue::False),
            ) && !equiv((ft[j2])@, with_axis((ft[j])@, axis, LiteralValue::True)),
        0 <= c < w.len(),
        charge_link(x@, (w[c])@, axis),
        forall|j: int| 0 <= j < ft.len() ==> !equiv((#[trigger] ft[j])@, x@),
        !equiv(x@, (w[c])@) ==> forall|j2: int|
            0 <= j2 < ft.len() ==> !equiv(
                (#[trigger] ft[j2])@,
                with_axis(x@, axis, LiteralValue::False),
            ) && !equiv((ft[j2])@, with_axis(x@, axis, LiteralValue::True)),
        forall|j: int|
            0 <= j < charges.len() && !equiv((#[trigger] ft[j])@, (w[charges[j]])@) ==> !equiv(
                x@,
                with_axis((ft[j])@, axis, LiteralValue::False),
            ) && !equiv(x@, with_axis((ft[j])@, axis, LiteralValue::True)),
    ensures
        charges.push(c).len() == ft.push(x).len(),
        forall|j: int|
            0 <= j < charges.push(c).len() ==> 0 <= #[trigger] charges.push(c)[j] < w.len(),
        forall|j1: int, j2: int|
            0 <= j1 < j2 < charges.push(c).len() ==> charges.push(c)[j1] != charges.push(c)[j2],
        forall|j: int|
            0 <= j < charges.push(c).len() ==> charge_link(
                (#[trigger] ft.push(x)[j])@,
                (w[charges.push(c)[j]])@,
                axis,
            ),
        forall|j: int, j2: int|
            0 <= j < charges.push(c).len() && 0 <= j2 < ft.push(x).len() && !equiv(
                (#[trigger] ft.push(x)[j])@,
                (w[charges.push(c)[j]])@,
            ) ==> !equiv(
                (#[trigger] ft.push(x)[j2])@,
                with_axis((ft.push(x)[j])@, axis, LiteralValue::False),
            ) && !equiv((ft.push(x)[j2])@, with_axis((ft.push(x)[j])@, axis, LiteralValue::True)),
{
    let n = ft.len() as int;
    assert forall|j: int| 0 <= j < charges.len() implies charges[j] != c by {
        if charges[j] == c {
            let y = (ft[j])@;
            let ww = (w[c])@;
            assert(charge_link(y, ww, axis));
            if equiv(y, ww) && equiv(x@, ww) {
                lemma_equiv_join(y, x@, ww);
            } else if equiv(y, ww) && !equiv(x@, ww) {
                lemma_equiv_join(y, with_axis(x@, axis, LiteralValue::False), ww);
            } else if !equiv(y, ww) && equiv(x@, ww) {
                lemma_equiv_join(x@, with_axis(y, axis, LiteralValue::False), ww);
            } else {
                lemma_equiv_join(
                    with_axis(x@, axis, LiteralValue::False),
                    with_axis(y, axis, LiteralValue::False),
                    ww,
                );
                lemma_with_axis_equiv(x@, y, axis);
                lemma_equiv_sym(x@, y);
            }
        }
    }
    assert forall|j: int| 0 <= j < charges.push(c).len() implies charge_link(
        (#[trigger] ft.push(x)[j])@,
        (w[charges.push(c)[j]])@,
        axis,
    ) by {
        if j < n {
            assert(ft.push(x)[j] == ft[j] && charges.push(c)[j] == charges[j]);
        } else {
            assert(ft.push(x)[j] == x && charges.push(c)[j] == c);
        }
    }
    assert forall|j: int, j2: int|
        0 <= j < charges.push(c).len() && 0 <= j2 < ft.push(x).len() && !equiv(
            (#[trigger] ft.push(x)[j])@,
            (w[charges.push(c)[j]])@,
        ) implies !equiv(
        (#[trigger] ft.push(x)[j2])@,
        with_axis((ft.push(x)[j])@, axis, LiteralValue::False),
    ) && !equiv((ft.push(x)[j2])@, with_axis((ft.push(x)[j])@, axis, LiteralValue::True)) by {
        if j < n && j2 < n {
            assert(ft.push(x)[j] == ft[j] && ft.push(x)[j2] == ft[j2] && charges.push(c)[j]
                == charges[j]);
        } else if j < n && j2 == n {
            assert(ft.push(x)[j] == ft[j] && ft.push(x)[j2] == x && charges.push(c)[j]
                == charges[j]);
        } else if j == n && j2 < n {
            assert(ft.push(x)[j] == x && ft.push(x)[j2] == ft[j2] && charges.push(c)[j] == c);
        } else {
            assert(ft.push(x)[j] == x && ft.push(x)[j2] == x && charges.push(c)[j] == c);
            assert(!equiv(x@, (w[c])@));
            assert(has_key(x@, axis) && value_of(x@, axis) == LiteralValue::DontCare);
            lemma_with_axis_keys(x@, axis, LiteralValue::False);
            lemma_with_axis_keys(x@, axis, LiteralValue::True);
            if equiv(x@, with_axis(x@, axis, LiteralValue::False)) {
                assert(value_of(with_axis(x@, axis, LiteralValue::False), axis)
                    == LiteralValue::False);
            }
            if equiv(x@, with_axis(x@, axis, LiteralValue::True)) {
                assert(value_of(with_axis(x@, axis, LiteralValue::True), axis)
                    == LiteralValue::True);
            }
        }
    }
}

/// Pairwise-distinct indices drawn from `[0, n)` number at most `n`.
proof fn lemma_distinct_indices_bound(charges: Seq<int>, n: int)
    requires
        n >= 0,
        forall|j: int| 0 <= j < charges.len() ==> 0 <= #[trigger] charges[j] < n,
        forall|j1: int, j2: int| 0 <= j1 < j2 < charges.len() ==> charges[j1] != charges[j2],
    ensures
        charges.len() <= n,
{
    assert(charges.no_duplicates()) by {
        assert forall|j1: int, j2: int|
            0 <= j1 < charges.len() && 0 <= j2 < charges.len() && j1 != j2 implies charges[j1]
            != charges[j2] by {
            if j1 < j2 {
            } else {
                assert(charges[j2] != charges[j1]);
            }
        }
    }
    charges.unique_seq_to_set();
    lemma_int_range(0, n);
    assert(charges.to_set().subset_of(set_int_range(0, n))) by {
        assert forall|e: int| charges.to_set().contains(e) implies set_int_range(0, n).contains(
            e,
        ) by {
            assert(charges.contains(e));
            let j = choose|j: int| 0 <= j < charges.len() && charges[j] == e;
            assert(0 <= charges[j] < n);
        }
    }
    lemma_len_subset(charges.to_set(), set_int_range(0, n));
}

/// Axis extensions of two different leaves never carry the same
/// mapping, in either order.
proof fn lemma_cross_leaf_distinct(
    leaves: Seq<TernaryNode>,
    l2: int,
    l: int,
    prefix: Seq<Seq<char>>,
    axis: Seq<char>,
    lit1: LiteralValue,
    lit2: LiteralValue,
)
    requires
        0 <= l2 < l < leaves.len(),
        forall|i: int|
            0 <= i < leaves.len() ==> distinct_keys((#[trigger] leaves[i]).term_entries())
                && vars_exactly(leaves[i].term_entries(), prefix),
        forall|i1: int, i2: int|
            0 <= i1 < i2 < leaves.len() ==> !equiv(
                (#[trigger] leaves[i1]).term_entries(),
                (#[trigger] leaves[i2]).term_entries(),
            ),
        !prefix.contains(axis),
    ensures
        !equiv(
            leaves[l2].term_entries().push((axis, lit1)),
            leaves[l].term_entries().push((axis, lit2)),
        ),
        !equiv(
            leaves[l].term_entries().push((axis, lit2)),
            leaves[l2].term_entries().push((axis, lit1)),
        ),
{
    let q = leaves[l2].term_entries();
    let p = leaves[l].term_entries();
    lemma_vars_excludes(q, prefix, axis);
    lemma_vars_excludes(p, prefix, axis);
    if equiv(q.push((axis, lit1)), p.push((axis, lit2))) {
        lemma_push_equiv_parts(q, p, axis, lit1, lit2);
    }
    if equiv(p.push((axis, lit2)), q.push((axis, lit1))) {
        lemma_push_equiv_parts(p, q, axis, lit2, lit1);
        lemma_equiv_sym(p, q);
    }
}

/// A don't-care axis extension recorded for an earlier leaf has no
/// rewrite that carries the same mapping as an extension of the current
/// leaf.
proof fn lemma_earlier_star_rewrites(
    leaves: Seq<TernaryNode>,
    l: int,
    prefix: Seq<Seq<char>>,
    axis: Seq<char>,
    y: Entries,
    xlit: LiteralValue,
)
    requires
        0 <= l < leaves.len(),
        forall|i: int|
            0 <= i < leaves.len() ==> distinct_keys((#[trigger] leaves[i]).term_entries())
                && vars_exactly(leaves[i].term_entries(), prefix),
        forall|i1: int, i2: int|
            0 <= i1 < i2 < leaves.len() ==> !equiv(
                (#[trigger] leaves[i1]).term_entries(),
                (#[trigger] leaves[i2]).term_entries(),
            ),
        !prefix.contains(axis),
        from_leaf(y, leaves, l, axis),
        has_key(y, axis),
        value_of(y, axis) == LiteralValue::DontCare,
    ensures
        !equiv(
            leaves[l].term_entries().push((axis, xlit)),
            with_axis(y, axis, LiteralValue::False),
        ),
        !equiv(
            leaves[l].term_entries().push((axis, xlit)),
            with_axis(y, axis, LiteralValue::True),
        ),
        !equiv(
            with_axis(y, axis, LiteralValue::False),
            leaves[l].term_entries().push((axis, xlit)),
        ),
        !equiv(
            with_axis(y, axis, LiteralValue::True),
            leaves[l].term_entries().push((axis, xlit)),
        ),
{
    let (l2, lity): (int, LiteralValue) = choose|l2: int, lity: LiteralValue|
        0 <= l2 < l && y == #[trigger] leaves[l2].term_entries().push((axis, lity));
    let q = leaves[l2].term_entries();
    lemma_vars_excludes(q, prefix, axis);
    lemma_push_keys(q, axis, lity);
    assert(value_of(y, axis) == lity);
    lemma_with_axis_push(q, axis, lity, LiteralValue::False);
    lemma_with_axis_push(q, axis, lity, LiteralValue::True);
    lemma_cross_leaf_distinct(leaves, l2, l, prefix, axis, LiteralValue::False, xlit);
    lemma_cross_leaf_distinct(leaves, l2, l, prefix, axis, LiteralValue::True, xlit);
}

/// Accounts one emitted term that carries the same mapping as the
/// working-set member at its charged index.
proof fn lemma_site_push_matched(
    entry: Seq<ProductTerm>,
    pre: Seq<ProductTerm>,
    ch: Seq<int>,
    w: Seq<ProductTerm>,
    leaves: Seq<TernaryNode>,
    l: int,
    prefix: Seq<Seq<char>>,
    axis: Seq<char>,
    x: ProductTerm,
    xlit: LiteralValue,
    c: int,
)
    requires
        0 <= l < leaves.len(),
        forall|i: int|
            0 <= i < leaves.len() ==> distinct_keys((#[trigger] leaves[i]).term_entries())
                && vars_exactly(leaves[i].term_entries(), prefix),
        forall|i1: int, i2: int|
            0 <= i1 < i2 < leaves.len() ==> !equiv(
                (#[trigger] leaves[i1]).term_entries(),
                (#[trigger] leaves[i2]).term_entries(),
            ),
        !prefix.contains(axis),
        all_wf(w),
        all_wf(pre),
        x.wf(),
        x@ == leaves[l].term_entries().push((axis, xlit)),
        0 <= c < w.len(),
        equiv(x@, (w[c])@),
        charged(pre, ch, w, axis),
        entry.len() <= pre.len(),
        forall|j: int| 0 <= j < entry.len() ==> pre[j] == entry[j],
        forall|j: int| 0 <= j < entry.len() ==> from_leaf((#[trigger] entry[j])@, leaves, l, axis),
        forall|j: int| entry.len() <= j < pre.len() ==> equiv((#[trigger] pre[j])@, (w[ch[j]])@),
        forall|j: int| 0 <= j < pre.len() ==> !equiv((#[trigger] pre[j])@, x@),
    ensures
        charged(pre.push(x), ch.push(c), w, axis),
{
    reveal(charged);
    assert forall|j: int|
        0 <= j < ch.len() && !equiv((#[trigger] pre[j])@, (w[ch[j]])@) implies !equiv(
        x@,
        with_axis((pre[j])@, axis, LiteralValue::False),
    ) && !equiv(x@, with_axis((pre[j])@, axis, LiteralValue::True)) by {
        if j < entry.len() {
            assert(from_leaf((entry[j])@, leaves, l, axis));
            lemma_earlier_star_rewrites(leaves, l, prefix, axis, (pre[j])@, xlit);
        }
    }
    lemma_charge_push(pre, ch, w, axis, x, c);
}

/// Accounts one emitted merged term: a don't-care on the axis whose
/// False sibling matched the working-set member at its charged index,
/// while the term itself matched nothing.
proof fn lemma_site_push_star(
    pre: Seq<ProductTerm>,
    ch: Seq<int>,
    w: Seq<ProductTerm>,
    leaves: Seq<TernaryNode>,
    l: int,
    prefix: Seq<Seq<char>>,
    axis: Seq<char>,
    x: ProductTerm,
    c: int,
)
    requires
        0 <= l < leaves.len(),
        forall|i: int|
            0 <= i < leaves.len() ==> distinct_keys((#[trigger] leaves[i]).term_entries())
                && vars_exactly(leaves[i].term_entries(), prefix),
        forall|i1: int, i2: int|
            0 <= i1 < i2 < leaves.len() ==> !equiv(
                (#[trigger] leaves[i1]).term_entries(),
                (#[trigger] leaves[i2]).term_entries(),
            ),
        !prefix.contains(axis),
        all_wf(w),
        all_wf(pre),
        x.wf(),
        x@ == leaves[l].term_entries().push((axis, LiteralValue::DontCare)),
        0 <= c < w.len(),
        equiv(leaves[l].term_entries().push((axis, LiteralValue::False)), (w[c])@),
        forall|j: int| 0 <= j < w.len() ==> !exact_match(x@, (#[trigger] w[j])@),
        charged(pre, ch, w, axis),
        forall|j: int| 0 <= j < pre.len() ==> from_leaf((#[trigger] pre[j])@, leaves, l, axis),
        forall|j: int| 0 <= j < pre.len() ==> !equiv((#[trigger] pre[j])@, x@),
    ensures
        charged(pre.push(x), ch.push(c), w, axis),
{
    reveal(charged);
    let p = leaves[l].term_entries();
    lemma_vars_excludes(p, prefix, axis);
    lemma_push_keys(p, axis, LiteralValue::DontCare);
    lemma_with_axis_push(p, axis, LiteralValue::DontCare, LiteralValue::False);
    lemma_with_axis_push(p, axis, LiteralValue::DontCare, LiteralValue::True);
    assert(charge_link(x@, (w[c])@, axis));
    assert(!equiv(x@, (w[c])@)) by {
        if equiv(x@, (w[c])@) {
            lemma_equiv_exact_match(x@, (w[c])@);
        }
    }
    assert forall|j2: int| 0 <= j2 < pre.len() implies !equiv(
        (#[trigger] pre[j2])@,
        with_axis(x@, axis, LiteralValue::False),
    ) && !equiv((pre[j2])@, with_axis(x@, axis, LiteralValue::True)) by {
        assert(from_leaf((pre[j2])@, leaves, l, axis));
        let (l2, lity): (int, LiteralValue) = choose|l2: int, lity: LiteralValue|
            0 <= l2 < l && (pre[j2])@ == #[trigger] leaves[l2].term_entries().push((axis, lity));
        lemma_cross_leaf_distinct(leaves, l2, l, prefix, axis, lity, LiteralValue::False);
        lemma_cross_leaf_distinct(leaves, l2, l, prefix, axis, lity, LiteralValue::True);
    }
    assert forall|j: int|
        0 <= j < ch.len() && !equiv((#[trigger] pre[j])@, (w[ch[j]])@) implies !equiv(
        x@,
        with_axis((pre[j])@, axis, LiteralValue::False),
    ) && !equiv(x@, with_axis((pre[j])@, axis, LiteralValue::True)) by {
        assert(from_leaf((pre[j])@, leaves, l, axis));
        lemma_earlier_star_rewrites(leaves, l, prefix, axis, (pre[j])@, LiteralValue::DontCare);
    }
    lemma_charge_push(pre, ch, w, axis, x, c);
}

/// Every working-set term whose restriction this leaf carries is
/// covered by the output set, given which probe extensions matched and
/// which emitted terms the output set holds.
proof fn lemma_leaf_coverage(
    leaves: Seq<TernaryNode>,
    l: int,
    w: Seq<ProductTerm>,
    prefix: Seq<Seq<char>>,
    axis: Seq<char>,
    ft: Seq<ProductTerm>,
    dc_some: bool,
    f_some: bool,
    t_some: bool,
)
    requires
        0 <= l < leaves.len(),
        forall|i: int|
            0 <= i < leaves.len() ==> distinct_keys((#[trigger] leaves[i]).term_entries())
                && vars_exactly(leaves[i].term_entries(), prefix),
        !prefix.contains(axis),
        all_wf(w),
        all_over(w, prefix.push(axis)),
        dc_some <==> exists|j: int|
            0 <= j < w.len() && exact_match(
                leaves[l].term_entries().push((axis, LiteralValue::DontCare)),
                (#[trigger] w[j])@,
            ),
        f_some <==> exists|j: int|
            0 <= j < w.len() && exact_match(
                leaves[l].term_entries().push((axis, LiteralValue::False)),
                (#[trigger] w[j])@,
            ),
        t_some <==> exists|j: int|
            0 <= j < w.len() && exact_match(
                leaves[l].term_entries().push((axis, LiteralValue::True)),
                (#[trigger] w[j])@,
            ),
        dc_some ==> exists|j: int|
            0 <= j < ft.len() && equiv(
                (#[trigger] ft[j])@,
                leaves[l].term_entries().push((axis, LiteralValue::DontCare)),
            ),
        t_some && f_some ==> (exists|j: int|
            0 <= j < ft.len() && equiv(
                (#[trigger] ft[j])@,
                leaves[l].term_entries().push((axis, LiteralValue::DontCare)),
            )) || (exists|j: int|
            0 <= j < ft.len() && equiv(
                (#[trigger] ft[j])@,
                leaves[l].term_entries().push((axis, LiteralValue::False)),
            )),
        t_some && f_some ==> (exists|j: int|
            0 <= j < ft.len() && equiv(
                (#[trigger] ft[j])@,
                leaves[l].term_entries().push((axis, LiteralValue::DontCare)),
            )) || (exists|j: int|
            0 <= j < ft.len() && equiv(
                (#[trigger] ft[j])@,
                leaves[l].term_entries().push((axis, LiteralValue::True)),
            )),
        !dc_some && t_some && !f_some ==> exists|j: int|
            0 <= j < ft.len() && equiv(
                (#[trigger] ft[j])@,
                leaves[l].term_entries().push((axis, LiteralValue::True)),
            ),
        !dc_some && !t_some && f_some ==> exists|j: int|
            0 <= j < ft.len() && equiv(
                (#[trigger] ft[j])@,
                leaves[l].term_entries().push((axis, LiteralValue::False)),
            ),
    ensures
        forall|i: int|
            0 <= i < w.len() && restriction_of(
                leaves[l].term_entries(),
                (#[trigger] w[i])@,
                prefix,
            ) ==> term_covered((w[i])@, ft),
{
    let p = leaves[l].term_entries();
    let vs = prefix.push(axis);
    let ed = p.push((axis, LiteralValue::DontCare));
    let ef = p.push((axis, LiteralValue::False));
    let et = p.push((axis, LiteralValue::True));
    assert(!has_key(p, axis)) by {
        if has_key(p, axis) {
            assert(prefix.contains(axis));
        }
    }
    assert forall|i: int|
        0 <= i < w.len() && restriction_of(p, (#[trigger] w[i])@, prefix) implies term_covered(
        (w[i])@,
        ft,
    ) by {
        let t = (w[i])@;
        assert(vars_exactly(t, vs));
        assert(has_key(t, axis)) by {
            assert(vs[prefix.len() as int] == axis);
        }
        let v = value_of(t, axis);
        lemma_restrict_full(p, t, prefix, axis);
        lemma_push_keys(p, axis, v);
        lemma_equiv_exact_match(p.push((axis, v)), t);
        lemma_star_subsumes(p, t, prefix, axis);
        if v == LiteralValue::DontCare {
            assert(exact_match(ed, (w[i])@));
            assert(dc_some);
            lemma_covered_after_insert(ft, ed, t);
        } else if v == LiteralValue::False {
            assert(exact_match(ef, (w[i])@));
            assert(f_some);
            lemma_equiv_subsumes(ef, t);
            if dc_some {
                lemma_covered_after_insert(ft, ed, t);
            } else if t_some {
                if exists|j: int| 0 <= j < ft.len() && equiv((#[trigger] ft[j])@, ed) {
                    lemma_covered_after_insert(ft, ed, t);
                } else {
                    lemma_covered_after_insert(ft, ef, t);
                }
            } else {
                lemma_covered_after_insert(ft, ef, t);
            }
        } else {
            assert(exact_match(et, (w[i])@));
            assert(t_some);
            lemma_equiv_subsumes(et, t);
            if dc_some {
                lemma_covered_after_insert(ft, ed, t);
            } else if f_some {
                if exists|j: int| 0 <= j < ft.len() && equiv((#[trigger] ft[j])@, ed) {
                    lemma_covered_after_insert(ft, ed, t);
                } else {
                    lemma_covered_after_insert(ft, et, t);
                }
            } else {
                lemma_covered_after_insert(ft, et, t);
            }
        }
    }
}

/// A set that covers every member of another admits every assignment
/// that the other admits.
proof fn lemma_covers_sat(out: Seq<ProductTerm>, input: Seq<ProductTerm>, asg: Assignment)
    requires
        all_wf(out),
        all_wf(input),
        covers_all(out, input),
        sat_any(input, asg),
    ensures
        sat_any(out, asg),
{
    let i = choose|i: int| 0 <= i < input.len() && term_sat((#[trigger] input[i])@, asg);
    assert(term_covered((input[i])@, out));
    let j = choose|j: int| 0 <= j < out.len() && subsumes((#[trigger] out[j])@, (input[i])@);
    lemma_subsumes_sat((out[j])@, (input[i])@, asg);
}

/// A term's variable list may be replaced by any reordering of it.
proof fn lemma_vars_perm(ps: Entries, vs1: Seq<Seq<char>>, vs2: Seq<Seq<char>>)
    requires
        vars_exactly(ps, vs1),
        forall|k: Seq<char>| vs1.contains(k) <==> vs2.contains(k),
    ensures
        vars_exactly(ps, vs2),
{
    assert forall|k: Seq<char>| #[trigger] has_key(ps, k) implies vs2.contains(k) by {
        assert(vs1.contains(k));
    }
    assert forall|i: int| 0 <= i < vs2.len() implies has_key(ps, #[trigger] vs2[i]) by {
        assert(vs2.contains(vs2[i]));
        assert(vs1.contains(vs2[i]));
        let j = choose|j: int| 0 <= j < vs1.len() && vs1[j] == vs2[i];
        assert(has_key(ps, vs1[j]));
    }
}

/// Soundness composes across rounds.
proof fn lemma_sound_trans(out: Seq<ProductTerm>, mid: Seq<ProductTerm>, input: Seq<ProductTerm>)
    requires
        sound_wrt(out, mid),
        sound_wrt(mid, input),
    ensures
        sound_wrt(out, input),
{
    assert forall|j: int| 0 <= j < out.len() implies covered_by((#[trigger] out[j])@, input) by {
        assert forall|asg: Assignment| #[trigger] term_sat((out[j])@, asg) implies sat_any(
            input,
            asg,
        ) by {
            assert(sat_any(mid, asg));
            let m = choose|m: int| 0 <= m < mid.len() && term_sat((#[trigger] mid[m])@, asg);
            assert(covered_by((mid[m])@, input));
        }
    }
}

/// Coverage composes across rounds.
proof fn lemma_covers_trans(out: Seq<ProductTerm>, mid: Seq<ProductTerm>, input: Seq<ProductTerm>)
    requires
        covers_all(out, mid),
        covers_all(mid, input),
    ensures
        covers_all(out, input),
{
    assert forall|i: int| 0 <= i < input.len() implies term_covered(
        (#[trigger] input[i])@,
        out,
    ) by {
        assert(term_covered((input[i])@, mid));
        let m = choose|m: int| 0 <= m < mid.len() && subsumes((#[trigger] mid[m])@, (input[i])@);
        assert(term_covered((mid[m])@, out));
        let j = choose|j: int| 0 <= j < out.len() && subsumes((#[trigger] out[j])@, (mid[m])@);
        lemma_subsumes_trans((out[j])@, (mid[m])@, (input[i])@);
    }
}

/// Rotating the ordering keeps its names: same length, same elements,
/// and distinctness.
proof fn lemma_rotate_names(before: Seq<String>, after: Seq<String>)
    requires
        before.len() >= 1,
        after == before.subrange(1, before.len() as int).push(before[0]),
    ensures
        names(after).len() == names(before).len(),
        distinct_names(names(before)) ==> distinct_names(names(after)),
        forall|k: Seq<char>| names(after).contains(k) <==> names(before).contains(k),
{
    let nb = names(before);
    let na = names(after);
    let n = before.len() as int;
    assert forall|i: int| 0 <= i < n implies #[trigger] na[i] == if i < n - 1 {
        nb[i + 1]
    } else {
        nb[0]
    } by {
        if i < n - 1 {
            assert(after[i] == before[i + 1]);
        } else {
            assert(after[i] == before[0]);
        }
    }
    if distinct_names(nb) {
        assert forall|i: int, j: int| 0 <= i < j < n implies na[i] != na[j] by {}
    }
    assert forall|k: Seq<char>| na.contains(k) implies nb.contains(k) by {
        let i = choose|i: int| 0 <= i < na.len() && na[i] == k;
        if i < n - 1 {
            assert(nb[i + 1] == k);
        } else {
            assert(nb[0] == k);
        }
    }
    assert forall|k: Seq<char>| nb.contains(k) implies na.contains(k) by {
        let i = choose|i: int| 0 <= i < nb.len() && nb[i] == k;
        if i == 0 {
            assert(na[n - 1] == k);
        } else {
            assert(na[i - 1] == k);
        }
    }
}

/// The TT-Min orchestrator. It simplifies a boolean function in
/// disjunctive normal form, given as a set of product terms: for the
/// function `f(A,B) = ~A&B | A&B` it yields `g(A,B) = B`.
pub struct TernaryTreeMinimization {}

/// Appends a term to a working set unless an equal term is already
/// present, preserving set semantics.
fn insert_unique(set: &mut Vec<ProductTerm>, term: ProductTerm)
    requires
        all_wf(old(set)@),
        distinct_terms(old(set)@),
        term.wf(),
    ensures
        all_wf(final(set)@),
        distinct_terms(final(set)@),
        final(set)@ == old(set)@ || final(set)@ == old(set)@.push(term),
        exists|j: int| 0 <= j < final(set)@.len() && equiv((#[trigger] final(set)@[j])@, term@),
        (exists|j: int| 0 <= j < old(set)@.len() && equiv((#[trigger] old(set)@[j])@, term@))
            ==> final(set)@ == old(set)@,
        final(set)@.len() > old(set)@.len() ==> forall|j: int|
            0 <= j < old(set)@.len() ==> !equiv((#[trigger] old(set)@[j])@, term@),
{
    let ghost t = term@;
    let mut i: usize = 0;
    while i < set.len()
        invariant
            0 <= i <= set@.len(),
            set@ == old(set)@,
            all_wf(set@),
            distinct_terms(set@),
            term.wf(),
            t == term@,
            forall|j: int| 0 <= j < i ==> !exact_match((#[trigger] set@[j])@, t),
        decreases set@.len() - i,
    {
        if set[i] == term {
            proof {
                lemma_exact_match_equiv(set@[i as int]@, t);
            }
            return ;
        }
        i = i + 1;
    }
    proof {
        assert forall|j: int| 0 <= j < set@.len() implies !equiv((#[trigger] set@[j])@, t) by {
            if equiv(set@[j]@, t) {
                lemma_equiv_exact_match(set@[j]@, t);
            }
        }
        lemma_equiv_exact_match(t, t);
    }
    set.push(term);
    proof {
        assert(equiv(final(set)@.last()@, t));
    }
}

/// Appends a term to an output set under construction, keeping the
/// set's invariants: well-formed members over the given variables, no
/// duplicates, and soundness against the original working set.
fn emit(
    final_terms: &mut Vec<ProductTerm>,
    term: ProductTerm,
    initial_terms: &Vec<ProductTerm>,
    Ghost(vs): Ghost<Seq<Seq<char>>>,
)
    requires
        all_wf(old(final_terms)@),
        distinct_terms(old(final_terms)@),
        sound_wrt(old(final_terms)@, initial_terms@),
        all_over(old(final_terms)@, vs),
        term.wf(),
        covered_by(term@, initial_terms@),
        vars_exactly(term@, vs),
    ensures
        all_wf(final(final_terms)@),
        distinct_terms(final(final_terms)@),
        sound_wrt(final(final_terms)@, initial_terms@),
        all_over(final(final_terms)@, vs),
        final(final_terms)@.len() >= old(final_terms)@.len(),
        forall|j: int|
            0 <= j < old(final_terms)@.len() ==> final(final_terms)@[j] == old(final_terms)@[j],
        exists|j: int|
            0 <= j < final(final_terms)@.len() && equiv((#[trigger] final(final_terms)@[j])@, term@),
        final(final_terms)@ == old(final_terms)@ || final(final_terms)@ == old(
            final_terms,
        )@.push(term),
        (exists|j: int|
            0 <= j < old(final_terms)@.len() && equiv((#[trigger] old(final_terms)@[j])@, term@))
            ==> final(final_terms)@ == old(final_terms)@,
        final(final_terms)@.len() > old(final_terms)@.len() ==> forall|j: int|
            0 <= j < old(final_terms)@.len() ==> !equiv((#[trigger] old(final_terms)@[j])@, term@),
{
    let ghost before = final_terms@;
    insert_unique(final_terms, term);
    proof {
        if final_terms@ == before.push(term) {
            assert forall|j: int| 0 <= j < final_terms@.len() implies covered_by(
                (#[trigger] final_terms@[j])@,
                initial_terms@,
            ) by {
                if j < before.len() {
                    assert(final_terms@[j] == before[j]);
                } else {
                    assert(final_terms@[j] == term);
                }
            }
            assert forall|j: int| 0 <= j < final_terms@.len() implies vars_exactly(
                (#[trigger] final_terms@[j])@,
                vs,
            ) by {
                if j < before.len() {
                    assert(final_terms@[j] == before[j]);
                } else {
                    assert(final_terms@[j] == term);
                }
            }
        }
    }
}

impl TernaryTreeMinimization {
    /// Applies the TT-Min algorithm to the given terms: `n + 1` rounds
    /// of build, merge and rotate over the working set, where `n` is
    /// the number of variables. A round that cannot run, because fewer
    /// than two variables remain, leaves the working set and the
    /// ordering unchanged for that round; `apply` itself never reports
    /// failure. The result is a set of product terms covering exactly
    /// the assignments the initial set covers: each input term is
    /// subsumed by some output term, and each output term only admits
    /// assignments some input term admits.
    #[verifier::rlimit(100)]
    pub fn apply(
        terms: &Vec<ProductTerm>,
        variable_order: &Vec<String>,
    ) -> (r: Result<Vec<ProductTerm>, MinimizeError>)
        requires
            variable_order@.len() < usize::MAX,
            distinct_names(names(variable_order@)),
            all_wf(terms@),
            all_over(terms@, names(variable_order@)),
        ensures
            r is Ok,
            all_wf((r->Ok_0)@),
            distinct_terms((r->Ok_0)@),
            all_over((r->Ok_0)@, names(variable_order@)),
            sound_wrt((r->Ok_0)@, terms@),
            covers_all((r->Ok_0)@, terms@),
            forall|asg: Assignment| sat_any(terms@, asg) ==> sat_any((r->Ok_0)@, asg),
            (r->Ok_0)@.len() <= terms@.len(),
            matches_set(
                (r->Ok_0)@,
                minimized(
                    entry_set(terms@),
                    names(variable_order@),
                    (variable_order@.len() + 1) as nat,
                ),
            ),
            variable_order@.len() < 2 ==> matches_set((r->Ok_0)@, entry_set(terms@)),
    {
        let ghost full = names(variable_order@);
        let number_of_vars = variable_order.len();
        let ghost target = minimized(
            entry_set(terms@),
            full,
            (variable_order@.len() + 1) as nat,
        );
        let ghost mut spec_state: Set<Entries> = entry_set(terms@);
        let mut resulting_terms: Vec<ProductTerm> = Vec::new();
        let mut var_order: Vec<String> = Vec::new();
        let mut i: usize = 0;
        while i < variable_order.len()
            invariant
                0 <= i <= variable_order@.len(),
                var_order@ == variable_order@.subrange(0, i as int),
            decreases variable_order@.len() - i,
        {
            var_order.push(String::clone(&variable_order[i]));
            proof {
                assert(variable_order@.subrange(0, i + 1) =~= variable_order@.subrange(
                    0,
                    i as int,
                ).push(variable_order@[i as int]));
            }
            i = i + 1;
        }
        proof {
            assert(var_order@ =~= variable_order@);
        }
        let mut j: usize = 0;
        while j < terms.len()
            invariant
                0 <= j <= terms@.len(),
                full == names(variable_order@),
                all_wf(terms@),
                all_over(terms@, full),
                all_wf(resulting_terms@),
                distinct_terms(resulting_terms@),
                sound_wrt(resulting_terms@, terms@),
                all_over(resulting_terms@, full),
                resulting_terms@.len() <= j,
                forall|jj: int|
                    0 <= jj < j ==> term_covered((#[trigger] terms@[jj])@, resulting_terms@),
                forall|jj: int|
                    0 <= jj < resulting_terms@.len() ==> appears(
                        (#[trigger] resulting_terms@[jj])@,
                        terms@,
                    ),
                forall|i: int| 0 <= i < j ==> appears((#[trigger] terms@[i])@, resulting_terms@),
            decreases terms@.len() - j,
        {
            let ghost before = resulting_terms@;
            proof {
                lemma_member_covered(terms@, j as int);
            }
            emit(&mut resulting_terms, terms[j].clone(), terms, Ghost(full));
            proof {
                assert forall|jj: int| 0 <= jj < j + 1 implies term_covered(
                    (#[trigger] terms@[jj])@,
                    resulting_terms@,
                ) by {
                    if jj < j {
                        lemma_covered_grow((terms@[jj])@, before, resulting_terms@);
                    } else {
                        lemma_equiv_subsumes((terms@[jj])@, (terms@[jj])@);
                        lemma_covered_after_insert(resulting_terms@, (terms@[jj])@, (terms@[jj])@);
                    }
                }
                assert forall|jj: int| 0 <= jj < resulting_terms@.len() implies appears(
                    (#[trigger] resulting_terms@[jj])@,
                    terms@,
                ) by {
                    if jj < before.len() {
                        assert(resulting_terms@[jj] == before[jj]);
                        assert(appears((before[jj])@, terms@));
                    } else {
                        assert((resulting_terms@[jj])@ == (terms@[j as int])@);
                        assert(equiv((terms@[j as int])@, (resulting_terms@[jj])@));
                    }
                }
                assert forall|i: int| 0 <= i < j + 1 implies appears(
                    (#[trigger] terms@[i])@,
                    resulting_terms@,
                ) by {
                    if i < j {
                        let jj = choose|jj: int|
                            0 <= jj < before.len() && equiv((#[trigger] before[jj])@, (terms@[i])@);
                        assert(resulting_terms@[jj] == before[jj]);
                        assert(equiv((resulting_terms@[jj])@, (terms@[i])@));
                    } else {
                        let jj = choose|jj: int|
                            0 <= jj < resulting_terms@.len() && equiv(
                                (#[trigger] resulting_terms@[jj])@,
                                (terms@[j as int])@,
                            );
                        assert(equiv((resulting_terms@[jj])@, (terms@[i])@));
                    }
                }
            }
            j = j + 1;
        }
        proof {
            assert(names(var_order@) == full);
            assert forall|jj: int| 0 <= jj < resulting_terms@.len() implies mem_of(
                spec_state,
                (#[trigger] resulting_terms@[jj])@,
            ) by {
                let i = choose|i: int|
                    0 <= i < terms@.len() && equiv((#[trigger] terms@[i])@, (resulting_terms@[jj])@);
                assert(spec_state.contains((terms@[i])@));
            }
            assert forall|e: Entries| #[trigger] spec_state.contains(e) implies exists|jj: int|
                0 <= jj < resulting_terms@.len() && equiv((#[trigger] resulting_terms@[jj])@, e) by {
                let i = choose|i: int| 0 <= i < terms@.len() && e == (#[trigger] terms@[i])@;
                assert(appears((terms@[i])@, resulting_terms@));
            }
            assert(matches_set(resulting_terms@, spec_state));
        }
        let mut round: usize = 0;
        while round <= number_of_vars
            invariant
                0 <= round <= number_of_vars + 1,
                number_of_vars < usize::MAX,
                full == names(variable_order@),
                all_wf(terms@),
                distinct_names(names(var_order@)),
                forall|k: Seq<char>| names(var_order@).contains(k) <==> full.contains(k),
                all_wf(resulting_terms@),
                distinct_terms(resulting_terms@),
                sound_wrt(resulting_terms@, terms@),
                covers_all(resulting_terms@, terms@),
                all_over(resulting_terms@, names(var_order@)),
                resulting_terms@.len() <= terms@.len(),
                matches_set(resulting_terms@, spec_state),
                minimized(spec_state, names(var_order@), (number_of_vars + 1 - round) as nat)
                    == target,
            decreases number_of_vars + 1 - round,
        {
            let extracted = TernaryTreeMinimization::build_and_merge(&resulting_terms, &var_order);
            if let Ok(extracted_terms) = extracted {
                let ghost mid = resulting_terms@;
                let ghost order_before = var_order@;
                proof {
                    lemma_sound_trans(extracted_terms@, mid, terms@);
                    lemma_covers_trans(extracted_terms@, mid, terms@);
                    reveal_with_fuel(minimized, 1);
                    lemma_entry_classes(mid, spec_state);
                    lemma_round_same(entry_set(mid), spec_state, names(order_before));
                    assert(matches_set(
                        extracted_terms@,
                        round_of(spec_state, names(order_before)),
                    ));
                    assert(minimized(
                        spec_state,
                        names(order_before),
                        (number_of_vars + 1 - round) as nat,
                    ) == minimized(
                        round_of(spec_state, names(order_before)),
                        rotated(names(order_before)),
                        (number_of_vars - round) as nat,
                    ));
                    spec_state = round_of(spec_state, names(order_before));
                }
                resulting_terms = extracted_terms;
                var_order = TernaryTreeMinimization::rotate(&var_order);
                proof {
                    lemma_rotate_names(order_before, var_order@);
                    assert(names(var_order@) =~= rotated(names(order_before)));
                    assert forall|n: int|
                        0 <= n < resulting_terms@.len() implies vars_exactly(
                        (#[trigger] resulting_terms@[n])@,
                        names(var_order@),
                    ) by {
                        lemma_vars_perm(
                            (resulting_terms@[n])@,
                            names(order_before),
                            names(var_order@),
                        );
                    }
                }
            } else {
                proof {
                    reveal_with_fuel(minimized, 1);
                    assert(names(var_order@).len() == var_order@.len());
                }
            }
            round = round + 1;
        }
        proof {
            assert forall|n: int| 0 <= n < resulting_terms@.len() implies vars_exactly(
                (#[trigger] resulting_terms@[n])@,
                full,
            ) by {
                lemma_vars_perm((resulting_terms@[n])@, names(var_order@), full);
            }
            assert forall|asg: Assignment| sat_any(terms@, asg) implies sat_any(
                resulting_terms@,
                asg,
            ) by {
                lemma_covers_sat(resulting_terms@, terms@, asg);
            }
            reveal_with_fuel(minimized, 1);
            assert(minimized(spec_state, names(var_order@), 0) == spec_state);
            assert(spec_state == target);
            if full.len() < 2 {
                lemma_minimized_short(
                    entry_set(terms@),
                    full,
                    (variable_order@.len() + 1) as nat,
                );
            }
        }
        Ok(resulting_terms)
    }

    /// One round of the algorithm: builds the pruned ternary tree over
    /// every variable but the last, then merges sibling leaves on that
    /// deferred variable. Rejects orderings of fewer than two
    /// variables; the caller absorbs that rejection.
    fn build_and_merge(
        terms: &Vec<ProductTerm>,
        variable_order: &Vec<String>,
    ) -> (r: Result<Vec<ProductTerm>, MinimizeError>)
        requires
            distinct_names(names(variable_order@)),
            all_wf(terms@),
            all_over(terms@, names(variable_order@)),
        ensures
            r is Ok <==> variable_order@.len() >= 2,
            r is Ok ==> all_wf((r->Ok_0)@) && distinct_terms((r->Ok_0)@) && all_over(
                (r->Ok_0)@,
                names(variable_order@),
            ) && sound_wrt((r->Ok_0)@, terms@) && covers_all((r->Ok_0)@, terms@) && (r->Ok_0)@.len()
                <= terms@.len(),
            r is Ok ==> matches_set(
                (r->Ok_0)@,
                round_of(entry_set(terms@), names(variable_order@)),
            ),
    {
        if variable_order.len() < 2 {
            return Err(MinimizeError::TooFewVariables);
        }
        let ghost full = names(variable_order@);
        let mut var_order_copy: Vec<String> = Vec::new();
        let mut i: usize = 0;
        while i < variable_order.len()
            invariant
                0 <= i <= variable_order@.len(),
                var_order_copy@ == variable_order@.subrange(0, i as int),
            decreases variable_order@.len() - i,
        {
            var_order_copy.push(String::clone(&variable_order[i]));
            proof {
                assert(variable_order@.subrange(0, i + 1) =~= variable_order@.subrange(
                    0,
                    i as int,
                ).push(variable_order@[i as int]));
            }
            i = i + 1;
        }
        proof {
            assert(var_order_copy@ =~= variable_order@);
        }
        let mut root = TernaryNode::new();
        root.set_variable(String::clone(&variable_order[0]));
        let leaves = TernaryTreeMinimization::build(root, &mut var_order_copy, terms);
        let ghost prefix = full.drop_last();
        proof {
            assert(names(var_order_copy@)[0] == full.last());
            assert(!prefix.contains(full.last())) by {
                if prefix.contains(full.last()) {
                    let ii = choose|ii: int| 0 <= ii < prefix.len() && prefix[ii] == full.last();
                    assert(full[ii] == full[full.len() - 1]);
                }
            }
            assert(prefix.push(full.last()) =~= full);
        }
        let result = TernaryTreeMinimization::merge(
            &leaves,
            terms,
            &var_order_copy[0],
            Ghost(prefix),
        );
        proof {
            assert forall|i2: int| 0 <= i2 < terms@.len() implies term_covered(
                (#[trigger] terms@[i2])@,
                result@,
            ) by {
                assert(vars_exactly((terms@[i2])@, full));
                assert(some_leaf_restricts(leaves@, (terms@[i2])@, prefix));
            }
            reveal(round_of);
            let sset = entry_set(terms@);
            assert(full.drop_last() == prefix);
            assert forall|j: int| 0 <= j < result@.len() implies mem_of(
                round_of(sset, full),
                (#[trigger] result@[j])@,
            ) by {
                assert(emitted_by((result@[j])@, leaves@, leaves@.len() as int, sset, full.last()));
                let l2 = choose|l2: int|
                    0 <= l2 < leaves@.len() && leaf_emits(
                        (#[trigger] leaves@[l2]).term_entries(),
                        sset,
                        full.last(),
                        (result@[j])@,
                    );
                let pq = leaves@[l2].term_entries();
                assert(canonical_over(pq, prefix));
                assert(survives(pq, terms@));
                let jw = choose|jw: int|
                    0 <= jw < terms@.len() && prefix_of(pq, (#[trigger] terms@[jw])@);
                assert(sset.contains((terms@[jw])@));
                assert(pruned_prefix(pq, sset, full.drop_last()));
                assert(round_of(sset, full).contains((result@[j])@));
                assert(equiv((result@[j])@, (result@[j])@));
                assert(mem_of(round_of(sset, full), (result@[j])@));
            }
            assert forall|e: Entries| #[trigger] round_of(sset, full).contains(e) implies exists|
                j: int,
            | 0 <= j < result@.len() && equiv((#[trigger] result@[j])@, e) by {
                let pq = choose|pq: Entries|
                    #[trigger] pruned_prefix(pq, sset, full.drop_last()) && leaf_emits(
                        pq,
                        sset,
                        full.last(),
                        e,
                    );
                assert(canonical_over(pq, prefix));
                let w = choose|w: Entries| sset.contains(w) && prefix_of(pq, w);
                let jw = choose|jw: int| 0 <= jw < terms@.len() && w == (#[trigger] terms@[jw])@;
                assert(prefix_of(pq, (terms@[jw])@));
                assert(survives(pq, terms@));
                assert(exists|l2: int|
                    0 <= l2 < leaves@.len() && (#[trigger] leaves@[l2]).term_entries() == pq);
                let l2 = choose|l2: int|
                    0 <= l2 < leaves@.len() && (#[trigger] leaves@[l2]).term_entries() == pq;
                assert(leaf_emits((leaves@[l2]).term_entries(), sset, full.last(), e));
            }
            assert(matches_set(result@, round_of(sset, full)));
        }
        Ok(result)
    }

    /// The rotation step: the first variable of the ordering moves to
    /// the end, so the next round defers a different variable to the
    /// merge step.
    pub fn rotate(old_variable_order: &Vec<String>) -> (r: Vec<String>)
        requires
            old_variable_order@.len() >= 1,
        ensures
            r@ == old_variable_order@.subrange(1, old_variable_order@.len() as int).push(
                old_variable_order@[0],
            ),
    {
        let mut new_order: Vec<String> = Vec::new();
        let mut i: usize = 0;
        while i < old_variable_order.len()
            invariant
                0 <= i <= old_variable_order@.len(),
                new_order@ == old_variable_order@.subrange(0, i as int),
            decreases old_variable_order@.len() - i,
        {
            new_order.push(String::clone(&old_variable_order[i]));
            proof {
                assert(old_variable_order@.subrange(0, i + 1) =~= old_variable_order@.subrange(
                    0,
                    i as int,
                ).push(old_variable_order@[i as int]));
            }
            i = i + 1;
        }
        proof {
            assert(new_order@ =~= old_variable_order@);
        }
        let first_var = new_order.remove(0);
        new_order.push(first_var);
        proof {
            assert(new_order@ =~= old_variable_order@.subrange(
                1,
                old_variable_order@.len() as int,
            ).push(old_variable_order@[0]));
        }
        new_order
    }

    /// Extends the partial term of a frontier node with one literal for
    /// the variable just consumed; keeps the extension only when it is
    /// still a prefix of some term of the working set. The shared
    /// partial term is restored before returning.
    fn build_node(
        node: &mut TernaryNode,
        product_term: &mut ProductTerm,
        terms: &Vec<ProductTerm>,
        literal: LiteralValue,
        literal_variable: &String,
        node_variable: &String,
        node_collection: &mut Vec<TernaryNode>,
    )
        requires
            old(product_term).wf(),
            !has_key(old(product_term)@, literal_variable@),
            all_wf(terms@),
        ensures
            final(product_term)@ == old(product_term)@,
            (exists|j: int|
                0 <= j < terms@.len() && prefix_of(
                    old(product_term)@.push((literal_variable@, literal)),
                    (#[trigger] terms@[j])@,
                )) ==> {
                &&& final(node_collection)@.len() == old(node_collection)@.len() + 1
                &&& forall|j: int|
                    0 <= j < old(node_collection)@.len() ==> final(node_collection)@[j] == old(
                        node_collection,
                    )@[j]
                &&& final(node_collection)@.last().has_term()
                &&& final(node_collection)@.last().term_entries() == old(product_term)@.push(
                    (literal_variable@, literal),
                )
                &&& final(node_collection)@.last().var_name() == Some(node_variable@)
            },
            !(exists|j: int|
                0 <= j < terms@.len() && prefix_of(
                    old(product_term)@.push((literal_variable@, literal)),
                    (#[trigger] terms@[j])@,
                )) ==> final(node_collection)@ == old(node_collection)@,
    {
        proof {
            lemma_push_keys(product_term@, literal_variable@, literal);
        }
        product_term.add_literal(String::clone(literal_variable), literal);
        if product_term.is_prefix_of_any(terms) {
            node.set_variable(String::clone(node_variable));
            node.set_term(product_term.clone());
            let node_to_add = TernaryNode::clone(&node);
            node_collection.push(node_to_add);
        }
        product_term.remove_last();
        proof {
            assert(final(product_term)@ =~= old(product_term)@);
        }
    }

    /// Extends one frontier node by the three literals for the consumed
    /// variable, keeping every frontier invariant: children are canonical
    /// paths one variable longer, pairwise distinct, pruned against the
    /// working set, tagged with the next variable, and the frontier stays
    /// complete both for the working-set restrictions and for every
    /// surviving canonical path.
    #[verifier::rlimit(100)]
    fn extend_frontier_node(
        nodes: &Vec<TernaryNode>,
        index: usize,
        childs: &mut Vec<TernaryNode>,
        terms: &Vec<ProductTerm>,
        removed_var: &String,
        node_variable: &String,
        Ghost(full): Ghost<Seq<Seq<char>>>,
        Ghost(c): Ghost<int>,
    )
        requires
            0 <= index < nodes@.len(),
            distinct_names(full),
            0 <= c <= full.len() - 2,
            removed_var@ == full[c],
            node_variable@ == full[c + 1],
            all_wf(terms@),
            forall|n: int|
                0 <= n < nodes@.len() ==> distinct_keys((#[trigger] nodes@[n]).term_entries())
                    && vars_exactly(nodes@[n].term_entries(), full.subrange(0, c)),
            forall|n: int|
                0 <= n < nodes@.len() ==> canonical_over(
                    (#[trigger] nodes@[n]).term_entries(),
                    full.subrange(0, c),
                ),
            forall|n1: int, n2: int|
                0 <= n1 < n2 < nodes@.len() ==> !equiv(
                    (#[trigger] nodes@[n1]).term_entries(),
                    (#[trigger] nodes@[n2]).term_entries(),
                ),
            forall|ch: int|
                0 <= ch < old(childs)@.len() ==> (#[trigger] old(childs)@[ch]).has_term()
                    && distinct_keys(old(childs)@[ch].term_entries()) && vars_exactly(
                    old(childs)@[ch].term_entries(),
                    full.subrange(0, c + 1),
                ),
            forall|ch: int|
                0 <= ch < old(childs)@.len() ==> canonical_over(
                    (#[trigger] old(childs)@[ch]).term_entries(),
                    full.subrange(0, c + 1),
                ),
            forall|ch: int|
                0 <= ch < old(childs)@.len() ==> survives(
                    (#[trigger] old(childs)@[ch]).term_entries(),
                    terms@,
                ),
            forall|ch: int|
                0 <= ch < old(childs)@.len() ==> (#[trigger] old(childs)@[ch]).var_name() == Some(
                    full[c + 1],
                ),
            forall|ch: int|
                0 <= ch < old(childs)@.len() ==> child_of_processed(
                    (#[trigger] old(childs)@[ch]).term_entries(),
                    nodes@,
                    index as int,
                    removed_var@,
                ),
            forall|c1: int, c2: int|
                0 <= c1 < c2 < old(childs)@.len() ==> !equiv(
                    (#[trigger] old(childs)@[c1]).term_entries(),
                    (#[trigger] old(childs)@[c2]).term_entries(),
                ),
            forall|i: int|
                0 <= i < terms@.len() && vars_exactly((#[trigger] terms@[i])@, full) ==> {
                    ||| some_leaf_restricts(old(childs)@, terms@[i]@, full.subrange(0, c + 1))
                    ||| exists|m: int|
                        index <= m < nodes@.len() && restriction_of(
                            (#[trigger] nodes@[m]).term_entries(),
                            terms@[i]@,
                            full.subrange(0, c),
                        )
                },
            forall|pp: Entries|
                #[trigger] canonical_over(pp, full.subrange(0, c + 1)) && survives(pp, terms@)
                    ==> (exists|ch: int|
                    0 <= ch < old(childs)@.len() && (#[trigger] old(childs)@[ch]).term_entries()
                        == pp) || (exists|m: int|
                    index <= m < nodes@.len() && (#[trigger] nodes@[m]).term_entries()
                        == pp.drop_last()),
        ensures
            forall|ch: int|
                0 <= ch < final(childs)@.len() ==> (#[trigger] final(childs)@[ch]).has_term()
                    && distinct_keys(final(childs)@[ch].term_entries()) && vars_exactly(
                    final(childs)@[ch].term_entries(),
                    full.subrange(0, c + 1),
                ),
            forall|ch: int|
                0 <= ch < final(childs)@.len() ==> canonical_over(
                    (#[trigger] final(childs)@[ch]).term_entries(),
                    full.subrange(0, c + 1),
                ),
            forall|ch: int|
                0 <= ch < final(childs)@.len() ==> survives(
                    (#[trigger] final(childs)@[ch]).term_entries(),
                    terms@,
                ),
            forall|ch: int|
                0 <= ch < final(childs)@.len() ==> (#[trigger] final(childs)@[ch]).var_name()
                    == Some(full[c + 1]),
            forall|ch: int|
                0 <= ch < final(childs)@.len() ==> child_of_processed(
                    (#[trigger] final(childs)@[ch]).term_entries(),
                    nodes@,
                    index + 1,
                    removed_var@,
                ),
            forall|c1: int, c2: int|
                0 <= c1 < c2 < final(childs)@.len() ==> !equiv(
                    (#[trigger] final(childs)@[c1]).term_entries(),
                    (#[trigger] final(childs)@[c2]).term_entries(),
                ),
            forall|i: int|
                0 <= i < terms@.len() && vars_exactly((#[trigger] terms@[i])@, full) ==> {
                    ||| some_leaf_restricts(final(childs)@, terms@[i]@, full.subrange(0, c + 1))
                    ||| exists|m: int|
                        index + 1 <= m < nodes@.len() && restriction_of(
                            (#[trigger] nodes@[m]).term_entries(),
                            terms@[i]@,
                            full.subrange(0, c),
                        )
                },
            forall|pp: Entries|
                #[trigger] canonical_over(pp, full.subrange(0, c + 1)) && survives(pp, terms@)
                    ==> (exists|ch: int|
                    0 <= ch < final(childs)@.len() && (#[trigger] final(childs)@[ch]).term_entries()
                        == pp) || (exists|m: int|
                    index + 1 <= m < nodes@.len() && (#[trigger] nodes@[m]).term_entries()
                        == pp.drop_last()),
    {
        let current_node = &nodes[index];
        let mut product_term = if let Some(node_term) = current_node.get_term() {
            node_term.clone()
        } else {
            ProductTerm::new()
        };
        proof {
            if !current_node.has_term() {
                current_node.lemma_no_term_empty();
            }
            assert(product_term@ == nodes@[index as int].term_entries());
            assert(!full.subrange(0, c).contains(full[c])) by {
                if full.subrange(0, c).contains(full[c]) {
                    let ii = choose|ii: int|
                        0 <= ii < c && full.subrange(0, c)[ii] == full[c];
                    assert(full[ii] == full[c]);
                }
            }
            assert(!has_key(product_term@, removed_var@)) by {
                if has_key(product_term@, removed_var@) {
                    assert(full.subrange(0, c).contains(full[c]));
                }
            }
        }
        let ghost p = product_term@;
        let mut false_child = TernaryNode::new();
        let mut dont_care_child = TernaryNode::new();
        let mut true_child = TernaryNode::new();
        let ghost cs0 = childs@;
        TernaryTreeMinimization::build_node(
            &mut false_child,
            &mut product_term,
            terms,
            LiteralValue::False,
            &removed_var,
            node_variable,
            childs,
        );
        let ghost cs1 = childs@;
        TernaryTreeMinimization::build_node(
            &mut dont_care_child,
            &mut product_term,
            terms,
            LiteralValue::DontCare,
            &removed_var,
            node_variable,
            childs,
        );
        let ghost cs2 = childs@;
        TernaryTreeMinimization::build_node(
            &mut true_child,
            &mut product_term,
            terms,
            LiteralValue::True,
            &removed_var,
            node_variable,
            childs,
        );
        let ghost cs3 = childs@;
        proof {
            assert(full.subrange(0, c + 1) =~= full.subrange(0, c).push(full[c]));
            assert(probe_step(
                cs0,
                cs1,
                p,
                removed_var@,
                LiteralValue::False,
                node_variable@,
                terms@,
            ));
            assert(probe_step(
                cs1,
                cs2,
                p,
                removed_var@,
                LiteralValue::DontCare,
                node_variable@,
                terms@,
            ));
            assert(probe_step(
                cs2,
                cs3,
                p,
                removed_var@,
                LiteralValue::True,
                node_variable@,
                terms@,
            ));
            assert(canonical_over(p, full.subrange(0, c)));
            lemma_frontier_props(
                cs0,
                cs1,
                cs2,
                cs3,
                p,
                full.subrange(0, c),
                full[c],
                full[c + 1],
                terms@,
            );
            lemma_frontier_complete(
                nodes@,
                index as int,
                cs0,
                cs1,
                cs2,
                cs3,
                p,
                full.subrange(0, c),
                full[c],
                full[c + 1],
                terms@,
            );
            lemma_frontier_misc(
                nodes@,
                index as int,
                cs0,
                cs1,
                cs2,
                cs3,
                p,
                full,
                c,
                terms@,
            );
            lemma_frontier_restrict(
                nodes@,
                index as int,
                cs0,
                cs1,
                cs2,
                cs3,
                p,
                full,
                c,
                terms@,
            );
        }
    }
    /// The build step: grows the ternary tree level by level, consuming
    /// every variable of the ordering but the last. A path is extended
    /// by each of the three literals in turn and kept only while it is a
    /// prefix of some working-set term. Returns the frontier of leaves;
    /// the ordering is left holding only the deferred last variable.
    #[verifier::rlimit(100)]
    fn build(
        root: TernaryNode,
        variable_order: &mut Vec<String>,
        terms: &Vec<ProductTerm>,
    ) -> (leaves: Vec<TernaryNode>)
        requires
            old(variable_order)@.len() >= 2,
            distinct_names(names(old(variable_order)@)),
            all_wf(terms@),
            !root.has_term(),
        ensures
            final(variable_order)@.len() == 1,
            names(final(variable_order)@)[0] == names(old(variable_order)@).last(),
            forall|l: int|
                0 <= l < leaves@.len() ==> (#[trigger] leaves@[l]).has_term() && distinct_keys(
                    leaves@[l].term_entries(),
                ) && vars_exactly(
                    leaves@[l].term_entries(),
                    names(old(variable_order)@).drop_last(),
                ),
            forall|i: int|
                0 <= i < terms@.len() && vars_exactly((#[trigger] terms@[i])@, names(old(variable_order)@))
                    ==> some_leaf_restricts(
                    leaves@,
                    terms@[i]@,
                    names(old(variable_order)@).drop_last(),
                ),
            forall|l1: int, l2: int|
                0 <= l1 < l2 < leaves@.len() ==> !equiv(
                    (#[trigger] leaves@[l1]).term_entries(),
                    (#[trigger] leaves@[l2]).term_entries(),
                ),
            forall|l: int|
                0 <= l < leaves@.len() ==> canonical_over(
                    (#[trigger] leaves@[l]).term_entries(),
                    names(old(variable_order)@).drop_last(),
                ) && survives(leaves@[l].term_entries(), terms@),
            forall|pp: Entries|
                #[trigger] canonical_over(pp, names(old(variable_order)@).drop_last()) && survives(
                    pp,
                    terms@,
                ) ==> exists|l: int|
                    0 <= l < leaves@.len() && (#[trigger] leaves@[l]).term_entries() == pp,
            forall|l: int|
                0 <= l < leaves@.len() ==> (#[trigger] leaves@[l]).var_name() == Some(
                    names(old(variable_order)@).last(),
                ),
    {
        let ghost full = names(old(variable_order)@);
        let ghost total = full.len() as int;
        let mut nodes = vec![root];
        proof {
            root.lemma_no_term_empty();
            assert(names(variable_order@) =~= full.subrange(total - variable_order@.len(), total));
            assert(full.subrange(0, 0) =~= Seq::<Seq<char>>::empty());
            assert forall|i: int|
                0 <= i < terms@.len() && vars_exactly((#[trigger] terms@[i])@, full) implies
                some_leaf_restricts(nodes@, terms@[i]@, full.subrange(0, 0)) by {
                assert(restriction_of(nodes@[0].term_entries(), terms@[i]@, full.subrange(0, 0)));
            }
            assert forall|pp: Entries|
                #[trigger] canonical_over(pp, full.subrange(0, 0)) && survives(pp, terms@) implies
                exists|n: int| 0 <= n < nodes@.len() && (#[trigger] nodes@[n]).term_entries()
                    == pp by {
                assert(pp =~= Seq::<(Seq<char>, LiteralValue)>::empty());
                assert(nodes@[0].term_entries() == pp);
            }
        }
        while variable_order.len() > 1
            invariant
                1 <= variable_order@.len() <= total,
                total == full.len(),
                total >= 2,
                distinct_names(full),
                all_wf(terms@),
                names(variable_order@) == full.subrange(total - variable_order@.len(), total),
                forall|n: int|
                    0 <= n < nodes@.len() ==> distinct_keys(
                        (#[trigger] nodes@[n]).term_entries(),
                    ) && vars_exactly(
                        nodes@[n].term_entries(),
                        full.subrange(0, total - variable_order@.len()),
                    ),
                variable_order@.len() < total ==> forall|n: int|
                    0 <= n < nodes@.len() ==> (#[trigger] nodes@[n]).has_term(),
                forall|i: int|
                    0 <= i < terms@.len() && vars_exactly((#[trigger] terms@[i])@, full)
                        ==> some_leaf_restricts(
                        nodes@,
                        terms@[i]@,
                        full.subrange(0, total - variable_order@.len()),
                    ),
                forall|n1: int, n2: int|
                    0 <= n1 < n2 < nodes@.len() ==> !equiv(
                        (#[trigger] nodes@[n1]).term_entries(),
                        (#[trigger] nodes@[n2]).term_entries(),
                    ),
                forall|n: int|
                    0 <= n < nodes@.len() ==> canonical_over(
                        (#[trigger] nodes@[n]).term_entries(),
                        full.subrange(0, total - variable_order@.len()),
                    ),
                variable_order@.len() < total ==> forall|n: int|
                    0 <= n < nodes@.len() ==> survives(
                        (#[trigger] nodes@[n]).term_entries(),
                        terms@,
                    ),
                variable_order@.len() < total ==> forall|n: int|
                    0 <= n < nodes@.len() ==> (#[trigger] nodes@[n]).var_name() == Some(
                        full[total - variable_order@.len()],
                    ),
                forall|pp: Entries|
                    #[trigger] canonical_over(pp, full.subrange(0, total - variable_order@.len()))
                        && survives(pp, terms@) ==> exists|n: int|
                        0 <= n < nodes@.len() && (#[trigger] nodes@[n]).term_entries() == pp,
            decreases variable_order@.len(),
        {
            let ghost c = total - variable_order@.len();
            let ghost order_before = variable_order@;
            let removed_var = variable_order.remove(0);
            proof {
                assert(removed_var@ == names(order_before)[0]);
                assert(names(order_before)[0] == full.subrange(c, total)[0]);
                assert(removed_var@ == full[c]);
                assert(variable_order@ =~= order_before.subrange(1, order_before.len() as int));
                assert forall|i: int| 0 <= i < variable_order@.len() implies names(
                    variable_order@,
                )[i] == full.subrange(c + 1, total)[i] by {
                    assert(names(variable_order@)[i] == variable_order@[i]@);
                    assert(variable_order@[i] == order_before[i + 1]);
                    assert(names(order_before)[i + 1] == order_before[i + 1]@);
                    assert(names(order_before) == full.subrange(c, total));
                    assert(full.subrange(c, total)[i + 1] == full[c + 1 + i]);
                    assert(full.subrange(c + 1, total)[i] == full[c + 1 + i]);
                }
                assert(names(variable_order@) =~= full.subrange(c + 1, total));
            }
            let node_variable = &variable_order[0];
            proof {
                assert(node_variable@ == names(variable_order@)[0]);
                assert(names(variable_order@)[0] == full.subrange(c + 1, total)[0]);
                assert(node_variable@ == full[c + 1]);
            }
            let mut childs: Vec<TernaryNode> = Vec::new();
            let mut index: usize = 0;
            proof {
                assert forall|pp: Entries|
                    #[trigger] canonical_over(pp, full.subrange(0, c + 1)) && survives(pp, terms@)
                        implies exists|m: int|
                    0 <= m < nodes@.len() && (#[trigger] nodes@[m]).term_entries()
                        == pp.drop_last() by {
                    let dl = pp.drop_last();
                    assert(canonical_over(dl, full.subrange(0, c))) by {
                        assert forall|i: int| 0 <= i < dl.len() implies (#[trigger] dl[i]).0
                            == full.subrange(0, c)[i] by {
                            assert(dl[i] == pp[i]);
                            assert(pp[i].0 == full.subrange(0, c + 1)[i]);
                        }
                    }
                    let j = choose|j: int|
                        0 <= j < terms@.len() && prefix_of(pp, (#[trigger] terms@[j])@);
                    assert(prefix_of(dl, (terms@[j])@)) by {
                        assert forall|i: int|
                            0 <= i < dl.len() implies #[trigger] has_key(
                            (terms@[j])@,
                            key_at(dl, i),
                        ) && value_of((terms@[j])@, key_at(dl, i)) == dl[i].1 by {
                            assert(dl[i] == pp[i]);
                            assert(has_key((terms@[j])@, key_at(pp, i)));
                        }
                    }
                    assert(survives(dl, terms@));
                }
            }
            while index < nodes.len()
                invariant
                    0 <= index <= nodes@.len(),
                    all_wf(terms@),
                    distinct_names(full),
                    total == full.len(),
                    0 <= c <= total - 2,
                    removed_var@ == full[c],
                    forall|n: int|
                        0 <= n < nodes@.len() ==> distinct_keys(
                            (#[trigger] nodes@[n]).term_entries(),
                        ) && vars_exactly(nodes@[n].term_entries(), full.subrange(0, c)),
                    forall|ch: int|
                        0 <= ch < childs@.len() ==> (#[trigger] childs@[ch]).has_term()
                            && distinct_keys(childs@[ch].term_entries()) && vars_exactly(
                            childs@[ch].term_entries(),
                            full.subrange(0, c + 1),
                        ),
                    forall|i: int|
                        0 <= i < terms@.len() && vars_exactly((#[trigger] terms@[i])@, full) ==> {
                            ||| some_leaf_restricts(childs@, terms@[i]@, full.subrange(0, c + 1))
                            ||| exists|m: int|
                                index <= m < nodes@.len() && restriction_of(
                                    (#[trigger] nodes@[m]).term_entries(),
                                    terms@[i]@,
                                    full.subrange(0, c),
                                )
                        },
                    forall|n1: int, n2: int|
                        0 <= n1 < n2 < nodes@.len() ==> !equiv(
                            (#[trigger] nodes@[n1]).term_entries(),
                            (#[trigger] nodes@[n2]).term_entries(),
                        ),
                    forall|ch: int|
                        0 <= ch < childs@.len() ==> child_of_processed(
                            (#[trigger] childs@[ch]).term_entries(),
                            nodes@,
                            index as int,
                            removed_var@,
                        ),
                    forall|c1: int, c2: int|
                        0 <= c1 < c2 < childs@.len() ==> !equiv(
                            (#[trigger] childs@[c1]).term_entries(),
                            (#[trigger] childs@[c2]).term_entries(),
                        ),
                    node_variable@ == full[c + 1],
                    forall|n: int|
                        0 <= n < nodes@.len() ==> canonical_over(
                            (#[trigger] nodes@[n]).term_entries(),
                            full.subrange(0, c),
                        ),
                    forall|ch: int|
                        0 <= ch < childs@.len() ==> canonical_over(
                            (#[trigger] childs@[ch]).term_entries(),
                            full.subrange(0, c + 1),
                        ),
                    forall|ch: int|
                        0 <= ch < childs@.len() ==> survives(
                            (#[trigger] childs@[ch]).term_entries(),
                            terms@,
                        ),
                    forall|ch: int|
                        0 <= ch < childs@.len() ==> (#[trigger] childs@[ch]).var_name() == Some(
                            full[c + 1],
                        ),
                    forall|pp: Entries|
                        #[trigger] canonical_over(pp, full.subrange(0, c + 1)) && survives(
                            pp,
                            terms@,
                        ) ==> (exists|ch: int|
                            0 <= ch < childs@.len() && (#[trigger] childs@[ch]).term_entries()
                                == pp) || (exists|m: int|
                            index <= m < nodes@.len() && (#[trigger] nodes@[m]).term_entries()
                                == pp.drop_last()),
                decreases nodes@.len() - index,
            {
                TernaryTreeMinimization::extend_frontier_node(
                    &nodes,
                    index,
                    &mut childs,
                    terms,
                    &removed_var,
                    node_variable,
                    Ghost(full),
                    Ghost(c),
                );
                index = index + 1;
            }
            nodes.clear();
            nodes.append(&mut childs);
        }
        proof {
            assert(total - variable_order@.len() == total - 1);
            assert(full.drop_last() =~= full.subrange(0, total - 1));
            assert(names(variable_order@)[0] == full.subrange(total - 1, total)[0]);
            assert(names(variable_order@)[0] == full.last());
        }
        nodes
    }

    /// Processes one frontier leaf: probes the three axis extensions
    /// against the working set and emits the resulting terms, keeping
    /// every invariant of the output set and covering each working-set
    /// term whose restriction this leaf carries.
    #[verifier::rlimit(100)]
    fn process_leaf(
        leaves: &Vec<TernaryNode>,
        l: usize,
        initial_terms: &Vec<ProductTerm>,
        node_variable: &String,
        final_terms: &mut Vec<ProductTerm>,
        Ghost(prefix): Ghost<Seq<Seq<char>>>,
        Ghost(charges_in): Ghost<Seq<int>>,
    ) -> (charges_out: Ghost<Seq<int>>)
        requires
            0 <= l < leaves@.len(),
            all_wf(initial_terms@),
            !prefix.contains(node_variable@),
            forall|l2: int|
                0 <= l2 < leaves@.len() ==> (#[trigger] leaves@[l2]).has_term() && distinct_keys(
                    leaves@[l2].term_entries(),
                ) && vars_exactly(leaves@[l2].term_entries(), prefix),
            forall|l1: int, l2: int|
                0 <= l1 < l2 < leaves@.len() ==> !equiv(
                    (#[trigger] leaves@[l1]).term_entries(),
                    (#[trigger] leaves@[l2]).term_entries(),
                ),
            all_over(initial_terms@, prefix.push(node_variable@)),
            all_wf(old(final_terms)@),
            distinct_terms(old(final_terms)@),
            sound_wrt(old(final_terms)@, initial_terms@),
            all_over(old(final_terms)@, prefix.push(node_variable@)),
            charged(old(final_terms)@, charges_in, initial_terms@, node_variable@),
            forall|j: int|
                0 <= j < old(final_terms)@.len() ==> from_leaf(
                    (#[trigger] old(final_terms)@[j])@,
                    leaves@,
                    l as int,
                    node_variable@,
                ),
        ensures
            all_wf(final(final_terms)@),
            distinct_terms(final(final_terms)@),
            sound_wrt(final(final_terms)@, initial_terms@),
            all_over(final(final_terms)@, prefix.push(node_variable@)),
            charged(final(final_terms)@, charges_out@, initial_terms@, node_variable@),
            forall|j: int|
                0 <= j < final(final_terms)@.len() ==> from_leaf(
                    (#[trigger] final(final_terms)@[j])@,
                    leaves@,
                    l + 1,
                    node_variable@,
                ),
            final(final_terms)@.len() >= old(final_terms)@.len(),
            forall|j: int|
                0 <= j < old(final_terms)@.len() ==> final(final_terms)@[j] == old(final_terms)@[j],
            forall|i: int|
                0 <= i < initial_terms@.len() && restriction_of(
                    leaves@[l as int].term_entries(),
                    (#[trigger] initial_terms@[i])@,
                    prefix,
                ) ==> term_covered((initial_terms@[i])@, final(final_terms)@),
            forall|j: int|
                old(final_terms)@.len() <= j < final(final_terms)@.len() ==> leaf_emits(
                    leaves@[l as int].term_entries(),
                    entry_set(initial_terms@),
                    node_variable@,
                    (#[trigger] final(final_terms)@[j])@,
                ),
            forall|e: Entries|
                #[trigger] leaf_emits(
                    leaves@[l as int].term_entries(),
                    entry_set(initial_terms@),
                    node_variable@,
                    e,
                ) ==> exists|j: int|
                    0 <= j < final(final_terms)@.len() && equiv(
                        (#[trigger] final(final_terms)@[j])@,
                        e,
                    ),
    {
        let ghost axis = node_variable@;
        let ghost vs = prefix.push(node_variable@);
        let ghost mut charges: Seq<int> = charges_in;
        let ghost ftA = final_terms@;
        let ghost chA = charges;
        let current_node = &leaves[l];
        let ghost p = current_node.term_entries();
        proof {
            assert(chA.len() == ftA.len()) by {
                reveal(charged);
            }
            assert(p == leaves@[l as int].term_entries());
            assert(!has_key(p, axis)) by {
                if has_key(p, axis) {
                    assert(prefix.contains(axis));
                }
            }
        }
        let mut built_term = current_node.get_term().unwrap().clone();
        let false_node = TernaryTreeMinimization::build_term_node(
            initial_terms,
            &mut built_term,
            node_variable,
            LiteralValue::False,
        );
        let dont_care_node = TernaryTreeMinimization::build_term_node(
            initial_terms,
            &mut built_term,
            node_variable,
            LiteralValue::DontCare,
        );
        let true_node = TernaryTreeMinimization::build_term_node(
            initial_terms,
            &mut built_term,
            node_variable,
            LiteralValue::True,
        );
        let ghost ef = p.push((axis, LiteralValue::False));
        let ghost ed = p.push((axis, LiteralValue::DontCare));
        let ghost et = p.push((axis, LiteralValue::True));
        let ghost ft0 = final_terms@;
        let ghost mut cdc: int = 0;
        if let Some(dont_care) = &dont_care_node {
            let to_insert = dont_care.get_term().unwrap().clone();
            proof {
                cdc = choose|j: int|
                    0 <= j < initial_terms@.len() && exact_match(
                        ed,
                        (#[trigger] initial_terms@[j])@,
                    );
                lemma_push_keys(p, axis, LiteralValue::DontCare);
                lemma_emit_matched(ed, initial_terms@, cdc);
                lemma_ext_vars(p, prefix, axis, LiteralValue::DontCare);
            }
            emit(final_terms, to_insert, initial_terms, Ghost(vs));
            proof {
                if final_terms@.len() > ftA.len() {
                    let x = final_terms@.last();
                    assert(final_terms@ == ftA.push(x));
                    assert(x@ == ed);
                    lemma_exact_match_equiv(ed, (initial_terms@[cdc])@);
                    lemma_site_push_matched(
                        ftA,
                        ftA,
                        chA,
                        initial_terms@,
                        leaves@,
                        l as int,
                        prefix,
                        axis,
                        x,
                        LiteralValue::DontCare,
                        cdc,
                    );
                    charges = chA.push(cdc);
                }
            }
        }
        let ghost ft1 = final_terms@;
        let ghost ch1 = charges;
        if dont_care_node.is_none() {
            if let Some(true_child) = &true_node {
                if let Some(false_child) = &false_node {
                    proof {
                        lemma_push_keys(p, axis, LiteralValue::False);
                        lemma_push_keys(p, axis, LiteralValue::True);
                        lemma_siblings_mergeable(p, axis);
                    }
                    let merged_term = false_child.get_term().unwrap().merge(
                        true_child.get_term().unwrap(),
                    );
                    if let Ok(term) = merged_term {
                        let ghost cmf = choose|j: int|
                            0 <= j < initial_terms@.len() && exact_match(
                                ef,
                                (#[trigger] initial_terms@[j])@,
                            );
                        proof {
                            lemma_merged_is_star(p, axis);
                            let jt = choose|j: int|
                                0 <= j < initial_terms@.len() && exact_match(
                                    et,
                                    (#[trigger] initial_terms@[j])@,
                                );
                            lemma_star_covered(p, axis, initial_terms@, cmf, jt);
                            lemma_ext_vars(p, prefix, axis, LiteralValue::DontCare);
                        }
                        emit(final_terms, term, initial_terms, Ghost(vs));
                        proof {
                            if final_terms@.len() > ft1.len() {
                                let x = final_terms@.last();
                                assert(final_terms@ == ft1.push(x));
                                assert(x@ == ed);
                                lemma_exact_match_equiv(ef, (initial_terms@[cmf])@);
                                assert(ft1 == ftA) by {
                                    if ft1 != ftA {
                                        assert(dont_care_node is Some);
                                        let jd = choose|jd: int|
                                            0 <= jd < ft1.len() && equiv((#[trigger] ft1[jd])@, ed);
                                        assert(!equiv((ft1[jd])@, x@));
                                    }
                                }
                                assert forall|j: int|
                                    0 <= j < initial_terms@.len() implies !exact_match(
                                    x@,
                                    (#[trigger] initial_terms@[j])@,
                                ) by {
                                    if exact_match(x@, (initial_terms@[j])@) {
                                        assert(dont_care_node is Some);
                                        assert(false);
                                    }
                                }
                                lemma_site_push_star(
                                    ft1,
                                    ch1,
                                    initial_terms@,
                                    leaves@,
                                    l as int,
                                    prefix,
                                    axis,
                                    x,
                                    cmf,
                                );
                                charges = ch1.push(cmf);
                            }
                        }
                    } else {
                        let to_true = true_child.get_term().unwrap().clone();
                        let ghost ct2 = choose|j: int|
                            0 <= j < initial_terms@.len() && exact_match(
                                et,
                                (#[trigger] initial_terms@[j])@,
                            );
                        proof {
                            lemma_emit_matched(et, initial_terms@, ct2);
                            lemma_ext_vars(p, prefix, axis, LiteralValue::True);
                        }
                        emit(final_terms, to_true, initial_terms, Ghost(vs));
                        proof {
                            if final_terms@.len() > ft1.len() {
                                let x = final_terms@.last();
                                assert(final_terms@ == ft1.push(x));
                                assert(x@ == et);
                                lemma_exact_match_equiv(et, (initial_terms@[ct2])@);
                                assert forall|j: int| ftA.len() <= j < ft1.len() implies equiv(
                                    (#[trigger] ft1[j])@,
                                    (initial_terms@[ch1[j]])@,
                                ) by {
                                assert((ft1[j])@ == ed && ch1[j] == cdc);
                                }
                                lemma_site_push_matched(
                                    ftA,
                                    ft1,
                                    ch1,
                                    initial_terms@,
                                    leaves@,
                                    l as int,
                                    prefix,
                                    axis,
                                    x,
                                    LiteralValue::True,
                                    ct2,
                                );
                                charges = ch1.push(ct2);
                            }
                        }
                        let ghost ft2 = final_terms@;
                        let ghost ch2 = charges;
                        let to_false = false_child.get_term().unwrap().clone();
                        let ghost cf2 = choose|j: int|
                            0 <= j < initial_terms@.len() && exact_match(
                                ef,
                                (#[trigger] initial_terms@[j])@,
                            );
                        proof {
                            lemma_emit_matched(ef, initial_terms@, cf2);
                            lemma_ext_vars(p, prefix, axis, LiteralValue::False);
                        }
                        emit(final_terms, to_false, initial_terms, Ghost(vs));
                        proof {
                            if final_terms@.len() > ft2.len() {
                                let x = final_terms@.last();
                                assert(final_terms@ == ft2.push(x));
                                assert(x@ == ef);
                                lemma_exact_match_equiv(ef, (initial_terms@[cf2])@);
                                assert forall|j: int| ftA.len() <= j < ft2.len() implies equiv(
                                    (#[trigger] ft2[j])@,
                                    (initial_terms@[ch2[j]])@,
                                ) by {
                                if j < ft1.len() {
                                    assert((ft2[j])@ == ed && ch2[j] == cdc);
                                } else {
                                    assert((ft2[j])@ == et && ch2[j] == ct2);
                                }
                                }
                                lemma_site_push_matched(
                                    ftA,
                                    ft2,
                                    ch2,
                                    initial_terms@,
                                    leaves@,
                                    l as int,
                                    prefix,
                                    axis,
                                    x,
                                    LiteralValue::False,
                                    cf2,
                                );
                                charges = ch2.push(cf2);
                            }
                        }
                    }
                } else {
                    let to_true = true_child.get_term().unwrap().clone();
                    let ghost ct1 = choose|j: int|
                        0 <= j < initial_terms@.len() && exact_match(
                            et,
                            (#[trigger] initial_terms@[j])@,
                        );
                    proof {
                        lemma_push_keys(p, axis, LiteralValue::True);
                        lemma_emit_matched(et, initial_terms@, ct1);
                        lemma_ext_vars(p, prefix, axis, LiteralValue::True);
                    }
                    emit(final_terms, to_true, initial_terms, Ghost(vs));
                        proof {
                            if final_terms@.len() > ft1.len() {
                                let x = final_terms@.last();
                                assert(final_terms@ == ft1.push(x));
                                assert(x@ == et);
                                lemma_exact_match_equiv(et, (initial_terms@[ct1])@);
                                assert forall|j: int| ftA.len() <= j < ft1.len() implies equiv(
                                    (#[trigger] ft1[j])@,
                                    (initial_terms@[ch1[j]])@,
                                ) by {
                                assert((ft1[j])@ == ed && ch1[j] == cdc);
                                }
                                lemma_site_push_matched(
                                    ftA,
                                    ft1,
                                    ch1,
                                    initial_terms@,
                                    leaves@,
                                    l as int,
                                    prefix,
                                    axis,
                                    x,
                                    LiteralValue::True,
                                    ct1,
                                );
                                charges = ch1.push(ct1);
                            }
                        }
                }
            } else if let Some(false_child) = &false_node {
                let to_false = false_child.get_term().unwrap().clone();
                let ghost cf1 = choose|j: int|
                    0 <= j < initial_terms@.len() && exact_match(
                        ef,
                        (#[trigger] initial_terms@[j])@,
                    );
                proof {
                    lemma_push_keys(p, axis, LiteralValue::False);
                    lemma_emit_matched(ef, initial_terms@, cf1);
                    lemma_ext_vars(p, prefix, axis, LiteralValue::False);
                }
                emit(final_terms, to_false, initial_terms, Ghost(vs));
                proof {
                    if final_terms@.len() > ft1.len() {
                        let x = final_terms@.last();
                        assert(final_terms@ == ft1.push(x));
                        assert(x@ == ef);
                        lemma_exact_match_equiv(ef, (initial_terms@[cf1])@);
                        assert forall|j: int| ftA.len() <= j < ft1.len() implies equiv(
                            (#[trigger] ft1[j])@,
                            (initial_terms@[ch1[j]])@,
                        ) by {
                            assert((ft1[j])@ == ed && ch1[j] == cdc);
                        }
                        lemma_site_push_matched(
                            ftA,
                            ft1,
                            ch1,
                            initial_terms@,
                            leaves@,
                            l as int,
                            prefix,
                            axis,
                            x,
                            LiteralValue::False,
                            cf1,
                        );
                        charges = ch1.push(cf1);
                    }
                }
            }
        }
        proof {
            assert(final_terms@.len() >= ft1.len() && forall|j: int|
                0 <= j < ft1.len() ==> final_terms@[j] == ft1[j]);
            assert(final_terms@.len() >= ft0.len() && forall|j: int|
                0 <= j < ft0.len() ==> final_terms@[j] == ft0[j]);
            assert forall|j: int| 0 <= j < final_terms@.len() implies from_leaf(
                (#[trigger] final_terms@[j])@,
                leaves@,
                l + 1,
                axis,
            ) by {
                if j < ftA.len() {
                    assert(from_leaf((ftA[j])@, leaves@, l as int, axis));
                    let (l2, lity): (int, LiteralValue) = choose|l2: int, lity: LiteralValue|
                        0 <= l2 < l && (ftA[j])@ == #[trigger] leaves@[l2].term_entries().push(
                            (axis, lity),
                        );
                    assert((final_terms@[j])@ == leaves@[l2].term_entries().push((axis, lity)));
                } else {
                    assert((final_terms@[j])@ == ed || (final_terms@[j])@ == ef
                        || (final_terms@[j])@ == et);
                    assert(ed == leaves@[l as int].term_entries().push(
                        (axis, LiteralValue::DontCare),
                    ));
                    assert(ef == leaves@[l as int].term_entries().push(
                        (axis, LiteralValue::False),
                    ));
                    assert(et == leaves@[l as int].term_entries().push(
                        (axis, LiteralValue::True),
                    ));
                }
            }
            assert(dont_care_node is Some ==> exists|j: int|
                0 <= j < final_terms@.len() && equiv((#[trigger] final_terms@[j])@, ed));
            assert(true_node is Some && false_node is Some ==> exists|j: int|
                0 <= j < final_terms@.len() && equiv((#[trigger] final_terms@[j])@, ed));
            assert(dont_care_node is None && true_node is Some && !(false_node is Some)
                ==> exists|j: int|
                    0 <= j < final_terms@.len() && equiv((#[trigger] final_terms@[j])@, et));
            assert(dont_care_node is None && !(true_node is Some) && false_node is Some
                ==> exists|j: int|
                    0 <= j < final_terms@.len() && equiv((#[trigger] final_terms@[j])@, ef));
            lemma_leaf_coverage(
                leaves@,
                l as int,
                initial_terms@,
                prefix,
                axis,
                final_terms@,
                dont_care_node is Some,
                false_node is Some,
                true_node is Some,
            );
            reveal(leaf_emits);
            lemma_push_keys(p, axis, LiteralValue::DontCare);
            lemma_push_keys(p, axis, LiteralValue::False);
            lemma_push_keys(p, axis, LiteralValue::True);
            lemma_mem_exact(initial_terms@, ed);
            lemma_mem_exact(initial_terms@, ef);
            lemma_mem_exact(initial_terms@, et);
            lemma_merged_is_star(p, axis);
            let sset = entry_set(initial_terms@);
            assert(mem_of(sset, ed) <==> dont_care_node is Some);
            assert(mem_of(sset, ef) <==> false_node is Some);
            assert(mem_of(sset, et) <==> true_node is Some);
            assert forall|j: int| ftA.len() <= j < final_terms@.len() implies leaf_emits(
                leaves@[l as int].term_entries(),
                sset,
                axis,
                (#[trigger] final_terms@[j])@,
            ) by {
                let e = (final_terms@[j])@;
                assert(e == ed || e == ef || e == et);
                if e == ed {
                    if !mem_of(sset, ed) {
                        assert(true_node is Some && false_node is Some);
                        assert(e == merged(ef, et));
                    }
                } else if e == ef {
                    assert(dont_care_node is None && !(true_node is Some));
                } else {
                    assert(dont_care_node is None && !(false_node is Some));
                }
            }
            assert forall|e: Entries| #[trigger] leaf_emits(
                leaves@[l as int].term_entries(),
                sset,
                axis,
                e,
            ) implies exists|j: int|
                0 <= j < final_terms@.len() && equiv((#[trigger] final_terms@[j])@, e) by {
                if mem_of(sset, ed) {
                    assert(e == ed);
                    assert(dont_care_node is Some);
                } else if mem_of(sset, ef) && mem_of(sset, et) {
                    assert(e == merged(ef, et));
                    assert(e == ed);
                    assert(dont_care_node is None && true_node is Some && false_node is Some);
                } else if mem_of(sset, ef) {
                    assert(e == ef);
                    assert(dont_care_node is None && !(true_node is Some) && false_node is Some);
                } else {
                    assert(mem_of(sset, et));
                    assert(e == et);
                    assert(dont_care_node is None && true_node is Some && !(false_node is Some));
                }
            }
        }
        Ghost(charges)
    }

    /// The merge step: each frontier leaf is extended on the deferred
    /// merge axis. A don't-care extension that exactly matches a term of
    /// the working set is emitted as it stands; otherwise matching False
    /// and True extensions are merged into one term carrying a
    /// don't-care on the axis, or emitted unmerged when their merge is
    /// rejected.
    fn merge(
        leaves: &Vec<TernaryNode>,
        initial_terms: &Vec<ProductTerm>,
        node_variable: &String,
        Ghost(prefix): Ghost<Seq<Seq<char>>>,
    ) -> (final_terms: Vec<ProductTerm>)
        requires
            all_wf(initial_terms@),
            !prefix.contains(node_variable@),
            forall|l: int|
                0 <= l < leaves@.len() ==> (#[trigger] leaves@[l]).has_term() && distinct_keys(
                    leaves@[l].term_entries(),
                ) && vars_exactly(leaves@[l].term_entries(), prefix),
            forall|l1: int, l2: int|
                0 <= l1 < l2 < leaves@.len() ==> !equiv(
                    (#[trigger] leaves@[l1]).term_entries(),
                    (#[trigger] leaves@[l2]).term_entries(),
                ),
            all_over(initial_terms@, prefix.push(node_variable@)),
        ensures
            all_wf(final_terms@),
            distinct_terms(final_terms@),
            sound_wrt(final_terms@, initial_terms@),
            all_over(final_terms@, prefix.push(node_variable@)),
            forall|i: int|
                0 <= i < initial_terms@.len() && some_leaf_restricts(
                    leaves@,
                    (initial_terms@[i])@,
                    prefix,
                ) ==> term_covered((#[trigger] initial_terms@[i])@, final_terms@),
            final_terms@.len() <= initial_terms@.len(),
            forall|j: int|
                0 <= j < final_terms@.len() ==> emitted_by(
                    (#[trigger] final_terms@[j])@,
                    leaves@,
                    leaves@.len() as int,
                    entry_set(initial_terms@),
                    node_variable@,
                ),
            forall|l2: int, e: Entries|
                0 <= l2 < leaves@.len() && #[trigger] leaf_emits(
                    (leaves@[l2]).term_entries(),
                    entry_set(initial_terms@),
                    node_variable@,
                    e,
                ) ==> exists|j: int|
                    0 <= j < final_terms@.len() && equiv((#[trigger] final_terms@[j])@, e),
    {
        let ghost axis = node_variable@;
        let ghost vs = prefix.push(node_variable@);
        let mut final_terms: Vec<ProductTerm> = Vec::new();
        let ghost mut charges: Seq<int> = Seq::empty();
        proof {
            assert(charged(final_terms@, charges, initial_terms@, axis)) by {
                reveal(charged);
            }
        }
        let mut l: usize = 0;
        while l < leaves.len()
            invariant
                0 <= l <= leaves@.len(),
                axis == node_variable@,
                vs == prefix.push(node_variable@),
                all_wf(initial_terms@),
                !prefix.contains(axis),
                forall|l2: int|
                    0 <= l2 < leaves@.len() ==> (#[trigger] leaves@[l2]).has_term()
                        && distinct_keys(leaves@[l2].term_entries()) && vars_exactly(
                        leaves@[l2].term_entries(),
                        prefix,
                    ),
                all_over(initial_terms@, vs),
                all_wf(final_terms@),
                distinct_terms(final_terms@),
                sound_wrt(final_terms@, initial_terms@),
                all_over(final_terms@, vs),
                forall|i: int|
                    0 <= i < initial_terms@.len() && (exists|l2: int|
                        0 <= l2 < l && restriction_of(
                            (#[trigger] leaves@[l2]).term_entries(),
                            (initial_terms@[i])@,
                            prefix,
                        )) ==> term_covered((#[trigger] initial_terms@[i])@, final_terms@),
                forall|l1: int, l2: int|
                    0 <= l1 < l2 < leaves@.len() ==> !equiv(
                        (#[trigger] leaves@[l1]).term_entries(),
                        (#[trigger] leaves@[l2]).term_entries(),
                    ),
                charged(final_terms@, charges, initial_terms@, axis),
                forall|j: int|
                    0 <= j < final_terms@.len() ==> from_leaf(
                        (#[trigger] final_terms@[j])@,
                        leaves@,
                        l as int,
                        axis,
                    ),
                forall|j: int|
                    0 <= j < final_terms@.len() ==> emitted_by(
                        (#[trigger] final_terms@[j])@,
                        leaves@,
                        l as int,
                        entry_set(initial_terms@),
                        axis,
                    ),
                forall|l2: int, e: Entries|
                    0 <= l2 < l && #[trigger] leaf_emits(
                        (leaves@[l2]).term_entries(),
                        entry_set(initial_terms@),
                        axis,
                        e,
                    ) ==> exists|j: int|
                        0 <= j < final_terms@.len() && equiv((#[trigger] final_terms@[j])@, e),
            decreases leaves@.len() - l,
        {
            let ghost ft0 = final_terms@;
            let Ghost(new_charges) = TernaryTreeMinimization::process_leaf(
                leaves,
                l,
                initial_terms,
                node_variable,
                &mut final_terms,
                Ghost(prefix),
                Ghost(charges),
            );
            proof {
                charges = new_charges;
                assert forall|i: int|
                    0 <= i < initial_terms@.len() && (exists|l2: int|
                        0 <= l2 < l + 1 && restriction_of(
                            (#[trigger] leaves@[l2]).term_entries(),
                            (initial_terms@[i])@,
                            prefix,
                        )) implies term_covered((#[trigger] initial_terms@[i])@, final_terms@) by {
                    let t = (initial_terms@[i])@;
                    let l2 = choose|l2: int|
                        0 <= l2 < l + 1 && restriction_of(
                            (#[trigger] leaves@[l2]).term_entries(),
                            t,
                            prefix,
                        );
                    if l2 < l {
                        assert(term_covered(t, ft0));
                        lemma_covered_grow(t, ft0, final_terms@);
                    } else {
                        assert(restriction_of(leaves@[l as int].term_entries(), t, prefix));
                        assert(term_covered(t, final_terms@));
                    }
                }
                assert forall|j: int| 0 <= j < final_terms@.len() implies emitted_by(
                    (#[trigger] final_terms@[j])@,
                    leaves@,
                    l + 1,
                    entry_set(initial_terms@),
                    axis,
                ) by {
                    if j < ft0.len() {
                        assert(emitted_by(
                            (ft0[j])@,
                            leaves@,
                            l as int,
                            entry_set(initial_terms@),
                            axis,
                        ));
                        let l2 = choose|l2: int|
                            0 <= l2 < l && leaf_emits(
                                (#[trigger] leaves@[l2]).term_entries(),
                                entry_set(initial_terms@),
                                axis,
                                (ft0[j])@,
                            );
                        assert(final_terms@[j] == ft0[j]);
                        assert(leaf_emits(
                            leaves@[l2].term_entries(),
                            entry_set(initial_terms@),
                            axis,
                            (final_terms@[j])@,
                        ));
                    } else {
                        assert(leaf_emits(
                            leaves@[l as int].term_entries(),
                            entry_set(initial_terms@),
                            axis,
                            (final_terms@[j])@,
                        ));
                    }
                }
                assert forall|l2: int, e: Entries|
                    0 <= l2 < l + 1 && #[trigger] leaf_emits(
                        (leaves@[l2]).term_entries(),
                        entry_set(initial_terms@),
                        axis,
                        e,
                    ) implies exists|j: int|
                    0 <= j < final_terms@.len() && equiv((#[trigger] final_terms@[j])@, e) by {
                    if l2 < l {
                        let j = choose|j: int|
                            0 <= j < ft0.len() && equiv((#[trigger] ft0[j])@, e);
                        assert(final_terms@[j] == ft0[j]);
                        assert(equiv((final_terms@[j])@, e));
                    }
                }
            }
            l = l + 1;
        }
        proof {
            lemma_charged_bound(final_terms@, charges, initial_terms@, axis);
        }
        final_terms
    }

    /// Extends a completed path with one literal on the deferred merge
    /// axis, yielding a term node only when the extension exactly
    /// matches a term of the original working set. The shared term is
    /// restored before returning.
    fn build_term_node(
        terms: &Vec<ProductTerm>,
        built_term: &mut ProductTerm,
        variable: &String,
        literal: LiteralValue,
    ) -> (r: Option<TernaryNode>)
        requires
            old(built_term).wf(),
            !has_key(old(built_term)@, variable@),
            all_wf(terms@),
        ensures
            final(built_term)@ == old(built_term)@,
            r is Some <==> exists|j: int|
                0 <= j < terms@.len() && exact_match(
                    old(built_term)@.push((variable@, literal)),
                    (#[trigger] terms@[j])@,
                ),
            r is Some ==> (r->0).has_term() && (r->0).term_entries() == old(built_term)@.push(
                (variable@, literal),
            ),
    {
        proof {
            lemma_push_keys(built_term@, variable@, literal);
        }
        built_term.add_literal(String::clone(variable), literal);
        if built_term.matches_any(terms) {
            let node = TernaryNode::new_with_term(built_term.clone());
            built_term.remove_last();
            proof {
                assert(final(built_term)@ =~= old(built_term)@);
            }
            Some(node)
        } else {
            built_term.remove_last();
            proof {
                assert(final(built_term)@ =~= old(built_term)@);
            }
            None
        }
    }
}

} // verus!
