use vstd::prelude::*;

use crate::literal_value::{lit_sat, lit_subsumes, LiteralValue};

verus! {

/// The mathematical content of a product term: its (variable name, literal)
/// entries in insertion order. Variable names are modelled as character
/// sequences.
pub type Entries = Seq<(Seq<char>, LiteralValue)>;

/// The variable name stored at position `i`.
pub open spec fn key_at(ps: Entries, i: int) -> Seq<char> {
    ps[i].0
}

/// Whether some entry carries the variable name `k`.
pub open spec fn has_key(ps: Entries, k: Seq<char>) -> bool {
    exists|i: int| 0 <= i < ps.len() && key_at(ps, i) == k
}

/// A position at which the variable name `k` is stored.
pub open spec fn idx_of(ps: Entries, k: Seq<char>) -> int {
    choose|i: int| 0 <= i < ps.len() && key_at(ps, i) == k
}

/// The literal recorded for the variable name `k`.
pub open spec fn value_of(ps: Entries, k: Seq<char>) -> LiteralValue {
    ps[idx_of(ps, k)].1
}

/// The literal recorded for `k`, or `None` when the variable is absent.
pub open spec fn lookup(ps: Entries, k: Seq<char>) -> Option<LiteralValue> {
    if has_key(ps, k) {
        Some(value_of(ps, k))
    } else {
        None
    }
}

/// Each variable name appears at most once: the invariant every product
/// term maintains.
pub open spec fn distinct_keys(ps: Entries) -> bool {
    forall|i: int, j: int| 0 <= i < j < ps.len() ==> key_at(ps, i) != key_at(ps, j)
}

/// Every variable of `a` occurs in `b` with an identical literal.
pub open spec fn prefix_of(a: Entries, b: Entries) -> bool {
    forall|i: int|
        0 <= i < a.len() ==> #[trigger] has_key(b, key_at(a, i)) && value_of(b, key_at(a, i))
            == a[i].1
}

/// An exact structural match: the same variables with the same literals.
/// Equality of product terms and the `matches` test both denote this
/// relation, which ignores insertion order.
pub open spec fn exact_match(a: Entries, b: Entries) -> bool {
    a.len() == b.len() && prefix_of(a, b)
}

/// The two entry sequences describe the same variable-to-literal mapping.
pub open spec fn equiv(a: Entries, b: Entries) -> bool {
    &&& forall|k: Seq<char>|
        #[trigger] has_key(a, k) ==> has_key(b, k) && value_of(a, k) == value_of(b, k)
    &&& forall|k: Seq<char>| #[trigger] has_key(b, k) ==> has_key(a, k)
}

/// The two entry sequences mention exactly the same variables.
pub open spec fn same_keys(a: Entries, b: Entries) -> bool {
    forall|k: Seq<char>| has_key(a, k) <==> has_key(b, k)
}

/// Both terms mention `k` and disagree on its literal.
pub open spec fn diff_at(a: Entries, b: Entries, k: Seq<char>) -> bool {
    has_key(a, k) && has_key(b, k) && value_of(a, k) != value_of(b, k)
}

/// The disagreement at `k` pits a don't-care against a concrete literal.
pub open spec fn dc_mismatch_at(a: Entries, b: Entries, k: Seq<char>) -> bool {
    diff_at(a, b, k) && (value_of(a, k) == LiteralValue::DontCare || value_of(b, k)
        == LiteralValue::DontCare)
}

/// When two product terms merge: same variable set, every disagreement is
/// between concrete literals, and at most one variable disagrees.
pub open spec fn mergeable(a: Entries, b: Entries) -> bool {
    &&& same_keys(a, b)
    &&& forall|k: Seq<char>|
        #[trigger] diff_at(a, b, k) ==> value_of(a, k) != LiteralValue::DontCare && value_of(b, k)
            != LiteralValue::DontCare
    &&& forall|k1: Seq<char>, k2: Seq<char>|
        #[trigger] diff_at(a, b, k1) && #[trigger] diff_at(a, b, k2) ==> k1 == k2
}

/// The result of a successful merge: `a`'s entries in order, with the one
/// disagreeing variable turned into a don't-care.
pub open spec fn merged(a: Entries, b: Entries) -> Entries {
    Seq::new(
        a.len(),
        |i: int|
            (
                a[i].0,
                if value_of(b, a[i].0) == a[i].1 {
                    a[i].1
                } else {
                    LiteralValue::DontCare
                },
            ),
    )
}

/// Adding one literal: overwrite in place when the variable is present,
/// append otherwise.
pub open spec fn spec_add(ps: Entries, k: Seq<char>, v: LiteralValue) -> Entries {
    if has_key(ps, k) {
        ps.update(idx_of(ps, k), (k, v))
    } else {
        ps.push((k, v))
    }
}

/// Folding a pair sequence into a term, later pairs overwriting earlier
/// ones with the same variable.
pub open spec fn with_literals(pairs: Entries) -> Entries
    decreases pairs.len(),
{
    if pairs.len() == 0 {
        Seq::empty()
    } else {
        spec_add(with_literals(pairs.drop_last()), pairs.last().0, pairs.last().1)
    }
}

/// One mixing step of the hash: rotate the accumulator and fold in a word.
pub open spec fn mix(h: u64, x: u64) -> u64 {
    ((h << 7) | (h >> 57)) ^ x
}

/// A code for a variable name, folded over its characters.
pub open spec fn name_code(s: Seq<char>) -> u64
    decreases s.len(),
{
    if s.len() == 0 {
        0x9e3779b9
    } else {
        mix(name_code(s.drop_last()), s.last() as u64)
    }
}

/// A code for one entry, mixing the variable's code with the literal's.
pub open spec fn entry_code(p: (Seq<char>, LiteralValue)) -> u64 {
    mix(name_code(p.0), p.1.spec_code())
}

/// The hash of a term: the entry codes combined with exclusive or, a
/// commutative combiner, so that insertion order cannot influence it.
pub open spec fn hash_of(ps: Entries) -> u64
    decreases ps.len(),
{
    if ps.len() == 0 {
        0
    } else {
        hash_of(ps.drop_last()) ^ entry_code(ps.last())
    }
}

/// The entries of `x` with the literal stored for `k` replaced by `v`.
pub open spec fn with_axis(x: Entries, k: Seq<char>, v: LiteralValue) -> Entries {
    x.update(idx_of(x, k), (k, v))
}

/// A total assignment of truth values to variable names.
pub type Assignment = Map<Seq<char>, bool>;

/// Whether the assignment satisfies the product term: it assigns every
/// variable the term mentions, compatibly with the recorded literal.
pub open spec fn term_sat(ps: Entries, asg: Assignment) -> bool {
    forall|i: int|
        0 <= i < ps.len() ==> asg.dom().contains(#[trigger] key_at(ps, i)) && lit_sat(
            ps[i].1,
            asg[key_at(ps, i)],
        )
}

/// The term `g` covers the term `s`: same variable set, and each of `g`'s
/// literals admits everything the corresponding literal of `s` admits.
/// Every assignment satisfying `s` then satisfies `g`.
pub open spec fn subsumes(g: Entries, s: Entries) -> bool {
    &&& same_keys(g, s)
    &&& forall|k: Seq<char>|
        #[trigger] has_key(g, k) ==> lit_subsumes(value_of(g, k), value_of(s, k))
}

/// The rendering of one entry: nothing for a don't-care, the name for a
/// positive literal, the name after a negation sign otherwise.
pub open spec fn entry_text(p: (Seq<char>, LiteralValue)) -> Seq<char> {
    match p.1 {
        LiteralValue::DontCare => Seq::empty(),
        LiteralValue::True => p.0,
        LiteralValue::False => seq!['~'].add(p.0),
    }
}

/// The rendering of a whole term: the entry texts in insertion order,
/// with `&` between a non-empty buffer and each non-don't-care entry.
pub open spec fn rendered(ps: Entries) -> Seq<char>
    decreases ps.len(),
{
    if ps.len() == 0 {
        Seq::empty()
    } else {
        let buffer = rendered(ps.drop_last());
        if ps.last().1 == LiteralValue::DontCare {
            buffer
        } else if buffer.len() == 0 {
            entry_text(ps.last())
        } else {
            buffer.add(seq!['&']).add(entry_text(ps.last()))
        }
    }
}

/// At a position of a duplicate-free entry sequence, the stored pair is
/// exactly what the key functions report.
pub(crate) proof fn lemma_value_at(ps: Entries, i: int)
    requires
        distinct_keys(ps),
        0 <= i < ps.len(),
    ensures
        has_key(ps, key_at(ps, i)),
        idx_of(ps, key_at(ps, i)) == i,
        value_of(ps, key_at(ps, i)) == ps[i].1,
{
    assert(has_key(ps, key_at(ps, i)));
    let j = idx_of(ps, key_at(ps, i));
    assert(0 <= j < ps.len() && key_at(ps, j) == key_at(ps, i));
    if i < j {
        assert(key_at(ps, i) != key_at(ps, j));
    }
    if j < i {
        assert(key_at(ps, j) != key_at(ps, i));
    }
}

/// How removing one entry changes the key functions.
pub(crate) proof fn lemma_remove_keys(ps: Entries, j: int)
    requires
        distinct_keys(ps),
        0 <= j < ps.len(),
    ensures
        distinct_keys(ps.remove(j)),
        ps.remove(j).len() == ps.len() - 1,
        forall|k: Seq<char>|
            #[trigger] has_key(ps.remove(j), k) <==> has_key(ps, k) && k != key_at(ps, j),
        forall|k: Seq<char>|
            #[trigger] has_key(ps.remove(j), k) ==> value_of(ps.remove(j), k) == value_of(ps, k),
{
    let r = ps.remove(j);
    ps.remove_ensures(j);
    assert forall|i: int| 0 <= i < r.len() implies #[trigger] r[i] == if i < j {
        ps[i]
    } else {
        ps[i + 1]
    } by {}
    assert forall|k: Seq<char>| #[trigger] has_key(r, k) implies has_key(ps, k) && k != key_at(
        ps,
        j,
    ) by {
        let i = choose|i: int| 0 <= i < r.len() && key_at(r, i) == k;
        if i < j {
            assert(key_at(ps, i) == k);
        } else {
            assert(key_at(ps, i + 1) == k);
        }
    }
    assert forall|k: Seq<char>| has_key(ps, k) && k != key_at(ps, j) implies #[trigger] has_key(
        r,
        k,
    ) by {
        let i = idx_of(ps, k);
        assert(0 <= i < ps.len() && key_at(ps, i) == k);
        if i < j {
            assert(key_at(r, i) == k);
        } else {
            assert(i != j);
            assert(key_at(r, i - 1) == k);
        }
    }
    assert forall|i1: int, i2: int| 0 <= i1 < i2 < r.len() implies key_at(r, i1) != key_at(
        r,
        i2,
    ) by {
        let o1: int = if i1 < j {
            i1
        } else {
            i1 + 1
        };
        let o2: int = if i2 < j {
            i2
        } else {
            i2 + 1
        };
        assert(key_at(r, i1) == key_at(ps, o1));
        assert(key_at(r, i2) == key_at(ps, o2));
    }
    assert forall|k: Seq<char>| #[trigger] has_key(r, k) implies value_of(r, k) == value_of(
        ps,
        k,
    ) by {
        let i = idx_of(r, k);
        assert(0 <= i < r.len() && key_at(r, i) == k);
        lemma_value_at(r, i);
        if i < j {
            lemma_value_at(ps, i);
        } else {
            lemma_value_at(ps, i + 1);
        }
    }
}

/// How appending a fresh entry changes the key functions.
pub(crate) proof fn lemma_push_keys(ps: Entries, k: Seq<char>, v: LiteralValue)
    requires
        distinct_keys(ps),
        !has_key(ps, k),
    ensures
        distinct_keys(ps.push((k, v))),
        forall|k0: Seq<char>| #[trigger] has_key(ps.push((k, v)), k0) <==> has_key(ps, k0) || k0 == k,
        value_of(ps.push((k, v)), k) == v,
        forall|k0: Seq<char>|
            has_key(ps, k0) ==> #[trigger] value_of(ps.push((k, v)), k0) == value_of(ps, k0),
{
    let p = ps.push((k, v));
    assert forall|i: int| 0 <= i < ps.len() implies #[trigger] key_at(p, i) == key_at(ps, i) by {}
    assert(key_at(p, ps.len() as int) == k);
    assert forall|k0: Seq<char>| #[trigger] has_key(p, k0) implies has_key(ps, k0) || k0 == k by {
        let i = choose|i: int| 0 <= i < p.len() && key_at(p, i) == k0;
        if i < ps.len() {
            assert(key_at(ps, i) == k0);
        }
    }
    assert forall|k0: Seq<char>| has_key(ps, k0) || k0 == k implies #[trigger] has_key(p, k0) by {
        if has_key(ps, k0) {
            let i = idx_of(ps, k0);
            assert(key_at(p, i) == k0);
        } else {
            assert(key_at(p, ps.len() as int) == k0);
        }
    }
    assert forall|i1: int, i2: int| 0 <= i1 < i2 < p.len() implies key_at(p, i1) != key_at(
        p,
        i2,
    ) by {
        if i2 == ps.len() {
            assert(key_at(p, i1) == key_at(ps, i1));
            if key_at(ps, i1) == k {
                assert(has_key(ps, k));
            }
        }
    }
    lemma_value_at(p, ps.len() as int);
    assert forall|k0: Seq<char>| has_key(ps, k0) implies #[trigger] value_of(p, k0) == value_of(
        ps,
        k0,
    ) by {
        let i = idx_of(ps, k0);
        lemma_value_at(ps, i);
        assert(key_at(p, i) == k0);
        lemma_value_at(p, i);
    }
}

/// How overwriting the entry at a known position changes the key
/// functions: the key set stays, only that key's literal changes.
pub(crate) proof fn lemma_update_keys(ps: Entries, i: int, v: LiteralValue)
    requires
        distinct_keys(ps),
        0 <= i < ps.len(),
    ensures
        distinct_keys(ps.update(i, (key_at(ps, i), v))),
        ps.update(i, (key_at(ps, i), v)).len() == ps.len(),
        forall|k0: Seq<char>|
            #[trigger] has_key(ps.update(i, (key_at(ps, i), v)), k0) <==> has_key(ps, k0),
        value_of(ps.update(i, (key_at(ps, i), v)), key_at(ps, i)) == v,
        forall|k0: Seq<char>|
            has_key(ps, k0) && k0 != key_at(ps, i) ==> #[trigger] value_of(
                ps.update(i, (key_at(ps, i), v)),
                k0,
            ) == value_of(ps, k0),
{
    let k = key_at(ps, i);
    let u = ps.update(i, (k, v));
    assert forall|i0: int| 0 <= i0 < ps.len() implies #[trigger] key_at(u, i0) == key_at(
        ps,
        i0,
    ) by {}
    assert forall|k0: Seq<char>| #[trigger] has_key(u, k0) implies has_key(ps, k0) by {
        let i0 = choose|i0: int| 0 <= i0 < u.len() && key_at(u, i0) == k0;
        assert(key_at(ps, i0) == k0);
    }
    assert forall|k0: Seq<char>| has_key(ps, k0) implies #[trigger] has_key(u, k0) by {
        let i0 = idx_of(ps, k0);
        assert(key_at(u, i0) == k0);
    }
    lemma_value_at(u, i);
    assert forall|k0: Seq<char>| has_key(ps, k0) && k0 != k implies #[trigger] value_of(u, k0)
        == value_of(ps, k0) by {
        let i0 = idx_of(ps, k0);
        lemma_value_at(ps, i0);
        assert(key_at(u, i0) == k0);
        lemma_value_at(u, i0);
        assert(u[i0] == ps[i0]);
    }
}

/// Two duplicate-free entry sequences over the same key set have the
/// same length.
pub(crate) proof fn lemma_same_keys_len(a: Entries, b: Entries)
    requires
        distinct_keys(a),
        distinct_keys(b),
        same_keys(a, b),
    ensures
        a.len() == b.len(),
    decreases a.len(),
{
    if a.len() == 0 {
        if b.len() > 0 {
            assert(has_key(b, key_at(b, 0)));
            assert(has_key(a, key_at(b, 0)));
            assert(false);
        }
    } else {
        let n = a.len() - 1;
        let k = key_at(a, n);
        assert(has_key(a, k));
        assert(has_key(b, k));
        let j = idx_of(b, k);
        assert(0 <= j < b.len() && key_at(b, j) == k);
        let a2 = a.drop_last();
        let b2 = b.remove(j);
        assert(a2 =~= a.remove(n));
        lemma_remove_keys(a, n);
        lemma_remove_keys(b, j);
        assert forall|k0: Seq<char>| #[trigger] has_key(a2, k0) implies has_key(b2, k0) by {
            assert(has_key(a, k0) && k0 != k);
            assert(has_key(b, k0));
        }
        assert forall|k0: Seq<char>| #[trigger] has_key(b2, k0) implies has_key(a2, k0) by {
            assert(has_key(b, k0) && k0 != k);
            assert(has_key(a, k0));
        }
        lemma_same_keys_len(a2, b2);
    }
}

/// If every key of `a` occurs in `b` and the lengths agree, the key sets
/// agree: no key of `b` can be left over.
pub(crate) proof fn lemma_keys_subset_same_len(a: Entries, b: Entries)
    requires
        distinct_keys(a),
        distinct_keys(b),
        a.len() == b.len(),
        forall|i: int| 0 <= i < a.len() ==> has_key(b, #[trigger] key_at(a, i)),
    ensures
        same_keys(a, b),
    decreases a.len(),
{
    if a.len() == 0 {
        assert forall|k0: Seq<char>| has_key(a, k0) <==> has_key(b, k0) by {}
    } else {
        let n = a.len() - 1;
        let k = key_at(a, n);
        assert(has_key(b, k));
        let j = idx_of(b, k);
        assert(0 <= j < b.len() && key_at(b, j) == k);
        let a2 = a.drop_last();
        let b2 = b.remove(j);
        assert(a2 =~= a.remove(n));
        lemma_remove_keys(a, n);
        lemma_remove_keys(b, j);
        assert forall|i: int| 0 <= i < a2.len() implies has_key(b2, #[trigger] key_at(a2, i)) by {
            assert(key_at(a2, i) == key_at(a, i));
            assert(has_key(a, key_at(a, i)));
            assert(has_key(a2, key_at(a, i)));
            assert(has_key(b, key_at(a, i)));
        }
        lemma_keys_subset_same_len(a2, b2);
        assert forall|k0: Seq<char>| has_key(a, k0) implies #[trigger] has_key(b, k0) by {
            let i = idx_of(a, k0);
            assert(has_key(b, key_at(a, i)));
        }
        assert forall|k0: Seq<char>| #[trigger] has_key(b, k0) implies has_key(a, k0) by {
            if k0 != k {
                assert(has_key(b2, k0));
                assert(has_key(a2, k0));
                assert(has_key(a, k0));
            }
        }
    }
}

/// An exact structural match between duplicate-free terms means they
/// describe the same variable-to-literal mapping.
pub(crate) proof fn lemma_exact_match_equiv(a: Entries, b: Entries)
    requires
        distinct_keys(a),
        distinct_keys(b),
        exact_match(a, b),
    ensures
        equiv(a, b),
{
    assert forall|i: int| 0 <= i < a.len() implies has_key(b, #[trigger] key_at(a, i)) by {}
    lemma_keys_subset_same_len(a, b);
    assert forall|k0: Seq<char>| #[trigger] has_key(a, k0) implies has_key(b, k0) && value_of(
        a,
        k0,
    ) == value_of(b, k0) by {
        let i = idx_of(a, k0);
        assert(0 <= i < a.len() && key_at(a, i) == k0);
        lemma_value_at(a, i);
        assert(value_of(b, key_at(a, i)) == a[i].1);
    }
}

/// Conversely, terms describing the same mapping match exactly.
pub(crate) proof fn lemma_equiv_exact_match(a: Entries, b: Entries)
    requires
        distinct_keys(a),
        distinct_keys(b),
        equiv(a, b),
    ensures
        exact_match(a, b),
        exact_match(b, a),
{
    lemma_same_keys_len(a, b);
    assert forall|i: int| 0 <= i < a.len() implies #[trigger] has_key(b, key_at(a, i)) && value_of(
        b,
        key_at(a, i),
    ) == a[i].1 by {
        lemma_value_at(a, i);
        assert(has_key(a, key_at(a, i)));
    }
    assert forall|i: int| 0 <= i < b.len() implies #[trigger] has_key(a, key_at(b, i)) && value_of(
        a,
        key_at(b, i),
    ) == b[i].1 by {
        lemma_value_at(b, i);
        assert(has_key(b, key_at(b, i)));
    }
}

/// Satisfaction only depends on the variable-to-literal mapping.
pub(crate) proof fn lemma_equiv_sat(a: Entries, b: Entries, asg: Assignment)
    requires
        distinct_keys(a),
        distinct_keys(b),
        equiv(a, b),
        term_sat(a, asg),
    ensures
        term_sat(b, asg),
{
    assert forall|i: int| 0 <= i < b.len() implies asg.dom().contains(#[trigger] key_at(b, i))
        && lit_sat(b[i].1, asg[key_at(b, i)]) by {
        let k = key_at(b, i);
        lemma_value_at(b, i);
        assert(has_key(b, k));
        assert(has_key(a, k));
        let j = idx_of(a, k);
        assert(0 <= j < a.len() && key_at(a, j) == k);
        lemma_value_at(a, j);
        assert(asg.dom().contains(key_at(a, j)));
        assert(lit_sat(a[j].1, asg[k]));
    }
}

/// A covering term is satisfied by everything that satisfies the term it
/// covers.
pub(crate) proof fn lemma_subsumes_sat(g: Entries, s: Entries, asg: Assignment)
    requires
        distinct_keys(g),
        distinct_keys(s),
        subsumes(g, s),
        term_sat(s, asg),
    ensures
        term_sat(g, asg),
{
    assert forall|i: int| 0 <= i < g.len() implies asg.dom().contains(#[trigger] key_at(g, i))
        && lit_sat(g[i].1, asg[key_at(g, i)]) by {
        let k = key_at(g, i);
        lemma_value_at(g, i);
        assert(has_key(g, k));
        assert(has_key(s, k));
        let j = idx_of(s, k);
        assert(0 <= j < s.len() && key_at(s, j) == k);
        lemma_value_at(s, j);
        assert(asg.dom().contains(key_at(s, j)));
        assert(lit_sat(s[j].1, asg[k]));
        assert(lit_subsumes(g[i].1, s[j].1));
    }
}

/// Covering is transitive.
pub(crate) proof fn lemma_subsumes_trans(a: Entries, b: Entries, c: Entries)
    requires
        subsumes(a, b),
        subsumes(b, c),
    ensures
        subsumes(a, c),
{
    assert forall|k: Seq<char>| #[trigger] has_key(a, k) implies lit_subsumes(
        value_of(a, k),
        value_of(c, k),
    ) by {
        assert(has_key(b, k));
        assert(lit_subsumes(value_of(a, k), value_of(b, k)));
        assert(lit_subsumes(value_of(b, k), value_of(c, k)));
    }
}

/// Terms with the same mapping cover each other.
pub(crate) proof fn lemma_equiv_subsumes(a: Entries, b: Entries)
    requires
        equiv(a, b),
    ensures
        subsumes(a, b),
        subsumes(b, a),
{
    assert forall|k: Seq<char>| has_key(a, k) <==> has_key(b, k) by {}
}

/// What appending one entry does to satisfaction.
pub(crate) proof fn lemma_push_sat(ps: Entries, k: Seq<char>, v: LiteralValue, asg: Assignment)
    ensures
        term_sat(ps.push((k, v)), asg) <==> term_sat(ps, asg) && asg.dom().contains(k) && lit_sat(
            v,
            asg[k],
        ),
{
    let p = ps.push((k, v));
    assert(key_at(p, ps.len() as int) == k && p[ps.len() as int].1 == v);
    assert forall|i: int| 0 <= i < ps.len() implies #[trigger] key_at(p, i) == key_at(ps, i)
        && p[i].1 == ps[i].1 by {}
    if term_sat(p, asg) {
        assert forall|i: int|
            0 <= i < ps.len() implies asg.dom().contains(#[trigger] key_at(ps, i)) && lit_sat(
            ps[i].1,
            asg[key_at(ps, i)],
        ) by {
            assert(asg.dom().contains(key_at(p, i)) && lit_sat(p[i].1, asg[key_at(p, i)]));
        }
        assert(asg.dom().contains(key_at(p, ps.len() as int)));
    }
    if term_sat(ps, asg) && asg.dom().contains(k) && lit_sat(v, asg[k]) {
        assert forall|i: int| 0 <= i < p.len() implies asg.dom().contains(#[trigger] key_at(p, i))
            && lit_sat(p[i].1, asg[key_at(p, i)]) by {
            if i < ps.len() {
                assert(asg.dom().contains(key_at(ps, i)) && lit_sat(ps[i].1, asg[key_at(ps, i)]));
            }
        }
    }
}

/// Replacing the literal on the axis of an extension gives the other
/// extension.
pub(crate) proof fn lemma_with_axis_push(p: Entries, k: Seq<char>, v1: LiteralValue, v2: LiteralValue)
    requires
        distinct_keys(p),
        !has_key(p, k),
    ensures
        with_axis(p.push((k, v1)), k, v2) == p.push((k, v2)),
{
    lemma_push_keys(p, k, v1);
    let e = p.push((k, v1));
    lemma_value_at(e, p.len() as int);
    assert(idx_of(e, k) == p.len());
    assert(with_axis(e, k, v2) =~= p.push((k, v2)));
}

/// Two extensions by the same fresh variable carry the same mapping only
/// when the extended terms do and the added literals agree.
pub(crate) proof fn lemma_push_equiv_parts(
    p1: Entries,
    p2: Entries,
    k: Seq<char>,
    v1: LiteralValue,
    v2: LiteralValue,
)
    requires
        distinct_keys(p1),
        distinct_keys(p2),
        !has_key(p1, k),
        !has_key(p2, k),
        equiv(p1.push((k, v1)), p2.push((k, v2))),
    ensures
        equiv(p1, p2),
        v1 == v2,
{
    let e1 = p1.push((k, v1));
    let e2 = p2.push((k, v2));
    lemma_push_keys(p1, k, v1);
    lemma_push_keys(p2, k, v2);
    assert(has_key(e1, k));
    assert(value_of(e1, k) == v1);
    assert(value_of(e2, k) == v2);
    assert(v1 == v2);
    assert forall|k0: Seq<char>| #[trigger] has_key(p1, k0) implies has_key(p2, k0) && value_of(
        p1,
        k0,
    ) == value_of(p2, k0) by {
        assert(has_key(e1, k0));
        assert(has_key(e2, k0));
        assert(k0 != k);
        assert(value_of(p1, k0) == value_of(e1, k0));
        assert(value_of(e2, k0) == value_of(p2, k0));
    }
    assert forall|k0: Seq<char>| #[trigger] has_key(p2, k0) implies has_key(p1, k0) by {
        assert(has_key(e2, k0));
        assert(has_key(e1, k0));
        assert(k0 != k);
    }
}

/// Carrying the same mapping is symmetric.
pub(crate) proof fn lemma_equiv_sym(x: Entries, y: Entries)
    requires
        equiv(x, y),
    ensures
        equiv(y, x),
{
    assert forall|k: Seq<char>| #[trigger] has_key(y, k) implies has_key(x, k) && value_of(y, k)
        == value_of(x, k) by {
        assert(has_key(x, k));
    }
}

/// Two terms each carrying the same mapping as a third carry the same
/// mapping as each other.
pub(crate) proof fn lemma_equiv_join(x: Entries, y: Entries, w: Entries)
    requires
        equiv(x, w),
        equiv(y, w),
    ensures
        equiv(x, y),
{
    assert forall|k: Seq<char>| #[trigger] has_key(x, k) implies has_key(y, k) && value_of(x, k)
        == value_of(y, k) by {
        assert(has_key(w, k));
        assert(has_key(y, k));
    }
    assert forall|k: Seq<char>| #[trigger] has_key(y, k) implies has_key(x, k) by {
        assert(has_key(w, k));
    }
}

/// Carrying the same mapping is transitive.
pub(crate) proof fn lemma_equiv_trans(a: Entries, b: Entries, c: Entries)
    requires
        equiv(a, b),
        equiv(b, c),
    ensures
        equiv(a, c),
{
    lemma_equiv_sym(b, c);
    lemma_equiv_join(a, c, b);
}

/// What replacing the literal on one present variable does to the key
/// functions.
pub(crate) proof fn lemma_with_axis_keys(x: Entries, axis: Seq<char>, v: LiteralValue)
    requires
        distinct_keys(x),
        has_key(x, axis),
    ensures
        distinct_keys(with_axis(x, axis, v)),
        with_axis(x, axis, v).len() == x.len(),
        forall|k0: Seq<char>| #[trigger] has_key(with_axis(x, axis, v), k0) <==> has_key(x, k0),
        value_of(with_axis(x, axis, v), axis) == v,
        forall|k0: Seq<char>|
            has_key(x, k0) && k0 != axis ==> #[trigger] value_of(with_axis(x, axis, v), k0)
                == value_of(x, k0),
{
    let i = idx_of(x, axis);
    assert(0 <= i < x.len() && key_at(x, i) == axis);
    lemma_update_keys(x, i, v);
}

/// Terms that agree on the axis and whose rewrites to a fixed axis
/// literal carry the same mapping carry the same mapping themselves.
pub(crate) proof fn lemma_with_axis_equiv(x: Entries, y: Entries, axis: Seq<char>)
    requires
        distinct_keys(x),
        distinct_keys(y),
        has_key(x, axis),
        has_key(y, axis),
        value_of(x, axis) == value_of(y, axis),
        equiv(
            with_axis(x, axis, LiteralValue::False),
            with_axis(y, axis, LiteralValue::False),
        ),
    ensures
        equiv(x, y),
{
    let wx = with_axis(x, axis, LiteralValue::False);
    let wy = with_axis(y, axis, LiteralValue::False);
    lemma_with_axis_keys(x, axis, LiteralValue::False);
    lemma_with_axis_keys(y, axis, LiteralValue::False);
    assert forall|k: Seq<char>| #[trigger] has_key(x, k) implies has_key(y, k) && value_of(x, k)
        == value_of(y, k) by {
        assert(has_key(wx, k));
        assert(has_key(wy, k));
        assert(has_key(y, k));
        if k != axis {
            assert(value_of(wx, k) == value_of(x, k));
            assert(value_of(wy, k) == value_of(y, k));
            assert(value_of(wx, k) == value_of(wy, k));
        }
    }
    assert forall|k: Seq<char>| #[trigger] has_key(y, k) implies has_key(x, k) by {
        assert(has_key(wy, k));
        assert(has_key(wx, k));
    }
}

/// The hash of a sequence splits off the code of any one entry.
pub(crate) proof fn lemma_hash_remove(ps: Entries, j: int)
    requires
        0 <= j < ps.len(),
    ensures
        hash_of(ps) == hash_of(ps.remove(j)) ^ entry_code(ps[j]),
    decreases ps.len(),
{
    let r = ps.remove(j);
    ps.remove_ensures(j);
    if j == ps.len() - 1 {
        assert(r =~= ps.drop_last());
    } else {
        let p2 = ps.drop_last();
        assert(r.drop_last() =~= p2.remove(j));
        lemma_hash_remove(p2, j);
        assert(r.last() == ps.last());
        let x = hash_of(p2.remove(j));
        let y = entry_code(ps[j]);
        let z = entry_code(ps.last());
        assert(hash_of(ps) == (x ^ y) ^ z);
        assert(hash_of(r) == x ^ z);
        assert((x ^ y) ^ z == (x ^ z) ^ y) by (bit_vector);
    }
}

/// Insertion order cannot influence the hash: terms with the same
/// variable-to-literal mapping hash identically.
pub(crate) proof fn lemma_equiv_hash(a: Entries, b: Entries)
    requires
        distinct_keys(a),
        distinct_keys(b),
        equiv(a, b),
    ensures
        hash_of(a) == hash_of(b),
    decreases a.len(),
{
    lemma_same_keys_len(a, b);
    if a.len() > 0 {
        let n = a.len() - 1;
        let k = key_at(a, n);
        lemma_value_at(a, n);
        assert(has_key(a, k));
        assert(has_key(b, k));
        let j = idx_of(b, k);
        assert(0 <= j < b.len() && key_at(b, j) == k);
        lemma_value_at(b, j);
        assert(b[j].1 == value_of(b, k));
        assert(value_of(a, k) == a[n].1);
        assert(b[j] == (k, a[n].1));
        assert(a[n] == (k, a[n].1));
        let a2 = a.drop_last();
        let b2 = b.remove(j);
        assert(a2 =~= a.remove(n));
        lemma_remove_keys(a, n);
        lemma_remove_keys(b, j);
        assert forall|k0: Seq<char>| #[trigger] has_key(a2, k0) implies has_key(b2, k0)
            && value_of(a2, k0) == value_of(b2, k0) by {
            assert(has_key(a, k0) && k0 != k);
            assert(has_key(b, k0));
            assert(has_key(b2, k0));
            assert(value_of(a2, k0) == value_of(a, k0));
            assert(value_of(b2, k0) == value_of(b, k0));
        }
        assert forall|k0: Seq<char>| #[trigger] has_key(b2, k0) implies has_key(a2, k0) by {
            assert(has_key(b, k0) && k0 != k);
            assert(has_key(a, k0));
        }
        lemma_equiv_hash(a2, b2);
        lemma_hash_remove(b, j);
        assert(hash_of(a) == hash_of(a2) ^ entry_code(a[n]));
    }
}

/// The shape of a successful merge's result: `a`'s variables, each
/// carrying the common literal or a don't-care where the operands differ.
pub(crate) proof fn lemma_merged_keys(a: Entries, b: Entries)
    requires
        distinct_keys(a),
    ensures
        distinct_keys(merged(a, b)),
        merged(a, b).len() == a.len(),
        forall|k0: Seq<char>| #[trigger] has_key(merged(a, b), k0) <==> has_key(a, k0),
        forall|k0: Seq<char>|
            #[trigger] has_key(a, k0) ==> value_of(merged(a, b), k0) == (if value_of(b, k0)
                == value_of(a, k0) {
                value_of(a, k0)
            } else {
                LiteralValue::DontCare
            }),
{
    let m = merged(a, b);
    assert forall|i: int| 0 <= i < a.len() implies #[trigger] key_at(m, i) == key_at(a, i) by {}
    assert forall|k0: Seq<char>| #[trigger] has_key(m, k0) implies has_key(a, k0) by {
        let i = choose|i: int| 0 <= i < m.len() && key_at(m, i) == k0;
        assert(key_at(a, i) == k0);
    }
    assert forall|k0: Seq<char>| #[trigger] has_key(a, k0) implies has_key(m, k0) by {
        let i = idx_of(a, k0);
        assert(key_at(m, i) == k0);
    }
    assert forall|k0: Seq<char>| #[trigger] has_key(a, k0) implies value_of(m, k0) == (if value_of(
        b,
        k0,
    ) == value_of(a, k0) {
        value_of(a, k0)
    } else {
        LiteralValue::DontCare
    }) by {
        let i = idx_of(a, k0);
        assert(0 <= i < a.len() && key_at(a, i) == k0);
        lemma_value_at(a, i);
        lemma_value_at(m, i);
        assert(m[i].1 == (if value_of(b, a[i].0) == a[i].1 {
            a[i].1
        } else {
            LiteralValue::DontCare
        }));
    }
}

/// Merging does not depend on the operand order: it succeeds both ways
/// or fails both ways, and the two results carry the same mapping.
pub(crate) proof fn lemma_merge_commutes(a: Entries, b: Entries)
    requires
        distinct_keys(a),
        distinct_keys(b),
    ensures
        mergeable(a, b) <==> mergeable(b, a),
        mergeable(a, b) ==> equiv(merged(a, b), merged(b, a)),
{
    assert forall|k: Seq<char>| #[trigger] diff_at(a, b, k) implies diff_at(b, a, k) by {}
    assert forall|k: Seq<char>| #[trigger] diff_at(b, a, k) implies diff_at(a, b, k) by {}
    if mergeable(a, b) {
        lemma_merged_keys(a, b);
        lemma_merged_keys(b, a);
        let m1 = merged(a, b);
        let m2 = merged(b, a);
        assert forall|k0: Seq<char>| #[trigger] has_key(m1, k0) implies has_key(m2, k0)
            && value_of(m1, k0) == value_of(m2, k0) by {
            assert(has_key(a, k0));
            assert(has_key(b, k0));
        }
        assert forall|k0: Seq<char>| #[trigger] has_key(m2, k0) implies has_key(m1, k0) by {
            assert(has_key(b, k0));
            assert(has_key(a, k0));
        }
    }
}

} // verus!
