use vstd::prelude::*;
use vstd::std_specs::cmp::PartialEqSpec;

use crate::linked_map::{
    lhm_append, lhm_clone, lhm_contains, lhm_get, lhm_len, lhm_new, lhm_pairs, lhm_pop_back,
    lhm_set_existing, map_entries,
};
use crate::literal_value::LiteralValue;
use crate::term_model::{
    dc_mismatch_at, diff_at, distinct_keys, entry_code, equiv, exact_match, has_key, hash_of,
    idx_of, key_at, lemma_equiv_exact_match, lemma_equiv_hash, lemma_keys_subset_same_len,
    lemma_merge_commutes, lemma_merged_keys, lemma_push_keys, lemma_remove_keys,
    lemma_same_keys_len, lemma_update_keys, lemma_value_at, merged, mergeable, name_code,
    prefix_of, rendered, same_keys, spec_add, value_of, with_literals, Entries,
};

verus! {

/// Why two product terms refused to merge.
#[derive(Debug, Clone, Copy, PartialEq, Eq, Structural)]
pub enum MergeError {
    /// The variable sets differ in size or in names.
    VariableSetMismatch,
    /// More than one variable carries differing concrete literals.
    MultipleDifferences,
    /// A differing variable pits a don't-care against a concrete literal.
    DontCareMismatch,
}

/// A product term of a boolean expression in disjunctive normal form: an
/// insertion-ordered mapping from variable names to literals. Unlike a
/// min term, a product term may record a don't-care for a variable.
///
/// For the function `f(A,B,C) = ~A&B | A&B&C`, both `~A&B` and `A&B&C`
/// are product terms; only the latter is also a min term.
#[derive(Debug)]
pub struct ProductTerm {
    literals: linked_hash_map::LinkedHashMap<String, LiteralValue>,
}

impl View for ProductTerm {
    type V = Entries;

    closed spec fn view(&self) -> Entries {
        map_entries(self.literals)
    }
}

/// The view of a pair vector as model entries.
pub open spec fn pairs_view(s: Seq<(String, LiteralValue)>) -> Entries {
    s.map_values(|p: (String, LiteralValue)| (p.0@, p.1))
}

impl ProductTerm {
    /// Every term the crate hands out keeps each variable name at most
    /// once.
    pub open spec fn wf(&self) -> bool {
        distinct_keys(self@)
    }

    /// Creates a new, empty product term.
    pub fn new() -> (r: ProductTerm)
        ensures
            r@ == Seq::<(Seq<char>, LiteralValue)>::empty(),
            r.wf(),
    {
        ProductTerm { literals: lhm_new() }
    }

    /// Clones this product term.
    pub fn clone(&self) -> (r: ProductTerm)
        ensures
            r@ == self@,
    {
        ProductTerm { literals: lhm_clone(&self.literals) }
    }

    /// Creates a product term from (variable, literal) pairs, later
    /// duplicates overwriting earlier ones for the same variable.
    pub fn new_with_literals(literals: Vec<(String, LiteralValue)>) -> (r: ProductTerm)
        ensures
            r@ == with_literals(pairs_view(literals@)),
            r.wf(),
    {
        let ghost pv = pairs_view(literals@);
        let mut new_term = ProductTerm::new();
        let mut i: usize = 0;
        while i < literals.len()
            invariant
                0 <= i <= literals.len(),
                pv == pairs_view(literals@),
                pv.len() == literals@.len(),
                forall|j: int| 0 <= j < literals@.len() ==> #[trigger] pv[j] == (literals@[j].0@, literals@[j].1),
                new_term@ == with_literals(pv.subrange(0, i as int)),
                new_term.wf(),
            decreases literals.len() - i,
        {
            let name = literals[i].0.clone();
            let value = literals[i].1;
            new_term.add_literal(name, value);
            proof {
                assert(pv.subrange(0, i + 1).drop_last() =~= pv.subrange(0, i as int));
                assert(pv.subrange(0, i + 1).last() == pv[i as int]);
            }
            i = i + 1;
        }
        proof {
            assert(pv.subrange(0, literals@.len() as int) =~= pv);
        }
        new_term
    }

    /// Whether this product term contains no literals.
    pub fn is_empty(&self) -> (r: bool)
        ensures
            r == (self@.len() == 0),
    {
        lhm_len(&self.literals) == 0
    }

    /// A snapshot of this term's literals, in insertion order.
    pub fn get_literals(&self) -> (r: linked_hash_map::LinkedHashMap<String, LiteralValue>)
        ensures
            map_entries(r) == self@,
    {
        lhm_clone(&self.literals)
    }

    /// Inserts or overwrites the literal for `name`. A new variable is
    /// appended after all existing ones; re-adding an existing variable
    /// overwrites its literal without moving it.
    pub fn add_literal(&mut self, name: String, literal: LiteralValue)
        requires
            old(self).wf(),
        ensures
            final(self)@ == spec_add(old(self)@, name@, literal),
            final(self).wf(),
    {
        if lhm_contains(&self.literals, &name) {
            proof {
                let i = idx_of(self@, name@);
                assert(0 <= i < self@.len() && key_at(self@, i) == name@);
                lemma_update_keys(self@, i, literal);
            }
            lhm_set_existing(&mut self.literals, &name, literal);
        } else {
            proof {
                lemma_push_keys(self@, name@, literal);
            }
            lhm_append(&mut self.literals, name, literal);
        }
    }

    /// Removes and returns the literal most recently appended. Callers
    /// must never invoke this on an empty term.
    pub fn remove_last(&mut self) -> (r: LiteralValue)
        requires
            old(self).wf(),
            old(self)@.len() > 0,
        ensures
            final(self)@ == old(self)@.drop_last(),
            final(self).wf(),
            r == old(self)@.last().1,
    {
        proof {
            lemma_remove_keys(self@, self@.len() - 1);
            assert(self@.remove(self@.len() - 1) =~= self@.drop_last());
        }
        let removed = lhm_pop_back(&mut self.literals);
        removed.unwrap().1
    }

    /// Whether the two terms speak about exactly the same variables.
    fn can_merge(&self, other: &ProductTerm) -> (r: bool)
        requires
            self.wf(),
            other.wf(),
        ensures
            r == same_keys(self@, other@),
    {
        let ghost a = self@;
        let ghost b = other@;
        if lhm_len(&self.literals) != lhm_len(&other.literals) {
            proof {
                if same_keys(a, b) {
                    lemma_same_keys_len(a, b);
                }
            }
            return false;
        }
        let pairs = lhm_pairs(&self.literals);
        let mut i: usize = 0;
        while i < pairs.len()
            invariant
                0 <= i <= pairs.len(),
                pairs@.len() == a.len(),
                forall|j: int|
                    0 <= j < a.len() ==> (#[trigger] pairs@[j]).0@ == a[j].0 && pairs@[j].1
                        == a[j].1,
                a == self@,
                b == other@,
                self.wf(),
                other.wf(),
                forall|j: int| 0 <= j < i ==> has_key(b, #[trigger] key_at(a, j)),
            decreases pairs.len() - i,
        {
            if !lhm_contains(&other.literals, &pairs[i].0) {
                proof {
                    lemma_value_at(a, i as int);
                    assert(has_key(a, key_at(a, i as int)));
                    assert(!has_key(b, key_at(a, i as int)));
                }
                return false;
            }
            i = i + 1;
        }
        proof {
            assert(a.len() == b.len());
            lemma_keys_subset_same_len(a, b);
        }
        true
    }

    /// Merges this product term with another one. The merge succeeds only
    /// when both terms mention exactly the same variables, every
    /// disagreement is between concrete literals, and at most one
    /// variable disagrees; that variable becomes a don't-care in the
    /// result, every other literal is carried over unchanged.
    pub fn merge(&self, other: &ProductTerm) -> (r: Result<ProductTerm, MergeError>)
        requires
            self.wf(),
            other.wf(),
        ensures
            r is Ok <==> mergeable(self@, other@),
            r is Ok ==> (r->Ok_0)@ == merged(self@, other@) && (r->Ok_0).wf(),
            (r is Err && r->Err_0 == MergeError::VariableSetMismatch) <==> !same_keys(self@, other@),
            r is Err && r->Err_0 == MergeError::DontCareMismatch ==> exists|k: Seq<char>|
                dc_mismatch_at(self@, other@, k),
            r is Err && r->Err_0 == MergeError::MultipleDifferences ==> exists|
                k1: Seq<char>,
                k2: Seq<char>,
            | k1 != k2 && diff_at(self@, other@, k1) && diff_at(self@, other@, k2),
    {
        let ghost a = self@;
        let ghost b = other@;
        if !self.can_merge(other) {
            return Err(MergeError::VariableSetMismatch);
        }
        let mut combined_literals: usize = 0;
        let ghost mut diff_j: int = 0;
        let mut new_product_term = ProductTerm::new();
        let pairs = lhm_pairs(&self.literals);
        let mut i: usize = 0;
        while i < pairs.len()
            invariant
                0 <= i <= pairs.len(),
                pairs@.len() == a.len(),
                forall|j: int|
                    0 <= j < a.len() ==> (#[trigger] pairs@[j]).0@ == a[j].0 && pairs@[j].1
                        == a[j].1,
                a == self@,
                b == other@,
                self.wf(),
                other.wf(),
                same_keys(a, b),
                combined_literals <= 1,
                new_product_term@ == merged(a, b).subrange(0, i as int),
                new_product_term.wf(),
                combined_literals == 0 ==> forall|j: int|
                    0 <= j < i ==> #[trigger] a[j].1 == value_of(b, key_at(a, j)),
                combined_literals == 1 ==> {
                    &&& 0 <= diff_j < i
                    &&& a[diff_j].1 != value_of(b, key_at(a, diff_j))
                    &&& a[diff_j].1 != LiteralValue::DontCare
                    &&& value_of(b, key_at(a, diff_j)) != LiteralValue::DontCare
                    &&& forall|j: int|
                        0 <= j < i && j != diff_j ==> #[trigger] a[j].1 == value_of(b, key_at(a, j))
                },
            decreases pairs.len() - i,
        {
            let name = &pairs[i].0;
            let lit = pairs[i].1;
            proof {
                lemma_value_at(a, i as int);
                assert(has_key(a, key_at(a, i as int)));
                assert(has_key(b, name@));
            }
            let looked_up = lhm_get(&other.literals, name);
            match looked_up {
                Some(other_literal) => {
                    proof {
                        assert(other_literal == value_of(b, key_at(a, i as int)));
                    }
                    if other_literal == LiteralValue::DontCare && lit != LiteralValue::DontCare
                        || lit == LiteralValue::DontCare && other_literal
                        != LiteralValue::DontCare {
                        proof {
                            assert(dc_mismatch_at(a, b, key_at(a, i as int)));
                        }
                        return Err(MergeError::DontCareMismatch);
                    } else if other_literal != lit {
                        new_product_term.add_literal(name.clone(), LiteralValue::DontCare);
                        proof {
                            lemma_merged_keys(a, b);
                            assert(!has_key(merged(a, b).subrange(0, i as int), key_at(a, i as int)))
                                by {
                                if has_key(merged(a, b).subrange(0, i as int), key_at(a, i as int)) {
                                    let j = choose|j: int|
                                        0 <= j < i && key_at(
                                            merged(a, b).subrange(0, i as int),
                                            j,
                                        ) == key_at(a, i as int);
                                    assert(key_at(merged(a, b), j) == key_at(a, i as int));
                                    assert(key_at(a, j) == key_at(a, i as int));
                                }
                            }
                            assert(merged(a, b).subrange(0, i + 1) =~= merged(a, b).subrange(
                                0,
                                i as int,
                            ).push((key_at(a, i as int), LiteralValue::DontCare)));
                        }
                        combined_literals = combined_literals + 1;
                        if combined_literals > 1 {
                            proof {
                                lemma_value_at(a, diff_j);
                                assert(diff_at(a, b, key_at(a, diff_j)));
                                assert(diff_at(a, b, key_at(a, i as int)));
                                assert(key_at(a, diff_j) != key_at(a, i as int));
                            }
                            return Err(MergeError::MultipleDifferences);
                        }
                        proof {
                            diff_j = i as int;
                        }
                    } else {
                        new_product_term.add_literal(name.clone(), lit);
                        proof {
                            lemma_merged_keys(a, b);
                            assert(!has_key(merged(a, b).subrange(0, i as int), key_at(a, i as int)))
                                by {
                                if has_key(merged(a, b).subrange(0, i as int), key_at(a, i as int)) {
                                    let j = choose|j: int|
                                        0 <= j < i && key_at(
                                            merged(a, b).subrange(0, i as int),
                                            j,
                                        ) == key_at(a, i as int);
                                    assert(key_at(merged(a, b), j) == key_at(a, i as int));
                                    assert(key_at(a, j) == key_at(a, i as int));
                                }
                            }
                            assert(merged(a, b).subrange(0, i + 1) =~= merged(a, b).subrange(
                                0,
                                i as int,
                            ).push((key_at(a, i as int), lit)));
                        }
                    }
                },
                None => {
                    proof {
                        assert(false);
                    }
                },
            }
            i = i + 1;
        }
        proof {
            assert(new_product_term@ =~= merged(a, b));
            assert forall|k: Seq<char>| #[trigger] diff_at(a, b, k) implies value_of(a, k)
                != LiteralValue::DontCare && value_of(b, k) != LiteralValue::DontCare && (
            combined_literals == 1 && k == key_at(a, diff_j)) by {
                let j = idx_of(a, k);
                assert(0 <= j < a.len() && key_at(a, j) == k);
                lemma_value_at(a, j);
                assert(a[j].1 != value_of(b, key_at(a, j)));
                if combined_literals == 0 {
                    assert(false);
                }
                assert(j == diff_j);
            }
            assert(mergeable(a, b));
        }
        Ok(new_product_term)
    }

    /// Renders this term: literals in insertion order joined by `&`, a
    /// negative literal prefixed with `~`, don't-cares omitted entirely.
    pub fn to_boolean_expression(&self) -> (r: String)
        ensures
            r@ == rendered(self@),
    {
        let ghost a = self@;
        let mut buffer = String::new();
        let pairs = lhm_pairs(&self.literals);
        let mut i: usize = 0;
        proof {
            assert(a.subrange(0, 0) =~= Seq::<(Seq<char>, LiteralValue)>::empty());
        }
        while i < pairs.len()
            invariant
                0 <= i <= pairs.len(),
                pairs@.len() == a.len(),
                forall|j: int|
                    0 <= j < a.len() ==> (#[trigger] pairs@[j]).0@ == a[j].0 && pairs@[j].1
                        == a[j].1,
                a == self@,
                buffer@ == rendered(a.subrange(0, i as int)),
            decreases pairs.len() - i,
        {
            let literal = pairs[i].1;
            proof {
                reveal_strlit("&");
                reveal_strlit("~");
                assert("&"@ =~= seq!['&']);
                assert("~"@ =~= seq!['~']);
                assert(a.subrange(0, i + 1).drop_last() =~= a.subrange(0, i as int));
                assert(a.subrange(0, i + 1).last() == a[i as int]);
            }
            if literal == LiteralValue::False {
                if !buffer.as_str().is_empty() {
                    buffer.append("&");
                }
                buffer.append("~");
                buffer.append(pairs[i].0.as_str());
            } else if literal == LiteralValue::True {
                if !buffer.as_str().is_empty() {
                    buffer.append("&");
                }
                buffer.append(pairs[i].0.as_str());
            }
            i = i + 1;
        }
        proof {
            assert(a.subrange(0, a.len() as int) =~= a);
        }
        buffer
    }

    /// Whether every variable of this term occurs in `other` with an
    /// identical literal; variables absent from this term are
    /// unconstrained.
    pub fn is_prefix_of(&self, other: &ProductTerm) -> (r: bool)
        requires
            self.wf(),
            other.wf(),
        ensures
            r == prefix_of(self@, other@),
    {
        let ghost a = self@;
        let ghost b = other@;
        let pairs = lhm_pairs(&self.literals);
        let mut i: usize = 0;
        while i < pairs.len()
            invariant
                0 <= i <= pairs.len(),
                pairs@.len() == a.len(),
                forall|j: int|
                    0 <= j < a.len() ==> (#[trigger] pairs@[j]).0@ == a[j].0 && pairs@[j].1
                        == a[j].1,
                a == self@,
                b == other@,
                forall|j: int|
                    0 <= j < i ==> has_key(b, #[trigger] key_at(a, j)) && value_of(b, key_at(a, j))
                        == a[j].1,
            decreases pairs.len() - i,
        {
            let lit = pairs[i].1;
            match lhm_get(&other.literals, &pairs[i].0) {
                Some(other_literal) => {
                    if other_literal != lit {
                        proof {
                            assert(has_key(b, key_at(a, i as int)));
                            assert(value_of(b, key_at(a, i as int)) == other_literal);
                            assert(!prefix_of(a, b));
                        }
                        return false;
                    }
                    proof {
                        assert(has_key(b, key_at(a, i as int)));
                        assert(value_of(b, key_at(a, i as int)) == other_literal);
                        assert(a[i as int].1 == lit);
                    }
                },
                None => {
                    proof {
                        assert(!has_key(b, key_at(a, i as int)));
                        assert(!prefix_of(a, b));
                    }
                    return false;
                },
            }
            i = i + 1;
        }
        true
    }

    /// An exact structural match: the same variables with the same
    /// literals, insertion order aside.
    fn matches(&self, term: &ProductTerm) -> (r: bool)
        requires
            self.wf(),
            term.wf(),
        ensures
            r == exact_match(self@, term@),
    {
        self.is_prefix_of(term) && lhm_len(&self.literals) == lhm_len(&term.literals)
    }

    /// Whether this term is a prefix of at least one of the given terms.
    pub fn is_prefix_of_any(&self, terms: &Vec<ProductTerm>) -> (r: bool)
        requires
            self.wf(),
            forall|j: int| 0 <= j < terms@.len() ==> (#[trigger] terms@[j]).wf(),
        ensures
            r == exists|j: int| 0 <= j < terms@.len() && prefix_of(self@, (#[trigger] terms@[j])@),
    {
        let mut i: usize = 0;
        while i < terms.len()
            invariant
                0 <= i <= terms@.len(),
                self.wf(),
                forall|j: int| 0 <= j < terms@.len() ==> (#[trigger] terms@[j]).wf(),
                forall|j: int| 0 <= j < i ==> !prefix_of(self@, (#[trigger] terms@[j])@),
            decreases terms@.len() - i,
        {
            if self.is_prefix_of(&terms[i]) {
                return true;
            }
            i = i + 1;
        }
        false
    }

    /// Whether this term exactly matches at least one of the given terms.
    pub fn matches_any(&self, terms: &Vec<ProductTerm>) -> (r: bool)
        requires
            self.wf(),
            forall|j: int| 0 <= j < terms@.len() ==> (#[trigger] terms@[j]).wf(),
        ensures
            r == exists|j: int| 0 <= j < terms@.len() && exact_match(self@, (#[trigger] terms@[j])@),
    {
        let mut i: usize = 0;
        while i < terms.len()
            invariant
                0 <= i <= terms@.len(),
                self.wf(),
                forall|j: int| 0 <= j < terms@.len() ==> (#[trigger] terms@[j]).wf(),
                forall|j: int| 0 <= j < i ==> !exact_match(self@, (#[trigger] terms@[j])@),
            decreases terms@.len() - i,
        {
            if self.matches(&terms[i]) {
                return true;
            }
            i = i + 1;
        }
        false
    }

    /// An order-independent hash of this term, equal for terms that carry
    /// the same variable-to-literal mapping however they were built.
    pub fn content_hash(&self) -> (r: u64)
        ensures
            r == hash_of(self@),
    {
        let ghost a = self@;
        let pairs = lhm_pairs(&self.literals);
        let mut h: u64 = 0;
        let mut i: usize = 0;
        proof {
            assert(a.subrange(0, 0) =~= Seq::<(Seq<char>, LiteralValue)>::empty());
        }
        while i < pairs.len()
            invariant
                0 <= i <= pairs.len(),
                pairs@.len() == a.len(),
                forall|j: int|
                    0 <= j < a.len() ==> (#[trigger] pairs@[j]).0@ == a[j].0 && pairs@[j].1
                        == a[j].1,
                a == self@,
                h == hash_of(a.subrange(0, i as int)),
            decreases pairs.len() - i,
        {
            let code = name_code_of(&pairs[i].0);
            let entry = ((code << 7) | (code >> 57)) ^ pairs[i].1.code();
            h = h ^ entry;
            proof {
                assert(a.subrange(0, i + 1).drop_last() =~= a.subrange(0, i as int));
                assert(a.subrange(0, i + 1).last() == a[i as int]);
                assert(entry == entry_code(a[i as int]));
            }
            i = i + 1;
        }
        proof {
            assert(a.subrange(0, a.len() as int) =~= a);
        }
        h
    }
}

/// Structural equality for product terms: the same variables with the
/// same literals, regardless of insertion order.
impl PartialEq for ProductTerm {
    fn eq(&self, other: &ProductTerm) -> (r: bool) {
        let ghost a = self@;
        let ghost b = other@;
        if lhm_len(&self.literals) != lhm_len(&other.literals) {
            return false;
        }
        let pairs = lhm_pairs(&self.literals);
        let mut i: usize = 0;
        while i < pairs.len()
            invariant
                0 <= i <= pairs.len(),
                pairs@.len() == a.len(),
                a.len() == b.len(),
                forall|j: int|
                    0 <= j < a.len() ==> (#[trigger] pairs@[j]).0@ == a[j].0 && pairs@[j].1
                        == a[j].1,
                a == self@,
                b == other@,
                forall|j: int|
                    0 <= j < i ==> has_key(b, #[trigger] key_at(a, j)) && value_of(b, key_at(a, j))
                        == a[j].1,
            decreases pairs.len() - i,
        {
            let lit = pairs[i].1;
            match lhm_get(&other.literals, &pairs[i].0) {
                Some(other_literal) => {
                    if other_literal != lit {
                        proof {
                            assert(has_key(b, key_at(a, i as int)));
                            assert(value_of(b, key_at(a, i as int)) == other_literal);
                            assert(!prefix_of(a, b));
                        }
                        return false;
                    }
                    proof {
                        assert(has_key(b, key_at(a, i as int)));
                        assert(value_of(b, key_at(a, i as int)) == other_literal);
                        assert(a[i as int].1 == lit);
                    }
                },
                None => {
                    proof {
                        assert(!has_key(b, key_at(a, i as int)));
                        assert(!prefix_of(a, b));
                    }
                    return false;
                },
            }
            i = i + 1;
        }
        true
    }
}

/// What `==` on product terms means in specifications.
impl vstd::std_specs::cmp::PartialEqSpecImpl for ProductTerm {
    open spec fn obeys_eq_spec() -> bool {
        true
    }

    open spec fn eq_spec(&self, other: &ProductTerm) -> bool {
        exact_match(self@, other@)
    }
}

impl Eq for ProductTerm {

}

/// The executable twin of the variable-name code folded into the hash.
fn name_code_of(s: &String) -> (r: u64)
    ensures
        r == name_code(s@),
{
    let text = s.as_str();
    let n = text.unicode_len();
    let mut h: u64 = 0x9e3779b9;
    let mut i: usize = 0;
    proof {
        assert(s@.subrange(0, 0) =~= Seq::<char>::empty());
    }
    while i < n
        invariant
            0 <= i <= n,
            n == s@.len(),
            text@ == s@,
            h == name_code(s@.subrange(0, i as int)),
        decreases n - i,
    {
        let c = text.get_char(i);
        h = ((h << 7) | (h >> 57)) ^ (c as u64);
        proof {
            assert(s@.subrange(0, i + 1).drop_last() =~= s@.subrange(0, i as int));
            assert(s@.subrange(0, i + 1).last() == s@[i as int]);
        }
        i = i + 1;
    }
    proof {
        assert(s@.subrange(0, s@.len() as int) =~= s@);
    }
    h
}

/// Product terms built from the same variable-to-literal pairs are equal
/// and hash identically, whatever insertion orders built them.
pub proof fn lemma_order_independence(a: ProductTerm, b: ProductTerm)
    requires
        a.wf(),
        b.wf(),
        equiv(a@, b@),
    ensures
        a.eq_spec(&b),
        b.eq_spec(&a),
        hash_of(a@) == hash_of(b@),
{
    lemma_equiv_exact_match(a@, b@);
    lemma_equiv_hash(a@, b@);
}

/// Merging is commutative: `a.merge(b)` succeeds exactly when
/// `b.merge(a)` does, and the two results are equal terms.
pub proof fn lemma_merge_commutative(a: ProductTerm, b: ProductTerm)
    requires
        a.wf(),
        b.wf(),
    ensures
        mergeable(a@, b@) <==> mergeable(b@, a@),
        mergeable(a@, b@) ==> exact_match(merged(a@, b@), merged(b@, a@)) && exact_match(
            merged(b@, a@),
            merged(a@, b@),
        ),
{
    lemma_merge_commutes(a@, b@);
    if mergeable(a@, b@) {
        lemma_merged_keys(a@, b@);
        lemma_merged_keys(b@, a@);
        lemma_equiv_exact_match(merged(a@, b@), merged(b@, a@));
    }
}

/// The conditions under which a merge is always rejected: variable sets
/// of different sizes, two or more differing variables, or a don't-care
/// opposite a concrete literal on a differing variable.
pub proof fn lemma_merge_rejections(a: ProductTerm, b: ProductTerm)
    requires
        a.wf(),
        b.wf(),
    ensures
        a@.len() != b@.len() ==> !mergeable(a@, b@),
        (exists|k1: Seq<char>, k2: Seq<char>|
            k1 != k2 && diff_at(a@, b@, k1) && diff_at(a@, b@, k2)) ==> !mergeable(a@, b@),
        (exists|k: Seq<char>| dc_mismatch_at(a@, b@, k)) ==> !mergeable(a@, b@),
{
    if a@.len() != b@.len() && same_keys(a@, b@) {
        lemma_same_keys_len(a@, b@);
    }
}

} // verus!
