use vstd::prelude::*;
use vstd::std_specs::cmp::PartialEqSpec;

use crate::product_term::ProductTerm;
use crate::term_model::{exact_match, Entries};

verus! {

/// A transient node of the ternary tree: an optional variable tag paired
/// with the optional partial product term accumulated on the path to
/// this node. Nodes only live within a single build/merge pass.
#[derive(Debug)]
pub struct TernaryNode {
    variable: Option<String>,
    built_term: Option<ProductTerm>,
}

impl TernaryNode {
    /// Whether a partial term is attached.
    pub closed spec fn has_term(&self) -> bool {
        self.built_term is Some
    }

    /// The entries of the attached term; a node without one carries the
    /// empty term.
    pub closed spec fn term_entries(&self) -> Entries {
        match self.built_term {
            Some(t) => t@,
            None => Seq::empty(),
        }
    }

    /// The attached variable tag, as a character sequence.
    pub closed spec fn var_name(&self) -> Option<Seq<char>> {
        match self.variable {
            Some(s) => Some(s@),
            None => None,
        }
    }

    /// A node without an attached term carries the empty term.
    pub proof fn lemma_no_term_empty(&self)
        requires
            !self.has_term(),
        ensures
            self.term_entries() == Seq::<(Seq<char>, crate::literal_value::LiteralValue)>::empty(),
    {
    }

    /// Clones the given node.
    pub fn clone(node: &TernaryNode) -> (r: TernaryNode)
        ensures
            r.var_name() == node.var_name(),
            r.has_term() == node.has_term(),
            r.term_entries() == node.term_entries(),
    {
        TernaryNode {
            variable: if node.variable.is_some() {
                Some(String::clone(node.variable.as_ref().unwrap()))
            } else {
                None
            },
            built_term: if node.built_term.is_some() {
                Some(node.built_term.as_ref().unwrap().clone())
            } else {
                None
            },
        }
    }

    /// Creates a new node with neither variable nor term.
    pub fn new() -> (r: TernaryNode)
        ensures
            r.var_name() is None,
            !r.has_term(),
            r.term_entries() == Seq::<(Seq<char>, crate::literal_value::LiteralValue)>::empty(),
    {
        TernaryNode { variable: None, built_term: None }
    }

    /// Creates a new node with the given product term attached.
    pub fn new_with_term(term: ProductTerm) -> (r: TernaryNode)
        ensures
            r.var_name() is None,
            r.has_term(),
            r.term_entries() == term@,
    {
        TernaryNode { built_term: Some(term), ..TernaryNode::new() }
    }

    /// Creates a new node from both optional parts.
    pub fn new_with_all(variable: Option<String>, built_term: Option<ProductTerm>) -> (r:
        TernaryNode)
        ensures
            r.var_name() == (match variable {
                Some(s) => Some(s@),
                None => None::<Seq<char>>,
            }),
            r.has_term() == (built_term is Some),
            built_term is Some ==> r.term_entries() == (built_term->0)@,
    {
        TernaryNode { variable, built_term }
    }

    /// Attaches a variable tag.
    pub fn set_variable(&mut self, variable: String)
        ensures
            final(self).var_name() == Some(variable@),
            final(self).has_term() == old(self).has_term(),
            final(self).term_entries() == old(self).term_entries(),
    {
        self.variable = Some(variable);
    }

    /// The attached variable tag, if any.
    pub fn get_variable(&self) -> (r: Option<&String>)
        ensures
            r is Some <==> self.var_name() is Some,
            r is Some ==> Some((r->0)@) == self.var_name(),
    {
        self.variable.as_ref()
    }

    /// Attaches a product term.
    pub fn set_term(&mut self, term: ProductTerm)
        ensures
            final(self).has_term(),
            final(self).term_entries() == term@,
            final(self).var_name() == old(self).var_name(),
    {
        self.built_term = Some(term);
    }

    /// The attached product term, if any.
    pub fn get_term(&self) -> (r: Option<&ProductTerm>)
        ensures
            r is Some <==> self.has_term(),
            r is Some ==> (r->0)@ == self.term_entries(),
    {
        self.built_term.as_ref()
    }
}

/// Node equality: equal variable tags, and attached terms that are equal
/// product terms, a missing term only equal to another missing term.
impl PartialEq for TernaryNode {
    fn eq(&self, other: &TernaryNode) -> (r: bool) {
        if let Some(this_variable) = &self.variable {
            if let Some(other_variable) = &other.variable {
                if !(*this_variable == *other_variable) {
                    return false;
                }
            } else {
                return false;
            }
        } else if let Some(_) = &other.variable {
            return false;
        }
        if let Some(this_term) = &self.built_term {
            if let Some(other_term) = &other.built_term {
                return *this_term == *other_term;
            }
        }
        self.built_term.is_none() && other.built_term.is_none()
    }
}

/// What `==` on ternary nodes means in specifications.
impl vstd::std_specs::cmp::PartialEqSpecImpl for TernaryNode {
    open spec fn obeys_eq_spec() -> bool {
        true
    }

    open spec fn eq_spec(&self, other: &TernaryNode) -> bool {
        &&& self.var_name() == other.var_name()
        &&& self.has_term() == other.has_term()
        &&& self.has_term() ==> exact_match(self.term_entries(), other.term_entries())
    }
}

impl Eq for TernaryNode {

}

} // verus!
