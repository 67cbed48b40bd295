//! The boundary with `lambda_calculus`: its `Term` is carried opaquely, and
//! every operation on it goes through one of the trusted items below. What an
//! operation returns is a function of its arguments alone, and is named here.

use vstd::prelude::*;
use lambda_calculus::Term;

verus! {

#[verifier::external_type_specification]
#[verifier::external_body]
pub struct ExTerm(lambda_calculus::Term);

/// The largest free-variable index a term admitted to a soup may carry.
pub const FREE_INDEX_LIMIT: usize = 0xFFFF;

/// The normal-order reduct of `t` after at most `limit` steps, with the number of steps taken.
pub uninterp spec fn nor_reduce(t: Term, limit: usize) -> (Term, usize);

/// The deepest nesting of abstractions in `t`.
pub uninterp spec fn depth_of(t: Term) -> u32;

/// The largest free-variable index of `t`, 0 for a closed term.
pub uninterp spec fn free_bound(t: Term) -> usize;

/// The application of `l` to `r`.
pub uninterp spec fn app_of(l: Term, r: Term) -> Term;

/// The abstraction over `t`.
pub uninterp spec fn abs_of(t: Term) -> Term;

/// The variable with De Bruijn index `i`.
pub uninterp spec fn var_of(i: usize) -> Term;

/// The term that text `s` denotes in classic notation, if it parses.
pub uninterp spec fn parse_of(s: Seq<char>) -> Option<Term>;

/// The identity function `λx.x`.
pub open spec fn identity_term() -> Term {
    abs_of(var_of(1))
}

/// Relies on `Term::is_isomorphic_to`: it compares variable indices and recurses
/// into both sides of every abstraction and application, so it holds exactly
/// when the two terms are the same tree.
pub assume_specification[ lambda_calculus::Term::is_isomorphic_to ](a: &Term, b: &Term) -> (r: bool)
    ensures
        r == (*a == *b),
;

/// Relies on `lambda_calculus::abs`: wraps a term in one abstraction.
pub assume_specification[ lambda_calculus::abs ](term: Term) -> (r: Term)
    ensures
        r == abs_of(term),
;

/// Relies on `lambda_calculus::app`: the application of `lhs` to `rhs`, whose
/// free indices are those of its two sides (`max_free_index` takes the larger).
pub assume_specification[ lambda_calculus::app ](lhs: Term, rhs: Term) -> (r: Term)
    ensures
        r == app_of(lhs, rhs),
        free_bound(r) == if free_bound(lhs) >= free_bound(rhs) { free_bound(lhs) } else { free_bound(rhs) },
;

/// Relies on `Term::max_depth`: the deepest nesting of abstractions.
pub assume_specification[ lambda_calculus::Term::max_depth ](t: &Term) -> (r: u32)
    ensures
        r == depth_of(*t),
;

/// Relies on `Term::max_free_index`: the largest index of a free variable, 0 for a closed term.
pub assume_specification[ lambda_calculus::Term::max_free_index ](t: &Term) -> (r: usize)
    ensures
        r == free_bound(*t),
;

/// Relies on the derived `Clone` of `Term`: the copy is the same tree.
#[verifier::external_body]
pub fn copy_term(t: &Term) -> (r: Term)
    ensures
        r == *t,
{
    t.clone()
}

/// Relies on the `Term::Var` constructor: the variable with De Bruijn index `i`.
#[verifier::external_body]
pub fn var(i: usize) -> (r: Term)
    ensures
        r == var_of(i),
{
    Term::Var(i)
}

/// Relies on `Term::reduce` in normal order: it performs at most `limit` beta
/// reductions when `limit` is not zero and reports how many it made; the result
/// depends on the term and the limit alone. Substitution raises a free index by
/// the depth it is moved under, which is less than the number of nodes of the
/// term. Each node takes more than 8 bytes, so even where `usize` has 32 bits a
/// term has fewer than 2^29 nodes, and a free index of at most `FREE_INDEX_LIMIT`
/// (2^16 - 1) plus such a depth stays below `usize::MAX`.
#[verifier::external_body]
pub fn reduce_bounded(t: &mut Term, limit: usize) -> (steps: usize)
    requires
        limit > 0,
        free_bound(*old(t)) <= FREE_INDEX_LIMIT,
    ensures
        (*final(t), steps) == nor_reduce(*old(t), limit),
        steps <= limit,
{
    t.reduce(lambda_calculus::reduction::Order::NOR, limit)
}

/// Relies on `lambda_calculus::parse` in classic notation; a syntax error gives `None`.
#[verifier::external_body]
pub fn parse_term(s: &str) -> (r: Option<Term>)
    ensures
        r == parse_of(s@),
{
    lambda_calculus::parse(s, lambda_calculus::term::Notation::Classic).ok()
}

/// Relies on the `Display` of `Term`: the term in classic notation.
#[verifier::external_body]
pub fn term_text(t: &Term) -> (r: String) {
    t.to_string()
}

/// The identity function `λx.x`.
pub fn identity() -> (r: Term)
    ensures
        r == identity_term(),
{
    lambda_calculus::abs(var(1))
}

} // verus!
