//! The reaction engine: a bounded population of terms that collide at random.
//! Two distinct members are drawn, the first applied to the second, and the
//! product, when it is a new and useful term, takes the second one's place.

use vstd::prelude::*;
use lambda_calculus::Term;
use crate::config::Reactor;
use crate::rng::{Rng, advance, mix};
use crate::term::{
    app_of, copy_term, depth_of, free_bound, identity, identity_term, nor_reduce, parse_of, parse_term,
    reduce_bounded, FREE_INDEX_LIMIT,
};

verus! {

/// The outcome of a reaction attempt that changed nothing.
#[derive(Debug, Clone, Copy, PartialEq, Eq, Structural)]
pub enum ReactionError {
    ExceedsReductionLimit,
    NotEnoughExpressions,
    IsIdentity,
    IsParent,
    HasFreeVariables,
    ExceedsDepthLimit,
}

/// What was measured of one product.
#[derive(Debug, Clone, Copy, PartialEq, Eq, Structural)]
pub struct Measure {
    /// Beta reductions performed.
    pub steps: usize,
    /// Deepest nesting of abstractions in the product.
    pub depth: u32,
    /// The product has a free variable that neither reactant has.
    pub new_free_variable: bool,
    /// The product is the identity function.
    pub is_identity: bool,
    /// The product equals one of its reactants.
    pub is_parent: bool,
}

/// The verdict on a product, the checks taken in order. A reduction that used
/// the whole step budget counts as over the limit: the reducer reports only how
/// many steps it took, so a product reached in exactly `limit` steps cannot be
/// told from one that was cut off.
pub open spec fn verdict(m: Measure, reduction_limit: usize, depth_limit: u32) -> Result<(), ReactionError> {
    if m.steps >= reduction_limit {
        Err(ReactionError::ExceedsReductionLimit)
    } else if m.depth > depth_limit {
        Err(ReactionError::ExceedsDepthLimit)
    } else if m.new_free_variable {
        Err(ReactionError::HasFreeVariables)
    } else if m.is_identity {
        Err(ReactionError::IsIdentity)
    } else if m.is_parent {
        Err(ReactionError::IsParent)
    } else {
        Ok(())
    }
}

/// Judges a product by its measure.
pub fn judge(m: Measure, reduction_limit: usize, depth_limit: u32) -> (r: Result<(), ReactionError>)
    ensures
        r == verdict(m, reduction_limit, depth_limit),
{
    if m.steps >= reduction_limit {
        Err(ReactionError::ExceedsReductionLimit)
    } else if m.depth > depth_limit {
        Err(ReactionError::ExceedsDepthLimit)
    } else if m.new_free_variable {
        Err(ReactionError::HasFreeVariables)
    } else if m.is_identity {
        Err(ReactionError::IsIdentity)
    } else if m.is_parent {
        Err(ReactionError::IsParent)
    } else {
        Ok(())
    }
}

/// The two distinct positions drawn from numbers `a` and `b` in a population of `n`.
pub open spec fn pick_pair(a: u64, b: u64, n: nat) -> (int, int) {
    let i = a % (n as u64);
    let j = b % ((n - 1) as u64);
    (i as int, if j >= i { j + 1 } else { j as int })
}

/// How many of the records are successful reactions.
pub open spec fn successes(records: Seq<ReactionRecord>) -> nat
    decreases records.len(),
{
    if records.len() == 0 {
        0
    } else {
        successes(records.drop_last()) + if records.last().outcome is Ok { 1nat } else { 0nat }
    }
}

/// One reaction attempt, as written to the journal.
#[derive(Debug, Clone, Copy, PartialEq, Eq)]
pub struct ReactionRecord {
    pub enzyme: usize,
    pub substrate: usize,
    pub outcome: Result<(), ReactionError>,
}

pub struct Soup {
    expressions: Vec<Term>,
    limit: usize,
    reduction_limit: usize,
    depth_limit: u32,
    rng: Rng,
    n_collisions: usize,
    journal: Vec<ReactionRecord>,
}

impl Soup {
    /// The members, in order.
    pub closed spec fn members(&self) -> Seq<Term> {
        self.expressions@
    }

    pub closed spec fn capacity(&self) -> usize {
        self.limit
    }

    pub closed spec fn collision_count(&self) -> usize {
        self.n_collisions
    }

    pub closed spec fn reduction_cap(&self) -> usize {
        self.reduction_limit
    }

    pub closed spec fn depth_cap(&self) -> u32 {
        self.depth_limit
    }

    pub closed spec fn records(&self) -> Seq<ReactionRecord> {
        self.journal@
    }

    /// The step limit is positive and every member is admissible.
    pub closed spec fn wf(&self) -> bool {
        &&& self.reduction_limit > 0
        &&& forall|k: int| 0 <= k < self.expressions@.len() ==> admissible(#[trigger] self.expressions@[k])
    }

    /// An empty soup with the default configuration.
    pub fn new() -> (r: Soup)
        ensures
            r.wf(),
            r.members().len() == 0,
            r.capacity() == crate::config::DEFAULT_CAPACITY,
            r.collision_count() == 0,
            r.reduction_cap() == crate::config::DEFAULT_REDUCTION_LIMIT,
            r.depth_cap() == crate::config::DEFAULT_DEPTH_LIMIT,
            r.records().len() == 0,
    {
        Soup::from_config(&Reactor::new())
    }

    /// An empty soup with the limits of `cfg` and a source seeded from `cfg.seed`.
    pub fn from_config(cfg: &Reactor) -> (r: Soup)
        requires
            cfg.reduction_limit > 0,
        ensures
            r.wf(),
            r.members().len() == 0,
            r.capacity() == cfg.size,
            r.collision_count() == 0,
            r.reduction_cap() == cfg.reduction_limit,
            r.depth_cap() == cfg.depth_limit,
            r.records().len() == 0,
            cfg.seed.0 is Some ==> r.rng_state() == crate::rng::fold_seed(cfg.seed.0->Some_0@),
    {
        Soup {
            expressions: Vec::new(),
            limit: cfg.size,
            reduction_limit: cfg.reduction_limit,
            depth_limit: cfg.depth_limit,
            rng: cfg.seed.rng(),
            n_collisions: 0,
            journal: Vec::new(),
        }
    }

    /// Sets the capacity for future growth; no member is evicted.
    pub fn set_limit(&mut self, limit: usize)
        ensures
            final(self).wf() == old(self).wf(),
            final(self).capacity() == limit,
            final(self).members() == old(self).members(),
            final(self).collision_count() == old(self).collision_count(),
            final(self).reduction_cap() == old(self).reduction_cap(),
            final(self).depth_cap() == old(self).depth_cap(),
            final(self).rng_state() == old(self).rng_state(),
            final(self).records() == old(self).records(),
    {
        self.limit = limit;
        assert(forall|k: int| 0 <= k < self.expressions@.len() ==> #[trigger] self.expressions@[k] == old(self).expressions@[k]);
    }

    /// Appends `terms` in order while there is room; the rest are dropped.
    pub fn perturb(&mut self, terms: Vec<Term>)
        requires
            forall|k: int| 0 <= k < terms@.len() ==> admissible(#[trigger] terms@[k]),
        ensures
            old(self).wf() ==> final(self).wf(),
            final(self).rng_state() == old(self).rng_state(),
            final(self).records() == old(self).records(),
            final(self).members() == old(self).members() + terms@.take(
                room(old(self).members().len(), old(self).capacity(), terms@.len()) as int,
            ),
            final(self).capacity() == old(self).capacity(),
            final(self).collision_count() == old(self).collision_count(),
            final(self).reduction_cap() == old(self).reduction_cap(),
            final(self).depth_cap() == old(self).depth_cap(),
    {
        let ghost start = self.expressions@;
        let mut terms = terms;
        let ghost all = terms@;
        let mut i: usize = 0;
        let n = terms.len();
        let mut rest: Vec<Term> = Vec::new();
        // Reverse so that the next term to append is at the end.
        while terms.len() > 0
            invariant
                rest@.len() + terms@.len() == all.len(),
                terms@ == all.take(terms@.len() as int),
                forall|k: int| 0 <= k < rest@.len() ==> #[trigger] rest@[k] == all[all.len() - 1 - k],
            decreases terms@.len(),
        {
            let t = terms.pop().unwrap();
            rest.push(t);
            assert(terms@ =~= all.take(terms@.len() as int));
        }
        while i < n && self.expressions.len() < self.limit
            invariant
                n == all.len(),
                i <= n,
                rest@.len() == n - i,
                forall|k: int| 0 <= k < rest@.len() ==> #[trigger] rest@[k] == all[all.len() - 1 - k],
                self.expressions@ == start + all.take(i as int),
                self.limit == old(self).limit,
                i == 0 || start.len() + i <= self.limit,
                self.reduction_limit == old(self).reduction_limit,
                self.depth_limit == old(self).depth_limit,
                self.n_collisions == old(self).n_collisions,
                self.rng.state() == old(self).rng.state(),
                self.journal@ == old(self).journal@,
                start == old(self).expressions@,
                forall|k: int| 0 <= k < all.len() ==> admissible(#[trigger] all[k]),
            decreases n - i,
        {
            let t = rest.pop().unwrap();
            self.expressions.push(t);
            i = i + 1;
            assert(self.expressions@ =~= start + all.take(i as int));
        }
        assert(i == room(start.len(), self.limit, n as nat));
        assert forall|k: int| 0 <= k < self.expressions@.len() && old(self).wf()
            implies admissible(#[trigger] self.expressions@[k]) by {
            if k >= start.len() {
                assert(self.expressions@[k] == all[k - start.len()]);
            } else {
                assert(self.expressions@[k] == start[k]);
            }
        }
    }


    /// Measures the product of applying member `i` to member `j`, reduced
    /// within the step limit, and returns it with its measure.
    fn measure(&self, i: usize, j: usize) -> (r: (Term, Measure))
        requires
            self.wf(),
            i < self.members().len(),
            j < self.members().len(),
        ensures
            r.0 == product_of(self.members()[i as int], self.members()[j as int], self.reduction_cap()),
            r.1 == measure_of(self.members()[i as int], self.members()[j as int], self.reduction_cap()),
    {
        let enzyme = &self.expressions[i];
        let substrate = &self.expressions[j];
        let mut product = lambda_calculus::app(copy_term(enzyme), copy_term(substrate));
        let steps = reduce_bounded(&mut product, self.reduction_limit);
        let depth = product.max_depth();
        let reactant_free = if enzyme.max_free_index() >= substrate.max_free_index() {
            enzyme.max_free_index()
        } else {
            substrate.max_free_index()
        };
        let new_free_variable = product.max_free_index() > reactant_free;
        let is_identity = product.is_isomorphic_to(&identity());
        let is_parent = product.is_isomorphic_to(enzyme) || product.is_isomorphic_to(substrate);
        (product, Measure { steps, depth, new_free_variable, is_identity, is_parent })
    }

    /// One reaction of member `i` (the enzyme) on member `j` (the substrate).
    /// On success the product replaces the substrate; otherwise nothing changes.
    pub fn react(&mut self, i: usize, j: usize) -> (r: Result<(), ReactionError>)
        requires
            old(self).wf(),
            i < old(self).members().len(),
            j < old(self).members().len(),
            i != j,
        ensures
            final(self).wf(),
            (final(self).members(), r) == react_spec(
                old(self).members(),
                i as int,
                j as int,
                old(self).reduction_cap(),
                old(self).depth_cap(),
            ),
            r != Err::<(), ReactionError>(ReactionError::NotEnoughExpressions),
            final(self).capacity() == old(self).capacity(),
            final(self).collision_count() == old(self).collision_count(),
            final(self).reduction_cap() == old(self).reduction_cap(),
            final(self).depth_cap() == old(self).depth_cap(),
            final(self).records() == old(self).records(),
            final(self).rng_state() == old(self).rng_state(),
    {
        let (product, m) = self.measure(i, j);
        let r = judge(m, self.reduction_limit, self.depth_limit);
        if r.is_ok() {
            proof {
                lemma_accepted_product(self.members()[i as int], self.members()[j as int], self.reduction_limit, self.depth_limit);
            }
            self.expressions.set(j, product);
        }
        r
    }

    /// The state of the soup's random source.
    pub closed spec fn rng_state(&self) -> u64 {
        self.rng.state()
    }

    /// Draws the enzyme and substrate positions.
    fn draw_pair(&mut self) -> (r: (usize, usize))
        requires
            old(self).members().len() >= 2,
        ensures
            r.0 < old(self).members().len(),
            r.1 < old(self).members().len(),
            r.0 != r.1,
            final(self).members() == old(self).members(),
            final(self).wf() == old(self).wf(),
            final(self).capacity() == old(self).capacity(),
            final(self).collision_count() == old(self).collision_count(),
            final(self).reduction_cap() == old(self).reduction_cap(),
            final(self).depth_cap() == old(self).depth_cap(),
            final(self).records() == old(self).records(),
            final(self).rng_state() == advance(advance(old(self).rng_state())),
            (r.0 as int, r.1 as int) == pick_pair(
                mix(advance(old(self).rng_state())),
                mix(advance(advance(old(self).rng_state()))),
                old(self).members().len(),
            ),
    {
        let n = self.expressions.len() as u64;
        let a = self.rng.below(n);
        let b = self.rng.below(n - 1);
        let j = if b >= a { b + 1 } else { b };
        (a as usize, j as usize)
    }

    /// Makes up to `n` reaction attempts and returns how many succeeded. A soup
    /// of fewer than two members makes none. Otherwise each attempt draws a pair
    /// and reacts it, and the members, the random state and the count are those
    /// of `run`. Each attempt counts as one collision; with `log` on, each is
    /// also written to the journal.
    pub fn simulate_for(&mut self, n: usize, log: bool) -> (r: usize)
        requires
            old(self).wf(),
            old(self).collision_count() + n <= usize::MAX,
        ensures
            final(self).wf(),
            final(self).members().len() == old(self).members().len(),
            old(self).members().len() < 2 ==> r == 0 && final(self).members() == old(self).members()
                && final(self).collision_count() == old(self).collision_count()
                && final(self).rng_state() == old(self).rng_state(),
            old(self).members().len() >= 2 ==> final(self).collision_count() == old(self).collision_count() + n,
            old(self).members().len() >= 2 ==> (final(self).members(), final(self).rng_state(), r as nat) == run(
                old(self).members(),
                old(self).rng_state(),
                old(self).reduction_cap(),
                old(self).depth_cap(),
                n as nat,
            ),
            r <= n,
            final(self).capacity() == old(self).capacity(),
            final(self).reduction_cap() == old(self).reduction_cap(),
            final(self).depth_cap() == old(self).depth_cap(),
            log ==> final(self).records().len() == old(self).records().len() + (final(self).collision_count() - old(self).collision_count()),
            !log ==> final(self).records() == old(self).records(),
            final(self).records().take(old(self).records().len() as int) == old(self).records(),
            log ==> r == successes(final(self).records().skip(old(self).records().len() as int)),
            forall|k: int| old(self).records().len() <= k < final(self).records().len() ==> {
                let rec = #[trigger] final(self).records()[k];
                &&& rec.enzyme < old(self).members().len()
                &&& rec.substrate < old(self).members().len()
                &&& rec.enzyme != rec.substrate
                &&& rec.outcome != Err::<(), ReactionError>(ReactionError::NotEnoughExpressions)
            },
    {
        if self.expressions.len() < 2 {
            assert(self.journal@.skip(self.journal@.len() as int) =~= Seq::<ReactionRecord>::empty());
            return 0;
        }
        assert(self.journal@.skip(self.journal@.len() as int) =~= Seq::<ReactionRecord>::empty());
        let ghost m0 = self.expressions@;
        let ghost st0 = self.rng.state();
        let mut productive: usize = 0;
        let mut k: usize = 0;
        while k < n
            invariant
                self.wf(),
                k <= n,
                productive <= k,
                self.expressions@.len() == old(self).expressions@.len(),
                self.expressions@.len() >= 2,
                m0 == old(self).expressions@,
                st0 == old(self).rng.state(),
                (self.expressions@, self.rng.state(), productive as nat) == run(
                    m0,
                    st0,
                    self.reduction_limit,
                    self.depth_limit,
                    k as nat,
                ),
                self.n_collisions == old(self).n_collisions + k,
                old(self).n_collisions + n <= usize::MAX,
                self.limit == old(self).limit,
                self.reduction_limit == old(self).reduction_limit,
                self.depth_limit == old(self).depth_limit,
                log ==> self.journal@.len() == old(self).journal@.len() + k,
                !log ==> self.journal@ == old(self).journal@,
                self.journal@.take(old(self).journal@.len() as int) == old(self).journal@,
                log ==> productive == successes(self.journal@.skip(old(self).journal@.len() as int)),
                forall|q: int| old(self).journal@.len() <= q < self.journal@.len() ==> {
                    let rec = #[trigger] self.journal@[q];
                    &&& rec.enzyme < old(self).expressions@.len()
                    &&& rec.substrate < old(self).expressions@.len()
                    &&& rec.enzyme != rec.substrate
                    &&& rec.outcome != Err::<(), ReactionError>(ReactionError::NotEnoughExpressions)
                },
            decreases n - k,
        {
            let ghost prev_m = self.expressions@;
            let ghost prev_st = self.rng.state();
            let (i, j) = self.draw_pair();
            let outcome = self.react(i, j);
            if outcome.is_ok() {
                productive = productive + 1;
            }
            self.n_collisions = self.n_collisions + 1;
            if log {
                let ghost before = self.journal@;
                self.journal.push(ReactionRecord { enzyme: i, substrate: j, outcome });
                assert(self.journal@.take(old(self).journal@.len() as int) =~= before.take(old(self).journal@.len() as int));
                assert(self.journal@.skip(old(self).journal@.len() as int).drop_last()
                    =~= before.skip(old(self).journal@.len() as int));
            }
            k = k + 1;
            assert((self.expressions@, self.rng.state(), productive as nat) == run(
                m0, st0, self.reduction_limit, self.depth_limit, k as nat));
        }
        productive
    }

    /// Parses each text in classic notation and appends the admissible terms
    /// that parse, in order, while there is room; the other texts are skipped.
    pub fn perturb_text(&mut self, texts: &Vec<String>)
        ensures
            old(self).wf() ==> final(self).wf(),
            final(self).members() == old(self).members() + admitted(texts@).take(
                room(old(self).members().len(), old(self).capacity(), admitted(texts@).len()) as int,
            ),
            final(self).capacity() == old(self).capacity(),
            final(self).collision_count() == old(self).collision_count(),
            final(self).reduction_cap() == old(self).reduction_cap(),
            final(self).depth_cap() == old(self).depth_cap(),
            final(self).rng_state() == old(self).rng_state(),
            final(self).records() == old(self).records(),
    {
        let mut parsed: Vec<Term> = Vec::new();
        let mut i: usize = 0;
        while i < texts.len()
            invariant
                i <= texts@.len(),
                parsed@ == admitted(texts@.take(i as int)),
                forall|k: int| 0 <= k < parsed@.len() ==> admissible(#[trigger] parsed@[k]),
            decreases texts@.len() - i,
        {
            assert(texts@.take(i + 1).drop_last() =~= texts@.take(i as int));
            match parse_term(texts[i].as_str()) {
                Some(t) => {
                    if t.max_free_index() <= FREE_INDEX_LIMIT {
                        parsed.push(t);
                    }
                },
                None => {},
            }
            i = i + 1;
        }
        assert(texts@.take(i as int) =~= texts@);
        self.perturb(parsed);
    }

    /// The members, in order.
    pub fn expressions(&self) -> (r: Vec<Term>)
        ensures
            r@ == self.members(),
            r@.len() == self.members().len(),
    {
        let mut r: Vec<Term> = Vec::new();
        let mut i: usize = 0;
        while i < self.expressions.len()
            invariant
                i <= self.expressions@.len(),
                r@ == self.expressions@.take(i as int),
            decreases self.expressions@.len() - i,
        {
            r.push(copy_term(&self.expressions[i]));
            i = i + 1;
            assert(r@ =~= self.expressions@.take(i as int));
        }
        assert(self.expressions@.take(i as int) =~= self.expressions@);
        r
    }

    /// The member at `i`.
    pub fn get(&self, i: usize) -> (r: &Term)
        requires
            i < self.members().len(),
        ensures
            *r == self.members()[i as int],
    {
        &self.expressions[i]
    }

    pub fn len(&self) -> (r: usize)
        ensures
            r == self.members().len(),
    {
        self.expressions.len()
    }

    /// Reaction attempts made since the soup was built.
    pub fn collisions(&self) -> (r: usize)
        ensures
            r == self.collision_count(),
    {
        self.n_collisions
    }

    pub fn limit(&self) -> (r: usize)
        ensures
            r == self.capacity(),
    {
        self.limit
    }

    /// The attempts recorded by runs with logging on.
    pub fn journal(&self) -> (r: &Vec<ReactionRecord>)
        ensures
            r@ == self.records(),
    {
        &self.journal
    }
}

/// A term whose free indices are small enough to be reduced safely.
pub open spec fn admissible(t: Term) -> bool {
    free_bound(t) <= FREE_INDEX_LIMIT
}

/// The admissible terms that the texts parse to, in order.
pub open spec fn admitted(texts: Seq<String>) -> Seq<Term>
    decreases texts.len(),
{
    if texts.len() == 0 {
        Seq::empty()
    } else {
        let prev = admitted(texts.drop_last());
        match parse_of(texts.last()@) {
            Some(t) => if admissible(t) { prev.push(t) } else { prev },
            None => prev,
        }
    }
}

/// The product of applying `a` to `b`, reduced in normal order within `limit` steps.
pub open spec fn product_of(a: Term, b: Term, limit: usize) -> Term {
    nor_reduce(app_of(a, b), limit).0
}

pub open spec fn larger(x: usize, y: usize) -> usize {
    if x >= y { x } else { y }
}

/// What is measured of the product of `a` applied to `b`. A product has a new
/// free variable when its largest free index exceeds both reactants' largest:
/// the reducer reports only that index, so this is the check made. It rejects
/// any free variable in the product of two closed terms, so closed members stay
/// closed.
pub open spec fn measure_of(a: Term, b: Term, limit: usize) -> Measure {
    let p = product_of(a, b, limit);
    Measure {
        steps: nor_reduce(app_of(a, b), limit).1,
        depth: depth_of(p),
        new_free_variable: free_bound(p) > larger(free_bound(a), free_bound(b)),
        is_identity: p == identity_term(),
        is_parent: p == a || p == b,
    }
}

/// The members after member `i` reacts on member `j`, and the outcome.
pub open spec fn react_spec(m: Seq<Term>, i: int, j: int, rl: usize, dl: u32) -> (Seq<Term>, Result<(), ReactionError>) {
    let v = verdict(measure_of(m[i], m[j], rl), rl, dl);
    (if v is Ok { m.update(j, product_of(m[i], m[j], rl)) } else { m }, v)
}

/// Members, random state and number of successes after `n` attempts from
/// members `m` and random state `st`, each attempt reacting the pair drawn by
/// two steps of the random source.
pub open spec fn run(m: Seq<Term>, st: u64, rl: usize, dl: u32, n: nat) -> (Seq<Term>, u64, nat)
    decreases n,
{
    if n == 0 {
        (m, st, 0)
    } else {
        let prev = run(m, st, rl, dl, (n - 1) as nat);
        let ij = pick_pair(mix(advance(prev.1)), mix(advance(advance(prev.1))), prev.0.len());
        let next = react_spec(prev.0, ij.0, ij.1, rl, dl);
        (next.0, advance(advance(prev.1)), prev.2 + if next.1 is Ok { 1nat } else { 0nat })
    }
}

/// An accepted product is new, is not the identity and brings no new free variable.
pub proof fn lemma_accepted_product(a: Term, b: Term, rl: usize, dl: u32)
    ensures
        verdict(measure_of(a, b, rl), rl, dl) is Ok ==> {
            let p = product_of(a, b, rl);
            &&& p != a
            &&& p != b
            &&& p != identity_term()
            &&& free_bound(p) <= larger(free_bound(a), free_bound(b))
            &&& depth_of(p) <= dl
        },
{
}

/// How many of `offered` terms fit into a soup of `len` members and capacity `cap`.
pub open spec fn room(len: nat, cap: usize, offered: nat) -> nat {
    if len >= cap {
        0
    } else if cap - len < offered {
        (cap - len) as nat
    } else {
        offered
    }
}

} // verus!

verus! {

/// The drawn pair is two distinct positions.
pub proof fn lemma_pick_pair(a: u64, b: u64, n: nat)
    requires
        2 <= n <= u64::MAX,
    ensures
        0 <= pick_pair(a, b, n).0 < n,
        0 <= pick_pair(a, b, n).1 < n,
        pick_pair(a, b, n).0 != pick_pair(a, b, n).1,
{
}

/// Attempts never change the number of members.
pub proof fn lemma_run_keeps_len(m: Seq<Term>, st: u64, rl: usize, dl: u32, n: nat)
    requires
        2 <= m.len() <= u64::MAX,
    ensures
        run(m, st, rl, dl, n).0.len() == m.len(),
        run(m, st, rl, dl, n).2 <= n,
    decreases n,
{
    if n > 0 {
        lemma_run_keeps_len(m, st, rl, dl, (n - 1) as nat);
        let prev = run(m, st, rl, dl, (n - 1) as nat);
        lemma_pick_pair(mix(advance(prev.1)), mix(advance(advance(prev.1))), prev.0.len());
    }
}

/// A run with no successful reaction leaves the members as they were:
/// rejections never change the population.
pub proof fn lemma_run_unchanged_without_success(m: Seq<Term>, st: u64, rl: usize, dl: u32, n: nat)
    requires
        2 <= m.len() <= u64::MAX,
        run(m, st, rl, dl, n).2 == 0,
    ensures
        run(m, st, rl, dl, n).0 == m,
    decreases n,
{
    if n > 0 {
        lemma_run_unchanged_without_success(m, st, rl, dl, (n - 1) as nat);
    }
}

/// Reactions bring in no new free variable: a bound on the free indices of the
/// members holds after any number of attempts; in particular closed members stay closed.
pub proof fn lemma_run_free_bound(m: Seq<Term>, st: u64, rl: usize, dl: u32, n: nat, bound: usize)
    requires
        2 <= m.len() <= u64::MAX,
        forall|k: int| 0 <= k < m.len() ==> free_bound(#[trigger] m[k]) <= bound,
    ensures
        forall|k: int| 0 <= k < run(m, st, rl, dl, n).0.len() ==> free_bound(#[trigger] run(m, st, rl, dl, n).0[k]) <= bound,
    decreases n,
{
    if n > 0 {
        lemma_run_free_bound(m, st, rl, dl, (n - 1) as nat, bound);
        lemma_run_keeps_len(m, st, rl, dl, (n - 1) as nat);
        let prev = run(m, st, rl, dl, (n - 1) as nat);
        let ij = pick_pair(mix(advance(prev.1)), mix(advance(advance(prev.1))), prev.0.len());
        lemma_pick_pair(mix(advance(prev.1)), mix(advance(advance(prev.1))), prev.0.len());
        lemma_accepted_product(prev.0[ij.0], prev.0[ij.1], rl, dl);
        let next = react_spec(prev.0, ij.0, ij.1, rl, dl);
        assert forall|k: int| 0 <= k < next.0.len() implies free_bound(#[trigger] next.0[k]) <= bound by {
            if next.1 is Ok && k == ij.1 {
            } else {
                assert(next.0[k] == prev.0[k]);
            }
        }
    }
}

/// A single attempt either changes nothing and counts no success, or puts in
/// one slot a product that differs from both reactants and from the identity,
/// and counts one success; never both.
pub proof fn lemma_single_attempt(m: Seq<Term>, st: u64, rl: usize, dl: u32)
    requires
        2 <= m.len() <= u64::MAX,
    ensures
        ({
            let out = run(m, st, rl, dl, 1);
            ||| (out.2 == 0 && out.0 == m)
            ||| (out.2 == 1 && exists|i: int, j: int, p: Term|
                0 <= i < m.len() && 0 <= j < m.len() && i != j && out.0 == m.update(j, p)
                && p != m[i] && p != m[j] && p != identity_term())
        }),
{
    let prev = run(m, st, rl, dl, 0);
    let ij = pick_pair(mix(advance(prev.1)), mix(advance(advance(prev.1))), prev.0.len());
    lemma_pick_pair(mix(advance(prev.1)), mix(advance(advance(prev.1))), prev.0.len());
    lemma_accepted_product(m[ij.0], m[ij.1], rl, dl);
    let out = run(m, st, rl, dl, 1);
    if out.2 == 1 {
        let p = product_of(m[ij.0], m[ij.1], rl);
        assert(out.0 == m.update(ij.1, p));
    }
}

/// Two soups with the same members, random state and limits end a run of `n`
/// attempts in the same state with the same count: a run is fixed by the seed.
pub proof fn lemma_run_reproducible(a: &Soup, b: &Soup, n: nat)
    requires
        a.members() == b.members(),
        a.rng_state() == b.rng_state(),
        a.reduction_cap() == b.reduction_cap(),
        a.depth_cap() == b.depth_cap(),
    ensures
        run(a.members(), a.rng_state(), a.reduction_cap(), a.depth_cap(), n)
            == run(b.members(), b.rng_state(), b.reduction_cap(), b.depth_cap(), n),
{
}

} // verus!
