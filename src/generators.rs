//! Random term generators. Terms are built as `Expr` trees, where each
//! variable is a De Bruijn index, and handed out as `lambda_calculus` terms.

use vstd::prelude::*;
use vstd::string::StringSliceAdditionalSpecFns;
use lambda_calculus::Term;
use crate::config;
use crate::rng::{advance, mix, Rng};
use crate::term::{abs_of, app_of, var, var_of};

verus! {

/// How a fresh term's free variables are renumbered.
#[derive(Debug, Clone, Copy, PartialEq, Eq, Structural)]
pub enum Standardization {
    /// In order of first appearance, left to right.
    Prefix,
    /// In order of first appearance, right to left.
    Postfix,
    /// As generated.
    Unchanged,
}

/// A tag that names no standardization.
#[derive(Debug, Clone, Copy, PartialEq, Eq, Structural)]
pub struct InvalidArgument;

/// The bytes of the tag of each standardization.
pub open spec fn tag_bytes(s: Standardization) -> Seq<u8> {
    match s {
        Standardization::Prefix => seq![112u8, 114, 101, 102, 105, 120],
        Standardization::Postfix => seq![112u8, 111, 115, 116, 102, 105, 120],
        Standardization::Unchanged => seq![110u8, 111, 110, 101],
    }
}

fn same_bytes(a: &[u8], b: &[u8]) -> (r: bool)
    ensures
        r == (a@ == b@),
{
    if a.len() != b.len() {
        return false;
    }
    let mut i: usize = 0;
    while i < a.len()
        invariant
            a@.len() == b@.len(),
            i <= a@.len(),
            forall|k: int| 0 <= k < i ==> a@[k] == b@[k],
        decreases a@.len() - i,
    {
        if a[i] != b[i] {
            return false;
        }
        i = i + 1;
    }
    assert(a@ =~= b@);
    true
}

impl Standardization {
    /// The standardization named `"prefix"`, `"postfix"` or `"none"`; any other tag is refused.
    pub fn from_tag(tag: &str) -> (r: Result<Standardization, InvalidArgument>)
        ensures
            r is Ok ==> tag.spec_bytes() == tag_bytes(r->Ok_0),
            r is Err <==> (tag.spec_bytes() != tag_bytes(Standardization::Prefix)
                && tag.spec_bytes() != tag_bytes(Standardization::Postfix)
                && tag.spec_bytes() != tag_bytes(Standardization::Unchanged)),
    {
        let t = tag.as_bytes();
        let prefix: [u8; 6] = [112, 114, 101, 102, 105, 120];
        let postfix: [u8; 7] = [112, 111, 115, 116, 102, 105, 120];
        let none: [u8; 4] = [110, 111, 110, 101];
        assert(prefix@ =~= tag_bytes(Standardization::Prefix));
        assert(postfix@ =~= tag_bytes(Standardization::Postfix));
        assert(none@ =~= tag_bytes(Standardization::Unchanged));
        if same_bytes(t, prefix.as_slice()) {
            Ok(Standardization::Prefix)
        } else if same_bytes(t, postfix.as_slice()) {
            Ok(Standardization::Postfix)
        } else if same_bytes(t, none.as_slice()) {
            Ok(Standardization::Unchanged)
        } else {
            Err(InvalidArgument)
        }
    }
}

/// A lambda term with De Bruijn indices: `Var(1)` is bound by the nearest abstraction.
#[derive(Debug)]
pub enum Expr {
    Var(usize),
    Abs(Box<Expr>),
    App(Box<Expr>, Box<Expr>),
}

/// Every variable of `e`, under `depth` enclosing abstractions, is bound or is
/// one of the first `free` free variables.
pub open spec fn vars_within(e: Expr, depth: nat, free: nat) -> bool
    decreases e,
{
    match e {
        Expr::Var(x) => 1 <= x && x <= depth + free,
        Expr::Abs(b) => vars_within(*b, depth + 1, free),
        Expr::App(l, r) => vars_within(*l, depth, free) && vars_within(*r, depth, free),
    }
}

/// `e` has no free variable.
pub open spec fn is_closed(e: Expr) -> bool {
    vars_within(e, 0, 0)
}

/// The `lambda_calculus` term with the same shape and indices as `e`.
pub open spec fn term_of(e: Expr) -> Term
    decreases e,
{
    match e {
        Expr::Var(x) => var_of(x),
        Expr::Abs(b) => abs_of(term_of(*b)),
        Expr::App(l, r) => app_of(term_of(*l), term_of(*r)),
    }
}

/// The `lambda_calculus` term with the same shape and indices as `e`.
pub fn to_term(e: &Expr) -> (r: Term)
    ensures
        r == term_of(*e),
    decreases e,
{
    match e {
        Expr::Var(x) => var(*x),
        Expr::Abs(b) => lambda_calculus::abs(to_term(b)),
        Expr::App(l, r) => lambda_calculus::app(to_term(l), to_term(r)),
    }
}

/// Abstractions nested deepest in `e`.
pub open spec fn height(e: Expr) -> nat
    decreases e,
{
    match e {
        Expr::Var(_) => 0,
        Expr::Abs(b) => height(*b) + 1,
        Expr::App(l, r) => if height(*l) >= height(*r) { height(*l) } else { height(*r) },
    }
}

/// Every free variable of `e`, under `depth` abstractions, has its number
/// (1 for the first free position) in `s`.
pub open spec fn free_ids_in(e: Expr, depth: nat, s: Seq<usize>) -> bool
    decreases e,
{
    match e {
        Expr::Var(x) => x > depth ==> s.contains((x - depth) as usize),
        Expr::Abs(b) => free_ids_in(*b, depth + 1, s),
        Expr::App(l, r) => free_ids_in(*l, depth, s) && free_ids_in(*r, depth, s),
    }
}

proof fn lemma_free_ids_grow(e: Expr, depth: nat, s: Seq<usize>, t: Seq<usize>)
    requires
        free_ids_in(e, depth, s),
        forall|x: usize| s.contains(x) ==> t.contains(x),
    ensures
        free_ids_in(e, depth, t),
    decreases e,
{
    match e {
        Expr::Var(_) => {},
        Expr::Abs(b) => lemma_free_ids_grow(*b, depth + 1, s, t),
        Expr::App(l, r) => {
            lemma_free_ids_grow(*l, depth, s, t);
            lemma_free_ids_grow(*r, depth, s, t);
        },
    }
}

/// `acc` extended by the free-variable numbers of `e` (under `depth`
/// abstractions) not yet in it, in order of first appearance: from the left,
/// or from the right with `from_right`.
pub open spec fn collect_spec(e: Expr, depth: nat, from_right: bool, acc: Seq<usize>) -> Seq<usize>
    decreases e,
{
    match e {
        Expr::Var(x) => if x > depth && !acc.contains((x - depth) as usize) { acc.push((x - depth) as usize) } else { acc },
        Expr::Abs(b) => collect_spec(*b, depth + 1, from_right, acc),
        Expr::App(l, r) => if from_right {
            collect_spec(*l, depth, from_right, collect_spec(*r, depth, from_right, acc))
        } else {
            collect_spec(*r, depth, from_right, collect_spec(*l, depth, from_right, acc))
        },
    }
}

/// The first place of `k` in `s`.
pub open spec fn first_index(s: Seq<usize>, k: usize) -> int {
    choose|i: int| 0 <= i < s.len() && s[i] == k && forall|j: int| 0 <= j < i ==> s[j] != k
}

/// `e` with each free variable renumbered by its place in `order` (the first gets 1).
pub open spec fn renumbered(e: Expr, depth: nat, order: Seq<usize>) -> Expr
    decreases e,
{
    match e {
        Expr::Var(x) => if x > depth { Expr::Var((depth + 1 + first_index(order, (x - depth) as usize)) as usize) } else { e },
        Expr::Abs(b) => Expr::Abs(Box::new(renumbered(*b, depth + 1, order))),
        Expr::App(l, r) => Expr::App(Box::new(renumbered(*l, depth, order)), Box::new(renumbered(*r, depth, order))),
    }
}

/// The standardized form of `e`.
pub open spec fn standardized(e: Expr, s: Standardization) -> Expr {
    match s {
        Standardization::Unchanged => e,
        _ => renumbered(e, 0, collect_spec(e, 0, s == Standardization::Postfix, Seq::empty())),
    }
}

/// Distinct numbers between 1 and `free` are at most `free` in count.
proof fn lemma_distinct_bounded(s: Seq<usize>, free: nat)
    requires
        s.no_duplicates(),
        forall|i: int| 0 <= i < s.len() ==> 1 <= #[trigger] s[i] <= free,
    ensures
        s.len() <= free,
{
    let t = s.map_values(|x: usize| x as int);
    assert(t.no_duplicates()) by {
        assert forall|i: int, j: int| 0 <= i < t.len() && 0 <= j < t.len() && i != j implies t[i] != t[j] by {
            assert(s[i] != s[j]);
        }
    }
    t.unique_seq_to_set();
    vstd::set_lib::lemma_int_range(1, free as int + 1);
    assert(t.to_set().subset_of(vstd::set_lib::set_int_range(1, free as int + 1))) by {
        assert forall|x: int| t.to_set().contains(x) implies vstd::set_lib::set_int_range(1, free as int + 1).contains(x) by {
            let i = choose|i: int| 0 <= i < t.len() && t[i] == x;
            assert(1 <= s[i] <= free);
        }
    }
    vstd::set_lib::lemma_len_subset(t.to_set(), vstd::set_lib::set_int_range(1, free as int + 1));
}

/// Appends to `acc` the numbers of the free variables of `e` not yet in it, in
/// order of first appearance from the left, or from the right with `from_right`.
fn collect_free(e: &Expr, depth: usize, from_right: bool, acc: &mut Vec<usize>, free: Ghost<nat>)
    requires
        depth + height(*e) <= usize::MAX,
        vars_within(*e, depth as nat, free@),
        old(acc)@.no_duplicates(),
        forall|i: int| 0 <= i < old(acc)@.len() ==> 1 <= #[trigger] old(acc)@[i] <= free@,
    ensures
        final(acc)@ == collect_spec(*e, depth as nat, from_right, old(acc)@),
        forall|x: usize| old(acc)@.contains(x) ==> final(acc)@.contains(x),
        free_ids_in(*e, depth as nat, final(acc)@),
        final(acc)@.no_duplicates(),
        forall|i: int| 0 <= i < final(acc)@.len() ==> 1 <= #[trigger] final(acc)@[i] <= free@,
    decreases e,
{
    match e {
        Expr::Var(x) => {
            if *x > depth {
                let k = *x - depth;
                let mut i: usize = 0;
                while i < acc.len() && acc[i] != k
                    invariant
                        i <= acc@.len(),
                        forall|q: int| 0 <= q < i ==> acc@[q] != k,
                    decreases acc@.len() - i,
                {
                    i = i + 1;
                }
                if i == acc.len() {
                    assert(!acc@.contains(k));
                    let ghost before = acc@;
                    acc.push(k);
                    assert(acc@[acc@.len() - 1] == k);
                    assert forall|x: usize| before.contains(x) implies acc@.contains(x) by {
                        let q = choose|q: int| 0 <= q < before.len() && before[q] == x;
                        assert(acc@[q] == x);
                    }
                } else {
                    assert(acc@[i as int] == k);
                }
            }
        },
        Expr::Abs(b) => {
            collect_free(b, depth + 1, from_right, acc, free);
        },
        Expr::App(l, r) => {
            if from_right {
                collect_free(r, depth, from_right, acc, free);
                let ghost a1 = acc@;
                collect_free(l, depth, from_right, acc, free);
                proof {
                    lemma_free_ids_grow(**r, depth as nat, a1, acc@);
                }
            } else {
                collect_free(l, depth, from_right, acc, free);
                let ghost a1 = acc@;
                collect_free(r, depth, from_right, acc, free);
                proof {
                    lemma_free_ids_grow(**l, depth as nat, a1, acc@);
                }
            }
        },
    }
}

/// `e` with each free variable renumbered by its place in `order` (the first gets 1).
fn renumber(e: &Expr, depth: usize, order: &Vec<usize>, free: Ghost<nat>) -> (r: Expr)
    requires
        vars_within(*e, depth as nat, free@),
        free_ids_in(*e, depth as nat, order@),
        depth + height(*e) + order@.len() < usize::MAX,
    ensures
        r == renumbered(*e, depth as nat, order@),
        node_count(r) == node_count(*e),
        vars_within(r, depth as nat, order@.len()),
        vars_within(*e, depth as nat, 0) ==> r == *e,
        height(r) == height(*e),
    decreases e,
{
    match e {
        Expr::Var(x) => {
            if *x > depth {
                let k = *x - depth;
                let n = order.len();
                let mut i: usize = 0;
                while order[i] != k
                    invariant
                        n == order@.len(),
                        i < order@.len(),
                        order@.contains(k),
                        forall|q: int| 0 <= q < i ==> order@[q] != k,
                    decreases order@.len() - i,
                {
                    i = i + 1;
                    assert(i < order@.len()) by {
                        let q = choose|q: int| 0 <= q < order@.len() && order@[q] == k;
                    }
                }
                assert(order@[i as int] == k);
                let ghost f = first_index(order@, k);
                assert(0 <= f < order@.len() && order@[f] == k && forall|j: int| 0 <= j < f ==> order@[j] != k);
                assert(f == i as int) by {
                    if f < i {
                        assert(order@[f] != k);
                    } else if f > i {
                        assert(order@[i as int] != k);
                    }
                }
                Expr::Var(depth + 1 + i)
            } else {
                Expr::Var(*x)
            }
        },
        Expr::Abs(b) => Expr::Abs(Box::new(renumber(b, depth + 1, order, free))),
        Expr::App(l, r) => Expr::App(Box::new(renumber(l, depth, order, free)), Box::new(renumber(r, depth, order, free))),
    }
}

/// A copy of `e`.
pub fn copy_expr(e: &Expr) -> (r: Expr)
    ensures
        r == *e,
    decreases e,
{
    match e {
        Expr::Var(x) => Expr::Var(*x),
        Expr::Abs(b) => Expr::Abs(Box::new(copy_expr(b))),
        Expr::App(l, r) => Expr::App(Box::new(copy_expr(l)), Box::new(copy_expr(r))),
    }
}

/// `e` with its free variables renumbered 1, 2, ... in order of first appearance:
/// from the left for `Prefix`, from the right for `Postfix`. `Unchanged` and a
/// closed term are returned as they are. The term keeps its height and, where it
/// used only the first `max_free` free numbers, still does.
pub fn standardize(e: &Expr, s: Standardization, max_free: u32) -> (r: Expr)
    requires
        height(*e) + max_free < usize::MAX,
        vars_within(*e, 0, max_free as nat),
    ensures
        r == standardized(*e, s),
        node_count(r) == node_count(*e),
        s == Standardization::Unchanged ==> r == *e,
        is_closed(*e) ==> r == *e,
        vars_within(r, 0, max_free as nat),
        height(r) == height(*e),
{
    match s {
        Standardization::Unchanged => copy_expr(e),
        _ => {
            let mut order: Vec<usize> = Vec::new();
            collect_free(e, 0, s == Standardization::Postfix, &mut order, Ghost(max_free as nat));
            proof {
                lemma_distinct_bounded(order@, max_free as nat);
            }
            let r = renumber(e, 0, &order, Ghost(max_free as nat));
            proof {
                lemma_within_grow(r, 0, order@.len(), max_free as nat);
            }
            r
        },
    }
}

proof fn lemma_within_grow(e: Expr, depth: nat, f: nat, g: nat)
    requires
        vars_within(e, depth, f),
        f <= g,
    ensures
        vars_within(e, depth, g),
    decreases e,
{
    match e {
        Expr::Var(_) => {},
        Expr::Abs(b) => lemma_within_grow(*b, depth + 1, f, g),
        Expr::App(l, r) => {
            lemma_within_grow(*l, depth, f, g);
            lemma_within_grow(*r, depth, f, g);
        },
    }
}

/// The number of nodes of `e`.
pub open spec fn node_count(e: Expr) -> nat
    decreases e,
{
    match e {
        Expr::Var(_) => 1,
        Expr::Abs(b) => 1 + node_count(*b),
        Expr::App(l, r) => 1 + node_count(*l) + node_count(*r),
    }
}

/// A leaf drawn from random state `st` under `depth` abstractions, with the state after it.
pub open spec fn leaf_spec(st: u64, depth: usize, p: u32, max_free: u32) -> (Expr, u64) {
    let free_allowed = max_free > 0 && p > 0;
    let drawn = free_allowed && depth != 0;
    let want_free = if drawn { mix(advance(st)) % 1_000_000 < p as u64 } else { free_allowed };
    let st1 = if drawn { advance(st) } else { st };
    if want_free && depth < usize::MAX - max_free {
        (Expr::Var((depth + 1 + mix(advance(st1)) % (max_free as u64)) as usize), advance(st1))
    } else if depth > 0 {
        (Expr::Var((1 + mix(advance(st1)) % (depth as u64)) as usize), advance(st1))
    } else {
        (Expr::Abs(Box::new(Expr::Var(1))), st1)
    }
}

/// A tree of `size` nodes drawn from random state `st` under `depth`
/// abstractions, with the state after it: a coin picks an abstraction or an
/// application, whose left side takes a drawn share of the nodes.
pub open spec fn grow_spec(st: u64, size: u32, depth: usize, p: u32, max_free: u32) -> (Expr, u64)
    decreases size,
{
    if size <= 1 {
        leaf_spec(st, depth, p, max_free)
    } else {
        let st1 = advance(st);
        if mix(advance(st)) % 1_000_000 < 500_000 {
            let b = grow_spec(st1, (size - 1) as u32, (depth + 1) as usize, p, max_free);
            (Expr::Abs(Box::new(b.0)), b.1)
        } else {
            let l = (1 + mix(advance(st1)) % ((size - 1) as u64)) as u32;
            let left = grow_spec(advance(st1), l, depth, p, max_free);
            let right = grow_spec(left.1, (size - 1 - l) as u32, depth, p, max_free);
            (Expr::App(Box::new(left.0), Box::new(right.0)), right.1)
        }
    }
}

/// Builds terms as random binary trees of a given number of nodes.
pub struct BTreeGen {
    size: u32,
    freevar_generation_probability: u32,
    n_max_free_vars: u32,
    standardization: Standardization,
    rng: Rng,
}

/// How many free variables a generator may use: none where their probability is zero.
pub open spec fn free_budget(probability: u32, max_free: u32) -> nat {
    if probability == 0 { 0 } else { max_free as nat }
}

impl BTreeGen {
    pub closed spec fn size_spec(&self) -> u32 {
        self.size
    }

    pub closed spec fn free_spec(&self) -> nat {
        free_budget(self.freevar_generation_probability, self.n_max_free_vars)
    }

    pub closed spec fn standardization_spec(&self) -> Standardization {
        self.standardization
    }

    pub closed spec fn probability_spec(&self) -> u32 {
        self.freevar_generation_probability
    }

    pub closed spec fn max_free_spec(&self) -> u32 {
        self.n_max_free_vars
    }

    /// The state of the generator's random source.
    pub closed spec fn rng_state(&self) -> u64 {
        self.rng.state()
    }

    /// The tree drawn from random state `st`, and the state after it.
    pub open spec fn draw(&self, st: u64) -> (Expr, u64) {
        let g = grow_spec(st, self.size_spec(), 0, self.probability_spec(), self.max_free_spec());
        (standardized(g.0, self.standardization_spec()), g.1)
    }

    /// The terms of `n` successive draws from random state `st`, and the state after them.
    pub open spec fn draws(&self, st: u64, n: nat) -> (Seq<Term>, u64)
        decreases n,
    {
        if n == 0 {
            (Seq::empty(), st)
        } else {
            let prev = self.draws(st, (n - 1) as nat);
            let d = self.draw(prev.1);
            (prev.0.push(term_of(d.0)), d.1)
        }
    }

    /// A generator with the default settings and a seed of zeros.
    pub fn new() -> (r: BTreeGen)
        ensures
            r.size_spec() == 20,
            r.free_spec() == 0,
            r.probability_spec() == 0,
            r.max_free_spec() == 0,
            r.standardization_spec() == Standardization::Prefix,
            r.rng_state() == crate::rng::fold_seed(Seq::new(32, |i: int| 0u8)),
    {
        let seed = [0u8; 32];
        assert(seed@ =~= Seq::new(32, |i: int| 0u8));
        BTreeGen::from_config(&config::BTreeGen {
            size: 20,
            freevar_generation_probability: 0,
            n_max_free_vars: 0,
            standardization: Standardization::Prefix,
            seed: config::ConfigSeed(Some(seed)),
        })
    }

    pub fn from_config(cfg: &config::BTreeGen) -> (r: BTreeGen)
        ensures
            r.size_spec() == cfg.size,
            r.free_spec() == free_budget(cfg.freevar_generation_probability, cfg.n_max_free_vars),
            r.probability_spec() == cfg.freevar_generation_probability,
            r.max_free_spec() == cfg.n_max_free_vars,
            r.standardization_spec() == cfg.standardization,
            cfg.seed.0 is Some ==> r.rng_state() == crate::rng::fold_seed(cfg.seed.0->Some_0@),
    {
        BTreeGen {
            size: cfg.size,
            freevar_generation_probability: cfg.freevar_generation_probability,
            n_max_free_vars: cfg.n_max_free_vars,
            standardization: cfg.standardization,
            rng: cfg.seed.rng(),
        }
    }

    fn leaf(&mut self, depth: usize) -> (e: Expr)
        ensures
            (e, final(self).rng.state()) == leaf_spec(
                old(self).rng.state(), depth, old(self).freevar_generation_probability, old(self).n_max_free_vars),
            node_count(e) >= 1,
            height(e) <= 1,
            vars_within(e, depth as nat, free_budget(old(self).freevar_generation_probability, old(self).n_max_free_vars)),
            final(self).size == old(self).size,
            final(self).freevar_generation_probability == old(self).freevar_generation_probability,
            final(self).n_max_free_vars == old(self).n_max_free_vars,
            final(self).standardization == old(self).standardization,
    {
        let free_allowed = self.n_max_free_vars > 0 && self.freevar_generation_probability > 0;
        let want_free = free_allowed && (depth == 0 || self.rng.chance(self.freevar_generation_probability));
        if want_free && depth < usize::MAX - self.n_max_free_vars as usize {
            let k = self.rng.below(self.n_max_free_vars as u64);
            assert(k < self.n_max_free_vars);
            let x = depth + 1 + k as usize;
            assert(x <= depth + self.n_max_free_vars);
            assert(free_budget(self.freevar_generation_probability, self.n_max_free_vars) == self.n_max_free_vars);
            Expr::Var(x)
        } else if depth > 0 {
            let k = self.rng.below(depth as u64);
            assert(k < depth);
            Expr::Var(1 + k as usize)
        } else {
            let e = Expr::Abs(Box::new(Expr::Var(1)));
            assert(node_count(Expr::Var(1)) == 1);
            assert(node_count(e) == 2);
            let ghost f = free_budget(self.freevar_generation_probability, self.n_max_free_vars);
            assert(vars_within(Expr::Var(1), 1, f));
            assert(vars_within(e, 0, f));
            assert(height(Expr::Var(1)) == 0);
            e
        }
    }

    fn grow(&mut self, size: u32, depth: usize) -> (e: Expr)
        requires
            depth as int + size as int <= u32::MAX as int,
        ensures
            (e, final(self).rng.state()) == grow_spec(
                old(self).rng.state(), size, depth, old(self).freevar_generation_probability, old(self).n_max_free_vars),
            node_count(e) >= size,
            height(e) <= size as int + 1,
            vars_within(e, depth as nat, free_budget(old(self).freevar_generation_probability, old(self).n_max_free_vars)),
            final(self).size == old(self).size,
            final(self).freevar_generation_probability == old(self).freevar_generation_probability,
            final(self).n_max_free_vars == old(self).n_max_free_vars,
            final(self).standardization == old(self).standardization,
        decreases size,
    {
        if size <= 1 {
            self.leaf(depth)
        } else if self.rng.chance(500_000) {
            let b = self.grow(size - 1, depth + 1);
            Expr::Abs(Box::new(b))
        } else {
            let x = self.rng.below((size - 1) as u64);
            let l = 1 + x as u32;
            let left = self.grow(l, depth);
            let right = self.grow(size - 1 - l, depth);
            Expr::App(Box::new(left), Box::new(right))
        }
    }

    /// One tree of the configured size, standardized; it has no free variable
    /// when free variables have probability zero or a budget of zero.
    pub fn generate_expr(&mut self) -> (e: Expr)
        requires
            old(self).size_spec() as int + old(self).free_spec() + 1 < usize::MAX,
        ensures
            (e, final(self).rng_state()) == old(self).draw(old(self).rng_state()),
            node_count(e) >= old(self).size_spec(),
            vars_within(e, 0, old(self).free_spec()),
            vars_within(e, 0, old(self).max_free_spec() as nat),
            old(self).free_spec() == 0 ==> is_closed(e),
            final(self).size_spec() == old(self).size_spec(),
            final(self).free_spec() == old(self).free_spec(),
            final(self).probability_spec() == old(self).probability_spec(),
            final(self).max_free_spec() == old(self).max_free_spec(),
            final(self).standardization_spec() == old(self).standardization_spec(),
    {
        let e = self.grow(self.size, 0);
        let budget = if self.freevar_generation_probability == 0 { 0 } else { self.n_max_free_vars };
        let r = standardize(&e, self.standardization, budget);
        proof {
            lemma_within_grow(r, 0, budget as nat, self.n_max_free_vars as nat);
        }
        r
    }

    /// One generated term.
    pub fn generate(&mut self) -> (r: Term)
        requires
            old(self).size_spec() as int + old(self).free_spec() + 1 < usize::MAX,
        ensures
            r == term_of(old(self).draw(old(self).rng_state()).0),
            vars_within(old(self).draw(old(self).rng_state()).0, 0, old(self).max_free_spec() as nat),
            final(self).rng_state() == old(self).draw(old(self).rng_state()).1,
            final(self).size_spec() == old(self).size_spec(),
            final(self).free_spec() == old(self).free_spec(),
            final(self).probability_spec() == old(self).probability_spec(),
            final(self).max_free_spec() == old(self).max_free_spec(),
            final(self).standardization_spec() == old(self).standardization_spec(),
    {
        let e = self.generate_expr();
        to_term(&e)
    }

    /// `n` terms generated one after the other.
    pub fn generate_n(&mut self, n: usize) -> (r: Vec<Term>)
        requires
            old(self).size_spec() as int + old(self).free_spec() + 1 < usize::MAX,
        ensures
            r@.len() == n,
            (r@, final(self).rng_state()) == old(self).draws(old(self).rng_state(), n as nat),
            final(self).size_spec() == old(self).size_spec(),
            final(self).free_spec() == old(self).free_spec(),
            final(self).probability_spec() == old(self).probability_spec(),
            final(self).max_free_spec() == old(self).max_free_spec(),
            final(self).standardization_spec() == old(self).standardization_spec(),
    {
        let mut r: Vec<Term> = Vec::new();
        let mut i: usize = 0;
        while i < n
            invariant
                i <= n,
                r@.len() == i,
                self.size_spec() as int + self.free_spec() + 1 < usize::MAX,
                (r@, self.rng_state()) == old(self).draws(old(self).rng_state(), i as nat),
                self.probability_spec() == old(self).probability_spec(),
                self.max_free_spec() == old(self).max_free_spec(),
                self.size_spec() == old(self).size_spec(),
                self.free_spec() == old(self).free_spec(),
                self.standardization_spec() == old(self).standardization_spec(),
            decreases n - i,
        {
            r.push(self.generate());
            i = i + 1;
        }
        r
    }
}

} // verus!

verus! {

/// The probability, in parts per million, at depth `d`: `lo` at depth 0, `hi`
/// at depth `max`, and on the straight line between them (rounded towards `lo`).
pub open spec fn interpolate(lo: u32, hi: u32, d: u32, max: u32) -> int {
    if max == 0 {
        lo as int
    } else if hi >= lo {
        lo + (hi - lo) * d / (max as int)
    } else {
        lo - (lo - hi) * d / (max as int)
    }
}

fn interpolate_exec(lo: u32, hi: u32, d: u32, max: u32) -> (r: u64)
    requires
        d <= max,
    ensures
        r == interpolate(lo, hi, d, max),
{
    if max == 0 {
        lo as u64
    } else if hi >= lo {
        let span = (hi - lo) as u64;
        assert(span * (d as u64) <= span * (max as u64)) by (nonlinear_arith)
            requires d <= max;
        assert(span * (max as u64) <= u32::MAX * u32::MAX) by (nonlinear_arith)
            requires span <= u32::MAX, max <= u32::MAX;
        lo as u64 + span * (d as u64) / (max as u64)
    } else {
        let span = (lo - hi) as u64;
        assert(span * (d as u64) <= span * (max as u64)) by (nonlinear_arith)
            requires d <= max;
        assert(span * (max as u64) <= u32::MAX * u32::MAX) by (nonlinear_arith)
            requires span <= u32::MAX, max <= u32::MAX;
        assert((span * d) as int / (max as int) <= span as int) by (nonlinear_arith)
            requires d <= max, max > 0, span >= 0;
        lo as u64 - span * (d as u64) / (max as u64)
    }
}

/// A variable drawn from random state `st` with `binders` abstractions in
/// scope, or `None` where none may be drawn, with the state after it.
pub open spec fn var_spec(st: u64, binders: usize, max_free: u32) -> (Option<Expr>, u64) {
    let drawn = binders > 0 && max_free != 0;
    let use_bound = binders > 0 && (max_free == 0 || mix(advance(st)) % 2 == 0);
    let st1 = if drawn { advance(st) } else { st };
    if use_bound {
        (Some(Expr::Var((1 + mix(advance(st1)) % (binders as u64)) as usize)), advance(st1))
    } else if max_free > 0 && binders < usize::MAX - max_free {
        (Some(Expr::Var((binders + 1 + mix(advance(st1)) % (max_free as u64)) as usize)), advance(st1))
    } else {
        (None, st1)
    }
}

/// The term built from random state `st` at depth `d` with `binders`
/// abstractions in scope, and the state after it: one draw picks an
/// abstraction, an application or a variable by the interpolated probabilities;
/// at `max_depth` only a variable is possible.
pub open spec fn build_spec(
    st: u64,
    d: u32,
    binders: usize,
    abs_range: (u32, u32),
    app_range: (u32, u32),
    max_depth: u32,
    max_free: u32,
) -> (Option<Expr>, u64)
    decreases max_depth - d,
{
    let x = mix(advance(st)) % 1_000_000;
    let st1 = advance(st);
    if d < max_depth {
        let pa = interpolate(abs_range.0, abs_range.1, d, max_depth);
        let pp = interpolate(app_range.0, app_range.1, d, max_depth);
        if x < pa {
            let b = build_spec(st1, (d + 1) as u32, (binders + 1) as usize, abs_range, app_range, max_depth, max_free);
            (if b.0 is Some { Some(Expr::Abs(Box::new(b.0->Some_0))) } else { None }, b.1)
        } else if x - pa < pp {
            let l = build_spec(st1, (d + 1) as u32, binders, abs_range, app_range, max_depth, max_free);
            if l.0 is None {
                (None, l.1)
            } else {
                let r = build_spec(l.1, (d + 1) as u32, binders, abs_range, app_range, max_depth, max_free);
                (if r.0 is Some { Some(Expr::App(Box::new(l.0->Some_0), Box::new(r.0->Some_0))) } else { None }, r.1)
            }
        } else {
            var_spec(st1, binders, max_free)
        }
    } else {
        var_spec(st1, binders, max_free)
    }
}

/// Where free variables are allowed and fit the machine, every build succeeds:
/// a dead end needs a variable with no binder in scope and no free variable allowed.
pub proof fn lemma_build_succeeds(
    st: u64,
    d: u32,
    binders: usize,
    abs_range: (u32, u32),
    app_range: (u32, u32),
    max_depth: u32,
    max_free: u32,
)
    requires
        max_free > 0,
        d <= max_depth,
        binders <= d,
        max_depth as int + max_free as int + 1 < usize::MAX,
    ensures
        build_spec(st, d, binders, abs_range, app_range, max_depth, max_free).0 is Some,
    decreases max_depth - d,
{
    let x = mix(advance(st)) % 1_000_000;
    let st1 = advance(st);
    if d < max_depth {
        lemma_build_succeeds(st1, (d + 1) as u32, (binders + 1) as usize, abs_range, app_range, max_depth, max_free);
        lemma_build_succeeds(st1, (d + 1) as u32, binders, abs_range, app_range, max_depth, max_free);
        let l = build_spec(st1, (d + 1) as u32, binders, abs_range, app_range, max_depth, max_free);
        lemma_build_succeeds(l.1, (d + 1) as u32, binders, abs_range, app_range, max_depth, max_free);
    }
}

/// Builds terms top-down, choosing at each depth between an abstraction, an
/// application and a variable with probabilities that move with the depth.
pub struct FontanaGen {
    abstraction_prob_range: (u32, u32),
    application_prob_range: (u32, u32),
    max_depth: u32,
    n_max_free_vars: u32,
    rng: Rng,
}

impl FontanaGen {
    pub closed spec fn max_depth_spec(&self) -> u32 {
        self.max_depth
    }

    pub closed spec fn free_spec(&self) -> u32 {
        self.n_max_free_vars
    }

    pub closed spec fn abstraction_range_spec(&self) -> (u32, u32) {
        self.abstraction_prob_range
    }

    pub closed spec fn application_range_spec(&self) -> (u32, u32) {
        self.application_prob_range
    }

    /// The state of the generator's random source.
    pub closed spec fn rng_state(&self) -> u64 {
        self.rng.state()
    }

    /// The term drawn from random state `st`, and the state after it.
    pub open spec fn draw(&self, st: u64) -> (Option<Expr>, u64) {
        build_spec(
            st,
            0,
            0,
            self.abstraction_range_spec(),
            self.application_range_spec(),
            self.max_depth_spec(),
            self.free_spec(),
        )
    }

    pub fn from_config(cfg: &config::FontanaGen) -> (r: FontanaGen)
        ensures
            r.max_depth_spec() == cfg.max_depth,
            r.free_spec() == cfg.n_max_free_vars,
            r.abstraction_range_spec() == cfg.abstraction_prob_range,
            r.application_range_spec() == cfg.application_prob_range,
            cfg.seed.0 is Some ==> r.rng_state() == crate::rng::fold_seed(cfg.seed.0->Some_0@),
    {
        FontanaGen {
            abstraction_prob_range: cfg.abstraction_prob_range,
            application_prob_range: cfg.application_prob_range,
            max_depth: cfg.max_depth,
            n_max_free_vars: cfg.n_max_free_vars,
            rng: cfg.seed.rng(),
        }
    }

    fn build(&mut self, d: u32, binders: usize) -> (r: Option<Expr>)
        requires
            d <= old(self).max_depth,
            binders <= d,
        ensures
            (r, final(self).rng.state()) == build_spec(
                old(self).rng.state(),
                d,
                binders,
                old(self).abstraction_prob_range,
                old(self).application_prob_range,
                old(self).max_depth,
                old(self).n_max_free_vars,
            ),
            final(self).abstraction_prob_range == old(self).abstraction_prob_range,
            final(self).application_prob_range == old(self).application_prob_range,
            r is Some ==> vars_within(r->Some_0, binders as nat, old(self).n_max_free_vars as nat),
            r is Some ==> height(r->Some_0) <= old(self).max_depth - d,
            final(self).max_depth == old(self).max_depth,
            final(self).n_max_free_vars == old(self).n_max_free_vars,
        decreases old(self).max_depth - d,
    {
        let x = self.rng.below(1_000_000);
        if d < self.max_depth {
            let pa = interpolate_exec(self.abstraction_prob_range.0, self.abstraction_prob_range.1, d, self.max_depth);
            let pp = interpolate_exec(self.application_prob_range.0, self.application_prob_range.1, d, self.max_depth);
            if x < pa {
                return match self.build(d + 1, binders + 1) {
                    Some(b) => Some(Expr::Abs(Box::new(b))),
                    None => None,
                };
            }
            if x - pa < pp {
                let l = match self.build(d + 1, binders) {
                    Some(l) => l,
                    None => return None,
                };
                let r = match self.build(d + 1, binders) {
                    Some(r) => r,
                    None => return None,
                };
                return Some(Expr::App(Box::new(l), Box::new(r)));
            }
        }
        if binders > 0 && (self.n_max_free_vars == 0 || self.rng.below(2) == 0) {
            let k = self.rng.below(binders as u64);
            assert(k < binders);
            Some(Expr::Var(1 + k as usize))
        } else if self.n_max_free_vars > 0 && binders < usize::MAX - self.n_max_free_vars as usize {
            let k = self.rng.below(self.n_max_free_vars as u64);
            assert(k < self.n_max_free_vars);
            Some(Expr::Var(binders + 1 + k as usize))
        } else {
            None
        }
    }

    /// One term of depth at most `max_depth` that uses at most `n_max_free_vars`
    /// free variables, or `None` where the draws led to a dead end.
    pub fn generate_expr(&mut self) -> (r: Option<Expr>)
        ensures
            (r, final(self).rng_state()) == old(self).draw(old(self).rng_state()),
            old(self).free_spec() > 0 && old(self).max_depth_spec() as int + old(self).free_spec() as int + 1
                < usize::MAX ==> r is Some,
            r is Some ==> vars_within(r->Some_0, 0, old(self).free_spec() as nat),
            r is Some ==> height(r->Some_0) <= old(self).max_depth_spec(),
            final(self).max_depth_spec() == old(self).max_depth_spec(),
            final(self).free_spec() == old(self).free_spec(),
            final(self).abstraction_range_spec() == old(self).abstraction_range_spec(),
            final(self).application_range_spec() == old(self).application_range_spec(),
    {
        proof {
            if self.n_max_free_vars > 0 && self.max_depth as int + self.n_max_free_vars as int + 1 < usize::MAX {
                lemma_build_succeeds(
                    self.rng.state(),
                    0,
                    0,
                    self.abstraction_prob_range,
                    self.application_prob_range,
                    self.max_depth,
                    self.n_max_free_vars,
                );
            }
        }
        self.build(0, 0)
    }

    /// One generated term, or `None` at a dead end.
    pub fn generate(&mut self) -> (r: Option<Term>)
        ensures
            r == (match old(self).draw(old(self).rng_state()).0 {
                Some(e) => Some(term_of(e)),
                None => None,
            }),
            final(self).rng_state() == old(self).draw(old(self).rng_state()).1,
            final(self).max_depth_spec() == old(self).max_depth_spec(),
            final(self).free_spec() == old(self).free_spec(),
            final(self).abstraction_range_spec() == old(self).abstraction_range_spec(),
            final(self).application_range_spec() == old(self).application_range_spec(),
    {
        match self.generate_expr() {
            Some(e) => Some(to_term(&e)),
            None => None,
        }
    }
}

} // verus!

verus! {

/// Two binary-tree generators with the same settings and random state give the
/// same terms for the same number of calls: output is fixed by config and seed.
pub proof fn lemma_btree_reproducible(a: &BTreeGen, b: &BTreeGen, n: nat)
    requires
        a.size_spec() == b.size_spec(),
        a.probability_spec() == b.probability_spec(),
        a.max_free_spec() == b.max_free_spec(),
        a.standardization_spec() == b.standardization_spec(),
        a.rng_state() == b.rng_state(),
    ensures
        a.draws(a.rng_state(), n) == b.draws(b.rng_state(), n),
    decreases n,
{
    if n > 0 {
        lemma_btree_reproducible(a, b, (n - 1) as nat);
    }
}

/// Two depth-bounded generators with the same settings and random state draw
/// the same term and move to the same state.
pub proof fn lemma_fontana_reproducible(a: &FontanaGen, b: &FontanaGen)
    requires
        a.abstraction_range_spec() == b.abstraction_range_spec(),
        a.application_range_spec() == b.application_range_spec(),
        a.max_depth_spec() == b.max_depth_spec(),
        a.free_spec() == b.free_spec(),
        a.rng_state() == b.rng_state(),
    ensures
        a.draw(a.rng_state()) == b.draw(b.rng_state()),
{
}

} // verus!
