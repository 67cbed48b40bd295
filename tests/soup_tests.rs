use alchemy::config::{ConfigSeed, Reactor};
use alchemy::soup::{judge, Measure, ReactionError, Soup};
use alchemy::term::parse_term;
use lambda_calculus::Term;

fn seeded(size: usize, steps: usize, depth: u32) -> Soup {
    Soup::from_config(&Reactor {
        reduction_limit: steps,
        depth_limit: depth,
        size,
        seed: ConfigSeed(Some([7u8; 32])),
    })
}

fn texts(v: &[&str]) -> Vec<String> {
    v.iter().map(|s| s.to_string()).collect()
}

#[test]
fn identity_and_true_collide_once() {
    let mut soup = seeded(10, 500, 100);
    soup.perturb_text(&texts(&["λx.x", "λx.λy.x"]));
    assert_eq!(soup.len(), 2);
    let before = soup.expressions();
    let productive = soup.simulate_for(1, false);
    assert_eq!(soup.collisions(), 1);
    assert_eq!(soup.len(), 2);
    let after = soup.expressions();
    let changed = before.iter().zip(after.iter()).filter(|(a, b)| a != b).count();
    if productive == 0 {
        assert_eq!(changed, 0);
    } else {
        assert_eq!(productive, 1);
        assert_eq!(changed, 1);
        let fresh: Vec<&Term> = after.iter().filter(|t| !before.contains(t)).collect();
        assert_eq!(fresh.len(), 1);
    }
}

#[test]
fn too_few_members_make_no_attempt() {
    let mut soup = seeded(10, 500, 100);
    assert_eq!(soup.simulate_for(5, true), 0);
    assert_eq!(soup.collisions(), 0);
    soup.perturb_text(&texts(&["λx.x x"]));
    let before = soup.expressions();
    assert_eq!(soup.simulate_for(5, true), 0);
    assert_eq!(soup.collisions(), 0);
    assert_eq!(soup.expressions(), before);
    assert!(soup.journal().is_empty());
}

#[test]
fn collisions_count_every_attempt() {
    let mut soup = seeded(10, 500, 100);
    soup.perturb_text(&texts(&["λx.x", "λx.λy.x", "λx.λy.y", "λx.x x"]));
    let mut last = soup.collisions();
    for n in [1usize, 3, 10] {
        let seen = soup.journal().len();
        let made = soup.simulate_for(n, true);
        assert!(made <= n);
        assert_eq!(made, soup.journal()[seen..].iter().filter(|r| r.outcome.is_ok()).count());
        assert_eq!(soup.collisions(), last + n);
        assert_eq!(soup.len(), 4);
        last = soup.collisions();
    }
    assert_eq!(soup.journal().len(), 14);
    for r in soup.journal() {
        assert_ne!(r.enzyme, r.substrate);
        assert_ne!(r.outcome, Err(ReactionError::NotEnoughExpressions));
    }
}

#[test]
fn len_matches_expressions() {
    let mut soup = seeded(10, 500, 100);
    soup.perturb_text(&texts(&["λx.x", "λx.x", "λx.λy.x"]));
    assert_eq!(soup.len(), soup.expressions().len());
    assert_eq!(soup.len(), 3);
}

#[test]
fn perturb_stops_at_capacity_and_skips_bad_text() {
    let mut soup = seeded(3, 500, 100);
    soup.perturb_text(&texts(&["λx.x", "((", "λx.λy.x", "λx.λy.y", "λx.x x"]));
    assert_eq!(soup.len(), 3);
    let got = soup.expressions();
    assert_eq!(got[0], parse_term("λx.x").unwrap());
    assert_eq!(got[1], parse_term("λx.λy.x").unwrap());
    assert_eq!(got[2], parse_term("λx.λy.y").unwrap());
}

#[test]
fn lowered_limit_blocks_growth_without_eviction() {
    let mut soup = seeded(10, 500, 100);
    soup.perturb_text(&texts(&["λx.x", "λx.λy.x", "λx.λy.y"]));
    soup.set_limit(2);
    assert_eq!(soup.limit(), 2);
    assert_eq!(soup.len(), 3);
    soup.perturb(vec![parse_term("λx.x x").unwrap()]);
    assert_eq!(soup.len(), 3);
    soup.set_limit(4);
    soup.perturb(vec![parse_term("λx.x x").unwrap(), parse_term("λx.x").unwrap()]);
    assert_eq!(soup.len(), 4);
}

#[test]
fn react_replaces_substrate_on_success() {
    let mut soup = seeded(10, 500, 100);
    soup.perturb_text(&texts(&["λx.λy.x", "λx.x"]));
    // (λx.λy.x) (λx.x) reduces to λy.λx.x, a new term.
    let r = soup.react(0, 1);
    assert_eq!(r, Ok(()));
    let got = soup.expressions();
    assert_eq!(got[0], parse_term("λx.λy.x").unwrap());
    assert_eq!(got[1], parse_term("λy.λx.x").unwrap());
}

#[test]
fn react_rejects_parent_and_identity() {
    let mut soup = seeded(10, 500, 100);
    soup.perturb_text(&texts(&["λx.x", "λx.λy.x"]));
    assert_eq!(soup.react(0, 1), Err(ReactionError::IsParent));
    let mut soup = seeded(10, 500, 100);
    soup.perturb_text(&texts(&["λx.λy.y", "λz.z z"]));
    assert_eq!(soup.react(0, 1), Err(ReactionError::IsIdentity));
    assert_eq!(soup.expressions()[1], parse_term("λz.z z").unwrap());
}

#[test]
fn react_rejects_divergence() {
    let mut soup = seeded(10, 50, 100);
    soup.perturb_text(&texts(&["λx.x x", "λx.x x"]));
    assert_eq!(soup.react(0, 1), Err(ReactionError::ExceedsReductionLimit));
}

#[test]
fn react_rejects_deep_products() {
    let mut soup = seeded(10, 500, 1);
    soup.perturb_text(&texts(&["λx.λy.x", "λa.λb.a"]));
    assert_eq!(soup.react(0, 1), Err(ReactionError::ExceedsDepthLimit));
}

fn measure(steps: usize, depth: u32, free: bool, id: bool, parent: bool) -> Measure {
    Measure { steps, depth, new_free_variable: free, is_identity: id, is_parent: parent }
}

#[test]
fn judge_takes_checks_in_order() {
    assert_eq!(judge(measure(10, 0, true, true, true), 10, 5), Err(ReactionError::ExceedsReductionLimit));
    assert_eq!(judge(measure(3, 6, true, true, true), 10, 5), Err(ReactionError::ExceedsDepthLimit));
    assert_eq!(judge(measure(3, 5, true, true, true), 10, 5), Err(ReactionError::HasFreeVariables));
    assert_eq!(judge(measure(3, 5, false, true, true), 10, 5), Err(ReactionError::IsIdentity));
    assert_eq!(judge(measure(3, 5, false, false, true), 10, 5), Err(ReactionError::IsParent));
    assert_eq!(judge(measure(9, 5, false, false, false), 10, 5), Ok(()));
}

#[test]
fn default_soup_is_empty() {
    let soup = Soup::new();
    assert_eq!(soup.len(), 0);
    assert_eq!(soup.collisions(), 0);
    assert_eq!(soup.limit(), alchemy::config::DEFAULT_CAPACITY);
}

#[test]
fn same_seed_same_run() {
    let start = ["λx.x", "λx.λy.x", "λx.λy.y", "λx.x x", "λf.λx.f (f x)"];
    let mut a = seeded(10, 500, 100);
    let mut b = seeded(10, 500, 100);
    a.perturb_text(&texts(&start));
    b.perturb_text(&texts(&start));
    assert_eq!(a.simulate_for(30, false), b.simulate_for(30, false));
    assert_eq!(a.expressions(), b.expressions());
}


#[test]
fn equal_seeds_give_equal_runs_in_steps() {
    let start = ["λx.x", "λx.λy.x", "λx.λy.y", "λx.x x", "λf.λx.f (f x)"];
    let mut a = seeded(10, 500, 100);
    let mut b = seeded(10, 500, 100);
    a.perturb_text(&texts(&start));
    b.perturb_text(&texts(&start));
    let whole = a.simulate_for(12, false);
    let mut parts = 0;
    for _ in 0..12 {
        parts += b.simulate_for(1, true);
    }
    assert_eq!(whole, parts);
    assert_eq!(a.expressions(), b.expressions());
    assert_eq!(a.collisions(), b.collisions());
}
