use alchemy::config::{ConfigSeed, Reactor};
use alchemy::errors::{PyReactionError, ReactionErrorKind};
use alchemy::soup::{ReactionError, Soup};
use alchemy::term::parse_term;
use lambda_calculus::Term;

fn soup_of(v: &[&str]) -> Soup {
    let mut s = Soup::from_config(&Reactor {
        reduction_limit: 500,
        depth_limit: 100,
        size: 100,
        seed: ConfigSeed(Some([1u8; 32])),
    });
    s.perturb_text(&v.iter().map(|t| t.to_string()).collect());
    s
}

fn t(s: &str) -> Term {
    parse_term(s).unwrap()
}

fn entropy(s: &Soup) -> f64 {
    let n = s.len() as f64;
    let mut h = 0.0;
    for (_, c) in s.expression_counts() {
        let p = c as f64 / n;
        h -= p * p.log2();
    }
    h
}

#[test]
fn counts_follow_first_occurrence() {
    let s = soup_of(&["λx.x", "λx.λy.x", "λx.x", "λx.x x", "λx.λy.x", "λx.x"]);
    let counts = s.expression_counts();
    assert_eq!(counts, vec![(t("λx.x"), 3), (t("λx.λy.x"), 2), (t("λx.x x"), 1)]);
    assert_eq!(s.unique_expressions(), vec![t("λx.x"), t("λx.λy.x"), t("λx.x x")]);
}

#[test]
fn empty_soup_has_no_counts() {
    let s = soup_of(&[]);
    assert!(s.expression_counts().is_empty());
    assert!(s.unique_expressions().is_empty());
    assert!(s.k_most_frequent_exprs(3).is_empty());
    assert_eq!(entropy(&s), 0.0);
}

#[test]
fn top_k_takes_largest_counts_ascending() {
    let s = soup_of(&["λx.x", "λx.λy.x", "λx.x", "λx.x x", "λx.λy.x", "λx.x", "λx.λy.y"]);
    assert_eq!(s.k_most_frequent_exprs(2), vec![t("λx.λy.x"), t("λx.x")]);
    assert_eq!(s.k_most_frequent_exprs(1), vec![t("λx.x")]);
    assert_eq!(s.k_most_frequent_exprs(0), Vec::<Term>::new());
    let all = s.k_most_frequent_exprs(10);
    assert_eq!(all.len(), 4);
    assert_eq!(all[2], t("λx.λy.x"));
    assert_eq!(all[3], t("λx.x"));
}

#[test]
fn top_k_counts_are_the_largest() {
    let s = soup_of(&["λa.a a", "λx.x", "λx.x", "λx.λy.x", "λx.λy.x", "λx.λy.x", "λx.λy.y", "λx.λy.y"]);
    let counts = s.expression_counts();
    let count = |e: &Term| counts.iter().find(|(k, _)| k == e).unwrap().1;
    let top = s.k_most_frequent_exprs(3);
    let mut got: Vec<usize> = top.iter().map(count).collect();
    assert_eq!(got, vec![2, 2, 3]);
    got.sort();
    let mut all: Vec<usize> = counts.iter().map(|(_, c)| *c).collect();
    all.sort();
    assert_eq!(got, all[all.len() - 3..].to_vec());
}

#[test]
fn jaccard_of_soup_with_itself_is_one() {
    let s = soup_of(&["λx.x", "λx.x", "λx.λy.x"]);
    let (i, u) = s.jaccard_index(&s);
    assert_eq!(i, u);
    assert_eq!((i, u), (3, 3));
    let e = soup_of(&[]);
    assert_eq!(e.jaccard_index(&e), (1, 1));
}

#[test]
fn jaccard_counts_shared_multiplicity() {
    let a = soup_of(&["λx.x", "λx.x", "λx.λy.x"]);
    let b = soup_of(&["λx.x", "λx.λy.y", "λx.λy.y", "λx.x x"]);
    // shared: one identity; union: 3 + 4 - 1.
    assert_eq!(a.jaccard_index(&b), (1, 6));
    assert_eq!(b.jaccard_index(&a), (1, 6));
    let e = soup_of(&[]);
    assert_eq!(a.jaccard_index(&e), (0, 3));
    assert_eq!(e.jaccard_index(&a), (0, 3));
}

#[test]
fn entropy_of_copies_and_of_distinct_terms() {
    let copies = soup_of(&["λx.x", "λx.x", "λx.x", "λx.x"]);
    assert_eq!(entropy(&copies), 0.0);
    let distinct = soup_of(&["λx.x", "λx.λy.x", "λx.λy.y", "λx.x x"]);
    assert!((entropy(&distinct) - 2.0).abs() < 1e-9);
}

#[test]
fn error_kinds_map_one_to_one() {
    let pairs = [
        (ReactionError::ExceedsReductionLimit, ReactionErrorKind::ExceedsReductionLimit),
        (ReactionError::NotEnoughExpressions, ReactionErrorKind::NotEnoughExpressions),
        (ReactionError::IsIdentity, ReactionErrorKind::IsIdentity),
        (ReactionError::IsParent, ReactionErrorKind::IsParent),
        (ReactionError::HasFreeVariables, ReactionErrorKind::HasFreeVariables),
        (ReactionError::ExceedsDepthLimit, ReactionErrorKind::ExceedsDepthLimit),
    ];
    for (e, k) in pairs {
        assert_eq!(PyReactionError::from_error(e).kind, k);
    }
}
