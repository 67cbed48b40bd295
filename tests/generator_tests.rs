use alchemy::config::{self, ConfigSeed};
use alchemy::generators::{standardize, BTreeGen, Expr, FontanaGen, InvalidArgument, Standardization};
use alchemy::hex::{decode_hex, encode_hex, HexError};
use alchemy::rng::Rng;

fn btree(size: u32, p: u32, max_free: u32, std: Standardization) -> BTreeGen {
    BTreeGen::from_config(&config::BTreeGen {
        size,
        freevar_generation_probability: p,
        n_max_free_vars: max_free,
        standardization: std,
        seed: ConfigSeed(Some([0u8; 32])),
    })
}

fn fontana(max_depth: u32, max_free: u32) -> FontanaGen {
    FontanaGen::from_config(&config::FontanaGen {
        abstraction_prob_range: (400_000, 100_000),
        application_prob_range: (300_000, 100_000),
        max_depth,
        n_max_free_vars: max_free,
        seed: ConfigSeed(Some([0u8; 32])),
    })
}

#[test]
fn btree_without_free_variables_gives_closed_terms() {
    let mut g = btree(5, 0, 0, Standardization::Unchanged);
    for _ in 0..200 {
        let t = g.generate();
        assert!(!t.has_free_variables());
    }
}

#[test]
fn btree_with_free_variables_stays_in_budget() {
    let mut g = btree(8, 500_000, 2, Standardization::Prefix);
    let mut saw_free = false;
    for _ in 0..200 {
        let t = g.generate();
        assert!(t.max_free_index() <= 2);
        saw_free |= t.has_free_variables();
    }
    assert!(saw_free);
}

#[test]
fn btree_generate_n_is_sequential_generation() {
    let mut a = btree(6, 0, 0, Standardization::Prefix);
    let mut b = btree(6, 0, 0, Standardization::Prefix);
    let many = a.generate_n(5);
    let one_by_one: Vec<_> = (0..5).map(|_| b.generate()).collect();
    assert_eq!(many, one_by_one);
    assert_eq!(a.generate(), b.generate());
}

#[test]
fn default_btree_is_closed() {
    let mut g = BTreeGen::new();
    assert!(!g.generate().has_free_variables());
}

#[test]
fn fontana_respects_depth_and_budget() {
    let mut g = fontana(4, 1);
    let mut made = 0;
    for _ in 0..200 {
        if let Some(t) = g.generate() {
            made += 1;
            assert!(t.max_depth() <= 4);
            assert!(t.max_free_index() <= 1);
        }
    }
    assert!(made > 0);
}

#[test]
fn fontana_without_free_variables_can_dead_end() {
    let mut g = fontana(0, 0);
    assert!(g.generate().is_none());
}

fn v(i: usize) -> Expr {
    Expr::Var(i)
}

fn app(l: Expr, r: Expr) -> Expr {
    Expr::App(Box::new(l), Box::new(r))
}

fn lam(b: Expr) -> Expr {
    Expr::Abs(Box::new(b))
}

fn show(e: &Expr) -> String {
    format!("{:?}", e)
}

#[test]
fn standardize_numbers_free_variables() {
    // free variables 3 and 1, then 3 again under a binder (index 4 there)
    let e = app(app(v(3), v(1)), lam(app(v(4), v(1))));
    let pre = standardize(&e, Standardization::Prefix, 3);
    assert_eq!(show(&pre), show(&app(app(v(1), v(2)), lam(app(v(2), v(1))))));
    let post = standardize(&e, Standardization::Postfix, 3);
    assert_eq!(show(&post), show(&app(app(v(1), v(2)), lam(app(v(2), v(1))))));
    let e2 = app(v(2), v(1));
    assert_eq!(show(&standardize(&e2, Standardization::Prefix, 2)), show(&app(v(1), v(2))));
    assert_eq!(show(&standardize(&e2, Standardization::Postfix, 2)), show(&app(v(2), v(1))));
    assert_eq!(show(&standardize(&e2, Standardization::Unchanged, 2)), show(&e2));
    let closed = lam(app(v(1), v(1)));
    assert_eq!(show(&standardize(&closed, Standardization::Prefix, 0)), show(&closed));
}

#[test]
fn standardization_tags() {
    assert_eq!(Standardization::from_tag("prefix"), Ok(Standardization::Prefix));
    assert_eq!(Standardization::from_tag("postfix"), Ok(Standardization::Postfix));
    assert_eq!(Standardization::from_tag("none"), Ok(Standardization::Unchanged));
    assert_eq!(Standardization::from_tag("Prefix"), Err(InvalidArgument));
    assert_eq!(Standardization::from_tag(""), Err(InvalidArgument));
    assert_eq!(Standardization::from_tag("prefix "), Err(InvalidArgument));
}

#[test]
fn hex_encodes_known_bytes() {
    assert_eq!(encode_hex(&[0x00, 0xff, 0x10, 0xab]), "00ff10ab");
    assert_eq!(encode_hex(&[]), "");
}

#[test]
fn hex_round_trip() {
    let all: Vec<u8> = (0..=255u8).collect();
    assert_eq!(decode_hex(&encode_hex(&all)), Ok(all));
    assert_eq!(decode_hex(""), Ok(vec![]));
    assert_eq!(decode_hex("DEADbeef"), Ok(vec![0xde, 0xad, 0xbe, 0xef]));
}

#[test]
fn hex_rejects_bad_text() {
    assert_eq!(decode_hex("abc"), Err(HexError::OddLength));
    assert_eq!(decode_hex("zz"), Err(HexError::InvalidDigit));
    assert_eq!(decode_hex("0g"), Err(HexError::InvalidDigit));
    assert_eq!(decode_hex("éa"), Err(HexError::OddLength));
    assert_eq!(decode_hex("é"), Err(HexError::InvalidDigit));
}

#[test]
fn rng_is_reproducible_and_bounded() {
    let mut a = Rng::from_seed([3u8; 32]);
    let mut b = Rng::from_seed([3u8; 32]);
    let mut c = Rng::from_seed([4u8; 32]);
    let xs: Vec<u64> = (0..10).map(|_| a.next_u64()).collect();
    let ys: Vec<u64> = (0..10).map(|_| b.next_u64()).collect();
    let zs: Vec<u64> = (0..10).map(|_| c.next_u64()).collect();
    assert_eq!(xs, ys);
    assert_ne!(xs, zs);
    for _ in 0..100 {
        assert!(a.below(7) < 7);
    }
    // SplitMix64 from state 0 starts with this value.
    assert_eq!(Rng::from_state(0).next_u64(), 0xE220_A839_7B1D_CDAF);
}

#[test]
fn fontana_with_free_variables_never_dead_ends() {
    let mut g = fontana(5, 2);
    for _ in 0..200 {
        assert!(g.generate().is_some());
    }
}

#[test]
fn equal_configs_give_equal_terms() {
    let mut a = btree(7, 300_000, 2, Standardization::Postfix);
    let mut b = btree(7, 300_000, 2, Standardization::Postfix);
    assert_eq!(a.generate_n(20), b.generate_n(20));
    let mut f = fontana(5, 1);
    let mut g = fontana(5, 1);
    for _ in 0..20 {
        assert_eq!(f.generate(), g.generate());
    }
}
