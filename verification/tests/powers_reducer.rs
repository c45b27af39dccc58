//! The power-of-challenge reducers equal the naive weighted sums, across
//! lengths on both sides of any packing width.

use fri_pcs::ext::Ext;
use fri_pcs::field::{Fp, P};
use fri_pcs::two_adic_pcs::PowersReducer;
use rand::{Rng, RngExt};

fn random_fp(rng: &mut impl Rng) -> Fp {
    Fp::new(rng.random::<u32>() % P)
}

fn random_ext(rng: &mut impl Rng) -> Ext {
    Ext::new(
        random_fp(rng),
        random_fp(rng),
        random_fp(rng),
        random_fp(rng),
    )
}

#[test]
fn test_powers_reducer() {
    let mut rng = rand::rng();
    let alpha: Ext = random_ext(&mut rng);
    let n = 1000;
    let sizes = [5, 110, 512, 999, 1000];
    let r = PowersReducer::new(alpha, n);

    // check reduce_ext
    for size in sizes {
        let xs: Vec<Ext> = (0..size).map(|_| random_ext(&mut rng)).collect();
        let mut naive = Ext::zero();
        for (i, &x) in xs.iter().enumerate() {
            naive = naive.add(alpha.exp_u64(i as u64).mul(x));
        }
        assert_eq!(r.reduce_ext(&xs), naive);
    }

    // check reduce_base
    for size in sizes {
        let xs: Vec<Fp> = (0..size).map(|_| random_fp(&mut rng)).collect();
        let mut naive = Ext::zero();
        for (i, &x) in xs.iter().enumerate() {
            naive = naive.add(alpha.exp_u64(i as u64).mul(Ext::from_base(x)));
        }
        assert_eq!(r.reduce_base(&xs), naive);
    }
}
