// Constant-time checks with dudect: the timings of two classes of inputs
// (equal and different operands) are compared.

use arcb_stegano_trapdoor::parameters::PUBKEY_BYTES;
use arcb_stegano_trapdoor::polynomial::Polynomial;
use dudect_bencher::ctbench::{
    run_benches_console, BenchMetadata, BenchName, BenchRng, Class, CtRunner,
};
use rand::{Rng, RngCore};
use std::hint::black_box;
use subtle::ConstantTimeEq;

const NUM_SAMPLES: usize = 100;

/// `ct_eq` on equal and on different byte arrays.
fn bench_ct_bytes_equal(runner: &mut CtRunner, rng: &mut BenchRng) {
    let polys: Vec<[u8; PUBKEY_BYTES]> = (0..NUM_SAMPLES * 2)
        .map(|_i| {
            let mut buf = [0u8; PUBKEY_BYTES];
            rng.fill(&mut buf);
            buf
        })
        .collect();

    for i in 0..NUM_SAMPLES {
        // Left: compare equal inputs (same data)
        let a = &polys[i * 2];
        runner.run_one(Class::Left, || black_box(a.ct_eq(a)));

        // Right: compare different inputs
        let b = &polys[i * 2 + 1];
        runner.run_one(Class::Right, || black_box(a.ct_eq(b)));
    }
}

/// Polynomial equality on different and on equal operands.
fn bench_poly_equals(runner: &mut CtRunner, rng: &mut BenchRng) {
    let polys: Vec<Polynomial> = (0..NUM_SAMPLES * 2)
        .map(|_| {
            let mut p = Polynomial::zero();
            rng.fill_bytes(p.as_bytes_mut());
            p
        })
        .collect();

    for i in 0..NUM_SAMPLES {
        let a = &polys[i * 2];
        let b = &polys[i * 2 + 1];

        // Left: equals() on different inputs
        runner.run_one(Class::Left, || black_box(a.equals(b)));
        // Right: equals() on same input
        runner.run_one(Class::Right, || black_box(a.equals(a)));
    }
}

#[test]
fn test_dudect_quick() {
    let benches = vec![
        BenchMetadata {
            name: BenchName("ct_bytes_equal"),
            seed: None,
            benchfn: bench_ct_bytes_equal,
        },
        BenchMetadata {
            name: BenchName("poly_equals"),
            seed: None,
            benchfn: bench_poly_equals,
        },
    ];

    let opts = dudect_bencher::ctbench::BenchOpts {
        continuous: false,
        filter: None,
        file_out: None,
    };

    run_benches_console(opts, benches).expect("dudect failed");
}
