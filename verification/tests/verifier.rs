use stark_verifier_gadget::fiat_shamir::FibonacciFiatShamirGadget;
use stark_verifier_gadget::field::cm31_mul;
use stark_verifier_gadget::field::m31_sub;
use stark_verifier_gadget::field::QM31;
use stark_verifier_gadget::field::P;
use stark_verifier_gadget::interp::execute;
use stark_verifier_gadget::ir::Instr;
use stark_verifier_gadget::prepare::FibonacciPrepareGadget;
use stark_verifier_gadget::regions::CirclePoint;
use stark_verifier_gadget::regions::FriLayer;
use stark_verifier_gadget::regions::LinePair;
use stark_verifier_gadget::regions::PrepareHints;
use stark_verifier_gadget::regions::QueryFoldHints;
use stark_verifier_gadget::regions::QueryOpenings;
use stark_verifier_gadget::regions::VerifierInput;
use stark_verifier_gadget::FibonacciVerifierGadget;
use stark_verifier_gadget::FIB_LOG_SIZE;
use stark_verifier_gadget::N_QUERIES;

fn q(a: u32, b: u32, c: u32, d: u32) -> QM31 {
    QM31 { a, b, c, d }
}

/// A deterministic stream of reduced residues.
struct Gen(u64);

impl Gen {
    fn next(&mut self) -> u32 {
        self.0 = self.0.wrapping_mul(6364136223846793005).wrapping_add(1442695040888963407);
        ((self.0 >> 33) as u32) % P
    }

    fn next_q(&mut self) -> QM31 {
        q(self.next(), self.next(), self.next(), self.next())
    }
}

/// The pair (x, y) evaluated against a line: x * a - b over CM31.
fn line_dev(v: u32, lp: &LinePair) -> QM31 {
    let m = cm31_mul(v, 0, lp.a0, lp.a1);
    q(m31_sub(m.0, lp.b0), m31_sub(m.1, lp.b1), 0, 0)
}

/// The quotient seed of one query, computed value-side: seven deviations
/// weighted by the coefficient powers, highest power first.
fn seed_of(inp: &VerifierInput, i: usize) -> QM31 {
    let c = inp.circle_poly_alpha;
    let mut pow = [q(1, 0, 0, 0); 7];
    for k in 1..7 {
        pow[k] = QM31::mul(&pow[k - 1], &c);
    }
    let qo = &inp.queries[i];
    let vals = [
        qo.trace0, qo.trace1, qo.trace1, qo.comp0, qo.comp2, qo.comp4, qo.comp6,
    ];
    let lines = [
        &inp.prepare.line_t0,
        &inp.prepare.line_t1,
        &inp.prepare.line_t2,
        &inp.prepare.line_c0,
        &inp.prepare.line_c1,
        &inp.prepare.line_c2,
        &inp.prepare.line_c3,
    ];
    let preps = [
        &inp.prepare.prep_m0,
        &inp.prepare.prep_m1,
        &inp.prepare.prep_m2,
        &inp.prepare.prep_oods,
    ];
    let mut acc = q(0, 0, 0, 0);
    for j in 0..7 {
        let prep = preps[if j < 3 { j } else { 3 }];
        let t = QM31::mul(&line_dev(vals[j], lines[j]), prep);
        let w = if j < 6 { QM31::mul(&t, &pow[6 - j]) } else { t };
        acc = if j == 0 { w } else { QM31::add(&acc, &w) };
    }
    acc
}

/// The fully folded value of one query, computed value-side.
fn final_of(inp: &VerifierInput, i: usize) -> QM31 {
    let mut cur = seed_of(inp, i);
    let mut pos = inp.queries[i].index;
    for l in 0..inp.layers.len() {
        let sib = inp.fold_hints[i].siblings[l];
        let itw = inp.fold_hints[i].itwiddles[l];
        let alpha = inp.layers[l].alpha;
        let (x, y) = if pos % 2 == 0 { (cur, sib) } else { (sib, cur) };
        let m2 = QM31::mul(&QM31::mul(&QM31::sub(&x, &y), &itw), &alpha);
        cur = QM31::add(&m2, &QM31::add(&x, &y));
        pos /= 2;
    }
    cur
}

/// A structurally valid input with pseudorandom values: every query is the
/// same probe, so one last-layer constant fits them all.
fn sample_input(n_layers: usize, n_queries: usize, seed: u64) -> VerifierInput {
    let mut g = Gen(seed);
    let mut layers = Vec::new();
    for _ in 0..n_layers {
        layers.push(FriLayer { commitment: g.next(), alpha: g.next_q() });
    }
    let query = QueryOpenings {
        index: g.next(),
        trace0: g.next(),
        trace1: g.next(),
        comp0: g.next(),
        comp1: g.next(),
        comp2: g.next(),
        comp3: g.next(),
        comp4: g.next(),
        comp5: g.next(),
        comp6: g.next(),
        comp7: g.next(),
    };
    let mut queries = Vec::new();
    let mut fold_hints = Vec::new();
    let mut siblings = Vec::new();
    let mut itwiddles = Vec::new();
    for _ in 0..n_layers {
        siblings.push(g.next_q());
        itwiddles.push(g.next_q());
    }
    for _ in 0..n_queries {
        queries.push(query);
        fold_hints.push(QueryFoldHints {
            siblings: siblings.clone(),
            itwiddles: itwiddles.clone(),
        });
    }
    let point = |g: &mut Gen| CirclePoint { x: g.next_q(), y: g.next_q() };
    let line = |g: &mut Gen| LinePair { a0: g.next(), a1: g.next(), b0: g.next(), b1: g.next() };
    let prepare = PrepareHints {
        masked0: point(&mut g),
        masked1: point(&mut g),
        masked2: point(&mut g),
        oods: point(&mut g),
        line_t0: line(&mut g),
        line_t1: line(&mut g),
        line_t2: line(&mut g),
        line_c0: line(&mut g),
        line_c1: line(&mut g),
        line_c2: line(&mut g),
        line_c3: line(&mut g),
        prep_m0: g.next_q(),
        prep_m1: g.next_q(),
        prep_m2: g.next_q(),
        prep_oods: g.next_q(),
    };
    let mut inp = VerifierInput {
        circle_poly_alpha: g.next_q(),
        layers,
        last_layer: q(0, 0, 0, 0),
        queries,
        prepare,
        fold_hints,
    };
    inp.last_layer = final_of(&inp, 0);
    inp
}

fn run_empty(prog: &Vec<Instr>) -> Option<Vec<u32>> {
    execute(prog, Vec::new())
}

/// A consistent input verifies, leaving exactly the success marker; one
/// flipped bit in the last-layer constant makes execution abort.
#[test]
fn test_verifier() {
    let mut inp = sample_input(FIB_LOG_SIZE as usize, N_QUERIES, 443693538);
    let prog = FibonacciVerifierGadget::run_verifier(&inp);
    let out = run_empty(&prog);
    assert_eq!(out, Some(vec![1u32]));

    inp.last_layer.a ^= 1;
    let prog2 = FibonacciVerifierGadget::run_verifier(&inp);
    assert_eq!(run_empty(&prog2), None);
}

/// The net stack effect is one marker and no residue for other valid
/// (size, query-count) pairs too.
#[test]
fn test_other_parameter_pairs() {
    for (l, n) in [(1usize, 1usize), (3, 2), (6, 4)] {
        let inp = sample_input(l, n, 7 + l as u64 * 31 + n as u64);
        let prog = FibonacciVerifierGadget::run_verifier(&inp);
        assert_eq!(run_empty(&prog), Some(vec![1u32]));
    }
}

/// The preparation stage leaves the series c^6, c^5, ..., c^1 as the top
/// 24 items, for ordinary, zero and unit coefficients alike.
#[test]
fn test_power_series() {
    for cval in [
        q(443693538, 12, 99, 1),
        q(0, 0, 0, 0),
        q(1, 0, 0, 0),
        q(P - 1, P - 1, P - 1, P - 1),
    ] {
        let mut inp = sample_input(2, 1, 5);
        inp.circle_poly_alpha = cval;
        let mut prog = FibonacciFiatShamirGadget::run(&inp);
        let mut tail = FibonacciPrepareGadget::run(&inp);
        prog.append(&mut tail);
        let stack = run_empty(&prog).expect("generation stages never abort");
        let fs_len = 8 + 5 * inp.layers.len() + 11 * inp.queries.len();
        assert_eq!(stack.len(), fs_len + 100);
        let mut p = q(1, 0, 0, 0);
        let mut powers = Vec::new();
        for _ in 0..6 {
            p = QM31::mul(&p, &cval);
            powers.push(p);
        }
        for j in 0..6 {
            let base = fs_len + 76 + 4 * j;
            let expect = powers[5 - j];
            assert_eq!(
                &stack[base..base + 4],
                &[expect.a, expect.b, expect.c, expect.d]
            );
        }
    }
}

/// The challenge region is laid out in the fixed protocol order, and the
/// generator is a pure function: the same input replays bit-identically.
#[test]
fn test_fiat_shamir_layout() {
    let inp = sample_input(4, 2, 99);
    let prog = FibonacciFiatShamirGadget::run(&inp);
    let again = FibonacciFiatShamirGadget::run(&inp);
    assert_eq!(prog, again);
    let stack = run_empty(&prog).expect("the challenge stage never aborts");
    let n_l = inp.layers.len();
    let n_q = inp.queries.len();
    assert_eq!(stack.len(), 8 + 5 * n_l + 11 * n_q);
    let c = inp.circle_poly_alpha;
    assert_eq!(&stack[0..4], &[c.a, c.b, c.c, c.d]);
    for l in 0..n_l {
        assert_eq!(stack[4 + 5 * l], inp.layers[l].commitment);
        let a = inp.layers[l].alpha;
        assert_eq!(&stack[5 + 5 * l..9 + 5 * l], &[a.a, a.b, a.c, a.d]);
    }
    let ll = inp.last_layer;
    assert_eq!(&stack[4 + 5 * n_l..8 + 5 * n_l], &[ll.a, ll.b, ll.c, ll.d]);
    for i in 0..n_q {
        assert_eq!(stack[8 + 5 * n_l + i], inp.queries[i].index);
        assert_eq!(stack[8 + 5 * n_l + n_q + 2 * i], inp.queries[i].trace0);
        assert_eq!(stack[8 + 5 * n_l + n_q + 2 * i + 1], inp.queries[i].trace1);
        assert_eq!(stack[8 + 5 * n_l + 3 * n_q + 8 * i], inp.queries[i].comp0);
        assert_eq!(stack[8 + 5 * n_l + 3 * n_q + 8 * i + 7], inp.queries[i].comp7);
    }
}

/// A single flipped bit in one query's opened trace or composition value
/// makes that query's terminal equality check fail.
#[test]
fn test_single_bit_mutation() {
    let base = sample_input(FIB_LOG_SIZE as usize, N_QUERIES, 42);
    let prog = FibonacciVerifierGadget::run_verifier(&base);
    assert_eq!(run_empty(&prog), Some(vec![1u32]));

    let mut t = base.clone();
    t.queries[1].trace0 ^= 1;
    assert_ne!(final_of(&t, 1), t.last_layer);
    let prog_t = FibonacciVerifierGadget::run_verifier(&t);
    assert_eq!(run_empty(&prog_t), None);

    let mut c = base.clone();
    c.queries[0].comp2 ^= 4;
    assert_ne!(final_of(&c, 0), c.last_layer);
    let prog_c = FibonacciVerifierGadget::run_verifier(&c);
    assert_eq!(run_empty(&prog_c), None);
}

/// Reordering two per-layer (commitment, challenge) pairs, holding every
/// value constant, changes the folded value and verification aborts.
#[test]
fn test_reorder_layers() {
    let base = sample_input(FIB_LOG_SIZE as usize, 1, 11);
    let prog = FibonacciVerifierGadget::run_verifier(&base);
    assert_eq!(run_empty(&prog), Some(vec![1u32]));

    let mut swapped = base.clone();
    swapped.layers.swap(0, 1);
    assert_ne!(final_of(&swapped, 0), final_of(&base, 0));
    assert_ne!(final_of(&swapped, 0), swapped.last_layer);
    let prog_s = FibonacciVerifierGadget::run_verifier(&swapped);
    assert_eq!(run_empty(&prog_s), None);
}

/// The interpreter aborts on stack underflow and on unreduced operands.
#[test]
fn test_interpreter_aborts() {
    assert_eq!(execute(&vec![Instr::QAdd], Vec::new()), None);
    assert_eq!(execute(&vec![Instr::PickItem(0)], Vec::new()), None);
    assert_eq!(execute(&vec![Instr::DropN(2)], vec![5]), None);
    let bad = vec![P, 0, 0, 0, 0, 0, 0, 1];
    assert_eq!(execute(&vec![Instr::QMul], bad), None);
}
