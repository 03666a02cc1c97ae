//! The preparation stage: lays the masked and out-of-domain points, the
//! per-column line coefficients and the prepared (inversion-free) points
//! above the challenge region, then computes the coefficient power series
//! c^6, c^5, ..., c^1 of the combination coefficient by emitted repeated
//! multiplication, so every later query check can consume the powers
//! without recomputation.
use vstd::prelude::*;

use crate::field::lemma_qpow_valid;
use crate::field::qmul;
use crate::field::qpow;
use crate::ir::append_code;
use crate::ir::emit_one;
use crate::ir::emit_pick_q;
use crate::ir::emit_push_q;
use crate::ir::lemma_q_binop;
use crate::ir::lemma_run_app;
use crate::ir::lemma_add_assoc;
use crate::ir::q_items;
use crate::ir::run;
use crate::ir::Instr;
use crate::regions::fs_region;
use crate::regions::lemma_fs_region_len;
use crate::regions::line_items;
use crate::regions::lines_part;
use crate::regions::point_items;
use crate::regions::points_part;
use crate::regions::powers_part;
use crate::regions::prepare_region;
use crate::regions::preps_part;
use crate::regions::CirclePoint;
use crate::regions::LinePair;
use crate::regions::PrepareHints;
use crate::regions::VerifierInput;

verus! {

/// Emits the four items of one line-coefficient pair.
fn emit_line(lp: &LinePair) -> (frag: Vec<Instr>)
    ensures
        forall|s: Seq<u32>| #[trigger] run(s, frag@) == Some(s + line_items(*lp)),
{
    let mut v: Vec<Instr> = Vec::new();
    v.push(Instr::PushItem(lp.a0));
    v.push(Instr::PushItem(lp.a1));
    v.push(Instr::PushItem(lp.b0));
    v.push(Instr::PushItem(lp.b1));
    proof {
        assert forall|s: Seq<u32>| #[trigger] run(s, v@) == Some(s + line_items(*lp)) by {
            let p0 = Seq::<Instr>::empty();
            let p1 = p0.push(Instr::PushItem(lp.a0));
            let p2 = p1.push(Instr::PushItem(lp.a1));
            let p3 = p2.push(Instr::PushItem(lp.b0));
            crate::ir::lemma_run_snoc(s, p0, Instr::PushItem(lp.a0));
            crate::ir::lemma_run_snoc(s, p1, Instr::PushItem(lp.a1));
            crate::ir::lemma_run_snoc(s, p2, Instr::PushItem(lp.b0));
            crate::ir::lemma_run_snoc(s, p3, Instr::PushItem(lp.b1));
            assert(v@ =~= p3.push(Instr::PushItem(lp.b1)));
            assert(s.push(lp.a0).push(lp.a1).push(lp.b0).push(lp.b1) =~= s + line_items(*lp));
        }
    }
    v
}

/// Emits the eight items of one point: x then y.
fn emit_point(p: &CirclePoint) -> (frag: Vec<Instr>)
    requires
        p.wf(),
    ensures
        forall|s: Seq<u32>| #[trigger] run(s, frag@) == Some(s + point_items(*p)),
{
    let mut frag = emit_push_q(&p.x);
    let ghost c1 = frag@;
    let tail = emit_push_q(&p.y);
    let ghost tl = tail@;
    append_code(&mut frag, tail);
    proof {
        assert forall|s: Seq<u32>| #[trigger] run(s, frag@) == Some(s + point_items(*p)) by {
            lemma_run_app(s, c1, tl);
            assert(s + q_items(p.x.t()) + q_items(p.y.t()) =~= s + point_items(*p));
        }
    }
    frag
}

/// Emits the raw point part: the three masked points, then the
/// out-of-domain point.
fn emit_points_part(h: &PrepareHints) -> (frag: Vec<Instr>)
    requires
        h.wf(),
    ensures
        forall|s: Seq<u32>| #[trigger] run(s, frag@) == Some(s + points_part(*h)),
{
    let mut frag = emit_point(&h.masked0);
    let ghost c1 = frag@;
    let t1 = emit_point(&h.masked1);
    let ghost f1 = t1@;
    append_code(&mut frag, t1);
    let ghost c2 = frag@;
    let t2 = emit_point(&h.masked2);
    let ghost f2 = t2@;
    append_code(&mut frag, t2);
    let ghost c3 = frag@;
    let t3 = emit_point(&h.oods);
    let ghost f3 = t3@;
    append_code(&mut frag, t3);
    proof {
        assert forall|s: Seq<u32>| #[trigger] run(s, frag@) == Some(s + points_part(*h)) by {
            lemma_run_app(s, c1, f1);
            assert(c2 =~= c1 + f1);
            lemma_run_app(s, c2, f2);
            assert(c3 =~= c2 + f2);
            lemma_run_app(s, c3, f3);
            assert(s + point_items(h.masked0) + point_items(h.masked1) + point_items(h.masked2)
                + point_items(h.oods) =~= s + points_part(*h));
        }
    }
    frag
}

/// Emits the line-coefficient part: the three trace pairs, then the four
/// composition pairs.
fn emit_lines_part(h: &PrepareHints) -> (frag: Vec<Instr>)
    requires
        h.wf(),
    ensures
        forall|s: Seq<u32>| #[trigger] run(s, frag@) == Some(s + lines_part(*h)),
{
    let mut frag = emit_line(&h.line_t0);
    let ghost c1 = frag@;
    let t1 = emit_line(&h.line_t1);
    let ghost f1 = t1@;
    append_code(&mut frag, t1);
    let ghost c2 = frag@;
    let t2 = emit_line(&h.line_t2);
    let ghost f2 = t2@;
    append_code(&mut frag, t2);
    let ghost c3 = frag@;
    let t3 = emit_line(&h.line_c0);
    let ghost f3 = t3@;
    append_code(&mut frag, t3);
    let ghost c4 = frag@;
    let t4 = emit_line(&h.line_c1);
    let ghost f4 = t4@;
    append_code(&mut frag, t4);
    let ghost c5 = frag@;
    let t5 = emit_line(&h.line_c2);
    let ghost f5 = t5@;
    append_code(&mut frag, t5);
    let ghost c6 = frag@;
    let t6 = emit_line(&h.line_c3);
    let ghost f6 = t6@;
    append_code(&mut frag, t6);
    proof {
        assert forall|s: Seq<u32>| #[trigger] run(s, frag@) == Some(s + lines_part(*h)) by {
            lemma_run_app(s, c1, f1);
            assert(c2 =~= c1 + f1);
            lemma_run_app(s, c2, f2);
            assert(c3 =~= c2 + f2);
            lemma_run_app(s, c3, f3);
            assert(c4 =~= c3 + f3);
            lemma_run_app(s, c4, f4);
            assert(c5 =~= c4 + f4);
            lemma_run_app(s, c5, f5);
            assert(c6 =~= c5 + f5);
            lemma_run_app(s, c6, f6);
            assert(s + line_items(h.line_t0) + line_items(h.line_t1) + line_items(h.line_t2)
                + line_items(h.line_c0) + line_items(h.line_c1) + line_items(h.line_c2)
                + line_items(h.line_c3) =~= s + lines_part(*h));
        }
    }
    frag
}

/// Emits the prepared-point part: the three prepared masked points, then
/// the prepared out-of-domain point.
fn emit_preps_part(h: &PrepareHints) -> (frag: Vec<Instr>)
    requires
        h.wf(),
    ensures
        forall|s: Seq<u32>| #[trigger] run(s, frag@) == Some(s + preps_part(*h)),
{
    let mut frag = emit_push_q(&h.prep_m0);
    let ghost c1 = frag@;
    let t1 = emit_push_q(&h.prep_m1);
    let ghost f1 = t1@;
    append_code(&mut frag, t1);
    let ghost c2 = frag@;
    let t2 = emit_push_q(&h.prep_m2);
    let ghost f2 = t2@;
    append_code(&mut frag, t2);
    let ghost c3 = frag@;
    let t3 = emit_push_q(&h.prep_oods);
    let ghost f3 = t3@;
    append_code(&mut frag, t3);
    proof {
        assert forall|s: Seq<u32>| #[trigger] run(s, frag@) == Some(s + preps_part(*h)) by {
            lemma_run_app(s, c1, f1);
            assert(c2 =~= c1 + f1);
            lemma_run_app(s, c2, f2);
            assert(c3 =~= c2 + f2);
            lemma_run_app(s, c3, f3);
            assert(s + q_items(h.prep_m0.t()) + q_items(h.prep_m1.t()) + q_items(h.prep_m2.t())
                + q_items(h.prep_oods.t()) =~= s + preps_part(*h));
        }
    }
    frag
}

/// The first `j` entries of the power series, highest power first.
pub open spec fn powers_take(c: (int, int, int, int), j: int) -> Seq<u32>
    decreases j,
{
    if j <= 0 {
        Seq::empty()
    } else {
        powers_take(c, j - 1) + q_items(qpow(c, (7 - j) as nat))
    }
}

pub proof fn lemma_powers_take_full(c: (int, int, int, int))
    ensures
        powers_take(c, 6) == powers_part(c),
{
    assert(powers_take(c, 0) == Seq::<u32>::empty());
    assert(Seq::<u32>::empty() + q_items(qpow(c, 6)) =~= q_items(qpow(c, 6)));
    assert(powers_take(c, 1) == q_items(qpow(c, 6)));
    assert(powers_take(c, 2) == q_items(qpow(c, 6)) + q_items(qpow(c, 5)));
    assert(powers_take(c, 3) == q_items(qpow(c, 6)) + q_items(qpow(c, 5)) + q_items(qpow(c, 4)));
    assert(powers_take(c, 4) == q_items(qpow(c, 6)) + q_items(qpow(c, 5)) + q_items(qpow(c, 4))
        + q_items(qpow(c, 3)));
    assert(powers_take(c, 5) == q_items(qpow(c, 6)) + q_items(qpow(c, 5)) + q_items(qpow(c, 4))
        + q_items(qpow(c, 3)) + q_items(qpow(c, 2)));
    assert(powers_take(c, 6) == powers_part(c));
}

#[verifier::rlimit(100)]
/// Emits the block that computes and leaves the power c^(6 - j), picking
/// the combination coefficient from the bottom of the challenge region and
/// multiplying it onto a running product.
fn emit_power(inp: &VerifierInput, j: usize) -> (frag: Vec<Instr>)
    requires
        inp.wf(),
        j < 6,
    ensures
        forall|s: Seq<u32>|
            #[trigger] run(
                s + fs_region(*inp) + prepare_front(*inp) + powers_take(
                    inp.circle_poly_alpha.t(),
                    j as int,
                ),
                frag@,
            ) == Some(
                s + fs_region(*inp) + prepare_front(*inp) + powers_take(
                    inp.circle_poly_alpha.t(),
                    j as int + 1,
                ),
            ),
{
    let ghost c = inp.circle_poly_alpha.t();
    let fsl: usize = 8 + 5 * inp.layers.len() + 11 * inp.queries.len();
    let above0: usize = 76 + 4 * j;
    proof {
        lemma_fs_region_len(*inp);
        lemma_powers_take_len(c, j as int);
    }
    // first pick: the coefficient itself, the running product c^1
    let mut frag = emit_pick_q(fsl + above0 - 1);
    proof {
        lemma_qpow_valid(c, 1);
        crate::field::lemma_qpow_one(c);
        assert forall|s: Seq<u32>|
            #[trigger] run(
                s + fs_region(*inp) + prepare_front(*inp) + powers_take(c, j as int),
                frag@,
            ) == Some(
                s + fs_region(*inp) + prepare_front(*inp) + powers_take(c, j as int) + q_items(
                    qpow(c, 1),
                ),
            ) by {
            let st = s + fs_region(*inp) + prepare_front(*inp) + powers_take(c, j as int);
            let d: int = (fsl + above0 - 1) as int;
            assert(st.len() == s.len() + fsl + above0);
            assert(st.len() - 1 - d == s.len());
            lemma_coeff_pick(s, *inp, prepare_front(*inp) + powers_take(c, j as int));
            lemma_add_assoc(s + fs_region(*inp), prepare_front(*inp), powers_take(c, j as int));
            assert(st.subrange(s.len() as int, s.len() as int + 4) == q_items(c));
        }
    }
    // remaining multiplications: each picks the coefficient and multiplies
    let steps: usize = 5 - j;
    let mut t: usize = 0;
    while t < steps
        invariant
            inp.wf(),
            c == inp.circle_poly_alpha.t(),
            fsl == 8 + 5 * inp.layers@.len() + 11 * inp.queries@.len(),
            above0 == 76 + 4 * j,
            j < 6,
            steps == 5 - j,
            t <= steps,
            forall|s: Seq<u32>|
                #[trigger] run(
                    s + fs_region(*inp) + prepare_front(*inp) + powers_take(c, j as int),
                    frag@,
                ) == Some(
                    s + fs_region(*inp) + prepare_front(*inp) + powers_take(c, j as int) + q_items(
                        qpow(c, (t + 1) as nat),
                    ),
                ),
        decreases steps - t,
    {
        let ghost prev = frag@;
        let pick = emit_pick_q(fsl + above0 + 3);
        let ghost pk = pick@;
        append_code(&mut frag, pick);
        let ghost mid = frag@;
        let mulf = emit_one(Instr::QMul);
        let ghost mf = mulf@;
        append_code(&mut frag, mulf);
        proof {
            lemma_fs_region_len(*inp);
            lemma_powers_take_len(c, j as int);
            lemma_qpow_valid(c, (t + 1) as nat);
            crate::field::lemma_qpow_one(c);
            assert forall|s: Seq<u32>|
                #[trigger] run(
                    s + fs_region(*inp) + prepare_front(*inp) + powers_take(c, j as int),
                    frag@,
                ) == Some(
                    s + fs_region(*inp) + prepare_front(*inp) + powers_take(c, j as int) + q_items(
                        qpow(c, (t + 2) as nat),
                    ),
                ) by {
                let base = s + fs_region(*inp) + prepare_front(*inp) + powers_take(c, j as int);
                lemma_run_app(base, prev, pk);
                assert(mid =~= prev + pk);
                lemma_run_app(base, mid, mf);
                // the pick copies the coefficient from the region bottom
                let st = base + q_items(qpow(c, (t + 1) as nat));
                let d: int = (fsl + above0 + 3) as int;
                assert(st.len() == s.len() + fsl + above0 + 4);
                assert(st.len() - 1 - d == s.len());
                lemma_add_assoc(
                    s + fs_region(*inp) + prepare_front(*inp),
                    powers_take(c, j as int),
                    q_items(qpow(c, (t + 1) as nat)),
                );
                lemma_add_assoc(
                    s + fs_region(*inp),
                    prepare_front(*inp),
                    powers_take(c, j as int) + q_items(qpow(c, (t + 1) as nat)),
                );
                lemma_coeff_pick(
                    s,
                    *inp,
                    prepare_front(*inp) + (powers_take(c, j as int) + q_items(
                        qpow(c, (t + 1) as nat),
                    )),
                );
                assert(st.subrange(s.len() as int, s.len() as int + 4) == q_items(c));
                // the multiplication folds it onto the running product
                lemma_q_binop(base, qpow(c, (t + 1) as nat), c);
                assert(qmul(qpow(c, (t + 1) as nat), c) == qpow(c, (t + 2) as nat));
            }
        }
        t = t + 1;
    }
    proof {
        assert((steps + 1) as nat == (6 - j) as nat);
        assert(powers_take(c, j as int + 1) == powers_take(c, j as int) + q_items(
            qpow(c, (6 - j) as nat),
        ));
        assert forall|s: Seq<u32>|
            #[trigger] run(
                s + fs_region(*inp) + prepare_front(*inp) + powers_take(c, j as int),
                frag@,
            ) == Some(s + fs_region(*inp) + prepare_front(*inp) + powers_take(c, j as int + 1)) by {
            lemma_add_assoc(
                s + fs_region(*inp) + prepare_front(*inp),
                powers_take(c, j as int),
                q_items(qpow(c, (6 - j) as nat)),
            );
        }
    }
    frag
}

/// The combination coefficient sits in the four bottom items of the
/// challenge region, whatever lies above it.
proof fn lemma_coeff_pick(s: Seq<u32>, inp: VerifierInput, rest: Seq<u32>)
    ensures
        (s + fs_region(inp) + rest).subrange(s.len() as int, s.len() as int + 4) == q_items(
            inp.circle_poly_alpha.t(),
        ),
{
    lemma_fs_region_len(inp);
    assert((s + fs_region(inp) + rest).subrange(s.len() as int, s.len() as int + 4) =~= q_items(
        inp.circle_poly_alpha.t(),
    ));
}

/// Everything the preparation stage lays down before the power series.
pub open spec fn prepare_front(inp: VerifierInput) -> Seq<u32> {
    points_part(inp.prepare) + lines_part(inp.prepare) + preps_part(inp.prepare)
}

pub proof fn lemma_powers_take_len(c: (int, int, int, int), j: int)
    requires
        0 <= j <= 6,
    ensures
        powers_take(c, j).len() == 4 * j,
    decreases j,
{
    if j > 0 {
        lemma_powers_take_len(c, j - 1);
    }
}

/// The preparation stage of the verifier pipeline.
pub struct FibonacciPrepareGadget;

impl FibonacciPrepareGadget {
    /// Emits the whole prepared region above an intact challenge region:
    /// the raw points, the line coefficients, the prepared points, then
    /// the computed power series c^6, c^5, ..., c^1 of the combination
    /// coefficient.
    pub fn run(inp: &VerifierInput) -> (code: Vec<Instr>)
        requires
            inp.wf(),
        ensures
            forall|s: Seq<u32>|
                #[trigger] run(s + fs_region(*inp), code@) == Some(
                    s + fs_region(*inp) + prepare_region(*inp),
                ),
    {
        let ghost c = inp.circle_poly_alpha.t();
        let mut code = emit_points_part(&inp.prepare);
        let ghost c1 = code@;
        let t1 = emit_lines_part(&inp.prepare);
        let ghost f1 = t1@;
        append_code(&mut code, t1);
        let ghost c2 = code@;
        let t2 = emit_preps_part(&inp.prepare);
        let ghost f2 = t2@;
        append_code(&mut code, t2);
        proof {
            assert forall|s: Seq<u32>|
                #[trigger] run(s + fs_region(*inp), code@) == Some(
                    s + fs_region(*inp) + prepare_front(*inp) + powers_take(c, 0),
                ) by {
                let base = s + fs_region(*inp);
                lemma_run_app(base, c1, f1);
                assert(c2 =~= c1 + f1);
                lemma_run_app(base, c2, f2);
                assert(base + points_part(inp.prepare) + lines_part(inp.prepare) + preps_part(
                    inp.prepare,
                ) =~= base + prepare_front(*inp) + powers_take(c, 0));
            }
        }
        let mut j: usize = 0;
        while j < 6
            invariant
                inp.wf(),
                c == inp.circle_poly_alpha.t(),
                j <= 6,
                forall|s: Seq<u32>|
                    #[trigger] run(s + fs_region(*inp), code@) == Some(
                        s + fs_region(*inp) + prepare_front(*inp) + powers_take(c, j as int),
                    ),
            decreases 6 - j,
        {
            let ghost prev = code@;
            let frag = emit_power(inp, j);
            let ghost fr = frag@;
            append_code(&mut code, frag);
            proof {
                assert forall|s: Seq<u32>|
                    #[trigger] run(s + fs_region(*inp), code@) == Some(
                        s + fs_region(*inp) + prepare_front(*inp) + powers_take(c, j as int + 1),
                    ) by {
                    lemma_run_app(s + fs_region(*inp), prev, fr);
                }
            }
            j = j + 1;
        }
        proof {
            lemma_powers_take_full(c);
            assert forall|s: Seq<u32>|
                #[trigger] run(s + fs_region(*inp), code@) == Some(
                    s + fs_region(*inp) + prepare_region(*inp),
                ) by {
                assert(s + fs_region(*inp) + prepare_front(*inp) + powers_take(c, 6) =~= s
                    + fs_region(*inp) + prepare_region(*inp));
            }
        }
        code
    }
}

} // verus!
