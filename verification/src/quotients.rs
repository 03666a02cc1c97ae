//! The per-query quotient stage: for one query, emits the code that
//! evaluates every opened value against its prepared line coefficients,
//! multiplies each deviation by the matching prepared point, weights the
//! terms by the coefficient power series (highest power on the first term),
//! and accumulates everything into the query's folded seed value, pushed
//! above the intact working region.
use vstd::prelude::*;

use crate::field::cmul;
use crate::field::csub;
use crate::field::cvalid;
use crate::field::lemma_cmul_valid;
use crate::field::lemma_qmul_valid;
use crate::field::lemma_qadd_valid;
use crate::field::lemma_qpow_valid;
use crate::field::qadd;
use crate::field::qmul;
use crate::field::qpow;
use crate::field::qvalid;
use crate::ir::append_code;
use crate::ir::c_items;
use crate::ir::emit_one;
use crate::ir::emit_pick_c;
use crate::ir::emit_pick_q;
use crate::ir::lemma_add_assoc;
use crate::ir::lemma_c_binop;
use crate::ir::lemma_q_binop;
use crate::ir::lemma_run_app;
use crate::ir::lemma_subrange_mid;
use crate::ir::q_items;
use crate::ir::run;
use crate::ir::Instr;
use crate::regions::full_region;
use crate::regions::lemma_full_comp_at;
use crate::regions::lemma_full_line_a;
use crate::regions::lemma_full_line_b;
use crate::regions::lemma_full_power_at;
use crate::regions::lemma_full_prep_at;
use crate::regions::lemma_full_region_len;
use crate::regions::lemma_full_trace_at;
use crate::regions::line_of;
use crate::regions::prep_of;
use crate::regions::VerifierInput;

verus! {

/// The opened value consumed by term `j` of query `i`: the trace openings
/// feed the three masked-point terms, the even composition items feed the
/// four composition terms.
pub open spec fn opened_val(inp: VerifierInput, i: int, j: int) -> int {
    let q = inp.queries@[i];
    if j == 0 {
        q.trace0 as int
    } else if j == 1 || j == 2 {
        q.trace1 as int
    } else if j == 3 {
        q.comp0 as int
    } else if j == 4 {
        q.comp2 as int
    } else if j == 5 {
        q.comp4 as int
    } else {
        q.comp6 as int
    }
}

/// Offset of that opened value in the full region.
pub open spec fn opened_off(inp: VerifierInput, i: int, j: int) -> int {
    if j < 3 {
        8 + 5 * inp.n_layers() + inp.n_queries() + 2 * i + (if j == 0 {
            0int
        } else {
            1int
        })
    } else {
        8 + 5 * inp.n_layers() + 3 * inp.n_queries() + 8 * i + 2 * (j - 3)
    }
}

/// Which prepared point weights term `j`: its own masked slot for the
/// trace terms, the out-of-domain slot for every composition term.
pub open spec fn prep_slot(j: int) -> int {
    if j < 3 {
        j
    } else {
        3
    }
}

/// The linear deviation of term `j`: the opened value evaluated against
/// the line (a, b), that is value * a - b.
#[verifier::opaque]
pub open spec fn term_dev(inp: VerifierInput, i: int, j: int) -> (int, int) {
    csub(
        cmul((opened_val(inp, i, j), 0), line_of(inp.prepare, j).a()),
        line_of(inp.prepare, j).b(),
    )
}

/// The deviation multiplied by the prepared point of the term.
#[verifier::opaque]
pub open spec fn term_base(inp: VerifierInput, i: int, j: int) -> (int, int, int, int) {
    qmul(
        (term_dev(inp, i, j).0, term_dev(inp, i, j).1, 0, 0),
        prep_of(inp.prepare, prep_slot(j)).t(),
    )
}

/// The term weighted by its entry of the coefficient power series; the
/// last term carries weight one.
#[verifier::opaque]
pub open spec fn term_weighted(inp: VerifierInput, i: int, j: int) -> (int, int, int, int) {
    if j < 6 {
        qmul(term_base(inp, i, j), qpow(inp.circle_poly_alpha.t(), (6 - j) as nat))
    } else {
        term_base(inp, i, j)
    }
}

/// The accumulated sum of the first `j` weighted terms, `1 <= j <= 7`.
pub open spec fn quotient_partial(inp: VerifierInput, i: int, j: int) -> (int, int, int, int)
    decreases j,
{
    if j <= 1 {
        term_weighted(inp, i, 0)
    } else {
        qadd(quotient_partial(inp, i, j - 1), term_weighted(inp, i, j - 1))
    }
}

/// The folded seed value of query `i`: all seven weighted terms summed.
pub open spec fn quotient_value(inp: VerifierInput, i: int) -> (int, int, int, int) {
    quotient_partial(inp, i, 7)
}

pub proof fn lemma_opened_valid(inp: VerifierInput, i: int, j: int)
    requires
        inp.wf(),
        0 <= i < inp.n_queries(),
    ensures
        crate::field::mvalid(opened_val(inp, i, j)),
{
    assert(inp.queries@[i].wf());
}

pub proof fn lemma_term_valid(inp: VerifierInput, i: int, j: int)
    requires
        inp.wf(),
        0 <= i < inp.n_queries(),
        0 <= j < 7,
    ensures
        cvalid(term_dev(inp, i, j)),
        qvalid(term_base(inp, i, j)),
        qvalid(term_weighted(inp, i, j)),
{
    reveal(term_dev);
    reveal(term_base);
    reveal(term_weighted);
    lemma_opened_valid(inp, i, j);
    lemma_cmul_valid((opened_val(inp, i, j), 0), line_of(inp.prepare, j).a());
    let d = term_dev(inp, i, j);
    lemma_qmul_valid((d.0, d.1, 0, 0), prep_of(inp.prepare, prep_slot(j)).t());
    if j < 6 {
        lemma_qpow_valid(inp.circle_poly_alpha.t(), (6 - j) as nat);
        lemma_qmul_valid(term_base(inp, i, j), qpow(inp.circle_poly_alpha.t(), (6 - j) as nat));
    }
}

pub proof fn lemma_partial_valid(inp: VerifierInput, i: int, j: int)
    requires
        inp.wf(),
        0 <= i < inp.n_queries(),
        1 <= j <= 7,
    ensures
        qvalid(quotient_partial(inp, i, j)),
    decreases j,
{
    if j <= 1 {
        lemma_term_valid(inp, i, 0);
    } else {
        lemma_partial_valid(inp, i, j - 1);
        lemma_term_valid(inp, i, j - 1);
        lemma_qadd_valid(quotient_partial(inp, i, j - 1), term_weighted(inp, i, j - 1));
    }
}

/// The quotient seed depends only on the combination coefficient, the
/// openings and the prepared values: two inputs that agree on those agree
/// on every partial sum.
pub proof fn lemma_quotient_same(a: VerifierInput, b: VerifierInput, i: int, j: int)
    requires
        a.circle_poly_alpha == b.circle_poly_alpha,
        a.queries@ == b.queries@,
        a.prepare == b.prepare,
        1 <= j <= 7,
    ensures
        quotient_partial(a, i, j) == quotient_partial(b, i, j),
    decreases j,
{
    reveal(term_dev);
    reveal(term_base);
    reveal(term_weighted);
    assert(opened_val(a, i, j - 1) == opened_val(b, i, j - 1));
    assert(term_dev(a, i, j - 1) == term_dev(b, i, j - 1));
    assert(term_base(a, i, j - 1) == term_base(b, i, j - 1));
    assert(term_weighted(a, i, j - 1) == term_weighted(b, i, j - 1));
    if j > 1 {
        lemma_quotient_same(a, b, i, j - 1);
    } else {
        assert(opened_val(a, i, 0) == opened_val(b, i, 0));
        assert(term_dev(a, i, 0) == term_dev(b, i, 0));
        assert(term_base(a, i, 0) == term_base(b, i, 0));
        assert(term_weighted(a, i, 0) == term_weighted(b, i, 0));
    }
}

/// Emits the first half of one term: the opened value extended to CM31 and
/// multiplied by the line's `a` coefficient.
#[verifier::rlimit(100)]
fn emit_term_scaled(inp: &VerifierInput, i: usize, j: usize, extra: usize) -> (frag: Vec<Instr>)
    requires
        inp.wf(),
        i < inp.queries@.len(),
        j < 7,
        extra <= 4,
    ensures
        forall|s: Seq<u32>, tail: Seq<u32>|
            tail.len() == extra ==> #[trigger] run(s + full_region(*inp) + tail, frag@) == Some(
                s + full_region(*inp) + tail + c_items(
                    cmul(
                        (opened_val(*inp, i as int, j as int), 0),
                        line_of(inp.prepare, j as int).a(),
                    ),
                ),
            ),
{
    let n_l = inp.layers.len();
    let n_q = inp.queries.len();
    let fsl: usize = 8 + 5 * n_l + 11 * n_q;
    let fl: usize = fsl + 100;
    let o_v: usize = if j < 3 {
        8 + 5 * n_l + n_q + 2 * i + (if j == 0 {
            0
        } else {
            1
        })
    } else {
        8 + 5 * n_l + 3 * n_q + 8 * i + 2 * (j - 3)
    };
    let o_a: usize = fsl + 32 + 4 * j;
    let ghost ii = i as int;
    let ghost jj = j as int;
    let ghost fr = full_region(*inp);
    let ghost val = opened_val(*inp, ii, jj);
    let ghost la = line_of(inp.prepare, jj).a();
    let ghost dev1 = cmul((val, 0), la);
    proof {
        lemma_full_region_len(*inp);
        assert(opened_off(*inp, ii, jj) == o_v);
        lemma_opened_valid(*inp, ii, jj);
        if jj < 3 {
            lemma_full_trace_at(*inp, ii);
        } else {
            lemma_full_comp_at(*inp, ii, 2 * (jj - 3));
        }
        assert(fr[o_v as int] as int == val);
    }
    // the opened value, extended to a CM31 element
    let mut code = emit_one(Instr::PickItem(fl - 1 - o_v + extra));
    let ghost c1 = code@;
    let f2 = emit_one(Instr::PushItem(0));
    let ghost f2s = f2@;
    append_code(&mut code, f2);
    proof {
        assert forall|s: Seq<u32>, tail: Seq<u32>| tail.len() == extra implies #[trigger] run(
            s + fr + tail,
            code@,
        ) == Some(s + fr + tail + c_items((val, 0))) by {
            let st = s + fr + tail;
            lemma_run_app(st, c1, f2s);
            assert(c1 + f2s =~= code@);
            assert(st.len() - 1 - (fl - 1 - o_v + extra) == s.len() + o_v);
            assert(st[s.len() + o_v] == fr[o_v as int]);
            assert(st.push(fr[o_v as int]).push(0) =~= st + c_items((val, 0)));
        }
    }
    // times a, minus b: the linear deviation
    let ghost cprev = code@;
    let f3 = emit_pick_c(fl - 1 - o_a + extra + 2);
    let ghost f3s = f3@;
    append_code(&mut code, f3);
    let ghost cprev2 = code@;
    let f4 = emit_one(Instr::CMul);
    let ghost f4s = f4@;
    append_code(&mut code, f4);
    proof {
        lemma_full_line_a(*inp, jj);
        assert forall|s: Seq<u32>, tail: Seq<u32>| tail.len() == extra implies #[trigger] run(
            s + fr + tail,
            code@,
        ) == Some(s + fr + tail + c_items(dev1)) by {
            let st = s + fr + tail;
            lemma_run_app(st, cprev, f3s);
            assert(cprev + f3s =~= cprev2);
            lemma_run_app(st, cprev2, f4s);
            let st2 = st + c_items((val, 0));
            assert(st2.len() - 1 - (fl - 1 - o_a + extra + 2) == s.len() + o_a);
            lemma_add_assoc(s + fr, tail, c_items((val, 0)));
            lemma_subrange_mid(s, fr, tail + c_items((val, 0)), o_a as int, 2);
            assert(st2.subrange(s.len() + o_a, s.len() + o_a + 2) == c_items(la));
            lemma_c_binop(st, (val, 0), la);
        }
    }
    code
}

/// Emits the middle of one term: subtracts `b` and widens the deviation to
/// a QM31 element.
#[verifier::rlimit(100)]
fn emit_term_dev(inp: &VerifierInput, i: usize, j: usize, extra: usize) -> (frag: Vec<Instr>)
    requires
        inp.wf(),
        i < inp.queries@.len(),
        j < 7,
        extra <= 4,
    ensures
        forall|s: Seq<u32>, tail: Seq<u32>|
            tail.len() == extra ==> #[trigger] run(
                s + full_region(*inp) + tail + c_items(
                    cmul(
                        (opened_val(*inp, i as int, j as int), 0),
                        line_of(inp.prepare, j as int).a(),
                    ),
                ),
                frag@,
            ) == Some(
                s + full_region(*inp) + tail + q_items(
                    (
                        term_dev(*inp, i as int, j as int).0,
                        term_dev(*inp, i as int, j as int).1,
                        0int,
                        0int,
                    ),
                ),
            ),
{
    let n_l = inp.layers.len();
    let n_q = inp.queries.len();
    let fsl: usize = 8 + 5 * n_l + 11 * n_q;
    let fl: usize = fsl + 100;
    let o_a: usize = fsl + 32 + 4 * j;
    let o_b: usize = o_a + 2;
    let o_p: usize = fsl + 60 + 4 * (if j < 3 {
        j
    } else {
        3
    });
    let ghost ii = i as int;
    let ghost jj = j as int;
    let ghost fr = full_region(*inp);
    let ghost val = opened_val(*inp, ii, jj);
    let ghost la = line_of(inp.prepare, jj).a();
    let ghost lb = line_of(inp.prepare, jj).b();
    let ghost dev1 = cmul((val, 0), la);
    let ghost dev = term_dev(*inp, ii, jj);
    let ghost dev4 = (dev.0, dev.1, 0int, 0int);
    let ghost prp = prep_of(inp.prepare, prep_slot(jj)).t();
    proof {
        lemma_full_region_len(*inp);
        lemma_opened_valid(*inp, ii, jj);
        lemma_term_valid(*inp, ii, jj);
        lemma_cmul_valid((val, 0), la);
    }
    // subtract b: the linear deviation
    let mut code = emit_pick_c(fl - 1 - o_b + extra + 2);
    let ghost cprev4 = code@;
    let f6 = emit_one(Instr::CSub);
    let ghost f6s = f6@;
    append_code(&mut code, f6);
    proof {
        reveal(term_dev);
        lemma_full_line_b(*inp, jj);
        assert forall|s: Seq<u32>, tail: Seq<u32>| tail.len() == extra implies #[trigger] run(
            s + fr + tail + c_items(dev1),
            code@,
        ) == Some(s + fr + tail + c_items(dev)) by {
            let st = s + fr + tail;
            let st2 = st + c_items(dev1);
            lemma_run_app(st2, cprev4, f6s);
            assert(st2.len() - 1 - (fl - 1 - o_b + extra + 2) == s.len() + o_b);
            lemma_add_assoc(s + fr, tail, c_items(dev1));
            lemma_subrange_mid(s, fr, tail + c_items(dev1), o_b as int, 2);
            assert(st2.subrange(s.len() + o_b, s.len() + o_b + 2) == c_items(lb));
            lemma_c_binop(st, dev1, lb);
        }
    }
    // widened to a QM31 element, times the prepared point
    let ghost cprev5 = code@;
    let f7 = emit_one(Instr::PushItem(0));
    let ghost f7s = f7@;
    append_code(&mut code, f7);
    let ghost cprev6 = code@;
    let f8 = emit_one(Instr::PushItem(0));
    let ghost f8s = f8@;
    append_code(&mut code, f8);
    proof {
        assert forall|s: Seq<u32>, tail: Seq<u32>| tail.len() == extra implies #[trigger] run(
            s + fr + tail + c_items(dev1),
            code@,
        ) == Some(s + fr + tail + q_items(dev4)) by {
            let st = s + fr + tail;
            let st2 = st + c_items(dev1);
            lemma_run_app(st2, cprev5, f7s);
            lemma_run_app(st2, cprev6, f8s);
            assert((st + c_items(dev)).push(0).push(0) =~= st + q_items(dev4));
        }
    }
    code
}

/// Emits the weighting of one term: the widened deviation is multiplied by
/// the prepared point and by the power-series entry.
#[verifier::rlimit(100)]
fn emit_term_weight(inp: &VerifierInput, i: usize, j: usize, extra: usize) -> (frag: Vec<Instr>)
    requires
        inp.wf(),
        i < inp.queries@.len(),
        j < 7,
        extra <= 4,
    ensures
        forall|s: Seq<u32>, tail: Seq<u32>|
            tail.len() == extra ==> #[trigger] run(
                s + full_region(*inp) + tail + q_items(
                    (
                        term_dev(*inp, i as int, j as int).0,
                        term_dev(*inp, i as int, j as int).1,
                        0int,
                        0int,
                    ),
                ),
                frag@,
            ) == Some(
                s + full_region(*inp) + tail + q_items(term_weighted(*inp, i as int, j as int)),
            ),
{
    let n_l = inp.layers.len();
    let n_q = inp.queries.len();
    let fsl: usize = 8 + 5 * n_l + 11 * n_q;
    let fl: usize = fsl + 100;
    let o_p: usize = fsl + 60 + 4 * (if j < 3 {
        j
    } else {
        3
    });
    let ghost ii = i as int;
    let ghost jj = j as int;
    let ghost fr = full_region(*inp);
    let ghost dev = term_dev(*inp, ii, jj);
    let ghost dev4 = (dev.0, dev.1, 0int, 0int);
    let ghost prp = prep_of(inp.prepare, prep_slot(jj)).t();
    proof {
        lemma_full_region_len(*inp);
        lemma_term_valid(*inp, ii, jj);
    }
    let mut code = emit_pick_q(fl - 1 - o_p + extra + 4);
    let ghost cprev8 = code@;
    let f10 = emit_one(Instr::QMul);
    let ghost f10s = f10@;
    append_code(&mut code, f10);
    proof {
        reveal(term_base);
        lemma_full_prep_at(*inp, prep_slot(jj));
        assert forall|s: Seq<u32>, tail: Seq<u32>| tail.len() == extra implies #[trigger] run(
            s + fr + tail + q_items(dev4),
            code@,
        ) == Some(s + fr + tail + q_items(term_base(*inp, ii, jj))) by {
            let st = s + fr + tail;
            let st2 = st + q_items(dev4);
            lemma_run_app(st2, cprev8, f10s);
            assert(st2.len() - 1 - (fl - 1 - o_p + extra + 4) == s.len() + o_p);
            lemma_add_assoc(s + fr, tail, q_items(dev4));
            lemma_subrange_mid(s, fr, tail + q_items(dev4), o_p as int, 4);
            assert(st2.subrange(s.len() + o_p, s.len() + o_p + 4) == q_items(prp));
            lemma_q_binop(st, dev4, prp);
        }
    }
    if j < 6 {
        // times the matching entry of the power series
        let o_w: usize = fsl + 76 + 4 * j;
        let ghost cprev9 = code@;
        let f11 = emit_pick_q(fl - 1 - o_w + extra + 4);
        let ghost f11s = f11@;
        append_code(&mut code, f11);
        let ghost cprev10 = code@;
        let f12 = emit_one(Instr::QMul);
        let ghost f12s = f12@;
        append_code(&mut code, f12);
        proof {
            reveal(term_weighted);
            lemma_full_power_at(*inp, jj);
            lemma_qpow_valid(inp.circle_poly_alpha.t(), (6 - jj) as nat);
            let ghost pw = qpow(inp.circle_poly_alpha.t(), (6 - jj) as nat);
            assert forall|s: Seq<u32>, tail: Seq<u32>| tail.len() == extra implies #[trigger] run(
                s + fr + tail + q_items(dev4),
                code@,
            ) == Some(s + fr + tail + q_items(term_weighted(*inp, ii, jj))) by {
                let st = s + fr + tail;
                let stin = st + q_items(dev4);
                lemma_run_app(stin, cprev9, f11s);
                lemma_run_app(stin, cprev10, f12s);
                let st2 = st + q_items(term_base(*inp, ii, jj));
                assert(st2.len() - 1 - (fl - 1 - o_w + extra + 4) == s.len() + o_w);
                lemma_add_assoc(s + fr, tail, q_items(term_base(*inp, ii, jj)));
                lemma_subrange_mid(s, fr, tail + q_items(term_base(*inp, ii, jj)), o_w as int, 4);
                assert(st2.subrange(s.len() + o_w, s.len() + o_w + 4) == q_items(pw));
                lemma_q_binop(st, term_base(*inp, ii, jj), pw);
            }
        }
    } else {
        proof {
            reveal(term_weighted);
            assert(term_weighted(*inp, ii, jj) == term_base(*inp, ii, jj));
            assert forall|s: Seq<u32>, tail: Seq<u32>| tail.len() == extra implies #[trigger] run(
                s + fr + tail + q_items(dev4),
                code@,
            ) == Some(s + fr + tail + q_items(term_weighted(*inp, ii, jj))) by {
            }
        }
    }
    code
}

/// Emits the code of one weighted term, to run with `extra` scratch items
/// already above the full region; the term value ends on top.
fn emit_term(inp: &VerifierInput, i: usize, j: usize, extra: usize) -> (frag: Vec<Instr>)
    requires
        inp.wf(),
        i < inp.queries@.len(),
        j < 7,
        extra <= 4,
    ensures
        forall|s: Seq<u32>, tail: Seq<u32>|
            tail.len() == extra ==> #[trigger] run(s + full_region(*inp) + tail, frag@) == Some(
                s + full_region(*inp) + tail + q_items(term_weighted(*inp, i as int, j as int)),
            ),
{
    let ghost fr = full_region(*inp);
    let mut code = emit_term_scaled(inp, i, j, extra);
    let ghost c1 = code@;
    let t = emit_term_dev(inp, i, j, extra);
    let ghost ts = t@;
    append_code(&mut code, t);
    let ghost c2 = code@;
    let w = emit_term_weight(inp, i, j, extra);
    let ghost ws = w@;
    append_code(&mut code, w);
    proof {
        assert forall|s: Seq<u32>, tail: Seq<u32>| tail.len() == extra implies #[trigger] run(
            s + fr + tail,
            code@,
        ) == Some(s + fr + tail + q_items(term_weighted(*inp, i as int, j as int))) by {
            lemma_run_app(s + fr + tail, c1, ts);
            assert(c2 =~= c1 + ts);
            lemma_run_app(s + fr + tail, c2, ws);
        }
    }
    code
}

/// The accumulated-seed items above the region once `j` terms are done.
pub open spec fn acc_items(inp: VerifierInput, i: int, j: int) -> Seq<u32> {
    if j == 0 {
        Seq::empty()
    } else {
        q_items(quotient_partial(inp, i, j))
    }
}

/// The per-query quotient stage of the verifier pipeline.
pub struct FibonacciPerQueryQuotientGadget;

impl FibonacciPerQueryQuotientGadget {
    /// Emits the quotient check of query `i`: running it on the intact
    /// working region leaves the region untouched and pushes the query's
    /// folded seed value, the sum of all seven weighted terms.
    pub fn run(inp: &VerifierInput, i: usize) -> (code: Vec<Instr>)
        requires
            inp.wf(),
            i < inp.queries@.len(),
        ensures
            forall|s: Seq<u32>|
                #[trigger] run(s + full_region(*inp), code@) == Some(
                    s + full_region(*inp) + q_items(quotient_value(*inp, i as int)),
                ),
    {
        let ghost ii = i as int;
        let ghost fr = full_region(*inp);
        let mut code: Vec<Instr> = Vec::new();
        let mut j: usize = 0;
        while j < 7
            invariant
                inp.wf(),
                i < inp.queries@.len(),
                ii == i as int,
                fr == full_region(*inp),
                j <= 7,
                forall|s: Seq<u32>| #[trigger] run(s + fr, code@) == Some(
                    s + fr + acc_items(*inp, ii, j as int),
                ),
            decreases 7 - j,
        {
            let extra: usize = if j == 0 {
                0
            } else {
                4
            };
            let ghost prev = code@;
            let frag = emit_term(inp, i, j, extra);
            let ghost frs = frag@;
            append_code(&mut code, frag);
            if j == 0 {
                proof {
                    assert forall|s: Seq<u32>| #[trigger] run(s + fr, code@) == Some(
                        s + fr + acc_items(*inp, ii, 1),
                    ) by {
                        lemma_run_app(s + fr, prev, frs);
                        assert(run(s + fr, prev) == Some(s + fr + acc_items(*inp, ii, 0)));
                        assert(s + fr + acc_items(*inp, ii, 0) =~= s + fr);
                        assert((s + fr) + Seq::<u32>::empty() =~= s + fr);
                        assert(run((s + fr) + Seq::<u32>::empty(), frs) == Some(
                            (s + fr) + Seq::<u32>::empty() + q_items(term_weighted(*inp, ii, 0)),
                        ));
                        assert((s + fr) + Seq::<u32>::empty() + q_items(
                            term_weighted(*inp, ii, 0),
                        ) =~= s + fr + acc_items(*inp, ii, 1));
                    }
                }
            } else {
                let ghost mid = code@;
                let f2 = emit_one(Instr::QAdd);
                let ghost f2s = f2@;
                append_code(&mut code, f2);
                proof {
                    lemma_partial_valid(*inp, ii, j as int);
                    lemma_term_valid(*inp, ii, j as int);
                    assert forall|s: Seq<u32>| #[trigger] run(s + fr, code@) == Some(
                        s + fr + acc_items(*inp, ii, j as int + 1),
                    ) by {
                        lemma_run_app(s + fr, prev, frs);
                        lemma_run_app(s + fr, mid, f2s);
                        assert(mid =~= prev + frs);
                        assert(run(s + fr, prev) == Some(
                            s + fr + q_items(quotient_partial(*inp, ii, j as int)),
                        ));
                        lemma_q_binop(
                            s + fr,
                            quotient_partial(*inp, ii, j as int),
                            term_weighted(*inp, ii, j as int),
                        );
                        assert(qadd(
                            quotient_partial(*inp, ii, j as int),
                            term_weighted(*inp, ii, j as int),
                        ) == quotient_partial(*inp, ii, j as int + 1));
                    }
                }
            }
            j = j + 1;
        }
        code
    }
}

} // verus!
