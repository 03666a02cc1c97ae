//! The layout contract: the proof-derived values that the generators
//! consume, and the exact stack regions their emitted code lays down. Every
//! logical value occupies a fixed number of items at a fixed offset; the
//! spec functions here give each region as the exact item sequence, and the
//! lemmas recover any picked element from its offset.
use vstd::prelude::*;

use crate::field::qpow;
use crate::field::qvalid;
use crate::field::mvalid;
use crate::field::QM31;
use crate::ir::q_items;

verus! {

/// One size-halving layer of the proximity argument: the layer commitment
/// digest (one opaque item) and the folding challenge drawn after it.
#[derive(Clone, Copy)]
pub struct FriLayer {
    pub commitment: u32,
    pub alpha: QM31,
}

impl FriLayer {
    pub open spec fn wf(self) -> bool {
        self.alpha.wf()
    }
}

/// One query's raw openings: the sampled domain index, the two opened trace
/// values, and the eight opened composition items.
#[derive(Clone, Copy)]
pub struct QueryOpenings {
    pub index: u32,
    pub trace0: u32,
    pub trace1: u32,
    pub comp0: u32,
    pub comp1: u32,
    pub comp2: u32,
    pub comp3: u32,
    pub comp4: u32,
    pub comp5: u32,
    pub comp6: u32,
    pub comp7: u32,
}

impl QueryOpenings {
    pub open spec fn wf(self) -> bool {
        &&& mvalid(self.trace0 as int)
        &&& mvalid(self.trace1 as int)
        &&& mvalid(self.comp0 as int)
        &&& mvalid(self.comp1 as int)
        &&& mvalid(self.comp2 as int)
        &&& mvalid(self.comp3 as int)
        &&& mvalid(self.comp4 as int)
        &&& mvalid(self.comp5 as int)
        &&& mvalid(self.comp6 as int)
        &&& mvalid(self.comp7 as int)
    }
}

/// A point of the evaluation domain's extension, two QM31 coordinates.
#[derive(Clone, Copy)]
pub struct CirclePoint {
    pub x: QM31,
    pub y: QM31,
}

impl CirclePoint {
    pub open spec fn wf(self) -> bool {
        self.x.wf() && self.y.wf()
    }
}

/// The interpolation coefficients (a, b) of the line through a sampled
/// point and its conjugate, each coefficient a CM31 value (two items).
#[derive(Clone, Copy)]
pub struct LinePair {
    pub a0: u32,
    pub a1: u32,
    pub b0: u32,
    pub b1: u32,
}

impl LinePair {
    pub open spec fn wf(self) -> bool {
        mvalid(self.a0 as int) && mvalid(self.a1 as int) && mvalid(self.b0 as int) && mvalid(
            self.b1 as int,
        )
    }

    pub open spec fn a(self) -> (int, int) {
        (self.a0 as int, self.a1 as int)
    }

    pub open spec fn b(self) -> (int, int) {
        (self.b0 as int, self.b1 as int)
    }
}

/// The values the preparation stage lays down besides the coefficient
/// power series: the three masked points and the out-of-domain point, the
/// per-column line coefficients, and the prepared (inversion-free) form of
/// each point. They are computed off the constrained machine by the
/// external hinting pass, which also supplies every inverse the line
/// coefficients embed.
#[derive(Clone, Copy)]
pub struct PrepareHints {
    pub masked0: CirclePoint,
    pub masked1: CirclePoint,
    pub masked2: CirclePoint,
    pub oods: CirclePoint,
    pub line_t0: LinePair,
    pub line_t1: LinePair,
    pub line_t2: LinePair,
    pub line_c0: LinePair,
    pub line_c1: LinePair,
    pub line_c2: LinePair,
    pub line_c3: LinePair,
    pub prep_m0: QM31,
    pub prep_m1: QM31,
    pub prep_m2: QM31,
    pub prep_oods: QM31,
}

impl PrepareHints {
    pub open spec fn wf(self) -> bool {
        &&& self.masked0.wf()
        &&& self.masked1.wf()
        &&& self.masked2.wf()
        &&& self.oods.wf()
        &&& self.line_t0.wf()
        &&& self.line_t1.wf()
        &&& self.line_t2.wf()
        &&& self.line_c0.wf()
        &&& self.line_c1.wf()
        &&& self.line_c2.wf()
        &&& self.line_c3.wf()
        &&& self.prep_m0.wf()
        &&& self.prep_m1.wf()
        &&& self.prep_m2.wf()
        &&& self.prep_oods.wf()
    }
}

/// One query's folding hints: per layer, the authenticated sibling value
/// (its Merkle authentication is an outside collaborator's duty) and the
/// inverse twiddle of the query's position in that layer's domain.
#[derive(Clone)]
pub struct QueryFoldHints {
    pub siblings: Vec<QM31>,
    pub itwiddles: Vec<QM31>,
}

/// Everything the generator consumes: the replayed transcript challenges,
/// the proof's commitments and openings, and the hinting pass's values.
#[derive(Clone)]
pub struct VerifierInput {
    pub circle_poly_alpha: QM31,
    pub layers: Vec<FriLayer>,
    pub last_layer: QM31,
    pub queries: Vec<QueryOpenings>,
    pub prepare: PrepareHints,
    pub fold_hints: Vec<QueryFoldHints>,
}

impl VerifierInput {
    /// Structural consistency: widths are reduced residues, and the hint
    /// shape matches the layer and query counts. A mismatched shape must be
    /// rejected before any emission.
    pub open spec fn wf(self) -> bool {
        &&& self.circle_poly_alpha.wf()
        &&& self.last_layer.wf()
        &&& forall|l: int| 0 <= l < self.layers@.len() ==> (#[trigger] self.layers@[l]).wf()
        &&& forall|i: int| 0 <= i < self.queries@.len() ==> (#[trigger] self.queries@[i]).wf()
        &&& self.prepare.wf()
        &&& self.fold_hints@.len() == self.queries@.len()
        &&& forall|i: int|
            0 <= i < self.fold_hints@.len() ==> {
                &&& (#[trigger] self.fold_hints@[i]).siblings@.len() == self.layers@.len()
                &&& self.fold_hints@[i].itwiddles@.len() == self.layers@.len()
                &&& forall|l: int|
                    0 <= l < self.layers@.len() ==> {
                        &&& (#[trigger] self.fold_hints@[i].siblings@[l]).wf()
                        &&& self.fold_hints@[i].itwiddles@[l].wf()
                    }
            }
        &&& self.layers@.len() <= 0x10_0000
        &&& self.queries@.len() <= 0x10_0000
    }

    /// Decides well-formedness, so a caller can reject a mismatched input
    /// before any emission: a verifier program unrolled against the wrong
    /// layer or query count would be malformed, never merely failing.
    pub fn check(&self) -> (r: bool)
        ensures
            r == self.wf(),
    {
        if !(qm31_ok(&self.circle_poly_alpha) && qm31_ok(&self.last_layer)) {
            return false;
        }
        if self.layers.len() > 0x10_0000 || self.queries.len() > 0x10_0000 {
            return false;
        }
        if self.fold_hints.len() != self.queries.len() {
            return false;
        }
        let h = &self.prepare;
        if !(qm31_ok(&h.masked0.x) && qm31_ok(&h.masked0.y) && qm31_ok(&h.masked1.x) && qm31_ok(
            &h.masked1.y,
        ) && qm31_ok(&h.masked2.x) && qm31_ok(&h.masked2.y) && qm31_ok(&h.oods.x) && qm31_ok(
            &h.oods.y,
        )) {
            return false;
        }
        if !(line_ok(&h.line_t0) && line_ok(&h.line_t1) && line_ok(&h.line_t2) && line_ok(
            &h.line_c0,
        ) && line_ok(&h.line_c1) && line_ok(&h.line_c2) && line_ok(&h.line_c3)) {
            return false;
        }
        if !(qm31_ok(&h.prep_m0) && qm31_ok(&h.prep_m1) && qm31_ok(&h.prep_m2) && qm31_ok(
            &h.prep_oods,
        )) {
            return false;
        }
        let mut l: usize = 0;
        while l < self.layers.len()
            invariant
                l <= self.layers@.len(),
                forall|k: int| 0 <= k < l ==> (#[trigger] self.layers@[k]).wf(),
            decreases self.layers@.len() - l,
        {
            if !qm31_ok(&self.layers[l].alpha) {
                return false;
            }
            l = l + 1;
        }
        let mut i: usize = 0;
        while i < self.queries.len()
            invariant
                i <= self.queries@.len(),
                forall|k: int| 0 <= k < i ==> (#[trigger] self.queries@[k]).wf(),
            decreases self.queries@.len() - i,
        {
            let q = &self.queries[i];
            if !(q.trace0 < crate::field::P && q.trace1 < crate::field::P && q.comp0
                < crate::field::P && q.comp1 < crate::field::P && q.comp2 < crate::field::P
                && q.comp3 < crate::field::P && q.comp4 < crate::field::P && q.comp5
                < crate::field::P && q.comp6 < crate::field::P && q.comp7 < crate::field::P) {
                return false;
            }
            i = i + 1;
        }
        let mut i: usize = 0;
        while i < self.fold_hints.len()
            invariant
                i <= self.fold_hints@.len(),
                forall|k: int|
                    0 <= k < i ==> (#[trigger] self.fold_hints@[k]).siblings@.len()
                        == self.layers@.len(),
                forall|k: int|
                    0 <= k < i ==> (#[trigger] self.fold_hints@[k]).itwiddles@.len()
                        == self.layers@.len(),
                forall|k: int, m: int|
                    0 <= k < i && 0 <= m < self.layers@.len() ==> (
                    #[trigger] self.fold_hints@[k].siblings@[m]).wf(),
                forall|k: int, m: int|
                    0 <= k < i && 0 <= m < self.layers@.len() ==> (
                    #[trigger] self.fold_hints@[k].itwiddles@[m]).wf(),
            decreases self.fold_hints@.len() - i,
        {
            let fh = &self.fold_hints[i];
            if fh.siblings.len() != self.layers.len() || fh.itwiddles.len() != self.layers.len() {
                return false;
            }
            let mut m: usize = 0;
            while m < fh.siblings.len()
                invariant
                    fh == self.fold_hints@[i as int],
                    i < self.fold_hints@.len(),
                    fh.siblings@.len() == self.layers@.len(),
                    fh.itwiddles@.len() == self.layers@.len(),
                    m <= fh.siblings@.len(),
                    forall|k: int| 0 <= k < m ==> (#[trigger] fh.siblings@[k]).wf(),
                    forall|k: int| 0 <= k < m ==> (#[trigger] fh.itwiddles@[k]).wf(),
                decreases fh.siblings@.len() - m,
            {
                if !(qm31_ok(&fh.siblings[m]) && qm31_ok(&fh.itwiddles[m])) {
                    return false;
                }
                proof {
                    assert(fh.siblings@[m as int].wf());
                    assert(fh.itwiddles@[m as int].wf());
                }
                m = m + 1;
            }
            proof {
                assert(forall|k: int|
                    0 <= k < self.layers@.len() ==> (#[trigger] fh.siblings@[k]).wf());
                assert(forall|k: int|
                    0 <= k < self.layers@.len() ==> (#[trigger] fh.itwiddles@[k]).wf());
            }
            i = i + 1;
        }
        proof {
            assert forall|i2: int| 0 <= i2 < self.fold_hints@.len() implies {
                &&& (#[trigger] self.fold_hints@[i2]).siblings@.len() == self.layers@.len()
                &&& self.fold_hints@[i2].itwiddles@.len() == self.layers@.len()
                &&& forall|l2: int|
                    0 <= l2 < self.layers@.len() ==> {
                        &&& (#[trigger] self.fold_hints@[i2].siblings@[l2]).wf()
                        &&& self.fold_hints@[i2].itwiddles@[l2].wf()
                    }
            } by {
            }
        }
        true
    }

    /// Number of proximity-argument layers.
    pub open spec fn n_layers(self) -> int {
        self.layers@.len() as int
    }

    /// Number of queries.
    pub open spec fn n_queries(self) -> int {
        self.queries@.len() as int
    }
}

/// Decides whether all four components are reduced residues.
pub fn qm31_ok(x: &QM31) -> (r: bool)
    ensures
        r == x.wf(),
{
    x.a < crate::field::P && x.b < crate::field::P && x.c < crate::field::P && x.d
        < crate::field::P
}

/// Decides whether both line coefficients are reduced residues.
pub fn line_ok(lp: &LinePair) -> (r: bool)
    ensures
        r == lp.wf(),
{
    lp.a0 < crate::field::P && lp.a1 < crate::field::P && lp.b0 < crate::field::P && lp.b1
        < crate::field::P
}

/// Items of one layer entry: the commitment item, then the challenge.
pub open spec fn layer_items(l: FriLayer) -> Seq<u32> {
    seq![l.commitment] + q_items(l.alpha.t())
}

/// Items of the whole per-layer region, in layer order.
pub open spec fn layers_items(ls: Seq<FriLayer>) -> Seq<u32>
    decreases ls.len(),
{
    if ls.len() == 0 {
        Seq::empty()
    } else {
        layers_items(ls.drop_last()) + layer_items(ls.last())
    }
}

/// The query-index items, one per query.
pub open spec fn indices_items(qs: Seq<QueryOpenings>) -> Seq<u32>
    decreases qs.len(),
{
    if qs.len() == 0 {
        Seq::empty()
    } else {
        indices_items(qs.drop_last()).push(qs.last().index)
    }
}

/// The opened trace values, two per query.
pub open spec fn trace_items(qs: Seq<QueryOpenings>) -> Seq<u32>
    decreases qs.len(),
{
    if qs.len() == 0 {
        Seq::empty()
    } else {
        trace_items(qs.drop_last()) + seq![qs.last().trace0, qs.last().trace1]
    }
}

/// One query's opened composition values, eight items.
pub open spec fn comp_one_items(q: QueryOpenings) -> Seq<u32> {
    seq![q.comp0, q.comp1, q.comp2, q.comp3, q.comp4, q.comp5, q.comp6, q.comp7]
}

/// The opened composition values, eight per query.
pub open spec fn comp_items(qs: Seq<QueryOpenings>) -> Seq<u32>
    decreases qs.len(),
{
    if qs.len() == 0 {
        Seq::empty()
    } else {
        comp_items(qs.drop_last()) + comp_one_items(qs.last())
    }
}

/// The challenge region the Fiat-Shamir stage lays down: the circle-poly
/// combination coefficient, the per-layer (commitment, challenge) pairs,
/// the expected last-layer constant, then the query indices and raw
/// openings.
pub open spec fn fs_region(inp: VerifierInput) -> Seq<u32> {
    q_items(inp.circle_poly_alpha.t()) + layers_items(inp.layers@) + q_items(inp.last_layer.t())
        + indices_items(inp.queries@) + trace_items(inp.queries@) + comp_items(inp.queries@)
}

/// Item count of the challenge region.
pub open spec fn fs_len(inp: VerifierInput) -> int {
    8 + 5 * inp.n_layers() + 11 * inp.n_queries()
}

/// A point's items: x then y.
pub open spec fn point_items(p: CirclePoint) -> Seq<u32> {
    q_items(p.x.t()) + q_items(p.y.t())
}

/// A line pair's items: a then b.
pub open spec fn line_items(lp: LinePair) -> Seq<u32> {
    seq![lp.a0, lp.a1, lp.b0, lp.b1]
}

/// The raw point part of the prepared region: three masked points and the
/// out-of-domain point, 32 items.
pub open spec fn points_part(h: PrepareHints) -> Seq<u32> {
    point_items(h.masked0) + point_items(h.masked1) + point_items(h.masked2) + point_items(h.oods)
}

/// The line-coefficient part: three trace pairs then four composition
/// pairs, 28 items.
pub open spec fn lines_part(h: PrepareHints) -> Seq<u32> {
    line_items(h.line_t0) + line_items(h.line_t1) + line_items(h.line_t2) + line_items(h.line_c0)
        + line_items(h.line_c1) + line_items(h.line_c2) + line_items(h.line_c3)
}

/// The prepared-point part: three prepared masked points then the prepared
/// out-of-domain point, 16 items.
pub open spec fn preps_part(h: PrepareHints) -> Seq<u32> {
    q_items(h.prep_m0.t()) + q_items(h.prep_m1.t()) + q_items(h.prep_m2.t()) + q_items(
        h.prep_oods.t(),
    )
}

/// The coefficient power series, highest power deepest: c^6 down to c^1,
/// 24 items.
pub open spec fn powers_part(c: (int, int, int, int)) -> Seq<u32> {
    q_items(qpow(c, 6)) + q_items(qpow(c, 5)) + q_items(qpow(c, 4)) + q_items(qpow(c, 3)) + q_items(
        qpow(c, 2),
    ) + q_items(qpow(c, 1))
}

/// The whole region the preparation stage lays down, 100 items.
pub open spec fn prepare_region(inp: VerifierInput) -> Seq<u32> {
    points_part(inp.prepare) + lines_part(inp.prepare) + preps_part(inp.prepare) + powers_part(
        inp.circle_poly_alpha.t(),
    )
}

/// The full working region: challenges below, prepared values above.
pub open spec fn full_region(inp: VerifierInput) -> Seq<u32> {
    fs_region(inp) + prepare_region(inp)
}

/// Item count of the full working region.
pub open spec fn full_len(inp: VerifierInput) -> int {
    fs_len(inp) + 100
}

pub proof fn lemma_layers_items_len(ls: Seq<FriLayer>)
    ensures
        layers_items(ls).len() == 5 * ls.len(),
    decreases ls.len(),
{
    if ls.len() > 0 {
        lemma_layers_items_len(ls.drop_last());
    }
}

pub proof fn lemma_indices_items_len(qs: Seq<QueryOpenings>)
    ensures
        indices_items(qs).len() == qs.len(),
    decreases qs.len(),
{
    if qs.len() > 0 {
        lemma_indices_items_len(qs.drop_last());
    }
}

pub proof fn lemma_trace_items_len(qs: Seq<QueryOpenings>)
    ensures
        trace_items(qs).len() == 2 * qs.len(),
    decreases qs.len(),
{
    if qs.len() > 0 {
        lemma_trace_items_len(qs.drop_last());
    }
}

pub proof fn lemma_comp_items_len(qs: Seq<QueryOpenings>)
    ensures
        comp_items(qs).len() == 8 * qs.len(),
    decreases qs.len(),
{
    if qs.len() > 0 {
        lemma_comp_items_len(qs.drop_last());
    }
}

pub proof fn lemma_fs_region_len(inp: VerifierInput)
    ensures
        fs_region(inp).len() == fs_len(inp),
{
    lemma_layers_items_len(inp.layers@);
    lemma_indices_items_len(inp.queries@);
    lemma_trace_items_len(inp.queries@);
    lemma_comp_items_len(inp.queries@);
}

#[verifier::rlimit(60)]
pub proof fn lemma_full_region_len(inp: VerifierInput)
    ensures
        prepare_region(inp).len() == 100,
        full_region(inp).len() == full_len(inp),
{
    lemma_fs_region_len(inp);
}

/// The folding challenge of layer `l` sits at offset 5l + 5 of the full
/// region (the four coefficient items, then l + 1 commitment items and l
/// challenges before it).
pub proof fn lemma_layers_alpha(ls: Seq<FriLayer>, l: int)
    requires
        0 <= l < ls.len(),
    ensures
        layers_items(ls).subrange(5 * l + 1, 5 * l + 5) == q_items(ls[l].alpha.t()),
    decreases ls.len(),
{
    lemma_layers_items_len(ls);
    if l == ls.len() - 1 {
        lemma_layers_items_len(ls.drop_last());
        assert(layers_items(ls).subrange(5 * l + 1, 5 * l + 5) =~= q_items(ls[l].alpha.t()));
    } else {
        lemma_layers_alpha(ls.drop_last(), l);
        lemma_layers_items_len(ls.drop_last());
        assert(layers_items(ls).subrange(5 * l + 1, 5 * l + 5) =~= layers_items(
            ls.drop_last(),
        ).subrange(5 * l + 1, 5 * l + 5));
    }
}

/// The two opened trace values of query `i` sit at offsets 2i and 2i + 1
/// of the trace region.
pub proof fn lemma_trace_at(qs: Seq<QueryOpenings>, i: int)
    requires
        0 <= i < qs.len(),
    ensures
        trace_items(qs)[2 * i] == qs[i].trace0,
        trace_items(qs)[2 * i + 1] == qs[i].trace1,
    decreases qs.len(),
{
    lemma_trace_items_len(qs);
    if i == qs.len() - 1 {
        lemma_trace_items_len(qs.drop_last());
    } else {
        lemma_trace_at(qs.drop_last(), i);
        lemma_trace_items_len(qs.drop_last());
    }
}

/// The eight opened composition values of query `i` sit at offset 8i of
/// the composition region.
pub proof fn lemma_comp_at(qs: Seq<QueryOpenings>, i: int)
    requires
        0 <= i < qs.len(),
    ensures
        comp_items(qs).subrange(8 * i, 8 * i + 8) == comp_one_items(qs[i]),
    decreases qs.len(),
{
    lemma_comp_items_len(qs);
    if i == qs.len() - 1 {
        lemma_comp_items_len(qs.drop_last());
        assert(comp_items(qs).subrange(8 * i, 8 * i + 8) =~= comp_one_items(qs[i]));
    } else {
        lemma_comp_at(qs.drop_last(), i);
        lemma_comp_items_len(qs.drop_last());
        assert(comp_items(qs).subrange(8 * i, 8 * i + 8) =~= comp_items(qs.drop_last()).subrange(
            8 * i,
            8 * i + 8,
        ));
    }
}

/// The line pair at slot `j` of the line-coefficient part: the three trace
/// pairs, then the four composition pairs.
pub open spec fn line_of(h: PrepareHints, j: int) -> LinePair {
    if j == 0 {
        h.line_t0
    } else if j == 1 {
        h.line_t1
    } else if j == 2 {
        h.line_t2
    } else if j == 3 {
        h.line_c0
    } else if j == 4 {
        h.line_c1
    } else if j == 5 {
        h.line_c2
    } else {
        h.line_c3
    }
}

/// The prepared point at slot `j`: the three masked slots, then the
/// out-of-domain slot.
pub open spec fn prep_of(h: PrepareHints, j: int) -> QM31 {
    if j == 0 {
        h.prep_m0
    } else if j == 1 {
        h.prep_m1
    } else if j == 2 {
        h.prep_m2
    } else {
        h.prep_oods
    }
}

pub proof fn lemma_lines_at(h: PrepareHints, j: int)
    requires
        0 <= j < 7,
    ensures
        lines_part(h).subrange(4 * j, 4 * j + 4) == line_items(line_of(h, j)),
{
    assert(lines_part(h).subrange(4 * j, 4 * j + 4) =~= line_items(line_of(h, j)));
}

pub proof fn lemma_preps_at(h: PrepareHints, j: int)
    requires
        0 <= j < 4,
    ensures
        preps_part(h).subrange(4 * j, 4 * j + 4) == q_items(prep_of(h, j).t()),
{
    assert(preps_part(h).subrange(4 * j, 4 * j + 4) =~= q_items(prep_of(h, j).t()));
}

#[verifier::rlimit(60)]
/// The opened trace values of query `i`, read out of the full region.
pub proof fn lemma_full_trace_at(inp: VerifierInput, i: int)
    requires
        0 <= i < inp.n_queries(),
    ensures
        full_region(inp)[8 + 5 * inp.n_layers() + inp.n_queries() + 2 * i]
            == inp.queries@[i].trace0,
        full_region(inp)[8 + 5 * inp.n_layers() + inp.n_queries() + 2 * i + 1]
            == inp.queries@[i].trace1,
{
    lemma_full_region_len(inp);
    lemma_layers_items_len(inp.layers@);
    lemma_indices_items_len(inp.queries@);
    lemma_trace_items_len(inp.queries@);
    lemma_trace_at(inp.queries@, i);
}

/// One opened composition item of query `i`, read out of the full region.
pub proof fn lemma_full_comp_at(inp: VerifierInput, i: int, t: int)
    requires
        0 <= i < inp.n_queries(),
        0 <= t < 8,
    ensures
        full_region(inp)[8 + 5 * inp.n_layers() + 3 * inp.n_queries() + 8 * i + t]
            == comp_one_items(inp.queries@[i])[t],
{
    lemma_full_region_len(inp);
    lemma_layers_items_len(inp.layers@);
    lemma_indices_items_len(inp.queries@);
    lemma_trace_items_len(inp.queries@);
    lemma_comp_items_len(inp.queries@);
    lemma_comp_at(inp.queries@, i);
    assert(comp_items(inp.queries@)[8 * i + t] == comp_items(inp.queries@).subrange(
        8 * i,
        8 * i + 8,
    )[t]);
}

/// The `a` coefficient of line pair `j`, read out of the full region.
#[verifier::rlimit(100)]
pub proof fn lemma_full_line_a(inp: VerifierInput, j: int)
    requires
        0 <= j < 7,
    ensures
        full_region(inp).subrange(fs_len(inp) + 32 + 4 * j, fs_len(inp) + 32 + 4 * j + 2)
            == crate::ir::c_items(line_of(inp.prepare, j).a()),
{
    lemma_full_region_len(inp);
    lemma_lines_at(inp.prepare, j);
    assert(full_region(inp).subrange(fs_len(inp) + 32 + 4 * j, fs_len(inp) + 32 + 4 * j + 2)
        =~= crate::ir::c_items(line_of(inp.prepare, j).a()));
}

/// The `b` coefficient of line pair `j`, read out of the full region.
#[verifier::rlimit(100)]
pub proof fn lemma_full_line_b(inp: VerifierInput, j: int)
    requires
        0 <= j < 7,
    ensures
        full_region(inp).subrange(fs_len(inp) + 34 + 4 * j, fs_len(inp) + 34 + 4 * j + 2)
            == crate::ir::c_items(line_of(inp.prepare, j).b()),
{
    lemma_full_region_len(inp);
    lemma_lines_at(inp.prepare, j);
    assert(full_region(inp).subrange(fs_len(inp) + 34 + 4 * j, fs_len(inp) + 34 + 4 * j + 2)
        =~= crate::ir::c_items(line_of(inp.prepare, j).b()));
}

/// The prepared point of slot `j`, read out of the full region.
pub proof fn lemma_full_prep_at(inp: VerifierInput, j: int)
    requires
        0 <= j < 4,
    ensures
        full_region(inp).subrange(fs_len(inp) + 60 + 4 * j, fs_len(inp) + 60 + 4 * j + 4)
            == q_items(prep_of(inp.prepare, j).t()),
{
    lemma_full_region_len(inp);
    lemma_preps_at(inp.prepare, j);
    assert(full_region(inp).subrange(fs_len(inp) + 60 + 4 * j, fs_len(inp) + 60 + 4 * j + 4)
        =~= q_items(prep_of(inp.prepare, j).t()));
}

/// The power c^(6 - j) of the series, read out of the full region.
pub proof fn lemma_full_power_at(inp: VerifierInput, j: int)
    requires
        0 <= j < 6,
    ensures
        full_region(inp).subrange(fs_len(inp) + 76 + 4 * j, fs_len(inp) + 76 + 4 * j + 4)
            == q_items(qpow(inp.circle_poly_alpha.t(), (6 - j) as nat)),
{
    lemma_full_region_len(inp);
    lemma_powers_at(inp.circle_poly_alpha.t(), j);
    assert(full_region(inp).subrange(fs_len(inp) + 76 + 4 * j, fs_len(inp) + 76 + 4 * j + 4)
        =~= q_items(qpow(inp.circle_poly_alpha.t(), (6 - j) as nat)));
}

/// The folding challenge of layer `l`, read out of the full region.
pub proof fn lemma_full_alpha_at(inp: VerifierInput, l: int)
    requires
        0 <= l < inp.n_layers(),
    ensures
        full_region(inp).subrange(5 + 5 * l, 9 + 5 * l) == q_items(inp.layers@[l].alpha.t()),
{
    lemma_full_region_len(inp);
    lemma_layers_items_len(inp.layers@);
    lemma_layers_alpha(inp.layers@, l);
    assert(full_region(inp).subrange(5 + 5 * l, 9 + 5 * l) =~= layers_items(
        inp.layers@,
    ).subrange(5 * l + 1, 5 * l + 5));
}

/// The expected last-layer constant, read out of the full region.
pub proof fn lemma_full_last_at(inp: VerifierInput)
    ensures
        full_region(inp).subrange(4 + 5 * inp.n_layers(), 8 + 5 * inp.n_layers()) == q_items(
            inp.last_layer.t(),
        ),
{
    lemma_full_region_len(inp);
    lemma_layers_items_len(inp.layers@);
    assert(full_region(inp).subrange(4 + 5 * inp.n_layers(), 8 + 5 * inp.n_layers()) =~= q_items(
        inp.last_layer.t(),
    ));
}

pub proof fn lemma_powers_at(c: (int, int, int, int), j: int)
    requires
        0 <= j < 6,
    ensures
        powers_part(c).subrange(4 * j, 4 * j + 4) == q_items(qpow(c, (6 - j) as nat)),
{
    if j == 0 {
        assert(powers_part(c).subrange(0, 4) =~= q_items(qpow(c, 6)));
    } else if j == 1 {
        assert(powers_part(c).subrange(4, 8) =~= q_items(qpow(c, 5)));
    } else if j == 2 {
        assert(powers_part(c).subrange(8, 12) =~= q_items(qpow(c, 4)));
    } else if j == 3 {
        assert(powers_part(c).subrange(12, 16) =~= q_items(qpow(c, 3)));
    } else if j == 4 {
        assert(powers_part(c).subrange(16, 20) =~= q_items(qpow(c, 2)));
    } else {
        assert(powers_part(c).subrange(20, 24) =~= q_items(qpow(c, 1)));
    }
}

} // verus!
