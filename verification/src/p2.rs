//! The marker-based quantile estimator.
//!
//! Five markers approximate the cumulative distribution of the stream near
//! the target quantile: each marker is an actual rank (`pos`), a desired
//! rank (`n_pos`, binary64 bits), a fixed per-observation increment of the
//! desired rank (`dn`, binary64 bits), and an estimated value at that rank
//! (`heights`, binary64 bits). Until five observations have arrived the
//! `heights` vector is only a buffer of raw observations; the fifth
//! observation seeds the markers from the sorted buffer.

use vstd::prelude::*;

use crate::fp::{
    F_FOUR, F_NEG_ONE, F_ONE, F_TWO, F_ZERO, f64_add, f64_div, f64_mul, f64_of_i64, f64_sub,
    f64_to_usize, f_add, f_div, f_le, f_lt, f_mul, f_of_i64, f_sub, f_to_usize, is_nan_bits,
    key_le, key_lt,
};

verus! {

/// The abstract state of an estimator: the same data as the concrete
/// struct, over mathematical sequences.
#[verifier::ext_equal]
pub struct Model {
    /// Target quantile, binary64 bits.
    pub quantile: u64,
    /// Marker heights once filled; before that, the bootstrap buffer.
    pub heights: Seq<u64>,
    /// Actual marker ranks.
    pub pos: Seq<int>,
    /// Desired marker ranks, binary64 bits.
    pub n_pos: Seq<u64>,
    /// Per-observation increments of the desired ranks, binary64 bits.
    pub dn: Seq<u64>,
    /// Whether the five markers have been seeded.
    pub filled: bool,
}

/// The estimator. Observations and results are binary64 bit patterns.
pub struct P2 {
    /// Target quantile, binary64 bits.
    pub quantile: u64,
    /// Marker heights once filled; before that, the bootstrap buffer.
    pub heights: Vec<u64>,
    /// Actual marker ranks.
    pub pos: [i64; 5],
    /// Desired marker ranks, binary64 bits.
    pub n_pos: [u64; 5],
    /// Per-observation increments of the desired ranks, binary64 bits.
    pub dn: [u64; 5],
    /// Whether the five markers have been seeded.
    pub filled: bool,
}

impl View for P2 {
    type V = Model;

    open spec fn view(&self) -> Model {
        Model {
            quantile: self.quantile,
            heights: self.heights@,
            pos: Seq::new(5, |i: int| self.pos@[i] as int),
            n_pos: self.n_pos@,
            dn: self.dn@,
            filled: self.filled,
        }
    }
}

/// Structural well-formedness: five markers, the fill flag tied to the
/// buffer length, and the actual ranks strictly increasing from zero.
pub open spec fn wf(m: Model) -> bool {
    &&& m.pos.len() == 5
    &&& m.n_pos.len() == 5
    &&& m.dn.len() == 5
    &&& m.heights.len() <= 5
    &&& (m.filled <==> m.heights.len() == 5)
    &&& m.pos[0] == 0
    &&& (forall|i: int| 0 <= i < 4 ==> #[trigger] m.pos[i] < m.pos[i + 1])
    &&& (!m.filled ==> forall|i: int| 0 <= i < 5 ==> #[trigger] m.pos[i] == i)
}

/// The state `new` establishes: an empty buffer, ranks `0..4`, and the
/// desired ranks and their increments derived from the quantile `q` as
/// `n_pos = [0, 2q, 4q, 2 + 2q, 4]` and `dn = [0, q/2, q, (1+q)/2, 1]`.
pub open spec fn init_model(q: u64) -> Model {
    Model {
        quantile: q,
        heights: Seq::empty(),
        pos: Seq::new(5, |i: int| i),
        n_pos: seq![
            F_ZERO,
            f64_mul(F_TWO, q),
            f64_mul(F_FOUR, q),
            f64_add(F_TWO, f64_mul(F_TWO, q)),
            F_FOUR,
        ],
        dn: seq![
            F_ZERO,
            f64_div(q, F_TWO),
            q,
            f64_div(f64_add(F_ONE, q), F_TWO),
            F_ONE,
        ],
        filled: false,
    }
}

/// True when adjacent elements of `s` are in ascending binary64 order.
pub open spec fn seq_ordered(s: Seq<u64>) -> bool {
    forall|i: int| 0 <= i < s.len() - 1 ==> key_le(#[trigger] s[i], s[i + 1])
}

/// True when no element of `s` is a NaN bit pattern.
pub open spec fn seq_no_nan(s: Seq<u64>) -> bool {
    forall|i: int| 0 <= i < s.len() ==> !is_nan_bits(#[trigger] s[i])
}

/// `x` inserted into `s` just before the maximal suffix of elements
/// above it: the insertion step of an insertion sort working from the
/// right. (An element whose comparison with `x` involves a NaN counts
/// as not above it.)
pub open spec fn insert_key(s: Seq<u64>, x: u64) -> Seq<u64>
    decreases s.len(),
{
    if s.len() == 0 {
        seq![x]
    } else if key_le(s.last(), x) {
        s.push(x)
    } else {
        insert_key(s.drop_last(), x).push(s.last())
    }
}

/// `s` sorted into ascending binary64 order by insertion sort.
pub open spec fn sort_key(s: Seq<u64>) -> Seq<u64>
    decreases s.len(),
{
    if s.len() == 0 {
        Seq::empty()
    } else {
        insert_key(sort_key(s.drop_last()), s.last())
    }
}

proof fn lemma_insert_key_len(s: Seq<u64>, x: u64)
    ensures
        insert_key(s, x).len() == s.len() + 1,
    decreases s.len(),
{
    if s.len() > 0 && !key_le(s.last(), x) {
        lemma_insert_key_len(s.drop_last(), x);
    }
}

pub proof fn lemma_sort_key_len(s: Seq<u64>)
    ensures
        sort_key(s).len() == s.len(),
    decreases s.len(),
{
    if s.len() > 0 {
        lemma_sort_key_len(s.drop_last());
        lemma_insert_key_len(sort_key(s.drop_last()), s.last());
    }
}

proof fn lemma_insert_key_split(s: Seq<u64>, x: u64, j: int)
    requires
        0 <= j <= s.len(),
        j > 0 ==> key_le(s[j - 1], x),
        forall|t: int| j <= t < s.len() ==> !key_le(#[trigger] s[t], x),
    ensures
        insert_key(s, x) == s.insert(j, x),
    decreases s.len(),
{
    if s.len() == 0 {
        assert(insert_key(s, x) =~= s.insert(0, x));
    } else if key_le(s.last(), x) {
        assert(j == s.len()) by {
            if j < s.len() {
                assert(!key_le(s[s.len() - 1], x));
            }
        }
        assert(s.push(x) =~= s.insert(j, x));
    } else {
        assert(j < s.len());
        let dl = s.drop_last();
        assert(forall|t: int| j <= t < dl.len() ==> !key_le(#[trigger] dl[t], x));
        lemma_insert_key_split(dl, x, j);
        assert(dl.insert(j, x).push(s.last()) =~= s.insert(j, x));
    }
}

/// The insertion step keeps the sequence ordered and free of NaNs, and
/// its last element is the larger of `x` and the old last element.
proof fn lemma_insert_key_ordered(s: Seq<u64>, x: u64)
    requires
        seq_ordered(s),
        seq_no_nan(s),
        !is_nan_bits(x),
    ensures
        seq_ordered(insert_key(s, x)),
        seq_no_nan(insert_key(s, x)),
        insert_key(s, x).last() == (if s.len() == 0 || key_le(s.last(), x) {
            x
        } else {
            s.last()
        }),
    decreases s.len(),
{
    lemma_insert_key_len(s, x);
    if s.len() == 0 {
    } else if key_le(s.last(), x) {
        let r = s.push(x);
        assert forall|i: int| 0 <= i < r.len() - 1 implies key_le(#[trigger] r[i], r[i + 1]) by {
            if i < s.len() - 1 {
                assert(key_le(s[i], s[i + 1]));
            }
        }
    } else {
        let dl = s.drop_last();
        assert(seq_ordered(dl)) by {
            assert forall|i: int| 0 <= i < dl.len() - 1 implies key_le(#[trigger] dl[i], dl[i + 1]) by {
                assert(key_le(s[i], s[i + 1]));
            }
        }
        assert(seq_no_nan(dl)) by {
            assert forall|i: int| 0 <= i < dl.len() implies !is_nan_bits(#[trigger] dl[i]) by {
                assert(!is_nan_bits(s[i]));
            }
        }
        lemma_insert_key_ordered(dl, x);
        let inner = insert_key(dl, x);
        let r = inner.push(s.last());
        assert(key_le(inner.last(), s.last())) by {
            assert(!is_nan_bits(s.last())) by {
                assert(!is_nan_bits(s[s.len() - 1]));
            }
            if dl.len() == 0 || key_le(dl.last(), x) {
                assert(inner.last() == x);
            } else {
                assert(inner.last() == dl.last());
                assert(key_le(s[s.len() - 2], s[s.len() - 1]));
            }
        }
        assert forall|i: int| 0 <= i < r.len() - 1 implies key_le(#[trigger] r[i], r[i + 1]) by {
            if i < inner.len() - 1 {
                assert(key_le(inner[i], inner[i + 1]));
            } else {
                assert(r[i] == inner.last());
            }
        }
        assert forall|i: int| 0 <= i < r.len() implies !is_nan_bits(#[trigger] r[i]) by {
            if i < inner.len() {
                assert(!is_nan_bits(inner[i]));
            } else {
                assert(!is_nan_bits(s[s.len() - 1]));
            }
        }
    }
}

/// Sorting a NaN-free sequence yields an ascending, NaN-free sequence.
pub proof fn lemma_sort_key_ordered(s: Seq<u64>)
    requires
        seq_no_nan(s),
    ensures
        seq_ordered(sort_key(s)),
        seq_no_nan(sort_key(s)),
    decreases s.len(),
{
    if s.len() > 0 {
        let dl = s.drop_last();
        assert(seq_no_nan(dl)) by {
            assert forall|i: int| 0 <= i < dl.len() implies !is_nan_bits(#[trigger] dl[i]) by {
                assert(!is_nan_bits(s[i]));
            }
        }
        lemma_sort_key_ordered(dl);
        assert(!is_nan_bits(s[s.len() - 1]));
        lemma_insert_key_ordered(sort_key(dl), s.last());
    }
}

/// The insertion step only reorders: it holds the same elements, with
/// multiplicity, as pushing `x`.
proof fn lemma_insert_key_multiset(s: Seq<u64>, x: u64)
    ensures
        insert_key(s, x).to_multiset() == s.push(x).to_multiset(),
    decreases s.len(),
{
    broadcast use vstd::seq_lib::group_to_multiset_ensures;

    if s.len() == 0 {
        assert(seq![x] =~= Seq::<u64>::empty().push(x));
    } else if key_le(s.last(), x) {
    } else {
        let dl = s.drop_last();
        lemma_insert_key_multiset(dl, x);
        assert(insert_key(s, x).to_multiset() =~= insert_key(dl, x).to_multiset().insert(
            s.last(),
        ));
        assert(dl.push(x).to_multiset() =~= dl.to_multiset().insert(x));
        assert(s =~= dl.push(s.last()));
        assert(s.push(x).to_multiset() =~= s.to_multiset().insert(x));
        assert(s.to_multiset() =~= dl.to_multiset().insert(s.last()));
        assert(dl.to_multiset().insert(x).insert(s.last()) =~= dl.to_multiset().insert(
            s.last(),
        ).insert(x));
    }
}

/// Sorting only reorders: the sorted sequence holds the same elements,
/// with multiplicity, as the input.
pub proof fn lemma_sort_key_permutes(s: Seq<u64>)
    ensures
        sort_key(s).to_multiset() == s.to_multiset(),
    decreases s.len(),
{
    broadcast use vstd::seq_lib::group_to_multiset_ensures;

    if s.len() > 0 {
        let dl = s.drop_last();
        lemma_sort_key_permutes(dl);
        lemma_insert_key_multiset(sort_key(dl), s.last());
        assert(s =~= dl.push(s.last()));
        assert(sort_key(dl).push(s.last()).to_multiset() =~= sort_key(dl).to_multiset().insert(
            s.last(),
        ));
        assert(s.to_multiset() =~= dl.to_multiset().insert(s.last()));
    }
}

fn insert_sorted(v: &mut Vec<u64>, x: u64)
    ensures
        final(v)@ == insert_key(old(v)@, x),
{
    let mut j: usize = v.len();
    while j > 0 && !f_le(v[j - 1], x)
        invariant
            j <= v.len(),
            v@ == old(v)@,
            forall|t: int| j <= t < v@.len() ==> !key_le(#[trigger] v@[t], x),
        decreases j,
    {
        j = j - 1;
    }
    proof {
        lemma_insert_key_split(v@, x, j as int);
    }
    v.insert(j, x);
}

fn sort_heights(v: &mut Vec<u64>)
    ensures
        final(v)@ == sort_key(old(v)@),
{
    let mut out: Vec<u64> = Vec::new();
    let mut i: usize = 0;
    while i < v.len()
        invariant
            i <= v.len(),
            v@ == old(v)@,
            out@ == sort_key(v@.subrange(0, i as int)),
        decreases v.len() - i,
    {
        let xi = v[i];
        insert_sorted(&mut out, xi);
        proof {
            assert(v@.subrange(0, i as int + 1).drop_last() =~= v@.subrange(0, i as int));
            assert(v@.subrange(0, i as int + 1).last() == v@[i as int]);
        }
        i = i + 1;
    }
    proof {
        assert(v@.subrange(0, v@.len() as int) =~= v@);
    }
    *v = out;
}

/// The insertion cell of a steady-state observation `x` that does not
/// lie outside the marker heights `h`: the first interior boundary with
/// `h[k] <= x < h[k+1]`. `None` when no boundary admits `x` (possible
/// only when a NaN is involved).
pub open spec fn cell_of(h: Seq<u64>, x: u64) -> Option<int> {
    if key_le(h[0], x) && key_lt(x, h[1]) {
        Option::Some(0int)
    } else if key_le(h[1], x) && key_lt(x, h[2]) {
        Option::Some(1int)
    } else if key_le(h[2], x) && key_lt(x, h[3]) {
        Option::Some(2int)
    } else if key_le(h[3], x) && key_lt(x, h[4]) {
        Option::Some(3int)
    } else {
        Option::None
    }
}

/// Locating a steady-state observation: an observation below the lowest
/// height replaces it (cell 0); one at or above the highest replaces that
/// (cell 3); otherwise its interior cell is searched for.
pub open spec fn locate(h: Seq<u64>, x: u64) -> (Option<int>, Seq<u64>) {
    if key_lt(x, h[0]) {
        (Option::Some(0int), h.update(0, x))
    } else if key_le(h[4], x) {
        (Option::Some(3int), h.update(4, x))
    } else {
        (cell_of(h, x), h)
    }
}

/// Every marker above the insertion cell gains one rank.
pub open spec fn shift_pos(pos: Seq<int>, k: Option<int>) -> Seq<int> {
    match k {
        Option::Some(kk) => Seq::new(5, |i: int| if i > kk { pos[i] + 1 } else { pos[i] }),
        Option::None => pos,
    }
}

/// The state after locating an observation, shifting the actual ranks,
/// and advancing every desired rank by its increment.
pub open spec fn shifted(m: Model, x: u64) -> Model {
    Model {
        heights: locate(m.heights, x).1,
        pos: shift_pos(m.pos, locate(m.heights, x).0),
        n_pos: Seq::new(5, |i: int| f64_add(m.n_pos[i], m.dn[i])),
        ..m
    }
}

/// The piecewise-parabolic predictor: the candidate height for a marker
/// moving by `d` (the bits of `1.0` or `-1.0`), fitted through its own
/// point `(n, q)` and its neighbours `(nm1, qm1)` and `(np1, qp1)`, with
/// every operation a binary64 operation on bits.
pub open spec fn parabolic_spec(
    d: u64,
    qp1: u64,
    q: u64,
    qm1: u64,
    np1: u64,
    n: u64,
    nm1: u64,
) -> u64 {
    let a = f64_div(d, f64_sub(np1, nm1));
    let b1 = f64_div(f64_mul(f64_add(f64_sub(n, nm1), d), f64_sub(qp1, q)), f64_sub(np1, n));
    let b2 = f64_div(f64_mul(f64_sub(f64_sub(np1, n), d), f64_sub(q, qm1)), f64_sub(n, nm1));
    f64_add(q, f64_mul(a, f64_add(b1, b2)))
}

/// Drift of marker `i`: desired rank minus actual rank, as binary64 bits.
pub open spec fn adj_d(m: Model, i: int) -> u64 {
    f64_sub(m.n_pos[i], f64_of_i64(m.pos[i]))
}

/// Marker `i` must move up: drift at least one, and room below the
/// right neighbour.
pub open spec fn adj_up(m: Model, i: int) -> bool {
    key_le(F_ONE, adj_d(m, i)) && m.pos[i + 1] - m.pos[i] > 1
}

/// Marker `i` must move down: drift at most minus one, and room above
/// the left neighbour.
pub open spec fn adj_down(m: Model, i: int) -> bool {
    key_le(adj_d(m, i), F_NEG_ONE) && m.pos[i - 1] - m.pos[i] < -1
}

/// The parabolic candidate for a triggered move of marker `i`.
pub open spec fn adj_cand(m: Model, i: int) -> u64 {
    parabolic_spec(
        if adj_up(m, i) {
            F_ONE
        } else {
            F_NEG_ONE
        },
        m.heights[i + 1],
        m.heights[i],
        m.heights[i - 1],
        f64_of_i64(m.pos[i + 1]),
        f64_of_i64(m.pos[i]),
        f64_of_i64(m.pos[i - 1]),
    )
}

/// Whether the parabolic candidate is accepted: it must lie strictly
/// between the neighbouring heights.
pub open spec fn adj_accepts(m: Model, i: int) -> bool {
    key_lt(m.heights[i - 1], adj_cand(m, i)) && key_lt(adj_cand(m, i), m.heights[i + 1])
}

/// The linear-interpolation fallback height for a move of marker `i` in
/// direction `sign`.
pub open spec fn adj_linear(m: Model, i: int, sign: int) -> u64 {
    let sbits = if sign == 1 {
        F_ONE
    } else {
        F_NEG_ONE
    };
    f64_add(
        m.heights[i],
        f64_div(
            f64_mul(sbits, f64_sub(m.heights[i + sign], m.heights[i])),
            f64_of_i64(m.pos[i + sign] - m.pos[i]),
        ),
    )
}

/// One marker adjustment: when triggered, marker `i` moves one rank in
/// the drift's direction and takes the parabolic candidate if accepted,
/// the linear fallback otherwise.
pub open spec fn adjust_one_spec(m: Model, i: int) -> Model {
    if adj_up(m, i) || adj_down(m, i) {
        let sign: int = if adj_up(m, i) {
            1
        } else {
            -1
        };
        let h_new = if adj_accepts(m, i) {
            adj_cand(m, i)
        } else {
            adj_linear(m, i, sign)
        };
        Model { heights: m.heights.update(i, h_new), pos: m.pos.update(i, m.pos[i] + sign), ..m }
    } else {
        m
    }
}

/// Marker `i`'s triggered move rejected its parabolic candidate and fell
/// back to linear interpolation.
pub open spec fn uses_fallback(m: Model, i: int) -> bool {
    (adj_up(m, i) || adj_down(m, i)) && !adj_accepts(m, i)
}

/// A full steady-state update: locate and shift, then adjust the three
/// interior markers in order.
pub open spec fn steady_step(m: Model, x: u64) -> Model {
    adjust_one_spec(adjust_one_spec(adjust_one_spec(shifted(m, x), 1), 2), 3)
}

/// Every interior adjustment of this steady-state update accepts its
/// parabolic candidate.
pub open spec fn parabolic_only(m: Model, x: u64) -> bool {
    let m1 = shifted(m, x);
    let m2 = adjust_one_spec(m1, 1);
    let m3 = adjust_one_spec(m2, 2);
    !uses_fallback(m1, 1) && !uses_fallback(m2, 2) && !uses_fallback(m3, 3)
}

/// What one observation does to the estimator: buffered while fewer than
/// four observations are stored, seeding the markers from the sorted
/// buffer on the fifth, and the steady-state update protocol afterwards.
pub open spec fn step(m: Model, x: u64) -> Model {
    if m.heights.len() < 4 {
        Model { heights: m.heights.push(x), ..m }
    } else if !m.filled {
        Model { heights: sort_key(m.heights.push(x)), filled: true, ..m }
    } else {
        steady_step(m, x)
    }
}

/// Well-formedness of a filled estimator: five seeded markers with the
/// actual ranks strictly increasing from zero.
pub open spec fn steady_wf(m: Model) -> bool {
    &&& m.pos.len() == 5
    &&& m.n_pos.len() == 5
    &&& m.dn.len() == 5
    &&& m.heights.len() == 5
    &&& m.filled
    &&& m.pos[0] == 0
    &&& (forall|i: int| 0 <= i < 4 ==> #[trigger] m.pos[i] < m.pos[i + 1])
}

fn parabolic(d: u64, qp1: u64, q: u64, qm1: u64, np1: u64, n: u64, nm1: u64) -> (r: u64)
    ensures
        r == parabolic_spec(d, qp1, q, qm1, np1, n, nm1),
{
    let a = f_div(d, f_sub(np1, nm1));
    let b1 = f_div(f_mul(f_add(f_sub(n, nm1), d), f_sub(qp1, q)), f_sub(np1, n));
    let b2 = f_div(f_mul(f_sub(f_sub(np1, n), d), f_sub(q, qm1)), f_sub(n, nm1));
    f_add(q, f_mul(a, f_add(b1, b2)))
}

/// The reason construction can fail.
#[derive(Debug, PartialEq, Eq, Structural)]
pub enum P2Error {
    /// The requested quantile lies outside `[0, 1]`.
    InvalidArgument,
}

impl P2 {
    /// Constructs an estimator for the target quantile `quantile`
    /// (binary64 bits). Fails exactly when the quantile is below `0.0`
    /// or above `1.0`.
    pub fn new(quantile: u64) -> (r: Result<P2, P2Error>)
        ensures
            r is Err <==> (key_lt(quantile, F_ZERO) || key_lt(F_ONE, quantile)),
            r is Err ==> r == Result::<P2, P2Error>::Err(P2Error::InvalidArgument),
            r is Ok ==> (r->Ok_0)@ == init_model(quantile) && wf((r->Ok_0)@),
    {
        if f_lt(quantile, F_ZERO) || f_lt(F_ONE, quantile) {
            return Result::Err(P2Error::InvalidArgument);
        }
        let n_pos: [u64; 5] = [
            F_ZERO,
            f_mul(F_TWO, quantile),
            f_mul(F_FOUR, quantile),
            f_add(F_TWO, f_mul(F_TWO, quantile)),
            F_FOUR,
        ];
        let dn: [u64; 5] = [
            F_ZERO,
            f_div(quantile, F_TWO),
            quantile,
            f_div(f_add(F_ONE, quantile), F_TWO),
            F_ONE,
        ];
        let pos: [i64; 5] = [0, 1, 2, 3, 4];
        let est = P2 { quantile, heights: Vec::new(), pos, n_pos, dn, filled: false };
        proof {
            assert(est@.pos =~= init_model(quantile).pos);
            assert(est@.n_pos =~= init_model(quantile).n_pos);
            assert(est@.dn =~= init_model(quantile).dn);
            assert(est@.heights =~= init_model(quantile).heights);
            assert(est@ =~= init_model(quantile));
        }
        Result::Ok(est)
    }

    fn adjust_one(&mut self, i: usize)
        requires
            1 <= i <= 3,
            steady_wf(old(self)@),
        ensures
            final(self)@ == adjust_one_spec(old(self)@, i as int),
            steady_wf(final(self)@),
            final(self)@.pos[4] == old(self)@.pos[4],
    {
        let ghost m0 = old(self)@;
        let ghost ii = i as int;
        proof {
            assert(m0.pos[0] < m0.pos[1]);
            assert(m0.pos[1] < m0.pos[2]);
            assert(m0.pos[2] < m0.pos[3]);
            assert(m0.pos[3] < m0.pos[4]);
        }
        let d_bits = f_sub(self.n_pos[i], f_of_i64(self.pos[i]));
        let up = f_le(F_ONE, d_bits) && self.pos[i + 1] - self.pos[i] > 1;
        let down = f_le(d_bits, F_NEG_ONE) && self.pos[i - 1] - self.pos[i] < -1;
        proof {
            assert(d_bits == adj_d(m0, ii));
            assert(up == adj_up(m0, ii));
            assert(down == adj_down(m0, ii));
        }
        if up || down {
            let sbits = if up {
                F_ONE
            } else {
                F_NEG_ONE
            };
            let cand = parabolic(
                sbits,
                self.heights[i + 1],
                self.heights[i],
                self.heights[i - 1],
                f_of_i64(self.pos[i + 1]),
                f_of_i64(self.pos[i]),
                f_of_i64(self.pos[i - 1]),
            );
            proof {
                assert(cand == adj_cand(m0, ii));
            }
            let h_new: u64;
            if f_lt(self.heights[i - 1], cand) && f_lt(cand, self.heights[i + 1]) {
                h_new = cand;
            } else if up {
                h_new = f_add(
                    self.heights[i],
                    f_div(
                        f_mul(sbits, f_sub(self.heights[i + 1], self.heights[i])),
                        f_of_i64(self.pos[i + 1] - self.pos[i]),
                    ),
                );
                proof {
                    assert(h_new == adj_linear(m0, ii, 1));
                }
            } else {
                h_new = f_add(
                    self.heights[i],
                    f_div(
                        f_mul(sbits, f_sub(self.heights[i - 1], self.heights[i])),
                        f_of_i64(self.pos[i - 1] - self.pos[i]),
                    ),
                );
                proof {
                    assert(h_new == adj_linear(m0, ii, -1));
                }
            }
            self.heights[i] = h_new;
            if up {
                self.pos[i] = self.pos[i] + 1;
            } else {
                self.pos[i] = self.pos[i] - 1;
            }
            proof {
                assert(self@.heights =~= adjust_one_spec(m0, ii).heights);
                assert(self@.pos =~= adjust_one_spec(m0, ii).pos);
                assert(self@ =~= adjust_one_spec(m0, ii));
                assert forall|j: int| 0 <= j < 4 implies #[trigger] self@.pos[j] < self@.pos[j + 1] by {
                    assert(m0.pos[j] < m0.pos[j + 1]);
                }
            }
        } else {
            proof {
                assert(self@ =~= m0);
                assert(self@ =~= adjust_one_spec(m0, ii));
            }
        }
    }

    fn append_steady(&mut self, data: u64)
        requires
            steady_wf(old(self)@),
            old(self)@.pos[4] < i64::MAX,
        ensures
            final(self)@ == steady_step(old(self)@, data),
            steady_wf(final(self)@),
    {
        let ghost m0 = old(self)@;
        proof {
            assert(m0.pos[0] < m0.pos[1]);
            assert(m0.pos[1] < m0.pos[2]);
            assert(m0.pos[2] < m0.pos[3]);
            assert(m0.pos[3] < m0.pos[4]);
        }
        let mut k: usize = 0;
        let mut found: bool = false;
        if f_lt(data, self.heights[0]) {
            self.heights[0] = data;
            k = 0;
            found = true;
        } else if f_le(self.heights[4], data) {
            self.heights[4] = data;
            k = 3;
            found = true;
        } else {
            if f_le(self.heights[0], data) && f_lt(data, self.heights[1]) {
                k = 0;
                found = true;
            } else if f_le(self.heights[1], data) && f_lt(data, self.heights[2]) {
                k = 1;
                found = true;
            } else if f_le(self.heights[2], data) && f_lt(data, self.heights[3]) {
                k = 2;
                found = true;
            } else if f_le(self.heights[3], data) && f_lt(data, self.heights[4]) {
                k = 3;
                found = true;
            }
        }
        let ghost ksp = locate(m0.heights, data).0;
        proof {
            assert(self@.heights =~= locate(m0.heights, data).1);
            assert(found <==> ksp is Some);
            assert(found ==> ksp == Option::Some(k as int));
        }
        let mut idx: usize = 0;
        while idx < 5
            invariant
                idx <= 5,
                k <= 3,
                found <==> ksp is Some,
                found ==> ksp == Option::Some(k as int),
                self@.heights == locate(m0.heights, data).1,
                self@.quantile == m0.quantile,
                self@.dn == m0.dn,
                self@.filled == m0.filled,
                m0.pos.len() == 5,
                m0.n_pos.len() == 5,
                m0.dn.len() == 5,
                forall|j: int| 0 <= j < 5 ==> 0 <= #[trigger] m0.pos[j] < i64::MAX,
                forall|j: int|
                    0 <= j < idx ==> #[trigger] self@.pos[j] == shift_pos(m0.pos, ksp)[j],
                forall|j: int| idx <= j < 5 ==> #[trigger] self@.pos[j] == m0.pos[j],
                forall|j: int|
                    0 <= j < idx ==> #[trigger] self@.n_pos[j] == f64_add(m0.n_pos[j], m0.dn[j]),
                forall|j: int| idx <= j < 5 ==> #[trigger] self@.n_pos[j] == m0.n_pos[j],
            decreases 5 - idx,
        {
            let ghost prev = self@;
            proof {
                assert(self@.pos[idx as int] == m0.pos[idx as int]);
                assert(self@.n_pos[idx as int] == m0.n_pos[idx as int]);
            }
            if found && idx > k {
                self.pos[idx] = self.pos[idx] + 1;
            }
            self.n_pos[idx] = f_add(self.n_pos[idx], self.dn[idx]);
            proof {
                assert forall|j: int| 0 <= j < 5 && j != idx as int implies #[trigger] self@.pos[j]
                    == prev.pos[j] && self@.n_pos[j] == prev.n_pos[j] by {
                }
                assert(self@.pos[idx as int] == shift_pos(m0.pos, ksp)[idx as int]);
                assert(self@.n_pos[idx as int] == f64_add(m0.n_pos[idx as int], m0.dn[idx as int]));
            }
            idx = idx + 1;
        }
        proof {
            assert(self@.pos =~= shifted(m0, data).pos);
            assert(self@.n_pos =~= shifted(m0, data).n_pos);
            assert(self@ =~= shifted(m0, data));
            assert(steady_wf(self@)) by {
                assert forall|j: int| 0 <= j < 4 implies #[trigger] self@.pos[j] < self@.pos[j + 1] by {
                    assert(m0.pos[j] < m0.pos[j + 1]);
                }
            }
        }
        self.adjust_one(1);
        self.adjust_one(2);
        self.adjust_one(3);
    }

    /// Records one observation `data` (binary64 bits): buffered while
    /// fewer than five observations have arrived, seeding the five
    /// markers from the sorted buffer on the fifth, and running the
    /// marker update protocol afterwards.
    pub fn append(&mut self, data: u64)
        requires
            wf(old(self)@),
            old(self)@.filled ==> old(self)@.pos[4] < i64::MAX,
        ensures
            final(self)@ == step(old(self)@, data),
            wf(final(self)@),
    {
        let ghost m0 = old(self)@;
        if self.heights.len() < 4 {
            self.heights.push(data);
            proof {
                assert(self@ =~= step(m0, data));
            }
        } else if !self.filled {
            self.heights.push(data);
            sort_heights(&mut self.heights);
            self.filled = true;
            proof {
                lemma_sort_key_len(m0.heights.push(data));
                assert(self@ =~= step(m0, data));
            }
        } else {
            self.append_steady(data);
            proof {
                assert(self@ == step(m0, data));
            }
        }
    }

    /// The current estimate (binary64 bits). Once filled this is the
    /// middle marker's height; during warm-up it is `0.0` with no
    /// observations, the sole observation with one, and otherwise the
    /// element of the sorted buffer at rank `⌊quantile · count⌋`,
    /// clamped to the last index (the buffer is left sorted).
    pub fn value(&mut self) -> (r: u64)
        requires
            wf(old(self)@),
        ensures
            wf(final(self)@),
            old(self)@.filled ==> final(self)@ == old(self)@ && r == old(self)@.heights[2],
            !old(self)@.filled && old(self)@.heights.len() == 0 ==> final(self)@ == old(self)@
                && r == F_ZERO,
            !old(self)@.filled && old(self)@.heights.len() == 1 ==> final(self)@ == old(self)@
                && r == old(self)@.heights[0],
            !old(self)@.filled && old(self)@.heights.len() >= 2 ==> final(self)@ == (Model {
                heights: sort_key(old(self)@.heights),
                ..old(self)@
            }) && r == sort_key(old(self)@.heights)[warmup_rank(
                old(self)@.quantile,
                old(self)@.heights.len() as int,
            )],
    {
        let ghost m0 = old(self)@;
        if !self.filled {
            let l = self.heights.len();
            if l == 0 {
                return F_ZERO;
            }
            if l == 1 {
                return self.heights[0];
            }
            sort_heights(&mut self.heights);
            proof {
                lemma_sort_key_len(m0.heights);
                assert(self@ =~= (Model { heights: sort_key(m0.heights), ..m0 }));
            }
            let rank = f_to_usize(f_mul(self.quantile, f_of_i64(l as i64)));
            let index = if rank < l - 1 {
                rank
            } else {
                l - 1
            };
            return self.heights[index];
        }
        self.heights[2]
    }
}

/// One marker adjustment that does not fall back to linear interpolation
/// keeps the heights ascending and NaN-free: the parabolic candidate is
/// only accepted strictly between the neighbouring heights.
proof fn lemma_adjust_keeps_order(m: Model, i: int)
    requires
        m.heights.len() == 5,
        1 <= i <= 3,
        seq_ordered(m.heights),
        seq_no_nan(m.heights),
        !uses_fallback(m, i),
    ensures
        seq_ordered(adjust_one_spec(m, i).heights),
        seq_no_nan(adjust_one_spec(m, i).heights),
{
    if adj_up(m, i) || adj_down(m, i) {
        let c = adj_cand(m, i);
        let r = m.heights.update(i, c);
        assert(key_lt(m.heights[i - 1], c) && key_lt(c, m.heights[i + 1]));
        assert forall|j: int| 0 <= j < r.len() - 1 implies key_le(#[trigger] r[j], r[j + 1]) by {
            if j != i - 1 && j != i {
                assert(key_le(m.heights[j], m.heights[j + 1]));
            }
        }
        assert forall|j: int| 0 <= j < r.len() implies !is_nan_bits(#[trigger] r[j]) by {
            if j != i {
                assert(!is_nan_bits(m.heights[j]));
            }
        }
    }
}

/// Once the estimator is filled, an append keeps the five marker heights
/// in ascending order, provided the observation is not NaN and every
/// marker move of that append accepts its parabolic candidate. (A move
/// that falls back to linear interpolation is outside this statement:
/// nothing is assumed about how the interpolated height rounds.)
pub proof fn lemma_filled_append_keeps_order(m: Model, x: u64)
    requires
        wf(m),
        m.filled,
        seq_ordered(m.heights),
        seq_no_nan(m.heights),
        !is_nan_bits(x),
        parabolic_only(m, x),
    ensures
        seq_ordered(step(m, x).heights),
        seq_no_nan(step(m, x).heights),
{
    let m1 = shifted(m, x);
    let h1 = m1.heights;
    assert(seq_ordered(h1) && seq_no_nan(h1)) by {
        if key_lt(x, m.heights[0]) {
            assert forall|j: int| 0 <= j < h1.len() - 1 implies key_le(
                #[trigger] h1[j],
                h1[j + 1],
            ) by {
                assert(key_le(m.heights[j], m.heights[j + 1]));
            }
            assert forall|j: int| 0 <= j < h1.len() implies !is_nan_bits(#[trigger] h1[j]) by {
                assert(!is_nan_bits(m.heights[j]));
            }
        } else if key_le(m.heights[4], x) {
            assert forall|j: int| 0 <= j < h1.len() - 1 implies key_le(
                #[trigger] h1[j],
                h1[j + 1],
            ) by {
                assert(key_le(m.heights[j], m.heights[j + 1]));
            }
            assert forall|j: int| 0 <= j < h1.len() implies !is_nan_bits(#[trigger] h1[j]) by {
                assert(!is_nan_bits(m.heights[j]));
            }
        }
    }
    let m2 = adjust_one_spec(m1, 1);
    let m3 = adjust_one_spec(m2, 2);
    lemma_adjust_keeps_order(m1, 1);
    lemma_adjust_keeps_order(m2, 2);
    lemma_adjust_keeps_order(m3, 3);
}

/// The heights are in ascending order as soon as the markers are seeded:
/// the fifth observation sorts the NaN-free buffer.
pub proof fn lemma_fill_append_sorted(m: Model, x: u64)
    requires
        wf(m),
        !m.filled,
        m.heights.len() == 4,
        seq_no_nan(m.heights),
        !is_nan_bits(x),
    ensures
        seq_ordered(step(m, x).heights),
        seq_no_nan(step(m, x).heights),
{
    let b = m.heights.push(x);
    assert(seq_no_nan(b)) by {
        assert forall|j: int| 0 <= j < b.len() implies !is_nan_bits(#[trigger] b[j]) by {
            if j < m.heights.len() {
                assert(!is_nan_bits(m.heights[j]));
            }
        }
    }
    lemma_sort_key_ordered(b);
}

/// Once the estimator is filled, the lowest marker height tracks the
/// running minimum: an observation below it replaces it, and nothing
/// else ever changes it.
pub proof fn lemma_filled_append_tracks_min(m: Model, x: u64)
    requires
        wf(m),
        m.filled,
    ensures
        step(m, x).heights[0] == (if key_lt(x, m.heights[0]) {
            x
        } else {
            m.heights[0]
        }),
{
    let m1 = shifted(m, x);
    let m2 = adjust_one_spec(m1, 1);
    let m3 = adjust_one_spec(m2, 2);
    let m4 = adjust_one_spec(m3, 3);
    assert(m1.heights[0] == (if key_lt(x, m.heights[0]) {
        x
    } else {
        m.heights[0]
    }));
    assert(m2.heights[0] == m1.heights[0]);
    assert(m3.heights[0] == m2.heights[0]);
    assert(m4.heights[0] == m3.heights[0]);
}

/// Once the estimator is filled, the highest marker height tracks the
/// running maximum: an observation at or above it replaces it, and
/// nothing else ever changes it.
pub proof fn lemma_filled_append_tracks_max(m: Model, x: u64)
    requires
        wf(m),
        m.filled,
        key_le(m.heights[0], m.heights[4]),
    ensures
        step(m, x).heights[4] == (if key_le(m.heights[4], x) {
            x
        } else {
            m.heights[4]
        }),
{
    if key_le(m.heights[4], x) {
        assert(!key_lt(x, m.heights[0]));
    }
    let m1 = shifted(m, x);
    let m2 = adjust_one_spec(m1, 1);
    let m3 = adjust_one_spec(m2, 2);
    let m4 = adjust_one_spec(m3, 3);
    assert(m1.heights[4] == (if key_le(m.heights[4], x) {
        x
    } else {
        m.heights[4]
    }));
    assert(m2.heights[4] == m1.heights[4]);
    assert(m3.heights[4] == m2.heights[4]);
    assert(m4.heights[4] == m3.heights[4]);
}

/// One triggered marker adjustment keeps the actual ranks strictly
/// increasing: a marker only moves toward a neighbour at least two
/// ranks away.
proof fn lemma_adjust_wf(m: Model, i: int)
    requires
        steady_wf(m),
        1 <= i <= 3,
    ensures
        steady_wf(adjust_one_spec(m, i)),
{
    let r = adjust_one_spec(m, i);
    assert forall|j: int| 0 <= j < 4 implies #[trigger] r.pos[j] < r.pos[j + 1] by {
        assert(m.pos[j] < m.pos[j + 1]);
    }
}

/// One observation keeps the estimator well formed; in particular, once
/// the markers are filled their actual ranks stay strictly increasing
/// from zero after every append.
pub proof fn lemma_step_wf(m: Model, x: u64)
    requires
        wf(m),
    ensures
        wf(step(m, x)),
        step(m, x).filled <==> (m.filled || m.heights.len() == 4),
{
    if m.heights.len() < 4 {
    } else if !m.filled {
        lemma_sort_key_len(m.heights.push(x));
    } else {
        let m1 = shifted(m, x);
        assert forall|j: int| 0 <= j < 4 implies #[trigger] m1.pos[j] < m1.pos[j + 1] by {
            assert(m.pos[j] < m.pos[j + 1]);
        }
        assert(steady_wf(m1));
        lemma_adjust_wf(m1, 1);
        lemma_adjust_wf(adjust_one_spec(m1, 1), 2);
        lemma_adjust_wf(adjust_one_spec(adjust_one_spec(m1, 1), 2), 3);
    }
}

/// The estimator state after appending a whole stream of observations.
pub open spec fn run(m: Model, xs: Seq<u64>) -> Model
    decreases xs.len(),
{
    if xs.len() == 0 {
        m
    } else {
        step(run(m, xs.drop_last()), xs.last())
    }
}

/// The smaller, by binary64 order, of `a` and every element of `xs`
/// (elements that compare as NaN does never win).
pub open spec fn stream_min(a: u64, xs: Seq<u64>) -> u64
    decreases xs.len(),
{
    if xs.len() == 0 {
        a
    } else if key_lt(xs.last(), stream_min(a, xs.drop_last())) {
        xs.last()
    } else {
        stream_min(a, xs.drop_last())
    }
}

/// The larger, by binary64 order, of `a` and every element of `xs`
/// (elements that compare as NaN does never win).
pub open spec fn stream_max(a: u64, xs: Seq<u64>) -> u64
    decreases xs.len(),
{
    if xs.len() == 0 {
        a
    } else if key_le(stream_max(a, xs.drop_last()), xs.last()) {
        xs.last()
    } else {
        stream_max(a, xs.drop_last())
    }
}

/// Once the estimator is filled, the lowest marker height is exactly the
/// running minimum of its seeded value and every later observation, and
/// the highest is exactly the running maximum: out-of-range observations
/// replace them directly, and nothing else ever touches them.
pub proof fn lemma_run_tracks_extremes(m: Model, xs: Seq<u64>)
    requires
        wf(m),
        m.filled,
        key_le(m.heights[0], m.heights[4]),
    ensures
        wf(run(m, xs)),
        run(m, xs).filled,
        run(m, xs).heights[0] == stream_min(m.heights[0], xs),
        run(m, xs).heights[4] == stream_max(m.heights[4], xs),
        key_le(run(m, xs).heights[0], run(m, xs).heights[4]),
    decreases xs.len(),
{
    if xs.len() > 0 {
        lemma_run_tracks_extremes(m, xs.drop_last());
        let p = run(m, xs.drop_last());
        let x = xs.last();
        lemma_step_wf(p, x);
        lemma_filled_append_tracks_min(p, x);
        lemma_filled_append_tracks_max(p, x);
    }
}

/// Every steady-state update along the stream `xs` accepts all of its
/// parabolic candidates.
pub open spec fn run_parabolic_only(m: Model, xs: Seq<u64>) -> bool
    decreases xs.len(),
{
    if xs.len() == 0 {
        true
    } else {
        run_parabolic_only(m, xs.drop_last()) && parabolic_only(
            run(m, xs.drop_last()),
            xs.last(),
        )
    }
}

/// Once the estimator is filled with ascending heights, the heights are
/// still ascending after every append of a NaN-free stream whose marker
/// moves all accept their parabolic candidates.
pub proof fn lemma_run_keeps_order(m: Model, xs: Seq<u64>)
    requires
        wf(m),
        m.filled,
        seq_ordered(m.heights),
        seq_no_nan(m.heights),
        seq_no_nan(xs),
        run_parabolic_only(m, xs),
    ensures
        wf(run(m, xs)),
        run(m, xs).filled,
        seq_ordered(run(m, xs).heights),
        seq_no_nan(run(m, xs).heights),
    decreases xs.len(),
{
    if xs.len() > 0 {
        let dl = xs.drop_last();
        assert(seq_no_nan(dl)) by {
            assert forall|i: int| 0 <= i < dl.len() implies !is_nan_bits(#[trigger] dl[i]) by {
                assert(!is_nan_bits(xs[i]));
            }
        }
        lemma_run_keeps_order(m, dl);
        lemma_step_wf(run(m, dl), xs.last());
        assert(!is_nan_bits(xs[xs.len() - 1]));
        lemma_filled_append_keeps_order(run(m, dl), xs.last());
    }
}

/// The rank of the warm-up estimate among `l` sorted observations:
/// `⌊quantile · l⌋`, clamped to the last index.
pub open spec fn warmup_rank(q: u64, l: int) -> int {
    let rank = f64_to_usize(f64_mul(q, f64_of_i64(l)));
    if rank < l - 1 {
        rank
    } else {
        l - 1
    }
}

} // verus!
