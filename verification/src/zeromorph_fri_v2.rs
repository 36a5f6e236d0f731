//! The degree-checked Zeromorph reduction, and the verifier's check of one
//! query: the openings of the committed columns, the value of the virtual
//! polynomial at the queried point and its negation, and the folding rounds
//! from that pair on.
use crate::basefold::{query_shape, query_views, rounds_outcome, verifier_query_phase, QueryError};
use crate::fold::exp_u64;
use crate::hash::digest_eq;
use crate::domain::RootOfUnity;
use crate::merkle::{authenticate_merkle_path, pairs_view, path_chain_ok};
use crate::merkle_tree::sibling;
use crate::mersenne_61_mont::{
    fadd, finv, fmul, fneg, fpow, fsub, lemma_fmul_comm, lemma_view_range, views, Mersenne61Mont,
};
use crate::p3_fri::{
    bit_reversed, evaluate_over_foldable_domain, foldable_encoding, foldable_table_ok, lemma_encoding_len,
    reverse_index_bits_in_place, table_view,
};
use crate::util::pow2_of;
use std::marker::PhantomData;
use vstd::arithmetic::power2::{lemma2_to64, lemma_pow2_adds, lemma_pow2_pos, lemma_pow2_strictly_increases, pow2};
use vstd::prelude::*;

verus! {

broadcast use lemma_view_range;

/// The degree-checked Zeromorph reduction of multilinear claims to a
/// univariate scheme `Pcs`; its scalars are
/// `crate::zeromorph_fri::eval_and_quotient_scalars_degree_checked`.
pub struct ZeromorphFriV2<Pcs>(PhantomData<Pcs>);

/// Why the verifier rejects a query.
#[derive(Clone, Copy, Debug, PartialEq, Eq, Structural)]
pub enum QueryCheckError {
    /// The opening of column `j` does not end in the column's root, held twice.
    ColumnRoot(usize),
    /// The opening of column `j` does not authenticate the column's pair.
    ColumnPath(usize),
    /// The queried point or its negation is the evaluation point.
    Pole,
    /// A folding round rejects.
    Round(QueryError),
}

/// `s` added to `a` term after term.
pub open spec fn add_terms(a: int, s: Seq<int>) -> int
    decreases s.len(),
{
    if s.len() == 0 {
        a
    } else {
        fadd(add_terms(a, s.drop_last()), s.last())
    }
}

/// The point of the last level at `query`: entry `query / 2` of the level,
/// negated for an odd query.
pub open spec fn chosen_point(level: Seq<(Mersenne61Mont, Mersenne61Mont)>, query: int) -> int {
    if query % 2 == 1 {
        fneg(level[query / 2].0@)
    } else {
        level[query / 2].0@
    }
}

/// The quotients combined at the point `c`: `sum_j y^j q_j c^(2^n - 2^j)`.
pub open spec fn q_hat(qs: Seq<int>, y: int, c: int, n: nat) -> int {
    add_terms(
        0,
        Seq::new(qs.len(), |j: int| fmul(fmul(fpow(y, j as nat), qs[j]), fpow(c, (pow2(n) - pow2(j as nat)) as nat))),
    )
}

/// The value at `c` of the virtual polynomial: `f z + q_hat + s_eval eval +
/// sum_j s_j q_j`, divided by `c - x`.
#[verifier::opaque]
pub open spec fn virtual_value(
    f: int,
    qs: Seq<int>,
    c: int,
    x: int,
    y: int,
    z: int,
    eval: int,
    eval_scalar: int,
    scalars: Seq<int>,
    n: nat,
) -> int {
    let m = if qs.len() <= scalars.len() {
        qs.len()
    } else {
        scalars.len()
    };
    let base = fadd(fadd(fmul(f, z), q_hat(qs, y, c, n)), fmul(eval_scalar, eval));
    fmul(add_terms(base, Seq::new(m, |j: int| fmul(scalars[j], qs[j]))), finv(fsub(c, x)))
}

/// The entries at side `side` of the quotient columns, which follow the
/// polynomial's column.
pub open spec fn quotient_entries(points: Seq<Vec<Mersenne61Mont>>, side: int) -> Seq<int> {
    Seq::new((points.len() - 1) as nat, |j: int| points[j + 1]@[side]@)
}

/// The opening of column `j`: its last pair holds the root twice, and its
/// path authenticates the column's pair over its first `height` levels (at
/// least one).
pub open spec fn column_error(
    pair: Seq<int>,
    path: Seq<(Seq<u8>, Seq<u8>)>,
    root: Seq<u8>,
    query: int,
    height: nat,
    j: int,
) -> Option<QueryCheckError> {
    let last = path[path.len() - 1];
    if last.0 != last.1 || last.0 != root {
        Some(QueryCheckError::ColumnRoot(j as usize))
    } else if !path_chain_ok(
        path.subrange(
            0,
            if height == 0 {
                1
            } else {
                height as int
            },
        ),
        pair[0],
        pair[1],
        query,
    ) {
        Some(QueryCheckError::ColumnPath(j as usize))
    } else {
        None
    }
}

/// The first of the first `k` columns whose opening fails, if any.
pub open spec fn columns_error(
    points: Seq<Vec<Mersenne61Mont>>,
    paths: Seq<Vec<([u8; 32], [u8; 32])>>,
    roots: Seq<[u8; 32]>,
    query: int,
    height: nat,
    k: nat,
) -> Option<QueryCheckError>
    decreases k,
{
    if k == 0 {
        None
    } else {
        match columns_error(points, paths, roots, query, height, (k - 1) as nat) {
            Some(e) => Some(e),
            None => column_error(
                views(points[k - 1]@),
                pairs_view(paths[k - 1]@),
                roots[k - 1]@,
                query,
                height,
                k - 1,
            ),
        }
    }
}

/// The pair of values of the virtual polynomial at the queried point and
/// its negation, in the order of their positions.
#[verifier::opaque]
pub open spec fn virtual_first(
    query: int,
    points: Seq<Vec<Mersenne61Mont>>,
    level: Seq<(Mersenne61Mont, Mersenne61Mont)>,
    x: int,
    y: int,
    z: int,
    eval: int,
    eval_scalar: int,
    scalars: Seq<int>,
    num_vars: nat,
) -> Seq<int> {
    let sib = sibling(query);
    let g = virtual_value(
        points[0]@[query % 2]@,
        quotient_entries(points, query % 2),
        chosen_point(level, query),
        x,
        y,
        z,
        eval,
        eval_scalar,
        scalars,
        num_vars,
    );
    let gs = virtual_value(
        points[0]@[sib % 2]@,
        quotient_entries(points, sib % 2),
        chosen_point(level, sib),
        x,
        y,
        z,
        eval,
        eval_scalar,
        scalars,
        num_vars,
    );
    if query % 2 == 0 {
        seq![g, gs]
    } else {
        seq![gs, g]
    }
}

/// The outcome of the check of one query: the first failing column opening;
/// else a pole of the virtual polynomial at the queried point or its
/// negation; else the folding rounds on the pair of virtual values followed
/// by the pairs of the low-degree test.
pub open spec fn query_outcome(
    query: int,
    points: Seq<Vec<Mersenne61Mont>>,
    paths: Seq<Vec<([u8; 32], [u8; 32])>>,
    roots: Seq<[u8; 32]>,
    level: Seq<(Mersenne61Mont, Mersenne61Mont)>,
    x: int,
    y: int,
    z: int,
    eval: int,
    eval_scalar: int,
    scalars: Seq<int>,
    num_vars: nat,
    num_rounds: nat,
    log_rate: nat,
    g: int,
    ldt_pairs: Seq<Vec<Mersenne61Mont>>,
    ldt_paths: Seq<Vec<([u8; 32], [u8; 32])>>,
    challenges: Seq<Mersenne61Mont>,
    round_roots: Seq<[u8; 32]>,
) -> Result<(), QueryCheckError> {
    match columns_error(points, paths, roots, query, num_rounds, points.len()) {
        Some(e) => Err(e),
        None => {
            let sib = sibling(query);
            let c = chosen_point(level, query);
            let cs = chosen_point(level, sib);
            if c == x || cs == x {
                Err(QueryCheckError::Pole)
            } else {
                let first = virtual_first(query, points, level, x, y, z, eval, eval_scalar, scalars, num_vars);
                match rounds_outcome(
                    query,
                    ldt_paths,
                    challenges,
                    seq![first] + query_views(ldt_pairs),
                    num_vars + log_rate,
                    g,
                    round_roots,
                    num_rounds,
                ) {
                    Ok(()) => Ok(()),
                    Err(e) => Err(QueryCheckError::Round(e)),
                }
            }
        }
    }
}

/// The point of the last level at `query`.
fn chosen_at(level: &Vec<(Mersenne61Mont, Mersenne61Mont)>, query: usize) -> (r: Mersenne61Mont)
    requires
        query / 2 < level.len(),
    ensures
        r@ == chosen_point(level@, query as int),
{
    let e = level[query / 2].0;
    if query % 2 == 1 {
        e.neg()
    } else {
        e
    }
}

/// The value of the virtual polynomial at `c`, from the polynomial's entry
/// `f` and the quotient entries on the same side.
fn virtual_at(
    points: &Vec<Vec<Mersenne61Mont>>,
    side: usize,
    c: Mersenne61Mont,
    x: Mersenne61Mont,
    y: Mersenne61Mont,
    z: Mersenne61Mont,
    eval: Mersenne61Mont,
    eval_scalar: Mersenne61Mont,
    q_scalars: &Vec<Mersenne61Mont>,
    num_vars: usize,
) -> (r: Mersenne61Mont)
    requires
        side < 2,
        points.len() >= 1,
        points.len() - 1 <= num_vars,
        num_vars <= 30,
        forall|j: int| 0 <= j < points.len() ==> #[trigger] points@[j]@.len() >= 2,
    ensures
        r@ == virtual_value(
            points@[0]@[side as int]@,
            quotient_entries(points@, side as int),
            c@,
            x@,
            y@,
            z@,
            eval@,
            eval_scalar@,
            views(q_scalars@),
            num_vars as nat,
        ),
{
    reveal(virtual_value);
    let ghost qs = quotient_entries(points@, side as int);
    let nq = points.len() - 1;
    proof {
        lemma2_to64();
        vstd::arithmetic::power2::lemma2_to64_rest();
        if num_vars < 30 {
            lemma_pow2_strictly_increases(num_vars as nat, 30);
        }
    }
    let top = pow2_of(num_vars);
    let ghost terms = Seq::new(
        qs.len(),
        |j: int| fmul(fmul(fpow(y@, j as nat), qs[j]), fpow(c@, (pow2(num_vars as nat) - pow2(j as nat)) as nat)),
    );
    let mut q_hat_acc = Mersenne61Mont::zero();
    let mut power_of_y = Mersenne61Mont::one();
    let mut j: usize = 0;
    while j < nq
        invariant
            nq == points.len() - 1,
            nq <= num_vars,
            num_vars <= 30,
            top == pow2(num_vars as nat),
            top <= 0x4000_0000,
            side < 2,
            forall|k: int| 0 <= k < points.len() ==> #[trigger] points@[k]@.len() >= 2,
            qs == quotient_entries(points@, side as int),
            terms.len() == nq,
            forall|k: int|
                0 <= k < nq ==> #[trigger] terms[k] == fmul(
                    fmul(fpow(y@, k as nat), qs[k]),
                    fpow(c@, (pow2(num_vars as nat) - pow2(k as nat)) as nat),
                ),
            j <= nq,
            power_of_y@ == fpow(y@, j as nat),
            q_hat_acc@ == add_terms(0, terms.subrange(0, j as int)),
        decreases nq - j,
    {
        proof {
            if j < num_vars {
                lemma_pow2_strictly_increases(j as nat, num_vars as nat);
            }
            lemma_pow2_pos(j as nat);
        }
        let low = pow2_of(j);
        let e = (top - low) as u64;
        let q = points[j + 1][side];
        assert(q@ == qs[j as int]);
        let t = power_of_y.mul(q).mul(exp_u64(&c, e));
        assert(terms.subrange(0, j + 1).drop_last() =~= terms.subrange(0, j as int));
        q_hat_acc = q_hat_acc.add(t);
        proof {
            lemma_fmul_comm(power_of_y@, y@);
        }
        power_of_y = power_of_y.mul(y);
        j = j + 1;
    }
    assert(terms.subrange(0, nq as int) =~= terms);
    let m = if nq <= q_scalars.len() {
        nq
    } else {
        q_scalars.len()
    };
    let ghost lin = Seq::new(m as nat, |k: int| fmul(views(q_scalars@)[k], qs[k]));
    let mut g = points[0][side].mul(z);
    g = g.add(q_hat_acc);
    g = g.add(eval_scalar.mul(eval));
    let ghost base = g@;
    let mut k: usize = 0;
    while k < m
        invariant
            m <= nq,
            m <= q_scalars.len(),
            nq == points.len() - 1,
            side < 2,
            forall|i: int| 0 <= i < points.len() ==> #[trigger] points@[i]@.len() >= 2,
            qs == quotient_entries(points@, side as int),
            lin == Seq::new(m as nat, |i: int| fmul(views(q_scalars@)[i], qs[i])),
            k <= m,
            g@ == add_terms(base, lin.subrange(0, k as int)),
        decreases m - k,
    {
        let q = points[k + 1][side];
        assert(q@ == qs[k as int]);
        assert(lin.subrange(0, k + 1).drop_last() =~= lin.subrange(0, k as int));
        g = g.add(q_scalars[k].mul(q));
        k = k + 1;
    }
    assert(lin.subrange(0, m as int) =~= lin);
    let d = c.sub(x);
    let inv = if d.iszero() {
        assert(finv(0) == 0) by {
            assert forall|w: int| 0 <= w < crate::mersenne_61_mont::p() implies #[trigger] fmul(0, w) != 1 by {}
        }
        Mersenne61Mont::zero()
    } else {
        d.inverse()
    };
    g.mul(inv)
}

/// Once a column fails, the first failing column among more columns is
/// that one.
proof fn lemma_columns_error_stays(
    points: Seq<Vec<Mersenne61Mont>>,
    paths: Seq<Vec<([u8; 32], [u8; 32])>>,
    roots: Seq<[u8; 32]>,
    query: int,
    height: nat,
    j: nat,
    k: nat,
)
    requires
        j <= k,
        columns_error(points, paths, roots, query, height, j) is Some,
    ensures
        columns_error(points, paths, roots, query, height, k) == columns_error(points, paths, roots, query, height, j),
    decreases k - j,
{
    if j < k {
        lemma_columns_error_stays(points, paths, roots, query, height, j, (k - 1) as nat);
    }
}

/// Checks the opening of every column in order: its last pair holds the
/// root twice, and its path authenticates its pair over the first
/// `num_rounds` levels (at least one).
fn check_columns(
    query: usize,
    points: &Vec<Vec<Mersenne61Mont>>,
    paths: &Vec<Vec<([u8; 32], [u8; 32])>>,
    roots: &Vec<[u8; 32]>,
    num_rounds: usize,
) -> (r: Result<(), QueryCheckError>)
    requires
        paths.len() == points.len(),
        roots.len() == points.len(),
        forall|j: int| 0 <= j < points.len() ==> #[trigger] points@[j]@.len() >= 2,
        forall|j: int|
            0 <= j < paths.len() ==> #[trigger] paths@[j]@.len() >= 1 && paths@[j]@.len() >= num_rounds,
    ensures
        r == (match columns_error(points@, paths@, roots@, query as int, num_rounds as nat, points@.len()) {
            Some(e) => Err(e),
            None => Ok(()),
        }),
{
    let height = if num_rounds == 0 {
        1
    } else {
        num_rounds
    };
    let mut j: usize = 0;
    while j < points.len()
        invariant
            paths.len() == points.len(),
            roots.len() == points.len(),
            forall|i: int| 0 <= i < points.len() ==> #[trigger] points@[i]@.len() >= 2,
            forall|i: int|
                0 <= i < paths.len() ==> #[trigger] paths@[i]@.len() >= 1 && paths@[i]@.len() >= num_rounds,
            height == (if num_rounds == 0 {
                1
            } else {
                num_rounds
            }),
            j <= points.len(),
            columns_error(points@, paths@, roots@, query as int, num_rounds as nat, j as nat) is None,
        decreases points.len() - j,
    {
        let path = &paths[j];
        let last = path.len() - 1;
        let ghost pv = pairs_view(path@);
        assert(pv[last as int] == (path@[last as int].0@, path@[last as int].1@));
        if !digest_eq(&path[last].0, &path[last].1) || !digest_eq(&path[last].0, &roots[j]) {
            proof {
                lemma_columns_error_stays(points@, paths@, roots@, query as int, num_rounds as nat, (j + 1) as nat, points@.len());
            }
            return Err(QueryCheckError::ColumnRoot(j));
        }
        let mut prefix: Vec<([u8; 32], [u8; 32])> = Vec::new();
        let mut t: usize = 0;
        while t < height
            invariant
                height <= path@.len(),
                t <= height,
                prefix@ == path@.subrange(0, t as int),
            decreases height - t,
        {
            prefix.push(path[t]);
            assert(prefix@ =~= path@.subrange(0, t + 1));
            t = t + 1;
        }
        assert(pairs_view(prefix@) =~= pv.subrange(0, height as int));
        let pair = &points[j];
        assert(views(pair@)[0] == pair@[0]@ && views(pair@)[1] == pair@[1]@);
        if !authenticate_merkle_path(&prefix, (pair[0], pair[1]), query) {
            proof {
                lemma_columns_error_stays(points@, paths@, roots@, query as int, num_rounds as nat, (j + 1) as nat, points@.len());
            }
            return Err(QueryCheckError::ColumnPath(j));
        }
        j = j + 1;
    }
    Ok(())
}

/// The pair followed by copies of the low-degree test's pairs.
fn prepend_pair(first: Vec<Mersenne61Mont>, ldt_pairs: &Vec<Vec<Mersenne61Mont>>) -> (padded: Vec<Vec<Mersenne61Mont>>)
    requires
        first@.len() == 2,
    ensures
        padded@.len() == ldt_pairs@.len() + 1,
        padded@[0]@ == first@,
        forall|k: int| 0 <= k < ldt_pairs@.len() ==> #[trigger] padded@[k + 1]@ == ldt_pairs@[k]@,
{
    let ghost f0 = first@;
    let mut padded: Vec<Vec<Mersenne61Mont>> = Vec::new();
    padded.push(first);
    let mut i: usize = 0;
    while i < ldt_pairs.len()
        invariant
            padded@.len() == i + 1,
            padded@[0]@ == f0,
            padded@[0]@.len() == 2,
            forall|k: int| 0 <= k < i ==> #[trigger] padded@[k + 1]@ == ldt_pairs@[k]@,
            i <= ldt_pairs.len(),
        decreases ldt_pairs.len() - i,
    {
        let mut row: Vec<Mersenne61Mont> = Vec::new();
        let mut k: usize = 0;
        while k < ldt_pairs[i].len()
            invariant
                i < ldt_pairs.len(),
                k <= ldt_pairs@[i as int]@.len(),
                row@ == ldt_pairs@[i as int]@.subrange(0, k as int),
            decreases ldt_pairs@[i as int]@.len() - k,
        {
            row.push(ldt_pairs[i][k]);
            assert(row@ =~= ldt_pairs@[i as int]@.subrange(0, k + 1));
            k = k + 1;
        }
        assert(row@ =~= ldt_pairs@[i as int]@);
        let ghost before = padded@;
        padded.push(row);
        assert forall|q: int| 0 <= q < i + 1 implies #[trigger] padded@[q + 1]@ == ldt_pairs@[q]@ by {
            if q < i {
                assert(padded@[q + 1] == before[q + 1]);
            }
        }
        i = i + 1;
    }
    padded
}

/// Checks one query: the opening of every committed column (the
/// polynomial's first, then the quotients'), the pair of values of the
/// virtual polynomial at the queried point and its negation, and the folding
/// rounds from that pair on with the low-degree test's pairs, paths,
/// challenges and roots. The first failing check decides the error.
pub fn verify_query(
    query: usize,
    points: &Vec<Vec<Mersenne61Mont>>,
    paths: &Vec<Vec<([u8; 32], [u8; 32])>>,
    roots: &Vec<[u8; 32]>,
    last_level: &Vec<(Mersenne61Mont, Mersenne61Mont)>,
    x: Mersenne61Mont,
    y: Mersenne61Mont,
    z: Mersenne61Mont,
    eval: Mersenne61Mont,
    eval_scalar: Mersenne61Mont,
    q_scalars: &Vec<Mersenne61Mont>,
    num_vars: usize,
    num_rounds: usize,
    log_rate: usize,
    ldt_pairs: &Vec<Vec<Mersenne61Mont>>,
    ldt_paths: &Vec<Vec<([u8; 32], [u8; 32])>>,
    fold_challenges: &Vec<Mersenne61Mont>,
    round_roots: &Vec<[u8; 32]>,
    d: &RootOfUnity,
) -> (r: Result<(), QueryCheckError>)
    requires
        points.len() >= 1,
        paths.len() == points.len(),
        roots.len() == points.len(),
        points.len() - 1 <= num_vars,
        forall|j: int| 0 <= j < points.len() ==> #[trigger] points@[j]@.len() >= 2,
        forall|j: int|
            0 <= j < paths.len() ==> #[trigger] paths@[j]@.len() >= 1 && paths@[j]@.len() >= num_rounds,
        query / 2 < last_level.len(),
        ldt_pairs.len() >= num_rounds,
        forall|i: int| 0 <= i < num_rounds ==> #[trigger] ldt_pairs@[i]@.len() >= 2,
        fold_challenges.len() >= num_rounds,
        ldt_paths.len() + 1 >= num_rounds,
        round_roots.len() + 1 >= num_rounds,
        forall|i: int| 0 <= i < ldt_paths.len() ==> #[trigger] ldt_paths@[i]@.len() >= 1,
        num_rounds < num_vars + log_rate,
        num_vars + log_rate <= d.log_order_view(),
    ensures
        r == query_outcome(
            query as int,
            points@,
            paths@,
            roots@,
            last_level@,
            x@,
            y@,
            z@,
            eval@,
            eval_scalar@,
            views(q_scalars@),
            num_vars as nat,
            num_rounds as nat,
            log_rate as nat,
            d.gen((num_vars + log_rate) as nat),
            ldt_pairs@,
            ldt_paths@,
            fold_challenges@,
            round_roots@,
        ),
{
    proof {
        use_type_invariant(d);
    }
    match check_columns(query, points, paths, roots, num_rounds) {
        Err(e) => {
            return Err(e);
        },
        Ok(()) => {},
    }
    let sib = if query % 2 == 0 {
        query + 1
    } else {
        query - 1
    };
    assert(sib as int == sibling(query as int));
    assert(sib / 2 == query / 2);
    let c = chosen_at(last_level, query);
    let cs = chosen_at(last_level, sib);
    if c.equals(&x) || cs.equals(&x) {
        return Err(QueryCheckError::Pole);
    }
    let first = virtual_pair(query, points, last_level, x, y, z, eval, eval_scalar, q_scalars, num_vars);
    rounds_from(query, first, ldt_pairs, ldt_paths, fold_challenges, round_roots, num_vars, num_rounds, log_rate, d)
}

/// The pair of values of the virtual polynomial at the queried point and its
/// negation.
fn virtual_pair(
    query: usize,
    points: &Vec<Vec<Mersenne61Mont>>,
    last_level: &Vec<(Mersenne61Mont, Mersenne61Mont)>,
    x: Mersenne61Mont,
    y: Mersenne61Mont,
    z: Mersenne61Mont,
    eval: Mersenne61Mont,
    eval_scalar: Mersenne61Mont,
    q_scalars: &Vec<Mersenne61Mont>,
    num_vars: usize,
) -> (r: Vec<Mersenne61Mont>)
    requires
        points.len() >= 1,
        points.len() - 1 <= num_vars,
        num_vars <= 30,
        forall|j: int| 0 <= j < points.len() ==> #[trigger] points@[j]@.len() >= 2,
        query / 2 < last_level.len(),
    ensures
        r@.len() == 2,
        views(r@) == virtual_first(
            query as int,
            points@,
            last_level@,
            x@,
            y@,
            z@,
            eval@,
            eval_scalar@,
            views(q_scalars@),
            num_vars as nat,
        ),
{
    let sib = if query % 2 == 0 {
        query + 1
    } else {
        query - 1
    };
    assert(sib as int == sibling(query as int));
    assert(sib / 2 == query / 2);
    let c = chosen_at(last_level, query);
    let cs = chosen_at(last_level, sib);
    let g = virtual_at(points, query % 2, c, x, y, z, eval, eval_scalar, q_scalars, num_vars);
    let gs = virtual_at(points, sib % 2, cs, x, y, z, eval, eval_scalar, q_scalars, num_vars);
    let first = if query % 2 == 0 {
        vec![g, gs]
    } else {
        vec![gs, g]
    };
    reveal(virtual_first);
    assert(views(first@) =~= virtual_first(
        query as int,
        points@,
        last_level@,
        x@,
        y@,
        z@,
        eval@,
        eval_scalar@,
        views(q_scalars@),
        num_vars as nat,
    ));
    first
}

/// The folding rounds from the pair `first`, followed by the low-degree
/// test's pairs.
fn rounds_from(
    query: usize,
    first: Vec<Mersenne61Mont>,
    ldt_pairs: &Vec<Vec<Mersenne61Mont>>,
    ldt_paths: &Vec<Vec<([u8; 32], [u8; 32])>>,
    fold_challenges: &Vec<Mersenne61Mont>,
    round_roots: &Vec<[u8; 32]>,
    num_vars: usize,
    num_rounds: usize,
    log_rate: usize,
    d: &RootOfUnity,
) -> (r: Result<(), QueryCheckError>)
    requires
        first@.len() == 2,
        ldt_pairs.len() >= num_rounds,
        forall|i: int| 0 <= i < num_rounds ==> #[trigger] ldt_pairs@[i]@.len() >= 2,
        fold_challenges.len() >= num_rounds,
        ldt_paths.len() + 1 >= num_rounds,
        round_roots.len() + 1 >= num_rounds,
        forall|i: int| 0 <= i < ldt_paths.len() ==> #[trigger] ldt_paths@[i]@.len() >= 1,
        num_rounds < num_vars + log_rate,
        num_vars + log_rate <= d.log_order_view(),
    ensures
        r == (match rounds_outcome(
            query as int,
            ldt_paths@,
            fold_challenges@,
            seq![views(first@)] + query_views(ldt_pairs@),
            (num_vars + log_rate) as nat,
            d.gen((num_vars + log_rate) as nat),
            round_roots@,
            num_rounds as nat,
        ) {
            Ok(()) => Ok(()),
            Err(e) => Err(QueryCheckError::Round(e)),
        }),
{
    proof {
        use_type_invariant(d);
    }
    let ghost fv = views(first@);
    let padded = prepend_pair(first, ldt_pairs);
    assert(query_views(padded@) =~= seq![fv] + query_views(ldt_pairs@)) by {
        assert forall|q: int| 0 <= q < padded@.len() implies #[trigger] query_views(padded@)[q] == (seq![fv]
            + query_views(ldt_pairs@))[q] by {
            if q > 0 {
                let k = q - 1;
                assert(padded@[k + 1]@ == ldt_pairs@[k]@);
            }
        }
    }
    assert(query_shape(ldt_paths@, fold_challenges@, padded@, num_rounds as nat, (num_vars + log_rate) as nat, round_roots@)) by {
        assert forall|q: int| 0 <= q <= num_rounds implies #[trigger] padded@[q]@.len() >= 2 by {
            if q > 0 {
                let k = q - 1;
                assert(padded@[k + 1]@ == ldt_pairs@[k]@);
            }
        }
    }
    match verifier_query_phase(query, ldt_paths, fold_challenges, &padded, num_rounds, num_vars, log_rate, round_roots, d) {
        Ok(()) => Ok(()),
        Err(e) => Err(QueryCheckError::Round(e)),
    }
}


/// Entry `m` of `q_hat = sum_k y^k X^(2^n - 2^k) q_k` over the first `k`
/// quotients: quotient `j` is added from position `2^n - 2^j` on, as far as
/// its coefficients go.
pub open spec fn q_hat_entry(qs: Seq<Seq<int>>, y: int, n: nat, k: nat, m: int) -> int
    decreases k,
{
    if k == 0 {
        0
    } else {
        let j = (k - 1) as nat;
        let off = pow2(n) - pow2(j);
        let prev = q_hat_entry(qs, y, n, j, m);
        if off <= m && m - off < qs[j as int].len() {
            fadd(prev, fmul(fpow(y, j), qs[j as int][m - off]))
        } else {
            prev
        }
    }
}

/// The coefficients of `q_hat` for `n` variables: `2^n` of them.
pub open spec fn q_hat_seq(qs: Seq<Seq<int>>, y: int, n: nat) -> Seq<int> {
    Seq::new(pow2(n), |m: int| q_hat_entry(qs, y, n, qs.len(), m))
}

/// Coefficient `i` of the virtual polynomial after the first `k` quotient
/// terms: `z f_i + q_hat_i`, plus `eval_scalar eval` at `i == 0`, plus
/// `s_j q_j[i]` for each `j < k` where `q_j` reaches `i`.
pub open spec fn virtual_coeff(
    f: Seq<int>,
    z: int,
    q_hat: Seq<int>,
    eval_scalar: int,
    eval: int,
    qs: Seq<Seq<int>>,
    scalars: Seq<int>,
    k: nat,
    i: int,
) -> int
    decreases k,
{
    if k == 0 {
        let base = fadd(fmul(f[i], z), q_hat[i]);
        if i == 0 {
            fadd(base, fmul(eval_scalar, eval))
        } else {
            base
        }
    } else {
        let j = k - 1;
        let prev = virtual_coeff(f, z, q_hat, eval_scalar, eval, qs, scalars, (k - 1) as nat, i);
        if i < qs[j].len() {
            fadd(prev, fmul(scalars[j], qs[j][i]))
        } else {
            prev
        }
    }
}

/// The coefficients of the virtual polynomial `z f + q_hat + eval_scalar
/// eval + sum_j s_j q_j`, over as many quotients as there are scalars.
pub open spec fn virtual_poly(
    f: Seq<int>,
    qs: Seq<Seq<int>>,
    y: int,
    z: int,
    eval: int,
    eval_scalar: int,
    scalars: Seq<int>,
    n: nat,
) -> Seq<int> {
    let k = if qs.len() <= scalars.len() {
        qs.len()
    } else {
        scalars.len()
    };
    Seq::new(
        pow2(n),
        |i: int| virtual_coeff(f, z, q_hat_seq(qs, y, n), eval_scalar, eval, qs, scalars, k, i),
    )
}

/// The codeword of the virtual polynomial divided by `X - point`: entry `j`
/// of the bit-reversed evaluations over the point of position `j` of the last
/// level less `point` (zero where that difference is zero).
pub open spec fn quotient_entries_at(evals: Seq<int>, level: Seq<(Mersenne61Mont, Mersenne61Mont)>, point: int, n: nat) -> Seq<int> {
    Seq::new(
        evals.len(),
        |j: int| fmul(bit_reversed(evals, n)[j], finv(fsub(chosen_point(level, j), point))),
    )
}

/// The coefficients of `q_hat = sum_k y^k X^(2^n - 2^k) q_k`.
pub fn q_hat_coeffs(qs: &Vec<Vec<Mersenne61Mont>>, y: Mersenne61Mont, num_vars: usize) -> (r: Vec<Mersenne61Mont>)
    requires
        qs.len() <= num_vars,
        num_vars <= 30,
    ensures
        views(r@) == q_hat_seq(query_views(qs@), y@, num_vars as nat),
{
    let ghost qv = query_views(qs@);
    let n = num_vars;
    proof {
        lemma2_to64();
        vstd::arithmetic::power2::lemma2_to64_rest();
        if n < 30 {
            lemma_pow2_strictly_increases(n as nat, 30);
        }
    }
    let top = pow2_of(n);
    let mut r: Vec<Mersenne61Mont> = Vec::new();
    let mut m: usize = 0;
    while m < top
        invariant
            m <= top,
            r@.len() == m,
            forall|t: int| 0 <= t < m ==> #[trigger] r@[t]@ == 0,
        decreases top - m,
    {
        r.push(Mersenne61Mont::zero());
        m = m + 1;
    }
    assert(views(r@) =~= Seq::new(pow2(n as nat), |t: int| q_hat_entry(qv, y@, n as nat, 0, t)));
    let mut power_of_y = Mersenne61Mont::one();
    let mut k: usize = 0;
    while k < qs.len()
        invariant
            qv == query_views(qs@),
            qs.len() <= n,
            n <= 30,
            top == pow2(n as nat),
            top <= 0x4000_0000,
            k <= qs.len(),
            power_of_y@ == fpow(y@, k as nat),
            r@.len() == top,
            views(r@) == Seq::new(pow2(n as nat), |t: int| q_hat_entry(qv, y@, n as nat, k as nat, t)),
        decreases qs.len() - k,
    {
        proof {
            lemma_pow2_strictly_increases(k as nat, n as nat);
            lemma_pow2_pos(k as nat);
        }
        let low = pow2_of(k);
        let off = top - low;
        let q = &qs[k];
        let ghost qk = views(q@);
        assert(qv[k as int] == qk);
        let stop = if low <= q.len() {
            low
        } else {
            q.len()
        };
        let ghost before = views(r@);
        assert forall|t: int| 0 <= t < top implies #[trigger] r@[t]@ == before[t] by {
            assert(views(r@)[t] == r@[t]@);
        }
        let mut i: usize = 0;
        while i < stop
            invariant
                qv == query_views(qs@),
                k < qs.len(),
                qk == views(qs@[k as int]@),
                qv[k as int] == qk,
                top == pow2(n as nat),
                low == pow2(k as nat),
                off == top - low,
                low <= top,
                stop <= low,
                stop <= qk.len(),
                power_of_y@ == fpow(y@, k as nat),
                before == Seq::new(pow2(n as nat), |t: int| q_hat_entry(qv, y@, n as nat, k as nat, t)),
                i <= stop,
                r@.len() == top,
                forall|t: int|
                    0 <= t < top ==> #[trigger] r@[t]@ == (if off <= t < off + i {
                        fadd(before[t], fmul(fpow(y@, k as nat), qk[t - off]))
                    } else {
                        before[t]
                    }),
            decreases stop - i,
        {
            let cur = r[off + i];
            let upd = cur.add(power_of_y.mul(qs[k][i]));
            r.set(off + i, upd);
            i = i + 1;
        }
        assert(views(r@) =~= Seq::new(pow2(n as nat), |t: int| q_hat_entry(qv, y@, n as nat, (k + 1) as nat, t))) by {
            assert forall|t: int| 0 <= t < top implies #[trigger] views(r@)[t] == q_hat_entry(qv, y@, n as nat, (k + 1) as nat, t) by {
                assert(r@[t]@ == views(r@)[t]);
                if off <= t && t - off < qk.len() {
                    assert(t - off < low);
                }
            }
        }
        proof {
            lemma_fmul_comm(power_of_y@, y@);
        }
        power_of_y = power_of_y.mul(y);
        k = k + 1;
    }
    r
}


/// The coefficients of the virtual polynomial `z f + q_hat + eval_scalar eval
/// + sum_j s_j q_j`, for `f` of `2^n` coefficients and quotients no longer.
pub fn virtual_poly_coeffs(
    f: &Vec<Mersenne61Mont>,
    qs: &Vec<Vec<Mersenne61Mont>>,
    y: Mersenne61Mont,
    z: Mersenne61Mont,
    eval: Mersenne61Mont,
    eval_scalar: Mersenne61Mont,
    q_scalars: &Vec<Mersenne61Mont>,
    num_vars: usize,
) -> (r: Vec<Mersenne61Mont>)
    requires
        qs.len() <= num_vars,
        num_vars <= 30,
        f.len() == pow2(num_vars as nat),
        forall|j: int| 0 <= j < qs.len() ==> #[trigger] qs@[j]@.len() <= pow2(num_vars as nat),
    ensures
        views(r@) == virtual_poly(
            views(f@),
            query_views(qs@),
            y@,
            z@,
            eval@,
            eval_scalar@,
            views(q_scalars@),
            num_vars as nat,
        ),
{
    let ghost fv = views(f@);
    let ghost qv = query_views(qs@);
    let ghost sv = views(q_scalars@);
    let ghost qh = q_hat_seq(qv, y@, num_vars as nat);
    let q_hat = q_hat_coeffs(qs, y, num_vars);
    assert(views(q_hat@).len() == q_hat@.len());
    proof {
        lemma_pow2_pos(num_vars as nat);
    }
    let len = f.len();
    let mut g: Vec<Mersenne61Mont> = Vec::new();
    let mut i: usize = 0;
    while i < len
        invariant
            len == f.len(),
            len == q_hat@.len(),
            fv == views(f@),
            qh == views(q_hat@),
            i <= len,
            g@.len() == i,
            forall|t: int| 0 <= t < i ==> #[trigger] g@[t]@ == fadd(fmul(fv[t], z@), qh[t]),
        decreases len - i,
    {
        assert(fv[i as int] == f@[i as int]@ && qh[i as int] == q_hat@[i as int]@);
        g.push(f[i].mul(z).add(q_hat[i]));
        i = i + 1;
    }
    let g0 = g[0].add(eval_scalar.mul(eval));
    g.set(0, g0);
    let k = if qs.len() <= q_scalars.len() {
        qs.len()
    } else {
        q_scalars.len()
    };
    assert forall|t: int| 0 <= t < len implies #[trigger] g@[t]@ == virtual_coeff(
        fv,
        z@,
        qh,
        eval_scalar@,
        eval@,
        qv,
        sv,
        0,
        t,
    ) by {}
    let mut j: usize = 0;
    while j < k
        invariant
            k <= qs.len(),
            k <= q_scalars.len(),
            qv == query_views(qs@),
            sv == views(q_scalars@),
            g@.len() == len,
            len == pow2(num_vars as nat),
            forall|m: int| 0 <= m < qs.len() ==> #[trigger] qs@[m]@.len() <= pow2(num_vars as nat),
            j <= k,
            forall|t: int|
                0 <= t < len ==> #[trigger] g@[t]@ == virtual_coeff(
                    fv,
                    z@,
                    qh,
                    eval_scalar@,
                    eval@,
                    qv,
                    sv,
                    j as nat,
                    t,
                ),
        decreases k - j,
    {
        let q = &qs[j];
        let s = q_scalars[j];
        let ghost qj = views(q@);
        assert(qv[j as int] == qj);
        assert(sv[j as int] == s@);
        let ghost before = g@;
        let mut i: usize = 0;
        while i < q.len()
            invariant
                q.len() <= len,
                g@.len() == len,
                qj == views(q@),
                i <= q.len(),
                forall|t: int|
                    0 <= t < len ==> #[trigger] g@[t]@ == (if t < i {
                        fadd(before[t]@, fmul(s@, qj[t]))
                    } else {
                        before[t]@
                    }),
            decreases q.len() - i,
        {
            let upd = g[i].add(s.mul(q[i]));
            g.set(i, upd);
            i = i + 1;
        }
        j = j + 1;
    }
    assert(views(g@) =~= virtual_poly(fv, qv, y@, z@, eval@, eval_scalar@, sv, num_vars as nat)) by {
        assert forall|t: int| 0 <= t < len implies #[trigger] views(g@)[t] == virtual_poly(
            fv,
            qv,
            y@,
            z@,
            eval@,
            eval_scalar@,
            sv,
            num_vars as nat,
        )[t] by {
            assert(views(g@)[t] == g@[t]@);
        }
    }
    g
}

/// The codeword of the virtual polynomial divided by `X - point`, from its
/// evaluations over the domain (bit-reversed here) and the last level of
/// the table, which gives the point of every position.
pub fn quotient_codeword(
    evals: &Vec<Mersenne61Mont>,
    last_level: &Vec<(Mersenne61Mont, Mersenne61Mont)>,
    point: Mersenne61Mont,
) -> (r: Vec<Mersenne61Mont>)
    requires
        crate::util::is_power_of_two(evals.len() as int),
        evals.len() <= 2 * last_level.len(),
    ensures
        forall|n: nat|
            pow2(n) == evals.len() ==> views(r@) == quotient_entries_at(views(evals@), last_level@, point@, n),
{
    let len = evals.len();
    let mut rbo: Vec<Mersenne61Mont> = Vec::new();
    let mut i: usize = 0;
    while i < len
        invariant
            len == evals.len(),
            i <= len,
            rbo@ == evals@.subrange(0, i as int),
        decreases len - i,
    {
        rbo.push(evals[i]);
        assert(rbo@ =~= evals@.subrange(0, i + 1));
        i = i + 1;
    }
    assert(rbo@ =~= evals@);
    let ghost n0 = choose|k: nat| pow2(k) == len;
    reverse_index_bits_in_place(&mut rbo);
    let ghost rv = views(rbo@);
    assert(rv == bit_reversed(views(evals@), n0));
    assert(rv.len() == rbo@.len());
    assert(finv(0) == 0) by {
        assert forall|w: int| 0 <= w < crate::mersenne_61_mont::p() implies #[trigger] fmul(0, w) != 1 by {}
    }
    let mut r: Vec<Mersenne61Mont> = Vec::new();
    let mut j: usize = 0;
    while j < len
        invariant
            len == evals.len(),
            len == rbo@.len(),
            len <= 2 * last_level.len(),
            rv == views(rbo@),
            finv(0) == 0,
            j <= len,
            r@.len() == j,
            forall|t: int|
                0 <= t < j ==> #[trigger] r@[t]@ == fmul(rv[t], finv(fsub(chosen_point(last_level@, t), point@))),
        decreases len - j,
    {
        let c = chosen_at(last_level, j);
        let d = c.sub(point);
        let inv = if d.iszero() {
            Mersenne61Mont::zero()
        } else {
            d.inverse()
        };
        assert(rv[j as int] == rbo@[j as int]@);
        r.push(rbo[j].mul(inv));
        j = j + 1;
    }
    assert forall|n: nat| pow2(n) == evals.len() implies views(r@) == quotient_entries_at(
        views(evals@),
        last_level@,
        point@,
        n,
    ) by {
        assert(rv == bit_reversed(views(evals@), n));
        assert(views(r@) =~= quotient_entries_at(views(evals@), last_level@, point@, n)) by {
            assert forall|t: int| 0 <= t < len implies #[trigger] views(r@)[t] == quotient_entries_at(
                views(evals@),
                last_level@,
                point@,
                n,
            )[t] by {
                assert(views(r@)[t] == r@[t]@);
            }
        }
    }
    r
}


/// Two to distinct powers differ.
proof fn lemma_pow2_injective(a: nat, b: nat)
    requires
        pow2(a) == pow2(b),
    ensures
        a == b,
{
    if a < b {
        lemma_pow2_strictly_increases(a, b);
    } else if b < a {
        lemma_pow2_strictly_increases(b, a);
    }
}

/// The codeword the prover commits to when it opens: the virtual
/// polynomial's coefficients, in bit-reversed order, encoded over the
/// foldable domain, then divided by `X - x` position by position.
pub fn evaluation_codeword(
    f: &Vec<Mersenne61Mont>,
    qs: &Vec<Vec<Mersenne61Mont>>,
    x: Mersenne61Mont,
    y: Mersenne61Mont,
    z: Mersenne61Mont,
    eval: Mersenne61Mont,
    eval_scalar: Mersenne61Mont,
    q_scalars: &Vec<Mersenne61Mont>,
    num_vars: usize,
    log_rate: usize,
    table: &Vec<Vec<Mersenne61Mont>>,
    last_level: &Vec<(Mersenne61Mont, Mersenne61Mont)>,
) -> (r: Vec<Mersenne61Mont>)
    requires
        qs.len() <= num_vars,
        num_vars + log_rate <= 30,
        f.len() == pow2(num_vars as nat),
        forall|j: int| 0 <= j < qs.len() ==> #[trigger] qs@[j]@.len() <= pow2(num_vars as nat),
        foldable_table_ok(table@, log_rate as nat, num_vars as nat),
        pow2((num_vars + log_rate) as nat) <= 2 * last_level.len(),
    ensures
        views(r@) == quotient_entries_at(
            foldable_encoding(
                bit_reversed(
                    virtual_poly(
                        views(f@),
                        query_views(qs@),
                        y@,
                        z@,
                        eval@,
                        eval_scalar@,
                        views(q_scalars@),
                        num_vars as nat,
                    ),
                    num_vars as nat,
                ),
                log_rate as nat,
                table_view(table@),
                num_vars as nat,
            ),
            last_level@,
            x@,
            (num_vars + log_rate) as nat,
        ),
{
    let n = num_vars;
    let mut g = virtual_poly_coeffs(f, qs, y, z, eval, eval_scalar, q_scalars, n);
    let ghost gv = views(g@);
    assert(gv.len() == g@.len());
    assert(g@.len() == pow2(n as nat));
    reverse_index_bits_in_place(&mut g);
    assert(views(g@) == bit_reversed(gv, n as nat));
    assert(views(g@).len() == g@.len());
    proof {
        lemma2_to64();
        vstd::arithmetic::power2::lemma2_to64_rest();
        lemma_pow2_adds(n as nat, log_rate as nat);
        if n + log_rate < 30 {
            lemma_pow2_strictly_increases((n + log_rate) as nat, 30);
        }
        assert forall|m: nat| pow2(m) == g.len() implies foldable_table_ok(table@, log_rate as nat, m) by {
            lemma_pow2_injective(m, n as nat);
        }
    }
    assert(g@.len() == pow2(n as nat));
    let evals = evaluate_over_foldable_domain(log_rate, g, table);
    let ghost enc = foldable_encoding(bit_reversed(gv, n as nat), log_rate as nat, table_view(table@), n as nat);
    assert(views(evals@) == enc);
    proof {
        lemma_encoding_len(bit_reversed(gv, n as nat), log_rate as nat, table_view(table@), n as nat);
    }
    assert(evals@.len() == pow2((n + log_rate) as nat));
    let r = quotient_codeword(&evals, last_level, x);
    assert(views(r@) == quotient_entries_at(enc, last_level@, x@, (n + log_rate) as nat));
    r
}


/// Each quotient's coefficients followed by zeros up to `2^num_vars` of them.
pub fn pad_quotients(qs: &Vec<Vec<Mersenne61Mont>>, num_vars: usize) -> (r: Vec<Vec<Mersenne61Mont>>)
    requires
        num_vars <= 30,
        forall|j: int| 0 <= j < qs.len() ==> #[trigger] qs@[j]@.len() <= pow2(num_vars as nat),
    ensures
        r@.len() == qs.len(),
        forall|j: int|
            0 <= j < qs.len() ==> views(#[trigger] r@[j]@) == Seq::new(
                pow2(num_vars as nat),
                |i: int|
                    if i < qs@[j]@.len() {
                        qs@[j]@[i]@
                    } else {
                        0
                    },
            ),
{
    proof {
        lemma2_to64();
        vstd::arithmetic::power2::lemma2_to64_rest();
        if num_vars < 30 {
            lemma_pow2_strictly_increases(num_vars as nat, 30);
        }
    }
    let top = pow2_of(num_vars);
    let mut r: Vec<Vec<Mersenne61Mont>> = Vec::new();
    let mut j: usize = 0;
    while j < qs.len()
        invariant
            top == pow2(num_vars as nat),
            forall|k: int| 0 <= k < qs.len() ==> #[trigger] qs@[k]@.len() <= top,
            j <= qs.len(),
            r@.len() == j,
            forall|k: int|
                0 <= k < j ==> views(#[trigger] r@[k]@) == Seq::new(
                    top as nat,
                    |i: int|
                        if i < qs@[k]@.len() {
                            qs@[k]@[i]@
                        } else {
                            0
                        },
                ),
        decreases qs.len() - j,
    {
        let q = &qs[j];
        let ghost want = Seq::new(
            top as nat,
            |i: int|
                if i < qs@[j as int]@.len() {
                    qs@[j as int]@[i]@
                } else {
                    0
                },
        );
        let mut padded: Vec<Mersenne61Mont> = Vec::new();
        let mut i: usize = 0;
        while i < top
            invariant
                q@ == qs@[j as int]@,
                q.len() <= top,
                i <= top,
                views(padded@) == want.subrange(0, i as int),
                want == Seq::new(
                    top as nat,
                    |t: int|
                        if t < qs@[j as int]@.len() {
                            qs@[j as int]@[t]@
                        } else {
                            0
                        },
                ),
            decreases top - i,
        {
            let v = if i < q.len() {
                q[i]
            } else {
                Mersenne61Mont::zero()
            };
            let ghost before = views(padded@);
            padded.push(v);
            assert(views(padded@) =~= before.push(v@));
            assert(views(padded@) =~= want.subrange(0, i + 1));
            i = i + 1;
        }
        assert(views(padded@) =~= want);
        let ghost old_r = r@;
        r.push(padded);
        assert forall|k: int| 0 <= k < j + 1 implies views(#[trigger] r@[k]@) == Seq::new(
            top as nat,
            |t: int|
                if t < qs@[k]@.len() {
                    qs@[k]@[t]@
                } else {
                    0
                },
        ) by {
            if k < j {
                assert(r@[k] == old_r[k]);
            }
        }
        j = j + 1;
    }
    r
}

/// An honest opening of a committed column of `2^n` entries at `x`: the
/// pair is the column's pair holding `x`, the path is the one the column's
/// Merkle tree gives for `x` followed by the root twice, and the root is the
/// tree's.
pub open spec fn honest_column(
    col: Seq<Mersenne61Mont>,
    n: nat,
    pair: Seq<int>,
    path: Seq<(Seq<u8>, Seq<u8>)>,
    root: Seq<u8>,
    x: int,
) -> bool {
    let t = crate::merkle::merkle_tree_of(views(col), n);
    &&& col.len() == pow2(n)
    &&& 0 <= x < col.len()
    &&& pair.len() >= 2
    &&& pair[0] == col[crate::merkle::pair_lo(x)]@
    &&& pair[1] == col[crate::merkle::pair_hi(x)]@
    &&& path == crate::merkle::path_pairs(t, x, n - 1).push((t[n - 1][0], t[n - 1][0]))
    &&& root == t[n - 1][0]
}

/// A path that authenticates a pair keeps doing so when cut after its first
/// `h` levels.
proof fn lemma_chain_prefix(path: Seq<(Seq<u8>, Seq<u8>)>, l0: int, l1: int, x: int, h: int)
    requires
        path_chain_ok(path, l0, l1, x),
        1 <= h <= path.len(),
    ensures
        path_chain_ok(path.subrange(0, h), l0, l1, x),
{
    let p = path.subrange(0, h);
    assert forall|i: int| 0 <= i < p.len() - 1 implies crate::hash::spec_hash_pair(#[trigger] p[i].0, p[i].1) == (if crate::merkle::level_index(x, i + 1) % 2 == 0 {
        p[i + 1].0
    } else {
        p[i + 1].1
    }) by {
        assert(p[i] == path[i] && p[i + 1] == path[i + 1]);
    }
}

/// Honest column openings pass the column checks over up to `n - 1` levels.
proof fn lemma_honest_columns(
    cols: Seq<Seq<Mersenne61Mont>>,
    n: nat,
    points: Seq<Vec<Mersenne61Mont>>,
    paths: Seq<Vec<([u8; 32], [u8; 32])>>,
    roots: Seq<[u8; 32]>,
    query: int,
    height: nat,
    k: nat,
)
    requires
        n >= 2,
        height < n,
        k <= cols.len(),
        forall|j: int|
            0 <= j < k ==> #[trigger] honest_column(cols[j], n, views(points[j]@), pairs_view(paths[j]@), roots[j]@, query),
    ensures
        columns_error(points, paths, roots, query, height, k) is None,
    decreases k,
{
    if k > 0 {
        let j = k - 1;
        lemma_honest_columns(cols, n, points, paths, roots, query, height, (k - 1) as nat);
        assert(honest_column(cols[j], n, views(points[j]@), pairs_view(paths[j]@), roots[j]@, query));
        let col = cols[j];
        let v = views(col);
        let t = crate::merkle::merkle_tree_of(v, n);
        crate::merkle::lemma_merkle_path_complete(v, n, query);
        vstd::arithmetic::power2::lemma_pow2_unfold(n);
        let pp = crate::merkle::path_pairs(t, query, n - 1);
        let path = pairs_view(paths[j]@);
        assert(path == pp.push((t[n - 1][0], t[n - 1][0])));
        assert(v[crate::merkle::pair_lo(query)] == col[crate::merkle::pair_lo(query)]@);
        assert(v[crate::merkle::pair_hi(query)] == col[crate::merkle::pair_hi(query)]@);
        let h: int = if height == 0 { 1 } else { height as int };
        lemma_chain_prefix(pp, views(points[j]@)[0], views(points[j]@)[1], query, h);
        assert(path.subrange(0, h) =~= pp.subrange(0, h));
    }
}

/// Completeness of the check of one query: when every column is opened
/// honestly at the query, neither the queried point nor its negation is the
/// point `x`, the codeword the rounds fold holds at the query's pair the
/// pair of virtual values that the verifier computes from the columns, and
/// the rounds are folded honestly on a table that holds the verifier's
/// points, the check passes.
pub proof fn lemma_honest_query_passes(
    query: int,
    points: Seq<Vec<Mersenne61Mont>>,
    paths: Seq<Vec<([u8; 32], [u8; 32])>>,
    roots: Seq<[u8; 32]>,
    level: Seq<(Mersenne61Mont, Mersenne61Mont)>,
    x: int,
    y: int,
    z: int,
    eval: int,
    eval_scalar: int,
    scalars: Seq<int>,
    num_vars: nat,
    num_rounds: nat,
    log_rate: nat,
    g: int,
    ldt_pairs: Seq<Vec<Mersenne61Mont>>,
    ldt_paths: Seq<Vec<([u8; 32], [u8; 32])>>,
    challenges: Seq<Mersenne61Mont>,
    round_roots: Seq<[u8; 32]>,
    cols: Seq<Seq<Mersenne61Mont>>,
    n_col: nat,
    f: Seq<Mersenne61Mont>,
    oracles: Seq<Vec<Mersenne61Mont>>,
    table: Seq<Vec<(Mersenne61Mont, Mersenne61Mont)>>,
)
    requires
        n_col >= 2,
        num_rounds < n_col,
        cols.len() == points.len(),
        forall|j: int|
            0 <= j < points.len() ==> #[trigger] honest_column(cols[j], n_col, views(points[j]@), pairs_view(paths[j]@), roots[j]@, query),
        chosen_point(level, query) != x,
        chosen_point(level, sibling(query)) != x,
        num_rounds < num_vars + log_rate,
        0 <= query < pow2(num_vars + log_rate),
        f.len() == pow2(num_vars + log_rate),
        ({
            let queries = seq![virtual_first(query, points, level, x, y, z, eval, eval_scalar, scalars, num_vars)]
                + query_views(ldt_pairs);
            &&& forall|i: int|
                0 <= i < num_rounds ==> crate::basefold::folded_from(
                    #[trigger] crate::basefold::oracle_before(f, oracles, i as nat),
                    oracles[i]@,
                    crate::basefold::level_of(table, i),
                    challenges[i]@,
                )
            &&& forall|i: int|
                0 <= i < num_rounds ==> #[trigger] crate::basefold::honest_round(
                    query,
                    f,
                    oracles,
                    queries,
                    ldt_paths,
                    round_roots,
                    num_vars + log_rate,
                    i as nat,
                )
            &&& forall|i: int|
                0 <= i < num_rounds ==> #[trigger] crate::basefold::table_matches(
                    table,
                    query,
                    num_vars + log_rate,
                    g,
                    i as nat,
                )
        }),
    ensures
        query_outcome(
            query,
            points,
            paths,
            roots,
            level,
            x,
            y,
            z,
            eval,
            eval_scalar,
            scalars,
            num_vars,
            num_rounds,
            log_rate,
            g,
            ldt_pairs,
            ldt_paths,
            challenges,
            round_roots,
        ) == Ok::<(), QueryCheckError>(()),
{
    lemma_honest_columns(cols, n_col, points, paths, roots, query, num_rounds, points.len());
    let queries = seq![virtual_first(query, points, level, x, y, z, eval, eval_scalar, scalars, num_vars)]
        + query_views(ldt_pairs);
    crate::basefold::lemma_honest_rounds_pass(
        query,
        ldt_paths,
        challenges,
        queries,
        num_vars + log_rate,
        g,
        round_roots,
        f,
        oracles,
        table,
        num_rounds,
    );
}

} // verus!
