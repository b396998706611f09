//! Batched option pricing: the layout of a book of options.
//!
//! A book is priced four options at a time (one quad per SIMD register), and
//! for throughput the book is split into contiguous slices, one per worker
//! thread. This module holds the discrete side of that path: how many explicit
//! steps a whole book needs, how options are packed into quads and results
//! unpacked again, and how the book is cut into thread slices that never split
//! a quad.

use vstd::prelude::*;

verus! {

/// SIMD width for f64 on AVX2: options priced together in one quad.
pub const LANES: usize = 4;

/// The step count a batch call uses: a request of 0 selects `stable`, the
/// stable minimum for the book; any other request is kept.
pub fn resolve_steps(steps: usize, stable: usize) -> (resolved: usize)
    ensures
        resolved == if steps == 0 { stable } else { steps },
{
    if steps == 0 {
        stable
    } else {
        steps
    }
}

/// The largest element of `needs`, or 1 if that is larger (or `needs` is
/// empty).
pub open spec fn max_or_one(needs: Seq<usize>) -> int
    decreases needs.len(),
{
    if needs.len() == 0 {
        1
    } else {
        let rest = max_or_one(needs.drop_last());
        if needs.last() > rest {
            needs.last() as int
        } else {
            rest
        }
    }
}

proof fn lemma_max_or_one_bounds(needs: Seq<usize>)
    ensures
        max_or_one(needs) >= 1,
        forall|i: int| 0 <= i < needs.len() ==> needs[i] <= max_or_one(needs),
        max_or_one(needs) == 1 || exists|i: int|
            0 <= i < needs.len() && needs[i] == max_or_one(needs),
    decreases needs.len(),
{
    if needs.len() > 0 {
        lemma_max_or_one_bounds(needs.drop_last());
        assert forall|i: int| 0 <= i < needs.len() implies needs[i] <= max_or_one(needs) by {
            if i < needs.len() - 1 {
                assert(needs[i] == needs.drop_last()[i]);
            }
        }
        if max_or_one(needs) != 1 {
            if needs.last() > max_or_one(needs.drop_last()) {
                assert(needs[needs.len() - 1] == max_or_one(needs));
            } else {
                let j = choose|j: int|
                    0 <= j < needs.drop_last().len() && needs.drop_last()[j] == max_or_one(
                        needs.drop_last(),
                    );
                assert(needs[j] == max_or_one(needs));
            }
        }
    }
}

/// Minimum number of explicit time steps for stability across a whole book.
///
/// `needs[k]` is the step count that option `k` needs on its own grid; the
/// binding constraint is the largest of them, and at least one step is
/// taken.
pub fn stable_steps(needs: &[usize]) -> (steps: usize)
    ensures
        steps == max_or_one(needs@),
        steps >= 1,
        forall|k: int| 0 <= k < needs@.len() ==> needs@[k] <= steps,
        steps == 1 || exists|k: int| 0 <= k < needs@.len() && needs@[k] == steps,
{
    let mut steps: usize = 1;
    let mut k: usize = 0;
    while k < needs.len()
        invariant
            k <= needs@.len(),
            steps == max_or_one(needs@.take(k as int)),
        decreases needs@.len() - k,
    {
        assert(needs@.take(k + 1).drop_last() =~= needs@.take(k as int));
        if needs[k] > steps {
            steps = needs[k];
        }
        k = k + 1;
    }
    assert(needs@.take(k as int) =~= needs@);
    proof {
        lemma_max_or_one_bounds(needs@);
    }
    steps
}

/// Number of quads needed for `len` options (`len / LANES` rounded up).
pub open spec fn quad_count(len: int) -> int {
    (len + LANES - 1) / LANES as int
}

/// The quad that carries options `LANES * c ..` of `opts`: its lanes hold
/// those options in order, and a short last quad is padded with copies of its
/// first option.
pub open spec fn quad_of<T>(opts: Seq<T>, c: int) -> Seq<T> {
    Seq::new(
        LANES as nat,
        |l: int|
            if LANES * c + l < opts.len() {
                opts[LANES * c + l]
            } else {
                opts[LANES * c]
            },
    )
}

/// Lane `l` of the quad result `r` is the value at `LANES * c + l` of `out`,
/// for each lane that carries an option (a padding lane of a short last quad
/// has no place in `out`).
pub open spec fn unpacked<U>(out: Seq<U>, c: int, r: Seq<U>) -> bool {
    forall|l: int|
        0 <= l < LANES && LANES * c + l < out.len() ==> #[trigger] out[LANES * c + l] == r[l]
}

/// Quad `c` of `opts` was priced by one call of `price_quad`, and the lanes of
/// that call's result that carry options are unpacked into `out`.
pub open spec fn quad_priced<T, U, F: Fn([T; 4]) -> [U; 4]>(
    price_quad: F,
    opts: Seq<T>,
    out: Seq<U>,
    c: int,
) -> bool {
    exists|q: [T; 4], r: [U; 4]|
        #![trigger call_ensures(price_quad, (q,), r)]
        q@ == quad_of(opts, c) && call_ensures(price_quad, (q,), r) && unpacked(out, c, r@)
}

/// Prices a book four options at a time.
///
/// The book is cut into consecutive quads (see [`quad_of`]); `price_quad` is
/// called once on each, and lane `l` of the result of quad `c` becomes
/// `out[LANES * c + l]`. Results of padding lanes are dropped, so `out` has
/// one value per option.
pub fn price_by_quads<T: Copy, U: Copy, F: Fn([T; 4]) -> [U; 4]>(
    opts: &[T],
    price_quad: F,
) -> (out: Vec<U>)
    requires
        forall|c: int|
            #![trigger quad_of(opts@, c)]
            0 <= c < quad_count(opts@.len() as int) ==> forall|q: [T; 4]|
                q@ == quad_of(opts@, c) ==> #[trigger] call_requires(price_quad, (q,)),
    ensures
        out@.len() == opts@.len(),
        forall|c: int|
            0 <= c < quad_count(opts@.len() as int) ==> #[trigger] quad_priced(
                price_quad,
                opts@,
                out@,
                c,
            ),
{
    let len = opts.len();
    let mut out: Vec<U> = Vec::new();
    let mut base: usize = 0;
    let ghost mut quads: Seq<[T; 4]> = Seq::empty();
    let ghost mut results: Seq<[U; 4]> = Seq::empty();
    while base < len
        invariant
            len == opts@.len(),
            base <= len,
            base % LANES == 0 || base == len,
            out@.len() == base,
            quads.len() == quad_count(base as int),
            results.len() == quads.len(),
            forall|c: int|
                #![trigger quad_of(opts@, c)]
                0 <= c < quad_count(len as int) ==> forall|q: [T; 4]|
                    q@ == quad_of(opts@, c) ==> #[trigger] call_requires(price_quad, (q,)),
            forall|c: int|
                #![trigger quads[c]]
                0 <= c < quads.len() ==> {
                    &&& quads[c]@ == quad_of(opts@, c)
                    &&& call_ensures(price_quad, (quads[c],), results[c])
                    &&& forall|l: int|
                        0 <= l < LANES && LANES * c + l < len ==> #[trigger] out@[LANES * c + l]
                            == results[c]@[l]
                },
        decreases len - base,
    {
        let a0 = opts[base];
        let a1 = if len - base > 1 { opts[base + 1] } else { a0 };
        let a2 = if len - base > 2 { opts[base + 2] } else { a0 };
        let a3 = if len - base > 3 { opts[base + 3] } else { a0 };
        let quad = [a0, a1, a2, a3];
        assert(quad@ =~= quad_of(opts@, base as int / LANES as int));
        let res = price_quad(quad);
        let take = if len - base < LANES { len - base } else { LANES };
        let ghost before = out@;
        assert forall|c: int, l: int|
            #![trigger quads[c], before[LANES * c + l]]
            0 <= c < quads.len() && 0 <= l < LANES && LANES * c + l < len
                implies before[LANES * c + l] == results[c]@[l] by {
            assert(LANES * c + l < base) by {
                assert(quads.len() == base as int / LANES as int);
            }
            assert(quads[c]@ == quad_of(opts@, c));
            assert(out@[LANES * c + l] == results[c]@[l]);
            assert(before[LANES * c + l] == out@[LANES * c + l]);
        }
        let mut l: usize = 0;
        while l < take
            invariant
                take <= LANES,
                l <= take,
                out@.len() == base + l,
                out@.take(base as int) == before,
                forall|m: int| 0 <= m < l ==> out@[base + m] == res@[m],
            decreases take - l,
        {
            out.push(res[l]);
            l = l + 1;
        }
        proof {
            let k = base as int / LANES as int;
            assert(base as int == LANES * k);
            assert(quad_count(base as int) == k);
            assert(quad_count(base + take) == k + 1);
            let old_quads = quads;
            let old_results = results;
            quads = quads.push(quad);
            results = results.push(res);
            assert forall|c: int| #![trigger quads[c]] 0 <= c < quads.len() implies {
                &&& quads[c]@ == quad_of(opts@, c)
                &&& call_ensures(price_quad, (quads[c],), results[c])
                &&& forall|l: int|
                    0 <= l < LANES && LANES * c + l < len ==> out@[LANES * c + l]
                        == results[c]@[l]
            } by {
                if c < k {
                    assert(quads[c] == old_quads[c]);
                    assert(results[c] == old_results[c]);
                    assert forall|l: int|
                        0 <= l < LANES && LANES * c + l < len implies out@[LANES * c + l]
                            == results[c]@[l] by {
                        assert(LANES * c + l < base);
                        assert(out@[LANES * c + l] == out@.take(base as int)[LANES * c + l]);
                        assert(out@[LANES * c + l] == before[LANES * c + l]);
                    }
                } else {
                    assert(c == k);
                    assert forall|l: int|
                        0 <= l < LANES && LANES * c + l < len implies out@[LANES * c + l]
                            == results[c]@[l] by {
                        assert(l < take);
                    }
                }
            }
        }
        base = base + take;
    }
    assert forall|c: int| 0 <= c < quad_count(opts@.len() as int) implies #[trigger] quad_priced(
        price_quad,
        opts@,
        out@,
        c,
    ) by {
        assert(c < quads.len());
        assert(call_ensures(price_quad, (quads[c],), results[c]));
        assert(unpacked(out@, c, results[c]@));
    }
    out
}

/// What quad `c` of a book carries, lane by lane: lane `l` holds option
/// `LANES * c + l` while there is one, and a lane past the end of the book
/// holds the quad's first option.
pub proof fn lemma_quad_lanes<T>(opts: Seq<T>, c: int)
    requires
        0 <= c,
        LANES * c < opts.len(),
    ensures
        quad_of(opts, c).len() == 4,
        forall|l: int|
            0 <= l < 4 && LANES * c + l < opts.len() ==> #[trigger] quad_of(opts, c)[l]
                == opts[4 * c + l],
        forall|l: int|
            0 <= l < 4 && LANES * c + l >= opts.len() ==> #[trigger] quad_of(opts, c)[l]
                == opts[4 * c],
{
}

/// `a / b` rounded up (for `b > 0`): the quotient, plus one when there is a
/// remainder.
pub open spec fn div_ceil(a: int, b: int) -> int {
    a / b + if a % b == 0 {
        0int
    } else {
        1int
    }
}

/// Options per thread slice when a book of `total` options is spread over
/// `threads` workers: the book's quads shared out evenly (rounded up), in
/// whole quads.
pub open spec fn slice_chunk(total: int, threads: int) -> int {
    LANES * div_ceil(div_ceil(total, LANES as int), threads)
}

/// Consecutive slices of at most `chunk` options that cover `rest` options:
/// every slice has `chunk` options but the last, which has what remains.
pub open spec fn slices_from(rest: int, chunk: int) -> Seq<usize>
    decreases rest,
{
    if rest <= 0 {
        Seq::empty()
    } else if chunk <= 0 || rest <= chunk {
        seq![rest as usize]
    } else {
        seq![chunk as usize] + slices_from(rest - chunk, chunk)
    }
}

/// The lengths of the contiguous thread slices a book of `total` options is
/// cut into for `threads` workers. With a single worker, or a book too small
/// to be worth splitting (under four quads), the whole book is one slice.
pub open spec fn thread_slices(total: int, threads: int) -> Seq<usize> {
    if threads <= 1 || total < 4 * LANES {
        seq![total as usize]
    } else {
        slices_from(total, slice_chunk(total, threads))
    }
}

/// Sum of the lengths in `lens`.
pub open spec fn total_len(lens: Seq<usize>) -> int
    decreases lens.len(),
{
    if lens.len() == 0 {
        0
    } else {
        lens[0] + total_len(lens.drop_first())
    }
}

/// Index of the first option of slice `i`: the lengths of the slices before
/// it, summed.
pub open spec fn slice_start(lens: Seq<usize>, i: int) -> int {
    total_len(lens.take(i))
}

/// The lengths of the thread slices for a book of `total` options spread
/// over `threads` workers (see [`thread_slices`]); the slices are taken from
/// the front of the book in order.
pub fn parallel_slices(total: usize, threads: usize) -> (lens: Vec<usize>)
    requires
        total <= usize::MAX - LANES,
    ensures
        lens@ == thread_slices(total as int, threads as int),
        threads <= 1 || total < 16 ==> lens@.len() == 1 && lens@[0] == total,
        !(threads <= 1 || total < 16) ==> ({
            let quads = total / 4 + if total % 4 == 0 {
                0int
            } else {
                1int
            };
            let chunk = 4 * (quads / (threads as int) + if quads % (threads as int) == 0 {
                0int
            } else {
                1int
            });
            &&& lens@.len() >= 2
            &&& forall|i: int| 0 <= i < lens@.len() - 1 ==> #[trigger] lens@[i] == chunk
            &&& 0 < lens@[lens@.len() - 1] <= chunk
            &&& chunk * (lens@.len() - 1) + lens@[lens@.len() - 1] == total
        }),
{
    if threads <= 1 || total < LANES * 4 {
        let mut single: Vec<usize> = Vec::new();
        single.push(total);
        assert(single@ =~= seq![total]);
        return single;
    }
    let quads = total / LANES + if total % LANES == 0 {
        0
    } else {
        1
    };
    let quads_per = quads / threads + if quads % threads == 0 {
        0
    } else {
        1
    };
    assert(quads_per <= quads) by {
        assert(quads / threads <= quads / 2) by {
            vstd::arithmetic::div_mod::lemma_div_is_ordered_by_denominator(
                quads as int,
                2,
                threads as int,
            );
        }
    }
    assert(quads_per >= 1) by {
        vstd::arithmetic::div_mod::lemma_fundamental_div_mod(quads as int, threads as int);
        if quads / threads == 0 {
            assert(quads as int == threads * 0 + quads % threads);
        }
    }
    let chunk = quads_per * LANES;
    assert(chunk == slice_chunk(total as int, threads as int));
    assert(chunk > 0);
    let mut lens: Vec<usize> = Vec::new();
    let mut rest: usize = total;
    while rest > 0
        invariant
            chunk > 0,
            rest <= total,
            lens@ + slices_from(rest as int, chunk as int) == slices_from(
                total as int,
                chunk as int,
            ),
        decreases rest,
    {
        let take = if chunk < rest {
            chunk
        } else {
            rest
        };
        let ghost before = lens@;
        lens.push(take);
        rest = rest - take;
        assert(slices_from(rest + take, chunk as int) == seq![take] + slices_from(
            rest as int,
            chunk as int,
        ));
        assert(lens@ + slices_from(rest as int, chunk as int) =~= before + slices_from(
            rest + take,
            chunk as int,
        ));
    }
    assert(lens@ =~= lens@ + slices_from(0, chunk as int));
    proof {
        let s = lens@;
        lemma_slices_from(total as int, chunk as int);
        lemma_thread_slices_partition(total as int, threads as int);
        assert forall|i: int| 0 <= i < s.len() - 1 implies #[trigger] s[i] == chunk by {
            lemma_slice_start_step(s, i);
            assert(chunk * (i + 1) == chunk * i + chunk) by (nonlinear_arith);
        }
        let last = s.len() - 1;
        lemma_slice_start_step(s, last);
        assert(s.take(last + 1) =~= s);
        assert(s.len() >= 2) by {
            if s.len() == 1 {
                assert(s[0] <= chunk);
                assert(total_len(s) == s[0]) by {
                    assert(s.take(1) =~= s);
                    assert(s.take(0) =~= Seq::<usize>::empty());
                    lemma_slice_start_step(s, 0);
                }
                // chunk < total once the book has at least four quads and two workers
                assert(chunk < total) by {
                    vstd::arithmetic::div_mod::lemma_div_is_ordered_by_denominator(
                        quads as int,
                        2,
                        threads as int,
                    );
                    assert(quads >= 4);
                    assert(quads_per <= quads / 2 + 1);
                    assert(quads / 2 + 1 <= quads - 1);
                }
            }
        }
    }
    lens
}

proof fn lemma_total_len_prepend(x: usize, rest: Seq<usize>)
    ensures
        total_len(seq![x] + rest) == x + total_len(rest),
{
    assert((seq![x] + rest).drop_first() =~= rest);
}

proof fn lemma_slices_from(rest: int, chunk: int)
    requires
        chunk > 0,
        rest >= 0,
        rest <= usize::MAX,
        chunk <= usize::MAX,
    ensures
        total_len(slices_from(rest, chunk)) == rest,
        slices_from(rest, chunk).len() == div_ceil(rest, chunk),
        forall|i: int|
            0 <= i < slices_from(rest, chunk).len() ==> 0 < #[trigger] slices_from(rest, chunk)[i]
                <= chunk,
        forall|i: int|
            0 <= i < slices_from(rest, chunk).len() ==> #[trigger] slice_start(
                slices_from(rest, chunk),
                i,
            ) == chunk * i,
    decreases rest,
{
    let s = slices_from(rest, chunk);
    if rest == 0 {
        assert(div_ceil(0, chunk) == 0) by {
            vstd::arithmetic::div_mod::lemma_basic_div(0, chunk);
            vstd::arithmetic::div_mod::lemma_small_mod(0, chunk as nat);
        }
    } else if rest <= chunk {
        assert(s =~= seq![rest as usize]);
        lemma_total_len_prepend(rest as usize, Seq::empty());
        assert(seq![rest as usize] + Seq::<usize>::empty() =~= s);
        assert(div_ceil(rest, chunk) == 1) by {
            if rest == chunk {
                vstd::arithmetic::div_mod::lemma_div_by_self(chunk);
                vstd::arithmetic::div_mod::lemma_mod_self_0(chunk);
            } else {
                vstd::arithmetic::div_mod::lemma_basic_div(rest, chunk);
                vstd::arithmetic::div_mod::lemma_small_mod(rest as nat, chunk as nat);
            }
        }
        assert(s.take(0) =~= Seq::<usize>::empty());
        assert forall|i: int| 0 <= i < s.len() implies #[trigger] slice_start(s, i) == chunk * i by {
            assert(i == 0);
            assert(chunk * 0 == 0);
        }
    } else {
        let t = slices_from(rest - chunk, chunk);
        lemma_slices_from(rest - chunk, chunk);
        assert(s == seq![chunk as usize] + t);
        lemma_total_len_prepend(chunk as usize, t);
        assert(div_ceil(rest, chunk) == div_ceil(rest - chunk, chunk) + 1) by {
            vstd::arithmetic::div_mod::lemma_div_plus_one(rest - chunk, chunk);
            vstd::arithmetic::div_mod::lemma_mod_add_multiples_vanish(rest - chunk, chunk);
        }
        assert forall|i: int| 0 <= i < s.len() implies 0 < #[trigger] s[i] <= chunk by {
            if i > 0 {
                assert(s[i] == t[i - 1]);
            }
        }
        assert forall|i: int| 0 <= i < s.len() implies #[trigger] slice_start(s, i) == chunk * i by {
            if i == 0 {
                assert(s.take(0) =~= Seq::<usize>::empty());
                assert(chunk * 0 == 0);
            } else {
                assert(s.take(i) =~= seq![chunk as usize] + t.take(i - 1));
                lemma_total_len_prepend(chunk as usize, t.take(i - 1));
                assert(slice_start(t, i - 1) == chunk * (i - 1));
                assert(chunk * i == chunk + chunk * (i - 1)) by (nonlinear_arith);
            }
        }
    }
}

/// If `a` is at most `t` blocks of `b`, it needs at most `t` blocks of `b`.
proof fn lemma_div_ceil_le(a: int, b: int, t: int)
    requires
        0 <= a,
        0 < b,
        0 <= t,
        a <= b * t,
    ensures
        div_ceil(a, b) <= t,
{
    vstd::arithmetic::div_mod::lemma_fundamental_div_mod(a, b);
    let q = a / b;
    let r = a % b;
    assert(0 <= r < b) by {
        vstd::arithmetic::div_mod::lemma_mod_pos_bound(a, b);
    }
    assert(q <= t) by (nonlinear_arith)
        requires
            a == b * q + r,
            0 <= r,
            a <= b * t,
            0 < b,
    ;
    if q == t {
        assert(r == 0) by (nonlinear_arith)
            requires
                a == b * q + r,
                a <= b * t,
                q == t,
                0 <= r,
        ;
    }
}

/// `t` blocks of `div_ceil(a, t)` hold at least `a`.
proof fn lemma_div_ceil_covers(a: int, t: int)
    requires
        0 <= a,
        0 < t,
    ensures
        a <= t * div_ceil(a, t),
{
    vstd::arithmetic::div_mod::lemma_fundamental_div_mod(a, t);
    vstd::arithmetic::div_mod::lemma_mod_pos_bound(a, t);
    let q = a / t;
    let r = a % t;
    if r == 0 {
        assert(a == t * q);
    } else {
        assert(a <= t * (q + 1)) by (nonlinear_arith)
            requires
                a == t * q + r,
                r < t,
        ;
    }
}

/// The thread slices partition the book: their lengths add up to the whole
/// book, every slice is non-empty (unless the book is), there are at most as
/// many slices as workers, and every slice starts on a quad boundary and ends
/// on one or at the end of the book. So each worker's slice is cut into the
/// same quads as the whole book would be.
pub proof fn lemma_thread_slices_partition(total: int, threads: int)
    requires
        0 <= total <= usize::MAX - LANES,
        0 <= threads,
    ensures
        total_len(thread_slices(total, threads)) == total,
        1 <= thread_slices(total, threads).len(),
        threads >= 1 ==> thread_slices(total, threads).len() <= threads,
        total > 0 ==> forall|i: int|
            0 <= i < thread_slices(total, threads).len() ==> #[trigger] thread_slices(
                total,
                threads,
            )[i] > 0,
        forall|i: int|
            0 <= i < thread_slices(total, threads).len() ==> #[trigger] slice_start(
                thread_slices(total, threads),
                i,
            ) % LANES as int == 0,
        forall|i: int|
            0 <= i < thread_slices(total, threads).len() ==> {
                let end = #[trigger] slice_start(thread_slices(total, threads), i) + thread_slices(
                    total,
                    threads,
                )[i];
                end % LANES as int == 0 || end == total
            },
{
    let s = thread_slices(total, threads);
    if threads <= 1 || total < 4 * LANES {
        lemma_total_len_prepend(total as usize, Seq::empty());
        assert(seq![total as usize] + Seq::<usize>::empty() =~= s);
        assert(s.take(0) =~= Seq::<usize>::empty());
    } else {
        let q = div_ceil(total, LANES as int);
        let k = div_ceil(q, threads);
        let chunk = slice_chunk(total, threads);
        assert(0 <= q) by {
            vstd::arithmetic::div_mod::lemma_mod_pos_bound(total, LANES as int);
        }
        lemma_div_ceil_covers(total, LANES as int);
        lemma_div_ceil_covers(q, threads);
        assert(q >= 1);
        assert(k >= 1) by {
            vstd::arithmetic::div_mod::lemma_mod_pos_bound(q, threads);
            vstd::arithmetic::div_mod::lemma_div_pos_is_pos(q, threads);
            vstd::arithmetic::div_mod::lemma_fundamental_div_mod(q, threads);
            if q / threads == 0 {
                assert(q == threads * 0 + q % threads);
            }
        }
        assert(k <= q) by {
            vstd::arithmetic::div_mod::lemma_div_is_ordered_by_denominator(q, 1, threads);
            vstd::arithmetic::div_mod::lemma_div_by_self(1);
            vstd::arithmetic::div_mod::lemma_fundamental_div_mod(q, threads);
            vstd::arithmetic::div_mod::lemma_mod_pos_bound(q, threads);
            if q / threads == q {
                assert(q % threads == 0) by (nonlinear_arith)
                    requires
                        q == threads * (q / threads) + q % threads,
                        q / threads == q,
                        threads >= 2,
                        q >= 1,
                        q % threads >= 0,
                ;
            }
        }
        assert(q <= total / LANES as int + 1);
        assert(chunk <= total + LANES);
        lemma_slices_from(total, chunk);
        assert(total <= threads * chunk) by {
            assert(threads * chunk == LANES * (threads * k)) by (nonlinear_arith)
                requires
                    chunk == LANES * k,
            ;
        }
        lemma_div_ceil_le(total, chunk, threads);
        assert forall|i: int| 0 <= i < s.len() implies #[trigger] slice_start(s, i)
            % LANES as int == 0 by {
            assert(chunk * i == LANES * (k * i)) by (nonlinear_arith)
                requires
                    chunk == LANES * k,
            ;
            vstd::arithmetic::div_mod::lemma_mod_multiples_basic(k * i, LANES as int);
            assert((k * i) * LANES as int == LANES * (k * i)) by (nonlinear_arith);
        }
        assert forall|i: int| 0 <= i < s.len() implies {
            let end = #[trigger] slice_start(s, i) + s[i];
            end % LANES as int == 0 || end == total
        } by {
            if i < s.len() - 1 {
                assert(s.take(i + 1) =~= s.take(i).push(s[i]));
                assert(slice_start(s, i + 1) == chunk * (i + 1));
                assert(chunk * (i + 1) == chunk * i + chunk) by (nonlinear_arith);
                lemma_slice_start_step(s, i);
                assert(chunk * (i + 1) == LANES * (k * (i + 1))) by (nonlinear_arith)
                    requires
                        chunk == LANES * k,
                ;
                vstd::arithmetic::div_mod::lemma_mod_multiples_basic(k * (i + 1), LANES as int);
                assert((k * (i + 1)) * LANES as int == LANES * (k * (i + 1))) by (nonlinear_arith);
            } else {
                lemma_slice_start_step(s, i);
                assert(s.take(i + 1) =~= s);
            }
        }
    }
}

proof fn lemma_total_len_push(lens: Seq<usize>, x: usize)
    ensures
        total_len(lens.push(x)) == total_len(lens) + x,
    decreases lens.len(),
{
    if lens.len() == 0 {
        assert(lens.push(x) =~= seq![x] + Seq::<usize>::empty());
        lemma_total_len_prepend(x, Seq::empty());
    } else {
        lemma_total_len_push(lens.drop_first(), x);
        assert(lens.push(x).drop_first() =~= lens.drop_first().push(x));
    }
}

proof fn lemma_slice_start_step(lens: Seq<usize>, i: int)
    requires
        0 <= i < lens.len(),
    ensures
        slice_start(lens, i + 1) == slice_start(lens, i) + lens[i],
{
    assert(lens.take(i + 1) =~= lens.take(i).push(lens[i]));
    lemma_total_len_push(lens.take(i), lens[i]);
}

/// A slice of a book that starts on a quad boundary, and ends on one or at
/// the end of the book, is cut into the same quads as the book itself:
/// quad `c` of the slice is quad `m + c` of the book, padding included.
pub proof fn lemma_quads_of_aligned_slice<T>(opts: Seq<T>, m: int, end: int, c: int)
    requires
        0 <= m,
        LANES * m < end <= opts.len(),
        end % LANES as int == 0 || end == opts.len(),
        0 <= c < quad_count(end - LANES * m),
    ensures
        quad_of(opts.subrange(LANES * m, end), c) == quad_of(opts, m + c),
{
    let sub = opts.subrange(LANES * m, end);
    assert(LANES * c < end - LANES * m);
    assert forall|l: int| 0 <= l < LANES implies #[trigger] quad_of(sub, c)[l] == quad_of(opts, m + c)[l] by {
        assert(LANES * (m + c) == LANES * m + LANES * c);
        if end % LANES as int == 0 && end != opts.len() {
            assert(LANES * (m + c) + LANES <= end);
        }
    }
    assert(quad_of(sub, c) =~= quad_of(opts, m + c));
}

/// Splitting a book over worker threads does not change how any option is
/// packed: quad `c` of thread slice `i` is quad `start / LANES + c` of the
/// whole book, where `start` is the slice's first option. Each worker therefore
/// hands its quad pricer exactly the quads a single-threaded pass would.
pub proof fn lemma_thread_slice_quads<T>(opts: Seq<T>, threads: int, i: int, c: int)
    requires
        opts.len() <= usize::MAX - LANES,
        0 <= threads,
        0 <= i < thread_slices(opts.len() as int, threads).len(),
        0 <= c < quad_count(thread_slices(opts.len() as int, threads)[i] as int),
    ensures
        ({
            let lens = thread_slices(opts.len() as int, threads);
            let start = slice_start(lens, i);
            &&& start % LANES as int == 0
            &&& quad_of(opts.subrange(start, start + lens[i]), c) == quad_of(
                opts,
                start / LANES as int + c,
            )
        }),
{
    let total = opts.len() as int;
    let lens = thread_slices(total, threads);
    let start = slice_start(lens, i);
    lemma_thread_slices_partition(total, threads);
    let end = start + lens[i];
    assert(lens[i] > 0) by {
        if total == 0 {
            assert(quad_count(lens[i] as int) == 0 || lens[i] > 0);
        }
    }
    assert(end <= total) by {
        lemma_slice_start_step(lens, i);
        lemma_slice_start_le_total(lens, i + 1);
    }
    lemma_total_len_nonneg(lens.take(i));
    let m = start / LANES as int;
    assert(start == LANES * m);
    lemma_quads_of_aligned_slice(opts, m, end, c);
}

proof fn lemma_total_len_nonneg(lens: Seq<usize>)
    ensures
        total_len(lens) >= 0,
    decreases lens.len(),
{
    if lens.len() > 0 {
        lemma_total_len_nonneg(lens.drop_first());
    }
}

proof fn lemma_slice_start_le_total(lens: Seq<usize>, i: int)
    requires
        0 <= i <= lens.len(),
    ensures
        slice_start(lens, i) <= total_len(lens),
    decreases lens.len() - i,
{
    if i == lens.len() {
        assert(lens.take(i) =~= lens);
    } else {
        lemma_slice_start_step(lens, i);
        lemma_slice_start_le_total(lens, i + 1);
    }
}

/// Threading does not change any price. Take a quad pricer whose result
/// depends only on the quad it is given (`g` names that dependence). Price the
/// whole book with [`price_by_quads`] into `whole`, and price each thread
/// slice of [`thread_slices`] the same way into `parts[i]`. Then the
/// slices' results, laid end to end at the slices' starts, are the whole
/// book's results: option `l` of slice `i` has the price of option
/// `start + l` of the book.
pub proof fn lemma_threading_preserves_prices<T, U, F: Fn([T; 4]) -> [U; 4]>(
    price_quad: F,
    g: spec_fn(Seq<T>) -> Seq<U>,
    opts: Seq<T>,
    threads: int,
    whole: Seq<U>,
    parts: Seq<Seq<U>>,
)
    requires
        opts.len() <= usize::MAX - LANES,
        0 <= threads,
        forall|q: [T; 4], r: [U; 4]| #[trigger] call_ensures(price_quad, (q,), r) ==> r@ == g(q@),
        whole.len() == opts.len(),
        forall|c: int|
            0 <= c < quad_count(opts.len() as int) ==> #[trigger] quad_priced(
                price_quad,
                opts,
                whole,
                c,
            ),
        parts.len() == thread_slices(opts.len() as int, threads).len(),
        forall|i: int|
            0 <= i < parts.len() ==> (#[trigger] parts[i]).len() == thread_slices(
                opts.len() as int,
                threads,
            )[i],
        forall|i: int, c: int|
            0 <= i < parts.len() && 0 <= c < quad_count(
                thread_slices(opts.len() as int, threads)[i] as int,
            ) ==> #[trigger] quad_priced(
                price_quad,
                opts.subrange(
                    slice_start(thread_slices(opts.len() as int, threads), i),
                    slice_start(thread_slices(opts.len() as int, threads), i) + thread_slices(
                        opts.len() as int,
                        threads,
                    )[i],
                ),
                parts[i],
                c,
            ),
    ensures
        forall|i: int, l: int|
            0 <= i < parts.len() && 0 <= l < thread_slices(opts.len() as int, threads)[i]
                ==> #[trigger] parts[i][l] == whole[slice_start(
                thread_slices(opts.len() as int, threads),
                i,
            ) + l],
        parts.flatten() == whole,
{
    let total = opts.len() as int;
    let lens = thread_slices(total, threads);
    lemma_threading_pointwise(price_quad, g, opts, threads, whole, parts);
    lemma_thread_slices_partition(total, threads);
    lemma_flatten_by_slices(parts, lens, whole);
}

/// Sequences laid end to end at the starts of `lens` that agree with `w`
/// there, and cover it, concatenate to `w`.
proof fn lemma_flatten_by_slices<U>(parts: Seq<Seq<U>>, lens: Seq<usize>, w: Seq<U>)
    requires
        parts.len() == lens.len(),
        forall|i: int| 0 <= i < parts.len() ==> (#[trigger] parts[i]).len() == lens[i],
        total_len(lens) == w.len(),
        forall|i: int, l: int|
            0 <= i < parts.len() && 0 <= l < lens[i] ==> #[trigger] parts[i][l] == w[slice_start(
                lens,
                i,
            ) + l],
    ensures
        parts.flatten() == w,
    decreases parts.len(),
{
    if parts.len() == 0 {
        assert(w =~= Seq::<U>::empty());
    } else {
        let first = parts[0];
        let n0 = lens[0] as int;
        let rest = parts.drop_first();
        let rest_lens = lens.drop_first();
        let w_rest = w.subrange(n0, w.len() as int);
        assert forall|i: int| 0 <= i < rest.len() implies (#[trigger] rest[i]).len() == rest_lens[i] by {
            assert(rest[i] == parts[i + 1]);
        }
        assert forall|i: int, l: int|
            0 <= i < rest.len() && 0 <= l < rest_lens[i] implies #[trigger] rest[i][l]
                == w_rest[slice_start(rest_lens, i) + l] by {
            assert(rest[i] == parts[i + 1]);
            lemma_slice_start_shift(lens, i + 1);
            lemma_total_len_nonneg(rest_lens.take(i));
            lemma_slice_start_step(lens, i + 1);
            lemma_slice_start_le_total(lens, i + 2);
            assert(parts[i + 1][l] == w[slice_start(lens, i + 1) + l]);
        }
        lemma_total_len_nonneg(rest_lens);
        lemma_flatten_by_slices(rest, rest_lens, w_rest);
        assert(parts.first() == first);
        assert forall|l: int| 0 <= l < n0 implies #[trigger] first[l] == w[l] by {
            assert(lens.take(0) =~= Seq::<usize>::empty());
            assert(parts[0][l] == w[slice_start(lens, 0) + l]);
        }
        assert(first + w_rest =~= w);
    }
}

proof fn lemma_slice_start_shift(lens: Seq<usize>, i: int)
    requires
        1 <= i <= lens.len(),
    ensures
        slice_start(lens, i) == lens[0] + slice_start(lens.drop_first(), i - 1),
{
    assert(lens.take(i) =~= seq![lens[0]] + lens.drop_first().take(i - 1));
    lemma_total_len_prepend(lens[0], lens.drop_first().take(i - 1));
}

proof fn lemma_threading_pointwise<T, U, F: Fn([T; 4]) -> [U; 4]>(
    price_quad: F,
    g: spec_fn(Seq<T>) -> Seq<U>,
    opts: Seq<T>,
    threads: int,
    whole: Seq<U>,
    parts: Seq<Seq<U>>,
)
    requires
        opts.len() <= usize::MAX - LANES,
        0 <= threads,
        forall|q: [T; 4], r: [U; 4]| #[trigger] call_ensures(price_quad, (q,), r) ==> r@ == g(q@),
        whole.len() == opts.len(),
        forall|c: int|
            0 <= c < quad_count(opts.len() as int) ==> #[trigger] quad_priced(
                price_quad,
                opts,
                whole,
                c,
            ),
        parts.len() == thread_slices(opts.len() as int, threads).len(),
        forall|i: int|
            0 <= i < parts.len() ==> (#[trigger] parts[i]).len() == thread_slices(
                opts.len() as int,
                threads,
            )[i],
        forall|i: int, c: int|
            0 <= i < parts.len() && 0 <= c < quad_count(
                thread_slices(opts.len() as int, threads)[i] as int,
            ) ==> #[trigger] quad_priced(
                price_quad,
                opts.subrange(
                    slice_start(thread_slices(opts.len() as int, threads), i),
                    slice_start(thread_slices(opts.len() as int, threads), i) + thread_slices(
                        opts.len() as int,
                        threads,
                    )[i],
                ),
                parts[i],
                c,
            ),
    ensures
        forall|i: int, l: int|
            0 <= i < parts.len() && 0 <= l < thread_slices(opts.len() as int, threads)[i]
                ==> #[trigger] parts[i][l] == whole[slice_start(
                thread_slices(opts.len() as int, threads),
                i,
            ) + l],
{
    let total = opts.len() as int;
    let lens = thread_slices(total, threads);
    assert forall|i: int, l: int| 0 <= i < parts.len() && 0 <= l < lens[i] implies #[trigger] parts[i][l]
        == whole[slice_start(lens, i) + l] by {
        let start = slice_start(lens, i);
        let end = start + lens[i];
        let sub = opts.subrange(start, end);
        let c = l / LANES as int;
        let lane = l % LANES as int;
        assert(l == LANES * c + lane);
        assert(0 <= c < quad_count(lens[i] as int));
        lemma_thread_slice_quads(opts, threads, i, c);
        lemma_thread_slices_partition(total, threads);
        lemma_total_len_nonneg(lens.take(i));
        assert(end <= total) by {
            lemma_slice_start_step(lens, i);
            lemma_slice_start_le_total(lens, i + 1);
        }
        let m = start / LANES as int;
        assert(start == LANES * m);
        let k = m + c;
        assert(start + l == LANES * k + lane);
        assert(0 <= k < quad_count(total));
        // the slice's price for option `l`
        assert(quad_priced(price_quad, sub, parts[i], c));
        let (q1, r1) = choose|q: [T; 4], r: [U; 4]|
            q@ == quad_of(sub, c) && call_ensures(price_quad, (q,), r) && unpacked(
                parts[i],
                c,
                r@,
            );
        assert(parts[i][LANES * c + lane] == r1@[lane]);
        // the whole book's price for option `start + l`
        assert(quad_priced(price_quad, opts, whole, k));
        let (q2, r2) = choose|q: [T; 4], r: [U; 4]|
            q@ == quad_of(opts, k) && call_ensures(price_quad, (q,), r) && unpacked(whole, k, r@);
        assert(whole[LANES * k + lane] == r2@[lane]);
        assert(q1@ == q2@);
        assert(r1@ == g(q1@));
        assert(r2@ == g(q2@));
    }
}

/// The `LANES` values of node `j` of a node-major quad grid `v`.
pub open spec fn node<T>(v: Seq<T>, j: int) -> Seq<T> {
    v.subrange(LANES * j, LANES * j + LANES)
}

/// The values of node `j` of a node-major quad grid.
pub fn node_at<T: Copy>(v: &[T], j: usize) -> (vals: [T; 4])
    requires
        LANES * j + LANES <= v@.len(),
    ensures
        vals@ == node(v@, j as int),
        forall|m: int| 0 <= m < LANES ==> #[trigger] vals@[m] == v@[LANES * j + m],
{
    let len = v.len();
    assert(LANES * j < len);
    let base = LANES * j;
    let vals = [v[base], v[base + 1], v[base + 2], v[base + 3]];
    assert(vals@ =~= node(v@, j as int));
    vals
}

/// Overwrites node `j` of a node-major quad grid with `vals`; every other
/// value is kept.
pub fn set_node<T: Copy>(v: &mut [T], j: usize, vals: [T; 4])
    requires
        LANES * j + LANES <= old(v)@.len(),
    ensures
        final(v)@ == old(v)@.take(LANES * j) + vals@ + old(v)@.skip(LANES * j + LANES),
{
    let len = v.len();
    assert(LANES * j < len);
    let base = LANES * j;
    v[base] = vals[0];
    v[base + 1] = vals[1];
    v[base + 2] = vals[2];
    v[base + 3] = vals[3];
    assert(v@ =~= old(v)@.take(LANES * j) + vals@ + old(v)@.skip(LANES * j + LANES));
}

proof fn lemma_set_node_keeps_other_nodes<T>(v: Seq<T>, j: int, vals: Seq<T>, k: int)
    requires
        0 <= j,
        0 <= k,
        k != j,
        vals.len() == LANES,
        LANES * j + LANES <= v.len(),
        LANES * k + LANES <= v.len(),
    ensures
        node(v.take(LANES * j) + vals + v.skip(LANES * j + LANES), k) == node(v, k),
        node(v.take(LANES * j) + vals + v.skip(LANES * j + LANES), j) == vals,
{
    let w = v.take(LANES * j) + vals + v.skip(LANES * j + LANES);
    assert(w.len() == v.len());
    assert(node(w, k) =~= node(v, k));
    assert(node(w, j) =~= vals);
}

/// Node `j` of `dst` is a result of `kernel` on nodes `j - 1`, `j` and
/// `j + 1` of `src`.
pub open spec fn node_swept<T, F: Fn([T; 4], [T; 4], [T; 4]) -> [T; 4]>(
    kernel: F,
    src: Seq<T>,
    dst: Seq<T>,
    j: int,
) -> bool {
    exists|a: [T; 4], b: [T; 4], c: [T; 4], r: [T; 4]|
        #![trigger call_ensures(kernel, (a, b, c), r)]
        a@ == node(src, j - 1) && b@ == node(src, j) && c@ == node(src, j + 1) && call_ensures(
            kernel,
            (a, b, c),
            r,
        ) && node(dst, j) == r@
}

/// One explicit step of a quad of options stored node-major over `n + 1`
/// nodes: every interior node `1 <= j < n` of `dst` becomes
/// `kernel(left, centre, right)` of the three neighbouring nodes of `src`,
/// and the two boundary nodes of `dst` are left for the boundary conditions.
pub fn quad_sweep<T: Copy, F: Fn([T; 4], [T; 4], [T; 4]) -> [T; 4]>(
    src: &[T],
    dst: &mut [T],
    n: usize,
    kernel: F,
)
    requires
        src@.len() == LANES * (n + 1),
        old(dst)@.len() == src@.len(),
        forall|j: int, a: [T; 4], b: [T; 4], c: [T; 4]|
            #![trigger call_requires(kernel, (a, b, c)), node(src@, j)]
            1 <= j < n && a@ == node(src@, j - 1) && b@ == node(src@, j) && c@ == node(src@, j + 1)
                ==> call_requires(kernel, (a, b, c)),
    ensures
        final(dst)@.len() == src@.len(),
        forall|j: int| 1 <= j < n ==> #[trigger] node_swept(kernel, src@, final(dst)@, j),
        node(final(dst)@, 0) == node(old(dst)@, 0),
        node(final(dst)@, n as int) == node(old(dst)@, n as int),
        forall|m: int| 0 <= m < LANES ==> #[trigger] final(dst)@[m] == old(dst)@[m],
        forall|m: int|
            #![trigger final(dst)@[LANES * n + m]]
            0 <= m < LANES ==> final(dst)@[LANES * n + m] == old(dst)@[LANES * n + m],
{
    let mut j: usize = 1;
    while j < n
        invariant
            1 <= j,
            j <= n || n == 0,
            src@.len() == LANES * (n + 1),
            dst@.len() == src@.len(),
            forall|k: int, a: [T; 4], b: [T; 4], c: [T; 4]|
                #![trigger call_requires(kernel, (a, b, c)), node(src@, k)]
                1 <= k < n && a@ == node(src@, k - 1) && b@ == node(src@, k) && c@ == node(
                    src@,
                    k + 1,
                ) ==> call_requires(kernel, (a, b, c)),
            forall|k: int| 1 <= k < j ==> #[trigger] node_swept(kernel, src@, dst@, k),
            node(dst@, 0) == node(old(dst)@, 0),
            node(dst@, n as int) == node(old(dst)@, n as int),
        decreases n - j,
    {
        let a = node_at(src, j - 1);
        let b = node_at(src, j);
        let c = node_at(src, j + 1);
        let r = kernel(a, b, c);
        let ghost prev = dst@;
        set_node(dst, j, r);
        proof {
            lemma_set_node_keeps_other_nodes(prev, j as int, r@, 0);
            lemma_set_node_keeps_other_nodes(prev, j as int, r@, n as int);
            assert(node_swept(kernel, src@, dst@, j as int));
            assert forall|k: int| 1 <= k < j + 1 implies #[trigger] node_swept(
                kernel,
                src@,
                dst@,
                k,
            ) by {
                if k < j {
                    lemma_set_node_keeps_other_nodes(prev, j as int, r@, k);
                    assert(node_swept(kernel, src@, prev, k));
                    let (a1, b1, c1, r1) = choose|
                        a1: [T; 4],
                        b1: [T; 4],
                        c1: [T; 4],
                        r1: [T; 4],
                    |
                        a1@ == node(src@, k - 1) && b1@ == node(src@, k) && c1@ == node(
                            src@,
                            k + 1,
                        ) && call_ensures(kernel, (a1, b1, c1), r1) && node(prev, k) == r1@;
                    assert(call_ensures(kernel, (a1, b1, c1), r1));
                }
            }
        }
        j = j + 1;
    }
    assert forall|m: int| 0 <= m < LANES implies #[trigger] dst@[m] == old(dst)@[m] by {
        assert(dst@[m] == node(dst@, 0)[m]);
        assert(old(dst)@[m] == node(old(dst)@, 0)[m]);
    }
    assert forall|m: int|
        #![trigger dst@[LANES * n + m]]
        0 <= m < LANES implies dst@[LANES * n + m] == old(dst)@[LANES * n + m] by {
        assert(dst@[LANES * n + m] == node(dst@, n as int)[m]);
        assert(old(dst)@[LANES * n + m] == node(old(dst)@, n as int)[m]);
    }
}

/// Lane `l` of a node-major quad grid of `n + 1` nodes: the values of one
/// option's grid, node by node.
pub open spec fn lane_column<T>(v: Seq<T>, l: int, n: int) -> Seq<T> {
    Seq::new((n + 1) as nat, |j: int| v[LANES * j + l])
}

/// A quad step is the scalar step run on each lane. Take a scalar kernel
/// `kernel` whose result is `h` of its three arguments, and a quad kernel
/// that applies `h` lane by lane. If `dst` is what [`quad_sweep`] gives on
/// `src`, and `out` is what [`crate::fd::explicit_step`] gives with `kernel`
/// on lane `l` of `src`, then every interior node of lane `l` of `dst` equals
/// the same node of `out`.
pub proof fn lemma_quad_lane_matches_scalar<
    T,
    F: Fn([T; 4], [T; 4], [T; 4]) -> [T; 4],
    K: Fn(T, T, T) -> T,
>(
    quad_kernel: F,
    kernel: K,
    h: spec_fn(T, T, T) -> T,
    src: Seq<T>,
    dst: Seq<T>,
    n: int,
    l: int,
    out: Seq<T>,
)
    requires
        0 <= l < LANES,
        0 <= n,
        src.len() == LANES * (n + 1),
        dst.len() == src.len(),
        forall|a: [T; 4], b: [T; 4], c: [T; 4], r: [T; 4]|
            #[trigger] call_ensures(quad_kernel, (a, b, c), r) ==> forall|m: int|
                0 <= m < LANES ==> #[trigger] r@[m] == h(a@[m], b@[m], c@[m]),
        forall|x: T, y: T, z: T, w: T| #[trigger] call_ensures(kernel, (x, y, z), w) ==> w == h(x, y, z),
        forall|j: int| 1 <= j < n ==> #[trigger] node_swept(quad_kernel, src, dst, j),
        out.len() == n + 1,
        forall|j: int|
            1 <= j < n ==> call_ensures(
                kernel,
                (
                    lane_column(src, l, n)[j - 1],
                    lane_column(src, l, n)[j],
                    lane_column(src, l, n)[j + 1],
                ),
                #[trigger] out[j],
            ),
    ensures
        forall|j: int| 1 <= j < n ==> #[trigger] lane_column(dst, l, n)[j] == out[j],
{
    let col = lane_column(src, l, n);
    assert forall|j: int| 1 <= j < n implies #[trigger] lane_column(dst, l, n)[j] == out[j] by {
        assert(node_swept(quad_kernel, src, dst, j));
        let (a, b, c, r) = choose|a: [T; 4], b: [T; 4], c: [T; 4], r: [T; 4]|
            a@ == node(src, j - 1) && b@ == node(src, j) && c@ == node(src, j + 1)
                && call_ensures(quad_kernel, (a, b, c), r) && node(dst, j) == r@;
        assert(r@[l] == h(a@[l], b@[l], c@[l]));
        assert(dst[LANES * j + l] == node(dst, j)[l]);
        assert(a@[l] == col[j - 1]);
        assert(b@[l] == col[j]);
        assert(c@[l] == col[j + 1]);
        assert(call_ensures(kernel, (col[j - 1], col[j], col[j + 1]), out[j]));
    }
}

/// Pricing by quads gives every option its own price. When `out` is what
/// [`price_by_quads`] gives for `opts`, `out[k]` is lane `k % 4` of the
/// result of one call of `price_quad` on a quad whose lane `k % 4` is
/// `opts[k]`; that quad carries options `k - k % 4 ..` in lane order, and a
/// lane past the end of the book holds the quad's first option.
pub proof fn lemma_each_option_priced<T, U, F: Fn([T; 4]) -> [U; 4]>(
    price_quad: F,
    opts: Seq<T>,
    out: Seq<U>,
    k: int,
)
    requires
        out.len() == opts.len(),
        forall|c: int|
            0 <= c < quad_count(opts.len() as int) ==> #[trigger] quad_priced(
                price_quad,
                opts,
                out,
                c,
            ),
        0 <= k < opts.len(),
    ensures
        exists|q: [T; 4], r: [U; 4]|
            #![trigger call_ensures(price_quad, (q,), r)]
            call_ensures(price_quad, (q,), r) && out[k] == r@[k % 4] && q@[k % 4] == opts[k]
                && forall|l: int|
                #![trigger q@[l]]
                0 <= l < 4 ==> q@[l] == if k - k % 4 + l < opts.len() {
                    opts[k - k % 4 + l]
                } else {
                    opts[k - k % 4]
                },
{
    let c = k / 4;
    assert(k == LANES * c + k % 4);
    assert(c < quad_count(opts.len() as int));
    assert(quad_priced(price_quad, opts, out, c));
    let (q, r) = choose|q: [T; 4], r: [U; 4]|
        q@ == quad_of(opts, c) && call_ensures(price_quad, (q,), r) && unpacked(out, c, r@);
    lemma_quad_lanes(opts, c);
    assert(out[LANES * c + k % 4] == r@[k % 4]);
    assert(call_ensures(price_quad, (q,), r));
    assert(forall|l: int|
        #![trigger q@[l]]
        0 <= l < 4 ==> q@[l] == if k - k % 4 + l < opts.len() {
            opts[k - k % 4 + l]
        } else {
            opts[k - k % 4]
        });
}

/// Every interior node of a quad step reads its own neighbours: when `dst` is
/// what [`quad_sweep`] gives on `src`, the `LANES` values of node `j` are the
/// result of one call of the kernel on the three arrays holding, lane by lane,
/// the values of nodes `j - 1`, `j` and `j + 1` of `src` (node `j` stored at
/// `LANES * j ..`).
pub proof fn lemma_quad_node_reads<T, F: Fn([T; 4], [T; 4], [T; 4]) -> [T; 4]>(
    kernel: F,
    src: Seq<T>,
    dst: Seq<T>,
    n: int,
    j: int,
)
    requires
        src.len() == LANES * (n + 1),
        dst.len() == src.len(),
        forall|k: int| 1 <= k < n ==> #[trigger] node_swept(kernel, src, dst, k),
        1 <= j < n,
    ensures
        exists|a: [T; 4], b: [T; 4], c: [T; 4], r: [T; 4]|
            #![trigger call_ensures(kernel, (a, b, c), r)]
            call_ensures(kernel, (a, b, c), r) && forall|m: int|
                #![trigger r@[m]]
                0 <= m < LANES ==> a@[m] == src[LANES * (j - 1) + m] && b@[m] == src[LANES * j + m]
                    && c@[m] == src[LANES * (j + 1) + m] && dst[LANES * j + m] == r@[m],
{
    assert(node_swept(kernel, src, dst, j));
    let (a, b, c, r) = choose|a: [T; 4], b: [T; 4], c: [T; 4], r: [T; 4]|
        a@ == node(src, j - 1) && b@ == node(src, j) && c@ == node(src, j + 1) && call_ensures(
            kernel,
            (a, b, c),
            r,
        ) && node(dst, j) == r@;
    assert(call_ensures(kernel, (a, b, c), r));
    assert forall|m: int|
        #![trigger r@[m]]
        0 <= m < LANES implies a@[m] == src[LANES * (j - 1) + m] && b@[m] == src[LANES * j + m]
            && c@[m] == src[LANES * (j + 1) + m] && dst[LANES * j + m] == r@[m] by {
        assert(a@[m] == node(src, j - 1)[m]);
        assert(b@[m] == node(src, j)[m]);
        assert(c@[m] == node(src, j + 1)[m]);
        assert(r@[m] == node(dst, j)[m]);
    }
}

} // verus!
