use vstd::prelude::*;

use crate::fp::{
    abs_bits, add_bits, fl_add, fl_sub, is_finite_bits, is_zero_bits, lemma_neg_bits_props,
    lemma_zero_patterns, magnitude_bits, neg_bits, negate_bits, nonzero_bits, sub_bits,
};

verus! {

// An expansion is a sequence of doubles, here carried as their IEEE-754
// binary64 bit patterns, whose exact mathematical sum is the represented
// real value. Components are mutually non-overlapping and listed in
// non-decreasing magnitude order; the zero value is the one-component
// expansion `[0.0]`. The routine below computes the difference of two
// such expansions as a new expansion, using only double additions, each
// of which is pinned to `add_bits`, the bit-level model of IEEE-754
// round-to-nearest addition.

/// The rounding error of `fl(a + b)` as the three-operation
/// fast-two-sum recovers it; exact when `|a| >= |b|`.
pub open spec fn fast_two_sum_err(a: u64, b: u64) -> u64 {
    let x = add_bits(a, b);
    let bv = sub_bits(x, a);
    sub_bits(b, bv)
}

/// The rounding error of `fl(a + b)` as the six-operation,
/// unconditional two-sum recovers it.
pub open spec fn two_sum_err(a: u64, b: u64) -> u64 {
    let x = add_bits(a, b);
    let bv = sub_bits(x, a);
    let av = sub_bits(x, bv);
    let br = sub_bits(b, bv);
    let ar = sub_bits(a, av);
    add_bits(ar, br)
}

/// The output for two one-component inputs: a single two-sum of `a`
/// and `b`, returning `[y, x]` when the error `y` is nonzero and `[x]`
/// otherwise.
pub open spec fn scalar_out(a: u64, b: u64) -> Seq<u64> {
    let x = add_bits(a, b);
    let y = two_sum_err(a, b);
    if !is_zero_bits(y) {
        seq![y, x]
    } else {
        seq![x]
    }
}

/// The two input streams merged into one sequence by non-decreasing
/// magnitude of the encoded doubles; on ties the second stream goes
/// first.
pub open spec fn merge_bits(e: Seq<u64>, f: Seq<u64>) -> Seq<u64>
    decreases e.len() + f.len(),
{
    if e.len() == 0 {
        f
    } else if f.len() == 0 {
        e
    } else if abs_bits(e[0]) < abs_bits(f[0]) {
        seq![e[0]] + merge_bits(e.drop_first(), f)
    } else {
        seq![f[0]] + merge_bits(e, f.drop_first())
    }
}

/// What the running pair `(q0, q1)` contributes once the merged stream
/// is exhausted: each of the two, in this order, when nonzero.
pub open spec fn tail_out(q0: u64, q1: u64) -> Seq<u64> {
    let low = if !is_zero_bits(q0) {
        seq![q0]
    } else {
        Seq::<u64>::empty()
    };
    let high = if !is_zero_bits(q1) {
        seq![q1]
    } else {
        Seq::<u64>::empty()
    };
    low + high
}

/// The components emitted by the compression cascade from position `k`
/// of the merged stream `h` onward, starting from the running pair
/// `(q0, q1)`. Each step absorbs `h[k]` into the pair with a
/// fast-two-sum, emits the error when nonzero, and propagates the carry
/// with a two-sum.
pub open spec fn cascade(h: Seq<u64>, k: int, q0: u64, q1: u64) -> Seq<u64>
    decreases h.len() - k,
{
    if k < 0 || k >= h.len() {
        tail_out(q0, q1)
    } else {
        let a = h[k];
        let x = add_bits(a, q0);
        let y = fast_two_sum_err(a, q0);
        let rest = cascade(h, k + 1, two_sum_err(q1, x), add_bits(q1, x));
        if !is_zero_bits(y) {
            seq![y] + rest
        } else {
            rest
        }
    }
}

/// The difference of the expansions `e` and `f`: the merged stream of
/// `e` and the negation of `f` is bootstrapped with one two-sum of its
/// two front components and then compressed; when everything cancels,
/// the output is the single component `+0.0`.
pub open spec fn spec_subtract(e: Seq<u64>, f: Seq<u64>) -> Seq<u64>
    recommends
        e.len() >= 1,
        f.len() >= 1,
{
    if e.len() == 1 && f.len() == 1 {
        scalar_out(e[0], neg_bits(f[0]))
    } else {
        let h = merge_bits(e, f.map_values(|b: u64| neg_bits(b)));
        let q1 = add_bits(h[1], h[0]);
        let q0 = fast_two_sum_err(h[1], h[0]);
        let out = cascade(h, 2, q0, q1);
        if out.len() == 0 {
            seq![0u64]
        } else {
            out
        }
    }
}

/// A canonically formed expansion: every component is finite, and when
/// there is more than one, every component is nonzero and the
/// magnitudes increase strictly. Non-overlapping expansions without
/// zero components are of this form.
pub open spec fn wf_expansion(e: Seq<u64>) -> bool {
    &&& e.len() >= 1
    &&& (forall|i: int| 0 <= i < e.len() ==> is_finite_bits(#[trigger] e[i]))
    &&& (e.len() > 1 ==> (forall|i: int| 0 <= i < e.len() ==> !is_zero_bits(#[trigger] e[i])))
    &&& (forall|i: int| 0 <= i < e.len() - 1 ==> abs_bits(#[trigger] e[i]) < abs_bits(e[i + 1]))
}

/// The merged stream has exactly the components of the two inputs.
pub proof fn lemma_merge_bits_len(e: Seq<u64>, f: Seq<u64>)
    ensures
        merge_bits(e, f).len() == e.len() + f.len(),
    decreases e.len() + f.len(),
{
    if e.len() == 0 {
    } else if f.len() == 0 {
    } else if abs_bits(e[0]) < abs_bits(f[0]) {
        lemma_merge_bits_len(e.drop_first(), f);
    } else {
        lemma_merge_bits_len(e, f.drop_first());
    }
}

/// When the first stream's front has strictly the smaller magnitude, or
/// the second stream is exhausted, the merge takes the first stream's
/// front.
pub proof fn lemma_merge_bits_first(e: Seq<u64>, f: Seq<u64>)
    requires
        e.len() > 0,
        f.len() == 0 || abs_bits(e[0]) < abs_bits(f[0]),
    ensures
        merge_bits(e, f).len() == e.len() + f.len(),
        merge_bits(e, f)[0] == e[0],
        merge_bits(e, f).drop_first() == merge_bits(e.drop_first(), f),
{
    lemma_merge_bits_len(e, f);
    if f.len() == 0 {
        assert(merge_bits(e, f) == e);
        assert(e.drop_first() =~= merge_bits(e.drop_first(), f));
    } else {
        assert(merge_bits(e, f) == seq![e[0]] + merge_bits(e.drop_first(), f));
        assert((seq![e[0]] + merge_bits(e.drop_first(), f)).drop_first() =~= merge_bits(
            e.drop_first(),
            f,
        ));
    }
}

/// When the second stream's front has magnitude at most the first
/// stream's front — ties included — or the first stream is exhausted,
/// the merge takes the second stream's front.
pub proof fn lemma_merge_bits_second(e: Seq<u64>, f: Seq<u64>)
    requires
        f.len() > 0,
        e.len() == 0 || abs_bits(f[0]) <= abs_bits(e[0]),
    ensures
        merge_bits(e, f).len() == e.len() + f.len(),
        merge_bits(e, f)[0] == f[0],
        merge_bits(e, f).drop_first() == merge_bits(e, f.drop_first()),
{
    lemma_merge_bits_len(e, f);
    if e.len() == 0 {
        assert(merge_bits(e, f) == f);
        assert(f.drop_first() =~= merge_bits(e, f.drop_first()));
    } else {
        assert(merge_bits(e, f) == seq![f[0]] + merge_bits(e, f.drop_first()));
        assert((seq![f[0]] + merge_bits(e, f.drop_first())).drop_first() =~= merge_bits(
            e,
            f.drop_first(),
        ));
    }
}

/// The two-sum fast path for two one-component inputs.
fn scalar_scalar(a: u64, b: u64) -> (g: Vec<u64>)
    ensures
        g@ == scalar_out(a, b),
        1 <= g@.len() <= 2,
        !is_zero_bits(g@[0]) || g@.len() == 1,
        is_finite_bits(a) && b == neg_bits(a) ==> g@ == seq![0u64],
        is_finite_bits(a) && !is_zero_bits(a) && is_zero_bits(b) ==> g@ == seq![a],
{
    proof {
        lemma_neg_bits_props(a);
        lemma_neg_bits_props(b);
        lemma_zero_patterns(a);
        lemma_zero_patterns(b);
    }
    let x: u64 = fl_add(a, b);
    let bv: u64 = fl_sub(x, a);
    let av: u64 = fl_sub(x, bv);
    let br: u64 = fl_sub(b, bv);
    let ar: u64 = fl_sub(a, av);
    let y: u64 = fl_add(ar, br);
    proof {
        if is_finite_bits(a) && b == neg_bits(a) {
            assert(x == 0u64);
            if !is_zero_bits(a) {
                assert(bv == neg_bits(a));
                assert(av == a);
                assert(br == 0u64);
                assert(ar == 0u64);
                assert(is_zero_bits(y));
            } else {
                assert(bv == 0u64);
                assert(av == 0u64);
                assert(is_zero_bits(br));
                assert(is_zero_bits(ar));
                assert(is_zero_bits(y));
            }
        }
    }
    let mut g: Vec<u64> = Vec::new();
    if nonzero_bits(y) {
        g.push(y);
        g.push(x);
        proof {
            assert(g@ =~= scalar_out(a, b));
        }
    } else {
        g.push(x);
        proof {
            assert(g@ =~= scalar_out(a, b));
        }
    }
    g
}

/// The on-the-fly merge of `e` and the negated `f` with the running
/// fast-two-sum compression, the general path of the subtraction.
#[verifier::rlimit(100)]
fn linear_expansion(e: &Vec<u64>, f: &Vec<u64>) -> (g: Vec<u64>)
    requires
        e@.len() >= 1,
        f@.len() >= 1,
    ensures
        g@ == spec_subtract(e@, f@),
        1 <= g@.len() <= e@.len() + f@.len(),
        forall|i: int| 0 <= i < g@.len() - 1 ==> !is_zero_bits(#[trigger] g@[i]),
        e@.len() + f@.len() > 2 && g@.len() > 1 ==> forall|i: int|
            0 <= i < g@.len() ==> !is_zero_bits(#[trigger] g@[i]),
        f@ == e@ && wf_expansion(e@) ==> g@ == seq![0u64],
        e@.len() + f@.len() > 2 && is_zero_bits(g@[0]) ==> g@ == seq![0u64],
        e@.len() == 1 && f@.len() == 1 && is_finite_bits(e@[0]) && !is_zero_bits(e@[0])
            && is_zero_bits(f@[0]) ==> g@ == seq![e@[0]],
{
    let ne: usize = e.len();
    let nf: usize = f.len();
    if ne == 1 && nf == 1 {
        proof {
            lemma_neg_bits_props(f@[0]);
        }
        return scalar_scalar(e[0], negate_bits(f[0]));
    }
    let ghost nfs = f@.map_values(|c: u64| neg_bits(c));
    let ghost h = merge_bits(e@, nfs);
    let ghost sym = f@ == e@ && e@.len() > 1 && wf_expansion(e@);
    proof {
        lemma_merge_bits_len(e@, nfs);
        assert(e@.skip(0) =~= e@);
        assert(nfs.skip(0) =~= nfs);
        assert(h.skip(0) =~= h);
    }
    let mut g: Vec<u64> = Vec::new();
    let mut eptr: usize = 0;
    let mut fptr: usize = 0;
    let mut ei: u64 = e[0];
    let mut ea: u64 = magnitude_bits(ei);
    let mut fi: u64 = negate_bits(f[0]);
    let mut fa: u64 = magnitude_bits(fi);
    let mut a: u64 = 0;
    let mut b: u64 = 0;

    if ea < fa {
        b = ei;
        proof {
            lemma_merge_bits_first(e@.skip(eptr as int), nfs.skip(fptr as int));
            assert(e@.skip(eptr as int).drop_first() =~= e@.skip(eptr as int + 1));
            assert(h.skip(0).drop_first() =~= h.skip(1));
            assert(h[0] == b);
            if sym {
                lemma_neg_bits_props(f@[0]);
                assert(false);
            }
        }
        eptr += 1;
        if eptr < ne {
            ei = e[eptr];
            ea = magnitude_bits(ei);
        }
    } else {
        b = fi;
        proof {
            lemma_merge_bits_second(e@.skip(eptr as int), nfs.skip(fptr as int));
            assert(nfs.skip(fptr as int).drop_first() =~= nfs.skip(fptr as int + 1));
            assert(h.skip(0).drop_first() =~= h.skip(1));
            assert(h[0] == b);
        }
        fptr += 1;
        if fptr < nf {
            fi = negate_bits(f[fptr]);
            fa = magnitude_bits(fi);
        }
    }
    proof {
        assert(merge_bits(e@.skip(eptr as int), nfs.skip(fptr as int)) == h.skip(1));
        assert(e@.skip(eptr as int).len() + nfs.skip(fptr as int).len() >= 2);
    }
    if (eptr < ne && ea < fa) || (fptr >= nf) {
        a = ei;
        proof {
            lemma_merge_bits_first(e@.skip(eptr as int), nfs.skip(fptr as int));
            assert(e@.skip(eptr as int).drop_first() =~= e@.skip(eptr as int + 1));
            assert(h.skip(1).drop_first() =~= h.skip(2));
            assert(h[1] == a);
        }
        eptr += 1;
        if eptr < ne {
            ei = e[eptr];
            ea = magnitude_bits(ei);
        }
    } else {
        a = fi;
        proof {
            lemma_merge_bits_second(e@.skip(eptr as int), nfs.skip(fptr as int));
            assert(nfs.skip(fptr as int).drop_first() =~= nfs.skip(fptr as int + 1));
            assert(h.skip(1).drop_first() =~= h.skip(2));
            assert(h[1] == a);
            if sym {
                lemma_neg_bits_props(f@[0]);
                lemma_neg_bits_props(f@[1]);
                assert(false);
            }
        }
        fptr += 1;
        if fptr < nf {
            fi = negate_bits(f[fptr]);
            fa = magnitude_bits(fi);
        }
    }
    let x0: u64 = fl_add(a, b);
    let bv0: u64 = fl_sub(x0, a);
    let y0: u64 = fl_sub(b, bv0);
    let mut q0: u64 = y0;
    let mut q1: u64 = x0;
    let ghost out0 = cascade(h, 2, q0, q1);
    proof {
        assert(q1 == add_bits(h[1], h[0]));
        assert(q0 == fast_two_sum_err(h[1], h[0]));
        assert(out0 =~= g@ + cascade(h, eptr + fptr, q0, q1));
        if sym {
            lemma_neg_bits_props(e@[0]);
            lemma_neg_bits_props(f@[0]);
            lemma_zero_patterns(0u64);
            assert(eptr == 1 && fptr == 1);
            assert(b == neg_bits(e@[0]) && a == e@[0]);
            assert(x0 == 0u64);
            assert(y0 == 0u64);
        }
    }
    while eptr < ne && fptr < nf
        invariant
            ne == e@.len(),
            nf == f@.len(),
            nfs == f@.map_values(|c: u64| neg_bits(c)),
            h == merge_bits(e@, nfs),
            h.len() == ne + nf,
            sym == (f@ == e@ && e@.len() > 1 && wf_expansion(e@)),
            eptr <= ne,
            fptr <= nf,
            2 <= eptr + fptr,
            merge_bits(e@.skip(eptr as int), nfs.skip(fptr as int)) == h.skip(eptr + fptr),
            eptr < ne ==> ei == e@[eptr as int] && ea == abs_bits(e@[eptr as int]),
            fptr < nf ==> fi == nfs[fptr as int] && fa == abs_bits(nfs[fptr as int]),
            out0 == g@ + cascade(h, eptr + fptr, q0, q1),
            g@.len() + 2 <= eptr + fptr,
            forall|i: int| 0 <= i < g@.len() ==> !is_zero_bits(#[trigger] g@[i]),
            sym ==> g@.len() == 0 && q0 == 0u64 && (fptr == eptr || fptr == eptr + 1),
            sym && fptr == eptr ==> q1 == 0u64,
            sym && fptr == eptr + 1 ==> eptr < ne && q1 == nfs[eptr as int],
        decreases ne + nf - eptr - fptr,
    {
        let ghost k: int = eptr + fptr;
        let ghost oeptr: int = eptr as int;
        let ghost ofptr: int = fptr as int;
        let ghost oq0: u64 = q0;
        let ghost oq1: u64 = q1;
        if ea < fa {
            a = ei;
            proof {
                lemma_merge_bits_first(e@.skip(eptr as int), nfs.skip(fptr as int));
                assert(e@.skip(eptr as int).drop_first() =~= e@.skip(eptr as int + 1));
                assert(h.skip(k).drop_first() =~= h.skip(k + 1));
                assert(h[k] == a);
                if sym {
                    lemma_neg_bits_props(f@[ofptr]);
                    assert(ofptr == oeptr + 1);
                }
            }
            eptr += 1;
            if eptr < ne {
                ei = e[eptr];
                ea = magnitude_bits(ei);
            }
        } else {
            a = fi;
            proof {
                lemma_merge_bits_second(e@.skip(eptr as int), nfs.skip(fptr as int));
                assert(nfs.skip(fptr as int).drop_first() =~= nfs.skip(fptr as int + 1));
                assert(h.skip(k).drop_first() =~= h.skip(k + 1));
                assert(h[k] == a);
                if sym {
                    lemma_neg_bits_props(f@[ofptr]);
                    assert(ofptr == oeptr);
                }
            }
            fptr += 1;
            if fptr < nf {
                fi = negate_bits(f[fptr]);
                fa = magnitude_bits(fi);
            }
        }
        b = q0;
        let x: u64 = fl_add(a, b);
        let bv: u64 = fl_sub(x, a);
        let y: u64 = fl_sub(b, bv);
        if nonzero_bits(y) {
            g.push(y);
        }
        let xx: u64 = fl_add(q1, x);
        let bvc: u64 = fl_sub(xx, q1);
        let avc: u64 = fl_sub(xx, bvc);
        let brc: u64 = fl_sub(x, bvc);
        let arc: u64 = fl_sub(q1, avc);
        q0 = fl_add(arc, brc);
        q1 = xx;
        proof {
            assert(y == fast_two_sum_err(h[k], oq0));
            assert(q0 == two_sum_err(oq1, add_bits(h[k], oq0)));
            assert(out0 =~= g@ + cascade(h, k + 1, q0, q1));
            if sym {
                lemma_zero_patterns(0u64);
                lemma_neg_bits_props(e@[oeptr]);
                lemma_neg_bits_props(f@[oeptr]);
                assert(is_zero_bits(y));
                assert(g@.len() == 0);
                assert(q0 == 0u64);
            }
        }
    }
    while eptr < ne
        invariant
            ne == e@.len(),
            nf == f@.len(),
            nfs == f@.map_values(|c: u64| neg_bits(c)),
            h == merge_bits(e@, nfs),
            h.len() == ne + nf,
            sym == (f@ == e@ && e@.len() > 1 && wf_expansion(e@)),
            eptr <= ne,
            fptr <= nf,
            2 <= eptr + fptr,
            eptr < ne ==> fptr == nf,
            merge_bits(e@.skip(eptr as int), nfs.skip(fptr as int)) == h.skip(eptr + fptr),
            eptr < ne ==> ei == e@[eptr as int],
            fptr < nf ==> fi == nfs[fptr as int],
            out0 == g@ + cascade(h, eptr + fptr, q0, q1),
            g@.len() + 2 <= eptr + fptr,
            forall|i: int| 0 <= i < g@.len() ==> !is_zero_bits(#[trigger] g@[i]),
            sym ==> g@.len() == 0 && q0 == 0u64 && fptr == nf,
            sym && eptr < ne ==> eptr + 1 == ne && q1 == nfs[eptr as int],
            sym && eptr == ne ==> q1 == 0u64,
        decreases ne - eptr,
    {
        let ghost k: int = eptr + fptr;
        let ghost oeptr: int = eptr as int;
        let ghost ofptr: int = fptr as int;
        let ghost oq0: u64 = q0;
        let ghost oq1: u64 = q1;
        a = ei;
        proof {
            assert(nfs.skip(fptr as int).len() == 0);
            lemma_merge_bits_first(e@.skip(eptr as int), nfs.skip(fptr as int));
            assert(e@.skip(eptr as int).drop_first() =~= e@.skip(eptr as int + 1));
            assert(h.skip(k).drop_first() =~= h.skip(k + 1));
            assert(h[k] == a);
        }
        b = q0;
        let x: u64 = fl_add(a, b);
        let bv: u64 = fl_sub(x, a);
        let y: u64 = fl_sub(b, bv);
        if nonzero_bits(y) {
            g.push(y);
        }
        let xx: u64 = fl_add(q1, x);
        let bvc: u64 = fl_sub(xx, q1);
        let avc: u64 = fl_sub(xx, bvc);
        let brc: u64 = fl_sub(x, bvc);
        let arc: u64 = fl_sub(q1, avc);
        q0 = fl_add(arc, brc);
        q1 = xx;
        eptr += 1;
        if eptr < ne {
            ei = e[eptr];
        }
        proof {
            assert(y == fast_two_sum_err(h[k], oq0));
            assert(q0 == two_sum_err(oq1, add_bits(h[k], oq0)));
            assert(out0 =~= g@ + cascade(h, k + 1, q0, q1));
            if sym {
                lemma_zero_patterns(0u64);
                lemma_neg_bits_props(e@[oeptr]);
                lemma_neg_bits_props(f@[oeptr]);
                assert(is_zero_bits(y));
                assert(g@.len() == 0);
                assert(q0 == 0u64);
            }
        }
    }
    while fptr < nf
        invariant
            ne == e@.len(),
            nf == f@.len(),
            nfs == f@.map_values(|c: u64| neg_bits(c)),
            h == merge_bits(e@, nfs),
            h.len() == ne + nf,
            sym == (f@ == e@ && e@.len() > 1 && wf_expansion(e@)),
            eptr == ne,
            fptr <= nf,
            2 <= eptr + fptr,
            merge_bits(e@.skip(eptr as int), nfs.skip(fptr as int)) == h.skip(eptr + fptr),
            fptr < nf ==> fi == nfs[fptr as int],
            out0 == g@ + cascade(h, eptr + fptr, q0, q1),
            g@.len() + 2 <= eptr + fptr,
            forall|i: int| 0 <= i < g@.len() ==> !is_zero_bits(#[trigger] g@[i]),
            sym ==> g@.len() == 0 && q0 == 0u64 && q1 == 0u64 && fptr == nf,
        decreases nf - fptr,
    {
        let ghost k: int = eptr + fptr;
        let ghost oq0: u64 = q0;
        let ghost oq1: u64 = q1;
        a = fi;
        proof {
            assert(e@.skip(eptr as int).len() == 0);
            lemma_merge_bits_second(e@.skip(eptr as int), nfs.skip(fptr as int));
            assert(nfs.skip(fptr as int).drop_first() =~= nfs.skip(fptr as int + 1));
            assert(h.skip(k).drop_first() =~= h.skip(k + 1));
            assert(h[k] == a);
        }
        b = q0;
        let x: u64 = fl_add(a, b);
        let bv: u64 = fl_sub(x, a);
        let y: u64 = fl_sub(b, bv);
        if nonzero_bits(y) {
            g.push(y);
        }
        let xx: u64 = fl_add(q1, x);
        let bvc: u64 = fl_sub(xx, q1);
        let avc: u64 = fl_sub(xx, bvc);
        let brc: u64 = fl_sub(x, bvc);
        let arc: u64 = fl_sub(q1, avc);
        q0 = fl_add(arc, brc);
        q1 = xx;
        fptr += 1;
        if fptr < nf {
            fi = negate_bits(f[fptr]);
        }
        proof {
            assert(y == fast_two_sum_err(h[k], oq0));
            assert(q0 == two_sum_err(oq1, add_bits(h[k], oq0)));
            assert(out0 =~= g@ + cascade(h, k + 1, q0, q1));
        }
    }
    proof {
        assert(cascade(h, eptr + fptr, q0, q1) == tail_out(q0, q1));
        lemma_zero_patterns(0u64);
    }
    if nonzero_bits(q0) {
        g.push(q0);
    }
    if nonzero_bits(q1) {
        g.push(q1);
    }
    proof {
        assert(g@ =~= out0);
    }
    if g.len() == 0 {
        g.push(0u64);
    }
    proof {
        assert(g@ == spec_subtract(e@, f@));
        if sym {
            assert(g@ =~= seq![0u64]);
        }
    }
    g
}

/// The difference of two non-overlapping expansions, carried as IEEE-754
/// binary64 bit patterns in non-decreasing magnitude order: the output
/// expansion encodes exactly the real value `sum(e) - sum(f)`.
///
/// The contract pins the output to the bit-level model of the
/// algorithm, and states the laws that hold of it for every input: the
/// output never holds a zero component except as the single component
/// of the zero expansion `[0.0]`; it never has more components than the
/// two inputs together; subtracting a canonically formed expansion from
/// itself gives exactly `[0.0]`; and subtracting the zero expansion
/// from a one-component expansion returns it unchanged.
pub fn robust_subtract(e: &Vec<u64>, f: &Vec<u64>) -> (g: Vec<u64>)
    requires
        e@.len() >= 1,
        f@.len() >= 1,
    ensures
        g@ == spec_subtract(e@, f@),
        1 <= g@.len() <= e@.len() + f@.len(),
        forall|i: int| 0 <= i < g@.len() - 1 ==> !is_zero_bits(#[trigger] g@[i]),
        e@.len() + f@.len() > 2 && g@.len() > 1 ==> forall|i: int|
            0 <= i < g@.len() ==> !is_zero_bits(#[trigger] g@[i]),
        f@ == e@ && wf_expansion(e@) ==> g@ == seq![0u64],
        e@.len() + f@.len() > 2 && is_zero_bits(g@[0]) ==> g@ == seq![0u64],
        e@.len() == 1 && f@.len() == 1 && is_finite_bits(e@[0]) && !is_zero_bits(e@[0])
            && is_zero_bits(f@[0]) ==> g@ == seq![e@[0]],
{
    linear_expansion(e, f)
}

} // verus!
