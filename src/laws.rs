//! What the value-numbering pass guarantees, stated over its specification.
use vstd::prelude::*;
use crate::ir::InstrV;
use crate::lvn::{
    acyclic, below, canon, last_def, lemma_last_def, lemma_live_len, rename, rename_args, resolve, with_args, const_op, expr_deps, find, grows, lemma_canon, lemma_find,
    lemma_mark_all_len, lemma_mark_roots_len, lemma_number_ok, lemma_resolve_args, lemma_sweep_len, live, mark_all, mark_roots, number_upto, numbering,
    numbering_ok, resolve_args, rewrite_upto, sweep, Expr, Numbering,
};

verus! {

proof fn lemma_canon_find(t: Seq<Expr>, e: Expr)
    ensures
        find(canon(t, e).0, e) == Some(canon(t, e).1),
{
    if find(t, e) is None {
        assert(t.push(e).drop_last() =~= t);
    }
}

proof fn lemma_find_grows(t: Seq<Expr>, t2: Seq<Expr>, e: Expr)
    requires
        grows(t, t2),
        find(t, e) is Some,
    ensures
        find(t2, e) == find(t, e),
{
    assert(t2.subrange(0, t.len() as int) =~= t);
    crate::lvn::lemma_find_extend(t2, e, t.len() as int);
}

proof fn lemma_step_grows(instrs: Seq<InstrV>, k: int)
    requires
        0 <= k < instrs.len(),
    ensures
        grows(number_upto(instrs, k).table, number_upto(instrs, k + 1).table),
{
    lemma_number_ok(instrs, k);
    let s = number_upto(instrs, k);
    let i = instrs[k];
    assert(grows(s.table, s.table));
    lemma_resolve_args(instrs, s, s.table, k, i.args);
    let r = resolve_args(instrs, s.nums, s.table, k, i.args);
    if i.dest is Some {
        if i.op == Some(const_op()) {
            lemma_canon(s.table, Expr::Const(i.value->Some_0));
        } else {
            lemma_canon(r.0, Expr::Op(i.op->Some_0, r.1));
        }
    }
}

proof fn lemma_upto_grows(instrs: Seq<InstrV>, i: int, k: int)
    requires
        0 <= i <= k <= instrs.len(),
    ensures
        grows(number_upto(instrs, i).table, number_upto(instrs, k).table),
    decreases k - i,
{
    if i < k {
        lemma_upto_grows(instrs, i, k - 1);
        lemma_step_grows(instrs, k - 1);
    }
}

/// What numbering records for instruction `j` stays as later steps go on.
proof fn lemma_upto_keeps(instrs: Seq<InstrV>, j: int, k: int)
    requires
        0 <= j < k <= instrs.len(),
    ensures
        number_upto(instrs, k).nums[j] == number_upto(instrs, j + 1).nums[j],
        number_upto(instrs, k).args[j] == number_upto(instrs, j + 1).args[j],
    decreases k - j,
{
    if k > j + 1 {
        lemma_upto_keeps(instrs, j, k - 1);
        lemma_number_ok(instrs, k - 1);
    }
}

/// The expression an instruction with a destination computes, over the value
/// numbers of its arguments.
pub open spec fn expr_of(instrs: Seq<InstrV>, j: int) -> Expr {
    let i = instrs[j];
    if i.op == Some(const_op()) {
        Expr::Const(i.value->Some_0)
    } else {
        Expr::Op(i.op->Some_0, numbering(instrs).args[j])
    }
}

/// After instruction `j`, its expression is found at its number.
proof fn lemma_found_after(instrs: Seq<InstrV>, j: int)
    requires
        0 <= j < instrs.len(),
        instrs[j].dest is Some,
    ensures
        number_upto(instrs, j + 1).nums[j] is Some,
        find(number_upto(instrs, j + 1).table, expr_of(instrs, j)) == Some(
            number_upto(instrs, j + 1).nums[j]->Some_0,
        ),
{
    lemma_number_ok(instrs, j);
    lemma_upto_keeps(instrs, j, instrs.len() as int);
    let s = number_upto(instrs, j);
    let i = instrs[j];
    let r = resolve_args(instrs, s.nums, s.table, j, i.args);
    if i.op == Some(const_op()) {
        lemma_canon_find(s.table, Expr::Const(i.value->Some_0));
    } else {
        lemma_canon_find(r.0, Expr::Op(i.op->Some_0, r.1));
    }
}

/// Congruence: two instructions that apply the same opcode to the same value
/// numbers (whatever their arguments are named), or that load the same
/// constant, are given the same value number.
pub proof fn lemma_congruent_same_number(instrs: Seq<InstrV>, j1: int, j2: int)
    requires
        0 <= j1 < j2 < instrs.len(),
        instrs[j1].dest is Some,
        instrs[j2].dest is Some,
        instrs[j1].op == instrs[j2].op,
        instrs[j1].op == Some(const_op()) ==> instrs[j1].value == instrs[j2].value,
        instrs[j1].op != Some(const_op()) ==> numbering(instrs).args[j1] == numbering(
            instrs,
        ).args[j2],
    ensures
        numbering(instrs).nums[j1] is Some,
        numbering(instrs).nums[j1] == numbering(instrs).nums[j2],
{
    let e = expr_of(instrs, j1);
    assert(expr_of(instrs, j2) == e);
    lemma_found_after(instrs, j1);
    lemma_found_after(instrs, j2);
    lemma_upto_keeps(instrs, j1, instrs.len() as int);
    lemma_upto_keeps(instrs, j2, instrs.len() as int);
    lemma_number_ok(instrs, j2);
    let s = number_upto(instrs, j2);
    let i = instrs[j2];
    let r = resolve_args(instrs, s.nums, s.table, j2, i.args);
    assert(grows(s.table, s.table));
    lemma_resolve_args(instrs, s, s.table, j2, i.args);
    lemma_upto_grows(instrs, j1 + 1, j2);
    let t1 = number_upto(instrs, j1 + 1).table;
    if i.op == Some(const_op()) {
        lemma_find_grows(t1, s.table, e);
    } else {
        assert(grows(t1, r.0));
        lemma_find_grows(t1, r.0, e);
    }
}

/// Whether the rewrite keeps instruction `j`.
pub open spec fn kept(instrs: Seq<InstrV>, j: int) -> bool {
    let nv = numbering(instrs);
    match nv.nums[j] {
        None => true,
        Some(n) => rewrite_upto(instrs, nv, live(nv), j).pending[n as int],
    }
}

proof fn lemma_done_stays_done(instrs: Seq<InstrV>, nv: Numbering, lv: Seq<bool>, j1: int, k: int)
    requires
        0 <= j1 < k <= instrs.len(),
        nv.nums.len() == instrs.len(),
        nv.nums[j1] is Some,
        nv.nums[j1]->Some_0 < lv.len(),
        forall|j: int|
            0 <= j < nv.nums.len() && (#[trigger] nv.nums[j]) is Some ==> nv.nums[j]->Some_0 < lv.len(),
    ensures
        rewrite_upto(instrs, nv, lv, k).pending.len() == lv.len(),
        !rewrite_upto(instrs, nv, lv, k).pending[nv.nums[j1]->Some_0 as int],
    decreases k,
{
    lemma_pending_len(instrs, nv, lv, k);
    lemma_pending_len(instrs, nv, lv, k - 1);
    if k > j1 + 1 {
        lemma_done_stays_done(instrs, nv, lv, j1, k - 1);
    }
}

proof fn lemma_pending_len(instrs: Seq<InstrV>, nv: Numbering, lv: Seq<bool>, k: int)
    requires
        0 <= k <= nv.nums.len(),
        forall|j: int|
            0 <= j < nv.nums.len() && (#[trigger] nv.nums[j]) is Some ==> nv.nums[j]->Some_0 < lv.len(),
    ensures
        rewrite_upto(instrs, nv, lv, k).pending.len() == lv.len(),
    decreases k,
{
    if k > 0 {
        lemma_pending_len(instrs, nv, lv, k - 1);
    }
}

/// Only the first producer of a value number survives: any later
/// instruction given the same number is dropped.
pub proof fn lemma_later_producer_dropped(instrs: Seq<InstrV>, j1: int, j2: int)
    requires
        0 <= j1 < j2 < instrs.len(),
        numbering(instrs).nums[j1] is Some,
        numbering(instrs).nums[j1] == numbering(instrs).nums[j2],
    ensures
        !kept(instrs, j2),
{
    let nv = numbering(instrs);
    lemma_number_ok(instrs, instrs.len() as int);
    crate::lvn::lemma_live_len(nv);
    lemma_done_stays_done(instrs, nv, live(nv), j1, j2);
}

proof fn lemma_mark_all(u: Seq<bool>, a: Seq<nat>, x: int)
    requires
        below(a, u.len()),
        0 <= x < u.len(),
    ensures
        mark_all(u, a)[x] == (u[x] || a.contains(x as nat)),
    decreases a.len(),
{
    if a.len() > 0 {
        let b = a.drop_last();
        assert(below(b, u.len())) by {
            assert forall|p: int| 0 <= p < b.len() implies #[trigger] b[p] < u.len() by {
                assert(b[p] == a[p]);
            }
        }
        lemma_mark_all(u, b, x);
        lemma_mark_all_len(u, b);
        if b.contains(x as nat) {
            let p = choose|p: int| 0 <= p < b.len() && b[p] == x as nat;
            assert(a[p] == x as nat);
        }
        if a.contains(x as nat) && a.last() != x as nat {
            let p = choose|p: int| 0 <= p < a.len() && a[p] == x as nat;
            assert(b[p] == x as nat);
        }
    }
}

proof fn lemma_deps_below(t: Seq<Expr>, k: int)
    requires
        acyclic(t),
        0 <= k < t.len(),
    ensures
        below(expr_deps(t[k]), k as nat),
{
    assert forall|p: int| 0 <= p < expr_deps(t[k]).len() implies #[trigger] expr_deps(t[k])[p] < k by {}
}

/// A mark, once made, stays through the rest of the sweep.
proof fn lemma_sweep_keeps(t: Seq<Expr>, u: Seq<bool>, k: int, x: int)
    requires
        acyclic(t),
        u.len() == t.len(),
        0 <= k <= t.len(),
        0 <= x < t.len(),
        sweep(t, u, k)[x],
    ensures
        sweep(t, u, 0)[x],
    decreases k,
{
    if k > 0 {
        let s = sweep(t, u, k);
        lemma_sweep_len(t, u, k);
        if s[k - 1] {
            lemma_deps_below(t, k - 1);
            lemma_mark_all(s, expr_deps(t[k - 1]), x);
        }
        lemma_sweep_keeps(t, u, k - 1, x);
    }
}

/// The sweep below `x` leaves the mark of `x` as it is.
proof fn lemma_sweep_above(t: Seq<Expr>, u: Seq<bool>, j: int, x: int)
    requires
        acyclic(t),
        u.len() == t.len(),
        0 <= j <= x < t.len(),
    ensures
        sweep(t, u, j)[x] == sweep(t, u, x + 1)[x],
    decreases x - j,
{
    let s = sweep(t, u, j + 1);
    lemma_sweep_len(t, u, j + 1);
    if j < x {
        lemma_sweep_above(t, u, j + 1, x);
    }
    if s[j] {
        lemma_deps_below(t, j);
        lemma_mark_all(s, expr_deps(t[j]), x);
    }
}

/// The numbers read by the effect instructions before `j` are marked.
proof fn lemma_roots_marked(nv: Numbering, j: int, j0: int, p: int)
    requires
        numbering_ok(nv, nv.nums.len() as int),
        0 <= j0 < j <= nv.nums.len(),
        nv.nums[j0] is None,
        0 <= p < nv.args[j0].len(),
    ensures
        mark_roots(nv, j)[nv.args[j0][p] as int],
    decreases j,
{
    let x = nv.args[j0][p] as int;
    assert(below(nv.args[j0], nv.table.len()));
    lemma_mark_roots_len(nv, j - 1);
    if nv.nums[j - 1] is None {
        assert(below(nv.args[j - 1], nv.table.len()));
    }
    if j0 < j - 1 {
        lemma_roots_marked(nv, j - 1, j0, p);
        if nv.nums[j - 1] is None {
            lemma_mark_all(mark_roots(nv, j - 1), nv.args[j - 1], x);
        }
    } else {
        lemma_mark_all(mark_roots(nv, j - 1), nv.args[j - 1], x);
    }
}

/// Every value number that an instruction without a destination reads is
/// needed.
pub proof fn lemma_effect_args_live(instrs: Seq<InstrV>, j: int, p: int)
    requires
        0 <= j < instrs.len(),
        numbering(instrs).nums[j] is None,
        0 <= p < numbering(instrs).args[j].len(),
    ensures
        live(numbering(instrs))[numbering(instrs).args[j][p] as int],
{
    let nv = numbering(instrs);
    lemma_number_ok(instrs, instrs.len() as int);
    lemma_roots_marked(nv, nv.nums.len() as int, j, p);
    lemma_mark_roots_len(nv, nv.nums.len() as int);
    assert(below(nv.args[j], nv.table.len()));
    lemma_sweep_keeps(nv.table, mark_roots(nv, nv.nums.len() as int), nv.table.len() as int, nv.args[j][p] as int);
}

/// Liveness is closed: the arguments of a needed operation are needed.
pub proof fn lemma_live_closed(instrs: Seq<InstrV>, m: int, p: int)
    requires
        0 <= m < numbering(instrs).table.len(),
        live(numbering(instrs))[m],
        0 <= p < expr_deps(numbering(instrs).table[m]).len(),
    ensures
        live(numbering(instrs))[expr_deps(numbering(instrs).table[m])[p] as int],
{
    let nv = numbering(instrs);
    let t = nv.table;
    lemma_number_ok(instrs, instrs.len() as int);
    let u = mark_roots(nv, nv.nums.len() as int);
    lemma_mark_roots_len(nv, nv.nums.len() as int);
    lemma_sweep_above(t, u, 0, m);
    let s = sweep(t, u, m + 1);
    lemma_sweep_len(t, u, m + 1);
    lemma_deps_below(t, m);
    let d = expr_deps(t[m])[p] as int;
    lemma_mark_all(s, expr_deps(t[m]), d);
    lemma_sweep_keeps(t, u, m, d);
}

/// An instruction gets a value number exactly when it has a destination.
proof fn lemma_num_iff_dest(instrs: Seq<InstrV>, j: int)
    requires
        0 <= j < instrs.len(),
    ensures
        (numbering(instrs).nums[j] is Some) == (instrs[j].dest is Some),
{
    lemma_upto_keeps(instrs, j, instrs.len() as int);
    lemma_number_ok(instrs, j);
    let s = number_upto(instrs, j);
    assert(number_upto(instrs, j + 1) == crate::lvn::number_step(instrs, s, j));
}

/// What the rewrite has established after its first `k` instructions.
pub open spec fn rewrite_inv(instrs: Seq<InstrV>, k: int) -> bool {
    let nv = numbering(instrs);
    let lv = live(nv);
    let r = rewrite_upto(instrs, nv, lv, k);
    let len = nv.table.len();
    &&& r.canon.len() == len
    &&& r.pending.len() == len
    &&& forall|n: int| 0 <= n < len && #[trigger] r.pending[n] ==> lv[n]
    &&& forall|n: int| 0 <= n < len && lv[n] && !r.pending[n] ==> (#[trigger] r.canon[n]) is Some
    &&& forall|j: int|
        0 <= j < k && (#[trigger] nv.nums[j]) is Some ==> !r.pending[nv.nums[j]->Some_0 as int]
    &&& forall|n: int|
        0 <= n < len && (#[trigger] r.canon[n]) is Some ==> exists|j: int|
            0 <= j < k && kept(instrs, j) && nv.nums[j] == Some(n as nat) && instrs[j].dest
                == r.canon[n]
}

proof fn lemma_rewrite_inv(instrs: Seq<InstrV>, k: int)
    requires
        0 <= k <= instrs.len(),
    ensures
        rewrite_inv(instrs, k),
    decreases k,
{
    let nv = numbering(instrs);
    let lv = live(nv);
    let len = nv.table.len();
    lemma_number_ok(instrs, instrs.len() as int);
    lemma_live_len(nv);
    if k == 0 {
        let r = rewrite_upto(instrs, nv, lv, k);
        assert(r.pending == lv);
        assert forall|n: int| 0 <= n < len && lv[n] && !r.pending[n] implies (#[trigger] r.canon[n]) is Some by {
            assert(r.pending[n] == lv[n]);
        }
    } else {
        lemma_rewrite_inv(instrs, k - 1);
        let r0 = rewrite_upto(instrs, nv, lv, k - 1);
        let r = rewrite_upto(instrs, nv, lv, k);
        let i = instrs[k - 1];
        match nv.nums[k - 1] {
            Some(m) => {
                assert(m < len);
                lemma_num_iff_dest(instrs, k - 1);
                assert(kept(instrs, k - 1) == r0.pending[m as int]);
                assert forall|n: int| 0 <= n < len && #[trigger] r.pending[n] implies lv[n] by {
                    assert(r0.pending[n]);
                }
                assert forall|n: int| 0 <= n < len && lv[n] && !r.pending[n] implies (#[trigger] r.canon[n]) is Some by {
                    if n != m {
                        assert(!r0.pending[n]);
                        assert(r0.canon[n] is Some);
                    } else if r0.pending[m as int] {
                        assert(r.canon[n] == i.dest);
                    } else {
                        assert(r0.canon[n] is Some);
                    }
                }
                assert forall|j: int|
                    0 <= j < k && (#[trigger] nv.nums[j]) is Some implies !r.pending[nv.nums[j]->Some_0 as int] by {
                    if j < k - 1 {
                        assert(!r0.pending[nv.nums[j]->Some_0 as int]);
                    }
                }
                assert forall|n: int|
                    0 <= n < len && (#[trigger] r.canon[n]) is Some implies exists|j: int|
                        0 <= j < k && kept(instrs, j) && nv.nums[j] == Some(n as nat)
                            && instrs[j].dest == r.canon[n] by {
                    if r0.pending[m as int] && n == m {
                        assert(kept(instrs, k - 1) && nv.nums[k - 1] == Some(n as nat) && instrs[k - 1].dest == r.canon[n]);
                    } else {
                        assert(r.canon[n] == r0.canon[n]);
                        let j = choose|j: int|
                            0 <= j < k - 1 && kept(instrs, j) && nv.nums[j] == Some(n as nat)
                                && instrs[j].dest == r0.canon[n];
                        assert(0 <= j < k && kept(instrs, j));
                    }
                }
            },
            None => {
                assert forall|n: int| 0 <= n < len && #[trigger] r.pending[n] implies lv[n] by {
                    assert(r0.pending[n]);
                }
                assert forall|n: int| 0 <= n < len && lv[n] && !r.pending[n] implies (#[trigger] r.canon[n]) is Some by {
                    assert(!r0.pending[n]);
                    assert(r0.canon[n] is Some);
                }
                assert forall|j: int|
                    0 <= j < k && (#[trigger] nv.nums[j]) is Some implies !r.pending[nv.nums[j]->Some_0 as int] by {
                    assert(!r0.pending[nv.nums[j]->Some_0 as int]);
                }
                assert forall|n: int|
                    0 <= n < len && (#[trigger] r.canon[n]) is Some implies exists|j: int|
                        0 <= j < k && kept(instrs, j) && nv.nums[j] == Some(n as nat)
                            && instrs[j].dest == r.canon[n] by {
                    assert(r0.canon[n] is Some);
                    let j = choose|j: int|
                        0 <= j < k - 1 && kept(instrs, j) && nv.nums[j] == Some(n as nat)
                            && instrs[j].dest == r0.canon[n];
                    assert(0 <= j < k && kept(instrs, j));
                }
            },
        }
    }
}

proof fn lemma_resolve_args_len(instrs: Seq<InstrV>, nums: Seq<Option<nat>>, t: Seq<Expr>, k: int, xs: Seq<Seq<char>>)
    ensures
        resolve_args(instrs, nums, t, k, xs).1.len() == xs.len(),
    decreases xs.len(),
{
    if xs.len() > 0 {
        lemma_resolve_args_len(instrs, nums, t, k, xs.drop_last());
    }
}

/// An argument whose name the block assigned earlier reads that
/// assignment's number.
proof fn lemma_resolved_local(instrs: Seq<InstrV>, nums: Seq<Option<nat>>, t: Seq<Expr>, k: int, xs: Seq<Seq<char>>, p: int)
    requires
        0 <= p < xs.len(),
        last_def(instrs, xs[p], k) matches Some(j) && nums[j] is Some,
    ensures
        resolve_args(instrs, nums, t, k, xs).1[p] == nums[last_def(instrs, xs[p], k)->Some_0]->Some_0,
    decreases xs.len(),
{
    lemma_resolve_args_len(instrs, nums, t, k, xs.drop_last());
    if p < xs.len() - 1 {
        assert(xs.drop_last()[p] == xs[p]);
        lemma_resolved_local(instrs, nums, t, k, xs.drop_last(), p);
    }
}

/// Soundness of dead-code elimination: each argument of a kept instruction,
/// once renamed, names the destination of a kept instruction before it, or
/// keeps its own name, that of a value the block did not assign before that
/// point (a parameter or a value from another block).
pub proof fn lemma_kept_args_defined(instrs: Seq<InstrV>, k: int, p: int)
    requires
        0 <= k < instrs.len(),
        kept(instrs, k),
        0 <= p < numbering(instrs).args[k].len(),
    ensures
        p < instrs[k].args.len(),
        ({
            let name = emitted(instrs, k).args[p];
            (exists|j: int| 0 <= j < k && kept(instrs, j) && instrs[j].dest == Some(name)) || (
            name == instrs[k].args[p] && last_def(instrs, name, k) is None)
        }),
{
    let nv = numbering(instrs);
    let lv = live(nv);
    let r = rewrite_upto(instrs, nv, lv, k);
    let len = nv.table.len();
    lemma_number_ok(instrs, instrs.len() as int);
    lemma_live_len(nv);
    lemma_rewrite_inv(instrs, k);
    let n = nv.args[k][p];
    assert(below(nv.args[k], len));
    let x = instrs[k].args[p];
    let name = rename(r.canon, n, x);
    lemma_upto_keeps(instrs, k, instrs.len() as int);
    lemma_number_ok(instrs, k);
    let s0 = number_upto(instrs, k);
    assert(number_upto(instrs, k + 1) == crate::lvn::number_step(instrs, s0, k));
    lemma_resolve_args_len(instrs, s0.nums, s0.table, k, instrs[k].args);
    assert(p < instrs[k].args.len());
    assert(emitted(instrs, k).args[p] == name);
    if r.canon[n as int] is Some {
        let j = choose|j: int|
            0 <= j < k && kept(instrs, j) && nv.nums[j] == Some(n) && instrs[j].dest == r.canon[n as int];
        assert(instrs[j].dest == Some(name));
    } else {
        assert(name == x);
        lemma_last_def(instrs, x, k);
        if last_def(instrs, x, k) is Some {
            let j = last_def(instrs, x, k)->Some_0;
            lemma_num_iff_dest(instrs, j);
            assert forall|q: int| 0 <= q < k implies #[trigger] s0.nums[q] == nv.nums[q] by {
                lemma_upto_keeps(instrs, q, k);
                lemma_upto_keeps(instrs, q, instrs.len() as int);
            }
            let i = instrs[k];
            assert(!(i.dest is Some && i.op == Some(const_op())));
            lemma_resolved_local(instrs, s0.nums, s0.table, k, i.args, p);
            assert(n == nv.nums[j]->Some_0);
            lemma_num_iff_dest(instrs, k);
            match nv.nums[k] {
                None => {
                    lemma_effect_args_live(instrs, k, p);
                },
                Some(m) => {
                    assert(r.pending[m as int]);
                    assert(lv[m as int]);
                    lemma_found_after(instrs, k);
                    let t1 = number_upto(instrs, k + 1).table;
                    lemma_find(t1, expr_of(instrs, k));
                    lemma_upto_grows(instrs, k + 1, instrs.len() as int);
                    assert(nv.table[m as int] == t1[m as int]);
                    assert(expr_deps(nv.table[m as int]) == nv.args[k]);
                    lemma_live_closed(instrs, m as int, p);
                },
            }
            assert(lv[n as int]);
            assert(!r.pending[n as int]);
            assert(false);
        }
    }
}

/// No variable is assigned twice in the block.
pub open spec fn distinct_dests(instrs: Seq<InstrV>) -> bool {
    forall|j1: int, j2: int|
        0 <= j1 < j2 < instrs.len() && (#[trigger] instrs[j1]).dest is Some ==> instrs[j1].dest
            != (#[trigger] instrs[j2]).dest
}

/// In a block that assigns each variable at most once, no kept instruction
/// refers, after renaming, to the destination of an instruction dropped
/// before it.
pub proof fn lemma_dropped_not_referenced(instrs: Seq<InstrV>, k: int, p: int, j: int)
    requires
        distinct_dests(instrs),
        0 <= j < k < instrs.len(),
        kept(instrs, k),
        !kept(instrs, j),
        0 <= p < numbering(instrs).args[k].len(),
    ensures
        p < instrs[k].args.len(),
        instrs[j].dest != Some(emitted(instrs, k).args[p]),
{
    let name = emitted(instrs, k).args[p];
    lemma_kept_args_defined(instrs, k, p);
    if instrs[j].dest == Some(name) {
        if exists|j2: int| 0 <= j2 < k && kept(instrs, j2) && instrs[j2].dest == Some(name) {
            let j2 = choose|j2: int| 0 <= j2 < k && kept(instrs, j2) && instrs[j2].dest == Some(name);
            assert(j2 != j);
            if j < j2 {
                assert(instrs[j].dest != instrs[j2].dest);
            } else {
                assert(instrs[j2].dest != instrs[j].dest);
            }
        } else {
            lemma_assigned_found(instrs, name, k, j);
        }
    }
}

proof fn lemma_assigned_found(instrs: Seq<InstrV>, x: Seq<char>, k: int, j: int)
    requires
        0 <= j < k,
        instrs[j].dest == Some(x),
    ensures
        last_def(instrs, x, k) is Some,
    decreases k,
{
    if k - 1 != j && instrs[k - 1].dest != Some(x) {
        lemma_assigned_found(instrs, x, k - 1, j);
    }
}

/// Instruction `j` as the rewrite emits it, with its arguments renamed.
pub open spec fn emitted(instrs: Seq<InstrV>, j: int) -> InstrV {
    let nv = numbering(instrs);
    let r = rewrite_upto(instrs, nv, live(nv), j);
    with_args(instrs[j], rename_args(r.canon, nv.args[j], instrs[j].args))
}

/// The emitted forms of the kept instructions among the first `k`, in order.
pub open spec fn kept_prefix(instrs: Seq<InstrV>, k: int) -> Seq<InstrV>
    decreases k,
{
    if k <= 0 {
        Seq::empty()
    } else if kept(instrs, k - 1) {
        kept_prefix(instrs, k - 1).push(emitted(instrs, k - 1))
    } else {
        kept_prefix(instrs, k - 1)
    }
}

proof fn lemma_out_is_kept_prefix(instrs: Seq<InstrV>, k: int)
    requires
        0 <= k <= instrs.len(),
    ensures
        rewrite_upto(instrs, numbering(instrs), live(numbering(instrs)), k).out == kept_prefix(
            instrs,
            k,
        ),
    decreases k,
{
    if k > 0 {
        lemma_out_is_kept_prefix(instrs, k - 1);
    }
}

/// The pass emits exactly the kept instructions, in block order, each with
/// its arguments renamed; `kept` and `emitted` are what the laws above speak
/// of.
pub proof fn lemma_lvn_is_kept_instructions(instrs: Seq<InstrV>)
    ensures
        crate::lvn::lvn(instrs) == kept_prefix(instrs, instrs.len() as int),
{
    reveal(crate::lvn::lvn);
    lemma_out_is_kept_prefix(instrs, instrs.len() as int);
}

/// Every later reference to a value number, whichever variable it was read
/// through, is renamed to the destination of the kept producer of that
/// number.
pub proof fn lemma_references_use_survivor(instrs: Seq<InstrV>, j1: int, k: int, p: int)
    requires
        0 <= j1 < k < instrs.len(),
        kept(instrs, j1),
        kept(instrs, k),
        numbering(instrs).nums[j1] is Some,
        0 <= p < numbering(instrs).args[k].len(),
        numbering(instrs).args[k][p] == numbering(instrs).nums[j1]->Some_0,
    ensures
        instrs[j1].dest == Some(emitted(instrs, k).args[p]),
{
    let nv = numbering(instrs);
    let lv = live(nv);
    let n = nv.nums[j1]->Some_0;
    let r = rewrite_upto(instrs, nv, lv, k);
    lemma_number_ok(instrs, instrs.len() as int);
    lemma_rewrite_inv(instrs, j1);
    lemma_rewrite_inv(instrs, k);
    lemma_kept_args_defined(instrs, k, p);
    assert(lv[n as int]);
    assert(!r.pending[n as int]);
    assert(r.canon[n as int] is Some);
    let j = choose|j: int|
        0 <= j < k && kept(instrs, j) && nv.nums[j] == Some(n) && instrs[j].dest == r.canon[n as int];
    if j < j1 {
        lemma_later_producer_dropped(instrs, j, j1);
    } else if j1 < j {
        lemma_later_producer_dropped(instrs, j1, j);
    }
    assert(emitted(instrs, k).args[p] == rename(r.canon, n, instrs[k].args[p]));
}

/// Where each kept instruction among the first `k` lands in the output.
proof fn lemma_kept_positions(instrs: Seq<InstrV>, k: int)
    requires
        0 <= k <= instrs.len(),
    ensures
        forall|j: int|
            0 <= j < k && kept(instrs, j) ==> kept_prefix(instrs, j).len() < kept_prefix(
                instrs,
                k,
            ).len() && (#[trigger] kept_prefix(instrs, k)[kept_prefix(instrs, j).len() as int])
                == emitted(instrs, j),
        forall|i: int|
            0 <= i < kept_prefix(instrs, k).len() ==> exists|j: int|
                0 <= j < k && kept(instrs, j) && kept_prefix(instrs, j).len() == i && #[trigger] kept_prefix(
                    instrs,
                    k,
                )[i] == emitted(instrs, j),
    decreases k,
{
    if k > 0 {
        lemma_kept_positions(instrs, k - 1);
        let pre = kept_prefix(instrs, k - 1);
        let cur = kept_prefix(instrs, k);
        assert forall|j: int|
            0 <= j < k && kept(instrs, j) implies kept_prefix(instrs, j).len() < cur.len() && (
            #[trigger] cur[kept_prefix(instrs, j).len() as int]) == emitted(instrs, j) by {
            if j < k - 1 {
                assert(pre[kept_prefix(instrs, j).len() as int] == emitted(instrs, j));
            }
        }
        assert forall|i: int| 0 <= i < cur.len() implies exists|j: int|
            0 <= j < k && kept(instrs, j) && kept_prefix(instrs, j).len() == i && #[trigger] cur[i]
                == emitted(instrs, j) by {
            if i < pre.len() {
                assert(cur[i] == pre[i]);
                let j = choose|j: int|
                    0 <= j < k - 1 && kept(instrs, j) && kept_prefix(instrs, j).len() == i
                        && pre[i] == emitted(instrs, j);
            } else {
                assert(kept(instrs, k - 1) && kept_prefix(instrs, k - 1).len() == i && cur[i]
                    == emitted(instrs, k - 1));
            }
        }
    }
}

/// Constants carry no arguments.
pub open spec fn consts_without_args(instrs: Seq<InstrV>) -> bool {
    forall|j: int|
        0 <= j < instrs.len() && (#[trigger] instrs[j]).op == Some(const_op()) ==> instrs[j].args.len()
            == 0
}

/// Soundness of dead-code elimination, read on the output list: every
/// argument of an output instruction is the destination of an earlier output
/// instruction, or keeps the name that its source instruction `k` read, a
/// value the block did not assign before `k`.
pub proof fn lemma_output_args_defined(instrs: Seq<InstrV>, i: int, p: int)
    requires
        consts_without_args(instrs),
        0 <= i < crate::lvn::lvn(instrs).len(),
        0 <= p < crate::lvn::lvn(instrs)[i].args.len(),
    ensures
        ({
            let out = crate::lvn::lvn(instrs);
            let a = out[i].args[p];
            (exists|i2: int| 0 <= i2 < i && #[trigger] out[i2].dest == Some(a)) || exists|k: int|
                0 <= k < instrs.len() && out[i] == emitted(instrs, k) && a == instrs[k].args[p]
                    && last_def(instrs, a, k) is None
        }),
{
    let n = instrs.len() as int;
    let out = crate::lvn::lvn(instrs);
    lemma_lvn_is_kept_instructions(instrs);
    lemma_kept_positions(instrs, n);
    let k = choose|k: int|
        0 <= k < n && kept(instrs, k) && kept_prefix(instrs, k).len() == i && out[i] == emitted(
            instrs,
            k,
        );
    lemma_upto_keeps(instrs, k, n);
    lemma_number_ok(instrs, k);
    let s0 = number_upto(instrs, k);
    assert(number_upto(instrs, k + 1) == crate::lvn::number_step(instrs, s0, k));
    lemma_resolve_args_len(instrs, s0.nums, s0.table, k, instrs[k].args);
    assert(out[i].args.len() == instrs[k].args.len());
    if instrs[k].op == Some(const_op()) && instrs[k].dest is Some {
        assert(instrs[k].args.len() == 0);
    }
    assert(p < numbering(instrs).args[k].len());
    lemma_kept_args_defined(instrs, k, p);
    let a = out[i].args[p];
    if exists|j: int| 0 <= j < k && kept(instrs, j) && instrs[j].dest == Some(a) {
        let j = choose|j: int| 0 <= j < k && kept(instrs, j) && instrs[j].dest == Some(a);
        let i2 = kept_prefix(instrs, j).len() as int;
        lemma_kept_prefix_grows(instrs, j + 1, k);
        assert(out[i2] == emitted(instrs, j));
        assert(out[i2].dest == Some(a));
    }
}

proof fn lemma_kept_prefix_grows(instrs: Seq<InstrV>, j: int, k: int)
    requires
        0 <= j <= k,
    ensures
        kept_prefix(instrs, j).len() <= kept_prefix(instrs, k).len(),
    decreases k - j,
{
    if j < k {
        lemma_kept_prefix_grows(instrs, j, k - 1);
    }
}

/// Congruence, read on the output list: each output instruction comes from a
/// kept source instruction `k`; if `k` has a value number, `k` is the first
/// instruction of the block with that number and every other one is dropped,
/// so no two output instructions produce the same number.
pub proof fn lemma_output_single_producer(instrs: Seq<InstrV>, i: int)
    requires
        0 <= i < crate::lvn::lvn(instrs).len(),
    ensures
        exists|k: int|
            {
                &&& 0 <= k < instrs.len()
                &&& kept(instrs, k)
                &&& crate::lvn::lvn(instrs)[i] == emitted(instrs, k)
                &&& numbering(instrs).nums[k] is Some ==> forall|j: int|
                    0 <= j < instrs.len() && j != k && #[trigger] numbering(instrs).nums[j]
                        == numbering(instrs).nums[k] ==> k < j && !kept(instrs, j)
            },
{
    let n = instrs.len() as int;
    let out = crate::lvn::lvn(instrs);
    lemma_lvn_is_kept_instructions(instrs);
    lemma_kept_positions(instrs, n);
    let k = choose|k: int|
        0 <= k < n && kept(instrs, k) && kept_prefix(instrs, k).len() == i && out[i] == emitted(
            instrs,
            k,
        );
    let nv = numbering(instrs);
    if nv.nums[k] is Some {
        assert forall|j: int|
            0 <= j < n && j != k && #[trigger] nv.nums[j] == nv.nums[k] implies k < j && !kept(
            instrs,
            j,
        ) by {
            if j < k {
                lemma_later_producer_dropped(instrs, j, k);
            } else {
                lemma_later_producer_dropped(instrs, k, j);
            }
        }
    }
}

/// Renaming to the survivor, read on the output list: an argument of an
/// output instruction that read the value number of a kept instruction `j1`
/// names `j1`'s destination, and `j1` itself stands earlier in the output.
pub proof fn lemma_output_uses_survivor(instrs: Seq<InstrV>, j1: int, k: int, p: int)
    requires
        0 <= j1 < k < instrs.len(),
        kept(instrs, j1),
        kept(instrs, k),
        numbering(instrs).nums[j1] is Some,
        0 <= p < numbering(instrs).args[k].len(),
        numbering(instrs).args[k][p] == numbering(instrs).nums[j1]->Some_0,
    ensures
        ({
            let out = crate::lvn::lvn(instrs);
            let i1 = kept_prefix(instrs, j1).len() as int;
            let i = kept_prefix(instrs, k).len() as int;
            &&& i1 < i < out.len()
            &&& out[i1] == emitted(instrs, j1)
            &&& out[i] == emitted(instrs, k)
            &&& out[i1].dest == Some(out[i].args[p])
        }),
{
    let n = instrs.len() as int;
    lemma_lvn_is_kept_instructions(instrs);
    lemma_kept_positions(instrs, n);
    lemma_kept_prefix_grows(instrs, j1 + 1, k);
    lemma_references_use_survivor(instrs, j1, k, p);
}

/// A name read before the block assigns it resolves to its opaque entry.
proof fn lemma_resolved_external(instrs: Seq<InstrV>, nv: Numbering, t: Seq<Expr>, k: int, xs: Seq<Seq<char>>, p: int)
    requires
        numbering_ok(nv, k),
        acyclic(t),
        grows(nv.table, t),
        0 <= p < xs.len(),
        last_def(instrs, xs[p], k) is None,
    ensures
        resolve_args(instrs, nv.nums, t, k, xs).0[resolve_args(instrs, nv.nums, t, k, xs).1[p] as int]
            == Expr::Opaque(xs[p]),
    decreases xs.len(),
{
    let b = xs.drop_last();
    lemma_resolve_args(instrs, nv, t, k, b);
    lemma_resolve_args_len(instrs, nv.nums, t, k, b);
    let r = resolve_args(instrs, nv.nums, t, k, b);
    lemma_last_def(instrs, xs.last(), k);
    lemma_canon(r.0, Expr::Opaque(xs.last()));
    if p < xs.len() - 1 {
        assert(b[p] == xs[p]);
        lemma_resolved_external(instrs, nv, t, k, b, p);
        assert(r.1[p] < r.0.len());
    }
}

/// A block may read a variable it has not assigned yet (a parameter or a
/// value from another block): the read is no error, and the kept reader
/// still names that variable as written.
pub proof fn lemma_external_name_kept(instrs: Seq<InstrV>, k: int, p: int)
    requires
        0 <= k < instrs.len(),
        kept(instrs, k),
        0 <= p < numbering(instrs).args[k].len(),
        last_def(instrs, instrs[k].args[p], k) is None,
    ensures
        p < instrs[k].args.len(),
        emitted(instrs, k).args[p] == instrs[k].args[p],
{
    let n = instrs.len() as int;
    let nv = numbering(instrs);
    let lv = live(nv);
    let r = rewrite_upto(instrs, nv, lv, k);
    let x = instrs[k].args[p];
    lemma_number_ok(instrs, n);
    lemma_live_len(nv);
    lemma_rewrite_inv(instrs, k);
    lemma_upto_keeps(instrs, k, n);
    lemma_number_ok(instrs, k);
    let s0 = number_upto(instrs, k);
    let s1 = number_upto(instrs, k + 1);
    assert(s1 == crate::lvn::number_step(instrs, s0, k));
    lemma_resolve_args_len(instrs, s0.nums, s0.table, k, instrs[k].args);
    let ra = resolve_args(instrs, s0.nums, s0.table, k, instrs[k].args);
    assert(!(instrs[k].dest is Some && instrs[k].op == Some(const_op())));
    assert(grows(s0.table, s0.table));
    lemma_resolve_args(instrs, s0, s0.table, k, instrs[k].args);
    lemma_resolved_external(instrs, s0, s0.table, k, instrs[k].args, p);
    let m = nv.args[k][p];
    assert(m == ra.1[p]);
    assert(m < ra.0.len());
    if instrs[k].dest is Some {
        lemma_canon(ra.0, Expr::Op(instrs[k].op->Some_0, ra.1));
    }
    assert(grows(ra.0, s1.table));
    lemma_upto_grows(instrs, k + 1, n);
    assert(nv.table[m as int] == Expr::Opaque(x));
    assert(emitted(instrs, k).args[p] == rename(r.canon, m, x));
    if r.canon[m as int] is Some {
        let j = choose|j: int|
            0 <= j < k && kept(instrs, j) && nv.nums[j] == Some(m) && instrs[j].dest == r.canon[m as int];
        lemma_num_iff_dest(instrs, j);
        lemma_upto_keeps(instrs, j, n);
        lemma_found_after(instrs, j);
        let tj = number_upto(instrs, j + 1).table;
        lemma_find(tj, expr_of(instrs, j));
        lemma_upto_grows(instrs, j + 1, n);
        assert(nv.table[m as int] == expr_of(instrs, j));
        assert(false);
    }
}

/// Every variable the block reads was assigned earlier in the block.
pub open spec fn reads_defined(instrs: Seq<InstrV>) -> bool {
    forall|k: int, p: int|
        0 <= k < instrs.len() && 0 <= p < instrs[k].args.len() ==> #[trigger] last_def(
            instrs,
            instrs[k].args[p],
            k,
        ) is Some
}

/// In a block that assigns each variable once and reads only what it
/// assigned before, no output instruction names the destination of a dropped
/// instruction.
pub proof fn lemma_output_skips_dropped(instrs: Seq<InstrV>, j: int, i: int, p: int)
    requires
        distinct_dests(instrs),
        consts_without_args(instrs),
        reads_defined(instrs),
        0 <= j < instrs.len(),
        !kept(instrs, j),
        0 <= i < crate::lvn::lvn(instrs).len(),
        0 <= p < crate::lvn::lvn(instrs)[i].args.len(),
    ensures
        instrs[j].dest != Some(crate::lvn::lvn(instrs)[i].args[p]),
{
    let n = instrs.len() as int;
    let out = crate::lvn::lvn(instrs);
    let a = out[i].args[p];
    lemma_output_args_defined(instrs, i, p);
    lemma_lvn_is_kept_instructions(instrs);
    lemma_kept_positions(instrs, n);
    if instrs[j].dest == Some(a) {
        if exists|i2: int| 0 <= i2 < i && #[trigger] out[i2].dest == Some(a) {
            let i2 = choose|i2: int| 0 <= i2 < i && #[trigger] out[i2].dest == Some(a);
            let j2 = choose|j2: int|
                0 <= j2 < n && kept(instrs, j2) && kept_prefix(instrs, j2).len() == i2
                    && kept_prefix(instrs, n)[i2] == emitted(instrs, j2);
            assert(instrs[j2].dest == Some(a));
            assert(j2 != j);
            if j < j2 {
                assert(instrs[j].dest != instrs[j2].dest);
            } else {
                assert(instrs[j2].dest != instrs[j].dest);
            }
        } else {
            let k = choose|k: int|
                0 <= k < n && out[i] == emitted(instrs, k) && a == instrs[k].args[p] && last_def(
                    instrs,
                    a,
                    k,
                ) is None;
            assert(p < instrs[k].args.len());
            assert(last_def(instrs, instrs[k].args[p], k) is Some);
        }
    }
}

} // verus!
