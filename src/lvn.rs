//! Local value numbering with dead-code elimination, one block at a time.
use vstd::prelude::*;
use crate::cfg::{
    cfg_blocks, cfg_succs, concat, construct_control_flow_graph, has_undefined_target,
    is_partition, undefined_target, Block, ControlFlowGraph,
};
use crate::ir::{clone_string_opt, Function, Program, instrs_view, opt_str, strs, InstrV, Instruction, IrError};

verus! {

/// A value expression: an operation on value numbers, a literal constant, or
/// the incoming value of a variable that the block reads before it assigns it.
pub enum Expr {
    Op(Seq<char>, Seq<nat>),
    Const(i64),
    Opaque(Seq<char>),
}

pub open spec fn const_op() -> Seq<char> {
    "const"@
}

/// The instruction needs no opcode or value that it lacks.
pub open spec fn instr_ok(i: InstrV) -> bool {
    i.dest is Some ==> (i.op is Some && (i.op == Some(const_op()) ==> i.value is Some))
}

pub open spec fn block_ok(instrs: Seq<InstrV>) -> bool {
    forall|j: int| 0 <= j < instrs.len() ==> instr_ok(#[trigger] instrs[j])
}

/// The error that a malformed instruction is reported with.
pub open spec fn error_of(i: InstrV) -> IrError {
    if i.op is None {
        IrError::MissingOp
    } else {
        IrError::MissingValue
    }
}

/// The first index of `e` in `t`.
pub open spec fn find(t: Seq<Expr>, e: Expr) -> Option<nat>
    decreases t.len(),
{
    if t.len() == 0 {
        None
    } else {
        match find(t.drop_last(), e) {
            Some(i) => Some(i),
            None => if t.last() == e {
                Some((t.len() - 1) as nat)
            } else {
                None
            },
        }
    }
}

/// The table after looking `e` up, adding it if new, and its number.
pub open spec fn canon(t: Seq<Expr>, e: Expr) -> (Seq<Expr>, nat) {
    match find(t, e) {
        Some(i) => (t, i),
        None => (t.push(e), t.len()),
    }
}

/// The last instruction before `k` that assigns `x`.
pub open spec fn last_def(instrs: Seq<InstrV>, x: Seq<char>, k: int) -> Option<int>
    decreases k,
{
    if k <= 0 {
        None
    } else if instrs[k - 1].dest == Some(x) {
        Some(k - 1)
    } else {
        last_def(instrs, x, k - 1)
    }
}

/// The state of numbering after a prefix of the block: the table of
/// expressions (a value number is an index into it), the number given to
/// each instruction with a destination, and the numbers of each instruction's
/// arguments.
#[verifier::ext_equal]
pub struct Numbering {
    pub table: Seq<Expr>,
    pub nums: Seq<Option<nat>>,
    pub args: Seq<Seq<nat>>,
}

/// The number of variable `x` as read at instruction `k`: that of its last
/// assignment in the block, else the opaque number of `x`.
pub open spec fn resolve(instrs: Seq<InstrV>, nums: Seq<Option<nat>>, t: Seq<Expr>, k: int, x: Seq<char>) -> (Seq<Expr>, nat) {
    match last_def(instrs, x, k) {
        Some(j) => match nums[j] {
            Some(n) => (t, n),
            None => canon(t, Expr::Opaque(x)),
        },
        None => canon(t, Expr::Opaque(x)),
    }
}

pub open spec fn resolve_args(instrs: Seq<InstrV>, nums: Seq<Option<nat>>, t: Seq<Expr>, k: int, xs: Seq<Seq<char>>) -> (Seq<Expr>, Seq<nat>)
    decreases xs.len(),
{
    if xs.len() == 0 {
        (t, Seq::empty())
    } else {
        let r = resolve_args(instrs, nums, t, k, xs.drop_last());
        let q = resolve(instrs, nums, r.0, k, xs.last());
        (q.0, r.1.push(q.1))
    }
}

pub open spec fn number_step(instrs: Seq<InstrV>, s: Numbering, k: int) -> Numbering {
    let i = instrs[k];
    if i.dest is Some {
        if i.op == Some(const_op()) {
            let c = canon(s.table, Expr::Const(i.value->Some_0));
            Numbering { table: c.0, nums: s.nums.push(Some(c.1)), args: s.args.push(Seq::empty()) }
        } else {
            let r = resolve_args(instrs, s.nums, s.table, k, i.args);
            let c = canon(r.0, Expr::Op(i.op->Some_0, r.1));
            Numbering { table: c.0, nums: s.nums.push(Some(c.1)), args: s.args.push(r.1) }
        }
    } else {
        let r = resolve_args(instrs, s.nums, s.table, k, i.args);
        Numbering { table: r.0, nums: s.nums.push(None), args: s.args.push(r.1) }
    }
}

/// Numbering of the first `k` instructions.
pub open spec fn number_upto(instrs: Seq<InstrV>, k: int) -> Numbering
    decreases k,
{
    if k <= 0 {
        Numbering { table: Seq::empty(), nums: Seq::empty(), args: Seq::empty() }
    } else {
        number_step(instrs, number_upto(instrs, k - 1), k - 1)
    }
}

pub open spec fn numbering(instrs: Seq<InstrV>) -> Numbering {
    number_upto(instrs, instrs.len() as int)
}

pub open spec fn mark_all(u: Seq<bool>, a: Seq<nat>) -> Seq<bool>
    decreases a.len(),
{
    if a.len() == 0 {
        u
    } else {
        mark_all(u, a.drop_last()).update(a.last() as int, true)
    }
}

/// The numbers read by the first `j` instructions without a destination.
pub open spec fn mark_roots(nv: Numbering, j: int) -> Seq<bool>
    decreases j,
{
    if j <= 0 {
        Seq::new(nv.table.len(), |_i: int| false)
    } else {
        let u = mark_roots(nv, j - 1);
        if nv.nums[j - 1] is None {
            mark_all(u, nv.args[j - 1])
        } else {
            u
        }
    }
}

pub open spec fn expr_deps(e: Expr) -> Seq<nat> {
    match e {
        Expr::Op(_, a) => a,
        _ => Seq::empty(),
    }
}

/// `u` closed downwards from number `k` on: each marked number at or above
/// `k` has marked its arguments.
pub open spec fn sweep(t: Seq<Expr>, u: Seq<bool>, k: int) -> Seq<bool>
    decreases t.len() - k,
{
    if k >= t.len() {
        u
    } else {
        let s = sweep(t, u, k + 1);
        if s[k] {
            mark_all(s, expr_deps(t[k]))
        } else {
            s
        }
    }
}

/// The numbers whose values the block needs.
pub open spec fn live(nv: Numbering) -> Seq<bool> {
    sweep(nv.table, mark_roots(nv, nv.nums.len() as int), 0)
}

/// The state of the rewrite after a prefix: the instructions kept, the name
/// that stands for each number, and the numbers still awaiting a producer.
pub struct Rewrite {
    pub out: Seq<InstrV>,
    pub canon: Seq<Option<Seq<char>>>,
    pub pending: Seq<bool>,
}

pub open spec fn rename(canon: Seq<Option<Seq<char>>>, m: nat, x: Seq<char>) -> Seq<char> {
    if m < canon.len() && canon[m as int] is Some {
        canon[m as int]->Some_0
    } else {
        x
    }
}

pub open spec fn rename_args(canon: Seq<Option<Seq<char>>>, ns: Seq<nat>, xs: Seq<Seq<char>>) -> Seq<Seq<char>> {
    Seq::new(xs.len(), |p: int| if p < ns.len() { rename(canon, ns[p], xs[p]) } else { xs[p] })
}

pub open spec fn with_args(i: InstrV, a: Seq<Seq<char>>) -> InstrV {
    InstrV { args: a, ..i }
}

pub open spec fn rewrite_step(instrs: Seq<InstrV>, nv: Numbering, r: Rewrite, k: int) -> Rewrite {
    let i = instrs[k];
    let renamed = with_args(i, rename_args(r.canon, nv.args[k], i.args));
    match nv.nums[k] {
        Some(n) => if r.pending[n as int] {
            Rewrite {
                out: r.out.push(renamed),
                canon: r.canon.update(n as int, i.dest),
                pending: r.pending.update(n as int, false),
            }
        } else {
            r
        },
        None => Rewrite { out: r.out.push(renamed), ..r },
    }
}

pub open spec fn rewrite_upto(instrs: Seq<InstrV>, nv: Numbering, lv: Seq<bool>, k: int) -> Rewrite
    decreases k,
{
    if k <= 0 {
        Rewrite { out: Seq::empty(), canon: Seq::new(nv.table.len(), |_i: int| None), pending: lv }
    } else {
        rewrite_step(instrs, nv, rewrite_upto(instrs, nv, lv, k - 1), k - 1)
    }
}

/// The block after value numbering and dead-code elimination.
#[verifier::opaque]
pub open spec fn lvn(instrs: Seq<InstrV>) -> Seq<InstrV> {
    let nv = numbering(instrs);
    rewrite_upto(instrs, nv, live(nv), instrs.len() as int).out
}

/// Each operation refers only to numbers below its own.
pub open spec fn acyclic(t: Seq<Expr>) -> bool {
    forall|m: int, p: int|
        0 <= m < t.len() && 0 <= p < expr_deps(t[m]).len() ==> #[trigger] expr_deps(t[m])[p] < m
}

/// `t2` extends `t`.
pub open spec fn grows(t: Seq<Expr>, t2: Seq<Expr>) -> bool {
    t.len() <= t2.len() && forall|i: int| 0 <= i < t.len() ==> #[trigger] t2[i] == t[i]
}

pub open spec fn below(a: Seq<nat>, n: nat) -> bool {
    forall|p: int| 0 <= p < a.len() ==> #[trigger] a[p] < n
}

/// The numbering of `k` instructions refers only to numbers in its table.
pub open spec fn numbering_ok(nv: Numbering, k: int) -> bool {
    &&& nv.nums.len() == k
    &&& nv.args.len() == k
    &&& acyclic(nv.table)
    &&& forall|j: int| 0 <= j < k && (#[trigger] nv.nums[j]) is Some ==> nv.nums[j]->Some_0 < nv.table.len()
    &&& forall|j: int| 0 <= j < k ==> below(#[trigger] nv.args[j], nv.table.len())
}

pub proof fn lemma_find(t: Seq<Expr>, e: Expr)
    ensures
        find(t, e) matches Some(i) ==> i < t.len() && t[i as int] == e,
        find(t, e) is None ==> forall|i: int| 0 <= i < t.len() ==> t[i] != e,
    decreases t.len(),
{
    if t.len() > 0 {
        lemma_find(t.drop_last(), e);
        if find(t.drop_last(), e) is None {
            assert forall|i: int| 0 <= i < t.len() - 1 implies t[i] != e by {
                assert(t[i] == t.drop_last()[i]);
            }
        }
    }
}

pub proof fn lemma_find_extend(t: Seq<Expr>, e: Expr, j: int)
    requires
        0 <= j <= t.len(),
        find(t.subrange(0, j), e) is Some,
    ensures
        find(t, e) == find(t.subrange(0, j), e),
    decreases t.len(),
{
    if j == t.len() {
        assert(t.subrange(0, j) =~= t);
    } else {
        assert(t.drop_last().subrange(0, j) =~= t.subrange(0, j));
        lemma_find_extend(t.drop_last(), e, j);
    }
}

pub proof fn lemma_canon(t: Seq<Expr>, e: Expr)
    requires
        acyclic(t),
        below(expr_deps(e), t.len()),
    ensures
        acyclic(canon(t, e).0),
        grows(t, canon(t, e).0),
        canon(t, e).1 < canon(t, e).0.len(),
        canon(t, e).0[canon(t, e).1 as int] == e,
{
    lemma_find(t, e);
    let t2 = canon(t, e).0;
    if find(t, e) is None {
        assert forall|m: int, p: int|
            0 <= m < t2.len() && 0 <= p < expr_deps(t2[m]).len() implies #[trigger] expr_deps(
            t2[m],
        )[p] < m by {
            if m < t.len() {
                assert(t2[m] == t[m]);
            }
        }
    }
}

pub proof fn lemma_resolve_args(instrs: Seq<InstrV>, nv: Numbering, t: Seq<Expr>, k: int, xs: Seq<Seq<char>>)
    requires
        numbering_ok(nv, k),
        acyclic(t),
        grows(nv.table, t),
    ensures
        acyclic(resolve_args(instrs, nv.nums, t, k, xs).0),
        grows(t, resolve_args(instrs, nv.nums, t, k, xs).0),
        resolve_args(instrs, nv.nums, t, k, xs).1.len() == xs.len(),
        below(resolve_args(instrs, nv.nums, t, k, xs).1, resolve_args(instrs, nv.nums, t, k, xs).0.len()),
    decreases xs.len(),
{
    if xs.len() > 0 {
        lemma_resolve_args(instrs, nv, t, k, xs.drop_last());
        let r = resolve_args(instrs, nv.nums, t, k, xs.drop_last());
        lemma_last_def(instrs, xs.last(), k);
        lemma_canon(r.0, Expr::Opaque(xs.last()));
        let q = resolve(instrs, nv.nums, r.0, k, xs.last());
        let ns = r.1.push(q.1);
        assert forall|p: int| 0 <= p < ns.len() implies #[trigger] ns[p] < q.0.len() by {
            if p < r.1.len() {
                assert(ns[p] == r.1[p]);
            }
        }
    }
}

pub proof fn lemma_last_def(instrs: Seq<InstrV>, x: Seq<char>, k: int)
    ensures
        last_def(instrs, x, k) matches Some(j) ==> 0 <= j < k && instrs[j].dest == Some(x),
    decreases k,
{
    if k > 0 {
        lemma_last_def(instrs, x, k - 1);
    }
}

/// Numbering keeps every number it records inside its table.
pub proof fn lemma_number_ok(instrs: Seq<InstrV>, k: int)
    requires
        0 <= k <= instrs.len(),
    ensures
        numbering_ok(number_upto(instrs, k), k),
    decreases k,
{
    if k > 0 {
        lemma_number_ok(instrs, k - 1);
        let s = number_upto(instrs, k - 1);
        let i = instrs[k - 1];
        let s2 = number_upto(instrs, k);
        assert(grows(s.table, s.table));
        lemma_resolve_args(instrs, s, s.table, k - 1, i.args);
        let r = resolve_args(instrs, s.nums, s.table, k - 1, i.args);
        if i.dest is Some {
            if i.op == Some(const_op()) {
                lemma_canon(s.table, Expr::Const(i.value->Some_0));
            } else {
                lemma_canon(r.0, Expr::Op(i.op->Some_0, r.1));
            }
        }
        assert(grows(s.table, s2.table));
        assert forall|j: int| 0 <= j < k && (#[trigger] s2.nums[j]) is Some implies s2.nums[j]->Some_0 < s2.table.len() by {
            if j < k - 1 {
                assert(s2.nums[j] == s.nums[j]);
            }
        }
        assert forall|j: int| 0 <= j < k implies below(#[trigger] s2.args[j], s2.table.len()) by {
            if j < k - 1 {
                assert(s2.args[j] == s.args[j]);
                assert(below(s.args[j], s.table.len()));
            }
        }
    }
}

/// A value expression as the pass stores it.
pub enum Expression {
    Op(String, Vec<usize>),
    Const(i64),
    Opaque(String),
}

pub open spec fn nats(v: Seq<usize>) -> Seq<nat> {
    v.map_values(|x: usize| x as nat)
}

pub open spec fn opt_nats(v: Seq<Option<usize>>) -> Seq<Option<nat>> {
    v.map_values(|o: Option<usize>| match o {
        Some(x) => Some(x as nat),
        None => None,
    })
}

pub open spec fn nat_seqs(v: Seq<Vec<usize>>) -> Seq<Seq<nat>> {
    v.map_values(|a: Vec<usize>| nats(a@))
}

impl View for Expression {
    type V = Expr;

    open spec fn view(&self) -> Expr {
        match self {
            Expression::Op(o, a) => Expr::Op(o@, nats(a@)),
            Expression::Const(c) => Expr::Const(*c),
            Expression::Opaque(x) => Expr::Opaque(x@),
        }
    }
}

pub open spec fn exprs(t: Seq<Expression>) -> Seq<Expr> {
    t.map_values(|e: Expression| e@)
}

fn copy_nums(a: &Vec<usize>) -> (r: Vec<usize>)
    ensures
        r@ == a@,
{
    let mut r: Vec<usize> = Vec::new();
    let mut i: usize = 0;
    while i < a.len()
        invariant
            i <= a@.len(),
            r@ == a@.subrange(0, i as int),
        decreases a@.len() - i,
    {
        r.push(a[i]);
        i += 1;
        assert(r@ =~= a@.subrange(0, i as int));
    }
    assert(a@.subrange(0, i as int) =~= a@);
    r
}

fn same_nums(a: &Vec<usize>, b: &Vec<usize>) -> (r: bool)
    ensures
        r == (nats(a@) == nats(b@)),
{
    if a.len() != b.len() {
        assert(nats(a@).len() != nats(b@).len());
        return false;
    }
    let mut i: usize = 0;
    while i < a.len()
        invariant
            a@.len() == b@.len(),
            i <= a@.len(),
            forall|j: int| 0 <= j < i ==> a@[j] == b@[j],
        decreases a@.len() - i,
    {
        if a[i] != b[i] {
            assert(nats(a@)[i as int] != nats(b@)[i as int]);
            return false;
        }
        i += 1;
    }
    assert(nats(a@) =~= nats(b@));
    true
}

fn same_expr(a: &Expression, b: &Expression) -> (r: bool)
    ensures
        r == (a@ == b@),
{
    match (a, b) {
        (Expression::Op(o1, a1), Expression::Op(o2, a2)) => *o1 == *o2 && same_nums(a1, a2),
        (Expression::Const(c1), Expression::Const(c2)) => *c1 == *c2,
        (Expression::Opaque(x1), Expression::Opaque(x2)) => *x1 == *x2,
        _ => false,
    }
}

fn find_expr(t: &Vec<Expression>, e: &Expression) -> (r: Option<usize>)
    ensures
        r matches Some(i) ==> find(exprs(t@), e@) == Some(i as nat),
        r is None ==> find(exprs(t@), e@) is None,
{
    let ghost tv = exprs(t@);
    let mut i: usize = 0;
    while i < t.len()
        invariant
            tv == exprs(t@),
            i <= t@.len(),
            find(tv.subrange(0, i as int), e@) is None,
        decreases t@.len() - i,
    {
        assert(tv.subrange(0, i + 1).drop_last() =~= tv.subrange(0, i as int));
        if same_expr(&t[i], e) {
            proof {
                lemma_find_extend(tv, e@, i + 1);
            }
            return Some(i);
        }
        i += 1;
    }
    assert(tv.subrange(0, i as int) =~= tv);
    None
}

fn canonicalize(t: &mut Vec<Expression>, e: Expression) -> (r: usize)
    ensures
        exprs(final(t)@) == canon(exprs(old(t)@), e@).0,
        r as nat == canon(exprs(old(t)@), e@).1,
{
    match find_expr(t, &e) {
        Some(i) => i,
        None => {
            let n = t.len();
            let ghost ev = e@;
            t.push(e);
            assert(exprs(final(t)@) =~= exprs(old(t)@).push(ev));
            n
        },
    }
}

fn find_last_def(instrs: &Vec<Instruction>, x: &String, k: usize) -> (r: Option<usize>)
    requires
        k <= instrs@.len(),
    ensures
        r matches Some(j) ==> last_def(instrs_view(instrs@), x@, k as int) == Some(j as int),
        r is None ==> last_def(instrs_view(instrs@), x@, k as int) is None,
{
    let ghost iv = instrs_view(instrs@);
    let mut j: usize = k;
    while j > 0
        invariant
            j <= k <= instrs@.len(),
            iv == instrs_view(instrs@),
            last_def(iv, x@, k as int) == last_def(iv, x@, j as int),
        decreases j,
    {
        assert(iv[j - 1] == instrs@[j - 1]@);
        match &instrs[j - 1].dest {
            Some(d) => {
                if *d == *x {
                    return Some(j - 1);
                }
            },
            None => {},
        }
        j -= 1;
    }
    None
}

fn resolve_var(
    instrs: &Vec<Instruction>,
    nums: &Vec<Option<usize>>,
    t: &mut Vec<Expression>,
    k: usize,
    x: &String,
) -> (r: usize)
    requires
        k <= instrs@.len(),
        nums@.len() == k,
    ensures
        (exprs(final(t)@), r as nat) == resolve(
            instrs_view(instrs@),
            opt_nats(nums@),
            exprs(old(t)@),
            k as int,
            x@,
        ),
{
    proof {
        lemma_last_def(instrs_view(instrs@), x@, k as int);
    }
    match find_last_def(instrs, x, k) {
        Some(j) => {
            match nums[j] {
                Some(n) => {
                    return n;
                },
                None => {},
            }
        },
        None => {},
    }
    canonicalize(t, Expression::Opaque(x.clone()))
}

fn resolve_all(
    instrs: &Vec<Instruction>,
    nums: &Vec<Option<usize>>,
    t: &mut Vec<Expression>,
    k: usize,
    xs: &Vec<String>,
) -> (r: Vec<usize>)
    requires
        k <= instrs@.len(),
        nums@.len() == k,
    ensures
        (exprs(final(t)@), nats(r@)) == resolve_args(
            instrs_view(instrs@),
            opt_nats(nums@),
            exprs(old(t)@),
            k as int,
            strs(xs@),
        ),
{
    let ghost t0 = exprs(t@);
    let ghost xv = strs(xs@);
    let mut r: Vec<usize> = Vec::new();
    let mut p: usize = 0;
    while p < xs.len()
        invariant
            k <= instrs@.len(),
            nums@.len() == k,
            xv == strs(xs@),
            p <= xs@.len(),
            (exprs(t@), nats(r@)) == resolve_args(
                instrs_view(instrs@),
                opt_nats(nums@),
                t0,
                k as int,
                xv.subrange(0, p as int),
            ),
        decreases xs@.len() - p,
    {
        let n = resolve_var(instrs, nums, t, k, &xs[p]);
        let ghost r0 = r@;
        r.push(n);
        proof {
            assert(xv.subrange(0, p + 1).drop_last() =~= xv.subrange(0, p as int));
            assert(xv.subrange(0, p + 1).last() == xs@[p as int]@);
            assert(nats(r@) =~= nats(r0).push(n as nat));
        }
        p += 1;
    }
    assert(xv.subrange(0, p as int) =~= xv);
    r
}

/// The state of numbering after a prefix, held as vectors.
pub open spec fn numbering_of(t: Seq<Expression>, nums: Seq<Option<usize>>, args: Seq<Vec<usize>>) -> Numbering {
    Numbering { table: exprs(t), nums: opt_nats(nums), args: nat_seqs(args) }
}

/// Pass one: a value number for every instruction with a destination and for
/// every argument.
fn number_block(instrs: &Vec<Instruction>) -> (r: (Vec<Expression>, Vec<Option<usize>>, Vec<Vec<usize>>))
    requires
        block_ok(instrs_view(instrs@)),
    ensures
        numbering_of(r.0@, r.1@, r.2@) == numbering(instrs_view(instrs@)),
{
    let ghost iv = instrs_view(instrs@);
    let const_name = String::from_str("const");
    proof {
        reveal_strlit("const");
    }
    let mut t: Vec<Expression> = Vec::new();
    let mut nums: Vec<Option<usize>> = Vec::new();
    let mut argss: Vec<Vec<usize>> = Vec::new();
    let mut k: usize = 0;
    assert(numbering_of(t@, nums@, argss@) =~= number_upto(iv, 0));
    while k < instrs.len()
        invariant
            iv == instrs_view(instrs@),
            block_ok(iv),
            const_name@ == const_op(),
            k <= instrs@.len(),
            numbering_of(t@, nums@, argss@) == number_upto(iv, k as int),
        decreases instrs@.len() - k,
    {
        proof {
            lemma_number_ok(iv, k as int);
        }
        let ins = &instrs[k];
        assert(iv[k as int] == ins@);
        assert(instr_ok(iv[k as int]));
        let ghost s = number_upto(iv, k as int);
        let ghost n0 = nums@;
        let ghost a0 = argss@;
        match &ins.dest {
            Some(_) => {
                let op = match &ins.op {
                    Some(o) => o,
                    None => {
                        return (t, nums, argss);
                    },
                };
                if *op == const_name {
                    let v = match ins.value {
                        Some(v) => v,
                        None => {
                            return (t, nums, argss);
                        },
                    };
                    let n = canonicalize(&mut t, Expression::Const(v));
                    nums.push(Some(n));
                    let none: Vec<usize> = Vec::new();
                    assert(nats(none@) =~= Seq::<nat>::empty());
                    argss.push(none);
                    proof {
                        assert(opt_nats(nums@) =~= opt_nats(n0).push(Some(n as nat)));
                        assert(nat_seqs(argss@) =~= nat_seqs(a0).push(Seq::empty()));
                    }
                } else {
                    let a = resolve_all(instrs, &nums, &mut t, k, &ins.args);
                    let n = canonicalize(&mut t, Expression::Op(op.clone(), copy_nums(&a)));
                    nums.push(Some(n));
                    argss.push(a);
                    proof {
                        assert(opt_nats(nums@) =~= opt_nats(n0).push(Some(n as nat)));
                        assert(nat_seqs(argss@) =~= nat_seqs(a0).push(nats(a@)));
                    }
                }
            },
            None => {
                let a = resolve_all(instrs, &nums, &mut t, k, &ins.args);
                nums.push(None);
                argss.push(a);
                proof {
                    assert(opt_nats(nums@) =~= opt_nats(n0).push(None));
                    assert(nat_seqs(argss@) =~= nat_seqs(a0).push(nats(a@)));
                }
            },
        }
        k += 1;
        assert(numbering_of(t@, nums@, argss@) =~= number_upto(iv, k as int));
    }
    (t, nums, argss)
}

pub proof fn lemma_mark_all_len(u: Seq<bool>, a: Seq<nat>)
    requires
        below(a, u.len()),
    ensures
        mark_all(u, a).len() == u.len(),
    decreases a.len(),
{
    if a.len() > 0 {
        assert(below(a.drop_last(), u.len())) by {
            assert forall|p: int| 0 <= p < a.drop_last().len() implies #[trigger] a.drop_last()[p] < u.len() by {
                assert(a.drop_last()[p] == a[p]);
            }
        }
        lemma_mark_all_len(u, a.drop_last());
    }
}

/// Marks every number of `a`.
fn mark_nums(u: &mut Vec<bool>, a: &Vec<usize>)
    requires
        forall|p: int| 0 <= p < a@.len() ==> (#[trigger] a@[p]) < old(u)@.len(),
    ensures
        final(u)@ == mark_all(old(u)@, nats(a@)),
{
    let ghost u0 = u@;
    let ghost av = nats(a@);
    let mut p: usize = 0;
    while p < a.len()
        invariant
            av == nats(a@),
            p <= a@.len(),
            u@.len() == u0.len(),
            forall|q: int| 0 <= q < a@.len() ==> (#[trigger] a@[q]) < u0.len(),
            u@ == mark_all(u0, av.subrange(0, p as int)),
        decreases a@.len() - p,
    {
        assert(av.subrange(0, p + 1).drop_last() =~= av.subrange(0, p as int));
        u.set(a[p], true);
        p += 1;
    }
    assert(av.subrange(0, p as int) =~= av);
}

pub proof fn lemma_mark_roots_len(nv: Numbering, j: int)
    requires
        numbering_ok(nv, nv.nums.len() as int),
        j <= nv.nums.len(),
    ensures
        mark_roots(nv, j).len() == nv.table.len(),
    decreases j,
{
    if j > 0 {
        lemma_mark_roots_len(nv, j - 1);
        if nv.nums[j - 1] is None {
            assert(below(nv.args[j - 1], nv.table.len()));
            lemma_mark_all_len(mark_roots(nv, j - 1), nv.args[j - 1]);
        }
    }
}

pub proof fn lemma_sweep_len(t: Seq<Expr>, u: Seq<bool>, k: int)
    requires
        acyclic(t),
        u.len() == t.len(),
        0 <= k,
    ensures
        sweep(t, u, k).len() == u.len(),
    decreases t.len() - k,
{
    if k < t.len() {
        lemma_sweep_len(t, u, k + 1);
        assert(below(expr_deps(t[k]), u.len())) by {
            assert forall|p: int| 0 <= p < expr_deps(t[k]).len() implies #[trigger] expr_deps(t[k])[p] < u.len() by {
                assert(expr_deps(t[k])[p] < k);
            }
        }
        lemma_mark_all_len(sweep(t, u, k + 1), expr_deps(t[k]));
    }
}

/// Pass two: the numbers whose values the block needs.
fn live_numbers(t: &Vec<Expression>, nums: &Vec<Option<usize>>, argss: &Vec<Vec<usize>>) -> (r: Vec<bool>)
    requires
        numbering_ok(numbering_of(t@, nums@, argss@), nums@.len() as int),
    ensures
        r@ == live(numbering_of(t@, nums@, argss@)),
{
    let ghost nv = numbering_of(t@, nums@, argss@);
    let mut u: Vec<bool> = Vec::new();
    let mut i: usize = 0;
    while i < t.len()
        invariant
            i <= t@.len(),
            u@.len() == i,
            forall|q: int| 0 <= q < i ==> !(#[trigger] u@[q]),
        decreases t@.len() - i,
    {
        u.push(false);
        i += 1;
    }
    assert(u@ =~= mark_roots(nv, 0));
    let mut j: usize = 0;
    while j < nums.len()
        invariant
            nv == numbering_of(t@, nums@, argss@),
            numbering_ok(nv, nums@.len() as int),
            j <= nums@.len(),
            u@ == mark_roots(nv, j as int),
        decreases nums@.len() - j,
    {
        proof {
            lemma_mark_roots_len(nv, j as int);
        }
        assert(nv.nums[j as int] == opt_nats(nums@)[j as int]);
        if nums[j].is_none() {
            let a = &argss[j];
            assert(nv.args[j as int] == nats(a@));
            assert(below(nv.args[j as int], nv.table.len()));
            assert forall|p: int| 0 <= p < a@.len() implies (#[trigger] a@[p]) < u@.len() by {
                assert(nats(a@)[p] == a@[p] as nat);
            }
            mark_nums(&mut u, a);
        }
        j += 1;
    }
    proof {
        lemma_mark_roots_len(nv, j as int);
    }
    let ghost u0 = u@;
    let mut k: usize = t.len();
    while k > 0
        invariant
            nv == numbering_of(t@, nums@, argss@),
            acyclic(nv.table),
            k <= t@.len(),
            u0.len() == t@.len(),
            u@ == sweep(nv.table, u0, k as int),
        decreases k,
    {
        proof {
            lemma_sweep_len(nv.table, u0, k as int);
        }
        let ghost s = u@;
        if u[k - 1] {
            match &t[k - 1] {
                Expression::Op(_, a) => {
                    assert(nv.table[k - 1] == t@[k - 1]@);
                    assert(expr_deps(nv.table[k - 1]) == nats(a@));
                    assert forall|p: int| 0 <= p < a@.len() implies (#[trigger] a@[p]) < u@.len() by {
                        assert(nats(a@)[p] == a@[p] as nat);
                        assert(expr_deps(nv.table[k - 1])[p] < k - 1);
                    }
                    mark_nums(&mut u, a);
                },
                _ => {
                    assert(nv.table[k - 1] == t@[k - 1]@);
                    assert(mark_all(s, expr_deps(nv.table[k - 1])) == s);
                },
            }
        }
        k -= 1;
    }
    u
}

pub open spec fn opt_strs(v: Seq<Option<String>>) -> Seq<Option<Seq<char>>> {
    v.map_values(|o: Option<String>| opt_str(o))
}

/// A copy of `ins` whose arguments name the canonical variables.
fn renamed(ins: &Instruction, canon: &Vec<Option<String>>, ns: &Vec<usize>) -> (r: Instruction)
    ensures
        r@ == with_args(ins@, rename_args(opt_strs(canon@), nats(ns@), ins@.args)),
{
    let ghost want = rename_args(opt_strs(canon@), nats(ns@), ins@.args);
    let mut args: Vec<String> = Vec::new();
    let mut p: usize = 0;
    while p < ins.args.len()
        invariant
            want == rename_args(opt_strs(canon@), nats(ns@), ins@.args),
            p <= ins.args@.len(),
            args@.len() == p,
            forall|q: int| 0 <= q < p ==> (#[trigger] args@[q])@ == want[q],
        decreases ins.args@.len() - p,
    {
        let mut name = ins.args[p].clone();
        if p < ns.len() && ns[p] < canon.len() {
            match &canon[ns[p]] {
                Some(c) => {
                    name = c.clone();
                },
                None => {},
            }
        }
        proof {
            if p < ns@.len() {
                assert(nats(ns@)[p as int] == ns@[p as int] as nat);
                if (ns@[p as int] as int) < canon@.len() {
                    assert(opt_strs(canon@)[ns@[p as int] as int] == opt_str(canon@[ns@[p as int] as int]));
                }
            }
        }
        args.push(name);
        p += 1;
    }
    let r = Instruction {
        op: clone_string_opt(&ins.op),
        dest: clone_string_opt(&ins.dest),
        value: ins.value,
        type_: clone_string_opt(&ins.type_),
        args,
        labels: crate::ir::clone_strings(&ins.labels),
        label: clone_string_opt(&ins.label),
    };
    assert(r@.args =~= want);
    r
}

/// Pass three: keeps the first producer of each needed number and every
/// instruction without a destination, with arguments renamed.
fn rewrite_block(
    instrs: &Vec<Instruction>,
    nums: &Vec<Option<usize>>,
    argss: &Vec<Vec<usize>>,
    t: &Vec<Expression>,
    lv: Vec<bool>,
) -> (r: Vec<Instruction>)
    requires
        nums@.len() == instrs@.len(),
        argss@.len() == instrs@.len(),
        lv@.len() == t@.len(),
        forall|j: int|
            0 <= j < nums@.len() && (#[trigger] nums@[j]) is Some ==> nums@[j]->Some_0 < t@.len(),
    ensures
        instrs_view(r@) == rewrite_upto(
            instrs_view(instrs@),
            numbering_of(t@, nums@, argss@),
            lv@,
            instrs@.len() as int,
        ).out,
{
    let ghost iv = instrs_view(instrs@);
    let ghost nv = numbering_of(t@, nums@, argss@);
    let table_len = t.len();
    let mut canon: Vec<Option<String>> = Vec::new();
    let mut i: usize = 0;
    while i < table_len
        invariant
            i <= table_len,
            canon@.len() == i,
            forall|q: int| 0 <= q < i ==> (#[trigger] canon@[q]) is None,
        decreases table_len - i,
    {
        canon.push(None);
        i += 1;
    }
    let mut pending = lv;
    let mut out: Vec<Instruction> = Vec::new();
    assert(nv.table.len() == table_len);
    assert(opt_strs(canon@) =~= Seq::new(nv.table.len(), |_i: int| None::<Seq<char>>));
    let mut k: usize = 0;
    while k < instrs.len()
        invariant
            iv == instrs_view(instrs@),
            nv == numbering_of(t@, nums@, argss@),
            table_len == t@.len(),
            nums@.len() == instrs@.len(),
            argss@.len() == instrs@.len(),
            forall|j: int|
                0 <= j < nums@.len() && (#[trigger] nums@[j]) is Some ==> nums@[j]->Some_0 < table_len,
            k <= instrs@.len(),
            canon@.len() == table_len,
            pending@.len() == table_len,
            ({
                let st = rewrite_upto(iv, nv, lv@, k as int);
                &&& instrs_view(out@) == st.out
                &&& opt_strs(canon@) == st.canon
                &&& pending@ == st.pending
            }),
        decreases instrs@.len() - k,
    {
        let ins = &instrs[k];
        assert(iv[k as int] == ins@);
        assert(nv.nums[k as int] == opt_nats(nums@)[k as int]);
        assert(nv.args[k as int] == nats(argss@[k as int]@));
        let ghost o0 = out@;
        let ghost c0 = canon@;
        match nums[k] {
            Some(n) => {
                if pending[n] {
                    let ni = renamed(ins, &canon, &argss[k]);
                    out.push(ni);
                    canon.set(n, clone_string_opt(&ins.dest));
                    pending.set(n, false);
                    proof {
                        assert(instrs_view(out@) =~= instrs_view(o0).push(ni@));
                        assert(opt_strs(canon@) =~= opt_strs(c0).update(n as int, ins@.dest));
                    }
                }
            },
            None => {
                let ni = renamed(ins, &canon, &argss[k]);
                out.push(ni);
                proof {
                    assert(instrs_view(out@) =~= instrs_view(o0).push(ni@));
                }
            },
        }
        k += 1;
    }
    out
}

/// Rewrites `block` in place by local value numbering and dead-code
/// elimination; a malformed instruction leaves it unchanged and is reported.
pub fn run_local_value_numbering(block: &mut Block) -> (r: Result<(), IrError>)
    ensures
        final(block).next_blocks@ == old(block).next_blocks@,
        r is Ok <==> block_ok(instrs_view(old(block).instrs@)),
        r is Ok ==> instrs_view(final(block).instrs@) == lvn(instrs_view(old(block).instrs@)),
        r matches Err(e) ==> {
            &&& final(block).instrs@ == old(block).instrs@
            &&& exists|j: int|
                0 <= j < old(block).instrs@.len() && !instr_ok(instrs_view(old(block).instrs@)[j])
                    && e == error_of(instrs_view(old(block).instrs@)[j])
        },
{
    let ghost iv = instrs_view(block.instrs@);
    let const_name = String::from_str("const");
    proof {
        reveal_strlit("const");
    }
    let mut j: usize = 0;
    while j < block.instrs.len()
        invariant
            iv == instrs_view(block.instrs@),
            const_name@ == const_op(),
            j <= block.instrs@.len(),
            forall|q: int| 0 <= q < j ==> instr_ok(#[trigger] iv[q]),
        decreases block.instrs@.len() - j,
    {
        let ins = &block.instrs[j];
        assert(iv[j as int] == ins@);
        if ins.dest.is_some() {
            match &ins.op {
                None => {
                    return Err(IrError::MissingOp);
                },
                Some(op) => {
                    if *op == const_name && ins.value.is_none() {
                        return Err(IrError::MissingValue);
                    }
                },
            }
        }
        j += 1;
    }
    let (t, nums, argss) = number_block(&block.instrs);
    proof {
        lemma_number_ok(iv, iv.len() as int);
    }
    let lv = live_numbers(&t, &nums, &argss);
    proof {
        let nv = numbering_of(t@, nums@, argss@);
        assert forall|j: int|
            0 <= j < nums@.len() && (#[trigger] nums@[j]) is Some implies nums@[j]->Some_0 < t@.len() by {
            assert(nv.nums[j] == opt_nats(nums@)[j]);
        }
        lemma_live_len(nv);
    }
    let out = rewrite_block(&block.instrs, &nums, &argss, &t, lv);
    block.instrs = out;
    proof {
        reveal(lvn);
    }
    Ok(())
}

pub proof fn lemma_live_len(nv: Numbering)
    requires
        numbering_ok(nv, nv.nums.len() as int),
    ensures
        live(nv).len() == nv.table.len(),
{
    lemma_mark_roots_len(nv, nv.nums.len() as int);
    lemma_sweep_len(nv.table, mark_roots(nv, nv.nums.len() as int), 0);
}

/// Some instruction of some block is malformed, and `e` is its error.
pub open spec fn malformed_in(bs: Seq<Seq<InstrV>>, e: IrError) -> bool {
    exists|k: int, j: int|
        0 <= k < bs.len() && 0 <= j < bs[k].len() && !instr_ok(#[trigger] bs[k][j]) && e
            == error_of(bs[k][j])
}

/// Runs local value numbering on every block.
pub fn eliminate_dead_code(cfg: ControlFlowGraph) -> (r: Result<ControlFlowGraph, IrError>)
    ensures
        r matches Ok(g) ==> {
            &&& g.blocks@.len() == cfg.blocks@.len()
            &&& cfg_succs(g.blocks@) == cfg_succs(cfg.blocks@)
            &&& forall|k: int|
                0 <= k < g.blocks@.len() ==> block_ok(cfg_blocks(cfg.blocks@)[k]) && #[trigger] cfg_blocks(
                    g.blocks@,
                )[k] == lvn(cfg_blocks(cfg.blocks@)[k])
        },
        r matches Err(e) ==> malformed_in(cfg_blocks(cfg.blocks@), e),
{
    let ghost b0 = cfg.blocks@;
    let mut g = cfg;
    let mut rest: Vec<Block> = Vec::new();
    std::mem::swap(&mut rest, &mut g.blocks);
    let mut done: Vec<Block> = Vec::new();
    let n = rest.len();
    while rest.len() > 0
        invariant
            n == b0.len(),
            b0 == cfg.blocks@,
            rest@.len() + done@.len() == n,
            forall|q: int| 0 <= q < rest@.len() ==> #[trigger] rest@[q] == b0[q + done@.len()],
            forall|q: int|
                0 <= q < done@.len() ==> (#[trigger] done@[q]).next_blocks@ == b0[q].next_blocks@,
            forall|q: int| 0 <= q < done@.len() ==> block_ok(#[trigger] cfg_blocks(b0)[q]),
            forall|q: int|
                0 <= q < done@.len() ==> instrs_view((#[trigger] done@[q]).instrs@) == lvn(
                    cfg_blocks(b0)[q],
                ),
        decreases rest@.len(),
    {
        let ghost r0 = rest@;
        let ghost d = done@.len();
        let mut b = rest.remove(0);
        assert(b == b0[d as int]);
        let ghost bo = b;
        let ghost iv = instrs_view(bo.instrs@);
        assert(cfg_blocks(b0)[d as int] == iv);
        let res = run_local_value_numbering(&mut b);
        match res {
            Ok(()) => {},
            Err(e) => {
                proof {
                    let j = choose|j: int|
                        0 <= j < bo.instrs@.len() && !instr_ok(iv[j]) && e == error_of(iv[j]);
                    assert(0 <= j < cfg_blocks(b0)[d as int].len());
                    assert(!instr_ok(cfg_blocks(b0)[d as int][j]) && e == error_of(cfg_blocks(b0)[d as int][j]));
                    assert(malformed_in(cfg_blocks(b0), e));
                }
                return Err(e);
            },
        }
        let ghost dn = done@;
        done.push(b);
        proof {
            assert forall|q: int| 0 <= q < rest@.len() implies #[trigger] rest@[q] == b0[q + done@.len()] by {
                assert(rest@[q] == r0[q + 1]);
            }
            assert forall|q: int| 0 <= q < done@.len() implies (#[trigger] done@[q]).next_blocks@ == b0[q].next_blocks@ by {
                if q < d {
                    assert(done@[q] == dn[q]);
                }
            }
            assert forall|q: int| 0 <= q < done@.len() implies block_ok(#[trigger] cfg_blocks(b0)[q]) by {
                if q == d {
                    assert(cfg_blocks(b0)[q] == iv);
                }
            }
            assert forall|q: int|
                0 <= q < done@.len() implies instrs_view((#[trigger] done@[q]).instrs@) == lvn(
                    cfg_blocks(b0)[q],
                ) by {
                if q < d {
                    assert(done@[q] == dn[q]);
                }
            }
        }
    }
    g.blocks = done;
    proof {
        assert(cfg_succs(g.blocks@) =~= cfg_succs(b0));
        assert forall|k: int| 0 <= k < g.blocks@.len() implies block_ok(cfg_blocks(b0)[k]) && #[trigger] cfg_blocks(
            g.blocks@,
        )[k] == lvn(cfg_blocks(b0)[k]) by {
            assert(cfg_blocks(g.blocks@)[k] == instrs_view(g.blocks@[k].instrs@));
        }
    }
    Ok(g)
}

/// The blocks of a function after value numbering, laid end to end.
pub open spec fn optimized(bs: Seq<Seq<InstrV>>) -> Seq<InstrV> {
    concat(bs.map_values(|b: Seq<InstrV>| lvn(b)))
}

/// `after` is `before` cut into its basic blocks, each block optimized.
pub open spec fn optimizes(before: Seq<InstrV>, after: Seq<InstrV>) -> bool {
    exists|bs: Seq<Seq<InstrV>>|
        {
            &&& is_partition(bs, before)
            &&& !has_undefined_target(bs)
            &&& forall|k: int| 0 <= k < bs.len() ==> block_ok(#[trigger] bs[k])
            &&& after == optimized(bs)
        }
}

/// The blocks of `instrs` show the error `e`.
pub open spec fn fails_with(instrs: Seq<InstrV>, e: IrError) -> bool {
    exists|bs: Seq<Seq<InstrV>>|
        {
            &&& is_partition(bs, instrs)
            &&& match e {
                IrError::UndefinedLabel(l) => exists|k: int| undefined_target(bs, k, l@),
                _ => malformed_in(bs, e),
            }
        }
}

/// Replaces the instructions of `function` by the optimized blocks of its
/// control-flow graph; on malformed IR the function is left as it was.
pub fn optimize_function(function: &mut Function) -> (r: Result<(), IrError>)
    ensures
        final(function).name == old(function).name,
        final(function).args == old(function).args,
        r is Ok ==> optimizes(instrs_view(old(function).instrs@), instrs_view(final(function).instrs@)),
        r matches Err(e) ==> {
            &&& final(function).instrs@ == old(function).instrs@
            &&& fails_with(instrs_view(old(function).instrs@), e)
        },
{
    let g = match construct_control_flow_graph(function) {
        Ok(g) => g,
        Err(e) => {
            return Err(e);
        },
    };
    let ghost bs = cfg_blocks(g.blocks@);
    let g2 = match eliminate_dead_code(g) {
        Ok(g2) => g2,
        Err(e) => {
            proof {
                let k = choose|k: int, j: int|
                    0 <= k < bs.len() && 0 <= j < bs[k].len() && !instr_ok(#[trigger] bs[k][j]) && e
                        == error_of(bs[k][j]);
                let k0 = k.0;
                let j0 = k.1;
                assert(e == error_of(bs[k0][j0]));
                assert(!(e is UndefinedLabel));
            }
            return Err(e);
        },
    };
    let instrs = g2.to_instrs();
    proof {
        assert(cfg_blocks(g2.blocks@) =~= bs.map_values(|b: Seq<InstrV>| lvn(b)));
        assert forall|k: int| 0 <= k < bs.len() implies block_ok(#[trigger] bs[k]) by {
            assert(cfg_blocks(g2.blocks@)[k] == lvn(bs[k]));
        }
    }
    let ghost before = instrs_view(function.instrs@);
    function.instrs = instrs;
    proof {
        assert(is_partition(bs, before));
        assert(instrs_view(function.instrs@) == optimized(bs));
        assert(optimizes(before, instrs_view(function.instrs@)));
    }
    Ok(())
}

/// Optimizes every function of `program`, stopping at the first malformed one.
pub fn optimize_program(program: &mut Program) -> (r: Result<(), IrError>)
    ensures
        r is Ok ==> {
            &&& final(program).functions@.len() == old(program).functions@.len()
            &&& forall|k: int|
                0 <= k < old(program).functions@.len() ==> optimizes(
                    instrs_view(old(program).functions@[k].instrs@),
                    instrs_view((#[trigger] final(program).functions@[k]).instrs@),
                )
            &&& forall|k: int|
                0 <= k < old(program).functions@.len() ==> (#[trigger] final(program).functions@[k]).name
                    == old(program).functions@[k].name && final(program).functions@[k].args
                    == old(program).functions@[k].args
        },
        r matches Err(e) ==> exists|k: int|
            0 <= k < old(program).functions@.len() && fails_with(
                instrs_view((#[trigger] old(program).functions@[k]).instrs@),
                e,
            ),
{
    let ghost f0 = program.functions@;
    let mut rest: Vec<Function> = Vec::new();
    std::mem::swap(&mut rest, &mut program.functions);
    let mut done: Vec<Function> = Vec::new();
    while rest.len() > 0
        invariant
            f0 == old(program).functions@,
            rest@.len() + done@.len() == f0.len(),
            forall|q: int| 0 <= q < rest@.len() ==> #[trigger] rest@[q] == f0[q + done@.len()],
            forall|q: int|
                0 <= q < done@.len() ==> optimizes(
                    instrs_view(f0[q].instrs@),
                    instrs_view((#[trigger] done@[q]).instrs@),
                ),
            forall|q: int|
                0 <= q < done@.len() ==> (#[trigger] done@[q]).name == f0[q].name && done@[q].args
                    == f0[q].args,
        decreases rest@.len(),
    {
        let ghost r0 = rest@;
        let ghost d = done@.len();
        let mut f = rest.remove(0);
        assert(f == f0[d as int]);
        match optimize_function(&mut f) {
            Ok(()) => {},
            Err(e) => {
                assert(fails_with(instrs_view(f0[d as int].instrs@), e));
                return Err(e);
            },
        }
        done.push(f);
        proof {
            assert forall|q: int| 0 <= q < rest@.len() implies #[trigger] rest@[q] == f0[q + done@.len()] by {
                assert(rest@[q] == r0[q + 1]);
            }
        }
    }
    program.functions = done;
    Ok(())
}

} // verus!
