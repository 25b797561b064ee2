//! Splitting a function into basic blocks and computing successor edges.
use vstd::prelude::*;
use crate::ir::{instrs_view, is_return_spec, Function, is_label_spec, is_terminator_spec, InstrV, Instruction, IrError};

verus! {

/// A maximal straight-line run of instructions and the indices of the blocks
/// that control may pass to after it.
#[derive(Debug, Clone, PartialEq, Eq)]
pub struct Block {
    pub instrs: Vec<Instruction>,
    pub next_blocks: Vec<usize>,
}

/// The blocks of one function, in order of first appearance.
#[derive(Debug, Clone, PartialEq, Eq)]
pub struct ControlFlowGraph {
    pub blocks: Vec<Block>,
}

/// The instruction views of each block.
pub open spec fn cfg_blocks(bs: Seq<Block>) -> Seq<Seq<InstrV>> {
    bs.map_values(|b: Block| instrs_view(b.instrs@))
}

/// The successor lists of each block.
pub open spec fn cfg_succs(bs: Seq<Block>) -> Seq<Seq<int>> {
    bs.map_values(|b: Block| b.next_blocks@.map_values(|x: usize| x as int))
}

pub open spec fn vec_blocks(bs: Seq<Vec<Instruction>>) -> Seq<Seq<InstrV>> {
    bs.map_values(|b: Vec<Instruction>| instrs_view(b@))
}

/// The blocks laid end to end.
pub open spec fn concat(bs: Seq<Seq<InstrV>>) -> Seq<InstrV>
    decreases bs.len(),
{
    if bs.len() == 0 {
        Seq::empty()
    } else {
        concat(bs.drop_last()) + bs.last()
    }
}

/// Every block is non-empty; only its first instruction may be a label marker
/// and only its last may be a terminator.
pub open spec fn blocks_shaped(bs: Seq<Seq<InstrV>>) -> bool {
    &&& forall|k: int| 0 <= k < bs.len() ==> #[trigger] bs[k].len() > 0
    &&& forall|k: int, j: int|
        0 <= k < bs.len() && 0 < j < bs[k].len() ==> !is_label_spec(#[trigger] bs[k][j])
    &&& forall|k: int, j: int|
        0 <= k < bs.len() && 0 <= j < bs[k].len() - 1 ==> !is_terminator_spec(
            #[trigger] bs[k][j],
        )
}

/// Blocks are maximal: each one but the last ends in a terminator or is
/// followed by a block that starts with a label marker.
pub open spec fn blocks_maximal(bs: Seq<Seq<InstrV>>) -> bool {
    forall|k: int|
        0 <= k < bs.len() - 1 ==> is_terminator_spec(#[trigger] bs[k].last()) || is_label_spec(
            bs[k + 1][0],
        )
}

/// `bs` is the basic-block partition of `instrs`.
pub open spec fn is_partition(bs: Seq<Seq<InstrV>>, instrs: Seq<InstrV>) -> bool {
    &&& concat(bs) == instrs
    &&& blocks_shaped(bs)
    &&& blocks_maximal(bs)
}

/// The block among the first `n` whose first instruction is the marker of
/// label `l`; the last such block where several are.
pub open spec fn label_block(bs: Seq<Seq<InstrV>>, l: Seq<char>, n: int) -> Option<int>
    decreases n,
{
    if n <= 0 {
        None
    } else if bs[n - 1][0].label == Some(l) {
        Some(n - 1)
    } else {
        label_block(bs, l, n - 1)
    }
}

/// The successors of block `k`: none after a return, the targets of a jump
/// or branch in order, else the next block, if any.
pub open spec fn successors(bs: Seq<Seq<InstrV>>, k: int) -> Seq<int> {
    let last = bs[k].last();
    if is_terminator_spec(last) && is_return_spec(last) {
        Seq::empty()
    } else if is_terminator_spec(last) {
        last.labels.map_values(|l: Seq<char>| label_block(bs, l, bs.len() as int)->Some_0)
    } else if k + 1 < bs.len() {
        seq![k + 1]
    } else {
        Seq::empty()
    }
}

/// Label `l` is a target of the jump or branch that ends block `k` and starts
/// no block.
pub open spec fn undefined_target(bs: Seq<Seq<InstrV>>, k: int, l: Seq<char>) -> bool {
    &&& 0 <= k < bs.len()
    &&& is_terminator_spec(bs[k].last())
    &&& !is_return_spec(bs[k].last())
    &&& bs[k].last().labels.contains(l)
    &&& label_block(bs, l, bs.len() as int) is None
}

pub open spec fn has_undefined_target(bs: Seq<Seq<InstrV>>) -> bool {
    exists|k: int, l: Seq<char>| undefined_target(bs, k, l)
}

proof fn lemma_concat_push(bs: Seq<Seq<InstrV>>, b: Seq<InstrV>)
    ensures
        concat(bs.push(b)) == concat(bs) + b,
{
    assert(bs.push(b).drop_last() =~= bs);
}

/// Moves `cur` into `bs` when it is not empty.
fn flush_block(bs: &mut Vec<Vec<Instruction>>, cur: &mut Vec<Instruction>)
    ensures
        final(cur)@.len() == 0,
        old(cur)@.len() == 0 ==> final(bs)@ == old(bs)@,
        old(cur)@.len() > 0 ==> final(bs)@ == old(bs)@.push(*old(cur)),
{
    if cur.len() > 0 {
        let mut b: Vec<Instruction> = Vec::new();
        std::mem::swap(cur, &mut b);
        bs.push(b);
    }
}

/// Index of the block that label `l` starts.
fn find_label_block(bs: &Vec<Vec<Instruction>>, l: &String) -> (r: Option<usize>)
    requires
        forall|k: int| 0 <= k < bs@.len() ==> #[trigger] bs@[k]@.len() > 0,
    ensures
        r matches Some(k) ==> label_block(vec_blocks(bs@), l@, bs@.len() as int) == Some(
            k as int,
        ),
        r is None ==> label_block(vec_blocks(bs@), l@, bs@.len() as int) is None,
{
    let ghost vb = vec_blocks(bs@);
    let mut n: usize = bs.len();
    while n > 0
        invariant
            n <= bs@.len(),
            vb == vec_blocks(bs@),
            forall|k: int| 0 <= k < bs@.len() ==> #[trigger] bs@[k]@.len() > 0,
            label_block(vb, l@, bs@.len() as int) == label_block(vb, l@, n as int),
        decreases n,
    {
        assert(vb[n - 1] == instrs_view(bs@[n - 1]@));
        assert(vb[n - 1][0] == bs@[n - 1]@[0]@);
        match &bs[n - 1][0].label {
            Some(name) => {
                if *name == *l {
                    return Some(n - 1);
                }
            },
            None => {},
        }
        n -= 1;
    }
    None
}

proof fn lemma_views_push(bs: Seq<Vec<Instruction>>, b: Vec<Instruction>)
    ensures
        vec_blocks(bs.push(b)) == vec_blocks(bs).push(instrs_view(b@)),
{
    assert(vec_blocks(bs.push(b)) =~= vec_blocks(bs).push(instrs_view(b@)));
}

proof fn lemma_instrs_push(v: Seq<Instruction>, x: Instruction)
    ensures
        instrs_view(v.push(x)) == instrs_view(v).push(x@),
{
    assert(instrs_view(v.push(x)) =~= instrs_view(v).push(x@));
}

/// Closing a non-empty block that fits after the closed ones keeps them a
/// well-shaped, maximal run of blocks.
proof fn lemma_close_block(b0: Seq<Vec<Instruction>>, cv: Vec<Instruction>)
    requires
        blocks_shaped(vec_blocks(b0)),
        blocks_maximal(vec_blocks(b0)),
        cv@.len() > 0,
        forall|j: int| 0 < j < cv@.len() ==> !is_label_spec(#[trigger] cv@[j]@),
        forall|j: int| 0 <= j < cv@.len() - 1 ==> !is_terminator_spec(#[trigger] cv@[j]@),
        b0.len() > 0 ==> is_terminator_spec(vec_blocks(b0).last().last()) || is_label_spec(
            cv@[0]@,
        ),
    ensures
        blocks_shaped(vec_blocks(b0.push(cv))),
        blocks_maximal(vec_blocks(b0.push(cv))),
        concat(vec_blocks(b0.push(cv))) == concat(vec_blocks(b0)) + instrs_view(cv@),
        vec_blocks(b0.push(cv)).last().last() == cv@.last()@,
{
    let c0 = cv@;
    lemma_views_push(b0, cv);
    lemma_concat_push(vec_blocks(b0), instrs_view(c0));
    let vb = vec_blocks(b0.push(cv));
    assert(vb.last() == instrs_view(c0));
    assert forall|k: int| 0 <= k < vb.len() - 1 implies is_terminator_spec(
        #[trigger] vb[k].last(),
    ) || is_label_spec(vb[k + 1][0]) by {
        if k == vb.len() - 2 {
            assert(vb[k] == vec_blocks(b0).last());
        } else {
            assert(vb[k] == vec_blocks(b0)[k]);
            assert(vb[k + 1] == vec_blocks(b0)[k + 1]);
        }
    }
    assert forall|k: int| 0 <= k < vb.len() implies #[trigger] vb[k].len() > 0 by {
        if k < vb.len() - 1 {
            assert(vb[k] == vec_blocks(b0)[k]);
        }
    }
    assert forall|k: int, j: int| 0 <= k < vb.len() && 0 < j < vb[k].len() implies !is_label_spec(
        #[trigger] vb[k][j],
    ) by {
        if k < vb.len() - 1 {
            assert(vb[k] == vec_blocks(b0)[k]);
        } else {
            assert(vb[k][j] == c0[j]@);
        }
    }
    assert forall|k: int, j: int|
        0 <= k < vb.len() && 0 <= j < vb[k].len() - 1 implies !is_terminator_spec(
        #[trigger] vb[k][j],
    ) by {
        if k < vb.len() - 1 {
            assert(vb[k] == vec_blocks(b0)[k]);
        } else {
            assert(vb[k][j] == c0[j]@);
        }
    }
    assert(vb.last().last() == c0.last()@);
}

/// The basic blocks of `instrs`, in order.
fn partition_blocks(instrs: &Vec<Instruction>) -> (bs: Vec<Vec<Instruction>>)
    ensures
        is_partition(vec_blocks(bs@), instrs_view(instrs@)),
{
    let ghost all = instrs_view(instrs@);
    let mut bs: Vec<Vec<Instruction>> = Vec::new();
    let mut cur: Vec<Instruction> = Vec::new();
    let mut i: usize = 0;
    while i < instrs.len()
        invariant
            i <= instrs@.len(),
            all == instrs_view(instrs@),
            concat(vec_blocks(bs@)) + instrs_view(cur@) == all.subrange(0, i as int),
            blocks_shaped(vec_blocks(bs@)),
            blocks_maximal(vec_blocks(bs@)),
            forall|j: int| 0 < j < cur@.len() ==> !is_label_spec(#[trigger] cur@[j]@),
            forall|j: int| 0 <= j < cur@.len() ==> !is_terminator_spec(#[trigger] cur@[j]@),
            cur@.len() > 0 && bs@.len() > 0 ==> is_terminator_spec(
                vec_blocks(bs@).last().last(),
            ) || is_label_spec(cur@[0]@),
            cur@.len() == 0 && bs@.len() > 0 ==> is_terminator_spec(
                vec_blocks(bs@).last().last(),
            ),
        decreases instrs@.len() - i,
    {
        let ins = &instrs[i];
        assert(all[i as int] == ins@);
        if ins.is_label() {
            let ghost b0 = bs@;
            let ghost cv = cur;
            flush_block(&mut bs, &mut cur);
            proof {
                if cv@.len() > 0 {
                    lemma_close_block(b0, cv);
                }
                assert(instrs_view(cur@) =~= Seq::<InstrV>::empty());
            }
        }
        let ghost c1 = cur@;
        cur.push(ins.duplicate());
        proof {
            lemma_instrs_push(c1, cur@.last());
            assert(all.subrange(0, i + 1) =~= all.subrange(0, i as int).push(ins@));
        }
        if ins.is_terminator() {
            let ghost b0 = bs@;
            let ghost cv = cur;
            flush_block(&mut bs, &mut cur);
            proof {
                lemma_close_block(b0, cv);
                assert(instrs_view(cur@) =~= Seq::<InstrV>::empty());
            }
        }
        i += 1;
    }
    let ghost b0 = bs@;
    let ghost cv = cur;
    flush_block(&mut bs, &mut cur);
    proof {
        assert(all.subrange(0, i as int) =~= all);
        if cv@.len() > 0 {
            lemma_close_block(b0, cv);
        } else {
            assert(instrs_view(cv@) =~= Seq::<InstrV>::empty());
            assert(concat(vec_blocks(bs@)) + instrs_view(cv@) =~= concat(vec_blocks(bs@)));
        }
    }
    bs
}

/// The successor indices of block `k`, or the first target label that
/// starts no block.
fn block_successors(bs: &Vec<Vec<Instruction>>, k: usize) -> (r: Result<Vec<usize>, String>)
    requires
        k < bs@.len(),
        blocks_shaped(vec_blocks(bs@)),
    ensures
        r matches Ok(s) ==> s@.map_values(|x: usize| x as int) == successors(
            vec_blocks(bs@),
            k as int,
        ),
        r matches Ok(s) ==> forall|l: Seq<char>| !undefined_target(vec_blocks(bs@), k as int, l),
        r matches Err(l) ==> undefined_target(vec_blocks(bs@), k as int, l@),
{
    let ghost vb = vec_blocks(bs@);
    let n = bs.len();
    proof {
        assert forall|j: int| 0 <= j < bs@.len() implies #[trigger] bs@[j]@.len() > 0 by {
            assert(vb[j] == instrs_view(bs@[j]@));
        }
    }
    let block = &bs[k];
    let last = &block[block.len() - 1];
    assert(vb[k as int] == instrs_view(block@));
    assert(vb[k as int].last() == last@);
    let mut s: Vec<usize> = Vec::new();
    if last.is_terminator() && last.is_return() {
        assert(s@.map_values(|x: usize| x as int) =~= successors(vb, k as int));
    } else if last.is_terminator() {
        let mut p: usize = 0;
        while p < last.labels.len()
            invariant
                vb == vec_blocks(bs@),
                forall|j: int| 0 <= j < bs@.len() ==> #[trigger] bs@[j]@.len() > 0,
                vb[k as int].last() == last@,
                is_terminator_spec(last@),
                !is_return_spec(last@),
                k < n,
                n == bs@.len(),
                p <= last.labels@.len(),
                s@.len() == p,
                forall|q: int|
                    0 <= q < p ==> label_block(vb, last@.labels[q], n as int) == Some(
                        s@[q] as int,
                    ),
            decreases last.labels@.len() - p,
        {
            let l = &last.labels[p];
            assert(last@.labels[p as int] == l@);
            match find_label_block(bs, l) {
                Some(t) => {
                    s.push(t);
                },
                None => {
                    assert(last@.labels.contains(l@));
                    assert(is_terminator_spec(vb[k as int].last()));
                    assert(label_block(vb, l@, vb.len() as int) is None);
                    assert(undefined_target(vb, k as int, l@));
                    return Err(l.clone());
                },
            }
            p += 1;
        }
        proof {
            assert(s@.map_values(|x: usize| x as int) =~= successors(vb, k as int));
            assert forall|l: Seq<char>| !undefined_target(vb, k as int, l) by {
                if last@.labels.contains(l) {
                    let q = choose|q: int| 0 <= q < last@.labels.len() && last@.labels[q] == l;
                    assert(vb.len() == n);
                    assert(label_block(vb, last@.labels[q], n as int) == Some(s@[q] as int));
                }
            }
        }
    } else if k + 1 < n {
        s.push(k + 1);
        assert(s@.map_values(|x: usize| x as int) =~= successors(vb, k as int));
    } else {
        assert(s@.map_values(|x: usize| x as int) =~= successors(vb, k as int));
    }
    Ok(s)
}

/// Splits `function` into basic blocks and links each to its successors.
pub fn construct_control_flow_graph(function: &Function) -> (r: Result<ControlFlowGraph, IrError>)
    ensures
        r matches Ok(g) ==> {
            &&& is_partition(cfg_blocks(g.blocks@), instrs_view(function.instrs@))
            &&& !has_undefined_target(cfg_blocks(g.blocks@))
            &&& forall|k: int|
                0 <= k < g.blocks@.len() ==> #[trigger] cfg_succs(g.blocks@)[k] == successors(
                    cfg_blocks(g.blocks@),
                    k,
                )
        },
        r matches Err(e) ==> e is UndefinedLabel && exists|bs: Seq<Seq<InstrV>>, k: int|
            {
                &&& is_partition(bs, instrs_view(function.instrs@))
                &&& undefined_target(bs, k, e->UndefinedLabel_0@)
            },
{
    let mut bs = partition_blocks(&function.instrs);
    let ghost vb = vec_blocks(bs@);
    let n = bs.len();
    let mut succs: Vec<Vec<usize>> = Vec::new();
    let mut k: usize = 0;
    while k < n
        invariant
            n == bs@.len(),
            vb == vec_blocks(bs@),
            is_partition(vb, instrs_view(function.instrs@)),
            k <= n,
            succs@.len() == k,
            forall|j: int|
                0 <= j < k ==> (#[trigger] succs@[j])@.map_values(|x: usize| x as int)
                    == successors(vb, j),
            forall|j: int, l: Seq<char>| 0 <= j < k ==> !undefined_target(vb, j, l),
        decreases n - k,
    {
        match block_successors(&bs, k) {
            Ok(s) => {
                succs.push(s);
            },
            Err(l) => {
                assert(undefined_target(vb, k as int, l@));
                let e = IrError::UndefinedLabel(l);
                assert(undefined_target(vb, k as int, e->UndefinedLabel_0@));
                return Err(e);
            },
        }
        k += 1;
    }
    let mut blocks: Vec<Block> = Vec::new();
    let mut j: usize = 0;
    while j < n
        invariant
            n == vb.len(),
            j <= n,
            succs@.len() == n - j,
            bs@.len() == n - j,
            blocks@.len() == j,
            forall|q: int| 0 <= q < j ==> instrs_view((#[trigger] blocks@[q]).instrs@) == vb[q],
            forall|q: int|
                0 <= q < n - j ==> instrs_view((#[trigger] bs@[q])@) == vb[q + j],
            forall|q: int|
                0 <= q < j ==> (#[trigger] blocks@[q]).next_blocks@.map_values(
                    |x: usize| x as int,
                ) == successors(vb, q),
            forall|q: int|
                0 <= q < n - j ==> (#[trigger] succs@[q])@.map_values(|x: usize| x as int)
                    == successors(vb, q + j),
        decreases n - j,
    {
        let ghost bs0 = bs@;
        let ghost ss0 = succs@;
        let b = bs.remove(0);
        let s = succs.remove(0);
        assert(instrs_view(b@) == vb[j as int]);
        blocks.push(Block { instrs: b, next_blocks: s });
        j += 1;
        proof {
            assert forall|q: int| 0 <= q < n - j implies instrs_view((#[trigger] bs@[q])@) == vb[q
                + j] by {
                assert(bs@[q] == bs0[q + 1]);
            }
            assert forall|q: int| 0 <= q < n - j implies (#[trigger] succs@[q])@.map_values(
                |x: usize| x as int,
            ) == successors(vb, q + j) by {
                assert(succs@[q] == ss0[q + 1]);
            }
        }
    }
    let g = ControlFlowGraph { blocks };
    proof {
        assert(cfg_blocks(g.blocks@) =~= vb);
        assert forall|k: int|
            0 <= k < g.blocks@.len() implies #[trigger] cfg_succs(g.blocks@)[k] == successors(
            cfg_blocks(g.blocks@),
            k,
        ) by {
            assert(cfg_succs(g.blocks@)[k] == g.blocks@[k].next_blocks@.map_values(
                |x: usize| x as int,
            ));
        }
    }
    Ok(g)
}

impl ControlFlowGraph {
    /// The blocks' instructions laid end to end, in block order.
    pub fn to_instrs(&self) -> (r: Vec<Instruction>)
        ensures
            instrs_view(r@) == concat(cfg_blocks(self.blocks@)),
    {
        let ghost vb = cfg_blocks(self.blocks@);
        let mut result: Vec<Instruction> = Vec::new();
        let mut k: usize = 0;
        while k < self.blocks.len()
            invariant
                k <= self.blocks@.len(),
                vb == cfg_blocks(self.blocks@),
                instrs_view(result@) == concat(vb.subrange(0, k as int)),
            decreases self.blocks@.len() - k,
        {
            let block = &self.blocks[k];
            assert(vb[k as int] == instrs_view(block.instrs@));
            let ghost before = instrs_view(result@);
            let mut p: usize = 0;
            while p < block.instrs.len()
                invariant
                    p <= block.instrs@.len(),
                    instrs_view(result@) == before + instrs_view(block.instrs@).subrange(
                        0,
                        p as int,
                    ),
                decreases block.instrs@.len() - p,
            {
                let ghost r0 = result@;
                result.push(block.instrs[p].duplicate());
                proof {
                    lemma_instrs_push(r0, result@.last());
                    assert(instrs_view(block.instrs@).subrange(0, p + 1) =~= instrs_view(
                        block.instrs@,
                    ).subrange(0, p as int).push(block.instrs@[p as int]@));
                }
                p += 1;
            }
            proof {
                assert(instrs_view(block.instrs@).subrange(0, p as int) =~= instrs_view(
                    block.instrs@,
                ));
                assert(vb.subrange(0, k + 1).drop_last() =~= vb.subrange(0, k as int));
            }
            k += 1;
        }
        assert(vb.subrange(0, k as int) =~= vb);
        result
    }
}

} // verus!
