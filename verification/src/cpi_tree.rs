//! The cross-program-invocation (CPI) call tree of an execution, rebuilt from
//! its flat, pre-order execution trace by nesting frames on their stack depth.

use vstd::prelude::*;

use crate::text::{decimal, push_char, push_decimal};

verus! {

/// An account passed to an instruction, with its privileges.
#[derive(Clone, Copy, Debug, PartialEq, Eq)]
pub struct AccountMeta {
    /// The account's address.
    pub pubkey: [u8; 32],
    /// Whether the account signed the instruction.
    pub is_signer: bool,
    /// Whether the instruction may write the account.
    pub is_writable: bool,
}

/// An instruction: the program it invokes, its accounts and its data.
pub struct Instruction {
    /// The address of the invoked program.
    pub program_id: [u8; 32],
    /// The account metas, in order.
    pub accounts: Vec<AccountMeta>,
    /// The instruction data.
    pub data: Vec<u8>,
}

/// One invocation of the trace, at the stack depth it ran at
/// (0 for a top-level instruction, one more for each CPI level).
pub struct ExecutedInstruction {
    /// The invocation stack depth.
    pub stack_depth: u8,
    /// The invoked instruction.
    pub instruction: Instruction,
    /// The compute units that the invocation consumed.
    pub compute_units_consumed: u64,
    /// 0 on success; an error code otherwise.
    pub result: u64,
}

/// The flat, pre-order list of every invocation of an execution.
pub struct ExecutionTrace {
    /// The invocations, in the order in which they started.
    pub instructions: Vec<ExecutedInstruction>,
}

/// What an execution left behind that the call tree is built from.
pub struct ExecutionResult {
    /// The execution trace.
    pub execution_trace: ExecutionTrace,
}

/// A node in the CPI call tree.
#[derive(Debug)]
pub struct CpiNode {
    /// The address of the invoked program.
    pub program_id: [u8; 32],
    /// The instruction's account metas.
    pub accounts: Vec<AccountMeta>,
    /// The instruction data.
    pub data: Vec<u8>,
    /// The compute units that the invocation consumed.
    pub compute_units_consumed: u64,
    /// 0 = success; an error code otherwise.
    pub result: u64,
    /// The invocations that this one made, in order.
    pub children: Vec<CpiNode>,
}

/// One frame of a call tree or trace, as plain values.
pub struct Frame {
    /// How deep the frame sits.
    pub depth: int,
    /// The invoked program.
    pub program_id: [u8; 32],
    /// The account metas.
    pub accounts: Seq<AccountMeta>,
    /// The instruction data.
    pub data: Seq<u8>,
    /// The compute units consumed.
    pub compute_units_consumed: u64,
    /// The result code.
    pub result: u64,
}

/// The frame that a trace entry records.
pub open spec fn frame_of(e: ExecutedInstruction) -> Frame {
    Frame {
        depth: e.stack_depth as int,
        program_id: e.instruction.program_id,
        accounts: e.instruction.accounts@,
        data: e.instruction.data@,
        compute_units_consumed: e.compute_units_consumed,
        result: e.result,
    }
}

/// The frame of a tree node that sits at `depth`.
pub open spec fn node_frame(n: CpiNode, depth: int) -> Frame {
    Frame {
        depth,
        program_id: n.program_id,
        accounts: n.accounts@,
        data: n.data@,
        compute_units_consumed: n.compute_units_consumed,
        result: n.result,
    }
}

/// The pre-order list of the frames of a forest whose roots sit at `depth`.
pub open spec fn flatten(nodes: Seq<CpiNode>, depth: int) -> Seq<Frame>
    decreases nodes,
{
    if nodes.len() == 0 {
        seq![]
    } else {
        flatten(nodes.drop_last(), depth) + flatten_node(nodes.last(), depth)
    }
}

/// The pre-order list of the frames of the tree under `n`, sitting at `depth`.
pub open spec fn flatten_node(n: CpiNode, depth: int) -> Seq<Frame>
    decreases n,
{
    seq![node_frame(n, depth)] + flatten(n.children@, depth + 1)
}


/// Frames `lo..hi` of trace `s` nest as a forest whose roots sit at `depth`:
/// the first sits at `depth`, none sits shallower, and each sits at most one
/// level deeper than the frame before it.
pub open spec fn is_forest_run(s: Seq<ExecutedInstruction>, lo: int, hi: int, depth: int) -> bool {
    &&& 0 <= lo <= hi <= s.len()
    &&& lo < hi ==> s[lo].stack_depth == depth
    &&& forall|i: int| lo <= i < hi ==> #[trigger] s[i].stack_depth >= depth
    &&& forall|i: int| lo < i < hi ==> #[trigger] descends_by_one_at_most(s, i)
}

/// Frame `i` of `s` sits at most one level deeper than frame `i - 1`.
pub open spec fn descends_by_one_at_most(s: Seq<ExecutedInstruction>, i: int) -> bool {
    s[i].stack_depth <= s[i - 1].stack_depth + 1
}

/// A run takes one more root frame at its own depth.
proof fn lemma_run_take_root(s: Seq<ExecutedInstruction>, lo: int, p: int, depth: int)
    requires
        is_forest_run(s, lo, p, depth),
        p < s.len(),
        s[p].stack_depth == depth,
    ensures
        is_forest_run(s, lo, p + 1, depth),
{
    if p > lo {
        assert(descends_by_one_at_most(s, p));
    }
}

/// A run followed by a root frame and that frame's subtree run is a run.
proof fn lemma_run_take_subtree(s: Seq<ExecutedInstruction>, lo: int, p: int, q: int, depth: int)
    requires
        lo <= p < s.len(),
        is_forest_run(s, lo, p + 1, depth),
        s[p].stack_depth == depth,
        is_forest_run(s, p + 1, q, depth + 1),
    ensures
        is_forest_run(s, lo, q, depth),
{
    assert forall|i: int| lo < i < q implies #[trigger] descends_by_one_at_most(s, i) by {
        if i <= p {
            assert(descends_by_one_at_most(s, i));
        } else if i == p + 1 {
        } else {
            assert(descends_by_one_at_most(s, i));
        }
    }
    assert forall|i: int| lo <= i < q implies #[trigger] s[i].stack_depth >= depth by {
        if i <= p {
        } else {
            assert(s[i].stack_depth >= depth + 1);
        }
    }
}

/// What may follow a subtree: the next frame is not deeper than its
/// parent's children, or skips a level.
proof fn lemma_subtree_end(s: Seq<ExecutedInstruction>, p: int, q: int, depth: int)
    requires
        0 <= p < s.len(),
        s[p].stack_depth == depth,
        run_ends_at(s, p + 1, q, depth + 1),
        p + 1 <= q <= s.len(),
    ensures
        q == s.len() || s[q].stack_depth <= depth || s[q].stack_depth > s[q - 1].stack_depth + 1,
{
}

/// The frames a nested run at `depth + 1` from `p + 1` would take are frames
/// that the run at `depth` from `lo` would take.
proof fn lemma_depth_fits_child(s: Seq<ExecutedInstruction>, lo: int, p: int, depth: int)
    requires
        lo <= p < s.len(),
        is_forest_run(s, lo, p + 1, depth),
        s[p].stack_depth == depth,
        depth_fits(s, lo, depth),
    ensures
        depth_fits(s, p + 1, depth + 1),
{
    assert forall|i: int|
        p + 1 <= i < s.len() && #[trigger] is_forest_run(s, p + 1, i + 1, depth + 1) implies s[i].stack_depth
        < 255 by {
        lemma_run_take_subtree(s, lo, p, i + 1, depth);
    }
}

/// The run `lo..hi` at `depth` cannot take the next frame of `s`.
pub open spec fn run_ends_at(s: Seq<ExecutedInstruction>, lo: int, hi: int, depth: int) -> bool {
    ||| hi == s.len()
    ||| hi == lo && s[hi].stack_depth != depth
    ||| hi > lo && (s[hi].stack_depth < depth || s[hi].stack_depth > s[hi - 1].stack_depth + 1)
}

/// No frame that a forest at `depth` starting at `lo` would take sits at the
/// deepest stack depth, 255 (nesting below it has no depth left to count).
pub open spec fn depth_fits(s: Seq<ExecutedInstruction>, lo: int, depth: int) -> bool {
    forall|i: int|
        lo <= i < s.len() && #[trigger] is_forest_run(s, lo, i + 1, depth) ==> s[i].stack_depth
            < 255
}

/// Every node of the tree under `n`, which sits at `depth`, sits at a depth
/// that fits in a `u8`.
pub open spec fn fits_u8(n: CpiNode, depth: int) -> bool
    decreases n,
{
    &&& 0 <= depth <= 255
    &&& forall|i: int| 0 <= i < n.children@.len() ==> fits_u8(#[trigger] n.children@[i], depth + 1)
}

/// Concatenating forests concatenates their flattenings.
pub proof fn lemma_flatten_push(nodes: Seq<CpiNode>, n: CpiNode, depth: int)
    ensures
        flatten(nodes.push(n), depth) == flatten(nodes, depth) + flatten_node(n, depth),
{
    assert(nodes.push(n).drop_last() =~= nodes);
}

/// Every frame of a forest at `depth` sits at `depth` or deeper.
proof fn lemma_flatten_depths(nodes: Seq<CpiNode>, depth: int)
    ensures
        forall|j: int| 0 <= j < flatten(nodes, depth).len() ==> #[trigger] flatten(nodes, depth)[j].depth >= depth,
    decreases nodes,
{
    if nodes.len() > 0 {
        lemma_flatten_depths(nodes.drop_last(), depth);
        lemma_flatten_node_depths(nodes.last(), depth);
        let a = flatten(nodes.drop_last(), depth);
        let b = flatten_node(nodes.last(), depth);
        assert forall|j: int| 0 <= j < (a + b).len() implies #[trigger] (a + b)[j].depth >= depth by {
            if j >= a.len() {
                assert((a + b)[j] == b[j - a.len()]);
            }
        }
    }
}

/// The tree under `n` at `depth` lists `n` first, at `depth`, and every
/// later frame deeper.
proof fn lemma_flatten_node_depths(n: CpiNode, depth: int)
    ensures
        flatten_node(n, depth).len() >= 1,
        flatten_node(n, depth)[0].depth == depth,
        forall|j: int| 1 <= j < flatten_node(n, depth).len() ==> #[trigger] flatten_node(n, depth)[j].depth > depth,
    decreases n,
{
    lemma_flatten_depths(n.children@, depth + 1);
    let c = flatten(n.children@, depth + 1);
    assert forall|j: int| 1 <= j < flatten_node(n, depth).len() implies #[trigger] flatten_node(n, depth)[j].depth > depth by {
        assert(flatten_node(n, depth)[j] == c[j - 1]);
    }
}

/// The pre-order list of a forest's frames determines the forest: two
/// forests at the same depth with the same list have the same roots, in the
/// same order, with the same frames, and each root's children again have the
/// same list.
pub proof fn law_flattening_determines_forest(a: Seq<CpiNode>, b: Seq<CpiNode>, depth: int)
    requires
        flatten(a, depth) == flatten(b, depth),
    ensures
        a.len() == b.len(),
        forall|i: int| 0 <= i < a.len() ==> node_frame(#[trigger] a[i], depth) == node_frame(b[i], depth),
        forall|i: int|
            0 <= i < a.len() ==> flatten(#[trigger] a[i].children@, depth + 1) == flatten(
                b[i].children@,
                depth + 1,
            ),
    decreases a.len(),
{
    if a.len() == 0 || b.len() == 0 {
        if a.len() > 0 {
            lemma_flatten_node_depths(a.last(), depth);
        }
        if b.len() > 0 {
            lemma_flatten_node_depths(b.last(), depth);
        }
    } else {
        let f = flatten(a, depth);
        let pa = flatten(a.drop_last(), depth);
        let pb = flatten(b.drop_last(), depth);
        let ta = flatten_node(a.last(), depth);
        let tb = flatten_node(b.last(), depth);
        lemma_flatten_node_depths(a.last(), depth);
        lemma_flatten_node_depths(b.last(), depth);
        assert(f == pa + ta);
        assert(f == pb + tb);
        let ka = pa.len() as int;
        let kb = pb.len() as int;
        assert(f[ka] == ta[0]);
        assert(f[kb] == tb[0]);
        if ka < kb {
            assert(f[kb] == ta[kb - ka]);
        }
        if kb < ka {
            assert(f[ka] == tb[ka - kb]);
        }
        assert(ka == kb);
        assert(pa =~= f.take(ka));
        assert(pb =~= f.take(kb));
        assert(ta =~= f.skip(ka));
        assert(tb =~= f.skip(kb));
        law_flattening_determines_forest(a.drop_last(), b.drop_last(), depth);
        assert(ta[0] == tb[0]);
        assert(flatten(a.last().children@, depth + 1) =~= ta.drop_first());
        assert(flatten(b.last().children@, depth + 1) =~= tb.drop_first());
        assert forall|i: int| 0 <= i < a.len() implies node_frame(#[trigger] a[i], depth) == node_frame(b[i], depth)
            && flatten(a[i].children@, depth + 1) == flatten(b[i].children@, depth + 1) by {
            if i < a.len() - 1 {
                assert(a[i] == a.drop_last()[i]);
                assert(b[i] == b.drop_last()[i]);
            }
        }
    }
}

/// Mapping frames over adjacent ranges concatenates.
proof fn lemma_map_split(s: Seq<ExecutedInstruction>, a: int, b: int, c: int)
    requires
        0 <= a <= b <= c <= s.len(),
    ensures
        s.subrange(a, c).map_values(|e: ExecutedInstruction| frame_of(e)) == s.subrange(
            a,
            b,
        ).map_values(|e: ExecutedInstruction| frame_of(e)) + s.subrange(b, c).map_values(
            |e: ExecutedInstruction| frame_of(e),
        ),
{
    assert(s.subrange(a, c).map_values(|e: ExecutedInstruction| frame_of(e)) =~= s.subrange(
        a,
        b,
    ).map_values(|e: ExecutedInstruction| frame_of(e)) + s.subrange(b, c).map_values(
        |e: ExecutedInstruction| frame_of(e),
    ));
}

/// A node made from frame `p` and the forest of frames `p + 1..q` flattens
/// to frames `p..q`.
proof fn lemma_node_flatten(s: Seq<ExecutedInstruction>, node: CpiNode, p: int, q: int, depth: int)
    requires
        0 <= p < q <= s.len(),
        node_frame(node, depth) == frame_of(s[p]),
        flatten(node.children@, depth + 1) == s.subrange(p + 1, q).map_values(
            |e: ExecutedInstruction| frame_of(e),
        ),
    ensures
        flatten_node(node, depth) == s.subrange(p, q).map_values(|e: ExecutedInstruction| frame_of(e)),
{
    assert(flatten_node(node, depth) =~= s.subrange(p, q).map_values(
        |e: ExecutedInstruction| frame_of(e),
    ));
}

/// Copies a vector element by element.
fn copy_vec<T: Copy>(v: &Vec<T>) -> (r: Vec<T>)
    ensures
        r@ == v@,
{
    let mut r: Vec<T> = Vec::new();
    let mut i: usize = 0;
    while i < v.len()
        invariant
            i <= v.len(),
            r@ == v@.take(i as int),
        decreases v.len() - i,
    {
        r.push(v[i]);
        i = i + 1;
        assert(r@ =~= v@.take(i as int));
    }
    assert(v@.take(i as int) =~= v@);
    r
}

/// Nests the frames from `*pos` on that sit at `depth` or below, moving
/// `*pos` past them: each frame at `depth` takes the deeper frames right
/// after it as its subtree before its next sibling is taken.
fn build(instrs: &Vec<ExecutedInstruction>, pos: &mut usize, depth: u8) -> (nodes: Vec<CpiNode>)
    requires
        *old(pos) <= instrs.len(),
        depth_fits(instrs@, *old(pos) as int, depth as int),
    ensures
        is_forest_run(instrs@, *old(pos) as int, *final(pos) as int, depth as int),
        run_ends_at(instrs@, *old(pos) as int, *final(pos) as int, depth as int),
        flatten(nodes@, depth as int) == instrs@.subrange(
            *old(pos) as int,
            *final(pos) as int,
        ).map_values(|e: ExecutedInstruction| frame_of(e)),
        forall|i: int| 0 <= i < nodes@.len() ==> fits_u8(#[trigger] nodes@[i], depth as int),
    decreases instrs.len() - *old(pos),
{
    let ghost s = instrs@;
    let ghost start = *pos as int;
    let mut nodes: Vec<CpiNode> = Vec::new();
    while *pos < instrs.len() && instrs[*pos].stack_depth == depth
        invariant
            s == instrs@,
            start == *old(pos),
            start <= *pos <= instrs.len(),
            is_forest_run(s, start, *pos as int, depth as int),
            depth_fits(s, start, depth as int),
            *pos > start ==> (*pos == s.len() || s[*pos as int].stack_depth <= depth || s[*pos
                as int].stack_depth > s[*pos - 1].stack_depth + 1),
            flatten(nodes@, depth as int) == s.subrange(start, *pos as int).map_values(
                |e: ExecutedInstruction| frame_of(e),
            ),
            forall|i: int| 0 <= i < nodes@.len() ==> fits_u8(#[trigger] nodes@[i], depth as int),
        decreases instrs.len() - *pos,
    {
        let p: usize = *pos;
        let e = &instrs[p];
        proof {
            lemma_run_take_root(s, start, p as int, depth as int);
            lemma_depth_fits_child(s, start, p as int, depth as int);
        }
        let program_id = e.instruction.program_id;
        let accounts = copy_vec(&e.instruction.accounts);
        let data = copy_vec(&e.instruction.data);
        let compute_units_consumed: u64 = e.compute_units_consumed;
        let result: u64 = e.result;
        *pos = p + 1;
        let children = build(instrs, pos, depth + 1);
        let q: usize = *pos;
        let node = CpiNode { program_id, accounts, data, compute_units_consumed, result, children };
        proof {
            lemma_run_take_subtree(s, start, p as int, q as int, depth as int);
            lemma_subtree_end(s, p as int, q as int, depth as int);
            lemma_node_flatten(s, node, p as int, q as int, depth as int);
            lemma_flatten_push(nodes@, node, depth as int);
            lemma_map_split(s, start, p as int, q as int);
        }
        nodes.push(node);
    }
    nodes
}


/// How many leading frames of trace `s` the call tree holds: the longest
/// prefix that starts at depth 0 and never goes more than one level deeper
/// from one frame to the next.
pub open spec fn tree_extent(s: Seq<ExecutedInstruction>) -> nat {
    choose|hi: nat| is_forest_run(s, 0, hi as int, 0) && run_ends_at(s, 0, hi as int, 0)
}

/// A maximal run from the start of the trace is the tree's extent.
pub proof fn lemma_tree_extent(s: Seq<ExecutedInstruction>, hi: int)
    requires
        is_forest_run(s, 0, hi, 0),
        run_ends_at(s, 0, hi, 0),
    ensures
        tree_extent(s) == hi,
{
    assert(is_forest_run(s, 0, hi as nat as int, 0));
    let e = tree_extent(s) as int;
    if e < hi {
        if e > 0 {
            assert(descends_by_one_at_most(s, e));
        }
    } else if e > hi {
        if hi > 0 {
            assert(descends_by_one_at_most(s, hi));
        }
    }
}

/// A trace that nests well from its first frame on (it starts at depth 0 and
/// never goes more than one level deeper from one frame to the next) is
/// held by the call tree whole: no frame is lost.
pub proof fn law_well_nested_trace_is_held_whole(s: Seq<ExecutedInstruction>)
    requires
        is_forest_run(s, 0, s.len() as int, 0),
    ensures
        tree_extent(s) == s.len(),
{
    lemma_tree_extent(s, s.len() as int);
}

/// A trace whose first frame is not at depth 0 gives an empty call tree.
pub proof fn law_no_top_level_frame_no_tree(s: Seq<ExecutedInstruction>)
    requires
        s.len() == 0 || s[0].stack_depth != 0,
    ensures
        tree_extent(s) == 0,
{
    lemma_tree_extent(s, 0);
}

/// The call tree stops at the first frame that skips a nesting level: a
/// frame more than one level deeper than the frame before it, and every
/// frame after it, are left out.
pub proof fn law_tree_stops_at_skipped_level(s: Seq<ExecutedInstruction>, k: int)
    requires
        0 < k < s.len(),
        is_forest_run(s, 0, k, 0),
        s[k].stack_depth > s[k - 1].stack_depth + 1,
    ensures
        tree_extent(s) == k,
{
    lemma_tree_extent(s, k);
}

/// A trace with no frame at the deepest stack depth, 255, can be nested
/// without running out of depth.
pub proof fn law_shallow_trace_fits(s: Seq<ExecutedInstruction>)
    requires
        forall|i: int| 0 <= i < s.len() ==> #[trigger] s[i].stack_depth < 255,
    ensures
        depth_fits(s, 0, 0),
{
}

/// Flattening a forest split in two flattens each part in turn.
pub proof fn lemma_flatten_concat(a: Seq<CpiNode>, b: Seq<CpiNode>, depth: int)
    ensures
        flatten(a + b, depth) == flatten(a, depth) + flatten(b, depth),
    decreases b.len(),
{
    if b.len() == 0 {
        assert(a + b =~= a);
        assert(flatten(b, depth) =~= Seq::<Frame>::empty());
    } else {
        assert((a + b).drop_last() =~= a + b.drop_last());
        assert((a + b).last() == b.last());
        lemma_flatten_concat(a, b.drop_last(), depth);
    }
}

/// The root `i` of a forest at depth 0 whose frames are the leading `k`
/// entries of `s` is entry `p`, the entry right after the frames of the
/// roots before it.
proof fn lemma_root_entry(s: Seq<ExecutedInstruction>, tree: Seq<CpiNode>, k: int, i: int)
    requires
        0 <= k <= s.len(),
        0 <= i < tree.len(),
        flatten(tree, 0) == s.take(k).map_values(|e: ExecutedInstruction| frame_of(e)),
    ensures
        flatten(tree.take(i), 0).len() < k,
        node_frame(tree[i], 0) == frame_of(s[flatten(tree.take(i), 0).len() as int]),
{
    let fr = flatten(tree, 0);
    let before = tree.take(i);
    let after = tree.skip(i + 1);
    assert(tree =~= before + seq![tree[i]] + after);
    lemma_flatten_concat(before + seq![tree[i]], after, 0);
    lemma_flatten_concat(before, seq![tree[i]], 0);
    assert(seq![tree[i]].drop_last() =~= Seq::<CpiNode>::empty());
    assert(seq![tree[i]].last() == tree[i]);
    assert(flatten(Seq::<CpiNode>::empty(), 0) == Seq::<Frame>::empty());
    assert(flatten(seq![tree[i]], 0) =~= flatten_node(tree[i], 0));
    lemma_flatten_node_depths(tree[i], 0);
    let p = flatten(before, 0).len() as int;
    assert(fr =~= flatten(before, 0) + flatten_node(tree[i], 0) + flatten(after, 0));
    assert(fr[p] == flatten_node(tree[i], 0)[0]);
    assert(fr.len() == k);
    assert(fr[p] == frame_of(s.take(k)[p]));
    assert(s.take(k)[p] == s[p]);
}

/// Frame `j` of a forest whose frames are the leading `k` entries of `s`
/// is entry `j`'s frame.
proof fn lemma_frame_entry(s: Seq<ExecutedInstruction>, tree: Seq<CpiNode>, k: int, j: int)
    requires
        0 <= j < k <= s.len(),
        flatten(tree, 0) == s.take(k).map_values(|e: ExecutedInstruction| frame_of(e)),
    ensures
        flatten(tree, 0)[j] == frame_of(s[j]),
{
    assert(s.take(k)[j] == s[j]);
}

/// The tree keeps each trace entry it holds whole: the `j`-th frame of its
/// pre-order list has the stack depth, program, accounts, instruction data
/// (every byte), compute units and result of trace entry `j`; and the `i`-th
/// root is the entry that follows the frames of the roots before it, taken
/// at depth 0 with that entry's program, accounts, data, compute units and
/// result.
pub proof fn law_tree_keeps_each_entry(s: Seq<ExecutedInstruction>, tree: Seq<CpiNode>)
    requires
        tree_extent(s) <= s.len(),
        flatten(tree, 0) == s.take(tree_extent(s) as int).map_values(
            |e: ExecutedInstruction| frame_of(e),
        ),
    ensures
        flatten(tree, 0).len() == tree_extent(s),
        forall|j: int|
            0 <= j < tree_extent(s) ==> {
                let f = #[trigger] flatten(tree, 0)[j];
                &&& f.depth == s[j].stack_depth as int
                &&& f.program_id == s[j].instruction.program_id
                &&& f.accounts == s[j].instruction.accounts@
                &&& f.data.len() == s[j].instruction.data@.len()
                &&& f.data == s[j].instruction.data@
                &&& f.compute_units_consumed == s[j].compute_units_consumed
                &&& f.result == s[j].result
            },
        forall|i: int|
            #![trigger tree[i]]
            #![trigger tree.take(i)]
            0 <= i < tree.len() ==> {
                let p = flatten(tree.take(i), 0).len() as int;
                &&& p < tree_extent(s)
                &&& s[p].stack_depth == 0
                &&& tree[i].program_id == s[p].instruction.program_id
                &&& tree[i].accounts@ == s[p].instruction.accounts@
                &&& tree[i].data@.len() == s[p].instruction.data@.len()
                &&& tree[i].data@ == s[p].instruction.data@
                &&& tree[i].compute_units_consumed == s[p].compute_units_consumed
                &&& tree[i].result == s[p].result
            },
{
    let k = tree_extent(s) as int;
    let fr = flatten(tree, 0);
    assert forall|j: int| 0 <= j < k implies {
        let f = #[trigger] fr[j];
        &&& f.depth == s[j].stack_depth as int
        &&& f.program_id == s[j].instruction.program_id
        &&& f.accounts == s[j].instruction.accounts@
        &&& f.data.len() == s[j].instruction.data@.len()
        &&& f.data == s[j].instruction.data@
        &&& f.compute_units_consumed == s[j].compute_units_consumed
        &&& f.result == s[j].result
    } by {
        lemma_frame_entry(s, tree, k, j);
    }
    assert forall|i: int| 0 <= i < tree.len() implies {
        let p = flatten(tree.take(i), 0).len() as int;
        &&& p < tree_extent(s)
        &&& s[p].stack_depth == 0
        &&& (#[trigger] tree[i]).program_id == s[p].instruction.program_id
        &&& tree[i].accounts@ == s[p].instruction.accounts@
        &&& tree[i].data@.len() == s[p].instruction.data@.len()
        &&& tree[i].data@ == s[p].instruction.data@
        &&& tree[i].compute_units_consumed == s[p].compute_units_consumed
        &&& tree[i].result == s[p].result
    } by {
        lemma_root_entry(s, tree, k, i);
    }
}

impl ExecutionResult {
    /// The trace's entries, in order.
    pub open spec fn trace(&self) -> Seq<ExecutedInstruction> {
        self.execution_trace.instructions@
    }

    /// Reconstruct the CPI call tree from `execution_trace`, nesting by
    /// `stack_depth`. Each node carries the full instruction (program id,
    /// account metas, data) of its frame.
    #[verifier::rlimit(50)]
    pub fn cpi_tree(&self) -> (tree: Vec<CpiNode>)
        requires
            depth_fits(self.trace(), 0, 0),
        ensures
            flatten(tree@, 0) == self.trace().take(tree_extent(self.trace()) as int).map_values(
                |e: ExecutedInstruction| frame_of(e),
            ),
            forall|i: int| 0 <= i < tree@.len() ==> fits_u8(#[trigger] tree@[i], 0),
            tree_extent(self.trace()) <= self.trace().len(),
            forall|i: int|
                #![trigger tree@[i]]
                #![trigger tree@.take(i)]
                0 <= i < tree@.len() ==> {
                    let p = flatten(tree@.take(i), 0).len() as int;
                    &&& p < tree_extent(self.trace())
                    &&& self.trace()[p].stack_depth == 0
                    &&& tree@[i].program_id == self.trace()[p].instruction.program_id
                    &&& tree@[i].accounts@ == self.trace()[p].instruction.accounts@
                    &&& tree@[i].data@ == self.trace()[p].instruction.data@
                    &&& tree@[i].compute_units_consumed == self.trace()[p].compute_units_consumed
                    &&& tree@[i].result == self.trace()[p].result
                },
    {
        let mut pos: usize = 0;
        let tree = build(&self.execution_trace.instructions, &mut pos, 0);
        proof {
            lemma_tree_extent(self.trace(), pos as int);
            assert(self.trace().take(pos as int) =~= self.trace().subrange(0, pos as int));
            law_tree_keeps_each_entry(self.trace(), tree@);
        }
        tree
    }
}


/// The base58 text of a 32-byte address, as `solana_pubkey::Pubkey`
/// displays it.
pub uninterp spec fn base58_text(bytes: Seq<u8>) -> Seq<char>;

/// The base58 text of an address. Calls `Display` of
/// `solana_pubkey::Pubkey` (five8's `encode_32`); the contract claims only
/// that the text is `base58_text` of the address bytes, which depends on
/// nothing else.
#[verifier::external_body]
fn address_text(bytes: &[u8; 32]) -> (s: String)
    ensures
        s@ == base58_text(bytes@),
{
    solana_pubkey::Pubkey::new_from_array(*bytes).to_string()
}

/// Two spaces per level of depth.
pub open spec fn indent(depth: int) -> Seq<char> {
    Seq::new((2 * depth) as nat, |i: int| ' ')
}

/// `✓` for a frame that succeeded, `✗` for one that failed.
pub open spec fn status_char(result: u64) -> char {
    if result == 0 {
        '\u{2713}'
    } else {
        '\u{2717}'
    }
}

/// The line of one frame: indented by its depth, its status, its program,
/// and its compute units, account count and data length.
pub open spec fn frame_line(f: Frame) -> Seq<char> {
    indent(f.depth) + seq![status_char(f.result), ' '] + base58_text(f.program_id@) + " ["@
        + decimal(f.compute_units_consumed as nat) + "cu, "@ + decimal(f.accounts.len())
        + " accounts, "@ + decimal(f.data.len()) + " data bytes]\n"@
}

/// The lines of a list of frames, one per frame, in order.
pub open spec fn frames_text(fs: Seq<Frame>) -> Seq<char>
    decreases fs.len(),
{
    if fs.len() == 0 {
        seq![]
    } else {
        frames_text(fs.drop_last()) + frame_line(fs.last())
    }
}

/// The text of concatenated frame lists is the concatenation of their texts.
pub proof fn lemma_frames_text_concat(a: Seq<Frame>, b: Seq<Frame>)
    ensures
        frames_text(a + b) == frames_text(a) + frames_text(b),
    decreases b.len(),
{
    if b.len() == 0 {
        assert(a + b =~= a);
    } else {
        assert((a + b).drop_last() =~= a + b.drop_last());
        lemma_frames_text_concat(a, b.drop_last());
    }
}

/// The line of each frame stands in the text of a list of frames, between
/// the lines of the frames before it and those after it. It opens with two
/// spaces per level of depth, then `✓` when the frame's result is 0 and `✗`
/// for any other result, then a space; it closes with the decimal length of
/// the frame's data, ` data bytes]` and a newline.
pub proof fn law_each_frame_has_its_line(fs: Seq<Frame>, j: int)
    requires
        0 <= j < fs.len(),
        fs[j].depth >= 0,
    ensures
        frames_text(fs) == frames_text(fs.take(j)) + frame_line(fs[j]) + frames_text(fs.skip(j + 1)),
        forall|c: int| 0 <= c < 2 * fs[j].depth ==> #[trigger] frame_line(fs[j])[c] == ' ',
        fs[j].result == 0 ==> frame_line(fs[j])[2 * fs[j].depth] == '\u{2713}',
        fs[j].result != 0 ==> frame_line(fs[j])[2 * fs[j].depth] == '\u{2717}',
        frame_line(fs[j])[2 * fs[j].depth + 1] == ' ',
        ({
            let line = frame_line(fs[j]);
            let tail = decimal(fs[j].data.len()) + " data bytes]\n"@;
            line.len() >= tail.len() && line.subrange(line.len() - tail.len(), line.len() as int)
                == tail
        }),
{
    let f = fs[j];
    assert(fs =~= fs.take(j) + seq![f] + fs.skip(j + 1));
    lemma_frames_text_concat(fs.take(j) + seq![f], fs.skip(j + 1));
    lemma_frames_text_concat(fs.take(j), seq![f]);
    assert(seq![f].drop_last() =~= Seq::<Frame>::empty());
    assert(seq![f].last() == f);
    assert(frames_text(Seq::<Frame>::empty()) == Seq::<char>::empty());
    assert(frames_text(seq![f]) =~= frame_line(f));
    let line = frame_line(f);
    let head = indent(f.depth) + seq![status_char(f.result), ' '];
    let tail = decimal(f.data.len()) + " data bytes]\n"@;
    let mid = base58_text(f.program_id@) + " ["@ + decimal(f.compute_units_consumed as nat) + "cu, "@
        + decimal(f.accounts.len()) + " accounts, "@;
    assert(line =~= head + mid + tail);
    assert(line.subrange(line.len() - tail.len(), line.len() as int) =~= tail);
    assert forall|c: int| 0 <= c < 2 * f.depth implies #[trigger] line[c] == ' ' by {
        assert(line[c] == head[c]);
    }
    assert(line[2 * f.depth] == head[2 * f.depth]);
    assert(line[2 * f.depth + 1] == head[2 * f.depth + 1]);
}

/// In the rendered tree, trace entry `j` (one the tree holds) has a line of
/// its own, after the lines of the entries before it: two spaces per level
/// of its stack depth, `✓` exactly when its result is 0 and `✗` otherwise,
/// a space, and at the end the length of its instruction data followed by
/// ` data bytes]` and a newline.
pub proof fn law_rendered_line_of_entry(s: Seq<ExecutedInstruction>, k: int, j: int, text: Seq<char>)
    requires
        0 <= j < k <= s.len(),
        text == frames_text(s.take(k).map_values(|e: ExecutedInstruction| frame_of(e))),
    ensures
        exists|before: Seq<char>, line: Seq<char>, after: Seq<char>|
            {
                &&& text == before + line + after
                &&& before == frames_text(
                    s.take(j).map_values(|e: ExecutedInstruction| frame_of(e)),
                )
                &&& forall|c: int| 0 <= c < 2 * s[j].stack_depth ==> #[trigger] line[c] == ' '
                &&& (s[j].result == 0 ==> line[2 * s[j].stack_depth] == '\u{2713}')
                &&& (s[j].result != 0 ==> line[2 * s[j].stack_depth] == '\u{2717}')
                &&& line[2 * s[j].stack_depth + 1] == ' '
                &&& line.len() >= (decimal(s[j].instruction.data@.len()) + " data bytes]\n"@).len()
                &&& line.subrange(
                    line.len() - (decimal(s[j].instruction.data@.len()) + " data bytes]\n"@).len(),
                    line.len() as int,
                ) == decimal(s[j].instruction.data@.len()) + " data bytes]\n"@
            },
{
    let fs = s.take(k).map_values(|e: ExecutedInstruction| frame_of(e));
    assert(fs[j] == frame_of(s[j]));
    law_each_frame_has_its_line(fs, j);
    assert(fs.take(j) =~= s.take(j).map_values(|e: ExecutedInstruction| frame_of(e)));
    let before = frames_text(fs.take(j));
    let line = frame_line(fs[j]);
    let after = frames_text(fs.skip(j + 1));
    assert(text == before + line + after);
}

/// Appends the line of `node`, at `depth`, then the lines of its subtree.
fn render(node: &CpiNode, depth: usize, out: &mut String)
    requires
        fits_u8(*node, depth as int),
    ensures
        final(out)@ == old(out)@ + frames_text(flatten_node(*node, depth as int)),
    decreases node,
{
    let ghost start = out@;
    let mut k: usize = 0;
    while k < depth
        invariant
            k <= depth,
            out@ == start + indent(k as int),
        decreases depth - k,
    {
        out.append("  ");
        proof {
            reveal_strlit("  ");
        }
        k = k + 1;
        assert(out@ =~= start + indent(k as int));
    }
    let status = if node.result == 0 {
        '\u{2713}'
    } else {
        '\u{2717}'
    };
    push_char(out, status);
    push_char(out, ' ');
    let address = address_text(&node.program_id);
    out.append(address.as_str());
    out.append(" [");
    push_decimal(out, node.compute_units_consumed);
    out.append("cu, ");
    push_decimal(out, node.accounts.len() as u64);
    out.append(" accounts, ");
    push_decimal(out, node.data.len() as u64);
    out.append(" data bytes]\n");
    let ghost frame = node_frame(*node, depth as int);
    assert(out@ =~= start + frame_line(frame));
    assert(frames_text(seq![frame]) =~= frame_line(frame)) by {
        assert(seq![frame].drop_last() =~= Seq::<Frame>::empty());
        assert(seq![frame].last() == frame);
        assert(frames_text(Seq::<Frame>::empty()) == Seq::<char>::empty());
        assert(Seq::<char>::empty() + frame_line(frame) =~= frame_line(frame));
    }
    let ghost head = out@;
    let mut i: usize = 0;
    assert(node.children@.take(0) =~= Seq::<CpiNode>::empty());
    while i < node.children.len()
        invariant
            i <= node.children@.len(),
            fits_u8(*node, depth as int),
            out@ == head + frames_text(flatten(node.children@.take(i as int), depth + 1)),
        decreases node.children@.len() - i,
    {
        let child = &node.children[i];
        assert(fits_u8(node.children@[i as int], depth + 1));
        let ghost before = out@;
        render(child, depth + 1, out);
        proof {
            let taken = node.children@.take(i as int);
            assert(node.children@.take(i + 1) =~= taken.push(*child));
            lemma_flatten_push(taken, *child, depth + 1);
            lemma_frames_text_concat(
                flatten(taken, depth + 1),
                flatten_node(*child, depth + 1),
            );
        }
        i = i + 1;
    }
    proof {
        assert(node.children@.take(i as int) =~= node.children@);
        lemma_frames_text_concat(seq![frame], flatten(node.children@, depth + 1));
    }
}

impl ExecutionResult {
    /// Render the CPI tree as an indented call tree, one line per frame.
    pub fn pretty_cpi_tree(&self) -> (text: String)
        requires
            depth_fits(self.trace(), 0, 0),
        ensures
            text@ == frames_text(
                self.trace().take(tree_extent(self.trace()) as int).map_values(
                    |e: ExecutedInstruction| frame_of(e),
                ),
            ),
    {
        let tree = self.cpi_tree();
        let mut out = String::new();
        let mut i: usize = 0;
        assert(tree@.take(0) =~= Seq::<CpiNode>::empty());
        while i < tree.len()
            invariant
                i <= tree@.len(),
                forall|j: int| 0 <= j < tree@.len() ==> fits_u8(#[trigger] tree@[j], 0),
                out@ == frames_text(flatten(tree@.take(i as int), 0)),
            decreases tree@.len() - i,
        {
            let node = &tree[i];
            render(node, 0, &mut out);
            proof {
                let taken = tree@.take(i as int);
                assert(tree@.take(i + 1) =~= taken.push(*node));
                lemma_flatten_push(taken, *node, 0);
                lemma_frames_text_concat(flatten(taken, 0), flatten_node(*node, 0));
            }
            i = i + 1;
        }
        assert(tree@.take(i as int) =~= tree@);
        out
    }
}

} // verus!
