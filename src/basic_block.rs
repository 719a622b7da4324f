//! Restructures a function's flat instruction list into basic blocks with
//! resolved successor edges.
use vstd::prelude::*;
use crate::ir::{Argument, Code, EffectOp, Function, Instruction, Program, Type};

verus! {

/// A maximal straight-line run of instructions, entered only at its first
/// instruction, with the indices of its successor blocks.
#[derive(Debug)]
pub struct BasicBlock {
    pub label: Option<String>,
    pub instrs: Vec<Instruction>,
    pub exit: Vec<usize>,
}

/// A function as a control-flow graph of basic blocks; block 0 is the entry.
#[derive(Debug)]
pub struct BBFunction {
    pub name: String,
    pub args: Vec<Argument>,
    pub return_type: Option<Type>,
    pub blocks: Vec<BasicBlock>,
}

/// A program of functions in basic-block form.
#[derive(Debug)]
pub struct BBProgram {
    pub functions: Vec<BBFunction>,
}

/// A jump or branch names a label that its function never defines.
#[derive(Debug)]
pub enum BuildError {
    UndefinedLabel { function: String, label: String },
}

/// The instructions of a flat body with its labels left out.
pub open spec fn non_labels(code: Seq<Code>) -> Seq<Instruction>
    decreases code.len(),
{
    if code.len() == 0 {
        Seq::empty()
    } else {
        let rest = non_labels(code.drop_last());
        match code.last() {
            Code::Label(_) => rest,
            Code::Instr(i) => rest.push(i),
        }
    }
}

/// A block's label and instructions.
pub open spec fn block_shape(b: BasicBlock) -> (Option<String>, Seq<Instruction>) {
    (b.label, b.instrs@)
}

/// The blocks closed so far, the label of the block under way, and its
/// instructions so far.
pub type PartitionState = (Seq<(Option<String>, Seq<Instruction>)>, Option<String>, Seq<Instruction>);

/// Takes in one more entry of a flat body: a label starts a new block (the
/// one under way is closed unless it is empty and unlabelled); an
/// instruction joins the block under way, and a `jmp`, `br` or `ret` closes
/// it.
pub open spec fn partition_step(st: PartitionState, c: Code) -> PartitionState {
    let (blocks, label, cur) = st;
    match c {
        Code::Label(l) => if label is Some || cur.len() > 0 {
            (blocks.push((label, cur)), Some(l), Seq::empty())
        } else {
            (blocks, Some(l), Seq::empty())
        },
        Code::Instr(ins) => if ins.is_terminator() {
            (blocks.push((label, cur.push(ins))), None, Seq::empty())
        } else {
            (blocks, label, cur.push(ins))
        },
    }
}

/// The state after taking in all of `code`.
pub open spec fn partition_state(code: Seq<Code>) -> PartitionState
    decreases code.len(),
{
    if code.len() == 0 {
        (Seq::empty(), None, Seq::empty())
    } else {
        partition_step(partition_state(code.drop_last()), code.last())
    }
}

/// The blocks of a flat body, each with its label and instructions: the
/// block under way at the end is kept unless it is empty and unlabelled and
/// another block exists.
pub open spec fn partition_spec(code: Seq<Code>) -> Seq<(Option<String>, Seq<Instruction>)> {
    let (blocks, label, cur) = partition_state(code);
    if label is Some || cur.len() > 0 || blocks.len() == 0 {
        blocks.push((label, cur))
    } else {
        blocks
    }
}

/// No block holds a `jmp`, `br` or `ret` anywhere but last.
pub open spec fn terminators_last(blocks: Seq<BasicBlock>) -> bool {
    forall|b: int, x: int|
        0 <= b < blocks.len() && 0 <= x < blocks[b].instrs@.len() - 1 ==> !(
        #[trigger] blocks[b].instrs@[x]).is_terminator()
}

/// The instructions of a sequence of blocks, block after block.
pub open spec fn flatten(blocks: Seq<BasicBlock>) -> Seq<Instruction>
    decreases blocks.len(),
{
    if blocks.len() == 0 {
        Seq::empty()
    } else {
        flatten(blocks.drop_last()) + blocks.last().instrs@
    }
}

pub open spec fn is_label(c: Code, l: Seq<char>) -> bool {
    match c {
        Code::Label(m) => m@ == l,
        _ => false,
    }
}

/// The flat body holds a `Label` instruction named `l`.
pub open spec fn defines_label(code: Seq<Code>, l: Seq<char>) -> bool {
    exists|j: int| 0 <= j < code.len() && #[trigger] is_label(code[j], l)
}

/// Entry `j` of the body is an instruction whose `k`-th label is not defined.
pub open spec fn target_undefined(code: Seq<Code>, j: int, k: int) -> bool {
    0 <= j < code.len() && match code[j] {
        Code::Instr(ins) => 0 <= k < ins.label_targets().len() && !defines_label(
            code,
            ins.label_targets()[k]@,
        ),
        _ => false,
    }
}

/// Some instruction of the body (a jump, a branch, a call) names a label
/// that is not defined.
pub open spec fn has_undefined_target(code: Seq<Code>) -> bool {
    exists|j: int, k: int| #[trigger] target_undefined(code, j, k)
}

/// The labels of a sequence of blocks, block by block.
pub open spec fn labels_of(blocks: Seq<BasicBlock>) -> Seq<Option<String>> {
    blocks.map_values(|b: BasicBlock| b.label)
}

pub open spec fn has_label(lab: Option<String>, l: Seq<char>) -> bool {
    lab matches Some(m) && m@ == l
}

/// Some block carries label `l`.
pub open spec fn labeled(labels: Seq<Option<String>>, l: Seq<char>) -> bool {
    exists|j: int| 0 <= j < labels.len() && #[trigger] has_label(labels[j], l)
}

/// Block `j` is the first block that carries label `l`.
pub open spec fn resolves(labels: Seq<Option<String>>, l: Seq<char>, j: int) -> bool {
    &&& 0 <= j < labels.len()
    &&& has_label(labels[j], l)
    &&& forall|i: int| 0 <= i < j ==> !#[trigger] has_label(labels[i], l)
}

/// `exit` is the successor list of block `i`, whose instructions are
/// `instrs`, among blocks labelled `labels`.
pub open spec fn exit_for(
    labels: Seq<Option<String>>,
    instrs: Seq<Instruction>,
    i: int,
    exit: Seq<usize>,
) -> bool {
    if instrs.len() > 0 && instrs.last().is_terminator() {
        let t = instrs.last();
        if t matches Instruction::Effect { op: EffectOp::Ret, .. } {
            exit.len() == 0
        } else {
            &&& exit.len() == t.label_targets().len()
            &&& forall|k: int|
                0 <= k < exit.len() ==> resolves(labels, t.label_targets()[k]@, #[trigger] exit[k] as int)
        }
    } else if i + 1 < labels.len() {
        exit == seq![(i + 1) as usize]
    } else {
        exit.len() == 0
    }
}

/// The successors of block `i` are those its last instruction calls for.
pub open spec fn exits_ok(blocks: Seq<BasicBlock>, i: int) -> bool {
    exit_for(labels_of(blocks), blocks[i].instrs@, i, blocks[i].exit@)
}

/// The block's last instruction is a `ret`.
pub open spec fn ends_in_ret(instrs: Seq<Instruction>) -> bool {
    instrs.len() > 0 && instrs.last() matches Instruction::Effect { op: EffectOp::Ret, .. }
}

/// Every block's successors are resolved; there is at least one block.
pub open spec fn blocks_wf(blocks: Seq<BasicBlock>) -> bool {
    &&& blocks.len() > 0
    &&& forall|i: int| 0 <= i < blocks.len() ==> #[trigger] exits_ok(blocks, i)
}

/// Every target of `ins`, if it is a terminator, is defined in `code`.
pub open spec fn targets_defined(code: Seq<Code>, ins: Instruction) -> bool {
    ins.is_terminator() ==> forall|k: int|
        0 <= k < ins.label_targets().len() ==> defines_label(code, #[trigger] ins.label_targets()[k]@)
}

/// Every target of `ins`, if it is a terminator, labels some block.
pub open spec fn targets_labeled(labels: Seq<Option<String>>, ins: Instruction) -> bool {
    ins.is_terminator() ==> forall|k: int|
        0 <= k < ins.label_targets().len() ==> labeled(labels, #[trigger] ins.label_targets()[k]@)
}

/// A label of the body is carried by a block or by the block under way.
pub open spec fn label_kept(labels: Seq<Option<String>>, cur: Option<String>, c: Code) -> bool {
    match c {
        Code::Label(m) => labeled(labels, m@) || has_label(cur, m@),
        _ => true,
    }
}

impl BBFunction {
    pub open spec fn wf(&self) -> bool {
        blocks_wf(self.blocks@)
    }
}

impl BBProgram {
    pub open spec fn wf(&self) -> bool {
        forall|i: int| 0 <= i < self.functions@.len() ==> #[trigger] self.functions@[i].wf()
    }
}

/// Whether the flat body holds a `Label` named `l`.
fn find_label(code: &Vec<Code>, l: &String) -> (r: bool)
    ensures
        r == defines_label(code@, l@),
{
    let mut j: usize = 0;
    while j < code.len()
        invariant
            j <= code@.len(),
            forall|q: int| 0 <= q < j ==> !is_label(#[trigger] code@[q], l@),
        decreases code.len() - j,
    {
        let c = &code[j];
        match c {
            Code::Label(m) => {
                if m.eq(l) {
                    assert(is_label(code@[j as int], l@));
                    return true;
                }
            },
            Code::Instr(_) => {},
        }
        j = j + 1;
    }
    false
}

/// The first label of a jump or branch in the body that no `Label` defines.
fn first_undefined_target(code: &Vec<Code>) -> (r: Option<String>)
    ensures
        r is None <==> !has_undefined_target(code@),
        r matches Some(l) ==> !defines_label(code@, l@),
{
    let mut j: usize = 0;
    while j < code.len()
        invariant
            j <= code@.len(),
            forall|q: int, k: int| 0 <= q < j ==> !#[trigger] target_undefined(code@, q, k),
        decreases code.len() - j,
    {
        if let Code::Instr(ins) = &code[j] {
            if !(match ins {
                Instruction::Constant { .. } => true,
                _ => false,
            }) {
                let ts = ins.targets();
                let mut k: usize = 0;
                while k < ts.len()
                    invariant
                        j < code@.len(),
                        code@[j as int] == Code::Instr(*ins),
                        ts@ == ins.label_targets(),
                        k <= ts@.len(),
                        forall|q: int, k2: int|
                            0 <= q < j ==> !#[trigger] target_undefined(code@, q, k2),
                        forall|k2: int| 0 <= k2 < k ==> !#[trigger] target_undefined(code@, j as int, k2),
                    decreases ts.len() - k,
                {
                    if !find_label(code, &ts[k]) {
                        assert(target_undefined(code@, j as int, k as int));
                        return Some(ts[k].clone());
                    }
                    k = k + 1;
                }
                assert forall|k2: int| !#[trigger] target_undefined(code@, j as int, k2) by {
                    if 0 <= k2 < k {
                    }
                }
            }
        }
        j = j + 1;
    }
    None
}

fn new_block(label: Option<String>, instrs: Vec<Instruction>) -> (r: BasicBlock)
    ensures
        r.label == label,
        r.instrs@ == instrs@,
        r.exit@.len() == 0,
{
    BasicBlock { label, instrs, exit: Vec::new() }
}

proof fn lemma_flatten_push(blocks: Seq<BasicBlock>, b: BasicBlock)
    ensures
        flatten(blocks.push(b)) == flatten(blocks) + b.instrs@,
{
    assert(blocks.push(b).drop_last() =~= blocks);
}

proof fn lemma_labeled_push(labels: Seq<Option<String>>, x: Option<String>, l: Seq<char>)
    ensures
        labeled(labels, l) ==> labeled(labels.push(x), l),
        has_label(x, l) ==> labeled(labels.push(x), l),
{
    if labeled(labels, l) {
        let j = choose|j: int| 0 <= j < labels.len() && #[trigger] has_label(labels[j], l);
        assert(has_label(labels.push(x)[j], l));
    }
    if has_label(x, l) {
        assert(has_label(labels.push(x)[labels.len() as int], l));
    }
}

/// Splits a flat body into blocks, with no successors yet.
fn partition(code: Vec<Code>) -> (r: Vec<BasicBlock>)
    requires
        !has_undefined_target(code@),
    ensures
        r@.len() > 0,
        flatten(r@) == non_labels(code@),
        r@.map_values(|b: BasicBlock| block_shape(b)) == partition_spec(code@),
        terminators_last(r@),
        forall|b: int, x: int|
            0 <= b < r@.len() && 0 <= x < r@[b].instrs@.len() ==> targets_labeled(
                labels_of(r@),
                #[trigger] r@[b].instrs@[x],
            ),
{
    let ghost orig = code@;
    let ghost n = orig.len();
    let mut rest = code;
    let mut blocks: Vec<BasicBlock> = Vec::new();
    let mut cur_label: Option<String> = None;
    let mut cur: Vec<Instruction> = Vec::new();
    assert(blocks@.map_values(|b: BasicBlock| block_shape(b)) =~= Seq::<(Option<String>, Seq<Instruction>)>::empty());
    assert(orig.subrange(0, 0) =~= Seq::<Code>::empty());
    while rest.len() > 0
        invariant
            n == orig.len(),
            rest@.len() <= n,
            rest@ == orig.subrange(n - rest@.len(), n as int),
            flatten(blocks@) + cur@ == non_labels(orig.subrange(0, n - rest@.len())),
            !has_undefined_target(orig),
            forall|j: int|
                0 <= j < n - rest@.len() ==> label_kept(labels_of(blocks@), cur_label, #[trigger] orig[j]),
            forall|b: int, x: int|
                0 <= b < blocks@.len() && 0 <= x < blocks@[b].instrs@.len() ==> targets_defined(
                    orig,
                    #[trigger] blocks@[b].instrs@[x],
                ),
            forall|x: int| 0 <= x < cur@.len() ==> targets_defined(orig, #[trigger] cur@[x]),
            partition_state(orig.subrange(0, n - rest@.len())) == (
            blocks@.map_values(|b: BasicBlock| block_shape(b)),
            cur_label,
            cur@,
            ),
            terminators_last(blocks@),
            forall|x: int| 0 <= x < cur@.len() ==> !(#[trigger] cur@[x]).is_terminator(),
        decreases rest@.len(),
    {
        let ghost consumed = n - rest@.len();
        let ghost old_blocks = blocks@;
        let ghost old_cur = cur@;
        let ghost old_label = cur_label;
        let ghost old_rest = rest@;
        let c = rest.remove(0);
        assert(c == old_rest[0]);
        assert(c == orig[consumed]);
        assert(rest@ =~= orig.subrange(consumed + 1, n as int));
        assert(orig.subrange(0, consumed + 1).drop_last() =~= orig.subrange(0, consumed));
        match c {
            Code::Label(l) => {
                let ghost lv = l@;
                if cur_label.is_some() || cur.len() > 0 {
                    let b = new_block(cur_label, cur);
                    blocks.push(b);
                    proof {
                        assert(blocks@.map_values(|b: BasicBlock| block_shape(b)) =~= old_blocks.map_values(|b: BasicBlock| block_shape(b)).push(block_shape(b)));
                        lemma_flatten_push(old_blocks, b);
                        assert(labels_of(blocks@) =~= labels_of(old_blocks).push(old_label));
                        assert forall|j: int| 0 <= j < consumed implies label_kept(
                            labels_of(blocks@),
                            Some(l),
                            #[trigger] orig[j],
                        ) by {
                            if let Code::Label(m) = orig[j] {
                                lemma_labeled_push(labels_of(old_blocks), old_label, m@);
                            }
                        }
                    }
                } else {
                    proof {
                        assert(cur@.len() == 0);
                        assert forall|j: int| 0 <= j < consumed implies label_kept(
                            labels_of(blocks@),
                            Some(l),
                            #[trigger] orig[j],
                        ) by {}
                    }
                }
                cur_label = Some(l);
                cur = Vec::new();
                assert(label_kept(labels_of(blocks@), cur_label, orig[consumed]));
            },
            Code::Instr(ins) => {
                proof {
                    assert forall|k: int|
                        0 <= k < ins.label_targets().len() && ins.is_terminator() implies defines_label(
                        orig,
                        #[trigger] ins.label_targets()[k]@,
                    ) by {
                        assert(!target_undefined(orig, consumed, k));
                    }
                }
                let t = ins.terminates();
                cur.push(ins);
                if t {
                    let b = new_block(cur_label, cur);
                    blocks.push(b);
                    proof {
                        assert(blocks@.map_values(|b: BasicBlock| block_shape(b)) =~= old_blocks.map_values(|b: BasicBlock| block_shape(b)).push(block_shape(b)));
                        lemma_flatten_push(old_blocks, b);
                        assert(labels_of(blocks@) =~= labels_of(old_blocks).push(old_label));
                        assert forall|j: int| 0 <= j < consumed + 1 implies label_kept(
                            labels_of(blocks@),
                            None,
                            #[trigger] orig[j],
                        ) by {
                            if let Code::Label(m) = orig[j] {
                                lemma_labeled_push(labels_of(old_blocks), old_label, m@);
                            }
                        }
                        assert forall|b2: int, x: int|
                            0 <= b2 < blocks@.len() && 0 <= x < blocks@[b2].instrs@.len() implies targets_defined(
                            orig,
                            #[trigger] blocks@[b2].instrs@[x],
                        ) by {
                            if b2 == old_blocks.len() {
                                assert(blocks@[b2].instrs@ == old_cur.push(ins));
                            }
                        }
                    }
                    cur_label = None;
                    cur = Vec::new();
                }
            },
        }
    }
    assert(orig.subrange(0, n as int) =~= orig);
    let ghost old_blocks = blocks@;
    let ghost old_label = cur_label;
    if cur_label.is_some() || cur.len() > 0 || blocks.len() == 0 {
        let b = new_block(cur_label, cur);
        blocks.push(b);
        proof {
            assert(blocks@.map_values(|b: BasicBlock| block_shape(b)) =~= old_blocks.map_values(|b: BasicBlock| block_shape(b)).push(block_shape(b)));
            lemma_flatten_push(old_blocks, b);
            assert(labels_of(blocks@) =~= labels_of(old_blocks).push(old_label));
            assert forall|j: int| 0 <= j < n implies label_kept(
                labels_of(blocks@),
                None,
                #[trigger] orig[j],
            ) by {
                if let Code::Label(m) = orig[j] {
                    lemma_labeled_push(labels_of(old_blocks), old_label, m@);
                }
            }
        }
    } else {
        assert(cur@ =~= Seq::<Instruction>::empty());
        assert(flatten(blocks@) + cur@ =~= flatten(blocks@));
    }
    proof {
        assert forall|l: Seq<char>| defines_label(orig, l) implies labeled(labels_of(blocks@), l) by {
            let j = choose|j: int| 0 <= j < orig.len() && #[trigger] is_label(orig[j], l);
            assert(label_kept(labels_of(blocks@), None, orig[j]));
        }
        assert forall|b: int, x: int|
            0 <= b < blocks@.len() && 0 <= x < blocks@[b].instrs@.len() implies targets_labeled(
            labels_of(blocks@),
            #[trigger] blocks@[b].instrs@[x],
        ) by {
            let ins = blocks@[b].instrs@[x];
            assert(targets_defined(orig, ins));
        }
    }
    blocks
}

/// The first block that carries label `l`.
pub fn resolve(blocks: &Vec<BasicBlock>, l: &String) -> (r: Option<usize>)
    ensures
        r matches Some(j) ==> resolves(labels_of(blocks@), l@, j as int),
        r is None ==> !labeled(labels_of(blocks@), l@),
{
    let ghost labels = labels_of(blocks@);
    let mut j: usize = 0;
    while j < blocks.len()
        invariant
            j <= blocks@.len(),
            labels == labels_of(blocks@),
            forall|i: int| 0 <= i < j ==> !#[trigger] has_label(labels[i], l@),
        decreases blocks.len() - j,
    {
        match &blocks[j].label {
            Some(m) => {
                if m.eq(l) {
                    return Some(j);
                }
            },
            None => {},
        }
        j = j + 1;
    }
    None
}

/// The successor list of each block.
fn compute_exits(blocks: &Vec<BasicBlock>) -> (r: Vec<Vec<usize>>)
    requires
        forall|b: int, x: int|
            0 <= b < blocks@.len() && 0 <= x < blocks@[b].instrs@.len() ==> targets_labeled(
                labels_of(blocks@),
                #[trigger] blocks@[b].instrs@[x],
            ),
    ensures
        r@.len() == blocks@.len(),
        forall|i: int|
            0 <= i < blocks@.len() ==> exit_for(
                labels_of(blocks@),
                blocks@[i].instrs@,
                i,
                #[trigger] r@[i]@,
            ),
{
    let ghost labels = labels_of(blocks@);
    let mut out: Vec<Vec<usize>> = Vec::new();
    let mut i: usize = 0;
    while i < blocks.len()
        invariant
            i <= blocks@.len(),
            out@.len() == i,
            labels == labels_of(blocks@),
            forall|b: int, x: int|
                0 <= b < blocks@.len() && 0 <= x < blocks@[b].instrs@.len() ==> targets_labeled(
                    labels,
                    #[trigger] blocks@[b].instrs@[x],
                ),
            forall|q: int| 0 <= q < i ==> exit_for(labels, blocks@[q].instrs@, q, #[trigger] out@[q]@),
        decreases blocks.len() - i,
    {
        let instrs = &blocks[i].instrs;
        let n = instrs.len();
        let mut e: Vec<usize> = Vec::new();
        if n > 0 && instrs[n - 1].terminates() {
            let t = &instrs[n - 1];
            assert(*t == instrs@.last());
            let is_ret = match t {
                Instruction::Effect { op: EffectOp::Ret, .. } => true,
                _ => false,
            };
            if !is_ret {
                let ts = t.targets();
                assert(targets_labeled(labels, blocks@[i as int].instrs@[n - 1]));
                let mut k: usize = 0;
                while k < ts.len()
                    invariant
                        k <= ts@.len(),
                        e@.len() == k,
                        ts@ == t.label_targets(),
                        t.is_terminator(),
                        labels == labels_of(blocks@),
                        targets_labeled(labels, *t),
                        forall|k2: int|
                            0 <= k2 < k ==> resolves(labels, ts@[k2]@, #[trigger] e@[k2] as int),
                    decreases ts.len() - k,
                {
                    assert(labeled(labels, ts@[k as int]@));
                    match resolve(blocks, &ts[k]) {
                        Some(j) => e.push(j),
                        None => {
                            proof {
                                assert(false);
                            }
                        },
                    }
                    k = k + 1;
                }
            }
        } else if i + 1 < blocks.len() {
            e.push(i + 1);
            assert(e@ =~= seq![(i + 1) as usize]);
        }
        out.push(e);
        i = i + 1;
    }
    out
}

pub proof fn lemma_flatten_same(a: Seq<BasicBlock>, b: Seq<BasicBlock>)
    requires
        a.len() == b.len(),
        forall|i: int| 0 <= i < a.len() ==> #[trigger] a[i].instrs@ == b[i].instrs@,
    ensures
        flatten(a) == flatten(b),
    decreases a.len(),
{
    if a.len() > 0 {
        lemma_flatten_same(a.drop_last(), b.drop_last());
    }
}

/// Gives each block its successor list.
fn attach(blocks: Vec<BasicBlock>, exits: Vec<Vec<usize>>) -> (r: Vec<BasicBlock>)
    requires
        exits@.len() == blocks@.len(),
    ensures
        r@.len() == blocks@.len(),
        forall|i: int|
            0 <= i < r@.len() ==> (#[trigger] r@[i]).label == blocks@[i].label && r@[i].instrs
                == blocks@[i].instrs && r@[i].exit == exits@[i],
{
    let ghost ob = blocks@;
    let ghost oe = exits@;
    let ghost n = ob.len();
    let mut bs = blocks;
    let mut es = exits;
    let mut out: Vec<BasicBlock> = Vec::new();
    while bs.len() > 0
        invariant
            n == ob.len(),
            n == oe.len(),
            bs@.len() == es@.len(),
            out@.len() + bs@.len() == n,
            bs@ == ob.subrange(out@.len() as int, n as int),
            es@ == oe.subrange(out@.len() as int, n as int),
            forall|i: int|
                0 <= i < out@.len() ==> (#[trigger] out@[i]).label == ob[i].label && out@[i].instrs
                    == ob[i].instrs && out@[i].exit == oe[i],
        decreases bs@.len(),
    {
        let ghost m = out@.len() as int;
        let b = bs.remove(0);
        let e = es.remove(0);
        assert(b == ob[m] && e == oe[m]);
        out.push(BasicBlock { label: b.label, instrs: b.instrs, exit: e });
        assert(bs@ =~= ob.subrange(m + 1, n as int));
        assert(es@ =~= oe.subrange(m + 1, n as int));
    }
    out
}

/// Builds the control-flow graph of one function. Fails exactly when a jump
/// or branch targets a label that the function never defines.
pub fn build_function(f: Function) -> (r: Result<BBFunction, BuildError>)
    ensures
        r is Err <==> has_undefined_target(f.instrs@),
        r matches Err(BuildError::UndefinedLabel { function, label }) ==> function@ == f.name@
            && !defines_label(f.instrs@, label@),
        r matches Ok(bf) ==> {
            &&& bf.wf()
            &&& bf.name == f.name
            &&& bf.args == f.args
            &&& bf.return_type == f.return_type
            &&& flatten(bf.blocks@) == non_labels(f.instrs@)
            &&& bf.blocks@.map_values(|b: BasicBlock| block_shape(b)) == partition_spec(f.instrs@)
            &&& terminators_last(bf.blocks@)
        },
{
    match first_undefined_target(&f.instrs) {
        Some(label) => {
            return Err(BuildError::UndefinedLabel { function: f.name, label });
        },
        None => {},
    }
    let Function { name, args, return_type, instrs } = f;
    let blocks = partition(instrs);
    let exits = compute_exits(&blocks);
    let ghost old_blocks = blocks@;
    let blocks = attach(blocks, exits);
    proof {
        assert(labels_of(blocks@) =~= labels_of(old_blocks));
        lemma_flatten_same(blocks@, old_blocks);
        assert(blocks@.map_values(|b: BasicBlock| block_shape(b)) =~= old_blocks.map_values(|b: BasicBlock| block_shape(b)));
        assert forall|i: int| 0 <= i < blocks@.len() implies #[trigger] exits_ok(blocks@, i) by {
            assert(exit_for(labels_of(old_blocks), old_blocks[i].instrs@, i, exits@[i]@));
        }
    }
    Ok(BBFunction { name, args, return_type, blocks })
}

/// Function `i` of `p` targets an undefined label.
pub open spec fn function_undefined_target(p: Program, i: int) -> bool {
    0 <= i < p.functions@.len() && has_undefined_target(p.functions@[i].instrs@)
}

/// Builds the control-flow graph of every function, in order. Fails exactly
/// when some function targets a label it never defines.
pub fn build_program(p: Program) -> (r: Result<BBProgram, BuildError>)
    ensures
        r is Err <==> exists|i: int| #[trigger] function_undefined_target(p, i),
        r matches Ok(bp) ==> {
            &&& bp.wf()
            &&& bp.functions@.len() == p.functions@.len()
            &&& forall|i: int|
                0 <= i < p.functions@.len() ==> {
                    let bf = #[trigger] bp.functions@[i];
                    let f = p.functions@[i];
                    &&& bf.name == f.name
                    &&& bf.args == f.args
                    &&& bf.return_type == f.return_type
                    &&& flatten(bf.blocks@) == non_labels(f.instrs@)
                    &&& bf.blocks@.map_values(|b: BasicBlock| block_shape(b)) == partition_spec(f.instrs@)
                    &&& terminators_last(bf.blocks@)
                }
        },
{
    let ghost orig = p.functions@;
    let ghost n = orig.len();
    let mut rest = p.functions;
    let mut out: Vec<BBFunction> = Vec::new();
    while rest.len() > 0
        invariant
            n == orig.len(),
            orig == p.functions@,
            out@.len() + rest@.len() == n,
            rest@ == orig.subrange(out@.len() as int, n as int),
            forall|i: int| 0 <= i < out@.len() ==> !#[trigger] function_undefined_target(p, i),
            forall|i: int|
                0 <= i < out@.len() ==> {
                    let bf = #[trigger] out@[i];
                    let f = orig[i];
                    &&& bf.wf()
                    &&& bf.name == f.name
                    &&& bf.args == f.args
                    &&& bf.return_type == f.return_type
                    &&& flatten(bf.blocks@) == non_labels(f.instrs@)
                    &&& bf.blocks@.map_values(|b: BasicBlock| block_shape(b)) == partition_spec(f.instrs@)
                    &&& terminators_last(bf.blocks@)
                },
        decreases rest@.len(),
    {
        let ghost m = out@.len() as int;
        let f = rest.remove(0);
        assert(f == orig[m]);
        assert(rest@ =~= orig.subrange(m + 1, n as int));
        match build_function(f) {
            Ok(bf) => out.push(bf),
            Err(e) => {
                assert(function_undefined_target(p, m));
                return Err(e);
            },
        }
    }
    proof {
        assert forall|i: int| !#[trigger] function_undefined_target(p, i) by {}
    }
    Ok(BBProgram { functions: out })
}

/// Every successor of a block of a well-formed function is a block of that
/// function, and a block that ends in `ret` has no successor.
pub proof fn lemma_successors_in_range(f: BBFunction)
    requires
        f.wf(),
    ensures
        forall|i: int, k: int|
            0 <= i < f.blocks@.len() && 0 <= k < f.blocks@[i].exit@.len() ==> #[trigger] f.blocks@[i].exit@[k]
                < f.blocks@.len(),
        forall|i: int|
            0 <= i < f.blocks@.len() && #[trigger] f.blocks@[i].instrs@.len() > 0
                && ends_in_ret(f.blocks@[i].instrs@) ==> f.blocks@[i].exit@.len() == 0,
{
    assert forall|i: int, k: int|
        0 <= i < f.blocks@.len() && 0 <= k < f.blocks@[i].exit@.len() implies #[trigger] f.blocks@[i].exit@[k]
        < f.blocks@.len() by {
        assert(exits_ok(f.blocks@, i));
    }
    assert forall|i: int|
        0 <= i < f.blocks@.len() && #[trigger] f.blocks@[i].instrs@.len() > 0
            && ends_in_ret(f.blocks@[i].instrs@) implies f.blocks@[i].exit@.len() == 0 by {
        assert(exits_ok(f.blocks@, i));
    }
}

} // verus!
