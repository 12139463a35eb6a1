//! Walking Dalvik bytecode: per-method instruction statistics and the references it makes.

use std::collections::BTreeMap;

use vstd::prelude::*;

use crate::error::{Result, UnocRsError};
use crate::sorting::{sorted_unique, strictly_increasing};

verus! {

broadcast use vstd::std_specs::btree::group_btree_axioms, vstd::laws_cmp::group_laws_cmp;

/// One use of a constant-pool index by an instruction.
#[derive(Debug, Clone, Copy, PartialEq, Eq)]
pub struct InstructionReference {
    pub index: u32,
    pub offset_code_unit: u32,
    pub opcode: u8,
}

/// Statistics of one method body.
#[derive(Debug, Clone, PartialEq, Eq)]
pub struct InstructionSummary {
    pub opcode_histogram: BTreeMap<u8, u32>,
    pub string_refs: Vec<u32>,
    pub method_refs: Vec<u32>,
    pub field_refs: Vec<u32>,
    pub type_ref_uses: Vec<InstructionReference>,
    pub method_ref_uses: Vec<InstructionReference>,
    pub field_ref_uses: Vec<InstructionReference>,
    pub branch_count: u32,
    pub return_count: u32,
    pub throw_count: u32,
    pub switch_count: u32,
    pub instruction_count: u32,
}

impl Default for InstructionSummary {
    fn default() -> (r: Self)
        ensures
            r.opcode_histogram@ == Map::<u8, u32>::empty(),
            r.string_refs@ == Seq::<u32>::empty(),
            r.method_refs@ == Seq::<u32>::empty(),
            r.field_refs@ == Seq::<u32>::empty(),
            r.type_ref_uses@ == Seq::<InstructionReference>::empty(),
            r.method_ref_uses@ == Seq::<InstructionReference>::empty(),
            r.field_ref_uses@ == Seq::<InstructionReference>::empty(),
            r.branch_count == 0,
            r.return_count == 0,
            r.throw_count == 0,
            r.switch_count == 0,
            r.instruction_count == 0,
    {
        InstructionSummary {
            opcode_histogram: BTreeMap::new(),
            string_refs: Vec::new(),
            method_refs: Vec::new(),
            field_refs: Vec::new(),
            type_ref_uses: Vec::new(),
            method_ref_uses: Vec::new(),
            field_ref_uses: Vec::new(),
            branch_count: 0,
            return_count: 0,
            throw_count: 0,
            switch_count: 0,
            instruction_count: 0,
        }
    }
}

/// What the walk over a method body has gathered so far.
pub struct Walk {
    pub histogram: Map<u8, u32>,
    pub strings: Seq<u32>,
    pub types: Seq<InstructionReference>,
    pub methods: Seq<InstructionReference>,
    pub fields: Seq<InstructionReference>,
    pub branches: u32,
    pub returns: u32,
    pub throws: u32,
    pub switches: u32,
    pub count: u32,
}

/// The walk before the first instruction.
pub open spec fn walk_start() -> Walk {
    Walk {
        histogram: Map::empty(),
        strings: Seq::empty(),
        types: Seq::empty(),
        methods: Seq::empty(),
        fields: Seq::empty(),
        branches: 0,
        returns: 0,
        throws: 0,
        switches: 0,
        count: 0,
    }
}

/// The opcode byte of code unit `u`.
pub open spec fn opcode_of(u: u16) -> u8 {
    (u % 256) as u8
}

pub open spec fn is_type_ref_opcode(op: u8) -> bool {
    op == 0x1c || op == 0x1f || op == 0x20 || (0x22 <= op <= 0x25)
}

pub open spec fn is_field_ref_opcode(op: u8) -> bool {
    0x52 <= op <= 0x6d
}

pub open spec fn is_method_ref_opcode(op: u8) -> bool {
    (0x6e <= op <= 0x72) || (0x74 <= op <= 0x78) || op == 0xfa || op == 0xfb
}

pub open spec fn is_branch_opcode(op: u8) -> bool {
    0x28 <= op <= 0x2c
}

pub open spec fn is_return_opcode(op: u8) -> bool {
    0x0e <= op <= 0x11
}

pub open spec fn is_switch_opcode(op: u8) -> bool {
    op == 0x2b || op == 0x2c
}

/// The reference an instruction at `cursor` makes through its second code unit, if it has one.
pub open spec fn reference_at(code: Seq<u16>, cursor: int, op: u8) -> Seq<InstructionReference> {
    if cursor + 1 < code.len() {
        seq![InstructionReference { index: code[cursor + 1] as u32, offset_code_unit: cursor as u32, opcode: op }]
    } else {
        Seq::empty()
    }
}

/// The string index an instruction at `cursor` loads, if any.
pub open spec fn string_at(code: Seq<u16>, cursor: int, op: u8) -> Seq<u32> {
    if op == 0x1a && cursor + 1 < code.len() {
        seq![code[cursor + 1] as u32]
    } else if op == 0x1b && cursor + 2 < code.len() {
        seq![(code[cursor + 1] as int + 65536 * code[cursor + 2] as int) as u32]
    } else {
        Seq::empty()
    }
}

/// The walk after counting the instruction at `cursor`.
pub open spec fn step(code: Seq<u16>, cursor: int, w: Walk) -> Walk {
    let op = opcode_of(code[cursor]);
    Walk {
        histogram: w.histogram.insert(op, if w.histogram.contains_key(op) { (w.histogram[op] + 1) as u32 } else { 1 }),
        strings: w.strings + string_at(code, cursor, op),
        types: if is_type_ref_opcode(op) { w.types + reference_at(code, cursor, op) } else { w.types },
        methods: if is_method_ref_opcode(op) { w.methods + reference_at(code, cursor, op) } else { w.methods },
        fields: if is_field_ref_opcode(op) { w.fields + reference_at(code, cursor, op) } else { w.fields },
        branches: if is_branch_opcode(op) { (w.branches + 1) as u32 } else { w.branches },
        returns: if is_return_opcode(op) { (w.returns + 1) as u32 } else { w.returns },
        throws: if op == 0x27 { (w.throws + 1) as u32 } else { w.throws },
        switches: if is_switch_opcode(op) { (w.switches + 1) as u32 } else { w.switches },
        count: (w.count + 1) as u32,
    }
}

/// The number of code units an ordinary instruction with opcode `op` occupies.
pub open spec fn fixed_width(op: u8) -> nat {
    if op == 0x02 || op == 0x05 || op == 0x08 || op == 0x13 || op == 0x15 || op == 0x16 || op == 0x19
        || op == 0x1a || op == 0x1c || op == 0x1f || op == 0x20 || op == 0x22 || op == 0x23 || op == 0x29
        || (0x2d <= op <= 0x3d) || (0x44 <= op <= 0x6d) || (0x90 <= op <= 0xaf) || (0xd0 <= op <= 0xe2)
        || op == 0xfe || op == 0xff {
        2
    } else if op == 0x03 || op == 0x06 || op == 0x09 || op == 0x14 || op == 0x17 || op == 0x1b
        || (0x24 <= op <= 0x26) || (0x2a <= op <= 0x2c) || (0x6e <= op <= 0x72) || (0x74 <= op <= 0x78)
        || op == 0xfc || op == 0xfd {
        3
    } else if op == 0xfa || op == 0xfb {
        4
    } else if op == 0x18 {
        5
    } else {
        1
    }
}

/// The error for a malformed instruction or payload at `cursor`.
pub open spec fn bad_instruction(cursor: int, op: u8) -> UnocRsError {
    UnocRsError::InvalidInstruction { offset_code_unit: cursor as usize, opcode: op }
}

/// The number of code units the instruction or payload at `cursor` occupies, or the error that
/// ends the walk there. Packed-switch, sparse-switch and fill-array-data payloads (opcode `0x00`
/// with high byte 1, 2 or 3) take their size from their header.
pub open spec fn width_at(code: Seq<u16>, cursor: int) -> Result<nat> {
    let op = opcode_of(code[cursor]);
    let w: Result<nat> = if op == 0 {
        let high = code[cursor] / 256;
        if high == 1 || high == 2 || high == 3 {
            if cursor + 1 >= code.len() {
                Err(bad_instruction(cursor, 0))
            } else if high == 1 {
                Ok(4 + 2 * code[cursor + 1] as nat)
            } else if high == 2 {
                Ok(2 + 4 * code[cursor + 1] as nat)
            } else if cursor + 3 >= code.len() {
                Err(bad_instruction(cursor, 0))
            } else {
                let count = code[cursor + 2] as nat + 65536 * code[cursor + 3] as nat;
                let data = code[cursor + 1] as nat * count;
                if data > usize::MAX {
                    Err(bad_instruction(cursor, 0))
                } else {
                    Ok(4 + (data + 1) / 2)
                }
            }
        } else {
            Ok(1)
        }
    } else {
        Ok(fixed_width(op))
    };
    match w {
        Err(e) => Err(e),
        Ok(n) => if cursor + n <= code.len() { Ok(n) } else { Err(bad_instruction(cursor, op)) },
    }
}

/// Walking the code units from `cursor` on, after having gathered `w`.
pub open spec fn walk_from(code: Seq<u16>, cursor: int, w: Walk) -> Result<Walk>
    decreases code.len() - cursor,
{
    if cursor < 0 || cursor >= code.len() {
        Ok(w)
    } else {
        match width_at(code, cursor) {
            Err(e) => Err(e),
            Ok(n) => if n == 0 { Ok(w) } else { walk_from(code, cursor + n, step(code, cursor, w)) },
        }
    }
}

/// The indices used by `refs`, in order.
pub open spec fn indices(refs: Seq<InstructionReference>) -> Seq<u32> {
    refs.map_values(|r: InstructionReference| r.index)
}

/// `sorted` lists the distinct values of `s` in increasing order.
pub open spec fn sorted_set_of(sorted: Seq<u32>, s: Seq<u32>) -> bool {
    strictly_increasing(sorted) && forall|x: u32| sorted.contains(x) <==> s.contains(x)
}

/// `r` is the summary of a complete walk `w`.
pub open spec fn summary_of(r: InstructionSummary, w: Walk) -> bool {
    &&& r.opcode_histogram@ == w.histogram
    &&& sorted_set_of(r.string_refs@, w.strings)
    &&& sorted_set_of(r.method_refs@, indices(w.methods))
    &&& sorted_set_of(r.field_refs@, indices(w.fields))
    &&& r.type_ref_uses@ == w.types
    &&& r.method_ref_uses@ == w.methods
    &&& r.field_ref_uses@ == w.fields
    &&& r.branch_count == w.branches
    &&& r.return_count == w.returns
    &&& r.throw_count == w.throws
    &&& r.switch_count == w.switches
    &&& r.instruction_count == w.count
}

/// Bounds that hold of every walk state reached after `cursor` code units.
pub open spec fn walk_bounded(w: Walk, cursor: int) -> bool {
    &&& w.count <= cursor
    &&& w.branches <= w.count
    &&& w.returns <= w.count
    &&& w.throws <= w.count
    &&& w.switches <= w.count
    &&& forall|k: u8| w.histogram.contains_key(k) ==> w.histogram[k] <= w.count
}

fn fixed_width_of(op: u8) -> (w: usize)
    ensures
        w == fixed_width(op),
{
    if op == 0x02 || op == 0x05 || op == 0x08 || op == 0x13 || op == 0x15 || op == 0x16 || op == 0x19
        || op == 0x1a || op == 0x1c || op == 0x1f || op == 0x20 || op == 0x22 || op == 0x23 || op == 0x29
        || (0x2d <= op && op <= 0x3d) || (0x44 <= op && op <= 0x6d) || (0x90 <= op && op <= 0xaf)
        || (0xd0 <= op && op <= 0xe2) || op == 0xfe || op == 0xff {
        2
    } else if op == 0x03 || op == 0x06 || op == 0x09 || op == 0x14 || op == 0x17 || op == 0x1b
        || (0x24 <= op && op <= 0x26) || (0x2a <= op && op <= 0x2c) || (0x6e <= op && op <= 0x72)
        || (0x74 <= op && op <= 0x78) || op == 0xfc || op == 0xfd {
        3
    } else if op == 0xfa || op == 0xfb {
        4
    } else if op == 0x18 {
        5
    } else {
        1
    }
}

fn opcode_width(code_units: &[u16], cursor: usize, opcode: u8) -> (r: Result<usize>)
    requires
        cursor < code_units@.len(),
        opcode == opcode_of(code_units@[cursor as int]),
    ensures
        match width_at(code_units@, cursor as int) {
            Ok(n) => r == Ok::<usize, UnocRsError>(n as usize),
            Err(e) => r == Err::<usize, UnocRsError>(e),
        },
{
    let len = code_units.len();
    let width: usize = if opcode == 0 {
        let high = code_units[cursor] / 256;
        if high == 1 || high == 2 || high == 3 {
            if cursor + 1 >= len {
                return Err(UnocRsError::InvalidInstruction { offset_code_unit: cursor, opcode: 0 });
            }
            let size = code_units[cursor + 1] as usize;
            if high == 1 {
                4 + 2 * size
            } else if high == 2 {
                2 + 4 * size
            } else {
                if len - cursor <= 3 {
                    return Err(UnocRsError::InvalidInstruction { offset_code_unit: cursor, opcode: 0 });
                }
                let count: u64 = (code_units[cursor + 2] as u64) + 65536 * (code_units[cursor + 3] as u64);
                assert((size as u64) * count <= 65535 * 4294967295) by (nonlinear_arith)
                    requires size <= 65535, count <= 4294967295;
                let data: u64 = (size as u64) * count;
                if data > usize::MAX as u64 {
                    return Err(UnocRsError::InvalidInstruction { offset_code_unit: cursor, opcode: 0 });
                }
                let data = data as usize;
                4 + data / 2 + data % 2
            }
        } else {
            1
        }
    } else {
        fixed_width_of(opcode)
    };
    proof {
        if opcode == 0 && (code_units@[cursor as int] / 256 == 3) {
            let d = (code_units@[cursor + 1] as nat) * (code_units@[cursor + 2] as nat + 65536 * code_units@[cursor + 3] as nat);
            assert((d + 1) / 2 == d / 2 + d % 2);
        }
    }
    if width <= len - cursor {
        Ok(width)
    } else {
        Err(UnocRsError::InvalidInstruction { offset_code_unit: cursor, opcode })
    }
}

fn push_reference(references: &mut Vec<InstructionReference>, code_units: &[u16], cursor: usize, opcode: u8)
    requires
        cursor < code_units@.len(),
        code_units@.len() <= u32::MAX,
    ensures
        final(references)@ == old(references)@ + reference_at(code_units@, cursor as int, opcode),
{
    if cursor + 1 < code_units.len() {
        references.push(InstructionReference {
            index: code_units[cursor + 1] as u32,
            offset_code_unit: cursor as u32,
            opcode,
        });
        assert(final(references)@ =~= old(references)@ + reference_at(code_units@, cursor as int, opcode));
    } else {
        assert(references@ =~= old(references)@ + reference_at(code_units@, cursor as int, opcode));
    }
}

fn reference_indices(refs: &Vec<InstructionReference>) -> (r: Vec<u32>)
    ensures
        r@ == indices(refs@),
{
    let mut r: Vec<u32> = Vec::new();
    let mut i: usize = 0;
    while i < refs.len()
        invariant
            i <= refs.len(),
            r@ == indices(refs@.take(i as int)),
        decreases refs.len() - i,
    {
        r.push(refs[i].index);
        i = i + 1;
        assert(r@ =~= indices(refs@.take(i as int)));
    }
    assert(refs@.take(refs@.len() as int) =~= refs@);
    r
}

/// Walks the instructions of a method body and summarises them: how often each opcode occurs,
/// the string, type, method and field references made (each use with its code-unit offset and
/// opcode), and the counts of branches, returns, throws and switches. Switch and array payloads
/// are skipped whole. The string, method and field index lists are sorted and duplicate-free.
pub fn summarize_code_units(code_units: &[u16]) -> (r: Result<InstructionSummary>)
    requires
        code_units@.len() <= u32::MAX,
    ensures
        match walk_from(code_units@, 0, walk_start()) {
            Ok(w) => r matches Ok(s) && summary_of(s, w),
            Err(e) => r == Err::<InstructionSummary, UnocRsError>(e),
        },
{
    let mut summary = InstructionSummary::default();
    let mut strings: Vec<u32> = Vec::new();
    let mut cursor: usize = 0;
    let ghost total = walk_from(code_units@, 0, walk_start());

    while cursor < code_units.len()
        invariant
            code_units@.len() <= u32::MAX,
            cursor <= code_units@.len(),
            total == walk_from(code_units@, 0, walk_start()),
            walk_bounded(Walk {
                histogram: summary.opcode_histogram@,
                strings: strings@,
                types: summary.type_ref_uses@,
                methods: summary.method_ref_uses@,
                fields: summary.field_ref_uses@,
                branches: summary.branch_count,
                returns: summary.return_count,
                throws: summary.throw_count,
                switches: summary.switch_count,
                count: summary.instruction_count,
            }, cursor as int),
            total == walk_from(code_units@, cursor as int, Walk {
                histogram: summary.opcode_histogram@,
                strings: strings@,
                types: summary.type_ref_uses@,
                methods: summary.method_ref_uses@,
                fields: summary.field_ref_uses@,
                branches: summary.branch_count,
                returns: summary.return_count,
                throws: summary.throw_count,
                switches: summary.switch_count,
                count: summary.instruction_count,
            }),
        decreases code_units.len() - cursor,
    {
        let ghost before = Walk {
            histogram: summary.opcode_histogram@,
            strings: strings@,
            types: summary.type_ref_uses@,
            methods: summary.method_ref_uses@,
            fields: summary.field_ref_uses@,
            branches: summary.branch_count,
            returns: summary.return_count,
            throws: summary.throw_count,
            switches: summary.switch_count,
            count: summary.instruction_count,
        };
        let first = code_units[cursor];
        let opcode = (first % 256) as u8;
        let seen: u32 = match summary.opcode_histogram.get(&opcode) {
            Some(c) => *c,
            None => 0,
        };
        summary.opcode_histogram.insert(opcode, seen + 1);
        summary.instruction_count = summary.instruction_count + 1;

        if opcode == 0x1a {
            if cursor + 1 < code_units.len() {
                strings.push(code_units[cursor + 1] as u32);
            }
        } else if opcode == 0x1b {
            if code_units.len() - cursor > 2 {
                let low = code_units[cursor + 1] as u32;
                let high = code_units[cursor + 2] as u32;
                strings.push(low + 65536 * high);
            }
        } else if opcode == 0x1c || opcode == 0x1f || opcode == 0x20 || (0x22 <= opcode && opcode <= 0x25) {
            push_reference(&mut summary.type_ref_uses, code_units, cursor, opcode);
        } else if 0x52 <= opcode && opcode <= 0x6d {
            push_reference(&mut summary.field_ref_uses, code_units, cursor, opcode);
        } else if (0x6e <= opcode && opcode <= 0x72) || (0x74 <= opcode && opcode <= 0x78) || opcode == 0xfa
            || opcode == 0xfb {
            push_reference(&mut summary.method_ref_uses, code_units, cursor, opcode);
        } else if 0x28 <= opcode && opcode <= 0x2c {
            summary.branch_count = summary.branch_count + 1;
        } else if 0x0e <= opcode && opcode <= 0x11 {
            summary.return_count = summary.return_count + 1;
        } else if opcode == 0x27 {
            summary.throw_count = summary.throw_count + 1;
        }
        if opcode == 0x2b || opcode == 0x2c {
            summary.switch_count = summary.switch_count + 1;
        }

        let width = match opcode_width(code_units, cursor, opcode) {
            Ok(w) => w,
            Err(e) => {
                assert(total == Err::<Walk, UnocRsError>(e));
                return Err(e);
            },
        };
        proof {
            let after = Walk {
                histogram: summary.opcode_histogram@,
                strings: strings@,
                types: summary.type_ref_uses@,
                methods: summary.method_ref_uses@,
                fields: summary.field_ref_uses@,
                branches: summary.branch_count,
                returns: summary.return_count,
                throws: summary.throw_count,
                switches: summary.switch_count,
                count: summary.instruction_count,
            };
            assert(strings@ =~= before.strings + string_at(code_units@, cursor as int, opcode));
            assert(after == step(code_units@, cursor as int, before));
        }
        cursor = cursor + width;
    }

    summary.method_refs = sorted_unique(reference_indices(&summary.method_ref_uses));
    summary.field_refs = sorted_unique(reference_indices(&summary.field_ref_uses));
    summary.string_refs = sorted_unique(strings);
    Ok(summary)
}

/// The sum of the counts of the opcodes below `n` in `h`.
pub open spec fn hist_sum(h: Map<u8, u32>, n: nat) -> nat
    decreases n,
{
    if n == 0 {
        0
    } else {
        hist_sum(h, (n - 1) as nat) + if h.contains_key((n - 1) as u8) {
            h[(n - 1) as u8] as nat
        } else {
            0
        }
    }
}

/// The sum of all counts of an opcode histogram.
pub open spec fn histogram_total(h: Map<u8, u32>) -> nat {
    hist_sum(h, 256)
}

/// The uses in `refs` come in increasing order of offset, each before `bound`, and each names
/// the opcode of the code unit at its offset.
pub open spec fn uses_follow_code(code: Seq<u16>, refs: Seq<InstructionReference>, bound: int) -> bool {
    &&& forall|i: int, j: int| 0 <= i < j < refs.len() ==> #[trigger] refs[i].offset_code_unit
        < #[trigger] refs[j].offset_code_unit
    &&& forall|i: int| 0 <= i < refs.len() ==> (#[trigger] refs[i]).offset_code_unit < bound
        && (code[refs[i].offset_code_unit as int] & 0xff) == refs[i].opcode as u16
}

/// What holds of a walk over `code` that has reached `cursor`.
pub open spec fn walk_facts(code: Seq<u16>, cursor: int, w: Walk) -> bool {
    &&& histogram_total(w.histogram) == w.count
    &&& uses_follow_code(code, w.types, cursor)
    &&& uses_follow_code(code, w.methods, cursor)
    &&& uses_follow_code(code, w.fields, cursor)
}

/// Counting one more of `op` adds one to the sum of the counts.
proof fn lemma_hist_sum_insert(h: Map<u8, u32>, op: u8, v: u32, n: nat)
    requires
        n <= 256,
    ensures
        hist_sum(h.insert(op, v), n) + (if op < n && h.contains_key(op) { h[op] as nat } else { 0 }) == hist_sum(
            h,
            n,
        ) + (if op < n { v as nat } else { 0 }),
    decreases n,
{
    if n > 0 {
        lemma_hist_sum_insert(h, op, v, (n - 1) as nat);
    }
}

/// Appending the use an instruction at `cursor` makes keeps the uses in order.
proof fn lemma_uses_push(code: Seq<u16>, refs: Seq<InstructionReference>, cursor: int, n: int, op: u8)
    requires
        uses_follow_code(code, refs, cursor),
        0 <= cursor < code.len() <= u32::MAX,
        cursor < n,
        op == opcode_of(code[cursor]),
    ensures
        uses_follow_code(code, refs + reference_at(code, cursor, op), n),
{
    let u = code[cursor];
    assert((u & 0xff) == (u % 256) as u8 as u16) by (bit_vector);
    let all = refs + reference_at(code, cursor, op);
    assert forall|i: int, j: int| 0 <= i < j < all.len() implies #[trigger] all[i].offset_code_unit
        < #[trigger] all[j].offset_code_unit by {
        if j >= refs.len() {
            assert(refs[i] == all[i]);
        } else {
            assert(refs[i] == all[i] && refs[j] == all[j]);
        }
    }
    assert forall|i: int| 0 <= i < all.len() implies (#[trigger] all[i]).offset_code_unit < n && (code[
        all[i].offset_code_unit as int] & 0xff) == all[i].opcode as u16 by {
        if i < refs.len() {
            assert(refs[i] == all[i]);
        }
    }
}

/// The facts of a walk carry over each step to the end of the walk.
proof fn lemma_walk_facts(code: Seq<u16>, cursor: int, w: Walk)
    requires
        code.len() <= u32::MAX,
        0 <= cursor <= code.len(),
        walk_bounded(w, cursor),
        walk_facts(code, cursor, w),
        walk_from(code, cursor, w) is Ok,
    ensures
        walk_facts(code, code.len() as int, walk_from(code, cursor, w)->Ok_0),
    decreases code.len() - cursor,
{
    if cursor >= code.len() {
        return;
    }
    let n = width_at(code, cursor)->Ok_0;
    if n == 0 {
        assert forall|i: int| 0 <= i < w.types.len() implies (#[trigger] w.types[i]).offset_code_unit < code.len()
            by {}
        assert forall|i: int| 0 <= i < w.methods.len() implies (#[trigger] w.methods[i]).offset_code_unit
            < code.len() by {}
        assert forall|i: int| 0 <= i < w.fields.len() implies (#[trigger] w.fields[i]).offset_code_unit < code.len()
            by {}
        return;
    }
    let op = opcode_of(code[cursor]);
    let w2 = step(code, cursor, w);
    let next = cursor + n;
    let old_count: nat = if w.histogram.contains_key(op) { w.histogram[op] as nat } else { 0 };
    assert(old_count <= w.count);
    lemma_hist_sum_insert(w.histogram, op, (old_count + 1) as u32, 256);
    assert forall|k: u8| w2.histogram.contains_key(k) implies w2.histogram[k] <= w2.count by {
        if k != op {
            assert(w.histogram.contains_key(k));
        }
    }
    lemma_uses_push(code, w.types, cursor, next, op);
    lemma_uses_push(code, w.methods, cursor, next, op);
    lemma_uses_push(code, w.fields, cursor, next, op);
    assert(uses_follow_code(code, w2.types, next)) by {
        if !is_type_ref_opcode(op) {
            assert forall|i: int| 0 <= i < w.types.len() implies (#[trigger] w.types[i]).offset_code_unit < next
                by {}
        }
    }
    assert(uses_follow_code(code, w2.methods, next)) by {
        if !is_method_ref_opcode(op) {
            assert forall|i: int| 0 <= i < w.methods.len() implies (#[trigger] w.methods[i]).offset_code_unit
                < next by {}
        }
    }
    assert(uses_follow_code(code, w2.fields, next)) by {
        if !is_field_ref_opcode(op) {
            assert forall|i: int| 0 <= i < w.fields.len() implies (#[trigger] w.fields[i]).offset_code_unit
                < next by {}
        }
    }
    lemma_walk_facts(code, next, w2);
}

/// What a summary of a method body says of itself: the method and field indices are the sorted
/// distinct indices of their uses; string indices strictly increase; the instruction count is
/// the sum of the opcode histogram; and the uses of each kind come in increasing order of offset,
/// each naming the opcode in the low byte of the code unit at its offset.
pub proof fn lemma_summary_laws(code: Seq<u16>, s: InstructionSummary)
    requires
        code.len() <= u32::MAX,
        match walk_from(code, 0, walk_start()) {
            Ok(w) => summary_of(s, w),
            Err(_) => false,
        },
    ensures
        sorted_set_of(s.method_refs@, indices(s.method_ref_uses@)),
        sorted_set_of(s.field_refs@, indices(s.field_ref_uses@)),
        strictly_increasing(s.string_refs@),
        s.instruction_count == histogram_total(s.opcode_histogram@),
        uses_follow_code(code, s.type_ref_uses@, code.len() as int),
        uses_follow_code(code, s.method_ref_uses@, code.len() as int),
        uses_follow_code(code, s.field_ref_uses@, code.len() as int),
{
    let w0 = walk_start();
    assert(histogram_total(w0.histogram) == 0) by {
        lemma_hist_sum_empty(256);
    }
    lemma_walk_facts(code, 0, w0);
}

proof fn lemma_hist_sum_empty(n: nat)
    ensures
        hist_sum(Map::<u8, u32>::empty(), n) == 0,
    decreases n,
{
    if n > 0 {
        lemma_hist_sum_empty((n - 1) as nat);
    }
}

/// The walk over `code` from `cursor` on decodes an instruction at `c`: `c` is `cursor`, or is
/// reached from the next instruction.
pub open spec fn reaches(code: Seq<u16>, cursor: int, c: int) -> bool
    decreases code.len() - cursor,
{
    if cursor < 0 || cursor >= code.len() {
        false
    } else if cursor == c {
        true
    } else {
        match width_at(code, cursor) {
            Err(_) => false,
            Ok(n) => n > 0 && reaches(code, cursor + n, c),
        }
    }
}

proof fn lemma_reaches_bounds(code: Seq<u16>, cursor: int, c: int)
    requires
        reaches(code, cursor, c),
    ensures
        0 <= cursor <= c < code.len(),
    decreases code.len() - cursor,
{
    if cursor != c {
        let n = width_at(code, cursor)->Ok_0;
        lemma_reaches_bounds(code, cursor + n, c);
    }
}

/// A walk only adds uses after those it started with.
proof fn lemma_walk_extends(code: Seq<u16>, cursor: int, w: Walk)
    requires
        walk_from(code, cursor, w) is Ok,
    ensures
        ({
            let w2 = walk_from(code, cursor, w)->Ok_0;
            &&& w.types.len() <= w2.types.len() && w2.types.subrange(0, w.types.len() as int) == w.types
            &&& w.methods.len() <= w2.methods.len() && w2.methods.subrange(0, w.methods.len() as int) == w.methods
            &&& w.fields.len() <= w2.fields.len() && w2.fields.subrange(0, w.fields.len() as int) == w.fields
        }),
    decreases code.len() - cursor,
{
    if 0 <= cursor < code.len() {
        let n = width_at(code, cursor)->Ok_0;
        if n > 0 {
            let w1 = step(code, cursor, w);
            lemma_walk_extends(code, cursor + n, w1);
            let w2 = walk_from(code, cursor, w)->Ok_0;
            assert(w2.types.subrange(0, w.types.len() as int) =~= w2.types.subrange(0, w1.types.len() as int).subrange(
                0,
                w.types.len() as int,
            ));
            assert(w2.methods.subrange(0, w.methods.len() as int) =~= w2.methods.subrange(
                0,
                w1.methods.len() as int,
            ).subrange(0, w.methods.len() as int));
            assert(w2.fields.subrange(0, w.fields.len() as int) =~= w2.fields.subrange(0, w1.fields.len() as int).subrange(
                0,
                w.fields.len() as int,
            ));
        }
    }
}

/// The use an instruction at `c` with a second code unit makes.
pub open spec fn use_at(code: Seq<u16>, c: int) -> InstructionReference {
    InstructionReference { index: code[c + 1] as u32, offset_code_unit: c as u32, opcode: opcode_of(code[c]) }
}

proof fn lemma_walk_reaches(code: Seq<u16>, cursor: int, w: Walk, c: int)
    requires
        code.len() <= u32::MAX,
        walk_from(code, cursor, w) is Ok,
        reaches(code, cursor, c),
        c + 1 < code.len(),
    ensures
        ({
            let w2 = walk_from(code, cursor, w)->Ok_0;
            let op = opcode_of(code[c]);
            &&& (op == 0x1c || op == 0x1f || op == 0x20 || op == 0x22 || op == 0x23 || op == 0x24 || op == 0x25)
                ==> w2.types.contains(use_at(code, c))
            &&& 0x52 <= op <= 0x6d ==> w2.fields.contains(use_at(code, c))
            &&& (0x6e <= op <= 0x72 || 0x74 <= op <= 0x78 || op == 0xfa || op == 0xfb) ==> w2.methods.contains(
                use_at(code, c),
            )
        }),
    decreases code.len() - cursor,
{
    let n = width_at(code, cursor)->Ok_0;
    let w1 = step(code, cursor, w);
    let w2 = walk_from(code, cursor, w)->Ok_0;
    if cursor == c {
        let u = use_at(code, c);
        assert(reference_at(code, c, opcode_of(code[c])) == seq![u]);
        if n > 0 {
            lemma_walk_extends(code, cursor + n, w1);
        } else {
            assert(false);
        }
        let op = opcode_of(code[c]);
        if is_type_ref_opcode(op) {
            assert(w2.types.subrange(0, w1.types.len() as int)[w.types.len() as int] == u);
        }
        if is_field_ref_opcode(op) {
            assert(w2.fields.subrange(0, w1.fields.len() as int)[w.fields.len() as int] == u);
        }
        if is_method_ref_opcode(op) {
            assert(w2.methods.subrange(0, w1.methods.len() as int)[w.methods.len() as int] == u);
        }
    } else {
        lemma_walk_reaches(code, cursor + n, w1, c);
    }
}

/// Each instruction the walk decodes that names a type (`const-class`, `check-cast`,
/// `instance-of`, `new-instance`, `new-array`, `filled-new-array` and its range form), a field
/// (the `iget`, `iput`, `sget` and `sput` families) or a method (the `invoke` family, its range
/// forms and `invoke-polymorphic`), and has its index unit, gives exactly one use of that kind in
/// the summary: at its offset, with its opcode and the index in its second code unit.
pub proof fn lemma_summary_records_reached_uses(code: Seq<u16>, s: InstructionSummary, c: int)
    requires
        code.len() <= u32::MAX,
        match walk_from(code, 0, walk_start()) {
            Ok(w) => summary_of(s, w),
            Err(_) => false,
        },
        reaches(code, 0, c),
        c + 1 < code.len(),
    ensures
        ({
            let op = opcode_of(code[c]);
            let u = use_at(code, c);
            &&& (op == 0x1c || op == 0x1f || op == 0x20 || op == 0x22 || op == 0x23 || op == 0x24 || op == 0x25)
                ==> s.type_ref_uses@.contains(u) && forall|i: int| 0 <= i < s.type_ref_uses@.len()
                && s.type_ref_uses@[i].offset_code_unit == c ==> s.type_ref_uses@[i] == u
            &&& 0x52 <= op <= 0x6d ==> s.field_ref_uses@.contains(u) && forall|i: int| 0 <= i
                < s.field_ref_uses@.len() && s.field_ref_uses@[i].offset_code_unit == c ==> s.field_ref_uses@[i] == u
            &&& (0x6e <= op <= 0x72 || 0x74 <= op <= 0x78 || op == 0xfa || op == 0xfb) ==> s.method_ref_uses@.contains(
                u,
            ) && forall|i: int| 0 <= i < s.method_ref_uses@.len() && s.method_ref_uses@[i].offset_code_unit == c
                ==> s.method_ref_uses@[i] == u
        }),
{
    lemma_walk_reaches(code, 0, walk_start(), c);
    lemma_summary_laws(code, s);
    lemma_reaches_bounds(code, 0, c);
    let u = use_at(code, c);
    assert(u.offset_code_unit == c);
    let t = s.type_ref_uses@;
    let f = s.field_ref_uses@;
    let m = s.method_ref_uses@;
    if t.contains(u) {
        let q = choose|q: int| 0 <= q < t.len() && t[q] == u;
        assert forall|i: int| 0 <= i < t.len() && t[i].offset_code_unit == c implies t[i] == u by {
            if i < q {
                assert(t[i].offset_code_unit < t[q].offset_code_unit);
            } else if i > q {
                assert(t[q].offset_code_unit < t[i].offset_code_unit);
            }
        }
    }
    if f.contains(u) {
        let q = choose|q: int| 0 <= q < f.len() && f[q] == u;
        assert forall|i: int| 0 <= i < f.len() && f[i].offset_code_unit == c implies f[i] == u by {
            if i < q {
                assert(f[i].offset_code_unit < f[q].offset_code_unit);
            } else if i > q {
                assert(f[q].offset_code_unit < f[i].offset_code_unit);
            }
        }
    }
    if m.contains(u) {
        let q = choose|q: int| 0 <= q < m.len() && m[q] == u;
        assert forall|i: int| 0 <= i < m.len() && m[i].offset_code_unit == c implies m[i] == u by {
            if i < q {
                assert(m[i].offset_code_unit < m[q].offset_code_unit);
            } else if i > q {
                assert(m[q].offset_code_unit < m[i].offset_code_unit);
            }
        }
    }
}

/// The kinds of the uses a walk gathers, by opcode.
pub open spec fn use_kinds_hold(w: Walk) -> bool {
    &&& forall|i: int| 0 <= i < w.types.len() ==> #[trigger] w.types[i].opcode == 0x1c || w.types[i].opcode == 0x1f
        || w.types[i].opcode == 0x20 || 0x22 <= w.types[i].opcode <= 0x25
    &&& forall|i: int| 0 <= i < w.fields.len() ==> 0x52 <= #[trigger] w.fields[i].opcode <= 0x6d
    &&& forall|i: int| 0 <= i < w.methods.len() ==> 0x6e <= #[trigger] w.methods[i].opcode <= 0x72 || 0x74
        <= w.methods[i].opcode <= 0x78 || w.methods[i].opcode == 0xfa || w.methods[i].opcode == 0xfb
}

proof fn lemma_walk_use_kinds(code: Seq<u16>, cursor: int, w: Walk)
    requires
        walk_from(code, cursor, w) is Ok,
        use_kinds_hold(w),
    ensures
        use_kinds_hold(walk_from(code, cursor, w)->Ok_0),
    decreases code.len() - cursor,
{
    if 0 <= cursor < code.len() {
        let n = width_at(code, cursor)->Ok_0;
        if n > 0 {
            let w1 = step(code, cursor, w);
            assert(use_kinds_hold(w1)) by {
                let op = opcode_of(code[cursor]);
                assert forall|i: int| 0 <= i < w1.types.len() implies #[trigger] w1.types[i].opcode == 0x1c
                    || w1.types[i].opcode == 0x1f || w1.types[i].opcode == 0x20 || 0x22 <= w1.types[i].opcode
                    <= 0x25 by {
                    if i >= w.types.len() {
                        assert(w1.types[i].opcode == op);
                    } else {
                        assert(w1.types[i] == w.types[i]);
                    }
                }
                assert forall|i: int| 0 <= i < w1.fields.len() implies 0x52 <= #[trigger] w1.fields[i].opcode
                    <= 0x6d by {
                    if i >= w.fields.len() {
                        assert(w1.fields[i].opcode == op);
                    } else {
                        assert(w1.fields[i] == w.fields[i]);
                    }
                }
                assert forall|i: int| 0 <= i < w1.methods.len() implies 0x6e <= #[trigger] w1.methods[i].opcode
                    <= 0x72 || 0x74 <= w1.methods[i].opcode <= 0x78 || w1.methods[i].opcode == 0xfa
                    || w1.methods[i].opcode == 0xfb by {
                    if i >= w.methods.len() {
                        assert(w1.methods[i].opcode == op);
                    } else {
                        assert(w1.methods[i] == w.methods[i]);
                    }
                }
            }
            lemma_walk_use_kinds(code, cursor + n, w1);
        }
    }
}

/// A summary holds only type uses by type-naming instructions, field uses by field
/// instructions and method uses by invoke instructions.
pub proof fn lemma_summary_use_kinds(code: Seq<u16>, s: InstructionSummary)
    requires
        match walk_from(code, 0, walk_start()) {
            Ok(w) => summary_of(s, w),
            Err(_) => false,
        },
    ensures
        use_kinds_hold(Walk {
            histogram: s.opcode_histogram@,
            strings: Seq::empty(),
            types: s.type_ref_uses@,
            methods: s.method_ref_uses@,
            fields: s.field_ref_uses@,
            branches: 0,
            returns: 0,
            throws: 0,
            switches: 0,
            count: 0,
        }),
{
    lemma_walk_use_kinds(code, 0, walk_start());
}

/// The sum of the counts of the opcodes from `lo` up to `hi`, `hi` left out.
pub open spec fn hist_range(h: Map<u8, u32>, lo: nat, hi: nat) -> int {
    hist_sum(h, hi) - hist_sum(h, lo)
}

/// The statistics of a walk are the counts of their opcodes in its histogram.
pub open spec fn counts_from_histogram(w: Walk) -> bool {
    &&& w.returns == hist_range(w.histogram, 0x0e, 0x12)
    &&& w.branches == hist_range(w.histogram, 0x28, 0x2d)
    &&& w.throws == hist_range(w.histogram, 0x27, 0x28)
    &&& w.switches == hist_range(w.histogram, 0x2b, 0x2d)
}

proof fn lemma_walk_counts(code: Seq<u16>, cursor: int, w: Walk)
    requires
        code.len() <= u32::MAX,
        0 <= cursor <= code.len(),
        walk_bounded(w, cursor),
        counts_from_histogram(w),
        walk_from(code, cursor, w) is Ok,
    ensures
        counts_from_histogram(walk_from(code, cursor, w)->Ok_0),
    decreases code.len() - cursor,
{
    if cursor < code.len() {
        let n = width_at(code, cursor)->Ok_0;
        if n > 0 {
            let op = opcode_of(code[cursor]);
            let w2 = step(code, cursor, w);
            let old_count: nat = if w.histogram.contains_key(op) { w.histogram[op] as nat } else { 0 };
            assert(old_count <= w.count);
            let v = (old_count + 1) as u32;
            lemma_hist_sum_insert(w.histogram, op, v, 0x0e);
            lemma_hist_sum_insert(w.histogram, op, v, 0x12);
            lemma_hist_sum_insert(w.histogram, op, v, 0x28);
            lemma_hist_sum_insert(w.histogram, op, v, 0x2d);
            lemma_hist_sum_insert(w.histogram, op, v, 0x27);
            lemma_hist_sum_insert(w.histogram, op, v, 0x2b);
            assert forall|k: u8| w2.histogram.contains_key(k) implies w2.histogram[k] <= w2.count by {
                if k != op {
                    assert(w.histogram.contains_key(k));
                }
            }
            lemma_walk_counts(code, cursor + n, w2);
        }
    }
}

/// The statistics of a summary count opcodes: returns are `return*` (0x0e to 0x11), branches
/// are `goto*` and the switches (0x28 to 0x2c), throws are `throw` (0x27) and switches are
/// `packed-switch` and `sparse-switch` (0x2b, 0x2c), as the opcode histogram counts them.
pub proof fn lemma_summary_counts(code: Seq<u16>, s: InstructionSummary)
    requires
        code.len() <= u32::MAX,
        match walk_from(code, 0, walk_start()) {
            Ok(w) => summary_of(s, w),
            Err(_) => false,
        },
    ensures
        s.return_count == hist_range(s.opcode_histogram@, 0x0e, 0x12),
        s.branch_count == hist_range(s.opcode_histogram@, 0x28, 0x2d),
        s.throw_count == hist_range(s.opcode_histogram@, 0x27, 0x28),
        s.switch_count == hist_range(s.opcode_histogram@, 0x2b, 0x2d),
{
    lemma_hist_sum_empty(0x0e);
    lemma_hist_sum_empty(0x12);
    lemma_hist_sum_empty(0x28);
    lemma_hist_sum_empty(0x2d);
    lemma_hist_sum_empty(0x27);
    lemma_hist_sum_empty(0x2b);
    lemma_walk_counts(code, 0, walk_start());
}

/// A walk keeps the string indices it started with.
proof fn lemma_walk_keeps_strings(code: Seq<u16>, cursor: int, w: Walk, x: u32)
    requires
        walk_from(code, cursor, w) is Ok,
        w.strings.contains(x),
    ensures
        walk_from(code, cursor, w)->Ok_0.strings.contains(x),
    decreases code.len() - cursor,
{
    if 0 <= cursor < code.len() {
        let n = width_at(code, cursor)->Ok_0;
        if n > 0 {
            let w1 = step(code, cursor, w);
            let q = choose|q: int| 0 <= q < w.strings.len() && w.strings[q] == x;
            assert(w1.strings[q] == x);
            lemma_walk_keeps_strings(code, cursor + n, w1, x);
        }
    }
}

proof fn lemma_walk_reaches_strings(code: Seq<u16>, cursor: int, w: Walk, c: int)
    requires
        walk_from(code, cursor, w) is Ok,
        reaches(code, cursor, c),
    ensures
        ({
            let w2 = walk_from(code, cursor, w)->Ok_0;
            let op = opcode_of(code[c]);
            &&& op == 0x1a && c + 1 < code.len() ==> w2.strings.contains(code[c + 1] as u32)
            &&& op == 0x1b && c + 2 < code.len() ==> w2.strings.contains((code[c + 1] + 65536 * code[c + 2]) as u32)
        }),
    decreases code.len() - cursor,
{
    let n = width_at(code, cursor)->Ok_0;
    let w1 = step(code, cursor, w);
    if cursor == c {
        let op = opcode_of(code[c]);
        if op == 0x1a && c + 1 < code.len() {
            assert(w1.strings[w.strings.len() as int] == code[c + 1] as u32);
            lemma_walk_keeps_strings(code, cursor + n, w1, code[c + 1] as u32);
        }
        if op == 0x1b && c + 2 < code.len() {
            let x = (code[c + 1] + 65536 * code[c + 2]) as u32;
            assert(w1.strings[w.strings.len() as int] == x);
            lemma_walk_keeps_strings(code, cursor + n, w1, x);
        }
    } else {
        lemma_walk_reaches_strings(code, cursor + n, w1, c);
    }
}

/// Each `const-string` the walk decodes puts the string index in its second code unit among the
/// summary's string indices, and each `const-string/jumbo` the 32-bit index in its second and
/// third code units, low half first.
pub proof fn lemma_summary_records_strings(code: Seq<u16>, s: InstructionSummary, c: int)
    requires
        match walk_from(code, 0, walk_start()) {
            Ok(w) => summary_of(s, w),
            Err(_) => false,
        },
        reaches(code, 0, c),
    ensures
        opcode_of(code[c]) == 0x1a && c + 1 < code.len() ==> s.string_refs@.contains(code[c + 1] as u32),
        opcode_of(code[c]) == 0x1b && c + 2 < code.len() ==> s.string_refs@.contains(
            (code[c + 1] + 65536 * code[c + 2]) as u32,
        ),
{
    lemma_walk_reaches_strings(code, 0, walk_start(), c);
}

/// Instruction widths follow the Dalvik formats: each `/range` invoke is as wide as its plain
/// form (three code units), field accesses take two, `invoke-polymorphic` four, the
/// two-address arithmetic forms one and the three-register and literal forms two, moves of
/// results, returns and monitor operations one; and every instruction that names a string,
/// type, field or method through its second code unit is at least two wide, so that unit
/// belongs to it.
pub proof fn lemma_opcode_family_widths(op: u8)
    ensures
        0x6e <= op <= 0x72 ==> fixed_width(op) == 3 && fixed_width((op + 6) as u8) == fixed_width(op),
        0x52 <= op <= 0x6d ==> fixed_width(op) == 2,
        op == 0xfa || op == 0xfb ==> fixed_width(op) == 4,
        0xb0 <= op <= 0xcf ==> fixed_width(op) == 1,
        0x90 <= op <= 0xaf || 0xd0 <= op <= 0xe2 ==> fixed_width(op) == 2,
        0x0a <= op <= 0x12 || op == 0x1d || op == 0x1e ==> fixed_width(op) == 1,
        (op == 0x1a || op == 0x1c || op == 0x1f || op == 0x20 || op == 0x22 || op == 0x23 || op == 0x24 || op
            == 0x25 || op == 0x1b || 0x52 <= op <= 0x6d || 0x6e <= op <= 0x72 || 0x74 <= op <= 0x78 || op == 0xfa
            || op == 0xfb) ==> fixed_width(op) >= 2,
        op == 0x1b ==> fixed_width(op) >= 3,
{
}

} // verus!
