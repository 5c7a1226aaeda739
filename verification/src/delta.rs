//! Deltas: an object written as pieces copied from a base object and
//! pieces given outright.

use crate::error::Error;
use crate::object::append_bytes;
use crate::util::read_varint;
use crate::util::spec_varint;
use vstd::prelude::*;
use vstd::slice::slice_to_vec;

verus! {

/// One step of a delta.
#[derive(Clone, Debug, PartialEq, Eq)]
pub enum DeltaInstruction {
    /// Take `len` bytes of the base, from `src_offset` on.
    Copy { src_offset: u32, len: u32 },
    /// Take these bytes.
    Insert { bytes: Vec<u8> },
}

/// A step of a delta as mathematics.
pub enum InstructionView {
    Copy { src_offset: u32, len: u32 },
    Insert { bytes: Seq<u8> },
}

impl View for DeltaInstruction {
    type V = InstructionView;

    open spec fn view(&self) -> InstructionView {
        match self {
            DeltaInstruction::Copy { src_offset, len } => InstructionView::Copy {
                src_offset: *src_offset,
                len: *len,
            },
            DeltaInstruction::Insert { bytes } => InstructionView::Insert { bytes: bytes@ },
        }
    }
}

/// A decoded delta: the length of the base it applies to, the length
/// of what it makes, and its steps.
#[derive(Clone, Debug, PartialEq, Eq)]
pub struct Delta {
    pub base_size: u64,
    pub result_size: u64,
    pub instructions: Vec<DeltaInstruction>,
}

/// A delta as mathematics.
pub struct DeltaView {
    pub base_size: u64,
    pub result_size: u64,
    pub instructions: Seq<InstructionView>,
}

/// The views of a run of steps.
pub open spec fn instruction_views(s: Seq<DeltaInstruction>) -> Seq<InstructionView> {
    Seq::new(s.len(), |i: int| s[i]@)
}

impl View for Delta {
    type V = DeltaView;

    open spec fn view(&self) -> DeltaView {
        DeltaView {
            base_size: self.base_size,
            result_size: self.result_size,
            instructions: instruction_views(self.instructions@),
        }
    }
}

/// Bit `k` of an opcode is set; `weight` is 2 to the power `k`.
pub open spec fn has_bit(op: u8, weight: int) -> bool {
    (op as int / weight) % 2 == 1
}

/// The byte at `pos` where it is present, else 0.
#[verifier::opaque]
pub open spec fn opt_byte(s: Seq<u8>, pos: int, present: bool) -> int {
    if present {
        s[pos] as int
    } else {
        0
    }
}

/// The position after a byte that may be absent.
#[verifier::opaque]
pub open spec fn past(pos: int, present: bool) -> int {
    if present {
        pos + 1
    } else {
        pos
    }
}

/// The number of bytes that a copy with opcode `op` takes, the opcode included.
pub open spec fn copy_len(op: u8) -> int {
    past(
        past(
            past(
                past(past(past(past(1, has_bit(op, 1)), has_bit(op, 2)), has_bit(op, 4)), has_bit(
                    op,
                    8,
                )),
                has_bit(op, 16),
            ),
            has_bit(op, 32),
        ),
        has_bit(op, 64),
    )
}

/// The offset that a copy reads from: up to four bytes after the
/// opcode, lowest first, each present where its bit of the opcode is set.
pub open spec fn copy_offset(s: Seq<u8>) -> int {
    let op = s[0];
    let pos1 = past(1, has_bit(op, 1));
    let pos2 = past(pos1, has_bit(op, 2));
    let pos3 = past(pos2, has_bit(op, 4));
    opt_byte(s, 1, has_bit(op, 1)) + opt_byte(s, pos1, has_bit(op, 2)) * 0x100 + opt_byte(
        s,
        pos2,
        has_bit(op, 4),
    ) * 0x1_0000 + opt_byte(s, pos3, has_bit(op, 8)) * 0x100_0000
}

/// The length that a copy takes: up to three bytes after those of the
/// offset, lowest first, each present where its bit of the opcode is
/// set; 0x10000 where none of the three bits is set.
pub open spec fn copy_size(s: Seq<u8>) -> int {
    let op = s[0];
    let pos4 = past(past(past(past(1, has_bit(op, 1)), has_bit(op, 2)), has_bit(op, 4)), has_bit(op, 8));
    let pos5 = past(pos4, has_bit(op, 16));
    let pos6 = past(pos5, has_bit(op, 32));
    if !has_bit(op, 16) && !has_bit(op, 32) && !has_bit(op, 64) {
        0x1_0000
    } else {
        opt_byte(s, pos4, has_bit(op, 16)) + opt_byte(s, pos5, has_bit(op, 32)) * 0x100 + opt_byte(
            s,
            pos6,
            has_bit(op, 64),
        ) * 0x1_0000
    }
}

/// The step that `s` starts with, and the number of bytes it takes. An
/// opcode with the high bit set is a copy; one without is the length of
/// the bytes to insert, which follow it. `None` where the opcode is 0 or
/// the step does not end within `s`.
pub open spec fn spec_instruction(s: Seq<u8>) -> Option<(InstructionView, int)> {
    if s.len() == 0 {
        None
    } else if s[0] >= 128 {
        if copy_len(s[0]) > s.len() {
            None
        } else {
            Some(
                (
                    InstructionView::Copy {
                        src_offset: copy_offset(s) as u32,
                        len: copy_size(s) as u32,
                    },
                    copy_len(s[0]),
                ),
            )
        }
    } else if s[0] == 0 || 1 + s[0] > s.len() {
        None
    } else {
        Some((InstructionView::Insert { bytes: s.subrange(1, 1 + s[0]) }, 1 + s[0]))
    }
}

/// `first` put before the steps of `rest`, where there are any.
pub open spec fn prepend_steps(
    first: Seq<InstructionView>,
    rest: Option<Seq<InstructionView>>,
) -> Option<Seq<InstructionView>> {
    match rest {
        Some(more) => Some(first + more),
        None => None,
    }
}

/// The steps that `s` holds, one after the other until it is used up.
pub open spec fn spec_instructions(s: Seq<u8>) -> Option<Seq<InstructionView>>
    decreases s.len(),
{
    if s.len() == 0 {
        Some(Seq::empty())
    } else {
        match spec_instruction(s) {
            Some((step, n)) => if 0 < n <= s.len() {
                prepend_steps(seq![step], spec_instructions(s.skip(n)))
            } else {
                None
            },
            None => None,
        }
    }
}

/// The delta of the two lengths and the steps, where there are steps.
pub open spec fn delta_of(
    base_size: u64,
    result_size: u64,
    steps: Option<Seq<InstructionView>>,
) -> Result<DeltaView, Error> {
    match steps {
        Some(instructions) => Ok(DeltaView { base_size, result_size, instructions }),
        None => Err(Error::MalformedDelta),
    }
}

/// What the bytes of a delta denote: two base-128 numbers, the length
/// of the base and the length of the result, and then the steps.
pub open spec fn spec_parse_delta(s: Seq<u8>) -> Result<DeltaView, Error> {
    match spec_varint(s, u64::MAX as nat) {
        Some((base_size, n1)) => match spec_varint(s.skip(n1), u64::MAX as nat) {
            Some((result_size, n2)) => delta_of(
                base_size as u64,
                result_size as u64,
                spec_instructions(s.skip(n1).skip(n2)),
            ),
            None => Err(Error::MalformedDelta),
        },
        None => Err(Error::MalformedDelta),
    }
}

/// `first` put before the bytes of `rest`, where there are any.
pub open spec fn prepend_bytes(first: Seq<u8>, rest: Option<Seq<u8>>) -> Option<Seq<u8>> {
    match rest {
        Some(more) => Some(first + more),
        None => None,
    }
}

/// The bytes that one step gives; `None` where a copy reads outside the base.
pub open spec fn spec_step(step: InstructionView, base: Seq<u8>) -> Option<Seq<u8>> {
    match step {
        InstructionView::Copy { src_offset, len } => if src_offset + len <= base.len() {
            Some(base.subrange(src_offset as int, src_offset + len))
        } else {
            None
        },
        InstructionView::Insert { bytes } => Some(bytes),
    }
}

/// The bytes that the steps give, one after the other.
pub open spec fn spec_steps(steps: Seq<InstructionView>, base: Seq<u8>) -> Option<Seq<u8>>
    decreases steps.len(),
{
    if steps.len() == 0 {
        Some(Seq::empty())
    } else {
        match spec_step(steps[0], base) {
            Some(piece) => prepend_bytes(piece, spec_steps(steps.drop_first(), base)),
            None => None,
        }
    }
}

/// What a delta makes of a base: the base must have the declared
/// length, no copy may read outside it, and what the steps give must
/// have the declared length.
pub open spec fn spec_apply(d: DeltaView, base: Seq<u8>) -> Result<Seq<u8>, Error> {
    if d.base_size != base.len() {
        Err(Error::DeltaBaseSizeMismatch)
    } else {
        match spec_steps(d.instructions, base) {
            Some(out) => if out.len() == d.result_size {
                Ok(out)
            } else {
                Err(Error::DeltaSizeMismatch)
            },
            None => Err(Error::MalformedDelta),
        }
    }
}

/// What the bytes of a delta make of a base.
pub open spec fn spec_apply_delta(base: Seq<u8>, delta: Seq<u8>) -> Result<Seq<u8>, Error> {
    match spec_parse_delta(delta) {
        Ok(d) => spec_apply(d, base),
        Err(e) => Err(e),
    }
}

/// Whether the bit of weight `weight` is set in `op`.
fn bit(op: u8, weight: u8) -> (res: bool)
    requires
        weight > 0,
    ensures
        res == has_bit(op, weight as int),
{
    (op / weight) % 2 == 1
}

/// A byte that may be absent moves the position by at most one, and is
/// at most 255.
pub proof fn lemma_past(s: Seq<u8>, pos: int, present: bool)
    ensures
        pos <= past(pos, present) <= pos + 1,
        present ==> past(pos, present) == pos + 1,
        0 <= opt_byte(s, pos, present) <= 255,
{
    reveal(past);
    reveal(opt_byte);
}

/// Reads the byte at `pos` where it is present; gives 0 and stays
/// where it is not. `None` where a present byte lies outside `v`.
fn take_opt(v: &[u8], pos: usize, present: bool) -> (res: Option<(u32, usize)>)
    requires
        pos <= v@.len(),
    ensures
        present && pos >= v@.len() ==> res is None,
        !(present && pos >= v@.len()) ==> res == Some(
            (opt_byte(v@, pos as int, present) as u32, past(pos as int, present) as usize),
        ),
        res matches Some((b, p)) ==> b == opt_byte(v@, pos as int, present) && b <= 255 && p
            == past(pos as int, present) && p <= v@.len(),
{
    reveal(past);
    reveal(opt_byte);
    if !present {
        Some((0, pos))
    } else if pos >= v.len() {
        None
    } else {
        Some((v[pos] as u32, pos + 1))
    }
}

/// Reads the copy that `v` starts with.
fn read_copy(v: &[u8]) -> (res: Option<(DeltaInstruction, usize)>)
    requires
        v@.len() > 0,
        v@[0] >= 128,
    ensures
        match spec_instruction(v@) {
            Some((step, n)) => res matches Some((ins, m)) && ins@ == step && m == n && 0 < n
                <= v@.len(),
            None => res is None,
        },
{
    let op: u8 = v[0];
    proof {
        let q1 = past(1, has_bit(op, 1));
        let q2 = past(q1, has_bit(op, 2));
        let q3 = past(q2, has_bit(op, 4));
        let q4 = past(q3, has_bit(op, 8));
        let q5 = past(q4, has_bit(op, 16));
        let q6 = past(q5, has_bit(op, 32));
        lemma_past(v@, 1, has_bit(op, 1));
        lemma_past(v@, q1, has_bit(op, 2));
        lemma_past(v@, q2, has_bit(op, 4));
        lemma_past(v@, q3, has_bit(op, 8));
        lemma_past(v@, q4, has_bit(op, 16));
        lemma_past(v@, q5, has_bit(op, 32));
        lemma_past(v@, q6, has_bit(op, 64));
    }
    let (b0, pos1) = match take_opt(v, 1, bit(op, 1)) {
        Some(x) => x,
        None => {
            return None;
        },
    };
    let (b1, pos2) = match take_opt(v, pos1, bit(op, 2)) {
        Some(x) => x,
        None => {
            return None;
        },
    };
    let (b2, pos3) = match take_opt(v, pos2, bit(op, 4)) {
        Some(x) => x,
        None => {
            return None;
        },
    };
    let (b3, pos4) = match take_opt(v, pos3, bit(op, 8)) {
        Some(x) => x,
        None => {
            return None;
        },
    };
    let (c0, pos5) = match take_opt(v, pos4, bit(op, 16)) {
        Some(x) => x,
        None => {
            return None;
        },
    };
    let (c1, pos6) = match take_opt(v, pos5, bit(op, 32)) {
        Some(x) => x,
        None => {
            return None;
        },
    };
    let (c2, pos7) = match take_opt(v, pos6, bit(op, 64)) {
        Some(x) => x,
        None => {
            return None;
        },
    };
    let src_offset: u32 = b0 + b1 * 0x100 + b2 * 0x1_0000 + b3 * 0x100_0000;
    let len: u32 = if !bit(op, 16) && !bit(op, 32) && !bit(op, 64) {
        0x1_0000
    } else {
        c0 + c1 * 0x100 + c2 * 0x1_0000
    };
    Some((DeltaInstruction::Copy { src_offset, len }, pos7))
}

/// Reads the step that `v` starts with; gives its length too.
pub fn read_instruction(v: &[u8]) -> (res: Option<(DeltaInstruction, usize)>)
    ensures
        match spec_instruction(v@) {
            Some((step, n)) => res matches Some((ins, m)) && ins@ == step && m == n && 0 < n
                <= v@.len(),
            None => res is None,
        },
{
    if v.len() == 0 {
        return None;
    }
    let op: u8 = v[0];
    if op >= 128 {
        read_copy(v)
    } else if op == 0 || v.len() - 1 < op as usize {
        None
    } else {
        let n: usize = 1 + op as usize;
        Some((DeltaInstruction::Insert { bytes: slice_to_vec(&v[1..n]) }, n))
    }
}

impl Delta {
    /// Decodes a delta.
    pub fn parse(bytes: &[u8]) -> (res: Result<Delta, Error>)
        ensures
            crate::object::agrees(res, spec_parse_delta(bytes@)),
    {
        let (base_size, n1) = match read_varint(bytes) {
            Some(x) => x,
            None => {
                return Err(Error::MalformedDelta);
            },
        };
        let after_base = &bytes[n1..bytes.len()];
        let (result_size, n2) = match read_varint(after_base) {
            Some(x) => x,
            None => {
                return Err(Error::MalformedDelta);
            },
        };
        let body = &after_base[n2..after_base.len()];
        let mut instructions: Vec<DeltaInstruction> = Vec::new();
        let mut tail: &[u8] = body;
        assert(instruction_views(instructions@) =~= Seq::<InstructionView>::empty());
        assert(Seq::<InstructionView>::empty() + Seq::<InstructionView>::empty()
            =~= Seq::<InstructionView>::empty());
        while tail.len() > 0
            invariant
                spec_parse_delta(bytes@) == delta_of(
                    base_size,
                    result_size,
                    spec_instructions(body@),
                ),
                spec_instructions(body@) == prepend_steps(
                    instruction_views(instructions@),
                    spec_instructions(tail@),
                ),
            decreases tail@.len(),
        {
            let (step, n) = match read_instruction(tail) {
                Some(x) => x,
                None => {
                    return Err(Error::MalformedDelta);
                },
            };
            proof {
                let before = instruction_views(instructions@);
                assert(instruction_views(instructions@.push(step)) =~= before + seq![step@]);
                if let Some(more) = spec_instructions(tail@.skip(n as int)) {
                    assert((before + seq![step@]) + more =~= before + (seq![step@] + more));
                }
            }
            instructions.push(step);
            tail = &tail[n..tail.len()];
        }
        assert(instruction_views(instructions@) + Seq::<InstructionView>::empty()
            =~= instruction_views(instructions@));
        Ok(Delta { base_size, result_size, instructions })
    }

    /// Makes the result of the delta from its base.
    pub fn apply(&self, base: &[u8]) -> (res: Result<Vec<u8>, Error>)
        ensures
            crate::object::agrees(res, spec_apply(self@, base@)),
            res matches Ok(out) ==> out@.len() == self.result_size && base@.len()
                == self.base_size,
    {
        if self.base_size != base.len() as u64 {
            return Err(Error::DeltaBaseSizeMismatch);
        }
        let ghost steps = instruction_views(self.instructions@);
        let mut out: Vec<u8> = Vec::new();
        let mut i: usize = 0;
        assert(steps.skip(0) =~= steps);
        assert(Seq::<u8>::empty() + Seq::<u8>::empty() =~= Seq::<u8>::empty());
        while i < self.instructions.len()
            invariant
                i <= self.instructions@.len(),
                self.base_size == base@.len(),
                steps == instruction_views(self.instructions@),
                spec_steps(steps, base@) == prepend_bytes(
                    out@,
                    spec_steps(steps.skip(i as int), base@),
                ),
            decreases self.instructions@.len() - i,
        {
            let ghost before = out@;
            proof {
                assert(steps.skip(i as int).drop_first() =~= steps.skip(i + 1));
                assert(steps.skip(i as int)[0] == self.instructions@[i as int]@);
            }
            match &self.instructions[i] {
                DeltaInstruction::Copy { src_offset, len } => {
                    assert(steps[i as int] == (InstructionView::Copy {
                        src_offset: *src_offset,
                        len: *len,
                    }));
                    let start: usize = *src_offset as usize;
                    let count: usize = *len as usize;
                    if start > base.len() || base.len() - start < count {
                        assert(spec_step(steps[i as int], base@) is None);
                        assert(spec_steps(steps.skip(i as int), base@) is None);
                        return Err(Error::MalformedDelta);
                    }
                    append_bytes(&mut out, &base[start..start + count]);
                },
                DeltaInstruction::Insert { bytes } => {
                    assert(steps[i as int] == (InstructionView::Insert { bytes: bytes@ }));
                    append_bytes(&mut out, bytes.as_slice());
                },
            }
            proof {
                let piece = spec_step(steps[i as int], base@)->0;
                assert(out@ == before + piece);
                if let Some(more) = spec_steps(steps.skip(i + 1), base@) {
                    assert((before + piece) + more =~= before + (piece + more));
                }
            }
            i += 1;
        }
        assert(steps.skip(i as int) =~= Seq::<InstructionView>::empty());
        assert(out@ + Seq::<u8>::empty() =~= out@);
        if out.len() as u64 != self.result_size {
            return Err(Error::DeltaSizeMismatch);
        }
        Ok(out)
    }
}

/// Makes an object from its base and the bytes of a delta.
pub fn apply_delta(base: &[u8], delta: &[u8]) -> (res: Result<Vec<u8>, Error>)
    ensures
        crate::object::agrees(res, spec_apply_delta(base@, delta@)),
        res matches Ok(out) ==> spec_parse_delta(delta@) matches Ok(d) && out@.len()
            == d.result_size && base@.len() == d.base_size,
{
    match Delta::parse(delta) {
        Ok(d) => d.apply(base),
        Err(e) => Err(e),
    }
}

/// The delta that puts `bytes` into a base of `n` bytes at `at`: it
/// copies what stands before `at`, gives `bytes`, and copies the rest.
pub open spec fn splice(n: u32, at: u32, bytes: Seq<u8>) -> DeltaView {
    DeltaView {
        base_size: n as u64,
        result_size: (n + bytes.len()) as u64,
        instructions: seq![
            InstructionView::Copy { src_offset: 0, len: at },
            InstructionView::Insert { bytes },
            InstructionView::Copy { src_offset: at, len: (n - at) as u32 },
        ],
    }
}

/// Delta application: a delta that copies the start of its base, gives
/// some bytes, and copies the rest of the base makes the base with
/// those bytes put in, and what it makes has the declared length.
pub proof fn lemma_splice(base: Seq<u8>, at: u32, bytes: Seq<u8>)
    requires
        at <= base.len() <= u32::MAX,
        base.len() + bytes.len() <= u64::MAX,
    ensures
        spec_apply(splice(base.len() as u32, at, bytes), base) == Ok::<Seq<u8>, Error>(
            base.take(at as int) + bytes + base.skip(at as int),
        ),
        (base.take(at as int) + bytes + base.skip(at as int)).len() == splice(
            base.len() as u32,
            at,
            bytes,
        ).result_size,
{
    let d = splice(base.len() as u32, at, bytes);
    let steps = d.instructions;
    let s1 = steps.drop_first();
    let s2 = s1.drop_first();
    assert(s2.drop_first() =~= Seq::<InstructionView>::empty());
    assert(spec_steps(s2.drop_first(), base) == Some(Seq::<u8>::empty()));
    assert(base.subrange(at as int, at + (base.len() - at)) =~= base.skip(at as int));
    assert(spec_steps(s2, base) == Some(base.skip(at as int) + Seq::<u8>::empty()));
    assert(base.skip(at as int) + Seq::<u8>::empty() =~= base.skip(at as int));
    assert(spec_steps(s1, base) == Some(bytes + base.skip(at as int)));
    assert(base.subrange(0, at as int) =~= base.take(at as int));
    assert(base.take(at as int) + (bytes + base.skip(at as int)) =~= base.take(at as int) + bytes
        + base.skip(at as int));
}

/// The bytes of a copy whose offset and length are below 256: the
/// opcode, the offset where it is not 0, and the length.
pub open spec fn short_copy_bytes(src_offset: u8, len: u8) -> Seq<u8> {
    if src_offset == 0 {
        seq![0x90u8, len]
    } else {
        seq![0x91u8, src_offset, len]
    }
}

/// The bytes of an insert: the number of bytes, and the bytes.
pub open spec fn insert_bytes(bytes: Seq<u8>) -> Seq<u8> {
    seq![bytes.len() as u8] + bytes
}

/// The bytes of a short copy, with anything after them, are read as
/// that copy.
pub proof fn lemma_short_copy(src_offset: u8, len: u8, rest: Seq<u8>)
    ensures
        spec_instruction(short_copy_bytes(src_offset, len) + rest) == Some(
            (
                InstructionView::Copy { src_offset: src_offset as u32, len: len as u32 },
                short_copy_bytes(src_offset, len).len() as int,
            ),
        ),
{
    reveal(past);
    reveal(opt_byte);
    let s = short_copy_bytes(src_offset, len) + rest;
    if src_offset == 0 {
        assert(s[0] == 0x90u8);
        assert(s[1] == len);
        assert(copy_len(s[0]) == 2);
        assert(copy_offset(s) == 0);
        assert(copy_size(s) == len);
    } else {
        assert(s[0] == 0x91u8);
        assert(s[1] == src_offset);
        assert(s[2] == len);
        assert(copy_len(s[0]) == 3);
        assert(copy_offset(s) == src_offset);
        assert(copy_size(s) == len);
    }
}

/// The bytes of an insert of 1 to 127 bytes, with anything after them,
/// are read as that insert.
pub proof fn lemma_insert(bytes: Seq<u8>, rest: Seq<u8>)
    requires
        1 <= bytes.len() <= 127,
    ensures
        spec_instruction(insert_bytes(bytes) + rest) == Some(
            (InstructionView::Insert { bytes }, insert_bytes(bytes).len() as int),
        ),
{
    let s = insert_bytes(bytes) + rest;
    assert(s[0] == bytes.len() as u8);
    assert(s.subrange(1, 1 + bytes.len() as int) =~= bytes);
}

/// Where bytes are read as one step, the steps of those bytes and what
/// follows are that step and the steps of what follows.
pub proof fn lemma_step_then(piece: Seq<u8>, step: InstructionView, rest: Seq<u8>)
    requires
        piece.len() > 0,
        spec_instruction(piece + rest) == Some((step, piece.len() as int)),
    ensures
        spec_instructions(piece + rest) == prepend_steps(seq![step], spec_instructions(rest)),
{
    assert((piece + rest).skip(piece.len() as int) =~= rest);
}

/// The bytes of the delta that puts `bytes` into a base of `n` bytes at `at`.
pub open spec fn splice_bytes(n: u8, at: u8, bytes: Seq<u8>) -> Seq<u8> {
    crate::util::groups_of(n as nat) + crate::util::groups_of((n + bytes.len()) as nat)
        + short_copy_bytes(0, at) + insert_bytes(bytes) + short_copy_bytes(at, (n - at) as u8)
}

/// Delta application, from the bytes of the delta: the bytes that copy
/// the start of a short base, give up to 127 bytes, and copy the rest
/// of the base are read as that delta, and make the base with those
/// bytes put in.
pub proof fn lemma_splice_bytes(base: Seq<u8>, at: u8, bytes: Seq<u8>)
    requires
        at <= base.len() <= 255,
        1 <= bytes.len() <= 127,
    ensures
        spec_parse_delta(splice_bytes(base.len() as u8, at, bytes)) == Ok::<DeltaView, Error>(
            splice(base.len() as u32, at as u32, bytes),
        ),
        spec_apply_delta(base, splice_bytes(base.len() as u8, at, bytes)) == Ok::<
            Seq<u8>,
            Error,
        >(base.take(at as int) + bytes + base.skip(at as int)),
{
    let n = base.len() as u8;
    let size_in = crate::util::groups_of(n as nat);
    let size_out = crate::util::groups_of((n + bytes.len()) as nat);
    let first = short_copy_bytes(0, at);
    let middle = insert_bytes(bytes);
    let last = short_copy_bytes(at, (n - at) as u8);
    let s = splice_bytes(n, at, bytes);
    let after_in = size_out + first + middle + last;
    let steps0 = first + (middle + last);
    let steps1 = middle + last;
    assert(s =~= size_in + after_in);
    assert(after_in =~= size_out + steps0);
    crate::util::lemma_varint_round_trip(n as nat, after_in, u64::MAX as nat);
    crate::util::lemma_varint_round_trip((n + bytes.len()) as nat, steps0, u64::MAX as nat);
    assert(s.skip(size_in.len() as int) =~= after_in);
    assert(after_in.skip(size_out.len() as int) =~= steps0);
    lemma_short_copy(0, at, steps1);
    lemma_step_then(first, InstructionView::Copy { src_offset: 0, len: at as u32 }, steps1);
    lemma_insert(bytes, last);
    lemma_step_then(middle, InstructionView::Insert { bytes }, last);
    lemma_short_copy(at, (n - at) as u8, Seq::empty());
    assert(last + Seq::<u8>::empty() =~= last);
    lemma_step_then(
        last,
        InstructionView::Copy { src_offset: at as u32, len: (n - at) as u32 },
        Seq::empty(),
    );
    let c1 = InstructionView::Copy { src_offset: 0, len: at as u32 };
    let ins = InstructionView::Insert { bytes };
    let c2 = InstructionView::Copy { src_offset: at as u32, len: (n - at) as u32 };
    assert(spec_instructions(Seq::<u8>::empty()) == Some(Seq::<InstructionView>::empty()));
    assert(seq![c2] + Seq::<InstructionView>::empty() =~= seq![c2]);
    assert(seq![ins] + seq![c2] =~= seq![ins, c2]);
    assert(seq![c1] + seq![ins, c2] =~= seq![c1, ins, c2]);
    assert(spec_instructions(steps0) == Some(seq![c1, ins, c2]));
    lemma_splice(base, at as u32, bytes);
}

} // verus!
