//! Flat 32-bit buffers: the op stream, address tables and byte matrices
//! in the form that compute backends upload and read back.

use crate::ir::{Op, OpKind, Program};
use vstd::endian::{endianness, Endian};
use vstd::prelude::*;

verus! {

/// Byte `k` of a word, counted from the least significant.
pub open spec fn word_byte(w: u32, k: nat) -> u8 {
    ((w >> ((8 * k) as u32)) & 0xff) as u8
}

/// Byte `i` of a sequence of words, four to a word from the least
/// significant.
pub open spec fn flat_byte(words: Seq<u32>, i: int) -> u8 {
    word_byte(words[i / 4], (i % 4) as nat)
}

/// Number of words that hold `n` bytes.
pub open spec fn words_for(n: nat) -> nat {
    (n + 3) / 4
}

/// `words` holds `bytes`, four to a word from the least significant, and
/// zeros after them.
pub open spec fn is_packed(bytes: Seq<u8>, words: Seq<u32>) -> bool {
    &&& words.len() == words_for(bytes.len())
    &&& forall|i: int|
        0 <= i < 4 * words.len() ==> #[trigger] flat_byte(words, i) == (if i < bytes.len() {
            bytes[i]
        } else {
            0
        })
}

/// Code of an opcode in the op stream.
pub open spec fn kind_code(k: OpKind) -> u32 {
    match k {
        OpKind::SetImm => 0,
        OpKind::Copy => 1,
        OpKind::Not => 2,
        OpKind::Abs => 3,
        OpKind::And => 4,
        OpKind::Or => 5,
        OpKind::Xor => 6,
        OpKind::Add => 7,
        OpKind::Sub => 8,
        OpKind::Mul => 9,
        OpKind::Div => 10,
        OpKind::CmpEq => 11,
        OpKind::CmpNe => 12,
        OpKind::CmpLt => 13,
        OpKind::CmpLe => 14,
        OpKind::CmpGt => 15,
        OpKind::CmpGe => 16,
        OpKind::Select => 17,
    }
}

/// The opcode that a code stands for.
pub open spec fn kind_of_code(code: u32) -> Option<OpKind> {
    if code == 0 {
        Some(OpKind::SetImm)
    } else if code == 1 {
        Some(OpKind::Copy)
    } else if code == 2 {
        Some(OpKind::Not)
    } else if code == 3 {
        Some(OpKind::Abs)
    } else if code == 4 {
        Some(OpKind::And)
    } else if code == 5 {
        Some(OpKind::Or)
    } else if code == 6 {
        Some(OpKind::Xor)
    } else if code == 7 {
        Some(OpKind::Add)
    } else if code == 8 {
        Some(OpKind::Sub)
    } else if code == 9 {
        Some(OpKind::Mul)
    } else if code == 10 {
        Some(OpKind::Div)
    } else if code == 11 {
        Some(OpKind::CmpEq)
    } else if code == 12 {
        Some(OpKind::CmpNe)
    } else if code == 13 {
        Some(OpKind::CmpLt)
    } else if code == 14 {
        Some(OpKind::CmpLe)
    } else if code == 15 {
        Some(OpKind::CmpGt)
    } else if code == 16 {
        Some(OpKind::CmpGe)
    } else if code == 17 {
        Some(OpKind::Select)
    } else {
        None
    }
}

/// The three meaningful words of an instruction: kind in the low byte,
/// then immediate, then destination; `a` and `b`; `c`.
pub open spec fn op_words(op: Op) -> (u32, u32, u32) {
    (
        (kind_code(op.kind) + op.imm * 0x100 + op.dst * 0x1_0000) as u32,
        (op.a + op.b * 0x1_0000) as u32,
        op.c as u32,
    )
}

/// The instruction that three words of the op stream encode; `None` for
/// an unknown kind.
pub open spec fn decode(w: (u32, u32, u32)) -> Option<Op> {
    match kind_of_code(w.0 % 0x100) {
        Some(kind) => Some(
            Op {
                kind,
                dst: (w.0 / 0x1_0000) as u16,
                a: (w.1 % 0x1_0000) as u16,
                b: (w.1 / 0x1_0000) as u16,
                c: (w.2 % 0x1_0000) as u16,
                imm: ((w.0 / 0x100) % 0x100) as u8,
            },
        ),
        None => None,
    }
}

/// The three meaningful words of instruction `k` of an op stream, which
/// has four words per instruction.
pub open spec fn stream_words(stream: Seq<u32>, k: int) -> (u32, u32, u32) {
    (stream[4 * k], stream[4 * k + 1], stream[4 * k + 2])
}

/// Word `j` of the four that encode an instruction; the last is zero.
pub open spec fn op_word(op: Op, j: int) -> u32 {
    if j == 0 {
        op_words(op).0
    } else if j == 1 {
        op_words(op).1
    } else if j == 2 {
        op_words(op).2
    } else {
        0
    }
}

/// The op stream of a sequence of instructions: four words for each.
pub open spec fn op_stream(ops: Seq<Op>) -> Seq<u32> {
    Seq::new(4 * ops.len(), |i: int| op_word(ops[i / 4], i % 4))
}

/// Decoding an encoded instruction gives the instruction back.
pub proof fn law_decode_inverts_encode(op: Op)
    ensures
        decode(op_words(op)) == Some(op),
{
    let w = op_words(op);
    let code = kind_code(op.kind);
    assert(kind_of_code(code) == Some(op.kind));
    assert(w.0 == code + op.imm * 0x100 + op.dst * 0x1_0000);
    assert(w.0 % 0x100 == code);
    assert(w.0 / 0x1_0000 == op.dst);
    assert((w.0 / 0x100) % 0x100 == op.imm);
    assert(w.1 == op.a + op.b * 0x1_0000);
    assert(w.1 % 0x1_0000 == op.a);
    assert(w.1 / 0x1_0000 == op.b);
}

/// Code of an opcode in the op stream.
pub fn op_kind_code(k: OpKind) -> (code: u32)
    ensures
        code == kind_code(k),
        code < 18,
{
    match k {
        OpKind::SetImm => 0,
        OpKind::Copy => 1,
        OpKind::Not => 2,
        OpKind::Abs => 3,
        OpKind::And => 4,
        OpKind::Or => 5,
        OpKind::Xor => 6,
        OpKind::Add => 7,
        OpKind::Sub => 8,
        OpKind::Mul => 9,
        OpKind::Div => 10,
        OpKind::CmpEq => 11,
        OpKind::CmpNe => 12,
        OpKind::CmpLt => 13,
        OpKind::CmpLe => 14,
        OpKind::CmpGt => 15,
        OpKind::CmpGe => 16,
        OpKind::Select => 17,
    }
}

/// The op stream of a program: four words per instruction, the last of
/// them zero.
pub fn pack_ops(prog: &Program) -> (v: Vec<u32>)
    requires
        prog.wf(),
        4 * prog.ops().len() <= usize::MAX,
    ensures
        v@ == op_stream(prog.ops()),
{
    let n: usize = prog.len();
    let mut v: Vec<u32> = Vec::with_capacity(n * 4);
    for i in 0..n
        invariant
            prog.wf(),
            n == prog.ops().len(),
            v@ == op_stream(prog.ops().take(i as int)),
    {
        let ghost before = v@;
        let op: Op = prog.op(i);
        let code: u32 = op_kind_code(op.kind);
        let imm: u32 = op.imm as u32;
        let dst: u32 = op.dst as u32;
        let a: u32 = op.a as u32;
        let b: u32 = op.b as u32;
        assert(code | (imm << 8) | (dst << 16) == code + imm * 0x100 + dst * 0x1_0000)
            by (bit_vector)
            requires
                code < 18,
                imm < 0x100,
                dst < 0x1_0000,
        ;
        assert(a | (b << 16) == a + b * 0x1_0000) by (bit_vector)
            requires
                a < 0x1_0000,
                b < 0x1_0000,
        ;
        v.push(code | (imm << 8) | (dst << 16));
        v.push(a | (b << 16));
        v.push(op.c as u32);
        v.push(0);
        let ghost front = prog.ops().take(i + 1);
        assert forall|j: int| 0 <= j < v@.len() implies #[trigger] v@[j] == op_stream(front)[j] by {
            if j < 4 * i {
                assert(v@[j] == before[j]);
                assert(front[j / 4] == prog.ops().take(i as int)[j / 4]);
            } else {
                assert(j / 4 == i);
                assert(front[j / 4] == op);
            }
        }
        assert(v@ =~= op_stream(front));
    }
    assert(prog.ops().take(n as int) =~= prog.ops());
    v
}

/// Putting a byte into a word: the byte is replaced, the others stay.
pub proof fn lemma_put_byte(old_word: u32, k: u32, v: u32, j: u32)
    requires
        k < 4,
        j < 4,
    ensures
        word_byte(
            (old_word & !(0xffu32 << ((8 * k) as u32))) | ((v & 0xff) << ((8 * k) as u32)),
            j as nat,
        ) == (if j == k {
            (v & 0xff) as u8
        } else {
            word_byte(old_word, j as nat)
        }),
{
    let sk: u32 = (8 * k) as u32;
    let sj: u32 = (8 * j) as u32;
    assert((((old_word & !(0xffu32 << sk)) | ((v & 0xff) << sk)) >> sj) & 0xff == (if sj == sk {
        v & 0xff
    } else {
        (old_word >> sj) & 0xff
    })) by (bit_vector)
        requires
            sk == 0 || sk == 8 || sk == 16 || sk == 24,
            sj == 0 || sj == 8 || sj == 16 || sj == 24,
    ;
}

/// Or-ing a byte into a word whose byte there is zero.
pub proof fn lemma_or_byte(old_word: u32, k: u32, v: u32, j: u32)
    requires
        k < 4,
        j < 4,
        v <= 0xff,
        word_byte(old_word, k as nat) == 0,
    ensures
        word_byte(old_word | (v << ((8 * k) as u32)), j as nat) == (if j == k {
            v as u8
        } else {
            word_byte(old_word, j as nat)
        }),
{
    let sk: u32 = (8 * k) as u32;
    let sj: u32 = (8 * j) as u32;
    assert((old_word >> sk) & 0xff <= 0xff) by (bit_vector);
    assert(((old_word | (v << sk)) >> sj) & 0xff == (if sj == sk {
        v
    } else {
        (old_word >> sj) & 0xff
    })) by (bit_vector)
        requires
            sk == 0 || sk == 8 || sk == 16 || sk == 24,
            sj == 0 || sj == 8 || sj == 16 || sj == 24,
            v <= 0xff,
            (old_word >> sk) & 0xff == 0,
    ;
}

/// Every byte of the zero word is zero.
pub proof fn lemma_zero_word(k: nat)
    requires
        k < 4,
    ensures
        word_byte(0, k) == 0,
{
    let s: u32 = (8 * k) as u32;
    assert((0u32 >> s) & 0xff == 0) by (bit_vector);
}

/// Number of words that hold `n` bytes.
pub fn word_count(n: usize) -> (w: usize)
    ensures
        w == words_for(n as nat),
{
    if n % 4 == 0 {
        n / 4
    } else {
        n / 4 + 1
    }
}

/// Pack bytes four to a word, the first in the least significant byte.
pub fn pack_bytes(bytes: &[u8]) -> (words: Vec<u32>)
    ensures
        is_packed(bytes@, words@),
{
    let n: usize = bytes.len();
    let mut words: Vec<u32> = vec![0u32; word_count(n)];
    assert forall|i: int| 0 <= i < 4 * words@.len() implies #[trigger] flat_byte(words@, i) == 0 by {
        lemma_zero_word((i % 4) as nat);
    }
    for i in 0..n
        invariant
            n == bytes@.len(),
            words@.len() == words_for(n as nat),
            forall|j: int|
                0 <= j < 4 * words@.len() ==> #[trigger] flat_byte(words@, j) == (if j < i {
                    bytes@[j]
                } else {
                    0
                }),
    {
        let b: u32 = bytes[i] as u32;
        let k: u32 = (i % 4) as u32;
        let w: u32 = words[i / 4];
        let ghost before = words@;
        assert(flat_byte(before, i as int) == 0);
        words[i / 4] = w | (b << (k * 8));
        assert forall|j: int| 0 <= j < 4 * words@.len() implies #[trigger] flat_byte(words@, j)
            == (if j < i + 1 {
            bytes@[j]
        } else {
            0
        }) by {
            assert(flat_byte(before, j) == (if j < i {
                bytes@[j]
            } else {
                0
            }));
            if j / 4 == i / 4 {
                lemma_or_byte(w, k, b, (j % 4) as u32);
            }
        }
    }
    words
}

/// Addresses as words.
pub open spec fn addr_words(addrs: Seq<u16>) -> Seq<u32> {
    Seq::new(addrs.len(), |i: int| addrs[i] as u32)
}

/// An address table: one word per address.
pub fn pack_addrs(addrs: &[u16]) -> (words: Vec<u32>)
    ensures
        words@ == addr_words(addrs@),
{
    let n: usize = addrs.len();
    let mut words: Vec<u32> = Vec::with_capacity(n);
    for i in 0..n
        invariant
            n == addrs@.len(),
            words@ == addr_words(addrs@).take(i as int),
    {
        words.push(addrs[i] as u32);
        assert(words@ =~= addr_words(addrs@).take(i + 1));
    }
    assert(words@ =~= addr_words(addrs@));
    words
}

/// The first `n` bytes that a sequence of words holds.
pub fn unpack_bytes(words: &[u32], n: usize) -> (bytes: Vec<u8>)
    requires
        n <= 4 * words@.len(),
    ensures
        bytes@.len() == n,
        forall|i: int| 0 <= i < n ==> #[trigger] bytes@[i] == flat_byte(words@, i),
{
    let mut bytes: Vec<u8> = Vec::with_capacity(n);
    for i in 0..n
        invariant
            n <= 4 * words@.len(),
            bytes@.len() == i,
            forall|j: int| 0 <= j < i ==> #[trigger] bytes@[j] == flat_byte(words@, j),
    {
        let s: u32 = ((i % 4) * 8) as u32;
        bytes.push(((words[i / 4] >> s) & 0xff) as u8);
    }
    bytes
}

/// Packing and unpacking gives the bytes back.
pub proof fn law_unpack_inverts_pack(bytes: Seq<u8>, words: Seq<u32>, back: Seq<u8>)
    requires
        is_packed(bytes, words),
        back.len() == bytes.len(),
        forall|i: int| 0 <= i < back.len() ==> #[trigger] back[i] == flat_byte(words, i),
    ensures
        back == bytes,
{
    assert(back =~= bytes);
}

/// Byte `i` of a sequence of words as the machine lays them out in
/// memory.
pub open spec fn native_byte(words: Seq<u32>, i: int) -> u8 {
    match endianness() {
        Endian::Little => flat_byte(words, i),
        Endian::Big => word_byte(words[i / 4], (3 - i % 4) as nat),
    }
}

/// Words as the machine lays them out in memory, four bytes for each.
pub open spec fn native_bytes(words: Seq<u32>) -> Seq<u8> {
    Seq::new(4 * words.len(), |i: int| native_byte(words, i))
}

/// `n` zero bytes.
pub open spec fn zero_bytes(n: nat) -> Seq<u8> {
    Seq::new(n, |i: int| 0u8)
}

/// `bytemuck::cast_slice` from words to bytes: the bytes of the words as
/// the machine lays them out, four for each word. The cast does not
/// fail, as bytes have no alignment and four of them make a word.
#[verifier::external_body]
pub(crate) fn words_to_bytes(words: &[u32]) -> (bytes: Vec<u8>)
    ensures
        bytes@ == native_bytes(words@),
{
    bytemuck::cast_slice::<u32, u8>(words).to_vec()
}

/// `bytemuck::pod_collect_to_vec` from bytes to words: the words whose
/// bytes, as the machine lays them out, are the given ones, with zeros
/// filling up the last word. It copies, so the alignment of the bytes
/// does not matter.
#[verifier::external_body]
fn bytes_to_words(bytes: &[u8]) -> (words: Vec<u32>)
    ensures
        words@.len() == words_for(bytes@.len()),
        native_bytes(words@) == bytes@ + zero_bytes(
            (4 * words_for(bytes@.len()) - bytes@.len()) as nat,
        ),
{
    bytemuck::pod_collect_to_vec::<u8, u32>(bytes)
}

/// The words whose bytes, as the machine lays them out, were read back.
pub fn read_words(bytes: &[u8]) -> (words: Vec<u32>)
    requires
        bytes@.len() % 4 == 0,
    ensures
        4 * words@.len() == bytes@.len(),
        native_bytes(words@) == bytes@,
{
    let words: Vec<u32> = bytes_to_words(bytes);
    assert(native_bytes(words@) =~= bytes@);
    words
}

/// Two words with the same four bytes are one.
proof fn lemma_word_of_bytes(u: u32, v: u32)
    requires
        forall|k: nat| k < 4 ==> #[trigger] word_byte(u, k) == word_byte(v, k),
    ensures
        u == v,
{
    assert(word_byte(u, 0) == word_byte(v, 0));
    assert(word_byte(u, 1) == word_byte(v, 1));
    assert(word_byte(u, 2) == word_byte(v, 2));
    assert(word_byte(u, 3) == word_byte(v, 3));
    assert(((u >> 0) & 0xff) as u8 == ((v >> 0) & 0xff) as u8 && ((u >> 8) & 0xff) as u8 == ((v
        >> 8) & 0xff) as u8 && ((u >> 16) & 0xff) as u8 == ((v >> 16) & 0xff) as u8 && ((u >> 24)
        & 0xff) as u8 == ((v >> 24) & 0xff) as u8 ==> u == v) by (bit_vector);
}

/// Words are determined by their bytes in memory, so reading back what
/// was uploaded gives the same words.
pub proof fn law_bytes_determine_words(u: Seq<u32>, v: Seq<u32>)
    requires
        native_bytes(u) == native_bytes(v),
    ensures
        u == v,
{
    assert(native_bytes(u).len() == 4 * u.len());
    assert(native_bytes(v).len() == 4 * v.len());
    assert forall|i: int| 0 <= i < u.len() implies u[i] == v[i] by {
        assert forall|k: nat| k < 4 implies #[trigger] word_byte(u[i], k) == word_byte(v[i], k) by {
            let at: int = match endianness() {
                Endian::Little => 4 * i + k,
                Endian::Big => 4 * i + 3 - k,
            };
            assert(at / 4 == i);
            assert(native_byte(u, at) == word_byte(u[i], k));
            assert(native_byte(v, at) == word_byte(v[i], k));
            assert(native_bytes(u)[at] == native_byte(u, at));
            assert(native_bytes(v)[at] == native_byte(v, at));
        }
        lemma_word_of_bytes(u[i], v[i]);
    }
    assert(u =~= v);
}

/// The packed form of a byte sequence is unique.
pub proof fn law_packing_is_unique(bytes: Seq<u8>, u: Seq<u32>, v: Seq<u32>)
    requires
        is_packed(bytes, u),
        is_packed(bytes, v),
    ensures
        u == v,
{
    assert forall|i: int| 0 <= i < u.len() implies u[i] == v[i] by {
        assert forall|k: nat| k < 4 implies #[trigger] word_byte(u[i], k) == word_byte(v[i], k) by {
            let at: int = 4 * i + k;
            assert(at / 4 == i && at % 4 == k);
            assert(flat_byte(u, at) == flat_byte(v, at));
        }
        lemma_word_of_bytes(u[i], v[i]);
    }
    assert(u =~= v);
}

/// Words whose bytes in memory are all zero are zero, byte by byte.
pub proof fn lemma_zero_matrix(words: Seq<u32>, count: nat)
    requires
        native_bytes(words) == zero_bytes(4 * count),
    ensures
        words.len() == count,
        forall|i: int| 0 <= i < 4 * count ==> #[trigger] flat_byte(words, i) == 0,
{
    let zeros = Seq::new(count, |i: int| 0u32);
    assert forall|i: int| 0 <= i < 4 * count implies #[trigger] native_bytes(zeros)[i] == 0 by {
        lemma_zero_word((i % 4) as nat);
        lemma_zero_word((3 - i % 4) as nat);
    }
    assert(native_bytes(zeros) =~= zero_bytes(4 * count));
    law_bytes_determine_words(words, zeros);
    assert forall|i: int| 0 <= i < 4 * count implies #[trigger] flat_byte(words, i) == 0 by {
        lemma_zero_word((i % 4) as nat);
    }
}

} // verus!
