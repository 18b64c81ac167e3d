//! Text-IR parser.
//!
//! First line = comma-separated input addresses, last line =
//! comma-separated output addresses, and one op per line between
//! (`set d,i` / unary `op d,a` / binary `op d,a,b` or `op d,b` /
//! `cmp d,a,b,pred` / `select d,c,x,y`). Blank lines are skipped.

use crate::ir::{
    larger, law_max_addr_covers_program, lemma_cells_price_bound,
    lemma_ops_price_bound, ops_price, ops_top, Op, OpKind, Program,
};
use crate::semantics::to_byte;
use crate::text::{
    all_space, append_decimal, append_quoted, append_signed, chars_of, debug_text, decimal,
    decimal_signed, i32_of, is_space, is_word, lemma_split_bounds, lemma_split_concat,
    lemma_split_space_back, lemma_split_space_front, lemma_split_trimmed, lemma_trim_all_space,
    parse_i32, parse_u16, same_trimmed, split, split_on, trim, trimmed, u16_of,
};
use vstd::prelude::*;
use vstd::slice::slice_subrange;
use vstd::string::StringExecFns;

verus! {

/// A parser's result is the modelled one: the same value, or a message
/// with the same characters.
pub open spec fn agrees<T>(r: Result<T, String>, m: Result<T, Seq<char>>) -> bool {
    match m {
        Ok(v) => r matches Ok(x) && x == v,
        Err(f) => r matches Err(e) && e@ == f,
    }
}

/// Message for a token that is no 16-bit number.
pub open spec fn bad_token(what: Seq<char>, token: Seq<char>) -> Seq<char> {
    "bad "@ + what + " "@ + debug_text(token)
}

/// Message for an address 0 within an instruction.
pub open spec fn zero_in(line: Seq<char>) -> Seq<char> {
    "addresses are 1-based; got 0 in "@ + debug_text(line)
}

/// The address that `token` writes, in the role `what` of the
/// instruction `line`.
pub open spec fn address(token: Seq<char>, what: Seq<char>, line: Seq<char>) -> Result<
    u16,
    Seq<char>,
> {
    match u16_of(token) {
        None => Err(bad_token(what, token)),
        Some(v) => if v == 0 {
            Err(zero_in(line))
        } else {
            Ok(v)
        },
    }
}

/// The address in the comma-separated part `k` of the instruction
/// `line`.
pub open spec fn operand(
    parts: Seq<Seq<char>>,
    k: int,
    what: Seq<char>,
    line: Seq<char>,
) -> Result<u16, Seq<char>> {
    if k < parts.len() {
        address(trim(parts[k]), what, line)
    } else {
        Err("missing "@ + what + " in "@ + debug_text(line))
    }
}

/// The comparison that a predicate names.
pub open spec fn predicate(word: Seq<char>) -> Option<OpKind> {
    if word == "eq"@ {
        Some(OpKind::CmpEq)
    } else if word == "ne"@ {
        Some(OpKind::CmpNe)
    } else if word == "lt"@ {
        Some(OpKind::CmpLt)
    } else if word == "le"@ {
        Some(OpKind::CmpLe)
    } else if word == "gt"@ {
        Some(OpKind::CmpGt)
    } else if word == "ge"@ {
        Some(OpKind::CmpGe)
    } else {
        None
    }
}

/// The kind that an opcode other than `cmp` names.
pub open spec fn opcode(word: Seq<char>) -> Option<OpKind> {
    if word == "set"@ {
        Some(OpKind::SetImm)
    } else if word == "copy"@ {
        Some(OpKind::Copy)
    } else if word == "not"@ {
        Some(OpKind::Not)
    } else if word == "abs"@ {
        Some(OpKind::Abs)
    } else if word == "and"@ {
        Some(OpKind::And)
    } else if word == "or"@ {
        Some(OpKind::Or)
    } else if word == "xor"@ {
        Some(OpKind::Xor)
    } else if word == "add"@ {
        Some(OpKind::Add)
    } else if word == "sub"@ {
        Some(OpKind::Sub)
    } else if word == "mul"@ {
        Some(OpKind::Mul)
    } else if word == "div"@ {
        Some(OpKind::Div)
    } else if word == "select"@ {
        Some(OpKind::Select)
    } else {
        None
    }
}

/// `cmp dst,lhs,rhs,pred`.
pub open spec fn comparison_op(line: Seq<char>, parts: Seq<Seq<char>>) -> Result<Op, Seq<char>> {
    match operand(parts, 0, "dest"@, line) {
        Err(e) => Err(e),
        Ok(dst) => match operand(parts, 1, "lhs"@, line) {
            Err(e) => Err(e),
            Ok(a) => match operand(parts, 2, "rhs"@, line) {
                Err(e) => Err(e),
                Ok(b) => if parts.len() <= 3 {
                    Err("cmp needs a predicate in "@ + debug_text(line))
                } else {
                    match predicate(trim(parts[3])) {
                        Some(kind) => Ok(Op { kind, dst, a, b, c: 1, imm: 0 }),
                        None => Err("bad predicate "@ + debug_text(trim(parts[3]))),
                    }
                },
            },
        },
    }
}

/// `set dst,imm`, the destination already read.
pub open spec fn set_op(line: Seq<char>, parts: Seq<Seq<char>>, dst: u16) -> Result<Op, Seq<char>> {
    if parts.len() <= 1 {
        Err("set needs an immediate in "@ + debug_text(line))
    } else {
        match i32_of(trim(parts[1])) {
            None => Err(bad_token("immediate"@, trim(parts[1]))),
            Some(v) => if -128 <= v <= 255 {
                Ok(Op { kind: OpKind::SetImm, dst, a: 1, b: 1, c: 1, imm: to_byte(v as int) })
            } else {
                Err("immediate "@ + decimal_signed(v as int) + " out of 8-bit range"@)
            },
        }
    }
}

/// An instruction other than `cmp` and `set`, the destination already
/// read. Binary ops accept two sources, or the accumulator form with one,
/// whose first source is the destination itself.
pub open spec fn plain_op(
    line: Seq<char>,
    head: Seq<char>,
    parts: Seq<Seq<char>>,
    kind: OpKind,
    dst: u16,
) -> Result<Op, Seq<char>> {
    let n = parts.len() - 1;
    if kind.arity() == 1 {
        if n != 1 {
            Err(debug_text(head) + " needs exactly 1 operand in "@ + debug_text(line))
        } else {
            match operand(parts, 1, "src1"@, line) {
                Err(e) => Err(e),
                Ok(a) => Ok(Op { kind, dst, a, b: 1, c: 1, imm: 0 }),
            }
        }
    } else if kind.arity() == 3 {
        if n != 3 {
            Err("select needs 3 operands in "@ + debug_text(line))
        } else {
            match operand(parts, 1, "cond"@, line) {
                Err(e) => Err(e),
                Ok(a) => match operand(parts, 2, "true-src"@, line) {
                    Err(e) => Err(e),
                    Ok(b) => match operand(parts, 3, "false-src"@, line) {
                        Err(e) => Err(e),
                        Ok(c) => Ok(Op { kind, dst, a, b, c, imm: 0 }),
                    },
                },
            }
        }
    } else if n == 1 {
        match operand(parts, 1, "src2"@, line) {
            Err(e) => Err(e),
            Ok(b) => Ok(Op { kind, dst, a: dst, b, c: 1, imm: 0 }),
        }
    } else if n == 2 {
        match operand(parts, 1, "src1"@, line) {
            Err(e) => Err(e),
            Ok(a) => match operand(parts, 2, "src2"@, line) {
                Err(e) => Err(e),
                Ok(b) => Ok(Op { kind, dst, a, b, c: 1, imm: 0 }),
            },
        }
    } else {
        Err(debug_text(head) + " needs 2 or 3 operands, got "@ + decimal(n as nat))
    }
}

/// The instruction that the trimmed line `line` writes, given its opcode
/// word and its comma-separated parts.
pub open spec fn op_of_parts(line: Seq<char>, head: Seq<char>, parts: Seq<Seq<char>>) -> Result<
    Op,
    Seq<char>,
> {
    if head == "cmp"@ {
        comparison_op(line, parts)
    } else {
        match opcode(head) {
            None => Err("unknown opcode "@ + debug_text(head)),
            Some(kind) => match operand(parts, 0, "dest"@, line) {
                Err(e) => Err(e),
                Ok(dst) => if kind == OpKind::SetImm {
                    set_op(line, parts, dst)
                } else {
                    plain_op(line, head, parts, kind, dst)
                },
            },
        }
    }
}

/// The instruction that a line writes: an opcode word, a space, and
/// comma-separated parts.
pub open spec fn op_of(raw: Seq<char>) -> Result<Op, Seq<char>> {
    let line = trim(raw);
    match line.index_of_first(' ') {
        None => Err("malformed instruction "@ + debug_text(line)),
        Some(k) => op_of_parts(line, line.take(k), split(line.skip(k + 1), ',')),
    }
}

/// The addresses that the first `k` of the comma-separated parts of an
/// address list write.
pub open spec fn addresses(parts: Seq<Seq<char>>, k: nat) -> Result<Seq<u16>, Seq<char>>
    decreases k,
{
    if k == 0 {
        Ok(Seq::<u16>::empty())
    } else {
        match addresses(parts, (k - 1) as nat) {
            Err(e) => Err(e),
            Ok(front) => match u16_of(trim(parts[k - 1])) {
                None => Err(bad_token("address"@, trim(parts[k - 1]))),
                Some(v) => if v == 0 {
                    Err("addresses are 1-based; got 0"@)
                } else {
                    Ok(front.push(v))
                },
            },
        }
    }
}

/// The addresses that a comma-separated list writes.
pub open spec fn addr_list(line: Seq<char>) -> Result<Seq<u16>, Seq<char>> {
    let parts = split(line, ',');
    addresses(parts, parts.len())
}

/// The first `k` lines that are not blank among `lines`.
pub open spec fn nonblank(lines: Seq<Seq<char>>, k: nat) -> Seq<Seq<char>>
    decreases k,
{
    if k == 0 {
        Seq::<Seq<char>>::empty()
    } else if trim(lines[k - 1]).len() == 0 {
        nonblank(lines, (k - 1) as nat)
    } else {
        nonblank(lines, (k - 1) as nat).push(lines[k - 1])
    }
}

/// The lines of `text` that are not blank. (A carriage return in front
/// of a line feed is white space at the end of its line.)
pub open spec fn nonblank_lines(text: Seq<char>) -> Seq<Seq<char>> {
    let lines = split(text, '\n');
    nonblank(lines, lines.len())
}

/// The instructions that the first `k` lines write.
pub open spec fn ops_of(lines: Seq<Seq<char>>, k: nat) -> Result<Seq<Op>, Seq<char>>
    decreases k,
{
    if k == 0 {
        Ok(Seq::<Op>::empty())
    } else {
        match ops_of(lines, (k - 1) as nat) {
            Err(e) => Err(e),
            Ok(front) => match op_of(lines[k - 1]) {
                Err(e) => Err(e),
                Ok(op) => Ok(front.push(op)),
            },
        }
    }
}

/// What a program text writes: input addresses, instructions and output
/// addresses.
pub struct Listing {
    pub inputs: Seq<u16>,
    pub ops: Seq<Op>,
    pub outputs: Seq<u16>,
}

/// The listing that `text` writes, or the message that refuses it.
pub open spec fn listing_of(text: Seq<char>) -> Result<Listing, Seq<char>> {
    let lines = nonblank_lines(text);
    let n = lines.len();
    if n == 0 {
        Err("empty program"@)
    } else if n == 1 {
        Err("program has ops but no output declaration"@)
    } else {
        match addr_list(lines[0]) {
            Err(e) => Err(e),
            Ok(inputs) => match addr_list(lines[n - 1]) {
                Err(e) => Err(e),
                Ok(outputs) => match ops_of(lines.subrange(1, n - 1), (n - 2) as nat) {
                    Err(e) => Err(e),
                    Ok(ops) => Ok(Listing { inputs, ops, outputs }),
                },
            },
        }
    }
}

/// The views of a vector of character slices.
pub open spec fn views(parts: Seq<&[char]>) -> Seq<Seq<char>> {
    Seq::new(parts.len(), |i: int| parts[i]@)
}

/// The message `lead`, then the debug text of `subject`.
fn about(lead: &str, subject: &[char]) -> (e: String)
    ensures
        e@ == lead@ + debug_text(subject@),
{
    let mut e: String = String::from_str(lead);
    append_quoted(&mut e, subject);
    e
}

/// The message for a token that does not parse in the role `what`.
fn bad_token_message(what: &str, token: &[char]) -> (e: String)
    ensures
        e@ == bad_token(what@, token@),
{
    let mut e: String = String::from_str("bad ");
    e.append(what);
    e.append(" ");
    append_quoted(&mut e, token);
    e
}

fn parse_address(token: &[char], what: &str, line: &[char]) -> (r: Result<u16, String>)
    ensures
        agrees(r, address(token@, what@, line@)),
{
    match parse_u16(token) {
        None => Err(bad_token_message(what, token)),
        Some(v) => if v == 0 {
            Err(about("addresses are 1-based; got 0 in ", line))
        } else {
            Ok(v)
        },
    }
}

fn parse_operand(parts: &Vec<&[char]>, k: usize, what: &str, line: &[char]) -> (r: Result<
    u16,
    String,
>)
    ensures
        agrees(r, operand(views(parts@), k as int, what@, line@)),
{
    if k < parts.len() {
        parse_address(trimmed(parts[k]), what, line)
    } else {
        let mut e: String = String::from_str("missing ");
        e.append(what);
        e.append(" in ");
        append_quoted(&mut e, line);
        Err(e)
    }
}

fn parse_predicate(word: &[char]) -> (r: Option<OpKind>)
    ensures
        r == predicate(word@),
{
    if is_word(word, "eq") {
        Some(OpKind::CmpEq)
    } else if is_word(word, "ne") {
        Some(OpKind::CmpNe)
    } else if is_word(word, "lt") {
        Some(OpKind::CmpLt)
    } else if is_word(word, "le") {
        Some(OpKind::CmpLe)
    } else if is_word(word, "gt") {
        Some(OpKind::CmpGt)
    } else if is_word(word, "ge") {
        Some(OpKind::CmpGe)
    } else {
        None
    }
}

fn parse_opcode(word: &[char]) -> (r: Option<OpKind>)
    ensures
        r == opcode(word@),
{
    if is_word(word, "set") {
        Some(OpKind::SetImm)
    } else if is_word(word, "copy") {
        Some(OpKind::Copy)
    } else if is_word(word, "not") {
        Some(OpKind::Not)
    } else if is_word(word, "abs") {
        Some(OpKind::Abs)
    } else if is_word(word, "and") {
        Some(OpKind::And)
    } else if is_word(word, "or") {
        Some(OpKind::Or)
    } else if is_word(word, "xor") {
        Some(OpKind::Xor)
    } else if is_word(word, "add") {
        Some(OpKind::Add)
    } else if is_word(word, "sub") {
        Some(OpKind::Sub)
    } else if is_word(word, "mul") {
        Some(OpKind::Mul)
    } else if is_word(word, "div") {
        Some(OpKind::Div)
    } else if is_word(word, "select") {
        Some(OpKind::Select)
    } else {
        None
    }
}

fn parse_comparison(line: &[char], parts: &Vec<&[char]>) -> (r: Result<Op, String>)
    ensures
        agrees(r, comparison_op(line@, views(parts@))),
{
    let dst: u16 = match parse_operand(parts, 0, "dest", line) {
        Ok(v) => v,
        Err(e) => return Err(e),
    };
    let a: u16 = match parse_operand(parts, 1, "lhs", line) {
        Ok(v) => v,
        Err(e) => return Err(e),
    };
    let b: u16 = match parse_operand(parts, 2, "rhs", line) {
        Ok(v) => v,
        Err(e) => return Err(e),
    };
    if parts.len() <= 3 {
        return Err(about("cmp needs a predicate in ", line));
    }
    let word: &[char] = trimmed(parts[3]);
    match parse_predicate(word) {
        Some(kind) => Ok(Op { kind, dst, a, b, c: 1, imm: 0 }),
        None => Err(about("bad predicate ", word)),
    }
}

fn parse_set(line: &[char], parts: &Vec<&[char]>, dst: u16) -> (r: Result<Op, String>)
    ensures
        agrees(r, set_op(line@, views(parts@), dst)),
{
    if parts.len() <= 1 {
        return Err(about("set needs an immediate in ", line));
    }
    let token: &[char] = trimmed(parts[1]);
    match parse_i32(token) {
        None => Err(bad_token_message("immediate", token)),
        Some(v) => if -128 <= v && v <= 255 {
            let imm: u8 = if v < 0 {
                (v + 256) as u8
            } else {
                v as u8
            };
            Ok(Op { kind: OpKind::SetImm, dst, a: 1, b: 1, c: 1, imm })
        } else {
            let mut e: String = String::from_str("immediate ");
            append_signed(&mut e, v as i64);
            e.append(" out of 8-bit range");
            Err(e)
        },
    }
}

fn parse_plain(
    line: &[char],
    head: &[char],
    parts: &Vec<&[char]>,
    kind: OpKind,
    dst: u16,
) -> (r: Result<Op, String>)
    requires
        parts@.len() > 0,
        kind != OpKind::SetImm,
    ensures
        agrees(r, plain_op(line@, head@, views(parts@), kind, dst)),
{
    let n: usize = parts.len() - 1;
    match kind {
        OpKind::Copy | OpKind::Not | OpKind::Abs => {
            if n != 1 {
                let mut e: String = String::new();
                append_quoted(&mut e, head);
                e.append(" needs exactly 1 operand in ");
                append_quoted(&mut e, line);
                assert(e@ =~= debug_text(head@) + " needs exactly 1 operand in "@ + debug_text(
                    line@,
                ));
                return Err(e);
            }
            match parse_operand(parts, 1, "src1", line) {
                Ok(a) => Ok(Op { kind, dst, a, b: 1, c: 1, imm: 0 }),
                Err(e) => Err(e),
            }
        },
        OpKind::Select => {
            if n != 3 {
                return Err(about("select needs 3 operands in ", line));
            }
            let a: u16 = match parse_operand(parts, 1, "cond", line) {
                Ok(v) => v,
                Err(e) => return Err(e),
            };
            let b: u16 = match parse_operand(parts, 2, "true-src", line) {
                Ok(v) => v,
                Err(e) => return Err(e),
            };
            match parse_operand(parts, 3, "false-src", line) {
                Ok(c) => Ok(Op { kind, dst, a, b, c, imm: 0 }),
                Err(e) => Err(e),
            }
        },
        _ => {
            if n == 1 {
                match parse_operand(parts, 1, "src2", line) {
                    Ok(b) => Ok(Op { kind, dst, a: dst, b, c: 1, imm: 0 }),
                    Err(e) => Err(e),
                }
            } else if n == 2 {
                let a: u16 = match parse_operand(parts, 1, "src1", line) {
                    Ok(v) => v,
                    Err(e) => return Err(e),
                };
                match parse_operand(parts, 2, "src2", line) {
                    Ok(b) => Ok(Op { kind, dst, a, b, c: 1, imm: 0 }),
                    Err(e) => Err(e),
                }
            } else {
                let mut e: String = String::new();
                append_quoted(&mut e, head);
                e.append(" needs 2 or 3 operands, got ");
                append_decimal(&mut e, n as u64);
                assert(e@ =~= debug_text(head@) + " needs 2 or 3 operands, got "@ + decimal(
                    n as nat,
                ));
                Err(e)
            }
        },
    }
}

/// Every address that an instruction line writes is 1-based.
proof fn lemma_parsed_op(raw: Seq<char>)
    ensures
        op_of(raw) matches Ok(op) ==> op.priceable() && op.dst >= 1 && op.a >= 1 && op.b >= 1
            && op.c >= 1,
{
}

/// Parse one instruction line.
pub fn parse_op(raw: &[char]) -> (r: Result<Op, String>)
    ensures
        agrees(r, op_of(raw@)),
        r matches Ok(op) ==> op.priceable(),
{
    let line: &[char] = trimmed(raw);
    let n: usize = line.len();
    proof {
        line@.index_of_first_ensures(' ');
        lemma_parsed_op(raw@);
    }
    let mut k: usize = 0;
    while k < n && line[k] != ' '
        invariant
            n == line@.len(),
            k <= n,
            forall|j: int| 0 <= j < k ==> (#[trigger] line@[j]) != ' ',
        decreases n - k,
    {
        k = k + 1;
    }
    if k == n {
        return Err(about("malformed instruction ", line));
    }
    assert(line@.contains(' '));
    assert(line@.index_of_first(' ') == Some(k as int));
    let head: &[char] = slice_subrange(line, 0, k);
    let rest: &[char] = slice_subrange(line, k + 1, n);
    assert(head@ =~= line@.take(k as int));
    assert(rest@ =~= line@.skip(k + 1));
    let parts: Vec<&[char]> = split_on(rest, ',');
    assert(views(parts@) =~= split(rest@, ','));
    proof {
        lemma_split_bounds(rest@, ',');
    }
    if is_word(head, "cmp") {
        return parse_comparison(line, &parts);
    }
    match parse_opcode(head) {
        None => Err(about("unknown opcode ", head)),
        Some(kind) => match parse_operand(&parts, 0, "dest", line) {
            Err(e) => Err(e),
            Ok(dst) => if kind == OpKind::SetImm {
                parse_set(line, &parts, dst)
            } else {
                parse_plain(line, head, &parts, kind, dst)
            },
        },
    }
}

/// Parse a comma-separated list of 1-based addresses.
pub fn parse_addr_list(line: &[char]) -> (r: Result<Vec<u16>, String>)
    ensures
        match addr_list(line@) {
            Ok(v) => r matches Ok(x) && x@ == v,
            Err(f) => r matches Err(e) && e@ == f,
        },
        r matches Ok(x) ==> {
            &&& 0 < x@.len() <= line@.len() + 1
            &&& forall|i: int| 0 <= i < x@.len() ==> (#[trigger] x@[i]) >= 1
        },
{
    let parts: Vec<&[char]> = split_on(line, ',');
    assert(views(parts@) =~= split(line@, ','));
    proof {
        lemma_split_bounds(line@, ',');
    }
    let n: usize = parts.len();
    let mut v: Vec<u16> = Vec::new();
    for k in 0..n
        invariant
            n == parts@.len(),
            views(parts@) == split(line@, ','),
            v@.len() == k,
            addresses(views(parts@), k as nat) == Ok::<Seq<u16>, Seq<char>>(v@),
            forall|i: int| 0 <= i < v@.len() ==> (#[trigger] v@[i]) >= 1,
    {
        let token: &[char] = trimmed(parts[k]);
        assert(views(parts@)[k as int] == parts@[k as int]@);
        match parse_u16(token) {
            None => {
                proof {
                    lemma_address_error(views(parts@), (k + 1) as nat, n as nat);
                }
                return Err(bad_token_message("address", token));
            },
            Some(a) => {
                if a == 0 {
                    proof {
                        lemma_address_error(views(parts@), (k + 1) as nat, n as nat);
                    }
                    return Err(String::from_str("addresses are 1-based; got 0"));
                }
                v.push(a);
            },
        }
    }
    Ok(v)
}

/// The first bad address decides the message.
pub proof fn lemma_address_error(parts: Seq<Seq<char>>, k: nat, n: nat)
    requires
        k <= n,
        addresses(parts, k) is Err,
    ensures
        addresses(parts, n) == addresses(parts, k),
    decreases n,
{
    if k < n {
        lemma_address_error(parts, k, (n - 1) as nat);
    }
}

/// The first bad instruction decides the message.
pub proof fn lemma_op_error(lines: Seq<Seq<char>>, k: nat, n: nat)
    requires
        k <= n,
        ops_of(lines, k) is Err,
    ensures
        ops_of(lines, n) == ops_of(lines, k),
    decreases n,
{
    if k < n {
        lemma_op_error(lines, k, (n - 1) as nat);
    }
}

/// Dropping blank lines leaves no more lines, and none longer.
proof fn lemma_nonblank_bounds(lines: Seq<Seq<char>>, k: nat, longest: nat)
    requires
        k <= lines.len(),
        forall|i: int| 0 <= i < lines.len() ==> (#[trigger] lines[i]).len() <= longest,
    ensures
        nonblank(lines, k).len() <= k,
        forall|i: int|
            0 <= i < nonblank(lines, k).len() ==> (#[trigger] nonblank(lines, k)[i]).len()
                <= longest,
    decreases k,
{
    if k > 0 {
        lemma_nonblank_bounds(lines, (k - 1) as nat, longest);
    }
}

/// The lines of `text` that are not blank.
fn content_lines<'a>(text: &'a [char]) -> (v: Vec<&'a [char]>)
    ensures
        views(v@) == nonblank_lines(text@),
        v@.len() <= text@.len() + 1,
        forall|i: int| 0 <= i < v@.len() ==> (#[trigger] v@[i])@.len() <= text@.len(),
{
    let lines: Vec<&'a [char]> = split_on(text, '\n');
    let ghost all = split(text@, '\n');
    assert(views(lines@) =~= all);
    let n: usize = lines.len();
    let mut v: Vec<&'a [char]> = Vec::new();
    for k in 0..n
        invariant
            n == lines@.len(),
            views(lines@) == all,
            views(v@) == nonblank(all, k as nat),
    {
        assert(all[k as int] == lines@[k as int]@);
        if trimmed(lines[k]).len() > 0 {
            v.push(lines[k]);
            assert(views(v@) =~= nonblank(all, (k + 1) as nat));
        }
    }
    proof {
        lemma_split_bounds(text@, '\n');
        lemma_nonblank_bounds(all, n as nat, text@.len());
        assert forall|i: int| 0 <= i < v@.len() implies (#[trigger] v@[i])@.len()
            <= text@.len() by {
            assert(views(v@)[i] == v@[i]@);
        }
    }
    v
}

/// What one more instruction adds to the price and to the highest
/// address of a program.
proof fn lemma_ops_price_push(ops: Seq<Op>, op: Op)
    ensures
        ops_price(ops.push(op)) == ops_price(ops) + op.reads_price(),
        ops_top(ops.push(op)) == larger(ops_top(ops), op.top_addr()),
{
    assert(ops.push(op).drop_last() =~= ops);
}

impl Program {
    /// Parse the benchmark text IR. The bound on the text keeps the
    /// static cost within 64 bits.
    pub fn parse(text: &str) -> (r: Result<Program, String>)
        requires
            1024 * (text@.len() + 1) <= u64::MAX,
        ensures
            match listing_of(text@) {
                Ok(l) => r matches Ok(p) && p.inputs@ == l.inputs && p.ops() == l.ops
                    && p.outputs@ == l.outputs,
                Err(f) => r matches Err(e) && e@ == f,
            },
            r matches Ok(p) ==> {
                &&& p.finalized()
                &&& p.inputs@.len() > 0
                &&& p.within((p.max_addr + 1) as nat)
            },
    {
        let chars: Vec<char> = chars_of(text);
        let lines: Vec<&[char]> = content_lines(chars.as_slice());
        let ghost all = nonblank_lines(text@);
        let n: usize = lines.len();
        assert(n == all.len());
        if n == 0 {
            return Err(String::from_str("empty program"));
        }
        if n == 1 {
            return Err(String::from_str("program has ops but no output declaration"));
        }
        assert(all[0] == lines@[0]@);
        assert(all[n - 1] == lines@[n - 1]@);
        let mut p = Program::default();
        p.inputs = match parse_addr_list(lines[0]) {
            Ok(v) => v,
            Err(e) => return Err(e),
        };
        p.outputs = match parse_addr_list(lines[n - 1]) {
            Ok(v) => v,
            Err(e) => return Err(e),
        };
        assert(p.ops() =~= Seq::<Op>::empty());
        let ghost body = all.subrange(1, n - 1);
        let ghost ins = p.inputs@;
        let ghost outs = p.outputs@;
        for k in 1..n - 1
            invariant
                n == lines@.len(),
                n >= 2,
                n <= text@.len() + 1,
                views(lines@) == all,
                body == all.subrange(1, n - 1),
                1024 * (text@.len() + 1) <= u64::MAX,
                p.wf(),
                p.inputs@ == ins,
                p.outputs@ == outs,
                p.ops().len() == k - 1,
                p.static_cost == ops_price(p.ops()),
                p.max_addr == ops_top(p.ops()),
                ops_of(body, (k - 1) as nat) == Ok::<Seq<Op>, Seq<char>>(p.ops()),
                addr_list(all[0]) == Ok::<Seq<u16>, Seq<char>>(ins),
                addr_list(all[n - 1]) == Ok::<Seq<u16>, Seq<char>>(outs),
                all == nonblank_lines(text@),
        {
            assert(body[k - 1] == lines@[k as int]@);
            let op: Op = match parse_op(lines[k]) {
                Ok(op) => op,
                Err(e) => {
                    proof {
                        lemma_op_error(body, k as nat, (n - 2) as nat);
                    }
                    return Err(e);
                },
            };
            proof {
                lemma_ops_price_push(p.ops(), op);
                lemma_ops_price_bound(p.ops().push(op));
            }
            p.push(op);
        }
        proof {
            lemma_ops_price_bound(p.ops());
            lemma_cells_price_bound(p.outputs@);
        }
        p.finalize();
        proof {
            law_max_addr_covers_program(p);
        }
        Ok(p)
    }
}

/// The accumulator form `op dst,s2` writes the same instruction as
/// `op dst,dst,s2`: its first source is the destination, which is
/// charged as a read too.
pub proof fn law_accumulator_form(
    short_line: Seq<char>,
    long_line: Seq<char>,
    head: Seq<char>,
    dst: Seq<char>,
    src: Seq<char>,
)
    requires
        head != "cmp"@,
        opcode(head) matches Some(kind) && kind.arity() == 2,
        op_of_parts(short_line, head, seq![dst, src]) is Ok,
    ensures
        op_of_parts(long_line, head, seq![dst, dst, src]) == op_of_parts(
            short_line,
            head,
            seq![dst, src],
        ),
        op_of_parts(short_line, head, seq![dst, src]) matches Ok(op) && op.a == op.dst,
{
}

/// Parts that are equal up to white space at their ends write the same
/// addresses.
proof fn lemma_addresses_trimmed(x: Seq<Seq<char>>, y: Seq<Seq<char>>, k: nat)
    requires
        same_trimmed(x, y),
        k <= x.len(),
    ensures
        addresses(x, k) == addresses(y, k),
    decreases k,
{
    if k > 0 {
        lemma_addresses_trimmed(x, y, (k - 1) as nat);
        assert(trim(x[k - 1]) == trim(y[k - 1]));
    }
}

/// White space at the ends of an address list does not matter.
proof fn lemma_addr_list_trimmed(line: Seq<char>)
    ensures
        addr_list(line) == addr_list(trim(line)),
{
    lemma_split_trimmed(line, ',');
    let x = split(line, ',');
    lemma_addresses_trimmed(x, split(trim(line), ','), x.len());
}

/// Lines that are equal up to white space at their ends write the same
/// instructions.
proof fn lemma_ops_trimmed(x: Seq<Seq<char>>, y: Seq<Seq<char>>, k: nat)
    requires
        same_trimmed(x, y),
        k <= x.len(),
    ensures
        ops_of(x, k) == ops_of(y, k),
    decreases k,
{
    if k > 0 {
        lemma_ops_trimmed(x, y, (k - 1) as nat);
        assert(trim(x[k - 1]) == trim(y[k - 1]));
    }
}

/// Only the lines that are not blank count, and of them only what is left
/// without white space at their ends: two texts that agree in that write
/// the same listing, or are refused with the same message.
pub proof fn law_line_ends_do_not_matter(x: Seq<char>, y: Seq<char>)
    requires
        same_trimmed(nonblank_lines(x), nonblank_lines(y)),
    ensures
        listing_of(x) == listing_of(y),
{
    let xs = nonblank_lines(x);
    let ys = nonblank_lines(y);
    let n = xs.len();
    if n >= 2 {
        assert(trim(xs[0]) == trim(ys[0]));
        assert(trim(xs[n - 1]) == trim(ys[n - 1]));
        lemma_addr_list_trimmed(xs[0]);
        lemma_addr_list_trimmed(ys[0]);
        lemma_addr_list_trimmed(xs[n - 1]);
        lemma_addr_list_trimmed(ys[n - 1]);
        let xb = xs.subrange(1, n - 1);
        let yb = ys.subrange(1, n - 1);
        assert forall|i: int| 0 <= i < xb.len() implies trim(#[trigger] xb[i]) == trim(yb[i]) by {
            assert(trim(xs[i + 1]) == trim(ys[i + 1]));
        }
        lemma_ops_trimmed(xb, yb, (n - 2) as nat);
    }
}

/// The lines that are not blank among two sequences of lines.
proof fn lemma_nonblank_concat(x: Seq<Seq<char>>, y: Seq<Seq<char>>, k: nat)
    requires
        k <= y.len(),
    ensures
        nonblank(x + y, x.len() + k) == nonblank(x, x.len()) + nonblank(y, k),
    decreases k,
{
    if k == 0 {
        lemma_nonblank_prefix(x, y, x.len());
        assert(nonblank(x, x.len()) + nonblank(y, 0) =~= nonblank(x, x.len()));
    } else {
        lemma_nonblank_concat(x, y, (k - 1) as nat);
        assert((x + y)[x.len() + k - 1] == y[k - 1]);
        assert((x.len() + k - 1) as nat == x.len() + (k - 1) as nat);
        let front = nonblank(x, x.len());
        let back = nonblank(y, (k - 1) as nat);
        if trim(y[k - 1]).len() > 0 {
            assert((front + back).push(y[k - 1]) =~= front + back.push(y[k - 1]));
        }
    }
}

/// Lines that follow do not change which of the first are blank.
proof fn lemma_nonblank_prefix(x: Seq<Seq<char>>, y: Seq<Seq<char>>, k: nat)
    requires
        k <= x.len(),
    ensures
        nonblank(x + y, k) == nonblank(x, k),
    decreases k,
{
    if k > 0 {
        lemma_nonblank_prefix(x, y, (k - 1) as nat);
        assert((x + y)[k - 1] == x[k - 1]);
    }
}

/// The lines of two texts, one above the other, are those of the one, then
/// those of the other.
pub proof fn law_lines_of_stacked_texts(x: Seq<char>, y: Seq<char>)
    ensures
        nonblank_lines(x.push('\n') + y) == nonblank_lines(x) + nonblank_lines(y),
{
    lemma_split_concat(x, y, '\n');
    let xs = split(x, '\n');
    let ys = split(y, '\n');
    lemma_nonblank_concat(xs, ys, ys.len());
}

/// Blank lines are not kept.
proof fn lemma_all_blank(lines: Seq<Seq<char>>, k: nat)
    requires
        k <= lines.len(),
        forall|i: int| 0 <= i < lines.len() ==> trim(#[trigger] lines[i]).len() == 0,
    ensures
        nonblank(lines, k) == Seq::<Seq<char>>::empty(),
    decreases k,
{
    if k > 0 {
        lemma_all_blank(lines, (k - 1) as nat);
        assert(trim(lines[k - 1]).len() == 0);
    }
}

/// The pieces of white space are white space.
proof fn lemma_split_all_space(w: Seq<char>, sep: char)
    requires
        all_space(w),
    ensures
        forall|i: int| 0 <= i < split(w, sep).len() ==> all_space(#[trigger] split(w, sep)[i]),
    decreases w.len(),
{
    lemma_split_bounds(w, sep);
    if w.len() > 0 {
        let v = w.drop_last();
        assert(is_space(w[w.len() - 1]));
        assert forall|i: int| 0 <= i < v.len() implies is_space(#[trigger] v[i]) by {
            assert(v[i] == w[i]);
        }
        lemma_split_all_space(v, sep);
        lemma_split_bounds(v, sep);
        let fs = split(v, sep);
        assert(all_space(fs[fs.len() - 1]));
        assert forall|i: int| 0 <= i < split(w, sep).len() implies all_space(
            #[trigger] split(w, sep)[i],
        ) by {
            if i < fs.len() - 1 {
                assert(split(w, sep)[i] == fs[i]);
                assert(all_space(fs[i]));
            }
        }
    }
}

/// A text of white space has no lines that count.
proof fn lemma_blank_text(w: Seq<char>)
    requires
        all_space(w),
    ensures
        nonblank_lines(w) == Seq::<Seq<char>>::empty(),
{
    let lines = split(w, '\n');
    lemma_split_all_space(w, '\n');
    assert forall|i: int| 0 <= i < lines.len() implies trim(#[trigger] lines[i]).len() == 0 by {
        assert(all_space(lines[i]));
        lemma_trim_all_space(lines[i]);
    }
    lemma_all_blank(lines, lines.len());
}

/// Inserting blank lines, between, before or after the lines of a text,
/// leaves the lines that count as they were, and so the listing.
pub proof fn law_blank_lines_do_not_matter(x: Seq<char>, w: Seq<char>, y: Seq<char>)
    requires
        all_space(w),
    ensures
        nonblank_lines(x.push('\n') + w.push('\n') + y) == nonblank_lines(x.push('\n') + y),
        nonblank_lines(w.push('\n') + y) == nonblank_lines(y),
        nonblank_lines(x.push('\n') + w) == nonblank_lines(x),
        listing_of(x.push('\n') + w.push('\n') + y) == listing_of(x.push('\n') + y),
        listing_of(w.push('\n') + y) == listing_of(y),
        listing_of(x.push('\n') + w) == listing_of(x),
{
    lemma_blank_text(w);
    law_lines_of_stacked_texts(w, y);
    law_lines_of_stacked_texts(x, w);
    law_lines_of_stacked_texts(x, y);
    law_lines_of_stacked_texts(x, w.push('\n') + y);
    assert(x.push('\n') + w.push('\n') + y =~= x.push('\n') + (w.push('\n') + y));
    assert(Seq::<Seq<char>>::empty() + nonblank_lines(y) =~= nonblank_lines(y));
    assert(nonblank_lines(x) + Seq::<Seq<char>>::empty() =~= nonblank_lines(x));
}

/// Lines that are equal up to white space at their ends are blank
/// together.
proof fn lemma_nonblank_trimmed(x: Seq<Seq<char>>, y: Seq<Seq<char>>, k: nat)
    requires
        same_trimmed(x, y),
        k <= x.len(),
    ensures
        same_trimmed(nonblank(x, k), nonblank(y, k)),
    decreases k,
{
    if k > 0 {
        lemma_nonblank_trimmed(x, y, (k - 1) as nat);
        assert(trim(x[k - 1]) == trim(y[k - 1]));
        let xs = nonblank(x, (k - 1) as nat);
        let ys = nonblank(y, (k - 1) as nat);
        if trim(x[k - 1]).len() > 0 {
            assert forall|i: int| 0 <= i < xs.push(x[k - 1]).len() implies trim(
                #[trigger] xs.push(x[k - 1])[i],
            ) == trim(ys.push(y[k - 1])[i]) by {
                if i < xs.len() {
                    assert(trim(xs[i]) == trim(ys[i]));
                }
            }
        }
    }
}

/// Sequences of lines that are equal up to white space at the ends of the
/// lines, put together.
proof fn lemma_same_trimmed_concat(
    x1: Seq<Seq<char>>,
    x2: Seq<Seq<char>>,
    y1: Seq<Seq<char>>,
    y2: Seq<Seq<char>>,
)
    requires
        same_trimmed(x1, y1),
        same_trimmed(x2, y2),
    ensures
        same_trimmed(x1 + x2, y1 + y2),
{
    assert forall|i: int| 0 <= i < (x1 + x2).len() implies trim(#[trigger] (x1 + x2)[i]) == trim(
        (y1 + y2)[i],
    ) by {
        if i < x1.len() {
            assert(trim(x1[i]) == trim(y1[i]));
        } else {
            assert(trim(x2[i - x1.len()]) == trim(y2[i - x1.len()]));
        }
    }
}

/// Adding white space at the start or at the end of a line, a carriage
/// return included, changes neither whether a text is accepted nor what it
/// writes nor the message that refuses it. Here the line ends where `x`
/// meets `y`: `y` is the end of the text or starts a new line, or `x` is
/// the start of the text or has just ended a line.
pub proof fn law_blanks_at_line_ends_do_not_matter(x: Seq<char>, w: Seq<char>, y: Seq<char>)
    requires
        all_space(w),
        !w.contains('\n'),
        y.len() == 0 || y[0] == '\n' || x.len() == 0 || x.last() == '\n',
    ensures
        listing_of(x + w + y) == listing_of(x + y),
{
    if y.len() == 0 {
        assert(x + w + y =~= x + w);
        assert(x + y =~= x);
        lemma_split_space_back(x, w, '\n');
    } else if y[0] == '\n' {
        let rest = y.skip(1);
        assert(x + w + y =~= (x + w).push('\n') + rest);
        assert(x + y =~= x.push('\n') + rest);
        lemma_split_concat(x + w, rest, '\n');
        lemma_split_concat(x, rest, '\n');
        lemma_split_space_back(x, w, '\n');
        let rs = split(rest, '\n');
        lemma_same_trimmed_concat(split(x + w, '\n'), rs, split(x, '\n'), rs);
    } else if x.len() == 0 {
        assert(x + w + y =~= w + y);
        assert(x + y =~= y);
        lemma_split_space_front(w, y, '\n');
    } else {
        let head = x.drop_last();
        assert(x + w + y =~= head.push('\n') + (w + y));
        assert(x + y =~= head.push('\n') + y);
        lemma_split_concat(head, w + y, '\n');
        lemma_split_concat(head, y, '\n');
        lemma_split_space_front(w, y, '\n');
        let hs = split(head, '\n');
        lemma_same_trimmed_concat(hs, split(w + y, '\n'), hs, split(y, '\n'));
    }
    let ps = split(x + w + y, '\n');
    lemma_nonblank_trimmed(ps, split(x + y, '\n'), ps.len());
    law_line_ends_do_not_matter(x + w + y, x + y);
}

/// How many addresses a list writes: one for each of its parts.
proof fn lemma_addresses_len(parts: Seq<Seq<char>>, k: nat)
    ensures
        addresses(parts, k) matches Ok(v) ==> v.len() == k,
    decreases k,
{
    if k > 0 {
        lemma_addresses_len(parts, (k - 1) as nat);
    }
}

/// Lines write instructions when each of them does, and then one each.
pub proof fn lemma_ops_each(lines: Seq<Seq<char>>, k: nat)
    ensures
        ops_of(lines, k) is Ok <==> forall|i: int|
            0 <= i < k ==> op_of(#[trigger] lines[i]) is Ok,
        ops_of(lines, k) matches Ok(ops) ==> {
            &&& ops.len() == k
            &&& forall|i: int|
                0 <= i < k ==> op_of(lines[i]) == Ok::<Op, Seq<char>>(#[trigger] ops[i])
        },
    decreases k,
{
    if k > 0 {
        lemma_ops_each(lines, (k - 1) as nat);
        if let Ok(front) = ops_of(lines, (k - 1) as nat) {
            assert forall|i: int| 0 <= i < k - 1 implies op_of(#[trigger] lines[i]) is Ok by {
                assert(op_of(lines[i]) == Ok::<Op, Seq<char>>(front[i]));
            }
        }
    }
}

/// A text is accepted when it has at least two lines that are not blank,
/// the first and the last of them are address lists, and each one between
/// is an instruction. The listing is then what these lines write, with
/// neither address list empty. Too few lines are refused by name.
pub proof fn law_text_is_read_line_by_line(text: Seq<char>)
    ensures
        ({
            let lines = nonblank_lines(text);
            let n = lines.len();
            &&& n == 0 ==> listing_of(text) == Err::<Listing, Seq<char>>("empty program"@)
            &&& n == 1 ==> listing_of(text) == Err::<Listing, Seq<char>>(
                "program has ops but no output declaration"@,
            )
            &&& listing_of(text) is Ok <==> {
                &&& n >= 2
                &&& addr_list(lines[0]) is Ok
                &&& addr_list(lines[n - 1]) is Ok
                &&& forall|i: int| 0 < i < n - 1 ==> op_of(#[trigger] lines[i]) is Ok
            }
            &&& listing_of(text) matches Ok(l) ==> {
                &&& addr_list(lines[0]) == Ok::<Seq<u16>, Seq<char>>(l.inputs)
                &&& addr_list(lines[n - 1]) == Ok::<Seq<u16>, Seq<char>>(l.outputs)
                &&& l.inputs.len() > 0
                &&& l.outputs.len() > 0
                &&& l.ops.len() == n - 2
                &&& forall|i: int|
                    0 <= i < n - 2 ==> op_of(lines[i + 1]) == Ok::<Op, Seq<char>>(
                        #[trigger] l.ops[i],
                    )
            }
        }),
{
    let lines = nonblank_lines(text);
    let n = lines.len();
    if n >= 2 {
        let body = lines.subrange(1, n - 1);
        lemma_ops_each(body, (n - 2) as nat);
        lemma_split_bounds(lines[0], ',');
        lemma_split_bounds(lines[n - 1], ',');
        lemma_addresses_len(split(lines[0], ','), split(lines[0], ',').len());
        lemma_addresses_len(split(lines[n - 1], ','), split(lines[n - 1], ',').len());
        assert((forall|i: int| 0 <= i < n - 2 ==> op_of(#[trigger] body[i]) is Ok) <==> (forall|
            i: int,
        |
            0 < i < n - 1 ==> op_of(#[trigger] lines[i]) is Ok)) by {
            assert forall|i: int| 0 < i < n - 1 implies lines[i] == #[trigger] body[i - 1] by {}
            if forall|i: int| 0 <= i < n - 2 ==> op_of(#[trigger] body[i]) is Ok {
                assert forall|i: int| 0 < i < n - 1 implies op_of(#[trigger] lines[i]) is Ok by {
                    assert(op_of(body[i - 1]) is Ok);
                }
            }
            if forall|i: int| 0 < i < n - 1 ==> op_of(#[trigger] lines[i]) is Ok {
                assert forall|i: int| 0 <= i < n - 2 implies op_of(#[trigger] body[i]) is Ok by {
                    assert(body[i] == lines[i + 1]);
                }
            }
        }
        if let Ok(ops) = ops_of(body, (n - 2) as nat) {
            assert forall|i: int| 0 <= i < n - 2 implies op_of(lines[i + 1]) == Ok::<
                Op,
                Seq<char>,
            >(#[trigger] ops[i]) by {
                assert(body[i] == lines[i + 1]);
            }
        }
    }
}

} // verus!
