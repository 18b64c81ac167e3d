//! Laws of the text IR: what each form of line writes, and what refuses a
//! line, in terms of its words and of the numbers that its tokens write.

use crate::ir::{Op, OpKind};
use crate::notation::{free_of, joined, law_join_undoes_split, law_split_undoes_join};
use crate::parse::{
    addr_list, addresses, agrees, lemma_address_error, lemma_op_error, lemma_ops_each, listing_of,
    nonblank, nonblank_lines, op_of, op_of_parts, ops_of, Listing,
};
use crate::text::{debug_text, decimal, decimal_signed, i32_of, split, trim, u16_of};
use vstd::prelude::*;

verus! {

/// The line `raw` is, up to white space at its ends, the word `head`, a
/// space, and the comma-separated `parts`.
pub open spec fn is_line(raw: Seq<char>, head: Seq<char>, parts: Seq<Seq<char>>) -> bool {
    &&& parts.len() >= 1
    &&& free_of(parts, ',')
    &&& !head.contains(' ')
    &&& trim(raw) == head.push(' ') + joined(parts, ',')
}

/// The token `t` writes the 1-based address `v`, white space at its ends
/// aside.
pub open spec fn writes_addr(t: Seq<char>, v: u16) -> bool {
    u16_of(trim(t)) == Some(v) && v >= 1
}

/// A line is read by its head and its parts.
proof fn lemma_line_by_parts(raw: Seq<char>, head: Seq<char>, parts: Seq<Seq<char>>)
    requires
        is_line(raw, head, parts),
    ensures
        op_of(raw) == op_of_parts(trim(raw), head, parts),
{
    let line = trim(raw);
    let k = head.len() as int;
    assert(line[k] == ' ');
    assert(line.contains(' '));
    line.index_of_first_ensures(' ');
    let found = line.index_of_first(' ')->0;
    if found < k {
        assert(head[found] == line[found]);
        assert(head.contains(' '));
    }
    assert(found == k);
    assert(line.take(k) =~= head);
    assert(line.skip(k + 1) =~= joined(parts, ','));
    law_split_undoes_join(parts, ',');
}

/// The words of the format are different words.
proof fn lemma_words_differ()
    ensures
        "cmp"@.len() == 3 && "cmp"@[0] == 'c' && "cmp"@[1] == 'm',
        "set"@.len() == 3 && "set"@[0] == 's' && "set"@[1] == 'e',
        "copy"@.len() == 4,
        "not"@.len() == 3 && "not"@[0] == 'n',
        "abs"@.len() == 3 && "abs"@[0] == 'a' && "abs"@[1] == 'b',
        "and"@.len() == 3 && "and"@[0] == 'a' && "and"@[1] == 'n',
        "or"@.len() == 2,
        "xor"@.len() == 3 && "xor"@[0] == 'x',
        "add"@.len() == 3 && "add"@[0] == 'a' && "add"@[1] == 'd',
        "sub"@.len() == 3 && "sub"@[0] == 's' && "sub"@[1] == 'u',
        "mul"@.len() == 3 && "mul"@[0] == 'm',
        "div"@.len() == 3 && "div"@[0] == 'd',
        "select"@.len() == 6,
        "eq"@.len() == 2 && "eq"@[0] == 'e',
        "ne"@.len() == 2 && "ne"@[0] == 'n',
        "lt"@.len() == 2 && "lt"@[0] == 'l' && "lt"@[1] == 't',
        "le"@.len() == 2 && "le"@[0] == 'l' && "le"@[1] == 'e',
        "gt"@.len() == 2 && "gt"@[0] == 'g' && "gt"@[1] == 't',
        "ge"@.len() == 2 && "ge"@[0] == 'g' && "ge"@[1] == 'e',
{
    reveal_strlit("cmp");
    reveal_strlit("set");
    reveal_strlit("copy");
    reveal_strlit("not");
    reveal_strlit("abs");
    reveal_strlit("and");
    reveal_strlit("or");
    reveal_strlit("xor");
    reveal_strlit("add");
    reveal_strlit("sub");
    reveal_strlit("mul");
    reveal_strlit("div");
    reveal_strlit("select");
    reveal_strlit("eq");
    reveal_strlit("ne");
    reveal_strlit("lt");
    reveal_strlit("le");
    reveal_strlit("gt");
    reveal_strlit("ge");
}

/// The word `p` names the comparison `kind`.
pub open spec fn names_comparison(p: Seq<char>, kind: OpKind) -> bool {
    ||| p == "eq"@ && kind == OpKind::CmpEq
    ||| p == "ne"@ && kind == OpKind::CmpNe
    ||| p == "lt"@ && kind == OpKind::CmpLt
    ||| p == "le"@ && kind == OpKind::CmpLe
    ||| p == "gt"@ && kind == OpKind::CmpGt
    ||| p == "ge"@ && kind == OpKind::CmpGe
}

/// A parser that agrees with the format accepts what the format writes,
/// with the same value, and refuses the rest, with the same message.
pub proof fn law_parsers_follow_the_format<T>(r: Result<T, String>, m: Result<T, Seq<char>>)
    requires
        agrees(r, m),
    ensures
        r is Ok <==> m is Ok,
        r matches Ok(x) ==> m == Ok::<T, Seq<char>>(x),
        r matches Err(e) ==> m == Err::<T, Seq<char>>(e@),
{
}

/// `cmp d,l,r,p` writes the comparison that `p` names, with the numbers of
/// `d`, `l` and `r` as destination, left and right operand, in the order
/// written, whichever is larger. Parts after the predicate are ignored.
pub proof fn law_comparison_lines(
    raw: Seq<char>,
    parts: Seq<Seq<char>>,
    dst: u16,
    lhs: u16,
    rhs: u16,
    kind: OpKind,
)
    requires
        is_line(raw, "cmp"@, parts),
        parts.len() >= 4,
        writes_addr(parts[0], dst),
        writes_addr(parts[1], lhs),
        writes_addr(parts[2], rhs),
        names_comparison(trim(parts[3]), kind),
    ensures
        op_of(raw) is Ok,
        ({
            let op = op_of(raw)->Ok_0;
            &&& op.kind == kind && op.dst == dst
            &&& op.a == lhs && op.b == rhs && op.c == 1 && op.imm == 0
        }),
{
    lemma_line_by_parts(raw, "cmp"@, parts);
    lemma_words_differ();
}

/// `set d,i` writes the low byte of `i` into the cell `d`, for `i` from
/// -128 to 255. Parts after the immediate are ignored.
pub proof fn law_set_lines(raw: Seq<char>, parts: Seq<Seq<char>>, dst: u16, v: i32)
    requires
        is_line(raw, "set"@, parts),
        parts.len() >= 2,
        writes_addr(parts[0], dst),
        i32_of(trim(parts[1])) == Some(v),
        -128 <= v <= 255,
    ensures
        op_of(raw) is Ok,
        ({
            let op = op_of(raw)->Ok_0;
            &&& op.kind == OpKind::SetImm && op.dst == dst
            &&& op.a == 1 && op.b == 1 && op.c == 1
            &&& v >= 0 ==> op.imm == v
            &&& v < 0 ==> op.imm == v + 256
        }),
{
    lemma_line_by_parts(raw, "set"@, parts);
    lemma_words_differ();
}

/// The word `head` names the unary kind `kind`.
pub open spec fn names_unary(head: Seq<char>, kind: OpKind) -> bool {
    ||| head == "copy"@ && kind == OpKind::Copy
    ||| head == "not"@ && kind == OpKind::Not
    ||| head == "abs"@ && kind == OpKind::Abs
}

/// `copy d,a`, `not d,a` and `abs d,a` write the instruction that the word
/// names, from the cell `a` to the cell `d`.
pub proof fn law_unary_lines(
    raw: Seq<char>,
    head: Seq<char>,
    parts: Seq<Seq<char>>,
    dst: u16,
    a: u16,
    kind: OpKind,
)
    requires
        is_line(raw, head, parts),
        parts.len() == 2,
        writes_addr(parts[0], dst),
        writes_addr(parts[1], a),
        names_unary(head, kind),
    ensures
        op_of(raw) is Ok,
        ({
            let op = op_of(raw)->Ok_0;
            &&& op.kind == kind && op.dst == dst
            &&& op.a == a && op.b == 1 && op.c == 1 && op.imm == 0
        }),
{
    lemma_line_by_parts(raw, head, parts);
    lemma_words_differ();
}

/// The word `head` names the binary kind `kind`.
pub open spec fn names_binary(head: Seq<char>, kind: OpKind) -> bool {
    ||| head == "and"@ && kind == OpKind::And
    ||| head == "or"@ && kind == OpKind::Or
    ||| head == "xor"@ && kind == OpKind::Xor
    ||| head == "add"@ && kind == OpKind::Add
    ||| head == "sub"@ && kind == OpKind::Sub
    ||| head == "mul"@ && kind == OpKind::Mul
    ||| head == "div"@ && kind == OpKind::Div
}

/// `op d,a,b` writes the instruction that the word names, with `a` as
/// first and `b` as second source, in the order written.
pub proof fn law_binary_lines(
    raw: Seq<char>,
    head: Seq<char>,
    parts: Seq<Seq<char>>,
    dst: u16,
    a: u16,
    b: u16,
    kind: OpKind,
)
    requires
        is_line(raw, head, parts),
        parts.len() == 3,
        writes_addr(parts[0], dst),
        writes_addr(parts[1], a),
        writes_addr(parts[2], b),
        names_binary(head, kind),
    ensures
        op_of(raw) is Ok,
        ({
            let op = op_of(raw)->Ok_0;
            &&& op.kind == kind && op.dst == dst
            &&& op.a == a && op.b == b && op.c == 1 && op.imm == 0
        }),
{
    lemma_line_by_parts(raw, head, parts);
    lemma_words_differ();
}

/// `op d,b` writes the instruction that the word names, with the
/// destination itself as first source.
pub proof fn law_accumulator_lines(
    raw: Seq<char>,
    head: Seq<char>,
    parts: Seq<Seq<char>>,
    dst: u16,
    b: u16,
    kind: OpKind,
)
    requires
        is_line(raw, head, parts),
        parts.len() == 2,
        writes_addr(parts[0], dst),
        writes_addr(parts[1], b),
        names_binary(head, kind),
    ensures
        op_of(raw) is Ok,
        ({
            let op = op_of(raw)->Ok_0;
            &&& op.kind == kind && op.dst == dst
            &&& op.a == dst && op.b == b && op.c == 1 && op.imm == 0
        }),
{
    lemma_line_by_parts(raw, head, parts);
    lemma_words_differ();
}

/// `select d,c,x,y` writes a choice by the cell `c` between the cells `x`
/// and `y`, in the order written.
pub proof fn law_select_lines(
    raw: Seq<char>,
    parts: Seq<Seq<char>>,
    dst: u16,
    cond: u16,
    x: u16,
    y: u16,
)
    requires
        is_line(raw, "select"@, parts),
        parts.len() == 4,
        writes_addr(parts[0], dst),
        writes_addr(parts[1], cond),
        writes_addr(parts[2], x),
        writes_addr(parts[3], y),
    ensures
        op_of(raw) is Ok,
        ({
            let op = op_of(raw)->Ok_0;
            &&& op.kind == OpKind::Select && op.dst == dst
            &&& op.a == cond && op.b == x && op.c == y && op.imm == 0
        }),
{
    lemma_line_by_parts(raw, "select"@, parts);
    lemma_words_differ();
}

/// What is wrong with part `k` of an instruction as an address in the role
/// `what`: it is missing, writes no 16-bit number, or writes 0.
pub open spec fn fault(
    parts: Seq<Seq<char>>,
    k: int,
    what: Seq<char>,
    line: Seq<char>,
) -> Option<Seq<char>> {
    if k >= parts.len() {
        Some("missing "@ + what + " in "@ + debug_text(line))
    } else if u16_of(trim(parts[k])) is None {
        Some("bad "@ + what + " "@ + debug_text(trim(parts[k])))
    } else if u16_of(trim(parts[k])) == Some(0u16) {
        Some("addresses are 1-based; got 0 in "@ + debug_text(line))
    } else {
        None
    }
}

/// The first thing wrong with a line refuses it, with its message: a word
/// that is no opcode, a part that is no address, a missing or bad
/// predicate or immediate, a wrong number of operands.
pub proof fn law_faults_refuse_lines(
    raw: Seq<char>,
    head: Seq<char>,
    parts: Seq<Seq<char>>,
    kind: OpKind,
)
    requires
        is_line(raw, head, parts),
    ensures
        ({
            let line = trim(raw);
            let n = parts.len() - 1;
            let r = op_of(raw);
            let dest = fault(parts, 0, "dest"@, line);
            let one = fault(parts, 1, "src1"@, line);
            let unary = head == "copy"@ || head == "not"@ || head == "abs"@;
            &&& head == "cmp"@ && dest is Some ==> r == Err::<Op, Seq<char>>(dest->0)
            &&& head == "cmp"@ && dest is None ==> {
                let lhs = fault(parts, 1, "lhs"@, line);
                let rhs = fault(parts, 2, "rhs"@, line);
                &&& lhs is Some ==> r == Err::<Op, Seq<char>>(lhs->0)
                &&& lhs is None && rhs is Some ==> r == Err::<Op, Seq<char>>(rhs->0)
                &&& lhs is None && rhs is None && n < 3 ==> r == Err::<Op, Seq<char>>(
                    "cmp needs a predicate in "@ + debug_text(line),
                )
                &&& lhs is None && rhs is None && n >= 3 && trim(parts[3]) != "eq"@ && trim(
                    parts[3],
                ) != "ne"@ && trim(parts[3]) != "lt"@ && trim(parts[3]) != "le"@ && trim(parts[3])
                    != "gt"@ && trim(parts[3]) != "ge"@ ==> r == Err::<Op, Seq<char>>(
                    "bad predicate "@ + debug_text(trim(parts[3])),
                )
            }
            &&& head != "cmp"@ && head != "set"@ && !unary && head != "and"@ && head != "or"@
                && head != "xor"@ && head != "add"@ && head != "sub"@ && head != "mul"@
                && head != "div"@ && head != "select"@ ==> r == Err::<Op, Seq<char>>(
                "unknown opcode "@ + debug_text(head),
            )
            &&& (unary || head == "set"@ || head == "select"@ || names_binary(head, kind)) && dest
                is Some ==> r == Err::<Op, Seq<char>>(dest->0)
            &&& head == "set"@ && dest is None ==> {
                &&& n < 1 ==> r == Err::<Op, Seq<char>>(
                    "set needs an immediate in "@ + debug_text(line),
                )
                &&& n >= 1 && i32_of(trim(parts[1])) is None ==> r == Err::<Op, Seq<char>>(
                    "bad "@ + "immediate"@ + " "@ + debug_text(trim(parts[1])),
                )
                &&& n >= 1 && (i32_of(trim(parts[1])) matches Some(v) && !(-128 <= v <= 255))
                    ==> r == Err::<Op, Seq<char>>(
                    "immediate "@ + decimal_signed(i32_of(trim(parts[1]))->0 as int)
                        + " out of 8-bit range"@,
                )
            }
            &&& unary && dest is None ==> {
                &&& n != 1 ==> r == Err::<Op, Seq<char>>(
                    debug_text(head) + " needs exactly 1 operand in "@ + debug_text(line),
                )
                &&& n == 1 && one is Some ==> r == Err::<Op, Seq<char>>(one->0)
            }
            &&& head == "select"@ && dest is None ==> {
                let cond = fault(parts, 1, "cond"@, line);
                let x = fault(parts, 2, "true-src"@, line);
                let y = fault(parts, 3, "false-src"@, line);
                &&& n != 3 ==> r == Err::<Op, Seq<char>>(
                    "select needs 3 operands in "@ + debug_text(line),
                )
                &&& n == 3 && cond is Some ==> r == Err::<Op, Seq<char>>(cond->0)
                &&& n == 3 && cond is None && x is Some ==> r == Err::<Op, Seq<char>>(x->0)
                &&& n == 3 && cond is None && x is None && y is Some ==> r == Err::<
                    Op,
                    Seq<char>,
                >(y->0)
            }
            &&& names_binary(head, kind) && dest is None ==> {
                let only = fault(parts, 1, "src2"@, line);
                let two = fault(parts, 2, "src2"@, line);
                &&& n != 1 && n != 2 ==> r == Err::<Op, Seq<char>>(
                    debug_text(head) + " needs 2 or 3 operands, got "@ + decimal(n as nat),
                )
                &&& n == 1 && only is Some ==> r == Err::<Op, Seq<char>>(only->0)
                &&& n == 2 && one is Some ==> r == Err::<Op, Seq<char>>(one->0)
                &&& n == 2 && one is None && two is Some ==> r == Err::<Op, Seq<char>>(two->0)
            }
        }),
{
    lemma_line_by_parts(raw, head, parts);
    lemma_words_differ();
}

/// A line without a space is refused.
pub proof fn law_line_without_space_is_refused(raw: Seq<char>)
    requires
        !trim(raw).contains(' '),
    ensures
        op_of(raw) == Err::<Op, Seq<char>>("malformed instruction "@ + debug_text(trim(raw))),
{
    trim(raw).index_of_first_ensures(' ');
}

/// Every line with a space has a head and parts.
pub proof fn law_every_line_has_parts(raw: Seq<char>) -> (r: (Seq<char>, Seq<Seq<char>>))
    requires
        trim(raw).contains(' '),
    ensures
        is_line(raw, r.0, r.1),
{
    let line = trim(raw);
    line.index_of_first_ensures(' ');
    let k = line.index_of_first(' ')->0;
    let head = line.take(k);
    let rest = line.skip(k + 1);
    assert(!head.contains(' ')) by {
        if head.contains(' ') {
            let i = choose|i: int| 0 <= i < head.len() && head[i] == ' ';
            assert(line[i] == ' ');
        }
    }
    law_join_undoes_split(rest, ',');
    assert(head.push(' ') + rest =~= line);
    (head, split(rest, ','))
}

/// The addresses of the first `k` parts of a list.
proof fn lemma_addresses(parts: Seq<Seq<char>>, vs: Seq<u16>, k: nat)
    requires
        k <= parts.len(),
        k <= vs.len(),
        forall|i: int| 0 <= i < k ==> writes_addr(#[trigger] parts[i], vs[i]),
    ensures
        addresses(parts, k) == Ok::<Seq<u16>, Seq<char>>(vs.take(k as int)),
    decreases k,
{
    if k > 0 {
        lemma_addresses(parts, vs, (k - 1) as nat);
        assert(writes_addr(parts[k - 1], vs[k - 1]));
        assert(vs.take(k - 1).push(vs[k - 1]) =~= vs.take(k as int));
    } else {
        assert(vs.take(0) =~= Seq::<u16>::empty());
    }
}

/// A list of addresses is read part by part, in order.
pub proof fn law_address_lists(line: Seq<char>, parts: Seq<Seq<char>>, vs: Seq<u16>)
    requires
        parts.len() >= 1,
        free_of(parts, ','),
        line == joined(parts, ','),
        vs.len() == parts.len(),
        forall|i: int| 0 <= i < parts.len() ==> writes_addr(#[trigger] parts[i], vs[i]),
    ensures
        addr_list(line) == Ok::<Seq<u16>, Seq<char>>(vs),
{
    law_split_undoes_join(parts, ',');
    lemma_addresses(parts, vs, parts.len());
    assert(vs.take(vs.len() as int) =~= vs);
}

/// The first part that is no address refuses a list of addresses.
pub proof fn law_address_faults(line: Seq<char>, parts: Seq<Seq<char>>, vs: Seq<u16>, k: nat)
    requires
        free_of(parts, ','),
        line == joined(parts, ','),
        k < parts.len(),
        k <= vs.len(),
        forall|i: int| 0 <= i < k ==> writes_addr(#[trigger] parts[i], vs[i]),
        u16_of(trim(parts[k as int])) is None || u16_of(trim(parts[k as int])) == Some(0u16),
    ensures
        addr_list(line) == Err::<Seq<u16>, Seq<char>>(
            if u16_of(trim(parts[k as int])) is None {
                "bad "@ + "address"@ + " "@ + debug_text(trim(parts[k as int]))
            } else {
                "addresses are 1-based; got 0"@
            },
        ),
{
    law_split_undoes_join(parts, ',');
    lemma_addresses(parts, vs, k);
    lemma_address_error(parts, k + 1, parts.len());
}

/// A text of one line counts as that line, or as none if it is blank.
pub proof fn law_one_line(line: Seq<char>)
    requires
        !line.contains('\n'),
    ensures
        nonblank_lines(line) == (if trim(line).len() == 0 {
            Seq::<Seq<char>>::empty()
        } else {
            seq![line]
        }),
{
    law_split_undoes_join(seq![line], '\n');
    reveal_with_fuel(nonblank, 2);
    assert(Seq::<Seq<char>>::empty().push(line) =~= seq![line]);
}

/// Of several faults in a text the input list's comes first, then the
/// output list's, then the first instruction's.
pub proof fn law_first_fault_refuses_text(text: Seq<char>, k: int)
    requires
        nonblank_lines(text).len() >= 2,
    ensures
        ({
            let lines = nonblank_lines(text);
            let n = lines.len();
            let ins = addr_list(lines[0]);
            let outs = addr_list(lines[n - 1]);
            &&& ins matches Err(e) ==> listing_of(text) == Err::<Listing, Seq<char>>(e)
            &&& ins is Ok && outs is Err ==> listing_of(text) == Err::<Listing, Seq<char>>(
                outs->Err_0,
            )
            &&& ins is Ok && outs is Ok && 0 < k < n - 1 && op_of(lines[k]) is Err && (forall|
                i: int,
            |
                0 < i < k ==> op_of(#[trigger] lines[i]) is Ok) ==> listing_of(text) == Err::<
                Listing,
                Seq<char>,
            >(op_of(lines[k])->Err_0)
        }),
{
    let lines = nonblank_lines(text);
    let n = lines.len();
    let body = lines.subrange(1, n - 1);
    if 0 < k < n - 1 && op_of(lines[k]) is Err && (forall|i: int|
        0 < i < k ==> op_of(#[trigger] lines[i]) is Ok) {
        assert forall|i: int| 0 <= i < k - 1 implies op_of(#[trigger] body[i]) is Ok by {
            assert(body[i] == lines[i + 1]);
        }
        lemma_ops_each(body, (k - 1) as nat);
        assert(body[k - 1] == lines[k]);
        assert(ops_of(body, k as nat) is Err);
        lemma_op_error(body, k as nat, (n - 2) as nat);
    }
}

} // verus!
