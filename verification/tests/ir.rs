use dally_eval::cost::cost;
use dally_eval::ir::{Op, OpKind, Program};

fn refusal(text: &str) -> String {
    Program::parse(text).unwrap_err()
}

#[test]
fn parses_and_costs_a_tiny_program() {
    let text = "10,11\nset 1,7\nadd 2,10,11\nxor 3,2,1\n2,3\n";
    let p = Program::parse(text).unwrap();
    assert_eq!(p.len(), 3);
    assert_eq!(p.inputs, vec![10, 11]);
    assert_eq!(p.outputs, vec![2, 3]);
    // set 0; add reads 10(4)+11(4)=8; xor reads 2(2)+1(1)=3;
    // output reads 2(2)+3(2)=4. Total 15.
    assert_eq!(p.static_cost, 15);
    assert_eq!(p.max_addr, 11);
}

#[test]
fn select_prices_all_three_operands() {
    let text = "1,2,3,4\nselect 5,1,2,3\n5\n";
    let p = Program::parse(text).unwrap();
    // reads 1(1)+2(2)+3(2)=5, output 5(3) => 8
    assert_eq!(p.static_cost, 8);
}

#[test]
fn accumulator_form_reads_dst_as_first_source() {
    // `or 5,3` == `or 5,5,3`: reads 5 and 3.
    let text = "3\nor 5,3\n5\n";
    let p = Program::parse(text).unwrap();
    assert_eq!(p.static_cost, cost(5) + cost(3) + cost(5));
}

#[test]
fn rejects_zero_addresses_and_bad_ops() {
    assert!(Program::parse("0\nset 1,1\n1\n").is_err());
    assert!(Program::parse("1\nfrobnicate 2,1\n1\n").is_err());
    assert!(Program::parse("1\ncmp 2,1,1,maybe\n1\n").is_err());
    assert!(Program::parse("1\nselect 2,1\n1\n").is_err());
}

#[test]
fn accumulator_form_is_the_long_form() {
    for head in ["and", "or", "xor", "add", "sub", "mul", "div"] {
        let short = Program::parse(&format!("3\n{head} 5,3\n5\n")).unwrap();
        let long = Program::parse(&format!("3\n{head} 5,5,3\n5\n")).unwrap();
        assert_eq!(short.op(0), long.op(0));
        assert_eq!(short.op(0).a, 5);
    }
}

#[test]
fn every_opcode_parses_to_its_kind() {
    let cases = [
        ("set 9,-1", OpKind::SetImm, (1, 1, 1, 255)),
        ("copy 9,2", OpKind::Copy, (2, 1, 1, 0)),
        ("not 9,2", OpKind::Not, (2, 1, 1, 0)),
        ("abs 9,2", OpKind::Abs, (2, 1, 1, 0)),
        ("and 9,2,3", OpKind::And, (2, 3, 1, 0)),
        ("or 9,2,3", OpKind::Or, (2, 3, 1, 0)),
        ("xor 9,2,3", OpKind::Xor, (2, 3, 1, 0)),
        ("add 9,2,3", OpKind::Add, (2, 3, 1, 0)),
        ("sub 9,2,3", OpKind::Sub, (2, 3, 1, 0)),
        ("mul 9,2,3", OpKind::Mul, (2, 3, 1, 0)),
        ("div 9,2,3", OpKind::Div, (2, 3, 1, 0)),
        ("cmp 9,2,3,eq", OpKind::CmpEq, (2, 3, 1, 0)),
        ("cmp 9,2,3,ne", OpKind::CmpNe, (2, 3, 1, 0)),
        ("cmp 9,2,3,lt", OpKind::CmpLt, (2, 3, 1, 0)),
        ("cmp 9,2,3,le", OpKind::CmpLe, (2, 3, 1, 0)),
        ("cmp 9,2,3,gt", OpKind::CmpGt, (2, 3, 1, 0)),
        ("cmp 9,2,3,ge", OpKind::CmpGe, (2, 3, 1, 0)),
        ("select 9,2,3,4", OpKind::Select, (2, 3, 4, 0)),
    ];
    for (line, kind, (a, b, c, imm)) in cases {
        let p = Program::parse(&format!("1\n{line}\n1\n")).unwrap();
        assert_eq!(p.op(0), Op { kind, dst: 9, a, b, c, imm }, "{line}");
    }
}

#[test]
fn white_space_plus_signs_and_blank_lines_are_fine() {
    let p = Program::parse("\n 1 , +2 \r\n\n  add   3 ,\t1, 02 \r\n \u{3000} \n 3\r\n").unwrap();
    assert_eq!(p.inputs, vec![1, 2]);
    assert_eq!(p.op(0), Op { kind: OpKind::Add, dst: 3, a: 1, b: 2, c: 1, imm: 0 });
    assert_eq!(p.outputs, vec![3]);
    assert!(!p.is_empty());
    assert!(Program::parse("1\n1\n").unwrap().is_empty());
}

#[test]
fn a_comparison_ignores_parts_after_its_predicate() {
    let p = Program::parse("1\ncmp 2,1,1,eq,whatever\n1\n").unwrap();
    assert_eq!(p.op(0).kind, OpKind::CmpEq);
    let p = Program::parse("1\nset 2,3,whatever\n1\n").unwrap();
    assert_eq!(p.op(0).imm, 3);
}

#[test]
fn refusals_name_what_is_wrong() {
    assert_eq!(refusal(""), "empty program");
    assert_eq!(refusal(" \n\t\n"), "empty program");
    assert_eq!(refusal("1\n"), "program has ops but no output declaration");
    assert_eq!(refusal("1,x\n1\n"), "bad address \"x\"");
    assert_eq!(refusal("1,\n1\n"), "bad address \"\"");
    assert_eq!(refusal("1\n65536\n"), "bad address \"65536\"");
    assert_eq!(refusal("1\n-1\n"), "bad address \"-1\"");
    assert_eq!(refusal("0\n1\n"), "addresses are 1-based; got 0");
    assert_eq!(refusal("1\nadd\n1\n"), "malformed instruction \"add\"");
    assert_eq!(refusal("1\nfrob 2,1\n1\n"), "unknown opcode \"frob\"");
    assert_eq!(refusal("1\nadd x,1\n1\n"), "bad dest \"x\"");
    assert_eq!(
        refusal("1\nadd 0,1\n1\n"),
        "addresses are 1-based; got 0 in \"add 0,1\""
    );
    assert_eq!(refusal("1\ncmp 2\n1\n"), "missing lhs in \"cmp 2\"");
    assert_eq!(refusal("1\ncmp 2,1\n1\n"), "missing rhs in \"cmp 2,1\"");
    assert_eq!(
        refusal("1\ncmp 2,1,1\n1\n"),
        "cmp needs a predicate in \"cmp 2,1,1\""
    );
    assert_eq!(refusal("1\ncmp 2,1,1,maybe\n1\n"), "bad predicate \"maybe\"");
    assert_eq!(refusal("1\nset 2\n1\n"), "set needs an immediate in \"set 2\"");
    assert_eq!(refusal("1\nset 2,q\n1\n"), "bad immediate \"q\"");
    assert_eq!(refusal("1\nset 2,256\n1\n"), "immediate 256 out of 8-bit range");
    assert_eq!(refusal("1\nset 2,-129\n1\n"), "immediate -129 out of 8-bit range");
    assert_eq!(
        refusal("1\nnot 2\n1\n"),
        "\"not\" needs exactly 1 operand in \"not 2\""
    );
    assert_eq!(
        refusal("1\nselect 2,1\n1\n"),
        "select needs 3 operands in \"select 2,1\""
    );
    assert_eq!(refusal("1\nselect 2,1,z,1\n1\n"), "bad true-src \"z\"");
    assert_eq!(refusal("1\nselect 2,1,1,0\n1\n"), "addresses are 1-based; got 0 in \"select 2,1,1,0\"");
    assert_eq!(refusal("1\nadd 2\n1\n"), "\"add\" needs 2 or 3 operands, got 0");
    assert_eq!(refusal("1\nadd 2,1,1,1\n1\n"), "\"add\" needs 2 or 3 operands, got 3");
    assert_eq!(refusal("1\nadd 2,y\n1\n"), "bad src2 \"y\"");
    assert_eq!(refusal("1\nadd 2,y,1\n1\n"), "bad src1 \"y\"");
}

#[test]
fn refusals_quote_unusual_text() {
    assert_eq!(refusal("1\na\"b\n1\n"), "malformed instruction \"a\\\"b\"");
    assert_eq!(refusal("1\tx\n1\n"), format!("bad address {:?}", "1\tx"));
    assert_eq!(refusal("\u{e9}\n1\n"), format!("bad address {:?}", "\u{e9}"));
}

#[test]
fn inputs_are_read_before_outputs_and_outputs_before_ops() {
    assert_eq!(refusal("x\nbad\ny\n"), "bad address \"x\"");
    assert_eq!(refusal("1\nbad\ny\n"), "bad address \"y\"");
    assert_eq!(refusal("1\nbad\n1\n"), "malformed instruction \"bad\"");
}

#[test]
fn programmatic_building_matches_parsing() {
    let mut p = Program::default();
    p.push(Op { kind: OpKind::SetImm, dst: 1, a: 1, b: 1, c: 1, imm: 7 });
    p.push(Op { kind: OpKind::Add, dst: 2, a: 10, b: 11, c: 1, imm: 0 });
    p.push(Op { kind: OpKind::Xor, dst: 3, a: 2, b: 1, c: 1, imm: 0 });
    assert_eq!(p.static_cost, 11);
    p.inputs = vec![10, 30];
    p.outputs = vec![2, 3];
    p.finalize();
    assert_eq!(p.static_cost, 15);
    assert_eq!(p.max_addr, 30);
}

#[test]
fn white_space_is_the_unicode_property() {
    for u in 0u32..=0x10FFFF {
        if let Some(c) = char::from_u32(u) {
            assert_eq!(dally_eval::text::is_space_char(c), c.is_whitespace(), "{u:x}");
        }
    }
}

#[test]
fn inert_operands_do_not_raise_max_addr() {
    let cases = [
        (OpKind::SetImm, 2),
        (OpKind::Copy, 10),
        (OpKind::Not, 10),
        (OpKind::Abs, 10),
        (OpKind::Add, 500),
        (OpKind::CmpLt, 500),
        (OpKind::Select, 900),
    ];
    for (kind, want) in cases {
        let mut p = Program::default();
        p.push(Op { kind, dst: 2, a: 10, b: 500, c: 900, imm: 0 });
        assert_eq!(p.max_addr, want, "{kind:?}");
    }
    let mut p = Program::default();
    p.push(Op { kind: OpKind::Copy, dst: 2, a: 1, b: 500, c: 1, imm: 0 });
    assert_eq!(p.max_addr, 2);
    p.inputs = vec![1];
    p.outputs = vec![2];
    p.finalize();
    assert_eq!(p.max_addr, 2);
    let mut m = dally_eval::eval::Machine::new(p.max_addr);
    assert_eq!(m.run(&p, &[9]), Ok(vec![9]));
}

fn assert_same(p: &Program, q: &Program) {
    assert_eq!(p.kinds, q.kinds);
    assert_eq!((&p.dst, &p.a, &p.b), (&q.dst, &q.a, &q.b));
    assert_eq!((&p.c, &p.imm), (&q.c, &q.imm));
    assert_eq!((&p.inputs, &p.outputs), (&q.inputs, &q.outputs));
    assert_eq!((p.max_addr, p.static_cost), (q.max_addr, q.static_cost));
}

#[test]
fn blank_lines_and_blanks_at_line_ends_change_nothing() {
    let lines = ["10,11", "set 1,7", "add 2,10,11", "cmp 4,1,2,le", "select 3,4,2,1", "2,3"];
    let base = Program::parse(&lines.join("\n")).unwrap();
    for blank in ["", " ", "\t\r", "\u{3000}\u{a0}", " \n \n"] {
        for at in 0..=lines.len() {
            let mut more: Vec<&str> = lines.to_vec();
            more.insert(at, blank);
            assert_same(&Program::parse(&more.join("\n")).unwrap(), &base);
        }
    }
    for space in [" ", "\t", "\r", "\u{2003}", " \t "] {
        let padded: Vec<String> = lines.iter().map(|l| format!("{space}{l}{space}")).collect();
        assert_same(&Program::parse(&padded.join("\n")).unwrap(), &base);
    }
    assert_same(&Program::parse(&(lines.join("\r\n") + "\r\n")).unwrap(), &base);
}

#[test]
fn blanks_do_not_change_a_refusal() {
    for text in ["1,x\n1", "1\nfrob 2,1\n1", "1\nadd 0,1\n1", "1\nadd\n1", "1", ""] {
        let want = refusal(text);
        let padded: Vec<String> = text.split('\n').map(|l| format!(" \t{l}\r")).collect();
        assert_eq!(refusal(&padded.join("\n \n")), want);
    }
}

#[test]
fn pushed_ops_are_read_back() {
    let mut p = Program::default();
    assert!(p.is_empty());
    let ops: Vec<Op> = (1..=20u16)
        .map(|i| Op { kind: OpKind::Select, dst: i, a: i + 1, b: i + 2, c: i + 3, imm: i as u8 })
        .collect();
    for (i, &op) in ops.iter().enumerate() {
        p.push(op);
        assert_eq!(p.len(), i + 1);
    }
    assert!(!p.is_empty());
    for (i, &op) in ops.iter().enumerate() {
        assert_eq!(p.op(i), op);
    }
    assert_eq!(p.static_cost, ops.iter().map(|o| o.read_cost()).sum::<u64>());
    assert_eq!(p.max_addr, 23);
}
