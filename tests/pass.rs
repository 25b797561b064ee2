use lvn::cfg::{construct_control_flow_graph, Block, ControlFlowGraph};
use lvn::ir::{Function, Instruction, IrError, Program};
use lvn::lvn::{eliminate_dead_code, optimize_function, optimize_program, run_local_value_numbering};

fn s(x: &str) -> String {
    x.to_string()
}

fn strings(xs: &[&str]) -> Vec<String> {
    xs.iter().map(|x| s(x)).collect()
}

fn konst(dest: &str, v: i64) -> Instruction {
    Instruction {
        op: Some(s("const")),
        dest: Some(s(dest)),
        value: Some(v),
        type_: Some(s("int")),
        args: Vec::new(),
        labels: Vec::new(),
        label: None,
    }
}

fn value(dest: &str, op: &str, args: &[&str]) -> Instruction {
    Instruction {
        op: Some(s(op)),
        dest: Some(s(dest)),
        value: None,
        type_: Some(s("int")),
        args: strings(args),
        labels: Vec::new(),
        label: None,
    }
}

fn effect(op: &str, args: &[&str], labels: &[&str]) -> Instruction {
    Instruction {
        op: Some(s(op)),
        dest: None,
        value: None,
        type_: None,
        args: strings(args),
        labels: strings(labels),
        label: None,
    }
}

fn label(name: &str) -> Instruction {
    Instruction {
        op: None,
        dest: None,
        value: None,
        type_: None,
        args: Vec::new(),
        labels: Vec::new(),
        label: Some(s(name)),
    }
}

fn function(instrs: Vec<Instruction>) -> Function {
    Function { name: s("main"), instrs, args: Vec::new() }
}

fn block(instrs: Vec<Instruction>) -> Block {
    Block { instrs, next_blocks: vec![7] }
}

fn optimized(instrs: Vec<Instruction>) -> Vec<Instruction> {
    let mut b = block(instrs);
    run_local_value_numbering(&mut b).unwrap();
    assert_eq!(b.next_blocks, vec![7]);
    b.instrs
}

fn branching() -> Vec<Instruction> {
    vec![
        konst("a", 1),
        effect("br", &["a"], &["then", "else"]),
        label("then"),
        effect("print", &["a"], &[]),
        effect("jmp", &[], &["end"]),
        label("else"),
        effect("ret", &[], &[]),
        label("end"),
        effect("print", &["a"], &[]),
    ]
}

#[test]
fn blocks_split_at_labels_and_terminators() {
    let g = construct_control_flow_graph(&function(branching())).unwrap();
    let all = branching();
    let sizes: Vec<usize> = g.blocks.iter().map(|b| b.instrs.len()).collect();
    assert_eq!(sizes, vec![2, 3, 2, 2]);
    assert_eq!(g.to_instrs(), all);
    for b in &g.blocks {
        for (j, i) in b.instrs.iter().enumerate() {
            if j > 0 {
                assert!(!i.is_label());
            }
            if j + 1 < b.instrs.len() {
                assert!(!i.is_terminator());
            }
        }
    }
}

#[test]
fn successors_follow_branch_targets() {
    let g = construct_control_flow_graph(&function(branching())).unwrap();
    let succs: Vec<Vec<usize>> = g.blocks.iter().map(|b| b.next_blocks.clone()).collect();
    assert_eq!(succs, vec![vec![1, 2], vec![3], vec![], vec![]]);
}

#[test]
fn block_without_terminator_falls_through() {
    let f = function(vec![konst("a", 1), label("next"), effect("print", &["a"], &[])]);
    let g = construct_control_flow_graph(&f).unwrap();
    assert_eq!(g.blocks.len(), 2);
    assert_eq!(g.blocks[0].next_blocks, vec![1]);
    assert_eq!(g.blocks[1].next_blocks, Vec::<usize>::new());
}

#[test]
fn empty_function_has_no_blocks() {
    let g = construct_control_flow_graph(&function(Vec::new())).unwrap();
    assert!(g.blocks.is_empty());
    assert!(g.to_instrs().is_empty());
}

#[test]
fn jump_to_missing_label_is_rejected() {
    let f = function(vec![effect("jmp", &[], &["nowhere"])]);
    assert_eq!(
        construct_control_flow_graph(&f),
        Err(IrError::UndefinedLabel(s("nowhere")))
    );
}

#[test]
fn terminator_classification() {
    assert!(effect("jmp", &[], &["x"]).is_terminator());
    assert!(effect("br", &["c"], &["x", "y"]).is_terminator());
    assert!(effect("ret", &[], &[]).is_terminator());
    assert!(!effect("print", &["a"], &[]).is_terminator());
    assert!(!label("x").is_terminator());
    assert!(label("x").is_label());
    assert!(!konst("a", 1).is_label());
}

#[test]
fn redundant_constant_and_expression_are_removed() {
    let out = optimized(vec![
        konst("a", 4),
        konst("b", 4),
        value("c", "add", &["a", "b"]),
        value("d", "add", &["a", "b"]),
        effect("print", &["c"], &[]),
        effect("print", &["d"], &[]),
    ]);
    assert_eq!(
        out,
        vec![
            konst("a", 4),
            value("c", "add", &["a", "a"]),
            effect("print", &["c"], &[]),
            effect("print", &["c"], &[]),
        ]
    );
}

#[test]
fn parameter_read_before_assignment_is_kept() {
    let input = vec![value("x", "add", &["p", "p"]), effect("print", &["x"], &[])];
    assert_eq!(optimized(input.clone()), input);
}

#[test]
fn same_operation_under_other_names_is_shared() {
    let out = optimized(vec![
        value("x", "mul", &["p", "q"]),
        value("y", "id", &["p"]),
        value("z", "mul", &["p", "q"]),
        effect("print", &["z"], &[]),
    ]);
    assert_eq!(out, vec![value("x", "mul", &["p", "q"]), effect("print", &["x"], &[])]);
}

#[test]
fn argument_order_matters() {
    let input = vec![
        value("x", "sub", &["p", "q"]),
        value("y", "sub", &["q", "p"]),
        effect("print", &["x", "y"], &[]),
    ];
    assert_eq!(optimized(input.clone()), input);
}

#[test]
fn unused_values_are_dropped() {
    let out = optimized(vec![
        konst("a", 1),
        konst("b", 2),
        value("c", "add", &["b", "b"]),
        effect("print", &["a"], &[]),
    ]);
    assert_eq!(out, vec![konst("a", 1), effect("print", &["a"], &[])]);
}

#[test]
fn needed_values_are_kept_through_chains() {
    let input = vec![
        konst("a", 1),
        value("b", "add", &["a", "a"]),
        value("c", "mul", &["b", "a"]),
        effect("ret", &["c"], &[]),
    ];
    assert_eq!(optimized(input.clone()), input);
}

#[test]
fn reassignment_uses_the_latest_value() {
    let out = optimized(vec![konst("a", 1), konst("a", 2), effect("print", &["a"], &[])]);
    assert_eq!(out, vec![konst("a", 2), effect("print", &["a"], &[])]);
}

#[test]
fn second_run_changes_nothing() {
    let once = optimized(vec![
        konst("a", 4),
        konst("b", 4),
        value("c", "add", &["a", "b"]),
        value("d", "add", &["a", "b"]),
        value("e", "add", &["c", "p"]),
        effect("print", &["d", "e"], &[]),
    ]);
    let twice = optimized(once.clone());
    assert_eq!(twice, once);
}

#[test]
fn destination_without_opcode_is_rejected() {
    let mut bad = konst("a", 1);
    bad.op = None;
    let mut b = block(vec![bad.clone()]);
    assert_eq!(run_local_value_numbering(&mut b), Err(IrError::MissingOp));
    assert_eq!(b.instrs, vec![bad]);
}

#[test]
fn constant_without_value_is_rejected() {
    let mut bad = konst("a", 1);
    bad.value = None;
    let mut b = block(vec![effect("print", &["x"], &[]), bad]);
    assert_eq!(run_local_value_numbering(&mut b), Err(IrError::MissingValue));
}

#[test]
fn every_block_is_optimized_on_its_own() {
    let f = function(vec![
        konst("a", 1),
        konst("b", 1),
        effect("jmp", &[], &["next"]),
        label("next"),
        value("c", "add", &["a", "b"]),
        value("d", "add", &["a", "b"]),
        effect("print", &["d"], &[]),
    ]);
    let g = eliminate_dead_code(construct_control_flow_graph(&f).unwrap()).unwrap();
    assert_eq!(g.blocks[0].instrs, vec![effect("jmp", &[], &["next"])]);
    assert_eq!(g.blocks[0].next_blocks, vec![1]);
    assert_eq!(
        g.blocks[1].instrs,
        vec![label("next"), value("c", "add", &["a", "b"]), effect("print", &["c"], &[])]
    );
}

#[test]
fn function_is_rewritten_in_block_order() {
    let mut f = function(vec![
        konst("a", 3),
        konst("b", 3),
        effect("br", &["a"], &["l", "l"]),
        label("l"),
        effect("print", &["b"], &[]),
    ]);
    optimize_function(&mut f).unwrap();
    assert_eq!(
        f.instrs,
        vec![
            konst("a", 3),
            effect("br", &["a"], &["l", "l"]),
            label("l"),
            effect("print", &["b"], &[]),
        ]
    );
}

#[test]
fn program_fails_on_first_malformed_function() {
    let good = function(vec![konst("a", 1), konst("b", 2), effect("print", &["a"], &[])]);
    let bad = function(vec![effect("jmp", &[], &["gone"])]);
    let mut p = Program { functions: vec![good.clone(), bad] };
    assert_eq!(optimize_program(&mut p), Err(IrError::UndefinedLabel(s("gone"))));
    let mut q = Program { functions: vec![good] };
    optimize_program(&mut q).unwrap();
    assert_eq!(q.functions[0].instrs, vec![konst("a", 1), effect("print", &["a"], &[])]);
}

#[test]
fn flattening_concatenates_blocks() {
    let g = ControlFlowGraph {
        blocks: vec![block(vec![konst("a", 1)]), block(vec![label("x"), konst("b", 2)])],
    };
    assert_eq!(g.to_instrs(), vec![konst("a", 1), label("x"), konst("b", 2)]);
}

#[test]
fn return_has_no_successors_even_with_labels() {
    let f = function(vec![label("top"), effect("ret", &[], &["top"])]);
    let g = construct_control_flow_graph(&f).unwrap();
    assert_eq!(g.blocks.len(), 1);
    assert_eq!(g.blocks[0].next_blocks, Vec::<usize>::new());
}

#[test]
fn return_naming_unknown_label_is_accepted() {
    let f = function(vec![effect("ret", &[], &["nowhere"])]);
    let g = construct_control_flow_graph(&f).unwrap();
    assert_eq!(g.blocks[0].next_blocks, Vec::<usize>::new());
}

#[test]
fn program_keeps_function_names_and_parameters() {
    let mut f = function(vec![konst("a", 1), effect("print", &["a"], &[])]);
    f.name = s("entry");
    f.args = vec![lvn::ir::NamedArg { name: s("n"), type_: s("int") }];
    let mut p = Program { functions: vec![f.clone()] };
    optimize_program(&mut p).unwrap();
    assert_eq!(p.functions[0].name, f.name);
    assert_eq!(p.functions[0].args, f.args);
}
