//! End-to-end tests of the worklist fixed-point engine.

use taint_analysis::analysis::MaybeTaintedLocals;
use taint_analysis::domain::TaintSet;
use taint_analysis::engine::TaintAnalysis;
use taint_analysis::ir::{BasicBlock, Body, Operand, Rvalue, Statement, Terminator};

fn assign(target: usize, rvalue: Rvalue) -> Statement {
    Statement::Assign { target, rvalue }
}

/// Three locals `x = 0`, `y = 1`, `z = 2`; block 0 seeds `x` as the taint
/// source and assigns `y` a constant; block 1 computes `z := x + y`, then
/// `y := x`, then `y := 5` again.
fn three_local_body() -> Body {
    Body {
        local_count: 3,
        blocks: vec![
            BasicBlock {
                statements: vec![assign(1, Rvalue::Use(Operand::Constant))],
                terminator: Terminator::Goto { target: 1 },
            },
            BasicBlock {
                statements: vec![
                    assign(2, Rvalue::BinaryOp(Operand::Copy(0), Operand::Copy(1))),
                    assign(1, Rvalue::Use(Operand::Copy(0))),
                    assign(1, Rvalue::Use(Operand::Constant)),
                ],
                terminator: Terminator::Return,
            },
        ],
    }
}

#[test]
fn end_to_end_three_locals() {
    let analysis = MaybeTaintedLocals;
    let body = three_local_body();
    let mut seed = analysis.bottom_value(&body);
    seed.set(0);
    let result = analysis.iterate_to_fixpoint(&body, &seed);

    // On entry to block 1, only x is tainted.
    assert!(result.is_possibly_tainted(0, 1));
    assert!(!result.is_possibly_tainted(1, 1));
    assert!(!result.is_possibly_tainted(2, 1));

    // Replaying block 1 step by step: z := x + y taints z ...
    let state = result.entry_state(1).clone();
    let state = analysis.statement_effect(
        state,
        &assign(2, Rvalue::BinaryOp(Operand::Copy(0), Operand::Copy(1))),
    );
    assert!(state.contains(2));
    // ... then y := x taints y ...
    let state = analysis.statement_effect(state, &assign(1, Rvalue::Use(Operand::Copy(0))));
    assert!(state.contains(1));
    // ... then y := 5 cleans y again.
    let state = analysis.statement_effect(state, &assign(1, Rvalue::Use(Operand::Constant)));
    assert!(!state.contains(1));

    // The block's exit agrees: x and z tainted, y clean.
    assert!(result.tainted_on_exit(0, 1));
    assert!(!result.tainted_on_exit(1, 1));
    assert!(result.tainted_on_exit(2, 1));
    assert!(!result.unsupported);
}

/// A diamond: block 0 branches to 1 and 2, which both jump to the merge
/// block 3.  Local 1 is tainted along the edge from block 1 only; local 2
/// along neither.
fn diamond_body() -> Body {
    Body {
        local_count: 3,
        blocks: vec![
            BasicBlock {
                statements: vec![],
                terminator: Terminator::SwitchInt {
                    discr: Operand::Copy(0),
                    targets: vec![1, 2],
                },
            },
            BasicBlock {
                statements: vec![assign(1, Rvalue::Use(Operand::Copy(0)))],
                terminator: Terminator::Goto { target: 3 },
            },
            BasicBlock {
                statements: vec![assign(1, Rvalue::Use(Operand::Constant))],
                terminator: Terminator::Goto { target: 3 },
            },
            BasicBlock { statements: vec![], terminator: Terminator::Return },
        ],
    }
}

#[test]
fn merge_joins_taint_from_either_edge() {
    let analysis = MaybeTaintedLocals;
    let body = diamond_body();
    let mut seed = analysis.bottom_value(&body);
    seed.set(0);
    let result = analysis.iterate_to_fixpoint(&body, &seed);

    // Tainted along one incoming edge of the merge block: tainted on entry.
    assert!(result.is_possibly_tainted(1, 3));
    // Tainted along neither edge: untainted on entry.
    assert!(!result.is_possibly_tainted(2, 3));
    assert!(result.is_possibly_tainted(0, 3));
}

/// A loop: block 1 feeds itself, so taint must travel around the back edge.
fn loop_body() -> Body {
    Body {
        local_count: 3,
        blocks: vec![
            BasicBlock {
                statements: vec![assign(1, Rvalue::Use(Operand::Copy(0)))],
                terminator: Terminator::Goto { target: 1 },
            },
            BasicBlock {
                statements: vec![assign(2, Rvalue::Use(Operand::Copy(1)))],
                terminator: Terminator::SwitchInt {
                    discr: Operand::Copy(2),
                    targets: vec![1, 2],
                },
            },
            BasicBlock { statements: vec![], terminator: Terminator::Return },
        ],
    }
}

#[test]
fn taint_flows_around_a_back_edge() {
    let analysis = MaybeTaintedLocals;
    let body = loop_body();
    let mut seed = analysis.bottom_value(&body);
    seed.set(0);
    let result = analysis.iterate_to_fixpoint(&body, &seed);

    assert!(result.is_possibly_tainted(1, 1));
    assert!(result.tainted_on_exit(2, 1));
    assert!(result.is_possibly_tainted(2, 2));
}

fn results_equal(a: &TaintAnalysis, b: &TaintAnalysis) -> bool {
    if a.block_count() != b.block_count() {
        return false;
    }
    for block in 0..a.block_count() {
        if !a.entry_state(block).equals(b.entry_state(block)) {
            return false;
        }
        if !a.exit_state(block).equals(b.exit_state(block)) {
            return false;
        }
    }
    a.unsupported == b.unsupported
}

#[test]
fn rerunning_the_analysis_yields_identical_results() {
    let analysis = MaybeTaintedLocals;
    for body in [three_local_body(), diamond_body(), loop_body()] {
        let mut seed = analysis.bottom_value(&body);
        seed.set(0);
        let first = analysis.iterate_to_fixpoint(&body, &seed);
        let second = analysis.iterate_to_fixpoint(&body, &seed);
        assert!(results_equal(&first, &second));
    }
}

#[test]
fn unseeded_analysis_stays_at_bottom() {
    let analysis = MaybeTaintedLocals;
    let body = three_local_body();
    let seed = analysis.bottom_value(&body);
    let result = analysis.iterate_to_fixpoint(&body, &seed);
    for block in 0..result.block_count() {
        for local in 0..3 {
            assert!(!result.is_possibly_tainted(local, block));
            assert!(!result.tainted_on_exit(local, block));
        }
    }
}

#[test]
fn unhandled_rvalue_shape_is_reported() {
    let analysis = MaybeTaintedLocals;
    let body = Body {
        local_count: 1,
        blocks: vec![BasicBlock {
            statements: vec![assign(0, Rvalue::Other)],
            terminator: Terminator::Return,
        }],
    };
    let seed = analysis.bottom_value(&body);
    let result = analysis.iterate_to_fixpoint(&body, &seed);
    assert!(result.unsupported);
}

#[test]
fn unmodeled_call_return_is_reported() {
    let analysis = MaybeTaintedLocals;
    let body = Body {
        local_count: 2,
        blocks: vec![
            BasicBlock {
                statements: vec![],
                terminator: Terminator::Call {
                    func: Operand::Constant,
                    args: vec![Operand::Copy(0)],
                    destination: Some((1, 1)),
                    cleanup: None,
                },
            },
            BasicBlock { statements: vec![], terminator: Terminator::Return },
        ],
    };
    let seed = analysis.bottom_value(&body);
    let result = analysis.iterate_to_fixpoint(&body, &seed);
    assert!(result.unsupported);
    // The documented default: the call's return local stays clean.
    assert!(!result.is_possibly_tainted(1, 1));
}

#[test]
fn fully_modeled_body_is_not_reported() {
    let analysis = MaybeTaintedLocals;
    let body = diamond_body();
    let seed = analysis.bottom_value(&body);
    let result = analysis.iterate_to_fixpoint(&body, &seed);
    assert!(!result.unsupported);
}

#[test]
fn call_successors_are_continuation_and_cleanup() {
    let term = Terminator::Call {
        func: Operand::Constant,
        args: vec![],
        destination: Some((0, 4)),
        cleanup: Some(7),
    };
    assert_eq!(term.successors(), vec![4, 7]);

    let term = Terminator::Assert {
        cond: Operand::Copy(0),
        expected: true,
        target: 2,
        cleanup: None,
    };
    assert_eq!(term.successors(), vec![2]);
}
