//! Tests of the gen/kill accumulator and the per-instruction rules.

use taint_analysis::analysis::MaybeTaintedLocals;
use taint_analysis::domain::TaintSet;
use taint_analysis::ir::{Operand, Rvalue, Statement};

#[test]
fn propagate() {
    let one: usize = 1;
    let two: usize = 2;
    let three: usize = 3;
    let mut set = TaintSet::bottom(4);
    set.set(one);

    let analysis = MaybeTaintedLocals;
    let mut trans = analysis.transfer_function(set);

    trans.propagate(one, two);
    trans.propagate(three, one);

    let set = trans.into_state();
    assert!(set.contains(two));
    assert!(!set.contains(one));
}

#[test]
fn constant_assignment_cleans_target() {
    let mut set = TaintSet::bottom(3);
    set.set(0);
    let analysis = MaybeTaintedLocals;
    let mut trans = analysis.transfer_function(set);
    trans.handle_assignment(0, &Rvalue::Use(Operand::Constant));
    let set = trans.into_state();
    assert!(!set.contains(0));
}

#[test]
fn binary_op_over_constants_cleans_target() {
    let mut set = TaintSet::bottom(3);
    set.set(2);
    let analysis = MaybeTaintedLocals;
    let mut trans = analysis.transfer_function(set);
    trans.handle_assignment(2, &Rvalue::BinaryOp(Operand::Constant, Operand::Constant));
    let set = trans.into_state();
    assert!(!set.contains(2));
}

#[test]
fn binary_op_taints_target_iff_an_operand_is_tainted() {
    // Left operand tainted.
    let mut set = TaintSet::bottom(4);
    set.set(0);
    let analysis = MaybeTaintedLocals;
    let mut trans = analysis.transfer_function(set);
    trans.handle_assignment(2, &Rvalue::BinaryOp(Operand::Copy(0), Operand::Copy(1)));
    let set = trans.into_state();
    assert!(set.contains(2));

    // Right operand tainted, mixed with a constant.
    let mut set = TaintSet::bottom(4);
    set.set(1);
    let mut trans = analysis.transfer_function(set);
    trans.handle_assignment(3, &Rvalue::BinaryOp(Operand::Constant, Operand::Move(1)));
    let set = trans.into_state();
    assert!(set.contains(3));

    // Neither operand tainted: a previously tainted target is cleaned.
    let mut set = TaintSet::bottom(4);
    set.set(2);
    let mut trans = analysis.transfer_function(set);
    trans.handle_assignment(2, &Rvalue::BinaryOp(Operand::Copy(0), Operand::Copy(1)));
    let set = trans.into_state();
    assert!(!set.contains(2));
}

#[test]
fn copy_taints_target_and_keeps_source() {
    let mut set = TaintSet::bottom(3);
    set.set(1);
    let analysis = MaybeTaintedLocals;
    let mut trans = analysis.transfer_function(set);
    trans.handle_assignment(0, &Rvalue::Use(Operand::Copy(1)));
    let set = trans.into_state();
    assert!(set.contains(0));
    assert!(set.contains(1));
}

#[test]
fn move_behaves_like_copy_for_taint() {
    let mut set = TaintSet::bottom(3);
    set.set(1);
    let analysis = MaybeTaintedLocals;
    let mut trans = analysis.transfer_function(set);
    trans.handle_assignment(2, &Rvalue::Use(Operand::Move(1)));
    let set = trans.into_state();
    assert!(set.contains(2));
    assert!(set.contains(1));
}

#[test]
fn unary_op_propagates_its_operand() {
    let mut set = TaintSet::bottom(2);
    set.set(0);
    let analysis = MaybeTaintedLocals;
    let mut trans = analysis.transfer_function(set);
    trans.handle_assignment(1, &Rvalue::UnaryOp(Operand::Copy(0)));
    let set = trans.into_state();
    assert!(set.contains(1));
}

#[test]
fn unhandled_shape_and_non_assignment_leave_state_unchanged() {
    let mut set = TaintSet::bottom(2);
    set.set(1);
    let analysis = MaybeTaintedLocals;
    let mut trans = analysis.transfer_function(set);
    trans.handle_assignment(1, &Rvalue::Other);
    trans.visit_statement(&Statement::Other);
    let set = trans.into_state();
    assert!(set.contains(1));
    assert!(!set.contains(0));
}

#[test]
fn statement_effect_applies_one_statement() {
    let analysis = MaybeTaintedLocals;
    let mut set = TaintSet::bottom(2);
    set.set(0);
    let set = analysis.statement_effect(
        set,
        &Statement::Assign { target: 1, rvalue: Rvalue::Use(Operand::Copy(0)) },
    );
    assert!(set.contains(1));
}

#[test]
fn accumulator_contains_reports_the_working_state() {
    let mut set = TaintSet::bottom(2);
    set.set(0);
    let analysis = MaybeTaintedLocals;
    let mut trans = analysis.transfer_function(set);
    assert!(trans.contains(0));
    assert!(!trans.contains(1));
    trans.kill(0);
    trans.gen(1);
    assert!(!trans.contains(0));
    assert!(trans.contains(1));
}
