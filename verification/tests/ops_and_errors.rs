use pathtree::ops::ExpOp;
use pathtree::util::NodeError;

#[test]
fn exp_op_parses_each_name() {
    assert_eq!(ExpOp::from_str("Eq"), Some(ExpOp::Eq));
    assert_eq!(ExpOp::from_str("Neq"), Some(ExpOp::Neq));
    assert_eq!(ExpOp::from_str("St"), Some(ExpOp::St));
    assert_eq!(ExpOp::from_str("Ctn"), Some(ExpOp::Ctn));
    assert_eq!(ExpOp::from_str("Contains"), None);
    assert_eq!(ExpOp::from_str(""), None);
}

#[test]
fn exp_op_evaluates() {
    let alaska = "Alaska".to_string();
    assert!(ExpOp::Eq.holds_for(&alaska, "Alaska"));
    assert!(!ExpOp::Eq.holds_for(&alaska, "Alabama"));
    assert!(ExpOp::Neq.holds_for(&alaska, "Alabama"));
    assert!(!ExpOp::Neq.holds_for(&alaska, "Alaska"));
    assert!(ExpOp::St.holds_for(&alaska, "Al"));
    assert!(!ExpOp::St.holds_for(&alaska, "la"));
    assert!(ExpOp::Ctn.holds_for(&alaska, "las"));
    assert!(!ExpOp::Ctn.holds_for(&alaska, "lass"));
    assert!(ExpOp::Ctn.holds_for(&alaska, ""));
}

#[test]
fn node_error_messages() {
    assert_eq!(NodeError::NotFound.message(), "entity not found".to_string());
    assert_eq!(NodeError::IsNull.message(), "entity is null".to_string());
}
