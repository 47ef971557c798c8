use lib::tree_layout::{tree_line, tree_order};

#[test]
fn tree_order_puts_plain_entry_before_directory() {
    let given = vec!["b".to_string(), "a/".to_string(), "a".to_string(), "[10]".to_string(), "[2]".to_string()];
    let r = tree_order(&given);
    assert_eq!(r, vec!["[10]".to_string(), "[2]".to_string(), "a".to_string(), "a/".to_string(), "b".to_string()]);
}

#[test]
fn tree_line_draws_branch_and_indent() {
    let (head, next) = tree_line("  ", false);
    assert_eq!(head, "  \u{251c}\u{2500}\u{2500} ");
    assert_eq!(next, "  \u{2502}   ");
    let (head, next) = tree_line("", true);
    assert_eq!(head, "\u{2514}\u{2500}\u{2500} ");
    assert_eq!(next, "    ");
}
