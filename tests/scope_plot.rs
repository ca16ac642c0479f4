use fundsp::scope::{render_scope, SCOPE_COLUMNS, SCOPE_ROWS};

fn text(grid: &[Vec<u8>]) -> Vec<String> {
    grid.iter().map(|row| String::from_utf8(row.clone()).unwrap()).collect()
}

#[test]
fn empty_scope_has_rules_and_blanks() {
    let grid = render_scope(&Vec::new());
    assert_eq!(grid.len(), SCOPE_ROWS);
    let lines = text(&grid);
    assert_eq!(lines[0], "-".repeat(SCOPE_COLUMNS));
    assert_eq!(lines[1], " ".repeat(SCOPE_COLUMNS));
    assert_eq!(lines[12], "-".repeat(SCOPE_COLUMNS));
}

#[test]
fn bars_fill_down_from_their_top() {
    let bars = vec![(0, true), (2, false), (11, true), (13, true), (40, false)];
    let lines = text(&render_scope(&bars));
    let column = |i: usize| -> String { lines.iter().map(|l| l.as_bytes()[i] as char).collect() };
    assert_eq!(column(0), "*************");
    assert_eq!(column(1), "- .**********");
    assert_eq!(column(2), "- - - - - -**");
    assert_eq!(column(3), "- - - - - - -");
    assert_eq!(column(4), "- - - - - - -");
    assert_eq!(column(5), "- - - - - - -");
    assert!(lines.iter().all(|l| l.len() == SCOPE_COLUMNS));
}
