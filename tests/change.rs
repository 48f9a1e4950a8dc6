use sqldoc::change::{change_order, ChangeParams};
use sqldoc::statement_id::{IdGenerator, StatementId};
use sqldoc::text_range::TextRange;

fn edit(start: u32, end: u32, text: &str) -> ChangeParams {
    ChangeParams { range: Some(TextRange::new(start, end)), text: text.to_string() }
}

#[test]
fn sizes_of_an_addition() {
    let c = edit(9, 10, ",test");
    assert_eq!(c.change_size(), 4);
    assert_eq!(c.diff_size(), 4);
    assert!(c.is_addition());
    assert!(!c.is_deletion());
}

#[test]
fn sizes_of_a_deletion() {
    let c = edit(2, 9, "ab");
    assert_eq!(c.change_size(), -5);
    assert_eq!(c.diff_size(), 5);
    assert!(!c.is_addition());
    assert!(c.is_deletion());
}

#[test]
fn sizes_of_a_full_replace() {
    let c = ChangeParams { range: None, text: "select 1;".to_string() };
    assert_eq!(c.change_size(), 9);
    assert_eq!(c.diff_size(), 9);
    assert!(!c.is_addition());
    assert!(!c.is_deletion());
}

#[test]
fn applies_to_text() {
    assert_eq!(edit(9, 10, ",test").apply_to_text("select id  from users;"), "select id,test from users;");
    assert_eq!(edit(0, 0, "-").apply_to_text("\nselect 1;"), "-\nselect 1;");
    assert_eq!(edit(3, 8, "").apply_to_text("abc"), "abc");
    assert_eq!(ChangeParams { range: None, text: "x".to_string() }.apply_to_text("abc"), "x");
    assert_eq!(edit(1, 3, "é").apply_to_text("añb"), "aéb");
    assert_eq!(edit(7, 9, "!").apply_to_text("abc"), "abc!");
    assert_eq!(edit(2, 3, "b").apply_to_text("éa"), "éb");
    assert_eq!(edit(2, 5, "x").apply_to_text("éa"), "éx");
}

#[test]
fn batch_order_goes_from_last_start_to_first() {
    let changes = vec![
        edit(5, 6, "a"),
        edit(20, 21, "b"),
        ChangeParams { range: None, text: "c".to_string() },
        edit(20, 20, "d"),
        edit(0, 1, "e"),
    ];
    assert_eq!(change_order(&changes), vec![2, 1, 3, 0, 4]);
    assert_eq!(change_order(&Vec::new()), Vec::<usize>::new());
}

#[test]
fn identities_are_issued_in_order() {
    let mut g = IdGenerator::new();
    assert_eq!(g.next(), StatementId::Root(0));
    assert_eq!(g.next(), StatementId::Root(1));
    assert_eq!(StatementId::Root(1).get_child_id(), Some(StatementId::Child(1)));
    assert_eq!(StatementId::Child(1).get_child_id(), None);
}

#[test]
fn ranges_saturate() {
    let r = TextRange::new(3, 8);
    assert_eq!(r.shift_left(5), TextRange::new(0, 3));
    assert_eq!(r.shift_right(u32::MAX - 4), TextRange::new(u32::MAX - 1, u32::MAX));
    assert_eq!(r.checked_shift_left(4), None);
    assert_eq!(r.checked_shift_left(3), Some(TextRange::new(0, 5)));
    assert_eq!(r.intersect(TextRange::new(8, 9)), Some(TextRange::new(8, 8)));
    assert_eq!(r.intersect(TextRange::new(9, 10)), None);
    assert_eq!(r.len(), 5);
    assert!(r.contains(3) && !r.contains(8));
}

#[test]
fn sizes_count_bytes() {
    let c = edit(0, 0, "é");
    assert_eq!(c.change_size(), 2);
    assert_eq!(c.diff_size(), 2);
    assert!(edit(0, 1, "é").is_addition());
    assert!(!edit(0, 2, "é").is_deletion());
    assert!(!edit(0, 2, "é").is_addition());
}
