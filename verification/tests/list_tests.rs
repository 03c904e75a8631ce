use rime::list::GenericList;

#[test]
fn from_puts_cursor_on_first_item() {
    let list = GenericList::from(vec![10u8, 20, 30]);
    assert_eq!(list.get_index(), Some(0));
    assert_eq!(list.len(), 3);
    assert!(!list.is_empty());
    assert_eq!(list.get_selected(), Some(10));
}

#[test]
fn from_empty_has_no_cursor() {
    let list = GenericList::<u8>::from(Vec::new());
    assert_eq!(list.get_index(), None);
    assert_eq!(list.len(), 0);
    assert!(list.is_empty());
    assert_eq!(list.get_selected(), None);
}

#[test]
fn select_sets_the_cursor() {
    let mut list = GenericList::from(vec![10u8, 20, 30]);
    list.select(Some(2));
    assert_eq!(list.get_index(), Some(2));
    assert_eq!(list.get_selected(), Some(30));
    list.select(Some(1));
    assert_eq!(list.get_selected(), Some(20));
    assert_eq!(list.items, vec![10u8, 20, 30]);
}

#[test]
fn move_down_stops_at_last_item() {
    let mut list = GenericList::from(vec![10u8, 20, 30]);
    list.move_down();
    assert_eq!(list.get_index(), Some(1));
    list.move_down();
    assert_eq!(list.get_index(), Some(2));
    list.move_down();
    assert_eq!(list.get_index(), Some(2));
}

#[test]
fn move_up_stops_at_first_item() {
    let mut list = GenericList::from(vec![10u8, 20, 30]);
    list.move_up();
    assert_eq!(list.get_index(), Some(0));
    list.select(Some(2));
    list.move_up();
    assert_eq!(list.get_index(), Some(1));
    list.move_up();
    list.move_up();
    assert_eq!(list.get_index(), Some(0));
}

#[test]
fn jumps_go_to_the_ends() {
    let mut list = GenericList::from(vec![10u8, 20, 30, 40]);
    list.jump_bottom();
    assert_eq!(list.get_index(), Some(3));
    list.jump_top();
    assert_eq!(list.get_index(), Some(0));
}

#[test]
fn moves_on_empty_list_do_nothing() {
    let mut list = GenericList::<u8>::from(Vec::new());
    list.move_down();
    assert_eq!(list.get_index(), None);
    list.move_up();
    assert_eq!(list.get_index(), None);
    list.jump_top();
    assert_eq!(list.get_index(), None);
    list.jump_bottom();
    assert_eq!(list.get_index(), None);
}

#[test]
fn cursor_stays_in_bounds_after_many_moves() {
    let mut list = GenericList::from(vec![1u8, 2, 3]);
    for step in 0..40u32 {
        match step % 7 {
            0 | 1 | 2 => list.move_down(),
            3 => list.jump_top(),
            4 | 5 => list.move_up(),
            _ => list.jump_bottom(),
        }
        let index = list.get_index();
        assert!(matches!(index, Some(i) if i < 3));
    }
}

#[test]
fn replace_resets_the_cursor() {
    let mut list = GenericList::from(vec![1u8, 2, 3]);
    list.select(Some(2));
    list.replace(vec![7u8, 8]);
    assert_eq!(list.get_index(), Some(0));
    assert_eq!(list.items, vec![7u8, 8]);
    list.replace(Vec::new());
    assert_eq!(list.get_index(), None);
    assert!(list.is_empty());
}

#[test]
fn single_item_list_keeps_its_cursor() {
    let mut list = GenericList::from(vec![5u8]);
    list.move_down();
    assert_eq!(list.get_index(), Some(0));
    list.move_up();
    assert_eq!(list.get_index(), Some(0));
    list.jump_bottom();
    assert_eq!(list.get_index(), Some(0));
}
