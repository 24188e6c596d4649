//! Attribute types, builders and the plain game data model.
use tui_core::components::{
    Border, Centered, GlobalPosition, Position, StackDirection, StackingContext, StackingRule,
    TextBlock, Visible, ZLevel,
};
use tui_core::game::{
    AggressiveAI, Direction, Health, Inventory, InventoryDisplay, InventoryDisplayKind, Item,
    ItemPart, ItemProperties, Stunned, Weapon, WorldMap, WorldPosition,
};
use tui_core::journal::{ChangeKind, EventChannel};

#[test]
fn position_and_global() {
    let p = Position::new(2, 3);
    assert_eq!(p.x, 2);
    assert_eq!(p.y, 3);
    let g = p.global();
    assert_eq!(g.0, p);
    let g2 = GlobalPosition::new(2, 3);
    assert_eq!(g2.0, p);
}

#[test]
fn text_block_builders() {
    let t = TextBlock::single_row(vec!['h', 'i']);
    assert_eq!(t.width, 2);
    assert_eq!(t.height, 1);
    assert_eq!(t.rows, vec![vec!['h', 'i']]);
    let e = TextBlock::empty(4, 2);
    assert_eq!(e.width, 4);
    assert_eq!(e.height, 2);
    assert!(e.rows.is_empty());
    let n = TextBlock::new(vec![vec!['a'], vec!['b']], 1, 2);
    assert_eq!(n.rows.len(), 2);
}

#[test]
fn visible_and_zlevel() {
    assert!(Visible::new(true).0);
    assert!(!Visible::new(false).0);
    assert_eq!(ZLevel::new(7).0, 7);
}

#[test]
fn stacking_builders() {
    assert_eq!(StackingContext::horizontal().direction, StackDirection::Horizontal);
    assert_eq!(StackingContext::vertical().direction, StackDirection::Vertical);
    let r = StackingRule::new().min_width(15).max_width(80).min_height(2).max_height(9).flex(2);
    assert_eq!(r.min_width, Some(15));
    assert_eq!(r.max_width, Some(80));
    assert_eq!(r.min_height, Some(2));
    assert_eq!(r.max_height, Some(9));
    assert_eq!(r.flex, 2);
    let d = StackingRule::new();
    assert_eq!(d.flex, 1);
    assert_eq!(d.min_width, None);
}

#[test]
fn border_builders() {
    let b = Border::new().top().left();
    assert!(b.top && b.left && !b.right && !b.bottom);
    let s = Border::new().sides(true, false, true, false);
    assert!(s.left && s.top && !s.right && !s.bottom);
    let c = Border::new().crosses(true, false, false, true);
    assert!(c.cross_top_left && c.cross_bottom_right);
    assert!(!c.cross_top_right && !c.cross_bottom_left);
}

#[test]
fn centered_builder() {
    let c = Centered::new(true, false);
    assert!(c.horizontal && !c.vertical);
}

#[test]
fn world_position_steps() {
    let p = WorldPosition::new(4, 4);
    assert_eq!(p.step_dir(Direction::Up), WorldPosition::new(4, 3));
    assert_eq!(p.step_dir(Direction::Down), WorldPosition::new(4, 5));
    assert_eq!(p.step_dir(Direction::Left), WorldPosition::new(3, 4));
    assert_eq!(p.step_dir(Direction::Right), WorldPosition::new(5, 4));
}

#[test]
fn world_map_access() {
    let mut m = WorldMap::new(3, 2);
    assert_eq!(m.width, 3);
    assert_eq!(m.height, 2);
    assert!(m.is_legal_pos(&WorldPosition::new(2, 1)));
    assert!(!m.is_legal_pos(&WorldPosition::new(3, 1)));
    assert!(!m.is_legal_pos(&WorldPosition::new(-1, 0)));
    assert!(m.read(&WorldPosition::new(0, 0)).is_none());
    assert!(m.read(&WorldPosition::new(9, 9)).is_none());
    assert!(m.get(&WorldPosition::new(1, 1)).is_some());
    assert!(m.get(&WorldPosition::new(5, 0)).is_none());
    assert!(m.get_mut(&WorldPosition::new(1, 1)).is_some());
    assert!(m.get_mut(&WorldPosition::new(5, 0)).is_none());
    m.clear();
    assert!(m.get(&WorldPosition::new(2, 1)).unwrap().items.is_empty());
}

#[test]
fn item_description() {
    let it = Item::Weapon(Weapon { name: String::from("Test weapon"), damage: 3 });
    assert_eq!(it.description(), "Weapon: Test weapon");
}

#[test]
fn collect_properties_accumulates() {
    let mut props = ItemProperties::default();
    ItemPart::Name(String::from("Wooden ")).collect_properties(&mut props);
    ItemPart::Name(String::from("nail")).collect_properties(&mut props);
    ItemPart::Damage(2).collect_properties(&mut props);
    ItemPart::Damage(-1).collect_properties(&mut props);
    assert_eq!(props.name, "Wooden nail");
    assert_eq!(props.damage, Some(1));
}

#[test]
fn small_game_types() {
    assert_eq!(Health::new(10).health, 10);
    assert_eq!(Stunned::new(2).time, 2);
    assert_eq!(AggressiveAI::new(vec![0, 1]).aggressive_against, vec![0, 1]);
    let inv = Inventory::new(vec![]);
    assert!(inv.items.is_empty());
    let d = InventoryDisplay::new(InventoryDisplayKind::Own);
    assert_eq!(d.display_kind, InventoryDisplayKind::Own);
    assert!(d.cursor_pos.is_none());
}

#[test]
fn journal_cursors_are_independent() {
    let mut ch: EventChannel<(ChangeKind, u32)> = EventChannel::new();
    let a = ch.register_reader();
    ch.record((ChangeKind::Inserted, 1));
    let b = ch.register_reader();
    ch.record((ChangeKind::Modified, 2));
    // the first reader sees both entries, the later one only what followed
    let seen_a = ch.read(a);
    assert_eq!(seen_a, vec![(ChangeKind::Inserted, 1), (ChangeKind::Modified, 2)]);
    let seen_b = ch.read(b);
    assert_eq!(seen_b, vec![(ChangeKind::Modified, 2)]);
    // each entry is delivered exactly once per cursor
    assert!(ch.read(a).is_empty());
    assert!(ch.read(b).is_empty());
    ch.record((ChangeKind::Removed, 3));
    assert_eq!(ch.read(a), vec![(ChangeKind::Removed, 3)]);
    assert_eq!(ch.read(b), vec![(ChangeKind::Removed, 3)]);
}
