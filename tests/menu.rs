use pie_menu::geometry::{Point, Rect, COORD_LIMIT};
use pie_menu::menu::{client_center, Item, PieMenu};
use pie_menu::style::{Color, Style};

fn style() -> Style {
    Style {
        height: 20,
        width: 100,
        roundness_radius: 8,
        label_color: Color::Black,
        color: Color::PolycountGray,
    }
}

fn pt(x: i32, y: i32) -> Point {
    Point { x, y }
}

fn menu_at(center: Point, positions: &[(i32, i32)], trigger_distance: u32) -> PieMenu<u32> {
    let mut items = Vec::new();
    for (k, p) in positions.iter().enumerate() {
        let mut item = Item::new(format!("Item{}", k + 1), k as u32);
        item.position = pt(p.0, p.1);
        items.push(item);
    }
    let mut menu = PieMenu::create(items, style(), trigger_distance, 600, 600);
    menu.show(center);
    menu
}

fn compass(trigger_distance: u32) -> PieMenu<u32> {
    menu_at(
        pt(500, 500),
        &[(600, 500), (500, 600), (400, 500), (500, 400)],
        trigger_distance,
    )
}

#[test]
fn color_values() {
    assert_eq!(Color::Black.value(), 0x0000_0000);
    assert_eq!(Color::PolycountGray.value(), 0x0020_2020);
}

#[test]
fn new_item_starts_at_origin() {
    let item = Item::new("Item1".to_string(), 7u8);
    assert_eq!(item.label, "Item1");
    assert_eq!(item.position, pt(0, 0));
    assert_eq!(item.action, 7);
}

#[test]
fn created_menu_is_closed() {
    let menu: PieMenu<u8> = PieMenu::create(Vec::new(), style(), 100, 600, 400);
    assert!(menu.position.is_none());
    assert_eq!(menu.max_width, 600);
    assert_eq!(menu.max_height, 400);
    assert_eq!(menu.trigger_distance, 100);
    assert_eq!(menu.item_style, style());
}

#[test]
fn show_centers_window_on_cursor() {
    let mut menu: PieMenu<u8> = PieMenu::create(Vec::new(), style(), 100, 600, 401);
    let origin = menu.show(pt(1000, 500));
    assert_eq!(origin, pt(700, 300));
    assert_eq!(menu.position, Some(pt(1000, 500)));
}

#[test]
fn close_reports_whether_open() {
    let mut menu = compass(100);
    assert!(menu.close());
    assert!(menu.position.is_none());
    assert!(!menu.close());
}

#[test]
fn cursor_along_item_direction_selects_it() {
    let menu = compass(100);
    assert_eq!(menu.sorted_items_from_mouse(pt(650, 505)), vec![0]);
    assert_eq!(menu.sorted_items_from_mouse(pt(500, 700)), vec![1]);
    assert_eq!(menu.sorted_items_from_mouse(pt(300, 490)), vec![2]);
    assert_eq!(menu.sorted_items_from_mouse(pt(510, 200)), vec![3]);
}

#[test]
fn cursor_short_of_trigger_distance_selects_nothing() {
    let menu = compass(100);
    assert!(menu.sorted_items_from_mouse(pt(599, 500)).is_empty());
    assert!(menu.sorted_items_from_mouse(pt(600, 500)).is_empty());
    assert_eq!(menu.sorted_items_from_mouse(pt(601, 500)), vec![0]);
}

#[test]
fn cursor_between_items_selects_nothing() {
    let menu = compass(100);
    assert!(menu.sorted_items_from_mouse(pt(650, 650)).is_empty());
}

#[test]
fn cursor_at_center_selects_nothing() {
    let menu = compass(0);
    assert!(menu.sorted_items_from_mouse(pt(500, 500)).is_empty());
}

#[test]
fn alignment_threshold_is_exclusive_of_wide_angles() {
    // cos = 19 / sqrt(19^2 + 7^2) is about 0.938: outside the cone.
    let menu = menu_at(pt(0, 0), &[(19, 7)], 0);
    assert!(menu.sorted_items_from_mouse(pt(100, 0)).is_empty());
    // cos = 19 / sqrt(19^2 + 6^2) is about 0.954: inside.
    let menu = menu_at(pt(0, 0), &[(19, 6)], 0);
    assert_eq!(menu.sorted_items_from_mouse(pt(100, 0)), vec![0]);
}

#[test]
fn closer_direction_ranks_first() {
    let menu = menu_at(pt(500, 500), &[(600, 520), (600, 500)], 100);
    assert_eq!(menu.sorted_items_from_mouse(pt(800, 500)), vec![1, 0]);
}

#[test]
fn equal_directions_keep_list_order() {
    let menu = menu_at(pt(500, 500), &[(700, 500), (600, 500), (400, 500)], 100);
    assert_eq!(menu.sorted_items_from_mouse(pt(800, 500)), vec![0, 1]);
}

#[test]
fn mouse_move_fires_once_and_closes() {
    let mut menu = compass(100);
    assert_eq!(menu.on_mouse_move(pt(550, 500)), None);
    assert_eq!(menu.position, Some(pt(500, 500)));
    assert_eq!(menu.on_mouse_move(pt(500, 650)), Some(1));
    assert!(menu.position.is_none());
    assert_eq!(menu.on_mouse_move(pt(500, 650)), None);
}

#[test]
fn ring_radius_adds_padding_per_item() {
    let menu = compass(100);
    assert_eq!(menu.ring_radius(), 116);
}

#[test]
fn item_rect_is_centered() {
    let menu = compass(100);
    assert_eq!(
        menu.item_rect(pt(300, 300)),
        Rect { left: 250, top: 290, right: 350, bottom: 310 }
    );
}

#[test]
fn client_center_halves_toward_zero() {
    assert_eq!(client_center(Rect { left: 0, top: 0, right: 600, bottom: 600 }), pt(300, 300));
    assert_eq!(client_center(Rect { left: 0, top: 0, right: 601, bottom: 7 }), pt(300, 3));
    assert_eq!(client_center(Rect { left: 5, top: 3, right: 0, bottom: 0 }), pt(-2, -1));
}

#[test]
fn place_item_records_position() {
    let mut menu = compass(100);
    menu.place_item(2, pt(17, -4));
    assert_eq!(menu.items[2].position, pt(17, -4));
    assert_eq!(menu.items[2].label, "Item3");
    assert_eq!(menu.items[1].position, pt(500, 600));
}

#[test]
fn coordinate_range() {
    assert!(pt(COORD_LIMIT, -COORD_LIMIT).in_range());
    assert!(!pt(COORD_LIMIT + 1, 0).in_range());
    assert!(!pt(0, i32::MIN).in_range());
}

#[test]
fn far_coordinates_rank_exactly() {
    let c = pt(-COORD_LIMIT, -COORD_LIMIT);
    let menu = menu_at(c, &[(COORD_LIMIT, COORD_LIMIT), (COORD_LIMIT, COORD_LIMIT - 1)], 1000);
    assert_eq!(menu.sorted_items_from_mouse(pt(COORD_LIMIT, COORD_LIMIT)), vec![0, 1]);
}
