use factoriomaps::parts::{get_tile_parts, push_decimal, TilePart};
use factoriomaps::tile::{div_floor_2, Tile};

fn tile(surface: &str, zoom: i32, x: i32, y: i32) -> Tile {
    Tile::new(surface.to_string(), zoom, x, y)
}

#[test]
fn zoom_out_floors_negative_coordinates() {
    let t = tile("nauvis", 20, -1, -1);
    let p = t.zoom_out();
    assert_eq!(p, tile("nauvis", 19, -1, -1));
    assert_eq!(tile("nauvis", 20, -3, 5).zoom_out(), tile("nauvis", 19, -2, 2));
    assert_eq!(tile("nauvis", 20, 3, -4).zoom_out(), tile("nauvis", 19, 1, -2));
}

#[test]
fn div_floor_2_values() {
    assert_eq!(div_floor_2(-1), -1);
    assert_eq!(div_floor_2(-2), -1);
    assert_eq!(div_floor_2(-3), -2);
    assert_eq!(div_floor_2(0), 0);
    assert_eq!(div_floor_2(7), 3);
    assert_eq!(div_floor_2(i32::MIN), -1073741824);
    assert_eq!(div_floor_2(i32::MAX), 1073741823);
}

#[test]
fn zoom_in_and_back() {
    let t = tile("nauvis", 15, -7, 4);
    let c = t.zoom_in();
    assert_eq!(c, tile("nauvis", 16, -14, 8));
    assert_eq!(c.zoom_out(), t);
}

#[test]
fn translate_moves_on_level() {
    assert_eq!(tile("a", 3, 1, 2).translate(1, -1), tile("a", 3, 2, 1));
}

#[test]
fn children_order_and_parent() {
    let t = tile("nauvis", 18, -1, 2);
    let cs = t.children();
    assert_eq!(
        cs,
        vec![
            tile("nauvis", 19, -2, 4),
            tile("nauvis", 19, -1, 4),
            tile("nauvis", 19, -2, 5),
            tile("nauvis", 19, -1, 5),
        ]
    );
    for c in &cs {
        assert_eq!(c.zoom_out(), t);
    }
    for i in 0..4 {
        for j in 0..4 {
            if i != j {
                assert_ne!(cs[i], cs[j]);
            }
        }
    }
}

#[test]
fn tile_parts_in_storage_order() {
    let parts = get_tile_parts();
    let xy: Vec<(u32, u32)> = parts.iter().map(|p| (p.x, p.y)).collect();
    assert_eq!(xy, vec![(0, 0), (0, 1), (1, 0), (1, 1)]);
}

#[test]
fn part_paths_and_components() {
    let t = tile("nauvis", 20, 0, 0);
    let p = TilePart { x: 1, y: 0 };
    assert_eq!(p.get_path_components(&t), (20, 1, 0));
    assert_eq!(p.get_path(&t), "nauvis/20/1/0.jpg");
    let t = tile("factory", 14, -3, 7);
    let p = TilePart { x: 0, y: 1 };
    assert_eq!(p.get_path_components(&t), (14, -6, 15));
    assert_eq!(p.get_path(&t), "factory/14/-6/15.jpg");
    let t = tile("s", -5, -1, -1);
    let p = TilePart { x: 1, y: 1 };
    assert_eq!(p.get_path(&t), "s/-5/-1/-1.jpg");
}

#[test]
fn decimal_text() {
    let mut s = String::new();
    push_decimal(&mut s, 0);
    s.push(' ');
    push_decimal(&mut s, -2147483648);
    s.push(' ');
    push_decimal(&mut s, 2147483647);
    s.push(' ');
    push_decimal(&mut s, 10);
    assert_eq!(s, "0 -2147483648 2147483647 10");
}
