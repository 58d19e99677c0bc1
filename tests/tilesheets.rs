use ftb::manager::{ImportError, PlaceError, TilesheetManager};
use ftb::names::{normalize, TileError};
use ftb::raster::{fix_translucent, Pixel, Raster};
use ftb::sheet::{Sheet, TilePos};

fn pos(x: u32, y: u32, z: u32) -> TilePos {
    TilePos { x, y, z }
}

fn solid(size: u32, p: Pixel) -> Raster {
    let bytes: Vec<u8> = (0..size * size).flat_map(|_| [p.r, p.g, p.b, p.a]).collect();
    Raster::from_rgba_bytes(size, size, &bytes).unwrap()
}

fn stems(names: &[&str]) -> Vec<String> {
    names.iter().map(|s| s.to_string()).collect()
}

const RED: Pixel = Pixel { r: 255, g: 0, b: 0, a: 255 };
const BLUE: Pixel = Pixel { r: 0, g: 0, b: 255, a: 255 };
const CLEAR: Pixel = Pixel { r: 0, g: 0, b: 0, a: 0 };

#[test]
fn allocation_follows_diagonal_order() {
    let mut m = TilesheetManager::new("Test", Vec::new());
    let got: Vec<TilePos> = ["a", "b", "c", "d", "e"]
        .iter()
        .map(|n| m.lookup(n).unwrap())
        .collect();
    assert_eq!(
        got,
        vec![pos(0, 0, 0), pos(0, 1, 0), pos(1, 0, 0), pos(1, 1, 0), pos(0, 2, 0)]
    );
}

#[test]
fn allocation_is_deterministic_and_distinct() {
    let run = || {
        let mut m = TilesheetManager::new("Test", Vec::new());
        m.import_tile("stone", pos(0, 1, 0), 7).unwrap();
        m.import_tile("dirt", pos(1, 1, 0), 8).unwrap();
        ["x", "y", "z", "w"].iter().map(|n| m.lookup(n).unwrap()).collect::<Vec<_>>()
    };
    let first = run();
    assert_eq!(first, run());
    assert_eq!(first, vec![pos(0, 0, 0), pos(1, 0, 0), pos(0, 2, 0), pos(1, 2, 0)]);
    let mut all = first.clone();
    all.push(pos(0, 1, 0));
    all.push(pos(1, 1, 0));
    for i in 0..all.len() {
        for j in i + 1..all.len() {
            assert_ne!(all[i], all[j]);
        }
    }
}

#[test]
fn allocation_is_idempotent() {
    let mut m = TilesheetManager::new("Test", Vec::new());
    let a = m.lookup("a").unwrap();
    let next = m.next;
    assert_eq!(m.lookup("a").unwrap(), a);
    assert_eq!(m.next, next);
    assert_eq!(m.tiles.len(), 1);
}

#[test]
fn allocation_spills_into_next_layer() {
    let mut m = TilesheetManager::new("Test", Vec::new());
    for i in 0..64 * 64 {
        let p = m.lookup(&format!("t{}", i)).unwrap();
        assert_eq!(p.z, 0);
        assert!(p.x < 64 && p.y < 64);
    }
    assert_eq!(m.lookup("over").unwrap(), pos(0, 0, 1));
}

#[test]
fn registry_scenario_stone_and_dirt() {
    let mut m = TilesheetManager::new("Test", Vec::new());
    m.import_tile("stone", pos(0, 0, 0), 1).unwrap();
    m.check_changes(&stems(&["stone", "dirt"])).unwrap();
    assert_eq!(m.added, vec!["dirt".to_string()]);
    assert!(m.missing.is_empty());
    m.record_deletions(&Vec::new());
    let mut sheet = Sheet::new(1);
    sheet.add_layer();
    m.tilesheets.push(sheet);
    let p = m.place_tile("stone", &vec![solid(1, RED)]).unwrap();
    assert_eq!(p, pos(0, 0, 0));
    // first free cell of the diagonal order after (0, 0, 0)
    let p = m.place_tile("dirt", &vec![solid(1, BLUE)]).unwrap();
    assert_eq!(p, pos(0, 1, 0));
}

#[test]
fn illegal_name_is_rejected_before_allocation() {
    let mut m = TilesheetManager::new("Test", Vec::new());
    let r = m.check_changes(&stems(&["ok", "foo_bar", "later"]));
    assert_eq!(r, Err(TileError::IllegalName("foo_bar".to_string())));
    assert!(m.tiles.is_empty());
    for bad in ["a[b", "c]d"] {
        let r = normalize(&Vec::new(), bad);
        assert_eq!(r, Err(TileError::IllegalName(bad.to_string())));
    }
}

#[test]
fn renames_map_and_skip() {
    let renames = vec![
        ("old_name".to_string(), "new".to_string()),
        ("junk".to_string(), String::new()),
        ("old_name".to_string(), "newer".to_string()),
    ];
    assert_eq!(normalize(&renames, "old_name"), Ok(Some("newer".to_string())));
    assert_eq!(normalize(&renames, "junk"), Ok(None));
    assert_eq!(normalize(&renames, "plain"), Ok(Some("plain".to_string())));
    let mut m = TilesheetManager::new("Test", renames);
    m.check_changes(&stems(&["old_name", "junk"])).unwrap();
    assert_eq!(m.added, vec!["newer".to_string()]);
}

#[test]
fn reconciliation_sets() {
    let mut m = TilesheetManager::new("Test", Vec::new());
    m.import_tile("a", pos(0, 0, 0), 10).unwrap();
    m.import_tile("b", pos(0, 1, 0), 11).unwrap();
    m.import_tile("c", pos(1, 0, 0), 12).unwrap();
    m.check_changes(&stems(&["b", "d", "e"])).unwrap();
    assert_eq!(m.added, stems(&["d", "e"]));
    let mut missing = m.missing.clone();
    missing.sort();
    assert_eq!(missing, stems(&["a", "c"]));
    let unknown = m.record_deletions(&stems(&["a", "zzz", "a"]));
    assert_eq!(unknown, stems(&["zzz", "a"]));
    assert_eq!(m.deleted, vec![10]);
    for n in ["d", "e"] {
        m.lookup(n).unwrap();
    }
    let mut names: Vec<String> = m.tiles.iter().map(|t| t.name.clone()).collect();
    names.sort();
    assert_eq!(names, stems(&["b", "c", "d", "e"]));
    // the freed cell (0, 0, 0) is reused since the cursor had not passed it
    assert_eq!(m.tiles.iter().find(|t| t.name == "d").unwrap().pos, pos(0, 0, 0));
}

#[test]
fn import_rejects_duplicates() {
    let mut m = TilesheetManager::new("Test", Vec::new());
    m.import_tile("a", pos(0, 0, 0), 1).unwrap();
    assert_eq!(m.import_tile("a", pos(3, 3, 0), 2), Err(ImportError::DuplicateName));
    assert_eq!(m.import_tile("b", pos(0, 0, 0), 2), Err(ImportError::Occupied));
    assert_eq!(m.tiles.len(), 1);
}

#[test]
fn canvas_growth_preserves_content() {
    let mut sheet = Sheet::new(2);
    sheet.insert(pos(0, 0, 0), &solid(2, RED));
    assert_eq!(sheet.layers[0].width, 2);
    sheet.insert(pos(2, 1, 0), &solid(2, BLUE));
    let layer = &sheet.layers[0];
    assert_eq!((layer.width, layer.height), (6, 4));
    for y in 0..2 {
        for x in 0..2 {
            assert_eq!(layer.get_pixel(x, y), RED);
        }
    }
    for y in 2..4 {
        for x in 4..6 {
            assert_eq!(layer.get_pixel(x, y), BLUE);
        }
    }
    assert_eq!(layer.get_pixel(3, 3), CLEAR);
    assert_eq!(layer.get_pixel(5, 0), CLEAR);
}

#[test]
fn insert_creates_next_layer() {
    let mut sheet = Sheet::new(1);
    sheet.insert(pos(0, 0, 0), &solid(1, RED));
    sheet.insert(pos(1, 0, 1), &solid(1, BLUE));
    assert_eq!(sheet.layers.len(), 2);
    assert_eq!((sheet.layers[1].width, sheet.layers[1].height), (2, 1));
    assert_eq!(sheet.layers[1].get_pixel(0, 0), CLEAR);
    assert_eq!(sheet.layers[1].get_pixel(1, 0), BLUE);
}

#[test]
fn place_tile_rejects_wrong_size_rendering() {
    let mut m = TilesheetManager::new("Test", Vec::new());
    m.tilesheets.push(Sheet::new(2));
    assert_eq!(
        m.place_tile("a", &vec![solid(1, RED)]),
        Err(PlaceError::Unfit(pos(0, 0, 0)))
    );
    assert!(m.tilesheets[0].layers.is_empty());
}

#[test]
fn fix_translucent_divides_by_alpha() {
    let mut img = Raster::from_rgba_bytes(
        4,
        1,
        &vec![10, 20, 30, 0, 10, 20, 30, 255, 64, 100, 200, 128, 1, 2, 3, 1],
    )
    .unwrap();
    fix_translucent(&mut img);
    assert_eq!(img.get_pixel(0, 0), Pixel { r: 10, g: 20, b: 30, a: 0 });
    assert_eq!(img.get_pixel(1, 0), Pixel { r: 10, g: 20, b: 30, a: 255 });
    assert_eq!(img.get_pixel(2, 0), Pixel { r: 127, g: 199, b: 255, a: 128 });
    assert_eq!(img.get_pixel(3, 0), Pixel { r: 255, g: 255, b: 255, a: 1 });
}

#[test]
fn rgba_bytes_round_trip() {
    let bytes = vec![1, 2, 3, 4, 5, 6, 7, 8];
    let img = Raster::from_rgba_bytes(2, 1, &bytes).unwrap();
    assert_eq!(img.to_rgba_bytes(), bytes);
    assert!(Raster::from_rgba_bytes(2, 2, &bytes).is_none());
}

#[test]
fn load_layer_rejects_garbage() {
    let mut sheet = Sheet::new(2);
    assert!(sheet.load_layer(&[1, 2, 3]).is_err());
    assert!(sheet.layers.is_empty());
}

#[test]
fn deletions_record_ids_in_list_order() {
    let mut m = TilesheetManager::new("Test", Vec::new());
    m.import_tile("a", pos(0, 0, 0), 10).unwrap();
    m.import_tile("b", pos(0, 1, 0), 11).unwrap();
    m.import_tile("c", pos(1, 0, 0), 12).unwrap();
    let unknown = m.record_deletions(&stems(&["c", "nope", "a", "c"]));
    assert_eq!(m.deleted, vec![12, 10]);
    assert_eq!(unknown, stems(&["nope", "c"]));
    assert_eq!(m.tiles.len(), 1);
    assert!(!m.is_occupied(pos(1, 0, 0)) && m.is_occupied(pos(0, 1, 0)));
}

#[test]
fn import_takes_new_name_on_free_cell() {
    let mut m = TilesheetManager::new("Test", Vec::new());
    assert_eq!(m.import_tile("a", pos(2, 3, 1), 5), Ok(()));
    assert_eq!(m.tiles[0].pos, pos(2, 3, 1));
    assert_eq!(m.tiles[0].id, Some(5));
    assert_eq!(m.missing, stems(&["a"]));
}
