use ftb::batch::{batches, decimal};
use ftb::manager::TilesheetManager;
use ftb::names::{load_renames, parse_rename_line};
use ftb::raster::Pixel;
use ftb::sheet::{Sheet, TilePos};
use ftb::prompt::confirms;
use ftb::sizes::{is_whitespace, parse_sizes};
use ftb::upload::{same_text, upload_step, UploadStep};
use std::io::Cursor;

fn strings(v: &[&str]) -> Vec<String> {
    v.iter().map(|s| s.to_string()).collect()
}

#[test]
fn rename_line_splits_at_last_equals() {
    assert_eq!(parse_rename_line("a=b"), Some(("a".to_string(), "b".to_string())));
    assert_eq!(parse_rename_line("a=b=c"), Some(("a=b".to_string(), "c".to_string())));
    assert_eq!(parse_rename_line("skip="), Some(("skip".to_string(), String::new())));
    assert_eq!(parse_rename_line("no equals"), None);
}

#[test]
fn renames_file_lines() {
    let (entries, invalid) = load_renames("old=new\r\nbroken\njunk=\n\nlast=one");
    assert_eq!(
        entries,
        vec![
            ("old".to_string(), "new".to_string()),
            ("junk".to_string(), String::new()),
            ("last".to_string(), "one".to_string()),
        ]
    );
    assert_eq!(invalid, strings(&["broken", ""]));
    let (entries, invalid) = load_renames("");
    assert!(entries.is_empty() && invalid.is_empty());
    let (entries, _) = load_renames("a=b\n");
    assert_eq!(entries, vec![("a".to_string(), "b".to_string())]);
}

#[test]
fn decimal_digits() {
    assert_eq!(decimal(0), "0");
    assert_eq!(decimal(7), "7");
    assert_eq!(decimal(1234567890), "1234567890");
    assert_eq!(decimal(u64::MAX), u64::MAX.to_string());
}

#[test]
fn batches_hold_at_most_fifty() {
    let parts: Vec<String> = (0..120).map(|i| i.to_string()).collect();
    let b = batches(&parts);
    assert_eq!(b.len(), 3);
    assert_eq!(b[0], (0..50).map(|i| i.to_string()).collect::<Vec<_>>().join("|"));
    assert_eq!(b[2], (100..120).map(|i| i.to_string()).collect::<Vec<_>>().join("|"));
    assert!(batches(&Vec::new()).is_empty());
    assert_eq!(batches(&strings(&["only"])), strings(&["only"]));
}

#[test]
fn registry_requests() {
    let mut m = TilesheetManager::new("Test", Vec::new());
    for i in 0..51u64 {
        m.import_tile(&format!("t{}", i), TilePos { x: i as u32, y: 5, z: 0 }, 1000 + i).unwrap();
    }
    let all: Vec<String> = (0..51).map(|i| format!("t{}", i)).collect();
    m.record_deletions(&all);
    let d = m.deletion_batches();
    assert_eq!(d.len(), 2);
    assert!(d[0].starts_with("1000|1001|"));
    assert_eq!(d[1], "1050");
    m.check_changes(&strings(&["stone", "dirt"])).unwrap();
    assert!(m.addition_batches().is_none());
    m.lookup("stone").unwrap();
    m.lookup("dirt").unwrap();
    assert_eq!(m.addition_batches().unwrap(), strings(&["0 0 0 stone|0 1 0 dirt"]));
}

#[test]
fn load_layer_decodes_png() {
    let img = image::RgbaImage::from_raw(2, 1, vec![1, 2, 3, 255, 9, 8, 7, 0]).unwrap();
    let mut png = Cursor::new(Vec::new());
    img.write_to(&mut png, image::ImageOutputFormat::Png).unwrap();
    let mut sheet = Sheet::new(1);
    sheet.load_layer(png.get_ref()).unwrap();
    let layer = &sheet.layers[0];
    assert_eq!((layer.width, layer.height), (2, 1));
    assert_eq!(layer.get_pixel(0, 0), Pixel { r: 1, g: 2, b: 3, a: 255 });
    assert_eq!(layer.get_pixel(1, 0), Pixel { r: 9, g: 8, b: 7, a: 0 });
}

#[test]
fn operator_sizes() {
    assert_eq!(parse_sizes("16, 32\n"), Some(vec![16, 32]));
    assert_eq!(parse_sizes(" +8 "), Some(vec![8]));
    assert_eq!(parse_sizes("\u{3000}64\t,128"), Some(vec![64, 128]));
    assert_eq!(parse_sizes("4294967295"), Some(vec![u32::MAX]));
    assert_eq!(parse_sizes("4294967296"), None);
    assert_eq!(parse_sizes(""), None);
    assert_eq!(parse_sizes("16,,32"), None);
    assert_eq!(parse_sizes("1 6"), None);
    assert_eq!(parse_sizes("-4"), None);
}

#[test]
fn upload_answers() {
    assert_eq!(upload_step("Success", false), UploadStep::Done);
    assert_eq!(upload_step("Warning", false), UploadStep::Confirm);
    assert_eq!(upload_step("Warning", true), UploadStep::Done);
    assert_eq!(upload_step("Error", false), UploadStep::Failed);
    assert_eq!(upload_step("Successful", true), UploadStep::Failed);
    assert!(same_text("abc", "abc") && !same_text("abc", "abd"));
}

#[test]
fn operator_confirmation() {
    assert!(confirms("continue\n"));
    assert!(confirms("  Continue \r\n"));
    assert!(confirms("\u{3000}CONTINUE"));
    assert!(!confirms("continue please"));
    assert!(!confirms("cont"));
    assert!(!confirms(""));
}

#[test]
fn whitespace_matches_std() {
    for u in 0..=0x10FFFFu32 {
        if let Some(c) = char::from_u32(u) {
            assert_eq!(is_whitespace(c), c.is_whitespace(), "{:x}", u);
        }
    }
}
