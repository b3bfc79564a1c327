use stitchlands::components::{FixtureKind, ItemKind};
use stitchlands::text::{tile_text, wrapped_number_text};

#[test]
fn tile_text_writes_signed_coordinates() {
    assert_eq!(tile_text(-12, 305), "TileId { x: -12, y: 305 }");
    assert_eq!(tile_text(0, -1), "TileId { x: 0, y: -1 }");
    assert_eq!(tile_text(i32::MIN, i32::MAX), "TileId { x: -2147483648, y: 2147483647 }");
}

#[test]
fn wrapped_number_text_writes_decimal() {
    assert_eq!(wrapped_number_text("PawnId", 0), "PawnId(0)");
    assert_eq!(wrapped_number_text("ItemId", 1000), "ItemId(1000)");
    assert_eq!(wrapped_number_text("TaskId", u64::MAX), "TaskId(18446744073709551615)");
}

#[test]
fn kind_words_stop_at_the_first_colon() {
    assert_eq!(ItemKind::parse("Wood:oak:dry"), Ok(ItemKind::Wood));
    assert_eq!(ItemKind::parse("Berry"), Ok(ItemKind::Berry));
    assert_eq!(ItemKind::parse("Nail"), Err("Invalid ItemKind: Nail".to_string()));
    assert_eq!(ItemKind::parse("Wo:od"), Err("Invalid ItemKind: Wo".to_string()));
    assert_eq!(FixtureKind::parse("Stockpile:north"), Ok(FixtureKind::Stockpile));
    assert_eq!(FixtureKind::parse(":BerryBush"), Err("Invalid FixtureKind: ".to_string()));
}
