use casper_shot::text::{utf16_units, wide};
use casper_shot::geometry::{point_from_lparam, union_rect, Point, Rect};
use casper_shot::menu::{chosen, item_at, max_width, menu_layout, menu_position, px, text_rect, MenuState};
use casper_shot::overlay::Overlay;
use casper_shot::preview::{preview_click, preview_placement, Click, Placement, PreviewOpen};
use casper_shot::tray::{tray_command, TrayCommand, TrayEvent, TrayModel};
use casper_shot::webp::{encoding_for, Encoding};

fn rect(left: i32, top: i32, right: i32, bottom: i32) -> Rect {
    Rect { left, top, right, bottom }
}

#[test]
fn placement_de_l_apercu() {
    let monitor = rect(0, 0, 1920, 1080);
    assert_eq!(
        preview_placement(1920, 1080, monitor, 40, (768, 432)),
        Some(Placement { x: 576, y: 1080 - 432 - 24, width: 768, height: 432 })
    );
    assert_eq!(
        preview_placement(1280, 720, rect(-1920, 0, 0, 1080), 45, (863, 485)),
        Some(Placement { x: -1920 + 528, y: 1080 - 485 - 24, width: 863, height: 485 })
    );
    assert_eq!(preview_placement(1920, 1080, monitor, 0, (768, 432)), None);
    assert_eq!(preview_placement(0, 1080, monitor, 40, (768, 432)), None);
    assert_eq!(preview_placement(1920, 0, monitor, 40, (768, 432)), None);
    assert_eq!(preview_placement(1, 1, rect(0, 0, 1, 1), 1, (0, 0)), None);
    assert_eq!(preview_placement(100, 2000, monitor, 50, (27, 0)), None);
}

#[test]
fn union_et_point_du_message() {
    assert_eq!(union_rect(&rect(0, 5, 10, 6), &rect(-2, 7, 3, 9)), rect(-2, 5, 10, 9));
    assert_eq!(point_from_lparam(0x0014_000A), Point { x: 10, y: 20 });
    assert_eq!(point_from_lparam(0xFFFE_FFFF_u32 as isize), Point { x: -1, y: -2 });
}

#[test]
fn choix_de_la_region() {
    let windows = vec![rect(0, 0, 100, 100), rect(50, 50, 300, 300)];
    let mut o = Overlay::new(windows, (4, 4));
    let dirty = o.mouse_move(Point { x: 60, y: 60 });
    assert_eq!(o.active_rect, rect(0, 0, 100, 100));
    assert_eq!(dirty, rect(0, 0, 100, 100));
    o.mouse_move(Point { x: 200, y: 200 });
    assert_eq!(o.active_rect, rect(50, 50, 300, 300));
    o.button_down(Point { x: 200, y: 200 });
    o.mouse_move(Point { x: 202, y: 201 });
    assert!(!o.dragging);
    assert_eq!(o.active_rect, rect(50, 50, 300, 300));
    o.mouse_move(Point { x: 150, y: 260 });
    assert!(o.dragging);
    assert_eq!(o.active_rect, rect(150, 200, 200, 260));
    o.button_up();
    assert!(o.finished);
    assert_eq!(o.result, Some(rect(150, 200, 200, 260)));
}

#[test]
fn region_vide_ou_annulee() {
    let mut o = Overlay::new(Vec::new(), (4, 4));
    o.button_up();
    assert!(o.finished);
    assert_eq!(o.result, None);
    let mut o = Overlay::new(vec![rect(0, 0, 10, 10)], (4, 4));
    o.mouse_move(Point { x: 1, y: 1 });
    o.cancel();
    assert!(o.finished);
    assert_eq!(o.result, None);
}

#[test]
fn menu_mise_en_page_et_position() {
    assert_eq!(px(11, 96), 11);
    assert_eq!(px(14, 144), 21);
    assert_eq!(px(6, 120), 8);
    assert_eq!(px(11, 528), 61);
    assert_eq!(max_width(&vec![30, 80, 50]), 80);
    assert_eq!(max_width(&Vec::new()), 0);
    let layout = menu_layout(3, 16, 80, 96);
    assert_eq!(layout.item_rects, vec![rect(1, 1, 109, 29), rect(1, 29, 109, 57), rect(1, 57, 109, 85)]);
    assert_eq!((layout.width, layout.height), (110, 86));
    assert_eq!(item_at(&layout.item_rects, 30), Some(1));
    assert_eq!(item_at(&layout.item_rects, 0), None);
    assert_eq!(text_rect(&rect(1, 1, 109, 29)), rect(10, 1, 100, 29));
    let bounds = rect(0, 0, 1920, 1080);
    assert_eq!(menu_position(Point { x: 1900, y: 1070 }, 110, 86, bounds), (1790, 984));
    assert_eq!(menu_position(Point { x: 50, y: 40 }, 110, 86, bounds), (0, 0));
}

#[test]
fn menu_suit_la_souris() {
    let layout = menu_layout(2, 16, 80, 96);
    let mut m = MenuState::new(layout.item_rects);
    let r = m.mouse_move(30);
    assert!(r.start_tracking && r.redraw);
    assert_eq!(m.hover, Some(1));
    let r = m.mouse_move(31);
    assert!(!r.start_tracking && !r.redraw);
    assert!(m.mouse_leave());
    assert_eq!(m.hover, None);
    m.mouse_move(2);
    m.click();
    assert_eq!(m.selected, Some(0));
    assert_eq!(chosen(&vec!['a', 'b'], m.selected), Some('a'));
    assert_eq!(chosen(&vec!['a', 'b'], None), None);
}

#[test]
fn icone_de_la_barre_des_taches() {
    let mut tray = TrayModel::new("PrintScreen", "Shift+PrintScreen");
    assert_eq!(tray.tooltip(), "CASPER Shot (PrintScreen, Shift+PrintScreen)");
    tray.set_hotkeys("A", "B", false);
    assert_eq!(tray.tooltip(), "CASPER Shot (hotkeys unavailable)");
    assert!(tray.select(TrayEvent::ToggleHotkeys));
    assert!(!tray.hotkeys_enabled);
    assert_eq!(tray.tooltip(), "CASPER Shot (hotkeys disabled)");
    let items = tray.menu_items();
    assert_eq!(items[0], (TrayEvent::ToggleHotkeys, "Enable hotkeys".to_string()));
    assert_eq!(items[5], (TrayEvent::Quit, "Exit CASPER Shot".to_string()));
    assert_eq!(tray.take_event(), Some(TrayEvent::ToggleHotkeys));
    assert_eq!(tray.take_event(), None);
    assert!(!tray.select(TrayEvent::Reload));
    assert_eq!(tray_command(TrayEvent::Reload, tray.hotkeys_enabled), TrayCommand::ReloadUnregistered);
    assert_eq!(tray_command(TrayEvent::ToggleHotkeys, true), TrayCommand::RegisterHotkeys);
    let long = "x".repeat(200);
    tray.set_hotkeys(&long, "B", true);
    tray.select(TrayEvent::ToggleHotkeys);
    let units = tray.tooltip_units();
    assert_eq!(units.len(), 127);
    assert_eq!(units[0], b'C' as u16);
}

#[test]
fn qualite_et_encodage() {
    assert_eq!(encoding_for(100), Encoding::Lossless);
    assert_eq!(encoding_for(255), Encoding::Lossless);
    assert_eq!(encoding_for(99), Encoding::Lossy(99));
    assert_eq!(encoding_for(0), Encoding::Lossy(0));
}

#[test]
fn encodage_utf16() {
    assert_eq!(utf16_units("aé😀"), vec![0x61, 0xE9, 0xD83D, 0xDE00]);
    assert_eq!(wide("Hi"), vec![0x48, 0x69, 0]);
}

#[test]
fn clic_sur_l_apercu() {
    let path = std::path::PathBuf::from("/shots/2024-03/a.webp");
    assert!(matches!(preview_click(Some(&path), Click::Left), PreviewOpen::File));
    match preview_click(Some(&path), Click::Right) {
        PreviewOpen::Folder(dir) => assert_eq!(dir, std::path::PathBuf::from("/shots/2024-03")),
        _ => panic!("no folder"),
    }
    assert!(matches!(preview_click(None, Click::Left), PreviewOpen::Nothing));
    assert!(matches!(preview_click(Some(&std::path::PathBuf::from("/")), Click::Right), PreviewOpen::Nothing));
}
