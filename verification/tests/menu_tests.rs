use bt_battery_tray::battery::DeviceBattery;
use bt_battery_tray::menu::{
    arrow_pixels, bmp_bytes, build_items, classify_message, is_button_down, build_language_items, build_target_items, build_theme_items,
    click_closes, client_pos, finish_step, fit_to_screen, foreground_closes, hit_test, item_top,
    localized_device_name, low_battery_message, low_battery_title, menu_size, paint_rows, palette,
    route_message, submenu_items, submenu_origin, text, to_utf16, tooltip_empty, tray_tooltip,
    ClickOutcome, Glyph, HoverChange, ItemKind, Language, MenuAction, MenuItem, MenuModel,
    MessageClass, Route, SubmenuKind, TextKey, Theme,
};

fn dev(address: &str, name: &str, level: u8) -> DeviceBattery {
    DeviceBattery { address: address.to_string(), name: name.to_string(), level }
}

fn texts(items: &[MenuItem]) -> Vec<String> {
    items.iter().map(|i| i.text.clone()).collect()
}

#[test]
fn registry_values_round_trip() {
    for l in [Language::English, Language::Russian, Language::Ukrainian] {
        assert_eq!(Language::from_registry(l.registry_value()), l);
    }
    for t in [Theme::Dark, Theme::Light] {
        assert_eq!(Theme::from_registry(t.registry_value()), t);
    }
    assert_eq!(Language::registry_value(Language::Ukrainian), "uk");
    assert_eq!(Language::from_registry("de"), Language::English);
    assert_eq!(Language::from_registry(""), Language::English);
    assert_eq!(Theme::from_registry("LIGHT"), Theme::Dark);
    assert_eq!(Theme::registry_value(Theme::Light), "light");
}

#[test]
fn texts_in_three_languages() {
    assert_eq!(text(Language::English, TextKey::Refresh), "Refresh now");
    assert_eq!(text(Language::Russian, TextKey::Exit), "Выход");
    assert_eq!(text(Language::Ukrainian, TextKey::NoDevices), "Підключених пристроїв немає");
    assert_eq!(tray_tooltip(Language::English), "Bluetooth device battery");
    assert_eq!(tooltip_empty(Language::Russian), "Подключённых устройств с зарядом нет");
    assert_eq!(low_battery_title(Language::Ukrainian), "Низький заряд");
}

#[test]
fn fallback_names_follow_the_language() {
    assert_eq!(localized_device_name(Language::English, "Bluetooth-устройство"), "Bluetooth device");
    assert_eq!(localized_device_name(Language::Ukrainian, "Bluetooth device"), "Bluetooth-пристрій");
    assert_eq!(localized_device_name(Language::Russian, "Bluetooth-пристрій"), "Bluetooth-устройство");
    assert_eq!(localized_device_name(Language::Russian, "Mouse"), "Mouse");
}

#[test]
fn low_battery_message_text() {
    assert_eq!(low_battery_message(Language::English, "Mouse", 7), "Mouse: 7% — time to charge.");
    assert_eq!(
        low_battery_message(Language::Russian, "Bluetooth device", 15),
        "Bluetooth-устройство: 15% — пора зарядить."
    );
    assert_eq!(low_battery_message(Language::Ukrainian, "Pad", 100), "Pad: 100% — час зарядити.");
}

#[test]
fn palettes() {
    let d = palette(Theme::Dark);
    assert_eq!((d.bg, d.hover, d.border, d.text, d.disabled), (0x202020, 0x333333, 0x454545, 0xE8E8E8, 0x8C8C8C));
    let l = palette(Theme::Light);
    assert_eq!((l.bg, l.hover, l.border, l.text, l.disabled), (0xFFFFFF, 0xE8E8E8, 0xB8B8B8, 0x181818, 0x707070));
}

#[test]
fn main_menu_items() {
    let devices = vec![dev("AABBCCDDEEFF", "Mouse", 80), dev("112233445566", "Bluetooth-устройство", 5)];
    let items = build_items(&devices, "aabbccddeeff", "", true, "12:00:00", Language::English);
    assert_eq!(
        texts(&items),
        vec![
            "Updated: 12:00:00",
            "● Mouse: 80%",
            "Bluetooth device: 5%",
            "",
            "Target: Mouse",
            "Language",
            "Theme",
            "",
            "Refresh now",
            "Start with Windows",
            "",
            "Exit",
        ]
    );
    assert_eq!(items[0].kind, ItemKind::Info);
    assert_eq!(items[3].kind, ItemKind::Separator);
    assert_eq!(items[4].submenu, Some(SubmenuKind::Target));
    assert_eq!(items[8].action, MenuAction::Refresh);
    assert_eq!(items[9].kind, ItemKind::Check(true));
    assert_eq!(items[9].action, MenuAction::ToggleAutostart);
    assert_eq!(items[11].action, MenuAction::Exit);
}

#[test]
fn main_menu_target_labels() {
    let none: Vec<DeviceBattery> = Vec::new();
    let items = build_items(&none, "", "", false, "t", Language::Russian);
    assert_eq!(items[1].text, "Подключённых устройств нет");
    assert_eq!(items[3].text, "Цель: Авто (самое разряженное)");
    assert_eq!(items[8].kind, ItemKind::Check(false));
    let items = build_items(&none, "AABBCCDDEEFF", "Old headset", false, "t", Language::English);
    assert_eq!(items[3].text, "Target: Old headset");
    let items = build_items(&none, "AABBCCDDEEFF", "", false, "t", Language::Ukrainian);
    assert_eq!(items[3].text, "Ціль: не підключено");
}

#[test]
fn submenus() {
    let devices = vec![dev("AABBCCDDEEFF", "Mouse", 80), dev("112233445566", "Pad", 5)];
    let t = build_target_items(&devices, "112233445566", Language::English);
    assert_eq!(texts(&t), vec!["Auto (lowest battery)", "Mouse", "Pad"]);
    assert_eq!(t[0].kind, ItemKind::Radio(false));
    assert_eq!(t[0].action, MenuAction::SetTarget(String::new()));
    assert_eq!(t[1].kind, ItemKind::Radio(false));
    assert_eq!(t[2].kind, ItemKind::Radio(true));
    assert_eq!(t[2].action, MenuAction::SetTarget("112233445566".to_string()));
    let t = build_target_items(&devices, "", Language::English);
    assert_eq!(t[0].kind, ItemKind::Radio(true));

    let l = build_language_items(Language::Ukrainian);
    assert_eq!(texts(&l), vec!["Англійська", "Російська", "Українська"]);
    assert_eq!(l[2].kind, ItemKind::Radio(true));
    assert_eq!(l[0].action, MenuAction::SetLanguage(Language::English));

    let th = build_theme_items(Language::English, Theme::Light);
    assert_eq!(texts(&th), vec!["Dark", "Light"]);
    assert_eq!(th[0].kind, ItemKind::Radio(false));
    assert_eq!(th[1].kind, ItemKind::Radio(true));
    assert_eq!(th[1].action, MenuAction::SetTheme(Theme::Light));

    let s = submenu_items(SubmenuKind::Theme, &devices, "", Language::Russian, Theme::Dark);
    assert_eq!(texts(&s), vec!["Тёмная", "Светлая"]);
    let s = submenu_items(SubmenuKind::Target, &devices, "", Language::Russian, Theme::Dark);
    assert_eq!(s.len(), 3);
}

fn sample_items() -> Vec<MenuItem> {
    vec![
        MenuItem::info("Updated".to_string()),
        MenuItem::separator(),
        MenuItem::submenu("Target".to_string(), SubmenuKind::Target),
        MenuItem::action_item("Exit".to_string(), MenuAction::Exit),
    ]
}

#[test]
fn layout_and_hit_testing() {
    let items = sample_items();
    // rows: 1..29 info, 29..38 separator, 38..66 submenu, 66..94 exit; border at 94
    assert_eq!(item_top(&items, 0), 1);
    assert_eq!(item_top(&items, 1), 29);
    assert_eq!(item_top(&items, 2), 38);
    assert_eq!(item_top(&items, 3), 66);
    assert_eq!(item_top(&items, 4), 94);
    assert_eq!(item_top(&items, 99), 94);
    let height = 95;
    assert_eq!(hit_test(&items, 0, height), -1);
    assert_eq!(hit_test(&items, 1, height), 0);
    assert_eq!(hit_test(&items, 28, height), 0);
    assert_eq!(hit_test(&items, 29, height), 1);
    assert_eq!(hit_test(&items, 38, height), 2);
    assert_eq!(hit_test(&items, 93, height), 3);
    assert_eq!(hit_test(&items, 94, height), -1);
    assert_eq!(hit_test(&items, -5, height), -1);
    // a taller window than its rows: below the rows nothing is hit
    assert_eq!(hit_test(&items, 120, 200), -1);
}

#[test]
fn menu_size_from_text_widths() {
    let items = sample_items();
    let (w, h) = menu_size(&items, &vec![40, 1000, 70, 30]);
    assert_eq!(w, 70 + 10 + 36 + 4);
    assert_eq!(h, 2 + 28 + 9 + 28 + 28);
    let empty: Vec<MenuItem> = Vec::new();
    assert_eq!(menu_size(&empty, &Vec::new()), (50, 2));
    let (w, _) = menu_size(&items, &vec![i32::MAX, 0, i32::MAX - 10, 0]);
    assert_eq!(w, i32::MAX);
}

#[test]
fn paint_plan() {
    let items = sample_items();
    let rows = paint_rows(&items, 2, 200, Theme::Light);
    assert_eq!(rows.len(), 4);
    assert_eq!(rows[0].top, 1);
    assert!(!rows[0].highlighted);
    assert_eq!(rows[0].text_left, 11);
    assert_eq!(rows[0].color, 0x707070);
    assert_eq!(rows[0].glyph, Glyph::NoGlyph);
    assert!(rows[1].separator);
    assert_eq!(rows[1].top, 29);
    assert!(rows[2].highlighted);
    assert_eq!(rows[2].top, 38);
    assert_eq!(rows[2].text_left, 37);
    assert_eq!(rows[2].text_right, 189);
    assert_eq!(rows[2].color, 0x181818);
    assert_eq!(rows[2].glyph, Glyph::Arrow);
    assert!(!rows[3].highlighted);
    let rows = paint_rows(&items, 1, 200, Theme::Dark);
    assert!(!rows[1].highlighted);
}

#[test]
fn arrow_averages_blocks() {
    // a mask whose left half (12 columns) is white: output columns 0..3 full
    let mut mask = vec![0u8; 24 * 32 * 4];
    for y in 0..32 {
        for x in 0..12 {
            mask[(y * 24 + x) * 4] = 255;
        }
        // column 12 half covers output column 3 by a quarter of its samples
        mask[(y * 24 + 12) * 4] = 255;
    }
    let out = arrow_pixels(&mask, 0x00FF8040);
    assert_eq!(out.len(), 6 * 8 * 4);
    // colour 0x00BBGGRR: r = 0x40, g = 0x80, b = 0xFF
    assert_eq!(&out[0..4], &[0xFF, 0x80, 0x40, 255]);
    // column 3: a quarter of 255 is 63
    let cov = 255 * 4 / 16;
    assert_eq!(&out[12..16], &[(255 * cov / 255) as u8, (128 * cov / 255) as u8, (64 * cov / 255) as u8, cov as u8]);
    assert_eq!(&out[16..20], &[0, 0, 0, 0]);
    let last = (7 * 6 + 5) * 4;
    assert_eq!(&out[last..last + 4], &[0, 0, 0, 0]);
}

#[test]
fn lparam_coordinates() {
    assert_eq!(client_pos(0x0014_000A), (10, 20));
    assert_eq!(client_pos(0xFFFF_FFFE_u32 as isize), (-2, -1));
    assert_eq!(client_pos(0x8000_7FFF_u32 as isize), (32767, -32768));
}

fn model() -> MenuModel {
    MenuModel::new(sample_items(), 150, 95, Theme::Dark)
}

#[test]
fn model_mouse_moves() {
    let mut m = model();
    assert_eq!(m.hover, -1);
    assert_eq!(m.mouse_move(10, 40, false), HoverChange::StartTimer);
    assert_eq!(m.hover, 2);
    assert_eq!(m.mouse_move(11, 41, false), HoverChange::Unchanged);
    assert_eq!(m.mouse_move(10, 70, false), HoverChange::StopTimer);
    assert_eq!(m.hover, 3);
    assert_eq!(m.mouse_move(-1, 70, false), HoverChange::Unchanged);
    assert_eq!(m.hover, 3);
    assert_eq!(m.mouse_move(10, 0, false), HoverChange::StopTimer);
    assert_eq!(m.hover, -1);
    assert!(!m.close_child);
}

#[test]
fn model_parent_asks_child_to_close() {
    let mut m = model();
    m.submenu_top = 38;
    m.mouse_move(10, 40, true);
    assert!(!m.close_child);
    m.mouse_move(10, 70, true);
    assert!(m.close_child);
    m.done = true;
    assert!(m.release_child());
    assert!(!m.close_child);
    assert!(!m.done);
    assert!(!m.release_child());
}

#[test]
fn model_hover_timer_opens_submenu() {
    let mut m = model();
    assert!(!m.hover_timer(true));
    m.mouse_move(10, 40, false);
    assert!(!m.hover_timer(false));
    assert!(!m.done);
    assert!(m.hover_timer(true));
    assert!(m.done);
    assert_eq!(m.open_submenu, Some(SubmenuKind::Target));
    assert_eq!(m.submenu_top, 38);
    assert!(m.result.is_none());
    assert!(!m.hover_timer(true));
}

#[test]
fn model_clicks() {
    let mut m = model();
    assert_eq!(m.button_down(10, 40), ClickOutcome::OpenSubmenu);
    assert_eq!(m.open_submenu, Some(SubmenuKind::Target));
    assert!(!m.done);
    assert_eq!(m.button_down(10, 70), ClickOutcome::Closed(true));
    assert_eq!(m.result, MenuAction::Exit);
    assert_eq!(m.button_down(10, 10), ClickOutcome::Closed(false));
    assert_eq!(m.result, MenuAction::Exit);

    let mut m = model();
    assert_eq!(m.button_down(10, 10), ClickOutcome::Closed(true));
    assert_eq!(m.result, MenuAction::NoAction);
    let mut m = model();
    assert_eq!(m.button_down(500, 10), ClickOutcome::Closed(true));
    assert!(m.done);
    assert_eq!(m.result, MenuAction::NoAction);
}

#[test]
fn model_close_and_suspend() {
    let mut m = model();
    assert!(m.close(MenuAction::Refresh));
    assert!(!m.close(MenuAction::Exit));
    assert_eq!(m.result, MenuAction::Refresh);
    assert!(!m.suspend());
    let mut m = model();
    assert!(m.suspend());
    assert!(m.result.is_none());
}

#[test]
fn loop_finish_rules() {
    let mut parent = model();
    let mut child = model();
    assert_eq!(finish_step(&parent, Some(&child), false), None);
    assert_eq!(finish_step(&parent, Some(&child), true), Some(MenuAction::NoAction));
    child.close(MenuAction::SetTheme(Theme::Light));
    parent.suspend();
    assert_eq!(finish_step(&parent, Some(&child), true), Some(MenuAction::SetTheme(Theme::Light)));
    let mut parent = model();
    parent.close(MenuAction::Exit);
    assert_eq!(finish_step(&parent, None, false), Some(MenuAction::Exit));
    assert_eq!(finish_step(&parent, Some(&model()), false), None);
}

#[test]
fn loop_routing() {
    assert_eq!(route_message(true, MessageClass::Escape), Route::CloseGroup);
    assert_eq!(route_message(true, MessageClass::Click), Route::Dispatch);
    assert_eq!(route_message(false, MessageClass::MouseMove), Route::Skip);
    assert_eq!(route_message(false, MessageClass::Click), Route::CloseGroup);
    assert_eq!(route_message(false, MessageClass::Other), Route::Dispatch);
}

#[test]
fn closing_by_focus_and_clicks() {
    assert!(!foreground_closes(true, true, 1000, 1200, 5, 1, 2));
    assert!(foreground_closes(true, true, 1000, 1350, 5, 1, 2));
    assert!(!foreground_closes(true, true, 1000, 1400, 1, 1, 2));
    assert!(!foreground_closes(true, true, 1000, 1400, 2, 1, 2));
    assert!(foreground_closes(true, true, 0, 10, 5, 1, 2));
    assert!(!foreground_closes(false, true, 0, 10, 5, 1, 2));
    assert!(!foreground_closes(true, false, 0, 10, 5, 1, 2));
    assert!(click_closes(0, true, 1, 5, 2));
    assert!(!click_closes(-1, true, 1, 5, 2));
    assert!(!click_closes(0, false, 1, 5, 2));
    assert!(!click_closes(0, true, 0, 5, 2));
    assert!(!click_closes(0, true, 1, 1, 2));
    assert!(!click_closes(0, true, 1, 2, 2));
}

#[test]
fn popup_positions() {
    assert_eq!(fit_to_screen(100, 100, 50, 50, 1920, 1080), (100, 100));
    assert_eq!(fit_to_screen(1900, 1060, 50, 50, 1920, 1080), (1870, 1030));
    assert_eq!(fit_to_screen(10, 10, 3000, 50, 1920, 1080), (0, 10));
    // the submenu opens to the left; the parent moves right to make room
    assert_eq!(submenu_origin(500, 300, 200, 38, 150, 100, 1920, 1080), (500, 350, 337));
    assert_eq!(submenu_origin(50, 300, 200, 38, 150, 100, 1920, 1080), (150, 0, 337));
    assert_eq!(submenu_origin(1800, 1000, 200, 38, 150, 100, 1920, 1080), (1720, 1570, 980));
    // any width is placed the same way, a negative one too
    assert_eq!(submenu_origin(-50, 0, 200, 1, -20, 100, 1920, 1080), (-20, 0, 0));
}

#[test]
fn bmp_snapshot() {
    // 2 × 2 pixels, top row 1..=8, bottom row 9..=16
    let top: Vec<u8> = (1..=16).collect();
    let bmp = bmp_bytes(2, 2, &top);
    assert_eq!(bmp.len(), 54 + 16);
    assert_eq!(&bmp[0..2], b"BM");
    assert_eq!(&bmp[2..6], &70u32.to_le_bytes());
    assert_eq!(&bmp[6..10], &[0, 0, 0, 0]);
    assert_eq!(&bmp[10..14], &54u32.to_le_bytes());
    assert_eq!(&bmp[14..18], &40u32.to_le_bytes());
    assert_eq!(&bmp[18..22], &2u32.to_le_bytes());
    assert_eq!(&bmp[22..26], &2u32.to_le_bytes());
    assert_eq!(&bmp[26..30], &[1, 0, 32, 0]);
    assert_eq!(&bmp[30..34], &[0, 0, 0, 0]);
    assert_eq!(&bmp[34..38], &16u32.to_le_bytes());
    assert_eq!(&bmp[38..54], &[0u8; 16]);
    assert_eq!(&bmp[54..62], &[9, 10, 11, 12, 13, 14, 15, 16]);
    assert_eq!(&bmp[62..70], &[1, 2, 3, 4, 5, 6, 7, 8]);
}

#[test]
fn utf16_text() {
    assert_eq!(to_utf16("Aя"), vec![0x41, 0x44F]);
    assert_eq!(to_utf16("🎧"), "🎧".encode_utf16().collect::<Vec<u16>>());
    assert_eq!(to_utf16(""), Vec::<u16>::new());
}

#[test]
fn message_classes() {
    assert_eq!(classify_message(0x0100, 0x1B), MessageClass::Escape);
    assert_eq!(classify_message(0x0100, 0x41), MessageClass::Other);
    assert_eq!(classify_message(0x0200, 0), MessageClass::MouseMove);
    for m in [0x0201u32, 0x0202, 0x0204, 0x0205, 0x0207, 0x0208, 0x020A, 0x8001] {
        assert_eq!(classify_message(m, 0), MessageClass::Click);
    }
    assert_eq!(classify_message(0x000F, 0), MessageClass::Other);
    assert!(is_button_down(0x0201) && is_button_down(0x0204) && is_button_down(0x0207));
    assert!(!is_button_down(0x0202) && !is_button_down(0x0200));
}
