use bt_battery_tray::battery::DeviceBattery;
use bt_battery_tray::menu::{Language, MenuAction, Theme};
use bt_battery_tray::tray::{
    action_effects, autostart_command, log_needs_reset, build_tooltip, compute_shown, launch_mode, parse_u8, plan_refresh,
    poll_due, to_wide, tray_callback_opens_menu, LaunchMode, LOW_BATTERY, POLL_PERIOD_MS, TOOLTIP_UNITS,
};

fn dev(address: &str, name: &str, level: u8) -> DeviceBattery {
    DeviceBattery { address: address.to_string(), name: name.to_string(), level }
}

fn args(list: &[&str]) -> Vec<String> {
    list.iter().map(|s| s.to_string()).collect()
}

fn chars(s: &str) -> Vec<char> {
    s.chars().collect()
}

#[test]
fn wide_buffers() {
    let w = to_wide("Hi", 5);
    assert_eq!(w, vec![0x48, 0x69, 0, 0, 0]);
    let w = to_wide("Привет", 3);
    assert_eq!(w, vec![0x41F, 0x440, 0x438]);
    assert_eq!(to_wide("", 2), vec![0, 0]);
    assert_eq!(to_wide("🎧", 4), vec![0xD83C, 0xDFA7, 0, 0]);
}

#[test]
fn shown_level() {
    let none: Vec<DeviceBattery> = Vec::new();
    assert_eq!(compute_shown(&none, ""), None);
    assert_eq!(compute_shown(&none, "AABBCCDDEEFF"), None);
    let devices = vec![dev("AABBCCDDEEFF", "Mouse", 80), dev("112233445566", "Pad", 35)];
    assert_eq!(compute_shown(&devices, ""), Some(35));
    assert_eq!(compute_shown(&devices, "aabbccddeeff"), Some(80));
    assert_eq!(compute_shown(&devices, "000000000000"), Some(35));
}

#[test]
fn tooltip_order_and_text() {
    let devices = vec![dev("1", "zeta", 10), dev("2", "Alpha", 20), dev("3", "beta", 30)];
    assert_eq!(build_tooltip(&devices, "", Language::English), "Alpha: 20%\nbeta: 30%\nzeta: 10%");
    assert_eq!(build_tooltip(&devices, "3", Language::English), "beta: 30%\nAlpha: 20%\nzeta: 10%");
    let none: Vec<DeviceBattery> = Vec::new();
    assert_eq!(build_tooltip(&none, "", Language::English), "No connected devices with battery level");
    assert_eq!(build_tooltip(&none, "", Language::Russian), "Подключённых устройств с зарядом нет");
    let unnamed = vec![dev("1", "Bluetooth-устройство", 50)];
    assert_eq!(build_tooltip(&unnamed, "", Language::English), "Bluetooth device: 50%");
}

#[test]
fn tooltip_is_kept_whole_up_to_127_units() {
    // three devices, 93 units: every device is listed
    let devices = vec![
        dev("1", "Наушники Sony WH-1000XM4", 80),
        dev("2", "Клавиатура Logitech MX Keys", 60),
        dev("3", "Мышь Logitech MX Master 3", 40),
    ];
    let t = build_tooltip(&devices, "", Language::Russian);
    let full = "Клавиатура Logitech MX Keys: 60%\nМышь Logitech MX Master 3: 40%\nНаушники Sony WH-1000XM4: 80%";
    assert_eq!(t, full);
    assert!(t.encode_utf16().count() > 63 && t.encode_utf16().count() <= 127);

    // exactly 127 units stays as it is
    let name: String = std::iter::repeat('x').take(TOOLTIP_UNITS - 6).collect();
    let devices = vec![dev("1", &name, 100)];
    let t = build_tooltip(&devices, "", Language::English);
    assert_eq!(t.encode_utf16().count(), 127);
    assert!(!t.ends_with('…'));
}

#[test]
fn tooltip_is_cut_beyond_127_units() {
    // one unit more: the longest prefix of at most 126 units and '…'
    let name: String = std::iter::repeat('x').take(TOOLTIP_UNITS - 5).collect();
    let devices = vec![dev("1", &name, 100)];
    let t = build_tooltip(&devices, "", Language::English);
    let full = format!("{}: 100%", name);
    let prefix: String = full.chars().take(126).collect();
    assert_eq!(t, format!("{}…", prefix));
    assert_eq!(t.encode_utf16().count(), 127);

    // a surrogate pair that would straddle the cut is left out whole
    let name = format!("{}🎧🎧", "y".repeat(125));
    let devices = vec![dev("1", &name, 1)];
    let t = build_tooltip(&devices, "", Language::English);
    assert_eq!(t, format!("{}…", "y".repeat(125)));
}

#[test]
fn refresh_plan_warns_once() {
    let devices = vec![dev("AABBCCDDEEFF", "Mouse", 15), dev("112233445566", "Pad", 50)];
    let plan = plan_refresh(&devices, "", &Vec::new(), Language::English);
    assert_eq!(plan.shown, Some(15));
    assert_eq!(plan.tooltip, "Mouse: 15%\nPad: 50%");
    assert_eq!(plan.target_name, None);
    assert_eq!(plan.alert, Some(("Mouse".to_string(), 15)));
    assert_eq!(
        plan.levels,
        vec![("AABBCCDDEEFF".to_string(), 15), ("112233445566".to_string(), 50)]
    );
    // the same devices again: no second warning
    let again = plan_refresh(&devices, "", &plan.levels, Language::English);
    assert_eq!(again.alert, None);
    // the level was fine before and fell below the threshold: warn
    let before = vec![("AABBCCDDEEFF".to_string(), LOW_BATTERY)];
    let plan = plan_refresh(&devices, "", &before, Language::English);
    assert_eq!(plan.alert, Some(("Mouse".to_string(), 15)));
}

#[test]
fn refresh_plan_with_target() {
    let devices = vec![dev("AABBCCDDEEFF", "Mouse", 15), dev("112233445566", "Pad", 10)];
    let plan = plan_refresh(&devices, "aabbccddeeff", &Vec::new(), Language::English);
    assert_eq!(plan.shown, Some(15));
    assert_eq!(plan.target_name, Some("Mouse".to_string()));
    assert_eq!(plan.alert, Some(("Mouse".to_string(), 15)));
    // only the target warns
    let plan = plan_refresh(&devices, "112233445566", &Vec::new(), Language::English);
    assert_eq!(plan.alert, Some(("Pad".to_string(), 10)));
    // a target that is not connected: lowest level, no warning, no name
    let plan = plan_refresh(&devices, "000000000000", &Vec::new(), Language::English);
    assert_eq!(plan.shown, Some(10));
    assert_eq!(plan.target_name, None);
    assert_eq!(plan.alert, None);
    // without a target the last low device of the list warns
    let plan = plan_refresh(&devices, "", &Vec::new(), Language::English);
    assert_eq!(plan.alert, Some(("Pad".to_string(), 10)));
}

#[test]
fn byte_parsing() {
    assert_eq!(parse_u8(&chars("15")), Some(15));
    assert_eq!(parse_u8(&chars("+7")), Some(7));
    assert_eq!(parse_u8(&chars("0255")), Some(255));
    assert_eq!(parse_u8(&chars("256")), None);
    assert_eq!(parse_u8(&chars("")), None);
    assert_eq!(parse_u8(&chars("+")), None);
    assert_eq!(parse_u8(&chars("-1")), None);
    assert_eq!(parse_u8(&chars("1a")), None);
    assert_eq!(parse_u8(&chars(" 1")), None);
    for n in 0..=300u32 {
        let s = n.to_string();
        assert_eq!(parse_u8(&chars(&s)), s.parse::<u8>().ok());
    }
}

#[test]
fn command_line_modes() {
    assert_eq!(launch_mode(&args(&["app.exe"])), LaunchMode::Run(None));
    assert_eq!(launch_mode(&args(&["app.exe", "--rendertest"])), LaunchMode::RenderTest);
    assert_eq!(launch_mode(&args(&["app.exe", "--conntest", "--rendertest"])), LaunchMode::RenderTest);
    assert_eq!(launch_mode(&args(&["app.exe", "--conntest"])), LaunchMode::ConnTest);
    assert_eq!(launch_mode(&args(&["app.exe", "--balloontest"])), LaunchMode::Run(Some(15)));
    assert_eq!(launch_mode(&args(&["app.exe", "--balloontest=7"])), LaunchMode::Run(Some(7)));
    assert_eq!(launch_mode(&args(&["app.exe", "--balloontest=x"])), LaunchMode::Run(Some(15)));
    assert_eq!(launch_mode(&args(&["app.exe", "--balloontest5"])), LaunchMode::Run(Some(15)));
    assert_eq!(
        launch_mode(&args(&["app.exe", "--balloontest=3", "--balloontest=9"])),
        LaunchMode::Run(Some(3))
    );
    assert_eq!(launch_mode(&args(&["app.exe", "--rendertest=1"])), LaunchMode::Run(None));
}

#[test]
fn polling_schedule() {
    assert!(poll_due(true, 0));
    assert!(!poll_due(false, POLL_PERIOD_MS - 1));
    assert!(poll_due(false, POLL_PERIOD_MS));
    assert!(poll_due(false, u64::MAX));
}

#[test]
fn tray_callback_codes() {
    assert!(tray_callback_opens_menu(0x0202));
    assert!(tray_callback_opens_menu(0x0205));
    assert!(tray_callback_opens_menu(0x007B));
    assert!(tray_callback_opens_menu(0x0001_0202));
    assert!(!tray_callback_opens_menu(0x0200));
    assert!(!tray_callback_opens_menu(0x0201));
    assert!(!tray_callback_opens_menu(0x0404));
}

#[test]
fn menu_action_effects() {
    let e = action_effects(&MenuAction::Exit);
    assert!(e.quit && !e.refresh && e.target.is_none() && !e.toggle_autostart);
    let e = action_effects(&MenuAction::Refresh);
    assert!(!e.quit && e.refresh && e.target.is_none());
    let e = action_effects(&MenuAction::SetTarget("AABBCCDDEEFF".to_string()));
    assert!(e.refresh);
    assert_eq!(e.target.as_deref(), Some("AABBCCDDEEFF"));
    let e = action_effects(&MenuAction::SetTarget(String::new()));
    assert_eq!(e.target.as_deref(), Some(""));
    let e = action_effects(&MenuAction::ToggleAutostart);
    assert!(e.toggle_autostart && !e.refresh);
    let e = action_effects(&MenuAction::SetLanguage(Language::Ukrainian));
    assert_eq!(e.language, Some(Language::Ukrainian));
    assert!(!e.refresh && e.theme.is_none());
    let e = action_effects(&MenuAction::SetTheme(Theme::Light));
    assert_eq!(e.theme, Some(Theme::Light));
    let e = action_effects(&MenuAction::NoAction);
    assert!(!e.quit && !e.refresh && e.target.is_none() && !e.toggle_autostart);
    assert!(e.language.is_none() && e.theme.is_none());
}

#[test]
fn autostart_entry() {
    assert_eq!(autostart_command("C:\\Tools\\BtBatteryTray.exe"), "\"C:\\Tools\\BtBatteryTray.exe\"");
    assert_eq!(autostart_command(""), "\"\"");
}

#[test]
fn lowest_level_law_on_values() {
    let devices = vec![dev("1", "a", 40), dev("2", "b", 7), dev("3", "c", 7), dev("4", "d", 99)];
    assert_eq!(compute_shown(&devices, ""), Some(7));
    assert!(devices.iter().all(|d| d.level >= 7));
}

#[test]
fn log_size_cap() {
    assert!(!log_needs_reset(0));
    assert!(!log_needs_reset(200_000));
    assert!(log_needs_reset(200_001));
}
