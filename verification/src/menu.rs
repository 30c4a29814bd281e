//! The popup menu: settings values, interface texts in three languages, the
//! menu items, their layout and hit testing, the state of a popup window and
//! the decisions of the menu loop, the anti-aliased submenu arrow and the BMP
//! snapshot of a rendered menu.
use vstd::prelude::*;
use vstd::string::StringExecFns;

use crate::battery::DeviceBattery;
use crate::battery::DeviceView;
use crate::text;

verus! {

// ---------- settings ----------

/// Interface language.
#[derive(Debug, Clone, Copy, PartialEq, Eq, Structural)]
pub enum Language {
    English,
    Russian,
    Ukrainian,
}

/// Menu colour theme.
#[derive(Debug, Clone, Copy, PartialEq, Eq, Structural)]
pub enum Theme {
    Dark,
    Light,
}

/// Value stored in the registry for a language.
pub open spec fn language_value(language: Language) -> Seq<char> {
    match language {
        Language::English => "en"@,
        Language::Russian => "ru"@,
        Language::Ukrainian => "uk"@,
    }
}

/// Language of a registry value: `"ru"`, `"uk"`, anything else English.
pub open spec fn language_of(value: Seq<char>) -> Language {
    if value == "ru"@ {
        Language::Russian
    } else if value == "uk"@ {
        Language::Ukrainian
    } else {
        Language::English
    }
}

/// Value stored in the registry for a theme.
pub open spec fn theme_value(theme: Theme) -> Seq<char> {
    match theme {
        Theme::Dark => "dark"@,
        Theme::Light => "light"@,
    }
}

/// Theme of a registry value: `"light"`, anything else dark.
pub open spec fn theme_of(value: Seq<char>) -> Theme {
    if value == "light"@ {
        Theme::Light
    } else {
        Theme::Dark
    }
}

impl Language {
    pub fn from_registry(value: &str) -> (r: Self)
        ensures
            r == language_of(value@),
    {
        if text::str_equal(value, "ru") {
            Self::Russian
        } else if text::str_equal(value, "uk") {
            Self::Ukrainian
        } else {
            Self::English
        }
    }

    pub fn registry_value(self) -> (r: &'static str)
        ensures
            r@ == language_value(self),
    {
        match self {
            Self::English => "en",
            Self::Russian => "ru",
            Self::Ukrainian => "uk",
        }
    }
}

impl Theme {
    pub fn from_registry(value: &str) -> (r: Self)
        ensures
            r == theme_of(value@),
    {
        if text::str_equal(value, "light") {
            Self::Light
        } else {
            Self::Dark
        }
    }

    pub fn registry_value(self) -> (r: &'static str)
        ensures
            r@ == theme_value(self),
    {
        match self {
            Self::Dark => "dark",
            Self::Light => "light",
        }
    }
}

/// A language stored in the registry is read back as itself.
pub proof fn lemma_language_round_trip(language: Language)
    ensures
        language_of(language_value(language)) == language,
{
    reveal_strlit("en");
    reveal_strlit("ru");
    reveal_strlit("uk");
    assert("en"@[0] != "ru"@[0] && "en"@[0] != "uk"@[0] && "ru"@[0] != "uk"@[0]);
}

/// A theme stored in the registry is read back as itself.
pub proof fn lemma_theme_round_trip(theme: Theme)
    ensures
        theme_of(theme_value(theme)) == theme,
{
    reveal_strlit("dark");
    reveal_strlit("light");
    assert("dark"@[0] != "light"@[0]);
}

// ---------- menu actions ----------

/// What a click in the menu asks for.
#[derive(Debug, Clone, PartialEq)]
pub enum MenuAction {
    NoAction,
    Refresh,
    /// Address of the device, or `""` for automatic choice.
    SetTarget(String),
    SetLanguage(Language),
    SetTheme(Theme),
    ToggleAutostart,
    Exit,
}

/// A menu action in contracts.
pub enum ActionView {
    NoAction,
    Refresh,
    SetTarget(Seq<char>),
    SetLanguage(Language),
    SetTheme(Theme),
    ToggleAutostart,
    Exit,
}

impl View for MenuAction {
    type V = ActionView;

    open spec fn view(&self) -> ActionView {
        match self {
            MenuAction::NoAction => ActionView::NoAction,
            MenuAction::Refresh => ActionView::Refresh,
            MenuAction::SetTarget(s) => ActionView::SetTarget(s@),
            MenuAction::SetLanguage(l) => ActionView::SetLanguage(*l),
            MenuAction::SetTheme(t) => ActionView::SetTheme(*t),
            MenuAction::ToggleAutostart => ActionView::ToggleAutostart,
            MenuAction::Exit => ActionView::Exit,
        }
    }
}

impl MenuAction {
    /// A copy of the action.
    pub fn duplicate(&self) -> (r: MenuAction)
        ensures
            r@ == self@,
    {
        match self {
            MenuAction::NoAction => MenuAction::NoAction,
            MenuAction::Refresh => MenuAction::Refresh,
            MenuAction::SetTarget(s) => MenuAction::SetTarget(s.clone()),
            MenuAction::SetLanguage(l) => MenuAction::SetLanguage(*l),
            MenuAction::SetTheme(t) => MenuAction::SetTheme(*t),
            MenuAction::ToggleAutostart => MenuAction::ToggleAutostart,
            MenuAction::Exit => MenuAction::Exit,
        }
    }

    /// The action is `None` (nothing chosen).
    pub fn is_none(&self) -> (r: bool)
        ensures
            r == (self@ is NoAction),
    {
        match self {
            MenuAction::NoAction => true,
            _ => false,
        }
    }
}

// ---------- texts ----------

/// The texts of the menu.
#[derive(Debug, Clone, Copy, PartialEq, Eq, Structural)]
pub enum TextKey {
    Updated,
    NoDevices,
    Target,
    Auto,
    NotConnected,
    Refresh,
    Autostart,
    Language,
    Theme,
    English,
    Russian,
    Ukrainian,
    Dark,
    Light,
    Exit,
}

/// The text of `key` in `language`.
pub open spec fn spec_text(language: Language, key: TextKey) -> Seq<char> {
    match (language, key) {
        (Language::English, TextKey::Updated) => "Updated"@,
        (Language::Russian, TextKey::Updated) => "Обновлено"@,
        (Language::Ukrainian, TextKey::Updated) => "Оновлено"@,
        (Language::English, TextKey::NoDevices) => "No connected devices"@,
        (Language::Russian, TextKey::NoDevices) => "Подключённых устройств нет"@,
        (Language::Ukrainian, TextKey::NoDevices) => "Підключених пристроїв немає"@,
        (Language::English, TextKey::Target) => "Target"@,
        (Language::Russian, TextKey::Target) => "Цель"@,
        (Language::Ukrainian, TextKey::Target) => "Ціль"@,
        (Language::English, TextKey::Auto) => "Auto (lowest battery)"@,
        (Language::Russian, TextKey::Auto) => "Авто (самое разряженное)"@,
        (Language::Ukrainian, TextKey::Auto) => "Авто (найменший заряд)"@,
        (Language::English, TextKey::NotConnected) => "not connected"@,
        (Language::Russian, TextKey::NotConnected) => "не подключено"@,
        (Language::Ukrainian, TextKey::NotConnected) => "не підключено"@,
        (Language::English, TextKey::Refresh) => "Refresh now"@,
        (Language::Russian, TextKey::Refresh) => "Обновить сейчас"@,
        (Language::Ukrainian, TextKey::Refresh) => "Оновити зараз"@,
        (Language::English, TextKey::Autostart) => "Start with Windows"@,
        (Language::Russian, TextKey::Autostart) => "Автозапуск"@,
        (Language::Ukrainian, TextKey::Autostart) => "Автозапуск"@,
        (Language::English, TextKey::Language) => "Language"@,
        (Language::Russian, TextKey::Language) => "Язык"@,
        (Language::Ukrainian, TextKey::Language) => "Мова"@,
        (Language::English, TextKey::Theme) => "Theme"@,
        (Language::Russian, TextKey::Theme) => "Тема"@,
        (Language::Ukrainian, TextKey::Theme) => "Тема"@,
        (Language::English, TextKey::English) => "English"@,
        (Language::Russian, TextKey::English) => "Английский"@,
        (Language::Ukrainian, TextKey::English) => "Англійська"@,
        (Language::English, TextKey::Russian) => "Russian"@,
        (Language::Russian, TextKey::Russian) => "Русский"@,
        (Language::Ukrainian, TextKey::Russian) => "Російська"@,
        (Language::English, TextKey::Ukrainian) => "Ukrainian"@,
        (Language::Russian, TextKey::Ukrainian) => "Украинский"@,
        (Language::Ukrainian, TextKey::Ukrainian) => "Українська"@,
        (Language::English, TextKey::Dark) => "Dark"@,
        (Language::Russian, TextKey::Dark) => "Тёмная"@,
        (Language::Ukrainian, TextKey::Dark) => "Темна"@,
        (Language::English, TextKey::Light) => "Light"@,
        (Language::Russian, TextKey::Light) => "Светлая"@,
        (Language::Ukrainian, TextKey::Light) => "Світла"@,
        (Language::English, TextKey::Exit) => "Exit"@,
        (Language::Russian, TextKey::Exit) => "Выход"@,
        (Language::Ukrainian, TextKey::Exit) => "Вихід"@,
    }
}

/// The text of `key` in `language`.
pub fn text(language: Language, key: TextKey) -> (r: &'static str)
    ensures
        r@ == spec_text(language, key),
{
    match (language, key) {
        (Language::English, TextKey::Updated) => "Updated",
        (Language::Russian, TextKey::Updated) => "Обновлено",
        (Language::Ukrainian, TextKey::Updated) => "Оновлено",
        (Language::English, TextKey::NoDevices) => "No connected devices",
        (Language::Russian, TextKey::NoDevices) => "Подключённых устройств нет",
        (Language::Ukrainian, TextKey::NoDevices) => "Підключених пристроїв немає",
        (Language::English, TextKey::Target) => "Target",
        (Language::Russian, TextKey::Target) => "Цель",
        (Language::Ukrainian, TextKey::Target) => "Ціль",
        (Language::English, TextKey::Auto) => "Auto (lowest battery)",
        (Language::Russian, TextKey::Auto) => "Авто (самое разряженное)",
        (Language::Ukrainian, TextKey::Auto) => "Авто (найменший заряд)",
        (Language::English, TextKey::NotConnected) => "not connected",
        (Language::Russian, TextKey::NotConnected) => "не подключено",
        (Language::Ukrainian, TextKey::NotConnected) => "не підключено",
        (Language::English, TextKey::Refresh) => "Refresh now",
        (Language::Russian, TextKey::Refresh) => "Обновить сейчас",
        (Language::Ukrainian, TextKey::Refresh) => "Оновити зараз",
        (Language::English, TextKey::Autostart) => "Start with Windows",
        (Language::Russian, TextKey::Autostart) => "Автозапуск",
        (Language::Ukrainian, TextKey::Autostart) => "Автозапуск",
        (Language::English, TextKey::Language) => "Language",
        (Language::Russian, TextKey::Language) => "Язык",
        (Language::Ukrainian, TextKey::Language) => "Мова",
        (Language::English, TextKey::Theme) => "Theme",
        (Language::Russian, TextKey::Theme) => "Тема",
        (Language::Ukrainian, TextKey::Theme) => "Тема",
        (Language::English, TextKey::English) => "English",
        (Language::Russian, TextKey::English) => "Английский",
        (Language::Ukrainian, TextKey::English) => "Англійська",
        (Language::English, TextKey::Russian) => "Russian",
        (Language::Russian, TextKey::Russian) => "Русский",
        (Language::Ukrainian, TextKey::Russian) => "Російська",
        (Language::English, TextKey::Ukrainian) => "Ukrainian",
        (Language::Russian, TextKey::Ukrainian) => "Украинский",
        (Language::Ukrainian, TextKey::Ukrainian) => "Українська",
        (Language::English, TextKey::Dark) => "Dark",
        (Language::Russian, TextKey::Dark) => "Тёмная",
        (Language::Ukrainian, TextKey::Dark) => "Темна",
        (Language::English, TextKey::Light) => "Light",
        (Language::Russian, TextKey::Light) => "Светлая",
        (Language::Ukrainian, TextKey::Light) => "Світла",
        (Language::English, TextKey::Exit) => "Exit",
        (Language::Russian, TextKey::Exit) => "Выход",
        (Language::Ukrainian, TextKey::Exit) => "Вихід",
    }
}

/// Name shown for a device that reports no name, in `language`.
pub open spec fn spec_fallback_name(language: Language) -> Seq<char> {
    match language {
        Language::English => "Bluetooth device"@,
        Language::Russian => "Bluetooth-устройство"@,
        Language::Ukrainian => "Bluetooth-пристрій"@,
    }
}

fn fallback_device_name(language: Language) -> (r: &'static str)
    ensures
        r@ == spec_fallback_name(language),
{
    match language {
        Language::English => "Bluetooth device",
        Language::Russian => "Bluetooth-устройство",
        Language::Ukrainian => "Bluetooth-пристрій",
    }
}

/// A device name as shown: any of the fallback names becomes the fallback name
/// of `language`; other names are shown as they are.
pub open spec fn spec_device_name(language: Language, name: Seq<char>) -> Seq<char> {
    if name == "Bluetooth device"@ || name == "Bluetooth-устройство"@ || name == "Bluetooth-пристрій"@ {
        spec_fallback_name(language)
    } else {
        name
    }
}

fn device_name<'a>(language: Language, name: &'a str) -> (r: &'a str)
    ensures
        r@ == spec_device_name(language, name@),
{
    if text::str_equal(name, "Bluetooth device") || text::str_equal(name, "Bluetooth-устройство")
        || text::str_equal(name, "Bluetooth-пристрій") {
        fallback_device_name(language)
    } else {
        name
    }
}

/// A device name as shown in `language` (see `spec_device_name`).
pub fn localized_device_name<'a>(language: Language, name: &'a str) -> (r: &'a str)
    ensures
        r@ == spec_device_name(language, name@),
{
    device_name(language, name)
}

pub open spec fn spec_tray_tooltip(language: Language) -> Seq<char> {
    match language {
        Language::English => "Bluetooth device battery"@,
        Language::Russian => "Заряд Bluetooth-устройств"@,
        Language::Ukrainian => "Заряд Bluetooth-пристроїв"@,
    }
}

/// Tooltip of the tray icon before the first refresh.
pub fn tray_tooltip(language: Language) -> (r: &'static str)
    ensures
        r@ == spec_tray_tooltip(language),
{
    match language {
        Language::English => "Bluetooth device battery",
        Language::Russian => "Заряд Bluetooth-устройств",
        Language::Ukrainian => "Заряд Bluetooth-пристроїв",
    }
}

pub open spec fn spec_tooltip_empty(language: Language) -> Seq<char> {
    match language {
        Language::English => "No connected devices with battery level"@,
        Language::Russian => "Подключённых устройств с зарядом нет"@,
        Language::Ukrainian => "Підключених пристроїв із зарядом немає"@,
    }
}

/// Tooltip when no connected device reports a level.
pub fn tooltip_empty(language: Language) -> (r: &'static str)
    ensures
        r@ == spec_tooltip_empty(language),
{
    match language {
        Language::English => "No connected devices with battery level",
        Language::Russian => "Подключённых устройств с зарядом нет",
        Language::Ukrainian => "Підключених пристроїв із зарядом немає",
    }
}

pub open spec fn spec_low_battery_title(language: Language) -> Seq<char> {
    match language {
        Language::English => "Low battery"@,
        Language::Russian => "Низкий заряд"@,
        Language::Ukrainian => "Низький заряд"@,
    }
}

/// Title of the low-battery notification.
pub fn low_battery_title(language: Language) -> (r: &'static str)
    ensures
        r@ == spec_low_battery_title(language),
{
    match language {
        Language::English => "Low battery",
        Language::Russian => "Низкий заряд",
        Language::Ukrainian => "Низький заряд",
    }
}

pub open spec fn spec_charge_hint(language: Language) -> Seq<char> {
    match language {
        Language::English => "time to charge"@,
        Language::Russian => "пора зарядить"@,
        Language::Ukrainian => "час зарядити"@,
    }
}

/// `"{name}: {level}% — {hint}."` with the name as shown in `language`.
pub open spec fn spec_low_battery_message(language: Language, name: Seq<char>, level: u8) -> Seq<char> {
    spec_device_name(language, name) + ": "@ + text::decimal(level as nat) + "% — "@ + spec_charge_hint(language)
        + "."@
}

/// Text of the low-battery notification.
pub fn low_battery_message(language: Language, name: &str, level: u8) -> (r: String)
    ensures
        r@ == spec_low_battery_message(language, name@, level),
{
    let hint = match language {
        Language::English => "time to charge",
        Language::Russian => "пора зарядить",
        Language::Ukrainian => "час зарядити",
    };
    let mut out = text::chars_of(device_name(language, name));
    text::push_str(&mut out, ": ");
    text::push_chars(&mut out, &text::decimal_u8(level));
    text::push_str(&mut out, "% — ");
    text::push_str(&mut out, hint);
    text::push_str(&mut out, ".");
    text::string_from_chars(&out)
}

// ---------- palette ----------

/// Menu colours as `COLORREF` values (0x00BBGGRR).
#[derive(Debug, Clone, Copy, PartialEq, Eq, Structural)]
pub struct Palette {
    pub bg: u32,
    pub hover: u32,
    pub border: u32,
    pub text: u32,
    pub disabled: u32,
}

pub open spec fn spec_palette(theme: Theme) -> Palette {
    match theme {
        Theme::Dark => Palette {
            bg: 0x00202020,
            hover: 0x00333333,
            border: 0x00454545,
            text: 0x00E8E8E8,
            disabled: 0x008C8C8C,
        },
        Theme::Light => Palette {
            bg: 0x00FFFFFF,
            hover: 0x00E8E8E8,
            border: 0x00B8B8B8,
            text: 0x00181818,
            disabled: 0x00707070,
        },
    }
}

/// Colours of a theme.
pub fn palette(theme: Theme) -> (r: Palette)
    ensures
        r == spec_palette(theme),
{
    match theme {
        Theme::Dark => Palette {
            bg: 0x00202020,
            hover: 0x00333333,
            border: 0x00454545,
            text: 0x00E8E8E8,
            disabled: 0x008C8C8C,
        },
        Theme::Light => Palette {
            bg: 0x00FFFFFF,
            hover: 0x00E8E8E8,
            border: 0x00B8B8B8,
            text: 0x00181818,
            disabled: 0x00707070,
        },
    }
}

} // verus!

verus! {

// ---------- menu items ----------

/// The submenus of the main menu.
#[derive(Debug, Clone, Copy, PartialEq, Eq, Structural)]
pub enum SubmenuKind {
    Target,
    Language,
    Theme,
}

/// How an item looks and behaves.
#[derive(Debug, Clone, Copy, PartialEq, Eq, Structural)]
pub enum ItemKind {
    /// Information, drawn disabled.
    Info,
    /// A line.
    Separator,
    /// A radio button; `true` when checked.
    Radio(bool),
    /// A check box; `true` when checked.
    Check(bool),
    /// A plain command.
    Action,
    /// Opens a submenu.
    Submenu,
}

/// One item of a popup menu.
#[derive(Debug, Clone)]
pub struct MenuItem {
    pub text: String,
    pub kind: ItemKind,
    pub action: MenuAction,
    pub submenu: Option<SubmenuKind>,
}

/// A menu item in contracts.
pub struct ItemView {
    pub text: Seq<char>,
    pub kind: ItemKind,
    pub action: ActionView,
    pub submenu: Option<SubmenuKind>,
}

impl View for MenuItem {
    type V = ItemView;

    open spec fn view(&self) -> ItemView {
        ItemView { text: self.text@, kind: self.kind, action: self.action@, submenu: self.submenu }
    }
}

pub open spec fn items_view(items: Seq<MenuItem>) -> Seq<ItemView> {
    items.map_values(|it: MenuItem| it@)
}

pub open spec fn info_item(t: Seq<char>) -> ItemView {
    ItemView { text: t, kind: ItemKind::Info, action: ActionView::NoAction, submenu: None }
}

pub open spec fn separator_item() -> ItemView {
    ItemView { text: Seq::empty(), kind: ItemKind::Separator, action: ActionView::NoAction, submenu: None }
}

pub open spec fn radio_item(t: Seq<char>, checked: bool, action: ActionView) -> ItemView {
    ItemView { text: t, kind: ItemKind::Radio(checked), action: action, submenu: None }
}

pub open spec fn check_item(t: Seq<char>, checked: bool, action: ActionView) -> ItemView {
    ItemView { text: t, kind: ItemKind::Check(checked), action: action, submenu: None }
}

pub open spec fn action_item(t: Seq<char>, action: ActionView) -> ItemView {
    ItemView { text: t, kind: ItemKind::Action, action: action, submenu: None }
}

pub open spec fn submenu_item(t: Seq<char>, submenu: SubmenuKind) -> ItemView {
    ItemView { text: t, kind: ItemKind::Submenu, action: ActionView::NoAction, submenu: Some(submenu) }
}

impl MenuItem {
    pub fn info(text: String) -> (r: Self)
        ensures
            r@ == info_item(text@),
    {
        Self { text, kind: ItemKind::Info, action: MenuAction::NoAction, submenu: None }
    }

    pub fn separator() -> (r: Self)
        ensures
            r@ == separator_item(),
    {
        Self { text: String::new(), kind: ItemKind::Separator, action: MenuAction::NoAction, submenu: None }
    }

    pub fn radio(text: String, checked: bool, action: MenuAction) -> (r: Self)
        ensures
            r@ == radio_item(text@, checked, action@),
    {
        Self { text, kind: ItemKind::Radio(checked), action, submenu: None }
    }

    pub fn check(text: String, checked: bool, action: MenuAction) -> (r: Self)
        ensures
            r@ == check_item(text@, checked, action@),
    {
        Self { text, kind: ItemKind::Check(checked), action, submenu: None }
    }

    pub fn action_item(text: String, action: MenuAction) -> (r: Self)
        ensures
            r@ == action_item(text@, action@),
    {
        Self { text, kind: ItemKind::Action, action, submenu: None }
    }

    pub fn submenu(text: String, submenu: SubmenuKind) -> (r: Self)
        ensures
            r@ == submenu_item(text@, submenu),
    {
        Self { text, kind: ItemKind::Submenu, action: MenuAction::NoAction, submenu: Some(submenu) }
    }
}

/// `"● "` before the device that the icon follows.
pub open spec fn target_mark(d: DeviceView, target: Seq<char>) -> Seq<char> {
    if d.address.len() > 0 && text::eq_ignore_case(d.address, target) {
        "● "@
    } else {
        Seq::empty()
    }
}

/// `"{mark}{name}: {level}%"`.
pub open spec fn device_line(language: Language, d: DeviceView, target: Seq<char>) -> Seq<char> {
    target_mark(d, target) + spec_device_name(language, d.name) + ": "@ + text::decimal(d.level as nat) + "%"@
}

/// Position of the first device, at `i` or later, whose address equals the
/// target ignoring ASCII case.
pub open spec fn first_target_match(devices: Seq<DeviceView>, target: Seq<char>, i: int) -> Option<int>
    decreases devices.len() - i,
{
    if i < 0 || i >= devices.len() {
        None
    } else if text::eq_ignore_case(devices[i].address, target) {
        Some(i)
    } else {
        first_target_match(devices, target, i + 1)
    }
}

/// `"{Target}: ..."`: automatic choice, the connected target device, the
/// remembered name of a disconnected target, or "not connected".
pub open spec fn target_label(
    devices: Seq<DeviceView>,
    target: Seq<char>,
    target_name: Seq<char>,
    language: Language,
) -> Seq<char> {
    spec_text(language, TextKey::Target) + ": "@ + if target.len() == 0 {
        spec_text(language, TextKey::Auto)
    } else {
        match first_target_match(devices, target, 0) {
            Some(i) => spec_device_name(language, devices[i].name),
            None => if target_name.len() > 0 {
                target_name
            } else {
                spec_text(language, TextKey::NotConnected)
            },
        }
    }
}

/// The items of the main menu.
pub open spec fn spec_build_items(
    devices: Seq<DeviceView>,
    target: Seq<char>,
    target_name: Seq<char>,
    autostart: bool,
    updated: Seq<char>,
    language: Language,
) -> Seq<ItemView> {
    seq![info_item(spec_text(language, TextKey::Updated) + ": "@ + updated)] + (if devices.len() == 0 {
        seq![info_item(spec_text(language, TextKey::NoDevices))]
    } else {
        devices.map_values(|d: DeviceView| info_item(device_line(language, d, target)))
    }) + seq![
        separator_item(),
        submenu_item(target_label(devices, target, target_name, language), SubmenuKind::Target),
        submenu_item(spec_text(language, TextKey::Language), SubmenuKind::Language),
        submenu_item(spec_text(language, TextKey::Theme), SubmenuKind::Theme),
        separator_item(),
        action_item(spec_text(language, TextKey::Refresh), ActionView::Refresh),
        check_item(spec_text(language, TextKey::Autostart), autostart, ActionView::ToggleAutostart),
        separator_item(),
        action_item(spec_text(language, TextKey::Exit), ActionView::Exit),
    ]
}

fn str_string(s: &str) -> (r: String)
    ensures
        r@ == s@,
{
    String::from_str(s)
}

/// `"{a}: {b}"`.
fn labelled(a: &str, b: &str) -> (r: String)
    ensures
        r@ == a@ + ": "@ + b@,
{
    let mut out = text::chars_of(a);
    text::push_str(&mut out, ": ");
    text::push_str(&mut out, b);
    text::string_from_chars(&out)
}

fn device_line_text(language: Language, d: &DeviceBattery, target: &str) -> (r: String)
    ensures
        r@ == device_line(language, d@, target@),
{
    let mut out: Vec<char> = Vec::new();
    if !d.address.as_str().is_empty() && text::str_eq_ignore_case(d.address.as_str(), target) {
        text::push_str(&mut out, "● ");
    }
    text::push_str(&mut out, device_name(language, d.name.as_str()));
    text::push_str(&mut out, ": ");
    text::push_chars(&mut out, &text::decimal_u8(d.level));
    text::push_str(&mut out, "%");
    proof {
        assert(out@ =~= device_line(language, d@, target@));
    }
    text::string_from_chars(&out)
}

proof fn lemma_first_target_found(devices: Seq<DeviceView>, target: Seq<char>, i: int, j: int)
    requires
        0 <= i <= j < devices.len(),
        forall|k: int| i <= k < j ==> !text::eq_ignore_case(#[trigger] devices[k].address, target),
        text::eq_ignore_case(devices[j].address, target),
    ensures
        first_target_match(devices, target, i) == Some(j),
    decreases j - i,
{
    if i < j {
        lemma_first_target_found(devices, target, i + 1, j);
    }
}

proof fn lemma_first_target_none(devices: Seq<DeviceView>, target: Seq<char>, i: int)
    requires
        0 <= i <= devices.len(),
        forall|k: int| i <= k < devices.len() ==> !text::eq_ignore_case(#[trigger] devices[k].address, target),
    ensures
        first_target_match(devices, target, i) is None,
    decreases devices.len() - i,
{
    if i < devices.len() {
        lemma_first_target_none(devices, target, i + 1);
    }
}

/// Position of the first device whose address equals `target` ignoring case.
pub(crate) fn find_target(devices: &Vec<DeviceBattery>, target: &str) -> (r: Option<usize>)
    ensures
        r matches Some(i) ==> i < devices.len() && first_target_match(crate::battery::views(devices@), target@, 0)
            == Some(i as int),
        r is None ==> first_target_match(crate::battery::views(devices@), target@, 0) is None,
{
    let ghost dv = crate::battery::views(devices@);
    let mut i: usize = 0;
    while i < devices.len()
        invariant
            dv == crate::battery::views(devices@),
            i <= devices.len(),
            forall|k: int| 0 <= k < i ==> !text::eq_ignore_case(#[trigger] dv[k].address, target@),
        decreases devices.len() - i,
    {
        if text::str_eq_ignore_case(devices[i].address.as_str(), target) {
            proof {
                assert(dv[i as int] == devices@[i as int]@);
                lemma_first_target_found(dv, target@, 0, i as int);
            }
            return Some(i);
        }
        proof {
            assert(dv[i as int] == devices@[i as int]@);
        }
        i = i + 1;
    }
    proof {
        lemma_first_target_none(dv, target@, 0);
    }
    None
}

/// The items of the main menu: update time, one line per device (the target
/// marked), the three submenus, refresh, autostart, exit.
pub fn build_items(
    devices: &Vec<DeviceBattery>,
    target: &str,
    target_name: &str,
    autostart: bool,
    updated: &str,
    language: Language,
) -> (r: Vec<MenuItem>)
    ensures
        items_view(r@) == spec_build_items(
            crate::battery::views(devices@),
            target@,
            target_name@,
            autostart,
            updated@,
            language,
        ),
{
    let ghost dv = crate::battery::views(devices@);
    let mut items: Vec<MenuItem> = Vec::new();
    items.push(MenuItem::info(labelled(text(language, TextKey::Updated), updated)));
    let ghost head = items_view(items@);
    if devices.len() == 0 {
        items.push(MenuItem::info(str_string(text(language, TextKey::NoDevices))));
        proof {
            assert(items_view(items@) =~= head + seq![info_item(spec_text(language, TextKey::NoDevices))]);
        }
    } else {
        let mut i: usize = 0;
        while i < devices.len()
            invariant
                dv == crate::battery::views(devices@),
                i <= devices.len(),
                items_view(items@) == head + dv.take(i as int).map_values(
                    |d: DeviceView| info_item(device_line(language, d, target@)),
                ),
                head.len() == 1,
            decreases devices.len() - i,
        {
            let line = device_line_text(language, &devices[i], target);
            let ghost before = items@;
            items.push(MenuItem::info(line));
            proof {
                assert(dv[i as int] == devices@[i as int]@);
                assert(dv.take(i + 1) == dv.take(i as int).push(dv[i as int]));
                assert(items_view(items@) =~= items_view(before).push(items@.last()@));
                assert(items_view(items@) =~= head + dv.take(i + 1).map_values(
                    |d: DeviceView| info_item(device_line(language, d, target@)),
                ));
            }
            i = i + 1;
        }
        proof {
            assert(dv.take(dv.len() as int) == dv);
        }
    }
    let ghost middle = items_view(items@);
    let target_label_text = if target.is_empty() {
        labelled(text(language, TextKey::Target), text(language, TextKey::Auto))
    } else {
        match find_target(devices, target) {
            Some(i) => {
                proof {
                    assert(dv[i as int] == devices@[i as int]@);
                }
                labelled(text(language, TextKey::Target), device_name(language, devices[i].name.as_str()))
            },
            None => if !target_name.is_empty() {
                labelled(text(language, TextKey::Target), target_name)
            } else {
                labelled(text(language, TextKey::Target), text(language, TextKey::NotConnected))
            },
        }
    };
    items.push(MenuItem::separator());
    items.push(MenuItem::submenu(target_label_text, SubmenuKind::Target));
    items.push(MenuItem::submenu(str_string(text(language, TextKey::Language)), SubmenuKind::Language));
    items.push(MenuItem::submenu(str_string(text(language, TextKey::Theme)), SubmenuKind::Theme));
    items.push(MenuItem::separator());
    items.push(MenuItem::action_item(str_string(text(language, TextKey::Refresh)), MenuAction::Refresh));
    items.push(MenuItem::check(str_string(text(language, TextKey::Autostart)), autostart, MenuAction::ToggleAutostart));
    items.push(MenuItem::separator());
    items.push(MenuItem::action_item(str_string(text(language, TextKey::Exit)), MenuAction::Exit));
    proof {
        assert(items_view(items@) =~= middle + seq![
            separator_item(),
            submenu_item(target_label(dv, target@, target_name@, language), SubmenuKind::Target),
            submenu_item(spec_text(language, TextKey::Language), SubmenuKind::Language),
            submenu_item(spec_text(language, TextKey::Theme), SubmenuKind::Theme),
            separator_item(),
            action_item(spec_text(language, TextKey::Refresh), ActionView::Refresh),
            check_item(spec_text(language, TextKey::Autostart), autostart, ActionView::ToggleAutostart),
            separator_item(),
            action_item(spec_text(language, TextKey::Exit), ActionView::Exit),
        ]);
    }
    items
}

} // verus!

verus! {

// ---------- submenus ----------

/// Target submenu: "Auto" (checked when no target) and one radio per device
/// (checked when its address equals the target ignoring ASCII case).
pub open spec fn spec_target_items(devices: Seq<DeviceView>, target: Seq<char>, language: Language) -> Seq<ItemView> {
    seq![radio_item(spec_text(language, TextKey::Auto), target.len() == 0, ActionView::SetTarget(Seq::empty()))]
        + devices.map_values(
        |d: DeviceView|
            radio_item(
                spec_device_name(language, d.name),
                text::eq_ignore_case(d.address, target),
                ActionView::SetTarget(d.address),
            ),
    )
}

pub fn build_target_items(devices: &Vec<DeviceBattery>, target: &str, language: Language) -> (r: Vec<MenuItem>)
    ensures
        items_view(r@) == spec_target_items(crate::battery::views(devices@), target@, language),
{
    let ghost dv = crate::battery::views(devices@);
    let mut items: Vec<MenuItem> = Vec::new();
    items.push(
        MenuItem::radio(
            str_string(text(language, TextKey::Auto)),
            target.is_empty(),
            MenuAction::SetTarget(String::new()),
        ),
    );
    let ghost head = items_view(items@);
    let mut i: usize = 0;
    while i < devices.len()
        invariant
            dv == crate::battery::views(devices@),
            i <= devices.len(),
            head.len() == 1,
            items_view(items@) == head + dv.take(i as int).map_values(
                |d: DeviceView|
                    radio_item(
                        spec_device_name(language, d.name),
                        text::eq_ignore_case(d.address, target@),
                        ActionView::SetTarget(d.address),
                    ),
            ),
        decreases devices.len() - i,
    {
        let d = &devices[i];
        let item = MenuItem::radio(
            str_string(device_name(language, d.name.as_str())),
            text::str_eq_ignore_case(d.address.as_str(), target),
            MenuAction::SetTarget(d.address.clone()),
        );
        let ghost before = items@;
        items.push(item);
        proof {
            assert(dv[i as int] == devices@[i as int]@);
            assert(dv.take(i + 1) == dv.take(i as int).push(dv[i as int]));
            assert(items_view(items@) =~= items_view(before).push(items@.last()@));
            assert(items_view(items@) =~= head + dv.take(i + 1).map_values(
                |d: DeviceView|
                    radio_item(
                        spec_device_name(language, d.name),
                        text::eq_ignore_case(d.address, target@),
                        ActionView::SetTarget(d.address),
                    ),
            ));
        }
        i = i + 1;
    }
    proof {
        assert(dv.take(dv.len() as int) == dv);
        assert(head =~= seq![radio_item(spec_text(language, TextKey::Auto), target@.len() == 0, ActionView::SetTarget(Seq::empty()))]);
    }
    items
}

/// Language submenu: English, Russian, Ukrainian; the current one checked.
pub open spec fn spec_language_items(language: Language) -> Seq<ItemView> {
    seq![
        radio_item(spec_text(language, TextKey::English), language == Language::English, ActionView::SetLanguage(Language::English)),
        radio_item(spec_text(language, TextKey::Russian), language == Language::Russian, ActionView::SetLanguage(Language::Russian)),
        radio_item(spec_text(language, TextKey::Ukrainian), language == Language::Ukrainian, ActionView::SetLanguage(Language::Ukrainian)),
    ]
}

pub fn build_language_items(language: Language) -> (r: Vec<MenuItem>)
    ensures
        items_view(r@) == spec_language_items(language),
{
    let r = vec![
        MenuItem::radio(str_string(text(language, TextKey::English)), language == Language::English, MenuAction::SetLanguage(Language::English)),
        MenuItem::radio(str_string(text(language, TextKey::Russian)), language == Language::Russian, MenuAction::SetLanguage(Language::Russian)),
        MenuItem::radio(str_string(text(language, TextKey::Ukrainian)), language == Language::Ukrainian, MenuAction::SetLanguage(Language::Ukrainian)),
    ];
    proof {
        assert(items_view(r@) =~= spec_language_items(language));
    }
    r
}

/// Theme submenu: dark, light; the current one checked.
pub open spec fn spec_theme_items(language: Language, theme: Theme) -> Seq<ItemView> {
    seq![
        radio_item(spec_text(language, TextKey::Dark), theme == Theme::Dark, ActionView::SetTheme(Theme::Dark)),
        radio_item(spec_text(language, TextKey::Light), theme == Theme::Light, ActionView::SetTheme(Theme::Light)),
    ]
}

pub fn build_theme_items(language: Language, theme: Theme) -> (r: Vec<MenuItem>)
    ensures
        items_view(r@) == spec_theme_items(language, theme),
{
    let r = vec![
        MenuItem::radio(str_string(text(language, TextKey::Dark)), theme == Theme::Dark, MenuAction::SetTheme(Theme::Dark)),
        MenuItem::radio(str_string(text(language, TextKey::Light)), theme == Theme::Light, MenuAction::SetTheme(Theme::Light)),
    ];
    proof {
        assert(items_view(r@) =~= spec_theme_items(language, theme));
    }
    r
}

/// The items of a submenu.
pub fn submenu_items(
    kind: SubmenuKind,
    devices: &Vec<DeviceBattery>,
    target: &str,
    language: Language,
    theme: Theme,
) -> (r: Vec<MenuItem>)
    ensures
        items_view(r@) == match kind {
            SubmenuKind::Target => spec_target_items(crate::battery::views(devices@), target@, language),
            SubmenuKind::Language => spec_language_items(language),
            SubmenuKind::Theme => spec_theme_items(language, theme),
        },
{
    match kind {
        SubmenuKind::Target => build_target_items(devices, target, language),
        SubmenuKind::Language => build_language_items(language),
        SubmenuKind::Theme => build_theme_items(language, theme),
    }
}

/// The item is a checked radio button.
pub open spec fn radio_checked(it: ItemView) -> bool {
    it.kind == ItemKind::Radio(true)
}

/// In the language and theme submenus exactly the current choice is checked.
pub proof fn lemma_single_choice(language: Language, theme: Theme)
    ensures
        forall|k: int|
            0 <= k < 3 ==> (radio_checked(#[trigger] spec_language_items(language)[k]) <==> spec_language_items(
                language,
            )[k].action == ActionView::SetLanguage(language)),
        forall|k: int|
            0 <= k < 2 ==> (radio_checked(#[trigger] spec_theme_items(language, theme)[k]) <==> spec_theme_items(
                language,
                theme,
            )[k].action == ActionView::SetTheme(theme)),
{
}

/// In the target submenu, when device addresses are non-empty and differ
/// ignoring ASCII case, at most one entry is checked: "Auto" exactly when
/// there is no target, else the device the target names.
pub proof fn lemma_single_target(devices: Seq<DeviceView>, target: Seq<char>, language: Language)
    requires
        forall|k: int| 0 <= k < devices.len() ==> (#[trigger] devices[k]).address.len() > 0,
        forall|k: int, m: int|
            0 <= k < m < devices.len() ==> !text::eq_ignore_case(
                (#[trigger] devices[k]).address,
                (#[trigger] devices[m]).address,
            ),
    ensures
        radio_checked(spec_target_items(devices, target, language)[0]) <==> target.len() == 0,
        forall|k: int, m: int|
            0 <= k < m < spec_target_items(devices, target, language).len() ==> !(radio_checked(
                #[trigger] spec_target_items(devices, target, language)[k],
            ) && radio_checked(#[trigger] spec_target_items(devices, target, language)[m])),
{
    let items = spec_target_items(devices, target, language);
    assert forall|k: int, m: int| 0 <= k < m < items.len() implies !(radio_checked(#[trigger] items[k])
        && radio_checked(#[trigger] items[m])) by {
        if radio_checked(items[k]) && radio_checked(items[m]) {
            let dm = devices[m - 1];
            assert(text::eq_ignore_case(dm.address, target));
            if k == 0 {
                assert(target.len() == 0);
                assert(text::lower_seq(dm.address).len() == dm.address.len());
                assert(text::lower_seq(target).len() == 0);
            } else {
                let dk = devices[k - 1];
                assert(text::eq_ignore_case(dk.address, target));
                assert(text::eq_ignore_case(dk.address, dm.address));
            }
        }
    }
}

} // verus!

verus! {

// ---------- geometry ----------

/// Height of an item row.
pub const ITEM_H: i32 = 28;

/// Height of a separator row.
pub const SEP_H: i32 = 9;

/// Room for the radio/check/arrow glyph.
pub const GLYPH_ZONE: i32 = 36;

/// Left padding of information text.
pub const TEXT_PAD: i32 = 10;

/// The UTF-16 code units of a text, for GDI.
pub fn to_utf16(s: &str) -> (r: Vec<u16>)
    ensures
        r@ == text::utf16_of(s@),
{
    text::encode_utf16_chars(&text::chars_of(s))
}

pub open spec fn row_height(kind: ItemKind) -> int {
    if kind == ItemKind::Separator {
        SEP_H as int
    } else {
        ITEM_H as int
    }
}

/// Top of item `index` in client coordinates: one pixel of border plus the
/// heights of the items before it (all of them when `index` is past the end).
pub open spec fn spec_item_top(items: Seq<ItemView>, index: int) -> int
    decreases index,
{
    if index <= 0 || items.len() == 0 {
        1
    } else if index > items.len() {
        spec_item_top(items, items.len() as int)
    } else {
        spec_item_top(items, index - 1) + row_height(items[index - 1].kind)
    }
}

/// The item whose row holds `y`, searching from item `i`.
pub open spec fn hit_from(items: Seq<ItemView>, y: int, i: int) -> int
    decreases items.len() - i,
{
    if i < 0 || i >= items.len() {
        -1
    } else if spec_item_top(items, i) <= y < spec_item_top(items, i) + row_height(items[i].kind) {
        i
    } else {
        hit_from(items, y, i + 1)
    }
}

/// Index of the item under `y` (client coordinates), or -1 on the border or
/// below the last item.
pub open spec fn spec_hit_test(items: Seq<ItemView>, y: int, height: int) -> int {
    if y < 1 || y >= height - 1 {
        -1
    } else {
        hit_from(items, y, 0)
    }
}

proof fn lemma_item_top_step(items: Seq<ItemView>, i: int)
    requires
        0 <= i < items.len(),
    ensures
        spec_item_top(items, i + 1) == spec_item_top(items, i) + row_height(items[i].kind),
{
}

/// Rows lie top to bottom in item order, each at least a separator high.
pub proof fn lemma_item_top_monotone(items: Seq<ItemView>, i: int, j: int)
    requires
        0 <= i <= j <= items.len(),
    ensures
        spec_item_top(items, i) + 9 * (j - i) <= spec_item_top(items, j),
    decreases j - i,
{
    if i < j {
        lemma_item_top_monotone(items, i, j - 1);
    }
}

proof fn lemma_hit_from_found(items: Seq<ItemView>, y: int, i: int, j: int)
    requires
        0 <= i <= j < items.len(),
        spec_item_top(items, j) <= y < spec_item_top(items, j) + row_height(items[j].kind),
    ensures
        hit_from(items, y, i) == j,
    decreases j - i,
{
    if i < j {
        lemma_item_top_monotone(items, i + 1, j);
        lemma_hit_from_found(items, y, i + 1, j);
    }
}

proof fn lemma_hit_from_none(items: Seq<ItemView>, y: int, i: int)
    requires
        0 <= i <= items.len(),
        y >= spec_item_top(items, items.len() as int) || y < spec_item_top(items, i),
    ensures
        hit_from(items, y, i) == -1,
    decreases items.len() - i,
{
    if i < items.len() {
        lemma_item_top_monotone(items, i + 1, items.len() as int);
        lemma_hit_from_none(items, y, i + 1);
    }
}

/// Index of the item under `y`, or -1 (border, below the items).
pub fn hit_test(items: &Vec<MenuItem>, y: i32, height: i32) -> (r: i32)
    ensures
        r as int == spec_hit_test(items_view(items@), y as int, height as int),
{
    let ghost iv = items_view(items@);
    if (y as i64) < 1 || (y as i64) >= (height as i64) - 1 {
        return -1;
    }
    let mut cur: i64 = 1;
    let mut i: usize = 0;
    while i < items.len()
        invariant
            iv == items_view(items@),
            i <= items.len(),
            cur == spec_item_top(iv, i as int),
            1 <= y,
            (y as int) < (height as int) - 1,
            y as int >= cur,
            forall|k: int| 0 <= k < i ==> !(spec_item_top(iv, k) <= y < spec_item_top(iv, k) + row_height(#[trigger] iv[k].kind)),
        decreases items.len() - i,
    {
        let h: i64 = if items[i].kind == ItemKind::Separator {
            9
        } else {
            28
        };
        proof {
            assert(iv[i as int] == items@[i as int]@);
            lemma_item_top_step(iv, i as int);
        }
        if (y as i64) < cur + h {
            proof {
                assert(h as int == row_height(iv[i as int].kind));
                assert(spec_item_top(iv, i as int) <= y < spec_item_top(iv, i as int) + row_height(iv[i as int].kind));
                lemma_hit_from_found(iv, y as int, 0, i as int);
                lemma_item_top_monotone(iv, 0, i as int);
                assert(hit_from(iv, y as int, 0) == i);
                assert(spec_hit_test(iv, y as int, height as int) == i);
            }
            return i as i32;
        }
        cur = cur + h;
        i = i + 1;
    }
    proof {
        lemma_hit_from_none(iv, y as int, 0);
    }
    -1
}

/// Top of item `index` in client coordinates.
pub fn item_top(items: &Vec<MenuItem>, index: usize) -> (r: i32)
    requires
        spec_item_top(items_view(items@), index as int) <= i32::MAX,
    ensures
        r as int == spec_item_top(items_view(items@), index as int),
{
    let ghost iv = items_view(items@);
    let n = if index < items.len() {
        index
    } else {
        items.len()
    };
    proof {
        if index > items.len() && items.len() > 0 {
            assert(spec_item_top(iv, index as int) == spec_item_top(iv, items.len() as int));
        }
    }
    let mut top: i64 = 1;
    let mut i: usize = 0;
    while i < n
        invariant
            iv == items_view(items@),
            n <= items.len(),
            i <= n,
            top == spec_item_top(iv, i as int),
            spec_item_top(iv, n as int) <= i32::MAX,
        decreases n - i,
    {
        proof {
            assert(iv[i as int] == items@[i as int]@);
            lemma_item_top_step(iv, i as int);
            lemma_item_top_monotone(iv, (i + 1) as int, n as int);
        }
        top = top + if items[i].kind == ItemKind::Separator {
            9
        } else {
            28
        };
        i = i + 1;
    }
    proof {
        lemma_item_top_monotone(iv, 0, n as int);
    }
    top as i32
}

/// Rows hold their items: a `y` inside the row of item `i` hits item `i`,
/// and a hit always names an item whose row holds `y`.
pub proof fn lemma_hit_test_rows(items: Seq<ItemView>, y: int, height: int, i: int)
    requires
        1 <= y < height - 1,
    ensures
        0 <= i < items.len() && spec_item_top(items, i) <= y < spec_item_top(items, i) + row_height(items[i].kind)
            ==> spec_hit_test(items, y, height) == i,
        spec_hit_test(items, y, height) == -1 || (0 <= spec_hit_test(items, y, height) < items.len()
            && spec_item_top(items, spec_hit_test(items, y, height)) <= y < spec_item_top(
            items,
            spec_hit_test(items, y, height),
        ) + row_height(items[spec_hit_test(items, y, height)].kind)),
{
    if 0 <= i < items.len() && spec_item_top(items, i) <= y < spec_item_top(items, i) + row_height(items[i].kind) {
        lemma_hit_from_found(items, y, 0, i);
    }
    lemma_hit_from_range(items, y, 0);
}

proof fn lemma_hit_from_range(items: Seq<ItemView>, y: int, i: int)
    ensures
        hit_from(items, y, i) == -1 || (0 <= hit_from(items, y, i) < items.len() && spec_item_top(
            items,
            hit_from(items, y, i),
        ) <= y < spec_item_top(items, hit_from(items, y, i)) + row_height(items[hit_from(items, y, i)].kind)),
    decreases items.len() - i,
{
    if 0 <= i < items.len() && !(spec_item_top(items, i) <= y < spec_item_top(items, i) + row_height(items[i].kind)) {
        lemma_hit_from_range(items, y, i + 1);
    }
}

/// Largest text width among the non-separator items (0 when there is none).
pub open spec fn max_text_width(items: Seq<ItemView>, widths: Seq<i32>, n: int) -> int
    decreases n,
{
    if n <= 0 {
        0
    } else {
        let prev = max_text_width(items, widths, n - 1);
        if items[n - 1].kind != ItemKind::Separator && widths[n - 1] > prev {
            widths[n - 1] as int
        } else {
            prev
        }
    }
}

/// Popup size for the measured text widths: the widest text plus padding,
/// glyph zone and border; 2 pixels of border plus the row heights; both
/// saturating at `i32::MAX`.
pub open spec fn spec_menu_size(items: Seq<ItemView>, widths: Seq<i32>) -> (int, int) {
    let w = max_text_width(items, widths, items.len() as int) + TEXT_PAD + GLYPH_ZONE + 4;
    let h = spec_item_top(items, items.len() as int) + 1;
    (if w > i32::MAX {
        i32::MAX as int
    } else {
        w
    }, if h > i32::MAX {
        i32::MAX as int
    } else {
        h
    })
}

proof fn lemma_max_text_width(items: Seq<ItemView>, widths: Seq<i32>, n: int)
    requires
        0 <= n <= items.len(),
        n <= widths.len(),
    ensures
        max_text_width(items, widths, n) >= 0,
        forall|k: int|
            0 <= k < n && items[k].kind != ItemKind::Separator ==> #[trigger] widths[k] <= max_text_width(
                items,
                widths,
                n,
            ),
        max_text_width(items, widths, n) == 0 || exists|k: int|
            0 <= k < n && items[k].kind != ItemKind::Separator && #[trigger] widths[k] == max_text_width(
                items,
                widths,
                n,
            ),
    decreases n,
{
    if n > 0 {
        lemma_max_text_width(items, widths, n - 1);
    }
}

/// The popup is wide enough for every text: at least 50 pixels (padding,
/// glyph zone, border) more than the widest non-separator item of any kind,
/// saturating at `i32::MAX`, and no wider: it is 50 pixels, or 50 more than
/// some item's text.
pub proof fn lemma_menu_width(items: Seq<ItemView>, widths: Seq<i32>)
    requires
        widths.len() == items.len(),
    ensures
        spec_menu_size(items, widths).0 >= 50,
        forall|k: int|
            0 <= k < items.len() && items[k].kind != ItemKind::Separator ==> spec_menu_size(items, widths).0 >= (
            if #[trigger] widths[k] + 50 > i32::MAX {
                i32::MAX as int
            } else {
                widths[k] + 50
            }),
        spec_menu_size(items, widths).0 == 50 || exists|k: int|
            0 <= k < items.len() && items[k].kind != ItemKind::Separator && spec_menu_size(items, widths).0 == (
            if #[trigger] widths[k] + 50 > i32::MAX {
                i32::MAX as int
            } else {
                widths[k] + 50
            }),
{
    lemma_max_text_width(items, widths, items.len() as int);
}

/// Width and height of a popup whose item texts measure `widths` pixels
/// (the width of a separator is not used).
pub fn menu_size(items: &Vec<MenuItem>, widths: &Vec<i32>) -> (r: (i32, i32))
    requires
        widths.len() == items.len(),
    ensures
        r.0 as int == spec_menu_size(items_view(items@), widths@).0,
        r.1 as int == spec_menu_size(items_view(items@), widths@).1,
        r.0 >= 50,
        forall|k: int|
            0 <= k < items@.len() && items@[k].kind != ItemKind::Separator ==> r.0 as int >= (if #[trigger] widths@[k]
                + 50 > i32::MAX {
                i32::MAX as int
            } else {
                widths@[k] + 50
            }),
        r.0 == 50 || exists|k: int|
            0 <= k < items@.len() && items@[k].kind != ItemKind::Separator && r.0 as int == (if #[trigger] widths@[k]
                + 50 > i32::MAX {
                i32::MAX as int
            } else {
                widths@[k] + 50
            }),
{
    let r = layout_size(items, widths);
    proof {
        let iv = items_view(items@);
        lemma_menu_width(iv, widths@);
        assert forall|k: int| 0 <= k < items@.len() implies #[trigger] iv[k].kind == items@[k].kind by {}
        if r.0 != 50 {
            let k = choose|k: int|
                0 <= k < iv.len() && iv[k].kind != ItemKind::Separator && spec_menu_size(iv, widths@).0 == (
                if #[trigger] widths@[k] + 50 > i32::MAX {
                    i32::MAX as int
                } else {
                    widths@[k] + 50
                });
            assert(iv[k].kind == items@[k].kind);
        }
    }
    r
}

fn layout_size(items: &Vec<MenuItem>, widths: &Vec<i32>) -> (r: (i32, i32))
    requires
        widths.len() == items.len(),
    ensures
        r.0 as int == spec_menu_size(items_view(items@), widths@).0,
        r.1 as int == spec_menu_size(items_view(items@), widths@).1,
{
    let ghost iv = items_view(items@);
    let mut max_w: i32 = 0;
    let mut h: i64 = 2;
    let mut i: usize = 0;
    while i < items.len()
        invariant
            iv == items_view(items@),
            widths.len() == items.len(),
            i <= items.len(),
            max_w as int == max_text_width(iv, widths@, i as int),
            h == (if spec_item_top(iv, i as int) + 1 > i32::MAX {
                i32::MAX as int
            } else {
                spec_item_top(iv, i as int) + 1
            }),
        decreases items.len() - i,
    {
        proof {
            assert(iv[i as int] == items@[i as int]@);
            lemma_item_top_step(iv, i as int);
            lemma_item_top_monotone(iv, 0, i as int);
        }
        if items[i].kind == ItemKind::Separator {
            h = if h + 9 > i32::MAX as i64 {
                i32::MAX as i64
            } else {
                h + 9
            };
        } else {
            if widths[i] > max_w {
                max_w = widths[i];
            }
            h = if h + 28 > i32::MAX as i64 {
                i32::MAX as i64
            } else {
                h + 28
            };
        }
        i = i + 1;
    }
    proof {
        lemma_item_top_monotone(iv, 0, items.len() as int);
    }
    let w: i64 = max_w as i64 + 50;
    let width: i32 = if w > i32::MAX as i64 {
        i32::MAX
    } else {
        w as i32
    };
    (width, h as i32)
}

} // verus!

verus! {

// ---------- painting plan ----------

/// The glyph drawn in the glyph zone of a row.
#[derive(Debug, Clone, Copy, PartialEq, Eq, Structural)]
pub enum Glyph {
    NoGlyph,
    Radio(bool),
    Check(bool),
    Arrow,
}

/// Where and how one row is painted. Separators are a line from x = 12 to
/// `width - 12` at `top + 4` in the border colour; other rows fill
/// `1..width-1 × top..top+28` when highlighted, draw the text between
/// `text_left` and `text_right` in `color`, and the glyph centred at
/// (19, `top + 14`).
#[derive(Debug, Clone, Copy, PartialEq, Eq, Structural)]
pub struct RowPaint {
    pub top: i32,
    pub separator: bool,
    pub highlighted: bool,
    pub text_left: i32,
    pub text_right: i32,
    pub color: u32,
    pub glyph: Glyph,
}

pub open spec fn glyph_of(kind: ItemKind) -> Glyph {
    match kind {
        ItemKind::Radio(c) => Glyph::Radio(c),
        ItemKind::Check(c) => Glyph::Check(c),
        ItemKind::Submenu => Glyph::Arrow,
        _ => Glyph::NoGlyph,
    }
}

/// The paint plan of row `k`.
pub open spec fn spec_row(items: Seq<ItemView>, k: int, hover: int, width: int, theme: Theme) -> RowPaint {
    let kind = items[k].kind;
    RowPaint {
        top: spec_item_top(items, k) as i32,
        separator: kind == ItemKind::Separator,
        highlighted: kind != ItemKind::Separator && k == hover,
        text_left: (1 + if kind == ItemKind::Info {
            TEXT_PAD
        } else {
            GLYPH_ZONE
        }) as i32,
        text_right: (width - 1 - TEXT_PAD) as i32,
        color: if kind == ItemKind::Info {
            spec_palette(theme).disabled
        } else {
            spec_palette(theme).text
        },
        glyph: glyph_of(kind),
    }
}

/// What is painted is what is clicked: a point inside the painted row of a
/// non-separator item `k` (and off the border) hits item `k`, and the row of
/// the highlighted item is the one painted highlighted.
pub proof fn lemma_painted_row_is_hit(items: Seq<ItemView>, k: int, y: int, hover: int, width: int, theme: Theme)
    requires
        0 <= k < items.len(),
        spec_item_top(items, items.len() as int) <= i32::MAX,
        spec_row(items, k, hover, width, theme).top <= y < spec_row(items, k, hover, width, theme).top + row_height(
            items[k].kind,
        ),
        y >= 1,
    ensures
        spec_hit_test(items, y, spec_item_top(items, items.len() as int) + 1) == k,
        spec_row(items, k, hover, width, theme).highlighted <==> (k == hover && items[k].kind
            != ItemKind::Separator),
{
    lemma_item_top_monotone(items, k, items.len() as int);
    lemma_item_top_monotone(items, 0, k);
    lemma_item_top_step(items, k);
    lemma_item_top_monotone(items, k + 1, items.len() as int);
    lemma_hit_test_rows(items, y, spec_item_top(items, items.len() as int) + 1, k);
}

/// Each row's glyph shows its item: a check box or radio button is drawn in
/// the item's own state (checked exactly when the item is), a submenu item
/// gets the arrow, other items no glyph.
pub proof fn lemma_row_glyph(items: Seq<ItemView>, k: int, hover: int, width: int, theme: Theme)
    requires
        0 <= k < items.len(),
    ensures
        match items[k].kind {
            ItemKind::Radio(c) => spec_row(items, k, hover, width, theme).glyph == Glyph::Radio(c),
            ItemKind::Check(c) => spec_row(items, k, hover, width, theme).glyph == Glyph::Check(c),
            ItemKind::Submenu => spec_row(items, k, hover, width, theme).glyph == Glyph::Arrow,
            _ => spec_row(items, k, hover, width, theme).glyph == Glyph::NoGlyph,
        },
{
}

/// How to paint each row of a popup of the given width with item `hover`
/// highlighted (-1: none) in `theme`.
pub fn paint_rows(items: &Vec<MenuItem>, hover: i32, width: i32, theme: Theme) -> (rows: Vec<RowPaint>)
    requires
        spec_item_top(items_view(items@), items@.len() as int) <= i32::MAX,
        width as int - 1 - TEXT_PAD >= i32::MIN,
    ensures
        rows@.len() == items@.len(),
        forall|k: int|
            0 <= k < rows@.len() ==> #[trigger] rows@[k] == spec_row(
                items_view(items@),
                k,
                hover as int,
                width as int,
                theme,
            ),
        forall|k: int|
            0 <= k < rows@.len() ==> match items@[k].kind {
                ItemKind::Radio(c) => (#[trigger] rows@[k]).glyph == Glyph::Radio(c),
                ItemKind::Check(c) => rows@[k].glyph == Glyph::Check(c),
                ItemKind::Submenu => rows@[k].glyph == Glyph::Arrow,
                _ => rows@[k].glyph == Glyph::NoGlyph,
            },
        forall|k: int|
            0 <= k < rows@.len() ==> ((#[trigger] rows@[k]).highlighted <==> (k == hover && items@[k].kind
                != ItemKind::Separator)) && (rows@[k].separator <==> items@[k].kind == ItemKind::Separator),
{
    let ghost iv = items_view(items@);
    let colors = palette(theme);
    let mut rows: Vec<RowPaint> = Vec::new();
    let mut y: i32 = 1;
    let mut i: usize = 0;
    while i < items.len()
        invariant
            iv == items_view(items@),
            colors == spec_palette(theme),
            spec_item_top(iv, iv.len() as int) <= i32::MAX,
            width as int - 1 - TEXT_PAD >= i32::MIN,
            i <= items.len(),
            y as int == spec_item_top(iv, i as int),
            rows@.len() == i,
            forall|k: int| 0 <= k < i ==> #[trigger] rows@[k] == spec_row(iv, k, hover as int, width as int, theme),
        decreases items.len() - i,
    {
        let kind = items[i].kind;
        proof {
            assert(iv[i as int] == items@[i as int]@);
            lemma_item_top_step(iv, i as int);
            lemma_item_top_monotone(iv, (i + 1) as int, iv.len() as int);
        }
        let glyph = match kind {
            ItemKind::Radio(c) => Glyph::Radio(c),
            ItemKind::Check(c) => Glyph::Check(c),
            ItemKind::Submenu => Glyph::Arrow,
            _ => Glyph::NoGlyph,
        };
        let separator = kind == ItemKind::Separator;
        let row = RowPaint {
            top: y,
            separator: separator,
            highlighted: !separator && hover >= 0 && (hover as usize) == i,
            text_left: if kind == ItemKind::Info {
                1 + TEXT_PAD
            } else {
                1 + GLYPH_ZONE
            },
            text_right: width - 1 - TEXT_PAD,
            color: if kind == ItemKind::Info {
                colors.disabled
            } else {
                colors.text
            },
            glyph: glyph,
        };
        rows.push(row);
        y = if separator {
            y + SEP_H
        } else {
            y + ITEM_H
        };
        i = i + 1;
    }
    proof {
        assert forall|k: int| 0 <= k < rows@.len() implies match items@[k].kind {
            ItemKind::Radio(c) => (#[trigger] rows@[k]).glyph == Glyph::Radio(c),
            ItemKind::Check(c) => rows@[k].glyph == Glyph::Check(c),
            ItemKind::Submenu => rows@[k].glyph == Glyph::Arrow,
            _ => rows@[k].glyph == Glyph::NoGlyph,
        } by {
            assert(items_view(items@)[k].kind == items@[k].kind);
            lemma_row_glyph(items_view(items@), k, hover as int, width as int, theme);
        }
        assert forall|k: int| 0 <= k < rows@.len() implies ((#[trigger] rows@[k]).highlighted <==> (k == hover
            && items@[k].kind != ItemKind::Separator)) && (rows@[k].separator <==> items@[k].kind
            == ItemKind::Separator) by {
            assert(items_view(items@)[k].kind == items@[k].kind);
        }
    }
    rows
}

// ---------- submenu arrow ----------

/// Width of the arrow in pixels (tip to base).
pub const ARROW_W: usize = 6;

/// Height of the arrow in pixels.
pub const ARROW_H: usize = 8;

/// Supersampling factor of the arrow mask.
pub const ARROW_SS: usize = 4;

/// Blue byte of sample `n` (0..16, row-major) of the 4×4 block of output
/// pixel (`i`, `j`) in the 24×32 BGRA supersampled mask.
pub open spec fn sample(mask: Seq<u8>, i: int, j: int, n: int) -> u8 {
    mask[((j * 4 + n / 4) * 24 + i * 4 + n % 4) * 4]
}

/// Sum of the first `n` samples of a block.
pub open spec fn block_sum(mask: Seq<u8>, i: int, j: int, n: int) -> int
    decreases n,
{
    if n <= 0 {
        0
    } else {
        block_sum(mask, i, j, n - 1) + sample(mask, i, j, n - 1)
    }
}

/// Coverage 0..=255 of output pixel (`i`, `j`): the mean of its 16 samples.
pub open spec fn coverage(mask: Seq<u8>, i: int, j: int) -> int {
    block_sum(mask, i, j, 16) / 16
}

proof fn lemma_block_sum_bound(mask: Seq<u8>, i: int, j: int, n: int)
    requires
        0 <= n,
    ensures
        0 <= block_sum(mask, i, j, n) <= 255 * n,
    decreases n,
{
    if n > 0 {
        lemma_block_sum_bound(mask, i, j, n - 1);
    }
}

/// The anti-aliased arrow: every 4×4 block of the 24×32 supersampled mask
/// (a white triangle; its blue bytes are read) becomes one 6×8 pixel of
/// premultiplied BGRA in `color` (`COLORREF` 0x00BBGGRR) with the block's
/// mean as alpha.
pub fn arrow_pixels(mask: &Vec<u8>, color: u32) -> (out: Vec<u8>)
    requires
        mask@.len() == 24 * 32 * 4,
    ensures
        out@.len() == 6 * 8 * 4,
        forall|i: int, j: int|
            0 <= i < 6 && 0 <= j < 8 ==> {
                let cov = coverage(mask@, i, j);
                &&& #[trigger] out@[(j * 6 + i) * 4] as int == ((color / 65536) % 256) * cov / 255
                &&& out@[(j * 6 + i) * 4 + 1] as int == ((color / 256) % 256) * cov / 255
                &&& out@[(j * 6 + i) * 4 + 2] as int == (color % 256) * cov / 255
                &&& out@[(j * 6 + i) * 4 + 3] as int == cov
            },
{
    let r: u32 = color % 256;
    let g: u32 = (color / 256) % 256;
    let b: u32 = (color / 65536) % 256;
    let mut out: Vec<u8> = Vec::new();
    let mut j: usize = 0;
    while j < 8
        invariant
            mask@.len() == 3072,
            r == color % 256 && g == (color / 256) % 256 && b == (color / 65536) % 256,
            j <= 8,
            out@.len() == j * 24,
            forall|q: int|
                0 <= q < j * 6 ==> {
                    let cov = coverage(mask@, q % 6, q / 6);
                    &&& #[trigger] out@[q * 4] as int == b * cov / 255
                    &&& out@[q * 4 + 1] as int == g * cov / 255
                    &&& out@[q * 4 + 2] as int == r * cov / 255
                    &&& out@[q * 4 + 3] as int == cov
                },
        decreases 8 - j,
    {
        let mut i: usize = 0;
        while i < 6
            invariant
                mask@.len() == 3072,
                r == color % 256 && g == (color / 256) % 256 && b == (color / 65536) % 256,
                j < 8,
                i <= 6,
                out@.len() == (j * 6 + i) * 4,
                forall|q: int|
                    0 <= q < j * 6 + i ==> {
                        let cov = coverage(mask@, q % 6, q / 6);
                        &&& #[trigger] out@[q * 4] as int == b * cov / 255
                        &&& out@[q * 4 + 1] as int == g * cov / 255
                        &&& out@[q * 4 + 2] as int == r * cov / 255
                        &&& out@[q * 4 + 3] as int == cov
                    },
            decreases 6 - i,
        {
            let mut sum: u32 = 0;
            let mut n: usize = 0;
            while n < 16
                invariant
                    mask@.len() == 3072,
                    i < 6,
                    j < 8,
                    n <= 16,
                    sum as int == block_sum(mask@, i as int, j as int, n as int),
                decreases 16 - n,
            {
                proof {
                    lemma_block_sum_bound(mask@, i as int, j as int, n as int);
                }
                let off = ((j * 4 + n / 4) * 24 + i * 4 + n % 4) * 4;
                sum = sum + mask[off] as u32;
                n = n + 1;
            }
            proof {
                lemma_block_sum_bound(mask@, i as int, j as int, 16);
            }
            let cov: u32 = sum / 16;
            assert(b * cov / 255 <= 255) by (nonlinear_arith)
                requires
                    b <= 255,
                    cov <= 255,
            ;
            assert(g * cov / 255 <= 255) by (nonlinear_arith)
                requires
                    g <= 255,
                    cov <= 255,
            ;
            assert(r * cov / 255 <= 255) by (nonlinear_arith)
                requires
                    r <= 255,
                    cov <= 255,
            ;
            let ghost before = out@;
            out.push((b * cov / 255) as u8);
            out.push((g * cov / 255) as u8);
            out.push((r * cov / 255) as u8);
            out.push(cov as u8);
            proof {
                let p = (j * 6 + i) as int;
                assert(p % 6 == i as int && p / 6 == j as int);
                assert forall|q: int| 0 <= q < j * 6 + i + 1 implies {
                    let cv = coverage(mask@, q % 6, q / 6);
                    &&& #[trigger] out@[q * 4] as int == b * cv / 255
                    &&& out@[q * 4 + 1] as int == g * cv / 255
                    &&& out@[q * 4 + 2] as int == r * cv / 255
                    &&& out@[q * 4 + 3] as int == cv
                } by {
                    if q < p {
                        assert(out@[q * 4] == before[q * 4]);
                        assert(out@[q * 4 + 1] == before[q * 4 + 1]);
                        assert(out@[q * 4 + 2] == before[q * 4 + 2]);
                        assert(out@[q * 4 + 3] == before[q * 4 + 3]);
                    }
                }
            }
            i = i + 1;
        }
        j = j + 1;
    }
    proof {
        assert forall|i: int, j: int| 0 <= i < 6 && 0 <= j < 8 implies {
            let cov = coverage(mask@, i, j);
            &&& #[trigger] out@[(j * 6 + i) * 4] as int == ((color / 65536) % 256) * cov / 255
            &&& out@[(j * 6 + i) * 4 + 1] as int == ((color / 256) % 256) * cov / 255
            &&& out@[(j * 6 + i) * 4 + 2] as int == (color % 256) * cov / 255
            &&& out@[(j * 6 + i) * 4 + 3] as int == cov
        } by {
            let q = j * 6 + i;
            assert(q % 6 == i && q / 6 == j);
            assert(out@[q * 4] as int == b * coverage(mask@, q % 6, q / 6) / 255);
        }
    }
    out
}

// ---------- window messages ----------

/// The signed 16-bit value of the low 16 bits of `v`.
pub open spec fn sign16(v: int) -> int {
    if v % 65536 >= 32768 {
        v % 65536 - 65536
    } else {
        v % 65536
    }
}

/// Client coordinates packed in a mouse message's `lParam`: x in the low
/// word, y in the high word of its low 32 bits, each a signed 16-bit value.
pub fn client_pos(lparam: isize) -> (r: (i32, i32))
    ensures
        r.0 as int == sign16((lparam as u32) as int),
        r.1 as int == sign16(((lparam as u32) / 65536) as int),
{
    let v = lparam as u32;
    let lo = (v % 65536) as i32;
    let hi = ((v / 65536) % 65536) as i32;
    let x = if lo >= 32768 {
        lo - 65536
    } else {
        lo
    };
    let y = if hi >= 32768 {
        hi - 65536
    } else {
        hi
    };
    (x, y)
}

} // verus!

verus! {

// ---------- popup state ----------

/// What a popup window knows about itself.
pub struct MenuModel {
    pub items: Vec<MenuItem>,
    pub width: i32,
    pub height: i32,
    /// Highlighted item, -1 for none.
    pub hover: i32,
    /// The popup finished (closed with a result, or suspended for a submenu).
    pub done: bool,
    pub result: MenuAction,
    /// A submenu the loop should open.
    pub open_submenu: Option<SubmenuKind>,
    /// Top of the item whose submenu is open.
    pub submenu_top: i32,
    pub theme: Theme,
    /// The cursor went back to the parent over another item: close the child.
    pub close_child: bool,
}

/// What a mouse move asks of the submenu hover timer (and whether to repaint).
#[derive(Debug, Clone, Copy, PartialEq, Eq, Structural)]
pub enum HoverChange {
    /// Nothing changed.
    Unchanged,
    /// A submenu item became highlighted: start the timer, repaint.
    StartTimer,
    /// Another item (or none) became highlighted: stop the timer, repaint.
    StopTimer,
}

/// What a mouse button press did.
#[derive(Debug, Clone, Copy, PartialEq, Eq, Structural)]
pub enum ClickOutcome {
    /// A submenu item was clicked: the loop opens its submenu.
    OpenSubmenu,
    /// The popup closed now (`true`: destroy the window and release the hook)
    /// or had already closed (`false`).
    Closed(bool),
}

impl MenuModel {
    /// Sizes fit `i32` and the highlight names an item or none.
    pub open spec fn wf(&self) -> bool {
        &&& -1 <= self.hover < self.items@.len()
        &&& spec_item_top(items_view(self.items@), self.items@.len() as int) <= i32::MAX
    }

    /// A fresh popup: nothing highlighted, nothing chosen.
    pub fn new(items: Vec<MenuItem>, width: i32, height: i32, theme: Theme) -> (r: MenuModel)
        requires
            spec_item_top(items_view(items@), items@.len() as int) <= i32::MAX,
        ensures
            r.wf(),
            r.items@ == items@,
            r.width == width,
            r.height == height,
            r.hover == -1,
            !r.done,
            r.result@ is NoAction,
            r.open_submenu is None,
            r.submenu_top == 1,
            r.theme == theme,
            !r.close_child,
    {
        MenuModel {
            items,
            width,
            height,
            hover: -1,
            done: false,
            result: MenuAction::NoAction,
            open_submenu: None,
            submenu_top: 1,
            theme,
            close_child: false,
        }
    }

    /// Closes the popup with `action` unless it has already finished.
    /// Returns whether it closed now.
    pub fn close(&mut self, action: MenuAction) -> (closed: bool)
        ensures
            closed == !old(self).done,
            final(self).done,
            closed ==> final(self).result@ == action@,
            !closed ==> final(self).result == old(self).result,
            final(self).items == old(self).items,
            final(self).width == old(self).width,
            final(self).height == old(self).height,
            final(self).hover == old(self).hover,
            final(self).open_submenu == old(self).open_submenu,
            final(self).submenu_top == old(self).submenu_top,
            final(self).theme == old(self).theme,
            final(self).close_child == old(self).close_child,
    {
        if self.done {
            return false;
        }
        self.done = true;
        self.result = action;
        true
    }

    /// Finishes the popup without a result so that a submenu can take over;
    /// the window stays. Returns whether it finished now.
    pub fn suspend(&mut self) -> (suspended: bool)
        ensures
            suspended == !old(self).done,
            final(self).done,
            suspended ==> final(self).result@ is NoAction,
            !suspended ==> final(self).result == old(self).result,
            final(self).items == old(self).items,
            final(self).width == old(self).width,
            final(self).height == old(self).height,
            final(self).hover == old(self).hover,
            final(self).open_submenu == old(self).open_submenu,
            final(self).submenu_top == old(self).submenu_top,
            final(self).theme == old(self).theme,
            final(self).close_child == old(self).close_child,
    {
        self.close(MenuAction::NoAction)
    }

    /// The item under the cursor is a submenu item.
    pub open spec fn on_submenu(items: Seq<ItemView>, hover: int) -> bool {
        0 <= hover < items.len() && items[hover].kind == ItemKind::Submenu
    }

    /// The cursor moved to (`x`, `y`) in client coordinates. Outside the
    /// window nothing changes. Inside, the item under it becomes highlighted;
    /// in the parent of an open submenu (`parent_with_child`), pointing at any
    /// other row than the submenu's item asks for the submenu to close.
    pub fn mouse_move(&mut self, x: i32, y: i32, parent_with_child: bool) -> (r: HoverChange)
        requires
            old(self).wf(),
        ensures
            final(self).wf(),
            final(self).items == old(self).items,
            final(self).width == old(self).width,
            final(self).height == old(self).height,
            final(self).done == old(self).done,
            final(self).result == old(self).result,
            final(self).open_submenu == old(self).open_submenu,
            final(self).submenu_top == old(self).submenu_top,
            final(self).theme == old(self).theme,
            ({
                let iv = items_view(old(self).items@);
                let outside = x < 0 || y < 0 || x >= old(self).width || y >= old(self).height;
                let hit = spec_hit_test(iv, y as int, old(self).height as int);
                let hover_top = if Self::on_submenu(iv, hit) {
                    spec_item_top(iv, hit)
                } else {
                    -1
                };
                if outside {
                    &&& r == HoverChange::Unchanged
                    &&& final(self).hover == old(self).hover
                    &&& final(self).close_child == old(self).close_child
                } else {
                    &&& final(self).hover == hit
                    &&& final(self).close_child == (old(self).close_child || (parent_with_child && hover_top
                        != old(self).submenu_top))
                    &&& r == if hit == old(self).hover {
                        HoverChange::Unchanged
                    } else if Self::on_submenu(iv, hit) {
                        HoverChange::StartTimer
                    } else {
                        HoverChange::StopTimer
                    }
                }
            }),
    {
        let ghost iv = items_view(self.items@);
        if x < 0 || y < 0 || x >= self.width || y >= self.height {
            return HoverChange::Unchanged;
        }
        let hover = hit_test(&self.items, y, self.height);
        proof {
            if 1 <= y < self.height - 1 {
                lemma_hit_test_rows(iv, y as int, self.height as int, 0);
            }
        }
        let on_submenu = hover >= 0 && (hover as usize) < self.items.len()
            && self.items[hover as usize].kind == ItemKind::Submenu;
        proof {
            if hover >= 0 && (hover as usize) < self.items.len() {
                assert(iv[hover as int] == self.items@[hover as int]@);
            }
            assert(on_submenu == Self::on_submenu(iv, hover as int));
        }
        if parent_with_child {
            let hover_top = if on_submenu {
                proof {
                    lemma_item_top_monotone(iv, hover as int, iv.len() as int);
                }
                item_top(&self.items, hover as usize)
            } else {
                -1
            };
            if hover_top != self.submenu_top {
                self.close_child = true;
            }
        }
        if hover != self.hover {
            self.hover = hover;
            if on_submenu {
                HoverChange::StartTimer
            } else {
                HoverChange::StopTimer
            }
        } else {
            HoverChange::Unchanged
        }
    }

    /// The submenu hover timer fired. When the cursor is still over this
    /// window and an item is highlighted, that item's submenu (if any) is
    /// requested and the popup suspends. Returns whether it suspended now.
    pub fn hover_timer(&mut self, cursor_over_window: bool) -> (suspended: bool)
        requires
            old(self).wf(),
        ensures
            final(self).wf(),
            final(self).items == old(self).items,
            final(self).hover == old(self).hover,
            cursor_over_window && old(self).hover >= 0 ==> {
                &&& final(self).open_submenu == old(self).items@[old(self).hover as int].submenu
                &&& final(self).submenu_top as int == spec_item_top(
                    items_view(old(self).items@),
                    old(self).hover as int,
                )
                &&& final(self).done
                &&& suspended == !old(self).done
                &&& (suspended ==> final(self).result@ is NoAction)
                &&& (!suspended ==> final(self).result == old(self).result)
            },
            !(cursor_over_window && old(self).hover >= 0) ==> *final(self) == *old(self) && !suspended,
    {
        if cursor_over_window && self.hover >= 0 {
            let index = self.hover as usize;
            proof {
                lemma_item_top_monotone(items_view(self.items@), index as int, self.items@.len() as int);
            }
            self.open_submenu = self.items[index].submenu;
            self.submenu_top = item_top(&self.items, index);
            return self.suspend();
        }
        false
    }

    /// A mouse button went down at (`x`, `y`). Outside the window the popup
    /// closes without a result. On a submenu item that submenu is requested.
    /// On another item the popup closes with the item's action; on the border
    /// without a result.
    pub fn button_down(&mut self, x: i32, y: i32) -> (r: ClickOutcome)
        requires
            old(self).wf(),
        ensures
            final(self).wf(),
            final(self).items == old(self).items,
            ({
                let iv = items_view(old(self).items@);
                let outside = x < 0 || y < 0 || x >= old(self).width || y >= old(self).height;
                let hit = spec_hit_test(iv, y as int, old(self).height as int);
                if outside {
                    &&& final(self).done
                    &&& r == ClickOutcome::Closed(!old(self).done)
                    &&& (!old(self).done ==> final(self).result@ is NoAction)
                } else if hit >= 0 && iv[hit].kind == ItemKind::Submenu {
                    &&& r == ClickOutcome::OpenSubmenu
                    &&& final(self).open_submenu == iv[hit].submenu
                    &&& final(self).submenu_top as int == spec_item_top(iv, hit)
                    &&& final(self).done == old(self).done
                    &&& final(self).result == old(self).result
                } else {
                    &&& final(self).done
                    &&& r == ClickOutcome::Closed(!old(self).done)
                    &&& (!old(self).done ==> final(self).result@ == if hit >= 0 {
                        iv[hit].action
                    } else {
                        ActionView::NoAction
                    })
                }
            }),
    {
        let ghost iv = items_view(self.items@);
        if x < 0 || y < 0 || x >= self.width || y >= self.height {
            let closed = self.close(MenuAction::NoAction);
            return ClickOutcome::Closed(closed);
        }
        let idx = hit_test(&self.items, y, self.height);
        proof {
            if 1 <= y < self.height - 1 {
                lemma_hit_test_rows(iv, y as int, self.height as int, 0);
            }
        }
        let action = if idx >= 0 {
            let k = idx as usize;
            proof {
                assert(iv[k as int] == self.items@[k as int]@);
            }
            if self.items[k].kind == ItemKind::Submenu {
                proof {
                    lemma_item_top_monotone(iv, k as int, iv.len() as int);
                }
                self.open_submenu = self.items[k].submenu;
                self.submenu_top = item_top(&self.items, k);
                return ClickOutcome::OpenSubmenu;
            }
            self.items[k].action.duplicate()
        } else {
            MenuAction::NoAction
        };
        let closed = self.close(action);
        ClickOutcome::Closed(closed)
    }

    /// The loop serves a pending request to close the submenu: the flag is
    /// cleared and a parent that was only suspended becomes active again.
    /// Returns whether the submenu must be destroyed.
    pub fn release_child(&mut self) -> (release: bool)
        ensures
            release == old(self).close_child,
            !final(self).close_child,
            final(self).items == old(self).items,
            final(self).hover == old(self).hover,
            final(self).result == old(self).result,
            final(self).open_submenu == old(self).open_submenu,
            final(self).submenu_top == old(self).submenu_top,
            final(self).width == old(self).width,
            final(self).height == old(self).height,
            final(self).theme == old(self).theme,
            final(self).done == (old(self).done && !(old(self).close_child && old(self).result@ is NoAction)),
    {
        if !self.close_child {
            return false;
        }
        self.close_child = false;
        if self.result.is_none() {
            self.done = false;
        }
        true
    }
}

pub open spec fn child_finished(child: Option<&MenuModel>) -> bool {
    match child {
        Some(c) => c.done,
        None => false,
    }
}

/// After a message of the menu loop: a choice made in the submenu wins; then
/// a finished parent without a submenu; then a closed group (no result).
/// `None`: keep going.
pub fn finish_step(parent: &MenuModel, child: Option<&MenuModel>, group_closed: bool) -> (r: Option<MenuAction>)
    ensures
        child_finished(child) ==> (r is Some && r->0@ == child->0.result@),
        !child_finished(child) && parent.done && child is None ==> (r is Some && r->0@ == parent.result@),
        !child_finished(child) && !(parent.done && child is None) && group_closed ==> (r is Some && r->0@ is NoAction),
        !child_finished(child) && !(parent.done && child is None) && !group_closed ==> r is None,
{
    if let Some(c) = child {
        if c.done {
            return Some(c.result.duplicate());
        }
    }
    if parent.done && child.is_none() {
        return Some(parent.result.duplicate());
    }
    if group_closed {
        return Some(MenuAction::NoAction);
    }
    None
}

/// Kinds of messages the menu loop tells apart.
#[derive(Debug, Clone, Copy, PartialEq, Eq, Structural)]
pub enum MessageClass {
    /// Esc pressed.
    Escape,
    MouseMove,
    /// A button or wheel message, or the tray icon's callback.
    Click,
    Other,
}

/// `WM_KEYDOWN`.
pub const WM_KEYDOWN: u32 = 0x0100;

/// `VK_ESCAPE`.
pub const VK_ESCAPE: usize = 0x1B;

/// `WM_MOUSEMOVE`.
pub const WM_MOUSEMOVE: u32 = 0x0200;

/// The tray icon's callback message, `WM_APP + 1`.
pub const WM_TRAY: u32 = 0x8001;

/// `WM_LBUTTONDOWN`, `WM_RBUTTONDOWN` or `WM_MBUTTONDOWN`.
pub open spec fn spec_button_down(message: u32) -> bool {
    message == 0x0201 || message == 0x0204 || message == 0x0207
}

/// A mouse button went down (left, right or middle).
pub fn is_button_down(message: u32) -> (r: bool)
    ensures
        r == spec_button_down(message),
{
    message == 0x0201 || message == 0x0204 || message == 0x0207
}

/// A button press or release (left, right, middle), the wheel, or the tray
/// icon's callback.
pub open spec fn click_message(message: u32) -> bool {
    spec_button_down(message) || message == 0x0202 || message == 0x0205 || message == 0x0208 || message == 0x020A
        || message == WM_TRAY
}

/// The class of a message (`message`, `wParam`) for the menu loop.
pub fn classify_message(message: u32, wparam: usize) -> (r: MessageClass)
    ensures
        r == (if message == WM_KEYDOWN && wparam == VK_ESCAPE {
            MessageClass::Escape
        } else if message == WM_MOUSEMOVE {
            MessageClass::MouseMove
        } else if click_message(message) {
            MessageClass::Click
        } else {
            MessageClass::Other
        }),
{
    if message == WM_KEYDOWN && wparam == VK_ESCAPE {
        MessageClass::Escape
    } else if message == WM_MOUSEMOVE {
        MessageClass::MouseMove
    } else if is_button_down(message) || message == 0x0202 || message == 0x0205 || message == 0x0208
        || message == 0x020A || message == WM_TRAY {
        MessageClass::Click
    } else {
        MessageClass::Other
    }
}

/// What the menu loop does with a message.
#[derive(Debug, Clone, Copy, PartialEq, Eq, Structural)]
pub enum Route {
    Dispatch,
    Skip,
    CloseGroup,
}

/// Esc closes the group; messages of the popup windows are dispatched;
/// elsewhere mouse moves are dropped and clicks close the group.
pub fn route_message(to_group: bool, class: MessageClass) -> (r: Route)
    ensures
        r == (if class == MessageClass::Escape {
            Route::CloseGroup
        } else if to_group {
            Route::Dispatch
        } else if class == MessageClass::MouseMove {
            Route::Skip
        } else if class == MessageClass::Click {
            Route::CloseGroup
        } else {
            Route::Dispatch
        }),
{
    match class {
        MessageClass::Escape => Route::CloseGroup,
        _ => if to_group {
            Route::Dispatch
        } else {
            match class {
                MessageClass::MouseMove => Route::Skip,
                MessageClass::Click => Route::CloseGroup,
                _ => Route::Dispatch,
            }
        },
    }
}

/// Grace period after opening during which foreground changes are ignored.
pub const FG_GRACE_MS: i64 = 350;

/// A foreground change closes the group when the menu is open, the grace
/// period since opening (`created_ms` > 0) has passed, and the new foreground
/// window is neither popup.
pub fn foreground_closes(
    is_foreground_event: bool,
    menu_active: bool,
    created_ms: i64,
    now_ms: i64,
    foreground: isize,
    parent: isize,
    child: isize,
) -> (r: bool)
    ensures
        r == (is_foreground_event && menu_active && !(created_ms > 0 && (now_ms as int) - (created_ms as int)
            < FG_GRACE_MS) && foreground != parent && foreground != child),
{
    if !is_foreground_event || !menu_active {
        return false;
    }
    if created_ms > 0 && (now_ms as i128) - (created_ms as i128) < FG_GRACE_MS as i128 {
        return false;
    }
    foreground != parent && foreground != child
}

/// A button press seen by the low-level mouse hook closes the group when the
/// menu is shown and the window under the cursor is neither popup.
pub fn click_closes(code: i32, button_down: bool, parent: isize, under: isize, child: isize) -> (r: bool)
    ensures
        r == (code >= 0 && button_down && parent != 0 && under != parent && under != child),
{
    code >= 0 && button_down && parent != 0 && under != parent && under != child
}

/// Keeps a popup of `width` × `height` at (`x`, `y`) on a `screen_w` ×
/// `screen_h` screen: moved left/up when it would stick out, then not
/// above or left of the origin.
pub fn fit_to_screen(x: i32, y: i32, width: i32, height: i32, screen_w: i32, screen_h: i32) -> (r: (i32, i32))
    requires
        i32::MIN <= x + width <= i32::MAX,
        i32::MIN <= y + height <= i32::MAX,
        i32::MIN <= screen_w - width <= i32::MAX,
        i32::MIN <= screen_h - height <= i32::MAX,
    ensures
        ({
            let x1 = if x + width > screen_w {
                screen_w - width
            } else {
                x as int
            };
            let y1 = if y + height > screen_h {
                screen_h - height
            } else {
                y as int
            };
            &&& r.0 as int == if x1 < 0 {
                0
            } else {
                x1
            }
            &&& r.1 as int == if y1 < 0 {
                0
            } else {
                y1
            }
        }),
{
    let mut x = x;
    let mut y = y;
    if x + width > screen_w {
        x = screen_w - width;
    }
    if y + height > screen_h {
        y = screen_h - height;
    }
    if x < 0 {
        x = 0;
    }
    if y < 0 {
        y = 0;
    }
    (x, y)
}

/// The parent's x when its submenu of width `sub_w` opens: moved right to
/// leave the submenu room (at least `sub_w`), but not past
/// `screen_w - parent_width` (nor below 0 for that bound).
pub open spec fn submenu_parent_x(parent_x: int, parent_width: int, sub_w: int, screen_w: int) -> int {
    let max_x = if screen_w - parent_width > 0 {
        screen_w - parent_width
    } else {
        0
    };
    let lo = if parent_x > sub_w {
        parent_x
    } else {
        sub_w
    };
    if lo < max_x {
        lo
    } else {
        max_x
    }
}

/// Where a submenu of `sub_w` × `sub_h` opens, to the left of its parent:
/// the parent moves right if needed to leave room (`.0`, its new x), the
/// submenu's left edge is `.1` and its top `.2` (level with its item, kept on
/// screen).
pub fn submenu_origin(
    parent_x: i32,
    parent_y: i32,
    parent_width: i32,
    submenu_top: i32,
    sub_w: i32,
    sub_h: i32,
    screen_w: i32,
    screen_h: i32,
) -> (r: (i32, i32, i32))
    requires
        i32::MIN <= screen_w - parent_width <= i32::MAX,
        i32::MIN <= parent_y + submenu_top - 1 <= i32::MAX,
        i32::MIN <= screen_h - sub_h <= i32::MAX,
        i32::MIN <= submenu_parent_x(parent_x as int, parent_width as int, sub_w as int, screen_w as int) - sub_w
            <= i32::MAX,
    ensures
        ({
            let px = submenu_parent_x(parent_x as int, parent_width as int, sub_w as int, screen_w as int);
            let floor_y = if screen_h - sub_h > 0 {
                screen_h - sub_h
            } else {
                0
            };
            let sy = if parent_y + submenu_top - 1 < floor_y {
                parent_y + submenu_top - 1
            } else {
                floor_y
            };
            &&& r.0 as int == px
            &&& r.1 as int == px - sub_w
            &&& r.2 as int == sy
        }),
{
    let diff = screen_w - parent_width;
    let max_x = if diff > 0 {
        diff
    } else {
        0
    };
    let lo = if parent_x > sub_w {
        parent_x
    } else {
        sub_w
    };
    let px = if lo < max_x {
        lo
    } else {
        max_x
    };
    let below = screen_h - sub_h;
    let floor_y = if below > 0 {
        below
    } else {
        0
    };
    let want = ((parent_y as i64) + (submenu_top as i64) - 1) as i32;
    let sy = if want < floor_y {
        want
    } else {
        floor_y
    };
    (px, px - sub_w, sy)
}

} // verus!

verus! {

// ---------- BMP snapshot ----------

/// BITMAPFILEHEADER and BITMAPINFOHEADER of a bottom-up 32-bit BMP.
pub open spec fn bmp_header(width: int, height: int) -> Seq<u8> {
    let data = width * 4 * height;
    seq![66u8, 77u8] + crate::icon::le32(54 + data) + crate::icon::le16(0) + crate::icon::le16(0) + crate::icon::le32(54)
        + crate::icon::le32(40) + crate::icon::le32(width) + crate::icon::le32(height) + crate::icon::le16(1)
        + crate::icon::le16(32) + crate::icon::le32(0) + crate::icon::le32(data) + crate::icon::le32(0)
        + crate::icon::le32(0) + crate::icon::le32(0) + crate::icon::le32(0)
}

fn push_le16(out: &mut Vec<u8>, v: u16)
    ensures
        final(out)@ == old(out)@ + crate::icon::le16(v as int),
{
    out.push((v % 256) as u8);
    out.push((v / 256) as u8);
    proof {
        assert(final(out)@ =~= old(out)@ + crate::icon::le16(v as int));
    }
}

fn push_le32(out: &mut Vec<u8>, v: u32)
    ensures
        final(out)@ == old(out)@ + crate::icon::le32(v as int),
{
    out.push((v % 256) as u8);
    out.push(((v / 256) % 256) as u8);
    out.push(((v / 65536) % 256) as u8);
    out.push((v / 16777216) as u8);
    proof {
        assert(final(out)@ =~= old(out)@ + crate::icon::le32(v as int));
    }
}

fn bmp_header_bytes(w: u32, h: u32, data_len: u32) -> (buf: Vec<u8>)
    requires
        54 + data_len <= u32::MAX,
    ensures
        buf@ == bmp_header_of(w as int, h as int, data_len as int),
{
    let mut buf: Vec<u8> = Vec::new();
    buf.push(66);
    buf.push(77);
    push_le32(&mut buf, 54 + data_len);
    push_le16(&mut buf, 0);
    push_le16(&mut buf, 0);
    push_le32(&mut buf, 54);
    push_le32(&mut buf, 40);
    push_le32(&mut buf, w);
    push_le32(&mut buf, h);
    push_le16(&mut buf, 1);
    push_le16(&mut buf, 32);
    push_le32(&mut buf, 0);
    push_le32(&mut buf, data_len);
    push_le32(&mut buf, 0);
    push_le32(&mut buf, 0);
    push_le32(&mut buf, 0);
    push_le32(&mut buf, 0);
    proof {
        assert(buf@ =~= bmp_header_of(w as int, h as int, data_len as int));
    }
    buf
}

spec fn bmp_header_of(width: int, height: int, data: int) -> Seq<u8> {
    seq![66u8, 77u8] + crate::icon::le32(54 + data) + crate::icon::le16(0) + crate::icon::le16(0) + crate::icon::le32(54)
        + crate::icon::le32(40) + crate::icon::le32(width) + crate::icon::le32(height) + crate::icon::le16(1)
        + crate::icon::le16(32) + crate::icon::le32(0) + crate::icon::le32(data) + crate::icon::le32(0)
        + crate::icon::le32(0) + crate::icon::le32(0) + crate::icon::le32(0)
}

/// Appends `src[start..start + len]`.
fn push_slice(buf: &mut Vec<u8>, src: &Vec<u8>, start: usize, len: usize)
    requires
        start + len <= src@.len(),
    ensures
        final(buf)@ == old(buf)@ + src@.subrange(start as int, start + len),
{
    let mut c: usize = 0;
    while c < len
        invariant
            start + len <= src@.len(),
            src@.len() == src.len(),
            c <= len,
            buf@ == old(buf)@ + src@.subrange(start as int, start + c),
        decreases len - c,
    {
        buf.push(src[start + c]);
        proof {
            assert(src@.subrange(start as int, start + c + 1) == src@.subrange(start as int, start + c).push(
                src@[start + c],
            ));
        }
        c = c + 1;
    }
}

proof fn lemma_row_index(k: int, c: int, n: int, row: int)
    requires
        0 <= k < n,
        0 <= c < row,
    ensures
        0 <= k * row + c < n * row,
        k * row + c < (k + 1) * row,
        k * row <= k * row + c,
{
    assert(k * row + c < (k + 1) * row) by (nonlinear_arith)
        requires
            0 <= c < row,
    ;
    assert((k + 1) * row <= n * row) by (nonlinear_arith)
        requires
            k + 1 <= n,
            0 < row,
    ;
    assert(0 <= k * row) by (nonlinear_arith)
        requires
            0 <= k,
            0 < row,
    ;
}

proof fn lemma_row_start(r: int, h: int, row: int)
    requires
        0 <= r < h,
        0 <= row,
    ensures
        0 <= r * row,
        r * row + row == (r + 1) * row,
        (r + 1) * row <= row * h,
{
    assert(r * row + row == (r + 1) * row) by (nonlinear_arith);
    assert((r + 1) * row <= row * h) by (nonlinear_arith)
        requires
            r + 1 <= h,
            0 <= row,
    ;
    assert(0 <= r * row) by (nonlinear_arith)
        requires
            0 <= r,
            0 <= row,
    ;
}

proof fn lemma_rows_step(
    before: Seq<u8>,
    after: Seq<u8>,
    topdown: Seq<u8>,
    out_row: int,
    h: int,
    row: int,
    header: Seq<u8>,
)
    requires
        0 <= out_row < h,
        0 <= row,
        header.len() == 54,
        before.len() == 54 + out_row * row,
        before.subrange(0, 54) == header,
        (h - 1 - out_row) * row + row <= topdown.len(),
        0 <= (h - 1 - out_row) * row,
        after == before + topdown.subrange((h - 1 - out_row) * row, (h - 1 - out_row) * row + row),
        forall|k: int, c: int|
            0 <= k < out_row && 0 <= c < row ==> before[54 + k * row + c] == #[trigger] topdown[(h - 1 - k) * row
                + c],
    ensures
        after.len() == 54 + (out_row + 1) * row,
        after.subrange(0, 54) == header,
        forall|k: int, c: int|
            0 <= k < out_row + 1 && 0 <= c < row ==> after[54 + k * row + c] == #[trigger] topdown[(h - 1 - k) * row
                + c],
{
    let r = h - 1 - out_row;
    assert(after.len() == 54 + (out_row + 1) * row) by (nonlinear_arith)
        requires
            after.len() == before.len() + row,
            before.len() == 54 + out_row * row,
    ;
    assert(after.subrange(0, 54) =~= before.subrange(0, 54));
    assert forall|k: int, c: int| 0 <= k < out_row + 1 && 0 <= c < row implies after[54 + k * row + c]
        == #[trigger] topdown[(h - 1 - k) * row + c] by {
        if k < out_row {
            lemma_row_index(k, c, out_row, row);
            assert(after[54 + k * row + c] == before[54 + k * row + c]);
        } else {
            assert(54 + k * row + c == before.len() + c);
            assert(after[before.len() + c] == topdown[r * row + c]);
        }
    }
}

proof fn lemma_rows_final(buf: Seq<u8>, topdown: Seq<u8>, h: int, row: int, width: int, height: int)
    requires
        row == width * 4,
        h == height,
        forall|k: int, c: int|
            0 <= k < h && 0 <= c < row ==> buf[54 + k * row + c] == #[trigger] topdown[(h - 1 - k) * row + c],
    ensures
        forall|r: int, c: int|
            0 <= r < height && 0 <= c < width * 4 ==> buf[54 + (height - 1 - r) * (width * 4) + c]
                == #[trigger] topdown[r * (width * 4) + c],
{
    assert forall|r: int, c: int| 0 <= r < height && 0 <= c < width * 4 implies buf[54 + (height - 1 - r) * (width
        * 4) + c] == #[trigger] topdown[r * (width * 4) + c] by {
        let k = h - 1 - r;
        assert(h - 1 - k == r);
        assert(buf[54 + k * row + c] == topdown[(h - 1 - k) * row + c]);
    }
}

/// The BMP file of a 32-bit BGRA picture given top row first: the headers,
/// then the rows bottom to top.
#[verifier::rlimit(40)]
#[verifier::spinoff_prover]
pub fn bmp_bytes(width: i32, height: i32, topdown: &Vec<u8>) -> (bmp: Vec<u8>)
    requires
        0 <= width,
        0 <= height,
        width * 4 <= u32::MAX,
        54 + width * 4 * height <= u32::MAX,
        topdown@.len() >= width * 4 * height,
    ensures
        bmp@.len() == 54 + width * 4 * height,
        bmp@.subrange(0, 54) == bmp_header(width as int, height as int),
        forall|r: int, c: int|
            0 <= r < height && 0 <= c < width * 4 ==> bmp@[54 + (height - 1 - r) * (width * 4) + c]
                == #[trigger] topdown@[r * (width * 4) + c],
{
    let w = width as u32;
    let h = height as u32;
    let row = w * 4;
    proof {
        assert(row as int * h as int == width * 4 * height) by (nonlinear_arith)
            requires
                row as int == width * 4,
                h as int == height,
        ;
    }
    let data_len = row * h;
    let mut buf = bmp_header_bytes(w, h, data_len);
    let ghost header = buf@;
    let mut out_row: u32 = 0;
    while out_row < h
        invariant
            row as int == width * 4,
            h as int == height,
            data_len as int == row as int * h as int,
            topdown@.len() >= row as int * h as int,
            row as int * h as int <= u32::MAX,
            header.len() == 54,
            out_row <= h,
            buf@.len() == 54 + out_row as int * row as int,
            buf@.subrange(0, 54) == header,
            forall|k: int, c: int|
                0 <= k < out_row && 0 <= c < row ==> buf@[54 + k * row + c] == #[trigger] topdown@[(h - 1 - k) * row
                    + c],
        decreases h - out_row,
    {
        let r = h - 1 - out_row;
        let ghost before = buf@;
        proof {
            lemma_row_start(r as int, h as int, row as int);
        }
        let start = r * row;
        push_slice(&mut buf, topdown, start as usize, row as usize);
        proof {
            lemma_rows_step(before, buf@, topdown@, out_row as int, h as int, row as int, header);
        }
        out_row = out_row + 1;
    }
    proof {
        lemma_rows_final(buf@, topdown@, h as int, row as int, width as int, height as int);
        assert(buf@.len() == 54 + width * 4 * height) by (nonlinear_arith)
            requires
                buf@.len() == 54 + out_row as int * row as int,
                out_row == h,
                row as int == width * 4,
                h as int == height,
        ;
    }
    buf
}

} // verus!
