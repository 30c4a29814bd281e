# bt_battery_tray

Battery levels of connected Bluetooth devices in the Windows notification
area: a tray icon drawn from the level of a chosen target device (or the lowest
level), a tooltip listing every device, a low-battery notification, and a
hand-painted popup menu in three languages with a dark and a light theme.

## Layout

- `src/` — the library, verified with Verus.
  - `battery.rs` — device nodes as the system reports them (instance IDs,
    status, raw battery and name properties), address extraction, merging of
    the nodes of one device, the connected-address filter and the stable sort
    by name; the property-read protocol of CfgMgr32.
  - `icon.rs` — the 32×32 battery pixels and the ICO file that carries them.
  - `menu.rs` — settings values, texts, menu items, layout and hit testing,
    the state of a popup window and the decisions of the menu loop, the
    anti-aliased submenu arrow, the BMP snapshot.
  - `tray.rs` — the shown level, the tooltip (cut, on a character boundary, only where it would not fit
    the shell's 128-unit buffer), what
    a refresh remembers and when it warns, the command-line modes and the
    decisions of the application loop.
  - `text.rs` — character helpers: ASCII case folding, decimal and
    hexadecimal digits, UTF-16 encoding and lossy decoding, trimming, string
    order.
- `app/` — the Windows program around the library: registry, CfgMgr32 and
  WinRT queries, windows, hooks, GDI painting, the message loops.
- `tests/` — tests of the library on concrete values.
