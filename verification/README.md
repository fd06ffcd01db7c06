# CASPER Shot, verified core

CASPER Shot is a tray-resident screenshot tool for Windows: two global
hotkeys (the monitor under the cursor, or a region picked with the mouse),
WebP files sorted into `YYYY-MM` folders, a short preview after each
capture, and a JSON settings file next to the program.

- `src/` is the library, checked by Verus: the JSON reader and writer of
  the settings (`json`, `decimal`, `state`), the expansion of the save path
  (`expand`), capture file names (`filename`), hotkey specifications
  (`hotkey`), pixel buffers (`capture`), and the state and geometry of the
  on-screen parts (`geometry`, `overlay`, `menu`, `preview`, `tray`, `webp`).
  Each public function states its result in its `ensures`; the `lemma_*`
  proof functions state the properties that hold across calls, such as
  reading back the settings file that was written.
- `app/` is the Windows program around it: windows, GDI, the clipboard,
  the tray icon, the WebP DLL, files and the environment, and the size of
  the preview, whose scale is computed in single-precision floating point.
- `tests/` runs the library on concrete cases.
