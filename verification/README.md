# g13_gui

The configuration window of a Logitech G13 driver, as a library whose behaviour is proved with Verus: it edits
the pad's applets, menu, macros, themes, named values and bindings as the files' own JSON, so that every key a
file has survives an edit, and it packs an applet with everything it needs into one file and reads one back.

- `src/json.rs`: the files' JSON, with `serde_json` reading and writing the text.
- `src/text.rs`: comparing, trimming, ordering and writing text, stated over characters.
- `src/bundle.rs`, `src/bundle/`: packing an applet up, reading a bundle back, and what importing one would change.
- `src/macros/`: conditions and the editor's form of them, a macro's graph of boxes, and editing its steps and boxes.
- `src/state/`: the window's tabs - designing an applet's screens and widgets, its alerts and fields, its
  sources and the values it reads, the menu, themes, pictures, bindings, and what the window says about the pad.
- `src/live.rs`: what the running driver publishes.
- `tests/`: the behaviour on concrete files and values.
- `app/`: reading and writing the files on disk, the driver's state file, and starting and stopping the driver.

Each public function states what it returns or changes in `ensures`; the laws that tie several together (a
bundle reads back as it was written, a source added and removed leaves the applet as it was, an edit to one field
keeps every other key, a token never travels) are public proof functions beside them.
