# wsl-tray

A tray indicator for WSL2: whether its virtual machine runs, its CPU and memory share of the host,
and a menu to shut it down.

The logic is a verified library. Every function in `src/` has a contract that Verus proves, but for
the three trusted ones named below.

| Module | What it decides |
|---|---|
| `double` | double-precision arithmetic: the nearest double, where it is exact, its order and its error |
| `monitor`, `snapshot`, `status`, `percent` | when to look for the VM, how to read the process list, what the numbers are |
| `icon`, `resample`, `tux`, `png`, `gallery` | the level of a status, the icon's pixels, the mask file, PNG export |
| `glyph` | the mask from an SVG glyph: path data, holes, thickened strokes |
| `settings`, `template` | the colour thresholds, where they are kept, the dialog that edits them |
| `tray`, `registry`, `shutdown` | messages, menu, promotion, autostart, `wsl --shutdown` |
| `options`, `duration`, `digits`, `argv` | the command line, and how one is written for a new process |
| `display`, `log`, `text`, `utf16` | the texts |

Percentages, averages and durations are computed in double precision, with every rounding stated:
`double` does IEEE 754 arithmetic on integers and proves how far it can be off.

`app/` is the program around the library: window, registry, GDI and process calls through
`windows-sys`, and the rasterizer (`tiny-skia`) that the glyph mask is made with. It needs
`assets/tux.bin` beside the executable; started under the name `gentux-rs`, the program makes that
file from `linux.svg`.

Trusted without proof are three functions of the standard library: `String::push`,
`char::from_u32` and `char::to_lowercase`.
