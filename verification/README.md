# omoya

The decision-making core of a small Wayland compositor, written in Verus and
verified against its contracts.

- `src/` — the library. Each module is plain logic over plain values:
  damage refinement (`truedamage`), stale-pixel detection (`stale`), plane
  routing (`rouka`), window modes and tab groups (`windowmode`), the tiling
  tree and layout geometry (`layout`), snapping and placement (`snap`,
  `placement`), layer-shell stacking (`layers`), the rolling refresh
  (`wash`), keyboard intake policy and remaps (`ukeire`, `remap`), synthetic
  input (`synth`), the xkbcommon-shaped keymap facade (`xkb`), shared-memory
  pixel import (`pixels`), the udev monitor decoder (`uevent`), the zone-file
  reader (`localtime`), the command line (`args`) and the session decisions
  (`session`). Calls into outside crates (`hairetsu`, `xkeysym`, `awase`,
  `kukaku`) sit behind small trusted wrappers whose contracts say what those
  crates do.
- `tests/` — runtime tests of the library.
- `app/` — the binary around it: reading the arguments, the environment, the
  zone file and the device directory, the serde forms of the intake policy,
  the float-valued placement, scroll and colour settings, and the table from
  layout ids to the seat's window handles.
