# dwm

A dynamic tiling window manager for X11, its Wayland counterpart's window
logic, and a dmenu-style menu, with their logic written in Verus and proved
against contracts.

- `src/wm/`: the X11 window manager's state (clients, monitors, their
  client and stack lists), the layouts, focus, the actions bound to keys and
  buttons, window management, size hints, the screen geometry updates, the
  bar's layout and the pointer drags. Every operation keeps the state's
  invariant.
- `src/wl.rs`, `src/wl/`: the Wayland compositor's window logic: monitors,
  tags, layouts, size hints, rules, the bar's layout and the key table.
- `src/menu/`: the menu: matching, paging, key handling, argument and
  colour parsing, and the drawing operations of a frame.
- `src/laws.rs`: properties that relate several operations.
- `app/`: the programs around the library: the X11 connection and event
  loop, and the Wayland menu client.
