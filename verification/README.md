# kinetix

A tiling engine for KDE Plasma, with its logic verified by Verus.

- `src/` is the verified library:
  - `state` — window geometry and the bookkeeping of managed windows
    (which windows are tiled, registration, geometry updates);
  - `engine` — the engine itself (`Engine`: from window-system events to
    the areas to send, each recorded with `commit_geometry` once it has
    been sent), the layouts (`engine::layouts`: dwindle,
    master-stack, floating), the binary split tree (`engine::tree`) and
    drop-zone detection (`engine::drag_detect`);
  - `backend` — the window and event types, the `WM_CLASS` parsing and
    the management rules of the X11 backend, and the reading of the
    overlay requests that the KWin script sends;
  - `overlay` — pixel values, border shape and the show/hide state machine
    of the drag-preview overlay;
  - `startup` — the root check and the choice of backend;
  - `config`, `text` — settings and string helpers.
  Every function that can overflow has a companion `…_check`/`…_fits`
  function that tells exactly whether its precondition holds.
- `app/` is the daemon around it: command line, logging, D-Bus, X11,
  the KWin script and the overlay window.
- `tests/` exercises the library on concrete values.

Ratios (master width, swap zone) are kept in thousandths in the library;
the command line takes them as fractions.
