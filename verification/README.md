# Screen stripe generator

A Windows toy that paints fake "broken screen" hairlines over marked regions
of the desktop. The logic is a Verus-verified library; the window-system glue
is plain Rust.

## Layout

- `src/` — the verified library (crate `lib`):
  - `model.rs`: the xorshift random source (state never zero), the hairline
    layout rule (`layout`, `build_lines`), marked regions and their boxes.
  - `layer.rs`: the overlay model — lines per region, choice of flickering
    lines, the flicker tick (no region ever goes dark), brushes and the paint plan.
  - `selector.rs`: the selection mask — sampled traces, loops becoming regions,
    guide lines and labels.
  - `app.rs`: the control panel — hit testing, button actions, boss-key capture,
    panel texts and the self-test hooks.
  - `disclaimer.rs`: the startup disclaimer — only an explicit agreement goes on.
  - `cli.rs`: command-line options.
  - `win.rs`, `text.rs`: colours, rectangles, mouse coordinates, UTF-16 and
    number formatting.
- `app/` — the program: window classes, message handlers, GDI drawing, the
  clock and logging. Every decision it acts on comes from `src/`.
- `tests/` — tests of the library on concrete values.

Contracts are stated over spec functions (`layout`, `ticked`, `picked_exactly`,
`restriped`, `hit_at`, ...); the laws of the library stand as public proof
functions (`lemma_region_never_dark`, `lemma_steady_lines_stay_lit`,
`lemma_quiet_counts`, `lemma_same_sizes_same_total`, `lemma_layout_shape`,
`lemma_hit_exact`, ...), and the overlay invariant `layer_ok` says that with
flicker off every line is lit. Laws over any run of overlay operations are
stated with `LayerCall`, `applied` and `session` (`lemma_session_consistent`,
`lemma_session_visible_lines`, `lemma_session_total_lines`,
`lemma_session_capture`).
