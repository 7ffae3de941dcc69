# delog_app

The decisions of a viewer for flight logs, verified with Verus. The library holds
no window, no file and no connection: it takes plain values, says what is to be
done, and states in its contracts what that is.

- Plots and maps: `gpu`, `legend`, `hover`, `map_tiles`, `map_residency`,
  `map_laws`, `map_arrivals`, `field_stats`, `generate_markers`, `diagnostics`, `layers`
- Data-flow editor: `graph`, `registry`, `picker`, `fuzzy`, `add_menu`, `canvas`,
  `canvas_state`, `inspector`, `controller`, `edit_laws`, `editor`, `window`,
  `headless`, `store`
- What is kept and exported: `layout`, `layout_doc`, `layout_resolve`,
  `layout_save`, `layout_load`, `layout_laws`, `image_export`, `kml_export`,
  `live`
- What these rest on: `snapshot`, `text`, `order`, `bits`, `calendar`, `paths`

Floating point numbers are held as bit patterns; arithmetic on them is done by
the program. Laws that relate several functions are public proof functions; they
stand beside the functions they speak of, or in `map_laws`, `map_arrivals`,
`edit_laws` and `layout_laws`.

`app/` is the program: windows drawn with egui, files, and the seam to the store
of the data and the evaluator of graphs (`app/engine.rs`). With `--flow NAME` it
runs a stored graph without a window.
