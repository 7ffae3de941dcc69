//! The decisions of a log viewer: which data is shown and how, what the
//! data-flow editor does, and what is kept of the workspace. Windows, files and
//! the graphics card are left to the program around it.

pub mod add_menu;
pub mod bits;
pub mod calendar;
pub mod canvas;
pub mod canvas_laws;
pub mod canvas_state;
pub mod controller;
pub mod diagnostics;
pub mod edit_laws;
pub mod editor;
pub mod field_stats;
pub mod flow_laws;
pub mod form_laws;
pub mod fuzzy;
pub mod generate_markers;
pub mod gpu;
pub mod gpu_laws;
pub mod graph;
pub mod headless;
pub mod hover;
pub mod image_export;
pub mod inspector;
pub mod kml_export;
pub mod kml_laws;
pub mod layers;
pub mod layout;
pub mod layout_doc;
pub mod layout_laws;
pub mod layout_found;
pub mod layout_load;
pub mod layout_parts;
pub mod layout_resolve;
pub mod layout_save;
pub mod legend;
pub mod live;
pub mod map_arrivals;
pub mod map_laws;
pub mod map_priority;
pub mod map_residency;
pub mod map_tiles;
pub mod map_upkeep;
pub mod order;
pub mod panel_laws;
pub mod paths;
pub mod picker;
pub mod registry;
pub mod search_laws;
pub mod snapshot;
pub mod store;
pub mod text;
pub mod time_laws;
pub mod window;
pub mod window_laws;
