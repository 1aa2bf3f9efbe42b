//! A retained user-interface document, the languages that describe one, and the rules that
//! keep it live: every edit is a logged mutation, every view is computed from the document.
pub mod a11y;
pub mod a11y_law;
pub mod act_law;
pub mod animation;
pub mod audit;
pub mod blur;
pub mod canvas;
pub mod coherence;
pub mod coherence_law;
pub mod color;
pub mod diff;
pub mod diff_law;
pub mod dsl;
pub mod dsl_law;
pub mod dsl_syntax;
pub mod dsl_token;
pub mod dsl_tree_law;
pub mod edit_law;
pub mod env;
pub mod expr;
pub mod expr_law;
pub mod float;
pub mod float_law;
pub mod flutter_import;
pub mod flutter_tree_law;
pub mod frame;
pub mod frame_law;
pub mod gesture;
pub mod gesture_law;
pub mod grow_law;
pub mod host;
pub mod id_set;
pub mod image_law;
pub mod input;
pub mod ir;
pub mod ir_law;
pub mod layout;
pub mod layout_law;
pub mod live_law;
pub mod lowering;
pub mod lowering_law;
pub mod markup_law;
pub mod meaning_law;
pub mod motion;
pub mod motion_law;
pub mod node;
pub mod paint;
pub mod paint_law;
pub mod pixel_law;
pub mod panel_law;
pub mod place_law;
pub mod png;
pub mod react;
pub mod react_law;
pub mod reading_law;
pub mod renderer;
pub mod resolve;
pub mod resolve_law;
pub mod runtime;
pub mod runtime_law;
pub mod same_law;
pub mod scan;
pub mod scene;
pub mod session;
pub mod shape_law;
pub mod slint_import;
pub mod slint_law;
pub mod slint_tree_law;
pub mod source_law;
pub mod store;
pub mod store_law;
pub mod style_law;
pub mod swiftui_import;
pub mod swiftui_law;
pub mod swiftui_tree_law;
pub mod text;
pub mod text_law;
pub mod text_map;
pub mod tick_law;
pub mod token_law;
pub mod touch;
pub mod undo;
pub mod utf8;
pub mod value;
pub mod walk;
pub mod window;
pub mod wire;
