//! Layout engine: proportion plans, two-stage guillotine packing, layout search and the
//! SVG preview of a sheet.

pub mod guillotine;
pub mod lane_split;
pub mod layout_search;
pub mod layout_split;
pub mod proportion;
pub mod render;
pub mod request;
pub mod search;
pub mod sorting;
pub mod text;
pub mod two_stage;

pub use guillotine::{
    OrderSeed, PackInstance, PackMode, PackOptions, PackResult, PlacedRect, SkuRow, expand_instances,
    pack_multi_stage, sort_instances, total_placed_area, trivial_area_feasible,
    verify_two_stage, verify_two_stage_hv, verify_two_stage_vh,
};
pub use layout_search::{
    LayoutSolution, ProductSpec, SolveError, SolveOptions, solve_layout, try_solve_layout,
};
pub use proportion::{
    CountPlan, ProportionError, ProportionPattern, area_k_cap, ceil_div_pos,
    compute_proportion_pattern, count_plans_fit, counts_for_k, enumerate_count_plans, gcd,
    gcd_many, overproduction_fits, pages_for_k, total_overproduction,
};
pub use render::{SheetLocale, escape_xml, render_layout_svg, sheet_preview_title};
pub use request::{RequestError, per_page_summary, solve_request, validate_request};
