use layout_rs::{
    expand_instances, pack_multi_stage, sort_instances, total_placed_area, trivial_area_feasible,
    verify_two_stage, verify_two_stage_hv, verify_two_stage_vh, OrderSeed, PackInstance, PackMode,
    PackOptions, PlacedRect, SkuRow,
};

fn rect(x: i32, y: i32, w: i32, h: i32, id: &str) -> PlacedRect {
    PlacedRect { x, y, w, h, product_id: id.into(), rotated: false }
}

fn inst(id: &str, w: i32, h: i32) -> PackInstance {
    PackInstance { product_id: id.into(), w, h, allow_rotation: None }
}

#[test]
fn two_stage_checks() {
    // two columns: [0,10) with two stacked items, [10,15) with one
    let cols = vec![rect(0, 0, 10, 5, "a"), rect(0, 5, 10, 5, "a"), rect(10, 0, 5, 7, "b")];
    assert!(verify_two_stage_vh(&cols, 20, 10));
    assert!(verify_two_stage(&cols, 20, 10));
    assert!(!verify_two_stage_hv(&cols, 20, 10));
    // a gap inside a column breaks the V-H form
    let gap = vec![rect(0, 0, 10, 5, "a"), rect(0, 6, 10, 4, "a")];
    assert!(!verify_two_stage_vh(&gap, 20, 10));
    // overlap and leaving the sheet
    let overlap = vec![rect(0, 0, 10, 5, "a"), rect(5, 0, 10, 5, "b")];
    assert!(!verify_two_stage(&overlap, 20, 10));
    assert!(!verify_two_stage(&[rect(0, 0, 30, 5, "a")], 20, 10));
    // rows
    let rows = vec![rect(0, 0, 5, 4, "a"), rect(5, 0, 6, 4, "b"), rect(0, 4, 3, 2, "c")];
    assert!(verify_two_stage_hv(&rows, 20, 10));
    assert!(verify_two_stage(&[], 1, 1));
}

#[test]
fn area_feasibility() {
    assert!(trivial_area_feasible(&[inst("a", 5, 5), inst("b", 5, 5)], 10, 5));
    assert!(!trivial_area_feasible(&[inst("a", 5, 5), inst("b", 5, 6)], 10, 5));
    assert!(trivial_area_feasible(&[], 0, 0));
}

#[test]
fn total_area() {
    assert_eq!(total_placed_area(&[rect(0, 0, 3, 4, "a"), rect(3, 0, 2, 2, "b")]), 16);
    assert_eq!(total_placed_area(&[]), 0);
}

#[test]
fn expansion_repeats_rows() {
    let out = expand_instances(&[
        SkuRow { id: "a".into(), w: 1, h: 2, count: 2, allow_rotation: Some(false) },
        SkuRow { id: "b".into(), w: 3, h: 4, count: 0, allow_rotation: None },
        SkuRow { id: "c".into(), w: 5, h: 6, count: 1, allow_rotation: None },
    ]);
    let ids: Vec<&str> = out.iter().map(|i| i.product_id.as_str()).collect();
    assert_eq!(ids, vec!["a", "a", "c"]);
    assert_eq!(out[0].allow_rotation, Some(false));
    assert_eq!((out[2].w, out[2].h), (5, 6));
}

#[test]
fn orderings() {
    let items = vec![inst("b", 2, 2), inst("a", 3, 1), inst("c", 1, 5), inst("a", 2, 2)];
    let ids = |v: &Vec<PackInstance>| v.iter().map(|i| format!("{}{}{}", i.product_id, i.w, i.h)).collect::<Vec<_>>();
    assert_eq!(ids(&sort_instances(&items, OrderSeed::Default)), vec!["b22", "a31", "c15", "a22"]);
    assert_eq!(ids(&sort_instances(&items, OrderSeed::AreaDesc)), vec!["c15", "a22", "b22", "a31"]);
    assert_eq!(ids(&sort_instances(&items, OrderSeed::AreaAsc)), vec!["a31", "a22", "b22", "c15"]);
    assert_eq!(ids(&sort_instances(&items, OrderSeed::WidthDesc)), vec!["a31", "a22", "b22", "c15"]);
    assert_eq!(ids(&sort_instances(&items, OrderSeed::HeightDesc)), vec!["c15", "a22", "b22", "a31"]);
    assert_eq!(ids(&sort_instances(&items, OrderSeed::ProductId)), vec!["a31", "a22", "b22", "c15"]);
}

#[test]
fn pack_results_are_valid_distinct_and_ranked() {
    let inst = expand_instances(&[
        SkuRow { id: "a".into(), w: 30, h: 20, count: 3, allow_rotation: None },
        SkuRow { id: "b".into(), w: 20, h: 20, count: 2, allow_rotation: None },
    ]);
    let packs = pack_multi_stage(100, 60, &inst, &PackOptions::default());
    assert!(!packs.is_empty());
    for (i, p) in packs.iter().enumerate() {
        assert_eq!(p.rects.len(), 5);
        assert_eq!(p.sheet_area, 6000);
        assert_eq!(p.placed_area, total_placed_area(&p.rects) as i128);
        match p.mode {
            PackMode::Vh => assert!(verify_two_stage_vh(&p.rects, 100, 60)),
            PackMode::Hv => assert!(verify_two_stage_hv(&p.rects, 100, 60)),
        }
        if i > 0 {
            assert!(packs[i - 1].placed_area >= p.placed_area);
        }
        for q in packs.iter().skip(i + 1) {
            let mut a: Vec<String> = p.rects.iter().map(|r| format!("{:?}", (r.x, r.y, r.w, r.h, &r.product_id, r.rotated))).collect();
            let mut b: Vec<String> = q.rects.iter().map(|r| format!("{:?}", (r.x, r.y, r.w, r.h, &r.product_id, r.rotated))).collect();
            a.sort();
            b.sort();
            assert_ne!(a, b);
        }
    }
}

#[test]
fn nothing_fits() {
    let inst = expand_instances(&[SkuRow { id: "a".into(), w: 50, h: 50, count: 1, allow_rotation: None }]);
    assert!(pack_multi_stage(40, 40, &inst, &PackOptions::default()).is_empty());
    let no_rot = PackOptions { max_solutions: 8, seeds: &[], allow_rotation: false };
    let wide = expand_instances(&[SkuRow { id: "a".into(), w: 40, h: 30, count: 1, allow_rotation: None }]);
    assert!(pack_multi_stage(30, 40, &wide, &no_rot).is_empty());
}

#[test]
fn mode_names() {
    assert_eq!(PackMode::Vh.as_str(), "VH");
    assert_eq!(PackMode::Hv.as_str(), "HV");
}

#[test]
fn many_items_use_greedy_search() {
    let inst = expand_instances(&[SkuRow { id: "s".into(), w: 10, h: 10, count: 20, allow_rotation: None }]);
    let packs = pack_multi_stage(50, 40, &inst, &PackOptions::default());
    assert!(!packs.is_empty());
    assert!(verify_two_stage(&packs[0].rects, 50, 40));
    assert_eq!(total_placed_area(&packs[0].rects), 2000);
}

#[test]
fn packings_place_every_instance_with_its_area() {
    let inst = expand_instances(&[
        SkuRow { id: "a".into(), w: 30, h: 20, count: 2, allow_rotation: Some(false) },
        SkuRow { id: "b".into(), w: 10, h: 40, count: 3, allow_rotation: None },
    ]);
    let total: i64 = inst.iter().map(|i| i.w as i64 * i.h as i64).sum();
    let packs = pack_multi_stage(60, 60, &inst, &PackOptions::default());
    assert!(!packs.is_empty());
    assert!(trivial_area_feasible(&inst, 60, 60));
    for p in &packs {
        assert_eq!(p.rects.len(), inst.len());
        assert_eq!(total_placed_area(&p.rects), total);
        assert!(p.placed_area <= p.sheet_area as i128);
        for r in &p.rects {
            if r.product_id == "a" {
                assert!(!r.rotated);
                assert_eq!((r.w, r.h), (30, 20));
            } else if r.rotated {
                assert_eq!((r.w, r.h), (40, 10));
            } else {
                assert_eq!((r.w, r.h), (10, 40));
            }
        }
    }
}

#[test]
fn huge_instances_sort_and_pack() {
    let big = vec![inst("b", 100_000, 100_000), inst("a", 50_000, 50_000)];
    let asc = sort_instances(&big, OrderSeed::AreaAsc);
    assert_eq!(asc[0].product_id, "a");
    let desc = sort_instances(&big, OrderSeed::AreaDesc);
    assert_eq!(desc[0].product_id, "b");
    let one = vec![inst("a", 50_000, 50_000)];
    let packs = pack_multi_stage(60_000, 60_000, &one, &PackOptions::default());
    assert!(!packs.is_empty());
    assert_eq!(packs[0].rects.len(), 1);
    assert!(pack_multi_stage(10, 10, &one, &PackOptions::default()).is_empty());
}

#[test]
fn search_stops_after_max_solutions() {
    let inst = expand_instances(&[
        SkuRow { id: "a".into(), w: 30, h: 20, count: 3, allow_rotation: None },
        SkuRow { id: "b".into(), w: 20, h: 20, count: 2, allow_rotation: None },
    ]);
    let one = PackOptions { max_solutions: 1, seeds: &[], allow_rotation: true };
    let packs = pack_multi_stage(100, 60, &inst, &one);
    assert!(!packs.is_empty());
    assert!(packs.len() <= 2);
    let all = pack_multi_stage(100, 60, &inst, &PackOptions::default());
    assert!(all.len() <= 9);
    assert!(all.len() <= 12);
}

#[test]
fn new_lane_needs_room_on_both_axes() {
    let one = vec![inst("a", 10, 30)];
    let packs = pack_multi_stage(30, 10, &one, &PackOptions::default());
    assert!(!packs.is_empty());
    for p in &packs {
        assert_eq!(p.rects.len(), 1);
        let r = &p.rects[0];
        assert!(r.rotated);
        assert_eq!((r.x, r.y, r.w, r.h), (0, 0, 30, 10));
    }
    let fixed = vec![PackInstance { product_id: "a".into(), w: 10, h: 30, allow_rotation: Some(false) }];
    assert!(pack_multi_stage(30, 10, &fixed, &PackOptions::default()).is_empty());
}

fn swapped(i: &PackInstance) -> PackInstance {
    PackInstance { product_id: i.product_id.clone(), w: i.h, h: i.w, allow_rotation: i.allow_rotation }
}

fn key(r: &PlacedRect) -> (i32, i32, i32, i32, String, bool) {
    (r.x, r.y, r.w, r.h, r.product_id.clone(), r.rotated)
}

#[test]
fn row_search_mirrors_column_search() {
    let items = vec![inst("a", 10, 30), inst("b", 20, 10), inst("c", 10, 10)];
    let sw: Vec<PackInstance> = items.iter().map(swapped).collect();
    for use_dfs in [true, false] {
        let rows = layout_rs::search::search_exec(&items, true, use_dfs, true, 40, 50).expect("rows");
        let cols = layout_rs::search::search_exec(&sw, false, use_dfs, true, 40, 50).expect("columns");
        let mirrored: Vec<_> = cols
            .iter()
            .map(|r| (r.y, r.x, r.h, r.w, r.product_id.clone(), r.rotated))
            .collect();
        let got: Vec<_> = rows.iter().map(key).collect();
        assert_eq!(got, mirrored);
        assert!(verify_two_stage_hv(&rows, 50, 40));
    }
}

#[test]
fn greedy_packing_is_also_the_depth_first_packing() {
    let items = vec![inst("a", 30, 20), inst("a", 30, 20), inst("b", 20, 20)];
    let g = layout_rs::search::search_exec(&items, false, false, true, 60, 40).expect("greedy");
    let d = layout_rs::search::search_exec(&items, false, true, true, 60, 40).expect("dfs");
    assert_eq!(g.iter().map(key).collect::<Vec<_>>(), d.iter().map(key).collect::<Vec<_>>());
    for r in &g {
        assert!(r.x >= 0 && r.y >= 0 && r.x + r.w <= 60 && r.y + r.h <= 40);
    }
    assert!(verify_two_stage_vh(&g, 60, 40));
}

#[test]
fn packing_found_when_the_items_split_into_columns() {
    // Columns: X turned (30 wide) holding X and Y, then Z (10 wide); 40 <= 50 and each
    // column's items stack to at most 20.
    let items = vec![
        inst("X", 10, 30),
        PackInstance { product_id: "Y".into(), w: 30, h: 10, allow_rotation: Some(false) },
        PackInstance { product_id: "Z".into(), w: 10, h: 20, allow_rotation: Some(false) },
    ];
    let packs = pack_multi_stage(50, 20, &items, &PackOptions::default());
    assert!(!packs.is_empty());
    for p in &packs {
        assert_eq!(p.rects.len(), 3);
        assert_eq!(total_placed_area(&p.rects), 800);
        assert!(verify_two_stage(&p.rects, 50, 20));
    }
}

#[test]
fn greedy_search_can_miss_a_layout() {
    // Thirteen fixed instances that fill a 6 × 10 sheet as four columns (widths 2, 2, 1,
    // 1); above twelve instances the search is greedy and finds none of the orderings.
    let dims = [
        (2, 5), (2, 2), (2, 2), (1, 5), (1, 1), (1, 1), (1, 4), (2, 6), (1, 1), (2, 2), (2, 3),
        (1, 5), (1, 3),
    ];
    let items: Vec<PackInstance> = dims
        .iter()
        .enumerate()
        .map(|(i, &(w, h))| PackInstance {
            product_id: format!("p{:02}", i),
            w,
            h,
            allow_rotation: Some(false),
        })
        .collect();
    let layout = vec![
        rect(0, 0, 2, 5, "p00"), rect(0, 5, 2, 2, "p01"), rect(0, 7, 2, 3, "p10"),
        rect(2, 0, 2, 2, "p02"), rect(2, 2, 2, 2, "p09"), rect(2, 4, 2, 6, "p07"),
        rect(4, 0, 1, 5, "p03"), rect(4, 5, 1, 5, "p11"),
        rect(5, 0, 1, 1, "p04"), rect(5, 1, 1, 1, "p05"), rect(5, 2, 1, 4, "p06"),
        rect(5, 6, 1, 1, "p08"), rect(5, 7, 1, 3, "p12"),
    ];
    assert!(verify_two_stage_vh(&layout, 6, 10));
    assert!(pack_multi_stage(6, 10, &items, &PackOptions::default()).is_empty());
}
