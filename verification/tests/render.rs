use layout_rs::{
    escape_xml, per_page_summary, render_layout_svg, sheet_preview_title, PlacedRect, ProductSpec,
    SheetLocale,
};

#[test]
fn sheet_title_en_mixed_k_and_rotation() {
    let t = sheet_preview_title(
        700,
        600,
        0,
        "A×2, B×3",
        5,
        &format!("{:.1}", 0.73 * 100.0),
        "VH",
        true,
        SheetLocale::En,
    );
    assert!(t.contains("700×600"));
    assert!(t.contains("(mixed)"));
    assert!(t.contains("P=5 sheets"));
    assert!(t.contains("util 73.0%"));
    assert!(t.contains("sheet default on"));
}

#[test]
fn sheet_title_ua_positive_k() {
    let t = sheet_preview_title(
        100,
        80,
        12,
        "X×1",
        3,
        &format!("{:.1}", 0.5 * 100.0),
        "HV",
        false,
        SheetLocale::Ua,
    );
    assert!(t.contains("Розмір 100×80"));
    assert!(t.contains("k=12"));
    assert!(t.contains("Листів: 3"));
    assert!(t.contains("Використання: 50.0%"));
    assert!(t.contains("Режим: HV"));
    assert!(t.contains("вимк."));
    assert!(!t.contains("(змішано)"));
}

#[test]
fn sheet_locale_from_code() {
    assert_eq!(SheetLocale::from_lang_code("en"), SheetLocale::En);
    assert_eq!(SheetLocale::from_lang_code("UA"), SheetLocale::Ua);
    assert_eq!(SheetLocale::from_lang_code("uk"), SheetLocale::Ua);
}

#[test]
fn sheet_locale_edge_codes() {
    assert_eq!(SheetLocale::from_lang_code("  Uk\t\n"), SheetLocale::Ua);
    assert_eq!(SheetLocale::from_lang_code("\u{3000}uA\u{a0}"), SheetLocale::Ua);
    assert_eq!(SheetLocale::from_lang_code("ukr"), SheetLocale::En);
    assert_eq!(SheetLocale::from_lang_code("u k"), SheetLocale::En);
    assert_eq!(SheetLocale::from_lang_code(""), SheetLocale::En);
    assert_eq!(SheetLocale::from_lang_code("   "), SheetLocale::En);
    assert_eq!(SheetLocale::default(), SheetLocale::En);
}

#[test]
fn render_svg_escapes_xml_in_title() {
    let rects = vec![PlacedRect {
        x: 0,
        y: 0,
        w: 10,
        h: 10,
        product_id: "A".into(),
        rotated: false,
    }];
    let svg = render_layout_svg(
        100,
        100,
        &rects,
        &format!("{}", 1.0f64),
        true,
        "R&D \"co\" <tag>",
    );
    assert!(svg.contains("&amp;"));
    assert!(svg.contains("&quot;"));
    assert!(svg.contains("&lt;"));
}

#[test]
fn render_svg_embeds_ukrainian_sheet_title() {
    let title = sheet_preview_title(
        50,
        40,
        1,
        "P×2",
        1,
        &format!("{:.1}", 0.9 * 100.0),
        "VH",
        true,
        SheetLocale::Ua,
    );
    let svg = render_layout_svg(50, 40, &[], &format!("{}", 1.0f64), false, &title);
    assert!(svg.contains("Листів"));
    assert!(svg.contains("Використання"));
}

#[test]
fn title_exact_text() {
    let t = sheet_preview_title(700, 600, 3, "A×3, B×6", 334, "73.0", "VH", false, SheetLocale::En);
    assert_eq!(
        t,
        "Wp×Hp 700×600 · k=3 · A×3, B×6 · P=334 sheets · util 73.0% · mode VH · sheet default off"
    );
    let u = sheet_preview_title(10, 20, -1, "X×1", 2, "5.5", "HV", true, SheetLocale::Ua);
    assert_eq!(
        u,
        "Розмір 10×20 · k=— (змішано) · X×1 · Листів: 2 · Використання: 5.5% · Режим: HV · Поворот за замовч.: увімк."
    );
}

#[test]
fn escaping() {
    assert_eq!(escape_xml("a&b<c\"d>e'"), "a&amp;b&lt;c&quot;d>e'");
    assert_eq!(escape_xml(""), "");
    assert_eq!(escape_xml("Листів"), "Листів");
}

#[test]
fn svg_exact_document() {
    let rects = vec![
        PlacedRect { x: 0, y: 0, w: 10, h: 20, product_id: "A".into(), rotated: false },
        PlacedRect { x: 10, y: 0, w: 5, h: 5, product_id: "B&".into(), rotated: true },
        PlacedRect { x: 0, y: 20, w: 10, h: 20, product_id: "A".into(), rotated: false },
    ];
    let svg = render_layout_svg(30, 40, &rects, "1.25", true, "T");
    let expected = [
        "<?xml version=\"1.0\" encoding=\"UTF-8\"?>",
        "<svg xmlns=\"http://www.w3.org/2000/svg\" width=\"46\" height=\"74\" viewBox=\"0 0 46 74\">",
        "<rect x=\"0\" y=\"0\" width=\"46\" height=\"74\" fill=\"#f8f9fa\"/>",
        "<text x=\"8\" y=\"16\" font-size=\"12\" font-family=\"system-ui,sans-serif\">T</text>",
        "<g transform=\"translate(8,26)\">",
        "<rect x=\"0\" y=\"0\" width=\"30\" height=\"40\" fill=\"white\" stroke=\"#333\" stroke-width=\"1.25\"/>",
        "<rect x=\"0\" y=\"0\" width=\"10\" height=\"20\" fill=\"#4C6EF5\" fill-opacity=\"0.35\" stroke=\"#222\" stroke-width=\"1.25\"/>",
        "<text x=\"4\" y=\"14\" font-size=\"11\" font-family=\"system-ui,sans-serif\" fill=\"#111\">A</text>",
        "<rect x=\"10\" y=\"0\" width=\"5\" height=\"5\" fill=\"#51CF66\" fill-opacity=\"0.35\" stroke=\"#222\" stroke-width=\"1.25\"/>",
        "<text x=\"14\" y=\"14\" font-size=\"11\" font-family=\"system-ui,sans-serif\" fill=\"#111\">B&amp; *</text>",
        "<rect x=\"0\" y=\"20\" width=\"10\" height=\"20\" fill=\"#4C6EF5\" fill-opacity=\"0.35\" stroke=\"#222\" stroke-width=\"1.25\"/>",
        "<text x=\"4\" y=\"34\" font-size=\"11\" font-family=\"system-ui,sans-serif\" fill=\"#111\">A</text>",
        "</g>",
        "</svg>",
    ]
    .join("\n");
    assert_eq!(svg, expected);
}

#[test]
fn svg_without_title_or_labels() {
    let rects = vec![PlacedRect { x: 1, y: 2, w: 3, h: 4, product_id: "Z".into(), rotated: false }];
    let svg = render_layout_svg(10, 10, &rects, "1", false, "");
    assert!(svg.contains("width=\"26\" height=\"26\""));
    assert!(svg.contains("<g transform=\"translate(8,8)\">"));
    assert!(!svg.contains("<text"));
}

#[test]
fn palette_cycles_after_six_products() {
    let rects: Vec<PlacedRect> = (0..7)
        .map(|i| PlacedRect { x: i, y: 0, w: 1, h: 1, product_id: format!("p{i}"), rotated: false })
        .collect();
    let svg = render_layout_svg(10, 10, &rects, "1", false, "");
    assert_eq!(svg.matches("#4C6EF5").count(), 2);
    assert_eq!(svg.matches("#F06595").count(), 1);
}

#[test]
fn per_page_line() {
    let products = vec![
        ProductSpec { id: "A".into(), w: 1, h: 1, target: 1, allow_rotation: None },
        ProductSpec { id: "B".into(), w: 1, h: 1, target: 1, allow_rotation: None },
    ];
    assert_eq!(per_page_summary(&products, &[2, 3]), "A×2, B×3");
    assert_eq!(per_page_summary(&[], &[]), "");
}
