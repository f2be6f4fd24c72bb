//! Text of the sheet preview: the summary line's language, the summary line itself, and
//! the SVG of one sheet.

use vstd::prelude::*;
use crate::text::{decimal, digits, digit_char};
use crate::guillotine::PlacedRect;

verus! {

// ---------------------------------------------------------------------------
// Language of the summary line
// ---------------------------------------------------------------------------

/// Language for the one-line summary drawn above the sheet.
#[derive(Clone, Copy, Debug, PartialEq, Eq, Structural)]
pub enum SheetLocale {
    En,
    Ua,
}

impl Default for SheetLocale {
    fn default() -> (l: Self)
        ensures
            l == SheetLocale::En,
    {
        SheetLocale::En
    }
}

/// Unicode `White_Space`, the whitespace that `str::trim` removes.
pub open spec fn is_white_space(c: char) -> bool {
    let u = c as u32;
    ||| 0x9 <= u <= 0xD
    ||| u == 0x20
    ||| u == 0x85
    ||| u == 0xA0
    ||| u == 0x1680
    ||| 0x2000 <= u <= 0x200A
    ||| u == 0x2028
    ||| u == 0x2029
    ||| u == 0x202F
    ||| u == 0x205F
    ||| u == 0x3000
}

/// `s` without its leading whitespace.
pub open spec fn trim_start(s: Seq<char>) -> Seq<char>
    decreases s.len(),
{
    if s.len() > 0 && is_white_space(s[0]) {
        trim_start(s.drop_first())
    } else {
        s
    }
}

/// `s` without its trailing whitespace.
pub open spec fn trim_end(s: Seq<char>) -> Seq<char>
    decreases s.len(),
{
    if s.len() > 0 && is_white_space(s.last()) {
        trim_end(s.drop_last())
    } else {
        s
    }
}

/// `s` without leading and trailing whitespace.
pub open spec fn trimmed(s: Seq<char>) -> Seq<char> {
    trim_end(trim_start(s))
}

/// ASCII lower case: `A..=Z` become `a..=z`, every other character stays.
pub open spec fn ascii_lower(c: char) -> char {
    if 'A' <= c <= 'Z' {
        ((c as u32) + 32) as char
    } else {
        c
    }
}

/// `ua` or `uk` (any ASCII case, surrounding whitespace ignored) is Ukrainian; every
/// other code is English.
pub open spec fn lang_locale(s: Seq<char>) -> SheetLocale {
    let t = trimmed(s);
    if t.len() == 2 && ascii_lower(t[0]) == 'u' && (ascii_lower(t[1]) == 'a' || ascii_lower(t[1])
        == 'k') {
        SheetLocale::Ua
    } else {
        SheetLocale::En
    }
}

fn is_white_space_exec(c: char) -> (b: bool)
    ensures
        b == is_white_space(c),
{
    let u = c as u32;
    (0x9 <= u && u <= 0xD) || u == 0x20 || u == 0x85 || u == 0xA0 || u == 0x1680 || (0x2000 <= u
        && u <= 0x200A) || u == 0x2028 || u == 0x2029 || u == 0x202F || u == 0x205F || u == 0x3000
}

fn ascii_lower_exec(c: char) -> (r: char)
    ensures
        r == ascii_lower(c),
{
    if 'A' <= c && c <= 'Z' {
        let b = (c as u8) + 32;
        b as char
    } else {
        c
    }
}

impl SheetLocale {
    /// `"ua"` or `"uk"` (any ASCII case, surrounding whitespace ignored) is Ukrainian;
    /// everything else is English.
    #[must_use]
    pub fn from_lang_code(s: &str) -> (l: Self)
        ensures
            l == lang_locale(s@),
    {
        let n = s.unicode_len();
        let mut i: usize = 0;
        assert(s@.skip(0) =~= s@);
        while i < n && is_white_space_exec(s.get_char(i))
            invariant
                n == s@.len(),
                0 <= i <= n,
                trim_start(s@) == trim_start(s@.skip(i as int)),
            decreases n - i,
        {
            assert(s@.skip(i as int).drop_first() =~= s@.skip(i + 1));
            i += 1;
        }
        assert(trim_start(s@) == s@.skip(i as int)) by {
            if i < n {
                assert(s@.skip(i as int)[0] == s@[i as int]);
            }
        }
        let mut j: usize = n;
        assert(s@.skip(i as int) =~= s@.subrange(i as int, n as int));
        while j > i && is_white_space_exec(s.get_char(j - 1))
            invariant
                n == s@.len(),
                0 <= i <= j <= n,
                trimmed(s@) == trim_end(s@.subrange(i as int, j as int)),
            decreases j,
        {
            assert(s@.subrange(i as int, j as int).drop_last() =~= s@.subrange(i as int, j - 1));
            j -= 1;
        }
        let ghost t = s@.subrange(i as int, j as int);
        assert(trimmed(s@) == t) by {
            if j > i {
                assert(t.last() == s@[j - 1]);
            }
        }
        if j - i == 2 {
            let a = ascii_lower_exec(s.get_char(i));
            let b = ascii_lower_exec(s.get_char(i + 1));
            assert(t[0] == s@[i as int] && t[1] == s@[i + 1]);
            if a == 'u' && (b == 'a' || b == 'k') {
                SheetLocale::Ua
            } else {
                SheetLocale::En
            }
        } else {
            SheetLocale::En
        }
    }

    /// Shown in place of `k` when the per-sheet counts are not a multiple of the pattern.
    pub fn mixed_k_label(self) -> (s: &'static str)
        ensures
            s@ == mixed_k_text(self),
    {
        match self {
            SheetLocale::En => "— (mixed)",
            SheetLocale::Ua => "— (змішано)",
        }
    }

    /// The words for the sheet-wide rotation default.
    pub fn rotation_sheet_default(self, on: bool) -> (s: &'static str)
        ensures
            s@ == rotation_text(self, on),
    {
        match (self, on) {
            (SheetLocale::En, true) => "on",
            (SheetLocale::En, false) => "off",
            (SheetLocale::Ua, true) => "увімк.",
            (SheetLocale::Ua, false) => "вимк.",
        }
    }
}

pub open spec fn mixed_k_text(l: SheetLocale) -> Seq<char> {
    match l {
        SheetLocale::En => "— (mixed)"@,
        SheetLocale::Ua => "— (змішано)"@,
    }
}

pub open spec fn rotation_text(l: SheetLocale, on: bool) -> Seq<char> {
    match (l, on) {
        (SheetLocale::En, true) => "on"@,
        (SheetLocale::En, false) => "off"@,
        (SheetLocale::Ua, true) => "увімк."@,
        (SheetLocale::Ua, false) => "вимк."@,
    }
}

// ---------------------------------------------------------------------------
// Building text
// ---------------------------------------------------------------------------

fn append_digits(out: &mut String, n: u64)
    ensures
        final(out)@ == old(out)@ + digits(n as nat),
    decreases n,
{
    if n >= 10 {
        append_digits(out, n / 10);
    }
    let d = (n % 10) as usize;
    let table = "0123456789";
    proof {
        reveal_strlit("0123456789");
    }
    let piece = table.substring_char(d, d + 1);
    assert(piece@ =~= seq![digit_char(d as int)]) by {
        assert(piece@[0] == table@[d as int]);
    }
    out.append(piece);
    assert(digits(n as nat) == if n < 10 {
        seq![digit_char(n as int)]
    } else {
        digits((n / 10) as nat).push(digit_char((n % 10) as int))
    });
    assert(final(out)@ =~= old(out)@ + digits(n as nat));
}

/// Appends the decimal notation of `n`.
pub fn append_int(out: &mut String, n: i32)
    ensures
        final(out)@ == old(out)@ + decimal(n as int),
{
    if n < 0 {
        out.append("-");
        proof {
            reveal_strlit("-");
        }
        let m = -(n as i64);
        append_digits(out, m as u64);
        assert(final(out)@ =~= old(out)@ + decimal(n as int));
    } else {
        append_digits(out, n as u64);
    }
}

// ---------------------------------------------------------------------------
// Summary line
// ---------------------------------------------------------------------------

/// The summary line: sheet size, `k` (or the "mixed" mark when `k <= 0`), the per-sheet
/// counts, the number of sheets, the utilization in percent (as already written), the
/// packing mode and the rotation default, in the given language.
pub open spec fn title_text(
    sheet_w: int,
    sheet_h: int,
    k: int,
    per_page: Seq<char>,
    pages: int,
    util_percent: Seq<char>,
    pack_mode: Seq<char>,
    default_allow_rotation: bool,
    locale: SheetLocale,
) -> Seq<char> {
    let k_label = if k > 0 {
        decimal(k)
    } else {
        mixed_k_text(locale)
    };
    let rot = rotation_text(locale, default_allow_rotation);
    match locale {
        SheetLocale::En => "Wp×Hp "@ + decimal(sheet_w) + "×"@ + decimal(sheet_h) + " · k="@ + k_label
            + " · "@ + per_page + " · P="@ + decimal(pages) + " sheets · util "@ + util_percent
            + "% · mode "@ + pack_mode + " · sheet default "@ + rot,
        SheetLocale::Ua => "Розмір "@ + decimal(sheet_w) + "×"@ + decimal(sheet_h) + " · k="@
            + k_label + " · "@ + per_page + " · Листів: "@ + decimal(pages) + " · Використання: "@
            + util_percent + "% · Режим: "@ + pack_mode + " · Поворот за замовч.: "@ + rot,
    }
}

/// The summary line drawn above a sheet; `util_percent` is the utilization in percent,
/// already written out.
#[must_use]
pub fn sheet_preview_title(
    sheet_w: i32,
    sheet_h: i32,
    k: i32,
    per_page: &str,
    pages: i32,
    util_percent: &str,
    pack_mode: &str,
    default_allow_rotation: bool,
    locale: SheetLocale,
) -> (t: String)
    ensures
        t@ == title_text(
            sheet_w as int,
            sheet_h as int,
            k as int,
            per_page@,
            pages as int,
            util_percent@,
            pack_mode@,
            default_allow_rotation,
            locale,
        ),
{
    let mut k_label = String::new();
    if k > 0 {
        append_int(&mut k_label, k);
    } else {
        k_label.append(locale.mixed_k_label());
    }
    assert(k_label@ =~= (if k > 0 {
        decimal(k as int)
    } else {
        mixed_k_text(locale)
    }));
    let rot = locale.rotation_sheet_default(default_allow_rotation);
    let mut t = String::new();
    match locale {
        SheetLocale::En => {
            t.append("Wp×Hp ");
            append_int(&mut t, sheet_w);
            t.append("×");
            append_int(&mut t, sheet_h);
            t.append(" · k=");
            t.append(k_label.as_str());
            t.append(" · ");
            t.append(per_page);
            t.append(" · P=");
            append_int(&mut t, pages);
            t.append(" sheets · util ");
            t.append(util_percent);
            t.append("% · mode ");
            t.append(pack_mode);
            t.append(" · sheet default ");
            t.append(rot);
        },
        SheetLocale::Ua => {
            t.append("Розмір ");
            append_int(&mut t, sheet_w);
            t.append("×");
            append_int(&mut t, sheet_h);
            t.append(" · k=");
            t.append(k_label.as_str());
            t.append(" · ");
            t.append(per_page);
            t.append(" · Листів: ");
            append_int(&mut t, pages);
            t.append(" · Використання: ");
            t.append(util_percent);
            t.append("% · Режим: ");
            t.append(pack_mode);
            t.append(" · Поворот за замовч.: ");
            t.append(rot);
        },
    }
    t
}

// ---------------------------------------------------------------------------
// Escaping
// ---------------------------------------------------------------------------

/// The escape of one character: `&`, `<` and `"` become entities.
pub open spec fn escape_char(c: char) -> Seq<char> {
    if c == '&' {
        "&amp;"@
    } else if c == '<' {
        "&lt;"@
    } else if c == '"' {
        "&quot;"@
    } else {
        seq![c]
    }
}

/// `s` with `&`, `<` and `"` escaped for XML text.
pub open spec fn escaped(s: Seq<char>) -> Seq<char>
    decreases s.len(),
{
    if s.len() == 0 {
        seq![]
    } else {
        escaped(s.drop_last()) + escape_char(s.last())
    }
}

/// Escaped text holds no `<` and no `"`, so it cannot open a tag or close an attribute.
pub proof fn escaped_has_no_markup(s: Seq<char>)
    ensures
        forall|i: int|
            0 <= i < escaped(s).len() ==> #[trigger] escaped(s)[i] != '<' && escaped(s)[i] != '"',
    decreases s.len(),
{
    if s.len() > 0 {
        let d = s.drop_last();
        escaped_has_no_markup(d);
        let c = s.last();
        let e = escape_char(c);
        reveal_strlit("&amp;");
        reveal_strlit("&lt;");
        reveal_strlit("&quot;");
        assert(forall|j: int| 0 <= j < e.len() ==> #[trigger] e[j] != '<' && e[j] != '"');
        let r = escaped(s);
        assert forall|i: int| 0 <= i < r.len() implies #[trigger] r[i] != '<' && r[i] != '"' by {
            if i < escaped(d).len() {
                assert(r[i] == escaped(d)[i]);
            } else {
                assert(r[i] == e[i - escaped(d).len()]);
            }
        }
    }
}

/// Appends `s` with `&`, `<` and `"` escaped.
pub fn append_escaped(out: &mut String, s: &str)
    ensures
        final(out)@ == old(out)@ + escaped(s@),
{
    let n = s.unicode_len();
    let mut i: usize = 0;
    assert(s@.take(0) =~= Seq::<char>::empty());
    while i < n
        invariant
            n == s@.len(),
            0 <= i <= n,
            out@ == old(out)@ + escaped(s@.take(i as int)),
        decreases n - i,
    {
        let c = s.get_char(i);
        let ghost before = out@;
        if c == '&' {
            out.append("&amp;");
        } else if c == '<' {
            out.append("&lt;");
        } else if c == '"' {
            out.append("&quot;");
        } else {
            let piece = s.substring_char(i, i + 1);
            assert(piece@ =~= seq![c]);
            out.append(piece);
        }
        assert(out@ == before + escape_char(c));
        assert(s@.take(i + 1).drop_last() =~= s@.take(i as int));
        assert(out@ =~= old(out)@ + escaped(s@.take(i + 1)));
        i += 1;
    }
    assert(s@.take(n as int) =~= s@);
}

/// `s` with `&`, `<` and `"` escaped for XML text.
pub fn escape_xml(s: &str) -> (r: String)
    ensures
        r@ == escaped(s@),
{
    let mut r = String::new();
    append_escaped(&mut r, s);
    assert(r@ =~= escaped(s@));
    r
}

// ---------------------------------------------------------------------------
// SVG of one sheet
// ---------------------------------------------------------------------------

/// Fill colours, taken in turn by the products in order of first appearance.
pub open spec fn palette_color(i: int) -> Seq<char> {
    if i == 0 {
        "#4C6EF5"@
    } else if i == 1 {
        "#51CF66"@
    } else if i == 2 {
        "#FF922B"@
    } else if i == 3 {
        "#CC5DE8"@
    } else if i == 4 {
        "#22B8CF"@
    } else {
        "#F06595"@
    }
}

fn palette_color_exec(i: usize) -> (s: &'static str)
    requires
        i < 6,
    ensures
        s@ == palette_color(i as int),
{
    if i == 0 {
        "#4C6EF5"
    } else if i == 1 {
        "#51CF66"
    } else if i == 2 {
        "#FF922B"
    } else if i == 3 {
        "#CC5DE8"
    } else if i == 4 {
        "#22B8CF"
    } else {
        "#F06595"
    }
}

/// The distinct product ids of `rects`, in order of first appearance.
pub open spec fn product_ids(rects: Seq<PlacedRect>) -> Seq<Seq<char>>
    decreases rects.len(),
{
    if rects.len() == 0 {
        seq![]
    } else {
        let ids = product_ids(rects.drop_last());
        if ids.contains(rects.last().product_id@) {
            ids
        } else {
            ids.push(rects.last().product_id@)
        }
    }
}

/// The position of `x` in `s` (its first occurrence), or `s.len()`.
pub open spec fn position_of(s: Seq<Seq<char>>, x: Seq<char>) -> int
    decreases s.len(),
{
    if s.len() == 0 {
        0
    } else if s[0] == x {
        0
    } else {
        1 + position_of(s.drop_first(), x)
    }
}

/// The fill colour of a product: its position among the product ids, modulo the palette.
pub open spec fn fill_of(rects: Seq<PlacedRect>, id: Seq<char>) -> Seq<char> {
    palette_color(position_of(product_ids(rects), id) % 6)
}

/// One placed rectangle.
pub open spec fn rect_line(r: PlacedRect, fill: Seq<char>, stroke_width: Seq<char>) -> Seq<char> {
    "<rect x=\""@ + decimal(r.x as int) + "\" y=\""@ + decimal(r.y as int) + "\" width=\""@
        + decimal(r.w as int) + "\" height=\""@ + decimal(r.h as int) + "\" fill=\""@ + fill
        + "\" fill-opacity=\"0.35\" stroke=\"#222\" stroke-width=\""@ + stroke_width + "\"/>"@
}

/// The label of a placed rectangle: its product id, with `" *"` when turned.
pub open spec fn label_line(r: PlacedRect) -> Seq<char> {
    "<text x=\""@ + decimal(r.x + 4) + "\" y=\""@ + decimal(r.y + 14)
        + "\" font-size=\"11\" font-family=\"system-ui,sans-serif\" fill=\"#111\">"@ + escaped(
        r.product_id@ + if r.rotated {
            " *"@
        } else {
            seq![]
        },
    ) + "</text>"@
}

/// The lines of the first `n` rectangles, each line preceded by a line break.
pub open spec fn rect_lines(
    rects: Seq<PlacedRect>,
    n: int,
    stroke_width: Seq<char>,
    show_labels: bool,
) -> Seq<char>
    decreases n,
{
    if n <= 0 {
        seq![]
    } else {
        let r = rects[n - 1];
        rect_lines(rects, n - 1, stroke_width, show_labels) + "\n"@ + rect_line(
            r,
            fill_of(rects, r.product_id@),
            stroke_width,
        ) + if show_labels {
            "\n"@ + label_line(r)
        } else {
            seq![]
        }
    }
}

/// The start of a sheet's SVG document, up to and including the sheet itself: an 8-unit
/// margin, and the title line above the sheet when there is one.
pub open spec fn svg_head(sheet_w: int, sheet_h: int, stroke_width: Seq<char>, title: Seq<char>) -> Seq<
    char,
> {
    let title_dy: int = if title.len() == 0 {
        0
    } else {
        18
    };
    let w = decimal(sheet_w + 16);
    let h = decimal(sheet_h + 16 + title_dy);
    "<?xml version=\"1.0\" encoding=\"UTF-8\"?>\n"@
        + "<svg xmlns=\"http://www.w3.org/2000/svg\" width=\""@ + w + "\" height=\""@ + h
        + "\" viewBox=\"0 0 "@ + w + " "@ + h + "\">\n"@ + "<rect x=\"0\" y=\"0\" width=\""@ + w
        + "\" height=\""@ + h + "\" fill=\"#f8f9fa\"/>"@ + (if title.len() == 0 {
        seq![]
    } else {
        "\n<text x=\"8\" y=\"16\" font-size=\"12\" font-family=\"system-ui,sans-serif\">"@
            + escaped(title) + "</text>"@
    }) + "\n<g transform=\"translate(8,"@ + decimal(8 + title_dy) + ")\">\n"@
        + "<rect x=\"0\" y=\"0\" width=\""@ + decimal(sheet_w) + "\" height=\""@ + decimal(sheet_h)
        + "\" fill=\"white\" stroke=\"#333\" stroke-width=\""@ + stroke_width + "\"/>"@
}

/// The SVG document of a sheet: the head, then every rectangle with its label (origin
/// top-left, y down).
pub open spec fn svg_text(
    sheet_w: int,
    sheet_h: int,
    rects: Seq<PlacedRect>,
    stroke_width: Seq<char>,
    show_labels: bool,
    title: Seq<char>,
) -> Seq<char> {
    svg_head(sheet_w, sheet_h, stroke_width, title) + rect_lines(
        rects,
        rects.len() as int,
        stroke_width,
        show_labels,
    ) + "\n</g>\n</svg>"@
}

/// The coordinates written into the document fit in `i32`.
pub open spec fn svg_fits(sheet_w: int, sheet_h: int, rects: Seq<PlacedRect>, title: Seq<char>) -> bool {
    &&& sheet_w + 16 <= i32::MAX
    &&& sheet_h + 16 + (if title.len() == 0 {
        0int
    } else {
        18int
    }) <= i32::MAX
    &&& forall|i: int|
        0 <= i < rects.len() ==> #[trigger] rects[i].x + 4 <= i32::MAX && rects[i].y + 14 <= i32::MAX
}

pub open spec fn id_views(v: Seq<String>) -> Seq<Seq<char>> {
    v.map_values(|s: String| s@)
}

fn collect_ids(rects: &[PlacedRect]) -> (ids: Vec<String>)
    ensures
        id_views(ids@) == product_ids(rects@),
{
    let mut ids: Vec<String> = Vec::new();
    let mut i: usize = 0;
    while i < rects.len()
        invariant
            0 <= i <= rects@.len(),
            id_views(ids@) == product_ids(rects@.take(i as int)),
        decreases rects@.len() - i,
    {
        let id = &rects[i].product_id;
        let mut j: usize = 0;
        let mut found = false;
        while j < ids.len()
            invariant
                0 <= j <= ids@.len(),
                found == exists|m: int| 0 <= m < j && #[trigger] id_views(ids@)[m] == id@,
            decreases ids@.len() - j,
        {
            proof {
                assert(id_views(ids@)[j as int] == ids@[j as int]@);
            }
            if ids[j] == *id {
                found = true;
            }
            j += 1;
        }
        assert(rects@.take(i + 1).drop_last() =~= rects@.take(i as int));
        assert(rects@.take(i + 1).last() == rects@[i as int]);
        assert(found == id_views(ids@).contains(id@));
        if !found {
            let ghost before = ids@;
            ids.push(id.clone());
            assert(id_views(ids@) =~= id_views(before).push(id@));
        }
        i += 1;
    }
    assert(rects@.take(rects@.len() as int) =~= rects@);
    ids
}

proof fn lemma_position_of(s: Seq<Seq<char>>, x: Seq<char>, j: int)
    requires
        0 <= j <= s.len(),
        forall|k: int| 0 <= k < j ==> #[trigger] s[k] != x,
        j < s.len() ==> s[j] == x,
    ensures
        position_of(s, x) == j,
    decreases j,
{
    if j > 0 {
        let d = s.drop_first();
        assert forall|k: int| 0 <= k < j - 1 implies #[trigger] d[k] != x by {
            assert(d[k] == s[k + 1]);
        }
        if j < s.len() {
            assert(d[j - 1] == s[j]);
        }
        assert(s[0] != x);
        lemma_position_of(d, x, j - 1);
    }
}

fn position_exec(ids: &Vec<String>, id: &String) -> (p: usize)
    ensures
        p as int == position_of(id_views(ids@), id@),
        p <= ids@.len(),
{
    let mut j: usize = 0;
    while j < ids.len() && !(ids[j] == *id)
        invariant
            0 <= j <= ids@.len(),
            forall|k: int| 0 <= k < j ==> #[trigger] id_views(ids@)[k] != id@,
        decreases ids@.len() - j,
    {
        j += 1;
    }
    proof {
        lemma_position_of(id_views(ids@), id@, j as int);
    }
    j
}

fn append_rect_line(out: &mut String, r: &PlacedRect, fill: &str, stroke_width: &str)
    ensures
        final(out)@ == old(out)@ + "\n"@ + rect_line(*r, fill@, stroke_width@),
{
    out.append("\n<rect x=\"");
    append_int(out, r.x);
    out.append("\" y=\"");
    append_int(out, r.y);
    out.append("\" width=\"");
    append_int(out, r.w);
    out.append("\" height=\"");
    append_int(out, r.h);
    out.append("\" fill=\"");
    out.append(fill);
    out.append("\" fill-opacity=\"0.35\" stroke=\"#222\" stroke-width=\"");
    out.append(stroke_width);
    out.append("\"/>");
    proof {
        reveal_strlit("\n<rect x=\"");
        reveal_strlit("\n");
        reveal_strlit("<rect x=\"");
    }
    assert(final(out)@ =~= old(out)@ + "\n"@ + rect_line(*r, fill@, stroke_width@));
}

fn append_label_line(out: &mut String, r: &PlacedRect)
    requires
        r.x + 4 <= i32::MAX,
        r.y + 14 <= i32::MAX,
    ensures
        final(out)@ == old(out)@ + "\n"@ + label_line(*r),
{
    let mut label = String::new();
    label.append(r.product_id.as_str());
    if r.rotated {
        label.append(" *");
    }
    assert(label@ =~= r.product_id@ + if r.rotated {
        " *"@
    } else {
        seq![]
    });
    out.append("\n<text x=\"");
    append_int(out, r.x + 4);
    out.append("\" y=\"");
    append_int(out, r.y + 14);
    out.append("\" font-size=\"11\" font-family=\"system-ui,sans-serif\" fill=\"#111\">");
    append_escaped(out, label.as_str());
    out.append("</text>");
    proof {
        reveal_strlit("\n<text x=\"");
        reveal_strlit("\n");
        reveal_strlit("<text x=\"");
    }
    assert(final(out)@ =~= old(out)@ + "\n"@ + label_line(*r));
}

fn append_rect_lines(
    out: &mut String,
    rects: &[PlacedRect],
    ids: &Vec<String>,
    stroke_width: &str,
    show_labels: bool,
)
    requires
        id_views(ids@) == product_ids(rects@),
        forall|i: int|
            0 <= i < rects@.len() ==> #[trigger] rects@[i].x + 4 <= i32::MAX && rects@[i].y + 14
                <= i32::MAX,
    ensures
        final(out)@ == old(out)@ + rect_lines(rects@, rects@.len() as int, stroke_width@, show_labels),
{
    let mut i: usize = 0;
    while i < rects.len()
        invariant
            0 <= i <= rects@.len(),
            id_views(ids@) == product_ids(rects@),
            forall|k: int|
                0 <= k < rects@.len() ==> #[trigger] rects@[k].x + 4 <= i32::MAX && rects@[k].y + 14
                    <= i32::MAX,
            out@ == old(out)@ + rect_lines(rects@, i as int, stroke_width@, show_labels),
        decreases rects@.len() - i,
    {
        let r = &rects[i];
        assert(rects@[i as int] == *r);
        let ghost before = out@;
        let slot = position_exec(ids, &r.product_id);
        let fill = palette_color_exec(slot % 6);
        append_rect_line(out, r, fill, stroke_width);
        if show_labels {
            append_label_line(out, r);
        }
        assert(out@ =~= old(out)@ + rect_lines(rects@, i + 1, stroke_width@, show_labels));
        i += 1;
    }
}

/// SVG for a sheet layout (origin top-left, y down).  `stroke_width` is the stroke width
/// as written into the document.
#[must_use]
pub fn render_layout_svg(
    sheet_w: i32,
    sheet_h: i32,
    rects: &[PlacedRect],
    stroke_width: &str,
    show_labels: bool,
    title: &str,
) -> (svg: String)
    requires
        svg_fits(sheet_w as int, sheet_h as int, rects@, title@),
    ensures
        svg@ == svg_text(sheet_w as int, sheet_h as int, rects@, stroke_width@, show_labels, title@),
{
    let empty_title = title.unicode_len() == 0;
    let title_dy: i32 = if empty_title { 0 } else { 18 };
    let w = sheet_w + 16;
    let h = sheet_h + 16 + title_dy;
    let ids = collect_ids(rects);
    let mut out = String::new();
    out.append("<?xml version=\"1.0\" encoding=\"UTF-8\"?>\n");
    out.append("<svg xmlns=\"http://www.w3.org/2000/svg\" width=\"");
    append_int(&mut out, w);
    out.append("\" height=\"");
    append_int(&mut out, h);
    out.append("\" viewBox=\"0 0 ");
    append_int(&mut out, w);
    out.append(" ");
    append_int(&mut out, h);
    out.append("\">\n");
    out.append("<rect x=\"0\" y=\"0\" width=\"");
    append_int(&mut out, w);
    out.append("\" height=\"");
    append_int(&mut out, h);
    out.append("\" fill=\"#f8f9fa\"/>");
    if !empty_title {
        out.append("\n<text x=\"8\" y=\"16\" font-size=\"12\" font-family=\"system-ui,sans-serif\">");
        append_escaped(&mut out, title);
        out.append("</text>");
    }
    out.append("\n<g transform=\"translate(8,");
    append_int(&mut out, 8 + title_dy);
    out.append(")\">\n");
    out.append("<rect x=\"0\" y=\"0\" width=\"");
    append_int(&mut out, sheet_w);
    out.append("\" height=\"");
    append_int(&mut out, sheet_h);
    out.append("\" fill=\"white\" stroke=\"#333\" stroke-width=\"");
    out.append(stroke_width);
    out.append("\"/>");
    append_rect_lines(&mut out, rects, &ids, stroke_width, show_labels);
    out.append("\n</g>\n</svg>");
    assert(out@ =~= svg_text(sheet_w as int, sheet_h as int, rects@, stroke_width@, show_labels, title@));
    out
}


/// `piece` stands in `s` at offset `o`.
spec fn occurs_at(s: Seq<char>, piece: Seq<char>, o: int) -> bool {
    0 <= o && o + piece.len() <= s.len() && s.subrange(o, o + piece.len()) == piece
}

proof fn lemma_occurs_prefix(a: Seq<char>, b: Seq<char>, piece: Seq<char>, o: int)
    requires
        occurs_at(a, piece, o),
    ensures
        occurs_at(a + b, piece, o),
{
    assert((a + b).subrange(o, o + piece.len()) =~= a.subrange(o, o + piece.len()));
}

proof fn lemma_occurs_middle(a: Seq<char>, b: Seq<char>, c: Seq<char>, piece: Seq<char>, o: int)
    requires
        occurs_at(b, piece, o),
    ensures
        occurs_at(a + b + c, piece, a.len() + o),
{
    assert((a + b + c).subrange(a.len() + o, a.len() + o + piece.len()) =~= b.subrange(o, o + piece.len()));
}

/// The opening of a rectangle's element: its position and its own width and height.
spec fn rect_opening(r: PlacedRect) -> Seq<char> {
    "<rect x=\""@ + decimal(r.x as int) + "\" y=\""@ + decimal(r.y as int) + "\" width=\""@
        + decimal(r.w as int) + "\" height=\""@ + decimal(r.h as int) + "\" fill=\""@
}

proof fn lemma_rect_lines_have(
    rects: Seq<PlacedRect>,
    n: int,
    stroke_width: Seq<char>,
    show_labels: bool,
    i: int,
) -> (o: int)
    requires
        0 <= i < n <= rects.len(),
    ensures
        occurs_at(rect_lines(rects, n, stroke_width, show_labels), rect_opening(rects[i]), o),
    decreases n,
{
    let a = rect_lines(rects, n - 1, stroke_width, show_labels);
    let r = rects[n - 1];
    let fill = fill_of(rects, r.product_id@);
    let line = rect_line(r, fill, stroke_width);
    let tail = if show_labels {
        "\n"@ + label_line(r)
    } else {
        seq![]
    };
    assert(rect_lines(rects, n, stroke_width, show_labels) == a + "\n"@ + line + tail);
    if i == n - 1 {
        let piece = rect_opening(r);
        let rest = fill + "\" fill-opacity=\"0.35\" stroke=\"#222\" stroke-width=\""@
            + stroke_width + "\"/>"@;
        assert(line =~= piece + rest);
        assert((piece + rest).subrange(0, piece.len() as int) =~= piece);
        lemma_occurs_middle(a + "\n"@, line, tail, piece, 0);
        reveal_strlit("\n");
        assert(("\n"@).len() == 1);
        assert((a + "\n"@).len() == a.len() + 1);
        a.len() + 1int
    } else {
        let o = lemma_rect_lines_have(rects, n - 1, stroke_width, show_labels, i);
        lemma_occurs_prefix(a, "\n"@ + line + tail, rect_opening(rects[i]), o);
        assert(a + "\n"@ + line + tail =~= a + ("\n"@ + line + tail));
        o
    }
}

/// The document draws every placed rectangle where it lies on the sheet, with the
/// rectangle's own width and height (turned or not): the text
/// `<rect x="X" y="Y" width="W" height="H" fill="` with its `x`, `y`, `w` and `h` stands
/// in the document.
pub proof fn svg_draws_each_rect(
    sheet_w: int,
    sheet_h: int,
    rects: Seq<PlacedRect>,
    stroke_width: Seq<char>,
    show_labels: bool,
    title: Seq<char>,
    i: int,
)
    requires
        0 <= i < rects.len(),
    ensures
        ({
            let svg = svg_text(sheet_w, sheet_h, rects, stroke_width, show_labels, title);
            let piece = "<rect x=\""@ + decimal(rects[i].x as int) + "\" y=\""@ + decimal(
                rects[i].y as int,
            ) + "\" width=\""@ + decimal(rects[i].w as int) + "\" height=\""@ + decimal(
                rects[i].h as int,
            ) + "\" fill=\""@;
            exists|o: int|
                0 <= o && o + piece.len() <= svg.len() && #[trigger] svg.subrange(o, o + piece.len())
                    == piece
        }),
{
    let o = lemma_rect_lines_have(rects, rects.len() as int, stroke_width, show_labels, i);
    let head = svg_head(sheet_w, sheet_h, stroke_width, title);
    let body = rect_lines(rects, rects.len() as int, stroke_width, show_labels);
    lemma_occurs_middle(head, body, "\n</g>\n</svg>"@, rect_opening(rects[i]), o);
    let svg = svg_text(sheet_w, sheet_h, rects, stroke_width, show_labels, title);
    let piece = rect_opening(rects[i]);
    assert(svg.subrange(head.len() + o, head.len() + o + piece.len()) == piece);
}

} // verus!
