//! Renderers for the linear chart types: timeline, journey and git graph.
//!
//! Every coordinate these drawings use is a multiple of a twentieth of a
//! pixel; lengths are held as integer counts of twentieths and printed with
//! `fmt1`/`fmt0`. The size bounds in the preconditions keep every coordinate
//! in the range where single-precision arithmetic on them is exact.

use vstd::prelude::*;
use crate::ir::graph::{opt_view, strings_view};
use crate::ir::linear::{
    GitGraph, GitGraphV, GitOp, GitOpV, Journey, JourneyV, PeriodV, SectionV, TaskV, Timeline,
    TimelineV,
};
use crate::parser::git::first_index;
use crate::render::fmt::{fmt0, fmt0_of, fmt1, fmt1_of};
use crate::render::theme::{Theme, ThemeV};
use crate::render::{
    append, circle_tag, circles, empty_svg, empty_svg_of, escape_of, escape_spec, font_stack,
    lemma_circles_concat, lemma_dec_no_lt, lemma_escape_no_lt, lemma_no_lt_tagfree,
    lemma_one_circle, lemma_tagfree_circles, lemma_tagfree_concat, no_lt, palette, palette_of, put,
    tagfree,
};
use crate::text::{byte_len, byte_len_capped, byte_len_of, chars_of, dec, dec_of, join, join_of, string_of, views};

verus! {

/* ---------------- shared pieces ---------------- */

/// Opening `<svg>` tag and background for a `w` by `h` drawing (twentieths).
pub open spec fn svg_open(w: nat, h: nat, th: ThemeV) -> Seq<char> {
    "<svg xmlns=\"http://www.w3.org/2000/svg\" viewBox=\"0 0 "@ + fmt0(w) + " "@ + fmt0(h)
        + "\" width=\""@ + fmt0(w) + "\" height=\""@ + fmt0(h) + "\" font-family=\""@
        + font_stack() + "\"><rect width=\""@ + fmt0(w) + "\" height=\""@ + fmt0(h)
        + "\" fill=\""@ + th.background + "\"/>"@
}

fn svg_open_of(out: &mut Vec<char>, w: u64, h: u64, th: &Theme)
    requires
        w < 0x1_0000_0000,
        h < 0x1_0000_0000,
    ensures
        final(out)@ == old(out)@ + svg_open(w as nat, h as nat, th@),
{
    let fw = fmt0_of(w);
    let fh = fmt0_of(h);
    let mut v = chars_of("<svg xmlns=\"http://www.w3.org/2000/svg\" viewBox=\"0 0 ");
    append(&mut v, &fw);
    put(&mut v, " ");
    append(&mut v, &fh);
    put(&mut v, "\" width=\"");
    append(&mut v, &fw);
    put(&mut v, "\" height=\"");
    append(&mut v, &fh);
    put(&mut v, "\" font-family=\"");
    put(&mut v, "Inter, 'Helvetica Neue', Arial, sans-serif");
    put(&mut v, "\"><rect width=\"");
    append(&mut v, &fw);
    put(&mut v, "\" height=\"");
    append(&mut v, &fh);
    put(&mut v, "\" fill=\"");
    put(&mut v, th.background);
    put(&mut v, "\"/>");
    append(out, &v);
}

/// The chart title, if any, in the top-left corner.
pub open spec fn title_block(title: Option<Seq<char>>, th: ThemeV) -> Seq<char> {
    match title {
        Some(t) => "<text x=\"16\" y=\"24\" font-size=\"16\" font-weight=\"700\" fill=\""@ + th.text
            + "\">"@ + escape_spec(t) + "</text>"@,
        None => seq![],
    }
}

fn title_block_of(out: &mut Vec<char>, title: &Option<String>, th: &Theme)
    ensures
        final(out)@ == old(out)@ + title_block(opt_view(*title), th@),
{
    match title {
        Some(t) => {
            let mut v = chars_of("<text x=\"16\" y=\"24\" font-size=\"16\" font-weight=\"700\" fill=\"");
            put(&mut v, th.text);
            put(&mut v, "\">");
            append(&mut v, &escape_of(&chars_of(t.as_str())));
            put(&mut v, "</text>");
            append(out, &v);
        },
        None => {
            assert(old(out)@ + Seq::<char>::empty() =~= old(out)@);
        },
    }
}

/* ---------------- timeline ---------------- */

/// Most events under any one period.
pub open spec fn max_events(ps: Seq<PeriodV>) -> nat
    decreases ps.len(),
{
    if ps.len() == 0 {
        0
    } else {
        let m = max_events(ps.drop_last());
        let e = ps.last().events.len();
        if e > m {
            e
        } else {
            m
        }
    }
}

/// Distinct section names in order of first appearance.
pub open spec fn section_order(ps: Seq<PeriodV>) -> Seq<Seq<char>>
    decreases ps.len(),
{
    if ps.len() == 0 {
        seq![]
    } else {
        let s = section_order(ps.drop_last());
        match ps.last().section {
            Some(x) => if s.contains(x) {
                s
            } else {
                s.push(x)
            },
            None => s,
        }
    }
}

/// A period's color: its section's place in `order`, or the first color.
pub open spec fn period_color(order: Seq<Seq<char>>, p: PeriodV) -> Seq<char> {
    match p.section {
        Some(s) => match first_index(order, s, 0) {
            Some(i) => palette(i),
            None => palette(0),
        },
        None => palette(0),
    }
}

/// Width of a period's label pill (twentieths): 7.5 px per byte plus 20,
/// capped at 138.
pub open spec fn pill_width(label: Seq<char>) -> nat {
    let w = byte_len(label) * 150 + 400;
    if w < 2760 {
        w
    } else {
        2760
    }
}

/// Spine height (twentieths): below the title when there is one.
pub open spec fn spine_y(title: Option<Seq<char>>) -> nat {
    if title is Some {
        1720
    } else {
        1200
    }
}

/// Column center of period `i` (twentieths).
pub open spec fn period_cx(i: nat) -> nat {
    1820 + 3000 * i
}

/// Event box `k` under a period centered at `cx`.
pub open spec fn timeline_event(cx: nat, sp: nat, k: nat, e: Seq<char>, th: ThemeV) -> Seq<char> {
    let ey = sp + 560 + 520 * k;
    "<rect x=\""@ + fmt1((cx - 1340) as nat) + "\" y=\""@ + fmt1(ey) + "\" width=\"134.0\" height=\"20\" rx=\"4\" fill=\""@
        + th.cluster_fill + "\" stroke=\""@ + th.cluster_stroke + "\" stroke-width=\"1\"/><text x=\""@
        + fmt1(cx) + "\" y=\""@ + fmt1(ey + 200) + "\" font-size=\"11.5\" fill=\""@ + th.text
        + "\" text-anchor=\"middle\" dominant-baseline=\"central\">"@ + escape_spec(e) + "</text>"@
}

/// The first `k` event boxes of a period.
pub open spec fn timeline_events(cx: nat, sp: nat, es: Seq<Seq<char>>, k: int, th: ThemeV) -> Seq<char>
    decreases k,
{
    if k <= 0 || k > es.len() {
        seq![]
    } else {
        timeline_events(cx, sp, es, k - 1, th) + timeline_event(cx, sp, (k - 1) as nat, es[k - 1], th)
    }
}

/// Period `i`: dot and label pill on the spine, its events, and the stem.
pub open spec fn timeline_period(i: nat, p: PeriodV, color: Seq<char>, sp: nat, th: ThemeV) -> Seq<char> {
    let cx = period_cx(i);
    let pw = pill_width(p.label);
    "<circle cx=\""@ + fmt1(cx) + "\" cy=\""@ + fmt1(sp) + "\" r=\"5\" fill=\""@ + color
        + "\"/><rect x=\""@ + fmt1((cx - pw / 2) as nat) + "\" y=\""@ + fmt1((sp - 760) as nat)
        + "\" width=\""@ + fmt1(pw) + "\" height=\"24\" rx=\"12\" fill=\""@ + color
        + "\"/><text x=\""@ + fmt1(cx) + "\" y=\""@ + fmt1((sp - 520) as nat)
        + "\" font-size=\"12.5\" font-weight=\"600\" fill=\"#fff\" text-anchor=\"middle\" dominant-baseline=\"central\">"@
        + escape_spec(p.label) + "</text>"@ + timeline_events(cx, sp, p.events, p.events.len() as int, th)
        + "<line x1=\""@ + fmt1(cx) + "\" y1=\""@ + fmt1(sp) + "\" x2=\""@ + fmt1(cx) + "\" y2=\""@
        + fmt1(sp + 480) + "\" stroke=\""@ + color + "\" stroke-width=\"1.4\"/>"@
}

/// The first `k` periods.
pub open spec fn timeline_periods(ps: Seq<PeriodV>, order: Seq<Seq<char>>, sp: nat, k: int, th: ThemeV) -> Seq<char>
    decreases k,
{
    if k <= 0 || k > ps.len() {
        seq![]
    } else {
        timeline_periods(ps, order, sp, k - 1, th) + timeline_period(
            (k - 1) as nat,
            ps[k - 1],
            period_color(order, ps[k - 1]),
            sp,
            th,
        )
    }
}

/// The timeline drawing: one column per period along a horizontal spine,
/// events stacked below, periods colored by section.
pub open spec fn timeline_svg(tl: TimelineV, th: ThemeV) -> Seq<char> {
    if tl.periods.len() == 0 {
        empty_svg("empty timeline"@)
    } else {
        let n = tl.periods.len();
        let w = 640 + 3000 * n;
        let sp = spine_y(tl.title);
        let h = sp + 920 + 520 * max_events(tl.periods);
        svg_open(w, h, th) + title_block(tl.title, th) + "<line x1=\"16\" y1=\""@ + fmt1(sp)
            + "\" x2=\""@ + fmt1((w - 320) as nat) + "\" y2=\""@ + fmt1(sp) + "\" stroke=\""@
            + th.cluster_stroke + "\" stroke-width=\"2\"/>"@ + timeline_periods(
            tl.periods,
            section_order(tl.periods),
            sp,
            n as int,
            th,
        ) + "</svg>"@
    }
}

/// Sizes for which the drawing's single-precision coordinates are exact.
pub open spec fn timeline_fits(tl: TimelineV) -> bool {
    &&& tl.periods.len() <= 20000
    &&& forall|i: int| 0 <= i < tl.periods.len() ==> (#[trigger] tl.periods[i]).events.len() <= 100000
}

fn timeline_event_of(out: &mut Vec<char>, cx: u64, sp: u64, k: u64, e: &String, th: &Theme)
    requires
        1340 <= cx < 0x1000_0000,
        sp < 0x1000_0000,
        k <= 100000,
    ensures
        final(out)@ == old(out)@ + timeline_event(cx as nat, sp as nat, k as nat, e@, th@),
{
    let ey = sp + 560 + 520 * k;
    let mut v = chars_of("<rect x=\"");
    append(&mut v, &fmt1_of(cx - 1340));
    put(&mut v, "\" y=\"");
    append(&mut v, &fmt1_of(ey));
    put(&mut v, "\" width=\"134.0\" height=\"20\" rx=\"4\" fill=\"");
    put(&mut v, th.cluster_fill);
    put(&mut v, "\" stroke=\"");
    put(&mut v, th.cluster_stroke);
    put(&mut v, "\" stroke-width=\"1\"/><text x=\"");
    append(&mut v, &fmt1_of(cx));
    put(&mut v, "\" y=\"");
    append(&mut v, &fmt1_of(ey + 200));
    put(&mut v, "\" font-size=\"11.5\" fill=\"");
    put(&mut v, th.text);
    put(&mut v, "\" text-anchor=\"middle\" dominant-baseline=\"central\">");
    append(&mut v, &escape_of(&chars_of(e.as_str())));
    put(&mut v, "</text>");
    append(out, &v);
}

fn timeline_period_of(out: &mut Vec<char>, i: u64, p: &crate::ir::linear::TimelinePeriod, color: &str, sp: u64, th: &Theme)
    requires
        i < 20000,
        1200 <= sp <= 1720,
        p@.events.len() <= 100000,
    ensures
        final(out)@ == old(out)@ + timeline_period(i as nat, p@, color@, sp as nat, th@),
{
    let cx = 1820 + 3000 * i;
    let lb = chars_of(p.label.as_str());
    let bl = byte_len_capped(&lb, 100);
    let pw: u64 = if bl < 100 && bl * 150 + 400 < 2760 {
        bl * 150 + 400
    } else {
        2760
    };
    assert(pw == pill_width(p@.label));
    let mut v = chars_of("<circle cx=\"");
    append(&mut v, &fmt1_of(cx));
    put(&mut v, "\" cy=\"");
    append(&mut v, &fmt1_of(sp));
    put(&mut v, "\" r=\"5\" fill=\"");
    put(&mut v, color);
    put(&mut v, "\"/><rect x=\"");
    append(&mut v, &fmt1_of(cx - pw / 2));
    put(&mut v, "\" y=\"");
    append(&mut v, &fmt1_of(sp - 760));
    put(&mut v, "\" width=\"");
    append(&mut v, &fmt1_of(pw));
    put(&mut v, "\" height=\"24\" rx=\"12\" fill=\"");
    put(&mut v, color);
    put(&mut v, "\"/><text x=\"");
    append(&mut v, &fmt1_of(cx));
    put(&mut v, "\" y=\"");
    append(&mut v, &fmt1_of(sp - 520));
    put(
        &mut v,
        "\" font-size=\"12.5\" font-weight=\"600\" fill=\"#fff\" text-anchor=\"middle\" dominant-baseline=\"central\">",
    );
    append(&mut v, &escape_of(&lb));
    put(&mut v, "</text>");
    let ghost head = v@;
    let mut k: usize = 0;
    while k < p.events.len()
        invariant
            k <= p.events@.len() <= 100000,
            p@.events == strings_view(p.events@),
            1820 <= cx < 0x1000_0000,
            sp <= 1720,
            v@ == head + timeline_events(cx as nat, sp as nat, p@.events, k as int, th@),
        decreases p.events@.len() - k,
    {
        let ghost before = v@;
        timeline_event_of(&mut v, cx, sp, k as u64, &p.events[k], th);
        assert(p@.events[k as int] == p.events@[k as int]@);
        assert(v@ =~= head + timeline_events(cx as nat, sp as nat, p@.events, k + 1, th@));
        k += 1;
    }
    put(&mut v, "<line x1=\"");
    append(&mut v, &fmt1_of(cx));
    put(&mut v, "\" y1=\"");
    append(&mut v, &fmt1_of(sp));
    put(&mut v, "\" x2=\"");
    append(&mut v, &fmt1_of(cx));
    put(&mut v, "\" y2=\"");
    append(&mut v, &fmt1_of(sp + 480));
    put(&mut v, "\" stroke=\"");
    put(&mut v, color);
    put(&mut v, "\" stroke-width=\"1.4\"/>");
    append(out, &v);
}

fn max_events_of(ps: &Vec<crate::ir::linear::TimelinePeriod>) -> (r: u64)
    requires
        forall|i: int| 0 <= i < ps@.len() ==> (#[trigger] ps@[i])@.events.len() <= 100000,
    ensures
        r == max_events(ps@.map_values(|p: crate::ir::linear::TimelinePeriod| p@)),
        r <= 100000,
{
    let ghost pv = ps@.map_values(|p: crate::ir::linear::TimelinePeriod| p@);
    let mut m: u64 = 0;
    let mut i: usize = 0;
    while i < ps.len()
        invariant
            i <= ps@.len(),
            pv == ps@.map_values(|p: crate::ir::linear::TimelinePeriod| p@),
            forall|j: int| 0 <= j < ps@.len() ==> (#[trigger] ps@[j])@.events.len() <= 100000,
            m == max_events(pv.take(i as int)),
            m <= 100000,
        decreases ps@.len() - i,
    {
        assert(pv.take(i + 1).drop_last() == pv.take(i as int));
        assert(ps@[i as int]@.events.len() == ps@[i as int].events@.len());
        let e = ps[i].events.len() as u64;
        if e > m {
            m = e;
        }
        i += 1;
    }
    assert(pv.take(ps@.len() as int) == pv);
    m
}

fn section_order_of(ps: &Vec<crate::ir::linear::TimelinePeriod>) -> (r: Vec<String>)
    ensures
        strings_view(r@) == section_order(ps@.map_values(|p: crate::ir::linear::TimelinePeriod| p@)),
{
    let ghost pv = ps@.map_values(|p: crate::ir::linear::TimelinePeriod| p@);
    let mut out: Vec<String> = Vec::new();
    let mut i: usize = 0;
    while i < ps.len()
        invariant
            i <= ps@.len(),
            pv == ps@.map_values(|p: crate::ir::linear::TimelinePeriod| p@),
            strings_view(out@) == section_order(pv.take(i as int)),
        decreases ps@.len() - i,
    {
        assert(pv.take(i + 1).drop_last() == pv.take(i as int));
        match &ps[i].section {
            Some(sec) => {
                let c = chars_of(sec.as_str());
                proof {
                    crate::parser::git::lemma_first_index(strings_view(out@), c@, 0);
                }
                if crate::parser::git::first_index_of(&out, &c).is_none() {
                    let s2 = string_of(&c);
                    assert(strings_view(out@.push(s2)) =~= strings_view(out@).push(s2@));
                    out.push(s2);
                }
            },
            None => {},
        }
        i += 1;
    }
    assert(pv.take(ps@.len() as int) == pv);
    out
}

fn timeline_periods_of(
    out: &mut Vec<char>,
    ps: &Vec<crate::ir::linear::TimelinePeriod>,
    order: &Vec<String>,
    sp: u64,
    theme: &Theme,
)
    requires
        ps@.len() <= 20000,
        forall|i: int| 0 <= i < ps@.len() ==> (#[trigger] ps@[i])@.events.len() <= 100000,
        1200 <= sp <= 1720,
        strings_view(order@) == section_order(ps@.map_values(|p: crate::ir::linear::TimelinePeriod| p@)),
    ensures
        final(out)@ == old(out)@ + timeline_periods(
            ps@.map_values(|p: crate::ir::linear::TimelinePeriod| p@),
            section_order(ps@.map_values(|p: crate::ir::linear::TimelinePeriod| p@)),
            sp as nat,
            ps@.len() as int,
            theme@,
        ),
{
    let ghost pv = ps@.map_values(|p: crate::ir::linear::TimelinePeriod| p@);
    let ghost head = out@;
    let mut i: usize = 0;
    while i < ps.len()
        invariant
            i <= ps@.len() <= 20000,
            pv == ps@.map_values(|p: crate::ir::linear::TimelinePeriod| p@),
            forall|k: int| 0 <= k < ps@.len() ==> (#[trigger] ps@[k])@.events.len() <= 100000,
            1200 <= sp <= 1720,
            strings_view(order@) == section_order(pv),
            out@ == head + timeline_periods(pv, section_order(pv), sp as nat, i as int, theme@),
        decreases ps@.len() - i,
    {
        let p = &ps[i];
        assert(pv[i as int] == p@);
        let color: &str = match &p.section {
            Some(sec) => match crate::parser::git::first_index_of(order, &chars_of(sec.as_str())) {
                Some(k) => palette_of(k),
                None => palette_of(0),
            },
            None => palette_of(0),
        };
        assert(color@ == period_color(section_order(pv), p@));
        timeline_period_of(out, i as u64, p, color, sp, theme);
        assert(out@ =~= head + timeline_periods(pv, section_order(pv), sp as nat, i + 1, theme@));
        i += 1;
    }
}

/// Draw a timeline: one column per period along a horizontal spine, events
/// stacked below, periods colored by section.
pub fn render_timeline(tl: &Timeline, theme: &Theme) -> (r: String)
    requires
        timeline_fits(tl@),
    ensures
        r@ == timeline_svg(tl@, theme@),
{
    proof {
        reveal_strlit("empty timeline");
    }
    let ghost pv = tl@.periods;
    if tl.periods.len() == 0 {
        return string_of(&empty_svg_of("empty timeline"));
    }
    let n = tl.periods.len() as u64;
    let w = 640 + 3000 * n;
    let sp: u64 = if tl.title.is_some() {
        1720
    } else {
        1200
    };
    assert(forall|i: int| 0 <= i < tl.periods@.len() ==> (#[trigger] tl.periods@[i])@.events.len() <= 100000) by {
        assert forall|i: int| 0 <= i < tl.periods@.len() implies (#[trigger] tl.periods@[i])@.events.len() <= 100000 by {
            assert(tl@.periods[i] == tl.periods@[i]@);
        }
    }
    let me = max_events_of(&tl.periods);
    let h = sp + 920 + 520 * me;
    let order = section_order_of(&tl.periods);
    let mut out: Vec<char> = Vec::new();
    svg_open_of(&mut out, w, h, theme);
    title_block_of(&mut out, &tl.title, theme);
    put(&mut out, "<line x1=\"16\" y1=\"");
    append(&mut out, &fmt1_of(sp));
    put(&mut out, "\" x2=\"");
    append(&mut out, &fmt1_of(w - 320));
    put(&mut out, "\" y2=\"");
    append(&mut out, &fmt1_of(sp));
    put(&mut out, "\" stroke=\"");
    put(&mut out, theme.cluster_stroke);
    put(&mut out, "\" stroke-width=\"2\"/>");
    let ghost head = out@;
    assert(head =~= svg_open(w as nat, h as nat, theme@) + title_block(tl@.title, theme@)
        + "<line x1=\"16\" y1=\""@ + fmt1(sp as nat) + "\" x2=\""@ + fmt1((w - 320) as nat)
        + "\" y2=\""@ + fmt1(sp as nat) + "\" stroke=\""@ + theme@.cluster_stroke
        + "\" stroke-width=\"2\"/>"@);
    timeline_periods_of(&mut out, &tl.periods, &order, sp, theme);
    put(&mut out, "</svg>");
    string_of(&out)
}

/* ---------------- journey ---------------- */

/// Total number of tasks over all sections.
pub open spec fn total_tasks(secs: Seq<SectionV>) -> nat
    decreases secs.len(),
{
    if secs.len() == 0 {
        0
    } else {
        total_tasks(secs.drop_last()) + secs.last().tasks.len()
    }
}

/// Face color of a score: green for 4-5, amber for 3, red otherwise.
pub open spec fn face_color(score: u8) -> Seq<char> {
    if score == 4 || score == 5 {
        "#10b981"@
    } else if score == 3 {
        "#f59e0b"@
    } else {
        "#ef4444"@
    }
}

/// Score band `s` (1 to 5): a guide line and its number at the left.
pub open spec fn journey_band(s: nat, band_top: nat, w: nat, th: ThemeV) -> Seq<char> {
    let y = band_top + 520 * (5 - s);
    "<line x1=\"16\" y1=\""@ + fmt1(y as nat) + "\" x2=\""@ + fmt1((w - 320) as nat) + "\" y2=\""@
        + fmt1(y as nat) + "\" stroke=\""@ + th.cluster_stroke
        + "\" stroke-width=\"0.6\"/><text x=\"8\" y=\""@ + fmt1((y + 80) as nat)
        + "\" font-size=\"10\" fill=\""@ + th.edge_label + "\">"@ + dec(s) + "</text>"@
}

/// Bands 1 through `k`.
pub open spec fn journey_bands(k: nat, band_top: nat, w: nat, th: ThemeV) -> Seq<char>
    decreases k,
{
    if k == 0 {
        seq![]
    } else {
        journey_bands((k - 1) as nat, band_top, w, th) + journey_band(k, band_top, w, th)
    }
}

/// Center of a task drawn at column start `x` with `score`.
pub open spec fn task_point(x: nat, score: u8, band_top: nat) -> (nat, nat) {
    ((x + 1300) as nat, (band_top + 520 * (5 - score) + 260) as nat)
}

/// Connector from the previous task's point to this one.
pub open spec fn journey_link(prev: Option<(nat, nat)>, cx: nat, cy: nat, th: ThemeV) -> Seq<char> {
    match prev {
        Some((px, py)) => "<line x1=\""@ + fmt1(px) + "\" y1=\""@ + fmt1(py) + "\" x2=\""@ + fmt1(cx)
            + "\" y2=\""@ + fmt1(cy) + "\" stroke=\""@ + th.edge + "\" stroke-width=\"1.6\"/>"@,
        None => seq![],
    }
}

/// Score face and task label.
pub open spec fn journey_face(t: TaskV, cx: nat, cy: nat, h: nat, th: ThemeV) -> Seq<char> {
    "<circle cx=\""@ + fmt1(cx) + "\" cy=\""@ + fmt1(cy) + "\" r=\"11\" fill=\""@
        + face_color(t.score)
        + "\"/><text x=\""@ + fmt1(cx) + "\" y=\""@ + fmt1(cy)
        + "\" font-size=\"11\" font-weight=\"700\" fill=\"#fff\" text-anchor=\"middle\" dominant-baseline=\"central\">"@
        + dec(t.score as nat) + "</text>"@ + "<text x=\""@ + fmt1(cx) + "\" y=\""@
        + fmt1((h - 920) as nat) + "\" font-size=\"11.5\" fill=\""@ + th.text
        + "\" text-anchor=\"middle\">"@ + escape_spec(t.label) + "</text>"@
}

/// The task's actors, comma separated, when it has any.
pub open spec fn journey_actors(t: TaskV, cx: nat, h: nat, th: ThemeV) -> Seq<char> {
    if t.actors.len() > 0 {
        "<text x=\""@ + fmt1(cx) + "\" y=\""@ + fmt1((h - 640) as nat)
            + "\" font-size=\"10\" fill=\""@ + th.edge_label + "\" text-anchor=\"middle\">"@
            + escape_spec(join(t.actors, ", "@)) + "</text>"@
    } else {
        seq![]
    }
}

/// One task at column start `x`: the connector from the previous task, the
/// score face, the label and the actors.
pub open spec fn journey_task_svg(t: TaskV, x: nat, prev: Option<(nat, nat)>, band_top: nat, h: nat, th: ThemeV) -> Seq<char> {
    let (cx, cy) = task_point(x, t.score, band_top);
    journey_link(prev, cx, cy, th) + journey_face(t, cx, cy, h, th) + journey_actors(t, cx, h, th)
}

/// The first `k` tasks of a section, from column start `x0` and previous
/// task point `prev0`: drawing, next column start, last task point.
pub open spec fn journey_tasks(ts: Seq<TaskV>, k: int, x0: nat, prev0: Option<(nat, nat)>, band_top: nat, h: nat, th: ThemeV) -> (
    Seq<char>,
    nat,
    Option<(nat, nat)>,
)
    decreases k,
{
    if k <= 0 || k > ts.len() {
        (seq![], x0, prev0)
    } else {
        let (s, x, prev) = journey_tasks(ts, k - 1, x0, prev0, band_top, h, th);
        let t = ts[k - 1];
        (
            s + journey_task_svg(t, x, prev, band_top, h, th),
            x + 2600,
            Some(task_point(x, t.score, band_top)),
        )
    }
}

/// Section `si`'s name band under its tasks, when it has a name and tasks.
pub open spec fn journey_section_band(si: nat, sec: SectionV, x: nat, h: nat) -> Seq<char> {
    if sec.name.len() > 0 && sec.tasks.len() > 0 {
        let sw = 2600 * sec.tasks.len();
        let color = palette(si as int);
        "<rect x=\""@ + fmt1(x) + "\" y=\""@ + fmt1((h - 480) as nat) + "\" width=\""@ + fmt1(sw)
            + "\" height=\"18\" rx=\"4\" fill=\""@ + color + "\" opacity=\"0.85\"/><text x=\""@
            + fmt1(x + sw / 2) + "\" y=\""@ + fmt1((h - 300) as nat)
            + "\" font-size=\"11.5\" font-weight=\"600\" fill=\"#fff\" text-anchor=\"middle\" dominant-baseline=\"central\">"@
            + escape_spec(sec.name) + "</text>"@
    } else {
        seq![]
    }
}

/// The first `k` sections: drawing, next column start, last task point.
pub open spec fn journey_sections(secs: Seq<SectionV>, k: int, band_top: nat, h: nat, th: ThemeV) -> (
    Seq<char>,
    nat,
    Option<(nat, nat)>,
)
    decreases k,
{
    if k <= 0 || k > secs.len() {
        (seq![], 320, None)
    } else {
        let (s, x, prev) = journey_sections(secs, k - 1, band_top, h, th);
        let sec = secs[k - 1];
        let (ts, x2, prev2) = journey_tasks(sec.tasks, sec.tasks.len() as int, x, prev, band_top, h, th);
        (s + journey_section_band((k - 1) as nat, sec, x, h) + ts, x2, prev2)
    }
}

/// The journey drawing: five score bands, one column per task with a face
/// for its score, connected in order, section names along the bottom.
pub open spec fn journey_svg(j: JourneyV, th: ThemeV) -> Seq<char> {
    let total = total_tasks(j.sections);
    if total == 0 {
        empty_svg("empty journey"@)
    } else {
        let w = 640 + 2600 * total;
        let title_h: nat = if j.title is Some {
            800
        } else {
            280
        };
        let band_top = title_h + 520;
        let h = band_top + 2600 + 1280;
        svg_open(w, h, th) + title_block(j.title, th) + journey_bands(5, band_top, w, th)
            + journey_sections(j.sections, j.sections.len() as int, band_top, h, th).0 + "</svg>"@
    }
}

/// Scores within the drawn range and sizes for which the drawing's
/// single-precision coordinates are exact.
pub open spec fn journey_fits(j: JourneyV) -> bool {
    &&& total_tasks(j.sections) <= 20000
    &&& forall|i: int, k: int|
        0 <= i < j.sections.len() && 0 <= k < j.sections[i].tasks.len() ==> (
        #[trigger] j.sections[i].tasks[k]).score <= 5
}

fn journey_link_of(prev: Option<(u64, u64)>, cx: u64, cy: u64, th: &Theme) -> (r: Vec<char>)
    requires
        cx < 0x1_0000_0000,
        cy < 0x1_0000_0000,
        prev matches Some((px, py)) ==> px < 0x1_0000_0000 && py < 0x1_0000_0000,
    ensures
        r@ == journey_link(
            match prev {
                Some((a, b)) => Some((a as nat, b as nat)),
                None => None,
            },
            cx as nat,
            cy as nat,
            th@,
        ),
{
    match prev {
        Some((px, py)) => {
            let mut v = chars_of("<line x1=\"");
            append(&mut v, &fmt1_of(px));
            put(&mut v, "\" y1=\"");
            append(&mut v, &fmt1_of(py));
            put(&mut v, "\" x2=\"");
            append(&mut v, &fmt1_of(cx));
            put(&mut v, "\" y2=\"");
            append(&mut v, &fmt1_of(cy));
            put(&mut v, "\" stroke=\"");
            put(&mut v, th.edge);
            put(&mut v, "\" stroke-width=\"1.6\"/>");
            v
        },
        None => Vec::new(),
    }
}

/// A task's score face is a circle filled green (`#10b981`) exactly for
/// scores 4 and 5, amber (`#f59e0b`) exactly for score 3, and red
/// (`#ef4444`) for any other score.
pub proof fn law_journey_face_color(t: TaskV, cx: nat, cy: nat, h: nat, th: ThemeV)
    ensures
        ({
            let head = "<circle cx=\""@ + fmt1(cx) + "\" cy=\""@ + fmt1(cy) + "\" r=\"11\" fill=\""@;
            let face = journey_face(t, cx, cy, h, th);
            &&& face.len() >= head.len() + 7
            &&& face.take(head.len() as int) == head
            &&& (face.subrange(head.len() as int, head.len() as int + 7) == "#10b981"@ <==> (t.score == 4
                || t.score == 5))
            &&& (face.subrange(head.len() as int, head.len() as int + 7) == "#f59e0b"@ <==> t.score == 3)
            &&& (face.subrange(head.len() as int, head.len() as int + 7) == "#ef4444"@ <==> !(3 <= t.score
                <= 5))
        }),
{
    reveal_strlit("#10b981");
    reveal_strlit("#f59e0b");
    reveal_strlit("#ef4444");
    let green = "#10b981"@;
    let amber = "#f59e0b"@;
    let red = "#ef4444"@;
    assert(green =~= seq!['#', '1', '0', 'b', '9', '8', '1']);
    assert(amber =~= seq!['#', 'f', '5', '9', 'e', '0', 'b']);
    assert(red =~= seq!['#', 'e', 'f', '4', '4', '4', '4']);
    let head = "<circle cx=\""@ + fmt1(cx) + "\" cy=\""@ + fmt1(cy) + "\" r=\"11\" fill=\""@;
    let c = face_color(t.score);
    let rest = "\"/><text x=\""@ + fmt1(cx) + "\" y=\""@ + fmt1(cy)
        + "\" font-size=\"11\" font-weight=\"700\" fill=\"#fff\" text-anchor=\"middle\" dominant-baseline=\"central\">"@
        + dec(t.score as nat) + "</text>"@ + "<text x=\""@ + fmt1(cx) + "\" y=\""@
        + fmt1((h - 920) as nat) + "\" font-size=\"11.5\" fill=\""@ + th.text
        + "\" text-anchor=\"middle\">"@ + escape_spec(t.label) + "</text>"@;
    let face = journey_face(t, cx, cy, h, th);
    assert(face =~= head + c + rest);
    assert(c.len() == 7);
    assert(face.take(head.len() as int) =~= head);
    assert(face.subrange(head.len() as int, head.len() as int + 7) =~= c);
    assert(green[1] != amber[1] && green[1] != red[1] && amber[1] != red[1]);
}

/// A higher score is drawn higher up the band: for scores of at most 5,
/// the face of a better score has the smaller `y`, one band (520 twentieths
/// of a pixel) per point, in the same column.
pub proof fn law_journey_higher_score_higher(x: nat, a: u8, b: u8, band_top: nat)
    requires
        a <= 5,
        b <= 5,
    ensures
        task_point(x, a, band_top).0 == task_point(x, b, band_top).0,
        task_point(x, b, band_top).1 == task_point(x, a, band_top).1 + 520 * (a - b),
        a > b ==> task_point(x, a, band_top).1 < task_point(x, b, band_top).1,
{
}

fn journey_face_of(t: &crate::ir::linear::JourneyTask, cx: u64, cy: u64, h: u64, th: &Theme) -> (r: Vec<char>)
    requires
        cx < 0x1_0000_0000,
        cy < 0x1_0000_0000,
        920 <= h < 0x1_0000_0000,
    ensures
        r@ == journey_face(t@, cx as nat, cy as nat, h as nat, th@),
{
    let face: &str = if t.score == 4 || t.score == 5 {
        "#10b981"
    } else if t.score == 3 {
        "#f59e0b"
    } else {
        "#ef4444"
    };
    let mut v = chars_of("<circle cx=\"");
    append(&mut v, &fmt1_of(cx));
    put(&mut v, "\" cy=\"");
    append(&mut v, &fmt1_of(cy));
    put(&mut v, "\" r=\"11\" fill=\"");
    put(&mut v, face);
    put(&mut v, "\"/><text x=\"");
    append(&mut v, &fmt1_of(cx));
    put(&mut v, "\" y=\"");
    append(&mut v, &fmt1_of(cy));
    put(
        &mut v,
        "\" font-size=\"11\" font-weight=\"700\" fill=\"#fff\" text-anchor=\"middle\" dominant-baseline=\"central\">",
    );
    append(&mut v, &dec_of(t.score as u64));
    put(&mut v, "</text>");
    put(&mut v, "<text x=\"");
    append(&mut v, &fmt1_of(cx));
    put(&mut v, "\" y=\"");
    append(&mut v, &fmt1_of(h - 920));
    put(&mut v, "\" font-size=\"11.5\" fill=\"");
    put(&mut v, th.text);
    put(&mut v, "\" text-anchor=\"middle\">");
    append(&mut v, &escape_of(&chars_of(t.label.as_str())));
    put(&mut v, "</text>");
    v
}

fn journey_actors_of(t: &crate::ir::linear::JourneyTask, cx: u64, h: u64, th: &Theme) -> (r: Vec<char>)
    requires
        cx < 0x1_0000_0000,
        640 <= h < 0x1_0000_0000,
    ensures
        r@ == journey_actors(t@, cx as nat, h as nat, th@),
{
    if t.actors.len() == 0 {
        return Vec::new();
    }
    let mut pieces: Vec<Vec<char>> = Vec::new();
    let mut k: usize = 0;
    while k < t.actors.len()
        invariant
            k <= t.actors@.len(),
            views(pieces@) == strings_view(t.actors@).take(k as int),
        decreases t.actors@.len() - k,
    {
        let c = chars_of(t.actors[k].as_str());
        proof {
            crate::text::lemma_views_push(pieces@, c);
        }
        pieces.push(c);
        assert(strings_view(t.actors@).take(k + 1) =~= strings_view(t.actors@).take(k as int).push(
            t.actors@[k as int]@,
        ));
        k += 1;
    }
    assert(strings_view(t.actors@).take(t.actors@.len() as int) =~= strings_view(t.actors@));
    let joined = join_of(&pieces, &chars_of(", "));
    let mut v = chars_of("<text x=\"");
    append(&mut v, &fmt1_of(cx));
    put(&mut v, "\" y=\"");
    append(&mut v, &fmt1_of(h - 640));
    put(&mut v, "\" font-size=\"10\" fill=\"");
    put(&mut v, th.edge_label);
    put(&mut v, "\" text-anchor=\"middle\">");
    append(&mut v, &escape_of(&joined));
    put(&mut v, "</text>");
    v
}

fn journey_task_of(
    out: &mut Vec<char>,
    t: &crate::ir::linear::JourneyTask,
    x: u64,
    prev: Option<(u64, u64)>,
    band_top: u64,
    h: u64,
    th: &Theme,
)
    requires
        t.score <= 5,
        x < 0x1000_0000,
        800 <= band_top <= 1320,
        h == band_top + 3880,
        prev matches Some((px, py)) ==> px < 0x1000_0000 && py < 0x1000_0000,
    ensures
        final(out)@ == old(out)@ + journey_task_svg(
            t@,
            x as nat,
            match prev {
                Some((a, b)) => Some((a as nat, b as nat)),
                None => None,
            },
            band_top as nat,
            h as nat,
            th@,
        ),
{
    let cx = x + 1300;
    let cy = band_top + 520 * (5 - t.score as u64) + 260;
    let a = journey_link_of(prev, cx, cy, th);
    let b = journey_face_of(t, cx, cy, h, th);
    let c = journey_actors_of(t, cx, h, th);
    let mut v = a;
    append(&mut v, &b);
    append(&mut v, &c);
    append(out, &v);
}

fn journey_band_of(out: &mut Vec<char>, sc: u64, band_top: u64, w: u64, th: &Theme)
    requires
        1 <= sc <= 5,
        band_top <= 1320,
        320 <= w < 0x1000_0000,
    ensures
        final(out)@ == old(out)@ + journey_band(sc as nat, band_top as nat, w as nat, th@),
{
    let y = band_top + 520 * (5 - sc);
    let mut v = chars_of("<line x1=\"16\" y1=\"");
    append(&mut v, &fmt1_of(y));
    put(&mut v, "\" x2=\"");
    append(&mut v, &fmt1_of(w - 320));
    put(&mut v, "\" y2=\"");
    append(&mut v, &fmt1_of(y));
    put(&mut v, "\" stroke=\"");
    put(&mut v, th.cluster_stroke);
    put(&mut v, "\" stroke-width=\"0.6\"/><text x=\"8\" y=\"");
    append(&mut v, &fmt1_of(y + 80));
    put(&mut v, "\" font-size=\"10\" fill=\"");
    put(&mut v, th.edge_label);
    put(&mut v, "\">");
    append(&mut v, &dec_of(sc));
    put(&mut v, "</text>");
    append(out, &v);
}

fn journey_section_band_of(out: &mut Vec<char>, si: usize, sec: &crate::ir::linear::JourneySection, x: u64, h: u64)
    requires
        x < 0x1000_0000,
        sec.tasks@.len() <= 20000,
        480 <= h < 0x1000_0000,
    ensures
        final(out)@ == old(out)@ + journey_section_band(si as nat, sec@, x as nat, h as nat),
{
    let name = chars_of(sec.name.as_str());
    if name.len() > 0 && sec.tasks.len() > 0 {
        let sw = 2600 * sec.tasks.len() as u64;
        let mut v = chars_of("<rect x=\"");
        append(&mut v, &fmt1_of(x));
        put(&mut v, "\" y=\"");
        append(&mut v, &fmt1_of(h - 480));
        put(&mut v, "\" width=\"");
        append(&mut v, &fmt1_of(sw));
        put(&mut v, "\" height=\"18\" rx=\"4\" fill=\"");
        put(&mut v, palette_of(si));
        put(&mut v, "\" opacity=\"0.85\"/><text x=\"");
        append(&mut v, &fmt1_of(x + sw / 2));
        put(&mut v, "\" y=\"");
        append(&mut v, &fmt1_of(h - 300));
        put(
            &mut v,
            "\" font-size=\"11.5\" font-weight=\"600\" fill=\"#fff\" text-anchor=\"middle\" dominant-baseline=\"central\">",
        );
        append(&mut v, &escape_of(&name));
        put(&mut v, "</text>");
        append(out, &v);
    } else {
        assert(!(sec@.name.len() > 0 && sec@.tasks.len() > 0));
        assert(old(out)@ + Seq::<char>::empty() =~= old(out)@);
    }
}

proof fn lemma_total_tasks_prefix(secs: Seq<SectionV>, k: int)
    requires
        0 <= k <= secs.len(),
    ensures
        total_tasks(secs.take(k)) <= total_tasks(secs),
        k < secs.len() ==> total_tasks(secs.take(k)) + secs[k].tasks.len() <= total_tasks(secs),
    decreases secs.len() - k,
{
    if k < secs.len() {
        lemma_total_tasks_prefix(secs, k + 1);
        assert(secs.take(k + 1).drop_last() == secs.take(k));
    } else {
        assert(secs.take(k) == secs);
    }
}

proof fn lemma_journey_tasks_x(ts: Seq<TaskV>, k: int, x0: nat, prev0: Option<(nat, nat)>, band_top: nat, h: nat, th: ThemeV)
    requires
        0 <= k <= ts.len(),
    ensures
        journey_tasks(ts, k, x0, prev0, band_top, h, th).1 == x0 + 2600 * k,
    decreases k,
{
    if k > 0 {
        lemma_journey_tasks_x(ts, k - 1, x0, prev0, band_top, h, th);
    }
}

proof fn lemma_journey_sections_x(secs: Seq<SectionV>, k: int, band_top: nat, h: nat, th: ThemeV)
    requires
        0 <= k <= secs.len(),
    ensures
        journey_sections(secs, k, band_top, h, th).1 == 320 + 2600 * total_tasks(secs.take(k)),
    decreases k,
{
    if k > 0 {
        lemma_journey_sections_x(secs, k - 1, band_top, h, th);
        let (s, x, prev) = journey_sections(secs, k - 1, band_top, h, th);
        lemma_journey_tasks_x(secs[k - 1].tasks, secs[k - 1].tasks.len() as int, x, prev, band_top, h, th);
        assert(secs.take(k).drop_last() == secs.take(k - 1));
    }
}

fn total_tasks_of(secs: &Vec<crate::ir::linear::JourneySection>) -> (r: u64)
    ensures
        r == total_tasks(secs@.map_values(|s: crate::ir::linear::JourneySection| s@)) || (r == 20001
            && total_tasks(secs@.map_values(|s: crate::ir::linear::JourneySection| s@)) > 20000),
{
    let ghost sv = secs@.map_values(|s: crate::ir::linear::JourneySection| s@);
    let mut t: u64 = 0;
    let mut i: usize = 0;
    while i < secs.len()
        invariant
            i <= secs@.len(),
            sv == secs@.map_values(|s: crate::ir::linear::JourneySection| s@),
            t == total_tasks(sv.take(i as int)),
            t <= 20000,
        decreases secs@.len() - i,
    {
        assert(sv.take(i + 1).drop_last() == sv.take(i as int));
        assert(sv[i as int].tasks.len() == secs@[i as int].tasks@.len());
        let n = secs[i].tasks.len() as u64;
        if n > 20000 - t {
            proof {
                lemma_total_tasks_prefix(sv, i + 1);
                assert(sv.take(i + 1).len() == i + 1);
            }
            return 20001;
        }
        t = t + n;
        i += 1;
    }
    assert(sv.take(secs@.len() as int) == sv);
    t
}

/// Draw a user journey: five score bands, one column per task with a face
/// for its score, tasks connected in order, section names along the bottom.
#[verifier::spinoff_prover]
#[verifier::rlimit(80)]
pub fn render_journey(j: &Journey, theme: &Theme) -> (r: String)
    requires
        journey_fits(j@),
    ensures
        r@ == journey_svg(j@, theme@),
{
    proof {
        reveal_strlit("empty journey");
    }
    let ghost sv = j@.sections;
    let total = total_tasks_of(&j.sections);
    if total == 0 {
        return string_of(&empty_svg_of("empty journey"));
    }
    let w = 640 + 2600 * total;
    let band_top: u64 = if j.title.is_some() {
        1320
    } else {
        800
    };
    let h = band_top + 3880;
    let mut out: Vec<char> = Vec::new();
    svg_open_of(&mut out, w, h, theme);
    title_block_of(&mut out, &j.title, theme);
    let mut sc: u64 = 1;
    let ghost head0 = out@;
    while sc <= 5
        invariant
            1 <= sc <= 6,
            band_top <= 1320,
            w == 640 + 2600 * total,
            total <= 20000,
            out@ == head0 + journey_bands((sc - 1) as nat, band_top as nat, w as nat, theme@),
        decreases 6 - sc,
    {
        journey_band_of(&mut out, sc, band_top, w, theme);
        assert(out@ =~= head0 + journey_bands(sc as nat, band_top as nat, w as nat, theme@));
        sc += 1;
    }
    let ghost head = out@;
    let mut x: u64 = 320;
    let mut prev: Option<(u64, u64)> = None;
    let mut si: usize = 0;
    while si < j.sections.len()
        invariant
            si <= j.sections@.len(),
            sv == j@.sections,
            journey_fits(j@),
            total_tasks(sv) <= 20000,
            800 <= band_top <= 1320,
            h == band_top + 3880,
            ({
                let t = journey_sections(sv, si as int, band_top as nat, h as nat, theme@);
                &&& out@ == head + t.0
                &&& x == t.1
                &&& t.2 == (match prev {
                    Some((a, b)) => Some((a as nat, b as nat)),
                    None => None,
                })
            }),
            x == 320 + 2600 * total_tasks(sv.take(si as int)),
            prev matches Some((px, py)) ==> px < 0x1000_0000 && py < 0x1000_0000,
        decreases j.sections@.len() - si,
    {
        let sec = &j.sections[si];
        assert(sv[si as int] == sec@);
        proof {
            lemma_total_tasks_prefix(sv, si as int);
        }
        journey_section_band_of(&mut out, si, sec, x, h);
        let ghost mid = out@;
        let ghost x0 = x;
        let ghost p0 = match prev {
            Some((a, b)) => Some((a as nat, b as nat)),
            None => None,
        };
        let mut k: usize = 0;
        while k < sec.tasks.len()
            invariant
                k <= sec.tasks@.len(),
                sec@ == sv[si as int],
                si < sv.len(),
                journey_fits(j@),
                sv == j@.sections,
                total_tasks(sv.take(si as int)) + sec.tasks@.len() <= 20000,
                800 <= band_top <= 1320,
                h == band_top + 3880,
                ({
                    let t = journey_tasks(sec@.tasks, k as int, x0 as nat, p0, band_top as nat, h as nat, theme@);
                    &&& out@ == mid + t.0
                    &&& x == t.1
                    &&& t.2 == (match prev {
                        Some((a, b)) => Some((a as nat, b as nat)),
                        None => None,
                    })
                }),
                x == x0 + 2600 * k,
                x0 == 320 + 2600 * total_tasks(sv.take(si as int)),
                prev matches Some((px, py)) ==> px < 0x1000_0000 && py < 0x1000_0000,
            decreases sec.tasks@.len() - k,
        {
            let t = &sec.tasks[k];
            assert(sec@.tasks[k as int] == t@);
            assert(t.score <= 5) by {
                assert(j@.sections[si as int].tasks[k as int].score <= 5);
            }
            journey_task_of(&mut out, t, x, prev, band_top, h, theme);
            let cx = x + 1300;
            let cy = band_top + 520 * (5 - t.score as u64) + 260;
            prev = Some((cx, cy));
            x = x + 2600;
            proof {
                let t0 = journey_tasks(sec@.tasks, k as int, x0 as nat, p0, band_top as nat, h as nat, theme@);
                let t1 = journey_tasks(sec@.tasks, k + 1, x0 as nat, p0, band_top as nat, h as nat, theme@);
                assert(out@ =~= mid + t1.0);
            }
            k += 1;
        }
        proof {
            assert(sv.take(si + 1).drop_last() == sv.take(si as int));
            let t = journey_sections(sv, si + 1, band_top as nat, h as nat, theme@);
            assert(out@ =~= head + t.0);
        }
        si += 1;
    }
    proof {
        assert(sv.take(sv.len() as int) == sv);
    }
    put(&mut out, "</svg>");
    string_of(&out)
}

/* ---------------- gitGraph ---------------- */

/// Center line of branch lane `lane` (twentieths).
pub open spec fn lane_y(lane: nat) -> nat {
    920 + 880 * lane
}

/// Longest branch name in bytes; 4 when there are no branches.
pub open spec fn longest_branch(bs: Seq<Seq<char>>) -> nat
    decreases bs.len(),
{
    if bs.len() == 0 {
        4
    } else if bs.len() == 1 {
        byte_len(bs[0])
    } else {
        let m = longest_branch(bs.drop_last());
        let l = byte_len(bs.last());
        if l > m {
            l
        } else {
            m
        }
    }
}

/// Number of commits and merges (the drawn dots).
pub open spec fn dot_count(ops: Seq<GitOpV>) -> nat
    decreases ops.len(),
{
    if ops.len() == 0 {
        0
    } else {
        dot_count(ops.drop_last()) + if ops.last() is Branch {
            0nat
        } else {
            1nat
        }
    }
}

/// Straight lane segment from `px` to `x` at height `y`.
pub open spec fn git_line_seg(px: nat, x: nat, y: nat, color: Seq<char>) -> Seq<char> {
    "<line x1=\""@ + fmt1(px) + "\" y1=\""@ + fmt1(y) + "\" x2=\""@ + fmt1(x) + "\" y2=\""@ + fmt1(y)
        + "\" stroke=\""@ + color + "\" stroke-width=\"2\"/>"@
}

/// Fork or merge curve from (`fx`, `fy`) to (`x`, `y`).
pub open spec fn git_curve(fx: nat, fy: nat, x: nat, y: nat, color: Seq<char>) -> Seq<char> {
    "<path d=\"M"@ + fmt1(fx) + " "@ + fmt1(fy) + "C"@ + fmt1(fx + 672) + " "@ + fmt1(fy) + " "@
        + fmt1((x - 672) as nat) + " "@ + fmt1(y) + " "@ + fmt1(x) + " "@ + fmt1(y)
        + "\" fill=\"none\" stroke=\""@ + color + "\" stroke-width=\"2\"/>"@
}

/// A commit's id or tag above its dot.
pub open spec fn git_caption(text: Option<Seq<char>>, x: nat, y: nat, th: ThemeV) -> Seq<char> {
    match text {
        Some(t) => "<text x=\""@ + fmt1(x) + "\" y=\""@ + fmt1((y - 260) as nat)
            + "\" font-size=\"10\" fill=\""@ + th.edge_label + "\" text-anchor=\"middle\">"@
            + escape_spec(t) + "</text>"@,
        None => seq![],
    }
}

/// Drawing state while walking the statements: output so far, current x,
/// last dot per lane, fork point per lane, checked-out lane.
pub struct GitDraw {
    pub svg: Seq<char>,
    pub x: nat,
    pub last: Seq<Option<nat>>,
    pub fork: Seq<Option<(nat, nat)>>,
    pub cur: nat,
}

/// A commit dot.
pub open spec fn dot_svg(x: nat, y: nat, fill: Seq<char>, stroke: Seq<char>, width: Seq<char>) -> Seq<char> {
    "<circle cx=\""@ + fmt1(x) + "\" cy=\""@ + fmt1(y) + "\" r=\"7\" fill=\""@ + fill + "\" stroke=\""@
        + stroke + "\" stroke-width=\""@ + width + "\"/>"@
}

/// What a commit on lane `b` draws at `x`: the lane segment from the lane's
/// last dot (or the fork curve into a fresh lane), the dot, the caption.
pub open spec fn commit_piece(last_b: Option<nat>, fork_b: Option<(nat, nat)>, x: nat, b: nat, text: Option<Seq<char>>, th: ThemeV) -> Seq<char> {
    let y = lane_y(b);
    let color = palette(b as int);
    let seg = match last_b {
        Some(px) => git_line_seg(px, x, y, color),
        None => match fork_b {
            Some((from, fx)) => git_curve(fx, lane_y(from), x, y, color),
            None => seq![],
        },
    };
    seg + dot_svg(x, y, color, th.background, "2"@) + git_caption(text, x, y, th)
}

/// What a merge of lane `f` into lane `b` draws at `x`: the target lane's
/// segment, the curve from the source lane, the ring, the tag.
pub open spec fn merge_piece(last_b: Option<nat>, fx: nat, f: nat, x: nat, b: nat, tag: Option<Seq<char>>, th: ThemeV) -> Seq<char> {
    let y = lane_y(b);
    let color = palette(b as int);
    let seg = match last_b {
        Some(px) => git_line_seg(px, x, y, color),
        None => seq![],
    };
    seg + git_curve(fx, lane_y(f), x, y, palette(f as int)) + dot_svg(x, y, th.background, color, "2.5"@)
        + git_caption(tag, x, y, th)
}

/// One statement's effect on the drawing.
pub open spec fn git_step(st: GitDraw, op: GitOpV, bs: Seq<Seq<char>>, th: ThemeV) -> GitDraw {
    match op {
        GitOpV::Branch { name } => {
            let idx: nat = match first_index(bs, name, 0) {
                Some(i) => i as nat,
                None => 0,
            };
            GitDraw { fork: st.fork.update(idx as int, Some((st.cur, st.x))), cur: idx, ..st }
        },
        GitOpV::Commit { id, tag, branch } => {
            let b = branch as nat;
            let x = st.x + 1120;
            let text = if id is Some {
                id
            } else {
                tag
            };
            GitDraw {
                svg: st.svg + commit_piece(st.last[b as int], st.fork[b as int], x, b, text, th),
                x,
                last: st.last.update(b as int, Some(x)),
                cur: b,
                ..st
            }
        },
        GitOpV::Merge { from_branch, into_branch, tag } => {
            let f = from_branch as nat;
            let b = into_branch as nat;
            let x = st.x + 1120;
            let fx = match st.last[f as int] {
                Some(v) => v,
                None => st.x,
            };
            GitDraw {
                svg: st.svg + merge_piece(st.last[b as int], fx, f, x, b, tag, th),
                x,
                last: st.last.update(b as int, Some(x)),
                cur: b,
                ..st
            }
        },
    }
}

/// The drawing state after the first `k` statements.
pub open spec fn git_walk(ops: Seq<GitOpV>, k: int, init: GitDraw, bs: Seq<Seq<char>>, th: ThemeV) -> GitDraw
    decreases k,
{
    if k <= 0 || k > ops.len() {
        init
    } else {
        git_step(git_walk(ops, k - 1, init, bs, th), ops[k - 1], bs, th)
    }
}

/// Branch name labels at the left of their lanes (the first `k`).
pub open spec fn git_labels(bs: Seq<Seq<char>>, k: int) -> Seq<char>
    decreases k,
{
    if k <= 0 || k > bs.len() {
        seq![]
    } else {
        git_labels(bs, k - 1) + "<text x=\"10\" y=\""@ + fmt1(lane_y((k - 1) as nat))
            + "\" font-size=\"12\" font-weight=\"600\" fill=\""@ + palette(k - 1)
            + "\" dominant-baseline=\"central\">"@ + escape_spec(bs[k - 1]) + "</text>"@
    }
}

/// The git-graph drawing: one lane per branch, one step to the right per
/// commit or merge, fork and merge curves between lanes.
pub open spec fn git_svg(g: GitGraphV, th: ThemeV) -> Seq<char> {
    let count = dot_count(g.ops);
    if count == 0 {
        empty_svg("empty git graph"@)
    } else {
        git_walk(g.ops, g.ops.len() as int, git_start(g, th), g.branches, th).svg + "</svg>"@
    }
}

/// The git drawing before its statements: the opening tag and the lane
/// labels, the label column's width as the first x, no lane drawn yet.
pub open spec fn git_start(g: GitGraphV, th: ThemeV) -> GitDraw {
    let count = dot_count(g.ops);
    let nb = g.branches.len();
    let label_w = longest_branch(g.branches) * 150 + 480;
    let w = label_w + 1120 * count + 800;
    let h = 800 + 880 * nb;
    GitDraw {
        svg: svg_open(w, h, th) + git_labels(g.branches, nb as int),
        x: label_w,
        last: Seq::new(nb, |i: int| None),
        fork: Seq::new(nb, |i: int| None),
        cur: 0,
    }
}

/// Drawing extent, in tenths of a pixel, below which single-precision
/// coordinates in steps of a tenth print exactly: 2^20 pixels.
pub open spec fn exact_extent() -> nat {
    10_485_760
}

/// Statements that refer only to existing lanes (the drawing indexes lanes
/// by these numbers), and a drawing that stays within `exact_extent` both
/// ways, so that its single-precision coordinates are exact: the lanes
/// stack below it, and the label column (branch names of at most 69,000
/// bytes) plus one step per statement fit beside it.
pub open spec fn git_fits(g: GitGraphV) -> bool {
    &&& 800 + 880 * g.branches.len() <= exact_extent()
    &&& forall|i: int| 0 <= i < g.branches.len() ==> byte_len(#[trigger] g.branches[i]) <= 69_000
    &&& longest_branch(g.branches) * 150 + 1120 * g.ops.len() + 1280 <= exact_extent()
    &&& forall|i: int| 0 <= i < g.ops.len() ==> op_fits(#[trigger] g.ops[i], g.branches.len())
}

/// Mutable drawing state of the git-graph walk.
struct GitState {
    out: Vec<char>,
    x: u64,
    last: Vec<Option<u64>>,
    fork: Vec<Option<(u64, u64)>>,
    cur: u64,
}

spec fn opt_nat(o: Option<u64>) -> Option<nat> {
    match o {
        Some(v) => Some(v as nat),
        None => None,
    }
}

spec fn opt_pair(o: Option<(u64, u64)>) -> Option<(nat, nat)> {
    match o {
        Some((a, b)) => Some((a as nat, b as nat)),
        None => None,
    }
}

impl View for GitState {
    type V = GitDraw;

    closed spec fn view(&self) -> GitDraw {
        GitDraw {
            svg: self.out@,
            x: self.x as nat,
            last: self.last@.map_values(|o: Option<u64>| opt_nat(o)),
            fork: self.fork@.map_values(|o: Option<(u64, u64)>| opt_pair(o)),
            cur: self.cur as nat,
        }
    }
}

impl GitState {
    /// Lane tables sized to `nb` lanes with every coordinate below `bound`.
    spec fn sane(&self, nb: nat, bound: nat) -> bool {
        &&& self.last@.len() == nb
        &&& self.fork@.len() == nb
        &&& self.cur <= 12000
        &&& self.x <= bound
        &&& forall|i: int| 0 <= i < nb ==> (#[trigger] self.last@[i] matches Some(v) ==> v <= self.x)
        &&& forall|i: int|
            0 <= i < nb ==> (#[trigger] self.fork@[i] matches Some((f, v)) ==> f <= 12000 && v
                <= self.x)
    }
}

fn curve_of(v: &mut Vec<char>, fx: u64, fy: u64, x: u64, y: u64, color: &str)
    requires
        fx + 672 < 0x1_0000_0000,
        fy < 0x1_0000_0000,
        672 <= x < 0x1_0000_0000,
        y < 0x1_0000_0000,
    ensures
        final(v)@ == old(v)@ + git_curve(fx as nat, fy as nat, x as nat, y as nat, color@),
{
    let mut c = chars_of("<path d=\"M");
    append(&mut c, &fmt1_of(fx));
    put(&mut c, " ");
    append(&mut c, &fmt1_of(fy));
    put(&mut c, "C");
    append(&mut c, &fmt1_of(fx + 672));
    put(&mut c, " ");
    append(&mut c, &fmt1_of(fy));
    put(&mut c, " ");
    append(&mut c, &fmt1_of(x - 672));
    put(&mut c, " ");
    append(&mut c, &fmt1_of(y));
    put(&mut c, " ");
    append(&mut c, &fmt1_of(x));
    put(&mut c, " ");
    append(&mut c, &fmt1_of(y));
    put(&mut c, "\" fill=\"none\" stroke=\"");
    put(&mut c, color);
    put(&mut c, "\" stroke-width=\"2\"/>");
    append(v, &c);
}

fn line_seg_of(v: &mut Vec<char>, px: u64, x: u64, y: u64, color: &str)
    requires
        px < 0x1_0000_0000,
        x < 0x1_0000_0000,
        y < 0x1_0000_0000,
    ensures
        final(v)@ == old(v)@ + git_line_seg(px as nat, x as nat, y as nat, color@),
{
    let mut c = chars_of("<line x1=\"");
    append(&mut c, &fmt1_of(px));
    put(&mut c, "\" y1=\"");
    append(&mut c, &fmt1_of(y));
    put(&mut c, "\" x2=\"");
    append(&mut c, &fmt1_of(x));
    put(&mut c, "\" y2=\"");
    append(&mut c, &fmt1_of(y));
    put(&mut c, "\" stroke=\"");
    put(&mut c, color);
    put(&mut c, "\" stroke-width=\"2\"/>");
    append(v, &c);
}

fn caption_of(v: &mut Vec<char>, text: &Option<String>, x: u64, y: u64, th: &Theme)
    requires
        x < 0x1_0000_0000,
        260 <= y < 0x1_0000_0000,
    ensures
        final(v)@ == old(v)@ + git_caption(opt_view(*text), x as nat, y as nat, th@),
{
    match text {
        Some(t) => {
            let mut c = chars_of("<text x=\"");
            append(&mut c, &fmt1_of(x));
            put(&mut c, "\" y=\"");
            append(&mut c, &fmt1_of(y - 260));
            put(&mut c, "\" font-size=\"10\" fill=\"");
            put(&mut c, th.edge_label);
            put(&mut c, "\" text-anchor=\"middle\">");
            append(&mut c, &escape_of(&chars_of(t.as_str())));
            put(&mut c, "</text>");
            append(v, &c);
        },
        None => {
            assert(old(v)@ + Seq::<char>::empty() =~= old(v)@);
        },
    }
}

/// Whether a statement only names existing lanes.
pub open spec fn op_fits(op: GitOpV, nb: nat) -> bool {
    match op {
        GitOpV::Commit { branch, .. } => 0 <= branch < nb,
        GitOpV::Merge { from_branch, into_branch, .. } => 0 <= from_branch < nb && 0 <= into_branch < nb,
        GitOpV::Branch { .. } => nb > 0,
    }
}

fn dot_of(v: &mut Vec<char>, x: u64, y: u64, fill: &str, stroke: &str, width: &str)
    requires
        x < 0x1_0000_0000,
        y < 0x1_0000_0000,
    ensures
        final(v)@ == old(v)@ + dot_svg(x as nat, y as nat, fill@, stroke@, width@),
{
    let mut c = chars_of("<circle cx=\"");
    append(&mut c, &fmt1_of(x));
    put(&mut c, "\" cy=\"");
    append(&mut c, &fmt1_of(y));
    put(&mut c, "\" r=\"7\" fill=\"");
    put(&mut c, fill);
    put(&mut c, "\" stroke=\"");
    put(&mut c, stroke);
    put(&mut c, "\" stroke-width=\"");
    put(&mut c, width);
    put(&mut c, "\"/>");
    append(v, &c);
}

fn commit_piece_of(last_b: Option<u64>, fork_b: Option<(u64, u64)>, x: u64, b: usize, text: &Option<String>, th: &Theme) -> (r: Vec<char>)
    requires
        b <= 12000,
        1600 <= x <= 0x100_0000,
        last_b matches Some(px) ==> px <= x,
        fork_b matches Some((f, fx)) ==> f <= 12000 && fx <= x,
    ensures
        r@ == commit_piece(opt_nat(last_b), opt_pair(fork_b), x as nat, b as nat, opt_view(*text), th@),
{
    let y = 920 + 880 * b as u64;
    let color = palette_of(b);
    let mut v: Vec<char> = Vec::new();
    match last_b {
        Some(px) => {
            line_seg_of(&mut v, px, x, y, color);
        },
        None => match fork_b {
            Some((from, fx)) => {
                curve_of(&mut v, fx, 920 + 880 * from, x, y, color);
            },
            None => {},
        },
    }
    assert(v@ =~= Seq::<char>::empty() + v@);
    dot_of(&mut v, x, y, color, th.background, "2");
    caption_of(&mut v, text, x, y, th);
    v
}

#[verifier::spinoff_prover]
#[verifier::rlimit(50)]
fn merge_piece_of(last_b: Option<u64>, fx: u64, f: usize, x: u64, b: usize, tag: &Option<String>, th: &Theme) -> (r: Vec<char>)
    requires
        b <= 12000,
        f <= 12000,
        1600 <= x <= 0x100_0000,
        last_b matches Some(px) ==> px <= x,
        fx <= x,
    ensures
        r@ == merge_piece(opt_nat(last_b), fx as nat, f as nat, x as nat, b as nat, opt_view(*tag), th@),
{
    let y = 920 + 880 * b as u64;
    let color = palette_of(b);
    let mut v: Vec<char> = Vec::new();
    match last_b {
        Some(px) => {
            line_seg_of(&mut v, px, x, y, color);
        },
        None => {},
    }
    let ghost seg = v@;
    curve_of(&mut v, fx, 920 + 880 * f as u64, x, y, palette_of(f));
    assert(v@ == seg + git_curve(fx as nat, lane_y(f as nat), x as nat, lane_y(b as nat), palette(f as int)));
    let ghost mid = v@;
    dot_of(&mut v, x, y, th.background, color, "2.5");
    let ghost mid2 = v@;
    caption_of(&mut v, tag, x, y, th);
    assert(v@ == mid2 + git_caption(opt_view(*tag), x as nat, lane_y(b as nat), th@));
    v
}

fn git_step_of(st: &mut GitState, op: &GitOp, bs: &Vec<String>, th: &Theme)
    requires
        old(st).sane(bs@.len(), 0x100_0000),
        old(st).x + 1120 <= 0x100_0000,
        old(st).x >= 480,
        bs@.len() <= 12000,
        op_fits(op@, bs@.len()),
    ensures
        final(st).sane(bs@.len(), 0x100_0000),
        final(st)@ == git_step(old(st)@, op@, strings_view(bs@), th@),
        final(st).x == old(st).x + (if op@ is Branch {
            0nat
        } else {
            1120nat
        }),
{
    let ghost s0 = st@;
    match op {
        GitOp::Branch { name } => {
            let idx = match crate::parser::git::first_index_of(bs, &chars_of(name.as_str())) {
                Some(i) => i,
                None => 0,
            };
            let cur = st.cur;
            let x = st.x;
            st.fork.set(idx, Some((cur, x)));
            st.cur = idx as u64;
            assert(st@.fork =~= s0.fork.update(idx as int, Some((s0.cur, s0.x))));
            assert(st@.last =~= s0.last);
        },
        GitOp::Commit { id, tag, branch } => {
            let b = *branch;
            let x = st.x + 1120;
            assert(st@.last[b as int] == opt_nat(st.last@[b as int]));
            assert(st@.fork[b as int] == opt_pair(st.fork@[b as int]));
            let text = if id.is_some() {
                id
            } else {
                tag
            };
            let piece = commit_piece_of(st.last[b], st.fork[b], x, b, text, th);
            append(&mut st.out, &piece);
            st.x = x;
            st.last.set(b, Some(x));
            st.cur = b as u64;
            assert(st@.last =~= s0.last.update(b as int, Some(x as nat)));
            assert(st@.fork =~= s0.fork);
        },
        GitOp::Merge { from_branch, into_branch, tag } => {
            let f = *from_branch;
            let b = *into_branch;
            let x = st.x + 1120;
            assert(st@.last[b as int] == opt_nat(st.last@[b as int]));
            assert(st@.last[f as int] == opt_nat(st.last@[f as int]));
            let fx = match st.last[f] {
                Some(v) => v,
                None => st.x,
            };
            let piece = merge_piece_of(st.last[b], fx, f, x, b, tag, th);
            append(&mut st.out, &piece);
            st.x = x;
            st.last.set(b, Some(x));
            st.cur = b as u64;
            assert(st@.last =~= s0.last.update(b as int, Some(x as nat)));
            assert(st@.fork =~= s0.fork);
        },
    }
}

proof fn lemma_dot_count_step(ops: Seq<GitOpV>, i: int)
    requires
        0 <= i < ops.len(),
    ensures
        dot_count(ops.take(i + 1)) == dot_count(ops.take(i)) + (if ops[i] is Branch {
            0nat
        } else {
            1nat
        }),
        dot_count(ops.take(i)) <= i,
    decreases i,
{
    assert(ops.take(i + 1).drop_last() == ops.take(i));
    if i > 0 {
        lemma_dot_count_step(ops, i - 1);
    }
}

fn dot_count_of(ops: &Vec<GitOp>) -> (r: u64)
    requires
        ops@.len() <= 10000,
    ensures
        r == dot_count(ops@.map_values(|o: GitOp| o@)),
        r <= ops@.len(),
{
    let ghost ov = ops@.map_values(|o: GitOp| o@);
    let mut c: u64 = 0;
    let mut i: usize = 0;
    while i < ops.len()
        invariant
            i <= ops@.len() <= 10000,
            ov == ops@.map_values(|o: GitOp| o@),
            c == dot_count(ov.take(i as int)),
            c <= i,
        decreases ops@.len() - i,
    {
        proof {
            lemma_dot_count_step(ov, i as int);
        }
        assert(ov[i as int] == ops@[i as int]@);
        match &ops[i] {
            GitOp::Branch { .. } => {},
            _ => {
                c = c + 1;
            },
        }
        i += 1;
    }
    assert(ov.take(ops@.len() as int) == ov);
    c
}

fn longest_branch_of(bs: &Vec<String>) -> (r: u64)
    requires
        forall|i: int| 0 <= i < bs@.len() ==> byte_len(#[trigger] bs@[i]@) <= 69_000,
    ensures
        r == longest_branch(strings_view(bs@)),
        r <= 69_000,
{
    let ghost sv = strings_view(bs@);
    if bs.len() == 0 {
        return 4;
    }
    let mut m: u64 = byte_len_capped(&chars_of(bs[0].as_str()), 69_001);
    assert(sv[0] == bs@[0]@);
    assert(sv.take(1).len() == 1 && sv.take(1)[0] == sv[0]);
    let mut i: usize = 1;
    while i < bs.len()
        invariant
            1 <= i <= bs@.len(),
            sv == strings_view(bs@),
            forall|k: int| 0 <= k < bs@.len() ==> byte_len(#[trigger] bs@[k]@) <= 69_000,
            m == longest_branch(sv.take(i as int)),
            m <= 69_000,
        decreases bs@.len() - i,
    {
        assert(sv[i as int] == bs@[i as int]@);
        let l = byte_len_capped(&chars_of(bs[i].as_str()), 69_001);
        assert(sv.take(i + 1).drop_last() == sv.take(i as int));
        if l > m {
            m = l;
        }
        i += 1;
    }
    assert(sv.take(bs@.len() as int) == sv);
    m
}

fn labels_of(out: &mut Vec<char>, bs: &Vec<String>)
    requires
        bs@.len() <= 12000,
    ensures
        final(out)@ == old(out)@ + git_labels(strings_view(bs@), bs@.len() as int),
{
    let ghost sv = strings_view(bs@);
    let ghost start = out@;
    let mut i: usize = 0;
    while i < bs.len()
        invariant
            i <= bs@.len() <= 12000,
            sv == strings_view(bs@),
            out@ == start + git_labels(sv, i as int),
        decreases bs@.len() - i,
    {
        assert(sv[i as int] == bs@[i as int]@);
        let mut v = chars_of("<text x=\"10\" y=\"");
        append(&mut v, &fmt1_of(920 + 880 * i as u64));
        put(&mut v, "\" font-size=\"12\" font-weight=\"600\" fill=\"");
        put(&mut v, palette_of(i));
        put(&mut v, "\" dominant-baseline=\"central\">");
        append(&mut v, &escape_of(&chars_of(bs[i].as_str())));
        put(&mut v, "</text>");
        append(out, &v);
        assert(out@ =~= start + git_labels(sv, i + 1));
        i += 1;
    }
}

fn walk_ops(st: &mut GitState, ops: &Vec<GitOp>, bs: &Vec<String>, th: &Theme, Ghost(init): Ghost<GitDraw>)
    requires
        bs@.len() <= 12000,
        old(st)@ == init,
        old(st).sane(bs@.len(), 0x100_0000),
        480 <= old(st).x,
        old(st).x + 1120 * ops@.len() <= 0x100_0000,
        forall|i: int| 0 <= i < ops@.len() ==> op_fits((#[trigger] ops@[i])@, bs@.len()),
    ensures
        final(st)@ == git_walk(ops@.map_values(|o: GitOp| o@), ops@.len() as int, init, strings_view(bs@), th@),
{
    let ghost ov = ops@.map_values(|o: GitOp| o@);
    let ghost sv = strings_view(bs@);
    let ghost x0 = st.x;
    let mut i: usize = 0;
    while i < ops.len()
        invariant
            i <= ops@.len(),
            bs@.len() <= 12000,
            ov == ops@.map_values(|o: GitOp| o@),
            sv == strings_view(bs@),
            forall|k: int| 0 <= k < ops@.len() ==> op_fits((#[trigger] ops@[k])@, bs@.len()),
            st.sane(bs@.len(), 0x100_0000),
            st@ == git_walk(ov, i as int, init, sv, th@),
            480 <= x0,
            x0 + 1120 * ops@.len() <= 0x100_0000,
            x0 <= st.x <= x0 + 1120 * i,
        decreases ops@.len() - i,
    {
        assert(ov[i as int] == ops@[i as int]@);
        assert(op_fits(ops@[i as int]@, bs@.len()));
        git_step_of(st, &ops[i], bs, th);
        i += 1;
    }
}

/// Draw a git graph: one lane per branch, one step right per commit or
/// merge, fork and merge curves between lanes, ids and tags above the dots.
#[verifier::spinoff_prover]
#[verifier::rlimit(60)]
pub fn render_git(g: &GitGraph, theme: &Theme) -> (r: String)
    requires
        git_fits(g@),
    ensures
        r@ == git_svg(g@, theme@),
{
    proof {
        reveal_strlit("empty git graph");
    }
    let ghost bs = g@.branches;
    let ghost ov = g@.ops;
    let count = dot_count_of(&g.ops);
    if count == 0 {
        return string_of(&empty_svg_of("empty git graph"));
    }
    let nb = g.branches.len();
    assert forall|i: int| 0 <= i < g.branches@.len() implies byte_len(#[trigger] g.branches@[i]@) <= 69_000 by {
        assert(bs[i] == g.branches@[i]@);
    }
    let label_w = longest_branch_of(&g.branches) * 150 + 480;
    let w = label_w + 1120 * count + 800;
    let h = 800 + 880 * nb as u64;
    let mut out: Vec<char> = Vec::new();
    svg_open_of(&mut out, w, h, theme);
    labels_of(&mut out, &g.branches);
    let mut last: Vec<Option<u64>> = Vec::new();
    let mut fork: Vec<Option<(u64, u64)>> = Vec::new();
    let mut k: usize = 0;
    while k < nb
        invariant
            k <= nb == g.branches@.len(),
            last@.len() == k,
            fork@.len() == k,
            forall|i: int| 0 <= i < k ==> last@[i] is None && fork@[i] is None,
        decreases nb - k,
    {
        last.push(None);
        fork.push(None);
        k += 1;
    }
    let ghost init = GitDraw {
        svg: out@,
        x: label_w as nat,
        last: Seq::new(nb as nat, |i: int| None),
        fork: Seq::new(nb as nat, |i: int| None),
        cur: 0,
    };
    let mut st = GitState { out, x: label_w, last, fork, cur: 0 };
    assert(st@.last =~= init.last);
    assert(st@.fork =~= init.fork);
    proof {
        assert forall|i: int| 0 <= i < g.ops@.len() implies op_fits((#[trigger] g.ops@[i])@, nb as nat) by {
            assert(g@.ops[i] == g.ops@[i]@);
            assert(op_fits(g@.ops[i], g@.branches.len()));
        }
    }
    walk_ops(&mut st, &g.ops, &g.branches, theme, Ghost(init));
    let mut out = st.out;
    put(&mut out, "</svg>");
    string_of(&out)
}

/// Whether `render_timeline` can draw `tl` (see `timeline_fits`).
pub fn timeline_fits_of(tl: &Timeline) -> (r: bool)
    ensures
        r == timeline_fits(tl@),
{
    if tl.periods.len() > 20000 {
        return false;
    }
    let mut i: usize = 0;
    while i < tl.periods.len()
        invariant
            i <= tl.periods@.len(),
            forall|j: int| 0 <= j < i ==> (#[trigger] tl@.periods[j]).events.len() <= 100000,
        decreases tl.periods@.len() - i,
    {
        if tl.periods[i].events.len() > 100000 {
            assert(tl@.periods[i as int].events.len() > 100000);
            return false;
        }
        i += 1;
    }
    true
}

proof fn lemma_total_tasks_push(secs: Seq<SectionV>, k: int)
    requires
        0 <= k < secs.len(),
    ensures
        total_tasks(secs.take(k + 1)) == total_tasks(secs.take(k)) + secs[k].tasks.len(),
{
    assert(secs.take(k + 1).drop_last() =~= secs.take(k));
}

proof fn lemma_total_tasks_grows(secs: Seq<SectionV>, k: int)
    requires
        0 <= k <= secs.len(),
    ensures
        total_tasks(secs.take(k)) <= total_tasks(secs),
    decreases secs.len() - k,
{
    if k < secs.len() {
        lemma_total_tasks_push(secs, k);
        lemma_total_tasks_grows(secs, k + 1);
    } else {
        assert(secs.take(k) =~= secs);
    }
}

/// Whether `render_journey` can draw `j` (see `journey_fits`).
pub fn journey_fits_of(j: &Journey) -> (r: bool)
    ensures
        r == journey_fits(j@),
{
    let mut total: usize = 0;
    let mut i: usize = 0;
    while i < j.sections.len()
        invariant
            i <= j.sections@.len(),
            total == total_tasks(j@.sections.take(i as int)),
            total <= 20000,
            forall|a: int, k: int|
                0 <= a < i && 0 <= k < j@.sections[a].tasks.len() ==> (
                #[trigger] j@.sections[a].tasks[k]).score <= 5,
        decreases j.sections@.len() - i,
    {
        let sec = &j.sections[i];
        proof {
            lemma_total_tasks_push(j@.sections, i as int);
        }
        if sec.tasks.len() > 20000 - total {
            proof {
                lemma_total_tasks_grows(j@.sections, i + 1);
            }
            return false;
        }
        total = total + sec.tasks.len();
        let mut k: usize = 0;
        while k < sec.tasks.len()
            invariant
                *sec == j.sections@[i as int],
                i < j.sections@.len(),
                k <= sec.tasks@.len(),
                forall|a: int, t: int|
                    0 <= a < i && 0 <= t < j@.sections[a].tasks.len() ==> (
                    #[trigger] j@.sections[a].tasks[t]).score <= 5,
                forall|t: int| 0 <= t < k ==> (#[trigger] j@.sections[i as int].tasks[t]).score <= 5,
            decreases sec.tasks@.len() - k,
        {
            if sec.tasks[k].score > 5 {
                assert(j@.sections[i as int].tasks[k as int].score > 5);
                return false;
            }
            k += 1;
        }
        i += 1;
    }
    proof {
        assert(j@.sections.take(j@.sections.len() as int) =~= j@.sections);
    }
    true
}

/// Whether `render_git` can draw `g` (see `git_fits`).
pub fn git_fits_of(g: &GitGraph) -> (r: bool)
    ensures
        r == git_fits(g@),
{
    let nb = g.branches.len();
    if nb > 11914 {
        return false;
    }
    let mut i: usize = 0;
    while i < nb
        invariant
            nb == g.branches@.len(),
            i <= nb,
            forall|a: int| 0 <= a < i ==> byte_len(#[trigger] g@.branches[a]) <= 69_000,
        decreases nb - i,
    {
        let name = chars_of(g.branches[i].as_str());
        if byte_len_capped(name.as_slice(), 69_001) > 69_000 {
            assert(byte_len(g@.branches[i as int]) > 69_000);
            return false;
        }
        i += 1;
    }
    assert forall|a: int| 0 <= a < g.branches@.len() implies byte_len(#[trigger] g.branches@[a]@) <= 69_000 by {
        assert(g@.branches[a] == g.branches@[a]@);
    }
    let longest = longest_branch_of(&g.branches);
    if g.ops.len() > 10000 || longest * 150 + 1120 * (g.ops.len() as u64) + 1280 > 10_485_760 {
        return false;
    }
    let mut k: usize = 0;
    while k < g.ops.len()
        invariant
            nb == g.branches@.len(),
            nb <= 11914,
            k <= g.ops@.len(),
            forall|a: int| 0 <= a < k ==> op_fits(#[trigger] g@.ops[a], nb as nat),
        decreases g.ops@.len() - k,
    {
        let ok = match &g.ops[k] {
            GitOp::Commit { branch, .. } => *branch < nb,
            GitOp::Merge { from_branch, into_branch, .. } => *from_branch < nb && *into_branch < nb,
            GitOp::Branch { .. } => nb > 0,
        };
        if !ok {
            assert(!op_fits(g@.ops[k as int], nb as nat));
            return false;
        }
        k += 1;
    }
    true
}

/* ---------------- the journey drawing's faces ---------------- */

/// Theme colors free of `<`, as the built-in themes' are.
pub open spec fn theme_plain(th: ThemeV) -> bool {
    &&& no_lt(th.background)
    &&& no_lt(th.text)
    &&& no_lt(th.edge)
    &&& no_lt(th.edge_label)
    &&& no_lt(th.cluster_stroke)
}

proof fn lemma_journey_literals()
    ensures
        tagfree(" "@),
        tagfree("#06b6d4"@),
        tagfree("#10b981"@),
        tagfree("#3b82f6"@),
        tagfree("#84cc16"@),
        tagfree("#8b5cf6"@),
        tagfree("#ec4899"@),
        tagfree("#ef4444"@),
        tagfree("#f59e0b"@),
        tagfree(", "@),
        tagfree("</text>"@),
        tagfree("<line x1=\""@),
        tagfree("<line x1=\"16\" y1=\""@),
        tagfree("<rect x=\""@),
        tagfree("<svg xmlns=\"http://www.w3.org/2000/svg\" viewBox=\"0 0 "@),
        tagfree("<text x=\""@),
        tagfree("<text x=\"16\" y=\"24\" font-size=\"16\" font-weight=\"700\" fill=\""@),
        tagfree("Inter, 'Helvetica Neue', Arial, sans-serif"@),
        tagfree("\" cy=\""@),
        tagfree("\" fill=\""@),
        tagfree("\" font-family=\""@),
        tagfree("\" font-size=\"10\" fill=\""@),
        tagfree("\" font-size=\"11.5\" fill=\""@),
        tagfree("\" font-size=\"11.5\" font-weight=\"600\" fill=\"#fff\" text-anchor=\"middle\" dominant-baseline=\"central\">"@),
        tagfree("\" font-size=\"11\" font-weight=\"700\" fill=\"#fff\" text-anchor=\"middle\" dominant-baseline=\"central\">"@),
        tagfree("\" height=\""@),
        tagfree("\" height=\"18\" rx=\"4\" fill=\""@),
        tagfree("\" opacity=\"0.85\"/><text x=\""@),
        tagfree("\" r=\"11\" fill=\""@),
        tagfree("\" stroke-width=\"0.6\"/><text x=\"8\" y=\""@),
        tagfree("\" stroke-width=\"1.6\"/>"@),
        tagfree("\" stroke=\""@),
        tagfree("\" text-anchor=\"middle\">"@),
        tagfree("\" width=\""@),
        tagfree("\" x2=\""@),
        tagfree("\" y1=\""@),
        tagfree("\" y2=\""@),
        tagfree("\" y=\""@),
        tagfree("\"/>"@),
        tagfree("\"/><text x=\""@),
        tagfree("\">"@),
        tagfree("\"><rect width=\""@),
        "<circle cx=\""@ == circle_tag() + " cx=\""@,
        tagfree(" cx=\""@),
        "<svg xmlns=\"http://www.w3.org/2000/svg\" viewBox=\"0 0 "@.take(4) == "<svg"@,
        "<svg xmlns=\"http://www.w3.org/2000/svg\" viewBox=\"0 0 "@.len() >= 4,
        tagfree("</svg>"@),
        "</svg>"@.len() == 6,
        "</svg>"@[5] == '>',
        "</text>"@.len() == 7,
        "</text>"@[6] == '>',
        "\"/>"@.len() == 3,
        "\"/>"@[2] == '>',
        "\" stroke-width=\"1.6\"/>"@[("\" stroke-width=\"1.6\"/>"@.len() - 1) as int] == '>',
        " cx=\""@[0] == ' ',
{
    reveal_strlit(" ");
    reveal_strlit("#06b6d4");
    reveal_strlit("#10b981");
    reveal_strlit("#3b82f6");
    reveal_strlit("#84cc16");
    reveal_strlit("#8b5cf6");
    reveal_strlit("#ec4899");
    reveal_strlit("#ef4444");
    reveal_strlit("#f59e0b");
    reveal_strlit(", ");
    reveal_strlit("</text>");
    reveal_strlit("<line x1=\"");
    reveal_strlit("<line x1=\"16\" y1=\"");
    reveal_strlit("<rect x=\"");
    reveal_strlit("<svg xmlns=\"http://www.w3.org/2000/svg\" viewBox=\"0 0 ");
    reveal_strlit("<text x=\"");
    reveal_strlit("<text x=\"16\" y=\"24\" font-size=\"16\" font-weight=\"700\" fill=\"");
    reveal_strlit("Inter, 'Helvetica Neue', Arial, sans-serif");
    reveal_strlit("\" cy=\"");
    reveal_strlit("\" fill=\"");
    reveal_strlit("\" font-family=\"");
    reveal_strlit("\" font-size=\"10\" fill=\"");
    reveal_strlit("\" font-size=\"11.5\" fill=\"");
    reveal_strlit("\" font-size=\"11.5\" font-weight=\"600\" fill=\"#fff\" text-anchor=\"middle\" dominant-baseline=\"central\">");
    reveal_strlit("\" font-size=\"11\" font-weight=\"700\" fill=\"#fff\" text-anchor=\"middle\" dominant-baseline=\"central\">");
    reveal_strlit("\" height=\"");
    reveal_strlit("\" height=\"18\" rx=\"4\" fill=\"");
    reveal_strlit("\" opacity=\"0.85\"/><text x=\"");
    reveal_strlit("\" r=\"11\" fill=\"");
    reveal_strlit("\" stroke-width=\"0.6\"/><text x=\"8\" y=\"");
    reveal_strlit("\" stroke-width=\"1.6\"/>");
    reveal_strlit("\" stroke=\"");
    reveal_strlit("\" text-anchor=\"middle\">");
    reveal_strlit("\" width=\"");
    reveal_strlit("\" x2=\"");
    reveal_strlit("\" y1=\"");
    reveal_strlit("\" y2=\"");
    reveal_strlit("\" y=\"");
    reveal_strlit("\"/>");
    reveal_strlit("\"/><text x=\"");
    reveal_strlit("\">");
    reveal_strlit("\"><rect width=\"");
    reveal_strlit("<circle cx=\"");
    reveal_strlit(" cx=\"");
    reveal_strlit("<svg");
    reveal_strlit("</svg>");
    assert("<circle cx=\""@ =~= circle_tag() + " cx=\""@);
    assert("<svg xmlns=\"http://www.w3.org/2000/svg\" viewBox=\"0 0 "@.take(4) =~= "<svg"@);
}

proof fn lemma_fmt_no_lt(n: nat)
    ensures
        no_lt(fmt1(n)),
        no_lt(fmt0(n)),
{
    let t = crate::render::fmt::tenths(n);
    lemma_dec_no_lt(t / 10);
    lemma_dec_no_lt(crate::render::fmt::wholes(n));
    let d = dec(t / 10);
    let f = fmt1(n);
    assert forall|i: int| 0 <= i < f.len() implies #[trigger] f[i] != '<' by {
        if i < d.len() {
            assert(f[i] == d[i]);
        } else if i > d.len() {
            assert(f[i] == crate::text::digit_char((t % 10) as int));
            assert(crate::text::digit_char((t % 10) as int) as u32 == 48 + t % 10);
        }
    }
}

spec fn ends_gt(t: Seq<char>) -> bool {
    t.len() > 0 && t[t.len() - 1] == '>'
}

broadcast proof fn lemma_last_right(a: Seq<char>, b: Seq<char>)
    requires
        b.len() > 0,
    ensures
        #[trigger] (a + b)[(a + b).len() - 1] == b[b.len() - 1],
{
}

broadcast proof fn lemma_take_left(a: Seq<char>, b: Seq<char>, n: int)
    requires
        0 <= n <= a.len(),
    ensures
        #[trigger] (a + b).take(n) == a.take(n),
{
    assert((a + b).take(n) =~= a.take(n));
}

/// Pieces joined at a `>`/`<` seam count what their parts count.
proof fn lemma_seam(a: Seq<char>, b: Seq<char>)
    requires
        a.len() == 0 || ends_gt(a),
    ensures
        circles(a + b) == circles(a) + circles(b),
{
    lemma_circles_concat(a, b);
}

proof fn lemma_svg_open_circles(w: nat, h: nat, th: ThemeV)
    requires
        theme_plain(th),
    ensures
        circles(svg_open(w, h, th)) == 0,
        ends_gt(svg_open(w, h, th)),
        svg_open(w, h, th).take(4) == "<svg"@,
{
    broadcast use lemma_tagfree_concat, lemma_no_lt_tagfree, lemma_last_right, lemma_take_left;
    lemma_journey_literals();
    lemma_fmt_no_lt(w);
    lemma_fmt_no_lt(h);
    let s = svg_open(w, h, th);
    assert(tagfree(s));
    lemma_tagfree_circles(s);
    assert(s.take(4) == "<svg"@);
}

proof fn lemma_title_circles(title: Option<Seq<char>>, th: ThemeV)
    requires
        theme_plain(th),
    ensures
        circles(title_block(title, th)) == 0,
        title_block(title, th).len() == 0 || ends_gt(title_block(title, th)),
{
    broadcast use lemma_tagfree_concat, lemma_no_lt_tagfree, lemma_last_right;
    lemma_journey_literals();
    if let Some(t) = title {
        lemma_escape_no_lt(t);
        assert(tagfree(title_block(title, th)));
        lemma_tagfree_circles(title_block(title, th));
    }
}

proof fn lemma_band_circles(k: nat, band_top: nat, w: nat, th: ThemeV)
    requires
        theme_plain(th),
    ensures
        circles(journey_band(k, band_top, w, th)) == 0,
        ends_gt(journey_band(k, band_top, w, th)),
{
    broadcast use lemma_tagfree_concat, lemma_no_lt_tagfree, lemma_last_right;
    lemma_journey_literals();
    let y = band_top + 520 * (5 - k);
    lemma_fmt_no_lt(y as nat);
    lemma_fmt_no_lt((w - 320) as nat);
    lemma_fmt_no_lt((y + 80) as nat);
    lemma_dec_no_lt(k);
    let b = journey_band(k, band_top, w, th);
    assert(tagfree(b));
    lemma_tagfree_circles(b);
}

proof fn lemma_bands_circles(k: nat, band_top: nat, w: nat, th: ThemeV)
    requires
        theme_plain(th),
    ensures
        circles(journey_bands(k, band_top, w, th)) == 0,
        k > 0 ==> ends_gt(journey_bands(k, band_top, w, th)),
        k == 0 ==> journey_bands(k, band_top, w, th).len() == 0,
    decreases k,
{
    if k > 0 {
        broadcast use lemma_last_right;
        lemma_bands_circles((k - 1) as nat, band_top, w, th);
        lemma_band_circles(k, band_top, w, th);
        lemma_seam(journey_bands((k - 1) as nat, band_top, w, th), journey_band(k, band_top, w, th));
    }
}

proof fn lemma_link_circles(prev: Option<(nat, nat)>, cx: nat, cy: nat, th: ThemeV)
    requires
        theme_plain(th),
    ensures
        circles(journey_link(prev, cx, cy, th)) == 0,
        journey_link(prev, cx, cy, th).len() == 0 || ends_gt(journey_link(prev, cx, cy, th)),
{
    broadcast use lemma_tagfree_concat, lemma_no_lt_tagfree, lemma_last_right;
    match prev {
        Some((px, py)) => {
            lemma_journey_literals();
            lemma_fmt_no_lt(px);
            lemma_fmt_no_lt(py);
            lemma_fmt_no_lt(cx);
            lemma_fmt_no_lt(cy);
            let l = journey_link(prev, cx, cy, th);
            assert(tagfree(l));
            lemma_tagfree_circles(l);
            reveal_strlit("\" stroke-width=\"1.6\"/>");
            let last = "\" stroke-width=\"1.6\"/>"@;
            assert(last[last.len() - 1] == '>');
            assert(ends_gt(l));
        },
        None => {},
    }
}

/// The face without its leading tag.
spec fn face_rest(t: TaskV, cx: nat, cy: nat, h: nat, th: ThemeV) -> Seq<char> {
    " cx=\""@ + fmt1(cx) + "\" cy=\""@ + fmt1(cy) + "\" r=\"11\" fill=\""@
        + face_color(t.score)
        + "\"/><text x=\""@ + fmt1(cx) + "\" y=\""@ + fmt1(cy)
        + "\" font-size=\"11\" font-weight=\"700\" fill=\"#fff\" text-anchor=\"middle\" dominant-baseline=\"central\">"@
        + dec(t.score as nat) + "</text>"@ + "<text x=\""@ + fmt1(cx) + "\" y=\""@
        + fmt1((h - 920) as nat) + "\" font-size=\"11.5\" fill=\""@ + th.text
        + "\" text-anchor=\"middle\">"@ + escape_spec(t.label) + "</text>"@
}

proof fn lemma_face_rest_tagfree(t: TaskV, cx: nat, cy: nat, h: nat, th: ThemeV)
    requires
        theme_plain(th),
    ensures
        tagfree(face_rest(t, cx, cy, h, th)),
        ends_gt(face_rest(t, cx, cy, h, th)),
{
    broadcast use lemma_tagfree_concat, lemma_no_lt_tagfree, lemma_last_right;
    lemma_journey_literals();
    lemma_fmt_no_lt(cx);
    lemma_fmt_no_lt(cy);
    lemma_fmt_no_lt((h - 920) as nat);
    lemma_dec_no_lt(t.score as nat);
    lemma_escape_no_lt(t.label);
    assert(tagfree(face_color(t.score)));
    assert(tagfree(face_rest(t, cx, cy, h, th)));
}

#[verifier::spinoff_prover]
#[verifier::rlimit(100)]
proof fn lemma_face_split(t: TaskV, cx: nat, cy: nat, h: nat, th: ThemeV)
    ensures
        journey_face(t, cx, cy, h, th) == circle_tag() + face_rest(t, cx, cy, h, th),
{
    reveal_strlit("<circle cx=\"");
    reveal_strlit(" cx=\"");
    assert("<circle cx=\""@ =~= circle_tag() + " cx=\""@);
    assert(journey_face(t, cx, cy, h, th) =~= circle_tag() + face_rest(t, cx, cy, h, th));
}

proof fn lemma_face_circles(t: TaskV, cx: nat, cy: nat, h: nat, th: ThemeV)
    requires
        theme_plain(th),
    ensures
        circles(journey_face(t, cx, cy, h, th)) == 1,
        ends_gt(journey_face(t, cx, cy, h, th)),
{
    let r = face_rest(t, cx, cy, h, th);
    lemma_face_split(t, cx, cy, h, th);
    lemma_face_rest_tagfree(t, cx, cy, h, th);
    lemma_one_circle(r);
    assert(ends_gt(circle_tag() + r)) by {
        broadcast use lemma_last_right;
    }
}

proof fn lemma_actors_circles(t: TaskV, cx: nat, h: nat, th: ThemeV)
    requires
        theme_plain(th),
    ensures
        circles(journey_actors(t, cx, h, th)) == 0,
        journey_actors(t, cx, h, th).len() == 0 || ends_gt(journey_actors(t, cx, h, th)),
{
    broadcast use lemma_tagfree_concat, lemma_no_lt_tagfree, lemma_last_right;
    if t.actors.len() > 0 {
        lemma_journey_literals();
        lemma_fmt_no_lt(cx);
        lemma_fmt_no_lt((h - 640) as nat);
        lemma_escape_no_lt(join(t.actors, ", "@));
        let a = journey_actors(t, cx, h, th);
        assert(tagfree(a));
        lemma_tagfree_circles(a);
    }
}

proof fn lemma_task_circles(t: TaskV, x: nat, prev: Option<(nat, nat)>, band_top: nat, h: nat, th: ThemeV)
    requires
        theme_plain(th),
    ensures
        circles(journey_task_svg(t, x, prev, band_top, h, th)) == 1,
        ends_gt(journey_task_svg(t, x, prev, band_top, h, th)),
{
    let (cx, cy) = task_point(x, t.score, band_top);
    lemma_link_circles(prev, cx, cy, th);
    lemma_face_circles(t, cx, cy, h, th);
    lemma_actors_circles(t, cx, h, th);
    let link = journey_link(prev, cx, cy, th);
    let face = journey_face(t, cx, cy, h, th);
    let actors = journey_actors(t, cx, h, th);
    lemma_seam(link, face);
    assert(ends_gt(link + face)) by {
        broadcast use lemma_last_right;
    }
    lemma_seam(link + face, actors);
    if actors.len() == 0 {
        assert(link + face + actors =~= link + face);
    } else {
        assert(ends_gt(link + face + actors)) by {
            broadcast use lemma_last_right;
        }
    }
}

proof fn lemma_tasks_circles(ts: Seq<TaskV>, k: int, x0: nat, prev0: Option<(nat, nat)>, band_top: nat, h: nat, th: ThemeV)
    requires
        theme_plain(th),
        0 <= k <= ts.len(),
    ensures
        circles(journey_tasks(ts, k, x0, prev0, band_top, h, th).0) == k,
        k > 0 ==> ends_gt(journey_tasks(ts, k, x0, prev0, band_top, h, th).0),
        k == 0 ==> journey_tasks(ts, k, x0, prev0, band_top, h, th).0.len() == 0,
    decreases k,
{
    if k > 0 {
        lemma_tasks_circles(ts, k - 1, x0, prev0, band_top, h, th);
        let (s, x, prev) = journey_tasks(ts, k - 1, x0, prev0, band_top, h, th);
        lemma_task_circles(ts[k - 1], x, prev, band_top, h, th);
        let piece = journey_task_svg(ts[k - 1], x, prev, band_top, h, th);
        lemma_seam(s, piece);
        assert(ends_gt(s + piece)) by {
            broadcast use lemma_last_right;
        }
    }
}

proof fn lemma_section_band_circles(si: nat, sec: SectionV, x: nat, h: nat)
    ensures
        circles(journey_section_band(si, sec, x, h)) == 0,
        journey_section_band(si, sec, x, h).len() == 0 || ends_gt(journey_section_band(si, sec, x, h)),
{
    broadcast use lemma_tagfree_concat, lemma_no_lt_tagfree, lemma_last_right;
    if sec.name.len() > 0 && sec.tasks.len() > 0 {
        lemma_journey_literals();
        let sw = 2600 * sec.tasks.len();
        lemma_fmt_no_lt(x);
        lemma_fmt_no_lt((h - 480) as nat);
        lemma_fmt_no_lt(sw);
        lemma_fmt_no_lt(x + sw / 2);
        lemma_fmt_no_lt((h - 300) as nat);
        lemma_escape_no_lt(sec.name);
        assert(tagfree(palette(si as int)));
        let b = journey_section_band(si, sec, x, h);
        assert(tagfree(b));
        lemma_tagfree_circles(b);
    }
}

proof fn lemma_sections_circles(secs: Seq<SectionV>, k: int, band_top: nat, h: nat, th: ThemeV)
    requires
        theme_plain(th),
        0 <= k <= secs.len(),
    ensures
        circles(journey_sections(secs, k, band_top, h, th).0) == total_tasks(secs.take(k)),
        journey_sections(secs, k, band_top, h, th).0.len() == 0 || ends_gt(
            journey_sections(secs, k, band_top, h, th).0,
        ),
    decreases k,
{
    if k > 0 {
        lemma_sections_circles(secs, k - 1, band_top, h, th);
        let (s, x, prev) = journey_sections(secs, k - 1, band_top, h, th);
        let sec = secs[k - 1];
        lemma_section_band_circles((k - 1) as nat, sec, x, h);
        lemma_tasks_circles(sec.tasks, sec.tasks.len() as int, x, prev, band_top, h, th);
        let band = journey_section_band((k - 1) as nat, sec, x, h);
        let ts = journey_tasks(sec.tasks, sec.tasks.len() as int, x, prev, band_top, h, th).0;
        lemma_seam(s, band);
        if band.len() == 0 {
            assert(s + band =~= s);
        } else {
            assert(ends_gt(s + band)) by {
                broadcast use lemma_last_right;
            }
        }
        lemma_seam(s + band, ts);
        assert(secs.take(k).drop_last() =~= secs.take(k - 1));
        assert(secs.take(k).last() == sec);
        if ts.len() == 0 {
            assert(s + band + ts =~= s + band);
        } else {
            assert(ends_gt(s + band + ts)) by {
                broadcast use lemma_last_right;
            }
        }
    } else {
        assert(secs.take(0).len() == 0);
    }
}

/// A journey drawing holds one score face per task: with no task at all it
/// is the fixed "empty journey" drawing; otherwise it is one `<svg>` element
/// holding exactly one `<circle` per task, for any theme whose colors hold
/// no `<` (as the built-in themes' do).
pub proof fn law_journey_one_face_per_task(j: JourneyV, th: ThemeV)
    requires
        theme_plain(th),
    ensures
        total_tasks(j.sections) == 0 ==> journey_svg(j, th) == empty_svg("empty journey"@),
        total_tasks(j.sections) > 0 ==> {
            let s = journey_svg(j, th);
            &&& s.take(4) == "<svg"@
            &&& s.skip(s.len() - 6) == "</svg>"@
            &&& circles(s) == total_tasks(j.sections)
        },
{
    let total = total_tasks(j.sections);
    if total > 0 {
        let w = 640 + 2600 * total;
        let title_h: nat = if j.title is Some {
            800
        } else {
            280
        };
        let band_top = title_h + 520;
        let h = band_top + 2600 + 1280;
        lemma_journey_literals();
        lemma_svg_open_circles(w, h, th);
        lemma_title_circles(j.title, th);
        lemma_bands_circles(5, band_top, w, th);
        lemma_sections_circles(j.sections, j.sections.len() as int, band_top, h, th);
        assert(j.sections.take(j.sections.len() as int) =~= j.sections);
        let a = svg_open(w, h, th);
        let b = title_block(j.title, th);
        let c = journey_bands(5, band_top, w, th);
        let d = journey_sections(j.sections, j.sections.len() as int, band_top, h, th).0;
        let e = "</svg>"@;
        let s = a + b + c + d + e;
        assert(journey_svg(j, th) == s);
        lemma_seam(a, b);
        if b.len() == 0 {
            assert(a + b =~= a);
        }
        assert(ends_gt(a + b)) by {
            broadcast use lemma_last_right;
        }
        lemma_seam(a + b, c);
        assert(ends_gt(a + b + c)) by {
            broadcast use lemma_last_right;
        }
        lemma_seam(a + b + c, d);
        if d.len() == 0 {
            assert(a + b + c + d =~= a + b + c);
        }
        assert(ends_gt(a + b + c + d)) by {
            broadcast use lemma_last_right;
        }
        lemma_seam(a + b + c + d, e);
        lemma_tagfree_circles(e);
        assert(s.take(4) =~= a.take(4)) by {
            broadcast use lemma_take_left;
        }
        assert(s.skip(s.len() - 6) =~= e);
    }
}

/* ---------------- the git drawing's dots ---------------- */

proof fn lemma_git_literals()
    ensures
        tagfree(" "@),
        tagfree("2"@),
        tagfree("2.5"@),
        tagfree("</text>"@),
        tagfree("<line x1=\""@),
        tagfree("<path d=\"M"@),
        tagfree("<text x=\""@),
        tagfree("<text x=\"10\" y=\""@),
        tagfree("C"@),
        tagfree("\" cy=\""@),
        tagfree("\" dominant-baseline=\"central\">"@),
        tagfree("\" fill=\"none\" stroke=\""@),
        tagfree("\" font-size=\"10\" fill=\""@),
        tagfree("\" font-size=\"12\" font-weight=\"600\" fill=\""@),
        tagfree("\" r=\"7\" fill=\""@),
        tagfree("\" stroke-width=\""@),
        tagfree("\" stroke-width=\"2\"/>"@),
        tagfree("\" stroke=\""@),
        tagfree("\" text-anchor=\"middle\">"@),
        tagfree("\" x2=\""@),
        tagfree("\" y1=\""@),
        tagfree("\" y2=\""@),
        tagfree("\" y=\""@),
        tagfree("\"/>"@),
        "<circle cx=\""@ == circle_tag() + " cx=\""@,
{
    reveal_strlit(" ");
    reveal_strlit("2");
    reveal_strlit("2.5");
    reveal_strlit("</text>");
    reveal_strlit("<line x1=\"");
    reveal_strlit("<path d=\"M");
    reveal_strlit("<text x=\"");
    reveal_strlit("<text x=\"10\" y=\"");
    reveal_strlit("C");
    reveal_strlit("\" cy=\"");
    reveal_strlit("\" dominant-baseline=\"central\">");
    reveal_strlit("\" fill=\"none\" stroke=\"");
    reveal_strlit("\" font-size=\"10\" fill=\"");
    reveal_strlit("\" font-size=\"12\" font-weight=\"600\" fill=\"");
    reveal_strlit("\" r=\"7\" fill=\"");
    reveal_strlit("\" stroke-width=\"");
    reveal_strlit("\" stroke-width=\"2\"/>");
    reveal_strlit("\" stroke=\"");
    reveal_strlit("\" text-anchor=\"middle\">");
    reveal_strlit("\" x2=\"");
    reveal_strlit("\" y1=\"");
    reveal_strlit("\" y2=\"");
    reveal_strlit("\" y=\"");
    reveal_strlit("\"/>");
    reveal_strlit("<circle cx=\"");
    reveal_strlit(" cx=\"");
    assert("<circle cx=\""@ =~= circle_tag() + " cx=\""@);
}

proof fn lemma_palette_plain(i: int)
    ensures
        no_lt(palette(i)),
{
    lemma_journey_literals();
    assert(tagfree(palette(i)));
    reveal_strlit("#3b82f6");
    reveal_strlit("#8b5cf6");
    reveal_strlit("#f59e0b");
    reveal_strlit("#10b981");
    reveal_strlit("#ef4444");
    reveal_strlit("#06b6d4");
    reveal_strlit("#ec4899");
    reveal_strlit("#84cc16");
}

proof fn lemma_line_seg_circles(px: nat, x: nat, y: nat, color: Seq<char>)
    requires
        no_lt(color),
    ensures
        circles(git_line_seg(px, x, y, color)) == 0,
        ends_gt(git_line_seg(px, x, y, color)),
{
    broadcast use lemma_tagfree_concat, lemma_no_lt_tagfree, lemma_last_right;
    lemma_git_literals();
    lemma_fmt_no_lt(px);
    lemma_fmt_no_lt(x);
    lemma_fmt_no_lt(y);
    let l = git_line_seg(px, x, y, color);
    assert(tagfree(l));
    lemma_tagfree_circles(l);
    reveal_strlit("\" stroke-width=\"2\"/>");
    let last = "\" stroke-width=\"2\"/>"@;
    assert(last[last.len() - 1] == '>');
    assert(ends_gt(l));
}

proof fn lemma_curve_circles(fx: nat, fy: nat, x: nat, y: nat, color: Seq<char>)
    requires
        no_lt(color),
    ensures
        circles(git_curve(fx, fy, x, y, color)) == 0,
        ends_gt(git_curve(fx, fy, x, y, color)),
{
    broadcast use lemma_tagfree_concat, lemma_no_lt_tagfree, lemma_last_right;
    lemma_git_literals();
    lemma_fmt_no_lt(fx);
    lemma_fmt_no_lt(fy);
    lemma_fmt_no_lt(fx + 672);
    lemma_fmt_no_lt((x - 672) as nat);
    lemma_fmt_no_lt(x);
    lemma_fmt_no_lt(y);
    let l = git_curve(fx, fy, x, y, color);
    assert(tagfree(l));
    lemma_tagfree_circles(l);
    reveal_strlit("\" stroke-width=\"2\"/>");
    let last = "\" stroke-width=\"2\"/>"@;
    assert(last[last.len() - 1] == '>');
    assert(ends_gt(l));
}

proof fn lemma_caption_circles(text: Option<Seq<char>>, x: nat, y: nat, th: ThemeV)
    requires
        theme_plain(th),
    ensures
        circles(git_caption(text, x, y, th)) == 0,
        git_caption(text, x, y, th).len() == 0 || ends_gt(git_caption(text, x, y, th)),
{
    broadcast use lemma_tagfree_concat, lemma_no_lt_tagfree, lemma_last_right;
    if let Some(t) = text {
        lemma_git_literals();
        lemma_fmt_no_lt(x);
        lemma_fmt_no_lt((y - 260) as nat);
        lemma_escape_no_lt(t);
        let c = git_caption(text, x, y, th);
        assert(tagfree(c));
        lemma_tagfree_circles(c);
        reveal_strlit("</text>");
        assert(ends_gt(c));
    }
}

spec fn dot_rest(x: nat, y: nat, fill: Seq<char>, stroke: Seq<char>, width: Seq<char>) -> Seq<char> {
    " cx=\""@ + fmt1(x) + "\" cy=\""@ + fmt1(y) + "\" r=\"7\" fill=\""@ + fill + "\" stroke=\""@
        + stroke + "\" stroke-width=\""@ + width + "\"/>"@
}

#[verifier::spinoff_prover]
#[verifier::rlimit(100)]
proof fn lemma_dot_split(x: nat, y: nat, fill: Seq<char>, stroke: Seq<char>, width: Seq<char>)
    ensures
        dot_svg(x, y, fill, stroke, width) == circle_tag() + dot_rest(x, y, fill, stroke, width),
{
    reveal_strlit("<circle cx=\"");
    reveal_strlit(" cx=\"");
    assert("<circle cx=\""@ =~= circle_tag() + " cx=\""@);
    assert(dot_svg(x, y, fill, stroke, width) =~= circle_tag() + dot_rest(x, y, fill, stroke, width));
}

proof fn lemma_dot_rest_tagfree(x: nat, y: nat, fill: Seq<char>, stroke: Seq<char>, width: Seq<char>)
    requires
        no_lt(fill),
        no_lt(stroke),
        no_lt(width),
    ensures
        tagfree(dot_rest(x, y, fill, stroke, width)),
        ends_gt(dot_rest(x, y, fill, stroke, width)),
{
    broadcast use lemma_tagfree_concat, lemma_no_lt_tagfree, lemma_last_right;
    lemma_git_literals();
    lemma_fmt_no_lt(x);
    lemma_fmt_no_lt(y);
    reveal_strlit(" cx=\"");
    assert(tagfree(" cx=\""@));
    assert(tagfree(dot_rest(x, y, fill, stroke, width)));
    reveal_strlit("\"/>");
    let last = "\"/>"@;
    assert(last[last.len() - 1] == '>');
}

proof fn lemma_dot_circles(x: nat, y: nat, fill: Seq<char>, stroke: Seq<char>, width: Seq<char>)
    requires
        no_lt(fill),
        no_lt(stroke),
        no_lt(width),
    ensures
        circles(dot_svg(x, y, fill, stroke, width)) == 1,
        ends_gt(dot_svg(x, y, fill, stroke, width)),
{
    let r = dot_rest(x, y, fill, stroke, width);
    lemma_dot_split(x, y, fill, stroke, width);
    lemma_dot_rest_tagfree(x, y, fill, stroke, width);
    lemma_one_circle(r);
    assert(ends_gt(circle_tag() + r)) by {
        broadcast use lemma_last_right;
    }
}

proof fn lemma_commit_circles(last_b: Option<nat>, fork_b: Option<(nat, nat)>, x: nat, b: nat, text: Option<Seq<char>>, th: ThemeV)
    requires
        theme_plain(th),
    ensures
        circles(commit_piece(last_b, fork_b, x, b, text, th)) == 1,
        ends_gt(commit_piece(last_b, fork_b, x, b, text, th)),
{
    let y = lane_y(b);
    let color = palette(b as int);
    lemma_palette_plain(b as int);
    let seg = match last_b {
        Some(px) => git_line_seg(px, x, y, color),
        None => match fork_b {
            Some((from, fx)) => git_curve(fx, lane_y(from), x, y, color),
            None => seq![],
        },
    };
    match last_b {
        Some(px) => lemma_line_seg_circles(px, x, y, color),
        None => match fork_b {
            Some((from, fx)) => lemma_curve_circles(fx, lane_y(from), x, y, color),
            None => {},
        },
    }
    reveal_strlit("2");
    assert(no_lt("2"@));
    lemma_dot_circles(x, y, color, th.background, "2"@);
    lemma_caption_circles(text, x, y, th);
    let dot = dot_svg(x, y, color, th.background, "2"@);
    let cap = git_caption(text, x, y, th);
    lemma_seam(seg, dot);
    assert(ends_gt(seg + dot)) by {
        broadcast use lemma_last_right;
    }
    lemma_seam(seg + dot, cap);
    if cap.len() == 0 {
        assert(seg + dot + cap =~= seg + dot);
    } else {
        assert(ends_gt(seg + dot + cap)) by {
            broadcast use lemma_last_right;
        }
    }
}

proof fn lemma_merge_circles(last_b: Option<nat>, fx: nat, f: nat, x: nat, b: nat, tag: Option<Seq<char>>, th: ThemeV)
    requires
        theme_plain(th),
    ensures
        circles(merge_piece(last_b, fx, f, x, b, tag, th)) == 1,
        ends_gt(merge_piece(last_b, fx, f, x, b, tag, th)),
{
    let y = lane_y(b);
    let color = palette(b as int);
    lemma_palette_plain(b as int);
    lemma_palette_plain(f as int);
    let seg = match last_b {
        Some(px) => git_line_seg(px, x, y, color),
        None => seq![],
    };
    if let Some(px) = last_b {
        lemma_line_seg_circles(px, x, y, color);
    }
    let cur = git_curve(fx, lane_y(f), x, y, palette(f as int));
    lemma_curve_circles(fx, lane_y(f), x, y, palette(f as int));
    reveal_strlit("2.5");
    assert(no_lt("2.5"@));
    lemma_dot_circles(x, y, th.background, color, "2.5"@);
    lemma_caption_circles(tag, x, y, th);
    let dot = dot_svg(x, y, th.background, color, "2.5"@);
    let cap = git_caption(tag, x, y, th);
    lemma_seam(seg, cur);
    assert(ends_gt(seg + cur)) by {
        broadcast use lemma_last_right;
    }
    lemma_seam(seg + cur, dot);
    assert(ends_gt(seg + cur + dot)) by {
        broadcast use lemma_last_right;
    }
    lemma_seam(seg + cur + dot, cap);
    if cap.len() == 0 {
        assert(seg + cur + dot + cap =~= seg + cur + dot);
    } else {
        assert(ends_gt(seg + cur + dot + cap)) by {
            broadcast use lemma_last_right;
        }
    }
}

proof fn lemma_walk_circles(ops: Seq<GitOpV>, k: int, init: GitDraw, bs: Seq<Seq<char>>, th: ThemeV)
    requires
        theme_plain(th),
        0 <= k <= ops.len(),
        ends_gt(init.svg),
    ensures
        circles(git_walk(ops, k, init, bs, th).svg) == circles(init.svg) + dot_count(ops.take(k)),
        ends_gt(git_walk(ops, k, init, bs, th).svg),
    decreases k,
{
    if k == 0 {
        assert(ops.take(0).len() == 0);
    } else {
        lemma_walk_circles(ops, k - 1, init, bs, th);
        lemma_dot_count_step(ops, k - 1);
        let st = git_walk(ops, k - 1, init, bs, th);
        match ops[k - 1] {
            GitOpV::Branch { .. } => {},
            GitOpV::Commit { id, tag, branch } => {
                let b = branch as nat;
                let x = st.x + 1120;
                let text = if id is Some {
                    id
                } else {
                    tag
                };
                let piece = commit_piece(st.last[b as int], st.fork[b as int], x, b, text, th);
                lemma_commit_circles(st.last[b as int], st.fork[b as int], x, b, text, th);
                lemma_seam(st.svg, piece);
                assert(ends_gt(st.svg + piece)) by {
                    broadcast use lemma_last_right;
                }
            },
            GitOpV::Merge { from_branch, into_branch, tag } => {
                let f = from_branch as nat;
                let b = into_branch as nat;
                let x = st.x + 1120;
                let fx = match st.last[f as int] {
                    Some(v) => v,
                    None => st.x,
                };
                let piece = merge_piece(st.last[b as int], fx, f, x, b, tag, th);
                lemma_merge_circles(st.last[b as int], fx, f, x, b, tag, th);
                lemma_seam(st.svg, piece);
                assert(ends_gt(st.svg + piece)) by {
                    broadcast use lemma_last_right;
                }
            },
        }
    }
}

proof fn lemma_labels_circles(bs: Seq<Seq<char>>, k: int)
    requires
        0 <= k <= bs.len(),
    ensures
        circles(git_labels(bs, k)) == 0,
        k > 0 ==> ends_gt(git_labels(bs, k)),
        k == 0 ==> git_labels(bs, k).len() == 0,
    decreases k,
{
    if k > 0 {
        lemma_labels_circles(bs, k - 1);
        let prev = git_labels(bs, k - 1);
        let piece = "<text x=\"10\" y=\""@ + fmt1(lane_y((k - 1) as nat))
            + "\" font-size=\"12\" font-weight=\"600\" fill=\""@ + palette(k - 1)
            + "\" dominant-baseline=\"central\">"@ + escape_spec(bs[k - 1]) + "</text>"@;
        assert(piece.len() > 0);
        assert(tagfree(piece)) by {
            broadcast use lemma_tagfree_concat, lemma_no_lt_tagfree;
            lemma_git_literals();
            lemma_fmt_no_lt(lane_y((k - 1) as nat));
            lemma_palette_plain(k - 1);
            lemma_escape_no_lt(bs[k - 1]);
        }
        lemma_tagfree_circles(piece);
        reveal_strlit("</text>");
        assert(ends_gt(piece)) by {
            broadcast use lemma_last_right;
        }
        assert(git_labels(bs, k) =~= prev + piece);
        lemma_seam(prev, piece);
        assert(ends_gt(prev + piece)) by {
            broadcast use lemma_last_right;
        }
    }
}

proof fn lemma_git_head(w: nat, h: nat, bs: Seq<Seq<char>>, th: ThemeV)
    requires
        theme_plain(th),
    ensures
        circles(svg_open(w, h, th) + git_labels(bs, bs.len() as int)) == 0,
        ends_gt(svg_open(w, h, th) + git_labels(bs, bs.len() as int)),
        (svg_open(w, h, th) + git_labels(bs, bs.len() as int)).take(4) == "<svg"@,
{
    let open = svg_open(w, h, th);
    let labels = git_labels(bs, bs.len() as int);
    lemma_svg_open_circles(w, h, th);
    lemma_labels_circles(bs, bs.len() as int);
    lemma_seam(open, labels);
    if labels.len() == 0 {
        assert(open + labels =~= open);
    }
    assert(ends_gt(open + labels)) by {
        broadcast use lemma_last_right;
    }
    assert((open + labels).take(4) =~= open.take(4));
}

/// A git-graph drawing holds one dot per commit or merge: with none it is
/// the fixed "empty git graph" drawing; otherwise it is one `<svg>` element
/// holding exactly one `<circle` per commit or merge statement, for any
/// theme whose colors hold no `<` (as the built-in themes' do).
#[verifier::spinoff_prover]
#[verifier::rlimit(100)]
pub proof fn law_git_one_dot_per_commit(g: GitGraphV, th: ThemeV)
    requires
        theme_plain(th),
    ensures
        dot_count(g.ops) == 0 ==> git_svg(g, th) == empty_svg("empty git graph"@),
        dot_count(g.ops) > 0 ==> {
            let s = git_svg(g, th);
            &&& s.take(4) == "<svg"@
            &&& s.skip(s.len() - 6) == "</svg>"@
            &&& circles(s) == dot_count(g.ops)
        },
{
    if dot_count(g.ops) > 0 {
        let init = git_start(g, th);
        lemma_git_start(g, th);
        lemma_git_body(g.ops, init, g.branches, th);
        lemma_git_body_start(g.ops, init, g.branches, th);
        let walked = git_walk(g.ops, g.ops.len() as int, init, g.branches, th).svg;
        lemma_git_close(walked, dot_count(g.ops));
        assert(git_svg(g, th) == walked + "</svg>"@);
    }
}

proof fn lemma_git_close(walked: Seq<char>, n: nat)
    requires
        circles(walked) == n,
        ends_gt(walked),
        walked.len() >= 4,
        walked.take(4) == "<svg"@,
    ensures
        ({
            let s = walked + "</svg>"@;
            &&& s.take(4) == "<svg"@
            &&& s.skip(s.len() - 6) == "</svg>"@
            &&& circles(s) == n
        }),
{
    reveal_strlit("</svg>");
    let e = "</svg>"@;
    lemma_seam(walked, e);
    lemma_tagfree_circles(e);
    let s = walked + e;
    assert(s.take(4) =~= walked.take(4));
    assert(s.skip(s.len() - 6) =~= e);
}

proof fn lemma_git_start(g: GitGraphV, th: ThemeV)
    requires
        theme_plain(th),
    ensures
        circles(git_start(g, th).svg) == 0,
        ends_gt(git_start(g, th).svg),
        git_start(g, th).svg.take(4) == "<svg"@,
        git_start(g, th).svg.len() >= 4,
{
    let count = dot_count(g.ops);
    let nb = g.branches.len();
    let label_w = longest_branch(g.branches) * 150 + 480;
    let w = label_w + 1120 * count + 800;
    let h = 800 + 880 * nb;
    lemma_git_head(w, h, g.branches, th);
}

#[verifier::spinoff_prover]
proof fn lemma_git_body(ops: Seq<GitOpV>, init: GitDraw, bs: Seq<Seq<char>>, th: ThemeV)
    requires
        theme_plain(th),
        circles(init.svg) == 0,
        ends_gt(init.svg),
    ensures
        circles(git_walk(ops, ops.len() as int, init, bs, th).svg) == dot_count(ops),
        ends_gt(git_walk(ops, ops.len() as int, init, bs, th).svg),
{
    let n = ops.len() as int;
    lemma_walk_circles(ops, n, init, bs, th);
    assert(ops.take(n) =~= ops);
}

proof fn lemma_git_body_start(ops: Seq<GitOpV>, init: GitDraw, bs: Seq<Seq<char>>, th: ThemeV)
    requires
        init.svg.take(4) == "<svg"@,
        init.svg.len() >= 4,
    ensures
        git_walk(ops, ops.len() as int, init, bs, th).svg.take(4) == "<svg"@,
        git_walk(ops, ops.len() as int, init, bs, th).svg.len() >= 4,
{
    let n = ops.len() as int;
    lemma_walk_prefix(ops, n, init, bs, th);
    let walked = git_walk(ops, n, init, bs, th).svg;
    assert(walked.take(4) =~= walked.take(init.svg.len() as int).take(4));
}

/// The walk only appends to the drawing it starts from.
proof fn lemma_walk_prefix(ops: Seq<GitOpV>, k: int, init: GitDraw, bs: Seq<Seq<char>>, th: ThemeV)
    requires
        0 <= k <= ops.len(),
    ensures
        git_walk(ops, k, init, bs, th).svg.len() >= init.svg.len(),
        git_walk(ops, k, init, bs, th).svg.take(init.svg.len() as int) == init.svg,
    decreases k,
{
    if k == 0 {
        assert(init.svg.take(init.svg.len() as int) =~= init.svg);
    } else {
        lemma_walk_prefix(ops, k - 1, init, bs, th);
        let st = git_walk(ops, k - 1, init, bs, th);
        let st2 = git_walk(ops, k, init, bs, th);
        assert(exists|p: Seq<char>| st2.svg == st.svg + p) by {
            match ops[k - 1] {
                GitOpV::Branch { .. } => {
                    assert(st2.svg == st.svg + Seq::<char>::empty());
                },
                _ => {},
            }
        }
        let p = choose|p: Seq<char>| st2.svg == st.svg + p;
        assert(st2.svg.take(init.svg.len() as int) =~= st.svg.take(init.svg.len() as int));
    }
}

} // verus!
