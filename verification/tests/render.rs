use layra::icons::{alias_key, namespace_ids, IconCategory};
use layra::ir::charts::TaskStatus;
use layra::ir::linear::{GitGraph, GitOp, Journey, JourneySection, JourneyTask, Timeline, TimelinePeriod};
use layra::ir::style::ComponentRole;
use layra::ir::graph::EdgeKind;
use layra::ir::style::EdgeStyle;
use layra::render::{css_color, edge_dash, edge_markers, escape, write_defs};
use layra::render::gantt::{format_date, pick_tick, status_color};
use layra::render::linear::{
    git_fits_of, journey_fits_of, render_git, render_journey, render_timeline, timeline_fits_of,
};
use layra::render::theme::Theme;

#[test]
fn category_palette_maps_to_aws_hues() {
    assert_eq!(IconCategory::Compute.color(), "#ED7100");
    assert_eq!(IconCategory::Storage.color(), "#7AA116");
    assert_eq!(IconCategory::Database.color(), "#2E73B8");
    assert_eq!(IconCategory::Network.color(), "#8C4FFF");
    assert_eq!(IconCategory::Security.color(), "#D13212");
    assert_eq!(IconCategory::Integration.color(), "#E7157B");
}

#[test]
fn date_roundtrip() {
    assert_eq!(format_date(20454), "01-01");
    assert_eq!(format_date(20454 + 31), "02-01");
}

#[test]
fn format_date_handles_leap_days_and_negatives() {
    assert_eq!(format_date(0), "01-01");
    assert_eq!(format_date(-1), "12-31");
    // 2024-02-29
    assert_eq!(format_date(19782), "02-29");
}

#[test]
fn ticks_pick_the_first_fitting_interval() {
    assert_eq!(pick_tick(10), 1);
    assert_eq!(pick_tick(11), 2);
    assert_eq!(pick_tick(60), 7);
    assert_eq!(pick_tick(5000), 365);
}

#[test]
fn status_colors_follow_roles() {
    let t = Theme::light();
    assert_eq!(status_color(TaskStatus::Done, &t), t.role_color(ComponentRole::External));
    assert_eq!(status_color(TaskStatus::Critical, &t), "#ef4444");
}

#[test]
fn themes_share_role_hues() {
    assert_eq!(Theme::light().role_color(ComponentRole::Database), "#8b5cf6");
    assert_eq!(Theme::dark().role_color(ComponentRole::Database), "#8b5cf6");
    assert_eq!(Theme::light().role_color(ComponentRole::Generic), "#94a3b8");
    assert!(Theme::dark().is_dark && !Theme::light().is_dark);
    assert_eq!(Theme::dark().background, "#0f1115");
}

#[test]
fn escape_replaces_markup_characters() {
    assert_eq!(escape("Hello & <World> \"q\""), "Hello &amp; &lt;World&gt; &quot;q&quot;");
    assert_eq!(escape("plain"), "plain");
}

#[test]
fn timeline_renders_periods() {
    let tl = Timeline {
        title: Some("History".into()),
        periods: vec![
            TimelinePeriod { label: "2024".into(), events: vec!["idea".into(), "proto".into()], section: None },
            TimelinePeriod { label: "2025".into(), events: vec!["launch".into()], section: None },
        ],
    };
    let svg = render_timeline(&tl, &Theme::light());
    assert!(svg.contains("2024") && svg.contains("launch"));
}

#[test]
fn timeline_geometry_is_exact() {
    let tl = Timeline {
        title: None,
        periods: vec![TimelinePeriod { label: "Q1".into(), events: vec!["x".into()], section: Some("s".into()) }],
    };
    let svg = render_timeline(&tl, &Theme::light());
    assert!(svg.starts_with("<svg xmlns=\"http://www.w3.org/2000/svg\" viewBox=\"0 0 182 132\""));
    // pill width 2 * 7.5 + 20 = 35, left edge 91 - 17.5
    assert!(svg.contains("<rect x=\"73.5\" y=\"22.0\" width=\"35.0\""));
    // label of three bytes: pill 42.5 wide, left edge 69.75 prints as 69.8
    let tl3 = Timeline {
        title: None,
        periods: vec![TimelinePeriod { label: "Q12".into(), events: vec![], section: None }],
    };
    let svg3 = render_timeline(&tl3, &Theme::light());
    assert!(svg3.contains("<rect x=\"69.8\" y=\"22.0\" width=\"42.5\""));
    assert!(svg.ends_with("</svg>"));
}

#[test]
fn empty_timeline_is_graceful() {
    let svg = render_timeline(&Timeline { title: None, periods: vec![] }, &Theme::dark());
    assert!(svg.contains("empty timeline"));
}

#[test]
fn journey_renders_scores() {
    let j = Journey {
        title: None,
        sections: vec![JourneySection {
            name: "Morning".into(),
            tasks: vec![JourneyTask { label: "Coffee".into(), score: 5, actors: vec!["Me".into()] }],
        }],
    };
    let svg = render_journey(&j, &Theme::dark());
    assert!(svg.contains("Coffee"));
    assert!(svg.contains("#10b981"), "score 5 = green face");
}

#[test]
fn journey_connects_consecutive_tasks() {
    let j = Journey {
        title: Some("Day".into()),
        sections: vec![JourneySection {
            name: "".into(),
            tasks: vec![
                JourneyTask { label: "a".into(), score: 1, actors: vec![] },
                JourneyTask { label: "b".into(), score: 3, actors: vec!["X".into(), "Y".into()] },
            ],
        }],
    };
    let svg = render_journey(&j, &Theme::light());
    assert!(svg.contains("<line x1=\"81.0\" y1=\"183.0\" x2=\"211.0\" y2=\"131.0\""));
    assert!(svg.contains(">X, Y</text>"));
    assert!(svg.contains("#ef4444") && svg.contains("#f59e0b"));
}

#[test]
fn git_renders_merge_curve() {
    let g = GitGraph {
        branches: vec!["main".into(), "dev".into()],
        ops: vec![
            GitOp::Commit { id: None, tag: None, branch: 0 },
            GitOp::Branch { name: "dev".into() },
            GitOp::Commit { id: None, tag: None, branch: 1 },
            GitOp::Merge { from_branch: 1, into_branch: 0, tag: Some("v1".into()) },
        ],
    };
    let svg = render_git(&g, &Theme::light());
    assert!(svg.contains("main") && svg.contains("dev"));
    assert!(svg.contains("v1"));
    assert!(svg.matches("<circle").count() >= 3);
    assert!(svg.contains("<path"), "fork/merge curves");
}

#[test]
fn git_width_rounds_half_to_even() {
    // longest name 1 byte: label column 31.5, one commit: 31.5 + 56 + 40 = 127.5
    let g = GitGraph { branches: vec!["m".into()], ops: vec![GitOp::Commit { id: None, tag: None, branch: 0 }] };
    let svg = render_git(&g, &Theme::light());
    assert!(svg.contains("viewBox=\"0 0 128 84\""));
    assert!(svg.contains("<circle cx=\"87.5\" cy=\"46.0\" r=\"7\""));
}

#[test]
fn size_checks_accept_ordinary_diagrams_and_refuse_bad_ones() {
    let tl = Timeline {
        title: None,
        periods: vec![TimelinePeriod { label: "2024".to_string(), events: vec!["a".to_string()], section: None }],
    };
    assert!(timeline_fits_of(&tl));
    let ok = Journey {
        title: None,
        sections: vec![JourneySection {
            name: "s".to_string(),
            tasks: vec![JourneyTask { label: "t".to_string(), score: 5, actors: vec![] }],
        }],
    };
    assert!(journey_fits_of(&ok));
    let bad = Journey {
        title: None,
        sections: vec![JourneySection {
            name: "s".to_string(),
            tasks: vec![JourneyTask { label: "t".to_string(), score: 6, actors: vec![] }],
        }],
    };
    assert!(!journey_fits_of(&bad));
    let g = GitGraph {
        branches: vec!["main".to_string()],
        ops: vec![GitOp::Commit { id: None, tag: None, branch: 0 }],
    };
    assert!(git_fits_of(&g));
    let dangling = GitGraph {
        branches: vec!["main".to_string()],
        ops: vec![GitOp::Commit { id: None, tag: None, branch: 1 }],
    };
    assert!(!git_fits_of(&dangling));
}

#[test]
fn icon_ids_get_an_instance_prefix() {
    let body = "<defs><linearGradient id=\"grad\"><stop/></linearGradient></defs><path fill=\"url(#grad)\"/><use href=\"#grad\"/>";
    assert_eq!(
        namespace_ids(body, 3),
        "<defs><linearGradient id=\"ly3-grad\"><stop/></linearGradient></defs><path fill=\"url(#ly3-grad)\"/><use href=\"#ly3-grad\"/>"
    );
    assert_ne!(namespace_ids(body, 3), namespace_ids(body, 4));
    // An id that is never closed is left alone, as is a body without ids.
    assert_eq!(namespace_ids("<g id=\"open", 1), "<g id=\"open");
    assert_eq!(namespace_ids("<path d=\"M0 0\"/>", 1), "<path d=\"M0 0\"/>");
}

#[test]
fn alias_swaps_aws_and_infra_prefixes() {
    assert_eq!(alias_key("aws:s3"), Some("infra:s3".to_string()));
    assert_eq!(alias_key("infra:postgres"), Some("aws:postgres".to_string()));
    assert_eq!(alias_key("mdi:postgres"), None);
}

#[test]
fn dark_theme_swaps_block_fills_for_the_cluster_panel() {
    assert_eq!(css_color("rgb(200, 220, 255)", &Theme::light()), "rgb(200, 220, 255)");
    assert_eq!(css_color("rgb(200, 220, 255)", &Theme::dark()), "#13161c");
}

#[test]
fn marker_definitions_use_the_theme_edge_color() {
    let mut out = Vec::new();
    write_defs(&mut out, &Theme::light());
    let defs: String = out.into_iter().collect();
    let e = "#8a919e";
    let bg = "#ffffff";
    let expected = format!(
        "<defs><marker id=\"arrow\" viewBox=\"0 0 10 10\" refX=\"9\" refY=\"5\" markerWidth=\"7\" markerHeight=\"7\" orient=\"auto-start-reverse\"><path d=\"M0 0L10 5L0 10z\" fill=\"{e}\"/></marker><marker id=\"triangle\" viewBox=\"0 0 12 12\" refX=\"11\" refY=\"6\" markerWidth=\"11\" markerHeight=\"11\" orient=\"auto-start-reverse\"><path d=\"M1 1L11 6L1 11z\" fill=\"{bg}\" stroke=\"{e}\" stroke-width=\"1.2\"/></marker><marker id=\"diamond-filled\" viewBox=\"0 0 14 10\" refX=\"1\" refY=\"5\" markerWidth=\"13\" markerHeight=\"9\" orient=\"auto\"><path d=\"M1 5L7 1L13 5L7 9z\" fill=\"{e}\"/></marker><marker id=\"diamond-open\" viewBox=\"0 0 14 10\" refX=\"1\" refY=\"5\" markerWidth=\"13\" markerHeight=\"9\" orient=\"auto\"><path d=\"M1 5L7 1L13 5L7 9z\" fill=\"{bg}\" stroke=\"{e}\" stroke-width=\"1.2\"/></marker></defs>"
    );
    assert_eq!(defs, expected);
}

#[test]
fn long_git_history_still_draws_one_dot_per_commit() {
    let mut ops = vec![GitOp::Branch { name: "dev".to_string() }];
    for k in 0..3000 {
        ops.push(GitOp::Commit { id: None, tag: None, branch: k % 2 });
    }
    let g = GitGraph { branches: vec!["main".to_string(), "dev".to_string()], ops };
    assert!(git_fits_of(&g));
    let svg = render_git(&g, &Theme::light());
    assert!(svg.starts_with("<svg") && svg.ends_with("</svg>"));
    assert_eq!(svg.matches("<circle").count(), 3000);
}

#[test]
fn git_history_past_the_exact_extent_is_refused() {
    let ops: Vec<GitOp> = (0..9400).map(|_| GitOp::Commit { id: None, tag: None, branch: 0 }).collect();
    let g = GitGraph { branches: vec!["main".to_string()], ops };
    assert!(!git_fits_of(&g));
}

#[test]
fn escaped_text_decodes_back_and_plain_text_is_kept() {
    let s = "a<b & \"c\" > d &amp;";
    let e = escape(s);
    assert!(!e.contains('<') && !e.contains('>') && !e.contains('"'));
    let back = e.replace("&lt;", "<").replace("&gt;", ">").replace("&quot;", "\"").replace("&amp;", "&");
    assert_eq!(back, s);
    assert_eq!(escape("plain text 42"), "plain text 42");
}

#[test]
fn removing_the_instance_prefix_gives_the_body_back() {
    let body = r##"<defs><linearGradient id="g"/></defs><path fill="url(#g)"/><use href="#g"/>"##;
    let out = namespace_ids(body, 7);
    assert_ne!(out, body);
    assert_eq!(out.replace("ly7-", ""), body);
}

#[test]
fn journey_draws_one_face_per_task() {
    let j = Journey {
        title: Some("<circle> day".into()),
        sections: vec![
            JourneySection {
                name: "A".into(),
                tasks: vec![
                    JourneyTask { label: "<circle".into(), score: 1, actors: vec!["x".into()] },
                    JourneyTask { label: "b".into(), score: 4, actors: vec![] },
                ],
            },
            JourneySection {
                name: "".into(),
                tasks: vec![JourneyTask { label: "c".into(), score: 3, actors: vec![] }],
            },
        ],
    };
    let svg = render_journey(&j, &Theme::light());
    assert!(svg.starts_with("<svg") && svg.ends_with("</svg>"));
    assert_eq!(svg.matches("<circle").count(), 3);
    let empty = Journey { title: None, sections: vec![] };
    assert!(render_journey(&empty, &Theme::light()).contains("empty journey"));
}

#[test]
fn edge_dash_follows_style_and_animation() {
    assert_eq!(edge_dash(EdgeStyle::Solid, false), "");
    assert_eq!(edge_dash(EdgeStyle::Thick, false), "");
    assert_eq!(edge_dash(EdgeStyle::Dashed, false), " stroke-dasharray=\"7 5\"");
    assert_eq!(edge_dash(EdgeStyle::Dotted, true), " stroke-dasharray=\"2 4\"");
    assert_eq!(edge_dash(EdgeStyle::Solid, true), " stroke-dasharray=\"8 4\"");
    assert_eq!(edge_dash(EdgeStyle::Thick, true), " stroke-dasharray=\"8 4\"");
}

#[test]
fn edge_markers_follow_the_kind() {
    assert_eq!(edge_markers(EdgeKind::Arrow), " marker-end=\"url(#arrow)\"");
    assert_eq!(
        edge_markers(EdgeKind::Bidirectional),
        " marker-end=\"url(#arrow)\" marker-start=\"url(#arrow)\""
    );
    assert_eq!(edge_markers(EdgeKind::Open), "");
    assert_eq!(edge_markers(EdgeKind::Triangle), " marker-start=\"url(#triangle)\"");
    assert_eq!(edge_markers(EdgeKind::DiamondFilled), " marker-start=\"url(#diamond-filled)\"");
    assert_eq!(edge_markers(EdgeKind::DiamondOpen), " marker-start=\"url(#diamond-open)\"");
}

#[test]
fn a_body_without_id_markers_is_returned_unchanged() {
    let body = "<g><rect width=\"4\" fill=\"#fff\"/><text>id url href</text></g>";
    assert_eq!(namespace_ids(body, 12), body);
}
