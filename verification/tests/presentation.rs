use contributor_graphs::axis::axis_ticks;
use contributor_graphs::svg::chart_subtitle;
use contributor_graphs::html::{fill_page, html_escape, replace_str, HtmlOptions};
use contributor_graphs::model::Contributor;
use contributor_graphs::svg::{
    affiliation_runs, band_palette_exec, esc, group_colors, group_palette_exec, hash_hue, initials, year_ts,
};
use contributor_graphs::theme::{
    builtins, resolve, rgba, rgba_safe, theme_set_from, RawConfig, RawTheme, ThemeError, ThemeSet,
};

fn row(name: &str, group: Option<&str>) -> Contributor {
    Contributor {
        name: name.to_string(),
        login: None,
        avatar: None,
        url: None,
        first: 0,
        last: 0,
        commits: 1,
        bot: false,
        group: group.map(|s| s.to_string()),
        members: 1,
        member_names: Vec::new(),
        m0: 0,
        months: vec![1],
        co_months: Vec::new(),
        co_commits: 0,
        month_groups: None,
    }
}

fn blank() -> RawTheme {
    RawTheme {
        label: None,
        extends: None,
        dark: None,
        flat: None,
        radius: None,
        font_sans: None,
        font_display: None,
        bg: None,
        card: None,
        border: None,
        border_strong: None,
        text: None,
        muted: None,
        faint: None,
        accent: None,
        grid_year: None,
        grid_month: None,
        track: None,
        release: None,
        ctx_area: None,
        ctx_line: None,
        accent_soft: None,
    }
}

fn config(themes: Vec<(&str, RawTheme)>, available: Option<Vec<&str>>, default: Option<&str>) -> RawConfig {
    RawConfig {
        default: default.map(|s| s.to_string()),
        available: available.map(|v| v.into_iter().map(|s| s.to_string()).collect()),
        lock: None,
        themes: Some(themes.into_iter().map(|(id, t)| (id.to_string(), t)).collect()),
    }
}

fn fnv_hue(name: &str) -> u32 {
    let mut h: u32 = 2166136261;
    for b in name.bytes() {
        h ^= b as u32;
        h = h.wrapping_mul(16777619);
    }
    h % 360
}

#[test]
fn svg_text_is_escaped() {
    assert_eq!(esc("a<b>&\"c'"), "a&lt;b&gt;&amp;&quot;c'");
    assert_eq!(esc(""), "");
}

#[test]
fn initials_of_names() {
    assert_eq!(initials("Phil Ewels"), "PE");
    assert_eq!(initials("  jean  luc picard "), "JP");
    assert_eq!(initials("madonna"), "M");
    assert_eq!(initials("   "), "?");
    assert_eq!(initials("ßeta"), "SS");
}

#[test]
fn hues_hash_the_name() {
    for name in ["", "Phil Ewels", "Zoë", "x"] {
        assert_eq!(hash_hue(name), fnv_hue(name));
        assert!(hash_hue(name) < 360);
    }
}

#[test]
fn years_start_on_the_first_of_january() {
    assert_eq!(year_ts(1970), 0);
    assert_eq!(year_ts(2020), 1577836800);
    assert_eq!(year_ts(1969), -31536000);
}

#[test]
fn palettes() {
    let g = group_palette_exec();
    assert_eq!(g.len(), 12);
    assert_eq!(g[0], "#4269d0");
    assert_eq!(g[11], "#c65b8a");
    let b = band_palette_exec();
    assert_eq!(b.len(), 12);
    assert_eq!(b[0], "#2a64c4");
}

#[test]
fn groups_are_coloured_by_rank() {
    let rows = vec![row("a", Some("B")), row("b", Some("A")), row("c", Some("B")), row("d", None), row("e", Some("C"))];
    let (colors, legend) = group_colors(&rows);
    assert_eq!(
        colors,
        vec![
            ("B".to_string(), "#4269d0".to_string()),
            ("A".to_string(), "#e7a13d".to_string()),
            ("C".to_string(), "#ff725c".to_string()),
        ]
    );
    assert_eq!(legend, colors);
}

#[test]
fn the_long_tail_of_groups_shares_grey() {
    let rows: Vec<Contributor> = (0..12).map(|i| row("x", Some(&format!("g{i:02}")))).collect();
    let (colors, legend) = group_colors(&rows);
    assert_eq!(colors.len(), 12);
    assert_eq!(colors[10], ("g10".to_string(), "#9aa3ad".to_string()));
    assert_eq!(legend.len(), 11);
    assert_eq!(legend[10], ("Other".to_string(), "#9aa3ad".to_string()));
    assert_eq!(legend[9], ("g09".to_string(), "#9498a0".to_string()));
}

#[test]
fn runs_follow_affiliation_periods() {
    let mut c = row("a", Some("G"));
    c.months = vec![0, 2, 0, 1];
    assert_eq!(affiliation_runs(&c), vec![(Some("G".to_string()), 1, 3)]);
    c.months = vec![1, 0, 2, 3];
    c.month_groups = Some(vec![Some("A".to_string()), Some("A".to_string()), None, Some("B".to_string())]);
    assert_eq!(
        affiliation_runs(&c),
        vec![(Some("A".to_string()), 0, 0), (None, 2, 2), (Some("B".to_string()), 3, 3)]
    );
    c.months = vec![0, 0];
    c.month_groups = None;
    assert!(affiliation_runs(&c).is_empty());
}

#[test]
fn html_escaping_and_page_filling() {
    assert_eq!(html_escape("a<b>&c\""), "a&lt;b&gt;&amp;c\"");
    assert_eq!(replace_str("aaa", "a", "b"), "bbb");
    assert_eq!(replace_str("abcabc", "bc", "X"), "aXaX");
    let page = fill_page(
        "<title>__PAGE_TITLE__</title><script>__DATA__</script>",
        "a<b",
        "{\"x\":\"</script>\"}",
    );
    assert_eq!(page, "<title>a&lt;b · contributors</title><script>{\"x\":\"<\\/script>\"}</script>");
}

#[test]
fn html_options_defaults() {
    let o = HtmlOptions::default();
    assert_eq!(o.accent, "#2f6feb");
    assert!(!o.by_affiliation);
    assert_eq!(o.unaffiliated_label, "Unaffiliated");
    assert_eq!(o.min_commits, 1);
    assert_eq!(o.max_contributors, 40);
    assert_eq!(o.sort, "first");
    assert_eq!(o.theme_order, vec!["light".to_string(), "dark".to_string(), "wikipedia".to_string()]);
    assert_eq!(o.default_theme, None);
    assert!(!o.lock_theme);
}

#[test]
fn builtin_themes() {
    let t = builtins();
    let ids: Vec<&str> = t.iter().map(|t| t.id.as_str()).collect();
    assert_eq!(ids, vec!["light", "dark", "wikipedia"]);
    assert_eq!(t[0].avatar_l(), 62);
    assert_eq!(t[1].avatar_l(), 48);
    assert_eq!(t[2].shadow(), "none");
    assert_eq!(t[1].shadow(), "0 1px 2px rgba(0,0,0,.4)");
    assert_eq!(t[1].shadow_lg(), "0 10px 32px rgba(0,0,0,.55)");
    assert_eq!(t[0].dim(), "rgba(120,132,148,.18)");
    assert_eq!(t[0].accent_soft(), "rgba(47,111,235,.1)");
    let set = ThemeSet::default();
    assert_eq!(set.order, vec!["light".to_string(), "dark".to_string(), "wikipedia".to_string()]);
    assert_eq!(set.get("dark").map(|t| t.label.as_str()), Some("Dark"));
    assert!(set.get("nope").is_none());
}

#[test]
fn css_variables_of_a_theme() {
    let t = &builtins()[0];
    let vars = t.css_vars();
    assert_eq!(vars.len(), 19);
    assert_eq!(vars[0], ("--bg".to_string(), "#f6f7f9".to_string()));
    assert_eq!(vars[8], ("--accent-soft".to_string(), "rgba(47,111,235,.1)".to_string()));
    assert_eq!(vars[15], ("--radius".to_string(), "12px".to_string()));
    assert_eq!(vars[18], ("color-scheme".to_string(), "light".to_string()));
}

#[test]
fn hex_colours_become_rgba() {
    assert_eq!(rgba("#2f6feb", "0.12"), "rgba(47,111,235,0.12)");
    assert_eq!(rgba("2F6FEB", "1"), "rgba(47,111,235,1)");
    assert_eq!(rgba("red", "0.5"), "rgba(120,132,148,0.5)");
    assert_eq!(rgba("#gg0000", "1"), "rgba(120,132,148,1)");
    assert_eq!(rgba("#+f0000", "1"), "rgba(15,0,0,1)");
    assert!(rgba_safe("#é1234"));
    assert_eq!(rgba("#é1234", "1"), "rgba(120,132,148,1)");
    assert!(!rgba_safe("#1é234"));
}

#[test]
fn custom_themes_inherit_from_their_base() {
    let base = &builtins()[0];
    let mut raw = blank();
    raw.accent = Some("#ff0000".to_string());
    raw.dark = Some(true);
    let t = resolve("mine", &raw, base);
    assert_eq!(t.id, "mine");
    assert_eq!(t.label, "mine");
    assert!(t.dark);
    assert_eq!(t.bg, base.bg);
    assert_eq!(t.accent_soft, None);
    assert_eq!(t.accent_soft(), "rgba(255,0,0,0.12)");
    let t = resolve("x", &blank(), base);
    assert_eq!(t.accent_soft, base.accent_soft);
}

#[test]
fn a_theme_config_adds_sorted_custom_themes() {
    let mut dark_ish = blank();
    dark_ish.extends = Some("dark".to_string());
    let mut b = blank();
    b.extends = Some("alpha".to_string());
    b.label = Some("Bee".to_string());
    let raw = config(vec![("beta", b), ("alpha", dark_ish)], Some(vec!["beta", "light"]), Some("alpha"));
    let set = theme_set_from(&raw).ok().expect("a valid config");
    let ids: Vec<&str> = set.all.iter().map(|t| t.id.as_str()).collect();
    assert_eq!(ids, vec!["light", "dark", "wikipedia", "alpha", "beta"]);
    assert_eq!(set.custom.len(), 2);
    assert!(set.custom[1].dark);
    assert_eq!(set.custom[1].label, "Bee");
    assert_eq!(set.order, vec!["beta".to_string(), "light".to_string()]);
    assert_eq!(set.default, Some("alpha".to_string()));
    assert!(!set.lock);
}

#[test]
fn theme_config_errors() {
    match theme_set_from(&config(vec![("dark", blank())], None, None)) {
        Err(ThemeError::Shadows(id)) => assert_eq!(id, "dark"),
        _ => panic!("expected a shadowing error"),
    }
    let mut t = blank();
    t.extends = Some("zeta".to_string());
    match theme_set_from(&config(vec![("alpha", t), ("zeta", blank())], None, None)) {
        Err(ThemeError::UnknownBase { id, extends }) => {
            assert_eq!(id, "alpha");
            assert_eq!(extends, "zeta");
        }
        _ => panic!("expected an unknown base"),
    }
    match theme_set_from(&config(Vec::new(), Some(vec!["light", "nope"]), None)) {
        Err(ThemeError::UnknownAvailable(id)) => assert_eq!(id, "nope"),
        _ => panic!("expected an unknown available theme"),
    }
    match theme_set_from(&config(Vec::new(), None, Some("nope"))) {
        Err(ThemeError::UnknownDefault(id)) => assert_eq!(id, "nope"),
        _ => panic!("expected an unknown default"),
    }
}

#[test]
fn the_top_ten_groups_get_distinct_colours() {
    let g = group_palette_exec();
    for a in 0..10 {
        for b in (a + 1)..10 {
            assert_ne!(g[a], g[b]);
        }
        assert_ne!(g[a], "#9aa3ad");
    }
}

#[test]
fn chart_subtitles() {
    assert_eq!(
        chart_subtitle(false, 12, 12, 12, 1234, 0, 1700000000, 1),
        "12 contributors  ·  1,234 commits  ·  Jan 1970 – Nov 2023"
    );
    assert_eq!(
        chart_subtitle(false, 50, 40, 48, 10, 0, 0, 1),
        "48 contributors  ·  10 commits  ·  Jan 1970 – Jan 1970  ·  showing top 40 contributors by commits"
    );
    assert_eq!(
        chart_subtitle(true, 5, 5, 48, 10, 0, 0, 3),
        "5 affiliations  ·  10 commits  ·  Jan 1970 – Jan 1970  ·  ≥3 commits"
    );
}

#[test]
fn axis_ticks_by_year() {
    // 2020-01-01 to 2023-06-15
    let (major, minor) = axis_ticks(1577836800, 1686787200, 1, 1, 0);
    assert_eq!(
        major,
        vec![
            (1577836800, "2020".to_string()),
            (1609459200, "2021".to_string()),
            (1640995200, "2022".to_string()),
            (1672531200, "2023".to_string()),
        ]
    );
    assert_eq!(minor.len(), 38);
    assert_eq!(minor[0], 1580515200);
    assert!(minor.windows(2).all(|w| w[0] < w[1]));
    assert!(minor.iter().all(|t| !major.iter().any(|m| m.0 == *t)));
    let (major, _) = axis_ticks(1577836800, 1686787200, 2, 12, 0);
    assert_eq!(major, vec![(1577836800, "2020".to_string()), (1640995200, "2022".to_string())]);
}

#[test]
fn axis_ticks_by_month() {
    // 2021-11-15 to 2022-03-10
    let (major, minor) = axis_ticks(1636934400, 1646870400, 0, 0, 1);
    assert_eq!(
        major,
        vec![
            (1638316800, "Dec 2021".to_string()),
            (1640995200, "Jan 2022".to_string()),
            (1643673600, "Feb".to_string()),
            (1646092800, "Mar".to_string()),
        ]
    );
    assert!(minor.is_empty());
    let (major, minor) = axis_ticks(1636934400, 1646870400, 0, 0, 2);
    assert_eq!(major, vec![(1640995200, "Jan 2022".to_string()), (1646092800, "Mar".to_string())]);
    assert_eq!(minor, vec![1638316800, 1643673600]);
}
