use contributor_graphs::tsv::{group_pairs, parse_tsv};
use contributor_graphs::model::{
    format_month_year, month_index, month_start_ts, thousands, Commit, Contributor, GroupRule,
};
use contributor_graphs::repo::PreparedRepo;
use contributor_graphs::{
    canonicalize_groups, combined_name, distinct_emails, exclude_contributors, is_excluded_lowered, pool_commits, repo_meta, sort,
    top_rows, Sort,
};

fn row(name: &str, first: i64, last: i64, commits: u32) -> Contributor {
    Contributor {
        name: name.to_string(),
        login: None,
        avatar: None,
        url: None,
        first,
        last,
        commits,
        bot: false,
        group: None,
        members: 1,
        member_names: Vec::new(),
        m0: 0,
        months: vec![commits],
        co_months: Vec::new(),
        co_commits: 0,
        month_groups: None,
    }
}

fn grouped(name: &str, group: &str) -> Contributor {
    let mut c = row(name, 0, 0, 1);
    c.group = Some(group.to_string());
    c
}

fn commit(sha: &str, email: &str) -> Commit {
    Commit { sha: sha.to_string(), ts: 0, name: "n".to_string(), email: email.to_string(), coauthors: Vec::new(), src: 0 }
}

fn prepared(name: &str) -> PreparedRepo {
    PreparedRepo {
        git_dir: format!("/c/{name}"),
        slug: Some(format!("o/{name}")),
        url: Some(format!("https://github.com/o/{name}")),
        display_name: name.to_string(),
        branch: "main".to_string(),
        is_remote: true,
    }
}

fn names(rows: &[Contributor]) -> Vec<String> {
    rows.iter().map(|c| c.name.clone()).collect()
}

#[test]
fn thousands_groups_digits_in_threes() {
    assert_eq!(thousands(0), "0");
    assert_eq!(thousands(999), "999");
    assert_eq!(thousands(1000), "1,000");
    assert_eq!(thousands(1234567), "1,234,567");
    assert_eq!(thousands(u64::MAX), "18,446,744,073,709,551,615");
}

#[test]
fn months_are_counted_from_1970() {
    assert_eq!(month_index(0), 0);
    assert_eq!(month_index(31 * 86400), 1);
    assert_eq!(month_index(-1), -1);
    assert_eq!(month_index(1577836800), 600);
    assert_eq!(month_start_ts(0), 0);
    assert_eq!(month_start_ts(1), 2678400);
    assert_eq!(month_start_ts(600), 1577836800);
    assert_eq!(month_start_ts(-1), -2678400);
    assert_eq!(month_index(month_start_ts(613)), 613);
}

#[test]
fn month_labels_are_short_month_and_year() {
    assert_eq!(format_month_year(0), "Jan 1970");
    assert_eq!(format_month_year(1700000000), "Nov 2023");
}

#[test]
fn group_rule_windows() {
    let r = GroupRule { matcher: "m".to_string(), group: "g".to_string(), since: Some(10), until: Some(20) };
    assert!(!r.covers(9));
    assert!(r.covers(10));
    assert!(r.covers(19));
    assert!(!r.covers(20));
    assert!(r.dated());
    let open = GroupRule { matcher: "m".to_string(), group: "g".to_string(), since: None, until: None };
    assert!(open.covers(i64::MIN));
    assert!(!open.dated());
}

#[test]
fn sorting_by_first_commit_breaks_ties_by_commits() {
    let mut rows = vec![row("c", 5, 9, 1), row("a", 1, 9, 1), row("b", 5, 9, 7)];
    sort(&mut rows, Sort::First);
    assert_eq!(names(&rows), vec!["a", "b", "c"]);
}

#[test]
fn sorting_is_stable() {
    let mut rows = vec![row("x", 0, 1, 3), row("y", 0, 2, 5), row("z", 0, 3, 3), row("w", 0, 4, 5)];
    sort(&mut rows, Sort::Commits);
    assert_eq!(names(&rows), vec!["y", "w", "x", "z"]);
    let mut rows = vec![row("Bob", 0, 1, 1), row("alice", 0, 1, 1), row("Carol", 0, 1, 1), row("bob", 0, 1, 1)];
    sort(&mut rows, Sort::Name);
    assert_eq!(names(&rows), vec!["alice", "Bob", "bob", "Carol"]);
}

#[test]
fn sorting_by_last_and_duration() {
    let mut rows = vec![row("a", 0, 10, 1), row("b", 5, 30, 1), row("c", 0, 30, 2)];
    sort(&mut rows, Sort::Last);
    assert_eq!(names(&rows), vec!["c", "b", "a"]);
    sort(&mut rows, Sort::Duration);
    assert_eq!(names(&rows), vec!["c", "b", "a"]);
}

#[test]
fn pooling_drops_repeated_shas_and_tags_sources() {
    let s0 = vec![commit("a", "x@x"), commit("b", "y@y")];
    let s1 = vec![commit("b", "y@y"), commit("c", "z@z"), commit("a", "x@x")];
    let (pool, dropped) = pool_commits(vec![s0, s1]);
    let shas: Vec<&str> = pool.iter().map(|c| c.sha.as_str()).collect();
    assert_eq!(shas, vec!["a", "b", "c"]);
    assert_eq!(pool[2].src, 1);
    assert_eq!(pool[0].src, 0);
    assert_eq!(dropped, 2);
}

#[test]
fn pooling_disjoint_sources_concatenates() {
    let (pool, dropped) = pool_commits(vec![vec![commit("a", "x")], vec![commit("b", "y")], Vec::new()]);
    assert_eq!(pool.len(), 2);
    assert_eq!(pool[1].src, 1);
    assert_eq!(dropped, 0);
}

#[test]
fn distinct_emails_are_counted() {
    let commits = vec![commit("a", "x@x"), commit("b", "y@y"), commit("c", "x@x")];
    assert_eq!(distinct_emails(&commits), 2);
    assert_eq!(distinct_emails(&[]), 0);
}

#[test]
fn exclusion_matches_name_or_login_ignoring_case() {
    let mut bot = row("Build Bot", 0, 0, 1);
    bot.login = Some("ci-runner".to_string());
    let rows = vec![row("Jane", 0, 0, 1), bot, row("Bobby", 0, 0, 1)];
    let out = exclude_contributors(rows.clone(), &vec!["RUNNER".to_string()]);
    assert_eq!(names(&out), vec!["Jane", "Bobby"]);
    let out = exclude_contributors(rows.clone(), &vec!["bob".to_string(), "jane".to_string()]);
    assert_eq!(names(&out), vec!["Build Bot"]);
    let out = exclude_contributors(rows, &Vec::new());
    assert_eq!(out.len(), 3);
}

#[test]
fn combined_names_summarise_many_sources() {
    assert_eq!(combined_name(&[]), "repositories");
    assert_eq!(combined_name(&[prepared("a")]), "a");
    assert_eq!(combined_name(&[prepared("a"), prepared("b"), prepared("c")]), "a + b + c");
    assert_eq!(
        combined_name(&[prepared("a"), prepared("b"), prepared("c"), prepared("d"), prepared("e")]),
        "a + b + 3 more"
    );
}

#[test]
fn group_variants_are_canonicalised() {
    let mut rows = vec![
        grouped("a", "Seqera Labs"),
        grouped("b", "seqeralabs"),
        grouped("c", "Seqera Labs"),
        grouped("d", "The Francis Crick Institute"),
        grouped("e", "francis crick institute"),
        row("f", 0, 0, 1),
    ];
    let n = canonicalize_groups(&mut rows);
    assert_eq!(n, 2);
    assert_eq!(rows[1].group, Some("Seqera Labs".to_string()));
    assert_eq!(rows[0].group, Some("Seqera Labs".to_string()));
    assert_eq!(rows[3].group, rows[4].group);
    assert_eq!(rows[5].group, None);
}

#[test]
fn prefix_forms_join_the_longer_name() {
    let mut rows = vec![grouped("a", "Seqera"), grouped("b", "Seqera Labs"), grouped("c", "Seqera Labs")];
    let n = canonicalize_groups(&mut rows);
    assert_eq!(n, 1);
    for r in &rows {
        assert_eq!(r.group, Some("Seqera Labs".to_string()));
    }
}

#[test]
fn metadata_of_one_source() {
    let mut bot = row("bot", 3, 4, 1);
    bot.bot = true;
    let rows = vec![row("a", 5, 10, 2), row("b", 2, 7, 1), bot];
    let m = repo_meta(None, &[prepared("r")], &rows, 42, "2024-01-02".to_string(), None, Some("d".to_string()));
    assert_eq!(m.name, "r");
    assert_eq!(m.slug, Some("o/r".to_string()));
    assert_eq!(m.url, Some("https://github.com/o/r".to_string()));
    assert_eq!(m.branch, "main");
    assert_eq!(m.first, 2);
    assert_eq!(m.last, 10);
    assert_eq!(m.total_commits, 42);
    assert_eq!(m.total_contributors, 2);
    assert_eq!(m.generated, "2024-01-02");
    assert_eq!(m.description, Some("d".to_string()));
}

#[test]
fn metadata_of_several_sources() {
    let m = repo_meta(None, &[prepared("a"), prepared("b")], &[], 0, "x".to_string(), None, None);
    assert_eq!(m.name, "o");
    let mut other = prepared("b");
    other.slug = Some("p/b".to_string());
    let m = repo_meta(None, &[prepared("a"), other.clone()], &[], 0, "x".to_string(), None, None);
    assert_eq!(m.name, "a + b");
    other.slug = None;
    let m = repo_meta(None, &[prepared("a"), other], &[], 0, "x".to_string(), None, None);
    assert_eq!(m.name, "a + b");
    assert_eq!(m.url, None);
    assert_eq!(m.slug, None);
    assert_eq!(m.branch, "combined");
    assert_eq!(m.first, 0);
    assert_eq!(m.last, 0);
    let m = repo_meta(Some("T".to_string()), &[prepared("a")], &[], 0, "x".to_string(), None, None);
    assert_eq!(m.name, "T");
}

#[test]
fn top_rows_keep_the_busiest() {
    let rows = vec![row("a", 0, 0, 1), row("b", 0, 0, 5), row("c", 0, 0, 3), row("d", 0, 0, 5), row("e", 0, 0, 2)];
    let (top, eligible) = top_rows(rows.clone(), 2, 2);
    assert_eq!(eligible, 4);
    assert_eq!(names(&top), vec!["b", "d"]);
    let (all, eligible) = top_rows(rows, 2, 10);
    assert_eq!(eligible, 4);
    assert_eq!(names(&all), vec!["b", "c", "d", "e"]);
}

#[test]
fn tab_separated_files_are_parsed() {
    let rows = parse_tsv("# comment\n\nJane Doe\t jane@x.com \tjdoe\r\n  solo  \n a\tb\n# x\ty");
    assert_eq!(
        rows,
        vec![
            vec!["Jane Doe".to_string(), "jane@x.com".to_string(), "jdoe".to_string()],
            vec!["solo".to_string()],
            vec!["a".to_string(), "b".to_string()],
        ]
    );
    assert_eq!(
        group_pairs(&rows),
        vec![("Jane Doe".to_string(), "jane@x.com".to_string()), ("a".to_string(), "b".to_string())]
    );
    assert!(parse_tsv("").is_empty());
}

#[test]
fn lowered_exclusion_patterns_are_substrings() {
    let pats = vec!["bot".to_string(), "smith".to_string()];
    assert!(is_excluded_lowered("jane smith", &None, &pats));
    assert!(is_excluded_lowered("jane", &Some("helperbot".to_string()), &pats));
    assert!(!is_excluded_lowered("jane", &Some("janed".to_string()), &pats));
    assert!(!is_excluded_lowered("Jane SMITH", &None, &pats));
    assert!(!is_excluded_lowered("anyone", &None, &Vec::new()));
}
