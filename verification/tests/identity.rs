use contributor_graphs::identity::{
    apply_identity_file, build_contributors, cluster_commits, cluster_matches, is_bot, is_bot_lowered, is_github_username,
    lower_all, matches_lowered, merge_by_login, Cluster,
};
use contributor_graphs::model::{Commit, GroupRule};

fn commit(sha: &str, ts: i64, name: &str, email: &str, co: &[(&str, &str)]) -> Commit {
    Commit {
        sha: sha.to_string(),
        ts,
        name: name.to_string(),
        email: email.to_string(),
        coauthors: co.iter().map(|(n, e)| (n.to_string(), e.to_string())).collect(),
        src: 0,
    }
}

// 2020-01-01, 2020-02-10, 2020-03-15 (UTC)
const JAN: i64 = 1577836800;
const FEB: i64 = 1581292800;
const MAR: i64 = 1584230400;

fn sample() -> Vec<Commit> {
    vec![
        commit("a", JAN, "Jane Doe", "jane@x.com", &[]),
        commit("b", MAR, "jane doe", "jdoe@y.org", &[]),
        commit("c", FEB, "Bob", "bob@z.com", &[("Jane Doe", "jane@x.com")]),
    ]
}

fn cluster(names: &[&str], emails: &[&str], login: Option<&str>, idxs: &[usize]) -> Cluster {
    Cluster {
        emails: emails.iter().map(|s| s.to_string()).collect(),
        names: names.iter().map(|s| s.to_string()).collect(),
        commit_idxs: idxs.to_vec(),
        coauthored_idxs: Vec::new(),
        login: login.map(|s| s.to_string()),
        avatar_url: None,
        profile_name: None,
        affiliation: None,
    }
}

#[test]
fn identities_sharing_a_name_are_merged() {
    let clusters = cluster_commits(&sample(), true);
    assert_eq!(clusters.len(), 2);
    assert_eq!(clusters[0].emails, vec!["jane@x.com".to_string(), "jdoe@y.org".to_string()]);
    assert_eq!(clusters[0].names, vec!["Jane Doe".to_string(), "jane doe".to_string()]);
    assert_eq!(clusters[0].commit_idxs, vec![0, 1]);
    assert_eq!(clusters[0].coauthored_idxs, vec![2]);
    assert_eq!(clusters[1].emails, vec!["bob@z.com".to_string()]);
    assert_eq!(clusters[1].commit_idxs, vec![2]);
    assert!(clusters[1].coauthored_idxs.is_empty());
}

#[test]
fn without_name_merging_emails_stay_apart() {
    let clusters = cluster_commits(&sample(), false);
    assert_eq!(clusters.len(), 3);
    assert_eq!(clusters[0].commit_idxs, vec![0]);
    assert_eq!(clusters[0].coauthored_idxs, vec![2]);
    assert_eq!(clusters[1].emails, vec!["jdoe@y.org".to_string()]);
    assert_eq!(clusters[1].commit_idxs, vec![1]);
    assert_eq!(clusters[2].emails, vec!["bob@z.com".to_string()]);
}

#[test]
fn every_commit_has_exactly_one_author_cluster() {
    let commits = sample();
    for merge in [true, false] {
        let clusters = cluster_commits(&commits, merge);
        for i in 0..commits.len() {
            let owners = clusters.iter().filter(|c| c.commit_idxs.contains(&i)).count();
            assert_eq!(owners, 1);
        }
    }
}

#[test]
fn clusters_sharing_a_login_are_merged_ignoring_case() {
    let a = cluster(&["A"], &["a@x"], Some("Octo"), &[0]);
    let b = cluster(&["B"], &["b@x"], Some("octo"), &[1]);
    let c = cluster(&["C"], &["c@x"], None, &[2]);
    let out = merge_by_login(vec![a, b, c]);
    assert_eq!(out.len(), 2);
    assert_eq!(out[0].login, Some("Octo".to_string()));
    assert_eq!(out[0].emails, vec!["a@x".to_string(), "b@x".to_string()]);
    assert_eq!(out[0].names, vec!["A".to_string(), "B".to_string()]);
    assert_eq!(out[0].commit_idxs, vec![0, 1]);
    assert_eq!(out[1].emails, vec!["c@x".to_string()]);
}

#[test]
fn identity_rows_merge_and_put_the_canonical_name_first() {
    let clusters = cluster_commits(&sample(), false);
    let rows = vec![vec!["Janet D".to_string(), "jdoe@y.org".to_string(), "JANE@X.COM".to_string()]];
    let out = apply_identity_file(clusters, &rows);
    assert_eq!(out.len(), 2);
    assert_eq!(out[0].names[0], "Janet D");
    assert_eq!(out[0].emails, vec!["jane@x.com".to_string(), "jdoe@y.org".to_string()]);
    assert_eq!(out[0].commit_idxs, vec![0, 1]);
    assert_eq!(out[1].emails, vec!["bob@z.com".to_string()]);
}

#[test]
fn identity_rows_that_match_nothing_change_nothing() {
    let clusters = cluster_commits(&sample(), true);
    let rows = vec![vec!["Nobody".to_string()], Vec::new()];
    let out = apply_identity_file(clusters, &rows);
    assert_eq!(out.len(), 2);
    assert_eq!(out[0].names, vec!["Jane Doe".to_string(), "jane doe".to_string()]);
}

#[test]
fn matching_is_by_email_name_or_login_ignoring_case() {
    let c = cluster(&["Jane Doe"], &["jane@x.com"], Some("JaneD"), &[]);
    assert!(cluster_matches(&c, " JANE@X.COM "));
    assert!(cluster_matches(&c, "jane doe"));
    assert!(cluster_matches(&c, "janed"));
    assert!(!cluster_matches(&c, "jane"));
    assert!(!cluster_matches(&c, "   "));
}

#[test]
fn bots_are_recognised() {
    assert!(is_bot(&cluster(&["dependabot[bot]"], &[], None, &[])));
    assert!(is_bot(&cluster(&["Renovate Bot"], &[], None, &[])));
    assert!(is_bot(&cluster(&["CI"], &["41898282+github-actions[bot]@users.noreply.github.com"], None, &[])));
    assert!(is_bot(&cluster(&["Helper"], &["Seqera-AI@seqera.io"], None, &[])));
    assert!(is_bot(&cluster(&["Helper"], &["support@dependabot.com"], None, &[])));
    assert!(is_bot(&cluster(&["x"], &[], Some("github-actions"), &[])));
    assert!(!is_bot(&cluster(&["Jane Doe"], &["jane@x.com"], Some("janed"), &[])));
}

#[test]
fn github_usernames_are_short_alnum_and_dashes() {
    assert!(is_github_username("ewels"));
    assert!(is_github_username("nf-core"));
    assert!(!is_github_username(""));
    assert!(!is_github_username("a b"));
    assert!(!is_github_username("jane@x.com"));
    assert!(!is_github_username(&"a".repeat(40)));
    assert!(is_github_username(&"a".repeat(39)));
}

#[test]
fn contributors_count_commits_per_month() {
    let commits = sample();
    let clusters = cluster_commits(&commits, true);
    let rows = build_contributors(&clusters, &commits, &[], &[], true);
    assert_eq!(rows.len(), 2);
    let jane = &rows[0];
    assert_eq!(jane.name, "Jane Doe");
    assert_eq!(jane.first, JAN);
    assert_eq!(jane.last, MAR);
    assert_eq!(jane.commits, 3);
    assert_eq!(jane.co_commits, 1);
    assert_eq!(jane.m0, 600);
    assert_eq!(jane.months, vec![1, 1, 1]);
    assert_eq!(jane.co_months, vec![0, 1, 0]);
    assert_eq!(jane.login, None);
    assert_eq!(jane.url, None);
    assert_eq!(jane.members, 1);
    assert!(!jane.bot);
    let bob = &rows[1];
    assert_eq!(bob.name, "Bob");
    assert_eq!(bob.commits, 1);
    assert_eq!(bob.m0, 601);
    assert_eq!(bob.months, vec![1]);
    assert!(bob.co_months.is_empty());
}

#[test]
fn co_authors_can_be_left_uncounted() {
    let commits = sample();
    let clusters = cluster_commits(&commits, true);
    let rows = build_contributors(&clusters, &commits, &[], &[], false);
    assert_eq!(rows[0].commits, 2);
    assert_eq!(rows[0].co_commits, 0);
    assert_eq!(rows[0].months, vec![1, 0, 1]);
}

#[test]
fn group_rules_and_forced_names_apply() {
    let commits = sample();
    let clusters = cluster_commits(&commits, true);
    let rules = vec![GroupRule { matcher: "jane@x.com".to_string(), group: "Acme".to_string(), since: None, until: None }];
    let forced = vec![("bob@z.com".to_string(), "Robert".to_string())];
    let rows = build_contributors(&clusters, &commits, &rules, &forced, true);
    assert_eq!(rows[0].group, Some("Acme".to_string()));
    assert_eq!(rows[0].month_groups, None);
    assert_eq!(rows[1].name, "Robert");
    assert_eq!(rows[1].group, None);
}

#[test]
fn a_username_rule_gives_a_login_and_avatar() {
    let commits = vec![commit("a", JAN, "octocat", "o@x.com", &[])];
    let clusters = cluster_commits(&commits, true);
    let rules = vec![GroupRule { matcher: "octocat".to_string(), group: "GitHub".to_string(), since: None, until: None }];
    let rows = build_contributors(&clusters, &commits, &rules, &[], true);
    assert_eq!(rows[0].login, Some("octocat".to_string()));
    assert_eq!(rows[0].avatar, Some("https://avatars.githubusercontent.com/octocat".to_string()));
    assert_eq!(rows[0].url, Some("https://github.com/octocat".to_string()));
}

#[test]
fn dated_rules_colour_each_month() {
    let commits = vec![commit("a", JAN, "Jane Doe", "jane@x.com", &[]), commit("b", MAR, "Jane Doe", "jane@x.com", &[])];
    let clusters = cluster_commits(&commits, true);
    let rules = vec![
        GroupRule { matcher: "jane@x.com".to_string(), group: "Old".to_string(), since: None, until: Some(FEB) },
        GroupRule { matcher: "jane@x.com".to_string(), group: "New".to_string(), since: Some(FEB), until: None },
    ];
    let rows = build_contributors(&clusters, &commits, &rules, &[], true);
    assert_eq!(rows[0].group, Some("New".to_string()));
    assert_eq!(
        rows[0].month_groups,
        Some(vec![Some("Old".to_string()), Some("Old".to_string()), Some("New".to_string())])
    );
}

fn strings(v: &[&str]) -> Vec<String> {
    v.iter().map(|s| s.to_string()).collect()
}

#[test]
fn lowered_needles_match_exactly() {
    let emails = strings(&["jane@example.com"]);
    let names = strings(&["jane doe"]);
    let login = Some("janed".to_string());
    assert!(matches_lowered(&emails, &names, &login, "jane doe"));
    assert!(matches_lowered(&emails, &names, &login, "janed"));
    assert!(matches_lowered(&emails, &names, &login, "jane@example.com"));
    assert!(!matches_lowered(&emails, &names, &login, "Jane Doe"));
    assert!(!matches_lowered(&emails, &names, &login, "jane"));
    assert!(!matches_lowered(&emails, &names, &login, ""));
    assert!(!matches_lowered(&emails, &names, &None, "janed2"));
}

#[test]
fn lowered_bots() {
    assert!(is_bot_lowered(&strings(&["renovate bot"]), &None, &[].to_vec()));
    assert!(is_bot_lowered(&strings(&["x"]), &Some("app[bot]".to_string()), &[].to_vec()));
    assert!(is_bot_lowered(&[].to_vec(), &None, &strings(&["49699333+dependabot[bot]@users.noreply.github.com"])));
    assert!(is_bot_lowered(&[].to_vec(), &None, &strings(&["noreply@anthropic.com"])));
    assert!(!is_bot_lowered(&strings(&["Renovate"]), &None, &strings(&["someone@anthropic.com"])));
    assert_eq!(lower_all(&strings(&["AbC", "x"])), strings(&["abc", "x"]));
}

#[test]
fn monthly_bins_add_up_to_the_commits() {
    let commits = sample();
    let clusters = cluster_commits(&commits, true);
    for co in [true, false] {
        for c in build_contributors(&clusters, &commits, &[], &[], co) {
            assert_eq!(c.months.iter().map(|m| *m as u64).sum::<u64>(), c.commits as u64);
            assert_eq!(c.co_months.iter().map(|m| *m as u64).sum::<u64>(), c.co_commits as u64);
        }
    }
}
