use contributor_graphs::github::listing::repo_excluded;
use contributor_graphs::cache::{Author, AvatarRec, CacheFile, Caches, ProfileRec};
use contributor_graphs::github::avatars::{
    apply_avatars, avatar_urls, cached_avatars, cached_owner_avatar, download_uris, store_owner_avatar,
};
use contributor_graphs::github::enrich::{
    apply_lookups, apply_profiles, cached_profiles, enrich_clusters, profile_logins,
};
use contributor_graphs::github::listing::{list_owner_repos, record_owner_repos, ListingStep, PageReply};
use contributor_graphs::github::{
    author_from, avatar_key, clean_description, data_uri, normalize_company, owner_avatar_key, owner_avatar_url,
    parse_noreply, profile_from, sized_avatar_url,
};
use contributor_graphs::identity::Cluster;
use contributor_graphs::model::{Commit, Contributor};

const NOW: i64 = 1_700_000_000;

fn caches(authors: Vec<(String, Author)>, profiles: Vec<(String, ProfileRec)>, avatars: Vec<(String, AvatarRec)>) -> Caches {
    Caches::load(Some("/cache".to_string()), false, NOW, authors, profiles, avatars, Vec::new())
}

fn cluster(emails: &[&str], idxs: &[usize], login: Option<&str>) -> Cluster {
    Cluster {
        emails: emails.iter().map(|s| s.to_string()).collect(),
        names: vec!["n".to_string()],
        commit_idxs: idxs.to_vec(),
        coauthored_idxs: Vec::new(),
        login: login.map(|s| s.to_string()),
        avatar_url: None,
        profile_name: None,
        affiliation: None,
    }
}

fn commit(sha: &str, ts: i64, src: u32) -> Commit {
    Commit { sha: sha.to_string(), ts, name: "n".to_string(), email: "e".to_string(), coauthors: Vec::new(), src }
}

fn row(name: &str, avatar: Option<&str>) -> Contributor {
    Contributor {
        name: name.to_string(),
        login: None,
        avatar: avatar.map(|s| s.to_string()),
        url: None,
        first: 0,
        last: 0,
        commits: 1,
        bot: false,
        group: None,
        members: 1,
        member_names: Vec::new(),
        m0: 0,
        months: vec![1],
        co_months: Vec::new(),
        co_commits: 0,
        month_groups: None,
    }
}

#[test]
fn noreply_addresses_give_id_and_login() {
    assert_eq!(
        parse_noreply("123+octo@users.noreply.github.com"),
        Some((Some(123), "octo".to_string()))
    );
    assert_eq!(parse_noreply("octo@users.noreply.github.com"), Some((None, "octo".to_string())));
    assert_eq!(parse_noreply("abc+octo@users.noreply.github.com"), Some((None, "octo".to_string())));
    assert_eq!(parse_noreply("octo@example.com"), None);
}

#[test]
fn company_fields_are_cleaned() {
    assert_eq!(normalize_company("@seqeralabs"), Some("seqeralabs".to_string()));
    assert_eq!(normalize_company("QBiC @qbicsoftware"), Some("QBiC".to_string()));
    assert_eq!(normalize_company("Seqera | SciLifeLab"), Some("Seqera".to_string()));
    assert_eq!(normalize_company("A / B"), Some("A".to_string()));
    assert_eq!(normalize_company("Acme, Inc."), Some("Acme".to_string()));
    assert_eq!(normalize_company("Foo Corp."), Some("Foo Corp".to_string()));
    assert_eq!(normalize_company("Uni · Lab"), Some("Uni".to_string()));
    assert_eq!(normalize_company("   "), None);
    assert_eq!(normalize_company("@"), None);
    assert_eq!(normalize_company(&"x".repeat(61)), None);
    assert_eq!(normalize_company(&"x".repeat(60)), Some("x".repeat(60)));
}

#[test]
fn profiles_and_authors_from_api_fields() {
    assert_eq!(
        profile_from(Some("  Jane "), Some("@acme")),
        (Some("Jane".to_string()), Some("acme".to_string()))
    );
    assert_eq!(profile_from(Some("  "), None), (None, None));
    assert_eq!(clean_description(Some("  A tool ")), Some("A tool".to_string()));
    assert_eq!(clean_description(Some(" ")), None);
    assert_eq!(clean_description(None), None);
    assert_eq!(
        author_from("octo", None),
        ("octo".to_string(), "https://avatars.githubusercontent.com/octo".to_string())
    );
    assert_eq!(author_from("octo", Some("https://a/u/1")), ("octo".to_string(), "https://a/u/1".to_string()));
}

#[test]
fn images_become_base64_data_uris() {
    assert_eq!(data_uri(b"Man", "image/jpeg"), "data:image/jpeg;base64,TWFu");
    assert_eq!(data_uri(b"Ma", "image/png"), "data:image/png;base64,TWE=");
    assert_eq!(data_uri(b"M", "text/html"), "data:image/png;base64,TQ==");
    assert_eq!(data_uri(b"", "image/gif"), "data:image/gif;base64,");
    assert_eq!(data_uri(&[0xff, 0xfe, 0x00, 0x10], "image/x"), "data:image/x;base64,//4AEA==");
}

#[test]
fn avatar_keys_and_urls() {
    assert_eq!(owner_avatar_key("nf-core", 48), "owner:nf-core:48");
    assert_eq!(owner_avatar_url("nf-core", 48), "https://avatars.githubusercontent.com/nf-core?s=48");
    assert_eq!(avatar_key("https://x/a.png", 64), "https://x/a.png|64");
    assert_eq!(sized_avatar_url("https://a/u/1?v=4", 64), "https://a/u/1?v=4&s=64");
    assert_eq!(sized_avatar_url("https://a/octo", 64), "https://a/octo?s=64");
}

#[test]
fn enrichment_uses_noreply_addresses_and_the_cache() {
    let commits = vec![commit("s0", 10, 0), commit("s1", 30, 0), commit("s2", 20, 0), commit("s3", 40, 1)];
    let slugs = vec![Some("o/r".to_string()), None];
    let mut clusters = vec![
        cluster(&["x@y", "42+octo@users.noreply.github.com"], &[0], None),
        cluster(&["a@b"], &[0, 1, 2], None),
        cluster(&["c@d"], &[2, 3], None),
        cluster(&["e@f"], &[3], None),
        cluster(&["g@h"], &[1], Some("known")),
    ];
    let c = caches(
        vec![("s2".to_string(), Author { login: "bob".to_string(), avatar_url: "https://a/bob".to_string() })],
        Vec::new(),
        Vec::new(),
    );
    let (need, hits) = enrich_clusters(&mut clusters, &commits, &slugs, &c);
    assert_eq!(clusters[0].login, Some("octo".to_string()));
    assert_eq!(clusters[0].avatar_url, Some("https://avatars.githubusercontent.com/u/42?v=4".to_string()));
    assert_eq!(clusters[2].login, Some("bob".to_string()));
    assert_eq!(clusters[2].avatar_url, Some("https://a/bob".to_string()));
    assert_eq!(clusters[3].login, None);
    assert_eq!(clusters[4].login, Some("known".to_string()));
    assert_eq!(hits, 1);
    assert_eq!(need, vec![(1, "o/r".to_string(), "s1".to_string())]);
}

#[test]
fn the_latest_commit_represents_a_cluster_and_ties_go_to_the_last() {
    let commits = vec![commit("s0", 50, 0), commit("s1", 50, 0), commit("s2", 10, 0)];
    let slugs = vec![Some("o/r".to_string())];
    let mut clusters = vec![cluster(&["a@b"], &[0, 1, 2], None)];
    let c = caches(Vec::new(), Vec::new(), Vec::new());
    let (need, hits) = enrich_clusters(&mut clusters, &commits, &slugs, &c);
    assert_eq!(hits, 0);
    assert_eq!(need, vec![(0, "o/r".to_string(), "s1".to_string())]);
}

#[test]
fn looked_up_authors_are_cached_and_applied() {
    let mut clusters = vec![cluster(&["a@b"], &[0], None), cluster(&["c@d"], &[1], None)];
    let mut c = caches(Vec::new(), Vec::new(), Vec::new());
    let need = vec![(0, "o/r".to_string(), "s0".to_string()), (1, "o/r".to_string(), "s1".to_string())];
    let found = vec![(1, "carol".to_string(), "https://a/carol".to_string())];
    apply_lookups(&mut clusters, &mut c, &need, &found);
    assert_eq!(clusters[0].login, None);
    assert_eq!(clusters[1].login, Some("carol".to_string()));
    assert_eq!(clusters[1].avatar_url, Some("https://a/carol".to_string()));
    let a = c.author("s1").expect("cached");
    assert_eq!(a.login, "carol");
    assert!(c.author("s0").is_none());
    assert_eq!(c.save(), vec![CacheFile::Authors]);
}

#[test]
fn profile_logins_are_sorted_and_distinct() {
    let clusters = vec![
        cluster(&[], &[], Some("zed")),
        cluster(&[], &[], Some("amy")),
        cluster(&[], &[], None),
        cluster(&[], &[], Some("zed")),
        cluster(&[], &[], Some("Bob")),
    ];
    assert_eq!(profile_logins(&clusters), vec!["Bob".to_string(), "amy".to_string(), "zed".to_string()]);
}

#[test]
fn profiles_come_from_the_cache_or_a_fetch() {
    let c0 = caches(
        Vec::new(),
        vec![
            ("amy".to_string(), ProfileRec { name: Some("Amy A".to_string()), company: None, ts: NOW - 10 }),
            ("old".to_string(), ProfileRec { name: Some("Old".to_string()), company: None, ts: NOW - 2592000 }),
        ],
        Vec::new(),
    );
    let logins = vec!["amy".to_string(), "old".to_string(), "zed".to_string()];
    let (cached, missing) = cached_profiles(&c0, &logins);
    assert_eq!(cached, vec![("amy".to_string(), Some("Amy A".to_string()), None)]);
    assert_eq!(missing, vec!["old".to_string(), "zed".to_string()]);

    let mut c = c0;
    let mut clusters = vec![cluster(&[], &[], Some("amy")), cluster(&[], &[], Some("zed")), cluster(&[], &[], None)];
    let fetched = vec![("zed".to_string(), Some("Zed Z".to_string()), Some("Acme".to_string()))];
    apply_profiles(&mut clusters, &mut c, &cached, &fetched);
    assert_eq!(clusters[0].profile_name, Some("Amy A".to_string()));
    assert_eq!(clusters[1].profile_name, Some("Zed Z".to_string()));
    assert_eq!(clusters[1].affiliation, Some("Acme".to_string()));
    assert_eq!(clusters[2].profile_name, None);
    assert_eq!(c.profile("zed"), Some((Some("Zed Z".to_string()), Some("Acme".to_string()))));
    assert_eq!(c.save(), vec![CacheFile::Profiles]);
}

#[test]
fn avatars_are_embedded_from_cache_and_downloads() {
    let rows = vec![
        row("a", Some("https://a/1")),
        row("b", Some("data:image/png;base64,xx")),
        row("c", Some("https://a/2")),
        row("d", Some("https://a/1")),
        row("e", None),
    ];
    let urls = avatar_urls(&rows);
    assert_eq!(urls, vec!["https://a/1".to_string(), "https://a/2".to_string()]);
    let c0 = caches(
        Vec::new(),
        Vec::new(),
        vec![("https://a/2|64".to_string(), AvatarRec { data: "data:two".to_string(), ts: NOW })],
    );
    let (cached, missing) = cached_avatars(&c0, &urls, 64);
    assert_eq!(cached, vec![("https://a/2".to_string(), "data:two".to_string())]);
    assert_eq!(missing, vec!["https://a/1".to_string()]);
    let mut c = c0;
    let mut rows = rows;
    let fetched = vec![("https://a/1".to_string(), data_uri(b"Man", "image/png"))];
    apply_avatars(&mut rows, &mut c, 64, &cached, &fetched);
    assert_eq!(rows[0].avatar, Some("data:image/png;base64,TWFu".to_string()));
    assert_eq!(rows[1].avatar, Some("data:image/png;base64,xx".to_string()));
    assert_eq!(rows[2].avatar, Some("data:two".to_string()));
    assert_eq!(rows[3].avatar, rows[0].avatar);
    assert_eq!(rows[4].avatar, None);
    assert_eq!(c.avatar("https://a/1|64"), Some("data:image/png;base64,TWFu".to_string()));
}

#[test]
fn owner_avatars_are_cached_by_login_and_size() {
    let mut c = caches(Vec::new(), Vec::new(), Vec::new());
    assert_eq!(cached_owner_avatar(&c, "nf-core", 48), None);
    let d = store_owner_avatar(&mut c, "nf-core", 48, b"Man", "image/png; charset=x");
    assert_eq!(d, "data:image/png; charset=x;base64,TWFu");
    assert_eq!(cached_owner_avatar(&c, "nf-core", 48), Some(d));
    assert_eq!(cached_owner_avatar(&c, "nf-core", 64), None);
}

#[test]
fn owner_listing_pages_through_orgs_then_users() {
    let (l, url) = match list_owner_repos("acme") {
        ListingStep::Fetch(l, url) => (l, url),
        _ => panic!("expected a fetch"),
    };
    assert_eq!(url, "https://api.github.com/orgs/acme/repos?per_page=100&page=1");
    let (l, url) = match l.resume(PageReply::Unavailable) {
        ListingStep::Fetch(l, url) => (l, url),
        _ => panic!("expected a fetch"),
    };
    assert_eq!(url, "https://api.github.com/users/acme/repos?per_page=100&page=1");
    let mut page: Vec<(bool, Option<String>)> = (0..100).map(|i| (false, Some(format!("acme/r{i}")))).collect();
    page[3] = (true, Some("acme/fork".to_string()));
    page[4] = (false, None);
    let (l, url) = match l.resume(PageReply::Repos(page)) {
        ListingStep::Fetch(l, url) => (l, url),
        _ => panic!("expected a second page"),
    };
    assert_eq!(url, "https://api.github.com/users/acme/repos?per_page=100&page=2");
    assert_eq!(l.page(), 2);
    match l.resume(PageReply::Repos(vec![(false, Some("acme/last".to_string()))])) {
        ListingStep::Finished(v) => {
            assert_eq!(v.len(), 99);
            assert_eq!(v[0], "acme/r0");
            assert_eq!(v[3], "acme/r5");
            assert_eq!(v[98], "acme/last");
        }
        _ => panic!("expected the end"),
    }
}

#[test]
fn an_unlistable_owner_gives_nothing() {
    let l = match list_owner_repos("ghost") {
        ListingStep::Fetch(l, _) => l,
        _ => panic!("expected a fetch"),
    };
    let l = match l.resume(PageReply::NotAList) {
        ListingStep::Fetch(l, _) => l,
        _ => panic!("expected the users listing"),
    };
    match l.resume(PageReply::Repos(Vec::new())) {
        ListingStep::Finished(v) => assert!(v.is_empty()),
        _ => panic!("expected the end"),
    }
}

#[test]
fn excluded_repositories_match_by_slug_or_name() {
    let ex = vec!["nf-validation".to_string(), "acme/other".to_string()];
    assert!(repo_excluded("nextflow-io/nf-validation", &ex));
    assert!(repo_excluded("acme/other", &ex));
    assert!(!repo_excluded("acme/nf-validation-extra", &ex));
    assert!(!repo_excluded("other/acme", &ex));
    assert!(!repo_excluded("a/b", &[]));
}

#[test]
fn downloads_become_data_uris() {
    let d = download_uris(&[
        ("u".to_string(), b"Man".to_vec(), "image/jpeg".to_string()),
        ("v".to_string(), Vec::new(), "text/plain".to_string()),
    ]);
    assert_eq!(
        d,
        vec![
            ("u".to_string(), "data:image/jpeg;base64,TWFu".to_string()),
            ("v".to_string(), "data:image/png;base64,".to_string()),
        ]
    );
}

#[test]
fn only_nonempty_listings_are_cached() {
    let mut c = caches(Vec::new(), Vec::new(), Vec::new());
    assert_eq!(record_owner_repos(&mut c, "o", Vec::new()), Vec::<String>::new());
    assert_eq!(c.org_repos("o"), None);
    assert!(c.save().is_empty());
    let repos = vec!["o/a".to_string(), "o/b".to_string()];
    assert_eq!(record_owner_repos(&mut c, "o", repos.clone()), repos);
    assert_eq!(c.org_repos("o"), Some(repos));
    assert_eq!(c.save(), vec![CacheFile::Orgs]);
}
