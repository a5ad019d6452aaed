use contributor_graphs::cache::{
    Author, AvatarRec, CacheFile, CachedCommit, Caches, OrgRec, ProfileRec, AVATAR_TTL, COMMITS_VERSION, ORG_TTL,
    PROFILE_TTL,
};
use contributor_graphs::model::CommitFilter;

const NOW: i64 = 1_700_000_000;

fn empty(root: Option<&str>, refresh: bool) -> Caches {
    Caches::load(root.map(|s| s.to_string()), refresh, NOW, Vec::new(), Vec::new(), Vec::new(), Vec::new())
}

fn filter() -> CommitFilter {
    CommitFilter { since: Some("2020-01-01".to_string()), until: None, no_merges: true }
}

fn cached_commit(sha: &str) -> CachedCommit {
    CachedCommit { sha: sha.to_string(), ts: 5, name: "n".to_string(), email: "e".to_string(), coauthors: Vec::new() }
}

#[test]
fn time_to_live_constants() {
    assert_eq!(PROFILE_TTL, 30 * 86400);
    assert_eq!(AVATAR_TTL, 90 * 86400);
    assert_eq!(ORG_TTL, 6 * 3600);
    assert_eq!(COMMITS_VERSION, 2);
}

#[test]
fn a_read_gives_back_what_was_written() {
    let mut c = empty(Some("/cache"), false);
    c.put_author("sha1".to_string(), "octo".to_string(), "https://a/octo".to_string());
    let a = c.author("sha1").expect("author");
    assert_eq!((a.login.as_str(), a.avatar_url.as_str()), ("octo", "https://a/octo"));
    c.put_profile("octo".to_string(), Some("Octo Cat".to_string()), None);
    assert_eq!(c.profile("octo"), Some((Some("Octo Cat".to_string()), None)));
    c.put_avatar("k".to_string(), "data:x".to_string());
    assert_eq!(c.avatar("k"), Some("data:x".to_string()));
    c.put_org_repos("acme".to_string(), vec!["acme/a".to_string()]);
    assert_eq!(c.org_repos("acme"), Some(vec!["acme/a".to_string()]));
    assert!(c.author("other").is_none());
}

#[test]
fn a_later_write_replaces_an_earlier_one() {
    let mut c = empty(None, false);
    c.put_avatar("k".to_string(), "old".to_string());
    c.put_avatar("k".to_string(), "new".to_string());
    assert_eq!(c.avatar("k"), Some("new".to_string()));
    assert_eq!(c.avatar_entries().len(), 1);
}

#[test]
fn loaded_entries_expire() {
    let c = Caches::load(
        Some("/cache".to_string()),
        false,
        NOW,
        vec![("s".to_string(), Author { login: "l".to_string(), avatar_url: "u".to_string() })],
        vec![
            ("fresh".to_string(), ProfileRec { name: None, company: Some("C".to_string()), ts: NOW - PROFILE_TTL + 1 }),
            ("stale".to_string(), ProfileRec { name: None, company: None, ts: NOW - PROFILE_TTL }),
        ],
        vec![("a".to_string(), AvatarRec { data: "d".to_string(), ts: NOW - AVATAR_TTL })],
        vec![("o".to_string(), OrgRec { repos: Vec::new(), ts: NOW - ORG_TTL + 1 })],
    );
    assert!(c.author("s").is_some());
    assert_eq!(c.profile("fresh"), Some((None, Some("C".to_string()))));
    assert_eq!(c.profile("stale"), None);
    assert_eq!(c.avatar("a"), None);
    assert_eq!(c.org_repos("o"), Some(Vec::new()));
    assert!(c.save().is_empty());
}

#[test]
fn refreshing_skips_reads_but_keeps_entries() {
    let mut c = Caches::load(
        Some("/cache".to_string()),
        true,
        NOW,
        vec![("s".to_string(), Author { login: "l".to_string(), avatar_url: "u".to_string() })],
        Vec::new(),
        Vec::new(),
        Vec::new(),
    );
    assert!(c.author("s").is_none());
    c.put_author("t".to_string(), "m".to_string(), "v".to_string());
    assert!(c.author("t").is_none());
    assert_eq!(c.author_entries().len(), 2);
    assert_eq!(c.save(), vec![CacheFile::Authors]);
}

#[test]
fn only_changed_maps_are_saved() {
    let mut c = empty(Some("/cache"), false);
    assert!(c.save().is_empty());
    c.put_org_repos("o".to_string(), Vec::new());
    c.put_profile("p".to_string(), None, None);
    assert_eq!(c.save(), vec![CacheFile::Profiles, CacheFile::Orgs]);
    let mut c = empty(None, false);
    c.put_profile("p".to_string(), None, None);
    assert!(c.save().is_empty());
    assert_eq!(c.root(), &None);
}

#[test]
fn cached_history_needs_the_same_tip_and_filters() {
    let c = empty(Some("/cache"), false);
    let entry = c.put_commits("tip1", &filter(), vec![cached_commit("a")]).expect("a cache directory");
    assert_eq!(entry.version, COMMITS_VERSION);
    assert_eq!(entry.tip, "tip1");
    let back = c.commits(Some(entry), "tip1", &filter()).expect("a hit");
    assert_eq!(back.len(), 1);
    assert_eq!(back[0].sha, "a");
    let entry = c.put_commits("tip1", &filter(), vec![cached_commit("a")]).unwrap();
    assert!(c.commits(Some(entry), "tip2", &filter()).is_none());
    let entry = c.put_commits("tip1", &filter(), Vec::new()).unwrap();
    let other = CommitFilter { since: None, until: None, no_merges: true };
    assert!(c.commits(Some(entry), "tip1", &other).is_none());
    assert!(c.commits(None, "tip1", &filter()).is_none());
}

#[test]
fn without_a_cache_directory_history_is_not_kept() {
    let c = empty(None, false);
    assert!(c.put_commits("tip", &filter(), Vec::new()).is_none());
    let refreshing = empty(Some("/cache"), true);
    let entry = refreshing.put_commits("tip", &filter(), Vec::new()).unwrap();
    assert!(refreshing.commits(Some(entry), "tip", &filter()).is_none());
}
