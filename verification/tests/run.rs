use contributor_graphs::cache::{CacheFile, Caches};
use contributor_graphs::model::Commit;
use contributor_graphs::repo::PreparedRepo;
use contributor_graphs::run::{analyze, select_sources, AnalyzeError, Step};
use contributor_graphs::{Analysis, Config};

const JAN: i64 = 1577836800;
const FEB: i64 = 1581292800;
const MAR: i64 = 1584230400;

fn commit(sha: &str, ts: i64, name: &str, email: &str) -> Commit {
    Commit { sha: sha.to_string(), ts, name: name.to_string(), email: email.to_string(), coauthors: Vec::new(), src: 0 }
}

fn source() -> PreparedRepo {
    PreparedRepo {
        git_dir: "/c/o-r".to_string(),
        slug: Some("o/r".to_string()),
        url: Some("https://github.com/o/r".to_string()),
        display_name: "o/r".to_string(),
        branch: "main".to_string(),
        is_remote: true,
    }
}

fn history() -> Vec<Commit> {
    vec![
        commit("a", JAN, "Jane Doe", "jane@x.com"),
        commit("b", FEB, "Bob", "123+bobby@users.noreply.github.com"),
        commit("c", MAR, "Jane Doe", "jane@x.com"),
    ]
}

fn caches() -> Caches {
    Caches::load(Some("/cache".to_string()), false, 1_700_000_000, Vec::new(), Vec::new(), Vec::new(), Vec::new())
}

fn offline() -> Config {
    let mut cfg = Config::default();
    cfg.use_github = false;
    cfg
}

fn done(step: Step) -> Analysis {
    match step {
        Step::Done(a) => a,
        _ => panic!("expected a finished run"),
    }
}

#[test]
fn a_run_needs_sources_and_commits() {
    match analyze(Vec::new(), Vec::new(), Config::default(), "d".to_string(), &caches()) {
        Step::Failed(e) => assert_eq!(e, AnalyzeError::NoSources),
        _ => panic!("expected a failure"),
    }
    match analyze(vec![source()], vec![Vec::new()], Config::default(), "d".to_string(), &caches()) {
        Step::Failed(e) => assert_eq!(e, AnalyzeError::NoCommits),
        _ => panic!("expected a failure"),
    }
}

#[test]
fn an_offline_run_finishes_at_once() {
    let a = done(analyze(vec![source()], vec![history()], offline(), "2024-05-06".to_string(), &caches()));
    let names: Vec<&str> = a.contributors.iter().map(|c| c.name.as_str()).collect();
    assert_eq!(names, vec!["Jane Doe", "Bob"]);
    assert_eq!(a.contributors[0].commits, 2);
    assert_eq!(a.contributors[1].login, None);
    assert_eq!(a.meta.name, "o/r");
    assert_eq!(a.meta.first, JAN);
    assert_eq!(a.meta.last, MAR);
    assert_eq!(a.meta.total_commits, 3);
    assert_eq!(a.meta.total_contributors, 2);
    assert_eq!(a.meta.generated, "2024-05-06");
    assert_eq!(a.meta.owner_avatar, None);
}

#[test]
fn overlapping_sources_are_pooled() {
    let mut second = source();
    second.display_name = "p/r2".to_string();
    second.slug = Some("p/r2".to_string());
    let extra = vec![commit("c", MAR, "Jane Doe", "jane@x.com"), commit("d", MAR, "Carol", "carol@x.com")];
    let a = done(analyze(vec![source(), second], vec![history(), extra], offline(), "d".to_string(), &caches()));
    assert_eq!(a.meta.total_commits, 4);
    assert_eq!(a.meta.name, "o/r + p/r2");
    assert_eq!(a.meta.branch, "combined");
    assert_eq!(a.contributors.len(), 3);
}

#[test]
fn overrides_exclusions_and_groups_apply() {
    let mut cfg = offline();
    cfg.identities = vec![vec!["Janet".to_string(), "jane@x.com".to_string(), "Bob".to_string()]];
    let a = done(analyze(vec![source()], vec![history()], cfg, "d".to_string(), &caches()));
    assert_eq!(a.contributors.len(), 1);
    assert_eq!(a.contributors[0].commits, 3);

    let mut cfg = offline();
    cfg.exclude = vec!["BOB".to_string()];
    cfg.groups = vec![("jane@x.com".to_string(), "Acme".to_string())];
    cfg.title = Some("Title".to_string());
    let a = done(analyze(vec![source()], vec![history()], cfg, "d".to_string(), &caches()));
    assert_eq!(a.contributors.len(), 1);
    assert_eq!(a.contributors[0].group, Some("Acme".to_string()));
    assert_eq!(a.meta.name, "Title");
    assert_eq!(a.meta.total_contributors, 1);
}

#[test]
fn a_github_run_asks_for_what_it_needs() {
    let mut c = caches();
    let step = analyze(vec![source()], vec![history()], Config::default(), "2024-05-06".to_string(), &c);
    let (st, asks) = match step {
        Step::LookupAuthors(st, asks) => (st, asks),
        _ => panic!("expected author lookups"),
    };
    assert_eq!(asks, vec![("o/r".to_string(), "c".to_string())]);
    let step = st.resume(&mut c, &[Some(("janed".to_string(), "https://a/janed".to_string()))]);
    let (st, logins) = match step {
        Step::FetchProfiles(st, logins) => (st, logins),
        _ => panic!("expected profile fetches"),
    };
    assert_eq!(logins, vec!["bobby".to_string(), "janed".to_string()]);
    let step = st.resume(&mut c, &[("janed".to_string(), Some("Jane D.".to_string()), Some("@acme".to_string()))]);
    let (st, urls) = match step {
        Step::FetchAvatars(st, urls) => (st, urls),
        _ => panic!("expected avatar downloads"),
    };
    assert_eq!(
        urls,
        vec!["https://a/janed".to_string(), "https://avatars.githubusercontent.com/u/123?v=4".to_string()]
    );
    let step = st.resume(&mut c, &[("https://a/janed".to_string(), b"Man".to_vec(), "text/html".to_string())]);
    let (st, owner) = match step {
        Step::FetchOwnerAvatar(st, owner) => (st, owner),
        _ => panic!("expected the owner avatar"),
    };
    assert_eq!(owner, "o");
    let a = done(st.resume(&mut c, Some((b"Man".to_vec(), "image/png".to_string()))));
    assert_eq!(a.meta.owner_avatar, Some("data:image/png;base64,TWFu".to_string()));
    let jane = &a.contributors[0];
    assert_eq!(jane.name, "Jane D.");
    assert_eq!(jane.login, Some("janed".to_string()));
    assert_eq!(jane.url, Some("https://github.com/janed".to_string()));
    assert_eq!(jane.group, Some("@acme".to_string()));
    assert_eq!(jane.avatar, Some("data:image/png;base64,TWFu".to_string()));
    assert_eq!(c.avatar("https://a/janed|64"), Some("data:image/png;base64,TWFu".to_string()));
    let bob = &a.contributors[1];
    assert_eq!(bob.login, Some("bobby".to_string()));
    assert_eq!(bob.avatar, Some("https://avatars.githubusercontent.com/u/123?v=4".to_string()));
    assert_eq!(c.save(), vec![CacheFile::Authors, CacheFile::Profiles, CacheFile::Avatars]);
    assert!(c.author("c").is_some());
}

#[test]
fn cached_answers_skip_the_network() {
    let mut c = caches();
    c.put_author("c".to_string(), "janed".to_string(), "https://a/janed".to_string());
    c.put_profile("janed".to_string(), None, None);
    c.put_profile("bobby".to_string(), Some("Robert".to_string()), None);
    c.put_avatar("https://a/janed|64".to_string(), "data:j".to_string());
    c.put_avatar("https://avatars.githubusercontent.com/u/123?v=4|64".to_string(), "data:b".to_string());
    c.put_avatar("owner:o:48".to_string(), "data:o".to_string());
    let mut cfg = Config::default();
    cfg.detect_affiliation = false;
    let step = analyze(vec![source()], vec![history()], cfg, "d".to_string(), &c);
    let st = match step {
        Step::LookupAuthors(st, asks) => {
            assert!(asks.is_empty());
            st
        }
        _ => panic!("expected an empty lookup"),
    };
    let st = match st.resume(&mut c, &[]) {
        Step::FetchProfiles(st, logins) => {
            assert!(logins.is_empty());
            st
        }
        _ => panic!("expected no profile fetch"),
    };
    let st = match st.resume(&mut c, &[]) {
        Step::FetchAvatars(st, urls) => {
            assert!(urls.is_empty());
            st
        }
        _ => panic!("expected no downloads"),
    };
    let a = done(st.resume(&mut c, &[]));
    assert_eq!(a.meta.owner_avatar, Some("data:o".to_string()));
    assert_eq!(a.contributors[1].name, "Robert");
    assert_eq!(a.contributors[1].avatar, Some("data:b".to_string()));
    assert_eq!(a.contributors[0].avatar, Some("data:j".to_string()));
}

#[test]
fn several_sources_skip_failures_and_empty_ones() {
    let outcomes: Vec<Result<(PreparedRepo, Vec<Commit>), String>> =
        vec![Err("clone failed".to_string()), Ok((source(), Vec::new())), Ok((source(), history()))];
    let (kept, commits, skipped) = select_sources(outcomes).unwrap();
    assert_eq!(kept.len(), 1);
    assert_eq!(commits.len(), 1);
    assert_eq!(commits[0].len(), history().len());
    assert_eq!(commits[0][0].sha, history()[0].sha);
    assert_eq!(skipped, vec![(0, Some("clone failed".to_string())), (1, None)]);
}

#[test]
fn a_single_source_keeps_its_error_or_its_emptiness() {
    let failed: Vec<Result<(PreparedRepo, Vec<Commit>), String>> = vec![Err("no such repo".to_string())];
    assert_eq!(select_sources(failed).err(), Some("no such repo".to_string()));
    let empty: Vec<Result<(PreparedRepo, Vec<Commit>), String>> = vec![Ok((source(), Vec::new()))];
    let (kept, commits, skipped) = select_sources(empty).unwrap();
    assert_eq!(kept.len(), 1);
    assert_eq!(commits.len(), 1);
    assert!(commits[0].is_empty());
    assert!(skipped.is_empty());
}

#[test]
fn co_authors_are_credited_unless_turned_off() {
    let mut commits = history();
    commits[1].coauthors = vec![("Carol".to_string(), "carol@x.com".to_string())];
    let a = done(analyze(vec![source()], vec![commits.clone()], offline(), "d".to_string(), &caches()));
    assert_eq!(a.contributors.len(), 3);
    let mut cfg = offline();
    cfg.co_authors = false;
    let a = done(analyze(vec![source()], vec![commits], cfg, "d".to_string(), &caches()));
    assert_eq!(a.contributors.len(), 2);
}

#[test]
fn several_sources_without_commits_report_no_commits() {
    let outcomes: Vec<Result<(PreparedRepo, Vec<Commit>), String>> =
        vec![Ok((source(), Vec::new())), Ok((source(), Vec::new()))];
    let (kept, commits, skipped) = select_sources(outcomes).unwrap();
    assert_eq!(kept.len(), 2);
    assert!(skipped.is_empty());
    match analyze(kept, commits, Config::default(), "d".to_string(), &caches()) {
        Step::Failed(e) => assert_eq!(e, AnalyzeError::NoCommits),
        _ => panic!("expected a failure"),
    }
}

#[test]
fn several_unreadable_sources_report_the_first_error() {
    let outcomes: Vec<Result<(PreparedRepo, Vec<Commit>), String>> =
        vec![Ok((source(), Vec::new())), Err("first".to_string()), Err("second".to_string())];
    assert_eq!(select_sources(outcomes).err(), Some("first".to_string()));
}

#[test]
fn a_same_owner_pool_is_titled_by_the_owner() {
    let mut second = source();
    second.display_name = "o/r2".to_string();
    second.slug = Some("o/r2".to_string());
    let extra = vec![commit("d", MAR, "Carol", "carol@x.com")];
    let a = done(analyze(vec![source(), second.clone()], vec![history(), extra.clone()], offline(), "d".to_string(), &caches()));
    assert_eq!(a.meta.name, "o");
    assert_eq!(a.meta.slug, None);
    let mut cfg = offline();
    cfg.use_github = true;
    cfg.detect_affiliation = false;
    let mut c = caches();
    c.put_avatar("owner:o:48".to_string(), "data:o".to_string());
    let mut step = analyze(vec![source(), second], vec![history(), extra], cfg, "d".to_string(), &c);
    loop {
        step = match step {
            Step::LookupAuthors(st, asks) => {
                let answers: Vec<Option<(String, String)>> = asks.iter().map(|_| None).collect();
                st.resume(&mut c, &answers)
            }
            Step::FetchProfiles(st, _) => st.resume(&mut c, &[]),
            Step::FetchAvatars(st, _) => st.resume(&mut c, &[]),
            Step::FetchOwnerAvatar(st, _) => st.resume(&mut c, None),
            Step::Done(a) => {
                assert_eq!(a.meta.owner_avatar, Some("data:o".to_string()));
                assert_eq!(a.meta.name, "o");
                break;
            }
            Step::Failed(_) => panic!("unexpected failure"),
        };
    }
}
