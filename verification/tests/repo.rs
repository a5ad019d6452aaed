use contributor_graphs::repo::{
    clone_key, coauthor_from, coauthor_parts, local_repo, looks_like_owner, looks_like_slug, parse_coauthor, parse_commits, parse_github_url,
    prepare, read_tags, remote_repo, remote_tip, resolve_branch, sanitize, PrepareError, Source,
};

#[test]
fn github_urls_of_every_shape_give_the_slug() {
    assert_eq!(parse_github_url("https://github.com/nf-core/rnaseq"), Some("nf-core/rnaseq".to_string()));
    assert_eq!(parse_github_url("https://github.com/nf-core/rnaseq.git"), Some("nf-core/rnaseq".to_string()));
    assert_eq!(parse_github_url("git@github.com:MultiQC/MultiQC.git"), Some("MultiQC/MultiQC".to_string()));
    assert_eq!(parse_github_url("http://github.com/a/b/"), Some("a/b".to_string()));
    assert_eq!(parse_github_url("ssh://git@github.com/a/b"), Some("a/b".to_string()));
    assert_eq!(parse_github_url("github.com/a/b/tree/main"), Some("a/b".to_string()));
    assert_eq!(parse_github_url("  https://github.com/a/b  "), Some("a/b".to_string()));
}

#[test]
fn non_github_urls_give_no_slug() {
    assert_eq!(parse_github_url("https://gitlab.com/a/b"), None);
    assert_eq!(parse_github_url("https://github.com/owner"), None);
    assert_eq!(parse_github_url("https://github.com//repo"), None);
    assert_eq!(parse_github_url(""), None);
}

#[test]
fn slugs_are_two_plain_parts() {
    assert!(looks_like_slug("nf-core/rnaseq"));
    assert!(looks_like_slug("a_b/c.d"));
    assert!(!looks_like_slug("a/b/c"));
    assert!(!looks_like_slug("a"));
    assert!(!looks_like_slug("a/"));
    assert!(!looks_like_slug("a b/c"));
}

#[test]
fn owners_are_single_tokens_that_are_not_paths() {
    assert!(looks_like_owner("nf-core", false));
    assert!(looks_like_owner("  ewels ", false));
    assert!(!looks_like_owner("nf-core", true));
    assert!(!looks_like_owner("a.b", false));
    assert!(!looks_like_owner("a/b", false));
    assert!(!looks_like_owner("a:b", false));
    assert!(!looks_like_owner("-x", false));
    assert!(!looks_like_owner("", false));
    assert!(!looks_like_owner("a_b", false));
}

#[test]
fn sanitize_keeps_alnum_dash_and_dot() {
    assert_eq!(sanitize("nf-core/rnaseq"), "nf-core-rnaseq");
    assert_eq!(sanitize("a b.c_d"), "a-b.c-d");
    assert_eq!(sanitize("é"), "-");
}

#[test]
fn coauthor_values_are_parsed() {
    assert_eq!(
        parse_coauthor("Jane Doe <Jane@Example.com>"),
        Some(("Jane Doe".to_string(), "jane@example.com".to_string()))
    );
    assert_eq!(parse_coauthor("Bob"), Some(("Bob".to_string(), String::new())));
    assert_eq!(parse_coauthor("   "), None);
    assert_eq!(parse_coauthor("<>"), None);
    assert_eq!(parse_coauthor("x > y <"), Some(("x > y <".to_string(), String::new())));
}

#[test]
fn tags_with_a_positive_date_are_read() {
    let out = "v1.0\t1600000000\nv2.0\t1700000000\nbad\nx\t0\n\t5\ny\tabc";
    let tags = read_tags(out);
    assert_eq!(tags.len(), 2);
    assert_eq!(tags[0].name, "v1.0");
    assert_eq!(tags[0].ts, 1600000000);
    assert_eq!(tags[1].name, "v2.0");
    assert_eq!(tags[1].ts, 1700000000);
}

#[test]
fn git_log_records_are_parsed() {
    let text = "\u{1e}abc\t1600000000\tJane \tJane@X.com\tBob <bob@x.com>\u{1f}Jane <JANE@x.com>\n\u{1e}def\t1600000100\tBob\tbob@x.com\t\n\u{1e}bad\tnotanumber\tX\tx@x\t";
    let commits = parse_commits(text);
    assert_eq!(commits.len(), 2);
    assert_eq!(commits[0].sha, "abc");
    assert_eq!(commits[0].ts, 1600000000);
    assert_eq!(commits[0].name, "Jane");
    assert_eq!(commits[0].email, "jane@x.com");
    assert_eq!(commits[0].coauthors, vec![("Bob".to_string(), "bob@x.com".to_string())]);
    assert_eq!(commits[0].src, 0);
    assert_eq!(commits[1].sha, "def");
    assert!(commits[1].coauthors.is_empty());
}

#[test]
fn prepare_recognises_each_kind_of_source() {
    assert!(matches!(prepare(".", true), Ok(Source::Local)));
    match prepare("nf-core/rnaseq", false) {
        Ok(Source::Remote { clone_url, slug }) => {
            assert_eq!(clone_url, "https://github.com/nf-core/rnaseq.git");
            assert_eq!(slug, Some("nf-core/rnaseq".to_string()));
        }
        _ => panic!("expected a remote source"),
    }
    match prepare("https://github.com/MultiQC/MultiQC", false) {
        Ok(Source::Remote { clone_url, slug }) => {
            assert_eq!(clone_url, "https://github.com/MultiQC/MultiQC.git");
            assert_eq!(slug, Some("MultiQC/MultiQC".to_string()));
        }
        _ => panic!("expected a remote source"),
    }
    match prepare("https://gitlab.com/a/b.git", false) {
        Ok(Source::Remote { clone_url, slug }) => {
            assert_eq!(clone_url, "https://gitlab.com/a/b.git");
            assert_eq!(slug, None);
        }
        _ => panic!("expected a remote source"),
    }
    assert!(matches!(prepare("not a repo", false), Err(PrepareError::Unrecognised)));
}

#[test]
fn remote_repositories_are_named_by_slug_or_url() {
    let r = remote_repo("https://gitlab.com/group/proj.git", None, "/c/proj".to_string(), "main".to_string());
    assert_eq!(r.display_name, "proj");
    assert_eq!(r.url, None);
    assert!(r.is_remote);
    let r = remote_repo(
        "https://github.com/a/b.git",
        Some("a/b".to_string()),
        "/c/a-b".to_string(),
        "dev".to_string(),
    );
    assert_eq!(r.display_name, "a/b");
    assert_eq!(r.url, Some("https://github.com/a/b".to_string()));
    assert_eq!(r.branch, "dev");
}

#[test]
fn local_repositories_use_their_origin() {
    let r = local_repo(
        "/x".to_string(),
        Some("git@github.com:o/r.git"),
        Some("dir".to_string()),
        "main".to_string(),
    );
    assert_eq!(r.slug, Some("o/r".to_string()));
    assert_eq!(r.url, Some("https://github.com/o/r".to_string()));
    assert_eq!(r.display_name, "o/r");
    assert!(!r.is_remote);
    let r = local_repo("/x".to_string(), None, Some("dir".to_string()), "main".to_string());
    assert_eq!(r.display_name, "dir");
    let r = local_repo("/".to_string(), Some("https://example.com/x.git"), None, "main".to_string());
    assert_eq!(r.slug, None);
    assert_eq!(r.display_name, "repository");
}

#[test]
fn clone_keys_and_branches() {
    assert_eq!(clone_key("https://github.com/a/b.git", &Some("a/b".to_string())), "a-b");
    assert_eq!(clone_key("https://x.org/r.git", &None), "https---x.org-r.git");
    assert_eq!(resolve_branch(Some("dev"), Some("main".to_string())), "dev");
    assert_eq!(resolve_branch(None, Some("main".to_string())), "main");
    assert_eq!(resolve_branch(None, None), "HEAD");
}

#[test]
fn remote_tip_is_the_first_word_of_ls_remote() {
    let remote = remote_repo("https://github.com/a/b.git", Some("a/b".to_string()), "/c".to_string(), "main".to_string());
    assert_eq!(remote_tip(&remote, Some("abc123\trefs/heads/main\n")), Some("abc123".to_string()));
    assert_eq!(remote_tip(&remote, Some("   ")), None);
    assert_eq!(remote_tip(&remote, None), None);
    let local = local_repo("/x".to_string(), None, None, "main".to_string());
    assert_eq!(remote_tip(&local, Some("abc123 refs/heads/main")), None);
}

#[test]
fn coauthor_parts_before_lowering() {
    assert_eq!(
        coauthor_parts(" Jane Doe <Jane@Example.com> "),
        Some(("Jane Doe".to_string(), Some("Jane@Example.com".to_string())))
    );
    assert_eq!(coauthor_parts("Bob"), Some(("Bob".to_string(), None)));
    assert_eq!(coauthor_parts("\u{2003}\t"), None);
    assert_eq!(coauthor_parts("< >"), Some((String::new(), Some(String::new()))));
    assert_eq!(coauthor_from(String::new(), Some(String::new())), None);
    assert_eq!(coauthor_from("Bob".to_string(), None), Some(("Bob".to_string(), String::new())));
    assert_eq!(coauthor_from(String::new(), Some("a@b".to_string())), Some((String::new(), "a@b".to_string())));
}
