//! One analysis run, from the commits read out of each source to the
//! contributor rows and their metadata. The run stops wherever it needs
//! something only the network can give (commit authors, profiles, avatars)
//! and says what; the caller fetches it and resumes the run with the answer.
use vstd::prelude::*;
use crate::cache::{avatar_answer, same_except, AvatarRec, CacheFile, Caches};
use crate::github::avatars::{
    apply_avatars, avatar_urls, cached_avatars, cached_avatars_of, cached_owner_avatar, embedded_avatar,
    embedded_views, owner_key_of, remote_avatars, store_owner_avatar, uncached_avatars, avatars_after,
    download_uris, uris_of, lemma_remote_not_data, lemma_cached_from, lemma_data_in_from, data_in,
};
use crate::github::data_uri_of;
use crate::github::enrich::{
    any_recorded, authors_after, profiles_after, apply_lookups, lookups_view, lookup_of, apply_profiles, cached_profiles, cached_profiles_of, enrich_clusters, found_for, has_login,
    pending, profile_logins, profile_of, profile_views, same_but_identity, same_but_profile, strictly_sorted,
    uncached_logins, enriched,
};
use crate::identity::bounds::{all_within, cluster_within, law_login_merge_within, law_overrides_within};
use crate::identity::laws::lemma_idents_prefix;
use crate::identity::contributors::{build_contributors, contributor_of, credited, kept};
use crate::identity::{
    apply_identity_file, cluster_commits, clustering, cluster_content, commit_idents, idents, identity_trace, live,
    login_merge_trace, merge_by_login, views, Cluster,
};
use crate::model::{clone_opt, opt_view, Commit, Contributor, GroupRule};
use crate::repo::PreparedRepo;
use crate::text::{chars_of, cut_at, cut_at_exec, starts_with, string_of};
use crate::{
    canonicalize_groups, common_owner, common_owner_of, canonicalized, exclude_contributors, first_by_sha, kept_rows, meta_of, pool_commits,
    repo_meta, tag_all, tagged, Analysis, Config,
};

verus! {

// ---------------------------------------------------------------------------
// The state of a run
// ---------------------------------------------------------------------------
/// Why a run stops without a result.
#[derive(Debug, Clone, Copy, PartialEq, Eq)]
pub enum AnalyzeError {
    /// No repository sources were given.
    NoSources,
    /// The sources hold no commits.
    NoCommits,
    /// More commits or identities than this machine's counters hold.
    TooLarge,
}

/// What a run has settled so far: its configuration and sources, the
/// pooled commits, the identity clusters and the date of the run.
pub struct Run {
    pub cfg: Config,
    pub prepared: Vec<PreparedRepo>,
    /// The `owner/repo` slug of each source, `None` off GitHub.
    pub slugs: Vec<Option<String>>,
    pub commits: Vec<Commit>,
    pub clusters: Vec<Cluster>,
    /// The date of the run, as the metadata shows it.
    pub generated: String,
}

/// The slug of each source.
pub open spec fn slugs_of(prepared: Seq<PreparedRepo>) -> Seq<Option<String>> {
    prepared.map_values(|p: PreparedRepo| p.slug)
}

/// A run whose clusters refer only to its commits, with the slugs of its
/// sources.
pub open spec fn run_ok(run: Run) -> bool {
    &&& all_within(run.clusters@, run.commits@.len() as int)
    &&& run.slugs@ == slugs_of(run.prepared@)
}

/// What a run keeps from start to finish: its configuration, its sources
/// and their slugs, the pooled commits and the date of the run.
pub struct Ctx {
    pub cfg: Config,
    pub prepared: Seq<PreparedRepo>,
    pub slugs: Seq<Option<String>>,
    pub commits: Seq<Commit>,
    pub generated: Seq<char>,
}

/// What `run` keeps from start to finish.
pub open spec fn ctx_of(run: Run) -> Ctx {
    Ctx {
        cfg: run.cfg,
        prepared: run.prepared@,
        slugs: run.slugs@,
        commits: run.commits@,
        generated: run.generated@,
    }
}

/// A run waiting for the authors of commits, from the commits API.
pub struct AuthorLookups {
    run: Run,
    need: Vec<(usize, String, String)>,
}

/// A run waiting for user profiles.
pub struct ProfileFetches {
    run: Run,
    cached: Vec<(String, Option<String>, Option<String>)>,
}

/// A run waiting for avatar images.
pub struct AvatarFetches {
    run: Run,
    rows: Vec<Contributor>,
    cached: Vec<(String, String)>,
    asked: Vec<String>,
}

/// A run waiting for the avatar of the owner of its one GitHub source.
pub struct OwnerAvatarFetch {
    run: Run,
    rows: Vec<Contributor>,
}

impl AuthorLookups {
    #[verifier::type_invariant]
    spec fn inv(self) -> bool {
        &&& run_ok(self.run)
        &&& forall|k: int| 0 <= k < self.need@.len() ==> ((#[trigger] self.need@[k]).0 as int) < self.run.clusters@.len()
    }

    /// The run so far.
    pub closed spec fn state(self) -> Run {
        self.run
    }

    /// The lookups asked for, as `(cluster index, slug, SHA)`.
    pub closed spec fn asked(self) -> Seq<(usize, String, String)> {
        self.need@
    }
}

impl ProfileFetches {
    #[verifier::type_invariant]
    spec fn inv(self) -> bool {
        run_ok(self.run)
    }

    /// The run so far.
    pub closed spec fn state(self) -> Run {
        self.run
    }

    /// The profiles the cache held, as `(login, name, company)`.
    pub closed spec fn from_cache(self) -> Seq<(String, Option<String>, Option<String>)> {
        self.cached@
    }
}

impl AvatarFetches {
    #[verifier::type_invariant]
    spec fn inv(self) -> bool {
        &&& run_ok(self.run)
        &&& forall|k: int| 0 <= k < self.cached@.len() ==> !starts_with((#[trigger] self.cached@[k]).0@, "data:"@)
        &&& forall|k: int| 0 <= k < self.asked@.len() ==> !starts_with((#[trigger] self.asked@[k])@, "data:"@)
    }

    /// The avatar URLs asked for.
    pub closed spec fn asked(self) -> Seq<Seq<char>> {
        views(self.asked@)
    }

    /// The run so far.
    pub closed spec fn state(self) -> Run {
        self.run
    }

    /// The contributor rows.
    pub closed spec fn rows_of(self) -> Seq<Contributor> {
        self.rows@
    }

    /// The avatars the cache held, as `(URL, data URI)`.
    pub closed spec fn from_cache(self) -> Seq<(String, String)> {
        self.cached@
    }
}

impl OwnerAvatarFetch {
    #[verifier::type_invariant]
    spec fn inv(self) -> bool {
        &&& run_ok(self.run)
        &&& owner_login(ctx_of(self.run)) is Some
    }

    /// The run so far.
    pub closed spec fn state(self) -> Run {
        self.run
    }

    /// The contributor rows.
    pub closed spec fn rows_of(self) -> Seq<Contributor> {
        self.rows@
    }
}

/// Where a run stands: what it needs next, or its outcome.
pub enum Step {
    /// Look up the author of each commit, given as `(owner/repo, SHA)`, and
    /// resume with one answer `(login, avatar URL)` per lookup, in order.
    LookupAuthors(AuthorLookups, Vec<(String, String)>),
    /// Fetch the profile of each login and resume with the profiles
    /// fetched, as `(login, name, company)`.
    FetchProfiles(ProfileFetches, Vec<String>),
    /// Download each avatar URL (at the configured size) and resume with
    /// the images downloaded, as `(URL, data URI)`.
    FetchAvatars(AvatarFetches, Vec<String>),
    /// Download the avatar of this owner (at 48 pixels) and resume with the
    /// bytes and content type, if the download succeeded.
    FetchOwnerAvatar(OwnerAvatarFetch, String),
    /// The run is complete.
    Done(Analysis),
    /// The run stopped.
    Failed(AnalyzeError),
}

// ---------------------------------------------------------------------------
// What a run computes
// ---------------------------------------------------------------------------
/// Some source is on GitHub.
pub open spec fn any_slug(slugs: Seq<Option<String>>) -> bool {
    exists|k: int| 0 <= k < slugs.len() && (#[trigger] slugs[k]) is Some
}

/// The manual group mappings as rules that hold at every date.
pub open spec fn rules_of(groups: Seq<(String, String)>) -> Seq<GroupRule> {
    groups.map_values(|g: (String, String)| GroupRule { matcher: g.0, group: g.1, since: None, until: None })
}

/// The size at which an owner's avatar is embedded.
pub const OWNER_AVATAR_SIZE: u32 = 48;

/// `out` is what the identity override rows make of the clusters `cs`.
pub open spec fn overrides_applied(cs: Seq<Cluster>, rows: Seq<Vec<String>>, out: Seq<Cluster>) -> bool {
    if rows.len() == 0 {
        out == cs
    } else {
        exists|steps: Seq<Seq<Option<Cluster>>>| #[trigger] identity_trace(cs, rows, steps) && out == live(steps.last())
    }
}

/// Every cluster is credited with at most `u32::MAX` commits (its
/// co-authored ones too when `co`).
pub open spec fn credits_fit(cs: Seq<Cluster>, co: bool) -> bool {
    forall|i: int| 0 <= i < cs.len() ==> (#[trigger] credited(cs[i], co)).len() <= u32::MAX
}

/// `rows` are the contributors that the clusters `cs` make: one per cluster
/// with a commit (co-authored ones counted when the run credits
/// co-authors), the manual groups applied as
/// undated rules, group names canonicalised, the excluded ones dropped.
pub open spec fn rows_from(cfg: Config, cs: Seq<Cluster>, commits: Seq<Commit>, rows: Seq<Contributor>) -> bool {
    exists|built: Seq<Contributor>, canon: Seq<Contributor>|
        #![trigger built_from(cs, commits, rules_of(cfg.groups@), cfg.co_authors, built), canon_of(built, canon)]
        built_from(cs, commits, rules_of(cfg.groups@), cfg.co_authors, built) && canon_of(built, canon) && rows == kept_rows(
            canon,
            cfg.exclude@,
        )
}

/// `out` holds a contributor for each cluster with a credited commit,
/// co-authored commits credited when `co`.
pub open spec fn built_from(cs: Seq<Cluster>, commits: Seq<Commit>, rules: Seq<GroupRule>, co: bool, out: Seq<Contributor>) -> bool {
    &&& out.len() == kept(cs, co).len()
    &&& forall|k: int|
        0 <= k < out.len() ==> contributor_of(kept(cs, co)[k], commits, rules, Seq::empty(), co, #[trigger] out[k])
}

/// `canon` is `built` with its group names canonicalised.
pub open spec fn canon_of(built: Seq<Contributor>, canon: Seq<Contributor>) -> bool {
    &&& canon.len() == built.len()
    &&& forall|j: int| 0 <= j < built.len() ==> canonicalized(built, built[j], #[trigger] canon[j])
}

/// The owner whose avatar heads the page: the GitHub owner that all the
/// sources share (one repository, or several of one owner), when avatars
/// are embedded.
pub open spec fn owner_login(x: Ctx) -> Option<Seq<char>> {
    if x.cfg.use_github && x.cfg.embed_avatars {
        common_owner(x.prepared)
    } else {
        None
    }
}

/// `a` is the outcome of the run with these rows and owner avatar.
pub open spec fn finished(x: Ctx, rows: Seq<Contributor>, owner: Option<Seq<char>>, a: Analysis) -> bool {
    &&& a.contributors@ == rows
    &&& meta_of(
        x.cfg.title,
        x.prepared,
        rows,
        x.commits.len() as u64,
        x.generated,
        a.meta.owner_avatar,
        None,
        a.meta,
    )
    &&& opt_view(a.meta.owner_avatar) == owner
}

/// What follows once the rows are embedded: the owner's avatar from the
/// cache `c` or the network, then the outcome.
pub open spec fn owner_next(x: Ctx, rows: Seq<Contributor>, c: Caches, r: Step) -> bool {
    match owner_login(x) {
        Some(o) => match avatar_answer(c, owner_key_of(o, OWNER_AVATAR_SIZE)) {
            Some(d) => r is Done && finished(x, rows, Some(d), r->Done_0),
            None => match r {
                Step::FetchOwnerAvatar(st, login) => login@ == o && ctx_of(st.state()) == x && st.rows_of() == rows,
                _ => false,
            },
        },
        None => r is Done && finished(x, rows, None, r->Done_0),
    }
}

/// What follows once the rows are built: embedding their avatars, from the
/// cache `c` or the network, when configured; else the owner's avatar.
pub open spec fn rows_next(x: Ctx, rows: Seq<Contributor>, c: Caches, r: Step) -> bool {
    if x.cfg.embed_avatars && x.cfg.use_github {
        let urls = remote_avatars(rows);
        match r {
            Step::FetchAvatars(st, missing) => {
                &&& views(missing@) == uncached_avatars(c, urls, x.cfg.avatar_size)
                &&& st.asked() == views(missing@)
                &&& embedded_views(st.from_cache()) == cached_avatars_of(c, urls, x.cfg.avatar_size)
                &&& ctx_of(st.state()) == x
                &&& st.rows_of() == rows
            },
            _ => false,
        }
    } else {
        owner_next(x, rows, c, r)
    }
}

/// What a run does once its clusters `cs` are final: apply the identity
/// overrides, stop if a cluster has more commits than a counter holds, else
/// build the rows and go on.
pub open spec fn assembles(x: Ctx, cs: Seq<Cluster>, c: Caches, r: Step) -> bool {
    exists|o: Seq<Cluster>|
        #[trigger] overrides_applied(cs, x.cfg.identities@, o) && if !credits_fit(o, x.cfg.co_authors) {
            r == Step::Failed(AnalyzeError::TooLarge)
        } else {
            exists|rows: Seq<Contributor>| #[trigger] rows_from(x.cfg, o, x.commits, rows) && rows_next(x, rows, c, r)
        }
}

// ---------------------------------------------------------------------------
// Finishing a run
// ---------------------------------------------------------------------------
/// The outcome of the run with these rows and owner avatar.
fn finish(run: Run, rows: Vec<Contributor>, owner_avatar: Option<String>) -> (a: Analysis)
    ensures
        finished(ctx_of(run), rows@, opt_view(owner_avatar), a),
{
    let meta = repo_meta(
        clone_opt(&run.cfg.title),
        run.prepared.as_slice(),
        rows.as_slice(),
        run.commits.len() as u64,
        run.generated,
        owner_avatar,
        None,
    );
    Analysis { contributors: rows, meta }
}

/// The owner of the one GitHub source, when its avatar is to head the page.
fn owner_login_exec(run: &Run) -> (r: Option<String>)
    ensures
        opt_view(r) == owner_login(ctx_of(*run)),
{
    if run.cfg.use_github && run.cfg.embed_avatars {
        common_owner_of(run.prepared.as_slice())
    } else {
        None
    }
}

/// Go on from the embedded rows: the owner's avatar, then the outcome.
fn owner_step(run: Run, rows: Vec<Contributor>, caches: &Caches) -> (r: Step)
    requires
        run_ok(run),
    ensures
        owner_next(ctx_of(run), rows@, *caches, r),
{
    match owner_login_exec(&run) {
        Some(o) => match cached_owner_avatar(caches, o.as_str(), OWNER_AVATAR_SIZE) {
            Some(d) => Step::Done(finish(run, rows, Some(d))),
            None => Step::FetchOwnerAvatar(OwnerAvatarFetch { run, rows }, o),
        },
        None => Step::Done(finish(run, rows, None)),
    }
}

/// Go on from the built rows: embed their avatars when configured.
fn rows_step(run: Run, rows: Vec<Contributor>, caches: &Caches) -> (r: Step)
    requires
        run_ok(run),
    ensures
        rows_next(ctx_of(run), rows@, *caches, r),
{
    if run.cfg.embed_avatars && run.cfg.use_github {
        let urls = avatar_urls(rows.as_slice());
        let (cached, missing) = cached_avatars(caches, urls.as_slice(), run.cfg.avatar_size);
        proof {
            let uv = views(urls@);
            lemma_remote_not_data(rows@);
            lemma_cached_from(*caches, uv, run.cfg.avatar_size);
            assert forall|k: int| 0 <= k < cached@.len() implies !starts_with((#[trigger] cached@[k]).0@, "data:"@) by {
                assert(embedded_views(cached@)[k].0 == cached@[k].0@);
                let j = choose|j: int| 0 <= j < uv.len() && uv[j] == cached@[k].0@;
            }
            assert forall|k: int| 0 <= k < missing@.len() implies !starts_with((#[trigger] missing@[k])@, "data:"@) by {
                assert(views(missing@)[k] == missing@[k]@);
                let j = choose|j: int| 0 <= j < uv.len() && uv[j] == missing@[k]@;
            }
        }
        let asked = missing.clone();
        proof {
            assert(views(asked@) =~= views(missing@)) by {
                assert forall|k: int| 0 <= k < asked@.len() implies asked@[k] == missing@[k] by {
                    assert(cloned::<String>(missing[k], asked[k]));
                }
            }
        }
        Step::FetchAvatars(AvatarFetches { run, rows, cached, asked }, missing)
    } else {
        owner_step(run, rows, caches)
    }
}

/// The manual group mappings as undated rules.
fn group_rules(groups: &Vec<(String, String)>) -> (r: Vec<GroupRule>)
    ensures
        r@ == rules_of(groups@),
{
    let mut out: Vec<GroupRule> = Vec::new();
    let mut k: usize = 0;
    while k < groups.len()
        invariant
            k <= groups@.len(),
            out@ == rules_of(groups@.take(k as int)),
        decreases groups@.len() - k,
    {
        let ghost o0 = out@;
        out.push(GroupRule { matcher: groups[k].0.clone(), group: groups[k].1.clone(), since: None, until: None });
        assert(rules_of(groups@.take(k + 1)) =~= o0.push(
            GroupRule { matcher: groups@[k as int].0, group: groups@[k as int].1, since: None, until: None },
        ));
        k += 1;
    }
    assert(groups@.take(k as int) =~= groups@);
    out
}

/// Whether every cluster is credited with at most `u32::MAX` commits.
fn credits_fit_exec(cs: &Vec<Cluster>, co: bool) -> (r: bool)
    ensures
        r == credits_fit(cs@, co),
{
    let mut i: usize = 0;
    while i < cs.len()
        invariant
            i <= cs@.len(),
            forall|j: int| 0 <= j < i ==> (#[trigger] credited(cs@[j], co)).len() <= u32::MAX,
        decreases cs@.len() - i,
    {
        let a = cs[i].commit_idxs.len() as u64;
        let b = if co { cs[i].coauthored_idxs.len() as u64 } else { 0 };
        assert(credited(cs@[i as int], co).len() == a + b);
        if a > 4294967295 || b > 4294967295 - a {
            return false;
        }
        i += 1;
    }
    true
}

/// Go on from the final clusters: apply the identity overrides, build the
/// rows, then embed or finish.
fn assemble(run: Run, caches: &Caches) -> (r: Step)
    requires
        run_ok(run),
    ensures
        assembles(ctx_of(run), run.clusters@, *caches, r),
{
    let ghost run0 = run;
    let Run { cfg, prepared, slugs, commits, clusters, generated } = run;
    let ghost cs0 = clusters@;
    let n = commits.len();
    let clusters = if cfg.identities.len() > 0 {
        let out = apply_identity_file(clusters, cfg.identities.as_slice());
        proof {
            let steps = choose|steps: Seq<Seq<Option<Cluster>>>|
                identity_trace(cs0, cfg.identities@, steps) && out@ == live(steps.last());
            law_overrides_within(cs0, cfg.identities@, steps, n as int);
            assert(overrides_applied(cs0, cfg.identities@, out@));
        }
        out
    } else {
        assert(overrides_applied(cs0, cfg.identities@, clusters@));
        clusters
    };
    let ghost o = clusters@;
    assert(all_within(o, n as int));
    if !credits_fit_exec(&clusters, cfg.co_authors) {
        return Step::Failed(AnalyzeError::TooLarge);
    }
    let rules = group_rules(&cfg.groups);
    let no_names: Vec<(String, String)> = Vec::new();
    assert forall|i: int| 0 <= i < o.len() implies crate::identity::contributors::credits_ok(#[trigger] o[i], commits@, cfg.co_authors) by {
        assert(cluster_within(o[i], n as int));
        let cr = credited(o[i], cfg.co_authors);
        assert forall|q: int| 0 <= q < cr.len() implies (#[trigger] cr[q]) < commits@.len() by {
            let ci = o[i].commit_idxs@;
            if q < ci.len() {
                assert(cr[q] == ci[q]);
            } else {
                assert(cr[q] == o[i].coauthored_idxs@[q - ci.len()]);
            }
        }
    }
    let mut rows = build_contributors(clusters.as_slice(), commits.as_slice(), rules.as_slice(), no_names.as_slice(), cfg.co_authors);
    let ghost built = rows@;
    assert(no_names@ == Seq::<(String, String)>::empty());
    assert(built_from(o, commits@, rules_of(cfg.groups@), cfg.co_authors, built));
    canonicalize_groups(rows.as_mut_slice());
    let ghost canon = rows@;
    assert(canon_of(built, canon));
    let rows = exclude_contributors(rows, &cfg.exclude);
    assert(rows_from(cfg, o, commits@, rows@));
    let run = Run { cfg, prepared, slugs, commits, clusters, generated };
    assert(ctx_of(run0) == ctx_of(run));
    assert(run_ok(run));
    rows_step(run, rows, caches)
}

// ---------------------------------------------------------------------------
// Starting a run
// ---------------------------------------------------------------------------
/// The view of a list of string pairs.
pub open spec fn pair_views(v: Seq<(String, String)>) -> Seq<(Seq<char>, Seq<char>)> {
    v.map_values(|t: (String, String)| (t.0@, t.1@))
}

/// The `(slug, SHA)` of each pending lookup.
pub open spec fn asks_of(p: Seq<(int, Seq<char>, Seq<char>)>) -> Seq<(Seq<char>, Seq<char>)> {
    p.map_values(|t: (int, Seq<char>, Seq<char>)| (t.1, t.2))
}

/// The context of a run with the given configuration, sources, pooled
/// commits and date.
pub open spec fn start_ctx(cfg: Config, prepared: Seq<PreparedRepo>, commits: Seq<Commit>, generated: Seq<char>) -> Ctx {
    Ctx { cfg, prepared, slugs: slugs_of(prepared), commits, generated }
}

/// How a run starts from the clusters `cs` of its pooled commits: with the
/// GitHub lookups that noreply addresses and the cache `c` leave, when
/// GitHub is used and some source is on it; else straight to the rows.
pub open spec fn starts(
    cfg: Config,
    prepared: Seq<PreparedRepo>,
    commits: Seq<Commit>,
    generated: Seq<char>,
    cs: Seq<Cluster>,
    c: Caches,
    r: Step,
) -> bool {
    let slugs = slugs_of(prepared);
    if cfg.use_github && any_slug(slugs) {
        match r {
            Step::LookupAuthors(st, asks) => {
                &&& ctx_of(st.state()) == start_ctx(cfg, prepared, commits, generated)
                &&& st.state().clusters@.len() == cs.len()
                &&& forall|i: int|
                    0 <= i < cs.len() ==> enriched(#[trigger] cs[i], st.state().clusters@[i], commits, slugs, c)
                &&& lookups_view(st.asked()) == pending(cs, commits, slugs, c)
                &&& pair_views(asks@) == asks_of(pending(cs, commits, slugs, c))
            },
            _ => false,
        }
    } else {
        assembles(start_ctx(cfg, prepared, commits, generated), cs, c, r)
    }
}

proof fn lemma_clustering_within(commits: Seq<Commit>, mn: bool, cs: Seq<Cluster>, cls: Seq<int>)
    requires
        clustering(commits, mn, cs, cls),
    ensures
        all_within(cs, commits.len() as int),
{
    assert forall|i: int| 0 <= i < cs.len() implies cluster_within(#[trigger] cs[i], commits.len() as int) by {
        assert(cluster_content(commits, cls, i, cs[i], idents(commits).len() as int));
        assert forall|k: int| 0 <= k < cs[i].commit_idxs@.len() implies (#[trigger] cs[i].commit_idxs@[k] as int)
            < commits.len() by {
            assert(cs[i].commit_idxs@.contains(cs[i].commit_idxs@[k]));
        }
        assert forall|k: int| 0 <= k < cs[i].coauthored_idxs@.len() implies (#[trigger] cs[i].coauthored_idxs@[k] as int)
            < commits.len() by {
            assert(cs[i].coauthored_idxs@.contains(cs[i].coauthored_idxs@[k]));
        }
    }
}

proof fn lemma_pending_bounds(cs: Seq<Cluster>, commits: Seq<Commit>, slugs: Seq<Option<String>>, c: Caches)
    ensures
        forall|k: int|
            0 <= k < pending(cs, commits, slugs, c).len() ==> 0 <= (#[trigger] pending(cs, commits, slugs, c)[k]).0
                < cs.len(),
    decreases cs.len(),
{
    if cs.len() > 0 {
        lemma_pending_bounds(cs.drop_last(), commits, slugs, c);
        let p = pending(cs.drop_last(), commits, slugs, c);
        let q = pending(cs, commits, slugs, c);
        assert forall|k: int| 0 <= k < q.len() implies 0 <= (#[trigger] q[k]).0 < cs.len() by {
            if k < p.len() {
                assert(q[k] == p[k]);
            }
        }
    }
}

/// Whether the pooled sources fit a `u64` count.
fn tagged_fits(sources: &Vec<Vec<Commit>>) -> (r: bool)
    ensures
        r == (tagged(sources@).len() <= u64::MAX),
{
    let mut total: u64 = 0;
    let mut k: usize = 0;
    while k < sources.len()
        invariant
            k <= sources@.len(),
            total == tagged(sources@.take(k as int)).len(),
        decreases sources@.len() - k,
    {
        let ghost t = sources@.take(k + 1);
        assert(t.drop_last() =~= sources@.take(k as int));
        assert(t.last() == sources@[k as int]);
        assert(tagged(t).len() == total + sources@[k as int]@.len());
        let m = sources[k].len() as u64;
        if total > u64::MAX - m {
            proof {
                crate::lemma_tagged_prefix(sources@, k + 1);
            }
            return false;
        }
        total = total + m;
        k += 1;
    }
    assert(sources@.take(k as int) =~= sources@);
    true
}

/// Whether the identities of the commits can be counted in a `usize`.
fn idents_fit(commits: &Vec<Commit>) -> (r: bool)
    ensures
        r == (idents(commits@).len() < usize::MAX),
{
    let mut total: usize = 0;
    let mut k: usize = 0;
    while k < commits.len()
        invariant
            k <= commits@.len(),
            total == idents(commits@.take(k as int)).len(),
            total < usize::MAX,
        decreases commits@.len() - k,
    {
        let ghost t = commits@.take(k + 1);
        assert(t.drop_last() =~= commits@.take(k as int));
        assert(t.last() == commits@[k as int]);
        assert(commit_idents(commits@[k as int]).len() == 1 + commits@[k as int].coauthors@.len());
        let m = commits[k].coauthors.len();
        if total >= usize::MAX - 1 || m >= usize::MAX - 1 - total {
            proof {
                lemma_idents_prefix(commits@, k + 1);
            }
            return false;
        }
        total = total + 1 + m;
        k += 1;
    }
    assert(commits@.take(k as int) =~= commits@);
    true
}

/// The slug of each source.
fn slugs_exec(prepared: &Vec<PreparedRepo>) -> (r: Vec<Option<String>>)
    ensures
        r@ == slugs_of(prepared@),
{
    let mut out: Vec<Option<String>> = Vec::new();
    let mut k: usize = 0;
    while k < prepared.len()
        invariant
            k <= prepared@.len(),
            out@ == slugs_of(prepared@.take(k as int)),
        decreases prepared@.len() - k,
    {
        let ghost o0 = out@;
        out.push(clone_opt(&prepared[k].slug));
        assert(slugs_of(prepared@.take(k + 1)) =~= o0.push(prepared@[k as int].slug));
        k += 1;
    }
    assert(prepared@.take(k as int) =~= prepared@);
    out
}

/// Whether some source is on GitHub.
fn any_slug_exec(slugs: &Vec<Option<String>>) -> (r: bool)
    ensures
        r == any_slug(slugs@),
{
    let mut k: usize = 0;
    while k < slugs.len()
        invariant
            k <= slugs@.len(),
            forall|j: int| 0 <= j < k ==> (#[trigger] slugs@[j]) is None,
        decreases slugs@.len() - k,
    {
        if slugs[k].is_some() {
            return true;
        }
        k += 1;
    }
    false
}

/// The `(slug, SHA)` of each lookup.
fn asks_exec(need: &Vec<(usize, String, String)>) -> (r: Vec<(String, String)>)
    ensures
        pair_views(r@) == asks_of(lookups_view(need@)),
{
    let mut out: Vec<(String, String)> = Vec::new();
    let mut k: usize = 0;
    while k < need.len()
        invariant
            k <= need@.len(),
            pair_views(out@) == asks_of(lookups_view(need@.take(k as int))),
        decreases need@.len() - k,
    {
        let ghost o0 = out@;
        out.push((need[k].1.clone(), need[k].2.clone()));
        assert(lookups_view(need@.take(k + 1)) =~= lookups_view(need@.take(k as int)).push(
            (need@[k as int].0 as int, need@[k as int].1@, need@[k as int].2@),
        ));
        assert(pair_views(out@) =~= pair_views(o0).push((need@[k as int].1@, need@[k as int].2@)));
        assert(asks_of(lookups_view(need@.take(k + 1))) =~= asks_of(lookups_view(need@.take(k as int))).push(
            (need@[k as int].1@, need@[k as int].2@),
        ));
        k += 1;
    }
    assert(need@.take(k as int) =~= need@);
    out
}

/// The sources of `os` kept for a run, in order: those that were read
/// and, when there are several sources (`many`), have at least one commit.
pub open spec fn kept_sources<E>(many: bool, os: Seq<Result<(PreparedRepo, Vec<Commit>), E>>) -> Seq<
    (PreparedRepo, Vec<Commit>),
>
    decreases os.len(),
{
    if os.len() == 0 {
        Seq::empty()
    } else {
        let rest = kept_sources(many, os.drop_first());
        match os[0] {
            Ok(pc) => if !many || pc.1@.len() > 0 {
                seq![pc] + rest
            } else {
                rest
            },
            Err(_) => rest,
        }
    }
}

/// The sources of `os` that are skipped, numbered from `first`: each with
/// the error it failed with, or none when it had no commits.
pub open spec fn skipped_sources<E>(many: bool, os: Seq<Result<(PreparedRepo, Vec<Commit>), E>>, first: int) -> Seq<
    (int, Option<E>),
>
    decreases os.len(),
{
    if os.len() == 0 {
        Seq::empty()
    } else {
        let rest = skipped_sources(many, os.drop_first(), first + 1);
        match os[0] {
            Ok(pc) => if !many || pc.1@.len() > 0 {
                rest
            } else {
                seq![(first, None)] + rest
            },
            Err(e) => seq![(first, Some(e))] + rest,
        }
    }
}

/// A list of skipped sources with its indices as integers.
pub open spec fn skipped_view<E>(v: Seq<(usize, Option<E>)>) -> Seq<(int, Option<E>)> {
    v.map_values(|x: (usize, Option<E>)| (x.0 as int, x.1))
}

/// Of a run's sources as read, those with commits are kept and, when there
/// are several, the others skipped: kept sources and their commits, in
/// order, and the skipped ones by index, with their error.
fn sift_sources<E>(outcomes: Vec<Result<(PreparedRepo, Vec<Commit>), E>>) -> (r: Result<
    (Vec<PreparedRepo>, Vec<Vec<Commit>>, Vec<(usize, Option<E>)>),
    E,
>)
    ensures
        outcomes@.len() == 1 && outcomes@[0] is Err ==> r == Err::<(Vec<PreparedRepo>, Vec<Vec<Commit>>, Vec<(usize, Option<E>)>), E>(
            outcomes@[0]->Err_0,
        ),
        !(outcomes@.len() == 1 && outcomes@[0] is Err) ==> (r matches Ok(t) && {
            let kept = kept_sources(outcomes@.len() > 1, outcomes@);
            &&& t.0@ == kept.map_values(|pc: (PreparedRepo, Vec<Commit>)| pc.0)
            &&& t.1@ == kept.map_values(|pc: (PreparedRepo, Vec<Commit>)| pc.1)
            &&& skipped_view(t.2@) == skipped_sources(outcomes@.len() > 1, outcomes@, 0)
        }),
{
    let ghost os = outcomes@;
    let many = outcomes.len() > 1;
    let mut rest = outcomes;
    let mut ps: Vec<PreparedRepo> = Vec::new();
    let mut ss: Vec<Vec<Commit>> = Vec::new();
    let mut sk: Vec<(usize, Option<E>)> = Vec::new();
    assert(os.skip(os.len() as int) =~= Seq::<Result<(PreparedRepo, Vec<Commit>), E>>::empty());
    assert(rest@ =~= os.take(os.len() as int));
    while rest.len() > 0
        invariant
            rest@.len() <= os.len(),
            rest@ == os.take(rest@.len() as int),
            os == outcomes@,
            many == (os.len() > 1),
            !many ==> forall|j: int| rest@.len() <= j < os.len() ==> (#[trigger] os[j]) is Ok,
            ps@ == kept_sources(many, os.skip(rest@.len() as int)).map_values(|pc: (PreparedRepo, Vec<Commit>)| pc.0),
            ss@ == kept_sources(many, os.skip(rest@.len() as int)).map_values(|pc: (PreparedRepo, Vec<Commit>)| pc.1),
            skipped_view(sk@) == skipped_sources(many, os.skip(rest@.len() as int), rest@.len() as int),
        decreases rest@.len(),
    {
        let k = rest.len() - 1;
        let ghost tail = os.skip(k + 1);
        let ghost here = os.skip(k as int);
        let ghost kept0 = kept_sources(many, tail);
        let ghost sk0 = sk@;
        let o = rest.pop().unwrap();
        proof {
            assert(o == os[k as int]);
            assert(here.drop_first() =~= tail);
            assert(here[0] == o);
            assert(rest@ =~= os.take(k as int));
        }
        match o {
            Ok((p, c)) => {
                if !many || c.len() > 0 {
                    ps.insert(0, p);
                    ss.insert(0, c);
                    proof {
                        assert(kept_sources(many, here) == seq![(p, c)] + kept0);
                        assert(ps@ =~= kept_sources(many, here).map_values(|pc: (PreparedRepo, Vec<Commit>)| pc.0));
                        assert(ss@ =~= kept_sources(many, here).map_values(|pc: (PreparedRepo, Vec<Commit>)| pc.1));
                    }
                } else {
                    sk.insert(0, (k, None));
                    proof {
                        assert(skipped_view(sk@) =~= seq![(k as int, None::<E>)] + skipped_view(sk0));
                    }
                }
            },
            Err(e) => {
                if !many {
                    return Err(e);
                }
                sk.insert(0, (k, Some(e)));
                proof {
                    assert(skipped_view(sk@) =~= seq![(k as int, Some(e))] + skipped_view(sk0));
                }
            },
        }
    }
    assert(os.skip(0) =~= os);
    Ok((ps, ss, sk))
}

/// Some source was read and has commits.
pub open spec fn has_commits<E>(os: Seq<Result<(PreparedRepo, Vec<Commit>), E>>) -> bool {
    exists|k: int| 0 <= k < os.len() && (#[trigger] os[k] matches Ok(pc) && pc.1@.len() > 0)
}

/// Some source could not be read.
pub open spec fn has_error<E>(os: Seq<Result<(PreparedRepo, Vec<Commit>), E>>) -> bool {
    exists|k: int| 0 <= k < os.len() && (#[trigger] os[k]) is Err
}

/// The error of the first source that could not be read.
pub open spec fn first_error<E>(os: Seq<Result<(PreparedRepo, Vec<Commit>), E>>) -> E
    decreases os.len(),
{
    if os.len() == 0 {
        arbitrary()
    } else {
        match os[0] {
            Err(e) => e,
            Ok(_) => first_error(os.drop_first()),
        }
    }
}

/// Whether some source was read and has commits.
fn has_commits_exec<E>(os: &Vec<Result<(PreparedRepo, Vec<Commit>), E>>) -> (r: bool)
    ensures
        r == has_commits(os@),
{
    let mut k: usize = 0;
    while k < os.len()
        invariant
            k <= os@.len(),
            forall|j: int| 0 <= j < k ==> !(#[trigger] os@[j] matches Ok(pc) && pc.1@.len() > 0),
        decreases os@.len() - k,
    {
        match &os[k] {
            Ok(pc) => {
                if pc.1.len() > 0 {
                    return true;
                }
            },
            Err(_) => {},
        }
        k += 1;
    }
    false
}

/// Whether some source could not be read.
fn has_error_exec<E>(os: &Vec<Result<(PreparedRepo, Vec<Commit>), E>>) -> (r: bool)
    ensures
        r == has_error(os@),
{
    let mut k: usize = 0;
    while k < os.len()
        invariant
            k <= os@.len(),
            forall|j: int| 0 <= j < k ==> (#[trigger] os@[j]) is Ok,
        decreases os@.len() - k,
    {
        if os[k].is_err() {
            return true;
        }
        k += 1;
    }
    false
}

/// The error of the first source that could not be read.
fn take_first_error<E>(outcomes: Vec<Result<(PreparedRepo, Vec<Commit>), E>>) -> (e: E)
    requires
        has_error(outcomes@),
    ensures
        e == first_error(outcomes@),
{
    let ghost os = outcomes@;
    let mut rest = outcomes;
    let mut found: Option<E> = None;
    assert(rest@ =~= os.take(os.len() as int));
    while rest.len() > 0
        invariant
            rest@.len() <= os.len(),
            rest@ == os.take(rest@.len() as int),
            os == outcomes@,
            has_error(os),
            has_error(os.skip(rest@.len() as int)) ==> found == Some(first_error(os.skip(rest@.len() as int))),
            !has_error(os.skip(rest@.len() as int)) ==> found is None,
        decreases rest@.len(),
    {
        let k = rest.len() - 1;
        let ghost here = os.skip(k as int);
        let ghost tail = os.skip(k + 1);
        let o = rest.pop().unwrap();
        proof {
            assert(o == os[k as int]);
            assert(here.drop_first() =~= tail);
            assert(here[0] == o);
            assert(rest@ =~= os.take(k as int));
            if has_error(tail) {
                let j = choose|j: int| 0 <= j < tail.len() && (#[trigger] tail[j]) is Err;
                assert(here[j + 1] == tail[j]);
            }
            if has_error(here) && o is Ok {
                let j = choose|j: int| 0 <= j < here.len() && (#[trigger] here[j]) is Err;
                assert(j > 0);
                assert(tail[j - 1] == here[j]);
            }
        }
        match o {
            Err(e) => {
                found = Some(e);
            },
            Ok(_) => {},
        }
    }
    proof {
        assert(os.skip(0) =~= os);
    }
    found.unwrap()
}

/// Every source, as read; none failed.
fn all_read<E>(outcomes: Vec<Result<(PreparedRepo, Vec<Commit>), E>>) -> (r: (Vec<PreparedRepo>, Vec<Vec<Commit>>))
    requires
        !has_error(outcomes@),
    ensures
        r.0@.len() == outcomes@.len(),
        r.1@.len() == outcomes@.len(),
        forall|k: int| 0 <= k < outcomes@.len() ==> (#[trigger] outcomes@[k]) == Ok::<(PreparedRepo, Vec<Commit>), E>((r.0@[k], r.1@[k])),
{
    let ghost os = outcomes@;
    let mut rest = outcomes;
    let mut ps: Vec<PreparedRepo> = Vec::new();
    let mut ss: Vec<Vec<Commit>> = Vec::new();
    assert(rest@ =~= os.take(os.len() as int));
    while rest.len() > 0
        invariant
            rest@.len() <= os.len(),
            rest@ == os.take(rest@.len() as int),
            !has_error(os),
            os == outcomes@,
            ps@.len() == os.len() - rest@.len(),
            ss@.len() == ps@.len(),
            forall|j: int|
                0 <= j < ps@.len() ==> (#[trigger] os[rest@.len() + j]) == Ok::<(PreparedRepo, Vec<Commit>), E>((ps@[j], ss@[j])),
        decreases rest@.len(),
    {
        let k = rest.len() - 1;
        let ghost p0 = ps@;
        let ghost s0 = ss@;
        let o = rest.pop().unwrap();
        proof {
            assert(o == os[k as int]);
            assert(rest@ =~= os.take(k as int));
            if o is Err {
                assert(has_error(os));
            }
        }
        match o {
            Ok((p, c)) => {
                ps.insert(0, p);
                ss.insert(0, c);
                proof {
                    assert forall|j: int| 0 <= j < ps@.len() implies (#[trigger] os[k + j]) == Ok::<(PreparedRepo, Vec<Commit>), E>((ps@[j], ss@[j])) by {
                        if j > 0 {
                            assert(ps@[j] == p0[j - 1]);
                            assert(ss@[j] == s0[j - 1]);
                            assert(os[(k + 1) + (j - 1)] == Ok::<(PreparedRepo, Vec<Commit>), E>((p0[j - 1], s0[j - 1])));
                        }
                    }
                }
            },
            Err(_) => {},
        }
    }
    assert forall|k: int| 0 <= k < os.len() implies (#[trigger] os[k]) == Ok::<(PreparedRepo, Vec<Commit>), E>((ps@[k], ss@[k])) by {
        assert(os[0 + k] == os[k]);
    }
    (ps, ss)
}

/// Choose the sources of a run from what reading each gave. When some
/// source has commits, those with commits are kept, and of several sources
/// the others (failed or empty) are skipped; the one source of a
/// single-source run is kept as read. When none has commits, the run
/// fails with the error of the first source that could not be read, or,
/// when all were read, keeps them all (so that the run reports that it
/// found no commits). Returns the kept sources and their commits, in order,
/// and the skipped ones by index, with their error.
pub fn select_sources<E>(outcomes: Vec<Result<(PreparedRepo, Vec<Commit>), E>>) -> (r: Result<
    (Vec<PreparedRepo>, Vec<Vec<Commit>>, Vec<(usize, Option<E>)>),
    E,
>)
    ensures
        !has_commits(outcomes@) && has_error(outcomes@) ==> r == Err::<
            (Vec<PreparedRepo>, Vec<Vec<Commit>>, Vec<(usize, Option<E>)>),
            E,
        >(first_error(outcomes@)),
        !has_commits(outcomes@) && !has_error(outcomes@) ==> (r matches Ok(t) && {
            &&& t.0@.len() == outcomes@.len()
            &&& t.1@.len() == outcomes@.len()
            &&& forall|k: int| 0 <= k < outcomes@.len() ==> (#[trigger] outcomes@[k]) == Ok::<(PreparedRepo, Vec<Commit>), E>((t.0@[k], t.1@[k]))
            &&& t.2@.len() == 0
        }),
        has_commits(outcomes@) ==> (r matches Ok(t) && {
            let kept = kept_sources(outcomes@.len() > 1, outcomes@);
            &&& t.0@ == kept.map_values(|pc: (PreparedRepo, Vec<Commit>)| pc.0)
            &&& t.1@ == kept.map_values(|pc: (PreparedRepo, Vec<Commit>)| pc.1)
            &&& skipped_view(t.2@) == skipped_sources(outcomes@.len() > 1, outcomes@, 0)
        }),
{
    if has_commits_exec(&outcomes) {
        proof {
            if outcomes@.len() == 1 && outcomes@[0] is Err {
                let k = choose|k: int| 0 <= k < outcomes@.len() && (#[trigger] outcomes@[k] matches Ok(pc) && pc.1@.len() > 0);
            }
        }
        sift_sources(outcomes)
    } else if has_error_exec(&outcomes) {
        Err(take_first_error(outcomes))
    } else {
        let (ps, ss) = all_read(outcomes);
        Ok((ps, ss, Vec::new()))
    }
}

/// Start a run from its sources (`prepared`) and the commits read from
/// each (`sources`, in the same order), with the date of the run. The
/// commits are pooled, dropping those whose SHA an earlier one has
/// (overlapping histories), and their author identities are clustered
/// across the whole pool; noreply addresses and the `caches` resolve what
/// they can before any lookup.
pub fn analyze(
    prepared: Vec<PreparedRepo>,
    sources: Vec<Vec<Commit>>,
    cfg: Config,
    generated: String,
    caches: &Caches,
) -> (r: Step)
    ensures
        prepared@.len() == 0 ==> r == Step::Failed(AnalyzeError::NoSources),
        prepared@.len() > 0 && tagged(sources@).len() > u64::MAX ==> r == Step::Failed(AnalyzeError::TooLarge),
        prepared@.len() > 0 && tagged(sources@).len() <= u64::MAX ==> {
            let pooled = first_by_sha(tagged(sources@));
            if pooled.len() == 0 {
                r == Step::Failed(AnalyzeError::NoCommits)
            } else if idents(pooled).len() >= usize::MAX {
                r == Step::Failed(AnalyzeError::TooLarge)
            } else {
                exists|cs: Seq<Cluster>, cls: Seq<int>|
                    #[trigger] clustering(pooled, cfg.merge_names, cs, cls) && starts(
                        cfg,
                        prepared@,
                        pooled,
                        generated@,
                        cs,
                        *caches,
                        r,
                    )
            }
        },
{
    if prepared.len() == 0 {
        return Step::Failed(AnalyzeError::NoSources);
    }
    if !tagged_fits(&sources) {
        return Step::Failed(AnalyzeError::TooLarge);
    }
    let ghost pooled = first_by_sha(tagged(sources@));
    let (commits, _dropped) = pool_commits(sources);
    if commits.len() == 0 {
        return Step::Failed(AnalyzeError::NoCommits);
    }
    if !idents_fit(&commits) {
        return Step::Failed(AnalyzeError::TooLarge);
    }
    let mut clusters = cluster_commits(commits.as_slice(), cfg.merge_names);
    let ghost cs = clusters@;
    let ghost cls = choose|cls: Seq<int>| clustering(commits@, cfg.merge_names, cs, cls);
    proof {
        lemma_clustering_within(commits@, cfg.merge_names, cs, cls);
    }
    let slugs = slugs_exec(&prepared);
    if cfg.use_github && any_slug_exec(&slugs) {
        let (need, _hits) = enrich_clusters(clusters.as_mut_slice(), commits.as_slice(), slugs.as_slice(), caches);
        let asks = asks_exec(&need);
        proof {
            lemma_pending_bounds(cs, commits@, slugs@, *caches);
            assert forall|k: int| 0 <= k < need@.len() implies ((#[trigger] need@[k]).0 as int) < clusters@.len() by {
                assert(lookups_view(need@)[k] == pending(cs, commits@, slugs@, *caches)[k]);
            }
            assert forall|i: int| 0 <= i < clusters@.len() implies cluster_within(#[trigger] clusters@[i], commits@.len() as int) by {
                assert(enriched(cs[i], clusters@[i], commits@, slugs@, *caches));
                assert(cluster_within(cs[i], commits@.len() as int));
            }
        }
        let run = Run { cfg, prepared, slugs, commits, clusters, generated };
        Step::LookupAuthors(AuthorLookups { run, need }, asks)
    } else {
        let run = Run { cfg, prepared, slugs, commits, clusters, generated };
        assert(ctx_of(run) == start_ctx(run.cfg, run.prepared@, pooled, run.generated@));
        assemble(run, caches)
    }
}

// ---------------------------------------------------------------------------
// Resuming a run
// ---------------------------------------------------------------------------
/// The answers that came back, as `(cluster index, login, avatar URL)`:
/// answer `k`, when there is one, is for lookup `k` of `need`.
pub open spec fn answered(need: Seq<(usize, String, String)>, answers: Seq<Option<(String, String)>>) -> Seq<
    (usize, String, String),
>
    decreases answers.len(),
{
    if answers.len() == 0 {
        Seq::empty()
    } else {
        let p = answered(need, answers.drop_last());
        let k = answers.len() - 1;
        match answers.last() {
            Some(a) => if k < need.len() {
                p.push((need[k].0, a.0, a.1))
            } else {
                p
            },
            None => p,
        }
    }
}

/// `n` is the clusters `o` after recording the answers `found`.
pub open spec fn lookups_applied(o: Seq<Cluster>, found: Seq<(usize, String, String)>, n: Seq<Cluster>) -> bool {
    &&& n.len() == o.len()
    &&& forall|i: int|
        0 <= i < o.len() ==> {
            &&& same_but_identity(#[trigger] o[i], n[i])
            &&& match found_for(found, i) {
                Some(x) => n[i].login == Some(x.0) && n[i].avatar_url == Some(x.1),
                None => n[i].login == o[i].login && n[i].avatar_url == o[i].avatar_url,
            }
        }
}

/// What follows the author lookups, with the clusters `cs`: the profiles
/// of their logins, sorted and once each, from the cache `c` or the network.
pub open spec fn profiles_next(x: Ctx, cs: Seq<Cluster>, c: Caches, r: Step) -> bool {
    match r {
        Step::FetchProfiles(st, missing) => {
            &&& ctx_of(st.state()) == x
            &&& st.state().clusters@ == cs
            &&& exists|logins: Seq<Seq<char>>|
                #[trigger] strictly_sorted(logins) && (forall|y: Seq<char>| #[trigger] logins.contains(y) <==> has_login(cs, y))
                    && profile_views(st.from_cache()) == cached_profiles_of(c, logins) && views(missing@)
                    == uncached_logins(c, logins)
        },
        _ => false,
    }
}

/// `n` is the clusters `o` with the profiles `cached` and `fetched` applied.
pub open spec fn profiles_applied(
    o: Seq<Cluster>,
    cached: Seq<(String, Option<String>, Option<String>)>,
    fetched: Seq<(String, Option<String>, Option<String>)>,
    n: Seq<Cluster>,
) -> bool {
    &&& n.len() == o.len()
    &&& forall|i: int|
        0 <= i < o.len() ==> {
            &&& same_but_profile(#[trigger] o[i], n[i])
            &&& match profile_of(o[i], cached, fetched) {
                Some(p) => n[i].profile_name == p.0 && n[i].affiliation == p.1,
                None => n[i].profile_name == o[i].profile_name && n[i].affiliation == o[i].affiliation,
            }
        }
}

/// The clusters with no affiliation.
pub open spec fn without_affiliations(cs: Seq<Cluster>) -> Seq<Cluster> {
    cs.map_values(|c: Cluster| Cluster { affiliation: None, ..c })
}

/// The rows with their avatars embedded.
pub open spec fn embedded_rows(rows: Seq<Contributor>, cached: Seq<(String, String)>, fetched: Seq<(String, String)>) -> Seq<
    Contributor,
> {
    rows.map_values(|c: Contributor| Contributor { avatar: embedded_avatar(c, cached, fetched), ..c })
}

proof fn lemma_answered_bounded(need: Seq<(usize, String, String)>, answers: Seq<Option<(String, String)>>, n: int)
    requires
        forall|k: int| 0 <= k < need.len() ==> ((#[trigger] need[k]).0 as int) < n,
    ensures
        forall|j: int| 0 <= j < answered(need, answers).len() ==> ((#[trigger] answered(need, answers)[j]).0 as int) < n,
    decreases answers.len(),
{
    if answers.len() > 0 {
        lemma_answered_bounded(need, answers.drop_last(), n);
        let p = answered(need, answers.drop_last());
        let q = answered(need, answers);
        assert forall|j: int| 0 <= j < q.len() implies ((#[trigger] q[j]).0 as int) < n by {
            if j < p.len() {
                assert(q[j] == p[j]);
            } else {
                assert(need[answers.len() - 1].0 < n);
            }
        }
    }
}

fn answered_exec(need: &Vec<(usize, String, String)>, answers: &[Option<(String, String)>]) -> (r: Vec<(usize, String, String)>)
    ensures
        r@ == answered(need@, answers@),
{
    let mut out: Vec<(usize, String, String)> = Vec::new();
    let mut k: usize = 0;
    while k < answers.len()
        invariant
            k <= answers@.len(),
            out@ == answered(need@, answers@.take(k as int)),
        decreases answers@.len() - k,
    {
        assert(answers@.take(k + 1).drop_last() =~= answers@.take(k as int));
        assert(answers@.take(k + 1).last() == answers@[k as int]);
        match &answers[k] {
            Some(a) => {
                if k < need.len() {
                    out.push((need[k].0, a.0.clone(), a.1.clone()));
                }
            },
            None => {},
        }
        k += 1;
    }
    assert(answers@.take(k as int) =~= answers@);
    out
}

impl AuthorLookups {
    /// Resume with the answers to the lookups, one per lookup and in order
    /// (`None` where a commit has no GitHub author): each answer is cached
    /// against its commit and set on its cluster, clusters that share a
    /// login are merged, and the run asks for the profiles of the logins.
    pub fn resume(self, caches: &mut Caches, answers: &[Option<(String, String)>]) -> (r: Step)
        ensures
            final(caches).author_map() == authors_after(
                old(caches).author_map(),
                self.asked(),
                answered(self.asked(), answers@),
            ),
            any_recorded(self.asked(), answered(self.asked(), answers@)) ==> same_except(
                *old(caches),
                *final(caches),
                CacheFile::Authors,
            ),
            !any_recorded(self.asked(), answered(self.asked(), answers@)) ==> *final(caches) == *old(caches),
            exists|c1: Seq<Cluster>, steps: Seq<Seq<Cluster>>|
                #![trigger lookups_applied(self.state().clusters@, answered(self.asked(), answers@), c1), login_merge_trace(c1, steps)]
                lookups_applied(self.state().clusters@, answered(self.asked(), answers@), c1) && login_merge_trace(c1, steps)
                    && profiles_next(ctx_of(self.state()), steps.last(), *final(caches), r),
    {
        proof {
            use_type_invariant(&self);
        }
        let ghost x = ctx_of(self.run);
        let ghost c0 = self.run.clusters@;
        let ghost asked = self.need@;
        let ghost me = self;
        assert(me.state().clusters@ == c0 && me.asked() == asked && ctx_of(me.state()) == x);
        let AuthorLookups { run, need } = self;
        let Run { cfg, prepared, slugs, commits, mut clusters, generated } = run;
        let found = answered_exec(&need, answers);
        proof {
            lemma_answered_bounded(need@, answers@, c0.len() as int);
        }
        apply_lookups(clusters.as_mut_slice(), caches, need.as_slice(), found.as_slice());
        let ghost c1 = clusters@;
        assert(lookups_applied(c0, found@, c1));
        assert forall|i: int| 0 <= i < c1.len() implies cluster_within(#[trigger] c1[i], commits@.len() as int) by {
            assert(same_but_identity(c0[i], c1[i]));
            assert(cluster_within(c0[i], commits@.len() as int));
        }
        let merged = merge_by_login(clusters);
        let ghost steps = choose|steps: Seq<Seq<Cluster>>| login_merge_trace(c1, steps) && steps.last() == merged@;
        proof {
            law_login_merge_within(c1, steps, commits@.len() as int);
        }
        let logins = profile_logins(merged.as_slice());
        let (cached, missing) = cached_profiles(caches, logins.as_slice());
        let run = Run { cfg, prepared, slugs, commits, clusters: merged, generated };
        assert(ctx_of(run) == x);
        let r = Step::FetchProfiles(ProfileFetches { run, cached }, missing);
        assert(strictly_sorted(views(logins@)));
        assert(found@ == answered(asked, answers@));
        assert(lookups_applied(c0, answered(asked, answers@), c1));
        assert(login_merge_trace(c1, steps));
        assert(steps.last() == merged@);
        assert(profiles_next(x, steps.last(), *caches, r));
        assert(lookups_applied(me.state().clusters@, answered(me.asked(), answers@), c1) && login_merge_trace(c1, steps)
            && profiles_next(ctx_of(me.state()), steps.last(), *caches, r));
        r
    }
}

impl ProfileFetches {
    /// Resume with the profiles fetched, as `(login, name, company)`: they
    /// are cached, each cluster gets the profile of its login (fetched or
    /// cached), affiliations are dropped unless they are to be detected,
    /// and the run goes on to the rows.
    pub fn resume(self, caches: &mut Caches, fetched: &[(String, Option<String>, Option<String>)]) -> (r: Step)
        ensures
            final(caches).profile_map() == profiles_after(old(caches).profile_map(), fetched@, old(caches).now_of()),
            fetched@.len() > 0 ==> same_except(*old(caches), *final(caches), CacheFile::Profiles),
            fetched@.len() == 0 ==> *final(caches) == *old(caches),
            exists|c1: Seq<Cluster>|
                #[trigger] profiles_applied(self.state().clusters@, self.from_cache(), fetched@, c1) && assembles(
                    ctx_of(self.state()),
                    if self.state().cfg.detect_affiliation {
                        c1
                    } else {
                        without_affiliations(c1)
                    },
                    *final(caches),
                    r,
                ),
    {
        proof {
            use_type_invariant(&self);
        }
        let ghost x = ctx_of(self.run);
        let ghost c0 = self.run.clusters@;
        let ghost me = self;
        assert(me.state().clusters@ == c0 && ctx_of(me.state()) == x && me.from_cache() == self.cached@);
        let ProfileFetches { run, cached } = self;
        let Run { cfg, prepared, slugs, commits, mut clusters, generated } = run;
        apply_profiles(clusters.as_mut_slice(), caches, cached.as_slice(), fetched);
        let ghost c1 = clusters@;
        assert(profiles_applied(c0, cached@, fetched@, c1));
        if !cfg.detect_affiliation {
            let mut i: usize = 0;
            while i < clusters.len()
                invariant
                    i <= clusters@.len(),
                    clusters@.len() == c1.len(),
                    forall|j: int| 0 <= j < i ==> #[trigger] clusters@[j] == (Cluster { affiliation: None, ..c1[j] }),
                    forall|j: int| i <= j < c1.len() ==> #[trigger] clusters@[j] == c1[j],
                decreases c1.len() - i,
            {
                clusters[i].affiliation = None;
                i += 1;
            }
            assert(clusters@ =~= without_affiliations(c1));
        }
        assert forall|i: int| 0 <= i < clusters@.len() implies cluster_within(#[trigger] clusters@[i], commits@.len() as int) by {
            assert(same_but_profile(c0[i], c1[i]));
            assert(cluster_within(c0[i], commits@.len() as int));
        }
        let ghost c2 = clusters@;
        assert(c2 == (if x.cfg.detect_affiliation {
            c1
        } else {
            without_affiliations(c1)
        }));
        let run = Run { cfg, prepared, slugs, commits, clusters, generated };
        assert(ctx_of(run) == x);
        let r = assemble(run, caches);
        assert(assembles(x, c2, *caches, r));
        assert(profiles_applied(me.state().clusters@, me.from_cache(), fetched@, c1));
        assert(assembles(ctx_of(me.state()), if me.state().cfg.detect_affiliation {
            c1
        } else {
            without_affiliations(c1)
        }, *caches, r));
        r
    }
}

impl AvatarFetches {
    /// Resume with the avatars downloaded, as `(URL, bytes, content type)`,
    /// each for a URL that was asked for: each becomes the data URI of its
    /// bytes, which is cached, every row shows its data URI (downloaded or
    /// cached), and the run goes on to the owner's avatar. A row with no
    /// avatar, or one already embedded, is left as it was.
    pub fn resume(self, caches: &mut Caches, downloads: &[(String, Vec<u8>, String)]) -> (r: Step)
        requires
            forall|k: int| 0 <= k < downloads@.len() ==> self.asked().contains(#[trigger] downloads@[k].0@),
        ensures
            exists|fetched: Seq<(String, String)>|
                #[trigger] uris_of(downloads@, fetched) && final(caches).avatar_map() == avatars_after(
                    old(caches).avatar_map(),
                    fetched,
                    self.state().cfg.avatar_size,
                    old(caches).now_of(),
                ) && owner_next(
                    ctx_of(self.state()),
                    embedded_rows(self.rows_of(), self.from_cache(), fetched),
                    *final(caches),
                    r,
                ),
            downloads@.len() > 0 ==> same_except(*old(caches), *final(caches), CacheFile::Avatars),
            downloads@.len() == 0 ==> *final(caches) == *old(caches),
            forall|fetched: Seq<(String, String)>, i: int|
                #![trigger uris_of(downloads@, fetched), embedded_rows(self.rows_of(), self.from_cache(), fetched)[i]]
                uris_of(downloads@, fetched) && 0 <= i < self.rows_of().len() && (self.rows_of()[i].avatar is None
                    || starts_with(self.rows_of()[i].avatar->0@, "data:"@)) ==> embedded_rows(
                    self.rows_of(),
                    self.from_cache(),
                    fetched,
                )[i] == self.rows_of()[i],
    {
        proof {
            use_type_invariant(&self);
        }
        let ghost x = ctx_of(self.run);
        let ghost rows0 = self.rows@;
        let ghost asked0 = self.asked();
        let AvatarFetches { run, mut rows, cached, asked } = self;
        proof {
            assert forall|fetched: Seq<(String, String)>, i: int|
                #![trigger uris_of(downloads@, fetched), embedded_rows(rows0, cached@, fetched)[i]]
                uris_of(downloads@, fetched) && 0 <= i < rows0.len() && (rows0[i].avatar is None || starts_with(
                    rows0[i].avatar->0@,
                    "data:"@,
                )) implies embedded_rows(rows0, cached@, fetched)[i] == rows0[i] by {
                match rows0[i].avatar {
                    Some(u) => {
                        lemma_data_in_from(fetched, u@);
                        lemma_data_in_from(cached@, u@);
                        if data_in(fetched, u@) is Some {
                            let k = choose|k: int| 0 <= k < fetched.len() && (#[trigger] fetched[k]).0@ == u@;
                            assert(downloads@[k].0@ == u@);
                            assert(asked0.contains(downloads@[k].0@));
                            let j = choose|j: int| 0 <= j < asked0.len() && asked0[j] == downloads@[k].0@;
                            assert(asked0[j] == asked@[j]@);
                        }
                        if data_in(cached@, u@) is Some {
                            let k = choose|k: int| 0 <= k < cached@.len() && (#[trigger] cached@[k]).0@ == u@;
                        }
                    },
                    None => {},
                }
            }
        }
        let fetched = download_uris(downloads);
        apply_avatars(rows.as_mut_slice(), caches, run.cfg.avatar_size, cached.as_slice(), fetched.as_slice());
        assert(rows@ =~= embedded_rows(rows0, cached@, fetched@));
        let r = owner_step(run, rows, caches);
        assert(uris_of(downloads@, fetched@));
        r
    }
}

impl OwnerAvatarFetch {
    /// Resume with the owner's avatar as downloaded (bytes and content
    /// type), if the download succeeded: it is embedded as a data URI,
    /// cached, and heads the finished run.
    pub fn resume(self, caches: &mut Caches, download: Option<(Vec<u8>, String)>) -> (r: Step)
        ensures
            r is Done,
            match download {
                Some(d) => {
                    &&& finished(ctx_of(self.state()), self.rows_of(), Some(data_uri_of(d.0@, d.1@)), r->Done_0)
                    &&& exists|data: String|
                        data@ == data_uri_of(d.0@, d.1@) && final(caches).avatar_map() == old(caches).avatar_map().insert(
                            owner_key_of(owner_login(ctx_of(self.state()))->0, OWNER_AVATAR_SIZE),
                            AvatarRec { data, ts: old(caches).now_of() },
                        )
                    &&& same_except(*old(caches), *final(caches), CacheFile::Avatars)
                },
                None => finished(ctx_of(self.state()), self.rows_of(), None, r->Done_0) && *final(caches) == *old(caches),
            },
    {
        proof {
            use_type_invariant(&self);
        }
        let OwnerAvatarFetch { run, rows } = self;
        let login = owner_login_exec(&run);
        let avatar = match (download, login) {
            (Some((bytes, ct)), Some(o)) => Some(store_owner_avatar(caches, o.as_str(), OWNER_AVATAR_SIZE, bytes.as_slice(), ct.as_str())),
            _ => None,
        };
        Step::Done(finish(run, rows, avatar))
    }
}

} // verus!
