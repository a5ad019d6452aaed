//! The caches that make re-runs fast: parsed `git log` output keyed by the
//! branch tip, and the GitHub lookups (commit authors, which never change;
//! profiles, avatars and an owner's repository list, which expire).
//!
//! Reading and writing the cache files is left to the caller; this module
//! decides what is fresh, what a lookup answers, and what needs saving.
use vstd::prelude::*;
use crate::model::{clone_opt, CommitFilter, opt_view};
use crate::table::{map_of, StrTable};

verus! {

/// The layout version of the git-history cache.
pub const COMMITS_VERSION: u32 = 2;

/// How long a cached profile stays fresh, in seconds (30 days): people
/// change companies.
pub const PROFILE_TTL: i64 = 2592000;

/// How long a cached avatar stays fresh, in seconds (90 days).
pub const AVATAR_TTL: i64 = 7776000;

/// How long an owner's cached repository list stays fresh, in seconds (six
/// hours), so new repositories still appear the same day.
pub const ORG_TTL: i64 = 21600;

/// A commit as stored in the git-history cache, with its co-authors (no
/// source index; that is re-assigned per run when the pool is rebuilt).
#[derive(Clone, Debug)]
pub struct CachedCommit {
    pub sha: String,
    pub ts: i64,
    pub name: String,
    pub email: String,
    pub coauthors: Vec<(String, String)>,
}

/// One repository's cached `git log`, valid only while `tip` and the filters
/// still match the live repository.
#[derive(Debug)]
pub struct CommitsCache {
    pub version: u32,
    pub tip: String,
    pub since: Option<String>,
    pub until: Option<String>,
    pub no_merges: bool,
    pub commits: Vec<CachedCommit>,
}

/// The GitHub account behind a commit.
#[derive(Clone, Debug)]
pub struct Author {
    pub login: String,
    pub avatar_url: String,
}

/// A cached profile: display name and company, with when it was fetched.
#[derive(Clone, Debug)]
pub struct ProfileRec {
    pub name: Option<String>,
    pub company: Option<String>,
    pub ts: i64,
}

/// A cached avatar as a data URI, with when it was fetched.
#[derive(Clone, Debug)]
pub struct AvatarRec {
    pub data: String,
    pub ts: i64,
}

/// A cached repository list of an owner, with when it was fetched.
#[derive(Clone, Debug)]
pub struct OrgRec {
    pub repos: Vec<String>,
    pub ts: i64,
}

/// One of the GitHub cache files.
#[derive(Clone, Copy, Debug, PartialEq, Eq)]
pub enum CacheFile {
    Authors,
    Profiles,
    Avatars,
    Orgs,
}

/// The GitHub caches for one run. Loaded once, queried before any network
/// call, and written back at the end. Reads are skipped (treated as misses)
/// when `refresh` is set, but existing entries are still kept on save so
/// unrelated repositories keep their cache.
pub struct Caches {
    root: Option<String>,
    refresh: bool,
    now: i64,
    authors: StrTable<Author>,
    profiles: StrTable<ProfileRec>,
    avatars: StrTable<AvatarRec>,
    orgs: StrTable<OrgRec>,
    authors_dirty: bool,
    profiles_dirty: bool,
    avatars_dirty: bool,
    orgs_dirty: bool,
}

/// The view of a list of strings.
pub open spec fn strs(v: Seq<String>) -> Seq<Seq<char>> {
    v.map_values(|s: String| s@)
}

/// A copy of a list of strings.
fn copy_strs(v: &Vec<String>) -> (r: Vec<String>)
    ensures
        strs(r@) == strs(v@),
{
    let mut r: Vec<String> = Vec::new();
    let mut i: usize = 0;
    while i < v.len()
        invariant
            i <= v@.len(),
            strs(r@) == strs(v@).take(i as int),
        decreases v@.len() - i,
    {
        let ghost r0 = r@;
        r.push(v[i].clone());
        assert(strs(r@) =~= strs(r0).push(v@[i as int]@));
        assert(strs(v@).take(i + 1) =~= strs(v@).take(i as int).push(v@[i as int]@));
        i += 1;
    }
    assert(strs(v@).take(i as int) =~= strs(v@));
    r
}

/// An entry not older than `ttl` at time `now` (the difference taken
/// exactly).
pub open spec fn fresh(now: i64, ts: i64, ttl: i64) -> bool {
    now - ts < ttl
}

/// Whether an entry of time `ts` is still fresh at `now`.
fn fresh_exec(now: i64, ts: i64, ttl: i64) -> (r: bool)
    ensures
        r == fresh(now, ts, ttl),
{
    (now as i128) - (ts as i128) < ttl as i128
}

impl Caches {
    /// The directory of the cache, if there is one.
    pub closed spec fn root_of(&self) -> Option<Seq<char>> {
        opt_view(self.root)
    }

    /// Whether lookups are skipped this run.
    pub closed spec fn refreshing(&self) -> bool {
        self.refresh
    }

    /// The time of this run (unix seconds).
    pub closed spec fn now_of(&self) -> i64 {
        self.now
    }

    /// Commit SHA → author.
    pub closed spec fn author_map(&self) -> Map<Seq<char>, Author> {
        self.authors@
    }

    /// Login → profile.
    pub closed spec fn profile_map(&self) -> Map<Seq<char>, ProfileRec> {
        self.profiles@
    }

    /// Avatar key → avatar.
    pub closed spec fn avatar_map(&self) -> Map<Seq<char>, AvatarRec> {
        self.avatars@
    }

    /// Owner → repository list.
    pub closed spec fn org_map(&self) -> Map<Seq<char>, OrgRec> {
        self.orgs@
    }

    /// Which maps changed since loading: authors, profiles, avatars, orgs.
    pub closed spec fn dirty(&self) -> (bool, bool, bool, bool) {
        (self.authors_dirty, self.profiles_dirty, self.avatars_dirty, self.orgs_dirty)
    }

    /// The caches as loaded from the cache directory `root` (if any) for a
    /// run at time `now`, from the entries of each file; where a key repeats,
    /// the later entry wins. Nothing is dirty yet.
    pub fn load(
        root: Option<String>,
        refresh: bool,
        now: i64,
        authors: Vec<(String, Author)>,
        profiles: Vec<(String, ProfileRec)>,
        avatars: Vec<(String, AvatarRec)>,
        orgs: Vec<(String, OrgRec)>,
    ) -> (c: Self)
        ensures
            c.root_of() == opt_view(root),
            c.refreshing() == refresh,
            c.now_of() == now,
            c.author_map() == map_of(authors@),
            c.profile_map() == map_of(profiles@),
            c.avatar_map() == map_of(avatars@),
            c.org_map() == map_of(orgs@),
            c.dirty() == (false, false, false, false),
    {
        Caches {
            root,
            refresh,
            now,
            authors: StrTable::from_entries(authors),
            profiles: StrTable::from_entries(profiles),
            avatars: StrTable::from_entries(avatars),
            orgs: StrTable::from_entries(orgs),
            authors_dirty: false,
            profiles_dirty: false,
            avatars_dirty: false,
            orgs_dirty: false,
        }
    }
}


/// What a cached `git log` answers for a run at `tip` with `filter`: it must
/// have the current layout, the same tip and the same filters.
pub open spec fn commits_match(entry: CommitsCache, tip: Seq<char>, filter: CommitFilter) -> bool {
    &&& entry.version == COMMITS_VERSION
    &&& entry.tip@ == tip
    &&& opt_view(entry.since) == opt_view(filter.since)
    &&& opt_view(entry.until) == opt_view(filter.until)
    &&& entry.no_merges == filter.no_merges
}

/// What a lookup of the author of commit `sha` answers: `(login, avatar URL)`.
pub open spec fn author_answer(c: Caches, sha: Seq<char>) -> Option<(Seq<char>, Seq<char>)> {
    if c.refreshing() || !c.author_map().contains_key(sha) {
        None
    } else {
        Some((c.author_map()[sha].login@, c.author_map()[sha].avatar_url@))
    }
}

/// What a lookup of the profile of `login` answers: `(name, company)`, while
/// fresh.
pub open spec fn profile_answer(c: Caches, login: Seq<char>) -> Option<(Option<Seq<char>>, Option<Seq<char>>)> {
    if c.refreshing() || !c.profile_map().contains_key(login) || !fresh(c.now_of(), c.profile_map()[login].ts, PROFILE_TTL) {
        None
    } else {
        Some((opt_view(c.profile_map()[login].name), opt_view(c.profile_map()[login].company)))
    }
}

/// What a lookup of the avatar under `key` answers, while fresh.
pub open spec fn avatar_answer(c: Caches, key: Seq<char>) -> Option<Seq<char>> {
    if c.refreshing() || !c.avatar_map().contains_key(key) || !fresh(c.now_of(), c.avatar_map()[key].ts, AVATAR_TTL) {
        None
    } else {
        Some(c.avatar_map()[key].data@)
    }
}

/// What a lookup of the repositories of `owner` answers, while fresh.
pub open spec fn org_answer(c: Caches, owner: Seq<char>) -> Option<Seq<Seq<char>>> {
    if c.refreshing() || !c.org_map().contains_key(owner) || !fresh(c.now_of(), c.org_map()[owner].ts, ORG_TTL) {
        None
    } else {
        Some(strs(c.org_map()[owner].repos@))
    }
}

/// `after` is `before` with only the named map changed and marked dirty.
pub open spec fn same_except(before: Caches, after: Caches, which: CacheFile) -> bool {
    &&& after.root_of() == before.root_of()
    &&& after.refreshing() == before.refreshing()
    &&& after.now_of() == before.now_of()
    &&& (which != CacheFile::Authors ==> after.author_map() == before.author_map() && after.dirty().0 == before.dirty().0)
    &&& (which != CacheFile::Profiles ==> after.profile_map() == before.profile_map() && after.dirty().1 == before.dirty().1)
    &&& (which != CacheFile::Avatars ==> after.avatar_map() == before.avatar_map() && after.dirty().2 == before.dirty().2)
    &&& (which != CacheFile::Orgs ==> after.org_map() == before.org_map() && after.dirty().3 == before.dirty().3)
    &&& (which == CacheFile::Authors ==> after.dirty().0)
    &&& (which == CacheFile::Profiles ==> after.dirty().1)
    &&& (which == CacheFile::Avatars ==> after.dirty().2)
    &&& (which == CacheFile::Orgs ==> after.dirty().3)
}

/// The files to write back: each changed map, when there is a cache
/// directory.
pub open spec fn files_to_save(c: Caches) -> Seq<CacheFile> {
    if c.root_of() is None {
        Seq::empty()
    } else {
        (if c.dirty().0 { seq![CacheFile::Authors] } else { Seq::empty() }) + (if c.dirty().1 {
            seq![CacheFile::Profiles]
        } else {
            Seq::empty()
        }) + (if c.dirty().2 { seq![CacheFile::Avatars] } else { Seq::empty() }) + (if c.dirty().3 {
            seq![CacheFile::Orgs]
        } else {
            Seq::empty()
        })
    }
}

impl Caches {
    /// Cached commits for a repository, from its cache entry `entry` (if the
    /// file could be read), returned only if the freshness token (`tip`) and
    /// the filters still match this run.
    pub fn commits(&self, entry: Option<CommitsCache>, tip: &str, filter: &CommitFilter) -> (r: Option<Vec<CachedCommit>>)
        ensures
            match r {
                Some(v) => !self.refreshing() && self.root_of() is Some && entry is Some && commits_match(entry->0, tip@, *filter)
                    && v == entry->0.commits,
                None => self.refreshing() || self.root_of() is None || entry is None || !commits_match(entry->0, tip@, *filter),
            },
    {
        if self.refresh || self.root.is_none() {
            return None;
        }
        match entry {
            Some(e) => {
                let same_since = match (&e.since, &filter.since) {
                    (Some(a), Some(b)) => crate::text::str_eq(a.as_str(), b.as_str()),
                    (None, None) => true,
                    _ => false,
                };
                let same_until = match (&e.until, &filter.until) {
                    (Some(a), Some(b)) => crate::text::str_eq(a.as_str(), b.as_str()),
                    (None, None) => true,
                    _ => false,
                };
                if e.version == COMMITS_VERSION && crate::text::str_eq(e.tip.as_str(), tip) && same_since && same_until && e.no_merges
                    == filter.no_merges {
                    Some(e.commits)
                } else {
                    None
                }
            },
            None => None,
        }
    }

    /// The cache entry that stores a repository's parsed commits against the
    /// current tip SHA and filters; none when there is no cache directory.
    pub fn put_commits(&self, tip: &str, filter: &CommitFilter, commits: Vec<CachedCommit>) -> (r: Option<CommitsCache>)
        ensures
            match r {
                Some(e) => self.root_of() is Some && commits_match(e, tip@, *filter) && e.commits == commits,
                None => self.root_of() is None,
            },
    {
        if self.root.is_none() {
            return None;
        }
        Some(CommitsCache {
            version: COMMITS_VERSION,
            tip: tip.to_string(),
            since: clone_opt(&filter.since),
            until: clone_opt(&filter.until),
            no_merges: filter.no_merges,
            commits,
        })
    }

    /// The author of commit `sha`, if cached (a commit's author never
    /// changes, so these never expire).
    pub fn author(&self, sha: &str) -> (r: Option<Author>)
        ensures
            match r {
                Some(a) => author_answer(*self, sha@) == Some((a.login@, a.avatar_url@)),
                None => author_answer(*self, sha@) is None,
            },
    {
        if self.refresh {
            return None;
        }
        match self.authors.get(sha) {
            Some(a) => Some(Author { login: a.login.clone(), avatar_url: a.avatar_url.clone() }),
            None => None,
        }
    }

    /// Record the author of commit `sha`.
    pub fn put_author(&mut self, sha: String, login: String, avatar_url: String)
        ensures
            final(self).author_map() == old(self).author_map().insert(sha@, Author { login, avatar_url }),
            same_except(*old(self), *final(self), CacheFile::Authors),
    {
        self.authors.insert(sha, Author { login, avatar_url });
        self.authors_dirty = true;
    }

    /// The profile of `login` as `(name, company)`, if cached and fresh.
    pub fn profile(&self, login: &str) -> (r: Option<(Option<String>, Option<String>)>)
        ensures
            match r {
                Some((n, c)) => profile_answer(*self, login@) == Some((opt_view(n), opt_view(c))),
                None => profile_answer(*self, login@) is None,
            },
    {
        if self.refresh {
            return None;
        }
        match self.profiles.get(login) {
            Some(rec) => {
                if fresh_exec(self.now, rec.ts, PROFILE_TTL) {
                    Some((clone_opt(&rec.name), clone_opt(&rec.company)))
                } else {
                    None
                }
            },
            None => None,
        }
    }

    /// Record the profile of `login`, fetched now.
    pub fn put_profile(&mut self, login: String, name: Option<String>, company: Option<String>)
        ensures
            final(self).profile_map() == old(self).profile_map().insert(login@, ProfileRec { name, company, ts: old(self).now_of() }),
            same_except(*old(self), *final(self), CacheFile::Profiles),
    {
        let ts = self.now;
        self.profiles.insert(login, ProfileRec { name, company, ts });
        self.profiles_dirty = true;
    }

    /// The avatar data URI under `key`, if cached and fresh.
    pub fn avatar(&self, key: &str) -> (r: Option<String>)
        ensures
            opt_view(r) == avatar_answer(*self, key@),
    {
        if self.refresh {
            return None;
        }
        match self.avatars.get(key) {
            Some(rec) => {
                if fresh_exec(self.now, rec.ts, AVATAR_TTL) {
                    Some(rec.data.clone())
                } else {
                    None
                }
            },
            None => None,
        }
    }

    /// Record an avatar data URI under `key`, fetched now.
    pub fn put_avatar(&mut self, key: String, data: String)
        ensures
            final(self).avatar_map() == old(self).avatar_map().insert(key@, AvatarRec { data, ts: old(self).now_of() }),
            same_except(*old(self), *final(self), CacheFile::Avatars),
    {
        let ts = self.now;
        self.avatars.insert(key, AvatarRec { data, ts });
        self.avatars_dirty = true;
    }

    /// The cached repository list of an org or user, if still within its
    /// short lifetime.
    pub fn org_repos(&self, owner: &str) -> (r: Option<Vec<String>>)
        ensures
            match r {
                Some(v) => org_answer(*self, owner@) == Some(strs(v@)),
                None => org_answer(*self, owner@) is None,
            },
    {
        if self.refresh {
            return None;
        }
        match self.orgs.get(owner) {
            Some(rec) => {
                if fresh_exec(self.now, rec.ts, ORG_TTL) {
                    Some(copy_strs(&rec.repos))
                } else {
                    None
                }
            },
            None => None,
        }
    }

    /// Record the repository list of an owner, fetched now.
    pub fn put_org_repos(&mut self, owner: String, repos: Vec<String>)
        ensures
            final(self).org_map() == old(self).org_map().insert(owner@, OrgRec { repos, ts: old(self).now_of() }),
            same_except(*old(self), *final(self), CacheFile::Orgs),
    {
        let ts = self.now;
        self.orgs.insert(owner, OrgRec { repos, ts });
        self.orgs_dirty = true;
    }

    /// The cache files to write back: the maps that changed this run, when
    /// there is a cache directory.
    pub fn save(&self) -> (r: Vec<CacheFile>)
        ensures
            r@ == files_to_save(*self),
    {
        let mut r: Vec<CacheFile> = Vec::new();
        if self.root.is_none() {
            return r;
        }
        if self.authors_dirty {
            r.push(CacheFile::Authors);
        }
        let ghost r1 = r@;
        if self.profiles_dirty {
            r.push(CacheFile::Profiles);
        }
        let ghost r2 = r@;
        if self.avatars_dirty {
            r.push(CacheFile::Avatars);
        }
        let ghost r3 = r@;
        if self.orgs_dirty {
            r.push(CacheFile::Orgs);
        }
        assert(r@ =~= files_to_save(*self));
        r
    }

    /// The cache directory, if any.
    pub fn root(&self) -> (r: &Option<String>)
        ensures
            opt_view(*r) == self.root_of(),
    {
        &self.root
    }

    /// The cached authors, for writing back.
    pub fn author_entries(&self) -> (r: &Vec<(String, Author)>)
        ensures
            forall|k: Seq<char>| #[trigger] self.author_map().contains_key(k) <==> exists|i: int|
                0 <= i < r@.len() && (#[trigger] r@[i]).0@ == k,
            forall|i: int| 0 <= i < r@.len() ==> #[trigger] self.author_map().contains_key(r@[i].0@)
                && self.author_map()[r@[i].0@] == r@[i].1,
    {
        self.authors.entries()
    }

    /// The cached profiles, for writing back.
    pub fn profile_entries(&self) -> (r: &Vec<(String, ProfileRec)>)
        ensures
            forall|k: Seq<char>| #[trigger] self.profile_map().contains_key(k) <==> exists|i: int|
                0 <= i < r@.len() && (#[trigger] r@[i]).0@ == k,
            forall|i: int| 0 <= i < r@.len() ==> #[trigger] self.profile_map().contains_key(r@[i].0@)
                && self.profile_map()[r@[i].0@] == r@[i].1,
    {
        self.profiles.entries()
    }

    /// The cached avatars, for writing back.
    pub fn avatar_entries(&self) -> (r: &Vec<(String, AvatarRec)>)
        ensures
            forall|k: Seq<char>| #[trigger] self.avatar_map().contains_key(k) <==> exists|i: int|
                0 <= i < r@.len() && (#[trigger] r@[i]).0@ == k,
            forall|i: int| 0 <= i < r@.len() ==> #[trigger] self.avatar_map().contains_key(r@[i].0@)
                && self.avatar_map()[r@[i].0@] == r@[i].1,
    {
        self.avatars.entries()
    }

    /// The cached repository lists, for writing back.
    pub fn org_entries(&self) -> (r: &Vec<(String, OrgRec)>)
        ensures
            forall|k: Seq<char>| #[trigger] self.org_map().contains_key(k) <==> exists|i: int|
                0 <= i < r@.len() && (#[trigger] r@[i]).0@ == k,
            forall|i: int| 0 <= i < r@.len() ==> #[trigger] self.org_map().contains_key(r@[i].0@)
                && self.org_map()[r@[i].0@] == r@[i].1,
    {
        self.orgs.entries()
    }
}

/// A recorded commit author is what a later lookup of that commit answers,
/// unless the run skips lookups; lookups of other commits are unchanged.
pub proof fn law_author_read_after_write(before: Caches, after: Caches, sha: Seq<char>, a: Author, other: Seq<char>)
    requires
        after.author_map() == before.author_map().insert(sha, a),
        same_except(before, after, CacheFile::Authors),
    ensures
        author_answer(after, sha) == (if before.refreshing() {
            None
        } else {
            Some((a.login@, a.avatar_url@))
        }),
        other != sha ==> author_answer(after, other) == author_answer(before, other),
{
}

/// A profile recorded in a run is what a later lookup in the same run
/// answers, unless the run skips lookups; other logins are unchanged.
pub proof fn law_profile_read_after_write(
    before: Caches,
    after: Caches,
    login: Seq<char>,
    name: Option<String>,
    company: Option<String>,
    other: Seq<char>,
)
    requires
        after.profile_map() == before.profile_map().insert(login, ProfileRec { name, company, ts: before.now_of() }),
        same_except(before, after, CacheFile::Profiles),
    ensures
        profile_answer(after, login) == (if before.refreshing() {
            None
        } else {
            Some((opt_view(name), opt_view(company)))
        }),
        other != login ==> profile_answer(after, other) == profile_answer(before, other),
{
}

/// An avatar recorded in a run is what a later lookup in the same run
/// answers, unless the run skips lookups; other keys are unchanged.
pub proof fn law_avatar_read_after_write(before: Caches, after: Caches, key: Seq<char>, data: String, other: Seq<char>)
    requires
        after.avatar_map() == before.avatar_map().insert(key, AvatarRec { data, ts: before.now_of() }),
        same_except(before, after, CacheFile::Avatars),
    ensures
        avatar_answer(after, key) == (if before.refreshing() {
            None
        } else {
            Some(data@)
        }),
        other != key ==> avatar_answer(after, other) == avatar_answer(before, other),
{
}

/// A repository list recorded in a run is what a later lookup in the same
/// run answers, unless the run skips lookups; other owners are unchanged.
pub proof fn law_org_read_after_write(before: Caches, after: Caches, owner: Seq<char>, repos: Vec<String>, other: Seq<char>)
    requires
        after.org_map() == before.org_map().insert(owner, OrgRec { repos, ts: before.now_of() }),
        same_except(before, after, CacheFile::Orgs),
    ensures
        org_answer(after, owner) == (if before.refreshing() {
            None
        } else {
            Some(strs(repos@))
        }),
        other != owner ==> org_answer(after, other) == org_answer(before, other),
{
}

/// A cached profile, avatar or repository list expires: once its age reaches
/// its lifetime, a lookup misses.
pub proof fn law_entries_expire(c: Caches, k: Seq<char>)
    ensures
        c.profile_map().contains_key(k) && c.now_of() - c.profile_map()[k].ts >= PROFILE_TTL ==> profile_answer(c, k) is None,
        c.avatar_map().contains_key(k) && c.now_of() - c.avatar_map()[k].ts >= AVATAR_TTL ==> avatar_answer(c, k) is None,
        c.org_map().contains_key(k) && c.now_of() - c.org_map()[k].ts >= ORG_TTL ==> org_answer(c, k) is None,
{
}

/// Only what changed is written back, and nothing without a cache directory.
pub proof fn law_save_only_changes(c: Caches)
    ensures
        c.root_of() is None ==> files_to_save(c).len() == 0,
        c.dirty() == (false, false, false, false) ==> files_to_save(c).len() == 0,
        c.root_of() is Some && c.dirty().0 ==> files_to_save(c).contains(CacheFile::Authors),
{
    if c.root_of() is Some && c.dirty().0 {
        assert(files_to_save(c)[0] == CacheFile::Authors);
    }
}

/// A commit's author never changes, so a cached author never expires: it is
/// answered whatever its age, unless the run refreshes.
pub proof fn law_authors_never_expire(c: Caches, sha: Seq<char>)
    requires
        c.author_map().contains_key(sha),
        !c.refreshing(),
    ensures
        author_answer(c, sha) == Some((c.author_map()[sha].login@, c.author_map()[sha].avatar_url@)),
{
}

} // verus!
