//! What is known of the crates and repositories that can be downloaded, and
//! where their sources are fetched from.

use vstd::prelude::*;

verus! {

/// A crate as the registry's database dump lists it. Times are in seconds since
/// the Unix epoch.
#[derive(Clone, Debug, PartialEq, Eq)]
pub struct CrateRow {
    pub id: u64,
    pub name: String,
    pub downloads: u32,
    pub updated_at: u64,
    pub created_at: u64,
}

/// A version of a crate as the registry's database dump lists it.
#[derive(Clone, Debug, PartialEq, Eq)]
pub struct VersionRow {
    pub crate_id: u64,
    pub num: String,
    pub license: String,
    /// `'t'` for a version that was withdrawn, `'f'` for any other.
    pub yanked: char,
    pub created_at: u64,
}

/// A repository as a search on GitHub lists it.
#[derive(Clone, Debug, PartialEq, Eq)]
pub struct GitHubRepo {
    pub id: u64,
    pub name: String,
    pub full_name: String,
    pub updated_at: u64,
    pub created_at: u64,
    pub pushed_at: u64,
    pub size: u64,
    pub stargazers_count: u64,
    pub forks_count: u64,
    pub open_issues_count: u64,
    pub default_branch: String,
    pub head: Option<String>,
}

/// Whether a version of the crate `crate_id` can be downloaded: it belongs to
/// the crate and was not withdrawn.
pub open spec fn is_candidate(version: VersionRow, crate_id: u64) -> bool {
    version.crate_id == crate_id && version.yanked != 't'
}

/// Whether `best` is the position of the version of a crate to download: the
/// one that was published last among those that can be downloaded, and of
/// several published at the same time the last in the list.
pub open spec fn is_latest(versions: Seq<VersionRow>, crate_id: u64, best: int) -> bool {
    &&& 0 <= best < versions.len()
    &&& is_candidate(versions[best], crate_id)
    &&& forall|i: int|
        0 <= i < versions.len() && is_candidate(#[trigger] versions[i], crate_id)
            ==> versions[i].created_at <= versions[best].created_at
    &&& forall|i: int|
        best < i < versions.len() && is_candidate(#[trigger] versions[i], crate_id)
            ==> versions[i].created_at < versions[best].created_at
}

/// The position of the version of a crate to download, if the crate has a
/// version that can be downloaded.
pub fn latest_version(versions: &Vec<VersionRow>, crate_id: u64) -> (best: Option<usize>)
    ensures
        match best {
            Some(b) => is_latest(versions@, crate_id, b as int),
            None => forall|i: int|
                0 <= i < versions@.len() ==> !is_candidate(#[trigger] versions@[i], crate_id),
        },
{
    let mut best: Option<usize> = None;
    let mut i: usize = 0;
    while i < versions.len()
        invariant
            0 <= i <= versions.len(),
            match best {
                Some(b) => is_latest(versions@.take(i as int), crate_id, b as int),
                None => forall|j: int|
                    0 <= j < i ==> !is_candidate(#[trigger] versions@[j], crate_id),
            },
        decreases versions.len() - i,
    {
        let version = &versions[i];
        let ghost before = versions@.take(i as int);
        let ghost after = versions@.take(i as int + 1);
        proof {
            assert forall|j: int| 0 <= j < i implies before[j] == after[j] && after[j]
                == versions@[j] by {}
            assert(after[i as int] == versions@[i as int]);
        }
        if version.crate_id == crate_id && version.yanked != 't' {
            let newer = match best {
                Some(b) => versions[b].created_at <= version.created_at,
                None => true,
            };
            if newer {
                best = Some(i);
            }
        }
        proof {
            match best {
                Some(b) => {
                    assert forall|j: int|
                        0 <= j < after.len() && is_candidate(
                            #[trigger] after[j],
                            crate_id,
                        ) implies after[j].created_at <= after[b as int].created_at by {
                        if j < i {
                            assert(is_candidate(before[j], crate_id));
                        }
                    }
                    assert forall|j: int|
                        b < j < after.len() && is_candidate(
                            #[trigger] after[j],
                            crate_id,
                        ) implies after[j].created_at < after[b as int].created_at by {
                        if j < i {
                            assert(is_candidate(before[j], crate_id));
                        }
                    }
                },
                None => {},
            }
        }
        i = i + 1;
    }
    proof {
        assert(versions@.take(i as int) =~= versions@);
    }
    best
}

/// Whether something that was last changed at `changed` is not older than
/// `max_age` at the time `now`.
pub open spec fn is_recent(changed: u64, now: u64, max_age: u64) -> bool {
    changed + max_age > now
}

/// Whether the entry at `i` is downloaded before the entry at `j`: it has the
/// higher rank, or the same rank and comes first in the list.
pub open spec fn goes_before(ranks: Seq<u64>, i: int, j: int) -> bool {
    ranks[i] > ranks[j] || (ranks[i] == ranks[j] && i < j)
}

/// Whether the entry at `i` can be chosen: it is in the list and is recent.
pub open spec fn is_eligible(changed: Seq<u64>, now: u64, max_age: u64, i: int) -> bool {
    0 <= i < changed.len() && is_recent(changed[i], now, max_age)
}

/// Whether `chosen` holds the positions of the entries to download, in the
/// order of the download: the recent entries with the highest ranks, at most
/// `count` of them, the higher rank first, and of equal ranks the one that comes
/// first in the list.
pub open spec fn is_selection(
    chosen: Seq<usize>,
    changed: Seq<u64>,
    ranks: Seq<u64>,
    now: u64,
    max_age: u64,
    count: usize,
) -> bool {
    &&& chosen.len() <= count
    &&& forall|k: int|
        0 <= k < chosen.len() ==> is_eligible(changed, now, max_age, #[trigger] chosen[k] as int)
    &&& forall|k: int, l: int|
        0 <= k < l < chosen.len() ==> goes_before(ranks, chosen[k] as int, chosen[l] as int)
    &&& forall|i: int|
        is_eligible(changed, now, max_age, i) && !chosen.contains(i as usize) ==> {
            &&& chosen.len() == count
            &&& forall|k: int|
                0 <= k < chosen.len() ==> goes_before(ranks, #[trigger] chosen[k] as int, i)
        }
}

/// The positions of the entries to download, in the order of the download,
/// from the times at which the entries were last changed and from their ranks.
fn select(changed: &Vec<u64>, ranks: &Vec<u64>, now: u64, max_age: u64, count: usize) -> (chosen:
    Vec<usize>)
    requires
        changed@.len() == ranks@.len(),
    ensures
        is_selection(chosen@, changed@, ranks@, now, max_age, count),
{
    let mut chosen: Vec<usize> = Vec::new();
    let mut i: usize = 0;
    while i < changed.len()
        invariant
            0 <= i <= changed.len(),
            changed@.len() == ranks@.len(),
            chosen@.len() <= count,
            forall|k: int|
                0 <= k < chosen@.len() ==> is_eligible(
                    changed@,
                    now,
                    max_age,
                    #[trigger] chosen@[k] as int,
                ) && chosen@[k] < i,
            forall|k: int, l: int|
                0 <= k < l < chosen@.len() ==> goes_before(
                    ranks@,
                    chosen@[k] as int,
                    chosen@[l] as int,
                ),
            forall|j: int|
                0 <= j < i && is_eligible(changed@, now, max_age, j) && !chosen@.contains(
                    j as usize,
                ) ==> {
                    &&& chosen@.len() == count
                    &&& forall|k: int|
                        0 <= k < chosen@.len() ==> goes_before(
                            ranks@,
                            #[trigger] chosen@[k] as int,
                            j,
                        )
                },
        decreases changed.len() - i,
    {
        let ghost before = chosen@;
        let recent = match changed[i].checked_add(max_age) {
            Some(until) => until > now,
            None => true,
        };
        if recent {
            let mut at = chosen.len();
            while at > 0 && ranks[chosen[at - 1]] < ranks[i]
                invariant
                    0 <= at <= chosen@.len(),
                    i < ranks@.len(),
                    chosen@ == before,
                    forall|k: int| 0 <= k < chosen@.len() ==> #[trigger] chosen@[k] < i,
                    forall|k: int|
                        at <= k < chosen@.len() ==> goes_before(
                            ranks@,
                            i as int,
                            #[trigger] chosen@[k] as int,
                        ),
                decreases at,
            {
                at = at - 1;
            }
            proof {
                assert forall|k: int| 0 <= k < at implies goes_before(
                    ranks@,
                    #[trigger] before[k] as int,
                    i as int,
                ) by {
                    if k < at - 1 {
                        assert(goes_before(ranks@, before[k] as int, before[at - 1] as int));
                    }
                }
            }
            if at < count {
                chosen.insert(at, i);
                let ghost full = chosen@;
                proof {
                    assert(full.len() == before.len() + 1);
                    assert forall|k: int| 0 <= k < full.len() implies #[trigger] full[k] == (if k
                        < at {
                        before[k]
                    } else if k == at {
                        i
                    } else {
                        before[k - 1]
                    }) by {}
                    assert forall|w: int| 0 <= w < before.len() implies full.contains(
                        #[trigger] before[w],
                    ) by {
                        if w < at {
                            assert(full[w] == before[w]);
                        } else {
                            assert(full[w + 1] == before[w]);
                        }
                    }
                    assert(full[at as int] == i);
                    assert forall|k: int, l: int| 0 <= k < l < full.len() implies goes_before(
                        ranks@,
                        full[k] as int,
                        full[l] as int,
                    ) by {
                        if l < at {
                        } else if l == at {
                            assert(goes_before(ranks@, before[k] as int, i as int));
                        } else if k < at {
                            assert(goes_before(ranks@, before[k] as int, before[l - 1] as int));
                        } else if k == at {
                            assert(goes_before(ranks@, i as int, before[l - 1] as int));
                        } else {
                            assert(goes_before(ranks@, before[k - 1] as int, before[l - 1] as int));
                        }
                    }
                }
                if chosen.len() > count {
                    let last = chosen.pop();
                    proof {
                        assert(chosen@ =~= full.take(count as int));
                        assert(before.len() == count);
                        assert forall|j: int|
                            0 <= j < i + 1 && is_eligible(changed@, now, max_age, j)
                                && !chosen@.contains(j as usize) implies {
                            &&& chosen@.len() == count
                            &&& forall|k: int|
                                0 <= k < chosen@.len() ==> goes_before(
                                    ranks@,
                                    #[trigger] chosen@[k] as int,
                                    j,
                                )
                        } by {
                            if j == full[count as int] {
                                assert forall|k: int| 0 <= k < chosen@.len() implies goes_before(
                                    ranks@,
                                    #[trigger] chosen@[k] as int,
                                    j,
                                ) by {
                                    assert(chosen@[k] == full[k]);
                                    assert(goes_before(
                                        ranks@,
                                        full[k] as int,
                                        full[count as int] as int,
                                    ));
                                }
                            } else {
                                if j == i {
                                    assert(chosen@[at as int] == full[at as int]);
                                    assert(chosen@.contains(j as usize));
                                }
                                if before.contains(j as usize) {
                                    assert(full.contains(j as usize));
                                    let w = choose|w: int| 0 <= w < full.len() && full[w] == j;
                                    assert(w != count);
                                    assert(chosen@[w] == j);
                                    assert(chosen@.contains(j as usize));
                                }
                                assert(goes_before(ranks@, i as int, before[at as int] as int));
                                assert(goes_before(ranks@, before[at as int] as int, j));
                                assert forall|k: int| 0 <= k < chosen@.len() implies goes_before(
                                    ranks@,
                                    #[trigger] chosen@[k] as int,
                                    j,
                                ) by {
                                    assert(chosen@[k] == full[k]);
                                    if k < at {
                                        assert(goes_before(ranks@, before[k] as int, j));
                                    } else if k > at {
                                        assert(goes_before(ranks@, before[k - 1] as int, j));
                                    }
                                }
                            }
                        }
                        assert forall|k: int| 0 <= k < chosen@.len() implies is_eligible(
                            changed@,
                            now,
                            max_age,
                            #[trigger] chosen@[k] as int,
                        ) && chosen@[k] < i + 1 by {
                            assert(chosen@[k] == full[k]);
                        }
                        assert forall|k: int, l: int|
                            0 <= k < l < chosen@.len() implies goes_before(
                            ranks@,
                            chosen@[k] as int,
                            chosen@[l] as int,
                        ) by {
                            assert(chosen@[k] == full[k] && chosen@[l] == full[l]);
                        }
                    }
                } else {
                    proof {
                        assert forall|j: int|
                            0 <= j < i + 1 && is_eligible(changed@, now, max_age, j)
                                && !chosen@.contains(j as usize) implies {
                            &&& chosen@.len() == count
                            &&& forall|k: int|
                                0 <= k < chosen@.len() ==> goes_before(
                                    ranks@,
                                    #[trigger] chosen@[k] as int,
                                    j,
                                )
                        } by {
                            if j == i {
                                assert(chosen@.contains(j as usize));
                            } else if before.contains(j as usize) {
                                assert(full.contains(j as usize));
                            }
                        }
                    }
                }
            } else {
                proof {
                    assert(at == before.len() && before.len() == count);
                }
            }
        }
        i = i + 1;
    }
    chosen
}

/// The positions of the crates to download, in the order of the download: the
/// crates that were updated within `max_age` before `now`, by their downloads,
/// at most `count` of them.
pub fn select_crates(crates: &Vec<CrateRow>, now: u64, max_age: u64, count: usize) -> (chosen:
    Vec<usize>)
    ensures
        is_selection(
            chosen@,
            Seq::new(crates@.len(), |i: int| crates@[i].updated_at),
            Seq::new(crates@.len(), |i: int| crates@[i].downloads as u64),
            now,
            max_age,
            count,
        ),
{
    let mut changed: Vec<u64> = Vec::new();
    let mut ranks: Vec<u64> = Vec::new();
    let mut i: usize = 0;
    while i < crates.len()
        invariant
            0 <= i <= crates.len(),
            changed@.len() == i,
            ranks@.len() == i,
            forall|j: int| 0 <= j < i ==> changed@[j] == crates@[j].updated_at,
            forall|j: int| 0 <= j < i ==> ranks@[j] == crates@[j].downloads as u64,
        decreases crates.len() - i,
    {
        changed.push(crates[i].updated_at);
        ranks.push(crates[i].downloads as u64);
        i = i + 1;
    }
    proof {
        assert(changed@ =~= Seq::new(crates@.len(), |i: int| crates@[i].updated_at));
        assert(ranks@ =~= Seq::new(crates@.len(), |i: int| crates@[i].downloads as u64));
    }
    select(&changed, &ranks, now, max_age, count)
}

/// The positions of the repositories to download, in the order of the
/// download: the repositories that were pushed to within `max_age` before `now`,
/// by their stars, at most `count` of them.
pub fn select_repos(repos: &Vec<GitHubRepo>, now: u64, max_age: u64, count: usize) -> (chosen:
    Vec<usize>)
    ensures
        is_selection(
            chosen@,
            Seq::new(repos@.len(), |i: int| repos@[i].pushed_at),
            Seq::new(repos@.len(), |i: int| repos@[i].stargazers_count),
            now,
            max_age,
            count,
        ),
{
    let mut changed: Vec<u64> = Vec::new();
    let mut ranks: Vec<u64> = Vec::new();
    let mut i: usize = 0;
    while i < repos.len()
        invariant
            0 <= i <= repos.len(),
            changed@.len() == i,
            ranks@.len() == i,
            forall|j: int| 0 <= j < i ==> changed@[j] == repos@[j].pushed_at,
            forall|j: int| 0 <= j < i ==> ranks@[j] == repos@[j].stargazers_count,
        decreases repos.len() - i,
    {
        changed.push(repos[i].pushed_at);
        ranks.push(repos[i].stargazers_count);
        i = i + 1;
    }
    proof {
        assert(changed@ =~= Seq::new(repos@.len(), |i: int| repos@[i].pushed_at));
        assert(ranks@ =~= Seq::new(repos@.len(), |i: int| repos@[i].stargazers_count));
    }
    select(&changed, &ranks, now, max_age, count)
}

/// The address of the archive of a version of a crate.
pub open spec fn crate_url(name: Seq<char>, num: Seq<char>) -> Seq<char> {
    "https://static.crates.io/crates/"@ + name + "/"@ + name + "-"@ + num + ".crate"@
}

/// The address of the archive of a version of a crate.
pub fn crate_archive(name: &str, num: &str) -> (url: String)
    ensures
        url@ == crate_url(name@, num@),
{
    String::from_str("https://static.crates.io/crates/").concat(name).concat("/").concat(
        name,
    ).concat("-").concat(num).concat(".crate")
}

/// The address of the archive of a repository at a commit.
pub open spec fn archive_url(full_name: Seq<char>, sha: Seq<char>) -> Seq<char> {
    "https://github.com/"@ + full_name + "/archive/"@ + sha + ".tar.gz"@
}

/// A repository's full name with a dash in place of every slash.
pub open spec fn with_dashes(full_name: Seq<char>) -> Seq<char> {
    Seq::new(
        full_name.len(),
        |i: int|
            if full_name[i] == '/' {
                '-'
            } else {
                full_name[i]
            },
    )
}

/// The name of the directory that holds the sources of a repository: named by
/// the repository's full name where the whole history is fetched, and by its
/// name and the commit where only one commit is.
pub open spec fn source_dir(
    name: Seq<char>,
    full_name: Seq<char>,
    sha: Seq<char>,
    clone_repos: bool,
) -> Seq<char> {
    if clone_repos {
        with_dashes(full_name) + "-git"@
    } else {
        name + "-"@ + sha
    }
}

/// A repository's full name with a dash in place of every slash.
pub fn dashed(full_name: &str) -> (r: String)
    ensures
        r@ == with_dashes(full_name@),
{
    let n = full_name.unicode_len();
    let mut r = String::new();
    let mut i: usize = 0;
    proof {
        assert(r@ =~= with_dashes(full_name@.take(0)));
    }
    while i < n
        invariant
            0 <= i <= n,
            n == full_name@.len(),
            r@ == with_dashes(full_name@.take(i as int)),
        decreases n - i,
    {
        let ghost done = r@;
        if full_name.get_char(i) == '/' {
            proof {
                reveal_strlit("-");
            }
            r.append("-");
            proof {
                assert("-"@ =~= seq!['-']);
            }
        } else {
            r.append(full_name.substring_char(i, i + 1));
        }
        proof {
            assert(r@ =~= with_dashes(full_name@.take(i as int + 1)));
        }
        i = i + 1;
    }
    proof {
        assert(full_name@.take(i as int) =~= full_name@);
    }
    r
}

/// The name of the directory that holds the sources of a repository.
pub fn source_name(name: &str, full_name: &str, sha: &str, clone_repos: bool) -> (r: String)
    ensures
        r@ == source_dir(name@, full_name@, sha@, clone_repos),
{
    if clone_repos {
        dashed(full_name).concat("-git")
    } else {
        String::from_str(name).concat("-").concat(sha)
    }
}

impl GitHubRepo {
    /// Whether the repository is left out of the download: the compiler's own
    /// repository is.
    pub fn should_exclude(&self) -> (b: bool)
        ensures
            b == (self.full_name@ == "rust-lang/rust"@),
    {
        self.full_name == String::from_str("rust-lang/rust")
    }
}

/// Decides how the sources of a repository at a commit are brought in: where
/// they are `present` already nothing is fetched, otherwise the archive at the
/// address that is returned is fetched and unpacked.
pub fn download_github_repo(present: bool, full_name: &str, sha: &str) -> (fetch: Option<String>)
    ensures
        fetch matches Some(url) ==> url@ == archive_url(full_name@, sha@),
        fetch is None <==> present,
{
    if present {
        None
    } else {
        Some(
            String::from_str("https://github.com/").concat(full_name).concat("/archive/").concat(
                sha,
            ).concat(".tar.gz"),
        )
    }
}

} // verus!
