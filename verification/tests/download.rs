use syntax_survey::download::{
    crate_archive, dashed, download_github_repo, latest_version, select_crates, select_repos,
    source_name, CrateRow, GitHubRepo, VersionRow,
};

fn crate_row(id: u64, downloads: u32, updated_at: u64) -> CrateRow {
    CrateRow { id, name: format!("crate{id}"), downloads, updated_at, created_at: 0 }
}

fn starred(full_name: &str, stars: u64, pushed_at: u64) -> GitHubRepo {
    let mut repo = repo(full_name);
    repo.stargazers_count = stars;
    repo.pushed_at = pushed_at;
    repo
}

fn version(crate_id: u64, num: &str, yanked: char, created_at: u64) -> VersionRow {
    VersionRow { crate_id, num: String::from(num), license: String::from("MIT"), yanked, created_at }
}

fn repo(full_name: &str) -> GitHubRepo {
    GitHubRepo {
        id: 1,
        name: String::from(full_name.split('/').last().unwrap()),
        full_name: String::from(full_name),
        updated_at: 0,
        created_at: 0,
        pushed_at: 0,
        size: 0,
        stargazers_count: 0,
        forks_count: 0,
        open_issues_count: 0,
        default_branch: String::from("main"),
        head: None,
    }
}

#[test]
fn compiler_repository_is_excluded() {
    assert!(repo("rust-lang/rust").should_exclude());
    assert!(!repo("rust-lang/cargo").should_exclude());
    assert!(!repo("rust-lang/rust-analyzer").should_exclude());
    assert!(!repo("rust").should_exclude());
    assert!(!repo("").should_exclude());
}

#[test]
fn repository_is_fetched_unless_present() {
    assert_eq!(download_github_repo(true, "serde-rs/serde", "0123abc"), None);
    assert_eq!(
        download_github_repo(false, "serde-rs/serde", "0123abc"),
        Some(String::from("https://github.com/serde-rs/serde/archive/0123abc.tar.gz"))
    );
}

#[test]
fn crate_archive_address() {
    assert_eq!(
        crate_archive("serde", "1.0.147"),
        "https://static.crates.io/crates/serde/serde-1.0.147.crate"
    );
}

#[test]
fn latest_version_of_a_crate() {
    let versions = vec![
        version(1, "0.1.0", 'f', 100),
        version(2, "9.0.0", 'f', 900),
        version(1, "0.3.0", 'f', 300),
        version(1, "0.4.0", 't', 400),
        version(1, "0.2.0", 'f', 200),
    ];
    assert_eq!(latest_version(&versions, 1), Some(2));
    assert_eq!(latest_version(&versions, 2), Some(1));
    assert_eq!(latest_version(&versions, 3), None);
    assert_eq!(latest_version(&Vec::new(), 1), None);
}

#[test]
fn latest_version_among_equals_is_the_last() {
    let versions = vec![
        version(1, "0.1.0", 'f', 100),
        version(1, "0.1.1", 'f', 100),
        version(1, "0.0.9", 'f', 50),
    ];
    assert_eq!(latest_version(&versions, 1), Some(1));
    let withdrawn = vec![version(1, "0.1.0", 't', 100)];
    assert_eq!(latest_version(&withdrawn, 1), None);
}

#[test]
fn crate_row_holds_what_the_dump_lists() {
    let row = CrateRow {
        id: 7,
        name: String::from("serde"),
        downloads: 1000,
        updated_at: 1669852800,
        created_at: 1431648000,
    };
    assert_eq!(row.clone(), row);
    assert_eq!(crate_archive(&row.name, "1.0.0"), "https://static.crates.io/crates/serde/serde-1.0.0.crate");
}

#[test]
fn recent_crates_by_downloads() {
    let crates = vec![
        crate_row(0, 10, 900),
        crate_row(1, 50, 100),
        crate_row(2, 30, 950),
        crate_row(3, 30, 990),
        crate_row(4, 70, 901),
        crate_row(5, 5, 1000),
    ];
    // Updated within 100 seconds before 1000: all but the crate updated at 100 and
    // the one updated at 900.
    assert_eq!(select_crates(&crates, 1000, 100, 10), vec![4, 2, 3, 5]);
    assert_eq!(select_crates(&crates, 1000, 100, 3), vec![4, 2, 3]);
    assert_eq!(select_crates(&crates, 1000, 100, 2), vec![4, 2]);
    assert_eq!(select_crates(&crates, 1000, 100, 0), vec![]);
    assert_eq!(select_crates(&crates, 1000, 101, 10), vec![4, 2, 3, 0, 5]);
    assert_eq!(select_crates(&crates, 1000, 0, 10), vec![]);
    assert_eq!(select_crates(&crates, 1000, u64::MAX, 10), vec![4, 1, 2, 3, 0, 5]);
    assert_eq!(select_crates(&Vec::new(), 1000, 100, 10), vec![]);
}

#[test]
fn recent_repositories_by_stars() {
    let repos = vec![
        starred("a/a", 5, 50),
        starred("b/b", 9, 10),
        starred("c/c", 9, 60),
        starred("d/d", 9, 70),
        starred("e/e", u64::MAX, 99),
    ];
    assert_eq!(select_repos(&repos, 100, 60, 10), vec![4, 2, 3, 0]);
    assert_eq!(select_repos(&repos, 100, 60, 2), vec![4, 2]);
    assert_eq!(select_repos(&repos, 100, 100, 3), vec![4, 1, 2]);
}

#[test]
fn directory_of_a_repository() {
    assert_eq!(dashed("serde-rs/serde"), "serde-rs-serde");
    assert_eq!(dashed("a/b/c/"), "a-b-c-");
    assert_eq!(dashed(""), "");
    assert_eq!(dashed("größe/ß"), "größe-ß");
    assert_eq!(source_name("serde", "serde-rs/serde", "0123abc", true), "serde-rs-serde-git");
    assert_eq!(source_name("serde", "serde-rs/serde", "0123abc", false), "serde-0123abc");
}
