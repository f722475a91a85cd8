use std::collections::HashMap;

use huggingfacedownloader::config::AppConfig;
use huggingfacedownloader::hf::{
    check_listing_status, collect_hashes, download_limits, expected_hash, fetch_again,
    fetch_sha256_hash, file_step, final_check, folder_url, found_message, get_sha256_from_etag,
    hash_answered, hash_url, lfs_count, local_path, remote_url, repo_type_of, sort_files, target_dir, tree_url,
    verify_file, ApiFileInfo, ExpectedHash, FileLook, FileStep, HashOutcome, HeaderText, LfsInfo,
    Listing, RepoFile, ShaMap, Verdict, Verification, VerificationReport, HASH_SIZE_LIMIT,
};

fn entry(file_type: &str, path: &str) -> ApiFileInfo {
    ApiFileInfo {
        file_type: file_type.to_string(),
        path: path.to_string(),
        size: Some(path.len() as i64),
        lfs: None,
    }
}

fn file(name: &str, oid: Option<&str>, size: i64) -> RepoFile {
    RepoFile {
        rfilename: name.to_string(),
        lfs: oid.map(|o| LfsInfo { oid: o.to_string(), size, pointer_size: 134 }),
        size: Some(size),
    }
}

fn names(files: &[RepoFile]) -> Vec<String> {
    files.iter().map(|f| f.rfilename.clone()).collect()
}

#[test]
fn the_walk_lists_every_file() {
    let mut tree: HashMap<&str, Vec<ApiFileInfo>> = HashMap::new();
    tree.insert(
        "b",
        vec![entry("file", "b/z"), entry("directory", "b/c"), entry("file", "b/a")],
    );
    tree.insert("b/c", vec![entry("file", "b/c/x"), entry("symlink", "b/c/y")]);
    let root = vec![
        entry("directory", "b"),
        entry("file", "top"),
        entry("directory", "lost"),
        entry("other", "odd"),
        entry("file", "a"),
    ];
    let mut listing = Listing::new(root);
    let mut asked = Vec::new();
    while let Some(folder) = listing.next_folder() {
        let answer = match tree.remove(folder.as_str()) {
            Some(entries) => listing.folder_answered(200, Ok(entries)),
            None => listing.folder_answered(404, Ok(vec![entry("file", "no/such")])),
        };
        assert_eq!(answer, Ok(()));
        asked.push(folder);
    }
    assert_eq!(asked, vec!["b", "b/c", "lost"]);
    let files = listing.finish();
    assert_eq!(names(&files), vec!["a", "b/a", "b/c/x", "b/z", "top"]);
    assert_eq!(files[2].size, Some(5));
}

#[test]
fn a_directory_that_is_not_listed_is_passed_over() {
    let root = || vec![entry("directory", "d")];
    let found = |status: u16| {
        let mut listing = Listing::new(root());
        assert_eq!(listing.next_folder(), Some("d".to_string()));
        assert_eq!(listing.folder_answered(status, Ok(vec![entry("file", "d/f")])), Ok(()));
        assert_eq!(listing.next_folder(), None);
        names(&listing.finish())
    };
    assert_eq!(found(200), vec!["d/f"]);
    assert_eq!(found(299), vec!["d/f"]);
    for status in [199, 300, 403, 404, 500] {
        assert!(found(status).is_empty());
    }
    let mut listing = Listing::new(root());
    listing.next_folder();
    let unread = || Err("no list".to_string());
    assert_eq!(listing.folder_answered(200, unread()), Err("no list".to_string()));
    assert_eq!(listing.folder_answered(404, unread()), Ok(()));
    listing.folder_fetched(vec![entry("file", "d/g")]);
    assert_eq!(listing.next_folder(), None);
    assert_eq!(names(&listing.finish()), vec!["d/g"]);
}

#[test]
fn an_empty_repository_has_no_files() {
    let mut listing = Listing::new(vec![]);
    assert_eq!(listing.next_folder(), None);
    assert!(listing.finish().is_empty());
}

#[test]
fn files_of_one_name_keep_their_order() {
    let sorted = sort_files(vec![
        file("b", None, 1),
        file("a", None, 2),
        file("b", None, 3),
        file("a", None, 4),
        file("A", None, 5),
    ]);
    let seen: Vec<(String, i64)> =
        sorted.iter().map(|f| (f.rfilename.clone(), f.size.unwrap())).collect();
    let expected: Vec<(String, i64)> = vec![("A", 5), ("a", 2), ("a", 4), ("b", 1), ("b", 3)]
        .into_iter()
        .map(|(n, s)| (n.to_string(), s))
        .collect();
    assert_eq!(seen, expected);
}

#[test]
fn files_in_large_file_storage_are_counted() {
    let files = vec![file("a", Some("x"), 1), file("b", None, 1), file("c", Some("y"), 1)];
    assert_eq!(lfs_count(&files), 2);
    assert_eq!(found_message(&files), "Found 3 files, 2 with LFS");
}

#[test]
fn addresses() {
    assert_eq!(tree_url("models", "u/r", ""), "https://huggingface.co/api/models/u/r/tree/main");
    assert_eq!(
        tree_url("spaces", "u/r", "p"),
        "https://huggingface.co/api/spaces/u/r/tree/main?path=p"
    );
    assert_eq!(
        folder_url("datasets", "u/r", "d/e"),
        "https://huggingface.co/api/datasets/u/r/tree/main/d/e"
    );
    assert_eq!(remote_url("models", "u/r", "f"), "https://huggingface.co/u/r/resolve/main/f");
    assert_eq!(
        remote_url("datasets", "u/r", "f"),
        "https://huggingface.co/datasets/u/r/resolve/main/f"
    );
    assert_eq!(
        remote_url("spaces", "u/r", "f"),
        "https://huggingface.co/spaces/u/r/resolve/main/f"
    );
    assert_eq!(target_dir("moonshotai/Kimi-K2-Instruct"), "moonshotai_Kimi-K2-Instruct");
    assert_eq!(local_path("u_r", "d/f"), "u_r/d/f");
    assert_eq!(hash_url("http://x/f"), "http://x/f.sha256");
    assert_ne!(remote_url("models", "u/r", "f"), remote_url("models", "u/r", "g"));
    assert_ne!(local_path("u_r", "f"), local_path("u_r", "g"));
}

#[test]
fn the_status_of_a_listing() {
    assert_eq!(check_listing_status(200, "200 OK", "models", "u/r"), Ok(()));
    assert_eq!(check_listing_status(299, "299", "models", "u/r"), Ok(()));
    assert_eq!(
        check_listing_status(404, "404 Not Found", "models", "u/r"),
        Err("Repository not found or private: models/u/r".to_string())
    );
    assert_eq!(
        check_listing_status(500, "500 Internal Server Error", "models", "u/r"),
        Err("Failed to fetch repo files: HTTP 500 Internal Server Error".to_string())
    );
    assert!(check_listing_status(199, "199", "models", "u/r").is_err());
    assert!(check_listing_status(300, "300", "models", "u/r").is_err());
}

#[test]
fn the_last_hash_that_is_said_holds() {
    let mut map = ShaMap::new();
    assert_eq!(map.get("u"), None);
    map.insert("u".to_string(), "1".to_string());
    map.insert("v".to_string(), "2".to_string());
    map.insert("u".to_string(), "3".to_string());
    assert_eq!(map.get("u"), Some("3".to_string()));
    assert_eq!(map.get("v"), Some("2".to_string()));
    assert_eq!(map.get("w"), None);
}

#[test]
fn listed_hashes_are_collected_by_address() {
    let files = vec![file("a", Some("h"), 1), file("b", None, 1)];
    let map = collect_hashes(&files, "datasets", "u/r");
    assert_eq!(
        map.get("https://huggingface.co/datasets/u/r/resolve/main/a"),
        Some("h".to_string())
    );
    assert_eq!(map.get("https://huggingface.co/datasets/u/r/resolve/main/b"), None);
}

#[test]
fn a_hash_file_begins_with_the_hash() {
    assert_eq!(
        fetch_sha256_hash(200, Some(" abc  file\n".to_string())),
        Some("abc".to_string())
    );
    assert_eq!(fetch_sha256_hash(200, Some(" \n".to_string())), None);
    assert_eq!(fetch_sha256_hash(200, None), None);
    assert_eq!(fetch_sha256_hash(404, Some("abc".to_string())), None);
}

#[test]
fn an_entity_tag_holds_the_hash() {
    let tag = |s: &str| HeaderText::Text(s.to_string());
    assert_eq!(
        get_sha256_from_etag(tag("\"sha256:ab\""), tag("\"cd\"")),
        Some("ab".to_string())
    );
    assert_eq!(get_sha256_from_etag(HeaderText::Absent, tag("\"cd\"")), Some("cd".to_string()));
    assert_eq!(
        get_sha256_from_etag(tag("sha256:sha256:ab"), HeaderText::Absent),
        Some("ab".to_string())
    );
    assert_eq!(get_sha256_from_etag(HeaderText::Unreadable, tag("\"cd\"")), None);
    assert_eq!(get_sha256_from_etag(HeaderText::Absent, HeaderText::Unreadable), None);
    assert_eq!(get_sha256_from_etag(HeaderText::Absent, HeaderText::Absent), None);
}

#[test]
fn the_expected_hash_has_three_sources() {
    let mut map = ShaMap::new();
    map.insert(remote_url("models", "u/r", "b"), "known".to_string());
    match expected_hash(&file("a", Some("oid"), 1), &map, "models", "u/r") {
        ExpectedHash::Known(h) => assert_eq!(h, "oid"),
        _ => panic!("the hub lists the hash"),
    }
    match expected_hash(&file("b", None, 1), &map, "models", "u/r") {
        ExpectedHash::Known(h) => assert_eq!(h, "known"),
        _ => panic!("the hash is known"),
    }
    match expected_hash(&file("c", None, 1), &map, "models", "u/r") {
        ExpectedHash::AskFile(url) => assert_eq!(url, remote_url("models", "u/r", "c")),
        _ => panic!("the hash is not known"),
    }
}

#[test]
fn the_hub_is_asked_twice_at_most() {
    let url = || "u".to_string();
    match hash_answered(ExpectedHash::AskFile(url()), Some("h".to_string())) {
        ExpectedHash::Known(h) => assert_eq!(h, "h"),
        _ => panic!("the hash is known"),
    }
    match hash_answered(ExpectedHash::AskFile(url()), None) {
        ExpectedHash::AskTag(u) => assert_eq!(u, "u"),
        _ => panic!("the tag is next"),
    }
    match hash_answered(ExpectedHash::AskTag(url()), Some("h".to_string())) {
        ExpectedHash::Known(h) => assert_eq!(h, "h"),
        _ => panic!("the hash is known"),
    }
    assert!(matches!(hash_answered(ExpectedHash::AskTag(url()), None), ExpectedHash::Unknown));
    assert!(matches!(hash_answered(ExpectedHash::Unknown, None), ExpectedHash::Unknown));
    assert!(matches!(
        hash_answered(ExpectedHash::Known(url()), None),
        ExpectedHash::Known(_)
    ));
}

#[test]
fn a_file_passes_with_its_hash() {
    let good = verify_file(&file("a", None, 1), "h".to_string(), "h".to_string());
    assert!(good.passed);
    let bad = verify_file(&file("a", None, 1), "h".to_string(), "H".to_string());
    assert!(!bad.passed);
    assert_eq!(bad.filename, "a");
    assert_eq!(bad.expected_hash, "h");
    assert_eq!(bad.actual_hash, "H");
}

#[test]
fn a_verification_lists_the_hashed_files_in_order() {
    let hashed = |expected: &str, actual: &str| FileLook::Hashed {
        expected: expected.to_string(),
        actual: actual.to_string(),
    };
    let mut verification = Verification::new();
    verification.take(&file("a", None, 1), hashed("h", "h"));
    verification.take(&file("b", None, 1), FileLook::Missing);
    verification.take(&file("c", None, 1), hashed("h", "i"));
    verification.take(&file("d", None, 1), FileLook::NotExpected);
    verification.take(&file("e", None, 1), FileLook::Unreadable);
    verification.take(&file("f", None, 1), hashed("j", "j"));
    let listed: Vec<(&str, &str, &str, bool)> = verification
        .results
        .iter()
        .map(|r| (&*r.filename, &*r.expected_hash, &*r.actual_hash, r.passed))
        .collect();
    assert_eq!(
        listed,
        vec![("a", "h", "h", true), ("c", "h", "i", false), ("f", "j", "j", true)]
    );
}

#[test]
fn the_final_verification_names_the_corrupted_files() {
    let files = vec![
        file("good", Some("h"), 1),
        file("bad", Some("h"), 1),
        file("missing", Some("h"), 1),
        file("plain", None, 1),
        file("large", Some("h"), HASH_SIZE_LIMIT + 1),
        file("unreadable", Some("h"), 1),
        file("worse", Some("h"), HASH_SIZE_LIMIT),
    ];
    let outcome = |name: &str| match name {
        "good" => HashOutcome::Digest("h".to_string()),
        "unreadable" => HashOutcome::Failed,
        _ => HashOutcome::Digest("i".to_string()),
    };
    let mut report = VerificationReport::new();
    for f in &files {
        if let Some(expected) = final_check(f, f.rfilename != "missing") {
            report.record(f, expected, outcome(&f.rfilename));
        }
    }
    let failed: Vec<&str> = report.failed.iter().map(|r| &*r.filename).collect();
    assert_eq!(failed, vec!["bad", "worse"]);
    assert!(report.conclude(&files).is_err());
}

#[test]
fn the_settings_limit_the_download() {
    assert_eq!(download_limits(&None), (4, 4, None));
    assert_eq!(repo_type_of(&None), "models");
    let config = AppConfig {
        max_parallel: 2,
        max_chunk: 9,
        repo_type: "spaces".to_string(),
        max_size: Some(5),
        resumable: false,
    };
    assert_eq!(repo_type_of(&Some(config.clone())), "spaces");
    assert_eq!(download_limits(&Some(config)), (2, 9, Some(5)));
}

#[test]
fn only_listed_hashes_are_looked_at_again() {
    let lfs = file("a", Some("h"), 1);
    let plain = file("b", None, 1);
    assert!(matches!(file_step(&lfs, false, false), FileStep::Download));
    assert!(matches!(file_step(&lfs, true, true), FileStep::Skip));
    assert!(matches!(file_step(&plain, true, false), FileStep::Skip));
    assert!(matches!(file_step(&plain, false, true), FileStep::Download));
    match file_step(&lfs, true, false) {
        FileStep::Check(h) => assert_eq!(h, "h"),
        _ => panic!("the hash is to be taken"),
    }
}

#[test]
fn a_file_with_another_hash_is_fetched_again() {
    assert!(!fetch_again("h", &HashOutcome::Digest("h".to_string())));
    assert!(fetch_again("h", &HashOutcome::Digest("i".to_string())));
    assert!(fetch_again("h", &HashOutcome::Failed));
    assert!(!fetch_again("h", &HashOutcome::TimedOut));
}

#[test]
fn large_files_are_not_checked_at_the_end() {
    assert_eq!(HASH_SIZE_LIMIT, 5 * 1024 * 1024 * 1024);
    assert_eq!(
        final_check(&file("a", Some("h"), HASH_SIZE_LIMIT), true),
        Some("h".to_string())
    );
    assert_eq!(final_check(&file("a", Some("h"), HASH_SIZE_LIMIT + 1), true), None);
    assert_eq!(final_check(&file("a", Some("h"), 1), false), None);
    assert_eq!(final_check(&file("a", None, 1), true), None);
}

#[test]
fn the_report_ends_the_download() {
    let files = vec![file("a", Some("h"), 1), file("b", Some("i"), 1)];
    let mut report = VerificationReport::new();
    let h = || "h".to_string();
    assert_eq!(report.record(&files[0], h(), HashOutcome::Digest(h())), Verdict::Passed);
    assert_eq!(report.record(&files[0], h(), HashOutcome::Failed), Verdict::Unchecked);
    assert_eq!(report.record(&files[0], h(), HashOutcome::TimedOut), Verdict::Unchecked);
    assert_eq!(
        report.conclude(&files),
        Ok("All 2 LFS files passed hash verification!".to_string())
    );
    assert_eq!(report.conclude(&vec![]), Ok("No LFS files to verify".to_string()));
    assert_eq!(
        report.record(&files[1], "i".to_string(), HashOutcome::Digest(h())),
        Verdict::Corrupted
    );
    assert_eq!(report.failed.len(), 1);
    assert_eq!(report.failed[0].filename, "b");
    assert_eq!(report.failed[0].actual_hash, "h");
    assert_eq!(
        report.conclude(&files),
        Err("Some LFS files failed hash verification. Please run the program again.".to_string())
    );
}
