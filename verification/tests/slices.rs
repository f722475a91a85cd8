use huggingfacedownloader::smart_dl::{
    can_plan, download_mode, download_result, is_cancel, leftovers, merge_step, plan_slices,
    range_header, refuse_cancelled, slice_chunk, slice_chunk_size, slices_result, temp_chunk_path,
    temp_dir, CancelProbe, ChunkAction, ChunkEvent, ChunkFetch, DownloadMode, MergeAction,
    WholeAction, WholeEvent, WholeFetch, CANCEL_CHECK,
};

fn merge(file: &[u8], slices: &[(u64, u64, u64)]) -> Vec<u8> {
    let mut out = Vec::new();
    for s in slices {
        let piece = &file[s.0 as usize..=s.1 as usize];
        assert_eq!(piece.len() as u64, s.2);
        out.extend_from_slice(piece);
    }
    out
}

fn bytes(n: usize) -> Vec<u8> {
    (0..n).map(|i| (i * 7 % 251) as u8).collect()
}

fn range_of(action: &ChunkAction) -> String {
    match action {
        ChunkAction::Request { range } => range.clone(),
        _ => panic!("no request"),
    }
}

#[test]
fn chunks_share_the_file_and_the_last_takes_the_rest() {
    assert_eq!(slice_chunk(10, 3, 0), vec![(0, 2, 3), (3, 5, 3), (6, 9, 4)]);
    assert_eq!(slice_chunk(7, 7, 0).len(), 7);
    assert_eq!(slice_chunk(1, 1, 0), vec![(0, 0, 1)]);
    assert_eq!(slice_chunk(10, 2, 100), vec![(100, 104, 5), (105, 109, 5)]);
    assert_eq!(slice_chunk(u64::MAX, 1, 1), vec![(1, u64::MAX, u64::MAX)]);
}

#[test]
fn sized_slices_have_the_given_size_but_for_the_last() {
    assert_eq!(slice_chunk_size(200, Some(100)), vec![(0, 99, 100), (100, 199, 100)]);
    assert_eq!(
        slice_chunk_size(250, Some(100)),
        vec![(0, 99, 100), (100, 199, 100), (200, 249, 50)]
    );
    assert_eq!(slice_chunk_size(100, Some(100)), vec![(0, 99, 100)]);
    assert_eq!(slice_chunk_size(5, Some(100)), vec![(0, 4, 5)]);
    assert_eq!(slice_chunk_size(3, Some(1)), vec![(0, 0, 1), (1, 1, 1), (2, 2, 1)]);
    assert_eq!(
        slice_chunk_size(u64::MAX, Some(u64::MAX - 1)),
        vec![(0, u64::MAX - 2, u64::MAX - 1), (u64::MAX - 1, u64::MAX - 1, 1)]
    );
    assert!(slice_chunk_size(250, None).is_empty());
}

#[test]
fn planned_slices_restore_the_file() {
    for total in 1usize..60 {
        let file = bytes(total);
        for count in 1usize..=total {
            let slices = plan_slices(total as u64, count, None);
            assert_eq!(slices.len(), count);
            assert_eq!(merge(&file, &slices), file);
        }
        for max in 1u64..70 {
            let slices = plan_slices(total as u64, 4, Some(max));
            assert_eq!(merge(&file, &slices), file);
        }
    }
}

#[test]
fn a_plan_needs_bytes_for_every_slice() {
    assert!(can_plan(7, 7, None));
    assert!(!can_plan(6, 7, None));
    assert!(!can_plan(10, 0, None));
    assert!(can_plan(6, 7, Some(2)));
    assert!(!can_plan(0, 7, Some(2)));
    assert!(!can_plan(6, 7, Some(0)));
    assert!(!can_plan(6, 0, Some(2)));
}

#[test]
fn temporary_files_lie_in_a_directory_of_their_own() {
    assert_eq!(temp_dir("a_b/sub/model.bin"), "a_b/sub/tmp");
    assert_eq!(temp_chunk_path("a_b/sub/model.bin", 0), "a_b/sub/tmp/model.tmp0");
    assert_eq!(temp_chunk_path("model.tar.gz", 12), "tmp/model.tar.tmp12");
    assert_eq!(temp_chunk_path("", 3), "tmp/.tmp3");
    assert_eq!(temp_chunk_path("/", 3), "/tmp/.tmp3");
    assert_ne!(temp_chunk_path("d/f", 1), temp_chunk_path("d/f", 11));
}

#[test]
fn temporary_paths_agree_with_the_standard_library() {
    for base in ["a/b.c", "b", "/x", "a/./b", "a//b/", "./b.txt", "", "/", "a/..", ".hidden"] {
        let path = std::path::Path::new(base);
        let stem = path.file_stem().and_then(|s| s.to_str()).unwrap_or("");
        let dir = match path.parent() {
            Some(parent) => parent.join("tmp"),
            None => path.join("tmp"),
        };
        let expected = dir.join(format!("{}.tmp{}", stem, 5));
        assert_eq!(temp_chunk_path(base, 5), expected.to_str().unwrap());
    }
}

#[test]
fn an_interrupted_download_names_its_leftovers() {
    assert!(leftovers("d/f.bin", 3, true).is_empty());
    assert_eq!(leftovers("d/f.bin", 2, false), vec!["d/tmp/f.tmp0", "d/tmp/f.tmp1"]);
    assert_eq!(leftovers("f.bin", 1, false), vec!["tmp/f.tmp0"]);
    for (index, path) in leftovers("a/b.c", 12, false).iter().enumerate() {
        assert_eq!(*path, temp_chunk_path("a/b.c", index));
    }
}

#[test]
fn the_server_decides_how_a_file_is_fetched() {
    assert_eq!(
        download_mode(Some("bytes"), Some("123")),
        DownloadMode::Chunks { total_size: 123 }
    );
    assert_eq!(download_mode(Some("none"), Some("123")), DownloadMode::Whole);
    assert_eq!(download_mode(None, Some("123")), DownloadMode::Whole);
    assert_eq!(download_mode(Some("bytes"), None), DownloadMode::Whole);
    assert_eq!(download_mode(Some("bytes"), Some("")), DownloadMode::Whole);
    assert_eq!(download_mode(Some("bytes"), Some(" 1")), DownloadMode::Whole);
    assert_eq!(download_mode(Some("bytes"), Some("18446744073709551616")), DownloadMode::Whole);
}

#[test]
fn a_range_names_its_two_ends() {
    assert_eq!(range_header(0, 99), "bytes=0-99");
    assert_eq!(range_header(100, u64::MAX), "bytes=100-18446744073709551615");
}

#[test]
fn a_complete_slice_is_skipped_when_the_download_is_resumed() {
    let fetch = ChunkFetch::new((100, 199, 100), 10);
    assert!(matches!(fetch.begin(Some(100), true), ChunkAction::Skip { bytes: 100 }));
    assert_eq!(range_of(&fetch.begin(Some(99), true)), "bytes=100-199");
    assert_eq!(range_of(&fetch.begin(None, true)), "bytes=100-199");
}

#[test]
fn nothing_is_skipped_when_the_download_is_not_resumed() {
    let fetch = ChunkFetch::new((100, 199, 100), 10);
    assert_eq!(range_of(&fetch.begin(Some(100), false)), "bytes=100-199");
}

#[test]
fn requests_for_a_slice_are_repeated_and_bounded() {
    for event in [ChunkEvent::Unsent, ChunkEvent::BrokenOff { cancelled: false }] {
        let mut fetch = ChunkFetch::new((0, 9, 10), 3);
        let mut action = fetch.begin(None, true);
        let mut requests = 0;
        while let ChunkAction::Request { range } = action {
            assert_eq!(range, "bytes=0-9");
            requests += 1;
            let step = fetch.advance(event);
            assert!(step.1);
            assert_eq!(fetch.tries, 3 - requests);
            action = step.0;
        }
        assert_eq!(requests, 3);
        assert!(matches!(action, ChunkAction::Stop { complete: false }));
    }
    assert!(matches!(
        ChunkFetch::new((0, 9, 10), 0).begin(None, true),
        ChunkAction::Stop { complete: false }
    ));
}

#[test]
fn a_slice_is_complete_once_a_request_is_answered() {
    let mut fetch = ChunkFetch::new((20, 29, 10), 2);
    assert_eq!(range_of(&fetch.begin(Some(4), true)), "bytes=20-29");
    let step = fetch.advance(ChunkEvent::Unsent);
    assert_eq!(range_of(&step.0), "bytes=20-29");
    let step = fetch.advance(ChunkEvent::Received { cancelled: false });
    assert!(matches!(step.0, ChunkAction::Stop { complete: true }));
    assert!(!step.1);
}

#[test]
fn a_cancelled_slice_is_given_up() {
    for (event, reset) in [
        (ChunkEvent::Cancelled, false),
        (ChunkEvent::BrokenOff { cancelled: true }, true),
        (ChunkEvent::Received { cancelled: true }, true),
    ] {
        let mut fetch = ChunkFetch::new((0, 9, 10), 3);
        let step = fetch.advance(event);
        assert!(matches!(step.0, ChunkAction::Stop { complete: false }));
        assert_eq!(step.1, reset);
        assert_eq!(fetch.tries, 3);
    }
}

#[test]
fn attempts_on_a_whole_file_are_repeated_and_bounded() {
    let given_up = WholeAction::Finish { complete: false };
    let failed = WholeEvent::Ended { complete: false, cancelled: false };
    let mut fetch = WholeFetch { tries: 2 };
    assert_eq!(fetch.begin(), WholeAction::Request);
    assert_eq!(fetch.advance(failed), (WholeAction::Request, true));
    assert_eq!(fetch.advance(failed), (given_up, true));
    assert_eq!(WholeFetch { tries: 0 }.begin(), given_up);
}

#[test]
fn a_whole_file_is_complete_once_an_attempt_is() {
    let complete = WholeEvent::Ended { complete: true, cancelled: false };
    let failed = WholeEvent::Ended { complete: false, cancelled: false };
    let mut fetch = WholeFetch { tries: 2 };
    assert_eq!(fetch.advance(failed), (WholeAction::Request, true));
    assert_eq!(fetch.advance(complete), (WholeAction::Finish { complete: true }, false));
    assert_eq!(fetch.tries, 0);
}

#[test]
fn a_cancelled_whole_file_is_given_up() {
    let mut fetch = WholeFetch { tries: 2 };
    assert_eq!(fetch.advance(WholeEvent::Cancelled), (WholeAction::Abandon, false));
    assert_eq!(fetch.tries, 2);
    for complete in [false, true] {
        let mut fetch = WholeFetch { tries: 2 };
        let stopped = WholeEvent::Ended { complete, cancelled: true };
        assert_eq!(fetch.advance(stopped), (WholeAction::Finish { complete: false }, true));
        assert_eq!(fetch.tries, 2);
    }
}

#[test]
fn the_cancel_flag_is_looked_at_every_hundredth_piece() {
    let mut probe = CancelProbe::new();
    for piece in 1u32..=250 {
        assert_eq!(probe.stops(true), piece % CANCEL_CHECK == 0);
    }
    let mut probe = CancelProbe::new();
    for _ in 0..250 {
        assert!(!probe.stops(false));
    }
}

#[test]
fn cancelling_is_an_error() {
    assert_eq!(is_cancel(false), Ok(()));
    assert_eq!(is_cancel(true), Err("Error".to_string()));
    assert_eq!(refuse_cancelled(false), Ok(()));
    assert_eq!(refuse_cancelled(true), Err("Download cancelled".to_string()));
}

#[test]
fn a_download_ends_well_if_all_of_it_was_fetched() {
    let cancelled = || Err("Download cancelled".to_string());
    let incomplete = || Err("Download incomplete".to_string());
    assert_eq!(download_result(true, false), Ok(()));
    assert_eq!(download_result(true, true), cancelled());
    assert_eq!(download_result(false, false), incomplete());
    assert_eq!(download_result(false, true), cancelled());
    assert_eq!(slices_result(&vec![true, true, true], false), Ok(()));
    assert_eq!(slices_result(&vec![true, false, true], false), incomplete());
    assert_eq!(slices_result(&vec![true, true, false], false), incomplete());
    assert_eq!(slices_result(&vec![true, true], true), cancelled());
}

#[test]
fn a_merge_appends_the_slices_in_order() {
    let file = bytes(23);
    let slices = plan_slices(23, 4, None);
    let mut out = Vec::new();
    let mut done = 0;
    while let MergeAction::Append { index } = merge_step(done, slices.len(), false) {
        assert_eq!(index, done);
        out.extend_from_slice(&file[slices[index].0 as usize..=slices[index].1 as usize]);
        done += 1;
    }
    assert_eq!(merge_step(done, slices.len(), false), MergeAction::Clean);
    assert_eq!(out, file);
}

#[test]
fn a_cancelled_merge_discards_the_file() {
    assert_eq!(merge_step(0, 3, true), MergeAction::Append { index: 0 });
    assert_eq!(merge_step(1, 3, true), MergeAction::Discard);
    assert_eq!(merge_step(3, 3, true), MergeAction::Discard);
    assert_eq!(merge_step(0, 0, true), MergeAction::Fail);
    assert_eq!(merge_step(0, 0, false), MergeAction::Clean);
}
