use std::sync::Arc;

use huggingfacedownloader::async_taskwait::{self, AsyncTaskWait, RunFlag, SlotStep};
use huggingfacedownloader::config::{
    apply_args, authorization, create_default_config, get_prog_name, is_known_repo_type,
    set_config, AppConfig, AppContext, Args, DEFAULT_MAX_CHUNK, DEFAULT_MAX_PARALLEL,
    DEFAULT_MAX_TRY,
};
use huggingfacedownloader::taskwait::{
    self, new_thread_available, task_ended, wait_all_thread_done, wait_available_thread, DrainPhase,
    DrainStep, TaskState, ThreadWait,
};

fn args(max_size: Option<&str>) -> Args {
    Args {
        repo: "facebook/flores".to_string(),
        max_parallel: 2,
        max_chunk: 1,
        max_try: 10,
        repo_type: "datasets".to_string(),
        token: "".to_string(),
        max_size: max_size.map(|s| s.to_string()),
        resumable: false,
    }
}

#[test]
fn one_file_at_a_time_in_seven_chunks() {
    assert_eq!(DEFAULT_MAX_PARALLEL, 1);
    assert_eq!(DEFAULT_MAX_CHUNK, 7);
    assert_eq!(DEFAULT_MAX_TRY, 10);
}

#[test]
fn three_types_of_repository() {
    for t in ["models", "datasets", "spaces", "Models", "SPACES"] {
        assert!(is_known_repo_type(t));
    }
    for t in ["", "model", "models ", "dataset", "space"] {
        assert!(!is_known_repo_type(t));
    }
}

#[test]
fn the_command_line_makes_the_settings() {
    let config = apply_args(&args(None), None);
    assert_eq!(config.max_parallel, 2);
    assert_eq!(config.max_chunk, 1);
    assert_eq!(config.repo_type, "datasets");
    assert_eq!(config.max_size, None);
    assert!(!config.resumable);
    assert_eq!(apply_args(&args(Some("100MB")), Some(Ok(104857600))).max_size, Some(104857600));
    assert_eq!(apply_args(&args(Some("0")), Some(Ok(0))).max_size, None);
    assert_eq!(apply_args(&args(Some("x")), Some(Err("no".to_string()))).max_size, None);
}

#[test]
fn a_token_makes_a_header() {
    assert_eq!(authorization(""), None);
    assert_eq!(authorization("abc"), Some("Bearer abc".to_string()));
}

#[test]
fn the_configuration_file_is_named_after_the_program() {
    let name = |s: &str| get_prog_name(&vec![s.to_string(), "-j".to_string()]);
    assert_eq!(name("/usr/bin/huggingfacedownloader"), "huggingfacedownloader.json");
    assert_eq!(name("./loader.exe"), "loader.json");
    assert_eq!(name(""), ".json");
    assert_eq!(get_prog_name(&vec![]), "config.json");
}

#[test]
fn without_a_configuration_the_defaults_hold() {
    let mut ctx = AppContext::new();
    assert!(!ctx.is_running);
    assert!(ctx.config.is_none() && ctx.taskwait.is_none() && ctx.json.is_none());
    ctx.run();
    assert!(ctx.is_running);
    set_config(&mut ctx, None);
    let config = ctx.config.clone().unwrap();
    assert_eq!((config.max_parallel, config.max_chunk), (1, 4));
    assert_eq!(config.repo_type, "models");
    assert_eq!(create_default_config().max_chunk, AppConfig::default().max_chunk);
    set_config(&mut ctx, Some(AppConfig { max_chunk: 9, ..config }));
    assert_eq!(ctx.clone().config.unwrap().max_chunk, 9);
    assert!(ctx.is_running);
}

#[test]
fn a_limit_hands_out_its_permits() {
    let limit = AsyncTaskWait::new(3);
    assert_eq!(limit.max_parallel(), 3);
    assert_eq!(limit.available_permits(), 3);
    let semaphore = limit.semaphore();
    assert!(Arc::ptr_eq(&semaphore, &limit.semaphore()));
    let permit = Arc::clone(&semaphore).try_acquire_owned().unwrap();
    assert_eq!(limit.available_permits(), 2);
    drop(permit);
    assert_eq!(limit.available_permits(), 3);
    assert_eq!(AsyncTaskWait::new(0).available_permits(), 0);
}

#[test]
fn a_slot_is_only_asked_for_while_the_program_runs() {
    let limit = AsyncTaskWait::new(1);
    let mut flag = RunFlag::new();
    assert!(async_taskwait::is_running(&flag));
    assert_eq!(limit.wait_for_slot(&flag, None), SlotStep::Acquire);
    assert_eq!(limit.wait_for_slot(&flag, Some(true)), SlotStep::Done(true));
    assert_eq!(limit.wait_for_slot(&flag, Some(false)), SlotStep::Done(false));
    async_taskwait::set_running(&mut flag, false);
    assert!(!async_taskwait::is_running(&flag));
    assert_eq!(limit.wait_for_slot(&flag, None), SlotStep::Done(false));
}

#[test]
fn threads_wait_for_a_place() {
    let mut state = TaskState::new();
    assert!(!taskwait::is_running(&state));
    state.running = true;
    assert_eq!(wait_available_thread(&mut state, 2), ThreadWait::Done(true));
    assert_eq!(wait_available_thread(&mut state, 2), ThreadWait::Done(true));
    assert_eq!(state.threads, 2);
    assert_eq!(wait_available_thread(&mut state, 2), ThreadWait::Sleep(300));
    assert_eq!(state.threads, 2);
    new_thread_available(&mut state);
    assert_eq!(state.threads, 1);
    state.running = false;
    assert_eq!(wait_available_thread(&mut state, 2), ThreadWait::Done(false));
    assert_eq!(state.threads, 2);
    assert_eq!(wait_available_thread(&mut state, 2), ThreadWait::Done(false));
    assert_eq!(state.threads, 2);
}

#[test]
fn a_place_that_is_given_back_is_as_if_never_taken() {
    let before = TaskState { running: true, threads: 3 };
    let mut state = before;
    wait_available_thread(&mut state, 9);
    new_thread_available(&mut state);
    assert_eq!(state, before);
}

#[test]
fn a_task_gives_back_the_place_that_it_took() {
    let before = TaskState { running: true, threads: 3 };
    let mut state = before;
    task_ended(&mut state, true);
    assert_eq!(state, before);
    task_ended(&mut state, false);
    assert_eq!(state, TaskState { running: true, threads: 2 });
}

#[test]
fn all_threads_have_ended_after_two_looks() {
    let busy = TaskState { running: true, threads: 1 };
    let idle = TaskState { running: true, threads: 0 };
    let stopped = TaskState { running: false, threads: 1 };
    let ended = TaskState { running: false, threads: 0 };
    let again = DrainStep::Sleep(500, DrainPhase::Poll);
    assert_eq!(wait_all_thread_done(DrainPhase::Poll, &busy), again);
    assert_eq!(
        wait_all_thread_done(DrainPhase::Poll, &idle),
        DrainStep::Sleep(500, DrainPhase::Confirm)
    );
    assert_eq!(wait_all_thread_done(DrainPhase::Confirm, &idle), DrainStep::Done(true));
    assert_eq!(wait_all_thread_done(DrainPhase::Confirm, &busy), again);
    assert_eq!(wait_all_thread_done(DrainPhase::Confirm, &stopped), DrainStep::Done(false));
    assert_eq!(wait_all_thread_done(DrainPhase::Poll, &stopped), DrainStep::Done(false));
    assert_eq!(wait_all_thread_done(DrainPhase::Poll, &ended), DrainStep::Done(false));
    assert_eq!(wait_all_thread_done(DrainPhase::Confirm, &ended), DrainStep::Done(true));
}
