//! The settings of a run: command line, configuration file and context.
use std::sync::Arc;
use vstd::prelude::*;

use crate::async_taskwait::AsyncTaskWait;
use crate::paths;
use crate::text;

verus! {

/// Files that are fetched at the same time, unless the command line says
/// otherwise.
pub const DEFAULT_MAX_PARALLEL: u32 = 1;

/// Slices that a file is cut into, unless the command line says otherwise.
pub const DEFAULT_MAX_CHUNK: u32 = 7;

/// Requests for one slice, or for a file in one piece, unless the command line
/// says otherwise.
pub const DEFAULT_MAX_TRY: u32 = 10;

/// The command line.
#[derive(Debug)]
pub struct Args {
    /// The repository, as `user/name`.
    pub repo: String,
    /// Files that are fetched at the same time.
    pub max_parallel: u32,
    /// Slices that a file is cut into.
    pub max_chunk: u32,
    /// Requests for one slice, or for a file in one piece.
    pub max_try: u32,
    /// `models`, `datasets` or `spaces`.
    pub repo_type: String,
    /// The access token, or nothing.
    pub token: String,
    /// The size of a slice, as text.
    pub max_size: Option<String>,
    /// Whether slices that are there already are kept.
    pub resumable: bool,
}

/// The settings of a run.
#[derive(Debug)]
pub struct AppConfig {
    pub max_parallel: u32,
    pub max_chunk: u32,
    pub repo_type: String,
    pub max_size: Option<u64>,
    pub resumable: bool,
}

/// Whether `config` holds the settings that are used without a configuration
/// file.
pub open spec fn is_default(config: AppConfig) -> bool {
    &&& config.max_parallel == 1
    &&& config.max_chunk == 4
    &&& config.repo_type@ == "models"@
    &&& config.max_size is None
    &&& config.resumable
}

impl Clone for AppConfig {
    fn clone(&self) -> (r: Self)
        ensures
            r == *self,
    {
        AppConfig {
            max_parallel: self.max_parallel,
            max_chunk: self.max_chunk,
            repo_type: self.repo_type.clone(),
            max_size: self.max_size,
            resumable: self.resumable,
        }
    }
}

impl Default for AppConfig {
    fn default() -> (r: Self)
        ensures
            is_default(r),
    {
        AppConfig {
            max_parallel: 1,
            max_chunk: 4,
            repo_type: "models".to_string(),
            max_size: None,
            resumable: true,
        }
    }
}

/// What the parts of the program share: they hold one context together, behind
/// an `Arc`. A clone is a context of its own, with the same limit on tasks.
#[derive(Debug)]
pub struct AppContext {
    pub is_running: bool,
    pub json: Option<String>,
    pub config: Option<AppConfig>,
    pub taskwait: Option<Arc<AsyncTaskWait>>,
}

impl Clone for AppContext {
    fn clone(&self) -> (r: Self)
        ensures
            r == *self,
    {
        AppContext {
            is_running: self.is_running,
            json: match &self.json {
                Some(json) => Some(json.clone()),
                None => None,
            },
            config: match &self.config {
                Some(config) => Some(config.clone()),
                None => None,
            },
            taskwait: match &self.taskwait {
                Some(taskwait) => Some(taskwait.clone()),
                None => None,
            },
        }
    }
}

impl AppContext {
    /// A context without settings.
    pub fn new() -> (r: Self)
        ensures
            !r.is_running,
            r.json is None,
            r.config is None,
            r.taskwait is None,
    {
        AppContext { is_running: false, json: None, config: None, taskwait: None }
    }

    /// Marks the program as running.
    pub fn run(&mut self)
        ensures
            *final(self) == (AppContext { is_running: true, ..*old(self) }),
    {
        self.is_running = true;
    }
}

/// The settings that are used without a configuration file.
pub fn create_default_config() -> (r: AppConfig)
    ensures
        is_default(r),
{
    AppConfig::default()
}

/// Takes the settings into the context. `loaded` is what was read from the
/// configuration file; without one, or with one that cannot be read, the
/// default settings hold.
pub fn set_config(ctx: &mut AppContext, loaded: Option<AppConfig>)
    ensures
        final(ctx).is_running == old(ctx).is_running,
        final(ctx).json == old(ctx).json,
        final(ctx).taskwait == old(ctx).taskwait,
        match loaded {
            Some(config) => final(ctx).config == Some(config),
            None => final(ctx).config matches Some(config) && is_default(config),
        },
{
    let config = match loaded {
        Some(config) => config,
        None => create_default_config(),
    };
    ctx.config = Some(config);
}

/// The name of the configuration file: that of the program, which is the first
/// argument, without its extension, and `.json` behind it.
pub open spec fn config_name(args: Seq<String>) -> Seq<char> {
    let name = if args.len() > 0 {
        match paths::stem_of(args[0]@) {
            Some(stem) => stem,
            None => Seq::empty(),
        }
    } else {
        "config"@
    };
    name + ".json"@
}

/// The name of the configuration file.
pub fn get_prog_name(args: &Vec<String>) -> (r: String)
    ensures
        r@ == config_name(args@),
{
    let name = if args.len() > 0 {
        match paths::file_stem(&args[0]) {
            Some(stem) => stem,
            None => String::new(),
        }
    } else {
        "config".to_string()
    };
    text::join2(&name, ".json")
}

/// Whether a repository type is one of the three that there are.
pub open spec fn known_type(lower: Seq<char>) -> bool {
    lower == "models"@ || lower == "datasets"@ || lower == "spaces"@
}

/// Whether a repository type, in any mix of letters, is one of the three that
/// there are.
pub fn is_known_repo_type(repo_type: &str) -> (r: bool)
    ensures
        r == known_type(text::lowercase_of(repo_type@)),
        vstd::utf8::is_ascii_chars(repo_type@) ==> r == known_type(text::lowered(repo_type@)),
{
    let lower = text::to_lowercase(repo_type);
    text::same_text(&lower, "models") || text::same_text(&lower, "datasets") || text::same_text(
        &lower,
        "spaces",
    )
}

/// The slice size that holds: that of the command line if it was read and is
/// not nothing. `parsed` is what became of it, if it was given.
pub open spec fn slice_limit(parsed: Option<Result<u64, String>>) -> Option<u64> {
    match parsed {
        Some(Ok(bytes)) => if bytes == 0 {
            None
        } else {
            Some(bytes)
        },
        _ => None,
    }
}

/// The settings that hold once the command line has been taken in. `parsed` is
/// what became of the slice size, if one was given.
pub fn apply_args(args: &Args, parsed: Option<Result<u64, String>>) -> (r: AppConfig)
    ensures
        r.max_parallel == args.max_parallel,
        r.max_chunk == args.max_chunk,
        r.repo_type == args.repo_type,
        r.max_size == slice_limit(parsed),
        r.resumable == args.resumable,
{
    let max_size = match parsed {
        Some(Ok(bytes)) => if bytes == 0 {
            None
        } else {
            Some(bytes)
        },
        _ => None,
    };
    AppConfig {
        max_parallel: args.max_parallel,
        max_chunk: args.max_chunk,
        repo_type: args.repo_type.clone(),
        max_size,
        resumable: args.resumable,
    }
}

/// The value of the `Authorization` header, if there is an access token.
pub fn authorization(token: &str) -> (r: Option<String>)
    ensures
        r is None <==> token@.len() == 0,
        r matches Some(value) ==> value@ == "Bearer "@ + token@,
{
    if token.is_empty() {
        None
    } else {
        Some(text::join2("Bearer ", token))
    }
}

// ---------------------------------------------------------------------------
// Laws
// ---------------------------------------------------------------------------


/// Without a configuration file one file is fetched at a time, in four slices,
/// from a repository of models, by no slice size, and resumed.
pub proof fn law_default_settings(config: AppConfig)
    ensures
        is_default(config) <==> {
            &&& config.max_parallel == 1
            &&& config.max_chunk == 4
            &&& config.repo_type@ == "models"@
            &&& config.max_size is None
            &&& config.resumable
        },
        DEFAULT_MAX_PARALLEL == 1,
        DEFAULT_MAX_CHUNK == 7,
        DEFAULT_MAX_TRY == 10,
{
}

/// There are three types of repository.
pub proof fn law_three_types(lower: Seq<char>)
    ensures
        known_type(lower) <==> lower == "models"@ || lower == "datasets"@ || lower == "spaces"@,
{
}

/// A slice size that was read holds as it is, whatever it is, but for zero; one
/// that was not given or could not be read gives none.
pub proof fn law_slice_size_holds_as_it_was_read(bytes: u64, reason: String)
    ensures
        bytes > 0 ==> slice_limit(Some(Ok(bytes))) == Some(bytes),
        slice_limit(Some(Ok(0))) is None,
        slice_limit(Some(Err(reason))) is None,
        slice_limit(None) is None,
{
}

/// The configuration file is named after the program, wherever the program lies
/// and whatever its extension is.
pub proof fn law_configuration_is_named_after_the_program(
    args: Seq<String>,
    dir: Seq<char>,
    stem: Seq<char>,
    extension: Seq<char>,
)
    requires
        args.len() > 0,
        stem.len() > 0,
        forall|i: int| 0 <= i < stem.len() ==> #[trigger] stem[i] != '/',
        forall|i: int|
            0 <= i < extension.len() ==> #[trigger] extension[i] != '/' && extension[i] != '.',
        paths::plain_name(stem.push('.') + extension),
    ensures
        args[0]@ == dir.push('/') + (stem.push('.') + extension) ==> config_name(args) == stem
            + ".json"@,
        args[0]@ == stem.push('.') + extension ==> config_name(args) == stem + ".json"@,
        extension.len() > 0 && args[0]@ == dir.push('/') + extension ==> config_name(args)
            == extension + ".json"@,
        extension.len() > 0 && args[0]@ == extension ==> config_name(args) == extension + ".json"@,
        config_name(Seq::empty()) == "config"@ + ".json"@,
{
    paths::law_stem_stands_in_front_of_the_last_dot(dir, stem, extension);
}

/// The command line holds over everything else, as it was given.
pub proof fn law_command_line_holds(args: Args, parsed: Option<Result<u64, String>>, r: AppConfig)
    requires
        call_ensures(apply_args, (&args, parsed), r),
    ensures
        r.max_parallel == args.max_parallel,
        r.max_chunk == args.max_chunk,
        r.repo_type@ == args.repo_type@,
        r.resumable == args.resumable,
        r.max_size matches Some(max) ==> max > 0 && parsed == Some(Ok::<u64, String>(max)),
        r.max_size is None ==> !(parsed matches Some(Ok(bytes)) && bytes > 0),
{
}

/// A token is sent as it is, behind `Bearer`; without one nothing is sent.
pub proof fn law_token_is_sent_as_it_is(token: &str, r: Option<String>)
    requires
        call_ensures(authorization, (token,), r),
    ensures
        token@.len() == 0 ==> r is None,
        token@.len() > 0 ==> (r matches Some(value) && value@ == "Bearer "@ + token@),
{
}

/// Settings that were loaded hold as they are; without any the default ones do.
/// Nothing else in the context changes.
pub proof fn law_loaded_settings_hold(ctx: &mut AppContext, loaded: Option<AppConfig>)
    requires
        call_ensures(set_config, (ctx, loaded), ()),
    ensures
        loaded is Some ==> final(ctx).config == loaded,
        loaded is None ==> (final(ctx).config matches Some(c) && c.max_parallel == 1 && c.max_chunk
            == 4 && c.repo_type@ == "models"@ && c.max_size is None && c.resumable),
        final(ctx).is_running == old(ctx).is_running,
        final(ctx).json == old(ctx).json,
        final(ctx).taskwait == old(ctx).taskwait,
{
}

/// A new context is not running and holds nothing; running it changes just that.
pub proof fn law_new_context(ctx: &mut AppContext)
    requires
        call_ensures(AppContext::new, (), *old(ctx)),
        call_ensures(AppContext::run, (ctx,), ()),
    ensures
        !old(ctx).is_running,
        final(ctx).is_running,
        final(ctx).config is None,
        final(ctx).taskwait is None,
        final(ctx).json is None,
{
}

/// The three types are known in any mix of ASCII letters, and no others.
pub proof fn law_known_types_in_any_case(repo_type: &str, r: bool)
    requires
        vstd::utf8::is_ascii_chars(repo_type@),
        call_ensures(is_known_repo_type, (repo_type,), r),
    ensures
        r <==> text::lowered(repo_type@) == "models"@ || text::lowered(repo_type@) == "datasets"@
            || text::lowered(repo_type@) == "spaces"@,
{
}

}
