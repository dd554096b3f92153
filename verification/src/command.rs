//! The command line and what failed commands answer.

use crate::text::{is_text, text_in};
use vstd::prelude::*;

verus! {

/// A failed command as a value.
#[verifier::ext_equal]
pub struct FailureView {
    pub code: Seq<char>,
    pub message: Seq<char>,
}

/// A failure with a code and a message.
pub open spec fn failed(code: Seq<char>, message: Seq<char>) -> FailureView {
    FailureView { code, message }
}

/// Whether a check comes out as its refusal says.
pub open spec fn checked_by<T>(checked: Result<T, CommandFailure>, refusal: Option<FailureView>) -> bool {
    match refusal {
        None => checked is Ok,
        Some(failure) => checked is Err && checked->Err_0@ == failure,
    }
}

/// Why a command failed: a stable code and a message for people.
#[derive(Debug, PartialEq, Eq)]
pub struct CommandFailure {
    pub code: &'static str,
    pub message: String,
}

impl View for CommandFailure {
    type V = FailureView;

    open spec fn view(&self) -> FailureView {
        FailureView { code: self.code@, message: self.message@ }
    }
}

impl CommandFailure {
    /// A failure with a code and a message.
    pub fn new(code: &'static str, message: String) -> (failure: Self)
        ensures
            failure@ == failed(code@, message@),
    {
        CommandFailure { code, message }
    }

    /// A failure with a code and a fixed message.
    pub fn plain(code: &'static str, message: &str) -> (failure: Self)
        ensures
            failure@ == failed(code@, message@),
    {
        CommandFailure { code, message: message.to_owned() }
    }
}

/// How a command runs.
#[verifier::ext_equal]
pub struct OptionsView {
    pub timings: bool,
    pub cache_dir: Option<Seq<char>>,
    pub progress: Option<Seq<char>>,
    pub trusted_request: bool,
}

/// The options of a command that is given none.
pub open spec fn no_options() -> OptionsView {
    OptionsView { timings: false, cache_dir: None, progress: None, trusted_request: false }
}

/// How a command runs: whether it reports timings, where it keeps its cache,
/// which file it reports its progress to, and whether the request comes from a
/// caller that has checked it already.
#[derive(Debug, PartialEq, Eq)]
pub struct RuntimeOptions {
    pub timings: bool,
    pub cache_dir: Option<String>,
    pub progress: Option<String>,
    pub trusted_request: bool,
}

impl View for RuntimeOptions {
    type V = OptionsView;

    open spec fn view(&self) -> OptionsView {
        OptionsView {
            timings: self.timings,
            cache_dir: text_in(self.cache_dir),
            progress: text_in(self.progress),
            trusted_request: self.trusted_request,
        }
    }
}

impl RuntimeOptions {
    /// No option at all.
    pub fn disabled() -> (options: Self)
        ensures
            options@ == no_options(),
    {
        RuntimeOptions { timings: false, cache_dir: None, progress: None, trusted_request: false }
    }

    /// Whether no option is given.
    pub fn is_bare(&self) -> (bare: bool)
        ensures
            bare == (self@ == no_options()),
    {
        !self.timings && self.cache_dir.is_none() && self.progress.is_none()
            && !self.trusted_request
    }
}

/// The options that the arguments from `at` on give, where each may be given
/// once and nothing else may be given.
pub open spec fn options_from(args: Seq<String>, at: int, options: OptionsView) -> Option<
    OptionsView,
>
    decreases args.len() - at,
{
    if at >= args.len() {
        Some(options)
    } else if args[at]@ == "--timings"@ && !options.timings {
        options_from(
            args,
            at + 1,
            OptionsView {
                timings: true,
                cache_dir: options.cache_dir,
                progress: options.progress,
                trusted_request: options.trusted_request,
            },
        )
    } else if args[at]@ == "--cache-dir"@ && options.cache_dir is None && at + 1 < args.len() {
        options_from(
            args,
            at + 2,
            OptionsView {
                timings: options.timings,
                cache_dir: Some(args[at + 1]@),
                progress: options.progress,
                trusted_request: options.trusted_request,
            },
        )
    } else if args[at]@ == "--progress"@ && options.progress is None && at + 1 < args.len() {
        options_from(
            args,
            at + 2,
            OptionsView {
                timings: options.timings,
                cache_dir: options.cache_dir,
                progress: Some(args[at + 1]@),
                trusted_request: options.trusted_request,
            },
        )
    } else if args[at]@ == "--trusted-request"@ && !options.trusted_request {
        options_from(
            args,
            at + 1,
            OptionsView {
                timings: options.timings,
                cache_dir: options.cache_dir,
                progress: options.progress,
                trusted_request: true,
            },
        )
    } else {
        None
    }
}

/// Whether a name is that of a command on a request.
pub open spec fn is_request_command(name: Seq<char>) -> bool {
    name == "validate"@ || name == "score"@ || name == "route"@ || name == "bridge"@
}

/// Whether a command may take its request on trust.
pub open spec fn may_trust(name: Seq<char>) -> bool {
    name == "route"@ || name == "bridge"@
}

/// A command on a request.
#[verifier::ext_equal]
pub struct RequestCommandView {
    pub command: Seq<char>,
    pub path: Seq<char>,
    pub options: OptionsView,
}

/// A command on a request.
#[derive(Debug, PartialEq, Eq)]
pub struct RequestCommand {
    pub command: String,
    pub path: String,
    pub options: RuntimeOptions,
}

impl View for RequestCommand {
    type V = RequestCommandView;

    open spec fn view(&self) -> RequestCommandView {
        RequestCommandView {
            command: self.command@,
            path: self.path@,
            options: self.options@,
        }
    }
}

/// The command on a request that the arguments give, if they give one. Only
/// routing and bridging may take a request on trust.
pub open spec fn request_command(args: Seq<String>) -> Option<RequestCommandView> {
    if args.len() < 3 || args[1]@ != "--request"@ || !is_request_command(args[0]@) {
        None
    } else {
        match options_from(args, 3, no_options()) {
            None => None,
            Some(options) => if options.trusted_request && !may_trust(args[0]@) {
                None
            } else {
                Some(RequestCommandView { command: args[0]@, path: args[2]@, options })
            },
        }
    }
}

/// Reads a command on a request from the arguments.
pub fn parse_request_command(args: &[String]) -> (parsed: Option<RequestCommand>)
    ensures
        match request_command(args@) {
            Some(command) => parsed is Some && parsed->Some_0@ == command,
            None => parsed is None,
        },
{
    if args.len() < 3 || !is_text(args[1].as_str(), "--request") {
        return None;
    }
    let command = args[0].as_str();
    if !(is_text(command, "validate") || is_text(command, "score") || is_text(command, "route")
        || is_text(command, "bridge")) {
        return None;
    }
    let mut options = RuntimeOptions::disabled();
    let mut at: usize = 3;
    while at < args.len()
        invariant
            3 <= at <= args@.len(),
            args@[1]@ == "--request"@,
            is_request_command(args@[0]@),
            options_from(args@, 3, no_options()) == options_from(args@, at as int, options@),
        decreases args@.len() - at,
    {
        let argument = args[at].as_str();
        if is_text(argument, "--timings") && !options.timings {
            options.timings = true;
            at += 1;
        } else if is_text(argument, "--cache-dir") && options.cache_dir.is_none() && at + 1
            < args.len() {
            options.cache_dir = Some(args[at + 1].clone());
            at += 2;
        } else if is_text(argument, "--progress") && options.progress.is_none() && at + 1
            < args.len() {
            options.progress = Some(args[at + 1].clone());
            at += 2;
        } else if is_text(argument, "--trusted-request") && !options.trusted_request {
            options.trusted_request = true;
            at += 1;
        } else {
            return None;
        }
    }
    if options.trusted_request && !is_text(command, "route") && !is_text(command, "bridge") {
        return None;
    }
    Some(RequestCommand { command: args[0].clone(), path: args[2].clone(), options })
}

/// What the program is to do.
#[verifier::ext_equal]
pub enum ActionView {
    Validate(Seq<char>),
    Score(Seq<char>),
    Route(Seq<char>, OptionsView),
    Bridge(Seq<char>, OptionsView),
    Version,
    VersionJson,
    Usage,
}

/// What the program is to do.
#[derive(Debug, PartialEq, Eq)]
pub enum Action {
    Validate(String),
    Score(String),
    Route(String, RuntimeOptions),
    Bridge(String, RuntimeOptions),
    Version,
    VersionJson,
    Usage,
}

impl View for Action {
    type V = ActionView;

    open spec fn view(&self) -> ActionView {
        match self {
            Action::Validate(path) => ActionView::Validate(path@),
            Action::Score(path) => ActionView::Score(path@),
            Action::Route(path, options) => ActionView::Route(path@, options@),
            Action::Bridge(path, options) => ActionView::Bridge(path@, options@),
            Action::Version => ActionView::Version,
            Action::VersionJson => ActionView::VersionJson,
            Action::Usage => ActionView::Usage,
        }
    }
}

/// What the arguments ask for. Only routing and bridging take options.
pub open spec fn asked_action(args: Seq<String>) -> ActionView {
    match request_command(args) {
        Some(command) => {
            let bare = command.options == no_options();
            if command.command == "validate"@ && bare {
                ActionView::Validate(command.path)
            } else if command.command == "score"@ && bare {
                ActionView::Score(command.path)
            } else if command.command == "route"@ {
                ActionView::Route(command.path, command.options)
            } else if command.command == "bridge"@ {
                ActionView::Bridge(command.path, command.options)
            } else {
                ActionView::Usage
            }
        },
        None => if args.len() == 1 && args[0]@ == "version"@ {
            ActionView::Version
        } else if args.len() == 2 && args[0]@ == "version"@ && args[1]@ == "--json"@ {
            ActionView::VersionJson
        } else {
            ActionView::Usage
        },
    }
}

/// Decides what the arguments ask for.
pub fn decide_action(args: &[String]) -> (action: Action)
    ensures
        action@ == asked_action(args@),
{
    match parse_request_command(args) {
        Some(command) => {
            let bare: bool = command.options.is_bare();
            if is_text(command.command.as_str(), "validate") && bare {
                Action::Validate(command.path)
            } else if is_text(command.command.as_str(), "score") && bare {
                Action::Score(command.path)
            } else if is_text(command.command.as_str(), "route") {
                Action::Route(command.path, command.options)
            } else if is_text(command.command.as_str(), "bridge") {
                Action::Bridge(command.path, command.options)
            } else {
                Action::Usage
            }
        },
        None => {
            if args.len() == 1 && is_text(args[0].as_str(), "version") {
                Action::Version
            } else if args.len() == 2 && is_text(args[0].as_str(), "version") && is_text(
                args[1].as_str(),
                "--json",
            ) {
                Action::VersionJson
            } else {
                Action::Usage
            }
        },
    }
}

/// How the program is used.
pub fn usage() -> (text: &'static str)
    ensures
        text@
            == "Usage:\n  bliss-playlist-optimizer version [--json]\n  bliss-playlist-optimizer validate --request <request.json>\n  bliss-playlist-optimizer score --request <request.json>\n  bliss-playlist-optimizer route --request <request.json> [--timings] [--cache-dir <directory>] [--progress <progress.json>] [--trusted-request]\n  bliss-playlist-optimizer bridge --request <request.json> [--timings] [--cache-dir <directory>] [--progress <progress.json>] [--trusted-request]"@,
{
    "Usage:\n  bliss-playlist-optimizer version [--json]\n  bliss-playlist-optimizer validate --request <request.json>\n  bliss-playlist-optimizer score --request <request.json>\n  bliss-playlist-optimizer route --request <request.json> [--timings] [--cache-dir <directory>] [--progress <progress.json>] [--trusted-request]\n  bliss-playlist-optimizer bridge --request <request.json> [--timings] [--cache-dir <directory>] [--progress <progress.json>] [--trusted-request]"
}

/// How many workers a machine gives the program: all but one, and at least one.
pub fn default_parallel_workers(available: usize) -> (workers: usize)
    ensures
        workers == if available >= 2 {
            available - 1
        } else {
            1
        },
{
    if available >= 2 {
        available - 1
    } else {
        1
    }
}

} // verus!
