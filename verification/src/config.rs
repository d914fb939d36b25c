//! The command line: its options, what each command asks for, and the
//! rebuild rule of watch mode.
use vstd::prelude::*;

verus! {

/// The options of a build (also those given without a command).
pub struct Config {
    /// Launch the web dashboard instead of building.
    pub ui: bool,
    /// Folder of the Markdown sources.
    pub input: String,
    /// Folder of the generated site.
    pub output: String,
    /// Title of the site.
    pub title: String,
    /// Empty the output folder before building.
    pub clean: bool,
    /// Rebuild whenever the sources change.
    pub watch: bool,
    /// Scaffold sample pages in the input folder.
    pub init: bool,
}

/// The options of the web dashboard.
pub struct UiArgs {
    pub port: u16,
    pub host: String,
    /// Open a browser at start.
    pub open: bool,
    pub input: String,
    pub output: String,
    pub archive_dir: String,
    pub title: String,
}

/// The options of an archive run.
pub struct ArchiveArgs {
    /// Preferred name of the archive folder.
    pub name: String,
    pub archive_dir: String,
    pub input: String,
    pub output: String,
    /// Keep the input and output folders as they are after copying.
    pub no_clean: bool,
}

/// The commands.
pub enum Commands {
    Ui(UiArgs),
    Archive(ArchiveArgs),
    Build(Config),
}

/// The parsed command line: an optional command, and the build options
/// used when there is none.
pub struct Cli {
    pub command: Option<Commands>,
    pub build_args: Config,
}

/// What the program does.
pub enum Action {
    /// Serve the web dashboard.
    Serve(UiArgs),
    /// Archive the input and output folders.
    Archive(ArchiveArgs),
    /// Write the sample pages into the input folder, and stop.
    Scaffold(Config),
    /// Build, then rebuild on every change.
    Watch(Config),
    /// Build once.
    Build(Config),
}

/// The dashboard options that `--ui` on a build gives: port 3000 on
/// 127.0.0.1, a browser opened, the archive folder `archive`, and the
/// build's folders and title.
pub open spec fn is_ui_args_of(c: Config, u: UiArgs) -> bool {
    &&& u.port == 3000
    &&& u.host@ == "127.0.0.1"@
    &&& u.open
    &&& u.input@ == c.input@
    &&& u.output@ == c.output@
    &&& u.archive_dir@ == "archive"@
    &&& u.title@ == c.title@
}

/// What a build command with these options does: `--ui` serves the
/// dashboard, else `--init` scaffolds, else `--watch` watches, else it
/// builds once.
pub open spec fn is_build_action(c: Config, r: Action) -> bool {
    if c.ui {
        r matches Action::Serve(u) && is_ui_args_of(c, u)
    } else if c.init {
        r == Action::Scaffold(c)
    } else if c.watch {
        r == Action::Watch(c)
    } else {
        r == Action::Build(c)
    }
}

/// The dashboard options for a build started with `--ui`.
pub fn ui_args_from_config(config: &Config) -> (r: UiArgs)
    ensures
        is_ui_args_of(*config, r),
{
    UiArgs {
        port: 3000,
        host: String::from_str("127.0.0.1"),
        open: true,
        input: config.input.clone(),
        output: config.output.clone(),
        archive_dir: String::from_str("archive"),
        title: config.title.clone(),
    }
}

fn build_action(config: Config) -> (r: Action)
    ensures
        is_build_action(config, r),
{
    if config.ui {
        Action::Serve(ui_args_from_config(&config))
    } else if config.init {
        Action::Scaffold(config)
    } else if config.watch {
        Action::Watch(config)
    } else {
        Action::Build(config)
    }
}

/// Decides what the program does with its command line.
pub fn plan_command(cli: Cli) -> (r: Action)
    ensures
        match cli.command {
            Some(Commands::Ui(a)) => r == Action::Serve(a),
            Some(Commands::Archive(a)) => r == Action::Archive(a),
            Some(Commands::Build(c)) => is_build_action(c, r),
            None => is_build_action(cli.build_args, r),
        },
{
    match cli.command {
        Some(Commands::Ui(a)) => Action::Serve(a),
        Some(Commands::Archive(a)) => Action::Archive(a),
        Some(Commands::Build(c)) => build_action(c),
        None => build_action(cli.build_args),
    }
}

/// The build that the dashboard starts: its folders and title, nothing
/// cleaned, no watching, no scaffolding.
pub fn studio_build_config(args: &UiArgs) -> (r: Config)
    ensures
        !r.ui && !r.clean && !r.watch && !r.init,
        r.input@ == args.input@,
        r.output@ == args.output@,
        r.title@ == args.title@,
{
    Config {
        ui: false,
        input: args.input.clone(),
        output: args.output.clone(),
        title: args.title.clone(),
        clean: false,
        watch: false,
        init: false,
    }
}

/// The archive run that the dashboard starts under `name`: its folders, and
/// the input and output folders cleaned afterwards.
pub fn studio_archive_args(args: &UiArgs, name: String) -> (r: ArchiveArgs)
    ensures
        r.name == name,
        r.archive_dir@ == args.archive_dir@,
        r.input@ == args.input@,
        r.output@ == args.output@,
        !r.no_clean,
{
    ArchiveArgs {
        name,
        archive_dir: args.archive_dir.clone(),
        input: args.input.clone(),
        output: args.output.clone(),
        no_clean: false,
    }
}

// ---------------------------------------------------------------------------
// Watch mode
// ---------------------------------------------------------------------------

/// How long watch mode waits after a rebuild before it rebuilds again, in
/// nanoseconds (300 ms).
pub const DEBOUNCE_NANOS: u128 = 300_000_000;

/// Whether a file event starts a rebuild: an access never does; any other
/// event does once the debounce time has passed since the last rebuild.
pub fn should_rebuild(is_access: bool, nanos_since_rebuild: u128) -> (r: bool)
    ensures
        r == (!is_access && nanos_since_rebuild >= DEBOUNCE_NANOS),
{
    !is_access && nanos_since_rebuild >= DEBOUNCE_NANOS
}

} // verus!
