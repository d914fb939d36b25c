use mdrender::config::{
    plan_command, should_rebuild, studio_archive_args, studio_build_config, ui_args_from_config,
    Action, ArchiveArgs, Cli, Commands, Config, UiArgs, DEBOUNCE_NANOS,
};

fn config(ui: bool, watch: bool, init: bool) -> Config {
    Config {
        ui,
        input: "in".to_string(),
        output: "out".to_string(),
        title: "T".to_string(),
        clean: false,
        watch,
        init,
    }
}

fn ui_args() -> UiArgs {
    UiArgs {
        port: 8080,
        host: "0.0.0.0".to_string(),
        open: false,
        input: "i".to_string(),
        output: "o".to_string(),
        archive_dir: "arch".to_string(),
        title: "Site".to_string(),
    }
}

#[test]
fn ui_flag_opens_dashboard() {
    let u = ui_args_from_config(&config(true, false, false));
    assert_eq!(u.port, 3000);
    assert_eq!(u.host, "127.0.0.1");
    assert!(u.open);
    assert_eq!(u.input, "in");
    assert_eq!(u.output, "out");
    assert_eq!(u.archive_dir, "archive");
    assert_eq!(u.title, "T");
}

#[test]
fn commands_choose_actions() {
    let cli = Cli { command: None, build_args: config(false, false, false) };
    assert!(matches!(plan_command(cli), Action::Build(_)));
    let cli = Cli { command: None, build_args: config(false, true, false) };
    assert!(matches!(plan_command(cli), Action::Watch(_)));
    let cli = Cli { command: None, build_args: config(false, true, true) };
    assert!(matches!(plan_command(cli), Action::Scaffold(_)));
    let cli = Cli { command: None, build_args: config(true, true, true) };
    assert!(matches!(plan_command(cli), Action::Serve(u) if u.port == 3000));
    let cli = Cli { command: Some(Commands::Build(config(false, false, true))), build_args: config(true, false, false) };
    assert!(matches!(plan_command(cli), Action::Scaffold(c) if c.input == "in"));
    let cli = Cli { command: Some(Commands::Ui(ui_args())), build_args: config(false, false, false) };
    assert!(matches!(plan_command(cli), Action::Serve(u) if u.port == 8080));
    let args = ArchiveArgs {
        name: "N".to_string(),
        archive_dir: "a".to_string(),
        input: "i".to_string(),
        output: "o".to_string(),
        no_clean: true,
    };
    let cli = Cli { command: Some(Commands::Archive(args)), build_args: config(false, false, false) };
    assert!(matches!(plan_command(cli), Action::Archive(a) if a.no_clean && a.name == "N"));
}

#[test]
fn dashboard_build_and_archive_options() {
    let c = studio_build_config(&ui_args());
    assert!(!c.ui && !c.clean && !c.watch && !c.init);
    assert_eq!((c.input.as_str(), c.output.as_str(), c.title.as_str()), ("i", "o", "Site"));
    let a = studio_archive_args(&ui_args(), "Notes".to_string());
    assert_eq!(a.name, "Notes");
    assert_eq!(a.archive_dir, "arch");
    assert!(!a.no_clean);
}

#[test]
fn rebuild_debounce() {
    assert_eq!(DEBOUNCE_NANOS, 300_000_000);
    assert!(!should_rebuild(true, 10_000_000_000));
    assert!(!should_rebuild(false, 299_999_999));
    assert!(should_rebuild(false, 300_000_000));
}
