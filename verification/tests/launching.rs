use launcher::launch::{
    launch_background, launch_outcome, parse_bedrock_prefix, stratum_name, LaunchCommand,
    LaunchError,
};

fn argv(c: LaunchCommand) -> Vec<String> {
    let mut v = vec![c.program];
    v.extend(c.args);
    v
}

fn run(input: &str, stratum: Option<&str>) -> Vec<String> {
    argv(launch_background(input, stratum).unwrap())
}

#[test]
fn shortcuts_launch_in_their_stratum() {
    assert_eq!(
        run("arch:firefox", None),
        ["strat", "arch", "sh", "-c", "exec firefox"]
    );
    assert_eq!(
        run("deb:apt update", None),
        ["strat", "debian", "sh", "-c", "exec apt update"]
    );
    assert_eq!(
        run("fed:dnf upgrade", None),
        ["strat", "fedora", "sh", "-c", "exec dnf upgrade"]
    );
}

#[test]
fn shortcut_may_be_spaced_and_in_capitals() {
    assert_eq!(
        run("  DEB :  apt update ", None),
        ["strat", "debian", "sh", "-c", "exec apt update"]
    );
}

#[test]
fn command_with_any_other_prefix_runs_in_the_shell() {
    for command in [
        "curl http://x",
        "xdg-open https://e",
        "Void:xbps-install",
        "debian:apt update",
        "my arch:x",
        ":ls",
        "a:b:c",
    ] {
        assert_eq!(run(command, None), ["sh", "-c", command]);
    }
}

#[test]
fn shortcut_without_a_command_runs_in_the_shell() {
    assert_eq!(run(" arch: ", None), ["sh", "-c", "arch:"]);
}

#[test]
fn command_behind_a_shortcut_keeps_its_colons() {
    assert_eq!(
        run("arch:curl http://x", None),
        ["strat", "arch", "sh", "-c", "exec curl http://x"]
    );
}

#[test]
fn raw_command_runs_in_the_shell() {
    assert_eq!(run("  echo hi ", None), ["sh", "-c", "echo hi"]);
    assert_eq!(run("label:  ", None), ["sh", "-c", "label:"]);
}

#[test]
fn given_stratum_takes_the_command_as_it_is() {
    assert_eq!(
        run(" a:b c ", Some("arch")),
        ["strat", "arch", "sh", "-c", "exec a:b c"]
    );
}

#[test]
fn blank_command_is_an_error() {
    assert!(matches!(
        launch_background("", None),
        Err(LaunchError::EmptyCommand)
    ));
    assert!(matches!(
        launch_background(" \t\u{3000}", Some("arch")),
        Err(LaunchError::EmptyCommand)
    ));
}

#[test]
fn prefix_is_parted_from_its_command() {
    assert_eq!(
        parse_bedrock_prefix("arch:firefox"),
        (Some("arch".to_string()), "firefox")
    );
    assert_eq!(
        parse_bedrock_prefix(" Fed : dnf: x "),
        (Some("fedora".to_string()), "dnf: x")
    );
    assert_eq!(parse_bedrock_prefix(" firefox "), (None, "firefox"));
    assert_eq!(parse_bedrock_prefix(" deb: "), (None, "deb:"));
    assert_eq!(
        parse_bedrock_prefix(":x"),
        (Some(String::new()), "x")
    );
    assert_eq!(
        parse_bedrock_prefix("ÄÖ:größe"),
        (Some("äö".to_string()), "größe")
    );
}

#[test]
fn strata_have_short_names() {
    assert_eq!(stratum_name("arch"), "arch");
    assert_eq!(stratum_name("deb"), "debian");
    assert_eq!(stratum_name("fed"), "fedora");
    assert_eq!(stratum_name("gentoo"), "gentoo");
}

#[test]
fn launch_errors_in_words() {
    assert_eq!(LaunchError::EmptyCommand.message(), "empty command");
    assert!(launch_outcome(Ok(())).is_ok());
    let e = launch_outcome(Err("no such file".to_string())).unwrap_err();
    assert!(matches!(e, LaunchError::SpawnError(_)));
    assert_eq!(e.message(), "failed to spawn: no such file");
}
