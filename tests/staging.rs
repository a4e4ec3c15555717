use cargo_play::{
    cached_binary, cargo_args, run_action, check_export_destination, exit_code, source_layout, temp_dir,
    CargoAction, CargoPlayError, CargoProfile,
};

fn strings(items: &[&str]) -> Vec<String> {
    items.iter().map(|s| String::from(*s)).collect()
}

fn pair(a: &str, b: &str) -> (String, String) {
    (String::from(a), String::from(b))
}

#[test]
fn layout_keeps_subdirectories() {
    let l = source_layout("/tmp/stage", &strings(&["/a/b/main.src", "/a/b/c/helper.src"])).unwrap();
    assert_eq!(
        l,
        vec![
            pair("/a/b/main.src", "/tmp/stage/src/main.rs"),
            pair("/a/b/c/helper.src", "/tmp/stage/src/c/helper.src"),
        ]
    );
}

#[test]
fn layout_of_files_outside_entry_directory() {
    let l = source_layout("/t", &strings(&["/a/b/main.rs", "/a/x.rs"])).unwrap();
    assert_eq!(l[1], pair("/a/x.rs", "/t/src/../x.rs"));
}

#[test]
fn layout_of_nothing_is_empty() {
    assert!(source_layout("/t", &vec![]).unwrap().is_empty());
}

#[test]
fn relative_file_against_absolute_entry_fails() {
    let r = source_layout("/t", &strings(&["/a/main.rs", "/a/ok.rs", "rel.rs", "other.rs"]));
    assert!(matches!(r, Err(CargoPlayError::DiffPathError(f)) if f == "rel.rs"));
}

#[test]
fn temp_dir_joins_root_and_name() {
    assert_eq!(temp_dir("/tmp", "cargo-play.k"), "/tmp/cargo-play.k");
    assert_eq!(temp_dir("/tmp/", "cargo-play.k"), "/tmp/cargo-play.k");
}

#[test]
fn cargo_arguments_for_release_run() {
    let a = cargo_args(
        Some(String::from("nightly")),
        "/t/p",
        CargoAction::Run(CargoProfile::Release),
        Some(String::from("  --quiet \t--locked ")),
        &strings(&["x", "y"]),
    );
    assert_eq!(
        a,
        strings(&["+nightly", "run", "--release", "--manifest-path", "/t/p/Cargo.toml", "--quiet", "--locked", "--", "x", "y"])
    );
}

#[test]
fn cargo_arguments_for_test_and_debug() {
    let a = cargo_args(None, "/p", CargoAction::Test, None, &vec![]);
    assert_eq!(a, strings(&["test", "--manifest-path", "/p/Cargo.toml", "--"]));
    let b = cargo_args(None, "/p", CargoAction::Run(CargoProfile::Debug), None, &vec![]);
    assert_eq!(b, strings(&["run", "--manifest-path", "/p/Cargo.toml", "--"]));
    let c = cargo_args(None, "/p", CargoAction::Run(CargoProfile::Profile), None, &vec![]);
    assert_eq!(c, strings(&["--manifest-path", "/p/Cargo.toml", "--"]));
}

#[test]
fn export_to_existing_directory_is_refused() {
    let to = String::from("/out/project");
    assert!(matches!(check_export_destination(&to, true), Err(CargoPlayError::PathExistError(p)) if p == "/out/project"));
    assert!(check_export_destination(&to, false).is_ok());
}

#[test]
fn exit_codes_pass_through() {
    assert_eq!(exit_code(Some(3)), 3);
    assert_eq!(exit_code(Some(0)), 0);
    assert_eq!(exit_code(None), -1);
}

#[test]
fn cached_binary_path_follows_profile() {
    assert_eq!(
        cached_binary("/t/s", Some(CargoAction::Run(CargoProfile::Release)), "AbC-d"),
        "/t/s/target/release/abc-d"
    );
    assert_eq!(
        cached_binary("/t/s", Some(CargoAction::Run(CargoProfile::Debug)), "K"),
        "/t/s/target/debug/k"
    );
    assert_eq!(cached_binary("/t/s", None, "K"), "/t/s/target/k");
}

#[test]
fn run_action_follows_release_flag() {
    assert_eq!(run_action(true), CargoAction::Run(CargoProfile::Release));
    assert_eq!(run_action(false), CargoAction::Run(CargoProfile::Debug));
}
