use cargo_play::{CargoAction, CargoPlayError, CargoProfile, Opt, RustEdition};

fn opt_with(src: &[&str]) -> Opt {
    Opt {
        debug: false,
        clean: false,
        toolchain: None,
        src: src.iter().map(|s| String::from(*s)).collect(),
        edition: RustEdition::E2018,
        cached: false,
        cargo_action: None,
        cargo_option: None,
        save: None,
        infer: false,
        args: vec![],
    }
}

fn strings(items: &[&str]) -> Vec<String> {
    items.iter().map(|s| String::from(*s)).collect()
}

#[test]
fn editions_parse() {
    assert_eq!(RustEdition::from_str("2018").unwrap(), RustEdition::E2018);
    assert_eq!(RustEdition::from_str("2015").unwrap(), RustEdition::E2015);
    assert!(matches!(RustEdition::from_str("2021"), Err(CargoPlayError::InvalidEdition(s)) if s == "2021"));
    assert_eq!(RustEdition::default(), RustEdition::E2018);
    assert_eq!(RustEdition::E2015.into_string(), "2015");
}

#[test]
fn profiles_and_actions_parse() {
    assert_eq!(CargoProfile::from_str("release").unwrap(), CargoProfile::Release);
    assert_eq!(CargoProfile::from_str("debug").unwrap(), CargoProfile::Debug);
    assert_eq!(CargoProfile::from_str("profile").unwrap(), CargoProfile::Profile);
    assert!(matches!(CargoProfile::from_str("fast"), Err(CargoPlayError::InvalidCargoProfile(s)) if s == "fast"));
    assert_eq!(CargoAction::from_str("run-release").unwrap(), CargoAction::Run(CargoProfile::Release));
    assert_eq!(CargoAction::from_str("run:debug").unwrap(), CargoAction::Run(CargoProfile::Debug));
    assert_eq!(CargoAction::from_str("test").unwrap(), CargoAction::Test);
    assert!(matches!(CargoAction::from_str("run"), Err(CargoPlayError::InvalidCargoProfile(s)) if s.is_empty()));
    assert!(matches!(CargoAction::from_str("bench"), Err(CargoPlayError::InvalidCargoAction(s)) if s == "bench"));
    assert_eq!(CargoAction::default(), CargoAction::Run(CargoProfile::Debug));
}

#[test]
fn key_is_digest_of_sorted_paths() {
    let o = opt_with(&["/z/b.rs", "/a/main.rs"]);
    assert_eq!(o.src_hash(), "fRmKbtEN0XHr31f3WFCO2V15ZcE");
    assert_eq!(opt_with(&[]).src_hash(), "2jmj7l5rSw0yVb_vlWAYkK_YBwk");
}

#[test]
fn key_ignores_order_of_paths() {
    let a = opt_with(&["/x/main.rs", "/x/util/a.rs", "/x-y/b.rs"]);
    let b = opt_with(&["/x-y/b.rs", "/x/main.rs", "/x/util/a.rs"]);
    let c = opt_with(&["/x/util/a.rs", "/x-y/b.rs", "/x/main.rs"]);
    assert_eq!(a.src_hash(), b.src_hash());
    assert_eq!(a.src_hash(), c.src_hash());
    let d = opt_with(&["/x/main.rs", "/x/util/a.rs"]);
    assert_ne!(a.src_hash(), d.src_hash());
}

#[test]
fn temp_dirname_is_prefixed_key() {
    let o = opt_with(&["/z/b.rs", "/a/main.rs"]);
    assert_eq!(o.temp_dirname(), "cargo-play.fRmKbtEN0XHr31f3WFCO2V15ZcE");
}

#[test]
fn with_toolchain_sets_only_toolchain() {
    let o = opt_with(&["/a/main.rs"]).with_toolchain(Some(String::from("nightly")));
    assert_eq!(o.toolchain, Some(String::from("nightly")));
    assert_eq!(o.src, vec![String::from("/a/main.rs")]);
}

#[test]
fn parse_refuses_short_command_lines() {
    assert!(Opt::parse(strings(&["cargo-play"])).is_err());
    assert!(Opt::parse(vec![]).is_err());
}

#[test]
fn parse_drops_play_and_takes_toolchain() {
    let p = Opt::parse(strings(&["cargo-play", "play", "+nightly", "main.rs", "+beta"])).unwrap();
    assert_eq!(p.args, strings(&["play", "main.rs"]));
    assert_eq!(p.toolchain, Some(String::from("nightly")));
    let q = Opt::parse(strings(&["cargo-play", "main.rs", "--", "x"])).unwrap();
    assert_eq!(q.args, strings(&["cargo-play", "main.rs", "--", "x"]));
    assert_eq!(q.toolchain, None);
}

#[test]
fn split_and_joined_paths_get_different_keys() {
    let a = opt_with(&["/a", "/b"]);
    let b = opt_with(&["/a/b"]);
    assert_ne!(a.src_hash(), b.src_hash());
}

#[test]
fn key_is_a_single_directory_name() {
    let k = opt_with(&["/p/q.rs", "/p/r/s.rs"]).src_hash();
    assert_eq!(k.len(), 27);
    assert!(k.chars().all(|c| c.is_ascii_alphanumeric() || c == '-' || c == '_'));
}
