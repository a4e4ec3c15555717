use cargo_play::{CargoManifest, CargoPackage, CargoPlayError, Dependency, RustEdition};
use toml::value::{Table, Value};

fn build(s: &str) -> Dependency {
    Dependency::Build(String::from(s))
}

fn test_dep(s: &str) -> Dependency {
    Dependency::Test(String::from(s))
}

fn keys(t: &Table) -> Vec<String> {
    let mut k: Vec<String> = t.keys().cloned().collect();
    k.sort();
    k
}

fn value<'a>(t: &'a Table, name: &str) -> &'a Value {
    t.get(name).unwrap()
}

#[test]
fn package_name_is_lower_cased() {
    let p = CargoPackage::new(String::from("MyTool"), RustEdition::E2015);
    assert_eq!(p.name, "mytool");
    assert_eq!(p.version, "0.1.0");
    assert_eq!(p.edition, "2015");
}

#[test]
fn manifest_holds_both_tables() {
    let deps = vec![
        build("serde = \"1.0\""),
        build("rand = { version = \"0.8\", features = [\"small_rng\"] }"),
        test_dep("criterion = \"*\""),
    ];
    let m = CargoManifest::new(String::from("Key"), deps, RustEdition::E2018).unwrap();
    assert_eq!(m.package.name, "key");
    assert_eq!(m.package.edition, "2018");
    assert_eq!(keys(&m.dependencies), vec!["rand", "serde"]);
    assert_eq!(keys(&m.dev_dependencies), vec!["criterion"]);
    {
        let v = value(&m.dependencies, "serde");
        assert_eq!(v.as_str(), Some("1.0"));
    }
    {
        let v = value(&m.dependencies, "rand");
        assert!(v.is_table());
    }
}

#[test]
fn later_declaration_of_a_name_wins() {
    let deps = vec![build("a = \"1\""), build("a = \"2\"")];
    let m = CargoManifest::new(String::from("k"), deps, RustEdition::E2018).unwrap();
    assert_eq!(m.dependencies.len(), 1);
    {
        let v = value(&m.dependencies, "a");
        assert_eq!(v.as_str(), Some("2"));
    }
}

#[test]
fn malformed_fragment_is_a_toml_error() {
    let deps = vec![build("serde = \"1.0\""), build("this is not toml")];
    let r = CargoManifest::new(String::from("k"), deps, RustEdition::E2018);
    assert!(matches!(r, Err(CargoPlayError::TomlError(_))));
}

#[test]
fn malformed_test_fragment_is_a_toml_error() {
    let deps = vec![build("serde = \"1.0\""), test_dep("= 3")];
    let r = CargoManifest::new(String::from("k"), deps, RustEdition::E2018);
    assert!(matches!(r, Err(CargoPlayError::TomlError(_))));
}

#[test]
fn crate_names_are_normalised() {
    assert_eq!(CargoManifest::normalize_crate_name("serde-json"), "serde_json");
    assert_eq!(CargoManifest::normalize_crate_name("a-b-c-"), "a_b_c_");
    assert_eq!(CargoManifest::normalize_crate_name("plain"), "plain");
    assert_eq!(CargoManifest::normalize_crate_name(""), "");
}

#[test]
fn inferred_names_never_replace_declared_ones() {
    let deps = vec![build("serde-json = \"1.0\""), build("log = \"0.4\"")];
    let mut m = CargoManifest::new(String::from("k"), deps, RustEdition::E2018).unwrap();
    m.add_infers(vec![String::from("serde_json"), String::from("log"), String::from("rand")]);
    assert_eq!(keys(&m.dependencies), vec!["log", "rand", "serde-json"]);
    {
        let v = value(&m.dependencies, "serde-json");
        assert_eq!(v.as_str(), Some("1.0"));
    }
    {
        let v = value(&m.dependencies, "log");
        assert_eq!(v.as_str(), Some("0.4"));
    }
    assert_eq!(value(&m.dependencies, "rand"), &Value::String(String::from("*")));
    m.add_infers(vec![String::from("rand")]);
    assert_eq!(m.dependencies.len(), 3);
}

#[test]
fn normalized_dependencies_lists_build_names() {
    let deps = vec![build("serde-json = \"1.0\""), test_dep("dev-only = \"1\"")];
    let m = CargoManifest::new(String::from("k"), deps, RustEdition::E2018).unwrap();
    assert_eq!(m.normalized_dependencies(), vec![String::from("serde_json")]);
}

#[test]
fn inferred_hyphenated_name_keeps_declared_value() {
    let deps = vec![build("a-b = \"1.0\"")];
    let mut m = CargoManifest::new(String::from("k"), deps, RustEdition::E2018).unwrap();
    m.add_infers(vec![String::from("a-b"), String::from("a_b")]);
    assert_eq!(keys(&m.dependencies), vec!["a-b"]);
    {
        let v = value(&m.dependencies, "a-b");
        assert_eq!(v.as_str(), Some("1.0"));
    }
}
