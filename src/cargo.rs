//! The manifest synthesised for the staged project.
use vstd::prelude::*;
use vstd::string::*;
use crate::errors::CargoPlayError;
use crate::opt::{Dependency, RustEdition};
use crate::paths::views;
use crate::table::{string_value, table_entries, table_extend, table_insert, table_keys, table_new, text_value};
use crate::text::{lower_of, lowercase, same_text};

verus! {

/// What toml makes of a header fragment: `None` where it does not parse,
/// `Some(None)` where it parses to something other than a table, and otherwise
/// the table's entries.
pub uninterp spec fn parsed_fragment(s: Seq<char>) -> Option<Option<Map<Seq<char>, toml::Value>>>;

/// Relies on toml's `FromStr for Value` (`toml::from_str`): the parsed value, and
/// for a table the table itself.
#[verifier::external_body]
fn parse_fragment(s: &str) -> (r: Result<Option<toml::map::Map<String, toml::Value>>, toml::de::Error>)
    ensures
        match r {
            Err(_) => parsed_fragment(s@) is None,
            Ok(None) => parsed_fragment(s@) == Some(None::<Map<Seq<char>, toml::Value>>),
            Ok(Some(t)) => parsed_fragment(s@) == Some(Some(table_entries(t))),
        },
{
    match s.parse::<toml::Value>() {
        Ok(toml::Value::Table(t)) => Ok(Some(t)),
        Ok(_) => Ok(None),
        Err(e) => Err(e),
    }
}

/// The declarations of the dependencies of one kind, in order.
pub open spec fn selected(deps: Seq<Dependency>, test: bool) -> Seq<Seq<char>>
    decreases deps.len(),
{
    if deps.len() == 0 {
        Seq::empty()
    } else if deps.last().is_test() == test {
        selected(deps.drop_last(), test).push(deps.last().declaration())
    } else {
        selected(deps.drop_last(), test)
    }
}

/// Some declaration does not parse.
pub open spec fn any_unparsable(ds: Seq<Seq<char>>) -> bool {
    exists|i: int| 0 <= i < ds.len() && parsed_fragment(#[trigger] ds[i]) is None
}

/// Some declaration parses to something other than a table.
pub open spec fn any_not_table(ds: Seq<Seq<char>>) -> bool {
    exists|i: int|
        0 <= i < ds.len() && parsed_fragment(#[trigger] ds[i]) == Some(
            None::<Map<Seq<char>, toml::Value>>,
        )
}

/// The table of one parsed declaration.
pub open spec fn fragment_table(d: Seq<char>) -> Map<Seq<char>, toml::Value> {
    match parsed_fragment(d) {
        Some(Some(m)) => m,
        _ => Map::empty(),
    }
}

/// The dependency table that a list of declarations gives: each one's entries,
/// where a later name replaces an earlier one.
pub open spec fn merged(ds: Seq<Seq<char>>) -> Map<Seq<char>, toml::Value>
    decreases ds.len(),
{
    if ds.len() == 0 {
        Map::empty()
    } else {
        merged(ds.drop_last()).union_prefer_right(fragment_table(ds.last()))
    }
}

proof fn lemma_selected_step(deps: Seq<Dependency>, i: int, test: bool)
    requires
        0 <= i < deps.len(),
    ensures
        selected(deps.subrange(0, i + 1), test) == if deps[i].is_test() == test {
            selected(deps.subrange(0, i), test).push(deps[i].declaration())
        } else {
            selected(deps.subrange(0, i), test)
        },
{
    assert(deps.subrange(0, i + 1).drop_last() =~= deps.subrange(0, i));
}

/// The declarations selected from a prefix are a prefix of those selected from the whole.
proof fn lemma_selected_prefix(deps: Seq<Dependency>, j: int, test: bool)
    requires
        0 <= j <= deps.len(),
    ensures
        selected(deps.subrange(0, j), test).len() <= selected(deps, test).len(),
        forall|k: int| 0 <= k < selected(deps.subrange(0, j), test).len()
            ==> selected(deps, test)[k] == #[trigger] selected(deps.subrange(0, j), test)[k],
    decreases deps.len(),
{
    if j == deps.len() {
        assert(deps.subrange(0, j) =~= deps);
    } else {
        lemma_selected_prefix(deps.drop_last(), j, test);
        assert(deps.drop_last().subrange(0, j) =~= deps.subrange(0, j));
    }
}

/// The declarations of one kind, each parsed.
fn parse_selected(deps: &Vec<Dependency>, test: bool) -> (r: Result<Vec<toml::map::Map<String, toml::Value>>, CargoPlayError>)
    ensures
        any_unparsable(selected(deps@, test)) <==> r matches Err(CargoPlayError::TomlError(_)),
        !any_unparsable(selected(deps@, test)) && any_not_table(selected(deps@, test))
            <==> r matches Err(CargoPlayError::ParseError(_)),
        r is Err ==> (r matches Err(CargoPlayError::TomlError(_)) || r matches Err(CargoPlayError::ParseError(_))),
        r matches Ok(ps) ==> {
            &&& ps@.len() == selected(deps@, test).len()
            &&& forall|k: int| 0 <= k < ps@.len() ==> parsed_fragment(selected(deps@, test)[k])
                == Some(Some(table_entries(#[trigger] ps@[k])))
        },
{
    let mut out: Vec<toml::map::Map<String, toml::Value>> = Vec::new();
    let mut not_table = false;
    let mut i: usize = 0;
    while i < deps.len()
        invariant
            i <= deps@.len(),
            !any_unparsable(selected(deps@.subrange(0, i as int), test)),
            not_table == any_not_table(selected(deps@.subrange(0, i as int), test)),
            !not_table ==> {
                &&& out@.len() == selected(deps@.subrange(0, i as int), test).len()
                &&& forall|k: int| 0 <= k < out@.len() ==> parsed_fragment(selected(deps@.subrange(0, i as int), test)[k])
                    == Some(Some(table_entries(#[trigger] out@[k])))
            },
        decreases deps@.len() - i,
    {
        proof {
            lemma_selected_step(deps@, i as int, test);
        }
        let ghost prev = selected(deps@.subrange(0, i as int), test);
        let ghost next = selected(deps@.subrange(0, i + 1), test);
        let chosen = match &deps[i] {
            Dependency::Build(s) => if test { None } else { Some(s) },
            Dependency::Test(s) => if test { Some(s) } else { None },
        };
        match chosen {
            None => {},
            Some(s) => {
                assert(next == prev.push(s@));
                match parse_fragment(s.as_str()) {
                    Err(e) => {
                        assert(next[prev.len() as int] == s@);
                        proof {
                            lemma_selected_prefix(deps@, i + 1, test);
                            assert(selected(deps@, test)[prev.len() as int] == s@);
                        }
                        return Err(CargoPlayError::TomlError(e));
                    },
                    Ok(None) => {
                        not_table = true;
                        assert(next[prev.len() as int] == s@);
                    },
                    Ok(Some(t)) => {
                        if !not_table {
                            out.push(t);
                        }
                    },
                }
                proof {
                    assert forall|k: int| 0 <= k < prev.len() implies next[k] == prev[k] by {}
                    if any_not_table(prev) {
                        let k = choose|k: int| 0 <= k < prev.len() && parsed_fragment(#[trigger] prev[k]) == Some(None::<Map<Seq<char>, toml::Value>>);
                        assert(next[k] == prev[k]);
                    }
                    if any_unparsable(next) {
                        let k = choose|k: int| 0 <= k < next.len() && parsed_fragment(#[trigger] next[k]) is None;
                        if k < prev.len() {
                            assert(next[k] == prev[k]);
                        }
                    }
                    if any_not_table(next) && !any_not_table(prev) {
                        let k = choose|k: int| 0 <= k < next.len() && parsed_fragment(#[trigger] next[k]) == Some(None::<Map<Seq<char>, toml::Value>>);
                        if k < prev.len() {
                            assert(next[k] == prev[k]);
                        }
                    }
                }
            },
        }
        i = i + 1;
    }
    proof {
        assert(deps@.subrange(0, deps@.len() as int) =~= deps@);
    }
    if not_table {
        proof {
            reveal_strlit("format error!");
        }
        return Err(CargoPlayError::ParseError(String::from_str("format error!")));
    }
    Ok(out)
}

/// The declarations of one kind, merged into one dependency table.
fn deserialize_deps(deps: &Vec<Dependency>, test: bool) -> (r: Result<toml::map::Map<String, toml::Value>, CargoPlayError>)
    ensures
        any_unparsable(selected(deps@, test)) <==> r matches Err(CargoPlayError::TomlError(_)),
        !any_unparsable(selected(deps@, test)) && any_not_table(selected(deps@, test))
            <==> r matches Err(CargoPlayError::ParseError(_)),
        r is Err ==> (r matches Err(CargoPlayError::TomlError(_)) || r matches Err(CargoPlayError::ParseError(_))),
        r matches Ok(t) ==> table_entries(t) == merged(selected(deps@, test)),
{
    let ghost ds = selected(deps@, test);
    let mut ps = match parse_selected(deps, test) {
        Ok(ps) => ps,
        Err(e) => return Err(e),
    };
    let ghost orig = ps@;
    let n = ps.len();
    let mut out = table_new();
    let mut i: usize = 0;
    proof {
        assert(ps@ =~= orig.subrange(0, n as int));
    }
    while i < n
        invariant
            n == orig.len(),
            n == ds.len(),
            i <= n,
            ps@ == orig.subrange(i as int, n as int),
            forall|k: int| 0 <= k < n ==> parsed_fragment(ds[k]) == Some(Some(table_entries(#[trigger] orig[k]))),
            table_entries(out) == merged(ds.subrange(0, i as int)),
        decreases n - i,
    {
        let e = ps.remove(0);
        assert(e == orig[i as int]);
        assert(fragment_table(ds[i as int]) == table_entries(e));
        table_extend(&mut out, e);
        proof {
            assert(ds.subrange(0, i + 1).drop_last() =~= ds.subrange(0, i as int));
            assert(ps@ =~= orig.subrange(i + 1, n as int));
        }
        i = i + 1;
    }
    proof {
        assert(ds.subrange(0, n as int) =~= ds);
    }
    Ok(out)
}

/// The version that every synthesised package has.
pub open spec fn text_version() -> Seq<char> {
    seq!['0', '.', '1', '.', '0']
}

/// The identity of the synthesised package.
#[derive(Debug)]
pub struct CargoPackage {
    pub name: String,
    pub version: String,
    pub edition: String,
}

impl CargoPackage {
    /// A package of the given name, lower-cased, at version `0.1.0`.
    pub fn new(name: String, edition: RustEdition) -> (r: Self)
        ensures
            r.name@ == lower_of(name@),
            r.version@ == text_version(),
            r.edition@ == edition.spec_text(),
    {
        proof {
            reveal_strlit("0.1.0");
        }
        CargoPackage {
            name: lowercase(name.as_str()),
            version: String::from_str("0.1.0"),
            edition: edition.into_string(),
        }
    }
}

/// No declaration of the list fails to parse as a table.
pub open spec fn all_tables(ds: Seq<Seq<char>>) -> bool {
    !any_unparsable(ds) && !any_not_table(ds)
}

/// A crate name with each hyphen made an underscore.
pub open spec fn normalized(name: Seq<char>) -> Seq<char> {
    name.map_values(|c: char| if c == '-' { '_' } else { c })
}

/// The normalised names of a table's entries.
pub open spec fn normalized_names(m: Map<Seq<char>, toml::Value>) -> Set<Seq<char>> {
    m.dom().map(|k: Seq<char>| normalized(k))
}

/// The value of a dependency on any version: the string `"*"`.
pub open spec fn any_version() -> toml::Value {
    text_value(seq!['*'])
}

/// A table after the inferred names are merged in: each name whose normalised
/// form `existing` does not hold is set to any version.
pub open spec fn with_infers(
    m: Map<Seq<char>, toml::Value>,
    existing: Set<Seq<char>>,
    names: Seq<Seq<char>>,
) -> Map<Seq<char>, toml::Value>
    decreases names.len(),
{
    if names.len() == 0 {
        m
    } else if existing.contains(normalized(names.last())) {
        with_infers(m, existing, names.drop_last())
    } else {
        with_infers(m, existing, names.drop_last()).insert(names.last(), any_version())
    }
}

/// The manifest of the staged project.
#[derive(Debug)]
pub struct CargoManifest {
    pub package: CargoPackage,
    pub dependencies: toml::map::Map<String, toml::Value>,
    pub dev_dependencies: toml::map::Map<String, toml::Value>,
}

impl CargoManifest {
    /// The manifest of a package: its build and test tables are the merged
    /// declarations of the build and test dependencies. The first declaration
    /// that does not parse fails it with toml's error (build ones before test
    /// ones); where all parse but one is no table, it fails with a parse error.
    pub fn new(name: String, dependencies: Vec<Dependency>, edition: RustEdition) -> (r: Result<Self, CargoPlayError>)
        ensures
            r is Ok <==> all_tables(selected(dependencies@, false)) && all_tables(selected(dependencies@, true)),
            any_unparsable(selected(dependencies@, false)) ==> r matches Err(CargoPlayError::TomlError(_)),
            !any_unparsable(selected(dependencies@, false)) && any_not_table(selected(dependencies@, false))
                ==> r matches Err(CargoPlayError::ParseError(_)),
            all_tables(selected(dependencies@, false)) && any_unparsable(selected(dependencies@, true))
                ==> r matches Err(CargoPlayError::TomlError(_)),
            all_tables(selected(dependencies@, false)) && !any_unparsable(selected(dependencies@, true))
                && any_not_table(selected(dependencies@, true))
                ==> r matches Err(CargoPlayError::ParseError(_)),
            r matches Ok(m) ==> {
                &&& m.package.name@ == lower_of(name@)
                &&& m.package.version@ == text_version()
                &&& m.package.edition@ == edition.spec_text()
                &&& table_entries(m.dependencies) == merged(selected(dependencies@, false))
                &&& table_entries(m.dev_dependencies) == merged(selected(dependencies@, true))
            },
    {
        let deps = match deserialize_deps(&dependencies, false) {
            Ok(t) => t,
            Err(e) => return Err(e),
        };
        let dev = match deserialize_deps(&dependencies, true) {
            Ok(t) => t,
            Err(e) => return Err(e),
        };
        Ok(CargoManifest {
            package: CargoPackage::new(name, edition),
            dependencies: deps,
            dev_dependencies: dev,
        })
    }

    /// The crate name with each hyphen made an underscore.
    pub fn normalize_crate_name(name: &str) -> (r: String)
        ensures
            r@ == normalized(name@),
    {
        let n = name.unicode_len();
        let mut out = String::new();
        let mut start: usize = 0;
        let mut i: usize = 0;
        proof {
            reveal_strlit("_");
            assert(normalized(name@.subrange(0, 0)) =~= out@);
        }
        while i < n
            invariant
                n == name@.len(),
                start <= i <= n,
                out@ == normalized(name@.subrange(0, start as int)),
                forall|k: int| start <= k < i ==> name@[k] != '-',
            decreases n - i,
        {
            if name.get_char(i) == '-' {
                let piece = name.substring_char(start, i);
                let ghost before = out@;
                out.append(piece);
                out.append("_");
                proof {
                    reveal_strlit("_");
                    assert("_"@ =~= seq!['_']);
                    assert(out@ == before + piece@ + seq!['_']);
                    let ghost want = normalized(name@.subrange(0, i + 1));
                    assert forall|k: int| 0 <= k < want.len() implies out@[k] == want[k] by {
                        if k < start {
                            assert(before[k] == normalized(name@.subrange(0, start as int))[k]);
                        } else if k < i {
                            assert(out@[k] == piece@[k - start]);
                        }
                    }
                    assert(out@ =~= want);
                }
                start = i + 1;
            }
            i = i + 1;
        }
        let piece = name.substring_char(start, n);
        out.append(piece);
        proof {
            let ghost want = normalized(name@.subrange(0, n as int));
            assert forall|k: int| 0 <= k < want.len() implies out@[k] == want[k] by {
                if k >= start {
                    assert(out@[k] == piece@[k - start]);
                }
            }
            assert(out@ =~= want);
            assert(name@.subrange(0, n as int) =~= name@);
        }
        out
    }

    /// The normalised names of the build dependencies.
    pub fn normalized_dependencies(&self) -> (r: Vec<String>)
        ensures
            forall|n: Seq<char>| #[trigger] views(r@).contains(n)
                <==> normalized_names(table_entries(self.dependencies)).contains(n),
    {
        let keys = table_keys(&self.dependencies);
        let ghost dom = table_entries(self.dependencies).dom();
        let mut out: Vec<String> = Vec::new();
        let mut i: usize = 0;
        while i < keys.len()
            invariant
                i <= keys@.len(),
                forall|k: Seq<char>| dom.contains(k) <==> #[trigger] views(keys@).contains(k),
                views(out@) == views(keys@).subrange(0, i as int).map_values(|k: Seq<char>| normalized(k)),
            decreases keys@.len() - i,
        {
            let name = Self::normalize_crate_name(keys[i].as_str());
            let ghost before = views(out@);
            out.push(name);
            proof {
                assert(views(out@) =~= before.push(name@));
                assert(views(keys@).subrange(0, i + 1).map_values(|k: Seq<char>| normalized(k))
                    =~= views(keys@).subrange(0, i as int).map_values(|k: Seq<char>| normalized(k)).push(normalized(keys@[i as int]@)));
            }
            i = i + 1;
        }
        proof {
            let vk = views(keys@);
            assert(vk.subrange(0, i as int) =~= vk);
            let ns = normalized_names(table_entries(self.dependencies));
            assert forall|n: Seq<char>| #[trigger] views(out@).contains(n) <==> ns.contains(n) by {
                if views(out@).contains(n) {
                    let j = choose|j: int| 0 <= j < views(out@).len() && views(out@)[j] == n;
                    assert(vk.contains(vk[j]));
                    assert(dom.contains(vk[j]));
                }
                if ns.contains(n) {
                    let k = choose|k: Seq<char>| dom.contains(k) && normalized(k) == n;
                    assert(vk.contains(k));
                    let j = choose|j: int| 0 <= j < vk.len() && vk[j] == k;
                    assert(views(out@)[j] == n);
                }
            }
        }
        out
    }

    /// Adds each inferred name whose normalised form no build dependency has,
    /// normalised, as a build dependency on any version. Existing entries are
    /// kept as they are.
    pub fn add_infers(&mut self, infers: Vec<String>)
        ensures
            final(self).package == old(self).package,
            final(self).dev_dependencies == old(self).dev_dependencies,
            table_entries(final(self).dependencies) == with_infers(
                table_entries(old(self).dependencies),
                normalized_names(table_entries(old(self).dependencies)),
                views(infers@),
            ),
    {
        let existing = self.normalized_dependencies();
        let ghost ex = normalized_names(table_entries(self.dependencies));
        let ghost start = table_entries(self.dependencies);
        let ghost names = views(infers@);
        proof {
            reveal_strlit("*");
            assert("*"@ =~= seq!['*']);
        }
        let mut i: usize = 0;
        while i < infers.len()
            invariant
                i <= infers@.len(),
                names == views(infers@),
                forall|n: Seq<char>| #[trigger] views(existing@).contains(n) <==> ex.contains(n),
                "*"@ == seq!['*'],
                self.package == old(self).package,
                self.dev_dependencies == old(self).dev_dependencies,
                table_entries(self.dependencies) == with_infers(start, ex, names.subrange(0, i as int)),
            decreases infers@.len() - i,
        {
            let want = Self::normalize_crate_name(infers[i].as_str());
            let mut found = false;
            let mut k: usize = 0;
            while k < existing.len() && !found
                invariant
                    k <= existing@.len(),
                    found ==> views(existing@).contains(want@),
                    !found ==> forall|a: int| 0 <= a < k ==> views(existing@)[a] != want@,
                decreases existing@.len() - k,
            {
                if same_text(existing[k].as_str(), want.as_str()) {
                    found = true;
                    assert(views(existing@)[k as int] == want@);
                }
                k = k + 1;
            }
            proof {
                if !found && views(existing@).contains(want@) {
                    let a = choose|a: int| 0 <= a < views(existing@).len() && views(existing@)[a] == want@;
                }
                assert(names.subrange(0, i + 1).drop_last() =~= names.subrange(0, i as int));
                assert(names.subrange(0, i + 1).last() == infers@[i as int]@);
            }
            if !found {
                let star = string_value("*");
                table_insert(&mut self.dependencies, infers[i].clone(), star);
            }
            i = i + 1;
        }
        proof {
            assert(names.subrange(0, infers@.len() as int) =~= names);
        }
    }
}

/// Merging inferred names never replaces an entry of the table, and an inferred
/// name whose normalised form a build dependency already has is not added: such
/// a name is in the table afterwards only if it was before.
pub proof fn lemma_infers_keep_entries(m: Map<Seq<char>, toml::Value>, names: Seq<Seq<char>>)
    ensures
        forall|k: Seq<char>| #[trigger] m.dom().contains(k) ==> {
            &&& with_infers(m, normalized_names(m), names).dom().contains(k)
            &&& with_infers(m, normalized_names(m), names)[k] == m[k]
        },
        forall|n: Seq<char>| normalized_names(m).contains(#[trigger] normalized(n)) ==> (
            with_infers(m, normalized_names(m), names).dom().contains(n) <==> m.dom().contains(n)),
    decreases names.len(),
{
    let ex = normalized_names(m);
    if names.len() > 0 {
        let init = names.drop_last();
        lemma_infers_keep_entries(m, init);
        let last = names.last();
        if !ex.contains(normalized(last)) {
            assert forall|k: Seq<char>| #[trigger] m.dom().contains(k) implies k != last by {
                assert(ex.contains(normalized(k)));
            }
        }
        assert forall|n: Seq<char>| ex.contains(#[trigger] normalized(n)) implies (
            with_infers(m, ex, names).dom().contains(n) <==> m.dom().contains(n)) by {
            assert(with_infers(m, ex, init).dom().contains(n) <==> m.dom().contains(n));
        }
    }
}

} // verus!
