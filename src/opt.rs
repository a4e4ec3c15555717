use vstd::prelude::*;
use crate::errors::CargoPlayError;
use crate::digest::{base64_url, base64_url_of, sha1_digest, sha1_of, url_safe_digit};
use crate::paths::{in_path_order, lemma_sorted_exists, sort_paths, views};
use crate::text::{has_prefix, same_text, starts_with, suffix_from, trim_start, trim_start_of};

verus! {

/// A dependency declared in a source header: needed to build, or only to test.
#[derive(Debug, PartialEq, Eq)]
pub enum Dependency {
    Build(String),
    Test(String),
}

/// The marker that makes a header line a test-only dependency.
pub open spec fn dev_marker() -> Seq<char> {
    seq!['d', 'e', 'v', ':']
}

/// The declaration that a header line of the given text holds.
pub open spec fn declaration_of(line: Seq<char>) -> Seq<char> {
    if has_prefix(line, dev_marker()) {
        trim_start_of(line.subrange(4, line.len() as int))
    } else {
        line
    }
}

impl Dependency {
    pub open spec fn is_test(&self) -> bool {
        self is Test
    }

    /// The raw manifest fragment that the dependency carries.
    pub open spec fn declaration(&self) -> Seq<char> {
        match self {
            Dependency::Build(s) => s@,
            Dependency::Test(s) => s@,
        }
    }

    /// The dependency that a header line declares.
    pub open spec fn classifies(&self, line: Seq<char>) -> bool {
        &&& self.is_test() == has_prefix(line, dev_marker())
        &&& self.declaration() == declaration_of(line)
    }

    /// Classifies a header line: one that starts with `dev:` declares a test-only
    /// dependency (the rest, without leading whitespace); any other a build one.
    pub fn from(line: String) -> (r: Dependency)
        ensures
            r.classifies(line@),
    {
        let is_dev = starts_with(line.as_str(), "dev:");
        proof {
            reveal_strlit("dev:");
            assert("dev:"@ =~= dev_marker());
        }
        if is_dev {
            let rest = suffix_from(line.as_str(), 4);
            Dependency::Test(trim_start(rest.as_str()))
        } else {
            Dependency::Build(line)
        }
    }
}


/// The Rust edition that the synthesised manifest names.
#[derive(Clone, Copy, Debug, PartialEq, Eq, Structural)]
pub enum RustEdition {
    E2015,
    E2018,
}

pub open spec fn text_2015() -> Seq<char> {
    seq!['2', '0', '1', '5']
}

pub open spec fn text_2018() -> Seq<char> {
    seq!['2', '0', '1', '8']
}

impl RustEdition {
    /// The edition's token as the manifest writes it.
    pub open spec fn spec_text(&self) -> Seq<char> {
        match self {
            RustEdition::E2015 => text_2015(),
            RustEdition::E2018 => text_2018(),
        }
    }

    /// Reads an edition token: `2015` or `2018`, anything else is an error.
    pub fn from_str(s: &str) -> (r: Result<RustEdition, CargoPlayError>)
        ensures
            s@ == text_2018() <==> r == Ok::<RustEdition, CargoPlayError>(RustEdition::E2018),
            s@ == text_2015() <==> r == Ok::<RustEdition, CargoPlayError>(RustEdition::E2015),
            r is Err <==> (s@ != text_2015() && s@ != text_2018()),
            r matches Err(CargoPlayError::InvalidEdition(t)) || r is Ok,
            r matches Err(CargoPlayError::InvalidEdition(t)) ==> t@ == s@,
    {
        proof {
            reveal_strlit("2018");
            reveal_strlit("2015");
            assert("2018"@ =~= text_2018());
            assert("2015"@ =~= text_2015());
        }
        if same_text(s, "2018") {
            Ok(RustEdition::E2018)
        } else if same_text(s, "2015") {
            Ok(RustEdition::E2015)
        } else {
            Err(CargoPlayError::InvalidEdition(String::from_str(s)))
        }
    }

    /// The edition's token, `2015` or `2018`.
    pub fn into_string(self) -> (r: String)
        ensures
            r@ == self.spec_text(),
    {
        proof {
            reveal_strlit("2018");
            reveal_strlit("2015");
        }
        match self {
            RustEdition::E2015 => String::from_str("2015"),
            RustEdition::E2018 => String::from_str("2018"),
        }
    }

    /// The edition used when none is asked for.
    pub fn default() -> (r: RustEdition)
        ensures
            r == RustEdition::E2018,
    {
        RustEdition::E2018
    }
}

/// The build profile of a run.
#[derive(Clone, Copy, Debug, PartialEq, Eq, Structural)]
pub enum CargoProfile {
    Release,
    Debug,
    Profile,
}

pub open spec fn text_release() -> Seq<char> {
    seq!['r', 'e', 'l', 'e', 'a', 's', 'e']
}

pub open spec fn text_debug() -> Seq<char> {
    seq!['d', 'e', 'b', 'u', 'g']
}

pub open spec fn text_profile() -> Seq<char> {
    seq!['p', 'r', 'o', 'f', 'i', 'l', 'e']
}

/// The profile that a token names, if any.
pub open spec fn profile_of(s: Seq<char>) -> Option<CargoProfile> {
    if s == text_release() {
        Some(CargoProfile::Release)
    } else if s == text_debug() {
        Some(CargoProfile::Debug)
    } else if s == text_profile() {
        Some(CargoProfile::Profile)
    } else {
        None
    }
}

impl CargoProfile {
    /// Reads a profile token: `release`, `debug` or `profile`.
    pub fn from_str(raw: &str) -> (r: Result<CargoProfile, CargoPlayError>)
        ensures
            match profile_of(raw@) {
                Some(p) => r == Ok::<CargoProfile, CargoPlayError>(p),
                None => r matches Err(CargoPlayError::InvalidCargoProfile(t)) && t@ == raw@,
            },
    {
        proof {
            reveal_strlit("release");
            reveal_strlit("debug");
            reveal_strlit("profile");
            assert("release"@ =~= text_release());
            assert("debug"@ =~= text_debug());
            assert("profile"@ =~= text_profile());
        }
        if same_text(raw, "release") {
            Ok(CargoProfile::Release)
        } else if same_text(raw, "debug") {
            Ok(CargoProfile::Debug)
        } else if same_text(raw, "profile") {
            Ok(CargoProfile::Profile)
        } else {
            Err(CargoPlayError::InvalidCargoProfile(String::from_str(raw)))
        }
    }
}

/// What to do with the staged project: run it under a profile, or test it.
#[derive(Clone, Copy, Debug, PartialEq, Eq, Structural)]
pub enum CargoAction {
    Run(CargoProfile),
    Test,
}

pub open spec fn text_run() -> Seq<char> {
    seq!['r', 'u', 'n']
}

pub open spec fn text_test() -> Seq<char> {
    seq!['t', 'e', 's', 't']
}

/// The profile token of a `run` action token: what follows its fifth character.
pub open spec fn run_profile_text(raw: Seq<char>) -> Seq<char> {
    if raw.len() >= 4 {
        raw.subrange(4, raw.len() as int)
    } else {
        Seq::empty()
    }
}

impl CargoAction {
    /// Reads an action token. One that starts with `run` names a run, whose
    /// profile token follows one separator character (`run-release`); one that
    /// starts with `test` names a test run.
    pub fn from_str(raw: &str) -> (r: Result<CargoAction, CargoPlayError>)
        ensures
            has_prefix(raw@, text_run()) ==> match profile_of(run_profile_text(raw@)) {
                Some(p) => r == Ok::<CargoAction, CargoPlayError>(CargoAction::Run(p)),
                None => r matches Err(CargoPlayError::InvalidCargoProfile(t))
                    && t@ == run_profile_text(raw@),
            },
            !has_prefix(raw@, text_run()) && has_prefix(raw@, text_test())
                ==> r == Ok::<CargoAction, CargoPlayError>(CargoAction::Test),
            !has_prefix(raw@, text_run()) && !has_prefix(raw@, text_test())
                ==> (r matches Err(CargoPlayError::InvalidCargoAction(t)) && t@ == raw@),
    {
        proof {
            reveal_strlit("run");
            reveal_strlit("test");
            assert("run"@ =~= text_run());
            assert("test"@ =~= text_test());
        }
        if starts_with(raw, "run") {
            let n = raw.unicode_len();
            let rest = if n >= 4 {
                suffix_from(raw, 4)
            } else {
                String::new()
            };
            proof {
                assert(rest@ =~= run_profile_text(raw@));
            }
            match CargoProfile::from_str(rest.as_str()) {
                Ok(p) => Ok(CargoAction::Run(p)),
                Err(e) => Err(e),
            }
        } else if starts_with(raw, "test") {
            Ok(CargoAction::Test)
        } else {
            Err(CargoPlayError::InvalidCargoAction(String::from_str(raw)))
        }
    }

    /// The action used when none is asked for: a debug run.
    pub fn default() -> (r: CargoAction)
        ensures
            r == CargoAction::Run(CargoProfile::Debug),
    {
        CargoAction::Run(CargoProfile::Debug)
    }
}

/// The paths one after the other, each ended by a NUL character, which no path holds.
pub open spec fn joined(ps: Seq<Seq<char>>) -> Seq<char>
    decreases ps.len(),
{
    if ps.len() == 0 {
        Seq::empty()
    } else {
        joined(ps.drop_last()) + ps.last() + seq!['\0']
    }
}

/// The key of a set of input paths: the digest of the paths in path order,
/// written in URL-safe base64.
pub open spec fn cache_key(ps: Seq<Seq<char>>) -> Seq<char> {
    base64_url_of(sha1_of(joined(in_path_order(ps))))
}

/// The prefix of every build directory's name.
pub open spec fn text_dir_prefix() -> Seq<char> {
    seq!['c', 'a', 'r', 'g', 'o', '-', 'p', 'l', 'a', 'y', '.']
}

/// The command line once `play` and toolchain arguments are taken out of it.
#[derive(Debug)]
pub struct PlayArgs {
    /// The arguments left for the option parser, program name first.
    pub args: Vec<String>,
    /// The toolchain named by the first argument that starts with `+`, without the `+`.
    pub toolchain: Option<String>,
}

/// The arguments of a run, with `play` dropped where the tool runs as a cargo
/// subcommand.
pub open spec fn play_rest(args: Seq<Seq<char>>) -> Seq<Seq<char>> {
    if args.len() >= 2 && args[1] == seq!['p', 'l', 'a', 'y'] {
        args.drop_first()
    } else {
        args
    }
}

/// Whether an argument names a toolchain.
pub open spec fn is_toolchain_arg(a: Seq<char>) -> bool {
    has_prefix(a, seq!['+'])
}

/// The arguments that name no toolchain.
pub open spec fn without_toolchains(xs: Seq<Seq<char>>) -> Seq<Seq<char>>
    decreases xs.len(),
{
    if xs.len() == 0 {
        Seq::empty()
    } else if is_toolchain_arg(xs.last()) {
        without_toolchains(xs.drop_last())
    } else {
        without_toolchains(xs.drop_last()).push(xs.last())
    }
}

/// The toolchain that the first argument starting with `+` names.
pub open spec fn first_toolchain(xs: Seq<Seq<char>>) -> Option<Seq<char>>
    decreases xs.len(),
{
    if xs.len() == 0 {
        None
    } else if first_toolchain(xs.drop_last()) is Some {
        first_toolchain(xs.drop_last())
    } else if is_toolchain_arg(xs.last()) {
        Some(xs.last().drop_first())
    } else {
        None
    }
}

/// The options of a run.
#[derive(Debug)]
pub struct Opt {
    pub debug: bool,
    /// Rebuild without the cache of an earlier run.
    pub clean: bool,
    pub toolchain: Option<String>,
    /// The source files, the entry file first, as absolute canonical paths.
    pub src: Vec<String>,
    pub edition: RustEdition,
    pub cached: bool,
    pub cargo_action: Option<CargoAction>,
    /// Flags handed on to cargo.
    pub cargo_option: Option<String>,
    /// Where to export the generated project instead of running it.
    pub save: Option<String>,
    /// Infer dependencies from the sources.
    pub infer: bool,
    /// Arguments for the program.
    pub args: Vec<String>,
}

impl Opt {
    /// The key of the input files: the same for the same set of paths in any order.
    pub fn src_hash(&self) -> (r: String)
        ensures
            r@ == cache_key(views(self.src@)),
            r@.len() == 27,
            forall|i: int| 0 <= i < r@.len() ==> url_safe_digit(#[trigger] r@[i]),
    {
        let sorted = sort_paths(&self.src);
        let mut text = String::new();
        let mut i: usize = 0;
        while i < sorted.len()
            invariant
                i <= sorted@.len(),
                text@ == joined(views(sorted@).subrange(0, i as int)),
            decreases sorted@.len() - i,
        {
            text.append(sorted[i].as_str());
            text.append("\0");
            proof {
                reveal_strlit("\0");
                assert("\0"@ =~= seq!['\0']);
                let vs = views(sorted@);
                assert(vs.subrange(0, i + 1).drop_last() =~= vs.subrange(0, i as int));
            }
            i = i + 1;
        }
        proof {
            assert(views(sorted@).subrange(0, i as int) =~= views(sorted@));
        }
        let digest = sha1_digest(text.as_str());
        base64_url(&digest)
    }

    /// The name of the build directory of the input files: `cargo-play.` and their key.
    pub fn temp_dirname(&self) -> (r: String)
        ensures
            r@ == text_dir_prefix() + cache_key(views(self.src@)),
            forall|i: int| 0 <= i < r@.len() ==> #[trigger] r@[i] != '/',
    {
        proof {
            reveal_strlit("cargo-play.");
        }
        let key = self.src_hash();
        let mut name = String::from_str("cargo-play.");
        name.append(key.as_str());
        proof {
            assert forall|i: int| 0 <= i < name@.len() implies #[trigger] name@[i] != '/' by {
                if i >= 11 {
                    assert(url_safe_digit(key@[i - 11]));
                }
            }
        }
        name
    }

    /// The same options with the given toolchain.
    pub fn with_toolchain(self, toolchain: Option<String>) -> (r: Self)
        ensures
            r == (Opt { toolchain, ..self }),
    {
        let mut s = self;
        s.toolchain = toolchain;
        s
    }

    /// Prepares a command line for the option parser. A line of fewer than two
    /// arguments is refused. Where the second argument is `play`, the first is
    /// dropped; the first argument that starts with `+` names the toolchain, and
    /// all such arguments are taken out.
    pub fn parse(args: Vec<String>) -> (r: Result<PlayArgs, ()>)
        ensures
            args@.len() < 2 <==> r is Err,
            r matches Ok(p) ==> {
                &&& views(p.args@) == without_toolchains(play_rest(views(args@)))
                &&& match p.toolchain {
                    Some(t) => first_toolchain(play_rest(views(args@))) == Some(t@),
                    None => first_toolchain(play_rest(views(args@))) is None,
                }
            },
    {
        if args.len() < 2 {
            return Err(());
        }
        proof {
            reveal_strlit("play");
            assert("play"@ =~= seq!['p', 'l', 'a', 'y']);
            reveal_strlit("+");
            assert("+"@ =~= seq!['+']);
        }
        let with_cargo = same_text(args[1].as_str(), "play");
        let start: usize = if with_cargo { 1 } else { 0 };
        let ghost rest = play_rest(views(args@));
        proof {
            assert(rest =~= views(args@).subrange(start as int, args@.len() as int));
        }
        let mut kept: Vec<String> = Vec::new();
        let mut toolchain: Option<String> = None;
        let mut i: usize = start;
        proof {
            assert(rest.subrange(0, 0) =~= Seq::<Seq<char>>::empty());
            assert(views(kept@) =~= Seq::<Seq<char>>::empty());
        }
        while i < args.len()
            invariant
                start <= i <= args@.len(),
                rest == views(args@).subrange(start as int, args@.len() as int),
                views(kept@) == without_toolchains(rest.subrange(0, i - start)),
                match toolchain {
                    Some(t) => first_toolchain(rest.subrange(0, i - start)) == Some(t@),
                    None => first_toolchain(rest.subrange(0, i - start)) is None,
                },
            decreases args@.len() - i,
        {
            let a = args[i].as_str();
            let plus = starts_with(a, "+");
            let ghost pre = rest.subrange(0, i - start);
            proof {
                reveal_strlit("+");
                assert("+"@ =~= seq!['+']);
                assert(rest.subrange(0, i + 1 - start).drop_last() =~= pre);
                assert(rest.subrange(0, i + 1 - start).last() == a@);
            }
            if plus {
                if toolchain.is_none() {
                    let t = suffix_from(a, 1);
                    proof {
                        assert(t@ =~= a@.drop_first());
                    }
                    toolchain = Some(t);
                }
            } else {
                let ghost before = views(kept@);
                kept.push(args[i].clone());
                proof {
                    assert(views(kept@) =~= before.push(a@));
                }
            }
            i = i + 1;
        }
        proof {
            assert(rest.subrange(0, i - start) =~= rest);
        }
        Ok(PlayArgs { args: kept, toolchain })
    }
}

/// The key of a set of paths does not depend on the order they are given in.
pub proof fn lemma_key_ignores_order(a: Seq<Seq<char>>, b: Seq<Seq<char>>)
    requires
        a.to_multiset() == b.to_multiset(),
    ensures
        cache_key(a) == cache_key(b),
{
    assert(in_path_order(a) == in_path_order(b));
}

/// No path of the list holds a NUL character.
pub open spec fn nul_free(ps: Seq<Seq<char>>) -> bool {
    forall|i: int| 0 <= i < ps.len() ==> !(#[trigger] ps[i]).contains('\0')
}

proof fn lemma_joined_injective(x: Seq<Seq<char>>, y: Seq<Seq<char>>)
    requires
        nul_free(x),
        nul_free(y),
        joined(x) == joined(y),
    ensures
        x == y,
    decreases x.len() + y.len(),
{
    if x.len() == 0 || y.len() == 0 {
        if x.len() > 0 {
            assert(joined(x).len() > 0);
        }
        if y.len() > 0 {
            assert(joined(y).len() > 0);
        }
        assert(x =~= y);
    } else {
        let (xi, yi) = (x.drop_last(), y.drop_last());
        let (xl, yl) = (x.last(), y.last());
        assert(!xl.contains('\0') && !yl.contains('\0')) by {
            assert(x[x.len() - 1] == xl);
            assert(y[y.len() - 1] == yl);
        }
        let jx = joined(xi) + xl;
        let jy = joined(yi) + yl;
        assert(jx =~= joined(x).drop_last());
        assert(jy =~= joined(y).drop_last());
        assert(jx == jy);
        if xl.len() < yl.len() {
            let pos = jx.len() - xl.len() - 1;
            if xi.len() == 0 {
                assert(jx.len() == xl.len());
                assert(jy.len() >= yl.len());
            } else {
                assert(joined(xi).last() == '\0');
                assert(jx[pos] == '\0');
                assert(jy[pos] == yl[pos - joined(yi).len()]);
                assert(yl.contains('\0'));
            }
        } else if yl.len() < xl.len() {
            let pos = jy.len() - yl.len() - 1;
            if yi.len() == 0 {
                assert(jy.len() == yl.len());
                assert(jx.len() >= xl.len());
            } else {
                assert(joined(yi).last() == '\0');
                assert(jy[pos] == '\0');
                assert(jx[pos] == xl[pos - joined(xi).len()]);
                assert(xl.contains('\0'));
            }
        } else {
            assert(xl =~= yl) by {
                assert forall|k: int| 0 <= k < xl.len() implies xl[k] == yl[k] by {
                    assert(jx[joined(xi).len() + k] == jy[joined(yi).len() + k]);
                }
            }
            assert(joined(xi) =~= joined(yi)) by {
                assert(joined(xi) =~= jx.subrange(0, joined(xi).len() as int));
                assert(joined(yi) =~= jy.subrange(0, joined(yi).len() as int));
            }
            assert(nul_free(xi) && nul_free(yi)) by {
                assert forall|i: int| 0 <= i < xi.len() implies !(#[trigger] xi[i]).contains('\0') by {
                    assert(xi[i] == x[i]);
                }
                assert forall|i: int| 0 <= i < yi.len() implies !(#[trigger] yi[i]).contains('\0') by {
                    assert(yi[i] == y[i]);
                }
            }
            lemma_joined_injective(xi, yi);
            assert(x =~= xi.push(xl));
            assert(y =~= yi.push(yl));
        }
    }
}

proof fn lemma_order_nul_free(ps: Seq<Seq<char>>)
    requires
        nul_free(ps),
    ensures
        nul_free(in_path_order(ps)),
{
    broadcast use vstd::seq_lib::group_to_multiset_ensures;
    lemma_sorted_exists(ps);
    let s = in_path_order(ps);
    assert forall|i: int| 0 <= i < s.len() implies !(#[trigger] s[i]).contains('\0') by {
        assert(s.to_multiset().count(s[i]) > 0);
        assert(ps.contains(s[i]));
    }
}

/// Two sets of NUL-free paths that differ give the digest different texts, so
/// their keys differ unless SHA-1 collides.
pub proof fn lemma_distinct_sets_distinct_digest_input(a: Seq<Seq<char>>, b: Seq<Seq<char>>)
    requires
        nul_free(a),
        nul_free(b),
        a.to_multiset() != b.to_multiset(),
    ensures
        joined(in_path_order(a)) != joined(in_path_order(b)),
{
    lemma_sorted_exists(a);
    lemma_sorted_exists(b);
    lemma_order_nul_free(a);
    lemma_order_nul_free(b);
    if joined(in_path_order(a)) == joined(in_path_order(b)) {
        lemma_joined_injective(in_path_order(a), in_path_order(b));
    }
}

} // verus!
