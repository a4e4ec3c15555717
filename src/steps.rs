use vstd::prelude::*;
use crate::errors::CargoPlayError;
use crate::opt::{dev_marker, CargoAction, CargoProfile, Dependency};
use crate::paths::{diff_of, join, join_path, parent_of, parent_path, plain_absolute, plain_relative, relative_to, views};
use vstd::string::*;
use crate::text::{has_prefix, lines_of, lower_of, lowercase, starts_with, suffix_from, text_lines, trim_start, trim_start_of};

verus! {

pub open spec fn text_shebang() -> Seq<char> {
    seq!['#', '!']
}

pub open spec fn header_marker() -> Seq<char> {
    seq!['/', '/', '#']
}

/// A line that may stand before the header block: an interpreter line or a blank one.
pub open spec fn is_preamble(line: Seq<char>) -> bool {
    has_prefix(line, text_shebang()) || line.len() == 0
}

/// The lines from the first one that is no preamble on.
pub open spec fn skip_preamble(ls: Seq<Seq<char>>) -> Seq<Seq<char>>
    decreases ls.len(),
{
    if ls.len() > 0 && is_preamble(ls[0]) {
        skip_preamble(ls.drop_first())
    } else {
        ls
    }
}

/// A header line without its marker and leading whitespace.
pub open spec fn header_body(line: Seq<char>) -> Seq<char> {
    trim_start_of(line.subrange(3, line.len() as int))
}

/// The non-empty header bodies of the run of header lines that `ls` starts with.
pub open spec fn block_bodies(ls: Seq<Seq<char>>) -> Seq<Seq<char>>
    decreases ls.len(),
{
    if ls.len() > 0 && has_prefix(ls[0], header_marker()) {
        let b = header_body(ls[0]);
        if b.len() == 0 {
            block_bodies(ls.drop_first())
        } else {
            seq![b] + block_bodies(ls.drop_first())
        }
    } else {
        Seq::empty()
    }
}

/// The header bodies of one source text, in line order.
pub open spec fn file_bodies(text: Seq<char>) -> Seq<Seq<char>> {
    block_bodies(skip_preamble(lines_of(text)))
}

/// The header bodies of several source texts, file after file.
pub open spec fn all_bodies(files: Seq<Seq<char>>) -> Seq<Seq<char>>
    decreases files.len(),
{
    if files.len() == 0 {
        Seq::empty()
    } else {
        all_bodies(files.drop_last()) + file_bodies(files.last())
    }
}

/// The characters of each text.
pub open spec fn texts(files: Seq<String>) -> Seq<Seq<char>> {
    files.map_values(|f: String| f@)
}

/// Whether a line may stand before the header block.
fn preamble_line(line: &String) -> (r: bool)
    ensures
        r == is_preamble(line@),
{
    proof {
        reveal_strlit("#!");
        assert("#!"@ =~= text_shebang());
    }
    starts_with(line.as_str(), "#!") || line.as_str().unicode_len() == 0
}

/// Whether a line is a header line.
fn header_line(line: &String) -> (r: bool)
    ensures
        r == has_prefix(line@, header_marker()),
{
    proof {
        reveal_strlit("//#");
        assert("//#"@ =~= header_marker());
    }
    starts_with(line.as_str(), "//#")
}

/// The header bodies of one source text.
fn file_headers(text: &String) -> (r: Vec<String>)
    ensures
        r@.map_values(|s: String| s@) == file_bodies(text@),
{
    let lines = text_lines(text.as_str());
    let ghost ls = lines@.map_values(|l: String| l@);
    let n = lines.len();
    proof {
        assert(ls.subrange(0, n as int) =~= ls);
    }
    let mut i: usize = 0;
    while i < n && preamble_line(&lines[i])
        invariant
            n == lines@.len(),
            ls == lines@.map_values(|l: String| l@),
            ls == lines_of(text@),
            i <= n,
            skip_preamble(ls) == skip_preamble(ls.subrange(i as int, n as int)),
        decreases n - i,
    {
        proof {
            assert(ls.subrange(i as int, n as int).drop_first() =~= ls.subrange(i + 1, n as int));
        }
        i = i + 1;
    }
    let ghost rest = ls.subrange(i as int, n as int);
    assert(skip_preamble(rest) == rest);
    let mut out: Vec<String> = Vec::new();
    let mut j: usize = i;
    proof {
        assert(out@.map_values(|s: String| s@) + block_bodies(ls.subrange(j as int, n as int))
            =~= block_bodies(ls.subrange(i as int, n as int)));
    }
    while j < n && header_line(&lines[j])
        invariant
            n == lines@.len(),
            ls == lines@.map_values(|l: String| l@),
            i <= j <= n,
            out@.map_values(|s: String| s@) + block_bodies(ls.subrange(j as int, n as int))
                == block_bodies(ls.subrange(i as int, n as int)),
        decreases n - j,
    {
        let line = lines[j].as_str();
        assert(ls[j as int] == line@);
        assert(ls.subrange(j as int, n as int)[0] == line@);
        let tail = suffix_from(line, 3);
        let body = trim_start(tail.as_str());
        proof {
            assert(ls.subrange(j as int, n as int).drop_first() =~= ls.subrange(j + 1, n as int));
        }
        let ghost before = out@.map_values(|s: String| s@);
        if body.as_str().unicode_len() > 0 {
            out.push(body);
            proof {
                assert(out@.map_values(|s: String| s@) =~= before.push(body@));
                assert(before.push(body@) + block_bodies(ls.subrange(j + 1, n as int))
                    =~= before + (seq![body@] + block_bodies(ls.subrange(j + 1, n as int))));
            }
        }
        j = j + 1;
    }
    proof {
        assert(out@.map_values(|s: String| s@) =~= out@.map_values(|s: String| s@)
            + block_bodies(ls.subrange(j as int, n as int)));
    }
    out
}

/// The dependencies declared by the header blocks of the given source texts.
///
/// In each text, interpreter and blank lines at the top are skipped; the run of
/// lines starting with `//#` that follows is the header block. Each such line,
/// without the marker and leading whitespace, declares one dependency unless
/// nothing is left. Texts are taken in order, and lines in order within each.
pub fn extract_headers(files: &[String]) -> (r: Vec<Dependency>)
    ensures
        r@.len() == all_bodies(texts(files@)).len(),
        forall|k: int|
            0 <= k < r@.len() ==> #[trigger] r@[k].classifies(
                all_bodies(texts(files@))[k],
            ),
{
    let ghost fs = texts(files@);
    let mut out: Vec<Dependency> = Vec::new();
    let mut i: usize = 0;
    while i < files.len()
        invariant
            fs == texts(files@),
            i <= files@.len(),
            out@.len() == all_bodies(fs.subrange(0, i as int)).len(),
            forall|k: int|
                0 <= k < out@.len() ==> #[trigger] out@[k].classifies(
                    all_bodies(fs.subrange(0, i as int))[k],
                ),
        decreases files@.len() - i,
    {
        let bodies = file_headers(&files[i]);
        let ghost before = all_bodies(fs.subrange(0, i as int));
        let ghost bs = bodies@.map_values(|s: String| s@);
        proof {
            assert(fs.subrange(0, i + 1).drop_last() =~= fs.subrange(0, i as int));
            assert(fs.subrange(0, i + 1).last() == fs[i as int]);
        }
        let ghost target = all_bodies(fs.subrange(0, i + 1));
        assert(target == before + bs);
        let mut j: usize = 0;
        while j < bodies.len()
            invariant
                bs == bodies@.map_values(|s: String| s@),
                target == before + bs,
                j <= bodies@.len(),
                out@.len() == before.len() + j,
                forall|k: int| 0 <= k < out@.len() ==> #[trigger] out@[k].classifies(target[k]),
            decreases bodies@.len() - j,
        {
            let d = Dependency::from(bodies[j].clone());
            out.push(d);
            j = j + 1;
        }
        i = i + 1;
    }
    proof {
        assert(fs.subrange(0, files@.len() as int) =~= fs);
    }
    out
}

/// The directory of the given name under the temporary root.
pub fn temp_dir(root: &str, name: &str) -> (r: String)
    ensures
        r@ == join(root@, name@),
{
    join_path(root, name)
}

pub open spec fn text_src() -> Seq<char> {
    seq!['s', 'r', 'c']
}

pub open spec fn text_main() -> Seq<char> {
    seq!['m', 'a', 'i', 'n', '.', 'r', 's']
}

/// The entry file's directory is a plain absolute path, and every other file lies
/// below it along plain components.
pub open spec fn below_entry_dir(sources: Seq<String>) -> bool {
    &&& sources.len() > 0
    &&& plain_absolute(parent_of(sources[0]@))
    &&& forall|k: int| 1 <= k < sources.len() ==> exists|rest: Seq<char>|
        plain_relative(rest) && #[trigger] sources[k]@ == join(parent_of(sources[0]@), rest)
}

/// Where the staged copies go: the `src` directory of the project.
pub open spec fn source_root(temp: Seq<char>) -> Seq<char> {
    join(temp, text_src())
}

/// Where each source file is copied in the staged project. The entry file (the
/// first) becomes `src/main.rs`; every other file keeps its path relative to the
/// entry file's directory, below `src`. A file with no such relative path fails
/// the layout, the first one that has none being named.
pub fn source_layout(temp: &str, sources: &Vec<String>) -> (r: Result<Vec<(String, String)>, CargoPlayError>)
    ensures
        sources@.len() > 0 ==> (r is Err <==> exists|k: int|
            1 <= k < sources@.len() && diff_of(#[trigger] sources@[k]@, parent_of(sources@[0]@)) is None),
        sources@.len() == 0 ==> (r matches Ok(l) && l@.len() == 0),
        below_entry_dir(sources@) ==> r is Ok,
        r matches Err(e) ==> exists|k: int| 1 <= k < sources@.len()
            && e == CargoPlayError::DiffPathError(sources@[k])
            && diff_of(#[trigger] sources@[k]@, parent_of(sources@[0]@)) is None
            && forall|j: int| 1 <= j < k ==> diff_of(#[trigger] sources@[j]@, parent_of(sources@[0]@)) is Some,
        r matches Ok(l) ==> {
            &&& l@.len() == sources@.len()
            &&& forall|k: int| 0 <= k < l@.len() ==> #[trigger] l@[k].0@ == sources@[k]@
            &&& l@.len() > 0 ==> l@[0].1@ == join(source_root(temp@), text_main())
            &&& forall|k: int| 1 <= k < l@.len() ==> diff_of(sources@[k]@, parent_of(sources@[0]@)) is Some
                && #[trigger] l@[k].1@ == join(source_root(temp@), diff_of(sources@[k]@, parent_of(sources@[0]@))->0)
            &&& forall|k: int, rest: Seq<char>|
                #![trigger l@[k], plain_relative(rest)]
                1 <= k < l@.len() && plain_absolute(parent_of(sources@[0]@))
                && plain_relative(rest) && sources@[k]@ == join(parent_of(sources@[0]@), rest)
                ==> l@[k].1@ == join(source_root(temp@), rest)
        },
{
    let n = sources.len();
    let mut out: Vec<(String, String)> = Vec::new();
    if n == 0 {
        return Ok(out);
    }
    proof {
        reveal_strlit("src");
        reveal_strlit("main.rs");
        assert("src"@ =~= text_src());
        assert("main.rs"@ =~= text_main());
    }
    let dest = join_path(temp, "src");
    let entry = join_path(dest.as_str(), "main.rs");
    out.push((sources[0].clone(), entry));
    let base = parent_path(sources[0].as_str());
    let ghost b = parent_of(sources@[0]@);
    let ghost sr = source_root(temp@);
    let mut i: usize = 1;
    while i < n
        invariant
            n == sources@.len(),
            1 <= i <= n,
            base@ == b,
            b == parent_of(sources@[0]@),
            dest@ == sr,
            sr == source_root(temp@),
            out@.len() == i,
            out@[0].0@ == sources@[0]@,
            out@[0].1@ == join(sr, text_main()),
            forall|j: int| 1 <= j < i ==> diff_of(#[trigger] sources@[j]@, b) is Some,
            forall|k: int| 0 <= k < i ==> #[trigger] out@[k].0@ == sources@[k]@,
            forall|k: int| 1 <= k < i ==> diff_of(sources@[k]@, b) is Some
                && #[trigger] out@[k].1@ == join(sr, diff_of(sources@[k]@, b)->0),
            forall|k: int, rest: Seq<char>|
                #![trigger out@[k], plain_relative(rest)]
                1 <= k < i && plain_absolute(b)
                && plain_relative(rest) && sources@[k]@ == join(b, rest)
                ==> out@[k].1@ == join(sr, rest),
        decreases n - i,
    {
        let file = &sources[i];
        match relative_to(file.as_str(), base.as_str()) {
            None => {
                proof {
                    if below_entry_dir(sources@) {
                        let rest = choose|rest: Seq<char>|
                            plain_relative(rest) && sources@[i as int]@ == join(b, rest);
                        assert(plain_relative(rest) && file@ == join(base@, rest));
                    }
                }
                return Err(CargoPlayError::DiffPathError(file.clone()));
            },
            Some(part) => {
                let target = join_path(dest.as_str(), part.as_str());
                out.push((file.clone(), target));
            },
        }
        i = i + 1;
    }
    Ok(out)
}

pub open spec fn text_cargo_toml() -> Seq<char> {
    seq!['C', 'a', 'r', 'g', 'o', '.', 't', 'o', 'm', 'l']
}

/// An ASCII whitespace character: space, tab, line feed, form feed or carriage return.
pub open spec fn ascii_space(c: char) -> bool {
    c == ' ' || c == '\t' || c == '\n' || c == '\x0C' || c == '\r'
}

/// The words finished so far, and the word being read.
pub open spec fn words_so_far(s: Seq<char>) -> (Seq<Seq<char>>, Seq<char>)
    decreases s.len(),
{
    if s.len() == 0 {
        (Seq::empty(), Seq::empty())
    } else {
        let (ws, cur) = words_so_far(s.drop_last());
        if ascii_space(s.last()) {
            if cur.len() > 0 {
                (ws.push(cur), Seq::empty())
            } else {
                (ws, Seq::empty())
            }
        } else {
            (ws, cur.push(s.last()))
        }
    }
}

/// The non-empty runs of characters between ASCII whitespace, in order.
pub open spec fn ascii_words_of(s: Seq<char>) -> Seq<Seq<char>> {
    let (ws, cur) = words_so_far(s);
    if cur.len() > 0 {
        ws.push(cur)
    } else {
        ws
    }
}

/// Relies on `str::split_ascii_whitespace`: the non-empty runs between ASCII whitespace.
#[verifier::external_body]
fn ascii_words(s: &str) -> (r: Vec<String>)
    ensures
        views(r@) == ascii_words_of(s@),
{
    s.split_ascii_whitespace().map(String::from).collect()
}

/// The words that select the action.
pub open spec fn action_words(action: CargoAction) -> Seq<Seq<char>> {
    match action {
        CargoAction::Run(CargoProfile::Release) => seq![
            seq!['r', 'u', 'n'],
            seq!['-', '-', 'r', 'e', 'l', 'e', 'a', 's', 'e'],
        ],
        CargoAction::Run(CargoProfile::Debug) => seq![seq!['r', 'u', 'n']],
        CargoAction::Test => seq![seq!['t', 'e', 's', 't']],
        CargoAction::Run(CargoProfile::Profile) => Seq::empty(),
    }
}

/// The arguments that cargo is run with: the toolchain (`+name`), the action, the
/// manifest of the project, the custom flags, `--`, and the program's arguments.
pub open spec fn cargo_command(
    toolchain: Option<Seq<char>>,
    project: Seq<char>,
    action: CargoAction,
    cargo_option: Option<Seq<char>>,
    program_args: Seq<Seq<char>>,
) -> Seq<Seq<char>> {
    let tc = match toolchain {
        Some(t) => seq![seq!['+'] + t],
        None => Seq::empty(),
    };
    let flags = match cargo_option {
        Some(o) => ascii_words_of(o),
        None => Seq::empty(),
    };
    tc + action_words(action) + seq![
        seq!['-', '-', 'm', 'a', 'n', 'i', 'f', 'e', 's', 't', '-', 'p', 'a', 't', 'h'],
        join(project, text_cargo_toml()),
    ] + flags + seq![seq!['-', '-']] + program_args
}

/// The optional text's characters.
pub open spec fn opt_view(o: Option<String>) -> Option<Seq<char>> {
    match o {
        Some(s) => Some(s@),
        None => None,
    }
}

/// Appends the strings to the list.
fn push_all(out: &mut Vec<String>, items: Vec<String>)
    ensures
        views(final(out)@) == views(old(out)@) + views(items@),
{
    let mut items = items;
    let ghost all = views(items@);
    let ghost start = views(out@);
    let mut i: usize = 0;
    let n = items.len();
    while i < n
        invariant
            n == all.len(),
            i <= n,
            views(items@) == all.subrange(i as int, n as int),
            items@.len() == n - i,
            views(out@) == start + all.subrange(0, i as int),
        decreases n - i,
    {
        let ghost prev = items@;
        assert(views(prev)[0] == all.subrange(i as int, n as int)[0]);
        let x = items.remove(0);
        assert(x == prev[0]);
        assert(x@ == all[i as int]);
        let ghost out_before = out@;
        out.push(x);
        proof {
            assert(items@ =~= prev.subrange(1, prev.len() as int));
            assert forall|k: int| 0 <= k < items@.len() implies views(items@)[k] == all.subrange(i + 1, n as int)[k] by {
                assert(views(prev)[k + 1] == all.subrange(i as int, n as int)[k + 1]);
            }
            assert(views(items@) =~= all.subrange(i + 1, n as int));
            assert(out@ =~= out_before.push(x));
            assert(views(out@) =~= views(out_before).push(x@));
            assert(all.subrange(0, i + 1) =~= all.subrange(0, i as int).push(all[i as int]));
            assert(views(out@) =~= start + all.subrange(0, i + 1));
        }
        i = i + 1;
    }
    proof {
        assert(all.subrange(0, n as int) =~= all);
    }
}

/// The arguments that cargo is run with for the action on the staged project.
pub fn cargo_args(
    toolchain: Option<String>,
    project: &str,
    action: CargoAction,
    cargo_option: Option<String>,
    program_args: &Vec<String>,
) -> (r: Vec<String>)
    ensures
        views(r@) == cargo_command(opt_view(toolchain), project@, action, opt_view(cargo_option), views(program_args@)),
{
    proof {
        reveal_strlit("+");
        reveal_strlit("run");
        reveal_strlit("--release");
        reveal_strlit("test");
        reveal_strlit("--manifest-path");
        reveal_strlit("Cargo.toml");
        reveal_strlit("--");
        assert("+"@ =~= seq!['+']);
        assert("run"@ =~= seq!['r', 'u', 'n']);
        assert("--release"@ =~= seq!['-', '-', 'r', 'e', 'l', 'e', 'a', 's', 'e']);
        assert("test"@ =~= seq!['t', 'e', 's', 't']);
        assert("--manifest-path"@ =~= seq!['-', '-', 'm', 'a', 'n', 'i', 'f', 'e', 's', 't', '-', 'p', 'a', 't', 'h']);
        assert("Cargo.toml"@ =~= text_cargo_toml());
        assert("--"@ =~= seq!['-', '-']);
    }
    let mut out: Vec<String> = Vec::new();
    let ghost tc: Seq<Seq<char>> = match opt_view(toolchain) {
        Some(t) => seq![seq!['+'] + t],
        None => Seq::empty(),
    };
    match toolchain {
        Some(t) => {
            let mut a = String::from_str("+");
            a.append(t.as_str());
            out.push(a);
        },
        None => {},
    }
    assert(views(out@) =~= tc);
    let ghost aw = action_words(action);
    match action {
        CargoAction::Run(CargoProfile::Release) => {
            out.push(String::from_str("run"));
            out.push(String::from_str("--release"));
        },
        CargoAction::Run(CargoProfile::Debug) => {
            out.push(String::from_str("run"));
        },
        CargoAction::Test => {
            out.push(String::from_str("test"));
        },
        CargoAction::Run(CargoProfile::Profile) => {},
    }
    assert(views(out@) =~= tc + aw);
    out.push(String::from_str("--manifest-path"));
    out.push(join_path(project, "Cargo.toml"));
    let ghost mid = seq![
        seq!['-', '-', 'm', 'a', 'n', 'i', 'f', 'e', 's', 't', '-', 'p', 'a', 't', 'h'],
        join(project@, text_cargo_toml()),
    ];
    assert(views(out@) =~= tc + aw + mid);
    let ghost fl: Seq<Seq<char>> = match opt_view(cargo_option) {
        Some(o) => ascii_words_of(o),
        None => Seq::empty(),
    };
    match cargo_option {
        Some(o) => {
            let words = ascii_words(o.as_str());
            push_all(&mut out, words);
        },
        None => {},
    }
    assert(views(out@) =~= tc + aw + mid + fl);
    out.push(String::from_str("--"));
    assert(views(out@) =~= tc + aw + mid + fl + seq![seq!['-', '-']]);
    push_all(&mut out, program_args.clone());
    out
}

/// The action of a run in release or debug profile.
pub fn run_action(release: bool) -> (r: CargoAction)
    ensures
        r == CargoAction::Run(if release { CargoProfile::Release } else { CargoProfile::Debug }),
{
    let profile = if release {
        CargoProfile::Release
    } else {
        CargoProfile::Debug
    };
    CargoAction::Run(profile)
}

/// Exporting to `to` is refused where it already is a directory.
pub fn check_export_destination(to: &String, to_is_dir: bool) -> (r: Result<(), CargoPlayError>)
    ensures
        to_is_dir <==> r is Err,
        r matches Err(e) ==> e == CargoPlayError::PathExistError(*to),
{
    if to_is_dir {
        Err(CargoPlayError::PathExistError(to.clone()))
    } else {
        Ok(())
    }
}

/// The exit code of the process: the toolchain's own, or -1 where it ended without one.
pub fn exit_code(code: Option<i32>) -> (r: i32)
    ensures
        r == match code {
            Some(c) => c,
            None => -1i32,
        },
{
    match code {
        Some(c) => c,
        None => -1,
    }
}

pub open spec fn text_target() -> Seq<char> {
    seq!['t', 'a', 'r', 'g', 'e', 't']
}

/// The directory below `target` that a build of the action puts its binary in.
pub open spec fn profile_dir(action: Option<CargoAction>) -> Option<Seq<char>> {
    match action {
        Some(CargoAction::Run(CargoProfile::Release)) => Some(seq!['r', 'e', 'l', 'e', 'a', 's', 'e']),
        Some(CargoAction::Run(CargoProfile::Debug)) => Some(seq!['d', 'e', 'b', 'u', 'g']),
        _ => None,
    }
}

/// Where an earlier build of the staged project left its binary: under `target`,
/// in the directory of the profile, named after the key in lower case.
pub fn cached_binary(temp: &str, action: Option<CargoAction>, key: &str) -> (r: String)
    ensures
        r@ == join(
            match profile_dir(action) {
                Some(d) => join(join(temp@, text_target()), d),
                None => join(temp@, text_target()),
            },
            lower_of(key@),
        ),
{
    proof {
        reveal_strlit("target");
        reveal_strlit("release");
        reveal_strlit("debug");
    }
    let target = join_path(temp, "target");
    proof {
        assert("target"@ =~= text_target());
        assert("release"@ =~= seq!['r', 'e', 'l', 'e', 'a', 's', 'e']);
        assert("debug"@ =~= seq!['d', 'e', 'b', 'u', 'g']);
    }
    let dir = match action {
        Some(CargoAction::Run(CargoProfile::Release)) => join_path(target.as_str(), "release"),
        Some(CargoAction::Run(CargoProfile::Debug)) => join_path(target.as_str(), "debug"),
        _ => target,
    };
    let name = lowercase(key);
    join_path(dir.as_str(), name.as_str())
}

proof fn lemma_block_bodies_nonempty(ls: Seq<Seq<char>>)
    ensures
        forall|k: int| 0 <= k < block_bodies(ls).len() ==> #[trigger] block_bodies(ls)[k].len() > 0,
    decreases ls.len(),
{
    if ls.len() > 0 && has_prefix(ls[0], header_marker()) {
        lemma_block_bodies_nonempty(ls.drop_first());
        let rest = block_bodies(ls.drop_first());
        assert forall|k: int| 0 <= k < block_bodies(ls).len() implies #[trigger] block_bodies(ls)[k].len() > 0 by {
            if header_body(ls[0]).len() > 0 && k > 0 {
                assert(block_bodies(ls)[k] == rest[k - 1]);
            }
        }
    }
}

/// Where no header line of a text declares a test-only dependency, extraction
/// gives build dependencies on exactly the header bodies, in line order, none
/// of them blank.
pub proof fn lemma_build_headers(text: Seq<char>, deps: Seq<Dependency>)
    requires
        forall|k: int| 0 <= k < file_bodies(text).len() ==> !has_prefix(#[trigger] file_bodies(text)[k], dev_marker()),
        deps.len() == file_bodies(text).len(),
        forall|k: int| 0 <= k < deps.len() ==> #[trigger] deps[k].classifies(file_bodies(text)[k]),
    ensures
        forall|k: int| 0 <= k < deps.len() ==> {
            &&& !(#[trigger] deps[k]).is_test()
            &&& deps[k].declaration() == file_bodies(text)[k]
            &&& deps[k].declaration().len() > 0
        },
{
    lemma_block_bodies_nonempty(skip_preamble(lines_of(text)));
    assert forall|k: int| 0 <= k < deps.len() implies {
        &&& !(#[trigger] deps[k]).is_test()
        &&& deps[k].declaration() == file_bodies(text)[k]
        &&& deps[k].declaration().len() > 0
    } by {
        assert(deps[k].classifies(file_bodies(text)[k]));
        assert(!has_prefix(file_bodies(text)[k], dev_marker()));
    }
}

/// Where every header line of a text starts with `dev:`, extraction gives
/// test-only dependencies on the bodies without that marker and the whitespace
/// after it.
pub proof fn lemma_dev_headers(text: Seq<char>, deps: Seq<Dependency>)
    requires
        forall|k: int| 0 <= k < file_bodies(text).len() ==> has_prefix(#[trigger] file_bodies(text)[k], dev_marker()),
        deps.len() == file_bodies(text).len(),
        forall|k: int| 0 <= k < deps.len() ==> #[trigger] deps[k].classifies(file_bodies(text)[k]),
    ensures
        forall|k: int| 0 <= k < deps.len() ==> {
            &&& (#[trigger] deps[k]).is_test()
            &&& deps[k].declaration() == trim_start_of(
                file_bodies(text)[k].subrange(4, file_bodies(text)[k].len() as int),
            )
        },
{
    assert forall|k: int| 0 <= k < deps.len() implies {
        &&& (#[trigger] deps[k]).is_test()
        &&& deps[k].declaration() == trim_start_of(
            file_bodies(text)[k].subrange(4, file_bodies(text)[k].len() as int),
        )
    } by {
        assert(deps[k].classifies(file_bodies(text)[k]));
        assert(has_prefix(file_bodies(text)[k], dev_marker()));
    }
}

} // verus!
