//! Where to look for the diarization helper program.
use vstd::prelude::*;
use crate::text;
use crate::text::{chars_of, matches_at, same_text};

verus! {

/// Why the search ends when the project root should be known and is not.
pub const NO_ROOT: &'static str = "Failed to determine project root";

/// Why the search ends when no place has the helper.
pub const NOT_FOUND: &'static str = "diarize-helper binary not found. Build with 'cargo build -p diarize-helper --release' or set MEETILY_DIARIZE_HELPER env var.";

/// One place to look at, in the order of the search.
#[derive(Debug)]
pub enum Probe {
    /// The file that the environment names.
    EnvFile,
    /// A file in the directory of the running program.
    ExeFile(String),
    /// Any helper in the directory of the running program.
    ExeScan,
    /// A file in the resource directory.
    ResourceFile(String),
    /// Any helper in the resource directory.
    ResourceScan,
    /// A file below the project root.
    RootFile(String),
    /// There should be a project root and is none: give up.
    NoRoot,
}

/// The contents of a place.
pub enum ProbeView {
    EnvFile,
    ExeFile(Seq<char>),
    ExeScan,
    ResourceFile(Seq<char>),
    ResourceScan,
    RootFile(Seq<char>),
    NoRoot,
}

impl View for Probe {
    type V = ProbeView;

    open spec fn view(&self) -> ProbeView {
        match self {
            Probe::EnvFile => ProbeView::EnvFile,
            Probe::ExeFile(s) => ProbeView::ExeFile(s@),
            Probe::ExeScan => ProbeView::ExeScan,
            Probe::ResourceFile(s) => ProbeView::ResourceFile(s@),
            Probe::ResourceScan => ProbeView::ResourceScan,
            Probe::RootFile(s) => ProbeView::RootFile(s@),
            Probe::NoRoot => ProbeView::NoRoot,
        }
    }
}

/// The contents of a list of places.
pub open spec fn probe_views(v: Seq<Probe>) -> Seq<ProbeView> {
    Seq::new(v.len(), |i: int| v[i]@)
}

/// Whether the environment names a build directory with a project around it.
#[derive(Debug, Clone, Copy, PartialEq, Eq, Structural)]
pub enum ProjectRoot {
    /// No build directory is named.
    Unset,
    /// One is named, but it has no grandparent.
    Missing,
    /// The project root is known.
    Known,
}

/// What follows the architecture in the triple of an operating system, where
/// the helper is built for it.
pub open spec fn triple_tail(os: Seq<char>) -> Option<Seq<char>> {
    if os == "linux"@ {
        Some("-unknown-linux-gnu"@)
    } else if os == "macos"@ {
        Some("-apple-darwin"@)
    } else if os == "windows"@ {
        Some("-pc-windows-msvc"@)
    } else {
        None
    }
}

/// The target triple of a machine: what the environment says, else that of a
/// machine the helper is built for, else unknown.
pub open spec fn triple(env: Option<Seq<char>>, os: Seq<char>, arch: Seq<char>) -> Seq<char> {
    match (env, triple_tail(os)) {
        (Some(named), _) => named,
        (None, Some(tail)) => if arch == "x86_64"@ || arch == "aarch64"@ {
            arch + tail
        } else {
            "unknown"@
        },
        (None, None) => "unknown"@,
    }
}

/// The target triple that the file name of the bundled helper holds.
pub fn target_triple(env: Option<String>, os: &str, arch: &str) -> (r: String)
    ensures
        r@ == triple(text::opt(env), os@, arch@),
{
    if let Some(named) = env {
        return named;
    }
    let tail: &str = if same_text(os, "linux") {
        "-unknown-linux-gnu"
    } else if same_text(os, "macos") {
        "-apple-darwin"
    } else if same_text(os, "windows") {
        "-pc-windows-msvc"
    } else {
        return "unknown".to_owned();
    };
    if same_text(arch, "x86_64") || same_text(arch, "aarch64") {
        let mut out = String::new();
        out.append(arch);
        out.append(tail);
        assert(out@ =~= arch@ + tail@);
        out
    } else {
        "unknown".to_owned()
    }
}

/// The file name of the bundled helper for a target.
pub open spec fn bundled_name(triple: Seq<char>, windows: bool) -> Seq<char> {
    if windows {
        "diarize-helper-"@ + triple + ".exe"@
    } else {
        "diarize-helper-"@ + triple
    }
}

/// The file name of the bundled helper for a target.
pub fn helper_file_name(triple: &str, windows: bool) -> (r: String)
    ensures
        r@ == bundled_name(triple@, windows),
{
    let mut out = String::new();
    out.append("diarize-helper-");
    out.append(triple);
    if windows {
        out.append(".exe");
    }
    assert(out@ =~= bundled_name(triple@, windows));
    out
}

/// `name` ends with `tail`.
pub open spec fn ends_with(name: Seq<char>, tail: Seq<char>) -> bool {
    text::occurs_at(name, tail, name.len() - tail.len())
}

/// The name of a file that is a helper and no build record of one.
pub open spec fn helper_like(name: Seq<char>) -> bool {
    text::has_prefix(name, "diarize-helper"@) && !ends_with(name, ".d"@)
}

/// Whether a directory entry is a helper.
pub fn is_helper_name(name: &str) -> (r: bool)
    ensures
        r == helper_like(name@),
{
    let chars = chars_of(name);
    let prefix = chars_of("diarize-helper");
    let tail = chars_of(".d");
    if !matches_at(&chars, &prefix, 0) {
        return false;
    }
    if chars.len() < tail.len() {
        return true;
    }
    !matches_at(&chars, &tail, chars.len() - tail.len())
}

/// `i` is the first helper in a listing.
pub open spec fn first_helper(names: Seq<Seq<char>>, i: int) -> bool {
    &&& 0 <= i < names.len()
    &&& helper_like(names[i])
    &&& forall|j: int| 0 <= j < i ==> !helper_like(#[trigger] names[j])
}

/// The first helper in a directory listing.
pub fn pick_entry(names: &[String]) -> (r: Option<usize>)
    ensures
        match r {
            Some(i) => first_helper(text::views(names@), i as int),
            None => forall|j: int|
                0 <= j < names@.len() ==> !helper_like(#[trigger] text::views(names@)[j]),
        },
{
    let mut i: usize = 0;
    while i < names.len()
        invariant
            i <= names@.len(),
            forall|j: int| 0 <= j < i ==> !helper_like(#[trigger] text::views(names@)[j]),
        decreases names@.len() - i,
    {
        assert(text::views(names@)[i as int] == names@[i as int]@);
        if is_helper_name(names[i].as_str()) {
            return Some(i);
        }
        i += 1;
    }
    None
}

/// The places to look at, in order.
pub open spec fn plan(
    env_named: bool,
    exe_dir: bool,
    resource_dir: bool,
    root: ProjectRoot,
    bundled: Seq<char>,
) -> Seq<ProbeView> {
    let env = if env_named {
        seq![ProbeView::EnvFile]
    } else {
        Seq::empty()
    };
    let exe = if exe_dir {
        seq![ProbeView::ExeFile(bundled), ProbeView::ExeScan]
    } else {
        Seq::empty()
    };
    let resource = if resource_dir {
        seq![ProbeView::ResourceFile(bundled), ProbeView::ResourceScan]
    } else {
        Seq::empty()
    };
    let built = match root {
        ProjectRoot::Unset => Seq::empty(),
        ProjectRoot::Missing => seq![ProbeView::NoRoot],
        ProjectRoot::Known => seq![
            ProbeView::RootFile("target/release/diarize-helper"@),
            ProbeView::RootFile("target/debug/diarize-helper"@),
            ProbeView::RootFile("target/release/diarize-helper.exe"@),
            ProbeView::RootFile("target/debug/diarize-helper.exe"@),
        ],
    };
    env + exe + resource + built
}

/// Append one place.
fn push_probe(out: &mut Vec<Probe>, p: Probe)
    ensures
        probe_views(final(out)@) == probe_views(old(out)@).push(p@),
{
    let ghost before = out@;
    let ghost v = p@;
    out.push(p);
    assert(probe_views(out@) =~= probe_views(before).push(v));
}

/// The places to look for the helper, in order: the file that the environment
/// names, next to the running program, among the resources, in the build
/// directories of the project. The first one that is there is taken.
pub fn search_plan(
    env_named: bool,
    exe_dir: bool,
    resource_dir: bool,
    root: ProjectRoot,
    bundled: &str,
) -> (r: Vec<Probe>)
    ensures
        probe_views(r@) == plan(env_named, exe_dir, resource_dir, root, bundled@),
{
    let mut out: Vec<Probe> = Vec::new();
    assert(probe_views(out@) =~= Seq::<ProbeView>::empty());
    if env_named {
        push_probe(&mut out, Probe::EnvFile);
    }
    if exe_dir {
        push_probe(&mut out, Probe::ExeFile(bundled.to_owned()));
        push_probe(&mut out, Probe::ExeScan);
    }
    if resource_dir {
        push_probe(&mut out, Probe::ResourceFile(bundled.to_owned()));
        push_probe(&mut out, Probe::ResourceScan);
    }
    match root {
        ProjectRoot::Unset => {},
        ProjectRoot::Missing => {
            push_probe(&mut out, Probe::NoRoot);
        },
        ProjectRoot::Known => {
            push_probe(&mut out, Probe::RootFile("target/release/diarize-helper".to_owned()));
            push_probe(&mut out, Probe::RootFile("target/debug/diarize-helper".to_owned()));
            push_probe(&mut out, Probe::RootFile("target/release/diarize-helper.exe".to_owned()));
            push_probe(&mut out, Probe::RootFile("target/debug/diarize-helper.exe".to_owned()));
        },
    }
    assert(probe_views(out@) =~= plan(env_named, exe_dir, resource_dir, root, bundled@));
    out
}

/// The search passes place `i`: the helper is not there, and it may go on.
pub open spec fn passed(places: Seq<ProbeView>, there: Seq<bool>, i: int) -> bool {
    !there[i] && places[i] != ProbeView::NoRoot
}

/// Where the search ends: at the first place with the helper, if the search gets
/// there. `there` tells for each place whether it has the helper.
pub fn settle(places: &[Probe], there: &[bool]) -> (r: Result<usize, String>)
    requires
        places@.len() == there@.len(),
    ensures
        ({
            let all = probe_views(places@);
            match r {
                Ok(i) => i < all.len() && all[i as int] != ProbeView::NoRoot && there@[i as int] && (
                forall|j: int| 0 <= j < i ==> #[trigger] passed(all, there@, j)),
                Err(e) => {
                    ||| e@ == NOT_FOUND@ && (forall|j: int|
                        0 <= j < all.len() ==> #[trigger] passed(all, there@, j))
                    ||| e@ == NO_ROOT@ && (exists|i: int|
                        0 <= i < all.len() && #[trigger] all[i] == ProbeView::NoRoot && (forall|
                            j: int,
                        | 0 <= j < i ==> #[trigger] passed(all, there@, j)))
                },
            }
        }),
{
    let ghost all = probe_views(places@);
    let mut i: usize = 0;
    while i < places.len()
        invariant
            i <= places@.len(),
            places@.len() == there@.len(),
            all == probe_views(places@),
            forall|j: int| 0 <= j < i ==> #[trigger] passed(all, there@, j),
        decreases places@.len() - i,
    {
        assert(all[i as int] == places@[i as int]@);
        if let Probe::NoRoot = places[i] {
            return Err(NO_ROOT.to_owned());
        }
        if there[i] {
            return Ok(i);
        }
        assert(passed(all, there@, i as int));
        i += 1;
    }
    Err(NOT_FOUND.to_owned())
}

/// The triple of a machine is what the environment says; else it names the
/// machine and its system, for those that the helper is built for.
pub proof fn law_triple(named: Seq<char>, os: Seq<char>, arch: Seq<char>)
    ensures
        triple(Some(named), os, arch) == named,
        (arch == "x86_64"@ || arch == "aarch64"@) && os == "linux"@ ==> triple(None, os, arch)
            == arch + "-unknown-linux-gnu"@,
        (arch == "x86_64"@ || arch == "aarch64"@) && os == "macos"@ ==> triple(None, os, arch)
            == arch + "-apple-darwin"@,
        (arch == "x86_64"@ || arch == "aarch64"@) && os == "windows"@ ==> triple(None, os, arch)
            == arch + "-pc-windows-msvc"@,
        (arch != "x86_64"@ && arch != "aarch64"@) || (os != "linux"@ && os != "macos"@ && os
            != "windows"@) ==> triple(None, os, arch) == "unknown"@,
        bundled_name(named, false) == "diarize-helper-"@ + named,
        bundled_name(named, true) == "diarize-helper-"@ + named + ".exe"@,
{
    reveal_strlit("linux");
    reveal_strlit("macos");
    reveal_strlit("windows");
    assert("linux"@[0] == 'l' && "macos"@[0] == 'm' && "windows"@[0] == 'w');
}

/// A helper's name begins with the program's and does not end as a build record
/// does. What is bundled is one.
pub proof fn law_helper_like(tail: Seq<char>)
    ensures
        helper_like("diarize-helper"@ + tail) <==> !(tail.len() >= 2 && tail[tail.len() - 2] == '.'
            && tail[tail.len() - 1] == 'd'),
{
    reveal_strlit("diarize-helper");
    reveal_strlit(".d");
    let p = "diarize-helper"@;
    let name = p + tail;
    let n = name.len() as int;
    assert(name.subrange(0, p.len() as int) =~= p);
    assert(text::occurs_at(name, p, 0));
    let end = name.subrange(n - 2, n);
    assert(name[n - 2] == end[0] && name[n - 1] == end[1]);
    if ends_with(name, ".d"@) {
        assert(end =~= ".d"@);
        if tail.len() == 0 {
            assert(name =~= p);
        } else if tail.len() == 1 {
            assert(name[n - 2] == p[13]);
        }
    }
    if tail.len() >= 2 && tail[tail.len() - 2] == '.' && tail[tail.len() - 1] == 'd' {
        assert(end =~= ".d"@);
    }
}

/// The first helper of a listing is one, and no entry before it is.
pub proof fn law_first_helper(names: Seq<Seq<char>>, i: int, j: int)
    requires
        first_helper(names, i),
        0 <= j < names.len(),
        helper_like(names[j]),
    ensures
        0 <= i <= j,
        helper_like(names[i]),
{
}

/// The places that are looked at, and their order: the file that the environment
/// names comes first, then the running program's directory, the resources, and
/// the builds of the project, if those are known.
pub proof fn law_plan(
    env_named: bool,
    exe_dir: bool,
    resource_dir: bool,
    root: ProjectRoot,
    bundled: Seq<char>,
)
    ensures
        ({
            let all = plan(env_named, exe_dir, resource_dir, root, bundled);
            let a: int = if env_named { 1 } else { 0 };
            let b: int = a + if exe_dir { 2int } else { 0 };
            let c: int = b + if resource_dir { 2int } else { 0 };
            &&& env_named ==> all[0] == ProbeView::EnvFile
            &&& exe_dir ==> all[a] == ProbeView::ExeFile(bundled) && all[a + 1]
                == ProbeView::ExeScan
            &&& resource_dir ==> all[b] == ProbeView::ResourceFile(bundled) && all[b + 1]
                == ProbeView::ResourceScan
            &&& root == ProjectRoot::Unset ==> all.len() == c
            &&& root == ProjectRoot::Missing ==> all.len() == c + 1 && all[c] == ProbeView::NoRoot
            &&& root == ProjectRoot::Known ==> all.len() == c + 4 && all[c] == ProbeView::RootFile(
                "target/release/diarize-helper"@,
            ) && all[c + 1] == ProbeView::RootFile("target/debug/diarize-helper"@) && all[c + 2]
                == ProbeView::RootFile("target/release/diarize-helper.exe"@) && all[c + 3]
                == ProbeView::RootFile("target/debug/diarize-helper.exe"@)
        }),
{
}

/// A place is passed when the helper is not there, and the search may go on.
pub proof fn law_passed(places: Seq<ProbeView>, there: Seq<bool>, i: int)
    ensures
        passed(places, there, i) <==> !there[i] && places[i] !is NoRoot,
{
}

/// The contents of a list of places are those of each, in order.
pub proof fn law_probe_views(v: Seq<Probe>, i: int)
    requires
        0 <= i < v.len(),
    ensures
        probe_views(v).len() == v.len(),
        v[i] is EnvFile <==> probe_views(v)[i] is EnvFile,
        v[i] is ExeScan <==> probe_views(v)[i] is ExeScan,
        v[i] is ResourceScan <==> probe_views(v)[i] is ResourceScan,
        v[i] is NoRoot <==> probe_views(v)[i] is NoRoot,
        v[i] matches Probe::ExeFile(s) ==> probe_views(v)[i] == ProbeView::ExeFile(s@),
        v[i] matches Probe::ResourceFile(s) ==> probe_views(v)[i] == ProbeView::ResourceFile(s@),
        v[i] matches Probe::RootFile(s) ==> probe_views(v)[i] == ProbeView::RootFile(s@),
{
}

} // verus!
