//! The binary that the hooks call: for which platform, from where, and whether it is up to date.

use crate::pathname::{join_path, path_join};
use crate::split::{words, words_of};
use crate::text::{copy, opt_text, same, texts, trim, trimmed};
use vstd::prelude::*;

verus! {

/// The version that the binary is to have.
pub const EXPECTED_VERSION: &'static str = "0.3.0";

/// A platform that there is a binary for.
#[derive(Clone, Copy, PartialEq, Eq, Debug, Structural)]
pub enum Platform {
    DarwinArm64,
    LinuxArm64,
    LinuxAmd64,
}

/// Why there is no platform.
#[derive(Debug)]
pub enum PlatformError {
    /// The text does not name a system and a processor.
    Malformed,
    /// There is no binary for this system and processor.
    Unsupported { os: String, arch: String },
    /// There is no binary for this machine.
    UnsupportedHost,
}

impl Platform {
    /// The platform's name.
    pub open spec fn label(self) -> Seq<char> {
        match self {
            Platform::DarwinArm64 => "darwin-arm64"@,
            Platform::LinuxArm64 => "linux-arm64"@,
            Platform::LinuxAmd64 => "linux-amd64"@,
        }
    }

    /// The platform's name.
    pub fn as_str(&self) -> (r: &'static str)
        ensures
            r@ == self.label(),
    {
        match self {
            Platform::DarwinArm64 => "darwin-arm64",
            Platform::LinuxArm64 => "linux-arm64",
            Platform::LinuxAmd64 => "linux-amd64",
        }
    }

    /// The platform of a system and a processor as `uname` names them.
    pub open spec fn of_uname(os: Seq<char>, arch: Seq<char>) -> Option<Platform> {
        if os == "Darwin"@ && arch == "arm64"@ {
            Some(Platform::DarwinArm64)
        } else if os == "Linux"@ && (arch == "aarch64"@ || arch == "arm64"@) {
            Some(Platform::LinuxArm64)
        } else if os == "Linux"@ && (arch == "x86_64"@ || arch == "amd64"@) {
            Some(Platform::LinuxAmd64)
        } else {
            None
        }
    }

    /// The platform that the output of `uname -sm` names, by its first two words.
    pub fn from_uname(uname_sm: &str) -> (r: Result<Platform, PlatformError>)
        ensures
            ({
                let w = words_of(uname_sm@);
                if w.len() < 2 {
                    r == Err::<Platform, PlatformError>(PlatformError::Malformed)
                } else {
                    match Platform::of_uname(w[0], w[1]) {
                        Some(p) => r == Ok::<Platform, PlatformError>(p),
                        None => r matches Err(PlatformError::Unsupported { os, arch }) && os@ == w[0]
                            && arch@ == w[1],
                    }
                }
            }),
    {
        let w: Vec<String> = words(uname_sm);
        assert(texts(w@).len() == w@.len());
        if w.len() < 2 {
            return Err(PlatformError::Malformed);
        }
        assert(texts(w@)[0] == w@[0]@ && texts(w@)[1] == w@[1]@);
        let os: &str = w[0].as_str();
        let arch: &str = w[1].as_str();
        if same(os, "Darwin") && same(arch, "arm64") {
            Ok(Platform::DarwinArm64)
        } else if same(os, "Linux") && (same(arch, "aarch64") || same(arch, "arm64")) {
            Ok(Platform::LinuxArm64)
        } else if same(os, "Linux") && (same(arch, "x86_64") || same(arch, "amd64")) {
            Ok(Platform::LinuxAmd64)
        } else {
            Err(PlatformError::Unsupported { os: copy(os), arch: copy(arch) })
        }
    }

    /// The platform of a system and a processor as the compiler names them.
    pub open spec fn of_target(os: Seq<char>, arch: Seq<char>) -> Option<Platform> {
        if os == "macos"@ && arch == "aarch64"@ {
            Some(Platform::DarwinArm64)
        } else if os == "linux"@ && arch == "aarch64"@ {
            Some(Platform::LinuxArm64)
        } else if os == "linux"@ && arch == "x86_64"@ {
            Some(Platform::LinuxAmd64)
        } else {
            None
        }
    }

    /// The platform of the machine that this was built for.
    pub fn host(target_os: &str, target_arch: &str) -> (r: Result<Platform, PlatformError>)
        ensures
            match Platform::of_target(target_os@, target_arch@) {
                Some(p) => r == Ok::<Platform, PlatformError>(p),
                None => r == Err::<Platform, PlatformError>(PlatformError::UnsupportedHost),
            },
    {
        if same(target_os, "macos") && same(target_arch, "aarch64") {
            Ok(Platform::DarwinArm64)
        } else if same(target_os, "linux") && same(target_arch, "aarch64") {
            Ok(Platform::LinuxArm64)
        } else if same(target_os, "linux") && same(target_arch, "x86_64") {
            Ok(Platform::LinuxAmd64)
        } else {
            Err(PlatformError::UnsupportedHost)
        }
    }
}

/// What the binary calls the machine it was built for.
pub fn platform_string(target_os: &str, target_arch: &str) -> (r: &'static str)
    ensures
        r@ == match Platform::of_target(target_os@, target_arch@) {
            Some(p) => p.label(),
            None => "unknown"@,
        },
{
    match Platform::host(target_os, target_arch) {
        Ok(p) => p.as_str(),
        Err(_) => "unknown",
    }
}

/// Where a directory `binaries` holds the binary of a platform.
pub open spec fn within(binaries: Seq<char>, binary: Seq<char>, p: Platform) -> Seq<char> {
    path_join(path_join(path_join(binaries, binary), p.label()), binary)
}

fn join_within(binaries: &str, binary: &str, p: Platform) -> (r: String)
    ensures
        r@ == within(binaries@, binary@, p),
{
    let a: String = join_path(binaries, binary);
    let b: String = join_path(a.as_str(), p.as_str());
    join_path(b.as_str(), binary)
}

/// A path in a list of its own, if there is a directory.
pub open spec fn listed_if(dir: Option<Seq<char>>, f: spec_fn(Seq<char>) -> Seq<Seq<char>>) -> Seq<
    Seq<char>,
> {
    match dir {
        Some(d) => f(d),
        None => seq![],
    }
}

/// Where the binary may be, in the order it is looked for: among the resources of an application
/// bundle, beside the program, in the source tree and, for the machine at hand, where it is built.
/// `up` and `upper` are the directories above the program's.
pub open spec fn search_paths(
    binary: Seq<char>,
    dir: Seq<char>,
    up: Option<Seq<char>>,
    upper: Option<Seq<char>>,
    p: Platform,
    host: Platform,
) -> Seq<Seq<char>> {
    let bundle = listed_if(
        up,
        |d: Seq<char>| seq![within(path_join(path_join(d, "Resources"@), "binaries"@), binary, p)],
    );
    let beside = seq![within(path_join(dir, "binaries"@), binary, p)];
    let source = listed_if(upper, |d: Seq<char>| seq![within(path_join(d, "binaries"@), binary, p)]);
    let built = if p == host {
        seq![path_join(dir, binary)] + listed_if(
            up,
            |d: Seq<char>|
                seq![
                    path_join(path_join(d, "debug"@), binary),
                    path_join(path_join(d, "release"@), binary),
                ],
        )
    } else {
        seq![]
    };
    bundle + beside + source + built
}

/// Where the binary may be, in the order it is looked for; the machine at hand must be one that
/// there is a binary for.
#[verifier::spinoff_prover]
#[verifier::rlimit(60)]
pub fn bundled_binary_search_paths(
    binary: &str,
    platform: Platform,
    host: Result<Platform, PlatformError>,
    exe_dir: &str,
    parent: &Option<String>,
    grandparent: &Option<String>,
) -> (r: Result<Vec<String>, PlatformError>)
    ensures
        match host {
            Err(e) => r == Err::<Vec<String>, PlatformError>(e),
            Ok(h) => r is Ok && texts(r->Ok_0@) == search_paths(
                binary@,
                exe_dir@,
                opt_text(*parent),
                opt_text(*grandparent),
                platform,
                h,
            ),
        },
{
    let h: Platform = match host {
        Err(e) => {
            return Err(e);
        },
        Ok(h) => h,
    };
    let mut out: Vec<String> = Vec::new();
    if let Some(up) = parent {
        let res: String = join_path(up.as_str(), "Resources");
        out.push(join_within(join_path(res.as_str(), "binaries").as_str(), binary, platform));
    }
    out.push(join_within(join_path(exe_dir, "binaries").as_str(), binary, platform));
    if let Some(upper) = grandparent {
        out.push(join_within(join_path(upper.as_str(), "binaries").as_str(), binary, platform));
    }
    if platform == h {
        out.push(join_path(exe_dir, binary));
        if let Some(up) = parent {
            out.push(join_path(join_path(up.as_str(), "debug").as_str(), binary));
            out.push(join_path(join_path(up.as_str(), "release").as_str(), binary));
        }
    }
    assert(texts(out@) =~= search_paths(
        binary@,
        exe_dir@,
        opt_text(*parent),
        opt_text(*grandparent),
        platform,
        h,
    ));
    Ok(out)
}

/// The first position that holds `true`, from `i` on; none where there is none.
pub open spec fn first_true(v: Seq<bool>, i: int) -> Option<int>
    decreases v.len() - i,
{
    if i < 0 || i >= v.len() {
        None
    } else if v[i] {
        Some(i)
    } else {
        first_true(v, i + 1)
    }
}

/// The first of the candidates that is a file; `present` tells of each whether it is one.
pub fn bundled_binary(candidates: &Vec<String>, present: &Vec<bool>) -> (r: Option<String>)
    requires
        present@.len() == candidates@.len(),
    ensures
        opt_text(r) == match first_true(present@, 0) {
            Some(i) => Some(candidates@[i]@),
            None => None::<Seq<char>>,
        },
{
    let mut i: usize = 0;
    while i < present.len()
        invariant
            i <= present@.len() == candidates@.len(),
            first_true(present@, i as int) == first_true(present@, 0),
        decreases present@.len() - i,
    {
        if present[i] {
            return Some(copy(candidates[i].as_str()));
        }
        i += 1;
    }
    None
}

/// The version that the output of `--version` names: its last word.
pub open spec fn named_version(output: Option<Seq<char>>) -> Option<Seq<char>> {
    match output {
        Some(t) => if words_of(t).len() > 0 {
            Some(words_of(t).last())
        } else {
            None
        },
        None => None,
    }
}

/// Whether an installed binary is up to date, by the output of its `--version`; none is where it
/// is missing or fails.
pub fn is_up_to_date(output: &Option<String>) -> (r: bool)
    ensures
        r == (named_version(opt_text(*output)) == Some(EXPECTED_VERSION@)),
{
    match output {
        Some(t) => {
            let w: Vec<String> = words(t.as_str());
            assert(texts(w@).len() == w@.len());
            if w.len() == 0 {
                return false;
            }
            assert(texts(w@).last() == w@[w@.len() - 1]@);
            same(w[w.len() - 1].as_str(), EXPECTED_VERSION)
        },
        None => false,
    }
}

// ---------------------------------------------------------------- installing on a host

/// How installing the binary on a host stands.
#[derive(Clone, Copy, PartialEq, Eq, Debug, Structural)]
pub enum InstallStep {
    /// Ask for the system and the processor.
    AskPlatform,
    /// Ask for the version that is there.
    AskVersion(Platform),
    /// Make the directory.
    MakeDir(Platform),
    /// Copy the binary.
    CopyBinary(Platform),
    /// Make it a program.
    MakeProgram,
    /// The end: the version is there already.
    UpToDate,
    /// The end: the binary was installed.
    Installed,
    /// The end: a step failed.
    Failed(InstallError),
}

/// Why installing failed.
#[derive(Clone, Copy, PartialEq, Eq, Debug, Structural)]
pub enum InstallError {
    /// A command could not be started.
    NotStarted,
    /// The host did not tell its system.
    NoPlatform,
    /// There is no binary for the host's system and processor.
    Unsupported,
    /// The directory could not be made.
    NoDir,
    /// The program came without that binary.
    NoBinary,
    /// The binary could not be copied.
    NotCopied,
    /// It could not be made a program.
    NoProgram,
}

/// What came of a step.
pub enum InstallReply {
    /// The command could not be started.
    NotStarted,
    /// There is no binary to copy.
    NoBinary,
    /// The command ended.
    Ended { success: bool, stdout: String },
}

/// The platform that the output of `uname -sm` names.
pub open spec fn platform_in(output: Seq<char>) -> Option<Platform> {
    let w = words_of(output);
    if w.len() < 2 {
        None
    } else {
        Platform::of_uname(w[0], w[1])
    }
}

/// The step that follows another.
pub open spec fn next_install(at: InstallStep, reply: InstallReply) -> InstallStep {
    match (at, reply) {
        (InstallStep::UpToDate, _) | (InstallStep::Installed, _) | (InstallStep::Failed(_), _) => at,
        (_, InstallReply::NotStarted) => InstallStep::Failed(InstallError::NotStarted),
        (_, InstallReply::NoBinary) => InstallStep::Failed(InstallError::NoBinary),
        (InstallStep::AskPlatform, InstallReply::Ended { success, stdout }) => if !success {
            InstallStep::Failed(InstallError::NoPlatform)
        } else {
            match platform_in(trimmed(stdout@)) {
                Some(p) => InstallStep::AskVersion(p),
                None => InstallStep::Failed(InstallError::Unsupported),
            }
        },
        (InstallStep::AskVersion(p), InstallReply::Ended { stdout, .. }) => if named_version(
            Some(stdout@),
        ) == Some(EXPECTED_VERSION@) {
            InstallStep::UpToDate
        } else {
            InstallStep::MakeDir(p)
        },
        (InstallStep::MakeDir(p), InstallReply::Ended { success, .. }) => if success {
            InstallStep::CopyBinary(p)
        } else {
            InstallStep::Failed(InstallError::NoDir)
        },
        (InstallStep::CopyBinary(_), InstallReply::Ended { success, .. }) => if success {
            InstallStep::MakeProgram
        } else {
            InstallStep::Failed(InstallError::NotCopied)
        },
        (InstallStep::MakeProgram, InstallReply::Ended { success, .. }) => if success {
            InstallStep::Installed
        } else {
            InstallStep::Failed(InstallError::NoProgram)
        },
    }
}

/// A host whose binary is up to date is left alone, and the binary counts as installed only when
/// every step before has gone well, for the platform that the host named.
pub proof fn each_step_follows_a_success(at: InstallStep, reply: InstallReply)
    ensures
        ({
            let next = next_install(at, reply);
            &&& next is UpToDate && at != next ==> at is AskVersion && (reply matches InstallReply::Ended {
                stdout,
                ..
            } && named_version(Some(stdout@)) == Some(EXPECTED_VERSION@))
            &&& next is MakeDir ==> at == InstallStep::AskVersion(next->MakeDir_0) && (
            reply matches InstallReply::Ended { stdout, .. } && named_version(Some(stdout@)) != Some(
                EXPECTED_VERSION@,
            ))
            &&& next is CopyBinary ==> at == InstallStep::MakeDir(next->CopyBinary_0) && (
            reply matches InstallReply::Ended { success, .. } && success)
            &&& next is MakeProgram ==> at is CopyBinary && (reply matches InstallReply::Ended {
                success,
                ..
            } && success)
            &&& next is Installed && at != next ==> at is MakeProgram && (
            reply matches InstallReply::Ended { success, .. } && success)
        }),
{
}

/// The step that follows another in installing the binary on a host.
pub fn install_remote(at: InstallStep, reply: InstallReply) -> (r: InstallStep)
    ensures
        r == next_install(at, reply),
{
    match at {
        InstallStep::UpToDate | InstallStep::Installed | InstallStep::Failed(_) => {
            return at;
        },
        _ => {},
    }
    let (success, stdout): (bool, String) = match reply {
        InstallReply::NotStarted => {
            return InstallStep::Failed(InstallError::NotStarted);
        },
        InstallReply::NoBinary => {
            return InstallStep::Failed(InstallError::NoBinary);
        },
        InstallReply::Ended { success, stdout } => (success, stdout),
    };
    match at {
        InstallStep::AskPlatform => if !success {
            InstallStep::Failed(InstallError::NoPlatform)
        } else {
            match Platform::from_uname(trim(stdout.as_str()).as_str()) {
                Ok(p) => InstallStep::AskVersion(p),
                Err(_) => InstallStep::Failed(InstallError::Unsupported),
            }
        },
        InstallStep::AskVersion(p) => if is_up_to_date(&Some(stdout)) {
            InstallStep::UpToDate
        } else {
            InstallStep::MakeDir(p)
        },
        InstallStep::MakeDir(p) => if success {
            InstallStep::CopyBinary(p)
        } else {
            InstallStep::Failed(InstallError::NoDir)
        },
        InstallStep::CopyBinary(_) => if success {
            InstallStep::MakeProgram
        } else {
            InstallStep::Failed(InstallError::NotCopied)
        },
        InstallStep::MakeProgram => if success {
            InstallStep::Installed
        } else {
            InstallStep::Failed(InstallError::NoProgram)
        },
        _ => at,
    }
}

/// The binary's place on a host.
pub open spec fn remote_binary(binary: Seq<char>) -> Seq<char> {
    "~/.ccc/bin/"@ + binary
}

/// The command that a step runs on the host; none for the copy, which runs here.
pub open spec fn install_command(at: InstallStep, binary: Seq<char>) -> Option<Seq<char>> {
    match at {
        InstallStep::AskPlatform => Some("uname -sm"@),
        InstallStep::AskVersion(_) => Some(
            "test -x "@ + remote_binary(binary) + " && "@ + remote_binary(binary)
                + " --version || true"@,
        ),
        InstallStep::MakeDir(_) => Some("mkdir -p ~/.ccc/bin"@),
        InstallStep::MakeProgram => Some("chmod 755 "@ + remote_binary(binary)),
        _ => None,
    }
}

/// The command that a step runs on the host.
pub fn remote_command(at: InstallStep, binary: &str) -> (r: Option<String>)
    ensures
        opt_text(r) == install_command(at, binary@),
{
    match at {
        InstallStep::AskPlatform => Some(copy("uname -sm")),
        InstallStep::AskVersion(_) => {
            let mut s: String = copy("test -x ");
            s.append("~/.ccc/bin/");
            s.append(binary);
            s.append(" && ");
            s.append("~/.ccc/bin/");
            s.append(binary);
            s.append(" --version || true");
            assert(s@ =~= "test -x "@ + remote_binary(binary@) + " && "@ + remote_binary(binary@)
                + " --version || true"@);
            Some(s)
        },
        InstallStep::MakeDir(_) => Some(copy("mkdir -p ~/.ccc/bin")),
        InstallStep::MakeProgram => {
            let mut s: String = copy("chmod 755 ");
            s.append("~/.ccc/bin/");
            s.append(binary);
            assert(s@ =~= "chmod 755 "@ + remote_binary(binary@));
            Some(s)
        },
        _ => None,
    }
}

/// The arguments that copy the binary to a host.
pub fn copy_args(src: &str, host_alias: &str, binary: &str) -> (r: Vec<String>)
    ensures
        texts(r@) == seq!["-q"@, "-p"@, src@, host_alias@ + ":.ccc/bin/"@ + binary@],
{
    let mut to: String = copy(host_alias);
    to.append(":.ccc/bin/");
    to.append(binary);
    let r: Vec<String> = vec![copy("-q"), copy("-p"), copy(src), to];
    assert(texts(r@) =~= seq!["-q"@, "-p"@, src@, host_alias@ + ":.ccc/bin/"@ + binary@]);
    r
}

// ---------------------------------------------------------------- what an installation promises

/// There are binaries for Macs with their own processors and for Linux on two processors, and the same
/// machine is told alike by what it says of itself and by what a program there was built for.
pub proof fn machines_are_told_alike(os: Seq<char>, arch: Seq<char>)
    ensures
        Platform::of_uname("Darwin"@, "arm64"@) == Some(Platform::DarwinArm64),
        Platform::of_uname("Linux"@, "aarch64"@) == Some(Platform::LinuxArm64),
        Platform::of_uname("Linux"@, "arm64"@) == Some(Platform::LinuxArm64),
        Platform::of_uname("Linux"@, "x86_64"@) == Some(Platform::LinuxAmd64),
        Platform::of_uname("Linux"@, "amd64"@) == Some(Platform::LinuxAmd64),
        Platform::of_target("macos"@, "aarch64"@) == Platform::of_uname("Darwin"@, "arm64"@),
        Platform::of_target("linux"@, "aarch64"@) == Platform::of_uname("Linux"@, "aarch64"@),
        Platform::of_target("linux"@, "x86_64"@) == Platform::of_uname("Linux"@, "x86_64"@),
        os != "Darwin"@ && os != "Linux"@ ==> Platform::of_uname(os, arch) is None,
        os != "macos"@ && os != "linux"@ ==> Platform::of_target(os, arch) is None,
        os == "Darwin"@ ==> (Platform::of_uname(os, arch) is Some <==> arch == "arm64"@),
        os == "macos"@ ==> (Platform::of_target(os, arch) is Some <==> arch == "aarch64"@),
        os == "Linux"@ ==> (Platform::of_uname(os, arch) is Some <==> arch == "aarch64"@ || arch
            == "arm64"@ || arch == "x86_64"@ || arch == "amd64"@),
        os == "linux"@ ==> (Platform::of_target(os, arch) is Some <==> arch == "aarch64"@ || arch
            == "x86_64"@),
{
    reveal_strlit("Darwin");
    reveal_strlit("Linux");
    reveal_strlit("arm64");
    reveal_strlit("aarch64");
    reveal_strlit("x86_64");
    reveal_strlit("amd64");
    reveal_strlit("macos");
    reveal_strlit("linux");
    assert("Darwin"@.len() == 6 && "Linux"@.len() == 5);
    assert("macos"@[0] == 'm' && "linux"@[0] == 'l');
    assert("arm64"@.len() == 5 && "amd64"@.len() == 5);
    assert("arm64"@[1] == 'r' && "amd64"@[1] == 'm');
    assert("aarch64"@.len() == 7 && "x86_64"@.len() == 6);
}

/// The binaries of a system and a processor lie under a name that says both, no two under the same.
pub proof fn platforms_have_their_own_names(p: Platform, q: Platform)
    ensures
        p.label() == q.label() ==> p == q,
        p == Platform::DarwinArm64 <==> p.label() == "darwin-arm64"@,
        p == Platform::LinuxArm64 <==> p.label() == "linux-arm64"@,
        p == Platform::LinuxAmd64 <==> p.label() == "linux-amd64"@,
{
    reveal_strlit("darwin-arm64");
    reveal_strlit("linux-arm64");
    reveal_strlit("linux-amd64");
    assert("darwin-arm64"@.len() == 12);
    assert("linux-arm64"@.len() == 11 && "linux-arm64"@[7] == 'r');
    assert("linux-amd64"@.len() == 11 && "linux-amd64"@[7] == 'm');
}

/// A binary is looked for under its platform's name in the bundle, beside the program and in the source
/// tree, in this order; what was built here is taken only for this machine's own platform.
pub proof fn binary_is_looked_for_by_its_platform(
    binary: Seq<char>,
    dir: Seq<char>,
    up: Seq<char>,
    upper: Seq<char>,
    p: Platform,
    host: Platform,
)
    ensures
        ({
            let all = search_paths(binary, dir, Some(up), Some(upper), p, host);
            let below = |d: Seq<char>| path_join(path_join(path_join(d, binary), p.label()), binary);
            &&& all.len() == if p == host {
                6nat
            } else {
                3
            }
            &&& all[0] == below(path_join(path_join(up, "Resources"@), "binaries"@))
            &&& all[1] == below(path_join(dir, "binaries"@))
            &&& all[2] == below(path_join(upper, "binaries"@))
            &&& p == host ==> all[3] == path_join(dir, binary) && all[4] == path_join(
                path_join(up, "debug"@),
                binary,
            ) && all[5] == path_join(path_join(up, "release"@), binary)
        }),
        search_paths(binary, dir, None, None, p, host).contains(
            path_join(path_join(path_join(path_join(dir, "binaries"@), binary), p.label()), binary),
        ),
        p != host ==> search_paths(binary, dir, None, None, p, host).len() == 1,
{
    let s = search_paths(binary, dir, None, None, p, host);
    assert(s[0] == within(path_join(dir, "binaries"@), binary, p));
}

/// The binary taken is the first that is there.
pub proof fn first_binary_there_is_taken(
    candidates: &Vec<String>,
    present: &Vec<bool>,
    r: Option<String>,
    i: int,
)
    requires
        present@.len() == candidates@.len(),
        call_ensures(bundled_binary, (candidates, present), r),
        0 <= i < present@.len(),
    ensures
        present@[i] && (forall|k: int| 0 <= k < i ==> !#[trigger] present@[k]) ==> (
        r matches Some(t) && t@ == candidates@[i]@),
        (forall|k: int| 0 <= k < present@.len() ==> !#[trigger] present@[k]) ==> r is None,
{
    if present@[i] && (forall|k: int| 0 <= k < i ==> !#[trigger] present@[k]) {
        lemma_first_true(present@, 0, i);
    }
    if forall|k: int| 0 <= k < present@.len() ==> !#[trigger] present@[k] {
        lemma_no_true(present@, 0);
    }
}

proof fn lemma_first_true(v: Seq<bool>, from: int, i: int)
    requires
        0 <= from <= i < v.len(),
        v[i],
        forall|k: int| from <= k < i ==> !#[trigger] v[k],
    ensures
        first_true(v, from) == Some(i),
    decreases i - from,
{
    if from < i {
        lemma_first_true(v, from + 1, i);
    }
}

proof fn lemma_no_true(v: Seq<bool>, from: int)
    requires
        0 <= from <= v.len(),
        forall|k: int| from <= k < v.len() ==> !#[trigger] v[k],
    ensures
        first_true(v, from) is None,
    decreases v.len() - from,
{
    if from < v.len() {
        lemma_no_true(v, from + 1);
    }
}

/// A binary is up to date where the last word that it says of itself is the version that belongs to this
/// program; one that says nothing is not.
pub proof fn binary_tells_its_version(output: &Option<String>, r: bool)
    requires
        call_ensures(is_up_to_date, (output,), r),
    ensures
        output is None ==> !r,
        output matches Some(t) ==> (r <==> words_of(t@).len() > 0 && words_of(t@).last() == "0.3.0"@),
{
}

/// All that installing on a host can come upon.
pub struct InstallWorld {
    pub machine: InstallReply,
    pub version: InstallReply,
    pub dir: InstallReply,
    pub copy: InstallReply,
    pub program: InstallReply,
}

/// What comes of a step in this world.
pub open spec fn install_reply(w: InstallWorld, at: InstallStep) -> InstallReply {
    match at {
        InstallStep::AskPlatform => w.machine,
        InstallStep::AskVersion(_) => w.version,
        InstallStep::MakeDir(_) => w.dir,
        InstallStep::CopyBinary(_) => w.copy,
        _ => w.program,
    }
}

/// How many steps can still follow.
pub open spec fn install_left(at: InstallStep) -> nat {
    match at {
        InstallStep::AskPlatform => 5,
        InstallStep::AskVersion(_) => 4,
        InstallStep::MakeDir(_) => 3,
        InstallStep::CopyBinary(_) => 2,
        InstallStep::MakeProgram => 1,
        _ => 0,
    }
}

/// Whether a run from `at` on takes the step `goal`.
pub open spec fn installs_by(at: InstallStep, goal: InstallStep, w: InstallWorld) -> bool
    decreases install_left(at),
{
    at == goal || (!(at is UpToDate) && !(at is Installed) && !(at is Failed) && installs_by(
        next_install(at, install_reply(w, at)),
        goal,
        w,
    ))
}

/// A run copies the binary of the host's own platform, and only where the version there is another; it
/// ends well exactly where that version was there or everything after it went well.
pub proof fn binary_of_the_host_is_installed(w: InstallWorld, os: Seq<char>, arch: Seq<char>, p: Platform)
    requires
        w.machine matches InstallReply::Ended { success, stdout } && success && words_of(
            trimmed(stdout@),
        ) == seq![os, arch],
        Platform::of_uname(os, arch) == Some(p),
        w.version is Ended,
        w.dir is Ended,
        w.copy is Ended,
        w.program is Ended,
    ensures
        ({
            let told = w.version->stdout@;
            let there = words_of(told).len() > 0 && words_of(told).last() == "0.3.0"@;
            let start = InstallStep::AskPlatform;
            &&& installs_by(start, InstallStep::UpToDate, w) <==> there
            &&& installs_by(start, InstallStep::CopyBinary(p), w) <==> !there && w.dir->success
            &&& installs_by(start, InstallStep::Installed, w) <==> !there && w.dir->success
                && w.copy->success && w.program->success
            &&& installs_by(start, InstallStep::Failed(InstallError::NoDir), w) <==> !there
                && !w.dir->success
            &&& installs_by(start, InstallStep::Failed(InstallError::NotCopied), w) <==> !there
                && w.dir->success && !w.copy->success
            &&& installs_by(start, InstallStep::Failed(InstallError::NoProgram), w) <==> !there
                && w.dir->success && w.copy->success && !w.program->success
        }),
{
    reveal_with_fuel(installs_by, 7);
}

/// Every command speaks of the binary where it is installed, and the copy goes there.
pub proof fn commands_speak_of_the_installed_binary(
    binary: Seq<char>,
    p: Platform,
    src: &str,
    host_alias: &str,
    name: &str,
    args: Vec<String>,
)
    requires
        call_ensures(copy_args, (src, host_alias, name), args),
    ensures
        install_command(InstallStep::AskPlatform, binary) == Some("uname -sm"@),
        install_command(InstallStep::AskVersion(p), binary) == Some(
            "test -x "@ + ("~/.ccc/bin/"@ + binary) + " && "@ + ("~/.ccc/bin/"@ + binary)
                + " --version || true"@,
        ),
        install_command(InstallStep::MakeDir(p), binary) == Some("mkdir -p ~/.ccc/bin"@),
        install_command(InstallStep::MakeProgram, binary) == Some(
            "chmod 755 "@ + ("~/.ccc/bin/"@ + binary),
        ),
        args@.len() == 4,
        args@[2]@ == src@,
        args@[3]@ == host_alias@ + ":.ccc/bin/"@ + name@,
{
    assert(texts(args@).len() == 4);
    assert(texts(args@)[2] == args@[2]@);
    assert(texts(args@)[3] == args@[3]@);
}

} // verus!
