//! Where files are browsed: here, or on a remote machine.

use crate::explorer::types::{CopyFailure, CopySummary};
use crate::text::{blank, copy, is_blank, opt_text, texts, trim, trimmed};
use vstd::prelude::*;

verus! {

/// A program with its arguments.
#[derive(Debug)]
pub struct CommandLine {
    pub program: String,
    pub args: Vec<String>,
}

/// A program with its arguments, as text.
pub type CommandView = (Seq<char>, Seq<Seq<char>>);

impl CommandLine {
    pub open spec fn view(&self) -> CommandView {
        (self.program@, texts(self.args@))
    }
}

/// A command as text, if there is one.
pub open spec fn opt_command(c: Option<CommandLine>) -> Option<CommandView> {
    match c {
        Some(x) => Some(x@),
        None => None,
    }
}

/// Where files are browsed: the commands that copy and search there.
pub trait FileSource {
    /// The command that copies a file from here into the directory `dest`.
    spec fn copying(&self, source: Seq<char>, dest: Seq<char>) -> CommandView;

    /// The command that copies the file `path` from there to `dest` here.
    spec fn fetching(&self, path: Seq<char>, dest: Seq<char>) -> CommandView;

    /// The command that searches; none where nothing is searched for.
    spec fn searching(&self, query: Seq<char>, glob: Option<Seq<char>>) -> Option<CommandView>;

    /// The command that copies a file from here into the directory `dest`.
    fn copy_into(&self, source: &str, dest: &str) -> (r: CommandLine)
        ensures
            r@ == self.copying(source@, dest@),
    ;

    /// The command that copies the file `path` from there to `dest` here.
    fn download_to(&self, path: &str, dest: &str) -> (r: CommandLine)
        ensures
            r@ == self.fetching(path@, dest@),
    ;

    /// The command that searches; none where nothing is searched for.
    fn search(&self, query: &str, glob: &Option<String>) -> (r: Option<CommandLine>)
        ensures
            opt_command(r) == self.searching(query@, opt_text(*glob)),
    ;
}

/// The pattern of names to search among, where one is given.
pub open spec fn given_glob(glob: Option<Seq<char>>) -> Option<Seq<char>> {
    match glob {
        Some(g) => if blank(g) {
            None
        } else {
            Some(g)
        },
        None => None,
    }
}

/// Where an instance runs.
#[derive(Clone, Copy, PartialEq, Eq, Debug, Structural)]
pub enum InstanceKind {
    Local,
    Remote,
}

/// Which files are browsed.
#[derive(Debug)]
pub enum SourceChoice {
    Local { root: String },
    Remote { alias: String, root: String },
}

/// Why no files can be browsed.
#[derive(Clone, Copy, PartialEq, Eq, Debug, Structural)]
pub enum SourceError {
    /// The instance has no directory.
    NoDirectory,
    /// The directory is blank.
    BlankDirectory,
    /// The instance names no machine.
    NoHost,
    /// The root does not begin at the root of the file system.
    RelativeRoot,
    /// The root cannot be resolved.
    UnresolvedRoot,
}

/// The root to browse: the one given, unless it is blank, or else the instance's directory.
pub open spec fn chosen_root(given: Option<String>, directory: Option<String>) -> Option<String> {
    if given is Some && !blank(given->0@) {
        given
    } else {
        directory
    }
}

/// Which files are browsed for an instance.
pub fn make_source(
    kind: InstanceKind,
    directory: Option<String>,
    host_alias: Option<String>,
    root: Option<String>,
) -> (r: Result<SourceChoice, SourceError>)
    ensures
        r == match chosen_root(root, directory) {
            None => Err::<SourceChoice, SourceError>(SourceError::NoDirectory),
            Some(d) => if blank(d@) {
                Err(SourceError::BlankDirectory)
            } else {
                match (kind, host_alias) {
                    (InstanceKind::Local, _) => Ok(SourceChoice::Local { root: d }),
                    (InstanceKind::Remote, Some(alias)) => Ok(
                        SourceChoice::Remote { alias, root: d },
                    ),
                    (InstanceKind::Remote, None) => Err(SourceError::NoHost),
                }
            },
        },
{
    let given: bool = match &root {
        Some(t) => !is_blank(t.as_str()),
        None => false,
    };
    let chosen: Option<String> = if given {
        root
    } else {
        directory
    };
    let d: String = match chosen {
        Some(d) => d,
        None => {
            return Err(SourceError::NoDirectory);
        },
    };
    if is_blank(d.as_str()) {
        return Err(SourceError::BlankDirectory);
    }
    match (kind, host_alias) {
        (InstanceKind::Local, _) => Ok(SourceChoice::Local { root: d }),
        (InstanceKind::Remote, Some(alias)) => Ok(SourceChoice::Remote { alias, root: d }),
        (InstanceKind::Remote, None) => Err(SourceError::NoHost),
    }
}

// ---------------------------------------------------------------- copying

/// How a copying program ended.
#[derive(Debug)]
pub enum CopyRun {
    Done,
    /// It failed with this exit status, and this on its error stream.
    Failed { status: String, stderr: String },
    /// It did not start.
    NotStarted(String),
}

/// What is said of a source that was not copied.
pub open spec fn copy_error(program: Seq<char>, run: CopyRun) -> Seq<char> {
    match run {
        CopyRun::Done => seq![],
        CopyRun::Failed { status, stderr } => if blank(stderr@) {
            program + " 失敗 (status="@ + status@ + ")"@
        } else {
            trimmed(stderr@)
        },
        CopyRun::NotStarted(e) => program + " 起動失敗: "@ + e@,
    }
}

/// How many of the runs went well.
pub open spec fn copies(runs: Seq<CopyRun>) -> nat
    decreases runs.len(),
{
    if runs.len() == 0 {
        0
    } else {
        copies(runs.drop_last()) + if runs.last() is Done {
            1nat
        } else {
            0nat
        }
    }
}

/// The sources that were not copied, and why.
pub open spec fn failures(program: Seq<char>, sources: Seq<Seq<char>>, runs: Seq<CopyRun>) -> Seq<
    (Seq<char>, Seq<char>),
>
    decreases runs.len(),
{
    if runs.len() == 0 || sources.len() == 0 {
        seq![]
    } else if runs.last() is Done {
        failures(program, sources.drop_last(), runs.drop_last())
    } else {
        failures(program, sources.drop_last(), runs.drop_last()).push(
            (sources.last(), copy_error(program, runs.last())),
        )
    }
}

/// The failures as text.
pub open spec fn failure_views(v: Seq<CopyFailure>) -> Seq<(Seq<char>, Seq<char>)> {
    Seq::new(v.len(), |i: int| (v[i].source@, v[i].error@))
}

fn show_copy_error(program: &str, run: &CopyRun) -> (r: String)
    ensures
        r@ == copy_error(program@, *run),
{
    match run {
        CopyRun::Done => {
            let e: String = String::new();
            assert(e@ =~= seq![]);
            e
        },
        CopyRun::Failed { status, stderr } => {
            if is_blank(stderr.as_str()) {
                let mut s: String = copy(program);
                s.append(" 失敗 (status=");
                s.append(status.as_str());
                s.append(")");
                s
            } else {
                trim(stderr.as_str())
            }
        },
        CopyRun::NotStarted(e) => {
            let mut s: String = copy(program);
            s.append(" 起動失敗: ");
            s.append(e.as_str());
            s
        },
    }
}

/// What came of copying sources, one run each.
pub fn summarize_copy(program: &str, sources: &Vec<String>, runs: &Vec<CopyRun>, dest_rel: &str) -> (r:
    CopySummary)
    requires
        runs@.len() == sources@.len(),
    ensures
        r.copied == copies(runs@),
        failure_views(r.failed@) == failures(program@, texts(sources@), runs@),
        r.dest_rel@ == dest_rel@,
{
    let ghost all = texts(sources@);
    let mut copied: usize = 0;
    let mut failed: Vec<CopyFailure> = Vec::new();
    let n: usize = runs.len();
    let mut i: usize = 0;
    assert(failure_views(failed@) =~= failures(program@, all.take(0), runs@.take(0)));
    while i < n
        invariant
            i <= n == runs@.len() == sources@.len(),
            all == texts(sources@),
            copied == copies(runs@.take(i as int)),
            copied <= i,
            failure_views(failed@) == failures(program@, all.take(i as int), runs@.take(i as int)),
        decreases n - i,
    {
        proof {
            assert(runs@.take(i + 1).drop_last() =~= runs@.take(i as int));
            assert(runs@.take(i + 1).last() == runs@[i as int]);
            assert(all.take(i + 1).drop_last() =~= all.take(i as int));
            assert(all.take(i + 1).last() == sources@[i as int]@);
        }
        match &runs[i] {
            CopyRun::Done => {
                copied += 1;
            },
            other => {
                let ghost before = failed@;
                let f: CopyFailure = CopyFailure {
                    source: copy(sources[i].as_str()),
                    error: show_copy_error(program, other),
                };
                let ghost fv = (f.source@, f.error@);
                failed.push(f);
                assert(failure_views(failed@) =~= failure_views(before).push(fv));
            },
        }
        i += 1;
    }
    proof {
        assert(runs@.take(n as int) =~= runs@);
        assert(all.take(n as int) =~= all);
    }
    CopySummary { copied, failed, dest_rel: copy(dest_rel) }
}

/// Every source is either copied or told of as failed.
pub proof fn every_source_is_accounted_for(program: Seq<char>, sources: Seq<Seq<char>>, runs: Seq<CopyRun>)
    requires
        sources.len() == runs.len(),
    ensures
        copies(runs) + failures(program, sources, runs).len() == sources.len(),
    decreases runs.len(),
{
    if runs.len() > 0 {
        every_source_is_accounted_for(program, sources.drop_last(), runs.drop_last());
    }
}

/// What is said of a download that failed.
pub open spec fn download_error(program: Seq<char>, run: CopyRun) -> Option<Seq<char>> {
    match run {
        CopyRun::Done => None,
        CopyRun::Failed { status, stderr } => Some(
            program + " 失敗: "@ + if blank(stderr@) {
                "status="@ + status@
            } else {
                trimmed(stderr@)
            },
        ),
        CopyRun::NotStarted(_) => Some(program + " の起動に失敗しました"@),
    }
}

/// What came of a download.
pub fn check_download(program: &str, run: &CopyRun) -> (r: Result<(), String>)
    ensures
        match r {
            Ok(_) => download_error(program@, *run) is None,
            Err(e) => download_error(program@, *run) == Some(e@),
        },
{
    match run {
        CopyRun::Done => Ok(()),
        CopyRun::Failed { status, stderr } => {
            let mut s: String = copy(program);
            s.append(" 失敗: ");
            if is_blank(stderr.as_str()) {
                s.append("status=");
                s.append(status.as_str());
            } else {
                s.append(trim(stderr.as_str()).as_str());
            }
            assert(s@ =~= download_error(program@, *run)->0);
            Err(s)
        },
        CopyRun::NotStarted(_) => {
            let mut s: String = copy(program);
            s.append(" の起動に失敗しました");
            Err(s)
        },
    }
}

/// What is told of a copy names each source that failed, and only those, in order, with what its own run
/// said.
pub proof fn failures_name_their_sources(
    program: Seq<char>,
    sources: Seq<Seq<char>>,
    runs: Seq<CopyRun>,
    source: Seq<char>,
    run: CopyRun,
)
    ensures
        run is Done ==> failures(program, sources.push(source), runs.push(run)) == failures(
            program,
            sources,
            runs,
        ),
        !(run is Done) ==> failures(program, sources.push(source), runs.push(run)) == failures(
            program,
            sources,
            runs,
        ).push((source, copy_error(program, run))),
        copies(runs.push(run)) == copies(runs) + if run is Done {
            1nat
        } else {
            0nat
        },
        copies(Seq::empty()) == 0,
        failures(program, Seq::empty(), Seq::empty()).len() == 0,
        run matches CopyRun::Failed { status, stderr } ==> !blank(stderr@) ==> copy_error(
            program,
            run,
        ) == trimmed(stderr@),
        run matches CopyRun::Failed { status, stderr } ==> blank(stderr@) ==> copy_error(
            program,
            run,
        ) == program + " 失敗 (status="@ + status@ + ")"@,
        run matches CopyRun::NotStarted(e) ==> copy_error(program, run) == program
            + " 起動失敗: "@ + e@,
{
    assert(sources.push(source).drop_last() =~= sources);
    assert(runs.push(run).drop_last() =~= runs);
}

/// A download went well exactly where the program ended well; where it failed, what it said is told.
pub proof fn download_went_well_where_the_program_did(program: Seq<char>, run: CopyRun)
    ensures
        download_error(program, run) is None <==> run is Done,
        run matches CopyRun::Failed { status, stderr } ==> !blank(stderr@) ==> download_error(
            program,
            run,
        ) == Some(program + " 失敗: "@ + trimmed(stderr@)),
        run matches CopyRun::Failed { status, stderr } ==> blank(stderr@) ==> download_error(
            program,
            run,
        ) == Some(program + " 失敗: "@ + ("status="@ + status@)),
{
}

/// Where files are looked for: in the directory that is asked for, unless it is blank, and else in the
/// instance's own.
pub proof fn asked_directory_comes_first(given: Option<String>, directory: Option<String>)
    ensures
        given matches Some(g) ==> (exists|k: int|
            0 <= k < g@.len() && !crate::text::white(#[trigger] g@[k])) ==> chosen_root(
            given,
            directory,
        ) == given,
        given matches Some(g) ==> (forall|k: int|
            0 <= k < g@.len() ==> crate::text::white(#[trigger] g@[k])) ==> chosen_root(
            given,
            directory,
        ) == directory,
        given is None ==> chosen_root(given, directory) == directory,
{
    if let Some(g) = given {
        crate::text::lemma_blank(g@);
    }
}

/// What was copied is told with where it went, and what failed with why; together they are all sources.
pub proof fn summary_accounts_for_all(
    program: &str,
    sources: &Vec<String>,
    runs: &Vec<CopyRun>,
    dest_rel: &str,
    r: CopySummary,
)
    requires
        runs@.len() == sources@.len(),
        call_ensures(summarize_copy, (program, sources, runs, dest_rel), r),
    ensures
        r.dest_rel@ == dest_rel@,
        r.copied + r.failed@.len() == sources@.len(),
{
    every_source_is_accounted_for(program@, texts(sources@), runs@);
    assert(failure_views(r.failed@).len() == r.failed@.len());
}

} // verus!
