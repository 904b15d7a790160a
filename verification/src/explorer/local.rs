//! Files here.

use crate::bytes::{lossy, lossy_text};
use crate::explorer::path_guard::{guarded, join_within_root_local, local_path, GuardError};
use crate::explorer::preview::{
    local_answers, next_local, preview_local, step_view, LocalRead, PreviewError, PreviewStep,
};
use crate::explorer::ripgrep::{
    all_hits, first_hits, hit_views, is_binary_head, parse_rg_json,
};
use crate::bytes::utf8_text;
use crate::explorer::source::{given_glob, CommandLine, CommandView, FileSource, SourceError};
use crate::explorer::types::{FileMeta, PreviewOpts, SearchHit, SearchOpts};
use crate::pathname::{begins_at_root, is_absolute};
use crate::split::lines_of;
use crate::text::{blank, copy, is_blank, opt_text, texts};
use vstd::prelude::*;

verus! {

/// Files here, below a root.
#[derive(Debug)]
pub struct LocalFileSource {
    /// The root, resolved.
    pub root: String,
}

impl LocalFileSource {
    /// The files below a root; `canon` is the root resolved, where that succeeds.
    pub fn new(root: &str, canon: Option<String>) -> (r: Result<LocalFileSource, SourceError>)
        ensures
            if !is_absolute(root@) {
                r == Err::<LocalFileSource, SourceError>(SourceError::RelativeRoot)
            } else {
                match canon {
                    None => r == Err::<LocalFileSource, SourceError>(SourceError::UnresolvedRoot),
                    Some(c) => r == Ok::<LocalFileSource, SourceError>(LocalFileSource { root: c }),
                }
            },
    {
        if !begins_at_root(root) {
            return Err(SourceError::RelativeRoot);
        }
        match canon {
            Some(c) => Ok(LocalFileSource { root: c }),
            None => Err(SourceError::UnresolvedRoot),
        }
    }

    /// The file that a path from the root leads to.
    pub fn abs(&self, rel: &str, canon_root: &Option<String>, canon: &Option<String>) -> (r: Result<
        String,
        GuardError,
    >)
        ensures
            guarded(r) == local_path(self.root@, rel@, opt_text(*canon_root), opt_text(*canon)),
    {
        join_within_root_local(self.root.as_str(), rel, canon_root, canon)
    }

    /// What is known of a file, from its size and its head; a head that cannot be read counts as
    /// empty.
    pub fn stat(size: u64, head: &Option<Vec<u8>>) -> (r: FileMeta)
        ensures
            r.size == size,
            r.mime is None,
            r.is_binary == match *head {
                Some(h) => h@.contains(0u8),
                None => false,
            },
    {
        let is_binary: bool = match head {
            Some(h) => is_binary_head(h.as_slice()),
            None => false,
        };
        FileMeta { size, mime: None, is_binary }
    }

    /// What follows in showing the file at `path`, given what was read of it.
    pub fn read_preview(
        &self,
        path: &str,
        opts: &PreviewOpts,
        at: PreviewStep,
        got: LocalRead,
    ) -> (r: Result<PreviewStep, PreviewError>)
        requires
            local_answers(at@, got),
        ensures
            step_view(r) == next_local(path@, *opts, at@, got),
    {
        preview_local(path, opts, at, got)
    }

    /// The hits of a search, by how ripgrep ended.
    pub fn search_result(&self, run: RgRun, opts: &SearchOpts) -> (r: Result<Vec<SearchHit>, SearchError>)
        ensures
            if failed(run) {
                r is Err && r->Err_0 is Failed && r->Err_0->Failed_0@ == lossy(run.stderr@)
            } else {
                match utf8_text(run.stdout@) {
                    None => r == Err::<Vec<SearchHit>, SearchError>(SearchError::NotText),
                    Some(t) => r is Ok && hit_views(r->Ok_0@) == first_hits(
                        all_hits(lines_of(t), self.root@),
                        opts.max_results as nat,
                    ),
                }
            },
    {
        if !run.success && run.stderr.len() > 0 {
            let text: String = lossy_text(run.stderr.as_slice());
            let no_match: bool = match run.code {
                Some(c) => c == 1,
                None => false,
            };
            if !no_match || !is_blank(text.as_str()) {
                return Err(SearchError::Failed(text));
            }
        }
        match parse_rg_json(run.stdout.as_slice(), self.root.as_str(), opts.max_results) {
            Ok(h) => Ok(h),
            Err(_) => Err(SearchError::NotText),
        }
    }
}

/// How ripgrep ended.
#[derive(Debug)]
pub struct RgRun {
    pub success: bool,
    pub code: Option<i32>,
    pub stdout: Vec<u8>,
    pub stderr: Vec<u8>,
}

/// Why a search found nothing.
#[derive(Debug)]
pub enum SearchError {
    /// ripgrep failed with this on its error stream.
    Failed(String),
    /// What it printed is no text.
    NotText,
    /// It is not installed on the remote machine.
    NoRipgrep,
    /// It did not start.
    NotStarted,
    /// It failed on the remote machine with this on its error stream.
    NotRun(String),
}

/// Whether ripgrep failed. It ends with 1 where nothing was found, which is no failure unless it
/// says something.
pub open spec fn failed(run: RgRun) -> bool {
    !run.success && run.stderr@.len() > 0 && (run.code != Some(1i32) || !blank(lossy(run.stderr@)))
}

/// The arguments of ripgrep for a search below `root`.
pub open spec fn rg_args(query: Seq<char>, glob: Option<Seq<char>>, root: Seq<char>) -> Seq<Seq<char>> {
    let first = seq!["--json"@, "--max-count"@, "20"@, "--max-columns"@, "300"@, "-S"@];
    let names = match given_glob(glob) {
        Some(g) => seq!["--glob"@, g],
        None => seq![],
    };
    first + names + seq!["--"@, query, root]
}

impl FileSource for LocalFileSource {
    open spec fn copying(&self, source: Seq<char>, dest: Seq<char>) -> CommandView {
        ("cp"@, seq!["-aR"@, "--"@, source, dest])
    }

    open spec fn fetching(&self, path: Seq<char>, dest: Seq<char>) -> CommandView {
        ("cp"@, seq!["-aR"@, "--"@, path, dest])
    }

    open spec fn searching(&self, query: Seq<char>, glob: Option<Seq<char>>) -> Option<CommandView> {
        if blank(query) {
            None
        } else {
            Some(("rg"@, rg_args(query, glob, self.root@)))
        }
    }

    fn copy_into(&self, source: &str, dest: &str) -> (r: CommandLine) {
        let args: Vec<String> = vec![copy("-aR"), copy("--"), copy(source), copy(dest)];
        assert(texts(args@) =~= seq!["-aR"@, "--"@, source@, dest@]);
        CommandLine { program: copy("cp"), args }
    }

    fn download_to(&self, path: &str, dest: &str) -> (r: CommandLine) {
        let args: Vec<String> = vec![copy("-aR"), copy("--"), copy(path), copy(dest)];
        assert(texts(args@) =~= seq!["-aR"@, "--"@, path@, dest@]);
        CommandLine { program: copy("cp"), args }
    }

    fn search(&self, query: &str, glob: &Option<String>) -> (r: Option<CommandLine>) {
        if is_blank(query) {
            return None;
        }
        let mut args: Vec<String> = vec![
            copy("--json"),
            copy("--max-count"),
            copy("20"),
            copy("--max-columns"),
            copy("300"),
            copy("-S"),
        ];
        if let Some(g) = glob {
            if !is_blank(g.as_str()) {
                args.push(copy("--glob"));
                args.push(copy(g.as_str()));
            }
        }
        args.push(copy("--"));
        args.push(copy(query));
        args.push(copy(self.root.as_str()));
        assert(texts(args@) =~= rg_args(query@, opt_text(*glob), self.root@));
        Some(CommandLine { program: copy("rg"), args })
    }
}

/// A search looks for the text that is asked for below the root, whatever the text begins with: both
/// stand behind the end of the options, and a pattern of names, where one is given, before it.
pub proof fn search_is_for_the_text_below_the_root(
    query: Seq<char>,
    glob: Option<Seq<char>>,
    root: Seq<char>,
)
    ensures
        ({
            let a = rg_args(query, glob, root);
            let n = a.len() as int;
            &&& n >= 9
            &&& a[n - 3] == "--"@
            &&& a[n - 2] == query
            &&& a[n - 1] == root
            &&& a[0] == "--json"@
            &&& a[5] == "-S"@
            &&& a[1] == "--max-count"@ && a[2] == "20"@ && a[3] == "--max-columns"@ && a[4] == "300"@
            &&& glob matches Some(g) ==> !blank(g) ==> n == 11 && a[n - 5] == "--glob"@ && a[n - 4]
                == g
            &&& (glob is None || blank(glob->0)) ==> n == 9
        }),
{
}

/// What ripgrep does not find is no failure: it failed only where it said something, and where its code
/// says that nothing was found, only where that is not blank.
pub proof fn finding_nothing_is_no_failure(run: RgRun)
    ensures
        run.success ==> !failed(run),
        run.stderr@.len() == 0 ==> !failed(run),
        run.code == Some(1i32) && blank(lossy(run.stderr@)) ==> !failed(run),
        !run.success && run.stderr@.len() > 0 && run.code != Some(1i32) ==> failed(run),
        !run.success && run.stderr@.len() > 0 && !blank(lossy(run.stderr@)) ==> failed(run),
{
}

/// A file is copied from where it is to where it is asked for, with what is below it, whatever its name
/// begins with.
pub proof fn local_copy_goes_from_source_to_destination(
    s: LocalFileSource,
    source: Seq<char>,
    dest: Seq<char>,
    query: Seq<char>,
    glob: Option<Seq<char>>,
)
    ensures
        s.copying(source, dest) == ("cp"@, seq!["-aR"@, "--"@, source, dest]),
        s.fetching(source, dest) == ("cp"@, seq!["-aR"@, "--"@, source, dest]),
        blank(query) ==> s.searching(query, glob) is None,
        !blank(query) ==> s.searching(query, glob) == Some(("rg"@, rg_args(query, glob, s.root@))),
{
}

/// What is told of a file is its size, and whether it is binary by what was read of its front.
pub proof fn file_is_told_by_size_and_front(size: u64, head: &Option<Vec<u8>>, r: FileMeta)
    requires
        call_ensures(LocalFileSource::stat, (size, head), r),
    ensures
        r.size == size,
        head is None ==> !r.is_binary,
        head matches Some(h) ==> (r.is_binary <==> exists|i: int| 0 <= i < h@.len() && h@[i] == 0),
{
}

} // verus!
