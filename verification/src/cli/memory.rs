//! The archive's tool on memory files: listing, showing, comparing and restoring versions.

use crate::archive::memory::{
    line_diff, memory_versions, newest_first, or_empty, script, script_text, version_keys,
    versions_at, MemoryEntry, MemoryVersion,
};
use crate::calendar::fmt_ts;
use crate::cli::sessions::{
    hash_label, or_text, scope_letter, scope_short, short_hash, stamp_or_dash, Printed, PrintedView,
};
use crate::number::{decimal, push_u64, show_i64, signed_decimal};
use crate::order::{ascending, positions, sorted_holds_every_position, sorted_texts, sorts};
use crate::pathname::{
    begins_at_root, begins_here, below, climbs, components, file_name, is_absolute, join_all,
    join_path, lemma_below, lemma_components_plain, path_components, path_file_name, path_join,
    plain, starts_here,
};
use crate::split::{lines_of, starts_with};
use crate::text::{
    copy, in_list, lemma_texts_push, opt_text, pad_front, pad_left, same, texts,
};
use vstd::prelude::*;

verus! {

/// Why a command on memory files was not carried out.
#[derive(Debug)]
pub enum MemoryError {
    /// There is no such file.
    Missing,
    /// Several profiles have it: these.
    ManyProfiles(Vec<String>),
    /// No version has such a digest.
    NoSuchVersion,
    /// The version belongs to no profile.
    NoProfile,
    /// The file would lie outside its profile.
    Escapes,
    /// It would be the file with the credentials.
    Credentials,
}

// ---------------------------------------------------------------- the listing

/// How many versions there are, if more than one.
pub open spec fn version_mark(n: i64) -> Seq<char> {
    if n > 1 {
        "v"@ + signed_decimal(n as int)
    } else {
        "  "@
    }
}

/// The line of a memory file.
pub open spec fn entry_line(e: MemoryEntry) -> Seq<char> {
    stamp_or_dash(e.captured_at) + "  "@ + scope_letter(opt_text(e.scope)) + "  "@ + pad_front(
        version_mark(e.versions),
        3,
    ) + "  "@ + or_text(opt_text(e.agent_profile), "-"@) + "/"@ + e.rel_path@
}

/// The lines of memory files.
pub open spec fn entry_lines(v: Seq<MemoryEntry>) -> Seq<Seq<char>> {
    Seq::new(v.len(), |i: int| entry_line(v[i]))
}

/// What a listing of memory files prints.
pub open spec fn listed(v: Seq<MemoryEntry>) -> PrintedView {
    if v.len() == 0 {
        PrintedView::Note(seq!["メモリ記録なし（先に `ccc-sessions sync` を実行）"@])
    } else {
        PrintedView::Lines(entry_lines(v))
    }
}

fn show_entry(e: &MemoryEntry) -> (r: String)
    ensures
        r@ == entry_line(*e),
{
    let mut s: String = show_time(e.captured_at);
    s.append("  ");
    s.append(scope_short(&e.scope));
    s.append("  ");
    let mark: String = if e.versions > 1 {
        let mut m: String = copy("v");
        m.append(show_i64(e.versions).as_str());
        m
    } else {
        copy("  ")
    };
    s.append(pad_left(mark.as_str(), 3).as_str());
    s.append("  ");
    match &e.agent_profile {
        Some(p) => s.append(p.as_str()),
        None => s.append("-"),
    }
    s.append("/");
    s.append(e.rel_path.as_str());
    s
}

fn show_time(t: Option<i64>) -> (r: String)
    ensures
        r@ == stamp_or_dash(t),
{
    match t {
        Some(ms) => fmt_ts(ms),
        None => copy("-"),
    }
}

/// What a listing of memory files prints.
pub fn print_memory(entries: &Vec<MemoryEntry>) -> (r: Printed)
    ensures
        r@ == listed(entries@),
{
    let mut out: Vec<String> = Vec::new();
    if entries.len() == 0 {
        out.push(copy("メモリ記録なし（先に `ccc-sessions sync` を実行）"));
        assert(texts(out@) =~= seq!["メモリ記録なし（先に `ccc-sessions sync` を実行）"@]);
        return Printed::Note(out);
    }
    let mut i: usize = 0;
    while i < entries.len()
        invariant
            i <= entries@.len(),
            out@.len() == i,
            forall|k: int| 0 <= k < i ==> (#[trigger] out@[k])@ == entry_line(entries@[k]),
        decreases entries@.len() - i,
    {
        out.push(show_entry(&entries[i]));
        i += 1;
    }
    assert(texts(out@) =~= entry_lines(entries@));
    Printed::Lines(out)
}

// ---------------------------------------------------------------- the versions meant

/// Whether one of the versions at these positions belongs to the profile.
pub open spec fn in_profile(rows: Seq<MemoryVersion>, at: Seq<int>, profile: Seq<char>) -> bool {
    exists|k: int|
        0 <= k < at.len() && opt_text(rows[#[trigger] at[k]].agent_profile) == Some(profile)
}

/// Whether the versions at these positions belong to one profile at most.
pub open spec fn one_profile(rows: Seq<MemoryVersion>, at: Seq<int>) -> bool {
    forall|p: Seq<char>, q: Seq<char>|
        #[trigger] in_profile(rows, at, p) && #[trigger] in_profile(rows, at, q) ==> p == q
}

/// The positions of a file's versions.
pub open spec fn versions_of(rows: Seq<MemoryVersion>, profile: Option<String>, rel: Seq<char>) -> Seq<
    int,
> {
    versions_at(rows, opt_text(profile), rel, rows.len() as int)
}

proof fn lemma_same_members(r: Seq<int>, rows: Seq<MemoryVersion>, at: Seq<int>, p: Seq<char>)
    requires
        newest_first(r, rows, at),
    ensures
        in_profile(rows, r, p) == in_profile(rows, at, p),
        r.len() == at.len(),
{
    let keys = version_keys(rows, at);
    let order = choose|order: Seq<int>| #[trigger]
        sorts(keys, order) && r == Seq::new(order.len(), |k: int| at[order[k]]);
    if in_profile(rows, r, p) {
        let k = choose|k: int|
            0 <= k < r.len() && opt_text(rows[#[trigger] r[k]].agent_profile) == Some(p);
        assert(0 <= order[k] < keys.len());
        assert(at[order[k]] == r[k]);
    }
    if in_profile(rows, at, p) {
        let k = choose|k: int|
            0 <= k < at.len() && opt_text(rows[#[trigger] at[k]].agent_profile) == Some(p);
        sorted_holds_every_position(keys, order, k);
        let j = choose|j: int| 0 <= j < order.len() && order[j] == k;
        assert(r[j] == at[k]);
    }
}

/// The profiles of versions, in order, each once.
fn profiles_of(rows: &Vec<MemoryVersion>, at: &Vec<usize>) -> (r: Vec<String>)
    requires
        forall|k: int| 0 <= k < at@.len() ==> #[trigger] at@[k] < rows@.len(),
    ensures
        ascending(texts(r@)),
        forall|p: Seq<char>| texts(r@).contains(p) <==> in_profile(rows@, positions(at@), p),
{
    let mut all: Vec<String> = Vec::new();
    let mut i: usize = 0;
    let ghost pos = positions(at@);
    assert forall|p: Seq<char>| texts(all@).contains(p) <==> in_profile(rows@, pos.take(0), p) by {}
    while i < at.len()
        invariant
            i <= at@.len(),
            pos == positions(at@),
            forall|k: int| 0 <= k < at@.len() ==> #[trigger] at@[k] < rows@.len(),
            forall|p: Seq<char>|
                texts(all@).contains(p) <==> in_profile(rows@, pos.take(i as int), p),
        decreases at@.len() - i,
    {
        let ghost before = texts(all@);
        let row: &MemoryVersion = &rows[at[i]];
        assert(pos[i as int] == at@[i as int]);
        if let Some(p) = &row.agent_profile {
            let c: String = copy(p.as_str());
            proof {
                lemma_texts_push(all@, c);
            }
            all.push(c);
        }
        proof {
            let a = pos.take(i as int);
            let b = pos.take(i + 1);
            assert forall|p: Seq<char>| texts(all@).contains(p) <==> in_profile(rows@, b, p) by {
                if texts(all@).contains(p) {
                    let k = choose|k: int| 0 <= k < texts(all@).len() && texts(all@)[k] == p;
                    if k < before.len() {
                        assert(before[k] == p);
                        assert(before.contains(p));
                        let j = choose|j: int|
                            0 <= j < a.len() && opt_text(rows@[#[trigger] a[j]].agent_profile)
                                == Some(p);
                        assert(b[j] == a[j]);
                    } else {
                        assert(b[i as int] == pos[i as int]);
                    }
                }
                if in_profile(rows@, b, p) {
                    let j = choose|j: int|
                        0 <= j < b.len() && opt_text(rows@[#[trigger] b[j]].agent_profile) == Some(
                            p,
                        );
                    if j < i {
                        assert(a[j] == b[j]);
                        assert(before.contains(p));
                        let k = choose|k: int| 0 <= k < before.len() && before[k] == p;
                        assert(texts(all@)[k] == p);
                    } else {
                        assert(texts(all@)[texts(all@).len() - 1] == p);
                    }
                }
            }
        }
        i += 1;
    }
    assert(pos.take(at@.len() as int) =~= pos);
    sorted_texts(&all)
}

/// The positions of a file's versions, the newest first. Without any, or with several profiles
/// that have such a file, nothing is chosen.
pub fn resolve_versions(rows: &Vec<MemoryVersion>, profile: &Option<String>, rel_path: &str) -> (r:
    Result<Vec<usize>, MemoryError>)
    ensures
        ({
            let at = versions_of(rows@, *profile, rel_path@);
            match r {
                Ok(order) => {
                    &&& at.len() > 0
                    &&& one_profile(rows@, at)
                    &&& newest_first(positions(order@), rows@, at)
                    &&& order@.len() > 0
                    &&& forall|k: int| 0 <= k < order@.len() ==> #[trigger] order@[k] < rows@.len()
                },
                Err(MemoryError::Missing) => at.len() == 0,
                Err(MemoryError::ManyProfiles(l)) => {
                    &&& at.len() > 0
                    &&& !one_profile(rows@, at)
                    &&& ascending(texts(l@))
                    &&& forall|p: Seq<char>| texts(l@).contains(p) <==> in_profile(rows@, at, p)
                },
                Err(_) => false,
            }
        }),
{
    let order: Vec<usize> = memory_versions(rows, profile, rel_path);
    let ghost at = versions_of(rows@, *profile, rel_path@);
    let ghost pos = positions(order@);
    proof {
        lemma_same_members(pos, rows@, at, seq![]);
    }
    if order.len() == 0 {
        return Err(MemoryError::Missing);
    }
    let profiles: Vec<String> = profiles_of(rows, &order);
    let ghost t = texts(profiles@);
    proof {
        assert forall|p: Seq<char>| t.contains(p) <==> in_profile(rows@, at, p) by {
            lemma_same_members(pos, rows@, at, p);
        }
    }
    if profiles.len() > 1 {
        proof {
            assert(t.contains(t[0]) && t.contains(t[1]));
            assert(crate::order::text_before(t[0], t[1]));
            crate::order::lemma_text_irreflexive(t[0]);
            assert(in_profile(rows@, at, t[0]) && in_profile(rows@, at, t[1]));
        }
        return Err(MemoryError::ManyProfiles(profiles));
    }
    proof {
        assert forall|p: Seq<char>, q: Seq<char>| #[trigger]
            in_profile(rows@, at, p) && #[trigger] in_profile(rows@, at, q) implies p == q by {
            assert(t.contains(p) && t.contains(q));
        }
    }
    Ok(order)
}

/// The first of the versions from `i` on whose digest begins with `prefix`.
pub open spec fn first_with(rows: Seq<MemoryVersion>, order: Seq<int>, prefix: Seq<char>, i: int) -> Option<
    int,
>
    decreases order.len() - i,
{
    if i < 0 || i >= order.len() {
        None
    } else if rows[order[i]].content_hash is Some && prefix.is_prefix_of(
        rows[order[i]].content_hash->0@,
    ) {
        Some(order[i])
    } else {
        first_with(rows, order, prefix, i + 1)
    }
}

/// The version that a command means: the newest, or the newest whose digest begins so.
pub open spec fn meant_version(
    rows: Seq<MemoryVersion>,
    order: Seq<int>,
    prefix: Option<Seq<char>>,
) -> Option<int> {
    match prefix {
        None => Some(order[0]),
        Some(p) => first_with(rows, order, p, 0),
    }
}

/// Whether a file has versions at these positions.
pub open spec fn ordered(rows: Seq<MemoryVersion>, order: Seq<usize>) -> bool {
    order.len() > 0 && forall|k: int| 0 <= k < order.len() ==> #[trigger] order[k] < rows.len()
}

/// The version that a command means.
pub fn pick_version(rows: &Vec<MemoryVersion>, order: &Vec<usize>, hash_prefix: &Option<String>) -> (r:
    Option<usize>)
    requires
        ordered(rows@, order@),
    ensures
        match r {
            Some(i) => i < rows@.len() && meant_version(
                rows@,
                positions(order@),
                opt_text(*hash_prefix),
            ) == Some(i as int),
            None => meant_version(rows@, positions(order@), opt_text(*hash_prefix)) is None,
        },
{
    let ghost pos = positions(order@);
    let p: &String = match hash_prefix {
        None => {
            assert(pos[0] == order@[0]);
            return Some(order[0]);
        },
        Some(p) => p,
    };
    let mut i: usize = 0;
    while i < order.len()
        invariant
            i <= order@.len(),
            pos == positions(order@),
            ordered(rows@, order@),
            first_with(rows@, pos, p@, i as int) == first_with(rows@, pos, p@, 0),
            *hash_prefix == Some(*p),
        decreases order@.len() - i,
    {
        assert(pos[i as int] == order@[i as int]);
        if let Some(h) = &rows[order[i]].content_hash {
            if starts_with(h.as_str(), p.as_str()) {
                return Some(order[i]);
            }
        }
        i += 1;
    }
    None
}

// ---------------------------------------------------------------- where a version is restored to

/// Whether a path leads only downwards: it does not begin at the root or with a dot, and no part
/// leads to the directory above.
pub open spec fn downward(p: Seq<char>) -> bool {
    !is_absolute(p) && !begins_here(p) && !climbs(p)
}

fn is_downward(p: &str) -> (r: bool)
    ensures
        r == downward(p@),
{
    if begins_at_root(p) || starts_here(p) {
        return false;
    }
    let c: Vec<String> = path_components(p);
    !in_list(&c, "..")
}

/// Where a version is restored to: `<root>/<profile>/<path>`.
pub open spec fn restore_dest(root: Seq<char>, profile: Seq<char>, rel: Seq<char>) -> Result<
    Seq<char>,
    MemoryError,
> {
    let dest = below(root, components(profile) + components(rel));
    if !downward(profile) || !downward(rel) {
        Err(MemoryError::Escapes)
    } else if file_name(dest) == Some(".credentials.json"@) {
        Err(MemoryError::Credentials)
    } else {
        Ok(dest)
    }
}

/// A path as text, where there is one.
pub open spec fn path_view(r: Result<String, MemoryError>) -> Result<Seq<char>, MemoryError> {
    match r {
        Ok(p) => Ok(p@),
        Err(e) => Err(e),
    }
}

/// Where a version is restored to. Profile and path may stem from another machine, so neither may
/// lead out of the root.
pub fn validate_restore_dest(root: &str, profile: &str, rel_path: &str) -> (r: Result<
    String,
    MemoryError,
>)
    ensures
        path_view(r) == restore_dest(root@, profile@, rel_path@),
{
    if !is_downward(profile) || !is_downward(rel_path) {
        return Err(MemoryError::Escapes);
    }
    let mut names: Vec<String> = path_components(profile);
    let mut more: Vec<String> = path_components(rel_path);
    let ghost a = names@;
    let ghost b = more@;
    names.append(&mut more);
    assert(texts(names@) =~= texts(a) + texts(b));
    let dest: String = join_all(root, &names);
    if let Some(n) = path_file_name(dest.as_str()) {
        if same(n.as_str(), ".credentials.json") {
            return Err(MemoryError::Credentials);
        }
    }
    Ok(dest)
}

/// A restored file lies below the root: its path is that of the root and then only entries of
/// directories, never the directory above; and it is never the file with the credentials.
pub proof fn restored_file_stays_below(root: Seq<char>, profile: Seq<char>, rel: Seq<char>)
    ensures
        restore_dest(root, profile, rel) matches Ok(d) ==> {
            let names = components(profile) + components(rel);
            &&& root.is_prefix_of(d)
            &&& components(d) == components(root) + names
            &&& forall|k: int| 0 <= k < names.len() ==> plain(#[trigger] names[k])
            &&& file_name(d) != Some(".credentials.json"@)
        },
{
    if restore_dest(root, profile, rel) is Ok {
        let a = components(profile);
        let b = components(rel);
        let names = a + b;
        lemma_components_plain(profile);
        lemma_components_plain(rel);
        assert forall|k: int| 0 <= k < names.len() implies plain(#[trigger] names[k]) by {
            if k < a.len() {
                assert(names[k] == a[k]);
                assert(a.contains(a[k]));
            } else {
                assert(names[k] == b[k - a.len()]);
                assert(b.contains(b[k - a.len()]));
            }
        }
        lemma_below(root, names);
    }
}

// ---------------------------------------------------------------- the commands

/// A command on the versions of a memory file.
#[derive(Debug)]
pub enum VersionCmd {
    /// Show a version: the newest, or one whose digest begins so.
    Show { version: Option<String> },
    /// Compare the newest two versions.
    Diff,
    /// Write a version back, once that is confirmed.
    Restore { version: Option<String>, yes: bool },
}

/// A command on memory files.
#[derive(Debug)]
pub enum MemoryCmd {
    /// List the newest version of each.
    List,
    /// Act on the versions of one.
    On(VersionCmd),
}

/// A version that is to be written back.
#[derive(Debug)]
pub struct RestorePlan {
    /// The file.
    pub dest: String,
    /// The profile whose present state is stored first, and its directory.
    pub profile: String,
    pub profile_dir: String,
    pub content: String,
    /// What is printed once it is done.
    pub message: String,
}

/// What a command does.
#[derive(Debug)]
pub enum MemoryAct {
    Print(Printed),
    Restore(RestorePlan),
}

/// What a command does, as text.
pub enum ActView {
    Print(PrintedView),
    Restore {
        dest: Seq<char>,
        profile: Seq<char>,
        profile_dir: Seq<char>,
        content: Seq<char>,
        message: Seq<char>,
    },
}

impl MemoryAct {
    pub open spec fn view(&self) -> ActView {
        match *self {
            MemoryAct::Print(p) => ActView::Print(p@),
            MemoryAct::Restore(p) => ActView::Restore {
                dest: p.dest@,
                profile: p.profile@,
                profile_dir: p.profile_dir@,
                content: p.content@,
                message: p.message@,
            },
        }
    }
}

/// What a command does, as text, where it does anything.
pub open spec fn act_view(r: Result<MemoryAct, MemoryError>) -> Result<ActView, MemoryError> {
    match r {
        Ok(a) => Ok(a@),
        Err(e) => Err(e),
    }
}

/// The content of a version; one without content is empty.
pub open spec fn content_of(v: MemoryVersion) -> Seq<char> {
    or_empty(opt_text(v.content))
}

/// `hash (time)` of a version, with two separators.
pub open spec fn version_label(v: MemoryVersion, open: Seq<char>, close: Seq<char>) -> Seq<char> {
    hash_label(opt_text(v.content_hash)) + open + stamp_or_dash(v.captured_at) + close
}

/// What comparing prints: the labels of both versions, and the lines that differ.
pub open spec fn diff_text(old: MemoryVersion, new: MemoryVersion) -> Seq<char> {
    "--- "@ + version_label(old, "  "@, "\n"@) + "+++ "@ + version_label(new, "  "@, "\n"@)
        + script_text(script(lines_of(content_of(old)), lines_of(content_of(new)), 0, 0))
}

/// What a command on the versions at `order`, the newest first, does.
pub open spec fn memory_act(
    cmd: VersionCmd,
    rows: Seq<MemoryVersion>,
    order: Seq<int>,
    root: Seq<char>,
) -> Result<ActView, MemoryError> {
    match cmd {
        VersionCmd::Show { version } => match meant_version(rows, order, opt_text(version)) {
            Some(i) => Ok(ActView::Print(PrintedView::Text(content_of(rows[i])))),
            None => Err(MemoryError::NoSuchVersion),
        },
        VersionCmd::Diff => if order.len() < 2 {
            Ok(
                ActView::Print(
                    PrintedView::Note(
                        seq!["差分なし（"@ + decimal(order.len()) + " 版のみ）"@],
                    ),
                ),
            )
        } else {
            Ok(ActView::Print(PrintedView::Text(diff_text(rows[order[1]], rows[order[0]]))))
        },
        VersionCmd::Restore { version, yes } => match meant_version(rows, order, opt_text(version)) {
            None => Err(MemoryError::NoSuchVersion),
            Some(i) => restore_act(rows[i], root, yes),
        },
    }
}

/// What restoring a version does: it is announced first, and carried out once confirmed.
pub open spec fn restore_act(v: MemoryVersion, root: Seq<char>, yes: bool) -> Result<
    ActView,
    MemoryError,
> {
    match v.agent_profile {
        None => Err(MemoryError::NoProfile),
        Some(prof) => match restore_dest(root, prof@, v.rel_path@) {
            Err(e) => Err(e),
            Ok(dest) => if yes {
                Ok(
                    ActView::Restore {
                        dest,
                        profile: prof@,
                        profile_dir: path_join(root, prof@),
                        content: content_of(v),
                        message: "復元しました: "@ + dest + " ← "@ + version_label(v, " ("@, ")"@),
                    },
                )
            } else {
                Ok(
                    ActView::Print(
                        PrintedView::Note(
                            seq![
                                "復元先: "@ + dest + "\n  版: "@ + version_label(v, "  ("@, ")"@)
                                    + "\n  上書き前に現状を自動スナップショットします。"@,
                                "実行するには --yes を付けてください。"@,
                            ],
                        ),
                    ),
                )
            },
        },
    }
}

fn show_label(v: &MemoryVersion, open: &str, close: &str) -> (r: String)
    ensures
        r@ == version_label(*v, open@, close@),
{
    let mut s: String = short_hash(&v.content_hash);
    s.append(open);
    s.append(show_time(v.captured_at).as_str());
    s.append(close);
    s
}

fn copy_content(v: &MemoryVersion) -> (r: String)
    ensures
        r@ == content_of(*v),
{
    match &v.content {
        Some(c) => copy(c.as_str()),
        None => {
            let e: String = String::new();
            assert(e@ =~= seq![]);
            e
        },
    }
}

fn restore(v: &MemoryVersion, root: &str, yes: bool) -> (r: Result<MemoryAct, MemoryError>)
    ensures
        act_view(r) == restore_act(*v, root@, yes),
{
    let prof: &String = match &v.agent_profile {
        None => {
            return Err(MemoryError::NoProfile);
        },
        Some(p) => p,
    };
    let dest: String = match validate_restore_dest(root, prof.as_str(), v.rel_path.as_str()) {
        Err(e) => {
            return Err(e);
        },
        Ok(d) => d,
    };
    if yes {
        let mut message: String = copy("復元しました: ");
        message.append(dest.as_str());
        message.append(" ← ");
        message.append(show_label(v, " (", ")").as_str());
        return Ok(
            MemoryAct::Restore(
                RestorePlan {
                    dest,
                    profile: copy(prof.as_str()),
                    profile_dir: join_path(root, prof.as_str()),
                    content: copy_content(v),
                    message,
                },
            ),
        );
    }
    let mut a: String = copy("復元先: ");
    a.append(dest.as_str());
    a.append("\n  版: ");
    a.append(show_label(v, "  (", ")").as_str());
    a.append("\n  上書き前に現状を自動スナップショットします。");
    let b: String = copy("実行するには --yes を付けてください。");
    let ghost both = seq![a@, b@];
    let lines: Vec<String> = vec![a, b];
    assert(texts(lines@) =~= both);
    Ok(MemoryAct::Print(Printed::Note(lines)))
}

/// Whether contents can be compared: their numbers of lines leave room for one more.
pub open spec fn comparable(rows: Seq<MemoryVersion>) -> bool {
    forall|k: int|
        0 <= k < rows.len() ==> lines_of(content_of(#[trigger] rows[k])).len() < usize::MAX
}

/// What a command on the versions at `order`, the newest first, does.
pub fn act_on_versions(
    cmd: &VersionCmd,
    rows: &Vec<MemoryVersion>,
    order: &Vec<usize>,
    root: &str,
) -> (r: Result<MemoryAct, MemoryError>)
    requires
        ordered(rows@, order@),
        *cmd is Diff ==> comparable(rows@),
    ensures
        act_view(r) == memory_act(*cmd, rows@, positions(order@), root@),
{
    let ghost pos = positions(order@);
    match cmd {
        VersionCmd::Show { version } => match pick_version(rows, order, version) {
            Some(i) => Ok(MemoryAct::Print(Printed::Text(copy_content(&rows[i])))),
            None => Err(MemoryError::NoSuchVersion),
        },
        VersionCmd::Diff => {
            if order.len() < 2 {
                let mut s: String = copy("差分なし（");
                push_u64(&mut s, order.len() as u64);
                s.append(" 版のみ）");
                let ghost t = s@;
                let mut v: Vec<String> = Vec::new();
                v.push(s);
                assert(texts(v@) =~= seq![t]);
                return Ok(MemoryAct::Print(Printed::Note(v)));
            }
            assert(pos[0] == order@[0] && pos[1] == order@[1]);
            let new: &MemoryVersion = &rows[order[0]];
            let old: &MemoryVersion = &rows[order[1]];
            let a: String = copy_content(old);
            let b: String = copy_content(new);
            let mut s: String = copy("--- ");
            s.append(show_label(old, "  ", "\n").as_str());
            s.append("+++ ");
            s.append(show_label(new, "  ", "\n").as_str());
            s.append(line_diff(a.as_str(), b.as_str()).as_str());
            assert(s@ =~= diff_text(*old, *new));
            Ok(MemoryAct::Print(Printed::Text(s)))
        },
        VersionCmd::Restore { version, yes } => match pick_version(rows, order, version) {
            None => Err(MemoryError::NoSuchVersion),
            Some(i) => restore(&rows[i], root, *yes),
        },
    }
}

/// What a command on memory files does. The listing is of `entries`; the other commands are on
/// the versions of one file among `rows`.
pub fn run_memory(
    cmd: &MemoryCmd,
    entries: &Vec<MemoryEntry>,
    rows: &Vec<MemoryVersion>,
    profile: &Option<String>,
    rel_path: &str,
    root: &str,
) -> (r: Result<MemoryAct, MemoryError>)
    requires
        *cmd matches MemoryCmd::On(VersionCmd::Diff) ==> comparable(rows@),
    ensures
        ({
            let at = versions_of(rows@, *profile, rel_path@);
            if *cmd is List {
                act_view(r) == Ok::<ActView, MemoryError>(ActView::Print(listed(entries@)))
            } else if at.len() == 0 {
                r == Err::<MemoryAct, MemoryError>(MemoryError::Missing)
            } else if !one_profile(rows@, at) {
                &&& r is Err
                &&& r->Err_0 is ManyProfiles
                &&& ascending(texts(r->Err_0->ManyProfiles_0@))
                &&& forall|p: Seq<char>|
                    texts(r->Err_0->ManyProfiles_0@).contains(p) <==> in_profile(rows@, at, p)
            } else {
                exists|order: Seq<int>| #[trigger]
                    newest_first(order, rows@, at) && act_view(r) == memory_act(
                        cmd->On_0,
                        rows@,
                        order,
                        root@,
                    )
            }
        }),
{
    match cmd {
        MemoryCmd::List => Ok(MemoryAct::Print(print_memory(entries))),
        MemoryCmd::On(c) => match resolve_versions(rows, profile, rel_path) {
            Err(e) => Err(e),
            Ok(order) => act_on_versions(c, rows, &order, root),
        },
    }
}

// ---------------------------------------------------------------- what the commands promise

/// A memory file has one line: when it was stored, whose it is, how many versions it has where that is
/// more than one, and its profile and path.
pub proof fn memory_file_has_a_line(v: Seq<MemoryEntry>, i: int, t: i64, profile: String)
    requires
        0 <= i < v.len(),
        v[i].captured_at == Some(t),
        v[i].agent_profile == Some(profile),
    ensures
        listed(v) matches PrintedView::Lines(l) && l.len() == v.len() && l[i] == crate::calendar::stamp_text(
            t as int,
        ) + "  "@ + scope_letter(opt_text(v[i].scope)) + "  "@ + pad_front(
            version_mark(v[i].versions),
            3,
        ) + "  "@ + profile@ + "/"@ + v[i].rel_path@,
        v[i].versions > 1 ==> version_mark(v[i].versions) == "v"@ + signed_decimal(v[i].versions as int),
        v[i].versions <= 1 ==> version_mark(v[i].versions) == "  "@,
        listed(Seq::empty()) is Note,
{
}

/// The version meant is the newest, or the newest whose digest begins as asked.
pub proof fn newest_fitting_version_is_meant(
    rows: Seq<MemoryVersion>,
    order: Seq<int>,
    prefix: Seq<char>,
    k: int,
)
    requires
        0 <= k < order.len(),
    ensures
        meant_version(rows, order, None) == Some(order[0]),
        ({
            let fits = |i: int|
                rows[order[i]].content_hash is Some && prefix.is_prefix_of(
                    rows[order[i]].content_hash->0@,
                );
            &&& fits(k) && (forall|i: int| 0 <= i < k ==> !#[trigger] fits(i)) ==> meant_version(
                rows,
                order,
                Some(prefix),
            ) == Some(order[k])
            &&& (forall|i: int| 0 <= i < order.len() ==> !#[trigger] fits(i)) ==> meant_version(
                rows,
                order,
                Some(prefix),
            ) is None
        }),
{
    let fits = |i: int|
        rows[order[i]].content_hash is Some && prefix.is_prefix_of(rows[order[i]].content_hash->0@);
    if fits(k) && (forall|i: int| 0 <= i < k ==> !#[trigger] fits(i)) {
        lemma_first_with(rows, order, prefix, 0, k);
    }
    if forall|i: int| 0 <= i < order.len() ==> !#[trigger] fits(i) {
        assert forall|i: int| 0 <= i < order.len() implies !(
        rows[#[trigger] order[i]].content_hash is Some && prefix.is_prefix_of(
            rows[order[i]].content_hash->0@,
        )) by {
            assert(!fits(i));
        }
        lemma_none_with(rows, order, prefix, 0);
    }
}

proof fn lemma_first_with(rows: Seq<MemoryVersion>, order: Seq<int>, prefix: Seq<char>, from: int, k: int)
    requires
        0 <= from <= k < order.len(),
        ({
            let fits = |i: int|
                rows[order[i]].content_hash is Some && prefix.is_prefix_of(
                    rows[order[i]].content_hash->0@,
                );
            fits(k) && (forall|i: int| from <= i < k ==> !#[trigger] fits(i))
        }),
    ensures
        first_with(rows, order, prefix, from) == Some(order[k]),
    decreases k - from,
{
    let fits = |i: int|
        rows[order[i]].content_hash is Some && prefix.is_prefix_of(rows[order[i]].content_hash->0@);
    if from < k {
        assert(!fits(from));
        lemma_first_with(rows, order, prefix, from + 1, k);
    }
}

proof fn lemma_none_with(rows: Seq<MemoryVersion>, order: Seq<int>, prefix: Seq<char>, from: int)
    requires
        0 <= from <= order.len(),
        forall|i: int|
            from <= i < order.len() ==> !(rows[#[trigger] order[i]].content_hash is Some
                && prefix.is_prefix_of(rows[order[i]].content_hash->0@)),
    ensures
        first_with(rows, order, prefix, from) is None,
    decreases order.len() - from,
{
    if from < order.len() {
        lemma_none_with(rows, order, prefix, from + 1);
    }
}

/// Showing prints the content of the version meant.
pub proof fn showing_prints_the_content(
    rows: Seq<MemoryVersion>,
    order: Seq<int>,
    root: Seq<char>,
    version: Option<String>,
    i: int,
    content: String,
)
    requires
        meant_version(rows, order, opt_text(version)) == Some(i),
        rows[i].content == Some(content),
    ensures
        memory_act(VersionCmd::Show { version }, rows, order, root) == Ok::<ActView, MemoryError>(
            ActView::Print(PrintedView::Text(content@)),
        ),
{
}

/// Comparing goes from the version before the newest to the newest; where there is one alone, nothing is
/// compared.
pub proof fn comparing_goes_to_the_newest(rows: Seq<MemoryVersion>, order: Seq<int>, root: Seq<char>)
    ensures
        order.len() < 2 ==> (memory_act(VersionCmd::Diff, rows, order, root) matches Ok(
            ActView::Print(PrintedView::Note(_)),
        )),
        order.len() >= 2 ==> (memory_act(VersionCmd::Diff, rows, order, root) matches Ok(
            ActView::Print(PrintedView::Text(t)),
        ) && ({
            let old = rows[order[1]];
            let new = rows[order[0]];
            t == "--- "@ + (hash_label(opt_text(old.content_hash)) + "  "@ + stamp_or_dash(
                old.captured_at,
            ) + "\n"@) + "+++ "@ + (hash_label(opt_text(new.content_hash)) + "  "@ + stamp_or_dash(
                new.captured_at,
            ) + "\n"@) + script_text(
                script(
                    lines_of(or_empty(opt_text(old.content))),
                    lines_of(or_empty(opt_text(new.content))),
                    0,
                    0,
                ),
            )
        })),
{
}

/// Nothing is written back until that is confirmed; what is written then is the version's content, to its
/// own path below its profile. A version of no profile is not written back.
pub proof fn restoring_needs_a_yes(v: MemoryVersion, root: Seq<char>, dest: Seq<char>, profile: String, content: String)
    requires
        v.agent_profile == Some(profile),
        v.content == Some(content),
    ensures
        restore_dest(root, profile@, v.rel_path@) == Ok::<Seq<char>, MemoryError>(dest) ==> (restore_act(
            v,
            root,
            false,
        ) matches Ok(ActView::Print(_))),
        restore_dest(root, profile@, v.rel_path@) == Ok::<Seq<char>, MemoryError>(dest) ==> (restore_act(
            v,
            root,
            true,
        ) matches Ok(ActView::Restore { dest: d, profile: p, profile_dir, content: c, message }) && d
            == dest && p == profile@ && profile_dir == path_join(root, profile@) && c == content@),
        restore_dest(root, profile@, v.rel_path@) is Err ==> restore_act(v, root, true) is Err
            && restore_act(v, root, false) is Err,
        restore_act((MemoryVersion { agent_profile: None, ..v }), root, true) == Err::<ActView, MemoryError>(
            MemoryError::NoProfile,
        ),
{
}

/// A file can be written back exactly where profile and path lead downward and it is not the file with the
/// credentials.
pub proof fn restoring_stays_in_the_profile(root: Seq<char>, profile: Seq<char>, rel: Seq<char>)
    ensures
        is_absolute(rel) || is_absolute(profile) || components(rel).contains(".."@) || components(
            profile,
        ).contains(".."@) ==> restore_dest(root, profile, rel) == Err::<Seq<char>, MemoryError>(
            MemoryError::Escapes,
        ),
        restore_dest(root, profile, rel) == Err::<Seq<char>, MemoryError>(MemoryError::Escapes) ==> !(
        downward(profile) && downward(rel)),
{
}

/// A file is acted on where one profile has it: without any it is missing, and with several they are all
/// named, each once; a profile that is given is the only one looked in.
pub proof fn file_of_one_profile_is_meant(
    rows: &Vec<MemoryVersion>,
    profile: &Option<String>,
    rel_path: &str,
    r: Result<Vec<usize>, MemoryError>,
    i: int,
    j: int,
)
    requires
        call_ensures(resolve_versions, (rows, profile, rel_path), r),
        0 <= i < rows@.len(),
        0 <= j < rows@.len(),
        opt_text(*profile) is None,
    ensures
        (forall|k: int| 0 <= k < rows@.len() ==> (#[trigger] rows@[k]).rel_path@ != rel_path@) ==> r == Err::<
            Vec<usize>,
            MemoryError,
        >(MemoryError::Missing),
        rows@[i].rel_path@ == rel_path@ ==> !(r matches Err(MemoryError::Missing)),
        rows@[i].rel_path@ == rel_path@ && rows@[j].rel_path@ == rel_path@ && rows@[i].agent_profile is Some
            && rows@[j].agent_profile is Some && rows@[i].agent_profile->0@ != rows@[j].agent_profile->0@
            ==> (r matches Err(MemoryError::ManyProfiles(l)) && texts(l@).contains(
            rows@[i].agent_profile->0@,
        ) && texts(l@).contains(rows@[j].agent_profile->0@)),
{
    let at = versions_of(rows@, *profile, rel_path@);
    let n = rows@.len() as int;
    lemma_versions_hold(rows@, rel_path@, n, i);
    lemma_versions_hold(rows@, rel_path@, n, j);
    if forall|k: int| 0 <= k < rows@.len() ==> (#[trigger] rows@[k]).rel_path@ != rel_path@ {
        lemma_versions_none(rows@, rel_path@, n);
    }
    if rows@[i].rel_path@ == rel_path@ && rows@[j].rel_path@ == rel_path@ && rows@[i].agent_profile is Some
        && rows@[j].agent_profile is Some && rows@[i].agent_profile->0@ != rows@[j].agent_profile->0@ {
        let p = rows@[i].agent_profile->0@;
        let q = rows@[j].agent_profile->0@;
        let a = choose|a: int| 0 <= a < at.len() && at[a] == i;
        let b = choose|b: int| 0 <= b < at.len() && at[b] == j;
        assert(opt_text(rows@[at[a]].agent_profile) == Some(p));
        assert(opt_text(rows@[at[b]].agent_profile) == Some(q));
        assert(in_profile(rows@, at, p));
        assert(in_profile(rows@, at, q));
    }
}

proof fn lemma_versions_hold(rows: Seq<MemoryVersion>, rel: Seq<char>, n: int, i: int)
    requires
        0 <= i < rows.len(),
        n <= rows.len(),
    ensures
        rows[i].rel_path@ == rel && i < n ==> versions_at(rows, None, rel, n).contains(i),
    decreases n,
{
    if n > 0 && i < n && rows[i].rel_path@ == rel {
        let all = versions_at(rows, None, rel, n);
        if i == n - 1 {
            assert(all[all.len() - 1] == i);
        } else {
            lemma_versions_hold(rows, rel, n - 1, i);
            let f = versions_at(rows, None, rel, n - 1);
            let k = choose|k: int| 0 <= k < f.len() && f[k] == i;
            assert(all[k] == i);
        }
    }
}

proof fn lemma_versions_none(rows: Seq<MemoryVersion>, rel: Seq<char>, n: int)
    requires
        n <= rows.len(),
        forall|k: int| 0 <= k < rows.len() ==> (#[trigger] rows[k]).rel_path@ != rel,
    ensures
        versions_at(rows, None, rel, n).len() == 0,
    decreases n,
{
    if n > 0 {
        lemma_versions_none(rows, rel, n - 1);
    }
}

} // verus!
