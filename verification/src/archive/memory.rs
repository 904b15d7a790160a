//! Memory files: which are kept, in which versions, and how two versions differ.

use crate::agent::{memory_file, memory_name};
use crate::archive::like::{
    escape_like, escaped, is_like, like, pattern_finds_what_begins_with_it,
    plain_pattern_finds_nothing_else,
};
use crate::digest::{sha256_hex, sha256_text};
use crate::order::{
    is_text_before, lemma_text_asymmetric, lemma_text_irreflexive, lemma_text_weak, positions,
    sort_keys, sorted_holds_every_position, sorts, text_before, Key,
};
use crate::pathname::{components, extension, path_components, path_extension};
use crate::split::{fields, has, lemma_fields_first, lemma_fields_last, lines, lines_of, split};
use crate::text::{
    copy, copy_opt, lowered, opt_text, same, texts, trim, trimmed,
};
use vstd::prelude::*;
use vstd::utf8::encode_utf8;

verus! {

/// What a pass over a profile's memory files did.
#[derive(Clone, Copy, Debug)]
pub struct MemoryStats {
    /// Files that could be read.
    pub scanned: usize,
    /// Files stored as a new version.
    pub new_versions: usize,
}

/// The latest version of a memory file.
pub struct MemoryEntry {
    pub agent_profile: Option<String>,
    pub rel_path: String,
    pub scope: Option<String>,
    pub project: Option<String>,
    pub source_kind: Option<String>,
    pub host_alias: Option<String>,
    pub content_hash: Option<String>,
    pub captured_at: Option<i64>,
    /// How many versions of the file are stored.
    pub versions: i64,
}

/// One stored version of a memory file.
pub struct MemoryVersion {
    pub id: i64,
    pub agent_profile: Option<String>,
    pub rel_path: String,
    pub scope: Option<String>,
    pub project: Option<String>,
    pub content_hash: Option<String>,
    pub source_kind: Option<String>,
    pub host_alias: Option<String>,
    pub captured_at: Option<i64>,
    pub content: Option<String>,
}

/// Which memory files to list; what is not set is not asked for.
pub struct MemoryFilter {
    pub profile: Option<String>,
    pub scope: Option<String>,
    pub project: Option<String>,
}

// ---------------------------------------------------------------- differences

/// One step from an old text to a new one.
pub enum Edit {
    Keep(Seq<char>),
    Remove(Seq<char>),
    Add(Seq<char>),
}

/// How many lines `a` from `i` on and `b` from `j` on can have in common, in order.
pub open spec fn common(a: Seq<Seq<char>>, b: Seq<Seq<char>>, i: int, j: int) -> nat
    decreases a.len() - i + b.len() - j,
{
    if i < 0 || j < 0 || i >= a.len() || j >= b.len() {
        0
    } else if a[i] == b[j] {
        common(a, b, i + 1, j + 1) + 1
    } else if common(a, b, i + 1, j) >= common(a, b, i, j + 1) {
        common(a, b, i + 1, j)
    } else {
        common(a, b, i, j + 1)
    }
}

/// The steps from `a` from `i` on to `b` from `j` on that keep as many lines as possible; of two
/// ways, the one that removes first.
pub open spec fn script(a: Seq<Seq<char>>, b: Seq<Seq<char>>, i: int, j: int) -> Seq<Edit>
    decreases a.len() - i + b.len() - j,
{
    if i < 0 || j < 0 || i > a.len() || j > b.len() {
        seq![]
    } else if i < a.len() && j < b.len() {
        if a[i] == b[j] {
            seq![Edit::Keep(a[i])] + script(a, b, i + 1, j + 1)
        } else if common(a, b, i + 1, j) >= common(a, b, i, j + 1) {
            seq![Edit::Remove(a[i])] + script(a, b, i + 1, j)
        } else {
            seq![Edit::Add(b[j])] + script(a, b, i, j + 1)
        }
    } else if i < a.len() {
        seq![Edit::Remove(a[i])] + script(a, b, i + 1, j)
    } else if j < b.len() {
        seq![Edit::Add(b[j])] + script(a, b, i, j + 1)
    } else {
        seq![]
    }
}

/// How a step is shown: a line that stays is not.
pub open spec fn edit_text(e: Edit) -> Seq<char> {
    match e {
        Edit::Keep(_) => seq![],
        Edit::Remove(l) => "- "@ + l + seq!['\n'],
        Edit::Add(l) => "+ "@ + l + seq!['\n'],
    }
}

/// How steps are shown.
pub open spec fn script_text(s: Seq<Edit>) -> Seq<char>
    decreases s.len(),
{
    if s.len() == 0 {
        seq![]
    } else {
        edit_text(s[0]) + script_text(s.skip(1))
    }
}

/// The text that steps begin with.
pub open spec fn old_side(s: Seq<Edit>) -> Seq<Seq<char>>
    decreases s.len(),
{
    if s.len() == 0 {
        seq![]
    } else {
        match s[0] {
            Edit::Keep(l) => seq![l] + old_side(s.skip(1)),
            Edit::Remove(l) => seq![l] + old_side(s.skip(1)),
            Edit::Add(_) => old_side(s.skip(1)),
        }
    }
}

/// The text that steps end with.
pub open spec fn new_side(s: Seq<Edit>) -> Seq<Seq<char>>
    decreases s.len(),
{
    if s.len() == 0 {
        seq![]
    } else {
        match s[0] {
            Edit::Keep(l) => seq![l] + new_side(s.skip(1)),
            Edit::Add(l) => seq![l] + new_side(s.skip(1)),
            Edit::Remove(_) => new_side(s.skip(1)),
        }
    }
}

/// How many lines steps keep.
pub open spec fn kept_lines(s: Seq<Edit>) -> nat
    decreases s.len(),
{
    if s.len() == 0 {
        0
    } else {
        kept_lines(s.skip(1)) + if s[0] is Keep {
            1nat
        } else {
            0nat
        }
    }
}

proof fn lemma_script_head(e: Edit, t: Seq<Edit>)
    ensures
        (seq![e] + t)[0] == e,
        (seq![e] + t).skip(1) == t,
{
    assert((seq![e] + t).skip(1) =~= t);
}

/// The steps lead from the one text to the other and keep as many lines as the two can have in
/// common.
pub proof fn script_leads_from_old_to_new(a: Seq<Seq<char>>, b: Seq<Seq<char>>, i: int, j: int)
    requires
        0 <= i <= a.len(),
        0 <= j <= b.len(),
    ensures
        old_side(script(a, b, i, j)) == a.skip(i),
        new_side(script(a, b, i, j)) == b.skip(j),
        kept_lines(script(a, b, i, j)) == common(a, b, i, j),
    decreases a.len() - i + b.len() - j,
{
    let s = script(a, b, i, j);
    if i < a.len() && j < b.len() && a[i] == b[j] {
        script_leads_from_old_to_new(a, b, i + 1, j + 1);
        lemma_script_head(Edit::Keep(a[i]), script(a, b, i + 1, j + 1));
        assert(seq![a[i]] + a.skip(i + 1) =~= a.skip(i));
        assert(seq![b[j]] + b.skip(j + 1) =~= b.skip(j));
    } else if i < a.len() && (j >= b.len() || common(a, b, i + 1, j) >= common(a, b, i, j + 1)) {
        script_leads_from_old_to_new(a, b, i + 1, j);
        lemma_script_head(Edit::Remove(a[i]), script(a, b, i + 1, j));
        assert(seq![a[i]] + a.skip(i + 1) =~= a.skip(i));
    } else if j < b.len() {
        script_leads_from_old_to_new(a, b, i, j + 1);
        lemma_script_head(Edit::Add(b[j]), script(a, b, i, j + 1));
        assert(seq![b[j]] + b.skip(j + 1) =~= b.skip(j));
    } else {
        assert(a.skip(i) =~= seq![]);
        assert(b.skip(j) =~= seq![]);
    }
}

/// No pairing of equal lines, in order, has more pairs than `common` says: `p` and `q` are the
/// positions paired.
pub proof fn no_pairing_is_longer(
    a: Seq<Seq<char>>,
    b: Seq<Seq<char>>,
    i: int,
    j: int,
    p: Seq<int>,
    q: Seq<int>,
)
    requires
        0 <= i,
        0 <= j,
        p.len() == q.len(),
        forall|k: int|
            0 <= k < p.len() ==> i <= #[trigger] p[k] < a.len() && j <= q[k] < b.len() && a[p[k]]
                == b[q[k]],
        forall|k: int, l: int| 0 <= k < l < p.len() ==> #[trigger] p[k] < #[trigger] p[l],
        forall|k: int, l: int| 0 <= k < l < q.len() ==> #[trigger] q[k] < #[trigger] q[l],
    ensures
        p.len() <= common(a, b, i, j),
    decreases a.len() - i + b.len() - j,
{
    if p.len() > 0 {
        assert(i <= p[0] < a.len());
        if a[i] == b[j] {
            let p1 = p.skip(1);
            let q1 = q.skip(1);
            assert forall|k: int| 0 <= k < p1.len() implies i + 1 <= #[trigger] p1[k] < a.len() && j
                + 1 <= q1[k] < b.len() && a[p1[k]] == b[q1[k]] by {
                assert(p1[k] == p[k + 1] && q1[k] == q[k + 1]);
                assert(p[0] < p[k + 1]);
                assert(q[0] < q[k + 1]);
            }
            assert forall|k: int, l: int| 0 <= k < l < p1.len() implies #[trigger] p1[k]
                < #[trigger] p1[l] by {
                assert(p[k + 1] < p[l + 1]);
            }
            assert forall|k: int, l: int| 0 <= k < l < q1.len() implies #[trigger] q1[k]
                < #[trigger] q1[l] by {
                assert(q[k + 1] < q[l + 1]);
            }
            no_pairing_is_longer(a, b, i + 1, j + 1, p1, q1);
        } else if p[0] > i {
            assert forall|k: int| 0 <= k < p.len() implies i + 1 <= #[trigger] p[k] < a.len() && j
                <= q[k] < b.len() && a[p[k]] == b[q[k]] by {
                if k > 0 {
                    assert(p[0] < p[k]);
                }
            }
            no_pairing_is_longer(a, b, i + 1, j, p, q);
        } else {
            assert(q[0] > j);
            assert forall|k: int| 0 <= k < p.len() implies i <= #[trigger] p[k] < a.len() && j + 1
                <= q[k] < b.len() && a[p[k]] == b[q[k]] by {
                if k > 0 {
                    assert(q[0] < q[k]);
                }
            }
            no_pairing_is_longer(a, b, i, j + 1, p, q);
        }
    }
}

/// A text does not differ from itself.
pub proof fn no_difference_from_itself(a: Seq<Seq<char>>, i: int)
    requires
        0 <= i <= a.len(),
    ensures
        script_text(script(a, a, i, i)) == Seq::<char>::empty(),
    decreases a.len() - i,
{
    if i < a.len() {
        no_difference_from_itself(a, i + 1);
        lemma_script_head(Edit::Keep(a[i]), script(a, a, i + 1, i + 1));
        assert(script_text(script(a, a, i, i)) =~= seq![]);
    }
}

/// The lengths that `common` gives, for each pair of positions.
fn common_table(a: &Vec<String>, b: &Vec<String>) -> (dp: Vec<Vec<usize>>)
    requires
        a@.len() < usize::MAX,
        b@.len() < usize::MAX,
    ensures
        dp@.len() == a@.len() + 1,
        forall|i: int| 0 <= i <= a@.len() ==> (#[trigger] dp@[i])@.len() == b@.len() + 1,
        forall|i: int, j: int|
            0 <= i <= a@.len() && 0 <= j <= b@.len() ==> #[trigger] dp@[i]@[j] == common(
                texts(a@),
                texts(b@),
                i,
                j,
            ),
{
    let ghost x = texts(a@);
    let ghost y = texts(b@);
    let n: usize = a.len();
    let m: usize = b.len();
    let mut rows: Vec<Vec<usize>> = Vec::new();
    let mut last: Vec<usize> = Vec::new();
    let mut j: usize = 0;
    while j <= m
        invariant
            j <= m + 1,
            m < usize::MAX,
            x.len() == n,
            y.len() == m,
            last@.len() == j,
            forall|k: int| 0 <= k < j ==> #[trigger] last@[k] == 0,
        decreases m + 1 - j,
    {
        last.push(0);
        j += 1;
    }
    // Rows are made from the last to the first, each from right to left.
    rows.push(last);
    let mut i: usize = n;
    assert forall|k: int| 0 <= k <= m implies common(x, y, n as int, k) == 0 by {}
    while i > 0
        invariant
            i <= n,
            n == a@.len(),
            m == b@.len(),
            n < usize::MAX,
            m < usize::MAX,
            x == texts(a@),
            y == texts(b@),
            rows@.len() == n - i + 1,
            forall|r: int| 0 <= r < rows@.len() ==> (#[trigger] rows@[r])@.len() == m + 1,
            forall|r: int, k: int|
                0 <= r < rows@.len() && 0 <= k <= m ==> #[trigger] rows@[r]@[k] == common(
                    x,
                    y,
                    n - r,
                    k,
                ),
        decreases i,
    {
        let below: &Vec<usize> = &rows[rows.len() - 1];
        let mut back: Vec<usize> = Vec::new();
        back.push(0);
        assert(common(x, y, i - 1, m as int) == 0);
        let mut j: usize = m;
        while j > 0
            invariant
                j <= m,
                0 < i <= n,
                n == a@.len(),
                m == b@.len(),
                n < usize::MAX,
                x == texts(a@),
                y == texts(b@),
                below@.len() == m + 1,
                forall|k: int| 0 <= k <= m ==> #[trigger] below@[k] == common(x, y, i as int, k),
                back@.len() == m - j + 1,
                forall|k: int|
                    0 <= k < back@.len() ==> #[trigger] back@[k] == common(x, y, i - 1, m - k),
            decreases j,
        {
            let right: usize = back[back.len() - 1];
            assert(right == common(x, y, i - 1, j as int));
            assert(x[i - 1] == a@[i - 1]@ && y[j - 1] == b@[j - 1]@);
            proof {
                lemma_common_bound(x, y, i as int, j as int);
            }
            let v: usize = if same(a[i - 1].as_str(), b[j - 1].as_str()) {
                below[j] + 1
            } else if below[j - 1] >= right {
                below[j - 1]
            } else {
                right
            };
            assert(v == common(x, y, i - 1, j - 1));
            back.push(v);
            j -= 1;
        }
        let row: Vec<usize> = crate::order::reversed(back);
        assert forall|k: int| 0 <= k <= m implies #[trigger] row@[k] == common(x, y, i - 1, k) by {
            assert(row@[k] == back@[m - k]);
        }
        rows.push(row);
        i -= 1;
    }
    let dp: Vec<Vec<usize>> = crate::order::reversed(rows);
    assert forall|r: int| 0 <= r <= n implies (#[trigger] dp@[r])@.len() == m + 1 by {
        assert(dp@[r] == rows@[n - r]);
    }
    assert forall|r: int, k: int| 0 <= r <= n && 0 <= k <= m implies #[trigger] dp@[r]@[k]
        == common(x, y, r, k) by {
        assert(dp@[r] == rows@[n - r]);
        assert(rows@[n - r]@[k] == common(x, y, n - (n - r), k));
    }
    dp
}

proof fn lemma_common_bound(a: Seq<Seq<char>>, b: Seq<Seq<char>>, i: int, j: int)
    requires
        0 <= i <= a.len(),
        0 <= j <= b.len(),
    ensures
        common(a, b, i, j) <= a.len() - i,
    decreases a.len() - i + b.len() - j,
{
    if i < a.len() && j < b.len() {
        if a[i] == b[j] {
            lemma_common_bound(a, b, i + 1, j + 1);
        } else {
            lemma_common_bound(a, b, i + 1, j);
            lemma_common_bound(a, b, i, j + 1);
        }
    }
}

fn push_edit(out: &mut String, mark: &str, line: &str)
    ensures
        final(out)@ == old(out)@ + (mark@ + line@ + seq!['\n']),
{
    out.append(mark);
    out.append(line);
    out.push('\n');
    assert(out@ =~= old(out)@ + (mark@ + line@ + seq!['\n']));
}

/// The lines that two texts do not have in common, removed ones with `- ` in front and added
/// ones with `+ `.
pub fn line_diff(old: &str, new: &str) -> (r: String)
    requires
        lines_of(old@).len() < usize::MAX,
        lines_of(new@).len() < usize::MAX,
    ensures
        r@ == script_text(script(lines_of(old@), lines_of(new@), 0, 0)),
{
    let a: Vec<String> = lines(old);
    let b: Vec<String> = lines(new);
    let ghost x = texts(a@);
    let ghost y = texts(b@);
    assert(x.len() == a@.len() && y.len() == b@.len());
    let dp: Vec<Vec<usize>> = common_table(&a, &b);
    let mut out: String = String::new();
    let mut i: usize = 0;
    let mut j: usize = 0;
    let ghost all = script_text(script(x, y, 0, 0));
    assert(out@ + all =~= all);
    while i < a.len() || j < b.len()
        invariant
            i <= a@.len(),
            j <= b@.len(),
            x == texts(a@),
            y == texts(b@),
            dp@.len() == a@.len() + 1,
            forall|r: int| 0 <= r <= a@.len() ==> (#[trigger] dp@[r])@.len() == b@.len() + 1,
            forall|r: int, k: int|
                0 <= r <= a@.len() && 0 <= k <= b@.len() ==> #[trigger] dp@[r]@[k] == common(
                    x,
                    y,
                    r,
                    k,
                ),
            out@ + script_text(script(x, y, i as int, j as int)) == all,
        decreases a@.len() - i + b@.len() - j,
    {
        let ghost before = out@;
        let ghost s = script(x, y, i as int, j as int);
        assert(i < a@.len() ==> x[i as int] == a@[i as int]@);
        assert(j < b@.len() ==> y[j as int] == b@[j as int]@);
        if i < a.len() && j < b.len() && same(a[i].as_str(), b[j].as_str()) {
            proof {
                lemma_script_head(Edit::Keep(x[i as int]), script(x, y, i + 1, j + 1));
                assert(out@ + script_text(script(x, y, i + 1, j + 1)) =~= out@ + script_text(s));
            }
            i += 1;
            j += 1;
        } else if i < a.len() && (j == b.len() || dp[i + 1][j] >= dp[i][j + 1]) {
            push_edit(&mut out, "- ", a[i].as_str());
            proof {
                lemma_script_head(Edit::Remove(x[i as int]), script(x, y, i + 1, j as int));
                assert(out@ + script_text(script(x, y, i + 1, j as int)) =~= before + script_text(
                    s,
                ));
            }
            i += 1;
        } else {
            push_edit(&mut out, "+ ", b[j].as_str());
            proof {
                lemma_script_head(Edit::Add(y[j as int]), script(x, y, i as int, j + 1));
                assert(out@ + script_text(script(x, y, i as int, j + 1)) =~= before + script_text(
                    s,
                ));
            }
            j += 1;
        }
    }
    assert(out@ =~= all);
    out
}

// ---------------------------------------------------------------- which files

/// The last piece of an encoded directory name that is not empty; the whole name where all are.
pub open spec fn label_in(f: Seq<Seq<char>>, whole: Seq<char>) -> Seq<char>
    decreases f.len(),
{
    if f.len() == 0 {
        whole
    } else if f.last().len() > 0 {
        f.last()
    } else {
        label_in(f.drop_last(), whole)
    }
}

/// The short name of a project, from its encoded directory.
pub open spec fn label_of(encoded: Seq<char>) -> Seq<char> {
    label_in(fields(encoded, '-'), encoded)
}

/// The short name of a project, from its encoded directory.
pub fn project_label(encoded: &str) -> (r: String)
    ensures
        r@ == label_of(encoded@),
{
    let f: Vec<String> = split(encoded, '-');
    let mut i: usize = f.len();
    assert(texts(f@).take(f@.len() as int) =~= texts(f@));
    while i > 0
        invariant
            i <= f@.len(),
            label_of(encoded@) == label_in(texts(f@).take(i as int), encoded@),
        decreases i,
    {
        i -= 1;
        proof {
            let t = texts(f@).take(i + 1);
            assert(t.drop_last() =~= texts(f@).take(i as int));
            assert(t.last() == f@[i as int]@);
        }
        if !f[i].as_str().is_empty() {
            return copy(f[i].as_str());
        }
    }
    copy(encoded)
}

/// What a memory file is about.
pub struct Target {
    pub scope: String,
    pub project: Option<String>,
}

/// Scope and project of a file below a profile's directory; nothing where it is no memory file.
///
/// The agent's memory file and the Markdown files below `rules` are the user's; `MEMORY.md` of a
/// project and the Markdown files below its `memory` directory are the project's.
pub open spec fn target_of(agent: Seq<char>, rel: Seq<char>) -> Option<(Seq<char>, Option<Seq<char>>)> {
    let c = components(rel);
    let md = extension(rel) == Some("md"@);
    if c.len() == 1 && c[0] == memory_name(agent) {
        Some(("user"@, None))
    } else if c.len() >= 2 && c[0] == "rules"@ && md {
        Some(("user"@, None))
    } else if c.len() == 3 && c[0] == "projects"@ && c[2] == "MEMORY.md"@ {
        Some(("project"@, Some(label_of(c[1]))))
    } else if c.len() >= 4 && c[0] == "projects"@ && c[2] == "memory"@ && md {
        Some(("project"@, Some(label_of(c[1]))))
    } else {
        None
    }
}

/// Scope and project of a file below a profile's directory.
pub fn classify_target(agent: &str, rel: &str) -> (r: Option<Target>)
    ensures
        match r {
            Some(t) => target_of(agent@, rel@) == Some((t.scope@, opt_text(t.project))),
            None => target_of(agent@, rel@) is None,
        },
{
    let c: Vec<String> = path_components(rel);
    let ghost v = components(rel@);
    assert(v.len() == c@.len());
    assert(forall|i: int| 0 <= i < c@.len() ==> v[i] == (#[trigger] c@[i])@);
    let md: bool = match path_extension(rel) {
        Some(e) => same(e.as_str(), "md"),
        None => false,
    };
    if c.len() == 1 && same(c[0].as_str(), memory_file(agent).as_str()) {
        Some(Target { scope: copy("user"), project: None })
    } else if c.len() >= 2 && same(c[0].as_str(), "rules") && md {
        Some(Target { scope: copy("user"), project: None })
    } else if c.len() == 3 && same(c[0].as_str(), "projects") && same(c[2].as_str(), "MEMORY.md") {
        Some(Target { scope: copy("project"), project: Some(project_label(c[1].as_str())) })
    } else if c.len() >= 4 && same(c[0].as_str(), "projects") && same(c[2].as_str(), "memory")
        && md {
        Some(Target { scope: copy("project"), project: Some(project_label(c[1].as_str())) })
    } else {
        None
    }
}

// ---------------------------------------------------------------- which versions

/// A memory file as it was read.
pub struct MemoryFile {
    pub rel_path: String,
    pub content: String,
}

/// A version of a profile's memory file that is stored.
pub struct StoredKey {
    pub rel_path: String,
    pub content_hash: String,
}

/// The digest by which versions are told apart.
pub open spec fn hash_of(f: MemoryFile) -> Seq<char> {
    sha256_text(encode_utf8(f.content@))
}

/// Whether file `i` is a new version: neither stored nor the same as an earlier file.
pub open spec fn is_new_version(files: Seq<MemoryFile>, stored: Seq<StoredKey>, i: int) -> bool {
    &&& forall|k: int|
        0 <= k < stored.len() ==> !((#[trigger] stored[k]).rel_path@ == files[i].rel_path@
            && stored[k].content_hash@ == hash_of(files[i]))
    &&& forall|k: int|
        0 <= k < i ==> !((#[trigger] files[k]).rel_path@ == files[i].rel_path@ && hash_of(files[k])
            == hash_of(files[i]))
}

/// How many of the first `n` files are new versions.
pub open spec fn new_versions(files: Seq<MemoryFile>, stored: Seq<StoredKey>, n: int) -> nat
    decreases n,
{
    if n <= 0 {
        0
    } else {
        new_versions(files, stored, n - 1) + if is_new_version(files, stored, n - 1) {
            1nat
        } else {
            0nat
        }
    }
}

/// A version that is stored is not stored again.
pub proof fn stored_version_is_not_new(files: Seq<MemoryFile>, stored: Seq<StoredKey>, i: int, k: int)
    requires
        0 <= i < files.len(),
        0 <= k < stored.len(),
        stored[k].rel_path@ == files[i].rel_path@,
        stored[k].content_hash@ == hash_of(files[i]),
    ensures
        !is_new_version(files, stored, i),
{
}

/// What to store of the files read: the digest of each, and which are new versions.
pub struct Snapshot {
    pub hashes: Vec<String>,
    pub fresh: Vec<bool>,
    pub stats: MemoryStats,
}

/// What to store of a profile's memory files.
pub fn snapshot_memory(files: &Vec<MemoryFile>, stored: &Vec<StoredKey>) -> (r: Snapshot)
    ensures
        r.hashes@.len() == files@.len(),
        r.fresh@.len() == files@.len(),
        forall|i: int| 0 <= i < files@.len() ==> (#[trigger] r.hashes@[i])@ == hash_of(files@[i]),
        forall|i: int|
            0 <= i < files@.len() ==> #[trigger] r.fresh@[i] == is_new_version(files@, stored@, i),
        r.stats.scanned == files@.len(),
        r.stats.new_versions == new_versions(files@, stored@, files@.len() as int),
{
    let mut hashes: Vec<String> = Vec::new();
    let mut fresh: Vec<bool> = Vec::new();
    let mut count: usize = 0;
    let mut i: usize = 0;
    while i < files.len()
        invariant
            i <= files@.len(),
            hashes@.len() == i,
            fresh@.len() == i,
            count == new_versions(files@, stored@, i as int),
            count <= i,
            forall|k: int| 0 <= k < i ==> (#[trigger] hashes@[k])@ == hash_of(files@[k]),
            forall|k: int|
                0 <= k < i ==> #[trigger] fresh@[k] == is_new_version(files@, stored@, k),
        decreases files@.len() - i,
    {
        let h: String = sha256_hex(files[i].content.as_str().as_bytes());
        let mut new: bool = true;
        let mut k: usize = 0;
        while k < stored.len()
            invariant
                i < files@.len(),
                k <= stored@.len(),
                h@ == hash_of(files@[i as int]),
                new == (forall|q: int|
                    0 <= q < k ==> !((#[trigger] stored@[q]).rel_path@ == files@[i as int].rel_path@
                        && stored@[q].content_hash@ == hash_of(files@[i as int]))),
            decreases stored@.len() - k,
        {
            if same(stored[k].rel_path.as_str(), files[i].rel_path.as_str()) && same(
                stored[k].content_hash.as_str(),
                h.as_str(),
            ) {
                assert(stored@[k as int].rel_path@ == files@[i as int].rel_path@);
                new = false;
            }
            k += 1;
        }
        let ghost unstored = new;
        let mut j: usize = 0;
        while j < i
            invariant
                j <= i < files@.len(),
                hashes@.len() == i,
                forall|q: int| 0 <= q < i ==> (#[trigger] hashes@[q])@ == hash_of(files@[q]),
                h@ == hash_of(files@[i as int]),
                new == (unstored && (forall|q: int|
                    0 <= q < j ==> !((#[trigger] files@[q]).rel_path@ == files@[i as int].rel_path@
                        && hash_of(files@[q]) == hash_of(files@[i as int])))),
            decreases i - j,
        {
            if same(files[j].rel_path.as_str(), files[i].rel_path.as_str()) && same(
                hashes[j].as_str(),
                h.as_str(),
            ) {
                assert(files@[j as int].rel_path@ == files@[i as int].rel_path@);
                new = false;
            }
            j += 1;
        }
        if new {
            count += 1;
        }
        hashes.push(h);
        fresh.push(new);
        i += 1;
    }
    Snapshot { hashes, fresh, stats: MemoryStats { scanned: files.len(), new_versions: count } }
}

// ---------------------------------------------------------------- listing

/// Whether two versions are of one file: an unset profile counts as an empty one.
pub open spec fn same_file(a: MemoryVersion, b: MemoryVersion) -> bool {
    or_empty(opt_text(a.agent_profile)) == or_empty(opt_text(b.agent_profile)) && a.rel_path@
        == b.rel_path@
}

/// A text, or an empty one.
pub open spec fn or_empty(o: Option<Seq<char>>) -> Seq<char> {
    match o {
        Some(s) => s,
        None => seq![],
    }
}

/// Whether a time is later; a time that is not known is earlier than any.
pub open spec fn later(a: Option<i64>, b: Option<i64>) -> bool {
    match (a, b) {
        (Some(x), Some(y)) => x > y,
        (Some(_), None) => true,
        _ => false,
    }
}

/// Whether a version is newer: by its time, then by its number.
pub open spec fn newer(a: MemoryVersion, b: MemoryVersion) -> bool {
    later(a.captured_at, b.captured_at) || (a.captured_at == b.captured_at && a.id > b.id)
}

/// Whether no version of its file is newer.
pub open spec fn is_latest(rows: Seq<MemoryVersion>, i: int) -> bool {
    forall|k: int|
        0 <= k < rows.len() && same_file(#[trigger] rows[k], rows[i]) ==> !newer(rows[k], rows[i])
}

/// How many of the first `n` versions are of the file of version `i`.
pub open spec fn version_count(rows: Seq<MemoryVersion>, i: int, n: int) -> nat
    decreases n,
{
    if n <= 0 {
        0
    } else {
        version_count(rows, i, n - 1) + if same_file(rows[n - 1], rows[i]) {
            1nat
        } else {
            0nat
        }
    }
}

/// Whether an optional wish is met.
pub open spec fn wished(wish: Option<Seq<char>>, have: Option<Seq<char>>) -> bool {
    wish is None || wish == have
}

/// Whether a version is asked for.
pub open spec fn asked_for(f: MemoryFilter, v: MemoryVersion) -> bool {
    &&& wished(opt_text(f.profile), opt_text(v.agent_profile))
    &&& wished(opt_text(f.scope), opt_text(v.scope))
    &&& wished(opt_text(f.project), opt_text(v.project))
}

/// The latest versions asked for among the first `n`, in order.
pub open spec fn latest_rows(rows: Seq<MemoryVersion>, f: MemoryFilter, n: int) -> Seq<int>
    decreases n,
{
    if n <= 0 {
        seq![]
    } else if is_latest(rows, n - 1) && asked_for(f, rows[n - 1]) {
        latest_rows(rows, f, n - 1).push(n - 1)
    } else {
        latest_rows(rows, f, n - 1)
    }
}

/// A listing is sorted by time, the latest first, then by path.
pub struct ListKey {
    pub captured_at: Option<i64>,
    pub rel_path: String,
}

impl Key for ListKey {
    open spec fn before(&self, other: &Self) -> bool {
        later(self.captured_at, other.captured_at) || (self.captured_at == other.captured_at
            && text_before(self.rel_path@, other.rel_path@))
    }

    proof fn irreflexive(a: Self) {
        lemma_text_irreflexive(a.rel_path@);
    }

    proof fn weak(a: Self, b: Self, c: Self) {
        if a.captured_at == b.captured_at && b.captured_at == c.captured_at {
            lemma_text_weak(a.rel_path@, b.rel_path@, c.rel_path@);
        }
    }

    proof fn asymmetric(a: Self, b: Self) {
        if a.captured_at == b.captured_at {
            lemma_text_asymmetric(a.rel_path@, b.rel_path@);
        }
    }

    fn is_before(&self, other: &Self) -> (r: bool) {
        match (self.captured_at, other.captured_at) {
            (Some(x), Some(y)) => x > y || (x == y && is_text_before(
                self.rel_path.as_str(),
                other.rel_path.as_str(),
            )),
            (Some(_), None) => true,
            (None, Some(_)) => false,
            (None, None) => is_text_before(self.rel_path.as_str(), other.rel_path.as_str()),
        }
    }
}

/// Whether an entry shows version `v` of a file with `n` versions.
pub open spec fn shows(e: MemoryEntry, v: MemoryVersion, n: nat) -> bool {
    &&& opt_text(e.agent_profile) == opt_text(v.agent_profile)
    &&& e.rel_path@ == v.rel_path@
    &&& opt_text(e.scope) == opt_text(v.scope)
    &&& opt_text(e.project) == opt_text(v.project)
    &&& opt_text(e.source_kind) == opt_text(v.source_kind)
    &&& opt_text(e.host_alias) == opt_text(v.host_alias)
    &&& opt_text(e.content_hash) == opt_text(v.content_hash)
    &&& e.captured_at == v.captured_at
    &&& e.versions == n
}

/// Whether keys are those of the rows at the given positions.
pub open spec fn keys_of(keys: Seq<ListKey>, rows: Seq<MemoryVersion>, at: Seq<int>) -> bool {
    &&& keys.len() == at.len()
    &&& forall|k: int|
        0 <= k < at.len() ==> (#[trigger] keys[k]).captured_at == rows[at[k]].captured_at
            && keys[k].rel_path@ == rows[at[k]].rel_path@
}

/// Whether entries list the rows at the given positions, sorted.
pub open spec fn lists(entries: Seq<MemoryEntry>, rows: Seq<MemoryVersion>, at: Seq<int>) -> bool {
    exists|keys: Seq<ListKey>, order: Seq<int>|
        keys_of(keys, rows, at) && #[trigger] sorts(keys, order) && entries.len() == order.len() && (
        forall|k: int|
            0 <= k < entries.len() ==> shows(
                #[trigger] entries[k],
                rows[at[order[k]]],
                version_count(rows, at[order[k]], rows.len() as int),
            ))
}

fn same_opt_or_empty(a: &Option<String>, b: &Option<String>) -> (r: bool)
    ensures
        r == (or_empty(opt_text(*a)) == or_empty(opt_text(*b))),
{
    let x: String = match a {
        Some(s) => copy(s.as_str()),
        None => String::new(),
    };
    let y: String = match b {
        Some(s) => copy(s.as_str()),
        None => String::new(),
    };
    same(x.as_str(), y.as_str())
}

/// Whether an optional wish is met.
pub fn check_wish(wish: &Option<String>, have: &Option<String>) -> (r: bool)
    ensures
        r == wished(opt_text(*wish), opt_text(*have)),
{
    match wish {
        None => true,
        Some(w) => match have {
            Some(h) => same(w.as_str(), h.as_str()),
            None => false,
        },
    }
}

fn check_newer(a: &MemoryVersion, b: &MemoryVersion) -> (r: bool)
    ensures
        r == newer(*a, *b),
{
    match (a.captured_at, b.captured_at) {
        (Some(x), Some(y)) => x > y || (x == y && a.id > b.id),
        (Some(_), None) => true,
        (None, Some(_)) => false,
        (None, None) => a.id > b.id,
    }
}

fn check_same_file(a: &MemoryVersion, b: &MemoryVersion) -> (r: bool)
    ensures
        r == same_file(*a, *b),
{
    same_opt_or_empty(&a.agent_profile, &b.agent_profile) && same(
        a.rel_path.as_str(),
        b.rel_path.as_str(),
    )
}

fn check_latest(rows: &Vec<MemoryVersion>, i: usize) -> (r: bool)
    requires
        i < rows@.len(),
    ensures
        r == is_latest(rows@, i as int),
{
    let mut k: usize = 0;
    while k < rows.len()
        invariant
            i < rows@.len(),
            k <= rows@.len(),
            forall|q: int|
                0 <= q < k && same_file(#[trigger] rows@[q], rows@[i as int]) ==> !newer(
                    rows@[q],
                    rows@[i as int],
                ),
        decreases rows@.len() - k,
    {
        if check_same_file(&rows[k], &rows[i]) && check_newer(&rows[k], &rows[i]) {
            assert(same_file(rows@[k as int], rows@[i as int]));
            return false;
        }
        k += 1;
    }
    true
}

fn count_versions(rows: &Vec<MemoryVersion>, i: usize) -> (r: usize)
    requires
        i < rows@.len(),
    ensures
        r == version_count(rows@, i as int, rows@.len() as int),
{
    let mut n: usize = 0;
    let mut k: usize = 0;
    while k < rows.len()
        invariant
            i < rows@.len(),
            k <= rows@.len(),
            n == version_count(rows@, i as int, k as int),
            n <= k,
        decreases rows@.len() - k,
    {
        if check_same_file(&rows[k], &rows[i]) {
            n += 1;
        }
        k += 1;
    }
    n
}

/// Lists the rows at the given positions, sorted.
fn list_at(rows: &Vec<MemoryVersion>, at: &Vec<usize>) -> (r: Vec<MemoryEntry>)
    requires
        rows@.len() <= i64::MAX,
        forall|k: int| 0 <= k < at@.len() ==> #[trigger] at@[k] < rows@.len(),
    ensures
        lists(r@, rows@, positions(at@)),
{
    let mut keys: Vec<ListKey> = Vec::new();
    let mut i: usize = 0;
    while i < at.len()
        invariant
            i <= at@.len(),
            keys@.len() == i,
            forall|k: int| 0 <= k < at@.len() ==> #[trigger] at@[k] < rows@.len(),
            forall|k: int|
                0 <= k < i ==> (#[trigger] keys@[k]).captured_at
                    == rows@[at@[k] as int].captured_at && keys@[k].rel_path@
                    == rows@[at@[k] as int].rel_path@,
        decreases at@.len() - i,
    {
        let v: &MemoryVersion = &rows[at[i]];
        keys.push(ListKey { captured_at: v.captured_at, rel_path: copy(v.rel_path.as_str()) });
        i += 1;
    }
    let order: Vec<usize> = sort_keys(&keys);
    let ghost o = positions(order@);
    let mut out: Vec<MemoryEntry> = Vec::new();
    let mut k: usize = 0;
    while k < order.len()
        invariant
            k <= order@.len(),
            out@.len() == k,
            o == positions(order@),
            sorts(keys@, o),
            keys@.len() == at@.len(),
            rows@.len() <= i64::MAX,
            forall|q: int| 0 <= q < at@.len() ==> #[trigger] at@[q] < rows@.len(),
            forall|q: int|
                0 <= q < k ==> shows(
                    #[trigger] out@[q],
                    rows@[positions(at@)[o[q]]],
                    version_count(rows@, positions(at@)[o[q]], rows@.len() as int),
                ),
        decreases order@.len() - k,
    {
        assert(o[k as int] == order@[k as int]);
        let i: usize = at[order[k]];
        assert(positions(at@)[o[k as int]] == i as int);
        let v: &MemoryVersion = &rows[i];
        let n: usize = count_versions(rows, i);
        proof {
            lemma_version_count(rows@, i as int, rows@.len() as int);
        }
        out.push(
            MemoryEntry {
                agent_profile: copy_opt(&v.agent_profile),
                rel_path: copy(v.rel_path.as_str()),
                scope: copy_opt(&v.scope),
                project: copy_opt(&v.project),
                source_kind: copy_opt(&v.source_kind),
                host_alias: copy_opt(&v.host_alias),
                content_hash: copy_opt(&v.content_hash),
                captured_at: v.captured_at,
                versions: n as i64,
            },
        );
        k += 1;
    }
    assert(keys_of(keys@, rows@, positions(at@)));
    out
}

proof fn lemma_version_count(rows: Seq<MemoryVersion>, i: int, n: int)
    requires
        0 <= n,
    ensures
        version_count(rows, i, n) <= n,
    decreases n,
{
    if n > 0 {
        lemma_version_count(rows, i, n - 1);
    }
}

/// The latest version of each memory file asked for, the latest first.
pub fn list_memory(rows: &Vec<MemoryVersion>, f: &MemoryFilter) -> (r: Vec<MemoryEntry>)
    requires
        rows@.len() <= i64::MAX,
    ensures
        lists(r@, rows@, latest_rows(rows@, *f, rows@.len() as int)),
{
    let mut at: Vec<usize> = Vec::new();
    let mut i: usize = 0;
    assert(positions(at@) =~= latest_rows(rows@, *f, 0));
    while i < rows.len()
        invariant
            i <= rows@.len(),
            positions(at@) == latest_rows(rows@, *f, i as int),
            forall|k: int| 0 <= k < at@.len() ==> #[trigger] at@[k] < rows@.len(),
        decreases rows@.len() - i,
    {
        let v: &MemoryVersion = &rows[i];
        let ghost before = at@;
        if check_latest(rows, i) && check_wish(&f.profile, &v.agent_profile) && check_wish(
            &f.scope,
            &v.scope,
        ) && check_wish(&f.project, &v.project) {
            at.push(i);
            assert(positions(at@) =~= positions(before).push(i as int));
        }
        i += 1;
    }
    list_at(rows, &at)
}

/// Whether a version is of the file and, where one is asked for, of the profile.
pub open spec fn version_of(v: MemoryVersion, profile: Option<Seq<char>>, rel: Seq<char>) -> bool {
    v.rel_path@ == rel && wished(profile, opt_text(v.agent_profile))
}

/// The versions of a file among the first `n`, in order.
pub open spec fn versions_at(
    rows: Seq<MemoryVersion>,
    profile: Option<Seq<char>>,
    rel: Seq<char>,
    n: int,
) -> Seq<int>
    decreases n,
{
    if n <= 0 {
        seq![]
    } else if version_of(rows[n - 1], profile, rel) {
        versions_at(rows, profile, rel, n - 1).push(n - 1)
    } else {
        versions_at(rows, profile, rel, n - 1)
    }
}

/// Versions are sorted by time, the latest first, then by number, the highest first.
pub struct VersionKey {
    pub captured_at: Option<i64>,
    pub id: i64,
}

impl Key for VersionKey {
    open spec fn before(&self, other: &Self) -> bool {
        later(self.captured_at, other.captured_at) || (self.captured_at == other.captured_at
            && self.id > other.id)
    }

    proof fn irreflexive(a: Self) {
    }

    proof fn weak(a: Self, b: Self, c: Self) {
    }

    proof fn asymmetric(a: Self, b: Self) {
    }

    fn is_before(&self, other: &Self) -> (r: bool) {
        match (self.captured_at, other.captured_at) {
            (Some(x), Some(y)) => x > y || (x == y && self.id > other.id),
            (Some(_), None) => true,
            (None, Some(_)) => false,
            (None, None) => self.id > other.id,
        }
    }
}

/// The keys of the rows at the given positions.
pub open spec fn version_keys(rows: Seq<MemoryVersion>, at: Seq<int>) -> Seq<VersionKey> {
    Seq::new(at.len(), |k: int| version_key(rows[at[k]]))
}

/// The key of a version.
pub open spec fn version_key(v: MemoryVersion) -> VersionKey {
    VersionKey { captured_at: v.captured_at, id: v.id }
}

/// Whether `r` are the positions `at`, the newest version first.
pub open spec fn newest_first(r: Seq<int>, rows: Seq<MemoryVersion>, at: Seq<int>) -> bool {
    exists|order: Seq<int>| #[trigger]
        sorts(version_keys(rows, at), order) && r == Seq::new(
            order.len(),
            |k: int| at[order[k]],
        )
}

/// The positions of the versions of a file, the newest first.
pub fn memory_versions(rows: &Vec<MemoryVersion>, profile: &Option<String>, rel_path: &str) -> (r:
    Vec<usize>)
    ensures
        newest_first(
            positions(r@),
            rows@,
            versions_at(rows@, opt_text(*profile), rel_path@, rows@.len() as int),
        ),
        forall|k: int| 0 <= k < r@.len() ==> #[trigger] r@[k] < rows@.len(),
{
    let mut at: Vec<usize> = Vec::new();
    let mut keys: Vec<VersionKey> = Vec::new();
    let mut i: usize = 0;
    assert(positions(at@) =~= versions_at(rows@, opt_text(*profile), rel_path@, 0));
    while i < rows.len()
        invariant
            i <= rows@.len(),
            positions(at@) == versions_at(rows@, opt_text(*profile), rel_path@, i as int),
            keys@.len() == at@.len(),
            forall|k: int| 0 <= k < at@.len() ==> #[trigger] at@[k] < rows@.len(),
            forall|k: int|
                0 <= k < at@.len() ==> #[trigger] keys@[k] == version_key(rows@[at@[k] as int]),
        decreases rows@.len() - i,
    {
        let v: &MemoryVersion = &rows[i];
        let ghost before = at@;
        if same(v.rel_path.as_str(), rel_path) && check_wish(profile, &v.agent_profile) {
            at.push(i);
            keys.push(VersionKey { captured_at: v.captured_at, id: v.id });
            assert(positions(at@) =~= positions(before).push(i as int));
        }
        i += 1;
    }
    assert(keys@ =~= version_keys(rows@, positions(at@)));
    let order: Vec<usize> = sort_keys(&keys);
    let ghost o = positions(order@);
    let mut out: Vec<usize> = Vec::new();
    let mut k: usize = 0;
    while k < order.len()
        invariant
            k <= order@.len(),
            out@.len() == k,
            o == positions(order@),
            sorts(keys@, o),
            keys@.len() == at@.len(),
            forall|q: int| 0 <= q < at@.len() ==> #[trigger] at@[q] < rows@.len(),
            forall|q: int|
                0 <= q < k ==> #[trigger] out@[q] == positions(at@)[o[q]] && out@[q] < rows@.len(),
        decreases order@.len() - k,
    {
        assert(o[k as int] == order@[k as int]);
        assert(positions(at@)[o[k as int]] == at@[order@[k as int] as int] as int);
        out.push(at[order[k]]);
        k += 1;
    }
    assert(positions(out@) =~= Seq::new(o.len(), |q: int| positions(at@)[o[q]]));
    out
}

/// Whether a file is of the user or below the project's directory.
pub open spec fn belongs(v: MemoryVersion, encoded_cwd: Seq<char>) -> bool {
    opt_text(v.scope) == Some("user"@) || like(
        "projects/"@ + encoded_cwd + "/%"@,
        v.rel_path@,
        None,
    )
}

/// The pattern that finds a query; nothing where the query is blank.
pub open spec fn query_pattern(query: Option<Seq<char>>) -> Option<Seq<char>> {
    match query {
        Some(q) => if trimmed(q).len() == 0 {
            None
        } else {
            Some(seq!['%'] + escaped(trimmed(q)) + seq!['%'])
        },
        None => None,
    }
}

/// Whether a file's path or text matches a pattern.
pub open spec fn found(v: MemoryVersion, pattern: Option<Seq<char>>) -> bool {
    match pattern {
        None => true,
        Some(p) => like(p, v.rel_path@, Some('\\')) || match v.content {
            Some(c) => like(p, c@, Some('\\')),
            None => false,
        },
    }
}

/// The latest versions of an instance's memory files among the first `n`, in order.
pub open spec fn instance_rows(
    rows: Seq<MemoryVersion>,
    profile: Seq<char>,
    encoded_cwd: Seq<char>,
    pattern: Option<Seq<char>>,
    n: int,
) -> Seq<int>
    decreases n,
{
    if n <= 0 {
        seq![]
    } else {
        let before = instance_rows(rows, profile, encoded_cwd, pattern, n - 1);
        let v = rows[n - 1];
        if is_latest(rows, n - 1) && opt_text(v.agent_profile) == Some(profile) && belongs(
            v,
            encoded_cwd,
        ) && found(v, pattern) {
            before.push(n - 1)
        } else {
            before
        }
    }
}

/// A query finds the files that hold its text, in either case: no character of it acts as a
/// wildcard.
pub proof fn query_is_taken_literally(v: MemoryVersion, q: Seq<char>)
    requires
        trimmed(q).len() > 0,
    ensures
        found(v, query_pattern(Some(q))) == (has(lowered(v.rel_path@), lowered(trimmed(q))) || (
        v.content is Some && has(lowered(v.content->0@), lowered(trimmed(q))))),
{
    crate::archive::like::escaped_pattern_finds_the_text(trimmed(q), v.rel_path@);
    if let Some(c) = v.content {
        crate::archive::like::escaped_pattern_finds_the_text(trimmed(q), c@);
    }
}

/// The latest version of each memory file of an instance: the user's, and those of the project
/// in its directory; of these, where a query is given, those whose path or text holds it.
pub fn list_memory_for_instance(
    rows: &Vec<MemoryVersion>,
    agent_profile: &str,
    encoded_cwd: &str,
    query: &Option<String>,
) -> (r: Vec<MemoryEntry>)
    requires
        rows@.len() <= i64::MAX,
    ensures
        lists(
            r@,
            rows@,
            instance_rows(
                rows@,
                agent_profile@,
                encoded_cwd@,
                query_pattern(opt_text(*query)),
                rows@.len() as int,
            ),
        ),
{
    let mut project: String = copy("projects/");
    project.append(encoded_cwd);
    project.append("/%");
    let pattern: Option<String> = match query {
        Some(q) => {
            let t: String = trim(q.as_str());
            if t.as_str().is_empty() {
                None
            } else {
                let mut p: String = String::new();
                p.push('%');
                p.append(escape_like(t.as_str()).as_str());
                p.push('%');
                assert(p@ =~= seq!['%'] + escaped(t@) + seq!['%']);
                Some(p)
            }
        },
        None => None,
    };
    let ghost pat = query_pattern(opt_text(*query));
    assert(opt_text(pattern) == pat);
    let mut at: Vec<usize> = Vec::new();
    let mut i: usize = 0;
    assert(positions(at@) =~= instance_rows(rows@, agent_profile@, encoded_cwd@, pat, 0));
    while i < rows.len()
        invariant
            i <= rows@.len(),
            opt_text(pattern) == pat,
            project@ == "projects/"@ + encoded_cwd@ + "/%"@,
            positions(at@) == instance_rows(rows@, agent_profile@, encoded_cwd@, pat, i as int),
            forall|k: int| 0 <= k < at@.len() ==> #[trigger] at@[k] < rows@.len(),
        decreases rows@.len() - i,
    {
        let v: &MemoryVersion = &rows[i];
        let ghost before = at@;
        let mine: bool = match &v.agent_profile {
            Some(p) => same(p.as_str(), agent_profile),
            None => false,
        };
        let users: bool = match &v.scope {
            Some(s) => same(s.as_str(), "user"),
            None => false,
        };
        let here: bool = users || is_like(project.as_str(), v.rel_path.as_str(), None);
        let hit: bool = match &pattern {
            None => true,
            Some(p) => is_like(p.as_str(), v.rel_path.as_str(), Some('\\')) || match &v.content {
                Some(c) => is_like(p.as_str(), c.as_str(), Some('\\')),
                None => false,
            },
        };
        if check_latest(rows, i) && mine && here && hit {
            at.push(i);
            assert(positions(at@) =~= positions(before).push(i as int));
        }
        i += 1;
    }
    list_at(rows, &at)
}

/// The text of the newest version of a profile's memory file.
pub fn memory_latest_content(rows: &Vec<MemoryVersion>, agent_profile: &str, rel_path: &str) -> (r:
    Option<String>)
    ensures
        ({
            let at = versions_at(rows@, Some(agent_profile@), rel_path@, rows@.len() as int);
            exists|o: Seq<int>| #[trigger]
                newest_first(o, rows@, at) && opt_text(r) == if o.len() == 0 {
                    None
                } else {
                    opt_text(rows@[o[0]].content)
                }
        }),
{
    let order: Vec<usize> = memory_versions(rows, &Some(copy(agent_profile)), rel_path);
    if order.len() == 0 {
        None
    } else {
        assert(positions(order@)[0] == order@[0]);
        copy_opt(&rows[order[0]].content)
    }
}

// ---------------------------------------------------------------- what the memory promises

/// The difference shows every change and nothing that stayed: a line that is gone behind a minus, one
/// that is new behind a plus, in the order of the changes.
pub proof fn difference_shows_each_change(a: Seq<Edit>, b: Seq<Edit>, l: Seq<char>)
    ensures
        script_text(a + b) == script_text(a) + script_text(b),
        script_text(seq![Edit::Remove(l)]) == "- "@ + l + "\n"@,
        script_text(seq![Edit::Add(l)]) == "+ "@ + l + "\n"@,
        script_text(seq![Edit::Keep(l)]) == Seq::<char>::empty(),
    decreases a.len(),
{
    reveal_strlit("\n");
    assert("\n"@ =~= seq!['\n']);
    lemma_one_edit(Edit::Remove(l));
    lemma_one_edit(Edit::Add(l));
    lemma_one_edit(Edit::Keep(l));
    if a.len() == 0 {
        assert(a + b =~= b);
        assert(script_text(a) + script_text(b) =~= script_text(b));
    } else {
        difference_shows_each_change(a.skip(1), b, l);
        assert((a + b).skip(1) =~= a.skip(1) + b);
        assert((a + b)[0] == a[0]);
        assert(script_text(a + b) =~= script_text(a) + script_text(b));
    }
}

proof fn lemma_one_edit(e: Edit)
    ensures
        script_text(seq![e]) == edit_text(e),
{
    let s = seq![e];
    assert(s.skip(1) =~= seq![]);
    assert(script_text(s.skip(1)) =~= seq![]);
    assert(script_text(s) =~= edit_text(e));
}

/// A project's directory is labelled with what stands behind the last hyphen that something stands
/// behind.
pub proof fn project_label_is_the_last_piece(before: Seq<char>, name: Seq<char>)
    requires
        name.len() > 0,
        !name.contains('-'),
    ensures
        label_of(before + "-"@ + name) == name,
        label_of(before + "-"@ + name + "-"@) == name,
        label_of(name) == name,
{
    reveal_strlit("-");
    let a = before + "-"@ + name;
    assert(a =~= before.push('-') + name);
    lemma_fields_last(before, name, '-');
    assert(fields(a, '-').last() == name);
    let b = a + "-"@;
    let e = Seq::<char>::empty();
    assert(b =~= a.push('-') + e);
    lemma_fields_last(a, e, '-');
    let f = fields(b, '-');
    assert(f.last() == e);
    assert(f.drop_last() =~= fields(a, '-'));
    assert(fields(a, '-').len() > 0);
    assert(label_in(fields(a, '-'), b) == name);
    lemma_fields_first(name, e, '-');
}

/// Which files of a profile are memory: the user's own file and its rules, and each project's own file
/// and its notes; a project's are labelled after its directory. No other file is.
pub proof fn memory_files_are_told_by_their_path(agent: Seq<char>, rel: Seq<char>)
    ensures
        ({
            let c = components(rel);
            let md = extension(rel) == Some("md"@);
            let user = (c.len() == 1 && c[0] == memory_name(agent)) || (c.len() >= 2 && c[0]
                == "rules"@ && md);
            let project = c.len() >= 3 && c[0] == "projects"@ && ((c.len() == 3 && c[2]
                == "MEMORY.md"@) || (c.len() >= 4 && c[2] == "memory"@ && md));
            &&& user ==> target_of(agent, rel) == Some(("user"@, None::<Seq<char>>))
            &&& project ==> target_of(agent, rel) == Some(("project"@, Some(label_of(c[1]))))
            &&& !user && !project ==> target_of(agent, rel) is None
        }),
{
    reveal_strlit("rules");
    reveal_strlit("projects");
    assert("rules"@.len() != "projects"@.len());
}

/// A file is stored as a new version exactly where its path has no version of the same content yet,
/// neither stored nor met before in the same pass.
pub proof fn changed_file_is_a_new_version(files: Seq<MemoryFile>, stored: Seq<StoredKey>, i: int)
    requires
        0 <= i < files.len(),
    ensures
        is_new_version(files, stored, i) <==> !(exists|k: int|
            0 <= k < stored.len() && (#[trigger] stored[k]).rel_path@ == files[i].rel_path@
                && stored[k].content_hash@ == sha256_text(encode_utf8(files[i].content@)))
            && !(exists|k: int|
            0 <= k < i && (#[trigger] files[k]).rel_path@ == files[i].rel_path@ && sha256_text(
                encode_utf8(files[k].content@),
            ) == sha256_text(encode_utf8(files[i].content@))),
        new_versions(files, stored, i + 1) == new_versions(files, stored, i) + if is_new_version(
            files,
            stored,
            i,
        ) {
            1nat
        } else {
            0nat
        },
        new_versions(files, stored, 0) == 0,
{
}

proof fn lemma_latest_rows(rows: Seq<MemoryVersion>, f: MemoryFilter, n: int, x: int)
    requires
        0 <= n <= rows.len(),
    ensures
        latest_rows(rows, f, n).contains(x) <==> 0 <= x < n && is_latest(rows, x) && asked_for(
            f,
            rows[x],
        ),
    decreases n,
{
    if n > 0 {
        lemma_latest_rows(rows, f, n - 1, x);
        let a = latest_rows(rows, f, n);
        let b = latest_rows(rows, f, n - 1);
        if a.len() > b.len() {
            assert(a[a.len() - 1] == n - 1);
            assert(a.drop_last() =~= b);
        }
        if b.contains(x) {
            let k = choose|k: int| 0 <= k < b.len() && b[k] == x;
            assert(a[k] == x);
        }
        if a.contains(x) {
            let k = choose|k: int| 0 <= k < a.len() && a[k] == x;
            if k < b.len() {
                assert(b[k] == x);
            }
        }
    }
}

/// Each entry listed shows the latest version of its file: no version of the same profile and path was
/// captured later, and the profile, scope and project are those asked for.
pub proof fn listed_memory_is_the_latest(
    entries: Seq<MemoryEntry>,
    rows: Seq<MemoryVersion>,
    f: MemoryFilter,
    k: int,
)
    requires
        lists(entries, rows, latest_rows(rows, f, rows.len() as int)),
        0 <= k < entries.len(),
    ensures
        exists|i: int| 0 <= i < rows.len() && {
            let v = #[trigger] rows[i];
            &&& entries[k].rel_path@ == v.rel_path@
            &&& opt_text(entries[k].agent_profile) == opt_text(v.agent_profile)
            &&& opt_text(entries[k].content_hash) == opt_text(v.content_hash)
            &&& entries[k].captured_at == v.captured_at
            &&& opt_text(entries[k].scope) == opt_text(v.scope)
            &&& opt_text(entries[k].project) == opt_text(v.project)
            &&& entries[k].versions >= 1
            &&& f.profile matches Some(p) ==> opt_text(v.agent_profile) == Some(p@)
            &&& f.scope matches Some(p) ==> opt_text(v.scope) == Some(p@)
            &&& f.project matches Some(p) ==> opt_text(v.project) == Some(p@)
            &&& forall|q: int|
                0 <= q < rows.len() && (#[trigger] rows[q]).rel_path@ == v.rel_path@ && opt_text(
                    rows[q].agent_profile,
                ) == opt_text(v.agent_profile) && rows[q].captured_at is Some ==> v.captured_at
                    is Some && rows[q].captured_at->0 <= v.captured_at->0 && (rows[q].captured_at
                    == v.captured_at ==> rows[q].id <= v.id)
        },
{
    let at = latest_rows(rows, f, rows.len() as int);
    let (keys, order) = choose|keys: Seq<ListKey>, order: Seq<int>|
        keys_of(keys, rows, at) && #[trigger] sorts(keys, order) && entries.len() == order.len() && (
        forall|k: int|
            0 <= k < entries.len() ==> shows(
                #[trigger] entries[k],
                rows[at[order[k]]],
                version_count(rows, at[order[k]], rows.len() as int),
            ));
    assert(0 <= order[k] < at.len());
    let i = at[order[k]];
    assert(at.contains(i));
    lemma_latest_rows(rows, f, rows.len() as int, i);
    assert(shows(entries[k], rows[i], version_count(rows, i, rows.len() as int)));
    lemma_counts_itself(rows, i, rows.len() as int);
    let v = rows[i];
    assert forall|q: int|
        0 <= q < rows.len() && (#[trigger] rows[q]).rel_path@ == v.rel_path@ && opt_text(
            rows[q].agent_profile,
        ) == opt_text(v.agent_profile) && rows[q].captured_at is Some implies v.captured_at is Some
        && rows[q].captured_at->0 <= v.captured_at->0 && (rows[q].captured_at == v.captured_at
        ==> rows[q].id <= v.id) by {
        assert(same_file(rows[q], rows[i]));
        assert(!newer(rows[q], rows[i]));
    }
}

proof fn lemma_counts_itself(rows: Seq<MemoryVersion>, i: int, n: int)
    requires
        0 <= i < n <= rows.len(),
    ensures
        version_count(rows, i, n) >= 1,
    decreases n,
{
    if i < n - 1 {
        lemma_counts_itself(rows, i, n - 1);
    }
}

/// Every file that is asked for is listed, by its latest version.
pub proof fn every_memory_file_is_listed(
    entries: Seq<MemoryEntry>,
    rows: Seq<MemoryVersion>,
    f: MemoryFilter,
    i: int,
)
    requires
        lists(entries, rows, latest_rows(rows, f, rows.len() as int)),
        0 <= i < rows.len(),
        f.profile matches Some(p) ==> opt_text(rows[i].agent_profile) == Some(p@),
        f.scope matches Some(p) ==> opt_text(rows[i].scope) == Some(p@),
        f.project matches Some(p) ==> opt_text(rows[i].project) == Some(p@),
        forall|q: int|
            0 <= q < rows.len() && q != i && (#[trigger] rows[q]).rel_path@ == rows[i].rel_path@
                ==> rows[i].captured_at is Some && (rows[q].captured_at is Some
                ==> rows[q].captured_at->0 < rows[i].captured_at->0),
    ensures
        exists|k: int|
            0 <= k < entries.len() && (#[trigger] entries[k]).rel_path@ == rows[i].rel_path@
                && entries[k].captured_at == rows[i].captured_at && opt_text(
                entries[k].content_hash,
            ) == opt_text(rows[i].content_hash),
{
    let at = latest_rows(rows, f, rows.len() as int);
    assert(is_latest(rows, i)) by {
        assert forall|q: int|
            0 <= q < rows.len() && same_file(#[trigger] rows[q], rows[i]) implies !newer(
            rows[q],
            rows[i],
        ) by {}
    }
    lemma_latest_rows(rows, f, rows.len() as int, i);
    let (keys, order) = choose|keys: Seq<ListKey>, order: Seq<int>|
        keys_of(keys, rows, at) && #[trigger] sorts(keys, order) && entries.len() == order.len() && (
        forall|k: int|
            0 <= k < entries.len() ==> shows(
                #[trigger] entries[k],
                rows[at[order[k]]],
                version_count(rows, at[order[k]], rows.len() as int),
            ));
    let x = choose|x: int| 0 <= x < at.len() && at[x] == i;
    sorted_holds_every_position(keys, order, x);
    let k = choose|k: int| 0 <= k < order.len() && order[k] == x;
    assert(shows(entries[k], rows[i], version_count(rows, i, rows.len() as int)));
}

/// A listing of memory goes from the file captured last to the one captured first, files captured at
/// the same time by their path.
pub proof fn memory_is_listed_newest_first(
    entries: Seq<MemoryEntry>,
    rows: Seq<MemoryVersion>,
    at: Seq<int>,
    i: int,
    j: int,
)
    requires
        lists(entries, rows, at),
        0 <= i < j < entries.len(),
    ensures
        entries[j].captured_at matches Some(t) ==> (entries[i].captured_at matches Some(s) && s >= t),
        entries[i].captured_at == entries[j].captured_at ==> !text_before(
            entries[j].rel_path@,
            entries[i].rel_path@,
        ),
{
    let (keys, order) = choose|keys: Seq<ListKey>, order: Seq<int>|
        keys_of(keys, rows, at) && #[trigger] sorts(keys, order) && entries.len() == order.len() && (
        forall|k: int|
            0 <= k < entries.len() ==> shows(
                #[trigger] entries[k],
                rows[at[order[k]]],
                version_count(rows, at[order[k]], rows.len() as int),
            ));
    let a = keys[order[i]];
    let b = keys[order[j]];
    assert(0 <= order[i] < keys.len() && 0 <= order[j] < keys.len());
    assert(crate::order::follows(keys, order[i], order[j]));
    assert(shows(
        entries[i],
        rows[at[order[i]]],
        version_count(rows, at[order[i]], rows.len() as int),
    ));
    assert(shows(
        entries[j],
        rows[at[order[j]]],
        version_count(rows, at[order[j]], rows.len() as int),
    ));
    if a.before(&b) {
        ListKey::asymmetric(a, b);
    }
    assert(!b.before(&a));
}

/// The number of versions of a file counts those of the same profile and path, one by one.
pub proof fn versions_are_counted(rows: Seq<MemoryVersion>, i: int, n: int)
    requires
        0 <= n < rows.len(),
        rows[i].agent_profile is Some,
        rows[n].agent_profile is Some,
    ensures
        version_count(rows, i, n + 1) == version_count(rows, i, n) + if rows[n].rel_path@
            == rows[i].rel_path@ && rows[n].agent_profile->0@ == rows[i].agent_profile->0@ {
            1nat
        } else {
            0nat
        },
        version_count(rows, i, 0) == 0,
{
}

proof fn lemma_versions_at(
    rows: Seq<MemoryVersion>,
    profile: Option<Seq<char>>,
    rel: Seq<char>,
    n: int,
    x: int,
)
    requires
        0 <= n <= rows.len(),
    ensures
        versions_at(rows, profile, rel, n).contains(x) <==> 0 <= x < n && version_of(
            rows[x],
            profile,
            rel,
        ),
    decreases n,
{
    if n > 0 {
        lemma_versions_at(rows, profile, rel, n - 1, x);
        let a = versions_at(rows, profile, rel, n);
        let b = versions_at(rows, profile, rel, n - 1);
        if a.len() > b.len() {
            assert(a[a.len() - 1] == n - 1);
            assert(a.drop_last() =~= b);
        }
        if b.contains(x) {
            let k = choose|k: int| 0 <= k < b.len() && b[k] == x;
            assert(a[k] == x);
        }
        if a.contains(x) {
            let k = choose|k: int| 0 <= k < a.len() && a[k] == x;
            if k < b.len() {
                assert(b[k] == x);
            }
        }
    }
}

/// The versions of a file are all of its path, and of the profile where one is given, and no others;
/// the one captured last stands first, of those captured at the same time the one stored last.
pub proof fn versions_go_from_the_latest(
    r: Seq<int>,
    rows: Seq<MemoryVersion>,
    profile: Option<Seq<char>>,
    rel: Seq<char>,
    x: int,
    i: int,
    j: int,
)
    requires
        newest_first(r, rows, versions_at(rows, profile, rel, rows.len() as int)),
    ensures
        r.contains(x) <==> 0 <= x < rows.len() && rows[x].rel_path@ == rel && (profile is None
            || opt_text(rows[x].agent_profile) == profile),
        0 <= i < j < r.len() ==> (rows[r[j]].captured_at matches Some(t) ==> (
        rows[r[i]].captured_at matches Some(s) && s >= t)),
        0 <= i < j < r.len() && rows[r[i]].captured_at == rows[r[j]].captured_at ==> rows[r[i]].id
            >= rows[r[j]].id,
{
    let at = versions_at(rows, profile, rel, rows.len() as int);
    let order = choose|order: Seq<int>| #[trigger]
        sorts(version_keys(rows, at), order) && r == Seq::new(
            order.len(),
            |k: int| at[order[k]],
        );
    lemma_versions_at(rows, profile, rel, rows.len() as int, x);
    if at.contains(x) {
        let k = choose|k: int| 0 <= k < at.len() && at[k] == x;
        sorted_holds_every_position(version_keys(rows, at), order, k);
        let q = choose|q: int| 0 <= q < order.len() && order[q] == k;
        assert(r[q] == x);
    }
    if r.contains(x) {
        let q = choose|q: int| 0 <= q < r.len() && r[q] == x;
        assert(0 <= order[q] < at.len());
        assert(at[order[q]] == x);
    }
    if 0 <= i < j < r.len() {
        let keys = version_keys(rows, at);
        assert(0 <= order[i] < keys.len() && 0 <= order[j] < keys.len());
        assert(crate::order::follows(keys, order[i], order[j]));
        let a = keys[order[i]];
        let b = keys[order[j]];
        if a.before(&b) {
            VersionKey::asymmetric(a, b);
        }
        assert(!b.before(&a));
    }
}

/// The memory of an instance is the user's own and that of the project in its directory.
pub proof fn instance_has_its_projects_memory(
    v: MemoryVersion,
    dir: Seq<char>,
    rest: Seq<char>,
)
    requires
        !dir.contains('%'),
    ensures
        opt_text(v.scope) == Some("user"@) ==> belongs(v, dir),
        v.rel_path@ == "projects/"@ + dir + "/"@ + rest ==> belongs(v, dir),
        opt_text(v.scope) != Some("user"@) && !dir.contains('_') && !lowered(
            "projects/"@ + dir + "/"@,
        ).is_prefix_of(lowered(v.rel_path@)) ==> !belongs(v, dir),
{
    reveal_strlit("projects/");
    reveal_strlit("/%");
    reveal_strlit("/");
    let q = "projects/"@ + dir + "/"@;
    assert("projects/"@ + dir + "/%"@ =~= q + seq!['%']);
    assert(!q.contains('%')) by {
        if q.contains('%') {
            let k = choose|k: int| 0 <= k < q.len() && q[k] == '%';
            if 9 <= k < 9 + dir.len() {
                assert(dir.contains(dir[k - 9]));
            }
        }
    }
    pattern_finds_what_begins_with_it(q, rest);
    if !dir.contains('_') {
        assert(!q.contains('_')) by {
            if q.contains('_') {
                let k = choose|k: int| 0 <= k < q.len() && q[k] == '_';
                if 9 <= k < 9 + dir.len() {
                    assert(dir.contains(dir[k - 9]));
                }
            }
        }
        plain_pattern_finds_nothing_else(q, v.rel_path@);
    }
}

/// An instance is shown the latest versions of its profile that belong to it and are looked for, all
/// of them and no others.
pub proof fn instance_is_shown_its_latest_memory(
    rows: Seq<MemoryVersion>,
    profile: Seq<char>,
    dir: Seq<char>,
    pattern: Option<Seq<char>>,
    n: int,
    x: int,
)
    requires
        0 <= n <= rows.len(),
    ensures
        instance_rows(rows, profile, dir, pattern, n).contains(x) <==> 0 <= x < n && is_latest(
            rows,
            x,
        ) && (rows[x].agent_profile matches Some(p) && p@ == profile) && belongs(rows[x], dir)
            && found(rows[x], pattern),
    decreases n,
{
    if n > 0 {
        instance_is_shown_its_latest_memory(rows, profile, dir, pattern, n - 1, x);
        let a = instance_rows(rows, profile, dir, pattern, n);
        let b = instance_rows(rows, profile, dir, pattern, n - 1);
        if a.len() > b.len() {
            assert(a[a.len() - 1] == n - 1);
            assert(a.drop_last() =~= b);
        }
        if b.contains(x) {
            let k = choose|k: int| 0 <= k < b.len() && b[k] == x;
            assert(a[k] == x);
        }
        if a.contains(x) {
            let k = choose|k: int| 0 <= k < a.len() && a[k] == x;
            if k < b.len() {
                assert(b[k] == x);
            }
        }
    }
}

/// Without a query, or with a blank one, everything is found.
pub proof fn blank_query_finds_everything(v: MemoryVersion, q: Seq<char>)
    requires
        forall|k: int| 0 <= k < q.len() ==> crate::text::white(#[trigger] q[k]),
    ensures
        found(v, query_pattern(Some(q))),
        found(v, query_pattern(None)),
{
    crate::text::lemma_blank(q);
}

} // verus!
