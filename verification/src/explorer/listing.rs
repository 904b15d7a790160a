//! The entries of a directory, in the order they are shown.

use crate::explorer::types::FileNode;
use crate::number::{parse_u64, unsigned};
use crate::order::{
    is_text_before, lemma_text_asymmetric, lemma_text_irreflexive, lemma_text_weak, positions,
    sort_keys, sorted_holds_every_position, sorts, text_before, Key,
};
use crate::split::{cut, lemma_index_is, lines, lines_of, split_once};
use crate::text::{
    chars_of, copy, lemma_trail_is, lowered, only, same, strip_back, texts, to_lower, trim_end_char,
};
use vstd::prelude::*;

verus! {

/// An entry as text.
pub struct NodeView {
    pub name: Seq<char>,
    pub path: Seq<char>,
    pub is_dir: bool,
    pub size: Option<u64>,
    pub hidden: bool,
}

impl FileNode {
    pub open spec fn view(&self) -> NodeView {
        NodeView {
            name: self.name@,
            path: self.path@,
            is_dir: self.is_dir,
            size: self.size,
            hidden: self.hidden,
        }
    }

    /// The same entry once more.
    fn copied(&self) -> (r: FileNode)
        ensures
            r@ == self@,
    {
        FileNode {
            name: copy(self.name.as_str()),
            path: copy(self.path.as_str()),
            is_dir: self.is_dir,
            size: self.size,
            hidden: self.hidden,
        }
    }
}

/// The entries as text.
pub open spec fn node_views(v: Seq<FileNode>) -> Seq<NodeView> {
    Seq::new(v.len(), |i: int| v[i]@)
}

/// The path of an entry of the directory `dir`.
pub open spec fn entry_path(dir: Seq<char>, name: Seq<char>) -> Seq<char> {
    if dir.len() == 0 {
        name
    } else {
        strip_back(dir, only('/')) + "/"@ + name
    }
}

/// An entry of the directory `dir`.
pub open spec fn node_of(dir: Seq<char>, name: Seq<char>, is_dir: bool, size: Option<u64>) -> NodeView {
    NodeView {
        name,
        path: entry_path(dir, name),
        is_dir,
        size,
        hidden: name.len() > 0 && name[0] == '.',
    }
}

fn make_node(dir: &str, name: &str, is_dir: bool, size: Option<u64>) -> (r: FileNode)
    ensures
        r@ == node_of(dir@, name@, is_dir, size),
{
    let path: String = if dir.is_empty() {
        copy(name)
    } else {
        let mut p: String = trim_end_char(dir, '/');
        p.append("/");
        p.append(name);
        p
    };
    let cs: Vec<char> = chars_of(name);
    let hidden: bool = cs.len() > 0 && cs[0] == '.';
    FileNode { name: copy(name), path, is_dir, size, hidden }
}

// ---------------------------------------------------------------- order

/// Directories come first, then the rest, each by name without regard to case.
pub struct NodeKey {
    pub is_dir: bool,
    pub name: String,
}

/// The order of directories and names.
pub open spec fn node_before(a_dir: bool, a: Seq<char>, b_dir: bool, b: Seq<char>) -> bool {
    if a_dir != b_dir {
        a_dir
    } else {
        text_before(a, b)
    }
}

impl Key for NodeKey {
    open spec fn before(&self, other: &Self) -> bool {
        node_before(self.is_dir, self.name@, other.is_dir, other.name@)
    }

    proof fn irreflexive(a: Self) {
        lemma_text_irreflexive(a.name@);
    }

    proof fn weak(a: Self, b: Self, c: Self) {
        if a.is_dir == b.is_dir && b.is_dir == c.is_dir {
            lemma_text_weak(a.name@, b.name@, c.name@);
        }
    }

    proof fn asymmetric(a: Self, b: Self) {
        if a.is_dir == b.is_dir {
            lemma_text_asymmetric(a.name@, b.name@);
        }
    }

    fn is_before(&self, other: &Self) -> (r: bool) {
        if self.is_dir != other.is_dir {
            self.is_dir
        } else {
            is_text_before(self.name.as_str(), other.name.as_str())
        }
    }
}

/// Whether these are the keys of entries.
pub open spec fn node_keys(keys: Seq<NodeKey>, nodes: Seq<NodeView>) -> bool {
    keys.len() == nodes.len() && forall|i: int|
        0 <= i < keys.len() ==> (#[trigger] keys[i]).is_dir == nodes[i].is_dir && keys[i].name@
            == lowered(nodes[i].name)
}

/// Whether `out` are the entries in the order they are shown: directories first, then by name
/// without regard to case, equals in the order they had.
pub open spec fn shown_order(out: Seq<NodeView>, nodes: Seq<NodeView>) -> bool {
    exists|keys: Seq<NodeKey>, order: Seq<int>|
        node_keys(keys, nodes) && #[trigger] sorts(keys, order) && out == Seq::new(
            order.len(),
            |k: int| nodes[order[k]],
        )
}

/// The entries in the order they are shown.
pub fn sort_nodes(nodes: &Vec<FileNode>) -> (r: Vec<FileNode>)
    ensures
        shown_order(node_views(r@), node_views(nodes@)),
{
    let ghost all = node_views(nodes@);
    let mut keys: Vec<NodeKey> = Vec::new();
    let mut i: usize = 0;
    while i < nodes.len()
        invariant
            i <= nodes@.len(),
            all == node_views(nodes@),
            keys@.len() == i,
            forall|k: int|
                0 <= k < i ==> (#[trigger] keys@[k]).is_dir == all[k].is_dir && keys@[k].name@
                    == lowered(all[k].name),
        decreases nodes@.len() - i,
    {
        keys.push(NodeKey { is_dir: nodes[i].is_dir, name: to_lower(nodes[i].name.as_str()) });
        i += 1;
    }
    assert(node_keys(keys@, all));
    let order: Vec<usize> = sort_keys(&keys);
    let ghost o = positions(order@);
    let mut out: Vec<FileNode> = Vec::new();
    let mut k: usize = 0;
    while k < order.len()
        invariant
            k <= order@.len(),
            o == positions(order@),
            all == node_views(nodes@),
            keys@.len() == nodes@.len(),
            sorts(keys@, o),
            out@.len() == k,
            forall|q: int| 0 <= q < k ==> (#[trigger] out@[q])@ == all[o[q]],
        decreases order@.len() - k,
    {
        assert(o[k as int] == order@[k as int]);
        out.push(nodes[order[k]].copied());
        k += 1;
    }
    assert(node_views(out@) =~= Seq::new(o.len(), |q: int| all[o[q]]));
    out
}

// ---------------------------------------------------------------- a directory here

/// What an entry of a directory here is.
#[allow(inconsistent_fields)]
#[derive(Clone, Copy, PartialEq, Eq, Debug, Structural)]
pub enum EntryKind {
    Dir,
    /// No directory; its size, if that can be told.
    File { size: Option<u64> },
    /// A link to a directory.
    LinkToDir,
    /// A link to a file of this size.
    LinkToFile { size: u64 },
    /// A link to something else.
    LinkToOther,
    /// It cannot be told, or a link leads nowhere.
    Unknown,
}

/// An entry of a directory here.
#[derive(Debug)]
pub struct DirEntry {
    pub name: String,
    pub kind: EntryKind,
}

/// The entry that is shown, unless it cannot be told what it is.
pub open spec fn entry_node(dir: Seq<char>, e: DirEntry) -> Option<NodeView> {
    match e.kind {
        EntryKind::Dir => Some(node_of(dir, e.name@, true, None)),
        EntryKind::File { size } => Some(node_of(dir, e.name@, false, size)),
        EntryKind::LinkToDir => Some(node_of(dir, e.name@, true, None)),
        EntryKind::LinkToFile { size } => Some(node_of(dir, e.name@, false, Some(size))),
        EntryKind::LinkToOther => Some(node_of(dir, e.name@, false, None)),
        EntryKind::Unknown => None,
    }
}

/// The entries that are shown.
pub open spec fn entry_nodes(dir: Seq<char>, v: Seq<DirEntry>) -> Seq<NodeView>
    decreases v.len(),
{
    if v.len() == 0 {
        seq![]
    } else {
        match entry_node(dir, v.last()) {
            Some(n) => entry_nodes(dir, v.drop_last()).push(n),
            None => entry_nodes(dir, v.drop_last()),
        }
    }
}

/// The entries of a directory here, in the order they are shown.
pub fn list_local(rel: &str, entries: &Vec<DirEntry>) -> (r: Vec<FileNode>)
    ensures
        shown_order(node_views(r@), entry_nodes(rel@, entries@)),
{
    let mut nodes: Vec<FileNode> = Vec::new();
    let mut i: usize = 0;
    assert(node_views(nodes@) =~= entry_nodes(rel@, entries@.take(0)));
    while i < entries.len()
        invariant
            i <= entries@.len(),
            node_views(nodes@) == entry_nodes(rel@, entries@.take(i as int)),
        decreases entries@.len() - i,
    {
        proof {
            assert(entries@.take(i + 1).drop_last() =~= entries@.take(i as int));
            assert(entries@.take(i + 1).last() == entries@[i as int]);
        }
        let name: &str = entries[i].name.as_str();
        let node: Option<FileNode> = match entries[i].kind {
            EntryKind::Dir => Some(make_node(rel, name, true, None)),
            EntryKind::File { size } => Some(make_node(rel, name, false, size)),
            EntryKind::LinkToDir => Some(make_node(rel, name, true, None)),
            EntryKind::LinkToFile { size } => Some(make_node(rel, name, false, Some(size))),
            EntryKind::LinkToOther => Some(make_node(rel, name, false, None)),
            EntryKind::Unknown => None,
        };
        if let Some(n) = node {
            let ghost before = nodes@;
            let ghost nv = n@;
            nodes.push(n);
            assert(node_views(nodes@) =~= node_views(before).push(nv));
        }
        i += 1;
    }
    assert(entries@.take(entries@.len() as int) =~= entries@);
    sort_nodes(&nodes)
}

// ---------------------------------------------------------------- a directory on a remote machine

/// The size that a text gives, where it gives one.
pub open spec fn size_of(s: Seq<char>) -> Option<u64> {
    match unsigned(s, u64::MAX as nat) {
        Some(n) => Some(n as u64),
        None => None,
    }
}

/// The entry that a line of `find` tells of: its type, its size and its name, with tabs between.
/// Links are shown as files; entries of other types are not.
pub open spec fn found_node(dir: Seq<char>, row: Seq<char>) -> Option<NodeView> {
    match cut(row, '\t') {
        None => None,
        Some((ty, rest)) => match cut(rest, '\t') {
            None => None,
            Some((size, name)) => if name.len() == 0 {
                None
            } else if ty == "d"@ {
                Some(node_of(dir, name, true, None))
            } else if ty == "f"@ || ty == "l"@ {
                Some(node_of(dir, name, false, size_of(size)))
            } else {
                None
            },
        },
    }
}

/// The entries that lines of `find` tell of.
pub open spec fn found_nodes(dir: Seq<char>, rows: Seq<Seq<char>>) -> Seq<NodeView>
    decreases rows.len(),
{
    if rows.len() == 0 {
        seq![]
    } else {
        match found_node(dir, rows.last()) {
            Some(n) => found_nodes(dir, rows.drop_last()).push(n),
            None => found_nodes(dir, rows.drop_last()),
        }
    }
}

/// An entry as text, if there is one.
pub open spec fn opt_node(n: Option<FileNode>) -> Option<NodeView> {
    match n {
        Some(x) => Some(x@),
        None => None,
    }
}

fn read_found(dir: &str, row: &str) -> (r: Option<FileNode>)
    ensures
        opt_node(r) == found_node(dir@, row@),
{
    let (ty, rest): (String, String) = match split_once(row, '\t') {
        Some(p) => p,
        None => {
            return None;
        },
    };
    let (size, name): (String, String) = match split_once(rest.as_str(), '\t') {
        Some(p) => p,
        None => {
            return None;
        },
    };
    if name.as_str().is_empty() {
        return None;
    }
    if same(ty.as_str(), "d") {
        Some(make_node(dir, name.as_str(), true, None))
    } else if same(ty.as_str(), "f") || same(ty.as_str(), "l") {
        Some(make_node(dir, name.as_str(), false, parse_u64(size.as_str())))
    } else {
        None
    }
}

/// The entries of a directory on a remote machine, in the order they are shown.
pub fn parse_find_output(text: &str, base_rel: &str) -> (r: Vec<FileNode>)
    ensures
        shown_order(node_views(r@), found_nodes(base_rel@, lines_of(text@))),
{
    let rows: Vec<String> = lines(text);
    let ghost all = texts(rows@);
    let mut nodes: Vec<FileNode> = Vec::new();
    let mut i: usize = 0;
    assert(node_views(nodes@) =~= found_nodes(base_rel@, all.take(0)));
    while i < rows.len()
        invariant
            i <= rows@.len(),
            all == texts(rows@),
            node_views(nodes@) == found_nodes(base_rel@, all.take(i as int)),
        decreases rows@.len() - i,
    {
        proof {
            assert(all.take(i + 1).drop_last() =~= all.take(i as int));
            assert(all.take(i + 1).last() == rows@[i as int]@);
        }
        if let Some(n) = read_found(base_rel, rows[i].as_str()) {
            let ghost before = nodes@;
            let ghost nv = n@;
            nodes.push(n);
            assert(node_views(nodes@) =~= node_views(before).push(nv));
        }
        i += 1;
    }
    assert(all.take(rows@.len() as int) =~= all);
    sort_nodes(&nodes)
}

/// Directories are shown before everything else.
pub proof fn directories_come_first(out: Seq<NodeView>, nodes: Seq<NodeView>, i: int, j: int)
    requires
        shown_order(out, nodes),
        0 <= i < j < out.len(),
    ensures
        out[j].is_dir ==> out[i].is_dir,
        out[i].is_dir == out[j].is_dir ==> !text_before(lowered(out[j].name), lowered(out[i].name)),
{
    let (keys, order) = choose|keys: Seq<NodeKey>, order: Seq<int>|
        node_keys(keys, nodes) && #[trigger] sorts(keys, order) && out == Seq::new(
            order.len(),
            |k: int| nodes[order[k]],
        );
    assert(0 <= order[i] < keys.len() && 0 <= order[j] < keys.len());
    assert(crate::order::follows(keys, order[i], order[j]));
    let a = keys[order[i]];
    let b = keys[order[j]];
    if a.before(&b) {
        NodeKey::asymmetric(a, b);
    }
    assert(!b.before(&a));
}

// ---------------------------------------------------------------- what a listing promises

/// Sorting loses and invents no entry.
pub proof fn sorting_keeps_the_entries(out: Seq<NodeView>, nodes: Seq<NodeView>, n: NodeView)
    requires
        shown_order(out, nodes),
    ensures
        out.len() == nodes.len(),
        out.contains(n) <==> nodes.contains(n),
{
    let (keys, order) = choose|keys: Seq<NodeKey>, order: Seq<int>|
        node_keys(keys, nodes) && #[trigger] sorts(keys, order) && out == Seq::new(
            order.len(),
            |k: int| nodes[order[k]],
        );
    if out.contains(n) {
        let i = choose|i: int| 0 <= i < out.len() && out[i] == n;
        assert(0 <= order[i] < nodes.len());
        assert(nodes[order[i]] == n);
    }
    if nodes.contains(n) {
        let x = choose|x: int| 0 <= x < nodes.len() && nodes[x] == n;
        sorted_holds_every_position(keys, order, x);
        let i = choose|i: int| 0 <= i < order.len() && order[i] == x;
        assert(out[i] == n);
    }
}

/// An entry is what the line says and stands below the directory listed: its path is the directory,
/// slashes at its end left aside, a slash and the name, or the name alone at the root. A listing on
/// this machine shows the same entry for a directory or a file of that name.
pub proof fn remote_entry_is_the_local_one(
    x: Seq<char>,
    slashes: Seq<char>,
    ty: Seq<char>,
    size: Seq<char>,
    name: Seq<char>,
    e: DirEntry,
)
    requires
        forall|k: int| 0 <= k < slashes.len() ==> #[trigger] slashes[k] == '/',
        x.len() > 0 ==> x.last() != '/',
        !ty.contains('\t'),
        !size.contains('\t'),
        name.len() > 0,
        e.name@ == name,
    ensures
        ({
            let dir = x + slashes;
            match found_node(dir, ty + "\t"@ + size + "\t"@ + name) {
                Some(n) => {
                    &&& ty == "d"@ || ty == "f"@ || ty == "l"@
                    &&& n.name == name
                    &&& dir.len() == 0 ==> n.path == name
                    &&& dir.len() > 0 ==> n.path == x + "/"@ + name
                    &&& n.is_dir <==> ty == "d"@
                    &&& n.is_dir ==> n.size is None
                    &&& !n.is_dir ==> n.size == match unsigned(size, u64::MAX as nat) {
                        Some(k) => Some(k as u64),
                        None => None,
                    }
                    &&& n.hidden <==> name[0] == '.'
                    &&& ty == "d"@ && e.kind == EntryKind::Dir ==> entry_node(dir, e) == Some(n)
                    &&& ty == "f"@ ==> (e.kind matches EntryKind::File { size: s } ==> s == n.size
                        ==> entry_node(dir, e) == Some(n))
                },
                None => !(ty == "d"@ || ty == "f"@ || ty == "l"@),
            }
        }),
{
    reveal_strlit("\t");
    reveal_strlit("d");
    reveal_strlit("f");
    reveal_strlit("l");
    assert("d"@[0] == 'd' && "f"@[0] == 'f' && "l"@[0] == 'l');
    let row = ty + "\t"@ + size + "\t"@ + name;
    assert forall|k: int| 0 <= k < ty.len() implies #[trigger] row[k] != '\t' by {
        assert(row[k] == ty[k]);
        assert(ty.contains(ty[k]));
    }
    lemma_index_is(row, '\t', ty.len() as int);
    let rest = size + "\t"@ + name;
    assert(row.take(ty.len() as int) =~= ty);
    assert(row.skip(ty.len() as int + 1) =~= rest);
    assert forall|k: int| 0 <= k < size.len() implies #[trigger] rest[k] != '\t' by {
        assert(rest[k] == size[k]);
        assert(size.contains(size[k]));
    }
    lemma_index_is(rest, '\t', size.len() as int);
    assert(rest.take(size.len() as int) =~= size);
    assert(rest.skip(size.len() as int + 1) =~= name);
    lemma_entry_path(x, slashes, name);
}

proof fn lemma_entry_path(x: Seq<char>, slashes: Seq<char>, name: Seq<char>)
    requires
        forall|k: int| 0 <= k < slashes.len() ==> #[trigger] slashes[k] == '/',
        x.len() > 0 ==> x.last() != '/',
    ensures
        (x + slashes).len() == 0 ==> entry_path(x + slashes, name) == name,
        (x + slashes).len() > 0 ==> entry_path(x + slashes, name) == x + "/"@ + name,
{
    let dir = x + slashes;
    if x.len() > 0 {
        assert(dir[dir.len() - slashes.len() - 1] == x.last());
    }
    lemma_trail_is(dir, only('/'), slashes.len());
    assert(strip_back(dir, only('/')) =~= x);
}

/// Every entry shown of a directory on a remote machine stands below it.
pub proof fn remote_entries_stand_below(
    out: Seq<NodeView>,
    x: Seq<char>,
    slashes: Seq<char>,
    rows: Seq<Seq<char>>,
    i: int,
)
    requires
        shown_order(out, found_nodes(x + slashes, rows)),
        forall|k: int| 0 <= k < slashes.len() ==> #[trigger] slashes[k] == '/',
        x.len() > 0 ==> x.last() != '/',
        0 <= i < out.len(),
    ensures
        (x + slashes).len() == 0 ==> out[i].path == out[i].name,
        (x + slashes).len() > 0 ==> out[i].path == x + "/"@ + out[i].name,
        out[i].name.len() > 0,
        out[i].hidden <==> out[i].name[0] == '.',
{
    let nodes = found_nodes(x + slashes, rows);
    sorting_keeps_the_entries(out, nodes, out[i]);
    assert(nodes.contains(out[i]));
    lemma_found_from(x + slashes, rows, out[i]);
    let k = choose|k: int|
        0 <= k < rows.len() && found_node(x + slashes, #[trigger] rows[k]) == Some(out[i]);
    lemma_entry_path(x, slashes, out[i].name);
}

proof fn lemma_found_from(dir: Seq<char>, rows: Seq<Seq<char>>, n: NodeView)
    ensures
        found_nodes(dir, rows).contains(n) <==> exists|k: int|
            0 <= k < rows.len() && found_node(dir, #[trigger] rows[k]) == Some(n),
    decreases rows.len(),
{
    if rows.len() > 0 {
        let d = rows.drop_last();
        lemma_found_from(dir, d, n);
        let all = found_nodes(dir, rows);
        let front = found_nodes(dir, d);
        assert(rows[rows.len() - 1] == rows.last());
        if all.contains(n) {
            let i = choose|i: int| 0 <= i < all.len() && all[i] == n;
            if i < front.len() {
                assert(front[i] == n);
                let k = choose|k: int|
                    0 <= k < d.len() && found_node(dir, #[trigger] d[k]) == Some(n);
                assert(rows[k] == d[k]);
            } else {
                assert(found_node(dir, rows[rows.len() - 1]) == Some(n));
            }
        }
        if exists|k: int| 0 <= k < rows.len() && found_node(dir, #[trigger] rows[k]) == Some(n) {
            let k = choose|k: int|
                0 <= k < rows.len() && found_node(dir, #[trigger] rows[k]) == Some(n);
            if k < d.len() {
                assert(d[k] == rows[k]);
                let i = choose|i: int| 0 <= i < front.len() && front[i] == n;
                assert(all[i] == n);
            } else {
                assert(all[all.len() - 1] == n);
            }
        }
    } else {
        assert(found_nodes(dir, rows).len() == 0);
    }
}

/// Every line of `find` that names an entry is shown, and nothing else is.
pub proof fn remote_listing_is_complete(
    out: Seq<NodeView>,
    dir: Seq<char>,
    rows: Seq<Seq<char>>,
    n: NodeView,
)
    requires
        shown_order(out, found_nodes(dir, rows)),
    ensures
        out.contains(n) <==> exists|k: int|
            0 <= k < rows.len() && found_node(dir, #[trigger] rows[k]) == Some(n),
{
    sorting_keeps_the_entries(out, found_nodes(dir, rows), n);
    lemma_found_from(dir, rows, n);
}

proof fn lemma_entries_from(dir: Seq<char>, v: Seq<DirEntry>, n: NodeView)
    ensures
        entry_nodes(dir, v).contains(n) <==> exists|k: int|
            0 <= k < v.len() && entry_node(dir, #[trigger] v[k]) == Some(n),
    decreases v.len(),
{
    if v.len() > 0 {
        let d = v.drop_last();
        lemma_entries_from(dir, d, n);
        let all = entry_nodes(dir, v);
        let front = entry_nodes(dir, d);
        assert(v[v.len() - 1] == v.last());
        if all.contains(n) {
            let i = choose|i: int| 0 <= i < all.len() && all[i] == n;
            if i < front.len() {
                assert(front[i] == n);
                let k = choose|k: int|
                    0 <= k < d.len() && entry_node(dir, #[trigger] d[k]) == Some(n);
                assert(v[k] == d[k]);
            } else {
                assert(entry_node(dir, v[v.len() - 1]) == Some(n));
            }
        }
        if exists|k: int| 0 <= k < v.len() && entry_node(dir, #[trigger] v[k]) == Some(n) {
            let k = choose|k: int| 0 <= k < v.len() && entry_node(dir, #[trigger] v[k]) == Some(n);
            if k < d.len() {
                assert(d[k] == v[k]);
                let i = choose|i: int| 0 <= i < front.len() && front[i] == n;
                assert(all[i] == n);
            } else {
                assert(all[all.len() - 1] == n);
            }
        }
    } else {
        assert(entry_nodes(dir, v).len() == 0);
    }
}

/// On this machine every entry is shown but those of which nothing can be told: below the directory
/// listed, a directory or a link to one as a directory, a file or a link to one with its size.
pub proof fn local_listing_is_complete(
    out: Seq<NodeView>,
    x: Seq<char>,
    slashes: Seq<char>,
    v: Seq<DirEntry>,
    k: int,
)
    requires
        shown_order(out, entry_nodes(x + slashes, v)),
        forall|k: int| 0 <= k < slashes.len() ==> #[trigger] slashes[k] == '/',
        x.len() > 0 ==> x.last() != '/',
        0 <= k < v.len(),
        v[k].kind != EntryKind::Unknown,
    ensures
        exists|i: int| 0 <= i < out.len() && {
            let n = #[trigger] out[i];
            &&& n.name == v[k].name@
            &&& (x + slashes).len() == 0 ==> n.path == n.name
            &&& (x + slashes).len() > 0 ==> n.path == x + "/"@ + n.name
            &&& n.is_dir <==> v[k].kind == EntryKind::Dir || v[k].kind == EntryKind::LinkToDir
            &&& n.is_dir ==> n.size is None
            &&& v[k].kind matches EntryKind::File { size } ==> n.size == size
            &&& v[k].kind matches EntryKind::LinkToFile { size } ==> n.size == Some(size)
            &&& n.hidden <==> n.name.len() > 0 && n.name[0] == '.'
        },
{
    let dir = x + slashes;
    let n = entry_node(dir, v[k])->0;
    assert(entry_node(dir, v[k]) == Some(n));
    lemma_entries_from(dir, v, n);
    sorting_keeps_the_entries(out, entry_nodes(dir, v), n);
    lemma_entry_path(x, slashes, n.name);
    let i = choose|i: int| 0 <= i < out.len() && out[i] == n;
    assert(out[i] == n);
}

} // verus!
