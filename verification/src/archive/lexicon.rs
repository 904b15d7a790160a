//! The dictionary by which a text is taken apart into words.

use std::sync::Arc;

use lindera::dictionary::{Dictionary, Metadata};
use lindera::mode::Mode;
use lindera::segmenter::Segmenter;
use lindera_dictionary::dictionary::character_definition::{
    CategoryData, CategoryId, CharacterDefinition, LookupTable,
};
use lindera_dictionary::dictionary::connection_cost_matrix::ConnectionCostMatrix;
use lindera_dictionary::dictionary::prefix_dictionary::PrefixDictionary;
use lindera_dictionary::dictionary::unknown_dictionary::UnknownDictionary;
use lindera_dictionary::viterbi::{LexType, WordEntry, WordId};
use vstd::prelude::*;

verus! {

/// A word of a text, with the bytes that it spans.
pub struct Token {
    pub surface: String,
    pub byte_start: usize,
    pub byte_end: usize,
}

/// A word as text, with the bytes that it spans.
pub type TokenView = (Seq<char>, usize, usize);

/// The words as text, with the bytes that they span.
pub open spec fn token_views(v: Seq<Token>) -> Seq<TokenView> {
    Seq::new(v.len(), |i: int| (v[i].surface@, v[i].byte_start, v[i].byte_end))
}

// ---------------------------------------------------------------- what a dictionary holds

/// A kind of characters, and how words that no record names are made of them.
pub struct Category {
    pub name: String,
    /// Such words are looked for beside those that have a record.
    pub invoke: bool,
    /// Characters of the kind that follow each other make one word.
    pub group: bool,
    /// Up to how many characters make shorter words too.
    pub length: u32,
}

/// Characters of the same kinds: from this one up to where the next stretch begins.
pub struct Stretch {
    pub from: u32,
    pub categories: Vec<usize>,
}

/// What a word costs that no record names, and how it joins its neighbours.
pub struct UnknownWord {
    pub id: u32,
    pub cost: i16,
    pub left: u16,
    pub right: u16,
}

/// The parts of a dictionary.
pub struct Lexicon {
    /// The trie of the words.
    pub trie: Vec<u8>,
    /// Which records each word of the trie has.
    pub index: Vec<u8>,
    /// The records, ten bytes each.
    pub records: Vec<u8>,
    /// What it costs that two words follow each other, behind the two sizes of the table.
    pub costs: Vec<u8>,
    pub categories: Vec<Category>,
    /// The kinds of every character.
    pub stretches: Vec<Stretch>,
    pub unknown: Vec<UnknownWord>,
    /// Which of the unknown words each kind of characters makes.
    pub made_by: Vec<Vec<u32>>,
}

/// The kinds as plain values.
pub open spec fn kinds(v: Seq<Category>) -> Seq<(Seq<char>, bool, bool, u32)> {
    Seq::new(v.len(), |i: int| (v[i].name@, v[i].invoke, v[i].group, v[i].length))
}

/// The stretches as plain values.
pub open spec fn ranges(v: Seq<Stretch>) -> Seq<(u32, Seq<usize>)> {
    Seq::new(v.len(), |i: int| (v[i].from, v[i].categories@))
}

/// The unknown words as plain values.
pub open spec fn guesses(v: Seq<UnknownWord>) -> Seq<(u32, i16, u16, u16)> {
    Seq::new(v.len(), |i: int| (v[i].id, v[i].cost, v[i].left, v[i].right))
}

/// Lists of numbers as plain values.
pub open spec fn lists(v: Seq<Vec<u32>>) -> Seq<Seq<u32>> {
    Seq::new(v.len(), |i: int| v[i]@)
}

// ---------------------------------------------------------------- parts that fit each other

/// The number in two bytes, the lower one first.
pub open spec fn pair(b: Seq<u8>, i: int) -> int {
    b[i] + 256 * b[i + 1]
}

/// The number in four bytes, the lowest first.
pub open spec fn quad(b: Seq<u8>, i: int) -> int {
    pair(b, i) + 65536 * pair(b, i + 2)
}

/// The sizes that stand before a table of costs, where it has all its costs: how many right sides
/// of words there are, and how many left sides.
pub open spec fn sizes(costs: Seq<u8>) -> Option<(int, int)> {
    if costs.len() >= 6 && costs[0] == 255 && costs[1] == 255 && 0 < pair(costs, 2) < 32768 && 0
        < pair(costs, 4) < 32768 && 6 + 2 * (pair(costs, 2) * pair(costs, 4)) <= costs.len() {
        Some((pair(costs, 2), pair(costs, 4)))
    } else {
        None
    }
}

/// Whether the sides of a word are in the table, and its cost can be added up over a text.
pub open spec fn joins(cost: int, left: int, right: int, size: (int, int)) -> bool {
    left < size.1 && right < size.0 && cost > i16::MIN
}

/// The cost in two bytes.
pub open spec fn signed(n: int) -> int {
    if n < 32768 {
        n
    } else {
        n - 65536
    }
}

/// Whether a record fits the table.
pub open spec fn record_joins(records: Seq<u8>, i: int, size: (int, int)) -> bool {
    joins(
        signed(pair(records, 10 * i + 4)),
        pair(records, 10 * i + 6),
        pair(records, 10 * i + 8),
        size,
    )
}

/// Whether all records fit the table.
pub open spec fn records_join(records: Seq<u8>, size: (int, int)) -> bool {
    forall|i: int| 0 <= i < records.len() / 10 ==> #[trigger] record_joins(records, i, size)
}

/// Whether all unknown words fit the table.
pub open spec fn unknown_join(v: Seq<UnknownWord>, size: (int, int)) -> bool {
    forall|i: int|
        0 <= i < v.len() ==> joins(
            (#[trigger] v[i]).cost as int,
            v[i].left as int,
            v[i].right as int,
            size,
        )
}

/// Whether each number is below `n`.
pub open spec fn all_below(v: Seq<usize>, n: int) -> bool {
    forall|i: int| 0 <= i < v.len() ==> #[trigger] v[i] < n
}

/// Whether each entry of each list is below `n`.
pub open spec fn entries_below(v: Seq<Vec<u32>>, n: int) -> bool {
    forall|i: int, j: int|
        0 <= i < v.len() && 0 <= j < v[i]@.len() ==> #[trigger] v[i]@[j] < n
}

/// Whether stretches begin at the first character, follow each other, and name at most 255 kinds
/// each, all below `n`.
pub open spec fn stretches_fit(v: Seq<Stretch>, n: int) -> bool {
    &&& v.len() > 0
    &&& v[0].from == 0
    &&& forall|i: int| 0 < i < v.len() ==> v[i - 1].from < (#[trigger] v[i]).from
    &&& forall|i: int|
        0 <= i < v.len() ==> (#[trigger] v[i]).categories@.len() <= 255 && all_below(
            v[i].categories@,
            n,
        )
}

/// Whether the parts of a dictionary fit each other: no part names what another has not, and an
/// offset into the trie does not run out of a machine's numbers.
pub open spec fn fits(l: Lexicon) -> bool {
    &&& usize::BITS == 64
    &&& sizes(l.costs@) is Some
    &&& records_join(l.records@, sizes(l.costs@)->0)
    &&& unknown_join(l.unknown@, sizes(l.costs@)->0)
    &&& entries_below(l.made_by@, l.unknown@.len() as int)
    &&& l.made_by@.len() >= l.categories@.len()
    &&& stretches_fit(l.stretches@, l.categories@.len() as int)
}

fn read_pair(b: &Vec<u8>, i: usize) -> (r: u16)
    requires
        i + 1 < b@.len(),
    ensures
        r == pair(b@, i as int),
{
    assert(i + 1 < b.len());
    b[i] as u16 + 256 * (b[i + 1] as u16)
}

fn read_sizes(costs: &Vec<u8>) -> (r: Option<(u16, u16)>)
    ensures
        match r {
            Some(s) => sizes(costs@) == Some((s.0 as int, s.1 as int)),
            None => sizes(costs@) is None,
        },
{
    if costs.len() < 6 || costs[0] != 255 || costs[1] != 255 {
        return None;
    }
    let right: u16 = read_pair(costs, 2);
    let left: u16 = read_pair(costs, 4);
    if right == 0 || right >= 32768 || left == 0 || left >= 32768 {
        return None;
    }
    proof {
        assert(right * left <= 32767 * 32767) by (nonlinear_arith)
            requires
                0 <= right <= 32767,
                0 <= left <= 32767,
        ;
        assert(0 <= right * left) by (nonlinear_arith)
            requires
                0 <= right,
                0 <= left,
        ;
    }
    if (costs.len() - 6) / 2 < right as usize * left as usize {
        return None;
    }
    Some((right, left))
}

fn word_joins(cost: i16, left: u16, right: u16, size: (u16, u16)) -> (r: bool)
    ensures
        r == joins(cost as int, left as int, right as int, (size.0 as int, size.1 as int)),
{
    left < size.1 && right < size.0 && cost > i16::MIN
}

fn check_records(records: &Vec<u8>, size: (u16, u16)) -> (r: bool)
    ensures
        r == records_join(records@, (size.0 as int, size.1 as int)),
{
    let ghost s = (size.0 as int, size.1 as int);
    let n: usize = records.len() / 10;
    let mut i: usize = 0;
    while i < n
        invariant
            i <= n,
            n == records@.len() / 10,
            s == (size.0 as int, size.1 as int),
            forall|k: int| 0 <= k < i ==> #[trigger] record_joins(records@, k, s),
        decreases n - i,
    {
        assert(10 * i + 10 <= records.len());
        let cost: u16 = read_pair(records, 10 * i + 4);
        let left: u16 = read_pair(records, 10 * i + 6);
        let right: u16 = read_pair(records, 10 * i + 8);
        // The lowest cost of all has only the highest bit set.
        if cost == 32768 || left >= size.1 || right >= size.0 {
            assert(!record_joins(records@, i as int, s));
            return false;
        }
        assert(record_joins(records@, i as int, s));
        i += 1;
    }
    true
}

fn check_unknown(v: &Vec<UnknownWord>, size: (u16, u16)) -> (r: bool)
    ensures
        r == unknown_join(v@, (size.0 as int, size.1 as int)),
{
    let mut i: usize = 0;
    while i < v.len()
        invariant
            i <= v@.len(),
            unknown_join(v@.take(i as int), (size.0 as int, size.1 as int)),
        decreases v@.len() - i,
    {
        let ghost w = v@[i as int];
        if !word_joins(v[i].cost, v[i].left, v[i].right, size) {
            return false;
        }
        assert(v@.take(i + 1) =~= v@.take(i as int).push(w));
        i += 1;
    }
    assert(v@.take(i as int) =~= v@);
    true
}

fn check_list(v: &Vec<u32>, n: usize) -> (r: bool)
    ensures
        r == forall|j: int| 0 <= j < v@.len() ==> #[trigger] v@[j] < n,
{
    let mut i: usize = 0;
    while i < v.len()
        invariant
            i <= v@.len(),
            forall|j: int| 0 <= j < i ==> #[trigger] v@[j] < n,
        decreases v@.len() - i,
    {
        if v[i] as u64 >= n as u64 {
            assert(v@[i as int] >= n);
            return false;
        }
        i += 1;
    }
    true
}

fn check_lists(v: &Vec<Vec<u32>>, n: usize) -> (r: bool)
    ensures
        r == entries_below(v@, n as int),
{
    let mut i: usize = 0;
    while i < v.len()
        invariant
            i <= v@.len(),
            forall|k: int, j: int|
                0 <= k < i && 0 <= j < v@[k]@.len() ==> #[trigger] v@[k]@[j] < n,
        decreases v@.len() - i,
    {
        if !check_list(&v[i], n) {
            return false;
        }
        i += 1;
    }
    true
}

fn check_below(v: &Vec<usize>, n: usize) -> (r: bool)
    ensures
        r == all_below(v@, n as int),
{
    let mut i: usize = 0;
    while i < v.len()
        invariant
            i <= v@.len(),
            forall|j: int| 0 <= j < i ==> #[trigger] v@[j] < n,
        decreases v@.len() - i,
    {
        if v[i] >= n {
            assert(v@[i as int] >= n);
            return false;
        }
        i += 1;
    }
    true
}

fn check_stretches(v: &Vec<Stretch>, n: usize) -> (r: bool)
    ensures
        r == stretches_fit(v@, n as int),
{
    if v.len() == 0 || v[0].from != 0 {
        return false;
    }
    let mut i: usize = 0;
    while i < v.len()
        invariant
            i <= v@.len(),
            v@.len() > 0,
            v@[0].from == 0,
            forall|k: int| 0 < k < i ==> v@[k - 1].from < (#[trigger] v@[k]).from,
            forall|k: int|
                0 <= k < i ==> (#[trigger] v@[k]).categories@.len() <= 255 && all_below(
                    v@[k].categories@,
                    n as int,
                ),
        decreases v@.len() - i,
    {
        if i > 0 && v[i - 1].from >= v[i].from {
            assert(v@[i - 1].from >= v@[i as int].from);
            return false;
        }
        if v[i].categories.len() > 255 || !check_below(&v[i].categories, n) {
            assert(!(v@[i as int].categories@.len() <= 255 && all_below(
                v@[i as int].categories@,
                n as int,
            )));
            return false;
        }
        i += 1;
    }
    true
}

fn check(l: &Lexicon) -> (r: bool)
    ensures
        r == fits(*l),
{
    if usize::BITS != 64 {
        return false;
    }
    match read_sizes(&l.costs) {
        None => false,
        Some(size) => check_records(&l.records, size) && check_unknown(&l.unknown, size)
            && check_lists(&l.made_by, l.unknown.len()) && l.made_by.len() >= l.categories.len()
            && check_stretches(&l.stretches, l.categories.len()),
    }
}

// ---------------------------------------------------------------- the segmenter

/// The words of a dictionary, of the `lindera-dictionary` crate.
#[verifier::external_type_specification]
#[verifier::external_body]
pub struct ExPrefixDictionary(PrefixDictionary);

/// The costs of a dictionary, of the `lindera-dictionary` crate.
#[verifier::external_type_specification]
#[verifier::external_body]
pub struct ExConnectionCostMatrix(ConnectionCostMatrix);

/// The kinds of characters of a dictionary, of the `lindera-dictionary` crate.
#[verifier::external_type_specification]
#[verifier::external_body]
pub struct ExCharacterDefinition(CharacterDefinition);

/// A segmenter of the `lindera` crate, with its dictionary.
#[verifier::external_type_specification]
#[verifier::external_body]
pub struct ExSegmenter(Segmenter);

/// What `PrefixDictionary::load` makes of a trie, an index and records.
pub uninterp spec fn words_of(trie: Seq<u8>, index: Seq<u8>, records: Seq<u8>) -> PrefixDictionary;

/// What `ConnectionCostMatrix::load` makes of a table of costs.
pub uninterp spec fn costs_of(costs: Seq<u8>) -> ConnectionCostMatrix;

/// What `CharacterDefinition::new` makes of kinds and of the table that `LookupTable::from_fn` makes
/// of stretches.
pub uninterp spec fn classes_of(
    kinds: Seq<(Seq<char>, bool, bool, u32)>,
    ranges: Seq<(u32, Seq<usize>)>,
) -> CharacterDefinition;

/// What `Segmenter::new` makes of the parts of a dictionary.
pub uninterp spec fn segmenter_of(
    words: PrefixDictionary,
    costs: ConnectionCostMatrix,
    classes: CharacterDefinition,
    guesses: Seq<(u32, i16, u16, u16)>,
    made_by: Seq<Seq<u32>>,
) -> Segmenter;

/// The words that `Segmenter::segment` takes a text apart into; nothing where it fails.
pub uninterp spec fn segmented(s: Segmenter, text: Seq<char>) -> Option<
    Seq<(Seq<char>, usize, usize)>,
>;

/// Whether the lengths that stand in a trie are those that it has, and an index has whole entries:
/// the trie holds a table of as many entries of four bytes as its first four bytes say, then two
/// numbers, the second of which says how many nodes of eight bytes follow.
pub open spec fn trie_loads(trie: Seq<u8>, index: Seq<u8>) -> bool {
    let nodes = 12 + 4 * quad(trie, 0);
    &&& trie.len() >= 4
    &&& nodes <= trie.len()
    &&& nodes + 8 * quad(trie, nodes - 4) == trie.len()
    &&& index.len() % 4 == 0
}

/// `PrefixDictionary::load`, without the details of the words: it succeeds where the lengths in the
/// trie and of the index are right.
#[verifier::external_body]
fn load_words(trie: Vec<u8>, index: Vec<u8>, records: Vec<u8>) -> (r: Option<PrefixDictionary>)
    ensures
        match r {
            Some(w) => trie_loads(trie@, index@) && w == words_of(trie@, index@, records@),
            None => !trie_loads(trie@, index@),
        },
{
    PrefixDictionary::load(trie, index, records, Vec::new(), Vec::new()).ok()
}

/// `ConnectionCostMatrix::load`, which succeeds where the table has all the costs that its sizes ask
/// for.
#[verifier::external_body]
fn load_costs(costs: Vec<u8>) -> (r: Option<ConnectionCostMatrix>)
    requires
        sizes(costs@) is Some,
    ensures
        r == Some(costs_of(costs@)),
{
    ConnectionCostMatrix::load(costs).ok()
}

/// The kinds of the characters from the one at which a stretch begins.
fn categories_from(v: &Vec<Stretch>, from: u32) -> (r: Vec<usize>)
    ensures
        forall|i: int|
            0 <= i < v@.len() && (#[trigger] v@[i]).from == from && (forall|k: int|
                0 <= k < i ==> (#[trigger] v@[k]).from != from) ==> r@ == v@[i].categories@,
        (forall|i: int| 0 <= i < v@.len() ==> (#[trigger] v@[i]).from != from) ==> r@.len() == 0,
{
    let mut i: usize = 0;
    while i < v.len()
        invariant
            i <= v@.len(),
            forall|k: int| 0 <= k < i ==> (#[trigger] v@[k]).from != from,
        decreases v@.len() - i,
    {
        if v[i].from == from {
            return v[i].categories.clone();
        }
        i += 1;
    }
    Vec::new()
}

/// `CharacterDefinition::new`, over the table that `LookupTable::from_fn` makes of the stretches by
/// asking for the kinds at the beginning of each.
#[verifier::external_body]
fn define_classes(kinds_of: &Vec<Category>, stretches: &Vec<Stretch>) -> (r: CharacterDefinition)
    requires
        stretches_fit(stretches@, kinds_of@.len() as int),
    ensures
        r == classes_of(kinds(kinds_of@), ranges(stretches@)),
{
    let data = kinds_of.iter().map(|k| CategoryData {
        invoke: k.invoke,
        group: k.group,
        length: k.length,
    });
    let names = kinds_of.iter().map(|k| k.name.clone());
    let table = LookupTable::from_fn(stretches.iter().map(|s| s.from).collect(), &|c, out| {
        out.extend(categories_from(stretches, c).into_iter().map(CategoryId))
    });
    CharacterDefinition::new(data.collect(), names.collect(), table)
}

/// Whether kinds of characters are made of stretches that fit them.
pub open spec fn defined(c: CharacterDefinition) -> bool {
    exists|k: Seq<Category>, s: Seq<Stretch>|
        stretches_fit(s, k.len() as int) && c == #[trigger] classes_of(kinds(k), ranges(s))
}

/// `Segmenter::new`, in its normal mode, over a dictionary of these parts with no details of words,
/// no rules of its own for spaces and no words of a user's. It asks for the kinds of some
/// characters, so every character has to have a stretch.
#[verifier::external_body]
fn new_segmenter(
    words: PrefixDictionary,
    costs: ConnectionCostMatrix,
    classes: CharacterDefinition,
    unknown: &Vec<UnknownWord>,
    made_by: &Vec<Vec<u32>>,
) -> (r: Segmenter)
    requires
        defined(classes),
    ensures
        r == segmenter_of(words, costs, classes, guesses(unknown@), lists(made_by@)),
{
    let entry = |w: &UnknownWord| WordEntry::new(
        WordId::new(LexType::Unknown, w.id), w.cost, w.left, w.right);
    Segmenter::new(Mode::Normal, Dictionary {
        prefix_dictionary: Arc::new(words),
        connection_cost_matrix: Arc::new(costs),
        character_definition: Arc::new(classes),
        unknown_dictionary: Arc::new(UnknownDictionary {
            category_references: made_by.clone(), costs: unknown.iter().map(entry).collect(),
            words_idx_data: Vec::new(), words_data: Vec::new(),
        }),
        metadata: Arc::new(Metadata::default()),
    }, None)
}

/// The segmenter that the parts of a dictionary make.
pub open spec fn made(l: Lexicon) -> Segmenter {
    segmenter_of(
        words_of(l.trie@, l.index@, l.records@),
        costs_of(l.costs@),
        classes_of(kinds(l.categories@), ranges(l.stretches@)),
        guesses(l.unknown@),
        lists(l.made_by@),
    )
}

/// Whether a segmenter is made of parts that fit each other, with a trie that can be read.
pub open spec fn sound(s: Segmenter) -> bool {
    exists|l: Lexicon| fits(l) && trie_loads(l.trie@, l.index@) && s == #[trigger] made(l)
}

/// `Segmenter::segment`: the words depend on the segmenter and the text alone. It looks up what the
/// parts of the dictionary say of each other without asking whether it is there, so the parts have
/// to fit. Left unsaid is on which texts it fails, and that the bytes a word spans are the word's,
/// which is so only of a dictionary that has a word for every character.
#[verifier::external_body]
fn segment_text(s: &Segmenter, text: &str) -> (r: Option<Vec<Token>>)
    requires
        sound(*s),
    ensures
        match r {
            Some(v) => segmented(*s, text@) == Some(token_views(v@)),
            None => segmented(*s, text@) is None,
        },
{
    let found = s.segment(std::borrow::Cow::Borrowed(text)).ok()?;
    let tokens = found.into_iter().map(|t| Token {
        surface: t.surface.into_owned(),
        byte_start: t.byte_start,
        byte_end: t.byte_end,
    });
    Some(tokens.collect())
}

/// A segmenter whose dictionary has parts that fit each other.
pub struct Words {
    segmenter: Segmenter,
}

impl Words {
    #[verifier::type_invariant]
    spec fn inv(self) -> bool {
        sound(self.segmenter)
    }

    /// The segmenter.
    pub closed spec fn view(&self) -> Segmenter {
        self.segmenter
    }

    /// The segmenter of a dictionary, where the parts of the dictionary fit each other and its trie
    /// can be read.
    pub fn new(l: Lexicon) -> (r: Option<Words>)
        ensures
            match r {
                Some(w) => fits(l) && trie_loads(l.trie@, l.index@) && w@ == made(l),
                None => !(fits(l) && trie_loads(l.trie@, l.index@)),
            },
    {
        if !check(&l) {
            return None;
        }
        let ghost parts = l;
        let costs: ConnectionCostMatrix = load_costs(l.costs)?;
        let words: PrefixDictionary = load_words(l.trie, l.index, l.records)?;
        let classes: CharacterDefinition = define_classes(&l.categories, &l.stretches);
        let segmenter: Segmenter = new_segmenter(words, costs, classes, &l.unknown, &l.made_by);
        assert(segmenter == made(parts));
        Some(Words { segmenter })
    }

    /// The words of a text.
    pub fn take_apart(&self, text: &str) -> (r: Option<Vec<Token>>)
        ensures
            match r {
                Some(v) => segmented(self@, text@) == Some(token_views(v@)),
                None => segmented(self@, text@) is None,
            },
    {
        proof {
            use_type_invariant(self);
        }
        segment_text(&self.segmenter, text)
    }
}

} // verus!
