use std::collections::BTreeMap;

use ccc::archive::fts::{segment, tokens_to_emit, Segmented};
use ccc::archive::lexicon::{Category, Lexicon, Stretch, UnknownWord, Words};
use lindera_dictionary::dictionary::prefix_dictionary::PrefixDictionary;
use lindera_dictionary::viterbi::{LexType, WordEntry, WordId};

/// A dictionary that knows two words and takes everything else for one word up to the next space.
fn lexicon() -> Lexicon {
    let known = |id| vec![WordEntry::new(WordId::new(LexType::System, id), -100, 0, 0)];
    let mut words = BTreeMap::new();
    words.insert("会議".to_string(), known(0));
    words.insert("設計".to_string(), known(1));
    let (trie, index) = PrefixDictionary::serialize_trie(&words).unwrap();
    let record = |id| vec![id, 0, 0, 0, 0x9c, 0xff, 0, 0, 0, 0];
    let category = |name: &str, invoke| Category {
        name: name.to_string(),
        invoke,
        group: true,
        length: 0,
    };
    let stretch = |from, c| Stretch {
        from,
        categories: vec![c],
    };
    let unknown = |id| UnknownWord {
        id,
        cost: 100,
        left: 0,
        right: 0,
    };
    Lexicon {
        trie,
        index,
        records: [record(0), record(1)].concat(),
        // One context on either side, and no cost between them.
        costs: vec![0xff, 0xff, 1, 0, 1, 0, 0, 0],
        categories: vec![category("DEFAULT", false), category("SPACE", true)],
        stretches: vec![stretch(0, 0), stretch(32, 1), stretch(33, 0)],
        unknown: vec![unknown(0), unknown(1)],
        made_by: vec![vec![0], vec![1]],
    }
}

fn words() -> Words {
    Words::new(lexicon()).expect("the parts fit")
}

#[test]
fn text_is_taken_apart_into_its_words() {
    let found = segment(&words(), "設計会議 abc".as_bytes().to_vec());
    let Segmented::Tokens(tokens) = &found else {
        panic!("these bytes are a text");
    };
    let spans: Vec<(&str, usize, usize)> = tokens
        .iter()
        .map(|t| (t.surface.as_str(), t.byte_start, t.byte_end))
        .collect();
    assert_eq!(
        spans,
        [("設計", 0, 6), ("会議", 6, 12), ("abc", 13, 16)]
    );
    assert_eq!(tokens_to_emit(&found).ok(), Some(vec![0, 1, 2]));
}

#[test]
fn bytes_that_are_no_text_hold_no_words() {
    let found = segment(&words(), vec![0xe8, 0xa8]);
    assert!(matches!(found, Segmented::NotText));
    assert_eq!(tokens_to_emit(&found).ok(), Some(Vec::new()));
    let found = segment(&words(), Vec::new());
    assert!(matches!(&found, Segmented::Tokens(t) if t.is_empty()));
}

#[test]
fn parts_that_do_not_fit_make_no_dictionary() {
    let refused = |change: fn(&mut Lexicon)| {
        let mut l = lexicon();
        change(&mut l);
        Words::new(l).is_none()
    };
    assert!(!refused(|_| {}));
    // Sides of words that the table of costs has not.
    assert!(refused(|l| l.records[6] = 1));
    assert!(refused(|l| l.records[18] = 1));
    assert!(refused(|l| l.unknown[1].left = 1));
    assert!(refused(|l| l.unknown[0].right = 1));
    // The lowest cost of all.
    assert!(refused(|l| l.unknown[0].cost = i16::MIN));
    assert!(refused(|l| {
        l.records[4] = 0;
        l.records[5] = 0x80;
    }));
    assert!(!refused(|l| l.unknown[0].cost = i16::MIN + 1));
    // A table without costs, with too few, or with another layout.
    assert!(refused(|l| l.costs = vec![0xff, 0xff, 0, 0, 0, 0]));
    assert!(refused(|l| l.costs[2] = 2));
    assert!(refused(|l| l.costs[0] = 0));
    // Kinds of characters and unknown words that are not there.
    assert!(refused(|l| l.stretches[1].categories = vec![2]));
    assert!(refused(|l| l.made_by[1] = vec![2]));
    assert!(refused(|l| l.made_by.truncate(1)));
    // Characters that are in no stretch or in two.
    assert!(refused(|l| l.stretches[0].from = 1));
    assert!(refused(|l| l.stretches[2].from = 32));
    assert!(refused(|l| l.stretches.clear()));
    assert!(refused(|l| l.stretches[0].categories = vec![0; 256]));
    // A trie that is shorter than it says, and an index cut within an entry.
    assert!(refused(|l| {
        l.trie.pop();
    }));
    assert!(refused(|l| {
        l.index.pop();
    }));
}

#[test]
fn kind_of_a_character_decides_on_its_words() {
    // Where a space is like any other character, it is part of the word round it.
    let mut l = lexicon();
    l.stretches.truncate(1);
    let found = segment(&Words::new(l).expect("the parts fit"), b"ab cd".to_vec());
    let Segmented::Tokens(tokens) = &found else {
        panic!("these bytes are a text");
    };
    assert_eq!(tokens.len(), 1);
    assert_eq!(tokens[0].surface, "ab cd");
    // Where nothing says how unknown words are made, there are none.
    let mut l = lexicon();
    l.made_by = vec![vec![], vec![]];
    let found = segment(&Words::new(l).expect("the parts fit"), b"ab".to_vec());
    assert!(matches!(&found, Segmented::Tokens(t) if t.is_empty()));
    // Cheap unknown words win over known ones.
    let mut l = lexicon();
    l.categories[0].invoke = true;
    l.unknown[0].cost = -1000;
    let found = segment(&Words::new(l).expect("the parts fit"), "設計会議".as_bytes().to_vec());
    assert!(matches!(&found, Segmented::Tokens(t) if t.len() == 1));
}
