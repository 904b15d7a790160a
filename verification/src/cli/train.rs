//! The archive's tool on dictionaries: which are trained, and how large.

use crate::archive::dicts::{KIND_PAYLOAD, KIND_RAW};
use crate::text::{copy, same, texts};
use vstd::prelude::*;

verus! {

/// What training is asked for.
#[derive(Debug)]
pub struct TrainPlan {
    /// The kinds whose dictionaries are trained, in order.
    pub targets: Vec<String>,
    /// The largest size of a dictionary, in bytes.
    pub capacity: usize,
    /// Whether the database is compacted at the end.
    pub vacuum: bool,
}

/// The kinds that a word stands for; none where it stands for nothing.
pub open spec fn kinds_of(word: Seq<char>) -> Option<Seq<Seq<char>>> {
    if word == "raw"@ {
        Some(seq![KIND_RAW@])
    } else if word == "payload"@ {
        Some(seq![KIND_PAYLOAD@])
    } else if word == "both"@ {
        Some(seq![KIND_RAW@, KIND_PAYLOAD@])
    } else {
        None
    }
}

/// What training is asked for; the word is handed back where it stands for no kind.
pub fn run_train_dict(kind: String, capacity_kb: usize, no_vacuum: bool) -> (r: Result<
    TrainPlan,
    String,
>)
    requires
        capacity_kb * 1024 <= usize::MAX,
    ensures
        match r {
            Ok(p) => {
                &&& kinds_of(kind@) == Some(texts(p.targets@))
                &&& p.capacity == capacity_kb * 1024
                &&& p.vacuum == !no_vacuum
            },
            Err(w) => kinds_of(kind@) is None && w == kind,
        },
{
    let mut targets: Vec<String> = Vec::new();
    if same(kind.as_str(), "raw") {
        targets.push(copy(KIND_RAW));
    } else if same(kind.as_str(), "payload") {
        targets.push(copy(KIND_PAYLOAD));
    } else if same(kind.as_str(), "both") {
        targets.push(copy(KIND_RAW));
        targets.push(copy(KIND_PAYLOAD));
    } else {
        return Err(kind);
    }
    assert(texts(targets@) =~= kinds_of(kind@)->0);
    Ok(TrainPlan { targets, capacity: capacity_kb * 1024, vacuum: !no_vacuum })
}

/// How many bytes the first `n` samples hold together.
pub open spec fn bytes_in(samples: Seq<Vec<u8>>, n: int) -> nat
    decreases n,
{
    if n <= 0 {
        0
    } else {
        bytes_in(samples, n - 1) + samples[n - 1]@.len()
    }
}

/// How many bytes the samples hold together, up to the largest number there is.
pub fn sample_bytes(samples: &Vec<Vec<u8>>) -> (r: u64)
    ensures
        r == if bytes_in(samples@, samples@.len() as int) <= u64::MAX {
            bytes_in(samples@, samples@.len() as int)
        } else {
            u64::MAX as nat
        },
{
    let mut sum: u64 = 0;
    let mut i: usize = 0;
    while i < samples.len()
        invariant
            i <= samples@.len(),
            sum == if bytes_in(samples@, i as int) <= u64::MAX {
                bytes_in(samples@, i as int)
            } else {
                u64::MAX as nat
            },
        decreases samples@.len() - i,
    {
        sum = sum.saturating_add(samples[i].len() as u64);
        i += 1;
    }
    sum
}

/// A word names the kind that is trained, or both; the size is given in units of 1024 bytes.
pub proof fn word_names_the_kinds(word: Seq<char>)
    ensures
        kinds_of("raw"@) == Some(seq![KIND_RAW@]),
        kinds_of("payload"@) == Some(seq![KIND_PAYLOAD@]),
        kinds_of("both"@) == Some(seq![KIND_RAW@, KIND_PAYLOAD@]),
        kinds_of(word) is Some <==> word == "raw"@ || word == "payload"@ || word == "both"@,
{
    reveal_strlit("raw");
    reveal_strlit("payload");
    reveal_strlit("both");
    assert("raw"@.len() == 3 && "payload"@.len() == 7 && "both"@.len() == 4);
}

/// Samples are counted by their bytes.
pub proof fn samples_count_by_their_bytes(samples: Seq<Vec<u8>>, x: Vec<u8>)
    ensures
        bytes_in(samples.push(x), samples.len() as int + 1) == bytes_in(samples, samples.len() as int)
            + x@.len(),
        bytes_in(samples, 0) == 0,
{
    lemma_bytes_front(samples, x, samples.len() as int);
    assert(samples.push(x)[samples.len() as int] == x);
}

proof fn lemma_bytes_front(samples: Seq<Vec<u8>>, x: Vec<u8>, n: int)
    requires
        0 <= n <= samples.len(),
    ensures
        bytes_in(samples.push(x), n) == bytes_in(samples, n),
    decreases n,
{
    if n > 0 {
        lemma_bytes_front(samples, x, n - 1);
        assert(samples.push(x)[n - 1] == samples[n - 1]);
    }
}

} // verus!
