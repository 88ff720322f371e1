//! Choosing the microphone to record from, by the words in device names.

use vstd::prelude::*;
use vstd::string::StrSliceExecFns;

verus! {

/// Words that mark a preferred microphone, best first.
pub open spec fn mic_prefer() -> Seq<Seq<char>> {
    seq!["jack"@, "earbud"@, "headphone"@]
}

/// Words that mark a microphone to use only when nothing better is found.
pub open spec fn mic_demote() -> Seq<Seq<char>> {
    seq!["array"@, "headset"@]
}

/// Words that mark a loopback device, which is never used.
pub open spec fn mic_reject() -> Seq<Seq<char>> {
    seq!["stereo mix"@, "what u hear"@]
}

/// `p` occurs in `s`.
pub open spec fn contains_text(s: Seq<char>, p: Seq<char>) -> bool {
    exists|i: int| 0 <= i && i + p.len() <= s.len() && #[trigger] s.subrange(i, i + p.len()) == p
}

/// Position of the first word of `words`, from `i` on, that occurs in `s`.
pub open spec fn first_word_in(s: Seq<char>, words: Seq<Seq<char>>, i: int) -> Option<int>
    decreases words.len() - i,
{
    if i < 0 || i >= words.len() {
        None
    } else if contains_text(s, words[i]) {
        Some(i)
    } else {
        first_word_in(s, words, i + 1)
    }
}

/// The priority of a device with the (lower-cased) name `name`, lower is
/// better: `None` for a loopback device; the position of the first
/// preferred word it holds; after those, plain devices; after those, the
/// demoted ones, by the first demoting word they hold.
pub open spec fn device_rank_spec(name: Seq<char>) -> Option<usize> {
    if first_word_in(name, mic_reject(), 0) is Some {
        None
    } else {
        match first_word_in(name, mic_prefer(), 0) {
            Some(i) => Some(i as usize),
            None => match first_word_in(name, mic_demote(), 0) {
                Some(i) => Some((mic_prefer().len() + 1 + i) as usize),
                None => Some(mic_prefer().len() as usize),
            },
        }
    }
}

proof fn lemma_first_word_in_bounds(s: Seq<char>, words: Seq<Seq<char>>, i: int)
    ensures
        first_word_in(s, words, i) matches Some(k) ==> i <= k < words.len(),
    decreases words.len() - i,
{
    if 0 <= i < words.len() && !contains_text(s, words[i]) {
        lemma_first_word_in_bounds(s, words, i + 1);
    }
}

fn contains_word(s: &[char], word: &str) -> (r: bool)
    ensures
        r == contains_text(s@, word@),
{
    let m = word.unicode_len();
    let n = s.len();
    if m > n {
        proof {
            assert forall|i: int| 0 <= i && i + word@.len() <= s@.len() implies #[trigger] s@.subrange(
                i,
                i + word@.len(),
            ) != word@ by {}
        }
        return false;
    }
    let mut i: usize = 0;
    while i <= n - m
        invariant
            m == word@.len(),
            n == s@.len(),
            m <= n,
            i <= n - m + 1,
            forall|k: int| 0 <= k < i ==> #[trigger] s@.subrange(k, k + m) != word@,
        decreases n - m + 1 - i,
    {
        let mut j: usize = 0;
        while j < m && s[i + j] == word.get_char(j)
            invariant
                m == word@.len(),
                n == s@.len(),
                i + m <= n,
                j <= m,
                forall|k: int| 0 <= k < j ==> s@[i + k] == word@[k],
            decreases m - j,
        {
            j = j + 1;
        }
        if j == m {
            assert(s@.subrange(i as int, i + m) =~= word@);
            return true;
        }
        assert(s@.subrange(i as int, i + m)[j as int] != word@[j as int]);
        i = i + 1;
    }
    false
}

fn first_word(s: &[char], words: &[&str]) -> (r: Option<usize>)
    ensures
        match first_word_in(s@, words@.map_values(|w: &str| w@), 0) {
            Some(i) => r == Some(i as usize),
            None => r is None,
        },
{
    let ghost ws = words@.map_values(|w: &str| w@);
    let mut i: usize = 0;
    while i < words.len()
        invariant
            ws == words@.map_values(|w: &str| w@),
            i <= words@.len(),
            first_word_in(s@, ws, 0) == first_word_in(s@, ws, i as int),
        decreases words@.len() - i,
    {
        if contains_word(s, words[i]) {
            return Some(i);
        }
        i = i + 1;
    }
    None
}

/// The priority of a device named `name` (lower-cased), or `None` for a
/// loopback device that must not be used.
pub fn device_rank(name: &[char]) -> (r: Option<usize>)
    ensures
        r == device_rank_spec(name@),
{
    let reject: [&str; 2] = ["stereo mix", "what u hear"];
    let prefer: [&str; 3] = ["jack", "earbud", "headphone"];
    let demote: [&str; 2] = ["array", "headset"];
    proof {
        assert(reject@.map_values(|w: &str| w@) =~= mic_reject());
        assert(prefer@.map_values(|w: &str| w@) =~= mic_prefer());
        assert(demote@.map_values(|w: &str| w@) =~= mic_demote());
    }
    proof {
        lemma_first_word_in_bounds(name@, mic_prefer(), 0);
        lemma_first_word_in_bounds(name@, mic_demote(), 0);
    }
    if first_word(name, &reject).is_some() {
        return None;
    }
    match first_word(name, &prefer) {
        Some(i) => Some(i),
        None => match first_word(name, &demote) {
            Some(i) => Some(prefer.len() + 1 + i),
            None => Some(prefer.len()),
        },
    }
}

/// The priority of a (lower-cased) device name, word by word: a name
/// holding `stereo mix` or `what u hear` is never used; otherwise `jack`
/// ranks 0, `earbud` 1, `headphone` 2 (the first of these words found, in
/// that order, decides), a name with none of them ranks 3, except that
/// `array` ranks 4 and `headset` 5.
pub proof fn lemma_device_rank_words(name: Seq<char>)
    ensures
        device_rank_spec(name) is None <==> (contains_text(name, "stereo mix"@) || contains_text(
            name,
            "what u hear"@,
        )),
        device_rank_spec(name) is Some ==> {
            &&& contains_text(name, "jack"@) ==> device_rank_spec(name) == Some(0usize)
            &&& !contains_text(name, "jack"@) && contains_text(name, "earbud"@) ==> device_rank_spec(name)
                == Some(1usize)
            &&& !contains_text(name, "jack"@) && !contains_text(name, "earbud"@) && contains_text(
                name,
                "headphone"@,
            ) ==> device_rank_spec(name) == Some(2usize)
            &&& !contains_text(name, "jack"@) && !contains_text(name, "earbud"@) && !contains_text(
                name,
                "headphone"@,
            ) ==> device_rank_spec(name) == if contains_text(name, "array"@) {
                Some(4usize)
            } else if contains_text(name, "headset"@) {
                Some(5usize)
            } else {
                Some(3usize)
            }
        },
{
    reveal_with_fuel(first_word_in, 4);
    assert(mic_reject()[0] == "stereo mix"@ && mic_reject()[1] == "what u hear"@);
    assert(mic_prefer()[0] == "jack"@ && mic_prefer()[1] == "earbud"@ && mic_prefer()[2] == "headphone"@);
    assert(mic_demote()[0] == "array"@ && mic_demote()[1] == "headset"@);
}

/// `i` is the first device with the best (lowest) priority.
pub open spec fn is_first_best(ranks: Seq<Option<usize>>, i: int) -> bool {
    &&& 0 <= i < ranks.len()
    &&& ranks[i] is Some
    &&& forall|j: int| 0 <= j < ranks.len() && #[trigger] ranks[j] is Some ==> ranks[i]->0 <= ranks[j]->0
    &&& forall|j: int| 0 <= j < i && #[trigger] ranks[j] is Some ==> ranks[i]->0 < ranks[j]->0
}

/// The first device with the best priority, or `None` when every device is
/// rejected.
pub fn pick_device(ranks: &[Option<usize>]) -> (r: Option<usize>)
    ensures
        match r {
            Some(i) => is_first_best(ranks@, i as int),
            None => forall|j: int| 0 <= j < ranks@.len() ==> #[trigger] ranks@[j] is None,
        },
{
    let mut best: Option<usize> = None;
    for i in 0..ranks.len()
        invariant
            match best {
                Some(b) => b < i && ranks@[b as int] is Some && (forall|j: int|
                    0 <= j < i && #[trigger] ranks@[j] is Some ==> ranks@[b as int]->0 <= ranks@[j]->0)
                    && (forall|j: int|
                    0 <= j < b && #[trigger] ranks@[j] is Some ==> ranks@[b as int]->0 < ranks@[j]->0),
                None => forall|j: int| 0 <= j < i ==> #[trigger] ranks@[j] is None,
            },
    {
        if let Some(r) = ranks[i] {
            match best {
                None => {
                    best = Some(i);
                },
                Some(b) => {
                    if let Some(rb) = ranks[b] {
                        if r < rb {
                            best = Some(i);
                        }
                    }
                },
            }
        }
    }
    best
}

} // verus!
