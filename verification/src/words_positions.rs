//! The words of a document and the positions at which they occur.
use crate::bytes::{
    ascending, lemma_ascending_unique, lemma_lex_asymmetric, lemma_lex_irreflexive,
    lemma_lex_total, lemma_lex_transitive, lex_lt, lex_order, to_bytes, Order,
};
use crate::docids::lemma_lists_unique;
use crate::tokenizer::{
    lemma_words_among_first, lowercase, only_token, simple_tokenizer, token_views, words_among,
    words_of,
};
use vstd::prelude::*;
use vstd::utf8::encode_utf8;

verus! {

/// The number of words of a field that are indexed. Positions of a field start at a multiple of
/// it.
pub const MAX_POSITION: usize = 1000;

/// The number of fields of a document whose positions fit in 32 bits.
pub const MAX_ATTRIBUTES: usize = 0xffff_ffff / MAX_POSITION;

/// A word and the positions at which it occurs.
pub struct WordPositions {
    pub word: Vec<u8>,
    pub positions: Vec<u32>,
}

impl View for WordPositions {
    type V = (Seq<u8>, Seq<u32>);

    open spec fn view(&self) -> (Seq<u8>, Seq<u32>) {
        (self.word@, self.positions@)
    }
}

/// Whether words are in lexicographic order, each once.
pub open spec fn words_in_order(words: Seq<(Seq<u8>, Seq<u32>)>) -> bool {
    forall|i: int, j: int| 0 <= i < j < words.len() ==> #[trigger] lex_lt(words[i].0, words[j].0)
}

/// Whether a word is among the words.
pub open spec fn has_word(words: Seq<(Seq<u8>, Seq<u32>)>, word: Seq<u8>) -> bool {
    exists|i: int| 0 <= i < words.len() && (#[trigger] words[i]).0 == word
}

/// The words of a document, each once and in lexicographic order, with their positions.
pub struct WordsPositions {
    words: Vec<WordPositions>,
}

impl View for WordsPositions {
    type V = Seq<(Seq<u8>, Seq<u32>)>;

    closed spec fn view(&self) -> Seq<(Seq<u8>, Seq<u32>)> {
        self.words@.map_values(|word: WordPositions| word@)
    }
}

impl WordsPositions {
    /// Whether the words are in order.
    pub open spec fn wf(&self) -> bool {
        words_in_order(self@)
    }

    /// No words.
    pub fn new() -> (words: WordsPositions)
        ensures
            words.wf(),
            words@.len() == 0,
    {
        WordsPositions { words: Vec::new() }
    }

    /// The number of words.
    pub fn len(&self) -> (len: usize)
        ensures
            len == self@.len(),
    {
        self.words.len()
    }

    /// The word at a place, with its positions.
    pub fn get(&self, i: usize) -> (word: &WordPositions)
        requires
            i < self@.len(),
        ensures
            word@ == self@[i as int],
    {
        &self.words[i]
    }

    /// The place of a word, or where it belongs.
    fn search(&self, word: &[u8]) -> (found: (bool, usize))
        requires
            self.wf(),
        ensures
            found.1 <= self@.len(),
            found.0 ==> found.1 < self@.len() && self@[found.1 as int].0 == word@,
            !found.0 ==> {
                &&& forall|i: int| 0 <= i < found.1 ==> lex_lt(#[trigger] self@[i].0, word@)
                &&& forall|i: int|
                    found.1 <= i < self@.len() ==> lex_lt(word@, #[trigger] self@[i].0)
            },
    {
        let mut lo: usize = 0;
        let mut hi: usize = self.words.len();
        while lo < hi
            invariant
                self.wf(),
                lo <= hi <= self@.len(),
                forall|i: int| 0 <= i < lo ==> lex_lt(#[trigger] self@[i].0, word@),
                forall|i: int| hi <= i < self@.len() ==> lex_lt(word@, #[trigger] self@[i].0),
            decreases hi - lo,
        {
            let mid = lo + (hi - lo) / 2;
            assert(self@[mid as int] == self.words@[mid as int]@);
            match lex_order(self.words[mid].word.as_slice(), word) {
                Order::Equal => {
                    return (true, mid);
                },
                Order::Less => {
                    assert forall|i: int| 0 <= i < mid + 1 implies lex_lt(
                        #[trigger] self@[i].0,
                        word@,
                    ) by {
                        if i < mid {
                            assert(lex_lt(self@[i].0, self@[mid as int].0));
                            lemma_lex_transitive(self@[i].0, self@[mid as int].0, word@);
                        }
                    }
                    lo = mid + 1;
                },
                Order::Greater => {
                    assert forall|i: int| mid <= i < self@.len() implies lex_lt(
                        word@,
                        #[trigger] self@[i].0,
                    ) by {
                        if i > mid {
                            assert(lex_lt(self@[mid as int].0, self@[i].0));
                            lemma_lex_transitive(word@, self@[mid as int].0, self@[i].0);
                        }
                    }
                    hi = mid;
                },
            }
        }
        (false, lo)
    }

    /// Adds a position of a word after its other positions.
    pub fn push(&mut self, word: Vec<u8>, position: u32)
        requires
            old(self).wf(),
        ensures
            final(self).wf(),
            final(self)@ == with_position(old(self)@, word@, position),
            !has_word(old(self)@, word@) ==> is_slot(
                old(self)@,
                word@,
                slot_of_word(old(self)@, word@),
            ),
    {
        let ghost before = self@;
        let (found, at) = self.search(word.as_slice());
        if found {
            self.words[at].positions.push(position);
            proof {
                assert(has_word(before, word@)) by {
                    assert(before[at as int].0 == word@);
                }
                lemma_word_once(before, at as int, place_of_word(before, word@));
                assert(self@ =~= with_position(before, word@, position));
                lemma_with_position(before, word@, position);
            }
        } else {
            let mut positions: Vec<u32> = Vec::new();
            positions.push(position);
            assert(positions@ =~= seq![position]);
            self.words.insert(at, WordPositions { word, positions });
            proof {
                assert(!has_word(before, word@)) by {
                    if has_word(before, word@) {
                        let i = place_of_word(before, word@);
                        lemma_lex_irreflexive(word@);
                    }
                }
                let other = slot_of_word(before, word@);
                assert(is_slot(before, word@, at as int));
                if at < other {
                    assert(lex_lt(before[at as int].0, word@));
                    lemma_lex_asymmetric(before[at as int].0, word@);
                } else if other < at {
                    assert(lex_lt(before[other].0, word@));
                    lemma_lex_asymmetric(before[other].0, word@);
                }
                assert(self@ =~= with_position(before, word@, position));
                lemma_with_position(before, word@, position);
            }
        }
    }
}

/// The place of a word.
pub open spec fn place_of_word(words: Seq<(Seq<u8>, Seq<u32>)>, word: Seq<u8>) -> int {
    choose|i: int| 0 <= i < words.len() && (#[trigger] words[i]).0 == word
}

/// Whether a word belongs at a place: those before it are below it, and the others above.
pub open spec fn is_slot(words: Seq<(Seq<u8>, Seq<u32>)>, word: Seq<u8>, at: int) -> bool {
    &&& 0 <= at <= words.len()
    &&& forall|i: int| 0 <= i < at ==> lex_lt(#[trigger] words[i].0, word)
    &&& forall|i: int| at <= i < words.len() ==> lex_lt(word, #[trigger] words[i].0)
}

/// The place where a word belongs.
pub open spec fn slot_of_word(words: Seq<(Seq<u8>, Seq<u32>)>, word: Seq<u8>) -> int {
    choose|at: int| is_slot(words, word, at)
}

/// The words once a position is added to one: after its other positions, or, where the word is
/// new, as its only position, at the place where the word belongs.
pub open spec fn with_position(
    words: Seq<(Seq<u8>, Seq<u32>)>,
    word: Seq<u8>,
    position: u32,
) -> Seq<(Seq<u8>, Seq<u32>)> {
    if has_word(words, word) {
        let at = place_of_word(words, word);
        words.update(at, (word, words[at].1.push(position)))
    } else {
        words.insert(slot_of_word(words, word), (word, seq![position]))
    }
}

/// Words in order stand at one place each.
proof fn lemma_word_once(words: Seq<(Seq<u8>, Seq<u32>)>, i: int, j: int)
    requires
        words_in_order(words),
        0 <= i < words.len(),
        0 <= j < words.len(),
        words[i].0 == words[j].0,
    ensures
        i == j,
{
    lemma_lex_irreflexive(words[i].0);
    if i < j {
        assert(lex_lt(words[i].0, words[j].0));
    } else if j < i {
        assert(lex_lt(words[j].0, words[i].0));
    }
}

/// A new word has a place where it belongs.
proof fn lemma_slot_exists(words: Seq<(Seq<u8>, Seq<u32>)>, word: Seq<u8>)
    requires
        words_in_order(words),
        !has_word(words, word),
    ensures
        is_slot(words, word, slot_of_word(words, word)),
    decreases words.len(),
{
    if words.len() == 0 {
        assert(is_slot(words, word, 0));
    } else {
        let rest = words.drop_last();
        let last = words.last();
        assert(words_in_order(rest)) by {
            assert forall|i: int, j: int| 0 <= i < j < rest.len() implies #[trigger] lex_lt(
                rest[i].0,
                rest[j].0,
            ) by {
                assert(lex_lt(words[i].0, words[j].0));
            }
        }
        assert(!has_word(rest, word)) by {
            if has_word(rest, word) {
                let i = place_of_word(rest, word);
                assert(words[i].0 == word);
            }
        }
        lemma_slot_exists(rest, word);
        let at = slot_of_word(rest, word);
        assert(words[words.len() - 1].0 != word);
        lemma_lex_total(last.0, word);
        if lex_lt(last.0, word) {
            assert forall|i: int| 0 <= i < words.len() implies lex_lt(#[trigger] words[i].0, word) by {
                if i < words.len() - 1 {
                    assert(lex_lt(words[i].0, words[words.len() - 1].0));
                    lemma_lex_transitive(words[i].0, last.0, word);
                }
            }
            assert(is_slot(words, word, words.len() as int));
        } else {
            assert forall|i: int| 0 <= i < at implies lex_lt(#[trigger] words[i].0, word) by {
                assert(lex_lt(rest[i].0, word));
            }
            assert forall|i: int| at <= i < words.len() implies lex_lt(word, #[trigger] words[i].0) by {
                if i < rest.len() {
                    assert(lex_lt(word, rest[i].0));
                }
            }
            assert(is_slot(words, word, at));
        }
    }
}

/// Adding a position keeps the words in order.
proof fn lemma_with_position(words: Seq<(Seq<u8>, Seq<u32>)>, word: Seq<u8>, position: u32)
    requires
        words_in_order(words),
    ensures
        words_in_order(with_position(words, word, position)),
{
    let after = with_position(words, word, position);
    if has_word(words, word) {
        assert forall|i: int, j: int| 0 <= i < j < after.len() implies #[trigger] lex_lt(
            after[i].0,
            after[j].0,
        ) by {
            assert(lex_lt(words[i].0, words[j].0));
        }
    } else {
        lemma_slot_exists(words, word);
        let at = slot_of_word(words, word);
        assert forall|i: int, j: int| 0 <= i < j < after.len() implies #[trigger] lex_lt(
            after[i].0,
            after[j].0,
        ) by {
            if i < at && at < j {
                assert(lex_lt(words[i].0, words[j - 1].0));
            } else if i > at {
                assert(lex_lt(words[i - 1].0, words[j - 1].0));
            } else if i < at && j < at {
                assert(lex_lt(words[i].0, words[j].0));
            } else if i == at {
                assert(lex_lt(word, words[j - 1].0));
            } else {
                assert(lex_lt(words[i].0, word));
            }
        }
    }
}

/// The fields of a record as texts.
pub open spec fn field_texts(record: Seq<String>) -> Seq<Seq<char>> {
    record.map_values(|field: String| field@)
}

/// The word at a position of a record: the position counts the words of its field from a multiple
/// of `MAX_POSITION`, and the word is taken in lowercase. `None` where no word is indexed.
pub open spec fn word_at(record: Seq<Seq<char>>, position: int) -> Option<Seq<u8>> {
    let attr = position / MAX_POSITION as int;
    let pos = position % MAX_POSITION as int;
    if 0 <= attr < record.len() && attr < MAX_ATTRIBUTES && pos < words_of(record[attr]).len() {
        Some(encode_utf8(lowercase(words_of(record[attr])[pos])))
    } else {
        None
    }
}

/// Whether an entry lists, in order, positions below a bound at which the record has its word.
pub open spec fn is_word_up_to(
    entry: (Seq<u8>, Seq<u32>),
    record: Seq<Seq<char>>,
    bound: int,
) -> bool {
    &&& entry.1.len() > 0
    &&& forall|k: int, l: int| 0 <= k < l < entry.1.len() ==> entry.1[k] < entry.1[l]
    &&& forall|k: int|
        0 <= k < entry.1.len() ==> (#[trigger] entry.1[k]) < bound && word_at(
            record,
            entry.1[k] as int,
        ) == Some(entry.0)
}

/// Whether a position is listed under a word.
pub open spec fn has_position(
    words: Seq<(Seq<u8>, Seq<u32>)>,
    word: Seq<u8>,
    position: u32,
) -> bool {
    exists|i: int|
        0 <= i < words.len() && (#[trigger] words[i]).0 == word && words[i].1.contains(position)
}

/// Whether the words are those of the record at the positions below a bound, with these positions.
pub open spec fn are_words_up_to(
    words: Seq<(Seq<u8>, Seq<u32>)>,
    record: Seq<Seq<char>>,
    bound: int,
) -> bool {
    &&& words_in_order(words)
    &&& forall|i: int| 0 <= i < words.len() ==> is_word_up_to(#[trigger] words[i], record, bound)
    &&& forall|position: u32|
        position < bound && (#[trigger] word_at(record, position as int)) is Some ==> has_position(
            words,
            word_at(record, position as int)->0,
            position,
        )
}

/// Whether the words are all those of the record, with all their positions.
pub open spec fn are_words_of(words: Seq<(Seq<u8>, Seq<u32>)>, record: Seq<Seq<char>>) -> bool {
    are_words_up_to(words, record, MAX_ATTRIBUTES * MAX_POSITION)
}

/// The words of a record, with their positions.
pub open spec fn record_words(record: Seq<Seq<char>>) -> Seq<(Seq<u8>, Seq<u32>)> {
    choose|words: Seq<(Seq<u8>, Seq<u32>)>| are_words_of(words, record)
}

/// A word that one list has of a record, another has too.
proof fn lemma_words_shared(
    a: Seq<(Seq<u8>, Seq<u32>)>,
    b: Seq<(Seq<u8>, Seq<u32>)>,
    record: Seq<Seq<char>>,
    word: Seq<u8>,
    position: u32,
)
    requires
        are_words_of(a, record),
        are_words_of(b, record),
        has_position(a, word, position),
    ensures
        has_position(b, word, position),
{
    let i = choose|i: int|
        0 <= i < a.len() && (#[trigger] a[i]).0 == word && a[i].1.contains(position);
    let k = choose|k: int| 0 <= k < a[i].1.len() && a[i].1[k] == position;
    assert(is_word_up_to(a[i], record, MAX_ATTRIBUTES * MAX_POSITION));
    assert(word_at(record, a[i].1[k] as int) == Some(word));
}

/// A record has one list of its words.
pub proof fn lemma_words_unique(
    a: Seq<(Seq<u8>, Seq<u32>)>,
    b: Seq<(Seq<u8>, Seq<u32>)>,
    record: Seq<Seq<char>>,
)
    requires
        are_words_of(a, record),
        are_words_of(b, record),
    ensures
        a == b,
{
    let x = a.map_values(|entry: (Seq<u8>, Seq<u32>)| entry.0);
    let y = b.map_values(|entry: (Seq<u8>, Seq<u32>)| entry.0);
    assert forall|word: Seq<u8>| #[trigger] x.contains(word) <==> y.contains(word) by {
        if x.contains(word) {
            lemma_word_has_position(a, b, record, word);
        }
        if y.contains(word) {
            lemma_word_has_position(b, a, record, word);
        }
    }
    assert(ascending(x)) by {
        assert forall|i: int, j: int| 0 <= i < j < x.len() implies #[trigger] lex_lt(x[i], x[j]) by {
            assert(lex_lt(a[i].0, a[j].0));
        }
    }
    assert(ascending(y)) by {
        assert forall|i: int, j: int| 0 <= i < j < y.len() implies #[trigger] lex_lt(y[i], y[j]) by {
            assert(lex_lt(b[i].0, b[j].0));
        }
    }
    lemma_ascending_unique(x, y);
    assert(a.len() == x.len());
    assert(b.len() == y.len());
    assert forall|i: int| 0 <= i < a.len() implies a[i] == b[i] by {
        assert(x[i] == y[i]);
        let word = a[i].0;
        assert(is_word_up_to(a[i], record, MAX_ATTRIBUTES * MAX_POSITION));
        assert(is_word_up_to(b[i], record, MAX_ATTRIBUTES * MAX_POSITION));
        assert forall|p: u32| a[i].1.contains(p) <==> b[i].1.contains(p) by {
            if a[i].1.contains(p) {
                assert(has_position(a, word, p));
                lemma_words_shared(a, b, record, word, p);
                let j = choose|j: int|
                    0 <= j < b.len() && (#[trigger] b[j]).0 == word && b[j].1.contains(p);
                lemma_word_once(b, i, j);
            }
            if b[i].1.contains(p) {
                assert(has_position(b, word, p));
                lemma_words_shared(b, a, record, word, p);
                let j = choose|j: int|
                    0 <= j < a.len() && (#[trigger] a[j]).0 == word && a[j].1.contains(p);
                lemma_word_once(a, i, j);
            }
        }
        assert(a[i].1.to_set() =~= b[i].1.to_set());
        lemma_lists_unique(a[i].1, b[i].1, a[i].1.to_set());
    }
    assert(a =~= b);
}

/// A word of one list of a record is in every other.
proof fn lemma_word_has_position(
    a: Seq<(Seq<u8>, Seq<u32>)>,
    b: Seq<(Seq<u8>, Seq<u32>)>,
    record: Seq<Seq<char>>,
    word: Seq<u8>,
)
    requires
        are_words_of(a, record),
        are_words_of(b, record),
        a.map_values(|entry: (Seq<u8>, Seq<u32>)| entry.0).contains(word),
    ensures
        b.map_values(|entry: (Seq<u8>, Seq<u32>)| entry.0).contains(word),
{
    let x = a.map_values(|entry: (Seq<u8>, Seq<u32>)| entry.0);
    let y = b.map_values(|entry: (Seq<u8>, Seq<u32>)| entry.0);
    let i = choose|i: int| 0 <= i < x.len() && x[i] == word;
    assert(is_word_up_to(a[i], record, MAX_ATTRIBUTES * MAX_POSITION));
    let p = a[i].1[0];
    assert(a[i].1.contains(p));
    assert(has_position(a, word, p));
    lemma_words_shared(a, b, record, word, p);
    let j = choose|j: int| 0 <= j < b.len() && (#[trigger] b[j]).0 == word && b[j].1.contains(p);
    assert(y[j] == word);
}

/// A word is among those of a record where the record has it at some position.
pub proof fn lemma_has_word(
    words: Seq<(Seq<u8>, Seq<u32>)>,
    record: Seq<Seq<char>>,
    word: Seq<u8>,
)
    requires
        are_words_of(words, record),
    ensures
        has_word(words, word) <==> exists|position: u32| #[trigger]
            word_at(record, position as int) == Some(word),
{
    if has_word(words, word) {
        let i = place_of_word(words, word);
        assert(is_word_up_to(words[i], record, MAX_ATTRIBUTES * MAX_POSITION));
        let p = words[i].1[0];
        assert(word_at(record, p as int) == Some(word));
    }
    if exists|position: u32| #[trigger] word_at(record, position as int) == Some(word) {
        let p = choose|position: u32| #[trigger] word_at(record, position as int) == Some(word);
        assert(has_position(words, word, p));
    }
}

/// The bound moves over positions without words.
proof fn lemma_no_words(
    words: Seq<(Seq<u8>, Seq<u32>)>,
    record: Seq<Seq<char>>,
    bound: int,
    next: int,
)
    requires
        are_words_up_to(words, record, bound),
        bound <= next,
        forall|position: int|
            bound <= position < next ==> #[trigger] word_at(record, position) is None,
    ensures
        are_words_up_to(words, record, next),
{
    assert forall|i: int| 0 <= i < words.len() implies is_word_up_to(
        #[trigger] words[i],
        record,
        next,
    ) by {
        assert(is_word_up_to(words[i], record, bound));
    }
}

/// The bound moves over one position, whose word is added.
proof fn lemma_next_word(
    words: Seq<(Seq<u8>, Seq<u32>)>,
    record: Seq<Seq<char>>,
    position: u32,
    word: Seq<u8>,
)
    requires
        are_words_up_to(words, record, position as int),
        word_at(record, position as int) == Some(word),
    ensures
        are_words_up_to(with_position(words, word, position), record, position + 1),
{
    let after = with_position(words, word, position);
    lemma_with_position(words, word, position);
    let known = has_word(words, word);
    let at = if known {
        place_of_word(words, word)
    } else {
        slot_of_word(words, word)
    };
    if !known {
        lemma_slot_exists(words, word);
    }
    assert forall|i: int| 0 <= i < after.len() implies is_word_up_to(
        #[trigger] after[i],
        record,
        position + 1,
    ) by {
        if i == at {
            if known {
                assert(is_word_up_to(words[at], record, position as int));
            }
        } else if known || i < at {
            assert(is_word_up_to(words[i], record, position as int));
        } else {
            assert(is_word_up_to(words[i - 1], record, position as int));
        }
    }
    assert forall|p: u32|
        p < position + 1 && (#[trigger] word_at(record, p as int)) is Some implies has_position(
        after,
        word_at(record, p as int)->0,
        p,
    ) by {
        let w = word_at(record, p as int)->0;
        if p == position {
            let k = after[at].1.len() - 1;
            assert(after[at].1[k] == position);
            assert(after[at].0 == w);
        } else {
            assert(has_position(words, w, p));
            let i = choose|i: int|
                0 <= i < words.len() && (#[trigger] words[i]).0 == w && words[i].1.contains(p);
            let k = choose|k: int| 0 <= k < words[i].1.len() && words[i].1[k] == p;
            let j = if known || i < at {
                i
            } else {
                i + 1
            };
            assert(after[j].0 == w);
            assert(after[j].1[k] == p);
        }
    }
}

/// A record has words up to any bound.
proof fn lemma_words_exist_up_to(record: Seq<Seq<char>>, bound: int)
    requires
        0 <= bound <= MAX_ATTRIBUTES * MAX_POSITION,
    ensures
        exists|words: Seq<(Seq<u8>, Seq<u32>)>| are_words_up_to(words, record, bound),
    decreases bound,
{
    if bound == 0 {
        let none: Seq<(Seq<u8>, Seq<u32>)> = Seq::empty();
        assert(are_words_up_to(none, record, bound));
    } else {
        let before = bound - 1;
        lemma_words_exist_up_to(record, before);
        let words = choose|words: Seq<(Seq<u8>, Seq<u32>)>| are_words_up_to(words, record, before);
        match word_at(record, before) {
            Some(word) => {
                let position = before as u32;
                lemma_next_word(words, record, position, word);
                assert(are_words_up_to(with_position(words, word, position), record, bound));
            },
            None => {
                lemma_no_words(words, record, before, bound);
                assert(are_words_up_to(words, record, bound));
            },
        }
    }
}

/// Every record has a list of its words.
pub proof fn lemma_words_exist(record: Seq<Seq<char>>)
    ensures
        are_words_of(record_words(record), record),
{
    let bound = MAX_ATTRIBUTES * MAX_POSITION;
    lemma_words_exist_up_to(record, bound);
    let words = choose|words: Seq<(Seq<u8>, Seq<u32>)>| are_words_up_to(words, record, bound);
    assert(are_words_of(words, record));
}

/// The position of a word tells its field and its place among the words of the field.
pub proof fn lemma_position_parts(attr: int, pos: int)
    requires
        0 <= attr < MAX_ATTRIBUTES,
        0 <= pos < MAX_POSITION,
    ensures
        0 <= attr * MAX_POSITION + pos <= u32::MAX,
        (attr * MAX_POSITION + pos) / (MAX_POSITION as int) == attr,
        (attr * MAX_POSITION + pos) % (MAX_POSITION as int) == pos,
{
}

/// The words of a record in lowercase, and where they occur.
pub fn words_positions(record: &Vec<String>) -> (words: WordsPositions)
    ensures
        words.wf(),
        are_words_of(words@, field_texts(record@)),
{
    let ghost texts = field_texts(record@);
    let mut words = WordsPositions::new();
    let mut attr: usize = 0;
    while attr < record.len() && attr < MAX_ATTRIBUTES
        invariant
            attr <= record@.len(),
            attr <= MAX_ATTRIBUTES,
            texts == field_texts(record@),
            are_words_up_to(words@, texts, attr * MAX_POSITION),
        decreases record@.len() - attr,
    {
        let tokens = simple_tokenizer(record[attr].as_str());
        let ghost views = token_views(tokens@);
        let mut pos: usize = 0;
        let mut t: usize = 0;
        while t < tokens.len() && pos < MAX_POSITION
            invariant
                attr < record@.len(),
                attr < MAX_ATTRIBUTES,
                texts == field_texts(record@),
                views == token_views(tokens@),
                words_of(texts[attr as int]) == words_among(views),
                t <= tokens@.len(),
                pos <= MAX_POSITION,
                pos == words_among(views.take(t as int)).len(),
                are_words_up_to(words@, texts, attr * MAX_POSITION + pos),
            decreases tokens@.len() - t,
        {
            proof {
                lemma_position_parts(attr as int, pos as int);
                lemma_words_among_first(views, t + 1);
                assert(views.take(t + 1).drop_last() =~= views.take(t as int));
                assert(views.take(t + 1).last() == views[t as int]);
            }
            match only_token((tokens[t].0, tokens[t].1.as_str())) {
                Some(token) => {
                    let word = token.to_lowercase();
                    let position = (attr * MAX_POSITION + pos) as u32;
                    proof {
                        assert(words_among(views.take(t + 1))[pos as int] == token@);
                        lemma_next_word(words@, texts, position, encode_utf8(word@));
                    }
                    words.push(to_bytes(word.as_str().as_bytes()), position);
                    pos += 1;
                },
                None => {},
            }
            t += 1;
        }
        proof {
            let end = attr * MAX_POSITION + pos;
            let next = (attr + 1) * MAX_POSITION;
            assert forall|position: int| end <= position < next implies #[trigger] word_at(
                texts,
                position,
            ) is None by {
                assert(views.take(t as int) =~= views);
                assert(position / (MAX_POSITION as int) == attr);
            }
            lemma_no_words(words@, texts, end, next);
        }
        attr += 1;
    }
    proof {
        let end = attr * MAX_POSITION;
        let next = MAX_ATTRIBUTES * MAX_POSITION;
        assert forall|position: int| end <= position < next implies #[trigger] word_at(
            texts,
            position,
        ) is None by {}
        lemma_no_words(words@, texts, end, next);
    }
    words
}

/// The word in lowercase at a place of a field.
pub open spec fn lower_word(record: Seq<Seq<char>>, attr: int, pos: int) -> Seq<u8> {
    encode_utf8(lowercase(words_of(record[attr])[pos]))
}

/// Whether a record has a word at a place of a field that is indexed: the first thousand places of
/// each of the first 4294967 fields are.
pub open spec fn has_place(record: Seq<Seq<char>>, attr: int, pos: int) -> bool {
    &&& 0 <= attr < record.len()
    &&& attr < 4294967
    &&& 0 <= pos < words_of(record[attr]).len()
    &&& pos < 1000
}

/// What is at each position: the word at place `pos` of field `attr` is at position
/// `1000 * attr + pos`, and at the other positions there is nothing.
pub proof fn lemma_word_at(record: Seq<Seq<char>>, attr: int, pos: int)
    requires
        0 <= attr,
        0 <= pos < 1000,
    ensures
        has_place(record, attr, pos) ==> {
            &&& 1000 * attr + pos <= u32::MAX
            &&& word_at(record, 1000 * attr + pos) == Some(lower_word(record, attr, pos))
        },
        !has_place(record, attr, pos) ==> word_at(record, 1000 * attr + pos) is None,
{
}

/// What the words of a record say: the word at each place of each field is listed in lowercase,
/// once, with the position of the place, each position that is listed under a word is that of a
/// place with the word, and the positions are listed in order.
pub proof fn lemma_words_say(words: Seq<(Seq<u8>, Seq<u32>)>, record: Seq<Seq<char>>)
    requires
        are_words_of(words, record),
    ensures
        forall|attr: int, pos: int| #[trigger]
            has_place(record, attr, pos) ==> exists|i: int|
                #![trigger words[i]]
                {
                    &&& 0 <= i < words.len()
                    &&& words[i].0 == lower_word(record, attr, pos)
                    &&& words[i].1.contains((1000 * attr + pos) as u32)
                },
        forall|i: int, k: int|
            0 <= i < words.len() && 0 <= k < words[i].1.len() ==> {
                let p = (#[trigger] words[i].1[k]) as int;
                &&& has_place(record, p / 1000, p % 1000)
                &&& words[i].0 == lower_word(record, p / 1000, p % 1000)
            },
        forall|i: int| 0 <= i < words.len() ==> (#[trigger] words[i]).1.len() > 0,
        forall|i: int, j: int|
            0 <= i < j < words.len() ==> (#[trigger] words[i]).0 != (#[trigger] words[j]).0,
        forall|i: int, k: int, l: int|
            0 <= i < words.len() && 0 <= k < l < words[i].1.len() ==> (#[trigger] words[i].1[k]) < (
            #[trigger] words[i].1[l]),
{
    assert forall|attr: int, pos: int| #[trigger] has_place(record, attr, pos) implies exists|i: int|
        #![trigger words[i]]
        {
            &&& 0 <= i < words.len()
            &&& words[i].0 == lower_word(record, attr, pos)
            &&& words[i].1.contains((1000 * attr + pos) as u32)
        } by {
        lemma_word_at(record, attr, pos);
        let p = (1000 * attr + pos) as u32;
        assert(word_at(record, p as int) is Some);
        assert(has_position(words, lower_word(record, attr, pos), p));
    }
    assert forall|i: int, k: int| 0 <= i < words.len() && 0 <= k < words[i].1.len() implies {
        let p = (#[trigger] words[i].1[k]) as int;
        &&& has_place(record, p / 1000, p % 1000)
        &&& words[i].0 == lower_word(record, p / 1000, p % 1000)
    } by {
        assert(is_word_up_to(words[i], record, MAX_ATTRIBUTES * MAX_POSITION));
        let p = words[i].1[k] as int;
        assert(word_at(record, p) == Some(words[i].0));
        lemma_word_at(record, p / 1000, p % 1000);
    }
    assert forall|i: int| 0 <= i < words.len() implies (#[trigger] words[i]).1.len() > 0 by {
        assert(is_word_up_to(words[i], record, MAX_ATTRIBUTES * MAX_POSITION));
    }
    assert forall|i: int, j: int| 0 <= i < j < words.len() implies (#[trigger] words[i]).0 != (
    #[trigger] words[j]).0 by {
        assert(lex_lt(words[i].0, words[j].0));
        lemma_lex_irreflexive(words[i].0);
    }
    assert forall|i: int, k: int, l: int|
        0 <= i < words.len() && 0 <= k < l < words[i].1.len() implies (#[trigger] words[i].1[k]) < (
    #[trigger] words[i].1[l]) by {
        assert(is_word_up_to(words[i], record, MAX_ATTRIBUTES * MAX_POSITION));
    }
}

/// Where the word at a place of a field is listed.
pub proof fn lemma_place_listed(
    words: Seq<(Seq<u8>, Seq<u32>)>,
    record: Seq<Seq<char>>,
    attr: int,
    pos: int,
) -> (i: int)
    requires
        are_words_of(words, record),
        has_place(record, attr, pos),
    ensures
        0 <= i < words.len(),
        words[i].0 == lower_word(record, attr, pos),
        words[i].1.contains((1000 * attr + pos) as u32),
{
    lemma_words_say(words, record);
    assert(has_place(record, attr, pos));
    choose|i: int|
        #![trigger words[i]]
        {
            &&& 0 <= i < words.len()
            &&& words[i].0 == lower_word(record, attr, pos)
            &&& words[i].1.contains((1000 * attr + pos) as u32)
        }
}

/// The place that a listed position stands for.
pub proof fn lemma_position_place(
    words: Seq<(Seq<u8>, Seq<u32>)>,
    record: Seq<Seq<char>>,
    i: int,
    position: u32,
)
    requires
        are_words_of(words, record),
        0 <= i < words.len(),
        words[i].1.contains(position),
    ensures
        has_place(record, position as int / 1000, position as int % 1000),
        words[i].0 == lower_word(record, position as int / 1000, position as int % 1000),
{
    lemma_words_say(words, record);
    let k = choose|k: int| 0 <= k < words[i].1.len() && words[i].1[k] == position;
    assert(words[i].1[k] == position);
}

/// The texts of a record are those of its fields, each at the place of its field.
pub proof fn lemma_field_texts(record: Seq<String>, i: int)
    requires
        0 <= i < record.len(),
    ensures
        field_texts(record).len() == record.len(),
        field_texts(record)[i] == record[i]@,
{
}

} // verus!
