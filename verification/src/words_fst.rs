//! The set of all indexed words, held in a finite state transducer.
use crate::bytes::{
    ascending, lemma_lex_asymmetric, lemma_lex_irreflexive, lemma_lex_total, lemma_lex_transitive,
    lex_lt,
};
use fst::set::{OpBuilder, Union};
use fst::{IntoStreamer, SetBuilder};
use std::borrow::Cow;
use vstd::prelude::*;

verus! {

/// `fst::SetBuilder`, which writes an fst from keys given in order.
#[verifier::external_type_specification]
#[verifier::external_body]
#[verifier::reject_recursive_types(W)]
pub struct ExSetBuilder<W>(SetBuilder<W>);

/// `fst::Set`, the set of the words of an fst.
#[verifier::external_type_specification]
#[verifier::external_body]
#[verifier::reject_recursive_types(D)]
pub struct ExFstSet<D>(fst::Set<D>);

/// `fst::set::OpBuilder`, which collects the sets for an operation on them.
#[verifier::external_type_specification]
#[verifier::external_body]
pub struct ExOpBuilder<'s>(OpBuilder<'s>);

/// `fst::set::Union`, a stream over the words of several sets.
#[verifier::external_type_specification]
#[verifier::external_body]
pub struct ExUnion<'s>(Union<'s>);

/// The words that a stream over a set yields.
pub uninterp spec fn set_words(set: fst::Set<&[u8]>) -> Seq<Seq<u8>>;

/// The words of each set that an operation is on.
pub uninterp spec fn op_lists(op: OpBuilder<'_>) -> Seq<Seq<Seq<u8>>>;

/// The words that a union of sets yields.
pub uninterp spec fn union_words(all: Union<'_>) -> Seq<Seq<u8>>;

/// The words that a builder was given, each once.
pub uninterp spec fn builder_words(builder: SetBuilder<Vec<u8>>) -> Seq<Seq<u8>>;

/// The bytes that a builder in memory ends with for these words, which are ascending. This is on
/// machines of one pointer width: the builder looks nodes up by a hash that it cuts to `usize`, so
/// on another one it may share fewer or other nodes.
pub uninterp spec fn fst_bytes(words: Seq<Seq<u8>>) -> Seq<u8>;

/// The words that a stream over `fst::Set::new` of these bytes yields, `None` where the bytes are
/// refused, or where a stream over the set panics, overflows or does not end.
pub uninterp spec fn fst_read(bytes: Seq<u8>) -> Option<Seq<Seq<u8>>>;

/// The words of an fst.
pub open spec fn fst_words(bytes: Seq<u8>) -> Seq<Seq<u8>> {
    fst_read(bytes)->0
}

/// Whether bytes are those of an fst: they open as a set, and its words come in order.
pub open spec fn is_words_fst(bytes: Seq<u8>) -> bool {
    &&& fst_read(bytes) is Some
    &&& ascending(fst_words(bytes))
}

/// Whether `word` is in one of the fsts.
pub open spec fn in_some_fst(values: Seq<Seq<u8>>, word: Seq<u8>) -> bool {
    exists|i: int| 0 <= i < values.len() && fst_words(#[trigger] values[i]).contains(word)
}

/// Whether `word` is in one of the lists.
pub open spec fn in_some_list(lists: Seq<Seq<Seq<u8>>>, word: Seq<u8>) -> bool {
    exists|i: int| 0 <= i < lists.len() && (#[trigger] lists[i]).contains(word)
}

/// Whether a list holds the words of all the fsts, each once and in order.
pub open spec fn is_union(words: Seq<Seq<u8>>, values: Seq<Seq<u8>>) -> bool {
    &&& ascending(words)
    &&& forall|word: Seq<u8>| #[trigger] words.contains(word) <==> in_some_fst(values, word)
}

/// The bytes of each of a list of values.
pub open spec fn all_bytes<'a>(values: Seq<Cow<'a, [u8]>>) -> Seq<Seq<u8>> {
    values.map_values(|value: Cow<'a, [u8]>| value@)
}

/// `fst::SetBuilder::memory`: a builder that was given no word yet.
#[verifier::external_body]
pub(crate) fn set_builder() -> (builder: SetBuilder<Vec<u8>>)
    ensures
        builder_words(builder) == Seq::<Seq<u8>>::empty(),
{
    SetBuilder::memory()
}

/// `fst::SetBuilder::insert`, into memory, where no write fails: refuses a word below the one
/// before it, and passes over a word equal to it.
#[verifier::external_body]
pub(crate) fn set_builder_insert(builder: &mut SetBuilder<Vec<u8>>, word: &[u8]) -> (accepted: bool)
    ensures
        accepted == !(builder_words(*old(builder)).len() > 0 && lex_lt(
            word@,
            builder_words(*old(builder)).last(),
        )),
        builder_words(*final(builder)) == if !accepted || (builder_words(*old(builder)).len() > 0
            && builder_words(*old(builder)).last() == word@) {
            builder_words(*old(builder))
        } else {
            builder_words(*old(builder)).push(word@)
        },
{
    builder.insert(word).is_ok()
}

/// `fst::Set::new` of bytes that are an fst, which it does not refuse: the set of their words.
#[verifier::external_body]
pub(crate) fn set_open<'a>(bytes: &'a [u8]) -> (set: fst::Set<&'a [u8]>)
    requires
        is_words_fst(bytes@),
    ensures
        fst_read(bytes@) == Some(set_words(set)),
{
    fst::Set::new(bytes).unwrap()
}

/// `fst::set::OpBuilder::new`: an operation on no sets yet.
#[verifier::external_body]
pub(crate) fn op_builder<'s>() -> (op: OpBuilder<'s>)
    ensures
        op_lists(op) == Seq::<Seq<Seq<u8>>>::empty(),
{
    OpBuilder::new()
}

/// `fst::set::OpBuilder::push` of a stream over a set: the operation is on that set too.
#[verifier::external_body]
pub(crate) fn op_push<'s>(op: &mut OpBuilder<'s>, set: &'s fst::Set<&'s [u8]>)
    ensures
        op_lists(*final(op)) == op_lists(*old(op)).push(set_words(*set)),
{
    op.push(set.into_stream());
}

/// `fst::set::OpBuilder::union` on lists of words that are ascending: the words of all the lists,
/// each once and in order.
#[verifier::external_body]
pub(crate) fn op_union<'s>(op: OpBuilder<'s>) -> (all: Union<'s>)
    requires
        forall|i: int| 0 <= i < op_lists(op).len() ==> ascending(#[trigger] op_lists(op)[i]),
    ensures
        ascending(union_words(all)),
        forall|word: Seq<u8>| #[trigger]
            union_words(all).contains(word) <==> in_some_list(op_lists(op), word),
{
    op.union()
}

/// `fst::SetBuilder::extend_stream`, into memory, where no write fails: an empty builder is given
/// words that are in order.
#[verifier::external_body]
pub(crate) fn set_builder_extend<'s>(builder: &mut SetBuilder<Vec<u8>>, all: Union<'s>)
    requires
        builder_words(*old(builder)).len() == 0,
        ascending(union_words(all)),
    ensures
        builder_words(*final(builder)) == union_words(all),
{
    builder.extend_stream(all.into_stream()).unwrap();
}

/// `fst::SetBuilder::into_inner`, from memory, where no write fails: the bytes of the fst, over
/// which a stream yields the words.
#[verifier::external_body]
pub(crate) fn set_builder_into_bytes(builder: SetBuilder<Vec<u8>>) -> (bytes: Vec<u8>)
    requires
        ascending(builder_words(builder)),
    ensures
        bytes@ == fst_bytes(builder_words(builder)),
        fst_read(bytes@) == Some(builder_words(builder)),
{
    builder.into_inner().unwrap()
}

/// The fst of a set of words.
pub struct WordsFst {
    bytes: Vec<u8>,
}

impl WordsFst {
    #[verifier::type_invariant]
    spec fn inv(self) -> bool {
        is_words_fst(self.bytes@)
    }

    /// The bytes of the fst.
    pub closed spec fn view(&self) -> Seq<u8> {
        self.bytes@
    }

    /// The bytes of the fst, as a table holds them.
    pub fn as_bytes(&self) -> (bytes: &[u8])
        ensures
            bytes@ == self@,
            is_words_fst(bytes@),
    {
        proof {
            use_type_invariant(self);
        }
        self.bytes.as_slice()
    }
}

/// Words given out of lexicographic order.
#[derive(Clone, Copy, PartialEq, Eq, Structural, Debug)]
pub struct WordsOutOfOrder;

/// The words once one is added: as before where it is the last one over again.
pub open spec fn with_word(words: Seq<Seq<u8>>, word: Seq<u8>) -> Seq<Seq<u8>> {
    if words.len() > 0 && words.last() == word {
        words
    } else {
        words.push(word)
    }
}

/// The words once each of a list is added.
pub open spec fn words_given(list: Seq<Seq<u8>>) -> Seq<Seq<u8>>
    decreases list.len(),
{
    if list.len() == 0 {
        Seq::empty()
    } else {
        with_word(words_given(list.drop_last()), list.last())
    }
}

/// Of the keys of a table, which come in order, none is refused as a word, and the words are the
/// keys: so the fst that is built along with the table of the words holds exactly its words.
pub proof fn lemma_words_given(keys: Seq<Seq<u8>>, n: int)
    requires
        ascending(keys),
        0 <= n <= keys.len(),
    ensures
        words_given(keys.take(n)) == keys.take(n),
        0 < n < keys.len() ==> !lex_lt(keys[n], words_given(keys.take(n)).last()),
    decreases n,
{
    if n > 0 {
        let before = keys.take(n - 1);
        lemma_words_given(keys, n - 1);
        assert(keys.take(n).drop_last() =~= before);
        assert(keys.take(n) =~= before.push(keys[n - 1]));
        if n > 1 {
            assert(lex_lt(keys[n - 2], keys[n - 1]));
            lemma_lex_irreflexive(keys[n - 1]);
        }
        if n < keys.len() {
            assert(lex_lt(keys[n - 1], keys[n]));
            lemma_lex_asymmetric(keys[n - 1], keys[n]);
        }
    } else {
        assert(keys.take(0) =~= Seq::<Seq<u8>>::empty());
    }
}

/// Collects words, given in lexicographic order, into an fst.
pub struct WordsFstBuilder {
    builder: SetBuilder<Vec<u8>>,
}

impl WordsFstBuilder {
    #[verifier::type_invariant]
    spec fn inv(self) -> bool {
        ascending(builder_words(self.builder))
    }

    /// The words collected so far.
    pub closed spec fn view(&self) -> Seq<Seq<u8>> {
        builder_words(self.builder)
    }

    /// A builder without words.
    pub fn new() -> (builder: WordsFstBuilder)
        ensures
            builder@ == Seq::<Seq<u8>>::empty(),
    {
        WordsFstBuilder { builder: set_builder() }
    }

    /// Adds a word, which is not below the last one. The last one over again changes nothing.
    pub fn insert(self, word: &[u8]) -> (inserted: Result<WordsFstBuilder, WordsOutOfOrder>)
        ensures
            match inserted {
                Ok(builder) => {
                    &&& !(self@.len() > 0 && lex_lt(word@, self@.last()))
                    &&& builder@ == with_word(self@, word@)
                },
                Err(_) => self@.len() > 0 && lex_lt(word@, self@.last()),
            },
    {
        proof {
            use_type_invariant(&self);
        }
        let mut builder = self.builder;
        let ghost before = builder_words(builder);
        if set_builder_insert(&mut builder, word) {
            proof {
                let after = builder_words(builder);
                assert forall|i: int, j: int| 0 <= i < j < after.len() implies #[trigger] lex_lt(
                    after[i],
                    after[j],
                ) by {
                    if j == before.len() {
                        lemma_lex_total(before.last(), word@);
                        if i < before.len() - 1 {
                            assert(lex_lt(before[i], before[before.len() - 1]));
                            lemma_lex_transitive(before[i], before.last(), word@);
                        }
                    } else {
                        assert(lex_lt(before[i], before[j]));
                    }
                }
            }
            Ok(WordsFstBuilder { builder })
        } else {
            Err(WordsOutOfOrder)
        }
    }

    /// The fst of the words collected.
    pub fn into_fst(self) -> (words_fst: WordsFst)
        ensures
            words_fst@ == fst_bytes(self@),
            fst_words(words_fst@) == self@,
    {
        proof {
            use_type_invariant(&self);
        }
        WordsFst { bytes: set_builder_into_bytes(self.builder) }
    }
}

/// The bytes of values are those of each, at its place.
pub proof fn lemma_all_bytes<'a>(values: Seq<Cow<'a, [u8]>>, i: int)
    requires
        0 <= i < values.len(),
    ensures
        all_bytes(values).len() == values.len(),
        all_bytes(values)[i] == values[i]@,
{
}

} // verus!
