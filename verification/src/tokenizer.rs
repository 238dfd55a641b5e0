//! Cutting a text into words and what stands between them.
use vstd::prelude::*;

verus! {

/// What a token is.
#[derive(Clone, Copy, PartialEq, Eq, Structural, Debug)]
pub enum TokenType {
    /// A run of letters and digits.
    Word,
    /// A run of anything else.
    Separator,
}

/// Whether a character is a letter or a digit, as `char::is_alphanumeric` says.
pub uninterp spec fn alphanumeric(c: char) -> bool;

/// The lowercase form of a text, as `str::to_lowercase` gives it.
pub uninterp spec fn lowercase(text: Seq<char>) -> Seq<char>;

/// `char::is_alphanumeric`: a fixed property of each character.
pub assume_specification[ char::is_alphanumeric ](c: char) -> (is: bool)
    ensures
        is == alphanumeric(c),
;

/// `str::to_lowercase`: a text that the given one alone decides, in no locale.
pub assume_specification[ str::to_lowercase ](text: &str) -> (lower: String)
    ensures
        lower@ == lowercase(text@),
;

/// `String::push`: appends a character.
pub assume_specification[ String::push ](text: &mut String, c: char)
    ensures
        final(text)@ == old(text)@.push(c),
;

/// The type of the token that a character belongs to.
pub open spec fn type_of(c: char) -> TokenType {
    if alphanumeric(c) {
        TokenType::Word
    } else {
        TokenType::Separator
    }
}

/// The tokens of a text: a character goes on with the token before it where they are of one type,
/// and starts a token where they are not.
pub open spec fn tokens_of(text: Seq<char>) -> Seq<(TokenType, Seq<char>)>
    decreases text.len(),
{
    if text.len() == 0 {
        Seq::empty()
    } else {
        let before = tokens_of(text.drop_last());
        let c = text.last();
        if before.len() > 0 && before.last().0 == type_of(c) {
            before.drop_last().push((type_of(c), before.last().1.push(c)))
        } else {
            before.push((type_of(c), seq![c]))
        }
    }
}

/// The characters of tokens, one token after the other.
pub open spec fn text_of(tokens: Seq<(TokenType, Seq<char>)>) -> Seq<char>
    decreases tokens.len(),
{
    if tokens.len() == 0 {
        Seq::empty()
    } else {
        text_of(tokens.drop_last()) + tokens.last().1
    }
}

/// The texts of those tokens that are words.
pub open spec fn words_among(tokens: Seq<(TokenType, Seq<char>)>) -> Seq<Seq<char>>
    decreases tokens.len(),
{
    if tokens.len() == 0 {
        Seq::empty()
    } else if tokens.last().0 == TokenType::Word {
        words_among(tokens.drop_last()).push(tokens.last().1)
    } else {
        words_among(tokens.drop_last())
    }
}

/// The words of a text, in order.
pub open spec fn words_of(text: Seq<char>) -> Seq<Seq<char>> {
    words_among(tokens_of(text))
}

/// The tokens of a text are the text cut into its longest runs of one type: put together they are
/// the text, none is empty, each holds characters of its type only, and types alternate.
pub proof fn lemma_tokens_are_runs(text: Seq<char>)
    ensures
        text_of(tokens_of(text)) == text,
        forall|i: int|
            0 <= i < tokens_of(text).len() ==> (#[trigger] tokens_of(text)[i]).1.len() > 0,
        forall|i: int, j: int|
            0 <= i < tokens_of(text).len() && 0 <= j < tokens_of(text)[i].1.len() ==> type_of(
                #[trigger] tokens_of(text)[i].1[j],
            ) == tokens_of(text)[i].0,
        forall|i: int|
            0 < i < tokens_of(text).len() ==> (#[trigger] tokens_of(text)[i]).0 != tokens_of(
                text,
            )[i - 1].0,
    decreases text.len(),
{
    if text.len() > 0 {
        let rest = text.drop_last();
        let before = tokens_of(rest);
        let after = tokens_of(text);
        let c = text.last();
        lemma_tokens_are_runs(rest);
        assert(text =~= rest.push(c));
        assert(before.len() > 0 ==> text_of(before) == text_of(before.drop_last()) + before.last().1);
        if before.len() > 0 && before.last().0 == type_of(c) {
            assert(after.drop_last() =~= before.drop_last());
            assert forall|j: int| 0 <= j < after.last().1.len() implies type_of(
                #[trigger] after.last().1[j],
            ) == after.last().0 by {
                if j < before.last().1.len() {
                    assert(before[before.len() - 1].1[j] == after.last().1[j]);
                }
            }
            assert forall|i: int| 0 < i < after.len() implies (#[trigger] after[i]).0 != after[i
                - 1].0 by {
                assert(before[i].0 != before[i - 1].0);
            }
        } else {
            assert(after.drop_last() =~= before);
            assert forall|i: int| 0 < i < after.len() implies (#[trigger] after[i]).0 != after[i
                - 1].0 by {
                if i < before.len() {
                    assert(before[i].0 != before[i - 1].0);
                }
            }
        }
        assert(text_of(after) =~= text);
        assert forall|i: int, j: int|
            0 <= i < after.len() && 0 <= j < after[i].1.len() implies type_of(
            #[trigger] after[i].1[j],
        ) == after[i].0 by {
            if i < after.len() - 1 {
                assert(before[i].1[j] == after[i].1[j]);
            }
        }
        assert forall|i: int| 0 <= i < after.len() implies (#[trigger] after[i]).1.len() > 0 by {
            if i < after.len() - 1 {
                assert(before[i].1.len() > 0);
            }
        }
    }
}

/// Tokens as types and texts.
pub open spec fn token_views(tokens: Seq<(TokenType, String)>) -> Seq<(TokenType, Seq<char>)> {
    tokens.map_values(|token: (TokenType, String)| (token.0, token.1@))
}

/// Cuts a text into tokens.
pub fn simple_tokenizer(text: &str) -> (tokens: Vec<(TokenType, String)>)
    ensures
        token_views(tokens@) == tokens_of(text@),
{
    let mut tokens: Vec<(TokenType, String)> = Vec::new();
    let mut current: Option<(TokenType, String)> = None;
    assert(token_views(tokens@) =~= Seq::<(TokenType, Seq<char>)>::empty());
    for c in it: text.chars()
        invariant
            it.seq() == text@,
            match current {
                None => {
                    &&& it.index() == 0
                    &&& tokens@.len() == 0
                },
                Some(token) => tokens_of(text@.take(it.index() as int)) == token_views(
                    tokens@,
                ).push((token.0, token.1@)),
            },
    {
        let ghost n = it.index() as int;
        let ghost seen = text@.take(n);
        proof {
            assert(text@.take(n + 1).drop_last() =~= seen);
            assert(text@.take(n + 1).last() == c);
        }
        let token_type = if c.is_alphanumeric() {
            TokenType::Word
        } else {
            TokenType::Separator
        };
        match current {
            Some((last_type, last_text)) => {
                if last_type == token_type {
                    let mut longer = last_text;
                    longer.push(c);
                    proof {
                        let before = tokens_of(seen);
                        assert(before.drop_last() =~= token_views(tokens@));
                    }
                    current = Some((token_type, longer));
                } else {
                    let ghost done = token_views(tokens@);
                    tokens.push((last_type, last_text));
                    assert(token_views(tokens@) =~= done.push((last_type, last_text@)));
                    let mut first = String::new();
                    first.push(c);
                    assert(first@ =~= seq![c]);
                    current = Some((token_type, first));
                }
            },
            None => {
                let mut first = String::new();
                first.push(c);
                assert(first@ =~= seq![c]);
                assert(tokens_of(seen) =~= Seq::<(TokenType, Seq<char>)>::empty());
                assert(token_views(tokens@) =~= Seq::<(TokenType, Seq<char>)>::empty());
                current = Some((token_type, first));
            },
        }
        let ghost token = current.unwrap();
        assert(tokens_of(text@.take(n + 1)) =~= token_views(tokens@).push((token.0, token.1@)));
    }
    assert(text@.take(text@.len() as int) =~= text@);
    match current {
        Some(token) => {
            let ghost done = token_views(tokens@);
            tokens.push(token);
            assert(token_views(tokens@) =~= done.push((token.0, token.1@)));
        },
        None => {
            assert(text@ =~= Seq::<char>::empty());
            assert(token_views(tokens@) =~= Seq::<(TokenType, Seq<char>)>::empty());
        },
    }
    tokens
}

/// The text of a token that is a word.
pub fn only_token<'a>(token: (TokenType, &'a str)) -> (word: Option<&'a str>)
    ensures
        match word {
            Some(word) => token.0 == TokenType::Word && word@ == token.1@,
            None => token.0 == TokenType::Separator,
        },
{
    match token.0 {
        TokenType::Word => Some(token.1),
        TokenType::Separator => None,
    }
}

/// The words among the first tokens are the first words among all tokens.
pub proof fn lemma_words_among_first(tokens: Seq<(TokenType, Seq<char>)>, n: int)
    requires
        0 <= n <= tokens.len(),
    ensures
        words_among(tokens.take(n)).is_prefix_of(words_among(tokens)),
    decreases tokens.len(),
{
    if n == tokens.len() {
        assert(tokens.take(n) =~= tokens);
    } else {
        let rest = tokens.drop_last();
        lemma_words_among_first(rest, n);
        assert(rest.take(n) =~= tokens.take(n));
    }
}

/// Whether a letter or digit stands at a place with none right before it.
pub open spec fn starts_word(text: Seq<char>, i: int) -> bool {
    alphanumeric(text[i]) && (i == 0 || !alphanumeric(text[i - 1]))
}

/// The number of words that start before a place.
pub open spec fn starts_before(text: Seq<char>, end: int) -> nat
    decreases end,
{
    if end <= 0 {
        0
    } else if starts_word(text, end - 1) {
        starts_before(text, end - 1) + 1
    } else {
        starts_before(text, end - 1)
    }
}

/// Whether letters and digits, and nothing else, stand from one place to another, with none right
/// before and none right after.
pub open spec fn is_run(text: Seq<char>, a: int, b: int) -> bool {
    &&& 0 <= a < b <= text.len()
    &&& forall|i: int| a <= i < b ==> alphanumeric(#[trigger] text[i])
    &&& a > 0 ==> !alphanumeric(text[a - 1])
    &&& b < text.len() ==> !alphanumeric(text[b])
}

/// The words of a text are its runs of letters and digits, all of them and in order: the run that
/// starts at a place is the word after those that start before the place.
pub proof fn lemma_words_are_runs(text: Seq<char>)
    ensures
        words_of(text).len() == starts_before(text, text.len() as int),
        forall|a: int, b: int| #[trigger]
            is_run(text, a, b) ==> {
                &&& starts_before(text, a) < words_of(text).len()
                &&& words_of(text)[starts_before(text, a) as int] == text.subrange(a, b)
            },
    decreases text.len(),
{
    if text.len() > 0 {
        let rest = text.drop_last();
        let n = rest.len() as int;
        let c = text.last();
        let before = words_of(rest);
        let after = words_of(text);
        lemma_words_are_runs(rest);
        lemma_words_step(text);
        lemma_starts_alike(rest, text, n);
        assert forall|a: int, b: int| #[trigger] is_run(text, a, b) implies {
            &&& starts_before(text, a) < after.len()
            &&& after[starts_before(text, a) as int] == text.subrange(a, b)
        } by {
            lemma_starts_alike(rest, text, a);
            if b <= n {
                assert(is_run(rest, a, b)) by {
                    assert forall|i: int| a <= i < b implies alphanumeric(#[trigger] rest[i]) by {
                        assert(text[i] == rest[i]);
                    }
                }
                assert(rest.subrange(a, b) =~= text.subrange(a, b));
                if alphanumeric(c) && n > 0 && alphanumeric(rest[n - 1]) {
                    assert(b < n);
                    lemma_starts_in_run(rest, a, b);
                    lemma_start_after_gap(rest, b, n);
                }
            } else {
                assert(text[n] == c);
                if n > 0 && alphanumeric(rest[n - 1]) {
                    assert(a < n) by {
                        if a == n {
                            assert(text[a - 1] == rest[n - 1]);
                        }
                    }
                    assert(is_run(rest, a, n)) by {
                        assert forall|i: int| a <= i < n implies alphanumeric(#[trigger] rest[i]) by {
                            assert(text[i] == rest[i]);
                        }
                    }
                    lemma_starts_in_run(rest, a, n);
                    assert(text.subrange(a, b) =~= rest.subrange(a, n).push(c));
                } else {
                    assert(a == n) by {
                        if a < n {
                            assert(alphanumeric(text[n - 1]));
                        }
                    }
                    assert(text.subrange(a, b) =~= seq![c]);
                }
            }
        }
    } else {
        assert(tokens_of(text).len() == 0);
    }
}

/// What one more character does to the words.
proof fn lemma_words_step(text: Seq<char>)
    requires
        text.len() > 0,
    ensures
        ({
            let rest = text.drop_last();
            let c = text.last();
            let before = words_of(rest);
            let after = words_of(text);
            if !alphanumeric(c) {
                after == before
            } else if rest.len() > 0 && alphanumeric(rest.last()) {
                &&& before.len() > 0
                &&& after == before.drop_last().push(before.last().push(c))
            } else {
                after == before.push(seq![c])
            }
        }),
{
    let rest = text.drop_last();
    let c = text.last();
    let before = tokens_of(rest);
    let after = tokens_of(text);
    if rest.len() > 0 {
        assert(before.len() > 0);
        assert(before.last().0 == type_of(rest.last()));
    } else {
        assert(before.len() == 0);
    }
    if before.len() > 0 && before.last().0 == type_of(c) {
        assert(after.drop_last() =~= before.drop_last());
        if alphanumeric(c) {
            let words = words_among(before.drop_last());
            assert(words_of(rest) == words.push(before.last().1));
            assert(words_of(rest).drop_last() =~= words);
        }
    } else {
        assert(after.drop_last() =~= before);
    }
}

/// Words start at the same places of texts that begin alike.
proof fn lemma_starts_alike(rest: Seq<char>, text: Seq<char>, end: int)
    requires
        end <= rest.len() <= text.len(),
        forall|i: int| 0 <= i < rest.len() ==> rest[i] == text[i],
    ensures
        starts_before(rest, end) == starts_before(text, end),
    decreases end,
{
    if end > 0 {
        lemma_starts_alike(rest, text, end - 1);
    }
}

/// One word starts in a run.
proof fn lemma_starts_in_run(text: Seq<char>, a: int, b: int)
    requires
        is_run(text, a, b),
    ensures
        starts_before(text, b) == starts_before(text, a) + 1,
{
    lemma_starts_from(text, a, b);
}

proof fn lemma_starts_from(text: Seq<char>, a: int, b: int)
    requires
        0 <= a < b <= text.len(),
        forall|i: int| a <= i < b ==> alphanumeric(#[trigger] text[i]),
        a > 0 ==> !alphanumeric(text[a - 1]),
    ensures
        starts_before(text, b) == starts_before(text, a) + 1,
    decreases b,
{
    assert(alphanumeric(text[b - 1]));
    if b - 1 > a {
        assert(alphanumeric(text[b - 2]));
        lemma_starts_from(text, a, b - 1);
    }
}

/// Between a character that is in no word and one that is, a word starts.
proof fn lemma_start_after_gap(text: Seq<char>, gap: int, end: int)
    requires
        0 <= gap < end <= text.len(),
        !alphanumeric(text[gap]),
        alphanumeric(text[end - 1]),
    ensures
        starts_before(text, end) > starts_before(text, gap),
    decreases end,
{
    lemma_starts_grow(text, gap, end - 1);
    if !starts_word(text, end - 1) {
        lemma_start_after_gap(text, gap, end - 1);
    }
}

proof fn lemma_starts_grow(text: Seq<char>, a: int, b: int)
    requires
        a <= b,
    ensures
        starts_before(text, a) <= starts_before(text, b),
    decreases b - a,
{
    if a < b && b > 0 {
        lemma_starts_grow(text, a, b - 1);
    }
}

} // verus!
