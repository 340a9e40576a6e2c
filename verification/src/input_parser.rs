//! The collecting pass: every placeholder of the template is put to the
//! operator, and the answers fill the word bank.

use vstd::prelude::*;
use vstd::string::*;
use crate::placeholder::{parse_placeholder, placeholder_of, Placeholder, PlaceholderView};
use crate::text::{decode, decoded, TemplateError, LINE_END};
use crate::word_bank::{
    has_word, lemma_with_word_in_pool_keeps_sets, oldest_word, pools_are_sets, with_word_in_pool,
    WordBank, WordBankEntry,
};

verus! {

/// `bank` once `identifier` is known to it: a new identifier gets an empty
/// pool and the given flag, a known one keeps what it has.
pub open spec fn with_identifier(
    bank: Map<Seq<char>, WordBankEntry>,
    identifier: Seq<char>,
    persistent: bool,
) -> Map<Seq<char>, WordBankEntry> {
    if bank.contains_key(identifier) {
        bank
    } else {
        bank.insert(identifier, WordBankEntry { pool: Seq::empty(), persistent })
    }
}

/// `bank` once `word` has been collected for `identifier`. The flag counts
/// only where the identifier is new. A word that the pool holds already does
/// not join it a second time.
pub open spec fn with_word(
    bank: Map<Seq<char>, WordBankEntry>,
    identifier: Seq<char>,
    word: Seq<char>,
    persistent: bool,
) -> Map<Seq<char>, WordBankEntry> {
    with_word_in_pool(with_identifier(bank, identifier, persistent), identifier, word)
}

/// `bank` once the words of `words` have been collected for `identifier`,
/// one after the other.
pub open spec fn with_words(
    bank: Map<Seq<char>, WordBankEntry>,
    identifier: Seq<char>,
    words: Seq<Seq<char>>,
    persistent: bool,
) -> Map<Seq<char>, WordBankEntry>
    decreases words.len(),
{
    if words.len() == 0 {
        bank
    } else {
        with_word(
            with_words(bank, identifier, words.drop_last(), persistent),
            identifier,
            words.last(),
            persistent,
        )
    }
}

/// Collecting a word keeps every pool free of repeated words.
pub proof fn lemma_with_word_keeps_sets(
    bank: Map<Seq<char>, WordBankEntry>,
    identifier: Seq<char>,
    word: Seq<char>,
    persistent: bool,
)
    requires
        pools_are_sets(bank),
    ensures
        pools_are_sets(with_word(bank, identifier, word, persistent)),
{
    let known = with_identifier(bank, identifier, persistent);
    assert forall|other: Seq<char>| #[trigger]
        known.contains_key(other) implies known[other].pool.no_duplicates() by {
        if other != identifier {
            assert(bank.contains_key(other));
        }
    }
    lemma_with_word_in_pool_keeps_sets(known, identifier, word);
}

/// The same answer given twice is stored once.
pub proof fn lemma_repeated_word_collapses(
    bank: Map<Seq<char>, WordBankEntry>,
    identifier: Seq<char>,
    word: Seq<char>,
    persistent: bool,
    again: bool,
)
    ensures
        with_word(with_word(bank, identifier, word, persistent), identifier, word, again)
            == with_word(bank, identifier, word, persistent),
{
    let once = with_word(bank, identifier, word, persistent);
    let known = with_identifier(bank, identifier, persistent);
    assert(once.contains_key(identifier));
    if known[identifier].pool.contains(word) {
    } else {
        let pool = known[identifier].pool.push(word);
        assert(pool[pool.len() - 1] == word);
    }
}

/// Distinct words collected for a new identifier make up its pool, in the
/// order in which they came.
pub proof fn lemma_distinct_words_fill_pool(
    bank: Map<Seq<char>, WordBankEntry>,
    identifier: Seq<char>,
    words: Seq<Seq<char>>,
    persistent: bool,
)
    requires
        !bank.contains_key(identifier),
        words.no_duplicates(),
        words.len() > 0,
    ensures
        with_words(bank, identifier, words, persistent) == bank.insert(
            identifier,
            (WordBankEntry { pool: words, persistent }),
        ),
    decreases words.len(),
{
    let earlier = words.drop_last();
    let filled = bank.insert(identifier, WordBankEntry { pool: words, persistent });
    if words.len() == 1 {
        assert(with_words(bank, identifier, earlier, persistent) == bank);
        assert(Seq::<Seq<char>>::empty().push(words.last()) =~= words);
        assert(with_word(bank, identifier, words.last(), persistent) =~= filled);
    } else {
        assert forall|i: int, j: int|
            0 <= i < earlier.len() && 0 <= j < earlier.len() && i != j implies earlier[i]
            != earlier[j] by {
            assert(earlier[i] == words[i]);
            assert(earlier[j] == words[j]);
        }
        lemma_distinct_words_fill_pool(bank, identifier, earlier, persistent);
        let before = bank.insert(identifier, WordBankEntry { pool: earlier, persistent });
        assert(with_identifier(before, identifier, persistent) == before);
        assert(!earlier.contains(words.last())) by {
            if earlier.contains(words.last()) {
                let i = choose|i: int| 0 <= i < earlier.len() && earlier[i] == words.last();
                assert(words[i] == words[words.len() - 1]);
            }
        }
        assert(earlier.push(words.last()) =~= words);
        assert(with_word(before, identifier, words.last(), persistent) =~= filled);
    }
}

/// Words collected for a new identifier give it an entry with the flag of
/// the first of them, and the first of them is the oldest word of its pool,
/// whatever words come after it.
pub proof fn lemma_first_word_stays_oldest(
    bank: Map<Seq<char>, WordBankEntry>,
    identifier: Seq<char>,
    words: Seq<Seq<char>>,
    persistent: bool,
)
    requires
        !bank.contains_key(identifier),
        words.len() > 0,
    ensures
        has_word(with_words(bank, identifier, words, persistent), identifier),
        oldest_word(with_words(bank, identifier, words, persistent), identifier) == words[0],
        with_words(bank, identifier, words, persistent)[identifier].persistent == persistent,
    decreases words.len(),
{
    let earlier = words.drop_last();
    if words.len() == 1 {
        assert(with_words(bank, identifier, earlier, persistent) == bank);
    } else {
        lemma_first_word_stays_oldest(bank, identifier, earlier, persistent);
        assert(earlier[0] == words[0]);
    }
}

/// What the placeholder with the given bytes asks the operator for, if
/// anything.
pub open spec fn asked(bytes: Seq<u8>) -> Result<Option<PlaceholderView>, TemplateError> {
    match decoded(bytes) {
        Ok(text) => Ok(placeholder_of(text)),
        Err(e) => Err(e),
    }
}

/// What the operator is shown for a placeholder with the given prompt.
pub open spec fn prompt_line_of(display_prompt: Seq<char>) -> Seq<char> {
    "Please input "@ + display_prompt + ": "@
}

/// The answer that a line of input holds: the line without its line end.
pub open spec fn answer_of(line: Seq<char>) -> Seq<char> {
    if line.len() > 0 && line.last() == LINE_END {
        line.drop_last()
    } else {
        line
    }
}

/// What the operator is shown for `placeholder`.
pub fn prompt_line(placeholder: &Placeholder) -> (line: String)
    ensures
        line@ == prompt_line_of(placeholder.display_prompt@),
{
    let mut line = String::from_str("Please input ");
    line.append(placeholder.display_prompt.as_str());
    line.append(": ");
    line
}

/// The answer that a line of input holds.
pub fn answer(line: &str) -> (word: String)
    ensures
        word@ == answer_of(line@),
{
    let len = line.unicode_len();
    if len > 0 && line.get_char(len - 1) == LINE_END {
        String::from_str(line.substring_char(0, len - 1))
    } else {
        String::from_str(line)
    }
}

/// Fills a word bank with the operator's answers.
pub struct InputParser {
    word_map: WordBank,
}

impl View for InputParser {
    type V = Map<Seq<char>, WordBankEntry>;

    closed spec fn view(&self) -> Map<Seq<char>, WordBankEntry> {
        self.word_map@
    }
}

impl InputParser {
    /// A parser whose bank is empty.
    pub fn new() -> (parser: InputParser)
        ensures
            parser@ == Map::<Seq<char>, WordBankEntry>::empty(),
            pools_are_sets(parser@),
    {
        InputParser { word_map: WordBank::new() }
    }

    /// Hands over the bank that was filled.
    pub fn get_word_map(self) -> (word_map: WordBank)
        ensures
            word_map@ == self@,
            pools_are_sets(word_map@),
    {
        proof {
            use_type_invariant(&self.word_map);
            self.word_map.lemma_pools_are_sets();
        }
        self.word_map
    }

    /// Makes `identifier` known to the bank. The flag is kept only where the
    /// identifier is new.
    pub fn add_identifier(&mut self, identifier: String, is_persistent: bool)
        ensures
            final(self)@ == with_identifier(old(self)@, identifier@, is_persistent),
            pools_are_sets(final(self)@),
    {
        if !self.word_map.contains_key(&identifier) {
            self.word_map.insert(identifier, is_persistent);
        }
        proof {
            use_type_invariant(&self.word_map);
            self.word_map.lemma_pools_are_sets();
        }
    }

    /// Collects `word` for `identifier`.
    pub fn add_word(&mut self, identifier: String, word: String, is_persistent: bool)
        ensures
            final(self)@ == with_word(old(self)@, identifier@, word@, is_persistent),
            pools_are_sets(final(self)@),
    {
        self.add_identifier(identifier.clone(), is_persistent);
        self.word_map.insert_word(&identifier, word);
    }

    /// Literal text asks for nothing.
    pub fn parse_preceding(&mut self, _buf: &[u8])
        ensures
            final(self)@ == old(self)@,
            pools_are_sets(final(self)@),
    {
        proof {
            use_type_invariant(&self.word_map);
            self.word_map.lemma_pools_are_sets();
        }
    }

    /// Reads the bytes inside a placeholder and says what to ask the
    /// operator for: nothing, where the result is `Ok(None)`.
    pub fn parse_containing(&self, buf: &[u8]) -> (placeholder: Result<
        Option<Placeholder>,
        TemplateError,
    >)
        ensures
            (match placeholder {
                Ok(Some(p)) => asked(buf@) == Ok::<Option<PlaceholderView>, TemplateError>(
                    Some(p@),
                ),
                Ok(None) => asked(buf@) == Ok::<Option<PlaceholderView>, TemplateError>(None),
                Err(e) => asked(buf@) == Err::<Option<PlaceholderView>, TemplateError>(e),
            }),
    {
        match decode(buf) {
            Ok(text) => Ok(parse_placeholder(text.as_str())),
            Err(e) => Err(e),
        }
    }

    /// Stores the answer that `line` holds under the identifier of
    /// `placeholder`.
    pub fn accept_answer(&mut self, placeholder: Placeholder, line: &str)
        ensures
            final(self)@ == with_word(
                old(self)@,
                placeholder.identifier@,
                answer_of(line@),
                placeholder.persistent,
            ),
            pools_are_sets(final(self)@),
    {
        let word = answer(line);
        self.add_word(placeholder.identifier, word, placeholder.persistent);
    }
}

} // verus!
