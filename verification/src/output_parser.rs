//! The substituting pass: literal text is passed through, and every
//! placeholder is replaced by a word from the bank.

use vstd::prelude::*;
use vstd::string::*;
use crate::input_parser::{
    lemma_distinct_words_fill_pool, lemma_first_word_stays_oldest, with_words,
};
use crate::placeholder::{identifier_of, placeholder_identifier};
use crate::segmenter::{
    ends_in_escape, has_delimiter, lemma_delimiter_ends_segment, lemma_escaped_delimiter,
    lemma_modes_alternate, lemma_scan_plain, lemma_unterminated_is_dropped, parse_file,
    segments_of, ParseMode, Segment, SegmentView, ESCAPE_CHAR, PROMPT_START,
};
use crate::text::{decode, decoded, TemplateError, LINE_END};
use crate::word_bank::{
    has_word, lemma_without_oldest_word_keeps_sets, oldest_word, pools_are_sets,
    without_oldest_word, WordBank, WordBankEntry,
};

verus! {

/// `bank` once a word has been taken for `identifier`. A persistent entry
/// stays as it is. Any other entry loses its oldest word, and leaves the
/// bank with its last one. Where there is no word to take, nothing changes.
pub open spec fn after_take(
    bank: Map<Seq<char>, WordBankEntry>,
    identifier: Seq<char>,
) -> Map<Seq<char>, WordBankEntry> {
    if !has_word(bank, identifier) || bank[identifier].persistent {
        bank
    } else if bank[identifier].pool.len() == 1 {
        bank.remove(identifier)
    } else {
        without_oldest_word(bank, identifier)
    }
}

/// What substituting has produced, and the bank that it has left.
pub struct Rendering {
    pub output: Result<Seq<char>, TemplateError>,
    pub bank: Map<Seq<char>, WordBankEntry>,
}

/// `rendering` with `text` in front of its output.
pub open spec fn preceded_by(text: Seq<char>, rendering: Rendering) -> Rendering {
    Rendering {
        output: match rendering.output {
            Ok(rest) => Ok(text + rest),
            Err(e) => Err(e),
        },
        bank: rendering.bank,
    }
}

/// What one segment renders as. Literal text stands for itself. The text of
/// a placeholder resolves to an identifier, and the oldest word of that
/// identifier is taken from the bank.
pub open spec fn rendered_segment(
    segment: SegmentView,
    bank: Map<Seq<char>, WordBankEntry>,
) -> Rendering {
    match decoded(segment.bytes) {
        Err(e) => Rendering { output: Err(e), bank },
        Ok(text) => match segment.mode {
            ParseMode::Preceding => Rendering { output: Ok(text), bank },
            ParseMode::Containing => {
                let identifier = identifier_of(text);
                if has_word(bank, identifier) {
                    Rendering {
                        output: Ok(oldest_word(bank, identifier)),
                        bank: after_take(bank, identifier),
                    }
                } else {
                    Rendering { output: Err(TemplateError::UnknownIdentifier), bank }
                }
            },
        },
    }
}

/// What a run of segments renders as: each segment in turn, every one on the
/// bank that the one before it has left, up to the first that fails.
pub open spec fn rendered(
    segments: Seq<SegmentView>,
    bank: Map<Seq<char>, WordBankEntry>,
) -> Rendering
    decreases segments.len(),
{
    if segments.len() == 0 {
        Rendering { output: Ok(Seq::empty()), bank }
    } else {
        let first = rendered_segment(segments.first(), bank);
        match first.output {
            Err(e) => first,
            Ok(text) => preceded_by(text, rendered(segments.drop_first(), first.bank)),
        }
    }
}

/// The document that a template renders as: what its segments render as,
/// and a line end after it.
pub open spec fn document(source: Seq<u8>, bank: Map<Seq<char>, WordBankEntry>) -> Result<
    Seq<char>,
    TemplateError,
> {
    with_line_end(rendered(segments_of(source), bank).output)
}

/// `output` with a line end after its text.
pub open spec fn with_line_end(output: Result<Seq<char>, TemplateError>) -> Result<
    Seq<char>,
    TemplateError,
> {
    match output {
        Ok(text) => Ok(text.push(LINE_END)),
        Err(e) => Err(e),
    }
}

/// The literal text of segments that hold no placeholder: the text of the
/// first of them, and no text where there is none.
pub open spec fn literal_text(segments: Seq<SegmentView>) -> Result<Seq<char>, TemplateError> {
    if segments.len() == 0 {
        Ok(Seq::empty())
    } else {
        decoded(segments[0].bytes)
    }
}

/// Replaces placeholders by words from its bank.
pub struct OutputParser {
    word_map: WordBank,
}

impl View for OutputParser {
    type V = Map<Seq<char>, WordBankEntry>;

    closed spec fn view(&self) -> Map<Seq<char>, WordBankEntry> {
        self.word_map@
    }
}

impl OutputParser {
    /// A parser that takes its words from `word_map`.
    pub fn new(word_map: WordBank) -> (parser: OutputParser)
        ensures
            parser@ == word_map@,
            pools_are_sets(parser@),
    {
        proof {
            use_type_invariant(&word_map);
            word_map.lemma_pools_are_sets();
        }
        OutputParser { word_map }
    }

    /// The bank as it stands.
    pub fn word_map(&self) -> (word_map: &WordBank)
        ensures
            word_map@ == self@,
            pools_are_sets(word_map@),
    {
        proof {
            use_type_invariant(&self.word_map);
            self.word_map.lemma_pools_are_sets();
        }
        &self.word_map
    }

    /// Takes a word for the identifier `prompt`: the one that has been in
    /// its pool longest. Fails where the bank has no word for it.
    pub fn take_word(&mut self, prompt: String) -> (word: Result<String, TemplateError>)
        ensures
            final(self)@ == after_take(old(self)@, prompt@),
            pools_are_sets(final(self)@),
            (match word {
                Ok(w) => has_word(old(self)@, prompt@) && w@ == oldest_word(old(self)@, prompt@),
                Err(e) => e == TemplateError::UnknownIdentifier && !has_word(old(self)@, prompt@),
            }),
    {
        proof {
            use_type_invariant(&self.word_map);
            self.word_map.lemma_pools_are_sets();
        }
        match self.word_map.first_word(&prompt) {
            None => Err(TemplateError::UnknownIdentifier),
            Some(word) => {
                if !self.word_map.is_persistent(&prompt) {
                    self.word_map.remove_first_word(&prompt);
                    if self.word_map.pool_len(&prompt) == 0 {
                        self.word_map.remove(&prompt);
                        assert(self@ =~= old(self)@.remove(prompt@));
                    }
                }
                Ok(word)
            },
        }
    }

    /// Renders literal text: the text that the bytes hold.
    pub fn parse_preceding(&mut self, buf: &[u8]) -> (text: Result<String, TemplateError>)
        ensures
            final(self)@ == old(self)@,
            pools_are_sets(final(self)@),
            (match text {
                Ok(t) => decoded(buf@) == Ok::<Seq<char>, TemplateError>(t@),
                Err(e) => decoded(buf@) == Err::<Seq<char>, TemplateError>(e),
            }),
    {
        proof {
            use_type_invariant(&self.word_map);
            self.word_map.lemma_pools_are_sets();
        }
        decode(buf)
    }

    /// Renders a placeholder: a word taken for the identifier that the bytes
    /// inside it resolve to.
    pub fn parse_containing(&mut self, buf: &[u8]) -> (text: Result<String, TemplateError>)
        ensures
            final(self)@ == rendered_segment(
                (SegmentView { mode: ParseMode::Containing, bytes: buf@ }),
                old(self)@,
            ).bank,
            pools_are_sets(final(self)@),
            (match text {
                Ok(t) => rendered_segment(
                    (SegmentView { mode: ParseMode::Containing, bytes: buf@ }),
                    old(self)@,
                ).output == Ok::<Seq<char>, TemplateError>(t@),
                Err(e) => rendered_segment(
                    (SegmentView { mode: ParseMode::Containing, bytes: buf@ }),
                    old(self)@,
                ).output == Err::<Seq<char>, TemplateError>(e),
            }),
    {
        proof {
            use_type_invariant(&self.word_map);
            self.word_map.lemma_pools_are_sets();
        }
        match decode(buf) {
            Err(e) => Err(e),
            Ok(text) => {
                let identifier = placeholder_identifier(text.as_str());
                self.take_word(identifier)
            },
        }
    }

    /// Renders segments in turn and stops at the first that fails.
    pub fn parse_segments(&mut self, segments: &Vec<Segment>) -> (text: Result<
        String,
        TemplateError,
    >)
        ensures
            final(self)@ == rendered(segments.deep_view(), old(self)@).bank,
            pools_are_sets(final(self)@),
            (match text {
                Ok(t) => rendered(segments.deep_view(), old(self)@).output == Ok::<
                    Seq<char>,
                    TemplateError,
                >(t@),
                Err(e) => rendered(segments.deep_view(), old(self)@).output == Err::<
                    Seq<char>,
                    TemplateError,
                >(e),
            }),
    {
        let ghost all = segments.deep_view();
        proof {
            use_type_invariant(&self.word_map);
            self.word_map.lemma_pools_are_sets();
        }
        let mut output = String::new();
        let mut i: usize = 0;
        proof {
            assert(all.skip(0) == all);
            assert(Seq::<char>::empty() + rendered(all, self@).output->Ok_0 =~= rendered(
                all,
                self@,
            ).output->Ok_0);
        }
        while i < segments.len()
            invariant
                i <= segments.len(),
                all == segments.deep_view(),
                pools_are_sets(self@),
                rendered(all, old(self)@) == preceded_by(
                    output@,
                    rendered(all.skip(i as int), self@),
                ),
            decreases segments.len() - i,
        {
            let segment = &segments[i];
            let ghost rest = all.skip(i as int);
            let ghost before = self@;
            let ghost written = output@;
            proof {
                assert(rest.first() == segment@);
                assert(rest.drop_first() == all.skip(i + 1));
            }
            let piece = match segment.mode {
                ParseMode::Preceding => self.parse_preceding(segment.bytes.as_slice()),
                ParseMode::Containing => self.parse_containing(segment.bytes.as_slice()),
            };
            match piece {
                Err(e) => {
                    return Err(e);
                },
                Ok(text) => {
                    output.append(text.as_str());
                    proof {
                        let tail = rendered(all.skip(i + 1), self@);
                        assert(rendered(rest, before) == preceded_by(text@, tail));
                        if tail.output is Ok {
                            assert(written + (text@ + tail.output->Ok_0) =~= (written + text@)
                                + tail.output->Ok_0);
                        }
                    }
                },
            }
            i += 1;
        }
        proof {
            assert(output@ + Seq::<char>::empty() =~= output@);
        }
        Ok(output)
    }
}

/// Renders the template `source` with the words of `word_map`: the text of
/// the finished document, line end included.
pub fn substitute_words_in(source: &[u8], word_map: WordBank) -> (text: Result<
    String,
    TemplateError,
>)
    ensures
        (match text {
            Ok(t) => document(source@, word_map@) == Ok::<Seq<char>, TemplateError>(t@),
            Err(e) => document(source@, word_map@) == Err::<Seq<char>, TemplateError>(e),
        }),
{
    let segments = parse_file(source);
    let mut output_parser = OutputParser::new(word_map);
    match output_parser.parse_segments(&segments) {
        Ok(mut text) => {
            let ghost rendered = text@;
            text.append("\n");
            proof {
                reveal_strlit("\n");
                assert(text@ =~= rendered.push(LINE_END));
            }
            Ok(text)
        },
        Err(e) => Err(e),
    }
}

/// `bank` once a word has been taken for `identifier` `count` times in a
/// row.
pub open spec fn after_takes(
    bank: Map<Seq<char>, WordBankEntry>,
    identifier: Seq<char>,
    count: nat,
) -> Map<Seq<char>, WordBankEntry>
    decreases count,
{
    if count == 0 {
        bank
    } else {
        after_take(after_takes(bank, identifier, (count - 1) as nat), identifier)
    }
}

/// Whether every placeholder among `segments` that finds a word in `bank`
/// finds it in a persistent entry.
pub open spec fn only_persistent(
    segments: Seq<SegmentView>,
    bank: Map<Seq<char>, WordBankEntry>,
) -> bool {
    forall|i: int|
        0 <= i < segments.len() && (#[trigger] segments[i]).mode == ParseMode::Containing
            ==> match decoded(segments[i].bytes) {
            Ok(text) => has_word(bank, identifier_of(text)) ==> bank[identifier_of(
                text,
            )].persistent,
            Err(_) => true,
        }
}

/// Taking a word keeps every pool free of repeated words.
pub proof fn lemma_after_take_keeps_sets(
    bank: Map<Seq<char>, WordBankEntry>,
    identifier: Seq<char>,
)
    requires
        pools_are_sets(bank),
    ensures
        pools_are_sets(after_take(bank, identifier)),
{
    lemma_without_oldest_word_keeps_sets(bank, identifier);
    let after = after_take(bank, identifier);
    assert forall|other: Seq<char>| #[trigger]
        after.contains_key(other) implies after[other].pool.no_duplicates() by {
        assert(bank.contains_key(other));
    }
}

/// Taking a word touches no entry but that of the identifier it is taken
/// for, and never a persistent one: such an entry is neither removed nor
/// does it shrink.
pub proof fn lemma_take_spares_entries(
    bank: Map<Seq<char>, WordBankEntry>,
    identifier: Seq<char>,
    other: Seq<char>,
)
    requires
        bank.contains_key(other),
        other != identifier || bank[other].persistent,
    ensures
        after_take(bank, identifier).contains_key(other),
        after_take(bank, identifier)[other] == bank[other],
{
}

/// The words of a persistent identifier are not used up: however often a
/// word is taken for it, the bank stays as it is, and so the word taken is
/// the same every time, whatever else its pool holds.
pub proof fn lemma_persistent_word_stays(
    bank: Map<Seq<char>, WordBankEntry>,
    identifier: Seq<char>,
    count: nat,
)
    requires
        bank.contains_key(identifier),
        bank[identifier].persistent,
    ensures
        after_takes(bank, identifier, count) == bank,
        oldest_word(after_takes(bank, identifier, count), identifier) == oldest_word(
            bank,
            identifier,
        ),
    decreases count,
{
    if count > 0 {
        lemma_persistent_word_stays(bank, identifier, (count - 1) as nat);
    }
}

/// However many answers were collected for a new persistent identifier,
/// and however often a word is taken for it, the word is the same every
/// time: the first of the answers.
pub proof fn lemma_persistent_answers_give_one_word(
    bank: Map<Seq<char>, WordBankEntry>,
    identifier: Seq<char>,
    words: Seq<Seq<char>>,
    count: nat,
)
    requires
        !bank.contains_key(identifier),
        words.len() > 0,
    ensures
        has_word(
            after_takes(with_words(bank, identifier, words, true), identifier, count),
            identifier,
        ),
        oldest_word(
            after_takes(with_words(bank, identifier, words, true), identifier, count),
            identifier,
        ) == words[0],
{
    lemma_first_word_stays_oldest(bank, identifier, words, true);
    lemma_persistent_word_stays(with_words(bank, identifier, words, true), identifier, count);
}

proof fn lemma_takes_from_pool(
    bank: Map<Seq<char>, WordBankEntry>,
    identifier: Seq<char>,
    pool: Seq<Seq<char>>,
    count: nat,
)
    requires
        !bank.contains_key(identifier),
        count <= pool.len(),
        pool.len() > 0,
    ensures
        after_takes(
            bank.insert(identifier, (WordBankEntry { pool, persistent: false })),
            identifier,
            count,
        ) == (if count < pool.len() {
            bank.insert(
                identifier,
                (WordBankEntry { pool: pool.skip(count as int), persistent: false }),
            )
        } else {
            bank
        }),
    decreases count,
{
    let filled = bank.insert(identifier, WordBankEntry { pool, persistent: false });
    if count == 0 {
        assert(pool.skip(0) =~= pool);
    } else {
        lemma_takes_from_pool(bank, identifier, pool, (count - 1) as nat);
        let left = pool.skip(count - 1);
        let before = bank.insert(identifier, WordBankEntry { pool: left, persistent: false });
        assert(after_takes(filled, identifier, (count - 1) as nat) == before);
        assert(has_word(before, identifier));
        if count < pool.len() {
            assert(left.drop_first() =~= pool.skip(count as int));
            assert(after_take(before, identifier) =~= bank.insert(
                identifier,
                WordBankEntry { pool: pool.skip(count as int), persistent: false },
            ));
        } else {
            assert(left.len() == 1);
            assert(after_take(before, identifier) =~= bank);
        }
    }
}

/// Distinct words collected for a new identifier that is not persistent are
/// used up one at a time: as many takes as there are words succeed, each
/// hands out another of the words, and after the last of them the bank is
/// what it was before the words came in, with no entry for the identifier.
pub proof fn lemma_one_shot_words_are_used_up(
    bank: Map<Seq<char>, WordBankEntry>,
    identifier: Seq<char>,
    words: Seq<Seq<char>>,
)
    requires
        !bank.contains_key(identifier),
        words.no_duplicates(),
    ensures
        forall|k: nat|
            k < words.len() ==> has_word(
                #[trigger] after_takes(with_words(bank, identifier, words, false), identifier, k),
                identifier,
            ) && oldest_word(
                after_takes(with_words(bank, identifier, words, false), identifier, k),
                identifier,
            ) == words[k as int],
        after_takes(with_words(bank, identifier, words, false), identifier, words.len()) == bank,
        !has_word(
            after_takes(with_words(bank, identifier, words, false), identifier, words.len()),
            identifier,
        ),
{
    let filled = with_words(bank, identifier, words, false);
    if words.len() > 0 {
        lemma_distinct_words_fill_pool(bank, identifier, words, false);
        assert forall|k: nat| k < words.len() implies has_word(
            #[trigger] after_takes(filled, identifier, k),
            identifier,
        ) && oldest_word(after_takes(filled, identifier, k), identifier) == words[k as int] by {
            lemma_takes_from_pool(bank, identifier, words, k);
        }
        lemma_takes_from_pool(bank, identifier, words, words.len());
    }
}

/// Rendering that takes words from persistent entries only leaves the bank
/// as it found it. So rendering the same segments once more, on the bank
/// that the first run has left, gives the same output.
pub proof fn lemma_persistent_rendering_repeats(
    segments: Seq<SegmentView>,
    bank: Map<Seq<char>, WordBankEntry>,
)
    requires
        only_persistent(segments, bank),
    ensures
        rendered(segments, bank).bank == bank,
        rendered(segments, rendered(segments, bank).bank) == rendered(segments, bank),
    decreases segments.len(),
{
    if segments.len() > 0 {
        let rest = segments.drop_first();
        assert(segments[0] == segments.first());
        assert(rendered_segment(segments.first(), bank).bank == bank);
        assert forall|i: int|
            0 <= i < rest.len() && (#[trigger] rest[i]).mode
                == ParseMode::Containing implies match decoded(rest[i].bytes) {
            Ok(text) => has_word(bank, identifier_of(text)) ==> bank[identifier_of(
                text,
            )].persistent,
            Err(_) => true,
        } by {
            assert(rest[i] == segments[i + 1]);
        }
        lemma_persistent_rendering_repeats(rest, bank);
    }
}

/// A template without any placeholder has at most one segment, of literal
/// text. It renders as that text and a line end, whatever the bank holds,
/// and the bank stays as it is.
pub proof fn lemma_document_without_placeholders(
    source: Seq<u8>,
    bank: Map<Seq<char>, WordBankEntry>,
)
    requires
        forall|i: int|
            0 <= i < segments_of(source).len() ==> (#[trigger] segments_of(source)[i]).mode
                == ParseMode::Preceding,
    ensures
        segments_of(source).len() <= 1,
        rendered(segments_of(source), bank).bank == bank,
        document(source, bank) == with_line_end(literal_text(segments_of(source))),
{
    let segments = segments_of(source);
    if segments.len() >= 2 {
        lemma_modes_alternate(ParseMode::Preceding, Seq::empty(), source, 1);
        assert(segments[1].mode == ParseMode::Preceding);
    }
    if segments.len() == 0 {
        assert(rendered(segments, bank).output == Ok::<Seq<char>, TemplateError>(Seq::empty()));
    } else {
        let first = segments.first();
        assert(first == segments[0]);
        assert(first.mode == ParseMode::Preceding);
        assert(segments.drop_first().len() == 0);
        assert(rendered(segments.drop_first(), bank) == Rendering {
            output: Ok(Seq::empty()),
            bank,
        });
        match decoded(first.bytes) {
            Ok(text) => {
                assert(text + Seq::<char>::empty() =~= text);
                assert(rendered(segments, bank).output == Ok::<Seq<char>, TemplateError>(text));
            },
            Err(e) => {},
        }
    }
}

/// Literal text up to the first opening delimiter renders as itself, with a
/// line end after it: the text holds no opening delimiter and no escape
/// byte in front of the one that follows it, and no placeholder is closed
/// after it.
pub proof fn lemma_plain_text_renders_as_itself(
    plain: Seq<u8>,
    unclosed: Seq<u8>,
    bank: Map<Seq<char>, WordBankEntry>,
)
    requires
        !has_delimiter(ParseMode::Preceding, plain),
        !ends_in_escape(plain),
        !has_delimiter(ParseMode::Containing, unclosed),
    ensures
        segments_of(plain + seq![PROMPT_START] + unclosed) == seq![
            (SegmentView { mode: ParseMode::Preceding, bytes: plain }),
        ],
        document(plain + seq![PROMPT_START] + unclosed, bank) == with_line_end(decoded(plain)),
{
    let source = plain + seq![PROMPT_START] + unclosed;
    let only = SegmentView { mode: ParseMode::Preceding, bytes: plain };
    assert(Seq::<u8>::empty() + plain =~= plain);
    lemma_delimiter_ends_segment(ParseMode::Preceding, Seq::empty(), plain, unclosed);
    lemma_unterminated_is_dropped(ParseMode::Containing, Seq::empty(), unclosed);
    assert(seq![only] + Seq::<SegmentView>::empty() =~= seq![only]);
    assert(segments_of(source) == seq![only]);
    lemma_document_without_placeholders(source, bank);
}

/// Text without an opening delimiter is never emitted: a template that
/// holds none renders as an empty line.
pub proof fn lemma_unclosed_text_renders_empty(
    source: Seq<u8>,
    bank: Map<Seq<char>, WordBankEntry>,
)
    requires
        !has_delimiter(ParseMode::Preceding, source),
    ensures
        segments_of(source) == Seq::<SegmentView>::empty(),
        document(source, bank) == Ok::<Seq<char>, TemplateError>(seq![LINE_END]),
{
    lemma_unterminated_is_dropped(ParseMode::Preceding, Seq::empty(), source);
    lemma_document_without_placeholders(source, bank);
}

/// An escaped opening delimiter in literal text renders as the delimiter
/// itself: the escape byte is gone, and the text on both sides of it is one
/// segment still.
pub proof fn lemma_escaped_delimiter_renders_literally(
    before: Seq<u8>,
    after: Seq<u8>,
    unclosed: Seq<u8>,
    bank: Map<Seq<char>, WordBankEntry>,
)
    requires
        !has_delimiter(ParseMode::Preceding, before),
        !has_delimiter(ParseMode::Preceding, after),
        !ends_in_escape(after),
        !has_delimiter(ParseMode::Containing, unclosed),
    ensures
        segments_of(
            before + seq![ESCAPE_CHAR, PROMPT_START] + after + seq![PROMPT_START] + unclosed,
        ) == seq![
            (SegmentView {
                mode: ParseMode::Preceding,
                bytes: before + seq![PROMPT_START] + after,
            }),
        ],
        document(
            before + seq![ESCAPE_CHAR, PROMPT_START] + after + seq![PROMPT_START] + unclosed,
            bank,
        ) == with_line_end(decoded(before + seq![PROMPT_START] + after)),
{
    let mode = ParseMode::Preceding;
    let source = before + seq![ESCAPE_CHAR, PROMPT_START] + after + seq![PROMPT_START] + unclosed;
    let tail = after + seq![PROMPT_START] + unclosed;
    let only = SegmentView { mode, bytes: before + seq![PROMPT_START] + after };
    assert(source =~= before + (seq![ESCAPE_CHAR, PROMPT_START] + tail));
    lemma_scan_plain(mode, Seq::empty(), before, seq![ESCAPE_CHAR, PROMPT_START] + tail);
    assert(Seq::<u8>::empty() + before =~= before);
    lemma_escaped_delimiter(mode, before, tail);
    lemma_delimiter_ends_segment(mode, before.push(PROMPT_START), after, unclosed);
    assert(before.push(PROMPT_START) + after =~= before + seq![PROMPT_START] + after);
    lemma_unterminated_is_dropped(ParseMode::Containing, Seq::empty(), unclosed);
    assert(seq![only] + Seq::<SegmentView>::empty() =~= seq![only]);
    assert(segments_of(source) == seq![only]);
    lemma_document_without_placeholders(source, bank);
}

} // verus!
