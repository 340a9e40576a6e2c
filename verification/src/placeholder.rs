//! The grammar of the text inside a placeholder.

use vstd::prelude::*;
use vstd::string::*;
use vstd::std_specs::iter::IteratorSpec;

verus! {

/// Marks the placeholder of an identifier whose words can be used again.
pub const IDENTIFIER: char = '@';

/// Stands between the tokens of a marked placeholder.
pub const SEPARATOR: char = ' ';

/// What a placeholder asks for.
#[derive(Debug, PartialEq, Eq)]
pub struct Placeholder {
    /// Names the pool that the answer joins.
    pub identifier: String,
    /// What the operator is shown.
    pub display_prompt: String,
    /// Whether the words of this identifier can be used again.
    pub persistent: bool,
}

/// A [`Placeholder`] as a mathematical value.
pub struct PlaceholderView {
    pub identifier: Seq<char>,
    pub display_prompt: Seq<char>,
    pub persistent: bool,
}

impl View for Placeholder {
    type V = PlaceholderView;

    open spec fn view(&self) -> PlaceholderView {
        PlaceholderView {
            identifier: self.identifier@,
            display_prompt: self.display_prompt@,
            persistent: self.persistent,
        }
    }
}

/// Whether `text` starts with the identifier marker.
pub open spec fn is_marked(text: Seq<char>) -> bool {
    text.len() > 0 && text[0] == IDENTIFIER
}

/// Where the first separator stands in `text`: the length of `text` where it
/// has none.
pub open spec fn first_separator(text: Seq<char>) -> int
    decreases text.len(),
{
    if text.len() == 0 || text[0] == SEPARATOR {
        0
    } else {
        1 + first_separator(text.drop_first())
    }
}

/// `text` cut at every separator. There is always at least one token, and a
/// token may be empty.
pub open spec fn tokens(text: Seq<char>) -> Seq<Seq<char>>
    decreases text.len(),
{
    let cut = first_separator(text);
    if 0 <= cut < text.len() {
        seq![text.take(cut)] + tokens(text.skip(cut + 1))
    } else {
        seq![text]
    }
}

/// The tokens in `parts` with one separator between each two.
pub open spec fn joined(parts: Seq<Seq<char>>) -> Seq<char>
    decreases parts.len(),
{
    if parts.len() == 0 {
        Seq::empty()
    } else if parts.len() == 1 {
        parts[0]
    } else {
        parts[0] + seq![SEPARATOR] + joined(parts.drop_first())
    }
}

/// What the placeholder `text` asks for when words are collected. In a
/// marked text the first token is the identifier and the tokens after it,
/// joined again, are the prompt. A marked text without a prompt asks for
/// nothing: it is a single token, or nothing follows its first separator.
/// An unmarked text is both its identifier and its prompt.
pub open spec fn placeholder_of(text: Seq<char>) -> Option<PlaceholderView> {
    if is_marked(text) {
        let parts = tokens(text);
        if parts.len() < 2 || joined(parts.skip(1)).len() == 0 {
            None
        } else {
            Some(
                PlaceholderView {
                    identifier: parts[0],
                    display_prompt: joined(parts.skip(1)),
                    persistent: true,
                },
            )
        }
    } else {
        Some(PlaceholderView { identifier: text, display_prompt: text, persistent: false })
    }
}

/// The identifier that the placeholder `text` resolves to when words are
/// substituted: the first token of a marked text, the whole of any other.
pub open spec fn identifier_of(text: Seq<char>) -> Seq<char> {
    if is_marked(text) {
        tokens(text)[0]
    } else {
        text
    }
}

/// The first separator stands inside `text` or at its end, nothing before it
/// is a separator, and what stands there, if anything, is one.
pub proof fn lemma_first_separator(text: Seq<char>)
    ensures
        0 <= first_separator(text) <= text.len(),
        forall|j: int| 0 <= j < first_separator(text) ==> text[j] != SEPARATOR,
        first_separator(text) < text.len() ==> text[first_separator(text)] == SEPARATOR,
    decreases text.len(),
{
    if text.len() == 0 || text[0] == SEPARATOR {
    } else {
        let rest = text.drop_first();
        lemma_first_separator(rest);
        assert forall|j: int| 0 <= j < first_separator(text) implies text[j] != SEPARATOR by {
            if j > 0 {
                assert(text[j] == rest[j - 1]);
            }
        }
        if first_separator(text) < text.len() {
            assert(text[first_separator(text)] == rest[first_separator(rest)]);
        }
    }
}

/// Cutting a text at its separators and joining the tokens again gives the
/// text back.
pub proof fn lemma_tokens_join(text: Seq<char>)
    ensures
        joined(tokens(text)) == text,
    decreases text.len(),
{
    lemma_first_separator(text);
    let cut = first_separator(text);
    if cut < text.len() {
        let rest = text.skip(cut + 1);
        lemma_tokens_join(rest);
        let parts = tokens(text);
        assert(parts.drop_first() =~= tokens(rest));
        assert(parts[0] == text.take(cut));
        assert(text.take(cut) + seq![SEPARATOR] + rest =~= text);
    }
}

/// The tokens of a text in terms of its first separator: the first token is
/// what stands before it, and the tokens after the first, joined again, are
/// what stands after it. Without a separator the text is its only token.
pub proof fn lemma_tokens_by_first_separator(text: Seq<char>)
    ensures
        tokens(text).len() >= 1,
        tokens(text).len() >= 2 <==> first_separator(text) < text.len(),
        tokens(text)[0] == text.take(first_separator(text)),
        first_separator(text) < text.len() ==> joined(tokens(text).skip(1)) == text.skip(
            first_separator(text) + 1,
        ),
{
    lemma_first_separator(text);
    let cut = first_separator(text);
    if cut < text.len() {
        let rest = text.skip(cut + 1);
        lemma_tokens_join(rest);
        assert(tokens(text).skip(1) =~= tokens(rest));
    } else {
        assert(text.take(cut) =~= text);
    }
}

/// A placeholder asks for nothing exactly where it is marked and has no
/// prompt: its text holds no separator, or ends with its first one. Where
/// it is marked and asks for a word, the identifier is what stands before
/// the first separator and the prompt is what stands after it.
pub proof fn lemma_placeholder_by_first_separator(text: Seq<char>)
    ensures
        placeholder_of(text) is None <==> is_marked(text) && first_separator(text) + 1
            >= text.len(),
        is_marked(text) && first_separator(text) + 1 < text.len() ==> placeholder_of(text)
            == Some(
            PlaceholderView {
                identifier: text.take(first_separator(text)),
                display_prompt: text.skip(first_separator(text) + 1),
                persistent: true,
            },
        ),
{
    lemma_first_separator(text);
    lemma_tokens_by_first_separator(text);
}

/// Both passes resolve a placeholder to the same identifier: whenever the
/// placeholder asks for a word, the identifier under which the word is
/// stored is the one under which it is looked up.
pub proof fn lemma_identifier_agrees(text: Seq<char>)
    ensures
        placeholder_of(text) matches Some(placeholder) ==> placeholder.identifier
            == identifier_of(text),
{
}

fn find_separator(text: &str) -> (found: (usize, usize))
    ensures
        found.0 == first_separator(text@),
        found.1 == text@.len(),
        found.0 <= found.1,
{
    let len = text.unicode_len();
    let mut cut: usize = 0;
    let mut found = false;
    for c in it: text.chars()
        invariant
            it.seq() == text@,
            len == text@.len(),
            !found ==> cut == it.index(),
            found ==> cut < len && text@[cut as int] == SEPARATOR,
            cut <= len,
            forall|j: int| 0 <= j < cut ==> text@[j] != SEPARATOR,
    {
        if !found {
            if c == SEPARATOR {
                found = true;
            } else {
                cut = cut + 1;
            }
        }
    }
    proof {
        lemma_first_separator(text@);
    }
    (cut, len)
}

/// Reads the text of a placeholder as the collecting pass does. `None` means
/// that the placeholder asks for nothing.
pub fn parse_placeholder(text: &str) -> (placeholder: Option<Placeholder>)
    ensures
        (match placeholder {
            Some(p) => placeholder_of(text@) == Some(p@),
            None => placeholder_of(text@) is None,
        }),
{
    proof {
        lemma_placeholder_by_first_separator(text@);
    }
    if !text.is_empty() && text.get_char(0) == IDENTIFIER {
        let (cut, len) = find_separator(text);
        if len - cut > 1 {
            let identifier = String::from_str(text.substring_char(0, cut));
            let display_prompt = String::from_str(text.substring_char(cut + 1, len));
            Some(Placeholder { identifier, display_prompt, persistent: true })
        } else {
            None
        }
    } else {
        Some(
            Placeholder {
                identifier: String::from_str(text),
                display_prompt: String::from_str(text),
                persistent: false,
            },
        )
    }
}

/// Reads the text of a placeholder as the substituting pass does: only the
/// identifier counts there.
pub fn placeholder_identifier(text: &str) -> (identifier: String)
    ensures
        identifier@ == identifier_of(text@),
{
    proof {
        lemma_tokens_by_first_separator(text@);
    }
    if !text.is_empty() && text.get_char(0) == IDENTIFIER {
        let (cut, _len) = find_separator(text);
        String::from_str(text.substring_char(0, cut))
    } else {
        String::from_str(text)
    }
}

} // verus!
