//! The escape-aware scanner that cuts a template into literal text and
//! placeholders.

use vstd::prelude::*;

verus! {

/// Opens a placeholder.
pub const PROMPT_START: u8 = 0x7b;

/// Closes a placeholder.
pub const PROMPT_END: u8 = 0x7d;

/// Placed directly before a delimiter, makes that delimiter literal.
pub const ESCAPE_CHAR: u8 = 0x5c;

/// What the scanner is currently reading.
#[derive(Clone, Copy, Debug, PartialEq, Eq, Structural)]
pub enum ParseMode {
    /// Literal text in front of a placeholder.
    Preceding,
    /// The text contained in a placeholder.
    Containing,
}

impl ParseMode {
    /// The byte that ends a segment read in this mode.
    pub open spec fn spec_delimiter(self) -> u8 {
        match self {
            ParseMode::Preceding => PROMPT_START,
            ParseMode::Containing => PROMPT_END,
        }
    }

    /// The mode that follows this one once its segment has ended.
    pub open spec fn spec_toggled(self) -> ParseMode {
        match self {
            ParseMode::Preceding => ParseMode::Containing,
            ParseMode::Containing => ParseMode::Preceding,
        }
    }

    /// The byte that ends a segment read in this mode.
    #[verifier::when_used_as_spec(spec_delimiter)]
    pub fn delimiter(self) -> (byte: u8)
        ensures
            byte == self.spec_delimiter(),
    {
        match self {
            ParseMode::Preceding => PROMPT_START,
            ParseMode::Containing => PROMPT_END,
        }
    }

    /// The mode that follows this one once its segment has ended.
    #[verifier::when_used_as_spec(spec_toggled)]
    pub fn toggled(self) -> (next: ParseMode)
        ensures
            next == self.spec_toggled(),
    {
        match self {
            ParseMode::Preceding => ParseMode::Containing,
            ParseMode::Containing => ParseMode::Preceding,
        }
    }
}

/// One piece of a template: the bytes between two delimiters, with the mode
/// in which they were read.
#[derive(Debug, PartialEq, Eq)]
pub struct Segment {
    pub mode: ParseMode,
    pub bytes: Vec<u8>,
}

/// A [`Segment`] as a mathematical value.
pub struct SegmentView {
    pub mode: ParseMode,
    pub bytes: Seq<u8>,
}

impl View for Segment {
    type V = SegmentView;

    open spec fn view(&self) -> SegmentView {
        SegmentView { mode: self.mode, bytes: self.bytes@ }
    }
}

impl DeepView for Segment {
    type V = SegmentView;

    open spec fn deep_view(&self) -> SegmentView {
        self@
    }
}

/// The segments that come out of `input` when the scanner is in `mode` and
/// has already gathered `buffer` for the segment under way.
///
/// A byte other than the mode's delimiter joins the buffer. A delimiter right
/// after the escape byte takes the place of that escape byte in the buffer,
/// and the mode stays. Any other delimiter ends the segment: the buffer is
/// emitted under the current mode and scanning goes on, in the other mode,
/// with an empty buffer. Where the input ends, whatever is in the buffer is
/// dropped.
pub open spec fn scan(mode: ParseMode, buffer: Seq<u8>, input: Seq<u8>) -> Seq<SegmentView>
    decreases input.len(),
{
    if input.len() == 0 {
        Seq::empty()
    } else {
        let byte = input.first();
        let rest = input.drop_first();
        if byte != mode.delimiter() {
            scan(mode, buffer.push(byte), rest)
        } else if buffer.len() > 0 && buffer.last() == ESCAPE_CHAR {
            scan(mode, buffer.drop_last().push(byte), rest)
        } else {
            seq![SegmentView { mode, bytes: buffer }] + scan(mode.toggled(), Seq::empty(), rest)
        }
    }
}

/// The segments of a whole template: scanning starts in front of the first
/// placeholder, with nothing gathered.
pub open spec fn segments_of(source: Seq<u8>) -> Seq<SegmentView> {
    scan(ParseMode::Preceding, Seq::empty(), source)
}

/// Cuts a template into its segments, literal text and placeholders in turn.
pub fn parse_file(source: &[u8]) -> (segments: Vec<Segment>)
    ensures
        segments.deep_view() == segments_of(source@),
{
    let mut segments: Vec<Segment> = Vec::new();
    let mut buffer: Vec<u8> = Vec::new();
    let mut mode = ParseMode::Preceding;
    let mut i: usize = 0;
    proof {
        assert(source@.skip(0) == source@);
        assert(segments.deep_view() == Seq::<SegmentView>::empty());
        assert(Seq::<SegmentView>::empty() + segments_of(source@) == segments_of(source@));
    }
    while i < source.len()
        invariant
            i <= source.len(),
            segments_of(source@) == segments.deep_view() + scan(
                mode,
                buffer@,
                source@.skip(i as int),
            ),
        decreases source.len() - i,
    {
        let byte = source[i];
        let ghost before = segments.deep_view();
        proof {
            assert(source@.skip(i as int).first() == byte);
            assert(source@.skip(i as int).drop_first() == source@.skip(i + 1));
        }
        if byte != mode.delimiter() {
            buffer.push(byte);
        } else if buffer.len() > 0 && buffer[buffer.len() - 1] == ESCAPE_CHAR {
            buffer.pop();
            buffer.push(byte);
        } else {
            let ghost ended = SegmentView { mode, bytes: buffer@ };
            segments.push(Segment { mode, bytes: buffer });
            buffer = Vec::new();
            mode = mode.toggled();
            proof {
                assert(segments.deep_view() == before.push(ended));
                assert(before.push(ended) + scan(mode, Seq::empty(), source@.skip(i + 1))
                    == before + (seq![ended] + scan(mode, Seq::empty(), source@.skip(i + 1))));
            }
        }
        i += 1;
    }
    segments
}

/// Whether `bytes` holds the delimiter of `mode`.
pub open spec fn has_delimiter(mode: ParseMode, bytes: Seq<u8>) -> bool {
    exists|i: int| 0 <= i < bytes.len() && bytes[i] == mode.delimiter()
}

/// Whether a delimiter that comes right after `bytes` is escaped.
pub open spec fn ends_in_escape(bytes: Seq<u8>) -> bool {
    bytes.len() > 0 && bytes.last() == ESCAPE_CHAR
}

/// An escaped delimiter stands for itself: the escape byte is dropped, the
/// delimiter joins the buffer, and scanning goes on in the same mode.
pub proof fn lemma_escaped_delimiter(mode: ParseMode, buffer: Seq<u8>, rest: Seq<u8>)
    ensures
        scan(mode, buffer, seq![ESCAPE_CHAR, mode.delimiter()] + rest) == scan(
            mode,
            buffer.push(mode.delimiter()),
            rest,
        ),
{
    let input = seq![ESCAPE_CHAR, mode.delimiter()] + rest;
    let after_escape = seq![mode.delimiter()] + rest;
    assert(input.first() == ESCAPE_CHAR);
    assert(input.drop_first() =~= after_escape);
    assert(scan(mode, buffer, input) == scan(mode, buffer.push(ESCAPE_CHAR), after_escape));
    assert(after_escape.first() == mode.delimiter());
    assert(after_escape.drop_first() =~= rest);
    assert(buffer.push(ESCAPE_CHAR).drop_last() =~= buffer);
}

/// Bytes other than the delimiter join the buffer as they are.
pub proof fn lemma_scan_plain(mode: ParseMode, buffer: Seq<u8>, plain: Seq<u8>, rest: Seq<u8>)
    requires
        !has_delimiter(mode, plain),
    ensures
        scan(mode, buffer, plain + rest) == scan(mode, buffer + plain, rest),
    decreases plain.len(),
{
    if plain.len() == 0 {
        assert(plain + rest =~= rest);
        assert(buffer + plain =~= buffer);
    } else {
        let input = plain + rest;
        let byte = plain.first();
        assert(plain[0] != mode.delimiter());
        assert(input.first() == byte);
        assert(input.drop_first() =~= plain.drop_first() + rest);
        assert forall|i: int| 0 <= i < plain.drop_first().len() implies plain.drop_first()[i]
            != mode.delimiter() by {
            assert(plain.drop_first()[i] == plain[i + 1]);
        }
        lemma_scan_plain(mode, buffer.push(byte), plain.drop_first(), rest);
        assert(buffer.push(byte) + plain.drop_first() =~= buffer + plain);
    }
}

/// What has no closing delimiter is dropped: input without the delimiter
/// of the current mode yields no segment, whatever has been gathered.
pub proof fn lemma_unterminated_is_dropped(mode: ParseMode, buffer: Seq<u8>, plain: Seq<u8>)
    requires
        !has_delimiter(mode, plain),
    ensures
        scan(mode, buffer, plain) == Seq::<SegmentView>::empty(),
{
    lemma_scan_plain(mode, buffer, plain, Seq::empty());
    assert(plain + Seq::<u8>::empty() =~= plain);
}

/// A delimiter that is not escaped ends the segment: what was gathered up
/// to it is emitted under the current mode, and scanning goes on in the
/// other mode with nothing gathered.
pub proof fn lemma_delimiter_ends_segment(
    mode: ParseMode,
    buffer: Seq<u8>,
    plain: Seq<u8>,
    rest: Seq<u8>,
)
    requires
        !has_delimiter(mode, plain),
        !ends_in_escape(buffer + plain),
    ensures
        scan(mode, buffer, plain + seq![mode.delimiter()] + rest) == seq![
            (SegmentView { mode, bytes: buffer + plain }),
        ] + scan(mode.toggled(), Seq::empty(), rest),
{
    let tail = seq![mode.delimiter()] + rest;
    lemma_scan_plain(mode, buffer, plain, tail);
    assert(plain + seq![mode.delimiter()] + rest =~= plain + tail);
    assert(tail.first() == mode.delimiter());
    assert(tail.drop_first() =~= rest);
}

/// Segments come in turn: literal text, placeholder, literal text, and so
/// on, from the mode in which scanning starts.
pub proof fn lemma_modes_alternate(mode: ParseMode, buffer: Seq<u8>, input: Seq<u8>, i: int)
    requires
        0 <= i < scan(mode, buffer, input).len(),
    ensures
        scan(mode, buffer, input)[i].mode == (if i % 2 == 0 {
            mode
        } else {
            mode.toggled()
        }),
    decreases input.len(),
{
    let byte = input.first();
    let rest = input.drop_first();
    if byte != mode.delimiter() {
        lemma_modes_alternate(mode, buffer.push(byte), rest, i);
    } else if buffer.len() > 0 && buffer.last() == ESCAPE_CHAR {
        lemma_modes_alternate(mode, buffer.drop_last().push(byte), rest, i);
    } else if i > 0 {
        lemma_modes_alternate(mode.toggled(), Seq::empty(), rest, i - 1);
    }
}

} // verus!
