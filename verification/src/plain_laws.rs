//! What holds of patterns that stand for nothing but themselves, told by their
//! characters and bytes.

use crate::config::{Config, RegexMode};
use crate::engine::{Engine, Span};
use crate::finder::{finder_needle, first_occurrence, is_first_occurrence, occurs_at};
use crate::literal::{is_plain, law_plain_text};
use crate::literal_engine;
use crate::literal_laws::lemma_first_exists;
use crate::matcher::{needles_of, Matcher};
use crate::onig_engine;
use crate::oniguruma::{is_text, onig_search};
use memchr::memmem;
use vstd::prelude::*;
use vstd::utf8::*;

verus! {

/// A pattern of ASCII characters, one at least, whose case counts, is plain in
/// every syntax if it holds none of the signs that some syntax reads as more than
/// themselves. Under `-F` it is whatever it holds.
pub proof fn law_text_without_signs_is_plain(
    pattern: Seq<char>,
    ignore_case: bool,
    mode: RegexMode,
)
    requires
        !ignore_case,
        pattern.len() > 0,
        forall|i: int| 0 <= i < pattern.len() ==> #[trigger] pattern[i] <= '\u{7f}',
        mode == RegexMode::Fixed || forall|i: int|
            0 <= i < pattern.len() ==> !".*[]^$\\+?{}()|"@.contains(#[trigger] pattern[i]),
    ensures
        is_plain(pattern, ignore_case, mode),
{
    law_plain_text(pattern, ignore_case, mode);
}

/// No other pattern is plain: not the empty one, none where case is ignored, none
/// with a character that is not ASCII, and outside `-F` none with a sign that some
/// syntax reads as more than itself.
pub proof fn law_other_text_is_not_plain(pattern: Seq<char>, ignore_case: bool, mode: RegexMode)
    requires
        ({
            ||| ignore_case
            ||| pattern.len() == 0
            ||| exists|i: int| 0 <= i < pattern.len() && #[trigger] pattern[i] > '\u{7f}'
            ||| mode != RegexMode::Fixed && exists|i: int|
                0 <= i < pattern.len() && ".*[]^$\\+?{}()|"@.contains(#[trigger] pattern[i])
        }),
    ensures
        !is_plain(pattern, ignore_case, mode),
{
    law_plain_text(pattern, ignore_case, mode);
}

/// The bytes of a plain pattern are the codes of its characters.
proof fn lemma_bytes(pattern: Seq<char>)
    requires
        is_ascii_chars(pattern),
    ensures
        encode_utf8(pattern) == Seq::new(pattern.len(), |k: int| pattern[k] as u8),
{
    is_ascii_chars_encode_utf8(pattern);
    assert(encode_utf8(pattern) =~= Seq::new(pattern.len(), |k: int| pattern[k] as u8));
}

/// The literal engine accepts every such pattern, and searches for the codes of
/// its characters.
pub proof fn law_the_literal_engine_accepts_text_without_signs(
    pattern: Seq<char>,
    config: Config,
    outcome: Result<literal_engine::CompiledPattern, (i32, Seq<char>)>,
)
    requires
        !config.ignore_case,
        pattern.len() > 0,
        forall|i: int| 0 <= i < pattern.len() ==> #[trigger] pattern[i] <= '\u{7f}',
        config.regex_mode == RegexMode::Fixed || forall|i: int|
            0 <= i < pattern.len() ==> !".*[]^$\\+?{}()|"@.contains(#[trigger] pattern[i]),
    ensures
        literal_engine::CompiledPattern::compiles_to(pattern, config, outcome) <==> (
        outcome matches Ok(this) && this.needle() == Seq::new(
            pattern.len(),
            |k: int| pattern[k] as u8,
        )),
{
    law_text_without_signs_is_plain(pattern, config.ignore_case, config.regex_mode);
    lemma_bytes(pattern);
}

/// The literal engine refuses every other pattern, with the one error that it has.
pub proof fn law_the_literal_engine_refuses_other_text(
    pattern: Seq<char>,
    config: Config,
    outcome: Result<literal_engine::CompiledPattern, (i32, Seq<char>)>,
)
    requires
        ({
            ||| config.ignore_case
            ||| pattern.len() == 0
            ||| exists|i: int| 0 <= i < pattern.len() && #[trigger] pattern[i] > '\u{7f}'
            ||| config.regex_mode != RegexMode::Fixed && exists|i: int|
                0 <= i < pattern.len() && ".*[]^$\\+?{}()|"@.contains(#[trigger] pattern[i])
        }),
    ensures
        literal_engine::CompiledPattern::compiles_to(pattern, config, outcome) <==> outcome == Err::<
            literal_engine::CompiledPattern,
            (i32, Seq<char>),
        >(
            (
                2,
                "this build supports ASCII literal patterns only; rebuild with the `oniguruma` feature for full regex support"@,
            ),
        ),
{
    law_other_text_is_not_plain(pattern, config.ignore_case, config.regex_mode);
}

/// Whether the codes of the characters of `text` stand in `line` at `at`.
pub open spec fn stands_at(line: Seq<u8>, text: Seq<char>, at: int) -> bool {
    &&& 0 <= at
    &&& at + text.len() <= line.len()
    &&& forall|k: int| 0 <= k < text.len() ==> line[at + k] == (#[trigger] text[k]) as u8
}

/// For a plain text this is to occur there.
proof fn lemma_stands_at(line: Seq<u8>, text: Seq<char>, at: int)
    requires
        is_ascii_chars(text),
    ensures
        stands_at(line, text, at) <==> occurs_at(line, encode_utf8(text), at),
{
    lemma_bytes(text);
    let bytes = encode_utf8(text);
    if stands_at(line, text, at) {
        assert(line.subrange(at, at + bytes.len()) =~= bytes);
    }
    if occurs_at(line, bytes, at) {
        assert forall|k: int| 0 <= k < text.len() implies line[at + k] == (
        #[trigger] text[k]) as u8 by {
            assert(line.subrange(at, at + bytes.len())[k] == bytes[k]);
        }
    }
}

/// Whether a search from `from` that ends in `hit` has found the first place at
/// which `text` stands in `line`.
pub open spec fn finds_text(
    line: Seq<u8>,
    text: Seq<char>,
    from: usize,
    hit: Option<Span>,
) -> bool {
    match hit {
        Some(span) => {
            &&& from <= span.0
            &&& span.1 == span.0 + text.len()
            &&& stands_at(line, text, span.0 as int)
            &&& forall|at: int| from <= at < span.0 ==> !#[trigger] stands_at(line, text, at)
        },
        None => forall|at: int| from <= at ==> !#[trigger] stands_at(line, text, at),
    }
}

/// What a search for the bytes of a plain text finds.
proof fn lemma_finds_text(line: Seq<u8>, text: Seq<char>, from: usize, hit: Option<Span>)
    requires
        is_ascii_chars(text),
        text.len() > 0,
        line.len() <= usize::MAX,
        hit == (match first_occurrence(line, encode_utf8(text), from) {
            Some(at) => Some((at as usize, (at + encode_utf8(text).len()) as usize)),
            None => None,
        }),
    ensures
        finds_text(line, text, from, hit),
{
    let bytes = encode_utf8(text);
    is_ascii_chars_encode_utf8(text);
    assert forall|at: int| #[trigger] stands_at(line, text, at) <==> occurs_at(line, bytes, at) by {
        lemma_stands_at(line, text, at);
    }
    match first_occurrence(line, bytes, from) {
        Some(at) => {
            assert(is_first_occurrence(line, bytes, from, at));
            assert(stands_at(line, text, at));
        },
        None => {
            assert forall|at: int| from <= at implies !#[trigger] stands_at(line, text, at) by {
                if stands_at(line, text, at) {
                    lemma_first_exists(line, bytes, from, at);
                }
            }
        },
    }
}

/// The literal engine finds the first place where the characters of the pattern
/// stand in the line, byte for byte, and the match there is as long as the
/// pattern. It never fails.
pub proof fn law_literals_are_found_where_they_stand(
    this: literal_engine::CompiledPattern,
    pattern: Seq<char>,
    config: Config,
    line: Seq<u8>,
    from: usize,
)
    requires
        literal_engine::CompiledPattern::compiles_to(pattern, config, Ok(this)),
        line.len() <= usize::MAX,
    ensures
        this.leftmost(line, from) matches Ok(hit) && finds_text(line, pattern, from, hit),
        stands_at(line, pattern, from as int) ==> this.longest(line, from) == Ok::<
            Option<usize>,
            (i32, Seq<char>),
        >(Some((from + pattern.len()) as usize)),
        !stands_at(line, pattern, from as int) ==> this.longest(line, from) == Ok::<
            Option<usize>,
            (i32, Seq<char>),
        >(None),
{
    lemma_stands_at(line, pattern, from as int);
    is_ascii_chars_encode_utf8(pattern);
    lemma_finds_text(line, pattern, from, this.leftmost(line, from)->Ok_0);
}

/// A text of ASCII characters whose case counts, and which holds none of the signs,
/// is found in the same way when Oniguruma compiles it, in every line that is not
/// too long for it.
pub proof fn law_text_without_signs_is_found_where_it_stands(
    this: onig_engine::CompiledPattern,
    pattern: Seq<char>,
    config: Config,
    text: Seq<char>,
    line: Seq<u8>,
    from: usize,
)
    requires
        onig_engine::CompiledPattern::compiles_to(pattern, config, Ok(this)),
        this.leftmost_source().pattern == text,
        !config.ignore_case,
        0 < text.len() <= i32::MAX,
        forall|i: int| 0 <= i < text.len() ==> #[trigger] text[i] <= '\u{7f}',
        config.regex_mode == RegexMode::Fixed || forall|i: int|
            0 <= i < text.len() ==> !".*[]^$\\+?{}()|"@.contains(#[trigger] text[i]),
        from <= line.len() <= 0x7fff_fff0,
    ensures
        this.leftmost(line, from) matches Ok(hit) && finds_text(line, text, from, hit),
        stands_at(line, text, from as int) ==> this.longest(line, from) == Ok::<
            Option<usize>,
            (i32, Seq<char>),
        >(Some((from + text.len()) as usize)),
        !stands_at(line, text, from as int) ==> this.longest(line, from) == Ok::<
            Option<usize>,
            (i32, Seq<char>),
        >(None),
{
    law_text_without_signs_is_plain(text, config.ignore_case, config.regex_mode);
    is_ascii_chars_encode_utf8(text);
    assert(this.longest_source().pattern == text);
    assert(is_text(this.leftmost_source()));
    lemma_stands_at(line, text, from as int);
    lemma_finds_text(line, text, from, this.leftmost(line, from)->Ok_0);
}

/// For any other text a search is Oniguruma's.
pub proof fn law_other_text_is_searched_for_by_oniguruma(
    this: onig_engine::CompiledPattern,
    pattern: Seq<char>,
    config: Config,
    line: Seq<u8>,
    from: usize,
)
    requires
        onig_engine::CompiledPattern::compiles_to(pattern, config, Ok(this)),
        line.len() <= 0x7fff_fff0,
        ({
            let text = this.leftmost_source().pattern;
            ||| config.ignore_case
            ||| text.len() == 0
            ||| exists|i: int| 0 <= i < text.len() && #[trigger] text[i] > '\u{7f}'
            ||| config.regex_mode != RegexMode::Fixed && exists|i: int|
                0 <= i < text.len() && ".*[]^$\\+?{}()|"@.contains(#[trigger] text[i])
        }),
    ensures
        this.leftmost(line, from) == onig_search(this.leftmost_source(), line, from),
{
    law_other_text_is_not_plain(
        this.leftmost_source().pattern,
        config.ignore_case,
        config.regex_mode,
    );
}

/// Where all patterns of a search, one at least, are of ASCII characters whose
/// case counts, and hold none of the signs, there is a substring searcher for each
/// of them, in their order, for the codes of its characters.
pub proof fn law_text_without_signs_has_searchers<E: Engine>(matcher: Matcher<E>, config: Config)
    requires
        matcher.compiled_from(config),
        !config.ignore_case,
        config.patterns@.len() > 0,
        forall|p: int|
            0 <= p < config.patterns@.len() ==> (#[trigger] config.patterns@[p])@.len() > 0,
        forall|p: int, i: int|
            0 <= p < config.patterns@.len() && 0 <= i < config.patterns@[p]@.len()
                ==> #[trigger] config.patterns@[p]@[i] <= '\u{7f}',
        config.regex_mode == RegexMode::Fixed || forall|p: int, i: int|
            0 <= p < config.patterns@.len() && 0 <= i < config.patterns@[p]@.len()
                ==> !".*[]^$\\+?{}()|"@.contains(#[trigger] config.patterns@[p]@[i]),
    ensures
        matcher.needles() is Some,
        matcher.needles()->0.len() == config.patterns@.len(),
        forall|p: int|
            0 <= p < config.patterns@.len() ==> #[trigger] matcher.needles()->0[p] == Seq::new(
                config.patterns@[p]@.len(),
                |k: int| config.patterns@[p]@[k] as u8,
            ),
{
    assert forall|p: int| 0 <= p < config.patterns@.len() implies is_plain(
        (#[trigger] config.patterns@[p])@,
        config.ignore_case,
        config.regex_mode,
    ) by {
        let pattern = config.patterns@[p]@;
        assert forall|i: int| 0 <= i < pattern.len() implies #[trigger] pattern[i] <= '\u{7f}' by {
            assert(config.patterns@[p]@[i] <= '\u{7f}');
        }
        assert forall|i: int|
            0 <= i < pattern.len() && config.regex_mode
                != RegexMode::Fixed implies !".*[]^$\\+?{}()|"@.contains(#[trigger] pattern[i]) by {
            assert(!".*[]^$\\+?{}()|"@.contains(config.patterns@[p]@[i]));
        }
        law_text_without_signs_is_plain(pattern, config.ignore_case, config.regex_mode);
    }
    assert forall|p: int| 0 <= p < config.patterns@.len() implies #[trigger] matcher.needles()->0[p]
        == Seq::new(config.patterns@[p]@.len(), |k: int| config.patterns@[p]@[k] as u8) by {
        assert(is_plain(config.patterns@[p]@, config.ignore_case, config.regex_mode));
        lemma_bytes(config.patterns@[p]@);
    }
}

/// One other pattern is enough, or none at all, and there are no searchers.
pub proof fn law_one_other_text_leaves_no_searchers<E: Engine>(
    matcher: Matcher<E>,
    config: Config,
    p: int,
)
    requires
        matcher.compiled_from(config),
        config.patterns@.len() == 0 || 0 <= p < config.patterns@.len() && ({
            let pattern = config.patterns@[p]@;
            ||| config.ignore_case
            ||| pattern.len() == 0
            ||| exists|i: int| 0 <= i < pattern.len() && #[trigger] pattern[i] > '\u{7f}'
            ||| config.regex_mode != RegexMode::Fixed && exists|i: int|
                0 <= i < pattern.len() && ".*[]^$\\+?{}()|"@.contains(#[trigger] pattern[i])
        }),
    ensures
        matcher.needles() is None,
{
    if config.patterns@.len() > 0 {
        law_other_text_is_not_plain(config.patterns@[p]@, config.ignore_case, config.regex_mode);
    }
}

/// Searchers are told by their needles, each in its place.
pub proof fn law_each_searcher_has_its_needle(finders: Seq<memmem::Finder<'static>>, i: int)
    requires
        0 <= i < finders.len(),
    ensures
        needles_of(finders).len() == finders.len(),
        needles_of(finders)[i] == finder_needle(finders[i]),
{
}

/// Whether `byte` is the code of an ASCII letter, an ASCII digit or an underscore.
pub open spec fn is_word_code(byte: u8) -> bool {
    0x30 <= byte <= 0x39 || 0x41 <= byte <= 0x5a || 0x61 <= byte <= 0x7a || byte == 0x5f
}

/// To the literal engine a match stands alone exactly if neither the byte behind
/// it nor the byte before it is a letter, a digit or an underscore, all of them
/// ASCII.
pub proof fn law_literals_stand_alone_between_non_words(line: Seq<u8>, start: usize, end: usize)
    requires
        start <= line.len(),
    ensures
        literal_engine::CompiledPattern::stands_alone(line, start, end) <==> {
            &&& end < line.len() ==> !is_word_code(line[end as int])
            &&& start > 0 ==> !is_word_code(line[start - 1])
        },
{
}

} // verus!
