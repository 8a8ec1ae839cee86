//! What holds of two or three searches, compiled by the same engine, whose
//! settings have something to do with each other.

use crate::alike_laws::{
    all_searched_alike, law_inverted_search_wants_the_other_lines, law_joined_lists_match_either,
    searched_alike,
};
use crate::config::{Config, RegexMode};
use crate::engine::Engine;
use crate::error::Fault;
use crate::laws::{inverted, never_goes_back, none_goes_back};
use crate::listing::line_matches;
use crate::literal_engine;
use crate::literal_laws::law_literal_search_never_fails;
use crate::matcher::{is_wanted, same_filters, same_reading, selection, texts_of, Matcher};
use crate::onig_engine;
use crate::onig_engine::search_heeds_process;
use crate::onig_laws::{
    law_posix_searches_never_go_back, law_same_text_is_searched_alike, same_process,
};
use crate::set_laws::{is_covered, is_one_of, law_patterns_are_a_set};
use vstd::prelude::*;

verus! {

/// Whether `config` and `other` have the same patterns, in whatever order and
/// however often.
pub open spec fn same_patterns(config: Config, other: Config) -> bool {
    texts_of(config.patterns@).to_set() == texts_of(other.patterns@).to_set()
}

/// Whether the patterns of `joined` are those of `p` and then those of `q`.
pub open spec fn has_both(joined: Config, p: Config, q: Config) -> bool {
    texts_of(joined.patterns@) == texts_of(p.patterns@) + texts_of(q.patterns@)
}

/// Whether all regexes of `a` and `b` were compiled in the same state of the
/// process: with the same flags for case folding and the same user-defined
/// character properties.
pub open spec fn one_process(
    a: Seq<onig_engine::CompiledPattern>,
    b: Seq<onig_engine::CompiledPattern>,
) -> bool {
    forall|i: int, j: int|
        0 <= i < a.len() && 0 <= j < b.len() ==> same_process(#[trigger] a[i], #[trigger] b[j])
}

/// Whether the pattern at `i` of one search and that at `j` of another are
/// searched for alike if they have the same text.
spec fn alike_by_text<E: Engine>(
    a: Matcher<E>,
    config: Config,
    b: Matcher<E>,
    other: Config,
    line: Seq<u8>,
) -> bool {
    forall|i: int, j: int|
        0 <= i < config.patterns@.len() && 0 <= j < other.patterns@.len() && (
        #[trigger] config.patterns@[i])@ == (#[trigger] other.patterns@[j])@ ==> searched_alike(
            a.patterns()[i],
            b.patterns()[j],
            line,
        )
}

proof fn lemma_literal_alike(
    a: Matcher<literal_engine::CompiledPattern>,
    config: Config,
    b: Matcher<literal_engine::CompiledPattern>,
    other: Config,
    line: Seq<u8>,
)
    requires
        a.compiled_from(config),
        b.compiled_from(other),
    ensures
        alike_by_text(a, config, b, other, line),
{
    assert forall|i: int, j: int|
        0 <= i < config.patterns@.len() && 0 <= j < other.patterns@.len() && (
        #[trigger] config.patterns@[i])@ == (
        #[trigger] other.patterns@[j])@ implies searched_alike(
        a.patterns()[i],
        b.patterns()[j],
        line,
    ) by {
        assert(a.patterns()[i].needle() == b.patterns()[j].needle());
    }
}

proof fn lemma_onig_alike(
    a: Matcher<onig_engine::CompiledPattern>,
    config: Config,
    b: Matcher<onig_engine::CompiledPattern>,
    other: Config,
    line: Seq<u8>,
)
    requires
        a.compiled_from(config),
        b.compiled_from(other),
        same_reading(config, other),
        search_heeds_process(config) ==> one_process(a.patterns(), b.patterns()),
    ensures
        alike_by_text(a, config, b, other, line),
{
    assert forall|i: int, j: int|
        0 <= i < config.patterns@.len() && 0 <= j < other.patterns@.len() && (
        #[trigger] config.patterns@[i])@ == (
        #[trigger] other.patterns@[j])@ implies searched_alike(
        a.patterns()[i],
        b.patterns()[j],
        line,
    ) by {
        if search_heeds_process(config) {
            assert(same_process(a.patterns()[i], b.patterns()[j]));
        }
        law_same_text_is_searched_alike(
            a.patterns()[i],
            config.patterns@[i]@,
            config,
            b.patterns()[j],
            other.patterns@[j]@,
            other,
            line,
        );
    }
}

proof fn lemma_covered<E: Engine>(
    a: Matcher<E>,
    config: Config,
    b: Matcher<E>,
    other: Config,
    line: Seq<u8>,
)
    requires
        a.compiled_from(config),
        b.compiled_from(other),
        alike_by_text(a, config, b, other, line),
        same_patterns(config, other),
    ensures
        is_covered(a.patterns(), b.patterns(), line),
{
    let (texts, others) = (texts_of(config.patterns@), texts_of(other.patterns@));
    assert forall|i: int| 0 <= i < a.patterns().len() implies #[trigger] is_one_of(
        a.patterns()[i],
        b.patterns(),
        line,
    ) by {
        assert(texts.contains(texts[i]));
        assert(texts.to_set().contains(texts[i]));
        assert(others.to_set().contains(texts[i]));
        let j = choose|j: int| 0 <= j < others.len() && others[j] == texts[i];
        assert(config.patterns@[i]@ == other.patterns@[j]@);
        assert(searched_alike(a.patterns()[i], b.patterns()[j], line));
    }
}

proof fn lemma_all_alike<E: Engine>(
    a: Matcher<E>,
    b: Matcher<E>,
    config: Config,
    line: Seq<u8>,
)
    requires
        a.compiled_from(config),
        b.compiled_from(inverted(config)),
        alike_by_text(a, config, b, inverted(config), line),
    ensures
        all_searched_alike(a.patterns(), b.patterns(), line),
{
    assert forall|i: int| 0 <= i < a.patterns().len() implies searched_alike(
        #[trigger] a.patterns()[i],
        b.patterns()[i],
        line,
    ) by {
        assert(config.patterns@[i]@ == inverted(config).patterns@[i]@);
    }
}

proof fn lemma_joined_alike<E: Engine>(
    joined: Matcher<E>,
    all: Config,
    p: Matcher<E>,
    first: Config,
    q: Matcher<E>,
    second: Config,
    line: Seq<u8>,
)
    requires
        joined.compiled_from(all),
        p.compiled_from(first),
        q.compiled_from(second),
        has_both(all, first, second),
        alike_by_text(joined, all, p, first, line),
        alike_by_text(joined, all, q, second, line),
    ensures
        all_searched_alike(joined.patterns(), p.patterns() + q.patterns(), line),
{
    let both = p.patterns() + q.patterns();
    let n = first.patterns@.len();
    let texts = texts_of(all.patterns@);
    assert(texts.len() == all.patterns@.len());
    assert forall|i: int| 0 <= i < joined.patterns().len() implies searched_alike(
        #[trigger] joined.patterns()[i],
        both[i],
        line,
    ) by {
        assert(texts[i] == all.patterns@[i]@);
        if i < n {
            assert(texts[i] == texts_of(first.patterns@)[i]);
            assert(all.patterns@[i]@ == first.patterns@[i]@);
        } else {
            assert(texts[i] == texts_of(second.patterns@)[i - n]);
            assert(all.patterns@[i]@ == second.patterns@[i - n]@);
        }
    }
}

/// Two searches for the same literals, in whatever order and however often each
/// is given, want the same lines and highlight the same in them.
pub proof fn law_literals_are_a_set(
    a: Matcher<literal_engine::CompiledPattern>,
    config: Config,
    b: Matcher<literal_engine::CompiledPattern>,
    other: Config,
    line: Seq<u8>,
)
    requires
        a.compiled_from(config),
        b.compiled_from(other),
        same_patterns(config, other),
        same_filters(config, other),
        line.len() <= usize::MAX,
    ensures
        line_matches(a.patterns(), line) is Ok,
        line_matches(b.patterns(), line) is Ok,
        selection::<literal_engine::CompiledPattern>(
            config,
            line,
            line_matches(a.patterns(), line)->Ok_0,
        ) == selection::<literal_engine::CompiledPattern>(
            other,
            line,
            line_matches(b.patterns(), line)->Ok_0,
        ),
        is_wanted(config, a.patterns(), line) == is_wanted(other, b.patterns(), line),
{
    law_literal_search_never_fails(a, config, line);
    lemma_literal_alike(a, config, b, other, line);
    lemma_literal_alike(b, other, a, config, line);
    lemma_covered(a, config, b, other, line);
    lemma_covered(b, other, a, config, line);
    law_patterns_are_a_set(config, other, a.patterns(), b.patterns(), line);
}

/// Two searches by Oniguruma for the same patterns, in whatever order and however
/// often each is given, want the same lines and highlight the same in them, where
/// the matches can be listed. In Perl syntax this holds where no search goes back;
/// there, and where case is ignored, the patterns have to be compiled in the same
/// state of the process.
pub proof fn law_regexes_are_a_set(
    a: Matcher<onig_engine::CompiledPattern>,
    config: Config,
    b: Matcher<onig_engine::CompiledPattern>,
    other: Config,
    line: Seq<u8>,
)
    requires
        a.compiled_from(config),
        b.compiled_from(other),
        search_heeds_process(config) ==> one_process(a.patterns(), b.patterns()),
        same_patterns(config, other),
        same_reading(config, other),
        same_filters(config, other),
        config.regex_mode == RegexMode::Perl ==> none_goes_back(a.patterns(), line),
        line_matches(a.patterns(), line) is Ok,
    ensures
        line_matches(b.patterns(), line) is Ok,
        selection::<onig_engine::CompiledPattern>(
            config,
            line,
            line_matches(a.patterns(), line)->Ok_0,
        ) == selection::<onig_engine::CompiledPattern>(
            other,
            line,
            line_matches(b.patterns(), line)->Ok_0,
        ),
        is_wanted(config, a.patterns(), line) == is_wanted(other, b.patterns(), line),
{
    assert(search_heeds_process(config) ==> one_process(b.patterns(), a.patterns())) by {
        assert forall|j: int, i: int|
            search_heeds_process(config) && 0 <= j < b.patterns().len() && 0 <= i
                < a.patterns().len() implies same_process(
            #[trigger] b.patterns()[j],
            #[trigger] a.patterns()[i],
        ) by {
            assert(same_process(a.patterns()[i], b.patterns()[j]));
        }
    }
    assert forall|i: int| 0 <= i < a.patterns().len() implies never_goes_back(
        #[trigger] a.patterns()[i],
        line,
    ) by {
        if config.regex_mode != RegexMode::Perl {
            law_posix_searches_never_go_back(
                a.patterns()[i],
                config.patterns@[i]@,
                config,
                line,
            );
        }
    }
    lemma_onig_alike(a, config, b, other, line);
    lemma_onig_alike(b, other, a, config, line);
    lemma_covered(a, config, b, other, line);
    lemma_covered(b, other, a, config, line);
    law_patterns_are_a_set(config, other, a.patterns(), b.patterns(), line);
}

/// Two searches for literals that differ in `-v` alone want complementary lines,
/// and the one with `-v` highlights nothing.
pub proof fn law_inverted_literals_want_the_other_lines(
    a: Matcher<literal_engine::CompiledPattern>,
    b: Matcher<literal_engine::CompiledPattern>,
    config: Config,
    line: Seq<u8>,
)
    requires
        !config.invert_match,
        a.compiled_from(config),
        b.compiled_from(inverted(config)),
        line.len() <= usize::MAX,
    ensures
        line_matches(a.patterns(), line) is Ok,
        line_matches(b.patterns(), line) is Ok,
        ({
            let positions = selection::<literal_engine::CompiledPattern>(
                config,
                line,
                line_matches(a.patterns(), line)->Ok_0,
            );
            let other = selection::<literal_engine::CompiledPattern>(
                inverted(config),
                line,
                line_matches(b.patterns(), line)->Ok_0,
            );
            &&& positions is Some <==> other is None
            &&& other matches Some(highlights) ==> highlights.len() == 0
            &&& is_wanted(config, a.patterns(), line) == Ok::<bool, Fault>(positions is Some)
            &&& is_wanted(inverted(config), b.patterns(), line) == Ok::<bool, Fault>(
                other is Some,
            )
        }),
{
    law_literal_search_never_fails(a, config, line);
    lemma_literal_alike(a, config, b, inverted(config), line);
    lemma_all_alike(a, b, config, line);
    law_inverted_search_wants_the_other_lines(config, a.patterns(), b.patterns(), line);
}

/// Two searches by Oniguruma that differ in `-v` alone want complementary lines,
/// and the one with `-v` highlights nothing. In Perl syntax, and where case is
/// ignored, the patterns have to be compiled in the same state of the process.
pub proof fn law_inverted_regexes_want_the_other_lines(
    a: Matcher<onig_engine::CompiledPattern>,
    b: Matcher<onig_engine::CompiledPattern>,
    config: Config,
    line: Seq<u8>,
)
    requires
        !config.invert_match,
        a.compiled_from(config),
        b.compiled_from(inverted(config)),
        search_heeds_process(config) ==> one_process(a.patterns(), b.patterns()),
        line_matches(a.patterns(), line) is Ok,
    ensures
        line_matches(b.patterns(), line) is Ok,
        ({
            let positions = selection::<onig_engine::CompiledPattern>(
                config,
                line,
                line_matches(a.patterns(), line)->Ok_0,
            );
            let other = selection::<onig_engine::CompiledPattern>(
                inverted(config),
                line,
                line_matches(b.patterns(), line)->Ok_0,
            );
            &&& positions is Some <==> other is None
            &&& other matches Some(highlights) ==> highlights.len() == 0
            &&& is_wanted(config, a.patterns(), line) == Ok::<bool, Fault>(positions is Some)
            &&& is_wanted(inverted(config), b.patterns(), line) == Ok::<bool, Fault>(
                other is Some,
            )
        }),
{
    lemma_onig_alike(a, config, b, inverted(config), line);
    lemma_all_alike(a, b, config, line);
    law_inverted_search_wants_the_other_lines(config, a.patterns(), b.patterns(), line);
}

/// A search for the literals of two lists wants a line exactly if the search for
/// those of one of the lists does.
pub proof fn law_joined_literals_match_either(
    joined: Matcher<literal_engine::CompiledPattern>,
    all: Config,
    p: Matcher<literal_engine::CompiledPattern>,
    first: Config,
    q: Matcher<literal_engine::CompiledPattern>,
    second: Config,
    line: Seq<u8>,
)
    requires
        joined.compiled_from(all),
        p.compiled_from(first),
        q.compiled_from(second),
        has_both(all, first, second),
        same_filters(all, first),
        same_filters(all, second),
        !all.line_regexp,
        !all.word_regexp,
        !all.invert_match,
        line.len() <= usize::MAX,
    ensures
        is_wanted(first, p.patterns(), line) is Ok,
        is_wanted(second, q.patterns(), line) is Ok,
        is_wanted(all, joined.patterns(), line) == Ok::<bool, Fault>(
            is_wanted(first, p.patterns(), line)->Ok_0 || is_wanted(
                second,
                q.patterns(),
                line,
            )->Ok_0,
        ),
{
    law_literal_search_never_fails(p, first, line);
    law_literal_search_never_fails(q, second, line);
    lemma_literal_alike(joined, all, p, first, line);
    lemma_literal_alike(joined, all, q, second, line);
    lemma_joined_alike(joined, all, p, first, q, second, line);
    law_joined_lists_match_either(all, p.patterns(), q.patterns(), joined.patterns(), line);
}

/// A search by Oniguruma for the patterns of two lists wants a line exactly if
/// the search for those of one of the lists does, where neither fails. In Perl
/// syntax, and where case is ignored, the patterns have to be compiled in the same
/// state of the process.
pub proof fn law_joined_regexes_match_either(
    joined: Matcher<onig_engine::CompiledPattern>,
    all: Config,
    p: Matcher<onig_engine::CompiledPattern>,
    first: Config,
    q: Matcher<onig_engine::CompiledPattern>,
    second: Config,
    line: Seq<u8>,
)
    requires
        joined.compiled_from(all),
        p.compiled_from(first),
        q.compiled_from(second),
        search_heeds_process(all) ==> one_process(joined.patterns(), p.patterns()),
        search_heeds_process(all) ==> one_process(joined.patterns(), q.patterns()),
        has_both(all, first, second),
        same_reading(all, first),
        same_reading(all, second),
        same_filters(all, first),
        same_filters(all, second),
        !all.line_regexp,
        !all.word_regexp,
        !all.invert_match,
        is_wanted(first, p.patterns(), line) is Ok,
        is_wanted(second, q.patterns(), line) is Ok,
    ensures
        is_wanted(all, joined.patterns(), line) == Ok::<bool, Fault>(
            is_wanted(first, p.patterns(), line)->Ok_0 || is_wanted(
                second,
                q.patterns(),
                line,
            )->Ok_0,
        ),
{
    lemma_onig_alike(joined, all, p, first, line);
    lemma_onig_alike(joined, all, q, second, line);
    lemma_joined_alike(joined, all, p, first, q, second, line);
    law_joined_lists_match_either(all, p.patterns(), q.patterns(), joined.patterns(), line);
}

} // verus!
