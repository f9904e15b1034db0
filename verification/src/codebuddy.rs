//! Usage of CodeBuddy sessions: traces, and the logs of the CodeBuddy CN IDE.

use crate::patterns;
use crate::patterns::find_group;
use crate::text;
use crate::text::CharClass;
use vstd::prelude::*;
use vstd::string::*;

verus! {

// ---------------------------------------------------------------------------
// Model names
// ---------------------------------------------------------------------------

/// `s` without a prefix, where it begins with it.
pub open spec fn without_prefix(s: Seq<char>, prefix: Seq<char>) -> Seq<char> {
    if text::begins_with(s, prefix) {
        s.skip(prefix.len() as int)
    } else {
        s
    }
}

/// What is left of a candidate for a model name without quotes, parentheses and
/// commas around it, without full stops behind it and without the prefix of
/// local models.
pub open spec fn bare_name(raw: Seq<char>) -> Seq<char> {
    let unquoted = text::strip_class(text::trimmed(raw), CharClass::Quote);
    let undotted = text::drop_class(unquoted, CharClass::Dot);
    text::trimmed(without_prefix(undotted, "custom-local:"@))
}

/// Whether a name is none: empty, or `the` or `unknown` in any case.
pub open spec fn is_no_name(s: Seq<char>) -> bool {
    s.len() == 0 || text::lower(s) == text::lower("the"@) || text::lower(s) == text::lower(
        "unknown"@,
    )
}

/// The model name in a candidate, where there is one.
pub open spec fn clean_name(raw: Seq<char>) -> Option<Seq<char>> {
    if is_no_name(bare_name(raw)) {
        None
    } else {
        Some(bare_name(raw))
    }
}

fn without_prefix_of<'a>(s: &'a str, prefix: &str) -> (r: &'a str)
    ensures
        r@ == without_prefix(s@, prefix@),
{
    if text::starts_with_text(s, prefix) {
        text::text_after(s, prefix.unicode_len())
    } else {
        s
    }
}

/// Takes the model name out of a candidate, where there is one.
pub fn clean_model_name(raw: &str) -> (r: Option<String>)
    ensures
        match r {
            Some(s) => clean_name(raw@) == Some(s@),
            None => clean_name(raw@) is None,
        },
{
    let unquoted = text::strip_class_of(text::trim_text(raw), CharClass::Quote);
    let undotted = text::drop_class_of(unquoted, CharClass::Dot);
    let name = text::trim_text(without_prefix_of(undotted, "custom-local:"));
    if name.is_empty() || text::same_ignoring_case(name, "the") || text::same_ignoring_case(
        name,
        "unknown",
    ) {
        None
    } else {
        Some(name.to_owned())
    }
}

/// The first candidate that has a model name, else `unknown`.
pub open spec fn first_name(
    exact: Option<Seq<char>>,
    powered_by: Option<Seq<char>>,
    listed: Option<Seq<char>>,
) -> Seq<char> {
    if exact is Some && clean_name(exact->0) is Some {
        clean_name(exact->0)->0
    } else if powered_by is Some && clean_name(powered_by->0) is Some {
        clean_name(powered_by->0)->0
    } else if listed is Some && clean_name(listed->0) is Some {
        clean_name(listed->0)->0
    } else {
        "unknown"@
    }
}

/// The first of the models of a trace.
pub open spec fn first_of(models: Seq<Seq<char>>) -> Option<Seq<char>> {
    if models.len() > 0 {
        Some(models[0])
    } else {
        None
    }
}

/// The model of a span: what its input gives as the exact model, else what
/// `powered by` names in it, else the first model of the trace, else `unknown`.
pub open spec fn span_model(tool_input: Seq<char>, models: Seq<Seq<char>>) -> Seq<char> {
    first_name(
        patterns::regex_group("The exact model ID is ([A-Za-z0-9.-]+)"@, tool_input, 1),
        patterns::regex_group("powered by ([A-Za-z0-9.-]+)"@, tool_input, 1),
        first_of(models),
    )
}

/// The first candidate that has a model name, else `unknown`.
pub fn choose_model(exact: Option<String>, powered_by: Option<String>, models: &Vec<String>) -> (r:
    String)
    ensures
        r@ == first_name(text::opt_view(exact), text::opt_view(powered_by), first_of(text::views(models@))),
{
    if let Some(m) = exact {
        if let Some(name) = clean_model_name(m.as_str()) {
            return name;
        }
    }
    if let Some(m) = powered_by {
        if let Some(name) = clean_model_name(m.as_str()) {
            return name;
        }
    }
    if models.len() > 0 {
        assert(text::views(models@)[0] == models@[0]@);
        if let Some(name) = clean_model_name(models[0].as_str()) {
            return name;
        }
    }
    "unknown".to_owned()
}

/// Finds the model of a span.
pub fn extract_model(tool_input: &str, models: &Vec<String>) -> (r: String)
    ensures
        r@ == span_model(tool_input@, text::views(models@)),
{
    choose_model(
        find_group("The exact model ID is ([A-Za-z0-9.-]+)", tool_input, 1),
        find_group("powered by ([A-Za-z0-9.-]+)", tool_input, 1),
        models,
    )
}

/// A cleaned model name is not empty, and neither `the` nor `unknown` in any
/// case.
pub proof fn law_clean_name_is_a_name(raw: Seq<char>)
    ensures
        clean_name(raw) matches Some(s) ==> s.len() > 0 && text::lower(s) != text::lower("the"@)
            && text::lower(s) != text::lower("unknown"@),
{
}

/// Whatever the input of a span holds, its model is never `the` in any case.
pub proof fn law_model_is_never_the(tool_input: Seq<char>, models: Seq<Seq<char>>)
    ensures
        text::lower(span_model(tool_input, models)) != text::lower("the"@),
        span_model(tool_input, models).len() > 0,
{
    reveal_strlit("unknown");
    reveal_strlit("the");
    assert(text::lower("unknown"@).len() == 7);
    assert(text::lower("the"@).len() == 3);
}

/// Whether a text is the name of a model as it stands: no quotes, parentheses or
/// commas around it, no full stop behind it, no prefix of local models, and
/// neither `the` nor `unknown`.
pub open spec fn is_plain_name(s: Seq<char>) -> bool {
    &&& text::is_bare(s)
    &&& !CharClass::Quote.has(s[0]) && !CharClass::Quote.has(s.last())
    &&& s.last() != '.'
    &&& !text::begins_with(s, "custom-local:"@)
    &&& text::lower(s) != text::lower("the"@)
    &&& text::lower(s) != text::lower("unknown"@)
}

/// A plain name is kept as it is.
pub proof fn law_plain_names_stay(s: Seq<char>)
    requires
        is_plain_name(s),
    ensures
        clean_name(s) == Some(s),
{
    text::lemma_bare_stays(s);
    assert(text::skip_class(s, CharClass::Quote) == s);
    assert(text::drop_class(s, CharClass::Quote) == s);
    assert(text::drop_class(s, CharClass::Dot) == s);
}

/// A span has the model that its input gives as the exact one; without one, the
/// model that it is powered by; without either, the first model of the trace;
/// and `unknown` where there is none.
pub proof fn law_span_has_its_model(
    tool_input: Seq<char>,
    models: Seq<Seq<char>>,
    name: Seq<char>,
)
    requires
        is_plain_name(name),
    ensures
        ({
            let exact = patterns::regex_group(
                "The exact model ID is ([A-Za-z0-9.-]+)"@,
                tool_input,
                1,
            );
            let powered = patterns::regex_group("powered by ([A-Za-z0-9.-]+)"@, tool_input, 1);
            &&& exact == Some(name) ==> span_model(tool_input, models) == name
            &&& exact is None && powered == Some(name) ==> span_model(tool_input, models) == name
            &&& exact is None && powered is None && models.len() > 0 && models[0] == name
                ==> span_model(tool_input, models) == name
            &&& exact is None && powered is None && models.len() == 0 ==> span_model(
                tool_input,
                models,
            ) == "unknown"@
        }),
{
    law_plain_names_stay(name);
}

/// A model name is found in its candidate, whatever quotes, parentheses and commas
/// stand around it, with the prefix of local models before it or without, and
/// with full stops behind it.
pub proof fn law_name_is_found_in_its_wrapping(
    before: Seq<char>,
    name: Seq<char>,
    dots: Seq<char>,
    after: Seq<char>,
)
    requires
        text::is_all(before, CharClass::Quote),
        text::is_all(after, CharClass::Quote),
        text::is_all(dots, CharClass::Dot),
        is_plain_name(name),
    ensures
        clean_name(before + (name + dots) + after) == Some(name),
        clean_name(before + ("custom-local:"@ + name + dots) + after) == Some(name),
{
    reveal_strlit("custom-local:");
    let prefix = "custom-local:"@;
    lemma_wrapped_name(before, name, dots, after);
    let local = prefix + name;
    assert(local[0] == 'c');
    assert(local.last() == name.last());
    lemma_wrapped_name(before, local, dots, after);
    assert(text::begins_with(local, prefix)) by {
        assert(local.take(prefix.len() as int) =~= prefix);
    }
    assert(local.skip(prefix.len() as int) =~= name);
    text::lemma_bare_stays(name);
}

proof fn lemma_wrapped_name(
    before: Seq<char>,
    s: Seq<char>,
    dots: Seq<char>,
    after: Seq<char>,
)
    requires
        text::is_all(before, CharClass::Quote),
        text::is_all(after, CharClass::Quote),
        text::is_all(dots, CharClass::Dot),
        text::is_bare(s),
        !CharClass::Quote.has(s[0]) && !CharClass::Quote.has(s.last()),
        s.last() != '.',
    ensures
        bare_name(before + (s + dots) + after) == text::trimmed(
            without_prefix(s, "custom-local:"@),
        ),
{
    let x = s + dots;
    let all = before + x + after;
    assert(x[0] == s[0]);
    if dots.len() > 0 {
        assert(x.last() == dots[dots.len() - 1]);
    } else {
        assert(x == s);
    }
    assert(!CharClass::Quote.has(x.last()));
    if before.len() > 0 {
        assert(all[0] == before[0]);
    } else {
        assert(all[0] == s[0]);
    }
    if after.len() > 0 {
        assert(all.last() == after[after.len() - 1]);
    } else {
        assert(all.last() == x.last());
    }
    text::lemma_bare_stays(all);
    text::law_class_is_stripped(before, x, after, CharClass::Quote);
    text::law_end_is_dropped(s, dots, CharClass::Dot);
}

/// A candidate that is no name, such as `the` or `unknown`, is passed over: the
/// next one counts.
pub proof fn law_no_name_is_passed_over(
    tool_input: Seq<char>,
    models: Seq<Seq<char>>,
    word: Seq<char>,
    name: Seq<char>,
)
    requires
        text::is_bare(word),
        !CharClass::Quote.has(word[0]) && !CharClass::Quote.has(word.last()),
        word.last() != '.',
        !text::begins_with(word, "custom-local:"@),
        text::lower(word) == text::lower("the"@) || text::lower(word) == text::lower("unknown"@),
        is_plain_name(name),
    ensures
        ({
            let exact = patterns::regex_group(
                "The exact model ID is ([A-Za-z0-9.-]+)"@,
                tool_input,
                1,
            );
            let powered = patterns::regex_group("powered by ([A-Za-z0-9.-]+)"@, tool_input, 1);
            &&& clean_name(word) is None
            &&& exact == Some(word) && powered == Some(name) ==> span_model(tool_input, models)
                == name
            &&& (exact is None || exact == Some(word)) && powered == Some(word) && models.len() > 0
                && models[0] == name ==> span_model(tool_input, models) == name
        }),
{
    let none = Seq::<char>::empty();
    assert(none + (word + none) + none == word);
    lemma_wrapped_name(none, word, none, none);
    text::lemma_bare_stays(word);
    law_plain_names_stay(name);
}

} // verus!
