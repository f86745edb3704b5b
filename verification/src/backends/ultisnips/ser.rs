//! Writer for the line format.
//!
//! Each record becomes one `snippet ... endsnippet` block followed by a blank
//! line. A `priority` line is written wherever the priority differs from the
//! one in force, which is 0 at the start of the file.

use super::de::{kw_endsnippet, kw_snippet, newline, space};
use crate::number::{decimal_text, push_decimal};
use crate::text::{from_chars, is_space, char_is_space, push_char, to_chars};
use crate::{Snippet, SnippetFile, SnippetView};
use vstd::prelude::*;
use vstd::string::StringExecFns;

verus! {

/// Why a file could not be written.
#[derive(Clone, Debug, PartialEq, Eq)]
pub enum SerializeError {
    /// The trigger needs quotes and holds every character that could serve
    /// as one.
    CouldNotQuote { trigger: String },
}

/// A [`SerializeError`] as mathematical values.
pub enum SerializeErrorView {
    CouldNotQuote { trigger: Seq<char> },
}

impl View for SerializeError {
    type V = SerializeErrorView;

    open spec fn view(&self) -> SerializeErrorView {
        match self {
            SerializeError::CouldNotQuote { trigger } => SerializeErrorView::CouldNotQuote {
                trigger: trigger@,
            },
        }
    }
}

impl SerializeErrorView {
    /// The error in words.
    pub open spec fn message(self) -> Seq<char> {
        match self {
            SerializeErrorView::CouldNotQuote { trigger } => "The trigger "@ + trigger
                + " has so many special characters that I'm unable to find a proper quote character, in order to insert it properly. Please consider using a more sane trigger, or open a bug report with your trigger and usecase."@,
        }
    }
}

impl SerializeError {
    /// The error in words.
    pub fn message(&self) -> (out: String)
        ensures
            out@ == self@.message(),
    {
        match self {
            SerializeError::CouldNotQuote { trigger } => String::from_str("The trigger ").concat(
                trigger.as_str(),
            ).concat(
                " has so many special characters that I'm unable to find a proper quote character, in order to insert it properly. Please consider using a more sane trigger, or open a bug report with your trigger and usecase.",
            ),
        }
    }
}

/// The characters that may quote a trigger, most preferred first.
pub open spec fn quote_candidates() -> Seq<char> {
    "\"'#!?%|/^~=&:,$&¢αβγδμ´¹²³ඞ"@
}

/// Whether `s` holds whitespace.
pub open spec fn has_space(s: Seq<char>) -> bool {
    exists|i: int| 0 <= i < s.len() && is_space(#[trigger] s[i])
}

/// The first of `candidates` that does not occur in `text`.
pub open spec fn first_absent(candidates: Seq<char>, text: Seq<char>) -> Option<char>
    decreases candidates.len(),
{
    if candidates.len() == 0 {
        None
    } else if !text.contains(candidates[0]) {
        Some(candidates[0])
    } else {
        first_absent(candidates.drop_first(), text)
    }
}

/// How a trigger is written after the word `snippet`: a space, then the
/// trigger as it is where it holds no whitespace, else the trigger between
/// two copies of the first candidate that it does not hold. `None` where
/// it holds whitespace and every candidate.
pub open spec fn trigger_text(trigger: Seq<char>) -> Option<Seq<char>> {
    if !has_space(trigger) {
        Some(space() + trigger)
    } else {
        match first_absent(quote_candidates(), trigger) {
            Some(q) => Some(space() + seq![q] + trigger + seq![q]),
            None => None,
        }
    }
}

/// Whether `c` is a flag that only other formats know.
pub open spec fn is_mode_flag(c: char) -> bool {
    c == 't' || c == 'm' || c == 'c'
}

/// `options` without the flags that only other formats know; the others
/// keep their order.
pub open spec fn without_modes(options: Seq<char>) -> Seq<char>
    decreases options.len(),
{
    if options.len() == 0 {
        Seq::empty()
    } else if is_mode_flag(options.last()) {
        without_modes(options.drop_last())
    } else {
        without_modes(options.drop_last()).push(options.last())
    }
}

/// What the filter leaves holds no flag that only other formats know, and
/// options without such a flag pass as they are.
pub proof fn lemma_without_modes(options: Seq<char>)
    ensures
        forall|i: int|
            0 <= i < without_modes(options).len() ==> !is_mode_flag(
                #[trigger] without_modes(options)[i],
            ),
        without_modes(options).len() <= options.len(),
        (forall|i: int| 0 <= i < options.len() ==> !is_mode_flag(#[trigger] options[i]))
            ==> without_modes(options) == options,
        without_modes(without_modes(options)) == without_modes(options),
    decreases options.len(),
{
    if options.len() > 0 {
        let front = options.drop_last();
        lemma_without_modes(front);
        if forall|i: int| 0 <= i < options.len() ==> !is_mode_flag(#[trigger] options[i]) {
            assert forall|i: int| 0 <= i < front.len() implies !is_mode_flag(
                #[trigger] front[i],
            ) by {
                assert(front[i] == options[i]);
            }
            assert(front.push(options.last()) =~= options);
        }
        if !is_mode_flag(options.last()) {
            let kept = without_modes(front).push(options.last());
            assert(kept.drop_last() =~= without_modes(front));
        }
    }
}

/// What follows the trigger on the signature line: nothing where the record
/// has neither description nor options, else the quoted description (empty
/// where there is none) and, where there are options, the filtered options.
pub open spec fn annotation_text(description: Option<Seq<char>>, options: Option<Seq<char>>) -> Seq<
    char,
> {
    if description is None && options is None {
        Seq::empty()
    } else {
        let quoted = " \""@ + (match description {
            Some(d) => d,
            None => Seq::empty(),
        }) + "\""@;
        match options {
            Some(o) => quoted + space() + without_modes(o),
            None => quoted,
        }
    }
}

/// The priority that a record is written with.
pub open spec fn effective_priority(priority: Option<i64>) -> i64 {
    match priority {
        Some(n) => n,
        None => 0,
    }
}

/// The directive that switches from priority `last` to `effective`.
pub open spec fn priority_text(effective: i64, last: i64) -> Seq<char> {
    if effective == last {
        Seq::empty()
    } else {
        "priority "@ + decimal_text(effective as int) + newline()
    }
}

/// The text of one record, written while priority `last` is in force.
pub open spec fn block_text(record: SnippetView, last: i64) -> Result<
    Seq<char>,
    SerializeErrorView,
> {
    match trigger_text(record.trigger) {
        None => Err(SerializeErrorView::CouldNotQuote { trigger: record.trigger }),
        Some(trigger) => Ok(
            priority_text(effective_priority(record.priority), last) + kw_snippet() + trigger
                + annotation_text(record.description, record.options) + newline()
                + record.replacement + newline() + kw_endsnippet() + newline() + newline(),
        ),
    }
}

/// The text of `records`, written while priority `last` is in force, or the
/// error of the first record that cannot be written.
pub open spec fn render_from(records: Seq<SnippetView>, last: i64) -> Result<
    Seq<char>,
    SerializeErrorView,
>
    decreases records.len(),
{
    if records.len() == 0 {
        Ok(Seq::empty())
    } else {
        match block_text(records[0], last) {
            Err(e) => Err(e),
            Ok(text) => match render_from(
                records.drop_first(),
                effective_priority(records[0].priority),
            ) {
                Err(e) => Err(e),
                Ok(rest) => Ok(text + rest),
            },
        }
    }
}

/// The text of a whole file.
pub open spec fn render(records: Seq<SnippetView>) -> Result<Seq<char>, SerializeErrorView> {
    render_from(records, 0)
}

/// Removes from `options` the flags that only other formats know.
pub fn filter_options(options: &str) -> (out: String)
    ensures
        out@ == without_modes(options@),
{
    let chars = to_chars(options);
    let mut out = String::new();
    let mut i: usize = 0;
    assert(chars@.take(0) =~= Seq::<char>::empty());
    while i < chars.len()
        invariant
            i <= chars.len(),
            chars@ == options@,
            out@ == without_modes(chars@.take(i as int)),
        decreases chars.len() - i,
    {
        let c = chars[i];
        proof {
            assert(chars@.take(i as int + 1).drop_last() =~= chars@.take(i as int));
        }
        if !(c == 't' || c == 'm' || c == 'c') {
            push_char(&mut out, c);
        }
        i += 1;
    }
    assert(chars@.take(chars.len() as int) =~= chars@);
    out
}

/// A record with the options that the line format knows.
pub open spec fn with_known_options(record: SnippetView) -> SnippetView {
    SnippetView {
        trigger: record.trigger,
        replacement: record.replacement,
        options: match record.options {
            Some(o) => Some(without_modes(o)),
            None => None,
        },
        description: record.description,
        priority: record.priority,
    }
}

/// Makes a file of records that come from another format: each keeps what
/// it has, but for the flags among its options that only that format knows.
pub fn filter_snippets(snippets: &Vec<Snippet>) -> (out: SnippetFile)
    ensures
        out@ == snippets@.map_values(|s: Snippet| with_known_options(s@)),
{
    let mut kept: Vec<Snippet> = Vec::new();
    let mut i: usize = 0;
    while i < snippets.len()
        invariant
            i <= snippets.len(),
            kept@.map_values(|s: Snippet| s@) == snippets@.take(i as int).map_values(
                |s: Snippet| with_known_options(s@),
            ),
        decreases snippets.len() - i,
    {
        let snippet = &snippets[i];
        let options = match &snippet.options {
            Some(o) => Some(filter_options(o.as_str())),
            None => None,
        };
        let description = match &snippet.description {
            Some(d) => Some(d.clone()),
            None => None,
        };
        let record = Snippet {
            trigger: snippet.trigger.clone(),
            replacement: snippet.replacement.clone(),
            options,
            description,
            priority: snippet.priority,
        };
        proof {
            assert(record@ == with_known_options(snippet@));
            assert(snippets@.take(i as int + 1) =~= snippets@.take(i as int).push(*snippet));
            assert(kept@.push(record).map_values(|s: Snippet| s@) =~= kept@.map_values(
                |s: Snippet| s@,
            ).push(record@));
            assert(snippets@.take(i as int).push(*snippet).map_values(
                |s: Snippet| with_known_options(s@),
            ) =~= snippets@.take(i as int).map_values(
                |s: Snippet| with_known_options(s@),
            ).push(with_known_options(snippet@)));
        }
        kept.push(record);
        i += 1;
    }
    assert(snippets@.take(snippets.len() as int) =~= snippets@);
    SnippetFile { snippets: kept }
}

fn has_whitespace(text: &Vec<char>) -> (b: bool)
    ensures
        b == has_space(text@),
{
    let mut i: usize = 0;
    while i < text.len()
        invariant
            i <= text.len(),
            forall|j: int| 0 <= j < i ==> !is_space(#[trigger] text@[j]),
        decreases text.len() - i,
    {
        if char_is_space(text[i]) {
            return true;
        }
        i += 1;
    }
    false
}

fn contains_char(text: &Vec<char>, c: char) -> (b: bool)
    ensures
        b == text@.contains(c),
{
    let mut i: usize = 0;
    while i < text.len()
        invariant
            i <= text.len(),
            forall|j: int| 0 <= j < i ==> text@[j] != c,
        decreases text.len() - i,
    {
        if text[i] == c {
            return true;
        }
        i += 1;
    }
    false
}

fn find_quote(trigger: &Vec<char>) -> (out: Option<char>)
    ensures
        out == first_absent(quote_candidates(), trigger@),
{
    let candidates = to_chars("\"'#!?%|/^~=&:,$&¢αβγδμ´¹²³ඞ");
    let mut i: usize = 0;
    assert(candidates@.skip(0) =~= candidates@);
    while i < candidates.len()
        invariant
            i <= candidates.len(),
            candidates@ == quote_candidates(),
            first_absent(quote_candidates(), trigger@) == first_absent(
                candidates@.skip(i as int),
                trigger@,
            ),
        decreases candidates.len() - i,
    {
        if !contains_char(trigger, candidates[i]) {
            return Some(candidates[i]);
        }
        proof {
            assert(candidates@.skip(i as int).drop_first() =~= candidates@.skip(i as int + 1));
        }
        i += 1;
    }
    None
}

/// Writes the `priority` line for a record with priority `priority`, unless
/// that priority is in force already, and notes it as the one in force.
fn write_and_update_priority(output: &mut String, last_priority: &mut i64, priority: Option<i64>)
    ensures
        *final(last_priority) == effective_priority(priority),
        final(output)@ == old(output)@ + priority_text(
            effective_priority(priority),
            *old(last_priority),
        ),
{
    let effective = match priority {
        Some(n) => n,
        None => 0,
    };
    if effective == *last_priority {
        assert(output@ + Seq::<char>::empty() =~= output@);
        return ;
    }
    let mut number: Vec<char> = Vec::new();
    push_decimal(&mut number, effective);
    let number = from_chars(&number);
    output.append("priority ");
    output.append(number.as_str());
    output.append("\n");
    *last_priority = effective;
    proof {
        assert(number@ =~= decimal_text(effective as int));
        assert(output@ =~= old(output)@ + ("priority "@ + decimal_text(effective as int)
            + newline()));
    }
}

/// Writes a space and the trigger, in quotes where it holds whitespace.
fn write_trigger(output: &mut String, trigger: &str) -> (out: Result<(), SerializeError>)
    ensures
        match trigger_text(trigger@) {
            Some(text) => out is Ok && final(output)@ == old(output)@ + text,
            None => (out matches Err(e) && e@ == SerializeErrorView::CouldNotQuote {
                trigger: trigger@,
            }) && final(output)@ == old(output)@,
        },
{
    let chars = to_chars(trigger);
    if !has_whitespace(&chars) {
        output.append(" ");
        output.append(trigger);
        assert(output@ =~= old(output)@ + (space() + trigger@));
        return Ok(());
    }
    match find_quote(&chars) {
        Some(quote) => {
            output.append(" ");
            push_char(output, quote);
            output.append(trigger);
            push_char(output, quote);
            assert(output@ =~= old(output)@ + (space() + seq![quote] + trigger@ + seq![quote]));
            Ok(())
        },
        None => Err(SerializeError::CouldNotQuote { trigger: from_chars(&chars) }),
    }
}

/// Writes the quoted description and the filtered options, where the record
/// has either.
fn write_description_and_options(
    output: &mut String,
    description: &Option<String>,
    options: &Option<String>,
)
    ensures
        final(output)@ == old(output)@ + annotation_text(
            crate::opt_text(*description),
            crate::opt_text(*options),
        ),
{
    if description.is_none() && options.is_none() {
        assert(output@ + Seq::<char>::empty() =~= output@);
        return ;
    }
    output.append(" \"");
    match description {
        Some(d) => {
            output.append(d.as_str());
        },
        None => {},
    }
    output.append("\"");
    let ghost quoted = " \""@ + (match crate::opt_text(*description) {
        Some(d) => d,
        None => Seq::empty(),
    }) + "\""@;
    assert(output@ =~= old(output)@ + quoted);
    match options {
        Some(o) => {
            let kept = filter_options(o.as_str());
            output.append(" ");
            output.append(kept.as_str());
            assert(output@ =~= old(output)@ + (quoted + space() + without_modes(o@)));
        },
        None => {},
    }
}

/// Writes the block of one record, with a `priority` line before it where
/// its priority is not the one in force.
fn write_block(output: &mut String, last_priority: &mut i64, snippet: &Snippet) -> (out: Result<
    (),
    SerializeError,
>)
    ensures
        match block_text(snippet@, *old(last_priority)) {
            Ok(text) => out is Ok && final(output)@ == old(output)@ + text,
            Err(e) => out matches Err(f) && f@ == e,
        },
        *final(last_priority) == effective_priority(snippet.priority),
{
    write_and_update_priority(output, last_priority, snippet.priority);
    output.append("snippet");
    let ghost head = output@;
    match write_trigger(output, snippet.trigger.as_str()) {
        Ok(()) => {},
        Err(e) => {
            return Err(e);
        },
    }
    write_description_and_options(output, &snippet.description, &snippet.options);
    let ghost line = output@;
    assert(line =~= old(output)@ + (priority_text(
        effective_priority(snippet.priority),
        *old(last_priority),
    ) + kw_snippet() + trigger_text(snippet@.trigger)->Some_0 + annotation_text(
        snippet@.description,
        snippet@.options,
    )));
    output.append("\n");
    output.append(snippet.replacement.as_str());
    output.append("\n");
    let ghost body = output@;
    assert(body =~= line + (newline() + snippet@.replacement + newline()));
    output.append("endsnippet");
    output.append("\n");
    output.append("\n");
    assert(output@ =~= body + (kw_endsnippet() + newline() + newline()));
    assert(output@ =~= old(output)@ + block_text(snippet@, *old(last_priority))->Ok_0);
    Ok(())
}

/// Writes a file in the line format.
///
/// The result is the text of every record in order, or the error of the
/// first record whose trigger cannot be quoted; the file itself is left as
/// it is.
pub fn serialize(snippets: &SnippetFile) -> (out: Result<String, SerializeError>)
    ensures
        match render(snippets@) {
            Ok(text) => out matches Ok(s) && s@ == text,
            Err(e) => out matches Err(f) && f@ == e,
        },
{
    let mut output = String::new();
    let mut last_priority: i64 = 0;
    let ghost all = snippets@;
    let mut i: usize = 0;
    assert(all.skip(0) =~= all);
    while i < snippets.snippets.len()
        invariant
            i <= snippets.snippets.len(),
            all == snippets@,
            render(all) == (match render_from(all.skip(i as int), last_priority) {
                Ok(rest) => Ok(output@ + rest),
                Err(e) => Err(e),
            }),
        decreases snippets.snippets.len() - i,
    {
        let snippet = &snippets.snippets[i];
        let ghost before = output@;
        let ghost last = last_priority;
        let ghost tail = all.skip(i as int);
        assert(tail[0] == snippet@);
        assert(tail.drop_first() =~= all.skip(i as int + 1));
        match write_block(&mut output, &mut last_priority, snippet) {
            Ok(()) => {},
            Err(e) => {
                return Err(e);
            },
        }
        proof {
            let text = block_text(snippet@, last)->Ok_0;
            match render_from(all.skip(i as int + 1), last_priority) {
                Ok(rest) => {
                    assert(output@ + rest =~= before + (text + rest));
                },
                Err(_) => {},
            }
        }
        i += 1;
    }
    proof {
        assert(all.skip(i as int).len() == 0);
        assert(output@ + Seq::<char>::empty() =~= output@);
    }
    Ok(output)
}

} // verus!
