//! Reader for the line format.
//!
//! A file is read line by line. Comment lines (`# ...`) and blank lines are
//! skipped, a `priority <n>` line sets the priority of every block after it,
//! and `snippet <signature>` opens a block that runs up to the next
//! `endsnippet` line.

use crate::number::{parse_i64, parse_int};
use crate::text::{
    from_chars, join, join_range, lemma_split_ws_words, lines, push_all, split_lines, split_whitespace, split_ws, string_views,
    text_is, to_chars, trim, trimmed, views,
};
use crate::{Snippet, SnippetFile, SnippetView};
use unicode_segmentation::UnicodeSegmentation;
use vstd::prelude::*;
use vstd::string::StringExecFns;

verus! {

/// Why a file could not be read.
#[derive(Clone, Debug, PartialEq, Eq)]
pub enum ParseError {
    /// A line starts with a word that is no directive.
    UnknownDirective { directive: String },
    /// A block is still open where the input ends.
    UnterminatedSnippet { signature: String },
    /// Nothing stands after `snippet`.
    MissingSnippetTrigger,
    /// The description is a single `"`.
    UnmatchedDescQuote,
    /// Nothing stands after `priority`.
    MissingPriorityNumber,
    /// What stands after `priority` is no 64-bit integer.
    ParsePriorityNumber { subject: String },
}

/// A [`ParseError`] as mathematical values.
pub enum ParseErrorView {
    UnknownDirective { directive: Seq<char> },
    UnterminatedSnippet { signature: Seq<char> },
    MissingSnippetTrigger,
    UnmatchedDescQuote,
    MissingPriorityNumber,
    ParsePriorityNumber { subject: Seq<char> },
}

impl View for ParseError {
    type V = ParseErrorView;

    open spec fn view(&self) -> ParseErrorView {
        match self {
            ParseError::UnknownDirective { directive } => ParseErrorView::UnknownDirective {
                directive: directive@,
            },
            ParseError::UnterminatedSnippet { signature } => ParseErrorView::UnterminatedSnippet {
                signature: signature@,
            },
            ParseError::MissingSnippetTrigger => ParseErrorView::MissingSnippetTrigger,
            ParseError::UnmatchedDescQuote => ParseErrorView::UnmatchedDescQuote,
            ParseError::MissingPriorityNumber => ParseErrorView::MissingPriorityNumber,
            ParseError::ParsePriorityNumber { subject } => ParseErrorView::ParsePriorityNumber {
                subject: subject@,
            },
        }
    }
}

impl ParseErrorView {
    /// The error in words.
    pub open spec fn message(self) -> Seq<char> {
        match self {
            ParseErrorView::UnknownDirective { directive } => "unknown directive: `"@ + directive
                + "`"@,
            ParseErrorView::UnterminatedSnippet { signature } => "found no `endsnippet` after `"@
                + signature + "`"@,
            ParseErrorView::MissingSnippetTrigger => "found no trigger after `snippet`"@,
            ParseErrorView::UnmatchedDescQuote => "description consists of only one unmatched quote"@,
            ParseErrorView::MissingPriorityNumber => "found no number after `priority` directive"@,
            ParseErrorView::ParsePriorityNumber { subject } => "tried to parse number in `"@
                + subject + "` but failed"@,
        }
    }
}

impl ParseError {
    /// The error in words.
    pub fn message(&self) -> (out: String)
        ensures
            out@ == self@.message(),
    {
        match self {
            ParseError::UnknownDirective { directive } => String::from_str(
                "unknown directive: `",
            ).concat(directive.as_str()).concat("`"),
            ParseError::UnterminatedSnippet { signature } => String::from_str(
                "found no `endsnippet` after `",
            ).concat(signature.as_str()).concat("`"),
            ParseError::MissingSnippetTrigger => String::from_str(
                "found no trigger after `snippet`",
            ),
            ParseError::UnmatchedDescQuote => String::from_str(
                "description consists of only one unmatched quote",
            ),
            ParseError::MissingPriorityNumber => String::from_str(
                "found no number after `priority` directive",
            ),
            ParseError::ParsePriorityNumber { subject } => String::from_str(
                "tried to parse number in `",
            ).concat(subject.as_str()).concat("` but failed"),
        }
    }
}

/// The word that opens a block.
pub open spec fn kw_snippet() -> Seq<char> {
    "snippet"@
}

/// The word that closes a block.
pub open spec fn kw_endsnippet() -> Seq<char> {
    "endsnippet"@
}

/// The word that sets the priority.
pub open spec fn kw_priority() -> Seq<char> {
    "priority"@
}

/// A single space, which stands between the words of a signature.
pub open spec fn space() -> Seq<char> {
    " "@
}

/// A line feed, which stands between the lines of a body.
pub open spec fn newline() -> Seq<char> {
    "\n"@
}

pub open spec fn starts_with_quote(t: Seq<char>) -> bool {
    t.len() > 0 && t[0] == '"'
}

pub open spec fn ends_with_quote(t: Seq<char>) -> bool {
    t.len() > 0 && t.last() == '"'
}

/// `s` without its first and its last character.
pub open spec fn strip_ends(s: Seq<char>) -> Seq<char> {
    if s.len() >= 2 {
        s.subrange(1, s.len() - 1)
    } else {
        Seq::empty()
    }
}

/// Whether the last word is an options word: it does not end in `"`, and the
/// word before it does.
pub open spec fn has_options(parts: Seq<Seq<char>>) -> bool {
    &&& parts.len() >= 2
    &&& !ends_with_quote(parts.last())
    &&& ends_with_quote(parts[parts.len() - 2])
}

/// Where the description starts: the index of the last word that starts with
/// `"`, or 0 where no word after the first does.
pub open spec fn desc_start(parts: Seq<Seq<char>>) -> int
    decreases parts.len(),
{
    if parts.len() <= 1 {
        0
    } else if starts_with_quote(parts.last()) {
        parts.len() - 1
    } else {
        desc_start(parts.drop_last())
    }
}

/// Whether the description is one word of one character.
pub open spec fn lone_quote(parts: Seq<Seq<char>>) -> bool {
    desc_start(parts) == parts.len() - 1 && parts.last().len() == 1
}

/// The extended grapheme clusters of `s`, in order, as
/// `unicode_segmentation` finds them.
pub uninterp spec fn grapheme_clusters(s: Seq<char>) -> Seq<Seq<char>>;

/// `s` without its first and its last user-perceived character; empty where
/// `s` has fewer than two of them.
pub open spec fn strip_outer_graphemes(s: Seq<char>) -> Seq<char> {
    inner_clusters(grapheme_clusters(s))
}

/// The trigger that the words `rest` stand for, where `rest[0]` is the word
/// `snippet`. One word after it is the trigger itself. More are a quoted
/// trigger: joined by single spaces, and stripped of the first and the last
/// user-perceived character, whatever they are. A block whose trigger would
/// be empty has none.
pub open spec fn trigger_of(rest: Seq<Seq<char>>) -> Option<Seq<char>> {
    let trigger = if rest.len() >= 3 {
        strip_outer_graphemes(join(rest.skip(1), space()))
    } else if rest.len() == 2 {
        rest[1]
    } else {
        Seq::empty()
    };
    if trigger.len() > 0 {
        Some(trigger)
    } else {
        None
    }
}

/// What the words of a signature line say, `parts[0]` being the word
/// `snippet`: a record with the trigger, the description and the options, an
/// empty replacement and no priority.
pub open spec fn signature(parts: Seq<Seq<char>>) -> Result<SnippetView, ParseErrorView> {
    if parts.len() <= 1 {
        Err(ParseErrorView::MissingSnippetTrigger)
    } else if parts.len() == 2 {
        Ok(
            SnippetView {
                trigger: parts[1],
                replacement: Seq::empty(),
                options: None,
                description: None,
                priority: None,
            },
        )
    } else {
        let options = if has_options(parts) {
            Some(parts.last())
        } else {
            None
        };
        let before = if has_options(parts) {
            parts.drop_last()
        } else {
            parts
        };
        let described = ends_with_quote(before.last());
        if described && lone_quote(before) {
            Err(ParseErrorView::UnmatchedDescQuote)
        } else {
            let description = if described {
                Some(strip_ends(join(before.skip(desc_start(before)), space())))
            } else {
                None
            };
            let rest = if described {
                before.take(desc_start(before))
            } else {
                before
            };
            match trigger_of(rest) {
                None => Err(ParseErrorView::MissingSnippetTrigger),
                Some(trigger) => Ok(
                    SnippetView {
                        trigger,
                        replacement: Seq::empty(),
                        options,
                        description,
                        priority: None,
                    },
                ),
            }
        }
    }
}

/// The priority that a `priority` line sets; `line` is the trimmed line.
pub open spec fn priority_of(line: Seq<char>) -> Result<i64, ParseErrorView> {
    let words = split_ws(line);
    if words.len() < 2 {
        Err(ParseErrorView::MissingPriorityNumber)
    } else {
        match parse_int(words[1]) {
            Some(n) => Ok(n),
            None => Err(ParseErrorView::ParsePriorityNumber { subject: line }),
        }
    }
}

/// The record of one block: `head` is its trimmed first line, `body` the
/// lines between that and the closing line, taken as they are.
pub open spec fn block(head: Seq<char>, body: Seq<Seq<char>>, priority: Option<i64>) -> Result<
    SnippetView,
    ParseErrorView,
> {
    match signature(split_ws(head)) {
        Err(e) => Err(e),
        Ok(sig) => Ok(
            SnippetView {
                trigger: sig.trigger,
                replacement: join(body, newline()),
                options: sig.options,
                description: sig.description,
                priority,
            },
        ),
    }
}

/// Whether `line` closes a block.
pub open spec fn is_block_end(line: Seq<char>) -> bool {
    trim(line) == kw_endsnippet()
}

/// How many lines stand before the first closing line.
pub open spec fn body_len(lines: Seq<Seq<char>>) -> nat
    decreases lines.len(),
{
    if lines.len() == 0 || is_block_end(lines[0]) {
        0
    } else {
        1 + body_len(lines.drop_first())
    }
}

/// `first` put in front of the records of `rest`, where there are any.
pub open spec fn prepend(first: Seq<SnippetView>, rest: Result<Seq<SnippetView>, ParseErrorView>)
    -> Result<Seq<SnippetView>, ParseErrorView> {
    match rest {
        Ok(records) => Ok(first + records),
        Err(e) => Err(e),
    }
}

/// The records of a file given by its lines, read with `current` as the
/// priority in force at the first of them; or the first error.
pub open spec fn parse_lines(lines: Seq<Seq<char>>, current: Option<i64>) -> Result<
    Seq<SnippetView>,
    ParseErrorView,
>
    decreases lines.len(),
{
    if lines.len() == 0 {
        Ok(Seq::empty())
    } else {
        let line = trim(lines[0]);
        let words = split_ws(line);
        if (line.len() > 0 && line[0] == '#') || words.len() == 0 {
            parse_lines(lines.drop_first(), current)
        } else if words[0] == kw_snippet() {
            let n = body_len(lines.drop_first()) as int;
            if n + 2 > lines.len() {
                Err(ParseErrorView::UnterminatedSnippet { signature: line })
            } else {
                match block(line, lines.subrange(1, n + 1), current) {
                    Err(e) => Err(e),
                    Ok(record) => prepend(seq![record], parse_lines(lines.skip(n + 2), current)),
                }
            }
        } else if words[0] == kw_priority() {
            match priority_of(line) {
                Err(e) => Err(e),
                Ok(n) => parse_lines(lines.drop_first(), Some(n)),
            }
        } else {
            Err(ParseErrorView::UnknownDirective { directive: words[0] })
        }
    }
}

/// The records that the text of a file stands for, or the first error in it.
pub open spec fn parse_text(input: Seq<char>) -> Result<Seq<SnippetView>, ParseErrorView> {
    parse_lines(lines(input), None)
}

/// Splits `s` with `UnicodeSegmentation::graphemes(s, true)` and hands out
/// each cluster as a string of its own, in order.
#[verifier::external_body]
fn graphemes_of(s: &str) -> (out: Vec<String>)
    ensures
        string_views(out@) == grapheme_clusters(s@),
{
    s.graphemes(true).map(|g| g.to_string()).collect()
}

/// What is left of a text, given by its clusters, without the first and the
/// last of them; nothing where there are fewer than two.
pub open spec fn inner_clusters(clusters: Seq<Seq<char>>) -> Seq<char> {
    if clusters.len() >= 2 {
        join(clusters.subrange(1, clusters.len() - 1), Seq::empty())
    } else {
        Seq::empty()
    }
}

/// Puts the clusters of a text together again, without the first and the
/// last of them.
pub fn strip_outer(clusters: &Vec<String>) -> (out: Vec<char>)
    ensures
        out@ == inner_clusters(string_views(clusters@)),
{
    let mut out: Vec<char> = Vec::new();
    let n = clusters.len();
    if n < 2 {
        return out;
    }
    let ghost all = string_views(clusters@);
    let mut i: usize = 1;
    assert(all.subrange(1, 1) =~= Seq::<Seq<char>>::empty());
    while i < n - 1
        invariant
            1 <= i <= n - 1,
            n == clusters.len(),
            all == string_views(clusters@),
            out@ == join(all.subrange(1, i as int), Seq::empty()),
        decreases n - i,
    {
        let piece = to_chars(clusters[i].as_str());
        proof {
            let sub = all.subrange(1, i as int + 1);
            assert(sub.drop_last() =~= all.subrange(1, i as int));
            assert(sub.last() == piece@);
            assert(join(sub, Seq::empty()) =~= out@ + piece@);
        }
        push_all(&mut out, &piece);
        i += 1;
    }
    out
}

/// Removes the first and the last user-perceived character of `quoted`.
pub fn strip_quotes(quoted: &Vec<char>) -> (out: Vec<char>)
    ensures
        out@ == strip_outer_graphemes(quoted@),
{
    let text = from_chars(quoted);
    let clusters = graphemes_of(text.as_str());
    strip_outer(&clusters)
}

fn starts_quoted(word: &Vec<char>) -> (b: bool)
    ensures
        b == starts_with_quote(word@),
{
    word.len() > 0 && word[0] == '"'
}

fn ends_quoted(word: &Vec<char>) -> (b: bool)
    ensures
        b == ends_with_quote(word@),
{
    word.len() > 0 && word[word.len() - 1] == '"'
}

/// Takes the options word off the end of `parts`, if there is one.
fn maybe_parse_options(parts: &mut Vec<Vec<char>>) -> (out: Option<String>)
    requires
        old(parts).len() >= 2,
    ensures
        has_options(views(old(parts)@)) ==> (out matches Some(o) && o@ == views(
            old(parts)@,
        ).last()) && views(final(parts)@) == views(old(parts)@).drop_last(),
        !has_options(views(old(parts)@)) ==> out is None && final(parts)@ == old(parts)@,
{
    let n = parts.len();
    if !ends_quoted(&parts[n - 1]) && ends_quoted(&parts[n - 2]) {
        match parts.pop() {
            Some(last) => {
                proof {
                    assert(views(parts@) =~= views(old(parts)@).drop_last());
                }
                Some(from_chars(&last))
            },
            None => None,
        }
    } else {
        None
    }
}

/// Takes the description off the end of `parts`, if there is one: the words
/// from the last one that starts with `"` on, joined by single spaces and
/// stripped of the quotes at both ends.
fn maybe_parse_description(parts: &mut Vec<Vec<char>>) -> (out: Result<Option<String>, ParseError>)
    requires
        old(parts).len() >= 1,
    ensures
        ({
            let before = views(old(parts)@);
            if !ends_with_quote(before.last()) {
                (out matches Ok(None)) && final(parts)@ == old(parts)@
            } else if lone_quote(before) {
                (out matches Err(e) && e@ == ParseErrorView::UnmatchedDescQuote) && final(parts)@
                    == old(parts)@
            } else {
                &&& (out matches Ok(Some(d)) && d@ == strip_ends(
                    join(before.skip(desc_start(before)), space()),
                ))
                &&& views(final(parts)@) == before.take(desc_start(before))
            }
        }),
{
    let n = parts.len();
    if !ends_quoted(&parts[n - 1]) {
        return Ok(None);
    }
    let ghost before = views(parts@);
    let mut k: usize = n - 1;
    assert(before.take(n as int) =~= before);
    while k > 0 && !starts_quoted(&parts[k])
        invariant
            k < n,
            n == parts.len(),
            before == views(parts@),
            desc_start(before) == desc_start(before.take(k as int + 1)),
        decreases k,
    {
        proof {
            assert(before.take(k as int + 1).drop_last() =~= before.take(k as int));
        }
        k -= 1;
    }
    assert(desc_start(before) == k);
    if k == n - 1 && parts[k].len() == 1 {
        return Err(ParseError::UnmatchedDescQuote);
    }
    let joined = join_range(parts, k, n, " ");
    assert(before.subrange(k as int, n as int) =~= before.skip(k as int));
    parts.truncate(k);
    assert(views(parts@) =~= before.take(k as int));
    let mut inner: Vec<char> = Vec::new();
    if joined.len() >= 2 {
        let mut i: usize = 1;
        while i < joined.len() - 1
            invariant
                1 <= i <= joined.len() - 1,
                inner@ == joined@.subrange(1, i as int),
            decreases joined.len() - i,
        {
            inner.push(joined[i]);
            i += 1;
        }
    }
    Ok(Some(from_chars(&inner)))
}

/// Reads a signature line: `snippet <trigger> [ "<description>" [ <options> ] ]`.
fn extract_signature(line: &Vec<char>) -> (out: Result<Snippet, ParseError>)
    requires
        split_ws(line@).len() >= 1,
    ensures
        match signature(split_ws(line@)) {
            Ok(sig) => out matches Ok(s) && s@ == sig,
            Err(e) => out matches Err(f) && f@ == e,
        },
{
    let mut parts = split_whitespace(line);
    if parts.len() == 1 {
        return Err(ParseError::MissingSnippetTrigger);
    }
    if parts.len() == 2 {
        return Ok(
            Snippet {
                trigger: from_chars(&parts[1]),
                replacement: String::new(),
                options: None,
                description: None,
                priority: None,
            },
        );
    }
    let options = maybe_parse_options(&mut parts);
    let description = match maybe_parse_description(&mut parts) {
        Ok(d) => d,
        Err(e) => {
            return Err(e);
        },
    };
    let ghost rest = views(parts@);
    let trigger = if parts.len() >= 3 {
        let quoted = join_range(&parts, 1, parts.len(), " ");
        assert(rest.subrange(1, rest.len() as int) =~= rest.skip(1));
        strip_quotes(&quoted)
    } else if parts.len() == 2 {
        let mut word: Vec<char> = Vec::new();
        push_all(&mut word, &parts[1]);
        word
    } else {
        Vec::new()
    };
    if trigger.len() == 0 {
        return Err(ParseError::MissingSnippetTrigger);
    }
    Ok(
        Snippet {
            trigger: from_chars(&trigger),
            replacement: String::new(),
            options,
            description,
            priority: None,
        },
    )
}

/// Reads the number of a `priority` line; `line` is the trimmed line.
fn parse_priority(line: &Vec<char>) -> (out: Result<i64, ParseError>)
    ensures
        match priority_of(line@) {
            Ok(n) => out == Ok::<i64, ParseError>(n),
            Err(e) => out matches Err(f) && f@ == e,
        },
{
    let words = split_whitespace(line);
    if words.len() < 2 {
        return Err(ParseError::MissingPriorityNumber);
    }
    match parse_i64(&words[1]) {
        Some(n) => Ok(n),
        None => Err(ParseError::ParsePriorityNumber { subject: from_chars(line) }),
    }
}

/// Builds the record of the block whose trimmed first line is `head` and
/// whose body is `lines[from..to]`.
fn parse_snippet(
    head: &Vec<char>,
    lines: &Vec<Vec<char>>,
    from: usize,
    to: usize,
    priority: Option<i64>,
) -> (out: Result<Snippet, ParseError>)
    requires
        split_ws(head@).len() >= 1,
        from <= to <= lines.len(),
    ensures
        match block(head@, views(lines@).subrange(from as int, to as int), priority) {
            Ok(record) => out matches Ok(s) && s@ == record,
            Err(e) => out matches Err(f) && f@ == e,
        },
{
    let signature = match extract_signature(head) {
        Ok(s) => s,
        Err(e) => {
            return Err(e);
        },
    };
    let body = join_range(lines, from, to, "\n");
    Ok(
        Snippet {
            trigger: signature.trigger,
            replacement: from_chars(&body),
            options: signature.options,
            description: signature.description,
            priority,
        },
    )
}

/// The trigger of a signature is not empty, where no word is.
pub proof fn lemma_signature_trigger(parts: Seq<Seq<char>>)
    requires
        forall|i: int| 0 <= i < parts.len() ==> (#[trigger] parts[i]).len() > 0,
    ensures
        signature(parts) matches Ok(sig) ==> sig.trigger.len() > 0,
{
}

/// No record that is read has an empty trigger.
pub proof fn lemma_parsed_triggers(lines: Seq<Seq<char>>, current: Option<i64>)
    ensures
        parse_lines(lines, current) matches Ok(records) ==> forall|i: int|
            0 <= i < records.len() ==> (#[trigger] records[i]).trigger.len() > 0,
    decreases lines.len(),
{
    if lines.len() > 0 {
        let line = trim(lines[0]);
        let words = split_ws(line);
        if (line.len() > 0 && line[0] == '#') || words.len() == 0 {
            lemma_parsed_triggers(lines.drop_first(), current);
        } else if words[0] == kw_snippet() {
            let n = body_len(lines.drop_first()) as int;
            if n + 2 <= lines.len() {
                lemma_split_ws_words(line);
                lemma_signature_trigger(words);
                lemma_parsed_triggers(lines.skip(n + 2), current);
                match block(line, lines.subrange(1, n + 1), current) {
                    Ok(record) => {
                        match parse_lines(lines.skip(n + 2), current) {
                            Ok(rest) => {
                                let records = seq![record] + rest;
                                assert forall|i: int| 0 <= i < records.len() implies (
                                #[trigger] records[i]).trigger.len() > 0 by {
                                    if i > 0 {
                                        assert(records[i] == rest[i - 1]);
                                    }
                                }
                            },
                            Err(_) => {},
                        }
                    },
                    Err(_) => {},
                }
            }
        } else if words[0] == kw_priority() {
            match priority_of(line) {
                Ok(n) => {
                    lemma_parsed_triggers(lines.drop_first(), Some(n));
                },
                Err(_) => {},
            }
        }
    }
}

/// Reads a file in the line format.
///
/// The result is the list of its blocks in file order, each with the
/// priority that was in force where it stands, or the first error met. No
/// record that comes out has an empty trigger.
pub fn deserialize(input: &str) -> (out: Result<SnippetFile, ParseError>)
    ensures
        match parse_text(input@) {
            Ok(records) => out matches Ok(file) && file@ == records,
            Err(e) => out matches Err(f) && f@ == e,
        },
        out matches Ok(file) ==> forall|i: int|
            0 <= i < file@.len() ==> (#[trigger] file@[i]).trigger.len() > 0,
{
    proof {
        lemma_parsed_triggers(lines(input@), None);
    }
    let chars = to_chars(input);
    let lines = split_lines(&chars);
    let ghost all = views(lines@);
    let mut snippets: Vec<Snippet> = Vec::new();
    let mut current: Option<i64> = None;
    let mut i: usize = 0;
    assert(all.skip(0) =~= all);
    assert(snippets@.map_values(|s: Snippet| s@) =~= Seq::<SnippetView>::empty());
    while i < lines.len()
        invariant
            i <= lines.len(),
            all == views(lines@),
            parse_text(input@) == prepend(
                snippets@.map_values(|s: Snippet| s@),
                parse_lines(all.skip(i as int), current),
            ),
        decreases lines.len() - i,
    {
        let ghost rest = all.skip(i as int);
        let ghost done = snippets@.map_values(|s: Snippet| s@);
        let line = trimmed(&lines[i]);
        let words = split_whitespace(&line);
        assert(line@ == trim(rest[0]));
        assert(rest.drop_first() =~= all.skip(i as int + 1));
        if (line.len() > 0 && line[0] == '#') || words.len() == 0 {
            i += 1;
        } else if text_is(&words[0], "snippet") {
            let mut end: usize = i + 1;
            while end < lines.len() && !is_end_line(&lines[end])
                invariant
                    i + 1 <= end <= lines.len(),
                    all == views(lines@),
                    body_len(all.skip(i as int + 1)) == (end - (i + 1)) + body_len(
                        all.skip(end as int),
                    ),
                decreases lines.len() - end,
            {
                proof {
                    assert(all.skip(end as int).drop_first() =~= all.skip(end as int + 1));
                }
                end += 1;
            }
            let ghost n = (end - (i + 1)) as int;
            assert(body_len(all.skip(end as int)) == 0);
            if end >= lines.len() {
                return Err(ParseError::UnterminatedSnippet { signature: from_chars(&line) });
            }
            assert(rest.subrange(1, n + 1) =~= all.subrange(i as int + 1, end as int));
            assert(rest.skip(n + 2) =~= all.skip(end as int + 1));
            let snippet = match parse_snippet(&line, &lines, i + 1, end, current) {
                Ok(s) => s,
                Err(e) => {
                    return Err(e);
                },
            };
            proof {
                let next = parse_lines(all.skip(end as int + 1), current);
                assert(snippets@.push(snippet).map_values(|s: Snippet| s@) =~= done.push(
                    snippet@,
                ));
                match next {
                    Ok(records) => {
                        assert(done + (seq![snippet@] + records) =~= done.push(snippet@)
                            + records);
                    },
                    Err(_) => {},
                }
            }
            snippets.push(snippet);
            i = end + 1;
        } else if text_is(&words[0], "priority") {
            match parse_priority(&line) {
                Ok(n) => {
                    current = Some(n);
                },
                Err(e) => {
                    return Err(e);
                },
            }
            i += 1;
        } else {
            return Err(ParseError::UnknownDirective { directive: from_chars(&words[0]) });
        }
    }
    proof {
        assert(all.skip(i as int).len() == 0);
        assert(snippets@.map_values(|s: Snippet| s@) + Seq::<SnippetView>::empty()
            =~= snippets@.map_values(|s: Snippet| s@));
    }
    Ok(SnippetFile { snippets })
}

fn is_end_line(line: &Vec<char>) -> (b: bool)
    ensures
        b == is_block_end(line@),
{
    let t = trimmed(line);
    text_is(&t, "endsnippet")
}

} // verus!
