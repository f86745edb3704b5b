//! What holds of the reader and the writer together.

use super::de::{
    body_len, desc_start, ends_with_quote, has_options, is_block_end, kw_endsnippet,
    kw_priority, kw_snippet, lone_quote, newline, parse_lines, parse_text, prepend, priority_of,
    signature, space, starts_with_quote, strip_ends, strip_outer_graphemes, trigger_of,
    ParseErrorView,
};
use super::ser::{
    annotation_text, block_text, effective_priority, first_absent, has_space, is_mode_flag,
    lemma_without_modes, quote_candidates, render, render_from, trigger_text, without_modes,
    SerializeErrorView,
};
use crate::number::{decimal_text, is_digit, lemma_decimal_digits, lemma_parse_decimal};
use crate::text::{
    chomp_cr, is_space, join, lemma_join_ends, lemma_join_spaces, lemma_join_split_nl,
    lemma_split_ws_words, lemma_line_len_full, lemma_lines_body,
    lemma_lines_first, lemma_split_ws_concat, lemma_split_ws_trim, lemma_split_ws_word,
    lemma_trim_clean, lemma_trim_first, lines, split_nl, split_ws, trim,
};
use crate::SnippetView;
use vstd::prelude::*;

verus! {

/// The first line of the block that a record is written as.
pub open spec fn signature_line(record: SnippetView) -> Seq<char> {
    kw_snippet() + trigger_text(record.trigger).unwrap() + annotation_text(
        record.description,
        record.options,
    )
}

/// What a signature line alone says of a record.
pub open spec fn header(record: SnippetView) -> SnippetView {
    SnippetView {
        trigger: record.trigger,
        replacement: Seq::empty(),
        options: record.options,
        description: record.description,
        priority: None,
    }
}

/// Whether a piece of a body stays a line of the body when read.
pub open spec fn body_line(piece: Seq<char>) -> bool {
    chomp_cr(piece) == piece && !is_block_end(piece)
}

/// Whether the block of a record can be read back: the trigger can be
/// written, the signature line is one line whose words give the trigger, the
/// description and the options back, and no line of the replacement ends in
/// a carriage return or closes the block.
pub open spec fn reads_back(record: SnippetView) -> bool {
    &&& trigger_text(record.trigger) is Some
    &&& !signature_line(record).contains('\n')
    &&& signature(split_ws(signature_line(record))) == Ok::<SnippetView, ParseErrorView>(
        header(record),
    )
    &&& forall|i: int|
        0 <= i < split_nl(record.replacement).len() ==> body_line(
            #[trigger] split_nl(record.replacement)[i],
        )
}

/// The words and separators of the format, character by character.
pub proof fn lemma_keywords()
    ensures
        kw_snippet() =~= seq!['s', 'n', 'i', 'p', 'p', 'e', 't'],
        kw_endsnippet() =~= seq!['e', 'n', 'd', 's', 'n', 'i', 'p', 'p', 'e', 't'],
        kw_priority() =~= seq!['p', 'r', 'i', 'o', 'r', 'i', 't', 'y'],
        "priority "@ =~= seq!['p', 'r', 'i', 'o', 'r', 'i', 't', 'y', ' '],
        space() =~= seq![' '],
        newline() =~= seq!['\n'],
        " \""@ =~= seq![' ', '"'],
        "\""@ =~= seq!['"'],
{
    reveal_strlit("snippet");
    reveal_strlit("endsnippet");
    reveal_strlit("priority");
    reveal_strlit("priority ");
    reveal_strlit(" ");
    reveal_strlit("\n");
    reveal_strlit(" \"");
    reveal_strlit("\"");
}

/// The line that sets priority `n`.
pub open spec fn priority_line(n: i64) -> Seq<char> {
    "priority "@ + decimal_text(n as int)
}

/// The lines of the block that a record is written as while priority `last`
/// is in force.
pub open spec fn block_lines(record: SnippetView, last: i64) -> Seq<Seq<char>> {
    let directive = if effective_priority(record.priority) == last {
        Seq::<Seq<char>>::empty()
    } else {
        seq![priority_line(effective_priority(record.priority))]
    };
    directive + seq![chomp_cr(signature_line(record))] + split_nl(record.replacement)
        + seq![kw_endsnippet(), Seq::empty()]
}

/// What [`decimal_text`] writes holds digits and `-` only.
pub proof fn lemma_decimal_chars(n: int)
    ensures
        decimal_text(n).len() > 0,
        forall|i: int|
            0 <= i < decimal_text(n).len() ==> is_digit(#[trigger] decimal_text(n)[i])
                || decimal_text(n)[i] == '-',
{
    if n < 0 {
        lemma_decimal_digits((-n) as nat);
    } else {
        lemma_decimal_digits(n as nat);
    }
}

/// The lines of a written block, followed by more text, are the lines of the
/// block and the lines of that text.
pub proof fn lemma_block_lines(record: SnippetView, last: i64, rest: Seq<char>)
    requires
        trigger_text(record.trigger) is Some,
        !signature_line(record).contains('\n'),
        forall|i: int|
            0 <= i < split_nl(record.replacement).len() ==> body_line(
                #[trigger] split_nl(record.replacement)[i],
            ),
    ensures
        block_text(record, last) is Ok,
        lines(block_text(record, last)->Ok_0 + rest) == block_lines(record, last) + lines(rest),
{
    lemma_keywords();
    let nl = seq!['\n'];
    let sig = signature_line(record);
    let body = record.replacement;
    let end = kw_endsnippet();
    let empty = Seq::<char>::empty();
    let text = block_text(record, last)->Ok_0;
    let eff = effective_priority(record.priority);
    let t4 = empty + nl + rest;
    let t3 = end + nl + t4;
    let t2 = body + nl + t3;
    let t1 = sig + nl + t2;
    lemma_lines_first(empty, rest);
    assert(chomp_cr(empty) == empty);
    lemma_line_len_full(end);
    lemma_lines_first(end, t4);
    assert(chomp_cr(end) == end);
    lemma_lines_body(body, t3);
    lemma_line_len_full(sig);
    lemma_lines_first(sig, t2);
    assert(lines(t1) =~= seq![chomp_cr(sig)] + split_nl(body) + seq![end, empty] + lines(rest));
    if eff == last {
        assert(text + rest =~= t1);
        assert(block_lines(record, last) =~= seq![chomp_cr(sig)] + split_nl(body) + seq![
            end,
            empty,
        ]);
    } else {
        let prio = priority_line(eff);
        lemma_decimal_chars(eff as int);
        assert(!prio.contains('\n')) by {
            if prio.contains('\n') {
                let i = choose|i: int| 0 <= i < prio.len() && prio[i] == '\n';
                if i >= 9 {
                    assert(prio[i] == decimal_text(eff as int)[i - 9]);
                }
            }
        }
        lemma_line_len_full(prio);
        lemma_lines_first(prio, t1);
        assert(chomp_cr(prio) == prio) by {
            assert(prio.last() == decimal_text(eff as int).last());
        }
        assert(text + rest =~= prio + nl + t1);
        assert(block_lines(record, last) =~= seq![prio] + (seq![chomp_cr(sig)] + split_nl(body)
            + seq![end, empty]));
    }
}

/// As many lines as stand before the closing line belong to the body.
pub proof fn lemma_body_len(body: Seq<Seq<char>>, tail: Seq<Seq<char>>)
    requires
        forall|i: int| 0 <= i < body.len() ==> !is_block_end(#[trigger] body[i]),
        tail.len() > 0,
        is_block_end(tail[0]),
    ensures
        body_len(body + tail) == body.len(),
    decreases body.len(),
{
    let all = body + tail;
    if body.len() == 0 {
        assert(all[0] == tail[0]);
    } else {
        assert(all[0] == body[0]);
        assert(all.drop_first() =~= body.drop_first() + tail);
        assert forall|i: int| 0 <= i < body.drop_first().len() implies !is_block_end(
            #[trigger] body.drop_first()[i],
        ) by {
            assert(body.drop_first()[i] == body[i + 1]);
        }
        lemma_body_len(body.drop_first(), tail);
    }
}

/// A `priority` line as the writer makes it sets the priority for the lines
/// after it.
pub proof fn lemma_parse_priority_line(n: i64, after: Seq<Seq<char>>, current: Option<i64>)
    ensures
        parse_lines(seq![priority_line(n)] + after, current) == parse_lines(after, Some(n)),
{
    lemma_keywords();
    lemma_decimal_chars(n as int);
    lemma_parse_decimal(n);
    let number = decimal_text(n as int);
    let line = priority_line(n);
    let all = seq![line] + after;
    assert(line =~= kw_priority() + seq![' '] + number);
    assert(line.last() == number.last());
    lemma_trim_clean(line);
    lemma_split_ws_concat(kw_priority(), ' ', number);
    lemma_split_ws_word(kw_priority());
    lemma_split_ws_word(number);
    assert(split_ws(line) =~= seq![kw_priority(), number]);
    assert(all[0] == line);
    assert(all.drop_first() =~= after);
    assert(kw_priority().len() != kw_snippet().len());
    assert(priority_of(line) == Ok::<i64, ParseErrorView>(n));
}

/// A block as the writer makes it is read as its record, with the priority
/// in force, and reading goes on behind the blank line after it.
pub proof fn lemma_parse_block(record: SnippetView, after: Seq<Seq<char>>, current: Option<i64>)
    requires
        reads_back(record),
    ensures
        parse_lines(
            seq![chomp_cr(signature_line(record))] + split_nl(record.replacement) + seq![
                kw_endsnippet(),
                Seq::empty(),
            ] + after,
            current,
        ) == prepend(
            seq![
                SnippetView {
                    trigger: record.trigger,
                    replacement: record.replacement,
                    options: record.options,
                    description: record.description,
                    priority: current,
                },
            ],
            parse_lines(after, current),
        ),
{
    lemma_keywords();
    let sig = signature_line(record);
    let first = chomp_cr(sig);
    let body = split_nl(record.replacement);
    let end = kw_endsnippet();
    let empty = Seq::<char>::empty();
    let all = seq![first] + body + seq![end, empty] + after;
    let line = trim(first);
    let words = split_ws(line);
    let trigger = trigger_text(record.trigger)->Some_0;
    let tail = trigger.drop_first() + annotation_text(record.description, record.options);
    // the words of the line are those of the signature
    lemma_split_ws_trim(first);
    if first != sig {
        assert(sig =~= sig.drop_last() + seq![sig.last()] + empty);
        lemma_split_ws_concat(sig.drop_last(), sig.last(), empty);
        assert(split_ws(empty) =~= Seq::<Seq<char>>::empty());
        assert(split_ws(sig.drop_last()) + split_ws(empty) =~= split_ws(sig.drop_last()));
    }
    assert(words == split_ws(sig));
    // and the first of them is the keyword
    assert(trigger[0] == ' ');
    assert(sig =~= kw_snippet() + seq![' '] + tail);
    lemma_split_ws_concat(kw_snippet(), ' ', tail);
    lemma_split_ws_word(kw_snippet());
    assert(words[0] == kw_snippet());
    assert(first[0] == 's');
    lemma_trim_first(first);
    // the body runs up to the closing line
    lemma_trim_clean(end);
    let closing = seq![end, empty] + after;
    assert(closing[0] == end);
    lemma_body_len(body, closing);
    assert(all[0] == first);
    assert(all.drop_first() =~= body + closing);
    let n = body.len() as int;
    assert(all.subrange(1, n + 1) =~= body);
    lemma_join_split_nl(record.replacement);
    // the blank line after the block is skipped
    let blank = seq![empty] + after;
    assert(all.skip(n + 2) =~= blank);
    assert(blank[0] == empty);
    assert(blank.drop_first() =~= after);
    assert(split_ws(trim(empty)).len() == 0);
    assert(parse_lines(blank, current) == parse_lines(after, current));
}

/// The records as they are read back from what the writer makes of them,
/// where `current` is the priority in force: each with the priority in force
/// where its block stands, which is the one it was written with, or none
/// where that is 0 and no directive has come yet.
pub open spec fn reread(records: Seq<SnippetView>, current: Option<i64>) -> Seq<SnippetView>
    decreases records.len(),
{
    if records.len() == 0 {
        Seq::empty()
    } else {
        let next = next_priority(records[0], current);
        seq![
            SnippetView {
                trigger: records[0].trigger,
                replacement: records[0].replacement,
                options: records[0].options,
                description: records[0].description,
                priority: next,
            },
        ] + reread(records.drop_first(), next)
    }
}

/// The priority in force behind the block of `record`, where `current` is
/// in force before it.
pub open spec fn next_priority(record: SnippetView, current: Option<i64>) -> Option<i64> {
    if effective_priority(record.priority) == effective_priority(current) {
        current
    } else {
        Some(effective_priority(record.priority))
    }
}

/// Writing records and reading the text back, from any point of a file on,
/// gives the records as [`reread`] describes them.
pub proof fn lemma_round_trip_from(records: Seq<SnippetView>, current: Option<i64>)
    requires
        forall|i: int| 0 <= i < records.len() ==> reads_back(#[trigger] records[i]),
    ensures
        render_from(records, effective_priority(current)) is Ok,
        parse_lines(lines(render_from(records, effective_priority(current))->Ok_0), current) == Ok::<
            Seq<SnippetView>,
            ParseErrorView,
        >(reread(records, current)),
    decreases records.len(),
{
    let last = effective_priority(current);
    if records.len() == 0 {
        assert(lines(Seq::<char>::empty()) =~= Seq::<Seq<char>>::empty());
    } else {
        let record = records[0];
        let others = records.drop_first();
        let next = next_priority(record, current);
        assert(reads_back(record));
        assert forall|i: int| 0 <= i < others.len() implies reads_back(#[trigger] others[i]) by {
            assert(others[i] == records[i + 1]);
        }
        lemma_round_trip_from(others, next);
        let rest = render_from(others, effective_priority(next))->Ok_0;
        lemma_block_lines(record, last, rest);
        let text = block_text(record, last)->Ok_0;
        assert(render_from(records, last) == Ok::<Seq<char>, SerializeErrorView>(text + rest));
        let after = lines(rest);
        let block = seq![chomp_cr(signature_line(record))] + split_nl(record.replacement) + seq![
            kw_endsnippet(),
            Seq::empty(),
        ];
        lemma_parse_block(record, after, next);
        if effective_priority(record.priority) == last {
            assert(block_lines(record, last) + after =~= block + after);
        } else {
            let directive = priority_line(effective_priority(record.priority));
            assert(block_lines(record, last) + after =~= seq![directive] + (block + after));
            lemma_parse_priority_line(effective_priority(record.priority), block + after, current);
        }
    }
}

/// `records` with every absent priority made the explicit priority 0.
pub open spec fn normalized(records: Seq<SnippetView>) -> Seq<SnippetView> {
    records.map_values(
        |r: SnippetView|
            SnippetView {
                trigger: r.trigger,
                replacement: r.replacement,
                options: r.options,
                description: r.description,
                priority: Some(effective_priority(r.priority)),
            },
    )
}

/// What is read back differs from what was written in nothing but absent
/// priorities.
pub proof fn lemma_reread_normalized(records: Seq<SnippetView>, current: Option<i64>)
    ensures
        reread(records, current).len() == records.len(),
        normalized(reread(records, current)) == normalized(records),
    decreases records.len(),
{
    if records.len() == 0 {
        assert(normalized(reread(records, current)) =~= normalized(records));
    } else {
        let next = next_priority(records[0], current);
        lemma_reread_normalized(records.drop_first(), next);
        let back = reread(records, current);
        let others = reread(records.drop_first(), next);
        assert(back.len() == 1 + others.len());
        assert(normalized(back).len() == normalized(records).len());
        assert forall|i: int| 0 <= i < records.len() implies normalized(back)[i] == normalized(
            records,
        )[i] by {
            if i > 0 {
                assert(back[i] == others[i - 1]);
                assert(normalized(others)[i - 1] == normalized(records.drop_first())[i - 1]);
                assert(records.drop_first()[i - 1] == records[i]);
            }
        }
        assert(normalized(back) =~= normalized(records));
    }
}

/// The round trip: a file whose every record can be read back is written
/// without error, the text is read without error, and the records read are
/// the records written, but for absent priorities, which count as 0.
pub proof fn lemma_round_trip(records: Seq<SnippetView>)
    requires
        forall|i: int| 0 <= i < records.len() ==> reads_back(#[trigger] records[i]),
    ensures
        render(records) matches Ok(text) && parse_text(text) matches Ok(back) && normalized(back)
            == normalized(records),
{
    lemma_round_trip_from(records, None);
    lemma_reread_normalized(records, None);
}

/// Whether `text` is words with one space between each two neighbours, and
/// nothing else.
pub open spec fn single_spaced(text: Seq<char>) -> bool {
    join(split_ws(text), space()) == text
}

/// `text` between two copies of `quote`.
pub open spec fn quoted(text: Seq<char>, quote: char) -> Seq<char> {
    seq![quote] + text + seq![quote]
}

/// Whether a description is read back as it is written: in its quotes it is
/// single-spaced, and none of its words but the first starts with `"`.
pub open spec fn writable_description(description: Seq<char>) -> bool {
    let words = split_ws(quoted(description, '"'));
    &&& single_spaced(quoted(description, '"'))
    &&& forall|i: int| 1 <= i < words.len() ==> !starts_with_quote(#[trigger] words[i])
}

/// Whether options are read back as they are written: they are not empty,
/// hold neither whitespace nor a flag that the writer drops, and do not end
/// in `"`.
pub open spec fn writable_options(options: Seq<char>) -> bool {
    &&& options.len() > 0
    &&& forall|i: int|
        0 <= i < options.len() ==> !is_space(#[trigger] options[i]) && !is_mode_flag(options[i])
    &&& !ends_with_quote(options)
}

/// Whether a trigger is read back as it is written. One without whitespace
/// is, unless it is empty. One with whitespace is where there is a quote
/// character for it, in its quotes it is single-spaced, taking one
/// user-perceived character off each end of the quoted text leaves the
/// trigger, and, where no description follows (`described`), neither of the
/// last two words ends in `"`.
pub open spec fn writable_trigger(trigger: Seq<char>, described: bool) -> bool {
    if !has_space(trigger) {
        trigger.len() > 0
    } else {
        match first_absent(quote_candidates(), trigger) {
            None => false,
            Some(q) => {
                let words = split_ws(quoted(trigger, q));
                &&& single_spaced(quoted(trigger, q))
                &&& strip_outer_graphemes(quoted(trigger, q)) == trigger
                &&& described || (!ends_with_quote(words.last()) && !ends_with_quote(
                    words[words.len() - 2],
                ))
            },
        }
    }
}

/// Whether a record is read back as it is written: its trigger, its
/// description and its options are, options come with a description only,
/// and no line of the replacement ends in a carriage return or closes the
/// block.
pub open spec fn writable(record: SnippetView) -> bool {
    &&& writable_trigger(record.trigger, record.description is Some)
    &&& match record.description {
        Some(d) => writable_description(d),
        None => record.options is None,
    }
    &&& match record.options {
        Some(o) => writable_options(o),
        None => true,
    }
    &&& forall|i: int|
        0 <= i < split_nl(record.replacement).len() ==> body_line(
            #[trigger] split_nl(record.replacement)[i],
        )
}

/// The description starts at the first word of a phrase that stands last,
/// where only that word of the phrase starts with `"`.
pub proof fn lemma_desc_start(before: Seq<Seq<char>>, phrase: Seq<Seq<char>>)
    requires
        before.len() >= 1,
        phrase.len() >= 1,
        starts_with_quote(phrase[0]),
        forall|i: int| 1 <= i < phrase.len() ==> !starts_with_quote(#[trigger] phrase[i]),
    ensures
        desc_start(before + phrase) == before.len(),
    decreases phrase.len(),
{
    let all = before + phrase;
    assert(all.last() == phrase.last());
    if phrase.len() > 1 {
        assert(all.drop_last() =~= before + phrase.drop_last());
        assert forall|i: int| 1 <= i < phrase.drop_last().len() implies !starts_with_quote(
            #[trigger] phrase.drop_last()[i],
        ) by {
            assert(phrase.drop_last()[i] == phrase[i]);
        }
        lemma_desc_start(before, phrase.drop_last());
    }
}

/// A single-spaced text that is not empty holds no line feed, and its words
/// start and end as it does.
pub proof fn lemma_single_spaced(text: Seq<char>)
    requires
        single_spaced(text),
        text.len() > 0,
    ensures
        !text.contains('\n'),
        split_ws(text).len() > 0,
        split_ws(text)[0].len() > 0,
        split_ws(text)[0][0] == text[0],
        split_ws(text).last().len() > 0,
        split_ws(text).last().last() == text.last(),
        split_ws(text).len() == 1 ==> split_ws(text)[0] == text,
{
    lemma_keywords();
    let words = split_ws(text);
    lemma_split_ws_words(text);
    lemma_join_spaces(words);
    if words.len() > 0 {
        lemma_join_ends(words, space());
    }
    if text.contains('\n') {
        let k = choose|k: int| 0 <= k < text.len() && text[k] == '\n';
        assert(is_space(join(words, seq![' '])[k]));
    }
}

/// Two texts that do not hold `c` make a text that does not.
pub proof fn lemma_concat_lacks(a: Seq<char>, b: Seq<char>, c: char)
    requires
        !a.contains(c),
        !b.contains(c),
    ensures
        !(a + b).contains(c),
{
    if (a + b).contains(c) {
        let k = choose|k: int| 0 <= k < (a + b).len() && (a + b)[k] == c;
        if k < a.len() {
            assert(a[k] == c);
        } else {
            assert(b[k - a.len()] == c);
        }
    }
}

/// Text without whitespace holds no line feed.
pub proof fn lemma_word_lacks_newline(w: Seq<char>)
    requires
        forall|i: int| 0 <= i < w.len() ==> !is_space(#[trigger] w[i]),
    ensures
        !w.contains('\n'),
{
    if w.contains('\n') {
        let k = choose|k: int| 0 <= k < w.len() && w[k] == '\n';
        assert(is_space(w[k]));
    }
}

/// The words of a signature that ends in a description, and maybe options,
/// give both back, and leave the words before them for the trigger.
pub proof fn lemma_described_signature(
    head: Seq<Seq<char>>,
    description: Seq<char>,
    options: Option<Seq<char>>,
)
    requires
        head.len() >= 2,
        writable_description(description),
        options matches Some(o) ==> writable_options(o),
    ensures
        ({
            let phrase = split_ws(quoted(description, '"'));
            let parts = match options {
                Some(o) => head + phrase + seq![o],
                None => head + phrase,
            };
            signature(parts) == match trigger_of(head) {
                None => Err::<SnippetView, ParseErrorView>(ParseErrorView::MissingSnippetTrigger),
                Some(trigger) => Ok(
                    SnippetView {
                        trigger,
                        replacement: Seq::empty(),
                        options,
                        description: Some(description),
                        priority: None,
                    },
                ),
            }
        }),
{
    lemma_keywords();
    let text = quoted(description, '"');
    let phrase = split_ws(text);
    assert(text[0] == '"' && text.last() == '"');
    lemma_single_spaced(text);
    let before = head + phrase;
    let parts = match options {
        Some(o) => before + seq![o],
        None => before,
    };
    assert(before.last() == phrase.last());
    match options {
        Some(o) => {
            assert(parts.last() == o);
            assert(parts[parts.len() - 2] == phrase.last());
            assert(has_options(parts));
            assert(parts.drop_last() =~= before);
        },
        None => {
            assert(!has_options(parts));
        },
    }
    lemma_desc_start(head, phrase);
    assert(before.skip(head.len() as int) =~= phrase);
    assert(before.take(head.len() as int) =~= head);
    assert(strip_ends(text) =~= description);
    assert(!lone_quote(before));
}

/// A record that is writable is read back from the block it is written as.
pub proof fn lemma_writable_reads_back(record: SnippetView)
    requires
        writable(record),
    ensures
        reads_back(record),
{
    lemma_keywords();
    let kw = kw_snippet();
    let t = record.trigger;
    let x = if has_space(t) {
        quoted(t, first_absent(quote_candidates(), t)->Some_0)
    } else {
        t
    };
    let words = split_ws(x);
    assert(trigger_text(t)->Some_0 =~= seq![' '] + x);
    lemma_split_ws_words(x);
    if has_space(t) {
        let i = choose|i: int| 0 <= i < t.len() && is_space(#[trigger] t[i]);
        assert(x[i + 1] == t[i]);
        lemma_single_spaced(x);
        if words.len() == 1 {
            assert(!is_space(words[0][i + 1]));
        }
        assert(words.len() >= 2);
    } else {
        lemma_split_ws_word(t);
        lemma_word_lacks_newline(t);
    }
    let start = kw + seq![' '] + x;
    let head = seq![kw] + words;
    lemma_split_ws_concat(kw, ' ', x);
    lemma_split_ws_word(kw);
    assert(split_ws(start) == head);
    assert(head.skip(1) =~= words);
    assert(trigger_of(head) == Some(t));
    lemma_word_lacks_newline(kw);
    assert(!seq![' '].contains('\n'));
    lemma_concat_lacks(kw, seq![' '], '\n');
    lemma_concat_lacks(kw + seq![' '], x, '\n');
    let sig = signature_line(record);
    match record.description {
        None => {
            assert(sig =~= start);
            if has_space(t) {
                assert(head.last() == words.last());
                assert(head[head.len() - 2] == words[words.len() - 2]);
                assert(!has_options(head));
            }
        },
        Some(d) => {
            let text = quoted(d, '"');
            assert(text[0] == '"');
            lemma_single_spaced(text);
            lemma_concat_lacks(start, seq![' '], '\n');
            lemma_concat_lacks(start + seq![' '], text, '\n');
            lemma_split_ws_concat(start, ' ', text);
            lemma_described_signature(head, d, record.options);
            match record.options {
                None => {
                    assert(sig =~= start + seq![' '] + text);
                },
                Some(o) => {
                    lemma_without_modes(o);
                    lemma_word_lacks_newline(o);
                    lemma_split_ws_word(o);
                    let described = start + seq![' '] + text;
                    lemma_concat_lacks(described, seq![' '], '\n');
                    lemma_concat_lacks(described + seq![' '], o, '\n');
                    lemma_split_ws_concat(described, ' ', o);
                    assert(sig =~= described + seq![' '] + o);
                },
            }
        },
    }
}

/// The round trip, for records that are writable: the file is written
/// without error, the text is read without error, and the records read are
/// the records written, but for absent priorities, which count as 0.
pub proof fn lemma_round_trip_writable(records: Seq<SnippetView>)
    requires
        forall|i: int| 0 <= i < records.len() ==> writable(#[trigger] records[i]),
    ensures
        render(records) matches Ok(text) && parse_text(text) matches Ok(back) && normalized(back)
            == normalized(records),
{
    assert forall|i: int| 0 <= i < records.len() implies reads_back(#[trigger] records[i]) by {
        lemma_writable_reads_back(records[i]);
    }
    lemma_round_trip(records);
}

/// A trigger with whitespace that holds every quote character cannot be
/// written.
pub proof fn lemma_unquotable_trigger(trigger: Seq<char>)
    requires
        has_space(trigger),
        forall|k: int|
            0 <= k < quote_candidates().len() ==> trigger.contains(#[trigger] quote_candidates()[k]),
    ensures
        trigger_text(trigger) is None,
{
    lemma_none_absent(quote_candidates(), trigger);
}

proof fn lemma_none_absent(candidates: Seq<char>, text: Seq<char>)
    requires
        forall|k: int| 0 <= k < candidates.len() ==> text.contains(#[trigger] candidates[k]),
    ensures
        first_absent(candidates, text) is None,
    decreases candidates.len(),
{
    if candidates.len() > 0 {
        assert(text.contains(candidates[0]));
        assert forall|k: int| 0 <= k < candidates.drop_first().len() implies text.contains(
            #[trigger] candidates.drop_first()[k],
        ) by {
            assert(candidates.drop_first()[k] == candidates[k + 1]);
        }
        lemma_none_absent(candidates.drop_first(), text);
    }
}

/// Writing fails at the first record whose trigger cannot be written, with
/// the error that names this trigger, whatever stands behind it.
pub proof fn lemma_render_error(records: Seq<SnippetView>, at: int, last: i64)
    requires
        0 <= at < records.len(),
        trigger_text(records[at].trigger) is None,
        forall|j: int| 0 <= j < at ==> trigger_text(#[trigger] records[j].trigger) is Some,
    ensures
        render_from(records, last) == Err::<Seq<char>, SerializeErrorView>(
            SerializeErrorView::CouldNotQuote { trigger: records[at].trigger },
        ),
    decreases at,
{
    if at > 0 {
        let others = records.drop_first();
        assert(trigger_text(records[0].trigger) is Some);
        assert(others[at - 1] == records[at]);
        assert forall|j: int| 0 <= j < at - 1 implies trigger_text(
            #[trigger] others[j].trigger,
        ) is Some by {
            assert(others[j] == records[j + 1]);
        }
        lemma_render_error(others, at - 1, effective_priority(records[0].priority));
    }
}

/// Writing succeeds where every trigger can be written.
pub proof fn lemma_render_ok(records: Seq<SnippetView>, last: i64)
    requires
        forall|j: int| 0 <= j < records.len() ==> trigger_text(#[trigger] records[j].trigger) is Some,
    ensures
        render_from(records, last) is Ok,
    decreases records.len(),
{
    if records.len() > 0 {
        let others = records.drop_first();
        assert(trigger_text(records[0].trigger) is Some);
        assert forall|j: int| 0 <= j < others.len() implies trigger_text(
            #[trigger] others[j].trigger,
        ) is Some by {
            assert(others[j] == records[j + 1]);
        }
        lemma_render_ok(others, effective_priority(records[0].priority));
    }
}

} // verus!
