use snippets_everywhere::backends::ultisnips::de::{
    deserialize, strip_outer, strip_quotes, ParseError,
};
use snippets_everywhere::backends::ultisnips::ser::{
    filter_options, filter_snippets, serialize, SerializeError,
};
use snippets_everywhere::backends::{Backend, Error, UltiSnips};
use snippets_everywhere::{Snippet, SnippetFile};

fn snippet(trigger: &str, replacement: &str) -> Snippet {
    Snippet {
        trigger: trigger.to_string(),
        replacement: replacement.to_string(),
        ..Default::default()
    }
}

#[test]
fn deserialize_unquoted() {
    let input = r#"
snippet written
wow
endsnippet
    "#;

    let ir = UltiSnips.deserialize(input).unwrap();
    assert_eq!(
        ir,
        SnippetFile {
            snippets: vec![Snippet {
                trigger: "written".to_string(),
                replacement: "wow".to_string(),
                ..Default::default()
            }]
        }
    );
}

#[test]
fn deserialize_quoted() {
    let input = r#"
snippet woah this is a long trigger wow
truly
endsnippet
    "#;

    let ir = UltiSnips.deserialize(input).unwrap();
    assert_eq!(
        ir,
        SnippetFile {
            snippets: vec![Snippet {
                // yes, this is intended
                trigger: "oah this is a long trigger wo".to_string(),
                replacement: "truly".to_string(),
                ..Default::default()
            }]
        }
    );
}

#[test]
fn deserialize_desc_and_opts() {
    let input = r#"
snippet written "" Aw
replaced
endsnippet
    "#;

    let ir = UltiSnips.deserialize(input).unwrap();
    assert_eq!(
        ir,
        SnippetFile {
            snippets: vec![Snippet {
                trigger: "written".to_string(),
                replacement: "replaced".to_string(),
                description: Some(String::new()),
                options: Some("Aw".to_string()),
                ..Default::default()
            }],
        },
    );
}

#[test]
fn deserialize_very_concise_with_desc() {
    let input = r#"
snippet a ""
b
endsnippet
    "#;

    let ir = UltiSnips.deserialize(input).unwrap();
    assert_eq!(
        ir,
        SnippetFile {
            snippets: vec![Snippet {
                trigger: "a".to_string(),
                replacement: "b".to_string(),
                description: Some(String::new()),
                ..Default::default()
            }],
        },
    )
}

#[test]
fn unknown_directive_names_the_word() {
    let err = deserialize("foo bar").unwrap_err();
    assert_eq!(
        err,
        ParseError::UnknownDirective {
            directive: "foo".to_string()
        }
    );
    assert_eq!(err.message(), "unknown directive: `foo`");
}

#[test]
fn unquoted_trigger_has_no_extras() {
    let file = deserialize("snippet hello\nworld\nendsnippet").unwrap();
    assert_eq!(
        file.snippets,
        vec![Snippet {
            trigger: "hello".to_string(),
            replacement: "world".to_string(),
            options: None,
            description: None,
            priority: None,
        }]
    );
}

#[test]
fn description_and_options_are_split() {
    let file = deserialize("snippet written \"\" Aw\nreplaced\nendsnippet").unwrap();
    assert_eq!(file.snippets.len(), 1);
    let s = &file.snippets[0];
    assert_eq!(s.trigger, "written");
    assert_eq!(s.replacement, "replaced");
    assert_eq!(s.description, Some(String::new()));
    assert_eq!(s.options, Some("Aw".to_string()));
    assert_eq!(s.priority, None);
}

#[test]
fn multi_word_trigger_loses_first_and_last_character() {
    let file = deserialize("snippet woah this is a trigger wow\nbody\nendsnippet").unwrap();
    assert_eq!(file.snippets, vec![snippet("oah this is a trigger wo", "body")]);
}

#[test]
fn multi_word_trigger_is_stripped_by_grapheme() {
    // the quote is a flag of two code points, and one user-perceived character
    let file = deserialize("snippet \u{1F1F7}\u{1F1FA}a b\u{1F1F7}\u{1F1FA}\nx\nendsnippet").unwrap();
    assert_eq!(file.snippets, vec![snippet("a b", "x")]);
    // "e" with a combining accent leaves as one character
    let file = deserialize("snippet e\u{301}a b!\nx\nendsnippet").unwrap();
    assert_eq!(file.snippets, vec![snippet("a b", "x")]);
}

#[test]
fn multi_word_description() {
    let file = deserialize("snippet if \"an if  statement\" b\nif $1\nendsnippet").unwrap();
    assert_eq!(
        file.snippets,
        vec![Snippet {
            trigger: "if".to_string(),
            replacement: "if $1".to_string(),
            description: Some("an if statement".to_string()),
            options: Some("b".to_string()),
            priority: None,
        }]
    );
}

#[test]
fn quoted_trigger_with_description() {
    let file = deserialize("snippet !two words! \"desc\" A\nbody\nendsnippet\n").unwrap();
    assert_eq!(
        file.snippets,
        vec![Snippet {
            trigger: "two words".to_string(),
            replacement: "body".to_string(),
            description: Some("desc".to_string()),
            options: Some("A".to_string()),
            priority: None,
        }]
    );
}

#[test]
fn priority_persists_across_blocks() {
    let input = "priority 5\nsnippet a\n1\nendsnippet\nsnippet b\n2\nendsnippet\n";
    let file = deserialize(input).unwrap();
    assert_eq!(file.snippets.len(), 2);
    assert_eq!(file.snippets[0].priority, Some(5));
    assert_eq!(file.snippets[1].priority, Some(5));
}

#[test]
fn priority_is_unset_before_the_first_directive() {
    let input = "snippet a\n1\nendsnippet\npriority -3\nsnippet b\n2\nendsnippet\npriority +7\nsnippet c\n3\nendsnippet\n";
    let file = deserialize(input).unwrap();
    let priorities: Vec<Option<i64>> = file.snippets.iter().map(|s| s.priority).collect();
    assert_eq!(priorities, vec![None, Some(-3), Some(7)]);
}

#[test]
fn priority_limits() {
    let file = deserialize("priority -9223372036854775808\nsnippet a\n\nendsnippet").unwrap();
    assert_eq!(file.snippets[0].priority, Some(i64::MIN));
    let file = deserialize("priority 9223372036854775807\nsnippet a\n\nendsnippet").unwrap();
    assert_eq!(file.snippets[0].priority, Some(i64::MAX));
    let file = deserialize("priority 0009\nsnippet a\n\nendsnippet").unwrap();
    assert_eq!(file.snippets[0].priority, Some(9));
    assert_eq!(
        deserialize("priority 9223372036854775808").unwrap_err(),
        ParseError::ParsePriorityNumber {
            subject: "priority 9223372036854775808".to_string()
        }
    );
    assert_eq!(
        deserialize("priority -9223372036854775809").unwrap_err(),
        ParseError::ParsePriorityNumber {
            subject: "priority -9223372036854775809".to_string()
        }
    );
}

#[test]
fn priority_without_number() {
    assert_eq!(
        deserialize("priority").unwrap_err(),
        ParseError::MissingPriorityNumber
    );
    assert_eq!(
        deserialize("  priority   \n").unwrap_err().message(),
        "found no number after `priority` directive"
    );
}

#[test]
fn priority_with_bad_number() {
    let err = deserialize("  priority 1x \n").unwrap_err();
    assert_eq!(
        err,
        ParseError::ParsePriorityNumber {
            subject: "priority 1x".to_string()
        }
    );
    assert_eq!(
        err.message(),
        "tried to parse number in `priority 1x` but failed"
    );
    assert!(deserialize("priority -").is_err());
    assert!(deserialize("priority +").is_err());
}

#[test]
fn missing_trigger() {
    let err = deserialize("snippet\nbody\nendsnippet").unwrap_err();
    assert_eq!(err, ParseError::MissingSnippetTrigger);
    assert_eq!(err.message(), "found no trigger after `snippet`");
    // the whole signature is taken for a description
    assert_eq!(
        deserialize("snippet \"a b\"\nbody\nendsnippet").unwrap_err(),
        ParseError::MissingSnippetTrigger
    );
}

#[test]
fn lone_description_quote() {
    let err = deserialize("snippet a \"\nbody\nendsnippet").unwrap_err();
    assert_eq!(err, ParseError::UnmatchedDescQuote);
    assert_eq!(
        err.message(),
        "description consists of only one unmatched quote"
    );
}

#[test]
fn unterminated_block() {
    let err = deserialize("snippet a\nbody\n").unwrap_err();
    assert_eq!(
        err,
        ParseError::UnterminatedSnippet {
            signature: "snippet a".to_string()
        }
    );
    assert_eq!(err.message(), "found no `endsnippet` after `snippet a`");
}

#[test]
fn comments_and_blank_lines_are_skipped() {
    let input = "# a comment\n\n   \t\n  # indented comment\nsnippet a\n# kept\n\n  indented\nendsnippet\n";
    let file = deserialize(input).unwrap();
    assert_eq!(file.snippets, vec![snippet("a", "# kept\n\n  indented")]);
}

#[test]
fn empty_input_has_no_snippets() {
    assert_eq!(deserialize("").unwrap(), SnippetFile { snippets: vec![] });
    assert_eq!(deserialize("\n\n").unwrap(), SnippetFile { snippets: vec![] });
}

#[test]
fn body_keeps_whitespace_and_drops_carriage_returns_before_line_feeds() {
    let file = deserialize("snippet a\r\n  one \r\n\ttwo\r\n  endsnippet  \r\n").unwrap();
    assert_eq!(file.snippets, vec![snippet("a", "  one \n\ttwo")]);
}

#[test]
fn empty_body() {
    let file = deserialize("snippet a\nendsnippet").unwrap();
    assert_eq!(file.snippets, vec![snippet("a", "")]);
}

#[test]
fn first_error_wins() {
    let err = deserialize("snippet a\nb\nendsnippet\nbogus\npriority").unwrap_err();
    assert_eq!(
        err,
        ParseError::UnknownDirective {
            directive: "bogus".to_string()
        }
    );
}

#[test]
fn serialize_plain() {
    let file = SnippetFile {
        snippets: vec![snippet("hello", "world")],
    };
    assert_eq!(
        serialize(&file).unwrap(),
        "snippet hello\nworld\nendsnippet\n\n"
    );
}

#[test]
fn serialize_empty_file() {
    assert_eq!(serialize(&SnippetFile { snippets: vec![] }).unwrap(), "");
}

#[test]
fn serialize_priority_only_when_it_changes() {
    let mut a = snippet("a", "1");
    a.priority = Some(5);
    let mut b = snippet("b", "2");
    b.priority = Some(5);
    let c = snippet("c", "3");
    let mut d = snippet("d", "4");
    d.priority = Some(-12);
    let mut e = snippet("e", "5");
    e.priority = Some(5);
    let file = SnippetFile {
        snippets: vec![a, b, c, d, e],
    };
    assert_eq!(
        serialize(&file).unwrap(),
        "priority 5\nsnippet a\n1\nendsnippet\n\nsnippet b\n2\nendsnippet\n\npriority 0\nsnippet c\n3\nendsnippet\n\npriority -12\nsnippet d\n4\nendsnippet\n\npriority 5\nsnippet e\n5\nendsnippet\n\n"
    );
}

#[test]
fn serialize_zero_priority_is_silent() {
    let mut a = snippet("a", "1");
    a.priority = Some(0);
    let file = SnippetFile {
        snippets: vec![a, snippet("b", "2")],
    };
    assert_eq!(
        serialize(&file).unwrap(),
        "snippet a\n1\nendsnippet\n\nsnippet b\n2\nendsnippet\n\n"
    );
}

#[test]
fn serialize_extreme_priorities() {
    let mut a = snippet("a", "");
    a.priority = Some(i64::MIN);
    let mut b = snippet("b", "");
    b.priority = Some(i64::MAX);
    let file = SnippetFile {
        snippets: vec![a, b],
    };
    assert_eq!(
        serialize(&file).unwrap(),
        "priority -9223372036854775808\nsnippet a\n\nendsnippet\n\npriority 9223372036854775807\nsnippet b\n\nendsnippet\n\n"
    );
}

#[test]
fn serialize_filters_mode_options() {
    let mut a = snippet("a", "x");
    a.options = Some("Atmc".to_string());
    let file = SnippetFile { snippets: vec![a] };
    let before = file.clone();
    assert_eq!(
        serialize(&file).unwrap(),
        "snippet a \"\" A\nx\nendsnippet\n\n"
    );
    assert_eq!(file, before);
    assert_eq!(file.snippets[0].options, Some("Atmc".to_string()));
}

#[test]
fn filter_options_keeps_order_and_repeats() {
    assert_eq!(filter_options("Atmc"), "A");
    assert_eq!(filter_options("wtAwcmb"), "wAwb");
    assert_eq!(filter_options(""), "");
    assert_eq!(filter_options("TMC"), "TMC");
}

#[test]
fn serialize_description_without_options() {
    let mut a = snippet("a", "x");
    a.description = Some("some words".to_string());
    let file = SnippetFile { snippets: vec![a] };
    assert_eq!(
        serialize(&file).unwrap(),
        "snippet a \"some words\"\nx\nendsnippet\n\n"
    );
}

#[test]
fn serialize_quotes_trigger_with_whitespace() {
    let file = SnippetFile {
        snippets: vec![snippet("two words", "x")],
    };
    assert_eq!(
        serialize(&file).unwrap(),
        "snippet \"two words\"\nx\nendsnippet\n\n"
    );
    let file = SnippetFile {
        snippets: vec![snippet("say \"it's\" #1", "x")],
    };
    assert_eq!(
        serialize(&file).unwrap(),
        "snippet !say \"it's\" #1!\nx\nendsnippet\n\n"
    );
    let file = SnippetFile {
        snippets: vec![snippet("tab\there", "x")],
    };
    assert_eq!(
        serialize(&file).unwrap(),
        "snippet \"tab\there\"\nx\nendsnippet\n\n"
    );
}

#[test]
fn serialize_unquotable_trigger() {
    let trigger = "a \"'#!?%|/^~=&:,$&¢αβγδμ´¹²³ඞ";
    let file = SnippetFile {
        snippets: vec![snippet("fine", "x"), snippet(trigger, "y")],
    };
    let err = serialize(&file).unwrap_err();
    assert_eq!(
        err,
        SerializeError::CouldNotQuote {
            trigger: trigger.to_string()
        }
    );
    assert!(err.message().starts_with("The trigger a \"'#!?%"));
    // without whitespace no quote is needed
    let file = SnippetFile {
        snippets: vec![snippet("\"'#!?%|/^~=&:,$&¢αβγδμ´¹²³ඞ", "y")],
    };
    assert!(serialize(&file).is_ok());
    // the last candidate is used when all others occur
    let file = SnippetFile {
        snippets: vec![snippet("a \"'#!?%|/^~=&:,$&¢αβγδμ´¹²³", "y")],
    };
    assert_eq!(
        serialize(&file).unwrap(),
        "snippet ඞa \"'#!?%|/^~=&:,$&¢αβγδμ´¹²³ඞ\ny\nendsnippet\n\n"
    );
}

#[test]
fn round_trip_on_a_concrete_file() {
    let file = SnippetFile {
        snippets: vec![
            Snippet {
                trigger: "plain".to_string(),
                replacement: "one\n\n  two\n".to_string(),
                options: None,
                description: None,
                priority: Some(0),
            },
            Snippet {
                trigger: "with \"quotes\" inside".to_string(),
                replacement: String::new(),
                options: Some("bA".to_string()),
                description: Some("a few words".to_string()),
                priority: Some(-4),
            },
            Snippet {
                trigger: "x".to_string(),
                replacement: "y".to_string(),
                options: None,
                description: Some(String::new()),
                priority: Some(-4),
            },
        ],
    };
    let text = serialize(&file).unwrap();
    let back = deserialize(&text).unwrap();
    assert_eq!(back.snippets.len(), 3);
    for (a, b) in file.snippets.iter().zip(back.snippets.iter()) {
        assert_eq!(a.trigger, b.trigger);
        assert_eq!(a.replacement, b.replacement);
        assert_eq!(a.options, b.options);
        assert_eq!(a.description, b.description);
        assert_eq!(a.priority.unwrap_or(0), b.priority.unwrap_or(0));
    }
    assert_eq!(back.snippets[0].priority, None);
    assert_eq!(back.snippets[1].priority, Some(-4));
}

#[test]
fn third_block_does_not_repeat_the_directive() {
    let input = "priority 5\nsnippet a\n1\nendsnippet\nsnippet b\n2\nendsnippet\npriority 5\nsnippet c\n3\nendsnippet\n";
    let file = deserialize(input).unwrap();
    assert_eq!(file.snippets.len(), 3);
    assert_eq!(file.snippets[2].priority, Some(5));
    let text = serialize(&file).unwrap();
    assert_eq!(text.matches("priority").count(), 1);
    assert_eq!(
        text,
        "priority 5\nsnippet a\n1\nendsnippet\n\nsnippet b\n2\nendsnippet\n\nsnippet c\n3\nendsnippet\n\n"
    );
}

#[test]
fn backend_names() {
    assert_eq!(UltiSnips.name(), "ultisnips");
    assert_eq!(UltiSnips.name_in(), Some("ultisnips-in".to_string()));
    assert_eq!(UltiSnips.name_out(), Some("ultisnips-out".to_string()));
}

#[test]
fn backend_wraps_errors() {
    assert_eq!(
        UltiSnips.deserialize("snippet\nendsnippet").unwrap_err(),
        Error::Parse(ParseError::MissingSnippetTrigger)
    );
    let file = SnippetFile {
        snippets: vec![snippet("a \"'#!?%|/^~=&:,$&¢αβγδμ´¹²³ඞ", "y")],
    };
    let err = UltiSnips.serialize(&file).unwrap_err();
    assert!(matches!(err, Error::Serialize(SerializeError::CouldNotQuote { .. })));
    assert!(err.message().starts_with("The trigger a "));
    assert_eq!(Error::Other("boom".to_string()).message(), "boom");
}

#[test]
fn strip_outer_drops_first_and_last_cluster() {
    let clusters = vec!["'".to_string(), "a".to_string(), " b".to_string(), "'".to_string()];
    let inner: String = strip_outer(&clusters).into_iter().collect();
    assert_eq!(inner, "a b");
    let two = vec!["x".to_string(), "y".to_string()];
    assert!(strip_outer(&two).is_empty());
    let one = vec!["x".to_string()];
    assert!(strip_outer(&one).is_empty());
    assert!(strip_outer(&Vec::new()).is_empty());
}

#[test]
fn strip_quotes_counts_user_perceived_characters() {
    let quoted: Vec<char> = "e\u{301}a y\u{308}".chars().collect();
    let inner: String = strip_quotes(&quoted).into_iter().collect();
    assert_eq!(inner, "a ");
    let plain: Vec<char> = "'two words'".chars().collect();
    let inner: String = strip_quotes(&plain).into_iter().collect();
    assert_eq!(inner, "two words");
}

#[test]
fn trigger_that_strips_to_nothing_is_missing() {
    // a space and a combining mark are one user-perceived character
    assert_eq!(
        deserialize("snippet a \u{301}\nbody\nendsnippet").unwrap_err(),
        ParseError::MissingSnippetTrigger
    );
}

#[test]
fn round_trip_fails_for_a_quoted_trigger_without_description() {
    let file = SnippetFile {
        snippets: vec![snippet("two words", "x")],
    };
    let text = serialize(&file).unwrap();
    assert_eq!(
        deserialize(&text).unwrap_err(),
        ParseError::MissingSnippetTrigger
    );
}

#[test]
fn parsed_triggers_are_never_empty() {
    for input in [
        "snippet a\nb\nendsnippet",
        "snippet 'a b'\nb\nendsnippet",
        "snippet x \"d\" o\n\nendsnippet\nsnippet y \"d e\"\n\nendsnippet",
    ] {
        for s in deserialize(input).unwrap().snippets {
            assert!(!s.trigger.is_empty());
        }
    }
}

fn record(
    trigger: &str,
    replacement: &str,
    description: Option<&str>,
    options: Option<&str>,
    priority: Option<i64>,
) -> Snippet {
    Snippet {
        trigger: trigger.to_string(),
        replacement: replacement.to_string(),
        options: options.map(|o| o.to_string()),
        description: description.map(|d| d.to_string()),
        priority,
    }
}

#[test]
fn round_trip_of_quoted_triggers() {
    let file = SnippetFile {
        snippets: vec![
            // quoted with `"`, which needs a description behind it
            record("two words", "x", Some("d"), None, Some(2)),
            record("two words", "x", Some(""), Some("iA"), Some(2)),
            // quoted with `'`
            record("say \"hi now", "x\ny", None, None, None),
            // quoted with `#`
            record("it's \"x\" y", "", Some(" padded"), Some("w"), Some(0)),
            record("bare\"", "last", Some("\"quoted\" words"), None, Some(-1)),
        ],
    };
    let text = serialize(&file).unwrap();
    assert_eq!(
        text,
        "priority 2\nsnippet \"two words\" \"d\"\nx\nendsnippet\n\nsnippet \"two words\" \"\" iA\nx\nendsnippet\n\npriority 0\nsnippet 'say \"hi now'\nx\ny\nendsnippet\n\nsnippet #it's \"x\" y# \" padded\" w\n\nendsnippet\n\npriority -1\nsnippet bare\" \"\"quoted\" words\"\nlast\nendsnippet\n\n"
    );
    let back = deserialize(&text).unwrap();
    assert_eq!(back.snippets.len(), file.snippets.len());
    for (a, b) in file.snippets.iter().zip(back.snippets.iter()) {
        assert_eq!(a.trigger, b.trigger);
        assert_eq!(a.replacement, b.replacement);
        assert_eq!(a.options, b.options);
        assert_eq!(a.description, b.description);
        assert_eq!(a.priority.unwrap_or(0), b.priority.unwrap_or(0));
    }
    let priorities: Vec<Option<i64>> = back.snippets.iter().map(|s| s.priority).collect();
    assert_eq!(priorities, vec![Some(2), Some(2), Some(0), Some(0), Some(-1)]);
}

#[test]
fn what_does_not_survive_the_round_trip() {
    // options without a description come back with an empty one
    let file = SnippetFile {
        snippets: vec![record("a", "x", None, Some("A"), None)],
    };
    let back = deserialize(&serialize(&file).unwrap()).unwrap();
    assert_eq!(back.snippets[0].description, Some(String::new()));
    // a run of spaces in a description comes back as one
    let file = SnippetFile {
        snippets: vec![record("a", "x", Some("two  spaces"), None, None)],
    };
    let back = deserialize(&serialize(&file).unwrap()).unwrap();
    assert_eq!(back.snippets[0].description, Some("two spaces".to_string()));
    // a body line that closes the block cuts the body short
    let file = SnippetFile {
        snippets: vec![record("a", "x\nendsnippet\ny", None, None, None)],
    };
    assert!(deserialize(&serialize(&file).unwrap()).is_err());
    // a word that ends in `"` before the last word of a quoted trigger makes
    // that last word the options
    let file = SnippetFile {
        snippets: vec![record("say \"hi\" now", "x", None, None, None)],
    };
    let back = deserialize(&serialize(&file).unwrap()).unwrap();
    assert_eq!(back.snippets[0].options, Some("now'".to_string()));
    // a carriage return before a line feed is taken for a part of the line end
    let file = SnippetFile {
        snippets: vec![record("a", "x\r\ny", None, None, None)],
    };
    let back = deserialize(&serialize(&file).unwrap()).unwrap();
    assert_eq!(back.snippets[0].replacement, "x\ny");
}

#[test]
fn filter_snippets_touches_options_only() {
    let snippets = vec![
        record("a", "x", Some("d"), Some("tAmc"), Some(3)),
        record("b c", "y\nz", None, None, None),
        record("d", "", None, Some("tmc"), Some(0)),
    ];
    let file = filter_snippets(&snippets);
    assert_eq!(
        file.snippets,
        vec![
            record("a", "x", Some("d"), Some("A"), Some(3)),
            record("b c", "y\nz", None, None, None),
            record("d", "", None, Some(""), Some(0)),
        ]
    );
    assert_eq!(snippets[0].options, Some("tAmc".to_string()));
}
