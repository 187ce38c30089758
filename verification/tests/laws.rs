// Concrete checks of the stream laws and the matcher building blocks:
// losslessness, chunk-boundary independence, tag alternation, value
// propagation, the idempotent empty flush, and exact matcher outputs.

use markstream::matcher::{aca, kmp};
use markstream::processor::tacam;
use markstream::{new_pair, new_processor, Part, State};

fn concat_contents(parts: &[Part]) -> String {
    let mut s = String::new();
    for p in parts {
        s.push_str(&p.content);
    }
    s
}

#[test]
fn losslessness_with_surrounding_text() {
    let pair = new_pair("<think>", "</think>").with_value("v");
    let mut processor = new_processor(vec![pair]);
    let parts = processor.process("a<think>b</think>c");
    assert_eq!(parts.len(), 5);
    assert_eq!(parts[0].state, State::StateQuest);
    assert_eq!(parts[0].content, "a");
    assert_eq!(parts[1].state, State::StateSmark);
    assert_eq!(parts[2].state, State::StateMatch);
    assert_eq!(parts[2].content, "b");
    assert_eq!(parts[3].state, State::StateEmark);
    assert_eq!(parts[4].state, State::StateQuest);
    assert_eq!(parts[4].content, "c");
    // content plus the matched markers reproduces the stream
    assert_eq!(concat_contents(&parts), "abc");
}

#[test]
fn chunking_does_not_change_the_classified_stream() {
    let whole_parts = {
        let mut p = new_processor(vec![new_pair("<a>", "</a>").with_value("x")]);
        p.process("q<a>in</a>r")
    };
    let split_parts = {
        let mut p = new_processor(vec![new_pair("<a>", "</a>").with_value("x")]);
        let mut parts = vec![];
        for chunk in ["q<", "a", ">i", "n</", "a>r"] {
            parts.extend(p.process(chunk));
        }
        parts
    };
    // same classified characters, same transitions, same values
    assert_eq!(concat_contents(&whole_parts), concat_contents(&split_parts));
    let tags_whole: Vec<State> = whole_parts.iter().map(|p| p.state).collect();
    let tags_split: Vec<State> = split_parts
        .iter()
        .filter(|p| !matches!(p.state, State::StateQuest | State::StateMatch))
        .map(|p| p.state)
        .collect();
    let tags_whole_marks: Vec<State> = tags_whole
        .iter()
        .cloned()
        .filter(|s| !matches!(s, State::StateQuest | State::StateMatch))
        .collect();
    assert_eq!(tags_whole_marks, tags_split);
}

#[test]
fn alternation_across_two_regions() {
    let pair = new_pair("<t>", "</t>").with_value("v");
    let mut processor = new_processor(vec![pair]);
    let parts = processor.process("<t>a</t>x<t>b</t>");
    let tags: Vec<State> = parts.iter().map(|p| p.state).collect();
    assert_eq!(
        tags,
        vec![
            State::StateSmark,
            State::StateMatch,
            State::StateEmark,
            State::StateQuest,
            State::StateSmark,
            State::StateMatch,
            State::StateEmark,
        ]
    );
}

#[test]
fn value_propagation_across_pairs() {
    let pairs = vec![
        new_pair("<a>", "</a>").with_value("first"),
        new_pair("<b>", "</b>").with_value("second"),
    ];
    let mut processor = new_processor(pairs);
    let parts = processor.process("<b>x</b>");
    assert_eq!(parts.len(), 3);
    assert_eq!(parts[0].state, State::StateSmark);
    assert_eq!(parts[0].value.clone().unwrap(), "second");
    assert_eq!(parts[1].state, State::StateMatch);
    assert_eq!(parts[1].content, "x");
    assert_eq!(parts[1].value.clone().unwrap(), "second");
    assert_eq!(parts[2].state, State::StateEmark);
    assert_eq!(parts[2].value, None);
}

#[test]
fn empty_chunk_after_settled_call_is_idle() {
    let mut single = new_processor(vec![new_pair("<t>", "</t>")]);
    let _ = single.process("<t>a</t>");
    assert_eq!(single.process("").len(), 0);

    let mut many = tacam::new(vec![
        new_pair("<a>", "</a>"),
        new_pair("<b>", "</b>"),
    ]);
    let _ = many.process("plain");
    assert_eq!(many.process("").len(), 0);
}

#[test]
fn plain_text_passes_through() {
    let pair = new_pair("<think>", "</think>").with_value("foo");
    let mut processor = new_processor(vec![pair]);
    let parts = processor.process("plain text");
    assert_eq!(parts.len(), 1);
    assert_eq!(parts[0].state, State::StateQuest);
    assert_eq!(parts[0].content, "plain text");
    assert_eq!(parts[0].value, None);
}

#[test]
fn zero_pairs_pass_everything_through() {
    let mut processor = new_processor(vec![]);
    let parts = processor.process("abc");
    assert_eq!(parts.len(), 1);
    assert_eq!(parts[0].state, State::StateQuest);
    assert_eq!(parts[0].content, "abc");
    assert_eq!(parts[0].value, None);
}

#[test]
fn border_table_exact_values() {
    let lps = kmp::gen_lps("aabaa");
    assert_eq!(lps, vec![0, 1, 0, 1, 2]);
    let lps2 = kmp::gen_lps("abab");
    assert_eq!(lps2, vec![0, 0, 1, 2]);
}

#[test]
fn single_pattern_match_and_live_suffix() {
    let lps = kmp::gen_lps("ab");
    assert_eq!(kmp::do_match("ab", "xxabyy", &lps), (2, true));
    // no match: two leading characters are safe, the trailing "a" is live
    assert_eq!(kmp::do_match("ab", "xxa", &lps), (2, false));
    // overlapping prefixes are kept alive across the fallback
    let lps3 = kmp::gen_lps("aab");
    assert_eq!(kmp::do_match("aab", "aaab", &lps3), (1, true));
}

#[test]
fn multi_pattern_match_text_and_offset() {
    let acam = aca::new(vec![
        new_pair("oof", "bar"),
        new_pair("helloo", "world"),
    ]);
    let (idx, mark) = aca::do_match(&acam, "ohellooabc");
    assert_eq!(idx, 1);
    assert_eq!(mark.unwrap(), "helloo");
    let (idx2, mark2) = aca::do_match(&acam, "xhell");
    assert!(mark2.is_none());
    // "hell" is the live suffix that must be retained
    assert_eq!(idx2, 1);
}

#[test]
fn unicode_markers_match_by_character() {
    let pair = new_pair("我试试", "你试试").with_value("值");
    let mut processor = new_processor(vec![pair]);
    let mut parts = vec![];
    parts.extend(processor.process("前我试"));
    parts.extend(processor.process("试中你试试后"));
    let tags: Vec<State> = parts.iter().map(|p| p.state).collect();
    assert_eq!(
        tags,
        vec![
            State::StateQuest,
            State::StateSmark,
            State::StateMatch,
            State::StateEmark,
            State::StateQuest,
        ]
    );
    assert_eq!(concat_contents(&parts), "前中后");
    assert_eq!(parts[1].value.clone().unwrap(), "值");
}

#[test]
fn marker_split_across_three_chunks() {
    let pair = new_pair("<think>", "</think>").with_value("foo");
    let mut processor = new_processor(vec![pair]);
    let mut parts = vec![];
    parts.extend(processor.process("<t"));
    parts.extend(processor.process("hi"));
    parts.extend(processor.process("nk>x</think>"));
    assert_eq!(parts.len(), 3);
    assert_eq!(parts[0].state, State::StateSmark);
    assert_eq!(parts[1].content, "x");
    assert_eq!(parts[2].state, State::StateEmark);
}

#[test]
fn state_names() {
    assert_eq!(State::StateQuest.name(), "StateQuest");
    assert_eq!(State::StateMatch.name(), "StateMatch");
    assert_eq!(State::StateSmark.name(), "StateSmark");
    assert_eq!(State::StateEmark.name(), "StateEmark");
}
