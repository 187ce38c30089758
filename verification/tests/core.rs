// The processor behaviour tests: the original scenarios, driven through
// the public construction and processing entry points.

use markstream::matcher::aca;
use markstream::processor::tacam;
use markstream::processor::tmark;
use markstream::{new_pair, new_processor, State};

#[test]
fn tmark_functionality() {
    let pairs = vec![new_pair("oof", "bar")];
    let mut processor = new_processor(pairs);
    let parts = processor.process("foo");
    assert_eq!(parts.len(), 1);
    assert_eq!(parts[0].content, "f");
}

#[test]
fn acam_functionality() {
    let acam = aca::new(vec![
        new_pair("oof", "bar"),
        new_pair("我试试", "你试试"),
        new_pair("helle", "world"),
        new_pair("我试哥", "你试试"),
        new_pair("helloo", "world"),
        new_pair("start", "end"),
    ]);
    let (idx, mark) = aca::do_match(&acam, "ohellooabc");
    println!("{}, {}", idx, mark.unwrap_or("empty".to_owned()));
}

#[test]
fn test_tacam_processor() {
    let mut parts = vec![];
    let pair = new_pair("<think>", "</think>").with_value("foo");
    let mut processor = tacam::new(vec![pair]);
    parts.extend(processor.process("<think>foo</think>"));
    assert_eq!(parts.len(), 3);
    assert_eq!(parts[0].state, State::StateSmark);
    assert_eq!(parts[1].state, State::StateMatch);
    assert_eq!(parts[1].content, "foo");
    assert_eq!(parts[2].state, State::StateEmark);

    parts.clear();

    parts.extend(processor.process("<th"));
    parts.extend(processor.process("ink>"));
    parts.extend(processor.process("foo"));
    parts.extend(processor.process("</th"));
    parts.extend(processor.process("ink>"));
    assert_eq!(parts.len(), 3);
    assert_eq!(parts[0].state, State::StateSmark);
    assert_eq!(parts[0].value.clone().unwrap(), "foo");
    assert_eq!(parts[1].content, "foo");
    assert_eq!(parts[1].state, State::StateMatch);
    assert_eq!(parts[1].value.clone().unwrap(), "foo");
    assert_eq!(parts[2].state, State::StateEmark);
    assert_eq!(parts[2].value.clone(), None);
}

#[test]
fn test_tmark_processor() {
    let mut parts = vec![];
    let pair = new_pair("<think>", "</think>").with_value("foo");
    let mut processor = tmark::new(pair);
    parts.extend(processor.process("<think>foo</think>"));
    assert_eq!(parts.len(), 3);
    assert_eq!(parts[0].state, State::StateSmark);
    assert_eq!(parts[1].content, "foo");
    assert_eq!(parts[1].state, State::StateMatch);
    assert_eq!(parts[2].state, State::StateEmark);

    parts.clear();

    parts.extend(processor.process("<th"));
    parts.extend(processor.process("ink>"));
    parts.extend(processor.process("foo"));
    parts.extend(processor.process("</th"));
    parts.extend(processor.process("ink>"));
    assert_eq!(parts.len(), 3);
    assert_eq!(parts[0].state, State::StateSmark);
    assert_eq!(parts[0].value.clone().unwrap(), "foo");
    assert_eq!(parts[1].content, "foo");
    assert_eq!(parts[1].state, State::StateMatch);
    assert_eq!(parts[1].value.clone().unwrap(), "foo");
    assert_eq!(parts[2].state, State::StateEmark);
    assert_eq!(parts[2].value.clone(), None);
}
