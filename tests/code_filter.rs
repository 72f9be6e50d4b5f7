use harper::code_filter::{CodeTrim, LineTrim};
use harper::markdown::{Event, Tag, TagEnd};

fn block(text: &str) -> Vec<Event> {
    vec![
        Event::Text("outside # x\n".to_string()),
        Event::Start(Tag::CodeBlock("rust".to_string())),
        Event::Text(text.to_string()),
        Event::End(TagEnd::CodeBlock),
    ]
}

fn texts(events: &[Event]) -> Vec<String> {
    events
        .iter()
        .filter_map(|e| match e {
            Event::Text(t) => Some(t.clone()),
            _ => None,
        })
        .collect()
}

#[test]
fn hidden_lines_are_removed() {
    let out = CodeTrim::trim_hidden().remap(block("# hidden\nshown\n  #\n#[attr]\n"));
    assert_eq!(texts(&out), vec!["outside # x\n", "shown\n", "#[attr]\n"]);
    assert_eq!(out.len(), 5);
}

#[test]
fn leading_blank_lines_are_removed() {
    let out = CodeTrim::trim_start().remap(block("\n  \ncode\n\nmore"));
    assert_eq!(texts(&out), vec!["outside # x\n", "code\n", "\n", "more"]);
}

#[test]
fn caller_predicate_gets_line_numbers() {
    let mut events = block("a\nb\nc\n");
    events.extend(block("d\ne"));
    let trim = LineTrim::trim(|line: &String, n: usize| n == 1 || line.trim() == "#");
    let out = trim.remap(events);
    assert_eq!(
        texts(&out),
        vec!["outside # x\n", "a\n", "c\n", "outside # x\n", "d\n"]
    );
}
