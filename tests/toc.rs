use harper::markdown::{Event, Tag, TagEnd};
use harper::toc::TableOfContents;

fn heading(level: u8, text: &str) -> Vec<Event> {
    vec![
        Event::Start(Tag::Heading { level, id: Some(text.to_lowercase()), classes: vec![], attrs: vec![] }),
        Event::Text(text.to_string()),
        Event::End(TagEnd::Heading(level)),
    ]
}

#[test]
fn headings_nest_by_level() {
    let mut events = vec![];
    for (level, text) in [(1, "A"), (2, "B"), (2, "C"), (1, "D"), (3, "E")] {
        events.extend(heading(level, text));
        events.push(Event::Text("body".to_string()));
    }
    let mut toc = TableOfContents::new();
    toc.remap(&events);
    assert_eq!(toc.roots, vec![0, 3]);
    assert_eq!(toc.entries.len(), 5);
    assert_eq!(toc.entries[0].children, vec![1, 2]);
    assert_eq!(toc.entries[3].children, vec![4]);
    assert_eq!(toc.entries[4].title, "E");
    assert_eq!(toc.entries[1].id.as_deref(), Some("b"));
    assert_eq!(toc.find_parent(2), Some(3));
    assert_eq!(toc.find_parent(1), None);
    toc.reset();
    assert!(toc.entries.is_empty());
}
