use harper::indexer::{code_div, LunrIndexer};
use harper::markdown::{Event, Tag, TagEnd};

#[test]
fn code_div_numbers_lines() {
    assert_eq!(
        code_div(3, "a\nb\nc".to_string()),
        "<div class=\"code\" style=\"display: flex;\"><pre class=\"line-nums\">1\n2\n3</pre><pre class=\"code\">a\nb\nc</pre></div>"
    );
    assert_eq!(
        code_div(0, String::new()),
        "<div class=\"code\" style=\"display: flex;\"><pre class=\"line-nums\"></pre><pre class=\"code\"></pre></div>"
    );
    assert!(code_div(12, String::new()).contains("9\n10\n11\n12</pre>"));
}

fn heading(level: u8, id: &str, text: &str) -> Vec<Event> {
    vec![
        Event::Start(Tag::Heading { level, id: Some(id.to_string()), classes: vec![], attrs: vec![] }),
        Event::Text(text.to_string()),
        Event::End(TagEnd::Heading(level)),
    ]
}

#[test]
fn indexer_gathers_sections_with_breadcrumbs() {
    let mut events = heading(1, "guide", "Guide");
    events.push(Event::Text("intro text".to_string()));
    events.extend(heading(2, "setup", "Setup"));
    events.push(Event::Code("cargo".to_string()));
    events.extend(heading(2, "usage", "Usage"));
    events.extend(heading(1, "faq", "FAQ"));
    let mut indexer = LunrIndexer::new();
    indexer.remap(&events);
    let docs = &indexer.docs;
    assert_eq!(docs.len(), 4);
    assert_eq!(docs[0].id(), "guide");
    assert_eq!(docs[0].fields(), ["Guide", "Guide", "intro text"]);
    assert_eq!(docs[1].fields(), ["Setup", "Guide > Setup", "cargo"]);
    assert_eq!(docs[2].fields(), ["Usage", "Guide > Usage", ""]);
    assert_eq!(docs[3].fields(), ["FAQ", "FAQ", ""]);
}
