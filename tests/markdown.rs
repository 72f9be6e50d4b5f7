use harper::admonition::Admonition;
use harper::markdown::{AutoHeading, Event, HeadingAnchor, Snippet, Tag, TagEnd};

#[test]
fn admonition_transform() {
    let out = Admonition.preprocess("!note: Title\n  Body line\n\nAfter\n");
    let open = "<div class=\"admonition note\">";
    assert!(out.starts_with(open));
    assert!(out.contains("<span class=\"title note\">"));
    let close = out.find("</div>").unwrap();
    let span_end = out.find("</span>").unwrap();
    assert!(out.find("Title").unwrap() < span_end);
    assert!(out.find("Body line").unwrap() > span_end);
    assert!(out.find("Body line").unwrap() < close);
    assert!(out.ends_with("</div>\n\nAfter\n"));
    assert_eq!(
        out,
        "<div class=\"admonition note\">\n<span class=\"title note\">\n\nTitle\n\n</span>\n\n  Body line\n\n\n</div>\n\nAfter\n"
    );
}

#[test]
fn admonition_body_and_plain_text() {
    assert_eq!(Admonition.preprocess("no marks here!\n"), "no marks here!\n");
    assert_eq!(Admonition.preprocess("a !b\n"), "a !b\n");
    let out = Admonition.preprocess("!tip\n  inner\nrest");
    assert_eq!(
        out,
        "<div class=\"admonition tip\">\n<span class=\"title tip\">\n\n\n\n</span>\n\n  inner\n\n</div>\n\nrest"
    );
}

fn heading(text: &str) -> Vec<Event> {
    vec![
        Event::Start(Tag::Heading { level: 2, id: None, classes: vec![], attrs: vec![] }),
        Event::Text(text.to_string()),
        Event::End(TagEnd::Heading(2)),
    ]
}

fn ids(events: &[Event]) -> Vec<String> {
    events
        .iter()
        .filter_map(|e| match e {
            Event::Start(Tag::Heading { id: Some(id), .. }) => Some(id.clone()),
            _ => None,
        })
        .collect()
}

#[test]
fn heading_id_deduplication() {
    let mut events = heading("Intro");
    events.push(Event::Start(Tag::Paragraph));
    events.push(Event::Text("body".to_string()));
    events.push(Event::End(TagEnd::Paragraph));
    events.extend(heading("Intro"));
    events.extend(heading("Intro"));
    let named = AutoHeading.remap(events);
    assert_eq!(ids(&named), vec!["intro", "intro-1", "intro-2"]);
    assert_eq!(named.len(), 12);
    let anchored = HeadingAnchor.remap(named);
    assert_eq!(anchored.len(), 15);
    assert!(matches!(&anchored[1], Event::Html(h) if h == "<a class=\"anchor\" title=\"anchor\" href=\"#intro\"></a>"));
    assert!(matches!(&anchored[8], Event::Html(h) if h.contains("#intro-1")));
}

#[test]
fn heading_keeps_given_id_and_drops_unclosed() {
    let events = vec![
        Event::Start(Tag::Heading { level: 1, id: Some("x".to_string()), classes: vec![], attrs: vec![] }),
        Event::End(TagEnd::Heading(1)),
        Event::Start(Tag::Heading { level: 1, id: None, classes: vec![], attrs: vec![] }),
        Event::Text("open".to_string()),
    ];
    let named = AutoHeading.remap(events);
    assert_eq!(named.len(), 2);
    assert_eq!(ids(&named), vec!["x"]);
}

fn doc() -> Vec<Event> {
    vec![
        Event::Start(Tag::Paragraph),
        Event::Text("Hello ".to_string()),
        Event::Start(Tag::Emphasis),
        Event::Text("world".to_string()),
        Event::End(TagEnd::Emphasis),
        Event::End(TagEnd::Paragraph),
        Event::Start(Tag::Paragraph),
        Event::Code("x".to_string()),
        Event::End(TagEnd::Paragraph),
    ]
}

#[test]
fn excerpt_boundary() {
    let mut s = Snippet::new(0);
    s.remap(&doc());
    assert_eq!(s.finalize(), "");
    let mut s = Snippet::new(1000);
    s.remap(&doc());
    assert_eq!(s.finalize(), "<p>Hello <em>world</em></p><p><code>x</code></p>");
    let mut s = Snippet::new(3);
    s.remap(&doc());
    assert_eq!(s.finalize(), "<p>Hello <em>world</em></p>");
}
