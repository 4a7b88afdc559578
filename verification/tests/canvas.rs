use study_app::domain::{CanvasEdge, CanvasNodeKind, NoteKind};
use study_app::error::AppError;
use study_app::repo::canvas::{
    check_asset_node, check_topic_node, connect, frame_notes, html_escape, link_address,
    next_frame_order, promote_text, reaches_exec, Placement,
};
use study_app::repo::notes::create;

fn invalid(r: Result<impl std::fmt::Debug, AppError>) -> String {
    match r {
        Err(AppError::Invalid(msg)) => msg,
        other => panic!("expected a refusal, got {other:?}"),
    }
}

fn nest(pairs: &[(&str, &str)]) -> Vec<(String, String)> {
    pairs.iter().map(|(a, b)| (a.to_string(), b.to_string())).collect()
}

#[test]
fn topics_nest_but_cannot_form_a_cycle() {
    let a = "a".to_string();
    let b = "b".to_string();
    let c = "c".to_string();
    // b sits on a, c sits on b.
    let placed = nest(&[("a", "b"), ("b", "c")]);
    assert!(check_topic_node(&a, &c, &placed).is_ok());
    assert_eq!(invalid(check_topic_node(&c, &a, &placed)), "that would nest these topics inside each other");
    assert_eq!(invalid(check_topic_node(&a, &a, &placed)), "a topic cannot contain itself");
    assert!(check_topic_node(&b, &a, &nest(&[])).is_ok());
}

#[test]
fn reaching_follows_nesting_downwards_only() {
    let placed = nest(&[("a", "b"), ("b", "c"), ("x", "a")]);
    let r = |u: &str, v: &str| reaches_exec(&placed, &u.to_string(), &v.to_string());
    assert!(r("a", "c"));
    assert!(r("x", "c"));
    assert!(r("c", "c"));
    assert!(!r("c", "a"));
    assert!(!r("b", "x"));
}

fn boards(ids: &[&str]) -> Vec<String> {
    ids.iter().map(|s| s.to_string()).collect()
}

#[test]
fn a_pointer_joins_two_cards_on_one_board() {
    let edge = connect(Some("e1".into()), "n1", "n2", &boards(&["t", "t"]), None, 42).ok().unwrap();
    assert_eq!(edge.id, "e1");
    assert_eq!(edge.topic_id, "t", "the board comes from the nodes");
    assert_eq!(edge.source_id, "n1");
    assert_eq!(edge.target_id, "n2");
    assert_eq!(edge.label, "");
    assert_eq!(edge.created_at, 42);

    let fresh = connect(None, "n1", "n2", &boards(&["t", "t"]), None, 1).ok().unwrap();
    assert_eq!(fresh.id.len(), 36);
}

#[test]
fn drawing_the_same_arrow_twice_gives_back_the_first() {
    let first = CanvasEdge {
        id: "e1".into(),
        topic_id: "t".into(),
        source_id: "n1".into(),
        target_id: "n2".into(),
        label: "why".into(),
        created_at: 1,
    };
    let again = connect(None, "n1", "n2", &boards(&["t", "t"]), Some(first), 9).ok().unwrap();
    assert_eq!(again.id, "e1");
    assert_eq!(again.label, "why");
}

#[test]
fn pointers_are_refused_across_boards_and_onto_themselves() {
    assert_eq!(invalid(connect(None, "n1", "n1", &boards(&["t"]), None, 0)), "a card cannot point at itself");
    assert_eq!(invalid(connect(None, "n1", "n2", &boards(&["t"]), None, 0)), "both ends must be on the board");
    assert_eq!(invalid(connect(None, "n1", "n2", &boards(&[]), None, 0)), "both ends must be on the board");
    assert_eq!(invalid(connect(None, "n1", "n2", &boards(&["t", "u"]), None, 0)), "a pointer cannot span two boards");
}

#[test]
fn only_images_and_pdfs_are_asset_nodes() {
    assert!(check_asset_node(CanvasNodeKind::Image).is_ok());
    assert!(check_asset_node(CanvasNodeKind::Pdf).is_ok());
    assert_eq!(invalid(check_asset_node(CanvasNodeKind::Note)), "asset nodes must be image or pdf");
    assert_eq!(invalid(check_asset_node(CanvasNodeKind::Link)), "asset nodes must be image or pdf");
}

#[test]
fn a_link_points_outwards() {
    assert_eq!(link_address("example.com/paper").ok().unwrap(), "https://example.com/paper");
    assert_eq!(link_address("  http://x.test ").ok().unwrap(), "http://x.test");
    assert_eq!(invalid(link_address("   ")), "a link needs an address");
    assert_eq!(invalid(link_address("")), "a link needs an address");
}

#[test]
fn only_three_characters_are_escaped() {
    assert_eq!(html_escape("a < b && c > \"d\""), "a &lt; b &amp;&amp; c &gt; \"d\"");
    assert_eq!(html_escape("plain"), "plain");
}

#[test]
fn loose_text_becomes_a_note_in_place() {
    let n = promote_text("  una idea <suelta>  ", Some("p1".into()), 77);
    assert_eq!(n.id, "p1");
    assert_eq!(n.title, "");
    assert_eq!(n.kind, NoteKind::Long);
    assert_eq!(n.body_text, "una idea <suelta>");
    assert_eq!(n.body_html, "<p>una idea &lt;suelta&gt;</p>");
    assert_eq!(n.body_json, "{}");
    assert_eq!(n.distilled_at, Some(77));
    assert_eq!(n.content_edited_at, Some(77));
    assert_eq!(n.created_at, 77);

    let empty = promote_text("   ", None, 1);
    assert_eq!(empty.distilled_at, None);
    assert_eq!(empty.body_html, "<p></p>");
}

fn placed(title: &str, distilled: bool, slot: Option<i64>, at: i128) -> Placement {
    let mut note = create(None, title, NoteKind::Atomic, at);
    if distilled {
        note.distilled_at = Some(at);
    }
    Placement { note, order_in_frame: slot, placed_at: at }
}

#[test]
fn the_document_comes_from_frames_and_ignores_coordinates() {
    let notes = frame_notes(vec![
        placed("Superposition", true, Some(2), 1),
        placed("half-formed thought", false, Some(0), 2),
        placed("What a wave is", true, Some(1), 3),
        placed("just captured", false, None, 4),
        placed("Unslotted", true, None, 5),
    ]);
    let titles: Vec<_> = notes.iter().map(|n| n.title.as_str()).collect();
    assert_eq!(titles, vec!["Unslotted", "What a wave is", "Superposition"]);
}

#[test]
fn within_a_slot_the_earlier_placement_comes_first() {
    let notes = frame_notes(vec![placed("later", true, Some(1), 9), placed("earlier", true, Some(1), 3)]);
    let titles: Vec<_> = notes.iter().map(|n| n.title.as_str()).collect();
    assert_eq!(titles, vec!["earlier", "later"]);
}

#[test]
fn new_frames_take_the_next_slot() {
    assert_eq!(next_frame_order(&vec![]), Some(0));
    assert_eq!(next_frame_order(&vec![0, 4, 2]), Some(5));
    assert_eq!(next_frame_order(&vec![-3]), Some(-2));
    assert_eq!(next_frame_order(&vec![i64::MAX]), None);
}
