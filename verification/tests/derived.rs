use study_app::document::{collect_tasks, gather_text, Json};
use study_app::domain::{content_hash, Note, NoteKind};
use study_app::note_state::RecallState;
use study_app::repo::derived::{
    check_nth_html, decimal_exec, due_date, link_targets, mentioned_ids, task_rows, tick_document,
};
use study_app::repo::notes::{create, save_body, tick_task};

fn s(text: &str) -> Json {
    Json::Str(text.to_string())
}

fn obj(members: Vec<(&str, Json)>) -> Json {
    Json::Object(members.into_iter().map(|(k, v)| (k.to_string(), v)).collect())
}

fn text_node(text: &str) -> Json {
    obj(vec![("type", s("text")), ("text", s(text))])
}

fn paragraph(text: &str) -> Json {
    obj(vec![("type", s("paragraph")), ("content", Json::Array(vec![text_node(text)]))])
}

fn task_item(text: &str, checked: bool) -> Json {
    obj(vec![
        ("type", s("taskItem")),
        ("attrs", obj(vec![("checked", Json::Bool(checked))])),
        ("content", Json::Array(vec![paragraph(text)])),
    ])
}

fn doc(items: Vec<Json>) -> Json {
    obj(vec![
        ("type", s("doc")),
        ("content", Json::Array(vec![obj(vec![("type", s("taskList")), ("content", Json::Array(items))])])),
    ])
}

fn checked_of(item: &Json) -> Option<bool> {
    if let Json::Object(members) = item {
        for (k, v) in members {
            if k == "attrs" {
                if let Json::Object(attrs) = v {
                    for (ak, av) in attrs {
                        if ak == "checked" {
                            if let Json::Bool(b) = av {
                                return Some(*b);
                            }
                        }
                    }
                }
            }
        }
    }
    None
}

fn items_of(d: &Json) -> Vec<&Json> {
    let mut out = Vec::new();
    if let Json::Object(members) = d {
        for (k, v) in members {
            if k == "content" {
                if let Json::Array(lists) = v {
                    for list in lists {
                        if let Json::Object(lm) = list {
                            for (lk, lv) in lm {
                                if lk == "content" {
                                    if let Json::Array(items) = lv {
                                        out.extend(items.iter());
                                    }
                                }
                            }
                        }
                    }
                }
            }
        }
    }
    out
}

#[test]
fn mentions_are_found_wherever_they_are_nested() {
    let id = "3f2504e0-4f89-41d3-9a0c-0305e82c3301";
    let json = format!(
        r#"{{"content":[{{"content":[{{"marks":[{{"attrs":{{"href":"note:{id}"}}}}]}}]}}]}}"#
    );

    assert_eq!(mentioned_ids(&json), vec![id.to_string()]);
}

#[test]
fn the_same_mention_twice_is_one_edge() {
    let id = "3f2504e0-4f89-41d3-9a0c-0305e82c3301";
    let json = format!(r#"["note:{id}", "note:{id}"]"#);
    assert_eq!(mentioned_ids(&json).len(), 1);
}

#[test]
fn prose_that_merely_says_note_is_not_a_mention() {
    assert!(mentioned_ids(r#"{"text":"see note: the appendix"}"#).is_empty());
    assert!(mentioned_ids(r#"{"text":"note:1234"}"#).is_empty());
}

#[test]
fn mentions_keep_the_order_of_their_first_appearance() {
    let a = "3f2504e0-4f89-41d3-9a0c-0305e82c3301";
    let b = "00000000-0000-4000-8000-000000000000";
    let json = format!(r#"["note:{b}", "note:{a}", "note:{b}"]"#);
    assert_eq!(mentioned_ids(&json), vec![b.to_string(), a.to_string()]);
}

#[test]
fn a_note_mentioning_itself_is_not_a_connection() {
    let own = "3f2504e0-4f89-41d3-9a0c-0305e82c3301";
    let other = "00000000-0000-4000-8000-000000000000";
    let json = format!(r#"["note:{own}", "note:{other}"]"#);
    assert_eq!(link_targets(own, &json), vec![other.to_string()]);
}

#[test]
fn a_task_without_a_date_never_surfaces() {
    assert_eq!(due_date("comprar pan"), None);
    assert_eq!(due_date("comprar pan due:mañana"), None);
}

#[test]
fn an_explicit_date_is_read() {
    assert_eq!(due_date("revisar el capítulo due:2026-09-10").as_deref(), Some("2026-09-10"));
}

#[test]
fn a_date_is_written_back_in_its_full_form() {
    assert_eq!(due_date("llamar due:2026-9-1").as_deref(), Some("2026-09-01"));
    assert_eq!(due_date("no such day due:2026-02-30"), None);
}

#[test]
fn tasks_are_collected_from_anywhere_in_the_document() {
    let d = doc(vec![task_item("uno", false), task_item("dos", true)]);

    let mut found = Vec::new();
    collect_tasks(&d, &mut found);

    assert_eq!(found, vec![("uno".to_string(), false), ("dos".to_string(), true)]);
}

#[test]
fn a_task_with_only_whitespace_is_no_task() {
    let d = doc(vec![task_item("   ", false), task_item(" tres ", false)]);
    let mut found = Vec::new();
    collect_tasks(&d, &mut found);
    assert_eq!(found, vec![("tres".to_string(), false)]);
}

#[test]
fn text_is_gathered_in_document_order() {
    let node = obj(vec![
        ("text", s("a")),
        ("content", Json::Array(vec![text_node("b"), paragraph("c")])),
    ]);
    let mut out = Vec::new();
    gather_text(&node, &mut out);
    assert_eq!(out.into_iter().collect::<String>(), "abc");
}

#[test]
fn task_rows_carry_position_ids_and_dates() {
    let d = doc(vec![task_item("uno due:2026-09-10", false), task_item("dos", true)]);
    let rows = task_rows("n1", &d);
    assert_eq!(rows.len(), 2);
    assert_eq!(rows[0].id, "n1:0");
    assert_eq!(rows[0].note_id, "n1");
    assert_eq!(rows[0].text, "uno due:2026-09-10");
    assert_eq!(rows[0].due_on.as_deref(), Some("2026-09-10"));
    assert_eq!(rows[0].position, 0);
    assert!(!rows[0].done);
    assert_eq!(rows[1].id, "n1:1");
    assert_eq!(rows[1].due_on, None);
    assert!(rows[1].done);
}

#[test]
fn positions_are_written_in_decimal() {
    assert_eq!(decimal_exec(0).into_iter().collect::<String>(), "0");
    assert_eq!(decimal_exec(1207).into_iter().collect::<String>(), "1207");
}

#[test]
fn ticking_flips_only_the_numbered_item() {
    let d = doc(vec![task_item("primera", false), task_item("segunda", false)]);
    let ticked = tick_document(d, 1, true).unwrap();
    let items = items_of(&ticked);
    assert_eq!(items.len(), 2);
    assert_eq!(checked_of(items[0]), Some(false));
    assert_eq!(checked_of(items[1]), Some(true));
}

#[test]
fn ticking_a_task_with_no_attrs_gives_it_some() {
    let bare = obj(vec![
        ("type", s("taskItem")),
        ("content", Json::Array(vec![paragraph("x")])),
    ]);
    let after = tick_document(bare, 0, true).unwrap();
    assert_eq!(checked_of(&after), Some(true));
}

#[test]
fn ticking_past_the_last_item_finds_nothing() {
    let d = doc(vec![task_item("primera", false)]);
    assert!(tick_document(d, 1, true).is_none());
}

#[test]
fn ticking_moves_both_halves_of_the_rendered_item() {
    let html = [
        "<ul data-type=\"taskList\">",
        "<li data-checked=\"false\" data-type=\"taskItem\"><label>",
        "<input type=\"checkbox\"><span></span></label><div><p>primera</p></div></li>",
        "<li data-checked=\"false\" data-type=\"taskItem\"><label>",
        "<input type=\"checkbox\"><span></span></label><div><p>segunda</p></div></li></ul>",
    ]
    .join("");
    let html = html.as_str();
    let ticked = check_nth_html(html, 1, true);
    assert!(ticked.contains(
        "<li data-checked=\"false\" data-type=\"taskItem\"><label><input type=\"checkbox\">"
    ));
    assert!(ticked.contains(
        "<li data-checked=\"true\" data-type=\"taskItem\"><label><input type=\"checkbox\" checked=\"checked\">"
    ));
    assert!(ticked.contains("primera"));
    assert!(ticked.contains("segunda"));

    let back = check_nth_html(&ticked, 1, false);
    assert!(!back.contains("checked=\"checked\""));
    assert_eq!(back, html);
}

#[test]
fn an_item_past_the_last_leaves_the_html_alone() {
    let html = "<li data-checked=\"false\"><input type=\"checkbox\"></li>";
    assert_eq!(check_nth_html(html, 3, true), html);
}

#[test]
fn ticking_a_task_edits_the_note_and_costs_no_recall() {
    let note: Note = create(None, "Pendientes", NoteKind::Long, 10);
    let note = save_body(note, "Pendientes", "", "{}", "<p/>", "primera segunda", 20);
    let mut recalled = note.clone();
    recalled.last_recall_at = Some(30);
    recalled.content_hash_at_recall = Some(recalled.content_hash.clone());
    let before_state = recalled.recall_state();

    let ticked = tick_task(recalled.clone(), "{\"checked\":true}".into(), "<p>x</p>".into(), 40);
    assert_eq!(ticked.body_json, "{\"checked\":true}");
    assert_eq!(ticked.body_html, "<p>x</p>");
    assert_eq!(ticked.updated_at, 40);
    assert_eq!(ticked.content_hash, recalled.content_hash);
    assert_eq!(ticked.content_hash, content_hash("primera segunda"));
    assert_eq!(ticked.content_edited_at, recalled.content_edited_at);
    assert_eq!(ticked.recall_state(), before_state);
    assert_eq!(ticked.recall_state(), RecallState::Recalled);
}

use study_app::repo::derived::{all_open, due_on, DueTask, Task};

fn row(text: &str, title: &str, due: Option<&str>, page: Option<&str>, position: i64, done: bool) -> DueTask {
    DueTask {
        task: Task {
            id: format!("{title}:{position}"),
            note_id: title.to_string(),
            text: text.to_string(),
            done,
            due_on: due.map(|d| d.to_string()),
            position,
        },
        note_title: title.to_string(),
        journal_day: page.map(|d| d.to_string()),
    }
}

#[test]
fn a_day_shows_its_own_undated_tasks_but_they_do_not_follow_you() {
    let rows = || {
        vec![
            row("lo de ayer", "", None, Some("2026-09-08"), 0, false),
            row("lo de hoy", "", None, Some("2026-09-09"), 0, false),
            row("con fecha", "Difracción", Some("2026-09-09"), None, 1, false),
            row("suelta", "Difracción", None, None, 0, false),
            row("hecha", "Difracción", Some("2026-09-09"), None, 2, true),
        ]
    };
    let today: Vec<String> = due_on(rows(), "2026-09-09").into_iter().map(|t| t.task.text).collect();
    assert_eq!(today, vec!["con fecha", "lo de hoy"]);
    let yesterday: Vec<String> = due_on(rows(), "2026-09-08").into_iter().map(|t| t.task.text).collect();
    assert_eq!(yesterday, vec!["lo de ayer"]);
}

#[test]
fn every_open_task_is_listed_dated_first() {
    let rows = vec![
        row("undated b", "B", None, None, 0, false),
        row("later", "A", Some("2026-09-11"), None, 0, false),
        row("undated a2", "A", None, None, 2, false),
        row("sooner", "Z", Some("2026-09-10"), None, 0, false),
        row("undated a1", "A", None, None, 1, false),
        row("closed", "A", Some("2026-01-01"), None, 0, true),
    ];
    let texts: Vec<String> = all_open(rows).into_iter().map(|t| t.task.text).collect();
    assert_eq!(texts, vec!["sooner", "later", "undated a1", "undated a2", "undated b"]);
}

#[test]
fn a_tick_skips_task_items_with_no_words_as_the_index_does() {
    let d = doc(vec![task_item("", false), task_item("a", false), task_item("b", false)]);
    let rows = task_rows("n", &d);
    assert_eq!(rows.len(), 2);
    assert_eq!(rows[0].text, "a");
    assert_eq!(rows[0].id, "n:0");

    let ticked = tick_document(d, 0, true).unwrap();
    let items = items_of(&ticked);
    assert_eq!(checked_of(items[0]), Some(false));
    assert_eq!(checked_of(items[1]), Some(true));
    assert_eq!(checked_of(items[2]), Some(false));
    let after = task_rows("n", &ticked);
    assert!(after[0].done);
    assert!(!after[1].done);
}

#[test]
fn the_rendered_tick_skips_empty_items_too() {
    let html = [
        "<li data-checked=\"false\" data-type=\"taskItem\"><label><input type=\"checkbox\"><span></span></label><div><p></p></div></li>",
        "<li data-checked=\"false\" data-type=\"taskItem\"><label><input type=\"checkbox\"><span></span></label><div><p>a</p></div></li>",
        "<li data-checked=\"false\" data-type=\"taskItem\"><label><input type=\"checkbox\"><span></span></label><div><p>b</p></div></li>",
    ];
    let ticked = check_nth_html(&html.join(""), 0, true);
    let expected = [
        html[0].to_string(),
        html[1]
            .replace("data-checked=\"false\"", "data-checked=\"true\"")
            .replace("<input type=\"checkbox\">", "<input type=\"checkbox\" checked=\"checked\">"),
        html[2].to_string(),
    ]
    .join("");
    assert_eq!(ticked, expected);
}

#[test]
fn a_later_tick_of_the_same_item_wins() {
    let html = [
        "<li data-checked=\"true\"><input type=\"checkbox\" checked disabled><p>a</p></li>",
        "<li data-checked=\"false\"><input type=\"checkbox\" class=\"x\"><p>b</p></li>",
    ]
    .join("");
    let untick = check_nth_html(&html, 0, false);
    assert_eq!(check_nth_html(&check_nth_html(&html, 0, true), 0, false), untick);
    assert_eq!(
        untick,
        [
            "<li data-checked=\"false\"><input type=\"checkbox\"><p>a</p></li>",
            "<li data-checked=\"false\"><input type=\"checkbox\" class=\"x\"><p>b</p></li>",
        ]
        .join("")
    );
    let tick = check_nth_html(&html, 1, true);
    assert_eq!(check_nth_html(&tick, 1, true), tick);
}

#[test]
fn unticking_gives_back_the_html_written_unticked() {
    let html = "<ul><li data-checked=\"false\" data-type=\"taskItem\"><label><input type=\"checkbox\"><span></span></label><div><p>uno</p></div></li></ul>";
    let ticked = check_nth_html(html, 0, true);
    assert_ne!(ticked, html);
    assert_eq!(check_nth_html(&ticked, 0, false), html);
    assert_eq!(check_nth_html(html, 0, false), html);
}
