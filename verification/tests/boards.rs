use study_app::domain::Topic;
use study_app::repo::assets::{classify, dir, plan_import, AssetKind};
use study_app::error::AppError;
use study_app::repo::tags::{ensure, tag_key, Tag};
use study_app::repo::topics::{all, awake, create, rename, set_mode, touch};

fn topic(title: &str, visited: i128) -> Topic {
    let t = create(Some(title.to_lowercase()), title, 0);
    touch(t, visited)
}

fn titles(ts: &[Topic]) -> Vec<&str> {
    ts.iter().map(|t| t.title.as_str()).collect()
}

#[test]
fn a_new_board_is_a_work_board_visited_now() {
    let t = create(None, "Óptica", 12);
    assert!(!t.study);
    assert_eq!(t.title, "Óptica");
    assert_eq!(t.last_visited_at, 12);
    assert_eq!(t.id.len(), 36);
}

#[test]
fn the_sidebar_is_ordered_by_visit_not_by_name() {
    let ts = vec![topic("Aardvark", 1), topic("Zebra", 12), topic("Middle", 5)];
    assert_eq!(titles(&awake(ts, 2)), vec!["Zebra", "Middle"], "most recently opened comes first");
    let ts = vec![topic("Aardvark", 1), topic("Zebra", 12)];
    assert_eq!(titles(&awake(ts, -1)), vec!["Zebra", "Aardvark"]);
    let ts = vec![topic("Aardvark", 1)];
    assert!(awake(ts, 0).is_empty());
    let ts = vec![topic("Aardvark", 1), topic("Zebra", 12)];
    assert_eq!(titles(&all(ts)), vec!["Zebra", "Aardvark"]);
}

#[test]
fn switching_modes_touches_nothing_else() {
    let t = topic("Memoria", 3);
    let s = set_mode(t.clone(), true, 9);
    assert!(s.study);
    assert_eq!(s.updated_at, 9);
    assert_eq!(s.last_visited_at, 3);
    let r = rename(s, "Memoria II", 10);
    assert_eq!(r.title, "Memoria II");
    assert!(r.study);
}

#[test]
fn copies_live_in_the_assets_directory() {
    assert_eq!(dir("/data"), "/data/assets");
    assert_eq!(dir("/data/"), "/data/assets");
    assert_eq!(dir(""), "assets");
}

#[test]
fn only_images_and_pdfs_are_brought_in() {
    assert_eq!(classify("PNG"), Some((AssetKind::Image, "image/png")));
    assert_eq!(classify("jpeg"), Some((AssetKind::Image, "image/jpeg")));
    assert_eq!(classify("Jpg"), Some((AssetKind::Image, "image/jpeg")));
    assert_eq!(classify("svg"), Some((AssetKind::Image, "image/svg+xml")));
    assert_eq!(classify("pdf"), Some((AssetKind::Pdf, "application/pdf")));
    assert_eq!(classify("docx"), None);
    assert_eq!(classify(""), None);
}

#[test]
fn an_imported_file_is_named_by_its_id() {
    let plan = plan_import("PNG", Some("diagram.png".into())).ok().unwrap();
    assert_eq!(plan.kind, AssetKind::Image);
    assert_eq!(plan.mime, "image/png");
    assert_eq!(plan.file_name, "diagram.png", "the name it arrived with is kept for display");
    assert_eq!(plan.rel_path, format!("{}.png", plan.id));
    let unnamed = plan_import("pdf", None).ok().unwrap();
    assert_eq!(unnamed.file_name, "file");
    match plan_import("docx", Some("thing.docx".into())) {
        Err(AppError::Invalid(msg)) => assert_eq!(msg, "cannot bring in a .docx — images and PDFs only"),
        _ => panic!("a document is refused"),
    }
}

#[test]
fn tags_fold_spanish_but_keep_the_enye_apart() {
    assert_eq!(tag_key("Localización"), tag_key("localizacion"), "one tag, not two");
    assert_ne!(tag_key("año"), tag_key("ano"));
    assert_eq!(tag_key("  Uno "), Some("uno".to_string()));
    assert_eq!(tag_key("   "), None);
}

#[test]
fn ensuring_a_tag_finds_or_makes_it() {
    let made = ensure("  Ondas ", None, 4).ok().unwrap();
    assert_eq!(made.name, "Ondas");
    assert_eq!(made.fold, "ondas");
    assert_eq!(made.created_at, 4);
    assert_eq!(made.id.len(), 36);
    let existing = Tag { id: "t1".into(), name: "ondas".into(), fold: "ondas".into(), created_at: 1 };
    let found = ensure("ONDAS", Some(existing), 9).ok().unwrap();
    assert_eq!(found.id, "t1");
    match ensure("  ", None, 0) {
        Err(AppError::Invalid(msg)) => assert_eq!(msg, "a tag needs a name"),
        _ => panic!("an empty name is refused"),
    }
}

use study_app::repo::assets::DataDir;

#[test]
fn the_asset_directory_sits_in_the_data_directory() {
    assert_eq!(DataDir("/home/u/.local/share/study".into()).asset_dir(), "/home/u/.local/share/study/assets");
}

#[test]
fn two_imports_of_the_same_name_get_different_paths() {
    let a = plan_import("png", Some("same.png".into())).ok().unwrap();
    let b = plan_import("PNG", Some("same.png".into())).ok().unwrap();
    assert_ne!(a.id, b.id);
    assert_ne!(a.rel_path, b.rel_path);
    assert_eq!(a.file_name, b.file_name);
    assert!(a.rel_path.starts_with(&a.id) && b.rel_path.starts_with(&b.id));
}
