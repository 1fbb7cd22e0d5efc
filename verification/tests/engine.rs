use papersmith::checking::{can_create_path, check_path, PathCheck};
use papersmith::index::{index_text, parse_index};
use papersmith::loader::{parse_project, scan_project, write_project_config};
use papersmith::project::{Chapter, Project};
use papersmith::saving::{add_chapter, create_project, delete_path, rename_path, MutateError};
use papersmith::statistics::{format_file_name, unformat_file_name, validate_json_text};
use papersmith::sidebar::{
    chapter_status, delete_chapter, push_chapter, remove_note, rename_chapter, reorder_chapters,
    resolve_untitled_name, select_chapter, ChapterStatus,
};
use papersmith::paths::{get_file_name, replace_file_name, split_path};
use papersmith::vfs::{create_dir, read_file, write_file, Vfs, VfsEntry, VfsNode};
use papersmith::PaperSmithError;
use papersmith::Settings;

fn comps(parts: &[&str]) -> Vec<String> {
    parts.iter().map(|s| s.to_string()).collect()
}

fn chapter(name: &str) -> Chapter {
    Chapter { name: name.to_string(), notes: Vec::new(), extras: Vec::new() }
}

fn project(names: &[&str], active: Option<usize>) -> Project {
    Project {
        path: "/home/me/Book".to_string(),
        chapters: names.iter().map(|n| chapter(n)).collect(),
        active_chapter: active,
    }
}

fn names_of(p: &Project) -> Vec<String> {
    p.chapters.iter().map(|c| c.name.clone()).collect()
}

/// A project root with a Chapters directory, scaffolded on a fresh tree.
fn scaffolded() -> Vfs {
    let mut fs = Vfs::new();
    assert!(create_dir(&mut fs, &comps(&["home"])));
    assert!(create_dir(&mut fs, &comps(&["home", "me"])));
    let p = create_project(&mut fs, &"/home/me/Book".to_string()).expect("fresh project");
    assert!(p.chapters.is_empty());
    assert_eq!(p.active_chapter, None);
    fs
}

#[test]
fn reorder_third_chapter_to_front() {
    // Moving index 2 to slot 0 in a four-chapter project gives
    // [c2, c0, c1, c3] and keeps the same chapters.
    let mut p = project(&["c0", "c1", "c2", "c3"], None);
    reorder_chapters(&mut p, 2, 0);
    assert_eq!(names_of(&p), vec!["c2", "c0", "c1", "c3"]);
    let mut sorted = names_of(&p);
    sorted.sort();
    assert_eq!(sorted, vec!["c0", "c1", "c2", "c3"]);
}

#[test]
fn reorder_remaps_active_chapter() {
    // Dragging A (index 0) of [A, B, C] with B active: B is displaced
    // into the dragged chapter's old slot, so the active index keeps
    // naming B.
    let mut p = project(&["A", "B", "C"], Some(1));
    reorder_chapters(&mut p, 0, 2);
    assert_eq!(names_of(&p), vec!["B", "A", "C"]);
    assert_eq!(p.active_chapter, Some(0));
    assert_eq!(p.chapters[p.active_chapter.unwrap()].name, "B");
}

#[test]
fn reorder_moves_active_chapter_itself() {
    let mut p = project(&["A", "B", "C"], Some(0));
    reorder_chapters(&mut p, 0, 3);
    assert_eq!(names_of(&p), vec!["B", "C", "A"]);
    assert_eq!(p.active_chapter, Some(2));
    assert_eq!(p.chapters[p.active_chapter.unwrap()].name, "A");
}

#[test]
fn delete_shifts_later_active_down() {
    // Removing index 1 of 3 while index 2 is active leaves the
    // active index pointing at the same chapter, now at 1.
    let mut p = project(&["A", "B", "C"], Some(2));
    assert!(delete_chapter(&mut p, &"B".to_string()));
    assert_eq!(names_of(&p), vec!["A", "C"]);
    assert_eq!(p.active_chapter, Some(1));
}

#[test]
fn delete_active_chapter_clears_active() {
    let mut p = project(&["A", "B", "C"], Some(1));
    assert!(delete_chapter(&mut p, &"B".to_string()));
    assert_eq!(names_of(&p), vec!["A", "C"]);
    assert_eq!(p.active_chapter, None);
}

#[test]
fn delete_missing_name_changes_nothing() {
    let mut p = project(&["A", "B"], Some(0));
    assert!(!delete_chapter(&mut p, &"Z".to_string()));
    assert_eq!(names_of(&p), vec!["A", "B"]);
    assert_eq!(p.active_chapter, Some(0));
}

#[test]
fn push_chapter_appends_fresh_name() {
    let mut p = project(&["A"], Some(0));
    push_chapter(&mut p, "B".to_string());
    assert_eq!(names_of(&p), vec!["A", "B"]);
    assert_eq!(p.active_chapter, Some(0));
    assert!(p.chapters[1].notes.is_empty());
    assert!(p.chapters[1].extras.is_empty());
}

#[test]
fn rename_chapter_keeps_position() {
    let mut p = project(&["A", "B"], Some(1));
    rename_chapter(&mut p, &"A".to_string(), &"First".to_string());
    assert_eq!(names_of(&p), vec!["First", "B"]);
    assert_eq!(p.active_chapter, Some(1));
}

#[test]
fn remove_note_filters_only_that_title() {
    let mut p = project(&["A"], None);
    p.chapters[0].notes = comps(&["keep", "drop", "keep2", "drop"]);
    remove_note(&mut p, 0, &"drop".to_string());
    assert_eq!(p.chapters[0].notes, comps(&["keep", "keep2"]));
}

#[test]
fn chapter_status_follows_selection_and_changes() {
    assert_eq!(chapter_status(Some(1), false, 1), ChapterStatus::Active);
    assert_eq!(chapter_status(Some(1), true, 1), ChapterStatus::ActiveChanges);
    assert_eq!(chapter_status(Some(1), true, 0), ChapterStatus::Normal);
    assert_eq!(chapter_status(None, false, 0), ChapterStatus::Normal);
}

#[test]
fn validator_reports_each_reason() {
    let mut fs = Vfs::new();
    assert!(create_dir(&mut fs, &comps(&["home"])));
    assert_eq!(check_path(&fs, &comps(&["home"])), PathCheck::AlreadyExists);
    assert_eq!(can_create_path(&fs, &comps(&["home"])), "Path already exists.");
    assert_eq!(check_path(&fs, &comps(&[])), PathCheck::Empty);
    assert_eq!(can_create_path(&fs, &comps(&[])), "Path cannot be empty.");
    assert_eq!(check_path(&fs, &comps(&["nowhere", "x"])), PathCheck::NoParent);
    assert_eq!(
        can_create_path(&fs, &comps(&["nowhere", "x"])),
        "Parent directory does not exist."
    );
    assert!(write_file(&mut fs, &comps(&["home", "f"]), Vec::new()));
    assert_eq!(check_path(&fs, &comps(&["home", "f", "x"])), PathCheck::ParentNotDir);
    assert_eq!(check_path(&fs, &comps(&["home", "new"])), PathCheck::Creatable);
    assert_eq!(can_create_path(&fs, &comps(&["home", "new"])), "");
}

#[test]
fn blank_paths_fail_validation() {
    let fs = Vfs::new();
    assert_eq!(check_path(&fs, &comps(&[" "])), PathCheck::Empty);
    assert_eq!(can_create_path(&fs, &comps(&[" "])), "Path cannot be empty.");
    assert_eq!(check_path(&fs, &comps(&["\t", "  "])), PathCheck::Empty);
    // a name that merely contains spaces is not blank
    assert_eq!(check_path(&fs, &comps(&["a b"])), PathCheck::Creatable);
    assert_eq!(can_create_path(&fs, &comps(&["a b"])), "");
}

#[test]
fn rename_into_unwritable_parent_is_refused() {
    let mut fs = Vfs::new();
    fs.entries.push(VfsEntry { path: comps(&["ro"]), node: VfsNode::Dir { writable: false } });
    fs.entries.push(VfsEntry { path: comps(&["ro", "a"]), node: VfsNode::Dir { writable: true } });
    assert_eq!(
        rename_path(&mut fs, &"/ro".to_string(), &"a".to_string(), &"b".to_string()),
        Err(MutateError::TargetNotCreatable)
    );
}

#[test]
fn statistics_names_format_for_display() {
    assert_eq!(
        format_file_name(&"2024-01-02T12-30-45.json".to_string()),
        Some("2024-01-02 12:30:45".to_string())
    );
    assert_eq!(format_file_name(&"2024-01-02T12-30-45.txt".to_string()), None);
    assert_eq!(format_file_name(&"no-marker.json".to_string()), None);
    assert_eq!(format_file_name(&"twoTmarkersT.json".to_string()), None);
}

#[test]
fn statistics_names_unformat_to_files() {
    assert_eq!(
        unformat_file_name(&"2024-01-02 12:30:45".to_string()),
        Some("2024-01-02T12-30-45.json".to_string())
    );
    assert_eq!(unformat_file_name(&"no-space-here".to_string()), None);
    assert_eq!(unformat_file_name(&"too many spaces".to_string()), None);
    // a display name turns back into exactly the file it came from
    let file = "2030-12-31T23-59-59.json".to_string();
    let shown = format_file_name(&file).expect("timestamp shape");
    assert_eq!(unformat_file_name(&shown), Some(file));
}

#[test]
fn index_escapes_control_characters() {
    let mut p = project(&["Line\nBreak", "Tab\tand\u{1}ctl"], Some(1));
    p.chapters[0].notes = comps(&["note\r1"]);
    let text = index_text(&p);
    // the emitted snapshot stays valid JSON despite the control characters
    let as_string: String = text.iter().collect();
    assert_eq!(validate_json_text(as_string.clone()), Some(as_string));
    let q = parse_index(&text).expect("canonical text parses");
    assert_eq!(names_of(&q), names_of(&p));
    assert_eq!(q.chapters[0].notes, p.chapters[0].notes);
    assert_eq!(q.active_chapter, Some(1));
}

#[test]
fn scaffold_then_scan_gives_empty_project() {
    // A root with the project scaffolding but no chapters scans to a
    // project with an empty chapter list and no active chapter.
    let mut fs = scaffolded();
    let p = parse_project(&mut fs, &"/home/me/Book".to_string()).expect("project-shaped root");
    assert_eq!(p.path, "/home/me/Book");
    assert!(p.chapters.is_empty());
    assert_eq!(p.active_chapter, None);
}

#[test]
fn scan_without_project_shape_gives_none() {
    // a root that does not exist cannot be loaded
    let mut fs = Vfs::new();
    assert!(parse_project(&mut fs, &"/missing".to_string()).is_none());
    // a chapters area that is a file is not project-shaped
    assert!(create_dir(&mut fs, &comps(&["lone"])));
    assert!(write_file(&mut fs, &comps(&["lone", "Chapters"]), Vec::new()));
    assert!(parse_project(&mut fs, &"/lone".to_string()).is_none());
    assert!(scan_project(&fs, &"/lone".to_string()).is_none());
}

#[test]
fn add_chapter_creates_layout_and_scan_sees_it() {
    let mut fs = scaffolded();
    let root = "/home/me/Book".to_string();
    assert!(add_chapter(&mut fs, &root, &"Intro".to_string()));
    // the chapter directory carries its areas and placeholder
    assert!(read_file(&fs, &comps(&["home", "me", "Book", "Chapters", "Intro", "Content.md"]))
        .is_some());
    // a second chapter of the same name is refused by the tree
    assert!(!add_chapter(&mut fs, &root, &"Intro".to_string()));
    let p = parse_project(&mut fs, &root).expect("project-shaped root");
    assert_eq!(names_of(&p), vec!["Intro"]);
}

#[test]
fn scan_collects_notes_and_extras() {
    let mut fs = scaffolded();
    let root = "/home/me/Book".to_string();
    assert!(add_chapter(&mut fs, &root, &"One".to_string()));
    let notes = comps(&["home", "me", "Book", "Chapters", "One", "Notes", "idea.md"]);
    assert!(write_file(&mut fs, &notes, "a note".chars().collect()));
    let plain = comps(&["home", "me", "Book", "Chapters", "One", "Notes", "raw.txt"]);
    assert!(write_file(&mut fs, &plain, Vec::new()));
    let extra = comps(&["home", "me", "Book", "Chapters", "One", "Extras", "map.png"]);
    assert!(write_file(&mut fs, &extra, "bytes".chars().collect()));
    let p = parse_project(&mut fs, &root).expect("project-shaped root");
    assert_eq!(p.chapters.len(), 1);
    assert_eq!(p.chapters[0].notes, comps(&["idea"]));
    assert_eq!(p.chapters[0].extras, comps(&["map.png"]));
}

#[test]
fn rename_falls_back_to_copy_across_filesystems() {
    // With plain renames unsupported, a rename must still carry every
    // nested file over unchanged.
    let mut fs = scaffolded();
    fs.rename_supported = false;
    let root = "/home/me/Book".to_string();
    assert!(add_chapter(&mut fs, &root, &"Old".to_string()));
    let note = comps(&["home", "me", "Book", "Chapters", "Old", "Notes", "n.md"]);
    let note_text: Vec<char> = "the note text".chars().collect();
    assert!(write_file(&mut fs, &note, note_text.clone()));
    let extra = comps(&["home", "me", "Book", "Chapters", "Old", "Extras", "pic"]);
    let extra_text: Vec<char> = "binary-ish".chars().collect();
    assert!(write_file(&mut fs, &extra, extra_text.clone()));

    let base = "/home/me/Book/Chapters".to_string();
    rename_path(&mut fs, &base, &"Old".to_string(), &"New".to_string()).expect("rename works");

    let new_note = comps(&["home", "me", "Book", "Chapters", "New", "Notes", "n.md"]);
    assert_eq!(read_file(&fs, &new_note).expect("note moved"), note_text);
    let new_extra = comps(&["home", "me", "Book", "Chapters", "New", "Extras", "pic"]);
    assert_eq!(read_file(&fs, &new_extra).expect("extra moved"), extra_text);
    assert!(read_file(&fs, &note).is_none());
}

#[test]
fn rename_with_plain_rename_moves_too() {
    let mut fs = scaffolded();
    assert!(fs.rename_supported);
    let root = "/home/me/Book".to_string();
    assert!(add_chapter(&mut fs, &root, &"Old".to_string()));
    let base = "/home/me/Book/Chapters".to_string();
    rename_path(&mut fs, &base, &"Old".to_string(), &"New".to_string()).expect("rename works");
    let p = parse_project(&mut fs, &root).expect("project-shaped root");
    assert_eq!(names_of(&p), vec!["New"]);
}

#[test]
fn rename_errors_name_their_cause() {
    let mut fs = scaffolded();
    let root = "/home/me/Book".to_string();
    assert!(add_chapter(&mut fs, &root, &"A".to_string()));
    assert!(add_chapter(&mut fs, &root, &"B".to_string()));
    let base = "/home/me/Book/Chapters".to_string();
    assert_eq!(
        rename_path(&mut fs, &base, &"Missing".to_string(), &"X".to_string()),
        Err(MutateError::SourceMissing)
    );
    assert_eq!(
        rename_path(&mut fs, &base, &"A".to_string(), &"B".to_string()),
        Err(MutateError::TargetExists)
    );
}

#[test]
fn delete_path_removes_subtree() {
    let mut fs = scaffolded();
    let root = "/home/me/Book".to_string();
    assert!(add_chapter(&mut fs, &root, &"A".to_string()));
    delete_path(&mut fs, &"/home/me/Book/Chapters/A".to_string()).expect("chapter exists");
    assert!(read_file(&fs, &comps(&["home", "me", "Book", "Chapters", "A", "Content.md"]))
        .is_none());
    assert_eq!(
        delete_path(&mut fs, &"/home/me/Book/Chapters/A".to_string()),
        Err(MutateError::SourceMissing)
    );
}

#[test]
fn file_names_and_paths() {
    assert_eq!(split_path(&"/home//me/Book".to_string()), comps(&["home", "me", "Book"]));
    assert_eq!(split_path(&"C:\\docs\\Book".to_string()), comps(&["C:", "docs", "Book"]));
    assert_eq!(get_file_name(&"/home/me/Book".to_string()), "Book");
    assert_eq!(get_file_name(&"plain".to_string()), "plain");
    assert_eq!(get_file_name(&"trailing/".to_string()), "");
    assert_eq!(
        replace_file_name(&"/home/me/Book".to_string(), &"Tome".to_string()),
        "/home/me/Tome"
    );
}

#[test]
fn error_carries_code_and_message() {
    let e = PaperSmithError::new(2, "bad project".to_string());
    assert_eq!(e.code(), 2);
    assert_eq!(e.message().map(|m| m.as_str()), Some("bad project"));
    assert_eq!(e.display_text(), "Not a valid Project");
    let only = PaperSmithError::new_only_code(404);
    assert_eq!(only.code(), 404);
    assert!(only.message().is_none());
    assert_eq!(only.display_text(), "Sorry, Can not find the Page!");
    assert_eq!(
        PaperSmithError::new_only_code(1).display_text(),
        "Sorry, something is wrong! Please Try Again!"
    );
}

#[test]
fn settings_default_values() {
    let s = Settings::default();
    assert_eq!(s.theme, "Light");
    assert_eq!(s.interval, 300_000);
}

#[test]
fn json_texts_are_filtered() {
    assert_eq!(
        validate_json_text("{\"words\": 120}".to_string()),
        Some("{\"words\": 120}".to_string())
    );
    assert_eq!(validate_json_text("not json at all".to_string()), None);
    assert_eq!(validate_json_text("{\"open\": ".to_string()), None);
}

#[test]
fn untitled_names_probe_past_collisions() {
    let mut fs = scaffolded();
    let root = "/home/me/Book".to_string();
    let n1 = resolve_untitled_name(&fs, &root).expect("free name");
    assert_eq!(n1, "Untitled");
    assert!(add_chapter(&mut fs, &root, &n1));
    let n2 = resolve_untitled_name(&fs, &root).expect("free name");
    assert_eq!(n2, "Untitled1");
    assert!(add_chapter(&mut fs, &root, &n2));
    let n3 = resolve_untitled_name(&fs, &root).expect("free name");
    assert_eq!(n3, "Untitled2");
    // the chosen final name never fails the validator
    assert_eq!(
        check_path(&fs, &comps(&["home", "me", "Book", "Chapters", "Untitled2"])),
        PathCheck::Creatable
    );
    // and adding it grows the chapter set by exactly that name
    assert!(add_chapter(&mut fs, &root, &n3));
    let p = parse_project(&mut fs, &root).expect("project-shaped root");
    assert_eq!(names_of(&p), vec!["Untitled", "Untitled1", "Untitled2"]);
}

#[test]
fn index_round_trip_preserves_order_and_active() {
    // Loading, saving, and loading again gives the same chapter
    // order and active chapter back: the index takes precedence.
    let mut fs = scaffolded();
    let root = "/home/me/Book".to_string();
    assert!(add_chapter(&mut fs, &root, &"A".to_string()));
    assert!(add_chapter(&mut fs, &root, &"B".to_string()));
    assert!(add_chapter(&mut fs, &root, &"C".to_string()));
    let mut p = parse_project(&mut fs, &root).expect("project-shaped root");
    assert_eq!(names_of(&p), vec!["A", "B", "C"]);
    // put the project into a state the directory walk cannot know
    reorder_chapters(&mut p, 2, 0);
    p.active_chapter = Some(1);
    assert_eq!(names_of(&p), vec!["C", "A", "B"]);
    assert!(write_project_config(&mut fs, &p));
    let q = parse_project(&mut fs, &root).expect("index present");
    assert_eq!(names_of(&q), vec!["C", "A", "B"]);
    assert_eq!(q.active_chapter, Some(1));
    assert_eq!(q.path, p.path);
    // saving and loading once more changes nothing
    assert!(write_project_config(&mut fs, &q));
    let r = parse_project(&mut fs, &root).expect("index present");
    assert_eq!(names_of(&r), vec!["C", "A", "B"]);
    assert_eq!(r.active_chapter, Some(1));
}

#[test]
fn index_takes_precedence_over_scan() {
    // With an index naming only B while the directory walk would
    // find A and B, the loader follows the index.
    let mut fs = scaffolded();
    let root = "/home/me/Book".to_string();
    assert!(add_chapter(&mut fs, &root, &"A".to_string()));
    let mut p = parse_project(&mut fs, &root).expect("project-shaped root");
    p.chapters.retain(|_| false);
    push_chapter(&mut p, "B".to_string());
    assert!(write_project_config(&mut fs, &p));
    assert!(add_chapter(&mut fs, &root, &"B".to_string()));
    let q = parse_project(&mut fs, &root).expect("index present");
    assert_eq!(names_of(&q), vec!["B"]);
}

#[test]
fn corrupt_index_falls_back_to_scan() {
    let mut fs = scaffolded();
    let root = "/home/me/Book".to_string();
    assert!(add_chapter(&mut fs, &root, &"A".to_string()));
    let ip = comps(&["home", "me", "Book", ".papersmith.json"]);
    assert!(write_file(&mut fs, &ip, "not an index".chars().collect()));
    let p = parse_project(&mut fs, &root).expect("scan fallback");
    assert_eq!(names_of(&p), vec!["A"]);
    assert_eq!(p.active_chapter, None);
}

#[test]
fn parse_index_inverts_index_text() {
    let mut p = project(&["Quote\"d", "Back\\slash"], Some(0));
    p.chapters[0].notes = comps(&["n1", "n2"]);
    p.chapters[1].extras = comps(&["raw.bin"]);
    let text = index_text(&p);
    let q = parse_index(&text).expect("canonical text parses");
    assert_eq!(names_of(&q), names_of(&p));
    assert_eq!(q.path, p.path);
    assert_eq!(q.active_chapter, p.active_chapter);
    assert_eq!(q.chapters[0].notes, p.chapters[0].notes);
    assert_eq!(q.chapters[1].extras, p.chapters[1].extras);
}

#[test]
fn parse_index_rejects_bad_snapshots() {
    assert!(parse_index(&"".chars().collect()).is_none());
    assert!(parse_index(&"{}".chars().collect()).is_none());
    // an out-of-range active chapter could not have come from a
    // well-formed project
    let p = project(&["A"], Some(0));
    let text: String = index_text(&p).into_iter().collect();
    let bad: Vec<char> = text.replace("\"active_chapter\": 0", "\"active_chapter\": 7").chars().collect();
    assert!(parse_index(&bad).is_none());
}

#[test]
fn scan_fallback_creates_chapters_area() {
    // A bare root directory has its chapters area opened by the
    // fallback scan, as loading a project must.
    let mut fs = Vfs::new();
    assert!(create_dir(&mut fs, &comps(&["lone"])));
    let p = parse_project(&mut fs, &"/lone".to_string()).expect("area created");
    assert!(p.chapters.is_empty());
    let q = scan_project(&fs, &"/lone".to_string()).expect("area persists");
    assert!(q.chapters.is_empty());
}

#[test]
fn untitled_probe_needs_live_chapters_area() {
    let mut fs = Vfs::new();
    assert!(create_dir(&mut fs, &comps(&["x"])));
    // no Chapters directory: the probe gives up
    assert!(resolve_untitled_name(&fs, &"/x".to_string()).is_none());
}

#[test]
fn switching_chapters_asks_before_losing_changes() {
    let mut p = project(&["A", "B"], Some(0));
    // unsaved changes and no confirmation: refused, nothing moves
    assert!(!select_chapter(&mut p, 1, true, false));
    assert_eq!(p.active_chapter, Some(0));
    // confirmed: the switch happens
    assert!(select_chapter(&mut p, 1, true, true));
    assert_eq!(p.active_chapter, Some(1));
    // no changes: no confirmation needed
    assert!(select_chapter(&mut p, 0, false, false));
    assert_eq!(p.active_chapter, Some(0));
}
