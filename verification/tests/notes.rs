use dungeon_router_api::notes::{
    deletion_outcome, insert_failure, prepare_note, CreateNote, NoteError, MAX_NOTE_BYTES,
};

fn note(title: &str, filename: &str, content: &str) -> CreateNote {
    CreateNote { title: title.into(), filename: filename.into(), content: content.into() }
}

#[test]
fn rejects_unsupported_files() {
    let error = prepare_note(&note("Book", "players-handbook.pdf", "not accepted")).unwrap_err();
    assert!(matches!(error, NoteError::InvalidFileType));
}

#[test]
fn notes_are_trimmed_and_chunked() {
    let prepared = prepare_note(&note(
        " The Ashen Vale ",
        " ashen-vale.md ",
        "# House Rules\n\nHealing potions use a bonus action.",
    ))
    .unwrap();
    assert_eq!(prepared.title, "The Ashen Vale");
    assert_eq!(prepared.filename, "ashen-vale.md");
    assert_eq!(prepared.chunks.len(), 1);
    assert_eq!(prepared.chunks[0].section_path, "House Rules");
    assert_eq!(prepared.chunks[0].source_locator, "ashen-vale.md#house-rules");
}

#[test]
fn titles_must_fit() {
    assert_eq!(prepare_note(&note("  ", "a.md", "text")).unwrap_err(), NoteError::InvalidTitle);
    let long = "t".repeat(121);
    assert_eq!(prepare_note(&note(&long, "a.md", "text")).unwrap_err(), NoteError::InvalidTitle);
    assert!(prepare_note(&note(&"t".repeat(120), "a.md", "text")).is_ok());
}

#[test]
fn file_names_must_be_plain_with_a_text_extension() {
    for name in ["dir/a.md", "..", ".md", "notes", "a.pdf", "."] {
        assert_eq!(
            prepare_note(&note("T", name, "text")).unwrap_err(),
            NoteError::InvalidFileType,
            "{name}"
        );
    }
    for name in ["a.MD", "b.markdown", "c.Txt", "x.y.md"] {
        assert!(prepare_note(&note("T", name, "text")).is_ok(), "{name}");
    }
}

#[test]
fn content_must_be_present_and_small() {
    assert_eq!(prepare_note(&note("T", "a.md", " \n ")).unwrap_err(), NoteError::InvalidContent);
    let big = "é".repeat(MAX_NOTE_BYTES / 2 + 1);
    assert_eq!(prepare_note(&note("T", "a.md", &big)).unwrap_err(), NoteError::InvalidContent);
    assert_eq!(
        prepare_note(&note("T", "a.md", "# Heading only")).unwrap_err(),
        NoteError::InvalidContent
    );
}

#[test]
fn storage_failures_are_classified() {
    assert_eq!(
        insert_failure("error returned from database: UNIQUE constraint failed: documents.source_path"),
        NoteError::Duplicate
    );
    assert_eq!(insert_failure("disk I/O error"), NoteError::Unavailable);
    assert_eq!(deletion_outcome(0), Err(NoteError::NotFound));
    assert_eq!(deletion_outcome(1), Ok(()));
}

#[test]
fn note_errors_map_to_statuses() {
    assert_eq!(NoteError::NotFound.status_code(), 404);
    assert_eq!(NoteError::Duplicate.status_code(), 409);
    assert_eq!(NoteError::Unavailable.status_code(), 503);
    assert_eq!(NoteError::InvalidTitle.status_code(), 400);
    assert_eq!(
        NoteError::InvalidFileType.message(),
        "only .md, .markdown, and .txt notes are supported"
    );
}
