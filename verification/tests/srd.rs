use dungeon_router_api::srd::{
    chunk_markdown, document_title, has_srd_attribution, is_indexed_markdown,
    is_skipped_directory, markdown_heading, slug_of_lowercased, parse_document, replace_chars, slugify,
    source_path_text, split_content, srd_snapshot, MAX_CHUNK_CHARS, SRD_LICENSE, SRD_REVISION,
    SRD_TITLE,
};

#[test]
fn markdown_is_split_on_hierarchical_headings() {
    let chunks = chunk_markdown(
        "# Conditions\nIntro.\n\n## Prone\nA prone creature crawls.\n",
        "Rules/Conditions.md",
    );
    assert_eq!(chunks.len(), 2);
    assert_eq!(chunks[1].heading, "Prone");
    assert_eq!(chunks[1].section_path, "Conditions > Prone");
    assert_eq!(chunks[1].source_locator, "Rules/Conditions.md#prone");
}

#[test]
fn oversized_sections_are_bounded() {
    let text = format!("# Long Rule\n{}", "word ".repeat(900));
    let chunks = chunk_markdown(&text, "Rules/Long.md");
    assert!(chunks.len() > 1);
    assert!(chunks
        .iter()
        .all(|chunk| chunk.content.chars().count() <= MAX_CHUNK_CHARS));
}

#[test]
fn chunks_are_numbered_in_order() {
    let text = format!("# A\n{}\n\n# B\nshort", "word ".repeat(900));
    let chunks = chunk_markdown(&text, "x.md");
    for (index, chunk) in chunks.iter().enumerate() {
        assert_eq!(chunk.ordinal, index);
    }
    assert_eq!(chunks.last().unwrap().heading, "B");
    assert_eq!(chunks.last().unwrap().content, "short");
}

#[test]
fn text_before_any_heading_is_an_overview() {
    let chunks = chunk_markdown("Loose text.\n# Title\nBody", "notes.md");
    assert_eq!(chunks.len(), 2);
    assert_eq!(chunks[0].section_path, "Overview");
    assert_eq!(chunks[0].heading, "Overview");
    assert_eq!(chunks[0].source_locator, "notes.md#overview");
    assert_eq!(chunks[1].section_path, "Title");
}

#[test]
fn deeper_headings_replace_their_level() {
    let chunks = chunk_markdown(
        "# A\n## B\n### C\nc text\n## D\nd text\n# E\ne text",
        "doc.md",
    );
    let paths: Vec<&str> = chunks.iter().map(|c| c.section_path.as_str()).collect();
    assert_eq!(paths, vec!["A > B > C", "A > D", "E"]);
}

#[test]
fn blank_sections_make_no_chunk() {
    assert!(chunk_markdown("# Only headings\n## Another\n   \n", "x.md").is_empty());
    assert!(chunk_markdown("", "x.md").is_empty());
}

#[test]
fn paragraphs_are_packed_up_to_the_limit() {
    let a: Vec<char> = "a".repeat(6).chars().collect();
    let content: Vec<char> = format!("{}\n\n{}\n\n{}", "a".repeat(6), "b".repeat(3), "c".repeat(4))
        .chars()
        .collect();
    let pieces = split_content(&content, 11);
    let pieces: Vec<String> = pieces.into_iter().map(|p| p.into_iter().collect()).collect();
    assert_eq!(pieces, vec!["aaaaaa\n\nbbb".to_string(), "cccc".to_string()]);
    assert_eq!(a.len(), 6);
}

#[test]
fn long_paragraphs_are_cut_between_words() {
    let content: Vec<char> = "one two three four".chars().collect();
    let pieces = split_content(&content, 9);
    let pieces: Vec<String> = pieces.into_iter().map(|p| p.into_iter().collect()).collect();
    assert_eq!(pieces, vec!["one two".to_string(), "three".to_string(), "four".to_string()]);
}

#[test]
fn headings_need_a_space_and_text() {
    assert_eq!(markdown_heading("## Prone ##"), Some((2, "Prone".to_string())));
    assert_eq!(markdown_heading("###### Six"), Some((6, "Six".to_string())));
    assert_eq!(markdown_heading("####### Seven"), None);
    assert_eq!(markdown_heading("#NoSpace"), None);
    assert_eq!(markdown_heading("#  #"), None);
    assert_eq!(markdown_heading("plain"), None);
}

#[test]
fn anchors_are_lowercase_runs_joined_by_hyphens() {
    assert_eq!(slugify("Opportunity Attacks!"), "opportunity-attacks");
    assert_eq!(slugify("  Spells (A-Z) "), "spells-a-z");
    assert_eq!(slugify("***"), "");
    assert_eq!(slugify("Élan Vital"), "élan-vital");
}

#[test]
fn attribution_requires_licence_and_document() {
    assert!(has_srd_attribution(
        "This work includes material from the System Reference Document 5.1 under the Creative Commons Attribution 4.0 International License."
    ));
    assert!(!has_srd_attribution("System Reference Document 5.1"));
    assert!(!has_srd_attribution("Creative Commons Attribution 4.0"));
}

#[test]
fn duplicate_and_hidden_directories_are_skipped() {
    assert!(is_skipped_directory("Spells_A-Z"));
    assert!(is_skipped_directory("07_Monsters/Monsters_A-Z"));
    assert!(is_skipped_directory(".git"));
    assert!(!is_skipped_directory("Spells_Each"));
}

#[test]
fn only_markdown_documents_are_indexed() {
    assert!(is_indexed_markdown("Conditions.md", Some("md")));
    assert!(!is_indexed_markdown("README.md", Some("md")));
    assert!(!is_indexed_markdown("Legal.md", Some("md")));
    assert!(!is_indexed_markdown("logo.png", Some("png")));
    assert!(!is_indexed_markdown("Makefile", None));
}

#[test]
fn titles_prefer_the_first_top_heading() {
    assert_eq!(document_title("Intro\n#  Conditions  \n# Other", Some("x"), "p.md"), "Conditions");
    assert_eq!(document_title("## Sub\ntext", Some("Ability_Scores"), "p.md"), "Ability Scores");
    assert_eq!(document_title("#   \n# Later", Some("Stem"), "p.md"), "Stem");
    assert_eq!(document_title("text", None, "dir/p.md"), "dir/p.md");
}

#[test]
fn documents_carry_title_path_and_chunks() {
    let document = parse_document("# Prone\nYou crawl.", "Rules/Prone.md", Some("Prone"));
    assert_eq!(document.title, "Prone");
    assert_eq!(document.source_path, "Rules/Prone.md");
    assert_eq!(document.chunks.len(), 1);
    assert_eq!(document.chunks[0].source_locator, "Rules/Prone.md#prone");
}

#[test]
fn source_paths_use_forward_slashes() {
    assert_eq!(source_path_text("08_Gamemastering\\Conditions.md"), "08_Gamemastering/Conditions.md");
    assert_eq!(replace_chars("a_b_c", '_', ' '), "a b c");
}

#[test]
fn snapshots_carry_the_corpus_provenance() {
    let snapshot = srd_snapshot(Vec::new());
    assert_eq!(snapshot.title, SRD_TITLE);
    assert_eq!(snapshot.license, SRD_LICENSE);
    assert_eq!(snapshot.revision, SRD_REVISION);
    assert_eq!(snapshot.edition, "5e 2014");
    assert!(snapshot.documents.is_empty());
}

#[test]
fn oversized_words_are_cut_into_bounded_chunks() {
    let word = "x".repeat(4000);
    let chunks = chunk_markdown(&format!("# Long\n{word}"), "Rules/Long.md");
    assert_eq!(chunks.len(), 3);
    assert!(chunks
        .iter()
        .all(|chunk| chunk.content.chars().count() <= MAX_CHUNK_CHARS));
    let joined: String = chunks.iter().map(|chunk| chunk.content.as_str()).collect();
    assert_eq!(joined, word);
}

#[test]
fn long_words_are_cut_into_fragments() {
    let content: Vec<char> = "ab abcdefghij c".chars().collect();
    let pieces = split_content(&content, 4);
    let pieces: Vec<String> = pieces.into_iter().map(|p| p.into_iter().collect()).collect();
    assert_eq!(pieces, vec!["ab", "abcd", "efgh", "ij c"]);
}

#[test]
fn lowercased_headings_make_anchors() {
    assert_eq!(slug_of_lowercased("opportunity attacks!"), "opportunity-attacks");
    assert_eq!(slug_of_lowercased("--a--b--"), "a-b");
    assert_eq!(slug_of_lowercased(""), "");
}

#[test]
fn pieces_keep_the_words_in_order() {
    let text = format!("first para here\n\n{} tail\n\n  last  ", "w".repeat(25));
    let content: Vec<char> = text.chars().collect();
    let pieces = split_content(&content, 10);
    let words: Vec<String> = pieces
        .into_iter()
        .map(|p| p.into_iter().collect::<String>())
        .flat_map(|p| p.split_whitespace().map(String::from).collect::<Vec<_>>())
        .collect();
    assert_eq!(
        words,
        vec!["first", "para", "here", "wwwwwwwwww", "wwwwwwwwww", "wwwww", "tail", "last"]
    );
}

#[test]
fn every_chunk_is_located_at_its_heading_anchor() {
    let chunks = chunk_markdown(
        "# Combat\n## Actions in Combat\nDash.\n### Opportunity Attacks!\nReact.\n",
        "Rules/Combat.md",
    );
    assert_eq!(chunks.len(), 2);
    for chunk in &chunks {
        let last = chunk.section_path.rsplit(" > ").next().unwrap();
        assert_eq!(chunk.heading, last);
        assert_eq!(chunk.source_locator, format!("Rules/Combat.md#{}", slugify(&chunk.heading)));
    }
    assert_eq!(chunks[1].source_locator, "Rules/Combat.md#opportunity-attacks");
}

#[test]
fn fitting_text_that_is_not_blank_is_one_piece() {
    let content: Vec<char> = "  one\n\n\n\n two  \n\n".chars().collect();
    let pieces = split_content(&content, 100);
    assert_eq!(pieces.len(), 1);
    assert_eq!(pieces[0].iter().collect::<String>(), "one\n\ntwo");
    let blank: Vec<char> = " \n\n \t".chars().collect();
    assert!(split_content(&blank, 100).is_empty());
}
