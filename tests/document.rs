use sqldoc::change::{change_order, AddedStatement, ChangeFileParams, ChangeParams, ModifiedStatement, StatementChange};
use sqldoc::document::{ChangeStep, Document, SplitDiagnostic, SplitOutcome};
use sqldoc::statement_id::StatementId;
use sqldoc::text_range::TextRange;

/// Words that start a statement when they open a line.
const STATEMENT_KEYWORDS: [&str; 11] = ["select", "insert", "update", "delete", "create", "alter", "drop", "begin", "commit", "rollback", "with"];

/// Whether the line that starts at byte `i` opens with a statement keyword.
fn keyword_line(t: &[u8], mut i: usize) -> bool {
    while i < t.len() && (t[i] == b' ' || t[i] == b'\t') {
        i += 1;
    }
    let start = i;
    while i < t.len() && t[i].is_ascii_alphabetic() {
        i += 1;
    }
    let word = String::from_utf8_lossy(&t[start..i]).to_lowercase();
    STATEMENT_KEYWORDS.contains(&word.as_str())
}

/// A small splitter for the tests, with byte offsets: a statement ends at
/// `;`, before a line that opens with a statement keyword, or at the end of
/// the text, trailing whitespace excluded; comments between statements are
/// skipped, and an unterminated block comment is a fatal error.
fn split(text: &str) -> SplitOutcome {
    let t = text.as_bytes();
    let mut ranges = Vec::new();
    let mut i = 0;
    while i < t.len() {
        let c = t[i];
        if c.is_ascii_whitespace() {
            i += 1;
        } else if c == b'-' && i + 1 < t.len() && t[i + 1] == b'-' {
            while i < t.len() && t[i] != b'\n' {
                i += 1;
            }
        } else if c == b'/' && i + 1 < t.len() && t[i + 1] == b'*' {
            let mut j = i + 2;
            let mut closed = false;
            while j + 1 < t.len() {
                if t[j] == b'*' && t[j + 1] == b'/' {
                    closed = true;
                    break;
                }
                j += 1;
            }
            if !closed {
                let diagnostic = SplitDiagnostic { message: "unterminated comment".to_string(), range: Some(TextRange::new(i as u32, t.len() as u32)), fatal: true };
                return SplitOutcome { ranges: Vec::new(), diagnostics: vec![diagnostic] };
            }
            i = j + 2;
        } else {
            let start = i;
            let mut end;
            loop {
                if i >= t.len() {
                    end = i;
                    break;
                }
                if t[i] == b';' {
                    i += 1;
                    end = i;
                    break;
                }
                if t[i] == b'\n' && keyword_line(t, i + 1) {
                    end = i;
                    break;
                }
                i += 1;
            }
            while end > start && t[end - 1].is_ascii_whitespace() {
                end -= 1;
            }
            ranges.push(TextRange::new(start as u32, end as u32));
        }
    }
    SplitOutcome { ranges, diagnostics: Vec::new() }
}

fn open(text: &str) -> Document {
    Document::new(text.to_string(), 0, split(text))
}

fn edit(doc: &mut Document, change: &ChangeParams) -> Vec<StatementChange> {
    let mut step = ChangeStep::Split(doc.begin_change(change));
    loop {
        match step {
            ChangeStep::Split(text) => step = doc.resume_change(split(&text)),
            ChangeStep::Finished(changes) => return changes,
        }
    }
}

fn apply_file_change(doc: &mut Document, change: &ChangeFileParams) -> Vec<StatementChange> {
    let mut changes = Vec::new();
    for idx in change_order(&change.changes) {
        changes.extend(edit(doc, &change.changes[idx]));
    }
    doc.set_version(change.version);
    changes
}

fn batch(version: i32, changes: Vec<ChangeParams>) -> ChangeFileParams {
    ChangeFileParams { version, changes }
}

fn range_change(start: u32, end: u32, text: &str) -> ChangeParams {
    ChangeParams { range: Some(TextRange::new(start, end)), text: text.to_string() }
}

fn text_of(doc: &Document, idx: usize) -> String {
    let r = doc.positions[idx].1;
    doc.content[r.start as usize..r.end as usize].to_string()
}

/// The positions match a fresh split of the content.
fn assert_integrity(doc: &Document) {
    let fresh = split(&doc.content);
    assert!(fresh.diagnostics.is_empty());
    let ranges: Vec<TextRange> = doc.positions.iter().map(|p| p.1).collect();
    assert_eq!(ranges, fresh.ranges);
}

/// Statement texts and the gaps between them give back the content.
fn assert_coverage(doc: &Document) {
    let text = doc.content.as_str();
    let mut rebuilt = String::new();
    let mut at = 0usize;
    for (_, r) in &doc.positions {
        rebuilt.push_str(&text[at..r.start as usize]);
        rebuilt.push_str(&text[r.start as usize..r.end as usize]);
        at = r.end as usize;
    }
    rebuilt.push_str(&text[at..]);
    assert_eq!(rebuilt, doc.content);
}

#[test]
fn opens_with_statements() {
    let doc = open("select 1;\nselect 2;");
    assert_eq!(doc.positions.len(), 2);
    assert_eq!(text_of(&doc, 0), "select 1;");
    assert_eq!(text_of(&doc, 1), "select 2;");
    assert!(!doc.has_fatal_error());
}

#[test]
fn opens_without_statements_on_fatal_split() {
    let doc = open("select 1;\n/* open");
    assert_eq!(doc.positions.len(), 0);
    assert!(doc.has_fatal_error());
}

#[test]
fn single_in_place_edit() {
    let mut doc = open("select id  from users;\nselect * from contacts;");
    assert_eq!(doc.positions.len(), 2);
    let (first_id, first) = doc.positions[0];
    let second = doc.positions[1].1;

    let changes = edit(&mut doc, &range_change(9, 10, ",test"));

    assert_eq!(doc.content, "select id,test from users;\nselect * from contacts;");
    assert_eq!(changes.len(), 1);
    match &changes[0] {
        StatementChange::Modified(m) => {
            assert_eq!(m.old_stmt, first_id);
            assert_ne!(m.old_stmt, m.new_stmt);
            assert_eq!(m.old_stmt_text, "select id  from users;");
            assert_eq!(m.new_stmt_text, "select id,test from users;");
            assert_eq!(m.change_range, TextRange::new(9, 10));
            assert_eq!(m.change_text, ",test");
        }
        other => panic!("expected a modified statement, got {:?}", other),
    }
    assert_eq!(doc.positions[0].1.start, first.start);
    assert_eq!(doc.positions[0].1.end, first.end + 4);
    assert_eq!(doc.positions[1].1.start, second.start + 4);
    assert_eq!(doc.positions[1].1.end, second.end + 4);
    assert_eq!(text_of(&doc, 1), "select * from contacts;");
    assert_integrity(&doc);
    assert_coverage(&doc);
}

#[test]
fn cross_statement_merge() {
    let mut doc = open("select id from users;\nselect * from contacts;");
    let first = doc.positions[0].0;
    let second = doc.positions[1].0;

    let changes = edit(&mut doc, &range_change(9, 45, ",test from users;\nselect 1;"));

    assert_eq!(changes.len(), 4);
    assert_eq!(changes[0], StatementChange::Deleted(second));
    assert_eq!(changes[1], StatementChange::Deleted(first));
    assert!(matches!(&changes[2], StatementChange::Added(AddedStatement { stmt: _, text }) if text == "select id,test from users;"));
    assert!(matches!(&changes[3], StatementChange::Added(AddedStatement { stmt: _, text }) if text == "select 1;"));
    assert_eq!(doc.content, "select id,test from users;\nselect 1;");
    assert_integrity(&doc);
    assert_coverage(&doc);
}

#[test]
fn fatal_then_heal() {
    let mut doc = open("select 1;\n*\n");
    assert_eq!(doc.positions.len(), 2);

    let changes = edit(&mut doc, &range_change(10, 10, "/"));
    assert_eq!(doc.content, "select 1;\n/*\n");
    assert_eq!(doc.positions.len(), 0);
    assert!(doc.has_fatal_error());
    assert_eq!(changes.iter().filter(|c| matches!(c, StatementChange::Deleted(_))).count(), 2);

    let changes = edit(&mut doc, &range_change(13, 13, "*/"));
    assert_eq!(doc.content, "select 1;\n/*\n*/");
    assert_eq!(doc.positions.len(), 1);
    assert!(!doc.has_fatal_error());
    assert_eq!(changes.len(), 1);
    assert!(matches!(&changes[0], StatementChange::Added(a) if a.text == "select 1;"));
    assert_integrity(&doc);
}

#[test]
fn edit_inside_statement_is_local() {
    let mut doc = open("select 1;\nselect abc from t;\nselect 3;");
    let changes = edit(&mut doc, &range_change(18, 19, "x"));
    assert_eq!(doc.content, "select 1;\nselect axc from t;\nselect 3;");
    assert_eq!(changes.len(), 1);
    assert!(matches!(&changes[0], StatementChange::Modified(m) if m.new_stmt_text == "select axc from t;" && m.change_range == TextRange::new(8, 9)));
    assert_integrity(&doc);
}

#[test]
fn noop_edit_keeps_content_and_renews_identity() {
    let mut doc = open("select 1;\nselect 2;");
    let before = doc.content.clone();
    let old_id = doc.positions[1].0;
    let changes = edit(&mut doc, &range_change(12, 14, "le"));
    assert_eq!(doc.content, before);
    assert_eq!(changes.len(), 1);
    match &changes[0] {
        StatementChange::Modified(m) => {
            assert_eq!(m.old_stmt, old_id);
            assert_ne!(m.new_stmt, old_id);
            assert_eq!(m.old_stmt_text, m.new_stmt_text);
        }
        other => panic!("expected a modified statement, got {:?}", other),
    }
}

#[test]
fn splitting_one_statement_into_two() {
    let mut doc = open("select 1 select 2;");
    assert_eq!(doc.positions.len(), 1);
    let changes = edit(&mut doc, &range_change(8, 8, ";"));
    assert_eq!(doc.content, "select 1; select 2;");
    assert_eq!(doc.positions.len(), 2);
    assert_eq!(changes.iter().filter(|c| matches!(c, StatementChange::Deleted(_))).count(), 1);
    assert_eq!(changes.iter().filter(|c| matches!(c, StatementChange::Added(_))).count(), 2);
    assert_integrity(&doc);
    assert_coverage(&doc);
}

#[test]
fn full_replace_replaces_every_statement() {
    let mut doc = open("select 1;\nselect 2;");
    let changes = edit(&mut doc, &ChangeParams { range: None, text: "select 3;".to_string() });
    assert_eq!(doc.content, "select 3;");
    assert_eq!(changes.len(), 3);
    assert!(matches!(changes[0], StatementChange::Deleted(_)));
    assert!(matches!(changes[1], StatementChange::Deleted(_)));
    assert!(matches!(&changes[2], StatementChange::Added(a) if a.text == "select 3;"));
    assert_integrity(&doc);
}

#[test]
fn edit_past_the_end_appends() {
    let mut doc = open("select 1;");
    let changes = edit(&mut doc, &range_change(20, 20, "\nselect 2;"));
    assert_eq!(doc.content, "select 1;\nselect 2;");
    assert_eq!(doc.positions.len(), 2);
    assert!(!changes.is_empty());
    assert_integrity(&doc);
}

#[test]
fn identities_are_distinct_within_an_edit() {
    let mut doc = open("select 1;\nselect 2;\nselect 3;");
    let changes = edit(&mut doc, &range_change(8, 18, "0; select 5"));
    let mut ids: Vec<StatementId> = Vec::new();
    for c in &changes {
        match c {
            StatementChange::Added(a) => ids.push(a.stmt),
            StatementChange::Deleted(id) => ids.push(*id),
            StatementChange::Modified(m) => {
                assert_ne!(m.old_stmt, m.new_stmt);
                ids.push(m.old_stmt);
                ids.push(m.new_stmt);
            }
        }
    }
    let mut sorted = ids.clone();
    sorted.sort_by_key(|id| format!("{:?}", id));
    sorted.dedup();
    assert_eq!(sorted.len(), ids.len());
    assert_integrity(&doc);
    assert_coverage(&doc);
}

#[test]
fn resume_without_edit_does_nothing() {
    let mut doc = open("select 1;");
    match doc.resume_change(split("select 1;")) {
        ChangeStep::Finished(changes) => assert!(changes.is_empty()),
        ChangeStep::Split(_) => panic!("no edit is under way"),
    }
    assert_eq!(doc.positions.len(), 1);
}

#[test]
fn statement_reports_new_identity() {
    let mut doc = open("select 1;");
    let changes = edit(&mut doc, &range_change(7, 8, "2"));
    match &changes[0] {
        StatementChange::Modified(m) => assert_eq!(changes[0].statement(), &m.new_stmt),
        other => panic!("expected a modified statement, got {:?}", other),
    }
}

#[test]
fn version_is_stamped() {
    let mut doc = open("select 1;");
    doc.set_version(7);
    assert_eq!(doc.version, 7);
}

#[test]
fn typing_comments() {
    let mut d = open("select id from users;\n");

    apply_file_change(&mut d, &batch(1, vec![range_change(22, 23, "-")]));
    assert_eq!(d.content, "select id from users;\n-");
    assert_eq!(d.positions.len(), 2);

    apply_file_change(&mut d, &batch(2, vec![range_change(23, 24, "-")]));
    assert_eq!(d.content, "select id from users;\n--");
    assert_eq!(d.positions.len(), 1);

    apply_file_change(&mut d, &batch(3, vec![range_change(24, 25, " ")]));
    assert_eq!(d.content, "select id from users;\n-- ");
    assert_eq!(d.positions.len(), 1);

    apply_file_change(&mut d, &batch(3, vec![range_change(25, 26, "t")]));
    assert_eq!(d.content, "select id from users;\n-- t");
    assert_eq!(d.positions.len(), 1);

    assert_integrity(&d);
}

#[test]
fn within_statements() {
    let mut d = open("select id from users;\n\n\n\nselect * from contacts;");
    assert_eq!(d.positions.len(), 2);

    let changed = apply_file_change(&mut d, &batch(1, vec![range_change(23, 23, "select 1;")]));

    assert_eq!(changed.len(), 5);
    assert_eq!(changed.iter().filter(|c| matches!(c, StatementChange::Deleted(_))).count(), 2);
    assert_eq!(changed.iter().filter(|c| matches!(c, StatementChange::Added(_))).count(), 3);
    assert_integrity(&d);
}

#[test]
fn within_statements_2() {
    let mut d = open("alter table deal alter column value drop not null;\n");
    assert_eq!(d.positions.len(), 1);

    let changed1 = apply_file_change(&mut d, &batch(1, vec![range_change(17, 17, " ")]));
    assert_eq!(changed1.len(), 1);
    assert_eq!(d.content, "alter table deal  alter column value drop not null;\n");
    assert_integrity(&d);

    let changed2 = apply_file_change(&mut d, &batch(2, vec![range_change(18, 18, " ")]));
    assert_eq!(changed2.len(), 1);
    assert_eq!(d.content, "alter table deal   alter column value drop not null;\n");
    assert_integrity(&d);

    let changed3 = apply_file_change(&mut d, &batch(3, vec![range_change(19, 19, " ")]));
    assert_eq!(changed3.len(), 1);
    assert_eq!(d.content, "alter table deal    alter column value drop not null;\n");
    assert_integrity(&d);

    let changed4 = apply_file_change(&mut d, &batch(4, vec![range_change(20, 20, " ")]));
    assert_eq!(changed4.len(), 1);
    assert_eq!(d.content, "alter table deal     alter column value drop not null;\n");
    assert_integrity(&d);
}

#[test]
fn across_statements() {
    let mut d = open("select id from users;\nselect * from contacts;");
    assert_eq!(d.positions.len(), 2);

    let changed = apply_file_change(&mut d, &batch(1, vec![range_change(9, 45, ",test from users;\nselect 1;")]));

    assert_eq!(changed.len(), 4);
    assert!(matches!(changed[0], StatementChange::Deleted(_)));
    assert_eq!(changed[0].statement(), &StatementId::Root(1));
    assert!(matches!(changed[1], StatementChange::Deleted(StatementId::Root(_))));
    assert_eq!(changed[1].statement(), &StatementId::Root(0));
    assert!(matches!(&changed[2], StatementChange::Added(AddedStatement { stmt: _, text }) if text == "select id,test from users;"));
    assert!(matches!(&changed[3], StatementChange::Added(AddedStatement { stmt: _, text }) if text == "select 1;"));
    assert_integrity(&d);
}

#[test]
fn append_whitespace_to_statement() {
    let mut d = open("select id");
    assert_eq!(d.positions.len(), 1);

    let changed = apply_file_change(&mut d, &batch(1, vec![range_change(9, 10, " ")]));

    assert_eq!(changed.len(), 1);
    assert_integrity(&d);
}

#[test]
fn apply_changes_replacement() {
    let mut doc = open("");

    apply_file_change(&mut doc, &batch(1, vec![ChangeParams { text: "select 1;\nselect 2;".to_string(), range: None }]));
    assert_eq!(text_of(&doc, 0), "select 1;");
    assert_eq!(text_of(&doc, 1), "select 2;");
    assert_eq!(doc.positions[0].1, TextRange::new(0, 9));
    assert_eq!(doc.positions[1].1, TextRange::new(10, 19));

    apply_file_change(&mut doc, &batch(2, vec![range_change(7, 8, "")]));
    assert_eq!(doc.content, "select ;\nselect 2;");
    assert_eq!(doc.positions.len(), 2);
    assert_eq!(text_of(&doc, 0), "select ;");
    assert_eq!(text_of(&doc, 1), "select 2;");
    assert_eq!(doc.positions[0].1, TextRange::new(0, 8));
    assert_eq!(doc.positions[1].1, TextRange::new(9, 18));

    apply_file_change(&mut doc, &batch(3, vec![range_change(7, 7, "!")]));
    assert_eq!(doc.content, "select !;\nselect 2;");
    assert_eq!(doc.positions.len(), 2);
    assert_eq!(doc.positions[0].1, TextRange::new(0, 9));
    assert_eq!(doc.positions[1].1, TextRange::new(10, 19));

    apply_file_change(&mut doc, &batch(4, vec![range_change(7, 8, "")]));
    assert_eq!(doc.content, "select ;\nselect 2;");
    assert_eq!(doc.positions.len(), 2);
    assert_eq!(doc.positions[0].1, TextRange::new(0, 8));
    assert_eq!(doc.positions[1].1, TextRange::new(9, 18));

    apply_file_change(&mut doc, &batch(5, vec![range_change(7, 7, "1")]));
    assert_eq!(doc.content, "select 1;\nselect 2;");
    assert_eq!(doc.positions.len(), 2);
    assert_eq!(doc.positions[0].1, TextRange::new(0, 9));
    assert_eq!(doc.positions[1].1, TextRange::new(10, 19));

    assert_integrity(&doc);
}

#[test]
fn apply_changes_within_statement() {
    let mut doc = open("select id  from users;\nselect * from contacts;");
    assert_eq!(doc.positions.len(), 2);

    let stmt_1_range = doc.positions[0];
    let stmt_2_range = doc.positions[1];
    let update_text = ",test";
    let update_range = TextRange::new(9, 10);
    let update_text_len = update_text.chars().count() as u32;
    let update_addition = update_text_len - update_range.len();

    apply_file_change(&mut doc, &batch(1, vec![ChangeParams { text: update_text.to_string(), range: Some(update_range) }]));

    assert_eq!("select id,test from users;\nselect * from contacts;", doc.content);
    assert_eq!(doc.positions.len(), 2);
    assert_eq!(doc.positions[0].1.start(), stmt_1_range.1.start());
    assert_eq!(doc.positions[0].1.end(), stmt_1_range.1.end() + update_addition);
    assert_eq!(doc.positions[1].1.start(), stmt_2_range.1.start() + update_addition);
    assert_eq!(doc.positions[1].1.end(), stmt_2_range.1.end() + update_addition);
    assert_integrity(&doc);
}

#[test]
fn remove_outside_of_content() {
    let mut d = Document::new("select id from contacts;\n\nselect * from contacts;".to_string(), 1, split("select id from contacts;\n\nselect * from contacts;"));
    assert_eq!(d.positions.len(), 2);

    apply_file_change(&mut d, &batch(2, vec![range_change(49, 49, "\n")]));
    assert_eq!(d.content, "select id from contacts;\n\nselect * from contacts;\n");

    apply_file_change(&mut d, &batch(3, vec![range_change(50, 50, "\n")]));
    assert_eq!(d.content, "select id from contacts;\n\nselect * from contacts;\n\n");

    let changes = apply_file_change(&mut d, &batch(6, vec![range_change(51, 52, "")]));
    assert!(matches!(changes[0], StatementChange::Deleted(StatementId::Root(_))));
    assert!(matches!(changes[1], StatementChange::Added(AddedStatement { .. })));
    assert_eq!(changes.len(), 2);
    assert_eq!(d.content, "select id from contacts;\n\nselect * from contacts;\n\n");
    assert_integrity(&d);
}

fn assert_modified(changed: &[StatementChange], range: TextRange, text: &str, old_text: &str, new_text: &str) {
    assert_eq!(changed.len(), 1);
    match &changed[0] {
        StatementChange::Modified(ModifiedStatement { change_range, change_text, new_stmt_text, old_stmt_text, .. }) => {
            assert_eq!(change_range, &range);
            assert_eq!(change_text, text);
            assert_eq!(new_stmt_text, new_text);
            assert_eq!(old_stmt_text, old_text);
        }
        _ => unreachable!("Did not yield a modified statement."),
    }
}

#[test]
fn remove_trailing_whitespace() {
    let mut doc = open("select * from ");
    let changed = apply_file_change(&mut doc, &batch(1, vec![range_change(13, 14, "")]));
    assert_eq!(doc.content, "select * from");
    assert_modified(&changed, TextRange::new(13, 14), "", "select * from", "select * from");
    assert_integrity(&doc);
}

#[test]
fn remove_trailing_whitespace_and_last_char() {
    let mut doc = open("select * from ");
    let changed = apply_file_change(&mut doc, &batch(1, vec![range_change(12, 14, "")]));
    assert_eq!(doc.content, "select * fro");
    assert_modified(&changed, TextRange::new(12, 14), "", "select * from", "select * fro");
    assert_integrity(&doc);
}

#[test]
fn multiple_deletions_at_once() {
    let mut doc = open("ALTER TABLE ONLY public.omni_channel_message ADD CONSTRAINT omni_channel_message_organisation_id_fkey FOREIGN KEY (organisation_id) REFERENCES public.organisation(id) ON UPDATE RESTRICT ON DELETE CASCADE;");
    let changed = apply_file_change(&mut doc, &batch(1, vec![range_change(60, 80, "sendout"), range_change(24, 44, "sendout")]));
    assert_eq!(
        doc.content,
        "ALTER TABLE ONLY public.sendout ADD CONSTRAINT sendout_organisation_id_fkey FOREIGN KEY (organisation_id) REFERENCES public.organisation(id) ON UPDATE RESTRICT ON DELETE CASCADE;"
    );
    assert_eq!(changed.len(), 2);
    assert_integrity(&doc);
}

#[test]
fn multiple_additions_at_once() {
    let mut doc = open("ALTER TABLE ONLY public.sendout ADD CONSTRAINT sendout_organisation_id_fkey FOREIGN KEY (organisation_id) REFERENCES public.organisation(id) ON UPDATE RESTRICT ON DELETE CASCADE;");
    let changed = apply_file_change(&mut doc, &batch(1, vec![range_change(47, 54, "omni_channel_message"), range_change(24, 31, "omni_channel_message")]));
    assert_eq!(
        doc.content,
        "ALTER TABLE ONLY public.omni_channel_message ADD CONSTRAINT omni_channel_message_organisation_id_fkey FOREIGN KEY (organisation_id) REFERENCES public.organisation(id) ON UPDATE RESTRICT ON DELETE CASCADE;"
    );
    assert_eq!(changed.len(), 2);
    assert_integrity(&doc);
}

#[test]
fn remove_inbetween_whitespace() {
    let mut doc = open("select *   from users");
    let changed = apply_file_change(&mut doc, &batch(1, vec![range_change(9, 11, "")]));
    assert_eq!(doc.content, "select * from users");
    assert_modified(&changed, TextRange::new(9, 11), "", "select *   from users", "select * from users");
    assert_integrity(&doc);
}

#[test]
fn test_another_issue() {
    let initial_content = r#"



ALTER TABLE ONLY "public"."campaign_contact_list"
    ADD CONSTRAINT "campaign_contact_list_contact_list_id_fkey" FOREIGN KEY ("contact_list_id") REFERENCES "public"."contact_list"("id") ON UPDATE RESTRICT ON DELETE CASCADE;
"#;
    let mut doc = open(initial_content);
    let _changes = apply_file_change(&mut doc, &batch(1, vec![range_change(31, 39, "journey_node"), range_change(74, 82, "journey_node")]));
    let expected_content = r#"



ALTER TABLE ONLY "public"."journey_node_contact_list"
    ADD CONSTRAINT "journey_node_contact_list_contact_list_id_fkey" FOREIGN KEY ("contact_list_id") REFERENCES "public"."contact_list"("id") ON UPDATE RESTRICT ON DELETE CASCADE;
"#;
    assert_eq!(doc.content, expected_content);
    assert_integrity(&doc);
}

#[test]
fn test_comments_only() {
    let initial_content = "-- atlas:import async_trigger/setup.sql\n-- atlas:import public/setup.sql\n-- atlas:import private/setup.sql\n-- atlas:import api/setup.sql\n-- atlas:import async_trigger/index.sql\n-- atlas:import public/enums/index.sql\n-- atlas:import public/types/index.sql\n-- atlas:import private/enums/index.sql\n-- atlas:import private/functions/index.sql\n-- atlas:import public/tables/index.sql\n-- atlas:import public/index.sql\n-- atlas:import private/index.sql\n-- atlas:import api/index.sql\n\n\n\n";
    let mut doc = open(initial_content);

    apply_file_change(&mut doc, &batch(3, vec![range_change(98, 103, "")]));

    apply_file_change(&mut doc, &batch(4, vec![range_change(98, 98, "t")]));
    assert_eq!(doc.positions.len(), 0, "Document should have no statement after adding 't'");

    apply_file_change(&mut doc, &batch(5, vec![range_change(99, 99, "e")]));
    assert_eq!(doc.positions.len(), 0, "Document should still have no statement");

    apply_file_change(&mut doc, &batch(6, vec![range_change(100, 100, "s")]));
    assert_eq!(doc.positions.len(), 0, "Document should still have no statement");

    apply_file_change(&mut doc, &batch(7, vec![range_change(101, 101, "t")]));
    assert_eq!(doc.positions.len(), 0, "Document should still have no statement");

    assert_integrity(&doc);
}

#[test]
fn spans_out_of_order_count_as_a_failed_split() {
    let bad = SplitOutcome { ranges: vec![TextRange::new(5, 9), TextRange::new(0, 4)], diagnostics: Vec::new() };
    let doc = Document::new("select 1;".to_string(), 0, bad);
    assert!(doc.positions.is_empty());
    assert!(doc.has_fatal_error());
    assert_eq!(doc.diagnostics.len(), 1);
}

#[test]
fn comments_at_begin() {
    let mut d = open("\nselect id from users;\n");

    apply_file_change(&mut d, &batch(1, vec![range_change(0, 0, "-")]));
    assert_eq!(d.content, "-\nselect id from users;\n");
    assert_eq!(d.positions.len(), 2);

    apply_file_change(&mut d, &batch(2, vec![range_change(1, 1, "-")]));
    assert_eq!(d.content, "--\nselect id from users;\n");
    assert_eq!(d.positions.len(), 1);

    apply_file_change(&mut d, &batch(3, vec![range_change(2, 2, " ")]));
    assert_eq!(d.content, "-- \nselect id from users;\n");
    assert_eq!(d.positions.len(), 1);

    apply_file_change(&mut d, &batch(3, vec![range_change(3, 3, "t")]));
    assert_eq!(d.content, "-- t\nselect id from users;\n");
    assert_eq!(d.positions.len(), 1);

    assert_integrity(&d);
}

#[test]
fn julians_sample() {
    let mut d = open("select\n  *\nfrom\n  test;\n\nselect\n\nalter table test\n\ndrop column id;");
    assert_eq!(d.positions.len(), 4);

    let changed1 = apply_file_change(&mut d, &batch(1, vec![range_change(31, 31, " ")]));
    assert_eq!(changed1.len(), 1);
    assert_eq!(d.content, "select\n  *\nfrom\n  test;\n\nselect \n\nalter table test\n\ndrop column id;");
    assert_integrity(&d);

    let changed2 = apply_file_change(&mut d, &batch(2, vec![range_change(32, 32, ";")]));
    assert_eq!(changed2.len(), 4);
    assert_eq!(changed2.iter().filter(|c| matches!(c, StatementChange::Deleted(_))).count(), 2);
    assert_eq!(changed2.iter().filter(|c| matches!(c, StatementChange::Added(_))).count(), 2);
    assert_integrity(&d);

    let changed3 = apply_file_change(&mut d, &batch(3, vec![range_change(32, 33, "")]));
    assert_eq!(changed3.len(), 1);
    assert!(matches!(&changed3[0], StatementChange::Modified(_)));
    assert_eq!(d.content, "select\n  *\nfrom\n  test;\n\nselect \n\nalter table test\n\ndrop column id;");
    match &changed3[0] {
        StatementChange::Modified(changed) => {
            assert_eq!(changed.old_stmt_text, "select ;");
            assert_eq!(changed.new_stmt_text, "select");
            assert_eq!(changed.change_text, "");
            assert_eq!(changed.change_range, TextRange::new(7, 8));
        }
        _ => panic!("expected modified statement"),
    }
    assert_integrity(&d);
}

#[test]
fn apply_changes() {
    let mut d = open("select id from users;\nselect * from contacts;");
    assert_eq!(d.positions.len(), 2);

    let changed = apply_file_change(&mut d, &batch(1, vec![range_change(9, 45, ",test from users\nselect 1;")]));

    assert_eq!(changed.len(), 4);
    assert!(matches!(changed[0], StatementChange::Deleted(StatementId::Root(_))));
    assert_eq!(changed[0].statement(), &StatementId::Root(1));
    assert!(matches!(changed[1], StatementChange::Deleted(StatementId::Root(_))));
    assert_eq!(changed[1].statement(), &StatementId::Root(0));
    assert_eq!(changed[2], StatementChange::Added(AddedStatement { stmt: StatementId::Root(2), text: "select id,test from users".to_string() }));
    assert_eq!(changed[3], StatementChange::Added(AddedStatement { stmt: StatementId::Root(3), text: "select 1;".to_string() }));
    assert_eq!("select id,test from users\nselect 1;", d.content);
    assert_integrity(&d);
}

#[test]
fn removing_newline_at_the_beginning() {
    let mut d = Document::new("\n".to_string(), 1, split("\n"));
    assert_eq!(d.positions.len(), 0);

    let changes = apply_file_change(&mut d, &batch(2, vec![range_change(0, 1, "\nbegin;\n\nselect 1\n\nrollback;\n")]));
    assert_eq!(changes.len(), 3);
    assert_integrity(&d);

    let changes2 = apply_file_change(&mut d, &batch(3, vec![range_change(0, 1, "")]));
    assert_eq!(changes2.len(), 1);
    assert_integrity(&d);
}

#[test]
fn apply_changes_at_end_of_statement() {
    let mut d = Document::new("select id from\nselect * from contacts;".to_string(), 1, split("select id from\nselect * from contacts;"));
    assert_eq!(d.positions.len(), 2);

    let changes = apply_file_change(&mut d, &batch(2, vec![range_change(14, 14, " contacts;")]));
    assert_eq!(changes.len(), 1);
    assert!(matches!(changes[0], StatementChange::Modified(_)));
    assert_eq!("select id from contacts;\nselect * from contacts;", d.content);
    assert_integrity(&d);
}

#[test]
fn comment_at_begin() {
    let mut doc = open("-- Add new schema named \"private\"\nCREATE SCHEMA \"private\";");

    let changed = apply_file_change(&mut doc, &batch(1, vec![range_change(0, 1, "")]));
    assert_eq!(doc.content, "- Add new schema named \"private\"\nCREATE SCHEMA \"private\";");
    assert_eq!(changed.len(), 3);
    assert!(matches!(&changed[0], StatementChange::Deleted(_)));
    assert!(matches!(changed[1], StatementChange::Added(AddedStatement { .. })));
    assert!(matches!(changed[2], StatementChange::Added(AddedStatement { .. })));

    let changed_2 = apply_file_change(&mut doc, &batch(2, vec![range_change(0, 0, "-")]));
    assert_eq!(doc.content, "-- Add new schema named \"private\"\nCREATE SCHEMA \"private\";");
    assert_eq!(changed_2.len(), 3);
    assert!(matches!(changed_2[0], StatementChange::Deleted(StatementId::Root(_))));
    assert!(matches!(changed_2[1], StatementChange::Deleted(StatementId::Root(_))));
    assert!(matches!(changed_2[2], StatementChange::Added(AddedStatement { .. })));
    assert_integrity(&doc);
}

#[test]
fn deleting_at_the_start_resplits_to_the_end() {
    let mut doc = open("/* select 1;");
    assert_eq!(doc.positions.len(), 0);
    let changes = edit(&mut doc, &range_change(0, 2, ""));
    assert_eq!(doc.content, " select 1;");
    assert_eq!(changes.len(), 1);
    assert_eq!(text_of(&doc, 0), "select 1;");
    assert_integrity(&doc);
}

#[test]
fn failed_split_keeps_the_splitters_diagnostics() {
    let mut doc = open("select 1;\n*\n");
    edit(&mut doc, &range_change(10, 10, "/"));
    assert_eq!(doc.diagnostics.len(), 1);
    assert_eq!(doc.diagnostics[0].message, "unterminated comment");
    assert!(doc.diagnostics[0].fatal);
}

#[test]
fn offsets_count_bytes() {
    let mut doc = open("select 'é';\nselect 2;");
    assert_eq!(doc.positions[0].1, TextRange::new(0, 12));
    assert_eq!(doc.positions[1].1, TextRange::new(13, 22));
    let changes = edit(&mut doc, &range_change(8, 10, "ñó"));
    assert_eq!(doc.content, "select 'ñó';\nselect 2;");
    assert_eq!(changes.len(), 1);
    match &changes[0] {
        StatementChange::Modified(m) => {
            assert_eq!(m.old_stmt_text, "select 'é';");
            assert_eq!(m.new_stmt_text, "select 'ñó';");
            assert_eq!(m.change_range, TextRange::new(8, 10));
        }
        other => panic!("expected a modified statement, got {:?}", other),
    }
    assert_eq!(doc.positions[1].1, TextRange::new(15, 24));
    assert_eq!(text_of(&doc, 1), "select 2;");
    assert_integrity(&doc);
    assert_coverage(&doc);
}

#[test]
fn spans_off_character_boundaries_fail_the_split() {
    let bad = SplitOutcome { ranges: vec![TextRange::new(0, 9)], diagnostics: Vec::new() };
    let doc = Document::new("select 'é';".to_string(), 0, bad);
    assert!(doc.positions.is_empty());
    assert!(doc.has_fatal_error());
}

#[test]
fn failed_statement_split_widens_to_the_neighbourhood() {
    let mut doc = open("select 1;\nselect 2;");
    let mut step = ChangeStep::Split(doc.begin_change(&range_change(7, 8, "3")));
    let mut fatal_once = true;
    let changes = loop {
        match step {
            ChangeStep::Split(text) => {
                let outcome = if fatal_once {
                    fatal_once = false;
                    SplitOutcome { ranges: Vec::new(), diagnostics: vec![SplitDiagnostic { message: "x".to_string(), range: None, fatal: true }] }
                } else {
                    split(&text)
                };
                step = doc.resume_change(outcome);
            }
            ChangeStep::Finished(changes) => break changes,
        }
    };
    assert_eq!(doc.content, "select 3;\nselect 2;");
    assert_eq!(doc.positions.len(), 2);
    assert!(changes.iter().any(|c| matches!(c, StatementChange::Added(a) if a.text == "select 3;")));
    assert_integrity(&doc);
}
