//! Help texts of the command line, one per topic.
use vstd::prelude::*;

use crate::error::{NtError, Result};
use crate::text::{append_str, owned, str_eq};

verus! {
pub const ROOT: &'static str = "nt\n\nMarkdown-first CLI note organizer.\n\nUsage:\n  nt <command> [positional...]\n\nCommands:\n  init        create a vault\n  add         add a Markdown note\n  rebuild     rebuild active vault index\n  list        list notes and metadata projections\n  find        find notes by query expressions\n  show        show one exact note\n  open        edit one note with $EDITOR\n  rm          remove one note\n  update      update one metadata field\n  agenda      show actionable todos\n  export      export Markdown with front matter\n  config      inspect or select vaults\n  completion  generate shell completion\n  help        show help\n\nExamples:\n  nt init notes\n  nt list\n  nt find tag:decision qemu\n  nt agenda today\n";
pub const ADD: &'static str = "nt add [metadata...]\n\nRead CommonMark from stdin or $EDITOR. Metadata fields are tag, kind, status,\npriority, scheduled, due, collection, link, and source.\n\nExamples:\n  nt add kind:todo status:open priority:A due:2026-06-30\n";
pub const REBUILD: &'static str = "nt rebuild\n\nRebuild from Markdown while preserving primary JSON metadata and merging URLs\ncurrently found in Markdown bodies.\n\nExamples:\n  nt rebuild\n";
pub const LIST: &'static str = "nt list\nnt list <field>[,<field>...] [filter...]\nnt list ids\nnt list titles\nnt list tags [tag]\nnt list collections [collection]\nnt list links <id> [from|to]\n\nPrint active-vault metadata rows with optional structured filters. Fields include\nid, path, created, updated, title, kind, status, priority, scheduled, due,\nclosed, tag, collection, link, and source. Bare list prints every field.\n\nExamples:\n  nt list id\n  nt list id,title,status status:open\n  nt list title,tag collection:projects/nt\n  nt list tags storage\n  nt list collections projects/nt\n  nt list links NT20260528T143012 from\n";
pub const FIND: &'static str = "nt find <expr...>\n\nFind notes with AND-combined expressions. Fields include id, tag, title, day,\nsince, before, kind, status, priority, scheduled, due, closed, collection,\nlink, source, and body.\n\nExamples:\n  nt find kind:todo due:2026-06-30\n  nt find not:status:done qemu\n";
pub const UPDATE: &'static str = "nt update <id> <field> <value>\n\nSingle fields kind, status, priority, scheduled, and due use a value or -.\nSet fields tag, collection, link, and source require +value or -value.\n\nExamples:\n  nt update NT20260528T143012 status done\n  nt update NT20260528T143012 tag +decision\n";
pub const AGENDA: &'static str = "nt agenda [today|week|overdue|waiting|undated]\n\nPrint actionable todo records ordered by date, priority, and recency.\n\nExamples:\n  nt agenda\n  nt agenda week\n";
pub const CONFIG: &'static str = "nt config show\nnt config vault [vault-name]\n\nInspect or select vaults.\n\nExamples:\n  nt config show\n  nt config vault notes\n";

/// The help text of a topic, if there is one.
pub open spec fn topic_of(key: Seq<char>) -> Option<Seq<char>> {
    if key == ""@ {
        Some(ROOT@)
    }     else if key == "init"@ {
        Some("nt init <notes-dir>\n\nCreate and select a flat note vault.\n\nExamples:\n  nt init notes\n"@)
    }     else if key == "add"@ {
        Some(ADD@)
    }     else if key == "rebuild"@ {
        Some(REBUILD@)
    }     else if key == "list"@ {
        Some(LIST@)
    }     else if key == "find"@ {
        Some(FIND@)
    }     else if key == "show"@ {
        Some("nt show <id>\n\nPrint metadata and the CommonMark body.\n\nExamples:\n  nt show NT20260528T143012\n"@)
    }     else if key == "open"@ {
        Some("nt open <id>\n\nEdit one note with $EDITOR.\n\nExamples:\n  nt open NT20260528T143012\n"@)
    }     else if key == "rm"@ {
        Some("nt rm <id>\n\nRemove one note.\n\nExamples:\n  nt rm NT20260528T143012\n"@)
    }     else if key == "update"@ {
        Some(UPDATE@)
    }     else if key == "agenda"@ {
        Some(AGENDA@)
    }     else if key == "export"@ {
        Some("nt export <path> [id...]\n\nExport Markdown with generated front matter.\n\nExamples:\n  nt export archive\n"@)
    }     else if key == "config"@ {
        Some(CONFIG@)
    }     else if key == "config show"@ {
        Some("nt config show\n\nPrint active vault state.\n\nExamples:\n  nt config show\n"@)
    }     else if key == "config vault"@ {
        Some("nt config vault [vault-name]\n\nList or select vaults.\n\nExamples:\n  nt config vault notes\n"@)
    }     else if key == "completion"@ {
        Some("nt completion <bash|zsh>\n\nGenerate shell completion.\n\nExamples:\n  nt completion zsh\n"@)
    }     else if key == "help"@ {
        Some("nt help [command...]\n\nShow command help.\n\nExamples:\n  nt help find\n"@)
    } else {
        None
    }
}

/// The help text of a topic: the words of the topic joined with spaces, or
/// the empty text for the overview. An unknown topic is refused.
pub fn topic_text(key: &str) -> (r: Result<&'static str>)
    ensures
        match topic_of(key@) {
            Some(text) => r matches Ok(t) && t@ == text,
            None => r matches Err(e) && e is Message && e->Message_0@ == "unknown help topic `"@ + key@
                + "`; run `nt help`"@,
        },
{
    if str_eq(key, "") {
        return Ok(ROOT);
    }
    if str_eq(key, "init") {
        return Ok("nt init <notes-dir>\n\nCreate and select a flat note vault.\n\nExamples:\n  nt init notes\n");
    }
    if str_eq(key, "add") {
        return Ok(ADD);
    }
    if str_eq(key, "rebuild") {
        return Ok(REBUILD);
    }
    if str_eq(key, "list") {
        return Ok(LIST);
    }
    if str_eq(key, "find") {
        return Ok(FIND);
    }
    if str_eq(key, "show") {
        return Ok("nt show <id>\n\nPrint metadata and the CommonMark body.\n\nExamples:\n  nt show NT20260528T143012\n");
    }
    if str_eq(key, "open") {
        return Ok("nt open <id>\n\nEdit one note with $EDITOR.\n\nExamples:\n  nt open NT20260528T143012\n");
    }
    if str_eq(key, "rm") {
        return Ok("nt rm <id>\n\nRemove one note.\n\nExamples:\n  nt rm NT20260528T143012\n");
    }
    if str_eq(key, "update") {
        return Ok(UPDATE);
    }
    if str_eq(key, "agenda") {
        return Ok(AGENDA);
    }
    if str_eq(key, "export") {
        return Ok("nt export <path> [id...]\n\nExport Markdown with generated front matter.\n\nExamples:\n  nt export archive\n");
    }
    if str_eq(key, "config") {
        return Ok(CONFIG);
    }
    if str_eq(key, "config show") {
        return Ok("nt config show\n\nPrint active vault state.\n\nExamples:\n  nt config show\n");
    }
    if str_eq(key, "config vault") {
        return Ok("nt config vault [vault-name]\n\nList or select vaults.\n\nExamples:\n  nt config vault notes\n");
    }
    if str_eq(key, "completion") {
        return Ok("nt completion <bash|zsh>\n\nGenerate shell completion.\n\nExamples:\n  nt completion zsh\n");
    }
    if str_eq(key, "help") {
        return Ok("nt help [command...]\n\nShow command help.\n\nExamples:\n  nt help find\n");
    }
    let mut message = owned("unknown help topic `");
    append_str(&mut message, key);
    append_str(&mut message, "`; run `nt help`");
    Err(NtError::Message(message))
}

} // verus!
