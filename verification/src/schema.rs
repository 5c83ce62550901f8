//! The archive as a storage engine holds it: the statements that make
//! its tables, its full-text index and the triggers that keep the index
//! in step, and the statements that set a connection up.

use vstd::prelude::*;
use crate::archive::{JournalMode, Pragmas, Synchronous, TempStore};
use crate::text::{decimal, push_decimal, push_text, string_of};

verus! {

/// The statements that make the tables, the index and the triggers, each
/// only where it is not there yet.
pub const SCHEMA: &'static str = "
    CREATE TABLE IF NOT EXISTS note (
        id              INTEGER PRIMARY KEY AUTOINCREMENT,
        name            TEXT NOT NULL,
        content         TEXT,
        created_at      DATETIME DEFAULT CURRENT_TIMESTAMP,
        updated_at      DATETIME DEFAULT CURRENT_TIMESTAMP,
        deleted_at      DATETIME
    );

    CREATE TABLE IF NOT EXISTS note_link (
        id              INTEGER PRIMARY KEY AUTOINCREMENT,
        source_note_id  INTEGER NOT NULL,
        target_note_id  INTEGER NOT NULL,
        link_type       TEXT NOT NULL CHECK(link_type IN ('related', 'parent')),
        created_at      DATETIME DEFAULT CURRENT_TIMESTAMP,
        updated_at      DATETIME DEFAULT CURRENT_TIMESTAMP,
        deleted_at      DATETIME,
        FOREIGN KEY (source_note_id) REFERENCES note(id) ON DELETE CASCADE,
        FOREIGN KEY (target_note_id) REFERENCES note(id) ON DELETE CASCADE,
        UNIQUE (source_note_id, target_note_id, link_type)
    );

    CREATE TABLE IF NOT EXISTS note_diff (
        id              INTEGER PRIMARY KEY AUTOINCREMENT,
        note_id         INTEGER NOT NULL,
        version         INTEGER,
        diff            TEXT,
        changed_at      DATETIME DEFAULT CURRENT_TIMESTAMP,
        FOREIGN KEY (note_id) REFERENCES note(id) ON DELETE CASCADE
    );

    CREATE VIRTUAL TABLE IF NOT EXISTS note_fts USING fts5 (
        id UNINDEXED,
        name,
        content,
        content='note',
    );

    CREATE TRIGGER IF NOT EXISTS note_ai AFTER INSERT ON note BEGIN
        INSERT INTO note_fts(rowid, name, content)
        VALUES (new.id, new.name, new.content);
    END;

    CREATE TRIGGER IF NOT EXISTS note_au AFTER UPDATE ON note BEGIN
        INSERT INTO note_fts(note_fts, id, name, content)
        VALUES ('delete', old.id, old.name, old.content);
        INSERT INTO note_fts(rowid, name, content)
        VALUES (new.id, new.name, new.content);
    END;

    CREATE TRIGGER IF NOT EXISTS note_ad AFTER DELETE ON note BEGIN
        INSERT INTO note_fts(note_fts, rowid, name, content)
        VALUES ('delete', old.id, old.name, old.content);
    END;
";

/// The number `n` in decimal digits, with a minus sign in front where it
/// is below zero.
pub open spec fn signed_decimal(n: int) -> Seq<char> {
    if n < 0 {
        "-"@ + decimal((-n) as nat)
    } else {
        decimal(n as nat)
    }
}

/// The word for a setting that is on or off.
pub open spec fn switch_text(on: bool) -> Seq<char> {
    if on {
        "ON"@
    } else {
        "OFF"@
    }
}

/// The word for a way to keep the journal.
pub open spec fn journal_text(m: JournalMode) -> Seq<char> {
    match m {
        JournalMode::Delete => "DELETE"@,
        JournalMode::Wal => "WAL"@,
    }
}

/// The word for a way to wait for the disk.
pub open spec fn synchronous_text(s: Synchronous) -> Seq<char> {
    match s {
        Synchronous::Normal => "NORMAL"@,
        Synchronous::Full => "FULL"@,
    }
}

/// The word for a place for temporary tables.
pub open spec fn temp_store_text(t: TempStore) -> Seq<char> {
    match t {
        TempStore::Default => "DEFAULT"@,
        TempStore::Memory => "MEMORY"@,
    }
}

/// The statements that give a connection the settings `p`: one `PRAGMA`
/// statement for each setting, each on a line of its own.
pub open spec fn pragma_text(p: Pragmas) -> Seq<char> {
    "PRAGMA journal_mode = "@ + journal_text(p.journal_mode) + ";\nPRAGMA synchronous = "@
        + synchronous_text(p.synchronous) + ";\nPRAGMA cache_size = "@ + signed_decimal(
        p.cache_size as int,
    ) + ";\nPRAGMA temp_store = "@ + temp_store_text(p.temp_store)
        + ";\nPRAGMA case_sensitive_like = "@ + switch_text(p.case_sensitive_like)
        + ";\nPRAGMA foreign_keys = "@ + switch_text(p.foreign_keys) + ";\n"@
}

fn push_signed(out: &mut Vec<char>, n: i64)
    ensures
        final(out)@ == old(out)@ + signed_decimal(n as int),
{
    if n < 0 {
        push_text(out, "-");
        let magnitude: u64 = (-(n + 1)) as u64 + 1;
        push_decimal(out, magnitude);
        proof {
            assert(out@ =~= old(out)@ + signed_decimal(n as int));
        }
    } else {
        push_decimal(out, n as u64);
    }
}

fn push_switch(out: &mut Vec<char>, on: bool)
    ensures
        final(out)@ == old(out)@ + switch_text(on),
{
    if on {
        push_text(out, "ON");
    } else {
        push_text(out, "OFF");
    }
}

/// The statements that give a connection the settings `p`.
pub fn pragma_statements(p: Pragmas) -> (r: String)
    ensures
        r@ == pragma_text(p),
{
    let mut out: Vec<char> = Vec::new();
    push_text(&mut out, "PRAGMA journal_mode = ");
    match p.journal_mode {
        JournalMode::Delete => push_text(&mut out, "DELETE"),
        JournalMode::Wal => push_text(&mut out, "WAL"),
    }
    push_text(&mut out, ";\nPRAGMA synchronous = ");
    match p.synchronous {
        Synchronous::Normal => push_text(&mut out, "NORMAL"),
        Synchronous::Full => push_text(&mut out, "FULL"),
    }
    push_text(&mut out, ";\nPRAGMA cache_size = ");
    push_signed(&mut out, p.cache_size);
    push_text(&mut out, ";\nPRAGMA temp_store = ");
    match p.temp_store {
        TempStore::Default => push_text(&mut out, "DEFAULT"),
        TempStore::Memory => push_text(&mut out, "MEMORY"),
    }
    push_text(&mut out, ";\nPRAGMA case_sensitive_like = ");
    push_switch(&mut out, p.case_sensitive_like);
    push_text(&mut out, ";\nPRAGMA foreign_keys = ");
    push_switch(&mut out, p.foreign_keys);
    push_text(&mut out, ";\n");
    proof {
        assert(out@ =~= pragma_text(p));
    }
    string_of(&out)
}

} // verus!
