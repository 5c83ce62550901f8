//! Notes as files: the text of a note with its front matter, the same as
//! HTML, and a file name that any file system takes.

use std::fmt::Write;
use vstd::prelude::*;
use crate::models::{Note, NoteView, Timestamp};
use crate::text::{chars_of, decimal, push_decimal, push_text, same_text, string_of};

verus! {

/// The longest file name, in characters, that [`sanitize`] gives.
pub const MAX_NAME_LEN: usize = 100;

/// The character `c` as a file name holds it: an underscore for a slash
/// or a blank, any other character as it is.
pub open spec fn safe_char(c: char) -> char {
    if c == '/' || c == ' ' {
        '_'
    } else {
        c
    }
}

/// The characters that a file name keeps: those of ASCII.
pub open spec fn plain() -> spec_fn(char) -> bool {
    |c: char| (c as u32) < 128
}

/// The name `s` as a file name: slashes and blanks become underscores,
/// characters outside ASCII are left out, and what comes after the first
/// 100 characters is cut off.
pub open spec fn sanitized(s: Seq<char>) -> Seq<char> {
    let kept = s.map_values(|c: char| safe_char(c)).filter(plain());
    if kept.len() > MAX_NAME_LEN {
        kept.take(MAX_NAME_LEN as int)
    } else {
        kept
    }
}

/// The name `s` as a file name.
pub fn sanitize(s: &str) -> (r: String)
    ensures
        r@ == sanitized(s@),
{
    let chars = chars_of(s);
    let ghost mapped = s@.map_values(|c: char| safe_char(c));
    let mut out: Vec<char> = Vec::new();
    let mut i: usize = 0;
    proof {
        crate::tables::lemma_filter_none(mapped.take(0), plain());
    }
    while i < chars.len()
        invariant
            i <= chars.len(),
            chars@ == s@,
            mapped == s@.map_values(|c: char| safe_char(c)),
            out@ == mapped.take(i as int).filter(plain()),
        decreases chars.len() - i,
    {
        proof {
            crate::tables::lemma_filter_step(mapped, i as int, plain());
        }
        let c = chars[i];
        let d = if c == '/' || c == ' ' {
            '_'
        } else {
            c
        };
        if (d as u32) < 128 {
            out.push(d);
        }
        i += 1;
    }
    proof {
        assert(mapped.take(chars.len() as int) =~= mapped);
    }
    if out.len() > MAX_NAME_LEN {
        out.truncate(MAX_NAME_LEN);
        proof {
            assert(out@ =~= mapped.filter(plain()).take(MAX_NAME_LEN as int));
        }
    }
    string_of(&out)
}

/// How a file shows a time: year, month and day, then hour, minute and
/// second.
pub const TIME_PATTERN: &'static str = "%Y-%m-%d %H:%M:%S";

/// The time `secs` as the `chrono` crate prints it in UTC after the
/// pattern `pattern`, or nothing where `chrono` has no date for the time
/// or cannot print after the pattern.
pub uninterp spec fn utc_text(secs: int, pattern: Seq<char>) -> Option<Seq<char>>;

/// Calls `DateTime::from_timestamp` of the `chrono` crate on `secs`
/// seconds and no nanoseconds and, where that gives a time, writes what
/// its `format` makes of `pattern`. The result depends on `secs` and on
/// `pattern` alone.
#[verifier::external_body]
fn print_utc(secs: Timestamp, pattern: &str) -> (r: Option<String>)
    ensures
        match r {
            Some(t) => utc_text(secs as int, pattern@) == Some(t@),
            None => utc_text(secs as int, pattern@) is None,
        },
{
    let time = chrono::DateTime::from_timestamp(secs, 0)?;
    let mut out = String::new();
    write!(out, "{}", time.format(pattern)).ok()?;
    Some(out)
}

/// The time `secs` as a file shows it: as `chrono` prints it after
/// [`TIME_PATTERN`], or `NA` where `chrono` has no date for it.
pub open spec fn time_text(secs: int) -> Seq<char> {
    match utc_text(secs, TIME_PATTERN@) {
        Some(t) => t,
        None => "NA"@,
    }
}

/// The time `secs` as a file shows it.
pub fn format_time(secs: Timestamp) -> (r: String)
    ensures
        r@ == time_text(secs as int),
{
    match print_utc(secs, TIME_PATTERN) {
        Some(t) => t,
        None => "NA".to_owned(),
    }
}

/// The note `n` as Markdown: its name, its times and `draft: false` as
/// front matter between two rules, then its content. A note that is not in
/// the trash shows `NA` as the time of its deletion, and a note without
/// content an empty line.
pub open spec fn note_markdown(n: NoteView) -> Seq<char> {
    "---\ntitle: \""@ + n.name + "\"\n\ndate: "@ + time_text(n.created_at) + "\n\nupdated: "@
        + time_text(n.updated_at) + "\n\ndeleted: "@ + (match n.deleted_at {
        Some(t) => time_text(t),
        None => "NA"@,
    }) + "\n\ndraft: false\n\n---\n\n"@ + (match n.content {
        Some(c) => c,
        None => Seq::empty(),
    }) + "\n"@
}

/// The note `note` as Markdown.
pub fn format_note_as_md(note: &Note) -> (r: String)
    ensures
        r@ == note_markdown(note@),
{
    let mut out: Vec<char> = Vec::new();
    push_text(&mut out, "---\ntitle: \"");
    push_text(&mut out, note.name.as_str());
    push_text(&mut out, "\"\n\ndate: ");
    push_text(&mut out, format_time(note.created_at).as_str());
    push_text(&mut out, "\n\nupdated: ");
    push_text(&mut out, format_time(note.updated_at).as_str());
    push_text(&mut out, "\n\ndeleted: ");
    match note.deleted_at {
        Some(t) => push_text(&mut out, format_time(t).as_str()),
        None => push_text(&mut out, "NA"),
    }
    push_text(&mut out, "\n\ndraft: false\n\n---\n\n");
    match &note.content {
        Some(c) => push_text(&mut out, c.as_str()),
        None => {},
    }
    push_text(&mut out, "\n");
    proof {
        assert(out@ =~= note_markdown(note@));
    }
    string_of(&out)
}

/// The HTML that the `pulldown_cmark` crate makes of the Markdown text
/// `md`, with none of its extensions switched on.
pub uninterp spec fn markdown_html(md: Seq<char>) -> Seq<char>;

/// Parses `md` with `Parser::new_ext` of the `pulldown_cmark` crate, with
/// empty options, and writes the events with `html::push_html`. The result
/// depends on the text alone.
#[verifier::external_body]
fn md_to_html(md: &str) -> (r: String)
    ensures
        r@ == markdown_html(md@),
{
    let parser = pulldown_cmark::Parser::new_ext(md, pulldown_cmark::Options::empty());
    let mut html_output = String::new();
    pulldown_cmark::html::push_html(&mut html_output, parser);
    html_output
}

/// What the file of the note `n` holds in the format `format`: HTML for
/// `html`, Markdown for any other.
pub open spec fn exported(n: NoteView, format: Seq<char>) -> Seq<char> {
    if format == "html"@ {
        markdown_html(note_markdown(n))
    } else {
        note_markdown(n)
    }
}

/// What the file of the note `note` holds in the format `format`.
pub fn export_note(note: &Note, format: &str) -> (r: String)
    ensures
        r@ == exported(note@, format@),
{
    let data = format_note_as_md(note);
    if same_text(format, "html") {
        md_to_html(data.as_str())
    } else {
        data
    }
}

/// The name of the file for the `i`-th note of an export, of the name
/// `name`, in the format `format`: the name as a file name, an underscore,
/// `i`, a dot and the format. The number keeps notes of one name apart.
pub open spec fn file_name(name: Seq<char>, i: nat, format: Seq<char>) -> Seq<char> {
    sanitized(name) + "_"@ + decimal(i) + "."@ + format
}

/// The name of the file for the `i`-th note of an export.
pub fn export_file_name(name: &str, i: usize, format: &str) -> (r: String)
    ensures
        r@ == file_name(name@, i as nat, format@),
{
    let mut out: Vec<char> = Vec::new();
    push_text(&mut out, sanitize(name).as_str());
    push_text(&mut out, "_");
    push_decimal(&mut out, i as u64);
    push_text(&mut out, ".");
    push_text(&mut out, format);
    proof {
        assert(out@ =~= file_name(name@, i as nat, format@));
    }
    string_of(&out)
}

} // verus!
