//! Change-sets between two versions of a note's content.
//!
//! A change-set lists the lines that were taken out and put in, each
//! with the number of lines that stand unchanged in front of it. Undoing
//! the entries of a change-set over the later text, from the last to the
//! first, gives the earlier text back.

use vstd::prelude::*;
use crate::models::StoreError;
use crate::text::{
    chars_of, decimal, join, join_lines, lines, push_decimal, push_text, same_text, split_lines,
    string_of, text_views,
};

verus! {

/// What a line of a comparison is: in both texts, only in the earlier, or
/// only in the later.
#[derive(Debug, Clone, Copy, PartialEq, Eq, Structural)]
pub enum ChangeTag {
    Equal,
    Delete,
    Insert,
}

/// One line of a comparison of two texts.
#[derive(Debug)]
pub struct LineChange {
    pub tag: ChangeTag,
    /// The line, ending in a line break.
    pub text: String,
}

/// What a [`LineChange`] holds, as mathematical values.
pub struct LineChangeView {
    pub tag: ChangeTag,
    pub text: Seq<char>,
}

impl View for LineChange {
    type V = LineChangeView;

    open spec fn view(&self) -> LineChangeView {
        LineChangeView { tag: self.tag, text: self.text@ }
    }
}

/// The views of a list of line changes, in order.
pub open spec fn change_views(v: Seq<LineChange>) -> Seq<LineChangeView> {
    v.map_values(|c: LineChange| c@)
}

/// One entry of a change-set: `op` is `+` for lines put in and `-` for
/// lines taken out, `value` holds the lines, and `index` is the number of
/// lines of the earlier text that stand unchanged in front of them. Where
/// a line is replaced, the line taken out and the line put in have the
/// same `index`.
#[derive(Debug)]
pub struct Diff {
    pub op: String,
    pub value: String,
    pub index: usize,
}

/// What a [`Diff`] holds, as mathematical values.
pub struct DiffView {
    pub op: Seq<char>,
    pub value: Seq<char>,
    pub index: nat,
}

impl View for Diff {
    type V = DiffView;

    open spec fn view(&self) -> DiffView {
        DiffView { op: self.op@, value: self.value@, index: self.index as nat }
    }
}

impl Clone for Diff {
    fn clone(&self) -> (r: Self)
        ensures
            r == *self,
    {
        Diff { op: self.op.clone(), value: self.value.clone(), index: self.index }
    }
}

/// The views of a change-set's entries, in order.
pub open spec fn diff_views(v: Seq<Diff>) -> Seq<DiffView> {
    v.map_values(|d: Diff| d@)
}

/// The line-by-line comparison that the `similar` crate makes of `old`
/// and `new`, with its default algorithm and no deadline.
pub uninterp spec fn line_changes(old: Seq<char>, new: Seq<char>) -> Seq<LineChangeView>;

/// Calls `TextDiff::configure().diff_lines(old, new)` of the `similar`
/// crate and hands out all its changes, in order: of each its tag, and its
/// text as the change prints it (the line, with a line feed added where
/// the line has no line break of its own). The comparison depends on the
/// two texts alone.
#[verifier::external_body]
fn compare_lines(old: &str, new: &str) -> (r: Vec<LineChange>)
    ensures
        change_views(r@) == line_changes(old@, new@),
{
    similar::TextDiff::configure()
        .diff_lines(old, new)
        .iter_all_changes()
        .map(|c| LineChange {
            tag: match c.tag() {
                similar::ChangeTag::Equal => ChangeTag::Equal,
                similar::ChangeTag::Delete => ChangeTag::Delete,
                similar::ChangeTag::Insert => ChangeTag::Insert,
            },
            text: c.to_string(),
        })
        .collect()
}

/// The line number `at`, moved on by `n` lines; it stops at the largest
/// number that an entry can hold.
pub open spec fn advance(at: nat, n: nat) -> nat {
    if at + n > usize::MAX {
        usize::MAX as nat
    } else {
        at + n
    }
}

/// The change-set that the comparison `changes` stands for, when `at`
/// unchanged lines come before it. Only the lines in both texts move the
/// line number on; lines taken out and lines put in do not.
pub open spec fn script(changes: Seq<LineChangeView>, at: nat) -> Seq<DiffView>
    decreases changes.len(),
{
    if changes.len() == 0 {
        Seq::empty()
    } else {
        let c = changes[0];
        let n = split_lines(c.text).len();
        let rest = changes.drop_first();
        match c.tag {
            ChangeTag::Equal => script(rest, advance(at, n)),
            ChangeTag::Delete => seq![DiffView { op: "-"@, value: c.text, index: at }] + script(
                rest,
                at,
            ),
            ChangeTag::Insert => seq![DiffView { op: "+"@, value: c.text, index: at }] + script(
                rest,
                at,
            ),
        }
    }
}

fn step(at: usize, n: usize) -> (r: usize)
    ensures
        r as nat == advance(at as nat, n as nat),
{
    if n > usize::MAX - at {
        usize::MAX
    } else {
        at + n
    }
}

/// The change-set of a comparison.
pub fn changes_to_diff(changes: &Vec<LineChange>) -> (r: Vec<Diff>)
    ensures
        diff_views(r@) == script(change_views(changes@), 0),
{
    let mut out: Vec<Diff> = Vec::new();
    let mut at: usize = 0;
    let mut i: usize = 0;
    proof {
        assert(change_views(changes@).skip(0) =~= change_views(changes@));
        assert(diff_views(out@) + script(change_views(changes@), 0) =~= script(
            change_views(changes@),
            0,
        ));
    }
    while i < changes.len()
        invariant
            i <= changes.len(),
            diff_views(out@) + script(change_views(changes@).skip(i as int), at as nat) == script(
                change_views(changes@),
                0,
            ),
        decreases changes.len() - i,
    {
        let c = &changes[i];
        let ghost rest = change_views(changes@).skip(i as int);
        let ghost before = out@;
        proof {
            assert(rest[0] == c@);
            assert(rest.drop_first() =~= change_views(changes@).skip(i + 1));
        }
        let n = lines(c.text.as_str()).len();
        proof {
            assert(n == split_lines(c.text@).len());
        }
        match c.tag {
            ChangeTag::Equal => {
                at = step(at, n);
            },
            ChangeTag::Delete => {
                out.push(Diff { op: "-".to_owned(), value: c.text.clone(), index: at });
                proof {
                    assert(diff_views(out@) =~= diff_views(before).push(
                        DiffView { op: "-"@, value: c.text@, index: at as nat },
                    ));
                    assert(diff_views(out@) + script(rest.drop_first(), at as nat) =~= diff_views(
                        before,
                    ) + script(rest, at as nat));
                }
            },
            ChangeTag::Insert => {
                out.push(Diff { op: "+".to_owned(), value: c.text.clone(), index: at });
                proof {
                    assert(diff_views(out@) =~= diff_views(before).push(
                        DiffView { op: "+"@, value: c.text@, index: at as nat },
                    ));
                    assert(diff_views(out@) + script(rest.drop_first(), at as nat) =~= diff_views(
                        before,
                    ) + script(rest, at as nat));
                }
            },
        }
        i += 1;
    }
    proof {
        assert(change_views(changes@).skip(changes.len() as int).len() == 0);
        assert(diff_views(out@) + Seq::<DiffView>::empty() =~= diff_views(out@));
    }
    out
}

/// The text `s` with a line feed at its end, if it holds anything and
/// does not end with one: every line of it then has its line ending.
pub open spec fn terminated(s: Seq<char>) -> Seq<char> {
    if s.len() > 0 && s.last() != '\n' {
        s.push('\n')
    } else {
        s
    }
}

/// The text `s` with a line feed at its end, if it holds anything and
/// does not end with one.
pub fn terminate(s: &str) -> (r: String)
    ensures
        r@ == terminated(s@),
{
    let mut chars = chars_of(s);
    let n = chars.len();
    if n > 0 && chars[n - 1] != '\n' {
        chars.push('\n');
    }
    string_of(&chars)
}

/// The change-set that leads from the text `s1` to the text `s2`. Both
/// texts are compared with a line ending after their last line, so that a
/// last line is the same line whether its line ending is written or not.
pub fn create_diff(s1: &str, s2: &str) -> (r: Vec<Diff>)
    ensures
        diff_views(r@) == script(line_changes(terminated(s1@), terminated(s2@)), 0),
{
    let earlier = terminate(s1);
    let later = terminate(s2);
    let changes = compare_lines(earlier.as_str(), later.as_str());
    changes_to_diff(&changes)
}

/// The character for the hexadecimal digit `d`, in lower case.
pub open spec fn hex_digit(d: nat) -> char
    recommends
        d < 16,
{
    if d < 10 {
        crate::text::digit_char(d)
    } else if d == 10 {
        'a'
    } else if d == 11 {
        'b'
    } else if d == 12 {
        'c'
    } else if d == 13 {
        'd'
    } else if d == 14 {
        'e'
    } else {
        'f'
    }
}

/// The character `c` as a JSON string literal holds it: a backslash in
/// front of a double quote and of a backslash; a backslash and a letter
/// for backspace, tab, line feed, form feed and carriage return; `\u00`
/// and two hexadecimal digits for any other character below the blank;
/// every other character as it is.
pub open spec fn escaped(c: char) -> Seq<char> {
    if c == '"' {
        seq!['\\', '"']
    } else if c == '\\' {
        seq!['\\', '\\']
    } else if c == '\u{8}' {
        seq!['\\', 'b']
    } else if c == '\t' {
        seq!['\\', 't']
    } else if c == '\n' {
        seq!['\\', 'n']
    } else if c == '\u{c}' {
        seq!['\\', 'f']
    } else if c == '\r' {
        seq!['\\', 'r']
    } else if (c as u32) < 32 {
        seq![
            '\\',
            'u',
            '0',
            '0',
            hex_digit((c as u32 / 16) as nat),
            hex_digit((c as u32 % 16) as nat),
        ]
    } else {
        seq![c]
    }
}

/// The characters of `s`, each as a JSON string literal holds it.
pub open spec fn escaped_text(s: Seq<char>) -> Seq<char>
    decreases s.len(),
{
    if s.len() == 0 {
        Seq::empty()
    } else {
        escaped_text(s.drop_last()) + escaped(s.last())
    }
}

/// The JSON string literal for the text `s`: the text between double
/// quotes, with its characters escaped.
pub open spec fn json_text(s: Seq<char>) -> Seq<char> {
    seq!['"'] + escaped_text(s) + seq!['"']
}

#[verifier::external_type_specification]
#[verifier::external_body]
pub struct ExJsonError(serde_json::Error);

/// Calls `serde_json::to_string` on a string. It writes the string into
/// a buffer in memory, which takes every string, so it succeeds; the
/// result is the JSON string literal for that text, escaped as the table
/// of `serde_json` has it.
#[verifier::external_body]
fn json_string(s: &str) -> (r: Result<String, serde_json::Error>)
    ensures
        r is Ok,
        r matches Ok(t) ==> t@ == json_text(s@),
{
    serde_json::to_string(s)
}

/// One entry of a change-set as a JSON object.
pub open spec fn record_json(d: DiffView) -> Seq<char> {
    "{\"op\":"@ + json_text(d.op) + ",\"value\":"@ + json_text(d.value) + ",\"index\":"@
        + decimal(d.index) + "}"@
}

/// The entries of a change-set as JSON objects, with a comma between
/// each two.
pub open spec fn records_json(v: Seq<DiffView>) -> Seq<char>
    decreases v.len(),
{
    if v.len() == 0 {
        Seq::empty()
    } else if v.len() == 1 {
        record_json(v[0])
    } else {
        records_json(v.drop_last()) + ","@ + record_json(v.last())
    }
}

/// A change-set as a JSON array of objects, without white space.
pub open spec fn diff_json(v: Seq<DiffView>) -> Seq<char> {
    "["@ + records_json(v) + "]"@
}

fn push_record(out: &mut Vec<char>, d: &Diff) -> (r: Result<(), serde_json::Error>)
    ensures
        r is Ok,
        final(out)@ == old(out)@ + record_json(d@),
{
    let op = match json_string(d.op.as_str()) {
        Ok(t) => t,
        Err(e) => {
            return Err(e);
        },
    };
    let value = match json_string(d.value.as_str()) {
        Ok(t) => t,
        Err(e) => {
            return Err(e);
        },
    };
    frame_record(out, op.as_str(), value.as_str(), d.index);
    Ok(())
}

/// One entry of a change-set as a JSON object, given the JSON string
/// literals `op` and `value` for its two texts, and its line number.
pub open spec fn framed_record(op: Seq<char>, value: Seq<char>, index: nat) -> Seq<char> {
    "{\"op\":"@ + op + ",\"value\":"@ + value + ",\"index\":"@ + decimal(index) + "}"@
}

/// Appends one entry of a change-set to `out` as a JSON object: `op` and
/// `value` are the JSON string literals for its two texts, and go in as
/// they are.
pub fn frame_record(out: &mut Vec<char>, op: &str, value: &str, index: usize)
    ensures
        final(out)@ == old(out)@ + framed_record(op@, value@, index as nat),
{
    push_text(out, "{\"op\":");
    push_text(out, op);
    push_text(out, ",\"value\":");
    push_text(out, value);
    push_text(out, ",\"index\":");
    push_decimal(out, index as u64);
    push_text(out, "}");
    proof {
        assert(out@ =~= old(out)@ + framed_record(op@, value@, index as nat));
    }
}

fn encode(v: &Vec<Diff>) -> (r: Result<String, serde_json::Error>)
    ensures
        r matches Ok(j) && j@ == diff_json(diff_views(v@)),
{
    let mut out: Vec<char> = Vec::new();
    push_text(&mut out, "[");
    let mut i: usize = 0;
    while i < v.len()
        invariant
            i <= v.len(),
            out@ == "["@ + records_json(diff_views(v@).take(i as int)),
        decreases v.len() - i,
    {
        let ghost done = diff_views(v@).take(i as int);
        let ghost next = diff_views(v@).take(i + 1);
        let ghost before = out@;
        proof {
            assert(next.drop_last() =~= done);
            assert(next.last() == v@[i as int]@);
        }
        if i > 0 {
            push_text(&mut out, ",");
        }
        match push_record(&mut out, &v[i]) {
            Ok(()) => {},
            Err(e) => {
                return Err(e);
            },
        }
        proof {
            if i > 0 {
                assert(out@ =~= "["@ + (records_json(done) + ","@ + record_json(v@[i as int]@)));
            } else {
                assert(done.len() == 0);
                assert(out@ =~= "["@ + record_json(v@[i as int]@));
            }
        }
        i += 1;
    }
    push_text(&mut out, "]");
    proof {
        assert(diff_views(v@).take(v.len() as int) =~= diff_views(v@));
    }
    Ok(string_of(&out))
}

/// Writes a change-set as JSON. Every change-set is written.
pub fn serialize(v: Vec<Diff>) -> (r: Result<String, StoreError>)
    ensures
        r matches Ok(j) && j@ == diff_json(diff_views(v@)),
{
    match encode(&v) {
        Ok(j) => Ok(j),
        Err(_) => Err(StoreError::SerializationFailure),
    }
}

/// The change-set that leads from `s1` to `s2`, as JSON.
pub fn get_diff_json(s1: &str, s2: &str) -> (r: String)
    ensures
        r@ == diff_json(script(line_changes(terminated(s1@), terminated(s2@)), 0)),
{
    let diff = create_diff(s1, s2);
    match encode(&diff) {
        Ok(x) => x,
        Err(_) => "Error: serialization failed".to_owned(),
    }
}

/// The lines `lines` before the entry `d` was applied, where the lines
/// of `d` stand at the place `place`: lines that `d` put in are taken out
/// again, lines that it took out are put back. An entry that does not fit
/// the lines, or whose `op` is neither `+` nor `-`, changes nothing.
pub open spec fn undo(lines: Seq<Seq<char>>, d: DiffView, place: nat) -> Seq<Seq<char>> {
    if d.op == "+"@ {
        let n = split_lines(d.value).len();
        if place + n <= lines.len() {
            lines.take(place as int) + lines.skip((place + n) as int)
        } else {
            lines
        }
    } else if d.op == "-"@ {
        if place <= lines.len() {
            lines.take(place as int) + split_lines(d.value) + lines.skip(place as int)
        } else {
            lines
        }
    } else {
        lines
    }
}

/// The number of lines that the entry `d` put in.
pub open spec fn put_in(d: DiffView) -> nat {
    if d.op == "+"@ {
        split_lines(d.value).len()
    } else {
        0
    }
}

/// The number of lines that the entries of `v` put in.
pub open spec fn all_put_in(v: Seq<DiffView>) -> nat
    decreases v.len(),
{
    if v.len() == 0 {
        0
    } else {
        all_put_in(v.drop_last()) + put_in(v.last())
    }
}

/// The lines `lines` before the entries of `v` were applied, where
/// `ahead` lines that were put in stand in front of them all. The entries
/// are undone from the last to the first. While an entry is undone, the
/// lines that the entries before it put in still stand in the text in
/// front of it, so its place is its line number moved on by the number of
/// those lines.
pub open spec fn undo_from(lines: Seq<Seq<char>>, v: Seq<DiffView>, ahead: nat) -> Seq<Seq<char>>
    decreases v.len(),
{
    if v.len() == 0 {
        lines
    } else {
        undo_from(
            undo(lines, v.last(), v.last().index + ahead + all_put_in(v.drop_last())),
            v.drop_last(),
            ahead,
        )
    }
}

/// The lines `lines` before the entries of `v` were applied: the entries
/// are undone from the last to the first, each at its line number moved
/// on by the number of lines that the entries before it put in.
pub open spec fn undo_all(lines: Seq<Seq<char>>, v: Seq<DiffView>) -> Seq<Seq<char>> {
    undo_from(lines, v, 0)
}

/// The lines of the earlier text of the comparison `changes`: those in
/// both texts and those taken out, in order.
pub open spec fn earlier_lines(changes: Seq<LineChangeView>) -> Seq<Seq<char>>
    decreases changes.len(),
{
    if changes.len() == 0 {
        Seq::empty()
    } else if changes[0].tag == ChangeTag::Insert {
        earlier_lines(changes.drop_first())
    } else {
        split_lines(changes[0].text) + earlier_lines(changes.drop_first())
    }
}

/// The lines of the later text of the comparison `changes`: those in
/// both texts and those put in, in order.
pub open spec fn later_lines(changes: Seq<LineChangeView>) -> Seq<Seq<char>>
    decreases changes.len(),
{
    if changes.len() == 0 {
        Seq::empty()
    } else if changes[0].tag == ChangeTag::Delete {
        later_lines(changes.drop_first())
    } else {
        split_lines(changes[0].text) + later_lines(changes.drop_first())
    }
}

fn copy_range(out: &mut Vec<String>, src: &Vec<String>, from: usize, to: usize)
    requires
        from <= to <= src.len(),
    ensures
        final(out)@ == old(out)@ + src@.subrange(from as int, to as int),
{
    let mut i: usize = from;
    proof {
        assert(out@ =~= old(out)@ + src@.subrange(from as int, from as int));
    }
    while i < to
        invariant
            from <= i <= to <= src.len(),
            out@ == old(out)@ + src@.subrange(from as int, i as int),
        decreases to - i,
    {
        out.push(src[i].clone());
        proof {
            assert(out@ =~= old(out)@ + src@.subrange(from as int, i + 1));
        }
        i += 1;
    }
}

/// Whether `count` holds the number `n`: the number itself, or nothing
/// where the number is too large to hold.
pub open spec fn holds(count: Option<usize>, n: nat) -> bool {
    match count {
        Some(c) => c as nat == n,
        None => n > usize::MAX,
    }
}

fn count_on(count: Option<usize>, n: usize, Ghost(before): Ghost<nat>) -> (r: Option<usize>)
    requires
        holds(count, before),
    ensures
        holds(r, before + n as nat),
{
    match count {
        Some(c) => if n > usize::MAX - c {
            None
        } else {
            Some(c + n)
        },
        None => None,
    }
}

fn undo_one(current: Vec<String>, d: &Diff, shift: Option<usize>, Ghost(ahead): Ghost<nat>) -> (r:
    Vec<String>)
    requires
        holds(shift, ahead),
    ensures
        text_views(r@) == undo(text_views(current@), d@, d.index as nat + ahead),
{
    let len = current.len();
    let place = match count_on(shift, d.index, Ghost(ahead)) {
        Some(p) => p,
        None => {
            return current;
        },
    };
    if same_text(d.op.as_str(), "+") {
        let n = lines(d.value.as_str()).len();
        if place <= len && n <= len - place {
            let mut out: Vec<String> = Vec::new();
            copy_range(&mut out, &current, 0, place);
            copy_range(&mut out, &current, place + n, len);
            proof {
                assert(text_views(out@) =~= text_views(current@).take(place as int) + text_views(
                    current@,
                ).skip(place + n));
            }
            out
        } else {
            current
        }
    } else if same_text(d.op.as_str(), "-") {
        if place <= len {
            let back = lines(d.value.as_str());
            let mut out: Vec<String> = Vec::new();
            copy_range(&mut out, &current, 0, place);
            copy_range(&mut out, &back, 0, back.len());
            copy_range(&mut out, &current, place, len);
            proof {
                assert(text_views(out@) =~= text_views(current@).take(place as int)
                    + split_lines(d.value@) + text_views(current@).skip(place as int));
            }
            out
        } else {
            current
        }
    } else {
        current
    }
}

/// The text that the change-set `v` was made from, given the text `s1`
/// that it led to: the entries of `v` are undone from the last to the
/// first. The lines of the result have a line feed between each two.
pub fn restore_from_diff(s1: &str, v: &Vec<Diff>) -> (r: String)
    ensures
        r@ == join_lines(undo_all(split_lines(s1@), diff_views(v@))),
{
    let ghost views = diff_views(v@);
    let mut shifts: Vec<Option<usize>> = Vec::new();
    let mut total: Option<usize> = Some(0);
    let mut k: usize = 0;
    while k < v.len()
        invariant
            k <= v.len(),
            views == diff_views(v@),
            shifts.len() == k,
            holds(total, all_put_in(views.take(k as int))),
            forall|j: int|
                0 <= j < k ==> holds(#[trigger] shifts@[j], all_put_in(views.take(j))),
        decreases v.len() - k,
    {
        let ghost so_far = all_put_in(views.take(k as int));
        proof {
            assert(views.take(k + 1).drop_last() =~= views.take(k as int));
            assert(views.take(k + 1).last() == v@[k as int]@);
        }
        shifts.push(total);
        if same_text(v[k].op.as_str(), "+") {
            let n = lines(v[k].value.as_str()).len();
            total = count_on(total, n, Ghost(so_far));
        }
        k += 1;
    }
    let mut current = lines(s1);
    let mut i: usize = v.len();
    proof {
        assert(views.take(v.len() as int) =~= views);
    }
    while i > 0
        invariant
            i <= v.len(),
            views == diff_views(v@),
            shifts.len() == v.len(),
            forall|j: int|
                0 <= j < v.len() ==> holds(#[trigger] shifts@[j], all_put_in(views.take(j))),
            undo_from(text_views(current@), views.take(i as int), 0) == undo_from(
                split_lines(s1@),
                views,
                0,
            ),
        decreases i,
    {
        let ghost upto = views.take(i as int);
        proof {
            assert(upto.last() == v@[i - 1]@);
            assert(upto.drop_last() =~= views.take(i - 1));
        }
        current = undo_one(
            current,
            &v[i - 1],
            shifts[i - 1],
            Ghost(all_put_in(views.take(i - 1))),
        );
        i -= 1;
    }
    join(&current)
}

} // verus!
