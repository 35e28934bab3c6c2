//! Notes found under a directory the user chose: what a walk through the
//! tree below it gives as notes, and what of a file's content is its body.
//! Walking and reading are the caller's; the scan takes what the walk saw.

use crate::text::{
    char_is_whitespace, from_chars, is_whitespace, to_chars, trim_start, trimmed_start,
};
use std::path::PathBuf;
use vstd::prelude::*;
use vstd::slice::slice_subrange;

verus! {

/// `std::path::PathBuf`, an owned file-system path. Nothing inside it is
/// visible to proofs; the library carries paths through unchanged.
#[verifier::external_type_specification]
#[verifier::external_body]
pub struct ExPathBuf(PathBuf);

/// `std::io::Error`, what a failed read reports. Carried through unchanged.
#[verifier::external_type_specification]
#[verifier::external_body]
pub struct ExIoError(std::io::Error);

/// `PathBuf::clone` returns a path equal to the one cloned.
pub assume_specification[ <PathBuf as Clone>::clone ](path: &PathBuf) -> (copy: PathBuf)
    ensures
        copy == *path,
;

/// A note file: its path, its content, and the content without a leading
/// metadata block.
#[derive(Debug)]
pub struct Note {
    pub path: PathBuf,
    /// The file's content as read.
    pub raw: String,
    /// The content without the metadata block.
    pub body: String,
}

impl Clone for Note {
    fn clone(&self) -> (copy: Self)
        ensures
            copy == *self,
    {
        Note { path: self.path.clone(), raw: self.raw.clone(), body: self.body.clone() }
    }
}

/// What a note holds, its texts as sequences of characters.
pub struct NoteView {
    pub path: PathBuf,
    pub raw: Seq<char>,
    pub body: Seq<char>,
}

impl View for Note {
    type V = NoteView;

    open spec fn view(&self) -> NoteView {
        NoteView { path: self.path, raw: self.raw@, body: self.body@ }
    }
}

/// Why a scan failed.
#[derive(Debug)]
pub enum ScanError {
    /// The root of the scan is not a directory.
    NotADirectory(PathBuf),
    /// The walk through the directory failed; the message says how.
    Walk(String),
    /// A note file could not be read as text.
    Read(PathBuf, std::io::Error),
}

/// What a walk reports of one entry.
#[derive(Debug)]
pub struct WalkEntry {
    pub path: PathBuf,
    /// The last component of the path, with what is not Unicode in it
    /// replaced.
    pub name: String,
    /// How far below the root the entry lies: 0 for the root itself, 1 for
    /// what stands in it, and so on.
    pub depth: usize,
    /// Whether the path leads to a regular file.
    pub is_file: bool,
}

/// One step of a walk through a directory tree. A walk lists a directory
/// before what stands in it.
#[derive(Debug)]
pub enum Seen {
    /// The walk failed here; the message says how.
    Failed(String),
    /// An entry that was not read.
    Entry(WalkEntry),
    /// An entry with what reading it as text gave.
    File(WalkEntry, Result<String, std::io::Error>),
}

/// What each of `notes` holds.
pub open spec fn note_views(notes: Seq<Note>) -> Seq<NoteView> {
    notes.map_values(|note: Note| note@)
}

/// Whether nothing but white space stands between position `from` and the
/// end of its line.
pub open spec fn blank_to_line_end(s: Seq<char>, from: int) -> bool
    decreases s.len() - from,
{
    if from < 0 || from >= s.len() {
        true
    } else if s[from] == '\n' {
        true
    } else if is_whitespace(s[from]) {
        blank_to_line_end(s, from + 1)
    } else {
        false
    }
}

/// Whether a delimiter line starts at position `at`: `at` is the start of a
/// line, and the line holds three hyphens and then nothing but white space.
pub open spec fn delimiter_at(s: Seq<char>, at: int) -> bool {
    &&& 0 <= at
    &&& at + 3 <= s.len()
    &&& at == 0 || s[at - 1] == '\n'
    &&& s[at] == '-'
    &&& s[at + 1] == '-'
    &&& s[at + 2] == '-'
    &&& blank_to_line_end(s, at + 3)
}

/// The start of the first delimiter line at or behind position `from`, or
/// the length of `s` where there is none.
pub open spec fn next_delimiter(s: Seq<char>, from: int) -> int
    decreases s.len() - from,
{
    if from < 0 || from + 3 > s.len() {
        s.len() as int
    } else if delimiter_at(s, from) {
        from
    } else {
        next_delimiter(s, from + 1)
    }
}

/// The body of a note with the given content.
///
/// Where the content, leading white space aside, begins with a delimiter
/// line and holds another one further down, the body is what follows the
/// second, without leading white space. Otherwise there is no metadata
/// block, or none that ends, and the body is the content as it stands.
pub open spec fn body_of(content: Seq<char>) -> Seq<char> {
    let s = trimmed_start(content);
    let close = next_delimiter(s, 3);
    if delimiter_at(s, 0) && close < s.len() {
        trimmed_start(s.skip(close + 3))
    } else {
        content
    }
}

/// Whether an entry with this name is hidden: the name begins with a dot.
pub open spec fn is_hidden_name(name: Seq<char>) -> bool {
    name.len() > 0 && name[0] == '.'
}

/// Whether a file with this name has the extension `md`: the name ends with
/// `.md`, and something stands before that.
pub open spec fn has_markdown_extension(name: Seq<char>) -> bool {
    &&& name.len() > 3
    &&& name[name.len() - 3] == '.'
    &&& name[name.len() - 2] == 'm'
    &&& name[name.len() - 1] == 'd'
}

/// Whether the entry is hidden: it lies below the root, and its name begins
/// with a dot.
pub open spec fn is_hidden_entry(entry: WalkEntry) -> bool {
    entry.depth > 0 && is_hidden_name(entry.name@)
}

/// Whether the entry is a note file: a regular file that is not hidden and
/// has the extension `md`.
pub open spec fn is_note_file(entry: WalkEntry) -> bool {
    entry.is_file && !is_hidden_entry(entry) && has_markdown_extension(entry.name@)
}

/// Whether an entry at `depth` lies below the hidden directory that the walk
/// is in, if it is in one: `hidden` is the depth of that directory.
pub open spec fn is_below(hidden: Option<nat>, depth: nat) -> bool {
    hidden matches Some(above) && depth > above
}

/// The hidden directory that the walk is in once it has passed `seen`: the
/// one it was in, where `seen` lies below it; else `seen` itself, where it is
/// hidden; else none.
pub open spec fn hidden_next(hidden: Option<nat>, seen: Seen) -> Option<nat> {
    match seen {
        Seen::Failed(_) => hidden,
        Seen::Entry(entry) | Seen::File(entry, _) => if is_below(hidden, entry.depth as nat) {
            hidden
        } else if is_hidden_entry(entry) {
            Some(entry.depth as nat)
        } else {
            None
        },
    }
}

/// The hidden directory that the walk is in when it comes to step `at`.
pub open spec fn hidden_at(listing: Seq<Seen>, at: nat) -> Option<nat>
    decreases at,
{
    if at == 0 {
        None
    } else {
        hidden_next(hidden_at(listing, (at - 1) as nat), listing[at - 1])
    }
}

/// The notes after one more step of the walk, or the failure that ends the
/// scan there.
///
/// A failure of the walk ends the scan. An entry that was read counts where
/// it is a note file and does not lie below a hidden directory: its content
/// becomes a note, behind the notes found before, and a failed read ends the
/// scan with the path and the error. Nothing else changes the notes.
pub open spec fn scan_step(notes: Seq<NoteView>, hidden: Option<nat>, seen: Seen) -> Result<
    Seq<NoteView>,
    ScanError,
> {
    match seen {
        Seen::Failed(message) => Err(ScanError::Walk(message)),
        Seen::Entry(_) => Ok(notes),
        Seen::File(entry, content) => if is_note_file(entry) && !is_below(
            hidden,
            entry.depth as nat,
        ) {
            match content {
                Ok(raw) => Ok(
                    notes.push(NoteView { path: entry.path, raw: raw@, body: body_of(raw@) }),
                ),
                Err(error) => Err(ScanError::Read(entry.path, error)),
            }
        } else {
            Ok(notes)
        },
    }
}

/// The notes that the first `steps` steps of a walk give, in the order of the
/// walk, or the first failure among them.
pub open spec fn scanned(listing: Seq<Seen>, steps: nat) -> Result<Seq<NoteView>, ScanError>
    decreases steps,
{
    if steps == 0 {
        Ok(Seq::empty())
    } else {
        match scanned(listing, (steps - 1) as nat) {
            Ok(notes) => scan_step(
                notes,
                hidden_at(listing, (steps - 1) as nat),
                listing[steps - 1],
            ),
            Err(error) => Err(error),
        }
    }
}

/// What a scan below `root` gives: a failure where `root` is no directory,
/// else what the walk gives.
pub open spec fn scan_outcome(root: PathBuf, root_is_dir: bool, listing: Seq<Seen>) -> Result<
    Seq<NoteView>,
    ScanError,
> {
    if root_is_dir {
        scanned(listing, listing.len())
    } else {
        Err(ScanError::NotADirectory(root))
    }
}

/// Whether step `at` of the walk is a hidden entry.
pub open spec fn is_hidden_step(listing: Seq<Seen>, at: int) -> bool {
    listing[at] !is Failed && is_hidden_entry(seen_entry(listing[at]))
}

/// Whether step `at` of the walk is an entry that lies deeper than the entry
/// of step `above`.
pub open spec fn is_deeper(listing: Seq<Seen>, above: int, at: int) -> bool {
    listing[at] !is Failed && seen_entry(listing[at]).depth > seen_entry(listing[above]).depth
}

/// Whether step `at` of the walk lies below the hidden entry of step
/// `above`: that entry was listed before, and all that was listed since,
/// step `at` included, lies deeper than it.
pub open spec fn is_shadowed_by(listing: Seq<Seen>, above: int, at: int) -> bool {
    &&& 0 <= above < at
    &&& is_hidden_step(listing, above)
    &&& forall|between: int| above < between <= at ==> #[trigger] is_deeper(listing, above, between)
}

/// Whether step `at` of the walk is an entry that lies below a hidden
/// directory.
pub open spec fn lies_below_hidden(listing: Seq<Seen>, at: int) -> bool {
    exists|above: int| #[trigger] is_shadowed_by(listing, above, at)
}

/// The entry of a step of the walk that did not fail.
pub open spec fn seen_entry(seen: Seen) -> WalkEntry
    recommends
        seen !is Failed,
{
    match seen {
        Seen::Entry(entry) => entry,
        Seen::File(entry, _) => entry,
        Seen::Failed(_) => arbitrary(),
    }
}

/// Whether step `at` of the walk is an entry that is no note: a directory
/// or other thing that is no regular file, a file without the extension
/// `md`, a hidden entry, or an entry below a hidden directory.
pub open spec fn is_no_note(listing: Seq<Seen>, at: int) -> bool {
    &&& listing[at] !is Failed
    &&& {
        ||| !is_note_file(seen_entry(listing[at]))
        ||| lies_below_hidden(listing, at)
    }
}

/// A depth as a mathematical number.
pub open spec fn depth_of(hidden: Option<usize>) -> Option<nat> {
    match hidden {
        Some(depth) => Some(depth as nat),
        None => None,
    }
}

/// A scan that has failed stays failed: the first failure is the outcome.
pub proof fn lemma_scan_fails(listing: Seq<Seen>, failed: nat, steps: nat)
    requires
        failed <= steps,
        scanned(listing, failed) is Err,
    ensures
        scanned(listing, steps) == scanned(listing, failed),
    decreases steps,
{
    if failed < steps {
        lemma_scan_fails(listing, failed, (steps - 1) as nat);
    }
}

/// Behind a hidden entry, as long as all that is listed lies deeper than it,
/// the walk is in a hidden directory that lies no deeper than that entry.
pub proof fn lemma_hidden_shadow(listing: Seq<Seen>, above: int, at: int)
    requires
        0 <= above < at <= listing.len(),
        is_hidden_step(listing, above),
        forall|between: int| above < between < at ==> #[trigger] is_deeper(listing, above, between),
    ensures
        hidden_at(listing, at as nat) matches Some(depth) && depth <= seen_entry(
            listing[above],
        ).depth,
    decreases at - above,
{
    if at > above + 1 {
        lemma_hidden_shadow(listing, above, at - 1);
        assert(is_deeper(listing, above, at - 1));
    }
}

/// A tree without notes scans empty: where the walk does not fail, and every
/// entry it lists is a directory, a file without the extension `md`, a
/// hidden entry, or an entry below a hidden directory, the scan finds no
/// note.
pub proof fn lemma_scan_without_notes(root: PathBuf, listing: Seq<Seen>)
    requires
        forall|at: int| 0 <= at < listing.len() ==> is_no_note(listing, at),
    ensures
        scan_outcome(root, true, listing) == Ok::<Seq<NoteView>, ScanError>(Seq::empty()),
{
    lemma_scan_prefix_without_notes(listing, listing.len());
}

/// The first `steps` steps of a walk that lists no note give no note.
proof fn lemma_scan_prefix_without_notes(listing: Seq<Seen>, steps: nat)
    requires
        steps <= listing.len(),
        forall|at: int| 0 <= at < listing.len() ==> is_no_note(listing, at),
    ensures
        scanned(listing, steps) == Ok::<Seq<NoteView>, ScanError>(Seq::empty()),
    decreases steps,
{
    if steps > 0 {
        let at = (steps - 1) as int;
        lemma_scan_prefix_without_notes(listing, (steps - 1) as nat);
        assert(is_no_note(listing, at));
        let entry = seen_entry(listing[at]);
        if is_note_file(entry) {
            assert(lies_below_hidden(listing, at));
            let above = choose|above: int| #[trigger] is_shadowed_by(listing, above, at);
            lemma_hidden_shadow(listing, above, at);
            assert(is_deeper(listing, above, at));
        }
    }
}

/// `next_delimiter(s, from)` is the least start of a delimiter line from
/// `from` on, or the length of `s` exactly where no delimiter line follows.
pub proof fn lemma_next_delimiter(s: Seq<char>, from: int)
    requires
        0 <= from,
    ensures
        from <= next_delimiter(s, from) || next_delimiter(s, from) == s.len(),
        next_delimiter(s, from) <= s.len(),
        next_delimiter(s, from) < s.len() ==> delimiter_at(s, next_delimiter(s, from)),
        forall|at: int| from <= at < next_delimiter(s, from) ==> !delimiter_at(s, at),
    decreases s.len() - from,
{
    if from + 3 <= s.len() && !delimiter_at(s, from) {
        lemma_next_delimiter(s, from + 1);
    }
}

/// Tests whether the rest of a line is blank.
fn is_blank_to_line_end(s: &[char], from: usize) -> (blank: bool)
    ensures
        blank == blank_to_line_end(s@, from as int),
{
    let mut i: usize = from;
    while i < s.len()
        invariant
            from <= i,
            blank_to_line_end(s@, from as int) == blank_to_line_end(s@, i as int),
        decreases s.len() - i,
    {
        if s[i] == '\n' {
            return true;
        }
        if !char_is_whitespace(s[i]) {
            return false;
        }
        i += 1;
    }
    true
}

/// Tests whether a delimiter line starts at `at`.
fn is_delimiter_at(s: &[char], at: usize) -> (found: bool)
    ensures
        found == delimiter_at(s@, at as int),
{
    if s.len() < 3 || at > s.len() - 3 {
        return false;
    }
    if at > 0 && s[at - 1] != '\n' {
        return false;
    }
    s[at] == '-' && s[at + 1] == '-' && s[at + 2] == '-' && is_blank_to_line_end(s, at + 3)
}

/// Finds the first delimiter line at or behind `from`.
fn find_delimiter(s: &[char], from: usize) -> (at: usize)
    ensures
        at == next_delimiter(s@, from as int),
{
    let len = s.len();
    let mut i: usize = from;
    while i <= len && len - i >= 3
        invariant
            len == s@.len(),
            from <= i,
            next_delimiter(s@, from as int) == next_delimiter(s@, i as int),
        decreases len - i,
    {
        if is_delimiter_at(s, i) {
            return i;
        }
        i += 1;
    }
    len
}

/// Removes a leading metadata block: the lines between a first delimiter
/// line of three hyphens and the next one, both included. Content without
/// such a block, or with one that never ends, comes back unchanged.
pub fn strip_frontmatter(content: &str) -> (body: String)
    ensures
        body@ == body_of(content@),
{
    let chars = to_chars(content);
    let s = trim_start(chars.as_slice());
    if !is_delimiter_at(s, 0) {
        return content.to_owned();
    }
    let close = find_delimiter(s, 3);
    proof {
        lemma_next_delimiter(s@, 3);
    }
    if close < s.len() {
        from_chars(trim_start(slice_subrange(s, close + 3, s.len())))
    } else {
        content.to_owned()
    }
}

/// Tests whether an entry is hidden. A walk leaves hidden entries out, and
/// with a hidden directory all that lies below it.
pub fn is_hidden(name: &str) -> (hidden: bool)
    ensures
        hidden == is_hidden_name(name@),
{
    let chars = to_chars(name);
    chars.len() > 0 && chars[0] == '.'
}

/// Tests a file name for the extension `md`.
pub fn is_markdown(name: &str) -> (markdown: bool)
    ensures
        markdown == has_markdown_extension(name@),
{
    let chars = to_chars(name);
    let len = chars.len();
    len > 3 && chars[len - 3] == '.' && chars[len - 2] == 'm' && chars[len - 1] == 'd'
}

/// Tests whether a walk leaves an entry out, and with a directory all that
/// lies below it: the entry lies below the root and its name begins with a
/// dot.
pub fn prunes(depth: usize, name: &str) -> (pruned: bool)
    ensures
        pruned == (depth > 0 && is_hidden_name(name@)),
{
    depth > 0 && is_hidden(name)
}

/// Tests whether the scan needs the content of an entry: the entry is a note
/// file.
pub fn wants_content(entry: &WalkEntry) -> (wanted: bool)
    ensures
        wanted == is_note_file(*entry),
{
    entry.is_file && !prunes(entry.depth, entry.name.as_str()) && is_markdown(
        entry.name.as_str(),
    )
}

/// Takes one step of the walk into the scan.
fn scan_one(notes: &mut Vec<Note>, hidden: &mut Option<usize>, seen: Seen) -> (failure: Option<
    ScanError,
>)
    ensures
        match scan_step(note_views(old(notes)@), depth_of(*old(hidden)), seen) {
            Ok(after) => failure is None && note_views(final(notes)@) == after && depth_of(
                *final(hidden),
            ) == hidden_next(depth_of(*old(hidden)), seen),
            Err(error) => failure == Some(error),
        },
{
    let ghost before = notes@;
    match seen {
        Seen::Failed(message) => Some(ScanError::Walk(message)),
        Seen::Entry(entry) => {
            *hidden = next_hidden(*hidden, &entry);
            None
        },
        Seen::File(entry, content) => {
            let below = match *hidden {
                Some(above) => entry.depth > above,
                None => false,
            };
            let wanted = wants_content(&entry) && !below;
            *hidden = next_hidden(*hidden, &entry);
            if wanted {
                match content {
                    Ok(raw) => {
                        let body = strip_frontmatter(raw.as_str());
                        notes.push(Note { path: entry.path, raw, body });
                        assert(note_views(notes@) =~= note_views(before).push(
                            notes@[before.len() as int]@,
                        ));
                        None
                    },
                    Err(error) => Some(ScanError::Read(entry.path, error)),
                }
            } else {
                None
            }
        },
    }
}

/// The hidden directory that the walk is in once it has passed `entry`.
fn next_hidden(hidden: Option<usize>, entry: &WalkEntry) -> (next: Option<usize>)
    ensures
        depth_of(next) == hidden_next(depth_of(hidden), Seen::Entry(*entry)),
{
    let below = match hidden {
        Some(above) => entry.depth > above,
        None => false,
    };
    if below {
        hidden
    } else if prunes(entry.depth, entry.name.as_str()) {
        Some(entry.depth)
    } else {
        None
    }
}

/// Scans the tree below `root` for notes, from what a walk through it saw.
///
/// `listing` holds the steps of the walk in their order, each directory
/// before what stands in it, and every note file that does not lie below a
/// hidden directory with what reading it gave.
/// The scan fails where `root` is no directory, where the walk failed, and
/// where a note file could not be read; the first failure in the order of
/// the walk is the one returned. Otherwise each note file that does not lie
/// below a hidden directory gives a note, in the order of the walk.
pub fn scan_listing(root: PathBuf, root_is_dir: bool, listing: Vec<Seen>) -> (outcome: Result<
    Vec<Note>,
    ScanError,
>)
    requires
        forall|i: int|
            0 <= i < listing@.len() ==> (#[trigger] listing@[i] matches Seen::Entry(entry)
                ==> !is_note_file(entry) || is_below(
                hidden_at(listing@, i as nat),
                entry.depth as nat,
            )),
    ensures
        match scan_outcome(root, root_is_dir, listing@) {
            Ok(notes) => outcome matches Ok(found) && note_views(found@) == notes && found@.len()
                == notes.len(),
            Err(error) => outcome == Err::<Vec<Note>, ScanError>(error),
        },
{
    if !root_is_dir {
        return Err(ScanError::NotADirectory(root));
    }
    let ghost steps = listing@;
    let mut notes: Vec<Note> = Vec::new();
    let mut hidden: Option<usize> = None;
    assert(note_views(notes@) =~= Seq::<NoteView>::empty());
    for seen in it: listing
        invariant
            root_is_dir,
            steps == listing@,
            it.seq() == steps,
            scanned(steps, it.index() as nat) == Ok::<Seq<NoteView>, ScanError>(
                note_views(notes@),
            ),
            depth_of(hidden) == hidden_at(steps, it.index() as nat),
    {
        let ghost at = it.index() as nat;
        assert(seen == steps[at as int]);
        match scan_one(&mut notes, &mut hidden, seen) {
            Some(error) => {
                proof {
                    assert(scanned(steps, at + 1) == Err::<Seq<NoteView>, ScanError>(error));
                    lemma_scan_fails(steps, at + 1, steps.len());
                }
                return Err(error);
            },
            None => {
                assert(scanned(steps, at + 1) == Ok::<Seq<NoteView>, ScanError>(
                    note_views(notes@),
                ));
            },
        }
    }
    Ok(notes)
}

} // verus!
