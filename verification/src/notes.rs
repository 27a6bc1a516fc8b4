use vstd::prelude::*;

use crate::srd::{chunk_markdown, chunk_view, markdown_chunks, SrdChunk};
use crate::text::{
    chars_of, contains_chars, contains_seq, eq_ignoring_ascii_case, equals_ignoring_ascii_case,
    string_of, trim, trim_range, utf8_len, utf8_longer_than,
};

verus! {

/// The largest note accepted, in bytes of UTF-8.
pub const MAX_NOTE_BYTES: usize = 262144;

/// The longest note title accepted, in characters.
pub const MAX_TITLE_CHARS: usize = 120;

/// A campaign note to index.
#[derive(Debug, Clone)]
pub struct CreateNote {
    pub title: String,
    pub filename: String,
    pub content: String,
}

/// An indexed campaign note.
#[derive(Debug, Clone)]
pub struct NoteSummary {
    pub id: i64,
    pub title: String,
    pub filename: String,
    pub chunk_count: i64,
    pub created_at: String,
}

/// Why a note could not be indexed, read or deleted.
#[derive(Debug, Clone, Copy, PartialEq, Eq, Structural)]
pub enum NoteError {
    InvalidTitle,
    InvalidFileType,
    InvalidContent,
    Duplicate,
    NotFound,
    Unavailable,
}

pub open spec fn note_error_message(e: NoteError) -> Seq<char> {
    match e {
        NoteError::InvalidTitle => "note title must be between 1 and 120 characters"@,
        NoteError::InvalidFileType => "only .md, .markdown, and .txt notes are supported"@,
        NoteError::InvalidContent => "note must contain text and be no larger than 256 KiB"@,
        NoteError::Duplicate => "a note with this filename already exists"@,
        NoteError::NotFound => "campaign note was not found"@,
        NoteError::Unavailable => "campaign-note storage is unavailable"@,
    }
}

impl NoteError {
    /// The message shown for the error.
    pub fn message(&self) -> (r: &'static str)
        ensures
            r@ == note_error_message(*self),
    {
        match self {
            NoteError::InvalidTitle => "note title must be between 1 and 120 characters",
            NoteError::InvalidFileType => "only .md, .markdown, and .txt notes are supported",
            NoteError::InvalidContent => "note must contain text and be no larger than 256 KiB",
            NoteError::Duplicate => "a note with this filename already exists",
            NoteError::NotFound => "campaign note was not found",
            NoteError::Unavailable => "campaign-note storage is unavailable",
        }
    }

    /// The HTTP status of the error: 404 when missing, 409 for a duplicate, 503
    /// when storage is down, 400 for a refused note.
    pub fn status_code(&self) -> (r: u16)
        ensures
            r == match *self {
                NoteError::NotFound => 404u16,
                NoteError::Duplicate => 409u16,
                NoteError::Unavailable => 503u16,
                _ => 400u16,
            },
    {
        match self {
            NoteError::NotFound => 404,
            NoteError::Duplicate => 409,
            NoteError::Unavailable => 503,
            _ => 400,
        }
    }
}

/// A file name with no directory part: not empty, no `/`, and neither `.` nor `..`.
pub open spec fn plain_file_name(f: Seq<char>) -> bool {
    &&& f.len() > 0
    &&& !f.contains('/')
    &&& f != "."@
    &&& f != ".."@
}

/// The last position of `c` in `s` before `k`, or -1.
pub open spec fn last_index_of(s: Seq<char>, c: char, k: int) -> int
    decreases k,
{
    if k <= 0 {
        -1
    } else if s[k - 1] == c {
        k - 1
    } else {
        last_index_of(s, c, k - 1)
    }
}

/// The extension of a file name: what follows its last `.`, when something
/// precedes that `.`.
pub open spec fn extension_of(f: Seq<char>) -> Option<Seq<char>> {
    let i = last_index_of(f, '.', f.len() as int);
    if f == ".."@ || i < 1 {
        None
    } else {
        Some(f.skip(i + 1))
    }
}

/// A note's extension is `md`, `markdown` or `txt`, in any ASCII case.
pub open spec fn accepted_extension(f: Seq<char>) -> bool {
    match extension_of(f) {
        Some(e) => eq_ignoring_ascii_case(e, "md"@) || eq_ignoring_ascii_case(e, "markdown"@)
            || eq_ignoring_ascii_case(e, "txt"@),
        None => false,
    }
}

/// A note ready to be stored: trimmed title and file name, and its passages.
#[derive(Debug, Clone)]
pub struct PreparedNote {
    pub title: String,
    pub filename: String,
    pub chunks: Vec<SrdChunk>,
}

/// The outcome of checking a note, as [`prepare_note`] decides it.
pub open spec fn note_check(title: Seq<char>, filename: Seq<char>, content: Seq<char>) -> Result<
    (),
    NoteError,
> {
    let t = trim(title);
    let f = trim(filename);
    let c = trim(content);
    if t.len() == 0 || t.len() > MAX_TITLE_CHARS {
        Err(NoteError::InvalidTitle)
    } else if !plain_file_name(f) || !accepted_extension(f) {
        Err(NoteError::InvalidFileType)
    } else if c.len() == 0 || utf8_len(content) > MAX_NOTE_BYTES {
        Err(NoteError::InvalidContent)
    } else if markdown_chunks(c, f).len() == 0 {
        Err(NoteError::InvalidContent)
    } else {
        Ok(())
    }
}

fn has_char(v: &Vec<char>, c: char) -> (b: bool)
    ensures
        b == v@.contains(c),
{
    let mut i: usize = 0;
    while i < v.len()
        invariant
            i <= v.len(),
            forall|k: int| 0 <= k < i ==> v@[k] != c,
        decreases v.len() - i,
    {
        if v[i] == c {
            assert(v@[i as int] == c);
            return true;
        }
        i = i + 1;
    }
    false
}

fn is_plain_file_name(f: &Vec<char>) -> (b: bool)
    ensures
        b == plain_file_name(f@),
{
    proof {
        reveal_strlit(".");
        reveal_strlit("..");
    }
    if f.len() == 0 || has_char(f, '/') {
        return false;
    }
    let one_dot = f.len() == 1 && f[0] == '.';
    let two_dots = f.len() == 2 && f[0] == '.' && f[1] == '.';
    proof {
        if f@ == "."@ {
            assert(f@[0] == '.');
        }
        if f@ == ".."@ {
            assert(f@[0] == '.' && f@[1] == '.');
        }
        if one_dot {
            assert(f@ =~= "."@);
        }
        if two_dots {
            assert(f@ =~= ".."@);
        }
    }
    !one_dot && !two_dots
}

fn has_accepted_extension(f: &Vec<char>) -> (b: bool)
    ensures
        b == accepted_extension(f@),
{
    proof {
        reveal_strlit("..");
    }
    let mut k = f.len();
    while k > 0 && f[k - 1] != '.'
        invariant
            k <= f.len(),
            last_index_of(f@, '.', k as int) == last_index_of(f@, '.', f.len() as int),
        decreases k,
    {
        k = k - 1;
    }
    let two_dots = f.len() == 2 && f[0] == '.' && f[1] == '.';
    proof {
        if f@ == ".."@ {
            assert(f@[0] == '.' && f@[1] == '.');
        }
        if two_dots {
            assert(f@ =~= ".."@);
        }
    }
    if two_dots || k < 2 {
        return false;
    }
    let ext = crate::text::copy_range(f, k, f.len());
    assert(ext@ =~= f@.skip(k as int));
    equals_ignoring_ascii_case(&ext, &chars_of("md")) || equals_ignoring_ascii_case(
        &ext,
        &chars_of("markdown"),
    ) || equals_ignoring_ascii_case(&ext, &chars_of("txt"))
}

/// Checks a note before it is stored: a title of one to 120 characters once
/// trimmed, a plain file name ending in `.md`, `.markdown` or `.txt`, and text
/// that is not blank, at most 256 KiB, and yields at least one passage. The
/// passages are those of the trimmed text, located in the trimmed file name.
pub fn prepare_note(request: &CreateNote) -> (r: Result<PreparedNote, NoteError>)
    ensures
        match note_check(request.title@, request.filename@, request.content@) {
            Err(e) => r == Err::<PreparedNote, NoteError>(e),
            Ok(_) => r matches Ok(n) && {
                &&& n.title@ == trim(request.title@)
                &&& n.filename@ == trim(request.filename@)
                &&& n.chunks@.map_values(|c: SrdChunk| chunk_view(c)) == markdown_chunks(
                    trim(request.content@),
                    trim(request.filename@),
                )
                &&& forall|i: int| 0 <= i < n.chunks@.len() ==> (#[trigger] n.chunks@[i]).ordinal == i
            },
        },
{
    let tv = chars_of(request.title.as_str());
    let (ta, tb) = trim_range(&tv, 0, tv.len());
    assert(tv@.subrange(0, tv.len() as int) =~= tv@);
    if ta == tb || tb - ta > MAX_TITLE_CHARS {
        return Err(NoteError::InvalidTitle);
    }
    let fv = chars_of(request.filename.as_str());
    let (fa, fb) = trim_range(&fv, 0, fv.len());
    assert(fv@.subrange(0, fv.len() as int) =~= fv@);
    let name = crate::text::copy_range(&fv, fa, fb);
    if !is_plain_file_name(&name) || !has_accepted_extension(&name) {
        return Err(NoteError::InvalidFileType);
    }
    let cv = chars_of(request.content.as_str());
    let (ca, cb) = trim_range(&cv, 0, cv.len());
    assert(cv@.subrange(0, cv.len() as int) =~= cv@);
    if ca == cb || utf8_longer_than(&cv, MAX_NOTE_BYTES) {
        return Err(NoteError::InvalidContent);
    }
    let content = string_of(&cv, ca, cb);
    let filename = string_of(&fv, fa, fb);
    let chunks = chunk_markdown(content.as_str(), filename.as_str());
    if chunks.len() == 0 {
        return Err(NoteError::InvalidContent);
    }
    Ok(PreparedNote { title: string_of(&tv, ta, tb), filename, chunks })
}

/// The error of a failed insert: a broken uniqueness constraint means the file
/// name is taken; anything else means storage is unavailable.
pub fn insert_failure(message: &str) -> (r: NoteError)
    ensures
        r == (if contains_seq(message@, "UNIQUE constraint failed"@) {
            NoteError::Duplicate
        } else {
            NoteError::Unavailable
        }),
{
    if contains_chars(&chars_of(message), &chars_of("UNIQUE constraint failed")) {
        NoteError::Duplicate
    } else {
        NoteError::Unavailable
    }
}

/// A delete that removed no note means the note was not found.
pub fn deletion_outcome(rows_affected: u64) -> (r: Result<(), NoteError>)
    ensures
        r is Ok <==> rows_affected > 0,
        r matches Err(e) ==> e == NoteError::NotFound,
{
    if rows_affected == 0 {
        Err(NoteError::NotFound)
    } else {
        Ok(())
    }
}

} // verus!
