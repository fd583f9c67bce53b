//! Keeps the recording folders on disk in step with the titles and folders of
//! the application: what to rename or move, and to what name. Disk changes run
//! first; the database follows once the files have moved.
use vstd::prelude::*;
use crate::json;
use crate::json::Member;
use crate::text;
use crate::text::{chars_of, decimal_of, is_digit, same_text, slice_of, string_of, trim};

verus! {

/// Why folders cannot be reorganised now.
pub const BUSY: &'static str = "A transcription is running — try again when it finishes";

/// How many names are tried for a folder.
pub const MAX_NAMES: usize = 20;

/// Length of the time stamp at the end of a folder name.
pub const STAMP_LEN: usize = 16;

/// Refuse to reorganise the disk while audio is being read or written.
pub fn ensure_idle(transcribing: bool) -> (r: Result<(), String>)
    ensures
        r is Err <==> transcribing,
        r matches Err(e) ==> e@ == BUSY@,
{
    if transcribing {
        return Err(BUSY.to_owned());
    }
    Ok(())
}

/// The folder name for a title: its form without forbidden characters, or a
/// default where nothing is left of it.
pub fn sanitized_or_default(sanitized: String) -> (r: String)
    ensures
        r@ == if sanitized@.len() == 0 {
            "Meeting"@
        } else {
            sanitized@
        },
{
    if sanitized.as_str().is_empty() {
        "Meeting".to_owned()
    } else {
        sanitized
    }
}

// ---------------------------------------------------------------------
// Free names

/// The `k`-th name to try: the name itself, then with a number behind it.
pub open spec fn nth_name(name: Seq<char>, k: int) -> Seq<char> {
    if k == 0 {
        name
    } else {
        name + " ("@ + text::decimal((k + 1) as nat) + ")"@
    }
}

/// The `k`-th name to try: the name itself, then with a number behind it.
pub fn candidate_name(name: &str, k: usize) -> (r: String)
    requires
        k < MAX_NAMES,
    ensures
        r@ == nth_name(name@, k as int),
{
    if k == 0 {
        return name.to_owned();
    }
    let mut out = String::new();
    out.append(name);
    out.append(" (");
    out.append(decimal_of(k as u64 + 1).as_str());
    out.append(")");
    assert(out@ =~= nth_name(name@, k as int));
    out
}

/// The first free name for a folder in `parent`: `taken` tells, for each name
/// to try, whether it is in use.
pub fn unique_child(parent: &str, name: &str, taken: &[bool]) -> (r: Result<String, String>)
    requires
        taken@.len() == MAX_NAMES,
    ensures
        match r {
            Ok(n) => exists|k: int|
                0 <= k < MAX_NAMES && !(#[trigger] taken@[k]) && n@ == nth_name(name@, k) && (forall|
                    j: int,
                | 0 <= j < k ==> #[trigger] taken@[j]),
            Err(e) => (forall|k: int| 0 <= k < MAX_NAMES ==> #[trigger] taken@[k]) && e@
                == "Too many folders named '"@ + name@ + "' in "@ + parent@,
        },
{
    let mut k: usize = 0;
    while k < MAX_NAMES
        invariant
            taken@.len() == MAX_NAMES,
            k <= MAX_NAMES,
            forall|j: int| 0 <= j < k ==> #[trigger] taken@[j],
        decreases MAX_NAMES - k,
    {
        if !taken[k] {
            return Ok(candidate_name(name, k));
        }
        k += 1;
    }
    let mut out = String::new();
    out.append("Too many folders named '");
    out.append(name);
    out.append("' in ");
    out.append(parent);
    assert(out@ =~= "Too many folders named '"@ + name@ + "' in "@ + parent@);
    Err(out)
}

/// Different tries are different names.
pub proof fn law_names_differ(name: Seq<char>, i: int, j: int)
    requires
        0 <= i < j,
    ensures
        nth_name(name, i) != nth_name(name, j),
{
    let a = nth_name(name, i);
    let b = nth_name(name, j);
    reveal_strlit(" (");
    reveal_strlit(")");
    text::law_decimal_reads_back((j + 1) as nat);
    if i > 0 && a == b {
        text::law_decimal_reads_back((i + 1) as nat);
        let da = text::decimal((i + 1) as nat);
        let db = text::decimal((j + 1) as nat);
        assert(a.len() == name.len() + 2 + da.len() + 1);
        assert(b.len() == name.len() + 2 + db.len() + 1);
        let at = name.len() as int + 2;
        assert(a.subrange(at, a.len() - 1) =~= da);
        assert(b.subrange(at, b.len() - 1) =~= db);
        assert(text::numeral_value(da) == text::numeral_value(db));
    }
}

// ---------------------------------------------------------------------
// Time stamps

/// Character `c` may stand at place `i` of a "YYYY-MM-DD_HH-MM" stamp.
pub open spec fn stamp_char(i: int, c: char) -> bool {
    if i == 4 || i == 7 || i == 13 {
        c == '-'
    } else if i == 10 {
        c == '_'
    } else {
        text::digit(c)
    }
}

/// The name ends with an underscore and a time stamp.
pub open spec fn stamped(name: Seq<char>) -> bool {
    &&& name.len() > STAMP_LEN
    &&& name[name.len() - STAMP_LEN - 1] == '_'
    &&& forall|i: int|
        0 <= i < STAMP_LEN ==> stamp_char(i, #[trigger] name[name.len() - STAMP_LEN + i])
}

/// The trailing "YYYY-MM-DD_HH-MM" stamp of a folder name, if present.
pub fn timestamp_suffix(dir_name: &str) -> (r: Option<String>)
    ensures
        r is Some <==> stamped(dir_name@),
        r matches Some(stamp) ==> stamp@ == dir_name@.skip(dir_name@.len() - STAMP_LEN),
{
    let chars = chars_of(dir_name);
    let n: usize = chars.len();
    if n <= STAMP_LEN {
        return None;
    }
    let from: usize = n - STAMP_LEN;
    if chars[from - 1] != '_' {
        return None;
    }
    let mut i: usize = 0;
    while i < STAMP_LEN
        invariant
            chars@ == dir_name@,
            n == chars@.len(),
            n > STAMP_LEN,
            from == n - STAMP_LEN,
            i <= STAMP_LEN,
            forall|k: int| 0 <= k < i ==> stamp_char(k, #[trigger] dir_name@[from + k]),
        decreases STAMP_LEN - i,
    {
        let c = chars[from + i];
        let fits: bool = if i == 4 || i == 7 || i == 13 {
            c == '-'
        } else if i == 10 {
            c == '_'
        } else {
            is_digit(c)
        };
        if !fits {
            assert(!stamp_char(i as int, dir_name@[from + i]));
            return None;
        }
        i += 1;
    }
    let stamp = string_of(slice_of(&chars, from, n));
    assert(stamp@ =~= dir_name@.skip(dir_name@.len() - STAMP_LEN));
    Some(stamp)
}

/// The folder name for a title: a time stamp of the old name is kept.
pub open spec fn renamed(title: Seq<char>, old_name: Seq<char>) -> Seq<char> {
    if stamped(old_name) {
        title + "_"@ + old_name.skip(old_name.len() - STAMP_LEN)
    } else {
        title
    }
}

/// The folder name for a title: a time stamp of the old name is kept.
pub fn renamed_folder(title: &str, old_name: &str) -> (r: String)
    ensures
        r@ == renamed(title@, old_name@),
{
    match timestamp_suffix(old_name) {
        Some(stamp) => {
            let mut out = String::new();
            out.append(title);
            out.append("_");
            out.append(stamp.as_str());
            assert(out@ =~= renamed(title@, old_name@));
            out
        },
        None => title.to_owned(),
    }
}

/// Renaming keeps the stamp: whatever the title, the new name ends with the
/// stamp of the old one, so a further rename keeps it too.
pub proof fn law_stamp_survives_renames(title: Seq<char>, old_name: Seq<char>)
    requires
        stamped(old_name),
    ensures
        stamped(renamed(title, old_name)),
        renamed(title, old_name).skip(renamed(title, old_name).len() - STAMP_LEN) == old_name.skip(
            old_name.len() - STAMP_LEN,
        ),
{
    reveal_strlit("_");
    let new = renamed(title, old_name);
    let stamp = old_name.skip(old_name.len() - STAMP_LEN);
    assert(new.len() == title.len() + 1 + STAMP_LEN);
    assert(new[new.len() - STAMP_LEN - 1] == '_');
    assert forall|i: int| 0 <= i < STAMP_LEN implies stamp_char(
        i,
        #[trigger] new[new.len() - STAMP_LEN + i],
    ) by {
        assert(new[new.len() - STAMP_LEN + i] == stamp[i]);
        assert(stamp[i] == old_name[old_name.len() - STAMP_LEN + i]);
    }
    assert(new.skip(new.len() - STAMP_LEN) =~= stamp);
}

// ---------------------------------------------------------------------
// Decisions

/// Whether a meeting has a recording folder to keep in step: a path that is not
/// blank and a directory there.
pub fn has_folder(path: Option<&str>, is_dir: bool) -> (r: bool)
    ensures
        r == (path matches Some(p) && text::trimmed(p@).len() > 0 && is_dir),
{
    match path {
        Some(p) => is_dir && !trim(p).as_str().is_empty(),
        None => false,
    }
}

/// What a new title asks for.
#[derive(Debug)]
pub enum RenameStep {
    /// Nothing to do on disk.
    Nothing,
    /// The folder is named so already; only its metadata changes.
    MetadataOnly,
    /// Rename the folder to the first free variant of this name.
    Rename(String),
}

/// What a new title of a meeting asks for. `title` is fit for a folder name.
pub fn rename_step(
    path: Option<&str>,
    is_dir: bool,
    transcribing: bool,
    old_name: &str,
    title: &str,
) -> (r: Result<RenameStep, String>)
    ensures
        ({
            let there = path matches Some(p) && text::trimmed(p@).len() > 0 && is_dir;
            let name = renamed(title@, old_name@);
            match r {
                Ok(RenameStep::Nothing) => !there,
                Ok(RenameStep::MetadataOnly) => there && !transcribing && name == old_name@,
                Ok(RenameStep::Rename(n)) => there && !transcribing && name != old_name@ && n@
                    == name,
                Err(e) => there && transcribing && e@ == BUSY@,
            }
        }),
{
    if !has_folder(path, is_dir) {
        return Ok(RenameStep::Nothing);
    }
    match ensure_idle(transcribing) {
        Ok(()) => {},
        Err(e) => {
            return Err(e);
        },
    }
    let name = renamed_folder(title, old_name);
    if same_text(name.as_str(), old_name) {
        Ok(RenameStep::MetadataOnly)
    } else {
        Ok(RenameStep::Rename(name))
    }
}

/// The directory that a meeting moves to: that of the folder, or the recordings
/// root. `title` is the folder's title fit for a directory name, if the folder
/// exists.
pub fn move_destination(folder_id: Option<&str>, title: Option<String>) -> (r: Result<
    Option<String>,
    String,
>)
    ensures
        match folder_id {
            None => r matches Ok(None),
            Some(id) => match title {
                Some(t) => r matches Ok(Some(d)) && d@ == if t@.len() == 0 {
                    "Meeting"@
                } else {
                    t@
                },
                None => r matches Err(e) && e@ == "No folder found with id "@ + id@,
            },
        },
{
    match folder_id {
        None => Ok(None),
        Some(id) => match title {
            Some(t) => Ok(Some(sanitized_or_default(t))),
            None => {
                let mut out = String::new();
                out.append("No folder found with id ");
                out.append(id);
                assert(out@ =~= "No folder found with id "@ + id@);
                Err(out)
            },
        },
    }
}

/// Whether a directory has to be renamed or moved: not when it is not there or
/// already in place, and never while a transcription is running.
pub fn must_move(is_dir: bool, in_place: bool, transcribing: bool) -> (r: Result<bool, String>)
    ensures
        !is_dir || in_place ==> r == Ok::<bool, String>(false),
        is_dir && !in_place && !transcribing ==> r == Ok::<bool, String>(true),
        is_dir && !in_place && transcribing ==> (r matches Err(e) && e@ == BUSY@),
{
    if !is_dir || in_place {
        return Ok(false);
    }
    match ensure_idle(transcribing) {
        Ok(()) => Ok(true),
        Err(e) => Err(e),
    }
}

/// Whether a meeting of a folder goes along when the folder's directory is
/// renamed or emptied: it is stored below that directory, and is there.
pub fn goes_along(path: Option<&str>, below: bool, is_there: bool) -> (r: bool)
    ensures
        r == (path is Some && below && is_there),
{
    match path {
        Some(_) => below && is_there,
        None => false,
    }
}

/// Whether a directory that was left behind is removed: only an empty one
/// directly below the recordings root.
pub fn removes_left_behind(is_root: bool, below_root: bool, empty: bool) -> (r: bool)
    ensures
        r == (!is_root && below_root && empty),
{
    !is_root && below_root && empty
}

// ---------------------------------------------------------------------
// Metadata

/// The members of a recording's metadata before the title is set: those of the
/// object, none of a null value.
pub open spec fn base_members(v: serde_json::Value) -> Map<Seq<char>, Member> {
    if json::is_object(v) {
        json::members(v)
    } else {
        json::no_members()
    }
}

/// The metadata with the title set; nothing when they are neither an object nor
/// null.
pub fn with_meeting_name(metadata: serde_json::Value, title: &str) -> (r: Option<serde_json::Value>)
    ensures
        r is Some <==> json::is_object(metadata) || json::is_null(metadata),
        r matches Some(v) ==> json::is_object(v) && json::members(v) == base_members(metadata).insert(
            "meeting_name"@,
            Member::Text(title@),
        ),
{
    let mut v = metadata;
    if json::null(&v) {
        v = json::empty_object();
    }
    if json::put(&mut v, "meeting_name", json::string(title)) {
        Some(v)
    } else {
        None
    }
}

/// The metadata text with the meeting's name set to the title. Best effort:
/// nothing when the text is no JSON object.
pub fn update_metadata_name(raw: &str, title: &str) -> (r: Option<String>)
    ensures
        r is Some <==> (json::json_of(raw@) matches Some(v) && (json::is_object(v) || json::is_null(
            v,
        ))),
        r matches Some(t) ==> exists|v: serde_json::Value|
            t@ == #[trigger] json::pretty_of(v) && json::is_object(v) && json::members(v)
                == base_members(json::json_of(raw@)->0).insert(
                "meeting_name"@,
                Member::Text(title@),
            ),
        r matches Some(t) ==> (json::json_of(t@) matches Some(w) ==> json::is_object(w)
            && json::same_texts(
            base_members(json::json_of(raw@)->0).insert("meeting_name"@, Member::Text(title@)),
            json::members(w),
        )),
{
    match json::parse(raw) {
        Ok(value) => match with_meeting_name(value, title) {
            Some(v) => match json::pretty(&v) {
                Ok(t) => Some(t),
                Err(_) => None,
            },
            None => None,
        },
        Err(_) => None,
    }
}

/// What is written is what was there, with the meeting's name set to the title:
/// every other member holds what it held. Where the written metadata are read
/// back, the name is the title, and the keys and all other strings are as before.
pub proof fn law_metadata_reads_back(
    before: serde_json::Value,
    written: serde_json::Value,
    read: serde_json::Value,
    title: Seq<char>,
    key: Seq<char>,
)
    requires
        json::is_object(before),
        json::members(written) == base_members(before).insert(
            "meeting_name"@,
            Member::Text(title),
        ),
        json::same_texts(json::members(written), json::members(read)),
    ensures
        json::member_text(written, "meeting_name"@) == Some(title),
        json::member_text(read, "meeting_name"@) == Some(title),
        key != "meeting_name"@ ==> {
            &&& json::members(written).contains_key(key) <==> json::members(before).contains_key(key)
            &&& json::members(written)[key] == json::members(before)[key]
            &&& json::members(read).contains_key(key) <==> json::members(before).contains_key(key)
            &&& json::member_text(read, key) == json::member_text(before, key)
        },
{
    assert(json::members(written).contains_key("meeting_name"@));
    assert(json::members(written)["meeting_name"@] is Text);
    assert(json::members(read).dom().contains("meeting_name"@));
    assert(json::members(read).dom().contains(key) == json::members(written).dom().contains(key));
    if json::members(written).contains_key(key) {
        assert(json::members(written)[key] is Text <==> json::members(read)[key] is Text);
    }
}

// ---------------------------------------------------------------------
// What names and metadata are

/// The name itself is tried first, then the name with a number from two on in
/// brackets.
pub proof fn law_nth_name(name: Seq<char>, k: int)
    requires
        k >= 0,
    ensures
        nth_name(name, 0) == name,
        k > 0 ==> nth_name(name, k) == name + " ("@ + text::decimal((k + 1) as nat) + ")"@,
        nth_name(name, k).take(name.len() as int) == name,
{
    assert(nth_name(name, k).take(name.len() as int) =~= name);
}

/// A name is stamped exactly when it ends with an underscore and a stamp of four,
/// two and two digits, an underscore, and two and two digits, with hyphens.
pub proof fn law_stamped(base: Seq<char>, stamp: Seq<char>)
    requires
        stamp.len() == 16,
    ensures
        stamped(base + "_"@ + stamp) <==> {
            &&& stamp[4] == '-' && stamp[7] == '-' && stamp[10] == '_' && stamp[13] == '-'
            &&& forall|i: int|
                0 <= i < 16 && i != 4 && i != 7 && i != 10 && i != 13 ==> 48
                    <= #[trigger] stamp[i] as int <= 57
        },
        !stamped(stamp),
{
    reveal_strlit("_");
    let name = base + "_"@ + stamp;
    let n = name.len() as int;
    assert(name[n - 17] == '_');
    assert forall|i: int| 0 <= i < 16 implies name[n - STAMP_LEN + i] == #[trigger] stamp[i] by {}
    if stamped(name) {
        assert forall|i: int| 0 <= i < 16 implies stamp_char(i, #[trigger] stamp[i]) by {
            assert(stamp_char(i, name[n - STAMP_LEN + i]));
        }
    }
    if (stamp[4] == '-' && stamp[7] == '-' && stamp[10] == '_' && stamp[13] == '-') && (forall|i: int|
        0 <= i < 16 && i != 4 && i != 7 && i != 10 && i != 13 ==> 48 <= #[trigger] stamp[i] as int
            <= 57) {
        assert forall|i: int| 0 <= i < STAMP_LEN implies stamp_char(
            i,
            #[trigger] name[name.len() - STAMP_LEN + i],
        ) by {
            assert(name[n - STAMP_LEN + i] == stamp[i]);
        }
    }
}

/// A renamed folder is called by the new title, followed by the stamp that the
/// old name ended with, if it did.
pub proof fn law_renamed(title: Seq<char>, old_name: Seq<char>)
    ensures
        stamped(old_name) ==> renamed(title, old_name) == title + "_"@ + old_name.skip(
            old_name.len() - 16,
        ),
        !stamped(old_name) ==> renamed(title, old_name) == title,
{
}

/// The metadata to begin with are those of the object, and none of anything else.
pub proof fn law_base_members(v: serde_json::Value)
    ensures
        json::is_object(v) ==> base_members(v) == json::members(v),
        !json::is_object(v) ==> base_members(v) == Map::<Seq<char>, Member>::empty(),
{
}

/// Twenty names are tried, and a time stamp is as long as its parts.
pub proof fn law_limits()
    ensures
        MAX_NAMES == 20,
        STAMP_LEN == 4 + 1 + 2 + 1 + 2 + 1 + 2 + 1 + 2,
{
}

} // verus!
