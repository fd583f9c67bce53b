//! Prebuilt CoreML encoders that stand next to a Whisper model.
//!
//! The encoder of a model is found by the model's file name without its
//! quantization suffix; one encoder serves all quantizations.
use vstd::prelude::*;
use crate::text;
use crate::text::{chars_of, rfind, same_chars, same_text, slice_of, string_of};

verus! {

/// Where the prebuilt encoders are published.
pub const ENCODER_URL: &'static str = "https://huggingface.co/ggerganov/whisper.cpp/resolve/main/";

// ---------------------------------------------------------------------
// Model names

/// A model with a prebuilt encoder.
pub open spec fn known(model: Seq<char>) -> bool {
    model == "tiny"@ || model == "tiny.en"@ || model == "base"@ || model == "base.en"@ || model
        == "small"@ || model == "small.en"@ || model == "medium"@ || model == "medium.en"@ || model
        == "large-v1"@ || model == "large-v2"@ || model == "large-v3"@ || model == "large-v3-turbo"@
}

/// Whether a model has a prebuilt encoder.
pub fn is_known(model: &str) -> (r: bool)
    ensures
        r == known(model@),
{
    same_text(model, "tiny") || same_text(model, "tiny.en") || same_text(model, "base")
        || same_text(model, "base.en") || same_text(model, "small") || same_text(model, "small.en")
        || same_text(model, "medium") || same_text(model, "medium.en") || same_text(
        model,
        "large-v1",
    ) || same_text(model, "large-v2") || same_text(model, "large-v3") || same_text(
        model,
        "large-v3-turbo",
    )
}

/// What follows `-q` in a quantization suffix: digits and underscores.
pub open spec fn quantization(tail: Seq<char>) -> bool {
    tail.len() > 0 && forall|i: int|
        0 <= i < tail.len() ==> text::digit(#[trigger] tail[i]) || tail[i] == '_'
}

/// The place of the last `-q` starts a quantization suffix.
pub open spec fn suffix_at(stem: Seq<char>, i: int) -> bool {
    text::last_at(stem, seq!['-', 'q'], i) && quantization(stem.skip(i + 2))
}

/// A model name without its quantization suffix.
pub open spec fn stripped(stem: Seq<char>) -> Seq<char> {
    if exists|i: int| suffix_at(stem, i) {
        stem.take(choose|i: int| suffix_at(stem, i))
    } else {
        stem
    }
}

/// Whether all characters are digits or underscores, and there is one.
fn is_quantization(tail: &[char]) -> (r: bool)
    ensures
        r == quantization(tail@),
{
    let mut i: usize = 0;
    while i < tail.len()
        invariant
            i <= tail@.len(),
            forall|k: int| 0 <= k < i ==> text::digit(#[trigger] tail@[k]) || tail@[k] == '_',
        decreases tail@.len() - i,
    {
        if !(text::is_digit(tail[i]) || tail[i] == '_') {
            return false;
        }
        i += 1;
    }
    tail.len() > 0
}

/// Only one place can start a quantization suffix.
proof fn lemma_one_suffix(stem: Seq<char>, i: int, k: int)
    requires
        text::last_at(stem, seq!['-', 'q'], i),
        suffix_at(stem, k),
    ensures
        i == k,
{
    let q = seq!['-', 'q'];
    if i < k {
        assert(text::occurs_at(stem, q, k));
    } else if k < i {
        assert(text::occurs_at(stem, q, i));
    }
}

/// A model name without its quantization suffix:
/// `ggml-large-v3-q5_0` becomes `ggml-large-v3`.
pub fn strip_quant_suffix(stem: &str) -> (r: String)
    ensures
        r@ == stripped(stem@),
{
    let chars = chars_of(stem);
    let mark: Vec<char> = vec!['-', 'q'];
    assert(mark@ =~= seq!['-', 'q']);
    match rfind(&chars, &mark) {
        Some(i) => {
            assert(i + 2 <= chars.len());
            if is_quantization(slice_of(&chars, i + 2, chars.len())) {
                proof {
                    assert(chars@.subrange(i + 2, chars@.len() as int) =~= stem@.skip(i + 2));
                    assert(suffix_at(stem@, i as int));
                    let k = choose|k: int| suffix_at(stem@, k);
                    lemma_one_suffix(stem@, i as int, k);
                    assert(chars@.subrange(0, i as int) =~= stem@.take(i as int));
                }
                return string_of(slice_of(&chars, 0, i));
            }
            proof {
                assert(chars@.subrange(i + 2, chars@.len() as int) =~= stem@.skip(i + 2));
                assert forall|k: int| !#[trigger] suffix_at(stem@, k) by {
                    if suffix_at(stem@, k) {
                        lemma_one_suffix(stem@, i as int, k);
                    }
                }
            }
            stem.to_owned()
        },
        None => {
            assert forall|k: int| !#[trigger] suffix_at(stem@, k) by {
                assert(!text::occurs_at(stem@, seq!['-', 'q'], k));
            }
            stem.to_owned()
        },
    }
}

/// Taking the suffix off undoes putting one on.
pub proof fn law_suffix_comes_off(base: Seq<char>, tail: Seq<char>)
    requires
        quantization(tail),
    ensures
        stripped(base + "-q"@ + tail) == base,
{
    reveal_strlit("-q");
    let q = seq!['-', 'q'];
    assert("-q"@ =~= q);
    let s = base + q + tail;
    let i = base.len() as int;
    assert(s.subrange(i, i + 2) =~= q);
    assert(text::occurs_at(s, q, i));
    assert forall|j: int| i < j implies !#[trigger] text::occurs_at(s, q, j) by {
        if text::occurs_at(s, q, j) {
            assert(s.subrange(j, j + 2)[0] == '-');
            assert(s[j] == '-');
            if j >= i + 2 {
                assert(s[j] == tail[j - i - 2]);
            } else {
                assert(s[j] == 'q');
            }
        }
    }
    assert(text::last_at(s, q, i));
    assert(s.skip(i + 2) =~= tail);
    assert(suffix_at(s, i));
    let k = choose|k: int| suffix_at(s, k);
    lemma_one_suffix(s, i, k);
    assert(s.take(i) =~= base);
}

// ---------------------------------------------------------------------
// Paths

/// The place of the last `c`, or -1.
pub open spec fn last_of(s: Seq<char>, c: char) -> int
    decreases s.len(),
{
    if s.len() == 0 {
        -1
    } else if s.last() == c {
        s.len() - 1
    } else {
        last_of(s.drop_last(), c)
    }
}

/// The place of the last `c` is known by what stands there and behind it.
proof fn lemma_last_of(s: Seq<char>, c: char, i: int)
    requires
        -1 <= i < s.len(),
        i >= 0 ==> s[i] == c,
        forall|j: int| i < j < s.len() ==> #[trigger] s[j] != c,
    ensures
        last_of(s, c) == i,
    decreases s.len(),
{
    if s.len() > 0 && i < s.len() - 1 {
        assert(s[s.len() - 1] != c);
        assert forall|j: int| i < j < s.drop_last().len() implies #[trigger] s.drop_last()[j] != c by {
            assert(s.drop_last()[j] == s[j]);
        }
        lemma_last_of(s.drop_last(), c, i);
    }
}

/// What stands at the place of the last `c`, and behind it.
proof fn lemma_at_last(s: Seq<char>, c: char)
    ensures
        -1 <= last_of(s, c) < s.len(),
        last_of(s, c) >= 0 ==> s[last_of(s, c)] == c,
    decreases s.len(),
{
    if s.len() > 0 && s.last() != c {
        lemma_at_last(s.drop_last(), c);
    }
}

/// Where the last `c` stands.
fn place_of_last(s: &[char], c: char) -> (r: Option<usize>)
    ensures
        match r {
            Some(i) => last_of(s@, c) == i && i < s@.len(),
            None => last_of(s@, c) == -1,
        },
{
    let mut n: usize = s.len();
    while n > 0
        invariant
            n <= s@.len(),
            forall|j: int| n <= j < s@.len() ==> #[trigger] s@[j] != c,
        decreases n,
    {
        if s[n - 1] == c {
            proof {
                lemma_last_of(s@, c, n - 1);
            }
            return Some(n - 1);
        }
        n -= 1;
    }
    proof {
        lemma_last_of(s@, c, -1);
    }
    None
}

/// A path without the separators and the `.` components at its end.
pub open spec fn without_tail(p: Seq<char>) -> Seq<char>
    decreases p.len(),
{
    if p.len() > 0 && p.last() == '/' {
        without_tail(p.drop_last())
    } else if p.len() > 1 && p.last() == '.' && p[p.len() - 2] == '/' {
        without_tail(p.drop_last())
    } else {
        p
    }
}

/// How long a path is without the separators and the `.` components at its end.
fn tail_start(p: &[char]) -> (n: usize)
    ensures
        n <= p@.len(),
        p@.take(n as int) == without_tail(p@),
{
    let mut n: usize = p.len();
    assert(p@.take(n as int) =~= p@);
    while n > 0 && (p[n - 1] == '/' || (n > 1 && p[n - 1] == '.' && p[n - 2] == '/'))
        invariant
            n <= p@.len(),
            without_tail(p@.take(n as int)) == without_tail(p@),
        decreases n,
    {
        assert(p@.take(n as int).drop_last() =~= p@.take(n - 1));
        n -= 1;
    }
    n
}

/// The place where the last component of a path starts.
pub open spec fn name_start(p: Seq<char>) -> int {
    last_of(without_tail(p), '/') + 1
}

/// The last component of a path, unless that is `.` or `..` or there is none.
pub open spec fn file_name(p: Seq<char>) -> Option<Seq<char>> {
    let name = without_tail(p).skip(name_start(p));
    if name.len() == 0 || name == seq!['.'] || name == seq!['.', '.'] {
        None
    } else {
        Some(name)
    }
}

/// What stands before the last component of a path.
pub open spec fn parent(p: Seq<char>) -> Seq<char> {
    let rest = without_tail(p).take(name_start(p));
    if rest.len() > 0 && without_tail(rest).len() == 0 {
        seq!['/']
    } else {
        without_tail(rest)
    }
}

/// A file name without its extension: what precedes its last dot, unless that is
/// its first character.
pub open spec fn stem_of(name: Seq<char>) -> Seq<char> {
    if last_of(name, '.') > 0 {
        name.take(last_of(name, '.'))
    } else {
        name
    }
}

/// A name in a folder.
pub open spec fn inside(folder: Seq<char>, name: Seq<char>) -> Seq<char> {
    if folder.len() == 0 || folder.last() == '/' {
        folder + name
    } else {
        folder + seq!['/'] + name
    }
}

// ---------------------------------------------------------------------
// Encoders

/// The encoder folder next to a model, and the name of its archive.
pub open spec fn encoder_of(model_file: Seq<char>) -> Option<(Seq<char>, Seq<char>)> {
    match file_name(model_file) {
        Some(name) => {
            let base = stripped(stem_of(name));
            if text::has_prefix(base, "ggml-"@) && known(base.skip(5)) {
                Some(
                    (
                        inside(parent(model_file), base + "-encoder.mlmodelc"@),
                        base + "-encoder.mlmodelc.zip"@,
                    ),
                )
            } else {
                None
            }
        },
        None => None,
    }
}

/// The encoder folder that is looked for next to a model file, and the name of
/// its published archive; nothing when no prebuilt encoder exists.
pub fn encoder_paths_for(model_file: &str) -> (r: Option<(String, String)>)
    ensures
        match r {
            Some((dir, zip)) => encoder_of(model_file@) == Some((dir@, zip@)),
            None => encoder_of(model_file@) is None,
        },
{
    let path = chars_of(model_file);
    let n: usize = tail_start(&path);
    let whole = slice_of(&path, 0, n);
    assert(whole@ =~= without_tail(model_file@));
    let start: usize = match place_of_last(whole, '/') {
        Some(i) => {
            assert(i + 1 <= whole.len());
            i + 1
        },
        None => 0,
    };
    assert(start == name_start(model_file@));
    let name = slice_of(whole, start, whole.len());
    assert(name@ =~= without_tail(model_file@).skip(name_start(model_file@)));
    let dot: Vec<char> = vec!['.'];
    let dots: Vec<char> = vec!['.', '.'];
    assert(dot@ =~= seq!['.']);
    assert(dots@ =~= seq!['.', '.']);
    if name.len() == 0 || same_chars(name, &dot) || same_chars(name, &dots) {
        return None;
    }
    let stem = match place_of_last(name, '.') {
        Some(i) => if i > 0 {
            slice_of(name, 0, i)
        } else {
            name
        },
        None => name,
    };
    assert(stem@ =~= stem_of(name@));
    let base = strip_quant_suffix(string_of(stem).as_str());
    let base_chars = chars_of(base.as_str());
    let prefix = chars_of("ggml-");
    proof {
        reveal_strlit("ggml-");
    }
    if base_chars.len() < 5 || !same_chars(slice_of(&base_chars, 0, 5), &prefix) {
        assert(!text::has_prefix(base@, "ggml-"@));
        return None;
    }
    assert(text::has_prefix(base@, "ggml-"@));
    let model = string_of(slice_of(&base_chars, 5, base_chars.len()));
    assert(model@ =~= base@.skip(5));
    if !is_known(model.as_str()) {
        return None;
    }
    let mut folder_name = base.clone();
    folder_name.append("-encoder.mlmodelc");
    let mut zip = base;
    zip.append("-encoder.mlmodelc.zip");
    let rest = slice_of(whole, 0, start);
    assert(rest@ =~= without_tail(model_file@).take(name_start(model_file@)));
    let m: usize = tail_start(rest);
    let mut dir: String = if rest.len() > 0 && m == 0 {
        string_of(slice_of(rest, 0, 1))
    } else {
        string_of(slice_of(rest, 0, m))
    };
    proof {
        assert(rest@.subrange(0, m as int) =~= rest@.take(m as int));
        if rest@.len() > 0 && m == 0 {
            lemma_root(rest@);
            assert(rest@.subrange(0, 1) =~= seq!['/']);
        }
    }
    assert(dir@ == parent(model_file@));
    let dir_chars = chars_of(dir.as_str());
    if dir_chars.len() > 0 && dir_chars[dir_chars.len() - 1] != '/' {
        dir.append("/");
        proof {
            reveal_strlit("/");
            assert("/"@ =~= seq!['/']);
        }
    }
    dir.append(folder_name.as_str());
    Some((dir, zip))
}

/// A path of which nothing is left starts at the root.
proof fn lemma_root(p: Seq<char>)
    requires
        p.len() > 0,
        without_tail(p).len() == 0,
    ensures
        p[0] == '/',
    decreases p.len(),
{
    if p.len() > 1 {
        assert(p.drop_last()[0] == p[0]);
        lemma_root(p.drop_last());
    }
}

/// The last component of a path in a folder is the name, and the rest is the
/// folder and a separator.
proof fn lemma_named(folder: Seq<char>, name: Seq<char>)
    requires
        name.len() > 1,
        name.last() != '.',
        forall|j: int| 0 <= j < name.len() ==> #[trigger] name[j] != '/',
    ensures
        without_tail(folder + seq!['/'] + name) == folder + seq!['/'] + name,
        name_start(folder + seq!['/'] + name) == folder.len() + 1,
        (folder + seq!['/'] + name).skip(folder.len() as int + 1) == name,
        (folder + seq!['/'] + name).take(folder.len() as int + 1) == folder + seq!['/'],
        file_name(folder + seq!['/'] + name) == Some(name),
{
    let p = folder + seq!['/'] + name;
    assert(p.last() == name.last());
    assert(name[name.len() - 1] != '/');
    assert(without_tail(p) == p);
    let i = folder.len() as int;
    assert(p[i] == '/');
    assert forall|j: int| i < j < p.len() implies #[trigger] p[j] != '/' by {
        assert(p[j] == name[j - i - 1]);
    }
    lemma_last_of(p, '/', i);
    assert(p.skip(i + 1) =~= name);
    assert(p.take(i + 1) =~= folder + seq!['/']);
    assert(name[name.len() - 1] != '.');
    if name == seq!['.', '.'] {
        assert(name[1] == '.');
    }
}

/// One encoder serves all quantizations: a suffix in the model's file name
/// changes neither the folder nor the archive.
pub proof fn law_encoder_ignores_quantization(folder: Seq<char>, base: Seq<char>, tail: Seq<char>)
    requires
        base.len() > 0,
        text::occurs_nowhere(base, seq!['-', 'q']),
        forall|j: int| 0 <= j < base.len() ==> #[trigger] base[j] != '/',
        quantization(tail),
    ensures
        encoder_of(folder + seq!['/'] + (base + "-q"@ + tail + ".bin"@)) == encoder_of(
            folder + seq!['/'] + (base + ".bin"@),
        ),
{
    reveal_strlit("-q");
    reveal_strlit(".bin");
    let plain = base + ".bin"@;
    let tagged = base + "-q"@ + tail + ".bin"@;
    assert forall|j: int| 0 <= j < plain.len() implies #[trigger] plain[j] != '/' by {
        if j < base.len() {
            assert(plain[j] == base[j]);
        }
    }
    assert forall|j: int| 0 <= j < tagged.len() implies #[trigger] tagged[j] != '/' by {
        let b = base.len() as int;
        if j < b {
            assert(tagged[j] == base[j]);
        } else if j < b + 2 {
            assert(tagged[j] == "-q"@[j - b]);
        } else if j < b + 2 + tail.len() {
            assert(tagged[j] == tail[j - b - 2]);
        } else {
            assert(tagged[j] == ".bin"@[j - b - 2 - tail.len()]);
        }
    }
    assert(plain.last() == 'n');
    assert(tagged.last() == 'n');
    lemma_named(folder, plain);
    lemma_named(folder, tagged);
    lemma_stem(base);
    lemma_stem(base + "-q"@ + tail);
    law_suffix_comes_off(base, tail);
    assert forall|k: int| !#[trigger] suffix_at(base, k) by {
        assert(!text::occurs_at(base, seq!['-', 'q'], k));
    }
}

/// The stem of a name with one extension more is the name.
proof fn lemma_stem(name: Seq<char>)
    requires
        name.len() > 0,
    ensures
        stem_of(name + ".bin"@) == name,
{
    reveal_strlit(".bin");
    let s = name + ".bin"@;
    let i = name.len() as int;
    assert(s[i] == '.');
    assert forall|j: int| i < j < s.len() implies #[trigger] s[j] != '.' by {
        assert(s[j] == ".bin"@[j - i]);
    }
    lemma_last_of(s, '.', i);
    assert(s.take(i) =~= name);
}

// ---------------------------------------------------------------------
// Fetching an encoder

/// The components of a path: the root, then the names between separators.
/// Repeated separators count once, and one at the end does not count. A `.`
/// counts only at the very beginning.
pub open spec fn components(p: Seq<char>) -> Seq<Seq<char>>
    decreases p.len(),
{
    let i = last_of(p, '/');
    if p.len() == 0 {
        Seq::empty()
    } else if p.last() == '/' {
        if p.len() == 1 {
            seq![p]
        } else {
            components(p.drop_last())
        }
    } else if 0 <= i < p.len() - 1 {
        let name = p.skip(i + 1);
        let head = components(p.take(i + 1));
        if name == seq!['.'] {
            head
        } else {
            head.push(name)
        }
    } else {
        seq![p]
    }
}

/// The components of a path.
fn components_of(path: &str) -> (r: Vec<String>)
    ensures
        text::views(r@) == components(path@),
{
    let p = chars_of(path);
    let mut n: usize = p.len();
    let mut out: Vec<String> = Vec::new();
    assert(p@.take(n as int) =~= p@);
    assert(components(p@) =~= components(p@.take(n as int)) + text::views(out@));
    while n > 0
        invariant
            p@ == path@,
            n <= p@.len(),
            components(p@) == components(p@.take(n as int)) + text::views(out@),
        decreases n,
    {
        let ghost now = p@.take(n as int);
        let ghost held = out@;
        if p[n - 1] == '/' {
            if n == 1 {
                let root = string_of(slice_of(&p, 0, 1));
                out.insert(0, root);
                proof {
                    assert(p@.subrange(0, 1) =~= now);
                    assert(components(now) =~= seq![now]);
                    assert(p@.take(0) =~= Seq::<char>::empty());
                    assert(text::views(out@) =~= seq![now] + text::views(held));
                    assert(components(p@) =~= components(p@.take(0)) + text::views(out@));
                }
                n = 0;
            } else {
                assert(now.drop_last() =~= p@.take(n - 1));
                n -= 1;
            }
        } else {
            let from: usize = match place_of_last(slice_of(&p, 0, n), '/') {
                Some(i) => i + 1,
                None => 0,
            };
            proof {
                assert(p@.subrange(0, n as int) =~= now);
                assert(last_of(now, '/') == from - 1);
                lemma_at_last(now, '/');
                assert(from < n);
            }
            let name = slice_of(&p, from, n);
            assert(name@ =~= now.skip(from as int));
            let dot: bool = name.len() == 1 && name[0] == '.';
            proof {
                assert(dot <==> name@ =~= seq!['.']);
                assert(p@.take(from as int) =~= now.take(from as int));
                if from == 0 {
                    assert(name@ =~= now);
                    assert(p@.take(0) =~= Seq::<char>::empty());
                }
            }
            if !dot || from == 0 {
                let s = string_of(name);
                out.insert(0, s);
                proof {
                    assert(text::views(out@) =~= seq![name@] + text::views(held));
                }
            }
            proof {
                assert(components(p@) =~= components(p@.take(from as int)) + text::views(out@));
            }
            n = from;
        }
    }
    assert(p@.take(0) =~= Seq::<char>::empty());
    assert(components(p@) =~= text::views(out@));
    out
}

/// Whether two lists of texts are the same.
fn same_list(a: &Vec<String>, b: &Vec<String>) -> (r: bool)
    ensures
        r == (text::views(a@) == text::views(b@)),
{
    if a.len() != b.len() {
        assert(text::views(a@).len() != text::views(b@).len());
        return false;
    }
    let mut i: usize = 0;
    while i < a.len()
        invariant
            i <= a@.len() == b@.len(),
            forall|k: int| 0 <= k < i ==> (#[trigger] a@[k])@ == b@[k]@,
        decreases a@.len() - i,
    {
        if !same_text(a[i].as_str(), b[i].as_str()) {
            assert(text::views(a@)[i as int] != text::views(b@)[i as int]);
            return false;
        }
        i += 1;
    }
    assert(text::views(a@) =~= text::views(b@));
    true
}

/// The encoder folders, by their components, for which a download was begun in
/// this run of the program. No folder is there twice, however it was spelled.
#[derive(Debug)]
pub struct Attempts {
    dirs: Vec<Vec<String>>,
}

impl View for Attempts {
    type V = Seq<Seq<Seq<char>>>;

    closed spec fn view(&self) -> Seq<Seq<Seq<char>>> {
        Seq::new(self.dirs@.len(), |i: int| text::views(self.dirs@[i]@))
    }
}

/// A download into `dir` is to begin: it is not there yet, and none was begun
/// before into that folder.
pub open spec fn may_begin(attempts: Seq<Seq<Seq<char>>>, dir: Seq<char>, installed: bool) -> bool {
    !installed && !attempts.contains(components(dir))
}

/// The attempts after `dir` was considered.
pub open spec fn considered(
    attempts: Seq<Seq<Seq<char>>>,
    dir: Seq<char>,
    installed: bool,
) -> Seq<Seq<Seq<char>>> {
    if may_begin(attempts, dir, installed) {
        attempts.push(components(dir))
    } else {
        attempts
    }
}

/// One attempt per encoder: once a download was begun, it is not begun again,
/// whatever became of it and however its folder is spelled. Other encoders are
/// not held up.
pub proof fn law_one_attempt(
    attempts: Seq<Seq<Seq<char>>>,
    dir: Seq<char>,
    installed: bool,
    later: bool,
    other: Seq<char>,
)
    requires
        may_begin(attempts, dir, installed),
    ensures
        components(other) == components(dir) ==> !may_begin(
            considered(attempts, dir, installed),
            other,
            later,
        ),
        components(other) != components(dir) ==> may_begin(
            considered(attempts, dir, installed),
            other,
            later,
        ) == may_begin(attempts, other, later),
{
    let next = attempts.push(components(dir));
    assert(next[attempts.len() as int] == components(dir));
    if attempts.contains(components(other)) {
        let k = choose|k: int| 0 <= k < attempts.len() && attempts[k] == components(other);
        assert(next[k] == components(other));
    }
    if next.contains(components(other)) && components(other) != components(dir) {
        let k = choose|k: int| 0 <= k < next.len() && next[k] == components(other);
        assert(attempts[k] == components(other));
    }
}

/// A separator more, or a `.` between separators, does not make another path.
pub proof fn law_spellings(p: Seq<char>, name: Seq<char>)
    requires
        p.len() > 0,
        name.len() > 0,
        !name.contains('/'),
    ensures
        components(p + "/"@) == components(p),
        components(p + "//"@ + name) == components(p + "/"@ + name),
        components(p + "/./"@ + name) == components(p + "/"@ + name),
{
    reveal_strlit("/");
    reveal_strlit("//");
    reveal_strlit("/./");
    let one = p + "/"@;
    let two = p + "//"@;
    let dot = p + "/./"@;
    let bare = p + seq!['/', '.'];
    assert(one.drop_last() =~= p);
    assert(two.drop_last() =~= one);
    assert(dot.drop_last() =~= bare);
    assert(one + seq!['.'] =~= bare);
    lemma_last_component(one, seq!['.']);
    assert(components(two) == components(one));
    assert(components(dot) == components(one));
    lemma_last_component(one, name);
    lemma_last_component(two, name);
    lemma_last_component(dot, name);
}

/// A name behind a separator is the last component, unless it is a `.`.
proof fn lemma_last_component(dir: Seq<char>, name: Seq<char>)
    requires
        dir.len() > 0,
        dir.last() == '/',
        name.len() > 0,
        !name.contains('/'),
    ensures
        components(dir + name) == if name == seq!['.'] {
            components(dir)
        } else {
            components(dir).push(name)
        },
{
    let s = dir + name;
    let i = dir.len() - 1;
    assert forall|j: int| i < j < s.len() implies #[trigger] s[j] != '/' by {
        assert(s[j] == name[j - dir.len()]);
        assert(name.contains(s[j]));
    }
    lemma_last_of(s, '/', i);
    assert(s.last() != '/');
    assert(s.skip(i + 1) =~= name);
    assert(s.take(i + 1) =~= dir);
}

impl Attempts {
    /// No download was begun yet.
    pub fn new() -> (r: Attempts)
        ensures
            r@ == Seq::<Seq<Seq<char>>>::empty(),
    {
        let r = Attempts { dirs: Vec::new() };
        assert(r@ =~= Seq::<Seq<Seq<char>>>::empty());
        r
    }

    /// Whether a download into `dir` is to begin: it is not there yet, and none
    /// was begun before, however the folder was spelled then.
    pub fn begin(&mut self, dir: &str, installed: bool) -> (r: bool)
        requires
            old(self)@.no_duplicates(),
        ensures
            r == may_begin(old(self)@, dir@, installed),
            final(self)@ == considered(old(self)@, dir@, installed),
            final(self)@.no_duplicates(),
    {
        if installed {
            return false;
        }
        let parts = components_of(dir);
        let mut i: usize = 0;
        while i < self.dirs.len()
            invariant
                i <= self.dirs@.len(),
                self@ == old(self)@,
                self@.no_duplicates(),
                text::views(parts@) == components(dir@),
                forall|k: int| 0 <= k < i ==> #[trigger] self@[k] != components(dir@),
            decreases self.dirs@.len() - i,
        {
            if same_list(&self.dirs[i], &parts) {
                assert(self@[i as int] == components(dir@));
                return false;
            }
            assert(self@[i as int] != components(dir@));
            i += 1;
        }
        assert(!self@.contains(components(dir@)));
        let ghost before = self@;
        self.dirs.push(parts);
        assert(self@ =~= before.push(components(dir@)));
        true
    }
}

/// Where the archive is published.
pub fn encoder_url(zip_name: &str) -> (r: String)
    ensures
        r@ == ENCODER_URL@ + zip_name@,
{
    let mut out = String::new();
    out.append(ENCODER_URL);
    out.append(zip_name);
    assert(out@ =~= ENCODER_URL@ + zip_name@);
    out
}

/// The name of the archive while it is downloaded.
pub fn part_name(zip_name: &str) -> (r: String)
    ensures
        r@ == zip_name@ + ".part"@,
{
    let mut out = zip_name.to_owned();
    out.append(".part");
    out
}

/// Whether the server's answer can be used: its status must be a success.
pub fn check_status(success: bool, status: &str, url: &str) -> (r: Result<(), String>)
    ensures
        r is Ok <==> success,
        r matches Err(e) ==> e@ == "HTTP "@ + status@ + " for "@ + url@,
{
    if success {
        return Ok(());
    }
    let mut out = String::new();
    out.append("HTTP ");
    out.append(status);
    out.append(" for ");
    out.append(url);
    assert(out@ =~= "HTTP "@ + status@ + " for "@ + url@);
    Err(out)
}

/// Whether the archive was unpacked: the tool succeeded, and the folder is there.
pub fn check_unpacked(success: bool, status: &str, installed: bool, dir: &str) -> (r: Result<
    (),
    String,
>)
    ensures
        r is Ok <==> success && installed,
        r matches Err(e) ==> e@ == if !success {
            "ditto extraction failed with "@ + status@
        } else {
            "archive did not contain "@ + dir@
        },
{
    let mut out = String::new();
    if !success {
        out.append("ditto extraction failed with ");
        out.append(status);
        assert(out@ =~= "ditto extraction failed with "@ + status@);
        return Err(out);
    }
    if !installed {
        out.append("archive did not contain ");
        out.append(dir);
        assert(out@ =~= "archive did not contain "@ + dir@);
        return Err(out);
    }
    Ok(())
}

// ---------------------------------------------------------------------
// What belongs to a model

/// The models with a prebuilt encoder, and what marks a quantization.
pub proof fn law_known(model: Seq<char>, tail: Seq<char>)
    ensures
        known(model) <==> (model == "tiny"@ || model == "tiny.en"@ || model == "base"@ || model
            == "base.en"@ || model == "small"@ || model == "small.en"@ || model == "medium"@ || model
            == "medium.en"@ || model == "large-v1"@ || model == "large-v2"@ || model == "large-v3"@
            || model == "large-v3-turbo"@),
        quantization(tail) <==> tail.len() > 0 && forall|k: int|
            0 <= k < tail.len() ==> (48 <= #[trigger] tail[k] as int <= 57 || tail[k] == '_'),
{
    if tail.len() > 0 && forall|k: int|
        0 <= k < tail.len() ==> (48 <= #[trigger] tail[k] as int <= 57 || tail[k] == '_') {
        assert forall|i: int| 0 <= i < tail.len() implies text::digit(#[trigger] tail[i])
            || tail[i] == '_' by {}
    }
    if quantization(tail) {
        assert forall|k: int| 0 <= k < tail.len() implies (48 <= #[trigger] tail[k] as int <= 57
            || tail[k] == '_') by {
            assert(text::digit(tail[k]) || tail[k] == '_');
        }
    }
}

/// A name without a quantization suffix stays: one without the mark, and one whose
/// last mark is followed by anything but digits and underscores.
pub proof fn law_unmarked_stays(stem: Seq<char>, i: int)
    requires
        text::occurs_nowhere(stem, seq!['-', 'q']) || (text::last_at(stem, seq!['-', 'q'], i)
            && !quantization(stem.skip(i + 2))),
    ensures
        stripped(stem) == stem,
{
    assert forall|k: int| !(#[trigger] suffix_at(stem, k)) by {
        if suffix_at(stem, k) {
            if text::occurs_nowhere(stem, seq!['-', 'q']) {
                assert(!text::occurs_at(stem, seq!['-', 'q'], k));
            } else {
                lemma_one_suffix(stem, i, k);
            }
        }
    }
}

/// The encoder of a model stands beside it, in a folder of the model's name, and
/// comes from the archive of that name. A model that is not among the known ones
/// has none.
pub proof fn law_encoder_stands_beside(folder: Seq<char>, model: Seq<char>)
    requires
        folder.len() > 0,
        folder.last() != '/',
        folder.len() > 1 ==> !(folder.last() == '.' && folder[folder.len() - 2] == '/'),
        text::occurs_nowhere("ggml-"@ + model, seq!['-', 'q']),
        forall|j: int| 0 <= j < model.len() ==> #[trigger] model[j] != '/',
    ensures
        known(model) ==> encoder_of(folder + seq!['/'] + ("ggml-"@ + model + ".bin"@)) == Some(
            (
                folder + seq!['/'] + ("ggml-"@ + model + "-encoder.mlmodelc"@),
                "ggml-"@ + model + "-encoder.mlmodelc.zip"@,
            ),
        ),
        !known(model) ==> encoder_of(folder + seq!['/'] + ("ggml-"@ + model + ".bin"@)) is None,
{
    reveal_strlit("ggml-");
    reveal_strlit(".bin");
    let base = "ggml-"@ + model;
    let name = base + ".bin"@;
    let path = folder + seq!['/'] + name;
    assert forall|j: int| 0 <= j < name.len() implies #[trigger] name[j] != '/' by {
        if 5 <= j < base.len() {
            assert(name[j] == model[j - 5]);
        } else if j >= base.len() {
            assert(name[j] == ".bin"@[j - base.len()]);
        } else {
            assert(name[j] == "ggml-"@[j]);
        }
    }
    assert(name.last() == 'n');
    lemma_named(folder, name);
    lemma_stem(base);
    law_unmarked_stays(base, 0);
    assert(base.subrange(0, 5) =~= "ggml-"@);
    assert(text::occurs_at(base, "ggml-"@, 0));
    assert(base.skip(5) =~= model);
    let rest = folder + seq!['/'];
    assert(rest.drop_last() =~= folder);
    assert(without_tail(folder) == folder);
    assert(without_tail(rest) == folder);
    assert(parent(path) == folder);
}

/// Separators and `.` components at the end of a path do not count.
pub proof fn law_tail_does_not_count(p: Seq<char>)
    ensures
        without_tail(p + seq!['/']) == without_tail(p),
        without_tail(p + seq!['/', '.']) == without_tail(p),
        file_name(p + seq!['/', '.']) == file_name(p),
        parent(p + seq!['/', '.']) == parent(p),
        p.len() > 0 && p.last() != '/' && p.last() != '.' ==> without_tail(p) == p,
{
    let a = p + seq!['/'];
    let b = p + seq!['/', '.'];
    assert(a.drop_last() =~= p);
    assert(b.drop_last() =~= a);
    assert(b.last() == '.' && b[b.len() - 2] == '/');
    assert(without_tail(a) == without_tail(p));
    assert(without_tail(b) == without_tail(a));
}

/// A file at the root stands in the root, and a bare name stands in no folder: what
/// is put beside it has a bare name too.
pub proof fn law_top_level(name: Seq<char>, other: Seq<char>)
    requires
        name.len() > 1,
        name.last() != '.',
        forall|j: int| 0 <= j < name.len() ==> #[trigger] name[j] != '/',
    ensures
        parent(seq!['/'] + name) == seq!['/'],
        inside(parent(seq!['/'] + name), other) == seq!['/'] + other,
        file_name(seq!['/'] + name) == Some(name),
        parent(name).len() == 0,
        inside(parent(name), other) == other,
        file_name(name) == Some(name),
{
    let none = Seq::<char>::empty();
    let root = seq!['/'];
    lemma_named(none, name);
    assert(none + root + name =~= root + name);
    assert(none + root =~= root);
    assert(root.drop_last() =~= none);
    assert(without_tail(none) == none);
    assert(without_tail(root) == none);
    assert(name[name.len() - 1] != '/');
    assert(without_tail(name) == name);
    lemma_last_of(name, '/', -1);
    assert(name.skip(0) =~= name);
    assert(name.take(0) =~= none);
    assert(parent(name) == none);
    assert(inside(none, other) =~= other);
    assert(name[name.len() - 1] != '.');
    assert(name != seq!['.'] && name != seq!['.', '.']) by {
        assert(seq!['.', '.'].last() == '.');
    }
}

/// A name ends before its last dot, unless it begins with it.
pub proof fn law_stems(stem: Seq<char>, ext: Seq<char>)
    requires
        forall|j: int| 0 <= j < ext.len() ==> #[trigger] ext[j] != '.',
    ensures
        stem.len() > 0 ==> stem_of(stem + seq!['.'] + ext) == stem,
        stem.len() == 0 ==> stem_of(stem + seq!['.'] + ext) == stem + seq!['.'] + ext,
        stem_of(ext) == ext,
{
    let s = stem + seq!['.'] + ext;
    let i = stem.len() as int;
    assert(s[i] == '.');
    assert forall|j: int| i < j < s.len() implies #[trigger] s[j] != '.' by {
        assert(s[j] == ext[j - i - 1]);
    }
    lemma_last_of(s, '.', i);
    assert(s.take(i) =~= stem);
    lemma_last_of(ext, '.', -1);
}

/// A path that names no file: none, the root, and those that end by going up.
pub proof fn law_no_name(p: Seq<char>)
    ensures
        file_name(Seq::empty()) is None,
        file_name(seq!['/']) is None,
        file_name(seq!['.', '.']) is None,
        file_name(p + seq!['/', '.', '.']) is None,
{
    let none = Seq::<char>::empty();
    let up = seq!['.', '.'];
    assert(seq!['/'].drop_last() =~= none);
    assert(without_tail(none) == none);
    assert(without_tail(seq!['/']) == none);
    assert(last_of(none, '/') == -1);
    assert(none.skip(0) =~= none);
    assert(without_tail(up) == up);
    lemma_last_of(up, '/', -1);
    assert(up.skip(0) =~= up);
    let q = p + seq!['/', '.', '.'];
    let i = p.len() as int;
    assert(q[i + 1] == '.' && q[i + 2] == '.');
    assert(without_tail(q) == q);
    lemma_last_of(q, '/', i);
    assert(q.skip(i + 1) =~= up);
}

/// An encoder that is there is never fetched, one that was never begun is, and
/// only what begins is remembered.
pub proof fn law_considered(attempts: Seq<Seq<Seq<char>>>, dir: Seq<char>, installed: bool)
    ensures
        !may_begin(attempts, dir, true),
        (forall|k: int| 0 <= k < attempts.len() ==> #[trigger] attempts[k] != components(dir))
            ==> may_begin(attempts, dir, false) && considered(attempts, dir, false)
            == attempts.push(components(dir)),
        attempts.contains(components(dir)) ==> considered(attempts, dir, installed) == attempts,
        considered(attempts, dir, true) == attempts,
{
}

} // verus!
