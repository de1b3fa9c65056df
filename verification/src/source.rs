//! The job source: which files hold text, what their output is named after,
//! and the text units of one file.

use crate::error::InputError;
use vstd::prelude::*;
use vstd::string::{StrSliceExecFns, StringExecFns};

verus! {

/// The extension of the file that a path names, if it has one: what
/// `Path::extension` returns for the path.
pub uninterp spec fn path_extension(path: Seq<char>) -> Option<Seq<char>>;

/// The name without its extension of the file that a path names, if it
/// has one: what `Path::file_stem` returns for the path.
pub uninterp spec fn path_file_stem(path: Seq<char>) -> Option<Seq<char>>;

/// Whether a character is white space: whether it has the Unicode
/// property `White_Space`.
pub open spec fn is_white_space(c: char) -> bool {
    let u = c as u32;
    ||| 0x09 <= u <= 0x0D
    ||| u == 0x20
    ||| u == 0x85
    ||| u == 0xA0
    ||| u == 0x1680
    ||| 0x2000 <= u <= 0x200A
    ||| u == 0x2028
    ||| u == 0x2029
    ||| u == 0x202F
    ||| u == 0x205F
    ||| u == 0x3000
}

/// A text without the white space at its start.
pub open spec fn trimmed_start(text: Seq<char>) -> Seq<char>
    decreases text.len(),
{
    if text.len() > 0 && is_white_space(text[0]) {
        trimmed_start(text.skip(1))
    } else {
        text
    }
}

/// A text without the white space at its end.
pub open spec fn trimmed_end(text: Seq<char>) -> Seq<char>
    decreases text.len(),
{
    if text.len() > 0 && is_white_space(text.last()) {
        trimmed_end(text.drop_last())
    } else {
        text
    }
}

/// A text without the white space at its start and at its end.
pub open spec fn trimmed(text: Seq<char>) -> Seq<char> {
    trimmed_end(trimmed_start(text))
}

/// Trusted: `Path::extension`. The extension of a path depends on the
/// path alone.
#[verifier::external_body]
fn extension_of(path: &str) -> (extension: Option<String>)
    ensures
        match extension {
            Some(e) => path_extension(path@) == Some(e@),
            None => path_extension(path@) is None,
        },
{
    std::path::Path::new(path).extension().and_then(|e| e.to_str()).map(|e| e.to_string())
}

/// Trusted: `Path::file_stem`. The file stem of a path depends on the path
/// alone.
#[verifier::external_body]
fn stem_of(path: &str) -> (stem: Option<String>)
    ensures
        match stem {
            Some(s) => path_file_stem(path@) == Some(s@),
            None => path_file_stem(path@) is None,
        },
{
    std::path::Path::new(path).file_stem().and_then(|s| s.to_str()).map(|s| s.to_string())
}

/// Trusted: `str::trim`. It returns the text without the white space at
/// its start and at its end, where white space is what has the Unicode
/// property `White_Space`.
#[verifier::external_body]
fn trim(text: &str) -> (inner: String)
    ensures
        inner@ == trimmed(text@),
{
    text.trim().to_string()
}

/// Whether an extension is `txt` in any mix of upper and lower case.
pub open spec fn is_txt_extension(extension: Seq<char>) -> bool {
    &&& extension.len() == 3
    &&& (extension[0] == 't' || extension[0] == 'T')
    &&& (extension[1] == 'x' || extension[1] == 'X')
    &&& (extension[2] == 't' || extension[2] == 'T')
}

/// Whether the extension of a file, if it has one, marks a text file.
pub fn extension_is_txt(extension: Option<&str>) -> (yes: bool)
    ensures
        yes == match extension {
            Some(e) => is_txt_extension(e@),
            None => false,
        },
{
    match extension {
        None => false,
        Some(e) => {
            if e.unicode_len() != 3 {
                false
            } else {
                let a = e.get_char(0);
                let b = e.get_char(1);
                let c = e.get_char(2);
                (a == 't' || a == 'T') && (b == 'x' || b == 'X') && (c == 't' || c == 'T')
            }
        },
    }
}

/// Whether a path names a text file: its extension is `txt`, in any case.
pub fn is_txt(p: &str) -> (yes: bool)
    ensures
        yes == match path_extension(p@) {
            Some(e) => is_txt_extension(e),
            None => false,
        },
{
    match extension_of(p) {
        Some(e) => extension_is_txt(Some(e.as_str())),
        None => extension_is_txt(None),
    }
}

/// The name for the output of a file without a usable stem.
pub open spec fn unknown_stem() -> Seq<char> {
    seq!['u', 'n', 'k', 'n', 'o', 'w', 'n']
}

/// The stem of a file, or `unknown` where it has none.
pub fn stem_or_unknown(stem: Option<String>) -> (name: String)
    ensures
        name@ == match stem {
            Some(s) => s@,
            None => unknown_stem(),
        },
{
    match stem {
        Some(s) => s,
        None => {
            proof {
                reveal_strlit("unknown");
            }
            let name = String::from_str("unknown");
            assert(name@ =~= unknown_stem());
            name
        },
    }
}

/// The name of a file without its extension, or `unknown` where the path
/// has none.
pub fn file_stem_string(p: &str) -> (name: String)
    ensures
        name@ == match path_file_stem(p@) {
            Some(s) => s,
            None => unknown_stem(),
        },
{
    stem_or_unknown(stem_of(p))
}

/// The prefix of the segment files of one input: `<root>/audio` for a
/// single input, `<root>/<batch>/audio` for an input of a folder.
pub open spec fn prefix_for(root: Seq<char>, batch: Option<Seq<char>>) -> Seq<char> {
    match batch {
        Some(name) => root + seq!['/'] + name + seq!['/', 'a', 'u', 'd', 'i', 'o'],
        None => root + seq!['/', 'a', 'u', 'd', 'i', 'o'],
    }
}

/// The prefix of the segment files of one input.
pub fn output_prefix(root: &str, batch: Option<&str>) -> (prefix: String)
    ensures
        prefix@ == prefix_for(
            root@,
            match batch {
                Some(name) => Some(name@),
                None => None,
            },
        ),
{
    proof {
        reveal_strlit("/");
        reveal_strlit("/audio");
    }
    let mut prefix = String::from_str(root);
    match batch {
        Some(name) => {
            prefix.append("/");
            prefix.append(name);
            prefix.append("/audio");
            assert(prefix@ =~= prefix_for(root@, Some(name@)));
        },
        None => {
            prefix.append("/audio");
            assert(prefix@ =~= prefix_for(root@, None));
        },
    }
    prefix
}

/// The texts of a run of strings.
pub open spec fn texts(lines: Seq<String>) -> Seq<Seq<char>> {
    Seq::new(lines.len(), |i: int| lines[i]@)
}

/// The text units of the lines of a file: each line trimmed, the empty
/// ones left out, in the order of the lines.
pub open spec fn text_units(lines: Seq<Seq<char>>) -> Seq<Seq<char>>
    decreases lines.len(),
{
    if lines.len() == 0 {
        Seq::empty()
    } else {
        let before = text_units(lines.drop_last());
        let unit = trimmed(lines.last());
        if unit.len() == 0 {
            before
        } else {
            before.push(unit)
        }
    }
}

/// The text units of the lines of a file: each line is trimmed, and a line
/// that is empty then is dropped.
pub fn non_empty_lines(lines: &Vec<String>) -> (units: Vec<String>)
    ensures
        texts(units@) == text_units(texts(lines@)),
{
    let mut units: Vec<String> = Vec::new();
    let mut i: usize = 0;
    assert(texts(lines@).take(0) =~= Seq::<Seq<char>>::empty());
    assert(texts(units@) =~= Seq::<Seq<char>>::empty());
    while i < lines.len()
        invariant
            i <= lines@.len(),
            texts(units@) == text_units(texts(lines@).take(i as int)),
        decreases lines@.len() - i,
    {
        let unit = trim(lines[i].as_str());
        let ghost before = units@;
        proof {
            let upto = texts(lines@).take(i + 1);
            assert(upto.drop_last() =~= texts(lines@).take(i as int));
            assert(upto.last() == lines@[i as int]@);
        }
        if unit.as_str().unicode_len() != 0 {
            units.push(unit);
            assert(texts(units@) =~= texts(before).push(unit@));
        }
        i = i + 1;
    }
    assert(texts(lines@).take(lines@.len() as int) =~= texts(lines@));
    units
}

/// One text unit to synthesise, with its place in the input.
#[derive(Debug, Clone, PartialEq, Eq)]
pub struct Job {
    /// The place of the unit in the input, counted from 0.
    pub position: usize,
    /// The text; it is not empty.
    pub text: String,
}

/// Whether `jobs` are the jobs of `units`: one for each, in order, at
/// positions 0, 1, 2 and so on.
pub open spec fn jobs_of(jobs: Seq<Job>, units: Seq<String>) -> bool {
    &&& jobs.len() == units.len()
    &&& forall|i: int|
        0 <= i < jobs.len() ==> (#[trigger] jobs[i]).position == i && jobs[i].text == units[i]
}

/// Gives each text unit its position. An empty unit is an error of the
/// input: the first one is reported and no job is made.
pub fn enumerate_jobs(units: Vec<String>) -> (r: Result<Vec<Job>, InputError>)
    ensures
        match r {
            Ok(jobs) => jobs_of(jobs@, units@) && forall|i: int|
                0 <= i < units@.len() ==> (#[trigger] units@[i])@.len() != 0,
            Err(InputError::EmptyText { position }) => {
                &&& position < units@.len()
                &&& units@[position as int]@.len() == 0
                &&& forall|j: int| 0 <= j < position ==> (#[trigger] units@[j])@.len() != 0
            },
        },
{
    let ghost all = units@;
    let mut i: usize = 0;
    while i < units.len()
        invariant
            units@ == all,
            i <= all.len(),
            forall|j: int| 0 <= j < i ==> (#[trigger] all[j])@.len() != 0,
        decreases all.len() - i,
    {
        if units[i].as_str().unicode_len() == 0 {
            return Err(InputError::EmptyText { position: i });
        }
        i = i + 1;
    }
    let mut rest = units;
    let mut reversed: Vec<Job> = Vec::new();
    while rest.len() > 0
        invariant
            rest@.len() + reversed@.len() == all.len(),
            forall|j: int| 0 <= j < rest@.len() ==> rest@[j] == all[j],
            forall|j: int|
                0 <= j < reversed@.len() ==> (#[trigger] reversed@[j]).position == all.len() - 1
                    - j && reversed@[j].text == all[all.len() - 1 - j],
        decreases rest@.len(),
    {
        let position = rest.len() - 1;
        let text = rest.pop().unwrap();
        reversed.push(Job { position, text });
    }
    let mut jobs: Vec<Job> = Vec::new();
    while reversed.len() > 0
        invariant
            jobs@.len() + reversed@.len() == all.len(),
            forall|j: int|
                0 <= j < reversed@.len() ==> (#[trigger] reversed@[j]).position == all.len() - 1
                    - j && reversed@[j].text == all[all.len() - 1 - j],
            forall|j: int|
                0 <= j < jobs@.len() ==> (#[trigger] jobs@[j]).position == j && jobs@[j].text
                    == all[j],
        decreases reversed@.len(),
    {
        let job = reversed.pop().unwrap();
        jobs.push(job);
    }
    Ok(jobs)
}

} // verus!
