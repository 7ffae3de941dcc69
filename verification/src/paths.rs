//! Paths and what is asked of them.

use std::path::PathBuf;
use vstd::prelude::*;

verus! {

/// `std::path::PathBuf`, an owned path.
#[verifier::external_type_specification]
#[verifier::external_body]
pub struct ExPathBuf(std::path::PathBuf);

/// The text of a path, as `std::path::Path::to_str` gives it.
pub uninterp spec fn path_text(path: std::path::PathBuf) -> Option<Seq<char>>;

/// The extension of a path, where it is text, as `std::path::Path::extension`
/// gives it.
pub uninterp spec fn path_extension_text(path: std::path::PathBuf) -> Option<Seq<char>>;

/// The path that `std::path::Path::with_extension` makes.
pub uninterp spec fn extended_path(
    path: std::path::PathBuf,
    extension: Seq<char>,
) -> std::path::PathBuf;

/// The path that `std::path::Path::join` makes.
pub uninterp spec fn joined_path(dir: std::path::PathBuf, name: Seq<char>) -> std::path::PathBuf;

/// The last component of a path: what stands behind its last slash.
pub open spec fn last_component(text: Seq<char>) -> Seq<char>
    decreases text.len(),
{
    if text.len() == 0 || text.last() == '/' {
        Seq::empty()
    } else {
        last_component(text.drop_last()).push(text.last())
    }
}

/// A path that every platform reads alike: made of components between slashes,
/// the last of which is the name of a file that is more than a dot before its
/// extension.
pub open spec fn is_plain_path(text: Seq<char>) -> bool {
    &&& forall|i: int| 0 <= i < text.len() ==> #[trigger] text[i] != '\\' && text[i] != ':'
    &&& !(text.len() >= 2 && text[0] == '/' && text[1] == '/')
    &&& last_component(text).len() > 0
    &&& last_component(text) != seq!['.']
    &&& last_component(text) != seq!['.', '.']
    &&& name_stem(last_component(text)) != seq!['.']
}

/// The index of the last dot of a name, `-1` where it has none.
pub open spec fn last_dot(name: Seq<char>) -> int
    decreases name.len(),
{
    if name.len() == 0 {
        -1
    } else if name.last() == '.' {
        name.len() - 1
    } else {
        last_dot(name.drop_last())
    }
}

/// The extension of a file name: what stands behind its last dot, unless that
/// dot begins the name.
pub open spec fn name_extension(name: Seq<char>) -> Option<Seq<char>> {
    if last_dot(name) <= 0 {
        None
    } else {
        Some(name.skip(last_dot(name) + 1))
    }
}

/// A file name without its extension.
pub open spec fn name_stem(name: Seq<char>) -> Seq<char> {
    if last_dot(name) <= 0 {
        name
    } else {
        name.take(last_dot(name))
    }
}

/// The path without the extension of its file name.
pub open spec fn without_extension(text: Seq<char>) -> Seq<char> {
    let name = last_component(text);
    if last_dot(name) <= 0 {
        text
    } else {
        text.take(text.len() - (name.len() - last_dot(name)))
    }
}

/// `Path::extension`, where it is text. Of plain paths it is what stands behind
/// the last dot; how the others are taken apart depends on the platform.
#[verifier::external_body]
pub(crate) fn path_extension(path: &PathBuf) -> (r: Option<String>)
    ensures
        path_extension_text(*path) == match r {
            Some(text) => Some(text@),
            None => None,
        },
        path_text(*path) is Some && is_plain_path(path_text(*path).unwrap()) ==> name_extension(
            last_component(path_text(*path).unwrap()),
        ) == match r {
            Some(text) => Some(text@),
            None => None,
        },
{
    path.extension().and_then(|extension| extension.to_str()).map(str::to_owned)
}

/// Whether two dots follow one another in a path.
pub open spec fn has_double_dot(text: Seq<char>) -> bool {
    exists|i: int| 0 <= i < text.len() - 1 && #[trigger] text[i] == '.' && text[i + 1] == '.'
}

/// Whether the platform separates the components of a path by a character, as
/// `std::path::is_separator` says.
pub uninterp spec fn separates(c: char) -> bool;

/// `std::path::is_separator`: whether a character is a separator of paths on
/// the platform that the program is built for. Which characters are is not
/// stated.
#[verifier::external_body]
pub(crate) fn is_path_separator(c: char) -> (r: bool)
    ensures
        r == separates(c),
{
    std::path::is_separator(c)
}

/// Whether a text can be an extension: it holds no slash, and a backslash only
/// where the platform does not separate components by it.
pub open spec fn is_extension(text: Seq<char>) -> bool {
    &&& !text.contains('/')
    &&& text.contains('\\') ==> !separates('\\')
}

/// `Path::with_extension`. An extension without a dot is that of the result, or
/// setting it once more changes nothing, as where there is no file name. Where
/// no two dots follow one another in the path, one without the extension is
/// the path itself. Of plain paths the extension is added or replaced behind
/// the last dot; how the others are taken apart depends on the platform.
#[verifier::external_body]
pub(crate) fn path_with_extension(path: &PathBuf, extension: &str) -> (r: PathBuf)
    requires
        extension@.len() > 0,
        is_extension(extension@),
    ensures
        r == extended_path(*path, extension@),
        !extension@.contains('.') ==> path_extension_text(r) == Some(extension@) || extended_path(
            r,
            extension@,
        ) == r,
        !extension@.contains('.') && path_text(*path) is Some && !has_double_dot(
            path_text(*path).unwrap(),
        ) ==> path_extension_text(r) == Some(extension@) || r == *path,
        path_text(*path) is Some && is_plain_path(path_text(*path).unwrap()) ==> path_text(r)
            == Some(without_extension(path_text(*path).unwrap()) + seq!['.'] + extension@),
{
    path.with_extension(extension)
}

/// Whether a directory is, or with a separator behind it begins, a verbatim
/// path of Windows, which is put together from its components when a name is
/// joined to it.
pub open spec fn is_verbatim(text: Seq<char>) -> bool {
    &&& text.len() >= 3
    &&& text[0] == '\\'
    &&& text[1] == '\\'
    &&& text[2] == '?'
    &&& text.len() == 3 || text[3] == '\\'
}

/// Whether a directory is text and not verbatim.
pub open spec fn is_text_dir(dir: std::path::PathBuf) -> bool {
    path_text(dir) is Some && !is_verbatim(path_text(dir).unwrap())
}

/// `Path::join`. For a relative name without separators or colons its text is
/// stated: the separator that is put between depends on the platform, and none
/// is put behind a directory that is empty or ends in one or in the colon of a
/// drive. The text behind a verbatim directory is not stated.
#[verifier::external_body]
pub(crate) fn path_join(dir: &PathBuf, name: &str) -> (r: PathBuf)
    ensures
        r == joined_path(*dir, name@),
        is_text_dir(*dir) && is_file_name(name@) ==> path_text(r) is Some && is_joined(
            path_text(*dir).unwrap(),
            name@,
            path_text(r).unwrap(),
        ),
{
    dir.join(name)
}

/// A name that is a single component on every platform, and that of a file.
pub open spec fn is_file_name(name: Seq<char>) -> bool {
    &&& name.len() > 0
    &&& name != seq!['.']
    &&& name != seq!['.', '.']
    &&& forall|i: int|
        0 <= i < name.len() ==> #[trigger] name[i] != '/' && name[i] != '\\' && name[i] != ':'
}

/// Whether `text` is `dir`, at most one separator, and `name`.
pub open spec fn is_joined(dir: Seq<char>, name: Seq<char>, text: Seq<char>) -> bool {
    ||| text == dir + name && (dir.len() == 0 || dir.last() == '/' || dir.last() == '\\' || dir.last()
        == ':')
    ||| text == dir + seq!['/'] + name && dir.len() > 0
    ||| text == dir + seq!['\\'] + name && dir.len() > 0
}

/// The path of a text, as `PathBuf::from` makes it.
#[verifier::external_body]
pub(crate) fn path_from(text: &str) -> (r: PathBuf)
    ensures
        path_text(r) == Some(text@),
{
    PathBuf::from(text)
}

/// The path of some names below one another, in a directory.
pub open spec fn descended_path(dir: std::path::PathBuf, names: Seq<Seq<char>>) -> std::path::PathBuf
    decreases names.len(),
{
    if names.len() == 0 {
        dir
    } else {
        joined_path(descended_path(dir, names.drop_last()), names.last())
    }
}

/// Whether `text` is `dir` and the names, with at most one separator before
/// each.
pub open spec fn is_descended(dir: Seq<char>, names: Seq<Seq<char>>, text: Seq<char>) -> bool
    decreases names.len(),
{
    if names.len() == 0 {
        text == dir
    } else {
        exists|parent: Seq<char>|
            is_descended(dir, names.drop_last(), parent) && #[trigger] is_joined(
                parent,
                names.last(),
                text,
            )
    }
}

} // verus!
