//! Source-agnostic layout persistence: names and files of layouts, reading
//! them, and choosing between sources.

use crate::layout_doc::{FieldRef, LayoutDoc, LayoutError, LAYOUT_VERSION};
use crate::layout_load::{applied, apply_doc, build_doc, clean, prepared, LayoutApply};
use crate::layout_resolve::{ambiguity_views, AmbiguousField, Resolver, Setting};
use crate::paths::{
    descended_path, extended_path, is_descended, is_extension, is_file_name, is_joined,
    is_path_separator, is_plain_path, is_text_dir, is_verbatim, joined_path, last_component,
    name_extension, path_extension, path_extension_text, path_join, path_text,
    path_with_extension, separates, without_extension,
};
use crate::snapshot::{SourceId, StoreSnapshot};
use crate::store::{graph_stems, list_graphs, DirEntryName};
use crate::text::{chars_of, sorted_texts, views};
use std::path::PathBuf;
use vstd::prelude::*;

verus! {

/// Whether a character may stand in the name of a layout.
pub open spec fn is_name_char(c: char) -> bool {
    ('a' <= c && c <= 'z') || ('A' <= c && c <= 'Z') || ('0' <= c && c <= '9') || c == '-' || c
        == '_'
}

/// The character that stands for `c` in the name of a layout.
pub open spec fn name_char(c: char) -> char {
    if is_name_char(c) {
        c
    } else {
        '_'
    }
}

pub open spec fn name_chars(name: Seq<char>) -> Seq<char> {
    Seq::new(name.len(), |i: int| name_char(name[i]))
}

/// A text without the underscores at its two ends.
pub open spec fn without_underscores(s: Seq<char>) -> Seq<char>
    decreases s.len(),
{
    if s.len() == 0 {
        s
    } else if s.first() == '_' {
        without_underscores(s.drop_first())
    } else if s.last() == '_' {
        without_underscores(s.drop_last())
    } else {
        s
    }
}

/// The name under which a layout is stored.
pub open spec fn sanitized(name: Seq<char>) -> Seq<char> {
    let inner = without_underscores(name_chars(name));
    if inner.len() == 0 {
        "default"@
    } else {
        inner
    }
}

proof fn lemma_without_underscores(s: Seq<char>)
    requires
        forall|i: int| 0 <= i < s.len() ==> is_name_char(#[trigger] s[i]),
    ensures
        ({
            let r = without_underscores(s);
            &&& forall|i: int| 0 <= i < r.len() ==> is_name_char(#[trigger] r[i])
            &&& r.len() > 0 ==> r.first() != '_' && r.last() != '_'
        }),
    decreases s.len(),
{
    if s.len() > 0 {
        if s.first() == '_' {
            lemma_without_underscores(s.drop_first());
        } else if s.last() == '_' {
            lemma_without_underscores(s.drop_last());
        }
    }
}

/// The name of a stored layout is never empty, holds no character that could
/// lead out of the directory, and is stored under itself.
pub proof fn sanitized_names_are_safe(name: Seq<char>)
    ensures
        sanitized(name).len() > 0,
        forall|i: int| 0 <= i < sanitized(name).len() ==> is_name_char(#[trigger] sanitized(name)[i]),
        sanitized(sanitized(name)) == sanitized(name),
        is_file_name(sanitized(name)),
{
    reveal_strlit("default");
    let chars = name_chars(name);
    lemma_without_underscores(chars);
    let s = sanitized(name);
    assert forall|i: int| 0 <= i < s.len() implies is_name_char(#[trigger] s[i]) by {}
    assert(name_chars(s) =~= s) by {
        assert forall|i: int| 0 <= i < s.len() implies name_chars(s)[i] == s[i] by {
            assert(is_name_char(s[i]));
        }
    }
    assert(without_underscores(s) == s) by {
        assert(s.first() != '_' && s.last() != '_');
    }
    assert(is_file_name(s)) by {
        assert forall|i: int| 0 <= i < s.len() implies #[trigger] s[i] != '/' && s[i] != '\\' && s[i]
            != ':' by {
            assert(is_name_char(s[i]));
        }
    }
}

fn name_char_of(c: char) -> (r: char)
    ensures
        r == name_char(c),
{
    if ('a' <= c && c <= 'z') || ('A' <= c && c <= 'Z') || ('0' <= c && c <= '9') || c == '-' || c
        == '_' {
        c
    } else {
        '_'
    }
}

/// The name under which a layout is stored: other characters than letters,
/// digits, hyphens and underscores become underscores, and none of these stands
/// at an end.
pub fn sanitize_name(name: &str) -> (r: String)
    ensures
        r@ == sanitized(name@),
{
    let given = chars_of(name);
    let mut chars: Vec<char> = Vec::new();
    let mut i: usize = 0;
    while i < given.len()
        invariant
            i <= given@.len(),
            chars@ == name_chars(given@).take(i as int),
        decreases given@.len() - i,
    {
        chars.push(name_char_of(given[i]));
        proof {
            assert(name_chars(given@).take(i + 1) =~= name_chars(given@).take(i as int).push(
                name_char(given@[i as int]),
            ));
        }
        i = i + 1;
    }
    let ghost all = name_chars(name@);
    proof {
        assert(chars@ =~= all);
        assert(all.subrange(0, all.len() as int) =~= all);
    }
    let mut from: usize = 0;
    let mut to: usize = chars.len();
    while from < to && chars[from] == '_'
        invariant
            from <= to == chars@.len(),
            chars@ == all,
            without_underscores(all) == without_underscores(
                all.subrange(from as int, to as int),
            ),
        ensures
            from <= to == chars@.len(),
            without_underscores(all) == without_underscores(
                all.subrange(from as int, to as int),
            ),
            from < to ==> all[from as int] != '_',
        decreases to - from,
    {
        proof {
            assert(all.subrange(from as int, to as int).drop_first() =~= all.subrange(
                from + 1,
                to as int,
            ));
        }
        from = from + 1;
    }
    while from < to && chars[to - 1] == '_'
        invariant
            from <= to <= chars@.len(),
            chars@ == all,
            without_underscores(all) == without_underscores(
                all.subrange(from as int, to as int),
            ),
            from < to ==> all[from as int] != '_',
        ensures
            from <= to <= chars@.len(),
            without_underscores(all) == all.subrange(from as int, to as int),
        decreases to - from,
    {
        proof {
            assert(all.subrange(from as int, to as int).drop_last() =~= all.subrange(
                from as int,
                to - 1,
            ));
        }
        to = to - 1;
    }
    if from >= to {
        "default".to_owned()
    } else {
        crate::text::text_of(&chars, from, to)
    }
}

/// What decides where the application keeps its files.
#[derive(Clone, Copy, Debug, PartialEq, Eq, Structural)]
pub enum Platform {
    Windows,
    MacOs,
    Other,
}

/// The directories that the environment names.
pub struct StorageRoots {
    /// The directory for data of applications, which Windows names.
    pub app_data: Option<PathBuf>,
    /// The data directory that the user has set, if it is absolute.
    pub data_home: Option<PathBuf>,
    pub home: Option<PathBuf>,
}

/// The directory below which the files are kept, and the names of those on the
/// way to them.
pub open spec fn storage_place(platform: Platform, roots: StorageRoots) -> (
    Option<PathBuf>,
    Seq<Seq<char>>,
) {
    match platform {
        Platform::Windows => (roots.app_data, seq!["DeLOG"@, "data"@]),
        Platform::MacOs => (roots.home, seq!["Library"@, "Application Support"@, "DeLOG"@]),
        Platform::Other => match roots.data_home {
            Some(dir) => (Some(dir), seq!["delog"@]),
            None => (roots.home, seq![".local"@, "share"@, "delog"@]),
        },
    }
}

/// The directory in which the application keeps its files, where there is one.
pub open spec fn storage_dir(platform: Platform, roots: StorageRoots) -> Option<PathBuf> {
    match storage_place(platform, roots) {
        (Some(root), names) => Some(descended_path(root, names)),
        (None, _) => None,
    }
}

/// A name that makes no verbatim path of what is not one.
spec fn is_storage_name(name: Seq<char>) -> bool {
    is_file_name(name) && name[0] != '?'
}

proof fn lemma_stays_text_dir(dir: Seq<char>, name: Seq<char>, text: Seq<char>)
    requires
        !is_verbatim(dir),
        is_storage_name(name),
        is_joined(dir, name, text),
    ensures
        !is_verbatim(text),
{
    assert(name[0] != '\\');
    assert forall|i: int| 0 <= i < dir.len() implies #[trigger] text[i] == dir[i] by {}
    if is_verbatim(text) {
        assert(text[0] == '\\' && text[1] == '\\' && text[2] == '?');
        if dir.len() < 3 {
            if text == dir + name {
                assert(text[dir.len() as int] == name[0]);
            } else {
                assert(text[dir.len() as int + 1] == name[0]);
                assert(text[dir.len() as int] == '/' || text[dir.len() as int] == '\\');
            }
        }
    }
}

/// A directory some names below another.
fn descend(dir: &PathBuf, names: &Vec<&str>) -> (r: PathBuf)
    requires
        names@.len() > 0,
        forall|i: int| 0 <= i < names@.len() ==> is_storage_name((#[trigger] names@[i])@),
    ensures
        r == descended_path(*dir, names@.map_values(|name: &str| name@)),
        is_text_dir(*dir) ==> path_text(r) is Some && is_descended(
            path_text(*dir).unwrap(),
            names@.map_values(|name: &str| name@),
            path_text(r).unwrap(),
        ),
{
    let ghost all = names@.map_values(|name: &str| name@);
    let mut path = path_join(dir, names[0]);
    let mut i: usize = 1;
    proof {
        assert(is_storage_name(names@[0]@));
        assert(all.take(1).drop_last() =~= Seq::empty());
        assert(all.take(1).last() == names@[0]@);
        assert(descended_path(*dir, all.take(1).drop_last()) == *dir);
        if is_text_dir(*dir) {
            let text = path_text(*dir).unwrap();
            assert(is_descended(text, all.take(1).drop_last(), text));
            assert(is_joined(text, all.take(1).last(), path_text(path).unwrap()));
            assert(is_descended(text, all.take(1), path_text(path).unwrap()));
            lemma_stays_text_dir(text, names@[0]@, path_text(path).unwrap());
        }
    }
    while i < names.len()
        invariant
            1 <= i <= names@.len(),
            forall|j: int| 0 <= j < names@.len() ==> is_storage_name((#[trigger] names@[j])@),
            all == names@.map_values(|name: &str| name@),
            path == descended_path(*dir, all.take(i as int)),
            is_text_dir(*dir) ==> is_text_dir(path) && is_descended(
                path_text(*dir).unwrap(),
                all.take(i as int),
                path_text(path).unwrap(),
            ),
        decreases names@.len() - i,
    {
        let next = path_join(&path, names[i]);
        proof {
            assert(is_storage_name(names@[i as int]@));
            assert(all.take(i + 1).drop_last() =~= all.take(i as int));
            assert(all.take(i + 1).last() == names@[i as int]@);
            if is_text_dir(*dir) {
                let text = path_text(*dir).unwrap();
                let parent = path_text(path).unwrap();
                assert(is_descended(text, all.take(i + 1).drop_last(), parent));
                assert(is_joined(parent, all.take(i + 1).last(), path_text(next).unwrap()));
                assert(is_descended(text, all.take(i + 1), path_text(next).unwrap()));
                lemma_stays_text_dir(parent, names@[i as int]@, path_text(next).unwrap());
            }
        }
        path = next;
        i = i + 1;
    }
    proof {
        assert(all.take(i as int) =~= all);
    }
    path
}

proof fn lemma_storage_names()
    ensures
        is_storage_name("DeLOG"@),
        is_storage_name("data"@),
        is_storage_name("Library"@),
        is_storage_name("Application Support"@),
        is_storage_name("delog"@),
        is_storage_name(".local"@),
        is_storage_name("share"@),
{
    reveal_strlit("DeLOG");
    reveal_strlit("data");
    reveal_strlit("Library");
    reveal_strlit("Application Support");
    reveal_strlit("delog");
    reveal_strlit(".local");
    reveal_strlit("share");
    assert("data"@.len() == 4 && "Library"@.len() == 7 && "Application Support"@.len() == 19);
}

/// The directory in which the application keeps its files: that of the platform
/// for data of applications, or the one that the user has set.
pub fn config_dir(platform: Platform, roots: &StorageRoots) -> (r: Option<PathBuf>)
    ensures
        r == storage_dir(platform, *roots),
        ({
            let (root, names) = storage_place(platform, *roots);
            root is Some && is_text_dir(root.unwrap()) ==> path_text(r.unwrap()) is Some
                && is_descended(
                path_text(root.unwrap()).unwrap(),
                names,
                path_text(r.unwrap()).unwrap(),
            )
        }),
{
    proof {
        lemma_storage_names();
    }
    let mut names: Vec<&str> = Vec::new();
    let root = match platform {
        Platform::Windows => {
            names.push("DeLOG");
            names.push("data");
            &roots.app_data
        },
        Platform::MacOs => {
            names.push("Library");
            names.push("Application Support");
            names.push("DeLOG");
            &roots.home
        },
        Platform::Other => {
            if roots.data_home.is_some() {
                names.push("delog");
                &roots.data_home
            } else {
                names.push(".local");
                names.push("share");
                names.push("delog");
                &roots.home
            }
        },
    };
    proof {
        assert(names@.map_values(|name: &str| name@) =~= storage_place(platform, *roots).1);
    }
    match root {
        Some(dir) => Some(descend(dir, &names)),
        None => None,
    }
}

/// A file or directory of the application: it is there where the directory of
/// the application is.
pub open spec fn stored_under(base: Option<PathBuf>, name: Seq<char>) -> Result<
    PathBuf,
    LayoutError,
> {
    match base {
        Some(base) => Ok(joined_path(base, name)),
        None => Err(LayoutError::NoStorageDir),
    }
}

/// The directory of the layouts, under the directory of the application.
pub fn layout_dir(base: &Option<PathBuf>) -> (r: Result<PathBuf, LayoutError>)
    ensures
        r == stored_under(*base, "layouts"@),
        r matches Ok(dir) ==> (is_text_dir(base.unwrap()) ==> path_text(dir) is Some
            && is_joined(path_text(base.unwrap()).unwrap(), "layouts"@, path_text(dir).unwrap())),
{
    match base {
        Some(base) => {
            proof {
                reveal_strlit("layouts");
            }
            Ok(path_join(base, "layouts"))
        },
        None => Err(LayoutError::NoStorageDir),
    }
}

/// The file of a layout, in the directory of the layouts.
pub fn named_layout_path(dir: &PathBuf, name: &str) -> (r: PathBuf)
    ensures
        r == joined_path(*dir, sanitized(name@) + ".json"@),
        is_text_dir(*dir) ==> path_text(r) is Some && is_joined(
            path_text(*dir).unwrap(),
            sanitized(name@) + ".json"@,
            path_text(r).unwrap(),
        ),
{
    let mut file = sanitize_name(name);
    file.append(".json");
    proof {
        sanitized_names_are_safe(name@);
        reveal_strlit(".json");
        let s = sanitized(name@);
        assert(file@ == s + ".json"@);
        assert(is_file_name(file@)) by {
            assert forall|i: int| 0 <= i < file@.len() implies #[trigger] file@[i] != '/' && file@[i]
                != '\\' && file@[i] != ':' by {
                if i < s.len() {
                    assert(file@[i] == s[i]);
                    assert(is_name_char(s[i]));
                }
            }
        }
    }
    path_join(dir, file.as_str())
}

/// The file of the application's settings.
pub fn settings_path(base: &Option<PathBuf>) -> (r: Result<PathBuf, LayoutError>)
    ensures
        r == stored_under(*base, "settings.json"@),
        r matches Ok(file) ==> (is_text_dir(base.unwrap()) ==> path_text(file) is Some
            && is_joined(
            path_text(base.unwrap()).unwrap(),
            "settings.json"@,
            path_text(file).unwrap(),
        )),
{
    match base {
        Some(base) => {
            proof {
                reveal_strlit("settings.json");
            }
            Ok(path_join(base, "settings.json"))
        },
        None => Err(LayoutError::NoStorageDir),
    }
}

/// The file of the session.
pub fn session_path(base: &Option<PathBuf>) -> (r: Result<PathBuf, LayoutError>)
    ensures
        r == stored_under(*base, "session.json"@),
        r matches Ok(file) ==> (is_text_dir(base.unwrap()) ==> path_text(file) is Some
            && is_joined(
            path_text(base.unwrap()).unwrap(),
            "session.json"@,
            path_text(file).unwrap(),
        )),
{
    match base {
        Some(base) => {
            proof {
                reveal_strlit("session.json");
            }
            Ok(path_join(base, "session.json"))
        },
        None => Err(LayoutError::NoStorageDir),
    }
}

/// The names of the layouts in a directory, in ascending order.
pub fn list_layouts(entries: &Vec<DirEntryName>) -> (r: Vec<String>)
    ensures
        views(r@) == sorted_texts(graph_stems(entries@, entries@.len())),
{
    list_graphs(entries)
}

/// The copy of a layout that is stored under another name.
pub fn duplicate_named(doc: LayoutDoc, name: &str) -> (r: LayoutDoc)
    ensures
        r.name@ == sanitized(name@),
        r == (LayoutDoc { name: r.name, ..doc }),
        doc.well_formed() ==> r.well_formed(),
{
    let mut doc = doc;
    doc.name = sanitize_name(name);
    doc
}

/// Whether the old file is removed when a layout is given another name: not
/// where both names are stored alike.
pub fn rename_removes_old(from: &str, to: &str) -> (r: bool)
    ensures
        r == (sanitized(from@) != sanitized(to@)),
{
    let a = sanitize_name(from);
    let b = sanitize_name(to);
    !crate::text::same_text(a.as_str(), b.as_str())
}

/// The file to which a document is written before it takes its place.
pub open spec fn temporary_text(text: Seq<char>) -> Seq<char> {
    without_extension(text) + seq!['.'] + match name_extension(last_component(text)) {
        Some(extension) => extension + ".tmp"@,
        None => "tmp"@,
    }
}

proof fn lemma_pushed_holds(text: Seq<char>, c: char)
    ensures
        forall|x: char| #[trigger] text.push(c).contains(x) == (text.contains(x) || x == c),
{
    assert forall|x: char| #[trigger] text.push(c).contains(x) == (text.contains(x) || x == c) by {
        if text.contains(x) {
            let k = text.index_of(x);
            assert(text.push(c)[k] == x);
        }
        assert(text.push(c)[text.len() as int] == c);
    }
}

/// The file to which a document is written before it takes its place. A path
/// whose extension could not be one gets that of a temporary file alone.
pub open spec fn temporary_path_of(path: PathBuf) -> PathBuf {
    match path_extension_text(path) {
        Some(extension) => if is_extension(extension) {
            extended_path(path, extension + ".tmp"@)
        } else {
            extended_path(path, "tmp"@)
        },
        None => extended_path(path, "tmp"@),
    }
}

/// The file to which a document is written before it takes its place.
pub fn temporary_path(path: &PathBuf) -> (r: PathBuf)
    ensures
        r == temporary_path_of(*path),
        path_text(*path) is Some && is_plain_path(path_text(*path).unwrap()) ==> path_text(r)
            == Some(temporary_text(path_text(*path).unwrap())),
{
    proof {
        reveal_strlit(".tmp");
        reveal_strlit("tmp");
        if path_text(*path) is Some && is_plain_path(path_text(*path).unwrap()) {
            lemma_extension_is_plain(path_text(*path).unwrap());
        }
    }
    match path_extension(path) {
        Some(extension) => {
            let backslash = is_path_separator('\\');
            let chars = chars_of(extension.as_str());
            let mut plain = true;
            let mut i: usize = 0;
            while i < chars.len()
                invariant
                    i <= chars@.len(),
                    backslash == separates('\\'),
                    plain == is_extension(chars@.take(i as int)),
                decreases chars@.len() - i,
            {
                if chars[i] == '/' || backslash && chars[i] == '\\' {
                    plain = false;
                }
                proof {
                    let before = chars@.take(i as int);
                    let c = chars@[i as int];
                    assert(chars@.take(i + 1) =~= before.push(c));
                    lemma_pushed_holds(before, c);
                }
                i = i + 1;
            }
            proof {
                assert(chars@.take(i as int) =~= extension@);
            }
            if !plain {
                return path_with_extension(path, "tmp");
            }
            let mut full = extension.clone();
            full.append(".tmp");
            proof {
                assert forall|c: char| full@.contains(c) implies extension@.contains(c)
                    || ".tmp"@.contains(c) by {
                    let k = full@.index_of(c);
                    if k < extension@.len() {
                        assert(extension@[k] == c);
                    } else {
                        assert(".tmp"@[k - extension@.len()] == c);
                    }
                }
            }
            path_with_extension(path, full.as_str())
        },
        None => path_with_extension(path, "tmp"),
    }
}

proof fn lemma_last_component(text: Seq<char>)
    ensures
        forall|i: int|
            0 <= i < last_component(text).len() ==> #[trigger] last_component(text)[i] != '/',
        forall|i: int|
            0 <= i < last_component(text).len() ==> text.contains(
                #[trigger] last_component(text)[i],
            ),
    decreases text.len(),
{
    if text.len() > 0 && text.last() != '/' {
        let short = text.drop_last();
        lemma_last_component(short);
        let rest = last_component(short);
        assert forall|i: int| 0 <= i < last_component(text).len() implies text.contains(
            #[trigger] last_component(text)[i],
        ) by {
            if i < rest.len() {
                assert(short.contains(rest[i]));
                let k = choose|k: int| 0 <= k < short.len() && short[k] == rest[i];
                assert(text[k] == rest[i]);
            } else {
                assert(text[text.len() - 1] == text.last());
            }
        }
    }
}

proof fn lemma_extension_is_plain(text: Seq<char>)
    requires
        is_plain_path(text),
    ensures
        name_extension(last_component(text)) matches Some(extension) ==> forall|i: int|
            0 <= i < extension.len() ==> #[trigger] extension[i] != '/' && extension[i] != '\\',
{
    lemma_last_component(text);
    let name = last_component(text);
    lemma_last_dot(name);
    if let Some(extension) = name_extension(name) {
        assert forall|i: int| 0 <= i < extension.len() implies #[trigger] extension[i] != '/'
            && extension[i] != '\\' by {
            let at = crate::paths::last_dot(name) + 1 + i;
            assert(extension[i] == name[at]);
            assert(text.contains(name[at]));
        }
    }
}

proof fn lemma_last_dot(name: Seq<char>)
    ensures
        -1 <= crate::paths::last_dot(name) < name.len() || name.len() == 0,
        crate::paths::last_dot(name) < name.len(),
    decreases name.len(),
{
    if name.len() > 0 && name.last() != '.' {
        lemma_last_dot(name.drop_last());
    }
}

/// `serde_json::Value`, a JSON document.
#[verifier::external_type_specification]
#[verifier::external_body]
pub struct ExJsonValue(serde_json::Value);

/// `serde_json::Error`, the reason for which a text is no JSON document.
#[verifier::external_type_specification]
#[verifier::external_body]
pub struct ExJsonError(serde_json::Error);

/// What `serde_json::from_str` makes of a text.
pub uninterp spec fn json_document(text: Seq<char>) -> Result<serde_json::Value, serde_json::Error>;

/// `serde_json::from_str` into a document.
#[verifier::external_body]
pub(crate) fn parse_json(text: &str) -> (r: Result<serde_json::Value, serde_json::Error>)
    ensures
        r == json_document(text@),
{
    serde_json::from_str(text)
}

/// The text of a JSON error.
pub uninterp spec fn json_error_text(error: serde_json::Error) -> Seq<char>;

/// `serde_json::Error::to_string`.
#[verifier::external_body]
pub(crate) fn describe_json_error(error: &serde_json::Error) -> (r: String)
    ensures
        r@ == json_error_text(*error),
{
    error.to_string()
}

/// What `serde_json::Value::get` finds under a key.
pub uninterp spec fn json_member(value: serde_json::Value, key: Seq<char>) -> Option<
    serde_json::Value,
>;

/// `serde_json::Value::get` with a text as key.
#[verifier::external_body]
fn get_member<'a>(value: &'a serde_json::Value, key: &str) -> (r: Option<&'a serde_json::Value>)
    ensures
        json_member(*value, key@) == match r {
            Some(member) => Some(*member),
            None => None,
        },
{
    value.get(key)
}

/// What `serde_json::Value::as_u64` returns.
pub uninterp spec fn json_unsigned(value: serde_json::Value) -> Option<u64>;

/// `serde_json::Value::as_u64`.
#[verifier::external_body]
fn as_unsigned(value: &serde_json::Value) -> (r: Option<u64>)
    ensures
        r == json_unsigned(*value),
{
    value.as_u64()
}

/// The version number of a document, if it has one.
pub open spec fn stored_version(value: serde_json::Value) -> Option<u64> {
    match json_member(value, "delog_layout"@) {
        Some(member) => json_unsigned(member),
        None => None,
    }
}

/// Whether a document of that version number can be read. Of the number the
/// low 32 bits count.
pub fn check_version(version: Option<u64>) -> (r: Result<(), LayoutError>)
    ensures
        r == match version {
            None => Err::<(), LayoutError>(LayoutError::MissingVersion),
            Some(n) => if n as int % 0x1_0000_0000 == LAYOUT_VERSION {
                Ok(())
            } else {
                Err(LayoutError::UnsupportedVersion((n as int % 0x1_0000_0000) as u32))
            },
        },
{
    match version {
        None => Err(LayoutError::MissingVersion),
        Some(n) => {
            let low: u32 = (n % 0x1_0000_0000) as u32;
            if low == LAYOUT_VERSION {
                Ok(())
            } else {
                Err(LayoutError::UnsupportedVersion(low))
            }
        },
    }
}

/// Brings a document up to the present version, of which there is one so far.
pub fn migrate_to_current(value: serde_json::Value) -> (r: Result<serde_json::Value, LayoutError>)
    ensures
        match stored_version(value) {
            None => r == Err::<serde_json::Value, LayoutError>(LayoutError::MissingVersion),
            Some(n) => if n as int % 0x1_0000_0000 == LAYOUT_VERSION {
                r == Ok::<serde_json::Value, LayoutError>(value)
            } else {
                r == Err::<serde_json::Value, LayoutError>(
                    LayoutError::UnsupportedVersion((n as int % 0x1_0000_0000) as u32),
                )
            },
        },
{
    let version = match get_member(&value, "delog_layout") {
        Some(member) => as_unsigned(member),
        None => None,
    };
    match check_version(version) {
        Ok(()) => Ok(value),
        Err(error) => Err(error),
    }
}

/// The JSON document of a layout, brought up to the present version.
pub fn decode_json(json: &str) -> (r: Result<serde_json::Value, LayoutError>)
    ensures
        match json_document(json@) {
            Err(error) => r matches Err(LayoutError::Json(text)) && text@ == json_error_text(error),
            Ok(value) => match stored_version(value) {
                None => r == Err::<serde_json::Value, LayoutError>(LayoutError::MissingVersion),
                Some(n) => if n as int % 0x1_0000_0000 == LAYOUT_VERSION {
                    r == Ok::<serde_json::Value, LayoutError>(value)
                } else {
                    r == Err::<serde_json::Value, LayoutError>(
                        LayoutError::UnsupportedVersion((n as int % 0x1_0000_0000) as u32),
                    )
                },
            },
        },
{
    match parse_json(json) {
        Ok(value) => migrate_to_current(value),
        Err(error) => Err(LayoutError::Json(describe_json_error(&error))),
    }
}

/// A layout whose fields are to be chosen among several sources.
pub struct PendingLayout {
    pub name: String,
    pub doc: LayoutDoc,
    pub ambiguities: Vec<AmbiguousField>,
}

/// What loading a layout leads to.
pub enum LoadOutcome {
    Applied(LayoutApply),
    NeedsMapping(PendingLayout),
}

/// Loading without choices, collecting ambiguities.
pub open spec fn loading(snapshot: StoreSnapshot) -> Setting {
    Setting { snapshot, choices: Seq::empty(), collect: true }
}

/// Loads a layout: it is applied where every field is decided, else the
/// ambiguous ones are to be chosen first.
pub fn load_doc(doc: LayoutDoc, snapshot: &StoreSnapshot) -> (r: Result<LoadOutcome, LayoutError>)
    ensures
        doc.delog_layout != LAYOUT_VERSION ==> (r matches Err(e) && e
            == LayoutError::UnsupportedVersion(doc.delog_layout)),
        doc.delog_layout == LAYOUT_VERSION ==> ({
            let setting = loading(*snapshot);
            let state = prepared(setting, doc);
            match r {
                Ok(LoadOutcome::Applied(apply)) => state.ambiguities.len() == 0 && apply@
                    == applied(setting, state, doc),
                Ok(LoadOutcome::NeedsMapping(pending)) => state.ambiguities.len() > 0
                    && ambiguity_views(pending.ambiguities@) == state.ambiguities && pending.doc
                    == doc && pending.name == doc.name,
                Err(_) => false,
            }
        }),
{
    if doc.delog_layout != LAYOUT_VERSION {
        return Err(LayoutError::UnsupportedVersion(doc.delog_layout));
    }
    let choices: Vec<(FieldRef, SourceId)> = Vec::new();
    proof {
        assert(choices@ =~= Seq::<(FieldRef, SourceId)>::empty());
    }
    match apply_doc(&doc, snapshot, &choices, true) {
        Ok(apply) => Ok(LoadOutcome::Applied(apply)),
        Err(ambiguities) => Ok(
            LoadOutcome::NeedsMapping(
                PendingLayout { name: doc.name.clone(), doc, ambiguities },
            ),
        ),
    }
}

/// The sources that were chosen: those selected among the candidates.
pub open spec fn choices_of(ambiguities: Seq<AmbiguousField>) -> Seq<(FieldRef, SourceId)>
    decreases ambiguities.len(),
{
    if ambiguities.len() == 0 {
        Seq::empty()
    } else {
        let rest = choices_of(ambiguities.drop_last());
        let a = ambiguities.last();
        if a.selected < a.candidates@.len() {
            rest.push((a.field, a.candidates@[a.selected as int].source))
        } else {
            rest
        }
    }
}

impl PendingLayout {
    /// The ambiguous fields, to choose among their sources.
    pub fn ambiguities_mut(&mut self) -> (r: &mut Vec<AmbiguousField>)
        ensures
            *r == old(self).ambiguities,
            *final(self) == (PendingLayout { ambiguities: *final(r), ..*old(self) }),
    {
        &mut self.ambiguities
    }

    pub fn ambiguity_count(&self) -> (r: usize)
        ensures
            r == self.ambiguities@.len(),
    {
        self.ambiguities.len()
    }

    /// Applies the layout with what was chosen.
    pub fn apply(self, snapshot: &StoreSnapshot) -> (r: LayoutApply)
        ensures
            r@ == applied(
                Setting {
                    snapshot: *snapshot,
                    choices: choices_of(self.ambiguities@),
                    collect: false,
                },
                clean(),
                self.doc,
            ),
    {
        let mut choices: Vec<(FieldRef, SourceId)> = Vec::new();
        let mut i: usize = 0;
        let list = &self.ambiguities;
        proof {
            assert(list@.take(0) =~= Seq::<AmbiguousField>::empty());
        }
        while i < list.len()
            invariant
                i <= list@.len(),
                choices@ == choices_of(list@.take(i as int)),
            decreases list@.len() - i,
        {
            proof {
                assert(list@.take(i + 1).drop_last() =~= list@.take(i as int));
                assert(list@.take(i + 1).last() == list@[i as int]);
            }
            let a = &list[i];
            if a.selected < a.candidates.len() {
                choices.push((a.field.duplicate(), a.candidates[a.selected].source));
            }
            i = i + 1;
        }
        proof {
            assert(list@.take(i as int) =~= list@);
        }
        decided(&self.doc, snapshot, &choices)
    }

    /// Applies the layout without the ambiguous fields.
    pub fn apply_skipping(self, snapshot: &StoreSnapshot) -> (r: LayoutApply)
        ensures
            r@ == applied(
                Setting { snapshot: *snapshot, choices: Seq::empty(), collect: false },
                clean(),
                self.doc,
            ),
    {
        let choices: Vec<(FieldRef, SourceId)> = Vec::new();
        proof {
            assert(choices@ =~= Seq::<(FieldRef, SourceId)>::empty());
        }
        decided(&self.doc, snapshot, &choices)
    }
}

/// Applies a layout without collecting ambiguities, which cannot fail.
fn decided(doc: &LayoutDoc, snapshot: &StoreSnapshot, choices: &Vec<(FieldRef, SourceId)>) -> (r:
    LayoutApply)
    ensures
        r@ == applied(
            Setting { snapshot: *snapshot, choices: choices@, collect: false },
            clean(),
            *doc,
        ),
{
    build_doc(doc, Resolver::new(snapshot, choices, false))
}

} // verus!
