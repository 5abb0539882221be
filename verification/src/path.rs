//! File names: the extension of a path, and which files are pictures.

use vstd::prelude::*;

use crate::query::{image_extension_list, image_extensions};
use crate::text::{ascii_lower, ascii_lowered, chars_of, has_text, optional_text};

verus! {

// ---------------------------------------------------------------------------
// Names and extensions
// ---------------------------------------------------------------------------

/// The place behind the last character of a kind, or 0 where there is none.
pub open spec fn behind_last(text: Seq<char>, kind: spec_fn(char) -> bool) -> int
    decreases text.len(),
{
    if text.len() == 0 || kind(text.last()) {
        text.len() as int
    } else {
        behind_last(text.drop_last(), kind)
    }
}

/// A name that stands for the folder itself, and one that stands for the folder above it.
pub open spec fn same_folder() -> Seq<char> {
    seq!['.']
}

pub open spec fn folder_above() -> Seq<char> {
    seq!['.', '.']
}

/// The last name of a path that is taken apart at `separators`: separators behind it do not
/// count, nor does a name that stands for the folder itself.
pub open spec fn last_name(path: Seq<char>, separators: spec_fn(char) -> bool) -> Option<Seq<char>>
    decreases path.len(),
{
    if path.len() == 0 {
        None
    } else if separators(path.last()) {
        last_name(path.drop_last(), separators)
    } else {
        let start = behind_last(path, separators);
        let name = path.skip(start);
        if name == same_folder() && 0 <= start < path.len() {
            last_name(path.take(start), separators)
        } else {
            Some(name)
        }
    }
}

pub open spec fn dot() -> spec_fn(char) -> bool {
    |character: char| character == '.'
}

/// The extension of a name: what stands behind its last dot. There is none without a dot,
/// where the only dot is the first character, or where the name stands for the folder above.
pub open spec fn name_extension(name: Seq<char>) -> Option<Seq<char>> {
    if name == folder_above() || behind_last(name, dot()) <= 1 {
        None
    } else {
        Some(name.skip(behind_last(name, dot())))
    }
}

/// The extension of the last name of a path, from `from` on and taken apart at `separators`.
pub open spec fn extension_from(path: Seq<char>, from: int, separators: spec_fn(char) -> bool) -> Option<Seq<char>> {
    match last_name(path.skip(from), separators) {
        Some(name) => name_extension(name),
        None => None,
    }
}

// ---------------------------------------------------------------------------
// Platforms
// ---------------------------------------------------------------------------

/// A path separator on some platform.
pub open spec fn separates_path(character: char) -> bool {
    character == '/' || character == '\\'
}

pub open spec fn slash() -> spec_fn(char) -> bool {
    |character: char| character == '/'
}

pub open spec fn backslash() -> spec_fn(char) -> bool {
    |character: char| character == '\\'
}

pub open spec fn either_slash() -> spec_fn(char) -> bool {
    |character: char| separates_path(character)
}

/// A path starts with a letter of A to Z and a colon, as one of a file on a drive does.
pub open spec fn is_on_drive(path: Seq<char>) -> bool {
    path.len() >= 2 && path[1] == ':' && ('a' <= path[0] <= 'z' || 'A' <= path[0] <= 'Z')
}

/// A path starts with two separators, as one of a file on another machine does.
pub open spec fn is_remote(path: Seq<char>) -> bool {
    path.len() >= 2 && separates_path(path[0]) && separates_path(path[1])
}

/// A path starts with two separators and a question mark, which may stand for a path that is
/// to be taken as it is written.
pub open spec fn is_verbatim(path: Seq<char>) -> bool {
    is_remote(path) && path.len() > 2 && path[2] == '?'
}

/// In a path that starts with two separators, `server` and `share` are the places where the
/// names of the server and of the share end: those of the next two separators, with a name
/// before each.
pub open spec fn ends_share(path: Seq<char>, server: int, share: int) -> bool {
    &&& 2 < server
    &&& server + 1 < share < path.len()
    &&& separates_path(path[server])
    &&& separates_path(path[share])
    &&& forall|i: int| 2 <= i < share && i != server ==> !separates_path(#[trigger] path[i])
}

/// The extension of a path where only slashes separate names.
pub open spec fn unix_extension(path: Seq<char>) -> Option<Seq<char>> {
    extension_from(path, 0, slash())
}

/// What can be said of the extension of a path where both kinds of slashes separate names.
/// The name of a drive, or those of a server and a share, are no names of files, so that a path
/// that names no more has no extension. Two separators at the start need not stand for a
/// server. A path that is taken as it is written has only backslashes between its names.
pub open spec fn may_have_windows_extension(path: Seq<char>, extension: Option<Seq<char>>) -> bool {
    if is_verbatim(path) {
        ||| extension is None
        ||| extension == extension_from(path, 0, backslash())
        ||| extension == extension_from(path, 0, either_slash())
    } else if is_remote(path) {
        ||| extension == extension_from(path, 0, either_slash())
        ||| exists|server: int, share: int| #[trigger]
            ends_share(path, server, share) && extension == extension_from(path, share, either_slash())
        ||| extension is None && forall|server: int, share: int| !#[trigger] ends_share(path, server, share)
    } else if is_on_drive(path) {
        extension == extension_from(path, 2, either_slash())
    } else {
        extension == extension_from(path, 0, either_slash())
    }
}

/// What can be said of the extension of a path on every platform.
pub open spec fn may_have_extension(path: Seq<char>, extension: Option<Seq<char>>) -> bool {
    extension == unix_extension(path) || may_have_windows_extension(path, extension)
}

/// `std::path::Path::extension` gives what stands behind the last dot of the last name of a
/// path, and nothing where the name starts with its only dot. How a path is taken apart
/// differs between platforms, and so may what comes back. Where both kinds of slashes separate
/// names, it is not said whether there is an extension for a path that starts with two
/// separators and names no more than a server and a share behind them, or goes on with a
/// question mark.
#[verifier::external_body]
pub(crate) fn path_extension(path: &str) -> (extension: Option<String>)
    ensures
        may_have_extension(path@, optional_text(extension)),
{
    std::path::Path::new(path).extension().and_then(|value| value.to_str()).map(|value| value.to_owned())
}

// ---------------------------------------------------------------------------
// What holds on every platform
// ---------------------------------------------------------------------------

/// A place of a path that starts with two separators lies behind a server and a share.
pub open spec fn is_behind_share(path: Seq<char>, place: int) -> bool {
    exists|server: int, share: int| #[trigger] ends_share(path, server, share) && share < place
}

/// `dot` is the place of the last dot of a path, and no separator stands behind it.
pub open spec fn is_last_dot(path: Seq<char>, dot: int) -> bool {
    &&& 0 <= dot < path.len()
    &&& path[dot] == '.'
    &&& forall|i: int| dot < i < path.len() ==> #[trigger] path[i] != '.' && !separates_path(path[i])
}

/// `dot` is the place of the last dot of a path, behind a character of the last name of the
/// path, which is not one of two dots alone. The last name of a path that starts with two
/// separators stands behind a server and a share.
pub open spec fn extension_dot(path: Seq<char>, dot: int) -> bool {
    &&& is_last_dot(path, dot)
    &&& 0 < dot
    &&& !separates_path(path[dot - 1])
    &&& path[dot - 1] != ':'
    &&& dot == path.len() - 1 ==> path[dot - 1] != '.'
    &&& is_remote(path) ==> !is_verbatim(path) && is_behind_share(path, dot - 1)
}

/// `dot` is the place of the last dot of a path, with which its last name starts and does not
/// end.
pub open spec fn hiding_dot(path: Seq<char>, dot: int) -> bool {
    &&& is_last_dot(path, dot)
    &&& dot < path.len() - 1
    &&& dot == 0 || path[dot - 1] == '/'
    &&& !is_verbatim(path)
}

/// `at` is the place of the last separator of a path, and the name behind it has no dot.
pub open spec fn bare_name(path: Seq<char>, at: int) -> bool {
    &&& 0 <= at < path.len() - 1
    &&& separates_path(path[at])
    &&& forall|i: int| at < i < path.len() ==> #[trigger] path[i] != '.' && !separates_path(path[i])
}

/// The place behind the last character of a kind is told by the characters around it.
proof fn lemma_behind_last(text: Seq<char>, kind: spec_fn(char) -> bool, place: int)
    ensures
        0 <= behind_last(text, kind) <= text.len(),
        behind_last(text, kind) > 0 ==> kind(text[behind_last(text, kind) - 1]),
        forall|i: int| behind_last(text, kind) <= i < text.len() ==> !kind(#[trigger] text[i]),
        0 <= place <= text.len() && (place > 0 ==> kind(text[place - 1])) && (forall|i: int|
            place <= i < text.len() ==> !kind(#[trigger] text[i])) ==> place == behind_last(text, kind),
    decreases text.len(),
{
    if text.len() > 0 && !kind(text.last()) {
        let shorter = text.drop_last();
        lemma_behind_last(shorter, kind, place);
        let found = behind_last(shorter, kind);
        assert forall|i: int| found <= i < text.len() implies !kind(#[trigger] text[i]) by {
            if i < shorter.len() {
                assert(shorter[i] == text[i]);
            }
        }
        if found > 0 {
            assert(shorter[found - 1] == text[found - 1]);
        }
        if 0 <= place <= text.len() && (place > 0 ==> kind(text[place - 1])) && (forall|i: int|
            place <= i < text.len() ==> !kind(#[trigger] text[i])) {
            assert(place < text.len());
            if place > 0 {
                assert(shorter[place - 1] == text[place - 1]);
            }
            assert forall|i: int| place <= i < shorter.len() implies !kind(#[trigger] shorter[i]) by {
                assert(shorter[i] == text[i]);
            }
        }
    } else if text.len() > 0 && place < text.len() {
        assert(text[text.len() - 1] == text.last());
    }
}

/// Where a name starts and ends with the path, and is not that of the folder itself, it is
/// the last one.
proof fn lemma_last_name(path: Seq<char>, from: int, separators: spec_fn(char) -> bool, start: int)
    requires
        0 <= from <= start < path.len(),
        start > from ==> separators(path[start - 1]),
        forall|i: int| start <= i < path.len() ==> !separators(#[trigger] path[i]),
        path.skip(start) != same_folder(),
    ensures
        extension_from(path, from, separators) == name_extension(path.skip(start)),
{
    let text = path.skip(from);
    assert forall|i: int| start - from <= i < text.len() implies !separators(#[trigger] text[i]) by {
        assert(text[i] == path[from + i]);
    }
    if start > from {
        assert(text[start - from - 1] == path[start - 1]);
    }
    lemma_behind_last(text, separators, start - from);
    assert(text.last() == text[text.len() - 1]);
    assert(text.skip(start - from) =~= path.skip(start));
}

/// The last name of a path whose last separators of a kind are told by a character of its end.
proof fn lemma_name_around(path: Seq<char>, from: int, separators: spec_fn(char) -> bool, at: int) -> (start: int)
    requires
        0 <= from <= at,
        at + 1 < path.len(),
        forall|i: int| at <= i < path.len() ==> !separators(#[trigger] path[i]),
    ensures
        from <= start <= at,
        extension_from(path, from, separators) == name_extension(path.skip(start)),
{
    let text = path.skip(from);
    lemma_behind_last(text, separators, 0);
    let start = from + behind_last(text, separators);
    if start > at {
        assert(text[start - from - 1] == path[start - 1]);
    }
    if start > from {
        assert(text[start - from - 1] == path[start - 1]);
    }
    assert forall|i: int| start <= i < path.len() implies !separators(#[trigger] path[i]) by {
        assert(text[i - from] == path[i]);
    }
    assert(path.skip(start).len() > 1);
    lemma_last_name(path, from, separators, start);
    start
}

/// The extension of a name whose last dot has a character before it.
proof fn lemma_name_extension(path: Seq<char>, start: int, at: int)
    requires
        0 <= start < at < path.len(),
        path[at] == '.',
        forall|i: int| at < i < path.len() ==> #[trigger] path[i] != '.',
        at == path.len() - 1 ==> path[at - 1] != '.',
    ensures
        name_extension(path.skip(start)) == Some(path.skip(at + 1)),
{
    let name = path.skip(start);
    assert forall|i: int| at + 1 - start <= i < name.len() implies !dot()(#[trigger] name[i]) by {
        assert(name[i] == path[start + i]);
    }
    assert(name[at - start] == path[at]);
    lemma_behind_last(name, dot(), at + 1 - start);
    assert(name.skip(at + 1 - start) =~= path.skip(at + 1));
    if name == folder_above() {
        assert(name[0] == '.' && name[1] == '.');
        assert(name.len() == 2);
        assert(name[0] == path[start]);
        assert(name[1] == path[start + 1]);
    }
}

/// A name without a dot behind its first character has no extension.
proof fn lemma_no_extension(name: Seq<char>)
    requires
        forall|i: int| 0 < i < name.len() ==> #[trigger] name[i] != '.',
    ensures
        name_extension(name) is None,
{
    lemma_behind_last(name, dot(), 0);
    let found = behind_last(name, dot());
    if found > 1 {
        assert(name[found - 1] == '.');
    }
}

/// Where a share ends is told by the path.
proof fn lemma_one_share(path: Seq<char>, server: int, share: int, other_server: int, other_share: int)
    requires
        ends_share(path, server, share),
        ends_share(path, other_server, other_share),
    ensures
        share == other_share,
{
    if server < other_server {
        assert(!separates_path(path[server]));
    } else if other_server < server {
        assert(!separates_path(path[other_server]));
    } else if share < other_share {
        assert(!separates_path(path[share]));
    } else if other_share < share {
        assert(!separates_path(path[other_share]));
    }
}

/// The extension of a path where its last dot stands within its last name.
proof fn lemma_dotted(path: Seq<char>, from: int, separators: spec_fn(char) -> bool, at: int)
    requires
        is_last_dot(path, at),
        0 <= from < at,
        !separates_path(path[at - 1]),
        at == path.len() - 1 ==> path[at - 1] != '.',
        forall|character: char| #[trigger] separators(character) ==> separates_path(character),
    ensures
        extension_from(path, from, separators) == Some(path.skip(at + 1)),
{
    let start = lemma_name_around(path, from, separators, at - 1);
    lemma_name_extension(path, start, at);
}

/// There is no extension where the last name starts with the last dot of the path.
proof fn lemma_hidden(path: Seq<char>, from: int, separators: spec_fn(char) -> bool, at: int)
    requires
        is_last_dot(path, at),
        at < path.len() - 1,
        0 <= from <= at,
        at > from ==> separators(path[at - 1]),
        forall|character: char| #[trigger] separators(character) ==> separates_path(character),
    ensures
        extension_from(path, from, separators) is None,
{
    assert(path.skip(at).len() > 1);
    lemma_last_name(path, from, separators, at);
    lemma_no_extension(path.skip(at));
}

/// The last name has no dot where the last separator is among those that count, else the
/// extension holds that separator.
proof fn lemma_bare(path: Seq<char>, from: int, separators: spec_fn(char) -> bool, at: int)
    requires
        bare_name(path, at),
        0 <= from <= at,
        forall|character: char| #[trigger] separators(character) ==> separates_path(character),
    ensures
        separators(path[at]) ==> extension_from(path, from, separators) is None,
        extension_from(path, from, separators) matches Some(extension) ==> extension.contains(path[at]),
{
    if separators(path[at]) {
        let name = path.skip(at + 1);
        assert(name[0] == path[at + 1]);
        lemma_last_name(path, from, separators, at + 1);
        lemma_no_extension(name);
    } else {
        let start = lemma_name_around(path, from, separators, at);
        let name = path.skip(start);
        lemma_behind_last(name, dot(), 0);
        let found = behind_last(name, dot());
        if found > 1 {
            assert(name[found - 1] == path[start + found - 1]);
            assert(start + found - 1 < at);
            assert(name.skip(found)[at - start - found] == path[at]);
        }
    }
}

/// Names of paths without a dot have none.
proof fn lemma_dotless(path: Seq<char>, separators: spec_fn(char) -> bool)
    requires
        !path.contains('.'),
    ensures
        last_name(path, separators) matches Some(name) ==> name_extension(name) is None,
    decreases path.len(),
{
    if path.len() > 0 {
        if separators(path.last()) {
            assert forall|i: int| 0 <= i < path.drop_last().len() implies #[trigger] path.drop_last()[i] != '.' by {
                assert(path.drop_last()[i] == path[i]);
            }
            lemma_dotless(path.drop_last(), separators);
        } else {
            lemma_behind_last(path, separators, 0);
            let start = behind_last(path, separators);
            let name = path.skip(start);
            assert forall|i: int| 0 <= i < name.len() implies #[trigger] name[i] != '.' by {
                assert(name[i] == path[start + i]);
            }
            if name == same_folder() {
                assert(name[0] == '.');
            }
            lemma_no_extension(name);
        }
    }
}

/// An extension of a picture file, in any case of the letters A to Z.
pub open spec fn picture_extension(extension: Option<Seq<char>>) -> bool {
    match extension {
        Some(extension) => image_extensions().contains(ascii_lowered(extension)),
        None => false,
    }
}

/// Whether an extension is that of a picture file.
pub fn is_picture_extension(extension: &Option<String>) -> (picture: bool)
    ensures
        picture == picture_extension(optional_text(*extension)),
{
    match extension {
        Some(extension) => has_text(&image_extension_list(), &ascii_lower(&chars_of(extension.as_str()))),
        None => false,
    }
}

/// Whether a path names a picture file.
pub fn is_supported_image(path: &str) -> (supported: bool)
    ensures
        exists|extension: Option<Seq<char>>| #[trigger]
            may_have_extension(path@, extension) && supported == picture_extension(extension),
        forall|at: int| #[trigger]
            extension_dot(path@, at) ==> supported == image_extensions().contains(ascii_lowered(path@.skip(at + 1))),
        forall|at: int| #[trigger] hiding_dot(path@, at) ==> !supported,
        forall|at: int| #[trigger] bare_name(path@, at) ==> !supported,
        !path@.contains('.') ==> !supported,
{
    let extension: Option<String> = path_extension(path);
    proof {
        let found = optional_text(extension);
        assert forall|at: int| #[trigger] extension_dot(path@, at) implies found == Some(path@.skip(at + 1)) by {
            law_extension_decides(path@, at, found);
        }
        assert forall|at: int| #[trigger] hiding_dot(path@, at) implies !picture_extension(found) by {
            law_dot_files_are_no_pictures(path@, found);
        }
        assert forall|at: int| #[trigger] bare_name(path@, at) implies !picture_extension(found) by {
            law_names_without_a_dot_are_no_pictures(path@, at, found);
        }
        if !path@.contains('.') {
            law_dot_files_are_no_pictures(path@, found);
        }
    }
    is_picture_extension(&extension)
}

/// The extension of a file whose name ends in a dot and an extension is what stands behind the
/// dot, whatever comes before it, and the file is a picture file if and only if the extension
/// is that of one.
pub proof fn law_extension_decides(path: Seq<char>, at: int, extension: Option<Seq<char>>)
    requires
        extension_dot(path, at),
        may_have_extension(path, extension),
    ensures
        extension == Some(path.skip(at + 1)),
        picture_extension(extension) == image_extensions().contains(ascii_lowered(path.skip(at + 1))),
{
    lemma_dotted(path, 0, slash(), at);
    if is_remote(path) {
        let (server, share) = choose|server: int, share: int| #[trigger] ends_share(path, server, share) && share < at - 1;
        assert(ends_share(path, server, share) && share < at - 1);
        lemma_dotted(path, share, either_slash(), at);
        lemma_dotted(path, 0, either_slash(), at);
        assert forall|other_server: int, other_share: int| #[trigger]
            ends_share(path, other_server, other_share) implies other_share == share by {
            lemma_one_share(path, server, share, other_server, other_share);
        }
    } else if is_on_drive(path) {
        lemma_dotted(path, 2, either_slash(), at);
    } else {
        lemma_dotted(path, 0, either_slash(), at);
    }
}

/// A file whose name starts with its only dot has no extension, and one whose path has no dot
/// at all has none either: neither is a picture file.
pub proof fn law_dot_files_are_no_pictures(path: Seq<char>, extension: Option<Seq<char>>)
    requires
        may_have_extension(path, extension),
        !path.contains('.') || exists|at: int| hiding_dot(path, at),
    ensures
        extension is None,
        !picture_extension(extension),
{
    if !path.contains('.') {
        assert forall|from: int, separators: spec_fn(char) -> bool| 0 <= from <= path.len() implies #[trigger]
            extension_from(path, from, separators) is None by {
            let text = path.skip(from);
            assert forall|i: int| 0 <= i < text.len() implies #[trigger] text[i] != '.' by {
                assert(text[i] == path[from + i]);
            }
            lemma_dotless(text, separators);
        }
    } else {
        let at = choose|at: int| hiding_dot(path, at);
        lemma_hidden(path, 0, slash(), at);
        lemma_hidden(path, 0, either_slash(), at);
        if is_on_drive(path) {
            lemma_hidden(path, 2, either_slash(), at);
        }
        assert forall|server: int, share: int| #[trigger] ends_share(path, server, share) implies extension_from(
            path,
            share,
            either_slash(),
        ) is None by {
            lemma_hidden(path, share, either_slash(), at);
        }
    }
}

/// A file whose name has no dot is no picture file, whatever dots the names of its folders
/// have. Behind a slash such a name has no extension, unless the path may be one that is to be
/// taken as it is written.
pub proof fn law_names_without_a_dot_are_no_pictures(path: Seq<char>, at: int, extension: Option<Seq<char>>)
    requires
        bare_name(path, at),
        may_have_extension(path, extension),
    ensures
        path[at] == '/' && !is_verbatim(path) ==> extension is None,
        extension matches Some(extension) ==> extension.contains(path[at]),
        !picture_extension(extension),
{
    lemma_bare(path, 0, slash(), at);
    lemma_bare(path, 0, backslash(), at);
    lemma_bare(path, 0, either_slash(), at);
    if is_on_drive(path) {
        lemma_bare(path, 2, either_slash(), at);
    }
    assert forall|server: int, share: int| #[trigger] ends_share(path, server, share) implies extension_from(
        path,
        share,
        either_slash(),
    ) is None by {
        assert(share <= at);
        lemma_bare(path, share, either_slash(), at);
    }
    if extension is Some {
        lemma_separators_are_no_letters(extension->0, path[at]);
    }
}

/// An extension with a separator is not that of a picture file.
proof fn lemma_separators_are_no_letters(extension: Seq<char>, separator: char)
    requires
        extension.contains(separator),
        separates_path(separator),
    ensures
        !image_extensions().contains(ascii_lowered(extension)),
{
    let k = choose|k: int| 0 <= k < extension.len() && extension[k] == separator;
    let lower = ascii_lowered(extension);
    assert(lower[k] == separator);
    reveal_strlit("jpg");
    reveal_strlit("jpeg");
    reveal_strlit("png");
    reveal_strlit("webp");
    reveal_strlit("gif");
    reveal_strlit("bmp");
    if image_extensions().contains(lower) {
        let i = choose|i: int| 0 <= i < image_extensions().len() && image_extensions()[i] == lower;
        let known = image_extensions();
        assert(lower == known[i] && known.len() == 6);
        assert forall|n: int| 0 <= n < lower.len() implies !separates_path(#[trigger] lower[n]) by {
            if i == 0 {
                assert(lower == "jpg"@);
            } else if i == 1 {
                assert(lower == "jpeg"@);
            } else if i == 2 {
                assert(lower == "png"@);
            } else if i == 3 {
                assert(lower == "webp"@);
            } else if i == 4 {
                assert(lower == "gif"@);
            } else {
                assert(lower == "bmp"@);
            }
        }
    }
}

/// A file is that of a picture exactly where its extension is one of the six that are read, in any
/// case of its letters; a file without an extension is none.
pub proof fn law_six_extensions_are_those_of_pictures(extension: &Option<String>, picture: bool, lowered: Seq<char>)
    requires
        call_ensures(is_picture_extension, (extension,), picture),
        *extension is Some ==> lowered == ascii_lowered(extension->0@),
    ensures
        *extension is None ==> !picture,
        *extension is Some ==> (picture <==> lowered == "jpg"@ || lowered == "jpeg"@ || lowered == "png"@ || lowered
            == "webp"@ || lowered == "gif"@ || lowered == "bmp"@),
{
    let list = image_extensions();
    assert(list[0] == "jpg"@);
    assert(list[1] == "jpeg"@);
    assert(list[2] == "png"@);
    assert(list[3] == "webp"@);
    assert(list[4] == "gif"@);
    assert(list[5] == "bmp"@);
}

/// A file in a folder is taken for a picture exactly where its name, which starts with neither a dot nor
/// ends with one, ends in a dot and one of the six extensions, in any case of its letters.
pub proof fn law_pictures_are_told_by_their_names(
    path: &str,
    supported: bool,
    folder: Seq<char>,
    name: Seq<char>,
    extension: Seq<char>,
)
    requires
        call_ensures(is_supported_image, (path,), supported),
        folder.len() > 0,
        folder[0] != '/' || folder.len() < 2 || folder[1] != '/',
        forall|i: int| 0 <= i < folder.len() ==> #[trigger] folder[i] != '\\',
        folder.last() == '/',
        path@ == folder + name + seq!['.'] + extension,
        name.len() > 0,
        forall|i: int| 0 <= i < name.len() ==> #[trigger] name[i] != '/' && name[i] != '\\' && name[i] != ':',
        extension.len() > 0,
        forall|i: int|
            0 <= i < extension.len() ==> #[trigger] extension[i] != '/' && extension[i] != '\\' && extension[i] != '.',
    ensures
        ({
            let lowered = ascii_lowered(extension);
            supported <==> lowered == "jpg"@ || lowered == "jpeg"@ || lowered == "png"@ || lowered == "webp"@ || lowered
                == "gif"@ || lowered == "bmp"@
        }),
{
    let at = (folder.len() + name.len()) as int;
    assert(path@[at] == '.');
    assert forall|i: int| at < i < path@.len() implies #[trigger] path@[i] != '.' && !separates_path(path@[i]) by {
        assert(path@[i] == extension[i - at - 1]);
    }
    assert(path@[at - 1] == name[name.len() - 1]);
    assert forall|i: int| 0 <= i < at implies #[trigger] path@[i] != '\\' by {
        if i < folder.len() {
            assert(path@[i] == folder[i]);
        } else {
            assert(path@[i] == name[i - folder.len()]);
        }
    }
    assert(path@[0] == folder[0]);
    if folder.len() > 1 {
        assert(path@[1] == folder[1]);
    } else {
        assert(path@[1] == name[0]);
    }
    assert(extension_dot(path@, at));
    assert(path@.skip(at + 1) =~= extension);
    let list = image_extensions();
    assert(list[0] == "jpg"@);
    assert(list[1] == "jpeg"@);
    assert(list[2] == "png"@);
    assert(list[3] == "webp"@);
    assert(list[4] == "gif"@);
    assert(list[5] == "bmp"@);
}

} // verus!
