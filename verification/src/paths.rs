//! File names and their extensions.

use crate::text;
use vstd::prelude::*;

verus! {

/// The last position of `c` in `s`, or -1.
pub open spec fn last_index(s: Seq<char>, c: char) -> int
    decreases s.len(),
{
    if s.len() == 0 {
        -1
    } else if s.last() == c {
        s.len() - 1
    } else {
        last_index(s.drop_last(), c)
    }
}

/// The extension of a file name: what follows its last dot, unless that dot is the
/// first character. The name of the parent directory has none.
pub open spec fn name_extension(name: Seq<char>) -> Option<Seq<char>> {
    let dot = last_index(name, '.');
    if dot <= 0 || name == seq!['.', '.'] {
        None
    } else {
        Some(name.skip(dot + 1))
    }
}

/// What follows the last slash of a path.
pub open spec fn file_part(path: Seq<char>) -> Seq<char> {
    path.skip(last_index(path, '/') + 1)
}

/// A path without the slashes at its end and without the components there that stand for
/// the same directory.
pub open spec fn base(path: Seq<char>) -> Seq<char>
    decreases path.len(),
{
    if path.len() > 0 && path.last() == '/' {
        base(path.drop_last())
    } else if path.len() > 1 && path.last() == '.' && path[path.len() - 2] == '/' {
        base(path.take(path.len() - 2))
    } else {
        path
    }
}

/// A character that separates components on some platform.
pub open spec fn is_separator(c: char) -> bool {
    c == '/' || c == '\\'
}

/// A character behind which a file name starts on some platform.
pub open spec fn is_break(c: char) -> bool {
    is_separator(c) || c == ':'
}

/// A path that some platform may take for one on a share or a device.
pub open spec fn starts_double(path: Seq<char>) -> bool {
    path.len() > 1 && is_separator(path[0]) && is_separator(path[1])
}

/// How often `c` stands in `s`.
pub open spec fn count_of(s: Seq<char>, c: char) -> nat
    decreases s.len(),
{
    if s.len() == 0 {
        0
    } else {
        count_of(s.drop_last(), c) + (if s.last() == c {
            1nat
        } else {
            0
        })
    }
}

/// A path with a drive behind the prefix that has it taken as it stands, as in
/// `\\?\C:\dir`.
pub open spec fn is_drive_as_it_stands(path: Seq<char>) -> bool {
    &&& path.len() > 7
    &&& path.take(4) == seq!['\\', '\\', '?', '\\']
    &&& 'a' <= path[4] <= 'z' || 'A' <= path[4] <= 'Z'
    &&& path[5] == ':'
    &&& path[6] == '\\'
}

/// Position `d` lies behind whatever some platform takes for the name of a share, a device
/// or a drive. Such a name has at most five separators in it.
pub open spec fn is_past_prefix(path: Seq<char>, d: int) -> bool {
    ||| !starts_double(path)
    ||| is_drive_as_it_stands(path) && d > 7
    ||| {
        &&& forall|i: int|
            2 <= i < d ==> !(is_separator(#[trigger] path[i]) && is_separator(path[i - 1]))
        &&& count_of(path.take(d), '\\') >= 6 || (!path.contains('\\') && count_of(
            path.take(d),
            '/',
        ) >= 6)
    }
}

/// Position `d` holds the last dot of a path, within a file name on every platform, with
/// something behind it.
pub open spec fn is_plain_dot(path: Seq<char>, d: int) -> bool {
    &&& 0 < d < path.len() - 1
    &&& path[d] == '.'
    &&& !is_break(path[d - 1])
    &&& forall|i: int|
        d < i < path.len() ==> !is_break(#[trigger] path[i]) && path[i] != '.'
    &&& is_past_prefix(path, d)
}

/// The extension of a path, where every platform reads it alike: with slashes as its only
/// separators, with no dot in its last part, or with a plain dot.
pub open spec fn known_extension(path: Seq<char>) -> Option<Option<Seq<char>>> {
    let whole = if starts_double(path) {
        path
    } else {
        base(path)
    };
    let name = file_part(whole);
    let dot = last_index(whole, '.');
    if !starts_double(path) && !path.contains('\\') && !name.contains(':') {
        Some(name_extension(name))
    } else if !starts_double(path) && !name.contains('.') && !(whole.len() > 0 && whole.last()
        == '\\') {
        Some(None)
    } else if is_plain_dot(whole, dot) {
        Some(Some(whole.skip(dot + 1)))
    } else {
        None
    }
}

/// `Path::extension`: what follows the last dot of the last component, unless that dot
/// is its first character. Slashes at the end and components that stand for the same
/// directory do not count. Which characters separate components, and what is the name of
/// a drive or a share, is up to the platform, so nothing is said of a path whose
/// extension rests on that.
#[verifier::external_body]
fn path_extension(path: &str) -> (r: Option<String>)
    ensures
        match known_extension(path@) {
            Some(e) => text::opt_view(r) == e,
            None => true,
        },
{
    std::path::Path::new(path).extension().map(|e| e.to_string_lossy().into_owned())
}

/// The last position of a character is where it stands with no other behind it.
proof fn lemma_last_index(a: Seq<char>, c: char, b: Seq<char>)
    requires
        !b.contains(c),
    ensures
        last_index(a.push(c) + b, c) == a.len(),
        last_index(b, c) == -1,
    decreases b.len(),
{
    let s = a.push(c) + b;
    if b.len() == 0 {
        assert(s =~= a.push(c));
    } else {
        let t = b.drop_last();
        assert(b[b.len() - 1] != c);
        assert(!t.contains(c)) by {
            if t.contains(c) {
                let i = choose|i: int| 0 <= i < t.len() && t[i] == c;
                assert(b[i] == c);
            }
        }
        lemma_last_index(a, c, t);
        assert(s.drop_last() =~= a.push(c) + t);
        assert(s.last() == b.last());
    }
}

/// A text in which no path can be parted: without separators, drives and dots.
pub open spec fn is_simple(s: Seq<char>) -> bool {
    !s.contains('/') && !s.contains('\\') && !s.contains(':') && !s.contains('.')
}

/// A file name: something, without separators and drives.
pub open spec fn is_name(s: Seq<char>) -> bool {
    s.len() > 0 && !s.contains('/') && !s.contains('\\') && !s.contains(':')
}

/// Directories with slashes alone, to which a name can be put: none, or some with a slash
/// behind the last, of which the first two characters are not both slashes.
pub open spec fn is_directory(dir: Seq<char>) -> bool {
    &&& dir.len() > 0 ==> dir.last() == '/'
    &&& !dir.contains('\\')
    &&& !starts_double(dir)
}

/// A name in a directory is its last part.
proof fn lemma_in_directory(dir: Seq<char>, name: Seq<char>)
    requires
        is_directory(dir),
        is_name(name),
        name != seq!['.'],
    ensures
        known_extension(dir + name) == Some(name_extension(name)),
{
    let path = dir + name;
    assert(name[0] != '/' && name[0] != '\\');
    assert(!starts_double(path)) by {
        if starts_double(path) {
            if dir.len() >= 2 {
                assert(path[0] == dir[0] && path[1] == dir[1]);
            } else if dir.len() == 1 {
                assert(path[1] == name[0]);
            } else {
                assert(path[0] == name[0]);
            }
        }
    }
    assert(!path.contains('\\')) by {
        if path.contains('\\') {
            let i = choose|i: int| 0 <= i < path.len() && path[i] == '\\';
            if i < dir.len() {
                assert(dir[i] == '\\');
            } else {
                assert(name[i - dir.len()] == '\\');
            }
        }
    }
    assert(path.last() == name.last());
    assert(name[name.len() - 1] != '/');
    if name.len() >= 2 {
        assert(path[path.len() - 2] == name[name.len() - 2]);
        assert(name[name.len() - 2] != '/');
    } else if name[0] == '.' {
        assert(name =~= seq!['.']);
    }
    assert(base(path) == path);
    if dir.len() == 0 {
        lemma_last_index(dir, '/', name);
        assert(path =~= name);
        assert(path.skip(0) =~= name);
    } else {
        lemma_last_index(dir.drop_last(), '/', name);
        assert(dir.drop_last().push('/') =~= dir);
        assert(path.skip(dir.len() as int) =~= name);
    }
}

/// The extension of a file is what follows the last dot of its name, whatever directory it
/// is in; case does not count.
pub proof fn law_extension(dir: Seq<char>, stem: Seq<char>, ext: Seq<char>)
    requires
        is_directory(dir),
        is_name(stem),
        is_simple(ext),
        ext.len() > 0 || stem != seq!['.'],
    ensures
        known_extension(dir + stem.push('.') + ext) == Some(Some(ext)),
        forall|e: Seq<char>|
            #[trigger] is_ext_of(dir + stem.push('.') + ext, e) <==> e == text::lower(ext),
{
    let name = stem.push('.') + ext;
    assert(dir + stem.push('.') + ext =~= dir + name);
    assert forall|c: char| c != '.' && !stem.contains(c) && !ext.contains(c) implies !(
    #[trigger] name.contains(c)) by {
        if name.contains(c) {
            let i = choose|i: int| 0 <= i < name.len() && name[i] == c;
            if i < stem.len() {
                assert(stem[i] == c);
            } else if i > stem.len() {
                assert(ext[i - stem.len() - 1] == c);
            }
        }
    }
    assert(name != seq!['.']) by {
        assert(name.len() >= 2);
    }
    if name == seq!['.', '.'] {
        assert(name[0] == stem[0]);
        assert(stem =~= seq!['.']);
        assert(ext.len() == 0);
    }
    lemma_in_directory(dir, name);
    lemma_last_index(stem, '.', ext);
    assert(name.skip(stem.len() as int + 1) =~= ext);
}

/// A name without a dot has no extension, and neither has one whose only dot comes first.
pub proof fn law_no_extension(dir: Seq<char>, name: Seq<char>)
    requires
        is_directory(dir),
        name.len() > 0,
        is_simple(name),
    ensures
        known_extension(dir + name) == Some(None::<Seq<char>>),
        known_extension(dir + seq!['.'] + name) == Some(None::<Seq<char>>),
        forall|e: Seq<char>| #[trigger] is_ext_of(dir + name, e) <==> e == Seq::<char>::empty(),
{
    let hidden = seq!['.'] + name;
    assert(dir + seq!['.'] + name =~= dir + hidden);
    assert(hidden =~= Seq::<char>::empty().push('.') + name);
    assert forall|c: char| c != '.' && !name.contains(c) implies !(#[trigger] hidden.contains(c)) by {
        if hidden.contains(c) {
            let i = choose|i: int| 0 <= i < hidden.len() && hidden[i] == c;
            assert(name[i - 1] == c);
        }
    }
    assert(name != seq!['.']) by {
        if name == seq!['.'] {
            assert(name[0] == '.');
        }
    }
    assert(hidden != seq!['.']) by {
        assert(hidden.len() >= 2);
    }
    lemma_in_directory(dir, name);
    lemma_in_directory(dir, hidden);
    lemma_last_index(Seq::empty(), '.', name);
}

/// A slash at the end of a path does not change its extension, and neither does a component
/// there that stands for the same directory.
pub proof fn law_end_of_path(path: Seq<char>)
    requires
        path.len() > 0,
        !starts_double(path.push('/')),
    ensures
        known_extension(path.push('/')) == known_extension(path),
        known_extension(path.push('/').push('.')) == known_extension(path),
        forall|e: Seq<char>| #[trigger] is_ext_of(path.push('/'), e) <==> is_ext_of(path, e),
{
    let slash = path.push('/');
    let dot = slash.push('.');
    assert(slash.drop_last() =~= path);
    assert(dot.take(dot.len() - 2) =~= path);
    assert(base(slash) == base(path));
    assert(base(dot) == base(path));
    if path.len() > 1 {
        assert(slash[0] == path[0] && slash[1] == path[1]);
    }
    assert(dot[0] == slash[0] && dot[1] == slash[1]);
    assert(slash.contains('\\') == path.contains('\\')) by {
        if path.contains('\\') {
            let i = choose|i: int| 0 <= i < path.len() && path[i] == '\\';
            assert(slash[i] == '\\');
        }
    }
    assert(dot.contains('\\') == path.contains('\\')) by {
        if path.contains('\\') {
            let i = choose|i: int| 0 <= i < path.len() && path[i] == '\\';
            assert(dot[i] == '\\');
        }
    }
}

/// Behind the last position of a character it does not stand again.
proof fn lemma_last_at(s: Seq<char>, c: char)
    ensures
        last_index(s, c) < s.len(),
        last_index(s, c) >= 0 ==> s[last_index(s, c)] == c,
        last_index(s, c) >= -1,
        forall|i: int| last_index(s, c) < i < s.len() ==> #[trigger] s[i] != c,
    decreases s.len(),
{
    if s.len() > 0 && s.last() != c {
        let t = s.drop_last();
        lemma_last_at(t, c);
        assert forall|i: int| last_index(s, c) < i < s.len() implies #[trigger] s[i] != c by {
            if i < t.len() {
                assert(t[i] == s[i]);
            }
        }
    }
}

/// What follows the last dot of a path is its extension on every platform where nothing in
/// it can part the path, and something other than a separator or a drive stands before the
/// dot.
pub proof fn law_plain_extension(stem: Seq<char>, ext: Seq<char>)
    requires
        stem.len() > 0,
        !is_break(stem.last()),
        ext.len() > 0,
        is_simple(ext),
        !starts_double(stem.push('.') + ext),
    ensures
        known_extension(stem.push('.') + ext) == Some(Some(ext)),
{
    let path = stem.push('.') + ext;
    let d = stem.len() as int;
    let slash = last_index(path, '/');
    let name = path.skip(slash + 1);
    lemma_last_index(stem, '.', ext);
    lemma_last_at(path, '/');
    assert(path[d] == '.' && path[d - 1] == stem.last());
    assert forall|i: int| d < i < path.len() implies !is_break(#[trigger] path[i]) && path[i]
        != '.' by {
        assert(path[i] == ext[i - d - 1]);
    }
    assert(path.last() == ext.last());
    assert(base(path) == path);
    assert(slash < d - 1);
    let head = stem.skip(slash + 1);
    assert(name =~= head.push('.') + ext);
    assert(name[d - slash - 1] == '.');
    lemma_last_index(head, '.', ext);
    assert(name.skip(head.len() as int + 1) =~= ext);
    assert(path.skip(d + 1) =~= ext);
    assert(name != seq!['.', '.']) by {
        if name == seq!['.', '.'] {
            assert(name.last() == ext.last());
            assert(name[1] == '.');
        }
    }
}

/// An extension in lower case; nothing for a path without one.
pub open spec fn lowered_extension(extension: Option<Seq<char>>) -> Seq<char> {
    match extension {
        Some(e) => text::lower(e),
        None => Seq::empty(),
    }
}

/// The extension in lower case, or an empty string where there is none.
pub fn lower_extension(extension: Option<String>) -> (r: String)
    ensures
        r@ == lowered_extension(text::opt_view(extension)),
{
    match extension {
        Some(e) => e.as_str().to_lowercase(),
        None => String::new(),
    }
}

/// `e` is what the extension of `path` can be in lower case.
pub open spec fn is_ext_of(path: Seq<char>, e: Seq<char>) -> bool {
    match known_extension(path) {
        Some(x) => e == lowered_extension(x),
        None => true,
    }
}

/// The extension of `path` in lower case, or an empty string when it has none.
pub fn ext_of(path: &str) -> (r: String)
    ensures
        is_ext_of(path@, r@),
{
    lower_extension(path_extension(path))
}

} // verus!
