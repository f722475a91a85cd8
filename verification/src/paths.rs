//! Paths as text: names separated by slashes.
//!
//! Repeated slashes count as one, and a slash or a `.` at the end of a path
//! adds nothing to it.
use vstd::prelude::*;

use crate::text::{chars_of, string_of};

verus! {

/// `path` without the slashes and the `.` names at its end. The root keeps its
/// slash.
pub open spec fn bare(path: Seq<char>) -> Seq<char>
    decreases path.len(),
{
    if path.len() > 1 && path.last() == '/' {
        bare(path.drop_last())
    } else if path.len() > 1 && path.last() == '.' && path[path.len() - 2] == '/' {
        bare(path.drop_last())
    } else {
        path
    }
}

/// Where the text behind the last slash of `path` begins.
pub open spec fn last_start(path: Seq<char>) -> int
    decreases path.len(),
{
    if path.len() == 0 || path.last() == '/' {
        path.len() as int
    } else {
        last_start(path.drop_last())
    }
}

/// The last name of a path.
pub open spec fn last_part(path: Seq<char>) -> Seq<char> {
    let whole = bare(path);
    whole.skip(last_start(whole))
}

/// The name of the file that a path leads to. A path that is empty, the root,
/// or ends in `.` alone or in `..` has none.
pub open spec fn name_of(path: Seq<char>) -> Option<Seq<char>> {
    let name = last_part(path);
    if name.len() == 0 || name == seq!['.'] || name == seq!['.', '.'] {
        None
    } else {
        Some(name)
    }
}

/// Where the last dot of `name` stands, or -1.
pub open spec fn last_dot(name: Seq<char>) -> int
    decreases name.len(),
{
    if name.len() == 0 {
        -1
    } else if name.last() == '.' {
        name.len() - 1
    } else {
        last_dot(name.drop_last())
    }
}

/// The name of the file that a path leads to, in front of its last dot. A dot
/// at the front of the name does not count.
pub open spec fn stem_of(path: Seq<char>) -> Option<Seq<char>> {
    match name_of(path) {
        Some(name) => Some(
            if last_dot(name) > 0 {
                name.take(last_dot(name))
            } else {
                name
            },
        ),
        None => None,
    }
}

/// The path without its last name. The root and the empty path have none.
pub open spec fn parent_of(path: Seq<char>) -> Option<Seq<char>> {
    let whole = bare(path);
    if whole.len() == 0 || whole == seq!['/'] {
        None
    } else {
        Some(bare(whole.take(last_start(whole))))
    }
}

/// The path that leads from `dir` to `name`.
pub open spec fn joined(dir: Seq<char>, name: Seq<char>) -> Seq<char> {
    if dir.len() == 0 || dir.last() == '/' {
        dir + name
    } else {
        dir.push('/') + name
    }
}

/// The length of `path[..to]` once it is bare.
fn bare_len(path: &Vec<char>, to: usize) -> (n: usize)
    requires
        to <= path@.len(),
    ensures
        n <= to,
        bare(path@.take(to as int)) == path@.take(n as int),
{
    let mut n: usize = to;
    while n > 1 && (path[n - 1] == '/' || (path[n - 1] == '.' && path[n - 2] == '/'))
        invariant
            n <= to <= path@.len(),
            bare(path@.take(to as int)) == bare(path@.take(n as int)),
        decreases n,
    {
        assert(path@.take(n as int).drop_last() =~= path@.take(n - 1));
        n = n - 1;
    }
    n
}

fn last_start_of(path: &Vec<char>, to: usize) -> (i: usize)
    requires
        to <= path@.len(),
    ensures
        i == last_start(path@.take(to as int)),
        i <= to,
{
    let mut i: usize = to;
    while i > 0 && path[i - 1] != '/'
        invariant
            i <= to <= path@.len(),
            last_start(path@.take(to as int)) == last_start(path@.take(i as int)),
        decreases i,
    {
        assert(path@.take(i as int).drop_last() =~= path@.take(i - 1));
        i = i - 1;
    }
    i
}

/// The name of the file that a path leads to, if it has one.
pub fn file_name(path: &str) -> (r: Option<String>)
    ensures
        match r {
            Some(name) => name_of(path@) == Some(name@),
            None => name_of(path@) is None,
        },
{
    let v = chars_of(path);
    assert(v@.take(v@.len() as int) =~= path@);
    let to = bare_len(&v, v.len());
    let from = last_start_of(&v, to);
    let ghost name = v@.subrange(from as int, to as int);
    assert(name =~= last_part(path@));
    let n: usize = to - from;
    assert(n == 1 && name[0] == '.' ==> name =~= seq!['.']);
    assert(n == 2 && name[0] == '.' && name[1] == '.' ==> name =~= seq!['.', '.']);
    if n == 0 || (n == 1 && v[from] == '.') || (n == 2 && v[from] == '.' && v[from + 1] == '.') {
        return None;
    }
    Some(string_of(&v, from, to))
}

/// The name of the file that a path leads to, without its extension.
pub fn file_stem(path: &str) -> (r: Option<String>)
    ensures
        match r {
            Some(stem) => stem_of(path@) == Some(stem@),
            None => stem_of(path@) is None,
        },
{
    match file_name(path) {
        Some(name) => {
            let v = chars_of(&name);
            let mut i: usize = v.len();
            assert(v@.take(i as int) =~= v@);
            while i > 0 && v[i - 1] != '.'
                invariant
                    i <= v@.len(),
                    last_dot(v@) == last_dot(v@.take(i as int)),
                decreases i,
            {
                assert(v@.take(i as int).drop_last() =~= v@.take(i - 1));
                i = i - 1;
            }
            if i > 1 {
                assert(v@.subrange(0, i - 1) =~= v@.take(i - 1));
                Some(string_of(&v, 0, i - 1))
            } else {
                Some(name)
            }
        },
        None => None,
    }
}

/// The path without its last name.
pub fn parent(path: &str) -> (r: Option<String>)
    ensures
        match r {
            Some(dir) => parent_of(path@) == Some(dir@),
            None => parent_of(path@) is None,
        },
{
    let v = chars_of(path);
    assert(v@.take(v@.len() as int) =~= path@);
    let to = bare_len(&v, v.len());
    let ghost whole = v@.take(to as int);
    assert(to == 1 && whole[0] == '/' ==> whole =~= seq!['/']);
    if to == 0 || (to == 1 && v[0] == '/') {
        return None;
    }
    let from = last_start_of(&v, to);
    assert(whole.take(from as int) =~= v@.take(from as int));
    let end = bare_len(&v, from);
    assert(v@.subrange(0, end as int) =~= v@.take(end as int));
    Some(string_of(&v, 0, end))
}

/// The path that leads from `dir` to `name`.
pub fn join(dir: &str, name: &str) -> (r: String)
    ensures
        r@ == joined(dir@, name@),
{
    let v = chars_of(dir);
    let mut r = String::new();
    r.append(dir);
    assert(r@ =~= dir@);
    if v.len() > 0 && v[v.len() - 1] != '/' {
        r.push('/');
    }
    r.append(name);
    r
}

// ---------------------------------------------------------------------------
// Laws
// ---------------------------------------------------------------------------


/// Whether `name` is the name of a file: not empty, without a slash, and neither
/// `.` nor `..`.
pub open spec fn plain_name(name: Seq<char>) -> bool {
    &&& name.len() > 0
    &&& forall|i: int| 0 <= i < name.len() ==> #[trigger] name[i] != '/'
    &&& name != seq!['.']
    &&& name != seq!['.', '.']
}

proof fn lemma_last_start(front: Seq<char>, name: Seq<char>)
    requires
        front.len() == 0 || front.last() == '/',
        forall|i: int| 0 <= i < name.len() ==> #[trigger] name[i] != '/',
    ensures
        last_start(front + name) == front.len(),
    decreases name.len(),
{
    let path = front + name;
    if name.len() == 0 {
        assert(path =~= front);
    } else {
        assert(path.last() == name[name.len() - 1]);
        assert(path.drop_last() =~= front + name.drop_last());
        lemma_last_start(front, name.drop_last());
    }
}

proof fn lemma_bare_name(front: Seq<char>, name: Seq<char>)
    requires
        front.len() == 0 || front.last() == '/',
        plain_name(name),
    ensures
        bare(front + name) == front + name,
{
    let path = front + name;
    assert(path.last() == name[name.len() - 1]);
    if path.last() == '.' && name.len() == 1 {
        assert(name =~= seq!['.']);
    } else if name.len() > 1 {
        assert(path[path.len() - 2] == name[name.len() - 2]);
    }
}

/// The name of a file is what stands behind the last slash of its path, whatever
/// stands in front of it.
pub proof fn law_name_stands_behind_the_last_slash(dir: Seq<char>, name: Seq<char>)
    requires
        plain_name(name),
    ensures
        name_of(name) == Some(name),
        name_of(dir.push('/') + name) == Some(name),
{
    let none = Seq::<char>::empty();
    let front = dir.push('/');
    lemma_bare_name(none, name);
    lemma_last_start(none, name);
    assert(none + name =~= name);
    assert(name.skip(0) =~= name);
    lemma_bare_name(front, name);
    lemma_last_start(front, name);
    assert((front + name).skip(front.len() as int) =~= name);
}

/// A slash at the end of a path, or a slash and a dot, change neither its name
/// nor its parent.
pub proof fn law_trailing_slashes_do_not_matter(path: Seq<char>)
    requires
        path.len() > 0,
    ensures
        name_of(path.push('/')) == name_of(path),
        name_of(path.push('/').push('.')) == name_of(path),
        parent_of(path.push('/')) == parent_of(path),
        parent_of(path.push('/').push('.')) == parent_of(path),
{
    let slashed = path.push('/');
    let dotted = slashed.push('.');
    assert(slashed.drop_last() =~= path);
    assert(dotted.drop_last() =~= slashed);
    assert(bare(slashed) == bare(path));
    assert(bare(dotted) == bare(slashed));
}

/// The empty path, the root, and paths that end in `..` lead to no file; the
/// empty path and the root have no parent.
pub proof fn law_some_paths_have_no_name(dir: Seq<char>)
    ensures
        name_of(Seq::empty()) is None,
        name_of(seq!['/']) is None,
        name_of(seq!['.']) is None,
        name_of(dir.push('/') + seq!['.', '.']) is None,
        parent_of(Seq::empty()) is None,
        parent_of(seq!['/']) is None,
{
    let none = Seq::<char>::empty();
    let dots = seq!['.', '.'];
    let front = dir.push('/');
    let path = front + dots;
    assert(path.last() == '.');
    assert(path[path.len() - 2] == dots[0]);
    assert(bare(path) == path);
    lemma_last_start(front, dots);
    assert(path.skip(front.len() as int) =~= dots);
    lemma_last_start(none, seq!['.']);
    assert(none + seq!['.'] =~= seq!['.']);
    assert(seq!['.'].skip(0) =~= seq!['.']);
    assert(seq!['/'].skip(1).len() == 0);
    assert(last_start(seq!['/']) == 1);
    assert(none.skip(0).len() == 0);
}

/// The parent of a file in a directory is that directory; that of a file at the
/// root is the root, and that of a name alone is empty.
pub proof fn law_parent_stands_in_front_of_the_name(dir: Seq<char>, name: Seq<char>)
    requires
        plain_name(name),
        dir.len() > 0,
        dir.last() != '/',
        dir.len() > 1 && dir.last() == '.' ==> dir[dir.len() - 2] != '/',
    ensures
        parent_of(dir.push('/') + name) == Some(dir),
        parent_of(seq!['/'] + name) == Some(seq!['/']),
        parent_of(name) == Some(Seq::<char>::empty()),
{
    let none = Seq::<char>::empty();
    let root = seq!['/'];
    let front = dir.push('/');
    lemma_bare_name(front, name);
    lemma_last_start(front, name);
    assert((front + name).take(front.len() as int) =~= front);
    assert(front.drop_last() =~= dir);
    assert(bare(dir) == dir);
    assert(bare(front) == dir);
    lemma_bare_name(root, name);
    lemma_last_start(root, name);
    assert((root + name).take(1) =~= root);
    assert((root + name).len() > 1);
    assert((front + name).len() > 1);
    lemma_bare_name(none, name);
    lemma_last_start(none, name);
    assert(none + name =~= name);
    assert(name.take(0) =~= none);
    assert(name[0] != '/');
}

proof fn lemma_last_dot(front: Seq<char>, back: Seq<char>)
    requires
        forall|i: int| 0 <= i < back.len() ==> #[trigger] back[i] != '.',
    ensures
        last_dot(front.push('.') + back) == front.len(),
        last_dot(back) == -1,
    decreases back.len(),
{
    let name = front.push('.') + back;
    if back.len() == 0 {
        assert(name =~= front.push('.'));
    } else {
        assert(name.last() == back[back.len() - 1]);
        assert(back.last() == back[back.len() - 1]);
        assert(name.drop_last() =~= front.push('.') + back.drop_last());
        lemma_last_dot(front, back.drop_last());
    }
}

/// The stem of a file is its name in front of the last dot, wherever the file
/// lies. A dot at the front of the name begins no extension, and a name without
/// a dot is its own stem.
pub proof fn law_stem_stands_in_front_of_the_last_dot(
    dir: Seq<char>,
    stem: Seq<char>,
    extension: Seq<char>,
)
    requires
        forall|i: int| 0 <= i < stem.len() ==> #[trigger] stem[i] != '/',
        forall|i: int|
            0 <= i < extension.len() ==> #[trigger] extension[i] != '/' && extension[i] != '.',
    ensures
        stem.len() > 0 && plain_name(stem.push('.') + extension) ==> {
            &&& stem_of(stem.push('.') + extension) == Some(stem)
            &&& stem_of(dir.push('/') + (stem.push('.') + extension)) == Some(stem)
        },
        extension.len() > 0 ==> {
            &&& stem_of(extension) == Some(extension)
            &&& stem_of(dir.push('/') + extension) == Some(extension)
            &&& stem_of(seq!['.'] + extension) == Some(seq!['.'] + extension)
        },
        stem_of(Seq::empty()) is None,
{
    let name = stem.push('.') + extension;
    lemma_last_dot(stem, extension);
    law_some_paths_have_no_name(dir);
    if stem.len() > 0 && plain_name(name) {
        law_name_stands_behind_the_last_slash(dir, name);
        assert(name.take(stem.len() as int) =~= stem);
    }
    if extension.len() > 0 {
        assert(extension[0] != '.');
        assert(extension != seq!['.'] && extension != seq!['.', '.']);
        law_name_stands_behind_the_last_slash(dir, extension);
        let hidden = seq!['.'] + extension;
        assert(hidden[1] == extension[0]);
        assert forall|i: int| 0 <= i < hidden.len() implies #[trigger] hidden[i] != '/' by {
            if i > 0 {
                assert(hidden[i] == extension[i - 1]);
            }
        }
        law_name_stands_behind_the_last_slash(dir, hidden);
        lemma_last_dot(Seq::empty(), extension);
        assert(Seq::<char>::empty().push('.') =~= seq!['.']);
    }
}

/// A path is put together from the directory, one slash between, and the name;
/// nothing stands between where the directory is empty or ends in a slash.
pub proof fn law_one_slash_joins(dir: Seq<char>, name: Seq<char>)
    ensures
        joined(Seq::empty(), name) == name,
        joined(dir.push('/'), name) == dir.push('/') + name,
        dir.len() > 0 && dir.last() != '/' ==> joined(dir, name) == dir.push('/') + name,
{
    assert(Seq::<char>::empty() + name =~= name);
}

/// Slashes that are repeated between a directory and a name, and a name `.`
/// between them, change neither the parent nor the name.
pub proof fn law_repeated_slashes_do_not_matter(dir: Seq<char>, name: Seq<char>)
    requires
        plain_name(name),
        dir.len() > 0,
    ensures
        parent_of(dir.push('/').push('/') + name) == parent_of(dir.push('/') + name),
        parent_of(dir.push('/').push('.').push('/') + name) == parent_of(dir.push('/') + name),
        parent_of(dir.push('/') + name) == Some(bare(dir)),
        name_of(dir.push('/').push('/') + name) == Some(name),
{
    let one = dir.push('/');
    let two = one.push('/');
    let dot = one.push('.');
    let dotted = dot.push('/');
    assert(one.drop_last() =~= dir);
    assert(two.drop_last() =~= one);
    assert(dot.drop_last() =~= one);
    assert(dotted.drop_last() =~= dot);
    assert(bare(one) == bare(dir));
    assert(bare(two) == bare(one));
    assert(bare(dot) == bare(one));
    assert(bare(dotted) == bare(dot));
    lemma_bare_name(one, name);
    lemma_last_start(one, name);
    assert((one + name).take(one.len() as int) =~= one);
    lemma_bare_name(two, name);
    lemma_last_start(two, name);
    assert((two + name).take(two.len() as int) =~= two);
    lemma_bare_name(dotted, name);
    lemma_last_start(dotted, name);
    assert((dotted + name).take(dotted.len() as int) =~= dotted);
    law_name_stands_behind_the_last_slash(one, name);
    assert((one + name).len() > 1);
    assert((two + name).len() > 1);
    assert((dotted + name).len() > 1);
}

/// The names and parents that are given for a path are those of the path.
pub proof fn law_parts_of_a_path(
    path: &str,
    dir: Seq<char>,
    stem: Seq<char>,
    extension: Seq<char>,
    name: Option<String>,
    base: Option<String>,
    above: Option<String>,
    again: String,
    place: &str,
    last: &str,
)
    requires
        dir.len() > 0,
        dir.last() != '/',
        dir.len() > 1 && dir.last() == '.' ==> dir[dir.len() - 2] != '/',
        stem.len() > 0,
        forall|i: int| 0 <= i < stem.len() ==> #[trigger] stem[i] != '/',
        forall|i: int|
            0 <= i < extension.len() ==> #[trigger] extension[i] != '/' && extension[i] != '.',
        plain_name(stem.push('.') + extension),
        path@ == dir.push('/') + (stem.push('.') + extension),
        call_ensures(file_name, (path,), name),
        call_ensures(file_stem, (path,), base),
        call_ensures(parent, (path,), above),
        place@ == dir,
        last@ == stem.push('.') + extension,
        call_ensures(join, (place, last), again),
    ensures
        name matches Some(n) && n@ == stem.push('.') + extension,
        base matches Some(s) && s@ == stem,
        above matches Some(d) && d@ == dir,
        again@ == path@,
{
    let whole = stem.push('.') + extension;
    law_name_stands_behind_the_last_slash(dir, whole);
    law_stem_stands_in_front_of_the_last_dot(dir, stem, extension);
    law_parent_stands_in_front_of_the_name(dir, whole);
    law_one_slash_joins(dir, whole);
}

}
