//! Paths as texts: components between `/`, the last of which names a file.
use crate::text::{chars_of, same_text};
use vstd::prelude::*;

verus! {

/// `path` without the separators and `.` components at its end.
pub open spec fn tidy(path: Seq<char>) -> Seq<char>
    decreases path.len(),
{
    if path.len() > 1 && path.last() == '/' {
        tidy(path.drop_last())
    } else if path.len() > 1 && path.last() == '.' && path[path.len() - 2] == '/' {
        tidy(path.drop_last())
    } else {
        path
    }
}

/// Where the part behind the last separator starts.
pub open spec fn name_start(path: Seq<char>) -> int
    decreases path.len(),
{
    if path.len() == 0 {
        0
    } else if path.last() == '/' {
        path.len() as int
    } else {
        name_start(path.drop_last())
    }
}

/// The name of the file that a path leads to. A path that ends in the root, in `.` or in `..` has
/// none.
pub open spec fn file_name_text(path: Seq<char>) -> Option<Seq<char>> {
    let t = tidy(path);
    let name = t.skip(name_start(t));
    if name.len() == 0 || name == "."@ || name == ".."@ {
        None
    } else {
        Some(name)
    }
}

/// The path without its last component. The root and the empty path have none.
pub open spec fn parent_text(path: Seq<char>) -> Option<Seq<char>> {
    let t = tidy(path);
    if t.len() == 0 || t == "/"@ {
        None
    } else {
        Some(tidy(t.take(name_start(t))))
    }
}

/// `name` under `dir`; an absolute `name` stands for itself.
pub open spec fn join_text(dir: Seq<char>, name: Seq<char>) -> Seq<char> {
    if name.len() > 0 && name[0] == '/' {
        name
    } else if dir.len() > 0 && dir.last() != '/' {
        dir + "/"@ + name
    } else {
        dir + name
    }
}

/// Where a name splits into stem and extension: at its last dot, unless that is its first
/// character.
pub open spec fn stem_text(name: Seq<char>) -> Seq<char> {
    let dot = last_dot(name);
    if dot > 0 {
        name.take(dot)
    } else {
        name
    }
}

/// The position of the last dot; before the start where there is none.
pub open spec fn last_dot(name: Seq<char>) -> int
    decreases name.len(),
{
    if name.len() == 0 {
        -1
    } else if name.last() == '.' {
        name.len() - 1
    } else {
        last_dot(name.drop_last())
    }
}

proof fn lemma_name_start(path: Seq<char>)
    ensures
        0 <= name_start(path) <= path.len(),
        forall|i: int| name_start(path) <= i < path.len() ==> #[trigger] path[i] != '/',
    decreases path.len(),
{
    if path.len() > 0 && path.last() != '/' {
        lemma_name_start(path.drop_last());
        assert forall|i: int| name_start(path) <= i < path.len() implies #[trigger] path[i]
            != '/' by {
            if i < path.len() - 1 {
                assert(path.drop_last()[i] == path[i]);
            }
        }
    }
}

/// The length of `tidy` of the first `end` characters.
fn tidy_end(chars: &Vec<char>, end: usize) -> (r: usize)
    requires
        end <= chars@.len(),
    ensures
        r <= end,
        chars@.take(r as int) == tidy(chars@.take(end as int)),
{
    let ghost whole = chars@.take(end as int);
    let mut r: usize = end;
    while r > 1 && (chars[r - 1] == '/' || (chars[r - 1] == '.' && chars[r - 2] == '/'))
        invariant
            r <= end <= chars@.len(),
            tidy(whole) == tidy(chars@.take(r as int)),
        decreases r,
    {
        proof {
            assert(chars@.take(r as int).drop_last() =~= chars@.take(r - 1));
        }
        r -= 1;
    }
    r
}

/// Where the part behind the last separator of the first `end` characters starts.
fn name_begin(chars: &Vec<char>, end: usize) -> (r: usize)
    requires
        end <= chars@.len(),
    ensures
        r <= end,
        r == name_start(chars@.take(end as int)),
{
    let ghost whole = chars@.take(end as int);
    let mut r: usize = end;
    while r > 0 && chars[r - 1] != '/'
        invariant
            r <= end <= chars@.len(),
            name_start(whole) == name_start(chars@.take(r as int)),
        decreases r,
    {
        proof {
            assert(chars@.take(r as int).drop_last() =~= chars@.take(r - 1));
        }
        r -= 1;
    }
    r
}

/// The name of the file that a path leads to.
pub fn file_name(path: &str) -> (r: Option<String>)
    ensures
        match file_name_text(path@) {
            Some(name) => r matches Some(n) && n@ == name,
            None => r is None,
        },
{
    let chars = chars_of(path);
    proof {
        assert(chars@.take(chars@.len() as int) =~= chars@);
    }
    let end = tidy_end(&chars, chars.len());
    let start = name_begin(&chars, end);
    let name = path.substring_char(start, end);
    proof {
        assert(tidy(path@).skip(start as int) =~= path@.subrange(start as int, end as int));
    }
    if start == end || same_text(name, ".") || same_text(name, "..") {
        None
    } else {
        Some(name.to_owned())
    }
}

/// The path without its last component.
pub fn parent(path: &str) -> (r: Option<String>)
    ensures
        match parent_text(path@) {
            Some(dir) => r matches Some(d) && d@ == dir,
            None => r is None,
        },
{
    let chars = chars_of(path);
    proof {
        assert(chars@.take(chars@.len() as int) =~= chars@);
    }
    let end = tidy_end(&chars, chars.len());
    proof {
        assert(path@.subrange(0, end as int) =~= tidy(path@));
    }
    if end == 0 || same_text(path.substring_char(0, end), "/") {
        return None;
    }
    let start = name_begin(&chars, end);
    let dir_end = tidy_end(&chars, start);
    proof {
        assert(tidy(path@).take(start as int) =~= chars@.take(start as int));
        assert(path@.subrange(0, dir_end as int) =~= chars@.take(dir_end as int));
    }
    Some(path.substring_char(0, dir_end).to_owned())
}

/// `name` under `dir`.
pub fn join(dir: &str, name: &str) -> (r: String)
    ensures
        r@ == join_text(dir@, name@),
{
    if name.unicode_len() > 0 && name.get_char(0) == '/' {
        return name.to_owned();
    }
    let mut out = dir.to_owned();
    let n: usize = dir.unicode_len();
    if n > 0 && dir.get_char(n - 1) != '/' {
        out.append("/");
    }
    out.append(name);
    out
}

/// A file's name without its extension.
pub fn stem(name: &str) -> (r: String)
    ensures
        r@ == stem_text(name@),
{
    let chars = chars_of(name);
    let mut end: usize = chars.len();
    proof {
        assert(chars@.take(end as int) =~= chars@);
    }
    while end > 0 && chars[end - 1] != '.'
        invariant
            end <= chars@.len(),
            last_dot(chars@) == last_dot(chars@.take(end as int)),
        decreases end,
    {
        proof {
            assert(chars@.take(end as int).drop_last() =~= chars@.take(end - 1));
        }
        end -= 1;
    }
    if end > 1 {
        proof {
            assert(name@.subrange(0, end - 1) =~= name@.take(end - 1));
        }
        name.substring_char(0, end - 1).to_owned()
    } else {
        name.to_owned()
    }
}

/// Whether a text can name a file: not empty, without separator, and neither `.` nor `..`.
pub open spec fn names_file(name: Seq<char>) -> bool {
    &&& name.len() > 0
    &&& name != "."@
    &&& name != ".."@
    &&& forall|i: int| 0 <= i < name.len() ==> #[trigger] name[i] != '/'
}

/// What names a file, joined to any directory, is the name that the joined path leads to.
pub proof fn law_join_keeps_the_name(dir: Seq<char>, name: Seq<char>)
    requires
        names_file(name),
    ensures
        file_name_text(join_text(dir, name)) == Some(name),
{
    reveal_strlit("/");
    reveal_strlit(".");
    let path = join_text(dir, name);
    let front = path.take(path.len() - name.len());
    assert(path =~= front + name);
    assert(path.last() == name.last());
    assert(name.last() != '/');
    if path.last() == '.' && path.len() > 1 && path[path.len() - 2] == '/' {
        if name.len() > 1 {
            assert(path[path.len() - 2] == name[name.len() - 2]);
        } else {
            assert(name =~= "."@);
        }
    }
    assert(tidy(path) == path);
    lemma_name_starts_behind(front, name);
    assert(path.skip(front.len() as int) =~= name);
}

proof fn lemma_name_starts_behind(front: Seq<char>, name: Seq<char>)
    requires
        front.len() == 0 || front.last() == '/',
        forall|i: int| 0 <= i < name.len() ==> #[trigger] name[i] != '/',
    ensures
        name_start(front + name) == front.len(),
    decreases name.len(),
{
    let path = front + name;
    if name.len() == 0 {
        assert(path =~= front);
    } else {
        assert(path.last() == name.last());
        assert(name[name.len() - 1] != '/');
        assert(path.drop_last() =~= front + name.drop_last());
        lemma_name_starts_behind(front, name.drop_last());
    }
}

/// The name that a path leads to names a file.
pub proof fn law_file_name_names_file(path: Seq<char>)
    requires
        file_name_text(path) is Some,
    ensures
        names_file(file_name_text(path)->0),
{
    let t = tidy(path);
    lemma_name_start(t);
    let name = t.skip(name_start(t));
    assert forall|i: int| 0 <= i < name.len() implies #[trigger] name[i] != '/' by {
        assert(t[name_start(t) + i] != '/');
    }
}

/// Tidying takes separators, and dots right behind a separator, off the end of a path, as many as
/// there are, but never the first character.
pub proof fn law_tidy(path: Seq<char>, n: int)
    requires
        0 <= n <= path.len(),
        path.len() > 0 ==> n >= 1,
        forall|k: int|
            n <= k < path.len() ==> #[trigger] path[k] == '/' || (path[k] == '.' && path[k - 1]
                == '/'),
        n > 1 ==> path[n - 1] != '/' && !(path[n - 1] == '.' && path[n - 2] == '/'),
    ensures
        tidy(path) == path.take(n),
    decreases path.len(),
{
    if n == path.len() {
        assert(path.take(n) =~= path);
    } else {
        let last = path.len() - 1;
        assert(path[last] == '/' || (path[last] == '.' && path[last - 1] == '/'));
        let shorter = path.drop_last();
        assert forall|k: int| n <= k < shorter.len() implies #[trigger] shorter[k] == '/' || (
        shorter[k] == '.' && shorter[k - 1] == '/') by {
            assert(path[k] == '/' || (path[k] == '.' && path[k - 1] == '/'));
        }
        law_tidy(shorter, n);
        assert(shorter.take(n) =~= path.take(n));
    }
}

proof fn lemma_split_at_name(dir: Seq<char>, name: Seq<char>)
    requires
        forall|i: int| 0 <= i < name.len() ==> #[trigger] name[i] != '/',
        dir.len() == 0 || dir.last() == '/',
    ensures
        name_start(dir + name) == dir.len(),
    decreases name.len(),
{
    if name.len() == 0 {
        assert(dir + name =~= dir);
    } else {
        assert((dir + name).last() == name[name.len() - 1]);
        assert((dir + name).drop_last() =~= dir + name.drop_last());
        lemma_split_at_name(dir, name.drop_last());
    }
}

/// The file name of a path is what stands behind its last separator, once the path is tidy; it is
/// missing where that is empty, `.` or `..`. The parent is what stands before it.
pub proof fn law_last_component(path: Seq<char>, dir: Seq<char>, name: Seq<char>)
    requires
        tidy(path) == dir + name,
        forall|i: int| 0 <= i < name.len() ==> #[trigger] name[i] != '/',
        dir.len() == 0 || dir.last() == '/',
    ensures
        file_name_text(path) == (if name.len() == 0 || name == "."@ || name == ".."@ {
            None
        } else {
            Some(name)
        }),
        parent_text(path) == (if dir.len() + name.len() == 0 || dir + name == "/"@ {
            None
        } else {
            Some(tidy(dir))
        }),
{
    lemma_split_at_name(dir, name);
    assert((dir + name).skip(dir.len() as int) =~= name);
    assert((dir + name).take(dir.len() as int) =~= dir);
}

/// A name goes under a directory with one separator between them, which a directory that ends in
/// one or is empty does not need again; an absolute name stands for itself.
pub proof fn law_join(dir: Seq<char>, name: Seq<char>)
    ensures
        name.len() > 0 && name[0] == '/' ==> join_text(dir, name) == name,
        !(name.len() > 0 && name[0] == '/') && dir.len() > 0 && dir[dir.len() - 1] != '/'
            ==> join_text(dir, name) == dir.push('/') + name,
        !(name.len() > 0 && name[0] == '/') && (dir.len() == 0 || dir[dir.len() - 1] == '/')
            ==> join_text(dir, name) == dir + name,
{
    reveal_strlit("/");
    assert(dir + "/"@ + name =~= dir.push('/') + name);
}

/// The stem of a name is what stands before its last dot; a name without a dot, or with none but the
/// first character, is its own stem.
pub proof fn law_stem(stem: Seq<char>, extension: Seq<char>)
    requires
        forall|i: int| 0 <= i < extension.len() ==> #[trigger] extension[i] != '.',
    ensures
        stem.len() > 0 ==> stem_text(stem.push('.') + extension) == stem,
        stem_text(extension) == extension,
        stem_text(seq!['.'] + extension) == seq!['.'] + extension,
{
    lemma_last_dot(stem, extension);
    lemma_last_dot(Seq::empty(), extension);
    lemma_no_dot(extension);
    assert((stem.push('.') + extension).take(stem.len() as int) =~= stem);
    assert(Seq::<char>::empty().push('.') + extension =~= seq!['.'] + extension);
}

proof fn lemma_last_dot(stem: Seq<char>, extension: Seq<char>)
    requires
        forall|i: int| 0 <= i < extension.len() ==> #[trigger] extension[i] != '.',
    ensures
        last_dot(stem.push('.') + extension) == stem.len(),
    decreases extension.len(),
{
    let whole = stem.push('.') + extension;
    if extension.len() == 0 {
        assert(whole =~= stem.push('.'));
    } else {
        assert(whole.last() == extension[extension.len() - 1]);
        assert(whole.drop_last() =~= stem.push('.') + extension.drop_last());
        lemma_last_dot(stem, extension.drop_last());
    }
}

proof fn lemma_no_dot(name: Seq<char>)
    requires
        forall|i: int| 0 <= i < name.len() ==> #[trigger] name[i] != '.',
    ensures
        last_dot(name) == -1,
    decreases name.len(),
{
    if name.len() > 0 {
        assert(name.last() == name[name.len() - 1]);
        lemma_no_dot(name.drop_last());
    }
}

} // verus!
