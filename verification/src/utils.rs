//! Absolute paths, by their text alone. A path is absolute when it starts with `/`.

use vstd::prelude::*;

verus! {

/// Whether `path` starts at the root.
pub open spec fn rooted(path: Seq<char>) -> bool {
    path.len() > 0 && path[0] == '/'
}

/// The position of the first `/` in `path`, or its length if there is none.
pub open spec fn first_slash(path: Seq<char>) -> nat
    decreases path.len(),
{
    if path.len() == 0 || path[0] == '/' {
        0
    } else {
        1 + first_slash(path.skip(1))
    }
}

/// The name of the current directory.
pub open spec fn dot() -> Seq<char> {
    seq!['.']
}

/// The name of the parent directory.
pub open spec fn dot_dot() -> Seq<char> {
    seq!['.', '.']
}

/// A path of any length starts at the root if it starts with a slash, and only then.
pub proof fn law_rooted_paths_start_with_slash(path: Seq<char>)
    ensures
        rooted(seq!['/'] + path),
        rooted(path) ==> path.take(1) == seq!['/'],
        !rooted(path) ==> path.len() == 0 || path[0] != '/',
{
    if rooted(path) {
        assert(path.take(1) =~= seq!['/']);
    }
}

/// What stands before, between and after the slashes of `path`, but for empty names and
/// for those of the current directory.
pub open spec fn elements(path: Seq<char>) -> Seq<Seq<char>>
    decreases path.len(),
{
    if path.len() == 0 {
        Seq::empty()
    } else {
        let n = first_slash(path);
        let name = path.take(n as int);
        let rest = if n < path.len() {
            elements(path.skip((n + 1) as int))
        } else {
            Seq::empty()
        };
        if name.len() == 0 || name == dot() {
            rest
        } else {
            seq![name] + rest
        }
    }
}

/// `names` with each parent directory taken together with the name that it undoes. What
/// leads out of the root is dropped; what leads out of the place where a path that is
/// not rooted begins is kept.
pub open spec fn resolved(from_root: bool, names: Seq<Seq<char>>) -> Seq<Seq<char>>
    decreases names.len(),
{
    if names.len() == 0 {
        Seq::empty()
    } else {
        let before = resolved(from_root, names.drop_last());
        if names.last() != dot_dot() {
            before.push(names.last())
        } else if before.len() > 0 && before.last() != dot_dot() {
            before.drop_last()
        } else if from_root {
            before
        } else {
            before.push(dot_dot())
        }
    }
}

/// `names` with a slash between each two.
pub open spec fn joined(names: Seq<Seq<char>>) -> Seq<char>
    decreases names.len(),
{
    if names.len() == 0 {
        Seq::empty()
    } else if names.len() == 1 {
        names[0]
    } else {
        joined(names.drop_last()) + seq!['/'] + names.last()
    }
}

/// The shortest path that leads where `path` does, by its text alone.
pub open spec fn cleaned(path: Seq<char>) -> Seq<char> {
    let names = resolved(rooted(path), elements(path));
    if rooted(path) {
        seq!['/'] + joined(names)
    } else if names.len() == 0 {
        dot()
    } else {
        joined(names)
    }
}

/// `path` seen from the directory `dir`.
pub open spec fn under(dir: Seq<char>, path: Seq<char>) -> Seq<char> {
    if dir.len() > 0 && dir.last() != '/' {
        dir + seq!['/'] + path
    } else {
        dir + path
    }
}

/// Whether `name` can stand between two slashes of a clean path.
pub open spec fn proper(name: Seq<char>) -> bool {
    &&& name.len() > 0
    &&& name != dot()
    &&& !name.contains('/')
}

pub open spec fn all_proper(names: Seq<Seq<char>>) -> bool {
    forall|i: int| 0 <= i < names.len() ==> proper(#[trigger] names[i])
}

/// Whether no parent directory in `names` can be taken together with another name.
pub open spec fn settled(from_root: bool, names: Seq<Seq<char>>) -> bool {
    forall|i: int, j: int|
        0 <= j <= i < names.len() && names[i] == dot_dot() ==> !from_root && #[trigger] names[j]
            == #[trigger] names[i]
}

pub proof fn lemma_first_slash(path: Seq<char>)
    ensures
        first_slash(path) <= path.len(),
        first_slash(path) < path.len() ==> path[first_slash(path) as int] == '/',
        forall|i: int| 0 <= i < first_slash(path) ==> path[i] != '/',
    decreases path.len(),
{
    if path.len() > 0 && path[0] != '/' {
        lemma_first_slash(path.skip(1));
        assert forall|i: int| 0 <= i < first_slash(path) implies path[i] != '/' by {
            if i > 0 {
                assert(path[i] == path.skip(1)[i - 1]);
            }
        }
    }
}

proof fn lemma_first_slash_is(path: Seq<char>, n: nat)
    requires
        n <= path.len(),
        n < path.len() ==> path[n as int] == '/',
        forall|i: int| 0 <= i < n ==> path[i] != '/',
    ensures
        first_slash(path) == n,
{
    lemma_first_slash(path);
    let m = first_slash(path);
    if m < n {
        assert(path[m as int] != '/');
    } else if n < m {
        assert(path[n as int] != '/');
    }
}

proof fn lemma_elements_proper(path: Seq<char>)
    ensures
        all_proper(elements(path)),
    decreases path.len(),
{
    lemma_first_slash(path);
    if path.len() > 0 {
        let n = first_slash(path);
        let name = path.take(n as int);
        if n < path.len() {
            lemma_elements_proper(path.skip((n + 1) as int));
        }
        assert(!name.contains('/'));
    }
}

/// Cutting at a slash cuts the elements.
proof fn lemma_elements_concat(left: Seq<char>, right: Seq<char>)
    ensures
        elements(left + seq!['/'] + right) == elements(left) + elements(right),
    decreases left.len(),
{
    let path = left + seq!['/'] + right;
    lemma_first_slash(left);
    lemma_first_slash(path);
    let n = first_slash(left);
    lemma_first_slash_is(path, n);
    assert(path.take(n as int) =~= left.take(n as int));
    if n < left.len() {
        assert(path.skip((n + 1) as int) =~= left.skip((n + 1) as int) + seq!['/'] + right);
        lemma_elements_concat(left.skip((n + 1) as int), right);
        assert(elements(path) =~= elements(left) + elements(right));
    } else {
        assert(path.skip((n + 1) as int) =~= right);
        assert(elements(path) =~= elements(left) + elements(right));
    }
}

proof fn lemma_elements_name(name: Seq<char>)
    requires
        proper(name),
    ensures
        elements(name) == seq![name],
{
    assert forall|i: int| 0 <= i < name.len() implies name[i] != '/' by {
        assert(name.contains(name[i]));
    }
    lemma_first_slash_is(name, name.len());
    assert(name.take(name.len() as int) =~= name);
    assert(elements(name) =~= seq![name]);
}

proof fn lemma_elements_joined(names: Seq<Seq<char>>)
    requires
        all_proper(names),
    ensures
        elements(joined(names)) == names,
    decreases names.len(),
{
    if names.len() == 0 {
        assert(elements(joined(names)) =~= names);
    } else {
        let last = names.last();
        assert(proper(names[names.len() - 1]));
        lemma_elements_name(last);
        if names.len() == 1 {
            assert(seq![last] =~= names);
        } else {
            let before = names.drop_last();
            assert forall|i: int| 0 <= i < before.len() implies proper(#[trigger] before[i]) by {
                assert(before[i] == names[i]);
            }
            lemma_elements_joined(before);
            lemma_elements_concat(joined(before), last);
            assert(before + seq![last] =~= names);
        }
    }
}

proof fn lemma_resolved(from_root: bool, names: Seq<Seq<char>>)
    requires
        all_proper(names),
    ensures
        all_proper(resolved(from_root, names)),
        settled(from_root, resolved(from_root, names)),
    decreases names.len(),
{
    if names.len() > 0 {
        let before = names.drop_last();
        assert forall|i: int| 0 <= i < before.len() implies proper(#[trigger] before[i]) by {
            assert(before[i] == names[i]);
        }
        lemma_resolved(from_root, before);
        let r = resolved(from_root, before);
        assert(proper(names[names.len() - 1]));
        if names.last() == dot_dot() && !(r.len() > 0 && r.last() != dot_dot()) && !from_root {
            if r.len() > 0 {
                assert forall|j: int| 0 <= j < r.len() implies r[j] == dot_dot() by {
                    assert(r[r.len() - 1] == dot_dot());
                }
            }
        }
    }
}

proof fn lemma_settled_stays(from_root: bool, names: Seq<Seq<char>>)
    requires
        settled(from_root, names),
    ensures
        resolved(from_root, names) == names,
    decreases names.len(),
{
    if names.len() > 0 {
        let before = names.drop_last();
        assert(settled(from_root, before)) by {
            assert forall|i: int, j: int|
                0 <= j <= i < before.len() && before[i] == dot_dot() implies !from_root
                && #[trigger] before[j] == #[trigger] before[i] by {
                assert(before[i] == names[i] && before[j] == names[j]);
            }
        }
        lemma_settled_stays(from_root, before);
        assert(before.push(names.last()) =~= names);
        if names.last() == dot_dot() {
            assert(names[names.len() - 1] == dot_dot());
            if before.len() > 0 {
                assert(names[before.len() - 1] == names[names.len() - 1]);
            }
        }
    }
}

/// A joined path of proper names does not start with a slash.
proof fn lemma_joined_not_rooted(names: Seq<Seq<char>>)
    requires
        all_proper(names),
    ensures
        !rooted(joined(names)),
        names.len() > 0 ==> joined(names).len() > 0,
    decreases names.len(),
{
    if names.len() > 0 {
        assert(proper(names[0]));
        assert(names[0].contains(names[0][0]));
        if names.len() > 1 {
            let before = names.drop_last();
            assert forall|i: int| 0 <= i < before.len() implies proper(#[trigger] before[i]) by {
                assert(before[i] == names[i]);
            }
            lemma_joined_not_rooted(before);
        }
    }
}

/// Cleaning keeps whether a path is rooted, and a clean path stays as it is.
pub proof fn law_clean_path_stays(path: Seq<char>)
    ensures
        rooted(cleaned(path)) == rooted(path),
        cleaned(cleaned(path)) == cleaned(path),
{
    let names = resolved(rooted(path), elements(path));
    lemma_elements_proper(path);
    lemma_resolved(rooted(path), elements(path));
    lemma_joined_not_rooted(names);
    lemma_elements_joined(names);
    lemma_settled_stays(rooted(path), names);
    let clean = cleaned(path);
    if rooted(path) {
        assert(Seq::<char>::empty() + seq!['/'] + joined(names) =~= clean);
        lemma_elements_concat(Seq::empty(), joined(names));
        assert(elements(clean) =~= names);
    } else if names.len() == 0 {
        assert(!seq!['.'].contains('/'));
        lemma_first_slash_is(clean, 1);
        assert(clean.take(1) =~= dot());
        assert(elements(clean) =~= Seq::<Seq<char>>::empty());
    }
}

/// What stands before, between and after the slashes of `path`, whatever it is.
pub open spec fn pieces(path: Seq<char>) -> Seq<Seq<char>>
    decreases path.len(),
{
    let n = first_slash(path);
    if n < path.len() {
        seq![path.take(n as int)] + pieces(path.skip((n + 1) as int))
    } else {
        seq![path]
    }
}

proof fn lemma_pieces_concat(left: Seq<char>, right: Seq<char>)
    ensures
        pieces(left + seq!['/'] + right) == pieces(left) + pieces(right),
    decreases left.len(),
{
    let path = left + seq!['/'] + right;
    lemma_first_slash(left);
    let n = first_slash(left);
    lemma_first_slash_is(path, n);
    assert(path.take(n as int) =~= left.take(n as int));
    if n < left.len() {
        assert(path.skip((n + 1) as int) =~= left.skip((n + 1) as int) + seq!['/'] + right);
        lemma_pieces_concat(left.skip((n + 1) as int), right);
    } else {
        assert(path.skip((n + 1) as int) =~= right);
        assert(left.take(n as int) =~= left);
    }
    assert(pieces(path) =~= pieces(left) + pieces(right));
}

proof fn lemma_pieces_joined(names: Seq<Seq<char>>)
    requires
        all_proper(names),
        names.len() > 0,
    ensures
        pieces(joined(names)) == names,
    decreases names.len(),
{
    let last = names.last();
    assert(proper(names[names.len() - 1]));
    assert forall|i: int| 0 <= i < last.len() implies last[i] != '/' by {
        assert(last.contains(last[i]));
    }
    lemma_first_slash_is(last, last.len());
    assert(pieces(last) =~= seq![last]);
    if names.len() == 1 {
        assert(seq![last] =~= names);
    } else {
        let before = names.drop_last();
        assert forall|i: int| 0 <= i < before.len() implies proper(#[trigger] before[i]) by {
            assert(before[i] == names[i]);
        }
        lemma_pieces_joined(before);
        lemma_pieces_concat(joined(before), last);
        assert(before + seq![last] =~= names);
    }
}

/// A clean path that is rooted leads from the root to its end without a detour: nothing
/// between its slashes is `.` or `..`, nor empty unless the path is the root.
pub proof fn law_clean_path_has_no_dots(path: Seq<char>, i: int)
    requires
        rooted(path),
        0 < i < pieces(cleaned(path)).len(),
    ensures
        pieces(cleaned(path))[0].len() == 0,
        pieces(cleaned(path))[i] != dot(),
        pieces(cleaned(path))[i] != dot_dot(),
        pieces(cleaned(path))[i].len() > 0 || cleaned(path) == seq!['/'],
{
    let names = resolved(true, elements(path));
    lemma_elements_proper(path);
    lemma_resolved(true, elements(path));
    let clean = cleaned(path);
    assert(Seq::<char>::empty() + seq!['/'] + joined(names) =~= clean);
    lemma_pieces_concat(Seq::empty(), joined(names));
    assert(pieces(Seq::<char>::empty()) =~= seq![Seq::<char>::empty()]);
    if names.len() > 0 {
        lemma_pieces_joined(names);
        assert(pieces(clean)[i] == names[i - 1]);
        assert(proper(names[i - 1]));
    } else {
        assert(clean =~= seq!['/']);
        assert(pieces(clean)[i] =~= Seq::<char>::empty());
    }
}

proof fn lemma_elements_cleaned(path: Seq<char>)
    ensures
        elements(cleaned(path)) == resolved(rooted(path), elements(path)),
{
    let names = resolved(rooted(path), elements(path));
    lemma_elements_proper(path);
    lemma_resolved(rooted(path), elements(path));
    lemma_elements_joined(names);
    let clean = cleaned(path);
    if rooted(path) {
        assert(Seq::<char>::empty() + seq!['/'] + joined(names) =~= clean);
        lemma_elements_concat(Seq::empty(), joined(names));
        assert(elements(clean) =~= names);
    } else if names.len() == 0 {
        lemma_first_slash_is(clean, 1);
        assert(clean.take(1) =~= dot());
        assert(elements(clean) =~= names);
    }
}

proof fn lemma_resolved_without_parents(from_root: bool, names: Seq<Seq<char>>)
    requires
        !names.contains(dot_dot()),
    ensures
        resolved(from_root, names) == names,
    decreases names.len(),
{
    if names.len() > 0 {
        let before = names.drop_last();
        assert(names.contains(names.last()));
        assert(!before.contains(dot_dot())) by {
            assert forall|i: int| 0 <= i < before.len() implies before[i] != dot_dot() by {
                assert(names.contains(names[i]));
            }
        }
        lemma_resolved_without_parents(from_root, before);
        assert(before.push(names.last()) =~= names);
    }
}

/// Cleaning a path of any length that goes to no parent directory keeps all its names, in
/// their order.
pub proof fn law_cleaning_keeps_names(path: Seq<char>)
    requires
        !elements(path).contains(dot_dot()),
    ensures
        elements(cleaned(path)) == elements(path),
{
    lemma_elements_cleaned(path);
    lemma_resolved_without_parents(rooted(path), elements(path));
}

/// Going to a directory and back to its parent leads nowhere else.
pub proof fn law_parent_undoes_name(path: Seq<char>, name: Seq<char>)
    requires
        path.len() > 0,
        proper(name),
        name != dot_dot(),
    ensures
        cleaned(path + seq!['/'] + name + seq!['/'] + dot_dot()) == cleaned(path),
{
    let there = path + seq!['/'] + name;
    let back = there + seq!['/'] + dot_dot();
    lemma_elements_concat(path, name);
    lemma_elements_concat(there, dot_dot());
    lemma_elements_name(name);
    assert(!dot_dot().contains('/'));
    assert(proper(dot_dot())) by {
        assert(dot_dot().len() == 2);
        assert(dot().len() == 1);
    }
    lemma_elements_name(dot_dot());
    let names = elements(path);
    assert(elements(back) =~= names.push(name).push(dot_dot()));
    assert(names.push(name).push(dot_dot()).drop_last() =~= names.push(name));
    assert(names.push(name).drop_last() =~= names);
    assert(rooted(back) == rooted(path));
    let root = rooted(path);
    assert(resolved(root, names.push(name)) == resolved(root, names).push(name));
    assert(resolved(root, names).push(name).drop_last() =~= resolved(root, names));
}

/// A path seen from a directory begins with all the names of the directory and ends with
/// all those of the path.
pub proof fn law_path_is_seen_from_dir(dir: Seq<char>, path: Seq<char>)
    requires
        dir.len() > 0,
    ensures
        elements(under(dir, path)) == elements(dir) + elements(path),
        rooted(under(dir, path)) == rooted(dir),
        under(dir, path).take(dir.len() as int) == dir,
        under(dir, path).skip(under(dir, path).len() - path.len()) == path,
{
    assert(under(dir, path).take(dir.len() as int) =~= dir);
    assert(under(dir, path).skip(under(dir, path).len() - path.len()) =~= path);
    if dir.last() == '/' {
        let head = dir.drop_last();
        assert(under(dir, path) =~= head + seq!['/'] + path);
        assert(dir =~= head + seq!['/'] + Seq::<char>::empty());
        lemma_elements_concat(head, path);
        lemma_elements_concat(head, Seq::empty());
        assert(elements(dir) =~= elements(head));
    } else {
        lemma_elements_concat(dir, path);
    }
}

/// The absolute form of a path that goes to no parent directory leads through all the
/// names of the current directory, and then through all its own; one that is absolute
/// leads through its own alone.
pub proof fn law_absolute_path_keeps_names(dir: Seq<char>, path: Seq<char>)
    requires
        rooted(dir),
        !elements(dir).contains(dot_dot()),
        !elements(path).contains(dot_dot()),
    ensures
        elements(absolute(dir, path)) == (if rooted(path) {
            elements(path)
        } else {
            elements(dir) + elements(path)
        }),
{
    if rooted(path) {
        law_cleaning_keeps_names(path);
    } else {
        law_path_is_seen_from_dir(dir, path);
        let names = elements(dir) + elements(path);
        assert forall|i: int| 0 <= i < names.len() implies names[i] != dot_dot() by {
            if i < elements(dir).len() {
                assert(elements(dir).contains(elements(dir)[i]));
            } else {
                let j = i - elements(dir).len();
                assert(elements(path).contains(elements(path)[j]));
            }
        }
        law_cleaning_keeps_names(under(dir, path));
    }
}

/// The absolute form of a path is absolute, is its own absolute form, and holds no `.`
/// and no `..` between its slashes.
pub proof fn law_absolute_path_is_absolute(dir: Seq<char>, path: Seq<char>)
    requires
        rooted(path) || rooted(dir),
    ensures
        rooted(absolute(dir, path)),
        absolute(dir, absolute(dir, path)) == absolute(dir, path),
        !pieces(absolute(dir, path)).contains(dot()),
        !pieces(absolute(dir, path)).contains(dot_dot()),
{
    let full = if rooted(path) {
        path
    } else {
        under(dir, path)
    };
    law_clean_path_stays(path);
    law_clean_path_stays(full);
    let all = pieces(cleaned(full));
    assert forall|i: int| 0 <= i < all.len() implies all[i] != dot() && all[i] != dot_dot() by {
        if i > 0 {
            law_clean_path_has_no_dots(full, i);
        } else {
            lemma_first_slash_is(cleaned(full), 0);
            assert(all[0].len() == 0);
        }
    }
}

/// `path` as seen from the directory `dir`, made absolute and clean.
pub open spec fn absolute(dir: Seq<char>, path: Seq<char>) -> Seq<char> {
    if rooted(path) {
        cleaned(path)
    } else {
        cleaned(under(dir, path))
    }
}

/// Calls `path_clean::clean`. The claim is what its documentation says of paths whose
/// separator is `/`: repeated slashes and names of the current directory are
/// eliminated, and so is each parent directory with the name before it; those at the
/// beginning of a rooted path are dropped, those at the beginning of another one stay;
/// the empty path becomes the current directory.
#[verifier::external_body]
fn clean(path: &str) -> (r: String)
    ensures
        r@ == cleaned(path@),
{
    path_clean::clean(path).to_string_lossy().into_owned()
}

/// Whether `path` is absolute.
pub fn is_absolute(path: &str) -> (r: bool)
    ensures
        r == rooted(path@),
{
    path.unicode_len() > 0 && path.get_char(0) == '/'
}

/// `path` seen from the directory `dir`.
fn join(dir: &str, path: &str) -> (r: String)
    ensures
        r@ == under(dir@, path@),
{
    let len: usize = dir.unicode_len();
    let mut r: String = dir.to_owned();
    if len > 0 && dir.get_char(len - 1) != '/' {
        r.push('/');
    }
    r.append(path);
    assert(r@ =~= under(dir@, path@));
    r
}

/// The absolute form of `path`, without `.` and `..`. A path that is not absolute is
/// taken from the current directory; then it is an error if that is not known.
pub fn absolute_path<E>(path: &str, current_dir: Result<String, E>) -> (r: Result<String, E>)
    ensures
        match r {
            Ok(p) => {
                &&& rooted(path@) || current_dir is Ok
                &&& p@ == (if rooted(path@) {
                    cleaned(path@)
                } else {
                    absolute(current_dir->Ok_0@, path@)
                })
            },
            Err(e) => !rooted(path@) && current_dir == Err::<String, E>(e),
        },
{
    if is_absolute(path) {
        return Ok(clean(path));
    }
    match current_dir {
        Ok(dir) => {
            let full = join(dir.as_str(), path);
            Ok(clean(full.as_str()))
        },
        Err(e) => Err(e),
    }
}

} // verus!
