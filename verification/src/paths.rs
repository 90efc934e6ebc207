//! Paths as texts, with `/` between their parts.

use crate::text::{
    chars_of, lemma_split_nonempty, owned, same_text, split, split_text, string_of_range,
};
use vstd::prelude::*;

verus! {

/// Whether a path starts at the root.
pub open spec fn absolute(path: Seq<char>) -> bool {
    path.len() > 0 && path[0] == '/'
}

/// A path below a directory; a path that starts at the root stands for itself.
pub open spec fn joined(dir: Seq<char>, path: Seq<char>) -> Seq<char> {
    if absolute(path) {
        path
    } else if dir.len() == 0 || dir.last() == '/' {
        dir + path
    } else {
        dir.push('/') + path
    }
}

/// A path without what says nothing at its end: slashes, but for the root, and
/// single dots behind a slash.
pub open spec fn trimmed(path: Seq<char>) -> Seq<char>
    decreases path.len(),
{
    if path.len() > 1 && path.last() == '/' {
        trimmed(path.drop_last())
    } else if path.len() > 1 && path.last() == '.' && path[path.len() - 2] == '/' {
        trimmed(path.drop_last())
    } else {
        path
    }
}

/// Where the last part of a path begins: behind its last slash.
pub open spec fn tail_start(path: Seq<char>) -> nat
    decreases path.len(),
{
    if path.len() == 0 || path.last() == '/' {
        path.len()
    } else {
        tail_start(path.drop_last())
    }
}

/// The directory that holds a path. The root and the empty path have none.
pub open spec fn parent(path: Seq<char>) -> Option<Seq<char>> {
    let t = trimmed(path);
    if t.len() == 0 || t == seq!['/'] {
        None
    } else {
        Some(trimmed(t.take(tail_start(t) as int)))
    }
}

/// The last part of a path, unless that is the root or made of dots.
pub open spec fn file_name(path: Seq<char>) -> Option<Seq<char>> {
    let t = trimmed(path);
    let tail = t.skip(tail_start(t) as int);
    if tail.len() == 0 || tail == seq!['.'] || tail == seq!['.', '.'] {
        None
    } else {
        Some(tail)
    }
}

/// The name under which a file is shown.
pub open spec fn display_name(path: Seq<char>) -> Seq<char> {
    match file_name(path) {
        Some(name) => name,
        None => path,
    }
}

/// The directory that the paths inside a file start from.
pub open spec fn base_dir(path: Seq<char>) -> Seq<char> {
    match parent(path) {
        Some(dir) => dir,
        None => "."@,
    }
}

/// A path one directory up, or the path itself where there is none.
pub open spec fn popped(path: Seq<char>) -> Seq<char> {
    match parent(path) {
        Some(dir) => dir,
        None => path,
    }
}

/// The first `n` parts of a split path, without those that say nothing: empty
/// ones, and single dots but for one at the very start.
pub open spec fn named_parts(parts: Seq<Seq<char>>, n: nat) -> Seq<Seq<char>>
    decreases n,
{
    if n == 0 {
        Seq::empty()
    } else {
        let before = named_parts(parts, (n - 1) as nat);
        let part = parts[n - 1];
        if part.len() == 0 || (part == seq!['.'] && n > 1) {
            before
        } else {
            before.push(part)
        }
    }
}

/// The parts of a path that say something.
pub open spec fn components(path: Seq<char>) -> Seq<Seq<char>> {
    named_parts(split(path, '/'), split(path, '/').len())
}

/// Whether two paths are the same, part by part.
pub open spec fn same(a: Seq<char>, b: Seq<char>) -> bool {
    absolute(a) == absolute(b) && components(a) == components(b)
}

/// The length of the first `n` characters of a path, trimmed.
fn trimmed_to(path: &Vec<char>, n: usize) -> (r: usize)
    requires
        n <= path@.len(),
    ensures
        r <= n,
        path@.take(r as int) == trimmed(path@.take(n as int)),
{
    let mut len = n;
    while len > 1 && (path[len - 1] == '/' || (path[len - 1] == '.' && path[len - 2] == '/'))
        invariant
            len <= n <= path@.len(),
            trimmed(path@.take(len as int)) == trimmed(path@.take(n as int)),
        decreases len,
    {
        assert(path@.take(len as int).drop_last() =~= path@.take(len - 1));
        len -= 1;
    }
    len
}

/// Where the last part of the first `n` characters begins.
fn tail_of(path: &Vec<char>, n: usize) -> (r: usize)
    requires
        n <= path@.len(),
    ensures
        r <= n,
        r == tail_start(path@.take(n as int)),
{
    let mut at = n;
    while at > 0 && path[at - 1] != '/'
        invariant
            at <= n <= path@.len(),
            tail_start(path@.take(at as int)) == tail_start(path@.take(n as int)),
        decreases at,
    {
        assert(path@.take(at as int).drop_last() =~= path@.take(at - 1));
        at -= 1;
    }
    at
}

/// Whether a path starts at the root.
pub fn is_absolute(path: &str) -> (r: bool)
    ensures
        r == absolute(path@),
{
    let v = chars_of(path);
    v.len() > 0 && v[0] == '/'
}

/// A path below a directory.
pub fn join_path(dir: &str, path: &str) -> (r: String)
    ensures
        r@ == joined(dir@, path@),
{
    if is_absolute(path) {
        return owned(path);
    }
    let v = chars_of(dir);
    let mut s = owned(dir);
    if v.len() > 0 && v[v.len() - 1] != '/' {
        s.push('/');
    }
    s.append(path);
    s
}

/// The directory that holds a path.
pub fn parent_of(path: &str) -> (r: Option<String>)
    ensures
        match r {
            Some(dir) => parent(path@) == Some(dir@),
            None => parent(path@) is None,
        },
{
    let v = chars_of(path);
    assert(v@.take(v@.len() as int) =~= v@);
    let n = trimmed_to(&v, v.len());
    assert(v@.take(n as int).len() == n);
    if n == 0 {
        return None;
    }
    if n == 1 && v[0] == '/' {
        assert(v@.take(n as int) =~= seq!['/']);
        return None;
    }
    assert(v@.take(n as int) != seq!['/']) by {
        assert(v@.take(n as int)[0] == v@[0]);
    }
    let at = tail_of(&v, n);
    let len = trimmed_to(&v, at);
    assert(v@.take(n as int).take(at as int) =~= v@.take(at as int));
    assert(v@.subrange(0, len as int) =~= v@.take(len as int));
    Some(string_of_range(&v, 0, len))
}

/// The last part of a path.
pub fn name_of(path: &str) -> (r: Option<String>)
    ensures
        match r {
            Some(name) => file_name(path@) == Some(name@),
            None => file_name(path@) is None,
        },
{
    let v = chars_of(path);
    assert(v@.take(v@.len() as int) =~= v@);
    let n = trimmed_to(&v, v.len());
    let at = tail_of(&v, n);
    let name = string_of_range(&v, at, n);
    assert(name@ =~= v@.take(n as int).skip(at as int));
    if at == n {
        return None;
    }
    if n - at == 1 && v[at] == '.' {
        assert(name@ =~= seq!['.']);
        return None;
    }
    assert(name@ != seq!['.']) by {
        assert(name@[0] == v@[at as int]);
    }
    if n - at == 2 && v[at] == '.' && v[at + 1] == '.' {
        assert(name@ =~= seq!['.', '.']);
        return None;
    }
    assert(name@ != seq!['.', '.']) by {
        assert(name@[0] == v@[at as int]);
        if n - at == 2 {
            assert(name@[1] == v@[at + 1]);
        }
    }
    Some(name)
}

/// The name under which a file is shown.
pub fn display_name_of(path: &str) -> (r: String)
    ensures
        r@ == display_name(path@),
{
    match name_of(path) {
        Some(name) => name,
        None => owned(path),
    }
}

/// The directory that the paths inside a file start from.
pub fn base_dir_of(path: &str) -> (r: String)
    ensures
        r@ == base_dir(path@),
{
    match parent_of(path) {
        Some(dir) => dir,
        None => owned("."),
    }
}

/// A path one directory up.
pub fn popped_path(path: &str) -> (r: String)
    ensures
        r@ == popped(path@),
{
    match parent_of(path) {
        Some(dir) => dir,
        None => owned(path),
    }
}

/// The parts of a path that say something.
fn components_of(path: &str) -> (r: Vec<String>)
    ensures
        r.deep_view() == components(path@),
{
    let v = chars_of(path);
    let parts = split_text(&v, '/');
    let ghost all = split(path@, '/');
    let mut out: Vec<String> = Vec::new();
    let mut i: usize = 0;
    assert(out.deep_view() =~= named_parts(all, 0));
    while i < parts.len()
        invariant
            i <= parts@.len(),
            parts.deep_view() == all,
            out.deep_view() == named_parts(all, i as nat),
        decreases parts@.len() - i,
    {
        let ghost before = out.deep_view();
        assert(parts.deep_view()[i as int] == parts[i as int]@);
        let part = parts[i].clone();
        proof {
            reveal_strlit("");
            reveal_strlit(".");
            assert("."@ =~= seq!['.']);
            assert(part@.len() == 0 ==> part@ =~= ""@);
        }
        if !same_text(part.as_str(), "") && !(i > 0 && same_text(part.as_str(), ".")) {
            out.push(part);
            assert(out.deep_view() =~= before.push(all[i as int]));
        }
        i += 1;
    }
    assert(parts.deep_view().len() == parts@.len());
    out
}

/// Whether two paths are the same, part by part.
pub fn same_path(a: &str, b: &str) -> (r: bool)
    ensures
        r == same(a@, b@),
{
    if is_absolute(a) != is_absolute(b) {
        return false;
    }
    let p = components_of(a);
    let q = components_of(b);
    let ghost left = components(a@);
    let ghost right = components(b@);
    assert(p.deep_view().len() == p@.len());
    assert(q.deep_view().len() == q@.len());
    if p.len() != q.len() {
        return false;
    }
    let mut i: usize = 0;
    while i < p.len()
        invariant
            i <= p@.len(),
            p@.len() == q@.len(),
            p.deep_view() == left,
            q.deep_view() == right,
            left == components(a@),
            right == components(b@),
            forall|j: int| 0 <= j < i ==> #[trigger] left[j] == right[j],
        decreases p@.len() - i,
    {
        assert(p.deep_view()[i as int] == p[i as int]@);
        assert(q.deep_view()[i as int] == q[i as int]@);
        if !same_text(p[i].as_str(), q[i].as_str()) {
            return false;
        }
        i += 1;
    }
    assert(p.deep_view().len() == p@.len());
    assert(q.deep_view().len() == q@.len());
    assert(left =~= right);
    true
}

/// Going up undoes going down: the parent of a path below a directory is that
/// directory, but for what says nothing at its end.
pub proof fn parent_undoes_join(dir: Seq<char>, name: Seq<char>)
    requires
        name.len() > 0,
        !name.contains('/'),
        name != seq!['.'],
    ensures
        parent(joined(dir, name)) == Some(trimmed(dir)),
{
    let path = joined(dir, name);
    let at = path.len() - name.len();
    let last = path.last();
    assert(last == name[name.len() - 1]);
    assert(forall|i: int| 0 <= i < name.len() ==> #[trigger] path[at + i] == name[i]);
    assert forall|i: int| 0 <= i < name.len() implies #[trigger] name[i] != '/' by {
        assert(name.contains(name[i]));
    }
    assert(name[0] != '/');
    if name.len() == 1 {
        assert(name =~= seq![name[0]]);
    } else {
        assert(path[path.len() - 2] == name[name.len() - 2]);
    }
    assert(trimmed(path) == path);
    lemma_tail_at(path, at as nat);
    assert(path != seq!['/']) by {
        assert(path.last() != '/');
    }
    let head = path.take(at as int);
    if dir.len() == 0 || dir.last() == '/' {
        assert(head =~= dir);
    } else {
        assert(head =~= dir.push('/'));
        assert(head.drop_last() =~= dir);
        assert(trimmed(head) == trimmed(dir));
    }
}

/// Where the last part of a path begins.
pub proof fn lemma_tail_at(path: Seq<char>, at: nat)
    requires
        at <= path.len(),
        at > 0 ==> path[at - 1] == '/',
        forall|i: int| at <= i < path.len() ==> #[trigger] path[i] != '/',
    ensures
        tail_start(path) == at,
    decreases path.len(),
{
    if path.len() > at {
        assert(path[path.len() - 1] != '/');
        lemma_tail_at(path.drop_last(), at);
    }
}

/// Whether a path is a directory or lies below it, part by part.
pub open spec fn below(path: Seq<char>, dir: Seq<char>) -> bool {
    absolute(path) == absolute(dir) && components(dir).is_prefix_of(components(path))
}

proof fn lemma_named_parts_take(parts: Seq<Seq<char>>, more: Seq<Seq<char>>, n: nat)
    requires
        n <= parts.len(),
        parts.len() <= more.len(),
        forall|i: int| 0 <= i < n ==> #[trigger] more[i] == parts[i],
    ensures
        named_parts(more, n) == named_parts(parts, n),
    decreases n,
{
    if n > 0 {
        lemma_named_parts_take(parts, more, (n - 1) as nat);
    }
}

/// The parts of a path that is split into some parts and one more.
pub proof fn lemma_components_push(path: Seq<char>, parts: Seq<Seq<char>>, part: Seq<char>)
    requires
        split(path, '/') == parts.push(part),
    ensures
        components(path) == if part.len() == 0 || (part == seq!['.'] && parts.len() > 0) {
            named_parts(parts, parts.len())
        } else {
            named_parts(parts, parts.len()).push(part)
        },
{
    lemma_named_parts_take(parts, parts.push(part), parts.len());
}

/// What says nothing at the end of a path is no part of it.
pub proof fn lemma_trimmed_components(path: Seq<char>)
    ensures
        components(trimmed(path)) == components(path),
        absolute(trimmed(path)) == absolute(path),
    decreases path.len(),
{
    let front = path.drop_last();
    if path.len() > 1 && path.last() == '/' {
        lemma_trimmed_components(front);
        lemma_components_push(path, split(front, '/'), Seq::empty());
    } else if path.len() > 1 && path.last() == '.' && path[path.len() - 2] == '/' {
        lemma_trimmed_components(front);
        let parts = split(front.drop_last(), '/');
        lemma_split_nonempty(front.drop_last(), '/');
        assert(split(front, '/') == parts.push(Seq::empty()));
        assert(Seq::empty().push('.') =~= seq!['.']);
        assert(split(path, '/') =~= parts.push(seq!['.']));
        lemma_components_push(front, parts, Seq::empty());
        lemma_components_push(path, parts, seq!['.']);
    }
}

proof fn lemma_split_tail(head: Seq<char>, tail: Seq<char>)
    requires
        forall|i: int| 0 <= i < tail.len() ==> #[trigger] tail[i] != '/',
    ensures
        split(head + tail, '/') == split(head, '/').drop_last().push(
            split(head, '/').last() + tail,
        ),
    decreases tail.len(),
{
    lemma_split_nonempty(head, '/');
    if tail.len() == 0 {
        assert(head + tail =~= head);
        assert(split(head, '/').last() + tail =~= split(head, '/').last());
        assert(split(head, '/').drop_last().push(split(head, '/').last()) =~= split(head, '/'));
    } else {
        let front = tail.drop_last();
        assert forall|i: int| 0 <= i < front.len() implies #[trigger] front[i] != '/' by {
            assert(front[i] == tail[i]);
        }
        lemma_split_tail(head, front);
        assert((head + tail).drop_last() =~= head + front);
        assert(tail[tail.len() - 1] != '/');
        let last = split(head, '/').last();
        assert((last + front).push(tail.last()) =~= last + tail);
        assert(split(head + tail, '/') =~= split(head, '/').drop_last().push(last + tail));
    }
}

/// The parts of a path whose last slash stands right before `tail`.
pub proof fn lemma_components_tail(head: Seq<char>, tail: Seq<char>)
    requires
        head.len() == 0 || head.last() == '/',
        forall|i: int| 0 <= i < tail.len() ==> #[trigger] tail[i] != '/',
    ensures
        components(head + tail) == if tail.len() == 0 || (tail == seq!['.'] && head.len() > 0) {
            components(head)
        } else {
            components(head).push(tail)
        },
{
    let parts = split(head, '/').drop_last();
    lemma_split_nonempty(head, '/');
    if head.len() > 0 {
        lemma_split_nonempty(head.drop_last(), '/');
        assert(parts =~= split(head.drop_last(), '/'));
    } else {
        assert(parts =~= Seq::empty());
    }
    assert(split(head, '/') =~= parts.push(Seq::empty()));
    lemma_split_tail(head, tail);
    assert(Seq::empty() + tail =~= tail);
    lemma_components_push(head, parts, Seq::empty());
    lemma_components_push(head + tail, parts, tail);
}

proof fn lemma_tail_start(path: Seq<char>)
    ensures
        tail_start(path) <= path.len(),
        tail_start(path) > 0 ==> path[tail_start(path) - 1] == '/',
        forall|i: int| tail_start(path) <= i < path.len() ==> #[trigger] path[i] != '/',
    decreases path.len(),
{
    if path.len() > 0 && path.last() != '/' {
        let front = path.drop_last();
        lemma_tail_start(front);
        assert forall|i: int| tail_start(path) <= i < path.len() implies #[trigger] path[i]
            != '/' by {
            if i < front.len() {
                assert(front[i] == path[i]);
            }
        }
    }
}

proof fn lemma_trimmed_ends(path: Seq<char>)
    ensures
        ({
            let t = trimmed(path);
            t.len() > 1 ==> t.last() != '/' && !(t.last() == '.' && t[t.len() - 2] == '/')
        }),
    decreases path.len(),
{
    if path.len() > 1 && (path.last() == '/' || (path.last() == '.' && path[path.len() - 2]
        == '/')) {
        lemma_trimmed_ends(path.drop_last());
    }
}

/// Going up takes the last part of a path away, and nothing else.
pub proof fn parent_drops_the_last_part(path: Seq<char>)
    ensures
        match parent(path) {
            Some(dir) => {
                &&& components(path).len() > 0
                &&& components(dir) == components(path).drop_last()
                &&& absolute(dir) == absolute(path)
            },
            None => components(path).len() == 0,
        },
{
    let t = trimmed(path);
    lemma_trimmed_components(path);
    lemma_trimmed_ends(path);
    let none = Seq::<char>::empty();
    assert(split(none, '/') =~= Seq::empty().push(none));
    lemma_components_push(none, Seq::empty(), none);
    if t.len() == 0 {
        assert(t =~= none);
    } else if t == seq!['/'] {
        assert(t.drop_last() =~= none);
        lemma_components_push(t, split(none, '/'), none);
    } else {
        lemma_tail_start(t);
        let at = tail_start(t) as int;
        let head = t.take(at);
        let tail = t.skip(at);
        assert(head + tail =~= t);
        assert forall|i: int| 0 <= i < tail.len() implies #[trigger] tail[i] != '/' by {
            assert(tail[i] == t[at + i]);
        }
        if t.len() == 1 {
            assert(t =~= seq![t[0]]);
        }
        assert(tail.len() > 0);
        if tail == seq!['.'] && at > 0 {
            assert(tail[0] == t[at]);
            assert(t[at - 1] == '/');
        }
        lemma_components_tail(head, tail);
        lemma_trimmed_components(head);
        assert(components(head).push(tail).drop_last() =~= components(head));
    }
}

/// Going down stays below: a path below a directory begins with its parts.
pub proof fn joined_paths_are_below(dir: Seq<char>, name: Seq<char>)
    requires
        name.len() > 0,
        !name.contains('/'),
    ensures
        below(joined(dir, name), dir),
{
    assert forall|i: int| 0 <= i < name.len() implies #[trigger] name[i] != '/' by {
        assert(name.contains(name[i]));
    }
    assert(name[0] != '/');
    if dir.len() == 0 || dir.last() == '/' {
        lemma_components_tail(dir, name);
    } else {
        lemma_components_tail(dir.push('/'), name);
        assert(dir.push('/').drop_last() =~= dir);
        lemma_components_push(dir.push('/'), split(dir, '/'), Seq::empty());
    }
    if dir.len() > 0 {
        assert(joined(dir, name)[0] == dir[0]);
    }
}

/// What is below a directory is below all directories that hold it.
pub proof fn below_is_transitive(path: Seq<char>, dir: Seq<char>, start: Seq<char>)
    requires
        below(path, dir),
        below(dir, start),
    ensures
        below(path, start),
{
    let p = components(path);
    let d = components(dir);
    let s = components(start);
    assert(s =~= p.take(s.len() as int)) by {
        assert(s =~= d.take(s.len() as int));
        assert(d =~= p.take(d.len() as int));
    }
}

/// Going up from a path below a directory stays below it, unless the path is that
/// directory.
pub proof fn going_up_stays_below(path: Seq<char>, start: Seq<char>)
    requires
        below(path, start),
        !same(path, start),
    ensures
        below(popped(path), start),
{
    let p = components(path);
    let s = components(start);
    parent_drops_the_last_part(path);
    assert(s =~= p.take(s.len() as int));
    if s.len() == p.len() {
        assert(s =~= p);
    }
    assert(s =~= p.drop_last().take(s.len() as int));
}

} // verus!
