//! Paths as text, with `/` between their components.
//!
//! A path of the machine becomes such a text by [`slash`], and is given back by
//! [`native`]. A path that someone wrote down is placed below a directory by
//! [`place`], which goes by the rules of the system; the names that the library
//! makes itself are placed by [`join`], which is the same on every system.
use vstd::prelude::*;
use crate::order::{
    lemma_text_le_antisymmetric, lemma_text_le_total, lemma_text_le_transitive, text_le,
    text_not_after,
};
use crate::text::{
    chars_of, join2, join3, lemma_split_goes_on, lemma_split_nonempty, same_text, split,
    split_at_char, text_of, views,
};

verus! {

/// One component of a path.
pub enum Component {
    /// The leading `/`.
    Root,
    /// A leading `.`.
    Current,
    /// A `..`.
    Parent,
    /// Any other name.
    Name(String),
}

/// What a [`Component`] stands for.
pub enum ComponentView {
    Root,
    Current,
    Parent,
    Name(Seq<char>),
}

impl View for Component {
    type V = ComponentView;

    open spec fn view(&self) -> ComponentView {
        match self {
            Component::Root => ComponentView::Root,
            Component::Current => ComponentView::Current,
            Component::Parent => ComponentView::Parent,
            Component::Name(n) => ComponentView::Name(n@),
        }
    }
}

/// The components that the parts of a path stand for. Empty parts stand for
/// nothing, and so does a `.` anywhere but at the head of a relative path.
pub open spec fn part_components(parts: Seq<Seq<char>>, rooted: bool) -> Seq<ComponentView>
    decreases parts.len(),
{
    if parts.len() == 0 {
        Seq::empty()
    } else {
        let before = part_components(parts.drop_last(), rooted);
        let part = parts.last();
        if part.len() == 0 {
            before
        } else if part == "."@ {
            if parts.len() == 1 && !rooted {
                before.push(ComponentView::Current)
            } else {
                before
            }
        } else if part == ".."@ {
            before.push(ComponentView::Parent)
        } else {
            before.push(ComponentView::Name(part))
        }
    }
}

/// Whether a path starts at the root.
pub open spec fn is_rooted(path: Seq<char>) -> bool {
    path.len() > 0 && path[0] == '/'
}

/// The components of a path.
pub open spec fn components(path: Seq<char>) -> Seq<ComponentView> {
    let names = part_components(split(path, '/'), is_rooted(path));
    if is_rooted(path) {
        seq![ComponentView::Root] + names
    } else {
        names
    }
}

/// Takes a path apart.
pub fn components_of(path: &str) -> (r: Vec<Component>)
    ensures
        views(r@) == components(path@),
{
    let chars = chars_of(path);
    let rooted = chars.len() > 0 && chars[0] == '/';
    let parts = split_at_char(&chars, '/');
    let mut out: Vec<Component> = Vec::new();
    if rooted {
        out.push(Component::Root);
    }
    let ghost head = views(out@);
    let ghost all = views(parts@);
    assert(head + part_components(all.take(0), rooted) =~= head);
    for i in 0..parts.len()
        invariant
            all == views(parts@),
            views(out@) == head + part_components(all.take(i as int), rooted),
    {
        let ghost before = views(out@);
        let ghost names = part_components(all.take(i as int), rooted);
        assert(all.take(i + 1).drop_last() =~= all.take(i as int));
        assert(all.take(i + 1).last() == parts@[i as int]@);
        if parts[i].len() > 0 {
            let name = text_of(&parts[i]);
            if same_text(name.as_str(), ".") {
                if i == 0 && !rooted {
                    out.push(Component::Current);
                    assert(views(out@) =~= before.push(ComponentView::Current));
                    assert(head + names.push(ComponentView::Current) =~= views(out@));
                }
            } else if same_text(name.as_str(), "..") {
                out.push(Component::Parent);
                assert(views(out@) =~= before.push(ComponentView::Parent));
                assert(head + names.push(ComponentView::Parent) =~= views(out@));
            } else {
                out.push(Component::Name(name));
                assert(views(out@) =~= before.push(ComponentView::Name(name@)));
                assert(head + names.push(ComponentView::Name(name@)) =~= views(out@));
            }
        }
    }
    assert(all.take(parts.len() as int) =~= all);
    assert(rooted ==> head =~= seq![ComponentView::Root]);
    assert(!rooted ==> views(out@) =~= part_components(all, rooted));
    out
}

/// The place of a component's kind among the kinds.
pub open spec fn kind_rank(c: ComponentView) -> int {
    match c {
        ComponentView::Root => 0,
        ComponentView::Current => 1,
        ComponentView::Parent => 2,
        ComponentView::Name(_) => 3,
    }
}

/// Whether a component comes before another, or is the same.
pub open spec fn component_le(a: ComponentView, b: ComponentView) -> bool {
    match (a, b) {
        (ComponentView::Name(x), ComponentView::Name(y)) => text_le(x, y),
        _ => kind_rank(a) <= kind_rank(b),
    }
}

/// Whether a list of components comes before another, or is the same.
pub open spec fn components_le(a: Seq<ComponentView>, b: Seq<ComponentView>) -> bool
    decreases a.len(),
{
    if a.len() == 0 {
        true
    } else if b.len() == 0 {
        false
    } else if a[0] != b[0] {
        component_le(a[0], b[0])
    } else {
        components_le(a.drop_first(), b.drop_first())
    }
}

/// Whether a path comes before another, component by component.
pub open spec fn path_le(a: Seq<char>, b: Seq<char>) -> bool {
    components_le(components(a), components(b))
}

proof fn lemma_component_le_total(a: ComponentView, b: ComponentView)
    ensures
        component_le(a, b) || component_le(b, a),
{
    if let (ComponentView::Name(x), ComponentView::Name(y)) = (a, b) {
        lemma_text_le_total(x, y);
    }
}

proof fn lemma_component_le_antisymmetric(a: ComponentView, b: ComponentView)
    requires
        component_le(a, b),
        component_le(b, a),
    ensures
        a == b,
{
    if let (ComponentView::Name(x), ComponentView::Name(y)) = (a, b) {
        lemma_text_le_antisymmetric(x, y);
    }
}

proof fn lemma_component_le_transitive(a: ComponentView, b: ComponentView, c: ComponentView)
    requires
        component_le(a, b),
        component_le(b, c),
    ensures
        component_le(a, c),
{
    if let (ComponentView::Name(x), ComponentView::Name(y), ComponentView::Name(z)) = (a, b, c) {
        lemma_text_le_transitive(x, y, z);
    }
}

proof fn lemma_components_le_total(a: Seq<ComponentView>, b: Seq<ComponentView>)
    ensures
        components_le(a, b) || components_le(b, a),
    decreases a.len(),
{
    if a.len() > 0 && b.len() > 0 {
        if a[0] == b[0] {
            lemma_components_le_total(a.drop_first(), b.drop_first());
        } else {
            lemma_component_le_total(a[0], b[0]);
        }
    }
}

proof fn lemma_components_le_transitive(
    a: Seq<ComponentView>,
    b: Seq<ComponentView>,
    c: Seq<ComponentView>,
)
    requires
        components_le(a, b),
        components_le(b, c),
    ensures
        components_le(a, c),
    decreases a.len(),
{
    if a.len() > 0 && b.len() > 0 && c.len() > 0 {
        if a[0] == b[0] && b[0] == c[0] {
            lemma_components_le_transitive(a.drop_first(), b.drop_first(), c.drop_first());
        } else if a[0] != b[0] && b[0] != c[0] {
            lemma_component_le_transitive(a[0], b[0], c[0]);
            if a[0] == c[0] {
                lemma_component_le_antisymmetric(a[0], b[0]);
            }
        }
    }
}

/// Two paths tie exactly when they have the same components.
pub proof fn lemma_path_tie(a: Seq<char>, b: Seq<char>)
    requires
        path_le(a, b),
        path_le(b, a),
    ensures
        components(a) == components(b),
{
    lemma_components_tie(components(a), components(b));
}

proof fn lemma_components_tie(a: Seq<ComponentView>, b: Seq<ComponentView>)
    requires
        components_le(a, b),
        components_le(b, a),
    ensures
        a == b,
    decreases a.len(),
{
    if a.len() > 0 && b.len() > 0 {
        if a[0] != b[0] {
            lemma_component_le_antisymmetric(a[0], b[0]);
        }
        lemma_components_tie(a.drop_first(), b.drop_first());
        assert(a =~= seq![a[0]] + a.drop_first());
        assert(b =~= seq![b[0]] + b.drop_first());
    } else {
        assert(a =~= b);
    }
}

/// Of two paths, one comes before the other.
pub proof fn lemma_path_le_total(a: Seq<char>, b: Seq<char>)
    ensures
        path_le(a, b) || path_le(b, a),
{
    lemma_components_le_total(components(a), components(b));
}

/// The order of paths is transitive.
pub proof fn lemma_path_le_transitive(a: Seq<char>, b: Seq<char>, c: Seq<char>)
    requires
        path_le(a, b),
        path_le(b, c),
    ensures
        path_le(a, c),
{
    lemma_components_le_transitive(components(a), components(b), components(c));
}

fn rank_of(c: &Component) -> (r: u8)
    ensures
        r == kind_rank(c@),
{
    match c {
        Component::Root => 0,
        Component::Current => 1,
        Component::Parent => 2,
        Component::Name(_) => 3,
    }
}

fn component_not_after(a: &Component, b: &Component) -> (r: bool)
    ensures
        r == component_le(a@, b@),
{
    if let Component::Name(x) = a {
        if let Component::Name(y) = b {
            return text_not_after(x.as_str(), y.as_str());
        }
    }
    rank_of(a) <= rank_of(b)
}

/// Whether `a` comes before `b` in path order, or ties with it.
pub fn path_not_after(a: &str, b: &str) -> (r: bool)
    ensures
        r == path_le(a@, b@),
{
    let x = components_of(a);
    let y = components_of(b);
    let ghost p = views(x@);
    let ghost q = views(y@);
    let mut i: usize = 0;
    proof {
        assert(p.skip(0) =~= p);
        assert(q.skip(0) =~= q);
    }
    while i < x.len() && i < y.len()
        invariant
            p == views(x@),
            q == views(y@),
            p == components(a@),
            q == components(b@),
            i <= x.len(),
            i <= y.len(),
            components_le(p, q) == components_le(p.skip(i as int), q.skip(i as int)),
        decreases x.len() - i,
    {
        proof {
            assert(p.skip(i as int).drop_first() =~= p.skip(i + 1));
            assert(q.skip(i as int).drop_first() =~= q.skip(i + 1));
            assert(p[i as int] == x@[i as int]@ && q[i as int] == y@[i as int]@);
        }
        let ab = component_not_after(&x[i], &y[i]);
        let ba = component_not_after(&y[i], &x[i]);
        if ab && ba {
            proof {
                lemma_component_le_antisymmetric(p[i as int], q[i as int]);
            }
        } else {
            proof {
                lemma_component_le_total(p[i as int], q[i as int]);
            }
            return ab;
        }
        i = i + 1;
    }
    i == x.len()
}

/// A path below a directory. A rooted path stands for itself.
pub open spec fn joined(dir: Seq<char>, path: Seq<char>) -> Seq<char> {
    if is_rooted(path) || dir.len() == 0 {
        path
    } else if dir.last() == '/' {
        dir + path
    } else {
        dir + "/"@ + path
    }
}

/// Places a path below a directory.
pub fn join(dir: &str, path: &str) -> (r: String)
    ensures
        r@ == joined(dir@, path@),
{
    let d = chars_of(dir);
    let p = chars_of(path);
    if d.len() == 0 || (p.len() > 0 && p[0] == '/') {
        path.to_string()
    } else if d[d.len() - 1] == '/' {
        join2(dir, path)
    } else {
        join3(dir, "/", path)
    }
}

/// A system, by the way it writes paths.
#[derive(Debug, Clone, Copy, PartialEq, Eq, Structural)]
pub enum System {
    /// Components stand between `/`, and a path that starts with `/` is absolute.
    Unix,
    /// Components stand between `\` or `/`, and a path may start with a drive
    /// such as `C:`, or with a share such as `\\server\share`.
    Windows,
}

/// A text with one character in place of another.
pub open spec fn exchanged(s: Seq<char>, from: char, to: char) -> Seq<char> {
    s.map_values(
        |c: char|
            if c == from {
                to
            } else {
                c
            },
    )
}

fn exchange(s: &Vec<char>, from: char, to: char) -> (r: Vec<char>)
    ensures
        r@ == exchanged(s@, from, to),
{
    let mut r: Vec<char> = Vec::new();
    for i in 0..s.len()
        invariant
            r.len() == i,
            forall|j: int| 0 <= j < i ==> #[trigger] r@[j] == exchanged(s@, from, to)[j],
    {
        let c = s[i];
        r.push(
            if c == from {
                to
            } else {
                c
            },
        );
    }
    assert(r@ =~= exchanged(s@, from, to));
    r
}

/// Whether a path starts with a drive.
pub open spec fn has_drive(path: Seq<char>) -> bool {
    path.len() >= 2 && ('a' <= path[0] <= 'z' || 'A' <= path[0] <= 'Z') && path[1] == ':'
}

/// A path of a system, with `/` between its components. A drive alone stands
/// for the current directory on it.
pub open spec fn slashed(system: System, path: Seq<char>) -> Seq<char> {
    match system {
        System::Unix => path,
        System::Windows => {
            let p = exchanged(path, '\\', '/');
            if has_drive(p) && p.len() == 2 {
                p + "."@
            } else {
                p
            }
        },
    }
}

fn starts_with_drive(p: &Vec<char>) -> (r: bool)
    ensures
        r == has_drive(p@),
{
    if p.len() < 2 {
        return false;
    }
    let c = p[0];
    (('a' <= c && c <= 'z') || ('A' <= c && c <= 'Z')) && p[1] == ':'
}

/// Takes a path of a system, and writes it with `/` between its components.
pub fn slash(system: System, path: &str) -> (r: String)
    ensures
        r@ == slashed(system, path@),
{
    match system {
        System::Unix => path.to_string(),
        System::Windows => {
            let p = exchange(&chars_of(path), '\\', '/');
            let text = text_of(&p);
            if starts_with_drive(&p) && p.len() == 2 {
                join2(text.as_str(), ".")
            } else {
                text
            }
        },
    }
}

/// A path as the system writes it.
pub open spec fn as_native(system: System, path: Seq<char>) -> Seq<char> {
    match system {
        System::Unix => path,
        System::Windows => exchanged(path, '/', '\\'),
    }
}

/// Gives a path as the system writes it.
pub fn native(system: System, path: &str) -> (r: String)
    ensures
        r@ == as_native(system, path@),
{
    match system {
        System::Unix => path.to_string(),
        System::Windows => text_of(&exchange(&chars_of(path), '/', '\\')),
    }
}

/// How many characters there are from `i` on before the next `/`.
pub open spec fn name_len(p: Seq<char>, i: int) -> int
    decreases p.len() - i,
{
    if i < 0 || i >= p.len() || p[i] == '/' {
        0
    } else {
        1 + name_len(p, i + 1)
    }
}

/// How long the start of a Windows path is that names a drive, or a server with
/// one of its shares.
pub open spec fn prefix_len(p: Seq<char>) -> int {
    if has_drive(p) {
        2
    } else if p.len() >= 2 && p[0] == '/' && p[1] == '/' {
        let server = name_len(p, 2);
        let share = name_len(p, 3 + server);
        if server > 0 && share > 0 {
            3 + server + share
        } else {
            0
        }
    } else {
        0
    }
}

/// Whether a Windows path is taken to the letter: in it, `.` and `..` are names.
pub open spec fn is_verbatim(p: Seq<char>) -> bool {
    p.len() >= 4 && p[0] == '/' && p[1] == '/' && p[2] == '?' && p[3] == '/'
}

/// A path without the `/` at its end. The first `n` characters stay, and the one
/// behind them.
pub open spec fn without_slashes(p: Seq<char>, n: int) -> Seq<char>
    decreases p.len(),
{
    if p.len() == 0 || p.len() <= n + 1 || p.last() != '/' {
        p
    } else {
        without_slashes(p.drop_last(), n)
    }
}

/// A path without the name at its end. The first `n` characters stay, and the
/// one behind them.
pub open spec fn without_name(p: Seq<char>, n: int) -> Seq<char>
    decreases p.len(),
{
    if p.len() == 0 || p.len() <= n + 1 || p.last() == '/' {
        p
    } else {
        without_name(p.drop_last(), n)
    }
}

/// The directory above a path. The first `n` characters stay, and the one behind
/// them: the path's prefix and its root.
pub open spec fn above(p: Seq<char>, n: int) -> Seq<char> {
    without_slashes(without_name(without_slashes(p, n), n), n)
}

/// Where the parts of a path lead from a directory whose prefix has `n` characters.
pub open spec fn followed(dir: Seq<char>, parts: Seq<Seq<char>>, n: int) -> Seq<char>
    decreases parts.len(),
{
    if parts.len() == 0 {
        dir
    } else {
        let at = followed(dir, parts.drop_last(), n);
        let part = parts.last();
        if part.len() == 0 || part == "."@ {
            at
        } else if part == ".."@ {
            above(at, n)
        } else {
            joined(at, part)
        }
    }
}

/// A path of a system, placed below a directory. A path that names its own
/// drive or share stands for itself; one that starts at the root keeps that of
/// the directory. Below a directory that is taken to the letter, the path is
/// followed, since `.` and `..` would be names there.
pub open spec fn placed(system: System, dir: Seq<char>, path: Seq<char>) -> Seq<char> {
    let d = slashed(system, dir);
    let p = slashed(system, path);
    match system {
        System::Unix => joined(d, p),
        System::Windows => {
            let start = d.take(prefix_len(d));
            if prefix_len(p) > 0 {
                p
            } else if is_verbatim(d) && p.len() > 0 {
                followed(
                    if is_rooted(p) {
                        start + "/"@
                    } else {
                        d
                    },
                    split(p, '/'),
                    prefix_len(d),
                )
            } else if is_rooted(p) {
                start + p
            } else {
                joined(d, p)
            }
        },
    }
}

fn measure_name(p: &Vec<char>, i: usize) -> (r: usize)
    ensures
        r == name_len(p@, i as int),
        r > 0 ==> i + r <= p.len(),
{
    let mut k: usize = i;
    while k < p.len() && p[k] != '/'
        invariant
            i <= k,
            k == i || k <= p.len(),
            name_len(p@, i as int) == (k - i) + name_len(p@, k as int),
        decreases p.len() - k,
    {
        k = k + 1;
    }
    k - i
}

fn measure_prefix(p: &Vec<char>) -> (r: usize)
    ensures
        r == prefix_len(p@),
        r <= p.len(),
{
    if starts_with_drive(p) {
        2
    } else if p.len() >= 2 && p[0] == '/' && p[1] == '/' {
        let server = measure_name(p, 2);
        if server == 0 {
            return 0;
        }
        if 2 + server == p.len() {
            return 0;
        }
        let share = measure_name(p, 3 + server);
        if share > 0 {
            3 + server + share
        } else {
            0
        }
    } else {
        0
    }
}

fn drop_slashes(p: &mut Vec<char>, n: usize)
    ensures
        final(p)@ == without_slashes(old(p)@, n as int),
{
    let ghost first = p@;
    while p.len() > 0 && p.len() - 1 > n && p[p.len() - 1] == '/'
        invariant
            without_slashes(p@, n as int) == without_slashes(first, n as int),
        decreases p.len(),
    {
        let _ = p.pop();
    }
}

fn drop_name(p: &mut Vec<char>, n: usize)
    ensures
        final(p)@ == without_name(old(p)@, n as int),
{
    let ghost first = p@;
    while p.len() > 0 && p.len() - 1 > n && p[p.len() - 1] != '/'
        invariant
            without_name(p@, n as int) == without_name(first, n as int),
        decreases p.len(),
    {
        let _ = p.pop();
    }
}

fn follow(dir: String, parts: &Vec<Vec<char>>, n: usize) -> (r: String)
    ensures
        r@ == followed(dir@, views(parts@), n as int),
{
    let ghost all = views(parts@);
    let ghost first = dir@;
    let mut at = dir;
    assert(all.take(0).len() == 0);
    for i in 0..parts.len()
        invariant
            all == views(parts@),
            at@ == followed(first, all.take(i as int), n as int),
    {
        assert(all.take(i + 1).drop_last() =~= all.take(i as int));
        assert(all.take(i + 1).last() == parts@[i as int]@);
        let part = text_of(&parts[i]);
        if parts[i].len() == 0 || same_text(part.as_str(), ".") {
        } else if same_text(part.as_str(), "..") {
            let mut chars = chars_of(at.as_str());
            drop_slashes(&mut chars, n);
            drop_name(&mut chars, n);
            drop_slashes(&mut chars, n);
            at = text_of(&chars);
        } else {
            at = join(at.as_str(), part.as_str());
        }
    }
    assert(all.take(all.len() as int) =~= all);
    at
}

/// Places a path of a system below a directory, by the rules of the system.
pub fn place(system: System, dir: &str, path: &str) -> (r: String)
    ensures
        r@ == placed(system, dir@, path@),
{
    let d = slash(system, dir);
    let p = slash(system, path);
    match system {
        System::Unix => join(d.as_str(), p.as_str()),
        System::Windows => {
            let pc = chars_of(p.as_str());
            if measure_prefix(&pc) > 0 {
                return p;
            }
            let mut start = chars_of(d.as_str());
            let verbatim = start.len() >= 4 && start[0] == '/' && start[1] == '/' && start[2] == '?'
                && start[3] == '/';
            let n = measure_prefix(&start);
            start.truncate(n);
            assert(start@ =~= d@.take(prefix_len(d@)));
            let start = text_of(&start);
            let rooted = pc.len() > 0 && pc[0] == '/';
            if verbatim && pc.len() > 0 {
                let from = if rooted {
                    join2(start.as_str(), "/")
                } else {
                    d
                };
                follow(from, &split_at_char(&pc, '/'), n)
            } else if rooted {
                join2(start.as_str(), p.as_str())
            } else {
                join(d.as_str(), p.as_str())
            }
        },
    }
}

/// Whether a path is absolute on a system: it says where it starts, whatever
/// directory it is placed in.
pub open spec fn is_absolute(system: System, path: Seq<char>) -> bool {
    let p = slashed(system, path);
    match system {
        System::Unix => is_rooted(p),
        System::Windows => prefix_len(p) > 0 && (is_rooted(p) || is_rooted(p.skip(prefix_len(p)))),
    }
}

/// An absolute path stands for itself, in whatever directory it is placed.
pub proof fn law_absolute_paths_stay(system: System, dir: Seq<char>, path: Seq<char>)
    requires
        is_absolute(system, path),
    ensures
        placed(system, dir, path) == slashed(system, path),
{
}

proof fn lemma_no_split(s: Seq<char>, sep: char)
    requires
        !s.contains(sep),
    ensures
        split(s, sep) == seq![s],
    decreases s.len(),
{
    if s.len() > 0 {
        let t = s.drop_last();
        assert(s.contains(s.last()));
        assert forall|c: char| t.contains(c) implies s.contains(c) by {
            let i = choose|i: int| 0 <= i < t.len() && t[i] == c;
            assert(s[i] == c);
        }
        lemma_no_split(t, sep);
        assert(split(s, sep) =~= seq![s]) by {
            assert(t.push(s.last()) =~= s);
        }
    }
}

/// A plain name is placed in the same way on every system.
pub proof fn law_names_are_joined(system: System, dir: Seq<char>, name: Seq<char>)
    requires
        name.len() > 0,
        !name.contains('/'),
        !name.contains('\\'),
        !name.contains(':'),
        name != "."@,
        name != ".."@,
    ensures
        placed(system, dir, name) == joined(slashed(system, dir), name),
{
    assert(exchanged(name, '\\', '/') =~= name) by {
        assert forall|i: int| 0 <= i < name.len() implies name[i] != '\\' by {
            assert(name.contains(name[i]));
        }
    }
    assert(name.contains(name[0]));
    if name.len() > 1 {
        assert(name.contains(name[1]));
    }
    let d = slashed(system, dir);
    let n = prefix_len(d);
    lemma_no_split(name, '/');
    assert(seq![name].drop_last() =~= Seq::empty());
    assert(followed(d, seq![name].drop_last(), n) == d);
    assert(followed(d, seq![name], n) == joined(d, name));
}

/// What is taken in of a system and given back is the same path: only the
/// characters between its components may be other ones, and a drive alone ends
/// in a `.`.
pub proof fn law_native_gives_back(system: System, path: Seq<char>)
    ensures
        slashed(system, as_native(system, slashed(system, path))) == slashed(system, path),
        system == System::Unix ==> as_native(system, slashed(system, path)) == path,
{
    if system == System::Windows {
        let p = exchanged(path, '\\', '/');
        reveal_strlit(".");
        let s = slashed(system, path);
        assert(exchanged(exchanged(s, '/', '\\'), '\\', '/') =~= s);
    }
}

/// Whether the last component of a path is a name with the extension `md`.
pub open spec fn is_markdown(path: Seq<char>) -> bool {
    let cs = components(path);
    cs.len() > 0 && match cs.last() {
        ComponentView::Name(n) => n.len() > 3 && n.skip(n.len() - 3) == ".md"@,
        _ => false,
    }
}

/// Whether a file is taken for Markdown.
pub fn has_markdown_extension(path: &str) -> (r: bool)
    ensures
        r == is_markdown(path@),
{
    let cs = components_of(path);
    assert(cs.len() > 0 ==> views(cs@).last() == cs@.last()@);
    if cs.len() == 0 {
        return false;
    }
    match &cs[cs.len() - 1] {
        Component::Name(n) => {
            let chars = chars_of(n.as_str());
            proof {
                reveal_strlit(".md");
            }
            let k = chars.len();
            if k > 3 {
                assert(n@.skip(n@.len() - 3) =~= seq![n@[k - 3], n@[k - 2], n@[k - 1]]);
                assert(".md"@ =~= seq!['.', 'm', 'd']);
                let tail_is = chars[k - 3] == '.' && chars[k - 2] == 'm' && chars[k - 1] == 'd';
                assert(!tail_is ==> n@.skip(n@.len() - 3) != ".md"@) by {
                    if n@.skip(n@.len() - 3) == ".md"@ {
                        assert(n@.skip(n@.len() - 3)[0] == '.');
                        assert(n@.skip(n@.len() - 3)[1] == 'm');
                        assert(n@.skip(n@.len() - 3)[2] == 'd');
                    }
                }
                tail_is
            } else {
                false
            }
        },
        _ => false,
    }
}

proof fn lemma_parts_push(parts: Seq<Seq<char>>, name: Seq<char>, rooted: bool)
    requires
        name.len() > 0,
        name != "."@,
        name != ".."@,
    ensures
        part_components(parts.push(name), rooted) == part_components(parts, rooted).push(
            ComponentView::Name(name),
        ),
{
    assert(parts.push(name).drop_last() =~= parts);
}

/// A name that is placed below a directory is one more component of the path.
pub proof fn law_joining_adds_a_component(dir: Seq<char>, name: Seq<char>)
    requires
        name.len() > 0,
        !name.contains('/'),
        name != "."@,
        name != ".."@,
    ensures
        components(joined(dir, name)) == components(dir).push(ComponentView::Name(name)),
{
    reveal_strlit("/");
    assert(name.contains(name[0]));
    assert(!is_rooted(name));
    let path = joined(dir, name);
    let none = Seq::<char>::empty();
    lemma_split_nonempty(dir, '/');
    if dir.len() == 0 {
        assert(path == name);
        lemma_no_split(name, '/');
        let no_parts = Seq::<Seq<char>>::empty();
        assert(seq![name] =~= no_parts.push(name));
        lemma_parts_push(no_parts, name, false);
        assert(split(dir, '/') =~= no_parts.push(dir));
        assert(no_parts.push(dir).drop_last() =~= no_parts);
        assert(part_components(no_parts, false) =~= Seq::empty());
        assert(components(dir) =~= Seq::empty());
    } else {
        let rooted = is_rooted(dir);
        let head = if dir.last() == '/' {
            dir
        } else {
            dir + "/"@
        };
        assert(path =~= head + name);
        assert(is_rooted(path) == rooted) by {
            assert(path[0] == dir[0]);
        }
        lemma_split_nonempty(head, '/');
        lemma_split_goes_on(head, name, '/');
        let ps = split(head, '/');
        assert(ps.last().len() == 0) by {
            assert(head.last() == '/');
        }
        assert(none + name =~= name);
        assert(ps.last() + name =~= name);
        assert(split(path, '/') == ps.drop_last().push(name));
        lemma_parts_push(ps.drop_last(), name, rooted);
        assert(part_components(ps, rooted) == part_components(ps.drop_last(), rooted));
        if dir.last() == '/' {
            assert(part_components(split(dir, '/'), rooted) == part_components(
                ps.drop_last(),
                rooted,
            ));
        } else {
            assert(head.drop_last() =~= dir);
            assert(ps.drop_last() =~= split(dir, '/'));
        }
        assert(components(path) =~= components(dir).push(ComponentView::Name(name)));
    }
}

/// A file is taken for Markdown exactly where its name ends in `.md` and has
/// something in front of that.
pub proof fn law_markdown_is_told_by_the_name(dir: Seq<char>, name: Seq<char>)
    requires
        name.len() > 0,
        !name.contains('/'),
        name != "."@,
        name != ".."@,
    ensures
        is_markdown(joined(dir, name)) <==> name.len() > 3 && name[name.len() - 3] == '.'
            && name[name.len() - 2] == 'm' && name[name.len() - 1] == 'd',
{
    law_joining_adds_a_component(dir, name);
    reveal_strlit(".md");
    let n = name.len() as int;
    assert(components(joined(dir, name)).last() == ComponentView::Name(name));
    if n > 3 {
        let tail = name.skip(n - 3);
        assert(tail[0] == name[n - 3] && tail[1] == name[n - 2] && tail[2] == name[n - 1]);
        if name[n - 3] == '.' && name[n - 2] == 'm' && name[n - 1] == 'd' {
            assert(tail =~= ".md"@);
        }
    }
}

/// Paths compare at the first component in which they differ, and a path comes
/// before all that it is the start of. Of components of the same sort only names
/// differ, and these compare as texts do.
pub proof fn law_paths_compare_at_the_first_difference(a: Seq<char>, b: Seq<char>, i: int)
    requires
        0 <= i,
        i <= components(a).len(),
        i <= components(b).len(),
        forall|j: int| 0 <= j < i ==> #[trigger] components(a)[j] == components(b)[j],
        i < components(a).len() && i < components(b).len() ==> components(a)[i]
            != components(b)[i],
    ensures
        i == components(a).len() ==> path_le(a, b),
        i == components(b).len() && i < components(a).len() ==> !path_le(a, b),
        i < components(a).len() && i < components(b).len() ==> match (
            components(a)[i],
            components(b)[i],
        ) {
            (ComponentView::Name(x), ComponentView::Name(y)) => path_le(a, b) <==> text_le(x, y),
            (ComponentView::Root, _) => path_le(a, b),
            (_, ComponentView::Root) => !path_le(a, b),
            (ComponentView::Current, _) => path_le(a, b),
            (_, ComponentView::Current) => !path_le(a, b),
            (ComponentView::Parent, _) => path_le(a, b),
            (_, ComponentView::Parent) => !path_le(a, b),
        },
{
    lemma_components_compare(components(a), components(b), i);
}

proof fn lemma_components_compare(a: Seq<ComponentView>, b: Seq<ComponentView>, i: int)
    requires
        0 <= i,
        i <= a.len(),
        i <= b.len(),
        forall|j: int| 0 <= j < i ==> #[trigger] a[j] == b[j],
        i < a.len() && i < b.len() ==> a[i] != b[i],
    ensures
        i == a.len() ==> components_le(a, b),
        i == b.len() && i < a.len() ==> !components_le(a, b),
        i < a.len() && i < b.len() ==> (components_le(a, b) <==> component_le(a[i], b[i])),
    decreases i,
{
    if i > 0 {
        let c = a.drop_first();
        let d = b.drop_first();
        assert(a[0] == b[0]);
        assert forall|j: int| 0 <= j < i - 1 implies #[trigger] c[j] == d[j] by {
            assert(a[j + 1] == b[j + 1]);
        }
        if i < a.len() && i < b.len() {
            assert(c[i - 1] == a[i] && d[i - 1] == b[i]);
        }
        lemma_components_compare(c, d, i - 1);
    }
}

/// A name reaches from a place to the next `/`, or to the end of the path.
pub proof fn law_names_reach_to_the_next_slash(p: Seq<char>, i: int)
    requires
        0 <= i <= p.len(),
    ensures
        0 <= name_len(p, i) <= p.len() - i,
        forall|j: int| i <= j < i + name_len(p, i) ==> #[trigger] p[j] != '/',
        i + name_len(p, i) < p.len() ==> p[i + name_len(p, i)] == '/',
    decreases p.len() - i,
{
    if i < p.len() && p[i] != '/' {
        law_names_reach_to_the_next_slash(p, i + 1);
    }
}

/// Where a Windows path is placed below a directory, neither of them verbatim: a
/// path that names a drive or a share stands for itself, one that starts at the
/// root keeps the drive or the share of the directory, and any other is joined.
pub proof fn law_windows_paths_are_placed(dir: Seq<char>, path: Seq<char>)
    ensures
        ({
            let d = slashed(System::Windows, dir);
            let p = slashed(System::Windows, path);
            let r = placed(System::Windows, dir, path);
            &&& has_drive(p) ==> r == p
            &&& !is_verbatim(d) && prefix_len(p) == 0 && is_rooted(p) && has_drive(d) ==> r
                == d.take(2) + p
            &&& !is_verbatim(d) && prefix_len(p) == 0 && is_rooted(p) && prefix_len(d) == 0 ==> r
                == p
            &&& !is_verbatim(d) && prefix_len(p) == 0 && !is_rooted(p) ==> r == joined(d, p)
        }),
{
    let d = slashed(System::Windows, dir);
    let p = slashed(System::Windows, path);
    assert(d.take(0) + p =~= p);
}

/// A share is named by two slashes, a server, a slash and the share's name.
pub proof fn law_shares_are_named_with_their_server(
    server: Seq<char>,
    share: Seq<char>,
    rest: Seq<char>,
)
    requires
        server.len() > 0,
        share.len() > 0,
        !server.contains('/'),
        !share.contains('/'),
        rest.len() > 0 ==> rest[0] == '/',
    ensures
        prefix_len("//"@ + server + "/"@ + share + rest) == 3 + server.len() + share.len(),
{
    reveal_strlit("//");
    reveal_strlit("/");
    let p = "//"@ + server + "/"@ + share + rest;
    let a = server.len() as int;
    let b = share.len() as int;
    assert(p[0] == '/' && p[1] == '/');
    assert forall|j: int| 2 <= j < 2 + a implies #[trigger] p[j] != '/' by {
        assert(p[j] == server[j - 2]);
        assert(server.contains(server[j - 2]));
    }
    assert(p[2 + a] == '/');
    assert forall|j: int| 3 + a <= j < 3 + a + b implies #[trigger] p[j] != '/' by {
        assert(p[j] == share[j - 3 - a]);
        assert(share.contains(share[j - 3 - a]));
    }
    if rest.len() > 0 {
        assert(p[3 + a + b] == rest[0]);
    }
    lemma_name_len(p, 2, 2 + a);
    lemma_name_len(p, 3 + a, 3 + a + b);
}

proof fn lemma_name_len(p: Seq<char>, i: int, e: int)
    requires
        0 <= i <= e <= p.len(),
        forall|j: int| i <= j < e ==> #[trigger] p[j] != '/',
        e < p.len() ==> p[e] == '/',
    ensures
        name_len(p, i) == e - i,
    decreases e - i,
{
    if i < e {
        assert(p[i] != '/');
        lemma_name_len(p, i + 1, e);
    }
}

proof fn lemma_without_name(head: Seq<char>, name: Seq<char>, n: int)
    requires
        head.len() > n + 1,
        n >= 0,
        head.last() == '/',
        !name.contains('/'),
    ensures
        without_name(head + name, n) == head,
    decreases name.len(),
{
    let p = head + name;
    if name.len() > 0 {
        let t = name.drop_last();
        assert(name.contains(name.last()));
        assert(p.last() == name.last());
        assert(p.drop_last() =~= head + t);
        assert(!t.contains('/')) by {
            if t.contains('/') {
                let i = choose|i: int| 0 <= i < t.len() && t[i] == '/';
                assert(name[i] == '/');
            }
        }
        lemma_without_name(head, t, n);
    } else {
        assert(p =~= head);
    }
}

/// Two dots lead back to where a name led from.
pub proof fn law_two_dots_lead_back(dir: Seq<char>, name: Seq<char>, n: int)
    requires
        n >= 0,
        dir.len() > n,
        dir.last() != '/',
        name.len() > 0,
        !name.contains('/'),
        name != "."@,
        name != ".."@,
    ensures
        followed(dir, seq![name, ".."@], n) == dir,
        followed(dir, seq![name, "."@], n) == followed(dir, seq![name], n),
        followed(dir, seq![name], n) == dir + "/"@ + name,
{
    reveal_strlit("/");
    reveal_strlit(".");
    reveal_strlit("..");
    let one = seq![name];
    let none = Seq::<Seq<char>>::empty();
    assert(one.drop_last() =~= none);
    assert(followed(dir, none, n) == dir);
    assert(name.contains(name[0]));
    let at = dir + "/"@ + name;
    assert(followed(dir, one, n) == at);
    let back = seq![name, ".."@];
    assert(back.drop_last() =~= one);
    assert(back.last() == ".."@);
    let stay = seq![name, "."@];
    assert(stay.drop_last() =~= one);
    assert(stay.last() == "."@);
    assert("."@.len() == 1 && ".."@.len() == 2);
    let head = dir + "/"@;
    assert(name.contains(name.last()));
    assert(at.last() == name.last());
    assert(without_slashes(at, n) == at);
    assert(at =~= head + name);
    lemma_without_name(head, name, n);
    assert(head.drop_last() =~= dir);
    assert(without_slashes(dir, n) == dir);
    assert(without_slashes(head, n) == dir);
}

/// A path of Windows has its backslashes turned into slashes, and nothing else
/// changed; a drive alone is followed by a dot.
pub proof fn law_slashes_stand_for_backslashes(path: Seq<char>, i: int)
    requires
        0 <= i < path.len(),
    ensures
        slashed(System::Windows, path)[i] == (if path[i] == '\\' {
            '/'
        } else {
            path[i]
        }),
        slashed(System::Unix, path) == path,
        !(path.len() == 2 && path[1] == ':') ==> slashed(System::Windows, path).len() == path.len(),
        as_native(System::Windows, path).len() == path.len(),
        as_native(System::Windows, path)[i] == (if path[i] == '/' {
            '\\'
        } else {
            path[i]
        }),
        as_native(System::Unix, path) == path,
{
}

/// A path that starts at the root stands for itself below any directory, and so
/// does any path below no directory.
pub proof fn law_rooted_paths_are_not_joined(dir: Seq<char>, path: Seq<char>)
    ensures
        path.len() > 0 && path[0] == '/' ==> joined(dir, path) == path,
        dir.len() == 0 ==> joined(dir, path) == path,
{
}

} // verus!
