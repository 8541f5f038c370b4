//! A model of slash-separated paths: how a path text splits into components,
//! which component is the file name, and where its stem and extension lie.
//!
//! Paths are texts; `/` is the only separator. A component is the root (a
//! leading `/`), the current directory (a leading `.` on a relative path), the
//! parent directory (`..`) or a normal name. Empty pieces and `.` pieces
//! elsewhere are not components.
use vstd::prelude::*;

verus! {

/// The pieces of `s` between separators, in order; a text without separator
/// is one piece, and the empty text is one empty piece.
pub open spec fn split_pieces(s: Seq<char>) -> Seq<Seq<char>>
    decreases s.len(),
{
    if s.len() == 0 {
        seq![Seq::<char>::empty()]
    } else {
        let p = split_pieces(s.drop_last());
        if s.last() == '/' {
            p.push(Seq::<char>::empty())
        } else {
            p.update(p.len() - 1, p.last().push(s.last()))
        }
    }
}

/// `p` is the one-character piece `.`.
pub open spec fn is_dot(p: Seq<char>) -> bool {
    p == seq!['.']
}

/// `p` is the piece `..`.
pub open spec fn is_dot_dot(p: Seq<char>) -> bool {
    p == seq!['.', '.']
}

/// A piece that stands as a component: neither empty nor `.`.
pub open spec fn is_kept_piece(p: Seq<char>) -> bool {
    p.len() > 0 && !is_dot(p)
}

/// The pieces of `ps` that stand as components, in order.
pub open spec fn kept_pieces(ps: Seq<Seq<char>>) -> Seq<Seq<char>>
    decreases ps.len(),
{
    if ps.len() == 0 {
        ps
    } else {
        let sub = kept_pieces(ps.drop_last());
        if is_kept_piece(ps.last()) {
            sub.push(ps.last())
        } else {
            sub
        }
    }
}

/// One component of a path.
pub enum PathComponent {
    Root,
    Current,
    Parent,
    Normal(Seq<char>),
}

/// The component that a kept piece stands for.
pub open spec fn piece_component(p: Seq<char>) -> PathComponent {
    if is_dot_dot(p) {
        PathComponent::Parent
    } else {
        PathComponent::Normal(p)
    }
}

/// `s` starts at the root.
pub open spec fn has_root(s: Seq<char>) -> bool {
    s.len() > 0 && s[0] == '/'
}

/// `s` is `.` or starts with `./`: its first component is the current directory.
pub open spec fn leads_with_current(s: Seq<char>) -> bool {
    s.len() > 0 && s[0] == '.' && (s.len() == 1 || s[1] == '/')
}

/// The components of the path `s`, in order.
pub open spec fn components(s: Seq<char>) -> Seq<PathComponent> {
    (if has_root(s) {
        seq![PathComponent::Root]
    } else {
        Seq::<PathComponent>::empty()
    }) + (if leads_with_current(s) {
        seq![PathComponent::Current]
    } else {
        Seq::<PathComponent>::empty()
    }) + kept_pieces(split_pieces(s)).map_values(|p: Seq<char>| piece_component(p))
}

/// The final component of `s` when it is a normal name; none for an empty
/// path, the root, `.`, or a path that ends in `..`.
pub open spec fn file_name(s: Seq<char>) -> Option<Seq<char>> {
    let c = components(s);
    if c.len() > 0 {
        match c.last() {
            PathComponent::Normal(n) => Some(n),
            _ => None,
        }
    } else {
        None
    }
}

/// Index of the last `.` in `n`.
pub open spec fn last_dot(n: Seq<char>) -> Option<int>
    decreases n.len(),
{
    if n.len() == 0 {
        None
    } else if n.last() == '.' {
        Some(n.len() - 1)
    } else {
        last_dot(n.drop_last())
    }
}

/// The stem of a file name: the text before its last `.`, or the whole name
/// when it has no `.` other than a leading one.
pub open spec fn stem_of(n: Seq<char>) -> Seq<char> {
    match last_dot(n) {
        Some(i) => if i > 0 {
            n.take(i)
        } else {
            n
        },
        None => n,
    }
}

/// The extension of a file name: the text after its last `.`, when that `.`
/// is not its first character.
pub open spec fn extension_of(n: Seq<char>) -> Option<Seq<char>> {
    match last_dot(n) {
        Some(i) => if i > 0 {
            Some(n.skip(i + 1))
        } else {
            None
        },
        None => None,
    }
}

/// The stem of the file name of `s`.
pub open spec fn file_stem(s: Seq<char>) -> Option<Seq<char>> {
    match file_name(s) {
        Some(n) => Some(stem_of(n)),
        None => None,
    }
}

/// The extension of the file name of `s`.
pub open spec fn extension(s: Seq<char>) -> Option<Seq<char>> {
    match file_name(s) {
        Some(n) => extension_of(n),
        None => None,
    }
}

/// `base` with the relative name `name` appended as a new last component:
/// a separator goes between them unless `base` is empty or already ends in one.
pub open spec fn push_name(base: Seq<char>, name: Seq<char>) -> Seq<char> {
    if base.len() == 0 || base.last() == '/' {
        base + name
    } else {
        base + seq!['/'] + name
    }
}

/// `n` can be a normal component: non-empty, no separator, neither `.` nor `..`.
pub open spec fn is_plain_name(n: Seq<char>) -> bool {
    &&& n.len() > 0
    &&& !is_dot(n)
    &&& !is_dot_dot(n)
    &&& forall|i: int| 0 <= i < n.len() ==> n[i] != '/'
}

pub proof fn lemma_split_nonempty(s: Seq<char>)
    ensures
        split_pieces(s).len() >= 1,
    decreases s.len(),
{
    if s.len() > 0 {
        lemma_split_nonempty(s.drop_last());
    }
}

/// Appending separator-free text extends the last piece.
pub proof fn lemma_split_extend(a: Seq<char>, n: Seq<char>)
    requires
        forall|i: int| 0 <= i < n.len() ==> n[i] != '/',
    ensures
        split_pieces(a + n) == split_pieces(a).update(
            split_pieces(a).len() - 1,
            split_pieces(a).last() + n,
        ),
    decreases n.len(),
{
    lemma_split_nonempty(a);
    if n.len() == 0 {
        assert(a + n =~= a);
        assert(split_pieces(a).last() + n =~= split_pieces(a).last());
        assert(split_pieces(a).update(split_pieces(a).len() - 1, split_pieces(a).last() + n)
            =~= split_pieces(a));
    } else {
        let m = n.drop_last();
        assert forall|i: int| 0 <= i < m.len() implies m[i] != '/' by {
            assert(m[i] == n[i]);
        }
        lemma_split_extend(a, m);
        assert((a + n).drop_last() =~= a + m);
        assert((a + n).last() == n.last());
        assert(n.last() == n[n.len() - 1]);
        assert(n.last() != '/');
        lemma_split_nonempty(a + m);
        let pa = split_pieces(a);
        let pm = split_pieces(a + m);
        assert(pm == pa.update(pa.len() - 1, pa.last() + m));
        assert(pm.len() == pa.len());
        assert(pm.last() == pa.last() + m);
        assert(split_pieces(a + n) == pm.update(pm.len() - 1, pm.last().push(n.last())));
        assert(pa.last() + m + seq![n.last()] =~= pa.last() + n);
        assert((pa.last() + m).push(n.last()) =~= pa.last() + n);
        assert(split_pieces(a + n) =~= split_pieces(a).update(
            split_pieces(a).len() - 1,
            split_pieces(a).last() + n,
        ));
    }
}

/// The pieces after appending a separator and then a separator-free name.
pub proof fn lemma_split_push_name(a: Seq<char>, n: Seq<char>)
    requires
        forall|i: int| 0 <= i < n.len() ==> n[i] != '/',
    ensures
        split_pieces(a + seq!['/'] + n) == split_pieces(a).push(n),
{
    let b = a + seq!['/'];
    assert(b.drop_last() =~= a);
    assert(split_pieces(b) == split_pieces(a).push(Seq::<char>::empty()));
    lemma_split_extend(b, n);
    assert(Seq::<char>::empty() + n =~= n);
    assert(split_pieces(a).push(Seq::<char>::empty()).update(split_pieces(a).len() as int, n)
        =~= split_pieces(a).push(n));
}

/// The kept pieces after a plain name is pushed.
pub proof fn lemma_kept_push_name(base: Seq<char>, name: Seq<char>)
    requires
        is_plain_name(name),
    ensures
        kept_pieces(split_pieces(push_name(base, name))) == kept_pieces(split_pieces(base)).push(
            name,
        ),
{
    lemma_split_nonempty(base);
    if base.len() == 0 {
        assert(base + name =~= name);
        assert(split_pieces(Seq::<char>::empty()) == seq![Seq::<char>::empty()]);
        lemma_split_extend(Seq::<char>::empty(), name);
        assert(Seq::<char>::empty() + name =~= name);
        assert(split_pieces(name) =~= seq![name]);
        assert(seq![name].drop_last() =~= Seq::<Seq<char>>::empty());
        assert(kept_pieces(Seq::<Seq<char>>::empty()) == Seq::<Seq<char>>::empty());
        assert(kept_pieces(seq![Seq::<char>::empty()]) =~= Seq::<Seq<char>>::empty()) by {
            assert(seq![Seq::<char>::empty()].drop_last() =~= Seq::<Seq<char>>::empty());
            assert(!is_kept_piece(seq![Seq::<char>::empty()].last()));
        }
        assert(seq![name].last() == name);
        assert(kept_pieces(seq![name]) =~= seq![name]);
    } else if base.last() == '/' {
        let p = split_pieces(base);
        assert(base.drop_last() + seq!['/'] =~= base);
        lemma_split_push_name(base.drop_last(), Seq::<char>::empty());
        assert(base.drop_last() + seq!['/'] + Seq::<char>::empty() =~= base);
        assert(p == split_pieces(base.drop_last()).push(Seq::<char>::empty()));
        lemma_split_extend(base, name);
        assert(Seq::<char>::empty() + name =~= name);
        let q = split_pieces(base + name);
        assert(q =~= split_pieces(base.drop_last()).push(name));
        assert(q.drop_last() =~= split_pieces(base.drop_last()));
        assert(p.drop_last() =~= split_pieces(base.drop_last()));
    } else {
        lemma_split_push_name(base, name);
        assert(split_pieces(base).push(name).drop_last() =~= split_pieces(base));
    }
}

/// Pushing a plain name adds it as the last component and keeps the others.
pub proof fn lemma_components_push_name(base: Seq<char>, name: Seq<char>)
    requires
        is_plain_name(name),
    ensures
        components(push_name(base, name)) == components(base).push(PathComponent::Normal(name)),
        file_name(push_name(base, name)) == Some(name),
{
    let r = push_name(base, name);
    lemma_kept_push_name(base, name);
    let kb = kept_pieces(split_pieces(base));
    assert(kb.push(name).map_values(|p: Seq<char>| piece_component(p)) =~= kb.map_values(
        |p: Seq<char>| piece_component(p),
    ).push(PathComponent::Normal(name)));
    if base.len() == 0 {
        assert(r =~= name);
        assert(!has_root(r));
        assert(!leads_with_current(r)) by {
            if name.len() > 1 {
                assert(name[1] != '/');
            } else {
                assert(name =~= seq![name[0]]);
            }
        }
        assert(!has_root(base));
        assert(!leads_with_current(base));
    } else {
        assert(r[0] == base[0]);
        assert(has_root(r) == has_root(base));
        if base.len() == 1 {
            if base[0] == '.' {
                assert(r[1] == '/');
            }
        } else {
            assert(r[1] == base[1]);
        }
        assert(leads_with_current(r) == leads_with_current(base));
    }
    assert(components(r) =~= components(base).push(PathComponent::Normal(name)));
}

/// Where the last `.` of a name ending in `.` and a plain suffix lies.
pub proof fn lemma_last_dot_suffix(stem: Seq<char>, ext: Seq<char>)
    requires
        forall|i: int| 0 <= i < ext.len() ==> ext[i] != '.',
    ensures
        last_dot(stem + seq!['.'] + ext) == Some(stem.len() as int),
    decreases ext.len(),
{
    let n = stem + seq!['.'] + ext;
    if ext.len() == 0 {
        assert(n.last() == '.');
    } else {
        let e = ext.drop_last();
        assert forall|i: int| 0 <= i < e.len() implies e[i] != '.' by {
            assert(e[i] == ext[i]);
        }
        lemma_last_dot_suffix(stem, e);
        assert(n.drop_last() =~= stem + seq!['.'] + e);
        assert(n.last() == ext.last());
    }
}

/// What decides whether a piece is kept, read off its length and chars.
proof fn lemma_kept_piece_check(p: Seq<char>)
    ensures
        is_kept_piece(p) == (p.len() >= 2 || (p.len() == 1 && p[0] != '.')),
{
    if p.len() == 1 {
        if p[0] == '.' {
            assert(p =~= seq!['.']);
        } else {
            assert(p[0] != seq!['.'][0]);
        }
    } else {
        assert(seq!['.'].len() == 1);
    }
}

/// What decides whether a piece is `..`, read off its length and chars.
proof fn lemma_dot_dot_check(p: Seq<char>)
    ensures
        is_dot_dot(p) == (p.len() == 2 && p[0] == '.' && p[1] == '.'),
{
    assert(seq!['.', '.'].len() == 2);
    if p.len() == 2 && p[0] == '.' && p[1] == '.' {
        assert(p =~= seq!['.', '.']);
    } else if p.len() == 2 {
        assert(p[0] != seq!['.', '.'][0] || p[1] != seq!['.', '.'][1]);
    }
}

/// The index `last_dot` finds lies inside the name and holds a `.`.
pub proof fn lemma_last_dot_range(n: Seq<char>)
    ensures
        match last_dot(n) {
            Some(i) => 0 <= i < n.len() && n[i] == '.',
            None => forall|j: int| 0 <= j < n.len() ==> n[j] != '.',
        },
    decreases n.len(),
{
    if n.len() > 0 {
        lemma_last_dot_range(n.drop_last());
        if n.last() != '.' {
            assert forall|j: int| 0 <= j < n.len() - 1 implies n[j] == n.drop_last()[j] by {}
        }
    }
}

/// No piece holds a separator.
pub proof fn lemma_split_no_sep(s: Seq<char>)
    ensures
        forall|k: int, i: int|
            0 <= k < split_pieces(s).len() && 0 <= i < split_pieces(s)[k].len()
                ==> split_pieces(s)[k][i] != '/',
    decreases s.len(),
{
    if s.len() > 0 {
        lemma_split_no_sep(s.drop_last());
        lemma_split_nonempty(s.drop_last());
        let p = split_pieces(s.drop_last());
        if s.last() != '/' {
            let q = split_pieces(s);
            assert forall|k: int, i: int| 0 <= k < q.len() && 0 <= i < q[k].len() implies q[k][i]
                != '/' by {
                if k == p.len() - 1 {
                    assert(q[k] == p.last().push(s.last()));
                    if i < p.last().len() {
                        assert(q[k][i] == p[k][i]);
                    }
                } else {
                    assert(q[k] == p[k]);
                }
            }
        }
    }
}

/// Kept pieces of separator-free pieces are kept and separator-free.
pub proof fn lemma_kept_pieces_plain(ps: Seq<Seq<char>>)
    requires
        forall|k: int, i: int| 0 <= k < ps.len() && 0 <= i < ps[k].len() ==> ps[k][i] != '/',
    ensures
        forall|k: int|
            0 <= k < kept_pieces(ps).len() ==> is_kept_piece(#[trigger] kept_pieces(ps)[k])
                && forall|i: int| 0 <= i < kept_pieces(ps)[k].len() ==> kept_pieces(ps)[k][i] != '/',
    decreases ps.len(),
{
    if ps.len() > 0 {
        let d = ps.drop_last();
        assert forall|k: int, i: int| 0 <= k < d.len() && 0 <= i < d[k].len() implies d[k][i]
            != '/' by {
            assert(d[k] == ps[k]);
        }
        lemma_kept_pieces_plain(d);
        assert(ps.last() == ps[ps.len() - 1]);
        let kd = kept_pieces(d);
        let kp = kept_pieces(ps);
        assert forall|k: int| 0 <= k < kp.len() implies is_kept_piece(#[trigger] kp[k])
            && forall|i: int| 0 <= i < kp[k].len() ==> kp[k][i] != '/' by {
            if k < kd.len() {
                assert(kp[k] == kd[k]);
            } else {
                assert(kp[k] == ps.last());
                assert forall|i: int| 0 <= i < kp[k].len() implies kp[k][i] != '/' by {
                    assert(kp[k][i] == ps[ps.len() - 1][i]);
                }
            }
        }
    }
}

/// A file name is a plain name.
pub proof fn lemma_file_name_plain(s: Seq<char>)
    ensures
        file_name(s) matches Some(n) ==> is_plain_name(n),
{
    lemma_file_name_from_kept(s);
    lemma_split_no_sep(s);
    lemma_kept_pieces_plain(split_pieces(s));
    let k = kept_pieces(split_pieces(s));
    if k.len() > 0 {
        assert(k.last() == k[k.len() - 1]);
    }
}

/// The stem of a plain name is non-empty and separator-free.
pub proof fn lemma_stem_plain(n: Seq<char>)
    requires
        is_plain_name(n),
    ensures
        stem_of(n).len() > 0,
        forall|i: int| 0 <= i < stem_of(n).len() ==> stem_of(n)[i] != '/',
{
    lemma_last_dot_range(n);
    match last_dot(n) {
        Some(i) => if i > 0 {
            assert forall|j: int| 0 <= j < stem_of(n).len() implies stem_of(n)[j] != '/' by {
                assert(stem_of(n)[j] == n[j]);
            }
        },
        None => {},
    }
}

/// The char range of the last kept piece of `s`, if it has one.
fn last_kept_piece(s: &str) -> (r: Option<(usize, usize)>)
    ensures
        match r {
            Some((a, b)) => {
                &&& a <= b <= s@.len()
                &&& kept_pieces(split_pieces(s@)).len() > 0
                &&& kept_pieces(split_pieces(s@)).last() == s@.subrange(a as int, b as int)
            },
            None => kept_pieces(split_pieces(s@)).len() == 0,
        },
{
    let ranges = kept_piece_ranges(s);
    let n = ranges.len();
    if n == 0 {
        None
    } else {
        Some(ranges[n - 1])
    }
}

/// `file_name` read off the last kept piece.
pub proof fn lemma_file_name_from_kept(s: Seq<char>)
    ensures
        file_name(s) == (if kept_pieces(split_pieces(s)).len() > 0 && !is_dot_dot(
            kept_pieces(split_pieces(s)).last(),
        ) {
            Some(kept_pieces(split_pieces(s)).last())
        } else {
            None::<Seq<char>>
        }),
{
    let k = kept_pieces(split_pieces(s));
    let m = k.map_values(|p: Seq<char>| piece_component(p));
    let c = components(s);
    if k.len() > 0 {
        assert(c.last() == m.last());
        assert(m.last() == piece_component(k.last()));
    } else {
        if c.len() > 0 {
            assert(c.last() == PathComponent::Root || c.last() == PathComponent::Current);
        }
    }
}

/// The char range of the file name of `path`.
pub fn file_name_range(path: &str) -> (r: Option<(usize, usize)>)
    ensures
        match r {
            Some((a, b)) => a <= b <= path@.len() && file_name(path@) == Some(
                path@.subrange(a as int, b as int),
            ),
            None => file_name(path@) is None,
        },
{
    proof {
        lemma_file_name_from_kept(path@);
    }
    match last_kept_piece(path) {
        Some((a, b)) => {
            let dot_dot = b - a == 2 && path.get_char(a) == '.' && path.get_char(a + 1) == '.';
            proof {
                let n = path@.subrange(a as int, b as int);
                lemma_dot_dot_check(n);
            }
            if dot_dot {
                None
            } else {
                Some((a, b))
            }
        },
        None => None,
    }
}

/// Index, relative to `a`, of the last `.` in the chars `a..b` of `s`.
fn last_dot_in(s: &str, a: usize, b: usize) -> (r: Option<usize>)
    requires
        a <= b <= s@.len(),
    ensures
        match r {
            Some(i) => last_dot(s@.subrange(a as int, b as int)) == Some(i as int),
            None => last_dot(s@.subrange(a as int, b as int)) is None,
        },
{
    let mut j: usize = b;
    while j > a
        invariant
            a <= j <= b <= s@.len(),
            last_dot(s@.subrange(a as int, b as int)) == last_dot(s@.subrange(a as int, j as int)),
        decreases j,
    {
        let c = s.get_char(j - 1);
        proof {
            let n = s@.subrange(a as int, j as int);
            assert(n.last() == c);
            assert(n.drop_last() =~= s@.subrange(a as int, j - 1));
        }
        if c == '.' {
            return Some(j - 1 - a);
        }
        j = j - 1;
    }
    None
}

/// The file name of `path`, as `Path::file_name` gives it.
pub fn file_name_of(path: &str) -> (r: Option<String>)
    ensures
        match r {
            Some(n) => file_name(path@) == Some(n@),
            None => file_name(path@) is None,
        },
{
    match file_name_range(path) {
        Some((a, b)) => Some(path.substring_char(a, b).to_owned()),
        None => None,
    }
}

/// The stem of the file name of `path`, as `Path::file_stem` gives it.
pub fn file_stem_of(path: &str) -> (r: Option<String>)
    ensures
        match r {
            Some(n) => file_stem(path@) == Some(n@),
            None => file_stem(path@) is None,
        },
{
    match file_name_range(path) {
        Some((a, b)) => {
            proof {
                lemma_last_dot_range(path@.subrange(a as int, b as int));
            }
            let end = match last_dot_in(path, a, b) {
                Some(i) => if i > 0 {
                    a + i
                } else {
                    b
                },
                None => b,
            };
            proof {
                let n = path@.subrange(a as int, b as int);
                assert(path@.subrange(a as int, end as int) =~= stem_of(n));
            }
            Some(path.substring_char(a, end).to_owned())
        },
        None => None,
    }
}

/// The char range of the extension of `path`, as `Path::extension` finds it.
pub fn extension_range(path: &str) -> (r: Option<(usize, usize)>)
    ensures
        match r {
            Some((a, b)) => a <= b <= path@.len() && extension(path@) == Some(
                path@.subrange(a as int, b as int),
            ),
            None => extension(path@) is None,
        },
{
    match file_name_range(path) {
        Some((a, b)) => {
            proof {
                lemma_last_dot_range(path@.subrange(a as int, b as int));
            }
            match last_dot_in(path, a, b) {
                Some(i) => if i > 0 {
                    proof {
                        let n = path@.subrange(a as int, b as int);
                        assert(n.skip(i as int + 1) =~= path@.subrange(a + i + 1, b as int));
                    }
                    Some((a + i + 1, b))
                } else {
                    None
                },
                None => None,
            }
        },
        None => None,
    }
}

/// `base` with the relative name `name` appended as its new last component,
/// as `PathBuf::push` does it.
pub fn push_name_exec(base: &str, name: &str) -> (r: String)
    ensures
        r@ == push_name(base@, name@),
{
    let len = base.unicode_len();
    let mut r = base.to_owned();
    if len > 0 && base.get_char(len - 1) != '/' {
        r.append("/");
        proof {
            reveal_strlit("/");
        }
    }
    r.append(name);
    r
}

/// A component of a path, as a value.
pub enum Component {
    Root,
    Current,
    Parent,
    Normal(String),
}

impl View for Component {
    type V = PathComponent;

    open spec fn view(&self) -> PathComponent {
        match self {
            Component::Root => PathComponent::Root,
            Component::Current => PathComponent::Current,
            Component::Parent => PathComponent::Parent,
            Component::Normal(n) => PathComponent::Normal(n@),
        }
    }
}

/// The component models of a list of components.
pub open spec fn component_views(v: Seq<Component>) -> Seq<PathComponent> {
    v.map_values(|c: Component| c@)
}

/// `ranges` picks, in order, the chars of `s` that make up `pieces`.
pub open spec fn ranges_spell(s: Seq<char>, ranges: Seq<(usize, usize)>, pieces: Seq<Seq<char>>) -> bool {
    &&& ranges.len() == pieces.len()
    &&& forall|j: int|
        0 <= j < ranges.len() ==> (#[trigger] ranges[j]).0 <= ranges[j].1 <= s.len()
            && s.subrange(ranges[j].0 as int, ranges[j].1 as int) == pieces[j]
}

/// The char ranges of the kept pieces of `s`, in order.
fn kept_piece_ranges(s: &str) -> (r: Vec<(usize, usize)>)
    ensures
        ranges_spell(s@, r@, kept_pieces(split_pieces(s@))),
{
    let len = s.unicode_len();
    let mut start: usize = 0;
    let mut ranges: Vec<(usize, usize)> = Vec::new();
    let mut i: usize = 0;
    proof {
        assert(s@.take(0) =~= Seq::<char>::empty());
        assert(split_pieces(Seq::<char>::empty()).drop_last() =~= Seq::<Seq<char>>::empty());
        assert(s@.subrange(0, 0) =~= Seq::<char>::empty());
    }
    while i < len
        invariant
            len == s@.len(),
            start <= i <= len,
            split_pieces(s@.take(i as int)).last() == s@.subrange(start as int, i as int),
            ranges_spell(s@, ranges@, kept_pieces(split_pieces(s@.take(i as int)).drop_last())),
        decreases len - i,
    {
        let c = s.get_char(i);
        let ghost t = s@.take(i as int);
        let ghost t1 = s@.take(i as int + 1);
        proof {
            assert(t1.drop_last() =~= t);
            assert(t1.last() == c);
            lemma_split_nonempty(t);
        }
        if c == '/' {
            let plen = i - start;
            let kept = if plen == 0 {
                false
            } else if plen == 1 {
                s.get_char(start) != '.'
            } else {
                true
            };
            let ghost old_ranges = ranges@;
            proof {
                let cur = s@.subrange(start as int, i as int);
                assert(split_pieces(t1) == split_pieces(t).push(Seq::<char>::empty()));
                assert(split_pieces(t1).drop_last() =~= split_pieces(t));
                assert(split_pieces(t).last() == cur);
                lemma_kept_piece_check(cur);
            }
            if kept {
                ranges.push((start, i));
                proof {
                    let k = kept_pieces(split_pieces(t1).drop_last());
                    assert(k == kept_pieces(split_pieces(t).drop_last()).push(
                        s@.subrange(start as int, i as int),
                    ));
                    assert forall|j: int| 0 <= j < ranges@.len() implies (
                    #[trigger] ranges@[j]).0 <= ranges@[j].1 <= s@.len() && s@.subrange(
                        ranges@[j].0 as int,
                        ranges@[j].1 as int,
                    ) == k[j] by {
                        if j < old_ranges.len() {
                            assert(ranges@[j] == old_ranges[j]);
                        }
                    }
                }
            }
            start = i + 1;
            proof {
                assert(split_pieces(t1).last() =~= Seq::<char>::empty());
                assert(s@.subrange(start as int, i as int + 1) =~= Seq::<char>::empty());
            }
        } else {
            proof {
                let p = split_pieces(t);
                assert(split_pieces(t1) == p.update(p.len() - 1, p.last().push(c)));
                assert(split_pieces(t1).drop_last() =~= p.drop_last());
                assert(s@.subrange(start as int, i as int + 1) =~= s@.subrange(
                    start as int,
                    i as int,
                ).push(c));
            }
        }
        i = i + 1;
    }
    proof {
        assert(s@.take(len as int) =~= s@);
        lemma_split_nonempty(s@);
    }
    let plen = len - start;
    let kept = if plen == 0 {
        false
    } else if plen == 1 {
        s.get_char(start) != '.'
    } else {
        true
    };
    proof {
        lemma_kept_piece_check(s@.subrange(start as int, len as int));
    }
    let ghost old_ranges = ranges@;
    if kept {
        ranges.push((start, len));
        proof {
            let k = kept_pieces(split_pieces(s@));
            assert forall|j: int| 0 <= j < ranges@.len() implies (#[trigger] ranges@[j]).0
                <= ranges@[j].1 <= s@.len() && s@.subrange(ranges@[j].0 as int, ranges@[j].1 as int)
                == k[j] by {
                if j < old_ranges.len() {
                    assert(ranges@[j] == old_ranges[j]);
                }
            }
        }
    }
    ranges
}

/// The components of `path`, as `Path::components` yields them.
pub fn path_components(path: &str) -> (r: Vec<Component>)
    ensures
        component_views(r@) == components(path@),
{
    let len = path.unicode_len();
    let mut r: Vec<Component> = Vec::new();
    let root = len > 0 && path.get_char(0) == '/';
    if root {
        r.push(Component::Root);
    }
    let current = len > 0 && path.get_char(0) == '.' && (len == 1 || path.get_char(1) == '/');
    if current {
        r.push(Component::Current);
    }
    let ghost lead = component_views(r@);
    proof {
        assert(lead =~= (if has_root(path@) {
            seq![PathComponent::Root]
        } else {
            Seq::<PathComponent>::empty()
        }) + (if leads_with_current(path@) {
            seq![PathComponent::Current]
        } else {
            Seq::<PathComponent>::empty()
        }));
    }
    let ranges = kept_piece_ranges(path);
    let ghost k = kept_pieces(split_pieces(path@));
    let n = ranges.len();
    let mut j: usize = 0;
    while j < n
        invariant
            n == ranges@.len(),
            j <= n,
            ranges_spell(path@, ranges@, k),
            component_views(r@) == lead + k.take(j as int).map_values(
                |p: Seq<char>| piece_component(p),
            ),
        decreases n - j,
    {
        let (a, b) = ranges[j];
        proof {
            assert(ranges@[j as int] == (a, b));
            lemma_dot_dot_check(path@.subrange(a as int, b as int));
        }
        let dot_dot = b - a == 2 && path.get_char(a) == '.' && path.get_char(a + 1) == '.';
        let ghost before = r@;
        if dot_dot {
            r.push(Component::Parent);
        } else {
            r.push(Component::Normal(path.substring_char(a, b).to_owned()));
        }
        proof {
            assert(r@ == before.push(r@.last()));
            assert(component_views(r@) =~= component_views(before).push(piece_component(k[j as int])));
            assert(k.take(j as int + 1) =~= k.take(j as int).push(k[j as int]));
            assert(k.take(j as int + 1).map_values(|p: Seq<char>| piece_component(p)) =~= k.take(
                j as int,
            ).map_values(|p: Seq<char>| piece_component(p)).push(piece_component(k[j as int])));
        }
        j = j + 1;
    }
    proof {
        assert(k.take(n as int) =~= k);
    }
    r
}

/// A normal component of a path has a plain name.
pub proof fn lemma_normal_components_plain(s: Seq<char>)
    ensures
        forall|j: int|
            0 <= j < components(s).len() ==> (#[trigger] components(s)[j] matches PathComponent::Normal(n)
                ==> is_plain_name(n)),
{
    lemma_split_no_sep(s);
    lemma_kept_pieces_plain(split_pieces(s));
    let k = kept_pieces(split_pieces(s));
    let m = k.map_values(|p: Seq<char>| piece_component(p));
    let lead = (if has_root(s) {
        seq![PathComponent::Root]
    } else {
        Seq::<PathComponent>::empty()
    }) + (if leads_with_current(s) {
        seq![PathComponent::Current]
    } else {
        Seq::<PathComponent>::empty()
    });
    assert forall|j: int| 0 <= j < components(s).len() implies (#[trigger] components(
        s,
    )[j] matches PathComponent::Normal(n) ==> is_plain_name(n)) by {
        if j >= lead.len() {
            let q = j - lead.len();
            assert(components(s)[j] == m[q]);
            assert(m[q] == piece_component(k[q]));
            assert(is_kept_piece(k[q]));
        }
    }
}

} // verus!
