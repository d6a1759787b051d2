//! Local paths as `std::path` reads them on Unix, for naming uploaded files by their
//! place below the chosen folder.
use vstd::prelude::*;
use crate::keys::split_char;
use crate::text::{chars_of, chars_slice, push_char, push_chars};

verus! {

/// One component of a path.
pub enum PathComponent {
    RootDir,
    CurDir,
    ParentDir,
    Normal(Seq<char>),
}

/// The component that a segment between separators stands for: none for an empty
/// segment or `.`, `ParentDir` for `..`, else a normal name.
pub open spec fn segment_component(seg: Seq<char>) -> Option<PathComponent> {
    if seg.len() == 0 || seg == seq!['.'] {
        None
    } else if seg == seq!['.', '.'] {
        Some(PathComponent::ParentDir)
    } else {
        Some(PathComponent::Normal(seg))
    }
}

/// The components of the segments `segs`, in order.
pub open spec fn segment_components(segs: Seq<Seq<char>>) -> Seq<PathComponent>
    decreases segs.len(),
{
    if segs.len() == 0 {
        seq![]
    } else {
        match segment_component(segs.last()) {
            Some(c) => segment_components(segs.drop_last()).push(c),
            None => segment_components(segs.drop_last()),
        }
    }
}

/// Whether a path begins with a root: its first character is `/`.
pub open spec fn rooted(p: Seq<char>) -> bool {
    p.len() > 0 && p[0] == '/'
}

/// Whether a path begins with the current directory: it is `.` or begins with `./`.
pub open spec fn leading_cur_dir(p: Seq<char>) -> bool {
    p.len() > 0 && p[0] == '.' && (p.len() == 1 || p[1] == '/')
}

/// The components of a path (`Path::components` on Unix): a root where it begins
/// with `/`, a current directory where it begins with `./` or is `.`, then one
/// component for each segment that is neither empty nor `.`.
pub open spec fn components(p: Seq<char>) -> Seq<PathComponent> {
    let head: Seq<PathComponent> = if rooted(p) {
        seq![PathComponent::RootDir]
    } else if leading_cur_dir(p) {
        seq![PathComponent::CurDir]
    } else {
        seq![]
    };
    head + segment_components(split_char(p, '/'))
}

/// The components of the parent of a path with components `c` (`Path::parent`): all
/// but the last, unless there are none or the last is the root.
pub open spec fn parent_components(c: Seq<PathComponent>) -> Option<Seq<PathComponent>> {
    if c.len() == 0 || c.last() is RootDir {
        None
    } else {
        Some(c.drop_last())
    }
}

/// The names of the normal components of `c`, in order.
pub open spec fn normal_names(c: Seq<PathComponent>) -> Seq<Seq<char>>
    decreases c.len(),
{
    if c.len() == 0 {
        seq![]
    } else {
        match c.last() {
            PathComponent::Normal(n) => normal_names(c.drop_last()).push(n),
            _ => normal_names(c.drop_last()),
        }
    }
}

/// `names` joined with `/` between them.
pub open spec fn join_slash(names: Seq<Seq<char>>) -> Seq<char>
    decreases names.len(),
{
    if names.len() == 0 {
        seq![]
    } else if names.len() == 1 {
        names[0]
    } else {
        join_slash(names.drop_last()) + seq!['/'] + names.last()
    }
}

/// The path under which a file found at `current` is uploaded when `base_root` was
/// chosen: `current` without the components of `base_root`'s parent (or of
/// `base_root` itself where it has none) where they lead it, keeping the chosen
/// folder's own name, and then only its normal names, joined with `/`.
pub open spec fn upload_relative(current: Seq<char>, base_root: Seq<char>) -> Seq<char> {
    let b = components(base_root);
    let base = match parent_components(b) {
        Some(p) => p,
        None => b,
    };
    let c = components(current);
    let rest = if base.is_prefix_of(c) {
        c.skip(base.len() as int)
    } else {
        c
    };
    join_slash(normal_names(rest))
}

/// A path component.
#[derive(Debug, Clone)]
pub enum PathPart {
    RootDir,
    CurDir,
    ParentDir,
    Normal(Vec<char>),
}

impl PathPart {
    /// The component that this part is.
    pub open spec fn view_component(&self) -> PathComponent {
        match self {
            PathPart::RootDir => PathComponent::RootDir,
            PathPart::CurDir => PathComponent::CurDir,
            PathPart::ParentDir => PathComponent::ParentDir,
            PathPart::Normal(n) => PathComponent::Normal(n@),
        }
    }
}

/// The components of a list of parts.
pub open spec fn parts_view(parts: Seq<PathPart>) -> Seq<PathComponent> {
    parts.map_values(|p: PathPart| p.view_component())
}

/// Appends the component of the segment `cs[from..to]`, if it has one.
fn push_segment_part(parts: &mut Vec<PathPart>, cs: &[char], from: usize, to: usize)
    requires
        from <= to <= cs@.len(),
    ensures
        parts_view(final(parts)@) == (match segment_component(cs@.subrange(from as int, to as int)) {
            Some(c) => parts_view(old(parts)@).push(c),
            None => parts_view(old(parts)@),
        }),
{
    let ghost seg = cs@.subrange(from as int, to as int);
    let ghost before = parts@;
    let len = to - from;
    if len == 0 {
        return;
    }
    if len == 1 && cs[from] == '.' {
        assert(seg =~= seq!['.']);
        return;
    }
    if len == 2 && cs[from] == '.' && cs[from + 1] == '.' {
        assert(seg =~= seq!['.', '.']);
        parts.push(PathPart::ParentDir);
        assert(parts_view(parts@) =~= parts_view(before).push(PathComponent::ParentDir));
        return;
    }
    proof {
        if len == 1 {
            assert(seg[0] == cs@[from as int]);
            assert(seg != seq!['.']);
        }
        if len == 2 {
            assert(seg[0] == cs@[from as int]);
            assert(seg[1] == cs@[from + 1]);
            assert(seq!['.', '.'][0] == '.' && seq!['.', '.'][1] == '.');
            assert(seg != seq!['.', '.']);
        }
        assert(seg.len() != 1 ==> seg != seq!['.']);
        assert(seg.len() != 2 ==> seg != seq!['.', '.']);
    }
    let name = chars_slice(cs, from, to);
    parts.push(PathPart::Normal(name));
    assert(parts_view(parts@) =~= parts_view(before).push(PathComponent::Normal(seg)));
}

/// The components of the path `p`.
pub fn path_components(p: &str) -> (parts: Vec<PathPart>)
    ensures
        parts_view(parts@) == components(p@),
{
    let cs = chars_of(p);
    let mut parts: Vec<PathPart> = Vec::new();
    if cs.len() > 0 && cs[0] == '/' {
        parts.push(PathPart::RootDir);
    } else if cs.len() > 0 && cs[0] == '.' && (cs.len() == 1 || cs[1] == '/') {
        parts.push(PathPart::CurDir);
    }
    let ghost head = parts_view(parts@);
    proof {
        assert(head =~= (if rooted(p@) {
            seq![PathComponent::RootDir]
        } else if leading_cur_dir(p@) {
            seq![PathComponent::CurDir]
        } else {
            seq![]
        }));
    }
    let mut start: usize = 0;
    let mut i: usize = 0;
    let ghost mut done: Seq<Seq<char>> = seq![];
    proof {
        assert(cs@.take(0) =~= Seq::<char>::empty());
        assert(cs@.subrange(0, 0) =~= Seq::<char>::empty());
        assert(split_char(cs@.take(0), '/') =~= done.push(cs@.subrange(0, 0)));
        assert(head + segment_components(done) =~= head);
    }
    while i < cs.len()
        invariant
            0 <= start <= i <= cs@.len(),
            split_char(cs@.take(i as int), '/') == done.push(cs@.subrange(start as int, i as int)),
            parts_view(parts@) == head + segment_components(done),
        decreases cs@.len() - i,
    {
        proof {
            assert(cs@.take(i + 1).drop_last() =~= cs@.take(i as int));
            assert(cs@.take(i + 1).last() == cs@[i as int]);
        }
        if cs[i] == '/' {
            let ghost before = parts_view(parts@);
            push_segment_part(&mut parts, cs.as_slice(), start, i);
            proof {
                let seg = cs@.subrange(start as int, i as int);
                assert(done.push(seg).drop_last() =~= done);
                assert(segment_components(done.push(seg)) == (match segment_component(seg) {
                    Some(c) => segment_components(done).push(c),
                    None => segment_components(done),
                }));
                match segment_component(seg) {
                    Some(c) => {
                        assert(head + segment_components(done).push(c) =~= (head + segment_components(done)).push(c));
                    },
                    None => {},
                }
                done = done.push(seg);
                assert(cs@.subrange((i + 1) as int, (i + 1) as int) =~= Seq::<char>::empty());
            }
            start = i + 1;
        } else {
            proof {
                assert(cs@.subrange(start as int, i + 1) =~= cs@.subrange(start as int, i as int).push(cs@[i as int]));
                assert(done.push(cs@.subrange(start as int, i as int)).update(done.len() as int, cs@.subrange(start as int, i + 1))
                    =~= done.push(cs@.subrange(start as int, i + 1)));
            }
        }
        i = i + 1;
    }
    proof {
        assert(cs@.take(cs@.len() as int) =~= cs@);
    }
    let ghost before = parts_view(parts@);
    push_segment_part(&mut parts, cs.as_slice(), start, i);
    proof {
        let seg = cs@.subrange(start as int, i as int);
        assert(done.push(seg).drop_last() =~= done);
        match segment_component(seg) {
            Some(c) => {
                assert(head + segment_components(done).push(c) =~= (head + segment_components(done)).push(c));
            },
            None => {},
        }
    }
    parts
}

/// Whether two components are the same.
fn same_part(a: &PathPart, b: &PathPart) -> (eq: bool)
    ensures
        eq == (a.view_component() == b.view_component()),
{
    match (a, b) {
        (PathPart::RootDir, PathPart::RootDir) => true,
        (PathPart::CurDir, PathPart::CurDir) => true,
        (PathPart::ParentDir, PathPart::ParentDir) => true,
        (PathPart::Normal(x), PathPart::Normal(y)) => {
            if x.len() != y.len() {
                return false;
            }
            let mut i: usize = 0;
            while i < x.len()
                invariant
                    i <= x@.len() == y@.len(),
                    a.view_component() == PathComponent::Normal(x@),
                    b.view_component() == PathComponent::Normal(y@),
                    forall|k: int| 0 <= k < i ==> x@[k] == y@[k],
                decreases x@.len() - i,
            {
                if x[i] != y[i] {
                    return false;
                }
                i = i + 1;
            }
            assert(x@ =~= y@);
            true
        },
        _ => false,
    }
}

/// The path under which a file found at `current_path` is uploaded when `base_root`
/// was chosen.
pub fn upload_relative_path(current_path: &str, base_root: &str) -> (rel: String)
    ensures
        rel@ == upload_relative(current_path@, base_root@),
{
    let b = path_components(base_root);
    let c = path_components(current_path);
    let base_len = if b.len() > 0 && !matches!(b[b.len() - 1], PathPart::RootDir) {
        b.len() - 1
    } else {
        b.len()
    };
    let ghost bv = parts_view(b@);
    let ghost cv = parts_view(c@);
    let ghost base = match parent_components(bv) {
        Some(p) => p,
        None => bv,
    };
    proof {
        assert(base =~= bv.take(base_len as int));
    }
    let mut is_prefix = base_len <= c.len();
    let mut k: usize = 0;
    while is_prefix && k < base_len
        invariant
            base_len <= bv.len(),
            bv == parts_view(b@),
            cv == parts_view(c@),
            is_prefix ==> base_len <= cv.len(),
            is_prefix ==> forall|m: int| 0 <= m < k ==> bv[m] == cv[m],
            !is_prefix ==> !bv.take(base_len as int).is_prefix_of(cv),
            k <= base_len,
        decreases base_len - k + (if is_prefix { 1int } else { 0int }),
    {
        if !same_part(&b[k], &c[k]) {
            is_prefix = false;
            assert(bv.take(base_len as int)[k as int] == bv[k as int]);
        } else {
            k = k + 1;
        }
    }
    proof {
        if is_prefix {
            assert(bv.take(base_len as int) =~= cv.take(base_len as int));
        }
    }
    let from = if is_prefix { base_len } else { 0 };
    let mut rel = String::new();
    let mut first = true;
    let mut i = from;
    let ghost rest = cv.skip(from as int);
    proof {
        assert(rest == (if base.is_prefix_of(cv) { cv.skip(base.len() as int) } else { cv }));
        assert(cv.skip(from as int).take(0) =~= Seq::<PathComponent>::empty());
    }
    while i < c.len()
        invariant
            from <= i <= c@.len(),
            cv == parts_view(c@),
            rest == cv.skip(from as int),
            rel@ == join_slash(normal_names(rest.take(i - from))),
            first == (normal_names(rest.take(i - from)).len() == 0),
        decreases c@.len() - i,
    {
        proof {
            assert(rest.take(i - from + 1).drop_last() =~= rest.take(i - from));
            assert(rest.take(i - from + 1).last() == c@[i as int].view_component());
        }
        match &c[i] {
            PathPart::Normal(n) => {
                let ghost names = normal_names(rest.take(i - from));
                if !first {
                    push_char(&mut rel, '/');
                }
                push_chars(&mut rel, n.as_slice(), 0, n.len());
                proof {
                    assert(n@.subrange(0, n@.len() as int) =~= n@);
                    if names.len() > 0 {
                        assert(names.push(n@).drop_last() =~= names);
                    }
                }
                first = false;
            },
            _ => {},
        }
        i = i + 1;
    }
    proof {
        assert(rest.take(i - from) =~= rest);
    }
    rel
}

} // verus!
