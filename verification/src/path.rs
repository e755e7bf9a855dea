//! Canonical paths as text, and the relative path from a tag directory to an item.

use vstd::prelude::*;

verus! {

/// The segments of `s` between its `/` separators. There is always at least
/// one segment; two separators in a row have an empty segment between them.
pub open spec fn split(s: Seq<char>) -> Seq<Seq<char>>
    decreases s.len(),
{
    if s.len() == 0 {
        seq![Seq::<char>::empty()]
    } else {
        let init = split(s.drop_last());
        if s.last() == '/' {
            init.push(Seq::<char>::empty())
        } else {
            init.drop_last().push(init.last().push(s.last()))
        }
    }
}

/// The segments written out with one `/` between neighbours.
pub open spec fn join(parts: Seq<Seq<char>>) -> Seq<char>
    decreases parts.len(),
{
    if parts.len() == 0 {
        Seq::<char>::empty()
    } else if parts.len() == 1 {
        parts[0]
    } else {
        join(parts.drop_last()) + seq!['/'] + parts.last()
    }
}

/// The segment `.`, which names the directory itself.
pub open spec fn dot() -> Seq<char> {
    seq!['.']
}

/// The segment `..`, which names the parent directory.
pub open spec fn dotdot() -> Seq<char> {
    seq!['.', '.']
}

/// A segment that names a directory entry: not empty, without a separator,
/// and neither `.` nor `..`.
pub open spec fn is_name(n: Seq<char>) -> bool {
    &&& n.len() > 0
    &&& !n.contains('/')
    &&& n != dot()
    &&& n != dotdot()
}

/// Every segment from `from` on is a name.
pub open spec fn names_from(segs: Seq<Seq<char>>, from: int) -> bool {
    forall|j: int| from <= j < segs.len() ==> is_name(#[trigger] segs[j])
}

/// The text of the root directory.
pub open spec fn root() -> Seq<char> {
    seq!['/']
}

/// `s` is an absolute path in normal form: the root `/`, or a `/` followed by
/// names with single separators between them and none at the end.
pub open spec fn is_canonical(s: Seq<char>) -> bool {
    s == root() || {
        let segs = split(s);
        &&& segs.len() >= 2
        &&& segs[0].len() == 0
        &&& names_from(segs, 1)
    }
}

/// The names on the way from the root to the canonical path `s`.
pub open spec fn components(s: Seq<char>) -> Seq<Seq<char>> {
    if s == root() {
        Seq::<Seq<char>>::empty()
    } else {
        split(s).drop_first()
    }
}

/// The canonical path that leads from the root through `names`.
pub open spec fn absolute(names: Seq<Seq<char>>) -> Seq<char> {
    if names.len() == 0 {
        root()
    } else {
        join(seq![Seq::<char>::empty()] + names)
    }
}

/// How many leading names `a` and `b` share.
pub open spec fn common_len(a: Seq<Seq<char>>, b: Seq<Seq<char>>) -> nat
    decreases a.len(),
{
    if a.len() > 0 && b.len() > 0 && a[0] == b[0] {
        1 + common_len(a.drop_first(), b.drop_first())
    } else {
        0
    }
}

/// `n` times the segment `..`.
pub open spec fn ups(n: nat) -> Seq<Seq<char>> {
    Seq::new(n, |i: int| dotdot())
}

/// The way from the directory `tag` to `item`, both given by their names
/// from the root: one `..` for every name of `tag` below the deepest common
/// ancestor, then the names of `item` below that ancestor.
pub open spec fn relative_segments(tag: Seq<Seq<char>>, item: Seq<Seq<char>>) -> Seq<Seq<char>> {
    let shared = common_len(tag, item);
    ups((tag.len() - shared) as nat) + item.skip(shared as int)
}

/// The relative path from the canonical directory `tag` to the canonical
/// path `item`, as text. Where the two are the same path it is `.`.
pub open spec fn relative_text(tag: Seq<char>, item: Seq<char>) -> Seq<char> {
    let segs = relative_segments(components(tag), components(item));
    if segs.len() == 0 {
        dot()
    } else {
        join(segs)
    }
}

/// One step of a walk that stands at `at`: `..` climbs to the parent (the
/// root is its own parent), `.` and an empty segment stay, a name descends.
pub open spec fn step(at: Seq<Seq<char>>, seg: Seq<char>) -> Seq<Seq<char>> {
    if seg == dotdot() {
        if at.len() > 0 {
            at.drop_last()
        } else {
            at
        }
    } else if seg == dot() || seg.len() == 0 {
        at
    } else {
        at.push(seg)
    }
}

/// Where a walk ends that starts at `base` and follows `segs` in order.
pub open spec fn walk(base: Seq<Seq<char>>, segs: Seq<Seq<char>>) -> Seq<Seq<char>>
    decreases segs.len(),
{
    if segs.len() == 0 {
        base
    } else {
        step(walk(base, segs.drop_last()), segs.last())
    }
}

/// The canonical path that the relative path `target` names when it is
/// followed from the canonical directory `dir`.
pub open spec fn resolve_text(dir: Seq<char>, target: Seq<char>) -> Seq<char> {
    absolute(walk(components(dir), split(target)))
}

/// The path of the entry `name` in the canonical directory `dir`.
pub open spec fn child_text(dir: Seq<char>, name: Seq<char>) -> Seq<char> {
    if dir == root() {
        dir + name
    } else {
        dir + seq!['/'] + name
    }
}

/// The name under which `link` would lie in the directory `dir`: what
/// follows the directory's text and one separator.
pub open spec fn entry_name(dir: Seq<char>, link: Seq<char>) -> Seq<char> {
    if dir == root() {
        link.skip(1)
    } else {
        link.skip(dir.len() as int + 1)
    }
}

/// `link` is the path of an entry directly inside the directory `dir`.
pub open spec fn is_entry_of(dir: Seq<char>, link: Seq<char>) -> bool {
    &&& is_name(entry_name(dir, link))
    &&& link == child_text(dir, entry_name(dir, link))
}

/// The segments that the index pairs in `bounds` cut out of `text`.
spec fn cut(text: Seq<char>, bounds: Seq<(usize, usize)>) -> Seq<Seq<char>> {
    Seq::new(bounds.len(), |j: int| text.subrange(bounds[j].0 as int, bounds[j].1 as int))
}

/// Every pair in `bounds` is a range inside `text`.
spec fn bounds_ok(text: Seq<char>, bounds: Seq<(usize, usize)>) -> bool {
    forall|j: int|
        0 <= j < bounds.len() ==> (#[trigger] bounds[j]).0 <= bounds[j].1 <= text.len()
}

/// A split always yields a segment, and no segment holds a separator.
pub proof fn lemma_split_shape(s: Seq<char>)
    ensures
        split(s).len() >= 1,
        forall|j: int| 0 <= j < split(s).len() ==> !(#[trigger] split(s)[j]).contains('/'),
    decreases s.len(),
{
    if s.len() > 0 {
        lemma_split_shape(s.drop_last());
        let init = split(s.drop_last());
        if s.last() != '/' {
            let grown = init.last().push(s.last());
            assert forall|k: int| 0 <= k < grown.len() implies grown[k] != '/' by {
                if k < init.last().len() {
                    assert(init.last().contains(init.last()[k]));
                }
            }
        }
    }
}

fn chars_of(s: &str) -> (v: Vec<char>)
    ensures
        v@ == s@,
{
    let mut v: Vec<char> = Vec::new();
    for c in it: s.chars()
        invariant
            v@ == s@.take(it.index() as int),
            it.seq() == s@,
    {
        v.push(c);
        proof {
            assert(s@.take(it.index() + 1) == s@.take(it.index() as int).push(c));
        }
    }
    assert(s@.take(s@.len() as int) == s@);
    v
}

/// Where each segment of `text` starts and ends.
fn segment_bounds(text: &Vec<char>) -> (bounds: Vec<(usize, usize)>)
    ensures
        bounds_ok(text@, bounds@),
        cut(text@, bounds@) == split(text@),
{
    let mut bounds: Vec<(usize, usize)> = Vec::new();
    let mut start: usize = 0;
    let mut i: usize = 0;
    proof {
        assert(text@.take(0).len() == 0);
        assert(text@.subrange(0, 0) == Seq::<char>::empty());
        assert(cut(text@, bounds@).push(Seq::<char>::empty()) == seq![Seq::<char>::empty()]);
    }
    while i < text.len()
        invariant
            start <= i <= text.len(),
            bounds_ok(text@, bounds@),
            split(text@.take(i as int)) == cut(text@, bounds@).push(
                text@.subrange(start as int, i as int),
            ),
        decreases text.len() - i,
    {
        let c = text[i];
        proof {
            assert(text@.take(i + 1).drop_last() == text@.take(i as int));
            assert(text@.take(i + 1).last() == c);
        }
        if c == '/' {
            let ghost before = bounds@;
            bounds.push((start, i));
            proof {
                assert(cut(text@, bounds@) == cut(text@, before).push(
                    text@.subrange(start as int, i as int),
                ));
                assert(text@.subrange(i + 1, i + 1) == Seq::<char>::empty());
            }
            start = i + 1;
        } else {
            proof {
                let p = split(text@.take(i as int));
                assert(p.drop_last() == cut(text@, bounds@));
                assert(p.last().push(c) == text@.subrange(start as int, i + 1));
            }
        }
        i = i + 1;
    }
    let ghost before = bounds@;
    bounds.push((start, i));
    proof {
        assert(text@.take(i as int) == text@);
        assert(cut(text@, bounds@) == cut(text@, before).push(
            text@.subrange(start as int, i as int),
        ));
    }
    bounds
}

/// The segment of `text` in the range `b` is a name.
fn range_is_name(text: &Vec<char>, b: (usize, usize)) -> (r: bool)
    requires
        b.0 <= b.1 <= text.len(),
        !text@.subrange(b.0 as int, b.1 as int).contains('/'),
    ensures
        r == is_name(text@.subrange(b.0 as int, b.1 as int)),
{
    let ghost seg = text@.subrange(b.0 as int, b.1 as int);
    let n: usize = b.1 - b.0;
    if n == 0 {
        false
    } else if n == 1 && text[b.0] == '.' {
        assert(seg == dot());
        false
    } else if n == 2 && text[b.0] == '.' && text[b.0 + 1] == '.' {
        assert(seg == dotdot());
        false
    } else {
        proof {
            if seg == dot() {
                assert(seg[0] == '.');
            }
            if seg == dotdot() {
                assert(seg[0] == '.' && seg[1] == '.');
            }
        }
        true
    }
}

/// The two ranges hold the same characters.
fn range_eq(a: &Vec<char>, ra: (usize, usize), b: &Vec<char>, rb: (usize, usize)) -> (r: bool)
    requires
        ra.0 <= ra.1 <= a.len(),
        rb.0 <= rb.1 <= b.len(),
    ensures
        r == (a@.subrange(ra.0 as int, ra.1 as int) == b@.subrange(rb.0 as int, rb.1 as int)),
{
    let ghost sa = a@.subrange(ra.0 as int, ra.1 as int);
    let ghost sb = b@.subrange(rb.0 as int, rb.1 as int);
    let n: usize = ra.1 - ra.0;
    if rb.1 - rb.0 != n {
        assert(sa.len() != sb.len());
        return false;
    }
    let mut k: usize = 0;
    while k < n
        invariant
            k <= n,
            n == ra.1 - ra.0,
            n == rb.1 - rb.0,
            ra.1 <= a.len(),
            rb.1 <= b.len(),
            sa == a@.subrange(ra.0 as int, ra.1 as int),
            sb == b@.subrange(rb.0 as int, rb.1 as int),
            forall|j: int| 0 <= j < k ==> sa[j] == sb[j],
        decreases n - k,
    {
        if a[ra.0 + k] != b[rb.0 + k] {
            assert(sa[k as int] != sb[k as int]);
            return false;
        }
        k = k + 1;
    }
    assert(sa =~= sb);
    true
}

/// Whether the split text is a canonical path.
fn canonical_parts(text: &Vec<char>, bounds: &Vec<(usize, usize)>) -> (r: bool)
    requires
        bounds_ok(text@, bounds@),
        cut(text@, bounds@) == split(text@),
    ensures
        r == is_canonical(text@),
{
    proof {
        lemma_split_shape(text@);
    }
    if text.len() == 1 && text[0] == '/' {
        assert(text@ == root());
        return true;
    }
    assert(text@ != root()) by {
        if text@ == root() {
            assert(text@[0] == '/');
        }
    }
    if bounds.len() < 2 {
        return false;
    }
    if bounds[0].1 - bounds[0].0 != 0 {
        assert(cut(text@, bounds@)[0].len() != 0);
        return false;
    }
    assert(cut(text@, bounds@)[0].len() == 0);
    let mut j: usize = 1;
    while j < bounds.len()
        invariant
            1 <= j <= bounds.len(),
            text@ != root(),
            bounds_ok(text@, bounds@),
            cut(text@, bounds@) == split(text@),
            forall|k: int|
                0 <= k < split(text@).len() ==> !(#[trigger] split(text@)[k]).contains('/'),
            forall|k: int| 1 <= k < j ==> is_name(#[trigger] split(text@)[k]),
        decreases bounds.len() - j,
    {
        assert(cut(text@, bounds@)[j as int] == split(text@)[j as int]);
        if !range_is_name(text, bounds[j]) {
            assert(!is_name(split(text@)[j as int]));
            return false;
        }
        j = j + 1;
    }
    true
}

/// Whether `path` is an absolute path in normal form.
pub fn is_canonical_path(path: &str) -> (r: bool)
    ensures
        r == is_canonical(path@),
{
    let text = chars_of(path);
    let bounds = segment_bounds(&text);
    canonical_parts(&text, &bounds)
}

/// Whether `name` can name a directory entry.
pub fn is_entry_name(name: &str) -> (r: bool)
    ensures
        r == is_name(name@),
{
    let text = chars_of(name);
    let mut k: usize = 0;
    while k < text.len()
        invariant
            k <= text.len(),
            text@ == name@,
            forall|j: int| 0 <= j < k ==> text@[j] != '/',
        decreases text.len() - k,
    {
        if text[k] == '/' {
            assert(text@.contains(text@[k as int]));
            return false;
        }
        k = k + 1;
    }
    assert(text@.subrange(0, text.len() as int) == text@);
    range_is_name(&text, (0, text.len()))
}

/// How many names the canonical path `text` has below the root. Name `j` is
/// the segment at `bounds[j + 1]`.
fn depth(text: &Vec<char>, bounds: &Vec<(usize, usize)>) -> (n: usize)
    requires
        is_canonical(text@),
        bounds_ok(text@, bounds@),
        cut(text@, bounds@) == split(text@),
    ensures
        n == components(text@).len(),
        n > 0 ==> n + 1 == bounds.len(),
        forall|j: int|
            0 <= j < n ==> #[trigger] components(text@)[j] == text@.subrange(
                bounds[j + 1].0 as int,
                bounds[j + 1].1 as int,
            ),
        forall|j: int| 0 <= j < n ==> is_name(#[trigger] components(text@)[j]),
{
    if text.len() == 1 && text[0] == '/' {
        assert(text@ == root());
        0
    } else {
        assert(text@ != root()) by {
            if text@ == root() {
                assert(text@[0] == '/');
            }
        }
        proof {
            let segs = split(text@);
            assert forall|j: int| 0 <= j < segs.len() - 1 implies #[trigger] components(
                text@,
            )[j] == text@.subrange(bounds[j + 1].0 as int, bounds[j + 1].1 as int) && is_name(
                components(text@)[j],
            ) by {
                assert(components(text@)[j] == segs[j + 1]);
                assert(cut(text@, bounds@)[j + 1] == segs[j + 1]);
            }
        }
        bounds.len() - 1
    }
}

/// The relative path from the tag directory `tag` to `item`, to be stored as
/// the target of a link inside `tag`. Both must be canonical paths; `None`
/// says that one of them is not.
pub fn tag_target_path(tag: &str, item: &str) -> (target: Option<String>)
    ensures
        target is Some <==> is_canonical(tag@) && is_canonical(item@),
        target matches Some(t) ==> t@ == relative_text(tag@, item@),
{
    let tag_text = chars_of(tag);
    let tag_bounds = segment_bounds(&tag_text);
    let item_text = chars_of(item);
    let item_bounds = segment_bounds(&item_text);
    if !canonical_parts(&tag_text, &tag_bounds) || !canonical_parts(&item_text, &item_bounds) {
        return None;
    }
    let tag_depth = depth(&tag_text, &tag_bounds);
    let item_depth = depth(&item_text, &item_bounds);
    let ghost tag_names = components(tag@);
    let ghost item_names = components(item@);

    let mut shared: usize = 0;
    loop
        invariant
            shared <= tag_depth,
            shared <= item_depth,
            tag_text@ == tag@,
            item_text@ == item@,
            tag_names == components(tag@),
            item_names == components(item@),
            tag_depth == tag_names.len(),
            item_depth == item_names.len(),
            tag_depth > 0 ==> tag_depth + 1 == tag_bounds.len(),
            item_depth > 0 ==> item_depth + 1 == item_bounds.len(),
            bounds_ok(tag_text@, tag_bounds@),
            bounds_ok(item_text@, item_bounds@),
            forall|j: int|
                0 <= j < tag_depth ==> #[trigger] tag_names[j] == tag_text@.subrange(
                    tag_bounds[j + 1].0 as int,
                    tag_bounds[j + 1].1 as int,
                ),
            forall|j: int|
                0 <= j < item_depth ==> #[trigger] item_names[j] == item_text@.subrange(
                    item_bounds[j + 1].0 as int,
                    item_bounds[j + 1].1 as int,
                ),
            forall|j: int| 0 <= j < shared ==> tag_names[j] == item_names[j],
        ensures
            shared == tag_depth || shared == item_depth || tag_names[shared as int]
                != item_names[shared as int],
        decreases tag_depth - shared,
    {
        if shared >= tag_depth || shared >= item_depth {
            break;
        }
        let same = range_eq(
            &tag_text,
            tag_bounds[shared + 1],
            &item_text,
            item_bounds[shared + 1],
        );
        proof {
            assert(tag_names[shared as int] == tag_text@.subrange(
                tag_bounds[shared + 1].0 as int,
                tag_bounds[shared + 1].1 as int,
            ));
            assert(item_names[shared as int] == item_text@.subrange(
                item_bounds[shared + 1].0 as int,
                item_bounds[shared + 1].1 as int,
            ));
        }
        if !same {
            break;
        }
        shared = shared + 1;
    }
    proof {
        lemma_common_len(tag_names, item_names, shared as nat);
        reveal_strlit("/");
        reveal_strlit("..");
        reveal_strlit(".");
        assert("/"@ == seq!['/']);
        assert(".."@ == dotdot());
        assert("."@ == dot());
    }
    let ghost segs = relative_segments(tag_names, item_names);
    let climb: usize = tag_depth - shared;
    let mut out = String::new();
    let mut k: usize = 0;
    proof {
        assert(segs.take(0) == Seq::<Seq<char>>::empty());
    }
    while k < climb
        invariant
            k <= climb,
            climb <= segs.len(),
            forall|j: int| 0 <= j < climb ==> segs[j] == dotdot(),
            out@ == join(segs.take(k as int)),
            "/"@ == seq!['/'],
            ".."@ == dotdot(),
        decreases climb - k,
    {
        if k > 0 {
            out.append("/");
        }
        out.append("..");
        proof {
            lemma_join_push(segs.take(k as int), dotdot());
            assert(segs.take(k + 1) == segs.take(k as int).push(dotdot()));
        }
        k = k + 1;
    }
    let mut j: usize = shared;
    while j < item_depth
        invariant
            shared <= j <= item_depth,
            item_text@ == item@,
            item_depth == item_names.len(),
            item_depth > 0 ==> item_depth + 1 == item_bounds.len(),
            bounds_ok(item_text@, item_bounds@),
            forall|i: int|
                0 <= i < item_depth ==> #[trigger] item_names[i] == item_text@.subrange(
                    item_bounds[i + 1].0 as int,
                    item_bounds[i + 1].1 as int,
                ),
            segs.len() == climb + item_depth - shared,
            forall|i: int| shared <= i < item_depth ==> segs[climb + i - shared] == item_names[i],
            out@ == join(segs.take(climb + j - shared)),
            "/"@ == seq!['/'],
        decreases item_depth - j,
    {
        if climb > 0 || j > shared {
            out.append("/");
        }
        let b = item_bounds[j + 1];
        out.append(item.substring_char(b.0, b.1));
        proof {
            let done = segs.take(climb + j - shared);
            lemma_join_push(done, item_names[j as int]);
            assert(segs.take(climb + j - shared + 1) == done.push(item_names[j as int]));
        }
        j = j + 1;
    }
    proof {
        assert(segs.take(segs.len() as int) == segs);
    }
    if climb == 0 && shared == item_depth {
        out.append(".");
    }
    Some(out)
}

/// The path of the entry `name` in the directory `dir`.
pub fn child_path(dir: &str, name: &str) -> (path: String)
    ensures
        path@ == child_text(dir@, name@),
{
    proof {
        reveal_strlit("/");
        assert("/"@ == root());
    }
    let mut path = String::from_str(dir);
    let sep = String::from_str("/");
    if path != sep {
        path.append("/");
    }
    path.append(name);
    path
}

/// The names that the marked ranges cut out of `dir` (mark `false`) and
/// `target` (mark `true`).
spec fn picked(dir: Seq<char>, target: Seq<char>, marks: Seq<(bool, usize, usize)>) -> Seq<
    Seq<char>,
> {
    Seq::new(
        marks.len(),
        |j: int|
            if marks[j].0 {
                target.subrange(marks[j].1 as int, marks[j].2 as int)
            } else {
                dir.subrange(marks[j].1 as int, marks[j].2 as int)
            },
    )
}

/// Every marked range lies inside the text that it is marked for.
spec fn marks_ok(dir: Seq<char>, target: Seq<char>, marks: Seq<(bool, usize, usize)>) -> bool {
    forall|j: int|
        0 <= j < marks.len() ==> (#[trigger] marks[j]).1 <= marks[j].2 <= (if marks[j].0 {
            target.len()
        } else {
            dir.len()
        })
}

/// The canonical path that the relative path `target` names when it is
/// followed from the directory `dir`, without looking at any file system:
/// `..` climbs (the root is its own parent), `.` and empty segments stay.
/// `None` says that `dir` is not a canonical path.
pub fn resolve(dir: &str, target: &str) -> (path: Option<String>)
    ensures
        path is Some <==> is_canonical(dir@),
        path matches Some(p) ==> p@ == resolve_text(dir@, target@),
{
    let dir_text = chars_of(dir);
    let dir_bounds = segment_bounds(&dir_text);
    if !canonical_parts(&dir_text, &dir_bounds) {
        return None;
    }
    let dir_depth = depth(&dir_text, &dir_bounds);
    let target_text = chars_of(target);
    let target_bounds = segment_bounds(&target_text);
    let ghost segs = split(target@);
    let ghost base = components(dir@);

    let mut marks: Vec<(bool, usize, usize)> = Vec::new();
    let mut j: usize = 0;
    while j < dir_depth
        invariant
            j <= dir_depth,
            dir_text@ == dir@,
            dir_depth == base.len(),
            base == components(dir@),
            dir_depth > 0 ==> dir_depth + 1 == dir_bounds.len(),
            bounds_ok(dir_text@, dir_bounds@),
            forall|i: int|
                0 <= i < dir_depth ==> #[trigger] base[i] == dir_text@.subrange(
                    dir_bounds[i + 1].0 as int,
                    dir_bounds[i + 1].1 as int,
                ),
            marks_ok(dir@, target@, marks@),
            picked(dir@, target@, marks@) == base.take(j as int),
        decreases dir_depth - j,
    {
        let b = dir_bounds[j + 1];
        let ghost before = marks@;
        marks.push((false, b.0, b.1));
        proof {
            assert(picked(dir@, target@, marks@) == picked(dir@, target@, before).push(
                base[j as int],
            ));
            assert(base.take(j + 1) == base.take(j as int).push(base[j as int]));
        }
        j = j + 1;
    }
    proof {
        assert(base.take(base.len() as int) == base);
        assert(segs.take(0) == Seq::<Seq<char>>::empty());
    }
    let mut k: usize = 0;
    while k < target_bounds.len()
        invariant
            k <= target_bounds.len(),
            target_text@ == target@,
            segs == split(target@),
            bounds_ok(target_text@, target_bounds@),
            cut(target_text@, target_bounds@) == segs,
            marks_ok(dir@, target@, marks@),
            picked(dir@, target@, marks@) == walk(base, segs.take(k as int)),
        decreases target_bounds.len() - k,
    {
        let b = target_bounds[k];
        let n: usize = b.1 - b.0;
        let ghost seg = segs[k as int];
        let ghost at = walk(base, segs.take(k as int));
        let ghost before = marks@;
        proof {
            assert(cut(target_text@, target_bounds@)[k as int] == seg);
            assert(segs.take(k + 1).drop_last() == segs.take(k as int));
            assert(segs.take(k + 1).last() == seg);
            assert(walk(base, segs.take(k + 1)) == step(at, seg));
        }
        if n == 2 && target_text[b.0] == '.' && target_text[b.0 + 1] == '.' {
            assert(seg == dotdot());
            if marks.len() > 0 {
                marks.pop();
                proof {
                    assert(picked(dir@, target@, marks@) == picked(
                        dir@,
                        target@,
                        before,
                    ).drop_last());
                }
            }
        } else if n == 0 || (n == 1 && target_text[b.0] == '.') {
            proof {
                if n == 1 {
                    assert(seg == dot());
                }
                if seg == dotdot() {
                    assert(seg.len() == 2);
                }
            }
        } else {
            proof {
                if seg == dotdot() {
                    assert(seg[0] == '.' && seg[1] == '.');
                }
                if seg == dot() {
                    assert(seg[0] == '.');
                }
            }
            marks.push((true, b.0, b.1));
            proof {
                assert(picked(dir@, target@, marks@) == picked(dir@, target@, before).push(seg));
            }
        }
        k = k + 1;
    }
    proof {
        assert(segs.take(segs.len() as int) == segs);
        reveal_strlit("/");
        assert("/"@ == seq!['/']);
    }
    let ghost names = walk(base, segs);
    let ghost parts = seq![Seq::<char>::empty()] + names;
    let mut out = String::new();
    if marks.len() == 0 {
        out.append("/");
        assert(out@ == root());
        return Some(out);
    }
    let mut m: usize = 0;
    proof {
        assert(parts.take(1) == seq![Seq::<char>::empty()]);
    }
    while m < marks.len()
        invariant
            m <= marks.len(),
            marks_ok(dir@, target@, marks@),
            picked(dir@, target@, marks@) == names,
            parts == seq![Seq::<char>::empty()] + names,
            out@ == join(parts.take(m + 1)),
            "/"@ == seq!['/'],
        decreases marks.len() - m,
    {
        let mark = marks[m];
        out.append("/");
        if mark.0 {
            out.append(target.substring_char(mark.1, mark.2));
        } else {
            out.append(dir.substring_char(mark.1, mark.2));
        }
        proof {
            let name = picked(dir@, target@, marks@)[m as int];
            lemma_join_push(parts.take(m + 1), name);
            assert(parts.take(m + 2) == parts.take(m + 1).push(name));
        }
        m = m + 1;
    }
    proof {
        assert(parts.take(parts.len() as int) == parts);
    }
    Some(out)
}

/// Two sequences of names share exactly their first `c` names when they
/// agree up to `c` and either one ends there or they differ there.
pub proof fn lemma_common_len(a: Seq<Seq<char>>, b: Seq<Seq<char>>, c: nat)
    requires
        c <= a.len(),
        c <= b.len(),
        forall|j: int| 0 <= j < c ==> a[j] == b[j],
        c == a.len() || c == b.len() || a[c as int] != b[c as int],
    ensures
        common_len(a, b) == c,
    decreases a.len(),
{
    if c > 0 {
        let a1 = a.drop_first();
        let b1 = b.drop_first();
        assert forall|j: int| 0 <= j < c - 1 implies a1[j] == b1[j] by {
            assert(a1[j] == a[j + 1]);
            assert(b1[j] == b[j + 1]);
        }
        if c < a.len() && c < b.len() {
            assert(a1[c - 1] == a[c as int]);
            assert(b1[c - 1] == b[c as int]);
        }
        lemma_common_len(a1, b1, (c - 1) as nat);
    }
}

/// Joining one more segment puts a separator before it, unless it is the first.
pub proof fn lemma_join_push(parts: Seq<Seq<char>>, last: Seq<char>)
    ensures
        join(parts.push(last)) == if parts.len() == 0 {
            last
        } else {
            join(parts) + seq!['/'] + last
        },
{
    assert(parts.push(last).drop_last() == parts);
    assert(parts.push(last).last() == last);
}

/// Text without a separator, put behind `x`, lengthens the last segment of `x`.
proof fn lemma_split_append_plain(x: Seq<char>, b: Seq<char>)
    requires
        !b.contains('/'),
    ensures
        split(x).len() >= 1,
        split(x + b) == split(x).drop_last().push(split(x).last() + b),
    decreases b.len(),
{
    lemma_split_shape(x);
    let p = split(x);
    if b.len() == 0 {
        assert(x + b == x);
        assert(p.last() + b == p.last());
        assert(p.drop_last().push(p.last()) == p);
    } else {
        let b0 = b.drop_last();
        assert forall|k: int| 0 <= k < b0.len() implies b0[k] != '/' by {
            assert(b.contains(b[k]));
        }
        assert(b.last() != '/') by {
            assert(b.contains(b[b.len() - 1]));
        }
        lemma_split_append_plain(x, b0);
        assert((x + b).drop_last() == x + b0);
        assert((x + b).last() == b.last());
        let q = split(x + b0);
        assert(q.last() == p.last() + b0);
        assert(q.drop_last() == p.drop_last());
        assert((p.last() + b0).push(b.last()) == p.last() + b);
    }
}

/// Splitting what was joined gives the segments back.
pub proof fn lemma_split_join(parts: Seq<Seq<char>>)
    requires
        parts.len() >= 1,
        forall|j: int| 0 <= j < parts.len() ==> !(#[trigger] parts[j]).contains('/'),
    ensures
        split(join(parts)) == parts,
    decreases parts.len(),
{
    let empty = Seq::<char>::empty();
    if parts.len() == 1 {
        lemma_split_append_plain(empty, parts[0]);
        assert(empty + parts[0] == parts[0]);
        assert(split(empty) == seq![empty]);
        assert(empty + parts[0] == parts[0]);
        assert(seq![empty].drop_last().push(parts[0]) == parts);
    } else {
        let init = parts.drop_last();
        lemma_split_join(init);
        let x = join(init) + seq!['/'];
        assert(x.drop_last() == join(init));
        assert(x.last() == '/');
        assert(split(x) == init.push(empty));
        lemma_split_append_plain(x, parts.last());
        assert(join(parts) == x + parts.last());
        assert(init.push(empty).drop_last() == init);
        assert(empty + parts.last() == parts.last());
        assert(init.push(parts.last()) == parts);
    }
}

/// Joining the segments of a text gives the text back.
pub proof fn lemma_join_split(s: Seq<char>)
    ensures
        join(split(s)) == s,
    decreases s.len(),
{
    if s.len() == 0 {
        assert(join(split(s)) == Seq::<char>::empty());
    } else {
        let init = s.drop_last();
        lemma_join_split(init);
        lemma_split_shape(init);
        let p = split(init);
        if s.last() == '/' {
            lemma_join_push(p, Seq::<char>::empty());
            assert(join(p) + seq!['/'] + Seq::<char>::empty() == init.push('/'));
            assert(init.push(s.last()) == s);
        } else {
            let grown = p.last().push(s.last());
            lemma_join_push(p.drop_last(), grown);
            lemma_join_push(p.drop_last(), p.last());
            assert(p.drop_last().push(p.last()) == p);
            if p.len() == 1 {
                assert(join(p) == p.last());
            } else {
                assert(join(p.drop_last()) + seq!['/'] + grown == (join(p.drop_last()) + seq!['/']
                    + p.last()).push(s.last()));
            }
            assert(init.push(s.last()) == s);
        }
    }
}

/// A walk along `x` and then `y` is a walk along `x`, continued along `y`.
proof fn lemma_walk_concat(base: Seq<Seq<char>>, x: Seq<Seq<char>>, y: Seq<Seq<char>>)
    ensures
        walk(base, x + y) == walk(walk(base, x), y),
    decreases y.len(),
{
    if y.len() == 0 {
        assert(x + y == x);
    } else {
        lemma_walk_concat(base, x, y.drop_last());
        assert((x + y).drop_last() == x + y.drop_last());
        assert((x + y).last() == y.last());
    }
}

/// Climbing `n` times from a path of at least `n` names drops its last `n` names.
proof fn lemma_walk_ups(base: Seq<Seq<char>>, n: nat)
    requires
        n <= base.len(),
    ensures
        walk(base, ups(n)) == base.take(base.len() - n),
    decreases n,
{
    if n == 0 {
        assert(base.take(base.len() as int) == base);
    } else {
        lemma_walk_ups(base, (n - 1) as nat);
        assert(ups(n).drop_last() == ups((n - 1) as nat));
        assert(ups(n).last() == dotdot());
        assert(base.take(base.len() - n + 1).drop_last() == base.take(base.len() - n));
    }
}

/// A walk along names only appends them.
proof fn lemma_walk_names(base: Seq<Seq<char>>, names: Seq<Seq<char>>)
    requires
        names_from(names, 0),
    ensures
        walk(base, names) == base + names,
    decreases names.len(),
{
    if names.len() == 0 {
        assert(base + names == base);
    } else {
        let init = names.drop_last();
        assert(names_from(init, 0)) by {
            assert forall|j: int| 0 <= j < init.len() implies is_name(#[trigger] init[j]) by {
                assert(init[j] == names[j]);
            }
        }
        lemma_walk_names(base, init);
        assert(is_name(names[names.len() - 1]));
        assert((base + init).push(names.last()) == base + names);
    }
}

/// A canonical path is the canonical path through its own names, and these
/// are names.
pub proof fn lemma_absolute_components(s: Seq<char>)
    requires
        is_canonical(s),
    ensures
        absolute(components(s)) == s,
        names_from(components(s), 0),
{
    if s != root() {
        let segs = split(s);
        lemma_join_split(s);
        assert(segs[0] == Seq::<char>::empty());
        assert(seq![Seq::<char>::empty()] + segs.drop_first() == segs);
        assert forall|j: int| 0 <= j < components(s).len() implies is_name(
            #[trigger] components(s)[j],
        ) by {
            assert(components(s)[j] == segs[j + 1]);
        }
    }
}

/// The path through a sequence of names is canonical and has these names.
pub proof fn lemma_components_absolute(names: Seq<Seq<char>>)
    requires
        names_from(names, 0),
    ensures
        is_canonical(absolute(names)),
        components(absolute(names)) == names,
{
    if names.len() > 0 {
        let parts = seq![Seq::<char>::empty()] + names;
        assert forall|j: int| 0 <= j < parts.len() implies !(#[trigger] parts[j]).contains(
            '/',
        ) by {
            if j > 0 {
                assert(parts[j] == names[j - 1]);
                assert(is_name(names[j - 1]));
            }
        }
        lemma_split_join(parts);
        assert(parts.drop_first() == names);
        assert forall|j: int| 1 <= j < parts.len() implies is_name(#[trigger] parts[j]) by {
            assert(parts[j] == names[j - 1]);
        }
        assert(absolute(names) != root()) by {
            if absolute(names) == root() {
                assert(root().len() == 1);
                assert(root().drop_last().len() == 0);
                assert(split(root()) == seq![Seq::<char>::empty(), Seq::<char>::empty()]) by {
                    assert(root().last() == '/');
                    assert(split(root().drop_last()) == seq![Seq::<char>::empty()]);
                }
                assert(parts[1] == names[0]);
                assert(is_name(names[0]));
            }
        }
    }
}

/// The first `common_len` names of two paths are the same.
proof fn lemma_common_prefix(a: Seq<Seq<char>>, b: Seq<Seq<char>>)
    ensures
        common_len(a, b) <= a.len(),
        common_len(a, b) <= b.len(),
        a.take(common_len(a, b) as int) == b.take(common_len(a, b) as int),
    decreases a.len(),
{
    if a.len() > 0 && b.len() > 0 && a[0] == b[0] {
        let a1 = a.drop_first();
        let b1 = b.drop_first();
        lemma_common_prefix(a1, b1);
        let c = common_len(a1, b1) as int;
        assert(a.take(c + 1) == seq![a[0]] + a1.take(c));
        assert(b.take(c + 1) == seq![b[0]] + b1.take(c));
    } else {
        assert(a.take(0) == b.take(0));
    }
}

/// The relative path from a tag directory to an item leads, when followed
/// from the tag directory, to exactly the item. This holds whatever the two
/// paths share: nothing but the root, a common ancestor, or one lying inside
/// the other.
pub proof fn lemma_relative_resolves(tag: Seq<char>, item: Seq<char>)
    requires
        is_canonical(tag),
        is_canonical(item),
    ensures
        resolve_text(tag, relative_text(tag, item)) == item,
{
    let t = components(tag);
    let i = components(item);
    let c = common_len(t, i);
    lemma_common_prefix(t, i);
    lemma_absolute_components(tag);
    lemma_absolute_components(item);
    let climb = ups((t.len() - c) as nat);
    let rest = i.skip(c as int);
    let segs = relative_segments(t, i);
    assert(segs == climb + rest);
    assert(names_from(rest, 0)) by {
        assert forall|j: int| 0 <= j < rest.len() implies is_name(#[trigger] rest[j]) by {
            assert(rest[j] == i[j + c]);
        }
    }
    lemma_walk_concat(t, climb, rest);
    lemma_walk_ups(t, (t.len() - c) as nat);
    lemma_walk_names(t.take(c as int), rest);
    assert(i.take(c as int) + i.skip(c as int) == i);
    assert(walk(t, segs) == i);
    if segs.len() == 0 {
        let d = dot();
        assert(d.drop_last().len() == 0);
        assert(split(d.drop_last()) == seq![Seq::<char>::empty()]);
        assert(d.last() == '.');
        assert(split(d) == seq![d]) by {
            assert(seq![Seq::<char>::empty()].drop_last().push(
                Seq::<char>::empty().push('.'),
            ) == seq![d]);
        }
        assert(seq![d].drop_last() == Seq::<Seq<char>>::empty());
        assert(walk(t, seq![d]) == step(walk(t, seq![d].drop_last()), d));
        assert(d != dotdot()) by {
            assert(d.len() == 1);
            assert(dotdot().len() == 2);
        }
        assert(walk(t, seq![d]) == t);
    } else {
        assert forall|j: int| 0 <= j < segs.len() implies !(#[trigger] segs[j]).contains('/') by {
            if j < climb.len() {
                assert(segs[j] == dotdot());
                assert(dotdot()[0] == '.' && dotdot()[1] == '.');
            } else {
                assert(segs[j] == rest[j - climb.len()]);
                assert(is_name(rest[j - climb.len()]));
            }
        }
        lemma_split_join(segs);
    }
}

/// An entry with a proper name, in a canonical directory, has a canonical
/// path: that of the directory with the name added.
pub proof fn lemma_child_canonical(dir: Seq<char>, name: Seq<char>)
    requires
        is_canonical(dir),
        is_name(name),
    ensures
        is_canonical(child_text(dir, name)),
        components(child_text(dir, name)) == components(dir).push(name),
{
    lemma_absolute_components(dir);
    let names = components(dir).push(name);
    assert(names_from(names, 0)) by {
        assert forall|j: int| 0 <= j < names.len() implies is_name(#[trigger] names[j]) by {
            if j < components(dir).len() {
                assert(names[j] == components(dir)[j]);
            }
        }
    }
    lemma_components_absolute(names);
    let empty = Seq::<char>::empty();
    let parts = seq![empty] + names;
    assert(parts.drop_last() == seq![empty] + components(dir));
    assert(parts.last() == name);
    if dir == root() {
        assert(parts.drop_last() == seq![empty]);
        assert(join(parts.drop_last()) == empty);
        assert(empty + seq!['/'] + name == dir + name);
    } else {
        assert(join(parts.drop_last()) == dir);
    }
    assert(absolute(names) == child_text(dir, name));
}

/// The path of an entry with a proper name lies directly inside its directory.
pub proof fn lemma_child_is_entry(dir: Seq<char>, name: Seq<char>)
    requires
        is_name(name),
    ensures
        entry_name(dir, child_text(dir, name)) == name,
        is_entry_of(dir, child_text(dir, name)),
{
    if dir == root() {
        assert((dir + name).skip(1) == name);
    } else {
        assert((dir + seq!['/'] + name).skip(dir.len() as int + 1) == name);
    }
}

} // verus!
