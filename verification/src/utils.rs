//! Root paths: their normal form, and the roots that are left when every
//! path that lies below another one is taken out.

use vstd::prelude::*;
use vstd::string::*;
use crate::text::to_chars;

verus! {

/// The texts between the separators of `path`, the empty ones too.
pub open spec fn pieces(path: Seq<char>) -> Seq<Seq<char>>
    decreases path.len(),
{
    if path.len() == 0 {
        seq![Seq::empty()]
    } else if path.last() == '/' {
        pieces(path.drop_last()).push(Seq::empty())
    } else {
        let before = pieces(path.drop_last());
        before.drop_last().push(before.last().push(path.last()))
    }
}

/// A piece that names something: not empty, and not the single dot that
/// stands for the directory itself.
pub open spec fn is_part(piece: Seq<char>) -> bool {
    piece.len() > 0 && !(piece.len() == 1 && piece[0] == '.')
}

/// Those of `list` that name something, in order.
pub open spec fn parts_among(list: Seq<Seq<char>>) -> Seq<Seq<char>>
    decreases list.len(),
{
    if list.len() == 0 {
        Seq::empty()
    } else if is_part(list.last()) {
        parts_among(list.drop_last()).push(list.last())
    } else {
        parts_among(list.drop_last())
    }
}

/// A path taken apart.
pub ghost struct PathView {
    /// The path starts at the root of the filesystem.
    pub absolute: bool,
    /// The names on the way, in order.
    pub parts: Seq<Seq<char>>,
}

/// `path` taken apart.
pub open spec fn parsed(path: Seq<char>) -> PathView {
    PathView { absolute: path.len() > 0 && path[0] == '/', parts: parts_among(pieces(path)) }
}

/// The names `parts` with one separator between each two.
pub open spec fn strung(parts: Seq<Seq<char>>) -> Seq<char>
    decreases parts.len(),
{
    if parts.len() == 0 {
        Seq::empty()
    } else if parts.len() == 1 {
        parts[0]
    } else {
        strung(parts.drop_last()) + seq!['/'] + parts.last()
    }
}

/// The path written out: a separator first where it is absolute, then its
/// names with one separator between each two; a single dot where it is
/// relative and holds no name.
pub open spec fn rendered(path: PathView) -> Seq<char> {
    if path.absolute {
        seq!['/'] + strung(path.parts)
    } else if path.parts.len() == 0 {
        seq!['.']
    } else {
        strung(path.parts)
    }
}

/// The normal form of `path`: without repeated or trailing separators and
/// without single dots on the way.
pub open spec fn normal_form(path: Seq<char>) -> Seq<char> {
    rendered(parsed(path))
}

/// `above` is `below` or a directory on the way to it.
pub open spec fn covers(above: PathView, below: PathView) -> bool {
    &&& above.absolute == below.absolute
    &&& above.parts.len() <= below.parts.len()
    &&& forall|i: int| 0 <= i < above.parts.len() ==> above.parts[i] == below.parts[i]
}

/// The texts of `path` that the spans mark, in order.
pub open spec fn marked(path: Seq<char>, spans: Seq<(usize, usize)>) -> Seq<Seq<char>> {
    spans.map_values(|span: (usize, usize)| path.subrange(span.0 as int, span.1 as int))
}

/// Every span lies in a text of length `len`.
pub open spec fn spans_within(spans: Seq<(usize, usize)>, len: int) -> bool {
    forall|i: int| 0 <= i < spans.len() ==> (#[trigger] spans[i]).0 <= spans[i].1 <= len
}

/// A path taken apart: its characters, and where in them its names stand.
pub struct ParsedPath {
    text: String,
    chars: Vec<char>,
    absolute: bool,
    spans: Vec<(usize, usize)>,
}

impl ParsedPath {
    /// The characters are those of the text, and the spans mark texts of it.
    pub closed spec fn wf(&self) -> bool {
        self.text@ == self.chars@ && spans_within(self.spans@, self.chars@.len() as int)
    }
}

impl View for ParsedPath {
    type V = PathView;

    closed spec fn view(&self) -> PathView {
        PathView { absolute: self.absolute, parts: marked(self.chars@, self.spans@) }
    }
}

/// Whether the text of `chars` from `from` to `to` names something.
fn names_something(chars: &Vec<char>, from: usize, to: usize) -> (r: bool)
    requires
        from <= to <= chars.len(),
    ensures
        r == is_part(chars@.subrange(from as int, to as int)),
{
    to > from && !(to - from == 1 && chars[from] == '.')
}

/// Takes `path` apart.
pub fn parse_path(path: &str) -> (r: ParsedPath)
    ensures
        r.wf(),
        r@ == parsed(path@),
{
    let chars: Vec<char> = to_chars(path);
    let n: usize = chars.len();
    let absolute: bool = n > 0 && chars[0] == '/';
    let mut spans: Vec<(usize, usize)> = Vec::new();
    let mut start: usize = 0;
    let mut i: usize = 0;
    proof {
        assert(chars@.take(0) =~= Seq::<char>::empty());
        assert(chars@.subrange(0, 0) =~= Seq::<char>::empty());
        assert(pieces(chars@.take(0)).drop_last() =~= Seq::<Seq<char>>::empty());
        assert(marked(chars@, spans@) =~= Seq::<Seq<char>>::empty());
    }
    while i < n
        invariant
            start <= i <= n,
            n == chars.len(),
            spans_within(spans@, n as int),
            pieces(chars@.take(i as int)).len() >= 1,
            pieces(chars@.take(i as int)).last() == chars@.subrange(start as int, i as int),
            marked(chars@, spans@) == parts_among(pieces(chars@.take(i as int)).drop_last()),
        decreases n - i,
    {
        let ghost before = pieces(chars@.take(i as int));
        proof {
            assert(chars@.take(i + 1).drop_last() =~= chars@.take(i as int));
            assert(chars@.take(i + 1).last() == chars@[i as int]);
        }
        if chars[i] == '/' {
            proof {
                assert(before.push(Seq::<char>::empty()).drop_last() =~= before);
                assert(before =~= before.drop_last().push(before.last()));
                assert(chars@.subrange(i + 1, i + 1) =~= Seq::<char>::empty());
            }
            if names_something(&chars, start, i) {
                spans.push((start, i));
                proof {
                    assert(marked(chars@, spans@) =~= parts_among(before.drop_last()).push(before.last()));
                }
            }
            start = i + 1;
        } else {
            proof {
                let grown = before.last().push(chars@[i as int]);
                assert(before.drop_last().push(grown).drop_last() =~= before.drop_last());
                assert(chars@.subrange(start as int, i + 1) =~= grown);
            }
        }
        i += 1;
    }
    let ghost all = pieces(chars@);
    proof {
        assert(chars@.take(n as int) =~= chars@);
        assert(all =~= all.drop_last().push(all.last()));
    }
    if names_something(&chars, start, n) {
        spans.push((start, n));
        proof {
            assert(marked(chars@, spans@) =~= parts_among(all.drop_last()).push(all.last()));
        }
    }
    ParsedPath { text: path.to_owned(), chars, absolute, spans }
}

/// Writes the path out in its normal form.
pub fn render_path(path: &ParsedPath) -> (out: String)
    requires
        path.wf(),
    ensures
        out@ == rendered(path@),
{
    proof {
        reveal_strlit("/");
        reveal_strlit(".");
        assert("/"@ =~= seq!['/']);
        assert("."@ =~= seq!['.']);
    }
    let mut out: String = String::new();
    if path.absolute {
        out.append("/");
    } else if path.spans.len() == 0 {
        return ".".to_owned();
    }
    let ghost lead = out@;
    let ghost parts = marked(path.chars@, path.spans@);
    let mut k: usize = 0;
    proof {
        assert(parts.take(0) =~= Seq::<Seq<char>>::empty());
        assert(lead + strung(parts.take(0)) =~= lead);
    }
    while k < path.spans.len()
        invariant
            k <= path.spans.len(),
            path.wf(),
            "/"@ == seq!['/'],
            parts == marked(path.chars@, path.spans@),
            out@ == lead + strung(parts.take(k as int)),
        decreases path.spans.len() - k,
    {
        let span: (usize, usize) = path.spans[k];
        proof {
            assert(parts.take(k + 1).drop_last() =~= parts.take(k as int));
            assert(parts.take(k + 1).last() == path.text@.subrange(span.0 as int, span.1 as int));
        }
        if k > 0 {
            out.append("/");
        } else {
            assert(strung(parts.take(0)) =~= Seq::<char>::empty());
        }
        out.append(path.text.as_str().substring_char(span.0, span.1));
        proof {
            assert(out@ =~= lead + strung(parts.take(k + 1)));
        }
        k += 1;
    }
    proof {
        assert(parts.take(parts.len() as int) =~= parts);
        if !path.absolute {
            assert(lead =~= Seq::<char>::empty());
            assert(lead + strung(parts) =~= strung(parts));
        }
    }
    out
}

/// Whether two marked texts hold the same characters.
fn same_text(a: &Vec<char>, x: (usize, usize), b: &Vec<char>, y: (usize, usize)) -> (r: bool)
    requires
        x.0 <= x.1 <= a.len(),
        y.0 <= y.1 <= b.len(),
    ensures
        r == (a@.subrange(x.0 as int, x.1 as int) == b@.subrange(y.0 as int, y.1 as int)),
{
    let ghost left = a@.subrange(x.0 as int, x.1 as int);
    let ghost right = b@.subrange(y.0 as int, y.1 as int);
    if x.1 - x.0 != y.1 - y.0 {
        assert(left.len() != right.len());
        return false;
    }
    let len: usize = x.1 - x.0;
    let mut i: usize = 0;
    while i < len
        invariant
            i <= len,
            len == x.1 - x.0,
            len == y.1 - y.0,
            x.1 <= a.len(),
            y.1 <= b.len(),
            left == a@.subrange(x.0 as int, x.1 as int),
            right == b@.subrange(y.0 as int, y.1 as int),
            forall|m: int| 0 <= m < i ==> left[m] == right[m],
        decreases len - i,
    {
        if a[x.0 + i] != b[y.0 + i] {
            assert(left[i as int] != right[i as int]);
            return false;
        }
        i += 1;
    }
    assert(left =~= right);
    true
}

/// Whether `above` is `below` or a directory on the way to it.
pub fn is_a_parent_of(above: &ParsedPath, below: &ParsedPath) -> (r: bool)
    requires
        above.wf(),
        below.wf(),
    ensures
        r == covers(above@, below@),
{
    if above.absolute != below.absolute || above.spans.len() > below.spans.len() {
        return false;
    }
    let mut i: usize = 0;
    while i < above.spans.len()
        invariant
            i <= above.spans.len(),
            above.spans.len() <= below.spans.len(),
            above.wf(),
            below.wf(),
            forall|m: int| 0 <= m < i ==> above@.parts[m] == below@.parts[m],
        decreases above.spans.len() - i,
    {
        if !same_text(&above.chars, above.spans[i], &below.chars, below.spans[i]) {
            assert(above@.parts[i as int] != below@.parts[i as int]);
            return false;
        }
        i += 1;
    }
    true
}

/// The paths that `list` stands for, in order.
pub open spec fn path_views(list: Seq<ParsedPath>) -> Seq<PathView> {
    list.map_values(|p: ParsedPath| p@)
}

/// The path at `j` stays a root: no other path of the list lies above it,
/// and the same path does not stand earlier in the list.
pub open spec fn is_kept(forms: Seq<PathView>, j: int) -> bool {
    &&& forall|m: int| 0 <= m < forms.len() && covers(#[trigger] forms[m], forms[j]) ==> forms[m] == forms[j]
    &&& forall|m: int| 0 <= m < j ==> #[trigger] forms[m] != forms[j]
}

/// Those of the first `k` paths that stay roots, in order.
pub open spec fn kept_below(forms: Seq<PathView>, k: int) -> Seq<PathView>
    decreases k,
{
    if k <= 0 {
        Seq::empty()
    } else if is_kept(forms, k - 1) {
        kept_below(forms, k - 1).push(forms[k - 1])
    } else {
        kept_below(forms, k - 1)
    }
}

/// The roots that are left of `paths`: each path that no other one lies
/// above, once, in normal form and in the order of `paths`.
pub open spec fn simplified(paths: Seq<Seq<char>>) -> Seq<Seq<char>> {
    rendered_all(kept_below(parsed_all(paths), paths.len() as int))
}

/// Each of `paths` taken apart.
pub open spec fn parsed_all(paths: Seq<Seq<char>>) -> Seq<PathView> {
    Seq::new(paths.len(), |i: int| parsed(paths[i]))
}

/// Each of `forms` written out.
pub open spec fn rendered_all(forms: Seq<PathView>) -> Seq<Seq<char>> {
    Seq::new(forms.len(), |i: int| rendered(forms[i]))
}

/// Two paths that lie above each other are one path.
pub proof fn lemma_covers_both_ways(a: PathView, b: PathView)
    requires
        covers(a, b),
        covers(b, a),
    ensures
        a == b,
{
    assert(a.parts =~= b.parts);
}

/// Whether the path at `j` stays a root.
pub(crate) fn keeps(forms: &Vec<ParsedPath>, j: usize) -> (r: bool)
    requires
        j < forms.len(),
        forall|m: int| 0 <= m < forms.len() ==> (#[trigger] forms@[m]).wf(),
    ensures
        r == is_kept(path_views(forms@), j as int),
{
    let ghost views = path_views(forms@);
    let mut m: usize = 0;
    while m < forms.len()
        invariant
            m <= forms.len(),
            j < forms.len(),
            views == path_views(forms@),
            forall|i: int| 0 <= i < forms.len() ==> (#[trigger] forms@[i]).wf(),
            forall|i: int| 0 <= i < m && covers(#[trigger] views[i], views[j as int]) ==> views[i] == views[j as int],
            forall|i: int| 0 <= i < m && i < j ==> #[trigger] views[i] != views[j as int],
        decreases forms.len() - m,
    {
        assert(forms@[m as int].wf() && forms@[j as int].wf());
        assert(views[m as int] == forms@[m as int]@ && views[j as int] == forms@[j as int]@);
        if is_a_parent_of(&forms[m], &forms[j]) {
            if is_a_parent_of(&forms[j], &forms[m]) {
                proof {
                    lemma_covers_both_ways(views[m as int], views[j as int]);
                }
                if m < j {
                    return false;
                }
            } else {
                return false;
            }
        } else {
            assert(views[m as int] != views[j as int]) by {
                if views[m as int] == views[j as int] {
                    assert(covers(views[j as int], views[j as int]));
                }
            }
        }
        m += 1;
    }
    true
}

/// The roots that are left of `dirs` when every path that lies below another
/// one, or repeats one, is taken out: in normal form, in the order of `dirs`.
pub fn simplify_dir_names(dirs: &Vec<String>) -> (roots: Vec<String>)
    ensures
        crate::text::texts(roots@) == simplified(crate::text::texts(dirs@)),
{
    let ghost paths = crate::text::texts(dirs@);
    let ghost wanted = parsed_all(paths);
    let mut forms: Vec<ParsedPath> = Vec::new();
    let mut i: usize = 0;
    while i < dirs.len()
        invariant
            i <= dirs.len(),
            forms.len() == i,
            paths == crate::text::texts(dirs@),
            wanted == parsed_all(paths),
            forall|m: int| 0 <= m < i ==> (#[trigger] forms@[m]).wf(),
            forall|m: int| 0 <= m < i ==> (#[trigger] forms@[m])@ == wanted[m],
        decreases dirs.len() - i,
    {
        let form = parse_path(dirs[i].as_str());
        forms.push(form);
        i += 1;
    }
    proof {
        assert(path_views(forms@) =~= wanted);
    }
    let mut roots: Vec<String> = Vec::new();
    let mut j: usize = 0;
    proof {
        assert(crate::text::texts(roots@) =~= rendered_all(kept_below(wanted, 0)));
    }
    while j < forms.len()
        invariant
            j <= forms.len(),
            forms.len() == dirs.len(),
            wanted == path_views(forms@),
            forall|m: int| 0 <= m < forms.len() ==> (#[trigger] forms@[m]).wf(),
            crate::text::texts(roots@) == rendered_all(kept_below(wanted, j as int)),
        decreases forms.len() - j,
    {
        if keeps(&forms, j) {
            assert(forms@[j as int].wf());
            let root: String = render_path(&forms[j]);
            let ghost before = roots@;
            let ghost text = root@;
            roots.push(root);
            proof {
                assert(wanted[j as int] == forms@[j as int]@);
                assert(text == rendered(wanted[j as int]));
                assert(crate::text::texts(roots@) =~= crate::text::texts(before).push(text));
                assert(rendered_all(kept_below(wanted, j as int).push(wanted[j as int])) =~= rendered_all(
                    kept_below(wanted, j as int),
                ).push(text));
                assert(kept_below(wanted, j + 1) == kept_below(wanted, j as int).push(wanted[j as int]));
                assert(crate::text::texts(roots@) =~= rendered_all(kept_below(wanted, j + 1)));
            }
        }
        j += 1;
    }
    proof {
        assert(wanted.len() == paths.len());
    }
    roots
}

/// A path that lies above a path that lies above a third one lies above the
/// third.
pub proof fn lemma_covers_chain(a: PathView, b: PathView, c: PathView)
    requires
        covers(a, b),
        covers(b, c),
    ensures
        covers(a, c),
{
}

/// `x` is one of the first `k` paths, and one that stays a root.
pub open spec fn stays_among(forms: Seq<PathView>, k: int, x: PathView) -> bool {
    exists|j: int| 0 <= j < k && #[trigger] is_kept(forms, j) && forms[j] == x
}

/// Each of the roots that are left is one of the paths, and one that stays a
/// root.
pub proof fn lemma_kept_are_paths(forms: Seq<PathView>, k: int)
    requires
        0 <= k <= forms.len(),
    ensures
        kept_below(forms, k).len() <= k,
        forall|a: int|
            0 <= a < kept_below(forms, k).len() ==> stays_among(forms, k, #[trigger] kept_below(forms, k)[a]),
    decreases k,
{
    if k > 0 {
        lemma_kept_are_paths(forms, k - 1);
        let before = kept_below(forms, k - 1);
        let all = kept_below(forms, k);
        assert forall|a: int| 0 <= a < all.len() implies stays_among(forms, k, #[trigger] all[a]) by {
            if a < before.len() {
                assert(stays_among(forms, k - 1, before[a]));
                let j = choose|j: int| 0 <= j < k - 1 && #[trigger] is_kept(forms, j) && forms[j] == before[a];
                assert(0 <= j < k && is_kept(forms, j) && forms[j] == all[a]);
            } else {
                assert(is_kept(forms, k - 1) && forms[k - 1] == all[a]);
            }
        }
    }
}

/// A path that stays a root is among the roots that are left.
pub proof fn lemma_kept_is_left(forms: Seq<PathView>, k: int, j: int)
    requires
        0 <= j < k <= forms.len(),
        is_kept(forms, j),
    ensures
        kept_below(forms, k).contains(forms[j]),
    decreases k,
{
    let all = kept_below(forms, k);
    if j == k - 1 {
        assert(all[all.len() - 1] == forms[j]);
    } else {
        lemma_kept_is_left(forms, k - 1, j);
        let before = kept_below(forms, k - 1);
        let a = choose|a: int| 0 <= a < before.len() && before[a] == forms[j];
        assert(all[a] == forms[j]);
    }
}

/// Of the roots that are left none lies above another: no root is walked as
/// part of another root.
pub proof fn lemma_roots_lie_apart(forms: Seq<PathView>, a: int, b: int)
    requires
        0 <= a < kept_below(forms, forms.len() as int).len(),
        0 <= b < kept_below(forms, forms.len() as int).len(),
        a != b,
    ensures
        !covers(kept_below(forms, forms.len() as int)[a], kept_below(forms, forms.len() as int)[b]),
{
    lemma_kept_apart_below(forms, forms.len() as int);
}

/// Of the first `k` paths, none that stays a root lies above another one
/// that stays.
proof fn lemma_kept_apart_below(forms: Seq<PathView>, k: int)
    requires
        0 <= k <= forms.len(),
    ensures
        forall|a: int, b: int|
            0 <= a < kept_below(forms, k).len() && 0 <= b < kept_below(forms, k).len() && a != b
                ==> !covers(#[trigger] kept_below(forms, k)[a], #[trigger] kept_below(forms, k)[b]),
    decreases k,
{
    if k > 0 {
        lemma_kept_apart_below(forms, k - 1);
        lemma_kept_are_paths(forms, k - 1);
        let before = kept_below(forms, k - 1);
        let all = kept_below(forms, k);
        let last = forms[k - 1];
        assert forall|a: int, b: int| 0 <= a < all.len() && 0 <= b < all.len() && a != b implies !covers(
            #[trigger] all[a],
            #[trigger] all[b],
        ) by {
            if a < before.len() && b < before.len() {
                assert(all[a] == before[a] && all[b] == before[b]);
            } else {
                let old = if a < before.len() {
                    a
                } else {
                    b
                };
                assert(stays_among(forms, k - 1, before[old]));
                let j = choose|j: int| 0 <= j < k - 1 && #[trigger] is_kept(forms, j) && forms[j] == before[old];
                assert(is_kept(forms, k - 1));
                assert(forms[j] != last);
                if covers(all[a], all[b]) {
                    if a < before.len() {
                        assert(covers(forms[j], forms[k - 1]));
                    } else {
                        assert(covers(forms[k - 1], forms[j]));
                    }
                }
            }
        }
    }
}

/// Above every path lies a path above which lies no other one.
proof fn lemma_topmost_exists(forms: Seq<PathView>, j: int, m: int) -> (r: int)
    requires
        0 <= j < forms.len(),
        0 <= m < forms.len(),
        covers(forms[m], forms[j]),
    ensures
        0 <= r < forms.len(),
        covers(forms[r], forms[j]),
        forall|i: int| 0 <= i < forms.len() && covers(#[trigger] forms[i], forms[r]) ==> forms[i] == forms[r],
    decreases forms[m].parts.len(),
{
    if forall|i: int| 0 <= i < forms.len() && covers(#[trigger] forms[i], forms[m]) ==> forms[i] == forms[m] {
        m
    } else {
        let i = choose|i: int| 0 <= i < forms.len() && covers(#[trigger] forms[i], forms[m]) && forms[i] != forms[m];
        if forms[i].parts.len() == forms[m].parts.len() {
            assert(forms[i].parts =~= forms[m].parts);
        }
        lemma_covers_chain(forms[i], forms[m], forms[j]);
        lemma_topmost_exists(forms, j, i)
    }
}

/// Every path stands somewhere in the list for the first time.
proof fn lemma_first_place(forms: Seq<PathView>, r: int) -> (f: int)
    requires
        0 <= r < forms.len(),
    ensures
        0 <= f <= r,
        forms[f] == forms[r],
        forall|i: int| 0 <= i < f ==> #[trigger] forms[i] != forms[r],
    decreases r,
{
    if exists|i: int| 0 <= i < r && #[trigger] forms[i] == forms[r] {
        let i = choose|i: int| 0 <= i < r && #[trigger] forms[i] == forms[r];
        lemma_first_place(forms, i)
    } else {
        r
    }
}

/// Every path is one of the roots that are left or lies below one of them:
/// nothing that was asked for is lost.
pub proof fn lemma_every_path_is_covered(forms: Seq<PathView>, j: int)
    requires
        0 <= j < forms.len(),
    ensures
        exists|a: int|
            0 <= a < kept_below(forms, forms.len() as int).len() && covers(
                #[trigger] kept_below(forms, forms.len() as int)[a],
                forms[j],
            ),
{
    assert(covers(forms[j], forms[j]));
    let r = lemma_topmost_exists(forms, j, j);
    let f = lemma_first_place(forms, r);
    assert(is_kept(forms, f));
    lemma_kept_is_left(forms, forms.len() as int, f);
    let all = kept_below(forms, forms.len() as int);
    let a = choose|a: int| 0 <= a < all.len() && all[a] == forms[f];
    assert(covers(all[a], forms[j]));
}

} // verus!
