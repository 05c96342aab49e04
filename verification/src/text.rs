//! Names and paths as sequences of characters: dictionary order, fragments,
//! joining and splitting.

use vstd::prelude::*;
use vstd::string::*;

verus! {

/// `a` and `b` hold the same characters at every position below `k`.
pub open spec fn agree_below(a: Seq<char>, b: Seq<char>, k: int) -> bool {
    &&& 0 <= k <= a.len()
    &&& k <= b.len()
    &&& forall|i: int| 0 <= i < k ==> a[i] == b[i]
}

/// At position `k`, the first where they can differ, `a` ends or holds the
/// smaller character.
pub open spec fn smaller_at(a: Seq<char>, b: Seq<char>, k: int) -> bool {
    &&& agree_below(a, b, k)
    &&& k < b.len()
    &&& (k == a.len() || a[k] < b[k])
}

/// Dictionary order on texts, character by character, a proper prefix first.
pub open spec fn text_precedes(a: Seq<char>, b: Seq<char>) -> bool {
    exists|k: int| smaller_at(a, b, k)
}

/// No text precedes itself, and of two texts at most one precedes the other.
pub proof fn lemma_text_order_asymmetric(a: Seq<char>, b: Seq<char>)
    ensures
        !(text_precedes(a, b) && text_precedes(b, a)),
        !text_precedes(a, a),
{
    if text_precedes(a, b) && text_precedes(b, a) {
        let k = choose|k: int| smaller_at(a, b, k);
        let m = choose|m: int| smaller_at(b, a, m);
        if k < m {
            assert(b[k] == a[k]);
        } else if m < k {
            assert(a[m] == b[m]);
        }
    }
    if text_precedes(a, a) {
        let k = choose|k: int| smaller_at(a, a, k);
    }
}

/// Dictionary order is transitive.
pub proof fn lemma_text_order_transitive(a: Seq<char>, b: Seq<char>, c: Seq<char>)
    requires
        text_precedes(a, b),
        text_precedes(b, c),
    ensures
        text_precedes(a, c),
{
    let k = choose|k: int| smaller_at(a, b, k);
    let m = choose|m: int| smaller_at(b, c, m);
    let n = if k <= m { k } else { m };
    assert forall|i: int| 0 <= i < n implies a[i] == c[i] by {
        assert(a[i] == b[i]);
        assert(b[i] == c[i]);
    }
    if k < m {
        assert(b[k] == c[k]);
    }
    assert(smaller_at(a, c, n));
}

/// Two different texts are ordered one way or the other.
pub proof fn lemma_text_order_total(a: Seq<char>, b: Seq<char>)
    ensures
        a == b || text_precedes(a, b) || text_precedes(b, a),
{
    lemma_ordered_from(a, b, 0);
}

/// Two different texts that agree below `k` are ordered one way or the other.
proof fn lemma_ordered_from(a: Seq<char>, b: Seq<char>, k: int)
    requires
        agree_below(a, b, k),
    ensures
        a == b || text_precedes(a, b) || text_precedes(b, a),
    decreases a.len() - k,
{
    if k == a.len() {
        if k == b.len() {
            assert(a =~= b);
        } else {
            assert(smaller_at(a, b, k));
        }
    } else if k == b.len() {
        assert(agree_below(b, a, k));
        assert(smaller_at(b, a, k));
    } else if a[k] == b[k] {
        lemma_ordered_from(a, b, k + 1);
    } else if a[k] < b[k] {
        assert(smaller_at(a, b, k));
    } else {
        assert(agree_below(b, a, k));
        assert(smaller_at(b, a, k));
    }
}

/// The characters of `s`, in order.
pub fn to_chars(s: &str) -> (v: Vec<char>)
    ensures
        v@ == s@,
{
    let mut v: Vec<char> = Vec::new();
    for c in it: s.chars()
        invariant
            v@ == it.seq().take(it.index() as int),
    {
        v.push(c);
    }
    v
}

/// Whether `a` comes before `b` in dictionary order.
pub fn chars_precede(a: &Vec<char>, b: &Vec<char>) -> (r: bool)
    ensures
        r == text_precedes(a@, b@),
{
    let mut i: usize = 0;
    while i < a.len() && i < b.len() && a[i] == b[i]
        invariant
            agree_below(a@, b@, i as int),
        decreases a.len() - i,
    {
        i += 1;
    }
    let r = i < b.len() && (i == a.len() || a[i] < b[i]);
    proof {
        if r {
            assert(smaller_at(a@, b@, i as int));
        } else {
            assert forall|k: int| !smaller_at(a@, b@, k) by {
                if smaller_at(a@, b@, k) {
                    if k < i {
                        assert(a@[k] == b@[k]);
                    } else if k > i {
                        if i < a.len() && i < b.len() {
                            assert(a@[i as int] == b@[i as int]);
                        }
                    }
                }
            }
        }
    }
    r
}

/// Whether the name `a` comes before the name `b` in dictionary order.
pub fn name_precedes(a: &str, b: &str) -> (r: bool)
    ensures
        r == text_precedes(a@, b@),
{
    let x = to_chars(a);
    let y = to_chars(b);
    chars_precede(&x, &y)
}

/// `needle` stands in `hay` at position `i`.
pub open spec fn occurs_at(needle: Seq<char>, hay: Seq<char>, i: int) -> bool {
    &&& 0 <= i
    &&& i + needle.len() <= hay.len()
    &&& forall|j: int| 0 <= j < needle.len() ==> hay[i + j] == needle[j]
}

/// `needle` stands somewhere in `hay`. The empty text stands in every text.
pub open spec fn occurs_in(needle: Seq<char>, hay: Seq<char>) -> bool {
    exists|i: int| occurs_at(needle, hay, i)
}

/// Whether `needle` stands in `hay` at position `i`.
pub(crate) fn chars_occur_at(needle: &Vec<char>, hay: &Vec<char>, i: usize) -> (r: bool)
    requires
        i + needle.len() <= hay.len(),
    ensures
        r == occurs_at(needle@, hay@, i as int),
{
    let mut j: usize = 0;
    while j < needle.len()
        invariant
            j <= needle.len(),
            i + needle.len() <= hay.len(),
            forall|m: int| 0 <= m < j ==> hay@[i + m] == needle@[m],
        decreases needle.len() - j,
    {
        if hay[i + j] != needle[j] {
            return false;
        }
        j += 1;
    }
    true
}

/// Whether `needle` stands somewhere in `hay`.
pub fn chars_occur_in(needle: &Vec<char>, hay: &Vec<char>) -> (r: bool)
    ensures
        r == occurs_in(needle@, hay@),
{
    if needle.len() > hay.len() {
        return false;
    }
    let last: usize = hay.len() - needle.len();
    let mut i: usize = 0;
    while i <= last
        invariant
            i <= last + 1,
            last + needle.len() == hay.len(),
            forall|m: int| 0 <= m < i ==> !occurs_at(needle@, hay@, m),
        decreases last + 1 - i,
    {
        if chars_occur_at(needle, hay, i) {
            return true;
        }
        i += 1;
    }
    false
}

/// A name pattern: a fragment of text. A path matches it when the fragment
/// stands somewhere in the path; the empty fragment matches every path.
#[derive(Clone, Debug, PartialEq, Eq)]
pub struct Pattern {
    pub fragment: Vec<char>,
}

impl View for Pattern {
    type V = Seq<char>;

    open spec fn view(&self) -> Seq<char> {
        self.fragment@
    }
}

impl Pattern {
    /// The pattern that matches the paths holding `fragment`.
    pub fn new(fragment: &str) -> (p: Pattern)
        ensures
            p@ == fragment@,
    {
        Pattern { fragment: to_chars(fragment) }
    }

    /// Whether `path` matches the pattern.
    pub fn is_match(&self, path: &str) -> (r: bool)
        ensures
            r == occurs_in(self@, path@),
    {
        let hay = to_chars(path);
        chars_occur_in(&self.fragment, &hay)
    }
}

/// A name is hidden when it starts with a dot.
pub open spec fn hidden_name(name: Seq<char>) -> bool {
    name.len() > 0 && name[0] == '.'
}

/// Whether `name` starts with a dot.
pub fn is_hidden(name: &str) -> (r: bool)
    ensures
        r == hidden_name(name@),
{
    !name.is_empty() && name.get_char(0) == '.'
}

/// The path of the entry `name` inside the directory `base`: the two joined
/// by one separator, which an empty `base` and one that ends in a separator
/// do not take.
pub open spec fn joined(base: Seq<char>, name: Seq<char>) -> Seq<char> {
    if base.len() == 0 {
        name
    } else if base.last() == '/' {
        base + name
    } else {
        base + seq!['/'] + name
    }
}

/// The path of the entry `name` inside the directory `base`.
pub fn join_path(base: &str, name: &str) -> (path: String)
    ensures
        path@ == joined(base@, name@),
{
    let n: usize = base.unicode_len();
    if n == 0 {
        assert(base@ =~= Seq::<char>::empty());
        return name.to_owned();
    }
    let mut path = base.to_owned();
    if base.get_char(n - 1) != '/' {
        proof {
            reveal_strlit("/");
        }
        path.append("/");
        assert("/"@ =~= seq!['/']);
    }
    path.append(name);
    path
}

/// The part of `path` behind its last separator.
pub open spec fn after_last_separator(path: Seq<char>) -> Seq<char>
    decreases path.len(),
{
    if path.len() == 0 {
        path
    } else if path.last() == '/' {
        Seq::empty()
    } else {
        after_last_separator(path.drop_last()).push(path.last())
    }
}

/// The last component of `path`: what stands behind its last separator, or
/// the whole path where nothing stands there.
pub open spec fn base_name(path: Seq<char>) -> Seq<char> {
    if after_last_separator(path).len() == 0 {
        path
    } else {
        after_last_separator(path)
    }
}

/// Behind the last separator stands the rest of the path from the first
/// position after which no separator comes.
pub proof fn lemma_after_last_separator(path: Seq<char>, k: int)
    requires
        0 <= k <= path.len(),
        k == 0 || path[k - 1] == '/',
        forall|i: int| k <= i < path.len() ==> path[i] != '/',
    ensures
        after_last_separator(path) == path.skip(k),
    decreases path.len(),
{
    if path.len() == 0 {
        assert(path.skip(k) =~= path);
    } else if k == path.len() {
        assert(path.skip(k) =~= Seq::<char>::empty());
    } else {
        lemma_after_last_separator(path.drop_last(), k);
        assert(path.drop_last().skip(k).push(path.last()) =~= path.skip(k));
    }
}

/// The last component of `path`.
pub fn last_component(path: &str) -> (name: String)
    ensures
        name@ == base_name(path@),
{
    let chars = to_chars(path);
    let n: usize = chars.len();
    let mut k: usize = n;
    while k > 0 && chars[k - 1] != '/'
        invariant
            k <= n,
            n == chars.len(),
            forall|i: int| k <= i < n ==> chars@[i] != '/',
        decreases k,
    {
        k -= 1;
    }
    proof {
        lemma_after_last_separator(chars@, k as int);
    }
    if k == n {
        path.to_owned()
    } else {
        let tail = path.substring_char(k, n);
        assert(path@.subrange(k as int, n as int) =~= path@.skip(k as int));
        tail.to_owned()
    }
}

/// The texts of `list`, in order.
pub open spec fn texts(list: Seq<String>) -> Seq<Seq<char>> {
    list.map_values(|s: String| s@)
}

/// Whether `path` is one of `list`.
pub fn holds_text(list: &Vec<String>, path: &String) -> (r: bool)
    ensures
        r == texts(list@).contains(path@),
{
    let mut i: usize = 0;
    while i < list.len()
        invariant
            i <= list.len(),
            forall|m: int| 0 <= m < i ==> texts(list@)[m] != path@,
        decreases list.len() - i,
    {
        if list[i] == *path {
            assert(texts(list@)[i as int] == path@);
            return true;
        }
        i += 1;
    }
    false
}

} // verus!
