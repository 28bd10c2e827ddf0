//! Relative archive paths: components separated by `/`, no leading
//! separator, no trailing separator. The empty path is the archive root.
use vstd::prelude::*;

verus! {

/// `k` lies at or below `p`, comparing whole components (`a/bc` is not
/// below `a/b`). Every path lies below the root.
pub open spec fn under(k: Seq<char>, p: Seq<char>) -> bool {
    ||| p.len() == 0
    ||| k == p
    ||| (p.len() < k.len() && k.take(p.len() as int) == p && k[p.len() as int] == '/')
}

/// `k` relative to `p`, for a `k` that lies below `p`.
pub open spec fn strip(k: Seq<char>, p: Seq<char>) -> Seq<char> {
    if p.len() == 0 {
        k
    } else if k.len() <= p.len() {
        Seq::empty()
    } else {
        k.subrange(p.len() as int + 1, k.len() as int)
    }
}

/// `c` appended to `p` as a further component.
pub open spec fn join(p: Seq<char>, c: Seq<char>) -> Seq<char> {
    if p.len() == 0 {
        c
    } else {
        p + seq!['/'] + c
    }
}

pub open spec fn has_sep(s: Seq<char>) -> bool {
    exists|i: int| 0 <= i < s.len() && s[i] == '/'
}

pub open spec fn is_first_sep(s: Seq<char>, i: int) -> bool {
    &&& 0 <= i < s.len()
    &&& s[i] == '/'
    &&& forall|j: int| 0 <= j < i ==> s[j] != '/'
}

pub open spec fn is_last_sep(s: Seq<char>, i: int) -> bool {
    &&& 0 <= i < s.len()
    &&& s[i] == '/'
    &&& forall|j: int| i < j < s.len() ==> s[j] != '/'
}

/// The first component of `s`.
pub open spec fn first_component(s: Seq<char>) -> Seq<char> {
    if has_sep(s) {
        s.take(choose|i: int| is_first_sep(s, i))
    } else {
        s
    }
}

/// The last component of `s`.
pub open spec fn basename(s: Seq<char>) -> Seq<char> {
    if has_sep(s) {
        s.subrange((choose|i: int| is_last_sep(s, i)) + 1, s.len() as int)
    } else {
        s
    }
}

/// `s` without its last component; the root for a single component.
pub open spec fn parent(s: Seq<char>) -> Seq<char> {
    if has_sep(s) {
        s.take(choose|i: int| is_last_sep(s, i))
    } else {
        Seq::empty()
    }
}

/// `needle` occurs in `hay` as a contiguous run.
pub open spec fn contains(hay: Seq<char>, needle: Seq<char>) -> bool {
    exists|i: int| 0 <= i <= hay.len() - needle.len() && #[trigger] hay.subrange(i, i + needle.len()) == needle
}

/// A path joined below `p` lies below `p`, and stripping `p` gives back
/// what was joined.
pub proof fn lemma_join_under(p: Seq<char>, x: Seq<char>)
    ensures
        under(join(p, x), p),
        strip(join(p, x), p) == x,
{
    if p.len() > 0 {
        let j = join(p, x);
        assert(j.take(p.len() as int) =~= p);
        assert(j[p.len() as int] == '/');
        assert(j.subrange(p.len() as int + 1, j.len() as int) =~= x);
    }
}

/// The lower-case form of `s`, as Unicode defines it.
pub uninterp spec fn lower_of(s: Seq<char>) -> Seq<char>;

/// Relies on `str::to_lowercase`: the lower-case form depends on the
/// characters alone, and the empty string stays empty.
#[verifier::external_body]
pub(crate) fn lowercase(s: &str) -> (r: String)
    ensures
        r@ == lower_of(s@),
        s@.len() == 0 ==> r@.len() == 0,
{
    s.to_lowercase()
}

/// The characters of `s`, one by one.
pub fn chars_of(s: &str) -> (r: Vec<char>)
    ensures
        r@ == s@,
{
    let mut out: Vec<char> = Vec::new();
    for c in it: s.chars()
        invariant
            out@ == it.seq().take(it.index() as int),
    {
        out.push(c);
    }
    assert(out@ == s@);
    out
}

fn chars_under(k: &[char], p: &[char]) -> (r: bool)
    ensures
        r == under(k@, p@),
{
    if p.len() == 0 {
        return true;
    }
    if p.len() > k.len() {
        return false;
    }
    let mut i: usize = 0;
    while i < p.len()
        invariant
            p.len() <= k.len(),
            0 <= i <= p.len(),
            k@.take(i as int) == p@.take(i as int),
        decreases p.len() - i,
    {
        if k[i] != p[i] {
            assert(k@.take(p.len() as int)[i as int] != p@[i as int]);
            return false;
        }
        assert(k@.take(i + 1) == k@.take(i as int).push(k@[i as int]));
        assert(p@.take(i + 1) == p@.take(i as int).push(p@[i as int]));
        i = i + 1;
    }
    assert(p@.take(p.len() as int) == p@);
    if k.len() == p.len() {
        assert(k@ == k@.take(k.len() as int));
        true
    } else {
        k[p.len()] == '/'
    }
}

/// Whether `k` lies at or below `p`.
pub fn is_under(k: &str, p: &str) -> (r: bool)
    ensures
        r == under(k@, p@),
{
    let kc = chars_of(k);
    let pc = chars_of(p);
    chars_under(kc.as_slice(), pc.as_slice())
}

/// `k` relative to `p`.
pub fn strip_under(k: &str, p: &str) -> (r: String)
    requires
        under(k@, p@),
    ensures
        r@ == strip(k@, p@),
{
    let pl = p.unicode_len();
    let kl = k.unicode_len();
    if pl == 0 {
        k.to_owned()
    } else if kl <= pl {
        String::new()
    } else {
        k.substring_char(pl + 1, kl).to_owned()
    }
}

/// `c` appended to `p` as a further component.
pub fn join_path(p: &str, c: &str) -> (r: String)
    ensures
        r@ == join(p@, c@),
{
    if p.unicode_len() == 0 {
        c.to_owned()
    } else {
        let mut r = p.to_owned();
        r.append("/");
        r.append(c);
        proof {
            reveal_strlit("/");
        }
        r
    }
}

/// The position of the first separator of `s`, or its length when it has none.
fn first_sep_pos(s: &[char]) -> (r: usize)
    ensures
        r <= s.len(),
        r < s.len() ==> is_first_sep(s@, r as int),
        r == s.len() ==> !has_sep(s@),
        s@.take(r as int) == first_component(s@),
{
    let mut i: usize = 0;
    while i < s.len() && s[i] != '/'
        invariant
            0 <= i <= s.len(),
            forall|j: int| 0 <= j < i ==> s@[j] != '/',
        decreases s.len() - i,
    {
        i = i + 1;
    }
    if i < s.len() {
        assert(is_first_sep(s@, i as int));
        let ghost c = choose|j: int| is_first_sep(s@, j);
        assert(c == i) by {
            if c < i {
                assert(s@[c] != '/');
            } else if c > i {
                assert(s@[i as int] != '/');
            }
        }
    } else {
        assert(s@.take(i as int) == s@);
    }
    i
}

/// The position of the last separator of `s`, if any.
fn last_sep_pos(s: &[char]) -> (r: Option<usize>)
    ensures
        r is Some <==> has_sep(s@),
        r is Some ==> r->0 < s.len() && is_last_sep(s@, r->0 as int) && r->0 == (choose|i: int|
            is_last_sep(s@, i)),
{
    let mut i: usize = s.len();
    while i > 0 && s[i - 1] != '/'
        invariant
            0 <= i <= s.len(),
            forall|j: int| i <= j < s.len() ==> s@[j] != '/',
        decreases i,
    {
        i = i - 1;
    }
    if i == 0 {
        None
    } else {
        let ghost w = (i - 1) as int;
        assert(is_last_sep(s@, w));
        let ghost c = choose|j: int| is_last_sep(s@, j);
        assert(c == w) by {
            if c < w {
                assert(s@[w] != '/');
            } else if c > w {
                assert(s@[c] != '/');
            }
        }
        Some(i - 1)
    }
}

/// The first component of `s`.
pub fn first_component_of(s: &str) -> (r: String)
    ensures
        r@ == first_component(s@),
{
    let sc = chars_of(s);
    let n = first_sep_pos(sc.as_slice());
    s.substring_char(0, n).to_owned()
}

/// The last component of `s`.
pub fn basename_of(s: &str) -> (r: String)
    ensures
        r@ == basename(s@),
{
    let sc = chars_of(s);
    match last_sep_pos(sc.as_slice()) {
        Some(i) => s.substring_char(i + 1, sc.len()).to_owned(),
        None => s.to_owned(),
    }
}

/// `s` without its last component.
pub fn parent_of(s: &str) -> (r: String)
    ensures
        r@ == parent(s@),
        has_sep(s@) ==> r@.len() < s@.len() && is_last_sep(s@, r@.len() as int) && r@ == s@.take(
            r@.len() as int,
        ),
{
    let sc = chars_of(s);
    match last_sep_pos(sc.as_slice()) {
        Some(i) => s.substring_char(0, i).to_owned(),
        None => String::new(),
    }
}

/// Whether `s` has more than one component.
pub fn has_parent(s: &str) -> (r: bool)
    ensures
        r == has_sep(s@),
{
    let sc = chars_of(s);
    last_sep_pos(sc.as_slice()).is_some()
}

fn matches_at(hay: &[char], needle: &[char], at: usize) -> (r: bool)
    requires
        at + needle.len() <= hay.len(),
    ensures
        r == (hay@.subrange(at as int, at + needle.len()) == needle@),
{
    let mut k: usize = 0;
    while k < needle.len()
        invariant
            at + needle.len() <= hay.len(),
            0 <= k <= needle.len(),
            hay@.subrange(at as int, at + k) == needle@.take(k as int),
        decreases needle.len() - k,
    {
        if hay[at + k] != needle[k] {
            assert(hay@.subrange(at as int, at + needle.len())[k as int] != needle@[k as int]);
            return false;
        }
        assert(hay@.subrange(at as int, at + k + 1) == hay@.subrange(at as int, at + k).push(
            hay@[at + k],
        ));
        assert(needle@.take(k + 1) == needle@.take(k as int).push(needle@[k as int]));
        k = k + 1;
    }
    assert(needle@.take(needle.len() as int) == needle@);
    true
}

fn chars_contain(hay: &[char], needle: &[char]) -> (r: bool)
    ensures
        r == contains(hay@, needle@),
{
    if needle.len() > hay.len() {
        return false;
    }
    let last = hay.len() - needle.len();
    let mut i: usize = 0;
    while i <= last
        invariant
            last == hay.len() - needle.len(),
            0 <= i <= last + 1,
            forall|j: int| 0 <= j < i ==> #[trigger] hay@.subrange(j, j + needle.len()) != needle@,
        decreases last + 1 - i,
    {
        if matches_at(hay, needle, i) {
            return true;
        }
        if i == last {
            return false;
        }
        i = i + 1;
    }
    false
}

/// Whether `needle` occurs in `hay`. A case-insensitive match compares the
/// lower-case forms of both.
pub fn name_matches(hay: &str, needle: &str) -> (r: bool)
    ensures
        r == contains(hay@, needle@),
{
    let h = chars_of(hay);
    let n = chars_of(needle);
    chars_contain(h.as_slice(), n.as_slice())
}

} // verus!
