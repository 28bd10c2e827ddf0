//! Archive locators: a local path, or `sftp://user@host[:port]:path`.
use crate::path::chars_of;
use vstd::prelude::*;

verus! {

/// The SSH port used where a locator names none.
pub const DEFAULT_PORT: u64 = 22;

/// Where a remote archive lives.
#[derive(Clone, Debug)]
pub struct SftpTarget {
    pub host: String,
    pub user: String,
    pub port: u64,
    pub path: String,
}

pub open spec fn has_char(s: Seq<char>, c: char) -> bool {
    exists|i: int| 0 <= i < s.len() && s[i] == c
}

pub open spec fn is_first(s: Seq<char>, c: char, i: int) -> bool {
    &&& 0 <= i < s.len()
    &&& s[i] == c
    &&& forall|j: int| 0 <= j < i ==> s[j] != c
}

/// The position of the first `c` in `s`, where there is one.
pub open spec fn first_of(s: Seq<char>, c: char) -> int {
    choose|i: int| is_first(s, c, i)
}

pub open spec fn scheme() -> Seq<char> {
    seq!['s', 'f', 't', 'p', ':', '/', '/']
}

pub open spec fn is_digits(s: Seq<char>) -> bool {
    s.len() > 0 && forall|i: int| 0 <= i < s.len() ==> '0' <= #[trigger] s[i] <= '9'
}

/// The value of decimal digits `s`.
pub open spec fn decimal(s: Seq<char>) -> nat
    decreases s.len(),
{
    if s.len() == 0 {
        0
    } else {
        decimal(s.drop_last()) * 10 + (s.last() as nat - '0' as nat) as nat
    }
}

/// Host, user, port and path of an SFTP locator: after the scheme, the user
/// up to the first `@`, the host up to the first `:`, then an optional port
/// (digits followed by `:`), then the path.
pub open spec fn sftp_parts(s: Seq<char>) -> Option<(Seq<char>, Seq<char>, u64, Seq<char>)> {
    if s.len() < 7 || s.take(7) != scheme() {
        None
    } else {
        let t = s.skip(7);
        if !has_char(t, ':') {
            None
        } else {
            let uhp = t.take(first_of(t, ':'));
            let after = t.skip(first_of(t, ':') + 1);
            if !has_char(uhp, '@') {
                None
            } else {
                let user = uhp.take(first_of(uhp, '@'));
                let host = uhp.skip(first_of(uhp, '@') + 1);
                if has_char(after, ':') && is_digits(after.take(first_of(after, ':'))) && decimal(
                    after.take(first_of(after, ':')),
                ) <= u64::MAX {
                    Some(
                        (
                            host,
                            user,
                            decimal(after.take(first_of(after, ':'))) as u64,
                            after.skip(first_of(after, ':') + 1),
                        ),
                    )
                } else {
                    Some((host, user, DEFAULT_PORT, after))
                }
            }
        }
    }
}

/// The first `c` in `s` at or after `from`.
fn find_from(s: &[char], from: usize, c: char) -> (r: Option<usize>)
    requires
        from <= s.len(),
    ensures
        r is Some <==> has_char(s@.skip(from as int), c),
        r is Some ==> from <= r->0 < s.len() && r->0 - from == first_of(s@.skip(from as int), c),
{
    let ghost t = s@.skip(from as int);
    let mut i: usize = from;
    while i < s.len() && s[i] != c
        invariant
            from <= i <= s.len(),
            t == s@.skip(from as int),
            forall|j: int| from <= j < i ==> s@[j] != c,
        decreases s.len() - i,
    {
        i = i + 1;
    }
    if i < s.len() {
        let ghost w = i - from;
        assert(t[w] == c);
        assert(is_first(t, c, w));
        let ghost f = first_of(t, c);
        assert(f == w) by {
            if f < w {
                assert(t[f] == s@[from + f]);
            } else if f > w {
                assert(t[w] != c);
            }
        }
        Some(i)
    } else {
        assert forall|j: int| 0 <= j < t.len() implies t[j] != c by {
            assert(t[j] == s@[from + j]);
        }
        None
    }
}

/// The value of the digits `s[from..to]`, where they are digits and it fits.
fn port_value(s: &[char], from: usize, to: usize) -> (r: Option<u64>)
    requires
        from <= to <= s.len(),
    ensures
        r is Some <==> is_digits(s@.subrange(from as int, to as int)) && decimal(
            s@.subrange(from as int, to as int),
        ) <= u64::MAX,
        r is Some ==> r->0 == decimal(s@.subrange(from as int, to as int)),
{
    if from == to {
        return None;
    }
    let mut v: u64 = 0;
    let mut i: usize = from;
    while i < to
        invariant
            from <= i <= to <= s.len(),
            forall|j: int| from <= j < i ==> '0' <= #[trigger] s@[j] <= '9',
            v == decimal(s@.subrange(from as int, i as int)),
        decreases to - i,
    {
        let ghost pre = s@.subrange(from as int, i as int);
        let ghost next = s@.subrange(from as int, i + 1);
        assert(next.drop_last() == pre);
        let c = s[i];
        if c < '0' || c > '9' {
            assert(!('0' <= s@.subrange(from as int, to as int)[i - from] <= '9'));
            return None;
        }
        let d = (c as u32 - '0' as u32) as u64;
        if v > (0xFFFF_FFFF_FFFF_FFFFu64 - d) / 10 {
            proof {
                let whole = s@.subrange(from as int, to as int);
                assert(v * 10 + d > 0xFFFF_FFFF_FFFF_FFFFu64) by (nonlinear_arith)
                    requires
                        v > (0xFFFF_FFFF_FFFF_FFFFu64 - d) / 10,
                        d <= 9,
                ;
                assert(decimal(next) == v * 10 + d);
                if is_digits(whole) {
                    lemma_decimal_grows(whole, (i + 1 - from) as int);
                    assert(whole.take(i + 1 - from) == next);
                }
            }
            return None;
        }
        v = v * 10 + d;
        i = i + 1;
    }
    assert(s@.subrange(from as int, to as int) == s@.subrange(from as int, i as int));
    Some(v)
}

/// A longer run of digits is worth at least as much as its beginning.
proof fn lemma_decimal_grows(s: Seq<char>, n: int)
    requires
        0 <= n <= s.len(),
        is_digits(s),
    ensures
        decimal(s.take(n)) <= decimal(s),
    decreases s.len() - n,
{
    if n < s.len() {
        lemma_decimal_grows(s, n + 1);
        assert(s.take(n + 1).drop_last() == s.take(n));
    } else {
        assert(s.take(n) == s);
    }
}

fn has_scheme(cs: &[char]) -> (r: bool)
    ensures
        r == (cs@.len() >= 7 && cs@.take(7) == scheme()),
{
    if cs.len() < 7 {
        return false;
    }
    let ok = cs[0] == 's' && cs[1] == 'f' && cs[2] == 't' && cs[3] == 'p' && cs[4] == ':' && cs[5] == '/'
        && cs[6] == '/';
    proof {
        if ok {
            assert(cs@.take(7) =~= scheme());
        } else {
            assert(cs@.take(7) != scheme()) by {
                if cs@.take(7) == scheme() {
                    assert(cs@.take(7)[0] == 's' && cs@.take(7)[1] == 'f' && cs@.take(7)[2] == 't');
                    assert(cs@.take(7)[3] == 'p' && cs@.take(7)[4] == ':' && cs@.take(7)[5] == '/');
                    assert(cs@.take(7)[6] == '/');
                }
            }
        }
    }
    ok
}

/// The parts of an SFTP locator; none for anything else, which names a
/// local file.
pub fn parse_sftp_url(s: &str) -> (r: Option<SftpTarget>)
    ensures
        match sftp_parts(s@) {
            None => r is None,
            Some((host, user, port, path)) => r is Some && r->0.host@ == host && r->0.user@ == user
                && r->0.port == port && r->0.path@ == path,
        },
{
    let cs = chars_of(s);
    let n = cs.len();
    if !has_scheme(cs.as_slice()) {
        return None;
    }
    let ghost t = s@.skip(7);
    let colon = match find_from(cs.as_slice(), 7, ':') {
        Some(i) => i,
        None => return None,
    };
    let ghost uhp = t.take(first_of(t, ':'));
    assert(uhp =~= s@.subrange(7, colon as int));
    let head = vstd::slice::slice_subrange(cs.as_slice(), 7, colon);
    assert(head@.skip(0) =~= uhp);
    let at = match find_from(head, 0, '@') {
        Some(i) => i + 7,
        None => return None,
    };
    let user = s.substring_char(7, at).to_owned();
    let host = s.substring_char(at + 1, colon).to_owned();
    assert(user@ =~= uhp.take(first_of(uhp, '@')));
    assert(host@ =~= uhp.skip(first_of(uhp, '@') + 1));
    let ghost after = t.skip(first_of(t, ':') + 1);
    assert(after =~= s@.skip(colon + 1));
    match find_from(cs.as_slice(), colon + 1, ':') {
        Some(k) => {
            assert(after.take(first_of(after, ':')) =~= s@.subrange(colon + 1, k as int));
            match port_value(cs.as_slice(), colon + 1, k) {
                Some(port) => {
                    let path = s.substring_char(k + 1, n).to_owned();
                    assert(path@ =~= after.skip(first_of(after, ':') + 1));
                    return Some(SftpTarget { host, user, port, path });
                },
                None => {},
            }
        },
        None => {},
    }
    let path = s.substring_char(colon + 1, n).to_owned();
    assert(path@ =~= after);
    Some(SftpTarget { host, user, port: DEFAULT_PORT, path })
}

} // verus!
