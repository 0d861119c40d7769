//! Names and address order for DNS-SD advertisements.
//!
//! The host label that an advertisement carries is derived from the
//! instance name, and the addresses a resolved service reports are put in
//! the order in which a receiver should try them.
use vstd::prelude::*;
use crate::text::{
    str_chars, push_char, owned, trim, trim_bounds, find_from, find_chars, lemma_find_from_bounds,
};

verus! {

broadcast use vstd::string::group_string_axioms;

/// `s` begins with `p`.
pub open spec fn starts_with(s: Seq<char>, p: Seq<char>) -> bool {
    p.len() <= s.len() && s.take(p.len() as int) == p
}

/// `s` holds the character `c`.
pub open spec fn holds_char(s: Seq<char>, c: char) -> bool {
    exists|i: int| 0 <= i < s.len() && s[i] == c
}

/// Rank of an address text for connecting (lower first): other IPv4
/// addresses, then `172.` addresses, IPv6, link-local, loopback.
pub open spec fn ip_rank(a: Seq<char>) -> u8 {
    if a == "127.0.0.1"@ || a == "::1"@ {
        5
    } else if starts_with(a, "fe80:"@) || starts_with(a, "169.254."@) {
        4
    } else if holds_char(a, ':') {
        3
    } else if starts_with(a, "172."@) {
        1
    } else {
        0
    }
}

/// Whether `s` begins with `p`.
fn text_starts_with(s: &[char], p: &str) -> (r: bool)
    ensures
        r == starts_with(s@, p@),
{
    let pc = str_chars(p);
    if pc.len() > s.len() {
        return false;
    }
    let mut i: usize = 0;
    while i < pc.len()
        invariant
            pc@ == p@,
            pc@.len() <= s@.len(),
            i <= pc@.len(),
            forall|j: int| 0 <= j < i ==> s@[j] == pc@[j],
        decreases pc@.len() - i,
    {
        if s[i] != pc[i] {
            assert(s@.take(p@.len() as int)[i as int] != p@[i as int]);
            return false;
        }
        i = i + 1;
    }
    assert(s@.take(p@.len() as int) =~= p@);
    true
}

/// Whether `s` holds `c`.
fn text_holds(s: &[char], c: char) -> (r: bool)
    ensures
        r == holds_char(s@, c),
{
    let mut i: usize = 0;
    while i < s.len()
        invariant
            i <= s@.len(),
            forall|j: int| 0 <= j < i ==> s@[j] != c,
        decreases s@.len() - i,
    {
        if s[i] == c {
            return true;
        }
        i = i + 1;
    }
    false
}

/// Rank of an address text for connecting: loopback last, then link-local,
/// IPv6, `172.` addresses; other IPv4 addresses first.
pub fn ip_preference(a: &str) -> (r: u8)
    ensures
        r == ip_rank(a@),
{
    let cs = str_chars(a);
    proof {
        reveal_strlit("127.0.0.1");
        reveal_strlit("::1");
    }
    if text_starts_with(cs.as_slice(), "127.0.0.1") && cs.len() == 9 {
        assert(a@ =~= "127.0.0.1"@);
        return 5;
    }
    if text_starts_with(cs.as_slice(), "::1") && cs.len() == 3 {
        assert(a@ =~= "::1"@);
        return 5;
    }
    assert(a@ != "127.0.0.1"@ && a@ != "::1"@) by {
        if a@ == "127.0.0.1"@ {
            assert(a@.take(9) =~= a@);
        }
        if a@ == "::1"@ {
            assert(a@.take(3) =~= a@);
        }
    }
    if text_starts_with(cs.as_slice(), "fe80:") || text_starts_with(cs.as_slice(), "169.254.") {
        4
    } else if text_holds(cs.as_slice(), ':') {
        3
    } else if text_starts_with(cs.as_slice(), "172.") {
        1
    } else {
        0
    }
}

/// The addresses of `s` of rank `p`, in order.
pub open spec fn with_rank(s: Seq<Seq<char>>, p: u8) -> Seq<Seq<char>>
    decreases s.len(),
{
    if s.len() == 0 {
        Seq::empty()
    } else if ip_rank(s.last()) == p {
        with_rank(s.drop_last(), p).push(s.last())
    } else {
        with_rank(s.drop_last(), p)
    }
}

/// The addresses sorted by rank, keeping their order within a rank (a
/// stable sort).
pub open spec fn by_rank(s: Seq<Seq<char>>) -> Seq<Seq<char>> {
    with_rank(s, 0) + with_rank(s, 1) + with_rank(s, 2) + with_rank(s, 3) + with_rank(s, 4)
        + with_rank(s, 5)
}

/// Addresses of `v` with rank `p`, in order.
fn select_rank(v: &Vec<String>, p: u8) -> (r: Vec<String>)
    ensures
        r.deep_view() == with_rank(v.deep_view(), p),
{
    let ghost s = v.deep_view();
    let mut out: Vec<String> = Vec::new();
    let mut i: usize = 0;
    while i < v.len()
        invariant
            i <= v@.len(),
            s == v.deep_view(),
            out.deep_view() == with_rank(s.take(i as int), p),
        decreases v@.len() - i,
    {
        proof {
            assert(s.take(i + 1).drop_last() =~= s.take(i as int));
            assert(s.take(i + 1).last() == s[i as int]);
        }
        if ip_preference(v[i].as_str()) == p {
            out.push(v[i].clone());
            proof {
                assert(out.deep_view() =~= with_rank(s.take(i as int), p).push(s[i as int]));
            }
        }
        i = i + 1;
    }
    proof {
        assert(s.take(s.len() as int) =~= s);
    }
    out
}

/// Append the strings of `w` to `out`.
fn append_all(out: &mut Vec<String>, w: Vec<String>)
    ensures
        final(out).deep_view() == old(out).deep_view() + w.deep_view(),
{
    let ghost start = out.deep_view();
    let mut i: usize = 0;
    while i < w.len()
        invariant
            i <= w@.len(),
            out.deep_view() == start + w.deep_view().take(i as int),
        decreases w@.len() - i,
    {
        let ghost before = out.deep_view();
        out.push(w[i].clone());
        proof {
            assert(w.deep_view()[i as int] == w@[i as int]@);
            assert(w.deep_view().take(i + 1) =~= w.deep_view().take(i as int).push(w@[i as int]@));
            assert(out.deep_view() =~= before.push(w@[i as int]@));
        }
        i = i + 1;
    }
    proof {
        assert(w.deep_view().take(w@.len() as int) =~= w.deep_view());
    }
}

/// The addresses of a resolved service in the order to try them: by
/// [`ip_preference`], keeping the reported order within a rank.
pub fn order_addresses(v: &Vec<String>) -> (r: Vec<String>)
    ensures
        r.deep_view() == by_rank(v.deep_view()),
{
    let mut out = select_rank(v, 0);
    append_all(&mut out, select_rank(v, 1));
    append_all(&mut out, select_rank(v, 2));
    append_all(&mut out, select_rank(v, 3));
    append_all(&mut out, select_rank(v, 4));
    append_all(&mut out, select_rank(v, 5));
    out
}

/// The part of `s` before its first `(`, or all of `s`.
pub open spec fn before_paren(s: Seq<char>) -> Seq<char> {
    match find_from(s, seq!['('], 0) {
        Some(k) => s.take(k),
        None => s,
    }
}

/// The characters kept in a host label: ASCII letters, digits and `-`
/// stay, spaces and `_` become `-`, the rest are dropped.
pub open spec fn label_chars(s: Seq<char>) -> Seq<char>
    decreases s.len(),
{
    if s.len() == 0 {
        Seq::empty()
    } else {
        let c = s.last();
        let head = label_chars(s.drop_last());
        if ('a' <= c <= 'z') || ('A' <= c <= 'Z') || ('0' <= c <= '9') || c == '-' {
            head.push(c)
        } else if c == ' ' || c == '_' {
            head.push('-')
        } else {
            head
        }
    }
}

/// The host label of an instance name `MACHINE (Name)`: the label
/// characters of the trimmed text before the first `(`, or `host`.
pub open spec fn host_label(instance: Seq<char>) -> Seq<char> {
    let l = label_chars(trim(before_paren(instance)));
    if l.len() == 0 {
        "host"@
    } else {
        l
    }
}

/// The host label advertised for an instance name (`MACHINE (Name)` gives
/// `MACHINE`).
pub fn host_label_from_instance(instance: &str) -> (r: String)
    ensures
        r@ == host_label(instance@),
{
    let cs = str_chars(instance);
    let paren = ['('];
    let end: usize = match find_chars(cs.as_slice(), paren.as_slice(), 0) {
        Some(k) => {
            proof {
                lemma_find_from_bounds(cs@, paren@, 0);
                assert(paren@ =~= seq!['(']);
            }
            k
        },
        None => {
            assert(paren@ =~= seq!['(']);
            cs.len()
        },
    };
    assert(cs@.subrange(0, end as int) == before_paren(instance@)) by {
        assert(paren@ =~= seq!['(']);
        if end == cs.len() {
            assert(cs@.subrange(0, end as int) =~= cs@);
        } else {
            assert(cs@.subrange(0, end as int) =~= cs@.take(end as int));
        }
    }
    let (a, b) = trim_bounds(cs.as_slice(), 0, end);
    let ghost t = trim(before_paren(instance@));
    let mut out = String::new();
    let mut i: usize = a;
    while i < b
        invariant
            a <= i <= b <= cs@.len(),
            cs@.subrange(a as int, b as int) == t,
            out@ == label_chars(cs@.subrange(a as int, i as int)),
        decreases b - i,
    {
        let c = cs[i];
        proof {
            assert(cs@.subrange(a as int, i + 1).drop_last() =~= cs@.subrange(a as int, i as int));
            assert(cs@.subrange(a as int, i + 1).last() == c);
        }
        if ('a' <= c && c <= 'z') || ('A' <= c && c <= 'Z') || ('0' <= c && c <= '9') || c == '-' {
            push_char(&mut out, c);
        } else if c == ' ' || c == '_' {
            push_char(&mut out, '-');
        }
        i = i + 1;
    }
    if out.as_str().is_empty() {
        owned("host")
    } else {
        out
    }
}

} // verus!
