//! Lists of sources: ordered by instance name, merged from DNS-SD and a
//! discovery server, and updated from relayed announcements.
use vstd::prelude::*;
use crate::discovery::address::{OmtAddress, address_view, instance_text};
use crate::text::{
    str_chars, key_lt, key_less, lemma_key_lt_irreflexive, lemma_key_lt_transitive,
    lemma_key_lt_total, copy_strings, find_from, find_chars, str_eq,
};

verus! {

broadcast use vstd::string::group_string_axioms;

/// An address as plain values: name, machine name, port, addresses, removed.
pub type AddressModel = (Seq<char>, Seq<char>, u16, Seq<Seq<char>>, bool);

/// The addresses of a list as plain values.
pub open spec fn models(v: Seq<OmtAddress>) -> Seq<AddressModel> {
    v.map_values(|a: OmtAddress| address_view(a))
}

/// The instance name (`MACHINE (Name)`) of an address.
pub open spec fn model_name(m: AddressModel) -> Seq<char> {
    instance_text(m.1, m.0)
}

/// Instance names never decrease along the list.
pub open spec fn name_sorted(s: Seq<AddressModel>) -> bool {
    forall|i: int, j: int|
        0 <= i < j < s.len() ==> !key_lt(#[trigger] model_name(s[j]), #[trigger] model_name(s[i]))
}

/// The addresses of `s` whose instance name is `k`, in order.
pub open spec fn named(s: Seq<AddressModel>, k: Seq<char>) -> Seq<AddressModel> {
    s.filter(|m: AddressModel| model_name(m) == k)
}

/// `r` is `s` sorted by instance name, addresses with one instance name
/// keeping their order (what a stable sort by instance name gives).
pub open spec fn sorted_by_name(r: Seq<AddressModel>, s: Seq<AddressModel>) -> bool {
    &&& name_sorted(r)
    &&& forall|k: Seq<char>| #[trigger] named(r, k) == named(s, k)
}

proof fn lemma_models_push(v: Seq<OmtAddress>, a: OmtAddress)
    ensures
        models(v.push(a)) == models(v).push(address_view(a)),
{
    assert(models(v.push(a)) =~= models(v).push(address_view(a)));
}

/// Inserting `x` where every address before has a name not after `x`'s
/// and every address from there on a name after it keeps the list sorted,
/// and adds `x` at the end of the addresses with its name.
proof fn lemma_insert_upper(s: Seq<AddressModel>, p: int, x: AddressModel)
    requires
        name_sorted(s),
        0 <= p <= s.len(),
        forall|j: int| 0 <= j < p ==> !key_lt(model_name(x), #[trigger] model_name(s[j])),
        forall|j: int| p <= j < s.len() ==> key_lt(model_name(x), #[trigger] model_name(s[j])),
    ensures
        name_sorted(s.insert(p, x)),
        forall|k: Seq<char>|
            #[trigger] named(s.insert(p, x), k) == if k == model_name(x) {
                named(s, k).push(x)
            } else {
                named(s, k)
            },
{
    let t = s.insert(p, x);
    let kx = model_name(x);
    assert forall|i: int, j: int| 0 <= i < j < t.len() implies !key_lt(
        #[trigger] model_name(t[j]),
        #[trigger] model_name(t[i]),
    ) by {
        if i < p && j == p {
        } else if i == p {
            lemma_key_lt_irreflexive(model_name(t[j]));
            if key_lt(model_name(t[j]), kx) {
                lemma_key_lt_transitive(kx, model_name(t[j]), kx);
                lemma_key_lt_irreflexive(kx);
            }
        } else if i < p && j > p {
            assert(t[i] == s[i]);
            assert(t[j] == s[j - 1]);
        } else if j < p {
            assert(t[i] == s[i] && t[j] == s[j]);
        } else {
            assert(t[i] == s[i - 1] && t[j] == s[j - 1]);
        }
    }
    assert(t =~= s.take(p) + seq![x] + s.skip(p));
    assert(s =~= s.take(p) + s.skip(p));
    assert forall|k: Seq<char>| #[trigger] named(t, k) == if k == kx {
        named(s, k).push(x)
    } else {
        named(s, k)
    } by {
        let pred = |m: AddressModel| model_name(m) == k;
        Seq::filter_distributes_over_add(s.take(p) + seq![x], s.skip(p), pred);
        Seq::filter_distributes_over_add(s.take(p), seq![x], pred);
        Seq::filter_distributes_over_add(s.take(p), s.skip(p), pred);
        Seq::<AddressModel>::empty().lemma_filter_push(x, pred);
        assert(Seq::<AddressModel>::empty().push(x) =~= seq![x]);
        reveal(Seq::filter);
        assert(Seq::<AddressModel>::empty().filter(pred) =~= Seq::<AddressModel>::empty());
        if k == kx {
            assert forall|j: int| 0 <= j < s.skip(p).len() implies !pred(#[trigger] s.skip(p)[j]) by {
                assert(s.skip(p)[j] == s[p + j]);
                assert(key_lt(kx, model_name(s[p + j])));
                lemma_key_lt_irreflexive(kx);
            }
            assert(s.skip(p).all(|m: AddressModel| !pred(m)));
            s.skip(p).lemma_all_neg_filter_empty(pred);
            assert(s.skip(p).filter(pred) =~= Seq::<AddressModel>::empty());
            assert(seq![x].filter(pred) =~= seq![x]);
            assert(named(t, k) =~= named(s, k).push(x));
        } else {
            assert(seq![x].filter(pred) =~= Seq::<AddressModel>::empty());
            assert(named(t, k) =~= named(s, k));
        }
    }
}

/// The sources sorted by instance name (`sort_by_key(instance_name)`: a
/// stable sort).
pub fn sort_by_instance(v: &Vec<OmtAddress>) -> (r: Vec<OmtAddress>)
    ensures
        sorted_by_name(models(r@), models(v@)),
{
    let ghost s = models(v@);
    let mut out: Vec<OmtAddress> = Vec::new();
    let mut keys: Vec<Vec<char>> = Vec::new();
    let mut i: usize = 0;
    proof {
        reveal(Seq::filter);
        assert(models(out@) =~= Seq::<AddressModel>::empty());
        assert(s.take(0) =~= Seq::<AddressModel>::empty());
    }
    while i < v.len()
        invariant
            i <= v@.len(),
            s == models(v@),
            keys@.len() == out@.len(),
            forall|j: int| 0 <= j < keys@.len() ==> (#[trigger] keys@[j])@ == model_name(models(out@)[j]),
            name_sorted(models(out@)),
            forall|k: Seq<char>| #[trigger] named(models(out@), k) == named(s.take(i as int), k),
        decreases v@.len() - i,
    {
        let x = v[i].duplicate();
        let kx = str_chars(x.instance_name().as_str());
        let ghost mo = models(out@);
        let mut p: usize = 0;
        while p < keys.len() && !key_less(kx.as_slice(), keys[p].as_slice())
            invariant
                p <= keys@.len(),
                keys@.len() == out@.len(),
                mo == models(out@),
                forall|j: int| 0 <= j < keys@.len() ==> (#[trigger] keys@[j])@ == model_name(mo[j]),
                forall|j: int| 0 <= j < p ==> !key_lt(kx@, #[trigger] model_name(mo[j])),
            decreases keys@.len() - p,
        {
            p = p + 1;
        }
        proof {
            assert(kx@ == model_name(address_view(x)));
            assert forall|j: int| p <= j < mo.len() implies key_lt(kx@, #[trigger] model_name(mo[j])) by {
                assert(key_lt(kx@, model_name(mo[p as int])));
                if j > p {
                    assert(!key_lt(model_name(mo[j]), model_name(mo[p as int])));
                    lemma_key_lt_total(model_name(mo[j]), model_name(mo[p as int]));
                    if model_name(mo[j]) != model_name(mo[p as int]) {
                        lemma_key_lt_transitive(kx@, model_name(mo[p as int]), model_name(mo[j]));
                    }
                }
            }
            lemma_insert_upper(mo, p as int, address_view(x));
            assert(s.take(i + 1) =~= s.take(i as int).push(s[i as int]));
            assert(s[i as int] == address_view(x));
            assert forall|k: Seq<char>| #[trigger] named(s.take(i + 1), k) == if k == kx@ {
                named(s.take(i as int), k).push(address_view(x))
            } else {
                named(s.take(i as int), k)
            } by {
                s.take(i as int).lemma_filter_push(address_view(x), |m: AddressModel| model_name(m) == k);
            }
        }
        out.insert(p, x);
        keys.insert(p, kx);
        proof {
            assert(models(out@) =~= mo.insert(p as int, address_view(x)));
            assert forall|j: int| 0 <= j < keys@.len() implies (#[trigger] keys@[j])@ == model_name(
                models(out@)[j],
            ) by {
                if j < p {
                } else if j == p {
                } else {
                    assert(models(out@)[j] == mo[j - 1]);
                }
            }
        }
        i = i + 1;
    }
    proof {
        assert(s.take(v@.len() as int) =~= s);
    }
    out
}

/// A copy of each address of `v`, in order.
pub fn copy_addresses(v: &Vec<OmtAddress>) -> (r: Vec<OmtAddress>)
    ensures
        models(r@) == models(v@),
{
    let mut out: Vec<OmtAddress> = Vec::new();
    let mut i: usize = 0;
    while i < v.len()
        invariant
            i <= v@.len(),
            models(out@) == models(v@).take(i as int),
        decreases v@.len() - i,
    {
        let a = v[i].duplicate();
        proof {
            lemma_models_push(out@, a);
            assert(models(v@).take(i + 1) =~= models(v@).take(i as int).push(address_view(v@[i as int])));
        }
        out.push(a);
        i = i + 1;
    }
    proof {
        assert(models(v@).take(v@.len() as int) =~= models(v@));
    }
    out
}

/// `have` with the addresses of `more` that it lacks appended, in order.
pub open spec fn add_missing(have: Seq<Seq<char>>, more: Seq<Seq<char>>) -> Seq<Seq<char>>
    decreases more.len(),
{
    if more.len() == 0 {
        have
    } else {
        let h = add_missing(have, more.drop_last());
        if h.contains(more.last()) {
            h
        } else {
            h.push(more.last())
        }
    }
}

/// Position of the first address of `s`, from `i` on, whose instance name is `k`.
pub open spec fn first_named(s: Seq<AddressModel>, k: Seq<char>, i: int) -> Option<int>
    decreases s.len() - i,
{
    if i < 0 || i >= s.len() {
        None
    } else if model_name(s[i]) == k {
        Some(i)
    } else {
        first_named(s, k, i + 1)
    }
}

proof fn lemma_first_named(s: Seq<AddressModel>, k: Seq<char>, i: int)
    requires
        0 <= i,
    ensures
        first_named(s, k, i) matches Some(j) ==> i <= j < s.len() && model_name(s[j]) == k,
    decreases s.len() - i,
{
    if i < s.len() && model_name(s[i]) != k {
        lemma_first_named(s, k, i + 1);
    }
}

/// The list after taking in a server's source `a`: its addresses join
/// those of the first source with the same instance name, or it is added
/// at the end.
pub open spec fn merge_one(s: Seq<AddressModel>, a: AddressModel) -> Seq<AddressModel> {
    match first_named(s, model_name(a), 0) {
        Some(i) => s.update(i, (s[i].0, s[i].1, s[i].2, add_missing(s[i].3, a.3), s[i].4)),
        None => s.push(a),
    }
}

/// The list after taking in each of `more`, in order.
pub open spec fn merge_all(s: Seq<AddressModel>, more: Seq<AddressModel>) -> Seq<AddressModel>
    decreases more.len(),
{
    if more.len() == 0 {
        s
    } else {
        merge_one(merge_all(s, more.drop_last()), more.last())
    }
}

/// `l` has an address with the instance name of `x` that lists every
/// address of `x`.
#[verifier::opaque]
pub open spec fn keeps(l: Seq<AddressModel>, x: AddressModel) -> bool {
    exists|i: int|
        0 <= i < l.len() && model_name(#[trigger] l[i]) == model_name(x) && forall|a: Seq<char>|
            x.3.contains(a) ==> l[i].3.contains(a)
}

proof fn lemma_add_missing_keeps(have: Seq<Seq<char>>, more: Seq<Seq<char>>)
    ensures
        forall|a: Seq<char>| have.contains(a) ==> add_missing(have, more).contains(a),
        forall|a: Seq<char>| more.contains(a) ==> add_missing(have, more).contains(a),
    decreases more.len(),
{
    if more.len() > 0 {
        let d = more.drop_last();
        let x = more.last();
        lemma_add_missing_keeps(have, d);
        let h = add_missing(have, d);
        let r = add_missing(have, more);
        assert(r.contains(x)) by {
            if !h.contains(x) {
                assert(r[h.len() as int] == x);
            }
        }
        assert forall|a: Seq<char>| h.contains(a) implies r.contains(a) by {
            if !h.contains(x) {
                let j = choose|j: int| 0 <= j < h.len() && h[j] == a;
                assert(r[j] == a);
            }
        }
        assert forall|a: Seq<char>| more.contains(a) implies r.contains(a) by {
            let j = choose|j: int| 0 <= j < more.len() && more[j] == a;
            if j < more.len() - 1 {
                assert(d[j] == a);
                assert(d.contains(a));
            }
        }
    }
}

/// Taking in one more address keeps what was kept, and keeps it.
proof fn lemma_merge_one_keeps(l: Seq<AddressModel>, a: AddressModel, x: AddressModel)
    requires
        keeps(l, x),
    ensures
        keeps(merge_one(l, a), x),
        keeps(merge_one(l, a), a),
{
    reveal(keeps);
    let i = choose|i: int|
        0 <= i < l.len() && model_name(#[trigger] l[i]) == model_name(x) && forall|b: Seq<char>|
            x.3.contains(b) ==> l[i].3.contains(b);
    let l2 = merge_one(l, a);
    lemma_first_named(l, model_name(a), 0);
    match first_named(l, model_name(a), 0) {
        Some(p) => {
            lemma_add_missing_keeps(l[p].3, a.3);
            assert(model_name(l2[p]) == model_name(l[p]));
            assert(model_name(l2[i]) == model_name(l[i]));
            assert forall|b: Seq<char>| x.3.contains(b) implies l2[i].3.contains(b) by {
                assert(l[i].3.contains(b));
            }
            assert forall|b: Seq<char>| a.3.contains(b) implies l2[p].3.contains(b) by {}
        },
        None => {
            assert(l2[i] == l[i]);
            assert(l2[l.len() as int] == a);
            assert forall|b: Seq<char>| a.3.contains(b) implies l2[l.len() as int].3.contains(b) by {}
        },
    }
}

/// An address keeps itself in a list that holds it.
proof fn lemma_keeps_member(l: Seq<AddressModel>, i: int)
    requires
        0 <= i < l.len(),
    ensures
        keeps(l, l[i]),
{
    reveal(keeps);
    assert forall|b: Seq<char>| l[i].3.contains(b) implies l[i].3.contains(b) by {}
}

/// Merging loses nothing: every address of either list has, in the merged
/// list, an address with its instance name that lists all its addresses.
pub proof fn lemma_merge_keeps_all(s: Seq<AddressModel>, more: Seq<AddressModel>)
    ensures
        forall|i: int| 0 <= i < s.len() ==> keeps(merge_all(s, more), #[trigger] s[i]),
        forall|j: int| 0 <= j < more.len() ==> keeps(merge_all(s, more), #[trigger] more[j]),
    decreases more.len(),
{
    if more.len() == 0 {
        assert forall|i: int| 0 <= i < s.len() implies keeps(merge_all(s, more), #[trigger] s[i]) by {
            lemma_keeps_member(s, i);
        }
    } else {
        let d = more.drop_last();
        let a = more.last();
        lemma_merge_keeps_all(s, d);
        let m = merge_all(s, d);
        assert forall|i: int| 0 <= i < s.len() implies keeps(merge_all(s, more), #[trigger] s[i]) by {
            lemma_merge_one_keeps(m, a, s[i]);
        }
        assert forall|j: int| 0 <= j < more.len() implies keeps(merge_all(s, more), #[trigger] more[j]) by {
            if j < more.len() - 1 {
                assert(d[j] == more[j]);
                lemma_merge_one_keeps(m, a, more[j]);
            } else if m.len() > 0 {
                lemma_keeps_member(m, 0);
                lemma_merge_one_keeps(m, a, m[0]);
            } else {
                assert(merge_one(m, a) =~= seq![a]);
                lemma_keeps_member(seq![a], 0);
            }
        }
    }
}

/// Sorting by instance name loses nothing that was kept.
pub proof fn lemma_sorted_keeps(r: Seq<AddressModel>, s: Seq<AddressModel>, x: AddressModel)
    requires
        sorted_by_name(r, s),
        keeps(s, x),
    ensures
        keeps(r, x),
{
    reveal(keeps);
    let i = choose|i: int|
        0 <= i < s.len() && model_name(#[trigger] s[i]) == model_name(x) && forall|b: Seq<char>|
            x.3.contains(b) ==> s[i].3.contains(b);
    let k = model_name(x);
    let pred = |m: AddressModel| model_name(m) == k;
    s.lemma_filter_contains(pred, i);
    assert(named(r, k) == named(s, k));
    r.lemma_filter_contains_rev(pred, s[i]);
    let j = choose|j: int| 0 <= j < r.len() && r[j] == s[i];
    assert(model_name(r[j]) == k);
}

/// Whether `v` holds the text `t`.
fn holds_text(v: &Vec<String>, t: &str) -> (r: bool)
    ensures
        r == v.deep_view().contains(t@),
{
    let mut i: usize = 0;
    while i < v.len()
        invariant
            i <= v@.len(),
            forall|j: int| 0 <= j < i ==> v.deep_view()[j] != t@,
        decreases v@.len() - i,
    {
        if str_eq(v[i].as_str(), t) {
            assert(v.deep_view()[i as int] == t@);
            return true;
        }
        i = i + 1;
    }
    false
}

/// Append to `have` the addresses of `more` it lacks.
fn add_missing_into(have: &mut Vec<String>, more: &Vec<String>)
    ensures
        final(have).deep_view() == add_missing(old(have).deep_view(), more.deep_view()),
{
    let ghost start = have.deep_view();
    let mut i: usize = 0;
    while i < more.len()
        invariant
            i <= more@.len(),
            have.deep_view() == add_missing(start, more.deep_view().take(i as int)),
        decreases more@.len() - i,
    {
        proof {
            assert(more.deep_view().take(i + 1).drop_last() =~= more.deep_view().take(i as int));
            assert(more.deep_view().take(i + 1).last() == more@[i as int]@);
        }
        if !holds_text(have, more[i].as_str()) {
            let ghost before = have.deep_view();
            have.push(more[i].clone());
            proof {
                assert(have.deep_view() =~= before.push(more@[i as int]@));
            }
        }
        i = i + 1;
    }
    proof {
        assert(more.deep_view().take(more@.len() as int) =~= more.deep_view());
    }
}

/// Take a server's source into the list (see [`merge_one`]).
fn merge_into(sources: &mut Vec<OmtAddress>, a: &OmtAddress)
    ensures
        models(final(sources)@) == merge_one(models(old(sources)@), address_view(*a)),
{
    let ghost s = models(sources@);
    let ghost k = model_name(address_view(*a));
    let name = a.instance_name();
    let mut i: usize = 0;
    while i < sources.len()
        invariant
            i <= sources@.len(),
            s == models(sources@),
            name@ == k,
            k == model_name(address_view(*a)),
            s == models(old(sources)@),
            first_named(s, k, 0) == first_named(s, k, i as int),
        decreases sources@.len() - i,
    {
        if str_eq(sources[i].instance_name().as_str(), name.as_str()) {
            proof {
                assert(s[i as int] == address_view(sources@[i as int]));
                assert(model_name(s[i as int]) == k);
                assert(first_named(s, k, i as int) == Some(i as int));
            }
            let mut e = sources[i].duplicate();
            add_missing_into(&mut e.addresses, &a.addresses);
            sources.set(i, e);
            proof {
                assert(address_view(e) == (s[i as int].0, s[i as int].1, s[i as int].2, add_missing(s[i as int].3, address_view(*a).3), s[i as int].4));
                assert(models(sources@) =~= s.update(i as int, (s[i as int].0, s[i as int].1, s[i as int].2, add_missing(s[i as int].3, address_view(*a).3), s[i as int].4)));
            }
            return;
        }
        proof {
            assert(s[i as int] == address_view(sources@[i as int]));
        }
        i = i + 1;
    }
    let b = a.duplicate();
    proof {
        lemma_models_push(sources@, b);
    }
    sources.push(b);
}

/// The sources a browse lists: those found by DNS-SD with each source of
/// the discovery server taken in (see [`merge_one`]), sorted by instance
/// name.
pub fn merge_sources(dns: &Vec<OmtAddress>, server: &Vec<OmtAddress>) -> (r: Vec<OmtAddress>)
    ensures
        sorted_by_name(models(r@), merge_all(models(dns@), models(server@))),
        forall|i: int| 0 <= i < dns@.len() ==> keeps(models(r@), #[trigger] models(dns@)[i]),
        forall|j: int|
            0 <= j < server@.len() ==> keeps(models(r@), #[trigger] models(server@)[j]),
{
    let mut sources = copy_addresses(dns);
    let ghost m = models(server@);
    let mut i: usize = 0;
    proof {
        assert(m.take(0) =~= Seq::<AddressModel>::empty());
    }
    while i < server.len()
        invariant
            i <= server@.len(),
            m == models(server@),
            models(sources@) == merge_all(models(dns@), m.take(i as int)),
        decreases server@.len() - i,
    {
        proof {
            assert(m.take(i + 1).drop_last() =~= m.take(i as int));
            assert(m.take(i + 1).last() == address_view(server@[i as int]));
        }
        merge_into(&mut sources, &server[i]);
        i = i + 1;
    }
    proof {
        assert(m.take(server@.len() as int) =~= m);
    }
    let r = sort_by_instance(&sources);
    proof {
        let d = models(dns@);
        let merged = merge_all(d, m);
        lemma_merge_keeps_all(d, m);
        assert forall|i: int| 0 <= i < dns@.len() implies keeps(models(r@), #[trigger] d[i]) by {
            lemma_sorted_keeps(models(r@), merged, d[i]);
        }
        assert forall|j: int| 0 <= j < server@.len() implies keeps(models(r@), #[trigger] m[j]) by {
            lemma_sorted_keeps(models(r@), merged, m[j]);
        }
    }
    r
}

/// Whether two addresses announce the same source: same instance name and port.
pub open spec fn same_source(m: AddressModel, a: AddressModel) -> bool {
    model_name(m) == model_name(a) && m.2 == a.2
}

/// The addresses of `s` that do not announce the same source as `a`.
pub open spec fn other_sources(s: Seq<AddressModel>, a: AddressModel) -> Seq<AddressModel> {
    s.filter(|m: AddressModel| !same_source(m, a))
}

/// How many addresses of `s` announce the same source as `b`.
pub open spec fn source_count(s: Seq<AddressModel>, b: AddressModel) -> nat {
    s.filter(|m: AddressModel| same_source(m, b)).len()
}

/// Filtering by `p`, then by `q`, filters by both.
proof fn lemma_filter_both(
    s: Seq<AddressModel>,
    p: spec_fn(AddressModel) -> bool,
    q: spec_fn(AddressModel) -> bool,
    pq: spec_fn(AddressModel) -> bool,
)
    requires
        forall|x: AddressModel| #[trigger] pq(x) == (p(x) && q(x)),
    ensures
        s.filter(p).filter(q) == s.filter(pq),
    decreases s.len(),
{
    reveal(Seq::filter);
    if s.len() > 0 {
        lemma_filter_both(s.drop_last(), p, q, pq);
        let x = s.last();
        let f = s.drop_last().filter(p);
        if p(x) {
            assert(f.push(x).drop_last() =~= f);
            assert(f.push(x).last() == x);
        }
    }
}

/// Sorting by instance name keeps how often each source is announced.
proof fn lemma_sorted_count(r: Seq<AddressModel>, s: Seq<AddressModel>, b: AddressModel)
    requires
        sorted_by_name(r, s),
    ensures
        source_count(r, b) == source_count(s, b),
{
    let k = model_name(b);
    let by_name = |m: AddressModel| model_name(m) == k;
    let by_port = |m: AddressModel| m.2 == b.2;
    let ss = |m: AddressModel| same_source(m, b);
    assert(named(r, k) == named(s, k));
    assert(by_name =~= (|m: AddressModel| model_name(m) == k));
    lemma_filter_both(r, by_name, by_port, ss);
    lemma_filter_both(s, by_name, by_port, ss);
}

/// Relaying an announcement: the source it names is listed once after it
/// (none after a removal), every other source as often as before.
pub proof fn lemma_relayed_count(s: Seq<AddressModel>, r: Seq<AddressModel>, a: AddressModel, b: AddressModel)
    requires
        a.4 ==> r == other_sources(s, a),
        !a.4 ==> sorted_by_name(r, other_sources(s, a).push(a)),
    ensures
        source_count(r, b) == if same_source(b, a) {
            if a.4 {
                0nat
            } else {
                1nat
            }
        } else {
            source_count(s, b)
        },
{
    let not_a = |m: AddressModel| !same_source(m, a);
    let ss = |m: AddressModel| same_source(m, b);
    let t = s.filter(not_a);
    if same_source(b, a) {
        let none = |m: AddressModel| false;
        lemma_filter_both(s, not_a, ss, none);
        assert(t.filter(ss).len() == 0) by {
            reveal(Seq::filter);
            assert forall|i: int| 0 <= i < s.len() implies !none(#[trigger] s[i]) by {}
            s.lemma_all_neg_filter_empty(none);
        }
    } else {
        lemma_filter_both(s, not_a, ss, ss);
    }
    if !a.4 {
        t.lemma_filter_push(a, ss);
        lemma_sorted_count(r, t.push(a), b);
    }
}

/// The addresses of `v` that do not announce the same source as `a`, in order.
fn without_source(v: &Vec<OmtAddress>, a: &OmtAddress) -> (r: Vec<OmtAddress>)
    ensures
        models(r@) == other_sources(models(v@), address_view(*a)),
{
    let ghost s = models(v@);
    let ghost am = address_view(*a);
    let name = a.instance_name();
    let mut out: Vec<OmtAddress> = Vec::new();
    let mut i: usize = 0;
    proof {
        reveal(Seq::filter);
        assert(s.take(0) =~= Seq::<AddressModel>::empty());
        assert(models(out@) =~= Seq::<AddressModel>::empty());
    }
    while i < v.len()
        invariant
            i <= v@.len(),
            s == models(v@),
            name@ == model_name(am),
            am == address_view(*a),
            models(out@) == s.take(i as int).filter(|m: AddressModel| !same_source(m, am)),
        decreases v@.len() - i,
    {
        proof {
            assert(s.take(i + 1) =~= s.take(i as int).push(s[i as int]));
            s.take(i as int).lemma_filter_push(s[i as int], |m: AddressModel| !same_source(m, am));
        }
        let same = str_eq(v[i].instance_name().as_str(), name.as_str()) && v[i].port == a.port;
        if !same {
            let b = v[i].duplicate();
            proof {
                lemma_models_push(out@, b);
            }
            out.push(b);
        }
        i = i + 1;
    }
    proof {
        assert(s.take(v@.len() as int) =~= s);
    }
    out
}

/// A client's list of sources after the server relays `a`: any entry for
/// the same source (instance name and port) leaves; unless `a` is a
/// removal, `a` joins and the list is sorted by instance name.
pub fn apply_relayed(sources: &Vec<OmtAddress>, a: &OmtAddress) -> (r: Vec<OmtAddress>)
    ensures
        a.removed ==> models(r@) == other_sources(models(sources@), address_view(*a)),
        !a.removed ==> sorted_by_name(
            models(r@),
            other_sources(models(sources@), address_view(*a)).push(address_view(*a)),
        ),
        forall|b: AddressModel|
            #[trigger] source_count(models(r@), b) == if same_source(b, address_view(*a)) {
                if a.removed {
                    0nat
                } else {
                    1nat
                }
            } else {
                source_count(models(sources@), b)
            },
{
    let mut kept = without_source(sources, a);
    let r = if a.removed {
        kept
    } else {
        let b = a.duplicate();
        proof {
            lemma_models_push(kept@, b);
        }
        kept.push(b);
        sort_by_instance(&kept)
    };
    proof {
        assert forall|b: AddressModel| #[trigger] source_count(models(r@), b) == if same_source(
            b,
            address_view(*a),
        ) {
            if a.removed {
                0nat
            } else {
                1nat
            }
        } else {
            source_count(models(sources@), b)
        } by {
            lemma_relayed_count(models(sources@), models(r@), address_view(*a), b);
        }
    }
    r
}

/// Whether the instance name of `m` contains `name`.
pub open spec fn name_contains(m: AddressModel, name: Seq<char>) -> bool {
    find_from(model_name(m), name, 0) is Some
}

/// The registered sources split by whether their instance name contains
/// `name`: those that do (to withdraw) and the others, each in order.
pub fn split_by_name(registered: &Vec<OmtAddress>, name: &str) -> (r: (Vec<OmtAddress>, Vec<OmtAddress>))
    ensures
        models(r.0@) == models(registered@).filter(|m: AddressModel| name_contains(m, name@)),
        models(r.1@) == models(registered@).filter(|m: AddressModel| !name_contains(m, name@)),
{
    let ghost s = models(registered@);
    let ncs = str_chars(name);
    let mut hit: Vec<OmtAddress> = Vec::new();
    let mut rest: Vec<OmtAddress> = Vec::new();
    let mut i: usize = 0;
    proof {
        reveal(Seq::filter);
        assert(s.take(0) =~= Seq::<AddressModel>::empty());
        assert(models(hit@) =~= Seq::<AddressModel>::empty());
        assert(models(rest@) =~= Seq::<AddressModel>::empty());
    }
    while i < registered.len()
        invariant
            i <= registered@.len(),
            s == models(registered@),
            ncs@ == name@,
            models(hit@) == s.take(i as int).filter(|m: AddressModel| name_contains(m, name@)),
            models(rest@) == s.take(i as int).filter(|m: AddressModel| !name_contains(m, name@)),
        decreases registered@.len() - i,
    {
        proof {
            assert(s.take(i + 1) =~= s.take(i as int).push(s[i as int]));
            s.take(i as int).lemma_filter_push(s[i as int], |m: AddressModel| name_contains(m, name@));
            s.take(i as int).lemma_filter_push(s[i as int], |m: AddressModel| !name_contains(m, name@));
        }
        let inst = str_chars(registered[i].instance_name().as_str());
        let found = find_chars(inst.as_slice(), ncs.as_slice(), 0).is_some();
        let b = registered[i].duplicate();
        if found {
            proof {
                lemma_models_push(hit@, b);
            }
            hit.push(b);
        } else {
            proof {
                lemma_models_push(rest@, b);
            }
            rest.push(b);
        }
        i = i + 1;
    }
    proof {
        assert(s.take(registered@.len() as int) =~= s);
    }
    (hit, rest)
}

} // verus!
