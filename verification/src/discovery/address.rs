//! OMT source addresses: instance names, `omt://` URLs and the discovery
//! server's address documents.
use vstd::prelude::*;
use crate::error::OmtError;
use crate::protocol::metadata::{parse_u16, parse_u16_text, all_digits, lemma_parse_decimal_port};
use crate::text::{
    str_chars, string_of, owned, push_str, push_char, push_chars, trim, trim_bounds, find_from,
    find_chars,
    rfind_char, rfind_char_in, lemma_find_from_bounds, ascii_lower, to_ascii_lower, ascii_upper,
    to_ascii_upper, escape_seq_no_apos, push_escaped_str_no_apos, decimal, push_decimal,
    eq_ignore_case, chars_eq_ignore_case, copy_strings, skip_ws, back_ws, is_ws,
    no_match_at, lemma_find_skip, lemma_trimmed_ends, lemma_trim_plain, lemma_skip_ws_bounds,
    lemma_back_ws_bounds,
};
use crate::types::{MAX_INSTANCE_NAME_LENGTH, URL_PREFIX};

verus! {

broadcast use vstd::string::group_string_axioms;

/// Discovered or configured OMT source address.
#[derive(Debug, Clone, PartialEq, Eq)]
pub struct OmtAddress {
    /// Display / service name, e.g. `Source Name`.
    pub name: String,
    /// Machine name (when known separately).
    pub machine_name: String,
    /// TCP port.
    pub port: u16,
    /// Candidate IP addresses.
    pub addresses: Vec<String>,
    /// Whether this entry was removed.
    pub removed: bool,
}

/// Characters dropped from names: NUL, line feed and carriage return.
pub open spec fn is_name_control(c: char) -> bool {
    c == '\0' || c == '\n' || c == '\r'
}

/// `s` without NUL, line feed and carriage return.
pub open spec fn drop_controls(s: Seq<char>) -> Seq<char>
    decreases s.len(),
{
    if s.len() == 0 {
        Seq::empty()
    } else if is_name_control(s.last()) {
        drop_controls(s.drop_last())
    } else {
        drop_controls(s.drop_last()).push(s.last())
    }
}

/// A name as stored: control characters removed, then trimmed.
pub open spec fn sanitized(s: Seq<char>) -> Seq<char> {
    trim(drop_controls(s))
}

/// The DNS-SD instance name `MACHINE (Name)`, or the name alone when the
/// machine name is empty.
pub open spec fn instance_text(machine: Seq<char>, name: Seq<char>) -> Seq<char> {
    if machine.len() == 0 {
        name
    } else {
        machine + " ("@ + name + ")"@
    }
}

/// The first `k` characters of `s` (all of them when `s` is shorter).
pub open spec fn first_chars(s: Seq<char>, k: int) -> Seq<char> {
    if s.len() <= k {
        s
    } else {
        s.take(k)
    }
}

/// The machine name and name after capping the instance name at 63
/// characters. When the instance name is longer, the name loses as many
/// characters at its end as the instance name has too many, then is
/// trimmed, provided something of it remains; otherwise the machine name is
/// shortened so, when something of it remains; otherwise the machine name
/// is dropped and the name cut to 63 characters (each trimmed).
pub open spec fn limited_parts(machine: Seq<char>, name: Seq<char>) -> (Seq<char>, Seq<char>) {
    let over = instance_text(machine, name).len() - MAX_INSTANCE_NAME_LENGTH;
    if over <= 0 {
        (machine, name)
    } else if over < name.len() {
        (machine, trim(name.take(name.len() - over)))
    } else if over < machine.len() {
        (trim(machine.take(machine.len() - over)), name)
    } else {
        (Seq::empty(), trim(first_chars(name, MAX_INSTANCE_NAME_LENGTH as int)))
    }
}

/// The view of an address built from a machine name and a name: the
/// instance name capped at 63 characters.
pub open spec fn limited_view(
    machine: Seq<char>,
    name: Seq<char>,
    port: u16,
    addresses: Seq<Seq<char>>,
    removed: bool,
) -> (Seq<char>, Seq<char>, u16, Seq<Seq<char>>, bool) {
    (limited_parts(machine, name).1, limited_parts(machine, name).0, port, addresses, removed)
}

proof fn lemma_trim_len(s: Seq<char>)
    ensures
        trim(s).len() <= s.len(),
{
    lemma_skip_ws_bounds(s, 0);
    lemma_back_ws_bounds(s, skip_ws(s, 0), s.len() as int);
}

/// Every address is built with an instance name of at most 63 characters.
pub proof fn lemma_instance_name_capped(machine: Seq<char>, name: Seq<char>)
    ensures
        instance_text(limited_parts(machine, name).0, limited_parts(machine, name).1).len()
            <= MAX_INSTANCE_NAME_LENGTH,
{
    reveal_strlit(" (");
    reveal_strlit(")");
    let over = instance_text(machine, name).len() - MAX_INSTANCE_NAME_LENGTH;
    if over <= 0 {
    } else if over < name.len() {
        lemma_trim_len(name.take(name.len() - over));
    } else if over < machine.len() {
        let m2 = trim(machine.take(machine.len() - over));
        lemma_trim_len(machine.take(machine.len() - over));
        if m2.len() == 0 {
            assert(name.len() <= over);
        }
    } else {
        lemma_trim_len(first_chars(name, MAX_INSTANCE_NAME_LENGTH as int));
    }
}

/// The `MACHINE` and `Name` parts of `MACHINE (Name)`: text before the first
/// `(` and between it and the last `)`, both trimmed and non-empty.
pub open spec fn split_full(full: Seq<char>) -> Option<(Seq<char>, Seq<char>)> {
    match (find_from(full, seq!['('], 0), rfind_char(full, ')')) {
        (Some(o), Some(c)) => if o == 0 || c <= o {
            None
        } else {
            let m = trim(full.take(o));
            let n = trim(full.subrange(o + 1, c));
            if m.len() == 0 || n.len() == 0 {
                None
            } else {
                Some((m, n))
            }
        },
        _ => None,
    }
}

/// The fields an address built from a full instance name starts with:
/// machine name and name before limiting.
pub open spec fn full_name_parts(full_name: Seq<char>) -> (Seq<char>, Seq<char>) {
    let full = sanitized(full_name);
    match split_full(full) {
        Some((m, n)) => (m, n),
        None => (Seq::empty(), sanitized(full)),
    }
}

/// The view of an address: name, machine name, port, addresses, removed.
pub open spec fn address_view(a: OmtAddress) -> (Seq<char>, Seq<char>, u16, Seq<Seq<char>>, bool) {
    (a.name@, a.machine_name@, a.port, a.addresses.deep_view(), a.removed)
}

/// `s` without its trailing dots.
pub open spec fn strip_dots(s: Seq<char>) -> Seq<char>
    decreases s.len(),
{
    if s.len() > 0 && s.last() == '.' {
        strip_dots(s.drop_last())
    } else {
        s
    }
}

/// `s` in ASCII lower case.
pub open spec fn lower_text(s: Seq<char>) -> Seq<char> {
    s.map_values(|c: char| ascii_lower(c))
}

/// `HOST (Cam)._omt._tcp.local.` → `HOST (Cam)`: trailing dots dropped, then
/// everything from the first `._omt.` (any ASCII case) on.
pub open spec fn strip_service_suffix(fqdn: Seq<char>) -> Seq<char> {
    let t = strip_dots(fqdn);
    match find_from(lower_text(t), "._omt."@, 0) {
        Some(p) => t.take(p),
        None => t,
    }
}

/// Whether `s` contains `c`.
pub open spec fn has_char(s: Seq<char>, c: char) -> bool {
    exists|i: int| 0 <= i < s.len() && s[i] == c
}


/// The characters of `cs` other than NUL, line feed and carriage return.
fn drop_name_controls(cs: &[char]) -> (r: Vec<char>)
    ensures
        r@ == drop_controls(cs@),
{
    let mut kept: Vec<char> = Vec::new();
    let mut i: usize = 0;
    while i < cs.len()
        invariant
            i <= cs@.len(),
            kept@ == drop_controls(cs@.take(i as int)),
        decreases cs@.len() - i,
    {
        let c = cs[i];
        proof {
            assert(cs@.take(i + 1).drop_last() =~= cs@.take(i as int));
            assert(cs@.take(i + 1).last() == c);
        }
        if !(c == '\0' || c == '\n' || c == '\r') {
            kept.push(c);
        }
        i = i + 1;
    }
    proof {
        assert(cs@.take(cs@.len() as int) =~= cs@);
    }
    kept
}

/// `s` without NUL, line feed and carriage return, then trimmed.
fn sanitize_name(s: &str) -> (r: String)
    ensures
        r@ == sanitized(s@),
{
    let cs = str_chars(s);
    let kept = drop_name_controls(cs.as_slice());
    let (a, b) = trim_bounds(kept.as_slice(), 0, kept.len());
    proof {
        assert(kept@.subrange(0, kept@.len() as int) =~= kept@);
    }
    string_of(kept.as_slice(), a, b)
}

/// `HOST (Cam)._omt._tcp.local.` → `HOST (Cam)`.
fn strip_omt_service_suffix(fqdn: &str) -> (r: String)
    ensures
        r@ == strip_service_suffix(fqdn@),
{
    let cs = str_chars(fqdn);
    let mut end: usize = cs.len();
    proof {
        assert(cs@.take(cs@.len() as int) =~= cs@);
    }
    while end > 0 && cs[end - 1] == '.'
        invariant
            end <= cs@.len(),
            cs@ == fqdn@,
            strip_dots(fqdn@) == strip_dots(cs@.take(end as int)),
        decreases end,
    {
        proof {
            assert(cs@.take(end as int).drop_last() =~= cs@.take(end - 1));
        }
        end = end - 1;
    }
    let ghost t = cs@.take(end as int);
    assert(strip_dots(t) == t);
    let mut lower: Vec<char> = Vec::new();
    let mut i: usize = 0;
    while i < end
        invariant
            i <= end <= cs@.len(),
            t == cs@.take(end as int),
            lower@ == lower_text(t.take(i as int)),
        decreases end - i,
    {
        lower.push(to_ascii_lower(cs[i]));
        i = i + 1;
        proof {
            assert(lower@ =~= lower_text(t.take(i as int)));
        }
    }
    proof {
        assert(t.take(end as int) =~= t);
    }
    let pat = str_chars("._omt.");
    match find_chars(lower.as_slice(), pat.as_slice(), 0) {
        Some(p) => {
            proof {
                lemma_find_from_bounds(lower@, pat@, 0);
            }
            string_of(cs.as_slice(), 0, p)
        },
        None => string_of(cs.as_slice(), 0, end),
    }
}

/// Whether `cs` contains `c`.
fn contains_char(cs: &[char], c: char) -> (r: bool)
    ensures
        r == has_char(cs@, c),
{
    let mut i: usize = 0;
    while i < cs.len()
        invariant
            i <= cs@.len(),
            forall|k: int| 0 <= k < i ==> cs@[k] != c,
        decreases cs@.len() - i,
    {
        if cs[i] == c {
            return true;
        }
        i = i + 1;
    }
    false
}

/// `MACHINE (Name)` → (`MACHINE`, `Name`).
fn split_full_name(full: &str) -> (r: Option<(String, String)>)
    ensures
        match split_full(full@) {
            Some((m, n)) => r matches Some((a, b)) && a@ == m && b@ == n,
            None => r is None,
        },
{
    let cs = str_chars(full);
    let open_pat = str_chars("(");
    proof {
        reveal_strlit("(");
        assert(open_pat@ =~= seq!['(']);
    }
    let open = match find_chars(cs.as_slice(), open_pat.as_slice(), 0) {
        Some(o) => o,
        None => return None,
    };
    let close = match rfind_char_in(cs.as_slice(), ')') {
        Some(c) => c,
        None => return None,
    };
    proof {
        lemma_find_from_bounds(cs@, open_pat@, 0);
    }
    if open == 0 || close <= open {
        return None;
    }
    proof {
        assert(close < cs@.len()) by {
            lemma_rfind_bound(cs@, ')');
        }
    }
    let (ma, mb) = trim_bounds(cs.as_slice(), 0, open);
    let (na, nb) = trim_bounds(cs.as_slice(), open + 1, close);
    proof {
        assert(cs@.subrange(0, open as int) =~= cs@.take(open as int));
    }
    if ma == mb || na == nb {
        return None;
    }
    Some((string_of(cs.as_slice(), ma, mb), string_of(cs.as_slice(), na, nb)))
}

proof fn lemma_rfind_bound(s: Seq<char>, c: char)
    ensures
        rfind_char(s, c) matches Some(k) ==> 0 <= k < s.len(),
    decreases s.len(),
{
    if s.len() > 0 && s.last() != c {
        lemma_rfind_bound(s.drop_last(), c);
    }
}

impl OmtAddress {
    /// DNS-SD instance name: `MACHINE (Name)`, or the name when no machine
    /// name is known. Every constructor caps it at 63 characters (see
    /// [`lemma_instance_name_capped`]).
    pub fn instance_name(&self) -> (r: String)
        ensures
            r@ == instance_text(self.machine_name@, self.name@),
    {
        if self.machine_name.as_str().is_empty() {
            self.name.clone()
        } else {
            let mut out = self.machine_name.clone();
            push_str(&mut out, " (");
            push_str(&mut out, self.name.as_str());
            push_str(&mut out, ")");
            out
        }
    }

    /// Cap the instance name at 63 characters (see [`limited_parts`]).
    fn limit_name_length(&mut self)
        ensures
            (final(self).machine_name@, final(self).name@) == limited_parts(
                old(self).machine_name@,
                old(self).name@,
            ),
            final(self).port == old(self).port,
            final(self).addresses == old(self).addresses,
            final(self).removed == old(self).removed,
    {
        let ghost machine = self.machine_name@;
        let ghost name = self.name@;
        let mcs = str_chars(self.machine_name.as_str());
        let ncs = str_chars(self.name.as_str());
        let m = mcs.len() as u128;
        let n = ncs.len() as u128;
        proof {
            reveal_strlit(" (");
            reveal_strlit(")");
        }
        let total: u128 = if m == 0 {
            n
        } else {
            m + 3 + n
        };
        assert(total == instance_text(machine, name).len());
        if total <= 63 {
            return;
        }
        let over = total - 63;
        if over < n {
            let keep = (n - over) as usize;
            let (a, b) = trim_bounds(ncs.as_slice(), 0, keep);
            proof {
                assert(ncs@.subrange(0, keep as int) =~= name.take(keep as int));
            }
            self.name = string_of(ncs.as_slice(), a, b);
        } else if over < m {
            let keep = (m - over) as usize;
            let (a, b) = trim_bounds(mcs.as_slice(), 0, keep);
            proof {
                assert(mcs@.subrange(0, keep as int) =~= machine.take(keep as int));
            }
            self.machine_name = string_of(mcs.as_slice(), a, b);
        } else {
            self.machine_name = String::new();
            let keep: usize = if ncs.len() > 63 {
                63
            } else {
                ncs.len()
            };
            let (a, b) = trim_bounds(ncs.as_slice(), 0, keep);
            proof {
                assert(ncs@.subrange(0, keep as int) =~= first_chars(name, 63));
            }
            self.name = string_of(ncs.as_slice(), a, b);
        }
    }

    /// A copy of the address, field by field.
    pub fn duplicate(&self) -> (r: OmtAddress)
        ensures
            address_view(r) == address_view(*self),
    {
        OmtAddress {
            name: self.name.clone(),
            machine_name: self.machine_name.clone(),
            port: self.port,
            addresses: copy_strings(&self.addresses),
            removed: self.removed,
        }
    }

    /// Create a new address entry.
    pub fn new(name: &str, port: u16) -> (r: OmtAddress)
        ensures
            address_view(r) == limited_view(Seq::empty(), sanitized(name@), port, Seq::empty(), false),
    {
        let mut addr = OmtAddress {
            name: sanitize_name(name),
            machine_name: String::new(),
            port,
            addresses: Vec::new(),
            removed: false,
        };
        addr.limit_name_length();
        assert(addr.addresses.deep_view() =~= Seq::<Seq<char>>::empty());
        addr
    }

    /// Create from a full DNS-SD instance name `MACHINE (Source)`.
    pub fn from_full_name(full_name: &str, port: u16) -> (r: OmtAddress)
        ensures
            address_view(r) == limited_view(
                full_name_parts(full_name@).0,
                full_name_parts(full_name@).1,
                port,
                Seq::empty(),
                false,
            ),
    {
        let full = sanitize_name(full_name);
        match split_full_name(full.as_str()) {
            Some((machine, name)) => {
                let mut addr = OmtAddress {
                    name,
                    machine_name: machine,
                    port,
                    addresses: Vec::new(),
                    removed: false,
                };
                addr.limit_name_length();
                assert(addr.addresses.deep_view() =~= Seq::<Seq<char>>::empty());
                addr
            },
            None => Self::new(full.as_str(), port),
        }
    }

    /// True when the display name looks like a valid OMT source (`MACHINE (Name)`).
    pub fn is_valid_name(full_name: &str) -> (r: bool)
        ensures
            r == (has_char(full_name@, '(') && has_char(full_name@, ')')),
    {
        let cs = str_chars(full_name);
        contains_char(cs.as_slice(), '(') && contains_char(cs.as_slice(), ')')
    }

    /// Build from a DNS-SD fullname / instance, port, and resolved addresses.
    ///
    /// Returns `None` when the name is not a valid OMT instance (`MACHINE (Name)`)
    /// or the port is 0.
    pub fn from_dns_sd(fullname_or_instance: &str, port: u16, addresses: Vec<String>) -> (r: Option<OmtAddress>)
        ensures
            ({
                let inst = strip_service_suffix(fullname_or_instance@);
                let parts = full_name_parts(inst);
                if has_char(inst, '(') && has_char(inst, ')') && port != 0 {
                    r matches Some(a) && address_view(a) == limited_view(parts.0, parts.1, port,
                        addresses.deep_view(), false)
                } else {
                    r is None
                }
            }),
    {
        let instance = strip_omt_service_suffix(fullname_or_instance);
        if !Self::is_valid_name(instance.as_str()) || port == 0 {
            return None;
        }
        let mut addr = Self::from_full_name(instance.as_str(), port);
        addr.addresses = addresses;
        Some(addr)
    }
}


/// A name part as it is stored: no NUL, line feed or carriage return, and
/// no surrounding white space.
pub open spec fn stored_text(s: Seq<char>) -> bool {
    &&& forall|i: int| 0 <= i < s.len() ==> !is_name_control(#[trigger] s[i])
    &&& trim(s) == s
}

/// Machine and name parts that the instance name `MACHINE (Name)` gives back
/// unchanged: both stored as such, a name, no `(` in the machine name (nor in
/// the name when there is no machine name), and short enough not to be cut.
pub open spec fn instance_parts_ok(machine: Seq<char>, name: Seq<char>) -> bool {
    &&& stored_text(machine)
    &&& stored_text(name)
    &&& name.len() > 0
    &&& !has_char(machine, '(')
    &&& (machine.len() > 0 || !has_char(name, '('))
    &&& instance_text(machine, name).len() <= MAX_INSTANCE_NAME_LENGTH
}

/// Text without control characters loses none.
pub proof fn lemma_drop_controls_plain(s: Seq<char>)
    requires
        forall|i: int| 0 <= i < s.len() ==> !is_name_control(#[trigger] s[i]),
    ensures
        drop_controls(s) == s,
    decreases s.len(),
{
    if s.len() > 0 {
        lemma_drop_controls_plain(s.drop_last());
        assert(!is_name_control(s[s.len() - 1]));
        assert(s.drop_last().push(s.last()) =~= s);
    }
}

/// A character that does not occur is not found.
proof fn lemma_char_not_found(s: Seq<char>, c: char, from: int)
    requires
        0 <= from,
        !has_char(s, c),
    ensures
        find_from(s, seq![c], from) is None,
    decreases s.len() + 1 - from,
{
    if from + 1 <= s.len() {
        if s.subrange(from, from + 1) == seq![c] {
            assert(s[from] == s.subrange(from, from + 1)[0]);
        }
        lemma_char_not_found(s, c, from + 1);
    }
}

/// The first occurrence of a character is found.
proof fn lemma_char_found(s: Seq<char>, c: char, k: int)
    requires
        0 <= k < s.len(),
        s[k] == c,
        forall|j: int| 0 <= j < k ==> s[j] != c,
    ensures
        find_from(s, seq![c], 0) == Some(k),
{
    let pat = seq![c];
    assert forall|j: int| 0 <= j < k implies #[trigger] no_match_at(s, pat, j) by {
        if j + 1 <= s.len() && s.subrange(j, j + 1) == pat {
            assert(s[j] == s.subrange(j, j + 1)[0]);
        }
    }
    lemma_find_skip(s, pat, 0, k);
    assert(s.subrange(k, k + 1) =~= pat);
}

/// The last occurrence of `c` is not moved by text after it without `c`.
proof fn lemma_rfind_before(a: Seq<char>, b: Seq<char>, c: char)
    requires
        !has_char(b, c),
    ensures
        rfind_char(a + b, c) == rfind_char(a, c),
    decreases b.len(),
{
    if b.len() > 0 {
        assert((a + b).drop_last() =~= a + b.drop_last());
        assert((a + b).last() == b[b.len() - 1]);
        assert(!has_char(b.drop_last(), c)) by {
            if has_char(b.drop_last(), c) {
                let i = choose|i: int| 0 <= i < b.drop_last().len() && b.drop_last()[i] == c;
                assert(b[i] == c);
            }
        }
        lemma_rfind_before(a, b.drop_last(), c);
    } else {
        assert(a + b =~= a);
    }
}

/// The instance name `MACHINE (Name)` of parts that fit gives those parts
/// back, and building from it cuts nothing: reading the name of an address
/// and building from it again gives the same machine name and name.
pub proof fn lemma_instance_name_roundtrip(machine: Seq<char>, name: Seq<char>)
    requires
        instance_parts_ok(machine, name),
    ensures
        full_name_parts(instance_text(machine, name)) == (machine, name),
        limited_parts(machine, name) == (machine, name),
{
    let full = instance_text(machine, name);
    lemma_trimmed_ends(name);
    reveal_strlit(" (");
    reveal_strlit(")");
    if machine.len() == 0 {
        lemma_drop_controls_plain(name);
        lemma_char_not_found(name, '(', 0);
        assert(sanitized(name) == name);
    } else {
        lemma_trimmed_ends(machine);
        let m = machine.len() as int;
        assert forall|i: int| 0 <= i < full.len() implies !is_name_control(#[trigger] full[i]) by {
            if i < m {
                assert(full[i] == machine[i]);
            } else if m + 2 <= i < m + 2 + name.len() {
                assert(full[i] == name[i - m - 2]);
            }
        }
        lemma_drop_controls_plain(full);
        assert(full[0] == machine[0]);
        assert(full[full.len() - 1] == ')');
        lemma_trim_plain(full);
        assert(sanitized(full) == full);
        let open = seq!['('];
        assert forall|j: int| 0 <= j < m + 1 implies #[trigger] no_match_at(full, open, j) by {
            if j + 1 <= full.len() && full.subrange(j, j + 1) == open {
                assert(full[j] == full.subrange(j, j + 1)[0]);
                if j < m {
                    assert(full[j] == machine[j]);
                }
            }
        }
        lemma_find_skip(full, open, 0, m + 1);
        assert(full.subrange(m + 1, m + 2) =~= open);
        assert(find_from(full, open, 0) == Some(m + 1));
        assert(full.last() == ')');
        assert(rfind_char(full, ')') == Some(full.len() - 1));
        let t0 = full.take(m + 1);
        assert(t0 =~= machine.push(' '));
        assert(skip_ws(t0, 0) == 0);
        assert(back_ws(t0, 0, m + 1) == back_ws(t0, 0, m));
        assert(back_ws(t0, 0, m) == m);
        assert(trim(t0) =~= machine);
        assert(full.subrange(m + 2, full.len() - 1) =~= name);
    }
}

/// Reading back an `omt://` URL gives the host, port and name it was
/// written with (the name standing in for the host when empty, sanitized),
/// when the host has no `/`, has no `:` if the port is left out, and is not
/// empty if the port is written.
pub proof fn lemma_url_roundtrip(host: Seq<char>, port: u16, name: Seq<char>)
    requires
        !has_char(host, '/'),
        port == 0 ==> !has_char(host, ':'),
        port != 0 ==> host.len() > 0,
    ensures
        url_fields(url_text(host, port, name)) == Ok::<(Seq<char>, u16, Seq<char>), Seq<char>>(
            (
                sanitized(
                    if name.len() == 0 {
                        host
                    } else {
                        name
                    },
                ),
                port,
                host,
            ),
        ),
{
    reveal_strlit("omt://");
    reveal_strlit("/");
    reveal_strlit(":");
    let url = url_text(host, port, name);
    let dec = decimal(port as nat);
    lemma_parse_decimal_port(port);
    let hp = if port == 0 {
        host
    } else {
        host + ":"@ + dec
    };
    assert(url =~= "omt://"@ + (hp + "/"@ + name));
    assert(url.take(6) =~= URL_PREFIX@);
    let rest = url.skip(6);
    assert(rest =~= hp + "/"@ + name);
    assert forall|j: int| 0 <= j < hp.len() implies hp[j] != '/' by {
        if j < host.len() {
            assert(hp[j] == host[j]);
        } else if j > host.len() {
            assert(hp[j] == dec[j - host.len() - 1]);
        }
    }
    assert forall|j: int| 0 <= j < hp.len() implies rest[j] != '/' by {
        assert(rest[j] == hp[j]);
    }
    lemma_char_found(rest, '/', hp.len() as int);
    assert(rest.take(hp.len() as int) =~= hp);
    assert(rest.skip(hp.len() + 1int) =~= name);
    if port == 0 {
        lemma_rfind_bound(host, ':');
        assert(rfind_char(host, ':') is None) by {
            if rfind_char(host, ':') is Some {
                lemma_rfind_found(host, ':');
            }
        }
    } else {
        assert(!has_char(dec, ':')) by {
            if has_char(dec, ':') {
                let i = choose|i: int| 0 <= i < dec.len() && dec[i] == ':';
                assert('0' <= dec[i] <= '9');
            }
        }
        lemma_rfind_before(host + ":"@, dec, ':');
        assert((host + ":"@).last() == ':');
        assert(hp.take(host.len() as int) =~= host);
        assert(hp.skip(host.len() + 1int) =~= dec);
    }
}

/// A stored name that fits is kept as it is when an address is built from
/// it without a machine name.
proof fn lemma_plain_name_kept(name: Seq<char>)
    requires
        stored_text(name),
        name.len() <= MAX_INSTANCE_NAME_LENGTH,
    ensures
        sanitized(name) == name,
        limited_parts(Seq::empty(), name) == (Seq::<char>::empty(), name),
{
    lemma_drop_controls_plain(name);
}

/// Reading back the URL of an address that names no machine gives the
/// address again (its first address as the host): `from_url(a.to_url())`
/// has the name, port and first address of `a`, when that address is not
/// empty and has no `/`, the port is not 0, and the name is stored as such,
/// not empty and at most 63 characters long.
pub proof fn lemma_url_address_roundtrip(
    name: Seq<char>,
    port: u16,
    addresses: Seq<Seq<char>>,
)
    requires
        stored_text(name),
        0 < name.len() <= MAX_INSTANCE_NAME_LENGTH,
        port != 0,
        addresses.len() > 0,
        addresses[0].len() > 0,
        !has_char(addresses[0], '/'),
    ensures
        url_fields(url_text(url_host(Seq::empty(), addresses), port, name)) matches Ok(f)
            && limited_view(Seq::empty(), f.0, f.1, seq![f.2], false) == (
            name,
            Seq::<char>::empty(),
            port,
            seq![addresses[0]],
            false,
        ),
{
    lemma_url_roundtrip(addresses[0], port, name);
    lemma_plain_name_kept(name);
}

/// What `rfind_char` finds is the character.
proof fn lemma_rfind_found(s: Seq<char>, c: char)
    ensures
        rfind_char(s, c) matches Some(k) ==> 0 <= k < s.len() && s[k] == c,
    decreases s.len(),
{
    if s.len() > 0 && s.last() != c {
        lemma_rfind_found(s.drop_last(), c);
    }
}

/// The addresses of `s` that contain `:` (when `colon`) or do not (otherwise), in order.
pub open spec fn with_colon(s: Seq<Seq<char>>, colon: bool) -> Seq<Seq<char>>
    decreases s.len(),
{
    if s.len() == 0 {
        Seq::empty()
    } else if has_char(s.last(), ':') == colon {
        with_colon(s.drop_last(), colon).push(s.last())
    } else {
        with_colon(s.drop_last(), colon)
    }
}

/// IPv4-style addresses (no `:`) first, then the others, each group in its
/// given order (a stable sort on "contains `:`").
pub open spec fn ipv4_first(s: Seq<Seq<char>>) -> Seq<Seq<char>> {
    with_colon(s, false) + with_colon(s, true)
}

/// `s` in ASCII upper case.
pub open spec fn upper_text(s: Seq<char>) -> Seq<char> {
    s.map_values(|c: char| ascii_upper(c))
}

/// The addresses of `v` with or without `:`, in order.
fn filter_colon(v: &Vec<String>, colon: bool) -> (r: Vec<String>)
    ensures
        r.deep_view() == with_colon(v.deep_view(), colon),
{
    let ghost all = v.deep_view();
    let mut out: Vec<String> = Vec::new();
    let mut i: usize = 0;
    while i < v.len()
        invariant
            i <= v@.len(),
            all == v.deep_view(),
            out.deep_view() == with_colon(all.take(i as int), colon),
        decreases v@.len() - i,
    {
        let cs = str_chars(v[i].as_str());
        proof {
            assert(all.take(i + 1).drop_last() =~= all.take(i as int));
            assert(all.take(i + 1).last() == all[i as int]);
        }
        if contains_char(cs.as_slice(), ':') == colon {
            let ghost before = out.deep_view();
            out.push(v[i].clone());
            assert(out.deep_view() =~= before.push(all[i as int]));
        }
        i = i + 1;
    }
    proof {
        assert(all.take(all.len() as int) =~= all);
    }
    out
}

/// The fields of an `omt://host[:port][/name]` URL: the name before
/// limiting, the port (0 when absent) and the host; or the error message.
pub open spec fn url_fields(url: Seq<char>) -> Result<(Seq<char>, u16, Seq<char>), Seq<char>> {
    if !(url.len() >= 6 && url.take(6) == URL_PREFIX@) {
        Err("URL must start with omt://"@)
    } else {
        let rest = url.skip(6);
        let host_port = match find_from(rest, seq!['/'], 0) {
            Some(k) => rest.take(k),
            None => rest,
        };
        let name = match find_from(rest, seq!['/'], 0) {
            Some(k) => rest.skip(k + 1),
            None => Seq::empty(),
        };
        match rfind_char(host_port, ':') {
            Some(c) => if c > 0 {
                let h = host_port.take(c);
                let p = host_port.skip(c + 1);
                match parse_u16(p) {
                    Some(port) => Ok(
                        (
                            sanitized(
                                if name.len() == 0 {
                                    h
                                } else {
                                    name
                                },
                            ),
                            port,
                            h,
                        ),
                    ),
                    None => Err("invalid port in URL: "@ + p),
                }
            } else {
                Ok(
                    (
                        sanitized(
                            if name.len() == 0 {
                                host_port
                            } else {
                                name
                            },
                        ),
                        0,
                        host_port,
                    ),
                )
            },
            None => Ok(
                (
                    sanitized(
                        if name.len() == 0 {
                            host_port
                        } else {
                            name
                        },
                    ),
                    0,
                    host_port,
                ),
            ),
        }
    }
}

/// The host a URL names: the machine name, else the first address, else
/// `127.0.0.1`.
pub open spec fn url_host(machine: Seq<char>, addresses: Seq<Seq<char>>) -> Seq<char> {
    if machine.len() > 0 {
        machine
    } else if addresses.len() > 0 {
        addresses[0]
    } else {
        "127.0.0.1"@
    }
}

/// `omt://host[:port]/name` (the port is left out when it is 0).
pub open spec fn url_text(host: Seq<char>, port: u16, name: Seq<char>) -> Seq<char> {
    if port == 0 {
        "omt://"@ + host + "/"@ + name
    } else {
        "omt://"@ + host + ":"@ + decimal(port as nat) + "/"@ + name
    }
}

/// One `<IPAddress>` line per address.
pub open spec fn ip_lines(s: Seq<Seq<char>>) -> Seq<char>
    decreases s.len(),
{
    if s.len() == 0 {
        Seq::empty()
    } else {
        ip_lines(s.drop_last()) + "    <IPAddress>"@ + escape_seq_no_apos(s.last())
            + "</IPAddress>\n"@
    }
}

/// The discovery server's `<OMTAddress>` document.
pub open spec fn address_xml(full: Seq<char>, port: u16, removed: bool, addresses: Seq<Seq<char>>) -> Seq<char> {
    "<OMTAddress>\n  <Name>"@ + escape_seq_no_apos(full) + "</Name>\n  <Port>"@ + decimal(
        port as nat,
    ) + "</Port>\n"@ + (if removed {
        "  <Removed>True</Removed>\n"@
    } else {
        Seq::empty()
    }) + "  <Addresses>\n"@ + (if addresses.len() == 0 {
        "    <IPAddress>0.0.0.0</IPAddress>\n"@
    } else {
        ip_lines(addresses)
    }) + "  </Addresses>\n</OMTAddress>"@
}

/// `<tag>`.
pub open spec fn tag_open(tag: Seq<char>) -> Seq<char> {
    "<"@ + tag + ">"@
}

/// `</tag>`.
pub open spec fn tag_close(tag: Seq<char>) -> Seq<char> {
    "</"@ + tag + ">"@
}

/// The trimmed text between the first `<tag>` and the first `</tag>` after it.
pub open spec fn tag_text(xml: Seq<char>, tag: Seq<char>) -> Option<Seq<char>> {
    match find_from(xml, tag_open(tag), 0) {
        Some(i) => match find_from(xml, tag_close(tag), i + tag_open(tag).len()) {
            Some(e) => Some(trim(xml.subrange(i + tag_open(tag).len(), e))),
            None => None,
        },
        None => None,
    }
}

/// The trimmed texts of the successive `<tag>…</tag>` spans from `from` on.
pub open spec fn tag_texts(xml: Seq<char>, tag: Seq<char>, from: int) -> Seq<Seq<char>>
    decreases xml.len() + 1 - from,
{
    match find_from(xml, tag_open(tag), from) {
        Some(i) => match find_from(xml, tag_close(tag), i + tag_open(tag).len()) {
            Some(e) => if from < e + tag_close(tag).len() <= xml.len() {
                seq![trim(xml.subrange(i + tag_open(tag).len(), e))] + tag_texts(
                    xml,
                    tag,
                    e + tag_close(tag).len(),
                )
            } else {
                Seq::empty()
            },
            None => Seq::empty(),
        },
        None => Seq::empty(),
    }
}

/// The fields of an `<OMTAddress>` document: full name, port, removed flag
/// and addresses; or the error message.
pub open spec fn address_doc(xml: Seq<char>) -> Result<(Seq<char>, u16, bool, Seq<Seq<char>>), Seq<char>> {
    match tag_text(xml, "Name"@) {
        None => Err("OMTAddress XML missing Name"@),
        Some(n) => match tag_text(xml, "Port"@) {
            None => Err("OMTAddress XML missing Port"@),
            Some(p) => match parse_u16(p) {
                None => Err("OMTAddress XML invalid Port"@),
                Some(port) => Ok(
                    (
                        n,
                        port,
                        match tag_text(xml, "Removed"@) {
                            Some(v) => eq_ignore_case(v, "true"@),
                            None => false,
                        },
                        tag_texts(xml, "IPAddress"@, 0),
                    ),
                ),
            },
        },
    }
}

/// The characters of `<tag>` or `</tag>`.
fn tag_chars(tag: &str, close: bool) -> (r: Vec<char>)
    ensures
        r@ == if close {
            tag_close(tag@)
        } else {
            tag_open(tag@)
        },
{
    let mut s = owned(if close {
        "</"
    } else {
        "<"
    });
    push_str(&mut s, tag);
    push_str(&mut s, ">");
    str_chars(s.as_str())
}

/// Trimmed text between the first `<tag>` and the next `</tag>`.
fn xml_text(cs: &[char], tag: &str) -> (r: Option<String>)
    ensures
        match tag_text(cs@, tag@) {
            Some(v) => r matches Some(t) && t@ == v,
            None => r is None,
        },
{
    let open = tag_chars(tag, false);
    let close = tag_chars(tag, true);
    let n = cs.len();
    let i = match find_chars(cs, open.as_slice(), 0) {
        Some(i) => i,
        None => return None,
    };
    proof {
        lemma_find_from_bounds(cs@, open@, 0);
        assert(i + open@.len() <= cs@.len());
    }
    let start = i + open.len();
    let e = match find_chars(cs, close.as_slice(), start) {
        Some(e) => e,
        None => return None,
    };
    proof {
        lemma_find_from_bounds(cs@, close@, start as int);
    }
    let (a, b) = trim_bounds(cs, start, e);
    Some(string_of(cs, a, b))
}

/// Trimmed texts of all `<tag>…</tag>` spans, in order.
fn xml_all_text(cs: &[char], tag: &str) -> (r: Vec<String>)
    ensures
        r.deep_view() == tag_texts(cs@, tag@, 0),
{
    let open = tag_chars(tag, false);
    let close = tag_chars(tag, true);
    let mut out: Vec<String> = Vec::new();
    let mut from: usize = 0;
    while from <= cs.len()
        invariant
            from <= cs@.len() + 1,
            open@ == tag_open(tag@),
            close@ == tag_close(tag@),
            out.deep_view() + tag_texts(cs@, tag@, from as int) == tag_texts(cs@, tag@, 0),
        ensures
            out.deep_view() == tag_texts(cs@, tag@, 0),
        decreases cs@.len() + 1 - from,
    {
        let i = match find_chars(cs, open.as_slice(), from) {
            Some(i) => i,
            None => {
                assert(out.deep_view() + Seq::<Seq<char>>::empty() =~= out.deep_view());
                break;
            },
        };
        proof {
            lemma_find_from_bounds(cs@, open@, from as int);
        }
        let start = i + open.len();
        let e = match find_chars(cs, close.as_slice(), start) {
            Some(e) => e,
            None => {
                assert(out.deep_view() + Seq::<Seq<char>>::empty() =~= out.deep_view());
                break;
            },
        };
        proof {
            lemma_find_from_bounds(cs@, close@, start as int);
            reveal_strlit("</");
            reveal_strlit(">");
            assert(close@.len() > 0);
        }
        let (a, b) = trim_bounds(cs, start, e);
        let t = string_of(cs, a, b);
        let ghost before = out.deep_view();
        out.push(t);
        proof {
            assert(out.deep_view() =~= before.push(trim(cs@.subrange(start as int, e as int))));
            assert(out.deep_view() + tag_texts(cs@, tag@, e + close@.len()) =~= before + tag_texts(cs@, tag@, from as int));
        }
        from = e + close.len();
        if from > cs.len() {
            proof {
                assert(tag_texts(cs@, tag@, from as int) =~= Seq::<Seq<char>>::empty());
                assert(out.deep_view() + Seq::<Seq<char>>::empty() =~= out.deep_view());
            }
            break;
        }
    }
    out
}

/// `host` in ASCII upper case.
fn upper_string(host: &str) -> (r: String)
    ensures
        r@ == upper_text(host@),
{
        let hcs = str_chars(host);
        let mut upper = String::new();
        let mut i: usize = 0;
        while i < hcs.len()
            invariant
                i <= hcs@.len(),
                hcs@ == host@,
                upper@ == upper_text(host@.take(i as int)),
            decreases hcs@.len() - i,
        {
            push_char(&mut upper, to_ascii_upper(hcs[i]));
            i = i + 1;
            proof {
                assert(upper@ =~= upper_text(host@.take(i as int)));
            }
        }
        proof {
            assert(host@.take(host@.len() as int) =~= host@);
        }
    upper
}

impl OmtAddress {
    /// The local address `HOST (name)` for `source_name`, given the host
    /// name as the environment reports it and the machine's addresses.
    ///
    /// The host name is upper-cased; IPv4-style addresses come first.
    pub fn local(source_name: &str, port: u16, host: &str, addresses: Vec<String>) -> (r: Result<OmtAddress, OmtError>)
        ensures
            r matches Ok(a) && address_view(a) == limited_view(
                sanitized(upper_text(host@)),
                sanitized(source_name@),
                port,
                ipv4_first(addresses.deep_view()),
                false,
            ),
    {
        let upper = upper_string(host);
        let mut v4 = filter_colon(&addresses, false);
        let mut v6 = filter_colon(&addresses, true);
        let ghost a4 = v4.deep_view();
        let ghost a6 = v6.deep_view();
        v4.append(&mut v6);
        assert(v4.deep_view() =~= a4 + a6);
        let mut addr = OmtAddress {
            name: sanitize_name(source_name),
            machine_name: sanitize_name(upper.as_str()),
            port,
            addresses: v4,
            removed: false,
        };
        addr.limit_name_length();
        Ok(addr)
    }


    /// The fields of an `omt://host[:port][/name]` URL: the name (sanitized;
    /// the host when the URL names none), the port (0 when absent) and the
    /// host.
    pub fn url_parts(url: &str) -> (r: Result<(String, u16, String), OmtError>)
        ensures
            match url_fields(url@) {
                Ok((name, port, host)) => r matches Ok((n, p, h)) && n@ == name && p == port
                    && h@ == host,
                Err(m) => r matches Err(OmtError::InvalidArgument(msg)) && msg@ == m,
            },
    {
        proof {
            reveal_strlit("omt://");
            reveal_strlit("/");
        }
        let cs = str_chars(url);
        if cs.len() < 6 || !crate::text::chars_eq(cs.as_slice(), 0, 6, URL_PREFIX) {
            proof {
                if cs@.len() >= 6 {
                    assert(cs@.subrange(0, 6) =~= cs@.take(6));
                }
            }
            let mut msg = owned("URL must start with ");
            push_str(&mut msg, URL_PREFIX);
            proof {
                reveal_strlit("URL must start with ");
                reveal_strlit("URL must start with omt://");
                assert(msg@ =~= "URL must start with omt://"@);
            }
            return Err(OmtError::InvalidArgument(msg));
        }
        proof {
            assert(cs@.subrange(0, 6) =~= cs@.take(6));
        }
        let ghost rest = url@.skip(6);
        let rest_cs: Vec<char> = {
            let s = string_of(cs.as_slice(), 6, cs.len());
            str_chars(s.as_str())
        };
        assert(rest_cs@ =~= rest);
        let slash = str_chars("/");
        assert(slash@ =~= seq!['/']);
        let split = find_chars(rest_cs.as_slice(), slash.as_slice(), 0);
        proof {
            lemma_find_from_bounds(rest, slash@, 0);
        }
        let hp_end: usize = match split {
            Some(k) => k,
            None => rest_cs.len(),
        };
        assert(rest.take(rest.len() as int) =~= rest);
        let name_cs: Vec<char> = match split {
            Some(k) => {
                let s = string_of(rest_cs.as_slice(), k + 1, rest_cs.len());
                str_chars(s.as_str())
            },
            None => Vec::new(),
        };
        let hp_s = string_of(rest_cs.as_slice(), 0, hp_end);
        let hp = str_chars(hp_s.as_str());
        assert(hp@ =~= rest.take(hp_end as int));
        assert(name_cs@ =~= match find_from(rest, seq!['/'], 0) {
            Some(k) => rest.skip(k + 1),
            None => Seq::<char>::empty(),
        });
        let colon = rfind_char_in(hp.as_slice(), ':');
        let mut port: u16 = 0;
        let mut host_end: usize = hp.len();
        match colon {
            Some(c) => {
                proof {
                    lemma_rfind_bound(hp@, ':');
                }
                if c > 0 {
                    let p = string_of(hp.as_slice(), c + 1, hp.len());
                    assert(p@ =~= hp@.skip(c + 1));
                    match parse_u16_text(p.as_str()) {
                        Some(v) => {
                            port = v;
                            host_end = c;
                        },
                        None => {
                            let mut msg = owned("invalid port in URL: ");
                            push_str(&mut msg, p.as_str());
                            return Err(OmtError::InvalidArgument(msg));
                        },
                    }
                }
            },
            None => {},
        }
        let host = string_of(hp.as_slice(), 0, host_end);
        assert(host@ =~= hp@.take(host_end as int));
        assert(hp@.take(hp@.len() as int) =~= hp@);
        let raw_name = if name_cs.len() == 0 {
            host.clone()
        } else {
            string_of(name_cs.as_slice(), 0, name_cs.len())
        };
        assert(name_cs@.subrange(0, name_cs@.len() as int) =~= name_cs@);
        assert(url_fields(url@) == Ok::<(Seq<char>, u16, Seq<char>), Seq<char>>((sanitized(raw_name@), port, host@)));
        Ok((sanitize_name(raw_name.as_str()), port, host))
    }


    /// Parse `omt://host[:port][/name]`.
    pub fn from_url(url: &str) -> (r: Result<OmtAddress, OmtError>)
        ensures
            match url_fields(url@) {
                Ok((name, port, host)) => r matches Ok(a) && address_view(a) == limited_view(
                    Seq::empty(),
                    name,
                    port,
                    seq![host],
                    false,
                ),
                Err(m) => r matches Err(OmtError::InvalidArgument(msg)) && msg@ == m,
            },
    {
        let (name, port, host) = Self::url_parts(url)?;
        let mut addr = OmtAddress {
            name,
            machine_name: String::new(),
            port,
            addresses: vec![host],
            removed: false,
        };
        addr.limit_name_length();
        assert(addr.addresses.deep_view() =~= seq![addr.addresses@[0]@]);
        Ok(addr)
    }

    /// Format as `omt://host[:port]/name`, naming the machine when it is
    /// known (else the first address, else `127.0.0.1`).
    pub fn to_url(&self) -> (r: String)
        ensures
            r@ == url_text(url_host(self.machine_name@, self.addresses.deep_view()), self.port, self.name@),
    {
        let mut out = owned("omt://");
        if !self.machine_name.as_str().is_empty() {
            push_str(&mut out, self.machine_name.as_str());
        } else if self.addresses.len() > 0 {
            push_str(&mut out, self.addresses[0].as_str());
        } else {
            push_str(&mut out, "127.0.0.1");
        }
        if self.port != 0 {
            push_str(&mut out, ":");
            push_decimal(&mut out, self.port as u64);
        }
        push_str(&mut out, "/");
        push_str(&mut out, self.name.as_str());
        assert(out@ =~= url_text(url_host(self.machine_name@, self.addresses.deep_view()), self.port, self.name@));
        out
    }

    /// The `<OMTAddress>` document with the given removed flag and addresses.
    fn xml_with(&self, removed: bool, addresses: &Vec<String>) -> (r: String)
        ensures
            r@ == address_xml(instance_text(self.machine_name@, self.name@), self.port, removed, addresses.deep_view()),
    {
        let full = self.instance_name();
        let mut out = owned("<OMTAddress>\n  <Name>");
        push_escaped_str_no_apos(&mut out, full.as_str());
        push_str(&mut out, "</Name>\n  <Port>");
        push_decimal(&mut out, self.port as u64);
        push_str(&mut out, "</Port>\n");
        let ghost head = out@;
        if removed {
            push_str(&mut out, "  <Removed>True</Removed>\n");
        }
        push_str(&mut out, "  <Addresses>\n");
        let ghost mid = out@;
        let ghost all = addresses.deep_view();
        if addresses.len() == 0 {
            push_str(&mut out, "    <IPAddress>0.0.0.0</IPAddress>\n");
        } else {
            let mut i: usize = 0;
            while i < addresses.len()
                invariant
                    i <= addresses@.len(),
                    all == addresses.deep_view(),
                    out@ == mid + ip_lines(all.take(i as int)),
                decreases addresses@.len() - i,
            {
                push_str(&mut out, "    <IPAddress>");
                push_escaped_str_no_apos(&mut out, addresses[i].as_str());
                push_str(&mut out, "</IPAddress>\n");
                proof {
                    assert(all.take(i + 1).drop_last() =~= all.take(i as int));
                    assert(all.take(i + 1).last() == all[i as int]);
                }
                i = i + 1;
                proof {
                    assert(out@ =~= mid + ip_lines(all.take(i as int)));
                }
            }
            proof {
                assert(all.take(all.len() as int) =~= all);
            }
        }
        push_str(&mut out, "  </Addresses>\n</OMTAddress>");
        assert(out@ =~= address_xml(instance_text(self.machine_name@, self.name@), self.port, removed, all));
        out
    }

    /// Serialize address XML for the discovery server.
    pub fn to_xml(&self) -> (r: String)
        ensures
            r@ == address_xml(instance_text(self.machine_name@, self.name@), self.port, self.removed,
                self.addresses.deep_view()),
    {
        self.xml_with(self.removed, &self.addresses)
    }

    /// Serialize register XML for the discovery server (not removed).
    pub fn to_register_xml(&self) -> (r: String)
        ensures
            r@ == address_xml(instance_text(self.machine_name@, self.name@), self.port, false,
                self.addresses.deep_view()),
    {
        self.xml_with(false, &self.addresses)
    }

    /// Serialize deregister XML (removed, no addresses).
    pub fn to_deregister_xml(&self) -> (r: String)
        ensures
            r@ == address_xml(instance_text(self.machine_name@, self.name@), self.port, true,
                Seq::empty()),
    {
        let none: Vec<String> = Vec::new();
        assert(none.deep_view() =~= Seq::<Seq<char>>::empty());
        self.xml_with(true, &none)
    }



    /// Parse discovery-server address XML.
    pub fn from_xml(xml: &str) -> (r: Result<OmtAddress, OmtError>)
        ensures
            match address_doc(xml@) {
                Ok((n, port, removed, addresses)) => r matches Ok(a) && address_view(a)
                    == limited_view(full_name_parts(n).0, full_name_parts(n).1, port, addresses,
                    removed),
                Err(m) => r matches Err(OmtError::InvalidArgument(msg)) && msg@ == m,
            },
    {
        let cs = str_chars(xml);
        let name = match xml_text(cs.as_slice(), "Name") {
            Some(n) => n,
            None => return Err(OmtError::InvalidArgument(owned("OMTAddress XML missing Name"))),
        };
        let port_text = match xml_text(cs.as_slice(), "Port") {
            Some(p) => p,
            None => return Err(OmtError::InvalidArgument(owned("OMTAddress XML missing Port"))),
        };
        let port = match parse_u16_text(port_text.as_str()) {
            Some(p) => p,
            None => return Err(OmtError::InvalidArgument(owned("OMTAddress XML invalid Port"))),
        };
        let mut addr = Self::from_full_name(name.as_str(), port);
        addr.removed = match xml_text(cs.as_slice(), "Removed") {
            Some(v) => {
                let vc = str_chars(v.as_str());
                let b = chars_eq_ignore_case(vc.as_slice(), 0, vc.len(), "true");
                proof {
                    assert(vc@.subrange(0, vc@.len() as int) =~= v@);
                }
                b
            },
            None => false,
        };
        addr.addresses = xml_all_text(cs.as_slice(), "IPAddress");
        Ok(addr)
    }
}

} // verus!
