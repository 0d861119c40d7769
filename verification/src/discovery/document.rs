//! Reading back the discovery server's `<OMTAddress>` documents: what
//! [`crate::discovery::address::OmtAddress::from_xml`] finds in the text that
//! [`crate::discovery::address::OmtAddress::to_xml`] writes.
//!
//! A document is seen as a list of pieces, each either text without `<` or
//! one tag `<…>`. A search for a tag then stops only at a piece equal to it.
use vstd::prelude::*;
use vstd::seq_lib::lemma_flatten_concat;
use crate::discovery::address::{
    address_xml, address_doc, ip_lines, tag_text, tag_texts, tag_open, tag_close, instance_text,
    instance_parts_ok, full_name_parts, limited_view, lemma_instance_name_roundtrip,
};
use crate::protocol::metadata::lemma_parse_decimal_port;
use crate::text::{
    find_from, no_match_at, lemma_find_skip, lemma_find_shift, trim, is_ws, escape_seq_no_apos,
    decimal, eq_ignore_case, lemma_trim_plain, lemma_trimmed_ends,
};

verus! {

/// No `<` in `s`.
pub open spec fn lt_free(s: Seq<char>) -> bool {
    forall|i: int| 0 <= i < s.len() ==> s[i] != '<'
}

/// `s` is one tag: `<`, then characters other than `<` and `>`, then `>`.
pub open spec fn is_tag(s: Seq<char>) -> bool {
    &&& 2 <= s.len()
    &&& s[0] == '<'
    &&& s[s.len() - 1] == '>'
    &&& forall|i: int| 0 < i < s.len() - 1 ==> s[i] != '<' && s[i] != '>'
}

/// Every piece is text without `<` or a single tag.
pub open spec fn pieces_ok(segs: Seq<Seq<char>>) -> bool {
    forall|i: int| 0 <= i < segs.len() ==> lt_free(#[trigger] segs[i]) || is_tag(segs[i])
}

/// Offset of the first piece equal to `pat`.
pub open spec fn first_piece(segs: Seq<Seq<char>>, pat: Seq<char>) -> Option<int>
    decreases segs.len(),
{
    if segs.len() == 0 {
        None
    } else if segs[0] == pat {
        Some(0)
    } else {
        match first_piece(segs.drop_first(), pat) {
            Some(o) => Some(o + segs[0].len()),
            None => None,
        }
    }
}

/// Offset at which piece `k` starts.
pub open spec fn offset(segs: Seq<Seq<char>>, k: int) -> int {
    segs.take(k).flatten().len() as int
}

/// A tag search in a text made of such pieces stops at the first piece equal
/// to the tag.
pub proof fn lemma_find_pieces(segs: Seq<Seq<char>>, pat: Seq<char>)
    requires
        is_tag(pat),
        pieces_ok(segs),
    ensures
        find_from(segs.flatten(), pat, 0) == first_piece(segs, pat),
    decreases segs.len(),
{
    if segs.len() > 0 {
        let s0 = segs[0];
        let rest = segs.drop_first();
        let t = segs.flatten();
        assert(t == s0 + rest.flatten());
        if s0 == pat {
            assert(t.subrange(0, pat.len() as int) =~= pat);
        } else {
            assert(lt_free(s0) || is_tag(s0));
            assert forall|j: int| 0 <= j < s0.len() implies #[trigger] no_match_at(t, pat, j) by {
                if j + pat.len() <= t.len() && t.subrange(j, j + pat.len()) == pat {
                    assert(t.subrange(j, j + pat.len())[0] == pat[0]);
                    assert(t[j] == s0[j]);
                    if !lt_free(s0) && j == 0 {
                        let n = s0.len();
                        let m = pat.len();
                        if n == m {
                            assert(t.subrange(0, m as int) =~= s0);
                        } else if n < m {
                            assert(t.subrange(0, m as int)[n - 1] == s0[n - 1]);
                        } else {
                            assert(t.subrange(0, m as int)[m - 1] == s0[m - 1]);
                        }
                    }
                }
            }
            assert(pieces_ok(rest)) by {
                assert forall|i: int| 0 <= i < rest.len() implies lt_free(#[trigger] rest[i])
                    || is_tag(rest[i]) by {
                    assert(rest[i] == segs[i + 1]);
                }
            }
            lemma_find_pieces(rest, pat);
            lemma_find_skip(t, pat, 0, s0.len() as int);
            lemma_find_shift(s0, rest.flatten(), pat, 0);
        }
    }
}

/// The text is the pieces before `k` followed by those from `k` on.
pub proof fn lemma_flatten_split(segs: Seq<Seq<char>>, k: int)
    requires
        0 <= k <= segs.len(),
    ensures
        segs.flatten() == segs.take(k).flatten() + segs.skip(k).flatten(),
{
    lemma_flatten_concat(segs.take(k), segs.skip(k));
    assert(segs.take(k) + segs.skip(k) =~= segs);
}

/// Offsets add up piece by piece.
pub proof fn lemma_offset_split(segs: Seq<Seq<char>>, a: int, b: int)
    requires
        0 <= a <= b <= segs.len(),
    ensures
        offset(segs, b) == offset(segs, a) + segs.skip(a).take(b - a).flatten().len(),
{
    lemma_flatten_concat(segs.take(a), segs.skip(a).take(b - a));
    assert(segs.take(a) + segs.skip(a).take(b - a) =~= segs.take(b));
}

/// The first piece equal to `pat` is piece `k` when none before it is.
pub proof fn lemma_first_piece_at(segs: Seq<Seq<char>>, pat: Seq<char>, k: int)
    requires
        0 <= k < segs.len(),
        segs[k] == pat,
        forall|j: int| 0 <= j < k ==> #[trigger] segs[j] != pat,
    ensures
        first_piece(segs, pat) == Some(offset(segs, k)),
    decreases k,
{
    if k > 0 {
        let rest = segs.drop_first();
        assert forall|j: int| 0 <= j < k - 1 implies #[trigger] rest[j] != pat by {
            assert(rest[j] == segs[j + 1]);
        }
        assert(segs[0] != pat);
        lemma_first_piece_at(rest, pat, k - 1);
        assert(segs.take(k) =~= seq![segs[0]] + rest.take(k - 1));
        lemma_flatten_concat(seq![segs[0]], rest.take(k - 1));
        seq![segs[0]].lemma_flatten_one_element();
    } else {
        assert(segs.take(0) =~= Seq::<Seq<char>>::empty());
    }
}

/// No piece equal to `pat`: no offset.
pub proof fn lemma_first_piece_none(segs: Seq<Seq<char>>, pat: Seq<char>)
    requires
        forall|j: int| 0 <= j < segs.len() ==> #[trigger] segs[j] != pat,
    ensures
        first_piece(segs, pat) is None,
    decreases segs.len(),
{
    if segs.len() > 0 {
        let rest = segs.drop_first();
        assert forall|j: int| 0 <= j < rest.len() implies #[trigger] rest[j] != pat by {
            assert(rest[j] == segs[j + 1]);
        }
        assert(segs[0] != pat);
        lemma_first_piece_none(rest, pat);
    }
}

/// A search for `pat` from the start of piece `k0` finds piece `k`, the first
/// piece from `k0` on equal to `pat`.
pub proof fn lemma_find_piece_from(segs: Seq<Seq<char>>, pat: Seq<char>, k0: int, k: int)
    requires
        is_tag(pat),
        pieces_ok(segs),
        0 <= k0 <= k < segs.len(),
        segs[k] == pat,
        forall|j: int| k0 <= j < k ==> #[trigger] segs[j] != pat,
    ensures
        find_from(segs.flatten(), pat, offset(segs, k0)) == Some(offset(segs, k)),
{
    let tail = segs.skip(k0);
    lemma_flatten_split(segs, k0);
    assert(pieces_ok(tail)) by {
        assert forall|i: int| 0 <= i < tail.len() implies lt_free(#[trigger] tail[i]) || is_tag(
            tail[i],
        ) by {
            assert(tail[i] == segs[k0 + i]);
        }
    }
    assert forall|j: int| 0 <= j < k - k0 implies #[trigger] tail[j] != pat by {
        assert(tail[j] == segs[k0 + j]);
    }
    lemma_first_piece_at(tail, pat, k - k0);
    lemma_find_pieces(tail, pat);
    lemma_find_shift(segs.take(k0).flatten(), tail.flatten(), pat, 0);
    lemma_offset_split(segs, k0, k);
}

/// A search for `pat` from the start of piece `k0` finds nothing when no
/// piece from `k0` on equals `pat`.
pub proof fn lemma_find_piece_none(segs: Seq<Seq<char>>, pat: Seq<char>, k0: int)
    requires
        is_tag(pat),
        pieces_ok(segs),
        0 <= k0 <= segs.len(),
        forall|j: int| k0 <= j < segs.len() ==> #[trigger] segs[j] != pat,
    ensures
        find_from(segs.flatten(), pat, offset(segs, k0)) is None,
{
    let tail = segs.skip(k0);
    lemma_flatten_split(segs, k0);
    assert(pieces_ok(tail)) by {
        assert forall|i: int| 0 <= i < tail.len() implies lt_free(#[trigger] tail[i]) || is_tag(
            tail[i],
        ) by {
            assert(tail[i] == segs[k0 + i]);
        }
    }
    assert forall|j: int| 0 <= j < tail.len() implies #[trigger] tail[j] != pat by {
        assert(tail[j] == segs[k0 + j]);
    }
    lemma_first_piece_none(tail, pat);
    lemma_find_pieces(tail, pat);
    lemma_find_shift(segs.take(k0).flatten(), tail.flatten(), pat, 0);
}

/// Piece `k` sits at its offset, and the next piece starts right after it.
pub proof fn lemma_piece_at(segs: Seq<Seq<char>>, k: int)
    requires
        0 <= k < segs.len(),
    ensures
        offset(segs, k + 1) == offset(segs, k) + segs[k].len(),
        segs.flatten().subrange(offset(segs, k), offset(segs, k) + segs[k].len()) == segs[k],
{
    lemma_offset_split(segs, k, k + 1);
    assert(segs.skip(k).take(1) =~= seq![segs[k]]);
    seq![segs[k]].lemma_flatten_one_element();
    lemma_flatten_split(segs, k + 1);
    lemma_flatten_split(segs, k);
    lemma_flatten_concat(seq![segs[k]], segs.skip(k + 1));
    assert(seq![segs[k]] + segs.skip(k + 1) =~= segs.skip(k));
    let t = segs.flatten();
    assert(t.subrange(offset(segs, k), offset(segs, k) + segs[k].len()) =~= segs[k]);
}

/// Text for which XML escaping (apostrophes kept) changes nothing: no `&`,
/// `<`, `>` or `"`.
pub open spec fn xml_plain(s: Seq<char>) -> bool {
    forall|i: int| 0 <= i < s.len() ==> s[i] != '&' && s[i] != '<' && s[i] != '>' && s[i] != '"'
}

proof fn lemma_escape_plain(s: Seq<char>)
    requires
        xml_plain(s),
    ensures
        escape_seq_no_apos(s) == s,
    decreases s.len(),
{
    if s.len() > 0 {
        lemma_escape_plain(s.drop_last());
        assert(s.drop_last().push(s.last()) =~= s);
    }
}

/// The pieces of one `<IPAddress>` line.
spec fn ip_line_pieces(a: Seq<char>) -> Seq<Seq<char>> {
    seq!["    "@, "<IPAddress>"@, a, "</IPAddress>"@, "\n"@]
}

/// The pieces of the `<IPAddress>` lines of `s`.
spec fn ip_pieces(s: Seq<Seq<char>>) -> Seq<Seq<char>>
    decreases s.len(),
{
    if s.len() == 0 {
        Seq::empty()
    } else {
        ip_pieces(s.drop_last()) + ip_line_pieces(s.last())
    }
}

/// The addresses a document lists: `0.0.0.0` stands for none.
pub open spec fn listed_addresses(addresses: Seq<Seq<char>>) -> Seq<Seq<char>> {
    if addresses.len() == 0 {
        seq!["0.0.0.0"@]
    } else {
        addresses
    }
}

/// The `<Removed>` line as pieces.
spec fn removed_pieces(removed: bool) -> Seq<Seq<char>> {
    if removed {
        seq!["  "@, "<Removed>"@, "True"@, "</Removed>"@, "\n"@]
    } else {
        Seq::empty()
    }
}

/// The head of a document as pieces: up to the line after `</Port>`.
spec fn head_pieces(full: Seq<char>, dec: Seq<char>) -> Seq<Seq<char>> {
    seq![
        "<OMTAddress>"@,
        "\n  "@,
        "<Name>"@,
        full,
        "</Name>"@,
        "\n  "@,
        "<Port>"@,
        dec,
        "</Port>"@,
        "\n"@,
    ]
}

/// The tail of a document as pieces.
spec fn tail_pieces() -> Seq<Seq<char>> {
    seq!["  "@, "</Addresses>"@, "\n"@, "</OMTAddress>"@]
}

/// A whole document as pieces.
spec fn doc_pieces(full: Seq<char>, dec: Seq<char>, removed: bool, listed: Seq<Seq<char>>) -> Seq<
    Seq<char>,
> {
    head_pieces(full, dec) + removed_pieces(removed) + seq!["  "@, "<Addresses>"@, "\n"@]
        + ip_pieces(listed) + tail_pieces()
}

proof fn lemma_ip_pieces_shape(s: Seq<Seq<char>>)
    ensures
        ip_pieces(s).len() == 5 * s.len(),
        forall|i: int, t: int|
            0 <= i < s.len() && 0 <= t < 5 ==> #[trigger] ip_pieces(s)[5 * i + t]
                == ip_line_pieces(s[i])[t],
    decreases s.len(),
{
    if s.len() > 0 {
        let d = s.drop_last();
        lemma_ip_pieces_shape(d);
        assert forall|i: int, t: int|
            0 <= i < s.len() && 0 <= t < 5 implies #[trigger] ip_pieces(s)[5 * i + t]
                == ip_line_pieces(s[i])[t] by {
            if i < s.len() - 1 {
                assert(ip_pieces(d)[5 * i + t] == ip_line_pieces(d[i])[t]);
            }
        }
    }
}

proof fn lemma_ip_pieces_text(s: Seq<Seq<char>>)
    requires
        forall|i: int| 0 <= i < s.len() ==> xml_plain(#[trigger] s[i]),
    ensures
        ip_pieces(s).flatten() == ip_lines(s),
    decreases s.len(),
{
    broadcast use Seq::lemma_flatten_push;

    if s.len() > 0 {
        let d = s.drop_last();
        lemma_ip_pieces_text(d);
        lemma_escape_plain(s.last());
        lemma_flatten_concat(ip_pieces(d), ip_line_pieces(s.last()));
        reveal_strlit("    ");
        reveal_strlit("<IPAddress>");
        reveal_strlit("</IPAddress>");
        reveal_strlit("\n");
        reveal_strlit("    <IPAddress>");
        reveal_strlit("</IPAddress>\n");
        let a = s.last();
        let l0: Seq<Seq<char>> = Seq::empty();
        assert(l0.flatten() =~= Seq::<char>::empty());
        assert(ip_line_pieces(a) == l0.push("    "@).push("<IPAddress>"@).push(a).push(
            "</IPAddress>"@,
        ).push("\n"@));
        assert(ip_line_pieces(a).flatten() =~= "    "@ + "<IPAddress>"@ + a + "</IPAddress>"@
            + "\n"@);
        assert("    <IPAddress>"@ =~= "    "@ + "<IPAddress>"@);
        assert("</IPAddress>\n"@ =~= "</IPAddress>"@ + "\n"@);
        assert(ip_line_pieces(a).flatten() =~= "    <IPAddress>"@ + a + "</IPAddress>\n"@);
    }
}

proof fn lemma_doc_text(full: Seq<char>, port: u16, removed: bool, addresses: Seq<Seq<char>>)
    requires
        xml_plain(full),
        forall|i: int| 0 <= i < addresses.len() ==> xml_plain(#[trigger] addresses[i]),
    ensures
        doc_pieces(full, decimal(port as nat), removed, listed_addresses(addresses)).flatten()
            == address_xml(full, port, removed, addresses),
{
    broadcast use Seq::lemma_flatten_push;

    let dec = decimal(port as nat);
    let listed = listed_addresses(addresses);
    let h = head_pieces(full, dec);
    let r = removed_pieces(removed);
    let m: Seq<Seq<char>> = seq!["  "@, "<Addresses>"@, "\n"@];
    let ip = ip_pieces(listed);
    let t = tail_pieces();
    let l0: Seq<Seq<char>> = Seq::empty();
    assert(l0.flatten() =~= Seq::<char>::empty());
    lemma_escape_plain(full);
    reveal_strlit("<OMTAddress>");
    reveal_strlit("\n  ");
    reveal_strlit("<Name>");
    reveal_strlit("</Name>");
    reveal_strlit("<Port>");
    reveal_strlit("</Port>");
    reveal_strlit("\n");
    reveal_strlit("  ");
    reveal_strlit("<Removed>");
    reveal_strlit("True");
    reveal_strlit("</Removed>");
    reveal_strlit("<Addresses>");
    reveal_strlit("</Addresses>");
    reveal_strlit("</OMTAddress>");
    reveal_strlit("<OMTAddress>\n  <Name>");
    reveal_strlit("</Name>\n  <Port>");
    reveal_strlit("</Port>\n");
    reveal_strlit("  <Removed>True</Removed>\n");
    reveal_strlit("  <Addresses>\n");
    reveal_strlit("  </Addresses>\n</OMTAddress>");
    assert(h == l0.push("<OMTAddress>"@).push("\n  "@).push("<Name>"@).push(full).push(
        "</Name>"@,
    ).push("\n  "@).push("<Port>"@).push(dec).push("</Port>"@).push("\n"@));
    assert(h.flatten() =~= "<OMTAddress>\n  <Name>"@ + full + "</Name>\n  <Port>"@ + dec
        + "</Port>\n"@);
    if removed {
        assert(r == l0.push("  "@).push("<Removed>"@).push("True"@).push("</Removed>"@).push(
            "\n"@,
        ));
        assert(r.flatten() =~= "  <Removed>True</Removed>\n"@);
    } else {
        assert(r.flatten() =~= Seq::<char>::empty());
    }
    assert(m == l0.push("  "@).push("<Addresses>"@).push("\n"@));
    assert(m.flatten() =~= "  <Addresses>\n"@);
    assert(t == l0.push("  "@).push("</Addresses>"@).push("\n"@).push("</OMTAddress>"@));
    assert(t.flatten() =~= "  </Addresses>\n</OMTAddress>"@);
    let ips = if addresses.len() == 0 {
        "    <IPAddress>0.0.0.0</IPAddress>\n"@
    } else {
        ip_lines(addresses)
    };
    if addresses.len() == 0 {
        reveal_strlit("0.0.0.0");
        reveal_strlit("    <IPAddress>");
        reveal_strlit("</IPAddress>\n");
        reveal_strlit("    <IPAddress>0.0.0.0</IPAddress>\n");
        assert(xml_plain("0.0.0.0"@));
        lemma_escape_plain("0.0.0.0"@);
        assert(listed.drop_last() =~= Seq::<Seq<char>>::empty());
        assert(listed.last() == "0.0.0.0"@);
        assert(ip_lines(listed.drop_last()) =~= Seq::<char>::empty());
        assert(ip_lines(listed) == ip_lines(listed.drop_last()) + "    <IPAddress>"@
            + escape_seq_no_apos(listed.last()) + "</IPAddress>\n"@);
        assert(ip_lines(listed) =~= "    <IPAddress>"@ + "0.0.0.0"@ + "</IPAddress>\n"@);
        assert(ip_lines(listed) =~= ips);
    }
    assert(forall|i: int| 0 <= i < listed.len() ==> xml_plain(#[trigger] listed[i]));
    lemma_ip_pieces_text(listed);
    lemma_flatten_concat(h, r);
    lemma_flatten_concat(h + r, m);
    lemma_flatten_concat(h + r + m, ip);
    lemma_flatten_concat(h + r + m + ip, t);
    let rtext = if removed {
        "  <Removed>True</Removed>\n"@
    } else {
        Seq::empty()
    };
    assert(doc_pieces(full, dec, removed, listed).flatten() =~= h.flatten() + rtext
        + "  <Addresses>\n"@ + ips + "  </Addresses>\n</OMTAddress>"@);
}

proof fn lemma_pieces_ok_concat(a: Seq<Seq<char>>, b: Seq<Seq<char>>)
    requires
        pieces_ok(a),
        pieces_ok(b),
    ensures
        pieces_ok(a + b),
{
    assert forall|i: int| 0 <= i < (a + b).len() implies lt_free(#[trigger] (a + b)[i]) || is_tag(
        (a + b)[i],
    ) by {
        if i < a.len() {
            assert((a + b)[i] == a[i]);
        } else {
            assert((a + b)[i] == b[i - a.len()]);
        }
    }
}

proof fn lemma_literal_pieces()
    ensures
        is_tag("<OMTAddress>"@),
        is_tag("</OMTAddress>"@),
        is_tag("<Name>"@),
        is_tag("</Name>"@),
        is_tag("<Port>"@),
        is_tag("</Port>"@),
        is_tag("<Removed>"@),
        is_tag("</Removed>"@),
        is_tag("<Addresses>"@),
        is_tag("</Addresses>"@),
        is_tag("<IPAddress>"@),
        is_tag("</IPAddress>"@),
        lt_free("\n  "@),
        lt_free("\n"@),
        lt_free("  "@),
        lt_free("    "@),
        lt_free("True"@),
{
    reveal_strlit("<OMTAddress>");
    reveal_strlit("</OMTAddress>");
    reveal_strlit("<Name>");
    reveal_strlit("</Name>");
    reveal_strlit("<Port>");
    reveal_strlit("</Port>");
    reveal_strlit("<Removed>");
    reveal_strlit("</Removed>");
    reveal_strlit("<Addresses>");
    reveal_strlit("</Addresses>");
    reveal_strlit("<IPAddress>");
    reveal_strlit("</IPAddress>");
    reveal_strlit("\n  ");
    reveal_strlit("\n");
    reveal_strlit("  ");
    reveal_strlit("    ");
    reveal_strlit("True");
}

proof fn lemma_ip_pieces_ok(s: Seq<Seq<char>>)
    requires
        forall|i: int| 0 <= i < s.len() ==> lt_free(#[trigger] s[i]),
    ensures
        pieces_ok(ip_pieces(s)),
    decreases s.len(),
{
    if s.len() > 0 {
        lemma_ip_pieces_ok(s.drop_last());
        lemma_literal_pieces();
        assert(lt_free(s.last()));
        lemma_pieces_ok_concat(ip_pieces(s.drop_last()), ip_line_pieces(s.last()));
    }
}

proof fn lemma_doc_pieces_ok(full: Seq<char>, dec: Seq<char>, removed: bool, listed: Seq<Seq<char>>)
    requires
        lt_free(full),
        lt_free(dec),
        forall|i: int| 0 <= i < listed.len() ==> lt_free(#[trigger] listed[i]),
    ensures
        pieces_ok(doc_pieces(full, dec, removed, listed)),
{
    lemma_literal_pieces();
    let h = head_pieces(full, dec);
    let r = removed_pieces(removed);
    let m: Seq<Seq<char>> = seq!["  "@, "<Addresses>"@, "\n"@];
    assert(pieces_ok(h));
    assert(pieces_ok(r));
    assert(pieces_ok(m));
    assert(pieces_ok(tail_pieces()));
    lemma_ip_pieces_ok(listed);
    lemma_pieces_ok_concat(h, r);
    lemma_pieces_ok_concat(h + r, m);
    lemma_pieces_ok_concat(h + r + m, ip_pieces(listed));
    lemma_pieces_ok_concat(h + r + m + ip_pieces(listed), tail_pieces());
}

proof fn lemma_offset_bounds(segs: Seq<Seq<char>>, a: int, b: int)
    requires
        0 <= a <= b <= segs.len(),
    ensures
        0 <= offset(segs, a) <= offset(segs, b) <= segs.flatten().len(),
{
    lemma_offset_split(segs, a, b);
    lemma_offset_split(segs, b, segs.len() as int);
    lemma_offset_split(segs, 0, a);
    assert(segs.take(segs.len() as int) =~= segs);
}

/// A `<tag>` piece, then text without `<`, then `</tag>`, with no earlier
/// `<tag>` piece: the tag's text is that text, trimmed.
proof fn lemma_tag_text_at(segs: Seq<Seq<char>>, tag: Seq<char>, k: int)
    requires
        pieces_ok(segs),
        is_tag(tag_open(tag)),
        is_tag(tag_close(tag)),
        0 <= k,
        k + 2 < segs.len(),
        segs[k] == tag_open(tag),
        lt_free(segs[k + 1]),
        segs[k + 2] == tag_close(tag),
        forall|j: int| 0 <= j < k ==> #[trigger] segs[j] != tag_open(tag),
    ensures
        tag_text(segs.flatten(), tag) == Some(trim(segs[k + 1])),
{
    let open = tag_open(tag);
    let close = tag_close(tag);
    assert(segs.take(0) =~= Seq::<Seq<char>>::empty());
    assert(offset(segs, 0) == 0);
    lemma_find_piece_from(segs, open, 0, k);
    lemma_piece_at(segs, k);
    assert(segs[k + 1] != close) by {
        if segs[k + 1] == close {
            assert(segs[k + 1][0] == '<');
        }
    }
    lemma_find_piece_from(segs, close, k + 1, k + 2);
    lemma_piece_at(segs, k + 1);
}

/// No `<tag>` piece: the tag has no text.
proof fn lemma_tag_text_none(segs: Seq<Seq<char>>, tag: Seq<char>)
    requires
        pieces_ok(segs),
        is_tag(tag_open(tag)),
        forall|j: int| 0 <= j < segs.len() ==> #[trigger] segs[j] != tag_open(tag),
    ensures
        tag_text(segs.flatten(), tag) is None,
{
    assert(segs.take(0) =~= Seq::<Seq<char>>::empty());
    lemma_find_piece_none(segs, tag_open(tag), 0);
}

/// From piece `k0`, the texts of a tag are that of the first `<tag>` piece
/// at `k`, then those from the piece after its `</tag>`.
proof fn lemma_tag_texts_step(segs: Seq<Seq<char>>, tag: Seq<char>, k0: int, k: int)
    requires
        pieces_ok(segs),
        is_tag(tag_open(tag)),
        is_tag(tag_close(tag)),
        0 <= k0 <= k,
        k + 2 < segs.len(),
        segs[k] == tag_open(tag),
        lt_free(segs[k + 1]),
        segs[k + 2] == tag_close(tag),
        forall|j: int| k0 <= j < k ==> #[trigger] segs[j] != tag_open(tag),
    ensures
        tag_texts(segs.flatten(), tag, offset(segs, k0)) == seq![trim(segs[k + 1])] + tag_texts(
            segs.flatten(),
            tag,
            offset(segs, k + 3),
        ),
{
    let open = tag_open(tag);
    let close = tag_close(tag);
    lemma_find_piece_from(segs, open, k0, k);
    lemma_piece_at(segs, k);
    assert(segs[k + 1] != close) by {
        if segs[k + 1] == close {
            assert(segs[k + 1][0] == '<');
        }
    }
    lemma_find_piece_from(segs, close, k + 1, k + 2);
    lemma_piece_at(segs, k + 1);
    lemma_piece_at(segs, k + 2);
    lemma_offset_bounds(segs, k0, k);
    lemma_offset_bounds(segs, k + 3, segs.len() as int);
}

/// From piece `k0`, no `<tag>` piece: no texts.
proof fn lemma_tag_texts_none(segs: Seq<Seq<char>>, tag: Seq<char>, k0: int)
    requires
        pieces_ok(segs),
        is_tag(tag_open(tag)),
        0 <= k0 <= segs.len(),
        forall|j: int| k0 <= j < segs.len() ==> #[trigger] segs[j] != tag_open(tag),
    ensures
        tag_texts(segs.flatten(), tag, offset(segs, k0)) == Seq::<Seq<char>>::empty(),
{
    lemma_find_piece_none(segs, tag_open(tag), k0);
}

proof fn lemma_doc_shape(
    full: Seq<char>,
    dec: Seq<char>,
    removed: bool,
    listed: Seq<Seq<char>>,
    r: int,
    b: int,
    n: int,
)
    requires
        r == if removed {
            5int
        } else {
            0int
        },
        b == 13 + r,
        n == listed.len(),
    ensures
        doc_pieces(full, dec, removed, listed).len() == b + 5 * n + 4,
        forall|j: int|
            0 <= j < 10 ==> #[trigger] doc_pieces(full, dec, removed, listed)[j] == head_pieces(
                full,
                dec,
            )[j],
        forall|j: int|
            0 <= j < r ==> #[trigger] doc_pieces(full, dec, removed, listed)[10 + j]
                == removed_pieces(removed)[j],
        doc_pieces(full, dec, removed, listed)[10 + r] == "  "@,
        doc_pieces(full, dec, removed, listed)[11 + r] == "<Addresses>"@,
        doc_pieces(full, dec, removed, listed)[12 + r] == "\n"@,
        forall|i: int, t: int|
            0 <= i < n && 0 <= t < 5 ==> #[trigger] doc_pieces(full, dec, removed, listed)[b + 5
                * i + t] == ip_line_pieces(listed[i])[t],
        forall|t: int|
            0 <= t < 4 ==> #[trigger] doc_pieces(full, dec, removed, listed)[b + 5 * n + t]
                == tail_pieces()[t],
{
    let h = head_pieces(full, dec);
    let rp = removed_pieces(removed);
    let m: Seq<Seq<char>> = seq!["  "@, "<Addresses>"@, "\n"@];
    let ip = ip_pieces(listed);
    let t = tail_pieces();
    let segs = doc_pieces(full, dec, removed, listed);
    lemma_ip_pieces_shape(listed);
    assert(rp.len() == r);
    assert forall|j: int| 0 <= j < 10 implies #[trigger] segs[j] == h[j] by {
        assert(segs == h + rp + m + ip + t);
    }
    assert forall|j: int| 0 <= j < r implies #[trigger] segs[10 + j] == rp[j] by {}
    assert forall|i: int, u: int|
        0 <= i < n && 0 <= u < 5 implies #[trigger] segs[b + 5 * i + u] == ip_line_pieces(
            listed[i],
        )[u] by {
        assert(ip[5 * i + u] == ip_line_pieces(listed[i])[u]);
        assert(segs[b + 5 * i + u] == ip[5 * i + u]);
    }
    assert forall|u: int| 0 <= u < 4 implies #[trigger] segs[b + 5 * n + u] == t[u] by {}
}

proof fn lemma_tag_names()
    ensures
        tag_open("Name"@) == "<Name>"@,
        tag_close("Name"@) == "</Name>"@,
        tag_open("Port"@) == "<Port>"@,
        tag_close("Port"@) == "</Port>"@,
        tag_open("Removed"@) == "<Removed>"@,
        tag_close("Removed"@) == "</Removed>"@,
        tag_open("IPAddress"@) == "<IPAddress>"@,
        tag_close("IPAddress"@) == "</IPAddress>"@,
{
    reveal_strlit("<");
    reveal_strlit("</");
    reveal_strlit(">");
    reveal_strlit("Name");
    reveal_strlit("Port");
    reveal_strlit("Removed");
    reveal_strlit("IPAddress");
    reveal_strlit("<Name>");
    reveal_strlit("</Name>");
    reveal_strlit("<Port>");
    reveal_strlit("</Port>");
    reveal_strlit("<Removed>");
    reveal_strlit("</Removed>");
    reveal_strlit("<IPAddress>");
    reveal_strlit("</IPAddress>");
    assert(tag_open("Name"@) =~= "<Name>"@);
    assert(tag_close("Name"@) =~= "</Name>"@);
    assert(tag_open("Port"@) =~= "<Port>"@);
    assert(tag_close("Port"@) =~= "</Port>"@);
    assert(tag_open("Removed"@) =~= "<Removed>"@);
    assert(tag_close("Removed"@) =~= "</Removed>"@);
    assert(tag_open("IPAddress"@) =~= "<IPAddress>"@);
    assert(tag_close("IPAddress"@) =~= "</IPAddress>"@);
}

/// Text without `<` is no tag.
proof fn lemma_text_not_tag(x: Seq<char>, p: Seq<char>)
    requires
        lt_free(x),
        is_tag(p),
    ensures
        x != p,
{
    if x == p {
        assert(x[0] == '<');
    }
}

/// The `<IPAddress>` lines from line `i` on read back as the addresses from
/// `i` on.
proof fn lemma_ip_texts(segs: Seq<Seq<char>>, b: int, listed: Seq<Seq<char>>, i: int, k0: int)
    requires
        pieces_ok(segs),
        0 <= i <= listed.len(),
        0 <= k0 <= b + 5 * i,
        segs.len() == b + 5 * listed.len() + 4,
        forall|j: int| k0 <= j < b + 5 * i ==> #[trigger] segs[j] != "<IPAddress>"@,
        forall|j: int| b + 5 * listed.len() <= j < segs.len() ==> #[trigger] segs[j] != "<IPAddress>"@,
        forall|a: int, t: int|
            0 <= a < listed.len() && 0 <= t < 5 ==> #[trigger] segs[b + 5 * a + t]
                == ip_line_pieces(listed[a])[t],
        forall|a: int|
            0 <= a < listed.len() ==> lt_free(#[trigger] listed[a]) && trim(listed[a])
                == listed[a],
    ensures
        tag_texts(segs.flatten(), "IPAddress"@, offset(segs, k0)) == listed.skip(i),
    decreases listed.len() - i,
{
    lemma_tag_names();
    lemma_literal_pieces();
    let open = "<IPAddress>"@;
    if i == listed.len() {
        lemma_tag_texts_none(segs, "IPAddress"@, k0);
        assert(listed.skip(i) =~= Seq::<Seq<char>>::empty());
    } else {
        let k = b + 5 * i + 1;
        assert(segs[b + 5 * i + 0] == "    "@);
        assert(segs[b + 5 * i + 1] == open);
        assert(segs[b + 5 * i + 2] == listed[i]);
        assert(segs[b + 5 * i + 3] == "</IPAddress>"@);
        assert(segs[b + 5 * i + 4] == "\n"@);
        lemma_text_not_tag("    "@, open);
        lemma_text_not_tag("\n"@, open);
        assert forall|j: int| k0 <= j < k implies #[trigger] segs[j] != open by {
            if j == b + 5 * i {
                assert(segs[b + 5 * i + 0] == segs[j]);
            }
        }
        lemma_tag_texts_step(segs, "IPAddress"@, k0, k);
        assert forall|j: int| k + 3 <= j < b + 5 * (i + 1) implies #[trigger] segs[j] != open by {
            assert(j == b + 5 * i + 4);
        }
        lemma_ip_texts(segs, b, listed, i + 1, k + 3);
        assert(listed.skip(i) =~= seq![listed[i]] + listed.skip(i + 1));
    }
}

/// Reading back an `<OMTAddress>` document gives the name, port, removed flag
/// and addresses it was written from (no addresses are written, and read
/// back, as `0.0.0.0`), when the name and the addresses hold none of `&`,
/// `<`, `>`, `"` and no surrounding white space.
pub proof fn lemma_address_xml_roundtrip(
    full: Seq<char>,
    port: u16,
    removed: bool,
    addresses: Seq<Seq<char>>,
)
    requires
        xml_plain(full),
        trim(full) == full,
        forall|i: int|
            0 <= i < addresses.len() ==> xml_plain(#[trigger] addresses[i]) && trim(addresses[i])
                == addresses[i],
    ensures
        address_doc(address_xml(full, port, removed, addresses)) == Ok::<
            (Seq<char>, u16, bool, Seq<Seq<char>>),
            Seq<char>,
        >((full, port, removed, listed_addresses(addresses))),
{
    let dec = decimal(port as nat);
    let listed = listed_addresses(addresses);
    let segs = doc_pieces(full, dec, removed, listed);
    let r: int = if removed {
        5
    } else {
        0
    };
    let b = 13 + r;
    let n = listed.len() as int;
    lemma_literal_pieces();
    lemma_tag_names();
    lemma_parse_decimal_port(port);
    assert(lt_free(dec));
    if addresses.len() == 0 {
        reveal_strlit("0.0.0.0");
        assert(xml_plain("0.0.0.0"@));
        assert(!is_ws("0.0.0.0"@[0]));
        lemma_trim_plain("0.0.0.0"@);
    }
    assert forall|a: int| 0 <= a < listed.len() implies xml_plain(#[trigger] listed[a]) && trim(
        listed[a],
    ) == listed[a] by {
        if addresses.len() == 0 {
            assert(listed[a] == "0.0.0.0"@);
        }
    }
    assert forall|a: int| 0 <= a < listed.len() implies lt_free(#[trigger] listed[a]) by {
        assert(xml_plain(listed[a]));
    }
    assert(lt_free(full));
    lemma_doc_text(full, port, removed, addresses);
    lemma_doc_pieces_ok(full, dec, removed, listed);
    lemma_doc_shape(full, dec, removed, listed, r, b, n);
    assert(segs[0] == "<OMTAddress>"@ && segs[1] == "\n  "@ && segs[2] == "<Name>"@);
    assert(segs[3] == full && segs[4] == "</Name>"@ && segs[5] == "\n  "@);
    assert(segs[6] == "<Port>"@ && segs[7] == dec && segs[8] == "</Port>"@ && segs[9] == "\n"@);
    reveal_strlit("<OMTAddress>");
    reveal_strlit("<Name>");
    reveal_strlit("<Port>");
    reveal_strlit("<Removed>");
    reveal_strlit("</Name>");
    reveal_strlit("</Port>");
    reveal_strlit("<Addresses>");
    reveal_strlit("<IPAddress>");
    reveal_strlit("</Addresses>");
    reveal_strlit("</OMTAddress>");
    lemma_text_not_tag("\n  "@, "<Name>"@);
    lemma_tag_text_at(segs, "Name"@, 2);
    lemma_text_not_tag("\n  "@, "<Port>"@);
    lemma_text_not_tag(full, "<Port>"@);
    assert forall|j: int| 0 <= j < 6 implies #[trigger] segs[j] != "<Port>"@ by {
        if j == 0 {
            assert(segs[0].len() != "<Port>"@.len());
        } else if j == 2 {
            assert(segs[2][1] != "<Port>"@[1]);
        }
    }
    lemma_tag_text_at(segs, "Port"@, 6);
    // <Removed>
    lemma_text_not_tag("\n  "@, "<Removed>"@);
    lemma_text_not_tag("\n"@, "<Removed>"@);
    lemma_text_not_tag("  "@, "<Removed>"@);
    lemma_text_not_tag(full, "<Removed>"@);
    lemma_text_not_tag(dec, "<Removed>"@);
    assert forall|j: int| 0 <= j < 10 implies #[trigger] segs[j] != "<Removed>"@ by {
        if j == 3 {
        } else if j == 7 {
        }
    }
    if removed {
        reveal_strlit("True");
        reveal_strlit("true");
        assert(segs[10] == "  "@ && segs[11] == "<Removed>"@ && segs[12] == "True"@ && segs[13]
            == "</Removed>"@);
        assert forall|j: int| 0 <= j < 11 implies #[trigger] segs[j] != "<Removed>"@ by {
            if j == 10 {
            }
        }
        lemma_tag_text_at(segs, "Removed"@, 11);
        assert(!is_ws("True"@[0]));
        lemma_trim_plain("True"@);
        assert(eq_ignore_case("True"@, "true"@));
    } else {
        lemma_text_not_tag("    "@, "<Removed>"@);
        assert forall|j: int| 0 <= j < segs.len() implies #[trigger] segs[j] != "<Removed>"@ by {
            if j < 10 {
            } else if 10 <= j < b {
                if j == 11 {
                    assert(segs[11].len() != "<Removed>"@.len());
                }
            } else if b <= j < b + 5 * n {
                let a = (j - b) / 5;
                let u = (j - b) % 5;
                assert(j == b + 5 * a + u && 0 <= a < n && 0 <= u < 5) by (nonlinear_arith)
                    requires
                        b <= j < b + 5 * n,
                        a == (j - b) / 5,
                        u == (j - b) % 5,
                ;
                assert(segs[b + 5 * a + u] == ip_line_pieces(listed[a])[u]);
                if u == 2 {
                    lemma_text_not_tag(listed[a], "<Removed>"@);
                }
            } else {
                let u = j - b - 5 * n;
                assert(segs[b + 5 * n + u] == tail_pieces()[u]);
                if u == 1 {
                    assert(segs[j].len() != "<Removed>"@.len());
                } else if u == 3 {
                    assert(segs[j].len() != "<Removed>"@.len());
                }
            }
        }
        lemma_tag_text_none(segs, "Removed"@);
    }
    // <IPAddress>
    lemma_text_not_tag("\n  "@, "<IPAddress>"@);
    lemma_text_not_tag("\n"@, "<IPAddress>"@);
    lemma_text_not_tag("  "@, "<IPAddress>"@);
    lemma_text_not_tag("True"@, "<IPAddress>"@);
    lemma_text_not_tag(full, "<IPAddress>"@);
    lemma_text_not_tag(dec, "<IPAddress>"@);
    assert forall|j: int| 0 <= j < b implies #[trigger] segs[j] != "<IPAddress>"@ by {
        if j < 10 {
            if j == 0 || j == 4 || j == 8 {
                assert(segs[j].len() != "<IPAddress>"@.len());
            } else if j == 2 || j == 6 {
                assert(segs[j].len() != "<IPAddress>"@.len());
            }
        } else if j < 10 + r {
            let u = j - 10;
            assert(segs[10 + u] == removed_pieces(removed)[u]);
            if u == 1 || u == 3 {
                reveal_strlit("</Removed>");
                assert(segs[j].len() != "<IPAddress>"@.len());
            }
        } else if j == 11 + r {
            assert(segs[j][1] != "<IPAddress>"@[1]);
        }
    }
    assert forall|j: int| b + 5 * n <= j < segs.len() implies #[trigger] segs[j]
        != "<IPAddress>"@ by {
        let u = j - b - 5 * n;
        assert(segs[b + 5 * n + u] == tail_pieces()[u]);
        if u == 1 || u == 3 {
            assert(segs[j].len() != "<IPAddress>"@.len());
        }
    }
    assert(segs.take(0) =~= Seq::<Seq<char>>::empty());
    lemma_ip_texts(segs, b, listed, 0, 0);
    assert(listed.skip(0) =~= listed);
}

/// Reading back the document of an address gives the address again:
/// `from_xml(a.to_xml())` has the machine name, name, port, removed flag and
/// addresses of `a`, when its name parts are read back unchanged from its
/// instance name (see [`instance_parts_ok`]), they and the addresses hold
/// none of `&`, `<`, `>`, `"`, the addresses have no white space at either
/// end, and there is at least one address.
pub proof fn lemma_xml_address_roundtrip(
    machine: Seq<char>,
    name: Seq<char>,
    port: u16,
    removed: bool,
    addresses: Seq<Seq<char>>,
)
    requires
        instance_parts_ok(machine, name),
        xml_plain(machine),
        xml_plain(name),
        addresses.len() > 0,
        forall|i: int|
            0 <= i < addresses.len() ==> xml_plain(#[trigger] addresses[i]) && trim(addresses[i])
                == addresses[i],
    ensures
        address_doc(address_xml(instance_text(machine, name), port, removed, addresses)) matches Ok(
            d,
        ) && limited_view(full_name_parts(d.0).0, full_name_parts(d.0).1, d.1, d.3, d.2) == (
            name,
            machine,
            port,
            addresses,
            removed,
        ),
{
    let full = instance_text(machine, name);
    reveal_strlit(" (");
    reveal_strlit(")");
    if machine.len() == 0 {
        assert(full == name);
    } else {
        lemma_trimmed_ends(machine);
        assert(full[0] == machine[0]);
        assert(full[full.len() - 1] == ')');
        lemma_trim_plain(full);
        let m = machine.len() as int;
        assert forall|i: int| 0 <= i < full.len() implies full[i] != '&' && full[i] != '<' && full[i]
            != '>' && full[i] != '"' by {
            if i < m {
                assert(full[i] == machine[i]);
            } else if m + 2 <= i < m + 2 + name.len() {
                assert(full[i] == name[i - m - 2]);
            }
        }
    }
    lemma_address_xml_roundtrip(full, port, removed, addresses);
    lemma_instance_name_roundtrip(machine, name);
}

} // verus!
