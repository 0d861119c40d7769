//! Settings of a discovery client: the server it talks to.
use vstd::prelude::*;
use crate::discovery::mdns::starts_with;
use crate::error::OmtError;
use crate::protocol::metadata::{parse_u16, parse_u16_text};
use crate::text::{str_chars, string_of, owned, push_str, find_from, find_chars, rfind_char, rfind_char_in, lemma_find_from_bounds};
use crate::types::{DISCOVERY_SERVER_DEFAULT_PORT, URL_PREFIX};

verus! {

broadcast use vstd::string::group_string_axioms;

/// The server part of a discovery server URL: without a leading `omt://`,
/// up to the first `/`.
pub open spec fn server_part(url: Seq<char>) -> Seq<char> {
    let rest = if starts_with(url, "omt://"@) {
        url.skip(6)
    } else {
        url
    };
    match find_from(rest, seq!['/'], 0) {
        Some(k) => rest.take(k),
        None => rest,
    }
}

/// Host and port of a discovery server URL (`omt://host:port`, or a bare
/// host for the default port 6399): the port is what follows the last `:`.
/// An unreadable port gives its text.
pub open spec fn server_url_parts(url: Seq<char>) -> Result<(Seq<char>, u16), Seq<char>> {
    let part = server_part(url);
    match rfind_char(part, ':') {
        Some(k) => match parse_u16(part.skip(k + 1)) {
            Some(p) => Ok((part.take(k), p)),
            None => Err(part.skip(k + 1)),
        },
        None => Ok((part, DISCOVERY_SERVER_DEFAULT_PORT)),
    }
}

proof fn lemma_rfind_char_bound(s: Seq<char>, c: char)
    ensures
        rfind_char(s, c) matches Some(k) ==> 0 <= k < s.len(),
    decreases s.len(),
{
    if s.len() > 0 && s.last() != c {
        lemma_rfind_char_bound(s.drop_last(), c);
    }
}

/// Host and port of a discovery server URL (`omt://host:port` or a bare
/// host, for port 6399).
pub fn parse_server_url(url: &str) -> (r: Result<(String, u16), OmtError>)
    ensures
        match server_url_parts(url@) {
            Ok((h, p)) => r matches Ok((rh, rp)) && rh@ == h && rp == p,
            Err(t) => r matches Err(OmtError::InvalidArgument(m)) && m@
                == "invalid discovery server port: "@ + t,
        },
{
    let cs = str_chars(url);
    let pre = str_chars(URL_PREFIX);
    proof {
        reveal_strlit("omt://");
    }
    let mut start: usize = 0;
    if pre.len() <= cs.len() {
        let mut same = true;
        let mut i: usize = 0;
        while i < pre.len()
            invariant
                pre@ == "omt://"@,
                pre@.len() <= cs@.len(),
                i <= pre@.len(),
                same == (forall|j: int| 0 <= j < i ==> cs@[j] == pre@[j]),
            decreases pre@.len() - i,
        {
            if cs[i] != pre[i] {
                same = false;
            }
            i = i + 1;
        }
        if same {
            assert(cs@.take(6) =~= pre@);
            start = pre.len();
        } else {
            assert(!starts_with(url@, "omt://"@)) by {
                if starts_with(url@, "omt://"@) {
                    assert forall|j: int| 0 <= j < 6 implies cs@[j] == pre@[j] by {
                        assert(cs@.take(6)[j] == cs@[j]);
                    }
                }
            }
        }
    }
    let ghost rest = if starts_with(url@, "omt://"@) {
        url@.skip(6)
    } else {
        url@
    };
    assert(cs@.subrange(start as int, cs@.len() as int) =~= rest);
    let tail = string_of(cs.as_slice(), start, cs.len());
    let tcs = str_chars(tail.as_str());
    let slash = ['/'];
    let end: usize = match find_chars(tcs.as_slice(), slash.as_slice(), 0) {
        Some(k) => {
            proof {
                lemma_find_from_bounds(tcs@, slash@, 0);
                assert(slash@ =~= seq!['/']);
            }
            k
        },
        None => {
            assert(slash@ =~= seq!['/']);
            tcs.len()
        },
    };
    let ghost part = server_part(url@);
    assert(tcs@.take(end as int) =~= part) by {
        assert(slash@ =~= seq!['/']);
        if end == tcs.len() {
            assert(tcs@.take(end as int) =~= tcs@);
        }
    }
    let part = string_of(tcs.as_slice(), 0, end);
    let pc = str_chars(part.as_str());
    proof {
        assert(tcs@.subrange(0, end as int) =~= tcs@.take(end as int));
        lemma_rfind_char_bound(pc@, ':');
    }
    match rfind_char_in(pc.as_slice(), ':') {
        Some(k) => {
            let host = string_of(pc.as_slice(), 0, k);
            let port_text = string_of(pc.as_slice(), k + 1, pc.len());
            proof {
                assert(pc@.subrange(0, k as int) =~= pc@.take(k as int));
                assert(pc@.subrange(k + 1, pc@.len() as int) =~= pc@.skip(k + 1));
            }
            match parse_u16_text(port_text.as_str()) {
                Some(p) => Ok((host, p)),
                None => {
                    let mut m = owned("invalid discovery server port: ");
                    push_str(&mut m, port_text.as_str());
                    Err(OmtError::InvalidArgument(m))
                },
            }
        },
        None => Ok((part, DISCOVERY_SERVER_DEFAULT_PORT)),
    }
}

} // verus!
