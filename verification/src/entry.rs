//! A managed redirect entry: a domain and the address it redirects to,
//! parsed from and rendered to one `<address> <domain>` line.

use vstd::prelude::*;
use crate::ip::{
    spec_parse_ipv4, spec_render_ipv4, parse_ipv4_range, push_ipv4, Ipv4Address,
    lemma_ipv4_roundtrip,
};
use crate::text::{
    chars_to_string, first_token, is_space, lemma_token_len_at, lemma_trim_start_at,
    rest_after_token, scan_token, skip_spaces, str_to_chars, trim_start,
};

verus! {

/// Why a line is not a managed entry.
#[derive(Clone, Copy, PartialEq, Eq, Structural, Debug)]
pub enum ParseError {
    /// The line has no tokens at all.
    MissingAddress,
    /// The first token is not a dotted-quad IPv4 address.
    InvalidAddress,
    /// There is no second token to serve as the domain.
    MissingDomain,
}

/// One website redirect: a domain sent to an address.
#[derive(Debug, Clone, PartialEq)]
pub struct Website {
    pub domain: String,
    pub redirect_ip: Ipv4Address,
    pub is_blocked: bool,
}

/// The mathematical value of a `Website`.
#[verifier::ext_equal]
pub struct WebsiteV {
    pub domain: Seq<char>,
    pub redirect_ip: Ipv4Address,
    pub is_blocked: bool,
}

impl View for Website {
    type V = WebsiteV;

    open spec fn view(&self) -> WebsiteV {
        WebsiteV {
            domain: self.domain@,
            redirect_ip: self.redirect_ip,
            is_blocked: self.is_blocked,
        }
    }
}

/// What a line denotes: its first token read as an address, its second
/// token taken verbatim as the domain, further tokens ignored.
pub open spec fn spec_parse_entry(s: Seq<char>) -> Result<WebsiteV, ParseError> {
    let t1 = first_token(s);
    if t1.len() == 0 {
        Err(ParseError::MissingAddress)
    } else {
        match spec_parse_ipv4(t1) {
            None => Err(ParseError::InvalidAddress),
            Some(ip) => {
                let t2 = first_token(rest_after_token(s));
                if t2.len() == 0 {
                    Err(ParseError::MissingDomain)
                } else {
                    Ok(WebsiteV { domain: t2, redirect_ip: ip, is_blocked: true })
                }
            },
        }
    }
}

/// The `<address> <domain>` line of an entry.
pub open spec fn spec_entry_line(w: WebsiteV) -> Seq<char> {
    spec_render_ipv4(w.redirect_ip) + seq![' '] + w.domain
}

/// A domain the renderer can round-trip: non-empty and free of
/// whitespace.
pub open spec fn good_domain(d: Seq<char>) -> bool {
    d.len() > 0 && forall|i: int| 0 <= i < d.len() ==> !is_space(d[i])
}

impl Website {
    /// Reads one line as a managed entry, as `spec_parse_entry` says.
    pub fn from_string(value: &str) -> (r: Result<Website, ParseError>)
        ensures
            r is Ok <==> spec_parse_entry(value@) is Ok,
            r is Ok ==> spec_parse_entry(value@) == Ok::<WebsiteV, ParseError>(r->Ok_0@),
            r is Err ==> spec_parse_entry(value@) == Err::<WebsiteV, ParseError>(r->Err_0),
    {
        let v = str_to_chars(value);
        Website::parse_chars(&v)
    }

    /// Reads one line, given as its characters, as a managed entry.
    pub fn parse_chars(v: &Vec<char>) -> (r: Result<Website, ParseError>)
        ensures
            r is Ok <==> spec_parse_entry(v@) is Ok,
            r is Ok ==> spec_parse_entry(v@) == Ok::<WebsiteV, ParseError>(r->Ok_0@),
            r is Err ==> spec_parse_entry(v@) == Err::<WebsiteV, ParseError>(r->Err_0),
    {
        let i0 = skip_spaces(v, 0);
        proof {
            lemma_trim_start_at(v@, i0 as int);
        }
        let j = scan_token(v, i0);
        proof {
            let t = v@.skip(i0 as int);
            assert forall|k: int| 0 <= k < j - i0 implies !is_space(t[k]) by {
                assert(t[k] == v@[i0 + k]);
            }
            if j < v@.len() {
                assert(t[j - i0] == v@[j as int]);
            }
            lemma_token_len_at(t, j - i0);
            assert(first_token(v@) =~= v@.subrange(i0 as int, j as int));
            assert(rest_after_token(v@) =~= v@.skip(j as int));
        }
        if i0 == j {
            proof {
                assert(first_token(v@).len() == 0);
            }
            return Err(ParseError::MissingAddress);
        }
        let ip = match parse_ipv4_range(v, i0, j) {
            Some(ip) => ip,
            None => {
                return Err(ParseError::InvalidAddress);
            },
        };
        let k = skip_spaces(v, j);
        proof {
            let rest = v@.skip(j as int);
            assert forall|m: int| 0 <= m < k - j implies is_space(rest[m]) by {
                assert(rest[m] == v@[j + m]);
            }
            if k < v@.len() {
                assert(rest[k - j] == v@[k as int]);
            }
            lemma_trim_start_at(rest, k - j);
        }
        let m = scan_token(v, k);
        proof {
            let rest2 = v@.skip(k as int);
            assert(v@.skip(j as int).skip(k - j) =~= rest2);
            assert forall|n: int| 0 <= n < m - k implies !is_space(rest2[n]) by {
                assert(rest2[n] == v@[k + n]);
            }
            if m < v@.len() {
                assert(rest2[m - k] == v@[m as int]);
            }
            lemma_token_len_at(rest2, m - k);
            assert(first_token(rest_after_token(v@)) =~= v@.subrange(k as int, m as int));
        }
        if k == m {
            return Err(ParseError::MissingDomain);
        }
        let domain = chars_to_string(v, k, m);
        Ok(Website { domain, redirect_ip: ip, is_blocked: true })
    }
}

/// Appends the `<address> <domain>` line of the entry.
pub fn push_entry_line(dst: &mut Vec<char>, w: &Website)
    ensures
        final(dst)@ == old(dst)@ + spec_entry_line(w@),
{
    push_ipv4(dst, w.redirect_ip);
    dst.push(' ');
    crate::text::push_str_chars(dst, w.domain.as_str());
    proof {
        assert(final(dst)@ =~= old(dst)@ + spec_entry_line(w@));
    }
}

/// Parsing the rendered line of an entry with a round-trippable domain
/// restores the entry; the line holds no line break.
pub proof fn lemma_entry_line_roundtrip(w: WebsiteV)
    requires
        good_domain(w.domain),
        w.is_blocked,
    ensures
        spec_parse_entry(spec_entry_line(w)) == Ok::<WebsiteV, ParseError>(w),
        forall|i: int| 0 <= i < spec_entry_line(w).len() ==> spec_entry_line(w)[i] != '\n',
{
    let ipt = spec_render_ipv4(w.redirect_ip);
    lemma_ipv4_roundtrip(w.redirect_ip);
    let line = spec_entry_line(w);
    assert(line[0] == ipt[0]);
    assert(!is_space(line[0]));
    assert(trim_start(line) == line);
    assert forall|k: int| 0 <= k < ipt.len() implies !is_space(line[k]) by {
        assert(line[k] == ipt[k]);
    }
    assert(line[ipt.len() as int] == ' ');
    lemma_token_len_at(line, ipt.len() as int);
    assert(first_token(line) =~= ipt);
    assert(spec_parse_ipv4(first_token(line)) == Some(w.redirect_ip));
    let rest = rest_after_token(line);
    assert(rest =~= seq![' '] + w.domain);
    assert(is_space(rest[0]));
    assert(rest[1] == w.domain[0]);
    assert forall|k: int| 1 <= k < rest.len() implies !is_space(rest[k]) by {
        assert(rest[k] == w.domain[k - 1]);
    }
    lemma_trim_start_at(rest, 1);
    assert(trim_start(rest) =~= w.domain);
    lemma_token_len_at(w.domain, w.domain.len() as int);
    assert(first_token(rest) =~= w.domain);
    assert(spec_parse_entry(line) == Ok::<WebsiteV, ParseError>(
        WebsiteV { domain: w.domain, redirect_ip: w.redirect_ip, is_blocked: true },
    ));
    assert(WebsiteV { domain: w.domain, redirect_ip: w.redirect_ip, is_blocked: true } =~= w);
    assert forall|i: int| 0 <= i < line.len() implies line[i] != '\n' by {
        if i < ipt.len() {
            assert(line[i] == ipt[i]);
            assert(!is_space(ipt[i]));
        } else if i == ipt.len() {
            assert(line[i] == ' ');
        } else {
            assert(line[i] == w.domain[i - ipt.len() - 1]);
            assert(!is_space(w.domain[i - ipt.len() - 1]));
        }
    }
}

} // verus!
