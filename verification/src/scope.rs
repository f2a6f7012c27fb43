use vstd::prelude::*;

verus! {

/// ASCII lower-casing of a single character; everything outside `A..=Z`
/// is left alone.
pub open spec fn lower_char(c: char) -> char {
    if 'A' <= c && c <= 'Z' {
        ((c as u8) + 32) as char
    } else {
        c
    }
}

/// ASCII lower-casing of a whole character sequence.
pub open spec fn lower_seq(s: Seq<char>) -> Seq<char> {
    s.map_values(|c: char| lower_char(c))
}

/// Two host names name the same host exactly when they agree up to
/// ASCII case; no suffix matching.
pub open spec fn hosts_match(candidate_host: Seq<char>, origin_host: Seq<char>) -> bool {
    lower_seq(candidate_host) == lower_seq(origin_host)
}

/// The scope rule: with `allow_external` every candidate is in scope;
/// otherwise only candidates whose host equals the origin host
/// (case-insensitively). The origin host is the host of the seed URL,
/// fixed for the whole crawl, never the host of the page that produced
/// the candidate.
pub open spec fn in_scope_spec(
    candidate_host: Seq<char>,
    origin_host: Seq<char>,
    allow_external: bool,
) -> bool {
    allow_external || hosts_match(candidate_host, origin_host)
}

fn lower_char_exec(c: char) -> (r: char)
    ensures
        r == lower_char(c),
{
    if 'A' <= c && c <= 'Z' {
        ((c as u8) + 32) as char
    } else {
        c
    }
}

/// Case-insensitive equality of two host names.
pub fn hosts_match_exec(candidate_host: &str, origin_host: &str) -> (r: bool)
    ensures
        r == hosts_match(candidate_host@, origin_host@),
{
    let n = candidate_host.unicode_len();
    if n != origin_host.unicode_len() {
        proof {
            assert(lower_seq(candidate_host@).len() != lower_seq(origin_host@).len());
        }
        return false;
    }
    let mut i: usize = 0;
    while i < n
        invariant
            n == candidate_host@.len(),
            n == origin_host@.len(),
            i <= n,
            forall|j: int|
                0 <= j < i ==> lower_char(candidate_host@[j]) == lower_char(origin_host@[j]),
        decreases n - i,
    {
        let a = candidate_host.get_char(i);
        let b = origin_host.get_char(i);
        if lower_char_exec(a) != lower_char_exec(b) {
            proof {
                assert(lower_seq(candidate_host@)[i as int] != lower_seq(origin_host@)[i as int]);
            }
            return false;
        }
        i += 1;
    }
    proof {
        assert(lower_seq(candidate_host@) =~= lower_seq(origin_host@));
    }
    true
}

/// The scope filter itself: a pure decision over the candidate host,
/// the origin host and the external-domains flag, with no other inputs.
pub fn in_scope(candidate_host: &str, origin_host: &str, allow_external: bool) -> (r: bool)
    ensures
        r == in_scope_spec(candidate_host@, origin_host@, allow_external),
{
    allow_external || hosts_match_exec(candidate_host, origin_host)
}

} // verus!
