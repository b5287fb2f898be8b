//! Process configuration: the typed settings record and the parsers for
//! the settings that arrive as text.  Reading the environment itself is
//! the embedding program's concern; everything here is plain values.

use vstd::prelude::*;
use vstd::string::StrSliceExecFns;

verus! {

/// How log output is formatted.
#[derive(Debug, Clone, Copy, PartialEq, Eq, Structural)]
pub enum LogFormat {
    Text,
    Json,
}

/// Which peers may deliver callbacks.
#[derive(Debug)]
pub enum AllowedIps {
    /// Any peer.
    Any,
    /// Only peers inside one of these networks.
    Cidrs(Vec<ipnet::IpNet>),
}

/// Typed settings the process starts with.
#[derive(Debug, Clone)]
pub struct Config {
    pub server_port: u16,
    pub database_url: String,
    pub stellar_horizon_url: String,
    pub redis_url: String,
    pub log_format: LogFormat,
}

/// Invalid startup configuration; fatal before serving traffic.
#[derive(Debug, Clone, Copy, PartialEq, Eq, Structural)]
pub enum ConfigError {
    /// Not `*` and not a non-empty comma-separated list of CIDRs.
    InvalidAllowedIps,
    /// Neither `text` nor `json` after trimming and lowering.
    InvalidLogFormat,
}

#[verifier::external_type_specification]
#[verifier::external_body]
pub struct ExIpNet(ipnet::IpNet);

/// Whether `ipnet` accepts this text as a CIDR network; a function of the
/// characters alone.
pub uninterp spec fn cidr_ok(s: Seq<char>) -> bool;

/// Relies on `ipnet::IpNet`'s `FromStr`: parsing is deterministic in the
/// input text, and succeeds exactly on CIDR notation.
#[verifier::external_body]
fn parse_cidr(s: &str) -> (r: Option<ipnet::IpNet>)
    ensures
        r is Some == cidr_ok(s@),
{
    match s.parse::<ipnet::IpNet>() {
        Ok(net) => Some(net),
        Err(_) => None,
    }
}

pub open spec fn is_space(c: char) -> bool {
    c == ' ' || c == '\t' || c == '\n' || c == '\r'
}

/// The input with leading and trailing whitespace removed.
pub open spec fn spec_trim(s: Seq<char>) -> Seq<char>
    decreases s.len(),
{
    if s.len() == 0 {
        s
    } else if is_space(s[0]) {
        spec_trim(s.drop_first())
    } else if is_space(s.last()) {
        spec_trim(s.drop_last())
    } else {
        s
    }
}

/// A whitespace margin on each side pins the trimmed text down to the
/// region between the margins.
proof fn lemma_trim_subrange(s: Seq<char>, lo: int, hi: int)
    requires
        0 <= lo <= hi <= s.len(),
        forall|i: int| 0 <= i < lo ==> is_space(#[trigger] s[i]),
        forall|i: int| hi <= i < s.len() ==> is_space(#[trigger] s[i]),
        lo < hi ==> !is_space(s[lo]) && !is_space(s[hi - 1]),
    ensures
        spec_trim(s) == s.subrange(lo, hi),
    decreases s.len(),
{
    if s.len() == 0 {
        assert(s.subrange(lo, hi) =~= s);
    } else if is_space(s[0]) {
        let t = s.drop_first();
        if lo > 0 {
            assert forall|i: int| 0 <= i < lo - 1 implies is_space(#[trigger] t[i]) by {
                assert(t[i] == s[i + 1]);
            }
            assert forall|i: int| hi - 1 <= i < t.len() implies is_space(#[trigger] t[i]) by {
                assert(t[i] == s[i + 1]);
            }
            lemma_trim_subrange(t, lo - 1, hi - 1);
            assert(t.subrange(lo - 1, hi - 1) =~= s.subrange(lo, hi));
        } else {
            // lo == 0 with a leading space forces an empty region
            assert(lo == hi);
            assert forall|i: int| 0 <= i < t.len() implies is_space(#[trigger] t[i]) by {
                assert(t[i] == s[i + 1]);
            }
            lemma_trim_subrange(t, 0, 0);
            assert(t.subrange(0, 0) =~= s.subrange(lo, hi));
        }
    } else if is_space(s.last()) {
        let t = s.drop_last();
        assert(hi < s.len());
        assert forall|i: int| hi <= i < t.len() implies is_space(#[trigger] t[i]) by {
            assert(t[i] == s[i]);
        }
        lemma_trim_subrange(t, lo, hi);
        assert(t.subrange(lo, hi) =~= s.subrange(lo, hi));
    } else {
        assert(lo == 0);
        assert(hi == s.len());
        assert(s.subrange(0, s.len() as int) =~= s);
    }
}

fn is_space_char(c: char) -> (r: bool)
    ensures
        r == is_space(c),
{
    c == ' ' || c == '\t' || c == '\n' || c == '\r'
}

/// Bounds of the trimmed text inside the region `[from, to)` of `s`.
#[verifier::loop_isolation(false)]
fn trimmed_region(s: &str, from: usize, to: usize) -> (r: (usize, usize))
    requires
        from <= to <= s@.len(),
    ensures
        from <= r.0 <= r.1 <= to,
        spec_trim(s@.subrange(from as int, to as int)) == s@.subrange(r.0 as int, r.1 as int),
        r.0 < r.1 ==> !is_space(s@[r.0 as int]) && !is_space(s@[r.1 as int - 1]),
{
    let mut lo = from;
    while lo < to && is_space_char(s.get_char(lo))
        invariant
            from <= lo <= to,
            forall|i: int| from <= i < lo ==> is_space(#[trigger] s@[i]),
        decreases to - lo,
    {
        lo += 1;
    }
    if lo == to {
        proof {
            lemma_trim_subrange(s@.subrange(from as int, to as int), (to - from) as int, (to
                - from) as int);
            assert(s@.subrange(from as int, to as int).subrange((to - from) as int, (to
                - from) as int) =~= s@.subrange(to as int, to as int));
            assert forall|i: int|
                0 <= i < (to - from) as int implies is_space(
                #[trigger] s@.subrange(from as int, to as int)[i],
            ) by {
                assert(s@.subrange(from as int, to as int)[i] == s@[i + from]);
            }
        }
        return (to, to);
    }
    let mut hi = to;
    while hi > lo && is_space_char(s.get_char(hi - 1))
        invariant
            lo <= hi <= to,
            forall|i: int| hi <= i < to ==> is_space(#[trigger] s@[i]),
        decreases hi,
    {
        hi -= 1;
    }
    proof {
        let piece = s@.subrange(from as int, to as int);
        let plo = (lo - from) as int;
        let phi = (hi - from) as int;
        assert(hi > lo);
        assert forall|i: int| 0 <= i < plo implies is_space(#[trigger] piece[i]) by {
            assert(piece[i] == s@[i + from]);
        }
        assert forall|i: int| phi <= i < piece.len() implies is_space(#[trigger] piece[i]) by {
            assert(piece[i] == s@[i + from]);
        }
        assert(piece[plo] == s@[lo as int] && piece[phi - 1] == s@[hi - 1]);
        lemma_trim_subrange(piece, plo, phi);
        assert(piece.subrange(plo, phi) =~= s@.subrange(lo as int, hi as int));
    }
    (lo, hi)
}

/// The lower-case form of an upper-case ASCII letter; other characters
/// stay as they are.
pub open spec fn spec_lower(c: char) -> char {
    if 'A' <= c && c <= 'Z' {
        ((c as u8) + 32) as char
    } else {
        c
    }
}

pub open spec fn spec_lower_seq(s: Seq<char>) -> Seq<char> {
    s.map_values(|c: char| spec_lower(c))
}

fn lower_char(c: char) -> (r: char)
    ensures
        r == spec_lower(c),
{
    if 'A' <= c && c <= 'Z' {
        ((c as u8) + 32) as char
    } else {
        c
    }
}

/// Read the log format setting: `text` or `json`, any case, surrounding
/// whitespace ignored.
pub fn parse_log_format(raw: &str) -> (r: Result<LogFormat, ConfigError>)
    ensures
        r == Ok::<LogFormat, ConfigError>(LogFormat::Text) <==> spec_lower_seq(spec_trim(raw@))
            == "text"@,
        r == Ok::<LogFormat, ConfigError>(LogFormat::Json) <==> spec_lower_seq(spec_trim(raw@))
            == "json"@,
        r is Err ==> r == Err::<LogFormat, ConfigError>(ConfigError::InvalidLogFormat),
{
    proof {
        reveal_strlit("text");
        reveal_strlit("json");
    }
    proof {
        assert("text"@[0] == 't' && "json"@[0] == 'j');
    }
    let n = raw.unicode_len();
    let (lo, hi) = trimmed_region(raw, 0, n);
    proof {
        assert(raw@.subrange(0, n as int) =~= raw@);
    }
    let ghost trimmed = spec_trim(raw@);
    let ghost lowered = spec_lower_seq(trimmed);
    proof {
        assert(lowered.len() == hi - lo);
        assert forall|i: int| 0 <= i < lowered.len() implies lowered[i] == spec_lower(
            s_at(raw@, lo + i),
        ) by {
            assert(trimmed[i] == s_at(raw@, lo + i));
        }
    }
    if hi - lo != 4 {
        proof {
            assert(lowered.len() != 4);
            assert(lowered != "text"@ && lowered != "json"@);
        }
        return Err(ConfigError::InvalidLogFormat);
    }
    let c0 = lower_char(raw.get_char(lo));
    let c1 = lower_char(raw.get_char(lo + 1));
    let c2 = lower_char(raw.get_char(lo + 2));
    let c3 = lower_char(raw.get_char(lo + 3));
    if c0 == 't' && c1 == 'e' && c2 == 'x' && c3 == 't' {
        proof {
            assert(lowered =~= "text"@);
            assert(lowered != "json"@);
        }
        Ok(LogFormat::Text)
    } else if c0 == 'j' && c1 == 's' && c2 == 'o' && c3 == 'n' {
        proof {
            assert(lowered =~= "json"@);
            assert(lowered != "text"@);
        }
        Ok(LogFormat::Json)
    } else {
        proof {
            if lowered == "text"@ {
                assert(lowered[0] == 't' && lowered[1] == 'e' && lowered[2] == 'x' && lowered[3]
                    == 't');
            }
            if lowered == "json"@ {
                assert(lowered[0] == 'j' && lowered[1] == 's' && lowered[2] == 'o' && lowered[3]
                    == 'n');
            }
        }
        Err(ConfigError::InvalidLogFormat)
    }
}

/// Character of `s` at `i`; a reading aid for contracts.
pub open spec fn s_at(s: Seq<char>, i: int) -> char {
    s[i]
}

/// Index of the first comma, or a negative value if there is none.
pub open spec fn first_comma(s: Seq<char>) -> int
    decreases s.len(),
{
    if s.len() == 0 {
        -1
    } else if s[0] == ',' {
        0
    } else {
        let r = first_comma(s.drop_first());
        if r == -1 {
            -1
        } else {
            r + 1
        }
    }
}

proof fn lemma_first_comma_at(s: Seq<char>, k: int)
    requires
        0 <= k < s.len(),
        s[k] == ',',
        forall|m: int| 0 <= m < k ==> s[m] != ',',
    ensures
        first_comma(s) == k,
    decreases s.len(),
{
    if k == 0 {
    } else {
        let t = s.drop_first();
        assert(t[k - 1] == s[k]);
        assert forall|m: int| 0 <= m < k - 1 implies t[m] != ',' by {
            assert(t[m] == s[m + 1]);
        }
        lemma_first_comma_at(t, k - 1);
    }
}

proof fn lemma_first_comma_none(s: Seq<char>)
    requires
        forall|m: int| 0 <= m < s.len() ==> s[m] != ',',
    ensures
        first_comma(s) == -1,
    decreases s.len(),
{
    if s.len() > 0 {
        let t = s.drop_first();
        assert forall|m: int| 0 <= m < t.len() implies t[m] != ',' by {
            assert(t[m] == s[m + 1]);
        }
        lemma_first_comma_none(t);
    }
}

/// Reading a comma-separated list, left to right: how many entries are
/// non-empty after trimming, and whether every such entry is a CIDR.
pub open spec fn spec_cidr_entries(s: Seq<char>) -> (nat, bool)
    decreases s.len(),
{
    let k = first_comma(s);
    if !(0 <= k < s.len()) {
        let e = spec_trim(s);
        if e.len() == 0 {
            (0 as nat, true)
        } else {
            (1 as nat, cidr_ok(e))
        }
    } else {
        let e = spec_trim(s.subrange(0, k));
        let rest = spec_cidr_entries(s.subrange(k + 1, s.len() as int));
        if e.len() == 0 {
            rest
        } else {
            ((rest.0 + 1) as nat, cidr_ok(e) && rest.1)
        }
    }
}

/// Read the allowed-peers setting: `*` for any peer, else a non-empty
/// comma-separated list of CIDR networks, entries trimmed, empty entries
/// ignored.
#[verifier::loop_isolation(false)]
#[verifier::rlimit(60)]
pub fn parse_allowed_ips(raw: &str) -> (r: Result<AllowedIps, ConfigError>)
    requires
        raw@.len() < usize::MAX,
    ensures
        ({
            let t = spec_trim(raw@);
            let e = spec_cidr_entries(raw@);
            match r {
                Ok(AllowedIps::Any) => t == "*"@,
                Ok(AllowedIps::Cidrs(v)) => t != "*"@ && e.1 && e.0 >= 1 && v@.len() == e.0,
                Err(err) => t != "*"@ && !(e.1 && e.0 >= 1) && err
                    == ConfigError::InvalidAllowedIps,
            }
        }),
{
    proof {
        reveal_strlit("*");
    }
    let n = raw.unicode_len();
    let (tlo, thi) = trimmed_region(raw, 0, n);
    proof {
        assert(raw@.subrange(0, n as int) =~= raw@);
    }
    if thi - tlo == 1 && raw.get_char(tlo) == '*' {
        proof {
            assert(spec_trim(raw@) =~= "*"@);
        }
        return Ok(AllowedIps::Any);
    }
    proof {
        if spec_trim(raw@) == "*"@ {
            assert(spec_trim(raw@).len() == 1);
            assert(thi - tlo == 1);
            assert(raw@.subrange(tlo as int, thi as int)[0] == raw@[tlo as int]);
            assert(raw@[tlo as int] == '*');
        }
    }
    let mut nets: Vec<ipnet::IpNet> = Vec::new();
    let mut pos: usize = 0;
    while pos <= n
        invariant
            pos <= n + 1,
            n == raw@.len(),
            n < usize::MAX,
            pos <= n ==> spec_cidr_entries(raw@).0 == nets@.len() + spec_cidr_entries(
                raw@.subrange(pos as int, n as int),
            ).0 && spec_cidr_entries(raw@).1 == spec_cidr_entries(
                raw@.subrange(pos as int, n as int),
            ).1,
            pos == n + 1 ==> spec_cidr_entries(raw@).0 == nets@.len() && spec_cidr_entries(
                raw@,
            ).1,
        decreases n + 1 - pos,
    {
        let ghost tail = raw@.subrange(pos as int, n as int);
        let mut j = pos;
        while j < n && raw.get_char(j) != ','
            invariant
                pos <= j <= n,
                forall|m: int| pos <= m < j ==> s_at(raw@, m) != ',',
            decreases n - j,
        {
            j += 1;
        }
        proof {
            assert forall|m: int| 0 <= m < j - pos implies tail[m] != ',' by {
                assert(tail[m] == s_at(raw@, m + pos));
            }
            if j < n {
                assert(tail[j - pos] == s_at(raw@, j as int));
                lemma_first_comma_at(tail, j - pos);
            } else {
                lemma_first_comma_none(tail);
            }
        }
        let (lo, hi) = trimmed_region(raw, pos, j);
        proof {
            assert(tail.subrange(0, j - pos) =~= raw@.subrange(pos as int, j as int));
            if j < n {
                assert(tail.subrange(j - pos + 1, tail.len() as int) =~= raw@.subrange(
                    j + 1,
                    n as int,
                ));
            }
        }
        if hi > lo {
            let piece = raw.substring_char(lo, hi);
            proof {
                assert(piece@ == raw@.subrange(lo as int, hi as int));
                assert(spec_trim(raw@.subrange(pos as int, j as int)) == piece@);
            }
            match parse_cidr(piece) {
                Some(net) => {
                    nets.push(net);
                },
                None => {
                    proof {
                        assert(!spec_cidr_entries(tail).1);
                    }
                    return Err(ConfigError::InvalidAllowedIps);
                },
            }
        }
        if j == n {
            pos = n + 1;
        } else {
            pos = j + 1;
        }
    }
    if nets.len() == 0 {
        return Err(ConfigError::InvalidAllowedIps);
    }
    Ok(AllowedIps::Cidrs(nets))
}

} // verus!
