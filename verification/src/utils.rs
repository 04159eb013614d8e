//! Parsing of "host:port" bootstrap-server strings.

use vstd::prelude::*;
use vstd::string::*;

use crate::proxy_state::Url;

verus! {

/// Whether `c` is a decimal digit.
pub open spec fn is_dec_digit(c: char) -> bool {
    48 <= c as int <= 57
}

/// Whether every character of `s` is a decimal digit.
pub open spec fn all_digits(s: Seq<char>) -> bool {
    forall|i: int| 0 <= i < s.len() ==> is_dec_digit(#[trigger] s[i])
}

/// The number that the digit string `s` denotes in base ten.
pub open spec fn dec_value(s: Seq<char>) -> int
    decreases s.len(),
{
    if s.len() == 0 {
        0
    } else {
        dec_value(s.drop_last()) * 10 + (s.last() as int - 48)
    }
}

/// Whether `s` is a valid port: a non-empty digit string whose value fits
/// in a `u16`.
pub open spec fn is_port_str(s: Seq<char>) -> bool {
    s.len() > 0 && all_digits(s) && dec_value(s) <= 65535
}

/// The first index at or after `from` where `s` holds `c`, or `s.len()`.
pub open spec fn find_char_from(s: Seq<char>, c: char, from: int) -> int
    decreases s.len() - from,
{
    if !(0 <= from < s.len()) {
        s.len() as int
    } else if s[from] == c {
        from
    } else {
        find_char_from(s, c, from + 1)
    }
}

proof fn lemma_dec_value_nonneg(s: Seq<char>)
    requires
        all_digits(s),
    ensures
        dec_value(s) >= 0,
    decreases s.len(),
{
    if s.len() > 0 {
        assert(forall|i: int| 0 <= i < s.drop_last().len() ==> s.drop_last()[i] == s[i]);
        lemma_dec_value_nonneg(s.drop_last());
    }
}

/// A digit string's value is at least the value of any of its prefixes.
proof fn lemma_dec_value_prefix(s: Seq<char>, j: int)
    requires
        0 <= j <= s.len(),
        all_digits(s),
    ensures
        dec_value(s) >= dec_value(s.take(j)),
    decreases s.len() - j,
{
    if j < s.len() {
        let t = s.take(j + 1);
        assert(t.drop_last() =~= s.take(j));
        assert(t.last() == s[j]);
        assert(forall|i: int| 0 <= i < s.take(j).len() ==> s.take(j)[i] == s[i]);
        lemma_dec_value_nonneg(s.take(j));
        assert(dec_value(t) == dec_value(s.take(j)) * 10 + (s[j] as int - 48));
        lemma_dec_value_prefix(s, j + 1);
    } else {
        assert(s.take(j) =~= s);
    }
}

/// Parse a decimal port number.  Returns `Some` exactly on non-empty digit
/// strings whose value fits in a `u16`.
pub fn parse_port(s: &str) -> (r: Option<u16>)
    ensures
        r is Some <==> is_port_str(s@),
        r matches Some(v) ==> v == dec_value(s@),
{
    let n = s.unicode_len();
    if n == 0 {
        return None;
    }
    let mut acc: u32 = 0;
    proof {
        assert(s@.take(0) =~= Seq::<char>::empty());
    }
    for i in 0..n
        invariant
            n == s@.len(),
            all_digits(s@.take(i as int)),
            acc == dec_value(s@.take(i as int)),
            acc <= 65535,
    {
        let c = s.get_char(i);
        let v = c as u32;
        if v < 48 || v > 57 {
            proof {
                assert(!is_dec_digit(s@[i as int]));
            }
            return None;
        }
        let a2 = acc * 10 + (v - 48);
        proof {
            let t = s@.take(i as int + 1);
            assert(t.drop_last() =~= s@.take(i as int));
            assert(t.last() == s@[i as int]);
            assert(forall|j: int| 0 <= j < t.len() ==> t[j] == s@[j]);
        }
        if a2 > 65535 {
            proof {
                if all_digits(s@) {
                    lemma_dec_value_prefix(s@, i as int + 1);
                }
            }
            return None;
        }
        acc = a2;
    }
    proof {
        assert(s@.take(n as int) =~= s@);
    }
    Some(acc as u16)
}

/// Find the first colon at or after `from`, returning `s@.len()` if none.
pub fn find_colon(s: &str, from: usize) -> (r: usize)
    requires
        from <= s@.len(),
    ensures
        r == find_char_from(s@, ':', from as int),
        from as int <= r <= s@.len(),
        r < s@.len() ==> s@[r as int] == ':',
    {
    let n = s.unicode_len();
    let mut i = from;
    while i < n
        invariant
            n == s@.len(),
            from <= i <= n,
            find_char_from(s@, ':', from as int) == find_char_from(s@, ':', i as int),
        decreases n - i,
    {
        let c = s.get_char(i);
        if c == ':' {
            return i;
        }
        i += 1;
    }
    n
}

/// The end of the host part: the index of the first colon, or the whole
/// string's length if it has none.
pub open spec fn host_end(s: Seq<char>) -> int {
    find_char_from(s, ':', 0)
}

/// The end of the port part: the index of the colon after the port digits,
/// or the whole string's length.
pub open spec fn port_end(s: Seq<char>) -> int {
    find_char_from(s, ':', host_end(s) + 1)
}

/// Whether a bootstrap-server string is well formed: it has a colon, and
/// what stands between the first colon and the next one (or the end) is a
/// valid port.
pub open spec fn spec_bootstrap_ok(s: Seq<char>) -> bool {
    host_end(s) < s.len() && is_port_str(s.subrange(host_end(s) + 1, port_end(s)))
}

proof fn lemma_find_char_bounds(s: Seq<char>, c: char, from: int)
    requires
        0 <= from,
    ensures
        from <= find_char_from(s, c, from) || s.len() < from,
        find_char_from(s, c, from) <= s.len(),
    decreases s.len() - from,
{
    if 0 <= from < s.len() && s[from] != c {
        lemma_find_char_bounds(s, c, from + 1);
    }
}

/// Check a bootstrap-server string before handing it to
/// `parse_bootstrap_server`, whose precondition it decides.
pub fn well_formed_bootstrap(s: &str) -> (r: bool)
    ensures
        r == spec_bootstrap_ok(s@),
{
    let n = s.unicode_len();
    let i = find_colon(s, 0);
    if i == n {
        return false;
    }
    proof {
        lemma_find_char_bounds(s@, ':', i as int + 1);
    }
    let j = find_colon(s, i + 1);
    let seg = s.substring_char(i + 1, j);
    parse_port(seg).is_some()
}

/// Parse a bootstrap server string into a Url.  The caller must have
/// checked the string's shape (`well_formed_bootstrap`); the host is what
/// stands before the first colon, the port what stands between that colon
/// and the next one or the end.
pub fn parse_bootstrap_server(bootstrap_server: String) -> (u: Url)
    requires
        spec_bootstrap_ok(bootstrap_server@),
    ensures
        u.host@ == bootstrap_server@.take(host_end(bootstrap_server@)),
        u.port == dec_value(
            bootstrap_server@.subrange(
                host_end(bootstrap_server@) + 1,
                port_end(bootstrap_server@),
            ),
        ),
{
    let s = bootstrap_server.as_str();
    let n = s.unicode_len();
    let i = find_colon(s, 0);
    proof {
        assert(i < n);
        lemma_find_char_bounds(s@, ':', i as int + 1);
    }
    let j = find_colon(s, i + 1);
    let host = s.substring_char(0, i).to_owned();
    let seg = s.substring_char(i + 1, j);
    match parse_port(seg) {
        Some(p) => {
            proof {
                assert(s@.subrange(0, i as int) =~= s@.take(i as int));
            }
            Url::new(host, p)
        },
        None => vstd::pervasive::unreached(),
    }
}

} // verus!
