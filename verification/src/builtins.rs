use vstd::prelude::*;

use crate::strings::split_sep;
use crate::strings::split_sep_str;
use crate::strings::str_eq;

verus! {

/// The first `*` of a pattern, if any.
pub open spec fn first_star(s: Seq<char>) -> Option<int>
    decreases s.len(),
{
    if s.len() == 0 {
        None
    } else if s[0] == '*' {
        Some(0int)
    } else {
        match first_star(s.drop_first()) {
            None => None,
            Some(i) => Some(i + 1),
        }
    }
}

/// Path-pattern matching: a pattern without `*` must equal the key;
/// one with a `*` matches every key that carries the pattern's text
/// before the star as a proper prefix, and the key equal to that text.
pub open spec fn key_match(k1: Seq<char>, k2: Seq<char>) -> bool {
    match first_star(k2) {
        None => k1 == k2,
        Some(i) => if k1.len() > i {
            k1.subrange(0, i) == k2.subrange(0, i)
        } else {
            k1 == k2.subrange(0, i)
        },
    }
}

proof fn lemma_first_star_skip(s: Seq<char>, i: int)
    requires
        0 <= i <= s.len(),
        forall|k: int| 0 <= k < i ==> s[k] != '*',
    ensures
        first_star(s.subrange(i, s.len() as int)) is None ==> first_star(s) is None,
        first_star(s.subrange(i, s.len() as int)) is Some ==> first_star(s) == Some(
            i + first_star(s.subrange(i, s.len() as int))->Some_0,
        ),
    decreases i,
{
    if i == 0 {
        assert(s.subrange(0, s.len() as int) =~= s);
    } else {
        let d = s.drop_first();
        lemma_first_star_skip(d, i - 1);
        assert(d.subrange(i - 1, d.len() as int) =~= s.subrange(i, s.len() as int));
    }
}

/// Path-pattern matching, decided in executable code.
#[verifier::loop_isolation(false)]
pub fn key_match_exec(k1: &str, k2: &str) -> (r: bool)
    ensures
        r == key_match(k1@, k2@),
{
    let n2 = k2.unicode_len();
    let mut i: usize = 0;
    while i < n2 && k2.get_char(i) != '*'
        invariant
            0 <= i <= n2,
            forall|k: int| 0 <= k < i ==> k2@[k] != '*',
        decreases n2 - i,
    {
        i += 1;
    }
    if i == n2 {
        proof {
            lemma_first_star_skip(k2@, n2 as int);
        }
        str_eq(k1, k2)
    } else {
        proof {
            lemma_first_star_skip(k2@, i as int);
            assert(k2@.subrange(i as int, n2 as int)[0] == k2@[i as int]);
        }
        let n1 = k1.unicode_len();
        if n1 > i {
            str_eq(k1.substring_char(0, i), k2.substring_char(0, i))
        } else {
            str_eq(k1, k2.substring_char(0, i))
        }
    }
}

/// Whether a pattern segment stands for one arbitrary nonempty
/// segment: `:name`, or `{name}` in the braced form.
pub open spec fn is_param_seg(seg: Seq<char>, braced: bool) -> bool {
    if braced {
        seg.len() >= 2 && seg[0] == '{' && seg[seg.len() - 1] == '}'
    } else {
        seg.len() >= 1 && seg[0] == ':'
    }
}

/// Segment-wise path matching from positions `ki` and `pi` on: a `*`
/// pattern segment matches everything that remains, a parameter
/// segment matches exactly one nonempty segment, and any other
/// segment must stand in the key literally.
pub open spec fn seg_match_at(
    ks: Seq<Seq<char>>,
    ps: Seq<Seq<char>>,
    ki: int,
    pi: int,
    braced: bool,
) -> bool
    decreases ps.len() - pi,
{
    if pi < 0 || pi >= ps.len() {
        ki >= ks.len()
    } else if ps[pi] == seq!['*'] {
        true
    } else if ki < 0 || ki >= ks.len() {
        false
    } else if is_param_seg(ps[pi], braced) {
        ks[ki].len() > 0 && seg_match_at(ks, ps, ki + 1, pi + 1, braced)
    } else {
        ks[ki] == ps[pi] && seg_match_at(ks, ps, ki + 1, pi + 1, braced)
    }
}

/// Path matching with `:name` parameter segments: `/foo/:id` matches
/// `/foo/123` but neither `/foo/` nor `/foo/1/2`.
pub open spec fn key_match2(k1: Seq<char>, k2: Seq<char>) -> bool {
    seg_match_at(split_sep(k1, '/'), split_sep(k2, '/'), 0, 0, false)
}

/// Path matching with `{name}` parameter segments.
pub open spec fn key_match3(k1: Seq<char>, k2: Seq<char>) -> bool {
    seg_match_at(split_sep(k1, '/'), split_sep(k2, '/'), 0, 0, true)
}

fn seg_match_exec(ks: &Vec<String>, ps: &Vec<String>, ki: usize, pi: usize, braced: bool) -> (r:
    bool)
    ensures
        r == seg_match_at(ks.deep_view(), ps.deep_view(), ki as int, pi as int, braced),
    decreases ps@.len() - pi,
{
    proof {
        assert(ks.deep_view().len() == ks@.len());
        assert(ps.deep_view().len() == ps@.len());
    }
    if pi >= ps.len() {
        return ki >= ks.len();
    }
    proof {
        assert(ps.deep_view()[pi as int] == ps@[pi as int]@);
        reveal_strlit("*");
        assert("*"@ =~= seq!['*']);
    }
    let p = &ps[pi];
    if str_eq(p.as_str(), "*") {
        return true;
    }
    if ki >= ks.len() {
        return false;
    }
    proof {
        assert(ks.deep_view()[ki as int] == ks@[ki as int]@);
    }
    let plen = p.as_str().unicode_len();
    let par = if braced {
        plen >= 2 && p.as_str().get_char(0) == '{' && p.as_str().get_char(plen - 1) == '}'
    } else {
        plen >= 1 && p.as_str().get_char(0) == ':'
    };
    proof {
        assert(par == is_param_seg(p@, braced));
    }
    if par {
        if ks[ki].as_str().unicode_len() == 0 {
            return false;
        }
        seg_match_exec(ks, ps, ki + 1, pi + 1, braced)
    } else {
        if !str_eq(ks[ki].as_str(), p.as_str()) {
            return false;
        }
        seg_match_exec(ks, ps, ki + 1, pi + 1, braced)
    }
}

/// `:name` path matching, decided in executable code.
pub fn key_match2_exec(k1: &str, k2: &str) -> (r: bool)
    ensures
        r == key_match2(k1@, k2@),
{
    let ks = split_sep_str(k1, '/');
    let ps = split_sep_str(k2, '/');
    seg_match_exec(&ks, &ps, 0, 0, false)
}

/// `{name}` path matching, decided in executable code.
pub fn key_match3_exec(k1: &str, k2: &str) -> (r: bool)
    ensures
        r == key_match3(k1@, k2@),
{
    let ks = split_sep_str(k1, '/');
    let ps = split_sep_str(k2, '/');
    seg_match_exec(&ks, &ps, 0, 0, true)
}

pub open spec fn is_digit(c: char) -> bool {
    '0' <= c && c <= '9'
}

/// The number a string of decimal digits denotes.
pub open spec fn dec_num(s: Seq<char>) -> int
    decreases s.len(),
{
    if s.len() == 0 {
        0
    } else {
        dec_num(s.drop_last()) * 10 + (s[s.len() - 1] as u32 - '0' as u32)
    }
}

pub open spec fn all_digits(s: Seq<char>) -> bool {
    forall|i: int| 0 <= i < s.len() ==> is_digit(#[trigger] s[i])
}

/// A dotted-quad part: one to three digits, at most 255.
pub open spec fn octet_ok(p: Seq<char>) -> bool {
    1 <= p.len() <= 3 && all_digits(p) && dec_num(p) <= 255
}

/// The 32-bit value of a dotted-quad address, if the text is one.
pub open spec fn ipv4_of(s: Seq<char>) -> Option<int> {
    let parts = split_sep(s, '.');
    if parts.len() == 4 && octet_ok(parts[0]) && octet_ok(parts[1]) && octet_ok(parts[2])
        && octet_ok(parts[3]) {
        Some(
            dec_num(parts[0]) * 0x1000000 + dec_num(parts[1]) * 0x10000 + dec_num(parts[2]) * 0x100
                + dec_num(parts[3]),
        )
    } else {
        None
    }
}

/// A network prefix length: one or two digits, at most 32.
pub open spec fn prefix_ok(p: Seq<char>) -> bool {
    1 <= p.len() <= 2 && all_digits(p) && dec_num(p) <= 32
}

pub open spec fn pow2(n: nat) -> int
    decreases n,
{
    if n == 0 {
        1
    } else {
        2 * pow2((n - 1) as nat)
    }
}

/// Address containment: `b` is a plain address, which must equal `a`,
/// or an address with a prefix length, whose network block must hold
/// `a`; text that is neither is an evaluation error (`None`).
pub open spec fn ip_match(a: Seq<char>, b: Seq<char>) -> Option<bool> {
    match ipv4_of(a) {
        None => None,
        Some(v1) => {
            let parts = split_sep(b, '/');
            if parts.len() == 1 {
                match ipv4_of(b) {
                    None => None,
                    Some(v2) => Some(v1 == v2),
                }
            } else if parts.len() == 2 {
                match ipv4_of(parts[0]) {
                    None => None,
                    Some(v2) => if prefix_ok(parts[1]) {
                        Some(
                            v1 / pow2((32 - dec_num(parts[1])) as nat) == v2 / pow2(
                                (32 - dec_num(parts[1])) as nat,
                            ),
                        )
                    } else {
                        None
                    },
                }
            } else {
                None
            }
        },
    }
}

proof fn lemma_dec_num_bounds(s: Seq<char>)
    requires
        all_digits(s),
    ensures
        dec_num(s) >= 0,
        s.len() <= 1 ==> dec_num(s) <= 9,
        s.len() <= 2 ==> dec_num(s) <= 99,
        s.len() <= 3 ==> dec_num(s) <= 999,
    decreases s.len(),
{
    if s.len() > 0 {
        assert(all_digits(s.drop_last()));
        lemma_dec_num_bounds(s.drop_last());
    }
}

proof fn lemma_pow2_mono(a: nat, b: nat)
    requires
        a <= b,
    ensures
        1 <= pow2(a) <= pow2(b),
    decreases b,
{
    if b == 0 {
    } else if a == b {
        lemma_pow2_mono((a - 1) as nat, (b - 1) as nat);
    } else {
        lemma_pow2_mono(a, (b - 1) as nat);
    }
}

/// One to three digits parsed, when they denote at most 255.
#[verifier::loop_isolation(false)]
fn parse_octet(p: &str) -> (r: Option<u32>)
    ensures
        match r {
            Some(v) => octet_ok(p@) && v as int == dec_num(p@) && v <= 255,
            None => !octet_ok(p@),
        },
{
    let n = p.unicode_len();
    if n == 0 || n > 3 {
        return None;
    }
    let mut v: u32 = 0;
    let mut i: usize = 0;
    while i < n
        invariant
            0 <= i <= n,
            forall|k: int| 0 <= k < i ==> is_digit(#[trigger] p@[k]),
            v as int == dec_num(p@.subrange(0, i as int)),
        decreases n - i,
    {
        let c = p.get_char(i);
        if !('0' <= c && c <= '9') {
            proof {
                assert(!is_digit(p@[i as int]));
            }
            return None;
        }
        proof {
            assert(all_digits(p@.subrange(0, i as int)));
            lemma_dec_num_bounds(p@.subrange(0, i as int));
            assert(p@.subrange(0, i + 1).drop_last() =~= p@.subrange(0, i as int));
            assert(p@.subrange(0, i + 1)[i as int] == p@[i as int]);
        }
        let d = (c as u32) - ('0' as u32);
        v = v * 10 + d;
        i += 1;
    }
    proof {
        assert(p@.subrange(0, n as int) =~= p@);
    }
    if v > 255 {
        return None;
    }
    Some(v)
}

/// One or two digits parsed, when they denote at most 32.
#[verifier::loop_isolation(false)]
fn parse_prefix(p: &str) -> (r: Option<u32>)
    ensures
        match r {
            Some(v) => prefix_ok(p@) && v as int == dec_num(p@) && v <= 32,
            None => !prefix_ok(p@),
        },
{
    let n = p.unicode_len();
    if n == 0 || n > 2 {
        return None;
    }
    let mut v: u32 = 0;
    let mut i: usize = 0;
    while i < n
        invariant
            0 <= i <= n,
            forall|k: int| 0 <= k < i ==> is_digit(#[trigger] p@[k]),
            v as int == dec_num(p@.subrange(0, i as int)),
        decreases n - i,
    {
        let c = p.get_char(i);
        if !('0' <= c && c <= '9') {
            proof {
                assert(!is_digit(p@[i as int]));
            }
            return None;
        }
        proof {
            assert(all_digits(p@.subrange(0, i as int)));
            lemma_dec_num_bounds(p@.subrange(0, i as int));
            assert(p@.subrange(0, i + 1).drop_last() =~= p@.subrange(0, i as int));
            assert(p@.subrange(0, i + 1)[i as int] == p@[i as int]);
        }
        let d = (c as u32) - ('0' as u32);
        v = v * 10 + d;
        i += 1;
    }
    proof {
        assert(p@.subrange(0, n as int) =~= p@);
    }
    if v > 32 {
        return None;
    }
    Some(v)
}

/// The dotted-quad value of the text, when it is one.
fn parse_ipv4(s: &str) -> (r: Option<u32>)
    ensures
        match r {
            Some(v) => ipv4_of(s@) == Some(v as int),
            None => ipv4_of(s@) is None,
        },
{
    let parts = split_sep_str(s, '.');
    proof {
        assert(parts.deep_view().len() == parts@.len());
    }
    if parts.len() != 4 {
        return None;
    }
    proof {
        assert(parts.deep_view()[0] == parts@[0]@);
        assert(parts.deep_view()[1] == parts@[1]@);
        assert(parts.deep_view()[2] == parts@[2]@);
        assert(parts.deep_view()[3] == parts@[3]@);
    }
    let o0 = match parse_octet(parts[0].as_str()) {
        Some(v) => v,
        None => {
            return None;
        },
    };
    let o1 = match parse_octet(parts[1].as_str()) {
        Some(v) => v,
        None => {
            return None;
        },
    };
    let o2 = match parse_octet(parts[2].as_str()) {
        Some(v) => v,
        None => {
            return None;
        },
    };
    let o3 = match parse_octet(parts[3].as_str()) {
        Some(v) => v,
        None => {
            return None;
        },
    };
    Some(o0 * 0x1000000 + o1 * 0x10000 + o2 * 0x100 + o3)
}

/// Two to the given power, for block arithmetic.
#[verifier::loop_isolation(false)]
fn pow2_u64(n: u32) -> (r: u64)
    requires
        n <= 32,
    ensures
        r as int == pow2(n as nat),
        r >= 1,
{
    let mut p: u64 = 1;
    let mut k: u32 = 0;
    while k < n
        invariant
            0 <= k <= n,
            p as int == pow2(k as nat),
        decreases n - k,
    {
        proof {
            lemma_pow2_mono(k as nat, 31);
            reveal_with_fuel(pow2, 33);
            assert(pow2(31) == 0x80000000);
        }
        p = p * 2;
        k = k + 1;
    }
    proof {
        lemma_pow2_mono(0, n as nat);
    }
    p
}

/// Address containment, decided in executable code.
pub fn ip_match_exec(a: &str, b: &str) -> (r: Option<bool>)
    ensures
        r == ip_match(a@, b@),
{
    let v1 = match parse_ipv4(a) {
        Some(v) => v,
        None => {
            return None;
        },
    };
    let parts = split_sep_str(b, '/');
    proof {
        assert(parts.deep_view().len() == parts@.len());
    }
    if parts.len() == 1 {
        match parse_ipv4(b) {
            Some(v2) => Some(v1 == v2),
            None => None,
        }
    } else if parts.len() == 2 {
        proof {
            assert(parts.deep_view()[0] == parts@[0]@);
            assert(parts.deep_view()[1] == parts@[1]@);
        }
        let v2 = match parse_ipv4(parts[0].as_str()) {
            Some(v) => v,
            None => {
                return None;
            },
        };
        let k = match parse_prefix(parts[1].as_str()) {
            Some(k) => k,
            None => {
                return None;
            },
        };
        let block = pow2_u64(32 - k);
        Some((v1 as u64) / block == (v2 as u64) / block)
    } else {
        None
    }
}

/// Whether the pattern is a regular expression the engine accepts:
/// a function of the pattern text alone.
pub uninterp spec fn regex_ok(pat: Seq<char>) -> bool;

/// Whether the pattern matches somewhere in the text: a function of
/// the pattern and the text alone.
pub uninterp spec fn regex_match_of(pat: Seq<char>, text: Seq<char>) -> bool;

/// Relies on regex::Regex::new, whose success depends on the pattern
/// alone, and regex::Regex::is_match, whose result depends on the
/// compiled pattern and the text alone.
#[verifier::external_body]
pub(crate) fn regex_match_wrap(text: &str, pat: &str) -> (r: Option<bool>)
    ensures
        r is Some <==> regex_ok(pat@),
        r is Some ==> r->Some_0 == regex_match_of(pat@, text@),
{
    match regex::Regex::new(pat) {
        Ok(re) => Some(re.is_match(text)),
        Err(_) => None,
    }
}

} // verus!
