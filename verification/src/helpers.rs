use vstd::prelude::*;

use crate::mechanism::{kind_text, Kind, MechView, Mechanism, Qualifier};

verus! {

/// The whitespace characters a record line is split on.
pub open spec fn is_space_char(c: char) -> bool {
    c == ' ' || c == '\t' || c == '\n' || c == '\r'
}

/// Whether the line holds two consecutive whitespace characters anywhere.
pub open spec fn has_double_space(s: Seq<char>) -> bool {
    exists|i: int|
        0 <= i && i + 1 < s.len() && is_space_char(#[trigger] s[i]) && is_space_char(s[i + 1])
}

/// Whether `p` occurs as a contiguous part of `hay`.
pub open spec fn seq_contains(hay: Seq<char>, p: Seq<char>) -> bool {
    exists|i: int|
        0 <= i && i + p.len() <= hay.len() && #[trigger] hay.subrange(i, i + p.len()) == p
}

/// Whether `s` begins with `p`.
pub open spec fn seq_starts_with(s: Seq<char>, p: Seq<char>) -> bool {
    p.len() <= s.len() && s.subrange(0, p.len() as int) == p
}

/// Whether `s` ends with `p`.
pub open spec fn seq_ends_with(s: Seq<char>, p: Seq<char>) -> bool {
    p.len() <= s.len() && s.subrange(s.len() - p.len(), s.len() as int) == p
}

/// The largest index at which `c` occurs in `s`, or `-1` when it does not.
pub open spec fn last_index_of_char(s: Seq<char>, c: char) -> int
    decreases s.len(),
{
    if s.len() == 0 {
        -1
    } else if s[s.len() - 1] == c {
        s.len() - 1
    } else {
        last_index_of_char(s.drop_last(), c)
    }
}

pub proof fn lemma_last_index_of_char(s: Seq<char>, c: char)
    ensures
        ({
            let l = last_index_of_char(s, c);
            &&& -1 <= l < s.len()
            &&& l >= 0 ==> s[l] == c
            &&& forall|j: int| l < j < s.len() ==> s[j] != c
        }),
    decreases s.len(),
{
    if s.len() > 0 && s[s.len() - 1] != c {
        lemma_last_index_of_char(s.drop_last(), c);
        assert forall|j: int| last_index_of_char(s, c) < j < s.len() implies s[j] != c by {
            if j < s.len() - 1 {
                assert(s.drop_last()[j] == s[j]);
            }
        }
    }
}

/// The part of `s` after the last occurrence of `c`; all of `s` when `c`
/// does not occur.
pub open spec fn after_last(s: Seq<char>, c: char) -> Seq<char> {
    s.subrange(last_index_of_char(s, c) + 1, s.len() as int)
}

/// The qualifier characters recognised at the head of a token.
pub open spec fn is_qualifier_char(c: char) -> bool {
    c == '+' || c == '-' || c == '~' || c == '?'
}

/// The qualifier named by a token's leading character; `Pass` when the
/// token starts with no qualifier character (the permissive default).
pub open spec fn leading_qualifier(s: Seq<char>) -> Qualifier {
    if s.len() > 0 && s[0] == '-' {
        Qualifier::Fail
    } else if s.len() > 0 && s[0] == '~' {
        Qualifier::SoftFail
    } else if s.len() > 0 && s[0] == '?' {
        Qualifier::Neutral
    } else {
        Qualifier::Pass
    }
}

/// The token with its leading qualifier character removed, if it had one.
pub open spec fn strip_qualifier(s: Seq<char>) -> Seq<char> {
    if s.len() > 0 && is_qualifier_char(s[0]) {
        s.subrange(1, s.len() as int)
    } else {
        s
    }
}

/// Whitespace check: true in case of two or more consecutive whitespace
/// characters, the strict-format reject.
pub fn spf_check_whitespace(s: &str) -> (r: bool)
    ensures
        r == has_double_space(s@),
{
    let n = s.unicode_len();
    if n < 2 {
        return false;
    }
    let mut prev = s.get_char(0);
    let mut i: usize = 1;
    while i < n
        invariant
            1 <= i <= n,
            n == s@.len(),
            prev == s@[i - 1],
            forall|k: int|
                0 <= k && k + 1 < i ==> !(is_space_char(#[trigger] s@[k]) && is_space_char(
                    s@[k + 1],
                )),
        decreases n - i,
    {
        let c = s.get_char(i);
        if is_space(prev) && is_space(c) {
            return true;
        }
        prev = c;
        i += 1;
    }
    false
}

/// Whether a character is whitespace for the purposes of tokenizing.
pub fn is_space(c: char) -> (r: bool)
    ensures
        r == is_space_char(c),
{
    c == ' ' || c == '\t' || c == '\n' || c == '\r'
}

/// Whether `p` matches `hay` at position `i`.
fn match_at(hay: &str, p: &str, i: usize, n: usize, m: usize) -> (r: bool)
    requires
        n == hay@.len(),
        m == p@.len(),
        i + m <= n,
    ensures
        r == (hay@.subrange(i as int, i + m) == p@),
{
    let mut j: usize = 0;
    while j < m
        invariant
            0 <= j <= m,
            n == hay@.len(),
            m == p@.len(),
            i + m <= n,
            forall|k: int| 0 <= k < j ==> hay@[i + k] == p@[k],
        decreases m - j,
    {
        if s_get(hay, i + j) != s_get(p, j) {
            assert(hay@.subrange(i as int, i + m)[j as int] != p@[j as int]);
            return false;
        }
        j += 1;
    }
    assert(hay@.subrange(i as int, i + m) =~= p@);
    true
}

/// One character of `s`, by index.
fn s_get(s: &str, i: usize) -> (c: char)
    requires
        i < s@.len(),
    ensures
        c == s@[i as int],
{
    s.get_char(i)
}

/// Whether `p` occurs as a contiguous part of `hay`.
pub fn str_contains(hay: &str, p: &str) -> (r: bool)
    ensures
        r == seq_contains(hay@, p@),
{
    let n = hay.unicode_len();
    let m = p.unicode_len();
    if m > n {
        return false;
    }
    if m == 0 {
        proof {
            assert(hay@.subrange(0, 0 + p@.len() as int) =~= p@);
            assert(seq_contains(hay@, p@));
        }
        return true;
    }
    let mut i: usize = 0;
    while i <= n - m
        invariant
            0 <= i <= n - m + 1,
            n == hay@.len(),
            m == p@.len(),
            0 < m <= n,
            forall|k: int| 0 <= k < i ==> #[trigger] hay@.subrange(k, k + m) != p@,
        decreases n - i,
    {
        if match_at(hay, p, i, n, m) {
            return true;
        }
        i += 1;
    }
    false
}

/// Whether `s` begins with `p`.
pub fn str_starts_with(s: &str, p: &str) -> (r: bool)
    ensures
        r == seq_starts_with(s@, p@),
{
    let n = s.unicode_len();
    let m = p.unicode_len();
    if m > n {
        return false;
    }
    match_at(s, p, 0, n, m)
}

/// Whether `s` ends with `p`.
pub fn str_ends_with(s: &str, p: &str) -> (r: bool)
    ensures
        r == seq_ends_with(s@, p@),
{
    let n = s.unicode_len();
    let m = p.unicode_len();
    if m > n {
        return false;
    }
    match_at(s, p, n - m, n, m)
}

/// Whether two pieces of text hold the same characters.
pub fn str_eq(a: &str, b: &str) -> (r: bool)
    ensures
        r == (a@ == b@),
{
    let n = a.unicode_len();
    let m = b.unicode_len();
    if n != m {
        return false;
    }
    let r = match_at(a, b, 0, n, m);
    proof {
        assert(a@.subrange(0, n as int) =~= a@);
    }
    r
}

/// The largest index at which `c` occurs in `s`, if any.
pub fn last_index_char(s: &str, c: char) -> (r: Option<usize>)
    ensures
        match r {
            Some(i) => i == last_index_of_char(s@, c),
            None => last_index_of_char(s@, c) == -1,
        },
{
    proof {
        lemma_last_index_of_char(s@, c);
    }
    let n = s.unicode_len();
    let mut i: usize = n;
    while i > 0
        invariant
            0 <= i <= n,
            n == s@.len(),
            forall|j: int| i <= j < n ==> s@[j] != c,

        decreases i,
    {
        i = i - 1;
        if s_get(s, i) == c {
            proof {
                lemma_last_index_of_char(s@, c);
                let l = last_index_of_char(s@, c);
                if i < l {
                    assert(s@[l] != c);
                }
                if l < i {
                    assert(s@[i as int] != c);
                }
            }
            return Some(i);
        }
    }
    None
}

/// Splits the token's leading qualifier character, if any, from the rest
/// of the token; a token without one keeps its text and defaults to `Pass`.
pub fn return_and_remove_qualifier(s: &str) -> (r: (Qualifier, &str))
    ensures
        r.0 == leading_qualifier(s@),
        r.1@ == strip_qualifier(s@),
{
    let n = s.unicode_len();
    if n == 0 {
        return (Qualifier::Pass, s);
    }
    let c = s.get_char(0);
    if c == '+' {
        (Qualifier::Pass, s.substring_char(1, n))
    } else if c == '-' {
        (Qualifier::Fail, s.substring_char(1, n))
    } else if c == '~' {
        (Qualifier::SoftFail, s.substring_char(1, n))
    } else if c == '?' {
        (Qualifier::Neutral, s.substring_char(1, n))
    } else {
        (Qualifier::Pass, s)
    }
}

/// Which separator characters may follow the bare keyword of a captured
/// kind: `:` or `/` after `a` and `mx`, only `:` after `ptr`.
pub open spec fn capture_sep_ok(kind: Kind, c: char) -> bool {
    match kind {
        Kind::A | Kind::MX => c == ':' || c == '/',
        _ => c == ':',
    }
}

/// The mechanism captured from a token of the `a` / `mx` / `ptr` shape:
/// an optional qualifier, then the bare keyword, then either nothing or a
/// separator with at least one character behind it.  The payload keeps its
/// leading separator.  Tokens of any other shape capture nothing.
pub open spec fn capture_spec(tok: Seq<char>, kind: Kind) -> Option<MechView<Seq<char>>> {
    let q = leading_qualifier(tok);
    let rest = strip_qualifier(tok);
    let kw = kind_text(kind);
    if rest == kw {
        Some(MechView { kind, qualifier: q, payload: None })
    } else if rest.len() >= kw.len() + 2 && rest.subrange(0, kw.len() as int) == kw
        && capture_sep_ok(kind, rest[kw.len() as int]) {
        Some(
            MechView {
                kind,
                qualifier: q,
                payload: Some(rest.subrange(kw.len() as int, rest.len() as int)),
            },
        )
    } else {
        None
    }
}

/// Tries to read a token as a mechanism of the given keyword kind
/// (`a`, `mx` or `ptr`); tokens of any other shape yield nothing.
pub fn capture_matches(s: &str, kind: Kind) -> (r: Option<Mechanism<String>>)
    ensures
        r is Some <==> capture_spec(s@, kind) is Some,
        r is Some ==> r->0@ == capture_spec(s@, kind)->0,
{
    let (q, rest) = return_and_remove_qualifier(s);
    let kw = kind.as_str();
    let rn = rest.unicode_len();
    let kn = kw.unicode_len();
    if str_eq(rest, kw) {
        return Some(Mechanism::new(kind, q, None));
    }
    if rn >= 2 && kn <= rn - 2 && match_at(rest, kw, 0, rn, kn) {
        let sep = s_get(rest, kn);
        let sep_ok = match kind {
            Kind::A | Kind::MX => sep == ':' || sep == '/',
            _ => sep == ':',
        };
        if sep_ok {
            let payload = rest.substring_char(kn, rn);
            return Some(Mechanism::new(kind, q, Some(payload.to_owned())));
        }
    }
    None
}

} // verus!

verus! {

/// The length of the maximal non-whitespace prefix of `s`.
pub open spec fn non_space_prefix_len(s: Seq<char>) -> int
    decreases s.len(),
{
    if s.len() == 0 || is_space_char(s[0]) {
        0
    } else {
        1 + non_space_prefix_len(s.drop_first())
    }
}

pub proof fn lemma_non_space_prefix(s: Seq<char>)
    ensures
        ({
            let k = non_space_prefix_len(s);
            &&& 0 <= k <= s.len()
            &&& forall|j: int| 0 <= j < k ==> !is_space_char(s[j])
            &&& k < s.len() ==> is_space_char(s[k])
            &&& s.len() > 0 && !is_space_char(s[0]) ==> k >= 1
        }),
    decreases s.len(),
{
    if s.len() > 0 && !is_space_char(s[0]) {
        lemma_non_space_prefix(s.drop_first());
        assert forall|j: int| 0 <= j < non_space_prefix_len(s) implies !is_space_char(s[j]) by {
            if j > 0 {
                assert(s.drop_first()[j - 1] == s[j]);
            }
        }
        if non_space_prefix_len(s) < s.len() {
            assert(s.drop_first()[non_space_prefix_len(s) - 1] == s[non_space_prefix_len(s)]);
        }
    }
}

/// The whitespace-separated tokens of `s`, in order.
pub open spec fn spec_tokens(s: Seq<char>) -> Seq<Seq<char>>
    decreases s.len(),
    via spec_tokens_decreases
{
    if s.len() == 0 {
        Seq::empty()
    } else if is_space_char(s[0]) {
        spec_tokens(s.drop_first())
    } else {
        seq![s.subrange(0, non_space_prefix_len(s))] + spec_tokens(
            s.subrange(non_space_prefix_len(s), s.len() as int),
        )
    }
}

#[via_fn]
proof fn spec_tokens_decreases(s: Seq<char>) {
    lemma_non_space_prefix(s);
}

/// Splits a line into its whitespace-separated tokens.
pub fn split_whitespace(s: &str) -> (toks: Vec<String>)
    ensures
        toks.deep_view() == spec_tokens(s@),
{
    let n = s.unicode_len();
    let mut toks: Vec<String> = Vec::new();
    let mut i: usize = 0;
    proof {
        assert(s@.subrange(0, n as int) =~= s@);
        assert(toks.deep_view() =~= Seq::<Seq<char>>::empty());
        assert(toks.deep_view() + spec_tokens(s@) =~= spec_tokens(s@));
    }
    while i < n
        invariant
            0 <= i <= n,
            n == s@.len(),
            spec_tokens(s@) == toks.deep_view() + spec_tokens(s@.subrange(i as int, n as int)),
        decreases n - i,
    {
        let c = s.get_char(i);
        if is_space(c) {
            proof {
                assert(s@.subrange(i as int, n as int).drop_first() =~= s@.subrange(
                    i + 1,
                    n as int,
                ));
            }
            i += 1;
        } else {
            let ghost rem = s@.subrange(i as int, n as int);
            let mut j = i + 1;
            while j < n
                invariant
                    i < j <= n,
                    n == s@.len(),
                    forall|k: int| i <= k < j ==> !is_space_char(s@[k]),
                ensures
                    i < j <= n,
                    forall|k: int| i <= k < j ==> !is_space_char(s@[k]),
                    j < n ==> is_space_char(s@[j as int]),
                decreases n - j,
            {
                if is_space(s.get_char(j)) {
                    break;
                }
                j += 1;
            }
            let tok = s.substring_char(i, j).to_owned();
            proof {
                lemma_non_space_prefix(rem);
                assert forall|k: int| 0 <= k < j - i implies !is_space_char(rem[k]) by {
                    assert(rem[k] == s@[i + k]);
                }
                if j < n {
                    assert(rem[j - i] == s@[j as int]);
                }
                assert(non_space_prefix_len(rem) == j - i);
                assert(rem.subrange(0, j - i) =~= s@.subrange(i as int, j as int));
                assert(rem.subrange(j - i, rem.len() as int) =~= s@.subrange(j as int, n as int));
                assert(spec_tokens(rem) == seq![s@.subrange(i as int, j as int)] + spec_tokens(
                    s@.subrange(j as int, n as int),
                ));
            }
            let ghost old_toks = toks.deep_view();
            toks.push(tok);
            proof {
                assert(toks.deep_view() =~= old_toks.push(tok@));
                assert(old_toks.push(tok@) + spec_tokens(s@.subrange(j as int, n as int))
                    =~= old_toks + spec_tokens(s@.subrange(i as int, n as int)));
            }
            i = j;
        }
    }
    proof {
        assert(s@.subrange(n as int, n as int) =~= Seq::<char>::empty());
        assert(toks.deep_view() + Seq::<Seq<char>>::empty() =~= toks.deep_view());
    }
    toks
}

} // verus!

verus! {

use crate::mechanism::{ip_net_outcome, MechErrView, NetView};

/// Classification of a token that names an IP network.  The token must
/// hold `ip4:` or `ip6:` somewhere; after the optional qualifier it must
/// begin with that prefix, and the remainder must read as a network of the
/// matching address family.  A family mismatch and an unreadable literal
/// are errors; a token that merely mentions the prefix elsewhere conforms
/// to no mechanism format.
pub open spec fn ip_token_spec(tok: Seq<char>) -> Result<MechView<NetView>, MechErrView> {
    let q = leading_qualifier(tok);
    let rest = strip_qualifier(tok);
    if seq_contains(tok, "ip4:"@) || seq_contains(tok, "ip6:"@) {
        if seq_starts_with(rest, "ip4:"@) {
            match ip_net_outcome(rest.subrange("ip4:"@.len() as int, rest.len() as int)) {
                Ok(p) => if p.0 {
                    Ok(
                        MechView {
                            kind: Kind::IpV4,
                            qualifier: q,
                            payload: Some(NetView { v4: true, repr: p.1 }),
                        },
                    )
                } else {
                    Err(MechErrView::NotIP4Network(p.1))
                },
                Err(d) => Err(MechErrView::NotValidIPNetwork(d)),
            }
        } else if seq_starts_with(rest, "ip6:"@) {
            match ip_net_outcome(rest.subrange("ip6:"@.len() as int, rest.len() as int)) {
                Ok(p) => if !p.0 {
                    Ok(
                        MechView {
                            kind: Kind::IpV6,
                            qualifier: q,
                            payload: Some(NetView { v4: false, repr: p.1 }),
                        },
                    )
                } else {
                    Err(MechErrView::NotIP6Network(p.1))
                },
                Err(d) => Err(MechErrView::NotValidIPNetwork(d)),
            }
        } else {
            Err(MechErrView::NotValidMechanismFormat(tok))
        }
    } else {
        Err(MechErrView::NotValidMechanismFormat(tok))
    }
}

/// Classification of a token of the `redirect=` or `include:` shape: the
/// payload is what follows the rightmost `=` or `:`; a redirect keeps the
/// default qualifier, an include takes the token's leading one.
pub open spec fn string_token_spec(tok: Seq<char>) -> Result<MechView<Seq<char>>, MechErrView> {
    if seq_contains(tok, "redirect="@) {
        Ok(
            MechView {
                kind: Kind::Redirect,
                qualifier: Qualifier::Pass,
                payload: Some(after_last(tok, '=')),
            },
        )
    } else if seq_contains(tok, "include:"@) {
        Ok(
            MechView {
                kind: Kind::Include,
                qualifier: leading_qualifier(tok),
                payload: Some(after_last(tok, ':')),
            },
        )
    } else {
        Err(MechErrView::NotValidMechanismFormat(tok))
    }
}

} // verus!

verus! {

/// Whether a piece of text holds no whitespace character.
pub open spec fn space_free(s: Seq<char>) -> bool {
    forall|i: int| 0 <= i < s.len() ==> !is_space_char(#[trigger] s[i])
}

/// An occurrence of `pat` in `x + y` lies wholly in `y` whenever every
/// occurrence of `pat`'s first character in `x` is not followed by its
/// second: no occurrence can then begin in `x`.
pub proof fn lemma_contains_concat_two_chars(x: Seq<char>, y: Seq<char>, pat: Seq<char>)
    requires
        pat.len() >= 2,
        forall|j: int|
            0 <= j < x.len() && #[trigger] x[j] == pat[0] ==> j + 1 < x.len() && x[j + 1] != pat[1],
    ensures
        seq_contains(x + y, pat) ==> seq_contains(y, pat),
{
    if seq_contains(x + y, pat) {
        let p = choose|p: int|
            0 <= p && p + pat.len() <= (x + y).len() && #[trigger] (x + y).subrange(
                p,
                p + pat.len(),
            ) == pat;
        assert((x + y).subrange(p, p + pat.len())[0] == (x + y)[p]);
        assert((x + y).subrange(p, p + pat.len())[1] == (x + y)[p + 1]);
        if p < x.len() {
            assert(x[p] == pat[0]);
            if p + 1 < x.len() {
                assert((x + y)[p + 1] == x[p + 1]);
                assert(false);
            } else {
                assert(false);
            }
        } else {
            assert(y.subrange(p - x.len(), p - x.len() + pat.len()) =~= pat);
        }
    }
}

/// An occurrence inside a part of `s` is an occurrence in `s`.
pub proof fn lemma_contains_subrange(s: Seq<char>, lo: int, hi: int, pat: Seq<char>)
    requires
        0 <= lo <= hi <= s.len(),
    ensures
        seq_contains(s.subrange(lo, hi), pat) ==> seq_contains(s, pat),
{
    if seq_contains(s.subrange(lo, hi), pat) {
        let p = choose|p: int|
            0 <= p && p + pat.len() <= (s.subrange(lo, hi)).len() && #[trigger] s.subrange(
                lo,
                hi,
            ).subrange(p, p + pat.len()) == pat;
        assert(s.subrange(lo + p, lo + p + pat.len()) =~= s.subrange(lo, hi).subrange(
            p,
            p + pat.len(),
        ));
    }
}

/// Text drawn from the canonical network character set cannot hold a
/// pattern one of whose characters lies outside that set.
pub proof fn lemma_charset_excludes(y: Seq<char>, pat: Seq<char>, k: int)
    requires
        0 <= k < pat.len(),
        !crate::mechanism::ip_text_char(pat[k]),
        forall|i: int| 0 <= i < y.len() ==> crate::mechanism::ip_text_char(#[trigger] y[i]),
    ensures
        !seq_contains(y, pat),
{
    if seq_contains(y, pat) {
        let p = choose|p: int|
            0 <= p && p + pat.len() <= y.len() && #[trigger] y.subrange(p, p + pat.len()) == pat;
        assert(y.subrange(p, p + pat.len())[k] == y[p + k]);
    }
}

/// The text after the last `c` of `x + p` is `p` itself, when `x` ends
/// in `c` and `p` holds no `c`.
pub proof fn lemma_after_last_concat(x: Seq<char>, p: Seq<char>, c: char)
    requires
        x.len() > 0,
        x[x.len() - 1] == c,
        forall|j: int| 0 <= j < p.len() ==> #[trigger] p[j] != c,
    ensures
        last_index_of_char(x + p, c) == x.len() - 1,
        after_last(x + p, c) == p,
{
    lemma_last_index_of_char(x + p, c);
    let l = last_index_of_char(x + p, c);
    assert((x + p)[x.len() - 1] == c);
    if l < x.len() - 1 {
        assert((x + p)[x.len() - 1] != c);
        assert(false);
    }
    if l > x.len() - 1 {
        assert((x + p)[l] == p[l - x.len()]);
        assert(false);
    }
    assert((x + p).subrange(x.len() as int, (x + p).len() as int) =~= p);
}

/// Splitting at a whitespace boundary splits the token list.
pub proof fn lemma_tokens_split_at_space(x: Seq<char>, y: Seq<char>)
    requires
        y.len() > 0,
        is_space_char(y[0]),
    ensures
        spec_tokens(x + y) == spec_tokens(x) + spec_tokens(y),
    decreases x.len(),
{
    if x.len() == 0 {
        assert(x + y =~= y);
        assert(spec_tokens(x) + spec_tokens(y) =~= spec_tokens(y));
    } else if is_space_char(x[0]) {
        lemma_tokens_split_at_space(x.drop_first(), y);
        assert((x + y).drop_first() =~= x.drop_first() + y);
    } else {
        lemma_non_space_prefix(x);
        lemma_non_space_prefix(x + y);
        let k = non_space_prefix_len(x);
        let kk = non_space_prefix_len(x + y);
        assert forall|j: int| 0 <= j < k implies !is_space_char((x + y)[j]) by {
            assert((x + y)[j] == x[j]);
        }
        if k < x.len() {
            assert((x + y)[k] == x[k]);
        } else {
            assert((x + y)[k] == y[0]);
        }
        if kk < k {
            assert(!is_space_char((x + y)[kk]));
            assert(false);
        }
        if kk > k {
            assert(!is_space_char((x + y)[k]));
            assert(false);
        }
        lemma_tokens_split_at_space(x.subrange(k, x.len() as int), y);
        assert((x + y).subrange(kk, (x + y).len() as int) =~= x.subrange(k, x.len() as int) + y);
        assert((x + y).subrange(0, kk) =~= x.subrange(0, k));
        assert(spec_tokens(x + y) =~= seq![x.subrange(0, k)] + spec_tokens(
            x.subrange(k, x.len() as int),
        ) + spec_tokens(y));
        assert(spec_tokens(x) + spec_tokens(y) =~= seq![x.subrange(0, k)] + spec_tokens(
            x.subrange(k, x.len() as int),
        ) + spec_tokens(y));
    }
}

/// A nonempty whitespace-free piece of text is one token.
pub proof fn lemma_tokens_single(t: Seq<char>)
    requires
        t.len() > 0,
        space_free(t),
    ensures
        spec_tokens(t) == seq![t],
{
    lemma_non_space_prefix(t);
    let k = non_space_prefix_len(t);
    assert(!is_space_char(t[0]));
    if k < t.len() {
        assert(is_space_char(t[k]));
        assert(false);
    }
    assert(spec_tokens(t) == seq![t.subrange(0, k)] + spec_tokens(t.subrange(k, t.len() as int)));
    assert(t.subrange(k, t.len() as int) =~= Seq::<char>::empty());
    assert(spec_tokens(Seq::<char>::empty()) == Seq::<Seq<char>>::empty());
    assert(t.subrange(0, k) =~= t);
    assert(seq![t] + Seq::<Seq<char>>::empty() =~= seq![t]);
}

/// Every token of a line is nonempty and whitespace-free.
pub proof fn lemma_token_props(s: Seq<char>)
    ensures
        forall|i: int|
            0 <= i < spec_tokens(s).len() ==> (#[trigger] spec_tokens(s)[i]).len() > 0
                && space_free(spec_tokens(s)[i]),
    decreases s.len(),
{
    if s.len() == 0 {
    } else if is_space_char(s[0]) {
        lemma_token_props(s.drop_first());
        assert(spec_tokens(s) == spec_tokens(s.drop_first()));
        assert forall|i: int|
            0 <= i < spec_tokens(s).len() implies (#[trigger] spec_tokens(s)[i]).len() > 0
            && space_free(spec_tokens(s)[i]) by {
            assert(spec_tokens(s)[i] == spec_tokens(s.drop_first())[i]);
        }
    } else {
        lemma_non_space_prefix(s);
        let k = non_space_prefix_len(s);
        lemma_token_props(s.subrange(k, s.len() as int));
        assert forall|i: int|
            0 <= i < spec_tokens(s).len() implies (#[trigger] spec_tokens(s)[i]).len() > 0
            && space_free(spec_tokens(s)[i]) by {
            if i == 0 {
                assert(spec_tokens(s)[0] == s.subrange(0, k));
                assert forall|j: int| 0 <= j < k implies !is_space_char(
                    #[trigger] s.subrange(0, k)[j],
                ) by {
                    assert(s.subrange(0, k)[j] == s[j]);
                }
            } else {
                assert(spec_tokens(s)[i] == spec_tokens(s.subrange(k, s.len() as int))[i - 1]);
            }
        }
    }
}

/// Appending a single space and a whitespace-free token to text that ends
/// in a non-space keeps the line free of doubled whitespace.
pub proof fn lemma_no_double_space_append(acc: Seq<char>, t: Seq<char>)
    requires
        !has_double_space(acc),
        acc.len() > 0,
        !is_space_char(acc[acc.len() - 1]),
        t.len() > 0,
        space_free(t),
    ensures
        !has_double_space(acc + " "@ + t),
        (acc + " "@ + t).len() > 0,
        !is_space_char((acc + " "@ + t)[(acc + " "@ + t).len() - 1]),
{
    reveal_strlit(" ");
    let w = acc + " "@ + t;
    assert(w[w.len() - 1] == t[t.len() - 1]);
    if has_double_space(w) {
        let i = choose|i: int|
            0 <= i && i + 1 < w.len() && is_space_char(#[trigger] w[i]) && is_space_char(w[i + 1]);
        if i + 1 < acc.len() {
            assert(w[i] == acc[i]);
            assert(w[i + 1] == acc[i + 1]);
            assert(false);
        } else if i + 1 == acc.len() {
            assert(w[i] == acc[i]);
            assert(false);
        } else if i == acc.len() {
            assert(w[i + 1] == t[0]);
            assert(false);
        } else {
            assert(w[i] == t[i - acc.len() - 1]);
            assert(false);
        }
    }
}

} // verus!
