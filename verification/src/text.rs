//! Conversions between the library's character sequences and `String`.
use vstd::prelude::*;
use vstd::string::StrSliceExecFns;

verus! {

/// Collects characters into a `String` with `String::from_iter`; the claim is that
/// the string holds exactly those characters in that order.
#[verifier::external_body]
pub(crate) fn string_from_chars(v: &Vec<char>) -> (s: String)
    ensures
        s@ == v@,
{
    String::from_iter(v.iter())
}

/// The characters of a string, in order.
pub fn chars_of(s: &str) -> (v: Vec<char>)
    ensures
        v@ == s@,
{
    let n = s.unicode_len();
    let mut v: Vec<char> = Vec::new();
    let mut i: usize = 0;
    while i < n
        invariant
            i <= n,
            n == s@.len(),
            v@ == s@.take(i as int),
        decreases n - i,
    {
        v.push(s.get_char(i));
        proof {
            assert(v@ =~= s@.take(i + 1));
        }
        i = i + 1;
    }
    proof {
        assert(v@ =~= s@);
    }
    v
}

/// The characters with the Unicode White_Space property, the ones that
/// `char::is_whitespace` accepts: tab to carriage return, space, next line,
/// no-break space, ogham space mark, the spaces from en quad to hair space, line and
/// paragraph separators, narrow no-break space, medium mathematical space and
/// ideographic space.
pub open spec fn unicode_white(c: char) -> bool {
    let u = c as u32;
    ||| 0x09 <= u <= 0x0D
    ||| u == 0x20
    ||| u == 0x85
    ||| u == 0xA0
    ||| u == 0x1680
    ||| 0x2000 <= u <= 0x200A
    ||| u == 0x2028
    ||| u == 0x2029
    ||| u == 0x202F
    ||| u == 0x205F
    ||| u == 0x3000
}

/// Whether `c` is white space in the sense of `unicode_white`; ASCII space, tab,
/// line feed, form feed and carriage return are, ASCII letters and digits are not.
pub(crate) fn is_white(c: char) -> (r: bool)
    ensures
        r == unicode_white(c),
        (c == ' ' || c == '\t' || c == '\n' || c == '\r' || c == '\x0C') ==> r,
        (('a' <= c <= 'z') || ('A' <= c <= 'Z') || ('0' <= c <= '9')) ==> !r,
{
    let u = c as u32;
    (0x09 <= u && u <= 0x0D) || u == 0x20 || u == 0x85 || u == 0xA0 || u == 0x1680 || (0x2000 <= u && u <= 0x200A)
        || u == 0x2028 || u == 0x2029 || u == 0x202F || u == 0x205F || u == 0x3000
}

/// ASCII letters lowered, other characters kept.
pub open spec fn lower_char(c: char) -> char {
    if 'A' <= c <= 'Z' {
        ((c as u32) + 32) as char
    } else {
        c
    }
}

pub fn to_lower(c: char) -> (r: char)
    ensures
        r == lower_char(c),
{
    if 'A' <= c && c <= 'Z' {
        ((c as u8) + 32) as char
    } else {
        c
    }
}

/// Equal up to the case of ASCII letters.
pub open spec fn eq_ignore_case(a: Seq<char>, b: Seq<char>) -> bool {
    a.len() == b.len() && forall|i: int| 0 <= i < a.len() ==> lower_char(#[trigger] a[i]) == lower_char(b[i])
}

pub fn eq_ignore_ascii_case(a: &Vec<char>, b: &Vec<char>) -> (r: bool)
    ensures
        r == eq_ignore_case(a@, b@),
{
    if a.len() != b.len() {
        return false;
    }
    let mut i: usize = 0;
    while i < a.len()
        invariant
            i <= a@.len(),
            a@.len() == b@.len(),
            forall|k: int| 0 <= k < i ==> lower_char(#[trigger] a@[k]) == lower_char(b@[k]),
        decreases a@.len() - i,
    {
        if to_lower(a[i]) != to_lower(b[i]) {
            return false;
        }
        i = i + 1;
    }
    true
}

/// `s` with the leading white characters removed.
pub open spec fn trim_start(s: Seq<char>) -> Seq<char>
    decreases s.len(),
{
    if s.len() > 0 && unicode_white(s[0]) {
        trim_start(s.drop_first())
    } else {
        s
    }
}

/// `s` with the trailing white characters removed.
pub open spec fn trim_end(s: Seq<char>) -> Seq<char>
    decreases s.len(),
{
    if s.len() > 0 && unicode_white(s.last()) {
        trim_end(s.drop_last())
    } else {
        s
    }
}

/// `s` with white characters removed at both ends, as `str::trim`.
pub open spec fn trim(s: Seq<char>) -> Seq<char> {
    trim_end(trim_start(s))
}

pub fn trim_chars(v: &Vec<char>) -> (r: Vec<char>)
    ensures
        r@ == trim(v@),
{
    let n = v.len();
    let mut a: usize = 0;
    proof {
        assert(v@.subrange(0, n as int) =~= v@);
    }
    while a < n && is_white(v[a])
        invariant
            a <= n,
            n == v@.len(),
            trim_start(v@.subrange(a as int, n as int)) == trim_start(v@),
        decreases n - a,
    {
        proof {
            assert(v@.subrange(a as int, n as int).drop_first() =~= v@.subrange(a + 1, n as int));
        }
        a = a + 1;
    }
    let mut b: usize = n;
    while b > a && is_white(v[b - 1])
        invariant
            a <= b <= n,
            n == v@.len(),
            trim_start(v@) == v@.subrange(a as int, n as int) || trim_start(v@) == v@.subrange(a as int, n as int),
            trim_end(v@.subrange(a as int, b as int)) == trim_end(v@.subrange(a as int, n as int)),
        decreases b - a,
    {
        proof {
            assert(v@.subrange(a as int, b as int).drop_last() =~= v@.subrange(a as int, b - 1));
        }
        b = b - 1;
    }
    proof {
        let t = v@.subrange(a as int, n as int);
        if !(a < n) {
            assert(t.len() == 0);
        }
        assert(trim_start(v@) == t) by {
            if a < n {
                assert(t[0] == v@[a as int]);
            }
            lemma_trim_start_stop(t);
        }
        let u = v@.subrange(a as int, b as int);
        assert(trim_end(u) == u) by {
            if b > a {
                assert(u.last() == v@[b - 1]);
            }
        }
    }
    let mut r: Vec<char> = Vec::new();
    let mut i: usize = a;
    while i < b
        invariant
            a <= i <= b <= n,
            n == v@.len(),
            r@ == v@.subrange(a as int, i as int),
        decreases b - i,
    {
        r.push(v[i]);
        proof {
            assert(r@ =~= v@.subrange(a as int, i + 1));
        }
        i = i + 1;
    }
    r
}

proof fn lemma_trim_start_stop(t: Seq<char>)
    requires
        t.len() == 0 || !unicode_white(t[0]),
    ensures
        trim_start(t) == t,
{
}

/// Number of leading characters of `s` that are not white.
pub open spec fn token_len(s: Seq<char>) -> nat
    decreases s.len(),
{
    if s.len() == 0 || unicode_white(s[0]) {
        0
    } else {
        1 + token_len(s.drop_first())
    }
}

/// The maximal runs of non-white characters of `s`, in order, as `str::split_whitespace`.
pub open spec fn ws_tokens(s: Seq<char>) -> Seq<Seq<char>>
    decreases s.len(),
{
    if s.len() == 0 {
        Seq::empty()
    } else if unicode_white(s[0]) {
        ws_tokens(s.drop_first())
    } else {
        let t = token_len(s);
        proof {
            lemma_token_len_bounds(s);
        }
        seq![s.take(t as int)] + ws_tokens(s.skip(t as int))
    }
}

pub proof fn lemma_token_len_bounds(s: Seq<char>)
    ensures
        token_len(s) <= s.len(),
        s.len() > 0 && !unicode_white(s[0]) ==> token_len(s) >= 1,
    decreases s.len(),
{
    if s.len() > 0 {
        lemma_token_len_bounds(s.drop_first());
    }
}

proof fn lemma_token_len(s: Seq<char>, k: int)
    requires
        0 <= k <= s.len(),
        forall|i: int| 0 <= i < k ==> !unicode_white(#[trigger] s[i]),
        k == s.len() || unicode_white(s[k]),
    ensures
        token_len(s) == k,
    decreases k,
{
    if k > 0 {
        lemma_token_len(s.drop_first(), k - 1);
    }
}

proof fn lemma_ws_tokens_token(s: Seq<char>, k: int)
    requires
        0 < k <= s.len(),
        forall|i: int| 0 <= i < k ==> !unicode_white(#[trigger] s[i]),
        k == s.len() || unicode_white(s[k]),
    ensures
        ws_tokens(s) == seq![s.take(k)] + ws_tokens(s.skip(k)),
{
    lemma_token_len(s, k);
}

/// The views of a list of character vectors.
pub open spec fn views(v: Seq<Vec<char>>) -> Seq<Seq<char>> {
    v.map_values(|t: Vec<char>| t@)
}

/// Splits at white characters, dropping them: `str::split_whitespace`.
pub fn split_whitespace(v: &Vec<char>) -> (r: Vec<Vec<char>>)
    ensures
        views(r@) == ws_tokens(v@),
{
    let n = v.len();
    let mut out: Vec<Vec<char>> = Vec::new();
    let mut i: usize = 0;
    proof {
        assert(v@.skip(0) =~= v@);
        assert(views(out@) =~= Seq::<Seq<char>>::empty());
    }
    while i < n
        invariant
            i <= n,
            n == v@.len(),
            ws_tokens(v@) == views(out@) + ws_tokens(v@.skip(i as int)),
        decreases n - i,
    {
        if is_white(v[i]) {
            proof {
                assert(v@.skip(i as int).drop_first() =~= v@.skip(i + 1));
            }
            i = i + 1;
        } else {
            let mut j = i;
            let mut tok: Vec<char> = Vec::new();
            while j < n && !is_white(v[j])
                invariant
                    i <= j <= n,
                    n == v@.len(),
                    tok@ == v@.subrange(i as int, j as int),
                    forall|k: int| i <= k < j ==> !unicode_white(#[trigger] v@[k]),
                    !unicode_white(v@[i as int]),
                decreases n - j,
            {
                tok.push(v[j]);
                proof {
                    assert(tok@ =~= v@.subrange(i as int, j + 1));
                }
                j = j + 1;
            }
            proof {
                let s = v@.skip(i as int);
                let k = (j - i) as int;
                assert forall|t: int| 0 <= t < k implies !unicode_white(#[trigger] s[t]) by {
                    assert(s[t] == v@[i + t]);
                }
                if j < n {
                    assert(s[k] == v@[j as int]);
                }
                lemma_ws_tokens_token(s, k);
                assert(s.take(k) =~= tok@);
                assert(s.skip(k) =~= v@.skip(j as int));
                let o = out@;
                assert(views(o.push(tok)) =~= views(o).push(tok@));
            }
            out.push(tok);
            i = j;
        }
    }
    proof {
        assert(v@.skip(n as int) =~= Seq::<char>::empty());
        assert(views(out@) + Seq::<Seq<char>>::empty() =~= views(out@));
    }
    out
}

/// The value of a string of decimal digits.
pub open spec fn digits_val(s: Seq<char>) -> int
    decreases s.len(),
{
    if s.len() == 0 {
        0
    } else {
        digits_val(s.drop_last()) * 10 + (s.last() as int - 48)
    }
}

pub open spec fn all_digits(s: Seq<char>) -> bool {
    forall|i: int| 0 <= i < s.len() ==> '0' <= #[trigger] s[i] <= '9'
}

/// The integer a string names: an optional sign, then one or more decimal digits.
pub open spec fn int_of(s: Seq<char>) -> Option<int> {
    if s.len() > 0 && (s[0] == '+' || s[0] == '-') {
        let d = s.drop_first();
        if d.len() > 0 && all_digits(d) {
            Some(if s[0] == '-' { -digits_val(d) } else { digits_val(d) })
        } else {
            None
        }
    } else if s.len() > 0 && all_digits(s) {
        Some(digits_val(s))
    } else {
        None
    }
}

/// What `str::parse::<i64>` gives: the integer, when it fits.
pub open spec fn i64_of(s: Seq<char>) -> Option<i64> {
    match int_of(s) {
        Some(v) => if i64::MIN <= v <= i64::MAX {
            Some(v as i64)
        } else {
            None
        },
        None => None,
    }
}

/// What `str::parse::<u64>` gives: an optional `+`, digits, a value that fits.
pub open spec fn u64_of(s: Seq<char>) -> Option<u64> {
    match int_of(s) {
        Some(v) => if s[0] != '-' && 0 <= v <= u64::MAX {
            Some(v as u64)
        } else {
            None
        },
        None => None,
    }
}

proof fn lemma_digits_mono(s: Seq<char>, k: int)
    requires
        0 <= k <= s.len(),
        all_digits(s),
    ensures
        digits_val(s.take(k)) <= digits_val(s),
        0 <= digits_val(s.take(k)),
    decreases s.len() - k,
{
    if k < s.len() {
        lemma_digits_mono(s, k + 1);
        assert(s.take(k + 1).drop_last() =~= s.take(k));
    } else {
        assert(s.take(k) =~= s);
    }
    lemma_digits_nonneg(s.take(k));
}

proof fn lemma_digits_nonneg(s: Seq<char>)
    requires
        all_digits(s),
    ensures
        0 <= digits_val(s),
    decreases s.len(),
{
    if s.len() > 0 {
        lemma_digits_nonneg(s.drop_last());
    }
}

/// The magnitude of the digits of `s` from `start`, or `None` past 10^20.
fn digits_from(s: &Vec<char>, start: usize) -> (r: Option<u128>)
    requires
        start <= s@.len(),
    ensures
        match r {
            Some(v) => all_digits(s@.skip(start as int)) && v == digits_val(s@.skip(start as int)),
            None => !all_digits(s@.skip(start as int)) || digits_val(s@.skip(start as int)) >= 100_000_000_000_000_000_000,
        },
{
    let n = s.len();
    let mut v: u128 = 0;
    let mut big = false;
    let mut i = start;
    let ghost d = s@.skip(start as int);
    while i < n
        invariant
            start <= i <= n,
            n == s@.len(),
            d == s@.skip(start as int),
            all_digits(d.take(i - start)),
            !big ==> v == digits_val(d.take(i - start)) && v < 100_000_000_000_000_000_000,
            big ==> digits_val(d.take(i - start)) >= 100_000_000_000_000_000_000,
        decreases n - i,
    {
        let c = s[i];
        if !('0' <= c && c <= '9') {
            proof {
                assert(d[i - start] == c);
            }
            return None;
        }
        proof {
            assert(d.take(i - start + 1).drop_last() =~= d.take(i - start));
            assert(d.take(i - start + 1).last() == c);
            assert(all_digits(d.take(i - start + 1))) by {
                assert forall|k: int| 0 <= k < i - start + 1 implies '0' <= #[trigger] d.take(i - start + 1)[k] <= '9' by {
                    if k < i - start {
                        assert(d.take(i - start + 1)[k] == d.take(i - start)[k]);
                    }
                }
            }
            lemma_digits_nonneg(d.take(i - start));
        }
        if !big {
            let nv = v * 10 + ((c as u32) - 48) as u128;
            if nv >= 100_000_000_000_000_000_000 {
                big = true;
            } else {
                v = nv;
            }
        }
        i = i + 1;
    }
    proof {
        assert(d.take(n - start) =~= d);
    }
    if big {
        None
    } else {
        Some(v)
    }
}

/// `str::parse::<i64>`.
pub fn parse_i64(s: &Vec<char>) -> (r: Option<i64>)
    ensures
        r == i64_of(s@),
{
    if s.len() == 0 {
        return None;
    }
    let signed = s[0] == '+' || s[0] == '-';
    let start: usize = if signed {
        1
    } else {
        0
    };
    if signed && s.len() == 1 {
        return None;
    }
    proof {
        if signed {
            assert(s@.skip(1) =~= s@.drop_first());
        } else {
            assert(s@.skip(0) =~= s@);
        }
    }
    match digits_from(s, start) {
        None => {
            proof {
                if all_digits(s@.skip(start as int)) {
                    lemma_digits_nonneg(s@.skip(start as int));
                }
            }
            None
        },
        Some(m) => {
            if s[0] == '-' {
                if m <= 9223372036854775808 {
                    Some((0i128 - m as i128) as i64)
                } else {
                    None
                }
            } else if m <= 9223372036854775807 {
                Some(m as i64)
            } else {
                None
            }
        },
    }
}

/// `str::parse::<u64>`.
pub fn parse_u64(s: &Vec<char>) -> (r: Option<u64>)
    ensures
        r == u64_of(s@),
{
    if s.len() == 0 {
        return None;
    }
    if s[0] == '-' {
        return None;
    }
    let signed = s[0] == '+';
    let start: usize = if signed {
        1
    } else {
        0
    };
    if signed && s.len() == 1 {
        return None;
    }
    proof {
        if signed {
            assert(s@.skip(1) =~= s@.drop_first());
        } else {
            assert(s@.skip(0) =~= s@);
        }
    }
    match digits_from(s, start) {
        None => {
            proof {
                if all_digits(s@.skip(start as int)) {
                    lemma_digits_nonneg(s@.skip(start as int));
                }
            }
            None
        },
        Some(m) => {
            proof {
                lemma_digits_nonneg(s@.skip(start as int));
            }
            if m <= 18446744073709551615 {
                Some(m as u64)
            } else {
                None
            }
        },
    }
}

/// The two character vectors are equal.
pub fn same_chars(a: &Vec<char>, b: &Vec<char>) -> (r: bool)
    ensures
        r == (a@ == b@),
{
    if a.len() != b.len() {
        return false;
    }
    let mut i: usize = 0;
    while i < a.len()
        invariant
            i <= a@.len() == b@.len(),
            forall|k: int| 0 <= k < i ==> a@[k] == b@[k],
        decreases a@.len() - i,
    {
        if a[i] != b[i] {
            return false;
        }
        i = i + 1;
    }
    proof {
        assert(a@ =~= b@);
    }
    true
}

} // verus!
