//! Text-level helpers of the snapshot source: extracting the timestamp
//! from a snapshot file name, recognising the `.json` extension, spotting
//! the transient upstream-failure marker in a file's body, and the
//! lexicographic order used for deterministic reporting.
use vstd::prelude::*;
use vstd::string::StringSliceAdditionalSpecFns;

verus! {

pub open spec fn is_digit(c: char) -> bool {
    48 <= c as int <= 57
}

pub open spec fn digit_val(c: char) -> int {
    c as int - 48
}

pub open spec fn all_digits(s: Seq<char>) -> bool {
    forall|i: int| 0 <= i < s.len() ==> is_digit(s[i])
}

/// Value of a sequence of decimal digits, most significant first.
pub open spec fn digits_value(s: Seq<char>) -> int
    decreases s.len(),
{
    if s.len() <= 0 {
        0
    } else {
        digits_value(s.drop_last()) * 10 + digit_val(s.last())
    }
}

/// What parsing a string as an unsigned 64-bit number accepts: an
/// optional leading `+`, then at least one decimal digit, with a value
/// that fits in 64 bits.
pub open spec fn parsed_u64(s: Seq<char>) -> Option<u64> {
    let t = if s.len() > 0 && s[0] == '+' {
        s.drop_first()
    } else {
        s
    };
    if t.len() >= 1 && all_digits(t) && digits_value(t) <= u64::MAX {
        Some(digits_value(t) as u64)
    } else {
        None
    }
}

/// Position of the first `-` of `s`, if any.
pub open spec fn first_dash(s: Seq<char>) -> Option<int>
    decreases s.len(),
{
    if s.len() <= 0 {
        None
    } else if s[0] == '-' {
        Some(0)
    } else {
        match first_dash(s.drop_first()) {
            Some(j) => Some(j + 1),
            None => None,
        }
    }
}

/// The timestamp encoded in a snapshot file name: the name must start
/// with `postmark-tti-`, and what stands between that prefix and the next
/// `-` must parse as an unsigned 64-bit number of seconds.
pub open spec fn parsed_timestamp(name: Seq<char>) -> Option<u64> {
    let p = "postmark-tti-"@;
    if name.len() >= p.len() && name.subrange(0, p.len() as int) == p {
        let rest = name.skip(p.len() as int);
        match first_dash(rest) {
            Some(j) => parsed_u64(rest.subrange(0, j)),
            None => None,
        }
    } else {
        None
    }
}

proof fn lemma_digits_value_nonneg(s: Seq<char>)
    requires
        all_digits(s),
    ensures
        digits_value(s) >= 0,
    decreases s.len(),
{
    if s.len() > 0 {
        assert(all_digits(s.drop_last()));
        lemma_digits_value_nonneg(s.drop_last());
    }
}

/// A prefix of a digit string never exceeds the whole string in value.
proof fn lemma_digits_value_mono(s: Seq<char>, i: int)
    requires
        all_digits(s),
        0 <= i <= s.len(),
    ensures
        digits_value(s) >= digits_value(s.subrange(0, i)),
    decreases s.len() - i,
{
    if i == s.len() {
        assert(s.subrange(0, i) =~= s);
    } else {
        lemma_digits_value_mono(s, i + 1);
        let a = s.subrange(0, i + 1);
        let b = s.subrange(0, i);
        assert(a.drop_last() =~= b);
        assert(all_digits(b));
        lemma_digits_value_nonneg(b);
        assert(digits_value(a) == digits_value(b) * 10 + digit_val(a.last()));
    }
}

proof fn lemma_first_dash_none(s: Seq<char>)
    requires
        forall|l: int| 0 <= l < s.len() ==> s[l] != '-',
    ensures
        first_dash(s) is None,
    decreases s.len(),
{
    if s.len() > 0 {
        lemma_first_dash_none(s.drop_first());
    }
}

proof fn lemma_first_dash_at(s: Seq<char>, j: int)
    requires
        0 <= j < s.len(),
        s[j] == '-',
        forall|l: int| 0 <= l < j ==> s[l] != '-',
    ensures
        first_dash(s) == Some(j),
    decreases j,
{
    if j > 0 {
        lemma_first_dash_at(s.drop_first(), j - 1);
    }
}

/// Extract the snapshot timestamp from a file name, exactly as
/// `parsed_timestamp` describes it.
#[verifier::rlimit(60)]
pub fn timestamp_from_name(name: &str) -> (r: Option<u64>)
    ensures
        r == parsed_timestamp(name@),
{
    let p = "postmark-tti-";
    proof {
        reveal_strlit("postmark-tti-");
    }
    let n = name.unicode_len();
    if n < 13 {
        return None;
    }
    let mut i: usize = 0;
    while i < 13
        invariant
            name@.len() >= 13,
            p@ == "postmark-tti-"@,
            p@.len() == 13,
            0 <= i <= 13,
            forall|l: int| 0 <= l < i ==> name@[l] == p@[l],
        decreases 13 - i,
    {
        if name.get_char(i) != p.get_char(i) {
            proof {
                assert(name@.subrange(0, 13) != p@);
            }
            return None;
        }
        i = i + 1;
    }
    proof {
        assert(name@.subrange(0, 13) =~= p@);
    }
    let ghost rest = name@.skip(13);
    // Find the first `-` after the prefix.
    let mut j: usize = 13;
    while j < n && name.get_char(j) != '-'
        invariant
            n == name@.len(),
            13 <= j <= n,
            forall|l: int| 13 <= l < j ==> name@[l] != '-',
        decreases n - j,
    {
        j = j + 1;
    }
    if j == n {
        proof {
            assert(forall|l: int| 0 <= l < rest.len() ==> rest[l] != '-');
            lemma_first_dash_none(rest);
        }
        return None;
    }
    proof {
        lemma_first_dash_at(rest, j - 13);
        assert(rest.subrange(0, j - 13) =~= name@.subrange(13, j as int));
    }
    let ghost part = name@.subrange(13, j as int);
    // Parse the digits, with an optional leading `+`.
    let mut s: usize = 13;
    if name.get_char(s) == '+' {
        s = s + 1;
    }
    let ghost t = name@.subrange(s as int, j as int);
    proof {
        if part.len() > 0 && part[0] == '+' {
            assert(t =~= part.drop_first());
        } else {
            assert(t =~= part);
        }
    }
    if s == j {
        return None;
    }
    proof {
        assert(t.len() >= 1);
    }
    let mut v: u64 = 0;
    let mut idx = s;
    while idx < j
        invariant
            n == name@.len(),
            13 <= s <= idx <= j < n,
            t == name@.subrange(s as int, j as int),
            t.len() >= 1,
            part == name@.subrange(13, j as int),
            parsed_timestamp(name@) == parsed_u64(part),
            parsed_u64(part) == (if all_digits(t) && digits_value(t) <= u64::MAX {
                Some(digits_value(t) as u64)
            } else {
                None::<u64>
            }),
            forall|l: int| s <= l < idx ==> is_digit(name@[l]),
            v as int == digits_value(name@.subrange(s as int, idx as int)),
        decreases j - idx,
    {
        let c = name.get_char(idx);
        let cu = c as u32;
        if cu < 48 || cu > 57 {
            proof {
                assert(t[idx - s] == name@[idx as int]);
                assert(!all_digits(t));
            }
            return None;
        }
        let d: u64 = (cu - 48) as u64;
        proof {
            let a = name@.subrange(s as int, idx + 1);
            let b = name@.subrange(s as int, idx as int);
            assert(a.drop_last() =~= b);
            assert(a.last() == name@[idx as int]);
        }
        if v > (u64::MAX - d) / 10 {
            proof {
                let done = name@.subrange(s as int, idx + 1);
                assert(digits_value(done) == v * 10 + d);
                assert(v * 10 + d > u64::MAX) by {
                    let q = (u64::MAX - d) / 10;
                    assert(u64::MAX - d == q * 10 + (u64::MAX - d) % 10);
                };
                if all_digits(t) {
                    lemma_digits_value_mono(t, idx + 1 - s);
                    assert(t.subrange(0, idx + 1 - s) =~= done);
                }
            }
            return None;
        }
        proof {
            assert(v * 10 + d <= u64::MAX) by {
                let q = (u64::MAX - d) / 10;
                assert(u64::MAX - d == q * 10 + (u64::MAX - d) % 10);
            };
        }
        v = v * 10 + d;
        idx = idx + 1;
    }
    proof {
        assert(t =~= name@.subrange(s as int, idx as int));
        assert(all_digits(t));
    }
    Some(v)
}

/// Whether the name carries a `.json` extension: a final `.json` with a
/// nonempty stem before the dot.
pub open spec fn has_json_extension(name: Seq<char>) -> bool {
    name.len() >= 6 && name[name.len() - 5] == '.' && name.subrange(
        name.len() - 4,
        name.len() as int,
    ) == "json"@
}

pub fn is_json_name(name: &str) -> (r: bool)
    ensures
        r == has_json_extension(name@),
{
    let j = "json";
    proof {
        reveal_strlit("json");
    }
    let n = name.unicode_len();
    if n < 6 {
        return false;
    }
    if name.get_char(n - 5) != '.' {
        return false;
    }
    let mut i: usize = 0;
    while i < 4
        invariant
            n == name@.len() >= 6,
            j@ == "json"@,
            j@.len() == 4,
            0 <= i <= 4,
            forall|l: int| 0 <= l < i ==> name@[n - 4 + l] == j@[l],
        decreases 4 - i,
    {
        if name.get_char(n - 4 + i) != j.get_char(i) {
            proof {
                assert(name@.subrange(n - 4, n as int)[i as int] != j@[i as int]);
            }
            return false;
        }
        i = i + 1;
    }
    proof {
        assert(name@.subrange(n - 4, n as int) =~= j@);
    }
    true
}

/// `pat` occurs as a contiguous run of `text`.
pub open spec fn contains_bytes(text: Seq<u8>, pat: Seq<u8>) -> bool {
    exists|k: int|
        0 <= k <= text.len() - pat.len() && #[trigger] text.subrange(k, k + pat.len()) == pat
}

/// Whether the raw text of a snapshot file holds the transient
/// upstream-failure marker `Internal Server Error` (matched over the
/// text's bytes, as substring search does).
pub fn contains_error_marker(text: &str) -> (r: bool)
    ensures
        r == contains_bytes(text.spec_bytes(), "Internal Server Error".spec_bytes()),
{
    let marker = "Internal Server Error";
    let tb = text.as_bytes();
    let mb = marker.as_bytes();
    let n = tb.len();
    let m = mb.len();
    if n < m {
        return false;
    }
    let mut k: usize = 0;
    while k <= n - m
        invariant
            n == tb@.len(),
            m == mb@.len(),
            m <= n,
            tb@ == text.spec_bytes(),
            mb@ == "Internal Server Error".spec_bytes(),
            0 <= k <= n - m + 1,
            forall|q: int| 0 <= q < k ==> #[trigger] tb@.subrange(q, q + m) != mb@,
        decreases n - m + 1 - k,
    {
        let mut jj: usize = 0;
        let mut hit = true;
        while jj < m
            invariant
                n == tb@.len(),
                m == mb@.len(),
                0 <= k <= n - m,
                0 <= jj <= m,
                hit <==> forall|q: int| 0 <= q < jj ==> tb@[k + q] == mb@[q],
            decreases m - jj,
        {
            if tb[k + jj] != mb[jj] {
                hit = false;
                jj = m;
            } else {
                jj = jj + 1;
            }
        }
        if hit {
            proof {
                assert(tb@.subrange(k as int, k + m) =~= mb@);
            }
            return true;
        }
        proof {
            assert(tb@.subrange(k as int, k + m) != mb@) by {
                let q = choose|q: int| 0 <= q < m && tb@[k + q] != mb@[q];
                assert(tb@.subrange(k as int, k + m)[q] != mb@[q]);
            };
        }
        k = k + 1;
    }
    false
}

/// Strict lexicographic order on character sequences, by code point:
/// the order of service names in the report.
pub open spec fn lex_lt(a: Seq<char>, b: Seq<char>) -> bool
    decreases a.len(),
{
    if b.len() == 0 {
        false
    } else if a.len() == 0 {
        true
    } else if (a[0] as int) < (b[0] as int) {
        true
    } else if a[0] != b[0] {
        false
    } else {
        lex_lt(a.drop_first(), b.drop_first())
    }
}

/// `lex_lt` is trichotomous: two character sequences are either equal or
/// strictly ordered one way.
pub proof fn lemma_lex_trichotomy(a: Seq<char>, b: Seq<char>)
    ensures
        a == b || lex_lt(a, b) || lex_lt(b, a),
    decreases a.len(),
{
    if a.len() > 0 && b.len() > 0 && a[0] == b[0] {
        lemma_lex_trichotomy(a.drop_first(), b.drop_first());
        if a.drop_first() == b.drop_first() {
            assert(a.drop_first().len() == b.drop_first().len());
            assert(a.len() == b.len());
            assert forall|i: int| 1 <= i < a.len() implies a[i] == b[i] by {
                assert(a.drop_first()[i - 1] == a[i]);
                assert(b.drop_first()[i - 1] == b[i]);
                assert(a.drop_first()[i - 1] == b.drop_first()[i - 1]);
            }
            assert(a =~= b);
        }
    }
}

/// `lex_lt` is transitive.
pub proof fn lemma_lex_trans(a: Seq<char>, b: Seq<char>, c: Seq<char>)
    requires
        lex_lt(a, b),
        lex_lt(b, c),
    ensures
        lex_lt(a, c),
    decreases a.len(),
{
    if a.len() > 0 && b.len() > 0 && c.len() > 0 && a[0] == b[0] && b[0] == c[0] {
        lemma_lex_trans(a.drop_first(), b.drop_first(), c.drop_first());
    }
}

/// Compare two strings in the lexicographic order `lex_lt`.
pub fn str_lt(a: &str, b: &str) -> (r: bool)
    ensures
        r == lex_lt(a@, b@),
{
    let la = a.unicode_len();
    let lb = b.unicode_len();
    let min = if la <= lb {
        la
    } else {
        lb
    };
    proof {
        assert(a@.skip(0) =~= a@);
        assert(b@.skip(0) =~= b@);
    }
    let mut i: usize = 0;
    while i < min
        invariant
            la == a@.len(),
            lb == b@.len(),
            min <= la && min <= lb,
            (min == la || min == lb),
            0 <= i <= min,
            forall|l: int| 0 <= l < i ==> a@[l] == b@[l],
            lex_lt(a@, b@) == lex_lt(a@.skip(i as int), b@.skip(i as int)),
        decreases min - i,
    {
        let ca = a.get_char(i);
        let cb = b.get_char(i);
        proof {
            assert(a@.skip(i as int)[0] == a@[i as int]);
            assert(b@.skip(i as int)[0] == b@[i as int]);
            assert(a@.skip(i as int).drop_first() =~= a@.skip(i + 1));
            assert(b@.skip(i as int).drop_first() =~= b@.skip(i + 1));
        }
        if (ca as u32) < (cb as u32) {
            return true;
        }
        if ca != cb {
            return false;
        }
        i = i + 1;
    }
    proof {
        assert(a@.skip(min as int).len() == la - min);
        assert(b@.skip(min as int).len() == lb - min);
    }
    la < lb
}

} // verus!
