use vstd::prelude::*;
use vstd::string::*;

verus! {

// ---------------------------------------------------------------------------
// Case folding
// ---------------------------------------------------------------------------

/// What `str::to_lowercase` returns for a given character sequence.
pub uninterp spec fn lower_of(s: Seq<char>) -> Seq<char>;

/// Relies on `str::to_lowercase`: the lowercased text is a function of the
/// input characters alone.
#[verifier::external_body]
pub(crate) fn lowercase(s: &str) -> (r: String)
    ensures
        r@ == lower_of(s@),
{
    s.to_lowercase()
}

/// ASCII-only lowercasing of one character; everything outside `A`..`Z`
/// is left as it is.
pub open spec fn ascii_lower_char(c: char) -> char {
    if 65 <= c as int && c as int <= 90 {
        (((c as int) + 32) as u8) as char
    } else {
        c
    }
}

pub open spec fn ascii_lower_chars(s: Seq<char>) -> Seq<char> {
    s.map_values(|c: char| ascii_lower_char(c))
}

pub fn to_ascii_lower(v: &Vec<char>) -> (r: Vec<char>)
    ensures
        r@ == ascii_lower_chars(v@),
{
    let mut r: Vec<char> = Vec::new();
    let mut i: usize = 0;
    while i < v.len()
        invariant
            i <= v.len(),
            r@ == ascii_lower_chars(v@.subrange(0, i as int)),
        decreases v.len() - i,
    {
        let c = v[i];
        let n = c as u32;
        let low: char = if 65 <= n && n <= 90 {
            ((n + 32) as u8) as char
        } else {
            c
        };
        r.push(low);
        i = i + 1;
        assert(v@.subrange(0, i as int).map_values(|c: char| ascii_lower_char(c))
            =~= v@.subrange(0, i as int - 1).map_values(|c: char| ascii_lower_char(c)).push(
            ascii_lower_char(v@[i as int - 1]),
        ));
    }
    assert(v@.subrange(0, v@.len() as int) =~= v@);
    r
}

// ---------------------------------------------------------------------------
// Conversions between strings and character vectors
// ---------------------------------------------------------------------------

/// The characters of a string slice, in order.
pub fn str_chars(s: &str) -> (r: Vec<char>)
    ensures
        r@ == s@,
{
    let len = s.unicode_len();
    let mut r: Vec<char> = Vec::new();
    let mut i: usize = 0;
    while i < len
        invariant
            len == s@.len(),
            i <= len,
            r@ == s@.subrange(0, i as int),
        decreases len - i,
    {
        r.push(s.get_char(i));
        i = i + 1;
        assert(s@.subrange(0, i as int) =~= s@.subrange(0, i as int - 1).push(
            s@[i as int - 1],
        ));
    }
    assert(s@.subrange(0, s@.len() as int) =~= s@);
    r
}

/// Relies on `String`'s `FromIterator` over `char`: collecting yields the
/// string holding exactly the given characters in order.
#[verifier::external_body]
pub fn chars_to_string(v: &Vec<char>) -> (r: String)
    ensures
        r@ == v@,
{
    v.iter().collect()
}

/// A copy of the characters from `from` (inclusive) to `to` (exclusive).
pub fn sub_chars(v: &Vec<char>, from: usize, to: usize) -> (r: Vec<char>)
    requires
        from <= to <= v@.len(),
    ensures
        r@ == v@.subrange(from as int, to as int),
{
    let mut r: Vec<char> = Vec::new();
    let mut i: usize = from;
    while i < to
        invariant
            from <= i <= to <= v@.len(),
            r@ == v@.subrange(from as int, i as int),
        decreases to - i,
    {
        r.push(v[i]);
        proof {
            assert(v@.subrange(from as int, i + 1) =~= v@.subrange(from as int, i as int).push(
                v@[i as int],
            ));
        }
        i = i + 1;
    }
    r
}

// ---------------------------------------------------------------------------
// ASCII whitespace
// ---------------------------------------------------------------------------

/// An ASCII whitespace character, as console input carries them.
pub open spec fn is_ascii_ws(c: char) -> bool {
    c == ' ' || c == '\t' || c == '\r' || c == '\n'
}

/// `s` without its leading ASCII whitespace.
pub open spec fn trim_start_ws(s: Seq<char>) -> Seq<char>
    decreases s.len(),
{
    if s.len() > 0 && is_ascii_ws(s[0]) {
        trim_start_ws(s.drop_first())
    } else {
        s
    }
}

/// `s` without its trailing ASCII whitespace.
pub open spec fn trim_end_ws(s: Seq<char>) -> Seq<char>
    decreases s.len(),
{
    if s.len() > 0 && is_ascii_ws(s.last()) {
        trim_end_ws(s.drop_last())
    } else {
        s
    }
}

/// `s` without leading and trailing ASCII whitespace.
pub open spec fn trim_ws(s: Seq<char>) -> Seq<char> {
    trim_end_ws(trim_start_ws(s))
}

pub(crate) fn is_ws_exec(c: char) -> (b: bool)
    ensures
        b == is_ascii_ws(c),
{
    c == ' ' || c == '\t' || c == '\r' || c == '\n'
}

/// The position of the first non-whitespace character, or the length.
pub(crate) fn skip_ws_from_start(v: &Vec<char>) -> (start: usize)
    ensures
        start <= v@.len(),
        trim_start_ws(v@) == v@.skip(start as int),
{
    let n = v.len();
    let mut start: usize = 0;
    proof {
        assert(v@.skip(0) =~= v@);
    }
    while start < n && is_ws_exec(v[start])
        invariant
            n == v@.len(),
            start <= n,
            trim_start_ws(v@) == trim_start_ws(v@.skip(start as int)),
        decreases n - start,
    {
        proof {
            let t = v@.skip(start as int);
            assert(t[0] == v@[start as int]);
            assert(t.drop_first() =~= v@.skip(start + 1));
        }
        start = start + 1;
    }
    proof {
        let t = v@.skip(start as int);
        if start == n {
            assert(t =~= Seq::<char>::empty());
        } else {
            assert(t[0] == v@[start as int]);
        }
        assert(trim_start_ws(t) == t);
    }
    start
}

/// The characters with leading and trailing ASCII whitespace removed.
pub fn trim_ws_chars(v: &Vec<char>) -> (r: Vec<char>)
    ensures
        r@ == trim_ws(v@),
{
    let n = v.len();
    let start = skip_ws_from_start(v);
    let ghost t = v@.skip(start as int);
    let mut e: usize = n;
    proof {
        assert(v@.subrange(start as int, n as int) =~= t);
    }
    while e > start && is_ws_exec(v[e - 1])
        invariant
            n == v@.len(),
            start <= e <= n,
            t == v@.skip(start as int),
            trim_end_ws(t) == trim_end_ws(v@.subrange(start as int, e as int)),
        decreases e,
    {
        proof {
            let sub = v@.subrange(start as int, e as int);
            assert(sub.last() == v@[e - 1]);
            assert(sub.drop_last() =~= v@.subrange(start as int, e as int - 1));
        }
        e = e - 1;
    }
    proof {
        let sub = v@.subrange(start as int, e as int);
        if e == start {
            assert(sub =~= Seq::<char>::empty());
        } else {
            assert(sub.last() == v@[e - 1]);
        }
        assert(trim_end_ws(sub) == sub);
    }
    sub_chars(v, start, e)
}

// ---------------------------------------------------------------------------
// Substring search
// ---------------------------------------------------------------------------

/// The needle `n` occurs in `h` starting at index `i`.
pub open spec fn match_at(h: Seq<char>, n: Seq<char>, i: int) -> bool {
    0 <= i && i + n.len() <= h.len() && h.subrange(i, i + n.len() as int) == n
}

/// The needle `n` occurs somewhere in `h`.
pub open spec fn has_match(h: Seq<char>, n: Seq<char>) -> bool {
    exists|i: int| match_at(h, n, i)
}

fn match_at_exec(h: &Vec<char>, n: &Vec<char>, i: usize) -> (b: bool)
    requires
        i + n@.len() <= h@.len(),
    ensures
        b == match_at(h@, n@, i as int),
{
    let hlen = h.len();
    let mut j: usize = 0;
    while j < n.len()
        invariant
            hlen == h@.len(),
            i + n@.len() <= h@.len(),
            j <= n@.len(),
            h@.subrange(i as int, i as int + j as int) =~= n@.subrange(0, j as int),
        decreases n@.len() - j,
    {
        assert(i + j < h@.len());
        if h[i + j] != n[j] {
            assert(h@.subrange(i as int, i + n@.len() as int)[j as int] != n@[j as int]);
            return false;
        }
        j = j + 1;
        assert(h@.subrange(i as int, i as int + j as int) =~= h@.subrange(
            i as int,
            i as int + j as int - 1,
        ).push(h@[i + j - 1]));
        assert(n@.subrange(0, j as int) =~= n@.subrange(0, j as int - 1).push(n@[j as int - 1]));
    }
    assert(n@.subrange(0, n@.len() as int) =~= n@);
    true
}

/// Whether the character sequence `n` occurs contiguously inside `h`.
pub fn contains_chars(h: &Vec<char>, n: &Vec<char>) -> (b: bool)
    ensures
        b == has_match(h@, n@),
{
    if n.len() > h.len() {
        assert(forall|i: int| !match_at(h@, n@, i));
        return false;
    }
    if n.len() == 0 {
        assert(h@.subrange(0, 0) =~= n@);
        assert(match_at(h@, n@, 0));
        return true;
    }
    let hlen = h.len();
    let last = hlen - n.len();
    let mut i: usize = 0;
    while i <= last
        invariant
            hlen == h@.len(),
            1 <= n@.len() <= h@.len(),
            last == h@.len() - n@.len(),
            i <= last + 1,
            forall|k: int| 0 <= k < i ==> !match_at(h@, n@, k),
        decreases last + 1 - i,
    {
        if match_at_exec(h, n, i) {
            return true;
        }
        i = i + 1;
    }
    assert(forall|k: int| !match_at(h@, n@, k));
    false
}

// ---------------------------------------------------------------------------
// Decimal rendering
// ---------------------------------------------------------------------------

/// The decimal digit `d` as a character, for `0 <= d <= 9`.
pub open spec fn digit_char(d: int) -> char {
    ((48 + d) as u8) as char
}

/// The decimal rendering of `n`, without leading zeros.
pub open spec fn dec_chars(n: nat) -> Seq<char>
    decreases n,
{
    if n < 10 {
        seq![digit_char(n as int)]
    } else {
        dec_chars(n / 10).push(digit_char((n % 10) as int))
    }
}

/// Two decimal digits, zero padded, for `n < 100`.
pub open spec fn pad2_chars(n: nat) -> Seq<char> {
    seq![digit_char(n as int / 10), digit_char(n as int % 10)]
}

/// Four decimal digits, zero padded, for `n < 10000`.
pub open spec fn pad4_chars(n: nat) -> Seq<char> {
    seq![
        digit_char(n as int / 1000),
        digit_char((n as int / 100) % 10),
        digit_char((n as int / 10) % 10),
        digit_char(n as int % 10),
    ]
}

/// At least three decimal digits, zero padded below 1000.
pub open spec fn pad3_chars(n: nat) -> Seq<char> {
    if n < 1000 {
        seq![digit_char(n as int / 100), digit_char((n as int / 10) % 10), digit_char(n as int % 10)]
    } else {
        dec_chars(n)
    }
}

fn digit(d: u8) -> (c: char)
    requires
        d < 10,
    ensures
        c == digit_char(d as int),
{
    (48 + d) as char
}

pub fn push_pad2(v: &mut Vec<char>, n: u8)
    requires
        n < 100,
    ensures
        final(v)@ == old(v)@ + pad2_chars(n as nat),
{
    v.push(digit(n / 10));
    v.push(digit(n % 10));
    assert(v@ =~= old(v)@ + pad2_chars(n as nat));
}

pub fn push_pad4(v: &mut Vec<char>, n: u16)
    requires
        n < 10000,
    ensures
        final(v)@ == old(v)@ + pad4_chars(n as nat),
{
    v.push(digit((n / 1000) as u8));
    v.push(digit(((n / 100) % 10) as u8));
    v.push(digit(((n / 10) % 10) as u8));
    v.push(digit((n % 10) as u8));
    assert(v@ =~= old(v)@ + pad4_chars(n as nat));
}

pub fn push_dec(v: &mut Vec<char>, n: u32)
    ensures
        final(v)@ == old(v)@ + dec_chars(n as nat),
    decreases n,
{
    if n < 10 {
        v.push(digit(n as u8));
        assert(v@ =~= old(v)@ + dec_chars(n as nat));
    } else {
        push_dec(v, n / 10);
        v.push(digit((n % 10) as u8));
        assert(v@ =~= old(v)@ + dec_chars(n as nat));
    }
}

pub fn push_pad3(v: &mut Vec<char>, n: u32)
    ensures
        final(v)@ == old(v)@ + pad3_chars(n as nat),
{
    if n < 1000 {
        v.push(digit((n / 100) as u8));
        v.push(digit(((n / 10) % 10) as u8));
        v.push(digit((n % 10) as u8));
        assert(v@ =~= old(v)@ + pad3_chars(n as nat));
    } else {
        push_dec(v, n);
    }
}


// ---------------------------------------------------------------------------
// Lexicographic order
// ---------------------------------------------------------------------------

/// Lexicographic order on character sequences, by code point, with a prefix
/// ordered before its extensions.
pub open spec fn lex_le(a: Seq<char>, b: Seq<char>) -> bool
    decreases a.len(),
{
    if a.len() == 0 {
        true
    } else if b.len() == 0 {
        false
    } else if (a[0] as int) < (b[0] as int) {
        true
    } else if a[0] == b[0] {
        lex_le(a.drop_first(), b.drop_first())
    } else {
        false
    }
}

/// Equal prefixes drop out of a lexicographic comparison.
pub proof fn lemma_lex_le_common_prefix(a: Seq<char>, x: Seq<char>, y: Seq<char>)
    ensures
        lex_le(a + x, a + y) == lex_le(x, y),
    decreases a.len(),
{
    if a.len() == 0 {
        assert(a + x =~= x);
        assert(a + y =~= y);
    } else {
        assert((a + x)[0] == a[0]);
        assert((a + y)[0] == a[0]);
        assert((a + x).drop_first() =~= a.drop_first() + x);
        assert((a + y).drop_first() =~= a.drop_first() + y);
        lemma_lex_le_common_prefix(a.drop_first(), x, y);
    }
}

/// A strictly smaller prefix decides a lexicographic comparison, whatever
/// follows on either side.
pub proof fn lemma_lex_le_strict_prefix(a: Seq<char>, b: Seq<char>, x: Seq<char>, y: Seq<char>)
    requires
        a.len() == b.len(),
        lex_le(a, b),
        a != b,
    ensures
        lex_le(a + x, b + y),
    decreases a.len(),
{
    if a.len() == 0 {
        assert(a =~= b);
    }
    assert(a.len() > 0);
    assert((a + x)[0] == a[0]);
    assert((b + y)[0] == b[0]);
    if (a[0] as int) < (b[0] as int) {
    } else {
        assert(a[0] == b[0]);
        assert((a + x).drop_first() =~= a.drop_first() + x);
        assert((b + y).drop_first() =~= b.drop_first() + y);
        assert(a.drop_first() != b.drop_first()) by {
            if a.drop_first() == b.drop_first() {
                assert forall|i: int| 0 <= i < a.len() implies a[i] == b[i] by {
                    if i > 0 {
                        assert(a.drop_first()[i - 1] == a[i]);
                        assert(b.drop_first()[i - 1] == b[i]);
                    }
                }
                assert(a =~= b);
            }
        }
        lemma_lex_le_strict_prefix(a.drop_first(), b.drop_first(), x, y);
    }
}

/// Two-digit renderings compare like their numbers.
pub proof fn lemma_lex_le_pad2(n1: nat, n2: nat)
    requires
        n1 <= n2 < 100,
    ensures
        lex_le(pad2_chars(n1), pad2_chars(n2)),
        n1 < n2 ==> pad2_chars(n1) != pad2_chars(n2),
{
    let a = pad2_chars(n1);
    let b = pad2_chars(n2);
    assert(digit_char(n1 as int / 10) as int == 48 + n1 as int / 10);
    assert(digit_char(n1 as int % 10) as int == 48 + n1 as int % 10);
    assert(digit_char(n2 as int / 10) as int == 48 + n2 as int / 10);
    assert(digit_char(n2 as int % 10) as int == 48 + n2 as int % 10);
    assert(a[0] == digit_char(n1 as int / 10) && a[1] == digit_char(n1 as int % 10));
    assert(b[0] == digit_char(n2 as int / 10) && b[1] == digit_char(n2 as int % 10));
    assert(a.drop_first() =~= seq![digit_char(n1 as int % 10)]);
    assert(b.drop_first() =~= seq![digit_char(n2 as int % 10)]);
    if n1 as int / 10 < n2 as int / 10 {
        assert((a[0] as int) < (b[0] as int));
    } else {
        assert(n1 as int / 10 == n2 as int / 10);
        assert(n1 as int % 10 <= n2 as int % 10);
        assert(a[0] == b[0]);
        if n1 as int % 10 < n2 as int % 10 {
            assert(lex_le(a.drop_first(), b.drop_first())) by {
                assert(a.drop_first().len() == 1);
                assert(b.drop_first().len() == 1);
                assert(a.drop_first()[0] == digit_char(n1 as int % 10));
                assert(b.drop_first()[0] == digit_char(n2 as int % 10));
                assert((a.drop_first()[0] as int) < (b.drop_first()[0] as int));
            }
        } else {
            assert(n1 == n2);
            assert(a.drop_first() =~= b.drop_first());
            assert(a.drop_first().drop_first().len() == 0);
            assert(lex_le(a.drop_first().drop_first(), b.drop_first().drop_first()));
            assert(lex_le(a.drop_first(), b.drop_first()));
        }
        assert(lex_le(a, b));
    }
    if n1 < n2 {
        if n1 as int / 10 == n2 as int / 10 {
            assert(n1 as int % 10 < n2 as int % 10);
            assert(a[1] != b[1]);
        } else {
            assert(a[0] != b[0]);
        }
    }
}

/// Four-digit renderings compare like their numbers.
pub proof fn lemma_lex_le_pad4(n1: nat, n2: nat)
    requires
        n1 <= n2 < 10000,
    ensures
        lex_le(pad4_chars(n1), pad4_chars(n2)),
        n1 < n2 ==> pad4_chars(n1) != pad4_chars(n2),
{
    let h1 = n1 / 100;
    let l1 = n1 % 100;
    let h2 = n2 / 100;
    let l2 = n2 % 100;
    let x = n1 as int;
    let y = n2 as int;
    assert(x / 100 / 10 == x / 1000 && y / 100 / 10 == y / 1000) by (nonlinear_arith)
        requires
            x >= 0 && y >= 0,
    ;
    assert((x % 100) / 10 == (x / 10) % 10 && (y % 100) / 10 == (y / 10) % 10)
        by (nonlinear_arith)
        requires
            x >= 0 && y >= 0,
    ;
    assert((x % 100) % 10 == x % 10 && (y % 100) % 10 == y % 10) by (nonlinear_arith)
        requires
            x >= 0 && y >= 0,
    ;
    assert(pad4_chars(n1) =~= pad2_chars(h1) + pad2_chars(l1));
    assert(pad4_chars(n2) =~= pad2_chars(h2) + pad2_chars(l2));
    if h1 < h2 {
        lemma_lex_le_pad2(h1, h2);
        lemma_lex_le_strict_prefix(pad2_chars(h1), pad2_chars(h2), pad2_chars(l1), pad2_chars(l2));
        assert(pad4_chars(n1) != pad4_chars(n2)) by {
            if pad4_chars(n1) == pad4_chars(n2) {
                assert forall|i: int| 0 <= i < 2 implies pad2_chars(h1)[i] == pad2_chars(h2)[i]
                    by {
                    assert((pad2_chars(h1) + pad2_chars(l1))[i] == pad2_chars(h1)[i]);
                    assert((pad2_chars(h2) + pad2_chars(l2))[i] == pad2_chars(h2)[i]);
                }
                assert(pad2_chars(h1) =~= pad2_chars(h2));
            }
        }
    } else {
        assert(h1 == h2 && l1 <= l2);
        lemma_lex_le_pad2(l1, l2);
        lemma_lex_le_common_prefix(pad2_chars(h1), pad2_chars(l1), pad2_chars(l2));
        if n1 < n2 {
            assert(l1 < l2);
            assert(pad4_chars(n1) != pad4_chars(n2)) by {
                if pad4_chars(n1) == pad4_chars(n2) {
                    assert forall|i: int| 0 <= i < 2 implies pad2_chars(l1)[i] == pad2_chars(
                        l2,
                    )[i] by {
                        assert((pad2_chars(h1) + pad2_chars(l1))[2 + i] == pad2_chars(l1)[i]);
                        assert((pad2_chars(h2) + pad2_chars(l2))[2 + i] == pad2_chars(l2)[i]);
                    }
                    assert(pad2_chars(l1) =~= pad2_chars(l2));
                }
            }
        }
    }
}

} // verus!
