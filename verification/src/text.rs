//! Character-level helpers on `String` and `&str`, each proved against a
//! specification over `Seq<char>`.
use vstd::prelude::*;

verus! {

/// Appends one character to a string (std `String::push`).
/// Trusted: the string afterwards holds its old characters followed by `c`.
#[verifier::external_body]
pub(crate) fn push_char(s: &mut String, c: char)
    ensures
        final(s)@ == old(s)@.push(c),
{
    s.push(c);
}

/// The characters of `s`, in order.
pub fn chars_of(s: &str) -> (v: Vec<char>)
    ensures
        v@ == s@,
{
    let mut v: Vec<char> = Vec::new();
    for c in it: s.chars()
        invariant
            v@ == it.seq().take(it.index() as int),
            it.seq() == s@,
    {
        v.push(c);
    }
    v
}

/// A string made of the characters of `cs`.
pub fn string_from_chars(cs: &[char]) -> (s: String)
    ensures
        s@ == cs@,
{
    let mut s = String::new();
    let mut i: usize = 0;
    while i < cs.len()
        invariant
            i <= cs@.len(),
            s@ == cs@.subrange(0, i as int),
        decreases cs@.len() - i,
    {
        push_char(&mut s, cs[i]);
        assert(cs@.subrange(0, i + 1) == cs@.subrange(0, i as int).push(cs@[i as int]));
        i = i + 1;
    }
    assert(cs@.subrange(0, cs@.len() as int) == cs@);
    s
}

/// An owned copy of a string slice.
pub fn owned(s: &str) -> (r: String)
    ensures
        r@ == s@,
{
    s.to_owned()
}

/// Whether two string slices hold the same characters.
pub fn str_eq(a: &str, b: &str) -> (r: bool)
    ensures
        r == (a@ == b@),
{
    let x = a.to_owned();
    let y = b.to_owned();
    x == y
}

/// `p` is a prefix of `s`.
pub open spec fn is_prefix(p: Seq<char>, s: Seq<char>) -> bool {
    p.len() <= s.len() && s.subrange(0, p.len() as int) == p
}

/// `p` is a suffix of `s`.
pub open spec fn is_suffix(p: Seq<char>, s: Seq<char>) -> bool {
    p.len() <= s.len() && s.subrange(s.len() - p.len(), s.len() as int) == p
}

/// Whether `p` is a prefix of `s` (std `str::starts_with` on strings).
pub fn starts_with(s: &str, p: &str) -> (r: bool)
    ensures
        r == is_prefix(p@, s@),
{
    let sv = chars_of(s);
    let pv = chars_of(p);
    seq_starts_with(&sv, &pv)
}

/// Whether `p` is a suffix of `s` (std `str::ends_with` on strings).
pub fn ends_with(s: &str, p: &str) -> (r: bool)
    ensures
        r == is_suffix(p@, s@),
{
    let sv = chars_of(s);
    let pv = chars_of(p);
    seq_ends_with(&sv, &pv)
}

/// Whether the characters of `p` occur at position `at` of `s`.
pub open spec fn occurs_at(s: Seq<char>, p: Seq<char>, at: int) -> bool {
    0 <= at && at + p.len() <= s.len() && s.subrange(at, at + p.len()) == p
}

/// Whether `p` occurs at position `at` of `s`.
pub fn occurs_at_exec(s: &[char], p: &[char], at: usize) -> (r: bool)
    ensures
        r == occurs_at(s@, p@, at as int),
{
    if at > s.len() || p.len() > s.len() - at {
        return false;
    }
    let mut i: usize = 0;
    let n = s.len();
    while i < p.len()
        invariant
            n == s@.len(),
            at + p@.len() <= s@.len(),
            i <= p@.len(),
            forall|k: int| 0 <= k < i ==> s@[at + k] == p@[k],
        decreases p@.len() - i,
    {
        if s[at + i] != p[i] {
            assert(s@.subrange(at as int, at + p@.len())[i as int] != p@[i as int]);
            return false;
        }
        i = i + 1;
    }
    assert(s@.subrange(at as int, at + p@.len()) =~= p@);
    true
}

/// Whether `p` is a prefix of `s`, on character vectors.
pub fn seq_starts_with(s: &[char], p: &[char]) -> (r: bool)
    ensures
        r == is_prefix(p@, s@),
{
    occurs_at_exec(s, p, 0)
}

/// Whether `p` is a suffix of `s`, on character vectors.
pub fn seq_ends_with(s: &[char], p: &[char]) -> (r: bool)
    ensures
        r == is_suffix(p@, s@),
{
    if p.len() > s.len() {
        return false;
    }
    occurs_at_exec(s, p, s.len() - p.len())
}

/// Whether `p` occurs anywhere in `s`.
pub open spec fn contains_seq(s: Seq<char>, p: Seq<char>) -> bool {
    exists|at: int| occurs_at(s, p, at)
}

/// Whether `p` occurs in `s` (std `str::contains` with a string pattern).
pub fn contains_str(s: &str, p: &str) -> (r: bool)
    ensures
        r == contains_seq(s@, p@),
{
    let sv = chars_of(s);
    let pv = chars_of(p);
    if pv.len() > sv.len() {
        return false;
    }
    if pv.len() == 0 {
        assert(sv@.subrange(0, 0) =~= pv@);
        assert(occurs_at(sv@, pv@, 0));
        return true;
    }
    let mut at: usize = 0;
    let n = sv.len();
    while at <= sv.len() - pv.len()
        invariant
            sv@ == s@,
            pv@ == p@,
            pv@.len() > 0,
            n == sv@.len(),
            pv@.len() <= sv@.len(),
            at <= sv@.len() - pv@.len() + 1,
            forall|k: int| 0 <= k < at ==> !occurs_at(sv@, pv@, k),
        decreases sv@.len() - pv@.len() + 1 - at,
    {
        if occurs_at_exec(&sv, &pv, at) {
            assert(occurs_at(sv@, pv@, at as int));
            assert(contains_seq(s@, p@));
            return true;
        }
        at = at + 1;
    }
    assert forall|k: int| !occurs_at(sv@, pv@, k) by {
        if 0 <= k && k + pv@.len() <= sv@.len() {
        }
    }
    false
}

/// Every occurrence of character `from` replaced by `to`.
pub open spec fn replace_char_spec(s: Seq<char>, from: char, to: char) -> Seq<char> {
    s.map_values(|c: char| if c == from { to } else { c })
}

/// A copy of `s` with every `from` replaced by `to` (std `str::replace` with
/// one-character patterns).
pub fn replace_char(s: &str, from: char, to: char) -> (r: String)
    ensures
        r@ == replace_char_spec(s@, from, to),
{
    let cs = chars_of(s);
    let mut out: Vec<char> = Vec::new();
    let mut i: usize = 0;
    while i < cs.len()
        invariant
            i <= cs@.len(),
            out@ == replace_char_spec(cs@.subrange(0, i as int), from, to),
        decreases cs@.len() - i,
    {
        let c = cs[i];
        if c == from {
            out.push(to);
        } else {
            out.push(c);
        }
        assert(cs@.subrange(0, i + 1) == cs@.subrange(0, i as int).push(c));
        i = i + 1;
    }
    assert(cs@.subrange(0, cs@.len() as int) == cs@);
    string_from_chars(&out)
}

/// Replaces every non-overlapping occurrence of a non-empty `pat`, scanning
/// from the left, by `rep` (the semantics of std `str::replace`).
pub open spec fn replace_all(s: Seq<char>, pat: Seq<char>, rep: Seq<char>) -> Seq<char>
    recommends
        pat.len() > 0,
    decreases s.len(),
{
    if pat.len() == 0 || s.len() == 0 {
        s
    } else if occurs_at(s, pat, 0) {
        rep + replace_all(s.subrange(pat.len() as int, s.len() as int), pat, rep)
    } else {
        seq![s[0]] + replace_all(s.subrange(1, s.len() as int), pat, rep)
    }
}

proof fn lemma_replace_all_step(s: Seq<char>, i: int, pat: Seq<char>, rep: Seq<char>, done: Seq<char>)
    requires
        pat.len() > 0,
        0 <= i <= s.len(),
        replace_all(s, pat, rep) == done + replace_all(s.subrange(i, s.len() as int), pat, rep),
    ensures
        i < s.len() && occurs_at(s, pat, i) ==> replace_all(s, pat, rep) == (done + rep)
            + replace_all(s.subrange(i + pat.len(), s.len() as int), pat, rep),
        i < s.len() && !occurs_at(s, pat, i) ==> replace_all(s, pat, rep) == done.push(s[i])
            + replace_all(s.subrange(i + 1, s.len() as int), pat, rep),
{
    let t = s.subrange(i, s.len() as int);
    if i < s.len() {
        if occurs_at(s, pat, i) {
            assert(t.subrange(0, pat.len() as int) =~= s.subrange(i, i + pat.len()));
            assert(occurs_at(t, pat, 0));
            assert(t.subrange(pat.len() as int, t.len() as int) =~= s.subrange(
                i + pat.len(),
                s.len() as int,
            ));
            assert((done + rep) + replace_all(s.subrange(i + pat.len(), s.len() as int), pat, rep)
                =~= done + (rep + replace_all(s.subrange(i + pat.len(), s.len() as int), pat, rep)));
        } else {
            if occurs_at(t, pat, 0) {
                assert(t.subrange(0, pat.len() as int) =~= s.subrange(i, i + pat.len()));
            }
            assert(t.subrange(1, t.len() as int) =~= s.subrange(i + 1, s.len() as int));
            assert(t[0] == s[i]);
            assert(done.push(s[i]) + replace_all(s.subrange(i + 1, s.len() as int), pat, rep)
                =~= done + (seq![s[i]] + replace_all(s.subrange(i + 1, s.len() as int), pat, rep)));
        }
    }
}

/// A copy of `s` in which every occurrence of `pat` (non-empty) is replaced
/// by `rep`, left to right (std `str::replace`).
pub fn replace_str(s: &str, pat: &str, rep: &str) -> (r: String)
    requires
        pat@.len() > 0,
    ensures
        r@ == replace_all(s@, pat@, rep@),
{
    let cs = chars_of(s);
    let pv = chars_of(pat);
    let rv = chars_of(rep);
    let mut out: Vec<char> = Vec::new();
    let mut i: usize = 0;
    proof {
        assert(cs@.subrange(0, cs@.len() as int) =~= cs@);
        assert(out@ + replace_all(cs@.subrange(0, cs@.len() as int), pv@, rv@) =~= replace_all(cs@, pv@, rv@));
    }
    while i < cs.len()
        invariant
            pv@.len() > 0,
            i <= cs@.len(),
            replace_all(cs@, pv@, rv@) == out@ + replace_all(cs@.subrange(i as int, cs@.len() as int), pv@, rv@),
        decreases cs@.len() - i,
    {
        proof { lemma_replace_all_step(cs@, i as int, pv@, rv@, out@); }
        if occurs_at_exec(&cs, &pv, i) {
            let mut k: usize = 0;
            let ghost before = out@;
            while k < rv.len()
                invariant
                    k <= rv@.len(),
                    out@ == before + rv@.subrange(0, k as int),
                decreases rv@.len() - k,
            {
                out.push(rv[k]);
                assert(rv@.subrange(0, k + 1) == rv@.subrange(0, k as int).push(rv@[k as int]));
                k = k + 1;
            }
            assert(rv@.subrange(0, rv@.len() as int) =~= rv@);
            i = i + pv.len();
        } else {
            out.push(cs[i]);
            i = i + 1;
        }
    }
    proof {
        assert(cs@.subrange(i as int, cs@.len() as int).len() == 0);
        assert(out@ + Seq::<char>::empty() =~= out@);
    }
    string_from_chars(&out)
}

/// Removes `pat` from the front of `s` as many times as it occurs there
/// (std `str::trim_start_matches` with a string pattern).
pub open spec fn trim_start_all(s: Seq<char>, pat: Seq<char>) -> Seq<char>
    decreases s.len(),
{
    if pat.len() > 0 && is_prefix(pat, s) {
        trim_start_all(s.subrange(pat.len() as int, s.len() as int), pat)
    } else {
        s
    }
}

/// `s` without every leading repetition of `pat` (std `str::trim_start_matches`).
pub fn trim_start_matches(s: &str, pat: &str) -> (r: String)
    ensures
        r@ == trim_start_all(s@, pat@),
{
    let cs = chars_of(s);
    let pv = chars_of(pat);
    if pv.len() == 0 {
        return owned(s);
    }
    let mut i: usize = 0;
    proof {
        assert(cs@.subrange(0, cs@.len() as int) =~= cs@);
    }
    while i <= cs.len() && occurs_at_exec(&cs, &pv, i)
        invariant
            pv@.len() > 0,
            i <= cs@.len(),
            trim_start_all(cs@, pv@) == trim_start_all(cs@.subrange(i as int, cs@.len() as int), pv@),
        decreases cs@.len() - i,
    {
        let ghost t = cs@.subrange(i as int, cs@.len() as int);
        assert(t.subrange(0, pv@.len() as int) =~= cs@.subrange(i as int, i + pv@.len()));
        assert(t.subrange(pv@.len() as int, t.len() as int) =~= cs@.subrange(i + pv@.len(), cs@.len() as int));
        i = i + pv.len();
    }
    proof {
        let t = cs@.subrange(i as int, cs@.len() as int);
        if is_prefix(pv@, t) {
            assert(t.subrange(0, pv@.len() as int) =~= cs@.subrange(i as int, i + pv@.len()));
        }
    }
    let rest = slice_chars(&cs, i, cs.len());
    string_from_chars(&rest)
}

/// The characters `s[from..to]`.
pub fn slice_chars(s: &[char], from: usize, to: usize) -> (r: Vec<char>)
    requires
        from <= to <= s@.len(),
    ensures
        r@ == s@.subrange(from as int, to as int),
{
    let mut r: Vec<char> = Vec::new();
    let mut i = from;
    while i < to
        invariant
            from <= i <= to,
            to <= s@.len(),
            r@ == s@.subrange(from as int, i as int),
        decreases to - i,
    {
        r.push(s[i]);
        assert(s@.subrange(from as int, i + 1) == s@.subrange(from as int, i as int).push(s@[i as int]));
        i = i + 1;
    }
    r
}

/// ASCII lowercase of one character (std `char::to_ascii_lowercase`).
pub open spec fn ascii_lower(c: char) -> char {
    if 'A' <= c && c <= 'Z' {
        ((c as u32) + 32) as char
    } else {
        c
    }
}

/// ASCII lowercase of one character.
pub fn ascii_lower_exec(c: char) -> (r: char)
    ensures
        r == ascii_lower(c),
{
    if 'A' <= c && c <= 'Z' {
        let v: u32 = (c as u32) + 32;
        assert(v < 128);
        char_from_small(v)
    } else {
        c
    }
}

/// The character with code point `v`, for `v` in the ASCII range.
fn char_from_small(v: u32) -> (c: char)
    requires
        v < 128,
    ensures
        c == v as char,
{
    let b: u8 = v as u8;
    b as char
}

/// Equality of two strings after ASCII lowercasing
/// (std `str::eq_ignore_ascii_case`).
pub open spec fn eq_ignore_ascii_case_spec(a: Seq<char>, b: Seq<char>) -> bool {
    a.len() == b.len() && forall|i: int| 0 <= i < a.len() ==> ascii_lower(a[i]) == ascii_lower(b[i])
}

/// Whether `a` and `b` are equal up to ASCII case.
pub fn eq_ignore_ascii_case(a: &str, b: &str) -> (r: bool)
    ensures
        r == eq_ignore_ascii_case_spec(a@, b@),
{
    let av = chars_of(a);
    let bv = chars_of(b);
    if av.len() != bv.len() {
        return false;
    }
    let mut i: usize = 0;
    while i < av.len()
        invariant
            av@ == a@,
            bv@ == b@,
            av@.len() == bv@.len(),
            i <= av@.len(),
            forall|k: int| 0 <= k < i ==> ascii_lower(av@[k]) == ascii_lower(bv@[k]),
        decreases av@.len() - i,
    {
        if ascii_lower_exec(av[i]) != ascii_lower_exec(bv[i]) {
            assert(!(ascii_lower(av@[i as int]) == ascii_lower(bv@[i as int])));
            assert(!eq_ignore_ascii_case_spec(a@, b@));
            return false;
        }
        i = i + 1;
    }
    true
}

/// ASCII lowercase of every character of `s`.
pub open spec fn ascii_lowercase(s: Seq<char>) -> Seq<char> {
    s.map_values(|c: char| ascii_lower(c))
}

/// A copy of `s` lowercased in the ASCII range.
pub fn to_ascii_lowercase(s: &str) -> (r: String)
    ensures
        r@ == ascii_lowercase(s@),
{
    let cs = chars_of(s);
    let mut out: Vec<char> = Vec::new();
    let mut i: usize = 0;
    while i < cs.len()
        invariant
            i <= cs@.len(),
            out@ == ascii_lowercase(cs@.subrange(0, i as int)),
        decreases cs@.len() - i,
    {
        out.push(ascii_lower_exec(cs[i]));
        assert(cs@.subrange(0, i + 1) == cs@.subrange(0, i as int).push(cs@[i as int]));
        i = i + 1;
    }
    assert(cs@.subrange(0, cs@.len() as int) == cs@);
    string_from_chars(&out)
}

/// Whether the characters of `a` come no later than those of `b` in
/// lexicographic order by code point (the order of std `str`, whose UTF-8
/// bytes compare as their code points do).
pub open spec fn lex_le(a: Seq<char>, b: Seq<char>) -> bool
    decreases a.len(),
{
    if a.len() == 0 {
        true
    } else if b.len() == 0 {
        false
    } else if (a[0] as int) < (b[0] as int) {
        true
    } else if (a[0] as int) > (b[0] as int) {
        false
    } else {
        lex_le(a.subrange(1, a.len() as int), b.subrange(1, b.len() as int))
    }
}

/// Any two texts are ordered one way or the other.
pub proof fn lemma_lex_total(a: Seq<char>, b: Seq<char>)
    ensures
        lex_le(a, b) || lex_le(b, a),
    decreases a.len(),
{
    if a.len() > 0 && b.len() > 0 && a[0] == b[0] {
        lemma_lex_total(a.subrange(1, a.len() as int), b.subrange(1, b.len() as int));
    }
}

/// Texts ordered both ways are equal.
pub proof fn lemma_lex_antisymmetric(a: Seq<char>, b: Seq<char>)
    requires
        lex_le(a, b),
        lex_le(b, a),
    ensures
        a == b,
    decreases a.len(),
{
    if a.len() > 0 && b.len() > 0 {
        let ta = a.subrange(1, a.len() as int);
        let tb = b.subrange(1, b.len() as int);
        lemma_lex_antisymmetric(ta, tb);
        assert(a =~= seq![a[0]] + ta);
        assert(b =~= seq![b[0]] + tb);
    } else {
        assert(a.len() == 0 && b.len() == 0);
        assert(a =~= b);
    }
}

/// The order is transitive.
pub proof fn lemma_lex_transitive(a: Seq<char>, b: Seq<char>, c: Seq<char>)
    requires
        lex_le(a, b),
        lex_le(b, c),
    ensures
        lex_le(a, c),
    decreases a.len(),
{
    if a.len() > 0 && b.len() > 0 && c.len() > 0 && a[0] == b[0] && b[0] == c[0] {
        lemma_lex_transitive(a.subrange(1, a.len() as int), b.subrange(1, b.len() as int), c.subrange(1, c.len() as int));
    }
}

/// Lexicographic comparison of two strings: `a <= b`.
pub fn lex_le_exec(a: &[char], b: &[char]) -> (r: bool)
    ensures
        r == lex_le(a@, b@),
{
    let mut i: usize = 0;
    assert(a@.subrange(0, a@.len() as int) =~= a@);
    assert(b@.subrange(0, b@.len() as int) =~= b@);
    while i < a.len() && i < b.len() && a[i] == b[i]
        invariant
            i <= a@.len(),
            i <= b@.len(),
            lex_le(a@, b@) == lex_le(
                a@.subrange(i as int, a@.len() as int),
                b@.subrange(i as int, b@.len() as int),
            ),
        decreases a@.len() - i,
    {
        let ghost sa = a@.subrange(i as int, a@.len() as int);
        let ghost sb = b@.subrange(i as int, b@.len() as int);
        assert(sa.subrange(1, sa.len() as int) =~= a@.subrange(i + 1, a@.len() as int));
        assert(sb.subrange(1, sb.len() as int) =~= b@.subrange(i + 1, b@.len() as int));
        i = i + 1;
    }
    if i == a.len() {
        true
    } else if i == b.len() {
        false
    } else {
        let ghost sa = a@.subrange(i as int, a@.len() as int);
        let ghost sb = b@.subrange(i as int, b@.len() as int);
        assert(sa[0] == a@[i as int] && sb[0] == b@[i as int]);
        a[i] < b[i]
    }
}

/// The decimal digits of `n`, most significant first.
pub open spec fn decimal(n: nat) -> Seq<char>
    decreases n,
{
    if n < 10 {
        seq![digit_char(n)]
    } else {
        decimal(n / 10).push(digit_char(n % 10))
    }
}

/// The character of a decimal digit.
pub open spec fn digit_char(d: nat) -> char {
    (('0' as u32) + d) as char
}

fn digit_exec(d: usize) -> (c: char)
    requires
        d < 10,
    ensures
        c == digit_char(d as nat),
{
    char_from_small(48 + d as u32)
}

/// The decimal representation of `n` (std `usize::to_string`).
pub fn usize_to_decimal(n: usize) -> (r: Vec<char>)
    ensures
        r@ == decimal(n as nat),
    decreases n,
{
    if n < 10 {
        let mut v = Vec::new();
        v.push(digit_exec(n));
        v
    } else {
        let mut v = usize_to_decimal(n / 10);
        v.push(digit_exec(n % 10));
        v
    }
}

/// `s` padded on the left with `'0'` to at least `width` characters.
pub open spec fn zero_pad(s: Seq<char>, width: nat) -> Seq<char> {
    if s.len() >= width {
        s
    } else {
        Seq::new((width - s.len()) as nat, |i: int| '0') + s
    }
}

/// The decimal representation of `n`, zero-padded to `width`
/// (std `format!("{:0width$}", n)`).
pub fn zero_padded_decimal(n: usize, width: usize) -> (r: Vec<char>)
    ensures
        r@ == zero_pad(decimal(n as nat), width as nat),
{
    let d = usize_to_decimal(n);
    if d.len() >= width {
        return d;
    }
    let mut out: Vec<char> = Vec::new();
    let pad = width - d.len();
    let mut i: usize = 0;
    while i < pad
        invariant
            i <= pad,
            out@ == Seq::new(i as nat, |k: int| '0'),
        decreases pad - i,
    {
        out.push('0');
        assert(out@ =~= Seq::new((i + 1) as nat, |k: int| '0'));
        i = i + 1;
    }
    let mut j: usize = 0;
    let ghost pre = out@;
    while j < d.len()
        invariant
            j <= d@.len(),
            out@ == pre + d@.subrange(0, j as int),
        decreases d@.len() - j,
    {
        out.push(d[j]);
        assert(d@.subrange(0, j + 1) == d@.subrange(0, j as int).push(d@[j as int]));
        j = j + 1;
    }
    assert(d@.subrange(0, d@.len() as int) =~= d@);
    out
}

/// Appends the characters of `src` to `dst`.
pub fn extend_chars(dst: &mut Vec<char>, src: &[char])
    ensures
        final(dst)@ == old(dst)@ + src@,
{
    let mut i: usize = 0;
    let ghost start = dst@;
    while i < src.len()
        invariant
            i <= src@.len(),
            dst@ == start + src@.subrange(0, i as int),
        decreases src@.len() - i,
    {
        dst.push(src[i]);
        assert(src@.subrange(0, i + 1) == src@.subrange(0, i as int).push(src@[i as int]));
        i = i + 1;
    }
    assert(src@.subrange(0, src@.len() as int) =~= src@);
}

} // verus!

verus! {

/// A character with the Unicode `White_Space` property (what std's
/// `char::is_whitespace` tests).
pub open spec fn is_unicode_ws(c: char) -> bool {
    let n = c as u32;
    (0x9 <= n <= 0xD) || n == 0x20 || n == 0x85 || n == 0xA0 || n == 0x1680
        || (0x2000 <= n <= 0x200A) || n == 0x2028 || n == 0x2029 || n == 0x202F
        || n == 0x205F || n == 0x3000
}

/// Whether `c` is whitespace in the sense of [`is_unicode_ws`].
pub fn is_ws(c: char) -> (b: bool)
    ensures
        b == is_unicode_ws(c),
{
    let n = c as u32;
    (0x9 <= n && n <= 0xD) || n == 0x20 || n == 0x85 || n == 0xA0 || n == 0x1680
        || (0x2000 <= n && n <= 0x200A) || n == 0x2028 || n == 0x2029 || n == 0x202F
        || n == 0x205F || n == 0x3000
}

/// `s` without its leading whitespace.
pub open spec fn trim_start_ws(s: Seq<char>) -> Seq<char>
    decreases s.len(),
{
    if s.len() > 0 && is_unicode_ws(s[0]) {
        trim_start_ws(s.drop_first())
    } else {
        s
    }
}

/// `s` without its trailing whitespace.
pub open spec fn trim_end_ws(s: Seq<char>) -> Seq<char>
    decreases s.len(),
{
    if s.len() > 0 && is_unicode_ws(s.last()) {
        trim_end_ws(s.drop_last())
    } else {
        s
    }
}

/// `s` without leading and trailing whitespace (std `str::trim`).
pub open spec fn trim_ws(s: Seq<char>) -> Seq<char> {
    trim_end_ws(trim_start_ws(s))
}

proof fn lemma_trim_start_step(s: Seq<char>, i: int)
    requires
        0 <= i < s.len(),
        is_unicode_ws(s[i]),
    ensures
        trim_start_ws(s.subrange(i, s.len() as int)) == trim_start_ws(s.subrange(i + 1, s.len() as int)),
{
    let t = s.subrange(i, s.len() as int);
    assert(t.drop_first() =~= s.subrange(i + 1, s.len() as int));
}

proof fn lemma_trim_end_step(s: Seq<char>, j: int)
    requires
        0 < j <= s.len(),
        is_unicode_ws(s[j - 1]),
    ensures
        trim_end_ws(s.subrange(0, j)) == trim_end_ws(s.subrange(0, j - 1)),
{
    let t = s.subrange(0, j);
    assert(t.drop_last() =~= s.subrange(0, j - 1));
}

/// `s` without leading and trailing whitespace (std `str::trim`).
pub fn trim(s: &str) -> (r: String)
    ensures
        r@ == trim_ws(s@),
{
    let cs = chars_of(s);
    let n = cs.len();
    let mut a: usize = 0;
    proof {
        assert(cs@.subrange(0, n as int) =~= cs@);
    }
    while a < n && is_ws(cs[a])
        invariant
            a <= n,
            n == cs@.len(),
            trim_start_ws(cs@) == trim_start_ws(cs@.subrange(a as int, n as int)),
        decreases n - a,
    {
        proof {
            lemma_trim_start_step(cs@, a as int);
        }
        a = a + 1;
    }
    let ghost t = cs@.subrange(a as int, n as int);
    proof {
        if t.len() > 0 {
            assert(t[0] == cs@[a as int]);
        }
        assert(trim_start_ws(cs@) == t);
    }
    let mut b: usize = n;
    proof {
        assert(t.subrange(0, (b - a) as int) =~= t);
    }
    while b > a && is_ws(cs[b - 1])
        invariant
            a <= b <= n,
            n == cs@.len(),
            t == cs@.subrange(a as int, n as int),
            trim_end_ws(t) == trim_end_ws(t.subrange(0, (b - a) as int)),
        decreases b - a,
    {
        proof {
            assert(t[(b - a) - 1] == cs@[b - 1]);
            lemma_trim_end_step(t, (b - a) as int);
        }
        b = b - 1;
    }
    proof {
        let u = t.subrange(0, (b - a) as int);
        if u.len() > 0 {
            assert(u.last() == cs@[b - 1]);
        }
        assert(trim_end_ws(t) == u);
        assert(u =~= cs@.subrange(a as int, b as int));
    }
    let mid = slice_chars(&cs, a, b);
    string_from_chars(&mid)
}

/// The pieces of `s` between occurrences of `sep` (std `str::split` with a
/// character pattern): one more piece than there are separators.
pub open spec fn split_on(s: Seq<char>, sep: char) -> Seq<Seq<char>>
    decreases s.len(),
{
    if s.len() == 0 {
        seq![Seq::<char>::empty()]
    } else {
        let rest = split_on(s.drop_last(), sep);
        if s.last() == sep {
            rest.push(Seq::<char>::empty())
        } else {
            rest.update(rest.len() - 1, rest.last().push(s.last()))
        }
    }
}

proof fn lemma_split_on_len(s: Seq<char>, sep: char)
    ensures
        split_on(s, sep).len() > 0,
    decreases s.len(),
{
    if s.len() > 0 {
        lemma_split_on_len(s.drop_last(), sep);
    }
}

/// The pieces of `s` between occurrences of `sep`, in order.
pub fn split_char(s: &str, sep: char) -> (r: Vec<String>)
    ensures
        crate::types::strs_view(r@) == split_on(s@, sep),
{
    let cs = chars_of(s);
    let mut done: Vec<String> = Vec::new();
    let mut cur: Vec<char> = Vec::new();
    let mut i: usize = 0;
    proof {
        assert(cs@.subrange(0, 0) =~= Seq::<char>::empty());
        assert(crate::types::strs_view(done@).push(cur@) =~= split_on(Seq::<char>::empty(), sep));
    }
    while i < cs.len()
        invariant
            i <= cs@.len(),
            crate::types::strs_view(done@).push(cur@) == split_on(cs@.subrange(0, i as int), sep),
        decreases cs@.len() - i,
    {
        let ghost pre = cs@.subrange(0, i as int);
        let ghost pre1 = cs@.subrange(0, i + 1);
        proof {
            assert(pre1.drop_last() =~= pre);
            assert(pre1.last() == cs@[i as int]);
        }
        if cs[i] == sep {
            let piece = string_from_chars(&cur);
            let ghost d0 = crate::types::strs_view(done@);
            done.push(piece);
            cur = Vec::new();
            proof {
                assert(crate::types::strs_view(done@) =~= d0.push(piece@));
                assert(crate::types::strs_view(done@).push(cur@) =~= d0.push(piece@).push(Seq::<char>::empty()));
            }
        } else {
            let ghost c0 = cur@;
            cur.push(cs[i]);
            proof {
                let rest = crate::types::strs_view(done@).push(c0);
                assert(crate::types::strs_view(done@).push(cur@) =~= rest.update(rest.len() - 1, rest.last().push(cs@[i as int])));
            }
        }
        i = i + 1;
    }
    let last = string_from_chars(&cur);
    let ghost d0 = crate::types::strs_view(done@);
    done.push(last);
    proof {
        assert(crate::types::strs_view(done@) =~= d0.push(cur@));
        assert(cs@.subrange(0, cs@.len() as int) =~= cs@);
    }
    done
}

} // verus!
