//! Character-sequence helpers: whitespace trimming, prefix tests,
//! splitting and joining on a separator character, and decimal
//! parsing/printing of 64-bit integers.

use vstd::prelude::*;

verus! {

/// What `char::is_whitespace` returns on characters beyond ASCII: whether
/// the character has the Unicode `White_Space` property.
pub uninterp spec fn unicode_space(c: char) -> bool;

/// Whether a character counts as whitespace for trimming, as
/// `char::is_whitespace` decides it.  On the ASCII range the `White_Space`
/// property holds exactly for horizontal tab, line feed, vertical tab,
/// form feed, carriage return and space.
pub open spec fn is_space(c: char) -> bool {
    if (c as int) < 128 {
        c == '\t' || c == '\n' || c as int == 11 || c as int == 12 || c == '\r' || c == ' '
    } else {
        unicode_space(c)
    }
}

/// Relies on `char::is_whitespace`: true exactly for characters with the
/// Unicode `White_Space` property, which on the ASCII range are horizontal
/// tab, line feed, vertical tab, form feed, carriage return and space.
#[verifier::external_body]
pub fn char_is_space(c: char) -> (r: bool)
    ensures
        r == is_space(c),
        (c as int) >= 128 ==> r == unicode_space(c),
{
    c.is_whitespace()
}

/// Relies on `String::push`: appends one character at the end.
#[verifier::external_body]
pub fn push_char(s: &mut String, c: char)
    ensures
        final(s)@ == old(s)@.push(c),
{
    s.push(c)
}

/// The characters of `s`, as a vector.
pub fn str_to_chars(s: &str) -> (r: Vec<char>)
    ensures
        r@ == s@,
{
    let n = s.unicode_len();
    let mut r: Vec<char> = Vec::new();
    let mut i: usize = 0;
    while i < n
        invariant
            n == s@.len(),
            i <= n,
            r@ == s@.take(i as int),
        decreases n - i,
    {
        r.push(s.get_char(i));
        i = i + 1;
        proof {
            assert(s@.take(i as int) =~= s@.take(i as int - 1).push(s@[i as int - 1]));
        }
    }
    proof {
        assert(s@.take(n as int) =~= s@);
    }
    r
}

/// A string holding the characters of `v`.
pub fn chars_to_string(v: &[char]) -> (r: String)
    ensures
        r@ == v@,
{
    let mut r = String::new();
    let mut i: usize = 0;
    while i < v.len()
        invariant
            i <= v@.len(),
            r@ == v@.take(i as int),
        decreases v@.len() - i,
    {
        push_char(&mut r, v[i]);
        i = i + 1;
        proof {
            assert(v@.take(i as int) =~= v@.take(i as int - 1).push(v@[i as int - 1]));
        }
    }
    proof {
        assert(v@.take(v@.len() as int) =~= v@);
    }
    r
}

/// `s` without its leading whitespace.
pub open spec fn trim_start_spec(s: Seq<char>) -> Seq<char>
    decreases s.len(),
{
    if s.len() > 0 && is_space(s[0]) {
        trim_start_spec(s.drop_first())
    } else {
        s
    }
}

/// `s` without its trailing whitespace.
pub open spec fn trim_end_spec(s: Seq<char>) -> Seq<char>
    decreases s.len(),
{
    if s.len() > 0 && is_space(s[s.len() - 1]) {
        trim_end_spec(s.drop_last())
    } else {
        s
    }
}

/// `s` without leading or trailing whitespace, as `str::trim` returns it.
pub open spec fn trim_spec(s: Seq<char>) -> Seq<char> {
    trim_end_spec(trim_start_spec(s))
}

/// Trimming a sequence that neither starts nor ends with whitespace
/// leaves it unchanged.
pub proof fn lemma_trim_id(s: Seq<char>)
    requires
        s.len() == 0 || (!is_space(s[0]) && !is_space(s[s.len() - 1])),
    ensures
        trim_spec(s) == s,
{
    assert(trim_start_spec(s) == s);
    assert(trim_end_spec(s) == s);
}

/// The characters of `v` from position `a` up to (excluding) `b`.
pub fn chars_range(v: &[char], a: usize, b: usize) -> (r: Vec<char>)
    requires
        a <= b <= v@.len(),
    ensures
        r@ == v@.subrange(a as int, b as int),
{
    let mut r: Vec<char> = Vec::new();
    let mut i: usize = a;
    while i < b
        invariant
            a <= i <= b <= v@.len(),
            r@ == v@.subrange(a as int, i as int),
        decreases b - i,
    {
        r.push(v[i]);
        i = i + 1;
        proof {
            assert(v@.subrange(a as int, i as int) =~= v@.subrange(a as int, i as int - 1).push(
                v@[i as int - 1],
            ));
        }
    }
    r
}

/// Whether two character slices hold the same characters.
pub fn chars_eq(a: &[char], b: &[char]) -> (r: bool)
    ensures
        r == (a@ == b@),
{
    if a.len() != b.len() {
        proof {
            assert(a@ != b@);
        }
        return false;
    }
    let mut i: usize = 0;
    while i < a.len()
        invariant
            a@.len() == b@.len(),
            i <= a@.len(),
            forall|j: int| 0 <= j < i ==> a@[j] == b@[j],
        decreases a@.len() - i,
    {
        if a[i] != b[i] {
            proof {
                assert(a@ != b@);
            }
            return false;
        }
        i = i + 1;
    }
    proof {
        assert(a@ =~= b@);
    }
    true
}

/// Whether `p` is a prefix of `v`.
pub fn starts_with(v: &[char], p: &[char]) -> (r: bool)
    ensures
        r == p@.is_prefix_of(v@),
{
    if v.len() < p.len() {
        proof {
            assert(!p@.is_prefix_of(v@));
        }
        return false;
    }
    let mut i: usize = 0;
    while i < p.len()
        invariant
            p@.len() <= v@.len(),
            i <= p@.len(),
            forall|j: int| 0 <= j < i ==> v@[j] == p@[j],
        decreases p@.len() - i,
    {
        if v[i] != p[i] {
            proof {
                assert(!(p@ =~= v@.subrange(0, p@.len() as int)));
            }
            return false;
        }
        i = i + 1;
    }
    proof {
        assert(p@ =~= v@.subrange(0, p@.len() as int));
    }
    true
}

/// The characters of `v` with leading and trailing whitespace removed.
pub fn trim_chars(v: &[char]) -> (r: Vec<char>)
    ensures
        r@ == trim_spec(v@),
{
    let mut start: usize = 0;
    proof {
        assert(v@.skip(0) =~= v@);
    }
    while start < v.len() && char_is_space(v[start])
        invariant
            start <= v@.len(),
            trim_start_spec(v@) == trim_start_spec(v@.skip(start as int)),
        decreases v@.len() - start,
    {
        proof {
            assert(v@.skip(start as int).drop_first() =~= v@.skip(start as int + 1));
        }
        start = start + 1;
    }
    proof {
        assert(trim_start_spec(v@) == v@.skip(start as int));
    }
    let mut end: usize = v.len();
    while end > start && char_is_space(v[end - 1])
        invariant
            start <= end <= v@.len(),
            trim_end_spec(v@.skip(start as int)) == trim_end_spec(
                v@.subrange(start as int, end as int),
            ),
        decreases end,
    {
        proof {
            assert(v@.subrange(start as int, end as int).drop_last() =~= v@.subrange(
                start as int,
                end as int - 1,
            ));
            assert(v@.subrange(start as int, end as int).last() == v@[end as int - 1]);
        }
        end = end - 1;
    }
    proof {
        assert(trim_end_spec(v@.subrange(start as int, end as int)) == v@.subrange(
            start as int,
            end as int,
        ));
    }
    chars_range(v, start, end)
}

/// The segments of `s` between occurrences of the separator `sep`,
/// as `str::split` yields them: always at least one segment, and an
/// empty segment between, before or after adjacent separators.
pub open spec fn split_spec(s: Seq<char>, sep: char) -> Seq<Seq<char>>
    decreases s.len(),
{
    if s.len() == 0 {
        seq![Seq::<char>::empty()]
    } else if s[0] == sep {
        seq![Seq::<char>::empty()] + split_spec(s.drop_first(), sep)
    } else {
        let rest = split_spec(s.drop_first(), sep);
        seq![seq![s[0]] + rest[0]] + rest.drop_first()
    }
}

/// Splitting always yields at least one segment.
pub proof fn lemma_split_len(s: Seq<char>, sep: char)
    ensures
        split_spec(s, sep).len() >= 1,
    decreases s.len(),
{
    if s.len() == 0 {
    } else {
        lemma_split_len(s.drop_first(), sep);
    }
}

/// `parts` with `p` prepended to its first segment.
spec fn prepend_first(p: Seq<char>, parts: Seq<Seq<char>>) -> Seq<Seq<char>> {
    seq![p + parts[0]] + parts.drop_first()
}

/// The segments of `v` between occurrences of `sep`.
pub fn split_chars(v: &[char], sep: char) -> (r: Vec<Vec<char>>)
    ensures
        r.deep_view() == split_spec(v@, sep),
{
    let mut acc: Vec<Vec<char>> = Vec::new();
    let mut cur: Vec<char> = Vec::new();
    let mut i: usize = 0;
    proof {
        lemma_split_len(v@, sep);
        assert(v@.skip(0) =~= v@);
        assert(acc.deep_view() + prepend_first(cur@, split_spec(v@.skip(0), sep)) =~~= split_spec(
            v@,
            sep,
        ));
    }
    while i < v.len()
        invariant
            i <= v@.len(),
            split_spec(v@, sep) == acc.deep_view() + prepend_first(
                cur@,
                split_spec(v@.skip(i as int), sep),
            ),
        decreases v@.len() - i,
    {
        let ghost rem = v@.skip(i as int);
        let ghost rem2 = v@.skip(i as int + 1);
        proof {
            assert(rem.len() > 0 && rem[0] == v@[i as int]);
            assert(rem.drop_first() =~= rem2);
            lemma_split_len(rem2, sep);
        }
        let c = v[i];
        if c == sep {
            let ghost acc_dv = acc.deep_view();
            let ghost cur_v = cur@;
            let full_cur = cur;
            cur = Vec::new();
            acc.push(full_cur);
            proof {
                assert(acc.deep_view() =~~= acc_dv.push(cur_v));
                assert(split_spec(rem, sep) == seq![Seq::<char>::empty()] + split_spec(rem2, sep));
                assert(acc_dv + prepend_first(cur_v, split_spec(rem, sep)) =~~= acc_dv.push(cur_v)
                    + prepend_first(cur@, split_spec(rem2, sep)));
            }
        } else {
            let ghost old_cur = cur@;
            cur.push(c);
            proof {
                let r2 = split_spec(rem2, sep);
                assert(split_spec(rem, sep) == seq![seq![c] + r2[0]] + r2.drop_first());
                assert(prepend_first(old_cur, split_spec(rem, sep)) =~~= prepend_first(cur@, r2));
            }
        }
        i = i + 1;
    }
    let ghost acc_dv = acc.deep_view();
    let ghost cur_v = cur@;
    proof {
        assert(v@.skip(i as int) =~= Seq::<char>::empty());
        assert(acc_dv + prepend_first(cur_v, split_spec(Seq::<char>::empty(), sep)) =~~= acc_dv
            + seq![cur_v]);
    }
    acc.push(cur);
    proof {
        assert(acc.deep_view() =~~= acc_dv + seq![cur_v]);
    }
    acc
}

/// A sequence without the separator splits into itself alone.
pub proof fn lemma_split_no_sep(s: Seq<char>, sep: char)
    requires
        !s.contains(sep),
    ensures
        split_spec(s, sep) == seq![s],
    decreases s.len(),
{
    if s.len() == 0 {
        assert(split_spec(s, sep) =~~= seq![s]);
    } else {
        assert(s[0] != sep);
        assert(forall|i: int| 0 <= i < s.drop_first().len() ==> s.drop_first()[i] == s[i + 1]);
        assert(!s.drop_first().contains(sep));
        lemma_split_no_sep(s.drop_first(), sep);
        assert(seq![s[0]] + s.drop_first() =~= s);
        assert(split_spec(s, sep) =~~= seq![s]);
    }
}

/// Splitting after a separator-free first segment yields that segment,
/// then the split of the rest.
pub proof fn lemma_split_concat(p: Seq<char>, rest: Seq<char>, sep: char)
    requires
        !p.contains(sep),
    ensures
        split_spec(p + seq![sep] + rest, sep) == seq![p] + split_spec(rest, sep),
    decreases p.len(),
{
    let s = p + seq![sep] + rest;
    if p.len() == 0 {
        assert(s =~= seq![sep] + rest);
        assert(s[0] == sep);
        assert(s.drop_first() =~= rest);
        assert(split_spec(s, sep) =~~= seq![p] + split_spec(rest, sep));
    } else {
        assert(p[0] != sep);
        assert(forall|i: int| 0 <= i < p.drop_first().len() ==> p.drop_first()[i] == p[i + 1]);
        assert(!p.drop_first().contains(sep));
        lemma_split_concat(p.drop_first(), rest, sep);
        assert(s[0] == p[0]);
        assert(s.drop_first() =~= p.drop_first() + seq![sep] + rest);
        lemma_split_len(rest, sep);
        let r = split_spec(s.drop_first(), sep);
        assert(r == seq![p.drop_first()] + split_spec(rest, sep));
        assert(r[0] == p.drop_first());
        assert(seq![p[0]] + r[0] =~= p);
        assert(r.drop_first() =~= split_spec(rest, sep));
        assert(split_spec(s, sep) =~~= seq![p] + split_spec(rest, sep));
    }
}

/// A separator splits the text around it: the segments of the whole
/// are the segments of each side, in order.
pub proof fn lemma_split_sep_concat(a: Seq<char>, b: Seq<char>, sep: char)
    ensures
        split_spec(a + seq![sep] + b, sep) == split_spec(a, sep) + split_spec(b, sep),
    decreases a.len(),
{
    let s = a + seq![sep] + b;
    lemma_split_len(b, sep);
    if a.len() == 0 {
        assert(s =~= seq![sep] + b);
        assert(s[0] == sep);
        assert(s.drop_first() =~= b);
        assert(split_spec(s, sep) =~~= split_spec(a, sep) + split_spec(b, sep));
    } else if a[0] == sep {
        lemma_split_sep_concat(a.drop_first(), b, sep);
        assert(s[0] == sep);
        assert(s.drop_first() =~= a.drop_first() + seq![sep] + b);
        assert(split_spec(s, sep) =~~= split_spec(a, sep) + split_spec(b, sep));
    } else {
        lemma_split_sep_concat(a.drop_first(), b, sep);
        lemma_split_len(a.drop_first(), sep);
        assert(s[0] == a[0]);
        assert(s.drop_first() =~= a.drop_first() + seq![sep] + b);
        let r = split_spec(s.drop_first(), sep);
        let q = split_spec(a.drop_first(), sep);
        assert(r == q + split_spec(b, sep));
        assert(r[0] == q[0]);
        assert(r.drop_first() =~~= q.drop_first() + split_spec(b, sep));
        assert(split_spec(s, sep) =~~= split_spec(a, sep) + split_spec(b, sep));
    }
}

/// The segments of `parts` joined with the separator `sep` between
/// neighbouring segments.
pub open spec fn join_spec(parts: Seq<Seq<char>>, sep: char) -> Seq<char>
    decreases parts.len(),
{
    if parts.len() == 0 {
        Seq::empty()
    } else if parts.len() == 1 {
        parts[0]
    } else {
        parts[0] + seq![sep] + join_spec(parts.drop_first(), sep)
    }
}

/// Joining one more segment appends one separator and that segment.
pub proof fn lemma_join_snoc(parts: Seq<Seq<char>>, x: Seq<char>, sep: char)
    requires
        parts.len() >= 1,
    ensures
        join_spec(parts.push(x), sep) == join_spec(parts, sep) + seq![sep] + x,
    decreases parts.len(),
{
    if parts.len() == 1 {
        assert(parts.push(x).drop_first() =~~= seq![x]);
        assert(parts.push(x)[0] == parts[0]);
        assert(join_spec(seq![x], sep) == x);
        assert(join_spec(parts.push(x), sep) =~= parts[0] + seq![sep] + x);
    } else {
        lemma_join_snoc(parts.drop_first(), x, sep);
        assert(parts.push(x).drop_first() =~~= parts.drop_first().push(x));
        assert(parts.push(x)[0] == parts[0]);
        assert(join_spec(parts.push(x), sep) =~= join_spec(parts, sep) + seq![sep] + x);
    }
}

/// Joining separator-free segments and splitting again returns the
/// same segments.
pub proof fn lemma_split_join(parts: Seq<Seq<char>>, sep: char)
    requires
        parts.len() >= 1,
        forall|i: int| 0 <= i < parts.len() ==> !parts[i].contains(sep),
    ensures
        split_spec(join_spec(parts, sep), sep) == parts,
    decreases parts.len(),
{
    if parts.len() == 1 {
        lemma_split_no_sep(parts[0], sep);
        assert(split_spec(join_spec(parts, sep), sep) =~~= parts);
    } else {
        let rest = parts.drop_first();
        assert(forall|i: int| 0 <= i < rest.len() ==> rest[i] == parts[i + 1]);
        lemma_split_join(rest, sep);
        lemma_split_concat(parts[0], join_spec(rest, sep), sep);
        assert(split_spec(join_spec(parts, sep), sep) =~~= parts);
    }
}

/// Splitting and joining again returns the original sequence.
pub proof fn lemma_join_split(x: Seq<char>, sep: char)
    ensures
        join_spec(split_spec(x, sep), sep) == x,
    decreases x.len(),
{
    if x.len() == 0 {
        assert(join_spec(split_spec(x, sep), sep) =~= x);
    } else if x[0] == sep {
        lemma_join_split(x.drop_first(), sep);
        lemma_split_len(x.drop_first(), sep);
        let parts = split_spec(x, sep);
        assert(parts == seq![Seq::<char>::empty()] + split_spec(x.drop_first(), sep));
        assert(parts.len() >= 2);
        assert(parts[0] == Seq::<char>::empty());
        assert(parts.drop_first() =~~= split_spec(x.drop_first(), sep));
        assert(join_spec(parts, sep) =~= x);
    } else {
        lemma_join_split(x.drop_first(), sep);
        let r = split_spec(x.drop_first(), sep);
        lemma_split_len(x.drop_first(), sep);
        let parts = split_spec(x, sep);
        assert(parts == seq![seq![x[0]] + r[0]] + r.drop_first());
        if r.len() == 1 {
            assert(parts.len() == 1);
            assert(join_spec(r, sep) == r[0]);
            assert(join_spec(parts, sep) =~= x);
        } else {
            assert(parts.len() >= 2);
            assert(parts[0] == seq![x[0]] + r[0]);
            assert(parts.drop_first() =~~= r.drop_first());
            assert(join_spec(r, sep) == r[0] + seq![sep] + join_spec(r.drop_first(), sep));
            assert(x.drop_first() == r[0] + seq![sep] + join_spec(r.drop_first(), sep));
            assert(x =~= seq![x[0]] + x.drop_first());
            assert(join_spec(parts, sep) == (seq![x[0]] + r[0]) + seq![sep] + join_spec(
                r.drop_first(),
                sep,
            ));
            assert(join_spec(parts, sep) =~= x);
        }
    }
}

/// The strings of `parts` joined with `sep` between neighbours.
pub fn join_strings(parts: &Vec<String>, sep: char) -> (r: String)
    ensures
        r@ == join_spec(parts.deep_view(), sep),
{
    let mut r = String::new();
    let mut i: usize = 0;
    while i < parts.len()
        invariant
            i <= parts@.len(),
            r@ == join_spec(parts.deep_view().take(i as int), sep),
        decreases parts@.len() - i,
    {
        let ghost before = parts.deep_view().take(i as int);
        if i > 0 {
            push_char(&mut r, sep);
        }
        r.append(parts[i].as_str());
        proof {
            let now = parts.deep_view().take(i as int + 1);
            assert(now =~= before.push(parts.deep_view()[i as int]));
            if i == 0 {
                assert(join_spec(now, sep) == now[0]);
                assert(r@ =~= now[0]);
            } else {
                lemma_join_snoc(before, parts.deep_view()[i as int], sep);
            }
        }
        i = i + 1;
    }
    proof {
        assert(parts.deep_view().take(parts@.len() as int) =~= parts.deep_view());
    }
    r
}

/// Appends the characters of `src` at the end of `dst`.
pub fn append_chars(dst: &mut Vec<char>, src: &[char])
    ensures
        final(dst)@ == old(dst)@ + src@,
{
    let ghost base = dst@;
    let mut k: usize = 0;
    proof {
        assert(dst@ =~= base + src@.take(0));
    }
    while k < src.len()
        invariant
            k <= src@.len(),
            dst@ == base + src@.take(k as int),
        decreases src@.len() - k,
    {
        dst.push(src[k]);
        k = k + 1;
        proof {
            assert(base + src@.take(k as int) =~= (base + src@.take(k as int - 1)).push(
                src@[k as int - 1],
            ));
        }
    }
    proof {
        assert(base + src@.take(src@.len() as int) =~= base + src@);
    }
}

/// A join of segments that avoid a character, with a separator other
/// than that character, avoids it too.
pub proof fn lemma_join_no_char(parts: Seq<Seq<char>>, sep: char, c: char)
    requires
        sep != c,
        forall|i: int| 0 <= i < parts.len() ==> !(#[trigger] parts[i]).contains(c),
    ensures
        !join_spec(parts, sep).contains(c),
    decreases parts.len(),
{
    if parts.len() == 0 {
    } else if parts.len() == 1 {
        assert(!parts[0].contains(c));
        assert(join_spec(parts, sep) == parts[0]);
    } else {
        let rest = parts.drop_first();
        assert(forall|i: int| 0 <= i < rest.len() ==> rest[i] == parts[i + 1]);
        lemma_join_no_char(rest, sep, c);
        let jn = join_spec(parts, sep);
        assert(jn == parts[0] + seq![sep] + join_spec(rest, sep));
        assert(forall|i: int| 0 <= i < jn.len() ==> jn[i] != c) by {
            assert(forall|i: int| 0 <= i < parts[0].len() ==> jn[i] == parts[0][i]);
            assert(jn[parts[0].len() as int] == sep);
            assert(forall|i: int|
                parts[0].len() + 1 <= i < jn.len() ==> jn[i] == join_spec(rest, sep)[i
                    - parts[0].len() - 1]);
        }
    }
}

/// A character is a decimal digit.
pub open spec fn is_digit(c: char) -> bool {
    '0' <= c && c <= '9'
}

/// Every character of `s` is a decimal digit.
pub open spec fn all_digits(s: Seq<char>) -> bool {
    forall|i: int| 0 <= i < s.len() ==> is_digit(s[i])
}

/// The value of `s` read as a decimal numeral, most significant digit
/// first.
pub open spec fn digits_val(s: Seq<char>) -> int
    decreases s.len(),
{
    if s.len() == 0 {
        0
    } else {
        digits_val(s.drop_last()) * 10 + (s.last() as int - '0' as int)
    }
}

/// What `str::parse::<u64>` returns on `s`: the decimal value of the
/// digits, after an optional leading plus sign; `None` on an empty
/// numeral, a non-digit character, or a value above `u64::MAX`.
pub open spec fn parse_u64_spec(s: Seq<char>) -> Option<u64> {
    let ds = if s.len() >= 1 && s[0] == '+' {
        s.drop_first()
    } else {
        s
    };
    if ds.len() >= 1 && all_digits(ds) && digits_val(ds) <= u64::MAX {
        Some(digits_val(ds) as u64)
    } else {
        None
    }
}

/// A decimal numeral's value is never negative.
pub proof fn lemma_digits_val_nonneg(s: Seq<char>)
    requires
        all_digits(s),
    ensures
        digits_val(s) >= 0,
    decreases s.len(),
{
    if s.len() > 0 {
        assert(forall|i: int| 0 <= i < s.drop_last().len() ==> s.drop_last()[i] == s[i]);
        lemma_digits_val_nonneg(s.drop_last());
    }
}

/// A prefix of a decimal numeral has a value no greater than the whole.
pub proof fn lemma_digits_val_take_le(s: Seq<char>, i: int)
    requires
        all_digits(s),
        0 <= i <= s.len(),
    ensures
        digits_val(s.take(i)) <= digits_val(s),
    decreases s.len() - i,
{
    if i == s.len() {
        assert(s.take(i) =~= s);
    } else {
        lemma_digits_val_take_le(s, i + 1);
        assert(s.take(i + 1).drop_last() =~= s.take(i));
        assert(forall|j: int| 0 <= j < i ==> s.take(i)[j] == s[j]);
        lemma_digits_val_nonneg(s.take(i));
        assert(digits_val(s.take(i + 1)) == digits_val(s.take(i)) * 10 + (s[i] as int
            - '0' as int));
        assert(digits_val(s.take(i)) * 10 >= digits_val(s.take(i)));
    }
}

/// The value of `v` read as `str::parse::<u64>` reads it.
pub fn parse_u64_chars(v: &[char]) -> (r: Option<u64>)
    ensures
        r == parse_u64_spec(v@),
{
    let start: usize = if v.len() >= 1 && v[0] == '+' {
        1
    } else {
        0
    };
    let ghost ds = if v@.len() >= 1 && v@[0] == '+' {
        v@.drop_first()
    } else {
        v@
    };
    proof {
        assert(ds =~= v@.skip(start as int));
    }
    if v.len() == start {
        return None;
    }
    let mut val: u64 = 0;
    let mut i: usize = start;
    while i < v.len()
        invariant
            start <= i <= v@.len(),
            v@.len() > start,
            ds == v@.skip(start as int),
            ds == (if v@.len() >= 1 && v@[0] == '+' {
                v@.drop_first()
            } else {
                v@
            }),
            all_digits(ds.take(i - start)),
            val == digits_val(ds.take(i - start)),
        decreases v@.len() - i,
    {
        let c = v[i];
        let ghost k = i - start;
        proof {
            assert(ds[k as int] == c);
        }
        if !('0' <= c && c <= '9') {
            proof {
                assert(!is_digit(ds[k as int]));
                assert(!all_digits(ds));
                assert(parse_u64_spec(v@) is None);
            }
            return None;
        }
        let dig: u64 = (c as u32 - '0' as u32) as u64;
        let tmp: u128 = (val as u128) * 10 + (dig as u128);
        proof {
            assert(ds.take(k + 1).drop_last() =~= ds.take(k as int));
            assert(ds.take(k + 1).last() == c);
            assert(forall|j: int| 0 <= j < k + 1 ==> ds.take(k + 1)[j] == ds[j]);
            assert(digits_val(ds.take(k + 1)) == tmp);
        }
        if tmp > u64::MAX as u128 {
            proof {
                if all_digits(ds) {
                    lemma_digits_val_take_le(ds, k + 1);
                    assert(digits_val(ds) > u64::MAX);
                }
            }
            return None;
        }
        val = tmp as u64;
        i = i + 1;
    }
    proof {
        assert(ds.take(ds.len() as int) =~= ds);
    }
    Some(val)
}

/// The character that prints the decimal digit `d`.
pub open spec fn digit_char(d: int) -> char {
    ((d + 48) as u8) as char
}

/// The decimal numeral of `n`, most significant digit first, without
/// a sign and without leading zeros.
pub open spec fn dec_spec(n: int) -> Seq<char>
    decreases n,
{
    if n < 10 {
        seq![digit_char(n)]
    } else {
        dec_spec(n / 10).push(digit_char(n % 10))
    }
}

/// A decimal numeral holds only digits, is never empty, and reads back
/// to the number it prints.
pub proof fn lemma_dec_digits(n: int)
    requires
        n >= 0,
    ensures
        all_digits(dec_spec(n)),
        dec_spec(n).len() >= 1,
        dec_spec(n)[0] != '+',
        digits_val(dec_spec(n)) == n,
    decreases n,
{
    if n < 10 {
        let s = dec_spec(n);
        assert(digit_char(n) as int == n + 48);
        assert(is_digit(digit_char(n)));
        assert(s.len() == 1);
        assert(s.last() == digit_char(n));
        assert(s.drop_last() =~= Seq::<char>::empty());
        assert(digits_val(s.drop_last()) == 0);
        assert('0' as int == 48);
        assert(digits_val(s) == digits_val(s.drop_last()) * 10 + (s.last() as int - '0' as int));
        assert(digits_val(dec_spec(n)) == n);
    } else {
        lemma_dec_digits(n / 10);
        let s = dec_spec(n);
        assert(s == dec_spec(n / 10).push(digit_char(n % 10)));
        assert(digit_char(n % 10) as int == n % 10 + 48);
        assert(forall|i: int|
            0 <= i < s.len() ==> s[i] == (if i < s.len() - 1 {
                dec_spec(n / 10)[i]
            } else {
                digit_char(n % 10)
            }));
        assert(all_digits(s));
        assert(s.drop_last() =~= dec_spec(n / 10));
        vstd::arithmetic::div_mod::lemma_fundamental_div_mod(n, 10);
        assert(digits_val(s) == (n / 10) * 10 + (n % 10));
    }
}

/// Printing a 64-bit value and parsing it back returns the same value.
pub proof fn lemma_parse_dec(n: u64)
    ensures
        parse_u64_spec(dec_spec(n as int)) == Some(n),
{
    lemma_dec_digits(n as int);
}

/// The reversal of `v`.
pub fn reverse_chars(v: &[char]) -> (r: Vec<char>)
    ensures
        r@ == v@.reverse(),
{
    let mut r: Vec<char> = Vec::new();
    let mut i: usize = 0;
    while i < v.len()
        invariant
            i <= v@.len(),
            r@.len() == i,
            forall|j: int| 0 <= j < i ==> r@[j] == v@[v@.len() - 1 - j],
        decreases v@.len() - i,
    {
        r.push(v[v.len() - 1 - i]);
        i = i + 1;
    }
    proof {
        assert(r@ =~= v@.reverse());
    }
    r
}

/// The decimal numeral of `n`, as characters.
pub fn u64_to_dec(n: u64) -> (r: Vec<char>)
    ensures
        r@ == dec_spec(n as int),
{
    let mut rev: Vec<char> = Vec::new();
    let mut m: u64 = n;
    if m == 0 {
        let mut r: Vec<char> = Vec::new();
        r.push('0');
        proof {
            assert(digit_char(0) as int == 48);
            assert(digit_char(0) == '0');
            assert(r@ =~= dec_spec(0));
        }
        return r;
    }
    while m > 0
        invariant
            dec_spec(n as int) == (if m > 0 {
                dec_spec(m as int) + rev@.reverse()
            } else {
                rev@.reverse()
            }),
        decreases m,
    {
        let ghost m0 = m as int;
        let ghost rev0 = rev@;
        let dig: u64 = m % 10;
        let c: char = (48u8 + dig as u8) as char;
        proof {
            assert(c == digit_char(m0 % 10));
        }
        rev.push(c);
        m = m / 10;
        proof {
            assert(rev@.reverse() =~= seq![c] + rev0.reverse());
            if m0 < 10 {
                assert(m0 % 10 == m0);
                assert(dec_spec(m0) =~= seq![c]);
                assert(dec_spec(m0) + rev0.reverse() =~= rev@.reverse());
            } else {
                assert(dec_spec(m0) == dec_spec(m0 / 10).push(digit_char(m0 % 10)));
                assert(dec_spec(m0 / 10) + rev@.reverse() =~= dec_spec(m0) + rev0.reverse());
            }
        }
    }
    reverse_chars(rev.as_slice())
}

} // verus!
