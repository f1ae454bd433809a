//! Character and string helpers shared by the parser, the key builder and
//! the renderer: case-insensitive comparison against the empty-value
//! vocabulary, lexicographic ordering of keys, joining composite keys,
//! trimming, digit parsing and rendering of counts.

use vstd::multiset::Multiset;
use vstd::prelude::*;
use vstd::string::StrSliceExecFns;
use vstd::string::StringExecFns;

verus! {

broadcast use vstd::seq_lib::group_to_multiset_ensures, vstd::multiset::group_multiset_axioms;

/// Case-insensitive (ASCII) character match against a lowercase pattern
/// character: `a` matches `b` if they are equal or `a` is the uppercase
/// ASCII form of `b`.
pub open spec fn char_eq_ci(a: char, b: char) -> bool {
    a == b || (65 <= (a as u32) && (a as u32) <= 90 && (a as u32) + 32 == (b as u32))
}

/// Whole-sequence case-insensitive match against a lowercase pattern.
pub open spec fn seq_eq_ci(a: Seq<char>, b: Seq<char>) -> bool {
    a.len() == b.len() && (forall|i: int| 0 <= i < a.len() ==> char_eq_ci(a[i], b[i]))
}

/// The empty-value vocabulary: a raw field that matches one of these
/// (ASCII-case-insensitively) stands for a missing value.
pub open spec fn is_empty_value(s: Seq<char>) -> bool {
    ||| s.len() == 0
    ||| seq_eq_ci(s, "na"@)
    ||| seq_eq_ci(s, "n/a"@)
    ||| seq_eq_ci(s, "none"@)
    ||| seq_eq_ci(s, "null"@)
    ||| seq_eq_ci(s, "nan"@)
}

fn eq_ci_str(s: &str, pat: &str) -> (r: bool)
    ensures
        r == seq_eq_ci(s@, pat@),
{
    let slen = s.unicode_len();
    let plen = pat.unicode_len();
    if slen != plen {
        return false;
    }
    let mut i: usize = 0;
    while i < slen
        invariant
            slen == s@.len(),
            plen == pat@.len(),
            slen == plen,
            0 <= i <= slen,
            forall|j: int| 0 <= j < i ==> char_eq_ci(s@[j], pat@[j]),
        decreases slen - i,
    {
        let a = s.get_char(i);
        let b = pat.get_char(i);
        let ok = a == b || (65 <= (a as u32) && (a as u32) <= 90 && (a as u32) + 32 == (b as u32));
        if !ok {
            assert(!char_eq_ci(s@[i as int], pat@[i as int]));
            return false;
        }
        i += 1;
    }
    true
}

/// Whether a raw field stands in the empty-value vocabulary
/// (`""`, `"na"`, `"n/a"`, `"none"`, `"null"`, `"nan"`, ASCII-case-insensitive).
pub fn is_empty_val(s: &str) -> (r: bool)
    ensures
        r == is_empty_value(s@),
{
    s.unicode_len() == 0 || eq_ci_str(s, "na") || eq_ci_str(s, "n/a") || eq_ci_str(s, "none")
        || eq_ci_str(s, "null") || eq_ci_str(s, "nan")
}

/// Plain string equality over character views.
pub fn str_eq_str(a: &str, b: &str) -> (r: bool)
    ensures
        r == (a@ == b@),
{
    let alen = a.unicode_len();
    let blen = b.unicode_len();
    if alen != blen {
        return false;
    }
    let mut i: usize = 0;
    while i < alen
        invariant
            alen == a@.len(),
            blen == b@.len(),
            alen == blen,
            0 <= i <= alen,
            forall|j: int| 0 <= j < i ==> a@[j] == b@[j],
        decreases alen - i,
    {
        if a.get_char(i) != b.get_char(i) {
            return false;
        }
        i += 1;
    }
    proof {
        assert(a@ =~= b@);
    }
    true
}

/// Whether `s` ends with the suffix `suf`, over character views.
pub fn str_ends_with(s: &str, suf: &str) -> (r: bool)
    ensures
        r == (s@.len() >= suf@.len() && s@.subrange(
            s@.len() - suf@.len(),
            s@.len() as int,
        ) == suf@),
{
    let slen = s.unicode_len();
    let flen = suf.unicode_len();
    if slen < flen {
        return false;
    }
    let mut i: usize = 0;
    while i < flen
        invariant
            slen == s@.len(),
            flen == suf@.len(),
            flen <= slen,
            0 <= i <= flen,
            forall|j: int| 0 <= j < i ==> s@[s@.len() - suf@.len() + j] == suf@[j],
        decreases flen - i,
    {
        if s.get_char(slen - flen + i) != suf.get_char(i) {
            assert(s@.subrange(s@.len() - suf@.len(), s@.len() as int)[i as int] != suf@[i as int]);
            return false;
        }
        i += 1;
    }
    proof {
        assert(s@.subrange(s@.len() - suf@.len(), s@.len() as int) =~= suf@);
    }
    true
}

/// The characters Rust's `char::is_whitespace` accepts (the Unicode
/// `White_Space` property).
pub open spec fn is_space_char(c: char) -> bool {
    let u = c as u32;
    ||| u == 0x9
    ||| u == 0xA
    ||| u == 0xB
    ||| u == 0xC
    ||| u == 0xD
    ||| u == 0x20
    ||| u == 0x85
    ||| u == 0xA0
    ||| u == 0x1680
    ||| (0x2000 <= u && u <= 0x200A)
    ||| u == 0x2028
    ||| u == 0x2029
    ||| u == 0x202F
    ||| u == 0x205F
    ||| u == 0x3000
}

fn is_space(c: char) -> (r: bool)
    ensures
        r == is_space_char(c),
{
    let u = c as u32;
    u == 0x9 || u == 0xA || u == 0xB || u == 0xC || u == 0xD || u == 0x20 || u == 0x85 || u == 0xA0
        || u == 0x1680 || (0x2000 <= u && u <= 0x200A) || u == 0x2028 || u == 0x2029 || u == 0x202F
        || u == 0x205F || u == 0x3000
}

/// The sequence with leading whitespace removed.
pub open spec fn trim_front(s: Seq<char>) -> Seq<char>
    decreases s.len(),
{
    if s.len() == 0 {
        s
    } else if is_space_char(s[0]) {
        trim_front(s.drop_first())
    } else {
        s
    }
}

/// The sequence with trailing whitespace removed.
pub open spec fn trim_back(s: Seq<char>) -> Seq<char>
    decreases s.len(),
{
    if s.len() == 0 {
        s
    } else if is_space_char(s.last()) {
        trim_back(s.drop_last())
    } else {
        s
    }
}

/// What Rust's `str::trim` leaves: the sequence with whitespace stripped
/// from both ends.
pub open spec fn trim_spec(s: Seq<char>) -> Seq<char> {
    trim_back(trim_front(s))
}

proof fn lemma_trim_front_skip(s: Seq<char>, i: int)
    requires
        0 <= i <= s.len(),
        forall|j: int| 0 <= j < i ==> is_space_char(s[j]),
    ensures
        trim_front(s) == trim_front(s.skip(i)),
    decreases i,
{
    if i > 0 {
        assert(is_space_char(s[0]));
        assert(trim_front(s) == trim_front(s.drop_first()));
        let t = s.drop_first();
        assert(t =~= s.skip(1));
        assert(forall|j: int| 0 <= j < i - 1 ==> is_space_char(#[trigger] t[j]));
        lemma_trim_front_skip(t, i - 1);
        assert(t.skip(i - 1) =~= s.skip(i));
    } else {
        assert(s.skip(0) =~= s);
    }
}

proof fn lemma_trim_back_take(s: Seq<char>, i: int)
    requires
        0 <= i <= s.len(),
        forall|j: int| i <= j < s.len() ==> is_space_char(s[j]),
    ensures
        trim_back(s) == trim_back(s.take(i)),
    decreases s.len() - i,
{
    if i < s.len() {
        assert(is_space_char(s.last()));
        assert(trim_back(s) == trim_back(s.drop_last()));
        assert(s.drop_last() =~= s.take(s.len() - 1));
        let t = s.take(s.len() - 1);
        assert(forall|j: int| i <= j < t.len() ==> t[j] == s[j] && is_space_char(t[j]));
        lemma_trim_back_take(t, i);
        assert(t.take(i) =~= s.take(i));
    } else {
        assert(s.take(i) =~= s);
    }
}

/// Strips whitespace from both ends, as `str::trim` does.
pub fn trim_str(s: &str) -> (r: &str)
    ensures
        r@ == trim_spec(s@),
{
    let len = s.unicode_len();
    let mut lo: usize = 0;
    while lo < len && is_space(s.get_char(lo))
        invariant
            len == s@.len(),
            0 <= lo <= len,
            forall|j: int| 0 <= j < lo ==> is_space_char(s@[j]),
        decreases len - lo,
    {
        lo += 1;
    }
    let mut hi: usize = len;
    while hi > lo && is_space(s.get_char(hi - 1))
        invariant
            len == s@.len(),
            0 <= lo <= hi <= len,
            forall|j: int| 0 <= j < lo ==> is_space_char(s@[j]),
            forall|j: int| hi <= j < len ==> is_space_char(s@[j]),
        decreases hi,
    {
        hi -= 1;
    }
    let r = s.substring_char(lo, hi);
    proof {
        lemma_trim_front_skip(s@, lo as int);
        let t = s@.skip(lo as int);
        if hi == lo {
            // everything from lo on is whitespace, so the front-trimmed rest
            // trims back to empty
            assert(forall|j: int| 0 <= j < t.len() ==> is_space_char(t[j]));
            lemma_trim_back_take(t, 0);
            assert(t.take(0) =~= Seq::<char>::empty());
            assert(trim_front(Seq::<char>::empty()) == Seq::<char>::empty());
            assert(trim_back(Seq::<char>::empty()) == Seq::<char>::empty());
            assert(r@ =~= Seq::<char>::empty());
        } else {
            // s@[lo] is not whitespace, so trim_front(s@) == t
            assert(!is_space_char(t[0]));
            assert(trim_front(t) == t);
            assert(forall|j: int| (hi - lo) <= j < t.len() ==> is_space_char(t[j]));
            lemma_trim_back_take(t, hi - lo);
            assert(r@ =~= t.take(hi - lo));
        }
    }
    r
}

/// ASCII decimal digit.
pub open spec fn is_digit_char(c: char) -> bool {
    48 <= (c as u32) && (c as u32) <= 57
}

/// The numeric value of a digit character.
pub open spec fn digit_val(c: char) -> nat {
    ((c as u32) - 48) as nat
}

/// The number a sequence of digit characters denotes, most significant first.
pub open spec fn digits_val(s: Seq<char>) -> nat
    decreases s.len(),
{
    if s.len() == 0 {
        0
    } else {
        digits_val(s.drop_last()) * 10 + digit_val(s.last())
    }
}

/// Parses a non-empty all-digit string into a `usize`; `None` if the string
/// is empty, holds a non-digit, or denotes a number above `usize::MAX`.
pub fn parse_usize_digits(s: &str) -> (r: Option<usize>)
    ensures
        match r {
            Some(n) => s@.len() > 0 && (forall|i: int| 0 <= i < s@.len() ==> is_digit_char(s@[i]))
                && n == digits_val(s@),
            None => s@.len() == 0 || (exists|i: int| 0 <= i < s@.len() && !is_digit_char(s@[i]))
                || digits_val(s@) > usize::MAX,
        },
{
    let len = s.unicode_len();
    if len == 0 {
        return None;
    }
    let mut acc: usize = 0;
    let mut i: usize = 0;
    while i < len
        invariant
            len == s@.len(),
            0 <= i <= len,
            forall|j: int| 0 <= j < i ==> is_digit_char(s@[j]),
            acc == digits_val(s@.take(i as int)),
        decreases len - i,
    {
        let c = s.get_char(i);
        let u = c as u32;
        if !(48 <= u && u <= 57) {
            assert(!is_digit_char(s@[i as int]));
            return None;
        }
        let d = (u - 48) as usize;
        proof {
            assert(s@.take(i + 1).drop_last() =~= s@.take(i as int));
            assert(s@.take(i + 1).last() == s@[i as int]);
        }
        let next = match acc.checked_mul(10) {
            Some(m) => m.checked_add(d),
            None => None,
        };
        match next {
            Some(v) => {
                acc = v;
            },
            None => {
                proof {
                    lemma_digits_val_monotone(s@, i + 1);
                }
                return None;
            },
        }
        i += 1;
    }
    proof {
        assert(s@.take(len as int) =~= s@);
    }
    Some(acc)
}

/// A digit prefix never denotes more than the whole digit string.
proof fn lemma_digits_val_monotone(s: Seq<char>, i: int)
    requires
        0 <= i <= s.len(),
    ensures
        digits_val(s.take(i)) <= digits_val(s),
    decreases s.len() - i,
{
    if i < s.len() {
        lemma_digits_val_monotone(s, i + 1);
        assert(s.take(i + 1).drop_last() =~= s.take(i));
        assert(digits_val(s.take(i)) <= digits_val(s.take(i + 1)));
    } else {
        assert(s.take(i) =~= s);
    }
}

/// Strict lexicographic order on character sequences, by code point.
pub open spec fn lex_lt(a: Seq<char>, b: Seq<char>) -> bool
    decreases a.len(),
{
    if b.len() == 0 {
        false
    } else if a.len() == 0 {
        true
    } else if a[0] != b[0] {
        (a[0] as u32) < (b[0] as u32)
    } else {
        lex_lt(a.drop_first(), b.drop_first())
    }
}

/// Non-strict lexicographic order.
pub open spec fn lex_le(a: Seq<char>, b: Seq<char>) -> bool {
    a == b || lex_lt(a, b)
}

/// Of two distinct sequences, exactly one precedes the other.
pub proof fn lemma_lex_trichotomy(a: Seq<char>, b: Seq<char>)
    ensures
        a == b || (lex_lt(a, b) <==> !lex_lt(b, a) && a != b),
        !(lex_lt(a, b) && lex_lt(b, a)),
    decreases a.len(),
{
    if a.len() == 0 && b.len() == 0 {
        assert(a =~= b);
    } else if a.len() == 0 || b.len() == 0 {
    } else if a[0] != b[0] {
        assert((a[0] as u32) != (b[0] as u32)) by {
            if (a[0] as u32) == (b[0] as u32) {
                vstd::utf8::char_u32_cast(a[0], a[0] as u32);
                vstd::utf8::char_u32_cast(b[0], b[0] as u32);
            }
        }
    } else {
        lemma_lex_trichotomy(a.drop_first(), b.drop_first());
        if a.drop_first() == b.drop_first() {
            assert(a =~= b) by {
                assert(forall|i: int|
                    1 <= i < a.len() ==> a[i] == a.drop_first()[i - 1] && b[i] == b.drop_first()[i
                        - 1]);
            }
        }
    }
}

/// Lexicographic order is transitive.
pub proof fn lemma_lex_lt_trans(a: Seq<char>, b: Seq<char>, c: Seq<char>)
    requires
        lex_lt(a, b),
        lex_lt(b, c),
    ensures
        lex_lt(a, c),
    decreases a.len(),
{
    if a.len() == 0 {
        assert(c.len() > 0);
    } else {
        assert(b.len() > 0 && c.len() > 0);
        if a[0] == b[0] && b[0] == c[0] {
            lemma_lex_lt_trans(a.drop_first(), b.drop_first(), c.drop_first());
        }
    }
}

/// Comparing two chars as code points decides `lex_lt` at the first
/// difference; exec comparison of whole strings.
pub fn str_lt(a: &str, b: &str) -> (r: bool)
    ensures
        r == lex_lt(a@, b@),
{
    let alen = a.unicode_len();
    let blen = b.unicode_len();
    let mut i: usize = 0;
    proof {
        assert(a@.skip(0) =~= a@);
        assert(b@.skip(0) =~= b@);
    }
    loop
        invariant
            alen == a@.len(),
            blen == b@.len(),
            0 <= i <= alen,
            i <= blen,
            lex_lt(a@, b@) == lex_lt(a@.skip(i as int), b@.skip(i as int)),
        decreases alen - i,
    {
        if i >= blen {
            proof {
                assert(b@.skip(i as int).len() == 0);
            }
            return false;
        }
        if i >= alen {
            proof {
                assert(a@.skip(i as int).len() == 0);
                assert(b@.skip(i as int).len() > 0);
            }
            return true;
        }
        let ca = a.get_char(i);
        let cb = b.get_char(i);
        if ca != cb {
            proof {
                assert(a@.skip(i as int)[0] == ca && b@.skip(i as int)[0] == cb);
            }
            return (ca as u32) < (cb as u32);
        }
        proof {
            assert(a@.skip(i as int)[0] == b@.skip(i as int)[0]);
            assert(a@.skip(i as int).drop_first() =~= a@.skip(i + 1));
            assert(b@.skip(i as int).drop_first() =~= b@.skip(i + 1));
        }
        i += 1;
    }
}

/// The character views of a sequence of strings.
pub open spec fn str_views(s: Seq<String>) -> Seq<Seq<char>> {
    s.map_values(|x: String| x@)
}

/// Sorted ascending by lexicographic order.
pub open spec fn sorted_lex(s: Seq<Seq<char>>) -> bool {
    forall|i: int, j: int| 0 <= i < j < s.len() ==> lex_le(s[i], s[j])
}

/// Sorted descending by lexicographic order.
pub open spec fn sorted_lex_desc(s: Seq<Seq<char>>) -> bool {
    forall|i: int, j: int| 0 <= i < j < s.len() ==> lex_le(s[j], s[i])
}

/// Insertion sort over the character views; the result is ascending and
/// holds the same strings (as a multiset of views).
pub fn sort_strings(v: Vec<String>) -> (r: Vec<String>)
    ensures
        sorted_lex(str_views(r@)),
        str_views(r@).to_multiset() == str_views(v@).to_multiset(),
{
    let mut out: Vec<String> = Vec::new();
    let mut rest = v;
    let ghost all = rest@;
    proof {
        assert(str_views(out@).to_multiset() =~= Multiset::empty());
        assert(str_views(out@).to_multiset().add(str_views(rest@).to_multiset()) =~= str_views(
            all,
        ).to_multiset());
    }
    loop
        invariant
            all == v@,
            sorted_lex(str_views(out@)),
            str_views(out@).to_multiset().add(str_views(rest@).to_multiset()) == str_views(
                all,
            ).to_multiset(),
        decreases rest@.len(),
    {
        let ghost old_rest = rest@;
        let ghost old_out = out@;
        let popped = rest.pop();
        match popped {
            None => {
                proof {
                    assert(str_views(rest@).len() == 0);
                    assert(str_views(rest@).to_multiset().len() == 0);
                    assert(str_views(rest@).to_multiset() =~= Multiset::empty());
                    assert(str_views(out@).to_multiset().add(Multiset::empty()) =~= str_views(
                        out@,
                    ).to_multiset());
                    assert(str_views(out@).to_multiset() == str_views(all).to_multiset());
                }
                return out;
            },
            Some(x) => {
                proof {
                    assert(str_views(old_rest) =~= str_views(rest@).push(x@));
                    assert(str_views(old_rest).to_multiset() =~= str_views(
                        rest@,
                    ).to_multiset().insert(x@));
                }
                // find the insertion position
                let mut pos: usize = 0;
                while pos < out.len() && !str_lt(x.as_str(), out[pos].as_str())
                    invariant
                        0 <= pos <= out@.len(),
                        forall|j: int| 0 <= j < pos ==> !lex_lt(x@, str_views(out@)[j]),
                    decreases out@.len() - pos,
                {
                    pos += 1;
                }
                proof {
                    lemma_sorted_insert_ok(str_views(out@), x@, pos as int);
                }
                out.insert(pos, x);
                proof {
                    assert(str_views(out@) =~= str_views(old_out).insert(pos as int, x@));
                    assert(str_views(out@).to_multiset() =~= str_views(
                        old_out,
                    ).to_multiset().insert(x@));
                    assert(str_views(out@).to_multiset().add(str_views(rest@).to_multiset())
                        =~= str_views(old_out).to_multiset().add(
                        str_views(old_rest).to_multiset(),
                    ));
                }
            },
        }
    }
}

/// Inserting at the found position keeps the sequence sorted.
proof fn lemma_sorted_insert_ok(s: Seq<Seq<char>>, x: Seq<char>, pos: int)
    requires
        sorted_lex(s),
        0 <= pos <= s.len(),
        forall|j: int| 0 <= j < pos ==> !lex_lt(x, s[j]),
        pos < s.len() ==> lex_lt(x, s[pos]),
    ensures
        sorted_lex(s.insert(pos, x)),
{
    let t = s.insert(pos, x);
    assert(t.len() == s.len() + 1);
    assert(forall|k: int| 0 <= k < pos ==> t[k] == s[k]);
    assert(t[pos] == x);
    assert(forall|k: int| pos < k < t.len() ==> t[k] == s[k - 1]);
    assert forall|i: int, j: int| 0 <= i < j < t.len() implies lex_le(t[i], t[j]) by {
        if i == pos {
            // t[i] == x and t[j] == s[j - 1] with j - 1 >= pos
            if j - 1 == pos {
                assert(lex_lt(x, s[pos]));
            } else {
                assert(lex_le(s[pos], s[j - 1]));
                if s[pos] == s[j - 1] {
                    assert(lex_lt(x, t[j]));
                } else {
                    lemma_lex_lt_trans(x, s[pos], s[j - 1]);
                }
            }
        } else if j == pos {
            // t[i] == s[i] with i < pos, and !lex_lt(x, s[i])
            lemma_lex_trichotomy(x, s[i]);
        } else if i < pos && j > pos {
            // both sides are s entries around the insertion point
            if i < j - 1 {
                assert(lex_le(s[i], s[j - 1]));
            } else {
                assert(s[i] == s[j - 1]);
            }
        } else if j < pos {
            assert(lex_le(s[i], s[j]));
        } else {
            assert(lex_le(s[i - 1], s[j - 1]));
        }
    }
}

/// Reverses a vector of strings.
pub fn reverse_strings(v: Vec<String>) -> (r: Vec<String>)
    ensures
        r@.len() == v@.len(),
        forall|i: int| 0 <= i < v@.len() ==> r@[i] == v@[v@.len() - 1 - i],
{
    let mut out: Vec<String> = Vec::new();
    let mut i: usize = v.len();
    let vv = v;
    while i > 0
        invariant
            0 <= i <= vv@.len(),
            out@.len() == vv@.len() - i,
            forall|j: int| 0 <= j < out@.len() ==> out@[j] == vv@[vv@.len() - 1 - j],
        decreases i,
    {
        i -= 1;
        let s = vv[i].clone();
        out.push(s);
    }
    out
}

/// What joining `parts` with `sep` yields.
pub open spec fn join_with(parts: Seq<Seq<char>>, sep: Seq<char>) -> Seq<char>
    decreases parts.len(),
{
    if parts.len() == 0 {
        Seq::empty()
    } else if parts.len() == 1 {
        parts[0]
    } else {
        join_with(parts.drop_last(), sep) + sep + parts.last()
    }
}

/// Joins strings with a separator, as `[T]::join` does.
pub fn join_strings(parts: &Vec<String>, sep: &str) -> (r: String)
    ensures
        r@ == join_with(str_views(parts@), sep@),
{
    let mut out = String::new();
    let mut i: usize = 0;
    while i < parts.len()
        invariant
            0 <= i <= parts@.len(),
            out@ == join_with(str_views(parts@).take(i as int), sep@),
        decreases parts@.len() - i,
    {
        if i > 0 {
            out.append(sep);
        }
        out.append(parts[i].as_str());
        proof {
            let views = str_views(parts@);
            assert(views.take(i + 1).drop_last() =~= views.take(i as int));
            assert(views.take(i + 1).last() == views[i as int]);
            if i == 0 {
                assert(views.take(1) =~= seq![views[0]]);
                assert(out@ =~= join_with(views.take(1), sep@));
            }
        }
        i += 1;
    }
    proof {
        assert(str_views(parts@).take(parts@.len() as int) =~= str_views(parts@));
    }
    out
}

/// The decimal rendering of a natural number, most significant digit first.
pub open spec fn dec_digits(n: nat) -> Seq<char>
    decreases n,
{
    if n < 10 {
        seq![digit_char(n)]
    } else {
        dec_digits(n / 10).push(digit_char(n % 10))
    }
}

/// The digit character for a value below ten.
pub open spec fn digit_char(d: nat) -> char {
    if d == 0 {
        '0'
    } else if d == 1 {
        '1'
    } else if d == 2 {
        '2'
    } else if d == 3 {
        '3'
    } else if d == 4 {
        '4'
    } else if d == 5 {
        '5'
    } else if d == 6 {
        '6'
    } else if d == 7 {
        '7'
    } else if d == 8 {
        '8'
    } else {
        '9'
    }
}

fn digit_str(d: u64) -> (r: &'static str)
    requires
        d < 10,
    ensures
        r@ =~= seq![digit_char(d as nat)],
{
    let r: &'static str = if d == 0 {
        "0"
    } else if d == 1 {
        "1"
    } else if d == 2 {
        "2"
    } else if d == 3 {
        "3"
    } else if d == 4 {
        "4"
    } else if d == 5 {
        "5"
    } else if d == 6 {
        "6"
    } else if d == 7 {
        "7"
    } else if d == 8 {
        "8"
    } else {
        "9"
    };
    proof {
        reveal_strlit("0");
        reveal_strlit("1");
        reveal_strlit("2");
        reveal_strlit("3");
        reveal_strlit("4");
        reveal_strlit("5");
        reveal_strlit("6");
        reveal_strlit("7");
        reveal_strlit("8");
        reveal_strlit("9");
    }
    r
}

/// Renders a number in decimal, as `usize`'s `Display` does.
pub fn u64_to_string(n: u64) -> (r: String)
    ensures
        r@ == dec_digits(n as nat),
    decreases n,
{
    if n < 10 {
        let mut s = String::new();
        s.append(digit_str(n));
        proof {
            assert(s@ =~= dec_digits(n as nat));
        }
        s
    } else {
        let mut s = u64_to_string(n / 10);
        s.append(digit_str(n % 10));
        proof {
            assert(s@ =~= dec_digits(n as nat));
        }
        s
    }
}

/// The first index holding a string with the given view, if any.
pub fn index_of_str(v: &Vec<String>, key: &str) -> (r: Option<usize>)
    ensures
        match r {
            Some(i) => i < v@.len() && v@[i as int]@ == key@ && (forall|j: int|
                0 <= j < i ==> v@[j]@ != key@),
            None => forall|j: int| 0 <= j < v@.len() ==> v@[j]@ != key@,
        },
{
    let mut i: usize = 0;
    while i < v.len()
        invariant
            0 <= i <= v@.len(),
            forall|j: int| 0 <= j < i ==> v@[j]@ != key@,
        decreases v@.len() - i,
    {
        if str_eq_str(v[i].as_str(), key) {
            return Some(i);
        }
        i += 1;
    }
    None
}

/// Relies on std's `FromIterator` for `String`: collecting characters
/// yields the string of exactly those characters.
#[verifier::external_body]
pub(crate) fn chars_to_string(v: &Vec<char>) -> (r: String)
    ensures
        r@ == v@,
{
    v.iter().collect()
}

/// Plain equality between a string and a character vector.
pub fn str_eq_chars(a: &str, v: &Vec<char>) -> (r: bool)
    ensures
        r == (a@ == v@),
{
    let alen = a.unicode_len();
    if alen != v.len() {
        return false;
    }
    let mut i: usize = 0;
    while i < alen
        invariant
            alen == a@.len(),
            alen == v@.len(),
            0 <= i <= alen,
            forall|j: int| 0 <= j < i ==> a@[j] == v@[j],
        decreases alen - i,
    {
        if a.get_char(i) != v[i] {
            return false;
        }
        i += 1;
    }
    proof {
        assert(a@ =~= v@);
    }
    true
}

/// Parses a non-empty all-digit character vector into a `usize`; `None` on
/// a non-digit, an empty vector, or a value above `usize::MAX`.
pub fn parse_usize_chars(s: &Vec<char>) -> (r: Option<usize>)
    ensures
        match r {
            Some(n) => s@.len() > 0 && (forall|i: int| 0 <= i < s@.len() ==> is_digit_char(s@[i]))
                && n == digits_val(s@),
            None => s@.len() == 0 || (exists|i: int| 0 <= i < s@.len() && !is_digit_char(s@[i]))
                || digits_val(s@) > usize::MAX,
        },
{
    let len = s.len();
    if len == 0 {
        return None;
    }
    let mut acc: usize = 0;
    let mut i: usize = 0;
    while i < len
        invariant
            len == s@.len(),
            0 <= i <= len,
            forall|j: int| 0 <= j < i ==> is_digit_char(s@[j]),
            acc == digits_val(s@.take(i as int)),
        decreases len - i,
    {
        let c = s[i];
        let u = c as u32;
        if !(48 <= u && u <= 57) {
            assert(!is_digit_char(s@[i as int]));
            return None;
        }
        let d = (u - 48) as usize;
        proof {
            assert(s@.take(i + 1).drop_last() =~= s@.take(i as int));
            assert(s@.take(i + 1).last() == s@[i as int]);
        }
        let next = match acc.checked_mul(10) {
            Some(m) => m.checked_add(d),
            None => None,
        };
        match next {
            Some(v) => {
                acc = v;
            },
            None => {
                proof {
                    lemma_digits_val_monotone(s@, i + 1);
                }
                return None;
            },
        }
        i += 1;
    }
    proof {
        assert(s@.take(len as int) =~= s@);
    }
    Some(acc)
}

} // verus!
