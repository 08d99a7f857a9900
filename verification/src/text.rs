//! Character and string helpers shared by the collection registry: whitespace
//! trimming, first-occurrence search, splitting on a separator, and
//! lexicographic comparison of character sequences.

use vstd::prelude::*;

verus! {

/// A character with the Unicode `White_Space` property, the set that trimming
/// removes from either end of a configuration entry.
pub open spec fn is_ws(c: char) -> bool {
    let u = c as int;
    u == 0x09 || u == 0x0A || u == 0x0B || u == 0x0C || u == 0x0D || u == 0x20 || u == 0x85
        || u == 0xA0 || u == 0x1680 || (0x2000 <= u && u <= 0x200A) || u == 0x2028 || u == 0x2029
        || u == 0x202F || u == 0x205F || u == 0x3000
}

/// Executable test for [`is_ws`].
pub fn char_is_ws(c: char) -> (b: bool)
    ensures
        b == is_ws(c),
{
    c == '\u{09}' || c == '\u{0A}' || c == '\u{0B}' || c == '\u{0C}' || c == '\u{0D}'
        || c == '\u{20}' || c == '\u{85}' || c == '\u{A0}' || c == '\u{1680}' || ('\u{2000}' <= c
        && c <= '\u{200A}') || c == '\u{2028}' || c == '\u{2029}' || c == '\u{202F}'
        || c == '\u{205F}' || c == '\u{3000}'
}

/// The sequence with leading whitespace removed.
pub open spec fn trim_start_spec(s: Seq<char>) -> Seq<char>
    decreases s.len(),
{
    if s.len() == 0 {
        s
    } else if is_ws(s[0]) {
        trim_start_spec(s.drop_first())
    } else {
        s
    }
}

/// The sequence with trailing whitespace removed.
pub open spec fn trim_end_spec(s: Seq<char>) -> Seq<char>
    decreases s.len(),
{
    if s.len() == 0 {
        s
    } else if is_ws(s.last()) {
        trim_end_spec(s.drop_last())
    } else {
        s
    }
}

/// The sequence with whitespace removed from both ends.
pub open spec fn trim_spec(s: Seq<char>) -> Seq<char> {
    trim_end_spec(trim_start_spec(s))
}

/// Any index bounding a whitespace-only prefix, whose successor position is
/// not whitespace, pins down `trim_start_spec` as a suffix.
proof fn lemma_trim_start_at(s: Seq<char>, i: int)
    requires
        0 <= i <= s.len(),
        forall|k: int| 0 <= k < i ==> is_ws(s[k]),
        i == s.len() || !is_ws(s[i]),
    ensures
        trim_start_spec(s) == s.skip(i),
    decreases i,
{
    if i == 0 {
        assert(s.skip(0) =~= s);
    } else {
        let t = s.drop_first();
        assert(forall|k: int| 0 <= k < i - 1 ==> is_ws(t[k]));
        lemma_trim_start_at(t, i - 1);
        assert(t.skip(i - 1) =~= s.skip(i));
    }
}

/// Any index bounding a whitespace-only suffix, whose predecessor position is
/// not whitespace, pins down `trim_end_spec` as a prefix.
proof fn lemma_trim_end_at(s: Seq<char>, j: int)
    requires
        0 <= j <= s.len(),
        forall|k: int| j <= k < s.len() ==> is_ws(s[k]),
        j == 0 || !is_ws(s[j - 1]),
    ensures
        trim_end_spec(s) == s.take(j),
    decreases s.len() - j,
{
    if j == s.len() {
        assert(s.take(j) =~= s);
    } else {
        let t = s.drop_last();
        assert(is_ws(s.last()));
        assert(forall|k: int| j <= k < t.len() ==> is_ws(t[k]));
        lemma_trim_end_at(t, j);
        assert(t.take(j) =~= s.take(j));
    }
}

/// Removes leading and trailing whitespace, as `trim_spec` describes.
pub fn trim_str(s: &str) -> (r: String)
    ensures
        r@ == trim_spec(s@),
{
    let n = s.unicode_len();
    let mut i: usize = 0;
    loop
        invariant
            0 <= i <= n,
            n == s@.len(),
            forall|k: int| 0 <= k < i ==> is_ws(s@[k]),
        ensures
            0 <= i <= n,
            forall|k: int| 0 <= k < i ==> is_ws(s@[k]),
            i == n || !is_ws(s@[i as int]),
        decreases n - i,
    {
        if i >= n {
            break;
        }
        let c = s.get_char(i);
        if !char_is_ws(c) {
            break;
        }
        i = i + 1;
    }
    let mut j: usize = n;
    loop
        invariant
            i <= j <= n,
            n == s@.len(),
            forall|k: int| 0 <= k < i ==> is_ws(s@[k]),
            i == n || !is_ws(s@[i as int]),
            forall|k: int| j <= k < n ==> is_ws(s@[k]),
        ensures
            i <= j <= n,
            forall|k: int| j <= k < n ==> is_ws(s@[k]),
            j == i || !is_ws(s@[j - 1]),
        decreases j,
    {
        if j <= i {
            break;
        }
        let c = s.get_char(j - 1);
        if !char_is_ws(c) {
            break;
        }
        j = j - 1;
    }
    let sub = s.substring_char(i, j);
    let r = String::from_str(sub);
    proof {
        lemma_trim_start_at(s@, i as int);
        let t = s@.skip(i as int);
        assert(forall|k: int| (j - i) <= k < t.len() ==> is_ws(#[trigger] t[k]) && t[k] == s@[k
            + i]);
        if j > i {
            assert(!is_ws(t[j - i - 1]));
        }
        lemma_trim_end_at(t, j - i);
        assert(t.take(j - i) =~= s@.subrange(i as int, j as int));
    }
    r
}

/// The index of the first occurrence of `c` in `s`, or `s.len()` when absent.
pub open spec fn first_index_of(s: Seq<char>, c: char) -> int
    decreases s.len(),
{
    if s.len() == 0 {
        0
    } else if s[0] == c {
        0
    } else {
        1 + first_index_of(s.drop_first(), c)
    }
}

/// An index with no occurrence of `c` before it, and `c` (or the end) at it,
/// is exactly `first_index_of`.
pub proof fn lemma_first_index_of_is(s: Seq<char>, c: char, i: int)
    requires
        0 <= i <= s.len(),
        forall|k: int| 0 <= k < i ==> s[k] != c,
        i == s.len() || s[i] == c,
    ensures
        first_index_of(s, c) == i,
    decreases s.len(),
{
    if s.len() == 0 {
    } else if s[0] == c {
        assert(i == 0);
    } else {
        assert(i >= 1);
        lemma_first_index_of_is(s.drop_first(), c, i - 1);
    }
}

/// Finds the first occurrence of `c` in `s`, returning `s` length when absent.
pub fn find_first(s: &str, c: char) -> (i: usize)
    ensures
        i as int == first_index_of(s@, c),
        i <= s@.len(),
{
    let n = s.unicode_len();
    let mut i: usize = 0;
    loop
        invariant
            0 <= i <= n,
            n == s@.len(),
            forall|k: int| 0 <= k < i ==> s@[k] != c,
        ensures
            0 <= i <= n,
            forall|k: int| 0 <= k < i ==> s@[k] != c,
            i == n || s@[i as int] == c,
        decreases n - i,
    {
        if i >= n {
            break;
        }
        let ci = s.get_char(i);
        if ci == c {
            break;
        }
        i = i + 1;
    }
    proof {
        lemma_first_index_of_is(s@, c, i as int);
    }
    i
}

/// The pieces of `s` between `;` separators, in order; a sequence with no
/// separator is a single piece, and empty pieces are kept.
pub open spec fn split_semis(s: Seq<char>) -> Seq<Seq<char>>
    decreases s.len(),
{
    if s.len() == 0 {
        seq![Seq::<char>::empty()]
    } else if s[0] == ';' {
        seq![Seq::<char>::empty()] + split_semis(s.drop_first())
    } else {
        let rest = split_semis(s.drop_first());
        seq![seq![s[0]] + rest[0]] + rest.drop_first()
    }
}

/// Splitting always yields at least one piece.
pub proof fn lemma_split_semis_len(s: Seq<char>)
    ensures
        split_semis(s).len() >= 1,
    decreases s.len(),
{
    if s.len() == 0 {
    } else {
        lemma_split_semis_len(s.drop_first());
    }
}

/// A separator-free sequence splits into itself alone.
pub proof fn lemma_split_no_semi(s: Seq<char>)
    requires
        forall|k: int| 0 <= k < s.len() ==> s[k] != ';',
    ensures
        split_semis(s) == seq![s],
    decreases s.len(),
{
    if s.len() == 0 {
        assert(s =~= Seq::<char>::empty());
        assert(split_semis(s) =~= seq![s]);
    } else {
        let t = s.drop_first();
        lemma_split_no_semi(t);
        lemma_split_semis_len(t);
        assert(seq![s[0]] + t =~= s);
        assert(split_semis(s) =~= seq![s]);
    }
}

/// Splitting at the first separator peels off the prefix before it.
pub proof fn lemma_split_at_first_semi(s: Seq<char>, i: int)
    requires
        0 <= i < s.len(),
        s[i] == ';',
        forall|k: int| 0 <= k < i ==> s[k] != ';',
    ensures
        split_semis(s) == seq![s.take(i)] + split_semis(s.skip(i + 1)),
    decreases i,
{
    if i == 0 {
        let e: Seq<char> = Seq::empty();
        assert(s.take(0) == e) by {
            assert(s.take(0) =~= e);
        }
        assert(s.skip(1) == s.drop_first()) by {
            assert(s.skip(1) =~= s.drop_first());
        }
        assert(split_semis(s) == seq![e] + split_semis(s.drop_first()));
        assert(split_semis(s) =~= seq![s.take(0)] + split_semis(s.skip(1)));
    } else {
        let t = s.drop_first();
        assert(t[i - 1] == ';');
        assert(forall|k: int| 0 <= k < i - 1 ==> t[k] != ';');
        lemma_split_at_first_semi(t, i - 1);
        lemma_split_semis_len(t.skip(i));
        let rest = split_semis(t);
        assert(rest[0] == t.take(i - 1));
        assert(rest.drop_first() =~= split_semis(t.skip(i)));
        assert(seq![s[0]] + t.take(i - 1) =~= s.take(i));
        assert(t.skip(i) =~= s.skip(i + 1));
        assert(split_semis(s) =~= seq![s.take(i)] + split_semis(s.skip(i + 1)));
    }
}

/// Splits `s` on every `;`, keeping empty pieces, as `split_semis` describes.
pub fn split_semi_str(s: &str) -> (r: Vec<String>)
    ensures
        r@.map_values(|p: String| p@) == split_semis(s@),
{
    let n = s.unicode_len();
    let mut r: Vec<String> = Vec::new();
    let mut start: usize = 0;
    let mut i: usize = 0;
    proof {
        assert(s@.skip(0) =~= s@);
        assert(r@.map_values(|p: String| p@) =~= Seq::<Seq<char>>::empty());
    }
    while i < n
        invariant
            0 <= start <= i <= n,
            n == s@.len(),
            forall|k: int| start <= k < i ==> s@[k] != ';',
            split_semis(s@) =~= r@.map_values(|p: String| p@) + split_semis(
                s@.skip(start as int),
            ),
        decreases n - i,
    {
        let c = s.get_char(i);
        if c == ';' {
            let piece = s.substring_char(start, i);
            let piece = String::from_str(piece);
            proof {
                let tail = s@.skip(start as int);
                assert(tail[i - start] == ';');
                assert(forall|k: int| 0 <= k < i - start ==> tail[k] != ';');
                lemma_split_at_first_semi(tail, i - start);
                assert(tail.take(i - start) =~= s@.subrange(start as int, i as int));
                assert(tail.skip(i - start + 1) =~= s@.skip(i + 1));
                assert((r@.push(piece)).map_values(|p: String| p@) =~= r@.map_values(
                    |p: String| p@,
                ).push(piece@));
            }
            r.push(piece);
            start = i + 1;
        }
        i = i + 1;
    }
    let piece = s.substring_char(start, n);
    let piece = String::from_str(piece);
    proof {
        let tail = s@.skip(start as int);
        assert(forall|k: int| 0 <= k < tail.len() ==> tail[k] != ';');
        lemma_split_no_semi(tail);
        assert(tail =~= s@.subrange(start as int, n as int));
        assert((r@.push(piece)).map_values(|p: String| p@) =~= r@.map_values(
            |p: String| p@,
        ).push(piece@));
    }
    r.push(piece);
    r
}

/// Character-by-character equality of two string slices.
pub fn str_eq(a: &str, b: &str) -> (r: bool)
    ensures
        r == (a@ == b@),
{
    let na = a.unicode_len();
    let nb = b.unicode_len();
    if na != nb {
        proof {
            assert(a@ != b@);
        }
        return false;
    }
    let mut i: usize = 0;
    while i < na
        invariant
            0 <= i <= na,
            na == a@.len(),
            na == b@.len(),
            forall|k: int| 0 <= k < i ==> a@[k] == b@[k],
        decreases na - i,
    {
        let ca = a.get_char(i);
        let cb = b.get_char(i);
        if ca != cb {
            return false;
        }
        i = i + 1;
    }
    proof {
        assert(a@ =~= b@);
    }
    true
}

/// Lexicographic order on character sequences by Unicode scalar value; total,
/// and equal to the order Rust's string comparison uses.
pub open spec fn seq_le(a: Seq<char>, b: Seq<char>) -> bool
    decreases a.len(),
{
    if a.len() == 0 {
        true
    } else if b.len() == 0 {
        false
    } else if a[0] == b[0] {
        seq_le(a.drop_first(), b.drop_first())
    } else {
        (a[0] as int) < (b[0] as int)
    }
}

/// `seq_le` is total: one direction always holds.
pub proof fn lemma_seq_le_total(a: Seq<char>, b: Seq<char>)
    ensures
        seq_le(a, b) || seq_le(b, a),
    decreases a.len(),
{
    if a.len() == 0 || b.len() == 0 {
    } else if a[0] == b[0] {
        lemma_seq_le_total(a.drop_first(), b.drop_first());
    } else {
        assert((a[0] as int) != (b[0] as int));
    }
}

/// `seq_le` is transitive.
pub proof fn lemma_seq_le_trans(a: Seq<char>, b: Seq<char>, c: Seq<char>)
    requires
        seq_le(a, b),
        seq_le(b, c),
    ensures
        seq_le(a, c),
    decreases a.len(),
{
    if a.len() == 0 {
    } else {
        assert(b.len() > 0);
        assert(c.len() > 0);
        if a[0] == b[0] && b[0] == c[0] {
            lemma_seq_le_trans(a.drop_first(), b.drop_first(), c.drop_first());
        } else if a[0] == b[0] {
            assert((b[0] as int) < (c[0] as int));
            assert(a[0] != c[0]);
        } else if b[0] == c[0] {
            assert((a[0] as int) < (b[0] as int));
            assert(a[0] != c[0]);
        } else {
            assert((a[0] as int) < (c[0] as int));
            assert(a[0] != c[0]);
        }
    }
}

/// Compares two string slices in the order `seq_le` describes.
pub fn str_le(a: &str, b: &str) -> (r: bool)
    ensures
        r == seq_le(a@, b@),
{
    let na = a.unicode_len();
    let nb = b.unicode_len();
    let mut i: usize = 0;
    proof {
        assert(a@.skip(0) =~= a@);
        assert(b@.skip(0) =~= b@);
    }
    loop
        invariant
            0 <= i <= na,
            i <= nb,
            na == a@.len(),
            nb == b@.len(),
            forall|k: int| 0 <= k < i ==> a@[k] == b@[k],
            seq_le(a@, b@) == seq_le(a@.skip(i as int), b@.skip(i as int)),
        ensures
            seq_le(a@, b@) == seq_le(a@.skip(i as int), b@.skip(i as int)),
            i <= na && i <= nb,
            (i == na || i == nb) || a@[i as int] != b@[i as int],
        decreases na - i,
    {
        if i >= na || i >= nb {
            break;
        }
        let ca = a.get_char(i);
        let cb = b.get_char(i);
        if ca != cb {
            break;
        }
        proof {
            let sa = a@.skip(i as int);
            let sb = b@.skip(i as int);
            assert(sa[0] == a@[i as int]);
            assert(sb[0] == b@[i as int]);
            assert(sa.drop_first() =~= a@.skip(i + 1));
            assert(sb.drop_first() =~= b@.skip(i + 1));
        }
        i = i + 1;
    }
    let sa_empty = i >= na;
    let sb_empty = i >= nb;
    if sa_empty {
        proof {
            assert(a@.skip(i as int).len() == 0);
        }
        true
    } else if sb_empty {
        proof {
            assert(b@.skip(i as int).len() == 0);
            assert(a@.skip(i as int).len() > 0);
        }
        false
    } else {
        let ca = a.get_char(i);
        let cb = b.get_char(i);
        proof {
            let sa = a@.skip(i as int);
            let sb = b@.skip(i as int);
            assert(sa[0] == a@[i as int]);
            assert(sb[0] == b@[i as int]);
            assert(sa[0] != sb[0]);
        }
        ca < cb
    }
}

/// The case-folded form of a character sequence, as Rust's Unicode lowercase
/// conversion computes it; the result depends on the characters alone.
pub uninterp spec fn lower_of(s: Seq<char>) -> Seq<char>;

/// Relies on str::to_lowercase: the Unicode lowercase conversion is a pure
/// function of the input characters.
#[verifier::external_body]
pub fn to_lower(s: &str) -> (r: String)
    ensures
        r@ == lower_of(s@),
{
    s.to_lowercase()
}

} // verus!
