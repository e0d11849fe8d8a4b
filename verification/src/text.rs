//! Character-sequence utilities: searching for a character, splitting a line
//! on a delimiter or on runs of whitespace, and prefix / substring tests.

use vstd::prelude::*;

verus! {

/// Index of the first occurrence of `d` in `s`, or `s.len()` if absent.
pub open spec fn find_char(s: Seq<char>, d: char) -> int
    decreases s.len(),
{
    if s.len() == 0 {
        0
    } else if s[0] == d {
        0
    } else {
        1 + find_char(s.skip(1), d)
    }
}

pub proof fn lemma_find_char(s: Seq<char>, d: char)
    ensures
        0 <= find_char(s, d) <= s.len(),
        forall|i: int| 0 <= i < find_char(s, d) ==> s[i] != d,
        find_char(s, d) < s.len() ==> s[find_char(s, d)] == d,
    decreases s.len(),
{
    if s.len() == 0 {
    } else if s[0] == d {
    } else {
        lemma_find_char(s.skip(1), d);
        assert forall|i: int| 0 <= i < find_char(s, d) implies s[i] != d by {
            if i > 0 {
                assert(s.skip(1)[i - 1] == s[i]);
            }
        }
        if find_char(s, d) < s.len() {
            assert(s.skip(1)[find_char(s, d) - 1] == s[find_char(s, d)]);
        }
    }
}

/// `find_char` is the unique index satisfying the first-occurrence conditions.
pub proof fn lemma_find_char_is(s: Seq<char>, d: char, k: int)
    requires
        0 <= k <= s.len(),
        forall|j: int| 0 <= j < k ==> s[j] != d,
        k < s.len() ==> s[k] == d,
    ensures
        find_char(s, d) == k,
{
    lemma_find_char(s, d);
    let f = find_char(s, d);
    if f < k {
        assert(s[f] == d);
        assert(false);
    }
    if k < f {
        assert(s[k] != d);
        assert(false);
    }
}

/// Index of the first occurrence of `d` in `s` at or after `from`,
/// or the character count of `s` if there is none.
pub fn find_char_from(s: &str, d: char, from: usize) -> (r: usize)
    requires
        from as int <= s@.len(),
    ensures
        from <= r <= s@.len(),
        r - from == find_char(s@.skip(from as int), d),
{
    let n = s.unicode_len();
    let mut i: usize = from;
    while i < n
        invariant
            from <= i <= n,
            n == s@.len(),
            forall|j: int| from <= j < i ==> s@[j] != d,
        decreases n - i,
    {
        if s.get_char(i) == d {
            proof {
                let t = s@.skip(from as int);
                assert forall|j: int| 0 <= j < i - from implies t[j] != d by {
                    assert(t[j] == s@[j + from]);
                }
                assert(t[i - from] == s@[i as int]);
                lemma_find_char_is(t, d, i - from);
            }
            return i;
        }
        i += 1;
    }
    proof {
        let t = s@.skip(from as int);
        assert forall|j: int| 0 <= j < n - from implies t[j] != d by {
            assert(t[j] == s@[j + from]);
        }
        lemma_find_char_is(t, d, n - from);
    }
    n
}

/// The pieces of `s` between occurrences of the delimiter `d`, in order.
/// A sequence with no delimiter yields itself as the only piece, so the
/// result always has at least one piece.
pub open spec fn split_on(s: Seq<char>, d: char) -> Seq<Seq<char>>
    decreases s.len(),
    via split_on_decreases
{
    let f = find_char(s, d);
    if f == s.len() {
        seq![s]
    } else {
        seq![s.take(f)] + split_on(s.skip(f + 1), d)
    }
}

#[via_fn]
proof fn split_on_decreases(s: Seq<char>, d: char) {
    lemma_find_char(s, d);
}

pub proof fn lemma_split_on_len(s: Seq<char>, d: char)
    ensures
        split_on(s, d).len() >= 1,
    decreases s.len(),
{
    lemma_find_char(s, d);
    let f = find_char(s, d);
    if f != s.len() {
        lemma_split_on_len(s.skip(f + 1), d);
    }
}

/// Splits `s` at every occurrence of `d`, as `str::split` does for a
/// one-character pattern.
pub fn split_char(s: &str, d: char) -> (r: Vec<String>)
    ensures
        r.deep_view() == split_on(s@, d),
        r.len() >= 1,
{
    let n = s.unicode_len();
    let mut r: Vec<String> = Vec::new();
    let mut start: usize = 0;
    proof {
        assert(r.deep_view() =~= Seq::<Seq<char>>::empty());
        assert(s@.skip(0) =~= s@);
        assert(r.deep_view() + split_on(s@, d) =~= split_on(s@, d));
    }
    loop
        invariant_except_break
            start <= n,
            n == s@.len(),
            split_on(s@, d) == r.deep_view() + split_on(s@.skip(start as int), d),
        ensures
            r.deep_view() == split_on(s@, d),
        decreases n - start,
    {
        let ghost t = s@.skip(start as int);
        let ghost r0 = r.deep_view();
        let p = find_char_from(s, d, start);
        let piece = s.substring_char(start, p);
        proof {
            assert(t.take(p - start) =~= s@.subrange(start as int, p as int));
        }
        r.push(piece.to_owned());
        proof {
            assert(r.deep_view() =~= r0 + seq![t.take(p - start)]);
        }
        if p == n {
            proof {
                assert(t.take(p - start) =~= t);
                assert(split_on(t, d) =~= seq![t]);
                assert(r.deep_view() =~= r0 + split_on(t, d));
            }
            break;
        }
        proof {
            let f = find_char(t, d);
            assert(f == p - start);
            assert(split_on(t, d) == seq![t.take(f)] + split_on(t.skip(f + 1), d));
            assert(t.skip(f + 1) =~= s@.skip(p + 1));
            assert(r.deep_view() + split_on(s@.skip(p + 1), d) =~= r0 + split_on(t, d));
        }
        start = p + 1;
    }
    proof {
        lemma_split_on_len(s@, d);
        assert(r.deep_view().len() == r.len());
    }
    r
}

/// The whitespace characters recognized when a line is split on runs of
/// whitespace: the ASCII range of the characters `char::is_whitespace` accepts.
pub open spec fn is_space(c: char) -> bool {
    c == ' ' || c == '\t' || c == '\n' || c == '\u{b}' || c == '\u{c}' || c == '\r'
}

pub fn space_char(c: char) -> (r: bool)
    ensures
        r == is_space(c),
{
    c == ' ' || c == '\t' || c == '\n' || c == '\u{b}' || c == '\u{c}' || c == '\r'
}

/// Index of the first character of `s` whose `is_space` value equals `want`,
/// or `s.len()` if there is none.
pub open spec fn find_space_kind(s: Seq<char>, want: bool) -> int
    decreases s.len(),
{
    if s.len() == 0 {
        0
    } else if is_space(s[0]) == want {
        0
    } else {
        1 + find_space_kind(s.skip(1), want)
    }
}

pub proof fn lemma_find_space_kind(s: Seq<char>, want: bool)
    ensures
        0 <= find_space_kind(s, want) <= s.len(),
        forall|i: int| 0 <= i < find_space_kind(s, want) ==> is_space(s[i]) != want,
        find_space_kind(s, want) < s.len() ==> is_space(s[find_space_kind(s, want)]) == want,
    decreases s.len(),
{
    if s.len() == 0 {
    } else if is_space(s[0]) == want {
    } else {
        lemma_find_space_kind(s.skip(1), want);
        assert forall|i: int| 0 <= i < find_space_kind(s, want) implies is_space(s[i]) != want by {
            if i > 0 {
                assert(s.skip(1)[i - 1] == s[i]);
            }
        }
        if find_space_kind(s, want) < s.len() {
            assert(s.skip(1)[find_space_kind(s, want) - 1] == s[find_space_kind(s, want)]);
        }
    }
}

pub proof fn lemma_find_space_kind_is(s: Seq<char>, want: bool, k: int)
    requires
        0 <= k <= s.len(),
        forall|j: int| 0 <= j < k ==> is_space(s[j]) != want,
        k < s.len() ==> is_space(s[k]) == want,
    ensures
        find_space_kind(s, want) == k,
{
    lemma_find_space_kind(s, want);
    let f = find_space_kind(s, want);
    if f < k {
        assert(is_space(s[f]) == want);
        assert(false);
    }
    if k < f {
        assert(is_space(s[k]) != want);
        assert(false);
    }
}

/// Index of the first character at or after `from` whose `is_space` value
/// equals `want`, or the character count of `s` if there is none.
pub fn find_space_kind_from(s: &str, want: bool, from: usize) -> (r: usize)
    requires
        from as int <= s@.len(),
    ensures
        from <= r <= s@.len(),
        r - from == find_space_kind(s@.skip(from as int), want),
{
    let n = s.unicode_len();
    let mut i: usize = from;
    while i < n
        invariant
            from <= i <= n,
            n == s@.len(),
            forall|j: int| from <= j < i ==> is_space(s@[j]) != want,
        decreases n - i,
    {
        if space_char(s.get_char(i)) == want {
            proof {
                let t = s@.skip(from as int);
                assert forall|j: int| 0 <= j < i - from implies is_space(t[j]) != want by {
                    assert(t[j] == s@[j + from]);
                }
                assert(t[i - from] == s@[i as int]);
                lemma_find_space_kind_is(t, want, i - from);
            }
            return i;
        }
        i += 1;
    }
    proof {
        let t = s@.skip(from as int);
        assert forall|j: int| 0 <= j < n - from implies is_space(t[j]) != want by {
            assert(t[j] == s@[j + from]);
        }
        lemma_find_space_kind_is(t, want, n - from);
    }
    n
}

/// The maximal runs of non-whitespace characters of `s`, in order, as
/// `str::split_whitespace` yields them: leading, trailing and repeated
/// whitespace produces no empty pieces.
pub open spec fn split_ws(s: Seq<char>) -> Seq<Seq<char>>
    decreases s.len(),
    via split_ws_decreases
{
    let i = find_space_kind(s, false);
    if i == s.len() {
        Seq::empty()
    } else {
        let t = s.skip(i);
        let j = find_space_kind(t, true);
        seq![t.take(j)] + split_ws(t.skip(j))
    }
}

#[via_fn]
proof fn split_ws_decreases(s: Seq<char>) {
    lemma_find_space_kind(s, false);
    let i = find_space_kind(s, false);
    if i < s.len() {
        let t = s.skip(i);
        lemma_find_space_kind(t, true);
        assert(t[0] == s[i]);
    }
}

/// Splits `s` on runs of whitespace, as `str::split_whitespace` does for
/// ASCII whitespace.
pub fn split_whitespace_vec(s: &str) -> (r: Vec<String>)
    ensures
        r.deep_view() == split_ws(s@),
{
    let n = s.unicode_len();
    let mut r: Vec<String> = Vec::new();
    let mut pos: usize = 0;
    proof {
        assert(r.deep_view() =~= Seq::<Seq<char>>::empty());
        assert(s@.skip(0) =~= s@);
        assert(r.deep_view() + split_ws(s@) =~= split_ws(s@));
    }
    loop
        invariant_except_break
            pos <= n,
            n == s@.len(),
            split_ws(s@) == r.deep_view() + split_ws(s@.skip(pos as int)),
        ensures
            r.deep_view() == split_ws(s@),
        decreases n - pos,
    {
        let ghost t = s@.skip(pos as int);
        let ghost r0 = r.deep_view();
        let i = find_space_kind_from(s, false, pos);
        if i == n {
            proof {
                assert(split_ws(t) =~= Seq::<Seq<char>>::empty());
                assert(r.deep_view() + split_ws(t) =~= r.deep_view());
            }
            break;
        }
        let j = find_space_kind_from(s, true, i);
        let piece = s.substring_char(i, j);
        r.push(piece.to_owned());
        proof {
            let fi = find_space_kind(t, false);
            assert(fi == i - pos);
            let u = t.skip(fi);
            assert(u =~= s@.skip(i as int));
            let fj = find_space_kind(u, true);
            assert(fj == j - i);
            assert(split_ws(t) == seq![u.take(fj)] + split_ws(u.skip(fj)));
            assert(u.take(fj) =~= s@.subrange(i as int, j as int));
            assert(r.deep_view() =~= r0 + seq![u.take(fj)]);
            assert(u.skip(fj) =~= s@.skip(j as int));
            assert(r.deep_view() + split_ws(s@.skip(j as int)) =~= r0 + split_ws(t));
        }
        pos = j;
    }
    r
}

/// `p` is a prefix of `s`.
pub open spec fn spec_starts_with(s: Seq<char>, p: Seq<char>) -> bool {
    p.len() <= s.len() && s.take(p.len() as int) == p
}

pub fn str_starts_with(s: &str, p: &str) -> (r: bool)
    ensures
        r == spec_starts_with(s@, p@),
{
    let sn = s.unicode_len();
    let pn = p.unicode_len();
    if pn > sn {
        return false;
    }
    let mut i: usize = 0;
    while i < pn
        invariant
            i <= pn <= sn,
            sn == s@.len(),
            pn == p@.len(),
            forall|j: int| 0 <= j < i ==> s@[j] == p@[j],
        decreases pn - i,
    {
        if s.get_char(i) != p.get_char(i) {
            proof {
                assert(s@.take(pn as int)[i as int] != p@[i as int]);
            }
            return false;
        }
        i += 1;
    }
    proof {
        assert(s@.take(pn as int) =~= p@);
    }
    true
}

/// `p` occurs in `s` as a contiguous subsequence.
pub open spec fn spec_contains(s: Seq<char>, p: Seq<char>) -> bool {
    exists|i: int| 0 <= i <= s.len() - p.len() && #[trigger] s.subrange(i, i + p.len()) == p
}

/// Whether `p` occurs in `s`, as `str::contains` decides for a literal
/// pattern.
pub fn str_contains(s: &str, p: &str) -> (r: bool)
    ensures
        r == spec_contains(s@, p@),
{
    let sn = s.unicode_len();
    let pn = p.unicode_len();
    if pn > sn {
        return false;
    }
    if pn == 0 {
        proof {
            assert(s@.subrange(0, 0 + p@.len() as int) =~= p@);
        }
        return true;
    }
    let mut i: usize = 0;
    while i <= sn - pn
        invariant
            0 < pn <= sn,
            i <= sn - pn + 1,
            sn == s@.len(),
            pn == p@.len(),
            forall|k: int| 0 <= k < i ==> #[trigger] s@.subrange(k, k + pn) != p@,
        decreases sn - i,
    {
        let mut j: usize = 0;
        let mut hit = true;
        while j < pn
            invariant
                i + pn <= sn,
                sn == s@.len(),
                pn == p@.len(),
                j <= pn,
                hit ==> forall|m: int| 0 <= m < j ==> s@[i + m] == p@[m],
                !hit ==> s@.subrange(i as int, i + pn) != p@,
            decreases pn - j,
        {
            if s.get_char(i + j) != p.get_char(j) {
                proof {
                    assert(s@.subrange(i as int, i + pn)[j as int] != p@[j as int]);
                }
                hit = false;
                j = pn;
            } else {
                j += 1;
            }
        }
        if hit {
            proof {
                assert(s@.subrange(i as int, i + pn) =~= p@);
            }
            return true;
        }
        i += 1;
    }
    proof {
        assert forall|k: int| 0 <= k <= sn - pn implies #[trigger] s@.subrange(k, k + pn) != p@
            by {}
    }
    false
}

} // verus!
