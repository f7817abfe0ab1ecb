//! Character-level helpers on strings, each with an exact specification
//! over the `Seq<char>` view of its arguments.

use vstd::prelude::*;
use vstd::string::*;

verus! {

/// `suffix` is a suffix of `s`.
pub open spec fn seq_ends_with(s: Seq<char>, suffix: Seq<char>) -> bool {
    suffix.len() <= s.len() && s.subrange(s.len() - suffix.len(), s.len() as int) == suffix
}

/// `prefix` is a prefix of `s`.
pub open spec fn seq_starts_with(s: Seq<char>, prefix: Seq<char>) -> bool {
    prefix.len() <= s.len() && s.subrange(0, prefix.len() as int) == prefix
}

/// Returns whether `s` ends with `suffix`, compared character by character.
pub fn ends_with(s: &str, suffix: &str) -> (res: bool)
    ensures
        res == seq_ends_with(s@, suffix@),
{
    let n = s.unicode_len();
    let m = suffix.unicode_len();
    if m > n {
        return false;
    }
    let off = n - m;
    let mut i: usize = 0;
    while i < m
        invariant
            n == s@.len(),
            m == suffix@.len(),
            off == n - m,
            i <= m,
            forall|j: int| 0 <= j < i ==> s@[off + j] == suffix@[j],
        decreases m - i,
    {
        if s.get_char(off + i) != suffix.get_char(i) {
            assert(s@.subrange(off as int, n as int)[i as int] != suffix@[i as int]);
            return false;
        }
        i = i + 1;
    }
    assert(s@.subrange(off as int, n as int) =~= suffix@);
    true
}

/// Returns whether `s` starts with `prefix`, compared character by character.
pub fn starts_with(s: &str, prefix: &str) -> (res: bool)
    ensures
        res == seq_starts_with(s@, prefix@),
{
    let n = s.unicode_len();
    let m = prefix.unicode_len();
    if m > n {
        return false;
    }
    let mut i: usize = 0;
    while i < m
        invariant
            n == s@.len(),
            m == prefix@.len(),
            m <= n,
            i <= m,
            forall|j: int| 0 <= j < i ==> s@[j] == prefix@[j],
        decreases m - i,
    {
        if s.get_char(i) != prefix.get_char(i) {
            assert(s@.subrange(0, m as int)[i as int] != prefix@[i as int]);
            return false;
        }
        i = i + 1;
    }
    assert(s@.subrange(0, m as int) =~= prefix@);
    true
}


/// The pieces of `s` separated by `c`, as `str::split` with a `char`
/// pattern yields them: always at least one piece, empty pieces kept.
pub open spec fn spec_split(s: Seq<char>, c: char) -> Seq<Seq<char>>
    decreases s.len(),
{
    if s.len() == 0 {
        seq![Seq::<char>::empty()]
    } else {
        let prev = spec_split(s.drop_last(), c);
        if s.last() == c {
            prev.push(Seq::<char>::empty())
        } else {
            prev.update(prev.len() - 1, prev.last().push(s.last()))
        }
    }
}

/// The pieces of `s` separated by `c`, as `str::split_terminator` yields
/// them: those of `spec_split` without the last one when it is empty.
pub open spec fn spec_split_terminator(s: Seq<char>, c: char) -> Seq<Seq<char>> {
    let p = spec_split(s, c);
    if p.last().len() == 0 {
        p.drop_last()
    } else {
        p
    }
}

/// `s` without all of its leading occurrences of `c`.
pub open spec fn spec_trim_start_char(s: Seq<char>, c: char) -> Seq<char>
    decreases s.len(),
{
    if s.len() > 0 && s[0] == c {
        spec_trim_start_char(s.drop_first(), c)
    } else {
        s
    }
}

/// The character views of a sequence of strings.
pub open spec fn views(v: Seq<String>) -> Seq<Seq<char>> {
    v.map_values(|x: String| x@)
}

/// `spec_split` always yields at least one piece.
pub proof fn lemma_split_nonempty(s: Seq<char>, c: char)
    ensures
        spec_split(s, c).len() >= 1,
    decreases s.len(),
{
    if s.len() > 0 {
        lemma_split_nonempty(s.drop_last(), c);
    }
}

/// Splits `s` at every occurrence of `c`, as `str::split` does.
pub fn split_char(s: &str, c: char) -> (res: Vec<String>)
    ensures
        views(res@) == spec_split(s@, c),
{
    let n = s.unicode_len();
    let mut pieces: Vec<String> = Vec::new();
    let mut start: usize = 0;
    let mut i: usize = 0;
    proof {
        assert(s@.take(0) =~= Seq::<char>::empty());
        assert(views(pieces@) + seq![s@.subrange(0, 0)] =~= spec_split(s@.take(0), c));
    }
    while i < n
        invariant
            n == s@.len(),
            start <= i <= n,
            views(pieces@) + seq![s@.subrange(start as int, i as int)] == spec_split(s@.take(i as int), c),
        decreases n - i,
    {
        let ch = s.get_char(i);
        proof {
            assert(s@.take(i + 1).drop_last() =~= s@.take(i as int));
            assert(s@.take(i + 1).last() == ch);
            lemma_split_nonempty(s@.take(i as int), c);
        }
        if ch == c {
            let piece = String::from_str(s.substring_char(start, i));
            let ghost old_pieces = pieces@;
            pieces.push(piece);
            proof {
                assert(views(pieces@) =~= views(old_pieces) + seq![s@.subrange(start as int, i as int)]);
                assert(spec_split(s@.take(i + 1), c) == spec_split(s@.take(i as int), c).push(Seq::<char>::empty()));
                assert(s@.subrange(i + 1, i + 1) =~= Seq::<char>::empty());
                assert(views(pieces@) + seq![s@.subrange(i + 1, i + 1)] =~= spec_split(s@.take(i + 1), c));
            }
            start = i + 1;
        } else {
            proof {
                assert(s@.subrange(start as int, i + 1) =~= s@.subrange(start as int, i as int).push(ch));
                assert(views(pieces@) + seq![s@.subrange(start as int, i + 1)] =~= spec_split(s@.take(i + 1), c));
            }
        }
        i = i + 1;
    }
    let last = String::from_str(s.substring_char(start, n));
    let ghost old_pieces = pieces@;
    pieces.push(last);
    proof {
        assert(s@.take(n as int) =~= s@);
        assert(views(pieces@) =~= views(old_pieces) + seq![s@.subrange(start as int, n as int)]);
    }
    pieces
}

/// Splits `s` at every occurrence of `c`, as `str::split_terminator` does.
pub fn split_terminator_char(s: &str, c: char) -> (res: Vec<String>)
    ensures
        views(res@) == spec_split_terminator(s@, c),
{
    let mut pieces = split_char(s, c);
    proof {
        lemma_split_nonempty(s@, c);
    }
    let k = pieces.len();
    if pieces[k - 1].as_str().unicode_len() == 0 {
        let ghost before = pieces@;
        pieces.pop();
        proof {
            assert(views(pieces@) =~= views(before).drop_last());
        }
    }
    pieces
}

/// Removes every leading occurrence of `c` from `s`, as
/// `str::trim_start_matches` with a `char` pattern does.
pub fn trim_start_char(s: &str, c: char) -> (res: &str)
    ensures
        res@ == spec_trim_start_char(s@, c),
{
    let n = s.unicode_len();
    let mut k: usize = 0;
    proof {
        assert(s@.skip(0) =~= s@);
    }
    while k < n && s.get_char(k) == c
        invariant
            n == s@.len(),
            k <= n,
            spec_trim_start_char(s@.skip(k as int), c) == spec_trim_start_char(s@, c),
        decreases n - k,
    {
        proof {
            assert(s@.skip(k as int).drop_first() =~= s@.skip(k + 1));
        }
        k = k + 1;
    }
    let r = s.substring_char(k, n);
    proof {
        assert(r@ =~= s@.skip(k as int));
    }
    r
}


/// Returns whether `a` and `b` hold the same characters.
pub fn str_eq(a: &str, b: &str) -> (res: bool)
    ensures
        res == (a@ == b@),
{
    let n = a.unicode_len();
    if n != b.unicode_len() {
        return false;
    }
    let mut i: usize = 0;
    while i < n
        invariant
            n == a@.len(),
            n == b@.len(),
            i <= n,
            forall|j: int| 0 <= j < i ==> a@[j] == b@[j],
        decreases n - i,
    {
        if a.get_char(i) != b.get_char(i) {
            return false;
        }
        i = i + 1;
    }
    assert(a@ =~= b@);
    true
}

/// Returns whether `s` contains the character `c`.
pub fn contains_char(s: &str, c: char) -> (res: bool)
    ensures
        res == s@.contains(c),
{
    let n = s.unicode_len();
    let mut i: usize = 0;
    while i < n
        invariant
            n == s@.len(),
            i <= n,
            forall|j: int| 0 <= j < i ==> s@[j] != c,
        decreases n - i,
    {
        if s.get_char(i) == c {
            return true;
        }
        i = i + 1;
    }
    false
}


/// No piece of `spec_split(s, c)` contains `c`.
pub proof fn lemma_split_excludes(s: Seq<char>, c: char)
    ensures
        forall|i: int| 0 <= i < spec_split(s, c).len() ==> !(#[trigger] spec_split(s, c)[i]).contains(c),
    decreases s.len(),
{
    if s.len() > 0 {
        lemma_split_excludes(s.drop_last(), c);
        lemma_split_nonempty(s.drop_last(), c);
        let prev = spec_split(s.drop_last(), c);
        if s.last() != c {
            let lp = prev.last().push(s.last());
            assert forall|j: int| 0 <= j < lp.len() implies lp[j] != c by {
                if j < prev.last().len() {
                    assert(lp[j] == prev.last()[j]);
                    assert(prev[prev.len() - 1] == prev.last());
                }
            }
            assert(!lp.contains(c));
        } else {
            assert(!Seq::<char>::empty().contains(c));
        }
    }
}

/// Splitting a text that does not contain `c` yields the text itself.
pub proof fn lemma_split_without_separator(s: Seq<char>, c: char)
    requires
        !s.contains(c),
    ensures
        spec_split(s, c) == seq![s],
    decreases s.len(),
{
    if s.len() == 0 {
        assert(s =~= Seq::<char>::empty());
        assert(spec_split(s, c) =~= seq![s]);
    } else {
        assert(!s.drop_last().contains(c)) by {
            if s.drop_last().contains(c) {
                let j = choose|j: int| 0 <= j < s.drop_last().len() && s.drop_last()[j] == c;
                assert(s[j] == c);
            }
        }
        lemma_split_without_separator(s.drop_last(), c);
        assert(s.last() != c) by {
            assert(s[s.len() - 1] == s.last());
        }
        assert(s.drop_last().push(s.last()) =~= s);
        let prev = spec_split(s.drop_last(), c);
        assert(prev.last() == s.drop_last());
        assert(spec_split(s, c) == prev.update(prev.len() - 1, prev.last().push(s.last())));
        assert(spec_split(s, c) =~= seq![s]);
    }
}

/// Whether `c` has the Unicode `White_Space` property, as
/// `char::is_whitespace` reports.
pub open spec fn spec_is_whitespace(c: char) -> bool {
    ('\u{9}' <= c && c <= '\u{d}') || c == ' ' || c == '\u{85}' || c == '\u{a0}' || c == '\u{1680}'
        || ('\u{2000}' <= c && c <= '\u{200a}') || c == '\u{2028}' || c == '\u{2029}' || c == '\u{202f}'
        || c == '\u{205f}' || c == '\u{3000}'
}

/// Whether `c` is whitespace.
pub fn is_whitespace(c: char) -> (res: bool)
    ensures
        res == spec_is_whitespace(c),
{
    ('\u{9}' <= c && c <= '\u{d}') || c == ' ' || c == '\u{85}' || c == '\u{a0}' || c == '\u{1680}'
        || ('\u{2000}' <= c && c <= '\u{200a}') || c == '\u{2028}' || c == '\u{2029}' || c == '\u{202f}'
        || c == '\u{205f}' || c == '\u{3000}'
}

/// `s` without its leading whitespace.
pub open spec fn spec_trim_start(s: Seq<char>) -> Seq<char>
    decreases s.len(),
{
    if s.len() > 0 && spec_is_whitespace(s[0]) {
        spec_trim_start(s.drop_first())
    } else {
        s
    }
}

/// `s` without its trailing whitespace.
pub open spec fn spec_trim_end(s: Seq<char>) -> Seq<char>
    decreases s.len(),
{
    if s.len() > 0 && spec_is_whitespace(s.last()) {
        spec_trim_end(s.drop_last())
    } else {
        s
    }
}

/// `s` without leading and trailing whitespace, as `str::trim` gives it.
pub open spec fn spec_trim(s: Seq<char>) -> Seq<char> {
    spec_trim_end(spec_trim_start(s))
}

/// Removes leading and trailing whitespace, as `str::trim` does.
pub fn trim(s: &str) -> (res: &str)
    ensures
        res@ == spec_trim(s@),
{
    let n = s.unicode_len();
    let mut a: usize = 0;
    proof {
        assert(s@.skip(0) =~= s@);
    }
    while a < n && is_whitespace(s.get_char(a))
        invariant
            n == s@.len(),
            a <= n,
            spec_trim_start(s@.skip(a as int)) == spec_trim_start(s@),
        decreases n - a,
    {
        proof {
            assert(s@.skip(a as int).drop_first() =~= s@.skip(a + 1));
        }
        a = a + 1;
    }
    let ghost head = s@.skip(a as int);
    assert(spec_trim_start(head) == head);
    let mut b: usize = n;
    proof {
        assert(s@.subrange(a as int, n as int) =~= head);
    }
    while b > a && is_whitespace(s.get_char(b - 1))
        invariant
            n == s@.len(),
            a <= b <= n,
            spec_trim_end(s@.subrange(a as int, b as int)) == spec_trim_end(head),
        decreases b - a,
    {
        proof {
            assert(s@.subrange(a as int, b as int).drop_last() =~= s@.subrange(a as int, b - 1));
        }
        b = b - 1;
    }
    let r = s.substring_char(a, b);
    proof {
        assert(r@ =~= s@.subrange(a as int, b as int));
    }
    r
}

/// `pat` occurs in `s` at position `i`.
pub open spec fn occurs_at(s: Seq<char>, pat: Seq<char>, i: int) -> bool {
    0 <= i && i + pat.len() <= s.len() && s.subrange(i, i + pat.len()) == pat
}

/// `pat` occurs somewhere in `s`.
pub open spec fn seq_contains(s: Seq<char>, pat: Seq<char>) -> bool {
    exists|i: int| #[trigger] occurs_at(s, pat, i)
}

/// Returns whether `pat` occurs in `s`, as `str::contains` does.
pub fn contains_str(s: &str, pat: &str) -> (res: bool)
    ensures
        res == seq_contains(s@, pat@),
{
    let n = s.unicode_len();
    let m = pat.unicode_len();
    if m > n {
        proof {
            assert forall|i: int| !#[trigger] occurs_at(s@, pat@, i) by {}
        }
        return false;
    }
    let mut i: usize = 0;
    while i <= n - m
        invariant
            n == s@.len(),
            m == pat@.len(),
            m <= n,
            i <= n - m + 1,
            forall|k: int| 0 <= k < i ==> !#[trigger] occurs_at(s@, pat@, k),
        decreases n - m + 1 - i,
    {
        let mut j: usize = 0;
        let mut same = true;
        while j < m
            invariant
                n == s@.len(),
                m == pat@.len(),
                i + m <= n,
                j <= m,
                same == (forall|t: int| 0 <= t < j ==> s@[i + t] == pat@[t]),
            decreases m - j,
        {
            if s.get_char(i + j) != pat.get_char(j) {
                same = false;
            }
            j = j + 1;
        }
        if same {
            proof {
                assert(s@.subrange(i as int, i + m) =~= pat@);
                assert(occurs_at(s@, pat@, i as int));
            }
            return true;
        }
        proof {
            assert(!occurs_at(s@, pat@, i as int)) by {
                if s@.subrange(i as int, i + m) == pat@ {
                    assert forall|t: int| 0 <= t < m implies s@[i + t] == pat@[t] by {
                        assert(s@.subrange(i as int, i + m)[t] == s@[i + t]);
                    }
                }
            }
        }
        i = i + 1;
    }
    false
}

/// `s` with every non-overlapping occurrence of `pat`, from the left,
/// replaced by `rep`, as `str::replace` gives it for a non-empty pattern.
pub open spec fn spec_replace_all(s: Seq<char>, pat: Seq<char>, rep: Seq<char>) -> Seq<char>
    decreases s.len(),
{
    if s.len() == 0 {
        s
    } else if pat.len() > 0 && seq_starts_with(s, pat) {
        rep + spec_replace_all(s.skip(pat.len() as int), pat, rep)
    } else {
        seq![s[0]] + spec_replace_all(s.drop_first(), pat, rep)
    }
}

/// Replaces every occurrence of a non-empty `pat` in `s` by `rep`, as
/// `str::replace` does.
pub fn replace_all(s: &str, pat: &str, rep: &str) -> (res: String)
    requires
        pat@.len() > 0,
    ensures
        res@ == spec_replace_all(s@, pat@, rep@),
{
    let n = s.unicode_len();
    let m = pat.unicode_len();
    let mut out = String::new();
    let mut i: usize = 0;
    proof {
        assert(s@.skip(0) =~= s@);
    }
    while i < n
        invariant
            n == s@.len(),
            m == pat@.len(),
            m > 0,
            i <= n,
            out@ + spec_replace_all(s@.skip(i as int), pat@, rep@) == spec_replace_all(s@, pat@, rep@),
        decreases n - i,
    {
        let rest = s.substring_char(i, n);
        proof {
            assert(rest@ =~= s@.skip(i as int));
        }
        if starts_with(rest, pat) {
            proof {
                assert(s@.skip(i as int).skip(m as int) =~= s@.skip(i + m));
            }
            let ghost old_out = out@;
            out.append(rep);
            proof {
                assert(old_out + (rep@ + spec_replace_all(s@.skip(i + m), pat@, rep@))
                    =~= out@ + spec_replace_all(s@.skip(i + m), pat@, rep@));
            }
            i = i + m;
        } else {
            let one = s.substring_char(i, i + 1);
            proof {
                assert(one@ =~= seq![s@[i as int]]);
                assert(s@.skip(i as int).drop_first() =~= s@.skip(i + 1));
                assert(s@.skip(i as int)[0] == s@[i as int]);
            }
            let ghost old_out = out@;
            out.append(one);
            proof {
                assert(old_out + (seq![s@[i as int]] + spec_replace_all(s@.skip(i + 1), pat@, rep@))
                    =~= out@ + spec_replace_all(s@.skip(i + 1), pat@, rep@));
            }
            i = i + 1;
        }
    }
    proof {
        assert(s@.skip(i as int).len() == 0);
        assert(out@ + spec_replace_all(s@.skip(i as int), pat@, rep@) =~= out@);
    }
    out
}

/// No piece of `spec_split(s, c)` holds a character that `s` lacks, nor
/// the separator itself.
pub proof fn lemma_split_avoids(s: Seq<char>, c: char, x: char)
    requires
        x == c || !s.contains(x),
    ensures
        forall|i: int| 0 <= i < spec_split(s, c).len() ==> !(#[trigger] spec_split(s, c)[i]).contains(x),
    decreases s.len(),
{
    if s.len() > 0 {
        assert(x == c || !s.drop_last().contains(x)) by {
            if x != c && s.drop_last().contains(x) {
                let j = choose|j: int| 0 <= j < s.drop_last().len() && s.drop_last()[j] == x;
                assert(s[j] == x);
            }
        }
        lemma_split_avoids(s.drop_last(), c, x);
        lemma_split_nonempty(s.drop_last(), c);
        let prev = spec_split(s.drop_last(), c);
        if s.last() != c {
            assert(s.last() != x) by {
                if x != c {
                    assert(s[s.len() - 1] == s.last());
                }
            }
            let lp = prev.last().push(s.last());
            assert forall|j: int| 0 <= j < lp.len() implies lp[j] != x by {
                if j < prev.last().len() {
                    assert(lp[j] == prev.last()[j]);
                    assert(prev[prev.len() - 1] == prev.last());
                }
            }
            assert(!lp.contains(x));
        } else {
            assert(!Seq::<char>::empty().contains(x));
        }
    }
}

/// The pieces of `spec_split_terminator(s, c)` avoid what those of
/// `spec_split(s, c)` avoid.
pub proof fn lemma_split_terminator_avoids(s: Seq<char>, c: char, x: char)
    requires
        x == c || !s.contains(x),
    ensures
        forall|i: int| 0 <= i < spec_split_terminator(s, c).len() ==> !(#[trigger] spec_split_terminator(s, c)[i]).contains(x),
{
    lemma_split_avoids(s, c, x);
    lemma_split_nonempty(s, c);
    let p = spec_split(s, c);
    assert forall|i: int| 0 <= i < spec_split_terminator(s, c).len() implies !(#[trigger] spec_split_terminator(s, c)[i]).contains(x) by {
        assert(spec_split_terminator(s, c)[i] == p[i]);
    }
}

} // verus!
