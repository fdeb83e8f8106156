//! Text primitives on sequences of characters: searching, replacing,
//! trimming and splitting on whitespace, with their specifications.
use vstd::prelude::*;

verus! {

/// `p` occurs in `s` at index `i`.
pub open spec fn occurs_at(s: Seq<char>, p: Seq<char>, i: int) -> bool {
    0 <= i && i + p.len() <= s.len() && s.subrange(i, i + p.len()) == p
}

/// `i` is the first index at which `p` occurs in `s`.
pub open spec fn is_first_occurrence(s: Seq<char>, p: Seq<char>, i: int) -> bool {
    occurs_at(s, p, i) && forall|j: int| 0 <= j < i ==> !occurs_at(s, p, j)
}

/// The index of the first occurrence of `p` in `s` (what `str::find` returns,
/// counted in characters).
pub open spec fn find(s: Seq<char>, p: Seq<char>) -> Option<int> {
    if exists|i: int| is_first_occurrence(s, p, i) {
        Some(choose|i: int| is_first_occurrence(s, p, i))
    } else {
        None
    }
}

/// `s` contains `p` somewhere.
pub open spec fn contains(s: Seq<char>, p: Seq<char>) -> bool {
    exists|i: int| occurs_at(s, p, i)
}

/// Every non-overlapping occurrence of `p` in `s`, scanned from the left,
/// replaced by `r` (what `str::replace` does for a non-empty pattern).
pub open spec fn replace_all(s: Seq<char>, p: Seq<char>, r: Seq<char>) -> Seq<char>
    decreases s.len(),
{
    if p.len() == 0 {
        s
    } else {
        match find(s, p) {
            Some(i) => {
                if 0 <= i && i + p.len() <= s.len() {
                    s.take(i) + r + replace_all(s.skip(i + p.len()), p, r)
                } else {
                    s
                }
            },
            None => s,
        }
    }
}

/// The characters with the Unicode `White_Space` property (`char::is_whitespace`).
pub open spec fn is_whitespace(c: char) -> bool {
    let n = c as u32;
    ||| 0x09 <= n <= 0x0d
    ||| n == 0x20
    ||| n == 0x85
    ||| n == 0xa0
    ||| n == 0x1680
    ||| 0x2000 <= n <= 0x200a
    ||| n == 0x2028
    ||| n == 0x2029
    ||| n == 0x202f
    ||| n == 0x205f
    ||| n == 0x3000
}

/// `s` without its leading whitespace.
pub open spec fn trim_start(s: Seq<char>) -> Seq<char>
    decreases s.len(),
{
    if s.len() > 0 && is_whitespace(s[0]) {
        trim_start(s.drop_first())
    } else {
        s
    }
}

/// `s` without its trailing whitespace.
pub open spec fn trim_end(s: Seq<char>) -> Seq<char>
    decreases s.len(),
{
    if s.len() > 0 && is_whitespace(s.last()) {
        trim_end(s.drop_last())
    } else {
        s
    }
}

/// `s` without leading and trailing whitespace (`str::trim`).
pub open spec fn trim(s: Seq<char>) -> Seq<char> {
    trim_end(trim_start(s))
}

/// The whitespace-separated words of `s`, scanned left to right: `cur` is the
/// word being read and `acc` the words already complete.
pub open spec fn words_from(s: Seq<char>, cur: Seq<char>, acc: Seq<Seq<char>>) -> Seq<Seq<char>>
    decreases s.len(),
{
    if s.len() == 0 {
        if cur.len() > 0 {
            acc.push(cur)
        } else {
            acc
        }
    } else if is_whitespace(s[0]) {
        words_from(s.drop_first(), seq![], if cur.len() > 0 { acc.push(cur) } else { acc })
    } else {
        words_from(s.drop_first(), cur.push(s[0]), acc)
    }
}

/// The words of `s` (what `str::split_whitespace` yields).
pub open spec fn words(s: Seq<char>) -> Seq<Seq<char>> {
    words_from(s, seq![], seq![])
}

/// A view of a vector of character vectors.
pub open spec fn words_view(v: Seq<Vec<char>>) -> Seq<Seq<char>> {
    v.map_values(|w: Vec<char>| w@)
}

pub proof fn lemma_first_occurrence_is_found(s: Seq<char>, p: Seq<char>, i: int)
    requires
        is_first_occurrence(s, p, i),
    ensures
        find(s, p) == Some(i),
{
    let k = choose|k: int| is_first_occurrence(s, p, k);
    assert(is_first_occurrence(s, p, k));
    if k < i {
        assert(!occurs_at(s, p, k));
    } else if i < k {
        assert(!occurs_at(s, p, i));
    }
}

pub proof fn lemma_no_occurrence_not_found(s: Seq<char>, p: Seq<char>)
    requires
        forall|j: int| !occurs_at(s, p, j),
    ensures
        find(s, p) is None,
{
}

/// When `p` occurs in `s` at all, `find` reports an occurrence.
pub proof fn lemma_occurrence_is_found(s: Seq<char>, p: Seq<char>, i: int)
    requires
        occurs_at(s, p, i),
    ensures
        find(s, p) is Some,
    decreases i,
{
    if forall|j: int| 0 <= j < i ==> !occurs_at(s, p, j) {
        lemma_first_occurrence_is_found(s, p, i);
    } else {
        let j = choose|j: int| 0 <= j < i && occurs_at(s, p, j);
        lemma_occurrence_is_found(s, p, j);
    }
}

/// Occurrences in a suffix are occurrences in the whole, shifted.
pub proof fn lemma_occurs_in_skip(s: Seq<char>, p: Seq<char>, k: int, j: int)
    requires
        0 <= k <= s.len(),
    ensures
        occurs_at(s.skip(k), p, j) <==> (j >= 0 && occurs_at(s, p, j + k)),
{
    if j >= 0 && j + p.len() <= s.len() - k {
        assert(s.skip(k).subrange(j, j + p.len()) =~= s.subrange(j + k, j + k + p.len()));
    }
}

/// A text in which `p` does not occur is left unchanged by replacing `p`.
pub proof fn lemma_replace_absent(s: Seq<char>, p: Seq<char>, r: Seq<char>)
    requires
        !contains(s, p),
    ensures
        replace_all(s, p, r) == s,
{
    if p.len() != 0 {
        lemma_no_occurrence_not_found(s, p);
    }
}

/// A text without the first character of a pattern does not contain it.
pub proof fn lemma_absent_first_char(s: Seq<char>, p: Seq<char>)
    requires
        p.len() > 0,
        forall|i: int| 0 <= i < s.len() ==> s[i] != p[0],
    ensures
        !contains(s, p),
{
    assert forall|i: int| !occurs_at(s, p, i) by {
        if occurs_at(s, p, i) {
            assert(s.subrange(i, i + p.len())[0] == s[i]);
        }
    }
}

/// The characters of a string slice.
pub fn chars_of(s: &str) -> (v: Vec<char>)
    ensures
        v@ == s@,
{
    let mut v: Vec<char> = Vec::new();
    for c in it: s.chars()
        invariant
            it.seq() == s@,
            v@ == it.seq().take(it.index() as int),
    {
        v.push(c);
    }
    v
}

/// `String::push`: the string grows by the one character, at its end.
#[verifier::external_body]
fn push_char(s: &mut String, c: char)
    ensures
        final(s)@ == old(s)@.push(c),
{
    s.push(c);
}

/// The string made of the given characters.
pub fn string_of(cs: &[char]) -> (s: String)
    ensures
        s@ == cs@,
{
    let mut s = String::new();
    let n = cs.len();
    for i in 0..n
        invariant
            n == cs@.len(),
            s@ == cs@.take(i as int),
    {
        push_char(&mut s, cs[i]);
        assert(cs@.take(i as int).push(cs@[i as int]) =~= cs@.take(i + 1));
    }
    assert(cs@.take(n as int) =~= cs@);
    s
}

/// Appends `s[a..b]` to `out`.
pub fn extend_range(out: &mut Vec<char>, s: &[char], a: usize, b: usize)
    requires
        a <= b <= s@.len(),
    ensures
        final(out)@ == old(out)@ + s@.subrange(a as int, b as int),
{
    let ghost start = out@;
    let mut i = a;
    while i < b
        invariant
            a <= i <= b <= s@.len(),
            out@ == start + s@.subrange(a as int, i as int),
        decreases b - i,
    {
        out.push(s[i]);
        assert(s@.subrange(a as int, i as int).push(s@[i as int]) =~= s@.subrange(a as int, i + 1));
        i += 1;
    }
}

/// The characters `s[a..b]`.
pub fn sub_chars(s: &[char], a: usize, b: usize) -> (v: Vec<char>)
    requires
        a <= b <= s@.len(),
    ensures
        v@ == s@.subrange(a as int, b as int),
{
    let mut v: Vec<char> = Vec::new();
    extend_range(&mut v, s, a, b);
    v
}

/// Whether two character sequences are equal.
pub fn chars_eq(a: &[char], b: &[char]) -> (res: bool)
    ensures
        res == (a@ == b@),
{
    if a.len() != b.len() {
        return false;
    }
    let n = a.len();
    for i in 0..n
        invariant
            n == a@.len() == b@.len(),
            forall|j: int| 0 <= j < i ==> a@[j] == b@[j],
    {
        if a[i] != b[i] {
            return false;
        }
    }
    assert(a@ =~= b@);
    true
}

/// Whether `p` occurs in `s` at index `i`.
pub fn occurs_at_exec(s: &[char], p: &[char], i: usize) -> (res: bool)
    ensures
        res == occurs_at(s@, p@, i as int),
{
    if i > s.len() || p.len() > s.len() - i {
        return false;
    }
    let n = p.len();
    for j in 0..n
        invariant
            n == p@.len(),
            i + n <= s.len(),
            forall|k: int| 0 <= k < j ==> s@[i + k] == p@[k],
    {
        assert(i + j < i + n);
        if s[i + j] != p[j] {
            assert(s@.subrange(i as int, i + n)[j as int] == s@[i + j]);
            return false;
        }
    }
    assert(s@.subrange(i as int, i + n) =~= p@);
    true
}

/// The first index at or after `start` at which `p` occurs in `s`.
pub fn find_from(s: &[char], p: &[char], start: usize) -> (res: Option<usize>)
    requires
        start <= s@.len(),
    ensures
        match res {
            Some(j) => start <= j && find(s@.skip(start as int), p@) == Some(j - start),
            None => find(s@.skip(start as int), p@) is None,
        },
{
    let ghost t = s@.skip(start as int);
    let mut i = start;
    while i < s.len()
        invariant
            start <= i <= s@.len(),
            t == s@.skip(start as int),
            start <= s@.len(),
            forall|j: int| start <= j < i ==> !occurs_at(s@, p@, j),
        decreases s@.len() - i,
    {
        if occurs_at_exec(s, p, i) {
            proof {
                lemma_occurs_in_skip(s@, p@, start as int, i - start);
                assert forall|j: int| 0 <= j < i - start implies !occurs_at(t, p@, j) by {
                    lemma_occurs_in_skip(s@, p@, start as int, j);
                }
                lemma_first_occurrence_is_found(t, p@, i - start);
            }
            return Some(i);
        }
        i += 1;
    }
    if occurs_at_exec(s, p, i) {
        proof {
            lemma_occurs_in_skip(s@, p@, start as int, i - start);
            assert forall|j: int| 0 <= j < i - start implies !occurs_at(t, p@, j) by {
                lemma_occurs_in_skip(s@, p@, start as int, j);
            }
            lemma_first_occurrence_is_found(t, p@, i - start);
        }
        return Some(i);
    }
    proof {
        assert forall|j: int| !occurs_at(t, p@, j) by {
            lemma_occurs_in_skip(s@, p@, start as int, j);
        }
        lemma_no_occurrence_not_found(t, p@);
    }
    None
}

/// `s` with every occurrence of the non-empty pattern `p` replaced by `r`.
pub fn replace_chars(s: &[char], p: &[char], r: &[char]) -> (out: Vec<char>)
    requires
        p@.len() > 0,
    ensures
        out@ == replace_all(s@, p@, r@),
{
    let mut out: Vec<char> = Vec::new();
    let mut k: usize = 0;
    assert(s@.skip(0) =~= s@);
    loop
        invariant
            k <= s@.len(),
            p@.len() > 0,
            replace_all(s@, p@, r@) == out@ + replace_all(s@.skip(k as int), p@, r@),
        decreases s@.len() - k,
    {
        match find_from(s, p, k) {
            None => {
                extend_range(&mut out, s, k, s.len());
                assert(s@.skip(k as int) =~= s@.subrange(k as int, s@.len() as int));
                return out;
            },
            Some(j) => {
                let ghost t = s@.skip(k as int);
                let ghost i = j - k;
                assert(is_first_occurrence(t, p@, i));
                proof { lemma_occurs_in_skip(s@, p@, k as int, i); }
                assert(j + p@.len() <= s.len());
                assert(t.take(i) =~= s@.subrange(k as int, j as int));
                assert(t.skip(i + p@.len()) =~= s@.skip(j + p@.len()));
                extend_range(&mut out, s, k, j);
                let n = r.len();
                extend_range(&mut out, r, 0, n);
                assert(r@.subrange(0, n as int) =~= r@);
                k = j + p.len();
            },
        }
    }
}

/// Whether `c` is whitespace (`char::is_whitespace`).
pub fn is_whitespace_exec(c: char) -> (res: bool)
    ensures
        res == is_whitespace(c),
{
    let n = c as u32;
    (0x09 <= n && n <= 0x0d) || n == 0x20 || n == 0x85 || n == 0xa0 || n == 0x1680 || (0x2000 <= n
        && n <= 0x200a) || n == 0x2028 || n == 0x2029 || n == 0x202f || n == 0x205f || n == 0x3000
}

/// The index range of `s[lo..hi]` that remains after trimming whitespace.
pub fn trim_bounds(s: &[char], lo: usize, hi: usize) -> (res: (usize, usize))
    requires
        lo <= hi <= s@.len(),
    ensures
        lo <= res.0 <= res.1 <= hi,
        s@.subrange(res.0 as int, res.1 as int) == trim(s@.subrange(lo as int, hi as int)),
{
    let ghost whole = s@.subrange(lo as int, hi as int);
    let mut a = lo;
    while a < hi && is_whitespace_exec(s[a])
        invariant
            lo <= a <= hi <= s@.len(),
            trim_start(whole) == trim_start(s@.subrange(a as int, hi as int)),
        decreases hi - a,
    {
        assert(s@.subrange(a as int, hi as int).drop_first() =~= s@.subrange(a + 1, hi as int));
        a += 1;
    }
    assert(trim_start(s@.subrange(a as int, hi as int)) == s@.subrange(a as int, hi as int));
    let mut b = hi;
    while b > a && is_whitespace_exec(s[b - 1])
        invariant
            lo <= a <= b <= hi <= s@.len(),
            trim(whole) == trim_end(s@.subrange(a as int, b as int)),
        decreases b - a,
    {
        assert(s@.subrange(a as int, b as int).drop_last() =~= s@.subrange(a as int, b - 1));
        b -= 1;
    }
    (a, b)
}

/// The whitespace-separated words of `s`.
pub fn split_words(s: &[char]) -> (res: Vec<Vec<char>>)
    ensures
        words_view(res@) == words(s@),
{
    let mut acc: Vec<Vec<char>> = Vec::new();
    let mut cur: Vec<char> = Vec::new();
    let n = s.len();
    assert(s@.skip(0) =~= s@);
    assert(words_view(acc@) =~= Seq::<Seq<char>>::empty());
    assert(cur@ =~= Seq::<char>::empty());
    for i in 0..n
        invariant
            n == s@.len(),
            words(s@) == words_from(s@.skip(i as int), cur@, words_view(acc@)),
    {
        let ghost rest = s@.skip(i as int);
        assert(rest.drop_first() =~= s@.skip(i + 1));
        if is_whitespace_exec(s[i]) {
            if cur.len() > 0 {
                let ghost old_acc = acc@;
                acc.push(cur);
                assert(words_view(acc@) =~= words_view(old_acc).push(cur@));
                cur = Vec::new();
            }
            assert(cur@ =~= Seq::<char>::empty());
        } else {
            cur.push(s[i]);
        }
    }
    if cur.len() > 0 {
        let ghost old_acc = acc@;
        let ghost c = cur@;
        acc.push(cur);
        assert(words_view(acc@) =~= words_view(old_acc).push(c));
    }
    acc
}

} // verus!
