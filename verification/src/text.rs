//! Character-sequence utilities shared by the parsers: whitespace,
//! trimming, prefix tests, substring search, line splitting and joining.

use vstd::prelude::*;
use vstd::std_specs::iter::IteratorSpec;

verus! {

/// The Unicode `White_Space` property, as `char::is_whitespace` uses it.
pub open spec fn is_ws(c: char) -> bool {
    ||| ('\u{9}' <= c && c <= '\u{d}')
    ||| c == ' '
    ||| c == '\u{85}'
    ||| c == '\u{a0}'
    ||| c == '\u{1680}'
    ||| ('\u{2000}' <= c && c <= '\u{200a}')
    ||| c == '\u{2028}'
    ||| c == '\u{2029}'
    ||| c == '\u{202f}'
    ||| c == '\u{205f}'
    ||| c == '\u{3000}'
}

/// Whether `c` is Unicode whitespace.
pub fn is_whitespace(c: char) -> (b: bool)
    ensures
        b == is_ws(c),
{
    ('\u{9}' <= c && c <= '\u{d}') || c == ' ' || c == '\u{85}' || c == '\u{a0}' || c == '\u{1680}'
        || ('\u{2000}' <= c && c <= '\u{200a}') || c == '\u{2028}' || c == '\u{2029}'
        || c == '\u{202f}' || c == '\u{205f}' || c == '\u{3000}'
}

/// The index of the first non-whitespace character at or after `i`
/// (the length when there is none).
pub open spec fn first_non_ws(s: Seq<char>, i: int) -> int
    decreases s.len() - i,
{
    if i >= s.len() {
        s.len() as int
    } else if is_ws(s[i]) {
        first_non_ws(s, i + 1)
    } else {
        i
    }
}

/// One past the last non-whitespace character before `j` (0 when there is none).
pub open spec fn end_non_ws(s: Seq<char>, j: int) -> int
    decreases j,
{
    if j <= 0 {
        0
    } else if is_ws(s[j - 1]) {
        end_non_ws(s, j - 1)
    } else {
        j
    }
}

/// `s` without its leading and trailing whitespace.
pub open spec fn trim(s: Seq<char>) -> Seq<char> {
    let a = first_non_ws(s, 0);
    let b = end_non_ws(s, s.len() as int);
    if a < b {
        s.subrange(a, b)
    } else {
        Seq::empty()
    }
}

/// `s` without its leading whitespace.
pub open spec fn trim_start(s: Seq<char>) -> Seq<char> {
    s.subrange(first_non_ws(s, 0), s.len() as int)
}

proof fn lemma_first_non_ws_bounds(s: Seq<char>, i: int)
    requires
        0 <= i <= s.len(),
    ensures
        i <= first_non_ws(s, i) <= s.len(),
    decreases s.len() - i,
{
    if i < s.len() && is_ws(s[i]) {
        lemma_first_non_ws_bounds(s, i + 1);
    }
}

proof fn lemma_end_non_ws_bounds(s: Seq<char>, j: int)
    requires
        0 <= j <= s.len(),
    ensures
        0 <= end_non_ws(s, j) <= j,
    decreases j,
{
    if j > 0 && is_ws(s[j - 1]) {
        lemma_end_non_ws_bounds(s, j - 1);
    }
}

/// A line that is not blank starts, after its leading whitespace, with the
/// first character of its trimmed form.
pub proof fn lemma_trim_start_head(s: Seq<char>)
    requires
        trim(s).len() > 0,
    ensures
        trim_start(s).len() > 0,
        trim_start(s)[0] == trim(s)[0],
{
    lemma_first_non_ws_bounds(s, 0);
    lemma_end_non_ws_bounds(s, s.len() as int);
}

proof fn lemma_end_non_ws_past(s: Seq<char>, j: int, n: int)
    requires
        0 < n <= j <= s.len(),
        !is_ws(s[n - 1]),
    ensures
        end_non_ws(s, j) >= n,
    decreases j,
{
    if j > n && is_ws(s[j - 1]) {
        lemma_end_non_ws_past(s, j - 1, n);
    }
}

/// Trimming keeps a head of `n` characters none of which is whitespace.
pub proof fn lemma_trim_keeps_head(s: Seq<char>, n: int)
    requires
        0 < n <= s.len(),
        forall|k: int| 0 <= k < n ==> !is_ws(#[trigger] s[k]),
    ensures
        n <= trim(s).len() <= s.len(),
        trim(s).subrange(0, n) == s.subrange(0, n),
{
    assert(!is_ws(s[0]));
    assert(!is_ws(s[n - 1]));
    lemma_end_non_ws_past(s, s.len() as int, n);
    lemma_end_non_ws_bounds(s, s.len() as int);
    assert(trim(s).subrange(0, n) =~= s.subrange(0, n));
}

/// A non-empty text without line feeds is one line.
pub proof fn lemma_lines_single(x: Seq<char>)
    requires
        x.len() > 0,
        forall|k: int| 0 <= k < x.len() ==> #[trigger] x[k] != '\n',
    ensures
        lines(x) == seq![x],
{
    lemma_next_newline_none(x, 0);
    assert(line_body(x, 0, x.len() as int) =~= x);
}

proof fn lemma_next_newline_none(x: Seq<char>, i: int)
    requires
        0 <= i <= x.len(),
        forall|k: int| 0 <= k < x.len() ==> #[trigger] x[k] != '\n',
    ensures
        next_newline(x, i) == x.len(),
    decreases x.len() - i,
{
    if i < x.len() {
        lemma_next_newline_none(x, i + 1);
    }
}

/// Whether some character of `s` is not whitespace.
pub open spec fn has_non_ws(s: Seq<char>) -> bool {
    exists|k: int| 0 <= k < s.len() && !is_ws(#[trigger] s[k])
}

/// Whether `p` occurs in `s` at index `i`.
pub open spec fn matches_at(s: Seq<char>, i: int, p: Seq<char>) -> bool {
    0 <= i && i + p.len() <= s.len() && s.subrange(i, i + p.len()) == p
}

/// Whether `s` begins with `p`.
pub open spec fn starts_with(s: Seq<char>, p: Seq<char>) -> bool {
    matches_at(s, 0, p)
}

/// The first index at or after `i` where `p` occurs in `s`.
pub open spec fn find_from(s: Seq<char>, p: Seq<char>, i: int) -> Option<int>
    decreases s.len() + 1 - i,
{
    if i < 0 || i + p.len() > s.len() {
        None
    } else if matches_at(s, i, p) {
        Some(i)
    } else {
        find_from(s, p, i + 1)
    }
}

/// The last index below `j` where `p` occurs in `s`.
pub open spec fn rfind_below(s: Seq<char>, p: Seq<char>, j: int) -> Option<int>
    decreases j,
{
    if j <= 0 {
        None
    } else if matches_at(s, j - 1, p) {
        Some(j - 1)
    } else {
        rfind_below(s, p, j - 1)
    }
}

/// The index reached from `i` by stripping as many copies of `p` as follow.
pub open spec fn strip_prefixes_from(s: Seq<char>, p: Seq<char>, i: int) -> int
    decreases s.len() - i,
{
    if p.len() > 0 && i >= 0 && matches_at(s, i, p) {
        strip_prefixes_from(s, p, i + p.len())
    } else {
        i
    }
}

/// `s` with every leading copy of `p` removed.
pub open spec fn trim_start_matches(s: Seq<char>, p: Seq<char>) -> Seq<char> {
    s.subrange(strip_prefixes_from(s, p, 0), s.len() as int)
}

/// The first index at or after `i` that holds a line feed (the length when none).
pub open spec fn next_newline(s: Seq<char>, i: int) -> int
    decreases s.len() - i,
{
    if i >= s.len() {
        s.len() as int
    } else if s[i] == '\n' {
        i
    } else {
        next_newline(s, i + 1)
    }
}

/// A line as `str::lines` yields it: without its line feed and, when it had
/// one, without a carriage return just before it.
pub open spec fn line_body(s: Seq<char>, i: int, k: int) -> Seq<char> {
    if k < s.len() && k > i && s[k - 1] == '\r' {
        s.subrange(i, k - 1)
    } else {
        s.subrange(i, k)
    }
}

/// The lines of `s` from index `i` on, split as `str::lines` splits them:
/// at `\n` or `\r\n`, with no empty line after a final line ending.
pub open spec fn lines_from(s: Seq<char>, i: int) -> Seq<Seq<char>>
    decreases s.len() - i,
{
    if i < 0 || i >= s.len() {
        Seq::empty()
    } else {
        let k = next_newline(s, i);
        proof {
            lemma_next_newline_bounds(s, i);
        }
        if k < s.len() {
            seq![line_body(s, i, k)] + lines_from(s, k + 1)
        } else {
            seq![line_body(s, i, k)]
        }
    }
}

/// The lines of `s`.
pub open spec fn lines(s: Seq<char>) -> Seq<Seq<char>> {
    lines_from(s, 0)
}

/// The lines of `ls` joined with `\n` between them.
pub open spec fn join_lines(ls: Seq<Seq<char>>) -> Seq<char>
    decreases ls.len(),
{
    if ls.len() == 0 {
        Seq::empty()
    } else if ls.len() == 1 {
        ls[0]
    } else {
        join_lines(ls.drop_last()) + seq!['\n'] + ls.last()
    }
}

pub proof fn lemma_next_newline_bounds(s: Seq<char>, i: int)
    requires
        0 <= i <= s.len(),
    ensures
        i <= next_newline(s, i) <= s.len(),
        next_newline(s, i) < s.len() ==> s[next_newline(s, i)] == '\n',
    decreases s.len() - i,
{
    if i < s.len() && s[i] != '\n' {
        lemma_next_newline_bounds(s, i + 1);
    }
}

/// The contents of a vector of character vectors.
pub open spec fn vecs_view(v: Seq<Vec<char>>) -> Seq<Seq<char>> {
    v.map_values(|l: Vec<char>| l@)
}

proof fn lemma_next_newline_shift(p: Seq<char>, y: Seq<char>, j: int)
    requires
        0 <= j <= y.len(),
    ensures
        next_newline(p + y, p.len() + j) == p.len() + next_newline(y, j),
    decreases y.len() - j,
{
    let s = p + y;
    if j < y.len() {
        assert(s[p.len() + j] == y[j]);
        if y[j] != '\n' {
            lemma_next_newline_shift(p, y, j + 1);
        }
    }
}

/// The lines of `p + y` from `p.len() + j` on are those of `y` from `j` on.
pub proof fn lemma_lines_shift(p: Seq<char>, y: Seq<char>, j: int)
    requires
        0 <= j,
    ensures
        lines_from(p + y, p.len() + j) == lines_from(y, j),
    decreases y.len() - j,
{
    let s = p + y;
    let i = p.len() + j;
    if j < y.len() {
        lemma_next_newline_shift(p, y, j);
        lemma_next_newline_bounds(y, j);
        let k = next_newline(y, j);
        let ks = p.len() + k;
        if ks > i {
            assert(s[ks - 1] == y[k - 1]);
        }
        assert(s.subrange(i, ks) =~= y.subrange(j, k));
        if ks > i {
            assert(s.subrange(i, ks - 1) =~= y.subrange(j, k - 1));
        }
        assert(line_body(s, i, ks) == line_body(y, j, k));
        if k < y.len() {
            lemma_lines_shift(p, y, k + 1);
        }
    }
}

proof fn lemma_next_newline_before(x: Seq<char>, y: Seq<char>, i: int)
    requires
        0 <= i <= x.len(),
    ensures
        next_newline(x + seq!['\n'] + y, i) == next_newline(x, i),
    decreases x.len() - i,
{
    let s = x + seq!['\n'] + y;
    if i < x.len() {
        assert(s[i] == x[i]);
        if x[i] != '\n' {
            lemma_next_newline_before(x, y, i + 1);
        }
    } else {
        assert(s[i] == '\n');
    }
}

proof fn lemma_lines_before(x: Seq<char>, y: Seq<char>, i: int)
    requires
        0 <= i < x.len(),
        x.last() != '\n',
        x.last() != '\r',
    ensures
        lines_from(x + seq!['\n'] + y, i) == lines_from(x, i) + lines_from(x + seq!['\n'] + y, x.len() as int + 1),
    decreases x.len() - i,
{
    let s = x + seq!['\n'] + y;
    lemma_next_newline_before(x, y, i);
    lemma_next_newline_bounds(x, i);
    let k = next_newline(x, i);
    if k > i {
        assert(s[k - 1] == x[k - 1]);
    }
    assert(s.subrange(i, k) =~= x.subrange(i, k));
    if k > i {
        assert(s.subrange(i, k - 1) =~= x.subrange(i, k - 1));
    }
    if k < x.len() {
        assert(k + 1 < x.len());
        lemma_lines_before(x, y, k + 1);
        assert(line_body(s, i, k) == line_body(x, i, k));
        assert(lines_from(s, i) =~= seq![line_body(x, i, k)] + lines_from(s, k + 1));
        assert(lines_from(x, i) =~= seq![line_body(x, i, k)] + lines_from(x, k + 1));
    } else {
        assert(line_body(s, i, k) == line_body(x, i, k));
        assert(lines_from(s, i) =~= seq![line_body(x, i, k)] + lines_from(s, k + 1));
        assert(lines_from(x, i) =~= seq![line_body(x, i, k)]);
    }
}

/// A line feed after text that ends neither in a line feed nor in a
/// carriage return splits the lines in two: those of the text, then those
/// of what follows.
pub proof fn lemma_lines_concat(x: Seq<char>, y: Seq<char>)
    requires
        x.len() > 0,
        x.last() != '\n',
        x.last() != '\r',
    ensures
        lines(x + seq!['\n'] + y) == lines(x) + lines(y),
{
    lemma_lines_before(x, y, 0);
    let p = x + seq!['\n'];
    assert(x + seq!['\n'] + y == p + y);
    lemma_lines_shift(p, y, 0);
}

/// A copy of `v[lo..hi]`.
pub fn slice_vec(v: &Vec<char>, lo: usize, hi: usize) -> (r: Vec<char>)
    requires
        lo <= hi <= v.len(),
    ensures
        r@ == v@.subrange(lo as int, hi as int),
{
    let mut r: Vec<char> = Vec::new();
    let mut k: usize = lo;
    while k < hi
        invariant
            lo <= k <= hi <= v.len(),
            r@ == v@.subrange(lo as int, k as int),
        decreases hi - k,
    {
        r.push(v[k]);
        k = k + 1;
    }
    r
}

/// `v` without leading whitespace.
pub fn trim_start_vec(v: &Vec<char>) -> (r: Vec<char>)
    ensures
        r@ == trim_start(v@),
{
    let n = v.len();
    let mut a: usize = 0;
    while a < n && is_whitespace(v[a])
        invariant
            a <= n == v.len(),
            first_non_ws(v@, a as int) == first_non_ws(v@, 0),
        decreases n - a,
    {
        a = a + 1;
    }
    slice_vec(v, a, n)
}

/// `v` without leading and trailing whitespace.
pub fn trim_vec(v: &Vec<char>) -> (r: Vec<char>)
    ensures
        r@ == trim(v@),
{
    let n = v.len();
    let mut a: usize = 0;
    while a < n && is_whitespace(v[a])
        invariant
            a <= n == v.len(),
            first_non_ws(v@, a as int) == first_non_ws(v@, 0),
        decreases n - a,
    {
        a = a + 1;
    }
    let mut b: usize = n;
    while b > 0 && is_whitespace(v[b - 1])
        invariant
            b <= n == v.len(),
            end_non_ws(v@, b as int) == end_non_ws(v@, n as int),
        decreases b,
    {
        b = b - 1;
    }
    if a < b {
        slice_vec(v, a, b)
    } else {
        Vec::new()
    }
}

/// Whether `p` occurs in `v` at index `i`.
pub fn matches_at_vec(v: &Vec<char>, i: usize, p: &Vec<char>) -> (b: bool)
    ensures
        b == matches_at(v@, i as int, p@),
{
    if i > v.len() || p.len() > v.len() - i {
        return false;
    }
    let mut k: usize = 0;
    while k < p.len()
        invariant
            i + p.len() <= v.len(),
            k <= p.len(),
            forall|m: int| 0 <= m < k ==> v@[i + m] == p@[m],
        decreases p.len() - k,
    {
        if v[i + k] != p[k] {
            assert(v@.subrange(i as int, i + p.len())[k as int] != p@[k as int]);
            return false;
        }
        k = k + 1;
    }
    assert(v@.subrange(i as int, i + p.len()) =~= p@);
    true
}

/// Whether `v` begins with `p`.
pub fn starts_with_vec(v: &Vec<char>, p: &Vec<char>) -> (b: bool)
    ensures
        b == starts_with(v@, p@),
{
    matches_at_vec(v, 0, p)
}

/// The first index where `p` occurs in `v`.
pub fn find_vec(v: &Vec<char>, p: &Vec<char>) -> (r: Option<usize>)
    ensures
        r matches Some(k) ==> find_from(v@, p@, 0) == Some(k as int),
        r is None ==> find_from(v@, p@, 0) is None,
        r matches Some(k) ==> k + p.len() <= v.len(),
{
    if p.len() > v.len() {
        return None;
    }
    let last = v.len() - p.len();
    let mut i: usize = 0;
    while i <= last
        invariant
            last + p.len() == v.len(),
            i <= last + 1,
            find_from(v@, p@, i as int) == find_from(v@, p@, 0),
        decreases last + 1 - i,
    {
        if matches_at_vec(v, i, p) {
            return Some(i);
        }
        if i == last {
            assert(find_from(v@, p@, i + 1) == None::<int>);
            return None;
        }
        i = i + 1;
    }
    None
}

/// The last index where `p` occurs in `v`.
pub fn rfind_vec(v: &Vec<char>, p: &Vec<char>) -> (r: Option<usize>)
    ensures
        r matches Some(k) ==> rfind_below(v@, p@, v@.len() as int) == Some(k as int),
        r is None ==> rfind_below(v@, p@, v@.len() as int) is None,
        r matches Some(k) ==> k + p.len() <= v.len(),
{
    let mut j: usize = v.len();
    while j > 0
        invariant
            j <= v.len(),
            rfind_below(v@, p@, j as int) == rfind_below(v@, p@, v@.len() as int),
        decreases j,
    {
        if matches_at_vec(v, j - 1, p) {
            return Some(j - 1);
        }
        j = j - 1;
    }
    None
}

/// `v` with every leading copy of `p` removed.
pub fn trim_start_matches_vec(v: &Vec<char>, p: &Vec<char>) -> (r: Vec<char>)
    ensures
        r@ == trim_start_matches(v@, p@),
{
    let mut i: usize = 0;
    if p.len() > 0 {
        while matches_at_vec(v, i, p)
            invariant
                p.len() > 0,
                i <= v.len(),
                strip_prefixes_from(v@, p@, i as int) == strip_prefixes_from(v@, p@, 0),
            decreases v.len() - i,
        {
            i = i + p.len();
        }
    }
    slice_vec(v, i, v.len())
}

/// The lines of `v`, split as `str::lines` splits them.
pub fn split_lines(v: &Vec<char>) -> (r: Vec<Vec<char>>)
    ensures
        vecs_view(r@) == lines(v@),
{
    let n = v.len();
    let mut r: Vec<Vec<char>> = Vec::new();
    let mut i: usize = 0;
    while i < n
        invariant
            n == v.len(),
            i <= n,
            vecs_view(r@) + lines_from(v@, i as int) == lines(v@),
        decreases n - i,
    {
        let mut k: usize = i;
        while k < n && v[k] != '\n'
            invariant
                i <= k <= n == v.len(),
                next_newline(v@, k as int) == next_newline(v@, i as int),
            decreases n - k,
        {
            k = k + 1;
        }
        let end = if k < n && k > i && v[k - 1] == '\r' { k - 1 } else { k };
        let line = slice_vec(v, i, end);
        let ghost old_r = r@;
        r.push(line);
        assert(vecs_view(r@) =~= vecs_view(old_r).push(line@));
        if k < n {
            assert(lines_from(v@, i as int) =~= seq![line@] + lines_from(v@, k + 1));
            i = k + 1;
        } else {
            assert(lines_from(v@, i as int) =~= seq![line@]);
            assert(lines_from(v@, n as int) =~= Seq::<Seq<char>>::empty());
            i = n;
        }
    }
    assert(lines_from(v@, i as int) =~= Seq::<Seq<char>>::empty());
    assert(vecs_view(r@) + Seq::<Seq<char>>::empty() =~= vecs_view(r@));
    r
}

/// The lines of `ls` joined with line feeds.
pub fn join_lines_vec(ls: &Vec<Vec<char>>) -> (r: Vec<char>)
    ensures
        r@ == join_lines(vecs_view(ls@)),
{
    let mut r: Vec<char> = Vec::new();
    let mut i: usize = 0;
    while i < ls.len()
        invariant
            i <= ls.len(),
            r@ == join_lines(vecs_view(ls@).take(i as int)),
        decreases ls.len() - i,
    {
        let ghost before = r@;
        if i > 0 {
            r.push('\n');
        }
        let line = &ls[i];
        let mut k: usize = 0;
        let ghost mid = r@;
        while k < line.len()
            invariant
                k <= line.len(),
                r@ == mid + line@.take(k as int),
            decreases line.len() - k,
        {
            r.push(line[k]);
            k = k + 1;
            assert(line@.take(k as int) =~= line@.take(k - 1).push(line@[k - 1]));
        }
        assert(line@.take(k as int) =~= line@);
        let ghost t = vecs_view(ls@).take(i + 1);
        assert(t.drop_last() =~= vecs_view(ls@).take(i as int));
        assert(t.last() == ls[i as int]@);
        if i == 0 {
            assert(mid =~= Seq::<char>::empty());
        }
        i = i + 1;
    }
    assert(vecs_view(ls@).take(i as int) =~= vecs_view(ls@));
    r
}

/// The characters of `s`.
pub fn chars_of(s: &str) -> (v: Vec<char>)
    ensures
        v@ == s@,
{
    broadcast use vstd::string::group_string_axioms;

    let mut it = s.chars();
    let mut v: Vec<char> = Vec::new();
    loop
        invariant
            v@ + it.remaining() == s@,
            it.obeys_prophetic_iter_laws(),
        decreases s@.len() - v@.len(),
    {
        match it.next() {
            Some(c) => {
                v.push(c);
            },
            None => {
                assert(v@ + it.remaining() =~= v@);
                return v;
            },
        }
    }
}

/// The string made of the characters of `v`, built by std's
/// `FromIterator<&char> for String`; its contract (the characters come in
/// order, none added or dropped) is taken from std's documentation.
#[verifier::external_body]
pub fn string_of(v: &Vec<char>) -> (s: String)
    ensures
        s@ == v@,
{
    v.iter().collect()
}

} // verus!
