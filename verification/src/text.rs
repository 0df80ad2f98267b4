//! Character-sequence toolkit: the string operations the parsers are built
//! from, each stated over `Seq<char>` and implemented over `&[char]`, and
//! the per-character advance table that label measurement sums.

use vstd::prelude::*;

verus! {

/// Appends one character to a string.
#[verifier::external_body]
pub(crate) fn push_char(s: &mut String, c: char)
    ensures
        final(s)@ == old(s)@.push(c),
{
    s.push(c);
}

/// The characters of `s`, in order.
pub fn chars_of(s: &str) -> (v: Vec<char>)
    ensures
        v@ == s@,
{
    let mut v: Vec<char> = Vec::new();
    for c in it: s.chars()
        invariant
            v@ == it.seq().take(it.index() as int),
            it.seq() == s@,
    {
        v.push(c);
    }
    v
}

/// A string holding exactly the characters of `v`.
pub fn string_of(v: &[char]) -> (s: String)
    ensures
        s@ == v@,
{
    let mut s = String::new();
    let mut i: usize = 0;
    while i < v.len()
        invariant
            i <= v@.len(),
            s@ == v@.take(i as int),
        decreases v@.len() - i,
    {
        push_char(&mut s, v[i]);
        assert(v@.take(i + 1) == v@.take(i as int).push(v@[i as int]));
        i += 1;
    }
    assert(v@.take(v@.len() as int) == v@);
    s
}

/// Copy of `s[a..b]`.
pub fn slice_of(s: &[char], a: usize, b: usize) -> (r: Vec<char>)
    requires
        a <= b <= s@.len(),
    ensures
        r@ == s@.subrange(a as int, b as int),
{
    let mut r: Vec<char> = Vec::new();
    let mut i = a;
    while i < b
        invariant
            a <= i <= b <= s@.len(),
            r@ == s@.subrange(a as int, i as int),
        decreases b - i,
    {
        r.push(s[i]);
        assert(s@.subrange(a as int, i + 1) == s@.subrange(a as int, i as int).push(s@[i as int]));
        i += 1;
    }
    r
}

/// Whether `a` and `b` hold the same characters.
pub fn eq_of(a: &[char], b: &[char]) -> (r: bool)
    ensures
        r == (a@ == b@),
{
    if a.len() != b.len() {
        return false;
    }
    let r = matches_at(a, 0, b);
    assert(a@.subrange(0, b@.len() as int) == a@);
    r
}

/// `a` followed by `b`.
pub fn concat(a: &[char], b: &[char]) -> (r: Vec<char>)
    ensures
        r@ == a@ + b@,
{
    let mut r = slice_of(a, 0, a.len());
    let mut i: usize = 0;
    assert(a@.subrange(0, a@.len() as int) == a@);
    while i < b.len()
        invariant
            i <= b@.len(),
            r@ == a@ + b@.take(i as int),
        decreases b@.len() - i,
    {
        r.push(b[i]);
        assert(b@.take(i + 1) == b@.take(i as int).push(b@[i as int]));
        i += 1;
    }
    assert(b@.take(b@.len() as int) == b@);
    r
}

/// Rust's `char::is_whitespace`: the Unicode `White_Space` property.
pub open spec fn is_ws(c: char) -> bool {
    let u = c as u32;
    (9 <= u <= 13) || u == 32 || u == 0x85 || u == 0xA0 || u == 0x1680 || (0x2000 <= u <= 0x200A)
        || u == 0x2028 || u == 0x2029 || u == 0x202F || u == 0x205F || u == 0x3000
}

pub fn is_whitespace(c: char) -> (r: bool)
    ensures
        r == is_ws(c),
{
    let u = c as u32;
    (9 <= u && u <= 13) || u == 32 || u == 0x85 || u == 0xA0 || u == 0x1680 || (0x2000 <= u && u
        <= 0x200A) || u == 0x2028 || u == 0x2029 || u == 0x202F || u == 0x205F || u == 0x3000
}

/// Index of the first non-whitespace character at or after `i`.
pub open spec fn ws_end(s: Seq<char>, i: int) -> int
    decreases s.len() - i,
{
    if 0 <= i < s.len() && is_ws(s[i]) {
        ws_end(s, i + 1)
    } else {
        i
    }
}

/// Index just past the last non-whitespace character at or before `j`.
pub open spec fn ws_start_back(s: Seq<char>, j: int) -> int
    decreases j,
{
    if 0 < j <= s.len() && is_ws(s[j - 1]) {
        ws_start_back(s, j - 1)
    } else {
        j
    }
}

pub open spec fn trim_start(s: Seq<char>) -> Seq<char> {
    s.skip(ws_end(s, 0))
}

pub open spec fn trim_end(s: Seq<char>) -> Seq<char> {
    s.take(ws_start_back(s, s.len() as int))
}

/// Rust's `str::trim`.
pub open spec fn trim(s: Seq<char>) -> Seq<char> {
    trim_end(trim_start(s))
}

proof fn lemma_ws_end_bounds(s: Seq<char>, i: int)
    requires
        0 <= i <= s.len(),
    ensures
        i <= ws_end(s, i) <= s.len(),
    decreases s.len() - i,
{
    if i < s.len() && is_ws(s[i]) {
        lemma_ws_end_bounds(s, i + 1);
    }
}

proof fn lemma_ws_back_bounds(s: Seq<char>, j: int)
    requires
        0 <= j <= s.len(),
    ensures
        0 <= ws_start_back(s, j) <= j,
    decreases j,
{
    if 0 < j && is_ws(s[j - 1]) {
        lemma_ws_back_bounds(s, j - 1);
    }
}

pub proof fn lemma_trim_bounds(s: Seq<char>)
    ensures
        trim_start(s).len() <= s.len(),
        trim_end(s).len() <= s.len(),
        trim(s).len() <= s.len(),
{
    lemma_ws_end_bounds(s, 0);
    lemma_ws_back_bounds(s, s.len() as int);
    let t = trim_start(s);
    lemma_ws_back_bounds(t, t.len() as int);
}

pub fn trim_start_of(s: &[char]) -> (r: Vec<char>)
    ensures
        r@ == trim_start(s@),
{
    let mut i: usize = 0;
    while i < s.len() && is_whitespace(s[i])
        invariant
            i <= s@.len(),
            ws_end(s@, 0) == ws_end(s@, i as int),
        decreases s@.len() - i,
    {
        i += 1;
    }
    slice_of(s, i, s.len())
}

pub fn trim_end_of(s: &[char]) -> (r: Vec<char>)
    ensures
        r@ == trim_end(s@),
{
    let mut j: usize = s.len();
    while j > 0 && is_whitespace(s[j - 1])
        invariant
            j <= s@.len(),
            ws_start_back(s@, s@.len() as int) == ws_start_back(s@, j as int),
        decreases j,
    {
        j -= 1;
    }
    slice_of(s, 0, j)
}

pub fn trim_of(s: &[char]) -> (r: Vec<char>)
    ensures
        r@ == trim(s@),
{
    let t = trim_start_of(s);
    trim_end_of(&t)
}

/// First index `k >= i` with `s[k..k+p.len()] == p`.
pub open spec fn find_from(s: Seq<char>, p: Seq<char>, i: int) -> Option<int>
    decreases s.len() + 1 - i,
{
    if i < 0 || i + p.len() > s.len() {
        None
    } else if s.subrange(i, i + p.len()) == p {
        Some(i)
    } else {
        find_from(s, p, i + 1)
    }
}

/// Rust's `str::find` with a string pattern (as a character index).
pub open spec fn find(s: Seq<char>, p: Seq<char>) -> Option<int> {
    find_from(s, p, 0)
}

pub proof fn lemma_find_from(s: Seq<char>, p: Seq<char>, i: int)
    requires
        0 <= i,
    ensures
        find_from(s, p, i) matches Some(k) ==> i <= k && k + p.len() <= s.len() && s.subrange(
            k,
            k + p.len(),
        ) == p,
    decreases s.len() + 1 - i,
{
    if i + p.len() <= s.len() && s.subrange(i, i + p.len()) != p {
        lemma_find_from(s, p, i + 1);
    }
}

pub proof fn lemma_find(s: Seq<char>, p: Seq<char>)
    ensures
        find(s, p) matches Some(k) ==> 0 <= k && k + p.len() <= s.len() && s.subrange(
            k,
            k + p.len(),
        ) == p,
{
    lemma_find_from(s, p, 0);
}

/// `find_from` gives the first occurrence at or after `i`.
pub proof fn lemma_find_from_first(s: Seq<char>, p: Seq<char>, i: int, j: int)
    requires
        0 <= i <= j,
        find_from(s, p, i) matches Some(k) && j < k,
    ensures
        s.subrange(j, j + p.len()) != p,
    decreases j - i,
{
    if i < j {
        lemma_find_from_first(s, p, i + 1, j);
    }
}

/// Where `find_from` finds nothing, `p` occurs nowhere at or after `i`.
pub proof fn lemma_find_from_none(s: Seq<char>, p: Seq<char>, i: int, j: int)
    requires
        0 <= i <= j,
        j + p.len() <= s.len(),
        find_from(s, p, i) is None,
    ensures
        s.subrange(j, j + p.len()) != p,
    decreases j - i,
{
    if i < j {
        lemma_find_from_none(s, p, i + 1, j);
    }
}

/// Whether `p` occurs in `s` at index `i`.
pub fn matches_at(s: &[char], i: usize, p: &[char]) -> (r: bool)
    ensures
        r == (i + p@.len() <= s@.len() && s@.subrange(i as int, i + p@.len()) == p@),
{
    if i > s.len() || p.len() > s.len() - i {
        return false;
    }
    let mut k: usize = 0;
    while k < p.len()
        invariant
            i + p@.len() <= s@.len(),
            s@.len() == s.len(),
            p@.len() == p.len(),
            k <= p@.len(),
            forall|m: int| 0 <= m < k ==> s@[i + m] == p@[m],
        decreases p@.len() - k,
    {
        if s[i + k] != p[k] {
            assert(s@.subrange(i as int, i + p@.len())[k as int] != p@[k as int]);
            return false;
        }
        k += 1;
    }
    assert(s@.subrange(i as int, i + p@.len()) =~= p@);
    true
}

pub fn find_of(s: &[char], p: &[char]) -> (r: Option<usize>)
    ensures
        r matches Some(k) ==> find(s@, p@) == Some(k as int),
        r is None ==> find(s@, p@) is None,
{
    if p.len() > s.len() {
        return None;
    }
    let mut i: usize = 0;
    let last = s.len() - p.len();
    while i <= last
        invariant
            p@.len() <= s@.len(),
            last == s@.len() - p@.len(),
            i <= last + 1,
            find(s@, p@) == find_from(s@, p@, i as int),
        decreases last + 1 - i,
    {
        if matches_at(s, i, p) {
            return Some(i);
        }
        if i == last {
            assert(find_from(s@, p@, i + 1) is None);
            return None;
        }
        i += 1;
    }
    None
}

/// `s` starts with `p`.
pub open spec fn starts_with(s: Seq<char>, p: Seq<char>) -> bool {
    p.len() <= s.len() && s.take(p.len() as int) == p
}

/// `s` ends with `p`.
pub open spec fn ends_with(s: Seq<char>, p: Seq<char>) -> bool {
    p.len() <= s.len() && s.skip(s.len() - p.len()) == p
}

/// Rust's `str::strip_prefix`.
pub open spec fn strip_prefix(s: Seq<char>, p: Seq<char>) -> Option<Seq<char>> {
    if starts_with(s, p) {
        Some(s.skip(p.len() as int))
    } else {
        None
    }
}

/// Rust's `str::strip_suffix`.
pub open spec fn strip_suffix(s: Seq<char>, p: Seq<char>) -> Option<Seq<char>> {
    if ends_with(s, p) {
        Some(s.take(s.len() - p.len()))
    } else {
        None
    }
}

pub fn starts_with_of(s: &[char], p: &[char]) -> (r: bool)
    ensures
        r == starts_with(s@, p@),
{
    let r = matches_at(s, 0, p);
    assert(s@.take(p@.len() as int) == s@.subrange(0, p@.len() as int));
    r
}

pub fn ends_with_of(s: &[char], p: &[char]) -> (r: bool)
    ensures
        r == ends_with(s@, p@),
{
    if p.len() > s.len() {
        return false;
    }
    let r = matches_at(s, s.len() - p.len(), p);
    assert(s@.skip(s@.len() - p@.len()) == s@.subrange(s@.len() - p@.len(), s@.len() as int));
    r
}

pub fn strip_prefix_of(s: &[char], p: &[char]) -> (r: Option<Vec<char>>)
    ensures
        r matches Some(v) ==> strip_prefix(s@, p@) == Some(v@),
        r is None ==> strip_prefix(s@, p@) is None,
{
    if starts_with_of(s, p) {
        Some(slice_of(s, p.len(), s.len()))
    } else {
        None
    }
}

pub fn strip_suffix_of(s: &[char], p: &[char]) -> (r: Option<Vec<char>>)
    ensures
        r matches Some(v) ==> strip_suffix(s@, p@) == Some(v@),
        r is None ==> strip_suffix(s@, p@) is None,
{
    if ends_with_of(s, p) {
        Some(slice_of(s, 0, s.len() - p.len()))
    } else {
        None
    }
}

/// Rust's `str::split_once` with a string pattern.
pub open spec fn split_once(s: Seq<char>, p: Seq<char>) -> Option<(Seq<char>, Seq<char>)> {
    match find(s, p) {
        Some(i) => Some((s.take(i), s.skip(i + p.len()))),
        None => None,
    }
}

pub fn split_once_of(s: &[char], p: &[char]) -> (r: Option<(Vec<char>, Vec<char>)>)
    ensures
        r matches Some((a, b)) ==> split_once(s@, p@) == Some((a@, b@)),
        r is None ==> split_once(s@, p@) is None,
{
    proof {
        lemma_find(s@, p@);
    }
    match find_of(s, p) {
        Some(i) => {
            let n = s.len();
            assert(i + p@.len() <= n);
            let j: usize = i + p.len();
            Some((slice_of(s, 0, i), slice_of(s, j, n)))
        },
        None => None,
    }
}

/// Whether `p` occurs anywhere in `s` (Rust's `str::contains`).
pub open spec fn contains(s: Seq<char>, p: Seq<char>) -> bool {
    find(s, p) is Some
}

pub fn contains_of(s: &[char], p: &[char]) -> (r: bool)
    ensures
        r == contains(s@, p@),
{
    find_of(s, p).is_some()
}

/// Strip every leading `c` (Rust's `trim_start_matches` with a char).
pub open spec fn run_end(s: Seq<char>, c: char, i: int) -> int
    decreases s.len() - i,
{
    if 0 <= i < s.len() && s[i] == c {
        run_end(s, c, i + 1)
    } else {
        i
    }
}

pub open spec fn run_start_back(s: Seq<char>, c: char, j: int) -> int
    decreases j,
{
    if 0 < j <= s.len() && s[j - 1] == c {
        run_start_back(s, c, j - 1)
    } else {
        j
    }
}

pub open spec fn trim_start_matches(s: Seq<char>, c: char) -> Seq<char> {
    s.skip(run_end(s, c, 0))
}

pub open spec fn trim_end_matches(s: Seq<char>, c: char) -> Seq<char> {
    s.take(run_start_back(s, c, s.len() as int))
}

/// Rust's `str::trim_matches` with a char.
pub open spec fn trim_matches(s: Seq<char>, c: char) -> Seq<char> {
    trim_end_matches(trim_start_matches(s, c), c)
}

proof fn lemma_run_end_bounds(s: Seq<char>, c: char, i: int)
    requires
        0 <= i <= s.len(),
    ensures
        i <= run_end(s, c, i) <= s.len(),
    decreases s.len() - i,
{
    if i < s.len() && s[i] == c {
        lemma_run_end_bounds(s, c, i + 1);
    }
}

pub fn trim_start_matches_of(s: &[char], c: char) -> (r: Vec<char>)
    ensures
        r@ == trim_start_matches(s@, c),
{
    let mut i: usize = 0;
    while i < s.len() && s[i] == c
        invariant
            i <= s@.len(),
            run_end(s@, c, 0) == run_end(s@, c, i as int),
        decreases s@.len() - i,
    {
        i += 1;
    }
    slice_of(s, i, s.len())
}

pub fn trim_end_matches_of(s: &[char], c: char) -> (r: Vec<char>)
    ensures
        r@ == trim_end_matches(s@, c),
{
    let mut j: usize = s.len();
    while j > 0 && s[j - 1] == c
        invariant
            j <= s@.len(),
            run_start_back(s@, c, s@.len() as int) == run_start_back(s@, c, j as int),
        decreases j,
    {
        j -= 1;
    }
    slice_of(s, 0, j)
}

pub fn trim_matches_of(s: &[char], c: char) -> (r: Vec<char>)
    ensures
        r@ == trim_matches(s@, c),
{
    let t = trim_start_matches_of(s, c);
    trim_end_matches_of(&t, c)
}


/// The views of a sequence of character vectors.
pub open spec fn views(v: Seq<Vec<char>>) -> Seq<Seq<char>> {
    v.map_values(|x: Vec<char>| x@)
}

pub proof fn lemma_views_push(v: Seq<Vec<char>>, x: Vec<char>)
    ensures
        views(v.push(x)) == views(v).push(x@),
{
    assert(views(v.push(x)) =~= views(v).push(x@));
}

/// Rust's `str::split` with a non-empty string pattern: the pieces between
/// non-overlapping occurrences of `p`, scanned left to right.
pub open spec fn split_by(s: Seq<char>, p: Seq<char>) -> Seq<Seq<char>>
    decreases s.len(),
{
    if p.len() == 0 {
        seq![s]
    } else {
        match find(s, p) {
            Some(i) => if 0 <= i && i + p.len() <= s.len() {
                seq![s.take(i)] + split_by(s.skip(i + p.len()), p)
            } else {
                seq![s]
            },
            None => seq![s],
        }
    }
}

pub fn split_by_of(s: &[char], p: &[char]) -> (r: Vec<Vec<char>>)
    requires
        p@.len() > 0,
    ensures
        views(r@) == split_by(s@, p@),
{
    let mut pieces: Vec<Vec<char>> = Vec::new();
    let mut rest: Vec<char> = slice_of(s, 0, s.len());
    assert(s@.subrange(0, s@.len() as int) == s@);
    loop
        invariant
            p@.len() > 0,
            split_by(s@, p@) == views(pieces@) + split_by(rest@, p@),
        decreases rest@.len(),
    {
        proof {
            lemma_find(rest@, p@);
        }
        match find_of(&rest, p) {
            Some(i) => {
                let n = rest.len();
                assert(i + p@.len() <= n);
                let j: usize = i + p.len();
                let head = slice_of(&rest, 0, i);
                let tail = slice_of(&rest, j, n);
                assert(head@ == rest@.take(i as int));
                assert(tail@ == rest@.skip(j as int));
                proof {
                    lemma_views_push(pieces@, head);
                }
                pieces.push(head);
                rest = tail;
            },
            None => {
                proof {
                    lemma_views_push(pieces@, rest);
                }
                pieces.push(rest);
                return pieces;
            },
        }
    }
}

/// Rust's `str::lines`: split at `\n`; a final empty piece is dropped, and a
/// `\r` right before a `\n` is removed.
pub open spec fn lines(s: Seq<char>) -> Seq<Seq<char>> {
    let pieces = split_by(s, seq!['\n']);
    let kept = if pieces.len() > 0 && pieces.last().len() == 0 {
        pieces.drop_last()
    } else {
        pieces
    };
    Seq::new(
        kept.len(),
        |i: int|
            if i < pieces.len() - 1 && kept[i].len() > 0 && kept[i].last() == '\r' {
                kept[i].drop_last()
            } else {
                kept[i]
            },
    )
}

pub proof fn lemma_split_by_nonempty(s: Seq<char>, p: Seq<char>)
    ensures
        split_by(s, p).len() >= 1,
    decreases s.len(),
{
    if p.len() > 0 {
        match find(s, p) {
            Some(i) => if 0 <= i && i + p.len() <= s.len() {
                lemma_split_by_nonempty(s.skip(i + p.len()), p);
            },
            None => {},
        }
    }
}

pub fn lines_of(s: &[char]) -> (r: Vec<Vec<char>>)
    ensures
        views(r@) == lines(s@),
{
    let nl = vec!['\n'];
    assert(nl@ =~= seq!['\n']);
    let pieces = split_by_of(s, &nl);
    proof {
        lemma_split_by_nonempty(s@, nl@);
    }
    let ghost pv = views(pieces@);
    let mut count = pieces.len();
    if count > 0 && pieces[count - 1].len() == 0 {
        count = count - 1;
    }
    let mut out: Vec<Vec<char>> = Vec::new();
    let mut i: usize = 0;
    while i < count
        invariant
            count <= pieces@.len(),
            pv == views(pieces@),
            pv == split_by(s@, seq!['\n']),
            count == lines(s@).len(),
            i <= count,
            views(out@) == lines(s@).take(i as int),
        decreases count - i,
    {
        let piece = &pieces[i];
        let k = piece.len();
        let v = if i + 1 < pieces.len() && k > 0 && piece[k - 1] == '\r' {
            slice_of(piece, 0, k - 1)
        } else {
            slice_of(piece, 0, k)
        };
        assert(piece@.subrange(0, k as int) == piece@);
        if k > 0 {
            assert(piece@.drop_last() == piece@.subrange(0, k - 1));
        }
        proof {
            lemma_views_push(out@, v);
        }
        out.push(v);
        assert(lines(s@).take(i + 1) =~= lines(s@).take(i as int).push(lines(s@)[i as int]));
        i += 1;
    }
    assert(lines(s@).take(count as int) =~= lines(s@));
    out
}

/// Index just past the run of non-whitespace characters starting at `i`.
pub open spec fn word_end(s: Seq<char>, i: int) -> int
    decreases s.len() - i,
{
    if 0 <= i < s.len() && !is_ws(s[i]) {
        word_end(s, i + 1)
    } else {
        i
    }
}

proof fn lemma_word_end_bounds(s: Seq<char>, i: int)
    requires
        0 <= i <= s.len(),
    ensures
        i <= word_end(s, i) <= s.len(),
        i < s.len() && !is_ws(s[i]) ==> i < word_end(s, i),
    decreases s.len() - i,
{
    if i < s.len() && !is_ws(s[i]) {
        lemma_word_end_bounds(s, i + 1);
    }
}

/// Rust's `str::split_whitespace`.
pub open spec fn split_ws(s: Seq<char>) -> Seq<Seq<char>>
    decreases s.len(),
{
    let a = ws_end(s, 0);
    if 0 <= a < s.len() {
        let b = word_end(s, a);
        if a < b <= s.len() {
            seq![s.subrange(a, b)] + split_ws(s.skip(b))
        } else {
            seq![]
        }
    } else {
        seq![]
    }
}

pub fn split_ws_of(s: &[char]) -> (r: Vec<Vec<char>>)
    ensures
        views(r@) == split_ws(s@),
{
    let mut out: Vec<Vec<char>> = Vec::new();
    let mut rest: Vec<char> = slice_of(s, 0, s.len());
    assert(s@.subrange(0, s@.len() as int) == s@);
    loop
        invariant
            split_ws(s@) == views(out@) + split_ws(rest@),
        decreases rest@.len(),
    {
        let mut a: usize = 0;
        while a < rest.len() && is_whitespace(rest[a])
            invariant
                a <= rest@.len(),
                ws_end(rest@, 0) == ws_end(rest@, a as int),
            decreases rest@.len() - a,
        {
            a += 1;
        }
        if a >= rest.len() {
            assert(split_ws(rest@) == Seq::<Seq<char>>::empty());
            assert(views(out@) + Seq::<Seq<char>>::empty() == views(out@));
            return out;
        }
        let mut b: usize = a;
        while b < rest.len() && !is_whitespace(rest[b])
            invariant
                a <= b <= rest@.len(),
                word_end(rest@, a as int) == word_end(rest@, b as int),
            decreases rest@.len() - b,
        {
            b += 1;
        }
        proof {
            lemma_word_end_bounds(rest@, a as int);
        }
        let word = slice_of(&rest, a, b);
        let tail = slice_of(&rest, b, rest.len());
        assert(tail@ == rest@.skip(b as int));
        proof {
            lemma_views_push(out@, word);
        }
        out.push(word);
        rest = tail;
    }
}

/// Rust's `char::to_ascii_lowercase`.
pub open spec fn lower_char(c: char) -> char {
    if 'A' <= c <= 'Z' {
        ((c as u32) + 32) as char
    } else {
        c
    }
}

/// Rust's `str::to_ascii_lowercase`.
pub open spec fn lower(s: Seq<char>) -> Seq<char> {
    s.map_values(|c: char| lower_char(c))
}

pub fn lower_of(s: &[char]) -> (r: Vec<char>)
    ensures
        r@ == lower(s@),
{
    let mut r: Vec<char> = Vec::new();
    let mut i: usize = 0;
    while i < s.len()
        invariant
            i <= s@.len(),
            r@ == lower(s@.take(i as int)),
        decreases s@.len() - i,
    {
        let c = s[i];
        let l = if 'A' <= c && c <= 'Z' {
            ((c as u32) + 32) as u8 as char
        } else {
            c
        };
        r.push(l);
        assert(lower(s@.take(i + 1)) =~= lower(s@.take(i as int)).push(lower_char(s@[i as int])));
        i += 1;
    }
    assert(s@.take(s@.len() as int) == s@);
    r
}

/// Number of non-overlapping occurrences of a non-empty pattern
/// (Rust's `str::matches(p).count()`).
pub open spec fn count_matches(s: Seq<char>, p: Seq<char>) -> int {
    split_by(s, p).len() - 1
}

pub fn count_matches_of(s: &[char], p: &[char]) -> (r: usize)
    requires
        p@.len() > 0,
    ensures
        r == count_matches(s@, p@),
{
    let pieces = split_by_of(s, p);
    proof {
        lemma_split_by_nonempty(s@, p@);
    }
    pieces.len() - 1
}

/// Join pieces with a separator.
pub open spec fn join(pieces: Seq<Seq<char>>, sep: Seq<char>) -> Seq<char>
    decreases pieces.len(),
{
    if pieces.len() == 0 {
        seq![]
    } else if pieces.len() == 1 {
        pieces[0]
    } else {
        join(pieces.drop_last(), sep) + sep + pieces.last()
    }
}

pub fn join_of(pieces: &Vec<Vec<char>>, sep: &[char]) -> (r: Vec<char>)
    ensures
        r@ == join(views(pieces@), sep@),
{
    let mut r: Vec<char> = Vec::new();
    let mut i: usize = 0;
    while i < pieces.len()
        invariant
            i <= pieces@.len(),
            r@ == join(views(pieces@).take(i as int), sep@),
        decreases pieces@.len() - i,
    {
        let ghost pre = views(pieces@).take(i as int);
        let ghost next = views(pieces@).take(i + 1);
        assert(next.drop_last() =~= pre);
        if i == 0 {
            r = concat(&r, &pieces[i]);
        } else {
            let t = concat(&r, sep);
            r = concat(&t, &pieces[i]);
        }
        i += 1;
    }
    assert(views(pieces@).take(pieces@.len() as int) =~= views(pieces@));
    r
}

/// Rust's `str::replace` with a non-empty pattern.
pub open spec fn replace(s: Seq<char>, from: Seq<char>, to: Seq<char>) -> Seq<char> {
    join(split_by(s, from), to)
}

pub fn replace_of(s: &[char], from: &[char], to: &[char]) -> (r: Vec<char>)
    requires
        from@.len() > 0,
    ensures
        r@ == replace(s@, from@, to@),
{
    let pieces = split_by_of(s, from);
    join_of(&pieces, to)
}

/// First index at or after `i` whose character is in `set`.
pub open spec fn find_any_from(s: Seq<char>, set: Seq<char>, i: int) -> Option<int>
    decreases s.len() - i,
{
    if i < 0 || i >= s.len() {
        None
    } else if set.contains(s[i]) {
        Some(i)
    } else {
        find_any_from(s, set, i + 1)
    }
}

/// Rust's `str::find` with a set of characters.
pub open spec fn find_any(s: Seq<char>, set: Seq<char>) -> Option<int> {
    find_any_from(s, set, 0)
}

pub proof fn lemma_find_any_from(s: Seq<char>, set: Seq<char>, i: int)
    requires
        0 <= i,
    ensures
        find_any_from(s, set, i) matches Some(k) ==> i <= k < s.len() && set.contains(s[k]),
    decreases s.len() - i,
{
    if i < s.len() && !set.contains(s[i]) {
        lemma_find_any_from(s, set, i + 1);
    }
}

pub fn find_any_of(s: &[char], set: &[char]) -> (r: Option<usize>)
    ensures
        r matches Some(k) ==> find_any(s@, set@) == Some(k as int) && k < s@.len(),
        r is None ==> find_any(s@, set@) is None,
{
    let mut i: usize = 0;
    while i < s.len()
        invariant
            i <= s@.len(),
            find_any(s@, set@) == find_any_from(s@, set@, i as int),
        decreases s@.len() - i,
    {
        let c = s[i];
        let mut j: usize = 0;
        let mut hit = false;
        while j < set.len()
            invariant
                j <= set@.len(),
                hit == (exists|m: int| 0 <= m < j && set@[m] == c),
            decreases set@.len() - j,
        {
            if set[j] == c {
                hit = true;
            }
            j += 1;
        }
        if hit {
            return Some(i);
        }
        i += 1;
    }
    None
}

/// Whether `c` is an ASCII decimal digit.
pub open spec fn is_digit(c: char) -> bool {
    '0' <= c <= '9'
}

pub open spec fn digit_val(c: char) -> int {
    (c as u32) - ('0' as u32)
}

/// Value of a string of decimal digits.
pub open spec fn digits_val(s: Seq<char>) -> int
    decreases s.len(),
{
    if s.len() == 0 {
        0
    } else {
        digits_val(s.drop_last()) * 10 + digit_val(s.last())
    }
}

pub open spec fn all_digits(s: Seq<char>) -> bool {
    forall|i: int| 0 <= i < s.len() ==> is_digit(#[trigger] s[i])
}

/// A non-empty run of decimal digits whose value is at most `bound`.
pub open spec fn parse_nat(s: Seq<char>, bound: int) -> Option<int> {
    if s.len() > 0 && all_digits(s) && digits_val(s) <= bound {
        Some(digits_val(s))
    } else {
        None
    }
}

proof fn lemma_digits_mono(s: Seq<char>, i: int, j: int)
    requires
        all_digits(s),
        0 <= i <= j <= s.len(),
    ensures
        0 <= digits_val(s.take(i)) <= digits_val(s.take(j)),
    decreases j,
{
    if i < j {
        lemma_digits_mono(s, i, j - 1);
        assert(s.take(j).drop_last() == s.take(j - 1));
        assert(is_digit(s[j - 1]));
    } else {
        lemma_digits_nonneg(s.take(i));
    }
}

proof fn lemma_digits_nonneg(s: Seq<char>)
    requires
        all_digits(s),
    ensures
        digits_val(s) >= 0,
    decreases s.len(),
{
    if s.len() > 0 {
        assert(all_digits(s.drop_last()));
        lemma_digits_nonneg(s.drop_last());
        assert(is_digit(s.last()));
    }
}

pub fn parse_nat_of(s: &[char], bound: u64) -> (r: Option<u64>)
    ensures
        r matches Some(v) ==> parse_nat(s@, bound as int) == Some(v as int),
        r is None ==> parse_nat(s@, bound as int) is None,
{
    if s.len() == 0 {
        return None;
    }
    let mut acc: u64 = 0;
    let mut i: usize = 0;
    while i < s.len()
        invariant
            i <= s@.len(),
            all_digits(s@.take(i as int)),
            acc == digits_val(s@.take(i as int)),
            acc <= bound,
        decreases s@.len() - i,
    {
        let c = s[i];
        if !('0' <= c && c <= '9') {
            assert(!all_digits(s@));
            return None;
        }
        let d = (c as u32 - '0' as u32) as u64;
        assert(s@.take(i + 1).drop_last() == s@.take(i as int));
        assert(all_digits(s@.take(i + 1)));
        if d > bound || acc > (bound - d) / 10 {
            proof {
                if all_digits(s@) {
                    assert(s@.take(s@.len() as int) == s@);
                    lemma_digits_mono(s@, i + 1, s@.len() as int);
                    assert(s@.take(i + 1).take(i + 1) == s@.take(i + 1));
                }
            }
            return None;
        }
        assert(acc * 10 + d <= bound) by (nonlinear_arith)
            requires
                d <= bound,
                acc <= (bound - d) / 10,
        ;
        acc = acc * 10 + d;
        i += 1;
    }
    assert(s@.take(s@.len() as int) == s@);
    Some(acc)
}

/// ASCII digit for `d < 10`.
pub open spec fn digit_char(d: int) -> char {
    (('0' as u32) + d) as char
}

/// Decimal representation of a natural number (Rust's `{}` on integers).
pub open spec fn dec(n: nat) -> Seq<char>
    decreases n,
{
    if n < 10 {
        seq![digit_char(n as int)]
    } else {
        dec(n / 10).push(digit_char((n % 10) as int))
    }
}

pub fn dec_of(n: u64) -> (r: Vec<char>)
    ensures
        r@ == dec(n as nat),
    decreases n,
{
    if n < 10 {
        vec![((n as u32) + ('0' as u32)) as u8 as char]
    } else {
        let mut v = dec_of(n / 10);
        v.push(((n % 10) as u32 + ('0' as u32)) as u8 as char);
        v
    }
}

/// Number of bytes of `c` in UTF-8.
pub open spec fn utf8_len(c: char) -> nat {
    let u = c as u32;
    if u < 0x80 {
        1
    } else if u < 0x800 {
        2
    } else if u < 0x10000 {
        3
    } else {
        4
    }
}

/// Byte length of a string (Rust's `str::len`).
pub open spec fn byte_len(s: Seq<char>) -> nat
    decreases s.len(),
{
    if s.len() == 0 {
        0
    } else {
        byte_len(s.drop_last()) + utf8_len(s.last())
    }
}

pub fn byte_len_of(s: &[char]) -> (r: u64)
    requires
        s@.len() < 0x1000_0000,
    ensures
        r == byte_len(s@),
{
    let mut r: u64 = 0;
    let mut i: usize = 0;
    while i < s.len()
        invariant
            i <= s@.len() < 0x1000_0000,
            r == byte_len(s@.take(i as int)),
            r <= 4 * i,
        decreases s@.len() - i,
    {
        let u = s[i] as u32;
        let k: u64 = if u < 0x80 {
            1
        } else if u < 0x800 {
            2
        } else if u < 0x10000 {
            3
        } else {
            4
        };
        assert(s@.take(i + 1).drop_last() == s@.take(i as int));
        r = r + k;
        i += 1;
    }
    assert(s@.take(s@.len() as int) == s@);
    r
}

/// Rust's `FromStr` for an unsigned integer type whose maximum is `max`:
/// an optional `+`, then one or more decimal digits, value at most `max`.
pub open spec fn parse_unsigned(s: Seq<char>, max: int) -> Option<int> {
    let d = if s.len() > 0 && s[0] == '+' {
        s.skip(1)
    } else {
        s
    };
    parse_nat(d, max)
}

pub fn parse_unsigned_of(s: &[char], max: u64) -> (r: Option<u64>)
    ensures
        r matches Some(v) ==> parse_unsigned(s@, max as int) == Some(v as int),
        r is None ==> parse_unsigned(s@, max as int) is None,
{
    if s.len() > 0 && s[0] == '+' {
        let d = slice_of(s, 1, s.len());
        parse_nat_of(&d, max)
    } else {
        parse_nat_of(s, max)
    }
}

/// Rust's `FromStr` for `i64`: an optional sign, then one or more decimal
/// digits, value within `i64`'s range.
pub open spec fn parse_i64(s: Seq<char>) -> Option<int> {
    if s.len() > 0 && s[0] == '-' {
        match parse_nat(s.skip(1), 0x8000_0000_0000_0000) {
            Some(v) => Some(-v),
            None => None,
        }
    } else {
        parse_unsigned(s, 0x7fff_ffff_ffff_ffff)
    }
}

pub fn parse_i64_of(s: &[char]) -> (r: Option<i64>)
    ensures
        r matches Some(v) ==> parse_i64(s@) == Some(v as int),
        r is None ==> parse_i64(s@) is None,
{
    if s.len() > 0 && s[0] == '-' {
        let d = slice_of(s, 1, s.len());
        match parse_nat_of(&d, 0x8000_0000_0000_0000) {
            Some(v) => {
                if v == 0x8000_0000_0000_0000 {
                    Some(i64::MIN)
                } else {
                    Some(-(v as i64))
                }
            },
            None => None,
        }
    } else {
        match parse_unsigned_of(s, 0x7fff_ffff_ffff_ffff) {
            Some(v) => Some(v as i64),
            None => None,
        }
    }
}

proof fn lemma_byte_len_prefix(s: Seq<char>, i: int)
    requires
        0 <= i <= s.len(),
    ensures
        byte_len(s.take(i)) <= byte_len(s),
    decreases s.len() - i,
{
    if i < s.len() {
        lemma_byte_len_prefix(s, i + 1);
        assert(s.take(i + 1).drop_last() == s.take(i));
    } else {
        assert(s.take(i) == s);
    }
}

/// `byte_len(s)`, or `cap` when the byte length reaches `cap`.
pub fn byte_len_capped(s: &[char], cap: u64) -> (r: u64)
    requires
        cap < 0x1_0000_0000,
    ensures
        r == (if byte_len(s@) < cap {
            byte_len(s@)
        } else {
            cap as nat
        }),
{
    let mut r: u64 = 0;
    let mut i: usize = 0;
    while i < s.len()
        invariant
            i <= s@.len(),
            r == byte_len(s@.take(i as int)),
            r < cap || (r == 0 && cap == 0),
            cap < 0x1_0000_0000,
        decreases s@.len() - i,
    {
        if r >= cap {
            proof {
                lemma_byte_len_prefix(s@, i as int);
            }
            return cap;
        }
        let u = s[i] as u32;
        let k: u64 = if u < 0x80 {
            1
        } else if u < 0x800 {
            2
        } else if u < 0x10000 {
            3
        } else {
            4
        };
        assert(s@.take(i + 1).drop_last() == s@.take(i as int));
        r = r + k;
        i += 1;
        if r >= cap {
            proof {
                lemma_byte_len_prefix(s@, i as int);
            }
            return cap;
        }
    }
    assert(s@.take(s@.len() as int) == s@);
    r
}

/// Byte length of `s` (no size bound needed).
pub fn byte_len_wide(s: &[char]) -> (r: u128)
    ensures
        r == byte_len(s@),
{
    let mut r: u128 = 0;
    let mut i: usize = 0;
    while i < s.len()
        invariant
            i <= s@.len(),
            r == byte_len(s@.take(i as int)),
            r <= 4 * i,
        decreases s@.len() - i,
    {
        let u = s[i] as u32;
        let k: u128 = if u < 0x80 {
            1
        } else if u < 0x800 {
            2
        } else if u < 0x10000 {
            3
        } else {
            4
        };
        assert(s@.take(i + 1).drop_last() == s@.take(i as int));
        r = r + k;
        i += 1;
    }
    assert(s@.take(s@.len() as int) == s@);
    r
}

/// Number of leading whitespace characters.
pub fn ws_end_of(s: &[char]) -> (r: usize)
    ensures
        r == ws_end(s@, 0),
        r <= s@.len(),
{
    let mut i: usize = 0;
    while i < s.len() && is_whitespace(s[i])
        invariant
            i <= s@.len(),
            ws_end(s@, 0) == ws_end(s@, i as int),
        decreases s@.len() - i,
    {
        i += 1;
    }
    i
}

/// Code points drawn as emoji, which reserve a wider advance when text is
/// measured: miscellaneous symbols and dingbats, pictographs, arrows, the
/// zero-width joiner and the regional indicators.
pub open spec fn emoji_code(u: u32) -> bool {
    (0x2600 <= u <= 0x27BF) || (0x1F000 <= u <= 0x1FAFF) || (0x2190 <= u <= 0x21FF) || u == 0x200D
        || (0x1F1E6 <= u <= 0x1F1FF)
}

/// Whether `c` is drawn as an emoji (see `emoji_code`).
pub fn is_emoji(c: char) -> (r: bool)
    ensures
        r == emoji_code(c as u32),
{
    let u = c as u32;
    (0x2600 <= u && u <= 0x27BF) || (0x1F000 <= u && u <= 0x1FAFF) || (0x2190 <= u && u <= 0x21FF)
        || u == 0x200D || (0x1F1E6 <= u && u <= 0x1F1FF)
}

/// Advance width of `c` in thousandths of an em for the common sans UI
/// stack (Inter / Helvetica / Arial class). The table is an upper bound:
/// its values come from the widest member of the stack (Helvetica/Arial AFM
/// advances, whose em is 1000 units), so a box sized from it fits the
/// narrower faces too. Emoji reserve 1.2 em, other characters from U+2E80
/// on (CJK ideographs, kana, full-width forms) a full em, and anything else
/// the width of a base letter.
pub open spec fn advance_milli(c: char) -> u32 {
    match c {
        ' ' => 300,
        '!' => 300,
        '"' => 360,
        '#' => 560,
        '$' => 560,
        '%' => 900,
        '&' => 680,
        '\'' => 200,
        '(' | ')' => 340,
        '*' => 390,
        '+' | '<' | '=' | '>' | '~' => 590,
        ',' => 280,
        '-' => 340,
        '.' => 280,
        '/' | '\\' => 300,
        '0'..='9' => 560,
        ':' | ';' => 280,
        '?' => 560,
        '@' => 1020,
        'A' | 'B' | 'E' | 'K' | 'P' | 'S' | 'V' | 'X' | 'Y' => 680,
        'C' | 'D' | 'H' | 'N' | 'R' | 'U' => 730,
        'F' | 'T' | 'Z' => 620,
        'G' | 'O' | 'Q' => 780,
        'I' => 300,
        'J' => 500,
        'L' => 560,
        'M' => 840,
        'W' => 950,
        '[' | ']' => 300,
        '^' => 470,
        '_' => 560,
        '`' => 340,
        'a' | 'b' | 'd' | 'e' | 'g' | 'h' | 'k' | 'n' | 'o' | 'p' | 'q' | 'u' | 'x' | 'y' | 'z' => 560,
        'c' | 's' | 'v' => 500,
        'f' | 't' => 300,
        'i' | 'j' | 'l' => 240,
        'm' => 840,
        'r' => 340,
        'w' => 730,
        '{' | '}' => 340,
        '|' => 270,
        _ => if emoji_code(c as u32) {
            1200
        } else if c as u32 >= 0x2E80 {
            1000
        } else {
            560
        },
    }
}

/// Advance width of `c` in thousandths of an em (see `advance_milli`).
pub fn char_advance(c: char) -> (w: u32)
    ensures
        w == advance_milli(c),
{
    match c {
        ' ' => 300,
        '!' => 300,
        '"' => 360,
        '#' => 560,
        '$' => 560,
        '%' => 900,
        '&' => 680,
        '\'' => 200,
        '(' | ')' => 340,
        '*' => 390,
        '+' | '<' | '=' | '>' | '~' => 590,
        ',' => 280,
        '-' => 340,
        '.' => 280,
        '/' | '\\' => 300,
        '0'..='9' => 560,
        ':' | ';' => 280,
        '?' => 560,
        '@' => 1020,
        'A' | 'B' | 'E' | 'K' | 'P' | 'S' | 'V' | 'X' | 'Y' => 680,
        'C' | 'D' | 'H' | 'N' | 'R' | 'U' => 730,
        'F' | 'T' | 'Z' => 620,
        'G' | 'O' | 'Q' => 780,
        'I' => 300,
        'J' => 500,
        'L' => 560,
        'M' => 840,
        'W' => 950,
        '[' | ']' => 300,
        '^' => 470,
        '_' => 560,
        '`' => 340,
        'a' | 'b' | 'd' | 'e' | 'g' | 'h' | 'k' | 'n' | 'o' | 'p' | 'q' | 'u' | 'x' | 'y' | 'z' => 560,
        'c' | 's' | 'v' => 500,
        'f' | 't' => 300,
        'i' | 'j' | 'l' => 240,
        'm' => 840,
        'r' => 340,
        'w' => 730,
        '{' | '}' => 340,
        '|' => 270,
        _ => if is_emoji(c) {
            1200
        } else if c as u32 >= 0x2E80 {
            1000
        } else {
            560
        },
    }
}

} // verus!
