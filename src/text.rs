//! Character-sequence primitives with their mathematical models: searching for
//! a marker, taking a run of characters up to a delimiter, trimming, splitting.

use vstd::prelude::*;

verus! {

/// Whitespace as `char::is_whitespace` defines it: the Unicode White_Space set.
pub open spec fn is_space(c: char) -> bool {
    let u = c as u32;
    (0x09 <= u && u <= 0x0d) || u == 0x20 || u == 0x85 || u == 0xa0 || u == 0x1680 || (0x2000
        <= u && u <= 0x200a) || u == 0x2028 || u == 0x2029 || u == 0x202f || u == 0x205f || u
        == 0x3000
}

pub open spec fn is_digit(c: char) -> bool {
    '0' <= c && c <= '9'
}

/// The classes of character at which a run of text ends.
#[derive(Clone, Copy, Debug, PartialEq, Eq, Structural)]
pub enum Delim {
    /// A whitespace character.
    Space,
    /// Any character that is not whitespace.
    NonSpace,
    /// A double quote.
    Quote,
    /// A full stop.
    Dot,
    /// Anything but an ASCII digit or a full stop.
    NonVersion,
}

pub open spec fn ends_run(k: Delim, c: char) -> bool {
    match k {
        Delim::Space => is_space(c),
        Delim::NonSpace => !is_space(c),
        Delim::Quote => c == '"',
        Delim::Dot => c == '.',
        Delim::NonVersion => !(is_digit(c) || c == '.'),
    }
}

/// Length of the longest prefix of `s` with no character of class `k`.
pub open spec fn run_len(s: Seq<char>, k: Delim) -> nat
    decreases s.len(),
{
    if s.len() == 0 || ends_run(k, s[0]) {
        0
    } else {
        1 + run_len(s.drop_first(), k)
    }
}

/// The longest prefix of `s` with no character of class `k`.
pub open spec fn run(s: Seq<char>, k: Delim) -> Seq<char> {
    s.take(run_len(s, k) as int)
}

/// Length of the longest suffix of `s` with no character of class `k`.
pub open spec fn back_run_len(s: Seq<char>, k: Delim) -> nat
    decreases s.len(),
{
    if s.len() == 0 || ends_run(k, s.last()) {
        0
    } else {
        1 + back_run_len(s.drop_last(), k)
    }
}

/// `s` without its leading whitespace.
pub open spec fn trim_start(s: Seq<char>) -> Seq<char> {
    s.skip(run_len(s, Delim::NonSpace) as int)
}

/// `s` without its leading and trailing whitespace.
pub open spec fn trim(s: Seq<char>) -> Seq<char> {
    let t = trim_start(s);
    t.take(t.len() - back_run_len(t, Delim::NonSpace))
}

pub open spec fn occurs_at(s: Seq<char>, p: Seq<char>, i: int) -> bool {
    0 <= i && i + p.len() <= s.len() && s.subrange(i, i + p.len()) == p
}

/// The first position at or after `i` where `p` occurs in `s`.
pub open spec fn find_from(s: Seq<char>, p: Seq<char>, i: int) -> Option<int>
    decreases s.len() + 1 - i,
{
    if i < 0 || i + p.len() > s.len() {
        None
    } else if occurs_at(s, p, i) {
        Some(i)
    } else {
        find_from(s, p, i + 1)
    }
}

pub open spec fn contains(s: Seq<char>, p: Seq<char>) -> bool {
    find_from(s, p, 0) is Some
}

/// What follows the first occurrence of `p` in `s`.
pub open spec fn after_first(s: Seq<char>, p: Seq<char>) -> Option<Seq<char>> {
    match find_from(s, p, 0) {
        Some(i) => Some(s.skip(i + p.len())),
        None => None,
    }
}

/// The pieces of `s` between the occurrences of `p`, taken left to right
/// without overlap, as `str::split` gives them.
pub open spec fn split(s: Seq<char>, p: Seq<char>) -> Seq<Seq<char>>
    decreases s.len(),
{
    if p.len() == 0 {
        seq![s]
    } else {
        match find_from(s, p, 0) {
            Some(i) => if 0 <= i && i + p.len() <= s.len() {
                seq![s.take(i)] + split(s.skip(i + p.len()), p)
            } else {
                seq![s]
            },
            None => seq![s],
        }
    }
}

/// `s` read as one logical line: a hyphen that ends a line and is followed by
/// a space on the next one joins the word again (`"-\n "` becomes `"-"`), and
/// every other line break is dropped.
pub open spec fn normalize(s: Seq<char>) -> Seq<char>
    decreases s.len(),
{
    if s.len() == 0 {
        s
    } else if s.len() >= 3 && s[0] == '-' && s[1] == '\n' && s[2] == ' ' {
        seq!['-'] + normalize(s.skip(3))
    } else if s[0] == '\n' {
        normalize(s.drop_first())
    } else {
        seq![s[0]] + normalize(s.drop_first())
    }
}

pub proof fn lemma_find_from_bounds(s: Seq<char>, p: Seq<char>, i: int)
    ensures
        find_from(s, p, i) matches Some(j) ==> i <= j && occurs_at(s, p, j),
        find_from(s, p, i) matches Some(j) ==> forall|m: int| i <= m < j ==> !occurs_at(s, p, m),
    decreases s.len() + 1 - i,
{
    if !(i < 0 || i + p.len() > s.len()) && !occurs_at(s, p, i) {
        lemma_find_from_bounds(s, p, i + 1);
    }
}

/// Searching what follows position `k` is searching the whole from `k` on.
pub proof fn lemma_find_shift(s: Seq<char>, p: Seq<char>, k: int, i: int)
    requires
        0 <= k <= s.len(),
        0 <= i,
    ensures
        find_from(s.skip(k), p, i) == match find_from(s, p, i + k) {
            Some(j) => Some(j - k),
            None => None,
        },
    decreases s.len() + 1 - (i + k),
{
    if i + p.len() <= s.len() - k {
        assert(s.skip(k).subrange(i, i + p.len()) =~= s.subrange(i + k, i + k + p.len()));
        if !occurs_at(s, p, i + k) {
            lemma_find_shift(s, p, k, i + 1);
        }
    }
}

pub proof fn lemma_run_len(s: Seq<char>, k: Delim, m: int)
    requires
        0 <= m <= s.len(),
        forall|j: int| 0 <= j < m ==> !ends_run(k, #[trigger] s[j]),
        m == s.len() || ends_run(k, s[m]),
    ensures
        run_len(s, k) == m,
    decreases m,
{
    if m > 0 {
        let t = s.drop_first();
        assert forall|j: int| 0 <= j < m - 1 implies !ends_run(k, #[trigger] t[j]) by {
            assert(t[j] == s[j + 1]);
        }
        lemma_run_len(t, k, m - 1);
    }
}

pub proof fn lemma_back_run_len(s: Seq<char>, k: Delim, m: int)
    requires
        0 <= m <= s.len(),
        forall|j: int| s.len() - m <= j < s.len() ==> !ends_run(k, #[trigger] s[j]),
        m == s.len() || ends_run(k, s[s.len() - m - 1]),
    ensures
        back_run_len(s, k) == m,
    decreases m,
{
    if m > 0 {
        let t = s.drop_last();
        assert forall|j: int| t.len() - (m - 1) <= j < t.len() implies !ends_run(
            k,
            #[trigger] t[j],
        ) by {
            assert(t[j] == s[j]);
        }
        lemma_back_run_len(t, k, m - 1);
    }
}

pub fn char_is_space(c: char) -> (r: bool)
    ensures
        r == is_space(c),
{
    let u = c as u32;
    (0x09 <= u && u <= 0x0d) || u == 0x20 || u == 0x85 || u == 0xa0 || u == 0x1680 || (0x2000
        <= u && u <= 0x200a) || u == 0x2028 || u == 0x2029 || u == 0x202f || u == 0x205f || u
        == 0x3000
}

pub fn char_ends_run(k: Delim, c: char) -> (r: bool)
    ensures
        r == ends_run(k, c),
{
    match k {
        Delim::Space => char_is_space(c),
        Delim::NonSpace => !char_is_space(c),
        Delim::Quote => c == '"',
        Delim::Dot => c == '.',
        Delim::NonVersion => !(('0' <= c && c <= '9') || c == '.'),
    }
}

/// The characters of `s`, in order.
pub fn chars_of(s: &str) -> (r: Vec<char>)
    ensures
        r@ == s@,
{
    let mut r: Vec<char> = Vec::new();
    for c in it: s.chars()
        invariant
            it.seq() == s@,
            r@ == it.seq().take(it.index() as int),
    {
        r.push(c);
    }
    assert(r@ =~= s@);
    r
}

/// The end of the run of `s` that starts at `from` and stops before the first
/// character of class `k`.
pub fn run_end(s: &Vec<char>, from: usize, k: Delim) -> (e: usize)
    requires
        from <= s.len(),
    ensures
        from <= e <= s.len(),
        e - from == run_len(s@.skip(from as int), k),
{
    let mut i: usize = from;
    while i < s.len() && !char_ends_run(k, s[i])
        invariant
            from <= i <= s.len(),
            forall|j: int| from <= j < i ==> !ends_run(k, #[trigger] s@[j]),
        decreases s.len() - i,
    {
        i = i + 1;
    }
    proof {
        let t = s@.skip(from as int);
        assert forall|j: int| 0 <= j < i - from implies !ends_run(k, #[trigger] t[j]) by {
            assert(t[j] == s@[from + j]);
        }
        lemma_run_len(t, k, i - from);
    }
    i
}

/// The start of the run of `s` that ends at `to` and reaches back to just after
/// the last character of class `k` before `to`.
pub fn back_run_start(s: &Vec<char>, to: usize, k: Delim) -> (b: usize)
    requires
        to <= s.len(),
    ensures
        b <= to,
        to - b == back_run_len(s@.take(to as int), k),
{
    let mut i: usize = to;
    while i > 0 && !char_ends_run(k, s[i - 1])
        invariant
            i <= to <= s.len(),
            forall|j: int| i <= j < to ==> !ends_run(k, #[trigger] s@[j]),
        decreases i,
    {
        i = i - 1;
    }
    proof {
        let t = s@.take(to as int);
        assert forall|j: int| t.len() - (to - i) <= j < t.len() implies !ends_run(
            k,
            #[trigger] t[j],
        ) by {
            assert(t[j] == s@[j]);
        }
        lemma_back_run_len(t, k, to - i);
    }
    i
}

/// The characters of `s` from `lo` up to `hi`.
pub fn slice_of(s: &Vec<char>, lo: usize, hi: usize) -> (r: Vec<char>)
    requires
        lo <= hi <= s.len(),
    ensures
        r@ == s@.subrange(lo as int, hi as int),
{
    let mut r: Vec<char> = Vec::new();
    let mut i: usize = lo;
    while i < hi
        invariant
            lo <= i <= hi <= s.len(),
            r@ == s@.subrange(lo as int, i as int),
        decreases hi - i,
    {
        r.push(s[i]);
        i = i + 1;
        assert(r@ =~= s@.subrange(lo as int, i as int));
    }
    r
}

/// The run of `s` that starts at `from` and stops before the first character
/// of class `k`.
pub fn run_at(s: &Vec<char>, from: usize, k: Delim) -> (r: Vec<char>)
    requires
        from <= s.len(),
    ensures
        r@ == run(s@.skip(from as int), k),
{
    let e = run_end(s, from, k);
    let r = slice_of(s, from, e);
    assert(r@ =~= run(s@.skip(from as int), k));
    r
}

/// The position just past the first occurrence of `p` in `s`.
pub fn after_marker(s: &Vec<char>, p: &Vec<char>) -> (r: Option<usize>)
    ensures
        match r {
            Some(e) => e <= s.len() && after_first(s@, p@) == Some(s@.skip(e as int)),
            None => after_first(s@, p@) is None,
        },
{
    match find(s, p, 0) {
        Some(i) => {
            proof {
                lemma_find_from_bounds(s@, p@, 0);
                assert(occurs_at(s@, p@, i as int));
                assert(i + p@.len() <= s.len());
            }
            Some(i + p.len())
        },
        None => None,
    }
}

/// `s` without its leading and trailing whitespace.
pub fn trimmed(s: &Vec<char>) -> (r: Vec<char>)
    ensures
        r@ == trim(s@),
{
    let a = run_end(s, 0, Delim::NonSpace);
    assert(s@.skip(0) =~= s@);
    let t = slice_of(s, a, s.len());
    assert(t@ =~= trim_start(s@));
    let b = back_run_start(&t, t.len(), Delim::NonSpace);
    assert(t@.take(t.len() as int) =~= t@);
    let r = slice_of(&t, 0, b);
    assert(r@ =~= trim(s@));
    r
}

pub open spec fn views_of(v: Seq<Vec<char>>) -> Seq<Seq<char>> {
    v.map_values(|x: Vec<char>| x@)
}

/// The pieces of `s` between the occurrences of `p` (see `split`).
pub fn split_pieces(s: &Vec<char>, p: &Vec<char>) -> (r: Vec<Vec<char>>)
    requires
        p.len() > 0,
    ensures
        views_of(r@) == split(s@, p@),
{
    let mut r: Vec<Vec<char>> = Vec::new();
    let mut pos: usize = 0;
    assert(s@.skip(0) =~= s@);
    assert(views_of(r@) + split(s@, p@) =~= split(s@, p@));
    loop
        invariant
            p.len() > 0,
            pos <= s.len(),
            split(s@, p@) == views_of(r@) + split(s@.skip(pos as int), p@),
        decreases s.len() - pos,
    {
        let ghost rest = s@.skip(pos as int);
        proof {
            lemma_find_shift(s@, p@, pos as int, 0);
            lemma_find_from_bounds(s@, p@, pos as int);
        }
        match find(s, p, pos) {
            Some(i) => {
                let piece = slice_of(s, pos, i);
                let ghost j = i - pos;
                assert(piece@ =~= rest.take(j));
                assert(rest.skip(j + p.len()) =~= s@.skip(i + p.len()));
                let ghost done = r@;
                r.push(piece);
                assert(views_of(r@) =~= views_of(done) + seq![piece@]);
                pos = i + p.len();
            },
            None => {
                let piece = slice_of(s, pos, s.len());
                assert(piece@ =~= rest);
                let ghost done = r@;
                r.push(piece);
                assert(views_of(r@) =~= views_of(done) + seq![piece@]);
                return r;
            },
        }
    }
}

/// Whether `p` occurs in `s` at position `i`.
pub fn matches_at(s: &Vec<char>, p: &Vec<char>, i: usize) -> (r: bool)
    ensures
        r == occurs_at(s@, p@, i as int),
{
    if i > s.len() || p.len() > s.len() - i {
        return false;
    }
    let mut j: usize = 0;
    while j < p.len()
        invariant
            i + p.len() <= s.len(),
            j <= p.len(),
            forall|m: int| 0 <= m < j ==> s@[i + m] == p@[m],
        decreases p.len() - j,
    {
        if s[i + j] != p[j] {
            assert(s@.subrange(i as int, i + p.len())[j as int] != p@[j as int]);
            return false;
        }
        j = j + 1;
    }
    assert(s@.subrange(i as int, i + p.len()) =~= p@);
    true
}

/// The first position at or after `from` where `p` occurs in `s`.
pub fn find(s: &Vec<char>, p: &Vec<char>, from: usize) -> (r: Option<usize>)
    ensures
        match r {
            Some(i) => find_from(s@, p@, from as int) == Some(i as int),
            None => find_from(s@, p@, from as int) is None,
        },
{
    let mut i: usize = from;
    loop
        invariant
            from <= i,
            find_from(s@, p@, from as int) == find_from(s@, p@, i as int),
        decreases s.len() + 1 - i,
    {
        if i > s.len() || p.len() > s.len() - i {
            return None;
        }
        proof {
            if p.len() == 0 {
                assert(s@.subrange(i as int, i as int) =~= p@);
            }
        }
        if matches_at(s, p, i) {
            return Some(i);
        }
        i = i + 1;
    }
}

/// `s` read as one logical line (see `normalize`).
pub fn normalized(s: &Vec<char>) -> (r: Vec<char>)
    ensures
        r@ == normalize(s@),
{
    let mut r: Vec<char> = Vec::new();
    let mut i: usize = 0;
    assert(s@.skip(0) =~= s@);
    assert(r@ + normalize(s@) =~= normalize(s@));
    while i < s.len()
        invariant
            i <= s.len(),
            normalize(s@) == r@ + normalize(s@.skip(i as int)),
        decreases s.len() - i,
    {
        let ghost t = s@.skip(i as int);
        if s.len() - i >= 3 && s[i] == '-' && s[i + 1] == '\n' && s[i + 2] == ' ' {
            r.push('-');
            assert(t.skip(3) =~= s@.skip(i + 3));
            i = i + 3;
        } else {
            if s[i] != '\n' {
                r.push(s[i]);
            }
            assert(t.drop_first() =~= s@.skip(i + 1));
            i = i + 1;
        }
        assert(normalize(s@) =~= r@ + normalize(s@.skip(i as int)));
    }
    assert(s@.skip(i as int) =~= Seq::<char>::empty());
    assert(r@ + Seq::<char>::empty() =~= r@);
    r
}

/// Relies on `String::push`: it appends the one character to the string.
#[verifier::external_body]
fn push_char(s: &mut String, c: char)
    ensures
        final(s)@ == old(s)@.push(c),
{
    s.push(c)
}

/// The string made of the characters of `v`.
pub fn string_of(v: &Vec<char>) -> (r: String)
    ensures
        r@ == v@,
{
    let mut r = String::new();
    let mut i: usize = 0;
    while i < v.len()
        invariant
            i <= v.len(),
            r@ == v@.take(i as int),
        decreases v.len() - i,
    {
        push_char(&mut r, v[i]);
        i = i + 1;
        assert(r@ =~= v@.take(i as int));
    }
    assert(v@.take(i as int) =~= v@);
    r
}

} // verus!
