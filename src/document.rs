//! The line layout of the module index: framing, lines, keys and the object
//! literal that each line holds.
use vstd::prelude::*;

verus! {

pub const NEWLINE: u8 = 0x0a;

pub const QUOTE: u8 = 0x22;

pub const COLON: u8 = 0x3a;

pub const OPEN_BRACE: u8 = 0x7b;

pub const CLOSE_BRACE: u8 = 0x7d;

pub const COMMA: u8 = 0x2c;

/// ASCII whitespace: space, tab, line feed, vertical tab, form feed, carriage return.
pub open spec fn is_space(b: u8) -> bool {
    b == 0x20 || b == 0x09 || b == 0x0a || b == 0x0b || b == 0x0c || b == 0x0d
}

/// What lies between the outer object's framing: two bytes off each end,
/// nothing when the document is too short to hold both framings.
pub open spec fn body_of(d: Seq<u8>) -> Seq<u8> {
    if d.len() >= 4 {
        d.subrange(2, d.len() - 2)
    } else {
        Seq::empty()
    }
}

/// Index of the first byte `c` at or after `i`, or `s.len()` when there is none.
pub open spec fn find_byte(s: Seq<u8>, c: u8, i: int) -> int
    decreases s.len() - i,
{
    if i < 0 || i >= s.len() {
        s.len() as int
    } else if s[i] == c {
        i
    } else {
        find_byte(s, c, i + 1)
    }
}

/// The newline-separated lines of `s` from `i` on; a final newline opens no
/// empty line.
pub open spec fn lines_from(s: Seq<u8>, i: int) -> Seq<Seq<u8>>
    decreases s.len() + 1 - i,
{
    if i < 0 || i >= s.len() {
        Seq::empty()
    } else {
        let j = find_byte(s, NEWLINE, i);
        if j < i || j > s.len() {
            Seq::empty()
        } else {
            seq![s.subrange(i, j)] + lines_from(s, j + 1)
        }
    }
}

/// The entry lines of a document.
pub open spec fn lines_of(d: Seq<u8>) -> Seq<Seq<u8>> {
    lines_from(body_of(d), 0)
}

/// The key of a line: what follows its first quote up to the next quote (or
/// the end of the line); empty when the line holds no quote.
pub open spec fn key_of(line: Seq<u8>) -> Seq<u8> {
    let a = find_byte(line, QUOTE, 0);
    if a >= line.len() {
        Seq::empty()
    } else {
        line.subrange(a + 1, find_byte(line, QUOTE, a + 1))
    }
}

/// Ordinal comparison of byte strings: negative, zero or positive.
pub open spec fn lex_cmp(a: Seq<u8>, b: Seq<u8>) -> int
    decreases a.len(),
{
    if a.len() == 0 {
        if b.len() == 0 {
            0
        } else {
            -1
        }
    } else if b.len() == 0 {
        1
    } else if a[0] < b[0] {
        -1
    } else if a[0] > b[0] {
        1
    } else {
        lex_cmp(a.drop_first(), b.drop_first())
    }
}

/// The keys of the document's lines never decrease.
pub open spec fn is_sorted(d: Seq<u8>) -> bool {
    forall|i: int, j: int|
        0 <= i < j < lines_of(d).len() ==> lex_cmp(
            #[trigger] key_of(lines_of(d)[i]),
            #[trigger] key_of(lines_of(d)[j]),
        ) <= 0
}

/// The keys of the document's lines strictly increase: each key stands once.
pub open spec fn is_strictly_sorted(d: Seq<u8>) -> bool {
    forall|i: int, j: int|
        0 <= i < j < lines_of(d).len() ==> lex_cmp(
            #[trigger] key_of(lines_of(d)[i]),
            #[trigger] key_of(lines_of(d)[j]),
        ) < 0
}

/// Some line of the document has this key.
pub open spec fn has_key(d: Seq<u8>, key: Seq<u8>) -> bool {
    exists|i: int| 0 <= i < lines_of(d).len() && key_of(#[trigger] lines_of(d)[i]) == key
}

/// Index of the first byte at or after `i` that is not whitespace, or `s.len()`.
pub open spec fn skip_space(s: Seq<u8>, i: int) -> int
    decreases s.len() - i,
{
    if i < 0 || i >= s.len() {
        s.len() as int
    } else if is_space(s[i]) {
        skip_space(s, i + 1)
    } else {
        i
    }
}

/// Index of the last `}` among the first `n` bytes of `s`, or -1.
pub open spec fn last_close(s: Seq<u8>, n: int) -> int
    decreases n,
{
    if n <= 0 || n > s.len() {
        -1
    } else if s[n - 1] == CLOSE_BRACE {
        n - 1
    } else {
        last_close(s, n - 1)
    }
}

/// The object literal of an entry line `  "<key>" : {...}[,]`: from the
/// opening brace after the colon to the last closing brace of the line.
pub open spec fn literal_of(line: Seq<u8>) -> Option<Seq<u8>> {
    let a = skip_space(line, 0);
    let q = find_byte(line, QUOTE, a + 1);
    let c = skip_space(line, q + 1);
    let o = skip_space(line, c + 1);
    let e = last_close(line, line.len() as int);
    if a < line.len() && line[a] == QUOTE && q < line.len() && c < line.len() && line[c] == COLON
        && o < line.len() && line[o] == OPEN_BRACE && e > o {
        Some(line.subrange(o, e + 1))
    } else {
        None
    }
}


/// The index of the line that holds `key`, where one does.
pub open spec fn key_index(d: Seq<u8>, key: Seq<u8>) -> int {
    choose|i: int| 0 <= i < lines_of(d).len() && key_of(#[trigger] lines_of(d)[i]) == key
}

/// In a document whose keys strictly increase, a key stands on one line only.
pub proof fn lemma_key_unique(d: Seq<u8>, i: int, j: int)
    requires
        is_strictly_sorted(d),
        0 <= i < lines_of(d).len(),
        0 <= j < lines_of(d).len(),
        key_of(lines_of(d)[i]) == key_of(lines_of(d)[j]),
    ensures
        i == j,
{
    lemma_lex_cmp_zero(key_of(lines_of(d)[i]), key_of(lines_of(d)[j]));
    if i < j {
        assert(lex_cmp(key_of(lines_of(d)[i]), key_of(lines_of(d)[j])) < 0);
    } else if j < i {
        assert(lex_cmp(key_of(lines_of(d)[j]), key_of(lines_of(d)[i])) < 0);
    }
}

proof fn lemma_skip_space_push(s: Seq<u8>, i: int)
    requires
        0 <= i <= s.len(),
    ensures
        skip_space(s.push(COMMA), i) == skip_space(s, i),
    decreases s.len() - i,
{
    if i < s.len() {
        assert(s.push(COMMA)[i] == s[i]);
        lemma_skip_space_push(s, i + 1);
    } else {
        assert(s.push(COMMA)[i] == COMMA);
    }
}

pub proof fn lemma_find_byte_push(s: Seq<u8>, c: u8, i: int)
    requires
        0 <= i <= s.len(),
        c != COMMA,
    ensures
        find_byte(s.push(COMMA), c, i) == if find_byte(s, c, i) < s.len() {
            find_byte(s, c, i)
        } else {
            s.len() + 1 as int
        },
    decreases s.len() - i,
{
    if i < s.len() {
        assert(s.push(COMMA)[i] == s[i]);
        lemma_find_byte_push(s, c, i + 1);
    } else {
        assert(s.push(COMMA)[i] == COMMA);
        assert(find_byte(s.push(COMMA), c, i + 1) == s.len() + 1);
    }
}

proof fn lemma_last_close_push(s: Seq<u8>, n: int)
    requires
        0 <= n <= s.len(),
    ensures
        last_close(s.push(COMMA), n) == last_close(s, n),
    decreases n,
{
    if n > 0 {
        assert(s.push(COMMA)[n - 1] == s[n - 1]);
        lemma_last_close_push(s, n - 1);
    }
}

/// A trailing comma on an entry line leaves its object literal unchanged.
pub proof fn law_literal_ignores_trailing_comma(line: Seq<u8>)
    ensures
        literal_of(line.push(COMMA)) == literal_of(line),
{
    let t = line.push(COMMA);
    let n = line.len() as int;
    lemma_skip_space_push(line, 0);
    let a = skip_space(line, 0);
    lemma_skip_space_bounds(line, 0);
    if a < n {
        assert(t[a] == line[a]);
        lemma_find_byte_push(line, QUOTE, a + 1);
        lemma_find_byte_bounds(line, QUOTE, a + 1);
        let q = find_byte(line, QUOTE, a + 1);
        if q < n {
            lemma_skip_space_push(line, q + 1);
            lemma_skip_space_bounds(line, q + 1);
            let c = skip_space(line, q + 1);
            if c < n {
                assert(t[c] == line[c]);
                lemma_skip_space_push(line, c + 1);
                lemma_skip_space_bounds(line, c + 1);
                let o = skip_space(line, c + 1);
                if o < n {
                    assert(t[o] == line[o]);
                } else {
                    assert(t[o] == COMMA);
                }
                lemma_last_close_push(line, n);
                lemma_last_close_bounds(line, n);
                assert(last_close(t, n + 1) == last_close(t, n));
                let e = last_close(line, n);
                if e > o && o < n {
                    assert(t.subrange(o, e + 1) =~= line.subrange(o, e + 1));
                }
            } else {
                assert(t[c] == COMMA);
            }
        }
    } else {
        assert(t[a] == COMMA);
    }
}

proof fn lemma_skip_space_bounds(s: Seq<u8>, i: int)
    requires
        0 <= i <= s.len(),
    ensures
        i <= skip_space(s, i) <= s.len(),
    decreases s.len() - i,
{
    if i < s.len() && is_space(s[i]) {
        lemma_skip_space_bounds(s, i + 1);
    }
}

proof fn lemma_last_close_bounds(s: Seq<u8>, n: int)
    requires
        0 <= n <= s.len(),
    ensures
        -1 <= last_close(s, n) < n,
    decreases n,
{
    if n > 0 && s[n - 1] != CLOSE_BRACE {
        lemma_last_close_bounds(s, n - 1);
    }
}

/// The byte strings that the spans `(start, end)` mark in `d`.
pub open spec fn span_lines(d: Seq<u8>, spans: Seq<(usize, usize)>) -> Seq<Seq<u8>> {
    spans.map_values(|p: (usize, usize)| d.subrange(p.0 as int, p.1 as int))
}

pub proof fn lemma_find_byte_bounds(s: Seq<u8>, c: u8, i: int)
    requires
        0 <= i,
    ensures
        i <= find_byte(s, c, i) <= s.len() || (i > s.len() && find_byte(s, c, i) == s.len()),
        find_byte(s, c, i) < s.len() ==> s[find_byte(s, c, i)] == c,
    decreases s.len() - i,
{
    if i < s.len() && s[i] != c {
        lemma_find_byte_bounds(s, c, i + 1);
    }
}

/// Ordinal comparison is antisymmetric.
pub proof fn lemma_lex_cmp_antisym(a: Seq<u8>, b: Seq<u8>)
    ensures
        lex_cmp(a, b) == -lex_cmp(b, a),
        -1 <= lex_cmp(a, b) <= 1,
    decreases a.len(),
{
    if a.len() > 0 && b.len() > 0 && a[0] == b[0] {
        lemma_lex_cmp_antisym(a.drop_first(), b.drop_first());
    }
}

/// Ordinal comparison finds two byte strings equal exactly when they are.
pub proof fn lemma_lex_cmp_zero(a: Seq<u8>, b: Seq<u8>)
    ensures
        (lex_cmp(a, b) == 0) == (a == b),
    decreases a.len(),
{
    if a.len() > 0 && b.len() > 0 && a[0] == b[0] {
        lemma_lex_cmp_zero(a.drop_first(), b.drop_first());
        if a.drop_first() == b.drop_first() {
            assert(a =~= seq![a[0]] + a.drop_first());
            assert(b =~= seq![b[0]] + b.drop_first());
        }
    } else if a.len() > 0 && b.len() > 0 {
        assert(a[0] != b[0]);
    } else if a.len() == 0 && b.len() != 0 {
        assert(a != b);
    } else if a.len() != 0 && b.len() == 0 {
        assert(a != b);
    } else if a.len() == 0 && b.len() == 0 {
        assert(a =~= b);
    }
}

fn space_byte(b: u8) -> (r: bool)
    ensures
        r == is_space(b),
{
    b == 0x20 || b == 0x09 || b == 0x0a || b == 0x0b || b == 0x0c || b == 0x0d
}

/// First `c` at or after `i` in the window `d[lo..hi]`, as an index into the window.
pub fn find_byte_in(d: &[u8], lo: usize, hi: usize, c: u8, i: usize) -> (r: usize)
    requires
        lo <= hi <= d@.len(),
        i <= hi - lo,
    ensures
        r as int == find_byte(d@.subrange(lo as int, hi as int), c, i as int),
        i <= r <= hi - lo,
{
    let ghost s = d@.subrange(lo as int, hi as int);
    let n = hi - lo;
    let mut j = i;
    while j < n && d[lo + j] != c
        invariant
            n == hi - lo,
            lo <= hi <= d@.len(),
            s == d@.subrange(lo as int, hi as int),
            i <= j <= n,
            find_byte(s, c, j as int) == find_byte(s, c, i as int),
        decreases n - j,
    {
        j += 1;
    }
    j
}

/// First non-whitespace byte at or after `i` in the window `d[lo..hi]`.
pub fn skip_space_in(d: &[u8], lo: usize, hi: usize, i: usize) -> (r: usize)
    requires
        lo <= hi <= d@.len(),
        i <= hi - lo,
    ensures
        r as int == skip_space(d@.subrange(lo as int, hi as int), i as int),
        i <= r <= hi - lo,
{
    let ghost s = d@.subrange(lo as int, hi as int);
    let n = hi - lo;
    let mut j = i;
    while j < n && space_byte(d[lo + j])
        invariant
            n == hi - lo,
            lo <= hi <= d@.len(),
            s == d@.subrange(lo as int, hi as int),
            i <= j <= n,
            skip_space(s, j as int) == skip_space(s, i as int),
        decreases n - j,
    {
        j += 1;
    }
    j
}

/// Last `}` of the window `d[lo..hi]`, as an index into the window.
pub fn last_close_in(d: &[u8], lo: usize, hi: usize) -> (r: Option<usize>)
    requires
        lo <= hi <= d@.len(),
    ensures
        match r {
            Some(e) => e < hi - lo && e as int == last_close(
                d@.subrange(lo as int, hi as int),
                (hi - lo) as int,
            ),
            None => last_close(d@.subrange(lo as int, hi as int), (hi - lo) as int) == -1,
        },
{
    let ghost s = d@.subrange(lo as int, hi as int);
    let mut n = hi - lo;
    while n > 0
        invariant
            lo <= hi <= d@.len(),
            s == d@.subrange(lo as int, hi as int),
            n <= hi - lo,
            last_close(s, n as int) == last_close(s, (hi - lo) as int),
        decreases n,
    {
        if d[lo + n - 1] == CLOSE_BRACE {
            return Some(n - 1);
        }
        n -= 1;
    }
    None
}

/// The lines of the window `d[lo..hi]`, as spans into `d`.
pub fn line_spans(d: &[u8], lo: usize, hi: usize) -> (r: Vec<(usize, usize)>)
    requires
        lo <= hi <= d@.len(),
    ensures
        span_lines(d@, r@) == lines_from(d@.subrange(lo as int, hi as int), 0),
        forall|k: int| 0 <= k < r@.len() ==> lo <= (#[trigger] r@[k]).0 <= r@[k].1 <= hi,
{
    let ghost s = d@.subrange(lo as int, hi as int);
    let n = hi - lo;
    let mut spans: Vec<(usize, usize)> = Vec::new();
    let mut i: usize = 0;
    while i < n
        invariant
            n == hi - lo,
            lo <= hi <= d@.len(),
            s == d@.subrange(lo as int, hi as int),
            i <= n,
            lines_from(s, 0) == span_lines(d@, spans@) + lines_from(s, i as int),
            forall|k: int| 0 <= k < spans@.len() ==> lo <= (#[trigger] spans@[k]).0 <= spans@[k].1 <= hi,
        decreases n - i,
    {
        let j = find_byte_in(d, lo, hi, NEWLINE, i);
        let ghost before = spans@;
        spans.push((lo + i, lo + j));
        assert(d@.subrange((lo + i) as int, (lo + j) as int) =~= s.subrange(i as int, j as int));
        assert(span_lines(d@, spans@) =~= span_lines(d@, before) + seq![s.subrange(i as int, j as int)]);
        assert(lines_from(s, i as int) == seq![s.subrange(i as int, j as int)] + lines_from(s, j + 1));
        if j >= n {
            i = n;
            assert(lines_from(s, i as int) =~= lines_from(s, j + 1));
        } else {
            i = j + 1;
        }
        assert(lines_from(s, 0) =~= span_lines(d@, spans@) + lines_from(s, i as int));
    }
    assert(lines_from(s, i as int) =~= Seq::<Seq<u8>>::empty());
    assert(lines_from(s, 0) =~= span_lines(d@, spans@));
    spans
}


/// The key of the line `d[a..b]`, as a span into `d`.
pub fn key_span(d: &[u8], a: usize, b: usize) -> (r: (usize, usize))
    requires
        a <= b <= d@.len(),
    ensures
        a <= r.0 <= r.1 <= b,
        d@.subrange(r.0 as int, r.1 as int) == key_of(d@.subrange(a as int, b as int)),
{
    let ghost line = d@.subrange(a as int, b as int);
    let q = find_byte_in(d, a, b, QUOTE, 0);
    if q >= b - a {
        assert(d@.subrange(a as int, a as int) =~= Seq::<u8>::empty());
        (a, a)
    } else {
        let e = find_byte_in(d, a, b, QUOTE, q + 1);
        assert(d@.subrange((a + q + 1) as int, (a + e) as int) =~= line.subrange(
            q + 1,
            e as int,
        ));
        (a + q + 1, a + e)
    }
}

/// Ordinal comparison of `d[a..b]` with `k`.
pub fn compare_bytes(d: &[u8], a: usize, b: usize, k: &[u8]) -> (r: i8)
    requires
        a <= b <= d@.len(),
    ensures
        r as int == lex_cmp(d@.subrange(a as int, b as int), k@),
{
    let ghost x = d@.subrange(a as int, b as int);
    let ghost y = k@;
    let m = b - a;
    let mut i: usize = 0;
    assert(x.subrange(0, m as int) =~= x);
    assert(y.subrange(0, y.len() as int) =~= y);
    while i < m && i < k.len() && d[a + i] == k[i]
        invariant
            m == b - a,
            a <= b <= d@.len(),
            x == d@.subrange(a as int, b as int),
            y == k@,
            i <= m,
            i <= k@.len(),
            lex_cmp(x, y) == lex_cmp(x.subrange(i as int, m as int), y.subrange(i as int, y.len() as int)),
        decreases m - i,
    {
        assert(x.subrange(i as int, m as int).drop_first() =~= x.subrange(i + 1, m as int));
        assert(y.subrange(i as int, y.len() as int).drop_first() =~= y.subrange(i + 1, y.len() as int));
        i += 1;
    }
    if i == m {
        if i == k.len() {
            0
        } else {
            -1
        }
    } else if i == k.len() {
        1
    } else if d[a + i] < k[i] {
        -1
    } else {
        1
    }
}

/// The object literal of the line `d[a..b]`, as a span into `d`.
pub fn literal_span(d: &[u8], a: usize, b: usize) -> (r: Option<(usize, usize)>)
    requires
        a <= b <= d@.len(),
    ensures
        match r {
            Some(p) => a <= p.0 <= p.1 <= b && literal_of(d@.subrange(a as int, b as int)) == Some(
                d@.subrange(p.0 as int, p.1 as int),
            ),
            None => literal_of(d@.subrange(a as int, b as int)) is None,
        },
{
    let ghost line = d@.subrange(a as int, b as int);
    let n = b - a;
    let s0 = skip_space_in(d, a, b, 0);
    if s0 >= n || d[a + s0] != QUOTE {
        return None;
    }
    let q = find_byte_in(d, a, b, QUOTE, s0 + 1);
    if q >= n {
        return None;
    }
    let c = skip_space_in(d, a, b, q + 1);
    if c >= n || d[a + c] != COLON {
        return None;
    }
    let o = skip_space_in(d, a, b, c + 1);
    if o >= n || d[a + o] != OPEN_BRACE {
        return None;
    }
    match last_close_in(d, a, b) {
        Some(e) => {
            if e > o {
                assert(d@.subrange((a + o) as int, (a + e + 1) as int) =~= line.subrange(
                    o as int,
                    e + 1,
                ));
                Some((a + o, a + e + 1))
            } else {
                None
            }
        },
        None => None,
    }
}

} // verus!
