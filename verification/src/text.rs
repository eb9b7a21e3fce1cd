//! Character-sequence utilities shared by the pipeline: first-occurrence
//! search, lexicographic comparison, substring search, and whitespace
//! handling.

use vstd::prelude::*;

verus! {

/// Index of the first occurrence of `c` in `s`, or `s.len()` when `c`
/// does not occur.
pub open spec fn first_index_of_or_len(s: Seq<char>, c: char) -> int {
    match s.index_of_first(c) {
        Some(i) => i,
        None => s.len() as int,
    }
}

pub proof fn lemma_first_index_of(s: Seq<char>, c: char)
    ensures
        0 <= first_index_of_or_len(s, c) <= s.len(),
        s.contains(c) ==> first_index_of_or_len(s, c) < s.len() && s[first_index_of_or_len(s, c)]
            == c,
        !s.contains(c) ==> first_index_of_or_len(s, c) == s.len(),
        forall|k: int| 0 <= k < first_index_of_or_len(s, c) ==> s[k] != c,
{
    s.index_of_first_ensures(c);
    if !s.contains(c) {
        assert(s.index_of_first(c) is None);
    }
}

/// Three-way lexicographic comparison of two character sequences by
/// code point: negative, zero or positive as `a` sorts before, equal
/// to, or after `b`.
pub open spec fn lex_cmp(a: Seq<char>, b: Seq<char>) -> int
    decreases a.len(),
{
    if a.len() == 0 && b.len() == 0 {
        0
    } else if a.len() == 0 {
        -1
    } else if b.len() == 0 {
        1
    } else if a[0] < b[0] {
        -1
    } else if b[0] < a[0] {
        1
    } else {
        lex_cmp(a.drop_first(), b.drop_first())
    }
}

pub proof fn lemma_lex_cmp_eq(a: Seq<char>, b: Seq<char>)
    ensures
        lex_cmp(a, b) == 0 <==> a == b,
    decreases a.len(),
{
    if a.len() == 0 && b.len() == 0 {
        assert(a =~= b);
    } else if a.len() == 0 || b.len() == 0 {
    } else if a[0] < b[0] || b[0] < a[0] {
        assert(a != b) by {
            if a == b {
                assert(a[0] == b[0]);
            }
        }
    } else {
        lemma_lex_cmp_eq(a.drop_first(), b.drop_first());
        if lex_cmp(a, b) == 0 {
            assert(a[0] == b[0]);
            assert(a =~= seq![a[0]] + a.drop_first());
            assert(b =~= seq![b[0]] + b.drop_first());
        } else {
            if a == b {
                assert(a.drop_first() =~= b.drop_first());
            }
        }
    }
}

pub proof fn lemma_lex_cmp_trans(a: Seq<char>, b: Seq<char>, c: Seq<char>)
    requires
        lex_cmp(a, b) < 0,
        lex_cmp(b, c) < 0,
    ensures
        lex_cmp(a, c) < 0,
    decreases a.len() + b.len() + c.len(),
{
    if a.len() == 0 {
        assert(b.len() > 0);
        assert(c.len() > 0);
    } else {
        assert(b.len() > 0);
        assert(c.len() > 0);
        if a[0] < b[0] {
            assert(!(c[0] < b[0]));
        } else {
            assert(a[0] == b[0]);
            if b[0] < c[0] {
            } else {
                assert(b[0] == c[0]);
                lemma_lex_cmp_trans(a.drop_first(), b.drop_first(), c.drop_first());
            }
        }
    }
}

pub proof fn lemma_lex_cmp_antisym(a: Seq<char>, b: Seq<char>)
    ensures
        lex_cmp(a, b) == -lex_cmp(b, a),
    decreases a.len(),
{
    if a.len() == 0 && b.len() == 0 {
    } else if a.len() == 0 || b.len() == 0 {
    } else if a[0] < b[0] || b[0] < a[0] {
    } else {
        lemma_lex_cmp_antisym(a.drop_first(), b.drop_first());
    }
}

proof fn lemma_lex_cmp_skip(a: Seq<char>, b: Seq<char>, i: int)
    requires
        0 <= i <= a.len(),
        i <= b.len(),
        forall|k: int| 0 <= k < i ==> a[k] == b[k],
    ensures
        lex_cmp(a, b) == lex_cmp(a.skip(i), b.skip(i)),
    decreases i,
{
    if i > 0 {
        assert(a.len() > 0 && b.len() > 0);
        assert(a[0] == b[0]);
        lemma_lex_cmp_skip(a.drop_first(), b.drop_first(), i - 1);
        assert(a.drop_first().skip(i - 1) =~= a.skip(i));
        assert(b.drop_first().skip(i - 1) =~= b.skip(i));
    } else {
        assert(a.skip(0) =~= a);
        assert(b.skip(0) =~= b);
    }
}

/// Three-way lexicographic comparison of two strings; the result is
/// negative, zero or positive as `a@` sorts before, equal to, or after
/// `b@` by code point.
pub fn str_cmp(a: &str, b: &str) -> (r: i8)
    ensures
        r as int == lex_cmp(a@, b@),
        -1 <= r <= 1,
{
    let alen = a.unicode_len();
    let blen = b.unicode_len();
    let mut i: usize = 0;
    loop
        invariant
            0 <= i <= alen,
            i <= blen,
            alen == a@.len(),
            blen == b@.len(),
            forall|k: int| 0 <= k < i ==> a@[k] == b@[k],
        decreases alen - i,
    {
        proof {
            lemma_lex_cmp_skip(a@, b@, i as int);
        }
        if i >= alen || i >= blen {
            if alen < blen {
                assert(a@.skip(i as int).len() == 0 && b@.skip(i as int).len() > 0);
                return -1;
            } else if blen < alen {
                assert(b@.skip(i as int).len() == 0 && a@.skip(i as int).len() > 0);
                return 1;
            } else {
                assert(a@.skip(i as int).len() == 0 && b@.skip(i as int).len() == 0);
                return 0;
            }
        }
        let ca = a.get_char(i);
        let cb = b.get_char(i);
        assert(a@.skip(i as int)[0] == ca && b@.skip(i as int)[0] == cb);
        if ca < cb {
            return -1;
        } else if cb < ca {
            return 1;
        }
        assert(a@[i as int] == b@[i as int]);
        i = i + 1;
    }
}

/// Whether the character `c` occurs in the string `s`.
pub fn str_contains_char(s: &str, c: char) -> (r: bool)
    ensures
        r == s@.contains(c),
{
    let slen = s.unicode_len();
    let mut i: usize = 0;
    while i < slen
        invariant
            0 <= i <= slen,
            slen == s@.len(),
            forall|k: int| 0 <= k < i ==> s@[k] != c,
        decreases slen - i,
    {
        if s.get_char(i) == c {
            assert(s@.contains(c)) by {
                assert(s@[i as int] == c);
            }
            return true;
        }
        i = i + 1;
    }
    proof {
        if s@.contains(c) {
            let w = choose|w: int| 0 <= w < s@.len() && s@[w] == c;
            assert(s@[w] != c);
        }
    }
    false
}

/// `s` ends with the suffix `sfx`.
pub open spec fn ends_with(s: Seq<char>, sfx: Seq<char>) -> bool {
    s.len() >= sfx.len() && s.skip(s.len() - sfx.len()) == sfx
}

/// Whether the string `s` ends with `sfx`.
pub fn str_ends_with(s: &str, sfx: &str) -> (r: bool)
    ensures
        r == ends_with(s@, sfx@),
{
    let slen = s.unicode_len();
    let flen = sfx.unicode_len();
    if slen < flen {
        return false;
    }
    let tail = s.substring_char(slen - flen, slen);
    assert(tail@ =~= s@.skip(s@.len() - sfx@.len()));
    let r = str_cmp(tail, sfx);
    proof {
        lemma_lex_cmp_eq(tail@, sfx@);
    }
    r == 0
}

/// Index of the first occurrence of the pattern `pat` in `s` at or
/// after position `from`, if any.
pub open spec fn find_sub_from(s: Seq<char>, pat: Seq<char>, from: int) -> Option<int>
    decreases s.len() - from,
{
    if from < 0 || pat.len() <= 0 || from + pat.len() > s.len() {
        None
    } else if s.subrange(from, from + pat.len() as int) == pat {
        Some(from)
    } else {
        find_sub_from(s, pat, from + 1)
    }
}

pub proof fn lemma_find_sub_from(s: Seq<char>, pat: Seq<char>, from: int)
    requires
        pat.len() > 0,
    ensures
        match find_sub_from(s, pat, from) {
            Some(i) => from <= i && i + pat.len() <= s.len() && s.subrange(i, i + pat.len() as int)
                == pat,
            None => true,
        },
    decreases s.len() - from,
{
    if !(from < 0 || pat.len() <= 0 || from + pat.len() > s.len()) && s.subrange(
        from,
        from + pat.len() as int,
    ) != pat {
        lemma_find_sub_from(s, pat, from + 1);
    }
}

proof fn lemma_find_sub_at(s: Seq<char>, pat: Seq<char>, from: int)
    requires
        0 <= from,
        pat.len() > 0,
        from + pat.len() <= s.len(),
        s.subrange(from, from + pat.len() as int) == pat,
    ensures
        find_sub_from(s, pat, from) == Some(from),
{
}

/// Position of the first occurrence of `pat` in `s`, if any.
pub fn str_find(s: &str, pat: &str) -> (r: Option<usize>)
    requires
        pat@.len() > 0,
    ensures
        match r {
            Some(i) => find_sub_from(s@, pat@, 0) == Some(i as int),
            None => find_sub_from(s@, pat@, 0) is None,
        },
{
    let slen = s.unicode_len();
    let plen = pat.unicode_len();
    if plen > slen {
        return None;
    }
    let mut from: usize = 0;
    loop
        invariant
            0 <= from <= slen - plen + 1,
            plen <= slen,
            slen == s@.len(),
            plen == pat@.len(),
            pat@.len() > 0,
            find_sub_from(s@, pat@, 0) == find_sub_from(s@, pat@, from as int),
        decreases slen - from,
    {
        if from > slen - plen {
            return None;
        }
        let window = s.substring_char(from, from + plen);
        let c = str_cmp(window, pat);
        proof {
            lemma_lex_cmp_eq(window@, pat@);
            assert(window@ == s@.subrange(from as int, from + plen));
        }
        if c == 0 {
            proof {
                lemma_find_sub_at(s@, pat@, from as int);
            }
            return Some(from);
        }
        from = from + 1;
    }
}

/// The characters Rust's whitespace test accepts.
pub open spec fn is_ws(c: char) -> bool {
    c == ' ' || c == '\t' || c == '\n' || c == '\r' || c == '\u{0B}' || c == '\u{0C}'
        || c == '\u{85}' || c == '\u{A0}' || c == '\u{1680}' || c == '\u{2000}' || c == '\u{2001}'
        || c == '\u{2002}' || c == '\u{2003}' || c == '\u{2004}' || c == '\u{2005}'
        || c == '\u{2006}' || c == '\u{2007}' || c == '\u{2008}' || c == '\u{2009}'
        || c == '\u{200A}' || c == '\u{2028}' || c == '\u{2029}' || c == '\u{202F}'
        || c == '\u{205F}' || c == '\u{3000}'
}

/// Whitespace test over the characters of `is_ws`.
pub fn is_whitespace_char(c: char) -> (r: bool)
    ensures
        r == is_ws(c),
{
    c == ' ' || c == '\t' || c == '\n' || c == '\r' || c == '\u{0B}' || c == '\u{0C}'
        || c == '\u{85}' || c == '\u{A0}' || c == '\u{1680}' || c == '\u{2000}' || c == '\u{2001}'
        || c == '\u{2002}' || c == '\u{2003}' || c == '\u{2004}' || c == '\u{2005}'
        || c == '\u{2006}' || c == '\u{2007}' || c == '\u{2008}' || c == '\u{2009}'
        || c == '\u{200A}' || c == '\u{2028}' || c == '\u{2029}' || c == '\u{202F}'
        || c == '\u{205F}' || c == '\u{3000}'
}

/// End (exclusive) of the whitespace-free run of `s` that starts at
/// `from`: the index of the first whitespace character at or after
/// `from`, or `s.len()` when there is none.
pub open spec fn token_end(s: Seq<char>, from: int) -> int
    decreases s.len() - from,
{
    if from < 0 || from >= s.len() {
        s.len() as int
    } else if is_ws(s[from]) {
        from
    } else {
        token_end(s, from + 1)
    }
}

/// The whitespace-terminated token of `s` beginning at `from`.
pub fn token_at(s: &str, from: usize) -> (r: String)
    requires
        from <= s@.len(),
    ensures
        r@ == s@.subrange(from as int, token_end(s@, from as int)),
{
    let slen = s.unicode_len();
    let mut end: usize = from;
    loop
        invariant
            from <= end <= slen,
            slen == s@.len(),
            token_end(s@, from as int) == token_end(s@, end as int),
        ensures
            from <= end <= slen,
            token_end(s@, from as int) == end as int,
        decreases slen - end,
    {
        if end >= slen {
            break;
        }
        let c = s.get_char(end);
        if is_whitespace_char(c) {
            break;
        }
        end = end + 1;
    }
    let tok = s.substring_char(from, end);
    assert(tok@ =~= s@.subrange(from as int, token_end(s@, from as int)));
    tok.to_owned()
}

/// First newline-delimited line of `s`.
pub open spec fn spec_first_line(s: Seq<char>) -> Seq<char> {
    s.take(first_index_of_or_len(s, '\n'))
}

/// First newline-delimited line of the string `s`.
pub fn first_line(s: &str) -> (r: String)
    ensures
        r@ == spec_first_line(s@),
{
    let slen = s.unicode_len();
    let mut end: usize = 0;
    loop
        invariant
            0 <= end <= slen,
            slen == s@.len(),
            forall|k: int| 0 <= k < end ==> s@[k] != '\n',
        ensures
            0 <= end <= slen,
            forall|k: int| 0 <= k < end ==> s@[k] != '\n',
            end < slen ==> s@[end as int] == '\n',
        decreases slen - end,
    {
        if end >= slen {
            break;
        }
        if s.get_char(end) == '\n' {
            break;
        }
        end = end + 1;
    }
    proof {
        lemma_first_index_of(s@, '\n');
        let w = first_index_of_or_len(s@, '\n');
        if end < slen {
            assert(s@.contains('\n')) by {
                assert(s@[end as int] == '\n');
            }
            assert(s@[w] == '\n');
            if w < end {
                assert(s@[w] != '\n');
            }
            if end < w {
                assert(s@[end as int] != '\n');
            }
        } else {
            if s@.contains('\n') {
                assert(w < s@.len());
                assert(s@[w] == '\n');
                assert(s@[w] != '\n');
            }
        }
        assert(end as int == first_index_of_or_len(s@, '\n'));
    }
    let line = s.substring_char(0, end);
    assert(line@ =~= spec_first_line(s@));
    line.to_owned()
}

} // verus!
