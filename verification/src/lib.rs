//! A verified pipeline that turns a build tool's structured diagnostic
//! stream into a browsable book: diagnostics are extracted, deduplicated
//! by message identity, grouped per originating crate, and rendered as a
//! deterministic tree of markdown pages.

pub mod text;
pub mod diag;
pub mod grouping;
pub mod book;
pub mod stream;

use vstd::prelude::*;

verus! {

/// First two space-separated tokens of a package identifier, rejoined
/// with a single space.
pub open spec fn spec_crate_name(s: Seq<char>) -> Seq<char>
    recommends
        s.contains(' '),
{
    let i = crate::text::first_index_of_or_len(s, ' ');
    let rest = s.skip(i + 1);
    let j = crate::text::first_index_of_or_len(rest, ' ');
    s.take(i) + seq![' '] + rest.take(j)
}

/// Derives the component key from a raw package identifier: its first
/// two space-separated tokens, rejoined with a single space.
pub fn crate_name(name: &str) -> (r: String)
    requires
        name@.contains(' '),
    ensures
        r@ == spec_crate_name(name@),
{
    proof {
        crate::text::lemma_first_index_of(name@, ' ');
    }
    let len = name.unicode_len();
    let mut i: usize = 0;
    loop
        invariant
            0 <= i <= len,
            len == name@.len(),
            name@.contains(' '),
            forall|k: int| 0 <= k < i ==> name@[k] != ' ',
        ensures
            0 <= i < len,
            i as int == crate::text::first_index_of_or_len(name@, ' '),
        decreases len - i,
    {
        proof {
            crate::text::lemma_first_index_of(name@, ' ');
        }
        if i >= len {
            proof {
                let w = crate::text::first_index_of_or_len(name@, ' ');
                assert(w < len && name@[w] == ' ');
                assert(name@[w] != ' ');
                assert(false);
            }
        }
        if name.get_char(i) == ' ' {
            proof {
                let w = crate::text::first_index_of_or_len(name@, ' ');
                assert(name@[w] == ' ');
                if w < i {
                    assert(name@[w] != ' ');
                }
                if i < w {
                    assert(name@[i as int] != ' ');
                }
            }
            break;
        }
        i = i + 1;
    }
    let first = name.substring_char(0, i);
    let rest = name.substring_char(i + 1, len);
    assert(rest@ =~= name@.skip(i + 1));
    let rlen = rest.unicode_len();
    let mut j: usize = 0;
    loop
        invariant
            0 <= j <= rlen,
            rlen == rest@.len(),
            forall|k: int| 0 <= k < j ==> rest@[k] != ' ',
        ensures
            0 <= j <= rlen,
            j as int == crate::text::first_index_of_or_len(rest@, ' '),
        decreases rlen - j,
    {
        proof {
            crate::text::lemma_first_index_of(rest@, ' ');
        }
        if j >= rlen {
            proof {
                if rest@.contains(' ') {
                    let w = crate::text::first_index_of_or_len(rest@, ' ');
                    assert(w < rlen && rest@[w] == ' ');
                    assert(rest@[w] != ' ');
                }
            }
            break;
        }
        if rest.get_char(j) == ' ' {
            proof {
                assert(rest@.contains(' ')) by {
                    assert(rest@[j as int] == ' ');
                }
                let w = crate::text::first_index_of_or_len(rest@, ' ');
                assert(rest@[w] == ' ');
                if w < j {
                    assert(rest@[w] != ' ');
                }
                if j < w {
                    assert(rest@[j as int] != ' ');
                }
            }
            break;
        }
        j = j + 1;
    }
    let second = rest.substring_char(0, j);
    let mut out = first.to_owned();
    out.append(" ");
    out.append(second);
    proof {
        assert(first@ =~= name@.take(i as int));
        assert(second@ =~= name@.skip(i + 1).take(j as int));
        assert(" "@ =~= seq![' ']) by {
            reveal_strlit(" ");
        }
        assert(out@ =~= spec_crate_name(name@));
    }
    out
}

/// A character rewritten for use in a file name: spaces and periods
/// become underscores.
pub open spec fn safe_char(c: char) -> char {
    if c == ' ' || c == '.' {
        '_'
    } else {
        c
    }
}

/// A component key rewritten character by character for use in a file
/// name.
pub open spec fn spec_safe_file_name(s: Seq<char>) -> Seq<char> {
    s.map_values(|c: char| safe_char(c))
}

/// Substitutes underscores for the spaces and periods of a component
/// key, making it filesystem-safe.
pub fn crate_safe_file_name(name: &str) -> (r: String)
    ensures
        r@ == spec_safe_file_name(name@),
{
    let len = name.unicode_len();
    let mut out = String::new();
    let mut i: usize = 0;
    while i < len
        invariant
            0 <= i <= len,
            len == name@.len(),
            out@ =~= name@.take(i as int).map_values(|c: char| safe_char(c)),
        decreases len - i,
    {
        let c = name.get_char(i);
        if c == ' ' || c == '.' {
            out.append("_");
            proof {
                reveal_strlit("_");
            }
        } else {
            let piece = name.substring_char(i, i + 1);
            assert(piece@ =~= seq![name@[i as int]]);
            out.append(piece);
        }
        i = i + 1;
        assert(out@ =~= name@.take(i as int).map_values(|c: char| safe_char(c)));
    }
    assert(name@.take(len as int) =~= name@);
    out
}

} // verus!
