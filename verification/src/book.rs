//! The document tree builder: renders a grouping into an in-memory book
//! (manifest, summary page, one page per component, one detail page per
//! group), with deterministic file names derived from component keys
//! and group indices.

use vstd::prelude::*;

use crate::diag::{CodeView, Diagnostic, DiagnosticCode, DiagView};
use crate::grouping::{ComponentGroups, ComponentView, Group, Grouping, GroupView};
use crate::text;

verus! {

/// The decimal digit character for `n`.
pub open spec fn digit_char(n: int) -> char
    recommends
        0 <= n <= 9,
{
    if n == 0 {
        '0'
    } else if n == 1 {
        '1'
    } else if n == 2 {
        '2'
    } else if n == 3 {
        '3'
    } else if n == 4 {
        '4'
    } else if n == 5 {
        '5'
    } else if n == 6 {
        '6'
    } else if n == 7 {
        '7'
    } else if n == 8 {
        '8'
    } else {
        '9'
    }
}

/// The decimal rendering of a non-negative integer, most significant
/// digit first.
pub open spec fn dec_rep(n: int) -> Seq<char>
    recommends
        n >= 0,
    decreases n,
{
    if n < 10 {
        seq![digit_char(n)]
    } else {
        dec_rep(n / 10).push(digit_char(n % 10))
    }
}

/// A decimal digit character.
pub open spec fn is_digit(c: char) -> bool {
    '0' <= c && c <= '9'
}

pub proof fn lemma_dec_rep_digits(n: int)
    requires
        n >= 0,
    ensures
        dec_rep(n).len() >= 1,
        forall|i: int| 0 <= i < dec_rep(n).len() ==> is_digit(#[trigger] dec_rep(n)[i]),
    decreases n,
{
    if n >= 10 {
        lemma_dec_rep_digits(n / 10);
        assert forall|i: int| 0 <= i < dec_rep(n).len() implies is_digit(
            #[trigger] dec_rep(n)[i],
        ) by {
            if i < dec_rep(n).len() - 1 {
                assert(dec_rep(n)[i] == dec_rep(n / 10)[i]);
            }
        }
    }
}

pub proof fn lemma_dec_rep_injective(a: int, b: int)
    requires
        a >= 0,
        b >= 0,
        dec_rep(a) == dec_rep(b),
    ensures
        a == b,
    decreases a + b,
{
    lemma_dec_rep_digits(a);
    lemma_dec_rep_digits(b);
    if a < 10 && b < 10 {
        assert(dec_rep(a)[0] == digit_char(a));
        assert(dec_rep(b)[0] == digit_char(b));
    } else if a < 10 && b >= 10 {
        lemma_dec_rep_digits(b / 10);
        assert(dec_rep(b).len() >= 2);
    } else if a >= 10 && b < 10 {
        lemma_dec_rep_digits(a / 10);
        assert(dec_rep(a).len() >= 2);
    } else {
        assert(dec_rep(a).last() == digit_char(a % 10));
        assert(dec_rep(b).last() == digit_char(b % 10));
        assert(a % 10 == b % 10);
        assert(dec_rep(a).drop_last() =~= dec_rep(a / 10));
        assert(dec_rep(b).drop_last() =~= dec_rep(b / 10));
        lemma_dec_rep_injective(a / 10, b / 10);
        vstd::arithmetic::div_mod::lemma_fundamental_div_mod(a, 10);
        vstd::arithmetic::div_mod::lemma_fundamental_div_mod(b, 10);
    }
}

fn digit_str(d: usize) -> (r: &'static str)
    requires
        d < 10,
    ensures
        r@ == seq![digit_char(d as int)],
{
    proof {
        reveal_strlit("0");
        reveal_strlit("1");
        reveal_strlit("2");
        reveal_strlit("3");
        reveal_strlit("4");
        reveal_strlit("5");
        reveal_strlit("6");
        reveal_strlit("7");
        reveal_strlit("8");
        reveal_strlit("9");
    }
    if d == 0 {
        "0"
    } else if d == 1 {
        "1"
    } else if d == 2 {
        "2"
    } else if d == 3 {
        "3"
    } else if d == 4 {
        "4"
    } else if d == 5 {
        "5"
    } else if d == 6 {
        "6"
    } else if d == 7 {
        "7"
    } else if d == 8 {
        "8"
    } else {
        "9"
    }
}

/// Decimal rendering of `n`.
pub fn usize_to_dec(n: usize) -> (r: String)
    ensures
        r@ == dec_rep(n as int),
    decreases n,
{
    if n < 10 {
        digit_str(n).to_owned()
    } else {
        let mut s = usize_to_dec(n / 10);
        s.append(digit_str(n % 10));
        proof {
            assert(s@ =~= dec_rep(n as int));
        }
        s
    }
}

/// The file name of a component's page: the safe form of its key,
/// with the page suffix.
pub open spec fn spec_component_file_name(key: Seq<char>) -> Seq<char> {
    crate::spec_safe_file_name(key) + ".md"@
}

/// The file name of a group's detail page: the group's index within its
/// component, then the component's file name.
pub open spec fn spec_detail_file_name(key: Seq<char>, idx: int) -> Seq<char> {
    dec_rep(idx) + spec_component_file_name(key)
}

/// File name of a component's page.
pub fn component_file_name(key: &str) -> (r: String)
    ensures
        r@ == spec_component_file_name(key@),
{
    let mut s = crate::crate_safe_file_name(key);
    s.append(".md");
    s
}

/// File name of a group's detail page.
pub fn detail_file_name(key: &str, idx: usize) -> (r: String)
    ensures
        r@ == spec_detail_file_name(key@, idx as int),
{
    let mut s = usize_to_dec(idx);
    let f = component_file_name(key);
    s.append(f.as_str());
    s
}

/// File naming is a pure function of component key and group index, and
/// two distinct groups of one run get distinct file names, provided the
/// safe key forms do not start with a digit and do not collide.
pub proof fn lemma_detail_file_names_injective(k1: Seq<char>, i1: int, k2: Seq<char>, i2: int)
    requires
        i1 >= 0,
        i2 >= 0,
        k1.len() > 0,
        k2.len() > 0,
        !is_digit(crate::spec_safe_file_name(k1)[0]),
        !is_digit(crate::spec_safe_file_name(k2)[0]),
        i1 != i2 || crate::spec_safe_file_name(k1) != crate::spec_safe_file_name(k2),
    ensures
        spec_detail_file_name(k1, i1) != spec_detail_file_name(k2, i2),
{
    lemma_dec_rep_digits(i1);
    lemma_dec_rep_digits(i2);
    let d1 = dec_rep(i1);
    let d2 = dec_rep(i2);
    let c1 = spec_component_file_name(k1);
    let c2 = spec_component_file_name(k2);
    let s1 = spec_detail_file_name(k1, i1);
    let s2 = spec_detail_file_name(k2, i2);
    if s1 == s2 {
        assert(s1.len() == d1.len() + c1.len());
        assert(s2.len() == d2.len() + c2.len());
        assert(c1[0] == crate::spec_safe_file_name(k1)[0]);
        assert(c2[0] == crate::spec_safe_file_name(k2)[0]);
        if d1.len() < d2.len() {
            assert(s1[d1.len() as int] == c1[0]);
            assert(s2[d1.len() as int] == d2[d1.len() as int]);
            assert(false);
        }
        if d2.len() < d1.len() {
            assert(s2[d2.len() as int] == c2[0]);
            assert(s1[d2.len() as int] == d1[d2.len() as int]);
            assert(false);
        }
        assert(d1 =~= d2) by {
            assert forall|k: int| 0 <= k < d1.len() implies d1[k] == d2[k] by {
                assert(s1[k] == d1[k]);
                assert(s2[k] == d2[k]);
            }
        }
        lemma_dec_rep_injective(i1, i2);
        assert(c1 =~= c2) by {
            assert forall|k: int| 0 <= k < c1.len() implies c1[k] == c2[k] by {
                assert(s1[d1.len() + k] == c1[k]);
                assert(s2[d2.len() + k] == c2[k]);
            }
        }
        assert(crate::spec_safe_file_name(k1) =~= crate::spec_safe_file_name(k2)) by {
            assert forall|k: int| 0 <= k < crate::spec_safe_file_name(k1).len() implies crate::spec_safe_file_name(
                k1,
            )[k] == crate::spec_safe_file_name(k2)[k] by {
                assert(c1[k] == crate::spec_safe_file_name(k1)[k]);
                assert(c2[k] == crate::spec_safe_file_name(k2)[k]);
            }
        }
        assert(false);
    }
}

/// A canonical error-index code: starts with `E`, at most six
/// characters in all.
pub open spec fn is_error_index_code(c: Seq<char>) -> bool {
    c.len() >= 1 && c[0] == 'E' && c.len() <= 6
}

/// Keeps every character that is not a literal square bracket.
pub open spec fn bracket_pred() -> spec_fn(char) -> bool {
    |c: char| c != '[' && c != ']'
}

/// Everything of `s` but literal square brackets, for display labels.
pub open spec fn spec_strip_brackets(s: Seq<char>) -> Seq<char> {
    s.filter(bracket_pred())
}

/// Display label form of an identity: literal square brackets removed.
pub fn strip_brackets(s: &str) -> (r: String)
    ensures
        r@ == spec_strip_brackets(s@),
{
    let len = s.unicode_len();
    let mut out = String::new();
    let mut i: usize = 0;
    while i < len
        invariant
            0 <= i <= len,
            len == s@.len(),
            out@ == s@.take(i as int).filter(bracket_pred()),
        decreases len - i,
    {
        let c = s.get_char(i);
        proof {
            crate::grouping::lemma_filter_push(s@.take(i as int), s@[i as int], bracket_pred());
            assert(s@.take(i + 1) =~= s@.take(i as int).push(s@[i as int]));
        }
        if c != '[' && c != ']' {
            let piece = s.substring_char(i, i + 1);
            assert(piece@ =~= seq![s@[i as int]]);
            out.append(piece);
            proof {
                assert(out@ =~= s@.take(i + 1).filter(bracket_pred()));
            }
        }
        i = i + 1;
    }
    proof {
        assert(s@.take(len as int) =~= s@);
    }
    out
}

/// `s` with every occurrence of `pat` replaced by `rep`, scanning left
/// to right.
pub open spec fn spec_replace(s: Seq<char>, pat: Seq<char>, rep: Seq<char>) -> Seq<char>
    decreases s.len(),
{
    if pat.len() == 0 || s.len() < pat.len() {
        s
    } else if s.take(pat.len() as int) == pat {
        rep + spec_replace(s.skip(pat.len() as int), pat, rep)
    } else {
        seq![s[0]] + spec_replace(s.drop_first(), pat, rep)
    }
}

/// Replaces every occurrence of `pat` in `s` with `rep`, scanning left
/// to right.
pub fn replace_all(s: &str, pat: &str, rep: &str) -> (r: String)
    requires
        pat@.len() > 0,
    ensures
        r@ == spec_replace(s@, pat@, rep@),
{
    let slen = s.unicode_len();
    let plen = pat.unicode_len();
    let mut out = String::new();
    let mut i: usize = 0;
    proof {
        assert(s@.skip(0) =~= s@);
        assert(Seq::<char>::empty() + spec_replace(s@, pat@, rep@) =~= spec_replace(
            s@,
            pat@,
            rep@,
        ));
    }
    while i < slen
        invariant
            0 <= i <= slen,
            slen == s@.len(),
            plen == pat@.len(),
            plen > 0,
            spec_replace(s@, pat@, rep@) == out@ + spec_replace(s@.skip(i as int), pat@, rep@),
        decreases slen - i,
    {
        let ghost sfx = s@.skip(i as int);
        if plen <= slen - i {
            let window = s.substring_char(i, i + plen);
            proof {
                text::lemma_lex_cmp_eq(window@, pat@);
                assert(sfx.take(plen as int) =~= window@);
            }
            let c = text::str_cmp(window, pat);
            if c == 0 {
                out.append(rep);
                proof {
                    assert(sfx.skip(plen as int) =~= s@.skip(i + plen));
                    assert(spec_replace(sfx, pat@, rep@) == rep@ + spec_replace(
                        s@.skip(i + plen),
                        pat@,
                        rep@,
                    ));
                    assert(out@ + spec_replace(s@.skip(i + plen), pat@, rep@) =~= spec_replace(
                        s@,
                        pat@,
                        rep@,
                    ));
                }
                i = i + plen;
                continue ;
            }
        }
        let piece = s.substring_char(i, i + 1);
        assert(piece@ =~= seq![s@[i as int]]);
        out.append(piece);
        proof {
            assert(sfx[0] == s@[i as int]);
            assert(sfx.drop_first() =~= s@.skip(i + 1));
            if sfx.len() >= plen {
                assert(spec_replace(sfx, pat@, rep@) == seq![sfx[0]] + spec_replace(
                    s@.skip(i + 1),
                    pat@,
                    rep@,
                ));
            } else {
                assert(spec_replace(sfx, pat@, rep@) == sfx);
                assert(sfx =~= seq![sfx[0]] + sfx.drop_first());
                assert(spec_replace(s@.skip(i + 1), pat@, rep@) == s@.skip(i + 1));
            }
            assert(out@ + spec_replace(s@.skip(i + 1), pat@, rep@) =~= spec_replace(
                s@,
                pat@,
                rep@,
            ));
        }
        i = i + 1;
    }
    proof {
        assert(s@.skip(slen as int) =~= Seq::<char>::empty());
        assert(spec_replace(Seq::<char>::empty(), pat@, rep@) == Seq::<char>::empty());
        assert(out@ + Seq::<char>::empty() =~= out@);
        assert(s@.skip(0) =~= s@);
    }
    out
}

/// The resource link of a code: the canonical error-index page for an
/// error-index code; otherwise the first `https://` token embedded in
/// the explanation; otherwise a web search for the code.
pub open spec fn spec_resource_url(code: CodeView) -> Seq<char> {
    if is_error_index_code(code.code) {
        "https://doc.rust-lang.org/error-index.html#"@ + code.code
    } else {
        match code.explanation {
            Some(e) => match text::find_sub_from(e, "https://"@, 0) {
                Some(i) => e.subrange(i, text::token_end(e, i)),
                None => "https://duckduckgo.com/?q=rust+"@ + code.code,
            },
            None => "https://duckduckgo.com/?q=rust+"@ + code.code,
        }
    }
}

/// Derives the resource link for a diagnostic code, as
/// `spec_resource_url` states.
pub fn resource_url(code: &DiagnosticCode) -> (r: String)
    ensures
        r@ == spec_resource_url(code@),
{
    let clen = code.code.unicode_len();
    if clen >= 1 && clen <= 6 && code.code.as_str().get_char(0) == 'E' {
        let mut s = "https://doc.rust-lang.org/error-index.html#".to_owned();
        s.append(code.code.as_str());
        return s;
    }
    match &code.explanation {
        Some(e) => {
            proof {
                reveal_strlit("https://");
            }
            match text::str_find(e.as_str(), "https://") {
                Some(i) => {
                    proof {
                        text::lemma_find_sub_from(e@, "https://"@, 0);
                    }
                    text::token_at(e.as_str(), i)
                },
                None => {
                    let mut s = "https://duckduckgo.com/?q=rust+".to_owned();
                    s.append(code.code.as_str());
                    s
                },
            }
        },
        None => {
            let mut s = "https://duckduckgo.com/?q=rust+".to_owned();
            s.append(code.code.as_str());
            s
        },
    }
}

/// The rendered block of one occurrence: the identity as a title, the
/// rendered text verbatim, then (when a code is present) the optional
/// explanation block and the resource link.
pub open spec fn spec_occ_block(d: DiagView) -> Seq<char> {
    let head = "# "@ + d.identity + "\n```rust,noplaypen\n"@ + d.rendered + "\n```\n\n\n"@;
    match d.code {
        None => head,
        Some(code) => head + spec_expl_block(code) + "\n\n( [Explain "@ + code.code
            + " to me]("@ + spec_resource_url(code) + ") )\n\n"@,
    }
}

/// The explanation block of a code, if it has one, with code fences
/// given the language tag.
pub open spec fn spec_expl_block(code: CodeView) -> Seq<char> {
    match code.explanation {
        None => Seq::<char>::empty(),
        Some(e) => "\n## Explanation:\n"@ + spec_replace(e, "\n\n```"@, "\n\n```rust"@),
    }
}

/// Renders one occurrence block.
pub fn occ_block(d: &Diagnostic) -> (r: String)
    ensures
        r@ == spec_occ_block(d@),
{
    let mut out = "# ".to_owned();
    out.append(d.identity.as_str());
    out.append("\n```rust,noplaypen\n");
    out.append(d.rendered.as_str());
    out.append("\n```\n\n\n");
    match &d.code {
        None => {},
        Some(code) => {
            match &code.explanation {
                None => {},
                Some(e) => {
                    out.append("\n## Explanation:\n");
                    proof {
                        reveal_strlit("\n\n```");
                    }
                    let rep = replace_all(e.as_str(), "\n\n```", "\n\n```rust");
                    out.append(rep.as_str());
                },
            }
            out.append("\n\n( [Explain ");
            out.append(code.code.as_str());
            out.append(" to me](");
            let url = resource_url(code);
            out.append(url.as_str());
            out.append(") )\n\n");
        },
    }
    proof {
        assert(out@ =~= spec_occ_block(d@));
    }
    out
}

/// A group's detail page: the blocks of all its occurrences, first to
/// last.
pub open spec fn spec_occ_blocks(occs: Seq<DiagView>, n: int) -> Seq<char>
    decreases n,
{
    if n <= 0 {
        Seq::<char>::empty()
    } else {
        spec_occ_blocks(occs, n - 1) + spec_occ_block(occs[n - 1])
    }
}

/// Content of a group's detail page.
pub open spec fn spec_detail_content(g: GroupView) -> Seq<char> {
    spec_occ_blocks(g.occurrences, g.occurrences.len() as int)
}

/// Renders a group's detail page.
pub fn detail_content(g: &Group) -> (r: String)
    ensures
        r@ == spec_detail_content(g.deep_view()),
{
    let mut out = String::new();
    let mut i: usize = 0;
    let n = g.occurrences.len();
    while i < n
        invariant
            0 <= i <= n,
            n == g.occurrences.len(),
            out@ == spec_occ_blocks(g.deep_view().occurrences, i as int),
        decreases n - i,
    {
        let b = occ_block(&g.occurrences[i]);
        out.append(b.as_str());
        proof {
            assert(g.deep_view().occurrences[i as int] == g.occurrences@[i as int]@);
        }
        i = i + 1;
    }
    out
}

/// One group's link line on a component page: the bracket-stripped
/// identity, the occurrence count, and the detail page it points to.
pub open spec fn spec_group_link(g: GroupView, j: int, comp_file: Seq<char>) -> Seq<char> {
    "\n   - ["@ + spec_strip_brackets(g.identity) + " "@ + dec_rep(g.occurrences.len() as int)
        + "]("@ + dec_rep(j) + comp_file + ")"@
}

/// The first `n` group link lines of a component page.
pub open spec fn spec_group_links(gs: Seq<GroupView>, n: int, comp_file: Seq<char>) -> Seq<char>
    decreases n,
{
    if n <= 0 {
        Seq::<char>::empty()
    } else {
        spec_group_links(gs, n - 1, comp_file) + spec_group_link(gs[n - 1], n - 1, comp_file)
    }
}

/// A component's page: its key as the title, then one link per group in
/// order.
pub open spec fn spec_component_page(c: ComponentView) -> Seq<char> {
    "# "@ + c.key + spec_group_links(
        c.groups,
        c.groups.len() as int,
        spec_component_file_name(c.key),
    )
}

/// Renders a component's page.
pub fn component_page(c: &ComponentGroups) -> (r: String)
    ensures
        r@ == spec_component_page(c.deep_view()),
{
    let ghost cv = c.deep_view();
    let fname = component_file_name(c.key.as_str());
    let mut out = "# ".to_owned();
    out.append(c.key.as_str());
    let n = c.groups.len();
    let mut j: usize = 0;
    while j < n
        invariant
            0 <= j <= n,
            n == c.groups.len(),
            cv == c.deep_view(),
            fname@ == spec_component_file_name(cv.key),
            out@ == "# "@ + cv.key + spec_group_links(cv.groups, j as int, fname@),
        decreases n - j,
    {
        let grp = &c.groups[j];
        proof {
            assert(cv.groups[j as int] == c.groups@[j as int].deep_view());
        }
        out.append("\n   - [");
        let sb = strip_brackets(grp.identity.as_str());
        out.append(sb.as_str());
        out.append(" ");
        let cnt = usize_to_dec(grp.occurrences.len());
        out.append(cnt.as_str());
        out.append("](");
        let jd = usize_to_dec(j);
        out.append(jd.as_str());
        out.append(fname.as_str());
        out.append(")");
        proof {
            assert(cv.groups[j as int].occurrences.len() == grp.occurrences@.len());
            assert(out@ =~= "# "@ + cv.key + spec_group_links(cv.groups, j + 1, fname@));
        }
        j = j + 1;
    }
    out
}

/// One group's entry in the summary: the bracket-stripped identity,
/// linking to the detail page.
pub open spec fn spec_summary_group_entry(g: GroupView, j: int, comp_file: Seq<char>) -> Seq<
    char,
> {
    "\n      - ["@ + spec_strip_brackets(g.identity) + "]("@ + dec_rep(j) + comp_file + ")"@
}

/// The first `n` group entries of one component's summary section.
pub open spec fn spec_summary_group_entries(
    gs: Seq<GroupView>,
    n: int,
    comp_file: Seq<char>,
) -> Seq<char>
    decreases n,
{
    if n <= 0 {
        Seq::<char>::empty()
    } else {
        spec_summary_group_entries(gs, n - 1, comp_file) + spec_summary_group_entry(
            gs[n - 1],
            n - 1,
            comp_file,
        )
    }
}

/// One component's summary section: a link to its page, then one nested
/// entry per group.
pub open spec fn spec_summary_entry(c: ComponentView) -> Seq<char> {
    "\n   - ["@ + c.key + "]("@ + spec_component_file_name(c.key) + ")"@
        + spec_summary_group_entries(
        c.groups,
        c.groups.len() as int,
        spec_component_file_name(c.key),
    )
}

/// The first `n` component sections of the summary.
pub open spec fn spec_summary_entries(cs: Seq<ComponentView>, n: int) -> Seq<char>
    decreases n,
{
    if n <= 0 {
        Seq::<char>::empty()
    } else {
        spec_summary_entries(cs, n - 1) + spec_summary_entry(cs[n - 1])
    }
}

/// The summary page: a fixed heading, then one section per component in
/// order.
pub open spec fn spec_summary(cs: Seq<ComponentView>) -> Seq<char> {
    "\n    # Summary\n\n    "@ + spec_summary_entries(cs, cs.len() as int)
}

/// Renders the summary page.
pub fn summary_page(components: &Vec<ComponentGroups>) -> (r: String)
    ensures
        r@ == spec_summary(components.deep_view()),
{
    let ghost cs = components.deep_view();
    let mut out = "\n    # Summary\n\n    ".to_owned();
    let n = components.len();
    let mut ci: usize = 0;
    while ci < n
        invariant
            0 <= ci <= n,
            n == components.len(),
            cs == components.deep_view(),
            out@ == "\n    # Summary\n\n    "@ + spec_summary_entries(cs, ci as int),
        decreases n - ci,
    {
        let comp = &components[ci];
        let ghost cv = cs[ci as int];
        proof {
            assert(cv == components@[ci as int].deep_view());
        }
        let fname = component_file_name(comp.key.as_str());
        out.append("\n   - [");
        out.append(comp.key.as_str());
        out.append("](");
        out.append(fname.as_str());
        out.append(")");
        let m = comp.groups.len();
        let mut j: usize = 0;
        while j < m
            invariant
                0 <= j <= m,
                m == comp.groups.len(),
                cv == comp.deep_view(),
                fname@ == spec_component_file_name(cv.key),
                out@ == "\n    # Summary\n\n    "@ + spec_summary_entries(cs, ci as int) + "\n   - ["@
                    + cv.key + "]("@ + fname@ + ")"@ + spec_summary_group_entries(
                    cv.groups,
                    j as int,
                    fname@,
                ),
            decreases m - j,
        {
            let grp = &comp.groups[j];
            proof {
                assert(cv.groups[j as int] == comp.groups@[j as int].deep_view());
            }
            out.append("\n      - [");
            let sb = strip_brackets(grp.identity.as_str());
            out.append(sb.as_str());
            out.append("](");
            let jd = usize_to_dec(j);
            out.append(jd.as_str());
            out.append(fname.as_str());
            out.append(")");
            proof {
                assert(out@ =~= "\n    # Summary\n\n    "@ + spec_summary_entries(cs, ci as int)
                    + "\n   - ["@ + cv.key + "]("@ + fname@ + ")"@ + spec_summary_group_entries(
                    cv.groups,
                    j + 1,
                    fname@,
                ));
            }
            j = j + 1;
        }
        proof {
            assert(out@ =~= "\n    # Summary\n\n    "@ + spec_summary_entries(cs, ci + 1));
        }
        ci = ci + 1;
    }
    out
}

/// The fixed project manifest written beside the generated pages.
pub open spec fn spec_book_manifest() -> Seq<char> {
    "\n    [book]\n    title = \"Yet Another ErrorBook\"\n    description = \"A shrine to the hard work of Esteban and friends.\"\n    authors = [\"errorbook\"]\n    language = \"en\"\n    \n    [rust]\n    edition = \"2018\"\n    \n    [output.html]\n    mathjax-support = false\n    default-theme = rust\n    preferred-dark-theme = true\n    \n    [output.html.fold]\n    enable = true\n    level = 0\n    \n    [output.html.search]\n    limit-results = 20\n    use-boolean-and = true\n    boost-title = 2\n    boost-hierarchy = 2\n    boost-paragraph = 1\n    expand = true\n    heading-split-level = 2\n    "@
}

/// The project manifest content.
pub fn book_manifest() -> (r: String)
    ensures
        r@ == spec_book_manifest(),
{
    "\n    [book]\n    title = \"Yet Another ErrorBook\"\n    description = \"A shrine to the hard work of Esteban and friends.\"\n    authors = [\"errorbook\"]\n    language = \"en\"\n    \n    [rust]\n    edition = \"2018\"\n    \n    [output.html]\n    mathjax-support = false\n    default-theme = rust\n    preferred-dark-theme = true\n    \n    [output.html.fold]\n    enable = true\n    level = 0\n    \n    [output.html.search]\n    limit-results = 20\n    use-boolean-and = true\n    boost-title = 2\n    boost-hierarchy = 2\n    boost-paragraph = 1\n    expand = true\n    heading-split-level = 2\n    ".to_owned()
}

/// One group's detail page: its file name and content.
pub struct DetailPage {
    pub file_name: String,
    pub content: String,
}

/// One component's page and its detail pages.
pub struct ComponentPage {
    pub key: String,
    pub file_name: String,
    pub content: String,
    pub details: Vec<DetailPage>,
}

/// The whole generated book: the project manifest, the summary page,
/// and one entry per component.
pub struct DocumentTree {
    pub manifest: String,
    pub summary: String,
    pub components: Vec<ComponentPage>,
}

/// Builds the document tree of a grouping: one component page per
/// component, one detail page per group, a summary listing one entry
/// per component, and the fixed manifest. Every page's content and file
/// name is pinned exactly.
pub fn build_document_tree(g: &Grouping) -> (t: DocumentTree)
    ensures
        t.components@.len() == g.components.deep_view().len(),
        forall|c: int|
            0 <= c < t.components@.len() ==> {
                let cv = g.components.deep_view()[c];
                let page = #[trigger] t.components@[c];
                &&& page.key@ == cv.key
                &&& page.file_name@ == spec_component_file_name(cv.key)
                &&& page.content@ == spec_component_page(cv)
                &&& page.details@.len() == cv.groups.len()
                &&& forall|j: int|
                    0 <= j < cv.groups.len() ==> (#[trigger] page.details@[j]).file_name@
                        == spec_detail_file_name(cv.key, j) && page.details@[j].content@
                        == spec_detail_content(cv.groups[j])
            },
        t.summary@ == spec_summary(g.components.deep_view()),
        t.manifest@ == spec_book_manifest(),
{
    let ghost cs = g.components.deep_view();
    let mut pages: Vec<ComponentPage> = Vec::new();
    let n = g.components.len();
    let mut ci: usize = 0;
    while ci < n
        invariant
            0 <= ci <= n,
            n == g.components.len(),
            cs == g.components.deep_view(),
            pages@.len() == ci,
            forall|c: int|
                0 <= c < ci ==> {
                    let cv = cs[c];
                    let page = #[trigger] pages@[c];
                    &&& page.key@ == cv.key
                    &&& page.file_name@ == spec_component_file_name(cv.key)
                    &&& page.content@ == spec_component_page(cv)
                    &&& page.details@.len() == cv.groups.len()
                    &&& forall|j: int|
                        0 <= j < cv.groups.len() ==> (#[trigger] page.details@[j]).file_name@
                            == spec_detail_file_name(cv.key, j) && page.details@[j].content@
                            == spec_detail_content(cv.groups[j])
                },
        decreases n - ci,
    {
        let comp = &g.components[ci];
        let ghost cv = cs[ci as int];
        proof {
            assert(cv == g.components@[ci as int].deep_view());
        }
        let fname = component_file_name(comp.key.as_str());
        let content = component_page(comp);
        let mut details: Vec<DetailPage> = Vec::new();
        let m = comp.groups.len();
        let mut j: usize = 0;
        while j < m
            invariant
                0 <= j <= m,
                m == comp.groups.len(),
                cv == comp.deep_view(),
                details@.len() == j,
                forall|k: int|
                    0 <= k < j ==> (#[trigger] details@[k]).file_name@ == spec_detail_file_name(
                        cv.key,
                        k,
                    ) && details@[k].content@ == spec_detail_content(cv.groups[k]),
            decreases m - j,
        {
            let dfile = detail_file_name(comp.key.as_str(), j);
            let dcontent = detail_content(&comp.groups[j]);
            proof {
                assert(cv.groups[j as int] == comp.groups@[j as int].deep_view());
            }
            details.push(DetailPage { file_name: dfile, content: dcontent });
            j = j + 1;
        }
        pages.push(
            ComponentPage { key: comp.key.clone(), file_name: fname, content, details },
        );
        ci = ci + 1;
    }
    let summary = summary_page(&g.components);
    let manifest = book_manifest();
    DocumentTree { manifest, summary, components: pages }
}

} // verus!
