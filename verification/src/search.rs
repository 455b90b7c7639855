//! Line search: the lines of a text that contain a query, case sensitive or
//! not. Lines are split at `'\n'`, a trailing `'\r'` is not part of a line,
//! and the final line ending is optional.

use vstd::prelude::*;
use vstd::string::StrSliceExecFns;

verus! {

/// What a search run needs: the query, the file to search, and whether the
/// search is case sensitive.
pub struct Config {
    pub query: String,
    pub filename: String,
    pub case_sensitive: bool,
}

/// The index of the first `'\n'` at or after `i`, or `s.len()`.
pub open spec fn nl_pos(s: Seq<char>, i: nat) -> nat
    decreases s.len() - i,
{
    if i >= s.len() {
        s.len()
    } else if s[i as int] == '\n' {
        i
    } else {
        nl_pos(s, i + 1)
    }
}

proof fn lemma_nl_pos_stops(s: Seq<char>, i: nat, stop: nat)
    requires
        i <= stop <= s.len(),
        forall|j: int| i <= j < stop ==> s[j] != '\n',
        stop < s.len() ==> s[stop as int] == '\n',
    ensures
        nl_pos(s, i) == stop,
    decreases stop - i,
{
    if i < stop {
        lemma_nl_pos_stops(s, i + 1, stop);
    }
}

/// A line without its trailing carriage return, if it has one.
pub open spec fn strip_cr(l: Seq<char>) -> Seq<char> {
    if l.len() > 0 && l.last() == '\r' {
        l.drop_last()
    } else {
        l
    }
}

/// The lines of a text: split at `'\n'`, each line stripped of one trailing
/// `'\r'`; a final line ending opens no further line.
pub open spec fn spec_lines(s: Seq<char>) -> Seq<Seq<char>>
    decreases s.len(),
{
    if s.len() == 0 {
        Seq::empty()
    } else {
        let i = nl_pos(s, 0);
        if i >= s.len() {
            seq![strip_cr(s)]
        } else {
            seq![strip_cr(s.take(i as int))] + spec_lines(s.skip(i as int + 1))
        }
    }
}

/// Whether `needle` occurs contiguously in `hay`.
pub open spec fn contains_sub(hay: Seq<char>, needle: Seq<char>) -> bool {
    exists|k: int|
        0 <= k <= hay.len() - needle.len() && #[trigger] hay.subrange(k, k + needle.len())
            == needle
}

/// What `str::to_lowercase` returns for a given character sequence: the
/// result is a function of the characters alone.
pub uninterp spec fn lower_of(s: Seq<char>) -> Seq<char>;

/// Relies on str::to_lowercase: the lowercased text, a function of the
/// characters alone.
#[verifier::external_body]
fn lowercase(s: &str) -> (r: String)
    ensures
        r@ == lower_of(s@),
{
    s.to_lowercase()
}

/// The lines of `contents` that contain `query`.
pub open spec fn spec_search(query: Seq<char>, contents: Seq<char>) -> Seq<Seq<char>> {
    spec_lines(contents).filter(|l: Seq<char>| contains_sub(l, query))
}

/// The lines of `contents` that contain `query` with the case of both
/// folded away.
pub open spec fn spec_search_ci(query: Seq<char>, contents: Seq<char>) -> Seq<Seq<char>> {
    spec_lines(contents).filter(|l: Seq<char>| contains_sub(lower_of(l), lower_of(query)))
}

/// The views of a list of line slices.
pub open spec fn line_views(rs: Seq<&str>) -> Seq<Seq<char>> {
    rs.map_values(|l: &str| l@)
}

/// Decides whether `needle@` starts at position `k` of `hay@`.
fn match_at(hay: &str, needle: &str, k: usize) -> (r: bool)
    requires
        k + needle@.len() <= hay@.len(),
    ensures
        r == (hay@.subrange(k as int, k + needle@.len()) == needle@),
{
    let hn = hay.unicode_len();
    let nn = needle.unicode_len();
    let mut j: usize = 0;
    while j < nn
        invariant
            nn == needle@.len(),
            hn == hay@.len(),
            k + nn <= hn,
            0 <= j <= nn,
            forall|t: int| 0 <= t < j ==> hay@[k + t] == needle@[t],
        decreases nn - j,
    {
        if hay.get_char(k + j) != needle.get_char(j) {
            proof {
                assert(hay@.subrange(k as int, k + nn as int)[j as int] != needle@[j as int]);
            }
            return false;
        }
        j = j + 1;
    }
    proof {
        assert(hay@.subrange(k as int, k + nn as int) =~= needle@);
    }
    true
}

/// Decides whether `needle` occurs contiguously in `hay`.
fn contains_str(hay: &str, needle: &str) -> (r: bool)
    ensures
        r == contains_sub(hay@, needle@),
{
    let hn = hay.unicode_len();
    let nn = needle.unicode_len();
    if nn > hn {
        return false;
    }
    if nn == 0 {
        proof {
            assert(hay@.subrange(0, 0 + needle@.len() as int) =~= needle@);
            assert(contains_sub(hay@, needle@));
        }
        return true;
    }
    let mut k: usize = 0;
    while k <= hn - nn
        invariant
            nn <= hn == hay@.len(),
            nn == needle@.len(),
            1 <= nn,
            0 <= k <= hn - nn + 1,
            forall|k2: int|
                0 <= k2 < k ==> #[trigger] hay@.subrange(k2, k2 + needle@.len()) != needle@,
        decreases hn - nn - k + 1,
    {
        if match_at(hay, needle, k) {
            proof {
                assert(hay@.subrange(k as int, k + needle@.len()) == needle@);
            }
            return true;
        }
        k = k + 1;
    }
    false
}

/// One step of the line loop: the lines of the suffix at `pos` are the line
/// found there followed by the lines of the suffix after its `'\n'`.
proof fn lemma_lines_step(s: Seq<char>, pos: nat, e: nat)
    requires
        pos <= e <= s.len(),
        pos < s.len(),
        forall|t: int| pos <= t < e ==> s[t] != '\n',
        e < s.len() ==> s[e as int] == '\n',
    ensures
        spec_lines(s.skip(pos as int)) == seq![strip_cr(s.subrange(pos as int, e as int))]
            + spec_lines(s.skip(if e < s.len() {
            e as int + 1
        } else {
            e as int
        })),
{
    let suf = s.skip(pos as int);
    assert(forall|t: int| 0 <= t < suf.len() ==> suf[t] == s[pos + t]);
    lemma_nl_pos_stops(suf, 0, (e - pos) as nat);
    let i = nl_pos(suf, 0);
    assert(i == e - pos);
    if e < s.len() {
        assert(suf.take(i as int) =~= s.subrange(pos as int, e as int));
        assert(suf.skip(i as int + 1) =~= s.skip(e as int + 1));
    } else {
        assert(suf =~= s.subrange(pos as int, e as int));
        assert(s.skip(e as int) =~= Seq::<char>::empty());
        assert(seq![strip_cr(suf)] + spec_lines(s.skip(e as int)) =~= seq![strip_cr(suf)]);
    }
}

/// Filtering a list with one line put in front keeps the line exactly when
/// the predicate holds of it.
proof fn lemma_filter_cons(x: Seq<char>, rest: Seq<Seq<char>>, p: spec_fn(Seq<char>) -> bool)
    ensures
        (seq![x] + rest).filter(p) == (if p(x) {
            seq![x] + rest.filter(p)
        } else {
            rest.filter(p)
        }),
{
    reveal_with_fuel(Seq::<_>::filter, 2);
    Seq::filter_distributes_over_add(seq![x], rest, p);
    assert(seq![x].drop_last() =~= Seq::<Seq<char>>::empty());
    assert(Seq::<Seq<char>>::empty().filter(p) =~= Seq::<Seq<char>>::empty());
    if p(x) {
        assert(seq![x].filter(p) =~= seq![x]);
    } else {
        assert(seq![x].filter(p) =~= Seq::<Seq<char>>::empty());
        assert(Seq::<Seq<char>>::empty() + rest.filter(p) =~= rest.filter(p));
    }
}

/// The lines of `contents` that contain `query`, in text order.
pub fn search<'a>(query: &str, contents: &'a str) -> (results: Vec<&'a str>)
    ensures
        line_views(results@) == spec_search(query@, contents@),
{
    let ghost s = contents@;
    let ghost p = |l: Seq<char>| contains_sub(l, query@);
    let n = contents.unicode_len();
    let mut results: Vec<&'a str> = Vec::new();
    let mut pos: usize = 0;
    proof {
        assert(s.skip(0) =~= s);
        assert(line_views(results@) =~= Seq::<Seq<char>>::empty());
        assert(spec_lines(s).filter(p) =~= line_views(results@) + spec_lines(s.skip(0)).filter(p));
    }
    while pos < n
        invariant
            n == s.len(),
            s == contents@,
            0 <= pos <= n,
            p == (|l: Seq<char>| contains_sub(l, query@)),
            spec_lines(s).filter(p) == line_views(results@) + spec_lines(s.skip(pos as int)).filter(
                p,
            ),
        decreases n - pos,
    {
        let mut e: usize = pos;
        while e < n && contents.get_char(e) != '\n'
            invariant
                n == s.len(),
                s == contents@,
                pos <= e <= n,
                forall|t: int| pos <= t < e ==> s[t] != '\n',
            decreases n - e,
        {
            e = e + 1;
        }
        let line_end: usize = if e > pos && contents.get_char(e - 1) == '\r' {
            e - 1
        } else {
            e
        };
        let line: &'a str = contents.substring_char(pos, line_end);
        let ghost lv = strip_cr(s.subrange(pos as int, e as int));
        proof {
            if e > pos && s[e as int - 1] == '\r' {
                assert(s.subrange(pos as int, e as int).drop_last() =~= s.subrange(
                    pos as int,
                    e as int - 1,
                ));
            }
            assert(line@ == lv);
        }
        let next: usize = if e < n {
            e + 1
        } else {
            e
        };
        let ghost prev_results = results@;
        if contains_str(line, query) {
            results.push(line);
        }
        proof {
            lemma_lines_step(s, pos as nat, e as nat);
            lemma_filter_cons(lv, spec_lines(s.skip(next as int)), p);
            if p(lv) {
                assert(line_views(results@) =~= line_views(prev_results) + seq![lv]);
                assert(line_views(prev_results) + (seq![lv] + spec_lines(
                    s.skip(next as int),
                ).filter(p)) =~= line_views(results@) + spec_lines(s.skip(next as int)).filter(p));
            }
        }
        pos = next;
    }
    proof {
        reveal_with_fuel(Seq::<_>::filter, 1);
        assert(s.skip(pos as int) =~= Seq::<char>::empty());
        assert(spec_lines(Seq::<char>::empty()).filter(p) =~= Seq::<Seq<char>>::empty());
        assert(line_views(results@) + Seq::<Seq<char>>::empty() =~= line_views(results@));
    }
    results
}

/// The lines of `contents` that contain `query` with the case of both
/// folded away, in text order.
pub fn search_case_insensitive<'a>(query: &str, contents: &'a str) -> (results: Vec<&'a str>)
    ensures
        line_views(results@) == spec_search_ci(query@, contents@),
{
    let ghost s = contents@;
    let ghost p = |l: Seq<char>| contains_sub(lower_of(l), lower_of(query@));
    let lq = lowercase(query);
    let n = contents.unicode_len();
    let mut results: Vec<&'a str> = Vec::new();
    let mut pos: usize = 0;
    proof {
        assert(s.skip(0) =~= s);
        assert(line_views(results@) =~= Seq::<Seq<char>>::empty());
        assert(spec_lines(s).filter(p) =~= line_views(results@) + spec_lines(s.skip(0)).filter(p));
    }
    while pos < n
        invariant
            n == s.len(),
            s == contents@,
            0 <= pos <= n,
            lq@ == lower_of(query@),
            p == (|l: Seq<char>| contains_sub(lower_of(l), lower_of(query@))),
            spec_lines(s).filter(p) == line_views(results@) + spec_lines(s.skip(pos as int)).filter(
                p,
            ),
        decreases n - pos,
    {
        let mut e: usize = pos;
        while e < n && contents.get_char(e) != '\n'
            invariant
                n == s.len(),
                s == contents@,
                pos <= e <= n,
                forall|t: int| pos <= t < e ==> s[t] != '\n',
            decreases n - e,
        {
            e = e + 1;
        }
        let line_end: usize = if e > pos && contents.get_char(e - 1) == '\r' {
            e - 1
        } else {
            e
        };
        let line: &'a str = contents.substring_char(pos, line_end);
        let ghost lv = strip_cr(s.subrange(pos as int, e as int));
        proof {
            if e > pos && s[e as int - 1] == '\r' {
                assert(s.subrange(pos as int, e as int).drop_last() =~= s.subrange(
                    pos as int,
                    e as int - 1,
                ));
            }
            assert(line@ == lv);
        }
        let next: usize = if e < n {
            e + 1
        } else {
            e
        };
        let ghost prev_results = results@;
        let ll = lowercase(line);
        if contains_str(ll.as_str(), lq.as_str()) {
            results.push(line);
        }
        proof {
            lemma_lines_step(s, pos as nat, e as nat);
            lemma_filter_cons(lv, spec_lines(s.skip(next as int)), p);
            if p(lv) {
                assert(line_views(results@) =~= line_views(prev_results) + seq![lv]);
                assert(line_views(prev_results) + (seq![lv] + spec_lines(
                    s.skip(next as int),
                ).filter(p)) =~= line_views(results@) + spec_lines(s.skip(next as int)).filter(p));
            }
        }
        pos = next;
    }
    proof {
        reveal_with_fuel(Seq::<_>::filter, 1);
        assert(s.skip(pos as int) =~= Seq::<char>::empty());
        assert(spec_lines(Seq::<char>::empty()).filter(p) =~= Seq::<Seq<char>>::empty());
        assert(line_views(results@) + Seq::<Seq<char>>::empty() =~= line_views(results@));
    }
    results
}

} // verus!
