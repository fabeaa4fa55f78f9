//! Fuzzy filtering: scoring a query against a text, and ranking dependency
//! folders by how well they match.
use vstd::prelude::*;

use crate::display;
use crate::display::{age_label, bytes};
use crate::scanner::{distinct_positions, kind_label, DependencyFolder};
use crate::sort::{is_stable_order, stable_order, SortKey};
use crate::text;
use crate::text::{char_width, chars_of, contains_vec, extend_chars, extend_vec, lowercased, string_of, trimmed};

verus! {

/// How well a query matches a text; higher is better.
#[derive(Debug, Clone, Copy, PartialEq, Eq, Structural)]
pub struct MatchScore(pub i64);

/// `i` is the first position at or after `start` holding `ch`.
pub open spec fn first_at(c: Seq<char>, start: int, ch: char, i: int) -> bool {
    start <= i < c.len() && c[i] == ch && forall|j: int| start <= j < i ==> c[j] != ch
}

/// The first position at or after `start` holding `ch`.
#[verifier::opaque]
pub open spec fn next_index(c: Seq<char>, start: int, ch: char) -> Option<int> {
    if exists|i: int| start <= i < c.len() && c[i] == ch {
        Some(choose|i: int| first_at(c, start, ch, i))
    } else {
        None
    }
}

proof fn lemma_next_index(c: Seq<char>, start: int, ch: char)
    ensures
        next_index(c, start, ch) is Some ==> first_at(c, start, ch, next_index(c, start, ch).unwrap()),
        next_index(c, start, ch) is None ==> forall|j: int| start <= j < c.len() ==> c[j] != ch,
        forall|i: int| first_at(c, start, ch, i) ==> next_index(c, start, ch) == Some(i),
{
    reveal(next_index);
    if exists|i: int| start <= i < c.len() && c[i] == ch {
        let w = choose|i: int| start <= i < c.len() && c[i] == ch;
        lemma_first_exists(c, start, ch, w);
        let f = choose|i: int| first_at(c, start, ch, i);
        assert forall|i: int| first_at(c, start, ch, i) implies next_index(c, start, ch) == Some(i) by {
            if i < f {
                assert(c[i] != ch);
            } else if i > f {
                assert(c[f] != ch);
            }
        }
    }
}

proof fn lemma_first_exists(c: Seq<char>, start: int, ch: char, w: int)
    requires
        start <= w < c.len(),
        c[w] == ch,
    ensures
        exists|i: int| first_at(c, start, ch, i),
    decreases w - start,
{
    if exists|j: int| start <= j < w && c[j] == ch {
        let j = choose|j: int| start <= j < w && c[j] == ch;
        lemma_first_exists(c, start, ch, j);
    } else {
        assert(first_at(c, start, ch, w));
    }
}

/// The positions at which the characters of `q` are found in `c`, each one taken
/// as early as possible after the previous one; `None` when one is not found.
pub open spec fn greedy_positions(q: Seq<char>, c: Seq<char>) -> Option<Seq<int>>
    decreases q.len(),
{
    if q.len() == 0 {
        Some(Seq::empty())
    } else {
        match greedy_positions(q.drop_last(), c) {
            None => None,
            Some(ps) => {
                let start = if ps.len() == 0 { 0 } else { ps.last() + 1 };
                match next_index(c, start, q.last()) {
                    None => None,
                    Some(i) => Some(ps.push(i)),
                }
            },
        }
    }
}

/// Byte offset of position `i` of `c` in UTF-8.
pub open spec fn byte_at(c: Seq<char>, i: int) -> int {
    text::utf8_len(c.take(i)) as int
}

pub open spec fn min_int(a: int, b: int) -> int {
    if a < b { a } else { b }
}

/// What the last match of `ps` costs: its byte offset (at most 40) for the first
/// match, otherwise the bytes skipped since the previous match (at most 25).
pub open spec fn match_penalty(c: Seq<char>, ps: Seq<int>) -> int {
    if ps.len() == 1 {
        min_int(byte_at(c, ps[0]), 40)
    } else {
        let gap = byte_at(c, ps.last()) - (byte_at(c, ps[ps.len() - 2]) + 1);
        min_int(if gap < 0 { 0 } else { gap }, 25)
    }
}

/// 100 for each match, less each match's penalty.
pub open spec fn positions_score(c: Seq<char>, ps: Seq<int>) -> int
    decreases ps.len(),
{
    if ps.len() == 0 {
        0
    } else {
        positions_score(c, ps.drop_last()) + 100 - match_penalty(c, ps)
    }
}

/// The score of `query` against `candidate`: both are compared in ASCII lower case
/// and the query without surrounding whitespace. An empty query scores 0; a query
/// found whole scores 10000 less the text's length in bytes; otherwise the query's
/// characters must occur in order, each taken at its first occurrence after the
/// previous one, and each counts 100 less the bytes skipped before it (at most 40
/// before the first, at most 25 between two).
pub open spec fn fuzzy_score(query: Seq<char>, candidate: Seq<char>) -> Option<int> {
    let q = text::lower_seq(text::trim(query));
    let c = text::lower_seq(candidate);
    if q.len() == 0 {
        Some(0)
    } else if text::contains(c, q) {
        Some(10000 - text::utf8_len(c))
    } else {
        match greedy_positions(q, c) {
            Some(ps) => Some(positions_score(c, ps)),
            None => None,
        }
    }
}

/// `q` occurs in `c` in order, not necessarily contiguously.
pub open spec fn is_subsequence(q: Seq<char>, c: Seq<char>) -> bool {
    exists|ws: Seq<int>| greedy_positions_valid(q, c, ws)
}

proof fn lemma_lower_seq_len(s: Seq<char>)
    ensures
        text::lower_seq(s).len() == s.len(),
        text::utf8_len(text::lower_seq(s)) == text::utf8_len(s),
    decreases s.len(),
{
    if s.len() > 0 {
        lemma_lower_seq_len(s.drop_last());
        assert(text::lower_seq(s).drop_last() =~= text::lower_seq(s.drop_last()));
    }
}

proof fn lemma_trim_len(s: Seq<char>)
    ensures
        text::trim(s).len() <= s.len(),
{
    text::lemma_lead_ws_bound(s);
    let t = s.skip(text::lead_ws(s) as int);
    text::lemma_trail_ws_bound(t);
}

/// Greedy positions are increasing, in bounds, and hold the query's characters.
proof fn lemma_greedy_sound(q: Seq<char>, c: Seq<char>)
    ensures
        greedy_positions(q, c) is Some ==> greedy_positions_valid(q, c, greedy_positions(q, c).unwrap()),
    decreases q.len(),
{
    if q.len() > 0 {
        lemma_greedy_sound(q.drop_last(), c);
        if let Some(ps) = greedy_positions(q.drop_last(), c) {
            let start = if ps.len() == 0 { 0 } else { ps.last() + 1 };
            lemma_next_index(c, start, q.last());
            if let Some(i) = next_index(c, start, q.last()) {
                assert(start <= i < c.len() && c[i] == q.last());
                let n = ps.push(i);
                assert forall|k: int| 0 <= k < n.len() implies 0 <= #[trigger] n[k] < c.len() && c[n[k]] == q[k] by {
                    if k < ps.len() {
                        assert(n[k] == ps[k]);
                        assert(q[k] == q.drop_last()[k]);
                    } else {
                        assert(n[k] == i);
                    }
                }
                assert forall|k: int| 0 < k < n.len() implies n[k - 1] < #[trigger] n[k] by {
                    if k < ps.len() {
                        assert(n[k] == ps[k] && n[k - 1] == ps[k - 1]);
                    } else {
                        assert(n[k] == i && n[k - 1] == ps.last());
                    }
                }
            }
        }
    }
}

/// `ps` are increasing positions of `c` that hold the characters of `q` in turn.
pub open spec fn greedy_positions_valid(q: Seq<char>, c: Seq<char>, ps: Seq<int>) -> bool {
    &&& ps.len() == q.len()
    &&& forall|k: int| 0 <= k < ps.len() ==> 0 <= #[trigger] ps[k] < c.len() && c[ps[k]] == q[k]
    &&& forall|k: int| 0 < k < ps.len() ==> ps[k - 1] < #[trigger] ps[k]
}

/// Greedy matching succeeds whenever some in-order occurrence exists, and its last
/// position is no later than that occurrence's.
proof fn lemma_greedy_complete(q: Seq<char>, c: Seq<char>, ws: Seq<int>)
    requires
        greedy_positions_valid(q, c, ws),
    ensures
        greedy_positions(q, c) is Some,
        q.len() > 0 ==> greedy_positions(q, c).unwrap().last() <= ws.last(),
    decreases q.len(),
{
    if q.len() > 0 {
        let wd = ws.drop_last();
        let qd = q.drop_last();
        assert(greedy_positions_valid(qd, c, wd)) by {
            assert forall|k: int| 0 <= k < wd.len() implies 0 <= #[trigger] wd[k] < c.len() && c[wd[k]] == qd[k] by {
                assert(wd[k] == ws[k] && qd[k] == q[k]);
            }
            assert forall|k: int| 0 < k < wd.len() implies wd[k - 1] < #[trigger] wd[k] by {
                assert(wd[k] == ws[k] && wd[k - 1] == ws[k - 1]);
            }
        }
        lemma_greedy_complete(qd, c, wd);
        let ps = greedy_positions(qd, c).unwrap();
        let start = if ps.len() == 0 { 0 } else { ps.last() + 1 };
        let w = ws.last();
        assert(0 <= w < c.len() && c[w] == q.last()) by {
            assert(ws[ws.len() - 1] == w);
        }
        if q.len() > 1 {
            assert(ws[ws.len() - 2] < ws[ws.len() - 1]);
            assert(wd.last() == ws[ws.len() - 2]);
            lemma_greedy_sound(qd, c);
            assert(ps.len() == qd.len());
        } else {
            assert(ps.len() == 0);
        }
        assert(start <= w);
        lemma_next_index(c, start, q.last());
        let i = next_index(c, start, q.last()).unwrap();
        if i > w {
            assert(c[w] != q.last());
        }
    }
}

/// A non-empty query matches exactly when its characters occur in the text in order.
pub proof fn lemma_score_iff_subsequence(query: Seq<char>, candidate: Seq<char>)
    requires
        text::lower_seq(text::trim(query)).len() > 0,
    ensures
        fuzzy_score(query, candidate) is Some <==> is_subsequence(
            text::lower_seq(text::trim(query)),
            text::lower_seq(candidate),
        ),
{
    let q = text::lower_seq(text::trim(query));
    let c = text::lower_seq(candidate);
    if is_subsequence(q, c) {
        let ws = choose|ws: Seq<int>| greedy_positions_valid(q, c, ws);
        lemma_greedy_complete(q, c, ws);
    }
    if fuzzy_score(query, candidate) is Some {
        if text::contains(c, q) {
            let i = choose|i: int| text::occurs_at(c, q, i);
            let ws = Seq::new(q.len(), |k: int| i + k);
            assert forall|k: int| 0 <= k < ws.len() implies 0 <= #[trigger] ws[k] < c.len() && c[ws[k]] == q[k] by {
                assert(c.subrange(i, i + q.len())[k] == c[i + k]);
            }
            assert(greedy_positions_valid(q, c, ws));
        } else {
            lemma_greedy_sound(q, c);
            assert(greedy_positions_valid(q, c, greedy_positions(q, c).unwrap()));
        }
    }
}

proof fn lemma_positions_score_bound(c: Seq<char>, ps: Seq<int>)
    ensures
        positions_score(c, ps) <= 100 * ps.len(),
    decreases ps.len(),
{
    if ps.len() > 0 {
        lemma_positions_score_bound(c, ps.drop_last());
        assert(match_penalty(c, ps) >= 0);
    }
}

/// A text that holds the query whole ranks above any text that holds it only
/// scattered, as long as the whole match is shorter than 10000 bytes less 100 per
/// query character.
pub proof fn lemma_substring_ranks_first(query: Seq<char>, whole: Seq<char>, scattered: Seq<char>)
    requires
        text::lower_seq(text::trim(query)).len() > 0,
        text::contains(text::lower_seq(whole), text::lower_seq(text::trim(query))),
        !text::contains(text::lower_seq(scattered), text::lower_seq(text::trim(query))),
        fuzzy_score(query, scattered) is Some,
        text::utf8_len(whole) + 100 * text::lower_seq(text::trim(query)).len() < 10000,
    ensures
        fuzzy_score(query, whole).unwrap() > fuzzy_score(query, scattered).unwrap(),
{
    let q = text::lower_seq(text::trim(query));
    let c = text::lower_seq(scattered);
    lemma_lower_seq_len(whole);
    lemma_greedy_sound(q, c);
    let ps = greedy_positions(q, c).unwrap();
    lemma_positions_score_bound(c, ps);
}

/// The byte length of `v`.
fn byte_len(v: &Vec<char>) -> (r: u64)
    requires
        text::utf8_len(v@) <= i64::MAX,
    ensures
        r == text::utf8_len(v@),
{
    let mut acc: u64 = 0;
    let mut i: usize = 0;
    while i < v.len()
        invariant
            0 <= i <= v.len(),
            text::utf8_len(v@) <= i64::MAX,
            acc == text::utf8_len(v@.take(i as int)),
        decreases v.len() - i,
    {
        proof {
            assert(v@.take(i + 1).drop_last() =~= v@.take(i as int));
            text::lemma_utf8_len_prefix(v@, i + 1);
        }
        acc = acc + char_width(v[i]) as u64;
        i = i + 1;
    }
    assert(v@.take(v.len() as int) =~= v@);
    acc
}

/// Scores `query` against `candidate`; `None` when the query's characters do not
/// occur in the text in order.
pub fn score(query: &str, candidate: &str) -> (r: Option<MatchScore>)
    requires
        100 * query@.len() <= i64::MAX,
        text::utf8_len(candidate@) <= i64::MAX,
    ensures
        match fuzzy_score(query@, candidate@) {
            Some(s) => r matches Some(m) && m.0 == s,
            None => r is None,
        },
{
    let qraw = chars_of(query);
    let qt = trimmed(&qraw);
    let q = lowercased(&qt);
    proof {
        lemma_trim_len(query@);
        lemma_lower_seq_len(text::trim(query@));
        lemma_lower_seq_len(candidate@);
    }
    if q.len() == 0 {
        return Some(MatchScore(0));
    }
    let craw = chars_of(candidate);
    let c = lowercased(&craw);
    if contains_vec(&c, &q) {
        let n = byte_len(&c);
        return Some(MatchScore(10_000 - n as i64));
    }
    let ghost cs = c@;
    let ghost qs = q@;
    let mut total: i64 = 0;
    let mut pos: usize = 0;
    let mut byte: u64 = 0;
    let mut last: Option<u64> = None;
    let ghost mut ps: Seq<int> = Seq::empty();
    let mut k: usize = 0;
    assert(cs.take(0) =~= Seq::<char>::empty());
    while k < q.len()
        invariant
            cs == c@,
            qs == q@,
            qs == text::lower_seq(text::trim(query@)),
            cs == text::lower_seq(candidate@),
            !text::contains(cs, qs),
            qs.len() > 0,
            0 <= k <= q.len(),
            100 * q@.len() <= i64::MAX,
            text::utf8_len(cs) <= i64::MAX,
            greedy_positions(qs.take(k as int), cs) == Some(ps),
            ps.len() == k,
            pos as int == (if k == 0 { 0 } else { ps.last() + 1 }),
            pos <= c.len(),
            byte == byte_at(cs, pos as int),
            k == 0 ==> last is None,
            k > 0 ==> last == Some(byte_at(cs, ps.last()) as u64),
            total == positions_score(cs, ps),
            0 <= total <= 100 * k,
        decreases q.len() - k,
    {
        let needle = q[k];
        let start = pos;
        let mut found: Option<u64> = None;
        proof {
            text::lemma_utf8_len_prefix(cs, pos as int);
        }
        while found.is_none() && pos < c.len()
            invariant
                cs == c@,
                start <= pos <= c.len(),
                text::utf8_len(cs) <= i64::MAX,
                byte == byte_at(cs, pos as int),
                found.is_none() ==> forall|j: int| start <= j < pos ==> cs[j] != needle,
                found.is_some() ==> start < pos && cs[pos - 1] == needle && found.unwrap() == byte_at(cs, pos - 1)
                    && forall|j: int| start <= j < pos - 1 ==> cs[j] != needle,
            decreases c.len() - pos,
        {
            let ch = c[pos];
            let w = char_width(ch);
            proof {
                assert(cs.take(pos + 1).drop_last() =~= cs.take(pos as int));
                text::lemma_utf8_len_prefix(cs, pos + 1);
            }
            if ch == needle {
                found = Some(byte);
            }
            pos = pos + 1;
            byte = byte + w as u64;
        }
        let idx = match found {
            None => {
                proof {
                    lemma_step_fails(qs, cs, k as int, ps, start as int);
                    lemma_greedy_none_extends(qs, cs, k + 1);
                    assert(qs.take(qs.len() as int) =~= qs);
                }
                return None;
            },
            Some(b) => b,
        };
        let ghost i = pos - 1;
        proof {
            lemma_step_found(qs, cs, k as int, ps, start as int, i);
        }
        let penalty: i64 = match last {
            None => if idx < 40 { idx as i64 } else { 40 },
            Some(prev) => {
                let gap: u64 = if idx > prev { idx - prev - 1 } else { 0 };
                if gap < 25 { gap as i64 } else { 25 }
            },
        };
        assert(penalty == match_penalty(cs, ps.push(i))) by {
            let np = ps.push(i);
            assert(idx == byte_at(cs, i));
            if k > 0 {
                assert(np[np.len() - 2] == ps.last());
                assert(0 <= ps.last() < cs.len()) by {
                    lemma_greedy_sound(qs.take(k as int), cs);
                    assert(ps[ps.len() - 1] == ps.last());
                }
                text::lemma_utf8_len_prefix(cs, ps.last());
                assert(last.unwrap() == byte_at(cs, ps.last()));
            }
        }
        total = total + 100 - penalty;
        last = Some(idx);
        proof {
            ps = ps.push(i);
        }
        k = k + 1;
    }
    assert(qs.take(q.len() as int) =~= qs);
    Some(MatchScore(total))
}

/// When the next query character is not found after the current match, the
/// longer prefix of the query fails.
proof fn lemma_step_fails(qs: Seq<char>, cs: Seq<char>, k: int, ps: Seq<int>, start: int)
    requires
        0 <= k < qs.len(),
        greedy_positions(qs.take(k), cs) == Some(ps),
        ps.len() == k,
        start == (if k == 0 { 0 } else { ps.last() + 1 }),
        forall|j: int| start <= j < cs.len() ==> cs[j] != qs[k],
    ensures
        greedy_positions(qs.take(k + 1), cs) is None,
{
    assert(qs.take(k + 1).drop_last() =~= qs.take(k));
    assert(qs.take(k + 1).last() == qs[k]);
    lemma_next_index(cs, start, qs[k]);
    if next_index(cs, start, qs[k]) is Some {
        let i = next_index(cs, start, qs[k]).unwrap();
        assert(cs[i] == qs[k]);
    }
}

/// When the next query character is found at `i`, the longer prefix matches there.
proof fn lemma_step_found(qs: Seq<char>, cs: Seq<char>, k: int, ps: Seq<int>, start: int, i: int)
    requires
        0 <= k < qs.len(),
        greedy_positions(qs.take(k), cs) == Some(ps),
        ps.len() == k,
        start == (if k == 0 { 0 } else { ps.last() + 1 }),
        first_at(cs, start, qs[k], i),
    ensures
        greedy_positions(qs.take(k + 1), cs) == Some(ps.push(i)),
        positions_score(cs, ps.push(i)) == positions_score(cs, ps) + 100 - match_penalty(cs, ps.push(i)),
{
    assert(qs.take(k + 1).drop_last() =~= qs.take(k));
    assert(qs.take(k + 1).last() == qs[k]);
    lemma_next_index(cs, start, qs[k]);
    assert(ps.push(i).drop_last() =~= ps);
}

/// Once a prefix of the query fails to match, the whole query fails.
proof fn lemma_greedy_none_extends(q: Seq<char>, c: Seq<char>, n: int)
    requires
        0 <= n <= q.len(),
        greedy_positions(q.take(n), c) is None,
    ensures
        greedy_positions(q, c) is None,
    decreases q.len() - n,
{
    if n < q.len() {
        assert(q.take(n + 1).drop_last() =~= q.take(n));
        lemma_greedy_none_extends(q, c, n + 1);
    } else {
        assert(q.take(n) =~= q);
    }
}

/// The text a folder is matched against: its kind, project, path, size and age.
pub open spec fn haystack(f: DependencyFolder) -> Seq<char> {
    kind_label(f.kind) + seq![' '] + f.project_path@ + seq![' '] + f.path@ + seq![' '] + display::binary_size_text(
        f.size_bytes,
    ) + seq![' '] + display::age_text(f.age.secs as nat)
}

/// The text a folder is matched against.
pub fn folder_haystack(folder: &DependencyFolder) -> (r: String)
    ensures
        r@ == haystack(*folder),
        display::binary_size_text(folder.size_bytes).len() <= 11,
        display::is_ascii_text(display::binary_size_text(folder.size_bytes)),
{
    let mut v: Vec<char> = Vec::new();
    extend_chars(&mut v, folder.kind.label());
    v.push(' ');
    extend_chars(&mut v, folder.project_path.as_str());
    v.push(' ');
    extend_chars(&mut v, folder.path.as_str());
    v.push(' ');
    let size = bytes(folder.size_bytes);
    extend_chars(&mut v, size.as_str());
    v.push(' ');
    let age = age_label(folder.age);
    extend_chars(&mut v, age.as_str());
    string_of(v.as_slice())
}

/// Text that fits the byte counts of a match with room to spare.
pub open spec fn folder_text_fits(f: DependencyFolder) -> bool {
    text::utf8_len(f.project_path@) + text::utf8_len(f.path@) <= i64::MAX - 64
}

/// A match: the position of the folder and its score.
#[derive(Debug, Clone, Copy)]
pub struct ScoredIndex {
    pub index: usize,
    pub score: i64,
}

/// Matches are ordered best score first.
impl SortKey for ScoredIndex {
    open spec fn key_lt(self, other: Self) -> bool {
        self.score > other.score
    }

    proof fn lemma_irreflexive(a: Self) {
    }

    proof fn lemma_transitive(a: Self, b: Self, c: Self) {
    }

    proof fn lemma_tie_transitive(a: Self, b: Self, c: Self) {
    }

    fn sorts_before(&self, other: &Self) -> (r: bool) {
        self.score > other.score
    }
}

/// The folders that match `query`, in folder order, with their scores.
pub open spec fn scored(folders: Seq<DependencyFolder>, query: Seq<char>) -> Seq<ScoredIndex>
    decreases folders.len(),
{
    if folders.len() == 0 {
        Seq::empty()
    } else {
        let prev = scored(folders.drop_last(), query);
        match fuzzy_score(text::trim(query), haystack(folders.last())) {
            Some(s) => prev.push(ScoredIndex { index: (folders.len() - 1) as usize, score: s as i64 }),
            None => prev,
        }
    }
}

/// The positions of the folders that match `query`: in folder order for a blank
/// query, otherwise best score first and equal scores in folder order.
pub open spec fn is_match_order(folders: Seq<DependencyFolder>, query: Seq<char>, r: Seq<usize>) -> bool {
    let found = scored(folders, query);
    if text::trim(query).len() == 0 {
        r == found.map_values(|m: ScoredIndex| m.index)
    } else {
        exists|order: Seq<usize>|
            is_stable_order(found, order) && r == order.map_values(|o: usize| found[o as int].index)
    }
}

proof fn lemma_utf8_len_concat(a: Seq<char>, b: Seq<char>)
    ensures
        text::utf8_len(a + b) == text::utf8_len(a) + text::utf8_len(b),
    decreases b.len(),
{
    if b.len() > 0 {
        lemma_utf8_len_concat(a, b.drop_last());
        assert((a + b).drop_last() =~= a + b.drop_last());
    } else {
        assert(a + b =~= a);
    }
}

proof fn lemma_utf8_len_ascii(s: Seq<char>)
    requires
        display::is_ascii_text(s),
    ensures
        text::utf8_len(s) == s.len(),
    decreases s.len(),
{
    if s.len() > 0 {
        assert forall|k: int| 0 <= k < s.drop_last().len() implies (#[trigger] s.drop_last()[k] as u32) < 0x80 by {
            assert(s.drop_last()[k] == s[k]);
        }
        lemma_utf8_len_ascii(s.drop_last());
        assert((s[s.len() - 1] as u32) < 0x80);
    }
}

pub open spec fn pow10(k: nat) -> nat
    decreases k,
{
    if k == 0 {
        1
    } else {
        10 * pow10((k - 1) as nat)
    }
}

proof fn lemma_decimal_len(n: nat, k: nat)
    requires
        k >= 1,
        n < pow10(k),
    ensures
        text::decimal(n).len() <= k,
        display::is_ascii_text(text::decimal(n)),
    decreases n,
{
    text::lemma_decimal(n);
    assert forall|i: int| 0 <= i < text::decimal(n).len() implies (#[trigger] text::decimal(n)[i] as u32) < 0x80 by {
        assert(text::is_ascii_digit(text::decimal(n)[i]));
    }
    if n >= 10 {
        assert(k >= 2) by {
            if k == 1 {
                assert(pow10(1) == 10 * pow10(0));
            }
        }
        assert(n / 10 < pow10((k - 1) as nat)) by (nonlinear_arith)
            requires
                n < pow10(k),
                pow10(k) == 10 * pow10((k - 1) as nat),
        ;
        lemma_decimal_len(n / 10, (k - 1) as nat);
    }
}

proof fn lemma_haystack_len(f: DependencyFolder)
    requires
        folder_text_fits(f),
        display::binary_size_text(f.size_bytes).len() <= 11,
        display::is_ascii_text(display::binary_size_text(f.size_bytes)),
    ensures
        text::utf8_len(haystack(f)) <= i64::MAX,
{
    let k = kind_label(f.kind);
    reveal_strlit("node");
    reveal_strlit("python");
    reveal_strlit("npm-cache");
    reveal_strlit("pip-cache");
    reveal_strlit("y");
    reveal_strlit("d");
    assert(k.len() <= 9);
    assert forall|i: int| 0 <= i < k.len() implies (#[trigger] k[i] as u32) < 0x80 by {}
    lemma_utf8_len_ascii(k);
    let sp = seq![' '];
    assert forall|i: int| 0 <= i < sp.len() implies (#[trigger] sp[i] as u32) < 0x80 by {}
    lemma_utf8_len_ascii(sp);
    let b = display::binary_size_text(f.size_bytes);
    lemma_utf8_len_ascii(b);
    let secs = f.age.secs as nat;
    let days = secs / 86_400;
    assert(pow10(15) == 1_000_000_000_000_000) by {
        reveal_with_fuel(pow10, 16);
    }
    assert(days < pow10(15)) by (nonlinear_arith)
        requires
            days == secs / 86_400,
            secs <= u64::MAX,
            pow10(15) == 1_000_000_000_000_000,
    ;
    let a = display::age_text(secs);
    if days >= 365 {
        lemma_decimal_len(days / 365, 15);
        let u = "y"@;
        assert forall|i: int| 0 <= i < u.len() implies (#[trigger] u[i] as u32) < 0x80 by {}
        lemma_utf8_len_ascii(u);
        lemma_utf8_len_ascii(text::decimal(days / 365));
        lemma_utf8_len_concat(text::decimal(days / 365), u);
    } else {
        lemma_decimal_len(days, 15);
        let u = "d"@;
        assert forall|i: int| 0 <= i < u.len() implies (#[trigger] u[i] as u32) < 0x80 by {}
        lemma_utf8_len_ascii(u);
        lemma_utf8_len_ascii(text::decimal(days));
        lemma_utf8_len_concat(text::decimal(days), u);
    }
    let h1 = k + sp;
    let h2 = h1 + f.project_path@;
    let h3 = h2 + sp;
    let h4 = h3 + f.path@;
    let h5 = h4 + sp;
    let h6 = h5 + b;
    let h7 = h6 + sp;
    let h8 = h7 + a;
    lemma_utf8_len_concat(k, sp);
    lemma_utf8_len_concat(h1, f.project_path@);
    lemma_utf8_len_concat(h2, sp);
    lemma_utf8_len_concat(h3, f.path@);
    lemma_utf8_len_concat(h4, sp);
    lemma_utf8_len_concat(h5, b);
    lemma_utf8_len_concat(h6, sp);
    lemma_utf8_len_concat(h7, a);
    assert(haystack(f) == h8);
}

proof fn lemma_scored_positions(folders: Seq<DependencyFolder>, query: Seq<char>)
    requires
        folders.len() <= usize::MAX,
    ensures
        forall|k: int|
            0 <= k < scored(folders, query).len() ==> (#[trigger] scored(folders, query)[k]).index < folders.len(),
        forall|a: int, b: int|
            0 <= a < b < scored(folders, query).len() ==> (#[trigger] scored(folders, query)[a]).index < (
            #[trigger] scored(folders, query)[b]).index,
    decreases folders.len(),
{
    if folders.len() > 0 {
        lemma_scored_positions(folders.drop_last(), query);
        let prev = scored(folders.drop_last(), query);
        let s = scored(folders, query);
        assert forall|k: int| 0 <= k < prev.len() implies s[k] == prev[k] by {}
        assert forall|a: int, b: int| 0 <= a < b < s.len() implies (#[trigger] s[a]).index < (#[trigger] s[b]).index by {
            if b < prev.len() {
                assert(s[a] == prev[a] && s[b] == prev[b]);
            } else {
                assert(s[a] == prev[a]);
                assert(prev[a].index < folders.drop_last().len());
                assert(s.len() == prev.len() + 1);
                match fuzzy_score(text::trim(query), haystack(folders.last())) {
                    Some(sc) => {
                        assert(s == prev.push(ScoredIndex { index: (folders.len() - 1) as usize, score: sc as i64 }));
                        assert(s[b].index == folders.len() - 1);
                    },
                    None => {},
                }
            }
        }
    }
}

/// The matches name distinct positions of `folders`.
pub proof fn lemma_match_positions(folders: Seq<DependencyFolder>, query: Seq<char>, r: Seq<usize>)
    requires
        is_match_order(folders, query, r),
        folders.len() <= usize::MAX,
    ensures
        distinct_positions(r, folders.len() as int),
{
    lemma_scored_positions(folders, query);
    let found = scored(folders, query);
    if text::trim(query).len() == 0 {
        assert forall|k: int| 0 <= k < r.len() implies (#[trigger] r[k]) < folders.len() by {
            assert(r[k] == found[k].index);
        }
        assert forall|a: int, b: int| 0 <= a < b < r.len() implies #[trigger] r[a] != #[trigger] r[b] by {
            assert(r[a] == found[a].index);
            assert(r[b] == found[b].index);
        }
    } else {
        let order = choose|order: Seq<usize>|
            is_stable_order(found, order) && r == order.map_values(|o: usize| found[o as int].index);
        assert forall|k: int| 0 <= k < r.len() implies (#[trigger] r[k]) < folders.len() by {
            assert(order[k] < found.len());
            assert(r[k] == found[order[k] as int].index);
        }
        assert forall|a: int, b: int| 0 <= a < b < r.len() implies #[trigger] r[a] != #[trigger] r[b] by {
            let p = order[a] as int;
            let q = order[b] as int;
            assert(p != q);
            assert(r[a] == found[p].index);
            assert(r[b] == found[q].index);
            if p < q {
                assert(found[p].index < found[q].index);
            } else {
                assert(found[q].index < found[p].index);
            }
        }
    }
}

/// The folder is listed under `query`.
pub open spec fn is_visible(f: DependencyFolder, query: Seq<char>) -> bool {
    fuzzy_score(text::trim(query), haystack(f)) is Some
}

/// Whether the folder is listed under `query`.
pub fn folder_matches(folder: &DependencyFolder, query: &str) -> (r: bool)
    requires
        100 * query@.len() <= i64::MAX,
        folder_text_fits(*folder),
    ensures
        r == is_visible(*folder, query@),
{
    let qraw = chars_of(query);
    let qt = trimmed(&qraw);
    let qs = string_of(qt.as_slice());
    proof {
        lemma_trim_len(query@);
    }
    let h = folder_haystack(folder);
    proof {
        lemma_haystack_len(*folder);
    }
    score(qs.as_str(), h.as_str()).is_some()
}

/// As many folders are listed as match.
pub proof fn lemma_match_len(folders: Seq<DependencyFolder>, query: Seq<char>, r: Seq<usize>)
    requires
        is_match_order(folders, query, r),
    ensures
        r.len() == scored(folders, query).len(),
{
    if text::trim(query).len() != 0 {
        let found = scored(folders, query);
        let order = choose|order: Seq<usize>|
            is_stable_order(found, order) && r == order.map_values(|o: usize| found[o as int].index);
        assert(r.len() == order.len());
    }
}

/// The folders that match a query are listed in one order only.
pub proof fn lemma_match_order_unique(folders: Seq<DependencyFolder>, query: Seq<char>, r1: Seq<usize>, r2: Seq<usize>)
    requires
        is_match_order(folders, query, r1),
        is_match_order(folders, query, r2),
    ensures
        r1 == r2,
{
    if text::trim(query).len() != 0 {
        let found = scored(folders, query);
        let o1 = choose|order: Seq<usize>|
            is_stable_order(found, order) && r1 == order.map_values(|o: usize| found[o as int].index);
        let o2 = choose|order: Seq<usize>|
            is_stable_order(found, order) && r2 == order.map_values(|o: usize| found[o as int].index);
        crate::sort::lemma_stable_order_unique(found, o1, o2);
    }
}

/// Positions of the folders that match `query`, best matches first.
pub fn matching_indices(folders: &[DependencyFolder], query: &str) -> (r: Vec<usize>)
    requires
        100 * query@.len() <= i64::MAX,
        forall|k: int| 0 <= k < folders@.len() ==> folder_text_fits(#[trigger] folders@[k]),
    ensures
        is_match_order(folders@, query@, r@),
        distinct_positions(r@, folders@.len() as int),
{
    let qraw = chars_of(query);
    let qt = trimmed(&qraw);
    let qs = string_of(qt.as_slice());
    proof {
        lemma_trim_len(query@);
    }
    let mut found: Vec<ScoredIndex> = Vec::new();
    let mut i: usize = 0;
    while i < folders.len()
        invariant
            0 <= i <= folders@.len(),
            qs@ == text::trim(query@),
            100 * qs@.len() <= i64::MAX,
            forall|k: int| 0 <= k < folders@.len() ==> folder_text_fits(#[trigger] folders@[k]),
            found@ == scored(folders@.take(i as int), query@),
        decreases folders@.len() - i,
    {
        let h = folder_haystack(&folders[i]);
        proof {
            lemma_haystack_len(folders@[i as int]);
            assert(folders@.take(i + 1).drop_last() =~= folders@.take(i as int));
            assert(folders@.take(i + 1).last() == folders@[i as int]);
        }
        match score(qs.as_str(), h.as_str()) {
            Some(s) => {
                found.push(ScoredIndex { index: i, score: s.0 });
            },
            None => {},
        }
        i = i + 1;
    }
    assert(folders@.take(folders@.len() as int) =~= folders@);
    let mut r: Vec<usize> = Vec::new();
    if qt.len() == 0 {
        let mut j: usize = 0;
        while j < found.len()
            invariant
                0 <= j <= found.len(),
                r@ == found@.take(j as int).map_values(|m: ScoredIndex| m.index),
            decreases found.len() - j,
        {
            r.push(found[j].index);
            j = j + 1;
            assert(r@ =~= found@.take(j as int).map_values(|m: ScoredIndex| m.index));
        }
        assert(found@.take(found.len() as int) =~= found@);
        proof {
            lemma_match_positions(folders@, query@, r@);
        }
        return r;
    }
    let order = stable_order(&found);
    let mut j: usize = 0;
    while j < order.len()
        invariant
            0 <= j <= order.len(),
            is_stable_order(found@, order@),
            r@ == order@.take(j as int).map_values(|o: usize| found@[o as int].index),
        decreases order.len() - j,
    {
        r.push(found[order[j]].index);
        j = j + 1;
        assert(r@ =~= order@.take(j as int).map_values(|o: usize| found@[o as int].index));
    }
    assert(order@.take(order.len() as int) =~= order@);
    proof {
        lemma_match_positions(folders@, query@, r@);
    }
    r
}

/// A blank query keeps every folder, in folder order.
pub proof fn lemma_blank_query_keeps_all(folders: Seq<DependencyFolder>, query: Seq<char>)
    requires
        text::trim(query).len() == 0,
    ensures
        scored(folders, query).map_values(|m: ScoredIndex| m.index) == Seq::new(folders.len(), |i: int| i as usize),
    decreases folders.len(),
{
    if folders.len() > 0 {
        lemma_blank_query_keeps_all(folders.drop_last(), query);
        lemma_trim_len(text::trim(query));
        let prev = scored(folders.drop_last(), query);
        assert(text::lower_seq(text::trim(text::trim(query))).len() == 0);
        let s = scored(folders, query);
        assert(s.map_values(|m: ScoredIndex| m.index) =~= prev.map_values(|m: ScoredIndex| m.index).push(
            (folders.len() - 1) as usize,
        ));
        assert(Seq::new(folders.len(), |i: int| i as usize) =~= Seq::new(folders.drop_last().len(), |i: int| i as usize).push(
            (folders.len() - 1) as usize,
        ));
    } else {
        assert(Seq::new(folders.len(), |i: int| i as usize) =~= Seq::<usize>::empty());
    }
}

} // verus!
