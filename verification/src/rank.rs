use vstd::prelude::*;
use crate::select::Item;

verus! {

/// Marker placed immediately before a highlighted run of characters in
/// an item's display text. The renderer replaces it with its "begin
/// highlight" styling.
pub const HL_START: char = '\u{1}';

/// Marker placed immediately after a highlighted run of characters.
pub const HL_END: char = '\u{2}';

/// What `sublime_fuzzy::best_match` returns for a query and a target:
/// `None` when the query cannot be matched as a subsequence of the
/// target, otherwise the score and the matched regions, each region a
/// `(start, length)` pair in character positions of the target. A
/// function of the two strings alone.
pub uninterp spec fn fuzzy_of(q: Seq<char>, t: Seq<char>) -> Option<(int, Seq<(int, int)>)>;

/// Whether the query matches the target at all.
pub open spec fn fuzzy_matched(q: Seq<char>, t: Seq<char>) -> bool {
    fuzzy_of(q, t) is Some
}

/// The score of a successful match.
pub open spec fn fuzzy_score(q: Seq<char>, t: Seq<char>) -> int {
    (fuzzy_of(q, t)->0).0
}

/// The matched regions of a successful match.
pub open spec fn fuzzy_spans(q: Seq<char>, t: Seq<char>) -> Seq<(int, int)> {
    (fuzzy_of(q, t)->0).1
}

/// The outcome of fuzzy-matching one query against one candidate: the
/// score and the matched regions of the candidate, each region given as
/// `(start, length)` in character positions.
pub struct MatchInfo {
    pub score: isize,
    pub spans: Vec<(usize, usize)>,
}

impl MatchInfo {
    /// An empty match: the trivial result every candidate gets for an
    /// empty query.
    pub fn new() -> (m: MatchInfo)
        ensures
            m.score == 0,
            m.spans@.len() == 0,
    {
        MatchInfo { score: 0, spans: Vec::new() }
    }
}

/// A span list as mathematical pairs.
pub open spec fn spans_view(spans: Seq<(usize, usize)>) -> Seq<(int, int)> {
    spans.map_values(|p: (usize, usize)| (p.0 as int, p.1 as int))
}

/// Well-formed match regions over a text of `len` characters: each
/// region is non-empty and in bounds, and regions are ascending with a
/// gap of at least one character between them (adjacent matched
/// characters coalesce into one region).
pub open spec fn wf_spans(spans: Seq<(int, int)>, len: int) -> bool {
    &&& forall|i: int|
        0 <= i < spans.len() ==> {
            &&& 0 <= (#[trigger] spans[i]).0
            &&& 1 <= spans[i].1
            &&& spans[i].0 + spans[i].1 <= len
        }
    &&& forall|i: int|
        0 <= i < spans.len() - 1 ==> (#[trigger] spans[i]).0 + spans[i].1 < spans[i + 1].0
}

/// Relies on `sublime_fuzzy::best_match`: `None` exactly when the query
/// has no full fuzzy match in the target; otherwise the score and the
/// matched character positions, grouped by `Match::continuous_matches`
/// into maximal runs, which are therefore in bounds, non-empty,
/// ascending and non-adjacent.
#[verifier::external_body]
fn best_fuzzy_match(query: &str, target: &str) -> (r: Option<MatchInfo>)
    ensures
        r is Some <==> fuzzy_of(query@, target@) is Some,
        r matches Some(m) ==> fuzzy_of(query@, target@) == Some(
            (m.score as int, spans_view(m.spans@)),
        ),
        r matches Some(m) ==> wf_spans(spans_view(m.spans@), target@.len() as int),
{
    match sublime_fuzzy::best_match(query, target) {
        None => None,
        Some(m) => Some(MatchInfo { score: m.score(), spans: m.continuous_matches() }),
    }
}

/// Relies on `str::chars` to list the characters of a string in order.
#[verifier::external_body]
fn str_chars(s: &str) -> (r: Vec<char>)
    ensures
        r@ == s@,
{
    s.chars().collect()
}

/// Relies on `String::from_iter` to assemble a string from its
/// characters.
#[verifier::external_body]
fn chars_to_string(cs: &Vec<char>) -> (r: String)
    ensures
        r@ == cs@,
{
    cs.iter().collect()
}

/// The display text for `text` highlighted over `spans`, starting at
/// position `from`: unmatched stretches are copied as they are, and
/// each matched region is wrapped in the two marker characters.
pub open spec fn spec_highlight(text: Seq<char>, spans: Seq<(int, int)>, from: int) -> Seq<char>
    decreases spans.len(),
{
    if spans.len() == 0 {
        text.subrange(from, text.len() as int)
    } else {
        let st = spans[0].0;
        let ln = spans[0].1;
        text.subrange(from, st) + seq![HL_START] + text.subrange(st, st + ln) + seq![HL_END]
            + spec_highlight(text, spans.drop_first(), st + ln)
    }
}

/// Appends `text[from..to]` to `out`.
fn push_range(out: &mut Vec<char>, text: &Vec<char>, from: usize, to: usize)
    requires
        from <= to <= text@.len(),
    ensures
        final(out)@ == old(out)@ + text@.subrange(from as int, to as int),
{
    let mut j: usize = from;
    proof {
        assert(out@ + text@.subrange(from as int, from as int) =~= out@);
    }
    while j < to
        invariant
            from <= j <= to <= text@.len(),
            out@ == old(out)@ + text@.subrange(from as int, j as int),
        decreases to - j,
    {
        out.push(text[j]);
        proof {
            assert(old(out)@ + text@.subrange(from as int, j + 1) =~= (old(out)@ + text@.subrange(
                from as int,
                j as int,
            )).push(text@[j as int]));
        }
        j += 1;
    }
}

/// Builds the display text: the characters of `text` with every span
/// of `spans` wrapped in the highlight markers.
fn build_display(text: &Vec<char>, spans: &Vec<(usize, usize)>) -> (out: Vec<char>)
    requires
        wf_spans(spans_view(spans@), text@.len() as int),
    ensures
        out@ == spec_highlight(text@, spans_view(spans@), 0),
{
    let ghost allsp = spans_view(spans@);
    let tlen: usize = text.len();
    let mut out: Vec<char> = Vec::new();
    let mut idx: usize = 0;
    let mut k: usize = 0;
    proof {
        assert(allsp.skip(0) =~= allsp);
        assert(out@ + spec_highlight(text@, allsp, 0) =~= spec_highlight(text@, allsp, 0));
    }
    while k < spans.len()
        invariant
            allsp == spans_view(spans@),
            wf_spans(allsp, text@.len() as int),
            tlen == text@.len(),
            0 <= k <= spans@.len(),
            idx <= text@.len(),
            k < spans@.len() ==> idx as int <= allsp[k as int].0,
            spec_highlight(text@, allsp, 0) == out@ + spec_highlight(
                text@,
                allsp.skip(k as int),
                idx as int,
            ),
        decreases spans@.len() - k,
    {
        let (st, ln) = spans[k];
        let ghost out0 = out@;
        let ghost idx0 = idx as int;
        proof {
            assert(allsp[k as int] == (st as int, ln as int));
        }
        push_range(&mut out, text, idx, st);
        out.push(HL_START);
        push_range(&mut out, text, st, st + ln);
        out.push(HL_END);
        proof {
            let sk = allsp.skip(k as int);
            assert(sk[0] == allsp[k as int]);
            assert(sk.drop_first() =~= allsp.skip(k as int + 1));
            assert(out@ =~= out0 + text@.subrange(idx0, st as int) + seq![HL_START]
                + text@.subrange(st as int, st + ln) + seq![HL_END]);
            assert(spec_highlight(text@, sk, idx0) == text@.subrange(idx0, st as int)
                + seq![HL_START] + text@.subrange(st as int, st + ln) + seq![HL_END]
                + spec_highlight(text@, allsp.skip(k as int + 1), st + ln));
            assert(out0 + spec_highlight(text@, sk, idx0) =~= out@ + spec_highlight(
                text@,
                allsp.skip(k as int + 1),
                st + ln,
            ));
        }
        idx = st + ln;
        k += 1;
    }
    proof {
        assert(allsp.skip(k as int) =~= Seq::<(int, int)>::empty());
    }
    let ghost out1 = out@;
    push_range(&mut out, text, idx, text.len());
    proof {
        assert(spec_highlight(text@, allsp.skip(k as int), idx as int) == text@.subrange(
            idx as int,
            text@.len() as int,
        ));
        assert(out@ =~= out1 + text@.subrange(idx as int, text@.len() as int));
    }
    out
}

/// Whether a character is one of the two highlight markers.
pub open spec fn is_marker(c: char) -> bool {
    c == HL_START || c == HL_END
}

/// A display text with every highlight marker removed.
pub open spec fn spec_strip(s: Seq<char>) -> Seq<char>
    decreases s.len(),
{
    if s.len() == 0 {
        s
    } else if is_marker(s.last()) {
        spec_strip(s.drop_last())
    } else {
        spec_strip(s.drop_last()).push(s.last())
    }
}

/// Stripping markers distributes over concatenation.
proof fn lemma_strip_distributes(a: Seq<char>, b: Seq<char>)
    ensures
        spec_strip(a + b) == spec_strip(a) + spec_strip(b),
    decreases b.len(),
{
    if b.len() == 0 {
        assert(a + b =~= a);
        assert(spec_strip(a) + spec_strip(b) =~= spec_strip(a));
    } else {
        lemma_strip_distributes(a, b.drop_last());
        assert((a + b).drop_last() =~= a + b.drop_last());
        assert((a + b).last() == b.last());
        if !is_marker(b.last()) {
            assert(spec_strip(a) + spec_strip(b.drop_last()).push(b.last()) =~= (spec_strip(a)
                + spec_strip(b.drop_last())).push(b.last()));
        }
    }
}

/// Stripping a text that contains no marker keeps it as it is.
proof fn lemma_strip_keeps_all(s: Seq<char>)
    requires
        forall|i: int| 0 <= i < s.len() ==> !is_marker(#[trigger] s[i]),
    ensures
        spec_strip(s) == s,
    decreases s.len(),
{
    if s.len() > 0 {
        assert(!is_marker(s.last()));
        lemma_strip_keeps_all(s.drop_last());
        assert(s.drop_last().push(s.last()) =~= s);
    }
}

/// Removes every highlight marker from a display text.
pub fn remove_markers(s: &str) -> (r: String)
    ensures
        r@ == spec_strip(s@),
{
    let cs = str_chars(s);
    let mut kept: Vec<char> = Vec::new();
    let mut i: usize = 0;
    proof {
        assert(s@.take(0) =~= Seq::<char>::empty());
    }
    while i < cs.len()
        invariant
            cs@ == s@,
            0 <= i <= s@.len(),
            kept@ == spec_strip(s@.take(i as int)),
        decreases s@.len() - i,
    {
        let c = cs[i];
        if !(c == HL_START || c == HL_END) {
            kept.push(c);
        }
        proof {
            let t = s@.take(i + 1);
            assert(t.drop_last() =~= s@.take(i as int));
            assert(t.last() == s@[i as int]);
        }
        i += 1;
    }
    proof {
        assert(s@.take(s@.len() as int) =~= s@);
    }
    chars_to_string(&kept)
}

/// Highlight round trip: for any text that does not itself contain a
/// marker character, removing all highlight markers from the display
/// text built over well-formed spans reproduces the text exactly; here
/// stated from position `from` on.
pub proof fn lemma_highlight_round_trip(text: Seq<char>, spans: Seq<(int, int)>, from: int)
    requires
        wf_spans(spans, text.len() as int),
        0 <= from <= text.len(),
        spans.len() > 0 ==> from <= spans[0].0,
        forall|i: int| 0 <= i < text.len() ==> !is_marker(#[trigger] text[i]),
    ensures
        spec_strip(spec_highlight(text, spans, from)) == text.subrange(from, text.len() as int),
    decreases spans.len(),
{
    if spans.len() == 0 {
        assert(forall|i: int|
            0 <= i < text.subrange(from, text.len() as int).len() ==> !is_marker(
                #[trigger] text.subrange(from, text.len() as int)[i],
            ));
        lemma_strip_keeps_all(text.subrange(from, text.len() as int));
    } else {
        let st = spans[0].0;
        let ln = spans[0].1;
        let rest = spans.drop_first();
        let a = text.subrange(from, st);
        let b = text.subrange(st, st + ln);
        let tail = spec_highlight(text, rest, st + ln);
        assert(wf_spans(rest, text.len() as int)) by {
            assert(forall|i: int| 0 <= i < rest.len() ==> #[trigger] rest[i] == spans[i + 1]);
        }
        assert(rest.len() > 0 ==> st + ln <= rest[0].0);
        lemma_highlight_round_trip(text, rest, st + ln);
        lemma_strip_distributes(a, seq![HL_START]);
        lemma_strip_distributes(a + seq![HL_START], b);
        lemma_strip_distributes(a + seq![HL_START] + b, seq![HL_END]);
        lemma_strip_distributes(a + seq![HL_START] + b + seq![HL_END], tail);
        assert(forall|i: int| 0 <= i < a.len() ==> !is_marker(#[trigger] a[i]));
        lemma_strip_keeps_all(a);
        assert(forall|i: int| 0 <= i < b.len() ==> !is_marker(#[trigger] b[i]));
        lemma_strip_keeps_all(b);
        assert(spec_strip(Seq::<char>::empty()) =~= Seq::<char>::empty());
        assert(seq![HL_START].drop_last() =~= Seq::<char>::empty());
        assert(spec_strip(seq![HL_START]) =~= Seq::<char>::empty());
        assert(seq![HL_END].drop_last() =~= Seq::<char>::empty());
        assert(spec_strip(seq![HL_END]) =~= Seq::<char>::empty());
        assert(spec_strip(spec_highlight(text, spans, from)) =~= text.subrange(
            from,
            text.len() as int,
        ));
    }
}


/// One ranked item is sound for query `q` over candidates `repos`: its
/// key names an existing candidate that the query matches, and its
/// score, spans and display text are exactly those of that match.
pub open spec fn item_ok(it: Item, q: Seq<char>, repos: Seq<String>) -> bool {
    &&& it.item_key < repos.len()
    &&& fuzzy_matched(q, repos[it.item_key as int]@)
    &&& it.match_info.score as int == fuzzy_score(q, repos[it.item_key as int]@)
    &&& spans_view(it.match_info.spans@) == fuzzy_spans(q, repos[it.item_key as int]@)
    &&& it.text@ == spec_highlight(
        repos[it.item_key as int]@,
        fuzzy_spans(q, repos[it.item_key as int]@),
        0,
    )
}

/// Ranking order between two items: the higher score comes first, and
/// equal scores keep the candidates' original relative order.
pub open spec fn ranked_pair(a: Item, b: Item) -> bool {
    ||| a.match_info.score > b.match_info.score
    ||| (a.match_info.score == b.match_info.score && a.item_key < b.item_key)
}

/// A whole item list is ranked: every earlier item ranks before every
/// later one.
pub open spec fn ranked_seq(items: Seq<Item>) -> bool {
    forall|j: int, k: int| 0 <= j < k < items.len() ==> ranked_pair(items[j], items[k])
}

/// Every candidate below `upto` that the query matches appears in the
/// item list.
pub open spec fn lists_all_matches(
    items: Seq<Item>,
    q: Seq<char>,
    repos: Seq<String>,
    upto: int,
) -> bool {
    forall|c: int|
        0 <= c < upto && #[trigger] fuzzy_matched(q, repos[c]@) ==> exists|j: int|
            0 <= j < items.len() && (#[trigger] items[j]).item_key == c
}

/// Inserting the item of the next candidate at the position found by
/// the ranking scan keeps the list ranked, sound and complete.
proof fn lemma_ranked_insert(s: Seq<Item>, it: Item, p: int, q: Seq<char>, repos: Seq<String>, i: int)
    requires
        0 <= p <= s.len(),
        0 <= i < repos.len(),
        ranked_seq(s),
        forall|k: int| 0 <= k < s.len() ==> item_ok(#[trigger] s[k], q, repos),
        forall|k: int| 0 <= k < s.len() ==> (#[trigger] s[k]).item_key < i,
        lists_all_matches(s, q, repos, i),
        forall|k: int|
            0 <= k < p ==> (#[trigger] s[k]).match_info.score >= it.match_info.score,
        forall|k: int|
            p <= k < s.len() ==> (#[trigger] s[k]).match_info.score < it.match_info.score,
        item_ok(it, q, repos),
        it.item_key == i,
    ensures
        ranked_seq(s.insert(p, it)),
        forall|k: int|
            0 <= k < s.insert(p, it).len() ==> item_ok(#[trigger] s.insert(p, it)[k], q, repos),
        forall|k: int|
            0 <= k < s.insert(p, it).len() ==> (#[trigger] s.insert(p, it)[k]).item_key < i + 1,
        lists_all_matches(s.insert(p, it), q, repos, i + 1),
{
    let t = s.insert(p, it);
    s.insert_ensures(p, it);
    assert forall|j: int, k: int| 0 <= j < k < t.len() implies ranked_pair(t[j], t[k]) by {
        if k < p {
            assert(t[j] == s[j] && t[k] == s[k]);
        } else if k == p {
            assert(t[j] == s[j] && t[k] == it);
        } else {
            assert(t[k] == s[k - 1]);
            if j < p {
                assert(t[j] == s[j]);
            } else if j == p {
                assert(t[j] == it);
                assert(s[k - 1].match_info.score < it.match_info.score);
            } else {
                assert(t[j] == s[j - 1]);
            }
        }
    }
    assert forall|k: int| 0 <= k < t.len() implies item_ok(#[trigger] t[k], q, repos) && (
    t[k]).item_key < i + 1 by {
        if k < p {
            assert(t[k] == s[k]);
        } else if k == p {
            assert(t[k] == it);
        } else {
            assert(t[k] == s[k - 1]);
        }
    }
    assert forall|c: int|
        0 <= c < i + 1 && #[trigger] fuzzy_matched(q, repos[c]@) implies exists|j: int|
        0 <= j < t.len() && (#[trigger] t[j]).item_key == c by {
        if c == i {
            assert(t[p].item_key == c);
        } else {
            let j0 = choose|j: int| 0 <= j < s.len() && (#[trigger] s[j]).item_key == c;
            if j0 < p {
                assert(t[j0].item_key == c);
            } else {
                assert(t[j0 + 1].item_key == c);
            }
        }
    }
}

/// Ranks the candidates against the query. An empty query lists every
/// candidate in its original order, unfiltered and unhighlighted.
/// Otherwise exactly the candidates the query fuzzy-matches appear,
/// ordered by descending score with ties in original candidate order,
/// each carrying its match data and its marker-highlighted display
/// text.
pub fn search(input: &String, repos: &Vec<String>) -> (items: Vec<Item>)
    ensures
        input@.len() == 0 ==> {
            &&& items@.len() == repos@.len()
            &&& forall|j: int|
                0 <= j < items@.len() ==> {
                    &&& (#[trigger] items@[j]).item_key == j
                    &&& items@[j].text@ == repos@[j]@
                    &&& items@[j].match_info.spans@.len() == 0
                }
        },
        input@.len() > 0 ==> {
            &&& forall|j: int|
                0 <= j < items@.len() ==> item_ok(#[trigger] items@[j], input@, repos@)
            &&& ranked_seq(items@)
            &&& lists_all_matches(items@, input@, repos@, repos@.len() as int)
        },
{
    let n = repos.len();
    let mut items: Vec<Item> = Vec::new();
    if input.as_str().is_empty() {
        let mut i: usize = 0;
        while i < n
            invariant
                n == repos@.len(),
                0 <= i <= n,
                items@.len() == i,
                forall|j: int|
                    0 <= j < i ==> {
                        &&& (#[trigger] items@[j]).item_key == j
                        &&& items@[j].text@ == repos@[j]@
                        &&& items@[j].match_info.spans@.len() == 0
                    },
            decreases n - i,
        {
            items.push(
                Item { text: repos[i].clone(), item_key: i, match_info: MatchInfo::new() },
            );
            i += 1;
        }
        items
    } else {
        let mut i: usize = 0;
        while i < n
            invariant
                n == repos@.len(),
                input@.len() > 0,
                0 <= i <= n,
                ranked_seq(items@),
                forall|j: int|
                    0 <= j < items@.len() ==> item_ok(#[trigger] items@[j], input@, repos@),
                forall|j: int| 0 <= j < items@.len() ==> (#[trigger] items@[j]).item_key < i,
                lists_all_matches(items@, input@, repos@, i as int),
            decreases n - i,
        {
            match best_fuzzy_match(input.as_str(), repos[i].as_str()) {
                None => {},
                Some(mi) => {
                    let tchars = str_chars(repos[i].as_str());
                    let disp = build_display(&tchars, &mi.spans);
                    let text = chars_to_string(&disp);
                    let ghost items0 = items@;
                    let mut p: usize = 0;
                    while p < items.len() && items[p].match_info.score >= mi.score
                        invariant
                            items@ == items0,
                            0 <= p <= items@.len(),
                            forall|k: int|
                                0 <= k < p ==> (#[trigger] items@[k]).match_info.score
                                    >= mi.score,
                        decreases items@.len() - p,
                    {
                        p += 1;
                    }
                    let it = Item { text, item_key: i, match_info: mi };
                    proof {
                        assert forall|k: int|
                            p <= k < items@.len() implies (#[trigger] items@[k]).match_info.score
                            < it.match_info.score by {
                            if k > p {
                                assert(ranked_pair(items@[p as int], items@[k]));
                            }
                        }
                        lemma_ranked_insert(items@, it, p as int, input@, repos@, i as int);
                    }
                    items.insert(p, it);
                },
            }
            i += 1;
        }
        items
    }
}

} // verus!
