//! In-memory fuzzy search over the marketable item catalog.
//!
//! Scoring a name against a query is nucleo's work; which items are shown,
//! and in what order, is decided here: best adjusted score first, then the
//! shorter name, then the name's byte order, then catalog order.

use vstd::prelude::*;
use vstd::string::StrSliceExecFns;
use vstd::string::StringSliceAdditionalSpecFns;
use vstd::utf8::encode_utf8;
use nucleo_matcher::{Config, Matcher, Utf32String};
use nucleo_matcher::pattern::{CaseMatching, Normalization, Pattern};
use crate::catalog::{Item, ItemModel};
use crate::text::{ascii_lower_seq, trim, trim_spec};

verus! {

/// Cap on results handed to the window.
pub const DEFAULT_LIMIT: usize = 30;

/// How many characters of name are worth one point of match score.
///
/// Raw scores separate a base item from its variants by only a point or two,
/// so the shorter name is the better signal. Dividing (rather than
/// subtracting outright) keeps length a tie-break between near-equal matches
/// that never overturns a genuinely better one.
pub const CHARS_PER_SCORE_POINT: usize = 8;

/// nucleo's matcher: reusable scratch space plus a configuration.
#[verifier::external_type_specification]
#[verifier::external_body]
pub struct ExMatcher(Matcher);

/// Longest name, in characters, the matcher can score without overflow.
///
/// nucleo keeps each word's score in a `u16`. Along a name of at most 2048
/// characters a word gains at most 36 for its first matched character, 26
/// for each later one and 8 for an early start, and the gap penalty for a
/// late start (3 per skipped character) stays below 6144; both stay inside
/// a `u16`. Longer names can overflow it.
pub const MAX_NAME_CHARS: usize = 2048;

/// Longest query, in characters, whose total score fits a `u32`: words are
/// separated by spaces, so such a query has at most 65536 of them, each
/// scoring below 65536.
pub const MAX_QUERY_CHARS: usize = 131071;

/// The score nucleo's `Pattern::score` gives `name` for `query`: the query
/// parsed by `Pattern::parse` (case ignored, smart normalization), the name
/// encoded by `Utf32String::from`, and the matcher on nucleo's default
/// configuration with `prefer_prefix` as given; `None` when some word of the
/// query does not match.
pub uninterp spec fn fuzzy_score(query: Seq<char>, name: Seq<char>, prefer_prefix: bool) -> Option<
    u32,
>;

/// A matcher with fresh scratch space.
#[verifier::external_body]
fn new_matcher() -> Matcher {
    Matcher::default()
}

/// nucleo's `Pattern::score` of `name` for `query`. The matcher only lends
/// its scratch space: its configuration is reset on every call.
///
/// Besides naming the score, the contract says that the ASCII case of the
/// query does not matter: with `CaseMatching::Ignore`, `Pattern::parse`
/// lowers every word before matching (`make_ascii_lowercase` for an ASCII
/// word, simple case folding, which maps `A`-`Z` to `a`-`z`, otherwise), so
/// a query and its ASCII-lowercased form parse to the same pattern.
///
/// The bounds keep nucleo's `u16` word scores and `u32` total from
/// overflowing; see `MAX_NAME_CHARS` and `MAX_QUERY_CHARS`.
#[verifier::external_body]
fn pattern_score(matcher: &mut Matcher, query: &str, name: &str, prefer_prefix: bool) -> (r:
    Option<u32>)
    requires
        query@.len() <= MAX_QUERY_CHARS,
        name@.len() <= MAX_NAME_CHARS,
    ensures
        r == fuzzy_score(query@, name@, prefer_prefix),
        r == fuzzy_score(ascii_lower_seq(query@), name@, prefer_prefix),
{
    matcher.config = Config::DEFAULT;
    matcher.config.prefer_prefix = prefer_prefix;
    let pattern = Pattern::parse(query, CaseMatching::Ignore, Normalization::Smart);
    pattern.score(Utf32String::from(name).slice(..), matcher)
}

/// The score search ranks by: the match score less one point per
/// `CHARS_PER_SCORE_POINT` characters of name, never below zero.
pub open spec fn adjusted_spec(score: u32, name: Seq<char>) -> int {
    let penalty = name.len() / (CHARS_PER_SCORE_POINT as nat);
    if score >= penalty {
        score - penalty
    } else {
        0
    }
}

/// Strict lexicographic order on byte strings (a proper prefix comes first).
pub open spec fn bytes_less(a: Seq<u8>, b: Seq<u8>) -> bool
    decreases a.len(),
{
    if b.len() == 0 {
        false
    } else if a.len() == 0 {
        true
    } else if a[0] != b[0] {
        a[0] < b[0]
    } else {
        bytes_less(a.drop_first(), b.drop_first())
    }
}

/// Whether match `a` (a score and a catalog position) is shown before match
/// `b`: higher adjusted score first, then the shorter name in bytes, then the
/// name's byte order, then the earlier catalog position.
pub open spec fn ranks_before(items: Seq<ItemModel>, a: (u32, int), b: (u32, int)) -> bool {
    let na = items[a.1].name;
    let nb = items[b.1].name;
    let xa = adjusted_spec(a.0, na);
    let xb = adjusted_spec(b.0, nb);
    let ba = encode_utf8(na);
    let bb = encode_utf8(nb);
    if xa != xb {
        xa > xb
    } else if ba.len() != bb.len() {
        ba.len() < bb.len()
    } else if ba != bb {
        bytes_less(ba, bb)
    } else {
        a.1 < b.1
    }
}

proof fn lemma_bytes_irreflexive(a: Seq<u8>)
    ensures
        !bytes_less(a, a),
    decreases a.len(),
{
    if a.len() > 0 {
        lemma_bytes_irreflexive(a.drop_first());
    }
}

proof fn lemma_bytes_asymmetric(a: Seq<u8>, b: Seq<u8>)
    requires
        bytes_less(a, b),
    ensures
        !bytes_less(b, a),
    decreases a.len(),
{
    if a.len() > 0 && b.len() > 0 && a[0] == b[0] {
        lemma_bytes_asymmetric(a.drop_first(), b.drop_first());
    }
}

proof fn lemma_bytes_transitive(a: Seq<u8>, b: Seq<u8>, c: Seq<u8>)
    requires
        bytes_less(a, b),
        bytes_less(b, c),
    ensures
        bytes_less(a, c),
    decreases a.len(),
{
    if a.len() > 0 && b.len() > 0 && c.len() > 0 && a[0] == b[0] && b[0] == c[0] {
        lemma_bytes_transitive(a.drop_first(), b.drop_first(), c.drop_first());
    }
}

proof fn lemma_bytes_total(a: Seq<u8>, b: Seq<u8>)
    requires
        a != b,
    ensures
        bytes_less(a, b) || bytes_less(b, a),
    decreases a.len(),
{
    if a.len() > 0 && b.len() > 0 && a[0] == b[0] {
        if a.drop_first() == b.drop_first() {
            assert(a =~= seq![a[0]] + a.drop_first());
            assert(b =~= seq![b[0]] + b.drop_first());
        }
        lemma_bytes_total(a.drop_first(), b.drop_first());
    } else if a.len() == 0 && b.len() == 0 {
        assert(a =~= b);
    }
}

/// No match ranks before itself.
pub proof fn lemma_ranks_irreflexive(items: Seq<ItemModel>, a: (u32, int))
    ensures
        !ranks_before(items, a, a),
{
}

/// Ranking is transitive.
pub proof fn lemma_ranks_transitive(
    items: Seq<ItemModel>,
    a: (u32, int),
    b: (u32, int),
    c: (u32, int),
)
    requires
        ranks_before(items, a, b),
        ranks_before(items, b, c),
    ensures
        ranks_before(items, a, c),
{
    let ba = encode_utf8(items[a.1].name);
    let bb = encode_utf8(items[b.1].name);
    let bc = encode_utf8(items[c.1].name);
    if bytes_less(ba, bb) && bytes_less(bb, bc) {
        lemma_bytes_transitive(ba, bb, bc);
    }
    if ba == bc && bytes_less(ba, bb) && bytes_less(bb, bc) {
        lemma_bytes_asymmetric(bb, bc);
    }
    if ba == bc && bytes_less(ba, bb) {
        if bytes_less(bb, bc) {
            lemma_bytes_asymmetric(ba, bb);
        }
    }
}

/// Of two matches at different catalog positions, one ranks before the other.
pub proof fn lemma_ranks_total(items: Seq<ItemModel>, a: (u32, int), b: (u32, int))
    requires
        a.1 != b.1,
    ensures
        ranks_before(items, a, b) || ranks_before(items, b, a),
{
    let ba = encode_utf8(items[a.1].name);
    let bb = encode_utf8(items[b.1].name);
    if ba != bb {
        lemma_bytes_total(ba, bb);
    }
}

/// Ranking is asymmetric.
pub proof fn lemma_ranks_asymmetric(items: Seq<ItemModel>, a: (u32, int), b: (u32, int))
    requires
        ranks_before(items, a, b),
    ensures
        !ranks_before(items, b, a),
{
    let ba = encode_utf8(items[a.1].name);
    let bb = encode_utf8(items[b.1].name);
    if bytes_less(ba, bb) {
        lemma_bytes_asymmetric(ba, bb);
    }
}


/// The score nucleo gives catalog entry `i` for `query`.
pub open spec fn match_score(items: Seq<ItemModel>, query: Seq<char>, i: int) -> Option<u32> {
    fuzzy_score(query, items[i].name, true)
}

/// Some pick is catalog entry `i`.
pub open spec fn picked(picks: Seq<(u32, int)>, i: int) -> bool {
    exists|k: int| 0 <= k < picks.len() && picks[k].1 == i
}

/// Each pick ranks before the next.
pub open spec fn ranked(items: Seq<ItemModel>, picks: Seq<(u32, int)>) -> bool {
    forall|k1: int, k2: int|
        0 <= k1 < k2 < picks.len() ==> #[trigger] ranks_before(items, picks[k1], picks[k2])
}

/// Each pick is a catalog entry that matches `query`, with its score.
pub open spec fn picks_match(items: Seq<ItemModel>, query: Seq<char>, picks: Seq<(u32, int)>) -> bool {
    forall|k: int|
        0 <= k < picks.len() ==> 0 <= #[trigger] picks[k].1 < items.len() && match_score(
            items,
            query,
            picks[k].1,
        ) == Some(picks[k].0)
}

/// Every matching entry before position `n` that was not picked ranks after
/// every pick, and then the picks are full.
pub open spec fn left_out_rank_after(
    items: Seq<ItemModel>,
    query: Seq<char>,
    limit: nat,
    picks: Seq<(u32, int)>,
    n: int,
) -> bool {
    forall|j: int|
        0 <= j < n && #[trigger] match_score(items, query, j) is Some && !picked(picks, j) ==> {
            &&& picks.len() == limit
            &&& forall|k: int|
                0 <= k < picks.len() ==> ranks_before(
                    items,
                    picks[k],
                    (match_score(items, query, j)->0, j),
                )
        }
}

/// `picks` are the best `limit` matches of `query` in `items`, best first:
/// at most `limit` of them, each a match with its score, each ranked before
/// the next, and every match left out ranks after all of them.
pub open spec fn is_ranking(
    items: Seq<ItemModel>,
    query: Seq<char>,
    limit: nat,
    picks: Seq<(u32, int)>,
) -> bool {
    &&& picks.len() <= limit
    &&& picks_match(items, query, picks)
    &&& ranked(items, picks)
    &&& left_out_rank_after(items, query, limit, picks, items.len() as int)
}

/// One ranked match handed to the window.
#[derive(Debug)]
pub struct SearchResult {
    pub item: Item,
    /// Higher is a better match. Exposed so the window can highlight a
    /// runaway best match, not for display.
    pub score: u32,
}

/// The marketable catalog, held in memory for searching.
pub struct SearchIndex {
    items: Vec<Item>,
}

/// The models of a list of items.
pub open spec fn items_view(items: Seq<Item>) -> Seq<ItemModel> {
    items.map_values(|it: Item| it@)
}

impl View for SearchIndex {
    type V = Seq<ItemModel>;

    closed spec fn view(&self) -> Seq<ItemModel> {
        items_view(self.items@)
    }
}

/// A match under consideration: its score, adjusted score and position.
struct Candidate {
    score: u32,
    adjusted: u32,
    index: usize,
}

spec fn candidate_view(c: Candidate) -> (u32, int) {
    (c.score, c.index as int)
}

spec fn candidates_view(cs: Seq<Candidate>) -> Seq<(u32, int)> {
    cs.map_values(|c: Candidate| candidate_view(c))
}

/// Three-way byte order: negative, zero or positive as `a` sorts before,
/// equal to, or after `b`.
fn byte_order(a: &[u8], b: &[u8]) -> (r: i8)
    ensures
        r < 0 <==> bytes_less(a@, b@),
        r == 0 <==> a@ == b@,
        r > 0 <==> bytes_less(b@, a@),
{
    let mut i: usize = 0;
    assert(a@.skip(0) =~= a@);
    assert(b@.skip(0) =~= b@);
    while i < a.len() && i < b.len()
        invariant
            i <= a@.len(),
            i <= b@.len(),
            a@.take(i as int) == b@.take(i as int),
            bytes_less(a@, b@) == bytes_less(a@.skip(i as int), b@.skip(i as int)),
            bytes_less(b@, a@) == bytes_less(b@.skip(i as int), a@.skip(i as int)),
        decreases a@.len() - i,
    {
        if a[i] != b[i] {
            proof {
                if a@ == b@ {
                    assert(a@[i as int] == b@[i as int]);
                }
            }
            if a[i] < b[i] {
                return -1;
            } else {
                return 1;
            }
        }
        proof {
            assert(a@.skip(i as int).drop_first() =~= a@.skip(i + 1));
            assert(b@.skip(i as int).drop_first() =~= b@.skip(i + 1));
            assert(a@.take(i + 1) =~= a@.take(i as int).push(a@[i as int]));
            assert(b@.take(i + 1) =~= b@.take(i as int).push(b@[i as int]));
        }
        i += 1;
    }
    if i == a.len() && i == b.len() {
        assert(a@ =~= a@.take(i as int));
        assert(b@ =~= b@.take(i as int));
        proof {
            lemma_bytes_irreflexive(a@);
        }
        0
    } else if i == a.len() {
        proof {
            if a@ == b@ {
                assert(a@.len() == b@.len());
            }
        }
        -1
    } else {
        proof {
            if a@ == b@ {
                assert(a@.len() == b@.len());
            }
        }
        1
    }
}

impl SearchIndex {
    #[verifier::type_invariant]
    spec fn names_fit(self) -> bool {
        forall|i: int|
            0 <= i < self.items@.len() ==> #[trigger] self.items@[i].name@.len() <= MAX_NAME_CHARS
    }

    /// An index over `items`, in the order given. No name may be longer than
    /// `MAX_NAME_CHARS` characters, past which nucleo's scores overflow.
    pub fn new(items: Vec<Item>) -> (r: Self)
        requires
            forall|i: int| 0 <= i < items@.len() ==> #[trigger] items@[i].name@.len() <= MAX_NAME_CHARS,
        ensures
            r@ == items_view(items@),
    {
        SearchIndex { items }
    }

    /// Whether the catalog is empty.
    pub fn is_empty(&self) -> (r: bool)
        ensures
            r == (self@.len() == 0),
    {
        self.items.len() == 0
    }

    /// Number of items in the catalog.
    pub fn len(&self) -> (r: usize)
        ensures
            r == self@.len(),
    {
        self.items.len()
    }

    fn adjusted_score(&self, score: u32, index: usize) -> (r: u32)
        requires
            index < self@.len(),
        ensures
            r == adjusted_spec(score, self@[index as int].name),
    {
        proof {
            use_type_invariant(self);
            assert(self@[index as int] == self.items@[index as int]@);
        }
        let chars = self.items[index].name.as_str().unicode_len();
        let penalty = chars / CHARS_PER_SCORE_POINT;
        score.saturating_sub(penalty as u32)
    }

    fn ranks_before_exec(&self, a: &Candidate, b: &Candidate) -> (r: bool)
        requires
            a.index < self@.len(),
            b.index < self@.len(),
            a.adjusted == adjusted_spec(a.score, self@[a.index as int].name),
            b.adjusted == adjusted_spec(b.score, self@[b.index as int].name),
        ensures
            r == ranks_before(self@, candidate_view(*a), candidate_view(*b)),
    {
        if a.adjusted != b.adjusted {
            return a.adjusted > b.adjusted;
        }
        proof {
            assert(self@[a.index as int] == self.items@[a.index as int]@);
            assert(self@[b.index as int] == self.items@[b.index as int]@);
        }
        let x = self.items[a.index].name.as_str().as_bytes();
        let y = self.items[b.index].name.as_str().as_bytes();
        if x.len() != y.len() {
            return x.len() < y.len();
        }
        let o = byte_order(x, y);
        if o != 0 {
            o < 0
        } else {
            a.index < b.index
        }
    }

    /// Consider match `c` for the best `limit` matches held in `top`.
    fn offer(&self, top: &mut Vec<Candidate>, c: Candidate, limit: usize, Ghost(q): Ghost<Seq<char>>)
        requires
            c.index < self@.len(),
            c.adjusted == adjusted_spec(c.score, self@[c.index as int].name),
            match_score(self@, q, c.index as int) == Some(c.score),
            limit > 0,
            old(top)@.len() <= limit,
            forall|k: int|
                0 <= k < old(top)@.len() ==> {
                    &&& (#[trigger] old(top)@[k]).index < c.index
                    &&& old(top)@[k].adjusted == adjusted_spec(
                        old(top)@[k].score,
                        self@[old(top)@[k].index as int].name,
                    )
                },
            picks_match(self@, q, candidates_view(old(top)@)),
            ranked(self@, candidates_view(old(top)@)),
            left_out_rank_after(
                self@,
                q,
                limit as nat,
                candidates_view(old(top)@),
                c.index as int,
            ),
        ensures
            final(top)@.len() <= limit,
            forall|k: int|
                0 <= k < final(top)@.len() ==> {
                    &&& (#[trigger] final(top)@[k]).index <= c.index
                    &&& final(top)@[k].adjusted == adjusted_spec(
                        final(top)@[k].score,
                        self@[final(top)@[k].index as int].name,
                    )
                },
            picks_match(self@, q, candidates_view(final(top)@)),
            ranked(self@, candidates_view(final(top)@)),
            left_out_rank_after(
                self@,
                q,
                limit as nat,
                candidates_view(final(top)@),
                c.index + 1,
            ),
    {
        let ghost items = self@;
        let ghost old_v = candidates_view(top@);
        let ghost cv = candidate_view(c);
        let len = top.len();
        if len == limit {
            if !self.ranks_before_exec(&c, &top[len - 1]) {
                proof {
                    let last = old_v[len - 1];
                    lemma_ranks_total(items, cv, last);
                    assert forall|k: int| 0 <= k < old_v.len() implies ranks_before(
                        items,
                        old_v[k],
                        cv,
                    ) by {
                        if k < len - 1 {
                            assert(ranks_before(items, old_v[k], old_v[len - 1]));
                            lemma_ranks_transitive(items, old_v[k], last, cv);
                        }
                    }
                    assert forall|j: int|
                        0 <= j < c.index + 1 && #[trigger] match_score(items, q, j) is Some
                            && !picked(old_v, j) implies {
                        &&& old_v.len() == limit
                        &&& forall|k: int|
                            0 <= k < old_v.len() ==> ranks_before(
                                items,
                                old_v[k],
                                (match_score(items, q, j)->0, j),
                            )
                    } by {
                        if j == c.index {
                            assert((match_score(items, q, j)->0, j) == cv);
                        }
                    }
                }
                return;
            }
        }
        let mut p: usize = 0;
        while p < top.len() && self.ranks_before_exec(&top[p], &c)
            invariant
                top@.len() == len,
                candidates_view(top@) == old_v,
                p <= len,
                cv == candidate_view(c),
                c.index < self@.len(),
                c.adjusted == adjusted_spec(c.score, self@[c.index as int].name),
                items == self@,
                forall|k: int|
                    0 <= k < top@.len() ==> {
                        &&& (#[trigger] top@[k]).index < c.index
                        &&& top@[k].adjusted == adjusted_spec(
                            top@[k].score,
                            self@[top@[k].index as int].name,
                        )
                    },
                forall|k: int| 0 <= k < p ==> ranks_before(items, #[trigger] old_v[k], cv),
            decreases len - p,
        {
            assert(old_v[p as int] == candidate_view(top@[p as int]));
            p += 1;
        }
        proof {
            if p < len {
                assert(top@[p as int].index < c.index);
                lemma_ranks_total(items, cv, old_v[p as int]);
            }
            lemma_insert_ranked(items, old_v, p as int, cv);
        }
        let ghost before_insert = top@;
        top.insert(p, c);
        assert(candidates_view(top@) =~= old_v.insert(p as int, cv));
        let ghost ins = candidates_view(top@);
        if top.len() > limit {
            top.pop();
            proof {
                assert(len == limit);
                // `c` was offered to a full list only because it beats the last pick.
                assert(p < len) by {
                    if p == len {
                        assert(ranks_before(items, old_v[len - 1], cv));
                        lemma_ranks_asymmetric(items, old_v[len - 1], cv);
                    }
                }
                assert(candidates_view(top@) =~= ins.take(limit as int));
            }
        }
        proof {
            let new_v = candidates_view(top@);
            assert(new_v.len() <= limit);
            assert forall|k: int| 0 <= k < new_v.len() implies new_v[k] == ins[k] by {}
            assert(ranked(items, new_v)) by {
                assert forall|k1: int, k2: int| 0 <= k1 < k2 < new_v.len() implies #[trigger] ranks_before(
                    items,
                    new_v[k1],
                    new_v[k2],
                ) by {
                    assert(ranks_before(items, ins[k1], ins[k2]));
                }
            }
            assert(picks_match(items, q, new_v)) by {
                assert forall|k: int| 0 <= k < new_v.len() implies 0 <= #[trigger] new_v[k].1
                    < items.len() && match_score(items, q, new_v[k].1) == Some(new_v[k].0) by {
                    if k < p {
                        assert(new_v[k] == old_v[k]);
                    } else if k > p {
                        assert(new_v[k] == old_v[k - 1]);
                    }
                }
            }
            // `c` itself is kept.
            assert(new_v[p as int] == cv);
            assert(picked(new_v, c.index as int));
            assert forall|j: int|
                0 <= j < c.index + 1 && #[trigger] match_score(items, q, j) is Some && !picked(
                    new_v,
                    j,
                ) implies {
                &&& new_v.len() == limit
                &&& forall|k: int|
                    0 <= k < new_v.len() ==> ranks_before(
                        items,
                        new_v[k],
                        (match_score(items, q, j)->0, j),
                    )
            } by {
                let z = (match_score(items, q, j)->0, j);
                if picked(old_v, j) {
                    let w = choose|w: int| 0 <= w < old_v.len() && old_v[w].1 == j;
                    // the only pick that can have been dropped is the old last one
                    if w < p {
                        assert(new_v[w] == old_v[w]);
                    } else if w + 1 < new_v.len() {
                        assert(new_v[w + 1] == old_v[w]);
                    }
                    assert(ins.len() == limit + 1);
                    assert(w == len - 1);
                    assert(old_v[w] == ins[limit as int]);
                    assert(old_v[w] == z);
                    assert forall|k: int| 0 <= k < new_v.len() implies ranks_before(
                        items,
                        new_v[k],
                        z,
                    ) by {
                        assert(ranks_before(items, ins[k], ins[limit as int]));
                    }
                } else {
                    assert(old_v.len() == limit);
                    assert(ranks_before(items, old_v[len - 1], z));
                    assert forall|k: int| 0 <= k < new_v.len() implies ranks_before(
                        items,
                        new_v[k],
                        z,
                    ) by {
                        if k < p {
                            assert(new_v[k] == old_v[k]);
                        } else if k > p {
                            assert(new_v[k] == old_v[k - 1]);
                        } else {
                            assert(ranks_before(items, cv, old_v[len - 1]));
                            lemma_ranks_transitive(items, cv, old_v[len - 1], z);
                        }
                    }
                }
            }
        }
    }
}

/// `results` show `picks`: each the picked catalog entry with its score.
pub open spec fn shows_picks(items: Seq<ItemModel>, picks: Seq<(u32, int)>, results: Seq<SearchResult>) -> bool {
    &&& results.len() == picks.len()
    &&& forall|k: int|
        0 <= k < results.len() ==> (#[trigger] results[k]).item@ == items[picks[k].1]
            && results[k].score == picks[k].0
}

/// `i` is the first catalog entry with this id.
pub open spec fn is_first_item(items: Seq<ItemModel>, item_id: u32, i: int) -> bool {
    &&& 0 <= i < items.len()
    &&& items[i].item_id == item_id
    &&& forall|j: int| 0 <= j < i ==> items[j].item_id != item_id
}

/// Some catalog entry has this id.
pub open spec fn has_item(items: Seq<ItemModel>, item_id: u32) -> bool {
    exists|i: int| 0 <= i < items.len() && items[i].item_id == item_id
}

/// The first catalog entry with this id (meaningful when `has_item`).
pub open spec fn item_with_id(items: Seq<ItemModel>, item_id: u32) -> ItemModel {
    items[choose|i: int| is_first_item(items, item_id, i)]
}

/// The entries the ids name, in the ids' order, skipping ids the catalog
/// does not hold.
pub open spec fn resolve_ids(items: Seq<ItemModel>, ids: Seq<u32>) -> Seq<ItemModel>
    decreases ids.len(),
{
    if ids.len() == 0 {
        Seq::empty()
    } else {
        let rest = resolve_ids(items, ids.drop_last());
        if has_item(items, ids.last()) {
            rest.push(item_with_id(items, ids.last()))
        } else {
            rest
        }
    }
}

proof fn lemma_first_item(items: Seq<ItemModel>, item_id: u32, i: int)
    requires
        is_first_item(items, item_id, i),
    ensures
        item_with_id(items, item_id) == items[i],
{
    let k = choose|k: int| is_first_item(items, item_id, k);
    assert(is_first_item(items, item_id, k));
    if k < i {
        assert(items[k].item_id != item_id);
    } else if k > i {
        assert(items[i].item_id != item_id);
    }
}

impl SearchIndex {
    /// Rank the catalog against `query` (trimmed) and return the best `limit`
    /// matches, best first. An empty query matches nothing, and the ASCII
    /// case of the query makes no difference.
    pub fn search(&self, query: &str, limit: usize) -> (r: Vec<SearchResult>)
        requires
            trim_spec(query@).len() <= MAX_QUERY_CHARS,
        ensures
            ({
                let q = trim_spec(query@);
                if q.len() == 0 || limit == 0 {
                    r@.len() == 0
                } else {
                    exists|picks: Seq<(u32, int)>|
                        #[trigger] is_ranking(self@, q, limit as nat, picks) && is_ranking(
                            self@,
                            ascii_lower_seq(q),
                            limit as nat,
                            picks,
                        ) && shows_picks(self@, picks, r@)
                }
            }),
    {
        let q = trim(query);
        if q.is_empty() || limit == 0 {
            return Vec::new();
        }
        proof {
            use_type_invariant(self);
        }
        let mut matcher = new_matcher();
        let mut top: Vec<Candidate> = Vec::new();
        let n = self.items.len();
        let mut i: usize = 0;
        while i < n
            invariant
                n == self@.len(),
                n == self.items@.len(),
                i <= n,
                q@ == trim_spec(query@),
                q@.len() <= MAX_QUERY_CHARS,
                limit > 0,
                forall|j: int| 0 <= j < n ==> #[trigger] self.items@[j].name@.len() <= MAX_NAME_CHARS,
                forall|j: int|
                    0 <= j < i ==> #[trigger] match_score(self@, q@, j) == match_score(
                        self@,
                        ascii_lower_seq(q@),
                        j,
                    ),
                top@.len() <= limit,
                forall|k: int|
                    0 <= k < top@.len() ==> {
                        &&& (#[trigger] top@[k]).index < i
                        &&& top@[k].adjusted == adjusted_spec(
                            top@[k].score,
                            self@[top@[k].index as int].name,
                        )
                    },
                picks_match(self@, q@, candidates_view(top@)),
                ranked(self@, candidates_view(top@)),
                left_out_rank_after(self@, q@, limit as nat, candidates_view(top@), i as int),
            decreases n - i,
        {
            let found = pattern_score(&mut matcher, q, self.items[i].name.as_str(), true);
            assert(self@[i as int] == self.items@[i as int]@);
            match found {
                None => {
                    assert(match_score(self@, q@, i as int) is None);
                },
                Some(score) => {
                    let c = Candidate { score, adjusted: self.adjusted_score(score, i), index: i };
                    self.offer(&mut top, c, limit, Ghost(q@));
                },
            }
            i += 1;
        }
        let ghost picks = candidates_view(top@);
        let mut results: Vec<SearchResult> = Vec::new();
        let mut k: usize = 0;
        while k < top.len()
            invariant
                picks == candidates_view(top@),
                picks_match(self@, q@, picks),
                n == self@.len(),
                n == self.items@.len(),
                k <= top@.len(),
                results@.len() == k,
                forall|m: int|
                    0 <= m < k ==> (#[trigger] results@[m]).item@ == self@[picks[m].1]
                        && results@[m].score == picks[m].0,
            decreases top@.len() - k,
        {
            let idx = top[k].index;
            assert(picks[k as int].1 == idx);
            assert(self@[idx as int] == self.items@[idx as int]@);
            let item = self.items[idx].clone();
            results.push(SearchResult { item, score: top[k].score });
            k += 1;
        }
        assert(is_ranking(self@, q@, limit as nat, picks));
        proof {
            lemma_ranking_same_scores(self@, q@, ascii_lower_seq(q@), limit as nat, picks);
        }
        assert(shows_picks(self@, picks, results@));
        results
    }

    /// The first catalog entry with this id, if any.
    pub fn get(&self, item_id: u32) -> (r: Option<&Item>)
        ensures
            r is Some <==> has_item(self@, item_id),
            r matches Some(it) ==> it@ == item_with_id(self@, item_id),
    {
        let mut i: usize = 0;
        while i < self.items.len()
            invariant
                i <= self.items@.len(),
                forall|j: int| 0 <= j < i ==> self@[j].item_id != item_id,
            decreases self.items@.len() - i,
        {
            assert(self@[i as int] == self.items@[i as int]@);
            if self.items[i].item_id == item_id {
                proof {
                    lemma_first_item(self@, item_id, i as int);
                }
                return Some(&self.items[i]);
            }
            i += 1;
        }
        None
    }

    /// The entries the ids name, in the ids' order; ids the catalog no longer
    /// holds (a patch removed them) are dropped.
    pub fn items_for_ids(&self, ids: &[u32]) -> (r: Vec<Item>)
        ensures
            items_view(r@) == resolve_ids(self@, ids@),
    {
        let mut out: Vec<Item> = Vec::new();
        let mut i: usize = 0;
        while i < ids.len()
            invariant
                i <= ids@.len(),
                items_view(out@) == resolve_ids(self@, ids@.take(i as int)),
            decreases ids@.len() - i,
        {
            proof {
                assert(ids@.take(i + 1).drop_last() =~= ids@.take(i as int));
            }
            let ghost prev = out@;
            match self.get(ids[i]) {
                Some(it) => {
                    out.push(it.clone());
                    assert(items_view(out@) =~= items_view(prev).push(it@));
                },
                None => {},
            }
            i += 1;
        }
        assert(ids@.take(ids@.len() as int) =~= ids@);
        out
    }
}

/// Inserting a match where it belongs keeps the picks ranked.
proof fn lemma_insert_ranked(items: Seq<ItemModel>, top: Seq<(u32, int)>, p: int, c: (u32, int))
    requires
        ranked(items, top),
        0 <= p <= top.len(),
        forall|k: int| 0 <= k < p ==> ranks_before(items, #[trigger] top[k], c),
        p < top.len() ==> ranks_before(items, c, top[p]),
    ensures
        ranked(items, top.insert(p, c)),
        forall|k: int| p <= k < top.len() ==> ranks_before(items, c, #[trigger] top[k]),
{
    assert forall|k: int| p <= k < top.len() implies ranks_before(items, c, #[trigger] top[k]) by {
        if k > p {
            assert(ranks_before(items, top[p], top[k]));
            lemma_ranks_transitive(items, c, top[p], top[k]);
        }
    }
    let n = top.insert(p, c);
    assert forall|k1: int, k2: int| 0 <= k1 < k2 < n.len() implies #[trigger] ranks_before(
        items,
        n[k1],
        n[k2],
    ) by {
        if k2 < p {
            assert(ranks_before(items, top[k1], top[k2]));
        } else if k2 == p {
        } else if k1 < p {
            assert(ranks_before(items, top[k1], c));
            assert(ranks_before(items, c, top[k2 - 1]));
            lemma_ranks_transitive(items, top[k1], c, top[k2 - 1]);
        } else if k1 == p {
        } else {
            assert(ranks_before(items, top[k1 - 1], top[k2 - 1]));
        }
    }
}

/// Length only breaks near-ties: a match whose raw score beats another's by
/// more than its own length penalty is shown first, however long its name.
pub proof fn law_length_never_overturns_a_better_match(
    items: Seq<ItemModel>,
    a: (u32, int),
    b: (u32, int),
)
    requires
        0 <= a.1 < items.len(),
        0 <= b.1 < items.len(),
        a.0 > b.0 + items[a.1].name.len() / (CHARS_PER_SCORE_POINT as nat),
    ensures
        ranks_before(items, a, b),
{
}

/// Between two equal raw scores, the name with no more characters and fewer
/// bytes is shown first.
pub proof fn law_shorter_name_wins_a_tie(items: Seq<ItemModel>, a: (u32, int), b: (u32, int))
    requires
        0 <= a.1 < items.len(),
        0 <= b.1 < items.len(),
        a.0 == b.0,
        items[a.1].name.len() <= items[b.1].name.len(),
        encode_utf8(items[a.1].name).len() < encode_utf8(items[b.1].name).len(),
    ensures
        ranks_before(items, a, b),
{
    let la = items[a.1].name.len();
    let lb = items[b.1].name.len();
    assert(la / 8 <= lb / 8) by (nonlinear_arith)
        requires
            la <= lb,
    ;
}

proof fn lemma_ranking_step_not_before(
    items: Seq<ItemModel>,
    query: Seq<char>,
    limit: nat,
    p1: Seq<(u32, int)>,
    p2: Seq<(u32, int)>,
    k: int,
)
    requires
        is_ranking(items, query, limit, p1),
        is_ranking(items, query, limit, p2),
        0 <= k < p1.len(),
        k < p2.len(),
        forall|i: int| 0 <= i < k ==> p1[i] == p2[i],
    ensures
        !ranks_before(items, p1[k], p2[k]),
{
    let x = p1[k];
    let y = p2[k];
    if ranks_before(items, x, y) {
        assert(0 <= x.1 < items.len() && match_score(items, query, x.1) == Some(x.0));
        if picked(p2, x.1) {
            let k2 = choose|k2: int| 0 <= k2 < p2.len() && p2[k2].1 == x.1;
            assert(match_score(items, query, p2[k2].1) == Some(p2[k2].0));
            assert(p2[k2] == x);
            if k2 < k {
                assert(p1[k2] == x);
                assert(ranks_before(items, p1[k2], p1[k]));
                lemma_ranks_irreflexive(items, x);
            } else if k2 == k {
                lemma_ranks_irreflexive(items, x);
            } else {
                assert(ranks_before(items, p2[k], p2[k2]));
                lemma_ranks_asymmetric(items, x, y);
            }
        } else {
            assert(match_score(items, query, x.1) is Some);
            assert(ranks_before(items, p2[k], (match_score(items, query, x.1)->0, x.1)));
            lemma_ranks_asymmetric(items, x, y);
        }
    }
}

proof fn lemma_ranking_not_longer(
    items: Seq<ItemModel>,
    query: Seq<char>,
    limit: nat,
    p1: Seq<(u32, int)>,
    p2: Seq<(u32, int)>,
)
    requires
        is_ranking(items, query, limit, p1),
        is_ranking(items, query, limit, p2),
        p1.len() <= p2.len(),
        forall|i: int| 0 <= i < p1.len() ==> p1[i] == p2[i],
    ensures
        p1.len() == p2.len(),
{
    if p1.len() < p2.len() {
        let n = p1.len() as int;
        let y = p2[n];
        assert(0 <= y.1 < items.len() && match_score(items, query, y.1) == Some(y.0));
        if picked(p1, y.1) {
            let k = choose|k: int| 0 <= k < p1.len() && p1[k].1 == y.1;
            assert(match_score(items, query, p1[k].1) == Some(p1[k].0));
            assert(p2[k] == y);
            assert(ranks_before(items, p2[k], p2[n]));
            lemma_ranks_irreflexive(items, y);
        } else {
            assert(match_score(items, query, y.1) is Some);
            assert(p1.len() == limit);
        }
    }
}

proof fn lemma_ranking_prefix(
    items: Seq<ItemModel>,
    query: Seq<char>,
    limit: nat,
    p1: Seq<(u32, int)>,
    p2: Seq<(u32, int)>,
    k: int,
)
    requires
        is_ranking(items, query, limit, p1),
        is_ranking(items, query, limit, p2),
        0 <= k <= p1.len(),
        k <= p2.len(),
        forall|i: int| 0 <= i < k ==> p1[i] == p2[i],
    ensures
        forall|i: int| 0 <= i < p1.len() && i < p2.len() ==> p1[i] == p2[i],
    decreases p1.len() - k,
{
    if k < p1.len() && k < p2.len() {
        lemma_ranking_step_not_before(items, query, limit, p1, p2, k);
        lemma_ranking_step_not_before(items, query, limit, p2, p1, k);
        let x = p1[k];
        let y = p2[k];
        if x.1 != y.1 {
            lemma_ranks_total(items, x, y);
        }
        assert(match_score(items, query, x.1) == Some(x.0));
        assert(match_score(items, query, y.1) == Some(y.0));
        lemma_ranking_prefix(items, query, limit, p1, p2, k + 1);
    }
}

/// The best `limit` matches of a query are one list: any two rankings of the
/// same catalog, query and limit are equal, so a search's results are fixed
/// by its inputs.
pub proof fn law_ranking_is_unique(
    items: Seq<ItemModel>,
    query: Seq<char>,
    limit: nat,
    p1: Seq<(u32, int)>,
    p2: Seq<(u32, int)>,
)
    requires
        is_ranking(items, query, limit, p1),
        is_ranking(items, query, limit, p2),
    ensures
        p1 == p2,
{
    lemma_ranking_prefix(items, query, limit, p1, p2, 0);
    if p1.len() <= p2.len() {
        lemma_ranking_not_longer(items, query, limit, p1, p2);
    } else {
        lemma_ranking_not_longer(items, query, limit, p2, p1);
    }
    assert(p1 =~= p2);
}

proof fn lemma_ranking_same_scores(
    items: Seq<ItemModel>,
    q1: Seq<char>,
    q2: Seq<char>,
    limit: nat,
    picks: Seq<(u32, int)>,
)
    requires
        is_ranking(items, q1, limit, picks),
        forall|j: int|
            0 <= j < items.len() ==> #[trigger] match_score(items, q1, j) == match_score(items, q2, j),
    ensures
        is_ranking(items, q2, limit, picks),
{
    assert forall|k: int| 0 <= k < picks.len() implies 0 <= #[trigger] picks[k].1 < items.len()
        && match_score(items, q2, picks[k].1) == Some(picks[k].0) by {
        assert(match_score(items, q1, picks[k].1) == match_score(items, q2, picks[k].1));
    }
    assert forall|j: int|
        0 <= j < items.len() && #[trigger] match_score(items, q2, j) is Some && !picked(picks, j) implies {
            &&& picks.len() == limit
            &&& forall|k: int|
                0 <= k < picks.len() ==> ranks_before(items, picks[k], (match_score(items, q2, j)->0, j))
        } by {
        assert(match_score(items, q1, j) == match_score(items, q2, j));
    }
}

/// Blanks around a query and the ASCII case of its letters never change
/// what a search shows: two queries that agree once trimmed and lowered are
/// ranked alike, so they show the same items with the same scores in the
/// same order.
pub proof fn law_query_case_and_blanks_do_not_matter(
    items: Seq<ItemModel>,
    q1: Seq<char>,
    q2: Seq<char>,
    limit: nat,
    p1: Seq<(u32, int)>,
    p2: Seq<(u32, int)>,
    r1: Seq<SearchResult>,
    r2: Seq<SearchResult>,
)
    requires
        ascii_lower_seq(trim_spec(q1)) == ascii_lower_seq(trim_spec(q2)),
        is_ranking(items, ascii_lower_seq(trim_spec(q1)), limit, p1),
        is_ranking(items, ascii_lower_seq(trim_spec(q2)), limit, p2),
        shows_picks(items, p1, r1),
        shows_picks(items, p2, r2),
    ensures
        p1 == p2,
        r1.len() == r2.len(),
        forall|k: int|
            0 <= k < r1.len() ==> (#[trigger] r1[k]).item@ == r2[k].item@ && r1[k].score == r2[k].score,
{
    law_ranking_is_unique(items, ascii_lower_seq(trim_spec(q1)), limit, p1, p2);
}

proof fn lemma_first_item_below(items: Seq<ItemModel>, item_id: u32, i: int)
    requires
        0 <= i < items.len(),
        items[i].item_id == item_id,
    ensures
        exists|j: int| is_first_item(items, item_id, j),
    decreases i,
{
    if forall|j: int| 0 <= j < i ==> items[j].item_id != item_id {
        assert(is_first_item(items, item_id, i));
    } else {
        let j = choose|j: int| 0 <= j < i && items[j].item_id == item_id;
        lemma_first_item_below(items, item_id, j);
    }
}

/// The entry an id resolves to is the catalog's first entry with that id.
proof fn lemma_item_with_id(items: Seq<ItemModel>, item_id: u32)
    requires
        has_item(items, item_id),
    ensures
        item_with_id(items, item_id).item_id == item_id,
        exists|j: int| #[trigger] is_first_item(items, item_id, j) && items[j] == item_with_id(items, item_id),
{
    let i = choose|i: int| 0 <= i < items.len() && items[i].item_id == item_id;
    lemma_first_item_below(items, item_id, i);
    let j = choose|j: int| is_first_item(items, item_id, j);
    lemma_first_item(items, item_id, j);
}

/// Resolving saved ids keeps their order: the entries come out in the ids'
/// order (newest first for recents and favorites), never more of them than
/// ids, and when every id is in the catalog each position holds the
/// catalog's first entry with the id at that position.
pub proof fn law_resolved_items_follow_the_ids(items: Seq<ItemModel>, ids: Seq<u32>)
    ensures
        resolve_ids(items, ids).len() <= ids.len(),
        (forall|k: int| 0 <= k < ids.len() ==> has_item(items, #[trigger] ids[k])) ==> {
            &&& resolve_ids(items, ids).len() == ids.len()
            &&& forall|k: int|
                0 <= k < ids.len() ==> (#[trigger] resolve_ids(items, ids)[k]).item_id == ids[k]
                    && exists|j: int|
                    #[trigger] is_first_item(items, ids[k], j) && items[j] == resolve_ids(
                        items,
                        ids,
                    )[k]
        },
    decreases ids.len(),
{
    if ids.len() > 0 {
        let rest = ids.drop_last();
        law_resolved_items_follow_the_ids(items, rest);
        if forall|k: int| 0 <= k < ids.len() ==> has_item(items, #[trigger] ids[k]) {
            assert forall|k: int| 0 <= k < rest.len() implies has_item(items, #[trigger] rest[k]) by {
                assert(rest[k] == ids[k]);
            }
            let last = ids[ids.len() - 1];
            assert(has_item(items, last));
            lemma_item_with_id(items, last);
            let r = resolve_ids(items, ids);
            assert(r == resolve_ids(items, rest).push(item_with_id(items, last)));
            assert forall|k: int| 0 <= k < ids.len() implies (#[trigger] r[k]).item_id == ids[k]
                && exists|j: int| #[trigger] is_first_item(items, ids[k], j) && items[j] == r[k] by {
                if k < rest.len() {
                    assert(r[k] == resolve_ids(items, rest)[k]);
                    assert(rest[k] == ids[k]);
                }
            }
        }
    }
}

} // verus!
