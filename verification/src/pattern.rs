//! Tag-pattern normalization: a raw tag path of zero or more comma-separated
//! levels becomes a canonical pattern of exactly four levels, missing levels
//! padded with the wildcard marker `*` and levels past the fourth discarded.

use vstd::prelude::*;
use vstd::string::*;

verus! {

/// The wildcard marker that pads missing levels of a short tag path.
pub open spec fn wildcard() -> Seq<char> {
    seq!['*']
}

/// Splitting a tag string on the comma delimiter, with the semantics of
/// `str::split(',')`: the result always holds at least one piece, and the
/// empty string yields one empty piece.
pub open spec fn spec_split(s: Seq<char>) -> Seq<Seq<char>>
    decreases s.len(),
{
    if s.len() == 0 {
        seq![Seq::<char>::empty()]
    } else if s[0] == ',' {
        seq![Seq::<char>::empty()] + spec_split(s.drop_first())
    } else {
        let rest = spec_split(s.drop_first());
        seq![seq![s[0]] + rest[0]] + rest.drop_first()
    }
}

/// Joining level strings back with the comma delimiter.
pub open spec fn spec_join(levels: Seq<Seq<char>>) -> Seq<char>
    decreases levels.len(),
{
    if levels.len() == 0 {
        Seq::empty()
    } else if levels.len() == 1 {
        levels[0]
    } else {
        levels[0] + seq![','] + spec_join(levels.drop_first())
    }
}

/// The fixed-width pattern of a variable-length tag path: exactly four
/// levels, the input's levels in order first, wildcards beyond the input's
/// length, and input levels past the fourth discarded.
pub open spec fn spec_normalize(levels: Seq<Seq<char>>) -> Seq<Seq<char>> {
    Seq::new(4, |i: int| if i < levels.len() { levels[i] } else { wildcard() })
}

/// The canonical pattern string of a raw tag string: split on commas,
/// normalize to four levels, join with commas.
pub open spec fn spec_canonical(raw: Seq<char>) -> Seq<char> {
    spec_join(spec_normalize(spec_split(raw)))
}

/// A split yields at least one piece.
pub proof fn lemma_split_len(s: Seq<char>)
    ensures
        spec_split(s).len() >= 1,
    decreases s.len(),
{
    if s.len() > 0 {
        lemma_split_len(s.drop_first());
    }
}

/// No piece of a split contains the delimiter.
pub proof fn lemma_split_no_comma(s: Seq<char>)
    ensures
        forall|i: int| 0 <= i < spec_split(s).len() ==> !(#[trigger] spec_split(s)[i]).contains(','),
    decreases s.len(),
{
    if s.len() == 0 {
        assert forall|i: int| 0 <= i < spec_split(s).len() implies !(#[trigger] spec_split(s)[i]).contains(',') by {
            assert(spec_split(s)[i] =~= Seq::<char>::empty());
        }
    } else if s[0] == ',' {
        lemma_split_no_comma(s.drop_first());
        assert forall|i: int| 0 <= i < spec_split(s).len() implies !(#[trigger] spec_split(s)[i]).contains(',') by {
            if i == 0 {
                assert(spec_split(s)[0] =~= Seq::<char>::empty());
            } else {
                assert(spec_split(s)[i] == spec_split(s.drop_first())[i - 1]);
            }
        }
    } else {
        lemma_split_no_comma(s.drop_first());
        lemma_split_len(s.drop_first());
        let rest = spec_split(s.drop_first());
        assert forall|i: int| 0 <= i < spec_split(s).len() implies !(#[trigger] spec_split(s)[i]).contains(',') by {
            if i == 0 {
                let head = seq![s[0]] + rest[0];
                assert(spec_split(s)[0] == head);
                assert(!rest[0].contains(','));
                assert forall|j: int| 0 <= j < head.len() implies head[j] != ',' by {
                    if j > 0 {
                        assert(head[j] == rest[0][j - 1]);
                    }
                }
            } else {
                assert(spec_split(s)[i] == rest[i]);
            }
        }
    }
}

/// Joining the pieces of a split restores the original string.
pub proof fn lemma_join_split(s: Seq<char>)
    ensures
        spec_join(spec_split(s)) == s,
    decreases s.len(),
{
    lemma_split_len(s);
    if s.len() == 0 {
        assert(spec_join(spec_split(s)) =~= s);
    } else if s[0] == ',' {
        lemma_join_split(s.drop_first());
        lemma_split_len(s.drop_first());
        let rest = spec_split(s.drop_first());
        let pieces = seq![Seq::<char>::empty()] + rest;
        assert(pieces.len() >= 2);
        assert(pieces.drop_first() =~= rest);
        assert(spec_join(pieces) == pieces[0] + seq![','] + spec_join(rest));
        assert(pieces[0] + seq![','] + s.drop_first() =~= s);
    } else {
        lemma_join_split(s.drop_first());
        lemma_split_len(s.drop_first());
        let rest = spec_split(s.drop_first());
        let head = seq![s[0]] + rest[0];
        let pieces = seq![head] + rest.drop_first();
        if rest.len() == 1 {
            assert(pieces =~= seq![head]);
            assert(spec_join(pieces) == head);
            assert(spec_join(rest) == rest[0]);
            assert(head =~= s);
        } else {
            assert(pieces.len() >= 2);
            assert(pieces.drop_first() =~= rest.drop_first());
            assert(spec_join(pieces) == head + seq![','] + spec_join(rest.drop_first()));
            assert(spec_join(rest) == rest[0] + seq![','] + spec_join(rest.drop_first()));
            assert(head + seq![','] + spec_join(rest.drop_first()) =~= seq![s[0]] + (rest[0]
                + seq![','] + spec_join(rest.drop_first())));
            assert(seq![s[0]] + s.drop_first() =~= s);
        }
    }
}

/// How a split decomposes at the first delimiter: if the first `k`
/// characters are not commas, then either the whole string is one piece
/// (no comma at all), or the piece before the comma at `k` is followed by
/// the split of what comes after it.
pub proof fn lemma_split_prefix(s: Seq<char>, k: int)
    requires
        0 <= k <= s.len(),
        forall|j: int| 0 <= j < k ==> s[j] != ',',
    ensures
        k == s.len() ==> spec_split(s) == seq![s],
        k < s.len() && s[k] == ',' ==> spec_split(s) == seq![s.take(k)] + spec_split(
            s.skip(k + 1),
        ),
    decreases k,
{
    if k == 0 {
        if s.len() == 0 {
            assert(s =~= Seq::<char>::empty());
            assert(spec_split(s) =~= seq![s]);
        } else if s[0] == ',' {
            assert(s.take(0) =~= Seq::<char>::empty());
            assert(s.drop_first() =~= s.skip(1));
        }
    } else {
        let tail = s.drop_first();
        lemma_split_prefix(tail, k - 1);
        lemma_split_len(tail);
        let rest = spec_split(tail);
        if k == s.len() {
            assert(rest == seq![tail]);
            assert(rest[0] == tail);
            let head = seq![s[0]] + rest[0];
            assert(head =~= s);
            assert(spec_split(s) == seq![head] + rest.drop_first());
            assert(rest.drop_first() =~= Seq::<Seq<char>>::empty());
            assert(seq![head] + Seq::<Seq<char>>::empty() =~= seq![head]);
            assert(seq![head] == seq![s]);
            assert(spec_split(s) == seq![s]);
        } else if s[k] == ',' {
            assert(tail[k - 1] == ',');
            assert(rest == seq![tail.take(k - 1)] + spec_split(tail.skip(k)));
            assert(rest[0] == tail.take(k - 1));
            assert(seq![s[0]] + tail.take(k - 1) =~= s.take(k));
            assert(rest.drop_first() =~= spec_split(tail.skip(k)));
            assert(tail.skip(k) =~= s.skip(k + 1));
            assert(spec_split(s) =~= seq![s.take(k)] + spec_split(s.skip(k + 1)));
        }
    }
}

/// Splitting a join of comma-free pieces restores the pieces.
pub proof fn lemma_split_join(levels: Seq<Seq<char>>)
    requires
        levels.len() >= 1,
        forall|i: int| 0 <= i < levels.len() ==> !(#[trigger] levels[i]).contains(','),
    ensures
        spec_split(spec_join(levels)) == levels,
    decreases levels.len(),
{
    if levels.len() == 1 {
        let s = levels[0];
        assert forall|j: int| 0 <= j < s.len() implies s[j] != ',' by {
            assert(s.contains(',') == exists|m: int| 0 <= m < s.len() && s[m] == ',');
        }
        lemma_split_prefix(s, s.len() as int);
        assert(spec_join(levels) == s);
        assert(seq![s] =~= levels);
    } else {
        let s = spec_join(levels);
        let head = levels[0];
        let k = head.len() as int;
        lemma_split_join(levels.drop_first());
        assert(s == head + seq![','] + spec_join(levels.drop_first()));
        assert forall|j: int| 0 <= j < k implies s[j] != ',' by {
            assert(s[j] == head[j]);
            assert(head.contains(',') == exists|m: int| 0 <= m < head.len() && head[m] == ',');
        }
        assert(s[k] == ',');
        lemma_split_prefix(s, k);
        assert(s.take(k) =~= head);
        assert(s.skip(k + 1) =~= spec_join(levels.drop_first()));
        assert(seq![head] + levels.drop_first() =~= levels);
    }
}

/// Totality of normalization: whatever the number of input levels — zero,
/// fewer than four, four, or more — the result has exactly four levels; the
/// input's levels are kept in order, levels beyond the input's length are
/// the wildcard, and input levels past the fourth are discarded.
pub proof fn lemma_normalize_total(levels: Seq<Seq<char>>)
    ensures
        spec_normalize(levels).len() == 4,
        forall|i: int| 0 <= i < 4 && i < levels.len() ==> spec_normalize(levels)[i] == levels[i],
        forall|i: int| levels.len() <= i < 4 ==> spec_normalize(levels)[i] == wildcard(),
{
}

/// Idempotence on canonical inputs: a pattern that already has exactly four
/// levels normalizes to itself.
pub proof fn lemma_normalize_idempotent(pattern: Seq<char>)
    requires
        spec_split(pattern).len() == 4,
    ensures
        spec_canonical(pattern) == pattern,
{
    assert(spec_normalize(spec_split(pattern)) =~= spec_split(pattern));
    lemma_join_split(pattern);
}

/// Appending one more piece to a join appends a delimiter and the piece.
pub proof fn lemma_join_push(levels: Seq<Seq<char>>, piece: Seq<char>)
    requires
        levels.len() >= 1,
    ensures
        spec_join(levels.push(piece)) == spec_join(levels) + seq![','] + piece,
    decreases levels.len(),
{
    if levels.len() == 1 {
        assert(levels.push(piece).drop_first() =~= seq![piece]);
        assert(spec_join(seq![piece]) == piece);
        assert(spec_join(levels.push(piece)) == levels.push(piece)[0] + seq![','] + spec_join(
            levels.push(piece).drop_first(),
        ));
    } else {
        lemma_join_push(levels.drop_first(), piece);
        assert(levels.push(piece).drop_first() =~= levels.drop_first().push(piece));
        assert(levels[0] + seq![','] + (spec_join(levels.drop_first()) + seq![','] + piece) =~= (
        levels[0] + seq![','] + spec_join(levels.drop_first())) + seq![','] + piece);
    }
}

/// A fresh wildcard level.
fn wildcard_string() -> (marker: String)
    ensures
        marker@ == wildcard(),
{
    let marker = "*".to_owned();
    proof {
        reveal_strlit("*");
        assert(marker@ =~= wildcard());
    }
    marker
}

/// Splits a tag string on the comma delimiter, as `str::split(',')` would.
pub fn split_levels(tag: &str) -> (levels: Vec<String>)
    ensures
        levels.deep_view() == spec_split(tag@),
{
    let n = tag.unicode_len();
    let mut levels: Vec<String> = Vec::new();
    let mut start: usize = 0;
    let mut i: usize = 0;
    proof {
        assert(tag@.skip(0) =~= tag@);
        assert(levels.deep_view() =~= Seq::<Seq<char>>::empty());
        assert(levels.deep_view() + spec_split(tag@) =~= spec_split(tag@));
    }
    while i < n
        invariant
            0 <= start <= i <= n == tag@.len(),
            forall|j: int| start <= j < i ==> tag@[j] != ',',
            spec_split(tag@) == levels.deep_view() + spec_split(tag@.skip(start as int)),
        decreases n - i,
    {
        if tag.get_char(i) == ',' {
            let piece = tag.substring_char(start, i).to_owned();
            proof {
                let suffix = tag@.skip(start as int);
                lemma_split_prefix(suffix, i - start);
                assert(suffix[i - start] == tag@[i as int]);
                assert(suffix.take(i - start) =~= tag@.subrange(start as int, i as int));
                assert(suffix.skip(i - start + 1) =~= tag@.skip(i + 1));
                assert(levels.deep_view().push(piece@) =~= levels.deep_view() + seq![piece@]);
                assert((levels.deep_view() + seq![piece@]) + spec_split(tag@.skip(i + 1)) =~= levels.deep_view()
                    + (seq![piece@] + spec_split(tag@.skip(i + 1))));
                let ghost before = levels.deep_view();
                assert(spec_split(tag@) == before + seq![piece@] + spec_split(tag@.skip(i + 1)));
            }
            let ghost before = levels.deep_view();
            levels.push(piece);
            proof {
                assert(levels.deep_view() =~= before.push(piece@));
            }
            start = i + 1;
        }
        i += 1;
    }
    let last = tag.substring_char(start, n).to_owned();
    proof {
        let suffix = tag@.skip(start as int);
        lemma_split_prefix(suffix, n - start);
        assert(suffix =~= tag@.subrange(start as int, n as int));
        assert(spec_split(tag@) == levels.deep_view() + seq![last@]);
    }
    let ghost before = levels.deep_view();
    levels.push(last);
    proof {
        assert(levels.deep_view() =~= before.push(last@));
        assert(levels.deep_view() =~= before + seq![last@]);
    }
    levels
}

/// Copies a variable-length tag path into the fixed four-level pattern:
/// the first four levels in order, wildcards where the path is shorter.
pub fn normalize_levels(levels: &Vec<String>) -> (pattern: Vec<String>)
    ensures
        pattern.deep_view() == spec_normalize(levels.deep_view()),
{
    let mut pattern: Vec<String> = Vec::new();
    let mut i: usize = 0;
    while i < 4
        invariant
            0 <= i <= 4,
            pattern.deep_view() == spec_normalize(levels.deep_view()).take(i as int),
        decreases 4 - i,
    {
        let ghost target = spec_normalize(levels.deep_view());
        let ghost before = pattern.deep_view();
        let piece = if i < levels.len() {
            levels[i].clone()
        } else {
            wildcard_string()
        };
        proof {
            if i < levels@.len() {
                assert(levels.deep_view()[i as int] == levels@[i as int]@);
            }
            assert(piece@ == target[i as int]);
        }
        pattern.push(piece);
        proof {
            assert(pattern.deep_view() =~= before.push(piece@));
            assert(before.push(piece@) =~= target.take(i + 1));
        }
        i += 1;
    }
    proof {
        assert(spec_normalize(levels.deep_view()).take(4) =~= spec_normalize(levels.deep_view()));
    }
    pattern
}

/// Joins level strings with the comma delimiter.
pub fn join_levels(levels: &Vec<String>) -> (joined: String)
    ensures
        joined@ == spec_join(levels.deep_view()),
{
    if levels.len() == 0 {
        let empty = String::new();
        return empty;
    }
    let mut joined = levels[0].clone();
    proof {
        assert(levels.deep_view().take(1) =~= seq![levels.deep_view()[0]]);
    }
    let mut i: usize = 1;
    while i < levels.len()
        invariant
            1 <= i <= levels@.len(),
            joined@ == spec_join(levels.deep_view().take(i as int)),
        decreases levels@.len() - i,
    {
        joined.append(",");
        joined.append(levels[i].as_str());
        proof {
            reveal_strlit(",");
            assert(","@ =~= seq![',']);
            lemma_join_push(levels.deep_view().take(i as int), levels.deep_view()[i as int]);
            assert(levels.deep_view().take(i as int).push(levels.deep_view()[i as int])
                =~= levels.deep_view().take(i + 1));
        }
        i += 1;
    }
    proof {
        assert(levels.deep_view().take(levels@.len() as int) =~= levels.deep_view());
    }
    joined
}

/// The canonical pattern of a raw tag string: its comma-separated levels,
/// normalized to the fixed four-level form and joined back with commas.
pub fn canonical_tag(raw: &str) -> (pattern: String)
    ensures
        pattern@ == spec_canonical(raw@),
{
    let levels = split_levels(raw);
    let fixed = normalize_levels(&levels);
    join_levels(&fixed)
}

/// Normalization is idempotent: the canonical pattern of any raw tag is a
/// fixed point of normalization.
pub proof fn lemma_canonical_idempotent(raw: Seq<char>)
    ensures
        spec_canonical(spec_canonical(raw)) == spec_canonical(raw),
{
    lemma_split_no_comma(raw);
    let norm = spec_normalize(spec_split(raw));
    assert forall|i: int| 0 <= i < norm.len() implies !(#[trigger] norm[i]).contains(',') by {
        if i >= spec_split(raw).len() {
            assert(norm[i] == wildcard());
            assert(wildcard().contains(',') == exists|m: int|
                0 <= m < wildcard().len() && wildcard()[m] == ',');
        }
    }
    lemma_split_join(norm);
    lemma_normalize_idempotent(spec_canonical(raw));
}

} // verus!
