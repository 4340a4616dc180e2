//! The stop-tag filter: a configuration holding the canonical stop set, and
//! the filter that drops every token whose part-of-speech pattern is in it.

use vstd::prelude::*;

use crate::json::{
    json_as_array, json_as_str, json_from_slice, json_get, spec_config_tags, spec_prepend,
    spec_strings_of,
};
use crate::pattern::{canonical_tag, spec_canonical};
use crate::token::{spec_token_pattern, token_pattern, FilteredToken};

verus! {

/// The registration name under which a filter chain selects this filter.
pub const JAPANESE_STOP_TAGS_TOKEN_FILTER_NAME: &'static str = "japanese_stop_tags";

/// The one error this component can produce: configuration input that does
/// not deserialize into the expected shape.
#[derive(Clone, Copy, Debug, PartialEq, Eq, Structural)]
pub enum FilterError {
    Deserialize,
}

/// The canonical stop set induced by a sequence of raw tag strings: the set
/// of their canonical four-level patterns (duplicates collapse, order is
/// irrelevant).
pub open spec fn spec_stop_set(raw: Seq<Seq<char>>) -> Set<Seq<char>> {
    Set::new(
        |pattern: Seq<char>|
            exists|i: int| 0 <= i < raw.len() && pattern == spec_canonical(raw[i]),
    )
}

/// Collapse: a raw tag that repeats an earlier raw tag — or that merely
/// normalizes to the same canonical pattern as an earlier one — adds
/// nothing to the stop set.
pub proof fn lemma_stop_set_collapse(raw: Seq<Seq<char>>, extra: Seq<char>)
    requires
        exists|i: int|
            0 <= i < raw.len() && #[trigger] spec_canonical(raw[i]) == spec_canonical(extra),
    ensures
        spec_stop_set(raw.push(extra)) == spec_stop_set(raw),
{
    assert(spec_stop_set(raw.push(extra)) =~= spec_stop_set(raw)) by {
        assert forall|p: Seq<char>|
            spec_stop_set(raw.push(extra)).contains(p) implies spec_stop_set(raw).contains(p) by {
            let i = choose|i: int|
                0 <= i < raw.push(extra).len() && p == #[trigger] spec_canonical(
                    raw.push(extra)[i],
                );
            if i < raw.len() {
                assert(p == spec_canonical(raw[i]));
            } else {
                let w = choose|w: int|
                    0 <= w < raw.len() && #[trigger] spec_canonical(raw[w]) == spec_canonical(
                        extra,
                    );
                assert(p == spec_canonical(raw[w]));
            }
        }
        assert forall|p: Seq<char>|
            spec_stop_set(raw).contains(p) implies spec_stop_set(raw.push(extra)).contains(p) by {
            let i = choose|i: int| 0 <= i < raw.len() && p == #[trigger] spec_canonical(raw[i]);
            assert(p == spec_canonical(raw.push(extra)[i]));
        }
    }
}

/// The filter configuration: the stop set, held as canonical patterns.
#[derive(Clone, Debug)]
pub struct JapaneseStopTagsTokenFilterConfig {
    tags: Vec<String>,
}

impl PartialEq for JapaneseStopTagsTokenFilterConfig {
    /// Two configurations are equal when they hold the same stop set,
    /// whatever order construction met the patterns in.
    fn eq(&self, other: &Self) -> (equal: bool) {
        let forward = subset_strings(&self.tags, &other.tags);
        let backward = subset_strings(&other.tags, &self.tags);
        proof {
            let ours = self.tags.deep_view();
            let theirs = other.tags.deep_view();
            if forward && backward {
                assert(ours.to_set() =~= theirs.to_set()) by {
                    assert forall|p: Seq<char>|
                        ours.to_set().contains(p) implies theirs.to_set().contains(p) by {
                        let w = choose|w: int| 0 <= w < ours.len() && ours[w] == p;
                        assert(theirs.contains(ours[w]));
                    }
                    assert forall|p: Seq<char>|
                        theirs.to_set().contains(p) implies ours.to_set().contains(p) by {
                        let w = choose|w: int| 0 <= w < theirs.len() && theirs[w] == p;
                        assert(ours.contains(theirs[w]));
                    }
                }
            } else if !forward {
                let w = choose|w: int|
                    0 <= w < ours.len() && !theirs.contains(#[trigger] ours[w]);
                assert(ours.to_set().contains(ours[w]));
                assert(!theirs.to_set().contains(ours[w]));
            } else {
                let w = choose|w: int|
                    0 <= w < theirs.len() && !ours.contains(#[trigger] theirs[w]);
                assert(theirs.to_set().contains(theirs[w]));
                assert(!ours.to_set().contains(theirs[w]));
            }
        }
        forward && backward
    }
}

impl vstd::std_specs::cmp::PartialEqSpecImpl for JapaneseStopTagsTokenFilterConfig {
    open spec fn obeys_eq_spec() -> bool {
        true
    }

    open spec fn eq_spec(&self, other: &Self) -> bool {
        self@ == other@
    }
}

impl View for JapaneseStopTagsTokenFilterConfig {
    type V = Set<Seq<char>>;

    closed spec fn view(&self) -> Set<Seq<char>> {
        self.tags.deep_view().to_set()
    }
}

impl JapaneseStopTagsTokenFilterConfig {
    /// The stored patterns form a set: no pattern is held twice.
    pub closed spec fn wf(&self) -> bool {
        forall|i: int, j: int|
            0 <= i < j < self.tags.deep_view().len() ==> self.tags.deep_view()[i]
                != self.tags.deep_view()[j]
    }

    /// Builds the configuration from raw tag strings: each is normalized to
    /// its canonical four-level pattern, and the resulting patterns form the
    /// stop set (duplicate raw strings, and distinct raw strings with the
    /// same canonical pattern, collapse).
    pub fn new(tags: Vec<String>) -> (config: Self)
        ensures
            config.wf(),
            config@ == spec_stop_set(tags.deep_view()),
    {
        let mut formatted: Vec<String> = Vec::new();
        let mut i: usize = 0;
        proof {
            assert(formatted.deep_view() =~= Seq::<Seq<char>>::empty());
            assert(formatted.deep_view().to_set() =~= spec_stop_set(tags.deep_view().take(0)));
        }
        while i < tags.len()
            invariant
                0 <= i <= tags@.len(),
                forall|m: int, n: int|
                    0 <= m < n < formatted.deep_view().len() ==> formatted.deep_view()[m]
                        != formatted.deep_view()[n],
                formatted.deep_view().to_set() == spec_stop_set(tags.deep_view().take(i as int)),
            decreases tags@.len() - i,
        {
            let pattern = canonical_tag(tags[i].as_str());
            proof {
                assert(tags.deep_view()[i as int] == tags@[i as int]@);
            }
            let ghost before = formatted.deep_view();
            if !contains_string(&formatted, &pattern) {
                formatted.push(pattern);
                proof {
                    assert(formatted.deep_view() =~= before.push(pattern@));
                }
            }
            proof {
                assert forall|m: int, n: int|
                    0 <= m < n < formatted.deep_view().len() implies formatted.deep_view()[m]
                    != formatted.deep_view()[n] by {
                    if n == formatted.deep_view().len() - 1 && before.len() < formatted.deep_view().len() {
                        assert(!before.contains(formatted.deep_view()[n]));
                        assert(formatted.deep_view()[m] == before[m]);
                    }
                }
                assert(formatted.deep_view().to_set() =~= spec_stop_set(
                    tags.deep_view().take(i + 1),
                )) by {
                    let target = spec_stop_set(tags.deep_view().take(i + 1));
                    assert forall|p: Seq<char>|
                        formatted.deep_view().to_set().contains(p) implies target.contains(p) by {
                        let w = choose|w: int|
                            0 <= w < formatted.deep_view().len() && formatted.deep_view()[w] == p;
                        if w < before.len() {
                            assert(before.to_set().contains(p));
                            let v = choose|v: int|
                                0 <= v < i && p == spec_canonical(tags.deep_view().take(i as int)[v]);
                            assert(p == spec_canonical(tags.deep_view().take(i + 1)[v]));
                        } else {
                            assert(p == spec_canonical(tags.deep_view().take(i + 1)[i as int]));
                        }
                    }
                    assert forall|p: Seq<char>|
                        target.contains(p) implies formatted.deep_view().to_set().contains(p) by {
                        let v = choose|v: int|
                            0 <= v < i + 1 && p == #[trigger] spec_canonical(
                                tags.deep_view().take(i + 1)[v],
                            );
                        if v < i {
                            assert(p == spec_canonical(tags.deep_view().take(i as int)[v]));
                            assert(before.to_set().contains(p));
                            let w = choose|w: int| 0 <= w < before.len() && before[w] == p;
                            assert(formatted.deep_view()[w] == p);
                        } else {
                            assert(p == pattern@);
                            if !before.contains(p) {
                                assert(formatted.deep_view().last() == p);
                            } else {
                                let w = choose|w: int| 0 <= w < before.len() && before[w] == p;
                                assert(formatted.deep_view()[w] == p);
                            }
                        }
                    }
                }
            }
            i += 1;
        }
        proof {
            assert(tags.deep_view().take(tags@.len() as int) =~= tags.deep_view());
        }
        Self { tags: formatted }
    }

    /// Builds the configuration from a serialized configuration blob: a
    /// JSON object whose `tags` member is an array of raw tag strings.
    /// Exactly the conforming blobs succeed, and build the same
    /// configuration as `new` on the blob's strings; any other shape —
    /// bytes that are not a JSON document, a document without a `tags`
    /// member, a `tags` member that is not an array, or an array element
    /// that is not a string — is rejected with the deserialization error.
    pub fn from_slice(data: &[u8]) -> (result: Result<Self, FilterError>)
        ensures
            result is Ok <==> spec_config_tags(data@) is Some,
            result matches Ok(config) ==> config.wf() && (spec_config_tags(data@) matches Some(raw)
                && config@ == spec_stop_set(raw)),
            result matches Err(error) ==> error == FilterError::Deserialize,
    {
        let document = match json_from_slice(data) {
            Some(document) => document,
            None => {
                return Err(FilterError::Deserialize);
            },
        };
        let member = match json_get(&document, "tags") {
            Some(member) => member,
            None => {
                return Err(FilterError::Deserialize);
            },
        };
        let elements = match json_as_array(member) {
            Some(elements) => elements,
            None => {
                return Err(FilterError::Deserialize);
            },
        };
        let mut raw_tags: Vec<String> = Vec::new();
        let mut i: usize = 0;
        proof {
            assert(elements@.skip(0) =~= elements@);
            assert(raw_tags.deep_view() =~= Seq::<Seq<char>>::empty());
            assert(spec_config_tags(data@) == spec_prepend(
                raw_tags.deep_view(),
                spec_strings_of(elements@),
            ));
        }
        while i < elements.len()
            invariant
                0 <= i <= elements@.len(),
                spec_config_tags(data@) == spec_prepend(
                    raw_tags.deep_view(),
                    spec_strings_of(elements@.skip(i as int)),
                ),
            decreases elements@.len() - i,
        {
            let ghost suffix = elements@.skip(i as int);
            proof {
                assert(suffix[0] == elements@[i as int]);
                assert(suffix.drop_first() =~= elements@.skip(i + 1));
            }
            match json_as_str(&elements[i]) {
                Some(tag) => {
                    let ghost before = raw_tags.deep_view();
                    let piece = tag.to_owned();
                    raw_tags.push(piece);
                    proof {
                        assert(raw_tags.deep_view() =~= before.push(tag@));
                        match spec_strings_of(elements@.skip(i + 1)) {
                            Some(rest) => {
                                assert(spec_strings_of(suffix) == Some(seq![tag@] + rest));
                                assert(before + (seq![tag@] + rest) =~= before.push(tag@) + rest);
                            },
                            None => {},
                        }
                    }
                },
                None => {
                    proof {
                        assert(spec_strings_of(suffix) is None);
                    }
                    return Err(FilterError::Deserialize);
                },
            }
            i += 1;
        }
        proof {
            assert(elements@.skip(elements@.len() as int) =~= Seq::<serde_json::Value>::empty());
            assert(raw_tags.deep_view() + Seq::<Seq<char>>::empty() =~= raw_tags.deep_view());
            assert(spec_config_tags(data@) == Some(raw_tags.deep_view()));
        }
        Ok(Self::new(raw_tags))
    }

    /// The canonical patterns this configuration holds, one entry per
    /// pattern of the stop set.
    pub fn tags(&self) -> (tags: &Vec<String>)
        ensures
            tags.deep_view().to_set() == self@,
            self.wf() ==> forall|m: int, n: int|
                0 <= m < n < tags.deep_view().len() ==> tags.deep_view()[m] != tags.deep_view()[n],
    {
        &self.tags
    }

    /// Whether a pattern is in the stop set.
    pub fn contains_pattern(&self, pattern: &String) -> (found: bool)
        ensures
            found == self@.contains(pattern@),
    {
        contains_string(&self.tags, pattern)
    }
}

/// The retention predicate of a stop set: a token stays exactly when its
/// canonical part-of-speech pattern is not in the set.
pub open spec fn spec_kept(stop: Set<Seq<char>>) -> spec_fn(FilteredToken) -> bool {
    |token: FilteredToken| !stop.contains(spec_token_pattern(token))
}

/// Remove tokens with the specified part-of-speech tag.
#[derive(Clone, Debug)]
pub struct JapaneseStopTagsTokenFilter {
    config: JapaneseStopTagsTokenFilterConfig,
}

impl View for JapaneseStopTagsTokenFilter {
    type V = Set<Seq<char>>;

    closed spec fn view(&self) -> Set<Seq<char>> {
        self.config@
    }
}

impl JapaneseStopTagsTokenFilter {
    /// The filter's stop set is well formed when its configuration is.
    pub closed spec fn wf(&self) -> bool {
        self.config.wf()
    }

    /// Wraps a configuration; the filter's stop set is the configuration's.
    pub fn new(config: JapaneseStopTagsTokenFilterConfig) -> (filter: Self)
        ensures
            filter@ == config@,
            filter.wf() == config.wf(),
    {
        Self { config }
    }

    /// Builds a filter straight from a serialized configuration blob:
    /// exactly the conforming blobs succeed, the filter's stop set is the
    /// blob's, and a rejection carries the configuration's own error.
    pub fn from_slice(data: &[u8]) -> (result: Result<Self, FilterError>)
        ensures
            result is Ok <==> spec_config_tags(data@) is Some,
            result matches Ok(filter) ==> filter.wf() && (spec_config_tags(data@) matches Some(raw)
                && filter@ == spec_stop_set(raw)),
            result matches Err(error) ==> error == FilterError::Deserialize,
    {
        match JapaneseStopTagsTokenFilterConfig::from_slice(data) {
            Ok(config) => Ok(Self::new(config)),
            Err(error) => Err(error),
        }
    }

    /// The registration name of this filter.
    pub fn name(&self) -> (name: &'static str)
        ensures
            name@ == JAPANESE_STOP_TAGS_TOKEN_FILTER_NAME@,
    {
        JAPANESE_STOP_TAGS_TOKEN_FILTER_NAME
    }

    /// Keeps, in their original order, exactly the tokens whose canonical
    /// part-of-speech pattern is not in the stop set, replacing the
    /// collection's contents.  Never fails.
    pub fn apply(&self, tokens: &mut Vec<FilteredToken>) -> (result: Result<(), FilterError>)
        requires
            forall|i: int|
                0 <= i < old(tokens)@.len() ==> (#[trigger] old(tokens)@[i]).has_details(),
        ensures
            result is Ok,
            final(tokens)@ == old(tokens)@.filter(spec_kept(self@)),
    {
        let ghost orig = tokens@;
        let ghost pred = spec_kept(self@);
        let ghost mut j: int = 0;
        let mut kept: Vec<FilteredToken> = Vec::new();
        proof {
            assert(orig.skip(0) =~= orig);
            assert(orig.take(0) =~= Seq::<FilteredToken>::empty());
            reveal(Seq::filter);
        }
        while tokens.len() > 0
            invariant
                0 <= j <= orig.len(),
                tokens@ == orig.skip(j),
                kept@ == orig.take(j).filter(pred),
                pred == spec_kept(self@),
                forall|i: int| 0 <= i < orig.len() ==> (#[trigger] orig[i]).has_details(),
            decreases tokens@.len(),
        {
            let token = tokens.remove(0);
            proof {
                assert(token == orig[j]);
                assert(tokens@ =~= orig.skip(j + 1));
            }
            let pattern = token_pattern(&token);
            let stopped = self.config.contains_pattern(&pattern);
            if !stopped {
                kept.push(token);
            }
            proof {
                lemma_filter_push(orig.take(j), orig[j], pred);
                assert(orig.take(j).push(orig[j]) =~= orig.take(j + 1));
                j = j + 1;
            }
        }
        proof {
            assert(j == orig.len());
            assert(orig.take(j) =~= orig);
        }
        core::mem::swap(tokens, &mut kept);
        Ok(())
    }
}

/// Filtering a sequence extended by one element keeps the filtered prefix
/// and appends the new element exactly when it satisfies the predicate.
proof fn lemma_filter_push<A>(s: Seq<A>, x: A, pred: spec_fn(A) -> bool)
    ensures
        s.push(x).filter(pred) == if pred(x) {
            s.filter(pred).push(x)
        } else {
            s.filter(pred)
        },
{
    reveal(Seq::filter);
    assert(s.push(x).drop_last() =~= s);
    assert(s.push(x).last() == x);
}

/// The original position of each element a filter retains: positions of the
/// elements that satisfy the predicate, in increasing order.
pub open spec fn filter_positions<A>(s: Seq<A>, pred: spec_fn(A) -> bool) -> Seq<int>
    decreases s.len(),
{
    if s.len() == 0 {
        Seq::empty()
    } else {
        let rest = filter_positions(s.drop_last(), pred);
        if pred(s.last()) {
            rest.push(s.len() - 1)
        } else {
            rest
        }
    }
}

/// Order preservation: the elements a filter retains are the elements at a
/// strictly increasing sequence of positions of the input, in that order —
/// the retained subsequence keeps the input's relative order.
pub proof fn lemma_filter_preserves_order<A>(s: Seq<A>, pred: spec_fn(A) -> bool)
    ensures
        filter_positions(s, pred).len() == s.filter(pred).len(),
        forall|k: int|
            0 <= k < filter_positions(s, pred).len() ==> 0 <= #[trigger] filter_positions(
                s,
                pred,
            )[k] < s.len(),
        forall|k: int, l: int|
            0 <= k < l < filter_positions(s, pred).len() ==> filter_positions(s, pred)[k]
                < filter_positions(s, pred)[l],
        forall|k: int|
            0 <= k < filter_positions(s, pred).len() ==> s.filter(pred)[k] == s[filter_positions(
                s,
                pred,
            )[k]],
    decreases s.len(),
{
    reveal(Seq::filter);
    if s.len() > 0 {
        lemma_filter_preserves_order(s.drop_last(), pred);
        let prev = s.drop_last();
        assert forall|k: int|
            0 <= k < filter_positions(prev, pred).len() implies s.filter(pred)[k] == s[
        filter_positions(s, pred)[k]] by {
            assert(filter_positions(s, pred)[k] == filter_positions(prev, pred)[k]);
            assert(prev.filter(pred)[k] == prev[filter_positions(prev, pred)[k]]);
            assert(prev[filter_positions(prev, pred)[k]] == s[filter_positions(prev, pred)[k]]);
        }
    }
}

/// Order preservation for the stop-tag filter: the tokens it retains stand
/// at a strictly increasing sequence of positions of the input, in that
/// order.
pub proof fn lemma_retained_order(tokens: Seq<FilteredToken>, stop: Set<Seq<char>>)
    ensures
        filter_positions(tokens, spec_kept(stop)).len() == tokens.filter(spec_kept(stop)).len(),
        forall|k: int|
            0 <= k < filter_positions(tokens, spec_kept(stop)).len() ==> 0
                <= #[trigger] filter_positions(tokens, spec_kept(stop))[k] < tokens.len(),
        forall|k: int, l: int|
            0 <= k < l < filter_positions(tokens, spec_kept(stop)).len() ==> filter_positions(
                tokens,
                spec_kept(stop),
            )[k] < filter_positions(tokens, spec_kept(stop))[l],
        forall|k: int|
            0 <= k < filter_positions(tokens, spec_kept(stop)).len() ==> tokens.filter(
                spec_kept(stop),
            )[k] == tokens[filter_positions(tokens, spec_kept(stop))[k]],
{
    lemma_filter_preserves_order(tokens, spec_kept(stop));
}

/// Whether every string of the first collection occurs in the second.
fn subset_strings(from: &Vec<String>, into: &Vec<String>) -> (subset: bool)
    ensures
        subset == (forall|i: int|
            0 <= i < from.deep_view().len() ==> into.deep_view().contains(
                #[trigger] from.deep_view()[i],
            )),
{
    let mut i: usize = 0;
    while i < from.len()
        invariant
            0 <= i <= from@.len(),
            forall|j: int|
                0 <= j < i ==> into.deep_view().contains(#[trigger] from.deep_view()[j]),
        decreases from@.len() - i,
    {
        let found = contains_string(into, &from[i]);
        proof {
            assert(from.deep_view()[i as int] == from@[i as int]@);
        }
        if !found {
            return false;
        }
        i += 1;
    }
    true
}

/// Whether one of the strings has the needle's characters.
fn contains_string(haystack: &Vec<String>, needle: &String) -> (found: bool)
    ensures
        found == haystack.deep_view().contains(needle@),
{
    let mut i: usize = 0;
    while i < haystack.len()
        invariant
            0 <= i <= haystack@.len(),
            forall|j: int| 0 <= j < i ==> haystack.deep_view()[j] != needle@,
        decreases haystack@.len() - i,
    {
        if haystack[i] == *needle {
            proof {
                assert(haystack.deep_view()[i as int] == needle@);
            }
            return true;
        }
        i += 1;
    }
    false
}

} // verus!
