use vstd::prelude::*;
use vstd::slice::slice_subrange;

verus! {

/// The level separator `/`.
pub const SEP: u8 = 47;

/// The single-level wildcard byte `+`.
pub const PLUS_BYTE: u8 = 43;

/// The multi-level wildcard byte `#`.
pub const HASH_BYTE: u8 = 35;

/// The forbidden NUL byte.
pub const NUL_BYTE: u8 = 0;

/// Topics and filters are limited to this many bytes.
pub const MAX_TOPIC_BYTES: usize = 65535;

/// The single-level wildcard as a whole level.
pub open spec fn plus_level() -> Seq<u8> {
    seq![PLUS_BYTE]
}

/// The multi-level wildcard as a whole level.
pub open spec fn hash_level() -> Seq<u8> {
    seq![HASH_BYTE]
}

/// The bytes of the reserved shared-subscription prefix level `$share`.
pub open spec fn share_level() -> Seq<u8> {
    seq![36u8, 115u8, 104u8, 97u8, 114u8, 101u8]
}

/// The levels joined back together with `/` between them.
pub open spec fn join_levels(ls: Seq<Seq<u8>>) -> Seq<u8>
    decreases ls.len(),
{
    if ls.len() == 0 {
        Seq::empty()
    } else if ls.len() == 1 {
        ls[0]
    } else {
        ls[0] + seq![SEP] + join_levels(ls.drop_first())
    }
}

/// A level of a publish topic holds no separator, no NUL and no wildcard byte.
pub open spec fn level_clean(l: Seq<u8>) -> bool {
    forall|j: int|
        0 <= j < l.len() ==> #[trigger] l[j] != SEP && l[j] != NUL_BYTE && l[j] != HASH_BYTE
            && l[j] != PLUS_BYTE
}

/// The level sequence of a well-formed publish topic: at least one level,
/// each free of separators, NUL and wildcard bytes.
pub open spec fn topic_levels_wf(ls: Seq<Seq<u8>>) -> bool {
    &&& ls.len() >= 1
    &&& forall|i: int| 0 <= i < ls.len() ==> level_clean(#[trigger] ls[i])
}

/// `idx` splits `s` into levels starting at byte `start`: the pairs cover
/// `s[start..]` back to back, adjacent levels are separated by exactly one
/// `/`, and no level contains a `/` of its own.
pub open spec fn indices_wf(s: Seq<u8>, idx: Seq<(usize, usize)>, start: int) -> bool {
    &&& idx.len() >= 1
    &&& idx[0].0 == start
    &&& idx.last().1 == s.len()
    &&& forall|k: int| 0 <= k < idx.len() ==> (#[trigger] idx[k]).0 <= idx[k].1 <= s.len()
    &&& forall|k: int|
        0 <= k < idx.len() - 1 ==> ((#[trigger] idx[k]).1 < s.len() && s[idx[k].1 as int] == SEP
            && idx[k + 1].0 == idx[k].1 + 1)
    &&& forall|k: int, j: int|
        #![trigger idx[k], s[j]]
        0 <= k < idx.len() && idx[k].0 <= j < idx[k].1 ==> s[j] != SEP
}

/// The levels denoted by offset pairs into `s`.
pub open spec fn levels_of(s: Seq<u8>, idx: Seq<(usize, usize)>) -> Seq<Seq<u8>> {
    Seq::new(idx.len(), |k: int| s.subrange(idx[k].0 as int, idx[k].1 as int))
}

/// A well-formed split joins back to the bytes it was split from.
pub proof fn lemma_indices_join(s: Seq<u8>, idx: Seq<(usize, usize)>, start: int)
    requires
        indices_wf(s, idx, start),
        0 <= start <= s.len(),
    ensures
        join_levels(levels_of(s, idx)) == s.skip(start),
    decreases idx.len(),
{
    let ls = levels_of(s, idx);
    if idx.len() == 1 {
        assert(ls[0] =~= s.skip(start));
        assert(join_levels(ls) == ls[0]);
    } else {
        let e = idx[0].1 as int;
        let idx2 = idx.drop_first();
        assert(idx2.last() == idx[idx.len() - 1]);
        assert(indices_wf(s, idx2, e + 1)) by {
            assert(idx2[0] == idx[1]);
            assert forall|k: int| 0 <= k < idx2.len() implies (#[trigger] idx2[k]).0 <= idx2[k].1
                <= s.len() by {
                assert(idx2[k] == idx[k + 1]);
            }
            assert forall|k: int| 0 <= k < idx2.len() - 1 implies ((#[trigger] idx2[k]).1 < s.len()
                && s[idx2[k].1 as int] == SEP && idx2[k + 1].0 == idx2[k].1 + 1) by {
                assert(idx2[k] == idx[k + 1]);
                assert(idx2[k + 1] == idx[k + 2]);
            }
            assert forall|k: int, j: int|
                #![trigger idx2[k], s[j]]
                0 <= k < idx2.len() && idx2[k].0 <= j < idx2[k].1 implies s[j] != SEP by {
                assert(idx2[k] == idx[k + 1]);
            }
        }
        lemma_indices_join(s, idx2, e + 1);
        assert(ls.drop_first() =~= levels_of(s, idx2));
        assert(s[e] == SEP);
        assert(ls[0] == s.subrange(start, e));
        assert(join_levels(ls) == ls[0] + seq![SEP] + join_levels(ls.drop_first()));
        assert(s.subrange(start, e) + seq![SEP] + s.skip(e + 1) =~= s.skip(start));
    }
}

/// No level is a wildcard level. Holds of every well-formed publish topic.
pub open spec fn no_wildcard_levels(ls: Seq<Seq<u8>>) -> bool {
    forall|i: int|
        0 <= i < ls.len() ==> (#[trigger] ls[i]) != plus_level() && ls[i] != hash_level()
}

/// A well-formed publish topic has no wildcard level.
pub proof fn lemma_topic_no_wildcards(ls: Seq<Seq<u8>>)
    requires
        topic_levels_wf(ls),
    ensures
        no_wildcard_levels(ls),
{
    assert forall|i: int|
        0 <= i < ls.len() implies (#[trigger] ls[i]) != plus_level() && ls[i] != hash_level() by {
        assert(level_clean(ls[i]));
        if ls[i] == plus_level() {
            assert(ls[i][0] == PLUS_BYTE);
        }
        if ls[i] == hash_level() {
            assert(ls[i][0] == HASH_BYTE);
        }
    }
}

/// The protocol's matching rule, on level sequences: a filter is consumed
/// level by level; `+` accepts any one topic level, a final `#` accepts any
/// rest of the topic (even an empty one), a literal accepts only itself, and
/// a filter without `#` must consume the whole topic.
pub open spec fn filter_matches(f: Seq<Seq<u8>>, lv: Seq<Seq<u8>>) -> bool
    decreases f.len(),
{
    if f.len() == 0 {
        lv.len() == 0
    } else if f[0] == hash_level() {
        true
    } else if lv.len() == 0 {
        false
    } else if f[0] == plus_level() || f[0] == lv[0] {
        filter_matches(f.drop_first(), lv.drop_first())
    } else {
        false
    }
}

/// Scanning a topic string: the error named by the first offending byte,
/// if any; `#` and `+` are reported before NUL at the same position, as the
/// byte kinds are checked in that order.
pub open spec fn name_scan_error(s: Seq<u8>) -> Option<TopicNameError>
    decreases s.len(),
{
    if s.len() == 0 {
        None
    } else if s[0] == HASH_BYTE {
        Some(TopicNameError::ContainsMultiLevelWildcard)
    } else if s[0] == PLUS_BYTE {
        Some(TopicNameError::ContainsSingleLevelWildcard)
    } else if s[0] == NUL_BYTE {
        Some(TopicNameError::ContainsNull)
    } else {
        name_scan_error(s.drop_first())
    }
}

/// A clean scan means no offending byte anywhere.
pub proof fn lemma_scan_none(s: Seq<u8>)
    requires
        name_scan_error(s) is None,
    ensures
        forall|j: int|
            0 <= j < s.len() ==> #[trigger] s[j] != NUL_BYTE && s[j] != HASH_BYTE && s[j]
                != PLUS_BYTE,
    decreases s.len(),
{
    if s.len() > 0 {
        lemma_scan_none(s.drop_first());
        assert forall|j: int|
            0 <= j < s.len() implies #[trigger] s[j] != NUL_BYTE && s[j] != HASH_BYTE && s[j]
            != PLUS_BYTE by {
            if j > 0 {
                assert(s.drop_first()[j - 1] == s[j]);
            }
        }
    }
}

/// A publish-topic string could not be accepted.
#[derive(Clone, Copy, Debug, PartialEq, Eq, Structural)]
pub enum TopicNameError {
    /// The string contains the multi-level wildcard `#`.
    ContainsMultiLevelWildcard,
    /// The string contains the single-level wildcard `+`.
    ContainsSingleLevelWildcard,
    /// The string contains a NUL byte.
    ContainsNull,
    /// The string is empty.
    IsEmpty,
    /// The string is longer than the protocol's limit.
    TooLong,
}

/// The string is non-empty, within the length limit, and free of wildcard
/// and NUL bytes.
pub open spec fn name_parse_ok(s: Seq<u8>) -> bool {
    &&& 1 <= s.len() <= MAX_TOPIC_BYTES
    &&& name_scan_error(s) is None
}

/// A parsed publish topic: the original bytes plus one `(start, end)` offset
/// pair per level, so a level is read as a slice without copying.
#[derive(Debug)]
pub struct TopicName {
    pub(crate) length: usize,
    pub(crate) topic_indices: Vec<(usize, usize)>,
    pub(crate) orig_bytes: Vec<u8>,
}

impl View for TopicName {
    type V = Seq<Seq<u8>>;

    /// A topic is abstractly its sequence of levels.
    closed spec fn view(&self) -> Seq<Seq<u8>> {
        levels_of(self.orig_bytes@, self.topic_indices@)
    }
}

impl TopicName {
    /// The offsets split the bytes into levels, the cached level count is
    /// right, and no byte is NUL or a wildcard.
    pub closed spec fn wf(self) -> bool {
        &&& indices_wf(self.orig_bytes@, self.topic_indices@, 0)
        &&& self.length == self.topic_indices@.len()
        &&& 1 <= self.orig_bytes@.len() <= MAX_TOPIC_BYTES
        &&& forall|j: int|
            0 <= j < self.orig_bytes@.len() ==> #[trigger] self.orig_bytes@[j] != NUL_BYTE
                && self.orig_bytes@[j] != HASH_BYTE && self.orig_bytes@[j] != PLUS_BYTE
    }

    /// A well-formed topic has well-formed levels.
    pub proof fn lemma_wf_levels(self)
        requires
            self.wf(),
        ensures
            topic_levels_wf(self@),
    {
        assert forall|i: int| 0 <= i < self@.len() implies level_clean(#[trigger] self@[i]) by {
            let idx = self.topic_indices@;
            let s = self.orig_bytes@;
            assert(self@[i] == s.subrange(idx[i].0 as int, idx[i].1 as int));
            assert forall|j: int| 0 <= j < self@[i].len() implies #[trigger] self@[i][j] != SEP
                && self@[i][j] != NUL_BYTE && self@[i][j] != HASH_BYTE && self@[i][j]
                != PLUS_BYTE by {
                assert(self@[i][j] == s[idx[i].0 + j]);
                assert(s[idx[i].0 + j] != SEP);
            }
        }
    }

    /// The level at `index`, as a slice of the backing bytes; `None` past the end.
    pub fn get_part<'a>(&'a self, index: usize) -> (r: Option<&'a [u8]>)
        requires
            self.wf(),
        ensures
            match r {
                Some(l) => index < self@.len() && l@ == self@[index as int],
                None => index >= self@.len(),
            },
    {
        if index >= self.length {
            return None;
        }
        let pair = self.topic_indices[index];
        Some(slice_subrange(self.orig_bytes.as_slice(), pair.0, pair.1))
    }

    /// The number of levels.
    pub fn len(&self) -> (r: usize)
        requires
            self.wf(),
        ensures
            r == self@.len(),
    {
        self.length
    }

    /// Parse a publish topic.
    ///
    /// Success exactly when the bytes are non-empty, within the length limit
    /// and free of NUL and wildcard bytes; the error otherwise names the
    /// first offending byte. On success the levels, joined back with `/`,
    /// are the input bytes.
    pub fn parse(bytes: Vec<u8>) -> (r: Result<TopicName, TopicNameError>)
        ensures
            match r {
                Ok(t) => {
                    &&& name_parse_ok(bytes@)
                    &&& t.wf()
                    &&& topic_levels_wf(t@)
                    &&& join_levels(t@) == bytes@
                },
                Err(e) => {
                    &&& !name_parse_ok(bytes@)
                    &&& match e {
                        TopicNameError::IsEmpty => bytes@.len() == 0,
                        TopicNameError::TooLong => bytes@.len() > MAX_TOPIC_BYTES,
                        _ => 1 <= bytes@.len() <= MAX_TOPIC_BYTES && name_scan_error(bytes@)
                            == Some(e),
                    }
                },
            },
    {
        let n = bytes.len();
        if n == 0 {
            return Err(TopicNameError::IsEmpty);
        }
        if n > MAX_TOPIC_BYTES {
            return Err(TopicNameError::TooLong);
        }
        let mut topic_indices: Vec<(usize, usize)> = Vec::new();
        let mut prev: usize = 0;
        let mut idx: usize = 0;
        proof {
            assert(bytes@.skip(0) =~= bytes@);
        }
        while idx < n
            invariant
                n == bytes@.len(),
                1 <= n <= MAX_TOPIC_BYTES,
                idx <= n,
                scan_state_wf(bytes@, topic_indices@, prev as int, idx as int),
                name_scan_error(bytes@) == name_scan_error(bytes@.skip(idx as int)),
                forall|j: int|
                    0 <= j < idx ==> #[trigger] bytes@[j] != NUL_BYTE && bytes@[j] != HASH_BYTE
                        && bytes@[j] != PLUS_BYTE,
            decreases n - idx,
        {
            let b = bytes[idx];
            proof {
                assert(bytes@.skip(idx as int)[0] == bytes@[idx as int]);
            }
            if b == HASH_BYTE {
                return Err(TopicNameError::ContainsMultiLevelWildcard);
            }
            if b == PLUS_BYTE {
                return Err(TopicNameError::ContainsSingleLevelWildcard);
            }
            if b == NUL_BYTE {
                return Err(TopicNameError::ContainsNull);
            }
            if b == SEP {
                topic_indices.push((prev, idx));
                prev = idx + 1;
            }
            proof {
                assert(bytes@.skip(idx as int).drop_first() =~= bytes@.skip(idx as int + 1));
            }
            idx += 1;
        }
        proof {
            assert(bytes@.skip(n as int) =~= Seq::<u8>::empty());
        }
        topic_indices.push((prev, n));
        let length = topic_indices.len();
        let t = TopicName { length, topic_indices, orig_bytes: bytes };
        proof {
            let s = t.orig_bytes@;
            let full = t.topic_indices@;
            lemma_final_indices(s, full, prev as int);
            lemma_indices_join(s, full, 0);
            assert(s.skip(0) =~= s);
            lemma_scan_none(s);
            t.lemma_wf_levels();
        }
        Ok(t)
    }
}

/// State of the splitting scan after `pos` bytes: the completed levels in
/// `idx` partition `s[..prev]`, each closed by a `/`, and `s[prev..pos]`
/// (the currently open level) holds no `/`.
pub open spec fn scan_state_wf(s: Seq<u8>, idx: Seq<(usize, usize)>, prev: int, pos: int) -> bool {
    &&& 0 <= prev <= pos <= s.len()
    &&& (idx.len() == 0 ==> prev == 0)
    &&& (idx.len() >= 1 ==> idx[0].0 == 0 && idx.last().1 + 1 == prev)
    &&& forall|k: int|
        0 <= k < idx.len() ==> ((#[trigger] idx[k]).0 <= idx[k].1 && idx[k].1 < s.len()
            && s[idx[k].1 as int] == SEP)
    &&& forall|k: int| 0 <= k < idx.len() - 1 ==> (#[trigger] idx[k]).1 + 1 == idx[k + 1].0
    &&& forall|k: int, j: int|
        #![trigger idx[k], s[j]]
        0 <= k < idx.len() && idx[k].0 <= j < idx[k].1 ==> s[j] != SEP
    &&& forall|j: int| prev <= j < pos ==> #[trigger] s[j] != SEP
}

/// There is a NUL byte somewhere in `s`.
pub open spec fn contains_nul(s: Seq<u8>) -> bool {
    exists|j: int| 0 <= j < s.len() && s[j] == NUL_BYTE
}

/// The first index at or after `from` holding a `/`, or `s.len()` if none.
pub open spec fn find_sep(s: Seq<u8>, from: int) -> int
    decreases s.len() - from,
{
    if from < 0 || from >= s.len() {
        s.len() as int
    } else if s[from] == SEP {
        from
    } else {
        find_sep(s, from + 1)
    }
}

pub proof fn lemma_find_sep_hit(s: Seq<u8>, from: int, k: int)
    requires
        0 <= from <= k < s.len(),
        s[k] == SEP,
        forall|j: int| from <= j < k ==> #[trigger] s[j] != SEP,
    ensures
        find_sep(s, from) == k,
    decreases k - from,
{
    if from < k {
        lemma_find_sep_hit(s, from + 1, k);
    }
}

pub proof fn lemma_find_sep_miss(s: Seq<u8>, from: int)
    requires
        0 <= from,
        forall|j: int| from <= j < s.len() ==> #[trigger] s[j] != SEP,
    ensures
        find_sep(s, from) == s.len(),
    decreases s.len() - from,
{
    if from < s.len() {
        lemma_find_sep_miss(s, from + 1);
    }
}

/// The first level of `s` is the literal `$share`.
pub open spec fn shared_prefix(s: Seq<u8>) -> bool {
    &&& s.len() >= 6
    &&& s.subrange(0, 6) == share_level()
    &&& (s.len() == 6 || s[6] == SEP)
}

/// The string is a usable shared subscription: `$share`, a non-empty group
/// name, and at least one further level.
pub open spec fn shared_ok(s: Seq<u8>) -> bool {
    &&& shared_prefix(s)
    &&& s.len() >= 8
    &&& s[7] != SEP
    &&& find_sep(s, 8) < s.len()
}

/// Where the effective filter starts: after `$share/<group>/` for a shared
/// subscription, at the first byte otherwise.
pub open spec fn eff_start(s: Seq<u8>) -> int {
    if shared_ok(s) {
        find_sep(s, 8) + 1
    } else {
        0
    }
}

/// Wildcard bytes from `start` on sit only where they are allowed: `+` only
/// as a whole level, `#` only as a whole level and only at the very end.
pub open spec fn wildcard_ok_at(s: Seq<u8>, start: int, j: int) -> bool {
    &&& (s[j] == PLUS_BYTE ==> ((j == start || s[j - 1] == SEP) && (j == s.len() - 1 || s[j + 1]
        == SEP)))
    &&& (s[j] == HASH_BYTE ==> (j == s.len() - 1 && (j == start || s[j - 1] == SEP)))
}

pub open spec fn wildcards_ok_from(s: Seq<u8>, start: int) -> bool {
    forall|j: int| start <= j < s.len() ==> #[trigger] wildcard_ok_at(s, start, j)
}

/// The string parses as a filter: non-empty, within the limit, NUL-free,
/// a usable shared prefix if it has one, and wildcards only in permitted
/// positions of the effective filter.
pub open spec fn filter_parse_ok(s: Seq<u8>) -> bool {
    &&& 1 <= s.len() <= MAX_TOPIC_BYTES
    &&& !contains_nul(s)
    &&& (shared_prefix(s) ==> shared_ok(s))
    &&& wildcards_ok_from(s, eff_start(s))
}

/// A subscription-filter string could not be accepted.
#[derive(Clone, Copy, Debug, PartialEq, Eq, Structural)]
pub enum TopicFilterError {
    /// The string contains a NUL byte.
    ContainsNull,
    /// The string is empty.
    IsEmpty,
    /// The string is longer than the protocol's limit.
    TooLong,
    /// `$share` without a non-empty group name and a following filter.
    InvalidSharedSubscription,
    /// `+` inside a level, or `#` anywhere but as the final level.
    MalformedWildcard,
}

/// What a filter means: an optional shared-group name and the levels of the
/// effective filter (for a shared subscription, everything after
/// `$share/<group>/`).
pub struct FilterView {
    pub group: Option<Seq<u8>>,
    pub levels: Seq<Seq<u8>>,
}

/// A parsed subscription filter: the original bytes, offsets of the
/// effective levels into them, and the shared-group name if the filter had
/// the `$share` prefix.
#[derive(Debug)]
pub struct TopicFilter {
    pub(crate) length: usize,
    pub(crate) shared_group_name: Option<Vec<u8>>,
    pub(crate) topic_indices: Vec<(usize, usize)>,
    pub(crate) orig_bytes: Vec<u8>,
}

impl View for TopicFilter {
    type V = FilterView;

    closed spec fn view(&self) -> FilterView {
        FilterView {
            group: match self.shared_group_name {
                Some(g) => Some(g@),
                None => None,
            },
            levels: levels_of(self.orig_bytes@, self.topic_indices@),
        }
    }
}

impl Clone for TopicFilter {
    /// A clone means the same filter.
    fn clone(&self) -> (r: Self)
        ensures
            r@ == self@,
            r.wf() == self.wf(),
    {
        let group = match &self.shared_group_name {
            Some(g) => Some(clone_bytes(g)),
            None => None,
        };
        let r = TopicFilter {
            length: self.length,
            shared_group_name: group,
            topic_indices: clone_pairs(&self.topic_indices),
            orig_bytes: clone_bytes(&self.orig_bytes),
        };
        proof {
            assert(r@ == self@);
        }
        r
    }
}

/// Copy a byte vector.
pub fn clone_bytes(v: &Vec<u8>) -> (r: Vec<u8>)
    ensures
        r@ == v@,
{
    vstd::slice::slice_to_vec(v.as_slice())
}

fn clone_pairs(v: &Vec<(usize, usize)>) -> (r: Vec<(usize, usize)>)
    ensures
        r@ == v@,
{
    vstd::slice::slice_to_vec(v.as_slice())
}

impl TopicFilter {
    /// The backing bytes are intact, NUL-free and within limits; the offsets
    /// split the effective part into levels; wildcards sit only where they
    /// are allowed; a shared filter records exactly the group between
    /// `$share/` and the next `/`.
    pub closed spec fn wf(self) -> bool {
        let s = self.orig_bytes@;
        &&& 1 <= s.len() <= MAX_TOPIC_BYTES
        &&& !contains_nul(s)
        &&& self.length == self.topic_indices@.len()
        &&& match self.shared_group_name {
            None => {
                &&& indices_wf(s, self.topic_indices@, 0)
                &&& !shared_prefix(s)
                &&& wildcards_ok_from(s, 0)
            },
            Some(g) => {
                &&& shared_ok(s)
                &&& g@ == s.subrange(7, find_sep(s, 8))
                &&& indices_wf(s, self.topic_indices@, find_sep(s, 8) + 1)
                &&& wildcards_ok_from(s, find_sep(s, 8) + 1)
            },
        }
    }

    /// In a well-formed filter, a `#` level is the last level.
    pub proof fn lemma_hash_is_last(self, i: int)
        requires
            self.wf(),
            0 <= i < self@.levels.len(),
            self@.levels[i] == hash_level(),
        ensures
            i == self@.levels.len() - 1,
    {
        let s = self.orig_bytes@;
        let idx = self.topic_indices@;
        let start: int = match self.shared_group_name {
            None => 0,
            Some(g) => find_sep(s, 8) + 1,
        };
        let a = idx[i].0 as int;
        assert(self@.levels[i] == s.subrange(a, idx[i].1 as int));
        assert(idx[i].1 == a + 1 && s[a] == HASH_BYTE) by {
            assert(s.subrange(a, idx[i].1 as int).len() == 1);
            assert(s.subrange(a, idx[i].1 as int)[0] == s[a]);
        }
        lemma_indices_mono(s, idx, start, i);
        assert(wildcard_ok_at(s, start, a));
        assert(a == s.len() - 1);
        if i < idx.len() - 1 {
            assert(idx[i].1 < s.len());
            assert(false);
        }
    }

    /// The effective levels of a well-formed filter are separator-free.
    pub proof fn lemma_levels_sep_free(self)
        requires
            self.wf(),
        ensures
            forall|i: int, j: int|
                #![trigger self@.levels[i][j]]
                0 <= i < self@.levels.len() && 0 <= j < self@.levels[i].len() ==> self@.levels[i][j]
                    != SEP && self@.levels[i][j] != NUL_BYTE,
    {
        let s = self.orig_bytes@;
        let idx = self.topic_indices@;
        assert forall|i: int, j: int|
            0 <= i < self@.levels.len() && 0 <= j < self@.levels[i].len() implies #[trigger] self@
            .levels[i][j] != SEP && self@.levels[i][j] != NUL_BYTE by {
            assert(self@.levels[i] == s.subrange(idx[i].0 as int, idx[i].1 as int));
            assert(self@.levels[i][j] == s[idx[i].0 + j]);
            assert(s[idx[i].0 + j] != SEP);
            assert(!contains_nul(s));
        }
    }

    /// The level at `index`, as a slice of the backing bytes; `None` past the end.
    pub fn get_part<'a>(&'a self, index: usize) -> (r: Option<&'a [u8]>)
        requires
            self.wf(),
        ensures
            match r {
                Some(l) => index < self@.levels.len() && l@ == self@.levels[index as int],
                None => index >= self@.levels.len(),
            },
    {
        if index >= self.length {
            return None;
        }
        let pair = self.topic_indices[index];
        proof {
            let s = self.orig_bytes@;
            let idx = self.topic_indices@;
            let start: int = match &self.shared_group_name {
                None => 0,
                Some(g) => find_sep(s, 8) + 1,
            };
            assert(idx[index as int].0 <= idx[index as int].1 <= s.len());
        }
        Some(slice_subrange(self.orig_bytes.as_slice(), pair.0, pair.1))
    }

    /// The number of effective levels.
    pub fn len(&self) -> (r: usize)
        requires
            self.wf(),
        ensures
            r == self@.levels.len(),
    {
        self.length
    }

    /// The shared-group name, if the filter is a shared subscription.
    pub fn shared_group(&self) -> (r: &Option<Vec<u8>>)
        ensures
            match r {
                Some(g) => self@.group == Some(g@),
                None => self@.group is None,
            },
    {
        &self.shared_group_name
    }

    /// Parse a subscription filter.
    ///
    /// Success exactly when the bytes are non-empty, within the length
    /// limit, NUL-free, carry a usable group if they begin with `$share`,
    /// and use wildcards only as whole levels with `#` last. On success the
    /// original bytes are recovered by joining the group and the levels.
    pub fn parse(bytes: Vec<u8>) -> (r: Result<TopicFilter, TopicFilterError>)
        ensures
            match r {
                Ok(f) => {
                    &&& filter_parse_ok(bytes@)
                    &&& f.wf()
                    &&& f@.levels.len() >= 1
                    &&& match f@.group {
                        Some(g) => shared_ok(bytes@) && g == bytes@.subrange(7, find_sep(bytes@, 8))
                            && bytes@ == share_level() + seq![SEP] + g + seq![SEP] + join_levels(
                            f@.levels,
                        ),
                        None => !shared_prefix(bytes@) && join_levels(f@.levels) == bytes@,
                    }
                },
                Err(e) => {
                    &&& !filter_parse_ok(bytes@)
                    &&& match e {
                        TopicFilterError::IsEmpty => bytes@.len() == 0,
                        TopicFilterError::TooLong => bytes@.len() > MAX_TOPIC_BYTES,
                        TopicFilterError::ContainsNull => 1 <= bytes@.len() <= MAX_TOPIC_BYTES
                            && contains_nul(bytes@),
                        TopicFilterError::InvalidSharedSubscription => {
                            &&& 1 <= bytes@.len() <= MAX_TOPIC_BYTES
                            &&& !contains_nul(bytes@)
                            &&& shared_prefix(bytes@)
                            &&& !shared_ok(bytes@)
                        },
                        TopicFilterError::MalformedWildcard => {
                            &&& 1 <= bytes@.len() <= MAX_TOPIC_BYTES
                            &&& !contains_nul(bytes@)
                            &&& (shared_prefix(bytes@) ==> shared_ok(bytes@))
                            &&& !wildcards_ok_from(bytes@, eff_start(bytes@))
                        },
                    }
                },
            },
    {
        let n = bytes.len();
        if n == 0 {
            return Err(TopicFilterError::IsEmpty);
        }
        if n > MAX_TOPIC_BYTES {
            return Err(TopicFilterError::TooLong);
        }
        let mut topic_indices: Vec<(usize, usize)> = Vec::new();
        let mut prev: usize = 0;
        let mut idx: usize = 0;
        while idx < n
            invariant
                n == bytes@.len(),
                1 <= n <= MAX_TOPIC_BYTES,
                idx <= n,
                scan_state_wf(bytes@, topic_indices@, prev as int, idx as int),
                forall|j: int| 0 <= j < idx ==> #[trigger] bytes@[j] != NUL_BYTE,
            decreases n - idx,
        {
            let b = bytes[idx];
            if b == NUL_BYTE {
                return Err(TopicFilterError::ContainsNull);
            }
            if b == SEP {
                topic_indices.push((prev, idx));
                prev = idx + 1;
            }
            idx += 1;
        }
        topic_indices.push((prev, n));
        proof {
            lemma_final_indices(bytes@, topic_indices@, prev as int);
            assert(!contains_nul(bytes@));
        }
        let length = topic_indices.len();

        // Shared-subscription prefix.
        let first_pair = topic_indices[0];
        let first_level = slice_subrange(bytes.as_slice(), first_pair.0, first_pair.1);
        let mut shared_group_name: Option<Vec<u8>> = None;
        let mut start: usize = 0;
        let ghost mut group_view: Option<Seq<u8>> = None;
        if is_share(first_level) {
            proof {
                lemma_share_detect(bytes@, topic_indices@);
            }
            if length < 3 || topic_indices[1].0 == topic_indices[1].1 {
                proof {
                    lemma_share_invalid(bytes@, topic_indices@);
                }
                return Err(TopicFilterError::InvalidSharedSubscription);
            }
            let e1 = topic_indices[1].1;
            proof {
                lemma_share_valid(bytes@, topic_indices@);
            }
            shared_group_name = Some(clone_bytes_of(slice_subrange(bytes.as_slice(), 7, e1)));
            proof {
                group_view = Some(bytes@.subrange(7, e1 as int));
            }
            start = e1 + 1;
            let ghost full_idx = topic_indices@;
            let rest = topic_indices.split_off(2);
            topic_indices = rest;
            proof {
                lemma_indices_drop2(bytes@, full_idx, topic_indices@, start as int);
            }
        } else {
            proof {
                lemma_not_share_detect(bytes@, topic_indices@);
            }
        }
        let length = topic_indices.len();
        let ghost shared = shared_group_name is Some;

        // Wildcard placement over the effective filter.
        let mut j = start;
        while j < n
            invariant
                n == bytes@.len(),
                1 <= n <= MAX_TOPIC_BYTES,
                start <= j <= n,
                start == eff_start(bytes@),
                !contains_nul(bytes@),
                shared ==> shared_ok(bytes@),
                !shared ==> !shared_prefix(bytes@),
                forall|k: int| start <= k < j ==> #[trigger] wildcard_ok_at(bytes@, start as int, k),
            decreases n - j,
        {
            let b = bytes[j];
            if b == PLUS_BYTE {
                let left_ok = j == start || bytes[j - 1] == SEP;
                let right_ok = j == n - 1 || bytes[j + 1] == SEP;
                if !(left_ok && right_ok) {
                    proof {
                        assert(!wildcard_ok_at(bytes@, start as int, j as int));
                    }
                    return Err(TopicFilterError::MalformedWildcard);
                }
            }
            if b == HASH_BYTE {
                let left_ok = j == start || bytes[j - 1] == SEP;
                if !(j == n - 1 && left_ok) {
                    proof {
                        assert(!wildcard_ok_at(bytes@, start as int, j as int));
                    }
                    return Err(TopicFilterError::MalformedWildcard);
                }
            }
            proof {
                assert(wildcard_ok_at(bytes@, start as int, j as int));
            }
            j += 1;
        }

        let f = TopicFilter { length, shared_group_name, topic_indices, orig_bytes: bytes };
        proof {
            let s = f.orig_bytes@;
            let idx = f.topic_indices@;
            assert(wildcards_ok_from(s, start as int));
            lemma_indices_join(s, idx, start as int);
            match &f.shared_group_name {
                Some(g) => {
                    let e1 = find_sep(s, 8);
                    assert(g@ == s.subrange(7, e1));
                    assert(s =~= share_level() + seq![SEP] + s.subrange(7, e1) + seq![SEP] + s.skip(
                        e1 + 1,
                    )) by {
                        assert(s.subrange(0, 6) == share_level());
                        assert(s[6] == SEP);
                        assert(s[e1] == SEP);
                    }
                },
                None => {
                    assert(s.skip(0) =~= s);
                },
            }
        }
        Ok(f)
    }
}

/// Level starts never precede the split's start position.
pub proof fn lemma_indices_mono(s: Seq<u8>, idx: Seq<(usize, usize)>, start: int, k: int)
    requires
        indices_wf(s, idx, start),
        0 <= k < idx.len(),
    ensures
        idx[k].0 >= start,
    decreases k,
{
    if k > 0 {
        lemma_indices_mono(s, idx, start, k - 1);
        assert(idx[k - 1].1 < s.len() && idx[k].0 == idx[k - 1].1 + 1);
    }
}

/// If the first level reads `$share`, the string has the shared prefix.
proof fn lemma_share_detect(s: Seq<u8>, idx: Seq<(usize, usize)>)
    requires
        indices_wf(s, idx, 0),
        s.subrange(idx[0].0 as int, idx[0].1 as int) == share_level(),
    ensures
        shared_prefix(s),
        idx[0].1 == 6,
{
    assert(s.subrange(0, idx[0].1 as int).len() == 6);
    assert(idx[0].1 == 6);
    assert(s.len() >= 6);
    if idx.len() > 1 {
        assert(idx[0].1 < s.len() && s[6] == SEP);
    } else {
        assert(idx.last() == idx[0]);
        assert(s.len() == 6);
    }
}

/// If the first level does not read `$share`, the string has no shared prefix.
proof fn lemma_not_share_detect(s: Seq<u8>, idx: Seq<(usize, usize)>)
    requires
        indices_wf(s, idx, 0),
        s.subrange(idx[0].0 as int, idx[0].1 as int) != share_level(),
    ensures
        !shared_prefix(s),
        eff_start(s) == 0,
{
    if shared_prefix(s) {
        let e0 = idx[0].1 as int;
        if e0 < 6 {
            assert(idx.len() > 1) by {
                if idx.len() == 1 {
                    assert(idx.last() == idx[0]);
                }
            }
            assert(s[e0] == SEP);
            assert(s.subrange(0, 6)[e0] == s[e0]);
            assert(share_level()[e0] != SEP);
            assert(false);
        } else if e0 == 6 {
            assert(s.subrange(0, e0) == share_level());
            assert(false);
        } else {
            assert(s.len() > 6) by {
                if idx.len() == 1 {
                    assert(idx.last() == idx[0]);
                } else {
                    assert(idx[0].1 < s.len());
                }
            }
            assert(s[6] == SEP);
            assert(idx[0].0 <= 6 < idx[0].1);
            assert(false);
        }
    }
}

/// A `$share` filter without group or continuation is not usable.
proof fn lemma_share_invalid(s: Seq<u8>, idx: Seq<(usize, usize)>)
    requires
        indices_wf(s, idx, 0),
        shared_prefix(s),
        idx[0].1 == 6,
        idx.len() < 3 || idx[1].0 == idx[1].1,
    ensures
        !shared_ok(s),
{
    if idx.len() == 1 {
        assert(idx.last() == idx[0]);
        assert(s.len() == 6);
    } else {
        assert(idx[1].0 == 7);
        if idx.len() == 2 {
            assert(idx.last() == idx[1]);
            assert(idx[1].1 == s.len());
            if shared_ok(s) {
                let k = find_sep(s, 8);
                assert forall|j: int| 8 <= j < s.len() implies #[trigger] s[j] != SEP by {
                    assert(idx[1].0 <= j < idx[1].1);
                }
                lemma_find_sep_miss(s, 8);
                assert(false);
            }
        } else {
            // At least three levels, but the group level is empty.
            assert(idx[1].0 == idx[1].1);
            assert(idx[1].1 < s.len() && s[idx[1].1 as int] == SEP);
            assert(s[7] == SEP);
            assert(!shared_ok(s));
        }
    }
}

/// A `$share` filter with a non-empty group and a continuation is usable,
/// and its group level ends at the first separator past position 8.
proof fn lemma_share_valid(s: Seq<u8>, idx: Seq<(usize, usize)>)
    requires
        indices_wf(s, idx, 0),
        shared_prefix(s),
        idx[0].1 == 6,
        idx.len() >= 3,
        idx[1].0 != idx[1].1,
    ensures
        shared_ok(s),
        find_sep(s, 8) == idx[1].1,
        eff_start(s) == idx[1].1 + 1,
        idx[2].0 == idx[1].1 + 1,
{
    assert(idx[1].0 == 7);
    let e1 = idx[1].1 as int;
    assert(e1 > 7);
    assert(e1 < s.len() && s[e1] == SEP);
    assert(s[7] != SEP);
    assert forall|j: int| 8 <= j < e1 implies #[trigger] s[j] != SEP by {
        assert(idx[1].0 <= j < idx[1].1);
    }
    lemma_find_sep_hit(s, 8, e1);
    assert(s.len() >= 8);
    assert(shared_ok(s));
}

/// Dropping the first two levels of a well-formed split leaves a
/// well-formed split of the remainder.
proof fn lemma_indices_drop2(
    s: Seq<u8>,
    full: Seq<(usize, usize)>,
    rest: Seq<(usize, usize)>,
    start: int,
)
    requires
        indices_wf(s, full, 0),
        full.len() >= 3,
        rest == full.subrange(2, full.len() as int),
        start == full[2].0,
    ensures
        indices_wf(s, rest, start),
{
    assert(rest[0] == full[2]);
    assert(rest.last() == full.last());
    assert forall|k: int| 0 <= k < rest.len() implies (#[trigger] rest[k]).0 <= rest[k].1
        <= s.len() by {
        assert(rest[k] == full[k + 2]);
    }
    assert forall|k: int|
        0 <= k < rest.len() - 1 implies ((#[trigger] rest[k]).1 < s.len() && s[rest[k].1 as int]
        == SEP && rest[k + 1].0 == rest[k].1 + 1) by {
        assert(rest[k] == full[k + 2]);
        assert(rest[k + 1] == full[k + 3]);
    }
    assert forall|k: int, j: int|
        #![trigger rest[k], s[j]]
        0 <= k < rest.len() && rest[k].0 <= j < rest[k].1 implies s[j] != SEP by {
        assert(rest[k] == full[k + 2]);
    }
}

/// Recognise the literal `$share` level.
fn is_share(l: &[u8]) -> (r: bool)
    ensures
        r == (l@ == share_level()),
{
    if l.len() != 6 {
        proof {
            assert(l@ != share_level());
        }
        return false;
    }
    let r = l[0] == 36 && l[1] == 115 && l[2] == 104 && l[3] == 97 && l[4] == 114 && l[5] == 101;
    proof {
        if r {
            assert(l@ =~= share_level());
        } else {
            assert(l@ != share_level()) by {
                if l@ == share_level() {
                    assert(l@[0] == 36 && l@[1] == 115 && l@[2] == 104 && l@[3] == 97 && l@[4]
                        == 114 && l@[5] == 101);
                }
            }
        }
    }
    r
}

pub(crate) fn clone_bytes_of(l: &[u8]) -> (r: Vec<u8>)
    ensures
        r@ == l@,
{
    vstd::slice::slice_to_vec(l)
}

/// Closing the scan: pushing the final open level yields a well-formed split.
pub proof fn lemma_final_indices(s: Seq<u8>, full: Seq<(usize, usize)>, prev: int)
    requires
        full.len() >= 1,
        full.last().0 == prev,
        full.last().1 == s.len(),
        prev <= s.len(),
        s.len() >= 1,
        scan_state_wf(s, full.drop_last(), prev, s.len() as int),
    ensures
        indices_wf(s, full, 0),
{
    let idx = full.drop_last();
    assert forall|k: int| 0 <= k < full.len() implies (#[trigger] full[k]).0 <= full[k].1
        <= s.len() by {
        if k < idx.len() {
            assert(full[k] == idx[k]);
        }
    }
    assert forall|k: int|
        0 <= k < full.len() - 1 implies ((#[trigger] full[k]).1 < s.len() && s[full[k].1 as int]
        == SEP && full[k + 1].0 == full[k].1 + 1) by {
        assert(full[k] == idx[k]);
        if k < idx.len() - 1 {
            assert(full[k + 1] == idx[k + 1]);
        } else {
            assert(k == idx.len() - 1);
            assert(idx.last() == idx[k]);
        }
    }
    assert forall|k: int, j: int|
        #![trigger full[k], s[j]]
        0 <= k < full.len() && full[k].0 <= j < full[k].1 implies s[j] != SEP by {
        if k < idx.len() {
            assert(full[k] == idx[k]);
        }
    }
}

} // verus!
