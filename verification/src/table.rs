//! The bounded parameter table: splits a URL's query string into
//! key/value pairs and stores each pair, percent-decoded, in a fixed
//! array of slots.

use vstd::prelude::*;

verus! {

use crate::decode::percent_decode_range;
use crate::decode::spec_decoded;
use crate::text::StackString;
use crate::MAX_KEY_SIZE;
use crate::MAX_PARAM_COUNT;
use crate::MAX_VALUE_SIZE;
use vstd::array::array_index_get;
use vstd::slice::slice_subrange;
use vstd::string::StringSliceAdditionalSpecFns;
use vstd::utf8::char_u32_cast;
use vstd::utf8::encode_utf8;
use crate::decode::lemma_decoded_fits;
use crate::text::lemma_ascii_byte_in_encoding;
use crate::text::utf8_len;

/// The byte value of `'?'`.
pub const QUESTION: u8 = 63;

/// The byte value of `'&'`.
pub const AMPERSAND: u8 = 38;

/// The byte value of `'='`.
pub const EQUALS: u8 = 61;

/// A decoded key/value pair, as character sequences.
pub type QueryEntry = (Seq<char>, Seq<char>);

/// The least index `j >= from` with `s[j] == target`, or `s.len()` when
/// there is none.
pub open spec fn first_index_of(s: Seq<u8>, target: u8, from: int) -> int
    decreases s.len() - from,
{
    if from < 0 || from >= s.len() {
        s.len() as int
    } else if s[from] == target {
        from
    } else {
        first_index_of(s, target, from + 1)
    }
}

/// Bounds and characterization of `first_index_of`.
pub proof fn lemma_first_index_of_bounds(s: Seq<u8>, target: u8, from: int)
    requires
        0 <= from <= s.len(),
    ensures
        from <= first_index_of(s, target, from) <= s.len(),
        forall|j: int| from <= j < first_index_of(s, target, from) ==> s[j] != target,
        first_index_of(s, target, from) < s.len() ==> s[first_index_of(s, target, from)]
            == target,
    decreases s.len() - from,
{
    if from < s.len() && s[from] != target {
        lemma_first_index_of_bounds(s, target, from + 1);
    }
}

/// `first_index_of` is the index where a left-to-right scan stops.
pub proof fn lemma_first_index_of_is(s: Seq<u8>, target: u8, from: int, i: int)
    requires
        0 <= from <= i <= s.len(),
        forall|j: int| from <= j < i ==> s[j] != target,
        i == s.len() || s[i] == target,
    ensures
        first_index_of(s, target, from) == i,
    decreases i - from,
{
    if from < i {
        lemma_first_index_of_is(s, target, from + 1, i);
    }
}

/// What one raw pair span contributes to the table: nothing when the
/// span is empty or its key is empty; otherwise the percent-decoded key
/// and value, the value being empty when the span has no `=`.
pub open spec fn pair_entry(pair: Seq<u8>, kc: int, vc: int) -> Option<QueryEntry> {
    let eq = first_index_of(pair, EQUALS, 0);
    if eq < pair.len() {
        if eq > 0 {
            Some(
                (
                    spec_decoded(pair.subrange(0, eq), kc),
                    spec_decoded(pair.subrange(eq + 1, pair.len() as int), vc),
                ),
            )
        } else {
            None
        }
    } else if pair.len() > 0 {
        Some((spec_decoded(pair, kc), Seq::empty()))
    } else {
        None
    }
}

/// The entries contributed by the query spans from position `start` on,
/// without a limit on their number: the query is cut at each `&`, and
/// each span contributes through `pair_entry`, in order.
pub open spec fn entries_from(q: Seq<u8>, start: int, kc: int, vc: int) -> Seq<QueryEntry>
    decreases q.len() - start,
        via entries_from_decreases
{
    if start < 0 || start >= q.len() {
        Seq::empty()
    } else {
        let end = first_index_of(q, AMPERSAND, start);
        let rest = if end + 1 <= q.len() {
            entries_from(q, end + 1, kc, vc)
        } else {
            Seq::empty()
        };
        match pair_entry(q.subrange(start, end), kc, vc) {
            Some(e) => seq![e] + rest,
            None => rest,
        }
    }
}

#[via_fn]
proof fn entries_from_decreases(q: Seq<u8>, start: int, kc: int, vc: int) {
    if 0 <= start < q.len() {
        lemma_first_index_of_bounds(q, AMPERSAND, start);
    }
}

/// The table contents after parsing `url` with capacities `n`, `kc`,
/// `vc`: nothing without a `?`; otherwise the entries of the query
/// string after the first `?`, of which at most the first `n` are kept.
pub open spec fn spec_parse_url(url: Seq<u8>, n: int, kc: int, vc: int) -> Seq<QueryEntry> {
    let qpos = first_index_of(url, QUESTION, 0);
    if qpos == url.len() {
        Seq::empty()
    } else {
        let entries = entries_from(url.subrange(qpos + 1, url.len() as int), 0, kc, vc);
        if entries.len() <= n {
            entries
        } else {
            entries.take(n)
        }
    }
}

/// A URL without a `?` parses to the empty table, whatever the
/// capacities: the parse stores nothing at all.
pub proof fn lemma_parse_url_no_query(url: Seq<char>, n: int, kc: int, vc: int)
    requires
        forall|i: int| 0 <= i < url.len() ==> url[i] != '?',
    ensures
        spec_parse_url(encode_utf8(url), n, kc, vc) == Seq::<QueryEntry>::empty(),
{
    let bytes = encode_utf8(url);
    assert forall|i: int| 0 <= i < bytes.len() implies bytes[i] != QUESTION by {
        if bytes[i] == QUESTION {
            lemma_ascii_byte_in_encoding(url, i);
            let j = choose|j: int|
                0 <= j < url.len() && (#[trigger] url[j]) as u32 == bytes[i] as u32;
            char_u32_cast(url[j], url[j] as u32);
            char_u32_cast('?', '?' as u32);
            assert('?' as u32 == 63);
            assert(url[j] == '?');
        }
    }
    lemma_first_index_of_is(bytes, QUESTION, 0, bytes.len() as int);
}

/// How many parameters a parse stores: every entry of the query string
/// when they fit in the slots, and exactly the slot count when the
/// query has more entries than slots.
pub proof fn lemma_parse_url_len(url: Seq<u8>, n: int, kc: int, vc: int)
    requires
        n >= 0,
    ensures
        ({
            let qpos = first_index_of(url, QUESTION, 0);
            let total = if qpos == url.len() {
                0int
            } else {
                entries_from(url.subrange(qpos + 1, url.len() as int), 0, kc, vc).len() as int
            };
            spec_parse_url(url, n, kc, vc).len() == if total <= n {
                total
            } else {
                n
            }
        }),
{
}

/// Beyond the slot limit the parse only cuts the entry list short:
/// every stored entry equals the entry of the same rank in the
/// unlimited list, so the first `n` entries are kept and the rest are
/// dropped.
pub proof fn lemma_parse_url_prefix(url: Seq<u8>, n: int, kc: int, vc: int, i: int)
    requires
        n >= 0,
        0 <= i < spec_parse_url(url, n, kc, vc).len(),
    ensures
        ({
            let qpos = first_index_of(url, QUESTION, 0);
            &&& qpos < url.len()
            &&& spec_parse_url(url, n, kc, vc)[i] == entries_from(
                url.subrange(qpos + 1, url.len() as int),
                0,
                kc,
                vc,
            )[i]
        }),
{
    let qpos = first_index_of(url, QUESTION, 0);
    lemma_first_index_of_bounds(url, QUESTION, 0);
}

proof fn lemma_entries_from_fit(q: Seq<u8>, start: int, kc: int, vc: int, i: int)
    requires
        kc >= 0,
        vc >= 0,
        0 <= i < entries_from(q, start, kc, vc).len(),
    ensures
        utf8_len(entries_from(q, start, kc, vc)[i].0) <= kc,
        utf8_len(entries_from(q, start, kc, vc)[i].1) <= vc,
    decreases q.len() - start,
{
    let end = first_index_of(q, AMPERSAND, start);
    let pair = q.subrange(start, end);
    lemma_first_index_of_bounds(q, AMPERSAND, start);
    if pair_entry(pair, kc, vc) is Some && i == 0 {
        let eq = first_index_of(pair, EQUALS, 0);
        lemma_decoded_fits(pair.subrange(0, eq), kc);
        lemma_decoded_fits(pair.subrange(eq + 1, pair.len() as int), vc);
        lemma_decoded_fits(pair, kc);
        assert(encode_utf8(Seq::<char>::empty()) =~= Seq::<u8>::empty());
    } else {
        let rest_i = if pair_entry(pair, kc, vc) is Some {
            i - 1
        } else {
            i
        };
        lemma_entries_from_fit(q, end + 1, kc, vc, rest_i);
    }
}

/// The per-slot capacity contracts hold: every key the parse stores
/// occupies at most `kc` bytes and every value at most `vc` bytes.
pub proof fn lemma_parse_url_capacities(url: Seq<u8>, n: int, kc: int, vc: int, i: int)
    requires
        kc >= 0,
        vc >= 0,
        n >= 0,
        0 <= i < spec_parse_url(url, n, kc, vc).len(),
    ensures
        utf8_len(spec_parse_url(url, n, kc, vc)[i].0) <= kc,
        utf8_len(spec_parse_url(url, n, kc, vc)[i].1) <= vc,
{
    let qpos = first_index_of(url, QUESTION, 0);
    lemma_first_index_of_bounds(url, QUESTION, 0);
    lemma_entries_from_fit(url.subrange(qpos + 1, url.len() as int), 0, kc, vc, i);
}

/// Iteration is restartable: the pairs `iter` observes are pinned,
/// element by element, by the table's contents alone, so two
/// traversals of the same unmodified table observe the same sequence.
pub proof fn lemma_iter_restartable(
    table: Seq<QueryEntry>,
    r1: Seq<QueryEntry>,
    r2: Seq<QueryEntry>,
)
    requires
        r1.len() == table.len(),
        forall|i: int| 0 <= i < table.len() ==> (#[trigger] r1[i]) == table[i],
        r2.len() == table.len(),
        forall|i: int| 0 <= i < table.len() ==> (#[trigger] r2[i]) == table[i],
    ensures
        r1 == r2,
{
    assert(r1 =~= r2);
}

/// The value of the first entry whose key is `key`, if any.
pub open spec fn spec_get(entries: Seq<QueryEntry>, key: Seq<char>) -> Option<Seq<char>>
    decreases entries.len(),
{
    if entries.len() == 0 {
        None
    } else if entries[0].0 == key {
        Some(entries[0].1)
    } else {
        spec_get(entries.drop_first(), key)
    }
}

proof fn lemma_spec_get_found(entries: Seq<QueryEntry>, key: Seq<char>, i: int)
    requires
        0 <= i < entries.len(),
        forall|j: int| 0 <= j < i ==> (#[trigger] entries[j]).0 != key,
        entries[i].0 == key,
    ensures
        spec_get(entries, key) == Some(entries[i].1),
    decreases i,
{
    if i > 0 {
        assert(forall|j: int|
            0 <= j < i - 1 ==> (#[trigger] entries.drop_first()[j]).0 == entries[j + 1].0);
        lemma_spec_get_found(entries.drop_first(), key, i - 1);
    }
}

proof fn lemma_spec_get_none(entries: Seq<QueryEntry>, key: Seq<char>)
    requires
        forall|j: int| 0 <= j < entries.len() ==> (#[trigger] entries[j]).0 != key,
    ensures
        spec_get(entries, key) is None,
    decreases entries.len(),
{
    if entries.len() > 0 {
        assert(forall|j: int|
            0 <= j < entries.len() - 1 ==> (#[trigger] entries.drop_first()[j]).0 == entries[j
                + 1].0);
        lemma_spec_get_none(entries.drop_first(), key);
    }
}

/// A single query parameter: a key and a value held in independently
/// sized fixed buffers.
#[derive(Debug, Clone, Copy)]
pub struct StackParam<const KEY_SIZE: usize, const VALUE_SIZE: usize> {
    pub(crate) key: StackString<KEY_SIZE>,
    pub(crate) value: StackString<VALUE_SIZE>,
}

impl<const KEY_SIZE: usize, const VALUE_SIZE: usize> View for StackParam<KEY_SIZE, VALUE_SIZE> {
    type V = QueryEntry;

    open(crate) spec fn view(&self) -> QueryEntry {
        (self.key@, self.value@)
    }
}

impl<const KEY_SIZE: usize, const VALUE_SIZE: usize> StackParam<KEY_SIZE, VALUE_SIZE> {
    /// Both buffers hold valid text.
    pub open(crate) spec fn wf(&self) -> bool {
        self.key.wf() && self.value.wf()
    }

    /// Creates a new empty parameter.
    pub fn new() -> (r: Self)
        ensures
            r.wf(),
            r@ == (Seq::<char>::empty(), Seq::<char>::empty()),
    {
        StackParam { key: StackString::new(), value: StackString::new() }
    }

    /// Returns the key as a string slice.
    pub fn key(&self) -> (r: &str)
        requires
            self.wf(),
        ensures
            r@ == self@.0,
    {
        self.key.as_str()
    }

    /// Returns the value as a string slice.
    pub fn value(&self) -> (r: &str)
        requires
            self.wf(),
        ensures
            r@ == self@.1,
    {
        self.value.as_str()
    }
}

/// A fixed-capacity table of query parameters: `PARAM_COUNT` slots and
/// the number of slots filled by the parse.
#[derive(Debug)]
pub struct StackQueryParams<
    const PARAM_COUNT: usize,
    const KEY_SIZE: usize,
    const VALUE_SIZE: usize,
> {
    pub(crate) params: [StackParam<KEY_SIZE, VALUE_SIZE>; PARAM_COUNT],
    pub(crate) count: usize,
}

impl<const PARAM_COUNT: usize, const KEY_SIZE: usize, const VALUE_SIZE: usize> View for StackQueryParams<
    PARAM_COUNT,
    KEY_SIZE,
    VALUE_SIZE,
> {
    type V = Seq<QueryEntry>;

    open(crate) spec fn view(&self) -> Seq<QueryEntry> {
        Seq::new(self.count as nat, |i: int| self.params@[i]@)
    }
}

impl<const PARAM_COUNT: usize, const KEY_SIZE: usize, const VALUE_SIZE: usize> StackQueryParams<
    PARAM_COUNT,
    KEY_SIZE,
    VALUE_SIZE,
> {
    /// Invariant: the fill count is within the slot count and every slot
    /// holds valid text.
    pub open(crate) spec fn wf(&self) -> bool {
        &&& self.count <= PARAM_COUNT
        &&& forall|i: int| 0 <= i < PARAM_COUNT ==> (#[trigger] self.params@[i]).wf()
    }

    /// Creates a table with custom size limits and immediately parses
    /// the given URL.
    pub fn custom_new(url: &str) -> (r: Self)
        ensures
            r.wf(),
            r@ == spec_parse_url(
                url.spec_bytes(),
                PARAM_COUNT as int,
                KEY_SIZE as int,
                VALUE_SIZE as int,
            ),
    {
        let slot = StackParam::<KEY_SIZE, VALUE_SIZE>::new();
        let mut table = StackQueryParams { params: [slot; PARAM_COUNT], count: 0 };
        table.parse_from_url(url);
        table
    }

    /// Fills the table from everything after the first `?` of `url`:
    /// the query string is split on `&`, spans with an empty key are
    /// skipped, the key and value of every other span are
    /// percent-decoded into the next free slot, and parsing stops once
    /// all slots are filled.
    fn parse_from_url(&mut self, url: &str)
        requires
            old(self).wf(),
            old(self).count == 0,
        ensures
            final(self).wf(),
            final(self)@ == spec_parse_url(
                url.spec_bytes(),
                PARAM_COUNT as int,
                KEY_SIZE as int,
                VALUE_SIZE as int,
            ),
    {
        let ghost kc = KEY_SIZE as int;
        let ghost vc = VALUE_SIZE as int;
        let bytes: &[u8] = url.as_bytes();
        let blen = bytes.len();
        // Locate the first '?'.
        let mut qpos: usize = 0;
        while qpos < blen && bytes[qpos] != QUESTION
            invariant
                qpos <= blen,
                blen == bytes@.len(),
                forall|j: int| 0 <= j < qpos ==> bytes@[j] != QUESTION,
            decreases blen - qpos,
        {
            qpos += 1;
        }
        proof {
            lemma_first_index_of_is(bytes@, QUESTION, 0, qpos as int);
        }
        if qpos == blen {
            // No query string: the table stays empty.
            proof {
                assert(self@ =~= Seq::<QueryEntry>::empty());
            }
            return;
        }
        let query: &[u8] = slice_subrange(bytes, qpos + 1, blen);
        let qlen = query.len();
        let ghost q = query@;
        let ghost total = entries_from(q, 0, kc, vc);
        let mut start: usize = 0;
        while start < qlen && self.count < PARAM_COUNT
            invariant
                self.wf(),
                start <= qlen,
                qlen == q.len(),
                query@ == q,
                kc == KEY_SIZE as int,
                vc == VALUE_SIZE as int,
                total == self@ + entries_from(q, start as int, kc, vc),
            decreases qlen - start,
        {
            let ghost pre = self@;
            // Find the end of this span.
            let mut end: usize = start;
            while end < qlen && query[end] != AMPERSAND
                invariant
                    start <= end <= qlen,
                    qlen == query@.len(),
                    forall|j: int| start <= j < end ==> query@[j] != AMPERSAND,
                decreases qlen - end,
            {
                end += 1;
            }
            proof {
                lemma_first_index_of_is(q, AMPERSAND, start as int, end as int);
            }
            let ghost pair = q.subrange(start as int, end as int);
            // Find the first '=' within the span.
            let mut eq: usize = start;
            while eq < end && query[eq] != EQUALS
                invariant
                    start <= eq <= end,
                    end <= qlen,
                    qlen == query@.len(),
                    forall|j: int| start <= j < eq ==> query@[j] != EQUALS,
                decreases end - eq,
            {
                eq += 1;
            }
            proof {
                assert(forall|j: int| 0 <= j < eq - start ==> pair[j] != EQUALS);
                assert(eq < end ==> pair[eq - start] == EQUALS);
                lemma_first_index_of_is(pair, EQUALS, 0, eq as int - start as int);
            }
            if eq < end {
                if eq > start {
                    // key=value, non-empty key: fill the next slot.
                    let key_ss = percent_decode_range::<KEY_SIZE>(query, start, eq);
                    let value_ss = percent_decode_range::<VALUE_SIZE>(query, eq + 1, end);
                    proof {
                        assert(pair.subrange(0, eq - start) =~= q.subrange(
                            start as int,
                            eq as int,
                        ));
                        assert(pair.subrange(eq - start + 1, pair.len() as int) =~= q.subrange(
                            eq as int + 1,
                            end as int,
                        ));
                        assert(pair_entry(pair, kc, vc) == Some((key_ss@, value_ss@)));
                    }
                    let p = StackParam { key: key_ss, value: value_ss };
                    self.params[self.count] = p;
                    self.count += 1;
                    proof {
                        assert(self@ =~= pre.push((key_ss@, value_ss@)));
                    }
                }
                // An empty key drops the whole span, value or not.
            } else if end > start {
                // A span without '=': the whole span is the key, the
                // value is left empty.
                let key_ss = percent_decode_range::<KEY_SIZE>(query, start, end);
                proof {
                    assert(pair =~= q.subrange(start as int, end as int));
                    assert(pair_entry(pair, kc, vc) == Some((key_ss@, Seq::<char>::empty())));
                }
                let p = StackParam { key: key_ss, value: StackString::new() };
                self.params[self.count] = p;
                self.count += 1;
                proof {
                    assert(self@ =~= pre.push((key_ss@, Seq::<char>::empty())));
                }
            }
            // An empty span (from "&&" or a trailing "&") is skipped.
            proof {
                let rest = if end as int + 1 <= qlen {
                    entries_from(q, end as int + 1, kc, vc)
                } else {
                    Seq::<QueryEntry>::empty()
                };
                assert(entries_from(q, start as int, kc, vc) == match pair_entry(pair, kc, vc) {
                    Some(e) => seq![e] + rest,
                    None => rest,
                });
                if pair_entry(pair, kc, vc) is Some {
                    let e = pair_entry(pair, kc, vc)->Some_0;
                    assert(pre + (seq![e] + rest) =~= self@ + rest);
                } else {
                    assert(self@ == pre);
                }
            }
            start = if end < qlen {
                end + 1
            } else {
                qlen
            };
        }
        proof {
            if start >= qlen {
                assert(entries_from(q, start as int, kc, vc) =~= Seq::<QueryEntry>::empty());
                assert(self@ =~= total);
            } else {
                // Every slot is full: the table holds the first
                // PARAM_COUNT entries.
                assert(self@.len() == PARAM_COUNT);
                if total.len() <= PARAM_COUNT {
                    assert(entries_from(q, start as int, kc, vc).len() == 0);
                    assert(self@ =~= total);
                } else {
                    assert(total.take(PARAM_COUNT as int) =~= self@);
                }
            }
        }
    }

    /// Returns the value of the first parameter whose key equals `key`,
    /// byte for byte; `None` when no stored key matches.
    pub fn get<'a>(&'a self, key: &str) -> (r: Option<&'a str>)
        requires
            self.wf(),
        ensures
            match r {
                Some(v) => spec_get(self@, key@) == Some(v@),
                None => spec_get(self@, key@) is None,
            },
    {
        let mut i: usize = 0;
        while i < self.count
            invariant
                self.wf(),
                i <= self.count,
                forall|j: int| 0 <= j < i ==> (#[trigger] self@[j]).0 != key@,
            decreases self.count - i,
        {
            let p = array_index_get(&self.params, i);
            if p.key.eq_str(key) {
                proof {
                    lemma_spec_get_found(self@, key@, i as int);
                }
                return Some(p.value.as_str());
            }
            i += 1;
        }
        proof {
            lemma_spec_get_none(self@, key@);
        }
        None
    }

    /// Returns the number of parameters stored.
    pub fn len(&self) -> (r: usize)
        ensures
            r as int == self@.len(),
    {
        self.count
    }

    /// Returns true if no parameters are stored.
    pub fn is_empty(&self) -> (r: bool)
        ensures
            r == (self@.len() == 0),
    {
        self.count == 0
    }

    /// Returns the stored pairs, in parse order, as borrowed string
    /// slices. The result is determined by the table's contents alone,
    /// so repeated calls on an unmodified table return the same pairs.
    pub fn iter<'a>(&'a self) -> (r: Vec<(&'a str, &'a str)>)
        requires
            self.wf(),
        ensures
            r@.len() == self@.len(),
            forall|i: int|
                0 <= i < r@.len() ==> (#[trigger] r@[i]).0@ == self@[i].0 && r@[i].1@
                    == self@[i].1,
    {
        let mut out: Vec<(&'a str, &'a str)> = Vec::new();
        let mut i: usize = 0;
        while i < self.count
            invariant
                self.wf(),
                i <= self.count,
                out@.len() == i,
                forall|j: int|
                    0 <= j < i ==> (#[trigger] out@[j]).0@ == self@[j].0 && out@[j].1@
                        == self@[j].1,
            decreases self.count - i,
        {
            let p = array_index_get(&self.params, i);
            out.push((p.key(), p.value()));
            i += 1;
        }
        out
    }
}

impl StackQueryParams<MAX_PARAM_COUNT, MAX_KEY_SIZE, MAX_VALUE_SIZE> {
    /// Creates a table with the default size limits and immediately
    /// parses the given URL.
    pub fn new(url: &str) -> (r: Self)
        ensures
            r.wf(),
            r@ == spec_parse_url(
                url.spec_bytes(),
                MAX_PARAM_COUNT as int,
                MAX_KEY_SIZE as int,
                MAX_VALUE_SIZE as int,
            ),
    {
        Self::custom_new(url)
    }
}

} // verus!
