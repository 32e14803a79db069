//! Word counting benchmark: the input text is split at ASCII whitespace; chunks made
//! of ASCII letters only are words, counted per distinct word in a `hashbrown`
//! hash table; any other chunk counts as one special-character chunk.
use vstd::prelude::*;
use vstd::multiset::Multiset;

verus! {

// ---------------------------------------------------------------------------
// What a run computes
// ---------------------------------------------------------------------------

/// ASCII whitespace as `u8::is_ascii_whitespace` defines it: space, tab, line feed,
/// form feed and carriage return.
pub open spec fn is_ws(b: u8) -> bool {
    b == 32 || b == 9 || b == 10 || b == 12 || b == 13
}

/// An ASCII letter, as `u8::is_ascii_alphabetic` defines it.
pub open spec fn is_alpha(b: u8) -> bool {
    (65 <= b <= 90) || (97 <= b <= 122)
}

/// Whether `b` is ASCII whitespace (as `u8::is_ascii_whitespace`).
pub fn ascii_whitespace(b: u8) -> (r: bool)
    ensures
        r == is_ws(b),
{
    b == 32 || b == 9 || b == 10 || b == 12 || b == 13
}

/// Whether `b` is an ASCII letter (as `u8::is_ascii_alphabetic`).
pub fn ascii_alphabetic(b: u8) -> (r: bool)
    ensures
        r == is_alpha(b),
{
    (65 <= b && b <= 90) || (97 <= b && b <= 122)
}

/// The end of the run of non-whitespace bytes that goes on at `i`.
pub open spec fn chunk_end(t: Seq<u8>, i: int) -> int
    decreases t.len() - i,
{
    if i < 0 || i >= t.len() || is_ws(t[i]) {
        i
    } else {
        chunk_end(t, i + 1)
    }
}

/// A chunk (a maximal run of non-whitespace bytes) starts at `i`.
pub open spec fn starts_chunk(t: Seq<u8>, i: int) -> bool {
    0 <= i < t.len() && !is_ws(t[i]) && (i == 0 || is_ws(t[i - 1]))
}

/// The chunk that starts at `i`.
pub open spec fn chunk_at(t: Seq<u8>, i: int) -> Seq<u8> {
    t.subrange(i, chunk_end(t, i))
}

/// Every byte of `s` is an ASCII letter.
pub open spec fn all_alpha(s: Seq<u8>) -> bool {
    forall|k: int| 0 <= k < s.len() ==> is_alpha(#[trigger] s[k])
}

/// A word (a chunk of letters only) starts at `i`.
pub open spec fn starts_word(t: Seq<u8>, i: int) -> bool {
    starts_chunk(t, i) && all_alpha(chunk_at(t, i))
}

/// Number of chunks starting before `k` that are not words.
pub open spec fn specials_before(t: Seq<u8>, k: int) -> nat
    decreases k,
{
    if k <= 0 {
        0
    } else {
        specials_before(t, k - 1) + if starts_chunk(t, k - 1) && !starts_word(t, k - 1) {
            1nat
        } else {
            0nat
        }
    }
}

/// The distinct words starting before `k`.
pub open spec fn words_before(t: Seq<u8>, k: int) -> Set<Seq<u8>>
    decreases k,
{
    if k <= 0 {
        Set::empty()
    } else if starts_word(t, k - 1) {
        words_before(t, k - 1).insert(chunk_at(t, k - 1))
    } else {
        words_before(t, k - 1)
    }
}

/// How often the word `w` starts before `k`.
pub open spec fn occurrences_before(t: Seq<u8>, k: int, w: Seq<u8>) -> nat
    decreases k,
{
    if k <= 0 {
        0
    } else {
        occurrences_before(t, k - 1, w) + if starts_word(t, k - 1) && chunk_at(t, k - 1) == w {
            1nat
        } else {
            0nat
        }
    }
}

/// The special-character chunks of the whole text.
pub open spec fn special_count(t: Seq<u8>) -> nat {
    specials_before(t, t.len() as int)
}

/// The distinct words of the whole text.
pub open spec fn distinct_words(t: Seq<u8>) -> Set<Seq<u8>> {
    words_before(t, t.len() as int)
}

/// How often `w` occurs as a word in the whole text.
pub open spec fn occurrences(t: Seq<u8>, w: Seq<u8>) -> nat {
    occurrences_before(t, t.len() as int, w)
}

proof fn lemma_words_before_finite(t: Seq<u8>, k: int)
    ensures
        words_before(t, k).finite(),
        forall|w: Seq<u8>| #[trigger] words_before(t, k).contains(w) <==> occurrences_before(t, k, w) > 0,
    decreases k,
{
    if k > 0 {
        lemma_words_before_finite(t, k - 1);
    }
}

/// Nothing starts strictly inside a chunk nor at its end.
proof fn lemma_no_starts_inside(t: Seq<u8>, s: int, x: int)
    requires
        starts_chunk(t, s),
        s < x <= chunk_end(t, s),
    ensures
        words_before(t, x) == words_before(t, s + 1),
        specials_before(t, x) == specials_before(t, s + 1),
        forall|w: Seq<u8>| #[trigger] occurrences_before(t, x, w) == occurrences_before(t, s + 1, w),
    decreases x - s,
{
    if x > s + 1 {
        lemma_no_starts_inside(t, s, x - 1);
        lemma_chunk_interior(t, s, x - 2);
        assert(!starts_chunk(t, x - 1));
        assert forall|w: Seq<u8>| #[trigger] occurrences_before(t, x, w) == occurrences_before(
            t,
            s + 1,
            w,
        ) by {
            assert(occurrences_before(t, x - 1, w) == occurrences_before(t, s + 1, w));
        }
    }
}

/// The bytes from `s` up to `chunk_end(t, s)` are not whitespace.
proof fn lemma_chunk_interior(t: Seq<u8>, s: int, x: int)
    requires
        0 <= s <= x < chunk_end(t, s),
    ensures
        !is_ws(t[x]),
        x < t.len(),
        chunk_end(t, x) == chunk_end(t, s),
    decreases x - s,
{
    if x > s {
        lemma_chunk_interior(t, s + 1, x);
    }
}

proof fn lemma_chunk_end_bounds(t: Seq<u8>, i: int)
    requires
        0 <= i <= t.len(),
    ensures
        i <= chunk_end(t, i) <= t.len(),
        chunk_end(t, i) < t.len() ==> is_ws(t[chunk_end(t, i)]),
    decreases t.len() - i,
{
    if i < t.len() && !is_ws(t[i]) {
        lemma_chunk_end_bounds(t, i + 1);
    }
}


// ---------------------------------------------------------------------------
// The table, behind trusted items
// ---------------------------------------------------------------------------

/// A counted word: the range of its first occurrence in the text, how often it
/// occurred, and the hash it is filed under.
pub struct WordEntry {
    pub hash: u64,
    pub start: usize,
    pub len: usize,
    pub count: usize,
}

/// A `WordEntry` as a tuple `(hash, start, len, count)`.
pub open spec fn entry_view(e: WordEntry) -> (u64, usize, usize, usize) {
    (e.hash, e.start, e.len, e.count)
}

/// A size below which the table's allocations cannot overflow `isize`.
pub open spec fn table_size_limit() -> nat {
    (isize::MAX as nat) / 128
}

/// A `hashbrown::HashTable<WordEntry>` together with the randomly seeded hash builder
/// (`hashbrown::DefaultHashBuilder`) that its entries are hashed with.
#[verifier::external_body]
pub struct WordTable {
    table: hashbrown::HashTable<WordEntry>,
    hash_builder: foldhash::fast::RandomState,
}

/// The entries of the table, as tuples `(hash, start, len, count)`.
pub uninterp spec fn word_table_entries(t: WordTable) -> Multiset<(u64, usize, usize, usize)>;

/// The hash that the table's builder gives each byte string. The builder is seeded at
/// random when the table is made; it stays the same for the table's life.
pub uninterp spec fn word_table_hasher(t: WordTable) -> Map<Seq<u8>, u64>;

/// The bytes of `text` from `start` on, `len` of them, when they lie within `text`.
pub open spec fn same_range(text: Seq<u8>, start: int, len: int, other_start: int, other_len: int) -> bool {
    &&& 0 <= start
    &&& 0 <= len
    &&& start + len <= text.len()
    &&& 0 <= other_start
    &&& 0 <= other_len
    &&& other_start + other_len <= text.len()
    &&& text.subrange(start, start + len) == text.subrange(other_start, other_start + other_len)
}

/// Whether the `len` bytes at `start` equal the `other_len` bytes at `other_start`;
/// false when either range leaves `text`.
pub fn same_word(text: &[u8], start: usize, len: usize, other_start: usize, other_len: usize) -> (r: bool)
    ensures
        r == same_range(text@, start as int, len as int, other_start as int, other_len as int),
{
    if start > text.len() || len > text.len() - start || other_start > text.len() || other_len
        > text.len() - other_start || len != other_len {
        proof {
            if start as int + len as int <= text@.len() && other_start as int + other_len as int
                <= text@.len() {
                assert(text@.subrange(start as int, start + len).len() != text@.subrange(
                    other_start as int,
                    other_start + other_len,
                ).len());
            }
        }
        return false;
    }
    let ghost a = text@.subrange(start as int, start + len);
    let ghost b = text@.subrange(other_start as int, other_start + len);
    let mut k: usize = 0;
    while k < len
        invariant
            start + len <= text.len(),
            other_start + len <= text.len(),
            len == other_len,
            a == text@.subrange(start as int, start + len),
            b == text@.subrange(other_start as int, other_start + len),
            k <= len,
            forall|x: int| 0 <= x < k ==> #[trigger] a[x] == b[x],
        decreases len - k,
    {
        if text[start + k] != text[other_start + k] {
            assert(a[k as int] != b[k as int]);
            return false;
        }
        k = k + 1;
    }
    assert(a =~= b);
    true
}

/// Whether `e` is filed under `hash` and its range holds the same bytes as the
/// `chunk_len` bytes at `chunk_start`.
pub fn entry_matches(e: &WordEntry, hash: u64, text: &[u8], chunk_start: usize, chunk_len: usize) -> (r: bool)
    ensures
        r == (e.hash == hash && same_range(text@, e.start as int, e.len as int, chunk_start as int, chunk_len as int)),
{
    e.hash == hash && same_word(text, e.start, e.len, chunk_start, chunk_len)
}

impl WordTable {
    /// The entries, as tuples `(hash, start, len, count)`.
    pub open spec fn entries(&self) -> Multiset<(u64, usize, usize, usize)> {
        word_table_entries(*self)
    }

    /// The hash function of the table's builder.
    pub open spec fn hasher(&self) -> Map<Seq<u8>, u64> {
        word_table_hasher(*self)
    }

    /// Calls `hashbrown::HashTable::new`: a table with no entries, hashing with `builder`,
    /// which hashes every byte string.
    #[verifier::external_body]
    fn with_hasher(builder: foldhash::fast::RandomState) -> (r: WordTable)
        ensures
            word_table_entries(r) =~= Multiset::empty(),
            forall|w: Seq<u8>| #[trigger] word_table_hasher(r).dom().contains(w),
    {
        WordTable { table: hashbrown::HashTable::new(), hash_builder: builder }
    }

    /// Calls `hashbrown::HashTable::clear`: no entries are left; the builder stays.
    #[verifier::external_body]
    fn clear(&mut self)
        ensures
            word_table_entries(*final(self)) =~= Multiset::empty(),
            word_table_hasher(*final(self)) == word_table_hasher(*old(self)),
    {
        self.table.clear();
    }

    /// Calls `hashbrown::HashTable::len`: the number of entries.
    #[verifier::external_body]
    fn len(&self) -> (r: usize)
        ensures
            r == word_table_entries(*self).len(),
    {
        self.table.len()
    }

    /// Calls `BuildHasher::hash_one` on the table's builder: the hash of `word`.
    #[verifier::external_body]
    fn hash_word(&self, word: &[u8]) -> (r: u64)
        ensures
            r == word_table_hasher(*self)[word@],
    {
        std::hash::BuildHasher::hash_one(&self.hash_builder, word)
    }

    /// Calls `hashbrown::HashTable::find_mut` with `entry_matches` as the equality, and
    /// hands out the count field of the entry found: an entry filed under `hash` whose
    /// range holds the same bytes as the `chunk_len` bytes at `chunk_start`.
    /// `find_mut` tests every entry filed under `hash`, so it finds one whenever there
    /// is one; each entry is filed under its `hash` field, which only `insert_unique`
    /// sets, and only the count can be changed through the returned reference.
    #[verifier::external_body]
    fn find_count_mut(&mut self, hash: u64, text: &[u8], chunk_start: usize, chunk_len: usize) -> (r: Option<&mut usize>)
        ensures
            word_table_hasher(*final(self)) == word_table_hasher(*old(self)),
            r matches Some(c) ==> exists|v: (u64, usize, usize, usize)| {
                &&& #[trigger] word_table_entries(*old(self)).contains(v)
                &&& v.0 == hash
                &&& same_range(text@, v.1 as int, v.2 as int, chunk_start as int, chunk_len as int)
                &&& v.3 == *c
                &&& word_table_entries(*final(self)) == word_table_entries(*old(self)).remove(v).insert((v.0, v.1, v.2, *final(c)))
            },
            r is None ==> {
                &&& word_table_entries(*final(self)) == word_table_entries(*old(self))
                &&& forall|v: (u64, usize, usize, usize)| #[trigger] word_table_entries(*old(self)).contains(v) && v.0 == hash ==> !same_range(text@, v.1 as int, v.2 as int, chunk_start as int, chunk_len as int)
            },
    {
        let eq = |e: &WordEntry| entry_matches(e, hash, text, chunk_start, chunk_len);
        self.table.find_mut(hash, eq).map(|e| &mut e.count)
    }

    /// Calls `hashbrown::HashTable::insert_unique`, filing `entry` under its `hash`
    /// field and rehashing by that field.
    #[verifier::external_body]
    fn insert_unique(&mut self, entry: WordEntry)
        requires
            word_table_entries(*old(self)).len() < table_size_limit(),
        ensures
            word_table_entries(*final(self)) == word_table_entries(*old(self)).insert(entry_view(entry)),
            word_table_hasher(*final(self)) == word_table_hasher(*old(self)),
    {
        let hash = entry.hash;
        self.table.insert_unique(hash, entry, |e| e.hash);
    }
}


// ---------------------------------------------------------------------------
// The benchmark
// ---------------------------------------------------------------------------

/// The bytes an entry `(hash, start, len, count)` points at.
pub open spec fn word_of(t: Seq<u8>, v: (u64, usize, usize, usize)) -> Seq<u8> {
    t.subrange(v.1 as int, v.1 + v.2)
}

/// The table holds, for every distinct word starting before `k`, exactly one entry:
/// it points at that word, is filed under the word's hash and counts its occurrences.
pub open spec fn table_tracks(
    t: Seq<u8>,
    k: int,
    entries: Multiset<(u64, usize, usize, usize)>,
    hasher: Map<Seq<u8>, u64>,
) -> bool {
    &&& entries.len() == words_before(t, k).len()
    &&& forall|w: Seq<u8>| #[trigger] words_before(t, k).contains(w) ==> exists|v: (u64, usize, usize, usize)| #[trigger] entries.contains(v) && word_of(t, v) == w
    &&& forall|v: (u64, usize, usize, usize)| #[trigger] entries.contains(v) ==> {
        &&& v.1 + v.2 <= t.len()
        &&& words_before(t, k).contains(word_of(t, v))
        &&& v.0 == hasher[word_of(t, v)]
        &&& v.3 == occurrences_before(t, k, word_of(t, v))
        &&& entries.count(v) == 1
    }
    &&& forall|v1: (u64, usize, usize, usize), v2: (u64, usize, usize, usize)| #[trigger] entries.contains(v1) && #[trigger] entries.contains(v2) && word_of(t, v1) == word_of(t, v2) ==> v1 == v2
}

proof fn lemma_counts_bounded(t: Seq<u8>, k: int)
    requires
        k >= 0,
    ensures
        specials_before(t, k) <= k,
        words_before(t, k).len() <= k,
        words_before(t, k).finite(),
        forall|w: Seq<u8>| #[trigger] occurrences_before(t, k, w) <= k,
    decreases k,
{
    if k > 0 {
        lemma_counts_bounded(t, k - 1);
        assert forall|w: Seq<u8>| #[trigger] occurrences_before(t, k, w) <= k by {
            assert(occurrences_before(t, k - 1, w) <= k - 1);
        }
    }
}

/// State of the word counting benchmark.
pub struct Data {
    /// The input text whose words are counted, filled in by the host.
    text: Vec<u8>,
    /// Table from each distinct word to its number of occurrences, cleared (not
    /// reallocated) between runs.
    table: WordTable,
    /// Number of special-character chunks seen in the most recent run.
    special_chars: usize,
}

impl Data {
    pub closed spec fn text_bytes(&self) -> Seq<u8> {
        self.text@
    }

    /// Number of distinct words in the table.
    pub closed spec fn unique_count(&self) -> nat {
        self.table.entries().len()
    }

    pub closed spec fn special_count_value(&self) -> nat {
        self.special_chars as nat
    }

    /// The entries of the table, as `(hash, start, len, count)`.
    pub closed spec fn table_entries(&self) -> Multiset<(u64, usize, usize, usize)> {
        self.table.entries()
    }

    /// Returns the number of distinct words counted in the latest run.
    pub fn len_unique_words(&self) -> (r: usize)
        ensures
            r == self.unique_count(),
    {
        self.table.len()
    }

    /// Returns the number of special-character chunks counted in the latest run.
    pub fn len_special_chars(&self) -> (r: usize)
        ensures
            r == self.special_count_value(),
    {
        self.special_chars
    }

    /// The input text.
    pub fn text(&self) -> (r: &[u8])
        ensures
            r@ == self.text_bytes(),
    {
        self.text.as_slice()
    }

    /// The input text, for the host to fill.
    pub fn text_mut(&mut self) -> (r: &mut [u8])
        ensures
            r@ == old(self).text_bytes(),
            final(self).text_bytes() == final(r)@,
            final(self).unique_count() == old(self).unique_count(),
            final(self).special_count_value() == old(self).special_count_value(),
    {
        self.text.as_mut_slice()
    }
}

/// Reserves a zeroed text of `size` bytes and an empty table.
pub fn setup(size: usize) -> (r: Box<Data>)
    ensures
        r.text_bytes() == Seq::new(size as nat, |i: int| 0u8),
        r.unique_count() == 0,
        r.special_count_value() == 0,
{
    let table = WordTable::with_hasher(crate::hashmap::new_random_state());
    let r = Box::new(Data { text: vec![0u8; size], table, special_chars: 0 });
    proof {
        assert(r.text@ =~= Seq::new(size as nat, |i: int| 0u8));
    }
    r
}

/// The end of the chunk that starts at `s`, and whether it holds letters only.
fn scan_chunk(text: &[u8], s: usize) -> (r: (usize, bool))
    requires
        s < text@.len(),
    ensures
        r.0 == chunk_end(text@, s as int),
        s <= r.0 <= text@.len(),
        r.1 == all_alpha(text@.subrange(s as int, r.0 as int)),
{
    let mut j = s;
    let mut alpha = true;
    while j < text.len() && !ascii_whitespace(text[j])
        invariant
            s <= j <= text@.len(),
            chunk_end(text@, s as int) == chunk_end(text@, j as int),
            alpha == all_alpha(text@.subrange(s as int, j as int)),
        decreases text@.len() - j,
    {
        if !ascii_alphabetic(text[j]) {
            alpha = false;
        }
        proof {
            let before = text@.subrange(s as int, j as int);
            let after = text@.subrange(s as int, j + 1);
            assert forall|k: int| 0 <= k < before.len() implies before[k] == after[k] by {}
            if alpha {
                assert forall|k: int| 0 <= k < after.len() implies is_alpha(#[trigger] after[k]) by {
                    if k < before.len() {
                        assert(before[k] == after[k]);
                    }
                }
            } else if all_alpha(before) {
                assert(!is_alpha(after[j - s]));
            } else {
                let k = choose|k: int| 0 <= k < before.len() && !is_alpha(#[trigger] before[k]);
                assert(before[k] == after[k]);
            }
        }
        j = j + 1;
    }
    (j, alpha)
}


/// Facts on the prefix sums when a word starts at `s`.
proof fn lemma_word_step(t: Seq<u8>, s: int)
    requires
        starts_word(t, s),
    ensures
        words_before(t, chunk_end(t, s)) == words_before(t, s).insert(chunk_at(t, s)),
        specials_before(t, chunk_end(t, s)) == specials_before(t, s),
        forall|w: Seq<u8>| #[trigger] occurrences_before(t, chunk_end(t, s), w) == occurrences_before(t, s, w) + if w == chunk_at(t, s) { 1nat } else { 0nat },
{
    lemma_chunk_end_bounds(t, s);
    assert(chunk_end(t, s) > s) by {
        assert(!is_ws(t[s]));
    }
    lemma_no_starts_inside(t, s, chunk_end(t, s));
}

/// Facts on the prefix sums when a chunk that is no word starts at `s`.
proof fn lemma_special_step(t: Seq<u8>, s: int)
    requires
        starts_chunk(t, s),
        !starts_word(t, s),
    ensures
        words_before(t, chunk_end(t, s)) == words_before(t, s),
        specials_before(t, chunk_end(t, s)) == specials_before(t, s) + 1,
        forall|w: Seq<u8>| #[trigger] occurrences_before(t, chunk_end(t, s), w) == occurrences_before(t, s, w),
{
    lemma_chunk_end_bounds(t, s);
    assert(chunk_end(t, s) > s) by {
        assert(!is_ws(t[s]));
    }
    lemma_no_starts_inside(t, s, chunk_end(t, s));
}

/// `table_tracks` carries over between two positions with the same words and counts.
proof fn lemma_tracks_same(
    t: Seq<u8>,
    k1: int,
    k2: int,
    entries: Multiset<(u64, usize, usize, usize)>,
    hasher: Map<Seq<u8>, u64>,
)
    requires
        table_tracks(t, k1, entries, hasher),
        words_before(t, k2) == words_before(t, k1),
        forall|w: Seq<u8>| #[trigger] occurrences_before(t, k2, w) == occurrences_before(t, k1, w),
    ensures
        table_tracks(t, k2, entries, hasher),
{
    assert forall|v: (u64, usize, usize, usize)| #[trigger] entries.contains(v) implies v.3
        == occurrences_before(t, k2, word_of(t, v)) by {
        assert(occurrences_before(t, k2, word_of(t, v)) == occurrences_before(t, k1, word_of(t, v)));
    }
}

/// Counting one more occurrence of a word the table already holds.
proof fn lemma_tracks_found(
    t: Seq<u8>,
    s: int,
    entries: Multiset<(u64, usize, usize, usize)>,
    hasher: Map<Seq<u8>, u64>,
    v: (u64, usize, usize, usize),
    v2: (u64, usize, usize, usize),
)
    requires
        table_tracks(t, s, entries, hasher),
        starts_word(t, s),
        entries.contains(v),
        word_of(t, v) == chunk_at(t, s),
        v.3 + 1 <= usize::MAX,
        v2 == (v.0, v.1, v.2, (v.3 + 1) as usize),
    ensures
        table_tracks(t, chunk_end(t, s), entries.remove(v).insert(v2), hasher),
{
    broadcast use vstd::multiset::group_multiset_axioms;

    let j = chunk_end(t, s);
    let w = chunk_at(t, s);
    lemma_word_step(t, s);
    let e2 = entries.remove(v).insert(v2);
    let wb = words_before(t, s);
    assert(wb.contains(w));
    assert(wb.insert(w) == wb);
    assert forall|u: (u64, usize, usize, usize)| #[trigger] entries.remove(v).contains(u) implies u
        != v2 && entries.contains(u) && u != v by {
        if u == v {
            assert(entries.count(v) == 1);
        }
        assert(entries.contains(u));
        if word_of(t, u) == w {
            assert(u == v);
        }
    }
    assert forall|u: (u64, usize, usize, usize)| #[trigger] e2.contains(u) implies u == v2 || (
    entries.contains(u) && u != v) by {}
    assert forall|w2: Seq<u8>| #[trigger] words_before(t, j).contains(w2) implies exists|
        u: (u64, usize, usize, usize),
    | #[trigger] e2.contains(u) && word_of(t, u) == w2 by {
        if w2 == w {
            assert(e2.contains(v2));
            assert(word_of(t, v2) == w);
        } else {
            let u = choose|u: (u64, usize, usize, usize)| #[trigger] entries.contains(u) && word_of(t, u) == w2;
            assert(u != v);
            assert(e2.contains(u));
        }
    }
    assert forall|u: (u64, usize, usize, usize)| #[trigger] e2.contains(u) implies {
        &&& u.1 + u.2 <= t.len()
        &&& words_before(t, j).contains(word_of(t, u))
        &&& u.0 == hasher[word_of(t, u)]
        &&& u.3 == occurrences_before(t, j, word_of(t, u))
        &&& e2.count(u) == 1
    } by {
        if u == v2 {
            assert(!entries.remove(v).contains(v2));
        } else {
            assert(entries.contains(u) && u != v);
            assert(word_of(t, u) != w);
            assert(entries.remove(v).count(u) == 1);
        }
    }
    assert forall|u1: (u64, usize, usize, usize), u2: (u64, usize, usize, usize)| #[trigger] e2.contains(u1) && #[trigger] e2.contains(u2) && word_of(t, u1) == word_of(t, u2) implies u1 == u2 by {
        if u1 != v2 && u2 != v2 {
            assert(entries.contains(u1) && entries.contains(u2));
        } else if u1 == v2 && u2 != v2 {
            assert(entries.contains(u2) && u2 != v);
            assert(word_of(t, u2) != w);
        } else if u1 != v2 && u2 == v2 {
            assert(entries.contains(u1) && u1 != v);
            assert(word_of(t, u1) != w);
        }
    }
    assert(e2.len() == entries.len());
}

/// Filing a word that the table does not hold yet.
proof fn lemma_tracks_new(
    t: Seq<u8>,
    s: int,
    entries: Multiset<(u64, usize, usize, usize)>,
    hasher: Map<Seq<u8>, u64>,
    v2: (u64, usize, usize, usize),
)
    requires
        table_tracks(t, s, entries, hasher),
        starts_word(t, s),
        0 <= s,
        chunk_end(t, s) <= t.len(),
        t.len() <= usize::MAX,
        v2 == (hasher[chunk_at(t, s)], s as usize, (chunk_end(t, s) - s) as usize, 1usize),
        forall|u: (u64, usize, usize, usize)| #[trigger] entries.contains(u) && u.0 == v2.0 ==> !same_range(t, u.1 as int, u.2 as int, s, chunk_end(t, s) - s),
    ensures
        table_tracks(t, chunk_end(t, s), entries.insert(v2), hasher),
{
    broadcast use vstd::multiset::group_multiset_axioms;

    let j = chunk_end(t, s);
    let w = chunk_at(t, s);
    lemma_chunk_end_bounds(t, s);
    lemma_word_step(t, s);
    lemma_words_before_finite(t, s);
    assert(v2.1 == s && v2.2 == j - s);
    let wb = words_before(t, s);
    assert(word_of(t, v2) == w);
    assert(!wb.contains(w)) by {
        if wb.contains(w) {
            let u = choose|u: (u64, usize, usize, usize)| #[trigger] entries.contains(u) && word_of(t, u) == w;
            assert(same_range(t, u.1 as int, u.2 as int, s, j - s));
        }
    }
    assert(!entries.contains(v2));
    let e2 = entries.insert(v2);
    assert forall|w2: Seq<u8>| #[trigger] words_before(t, j).contains(w2) implies exists|
        u: (u64, usize, usize, usize),
    | #[trigger] e2.contains(u) && word_of(t, u) == w2 by {
        if w2 == w {
            assert(e2.contains(v2));
        } else {
            let u = choose|u: (u64, usize, usize, usize)| #[trigger] entries.contains(u) && word_of(t, u) == w2;
            assert(e2.contains(u));
        }
    }
    assert forall|u: (u64, usize, usize, usize)| #[trigger] e2.contains(u) implies {
        &&& u.1 + u.2 <= t.len()
        &&& words_before(t, j).contains(word_of(t, u))
        &&& u.0 == hasher[word_of(t, u)]
        &&& u.3 == occurrences_before(t, j, word_of(t, u))
        &&& e2.count(u) == 1
    } by {
        if u == v2 {
            assert(occurrences_before(t, s, w) == 0);
        } else {
            assert(entries.contains(u));
            assert(word_of(t, u) != w);
        }
    }
    assert forall|u1: (u64, usize, usize, usize), u2: (u64, usize, usize, usize)| #[trigger] e2.contains(u1) && #[trigger] e2.contains(u2) && word_of(t, u1) == word_of(t, u2) implies u1 == u2 by {
        if u1 != v2 && u2 != v2 {
            assert(entries.contains(u1) && entries.contains(u2));
        } else if u1 == v2 && u2 != v2 {
            assert(entries.contains(u2));
        } else if u1 != v2 && u2 == v2 {
            assert(entries.contains(u1));
        }
    }
    assert(words_before(t, j).len() == wb.len() + 1);
}

/// Counts the words and the special-character chunks of the text.
pub fn run(data: &mut Data)
    requires
        old(data).text_bytes().len() <= table_size_limit(),
    ensures
        final(data).text_bytes() == old(data).text_bytes(),
        final(data).special_count_value() == special_count(old(data).text_bytes()),
        final(data).unique_count() == distinct_words(old(data).text_bytes()).len(),
        forall|w: Seq<u8>| #[trigger] distinct_words(old(data).text_bytes()).contains(w) ==> exists|v: (u64, usize, usize, usize)| #[trigger] final(data).table_entries().contains(v) && word_of(old(data).text_bytes(), v) == w,
        forall|v: (u64, usize, usize, usize)| #[trigger] final(data).table_entries().contains(v) ==> {
            &&& distinct_words(old(data).text_bytes()).contains(word_of(old(data).text_bytes(), v))
            &&& v.3 == occurrences(old(data).text_bytes(), word_of(old(data).text_bytes(), v))
            &&& final(data).table_entries().count(v) == 1
        },
        forall|v1: (u64, usize, usize, usize), v2: (u64, usize, usize, usize)| #[trigger] final(data).table_entries().contains(v1) && #[trigger] final(data).table_entries().contains(v2) && word_of(old(data).text_bytes(), v1) == word_of(old(data).text_bytes(), v2) ==> v1 == v2,
{
    let ghost t = data.text@;
    data.table.clear();
    let mut specials: usize = 0;
    let n = data.text.len();
    let mut i: usize = 0;
    proof {
        assert(words_before(t, 0) =~= Set::empty());
    }
    while i < n
        invariant
            data.text@ == t,
            n == t.len(),
            i <= n,
            n <= table_size_limit(),
            i == 0 || is_ws(t[i - 1]) || i == n || is_ws(t[i as int]),
            specials == specials_before(t, i as int),
            table_tracks(t, i as int, data.table.entries(), data.table.hasher()),
        decreases n - i,
    {
        if ascii_whitespace(data.text[i]) {
            proof {
                assert(!starts_chunk(t, i as int));
                assert(specials_before(t, i + 1) == specials_before(t, i as int));
                assert(words_before(t, i + 1) == words_before(t, i as int));
                lemma_tracks_same(t, i as int, i + 1, data.table.entries(), data.table.hasher());
            }
            i = i + 1;
        } else {
            let s = i;
            proof {
                lemma_counts_bounded(t, s as int);
            }
            let (j, alpha) = scan_chunk(data.text.as_slice(), s);
            assert(starts_chunk(t, s as int));
            proof {
                lemma_chunk_end_bounds(t, s as int);
            }
            if !alpha {
                proof {
                    lemma_special_step(t, s as int);
                    lemma_tracks_same(t, s as int, j as int, data.table.entries(), data.table.hasher());
                }
                specials = specials + 1;
            } else {
                proof {
                    lemma_word_step(t, s as int);
                }
                let ghost e0 = data.table.entries();
                let ghost h0 = data.table.hasher();
                let word = vstd::slice::slice_subrange(data.text.as_slice(), s, j);
                let hash = data.table.hash_word(word);
                match data.table.find_count_mut(hash, data.text.as_slice(), s, j - s) {
                    Some(count) => {
                        let ghost v = choose|v: (u64, usize, usize, usize)| {
                            &&& #[trigger] e0.contains(v)
                            &&& v.0 == hash
                            &&& same_range(t, v.1 as int, v.2 as int, s as int, (j - s) as int)
                            &&& v.3 == *count
                            &&& word_table_entries(after_borrow(data.table)) == e0.remove(v).insert((v.0, v.1, v.2, *final(count)))
                        };
                        assert(word_of(t, v) == chunk_at(t, s as int));
                        assert(*count < n);
                        *count = *count + 1;
                        proof {
                            lemma_tracks_found(t, s as int, e0, h0, v, (v.0, v.1, v.2, (v.3 + 1) as usize));
                        }
                    },
                    None => {
                        assert(e0.len() < table_size_limit());
                        data.table.insert_unique(WordEntry { hash, start: s, len: j - s, count: 1 });
                        proof {
                            lemma_tracks_new(t, s as int, e0, h0, (hash, s, (j - s) as usize, 1usize));
                        }
                    },
                }
            }
            i = j;
        }
    }
    data.special_chars = specials;
    proof {
        let e = data.table.entries();
        assert forall|w: Seq<u8>| #[trigger] distinct_words(t).contains(w) implies exists|
            v: (u64, usize, usize, usize),
        | #[trigger] data.table_entries().contains(v) && word_of(t, v) == w by {
            assert(words_before(t, n as int).contains(w));
            let v = choose|v: (u64, usize, usize, usize)| #[trigger] e.contains(v) && word_of(t, v) == w;
            assert(data.table_entries().contains(v));
        }
    }
}

} // verus!
