//! Collection utilities: lazily described sequences, a zipped map, and an
//! ordered dictionary.

use crate::probability::{first_index, lemma_first_index, Sample};
use crate::text::{grapheme_count, grapheme_split, graphemes_of};
use vstd::prelude::*;

verus! {

use vstd::string::StringExecFns;

/// A read-only sequence whose values are computed as needed.  Such
/// sequences act like tuples: they can be measured and iterated over, but
/// not modified.  An implementation states its abstract length and
/// answers it exactly.
pub trait AbstractLazySequence: Sized {
    /// The number of items of the sequence.
    spec fn spec_len(&self) -> nat;

    /// Return the number of items of the sequence.
    fn len(&self) -> (r: usize)
        ensures
            r == self.spec_len();

    /// Whether the sequence has no items.
    fn is_empty(&self) -> (r: bool)
        ensures
            r == (self.spec_len() == 0);
}

/// A subsequence over an owned piece of text, measured and iterated in
/// extended grapheme clusters.
#[derive(Debug, Clone)]
pub struct LazySubsequence {
    source: String,
}

impl LazySubsequence {
    /// The characters of the underlying text.
    pub closed spec fn chars(&self) -> Seq<char> {
        self.source@
    }

    /// Construct a new subsequence over the given text.
    pub fn new(s: &str) -> (r: Self)
        ensures
            r.chars() == s@,
    {
        LazySubsequence { source: s.to_owned() }
    }

    /// The text concatenated with itself `count` times.
    pub fn repeat(self, count: usize) -> (r: Self)
        ensures
            r.chars() == repeat_chars(self.chars(), count as nat),
    {
        let mut out = String::new();
        let mut i: usize = 0;
        while i < count
            invariant
                i <= count,
                out@ == repeat_chars(self.source@, i as nat),
            decreases count - i,
        {
            out.append(self.source.as_str());
            i = i + 1;
        }
        LazySubsequence { source: out }
    }

    /// The text of this subsequence followed by the text of `other`.
    pub fn concat(self, other: Self) -> (r: Self)
        ensures
            r.chars() == self.chars() + other.chars(),
    {
        let mut out = self.source;
        out.append(other.source.as_str());
        LazySubsequence { source: out }
    }

    /// The grapheme clusters of the text starting at cluster number
    /// `start`; past the end, no clusters at all.
    pub fn iterate_from(&self, start: usize) -> (r: Vec<String>)
        ensures
            start <= graphemes_of(self.chars()).len() ==> r@.map_values(|t: String| t@)
                == graphemes_of(self.chars()).skip(start as int),
            start > graphemes_of(self.chars()).len() ==> r@.len() == 0,
    {
        let gs = grapheme_split(self.source.as_str());
        let mut r: Vec<String> = Vec::new();
        if start > gs.len() {
            return r;
        }
        let mut i: usize = start;
        while i < gs.len()
            invariant
                gs@.map_values(|g: &str| g@) == graphemes_of(self.source@),
                start <= i <= gs@.len(),
                r@.len() == i - start,
                forall|j: int|
                    0 <= j < r@.len() ==> (#[trigger] r@[j])@ == graphemes_of(self.source@)[start
                        + j],
            decreases gs@.len() - i,
        {
            let g: &str = gs[i];
            proof {
                assert(g@ == graphemes_of(self.source@)[i as int]);
            }
            r.push(g.to_owned());
            i = i + 1;
        }
        proof {
            assert(r@.map_values(|t: String| t@) =~= graphemes_of(self.chars()).skip(
                start as int,
            ));
        }
        r
    }
}

impl AbstractLazySequence for LazySubsequence {
    /// The number of grapheme clusters of the underlying text.
    open spec fn spec_len(&self) -> nat {
        graphemes_of(self.chars()).len()
    }

    fn len(&self) -> (r: usize) {
        grapheme_count(self.source.as_str())
    }

    fn is_empty(&self) -> (r: bool) {
        self.len() == 0
    }
}

/// The run `s` concatenated with itself `n` times.
pub open spec fn repeat_chars(s: Seq<char>, n: nat) -> Seq<char>
    decreases n,
{
    if n == 0 {
        Seq::empty()
    } else {
        repeat_chars(s, (n - 1) as nat) + s
    }
}

/// A sequence of pairs holding, for each key of the first input run, the
/// value standing at the matching position of the second run; the inputs
/// are truncated to the shorter of the two, and a key occurring several
/// times keeps the value of its last occurrence.
#[derive(Debug, Clone)]
pub struct LazyZip<K: Sample + Copy, V: Copy> {
    entries: Vec<(K, V)>,
}

impl<K: Sample + Copy, V: Copy> LazyZip<K, V> {
    /// The stored pairs, in insertion order of their keys.
    pub closed spec fn pairs(&self) -> Seq<(K, V)> {
        self.entries@
    }

    /// No two stored pairs hold the same key.
    pub open spec fn wf(&self) -> bool {
        forall|e1: int, e2: int|
            0 <= e1 < e2 < self.pairs().len() ==> (#[trigger] self.pairs()[e1]).0@ != (
            #[trigger] self.pairs()[e2]).0@
    }

    /// Pair the `p`-th key of `first` with the `p`-th value of `sec`, for
    /// every position the two runs share; all other positions are tossed
    /// out, and a key occurring several times keeps its last value.
    pub fn new(first: &[K], sec: &[V]) -> (r: Self)
        ensures
            r.wf(),
            forall|p: int|
                0 <= p < min(first@.len() as int, sec@.len() as int) ==> has_key(
                    r.pairs(),
                    (#[trigger] first@[p])@,
                ),
            forall|e: int|
                0 <= e < r.pairs().len() ==> pair_from(
                    #[trigger] r.pairs()[e],
                    first@,
                    sec@,
                    min(first@.len() as int, sec@.len() as int),
                ),
    {
        let list_size = if first.len() < sec.len() {
            first.len()
        } else {
            sec.len()
        };
        let ghost n = min(first@.len() as int, sec@.len() as int);
        let mut entries: Vec<(K, V)> = Vec::new();
        let ghost mut src: Seq<int> = Seq::empty();
        let ghost mut pos: Map<<K as View>::V, int> = Map::empty();
        let mut p: usize = 0;
        while p < list_size
            invariant
                n == min(first@.len() as int, sec@.len() as int),
                list_size == n,
                p <= list_size,
                src.len() == entries@.len(),
                forall|e1: int, e2: int|
                    0 <= e1 < e2 < entries@.len() ==> (#[trigger] entries@[e1]).0@ != (
                    #[trigger] entries@[e2]).0@,
                forall|e: int|
                    0 <= e < entries@.len() ==> 0 <= #[trigger] src[e] < p && entries@[e].0@
                        == first@[src[e]]@ && entries@[e].1 == sec@[src[e]] && (forall|q: int|
                        src[e] < q < p ==> first@[q]@ != entries@[e].0@),
                forall|q: int|
                    0 <= q < p ==> pos.dom().contains(#[trigger] first@[q]@) && 0 <= pos[first@[q]@]
                        < entries@.len() && entries@[pos[first@[q]@]].0@ == first@[q]@,
            decreases list_size - p,
        {
            let key = first[p];
            let val = sec[p];
            proof {
                assert(key@ == first@[p as int]@);
            }
            let ghost before = entries@;
            match find_pair_index(&entries, &key) {
                Some(e) => {
                    entries[e].1 = val;
                    proof {
                        src = src.update(e as int, p as int);
                        pos = pos.insert(key@, e as int);
                        assert forall|x: int| 0 <= x < entries@.len() implies (
                        #[trigger] entries@[x]).0 == before[x].0 by {}
                    }
                },
                None => {
                    entries.push((key, val));
                    proof {
                        src = src.push(p as int);
                        pos = pos.insert(key@, entries@.len() - 1);
                    }
                },
            }
            p = p + 1;
        }
        let r = LazyZip { entries };
        proof {
            assert forall|q: int| 0 <= q < n implies has_key(r.pairs(), (#[trigger] first@[q])@) by {
                assert(r.pairs()[pos[first@[q]@]].0@ == first@[q]@);
            }
            assert forall|e: int| 0 <= e < r.pairs().len() implies pair_from(
                #[trigger] r.pairs()[e],
                first@,
                sec@,
                n,
            ) by {
                let p2 = src[e];
                assert(0 <= p2 < n && first@[p2]@ == r.pairs()[e].0@ && r.pairs()[e].1 == sec@[p2]);
                assert(forall|q: int| p2 < q < n ==> first@[q]@ != r.pairs()[e].0@);
            }
        }
        r
    }

    /// The pairs held, in order.
    pub fn iter(&self) -> (r: Vec<(K, V)>)
        ensures
            r@ == self.pairs(),
    {
        let mut r: Vec<(K, V)> = Vec::new();
        let mut i: usize = 0;
        while i < self.entries.len()
            invariant
                i <= self.entries@.len(),
                r@ =~= self.entries@.take(i as int),
            decreases self.entries@.len() - i,
        {
            r.push(self.entries[i]);
            i = i + 1;
        }
        proof {
            assert(self.entries@.take(self.entries@.len() as int) =~= self.entries@);
        }
        r
    }

    /// The pairs held, starting from position `start`.
    pub fn iter_from(&self, start: usize) -> (r: Vec<(K, V)>)
        ensures
            start <= self.pairs().len() ==> r@ == self.pairs().skip(start as int),
            start > self.pairs().len() ==> r@.len() == 0,
    {
        let mut r: Vec<(K, V)> = Vec::new();
        if start > self.entries.len() {
            return r;
        }
        let mut i: usize = start;
        while i < self.entries.len()
            invariant
                start <= i <= self.entries@.len(),
                r@.len() == i - start,
                forall|j: int| 0 <= j < r@.len() ==> #[trigger] r@[j] == self.entries@[start + j],
            decreases self.entries@.len() - i,
        {
            r.push(self.entries[i]);
            i = i + 1;
        }
        proof {
            assert(r@ =~= self.pairs().skip(start as int));
        }
        r
    }
}

/// Whether some stored pair holds the given key.
pub open spec fn has_key<K: Sample + Copy, V: Copy>(s: Seq<(K, V)>, v: <K as View>::V) -> bool {
    exists|e: int| 0 <= e < s.len() && (#[trigger] s[e]).0@ == v
}

/// Whether a pair holds the key and value of the last occurrence of its
/// key among the first `n` positions of the input runs.
pub open spec fn pair_from<K: Sample + Copy, V: Copy>(
    pair: (K, V),
    first: Seq<K>,
    sec: Seq<V>,
    n: int,
) -> bool {
    exists|p: int|
        {
            &&& 0 <= p < n
            &&& (#[trigger] first[p])@ == pair.0@
            &&& pair.1 == sec[p]
            &&& forall|q: int| p < q < n ==> first[q]@ != pair.0@
        }
}

/// The smaller of two numbers.
pub open spec fn min(a: int, b: int) -> int {
    if a < b {
        a
    } else {
        b
    }
}

/// Find the entry holding the given key, if any.
fn find_pair_index<K: Sample + Copy, V: Copy>(entries: &Vec<(K, V)>, key: &K) -> (r: Option<usize>)
    ensures
        match r {
            Some(e) => e < entries@.len() && entries@[e as int].0@ == key@,
            None => forall|e: int|
                0 <= e < entries@.len() ==> (#[trigger] entries@[e]).0@ != key@,
        },
{
    let mut e: usize = 0;
    while e < entries.len()
        invariant
            e <= entries@.len(),
            forall|j: int| 0 <= j < e ==> (#[trigger] entries@[j]).0@ != key@,
        decreases entries@.len() - e,
    {
        if entries[e].0.sample_eq(key) {
            return Some(e);
        }
        e = e + 1;
    }
    None
}

/// A key with a total order on its models, decided by an executable
/// three-way comparison.  The order laws let an ordered dictionary keep
/// its keys strictly sorted.
pub trait OrderedKey: View + Sized {
    /// The total order on key models.
    spec fn le(a: Self::V, b: Self::V) -> bool;

    /// The order relates every two key models.
    proof fn le_total(a: Self::V, b: Self::V)
        ensures
            Self::le(a, b) || Self::le(b, a),
    ;

    /// The order is transitive.
    proof fn le_transitive(a: Self::V, b: Self::V, c: Self::V)
        requires
            Self::le(a, b),
            Self::le(b, c),
        ensures
            Self::le(a, c),
    ;

    /// Two key models below each other are the same.
    proof fn le_antisymmetric(a: Self::V, b: Self::V)
        requires
            Self::le(a, b),
            Self::le(b, a),
        ensures
            a == b,
    ;

    /// Compare two keys by their models.
    fn key_cmp(&self, other: &Self) -> (c: core::cmp::Ordering)
        ensures
            match c {
                core::cmp::Ordering::Less => Self::le(self@, other@) && self@ != other@,
                core::cmp::Ordering::Equal => self@ == other@,
                core::cmp::Ordering::Greater => Self::le(other@, self@) && self@ != other@,
            },
    ;
}

impl OrderedKey for u64 {
    open spec fn le(a: u64, b: u64) -> bool {
        a <= b
    }

    proof fn le_total(a: u64, b: u64) {
    }

    proof fn le_transitive(a: u64, b: u64, c: u64) {
    }

    proof fn le_antisymmetric(a: u64, b: u64) {
    }

    fn key_cmp(&self, other: &Self) -> (c: core::cmp::Ordering) {
        if *self < *other {
            core::cmp::Ordering::Less
        } else if *self == *other {
            core::cmp::Ordering::Equal
        } else {
            core::cmp::Ordering::Greater
        }
    }
}

impl OrderedKey for usize {
    open spec fn le(a: usize, b: usize) -> bool {
        a <= b
    }

    proof fn le_total(a: usize, b: usize) {
    }

    proof fn le_transitive(a: usize, b: usize, c: usize) {
    }

    proof fn le_antisymmetric(a: usize, b: usize) {
    }

    fn key_cmp(&self, other: &Self) -> (c: core::cmp::Ordering) {
        if *self < *other {
            core::cmp::Ordering::Less
        } else if *self == *other {
            core::cmp::Ordering::Equal
        } else {
            core::cmp::Ordering::Greater
        }
    }
}

/// Lexicographic order on runs of characters, by scalar value.
pub open spec fn lex_le(a: Seq<char>, b: Seq<char>) -> bool
    decreases a.len(),
{
    if a.len() == 0 {
        true
    } else if b.len() == 0 {
        false
    } else if a[0] != b[0] {
        a[0] < b[0]
    } else {
        lex_le(a.drop_first(), b.drop_first())
    }
}

/// The lexicographic order relates every two runs.
proof fn lemma_lex_total(a: Seq<char>, b: Seq<char>)
    ensures
        lex_le(a, b) || lex_le(b, a),
    decreases a.len(),
{
    if a.len() > 0 && b.len() > 0 && a[0] == b[0] {
        lemma_lex_total(a.drop_first(), b.drop_first());
    }
}

/// The lexicographic order is transitive.
proof fn lemma_lex_transitive(a: Seq<char>, b: Seq<char>, c: Seq<char>)
    requires
        lex_le(a, b),
        lex_le(b, c),
    ensures
        lex_le(a, c),
    decreases a.len(),
{
    if a.len() == 0 {
    } else {
        assert(b.len() > 0);
        assert(c.len() > 0);
        if a[0] == b[0] && b[0] == c[0] {
            lemma_lex_transitive(a.drop_first(), b.drop_first(), c.drop_first());
        }
    }
}

/// Two runs below each other lexicographically are the same.
proof fn lemma_lex_antisymmetric(a: Seq<char>, b: Seq<char>)
    requires
        lex_le(a, b),
        lex_le(b, a),
    ensures
        a == b,
    decreases a.len(),
{
    if a.len() == 0 {
        assert(b.len() == 0);
        assert(a =~= b);
    } else {
        assert(b.len() > 0);
        if a[0] == b[0] {
            lemma_lex_antisymmetric(a.drop_first(), b.drop_first());
            assert(a.drop_first().len() == b.drop_first().len());
            assert(a.len() == b.len());
            assert forall|j: int| 0 <= j < a.len() implies a[j] == b[j] by {
                if j > 0 {
                    assert(a.drop_first()[j - 1] == b.drop_first()[j - 1]);
                }
            }
            assert(a =~= b);
        }
    }
}

impl OrderedKey for String {
    open spec fn le(a: Seq<char>, b: Seq<char>) -> bool {
        lex_le(a, b)
    }

    proof fn le_total(a: Seq<char>, b: Seq<char>) {
        lemma_lex_total(a, b);
    }

    proof fn le_transitive(a: Seq<char>, b: Seq<char>, c: Seq<char>) {
        lemma_lex_transitive(a, b, c);
    }

    proof fn le_antisymmetric(a: Seq<char>, b: Seq<char>) {
        lemma_lex_antisymmetric(a, b);
    }

    fn key_cmp(&self, other: &Self) -> (c: core::cmp::Ordering) {
        let a = crate::text::chars_vec(self.as_str());
        let b = crate::text::chars_vec(other.as_str());
        let mut i: usize = 0;
        let bound = if a.len() < b.len() {
            a.len()
        } else {
            b.len()
        };
        proof {
            assert(a@.skip(0) =~= a@);
            assert(b@.skip(0) =~= b@);
        }
        while i < bound
            invariant
                a@ == self@,
                b@ == other@,
                bound == min(a@.len() as int, b@.len() as int),
                i <= bound,
                forall|j: int| 0 <= j < i ==> a@[j] == b@[j],
                lex_le(self@, other@) == lex_le(a@.skip(i as int), b@.skip(i as int)),
                lex_le(other@, self@) == lex_le(b@.skip(i as int), a@.skip(i as int)),
                (self@ == other@) == (a@.skip(i as int) =~= b@.skip(i as int)),
            decreases bound - i,
        {
            let ca = a[i];
            let cb = b[i];
            proof {
                assert(a@.skip(i as int)[0] == a@[i as int]);
                assert(b@.skip(i as int)[0] == b@[i as int]);
                assert(a@.skip(i as int).drop_first() =~= a@.skip(i + 1));
                assert(b@.skip(i as int).drop_first() =~= b@.skip(i + 1));
            }
            if ca < cb {
                proof {
                    assert(lex_le(a@.skip(i as int), b@.skip(i as int)));
                    assert(!lex_le(b@.skip(i as int), a@.skip(i as int)));
                    assert(!(a@.skip(i as int) =~= b@.skip(i as int)));
                }
                return core::cmp::Ordering::Less;
            }
            if cb < ca {
                proof {
                    assert(lex_le(b@.skip(i as int), a@.skip(i as int)));
                    assert(!lex_le(a@.skip(i as int), b@.skip(i as int)));
                    assert(!(a@.skip(i as int) =~= b@.skip(i as int)));
                }
                return core::cmp::Ordering::Greater;
            }
            proof {
                assert(ca == cb);
                if a@.skip(i + 1) =~= b@.skip(i + 1) {
                    assert(a@.skip(i + 1).len() == b@.skip(i + 1).len());
                    assert(a@.skip(i as int).len() == b@.skip(i as int).len());
                    assert forall|k: int|
                        0 <= k < a@.skip(i as int).len() implies a@.skip(i as int)[k] == b@.skip(
                        i as int,
                    )[k] by {
                        if k == 0 {
                            assert(a@.skip(i as int)[0] == a@[i as int]);
                            assert(b@.skip(i as int)[0] == b@[i as int]);
                        } else {
                            assert(a@.skip(i as int)[k] == a@.skip(i + 1)[k - 1]);
                            assert(b@.skip(i as int)[k] == b@.skip(i + 1)[k - 1]);
                        }
                    }
                    assert(a@.skip(i as int) =~= b@.skip(i as int));
                }
            }
            i = i + 1;
        }
        proof {
            assert(a@.skip(i as int).len() == a@.len() - i);
            assert(b@.skip(i as int).len() == b@.len() - i);
        }
        if a.len() == b.len() {
            proof {
                assert(a@.skip(i as int) =~= b@.skip(i as int));
            }
            core::cmp::Ordering::Equal
        } else if a.len() < b.len() {
            proof {
                assert(a@.skip(i as int).len() == 0);
                assert(b@.skip(i as int).len() > 0);
                assert(lex_le(a@.skip(i as int), b@.skip(i as int)));
                assert(!lex_le(b@.skip(i as int), a@.skip(i as int)));
                assert(!(a@.skip(i as int) =~= b@.skip(i as int)));
            }
            core::cmp::Ordering::Less
        } else {
            proof {
                assert(b@.skip(i as int).len() == 0);
                assert(a@.skip(i as int).len() > 0);
                assert(!(a@.skip(i as int) =~= b@.skip(i as int)));
            }
            core::cmp::Ordering::Greater
        }
    }
}

/// The key models of a run of dictionary entries.
pub open spec fn dict_keys<K: OrderedKey, V>(s: Seq<(K, V)>) -> Seq<<K as View>::V> {
    s.map_values(|e: (K, V)| e.0@)
}

/// The position where a new key model belongs in a sorted run: the first
/// position whose key is at or above it, or the end.
pub open spec fn lower_bound<K: OrderedKey, V>(s: Seq<(K, V)>, v: <K as View>::V) -> int
    decreases s.len(),
{
    if s.len() == 0 {
        0
    } else if K::le(v, s[0].0@) {
        0
    } else {
        1 + lower_bound(s.drop_first(), v)
    }
}

/// What `lower_bound` returns: everything before it is strictly below the
/// key, and the entry at it (if any) is at or above it.
proof fn lemma_lower_bound<K: OrderedKey, V>(s: Seq<(K, V)>, v: <K as View>::V)
    ensures
        0 <= lower_bound(s, v) <= s.len(),
        forall|j: int| 0 <= j < lower_bound(s, v) ==> !K::le(v, (#[trigger] s[j]).0@),
        lower_bound(s, v) < s.len() ==> K::le(v, s[lower_bound(s, v)].0@),
    decreases s.len(),
{
    if s.len() > 0 && !K::le(v, s[0].0@) {
        lemma_lower_bound(s.drop_first(), v);
        assert forall|j: int| 0 <= j < lower_bound(s, v) implies !K::le(v, (#[trigger] s[j]).0@) by {
            if j > 0 {
                assert(s.drop_first()[j - 1] == s[j]);
            }
        }
        if lower_bound(s, v) < s.len() {
            assert(s.drop_first()[lower_bound(s.drop_first(), v)] == s[lower_bound(s, v)]);
        }
    }
}

/// An ordered dictionary: a map whose entries are kept sorted by their
/// keys, so iteration yields them in key order.
#[derive(Debug, Clone)]
pub struct OrderedDict<K: OrderedKey, V> {
    entries: Vec<(K, V)>,
}

impl<K: OrderedKey, V> OrderedDict<K, V> {
    /// The entries, sorted strictly by key.
    pub closed spec fn entries_seq(&self) -> Seq<(K, V)> {
        self.entries@
    }

    /// The entries are strictly sorted: no two keys are the same.
    pub open spec fn wf(&self) -> bool {
        forall|i: int, j: int|
            0 <= i < j < self.entries_seq().len() ==> K::le(
                (#[trigger] self.entries_seq()[i]).0@,
                (#[trigger] self.entries_seq()[j]).0@,
            ) && self.entries_seq()[i].0@ != self.entries_seq()[j].0@
    }

    /// Construct an empty dictionary.
    pub fn new() -> (r: Self)
        ensures
            r.wf(),
            r.entries_seq() == Seq::<(K, V)>::empty(),
    {
        OrderedDict { entries: Vec::new() }
    }

    /// Find the entry holding the given key, if any.
    fn find(&self, key: &K) -> (r: Option<usize>)
        ensures
            match r {
                Some(f) => f < self.entries_seq().len() && self.entries_seq()[f as int].0@ == key@
                    && forall|j: int|
                    0 <= j < f ==> (#[trigger] self.entries_seq()[j]).0@ != key@,
                None => forall|j: int|
                    0 <= j < self.entries_seq().len() ==> (#[trigger] self.entries_seq()[j]).0@
                        != key@,
            },
    {
        let mut i: usize = 0;
        while i < self.entries.len()
            invariant
                i <= self.entries@.len(),
                forall|j: int| 0 <= j < i ==> (#[trigger] self.entries@[j]).0@ != key@,
            decreases self.entries@.len() - i,
        {
            match self.entries[i].0.key_cmp(key) {
                core::cmp::Ordering::Equal => {
                    return Some(i);
                },
                _ => {},
            }
            i = i + 1;
        }
        None
    }

    /// Insert the key-value pair into the dictionary.  If the key was not
    /// present, `None` is returned; if it was, the stored value is
    /// replaced by the new one and the old value is returned.
    pub fn insert(&mut self, key: K, val: V) -> (r: Option<V>)
        requires
            old(self).wf(),
        ensures
            final(self).wf(),
            ({
                let s0 = old(self).entries_seq();
                match r {
                    Some(v) => dict_keys(s0).contains(key@) && ({
                        let f = first_index(dict_keys(s0), key@);
                        v == s0[f].1 && final(self).entries_seq() == s0.update(f, (key, val))
                    }),
                    None => !dict_keys(s0).contains(key@) && final(self).entries_seq()
                        == s0.insert(lower_bound(s0, key@), (key, val)),
                }
            }),
    {
        let ghost s0 = self.entries@;
        match self.find(&key) {
            Some(f) => {
                proof {
                    lemma_first_index(dict_keys(s0), key@);
                    assert(dict_keys(s0)[f as int] == key@);
                    assert(dict_keys(s0).contains(key@));
                    let ff = first_index(dict_keys(s0), key@);
                    if ff < f {
                        assert(dict_keys(s0)[ff] == key@);
                        assert(s0[ff].0@ == key@);
                    }
                    if ff > f {
                        assert(dict_keys(s0)[f as int] != key@);
                    }
                }
                let old_entry = self.entries.remove(f);
                self.entries.insert(f, (key, val));
                proof {
                    assert(self.entries@ =~= s0.update(f as int, (key, val)));
                    assert forall|i: int, j: int|
                        0 <= i < j < self.entries@.len() implies K::le(
                        (#[trigger] self.entries@[i]).0@,
                        (#[trigger] self.entries@[j]).0@,
                    ) && self.entries@[i].0@ != self.entries@[j].0@ by {
                        assert(s0[i].0@ == self.entries@[i].0@);
                        assert(s0[j].0@ == self.entries@[j].0@);
                    }
                }
                Some(old_entry.1)
            },
            None => {
                proof {
                    if dict_keys(s0).contains(key@) {
                        let j = choose|j: int|
                            0 <= j < dict_keys(s0).len() && dict_keys(s0)[j] == key@;
                        assert(s0[j].0@ == key@);
                    }
                }
                let at = self.position_for(&key);
                proof {
                    lemma_lower_bound(s0, key@);
                }
                self.entries.insert(at, (key, val));
                proof {
                    let lb = lower_bound(s0, key@);
                    lemma_lower_bound(s0, key@);
                    assert(self.entries@ =~= s0.insert(lb, (key, val)));
                    assert forall|i: int, j: int|
                        0 <= i < j < self.entries@.len() implies K::le(
                        (#[trigger] self.entries@[i]).0@,
                        (#[trigger] self.entries@[j]).0@,
                    ) && self.entries@[i].0@ != self.entries@[j].0@ by {
                        lemma_sorted_insert_pair(s0, key@, lb, i, j, self.entries@, (key, val));
                    }
                }
                None
            },
        }
    }

    /// The sorted position where the given absent key belongs.
    fn position_for(&self, key: &K) -> (r: usize)
        requires
            self.wf(),
        ensures
            r == lower_bound(self.entries_seq(), key@),
    {
        let ghost s = self.entries@;
        proof {
            lemma_lower_bound(s, key@);
        }
        let mut i: usize = 0;
        while i < self.entries.len()
            invariant
                s == self.entries@,
                i <= s.len(),
                forall|j: int| 0 <= j < i ==> !K::le(key@, (#[trigger] s[j]).0@),
                lower_bound(s, key@) >= i,
            decreases s.len() - i,
        {
            match self.entries[i].0.key_cmp(key) {
                core::cmp::Ordering::Less => {
                    proof {
                        // the entry is strictly below the key, so the key
                        // does not come at or before it
                        if K::le(key@, s[i as int].0@) {
                            K::le_antisymmetric(key@, s[i as int].0@);
                        }
                        lemma_lower_bound_step(s, key@, i + 1);
                    }
                },
                _ => {
                    proof {
                        // at or above the key: this is the first such spot
                        lemma_lower_bound_at(s, key@, i as int);
                    }
                    return i;
                },
            }
            i = i + 1;
        }
        proof {
            lemma_lower_bound(s, key@);
        }
        i
    }

    /// Remove the key-value pair with the given key, returning the stored
    /// value, or `None` when the key is absent.
    pub fn del(&mut self, key: &K) -> (r: Option<V>)
        requires
            old(self).wf(),
        ensures
            final(self).wf(),
            ({
                let s0 = old(self).entries_seq();
                match r {
                    Some(v) => dict_keys(s0).contains(key@) && ({
                        let f = first_index(dict_keys(s0), key@);
                        v == s0[f].1 && final(self).entries_seq() == s0.remove(f)
                    }),
                    None => !dict_keys(s0).contains(key@) && final(self).entries_seq() == s0,
                }
            }),
    {
        let ghost s0 = self.entries@;
        match self.find(key) {
            Some(f) => {
                proof {
                    lemma_first_index(dict_keys(s0), key@);
                    assert(dict_keys(s0)[f as int] == key@);
                    assert(dict_keys(s0).contains(key@));
                    let ff = first_index(dict_keys(s0), key@);
                    if ff < f {
                        assert(dict_keys(s0)[ff] == key@);
                        assert(s0[ff].0@ == key@);
                    }
                    if ff > f {
                        assert(dict_keys(s0)[f as int] != key@);
                    }
                }
                let old_entry = self.entries.remove(f);
                proof {
                    assert forall|i: int, j: int|
                        0 <= i < j < self.entries@.len() implies K::le(
                        (#[trigger] self.entries@[i]).0@,
                        (#[trigger] self.entries@[j]).0@,
                    ) && self.entries@[i].0@ != self.entries@[j].0@ by {
                        let i0 = if i < f {
                            i
                        } else {
                            i + 1
                        };
                        let j0 = if j < f {
                            j
                        } else {
                            j + 1
                        };
                        assert(self.entries@[i] == s0[i0]);
                        assert(self.entries@[j] == s0[j0]);
                    }
                }
                Some(old_entry.1)
            },
            None => {
                proof {
                    if dict_keys(s0).contains(key@) {
                        let j = choose|j: int|
                            0 <= j < dict_keys(s0).len() && dict_keys(s0)[j] == key@;
                        assert(s0[j].0@ == key@);
                    }
                }
                None
            },
        }
    }

    /// The number of entries in the dictionary.
    pub fn len(&self) -> (r: usize)
        ensures
            r == self.entries_seq().len(),
    {
        self.entries.len()
    }

    /// Whether the dictionary holds no entries.
    pub fn is_empty(&self) -> (r: bool)
        ensures
            r == (self.entries_seq().len() == 0),
    {
        self.entries.is_empty()
    }

    /// The key-value pairs, in key order.
    pub fn items(&self) -> (r: &Vec<(K, V)>)
        ensures
            r@ == self.entries_seq(),
    {
        &self.entries
    }

    /// The keys, in order.
    pub fn keys(&self) -> (r: Vec<&K>)
        ensures
            r@.len() == self.entries_seq().len(),
            forall|i: int| 0 <= i < r@.len() ==> *(#[trigger] r@[i]) == self.entries_seq()[i].0,
    {
        let mut r: Vec<&K> = Vec::new();
        let mut i: usize = 0;
        while i < self.entries.len()
            invariant
                i <= self.entries@.len(),
                r@.len() == i,
                forall|j: int| 0 <= j < i ==> *(#[trigger] r@[j]) == self.entries@[j].0,
            decreases self.entries@.len() - i,
        {
            r.push(&self.entries[i].0);
            i = i + 1;
        }
        r
    }

    /// The values, in order of their keys.
    pub fn values(&self) -> (r: Vec<&V>)
        ensures
            r@.len() == self.entries_seq().len(),
            forall|i: int| 0 <= i < r@.len() ==> *(#[trigger] r@[i]) == self.entries_seq()[i].1,
    {
        let mut r: Vec<&V> = Vec::new();
        let mut i: usize = 0;
        while i < self.entries.len()
            invariant
                i <= self.entries@.len(),
                r@.len() == i,
                forall|j: int| 0 <= j < i ==> *(#[trigger] r@[j]) == self.entries@[j].1,
            decreases self.entries@.len() - i,
        {
            r.push(&self.entries[i].1);
            i = i + 1;
        }
        r
    }

    /// The value stored for the given key, without removing it.
    pub fn getitem(&self, key: &K) -> (r: Option<&V>)
        ensures
            match r {
                Some(v) => dict_keys(self.entries_seq()).contains(key@) && *v == self.entries_seq()[
                    first_index(dict_keys(self.entries_seq()), key@)
                ].1,
                None => !dict_keys(self.entries_seq()).contains(key@),
            },
    {
        let ghost s0 = self.entries@;
        match self.find(key) {
            Some(f) => {
                proof {
                    lemma_first_index(dict_keys(s0), key@);
                    assert(dict_keys(s0)[f as int] == key@);
                    assert(dict_keys(s0).contains(key@));
                    let ff = first_index(dict_keys(s0), key@);
                    if ff < f {
                        assert(dict_keys(s0)[ff] == key@);
                        assert(s0[ff].0@ == key@);
                    }
                    if ff > f {
                        assert(dict_keys(s0)[f as int] != key@);
                    }
                }
                Some(&self.entries[f].1)
            },
            None => {
                proof {
                    if dict_keys(s0).contains(key@) {
                        let j = choose|j: int|
                            0 <= j < dict_keys(s0).len() && dict_keys(s0)[j] == key@;
                        assert(s0[j].0@ == key@);
                    }
                }
                None
            },
        }
    }
}

impl<K: OrderedKey, V> Default for OrderedDict<K, V> {
    /// An empty dictionary.
    fn default() -> (r: Self)
        ensures
            r.wf(),
            r.entries_seq() == Seq::<(K, V)>::empty(),
    {
        OrderedDict::new()
    }
}

/// Scanning one entry strictly below the key moves the lower bound past
/// it.
proof fn lemma_lower_bound_step<K: OrderedKey, V>(s: Seq<(K, V)>, v: <K as View>::V, i: int)
    requires
        0 < i <= s.len(),
        forall|j: int| 0 <= j < i ==> !K::le(v, (#[trigger] s[j]).0@),
    ensures
        lower_bound(s, v) >= i,
    decreases i,
{
    if i == 1 {
        assert(!K::le(v, s[0].0@));
        lemma_lower_bound(s.drop_first(), v);
    } else {
        assert(!K::le(v, s[0].0@));
        assert forall|j: int| 0 <= j < i - 1 implies !K::le(v, (#[trigger] s.drop_first()[j]).0@) by {
            assert(s.drop_first()[j] == s[j + 1]);
        }
        lemma_lower_bound_step(s.drop_first(), v, i - 1);
    }
}

/// The first entry at or above the key is the lower bound.
proof fn lemma_lower_bound_at<K: OrderedKey, V>(s: Seq<(K, V)>, v: <K as View>::V, i: int)
    requires
        0 <= i < s.len(),
        forall|j: int| 0 <= j < i ==> !K::le(v, (#[trigger] s[j]).0@),
        K::le(v, s[i].0@) || s[i].0@ == v,
    ensures
        lower_bound(s, v) == i,
    decreases i,
{
    if s[i].0@ == v && !K::le(v, s[i].0@) {
        K::le_total(v, s[i].0@);
    }
    if i == 0 {
    } else {
        assert(!K::le(v, s[0].0@));
        assert forall|j: int| 0 <= j < i - 1 implies !K::le(v, (#[trigger] s.drop_first()[j]).0@) by {
            assert(s.drop_first()[j] == s[j + 1]);
        }
        assert(s.drop_first()[i - 1] == s[i]);
        lemma_lower_bound_at(s.drop_first(), v, i - 1);
    }
}

/// Inserting an absent key at its lower bound keeps the entries strictly
/// sorted.
proof fn lemma_sorted_insert_pair<K: OrderedKey, V>(
    s0: Seq<(K, V)>,
    v: <K as View>::V,
    lb: int,
    i: int,
    j: int,
    s1: Seq<(K, V)>,
    pair: (K, V),
)
    requires
        forall|x: int, y: int|
            0 <= x < y < s0.len() ==> K::le((#[trigger] s0[x]).0@, (#[trigger] s0[y]).0@) && s0[
                x
            ].0@ != s0[y].0@,
        forall|x: int| 0 <= x < s0.len() ==> (#[trigger] s0[x]).0@ != v,
        lb == lower_bound(s0, v),
        pair.0@ == v,
        s1 == s0.insert(lb, pair),
        0 <= i < j < s1.len(),
    ensures
        K::le(s1[i].0@, s1[j].0@),
        s1[i].0@ != s1[j].0@,
{
    lemma_lower_bound(s0, v);
    let n = s0.len();
    assert(s1.len() == n + 1);
    // a key strictly before the bound is strictly below `v`
    assert forall|x: int| 0 <= x < lb implies K::le((#[trigger] s0[x]).0@, v) && s0[x].0@ != v by {
        K::le_total(v, s0[x].0@);
    }
    // a key at or after the bound is strictly above `v`
    assert forall|x: int| lb <= x < n implies K::le(v, (#[trigger] s0[x]).0@) && s0[x].0@ != v by {
        if x == lb {
        } else {
            K::le_transitive(v, s0[lb].0@, s0[x].0@);
        }
    }
    if i < lb && j < lb {
        assert(s1[i] == s0[i]);
        assert(s1[j] == s0[j]);
    } else if i < lb && j == lb {
        assert(s1[i] == s0[i]);
        assert(s1[j] == pair);
    } else if i < lb && j > lb {
        assert(s1[i] == s0[i]);
        assert(s1[j] == s0[j - 1]);
    } else if i == lb {
        assert(s1[i] == pair);
        assert(s1[j] == s0[j - 1]);
    } else {
        assert(s1[i] == s0[i - 1]);
        assert(s1[j] == s0[j - 1]);
    }
}

} // verus!
