//! Syllabification based on the Legality Principle: syllable onsets and
//! codas are only legal if they are found as word onsets or codas in the
//! language.  Both a set of vowels and a text corpus of words in the
//! language are needed to determine legal onsets; the intended
//! syllabification itself has not been implemented yet, but the onset
//! computation and the configuration are in place.

use crate::probability::{lemma_mul_u64_fits, FreqDist, Probability};
use crate::text::{
    chars_vec, find_from, grapheme_split, graphemes_of, match_at, string_from_chars, subvec,
};
use vstd::prelude::*;

verus! {

/// Whether the cluster `g` occurs in the vowel run `vowels`.
pub open spec fn vowel_cluster(vowels: Seq<char>, g: Seq<char>) -> bool {
    exists|i: int| #[trigger] match_at(vowels, g, i)
}

/// The position of the first grapheme cluster of `gs` that occurs in the
/// vowel run, or `-1` when none does.
pub open spec fn first_vowel_at(gs: Seq<Seq<char>>, vowels: Seq<char>) -> int
    decreases gs.len(),
{
    if gs.len() == 0 {
        -1
    } else if vowel_cluster(vowels, gs[0]) {
        0
    } else {
        let r = first_vowel_at(gs.drop_first(), vowels);
        if r < 0 {
            -1
        } else {
            r + 1
        }
    }
}

/// Syllabifies words based on the Legality Principle with Onset
/// Maximization.  The default vowel set is for English, but any
/// alphabet's vowels can be supplied; the legal-frequency threshold is
/// the lowest frequency an onset must reach to be considered legal.
#[derive(Debug, Clone)]
pub struct LegalitySyllableTokenizer {
    source_text: Vec<String>,
    vowels: String,
    threshold: Probability,
}

impl LegalitySyllableTokenizer {
    /// The valid tokens of the language the tokenizer was built from.
    pub closed spec fn spec_source_text(&self) -> Seq<Seq<char>> {
        self.source_text@.map_values(|t: String| t@)
    }

    /// The vowels of the language.
    pub closed spec fn spec_vowels(&self) -> Seq<char> {
        self.vowels@
    }

    /// The lowest frequency of all onsets to be considered legal.
    pub closed spec fn spec_threshold(&self) -> Probability {
        self.threshold
    }

    /// Construct a tokenizer from a list of valid tokens of the language,
    /// the language's vowels (the English set when none is given), and
    /// the legal-frequency threshold (one thousandth when none is given).
    pub fn new(
        tokenized_source_text: &Vec<String>,
        language_vowels: Option<&str>,
        legal_frequency_threshold: Option<Probability>,
    ) -> (r: Self)
        ensures
            r.spec_source_text().len() == tokenized_source_text@.len(),
            forall|i: int|
                0 <= i < tokenized_source_text@.len() ==> #[trigger] r.spec_source_text()[i]
                    == tokenized_source_text@[i]@,
            match language_vowels {
                Some(v) => r.spec_vowels() == v@,
                None => r.spec_vowels() == "aeiouy"@,
            },
            match legal_frequency_threshold {
                Some(t) => r.spec_threshold() == t,
                None => r.spec_threshold() == (Probability { num: 1u64, den: 1000u64 }),
            },
    {
        let mut source_text: Vec<String> = Vec::new();
        let mut i: usize = 0;
        while i < tokenized_source_text.len()
            invariant
                i <= tokenized_source_text@.len(),
                source_text@.len() == i,
                forall|j: int|
                    0 <= j < i ==> (#[trigger] source_text@[j])@ == tokenized_source_text@[j]@,
            decreases tokenized_source_text@.len() - i,
        {
            source_text.push(tokenized_source_text[i].clone());
            i = i + 1;
        }
        let vowels = match language_vowels {
            Some(v) => {
                let cv = chars_vec(v);
                string_from_chars(&cv)
            },
            None => {
                let cv = chars_vec("aeiouy");
                string_from_chars(&cv)
            },
        };
        let threshold = match legal_frequency_threshold {
            Some(t) => t,
            None => Probability { num: 1, den: 1000 },
        };
        let r = LegalitySyllableTokenizer { source_text, vowels, threshold };
        proof {
            assert forall|j: int|
                0 <= j < tokenized_source_text@.len() implies #[trigger] r.spec_source_text()[j]
                == tokenized_source_text@[j]@ by {
                assert(r.spec_source_text()[j] == r.source_text@[j]@);
            }
        }
        r
    }

    /// Gather the onset of every given word and return the
    /// `(onset, count)` pairs whose frequency among all gathered onsets
    /// reaches the legal-frequency threshold, in no particular order.
    pub fn find_legal_onsets(&self, words: &Vec<String>) -> (r: Vec<(String, usize)>)
        ensures
            ({
                let os = onsets_of(words@.map_values(|w: String| w@), self.spec_vowels());
                let t = self.spec_threshold();
                &&& forall|k1: int, k2: int| 0 <= k1 < k2 < r@.len() ==> r@[k1].0@ != r@[k2].0@
                &&& forall|k: int|
                    0 <= k < r@.len() ==> (#[trigger] r@[k]).1 == os.to_multiset().count(r@[k].0@)
                        && r@[k].1 >= 1 && legal_count(r@[k].1 as nat, os.len(), t)
                &&& forall|v: Seq<char>|
                    os.contains(v) && legal_count(os.to_multiset().count(v), os.len(), t)
                        ==> exists|k: int| 0 <= k < r@.len() && (#[trigger] r@[k]).0@ == v
            }),
    {
        broadcast use vstd::seq_lib::group_to_multiset_ensures;

        let ghost vs = words@.map_values(|w: String| w@);
        let mut fd: FreqDist<String> = FreqDist::new();
        let mut i: usize = 0;
        proof {
            assert(vs.take(0) =~= Seq::<Seq<char>>::empty());
        }
        while i < words.len()
            invariant
                vs == words@.map_values(|w: String| w@),
                fd.wf(),
                i <= vs.len(),
                fd.n() <= i,
                fd.n() == onsets_of(vs.take(i as int), self.spec_vowels()).len(),
                forall|v: Seq<char>|
                    fd.count_of(v) == onsets_of(
                        vs.take(i as int),
                        self.spec_vowels(),
                    ).to_multiset().count(v),
            decreases vs.len() - i,
        {
            let ghost os_i = onsets_of(vs.take(i as int), self.spec_vowels());
            proof {
                assert(vs.take(i + 1).drop_last() =~= vs.take(i as int));
                assert(vs.take(i + 1).last() == vs[i as int]);
                assert(vs[i as int] == words@[i as int]@);
            }
            let ghost prev = fd;
            match self.onset(words[i].as_str()) {
                Some(o) => {
                    proof {
                        assert(onset_of(vs[i as int], self.spec_vowels()) == Some(o@));
                        assert(onsets_of(vs.take(i + 1), self.spec_vowels()) == os_i + seq![o@]);
                        assert(os_i + seq![o@] =~= os_i.push(o@));
                        os_i.to_multiset_ensures();
                        assert(os_i.push(o@).to_multiset() =~= os_i.to_multiset().insert(o@));
                    }
                    fd.add(o);
                    proof {
                        assert forall|v: Seq<char>|
                            fd.count_of(v) == onsets_of(
                                vs.take(i + 1),
                                self.spec_vowels(),
                            ).to_multiset().count(v) by {
                            if v == o@ {
                                assert(fd.count_of(v) == prev.count_of(v) + 1);
                            } else {
                                assert(fd.count_of(v) == prev.count_of(v));
                            }
                        }
                    }
                },
                None => {
                    proof {
                        assert(onset_of(vs[i as int], self.spec_vowels()) is None);
                        assert(onsets_of(vs.take(i + 1), self.spec_vowels()) =~= os_i);
                    }
                },
            }
            i = i + 1;
        }
        proof {
            assert(vs.take(vs.len() as int) =~= vs);
        }
        let ghost os = onsets_of(vs, self.spec_vowels());
        let ghost t = self.spec_threshold();
        proof {
            crate::probability::lemma_counts_positive(&fd);
        }
        let total = fd.N();
        let pairs = fd.list();
        let mut r: Vec<(String, usize)> = Vec::new();
        let ghost mut idx: Seq<int> = Seq::empty();
        let ghost mut pos: Map<int, int> = Map::empty();
        let mut j: usize = 0;
        while j < pairs.len()
            invariant
                os == onsets_of(vs, self.spec_vowels()),
                t == self.spec_threshold(),
                fd.wf(),
                total == fd.n(),
                total == os.len(),
                forall|v: Seq<char>| fd.count_of(v) == os.to_multiset().count(v),
                forall|v: Seq<char>| fd@.dom().contains(v) ==> #[trigger] fd@[v] >= 1,
                forall|k1: int, k2: int|
                    0 <= k1 < k2 < pairs@.len() ==> pairs@[k1].0@ != pairs@[k2].0@,
                forall|k: int|
                    0 <= k < pairs@.len() ==> fd@.dom().contains((#[trigger] pairs@[k]).0@)
                        && fd@[pairs@[k].0@] == pairs@[k].1,
                forall|v: Seq<char>|
                    fd@.dom().contains(v) ==> exists|k: int|
                        0 <= k < pairs@.len() && (#[trigger] pairs@[k]).0@ == v,
                j <= pairs@.len(),
                idx.len() == r@.len(),
                forall|k: int|
                    0 <= k < r@.len() ==> 0 <= #[trigger] idx[k] < j && r@[k].0@ == pairs@[
                        idx[k]
                    ].0@ && r@[k].1 == pairs@[idx[k]].1,
                forall|k1: int, k2: int| 0 <= k1 < k2 < r@.len() ==> idx[k1] < idx[k2],
                forall|k: int|
                    0 <= k < r@.len() ==> (#[trigger] r@[k]).1 == os.to_multiset().count(
                        r@[k].0@,
                    ) && r@[k].1 >= 1 && legal_count(r@[k].1 as nat, os.len(), t),
                forall|jj: int|
                    0 <= jj < j && legal_count(
                        (#[trigger] pairs@[jj]).1 as nat,
                        os.len(),
                        t,
                    ) ==> pos.dom().contains(jj) && 0 <= pos[jj] < r@.len() && r@[pos[jj]].0@
                        == pairs@[jj].0@,
            decreases pairs@.len() - j,
        {
            let c = pairs[j].1;
            proof {
                lemma_mul_u64_fits(c as int, self.threshold.den as int);
                lemma_mul_u64_fits(self.threshold.num as int, total as int);
                assert(pairs@[j as int].0@ == pairs@[j as int].0@);
                assert(fd@[pairs@[j as int].0@] == c);
                assert(fd.count_of(pairs@[j as int].0@) == c);
            }
            if (c as u128) * (self.threshold.den as u128) >= (self.threshold.num as u128) * (
            total as u128) {
                r.push((pairs[j].0.clone(), c));
                proof {
                    idx = idx.push(j as int);
                    pos = pos.insert(j as int, r@.len() - 1);
                    assert(r@[r@.len() - 1].0@ == pairs@[j as int].0@);
                    assert(legal_count(c as nat, os.len(), t));
                }
            } else {
                proof {
                    assert(!legal_count(c as nat, os.len(), t));
                }
            }
            j = j + 1;
        }
        proof {
            assert forall|v: Seq<char>|
                os.contains(v) && legal_count(
                    os.to_multiset().count(v),
                    os.len(),
                    t,
                ) implies exists|k: int| 0 <= k < r@.len() && (#[trigger] r@[k]).0@ == v by {
                os.to_multiset_ensures();
                assert(os.to_multiset().count(v) > 0);
                assert(fd.count_of(v) > 0);
                assert(fd@.dom().contains(v));
                let jj = choose|jj: int|
                    0 <= jj < pairs@.len() && (#[trigger] pairs@[jj]).0@ == v;
                assert(pairs@[jj].1 == fd@[v]);
                assert(pairs@[jj].1 as nat == os.to_multiset().count(v));
                assert(r@[pos[jj]].0@ == v);
            }
            assert forall|k1: int, k2: int| 0 <= k1 < k2 < r@.len() implies r@[k1].0@
                != r@[k2].0@ by {
                assert(pairs@[idx[k1]].0@ != pairs@[idx[k2]].0@);
            }
        }
        r
    }

    /// The consonant cluster of a word: all characters until the first
    /// vowel, and the whole word when it has no vowel.  A word that starts
    /// with a vowel, or an empty word, contributes nothing.
    pub fn onset(&self, word: &str) -> (r: Option<String>)
        ensures
            ({
                let gs = graphemes_of(word@);
                let f = first_vowel_at(gs, self.spec_vowels());
                match r {
                    None => f == 0 || gs.len() == 0,
                    Some(o) => gs.len() > 0 && f != 0 && o@ == if f < 0 {
                        word@
                    } else {
                        gs.take(f).flatten()
                    },
                }
            }),
    {
        let gs = grapheme_split(word);
        let wv = chars_vec(word);
        let vv = chars_vec(self.vowels.as_str());
        let ghost gseq = graphemes_of(word@);
        let wlen = wv.len();
        let mut chars_before: usize = 0;
        let mut i: usize = 0;
        proof {
            assert(gseq.skip(0) =~= gseq);
            assert(gseq.take(0).flatten() =~= Seq::<char>::empty()) by {
                assert(gseq.take(0) =~= Seq::<Seq<char>>::empty());
            }
        }
        while i < gs.len()
            invariant
                gseq == graphemes_of(word@),
                gs@.map_values(|g: &str| g@) == gseq,
                wv@ == word@,
                vv@ == self.spec_vowels(),
                gseq.flatten() == word@,
                forall|k: int| 0 <= k < gseq.len() ==> (#[trigger] gseq[k]).len() >= 1,
                i <= gs@.len(),
                wlen == word@.len(),
                chars_before == gseq.take(i as int).flatten().len(),
                chars_before <= word@.len(),
                first_vowel_at(gseq, vv@) == if first_vowel_at(gseq.skip(i as int), vv@) < 0 {
                    -1int
                } else {
                    first_vowel_at(gseq.skip(i as int), vv@) + i
                },
                forall|k: int| 0 <= k < i ==> !vowel_cluster(vv@, #[trigger] gseq[k]),
            decreases gs@.len() - i,
        {
            let g: &str = gs[i];
            let gv = chars_vec(g);
            proof {
                assert(g@ == gseq[i as int]);
                assert(gseq.skip(i as int)[0] == gseq[i as int]);
                assert(gseq.skip(i as int).drop_first() =~= gseq.skip(i + 1));
            }
            let is_vowel = match crate::text::find_from_exec(&vv, &gv, 0) {
                Some(_at) => {
                    proof {
                        crate::text::lemma_find_from(vv@, gv@, 0);
                        assert(match_at(vv@, gv@, find_from(vv@, gv@, 0)));
                    }
                    true
                },
                None => {
                    proof {
                        crate::text::lemma_find_from(vv@, gv@, 0);
                        if vowel_cluster(vv@, gv@) {
                            let at = choose|at: int| #[trigger] match_at(vv@, gv@, at);
                            assert(at >= 0);
                            assert(!match_at(vv@, gv@, at));
                        }
                    }
                    false
                },
            };
            if is_vowel {
                proof {
                    assert(vowel_cluster(vv@, gseq[i as int]));
                    assert(first_vowel_at(gseq.skip(i as int), vv@) == 0);
                    assert(first_vowel_at(gseq, vv@) == i);
                }
                if i == 0 {
                    return None;
                }
                proof {
                    lemma_take_flatten_prefix(gseq, i as int);
                }
                let prefix = subvec(&wv, 0, chars_before);
                proof {
                    assert(prefix@ =~= gseq.take(i as int).flatten());
                }
                return Some(string_from_chars(&prefix));
            }
            proof {
                assert(!vowel_cluster(vv@, gseq[i as int]));
                assert(first_vowel_at(gseq.skip(i as int), vv@) == if first_vowel_at(
                    gseq.skip(i + 1),
                    vv@,
                ) < 0 {
                    -1int
                } else {
                    first_vowel_at(gseq.skip(i + 1), vv@) + 1
                });
                assert(gseq.take(i + 1) =~= gseq.take(i as int).push(gseq[i as int]));
                lemma_flatten_push_len(gseq.take(i as int), gseq[i as int]);
                lemma_take_flatten_le(gseq, i + 1);
            }
            let gl = gv.len();
            proof {
                assert(gseq.take(i + 1).flatten().len() == chars_before + gl);
                assert(chars_before + gl <= wlen);
            }
            chars_before = chars_before + gl;
            i = i + 1;
        }
        proof {
            assert(gseq.skip(i as int) =~= Seq::<Seq<char>>::empty());
            assert(first_vowel_at(gseq, vv@) == -1);
        }
        if i == 0 {
            return None;
        }
        // no vowel anywhere: the whole word is its own consonant cluster
        let whole = subvec(&wv, 0, wlen);
        proof {
            assert(whole@ =~= word@);
        }
        Some(string_from_chars(&whole))
    }
}

/// The onset a word contributes, as [`LegalitySyllableTokenizer::onset`]
/// computes it: everything before the first vowel, the whole word when it
/// has no vowel, and nothing when it is empty or starts with a vowel.
pub open spec fn onset_of(w: Seq<char>, vowels: Seq<char>) -> Option<Seq<char>> {
    let gs = graphemes_of(w);
    let f = first_vowel_at(gs, vowels);
    if gs.len() == 0 || f == 0 {
        None
    } else if f < 0 {
        Some(w)
    } else {
        Some(gs.take(f).flatten())
    }
}

/// The onsets contributed by a run of words, in order; words that
/// contribute nothing are passed over.
pub open spec fn onsets_of(ws: Seq<Seq<char>>, vowels: Seq<char>) -> Seq<Seq<char>>
    decreases ws.len(),
{
    if ws.len() == 0 {
        Seq::empty()
    } else {
        onsets_of(ws.drop_last(), vowels) + (match onset_of(ws.last(), vowels) {
            Some(o) => seq![o],
            None => Seq::<Seq<char>>::empty(),
        })
    }
}

/// Whether a count of `c` occurrences among `n` onsets reaches the
/// legal-frequency threshold `t`: the frequency `c / n` is at least
/// `t.num / t.den`.
pub open spec fn legal_count(c: nat, n: nat, t: Probability) -> bool {
    c * t.den >= t.num * n
}

/// Flattening one more piece appends its characters.
proof fn lemma_flatten_push_len(pieces: Seq<Seq<char>>, p: Seq<char>)
    ensures
        pieces.push(p).flatten().len() == pieces.flatten().len() + p.len(),
        pieces.push(p).flatten() == pieces.flatten() + p,
    decreases pieces.len(),
{
    if pieces.len() == 0 {
        assert(pieces.push(p).drop_first() =~= Seq::<Seq<char>>::empty());
        assert(pieces.push(p)[0] == p);
        assert(pieces.push(p).flatten() == p + pieces.push(p).drop_first().flatten());
        assert(Seq::<Seq<char>>::empty().flatten() =~= Seq::<char>::empty());
        assert(pieces.push(p).flatten() =~= p);
        assert(pieces.flatten() + p =~= p);
    } else {
        lemma_flatten_push_len(pieces.drop_first(), p);
        assert(pieces.push(p).drop_first() =~= pieces.drop_first().push(p));
        assert(pieces.push(p)[0] == pieces[0]);
        assert(pieces.push(p).flatten() == pieces[0] + pieces.drop_first().push(p).flatten());
        assert(pieces.flatten() == pieces[0] + pieces.drop_first().flatten());
        assert(pieces[0] + (pieces.drop_first().flatten() + p) =~= (pieces[0]
            + pieces.drop_first().flatten()) + p);
    }
}

/// A prefix of the pieces flattens to a prefix of the whole.
proof fn lemma_take_flatten_prefix(pieces: Seq<Seq<char>>, k: int)
    requires
        0 <= k <= pieces.len(),
    ensures
        pieces.take(k).flatten() == pieces.flatten().take(pieces.take(k).flatten().len() as int),
    decreases pieces.len() - k,
{
    if k == pieces.len() {
        assert(pieces.take(k) =~= pieces);
        assert(pieces.flatten().take(pieces.flatten().len() as int) =~= pieces.flatten());
    } else {
        lemma_take_flatten_prefix(pieces, k + 1);
        assert(pieces.take(k + 1) =~= pieces.take(k).push(pieces[k]));
        lemma_flatten_push_len(pieces.take(k), pieces[k]);
        let a = pieces.take(k).flatten();
        let b = pieces.take(k + 1).flatten();
        assert(b == a + pieces[k]);
        assert(b == pieces.flatten().take(b.len() as int));
        lemma_take_flatten_le(pieces, k + 1);
        assert(b.len() <= pieces.flatten().len());
        assert(a =~= b.take(a.len() as int));
        assert(pieces.flatten().take(b.len() as int).take(a.len() as int) =~= pieces.flatten().take(
            a.len() as int,
        ));
    }
}

/// The characters of a prefix of the pieces are no more than the whole.
proof fn lemma_take_flatten_le(pieces: Seq<Seq<char>>, k: int)
    requires
        0 <= k <= pieces.len(),
    ensures
        pieces.take(k).flatten().len() <= pieces.flatten().len(),
    decreases pieces.len() - k,
{
    if k == pieces.len() {
        assert(pieces.take(k) =~= pieces);
    } else {
        lemma_take_flatten_le(pieces, k + 1);
        assert(pieces.take(k + 1) =~= pieces.take(k).push(pieces[k]));
        lemma_flatten_push_len(pieces.take(k), pieces[k]);
    }
}

} // verus!
