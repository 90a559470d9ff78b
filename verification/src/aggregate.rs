//! Per-shard aggregation of classified sentences into language buckets.
//!
//! A `ShardContent` is owned by the single fold step of one shard: the
//! driver folds that shard's (sentence, language) pairs into it
//! sequentially, and it is consumed exactly once when the shard is
//! flushed.

use vstd::prelude::*;
use crate::text::{join_nl, join_sentences, push_char};
use vstd::multiset::Multiset;
use vstd::seq_lib::group_seq_properties;

verus! {

broadcast use group_seq_properties;

/// The bucket stored for `lang`: the sentences of the first bucket
/// keyed by `lang`, or the empty sequence when none is.
pub open spec fn bucket_of(
    buckets: Seq<(Seq<char>, Seq<Seq<char>>)>,
    lang: Seq<char>,
) -> Seq<Seq<char>>
    decreases buckets.len(),
{
    if buckets.len() == 0 {
        Seq::empty()
    } else if buckets[0].0 == lang {
        buckets[0].1
    } else {
        bucket_of(buckets.skip(1), lang)
    }
}

/// Whether some bucket is keyed by `lang`.
pub open spec fn has_lang(buckets: Seq<(Seq<char>, Seq<Seq<char>>)>, lang: Seq<char>) -> bool {
    exists|i: int| 0 <= i < buckets.len() && buckets[i].0 == lang
}

/// The sentences among `pairs` that are labeled `lang`, in order.
pub open spec fn sentences_for(
    pairs: Seq<(Seq<char>, Seq<char>)>,
    lang: Seq<char>,
) -> Seq<Seq<char>>
    decreases pairs.len(),
{
    if pairs.len() == 0 {
        Seq::empty()
    } else {
        let rest = sentences_for(pairs.drop_last(), lang);
        if pairs.last().1 == lang {
            rest.push(pairs.last().0)
        } else {
            rest
        }
    }
}

/// Without a bucket keyed by `lang` there are no sentences for `lang`.
pub proof fn lemma_bucket_of_absent(buckets: Seq<(Seq<char>, Seq<Seq<char>>)>, lang: Seq<char>)
    requires
        !has_lang(buckets, lang),
    ensures
        bucket_of(buckets, lang) == Seq::<Seq<char>>::empty(),
    decreases buckets.len(),
{
    if buckets.len() > 0 {
        assert(buckets[0].0 != lang);
        assert(!has_lang(buckets.skip(1), lang)) by {
            if has_lang(buckets.skip(1), lang) {
                let j = choose|j: int|
                    0 <= j < buckets.skip(1).len() && buckets.skip(1)[j].0 == lang;
                assert(buckets[j + 1].0 == lang);
            }
        }
        lemma_bucket_of_absent(buckets.skip(1), lang);
    }
}

/// Appending a bucket changes `bucket_of` only for a language that had
/// no bucket yet, and `has_lang` only for the new key.
pub proof fn lemma_bucket_of_push(
    buckets: Seq<(Seq<char>, Seq<Seq<char>>)>,
    p: (Seq<char>, Seq<Seq<char>>),
    lang: Seq<char>,
)
    ensures
        has_lang(buckets.push(p), lang) <==> (has_lang(buckets, lang) || p.0 == lang),
        bucket_of(buckets.push(p), lang) == if has_lang(buckets, lang) {
            bucket_of(buckets, lang)
        } else if p.0 == lang {
            p.1
        } else {
            Seq::<Seq<char>>::empty()
        },
    decreases buckets.len(),
{
    assert(has_lang(buckets.push(p), lang) <==> (has_lang(buckets, lang) || p.0 == lang)) by {
        if has_lang(buckets, lang) {
            let i = choose|i: int| 0 <= i < buckets.len() && buckets[i].0 == lang;
            assert(buckets.push(p)[i].0 == lang);
        }
        if p.0 == lang {
            assert(buckets.push(p)[buckets.len() as int].0 == lang);
        }
        if has_lang(buckets.push(p), lang) {
            let i = choose|i: int|
                0 <= i < buckets.push(p).len() && buckets.push(p)[i].0 == lang;
            if i < buckets.len() {
                assert(buckets[i].0 == lang);
            }
        }
    }
    if buckets.len() == 0 {
        assert(buckets.push(p)[0] == p);
        assert(buckets.push(p).skip(1) =~= Seq::<(Seq<char>, Seq<Seq<char>>)>::empty());
        assert(!has_lang(buckets, lang));
        if p.0 == lang {
            assert(bucket_of(buckets.push(p), lang) == p.1);
        } else {
            assert(bucket_of(buckets.push(p), lang) == bucket_of(
                buckets.push(p).skip(1),
                lang,
            ));
            assert(bucket_of(buckets.push(p), lang) =~= Seq::<Seq<char>>::empty());
        }
    } else {
        assert(buckets.push(p)[0] == buckets[0]);
        assert(buckets.push(p).skip(1) =~= buckets.skip(1).push(p));
        assert(has_lang(buckets, lang) && buckets[0].0 != lang ==> has_lang(
            buckets.skip(1),
            lang,
        )) by {
            if has_lang(buckets, lang) && buckets[0].0 != lang {
                let i = choose|i: int| 0 <= i < buckets.len() && buckets[i].0 == lang;
                assert(buckets.skip(1)[i - 1].0 == lang);
            }
        }
        assert(has_lang(buckets.skip(1), lang) ==> has_lang(buckets, lang)) by {
            if has_lang(buckets.skip(1), lang) {
                let j = choose|j: int|
                    0 <= j < buckets.skip(1).len() && buckets.skip(1)[j].0 == lang;
                assert(buckets[j + 1].0 == lang);
            }
        }
        lemma_bucket_of_push(buckets.skip(1), p, lang);
        if buckets[0].0 == lang {
            assert(has_lang(buckets, lang)) by {
                assert(buckets[0].0 == lang);
            }
            assert(bucket_of(buckets.push(p), lang) == buckets[0].1);
            assert(bucket_of(buckets, lang) == buckets[0].1);
        } else {
            assert(bucket_of(buckets.push(p), lang) == bucket_of(buckets.skip(1).push(p), lang));
            assert(bucket_of(buckets, lang) == bucket_of(buckets.skip(1), lang));
        }
    }
}

/// Replacing the sentences of the first bucket for a key rewrites
/// `bucket_of` at that key and nowhere else.
pub proof fn lemma_bucket_of_update(
    buckets: Seq<(Seq<char>, Seq<Seq<char>>)>,
    k: int,
    b2: Seq<Seq<char>>,
    lang: Seq<char>,
)
    requires
        0 <= k < buckets.len(),
        forall|j: int| 0 <= j < k ==> buckets[j].0 != buckets[k].0,
    ensures
        bucket_of(buckets.update(k, (buckets[k].0, b2)), lang) == if lang == buckets[k].0 {
            b2
        } else {
            bucket_of(buckets, lang)
        },
    decreases k,
{
    let upd = buckets.update(k, (buckets[k].0, b2));
    if k == 0 {
        if buckets[0].0 != lang {
            assert(upd.skip(1) =~= buckets.skip(1));
        }
    } else {
        assert(upd[0] == buckets[0]);
        assert(upd.skip(1) =~= buckets.skip(1).update(k - 1, (buckets[k].0, b2)));
        assert(buckets.skip(1)[k - 1] == buckets[k]);
        assert(forall|j: int| 0 <= j < k - 1 ==> #[trigger] buckets.skip(1)[j].0 != buckets.skip(
            1,
        )[k - 1].0);
        lemma_bucket_of_update(buckets.skip(1), k - 1, b2, lang);
    }
}

/// The first bucket for a key holds exactly `bucket_of` at that key.
pub proof fn lemma_bucket_of_at(buckets: Seq<(Seq<char>, Seq<Seq<char>>)>, k: int)
    requires
        0 <= k < buckets.len(),
        forall|j: int| 0 <= j < k ==> buckets[j].0 != buckets[k].0,
    ensures
        bucket_of(buckets, buckets[k].0) == buckets[k].1,
        has_lang(buckets, buckets[k].0),
    decreases k,
{
    if k > 0 {
        assert(buckets.skip(1)[k - 1] == buckets[k]);
        assert(forall|j: int| 0 <= j < k - 1 ==> #[trigger] buckets.skip(1)[j].0 != buckets.skip(
            1,
        )[k - 1].0);
        lemma_bucket_of_at(buckets.skip(1), k - 1);
    }
}

/// Container for the (language, sentences) buckets of one shard.
pub struct ShardContent {
    inner: Vec<(String, Vec<String>)>,
}

impl View for ShardContent {
    type V = Seq<(Seq<char>, Seq<Seq<char>>)>;

    closed spec fn view(&self) -> Seq<(Seq<char>, Seq<Seq<char>>)> {
        self.inner.deep_view()
    }
}

impl ShardContent {
    /// Languages are unique and no stored bucket is empty.
    pub open spec fn wf(self) -> bool {
        &&& forall|i: int, j: int| 0 <= i < j < self@.len() ==> self@[i].0 != self@[j].0
        &&& forall|i: int| 0 <= i < self@.len() ==> self@[i].1.len() > 0
    }

    /// Creates a new, empty `ShardContent`.
    pub fn new() -> (r: ShardContent)
        ensures
            r@ == Seq::<(Seq<char>, Seq<Seq<char>>)>::empty(),
            r.wf(),
    {
        let r = ShardContent { inner: Vec::new() };
        proof {
            assert(r@ =~= Seq::<(Seq<char>, Seq<Seq<char>>)>::empty());
        }
        r
    }

    /// Inserts `sentence` into the `lang` bucket, creating the bucket on
    /// first use.
    pub fn insert(&mut self, sentence: String, lang: String)
        requires
            old(self).wf(),
        ensures
            final(self).wf(),
            forall|l: Seq<char>| #![auto]
                bucket_of(final(self)@, l) == if l == lang@ {
                    bucket_of(old(self)@, l).push(sentence@)
                } else {
                    bucket_of(old(self)@, l)
                },
            forall|l: Seq<char>| #![auto]
                has_lang(final(self)@, l) <==> (has_lang(old(self)@, l) || l == lang@),
    {
        let ghost s0 = sentence@;
        let ghost l0 = lang@;
        let ghost v0 = self@;
        let mut i: usize = 0;
        while i < self.inner.len()
            invariant
                i <= self.inner.len(),
                *self == *old(self),
                self@.len() == self.inner.len(),
                s0 == sentence@,
                l0 == lang@,
                v0 == old(self)@,
                old(self).wf(),
                forall|j: int| 0 <= j < i ==> self@[j].0 != l0,
            decreases self.inner.len() - i,
        {
            if self.inner[i].0 == *&lang {
                let mut pair = self.inner.remove(i);
                pair.1.push(sentence);
                proof {
                    assert(pair.1.deep_view() =~= v0[i as int].1.push(s0));
                }
                self.inner.insert(i, pair);
                proof {
                    assert(self@ =~= v0.update(i as int, (l0, v0[i as int].1.push(s0))));
                    assert(v0[i as int].0 == l0);
                    lemma_bucket_of_at(v0, i as int);
                    assert forall|l: Seq<char>| #![auto]
                        bucket_of(self@, l) == if l == l0 {
                            bucket_of(v0, l).push(s0)
                        } else {
                            bucket_of(v0, l)
                        } by {
                        lemma_bucket_of_update(v0, i as int, v0[i as int].1.push(s0), l);
                    }
                    assert forall|l: Seq<char>| #![auto]
                        has_lang(self@, l) <==> (has_lang(v0, l) || l == l0) by {
                        if has_lang(self@, l) {
                            let m = choose|m: int| 0 <= m < self@.len() && self@[m].0 == l;
                            assert(v0[m].0 == self@[m].0);
                        }
                        if has_lang(v0, l) {
                            let m = choose|m: int| 0 <= m < v0.len() && v0[m].0 == l;
                            assert(self@[m].0 == v0[m].0);
                        }
                        if l == l0 {
                            assert(self@[i as int].0 == l);
                        }
                    }
                    assert(self@.len() == v0.len());
                    assert forall|m: int| 0 <= m < self@.len() implies self@[m].0 == v0[m].0 by {
                        if m != i as int {
                            assert(self@[m] == v0[m]);
                        }
                    }
                    assert forall|m: int| 0 <= m < self@.len() implies self@[m].1.len() > 0 by {
                        if m == i as int {
                            assert(self@[m].1 == v0[i as int].1.push(s0));
                        } else {
                            assert(self@[m] == v0[m]);
                        }
                    }
                }
                return ;
            }
            i = i + 1;
        }
        proof {
            assert(!has_lang(v0, l0)) by {
                if has_lang(v0, l0) {
                    let m = choose|m: int| 0 <= m < v0.len() && v0[m].0 == l0;
                }
            }
            lemma_bucket_of_absent(v0, l0);
        }
        let mut bucket: Vec<String> = Vec::new();
        bucket.push(sentence);
        self.inner.push((lang, bucket));
        proof {
            assert(bucket.deep_view() =~= seq![s0]);
            assert(self@ =~= v0.push((l0, seq![s0])));
            assert forall|l: Seq<char>| #![auto]
                bucket_of(self@, l) == if l == l0 {
                    bucket_of(v0, l).push(s0)
                } else {
                    bucket_of(v0, l)
                } by {
                lemma_bucket_of_push(v0, (l0, seq![s0]), l);
                if !has_lang(v0, l) {
                    lemma_bucket_of_absent(v0, l);
                }
                if l == l0 {
                    assert(bucket_of(v0, l) =~= Seq::<Seq<char>>::empty());
                    assert(bucket_of(v0, l).push(s0) =~= seq![s0]);
                }
            }
            assert forall|l: Seq<char>| #![auto]
                has_lang(self@, l) <==> (has_lang(v0, l) || l == l0) by {
                lemma_bucket_of_push(v0, (l0, seq![s0]), l);
            }
        }
    }

    /// Folds classified pairs in order: each sentence is appended to the
    /// bucket of its language.
    pub fn fold_pairs(&mut self, pairs: Vec<(String, String)>)
        requires
            old(self).wf(),
        ensures
            final(self).wf(),
            forall|l: Seq<char>| #![auto]
                bucket_of(final(self)@, l) == bucket_of(old(self)@, l) + sentences_for(
                    pairs.deep_view(),
                    l,
                ),
    {
        let ghost all = pairs.deep_view();
        let ghost mut done: Seq<(Seq<char>, Seq<char>)> = Seq::empty();
        let mut rest = pairs;
        proof {
            assert(done + rest.deep_view() =~= all);
            assert forall|l: Seq<char>| #![auto]
                bucket_of(self@, l) == bucket_of(old(self)@, l) + sentences_for(done, l) by {
                assert(bucket_of(old(self)@, l) + sentences_for(done, l) =~= bucket_of(
                    old(self)@,
                    l,
                ));
            }
        }
        while rest.len() > 0
            invariant
                self.wf(),
                done + rest.deep_view() == all,
                forall|l: Seq<char>| #![auto]
                    bucket_of(self@, l) == bucket_of(old(self)@, l) + sentences_for(done, l),
            decreases rest.len(),
        {
            let ghost rest0 = rest.deep_view();
            let ghost pre = done;
            let p = rest.remove(0);
            let ghost pv = (p.0@, p.1@);
            proof {
                assert(rest.deep_view() =~= rest0.skip(1));
                assert(rest0[0] == pv);
                done = done.push(pv);
                assert(done + rest.deep_view() =~= all);
            }
            self.insert(p.0, p.1);
            proof {
                assert forall|l: Seq<char>| #![auto]
                    bucket_of(self@, l) == bucket_of(old(self)@, l) + sentences_for(done, l) by {
                    assert(done.drop_last() =~= pre);
                    assert(done.last() == pv);
                    if l == pv.1 {
                        assert(sentences_for(done, l) == sentences_for(pre, l).push(pv.0));
                        assert(bucket_of(old(self)@, l) + sentences_for(pre, l).push(pv.0) =~= (
                        bucket_of(old(self)@, l) + sentences_for(pre, l)).push(pv.0));
                    } else {
                        assert(sentences_for(done, l) == sentences_for(pre, l));
                    }
                }
            }
        }
        proof {
            assert(rest.deep_view() =~= Seq::<(Seq<char>, Seq<char>)>::empty());
            assert(done =~= all);
        }
    }

    /// Hands the buckets out for the flush step, consuming the shard's
    /// content.
    pub fn into_buckets(self) -> (r: Vec<(String, Vec<String>)>)
        ensures
            r.deep_view() == self@,
    {
        self.inner
    }

    /// The bulk chunks a flush of this shard writes: for each bucket, in
    /// order, its language with the bucket's sentences newline-joined
    /// and newline-terminated.
    pub fn flush_plan(&self) -> (r: Vec<(String, String)>)
        ensures
            r.deep_view().len() == self@.len(),
            forall|i: int|
                0 <= i < self@.len() ==> #[trigger] r.deep_view()[i] == (
                    self@[i].0,
                    join_nl(self@[i].1).push('\n'),
                ),
    {
        let mut r: Vec<(String, String)> = Vec::new();
        let mut i: usize = 0;
        while i < self.inner.len()
            invariant
                i <= self.inner.len(),
                self@.len() == self.inner.len(),
                r.deep_view().len() == i,
                forall|k: int|
                    0 <= k < i ==> #[trigger] r.deep_view()[k] == (
                        self@[k].0,
                        join_nl(self@[k].1).push('\n'),
                    ),
            decreases self.inner.len() - i,
        {
            let lang = self.inner[i].0.clone();
            let mut content = join_sentences(&self.inner[i].1);
            push_char(&mut content, '\n');
            let ghost lv = lang@;
            let ghost cv = content@;
            let ghost r0 = r.deep_view();
            r.push((lang, content));
            i = i + 1;
            proof {
                let k0 = (i - 1) as int;
                assert(self@[k0] == (self.inner@[k0].0@, self.inner@[k0].1.deep_view()));
                assert(r.deep_view()[k0] == (lv, cv));
                assert forall|k: int|
                    0 <= k < i implies #[trigger] r.deep_view()[k] == (
                        self@[k].0,
                        join_nl(self@[k].1).push('\n'),
                    ) by {
                    if k < k0 {
                        assert(r.deep_view()[k] == r0[k]);
                    }
                }
            }
        }
        r
    }
}

/// `sentences_for` distributes over concatenation of pair sequences.
pub proof fn lemma_sentences_for_concat(
    a: Seq<(Seq<char>, Seq<char>)>,
    b: Seq<(Seq<char>, Seq<char>)>,
    lang: Seq<char>,
)
    ensures
        sentences_for(a + b, lang) == sentences_for(a, lang) + sentences_for(b, lang),
    decreases b.len(),
{
    if b.len() == 0 {
        assert(a + b =~= a);
        assert(sentences_for(a, lang) + sentences_for(b, lang) =~= sentences_for(a, lang));
    } else {
        assert((a + b).drop_last() =~= a + b.drop_last());
        assert((a + b).last() == b.last());
        lemma_sentences_for_concat(a, b.drop_last(), lang);
        if b.last().1 == lang {
            assert((sentences_for(a, lang) + sentences_for(b.drop_last(), lang)).push(
                b.last().0,
            ) =~= sentences_for(a, lang) + sentences_for(b.drop_last(), lang).push(b.last().0));
        }
    }
}

/// In a well-formed shard a language has a bucket exactly when it has
/// sentences.
pub proof fn lemma_wf_bucket_nonempty(buckets: Seq<(Seq<char>, Seq<Seq<char>>)>, lang: Seq<char>)
    requires
        forall|i: int, j: int| 0 <= i < j < buckets.len() ==> buckets[i].0 != buckets[j].0,
        forall|i: int| 0 <= i < buckets.len() ==> buckets[i].1.len() > 0,
    ensures
        has_lang(buckets, lang) <==> bucket_of(buckets, lang).len() > 0,
{
    if has_lang(buckets, lang) {
        let m = choose|m: int| 0 <= m < buckets.len() && buckets[m].0 == lang;
        assert(forall|j: int| 0 <= j < m ==> buckets[j].0 != buckets[m].0);
        lemma_bucket_of_at(buckets, m);
    } else {
        lemma_bucket_of_absent(buckets, lang);
    }
}

/// A sentence occurs in the bucket of a language exactly as often as
/// the corresponding (sentence, language) pair occurs among the
/// classified pairs.
pub proof fn lemma_sentences_for_count(
    pairs: Seq<(Seq<char>, Seq<char>)>,
    s: Seq<char>,
    lang: Seq<char>,
)
    ensures
        sentences_for(pairs, lang).to_multiset().count(s) == pairs.to_multiset().count(
            (s, lang),
        ),
    decreases pairs.len(),
{
    broadcast use vstd::seq_lib::group_to_multiset_ensures;

    if pairs.len() == 0 {
        assert(pairs.to_multiset() =~= Multiset::<(Seq<char>, Seq<char>)>::empty());
        assert(sentences_for(pairs, lang).to_multiset() =~= Multiset::<Seq<char>>::empty());
    } else {
        let d = pairs.drop_last();
        let p = pairs.last();
        lemma_sentences_for_count(d, s, lang);
        assert(pairs =~= d.push(p));
        assert(pairs.to_multiset() == d.push(p).to_multiset());
        assert(d.push(p).to_multiset() =~= d.to_multiset().insert(p));
        if p.1 == lang {
            assert(sentences_for(pairs, lang) == sentences_for(d, lang).push(p.0));
            assert(sentences_for(d, lang).push(p.0).to_multiset() =~= sentences_for(
                d,
                lang,
            ).to_multiset().insert(p.0));
            if p.0 == s && p.1 == lang {
                assert(p == (s, lang));
            } else {
                assert(p != (s, lang));
            }
        } else {
            assert(sentences_for(pairs, lang) == sentences_for(d, lang));
            assert(p != (s, lang));
        }
    }
}

/// Each classified pair puts its sentence in the bucket of its own
/// language, and a sentence reaches the bucket of a language only
/// through a pair labeling it with exactly that language.
pub proof fn lemma_sentence_in_exactly_its_bucket(pairs: Seq<(Seq<char>, Seq<char>)>, i: int)
    requires
        0 <= i < pairs.len(),
    ensures
        sentences_for(pairs, pairs[i].1).contains(pairs[i].0),
        forall|l: Seq<char>|
            !pairs.to_multiset().contains((pairs[i].0, l)) ==> !sentences_for(
                pairs,
                l,
            ).contains(pairs[i].0),
{
    broadcast use vstd::seq_lib::group_to_multiset_ensures;

    assert(pairs.contains(pairs[i]));
    lemma_sentences_for_count(pairs, pairs[i].0, pairs[i].1);
    assert(pairs.to_multiset().count(pairs[i]) > 0);
    assert(sentences_for(pairs, pairs[i].1).to_multiset().count(pairs[i].0) > 0);
    assert forall|l: Seq<char>|
        !pairs.to_multiset().contains((pairs[i].0, l)) implies !sentences_for(pairs, l).contains(
        pairs[i].0,
    ) by {
        lemma_sentences_for_count(pairs, pairs[i].0, l);
    }
}

/// Folding the same multiset of classified pairs, in whatever order the
/// parallel stage completed, fills every language bucket with the same
/// multiset of sentences.
pub proof fn lemma_fold_order_irrelevant(
    pairs1: Seq<(Seq<char>, Seq<char>)>,
    pairs2: Seq<(Seq<char>, Seq<char>)>,
    lang: Seq<char>,
)
    requires
        pairs1.to_multiset() == pairs2.to_multiset(),
    ensures
        sentences_for(pairs1, lang).to_multiset() == sentences_for(pairs2, lang).to_multiset(),
{
    assert forall|s: Seq<char>|
        sentences_for(pairs1, lang).to_multiset().count(s) == sentences_for(
            pairs2,
            lang,
        ).to_multiset().count(s) by {
        lemma_sentences_for_count(pairs1, s, lang);
        lemma_sentences_for_count(pairs2, s, lang);
    }
    assert(sentences_for(pairs1, lang).to_multiset() =~= sentences_for(
        pairs2,
        lang,
    ).to_multiset());
}

} // verus!
