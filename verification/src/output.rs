//! The model of the output side: one append-only text body per
//! language, shared by all shard flushes of a run.
//!
//! A shard flush appends, for every bucket of the shard, the bucket's
//! sentences newline-separated and newline-terminated, in one chunk per
//! language.  The terminating newline keeps successive flushes to the
//! same language from merging the last sentence of one with the first
//! of the next.

use crate::aggregate::{
    bucket_of, has_lang, lemma_bucket_of_absent, lemma_bucket_of_push, ShardContent,
};
use crate::text::{join_nl, join_sentences, push_char};
use vstd::prelude::*;

verus! {

/// The accumulated content of the file for `lang`: the value of the
/// first entry keyed by `lang`, or the empty sequence when none is.
pub open spec fn content_of(files: Seq<(Seq<char>, Seq<char>)>, lang: Seq<char>) -> Seq<char>
    decreases files.len(),
{
    if files.len() == 0 {
        Seq::empty()
    } else if files[0].0 == lang {
        files[0].1
    } else {
        content_of(files.skip(1), lang)
    }
}

/// Whether a file for `lang` exists.
pub open spec fn has_file(files: Seq<(Seq<char>, Seq<char>)>, lang: Seq<char>) -> bool {
    exists|i: int| 0 <= i < files.len() && files[i].0 == lang
}

/// What one shard appends to the file of `lang`: nothing when the shard
/// has no bucket for `lang`, else the bucket newline-joined and
/// newline-terminated.
pub open spec fn lang_contrib(buckets: Seq<(Seq<char>, Seq<Seq<char>>)>, l: Seq<char>) -> Seq<
    char,
> {
    if has_lang(buckets, l) {
        join_nl(bucket_of(buckets, l)).push('\n')
    } else {
        Seq::empty()
    }
}

/// Without a file for `lang` there is no content for `lang`.
pub proof fn lemma_content_of_absent(files: Seq<(Seq<char>, Seq<char>)>, lang: Seq<char>)
    requires
        !has_file(files, lang),
    ensures
        content_of(files, lang) == Seq::<char>::empty(),
    decreases files.len(),
{
    if files.len() > 0 {
        assert(files[0].0 != lang);
        assert(!has_file(files.skip(1), lang)) by {
            if has_file(files.skip(1), lang) {
                let j = choose|j: int| 0 <= j < files.skip(1).len() && files.skip(1)[j].0 == lang;
                assert(files[j + 1].0 == lang);
            }
        }
        lemma_content_of_absent(files.skip(1), lang);
    }
}

/// The per-language registry of output files, created once per run.
pub struct OutputFiles {
    files: Vec<(String, String)>,
}

impl View for OutputFiles {
    type V = Seq<(Seq<char>, Seq<char>)>;

    closed spec fn view(&self) -> Seq<(Seq<char>, Seq<char>)> {
        self.files.deep_view()
    }
}

impl OutputFiles {
    /// Languages are unique.
    pub open spec fn wf(self) -> bool {
        forall|i: int, j: int| 0 <= i < j < self@.len() ==> self@[i].0 != self@[j].0
    }

    /// A new output registry with no file yet.
    pub fn new() -> (r: OutputFiles)
        ensures
            r@ == Seq::<(Seq<char>, Seq<char>)>::empty(),
            r.wf(),
    {
        let r = OutputFiles { files: Vec::new() };
        proof {
            assert(r@ =~= Seq::<(Seq<char>, Seq<char>)>::empty());
        }
        r
    }

    /// The content accumulated for `lang`, if any file for it exists.
    pub fn get(&self, lang: &String) -> (r: Option<&String>)
        ensures
            r is Some <==> has_file(self@, lang@),
            r is Some ==> r.unwrap()@ == content_of(self@, lang@),
    {
        let mut i: usize = 0;
        proof {
            assert(self@.skip(0) =~= self@);
        }
        while i < self.files.len()
            invariant
                i <= self.files.len(),
                self@.len() == self.files.len(),
                content_of(self@, lang@) == content_of(self@.skip(i as int), lang@),
                forall|j: int| 0 <= j < i ==> self@[j].0 != lang@,
            decreases self.files.len() - i,
        {
            proof {
                assert(self@.skip(i as int)[0] == self@[i as int]);
                assert(self@.skip(i as int).skip(1) =~= self@.skip(i as int + 1));
            }
            if self.files[i].0 == *lang {
                return Some(&self.files[i].1);
            }
            i = i + 1;
        }
        proof {
            if has_file(self@, lang@) {
                let m = choose|m: int| 0 <= m < self@.len() && self@[m].0 == lang@;
            }
        }
        None
    }

    /// Appends `chunk` to the file for `lang`, creating the file on
    /// first use, and touches no other file.
    pub fn append(&mut self, lang: &String, chunk: &String)
        requires
            old(self).wf(),
        ensures
            final(self).wf(),
            forall|l: Seq<char>| #![auto]
                content_of(final(self)@, l) == if l == lang@ {
                    content_of(old(self)@, l) + chunk@
                } else {
                    content_of(old(self)@, l)
                },
            forall|l: Seq<char>| #![auto]
                has_file(final(self)@, l) <==> (has_file(old(self)@, l) || l == lang@),
    {
        let ghost c0 = chunk@;
        let ghost l0 = lang@;
        let ghost v0 = self@;
        let mut i: usize = 0;
        while i < self.files.len()
            invariant
                i <= self.files.len(),
                *self == *old(self),
                self@.len() == self.files.len(),
                c0 == chunk@,
                l0 == lang@,
                v0 == old(self)@,
                old(self).wf(),
                forall|j: int| 0 <= j < i ==> self@[j].0 != l0,
            decreases self.files.len() - i,
        {
            if self.files[i].0 == *lang {
                let mut pair = self.files.remove(i);
                pair.1.append(chunk.as_str());
                proof {
                    assert(pair.1@ == v0[i as int].1 + c0);
                }
                self.files.insert(i, pair);
                proof {
                    assert(self@ =~= v0.update(i as int, (l0, v0[i as int].1 + c0)));
                    assert(v0[i as int].0 == l0);
                    lemma_content_at(v0, i as int);
                    assert forall|l: Seq<char>| #![auto]
                        content_of(self@, l) == if l == l0 {
                            content_of(v0, l) + c0
                        } else {
                            content_of(v0, l)
                        } by {
                        lemma_content_update(v0, i as int, v0[i as int].1 + c0, l);
                    }
                    assert forall|l: Seq<char>| #![auto]
                        has_file(self@, l) <==> (has_file(v0, l) || l == l0) by {
                        if has_file(self@, l) {
                            let m = choose|m: int| 0 <= m < self@.len() && self@[m].0 == l;
                            assert(v0[m].0 == self@[m].0);
                        }
                        if has_file(v0, l) {
                            let m = choose|m: int| 0 <= m < v0.len() && v0[m].0 == l;
                            assert(self@[m].0 == v0[m].0);
                        }
                        if l == l0 {
                            assert(self@[i as int].0 == l);
                        }
                    }
                    assert(self@.len() == v0.len());
                    assert forall|m: int| 0 <= m < self@.len() implies self@[m].0 == v0[m].0 by {
                        if m != i as int {
                            assert(self@[m] == v0[m]);
                        }
                    }
                }
                return ;
            }
            i = i + 1;
        }
        proof {
            assert(!has_file(v0, l0)) by {
                if has_file(v0, l0) {
                    let m = choose|m: int| 0 <= m < v0.len() && v0[m].0 == l0;
                }
            }
            lemma_content_of_absent(v0, l0);
        }
        let file = chunk.clone();
        self.files.push((lang.clone(), file));
        proof {
            assert(self@ =~= v0.push((l0, c0)));
            assert forall|l: Seq<char>| #![auto]
                content_of(self@, l) == if l == l0 {
                    content_of(v0, l) + c0
                } else {
                    content_of(v0, l)
                } by {
                lemma_content_push(v0, (l0, c0), l);
                if !has_file(v0, l) {
                    lemma_content_of_absent(v0, l);
                }
                if l == l0 {
                    assert(content_of(v0, l) + c0 =~= c0);
                }
            }
            assert forall|l: Seq<char>| #![auto]
                has_file(self@, l) <==> (has_file(v0, l) || l == l0) by {
                lemma_content_push(v0, (l0, c0), l);
            }
        }
    }

    /// Flushes one shard: appends every bucket's newline-joined,
    /// newline-terminated sentences to the file of the bucket's
    /// language, and touches no other language.
    pub fn append_shard(&mut self, shard: ShardContent)
        requires
            old(self).wf(),
            shard.wf(),
        ensures
            final(self).wf(),
            forall|l: Seq<char>| #![auto]
                content_of(final(self)@, l) == content_of(old(self)@, l) + lang_contrib(
                    shard@,
                    l,
                ),
    {
        let ghost bv = shard@;
        let buckets = shard.into_buckets();
        let mut i: usize = 0;
        proof {
            assert(bv.take(0) =~= Seq::<(Seq<char>, Seq<Seq<char>>)>::empty());
            assert forall|l: Seq<char>| #![auto]
                content_of(self@, l) == content_of(old(self)@, l) + lang_contrib(
                    bv.take(0),
                    l,
                ) by {
                assert(!has_lang(bv.take(0), l));
                assert(content_of(old(self)@, l) + lang_contrib(bv.take(0), l) =~= content_of(
                    old(self)@,
                    l,
                ));
            }
        }
        while i < buckets.len()
            invariant
                i <= buckets.len(),
                self.wf(),
                buckets.deep_view() == bv,
                bv.len() == buckets.len(),
                forall|a: int, b: int| 0 <= a < b < bv.len() ==> bv[a].0 != bv[b].0,
                forall|a: int| 0 <= a < bv.len() ==> bv[a].1.len() > 0,
                forall|l: Seq<char>| #![auto]
                    content_of(self@, l) == content_of(old(self)@, l) + lang_contrib(
                        bv.take(i as int),
                        l,
                    ),
            decreases buckets.len() - i,
        {
            let ghost pre = self@;
            let mut chunk = join_sentences(&buckets[i].1);
            push_char(&mut chunk, '\n');
            proof {
                assert(buckets.deep_view()[i as int] == bv[i as int]);
                assert(chunk@ == join_nl(bv[i as int].1).push('\n'));
            }
            self.append(&buckets[i].0, &chunk);
            i = i + 1;
            proof {
                let k = (i - 1) as int;
                let key = bv[k].0;
                assert(bv.take(k + 1) =~= bv.take(k).push(bv[k]));
                assert(!has_lang(bv.take(k), key)) by {
                    if has_lang(bv.take(k), key) {
                        let m = choose|m: int| 0 <= m < bv.take(k).len() && bv.take(k)[m].0 == key;
                        assert(bv[m].0 == bv[k].0);
                    }
                }
                assert forall|l: Seq<char>| #![auto]
                    content_of(self@, l) == content_of(old(self)@, l) + lang_contrib(
                        bv.take(k + 1),
                        l,
                    ) by {
                    lemma_bucket_of_push(bv.take(k), bv[k], l);
                    if l == key {
                        lemma_bucket_of_absent(bv.take(k), l);
                        assert(lang_contrib(bv.take(k), l) =~= Seq::<char>::empty());
                        assert(content_of(old(self)@, l) + lang_contrib(bv.take(k), l) =~=
                        content_of(old(self)@, l));
                        assert(bucket_of(bv.take(k + 1), l) == bv[k].1);
                        assert(content_of(self@, l) == content_of(pre, l) + chunk@);
                        assert(content_of(old(self)@, l) + lang_contrib(bv.take(k + 1), l) =~= (
                        content_of(old(self)@, l) + lang_contrib(bv.take(k), l)) + chunk@);
                    } else {
                        assert(content_of(self@, l) == content_of(pre, l));
                        assert(lang_contrib(bv.take(k + 1), l) == lang_contrib(bv.take(k), l));
                    }
                }
            }
        }
        proof {
            assert(bv.take(bv.len() as int) =~= bv);
        }
    }
}

/// The first file for a key holds exactly `content_of` at that key.
pub proof fn lemma_content_at(files: Seq<(Seq<char>, Seq<char>)>, k: int)
    requires
        0 <= k < files.len(),
        forall|j: int| 0 <= j < k ==> files[j].0 != files[k].0,
    ensures
        content_of(files, files[k].0) == files[k].1,
        has_file(files, files[k].0),
    decreases k,
{
    if k > 0 {
        assert(files.skip(1)[k - 1] == files[k]);
        assert(forall|j: int| 0 <= j < k - 1 ==> #[trigger] files.skip(1)[j].0 != files.skip(1)[k
            - 1].0);
        lemma_content_at(files.skip(1), k - 1);
    }
}

/// Replacing the value of the first file for a key rewrites
/// `content_of` at that key and nowhere else.
pub proof fn lemma_content_update(
    files: Seq<(Seq<char>, Seq<char>)>,
    k: int,
    c2: Seq<char>,
    lang: Seq<char>,
)
    requires
        0 <= k < files.len(),
        forall|j: int| 0 <= j < k ==> files[j].0 != files[k].0,
    ensures
        content_of(files.update(k, (files[k].0, c2)), lang) == if lang == files[k].0 {
            c2
        } else {
            content_of(files, lang)
        },
    decreases k,
{
    let upd = files.update(k, (files[k].0, c2));
    if k == 0 {
        if files[0].0 != lang {
            assert(upd.skip(1) =~= files.skip(1));
        }
    } else {
        assert(upd[0] == files[0]);
        assert(upd.skip(1) =~= files.skip(1).update(k - 1, (files[k].0, c2)));
        assert(files.skip(1)[k - 1] == files[k]);
        assert(forall|j: int| 0 <= j < k - 1 ==> #[trigger] files.skip(1)[j].0 != files.skip(1)[k
            - 1].0);
        lemma_content_update(files.skip(1), k - 1, c2, lang);
    }
}

/// Appending a file changes `content_of` only for a language that had
/// no file yet, and `has_file` only for the new key.
pub proof fn lemma_content_push(
    files: Seq<(Seq<char>, Seq<char>)>,
    p: (Seq<char>, Seq<char>),
    lang: Seq<char>,
)
    ensures
        has_file(files.push(p), lang) <==> (has_file(files, lang) || p.0 == lang),
        content_of(files.push(p), lang) == if has_file(files, lang) {
            content_of(files, lang)
        } else if p.0 == lang {
            p.1
        } else {
            Seq::<char>::empty()
        },
    decreases files.len(),
{
    assert(has_file(files.push(p), lang) <==> (has_file(files, lang) || p.0 == lang)) by {
        if has_file(files, lang) {
            let i = choose|i: int| 0 <= i < files.len() && files[i].0 == lang;
            assert(files.push(p)[i].0 == lang);
        }
        if p.0 == lang {
            assert(files.push(p)[files.len() as int].0 == lang);
        }
        if has_file(files.push(p), lang) {
            let i = choose|i: int| 0 <= i < files.push(p).len() && files.push(p)[i].0 == lang;
            if i < files.len() {
                assert(files[i].0 == lang);
            }
        }
    }
    if files.len() == 0 {
        assert(files.push(p)[0] == p);
        assert(files.push(p).skip(1) =~= Seq::<(Seq<char>, Seq<char>)>::empty());
        assert(!has_file(files, lang));
        if p.0 == lang {
            assert(content_of(files.push(p), lang) == p.1);
        } else {
            assert(content_of(files.push(p), lang) == content_of(files.push(p).skip(1), lang));
            assert(content_of(files.push(p), lang) =~= Seq::<char>::empty());
        }
    } else {
        assert(files.push(p)[0] == files[0]);
        assert(files.push(p).skip(1) =~= files.skip(1).push(p));
        assert(has_file(files, lang) && files[0].0 != lang ==> has_file(files.skip(1), lang)) by {
            if has_file(files, lang) && files[0].0 != lang {
                let i = choose|i: int| 0 <= i < files.len() && files[i].0 == lang;
                assert(files.skip(1)[i - 1].0 == lang);
            }
        }
        assert(has_file(files.skip(1), lang) ==> has_file(files, lang)) by {
            if has_file(files.skip(1), lang) {
                let j = choose|j: int| 0 <= j < files.skip(1).len() && files.skip(1)[j].0 == lang;
                assert(files[j + 1].0 == lang);
            }
        }
        lemma_content_push(files.skip(1), p, lang);
        if files[0].0 == lang {
            assert(has_file(files, lang)) by {
                assert(files[0].0 == lang);
            }
            assert(content_of(files.push(p), lang) == files[0].1);
            assert(content_of(files, lang) == files[0].1);
        } else {
            assert(content_of(files.push(p), lang) == content_of(files.skip(1).push(p), lang));
            assert(content_of(files, lang) == content_of(files.skip(1), lang));
        }
    }
}

} // verus!
