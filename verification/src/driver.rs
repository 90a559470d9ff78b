//! The pipeline driver's decision logic.
//!
//! The surrounding process walks the source directory, opens each entry
//! as a shard (skipping entries that fail to open or to validate),
//! reads records out of each shard, and performs the real file writes;
//! everything it decides with those values is here: how one record
//! becomes classified (sentence, language) pairs, how a shard's pairs
//! are folded and flushed, and what a whole run appends per language.

use crate::aggregate::{
    bucket_of, lemma_sentences_for_concat, lemma_wf_bucket_nonempty, sentences_for, ShardContent,
};
use crate::lines::{keep_long, retained_lines, spec_lines, decode_body};
use crate::oracle::Oracle;
use crate::output::{content_of, lang_contrib, OutputFiles};
use crate::registry::{spec_lookup, Registry};
use vstd::prelude::*;
use vstd::seq_lib::group_seq_properties;
use vstd::utf8::{decode_utf8, valid_utf8};

verus! {

broadcast use group_seq_properties;

/// The classifiable lines of a record body: the lines of the decoded
/// text, keeping those above the length floor.
pub open spec fn candidate_lines(body: Seq<u8>) -> Seq<Seq<char>> {
    keep_long(spec_lines(decode_utf8(body)))
}

/// The pairs kept from classified lines: line `i` with its resolved
/// code when the top label `tops[i]` exists and resolves in the
/// registry; a line whose label is missing or unknown is dropped.
pub open spec fn spec_resolve(
    lines: Seq<Seq<char>>,
    tops: Seq<Option<Seq<char>>>,
    reg: Seq<(Seq<char>, Seq<char>)>,
) -> Seq<(Seq<char>, Seq<char>)>
    decreases lines.len(),
{
    if lines.len() == 0 || tops.len() == 0 {
        Seq::empty()
    } else {
        let rest = spec_resolve(lines.drop_last(), tops.drop_last(), reg);
        match tops.last() {
            Some(lab) => match spec_lookup(reg, lab) {
                Some(code) => rest.push((lines.last(), code)),
                None => rest,
            },
            None => rest,
        }
    }
}

/// What `pairs` may be for a record with body `body`: empty when the
/// body does not decode, else the resolution of the record's candidate
/// lines under some per-line oracle answers.
pub open spec fn record_pairs_ok(
    body: Seq<u8>,
    reg: Seq<(Seq<char>, Seq<char>)>,
    pairs: Seq<(Seq<char>, Seq<char>)>,
) -> bool {
    if valid_utf8(body) {
        exists|tops: Seq<Option<Seq<char>>>|
            tops.len() == candidate_lines(body).len() && pairs == #[trigger] spec_resolve(
                candidate_lines(body),
                tops,
                reg,
            )
    } else {
        pairs == Seq::<(Seq<char>, Seq<char>)>::empty()
    }
}

/// What a per-record pair assignment may be for a whole shard.
pub open spec fn shard_outcome_ok(
    records: Seq<Seq<u8>>,
    reg: Seq<(Seq<char>, Seq<char>)>,
    rec_pairs: Seq<Seq<(Seq<char>, Seq<char>)>>,
) -> bool {
    rec_pairs.len() == records.len() && forall|i: int|
        0 <= i < rec_pairs.len() ==> #[trigger] record_pairs_ok(records[i], reg, rec_pairs[i])
}

/// What one shard's pairs may be for a directory entry: nothing for an
/// entry that failed to open as a shard, else the flattened per-record
/// pairs of the shard's records.
pub open spec fn shard_flat_ok(
    records: Seq<Seq<u8>>,
    reg: Seq<(Seq<char>, Seq<char>)>,
    pairs: Seq<(Seq<char>, Seq<char>)>,
) -> bool {
    exists|rec_pairs: Seq<Seq<(Seq<char>, Seq<char>)>>|
        #[trigger] shard_outcome_ok(records, reg, rec_pairs) && pairs == rec_pairs.flatten()
}

pub open spec fn entry_pairs_ok(
    entry: Option<Seq<Seq<u8>>>,
    reg: Seq<(Seq<char>, Seq<char>)>,
    pairs: Seq<(Seq<char>, Seq<char>)>,
) -> bool {
    match entry {
        None => pairs.len() == 0,
        Some(records) => shard_flat_ok(records, reg, pairs),
    }
}

/// What a per-shard pair assignment may be for a whole run.
pub open spec fn run_outcome_ok(
    entries: Seq<Option<Seq<Seq<u8>>>>,
    reg: Seq<(Seq<char>, Seq<char>)>,
    shard_pairs: Seq<Seq<(Seq<char>, Seq<char>)>>,
) -> bool {
    shard_pairs.len() == entries.len() && forall|i: int|
        0 <= i < shard_pairs.len() ==> #[trigger] entry_pairs_ok(entries[i], reg, shard_pairs[i])
}

/// What one shard's flush appends to the file of `lang`: nothing when
/// the shard has no sentence for `lang`, else its sentences for `lang`
/// newline-joined and newline-terminated.
pub open spec fn shard_lang_contrib(pairs: Seq<(Seq<char>, Seq<char>)>, lang: Seq<char>) -> Seq<
    char,
> {
    if sentences_for(pairs, lang).len() == 0 {
        Seq::empty()
    } else {
        crate::text::join_nl(sentences_for(pairs, lang)).push('\n')
    }
}

/// What a whole run appends to the file of `lang`: the shard
/// contributions, in flush order.
pub open spec fn run_contrib(shard_pairs: Seq<Seq<(Seq<char>, Seq<char>)>>, lang: Seq<char>) -> Seq<
    char,
>
    decreases shard_pairs.len(),
{
    if shard_pairs.len() == 0 {
        Seq::empty()
    } else {
        run_contrib(shard_pairs.drop_last(), lang) + shard_lang_contrib(shard_pairs.last(), lang)
    }
}

/// Pairs each classified line with its registry-resolved language code,
/// dropping every line whose top label is missing or does not resolve.
pub fn resolve_labels(
    lines: &Vec<String>,
    tops: &Vec<Option<String>>,
    registry: &Registry,
) -> (pairs: Vec<(String, String)>)
    requires
        lines@.len() == tops@.len(),
    ensures
        pairs.deep_view() == spec_resolve(lines.deep_view(), tops.deep_view(), registry@),
{
    let ghost lv = lines.deep_view();
    let ghost tv = tops.deep_view();
    let mut pairs: Vec<(String, String)> = Vec::new();
    let mut i: usize = 0;
    proof {
        assert(lv.take(0) =~= Seq::<Seq<char>>::empty());
        assert(tv.take(0) =~= Seq::<Option<Seq<char>>>::empty());
        assert(pairs.deep_view() =~= spec_resolve(lv.take(0), tv.take(0), registry@));
    }
    while i < lines.len()
        invariant
            i <= lines.len(),
            lines@.len() == tops@.len(),
            lv == lines.deep_view(),
            tv == tops.deep_view(),
            pairs.deep_view() == spec_resolve(lv.take(i as int), tv.take(i as int), registry@),
        decreases lines.len() - i,
    {
        let ghost pre = pairs.deep_view();
        match &tops[i] {
            Some(label) => {
                match registry.get(label) {
                    Some(code) => {
                        let sentence = lines[i].clone();
                        let code2 = code.clone();
                        pairs.push((sentence, code2));
                        proof {
                            assert(pairs.deep_view() =~= pre.push((lv[i as int], spec_lookup(
                                registry@,
                                label@,
                            ).unwrap())));
                        }
                    },
                    None => {
                        // unknown language: the sentence is dropped and a
                        // diagnostic belongs to the caller's logging
                    },
                }
            },
            None => {},
        }
        i = i + 1;
        proof {
            let k = (i - 1) as int;
            assert(lv.take(k + 1).drop_last() =~= lv.take(k));
            assert(tv.take(k + 1).drop_last() =~= tv.take(k));
            assert(lv.take(k + 1).last() == lv[k]);
            assert(tv.take(k + 1).last() == tv[k]);
            assert(tv[k] == tops@[k].deep_view());
        }
    }
    proof {
        assert(lv.take(lines@.len() as int) =~= lv);
        assert(tv.take(tops@.len() as int) =~= tv);
    }
    pairs
}

/// Processes one record: decodes the body, keeps the long lines, asks
/// the oracle for each kept line, and pairs each line whose top label
/// resolves with its language code.  A body that fails decoding yields
/// `None`: no sentences and no error.
pub fn process_record<O: Oracle>(body: &Vec<u8>, cls: &O, registry: &Registry) -> (r: Option<
    Vec<(String, String)>,
>)
    ensures
        r is Some <==> valid_utf8(body@),
        r is Some ==> record_pairs_ok(body@, registry@, r.unwrap().deep_view()),
{
    let decoded = decode_body(body);
    match decoded {
        None => None,
        Some(text) => {
            let lines = retained_lines(&text);
            let mut tops: Vec<Option<String>> = Vec::new();
            let mut j: usize = 0;
            while j < lines.len()
                invariant
                    j <= lines.len(),
                    tops@.len() == j,
                decreases lines.len() - j,
            {
                let pred = cls.predict(&lines[j]);
                let top = match pred {
                    Some(mut labels) => {
                        if labels.len() > 0 {
                            Some(labels.remove(0))
                        } else {
                            None
                        }
                    },
                    None => None,
                };
                tops.push(top);
                j = j + 1;
            }
            let pairs = resolve_labels(&lines, &tops, registry);
            proof {
                assert(lines.deep_view() == candidate_lines(body@));
                assert(tops.deep_view().len() == candidate_lines(body@).len());
                assert(record_pairs_ok(body@, registry@, pairs.deep_view())) by {
                    assert(pairs.deep_view() == spec_resolve(
                        candidate_lines(body@),
                        tops.deep_view(),
                        registry@,
                    ));
                }
            }
            Some(pairs)
        },
    }
}

/// Processes one shard: classifies every record and folds all pairs, in
/// record order, into a fresh per-shard aggregate.
pub fn process_shard<O: Oracle>(records: &Vec<Vec<u8>>, cls: &O, registry: &Registry) -> (content:
    ShardContent)
    ensures
        content.wf(),
        exists|rec_pairs: Seq<Seq<(Seq<char>, Seq<char>)>>|
            #[trigger] shard_outcome_ok(records.deep_view(), registry@, rec_pairs) && forall|
                l: Seq<char>,
            |
                bucket_of(content@, l) == #[trigger] sentences_for(rec_pairs.flatten(), l),
{
    let ghost rv = records.deep_view();
    let mut content = ShardContent::new();
    let ghost mut rec_pairs: Seq<Seq<(Seq<char>, Seq<char>)>> = Seq::empty();
    let mut i: usize = 0;
    proof {
        assert(rec_pairs.flatten() =~= Seq::<(Seq<char>, Seq<char>)>::empty());
        assert forall|l: Seq<char>|
            bucket_of(content@, l) == #[trigger] sentences_for(rec_pairs.flatten(), l) by {
            assert(bucket_of(content@, l) =~= Seq::<Seq<char>>::empty());
        }
    }
    while i < records.len()
        invariant
            i <= records.len(),
            rv == records.deep_view(),
            rv.len() == records.len(),
            content.wf(),
            rec_pairs.len() == i,
            forall|k: int|
                0 <= k < i ==> #[trigger] record_pairs_ok(rv[k], registry@, rec_pairs[k]),
            forall|l: Seq<char>|
                bucket_of(content@, l) == #[trigger] sentences_for(rec_pairs.flatten(), l),
        decreases records.len() - i,
    {
        let ghost flat0 = rec_pairs.flatten();
        let ghost pre = content@;
        let r = process_record(&records[i], cls, registry);
        let pairs = match r {
            Some(p) => p,
            None => Vec::new(),
        };
        let ghost pv = pairs.deep_view();
        proof {
            assert(rv[i as int] == records@[i as int].deep_view());
            assert(rv[i as int] =~= records@[i as int]@);
            if !valid_utf8(rv[i as int]) {
                assert(pv =~= Seq::<(Seq<char>, Seq<char>)>::empty());
            }
            assert(record_pairs_ok(rv[i as int], registry@, pv));
        }
        content.fold_pairs(pairs);
        i = i + 1;
        proof {
            let rp0 = rec_pairs;
            rec_pairs = rec_pairs.push(pv);
            rp0.lemma_flatten_push(pv);
            assert(rec_pairs.flatten() == flat0 + pv);
            assert forall|l: Seq<char>|
                bucket_of(content@, l) == #[trigger] sentences_for(rec_pairs.flatten(), l) by {
                lemma_sentences_for_concat(flat0, pv, l);
                assert(bucket_of(content@, l) == bucket_of(pre, l) + sentences_for(pv, l));
            }
        }
    }
    proof {
        assert(shard_outcome_ok(records.deep_view(), registry@, rec_pairs));
    }
    content
}

/// Runs the whole pipeline over the opened directory entries, in order:
/// an entry that failed to open as a shard (`None`) is skipped and
/// contributes nothing; every opened shard is processed, folded and
/// flushed.  Per language, the run appends exactly the concatenation of
/// the shard contributions, in flush order, to whatever content the
/// output held before.
pub fn run_shards<O: Oracle>(
    shards: &Vec<Option<Vec<Vec<u8>>>>,
    cls: &O,
    registry: &Registry,
    out: &mut OutputFiles,
)
    requires
        old(out).wf(),
    ensures
        final(out).wf(),
        exists|shard_pairs: Seq<Seq<(Seq<char>, Seq<char>)>>|
            #[trigger] run_outcome_ok(shards.deep_view(), registry@, shard_pairs) && forall|
                l: Seq<char>,
            |
                content_of(final(out)@, l) == content_of(old(out)@, l) + #[trigger] run_contrib(
                    shard_pairs,
                    l,
                ),
{
    let ghost sv = shards.deep_view();
    let ghost mut shard_pairs: Seq<Seq<(Seq<char>, Seq<char>)>> = Seq::empty();
    let mut i: usize = 0;
    proof {
        assert forall|l: Seq<char>|
            content_of(out@, l) == content_of(old(out)@, l) + #[trigger] run_contrib(
                shard_pairs,
                l,
            ) by {
            assert(content_of(old(out)@, l) + run_contrib(shard_pairs, l) =~= content_of(
                old(out)@,
                l,
            ));
        }
    }
    while i < shards.len()
        invariant
            i <= shards.len(),
            sv == shards.deep_view(),
            sv.len() == shards.len(),
            out.wf(),
            shard_pairs.len() == i,
            forall|k: int|
                0 <= k < i ==> #[trigger] entry_pairs_ok(sv[k], registry@, shard_pairs[k]),
            forall|l: Seq<char>|
                content_of(out@, l) == content_of(old(out)@, l) + #[trigger] run_contrib(
                    shard_pairs,
                    l,
                ),
        decreases shards.len() - i,
    {
        let ghost pre = out@;
        match &shards[i] {
            Some(records) => {
                let content = process_shard(records, cls, registry);
                let ghost cv = content@;
                let ghost rec_pairs = choose|rec_pairs: Seq<Seq<(Seq<char>, Seq<char>)>>|
                    #[trigger] shard_outcome_ok(records.deep_view(), registry@, rec_pairs)
                        && forall|l: Seq<char>|
                        bucket_of(content@, l) == #[trigger] sentences_for(rec_pairs.flatten(), l);
                let ghost pv = rec_pairs.flatten();
                proof {
                    assert(shard_outcome_ok(records.deep_view(), registry@, rec_pairs));
                    assert(forall|l: Seq<char>|
                        bucket_of(cv, l) == #[trigger] sentences_for(rec_pairs.flatten(), l));
                }
                out.append_shard(content);
                proof {
                    let records_dv = records.deep_view();
                    assert(sv[i as int] == shards@[i as int].deep_view());
                    assert(sv[i as int] == Some(records_dv));
                    assert(shard_flat_ok(records_dv, registry@, pv)) by {
                        assert(shard_outcome_ok(records_dv, registry@, rec_pairs));
                        assert(pv == rec_pairs.flatten());
                    }
                    assert(entry_pairs_ok(sv[i as int], registry@, pv));
                    let sp0 = shard_pairs;
                    shard_pairs = shard_pairs.push(pv);
                    assert(shard_pairs.drop_last() =~= sp0);
                    assert(shard_pairs.last() == pv);
                    assert forall|l: Seq<char>|
                        content_of(out@, l) == content_of(old(out)@, l) + #[trigger] run_contrib(
                            shard_pairs,
                            l,
                        ) by {
                        lemma_wf_bucket_nonempty(cv, l);
                        assert(lang_contrib(cv, l) == shard_lang_contrib(pv, l));
                        assert(content_of(out@, l) == content_of(pre, l) + lang_contrib(cv, l));
                        assert(run_contrib(shard_pairs, l) == run_contrib(
                            shard_pairs.drop_last(),
                            l,
                        ) + shard_lang_contrib(pv, l));
                        assert(content_of(old(out)@, l) + run_contrib(shard_pairs, l) =~= (
                        content_of(old(out)@, l) + run_contrib(shard_pairs.drop_last(), l))
                            + shard_lang_contrib(pv, l));
                    }
                }
            },
            None => {
                proof {
                    let ghost pv = Seq::<(Seq<char>, Seq<char>)>::empty();
                    assert(sv[i as int] == shards@[i as int].deep_view());
                    assert(sv[i as int] is None);
                    let sp0 = shard_pairs;
                    shard_pairs = shard_pairs.push(pv);
                    assert(shard_pairs.drop_last() =~= sp0);
                    assert(shard_pairs.last() == pv);
                    assert forall|l: Seq<char>|
                        content_of(out@, l) == content_of(old(out)@, l) + #[trigger] run_contrib(
                            shard_pairs,
                            l,
                        ) by {
                        assert(sentences_for(pv, l) =~= Seq::<Seq<char>>::empty());
                        assert(shard_lang_contrib(pv, l) =~= Seq::<char>::empty());
                        assert(run_contrib(shard_pairs, l) =~= run_contrib(
                            shard_pairs.drop_last(),
                            l,
                        ));
                    }
                }
            },
        }
        i = i + 1;
    }
    proof {
        assert(run_outcome_ok(shards.deep_view(), registry@, shard_pairs));
    }
}

/// A directory entry that is not a valid shard contributes nothing: the
/// run's per-language output is as if the entry were not there at all.
pub proof fn lemma_invalid_entry_contributes_nothing(
    shard_pairs: Seq<Seq<(Seq<char>, Seq<char>)>>,
    k: int,
    lang: Seq<char>,
)
    requires
        0 <= k < shard_pairs.len(),
        shard_pairs[k].len() == 0,
    ensures
        run_contrib(shard_pairs, lang) == run_contrib(shard_pairs.remove(k), lang),
    decreases shard_pairs.len(),
{
    let n = shard_pairs.len() - 1;
    if k == n {
        assert(shard_pairs.remove(k) =~= shard_pairs.drop_last());
        assert(shard_pairs.last() =~= Seq::<(Seq<char>, Seq<char>)>::empty());
        assert(sentences_for(shard_pairs.last(), lang) =~= Seq::<Seq<char>>::empty());
        assert(run_contrib(shard_pairs, lang) =~= run_contrib(shard_pairs.drop_last(), lang));
    } else {
        assert(shard_pairs.remove(k).drop_last() =~= shard_pairs.drop_last().remove(k));
        assert(shard_pairs.remove(k).last() == shard_pairs.last());
        lemma_invalid_entry_contributes_nothing(shard_pairs.drop_last(), k, lang);
    }
}

/// Append semantics hold across shards: the content a run of two shard
/// groups leaves per language is the first group's contribution
/// followed by the second's.
pub proof fn lemma_contributions_concatenate(
    sp1: Seq<Seq<(Seq<char>, Seq<char>)>>,
    sp2: Seq<Seq<(Seq<char>, Seq<char>)>>,
    lang: Seq<char>,
)
    ensures
        run_contrib(sp1 + sp2, lang) == run_contrib(sp1, lang) + run_contrib(sp2, lang),
    decreases sp2.len(),
{
    if sp2.len() == 0 {
        assert(sp1 + sp2 =~= sp1);
        assert(run_contrib(sp1, lang) + run_contrib(sp2, lang) =~= run_contrib(sp1, lang));
    } else {
        assert((sp1 + sp2).drop_last() =~= sp1 + sp2.drop_last());
        assert((sp1 + sp2).last() == sp2.last());
        lemma_contributions_concatenate(sp1, sp2.drop_last(), lang);
        assert((run_contrib(sp1, lang) + run_contrib(sp2.drop_last(), lang))
            + shard_lang_contrib(sp2.last(), lang) =~= run_contrib(sp1, lang) + (run_contrib(
            sp2.drop_last(),
            lang,
        ) + shard_lang_contrib(sp2.last(), lang)));
    }
}

/// A line whose top label is missing or does not resolve in the
/// registry contributes no pair: the resolution is the same as without
/// that line.
pub proof fn lemma_unresolved_line_dropped(
    lines: Seq<Seq<char>>,
    tops: Seq<Option<Seq<char>>>,
    reg: Seq<(Seq<char>, Seq<char>)>,
    i: int,
)
    requires
        lines.len() == tops.len(),
        0 <= i < lines.len(),
        tops[i] is None || spec_lookup(reg, tops[i].unwrap()) is None,
    ensures
        spec_resolve(lines, tops, reg) == spec_resolve(lines.remove(i), tops.remove(i), reg),
    decreases lines.len(),
{
    let n = lines.len() - 1;
    if i == n {
        assert(lines.remove(i) =~= lines.drop_last());
        assert(tops.remove(i) =~= tops.drop_last());
    } else {
        assert(lines.remove(i).drop_last() =~= lines.drop_last().remove(i));
        assert(tops.remove(i).drop_last() =~= tops.drop_last().remove(i));
        assert(lines.remove(i).last() == lines.last());
        assert(tops.remove(i).last() == tops.last());
        assert(lines.drop_last()[i] == lines[i]);
        assert(tops.drop_last()[i] == tops[i]);
        lemma_unresolved_line_dropped(lines.drop_last(), tops.drop_last(), reg, i);
    }
}

} // verus!
