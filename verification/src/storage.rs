use vstd::prelude::*;
use vstd::map::*;
use crate::document::{Document, DocModel, tag_set, view_set};
use crate::table::{Table, lex_lt, string_lt, lemma_lex_irrefl};
use crate::tokenize::{tokenize, token_set, strs_view};
use crate::codec::{RQuery, RecModel, rec_key, rec_ok, enc_record, dec_record, decode_record};
use crate::router::{Router, Event, EventModel};
use crate::wal::{parse_page, page_clean, recoverable, pages_view};
use vstd::bytes::u32_from_le_bytes;

verus! {

/// Whether the datastore keeps disk copies through the paged log.
pub enum StorageType {
    InMemoryOnly,
    DiskCopies,
}

/// The open-time option bundle.
pub struct Options {
    pub path: String,
    pub storage_name: String,
    pub total_page_size: usize,
    pub stype: StorageType,
}

/// Membership of a key in a posting list.
pub open spec fn has_str(l: Seq<String>, k: Seq<char>) -> bool {
    exists|i: int| 0 <= i < l.len() && (#[trigger] l[i])@ == k
}

pub open spec fn no_dup(l: Seq<String>) -> bool {
    forall|i: int, j: int| 0 <= i < j < l.len() ==> (#[trigger] l[i])@ != (#[trigger] l[j])@
}

/// Membership of a key under a name in an inverted map.
pub open spec fn posting_mem(m: Map<Seq<char>, Seq<String>>, t: Seq<char>, k: Seq<char>) -> bool {
    m.contains_key(t) && has_str(m[t], k)
}

/// Every posting list is free of duplicates and nonempty: an empty list
/// is deleted rather than kept.
pub open spec fn postings_wf(m: Map<Seq<char>, Seq<String>>) -> bool {
    forall|t: Seq<char>| m.contains_key(t) ==> no_dup(#[trigger] m[t]) && m[t].len() > 0
}

proof fn lemma_has_str_push(l: Seq<String>, x: String, k: Seq<char>)
    ensures
        has_str(l.push(x), k) == (has_str(l, k) || x@ == k),
{
    if has_str(l, k) {
        let i = choose|i: int| 0 <= i < l.len() && (#[trigger] l[i])@ == k;
        assert(l.push(x)[i]@ == k);
    }
    if x@ == k {
        assert(l.push(x)[l.len() as int]@ == k);
    }
    if has_str(l.push(x), k) {
        let i = choose|i: int| 0 <= i < l.push(x).len() && (#[trigger] l.push(x)[i])@ == k;
        if i < l.len() {
            assert(l[i]@ == k);
        } else {
            assert(x@ == k);
        }
    }
}

/// Whether a posting list holds the given key.
fn vec_has(l: &Vec<String>, k: &String) -> (r: bool)
    ensures
        r == has_str(l@, k@),
{
    let mut i: usize = 0;
    while i < l.len()
        invariant
            i <= l@.len(),
            forall|j: int| 0 <= j < i ==> (#[trigger] l@[j])@ != k@,
        decreases l@.len() - i,
    {
        if l[i] == *k {
            return true;
        }
        i = i + 1;
    }
    false
}

/// Adds `k` under name `t`, creating the posting list if absent; no
/// other membership changes.
fn posting_add(m: &mut Table<Vec<String>>, t: &String, k: &String)
    requires
        old(m).wf(),
        postings_wf(old(m)@),
    ensures
        final(m).wf(),
        postings_wf(final(m)@),
        forall|t2: Seq<char>, k2: Seq<char>|
            #[trigger] posting_mem(final(m)@, t2, k2) == (posting_mem(old(m)@, t2, k2) || (t2 == t@
                && k2 == k@)),
{
    let cur = m.remove(t);
    let ghost m0 = old(m)@;
    match cur {
        None => {
            let mut l: Vec<String> = Vec::new();
            l.push(k.clone());
            proof {
                assert(l@[0]@ == k@);
            }
            m.insert(t.clone(), l);
            proof {
                assert forall|t2: Seq<char>, k2: Seq<char>| #[trigger] posting_mem(m@, t2, k2) == (
                posting_mem(m0, t2, k2) || (t2 == t@ && k2 == k@)) by {
                    if t2 == t@ {
                        assert(!m0.contains_key(t@));
                        if k2 == k@ {
                            assert(m@[t2][0]@ == k@);
                        }
                    } else {
                        assert(m@.contains_key(t2) == m0.contains_key(t2));
                        if m0.contains_key(t2) {
                            assert(m@[t2] == m0[t2]);
                        }
                    }
                }
                assert forall|t2: Seq<char>| m@.contains_key(t2) implies no_dup(#[trigger] m@[t2])
                    && m@[t2].len() > 0 by {
                    if t2 != t@ {
                        assert(m@[t2] == m0[t2]);
                    }
                }
            }
        },
        Some(mut l) => {
            let ghost l0 = l@;
            if !vec_has(&l, k) {
                l.push(k.clone());
                proof {
                    lemma_has_str_push(l0, l@.last(), k@);
                }
            }
            proof {
                assert(no_dup(l@)) by {
                    if l@ != l0 {
                        assert forall|i: int, j: int| 0 <= i < j < l@.len() implies (
                        #[trigger] l@[i])@ != (#[trigger] l@[j])@ by {
                            if j < l0.len() {
                                assert(l@[i] == l0[i] && l@[j] == l0[j]);
                            } else {
                                assert(l@[j]@ == k@);
                                assert(l@[i] == l0[i]);
                                assert(!has_str(l0, k@));
                            }
                        }
                    }
                }
                assert(forall|k2: Seq<char>|
                    has_str(l@, k2) == (has_str(l0, k2) || k2 == k@)) by {
                    assert forall|k2: Seq<char>| has_str(l@, k2) == (has_str(l0, k2) || k2 == k@) by {
                        if l@ == l0 {
                            if k2 == k@ {
                                assert(has_str(l0, k@));
                            }
                        } else {
                            lemma_has_str_push(l0, l@.last(), k2);
                            assert(l@ == l0.push(l@.last()));
                        }
                    }
                }
            }
            m.insert(t.clone(), l);
            proof {
                assert forall|t2: Seq<char>, k2: Seq<char>| #[trigger] posting_mem(m@, t2, k2) == (
                posting_mem(m0, t2, k2) || (t2 == t@ && k2 == k@)) by {
                    if t2 == t@ {
                        assert(m@[t2] == l@);
                        assert(m0.contains_key(t@) && m0[t@] == l0);
                    } else {
                        assert(m@.contains_key(t2) == m0.contains_key(t2));
                        if m0.contains_key(t2) {
                            assert(m@[t2] == m0[t2]);
                        }
                    }
                }
                assert forall|t2: Seq<char>| m@.contains_key(t2) implies no_dup(#[trigger] m@[t2])
                    && m@[t2].len() > 0 by {
                    if t2 != t@ {
                        assert(m@[t2] == m0[t2]);
                    }
                }
            }
        },
    }
}

/// Removes `k` under name `t`, deleting the posting list if it becomes
/// empty; no other membership changes.
fn posting_remove(m: &mut Table<Vec<String>>, t: &String, k: &String)
    requires
        old(m).wf(),
        postings_wf(old(m)@),
    ensures
        final(m).wf(),
        postings_wf(final(m)@),
        forall|t2: Seq<char>, k2: Seq<char>|
            #[trigger] posting_mem(final(m)@, t2, k2) == (posting_mem(old(m)@, t2, k2) && !(t2 == t@
                && k2 == k@)),
{
    let ghost m0 = old(m)@;
    let cur = m.remove(t);
    match cur {
        None => {
            proof {
                assert(!m0.contains_key(t@));
                assert(m@ =~= m0);
            }
        },
        Some(l) => {
            let mut l2: Vec<String> = Vec::new();
            let mut i: usize = 0;
            while i < l.len()
                invariant
                    i <= l@.len(),
                    m0.contains_key(t@) && m0[t@] == l@,
                    no_dup(l@),
                    no_dup(l2@),
                    forall|k2: Seq<char>|
                        #[trigger] has_str(l2@, k2) == (has_str(l@.take(i as int), k2) && k2
                            != k@),
                decreases l@.len() - i,
            {
                let ghost l2pre = l2@;
                if !(l[i] == *k) {
                    proof {
                        if has_str(l2@, l@[i as int]@) {
                            assert(has_str(l@.take(i as int), l@[i as int]@));
                            let j = choose|j: int|
                                0 <= j < i && (#[trigger] l@.take(i as int)[j])@ == l@[i as int]@;
                            assert(l@[j]@ == l@[i as int]@);
                            assert(false);
                        }
                    }
                    l2.push(l[i].clone());
                }
                proof {
                    assert(l@.take(i as int + 1) =~= l@.take(i as int).push(l@[i as int]));
                    if l2@ != l2pre {
                        assert(l2@ == l2pre.push(l2@.last()));
                        assert(no_dup(l2@)) by {
                            assert forall|a: int, b: int| 0 <= a < b < l2@.len() implies (
                            #[trigger] l2@[a])@ != (#[trigger] l2@[b])@ by {
                                if b < l2pre.len() {
                                    assert(l2@[a] == l2pre[a] && l2@[b] == l2pre[b]);
                                } else {
                                    assert(l2@[a] == l2pre[a]);
                                    assert(l2@[b]@ == l@[i as int]@);
                                    assert(!has_str(l2pre, l@[i as int]@));
                                    if l2@[a]@ == l2@[b]@ {
                                        assert(has_str(l2pre, l@[i as int]@));
                                    }
                                }
                            }
                        }
                    }
                    assert forall|k2: Seq<char>| #[trigger] has_str(l2@, k2) == (has_str(
                        l@.take(i as int + 1),
                        k2,
                    ) && k2 != k@) by {
                        lemma_has_str_push(l@.take(i as int), l@[i as int], k2);
                        if l@[i as int]@ != k@ {
                            lemma_has_str_push(l2pre, l2@.last(), k2);
                            assert(l2@ == l2pre.push(l2@.last()));
                            assert(l2@.last()@ == l@[i as int]@);
                        }
                    }
                }
                i = i + 1;
            }
            proof {
                assert(l@.take(l@.len() as int) =~= l@);
            }
            if l2.len() > 0 {
                m.insert(t.clone(), l2);
            }
            proof {
                assert forall|t2: Seq<char>, k2: Seq<char>| #[trigger] posting_mem(m@, t2, k2) == (
                posting_mem(m0, t2, k2) && !(t2 == t@ && k2 == k@)) by {
                    if t2 == t@ {
                        if l2@.len() > 0 {
                            assert(m@[t2] == l2@);
                        } else {
                            assert(!m@.contains_key(t2));
                            if posting_mem(m0, t2, k2) && k2 != k@ {
                                assert(has_str(l@, k2));
                                assert(!has_str(l2@, k2));
                                assert(has_str(l@.take(l@.len() as int), k2));
                                assert(false);
                            }
                        }
                    } else {
                        assert(m@.contains_key(t2) == m0.contains_key(t2));
                        if m0.contains_key(t2) {
                            assert(m@[t2] == m0[t2]);
                        }
                    }
                }
                assert forall|t2: Seq<char>| m@.contains_key(t2) implies no_dup(#[trigger] m@[t2])
                    && m@[t2].len() > 0 by {
                    if t2 != t@ {
                        assert(m@[t2] == m0[t2]);
                    }
                }
            }
        },
    }
}

/// Removes `k` under every name in `names`.
fn postings_clear_key(m: &mut Table<Vec<String>>, names: &Vec<String>, key: &String)
    requires
        old(m).wf(),
        postings_wf(old(m)@),
    ensures
        final(m).wf(),
        postings_wf(final(m)@),
        forall|t2: Seq<char>, k2: Seq<char>|
            #[trigger] posting_mem(final(m)@, t2, k2) == (posting_mem(old(m)@, t2, k2) && !(k2
                == key@ && has_str(names@, t2))),
{
    let ghost m0 = old(m)@;
    let mut i: usize = 0;
    while i < names.len()
        invariant
            i <= names@.len(),
            m.wf(),
            postings_wf(m@),
            forall|t2: Seq<char>, k2: Seq<char>|
                #[trigger] posting_mem(m@, t2, k2) == (posting_mem(m0, t2, k2) && !(k2 == key@
                    && has_str(names@.take(i as int), t2))),
        decreases names@.len() - i,
    {
        let ghost mpre = m@;
        posting_remove(m, &names[i], key);
        proof {
            assert(names@.take(i as int + 1) =~= names@.take(i as int).push(names@[i as int]));
            assert forall|t2: Seq<char>, k2: Seq<char>| #[trigger] posting_mem(m@, t2, k2) == (
            posting_mem(m0, t2, k2) && !(k2 == key@ && has_str(names@.take(i as int + 1), t2))) by {
                lemma_has_str_push(names@.take(i as int), names@[i as int], t2);
                assert(posting_mem(m@, t2, k2) == (posting_mem(mpre, t2, k2) && !(t2
                    == names@[i as int]@ && k2 == key@)));
                assert(posting_mem(mpre, t2, k2) == (posting_mem(m0, t2, k2) && !(k2 == key@
                    && has_str(names@.take(i as int), t2))));
            }
        }
        i = i + 1;
    }
    proof {
        assert(names@.take(names@.len() as int) =~= names@);
    }
}

/// Adds `k` under every name in `names`.
fn postings_add_key(m: &mut Table<Vec<String>>, names: &Vec<String>, key: &String)
    requires
        old(m).wf(),
        postings_wf(old(m)@),
    ensures
        final(m).wf(),
        postings_wf(final(m)@),
        forall|t2: Seq<char>, k2: Seq<char>|
            #[trigger] posting_mem(final(m)@, t2, k2) == (posting_mem(old(m)@, t2, k2) || (k2
                == key@ && has_str(names@, t2))),
{
    let ghost m0 = old(m)@;
    let mut i: usize = 0;
    while i < names.len()
        invariant
            i <= names@.len(),
            m.wf(),
            postings_wf(m@),
            forall|t2: Seq<char>, k2: Seq<char>|
                #[trigger] posting_mem(m@, t2, k2) == (posting_mem(m0, t2, k2) || (k2 == key@
                    && has_str(names@.take(i as int), t2))),
        decreases names@.len() - i,
    {
        let ghost mpre = m@;
        posting_add(m, &names[i], key);
        proof {
            assert(names@.take(i as int + 1) =~= names@.take(i as int).push(names@[i as int]));
            assert forall|t2: Seq<char>, k2: Seq<char>| #[trigger] posting_mem(m@, t2, k2) == (
            posting_mem(m0, t2, k2) || (k2 == key@ && has_str(names@.take(i as int + 1), t2))) by {
                lemma_has_str_push(names@.take(i as int), names@[i as int], t2);
                assert(posting_mem(m@, t2, k2) == (posting_mem(mpre, t2, k2) || (t2
                    == names@[i as int]@ && k2 == key@)));
                assert(posting_mem(mpre, t2, k2) == (posting_mem(m0, t2, k2) || (k2 == key@
                    && has_str(names@.take(i as int), t2))));
            }
        }
        i = i + 1;
    }
    proof {
        assert(names@.take(names@.len() as int) =~= names@);
    }
}

/// The names of the views a document declares membership in, with the
/// flag true.
fn true_view_names(v: &Vec<(String, bool)>) -> (r: Vec<String>)
    ensures
        forall|t: Seq<char>|
            #[trigger] has_str(r@, t) == (exists|j: int|
                0 <= j < v@.len() && (#[trigger] v@[j]).0@ == t && v@[j].1),
{
    let mut r: Vec<String> = Vec::new();
    let mut i: usize = 0;
    while i < v.len()
        invariant
            i <= v@.len(),
            forall|t: Seq<char>|
                #[trigger] has_str(r@, t) == (exists|j: int|
                    0 <= j < i && (#[trigger] v@[j]).0@ == t && v@[j].1),
        decreases v@.len() - i,
    {
        let ghost rpre = r@;
        if v[i].1 {
            r.push(v[i].0.clone());
        }
        proof {
            assert forall|t: Seq<char>| #[trigger] has_str(r@, t) == (exists|j: int|
                0 <= j < i + 1 && (#[trigger] v@[j]).0@ == t && v@[j].1) by {
                if v@[i as int].1 {
                    lemma_has_str_push(rpre, r@.last(), t);
                    assert(r@ == rpre.push(r@.last()));
                    assert(r@.last()@ == v@[i as int].0@);
                    if v@[i as int].0@ == t {
                        assert(v@[i as int].0@ == t && v@[i as int].1);
                    }
                }
                if has_str(r@, t) {
                    if has_str(rpre, t) {
                        let j = choose|j: int| 0 <= j < i && (#[trigger] v@[j]).0@ == t && v@[j].1;
                        assert(0 <= j < i + 1 && v@[j].0@ == t && v@[j].1);
                    }
                }
                if exists|j: int| 0 <= j < i + 1 && (#[trigger] v@[j]).0@ == t && v@[j].1 {
                    let j = choose|j: int| 0 <= j < i + 1 && (#[trigger] v@[j]).0@ == t && v@[j].1;
                    if j < i {
                        assert(has_str(rpre, t));
                    }
                }
            }
        }
        i = i + 1;
    }
    proof {
        assert forall|t: Seq<char>| #[trigger] has_str(r@, t) == (exists|j: int|
            0 <= j < v@.len() && (#[trigger] v@[j]).0@ == t && v@[j].1) by {}
    }
    r
}

/// Tag membership in the document model matches the tag vector.
pub proof fn lemma_tagset_has(d: Document, t: Seq<char>)
    ensures
        tag_set(d@).contains(t) == has_str(d.tags@, t),
{
    if has_str(d.tags@, t) {
        let i = choose|i: int| 0 <= i < d.tags@.len() && (#[trigger] d.tags@[i])@ == t;
        assert(d@.tags[i] == t);
    }
    if tag_set(d@).contains(t) {
        assert(d@.tags.contains(t));
        let i = choose|i: int| 0 <= i < d@.tags.len() && d@.tags[i] == t;
        assert(d.tags@[i]@ == t);
    }
}

/// View membership in the document model matches the true-flagged names.
pub proof fn lemma_viewset_has(d: Document, names: Seq<String>, t: Seq<char>)
    requires
        has_str(names, t) == (exists|j: int|
            0 <= j < d.views@.len() && (#[trigger] d.views@[j]).0@ == t && d.views@[j].1),
    ensures
        view_set(d@).contains(t) == has_str(names, t),
{
    if has_str(names, t) {
        let j = choose|j: int| 0 <= j < d.views@.len() && (#[trigger] d.views@[j]).0@ == t
            && d.views@[j].1;
        assert(d@.views[j] == (t, true));
    }
    if view_set(d@).contains(t) {
        let j = choose|j: int| 0 <= j < d@.views.len() && d@.views[j] == (t, true);
        assert(d.views@[j].0@ == t && d.views@[j].1);
    }
}

/// Token membership in the searchable text matches a token vector
/// produced by the tokeniser.
pub proof fn lemma_tokens_has(toks: Seq<String>, text: Seq<char>, t: Seq<char>)
    requires
        strs_view(toks) == crate::tokenize::tokens_of(text),
    ensures
        token_set(text).contains(t) == has_str(toks, t),
{
    if has_str(toks, t) {
        let i = choose|i: int| 0 <= i < toks.len() && (#[trigger] toks[i])@ == t;
        assert(strs_view(toks)[i] == t);
        assert(crate::tokenize::tokens_of(text)[i] == t);
    }
    if token_set(text).contains(t) {
        let i = choose|i: int|
            0 <= i < crate::tokenize::tokens_of(text).len() && crate::tokenize::tokens_of(text)[i]
                == t;
        assert(strs_view(toks)[i] == t);
        assert(toks[i]@ == t);
    }
}

/// The primary map that a record sequence, replayed in order, produces.
pub open spec fn replay(s: Seq<RecModel>) -> Map<Seq<char>, DocModel>
    decreases s.len(),
{
    if s.len() == 0 {
        Map::empty()
    } else {
        let m = replay(s.drop_last());
        match s.last() {
            RecModel::Insert(k, d) => m.insert(k, d),
            RecModel::Remove(k) => m.remove(k),
        }
    }
}

/// The events a record sequence dispatches: one query event each.
pub open spec fn query_events(s: Seq<RecModel>) -> Seq<EventModel> {
    Seq::new(s.len(), |i: int| EventModel::Query(s[i]))
}

/// Removes the unique-index entry of key `k`, if the entry still points
/// at `k`.
pub open spec fn index_unlink(
    p: Map<Seq<char>, DocModel>,
    idx: Map<Seq<char>, Seq<char>>,
    k: Seq<char>,
) -> Map<Seq<char>, Seq<char>> {
    if p.contains_key(k) {
        match p[k].index_key {
            Some(s0) => if idx.contains_key(s0) && idx[s0] == k {
                idx.remove(s0)
            } else {
                idx
            },
            None => idx,
        }
    } else {
        idx
    }
}

/// The index map after inserting `d` under `k`: the old entry of `k` is
/// unlinked, then the new index string points at `k`; on a collision the
/// last writer wins.
pub open spec fn index_after_insert(
    p: Map<Seq<char>, DocModel>,
    idx: Map<Seq<char>, Seq<char>>,
    k: Seq<char>,
    d: DocModel,
) -> Map<Seq<char>, Seq<char>> {
    match d.index_key {
        Some(s1) => index_unlink(p, idx, k).insert(s1, k),
        None => index_unlink(p, idx, k),
    }
}

/// The index map after removing `k`.
pub open spec fn index_after_remove(
    p: Map<Seq<char>, DocModel>,
    idx: Map<Seq<char>, Seq<char>>,
    k: Seq<char>,
) -> Map<Seq<char>, Seq<char>> {
    index_unlink(p, idx, k)
}

/// The index map that a record sequence, replayed in order, produces:
/// the same unlink-then-link step the live write path takes.
pub open spec fn index_replay(s: Seq<RecModel>) -> Map<Seq<char>, Seq<char>>
    decreases s.len(),
{
    if s.len() == 0 {
        Map::empty()
    } else {
        let p = replay(s.drop_last());
        let idx = index_replay(s.drop_last());
        match s.last() {
            RecModel::Insert(k, d) => index_after_insert(p, idx, k, d),
            RecModel::Remove(k) => index_after_remove(p, idx, k),
        }
    }
}

/// Index soundness: every entry points at a live key whose document
/// declares exactly that index string.
pub open spec fn index_coherent(
    p: Map<Seq<char>, DocModel>,
    idx: Map<Seq<char>, Seq<char>>,
) -> bool {
    forall|s: Seq<char>| #[trigger]
        idx.contains_key(s) ==> p.contains_key(idx[s]) && p[idx[s]].index_key == Some(s)
}

/// Tag coherence: `k` is under `t` exactly when `k` is live and its
/// document carries tag `t`.
pub open spec fn tags_coherent(
    p: Map<Seq<char>, DocModel>,
    m: Map<Seq<char>, Seq<String>>,
) -> bool {
    forall|t: Seq<char>, k: Seq<char>| #[trigger]
        posting_mem(m, t, k) == (p.contains_key(k) && tag_set(p[k]).contains(t))
}

/// View coherence: `k` is under `v` exactly when `k` is live and its
/// document declares membership in view `v`.
pub open spec fn views_coherent(
    p: Map<Seq<char>, DocModel>,
    m: Map<Seq<char>, Seq<String>>,
) -> bool {
    forall|t: Seq<char>, k: Seq<char>| #[trigger]
        posting_mem(m, t, k) == (p.contains_key(k) && view_set(p[k]).contains(t))
}

/// Full-text coherence: `k` is under token `tok` exactly when `k` is
/// live and `tok` occurs in the tokenisation of its searchable text.
pub open spec fn fts_coherent(
    p: Map<Seq<char>, DocModel>,
    m: Map<Seq<char>, Seq<String>>,
) -> bool {
    forall|t: Seq<char>, k: Seq<char>| #[trigger]
        posting_mem(m, t, k) == (p.contains_key(k) && token_set(p[k].text).contains(t))
}

/// The datastore engine: the primary key-to-document map with its four
/// secondary structures, the event router, and the ghost mutation
/// history that the log reflects.
pub struct Storage {
    primary: Table<Document>,
    index: Table<String>,
    tags: Table<Vec<String>>,
    views: Table<Vec<String>>,
    fts: Table<Vec<String>>,
    reporter: Router,
    disk: bool,
    hist: Ghost<Seq<RecModel>>,
    base: Ghost<int>,
}

impl Storage {
    pub closed spec fn primary_map(&self) -> Map<Seq<char>, DocModel> {
        self.primary@
    }

    pub closed spec fn index_map(&self) -> Map<Seq<char>, Seq<char>> {
        self.index@
    }

    pub closed spec fn tags_map(&self) -> Map<Seq<char>, Seq<String>> {
        self.tags@
    }

    pub closed spec fn views_map(&self) -> Map<Seq<char>, Seq<String>> {
        self.views@
    }

    pub closed spec fn fts_map(&self) -> Map<Seq<char>, Seq<String>> {
        self.fts@
    }

    /// The records of every mutation applied so far, in order.
    pub closed spec fn history(&self) -> Seq<RecModel> {
        self.hist@
    }

    /// How much of the history predates the router (was replayed from the
    /// log rather than dispatched).
    pub closed spec fn event_base(&self) -> int {
        self.base@
    }

    pub closed spec fn disk_enabled(&self) -> bool {
        self.disk
    }

    pub closed spec fn sink_count(&self) -> nat {
        self.reporter.sink_count()
    }

    pub closed spec fn sink_live(&self, i: int) -> bool {
        self.reporter.sink_live(i)
    }

    pub closed spec fn sink_trace(&self, i: int) -> Seq<EventModel> {
        self.reporter.sink_trace(i)
    }

    /// The length of the history prefix that sink `i` does not observe.
    pub closed spec fn sink_join(&self, i: int) -> int {
        self.base@ + self.reporter.sink_joined(i)
    }

    /// How much of sink `i`'s trace has been fetched.
    pub closed spec fn sink_cursor(&self, i: int) -> int {
        self.reporter.sink_cursor(i)
    }

    /// The in-memory structures cohere: the primary equals the replayed
    /// history, and every secondary structure matches the primary.
    pub closed spec fn data_wf(&self) -> bool {
        &&& self.primary.wf()
        &&& self.index.wf()
        &&& self.tags.wf()
        &&& self.views.wf()
        &&& self.fts.wf()
        &&& postings_wf(self.tags@)
        &&& postings_wf(self.views@)
        &&& postings_wf(self.fts@)
        &&& self.primary@ == replay(self.hist@)
        &&& self.index@ == index_replay(self.hist@)
        &&& index_coherent(self.primary@, self.index@)
        &&& tags_coherent(self.primary@, self.tags@)
        &&& views_coherent(self.primary@, self.views@)
        &&& fts_coherent(self.primary@, self.fts@)
    }

    pub closed spec fn wf(&self) -> bool {
        &&& self.data_wf()
        &&& self.reporter.wf()
        &&& 0 <= self.base@ <= self.hist@.len()
        &&& self.reporter.log() == query_events(self.hist@.skip(self.base@))
    }

    /// The datastore invariants: uniqueness of the primary, coherence of
    /// the secondary structures, and log authority over memory.
    pub proof fn invariants_hold(&self)
        requires
            self.wf(),
        ensures
            self.primary_map() == replay(self.history()),
            self.index_map() == index_replay(self.history()),
            index_coherent(self.primary_map(), self.index_map()),
            tags_coherent(self.primary_map(), self.tags_map()),
            views_coherent(self.primary_map(), self.views_map()),
            fts_coherent(self.primary_map(), self.fts_map()),
            postings_wf(self.tags_map()),
            postings_wf(self.views_map()),
            postings_wf(self.fts_map()),
    {
    }

    /// Opens an empty datastore with the given options; with disk copies
    /// enabled the caller replays the log pages into it.
    pub fn open(ops: &Options) -> (st: Storage)
        ensures
            st.wf(),
            st.primary_map() == Map::<Seq<char>, DocModel>::empty(),
            st.history() == Seq::<RecModel>::empty(),
            st.event_base() == 0,
            st.sink_count() == 0,
            st.disk_enabled() == (ops.stype is DiskCopies),
    {
        let disk = match ops.stype {
            StorageType::DiskCopies => true,
            StorageType::InMemoryOnly => false,
        };
        let st = Storage {
            primary: Table::new(),
            index: Table::new(),
            tags: Table::new(),
            views: Table::new(),
            fts: Table::new(),
            reporter: Router::new(),
            disk,
            hist: Ghost(Seq::empty()),
            base: Ghost(0),
        };
        proof {
            assert(st.hist@.skip(0) =~= Seq::<RecModel>::empty());
            assert(st.reporter.log() =~= query_events(st.hist@.skip(st.base@)));
            assert forall|t2: Seq<char>, k2: Seq<char>| #[trigger]
                posting_mem(st.tags@, t2, k2) == (st.primary@.contains_key(k2) && tag_set(
                    st.primary@[k2],
                ).contains(t2)) by {}
            assert forall|t2: Seq<char>, k2: Seq<char>| #[trigger]
                posting_mem(st.views@, t2, k2) == (st.primary@.contains_key(k2) && view_set(
                    st.primary@[k2],
                ).contains(t2)) by {}
            assert forall|t2: Seq<char>, k2: Seq<char>| #[trigger]
                posting_mem(st.fts@, t2, k2) == (st.primary@.contains_key(k2) && token_set(
                    st.primary@[k2].text,
                ).contains(t2)) by {}
        }
        st
    }

    /// Applies an insert to memory: the primary and every secondary
    /// structure, with no event and no log write.
    fn mutate_insert(&mut self, key: String, doc: Document)
        requires
            old(self).data_wf(),
        ensures
            final(self).data_wf(),
            final(self).primary@ == old(self).primary@.insert(key@, doc@),
            final(self).index@ == index_after_insert(
                old(self).primary@,
                old(self).index@,
                key@,
                doc@,
            ),
            final(self).hist@ == old(self).hist@.push(RecModel::Insert(key@, doc@)),
            final(self).reporter == old(self).reporter,
            final(self).base@ == old(self).base@,
            final(self).disk == old(self).disk,
    {
        let ghost p0 = self.primary@;
        let ghost idx0 = self.index@;
        let ghost tags0 = self.tags@;
        let ghost views0 = self.views@;
        let ghost fts0 = self.fts@;
        let d_old: Option<Document> = match self.primary.get(&key) {
            Some(d) => Some(d.clone()),
            None => None,
        };
        proof {
            if d_old is Some {
                assert(p0.contains_key(key@) && d_old->Some_0@ == p0[key@]);
            } else {
                assert(!p0.contains_key(key@));
            }
        }
        let doc2 = doc.clone();
        self.primary.insert(key.clone(), doc2);
        let ghost p1 = self.primary@;
        // unique index: unlink the old entry, then install the new one
        match &d_old {
            Some(dold) => {
                match &dold.index_key {
                    Some(s0) => {
                        let mut rm = false;
                        match self.index.get(s0) {
                            Some(k2) => {
                                if *k2 == key {
                                    rm = true;
                                }
                            },
                            None => {},
                        }
                        if rm {
                            let _ = self.index.remove(s0);
                        }
                    },
                    None => {},
                }
            },
            None => {},
        }
        proof {
            assert(self.index@ == index_unlink(p0, idx0, key@));
        }
        match &doc.index_key {
            Some(s1) => {
                self.index.insert(s1.clone(), key.clone());
            },
            None => {},
        }
        proof {
            assert(self.index@ == index_after_insert(p0, idx0, key@, doc@));
        }
        // secondary structures: clear the old document's entries, then
        // add the new document's
        let ghost cleared_tags = self.tags@;
        match &d_old {
            Some(dold) => {
                postings_clear_key(&mut self.tags, &dold.tags, &key);
                let vn = true_view_names(&dold.views);
                postings_clear_key(&mut self.views, &vn, &key);
                let tk = tokenize(dold.text.as_str());
                postings_clear_key(&mut self.fts, &tk, &key);
                proof {
                    let dd = d_old->Some_0;
                    assert forall|t2: Seq<char>, k2: Seq<char>| #[trigger]
                        posting_mem(self.tags@, t2, k2) == (posting_mem(tags0, t2, k2) && k2
                            != key@) by {
                        lemma_tagset_has(dd, t2);
                        assert(posting_mem(tags0, t2, key@) == (p0.contains_key(key@) && tag_set(
                            p0[key@],
                        ).contains(t2)));
                    }
                    assert forall|t2: Seq<char>, k2: Seq<char>| #[trigger]
                        posting_mem(self.views@, t2, k2) == (posting_mem(views0, t2, k2) && k2
                            != key@) by {
                        lemma_viewset_has(dd, vn@, t2);
                        assert(posting_mem(views0, t2, key@) == (p0.contains_key(key@) && view_set(
                            p0[key@],
                        ).contains(t2)));
                    }
                    assert forall|t2: Seq<char>, k2: Seq<char>| #[trigger]
                        posting_mem(self.fts@, t2, k2) == (posting_mem(fts0, t2, k2) && k2
                            != key@) by {
                        lemma_tokens_has(tk@, dd.text@, t2);
                        assert(posting_mem(fts0, t2, key@) == (p0.contains_key(key@) && token_set(
                            p0[key@].text,
                        ).contains(t2)));
                    }
                }
            },
            None => {
                proof {
                    assert forall|t2: Seq<char>, k2: Seq<char>| #[trigger]
                        posting_mem(self.tags@, t2, k2) == (posting_mem(tags0, t2, k2) && k2
                            != key@) by {
                        assert(posting_mem(tags0, t2, key@) == (p0.contains_key(key@) && tag_set(
                            p0[key@],
                        ).contains(t2)));
                    }
                    assert forall|t2: Seq<char>, k2: Seq<char>| #[trigger]
                        posting_mem(self.views@, t2, k2) == (posting_mem(views0, t2, k2) && k2
                            != key@) by {
                        assert(posting_mem(views0, t2, key@) == (p0.contains_key(key@) && view_set(
                            p0[key@],
                        ).contains(t2)));
                    }
                    assert forall|t2: Seq<char>, k2: Seq<char>| #[trigger]
                        posting_mem(self.fts@, t2, k2) == (posting_mem(fts0, t2, k2) && k2
                            != key@) by {
                        assert(posting_mem(fts0, t2, key@) == (p0.contains_key(key@) && token_set(
                            p0[key@].text,
                        ).contains(t2)));
                    }
                }
            },
        }
        let ghost tags_mid = self.tags@;
        let ghost views_mid = self.views@;
        let ghost fts_mid = self.fts@;
        postings_add_key(&mut self.tags, &doc.tags, &key);
        let vn2 = true_view_names(&doc.views);
        postings_add_key(&mut self.views, &vn2, &key);
        let tk2 = tokenize(doc.text.as_str());
        postings_add_key(&mut self.fts, &tk2, &key);
        proof {
            self.hist@ = self.hist@.push(RecModel::Insert(key@, doc@));
            assert(self.hist@.drop_last() =~= old(self).hist@);
            assert(self.primary@ == replay(self.hist@));
            assert(self.index@ == index_replay(self.hist@));
            // tag coherence against the new primary
            assert forall|t2: Seq<char>, k2: Seq<char>| #[trigger]
                posting_mem(self.tags@, t2, k2) == (p1.contains_key(k2) && tag_set(
                    p1[k2],
                ).contains(t2)) by {
                lemma_tagset_has(doc, t2);
                assert(posting_mem(self.tags@, t2, k2) == (posting_mem(tags_mid, t2, k2) || (k2
                    == key@ && has_str(doc.tags@, t2))));
                if k2 != key@ {
                    assert(posting_mem(tags_mid, t2, k2) == (posting_mem(tags0, t2, k2)));
                    assert(posting_mem(tags0, t2, k2) == (p0.contains_key(k2) && tag_set(
                        p0[k2],
                    ).contains(t2)));
                }
            }
            assert forall|t2: Seq<char>, k2: Seq<char>| #[trigger]
                posting_mem(self.views@, t2, k2) == (p1.contains_key(k2) && view_set(
                    p1[k2],
                ).contains(t2)) by {
                lemma_viewset_has(doc, vn2@, t2);
                assert(posting_mem(self.views@, t2, k2) == (posting_mem(views_mid, t2, k2) || (k2
                    == key@ && has_str(vn2@, t2))));
                if k2 != key@ {
                    assert(posting_mem(views_mid, t2, k2) == (posting_mem(views0, t2, k2)));
                    assert(posting_mem(views0, t2, k2) == (p0.contains_key(k2) && view_set(
                        p0[k2],
                    ).contains(t2)));
                }
            }
            assert forall|t2: Seq<char>, k2: Seq<char>| #[trigger]
                posting_mem(self.fts@, t2, k2) == (p1.contains_key(k2) && token_set(
                    p1[k2].text,
                ).contains(t2)) by {
                lemma_tokens_has(tk2@, doc.text@, t2);
                assert(posting_mem(self.fts@, t2, k2) == (posting_mem(fts_mid, t2, k2) || (k2
                    == key@ && has_str(tk2@, t2))));
                if k2 != key@ {
                    assert(posting_mem(fts_mid, t2, k2) == (posting_mem(fts0, t2, k2)));
                    assert(posting_mem(fts0, t2, k2) == (p0.contains_key(k2) && token_set(
                        p0[k2].text,
                    ).contains(t2)));
                }
            }
            // index soundness against the new primary
            assert forall|s: Seq<char>| #[trigger] self.index@.contains_key(s) implies
                p1.contains_key(self.index@[s]) && p1[self.index@[s]].index_key == Some(s) by {
                let idx1 = index_unlink(p0, idx0, key@);
                if doc@.index_key matches Some(s1) && s == s1 {
                } else {
                    assert(idx1.contains_key(s) && self.index@[s] == idx1[s]);
                    assert(idx0.contains_key(s) && idx1[s] == idx0[s]);
                    let kp = idx0[s];
                    assert(p0.contains_key(kp) && p0[kp].index_key == Some(s));
                    if kp == key@ {
                        assert(d_old is Some);
                        assert(d_old->Some_0@.index_key == Some(s));
                        assert(!idx1.contains_key(s));
                        assert(false);
                    }
                }
            }
        }
    }

    /// Applies a remove to memory: the primary and every secondary
    /// structure, with no event and no log write.
    fn mutate_remove(&mut self, key: &String)
        requires
            old(self).data_wf(),
        ensures
            final(self).data_wf(),
            final(self).primary@ == old(self).primary@.remove(key@),
            final(self).index@ == index_after_remove(old(self).primary@, old(self).index@, key@),
            final(self).hist@ == old(self).hist@.push(RecModel::Remove(key@)),
            final(self).reporter == old(self).reporter,
            final(self).base@ == old(self).base@,
            final(self).disk == old(self).disk,
    {
        let ghost p0 = self.primary@;
        let ghost idx0 = self.index@;
        let ghost tags0 = self.tags@;
        let ghost views0 = self.views@;
        let ghost fts0 = self.fts@;
        let d_old = self.primary.remove(key);
        let ghost p1 = self.primary@;
        match &d_old {
            Some(dold) => {
                match &dold.index_key {
                    Some(s0) => {
                        let mut rm = false;
                        match self.index.get(s0) {
                            Some(k2) => {
                                if *k2 == *key {
                                    rm = true;
                                }
                            },
                            None => {},
                        }
                        if rm {
                            let _ = self.index.remove(s0);
                        }
                    },
                    None => {},
                }
                postings_clear_key(&mut self.tags, &dold.tags, key);
                let vn = true_view_names(&dold.views);
                postings_clear_key(&mut self.views, &vn, key);
                let tk = tokenize(dold.text.as_str());
                postings_clear_key(&mut self.fts, &tk, key);
                proof {
                    let dd = d_old->Some_0;
                    assert(dd@ == p0[key@]);
                    assert(self.index@ == index_after_remove(p0, idx0, key@));
                    assert forall|t2: Seq<char>, k2: Seq<char>| #[trigger]
                        posting_mem(self.tags@, t2, k2) == (p1.contains_key(k2) && tag_set(
                            p1[k2],
                        ).contains(t2)) by {
                        lemma_tagset_has(dd, t2);
                        assert(posting_mem(tags0, t2, k2) == (p0.contains_key(k2) && tag_set(
                            p0[k2],
                        ).contains(t2)));
                    }
                    assert forall|t2: Seq<char>, k2: Seq<char>| #[trigger]
                        posting_mem(self.views@, t2, k2) == (p1.contains_key(k2) && view_set(
                            p1[k2],
                        ).contains(t2)) by {
                        lemma_viewset_has(dd, vn@, t2);
                        assert(posting_mem(views0, t2, k2) == (p0.contains_key(k2) && view_set(
                            p0[k2],
                        ).contains(t2)));
                    }
                    assert forall|t2: Seq<char>, k2: Seq<char>| #[trigger]
                        posting_mem(self.fts@, t2, k2) == (p1.contains_key(k2) && token_set(
                            p1[k2].text,
                        ).contains(t2)) by {
                        lemma_tokens_has(tk@, dd.text@, t2);
                        assert(posting_mem(fts0, t2, k2) == (p0.contains_key(k2) && token_set(
                            p0[k2].text,
                        ).contains(t2)));
                    }
                }
            },
            None => {
                proof {
                    assert(!p0.contains_key(key@));
                    assert(p1 =~= p0);
                    assert(self.index@ == index_after_remove(p0, idx0, key@));
                    assert forall|t2: Seq<char>, k2: Seq<char>| #[trigger]
                        posting_mem(self.tags@, t2, k2) == (p1.contains_key(k2) && tag_set(
                            p1[k2],
                        ).contains(t2)) by {
                        assert(posting_mem(tags0, t2, k2) == (p0.contains_key(k2) && tag_set(
                            p0[k2],
                        ).contains(t2)));
                    }
                    assert forall|t2: Seq<char>, k2: Seq<char>| #[trigger]
                        posting_mem(self.views@, t2, k2) == (p1.contains_key(k2) && view_set(
                            p1[k2],
                        ).contains(t2)) by {
                        assert(posting_mem(views0, t2, k2) == (p0.contains_key(k2) && view_set(
                            p0[k2],
                        ).contains(t2)));
                    }
                    assert forall|t2: Seq<char>, k2: Seq<char>| #[trigger]
                        posting_mem(self.fts@, t2, k2) == (p1.contains_key(k2) && token_set(
                            p1[k2].text,
                        ).contains(t2)) by {
                        assert(posting_mem(fts0, t2, k2) == (p0.contains_key(k2) && token_set(
                            p0[k2].text,
                        ).contains(t2)));
                    }
                }
            },
        }
        proof {
            self.hist@ = self.hist@.push(RecModel::Remove(key@));
            assert(self.hist@.drop_last() =~= old(self).hist@);
            assert(self.primary@ == replay(self.hist@));
            assert(self.index@ == index_replay(self.hist@));
            // index soundness against the new primary
            assert forall|s: Seq<char>| #[trigger] self.index@.contains_key(s) implies
                p1.contains_key(self.index@[s]) && p1[self.index@[s]].index_key == Some(s) by {
                assert(idx0.contains_key(s) && self.index@[s] == idx0[s]);
                let kp = idx0[s];
                assert(p0.contains_key(kp) && p0[kp].index_key == Some(s));
                if kp == key@ {
                    assert(d_old is Some);
                    assert(d_old->Some_0@.index_key == Some(s));
                    assert(!index_unlink(p0, idx0, key@).contains_key(s));
                    assert(false);
                }
            }
        }
    }
}


/// View of a result vector of key-document pairs.
pub open spec fn entries_view(v: Seq<(String, Document)>) -> Seq<(Seq<char>, DocModel)> {
    Seq::new(v.len(), |i: int| (v[i].0@, v[i].1@))
}

/// The present keys of a request list, each with its document, in
/// request order; absent keys are skipped silently.
pub open spec fn gets_model(p: Map<Seq<char>, DocModel>, ks: Seq<Seq<char>>) -> Seq<
    (Seq<char>, DocModel),
>
    decreases ks.len(),
{
    if ks.len() == 0 {
        Seq::empty()
    } else {
        let rest = gets_model(p, ks.drop_last());
        if p.contains_key(ks.last()) {
            rest.push((ks.last(), p[ks.last()]))
        } else {
            rest
        }
    }
}

impl Storage {
    /// Inserts a document under a key, replacing any prior document;
    /// every secondary structure follows, then subscribers get the event.
    pub fn insert(&mut self, key: String, doc: Document)
        requires
            old(self).wf(),
        ensures
            final(self).wf(),
            final(self).primary_map() == old(self).primary_map().insert(key@, doc@),
            final(self).history() == old(self).history().push(RecModel::Insert(key@, doc@)),
            final(self).index_map() == index_after_insert(
                old(self).primary_map(),
                old(self).index_map(),
                key@,
                doc@,
            ),
            final(self).event_base() == old(self).event_base(),
            final(self).disk_enabled() == old(self).disk_enabled(),
            final(self).sink_count() == old(self).sink_count(),
            forall|i: int|
                0 <= i < old(self).sink_count() ==> final(self).sink_live(i) == old(self).sink_live(i) && final(self).sink_join(i) == old(self).sink_join(i),
            forall|i: int|
                0 <= i < old(self).sink_count() && old(self).sink_live(i) ==> final(self).sink_trace(i) == old(self).sink_trace(i).push(
                    EventModel::Query(RecModel::Insert(key@, doc@)),
                ),
    {
        let k2 = key.clone();
        let d2 = doc.clone();
        self.mutate_insert(k2, d2);
        let ghost rec = RecModel::Insert(key@, doc@);
        self.reporter.dispatch(Event::Query(RQuery::Insert(key, doc)));
        proof {
            assert(self.hist@.skip(self.base@) =~= old(self).hist@.skip(old(self).base@).push(rec));
            assert(query_events(old(self).hist@.skip(old(self).base@).push(rec)) =~= query_events(
                old(self).hist@.skip(old(self).base@),
            ).push(EventModel::Query(rec)));
        }
    }

    /// Removes a key and everything derived from its document, then
    /// subscribers get the event.
    pub fn remove(&mut self, key: String)
        requires
            old(self).wf(),
        ensures
            final(self).wf(),
            final(self).primary_map() == old(self).primary_map().remove(key@),
            final(self).history() == old(self).history().push(RecModel::Remove(key@)),
            final(self).index_map() == index_after_remove(
                old(self).primary_map(),
                old(self).index_map(),
                key@,
            ),
            final(self).event_base() == old(self).event_base(),
            final(self).disk_enabled() == old(self).disk_enabled(),
            final(self).sink_count() == old(self).sink_count(),
            forall|i: int|
                0 <= i < old(self).sink_count() ==> final(self).sink_live(i) == old(self).sink_live(i) && final(self).sink_join(i) == old(self).sink_join(i),
            forall|i: int|
                0 <= i < old(self).sink_count() && old(self).sink_live(i) ==> final(self).sink_trace(i) == old(self).sink_trace(i).push(
                    EventModel::Query(RecModel::Remove(key@)),
                ),
    {
        self.mutate_remove(&key);
        let ghost rec = RecModel::Remove(key@);
        self.reporter.dispatch(Event::Query(RQuery::Remove(key)));
        proof {
            assert(self.hist@.skip(self.base@) =~= old(self).hist@.skip(old(self).base@).push(rec));
            assert(query_events(old(self).hist@.skip(old(self).base@).push(rec)) =~= query_events(
                old(self).hist@.skip(old(self).base@),
            ).push(EventModel::Query(rec)));
        }
    }

    /// Registers a subscriber sink; it observes the joining marker and
    /// then every later mutation, in order.
    pub fn subscribe(&mut self) -> (id: usize)
        requires
            old(self).wf(),
        ensures
            final(self).wf(),
            final(self).primary_map() == old(self).primary_map(),
            final(self).history() == old(self).history(),
            final(self).index_map() == old(self).index_map(),
            final(self).event_base() == old(self).event_base(),
            final(self).disk_enabled() == old(self).disk_enabled(),
            id == old(self).sink_count(),
            final(self).sink_count() == old(self).sink_count() + 1,
            final(self).sink_live(id as int),
            final(self).sink_trace(id as int) == seq![EventModel::Subscribed],
            final(self).sink_join(id as int) == old(self).history().len(),
            forall|i: int|
                0 <= i < old(self).sink_count() ==> final(self).sink_trace(i) == old(self).sink_trace(i) && final(self).sink_live(i) == old(self).sink_live(i) && final(self).sink_join(i) == old(self).sink_join(i),
    {
        let id = self.reporter.register();
        proof {
            assert(self.reporter.log().len() == self.hist@.skip(self.base@).len());
        }
        id
    }

    /// Drops a subscriber; it receives nothing more, and no other sink
    /// is touched.
    pub fn unsubscribe(&mut self, id: usize)
        requires
            old(self).wf(),
            id < old(self).sink_count(),
        ensures
            final(self).wf(),
            final(self).primary_map() == old(self).primary_map(),
            final(self).index_map() == old(self).index_map(),
            final(self).history() == old(self).history(),
            final(self).event_base() == old(self).event_base(),
            final(self).disk_enabled() == old(self).disk_enabled(),
            final(self).sink_count() == old(self).sink_count(),
            !final(self).sink_live(id as int),
            forall|i: int|
                0 <= i < old(self).sink_count() ==> final(self).sink_trace(i) == old(self).sink_trace(i)
                    && final(self).sink_join(i) == old(self).sink_join(i) && final(self).sink_cursor(i)
                    == old(self).sink_cursor(i),
            forall|i: int|
                0 <= i < old(self).sink_count() && i != id ==> final(self).sink_live(i) == old(self).sink_live(i),
    {
        self.reporter.unregister(id);
    }

    /// Hands out the events delivered to a sink since the last fetch:
    /// exactly the unfetched tail of its trace, in delivery order; the
    /// cursor moves to the end of the trace.
    pub fn fetch_events(&mut self, id: usize) -> (r: Vec<Event>)
        requires
            old(self).wf(),
            id < old(self).sink_count(),
        ensures
            final(self).wf(),
            final(self).primary_map() == old(self).primary_map(),
            final(self).index_map() == old(self).index_map(),
            final(self).history() == old(self).history(),
            final(self).event_base() == old(self).event_base(),
            final(self).disk_enabled() == old(self).disk_enabled(),
            final(self).sink_count() == old(self).sink_count(),
            crate::router::events_view(r@) == old(self).sink_trace(id as int).skip(
                old(self).sink_cursor(id as int),
            ),
            final(self).sink_cursor(id as int) == final(self).sink_trace(id as int).len(),
            forall|i: int|
                0 <= i < old(self).sink_count() ==> final(self).sink_trace(i) == old(self).sink_trace(i)
                    && final(self).sink_live(i) == old(self).sink_live(i) && final(self).sink_join(i)
                    == old(self).sink_join(i),
            forall|i: int|
                0 <= i < old(self).sink_count() && i != id ==> final(self).sink_cursor(i) == old(self).sink_cursor(i),
    {
        self.reporter.fetch_new(id)
    }

    /// A subscriber's delivery trace: the joining marker, then exactly
    /// the mutations applied after it joined, in order.
    pub proof fn lemma_subscriber_order(&self, i: int)
        requires
            self.wf(),
            0 <= i < self.sink_count(),
            self.sink_live(i),
        ensures
            self.sink_trace(i) == seq![EventModel::Subscribed] + query_events(
                self.history().skip(self.sink_join(i)),
            ),
            self.event_base() <= self.sink_join(i) <= self.history().len(),
    {
        self.reporter.lemma_trace(i);
        let jn = self.reporter.sink_joined(i);
        assert(self.reporter.log() == query_events(self.hist@.skip(self.base@)));
        assert(self.reporter.log().skip(jn) =~= query_events(self.hist@.skip(self.base@ + jn)));
    }

    /// Looks a key up in the primary map.
    pub fn lookup(&self, key: &String) -> (r: Option<Document>)
        requires
            self.wf(),
        ensures
            match r {
                Some(d) => self.primary_map().contains_key(key@) && d@ == self.primary_map()[key@],
                None => !self.primary_map().contains_key(key@),
            },
    {
        match self.primary.get(key) {
            Some(d) => Some(d.clone()),
            None => None,
        }
    }

    /// Looks up the documents of the requested keys, in request order,
    /// silently skipping keys that are absent.
    pub fn gets(&self, list: &Vec<String>) -> (r: Vec<(String, Document)>)
        requires
            self.wf(),
        ensures
            entries_view(r@) == gets_model(self.primary_map(), strs_view(list@)),
    {
        let mut r: Vec<(String, Document)> = Vec::new();
        let mut i: usize = 0;
        proof {
            assert(strs_view(list@).take(0) =~= Seq::<Seq<char>>::empty());
            assert(entries_view(r@) =~= gets_model(self.primary_map(), strs_view(list@).take(0)));
        }
        while i < list.len()
            invariant
                self.wf(),
                i <= list@.len(),
                entries_view(r@) == gets_model(
                    self.primary_map(),
                    strs_view(list@).take(i as int),
                ),
            decreases list@.len() - i,
        {
            let ghost rpre = r@;
            let ghost ks = strs_view(list@);
            match self.primary.get(&list[i]) {
                Some(d) => {
                    r.push((list[i].clone(), d.clone()));
                },
                None => {},
            }
            proof {
                assert(ks.take(i as int + 1).drop_last() =~= ks.take(i as int));
                assert(ks.take(i as int + 1).last() == list@[i as int]@);
                if self.primary_map().contains_key(list@[i as int]@) {
                    assert(entries_view(r@) =~= entries_view(rpre).push(
                        (list@[i as int]@, self.primary_map()[list@[i as int]@]),
                    ));
                }
            }
            i = i + 1;
        }
        proof {
            assert(strs_view(list@).take(list@.len() as int) =~= strs_view(list@));
        }
        r
    }

    /// Looks a document up through the unique index.
    pub fn lookup_by_index(&self, index_key: &String) -> (r: Option<(String, Document)>)
        requires
            self.wf(),
        ensures
            match r {
                Some(p) => self.index_map().contains_key(index_key@) && p.0@ == self.index_map()[index_key@]
                    && self.primary_map().contains_key(p.0@) && p.1@ == self.primary_map()[p.0@],
                None => !self.index_map().contains_key(index_key@),
            },
    {
        match self.index.get(index_key) {
            Some(k) => {
                proof {
                    assert(self.index@.contains_key(index_key@));
                }
                match self.primary.get(k) {
                    Some(d) => Some((k.clone(), d.clone())),
                    None => {
                        proof {
                            assert(false);
                        }
                        None
                    },
                }
            },
            None => None,
        }
    }

    /// All live documents carrying the given tag.
    pub fn lookup_by_tag(&self, tag: &String) -> (r: Vec<(String, Document)>)
        requires
            self.wf(),
        ensures
            forall|i: int|
                0 <= i < r@.len() ==> posting_mem(self.tags_map(), tag@, (#[trigger] r@[i]).0@)
                    && self.primary_map().contains_key(r@[i].0@) && r@[i].1@
                    == self.primary_map()[r@[i].0@],
            forall|k: Seq<char>|
                posting_mem(self.tags_map(), tag@, k) ==> exists|i: int|
                    0 <= i < r@.len() && (#[trigger] r@[i]).0@ == k,
            forall|i: int, j: int|
                0 <= i < j < r@.len() ==> (#[trigger] r@[i]).0@ != (#[trigger] r@[j]).0@,
    {
        self.collect_posting(&self.tags, tag)
    }

    /// All live documents belonging to the given materialised view.
    pub fn fetch_view(&self, view_name: &String) -> (r: Vec<(String, Document)>)
        requires
            self.wf(),
        ensures
            forall|i: int|
                0 <= i < r@.len() ==> posting_mem(self.views_map(), view_name@, (
                #[trigger] r@[i]).0@) && self.primary_map().contains_key(r@[i].0@) && r@[i].1@
                    == self.primary_map()[r@[i].0@],
            forall|k: Seq<char>|
                posting_mem(self.views_map(), view_name@, k) ==> exists|i: int|
                    0 <= i < r@.len() && (#[trigger] r@[i]).0@ == k,
            forall|i: int, j: int|
                0 <= i < j < r@.len() ==> (#[trigger] r@[i]).0@ != (#[trigger] r@[j]).0@,
    {
        self.collect_posting(&self.views, view_name)
    }

    /// Resolves one posting list of an inverted map to key-document
    /// pairs, by way of the primary map.
    fn collect_posting(&self, m: &Table<Vec<String>>, t: &String) -> (r: Vec<(String, Document)>)
        requires
            self.wf(),
            m.wf(),
            postings_wf(m@),
            forall|t2: Seq<char>, k2: Seq<char>| #[trigger]
                posting_mem(m@, t2, k2) ==> self.primary_map().contains_key(k2),
        ensures
            forall|i: int|
                0 <= i < r@.len() ==> posting_mem(m@, t@, (#[trigger] r@[i]).0@)
                    && self.primary_map().contains_key(r@[i].0@) && r@[i].1@
                    == self.primary_map()[r@[i].0@],
            forall|k: Seq<char>|
                posting_mem(m@, t@, k) ==> exists|i: int|
                    0 <= i < r@.len() && (#[trigger] r@[i]).0@ == k,
            forall|i: int, j: int|
                0 <= i < j < r@.len() ==> (#[trigger] r@[i]).0@ != (#[trigger] r@[j]).0@,
    {
        let mut r: Vec<(String, Document)> = Vec::new();
        match m.get(t) {
            None => {},
            Some(l) => {
                let mut i: usize = 0;
                while i < l.len()
                    invariant
                        self.wf(),
                        m@.contains_key(t@) && m@[t@] == l@,
                        no_dup(l@),
                        forall|t2: Seq<char>, k2: Seq<char>| #[trigger]
                            posting_mem(m@, t2, k2) ==> self.primary_map().contains_key(k2),
                        i <= l@.len(),
                        r@.len() == i,
                        forall|a: int|
                            0 <= a < i ==> (#[trigger] r@[a]).0@ == l@[a]@
                                && self.primary_map().contains_key(r@[a].0@) && r@[a].1@
                                == self.primary_map()[r@[a].0@],
                    decreases l@.len() - i,
                {
                    proof {
                        assert(l@[i as int]@ == l@[i as int]@);
                        assert(has_str(l@, l@[i as int]@));
                        assert(posting_mem(m@, t@, l@[i as int]@));
                    }
                    match self.primary.get(&l[i]) {
                        Some(d) => {
                            r.push((l[i].clone(), d.clone()));
                        },
                        None => {
                            proof {
                                assert(false);
                            }
                        },
                    }
                    i = i + 1;
                }
                proof {
                    assert forall|k: Seq<char>| posting_mem(m@, t@, k) implies exists|a: int|
                        0 <= a < r@.len() && (#[trigger] r@[a]).0@ == k by {
                        let a = choose|a: int| 0 <= a < l@.len() && (#[trigger] l@[a])@ == k;
                        assert(r@[a].0@ == k);
                    }
                    assert forall|a: int| 0 <= a < r@.len() implies posting_mem(
                        m@,
                        t@,
                        (#[trigger] r@[a]).0@,
                    ) by {
                        assert(has_str(l@, l@[a]@));
                    }
                }
            },
        }
        r
    }
}


/// A key is inside the inclusive range.
pub open spec fn in_range(k: Seq<char>, from: Seq<char>, to: Seq<char>) -> bool {
    !lex_lt(k, from) && !lex_lt(to, k)
}

impl Storage {
    /// A snapshot of the primary map, in ascending key order.
    #[verifier::loop_isolation(false)]
    pub fn iter(&self) -> (r: Vec<(String, Document)>)
        requires
            self.wf(),
        ensures
            forall|i: int|
                0 <= i < r@.len() ==> self.primary_map().contains_key((#[trigger] r@[i]).0@)
                    && r@[i].1@ == self.primary_map()[r@[i].0@],
            forall|k: Seq<char>|
                self.primary_map().contains_key(k) ==> exists|i: int|
                    0 <= i < r@.len() && (#[trigger] r@[i]).0@ == k,
            forall|i: int, j: int|
                0 <= i < j < r@.len() ==> lex_lt((#[trigger] r@[i]).0@, (#[trigger] r@[j]).0@),
    {
        let items = self.primary.items();
        let mut r: Vec<(String, Document)> = Vec::new();
        let mut a: usize = 0;
        while a < items.len()
            invariant
                a <= items@.len(),
                r@.len() == a,
                forall|b: int|
                    0 <= b < a ==> (#[trigger] r@[b]).0@ == items@[b].0@ && r@[b].1@
                        == items@[b].1@,
            decreases items@.len() - a,
        {
            r.push((items[a].0.clone(), items[a].1.clone()));
            a = a + 1;
        }
        proof {
            assert forall|k: Seq<char>| self.primary_map().contains_key(k) implies exists|i: int|
                0 <= i < r@.len() && (#[trigger] r@[i]).0@ == k by {
                let c = choose|c: int| 0 <= c < items@.len() && (#[trigger] items@[c]).0@ == k;
                assert(r@[c].0@ == k);
            }
            assert forall|i: int, j: int| 0 <= i < j < r@.len() implies lex_lt(
                (#[trigger] r@[i]).0@,
                (#[trigger] r@[j]).0@,
            ) by {
                assert(lex_lt(items@[i].0@, items@[j].0@));
            }
            assert forall|i: int| 0 <= i < r@.len() implies self.primary_map().contains_key(
                (#[trigger] r@[i]).0@,
            ) && r@[i].1@ == self.primary_map()[r@[i].0@] by {
                assert(items@[i].0@ == r@[i].0@);
                assert(self.primary_map().contains_key(items@[i].0@) && self.primary_map()[items@[i].0@]
                    == items@[i].1@);
            }
        }
        r
    }

    /// A snapshot of the unique-index map, in ascending key order.
    #[verifier::loop_isolation(false)]
    pub fn iter_index(&self) -> (r: Vec<(String, String)>)
        requires
            self.wf(),
        ensures
            forall|i: int|
                0 <= i < r@.len() ==> self.index_map().contains_key((#[trigger] r@[i]).0@)
                    && r@[i].1@ == self.index_map()[r@[i].0@],
            forall|k: Seq<char>|
                self.index_map().contains_key(k) ==> exists|i: int|
                    0 <= i < r@.len() && (#[trigger] r@[i]).0@ == k,
            forall|i: int, j: int|
                0 <= i < j < r@.len() ==> lex_lt((#[trigger] r@[i]).0@, (#[trigger] r@[j]).0@),
    {
        let items = self.index.items();
        let mut r: Vec<(String, String)> = Vec::new();
        let mut a: usize = 0;
        while a < items.len()
            invariant
                a <= items@.len(),
                r@.len() == a,
                forall|b: int|
                    0 <= b < a ==> (#[trigger] r@[b]).0@ == items@[b].0@ && r@[b].1@
                        == items@[b].1@,
            decreases items@.len() - a,
        {
            r.push((items[a].0.clone(), items[a].1.clone()));
            a = a + 1;
        }
        proof {
            assert forall|k: Seq<char>| self.index_map().contains_key(k) implies exists|i: int|
                0 <= i < r@.len() && (#[trigger] r@[i]).0@ == k by {
                let c = choose|c: int| 0 <= c < items@.len() && (#[trigger] items@[c]).0@ == k;
                assert(r@[c].0@ == k);
            }
            assert forall|i: int, j: int| 0 <= i < j < r@.len() implies lex_lt(
                (#[trigger] r@[i]).0@,
                (#[trigger] r@[j]).0@,
            ) by {
                assert(lex_lt(items@[i].0@, items@[j].0@));
            }
            assert forall|i: int| 0 <= i < r@.len() implies self.index_map().contains_key(
                (#[trigger] r@[i]).0@,
            ) && r@[i].1@ == self.index_map()[r@[i].0@] by {
                assert(items@[i].0@ == r@[i].0@);
                assert(self.index_map().contains_key(items@[i].0@) && self.index_map()[items@[i].0@]
                    == items@[i].1@);
            }
        }
        r
    }

    /// A snapshot of the tag map, in ascending tag order.
    #[verifier::loop_isolation(false)]
    pub fn iter_tags(&self) -> (r: Vec<(String, Vec<String>)>)
        requires
            self.wf(),
        ensures
            forall|i: int|
                0 <= i < r@.len() ==> self.tags_map().contains_key((#[trigger] r@[i]).0@)
                    && r@[i].1@ == self.tags_map()[r@[i].0@],
            forall|k: Seq<char>|
                self.tags_map().contains_key(k) ==> exists|i: int|
                    0 <= i < r@.len() && (#[trigger] r@[i]).0@ == k,
            forall|i: int, j: int|
                0 <= i < j < r@.len() ==> lex_lt((#[trigger] r@[i]).0@, (#[trigger] r@[j]).0@),
    {
        let items = self.tags.items();
        let mut r: Vec<(String, Vec<String>)> = Vec::new();
        let mut a: usize = 0;
        while a < items.len()
            invariant
                a <= items@.len(),
                r@.len() == a,
                forall|b: int|
                    0 <= b < a ==> (#[trigger] r@[b]).0@ == items@[b].0@ && r@[b].1@
                        == items@[b].1@,
            decreases items@.len() - a,
        {
            r.push((items[a].0.clone(), crate::document::clone_strings(&items[a].1)));
            a = a + 1;
        }
        proof {
            assert forall|k: Seq<char>| self.tags_map().contains_key(k) implies exists|i: int|
                0 <= i < r@.len() && (#[trigger] r@[i]).0@ == k by {
                let c = choose|c: int| 0 <= c < items@.len() && (#[trigger] items@[c]).0@ == k;
                assert(r@[c].0@ == k);
            }
            assert forall|i: int, j: int| 0 <= i < j < r@.len() implies lex_lt(
                (#[trigger] r@[i]).0@,
                (#[trigger] r@[j]).0@,
            ) by {
                assert(lex_lt(items@[i].0@, items@[j].0@));
            }
            assert forall|i: int| 0 <= i < r@.len() implies self.tags_map().contains_key(
                (#[trigger] r@[i]).0@,
            ) && r@[i].1@ == self.tags_map()[r@[i].0@] by {
                assert(items@[i].0@ == r@[i].0@);
                assert(self.tags_map().contains_key(items@[i].0@) && self.tags_map()[items@[i].0@]
                    == items@[i].1@);
            }
        }
        r
    }

    /// The documents whose key lies in `[from, to]`, in ascending key
    /// order.  `field_name` is accepted for interface compatibility and
    /// ignored: the range is over the primary key.
    #[verifier::loop_isolation(false)]
    #[verifier::rlimit(60)]
    pub fn range(&self, field_name: &str, from: &String, to: &String) -> (r: Vec<
        (String, Document),
    >)
        requires
            self.wf(),
        ensures
            forall|i: int|
                0 <= i < r@.len() ==> self.primary_map().contains_key((#[trigger] r@[i]).0@)
                    && r@[i].1@ == self.primary_map()[r@[i].0@] && in_range(r@[i].0@, from@, to@),
            forall|k: Seq<char>|
                self.primary_map().contains_key(k) && in_range(k, from@, to@) ==> exists|i: int|
                    0 <= i < r@.len() && (#[trigger] r@[i]).0@ == k,
            forall|i: int, j: int|
                0 <= i < j < r@.len() ==> lex_lt((#[trigger] r@[i]).0@, (#[trigger] r@[j]).0@),
    {
        let _ = field_name;
        let items = self.primary.items();
        let mut r: Vec<(String, Document)> = Vec::new();
        let mut a: usize = 0;
        while a < items.len()
            invariant
                a <= items@.len(),
                forall|b: int|
                    0 <= b < r@.len() ==> self.primary_map().contains_key((#[trigger] r@[b]).0@)
                        && r@[b].1@ == self.primary_map()[r@[b].0@] && in_range(
                        r@[b].0@,
                        from@,
                        to@,
                    ),
                forall|c: int|
                    0 <= c < a && in_range((#[trigger] items@[c]).0@, from@, to@) ==> exists|b: int|
                        0 <= b < r@.len() && (#[trigger] r@[b]).0@ == items@[c].0@,
                forall|b: int, c: int|
                    0 <= b < r@.len() && a <= c < items@.len() ==> lex_lt(
                        (#[trigger] r@[b]).0@,
                        (#[trigger] items@[c]).0@,
                    ),
                forall|i: int, j: int|
                    0 <= i < j < r@.len() ==> lex_lt((#[trigger] r@[i]).0@, (#[trigger] r@[j]).0@),
            decreases items@.len() - a,
        {
            let ghost rpre = r@;
            if !string_lt(&items[a].0, from) && !string_lt(to, &items[a].0) {
                r.push((items[a].0.clone(), items[a].1.clone()));
                proof {
                    assert(self.primary_map().contains_key(items@[a as int].0@)
                        && self.primary_map()[items@[a as int].0@] == items@[a as int].1@);
                    assert(r@[r@.len() - 1].0@ == items@[a as int].0@);
                    assert(r@[r@.len() - 1].1@ == items@[a as int].1@);
                    assert(forall|b: int| 0 <= b < rpre.len() ==> r@[b] == rpre[b]);
                }
            }
            a = a + 1;
        }
        proof {
            assert forall|k: Seq<char>|
                self.primary_map().contains_key(k) && in_range(k, from@, to@) implies exists|i: int|
                0 <= i < r@.len() && (#[trigger] r@[i]).0@ == k by {
                let c = choose|c: int| 0 <= c < items@.len() && (#[trigger] items@[c]).0@ == k;
            }
        }
        r
    }

    /// Whether every query token's posting list holds the key.
    #[verifier::loop_isolation(false)]
    fn fts_has_all(&self, q: &Vec<String>, k: &String) -> (ok: bool)
        requires
            self.wf(),
        ensures
            ok == (forall|j: int|
                0 <= j < q@.len() ==> posting_mem(self.fts_map(), (#[trigger] q@[j])@, k@)),
    {
        let mut j: usize = 0;
        while j < q.len()
            invariant
                j <= q@.len(),
                forall|j2: int| 0 <= j2 < j ==> posting_mem(self.fts_map(), (#[trigger] q@[j2])@, k@),
            decreases q@.len() - j,
        {
            match self.fts.get(&q[j]) {
                None => {
                    proof {
                        assert(!posting_mem(self.fts_map(), q@[j as int]@, k@));
                    }
                    return false;
                },
                Some(l) => {
                    if !vec_has(l, k) {
                        proof {
                            assert(!posting_mem(self.fts_map(), q@[j as int]@, k@));
                        }
                        return false;
                    }
                    proof {
                        assert(posting_mem(self.fts_map(), q@[j as int]@, k@));
                    }
                },
            }
            j = j + 1;
        }
        true
    }

    /// Full-text search with AND semantics: the documents whose text
    /// contains every token of the query.
    #[verifier::loop_isolation(false)]
    #[verifier::rlimit(60)]
    pub fn search(&self, text: &String) -> (r: Vec<(String, Document)>)
        requires
            self.wf(),
        ensures
            forall|i: int|
                0 <= i < r@.len() ==> self.primary_map().contains_key((#[trigger] r@[i]).0@)
                    && r@[i].1@ == self.primary_map()[r@[i].0@]
                    && crate::tokenize::contains_all_tokens(
                    text@,
                    self.primary_map()[r@[i].0@].text,
                ),
            forall|k: Seq<char>|
                self.primary_map().contains_key(k) && crate::tokenize::contains_all_tokens(
                    text@,
                    self.primary_map()[k].text,
                ) ==> exists|i: int| 0 <= i < r@.len() && (#[trigger] r@[i]).0@ == k,
            forall|i: int, j: int|
                0 <= i < j < r@.len() ==> (#[trigger] r@[i]).0@ != (#[trigger] r@[j]).0@,
    {
        let q = tokenize(text.as_str());
        let ghost toks = crate::tokenize::tokens_of(text@);
        proof {
            assert(strs_view(q@) == toks);
        }
        if q.len() == 0 {
            let all = self.iter();
            proof {
                assert(toks.len() == 0);
                assert forall|i: int, j: int| 0 <= i < j < all@.len() implies (
                #[trigger] all@[i]).0@ != (#[trigger] all@[j]).0@ by {
                    lemma_lex_irrefl(all@[i].0@);
                }
            }
            return all;
        }
        let mut r: Vec<(String, Document)> = Vec::new();
        proof {
            assert(toks[0] == q@[0]@);
        }
        match self.fts.get(&q[0]) {
            None => {
                proof {
                    assert forall|k: Seq<char>|
                        self.primary_map().contains_key(k)
                            && crate::tokenize::contains_all_tokens(
                            text@,
                            self.primary_map()[k].text,
                        ) implies exists|i: int| 0 <= i < r@.len() && (#[trigger] r@[i]).0@
                        == k by {
                        assert(token_set(self.primary_map()[k].text).contains(toks[0]));
                        assert(posting_mem(self.fts_map(), q@[0]@, k));
                        assert(false);
                    }
                }
            },
            Some(l) => {
                let mut i: usize = 0;
                while i < l.len()
                    invariant
                        i <= l@.len(),
                        self.fts_map().contains_key(q@[0]@) && self.fts_map()[q@[0]@] == l@,
                        forall|b: int|
                            0 <= b < r@.len() ==> self.primary_map().contains_key(
                                (#[trigger] r@[b]).0@,
                            ) && r@[b].1@ == self.primary_map()[r@[b].0@] && (forall|j: int|
                                0 <= j < q@.len() ==> posting_mem(
                                    self.fts_map(),
                                    (#[trigger] q@[j])@,
                                    r@[b].0@,
                                )),
                        forall|c: int|
                            0 <= c < i && (forall|j: int|
                                0 <= j < q@.len() ==> posting_mem(
                                    self.fts_map(),
                                    (#[trigger] q@[j])@,
                                    (#[trigger] l@[c])@,
                                )) ==> exists|b: int|
                                0 <= b < r@.len() && (#[trigger] r@[b]).0@ == l@[c]@,
                        forall|b: int, c: int|
                            0 <= b < r@.len() && i <= c < l@.len() ==> (#[trigger] r@[b]).0@ != (
                            #[trigger] l@[c])@,
                        forall|b1: int, b2: int|
                            0 <= b1 < b2 < r@.len() ==> (#[trigger] r@[b1]).0@ != (
                            #[trigger] r@[b2]).0@,
                    decreases l@.len() - i,
                {
                    let ghost rpre = r@;
                    if self.fts_has_all(&q, &l[i]) {
                        proof {
                            assert(has_str(l@, l@[i as int]@));
                            assert(posting_mem(self.fts_map(), q@[0]@, l@[i as int]@));
                        }
                        match self.primary.get(&l[i]) {
                            Some(d) => {
                                r.push((l[i].clone(), d.clone()));
                            },
                            None => {
                                proof {
                                    assert(false);
                                }
                            },
                        }
                        proof {
                            assert(r@[r@.len() - 1].0@ == l@[i as int]@);
                            assert(self.primary_map().contains_key(l@[i as int]@));
                            assert(r@[r@.len() - 1].1@ == self.primary_map()[l@[i as int]@]);
                            assert(forall|b: int| 0 <= b < rpre.len() ==> r@[b] == rpre[b]);
                            assert forall|b: int, c: int|
                                0 <= b < r@.len() && i + 1 <= c < l@.len() implies (
                            #[trigger] r@[b]).0@ != (#[trigger] l@[c])@ by {
                                if b == r@.len() - 1 {
                                    assert(l@[i as int]@ != l@[c]@);
                                }
                            }
                        }
                    }
                    i = i + 1;
                }
                proof {
                    assert forall|b: int| 0 <= b < r@.len() implies crate::tokenize::contains_all_tokens(
                        text@,
                        self.primary_map()[(#[trigger] r@[b]).0@].text,
                    ) by {
                        assert forall|j: int| 0 <= j < toks.len() implies token_set(
                            self.primary_map()[r@[b].0@].text,
                        ).contains(#[trigger] toks[j]) by {
                            assert(posting_mem(self.fts_map(), q@[j]@, r@[b].0@));
                            assert(toks[j] == q@[j]@);
                        }
                    }
                    assert forall|k: Seq<char>|
                        self.primary_map().contains_key(k)
                            && crate::tokenize::contains_all_tokens(
                            text@,
                            self.primary_map()[k].text,
                        ) implies exists|b: int| 0 <= b < r@.len() && (#[trigger] r@[b]).0@
                        == k by {
                        assert forall|j: int| 0 <= j < q@.len() implies posting_mem(
                            self.fts_map(),
                            (#[trigger] q@[j])@,
                            k,
                        ) by {
                            assert(token_set(self.primary_map()[k].text).contains(toks[j]));
                            assert(toks[j] == q@[j]@);
                        }
                        assert(posting_mem(self.fts_map(), q@[0]@, k));
                        assert(has_str(l@, k));
                        let c = choose|c: int| 0 <= c < l@.len() && (#[trigger] l@[c])@ == k;
                    }
                }
            },
        }
        r
    }
}

/// The records a payload sequence yields: decode each in turn, stopping
/// at the first payload that is not a record encoding.
pub open spec fn dec_prefix(rs: Seq<Seq<u8>>) -> Seq<RecModel>
    decreases rs.len(),
{
    if rs.len() == 0 {
        Seq::empty()
    } else {
        match dec_record(rs[0]) {
            Some(m) => seq![m] + dec_prefix(rs.drop_first()),
            None => Seq::empty(),
        }
    }
}

pub open spec fn all_decode(rs: Seq<Seq<u8>>) -> bool {
    forall|i: int| 0 <= i < rs.len() ==> dec_record(#[trigger] rs[i]) is Some
}

pub proof fn lemma_dec_prefix_snoc(a: Seq<Seq<u8>>, x: Seq<u8>)
    requires
        all_decode(a),
    ensures
        dec_prefix(a.push(x)) == dec_prefix(a) + (match dec_record(x) {
            Some(m) => seq![m],
            None => Seq::<RecModel>::empty(),
        }),
    decreases a.len(),
{
    let tail = match dec_record(x) {
        Some(m) => seq![m],
        None => Seq::<RecModel>::empty(),
    };
    if a.len() == 0 {
        assert(a.push(x)[0] == x);
        assert(a.push(x).drop_first() =~= Seq::<Seq<u8>>::empty());
        match dec_record(x) {
            Some(m) => {
                assert(dec_prefix(a.push(x)) == seq![m] + dec_prefix(a.push(x).drop_first()));
                assert(seq![m] + Seq::<RecModel>::empty() =~= seq![m]);
                assert(dec_prefix(a) + tail =~= seq![m]);
            },
            None => {
                assert(dec_prefix(a.push(x)) =~= Seq::<RecModel>::empty());
                assert(dec_prefix(a) + tail =~= Seq::<RecModel>::empty());
            },
        }
    } else {
        assert(a.push(x)[0] == a[0]);
        assert(dec_record(a[0]) is Some);
        assert(a.push(x).drop_first() =~= a.drop_first().push(x));
        assert forall|i: int| 0 <= i < a.drop_first().len() implies dec_record(
            #[trigger] a.drop_first()[i],
        ) is Some by {
            assert(a.drop_first()[i] == a[i + 1]);
        }
        lemma_dec_prefix_snoc(a.drop_first(), x);
        let m0 = dec_record(a[0])->Some_0;
        assert(seq![m0] + (dec_prefix(a.drop_first()) + tail) =~= (seq![m0] + dec_prefix(
            a.drop_first(),
        )) + tail);
    }
}

pub proof fn lemma_dec_prefix_stop(p: Seq<Seq<u8>>, j: int)
    requires
        0 <= j < p.len(),
        forall|i: int| 0 <= i < j ==> dec_record(#[trigger] p[i]) is Some,
        dec_record(p[j]) is None,
    ensures
        dec_prefix(p) == dec_prefix(p.take(j)),
    decreases j,
{
    if j == 0 {
        assert(dec_prefix(p) =~= Seq::<RecModel>::empty());
        assert(p.take(0).len() == 0);
    } else {
        assert(dec_record(p[0]) is Some);
        let m0 = dec_record(p[0])->Some_0;
        assert forall|i: int| 0 <= i < j - 1 implies dec_record(
            #[trigger] p.drop_first()[i],
        ) is Some by {
            assert(p.drop_first()[i] == p[i + 1]);
        }
        assert(p.drop_first()[j - 1] == p[j]);
        lemma_dec_prefix_stop(p.drop_first(), j - 1);
        assert(p.take(j)[0] == p[0]);
        assert(p.take(j).drop_first() =~= p.drop_first().take(j - 1));
        assert(dec_prefix(p.take(j)) == seq![m0] + dec_prefix(p.drop_first().take(j - 1)));
    }
}

/// Splitting a page sequence whose head pages are all clean splits the
/// recoverable payloads.
pub proof fn lemma_recoverable_split(ps: Seq<Seq<u8>>, i: int)
    requires
        0 <= i <= ps.len(),
        forall|j: int| 0 <= j < i ==> page_clean(#[trigger] ps[j]),
    ensures
        recoverable(ps) == recoverable(ps.take(i)) + recoverable(ps.skip(i)),
    decreases i,
{
    if i == 0 {
        assert(ps.take(0).len() == 0);
        assert(recoverable(ps.take(0)) =~= Seq::<Seq<u8>>::empty());
        assert(ps.skip(0) =~= ps);
        assert(Seq::<Seq<u8>>::empty() + recoverable(ps) =~= recoverable(ps));
    } else {
        assert(page_clean(ps[0]));
        assert forall|j: int| 0 <= j < i - 1 implies page_clean(
            #[trigger] ps.drop_first()[j],
        ) by {
            assert(ps.drop_first()[j] == ps[j + 1]);
        }
        lemma_recoverable_split(ps.drop_first(), i - 1);
        assert(ps.take(i)[0] == ps[0]);
        assert(ps.take(i).drop_first() =~= ps.drop_first().take(i - 1));
        assert(ps.skip(i) =~= ps.drop_first().skip(i - 1));
        assert(recoverable(ps.take(i)) == parse_page(ps[0]) + recoverable(
            ps.drop_first().take(i - 1),
        ));
        assert(parse_page(ps[0]) + (recoverable(ps.drop_first().take(i - 1)) + recoverable(
            ps.drop_first().skip(i - 1),
        )) =~= (parse_page(ps[0]) + recoverable(ps.drop_first().take(i - 1))) + recoverable(
            ps.drop_first().skip(i - 1),
        ));
    }
}

/// The frames of a page from `pos` on, appended to `out`; reports
/// whether the rest of the page is cleanly framed.
#[verifier::loop_isolation(false)]
fn frames_from(page: &Vec<u8>, pos: usize, out: &mut Vec<Vec<u8>>) -> (clean: bool)
    requires
        pos <= page@.len(),
    ensures
        pages_view(final(out)@) == pages_view(old(out)@) + parse_page(page@.skip(pos as int)),
        clean == page_clean(page@.skip(pos as int)),
    decreases page@.len() - pos,
{
    let rest = page.len() - pos;
    if rest == 0 {
        proof {
            assert(page@.skip(pos as int).len() == 0);
            assert(pages_view(out@) + parse_page(page@.skip(pos as int)) =~= pages_view(out@));
        }
        return true;
    }
    if rest < 4 {
        proof {
            assert(parse_page(page@.skip(pos as int)) =~= Seq::<Seq<u8>>::empty());
            assert(pages_view(out@) + parse_page(page@.skip(pos as int)) =~= pages_view(out@));
        }
        return false;
    }
    let mut tmp: Vec<u8> = Vec::new();
    tmp.push(page[pos]);
    tmp.push(page[pos + 1]);
    tmp.push(page[pos + 2]);
    tmp.push(page[pos + 3]);
    proof {
        assert(tmp@ =~= page@.skip(pos as int).take(4));
    }
    let n32 = u32_from_le_bytes(tmp.as_slice());
    let n = n32 as usize;
    if n > rest - 4 {
        proof {
            assert(4 + (n32 as int) > page@.skip(pos as int).len());
            assert(parse_page(page@.skip(pos as int)) =~= Seq::<Seq<u8>>::empty());
            assert(pages_view(out@) + parse_page(page@.skip(pos as int)) =~= pages_view(out@));
        }
        return false;
    }
    let mut pl: Vec<u8> = Vec::new();
    let mut c: usize = 0;
    while c < n
        invariant
            c <= n,
            pl@ == page@.skip(pos as int + 4).take(c as int),
        decreases n - c,
    {
        proof {
            assert(page@.skip(pos as int + 4).take(c as int + 1) =~= page@.skip(
                pos as int + 4,
            ).take(c as int).push(page@[pos as int + 4 + c]));
        }
        pl.push(page[pos + 4 + c]);
        c = c + 1;
    }
    let ghost out0 = pages_view(out@);
    proof {
        assert(pl@ =~= page@.skip(pos as int).skip(4).take(n32 as int));
    }
    out.push(pl);
    let ghost out1 = pages_view(out@);
    proof {
        assert(out1 =~= out0.push(page@.skip(pos as int).skip(4).take(n32 as int)));
    }
    let clean = frames_from(page, pos + 4 + n, out);
    proof {
        assert(page@.skip(pos as int).skip(4 + n32 as int) =~= page@.skip(pos as int + 4 + n as int));
        assert(parse_page(page@.skip(pos as int)) == seq![
            page@.skip(pos as int).skip(4).take(n32 as int),
        ] + parse_page(page@.skip(pos as int + 4 + n as int)));
        assert(page_clean(page@.skip(pos as int)) == page_clean(
            page@.skip(pos as int + 4 + n as int),
        ));
        assert(pages_view(out@) == out1 + parse_page(page@.skip(pos as int + 4 + n as int)));
        assert(out0 + (seq![page@.skip(pos as int).skip(4).take(n32 as int)] + parse_page(
            page@.skip(pos as int + 4 + n as int),
        )) =~= out0.push(page@.skip(pos as int).skip(4).take(n32 as int)) + parse_page(
            page@.skip(pos as int + 4 + n as int),
        ));
    }
    clean
}

/// Every payload recovery will read from the pages, in order: the frames
/// of each page, stopping after the first page that is not clean.
#[verifier::loop_isolation(false)]
fn collect_frames(pages: &Vec<Vec<u8>>) -> (r: Vec<Vec<u8>>)
    ensures
        pages_view(r@) == recoverable(pages_view(pages@)),
{
    let ghost full = pages_view(pages@);
    let mut out: Vec<Vec<u8>> = Vec::new();
    let mut pi: usize = 0;
    let mut stopped = false;
    proof {
        assert(full.take(0).len() == 0);
        assert(pages_view(out@) =~= recoverable(full.take(0)));
    }
    while pi < pages.len() && !stopped
        invariant
            pi <= pages@.len(),
            !stopped ==> (forall|j: int| 0 <= j < pi ==> page_clean(#[trigger] full[j])),
            !stopped ==> pages_view(out@) == recoverable(full.take(pi as int)),
            stopped ==> pages_view(out@) == recoverable(full),
        decreases pages@.len() - pi,
    {
        let ghost out0 = pages_view(out@);
        let clean = frames_from(&pages[pi], 0, &mut out);
        proof {
            assert(pages@[pi as int]@.skip(0) =~= full[pi as int]);
            assert(pages_view(out@) == out0 + parse_page(full[pi as int]));
        }
        if !clean {
            stopped = true;
            proof {
                lemma_recoverable_split(full, pi as int);
                assert(full.skip(pi as int)[0] == full[pi as int]);
                assert(recoverable(full.skip(pi as int)) =~= parse_page(full[pi as int]));
            }
        } else {
            proof {
                assert forall|j: int| 0 <= j < full.take(pi as int).len() implies page_clean(
                    #[trigger] full.take(pi as int)[j],
                ) by {
                    assert(full.take(pi as int)[j] == full[j]);
                }
                crate::wal::lemma_recoverable_snoc(full.take(pi as int), full[pi as int]);
                assert(full.take(pi as int + 1) =~= full.take(pi as int).push(full[pi as int]));
            }
        }
        pi = pi + 1;
    }
    proof {
        if !stopped {
            assert(full.take(pages@.len() as int) =~= full);
        }
    }
    out
}

impl Storage {
    /// Applies one decoded record to memory, with no event and no log
    /// write: the recovery primitive.
    fn apply_record(&mut self, q: RQuery)
        requires
            old(self).data_wf(),
        ensures
            final(self).data_wf(),
            final(self).hist@ == old(self).hist@.push(q@),
            final(self).reporter == old(self).reporter,
            final(self).base@ == old(self).base@,
            final(self).disk == old(self).disk,
    {
        match q {
            RQuery::Insert(k, d) => self.mutate_insert(k, d),
            RQuery::Remove(k) => self.mutate_remove(&k),
        }
    }

    /// Rebuilds memory from the log pages: decodes each framed record in
    /// order and applies it, stopping cleanly at the first frame or
    /// record that does not parse.  No events are dispatched.
    #[verifier::loop_isolation(false)]
    pub fn load_pages(&mut self, pages: &Vec<Vec<u8>>)
        requires
            old(self).wf(),
            old(self).history().len() == 0,
            old(self).event_base() == 0,
        ensures
            final(self).wf(),
            final(self).history() == dec_prefix(recoverable(pages_view(pages@))),
            final(self).primary_map() == replay(final(self).history()),
            final(self).index_map() == index_replay(final(self).history()),
            final(self).event_base() == final(self).history().len(),
            final(self).sink_count() == old(self).sink_count(),
            final(self).disk_enabled() == old(self).disk_enabled(),
            forall|i: int|
                0 <= i < old(self).sink_count() ==> final(self).sink_trace(i) == old(self).sink_trace(i)
                    && final(self).sink_live(i) == old(self).sink_live(i),
    {
        let plan = collect_frames(pages);
        let ghost pv = pages_view(plan@);
        let n = plan.len();
        let mut fi: usize = 0;
        let mut stopped = false;
        proof {
            assert(pv.take(0).len() == 0);
            assert(self.hist@ =~= dec_prefix(pv.take(0)));
        }
        while fi < n && !stopped
            invariant
                fi <= n,
                n == pv.len(),
                self.data_wf(),
                self.reporter == old(self).reporter,
                self.base@ == 0,
                self.disk == old(self).disk,
                !stopped ==> all_decode(pv.take(fi as int)) && self.hist@ == dec_prefix(
                    pv.take(fi as int),
                ),
                stopped ==> self.hist@ == dec_prefix(pv),
            decreases n - fi,
        {
            match decode_record(&plan[fi]) {
                Some(q) => {
                    proof {
                        assert(dec_record(pv[fi as int]) == Some(q@));
                        lemma_dec_prefix_snoc(pv.take(fi as int), pv[fi as int]);
                        assert(pv.take(fi as int + 1) =~= pv.take(fi as int).push(pv[fi as int]));
                        assert forall|j: int| 0 <= j < fi + 1 implies dec_record(
                            #[trigger] pv.take(fi as int + 1)[j],
                        ) is Some by {
                            assert(pv.take(fi as int + 1)[j] == pv[j]);
                            if j < fi {
                                assert(pv.take(fi as int)[j] == pv[j]);
                            }
                        }
                        assert(dec_prefix(pv.take(fi as int)) + seq![q@] =~= dec_prefix(
                            pv.take(fi as int),
                        ).push(q@));
                    }
                    self.apply_record(q);
                },
                None => {
                    proof {
                        assert(dec_record(pv[fi as int]) is None);
                        assert forall|j: int| 0 <= j < fi implies dec_record(
                            #[trigger] pv[j],
                        ) is Some by {
                            assert(pv.take(fi as int)[j] == pv[j]);
                        }
                        lemma_dec_prefix_stop(pv, fi as int);
                    }
                    stopped = true;
                },
            }
            fi = fi + 1;
        }
        proof {
            if !stopped {
                assert(pv.take(n as int) =~= pv);
            }
            self.base@ = self.hist@.len() as int;
            assert(self.hist@.skip(self.base@).len() == 0);
            assert(query_events(self.hist@.skip(self.base@)) =~= Seq::<EventModel>::empty());
            assert(old(self).hist@.skip(0) =~= old(self).hist@);
            assert(self.reporter.log() =~= Seq::<EventModel>::empty());
        }
    }

    /// Replay determinism: a datastore rebuilt from the pages a log
    /// produced for a history of well-formed records carries the same
    /// primary map, and every secondary lookup agrees.
    pub proof fn lemma_recovery_reproduces(&self, pg: &crate::wal::Pager, other: &Storage)
        requires
            self.wf(),
            pg.wf(),
            other.wf(),
            pg.appended() == Seq::new(self.history().len(), |i: int| enc_record(self.history()[i])),
            forall|i: int| 0 <= i < self.history().len() ==> rec_ok(#[trigger] self.history()[i]),
            other.history() == dec_prefix(recoverable(pg.pages_seq())),
        ensures
            other.history() == self.history(),
            other.primary_map() == self.primary_map(),
            other.index_map() == self.index_map(),
            forall|t: Seq<char>, k: Seq<char>| #[trigger]
                posting_mem(other.tags_map(), t, k) == posting_mem(self.tags_map(), t, k),
            forall|t: Seq<char>, k: Seq<char>| #[trigger]
                posting_mem(other.views_map(), t, k) == posting_mem(self.views_map(), t, k),
            forall|t: Seq<char>, k: Seq<char>| #[trigger]
                posting_mem(other.fts_map(), t, k) == posting_mem(self.fts_map(), t, k),
    {
        pg.lemma_log_authority();
        lemma_dec_prefix_of_encodings(self.history());
        assert(other.history() == self.history());
        assert(other.primary_map() == replay(other.history()));
        assert(self.primary_map() == replay(self.history()));
        assert(other.index_map() == index_replay(other.history()));
        assert(self.index_map() == index_replay(self.history()));
        assert forall|t: Seq<char>, k: Seq<char>| #[trigger]
            posting_mem(other.tags_map(), t, k) == posting_mem(self.tags_map(), t, k) by {
            assert(posting_mem(other.tags_map(), t, k) == (other.primary_map().contains_key(k)
                && tag_set(other.primary_map()[k]).contains(t)));
            assert(posting_mem(self.tags_map(), t, k) == (self.primary_map().contains_key(k)
                && tag_set(self.primary_map()[k]).contains(t)));
        }
        assert forall|t: Seq<char>, k: Seq<char>| #[trigger]
            posting_mem(other.views_map(), t, k) == posting_mem(self.views_map(), t, k) by {
            assert(posting_mem(other.views_map(), t, k) == (other.primary_map().contains_key(k)
                && view_set(other.primary_map()[k]).contains(t)));
            assert(posting_mem(self.views_map(), t, k) == (self.primary_map().contains_key(k)
                && view_set(self.primary_map()[k]).contains(t)));
        }
        assert forall|t: Seq<char>, k: Seq<char>| #[trigger]
            posting_mem(other.fts_map(), t, k) == posting_mem(self.fts_map(), t, k) by {
            assert(posting_mem(other.fts_map(), t, k) == (other.primary_map().contains_key(k)
                && token_set(other.primary_map()[k].text).contains(t)));
            assert(posting_mem(self.fts_map(), t, k) == (self.primary_map().contains_key(k)
                && token_set(self.primary_map()[k].text).contains(t)));
        }
    }
}

/// Decoding the encodings of well-formed records yields them all back.
pub proof fn lemma_dec_prefix_of_encodings(rs: Seq<RecModel>)
    requires
        forall|i: int| 0 <= i < rs.len() ==> rec_ok(#[trigger] rs[i]),
    ensures
        dec_prefix(Seq::new(rs.len(), |i: int| enc_record(rs[i]))) == rs,
    decreases rs.len(),
{
    let es = Seq::new(rs.len(), |i: int| enc_record(rs[i]));
    if rs.len() > 0 {
        crate::codec::lemma_dec_enc_record(rs[0]);
        assert(es[0] == enc_record(rs[0]));
        assert(dec_record(es[0]) == Some(rs[0]));
        assert forall|i: int| 0 <= i < rs.drop_first().len() implies rec_ok(
            #[trigger] rs.drop_first()[i],
        ) by {
            assert(rs.drop_first()[i] == rs[i + 1]);
        }
        lemma_dec_prefix_of_encodings(rs.drop_first());
        assert(es.drop_first() =~= Seq::new(
            rs.drop_first().len(),
            |i: int| enc_record(rs.drop_first()[i]),
        ));
        assert(seq![rs[0]] + rs.drop_first() =~= rs);
    }
}

/// Mutations of distinct keys commute in replay: the kernel of the
/// linearisability of writes to disjoint keys.
pub proof fn lemma_replay_commutes(
    pre: Seq<RecModel>,
    a: RecModel,
    b: RecModel,
    post: Seq<RecModel>,
)
    requires
        rec_key(a) != rec_key(b),
    ensures
        replay(pre + seq![a, b] + post) == replay(pre + seq![b, a] + post),
    decreases post.len(),
{
    if post.len() == 0 {
        let s1 = pre + seq![a, b] + post;
        let s2 = pre + seq![b, a] + post;
        assert(s1 =~= pre.push(a).push(b));
        assert(s2 =~= pre.push(b).push(a));
        assert(pre.push(a).push(b).drop_last() =~= pre.push(a));
        assert(pre.push(b).push(a).drop_last() =~= pre.push(b));
        assert(pre.push(a).drop_last() =~= pre);
        assert(pre.push(b).drop_last() =~= pre);
        let m = replay(pre);
        let ma = match a {
            RecModel::Insert(k, d) => m.insert(k, d),
            RecModel::Remove(k) => m.remove(k),
        };
        let mb = match b {
            RecModel::Insert(k, d) => m.insert(k, d),
            RecModel::Remove(k) => m.remove(k),
        };
        let mab = match b {
            RecModel::Insert(k, d) => ma.insert(k, d),
            RecModel::Remove(k) => ma.remove(k),
        };
        let mba = match a {
            RecModel::Insert(k, d) => mb.insert(k, d),
            RecModel::Remove(k) => mb.remove(k),
        };
        assert(replay(pre.push(a)) == ma);
        assert(replay(pre.push(b)) == mb);
        assert(s1.last() == b);
        assert(s2.last() == a);
        assert(replay(s1) == mab);
        assert(replay(s2) == mba);
        assert forall|x: Seq<char>| mab.contains_key(x) == mba.contains_key(x) && (
        mab.contains_key(x) ==> mab[x] == mba[x]) by {}
        assert(mab =~= mba);
    } else {
        let s1 = pre + seq![a, b] + post;
        let s2 = pre + seq![b, a] + post;
        assert(s1.drop_last() =~= pre + seq![a, b] + post.drop_last());
        assert(s2.drop_last() =~= pre + seq![b, a] + post.drop_last());
        assert(s1.last() == post.last());
        assert(s2.last() == post.last());
        lemma_replay_commutes(pre, a, b, post.drop_last());
    }
}


/// After an insert of `d` under `k`, a lookup of `k` yields `d`.
pub proof fn lemma_insert_then_lookup(p: Map<Seq<char>, DocModel>, k: Seq<char>, d: DocModel)
    ensures
        p.insert(k, d).contains_key(k),
        p.insert(k, d)[k] == d,
{
}

/// After a remove of `k`, a lookup of `k` yields nothing.
pub proof fn lemma_remove_then_lookup(p: Map<Seq<char>, DocModel>, k: Seq<char>)
    ensures
        !p.remove(k).contains_key(k),
{
}


/// Index completeness: every live document that declares an index
/// string is reachable through it.  Unlike soundness, this cannot hold
/// of every history: a collision is resolved by letting the last writer
/// win, which unlinks the earlier document.
pub open spec fn index_complete(
    p: Map<Seq<char>, DocModel>,
    idx: Map<Seq<char>, Seq<char>>,
) -> bool {
    forall|k: Seq<char>| #[trigger]
        p.contains_key(k) ==> match p[k].index_key {
            Some(s) => idx.contains_key(s) && idx[s] == k,
            None => true,
        }
}

/// Inserting a document whose index string no other key declares
/// preserves index completeness.
pub proof fn lemma_index_complete_insert(
    p: Map<Seq<char>, DocModel>,
    idx: Map<Seq<char>, Seq<char>>,
    k: Seq<char>,
    d: DocModel,
)
    requires
        index_complete(p, idx),
        index_coherent(p, idx),
        match d.index_key {
            Some(s) => forall|k2: Seq<char>| #[trigger]
                p.contains_key(k2) && k2 != k ==> p[k2].index_key != Some(s),
            None => true,
        },
    ensures
        index_complete(p.insert(k, d), index_after_insert(p, idx, k, d)),
{
    let p2 = p.insert(k, d);
    let idx1 = index_unlink(p, idx, k);
    let idx2 = index_after_insert(p, idx, k, d);
    assert forall|k2: Seq<char>| #[trigger] p2.contains_key(k2) implies match p2[k2].index_key {
        Some(s) => idx2.contains_key(s) && idx2[s] == k2,
        None => true,
    } by {
        if k2 == k {
            match d.index_key {
                Some(s1) => {
                    assert(idx2 == idx1.insert(s1, k));
                },
                None => {},
            }
        } else {
            assert(p.contains_key(k2));
            match p[k2].index_key {
                Some(s2) => {
                    assert(idx.contains_key(s2) && idx[s2] == k2);
                    if p.contains_key(k) {
                        match p[k].index_key {
                            Some(s0) => {
                                if idx.contains_key(s0) && idx[s0] == k {
                                    assert(s2 != s0);
                                }
                            },
                            None => {},
                        }
                    }
                    assert(idx1.contains_key(s2) && idx1[s2] == k2);
                    match d.index_key {
                        Some(s1) => {
                            assert(p[k2].index_key != Some(s1));
                            assert(s2 != s1);
                        },
                        None => {},
                    }
                },
                None => {},
            }
        }
    }
}

/// Removing a key preserves index completeness for every other key.
pub proof fn lemma_index_complete_remove(
    p: Map<Seq<char>, DocModel>,
    idx: Map<Seq<char>, Seq<char>>,
    k: Seq<char>,
)
    requires
        index_complete(p, idx),
        index_coherent(p, idx),
    ensures
        index_complete(p.remove(k), index_after_remove(p, idx, k)),
{
    let p2 = p.remove(k);
    let idx2 = index_after_remove(p, idx, k);
    assert forall|k2: Seq<char>| #[trigger] p2.contains_key(k2) implies match p2[k2].index_key {
        Some(s) => idx2.contains_key(s) && idx2[s] == k2,
        None => true,
    } by {
        assert(p.contains_key(k2) && k2 != k);
        match p[k2].index_key {
            Some(s2) => {
                assert(idx.contains_key(s2) && idx[s2] == k2);
                if p.contains_key(k) {
                    match p[k].index_key {
                        Some(s0) => {
                            if idx.contains_key(s0) && idx[s0] == k {
                                assert(s2 != s0);
                            }
                        },
                        None => {},
                    }
                }
            },
            None => {},
        }
    }
}


/// Truncation tolerance: a log written for `ops` whose last page loses
/// up to three tail bytes reopens to exactly the earlier mutations — all
/// of `ops` but the last.
pub proof fn lemma_truncated_reopen(
    st2: &Storage,
    pg: &crate::wal::Pager,
    ops: Seq<RecModel>,
    c: int,
)
    requires
        st2.wf(),
        pg.wf(),
        0 < c < 4,
        ops.len() > 0,
        forall|i: int| 0 <= i < ops.len() ==> rec_ok(#[trigger] ops[i]),
        pg.appended() == Seq::new(ops.len(), |i: int| enc_record(ops[i])),
        pg.pages_seq().len() > 0,
        pg.pages_seq().last().len() > 0,
        st2.history() == dec_prefix(
            recoverable(
                pg.pages_seq().drop_last().push(
                    pg.pages_seq().last().take(pg.pages_seq().last().len() - c),
                ),
            ),
        ),
    ensures
        st2.history() == ops.drop_last(),
        st2.primary_map() == replay(ops.drop_last()),
{
    pg.lemma_log_authority();
    crate::wal::lemma_truncated_tail(pg.pages_seq(), c);
    let es = Seq::new(ops.len(), |i: int| enc_record(ops[i]));
    assert(es.drop_last() =~= Seq::new(
        ops.drop_last().len(),
        |i: int| enc_record(ops.drop_last()[i]),
    ));
    assert forall|i: int| 0 <= i < ops.drop_last().len() implies rec_ok(
        #[trigger] ops.drop_last()[i],
    ) by {
        assert(ops.drop_last()[i] == ops[i]);
    }
    lemma_dec_prefix_of_encodings(ops.drop_last());
}


} // verus!
