use vstd::prelude::*;
use vstd::bytes::*;
use crate::document::{Document, DocModel};
use crate::tokenize::push_char;

verus! {

/// A mutation record, the on-log shape of one write.
pub enum RQuery {
    Insert(String, Document),
    Remove(String),
}

/// The mathematical shape of a mutation record.
pub enum RecModel {
    Insert(Seq<char>, DocModel),
    Remove(Seq<char>),
}

impl View for RQuery {
    type V = RecModel;

    open spec fn view(&self) -> RecModel {
        match self {
            RQuery::Insert(k, d) => RecModel::Insert(k@, d@),
            RQuery::Remove(k) => RecModel::Remove(k@),
        }
    }
}

impl Clone for RQuery {
    /// A clone denotes the same record.
    fn clone(&self) -> (r: Self)
        ensures
            r@ == self@,
    {
        match self {
            RQuery::Insert(k, d) => RQuery::Insert(k.clone(), d.clone()),
            RQuery::Remove(k) => RQuery::Remove(k.clone()),
        }
    }
}

/// The key a record mutates.
pub open spec fn rec_key(r: RecModel) -> Seq<char> {
    match r {
        RecModel::Insert(k, _d) => k,
        RecModel::Remove(k) => k,
    }
}

/// Encoding limit: lengths and counts are framed as 32-bit words.
pub open spec fn len_ok(n: nat) -> bool {
    n < 0x100000000
}

/// Bounds under which a document fits the record encoding.
pub open spec fn doc_ok(d: DocModel) -> bool {
    &&& len_ok(d.content.len())
    &&& (d.index_key matches Some(s) ==> len_ok(s.len()))
    &&& len_ok(d.tags.len())
    &&& (forall|i: int| 0 <= i < d.tags.len() ==> len_ok((#[trigger] d.tags[i]).len()))
    &&& len_ok(d.views.len())
    &&& (forall|i: int| 0 <= i < d.views.len() ==> len_ok((#[trigger] d.views[i]).0.len()))
    &&& len_ok(d.text.len())
}

/// Bounds under which a record fits the encoding.
pub open spec fn rec_ok(r: RecModel) -> bool {
    match r {
        RecModel::Insert(k, d) => len_ok(k.len()) && doc_ok(d),
        RecModel::Remove(k) => len_ok(k.len()),
    }
}

pub open spec fn enc_u32(n: u32) -> Seq<u8> {
    spec_u32_to_le_bytes(n)
}

/// Characters as 32-bit little-endian code points.
pub open spec fn enc_chars(s: Seq<char>) -> Seq<u8>
    decreases s.len(),
{
    if s.len() == 0 {
        Seq::empty()
    } else {
        enc_u32(s[0] as u32) + enc_chars(s.drop_first())
    }
}

/// A string: character count, then the code points.
pub open spec fn enc_str(s: Seq<char>) -> Seq<u8> {
    enc_u32(s.len() as u32) + enc_chars(s)
}

pub open spec fn enc_opt_str(o: Option<Seq<char>>) -> Seq<u8> {
    match o {
        None => seq![0u8],
        Some(s) => seq![1u8] + enc_str(s),
    }
}

pub open spec fn enc_strs(v: Seq<Seq<char>>) -> Seq<u8>
    decreases v.len(),
{
    if v.len() == 0 {
        Seq::empty()
    } else {
        enc_str(v[0]) + enc_strs(v.drop_first())
    }
}

/// A string list: count, then each string.
pub open spec fn enc_str_list(v: Seq<Seq<char>>) -> Seq<u8> {
    enc_u32(v.len() as u32) + enc_strs(v)
}

pub open spec fn enc_view_decls(v: Seq<(Seq<char>, bool)>) -> Seq<u8>
    decreases v.len(),
{
    if v.len() == 0 {
        Seq::empty()
    } else {
        enc_str(v[0].0) + seq![if v[0].1 { 1u8 } else { 0u8 }] + enc_view_decls(v.drop_first())
    }
}

/// A view-declaration list: count, then each name with its flag byte.
pub open spec fn enc_views(v: Seq<(Seq<char>, bool)>) -> Seq<u8> {
    enc_u32(v.len() as u32) + enc_view_decls(v)
}

pub open spec fn enc_doc(d: DocModel) -> Seq<u8> {
    enc_str(d.content) + enc_opt_str(d.index_key) + enc_str_list(d.tags) + enc_views(d.views)
        + enc_str(d.text)
}

/// The stable binary encoding of a record: a tagged union, tag 0 for
/// insert and 1 for remove.
pub open spec fn enc_record(r: RecModel) -> Seq<u8> {
    match r {
        RecModel::Insert(k, d) => seq![0u8] + enc_str(k) + enc_doc(d),
        RecModel::Remove(k) => seq![1u8] + enc_str(k),
    }
}

// ---------------------------------------------------------------------
// Specification-level decoding.  Each function consumes a prefix of the
// bytes and yields the decoded value with the remaining bytes.
pub open spec fn dec_u32(b: Seq<u8>) -> Option<(u32, Seq<u8>)> {
    if b.len() < 4 {
        None
    } else {
        Some((spec_u32_from_le_bytes(b.take(4)), b.skip(4)))
    }
}

pub open spec fn dec_chars(b: Seq<u8>, n: nat) -> Option<(Seq<char>, Seq<u8>)>
    decreases n,
{
    if n == 0 {
        Some((Seq::empty(), b))
    } else {
        match dec_u32(b) {
            None => None,
            Some((v, rest)) => if vstd::utf8::is_scalar(v) {
                match dec_chars(rest, (n - 1) as nat) {
                    None => None,
                    Some((cs, rest2)) => Some((seq![v as char] + cs, rest2)),
                }
            } else {
                None
            },
        }
    }
}

pub open spec fn dec_str(b: Seq<u8>) -> Option<(Seq<char>, Seq<u8>)> {
    match dec_u32(b) {
        None => None,
        Some((n, rest)) => dec_chars(rest, n as nat),
    }
}

pub open spec fn dec_opt_str(b: Seq<u8>) -> Option<(Option<Seq<char>>, Seq<u8>)> {
    if b.len() < 1 {
        None
    } else if b[0] == 0u8 {
        Some((None, b.skip(1)))
    } else if b[0] == 1u8 {
        match dec_str(b.skip(1)) {
            None => None,
            Some((s, rest)) => Some((Some(s), rest)),
        }
    } else {
        None
    }
}

pub open spec fn dec_strs(b: Seq<u8>, n: nat) -> Option<(Seq<Seq<char>>, Seq<u8>)>
    decreases n,
{
    if n == 0 {
        Some((Seq::empty(), b))
    } else {
        match dec_str(b) {
            None => None,
            Some((s, rest)) => match dec_strs(rest, (n - 1) as nat) {
                None => None,
                Some((ss, rest2)) => Some((seq![s] + ss, rest2)),
            },
        }
    }
}

pub open spec fn dec_str_list(b: Seq<u8>) -> Option<(Seq<Seq<char>>, Seq<u8>)> {
    match dec_u32(b) {
        None => None,
        Some((n, rest)) => dec_strs(rest, n as nat),
    }
}

pub open spec fn dec_view_decls(b: Seq<u8>, n: nat) -> Option<(Seq<(Seq<char>, bool)>, Seq<u8>)>
    decreases n,
{
    if n == 0 {
        Some((Seq::empty(), b))
    } else {
        match dec_str(b) {
            None => None,
            Some((s, rest)) => if rest.len() < 1 || (rest[0] != 0u8 && rest[0] != 1u8) {
                None
            } else {
                match dec_view_decls(rest.skip(1), (n - 1) as nat) {
                    None => None,
                    Some((vs, rest2)) => Some((seq![(s, rest[0] == 1u8)] + vs, rest2)),
                }
            },
        }
    }
}

pub open spec fn dec_views(b: Seq<u8>) -> Option<(Seq<(Seq<char>, bool)>, Seq<u8>)> {
    match dec_u32(b) {
        None => None,
        Some((n, rest)) => dec_view_decls(rest, n as nat),
    }
}

pub open spec fn dec_doc(b: Seq<u8>) -> Option<(DocModel, Seq<u8>)> {
    match dec_str(b) {
        None => None,
        Some((content, b1)) => match dec_opt_str(b1) {
            None => None,
            Some((index_key, b2)) => match dec_str_list(b2) {
                None => None,
                Some((tags, b3)) => match dec_views(b3) {
                    None => None,
                    Some((views, b4)) => match dec_str(b4) {
                        None => None,
                        Some((text, b5)) => Some(
                            (DocModel { content, index_key, tags, views, text }, b5),
                        ),
                    },
                },
            },
        },
    }
}

/// Decoding of one record from a full payload: the tagged union, with
/// nothing allowed to trail it.
pub open spec fn dec_record(b: Seq<u8>) -> Option<RecModel> {
    if b.len() < 1 {
        None
    } else if b[0] == 0u8 {
        match dec_str(b.skip(1)) {
            None => None,
            Some((k, b1)) => match dec_doc(b1) {
                None => None,
                Some((d, b2)) => if b2.len() == 0 {
                    Some(RecModel::Insert(k, d))
                } else {
                    None
                },
            },
        }
    } else if b[0] == 1u8 {
        match dec_str(b.skip(1)) {
            None => None,
            Some((k, b1)) => if b1.len() == 0 {
                Some(RecModel::Remove(k))
            } else {
                None
            },
        }
    } else {
        None
    }
}

// ---------------------------------------------------------------------
// Round trip: decoding an encoding yields the record back.
pub proof fn lemma_dec_enc_u32(n: u32, rest: Seq<u8>)
    ensures
        dec_u32(enc_u32(n) + rest) == Some((n, rest)),
{
    lemma_auto_spec_u32_to_from_le_bytes();
    assert(enc_u32(n).len() == 4);
    assert((enc_u32(n) + rest).take(4) =~= enc_u32(n));
    assert((enc_u32(n) + rest).skip(4) =~= rest);
}

pub proof fn lemma_dec_enc_chars(s: Seq<char>, rest: Seq<u8>)
    ensures
        dec_chars(enc_chars(s) + rest, s.len()) == Some((s, rest)),
    decreases s.len(),
{
    if s.len() == 0 {
        assert(enc_chars(s) + rest =~= rest);
    } else {
        let c = s[0];
        vstd::utf8::char_is_scalar(c);
        vstd::utf8::char_u32_cast(c, c as u32);
        assert(enc_chars(s) + rest =~= enc_u32(c as u32) + (enc_chars(s.drop_first()) + rest));
        lemma_dec_enc_u32(c as u32, enc_chars(s.drop_first()) + rest);
        lemma_dec_enc_chars(s.drop_first(), rest);
        assert(seq![(c as u32) as char] + s.drop_first() =~= s);
    }
}

pub proof fn lemma_dec_enc_str(s: Seq<char>, rest: Seq<u8>)
    requires
        len_ok(s.len()),
    ensures
        dec_str(enc_str(s) + rest) == Some((s, rest)),
{
    assert(enc_str(s) + rest =~= enc_u32(s.len() as u32) + (enc_chars(s) + rest));
    lemma_dec_enc_u32(s.len() as u32, enc_chars(s) + rest);
    lemma_dec_enc_chars(s, rest);
}

pub proof fn lemma_dec_enc_opt_str(o: Option<Seq<char>>, rest: Seq<u8>)
    requires
        o matches Some(s) ==> len_ok(s.len()),
    ensures
        dec_opt_str(enc_opt_str(o) + rest) == Some((o, rest)),
{
    match o {
        None => {
            assert(enc_opt_str(o) + rest =~= seq![0u8] + rest);
            assert((seq![0u8] + rest).skip(1) =~= rest);
        },
        Some(s) => {
            assert(enc_opt_str(o) + rest =~= seq![1u8] + (enc_str(s) + rest));
            assert((seq![1u8] + (enc_str(s) + rest)).skip(1) =~= enc_str(s) + rest);
            lemma_dec_enc_str(s, rest);
        },
    }
}

pub proof fn lemma_dec_enc_strs(v: Seq<Seq<char>>, rest: Seq<u8>)
    requires
        forall|i: int| 0 <= i < v.len() ==> len_ok((#[trigger] v[i]).len()),
    ensures
        dec_strs(enc_strs(v) + rest, v.len()) == Some((v, rest)),
    decreases v.len(),
{
    if v.len() == 0 {
        assert(enc_strs(v) + rest =~= rest);
    } else {
        assert(enc_strs(v) + rest =~= enc_str(v[0]) + (enc_strs(v.drop_first()) + rest));
        lemma_dec_enc_str(v[0], enc_strs(v.drop_first()) + rest);
        lemma_dec_enc_strs(v.drop_first(), rest);
        assert(seq![v[0]] + v.drop_first() =~= v);
    }
}

pub proof fn lemma_dec_enc_str_list(v: Seq<Seq<char>>, rest: Seq<u8>)
    requires
        len_ok(v.len()),
        forall|i: int| 0 <= i < v.len() ==> len_ok((#[trigger] v[i]).len()),
    ensures
        dec_str_list(enc_str_list(v) + rest) == Some((v, rest)),
{
    assert(enc_str_list(v) + rest =~= enc_u32(v.len() as u32) + (enc_strs(v) + rest));
    lemma_dec_enc_u32(v.len() as u32, enc_strs(v) + rest);
    lemma_dec_enc_strs(v, rest);
}

pub proof fn lemma_dec_enc_view_decls(v: Seq<(Seq<char>, bool)>, rest: Seq<u8>)
    requires
        forall|i: int| 0 <= i < v.len() ==> len_ok((#[trigger] v[i]).0.len()),
    ensures
        dec_view_decls(enc_view_decls(v) + rest, v.len()) == Some((v, rest)),
    decreases v.len(),
{
    if v.len() == 0 {
        assert(enc_view_decls(v) + rest =~= rest);
    } else {
        let flag = if v[0].1 {
            1u8
        } else {
            0u8
        };
        let tail = seq![flag] + (enc_view_decls(v.drop_first()) + rest);
        assert(enc_view_decls(v) + rest =~= enc_str(v[0].0) + tail);
        lemma_dec_enc_str(v[0].0, tail);
        assert(tail[0] == flag);
        assert(tail.skip(1) =~= enc_view_decls(v.drop_first()) + rest);
        lemma_dec_enc_view_decls(v.drop_first(), rest);
        assert(seq![(v[0].0, flag == 1u8)] + v.drop_first() =~= v);
    }
}

pub proof fn lemma_dec_enc_views(v: Seq<(Seq<char>, bool)>, rest: Seq<u8>)
    requires
        len_ok(v.len()),
        forall|i: int| 0 <= i < v.len() ==> len_ok((#[trigger] v[i]).0.len()),
    ensures
        dec_views(enc_views(v) + rest) == Some((v, rest)),
{
    assert(enc_views(v) + rest =~= enc_u32(v.len() as u32) + (enc_view_decls(v) + rest));
    lemma_dec_enc_u32(v.len() as u32, enc_view_decls(v) + rest);
    lemma_dec_enc_view_decls(v, rest);
}

pub proof fn lemma_dec_enc_doc(d: DocModel, rest: Seq<u8>)
    requires
        doc_ok(d),
    ensures
        dec_doc(enc_doc(d) + rest) == Some((d, rest)),
{
    let b4 = enc_str(d.text) + rest;
    let b3 = enc_views(d.views) + b4;
    let b2 = enc_str_list(d.tags) + b3;
    let b1 = enc_opt_str(d.index_key) + b2;
    assert(enc_doc(d) + rest =~= enc_str(d.content) + b1);
    lemma_dec_enc_str(d.content, b1);
    lemma_dec_enc_opt_str(d.index_key, b2);
    lemma_dec_enc_str_list(d.tags, b3);
    lemma_dec_enc_views(d.views, b4);
    lemma_dec_enc_str(d.text, rest);
}

/// Decoding inverts encoding: the round trip of any record within the
/// encoding bounds gives the record back.
pub proof fn lemma_dec_enc_record(r: RecModel)
    requires
        rec_ok(r),
    ensures
        dec_record(enc_record(r)) == Some(r),
{
    match r {
        RecModel::Insert(k, d) => {
            let b = enc_record(r);
            assert(b[0] == 0u8);
            assert(b.skip(1) =~= enc_str(k) + (enc_doc(d) + Seq::empty()));
            assert(enc_doc(d) + Seq::<u8>::empty() =~= enc_doc(d));
            assert(b.skip(1) =~= enc_str(k) + enc_doc(d));
            assert(enc_str(k) + enc_doc(d) =~= enc_str(k) + (enc_doc(d) + Seq::empty()));
            lemma_dec_enc_str(k, enc_doc(d) + Seq::empty());
            lemma_dec_enc_doc(d, Seq::empty());
        },
        RecModel::Remove(k) => {
            let b = enc_record(r);
            assert(b[0] == 1u8);
            assert(b.skip(1) =~= enc_str(k) + Seq::empty());
            lemma_dec_enc_str(k, Seq::empty());
        },
    }
}

// ---------------------------------------------------------------------
// Executable encoding.
/// Appends the bytes of `b` to `out`.
pub fn put_bytes(out: &mut Vec<u8>, b: &Vec<u8>)
    ensures
        final(out)@ == old(out)@ + b@,
{
    let mut i: usize = 0;
    while i < b.len()
        invariant
            i <= b@.len(),
            out@ == old(out)@ + b@.take(i as int),
        decreases b@.len() - i,
    {
        proof {
            assert(b@.take(i as int + 1) =~= b@.take(i as int).push(b@[i as int]));
        }
        out.push(b[i]);
        i = i + 1;
    }
    proof {
        assert(b@.take(b@.len() as int) =~= b@);
    }
}

/// Appends a 32-bit word, little endian.
pub fn put_u32(out: &mut Vec<u8>, n: u32)
    ensures
        final(out)@ == old(out)@ + enc_u32(n),
{
    let b = u32_to_le_bytes(n);
    put_bytes(out, &b);
}

/// Appends the code points of the characters of `s` from position `j` on.
fn put_chars_from(out: &mut Vec<u8>, s: &Vec<char>, j: usize)
    requires
        j <= s@.len(),
    ensures
        final(out)@ == old(out)@ + enc_chars(s@.skip(j as int)),
    decreases s@.len() - j,
{
    if j < s.len() {
        let c = s[j];
        proof {
            assert(s@.skip(j as int)[0] == c);
            assert(s@.skip(j as int).drop_first() =~= s@.skip(j as int + 1));
        }
        put_u32(out, c as u32);
        put_chars_from(out, s, j + 1);
        proof {
            assert(old(out)@ + (enc_u32(c as u32) + enc_chars(s@.skip(j as int + 1))) =~= (old(
                out,
            )@ + enc_u32(c as u32)) + enc_chars(s@.skip(j as int + 1)));
        }
    } else {
        proof {
            assert(s@.skip(j as int).len() == 0);
            assert(out@ + enc_chars(s@.skip(j as int)) =~= out@);
        }
    }
}

/// The characters of a string, in order.
pub fn str_chars(s: &str) -> (r: Vec<char>)
    ensures
        r@ == s@,
{
    let n = s.unicode_len();
    let mut r: Vec<char> = Vec::new();
    let mut i: usize = 0;
    while i < n
        invariant
            n == s@.len(),
            i <= n,
            r@ == s@.take(i as int),
        decreases n - i,
    {
        proof {
            assert(s@.take(i as int + 1) =~= s@.take(i as int).push(s@[i as int]));
        }
        r.push(s.get_char(i));
        i = i + 1;
    }
    proof {
        assert(s@.take(n as int) =~= s@);
    }
    r
}

/// Appends the encoding of a string.
fn put_str(out: &mut Vec<u8>, s: &String)
    requires
        len_ok(s@.len()),
    ensures
        final(out)@ == old(out)@ + enc_str(s@),
{
    let cs = str_chars(s.as_str());
    put_u32(out, cs.len() as u32);
    put_chars_from(out, &cs, 0);
    proof {
        assert(cs@.skip(0) =~= s@);
        assert((old(out)@ + enc_u32(s@.len() as u32)) + enc_chars(s@) =~= old(out)@ + enc_str(s@));
    }
}

/// Encodes one record into its stable byte form.
pub fn encode_record(r: &RQuery) -> (out: Vec<u8>)
    requires
        rec_ok(r@),
    ensures
        out@ == enc_record(r@),
{
    let mut out: Vec<u8> = Vec::new();
    match r {
        RQuery::Insert(k, d) => {
            out.push(0u8);
            proof {
                assert(out@ =~= seq![0u8]);
            }
            put_str(&mut out, k);
            put_str(&mut out, &d.content);
            match &d.index_key {
                None => {
                    out.push(0u8);
                },
                Some(s) => {
                    out.push(1u8);
                    put_str(&mut out, s);
                    proof {
                        assert(seq![1u8] + enc_str(s@) =~= enc_opt_str(d@.index_key));
                    }
                },
            }
            put_u32(&mut out, d.tags.len() as u32);
            let mut i: usize = 0;
            let ghost tagbase = out@;
            while i < d.tags.len()
                invariant
                    i <= d.tags@.len(),
                    forall|j: int| 0 <= j < d@.tags.len() ==> len_ok((#[trigger] d@.tags[j]).len()),
                    d@.tags.len() == d.tags@.len(),
                    forall|j: int| 0 <= j < d.tags@.len() ==> d@.tags[j] == (#[trigger] d.tags@[j])@,
                    out@ == tagbase + enc_strs(d@.tags.take(i as int)),
                decreases d.tags@.len() - i,
            {
                put_str(&mut out, &d.tags[i]);
                proof {
                    lemma_enc_strs_snoc(d@.tags.take(i as int + 1));
                    assert(d@.tags.take(i as int + 1).drop_last() =~= d@.tags.take(i as int));
                    assert(tagbase + enc_strs(d@.tags.take(i as int)) + enc_str(d@.tags[i as int])
                        =~= tagbase + enc_strs(d@.tags.take(i as int + 1)));
                }
                i = i + 1;
            }
            proof {
                assert(d@.tags.take(d@.tags.len() as int) =~= d@.tags);
            }
            put_u32(&mut out, d.views.len() as u32);
            let mut i2: usize = 0;
            let ghost viewbase = out@;
            while i2 < d.views.len()
                invariant
                    i2 <= d.views@.len(),
                    forall|j: int|
                        0 <= j < d@.views.len() ==> len_ok((#[trigger] d@.views[j]).0.len()),
                    d@.views.len() == d.views@.len(),
                    forall|j: int|
                        0 <= j < d.views@.len() ==> (#[trigger] d@.views[j]) == (
                        d.views@[j].0@,
                        d.views@[j].1,
                        ),
                    out@ == viewbase + enc_view_decls(d@.views.take(i2 as int)),
                decreases d.views@.len() - i2,
            {
                proof {
                    assert(d@.views[i2 as int] == (d.views@[i2 as int].0@, d.views@[i2 as int].1));
                    assert(len_ok(d.views@[i2 as int].0@.len()));
                }
                put_str(&mut out, &d.views[i2].0);
                if d.views[i2].1 {
                    out.push(1u8);
                } else {
                    out.push(0u8);
                }
                proof {
                    lemma_enc_view_decls_snoc(d@.views.take(i2 as int + 1));
                    assert(d@.views.take(i2 as int + 1).drop_last() =~= d@.views.take(i2 as int));
                    let flag = if d@.views[i2 as int].1 {
                        1u8
                    } else {
                        0u8
                    };
                    assert(out@ =~= viewbase + enc_view_decls(d@.views.take(i2 as int)) + enc_str(
                        d@.views[i2 as int].0,
                    ) + seq![flag]);
                    assert(viewbase + enc_view_decls(d@.views.take(i2 as int)) + enc_str(
                        d@.views[i2 as int].0,
                    ) + seq![flag] =~= viewbase + enc_view_decls(d@.views.take(i2 as int + 1)));
                }
                i2 = i2 + 1;
            }
            proof {
                assert(d@.views.take(d@.views.len() as int) =~= d@.views);
            }
            put_str(&mut out, &d.text);
            proof {
                assert(out@ =~= enc_record(r@));
            }
        },
        RQuery::Remove(k) => {
            out.push(1u8);
            proof {
                assert(out@ =~= seq![1u8]);
            }
            put_str(&mut out, k);
            proof {
                assert(out@ =~= enc_record(r@));
            }
        },
    }
    out
}

pub proof fn lemma_enc_strs_snoc(v: Seq<Seq<char>>)
    requires
        v.len() > 0,
    ensures
        enc_strs(v) == enc_strs(v.drop_last()) + enc_str(v.last()),
    decreases v.len(),
{
    if v.len() == 1 {
        assert(v.drop_last().len() == 0);
        assert(v.drop_first().len() == 0);
        assert(enc_strs(v.drop_first()) == Seq::<u8>::empty());
        assert(enc_strs(v.drop_last()) == Seq::<u8>::empty());
        assert(enc_strs(v) == enc_str(v[0]) + enc_strs(v.drop_first()));
        assert(enc_strs(v) =~= enc_str(v[0]) + Seq::<u8>::empty());
        assert(v.last() == v[0]);
        assert(enc_strs(v.drop_last()) + enc_str(v.last()) =~= enc_str(v[0]));
    } else {
        lemma_enc_strs_snoc(v.drop_first());
        assert(v.drop_first().drop_last() =~= v.drop_last().drop_first());
        assert(v.drop_first().last() == v.last());
        assert(v.drop_last()[0] == v[0]);
        assert(enc_strs(v.drop_last()) == enc_str(v[0]) + enc_strs(v.drop_last().drop_first()));
        assert(enc_str(v[0]) + (enc_strs(v.drop_last().drop_first()) + enc_str(v.last())) =~= (
        enc_str(v[0]) + enc_strs(v.drop_last().drop_first())) + enc_str(v.last()));
    }
}

pub proof fn lemma_enc_view_decls_snoc(v: Seq<(Seq<char>, bool)>)
    requires
        v.len() > 0,
    ensures
        enc_view_decls(v) == enc_view_decls(v.drop_last()) + enc_str(v.last().0) + seq![
            if v.last().1 {
                1u8
            } else {
                0u8
            },
        ],
    decreases v.len(),
{
    let flag = if v.last().1 {
        1u8
    } else {
        0u8
    };
    if v.len() == 1 {
        assert(v.drop_last().len() == 0);
        assert(v.drop_first().len() == 0);
        assert(enc_view_decls(v.drop_first()) == Seq::<u8>::empty());
        assert(enc_view_decls(v.drop_last()) == Seq::<u8>::empty());
        assert(v.last() == v[0]);
        assert(enc_view_decls(v) == enc_str(v[0].0) + seq![flag] + enc_view_decls(v.drop_first()));
        assert(enc_view_decls(v) =~= enc_str(v[0].0) + seq![flag] + Seq::<u8>::empty());
        assert(enc_view_decls(v.drop_last()) + enc_str(v.last().0) + seq![flag] =~= enc_str(v[0].0)
            + seq![flag] + Seq::<u8>::empty());
    } else {
        lemma_enc_view_decls_snoc(v.drop_first());
        let flag0 = if v[0].1 {
            1u8
        } else {
            0u8
        };
        assert(v.drop_first().drop_last() =~= v.drop_last().drop_first());
        assert(v.drop_first().last() == v.last());
        assert(v.drop_last()[0] == v[0]);
        assert(enc_view_decls(v.drop_last()) == enc_str(v[0].0) + seq![flag0] + enc_view_decls(
            v.drop_last().drop_first(),
        ));
        assert(enc_str(v[0].0) + seq![flag0] + (enc_view_decls(v.drop_last().drop_first())
            + enc_str(v.last().0) + seq![flag]) =~= (enc_str(v[0].0) + seq![flag0] + enc_view_decls(
            v.drop_last().drop_first(),
        )) + enc_str(v.last().0) + seq![flag]);
        assert(enc_view_decls(v) =~= enc_str(v[0].0) + seq![flag0] + enc_view_decls(
            v.drop_first(),
        ));
    }
}

// ---------------------------------------------------------------------
// Executable decoding.
/// Relies on char::from_u32: `Some` exactly for Unicode scalar values,
/// yielding the character with that code point.
#[verifier::external_body]
fn char_from_u32(v: u32) -> (r: Option<char>)
    ensures
        r == (if vstd::utf8::is_scalar(v) {
            Some(v as char)
        } else {
            None::<char>
        }),
{
    char::from_u32(v)
}

/// Prefixes the decoded value of a partial decode.
pub open spec fn prep<T>(pre: Seq<T>, o: Option<(Seq<T>, Seq<u8>)>) -> Option<(Seq<T>, Seq<u8>)> {
    match o {
        None => None,
        Some((v, rest)) => Some((pre + v, rest)),
    }
}

/// View of a vector of view declarations as name sequences with flags.
pub open spec fn decls_view(v: Seq<(String, bool)>) -> Seq<(Seq<char>, bool)> {
    Seq::new(v.len(), |i: int| (v[i].0@, v[i].1))
}

fn get_u32(b: &Vec<u8>, pos: usize) -> (r: Option<(u32, usize)>)
    requires
        pos <= b@.len(),
    ensures
        match r {
            Some(t) => pos <= t.1 <= b@.len() && dec_u32(b@.skip(pos as int)) == Some(
                (t.0, b@.skip(t.1 as int)),
            ),
            None => dec_u32(b@.skip(pos as int)) is None,
        },
{
    if b.len() - pos < 4 {
        return None;
    }
    let mut tmp: Vec<u8> = Vec::new();
    tmp.push(b[pos]);
    tmp.push(b[pos + 1]);
    tmp.push(b[pos + 2]);
    tmp.push(b[pos + 3]);
    proof {
        assert(tmp@ =~= b@.skip(pos as int).take(4));
        assert(b@.skip(pos as int).skip(4) =~= b@.skip(pos as int + 4));
    }
    let x = u32_from_le_bytes(tmp.as_slice());
    Some((x, pos + 4))
}

fn dec_str_at(b: &Vec<u8>, pos: usize) -> (r: Option<(String, usize)>)
    requires
        pos <= b@.len(),
    ensures
        match r {
            Some(t) => pos <= t.1 <= b@.len() && dec_str(b@.skip(pos as int)) == Some(
                (t.0@, b@.skip(t.1 as int)),
            ),
            None => dec_str(b@.skip(pos as int)) is None,
        },
{
    let (n, p1) = match get_u32(b, pos) {
        None => {
            return None;
        },
        Some(t) => t,
    };
    let mut s = String::new();
    let mut j: u32 = 0;
    let mut p: usize = p1;
    proof {
        let o = dec_chars(b@.skip(p1 as int), n as nat);
        if o is Some {
            assert(Seq::<char>::empty() + o->Some_0.0 =~= o->Some_0.0);
        }
        assert(prep(s@, o) == o);
    }
    while j < n
        invariant
            pos <= p1 <= p <= b@.len(),
            j <= n,
            dec_u32(b@.skip(pos as int)) == Some((n, b@.skip(p1 as int))),
            dec_chars(b@.skip(p1 as int), n as nat) == prep(
                s@,
                dec_chars(b@.skip(p as int), (n - j) as nat),
            ),
        decreases n - j,
    {
        let (v, p2) = match get_u32(b, p) {
            None => {
                return None;
            },
            Some(t) => t,
        };
        let c = match char_from_u32(v) {
            None => {
                return None;
            },
            Some(c) => c,
        };
        proof {
            let ghost tail = dec_chars(b@.skip(p2 as int), (n - j - 1) as nat);
            if tail is Some {
                let (cs, rest) = tail->Some_0;
                assert(s@ + (seq![c] + cs) =~= s@.push(c) + cs);
            }
        }
        push_char(&mut s, c);
        p = p2;
        j = j + 1;
    }
    proof {
        assert(dec_chars(b@.skip(p as int), 0nat) == Some(
            (Seq::<char>::empty(), b@.skip(p as int)),
        ));
        assert(s@ + Seq::<char>::empty() =~= s@);
    }
    Some((s, p))
}

fn dec_opt_str_at(b: &Vec<u8>, pos: usize) -> (r: Option<(Option<String>, usize)>)
    requires
        pos <= b@.len(),
    ensures
        match r {
            Some(t) => pos <= t.1 <= b@.len() && dec_opt_str(b@.skip(pos as int)) == Some(
                (
                    match t.0 {
                        Some(s) => Some(s@),
                        None => None,
                    },
                    b@.skip(t.1 as int),
                ),
            ),
            None => dec_opt_str(b@.skip(pos as int)) is None,
        },
{
    if b.len() - pos < 1 {
        return None;
    }
    let tag = b[pos];
    proof {
        assert(b@.skip(pos as int)[0] == tag);
        assert(b@.skip(pos as int).skip(1) =~= b@.skip(pos as int + 1));
    }
    if tag == 0u8 {
        Some((None, pos + 1))
    } else if tag == 1u8 {
        match dec_str_at(b, pos + 1) {
            None => None,
            Some((s, p2)) => Some((Some(s), p2)),
        }
    } else {
        None
    }
}

fn dec_strs_at(b: &Vec<u8>, pos: usize) -> (r: Option<(Vec<String>, usize)>)
    requires
        pos <= b@.len(),
    ensures
        match r {
            Some(t) => pos <= t.1 <= b@.len() && dec_str_list(b@.skip(pos as int)) == Some(
                (crate::tokenize::strs_view(t.0@), b@.skip(t.1 as int)),
            ),
            None => dec_str_list(b@.skip(pos as int)) is None,
        },
{
    let (n, p1) = match get_u32(b, pos) {
        None => {
            return None;
        },
        Some(t) => t,
    };
    let mut v: Vec<String> = Vec::new();
    let mut j: u32 = 0;
    let mut p: usize = p1;
    proof {
        let o = dec_strs(b@.skip(p1 as int), n as nat);
        assert(crate::tokenize::strs_view(v@) =~= Seq::<Seq<char>>::empty());
        if o is Some {
            assert(Seq::<Seq<char>>::empty() + o->Some_0.0 =~= o->Some_0.0);
        }
        assert(prep(crate::tokenize::strs_view(v@), o) == o);
    }
    while j < n
        invariant
            pos <= p1 <= p <= b@.len(),
            j <= n,
            dec_u32(b@.skip(pos as int)) == Some((n, b@.skip(p1 as int))),
            dec_strs(b@.skip(p1 as int), n as nat) == prep(
                crate::tokenize::strs_view(v@),
                dec_strs(b@.skip(p as int), (n - j) as nat),
            ),
        decreases n - j,
    {
        let (s, p2) = match dec_str_at(b, p) {
            None => {
                return None;
            },
            Some(t) => t,
        };
        proof {
            let ghost tail = dec_strs(b@.skip(p2 as int), (n - j - 1) as nat);
            if tail is Some {
                let (ss, rest) = tail->Some_0;
                assert(crate::tokenize::strs_view(v@) + (seq![s@] + ss) =~= crate::tokenize::strs_view(
                    v@.push(s),
                ) + ss);
            } else {
                assert(crate::tokenize::strs_view(v@.push(s)) =~= crate::tokenize::strs_view(v@)
                    + seq![s@]);
            }
        }
        v.push(s);
        p = p2;
        j = j + 1;
    }
    proof {
        assert(crate::tokenize::strs_view(v@) + Seq::<Seq<char>>::empty() =~= crate::tokenize::strs_view(
            v@,
        ));
    }
    Some((v, p))
}

fn dec_views_at(b: &Vec<u8>, pos: usize) -> (r: Option<(Vec<(String, bool)>, usize)>)
    requires
        pos <= b@.len(),
    ensures
        match r {
            Some(t) => pos <= t.1 <= b@.len() && dec_views(b@.skip(pos as int)) == Some(
                (decls_view(t.0@), b@.skip(t.1 as int)),
            ),
            None => dec_views(b@.skip(pos as int)) is None,
        },
{
    let (n, p1) = match get_u32(b, pos) {
        None => {
            return None;
        },
        Some(t) => t,
    };
    let mut v: Vec<(String, bool)> = Vec::new();
    let mut j: u32 = 0;
    let mut p: usize = p1;
    proof {
        let o = dec_view_decls(b@.skip(p1 as int), n as nat);
        assert(decls_view(v@) =~= Seq::<(Seq<char>, bool)>::empty());
        if o is Some {
            assert(Seq::<(Seq<char>, bool)>::empty() + o->Some_0.0 =~= o->Some_0.0);
        }
        assert(prep(decls_view(v@), o) == o);
    }
    while j < n
        invariant
            pos <= p1 <= p <= b@.len(),
            j <= n,
            dec_u32(b@.skip(pos as int)) == Some((n, b@.skip(p1 as int))),
            dec_view_decls(b@.skip(p1 as int), n as nat) == prep(
                decls_view(v@),
                dec_view_decls(b@.skip(p as int), (n - j) as nat),
            ),
        decreases n - j,
    {
        let (s, p2) = match dec_str_at(b, p) {
            None => {
                return None;
            },
            Some(t) => t,
        };
        if b.len() - p2 < 1 {
            return None;
        }
        let tag = b[p2];
        proof {
            assert(b@.skip(p2 as int)[0] == tag);
            assert(b@.skip(p2 as int).skip(1) =~= b@.skip(p2 as int + 1));
        }
        if tag != 0u8 && tag != 1u8 {
            return None;
        }
        proof {
            let ghost tail = dec_view_decls(b@.skip(p2 as int + 1), (n - j - 1) as nat);
            if tail is Some {
                let (vs, rest) = tail->Some_0;
                assert(decls_view(v@) + (seq![(s@, tag == 1u8)] + vs) =~= decls_view(
                    v@.push((s, tag == 1u8)),
                ) + vs);
            } else {
                assert(decls_view(v@.push((s, tag == 1u8))) =~= decls_view(v@) + seq![
                    (s@, tag == 1u8),
                ]);
            }
        }
        v.push((s, tag == 1u8));
        p = p2 + 1;
        j = j + 1;
    }
    proof {
        assert(decls_view(v@) + Seq::<(Seq<char>, bool)>::empty() =~= decls_view(v@));
    }
    Some((v, p))
}

fn dec_doc_at(b: &Vec<u8>, pos: usize) -> (r: Option<(Document, usize)>)
    requires
        pos <= b@.len(),
    ensures
        match r {
            Some(t) => pos <= t.1 <= b@.len() && dec_doc(b@.skip(pos as int)) == Some(
                (t.0@, b@.skip(t.1 as int)),
            ),
            None => dec_doc(b@.skip(pos as int)) is None,
        },
{
    let (content, p1) = match dec_str_at(b, pos) {
        None => {
            return None;
        },
        Some(t) => t,
    };
    let (index_key, p2) = match dec_opt_str_at(b, p1) {
        None => {
            return None;
        },
        Some(t) => t,
    };
    let (tags, p3) = match dec_strs_at(b, p2) {
        None => {
            return None;
        },
        Some(t) => t,
    };
    let (views, p4) = match dec_views_at(b, p3) {
        None => {
            return None;
        },
        Some(t) => t,
    };
    let (text, p5) = match dec_str_at(b, p4) {
        None => {
            return None;
        },
        Some(t) => t,
    };
    let doc = Document { content, index_key, tags, views, text };
    proof {
        let ghost m = dec_doc(b@.skip(pos as int))->Some_0.0;
        assert(doc@.tags =~= m.tags);
        assert(doc@.views =~= m.views);
        assert(doc@ == m);
    }
    Some((doc, p5))
}

/// Decodes one record from a full log payload; succeeds exactly when the
/// payload is a record encoding with nothing trailing it.
pub fn decode_record(b: &Vec<u8>) -> (r: Option<RQuery>)
    ensures
        match r {
            Some(q) => dec_record(b@) == Some(q@),
            None => dec_record(b@) is None,
        },
{
    if b.len() < 1 {
        return None;
    }
    let tag = b[0];
    proof {
        assert(b@[0] == tag);
    }
    if tag == 0u8 {
        let (k, p1) = match dec_str_at(b, 1) {
            None => {
                return None;
            },
            Some(t) => t,
        };
        let (d, p2) = match dec_doc_at(b, p1) {
            None => {
                return None;
            },
            Some(t) => t,
        };
        if p2 == b.len() {
            proof {
                assert(b@.skip(p2 as int).len() == 0);
            }
            Some(RQuery::Insert(k, d))
        } else {
            proof {
                assert(b@.skip(p2 as int).len() != 0);
            }
            None
        }
    } else if tag == 1u8 {
        let (k, p1) = match dec_str_at(b, 1) {
            None => {
                return None;
            },
            Some(t) => t,
        };
        if p1 == b.len() {
            proof {
                assert(b@.skip(p1 as int).len() == 0);
            }
            Some(RQuery::Remove(k))
        } else {
            proof {
                assert(b@.skip(p1 as int).len() != 0);
            }
            None
        }
    } else {
        None
    }
}


} // verus!
