use vstd::prelude::*;
use vstd::bytes::*;
use crate::codec::{enc_u32, len_ok, put_u32, put_bytes};

verus! {

/// One length-delimited frame: a 32-bit little-endian length, then the
/// payload bytes.  Records do not span pages.
pub open spec fn frame(p: Seq<u8>) -> Seq<u8> {
    enc_u32(p.len() as u32) + p
}

/// The payloads of the frames at the head of a page; parsing stops
/// cleanly at the first incomplete frame, so a truncated tail costs at
/// most the records it covered.
pub open spec fn parse_page(b: Seq<u8>) -> Seq<Seq<u8>>
    decreases b.len(),
{
    if b.len() < 4 {
        Seq::empty()
    } else {
        let n = spec_u32_from_le_bytes(b.take(4)) as int;
        if 4 + n > b.len() {
            Seq::empty()
        } else {
            seq![b.skip(4).take(n)] + parse_page(b.skip(4 + n))
        }
    }
}

/// A page is cleanly framed when parsing consumes it entirely.
pub open spec fn page_clean(b: Seq<u8>) -> bool
    decreases b.len(),
{
    if b.len() == 0 {
        true
    } else if b.len() < 4 {
        false
    } else {
        let n = spec_u32_from_le_bytes(b.take(4)) as int;
        4 + n <= b.len() && page_clean(b.skip(4 + n))
    }
}

/// The payloads recovery reads from a page sequence: every frame of every
/// page in order, and nothing beyond the first page that is not cleanly
/// framed.
pub open spec fn recoverable(pages: Seq<Seq<u8>>) -> Seq<Seq<u8>>
    decreases pages.len(),
{
    if pages.len() == 0 {
        Seq::empty()
    } else {
        parse_page(pages[0]) + (if page_clean(pages[0]) {
            recoverable(pages.drop_first())
        } else {
            Seq::empty()
        })
    }
}

pub open spec fn pages_view(p: Seq<Vec<u8>>) -> Seq<Seq<u8>> {
    Seq::new(p.len(), |i: int| p[i]@)
}

pub open spec fn all_clean(pages: Seq<Seq<u8>>) -> bool {
    forall|i: int| 0 <= i < pages.len() ==> page_clean(#[trigger] pages[i])
}

/// Appending one frame to a cleanly framed page parses as before, plus
/// the new payload; the page stays clean.
pub proof fn lemma_parse_extend(b: Seq<u8>, p: Seq<u8>)
    requires
        page_clean(b),
        len_ok(p.len()),
    ensures
        parse_page(b + frame(p)) == parse_page(b) + seq![p],
        page_clean(b + frame(p)),
    decreases b.len(),
{
    lemma_auto_spec_u32_to_from_le_bytes();
    let t = b + frame(p);
    if b.len() == 0 {
        assert(t =~= frame(p));
        assert(t.take(4) =~= enc_u32(p.len() as u32));
        let n = spec_u32_from_le_bytes(t.take(4)) as int;
        assert(n == p.len());
        assert(t.skip(4).take(n) =~= p);
        assert(t.skip(4 + n).len() == 0);
        assert(parse_page(t.skip(4 + n)) =~= Seq::<Seq<u8>>::empty());
        assert(parse_page(t) =~= seq![p]);
        assert(parse_page(b) + seq![p] =~= seq![p]);
        assert(t.skip(4 + n).len() == 0);
        assert(page_clean(t.skip(4 + n)));
        assert(page_clean(t));
    } else {
        let n0 = spec_u32_from_le_bytes(b.take(4)) as int;
        assert(t.take(4) =~= b.take(4));
        assert(t.skip(4).take(n0) =~= b.skip(4).take(n0));
        assert(t.skip(4 + n0) =~= b.skip(4 + n0) + frame(p));
        lemma_parse_extend(b.skip(4 + n0), p);
        assert(seq![b.skip(4).take(n0)] + (parse_page(b.skip(4 + n0)) + seq![p]) =~= (seq![
            b.skip(4).take(n0),
        ] + parse_page(b.skip(4 + n0))) + seq![p]);
        assert(page_clean(t.skip(4 + n0)));
        assert(page_clean(t));
    }
}

/// Adding one page at the end extends the recoverable payloads by that
/// page's frames, provided every earlier page is clean.
pub proof fn lemma_recoverable_snoc(ps: Seq<Seq<u8>>, q: Seq<u8>)
    requires
        all_clean(ps),
    ensures
        recoverable(ps.push(q)) == recoverable(ps) + parse_page(q),
    decreases ps.len(),
{
    if ps.len() == 0 {
        assert(ps.push(q)[0] == q);
        assert(ps.push(q).drop_first() =~= Seq::<Seq<u8>>::empty());
        assert(recoverable(ps.push(q).drop_first()) == Seq::<Seq<u8>>::empty());
        if page_clean(q) {
            assert(recoverable(ps.push(q)) == parse_page(q) + recoverable(
                ps.push(q).drop_first(),
            ));
            assert(parse_page(q) + Seq::<Seq<u8>>::empty() =~= parse_page(q));
        } else {
            assert(recoverable(ps.push(q)) == parse_page(q) + Seq::<Seq<u8>>::empty());
            assert(parse_page(q) + Seq::<Seq<u8>>::empty() =~= parse_page(q));
        }
        assert(recoverable(ps) + parse_page(q) =~= parse_page(q));
    } else {
        assert(ps.push(q)[0] == ps[0]);
        assert(page_clean(ps[0]));
        assert(ps.push(q).drop_first() =~= ps.drop_first().push(q));
        assert forall|i: int| 0 <= i < ps.drop_first().len() implies page_clean(
            #[trigger] ps.drop_first()[i],
        ) by {
            assert(ps.drop_first()[i] == ps[i + 1]);
        }
        lemma_recoverable_snoc(ps.drop_first(), q);
        assert(parse_page(ps[0]) + (recoverable(ps.drop_first()) + parse_page(q)) =~= (parse_page(
            ps[0],
        ) + recoverable(ps.drop_first())) + parse_page(q));
    }
}

/// The paged write-ahead log, modelled in memory: numbered pages of
/// length-framed records.  A page closes when the next frame would not
/// fit; replaying the frames in page order yields every appended payload.
pub struct Pager {
    page_size: usize,
    pages: Vec<Vec<u8>>,
    appended: Ghost<Seq<Seq<u8>>>,
}

impl Pager {
    pub closed spec fn page_size_spec(&self) -> usize {
        self.page_size
    }

    /// The byte content of the pages, in page order.
    pub closed spec fn pages_seq(&self) -> Seq<Seq<u8>> {
        pages_view(self.pages@)
    }

    /// Every payload appended so far, in order.
    pub closed spec fn appended(&self) -> Seq<Seq<u8>> {
        self.appended@
    }

    pub closed spec fn wf(&self) -> bool {
        &&& 8 <= self.page_size <= 0x10000000
        &&& all_clean(self.pages_seq())
        &&& recoverable(self.pages_seq()) == self.appended@
        &&& forall|i: int|
            0 <= i < self.pages_seq().len() ==> (#[trigger] self.pages_seq()[i]).len()
                <= self.page_size
    }

    pub fn new(page_size: usize) -> (r: Pager)
        requires
            8 <= page_size <= 0x10000000,
        ensures
            r.wf(),
            r.appended() == Seq::<Seq<u8>>::empty(),
            r.page_size_spec() == page_size,
            r.pages_seq().len() == 0,
    {
        Pager { page_size, pages: Vec::new(), appended: Ghost(Seq::empty()) }
    }

    /// Appends one payload: framed onto the current page, or onto a fresh
    /// page when the frame would overflow the current one.
    pub fn append(&mut self, payload: &Vec<u8>)
        requires
            old(self).wf(),
            payload@.len() + 4 <= old(self).page_size_spec(),
        ensures
            final(self).wf(),
            final(self).appended() == old(self).appended().push(payload@),
            final(self).page_size_spec() == old(self).page_size_spec(),
            final(self).pages_seq() == (if old(self).pages_seq().len() == 0 {
                seq![frame(payload@)]
            } else if old(self).pages_seq().last().len() + 4 + payload@.len() <= old(
                self,
            ).page_size_spec() {
                old(self).pages_seq().drop_last().push(
                    old(self).pages_seq().last() + frame(payload@),
                )
            } else {
                old(self).pages_seq().push(frame(payload@))
            }),
    {
        let ghost ps0 = self.pages_seq();
        let mut page = match self.pages.pop() {
            Some(p) => p,
            None => Vec::new(),
        };
        proof {
            if ps0.len() > 0 {
                assert(page@ == ps0.last());
                assert(page@.len() <= self.page_size);
                assert(page_clean(page@));
            } else {
                assert(page@.len() == 0);
                assert(page_clean(page@));
            }
            assert forall|i: int| 0 <= i < pages_view(self.pages@).len() implies page_clean(
                #[trigger] pages_view(self.pages@)[i],
            ) && pages_view(self.pages@)[i].len() <= self.page_size by {
                assert(pages_view(self.pages@)[i] == ps0[i]);
            }
            if ps0.len() > 0 {
                assert(ps0 =~= pages_view(self.pages@).push(page@));
                lemma_recoverable_snoc(pages_view(self.pages@), page@);
                assert(recoverable(pages_view(self.pages@)) + parse_page(page@)
                    == self.appended@);
            } else {
                assert(pages_view(self.pages@) =~= Seq::<Seq<u8>>::empty());
                assert(parse_page(page@) =~= Seq::<Seq<u8>>::empty());
                assert(recoverable(pages_view(self.pages@)) + parse_page(page@) =~= self.appended@);
            }
        }
        if page.len() + 4 > self.page_size - payload.len() {
            let ghost before = self.pages@;
            self.pages.push(page);
            proof {
                assert(ps0.len() > 0);
                assert(ps0.last().len() + 4 + payload@.len() > self.page_size);
                assert forall|i: int| 0 <= i < pages_view(self.pages@).len() implies page_clean(
                    #[trigger] pages_view(self.pages@)[i],
                ) && pages_view(self.pages@)[i].len() <= self.page_size by {
                    if i < before.len() {
                        assert(pages_view(self.pages@)[i] == pages_view(before)[i]);
                    }
                }
                lemma_recoverable_snoc(pages_view(before), pages_view(self.pages@).last());
                assert(pages_view(self.pages@) =~= pages_view(before).push(
                    pages_view(self.pages@).last(),
                ));
            }
            page = Vec::new();
            proof {
                assert(parse_page(page@) =~= Seq::<Seq<u8>>::empty());
                assert(recoverable(pages_view(self.pages@)) + parse_page(page@) =~= self.appended@);
                assert(page_clean(page@));
            }
        }
        let ghost base = self.pages@;
        let ghost pbase = page@;
        proof {
            assert(pbase.len() + 4 + payload@.len() <= self.page_size);
            if ps0.len() > 0 && ps0.last().len() + 4 + payload@.len() <= self.page_size {
                assert(pbase == ps0.last());
                assert(pages_view(base) =~= ps0.drop_last());
            }
        }
        put_u32(&mut page, payload.len() as u32);
        put_bytes(&mut page, payload);
        proof {
            assert(page@ =~= pbase + frame(payload@));
            lemma_parse_extend(pbase, payload@);
        }
        self.pages.push(page);
        proof {
            lemma_auto_spec_u32_to_from_le_bytes();
            assert(pages_view(self.pages@) =~= pages_view(base).push(pbase + frame(payload@)));
            lemma_recoverable_snoc(pages_view(base), pbase + frame(payload@));
            assert(recoverable(pages_view(base)) + (parse_page(pbase) + seq![payload@]) =~= (
            recoverable(pages_view(base)) + parse_page(pbase)) + seq![payload@]);
            assert(recoverable(pages_view(self.pages@)) =~= old(self).appended@.push(payload@));
            if ps0.len() == 0 {
                assert(pbase.len() == 0);
                assert(pages_view(base) =~= Seq::<Seq<u8>>::empty());
                assert(pbase + frame(payload@) =~= frame(payload@));
                assert(pages_view(self.pages@) =~= seq![frame(payload@)]);
            } else if ps0.last().len() + 4 + payload@.len() <= self.page_size {
                assert(pages_view(self.pages@) =~= ps0.drop_last().push(
                    ps0.last() + frame(payload@),
                ));
            } else {
                assert(pbase.len() == 0);
                assert(pages_view(base) =~= ps0);
                assert(pbase + frame(payload@) =~= frame(payload@));
                assert(pages_view(self.pages@) =~= ps0.push(frame(payload@)));
            }
            assert forall|i: int| 0 <= i < pages_view(self.pages@).len() implies page_clean(
                #[trigger] pages_view(self.pages@)[i],
            ) && pages_view(self.pages@)[i].len() <= self.page_size by {
                if i < base.len() {
                    assert(pages_view(self.pages@)[i] == pages_view(base)[i]);
                } else {
                    assert(pages_view(self.pages@)[i] == pbase + frame(payload@));
                    assert(frame(payload@).len() == 4 + payload@.len());
                }
            }
            self.appended@ = self.appended@.push(payload@);
        }
    }

    /// The page at index `n`, counted from 1; nothing past the last page.
    pub fn get_page(&self, n: usize) -> (r: Option<&Vec<u8>>)
        requires
            n >= 1,
        ensures
            match r {
                Some(p) => n <= self.pages_seq().len() && p@ == self.pages_seq()[n - 1],
                None => n > self.pages_seq().len(),
            },
    {
        if n <= self.pages.len() {
            Some(&self.pages[n - 1])
        } else {
            None
        }
    }

    /// All pages, in page order.
    pub fn pages(&self) -> (r: &Vec<Vec<u8>>)
        ensures
            pages_view(r@) == self.pages_seq(),
    {
        &self.pages
    }

    /// Log authority: replaying the frames of the pages in order yields
    /// exactly the appended payloads.
    pub proof fn lemma_log_authority(&self)
        requires
            self.wf(),
        ensures
            recoverable(self.pages_seq()) == self.appended(),
            all_clean(self.pages_seq()),
    {
    }
}

/// Cutting fewer than four bytes off the tail of a cleanly framed,
/// nonempty page loses exactly its last record: every frame is at least
/// four bytes, so the cut lands inside the final frame, where parsing
/// stops cleanly.
pub proof fn lemma_parse_truncated(b: Seq<u8>, c: int)
    requires
        page_clean(b),
        b.len() > 0,
        0 < c < 4,
    ensures
        parse_page(b).len() > 0,
        parse_page(b.take(b.len() - c)) == parse_page(b).drop_last(),
    decreases b.len(),
{
    lemma_auto_spec_u32_to_from_le_bytes();
    let n0 = spec_u32_from_le_bytes(b.take(4)) as int;
    let t = b.take(b.len() - c);
    let tail = b.skip(4 + n0);
    if tail.len() == 0 {
        assert(b.len() == 4 + n0);
        if t.len() < 4 {
            assert(parse_page(t) =~= Seq::<Seq<u8>>::empty());
        } else {
            assert(t.take(4) =~= b.take(4));
            assert(4 + n0 > t.len());
            assert(parse_page(t) =~= Seq::<Seq<u8>>::empty());
        }
        assert(parse_page(tail) =~= Seq::<Seq<u8>>::empty());
        assert(parse_page(b) =~= seq![b.skip(4).take(n0)]);
        assert(parse_page(b).drop_last() =~= Seq::<Seq<u8>>::empty());
    } else {
        assert(page_clean(tail));
        assert(tail.len() >= 4);
        assert(t.len() >= 4 + n0 + 1);
        assert(t.take(4) =~= b.take(4));
        assert(t.skip(4).take(n0) =~= b.skip(4).take(n0));
        assert(t.skip(4 + n0) =~= tail.take(tail.len() - c));
        lemma_parse_truncated(tail, c);
        assert(parse_page(t) == seq![b.skip(4).take(n0)] + parse_page(tail).drop_last());
        assert(parse_page(b) == seq![b.skip(4).take(n0)] + parse_page(tail));
        assert(seq![b.skip(4).take(n0)] + parse_page(tail).drop_last() =~= (seq![
            b.skip(4).take(n0),
        ] + parse_page(tail)).drop_last());
    }
}

/// Truncating up to three bytes off the last page of a clean log loses
/// exactly the last recoverable payload.
pub proof fn lemma_truncated_tail(ps: Seq<Seq<u8>>, c: int)
    requires
        all_clean(ps),
        ps.len() > 0,
        ps.last().len() > 0,
        0 < c < 4,
    ensures
        recoverable(ps).len() > 0,
        recoverable(ps.drop_last().push(ps.last().take(ps.last().len() - c))) == recoverable(
            ps,
        ).drop_last(),
{
    assert forall|i: int| 0 <= i < ps.drop_last().len() implies page_clean(
        #[trigger] ps.drop_last()[i],
    ) by {
        assert(ps.drop_last()[i] == ps[i]);
    }
    lemma_recoverable_snoc(ps.drop_last(), ps.last());
    assert(ps =~= ps.drop_last().push(ps.last()));
    lemma_parse_truncated(ps.last(), c);
    lemma_recoverable_snoc(ps.drop_last(), ps.last().take(ps.last().len() - c));
    assert((recoverable(ps.drop_last()) + parse_page(ps.last())).drop_last() =~= recoverable(
        ps.drop_last(),
    ) + parse_page(ps.last()).drop_last());
}


/// Frames one payload exactly as the log stores it.
pub fn frame_payload(payload: &Vec<u8>) -> (r: Vec<u8>)
    requires
        len_ok(payload@.len()),
    ensures
        r@ == frame(payload@),
{
    let mut r: Vec<u8> = Vec::new();
    put_u32(&mut r, payload.len() as u32);
    put_bytes(&mut r, payload);
    proof {
        assert(r@ =~= frame(payload@));
    }
    r
}

/// Whether one more frame fits a page of the given size: the page closes
/// exactly when it would not.
pub fn frame_fits(page_len: usize, payload_len: usize, page_size: usize) -> (r: bool)
    ensures
        r == (page_len + 4 + payload_len <= page_size),
{
    if payload_len > page_size {
        return false;
    }
    if page_size - payload_len < 4 {
        return false;
    }
    page_len <= page_size - payload_len - 4
}

/// The byte length of the cleanly framed prefix of a page: the frames up
/// to it parse exactly as the whole page does, and everything beyond it
/// is a damaged tail that replay never reads.
pub open spec fn spec_clean_len(b: Seq<u8>) -> int
    decreases b.len(),
{
    if b.len() < 4 {
        0
    } else {
        let n = spec_u32_from_le_bytes(b.take(4)) as int;
        if 4 + n > b.len() {
            0
        } else {
            4 + n + spec_clean_len(b.skip(4 + n))
        }
    }
}

pub proof fn lemma_clean_len(b: Seq<u8>)
    ensures
        0 <= spec_clean_len(b) <= b.len(),
        page_clean(b.take(spec_clean_len(b))),
        parse_page(b.take(spec_clean_len(b))) == parse_page(b),
    decreases b.len(),
{
    lemma_auto_spec_u32_to_from_le_bytes();
    if b.len() < 4 {
        assert(b.take(0).len() == 0);
        assert(parse_page(b.take(0)) =~= Seq::<Seq<u8>>::empty());
        assert(parse_page(b) =~= Seq::<Seq<u8>>::empty());
    } else {
        let n = spec_u32_from_le_bytes(b.take(4)) as int;
        if 4 + n > b.len() {
            assert(b.take(0).len() == 0);
            assert(parse_page(b.take(0)) =~= Seq::<Seq<u8>>::empty());
            assert(parse_page(b) =~= Seq::<Seq<u8>>::empty());
        } else {
            lemma_clean_len(b.skip(4 + n));
            let m = spec_clean_len(b.skip(4 + n));
            let t = b.take(4 + n + m);
            assert(t.take(4) =~= b.take(4));
            assert(t.skip(4).take(n) =~= b.skip(4).take(n));
            assert(t.skip(4 + n) =~= b.skip(4 + n).take(m));
            assert(page_clean(t));
            assert(parse_page(t) == seq![b.skip(4).take(n)] + parse_page(b.skip(4 + n).take(m)));
            assert(parse_page(b) == seq![b.skip(4).take(n)] + parse_page(b.skip(4 + n)));
        }
    }
}

/// The byte length of the cleanly framed prefix of the page from `pos`
/// on.
pub fn clean_prefix_len(page: &Vec<u8>, pos: usize) -> (r: usize)
    requires
        pos <= page@.len(),
    ensures
        pos <= r <= page@.len(),
        r - pos == spec_clean_len(page@.skip(pos as int)),
    decreases page@.len() - pos,
{
    if page.len() - pos < 4 {
        return pos;
    }
    let mut tmp: Vec<u8> = Vec::new();
    tmp.push(page[pos]);
    tmp.push(page[pos + 1]);
    tmp.push(page[pos + 2]);
    tmp.push(page[pos + 3]);
    proof {
        assert(tmp@ =~= page@.skip(pos as int).take(4));
    }
    let n32 = u32_from_le_bytes(tmp.as_slice());
    let n = n32 as usize;
    if n > page.len() - pos - 4 {
        return pos;
    }
    let r = clean_prefix_len(page, pos + 4 + n);
    proof {
        assert(page@.skip(pos as int).skip(4 + n32 as int) =~= page@.skip(
            pos as int + 4 + n as int,
        ));
        assert(spec_clean_len(page@.skip(pos as int)) == 4 + n32 as int + spec_clean_len(
            page@.skip(pos as int + 4 + n as int),
        ));
    }
    r
}


} // verus!
