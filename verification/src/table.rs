use vstd::prelude::*;
use vstd::map::*;

verus! {

/// Strict lexicographic order on character sequences, by code point.
pub open spec fn lex_lt(a: Seq<char>, b: Seq<char>) -> bool
    decreases a.len(),
{
    if b.len() == 0 {
        false
    } else if a.len() == 0 {
        true
    } else if a[0] != b[0] {
        (a[0] as u32) < (b[0] as u32)
    } else {
        lex_lt(a.drop_first(), b.drop_first())
    }
}

pub proof fn lemma_lex_irrefl(a: Seq<char>)
    ensures
        !lex_lt(a, a),
    decreases a.len(),
{
    if a.len() > 0 {
        lemma_lex_irrefl(a.drop_first());
    }
}

pub proof fn lemma_lex_trichotomy(a: Seq<char>, b: Seq<char>)
    ensures
        lex_lt(a, b) || lex_lt(b, a) || a == b,
    decreases a.len(),
{
    if b.len() == 0 {
        if a.len() == 0 {
            assert(a =~= b);
        }
    } else if a.len() == 0 {
    } else if a[0] != b[0] {
        vstd::utf8::char_u32_cast(a[0], a[0] as u32);
        vstd::utf8::char_u32_cast(b[0], b[0] as u32);
        assert(a[0] as u32 != b[0] as u32);
    } else {
        lemma_lex_trichotomy(a.drop_first(), b.drop_first());
        if a.drop_first() == b.drop_first() {
            assert(a.drop_first().len() == a.len() - 1);
            assert(b.drop_first().len() == b.len() - 1);
            assert(a.len() == b.len());
            assert forall|i: int| 0 <= i < a.len() implies a[i] == b[i] by {
                if i > 0 {
                    assert(a.drop_first()[i - 1] == a[i]);
                    assert(b.drop_first()[i - 1] == b[i]);
                }
            }
            assert(a =~= b);
        }
    }
}

pub proof fn lemma_lex_trans(a: Seq<char>, b: Seq<char>, c: Seq<char>)
    requires
        lex_lt(a, b),
        lex_lt(b, c),
    ensures
        lex_lt(a, c),
    decreases a.len(),
{
    if a.len() == 0 {
    } else {
        if a[0] == b[0] {
            if b[0] == c[0] {
                lemma_lex_trans(a.drop_first(), b.drop_first(), c.drop_first());
            } else {
                vstd::utf8::char_u32_cast(a[0], a[0] as u32);
                vstd::utf8::char_u32_cast(c[0], c[0] as u32);
            }
        } else {
            if b[0] == c[0] {
                vstd::utf8::char_u32_cast(a[0], a[0] as u32);
                vstd::utf8::char_u32_cast(c[0], c[0] as u32);
            } else {
                vstd::utf8::char_u32_cast(a[0], a[0] as u32);
                vstd::utf8::char_u32_cast(c[0], c[0] as u32);
            }
        }
    }
}

/// Whether two character sequences agree on their first `i` positions.
pub open spec fn prefix_eq(a: Seq<char>, b: Seq<char>, i: int) -> bool {
    forall|j: int| 0 <= j < i ==> a[j] == b[j]
}

pub proof fn lemma_lex_skip(a: Seq<char>, b: Seq<char>, i: int)
    requires
        0 <= i <= a.len(),
        i <= b.len(),
        prefix_eq(a, b, i),
    ensures
        lex_lt(a, b) == lex_lt(a.skip(i), b.skip(i)),
    decreases i,
{
    if i == 0 {
        assert(a.skip(0) =~= a);
        assert(b.skip(0) =~= b);
    } else {
        assert(a[0] == b[0]);
        assert(a.drop_first().skip(i - 1) =~= a.skip(i));
        assert(b.drop_first().skip(i - 1) =~= b.skip(i));
        lemma_lex_skip(a.drop_first(), b.drop_first(), i - 1);
    }
}

/// Compares two strings in lexicographic code-point order.
pub fn str_lt(a: &str, b: &str) -> (r: bool)
    ensures
        r == lex_lt(a@, b@),
{
    let an = a.unicode_len();
    let bn = b.unicode_len();
    let mut i: usize = 0;
    while i < an && i < bn
        invariant
            an == a@.len(),
            bn == b@.len(),
            i <= an,
            i <= bn,
            prefix_eq(a@, b@, i as int),
        decreases an - i,
    {
        let ca = a.get_char(i);
        let cb = b.get_char(i);
        if (ca as u32) != (cb as u32) {
            proof {
                lemma_lex_skip(a@, b@, i as int);
                assert(a@.skip(i as int)[0] == ca);
                assert(b@.skip(i as int)[0] == cb);
            }
            return (ca as u32) < (cb as u32);
        }
        proof {
            vstd::utf8::char_u32_cast(ca, ca as u32);
            vstd::utf8::char_u32_cast(cb, ca as u32);
        }
        i = i + 1;
    }
    proof {
        lemma_lex_skip(a@, b@, i as int);
        if i == an {
            assert(a@.skip(i as int).len() == 0);
        }
        if i == bn {
            assert(b@.skip(i as int).len() == 0);
        }
    }
    an < bn
}

/// Compares two owned strings in lexicographic code-point order.
pub fn string_lt(a: &String, b: &String) -> (r: bool)
    ensures
        r == lex_lt(a@, b@),
{
    str_lt(a.as_str(), b.as_str())
}

/// The finite map denoted by an association sequence; a later entry for
/// the same key wins.
pub open spec fn tmap<V: View>(s: Seq<(String, V)>) -> Map<Seq<char>, V::V>
    decreases s.len(),
{
    if s.len() == 0 {
        Map::empty()
    } else {
        tmap(s.drop_last()).insert(s.last().0@, s.last().1@)
    }
}

/// Keys strictly ascending, hence pairwise distinct.
pub open spec fn sorted_keys<V>(s: Seq<(String, V)>) -> bool {
    forall|i: int, j: int| 0 <= i < j < s.len() ==> lex_lt(#[trigger] s[i].0@, #[trigger] s[j].0@)
}

pub open spec fn distinct_keys<V>(s: Seq<(String, V)>) -> bool {
    forall|i: int, j: int| 0 <= i < j < s.len() ==> (#[trigger] s[i].0@) != (#[trigger] s[j].0@)
}

pub proof fn lemma_sorted_distinct<V>(s: Seq<(String, V)>)
    requires
        sorted_keys(s),
    ensures
        distinct_keys(s),
{
    assert forall|i: int, j: int| 0 <= i < j < s.len() implies (#[trigger] s[i].0@) != (
    #[trigger] s[j].0@) by {
        lemma_lex_irrefl(s[i].0@);
    }
}

pub proof fn lemma_tmap_contains<V: View>(s: Seq<(String, V)>, k: Seq<char>)
    ensures
        tmap(s).contains_key(k) <==> exists|i: int| 0 <= i < s.len() && (#[trigger] s[i].0@) == k,
    decreases s.len(),
{
    if s.len() > 0 {
        lemma_tmap_contains(s.drop_last(), k);
        if s.last().0@ == k {
            assert(s[s.len() - 1].0@ == k);
        } else {
            if exists|i: int| 0 <= i < s.len() && (#[trigger] s[i].0@) == k {
                let i = choose|i: int| 0 <= i < s.len() && (#[trigger] s[i].0@) == k;
                assert(i < s.len() - 1);
                assert(s.drop_last()[i].0@ == k);
            }
            if exists|i: int| 0 <= i < s.drop_last().len() && (#[trigger] s.drop_last()[i].0@)
                == k {
                let i = choose|i: int|
                    0 <= i < s.drop_last().len() && (#[trigger] s.drop_last()[i].0@) == k;
                assert(s[i].0@ == k);
            }
        }
    }
}

pub proof fn lemma_tmap_at<V: View>(s: Seq<(String, V)>, i: int)
    requires
        distinct_keys(s),
        0 <= i < s.len(),
    ensures
        tmap(s).contains_key(s[i].0@),
        tmap(s)[s[i].0@] == s[i].1@,
    decreases s.len(),
{
    if i == s.len() - 1 {
    } else {
        assert(s[i].0@ != s[s.len() - 1].0@);
        assert(s.drop_last()[i] == s[i]);
        lemma_tmap_at(s.drop_last(), i);
    }
}

pub proof fn lemma_tmap_insert_at<V: View>(s: Seq<(String, V)>, i: int, p: (String, V))
    requires
        0 <= i <= s.len(),
        forall|j: int| 0 <= j < s.len() ==> (#[trigger] s[j].0@) != p.0@,
    ensures
        tmap(s.insert(i, p)) == tmap(s).insert(p.0@, p.1@),
    decreases s.len(),
{
    if i == s.len() {
        assert(s.insert(i, p) =~= s.push(p));
        assert(s.push(p).drop_last() =~= s);
    } else {
        let t = s.insert(i, p);
        assert(t.last() == s.last());
        assert(t.drop_last() =~= s.drop_last().insert(i, p));
        assert forall|j: int| 0 <= j < s.drop_last().len() implies (#[trigger] s.drop_last()[j].0@)
            != p.0@ by {
            assert(s.drop_last()[j] == s[j]);
        }
        lemma_tmap_insert_at(s.drop_last(), i, p);
        assert(tmap(t) == tmap(s.drop_last()).insert(p.0@, p.1@).insert(s.last().0@, s.last().1@));
        assert(s[s.len() - 1].0@ != p.0@);
        assert(tmap(s.drop_last()).insert(p.0@, p.1@).insert(s.last().0@, s.last().1@) =~= tmap(
            s.drop_last(),
        ).insert(s.last().0@, s.last().1@).insert(p.0@, p.1@));
    }
}

pub proof fn lemma_tmap_remove_at<V: View>(s: Seq<(String, V)>, i: int)
    requires
        distinct_keys(s),
        0 <= i < s.len(),
    ensures
        tmap(s.remove(i)) == tmap(s).remove(s[i].0@),
    decreases s.len(),
{
    if i == s.len() - 1 {
        assert(s.remove(i) =~= s.drop_last());
        lemma_tmap_contains(s.drop_last(), s[i].0@);
        assert forall|j: int| 0 <= j < s.drop_last().len() implies (#[trigger] s.drop_last()[j].0@)
            != s[i].0@ by {
            assert(s.drop_last()[j] == s[j]);
        }
        assert(!tmap(s.drop_last()).contains_key(s[i].0@));
        assert(tmap(s.drop_last()).insert(s.last().0@, s.last().1@).remove(s[i].0@) =~= tmap(
            s.drop_last(),
        ));
    } else {
        let t = s.remove(i);
        assert(t.last() == s.last());
        assert(t.drop_last() =~= s.drop_last().remove(i));
        assert forall|a: int, b: int| 0 <= a < b < s.drop_last().len() implies (
        #[trigger] s.drop_last()[a].0@) != (#[trigger] s.drop_last()[b].0@) by {
            assert(s.drop_last()[a] == s[a]);
            assert(s.drop_last()[b] == s[b]);
        }
        lemma_tmap_remove_at(s.drop_last(), i);
        assert(s.drop_last()[i] == s[i]);
        assert(s[i].0@ != s.last().0@);
        assert(tmap(s.drop_last()).remove(s[i].0@).insert(s.last().0@, s.last().1@) =~= tmap(
            s.drop_last(),
        ).insert(s.last().0@, s.last().1@).remove(s[i].0@));
    }
}

/// A key-sorted association table from strings to values, seen in
/// contracts as a finite map from character sequences to value views.
pub struct Table<V> {
    entries: Vec<(String, V)>,
}

impl<V: View> View for Table<V> {
    type V = Map<Seq<char>, V::V>;

    closed spec fn view(&self) -> Map<Seq<char>, V::V> {
        tmap(self.entries@)
    }
}

impl<V: View> Table<V> {
    /// The entries in key order, as the table holds them.
    pub closed spec fn seq(&self) -> Seq<(String, V)> {
        self.entries@
    }

    /// Keys strictly ascending; the map view lists exactly these entries.
    pub closed spec fn wf(&self) -> bool {
        sorted_keys(self.entries@)
    }

    pub fn new() -> (t: Table<V>)
        ensures
            t.wf(),
            t@ == Map::<Seq<char>, V::V>::empty(),
            t.seq().len() == 0,
    {
        Table { entries: Vec::new() }
    }

    pub fn get<'a>(&'a self, k: &String) -> (r: Option<&'a V>)
        requires
            self.wf(),
        ensures
            match r {
                Some(v) => self@.contains_key(k@) && v@ == self@[k@],
                None => !self@.contains_key(k@),
            },
    {
        proof {
            lemma_sorted_distinct(self.entries@);
        }
        let n = self.entries.len();
        let mut i: usize = 0;
        while i < n
            invariant
                n == self.entries@.len(),
                i <= n,
                forall|j: int| 0 <= j < i ==> (#[trigger] self.entries@[j].0@) != k@,
                sorted_keys(self.entries@),
                distinct_keys(self.entries@),
            decreases n - i,
        {
            if self.entries[i].0 == *k {
                proof {
                    lemma_tmap_at(self.entries@, i as int);
                }
                return Some(&self.entries[i].1);
            }
            i = i + 1;
        }
        proof {
            lemma_tmap_contains(self.entries@, k@);
        }
        None
    }

    pub fn insert(&mut self, k: String, v: V)
        requires
            old(self).wf(),
        ensures
            final(self).wf(),
            final(self)@ == old(self)@.insert(k@, v@),
    {
        proof {
            lemma_sorted_distinct(self.entries@);
        }
        let n = self.entries.len();
        let mut i: usize = 0;
        while i < n && string_lt(&self.entries[i].0, &k)
            invariant
                n == self.entries@.len(),
                i <= n,
                forall|j: int| 0 <= j < i ==> lex_lt(#[trigger] self.entries@[j].0@, k@),
                sorted_keys(self.entries@),
                distinct_keys(self.entries@),
            decreases n - i,
        {
            i = i + 1;
        }
        let ghost s0 = self.entries@;
        if i < n && self.entries[i].0 == k {
            proof {
                lemma_tmap_remove_at(s0, i as int);
                lemma_tmap_at(s0, i as int);
            }
            let _prev = self.entries.remove(i);
            proof {
                let s1 = self.entries@;
                assert forall|a: int, b: int| 0 <= a < b < s1.len() implies lex_lt(
                    #[trigger] s1[a].0@,
                    #[trigger] s1[b].0@,
                ) by {
                    if b < i {
                    } else if a < i {
                        assert(s1[a] == s0[a] && s1[b] == s0[b + 1]);
                    } else {
                        assert(s1[a] == s0[a + 1] && s1[b] == s0[b + 1]);
                    }
                }
                assert forall|j: int| 0 <= j < s1.len() implies (#[trigger] s1[j].0@) != k@ by {
                    if j < i {
                        assert(s1[j] == s0[j]);
                    } else {
                        assert(s1[j] == s0[j + 1]);
                    }
                }
                lemma_tmap_insert_at(s1, i as int, (k, v));
            }
            self.entries.insert(i, (k, v));
            proof {
                let s1 = self.entries@;
                assert forall|a: int, b: int| 0 <= a < b < s1.len() implies lex_lt(
                    #[trigger] s1[a].0@,
                    #[trigger] s1[b].0@,
                ) by {
                    if b == i {
                        assert(s1[a] == s0[a]);
                    } else if a == i {
                        assert(s1[b] == s0[b]);
                        assert(s1[a].0@ == s0[i as int].0@);
                    } else {
                        assert(s1[a] == s0[a] && s1[b] == s0[b]);
                    }
                }
                assert(self@ =~= old(self)@.insert(k@, v@));
            }
        } else {
            proof {
                if i < n {
                    lemma_lex_trichotomy(s0[i as int].0@, k@);
                    assert(lex_lt(k@, s0[i as int].0@));
                }
                assert forall|j: int| i <= j < n implies lex_lt(k@, #[trigger] s0[j].0@) by {
                    if j > i {
                        lemma_lex_trans(k@, s0[i as int].0@, s0[j].0@);
                    }
                }
                assert forall|j: int| 0 <= j < n implies (#[trigger] s0[j].0@) != k@ by {
                    lemma_lex_irrefl(k@);
                }
                lemma_tmap_insert_at(s0, i as int, (k, v));
            }
            self.entries.insert(i, (k, v));
            proof {
                let s1 = self.entries@;
                assert forall|a: int, b: int| 0 <= a < b < s1.len() implies lex_lt(
                    #[trigger] s1[a].0@,
                    #[trigger] s1[b].0@,
                ) by {
                    if b == i {
                        assert(s1[a] == s0[a]);
                    } else if a == i {
                        if b > i {
                            assert(s1[b] == s0[b - 1]);
                        }
                    } else if a < i && b > i {
                        assert(s1[a] == s0[a] && s1[b] == s0[b - 1]);
                    } else if a > i {
                        assert(s1[a] == s0[a - 1] && s1[b] == s0[b - 1]);
                    } else {
                        assert(s1[a] == s0[a] && s1[b] == s0[b]);
                    }
                }
            }
        }
    }

    pub fn remove(&mut self, k: &String) -> (r: Option<V>)
        requires
            old(self).wf(),
        ensures
            final(self).wf(),
            final(self)@ == old(self)@.remove(k@),
            r is Some <==> old(self)@.contains_key(k@),
            r matches Some(v) ==> v@ == old(self)@[k@],
    {
        proof {
            lemma_sorted_distinct(self.entries@);
        }
        let n = self.entries.len();
        let mut i: usize = 0;
        while i < n
            invariant
                self.entries@ == old(self).entries@,
                n == self.entries@.len(),
                i <= n,
                forall|j: int| 0 <= j < i ==> (#[trigger] self.entries@[j].0@) != k@,
                sorted_keys(self.entries@),
                distinct_keys(self.entries@),
            decreases n - i,
        {
            if self.entries[i].0 == *k {
                let ghost s0 = self.entries@;
                proof {
                    lemma_tmap_at(s0, i as int);
                    lemma_tmap_remove_at(s0, i as int);
                }
                let pair = self.entries.remove(i);
                proof {
                    let s1 = self.entries@;
                    assert forall|a: int, b: int| 0 <= a < b < s1.len() implies lex_lt(
                        #[trigger] s1[a].0@,
                        #[trigger] s1[b].0@,
                    ) by {
                        if b < i {
                        } else if a < i {
                            assert(s1[a] == s0[a] && s1[b] == s0[b + 1]);
                        } else {
                            assert(s1[a] == s0[a + 1] && s1[b] == s0[b + 1]);
                        }
                    }
                }
                return Some(pair.1);
            }
            i = i + 1;
        }
        proof {
            lemma_tmap_contains(self.entries@, k@);
            assert(self@ =~= old(self)@.remove(k@));
        }
        None
    }

    /// The entries as a borrowed vector, in strictly ascending key order;
    /// they enumerate the map view exactly.
    pub fn items<'a>(&'a self) -> (r: &'a Vec<(String, V)>)
        requires
            self.wf(),
        ensures
            r@ == self.seq(),
            sorted_keys(r@),
            forall|i: int|
                0 <= i < r@.len() ==> self@.contains_key(#[trigger] r@[i].0@) && self@[r@[i].0@]
                    == r@[i].1@,
            forall|k: Seq<char>| self@.contains_key(k) ==> exists|i: int|
                0 <= i < r@.len() && (#[trigger] r@[i].0@) == k,
    {
        proof {
            lemma_sorted_distinct(self.entries@);
            assert forall|i: int| 0 <= i < self.entries@.len() implies self@.contains_key(
                #[trigger] self.entries@[i].0@,
            ) && self@[self.entries@[i].0@] == self.entries@[i].1@ by {
                lemma_tmap_at(self.entries@, i);
            }
            assert forall|k: Seq<char>| self@.contains_key(k) implies exists|i: int|
                0 <= i < self.entries@.len() && (#[trigger] self.entries@[i].0@) == k by {
                lemma_tmap_contains(self.entries@, k);
            }
        }
        &self.entries
    }
}

} // verus!
