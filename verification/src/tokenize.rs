use vstd::prelude::*;

verus! {

/// The character sequence that Unicode lowercasing yields for a given
/// character sequence; a function of the input alone.
pub uninterp spec fn lower_of(s: Seq<char>) -> Seq<char>;

/// Whether a character counts as a word character: the fixed Unicode
/// alphanumeric property.
pub uninterp spec fn is_word_char(c: char) -> bool;

/// Relies on str::to_lowercase: returns the lowercase mapping of the
/// string, a function of its characters alone.
#[verifier::external_body]
fn lowercase(s: &str) -> (r: String)
    ensures
        r@ == lower_of(s@),
{
    s.to_lowercase()
}

/// Relies on char::is_alphanumeric: a fixed Unicode property of the
/// character alone.
#[verifier::external_body]
fn char_is_word(c: char) -> (r: bool)
    ensures
        r == is_word_char(c),
{
    c.is_alphanumeric()
}

/// Relies on String::push: appends the given character at the end.
#[verifier::external_body]
pub(crate) fn push_char(s: &mut String, c: char)
    ensures
        final(s)@ == old(s)@.push(c),
{
    s.push(c);
}

/// The tokens of an already-lowercased character sequence: maximal runs
/// of word characters, keeping only runs of at least two code points.
/// `cur` is the run gathered so far.
pub open spec fn toks(s: Seq<char>, cur: Seq<char>) -> Seq<Seq<char>>
    decreases s.len(),
{
    if s.len() == 0 {
        if cur.len() >= 2 {
            seq![cur]
        } else {
            Seq::empty()
        }
    } else if is_word_char(s[0]) {
        toks(s.drop_first(), cur.push(s[0]))
    } else if cur.len() >= 2 {
        seq![cur] + toks(s.drop_first(), Seq::empty())
    } else {
        toks(s.drop_first(), Seq::empty())
    }
}

/// Tokenisation of a text: lowercase, split on non-word characters, drop
/// tokens shorter than two code points, no stemming.
pub open spec fn tokens_of(t: Seq<char>) -> Seq<Seq<char>> {
    toks(lower_of(t), Seq::empty())
}

/// The set of distinct tokens of a text.
pub open spec fn token_set(t: Seq<char>) -> Set<Seq<char>> {
    Set::new(|tok: Seq<char>| tokens_of(t).contains(tok))
}

/// A text matches a query when every token of the query is among the
/// text's tokens.
pub open spec fn contains_all_tokens(q: Seq<char>, t: Seq<char>) -> bool {
    forall|i: int| 0 <= i < tokens_of(q).len() ==> token_set(t).contains(#[trigger] tokens_of(q)[i])
}

/// View of a vector of strings as the sequence of character sequences.
pub open spec fn strs_view(v: Seq<String>) -> Seq<Seq<char>> {
    Seq::new(v.len(), |i: int| v[i]@)
}

/// Splits a text into its search tokens, in order of appearance.
pub fn tokenize(text: &str) -> (r: Vec<String>)
    ensures
        strs_view(r@) == tokens_of(text@),
{
    let low = lowercase(text);
    let n = low.as_str().unicode_len();
    let mut r: Vec<String> = Vec::new();
    let mut cur = String::new();
    let mut curlen: usize = 0;
    let mut i: usize = 0;
    proof {
        assert(low@.skip(0) =~= low@);
        assert(strs_view(r@) =~= Seq::<Seq<char>>::empty());
        assert(strs_view(r@) + toks(low@, Seq::empty()) =~= toks(low@, Seq::empty()));
    }
    while i < n
        invariant
            n == low@.len(),
            low@ == lower_of(text@),
            i <= n,
            curlen == cur@.len(),
            curlen <= i,
            strs_view(r@) + toks(low@.skip(i as int), cur@) == toks(low@, Seq::empty()),
        decreases n - i,
    {
        let ghost r0 = r@;
        let ghost cur0 = cur@;
        let c = low.as_str().get_char(i);
        proof {
            assert(low@.skip(i as int)[0] == c);
            assert(low@.skip(i as int).drop_first() =~= low@.skip(i as int + 1));
        }
        if char_is_word(c) {
            push_char(&mut cur, c);
            curlen = curlen + 1;
        } else {
            if curlen >= 2 {
                r.push(cur);
                cur = String::new();
                proof {
                    assert(strs_view(r@) =~= strs_view(r0).push(cur0));
                    assert(strs_view(r0).push(cur0) =~= strs_view(r0) + seq![cur0]);
                    assert(strs_view(r@) + toks(low@.skip(i as int + 1), Seq::empty()) =~= strs_view(
                        r0,
                    ) + (seq![cur0] + toks(low@.skip(i as int + 1), Seq::empty())));
                }
            } else {
                cur = String::new();
            }
            curlen = 0;
        }
        i = i + 1;
    }
    proof {
        assert(low@.skip(n as int).len() == 0);
    }
    let ghost r0 = r@;
    let ghost cur0 = cur@;
    if curlen >= 2 {
        r.push(cur);
        proof {
            assert(strs_view(r@) =~= strs_view(r0).push(cur0));
            assert(strs_view(r0).push(cur0) =~= strs_view(r0) + seq![cur0]);
        }
    } else {
        proof {
            assert(strs_view(r@) + Seq::<Seq<char>>::empty() =~= strs_view(r@));
        }
    }
    r
}

} // verus!
