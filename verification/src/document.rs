use vstd::prelude::*;

verus! {

/// A stored document together with its capability bundle: the pure
/// derivations that drive every secondary structure of a datastore.
///
/// * `index_key` — zero or one unique index string.
/// * `tags` — a finite collection of tag strings.
/// * `views` — `(view-name, member)` pairs; the document belongs to the
///   named view exactly when the flag is `true`.
/// * `text` — the concatenated searchable text (may be empty).
pub struct Document {
    pub content: String,
    pub index_key: Option<String>,
    pub tags: Vec<String>,
    pub views: Vec<(String, bool)>,
    pub text: String,
}

/// The mathematical shape of a document: every string replaced by its
/// character sequence.
pub struct DocModel {
    pub content: Seq<char>,
    pub index_key: Option<Seq<char>>,
    pub tags: Seq<Seq<char>>,
    pub views: Seq<(Seq<char>, bool)>,
    pub text: Seq<char>,
}

impl View for Document {
    type V = DocModel;

    open spec fn view(&self) -> DocModel {
        DocModel {
            content: self.content@,
            index_key: match self.index_key {
                Some(s) => Some(s@),
                None => None,
            },
            tags: Seq::new(self.tags@.len(), |i: int| self.tags@[i]@),
            views: Seq::new(self.views@.len(), |i: int| (self.views@[i].0@, self.views@[i].1)),
            text: self.text@,
        }
    }
}

/// The set of tags a document carries.
pub open spec fn tag_set(d: DocModel) -> Set<Seq<char>> {
    Set::new(|t: Seq<char>| d.tags.contains(t))
}

/// The set of view names a document declares membership in.
pub open spec fn view_set(d: DocModel) -> Set<Seq<char>> {
    Set::new(|v: Seq<char>| exists|i: int| 0 <= i < d.views.len() && d.views[i] == (v, true))
}

impl Clone for Document {
    /// A clone carries the same model: same content, index string, tags,
    /// view declarations and searchable text.
    fn clone(&self) -> (r: Self)
        ensures
            r@ == self@,
    {
        let r = Document {
            content: self.content.clone(),
            index_key: match &self.index_key {
                Some(s) => Some(s.clone()),
                None => None,
            },
            tags: clone_strings(&self.tags),
            views: clone_view_decls(&self.views),
            text: self.text.clone(),
        };
        assert(r@.tags =~= self@.tags);
        assert(r@.views =~= self@.views);
        r
    }
}

/// Copies a vector of strings; the copy has the same character sequences.
pub fn clone_strings(v: &Vec<String>) -> (r: Vec<String>)
    ensures
        r@ == v@,
{
    let mut r: Vec<String> = Vec::new();
    let mut i: usize = 0;
    while i < v.len()
        invariant
            i <= v@.len(),
            r@ == v@.take(i as int),
        decreases v@.len() - i,
    {
        proof {
            assert(v@.take(i as int + 1) =~= v@.take(i as int).push(v@[i as int]));
        }
        r.push(v[i].clone());
        i = i + 1;
    }
    proof {
        assert(v@.take(v@.len() as int) =~= v@);
    }
    r
}

/// Copies a vector of view declarations, names and flags alike.
pub fn clone_view_decls(v: &Vec<(String, bool)>) -> (r: Vec<(String, bool)>)
    ensures
        r@.len() == v@.len(),
        forall|i: int| 0 <= i < v@.len() ==> r@[i].0@ == #[trigger] v@[i].0@ && r@[i].1 == v@[i].1,
{
    let mut r: Vec<(String, bool)> = Vec::new();
    let mut i: usize = 0;
    while i < v.len()
        invariant
            i <= v@.len(),
            r@.len() == i,
            forall|j: int| 0 <= j < i ==> r@[j].0@ == #[trigger] v@[j].0@ && r@[j].1 == v@[j].1,
        decreases v@.len() - i,
    {
        r.push((v[i].0.clone(), v[i].1));
        i = i + 1;
    }
    r
}

} // verus!
