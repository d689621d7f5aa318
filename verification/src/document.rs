use crate::strutil::str_eq;
use vstd::prelude::*;

verus! {

/// One key-value line of a sectioned configuration document, as key and
/// value character sequences.
pub type PairView = (Seq<char>, Seq<char>);

/// A section: an optional name and its key-value pairs, in file order.
pub type SectionView = (Option<Seq<char>>, Seq<PairView>);

/// One key-value line of a sectioned configuration document.
pub struct Pair {
    pub key: String,
    pub value: String,
}

impl View for Pair {
    type V = PairView;

    open spec fn view(&self) -> PairView {
        (self.key@, self.value@)
    }
}

/// A named or anonymous group of key-value pairs.
pub struct Section {
    pub name: Option<String>,
    pub pairs: Vec<Pair>,
}

/// The pairs of a section as they stand in its model.
pub open spec fn pairs_view(ps: Seq<Pair>) -> Seq<PairView> {
    ps.map_values(|p: Pair| p@)
}

impl View for Section {
    type V = SectionView;

    open spec fn view(&self) -> SectionView {
        (
            match self.name {
                Some(n) => Some(n@),
                None => None,
            },
            pairs_view(self.pairs@),
        )
    }
}

/// An ordered sectioned key-value document: what one configuration file
/// holds, sections in file order, pairs in file order within each section.
pub struct Document {
    pub sections: Vec<Section>,
}

/// The sections of a document as they stand in its model.
pub open spec fn sections_view(ss: Seq<Section>) -> Seq<SectionView> {
    ss.map_values(|s: Section| s@)
}

impl View for Document {
    type V = Seq<SectionView>;

    open spec fn view(&self) -> Seq<SectionView> {
        sections_view(self.sections@)
    }
}

/// The value at the first pair whose key is `k`, if any.
pub open spec fn pairs_get(ps: Seq<PairView>, k: Seq<char>) -> Option<Seq<char>>
    decreases ps.len(),
{
    if ps.len() == 0 {
        None
    } else if ps[0].0 == k {
        Some(ps[0].1)
    } else {
        pairs_get(ps.drop_first(), k)
    }
}

/// The pairs with every pair keyed `k` removed, order kept.
pub open spec fn pairs_remove(ps: Seq<PairView>, k: Seq<char>) -> Seq<PairView>
    decreases ps.len(),
{
    if ps.len() == 0 {
        Seq::empty()
    } else if ps[0].0 == k {
        pairs_remove(ps.drop_first(), k)
    } else {
        seq![ps[0]] + pairs_remove(ps.drop_first(), k)
    }
}

/// Setting a key drops every pair with that key and appends the new pair at
/// the section's end, as the document store this models does.
pub open spec fn pairs_set(ps: Seq<PairView>, k: Seq<char>, v: Seq<char>) -> Seq<PairView> {
    pairs_remove(ps, k).push((k, v))
}

/// The value of `key` in the first section named `name`, if both exist.
pub open spec fn doc_get(d: Seq<SectionView>, name: Seq<char>, key: Seq<char>) -> Option<
    Seq<char>,
>
    decreases d.len(),
{
    if d.len() == 0 {
        None
    } else if d[0].0 == Some(name) {
        pairs_get(d[0].1, key)
    } else {
        doc_get(d.drop_first(), name, key)
    }
}

/// Setting a key in the first section named `name`; a missing section is
/// appended at the document's end with the single new pair.
pub open spec fn doc_set(
    d: Seq<SectionView>,
    name: Seq<char>,
    key: Seq<char>,
    value: Seq<char>,
) -> Seq<SectionView>
    decreases d.len(),
{
    if d.len() == 0 {
        seq![(Some(name), seq![(key, value)])]
    } else if d[0].0 == Some(name) {
        seq![(d[0].0, pairs_set(d[0].1, key, value))] + d.drop_first()
    } else {
        seq![d[0]] + doc_set(d.drop_first(), name, key, value)
    }
}

impl Section {
    /// Looks up the value at the first pair whose key is `key`.
    #[verifier::loop_isolation(false)]
    pub fn get(&self, key: &str) -> (r: Option<&String>)
        ensures
            r is Some <==> pairs_get(self@.1, key@) is Some,
            r is Some ==> r->0@ == pairs_get(self@.1, key@)->0,
    {
        let n = self.pairs.len();
        let mut i: usize = 0;
        proof {
            assert(self@.1.skip(0) =~= self@.1);
        }
        while i < n
            invariant
                i <= n,
                pairs_get(self@.1, key@) == pairs_get(self@.1.skip(i as int), key@),
            decreases n - i,
        {
            if str_eq(self.pairs[i].key.as_str(), key) {
                proof {
                    assert(self@.1.skip(i as int)[0] == self@.1[i as int]);
                }
                return Some(&self.pairs[i].value);
            }
            proof {
                assert(self@.1.skip(i as int).drop_first() =~= self@.1.skip(i + 1));
                assert(self@.1.skip(i as int)[0] == self@.1[i as int]);
            }
            i += 1;
        }
        proof {
            assert(self@.1.skip(n as int) =~= Seq::<PairView>::empty());
        }
        None
    }

    /// Replaces `key` in this section: every pair with that key is dropped
    /// and the new pair is appended at the end.
    #[verifier::loop_isolation(false)]
    pub fn set(&mut self, key: &str, value: String)
        ensures
            final(self)@.0 == old(self)@.0,
            final(self)@.1 == pairs_set(old(self)@.1, key@, value@),
    {
        let ghost orig: Seq<PairView> = self@.1;
        let mut kept: Vec<Pair> = Vec::new();
        while self.pairs.len() > 0
            invariant
                self.name == old(self).name,
                pairs_remove(orig, key@) == pairs_view(kept@) + pairs_remove(
                    pairs_view(self.pairs@),
                    key@,
                ),
            decreases self.pairs.len(),
        {
            let ghost before: Seq<PairView> = pairs_view(self.pairs@);
            let p = self.pairs.remove(0);
            proof {
                assert(before[0] == p@);
                assert(before.drop_first() =~= pairs_view(self.pairs@));
            }
            if !str_eq(p.key.as_str(), key) {
                kept.push(p);
                proof {
                    assert(pairs_view(kept@) =~= pairs_view(kept@.drop_last()).push(
                        kept@.last()@,
                    ));
                    assert(pairs_view(kept@.drop_last()) + (seq![kept@.last()@] + pairs_remove(
                        pairs_view(self.pairs@),
                        key@,
                    )) =~= pairs_view(kept@) + pairs_remove(pairs_view(self.pairs@), key@));
                }
            }
        }
        proof {
            assert(pairs_view(self.pairs@) =~= Seq::<PairView>::empty());
            assert(pairs_remove(orig, key@) =~= pairs_view(kept@));
        }
        self.pairs = kept;
        self.pairs.push(Pair { key: String::from_str(key), value });
        proof {
            assert(pairs_view(self.pairs@) =~= pairs_set(orig, key@, value@));
        }
    }
}

impl Document {
    /// Reads `key` from the first section named `name`.
    #[verifier::loop_isolation(false)]
    pub fn get_value(&self, name: &str, key: &str) -> (r: Option<&String>)
        ensures
            r is Some <==> doc_get(self@, name@, key@) is Some,
            r is Some ==> r->0@ == doc_get(self@, name@, key@)->0,
    {
        let n = self.sections.len();
        let mut i: usize = 0;
        proof {
            assert(self@.skip(0) =~= self@);
        }
        while i < n
            invariant
                i <= n,
                doc_get(self@, name@, key@) == doc_get(self@.skip(i as int), name@, key@),
            decreases n - i,
        {
            proof {
                assert(self@.skip(i as int)[0] == self@[i as int]);
                assert(self@.skip(i as int).drop_first() =~= self@.skip(i + 1));
            }
            let named = match &self.sections[i].name {
                Some(nm) => str_eq(nm.as_str(), name),
                None => false,
            };
            if named {
                return self.sections[i].get(key);
            }
            i += 1;
        }
        proof {
            assert(self@.skip(n as int) =~= Seq::<SectionView>::empty());
        }
        None
    }

    /// Sets `key` in the first section named `name`, appending such a
    /// section at the end if the document has none.
    #[verifier::loop_isolation(false)]
    pub fn set_value(&mut self, name: &str, key: &str, value: String)
        ensures
            final(self)@ == doc_set(old(self)@, name@, key@, value@),
    {
        let n = self.sections.len();
        let mut i: usize = 0;
        while i < n
            invariant
                i <= n,
                self == old(self),
                forall|j: int| 0 <= j < i ==> (#[trigger] self@[j]).0 != Some(name@),
            decreases n - i,
        {
            let named = match &self.sections[i].name {
                Some(nm) => str_eq(nm.as_str(), name),
                None => false,
            };
            if named {
                let sec = &mut self.sections[i];
                sec.set(key, value);
                proof {
                    lemma_doc_set_at(old(self)@, name@, key@, value@, i as int);
                    assert(sections_view(self.sections@) =~= old(self)@.update(
                        i as int,
                        (old(self)@[i as int].0, pairs_set(old(self)@[i as int].1, key@, value@)),
                    ));
                }
                return ;
            }
            i += 1;
        }
        let mut pairs: Vec<Pair> = Vec::new();
        pairs.push(Pair { key: String::from_str(key), value });
        self.sections.push(Section { name: Some(String::from_str(name)), pairs });
        proof {
            lemma_doc_set_missing(old(self)@, name@, key@, value@);
            assert(pairs_view(self.sections@.last().pairs@) =~= seq![(key@, value@)]);
            assert(sections_view(self.sections@) =~= old(self)@.push(
                (Some(name@), seq![(key@, value@)]),
            ));
        }
    }
}

/// When the first section named `name` stands at position `i`, setting a key
/// rewrites exactly that section in place.
proof fn lemma_doc_set_at(
    d: Seq<SectionView>,
    name: Seq<char>,
    key: Seq<char>,
    value: Seq<char>,
    i: int,
)
    requires
        0 <= i < d.len(),
        d[i].0 == Some(name),
        forall|j: int| 0 <= j < i ==> (#[trigger] d[j]).0 != Some(name),
    ensures
        doc_set(d, name, key, value) == d.update(i, (d[i].0, pairs_set(d[i].1, key, value))),
    decreases i,
{
    if i == 0 {
        assert(doc_set(d, name, key, value) =~= d.update(
            0,
            (d[0].0, pairs_set(d[0].1, key, value)),
        ));
    } else {
        assert(forall|j: int|
            0 <= j < d.drop_first().len() ==> #[trigger] d.drop_first()[j] == d[j + 1]);
        lemma_doc_set_at(d.drop_first(), name, key, value, i - 1);
        assert(doc_set(d, name, key, value) =~= d.update(
            i,
            (d[i].0, pairs_set(d[i].1, key, value)),
        ));
    }
}

/// When no section is named `name`, setting a key appends a new section.
proof fn lemma_doc_set_missing(d: Seq<SectionView>, name: Seq<char>, key: Seq<char>, value: Seq<
    char,
>)
    requires
        forall|j: int| 0 <= j < d.len() ==> (#[trigger] d[j]).0 != Some(name),
    ensures
        doc_set(d, name, key, value) == d.push((Some(name), seq![(key, value)])),
    decreases d.len(),
{
    if d.len() == 0 {
        assert(doc_set(d, name, key, value) =~= d.push((Some(name), seq![(key, value)])));
    } else {
        assert(forall|j: int|
            0 <= j < d.drop_first().len() ==> #[trigger] d.drop_first()[j] == d[j + 1]);
        lemma_doc_set_missing(d.drop_first(), name, key, value);
        assert(doc_set(d, name, key, value) =~= d.push((Some(name), seq![(key, value)])));
    }
}

} // verus!
