use crate::document::{pairs_get, pairs_view, Document, Pair, Section, SectionView};
use crate::strutil::{contains_ci, str_contains_ci, str_starts_with};
use vstd::prelude::*;

verus! {

/// What the naming heuristics decide for one vehicle entry.
#[derive(Clone, Copy, Debug, PartialEq, Eq, Structural)]
pub enum Classification {
    Unclassified,
    Fixed,
    Auto,
}

/// The view of an optional borrowed string field.
pub open spec fn opt_str_view(o: Option<&String>) -> Option<Seq<char>> {
    match o {
        Some(s) => Some(s@),
        None => None,
    }
}

/// The classification of a vehicle entry from its optional `MODEL` and
/// `TEAM` fields. The rules are ordered and later rules override earlier
/// ones: `traffic` in the model or the team marks the entry fixed, and
/// `reserve` in the team marks it auto, overriding both traffic rules.
pub open spec fn spec_classify(model: Option<Seq<char>>, team: Option<Seq<char>>) -> Classification {
    if team is Some && contains_ci(team->0, "reserve"@) {
        Classification::Auto
    } else if team is Some && contains_ci(team->0, "traffic"@) {
        Classification::Fixed
    } else if model is Some && contains_ci(model->0, "traffic"@) {
        Classification::Fixed
    } else {
        Classification::Unclassified
    }
}

/// Applies the ordered naming rules to one entry's fields; every rule is
/// evaluated and a later match overrides an earlier one.
pub fn classify(model: Option<&String>, team: Option<&String>) -> (c: Classification)
    ensures
        c == spec_classify(opt_str_view(model), opt_str_view(team)),
{
    let mut mark = Classification::Unclassified;
    if let Some(m) = model {
        if str_contains_ci(m.as_str(), "traffic") {
            mark = Classification::Fixed;
        }
    }
    if let Some(t) = team {
        if str_contains_ci(t.as_str(), "traffic") {
            mark = Classification::Fixed;
        }
        if str_contains_ci(t.as_str(), "reserve") {
            mark = Classification::Auto;
        }
    }
    mark
}

/// Whether a section is a vehicle entry: named, with the vehicle prefix.
pub open spec fn sec_is_vehicle(s: SectionView) -> bool {
    s.0 is Some && "CAR_"@.is_prefix_of(s.0->0)
}

/// The classification the naming rules give this section.
pub open spec fn sec_classification(s: SectionView) -> Classification {
    spec_classify(pairs_get(s.1, "MODEL"@), pairs_get(s.1, "TEAM"@))
}

/// Whether marking changes this section: a vehicle entry with no `AI` key
/// yet, for which some rule fires.
pub open spec fn sec_would_mark(s: SectionView) -> bool {
    sec_is_vehicle(s) && pairs_get(s.1, "AI"@) is None && sec_classification(s)
        != Classification::Unclassified
}

/// The tag written for a classification that fires.
pub open spec fn mark_value(c: Classification) -> Seq<char> {
    if c == Classification::Auto {
        "auto"@
    } else {
        "fixed"@
    }
}

/// A section after the marking pass: unchanged, unless the rules fire, in
/// which case the `AI` tag is appended at its end.
pub open spec fn spec_mark_section(s: SectionView) -> SectionView {
    if sec_would_mark(s) {
        (s.0, s.1.push(("AI"@, mark_value(sec_classification(s)))))
    } else {
        s
    }
}

/// A document after the marking pass: every section marked independently.
pub open spec fn spec_mark_doc(d: Seq<SectionView>) -> Seq<SectionView> {
    d.map_values(|s: SectionView| spec_mark_section(s))
}

/// How many sections the marking pass changes.
pub open spec fn spec_mark_count(d: Seq<SectionView>) -> nat
    decreases d.len(),
{
    if d.len() == 0 {
        0
    } else {
        (if sec_would_mark(d[0]) {
            1nat
        } else {
            0nat
        }) + spec_mark_count(d.drop_first())
    }
}

/// Marks one section: appends the `AI` tag when a rule fires on a vehicle
/// entry that has none, and reports whether it did.
pub fn mark_section(sec: Section) -> (r: (Section, bool))
    ensures
        r.0@ == spec_mark_section(sec@),
        r.1 == sec_would_mark(sec@),
{
    let is_vehicle = match &sec.name {
        Some(nm) => str_starts_with(nm.as_str(), "CAR_"),
        None => false,
    };
    if !is_vehicle {
        return (sec, false);
    }
    if sec.get("AI").is_some() {
        return (sec, false);
    }
    let c = classify(sec.get("MODEL"), sec.get("TEAM"));
    match c {
        Classification::Unclassified => (sec, false),
        Classification::Fixed => {
            let mut sec = sec;
            let ghost before: Seq<Pair> = sec.pairs@;
            sec.pairs.push(Pair { key: String::from_str("AI"), value: String::from_str("fixed") });
            proof {
                assert(pairs_view(sec.pairs@) =~= pairs_view(before).push(("AI"@, "fixed"@)));
            }
            (sec, true)
        },
        Classification::Auto => {
            let mut sec = sec;
            let ghost before: Seq<Pair> = sec.pairs@;
            sec.pairs.push(Pair { key: String::from_str("AI"), value: String::from_str("auto") });
            proof {
                assert(pairs_view(sec.pairs@) =~= pairs_view(before).push(("AI"@, "auto"@)));
            }
            (sec, true)
        },
    }
}

/// Marks every vehicle entry of the document and counts how many changed.
#[verifier::loop_isolation(false)]
pub fn mark_document(doc: Document) -> (r: (Document, usize))
    ensures
        r.0@ == spec_mark_doc(doc@),
        r.1 == spec_mark_count(doc@),
        r.1 <= doc@.len(),
{
    let ghost orig: Seq<SectionView> = doc@;
    let mut secs = doc.sections;
    let mut out: Vec<Section> = Vec::new();
    let mut count: usize = 0;
    proof {
        assert(crate::document::sections_view(secs@) =~= orig.skip(0));
    }
    while secs.len() > 0
        invariant
            out@.len() + secs@.len() == orig.len(),
            crate::document::sections_view(secs@) == orig.skip(out@.len() as int),
            forall|j: int|
                0 <= j < out@.len() ==> #[trigger] out@[j]@ == spec_mark_section(orig[j]),
            count + spec_mark_count(orig.skip(out@.len() as int)) == spec_mark_count(orig),
            count <= out@.len(),
        decreases secs@.len(),
    {
        let ghost p: int = out@.len() as int;
        let ghost rest: Seq<SectionView> = orig.skip(p);
        let sec = secs.remove(0);
        proof {
            assert(crate::document::sections_view(secs@) =~= rest.drop_first());
            assert(rest.drop_first() =~= orig.skip(p + 1));
            assert(sec@ == rest[0] && rest[0] == orig[p]);
        }
        let (marked, did) = mark_section(sec);
        out.push(marked);
        if did {
            let filled = out.len();
            proof {
                assert(count < filled);
            }
            count += 1;
        }
    }
    proof {
        assert(orig.skip(out@.len() as int) =~= Seq::<SectionView>::empty());
        assert(crate::document::sections_view(out@) =~= spec_mark_doc(orig));
    }
    (Document { sections: out }, count)
}

/// Appending a pair keyed `k` makes a lookup of `k` succeed.
proof fn lemma_pairs_get_push(ps: Seq<crate::document::PairView>, k: Seq<char>, v: Seq<char>)
    ensures
        pairs_get(ps.push((k, v)), k) is Some,
    decreases ps.len(),
{
    if ps.len() > 0 && ps[0].0 != k {
        assert(ps.push((k, v)).drop_first() =~= ps.drop_first().push((k, v)));
        lemma_pairs_get_push(ps.drop_first(), k, v);
    }
}

/// An entry that already carries any `AI` value is never modified.
pub proof fn lemma_existing_tag_kept(s: SectionView)
    requires
        pairs_get(s.1, "AI"@) is Some,
    ensures
        spec_mark_section(s) == s,
{
}

/// In the team field, `reserve` overrides `traffic`: an entry whose team
/// holds both substrings is classified auto.
pub proof fn lemma_reserve_overrides_traffic(model: Option<Seq<char>>, team: Seq<char>)
    requires
        contains_ci(team, "traffic"@),
        contains_ci(team, "reserve"@),
    ensures
        spec_classify(model, Some(team)) == Classification::Auto,
{
}

/// Marking a section twice is the same as marking it once, and a marked
/// section is never counted again.
proof fn lemma_mark_section_idempotent(s: SectionView)
    ensures
        spec_mark_section(spec_mark_section(s)) == spec_mark_section(s),
        !sec_would_mark(spec_mark_section(s)),
{
    if sec_would_mark(s) {
        lemma_pairs_get_push(s.1, "AI"@, mark_value(sec_classification(s)));
    }
}

/// A document in which no section would be marked has a mark count of zero.
proof fn lemma_mark_count_zero(d: Seq<SectionView>)
    requires
        forall|i: int| 0 <= i < d.len() ==> !sec_would_mark(#[trigger] d[i]),
    ensures
        spec_mark_count(d) == 0,
    decreases d.len(),
{
    if d.len() > 0 {
        assert(forall|j: int|
            0 <= j < d.drop_first().len() ==> #[trigger] d.drop_first()[j] == d[j + 1]);
        lemma_mark_count_zero(d.drop_first());
    }
}

/// The marking pass is idempotent: running it again on its own output
/// changes no section and counts no entry.
pub proof fn lemma_mark_idempotent(d: Seq<SectionView>)
    ensures
        spec_mark_doc(spec_mark_doc(d)) == spec_mark_doc(d),
        spec_mark_count(spec_mark_doc(d)) == 0,
{
    let d1 = spec_mark_doc(d);
    assert forall|i: int| 0 <= i < d1.len() implies !sec_would_mark(#[trigger] d1[i]) by {
        lemma_mark_section_idempotent(d[i]);
    }
    assert forall|i: int| 0 <= i < d1.len() implies #[trigger] spec_mark_doc(d1)[i] == d1[i] by {
        lemma_mark_section_idempotent(d[i]);
    }
    assert(spec_mark_doc(d1) =~= d1);
    lemma_mark_count_zero(d1);
}

} // verus!
