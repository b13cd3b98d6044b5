//! The checklist of recommendations collected over a book's chapters, and the
//! markdown text of the chapter that lists them.

use vstd::prelude::*;
use crate::semindent::same_chars;
use crate::text::chars_of;

verus! {

/// One recommendation: the anchor it is known by and its description.
pub struct CheckEntry {
    pub name: String,
    pub desc: String,
}

/// Recommendations grouped by the chapter they come from, the chapters in the
/// order in which they were first met.
pub struct Checklist {
    pub title: String,
    /// For each chapter: its name, its path, and its recommendations.
    pub data: Vec<(String, String, Vec<CheckEntry>)>,
}

pub type EntryView = (Seq<char>, Seq<char>);

pub type GroupView = (Seq<char>, Seq<char>, Seq<EntryView>);

pub open spec fn entries_view(v: Seq<CheckEntry>) -> Seq<EntryView> {
    Seq::new(v.len(), |j: int| (v[j].name@, v[j].desc@))
}

pub open spec fn groups_view(d: Seq<(String, String, Vec<CheckEntry>)>) -> Seq<GroupView> {
    Seq::new(d.len(), |i: int| (d[i].0@, d[i].1@, entries_view(d[i].2@)))
}

impl Checklist {
    pub open spec fn groups(&self) -> Seq<GroupView> {
        groups_view(self.data@)
    }

    /// No two groups share a chapter path.
    pub open spec fn wf(&self) -> bool {
        forall|i: int, j: int|
            0 <= i < j < self.data@.len() ==> #[trigger] self.groups()[i].1
                != #[trigger] self.groups()[j].1
    }

    /// An empty checklist titled "Checklist".
    pub fn new() -> (r: Self)
        ensures
            r.wf(),
            r.title@ == seq!['C', 'h', 'e', 'c', 'k', 'l', 'i', 's', 't'],
            r.groups() == Seq::<GroupView>::empty(),
    {
        let r = Checklist { title: String::from_str("Checklist"), data: Vec::new() };
        proof {
            reveal_strlit("Checklist");
            assert(r.groups() =~= Seq::<GroupView>::empty());
        }
        r
    }

    /// Gives the checklist another title.
    pub fn set_title(&mut self, title: String)
        ensures
            final(self).title@ == title@,
            final(self).data@ == old(self).data@,
    {
        self.title = title;
    }

    /// Adds a recommendation of the chapter at `chap_path`: to that chapter's
    /// group if there is one, else to a new group at the end.
    pub fn insert(&mut self, chap_name: &str, chap_path: &str, name: String, desc: String)
        requires
            old(self).wf(),
        ensures
            final(self).wf(),
            final(self).title@ == old(self).title@,
            forall|i: int|
                0 <= i < old(self).groups().len() && old(self).groups()[i].1 == chap_path@
                    ==> final(self).groups() == old(self).groups().update(
                    i,
                    (
                        old(self).groups()[i].0,
                        old(self).groups()[i].1,
                        old(self).groups()[i].2.push((name@, desc@)),
                    ),
                ),
            (forall|i: int|
                0 <= i < old(self).groups().len() ==> old(self).groups()[i].1 != chap_path@)
                ==> final(self).groups() == old(self).groups().push(
                (chap_name@, chap_path@, seq![(name@, desc@)]),
            ),
    {
        let ghost g0 = self.groups();
        let pc = chars_of(chap_path);
        let mut i: usize = 0;
        let mut found = false;
        while i < self.data.len() && !found
            invariant
                i <= self.data@.len(),
                self.groups() == g0,
                self.wf(),
                pc@ == chap_path@,
                found ==> i < self.data@.len() && g0[i as int].1 == chap_path@,
                !found ==> forall|j: int| 0 <= j < i ==> g0[j].1 != chap_path@,
            decreases self.data@.len() - i + (if found { 0int } else { 1int }),
        {
            let c = chars_of(self.data[i].1.as_str());
            if same_chars(&c, &pc) {
                found = true;
            } else {
                i = i + 1;
            }
        }
        if found {
            let ghost d0 = self.data@;
            let mut g = self.data.remove(i);
            let ghost ents0 = g.2@;
            g.2.push(CheckEntry { name, desc });
            let ghost gn = g;
            self.data.insert(i, g);
            proof {
                let e = g0[i as int];
                assert(self.data@ =~= d0.update(i as int, gn));
                assert(entries_view(gn.2@) =~= entries_view(ents0).push((name@, desc@)));
                assert(entries_view(ents0) == e.2);
                assert(self.groups() =~= g0.update(i as int, (e.0, e.1, e.2.push((name@, desc@)))));
                assert forall|k: int| 0 <= k < g0.len() && g0[k].1 == chap_path@ implies k == i by {
                    if k < i {
                        assert(g0[k].1 != g0[i as int].1);
                    } else if k > i {
                        assert(g0[i as int].1 != g0[k].1);
                    }
                }
            }
        } else {
            let mut v: Vec<CheckEntry> = Vec::new();
            v.push(CheckEntry { name, desc });
            self.data.push((String::from_str(chap_name), String::from_str(chap_path), v));
            proof {
                assert(entries_view(v@) =~= seq![(name@, desc@)]);
                assert(self.groups() =~= g0.push((chap_name@, chap_path@, seq![(name@, desc@)])));
            }
        }
    }
}

/// One item of a chapter's list: the box to tick, the description and a link
/// to the recommendation's anchor.
pub open spec fn entry_item(e: EntryView) -> Seq<char> {
    "   - [ ] "@ + e.1 + " (["@ + e.0 + "])\n"@
}

pub open spec fn entry_items(es: Seq<EntryView>) -> Seq<char>
    decreases es.len(),
{
    if es.len() == 0 {
        Seq::<char>::empty()
    } else {
        entry_items(es.drop_last()) + entry_item(es.last())
    }
}

/// A chapter's part of the list: its name, then its items.
pub open spec fn group_items(g: GroupView) -> Seq<char> {
    "\n - "@ + g.0 + ":\n"@ + entry_items(g.2)
}

pub open spec fn all_items(gs: Seq<GroupView>) -> Seq<char>
    decreases gs.len(),
{
    if gs.len() == 0 {
        Seq::<char>::empty()
    } else {
        all_items(gs.drop_last()) + group_items(gs.last())
    }
}

/// The link definition that points a recommendation's name at its anchor in
/// its chapter.
pub open spec fn entry_link(path: Seq<char>, e: EntryView) -> Seq<char> {
    "["@ + e.0 + "]: "@ + path + "#"@ + e.0 + "\n"@
}

pub open spec fn entry_links(path: Seq<char>, es: Seq<EntryView>) -> Seq<char>
    decreases es.len(),
{
    if es.len() == 0 {
        Seq::<char>::empty()
    } else {
        entry_links(path, es.drop_last()) + entry_link(path, es.last())
    }
}

pub open spec fn all_links(gs: Seq<GroupView>) -> Seq<char>
    decreases gs.len(),
{
    if gs.len() == 0 {
        Seq::<char>::empty()
    } else {
        all_links(gs.drop_last()) + entry_links(gs.last().1, gs.last().2)
    }
}

/// The checklist chapter: the title as a heading, the list of every chapter's
/// recommendations, then the link definitions of all recommendations.
pub open spec fn checklist_text(title: Seq<char>, gs: Seq<GroupView>) -> Seq<char> {
    "# "@ + title + "\n\n"@ + all_items(gs) + "\n\n"@ + all_links(gs)
}

impl Checklist {
    /// The markdown text of the checklist chapter.
    pub fn content(&self) -> (r: String)
        ensures
            r@ == checklist_text(self.title@, self.groups()),
    {
        let ghost gs = self.groups();
        let mut r = String::from_str("# ");
        r.append(self.title.as_str());
        r.append("\n\n");
        let ghost head = r@;
        let mut i: usize = 0;
        assert(gs.subrange(0, 0) == Seq::<GroupView>::empty());
        while i < self.data.len()
            invariant
                i <= self.data@.len(),
                gs == self.groups(),
                r@ == head + all_items(gs.subrange(0, i as int)),
            decreases self.data@.len() - i,
        {
            let g = &self.data[i];
            let ghost gv = gs[i as int];
            r.append("\n - ");
            r.append(g.0.as_str());
            r.append(":\n");
            let ghost mid = r@;
            let mut j: usize = 0;
            assert(gv.2.subrange(0, 0) == Seq::<EntryView>::empty());
            while j < g.2.len()
                invariant
                    j <= g.2@.len(),
                    gv == (g.0@, g.1@, entries_view(g.2@)),
                    r@ == mid + entry_items(gv.2.subrange(0, j as int)),
                decreases g.2@.len() - j,
            {
                let e = &g.2[j];
                r.append("   - [ ] ");
                r.append(e.desc.as_str());
                r.append(" ([");
                r.append(e.name.as_str());
                r.append("])\n");
                proof {
                    let es = gv.2.subrange(0, j + 1);
                    assert(es.drop_last() == gv.2.subrange(0, j as int));
                    assert(es.last() == (e.name@, e.desc@));
                    assert(r@ =~= mid + entry_items(es));
                }
                j = j + 1;
            }
            proof {
                assert(gv.2.subrange(0, gv.2.len() as int) == gv.2);
                let p = gs.subrange(0, i + 1);
                assert(p.drop_last() == gs.subrange(0, i as int));
                assert(p.last() == gv);
                assert(r@ =~= head + all_items(p));
            }
            i = i + 1;
        }
        r.append("\n\n");
        let ghost head2 = r@;
        let mut i: usize = 0;
        while i < self.data.len()
            invariant
                i <= self.data@.len(),
                gs == self.groups(),
                r@ == head2 + all_links(gs.subrange(0, i as int)),
            decreases self.data@.len() - i,
        {
            let g = &self.data[i];
            let ghost gv = gs[i as int];
            let ghost mid = r@;
            let mut j: usize = 0;
            assert(gv.2.subrange(0, 0) == Seq::<EntryView>::empty());
            assert(mid + Seq::<char>::empty() == mid);
            while j < g.2.len()
                invariant
                    j <= g.2@.len(),
                    gv == (g.0@, g.1@, entries_view(g.2@)),
                    r@ == mid + entry_links(gv.1, gv.2.subrange(0, j as int)),
                decreases g.2@.len() - j,
            {
                let e = &g.2[j];
                r.append("[");
                r.append(e.name.as_str());
                r.append("]: ");
                r.append(g.1.as_str());
                r.append("#");
                r.append(e.name.as_str());
                r.append("\n");
                proof {
                    let es = gv.2.subrange(0, j + 1);
                    assert(es.drop_last() == gv.2.subrange(0, j as int));
                    assert(es.last() == (e.name@, e.desc@));
                    assert(r@ =~= mid + entry_links(gv.1, es));
                }
                j = j + 1;
            }
            proof {
                assert(gv.2.subrange(0, gv.2.len() as int) == gv.2);
                let p = gs.subrange(0, i + 1);
                assert(p.drop_last() == gs.subrange(0, i as int));
                assert(p.last() == gv);
                assert(r@ =~= head2 + all_links(p));
            }
            i = i + 1;
        }
        proof {
            assert(gs.subrange(0, gs.len() as int) == gs);
            assert(r@ =~= checklist_text(self.title@, gs));
        }
        r
    }
}

/// A recommendation found in a chapter's HTML: a `div` of class `reco`.
pub struct Reco {
    pub typ: String,
    pub id: String,
    pub title: String,
}

/// What a `div` start tag stands for.
pub enum RecoCheck {
    Found(Reco),
    /// A recommendation without an `id` attribute.
    MissingId,
    /// A recommendation without a `type` attribute.
    MissingType,
    /// A recommendation without a `title` attribute.
    MissingTitle,
    /// Not a recommendation.
    NotReco,
}

pub open spec fn reco_class() -> Seq<char> {
    seq!['r', 'e', 'c', 'o']
}

/// Reads a `div` start tag from its `class`, `id`, `type` and `title`
/// attributes: a tag of class `reco` is a recommendation when it has the
/// three others, the first one missing being reported otherwise.
pub fn reco_of(
    class: Option<String>,
    id: Option<String>,
    typ: Option<String>,
    title: Option<String>,
) -> (r: RecoCheck)
    ensures
        !(class matches Some(c) && c@ == reco_class()) ==> r is NotReco,
        (class matches Some(c) && c@ == reco_class()) ==> {
            if id is None {
                r is MissingId
            } else if typ is None {
                r is MissingType
            } else if title is None {
                r is MissingTitle
            } else {
                r matches RecoCheck::Found(f) && f.id@ == id->0@ && f.typ@ == typ->0@
                    && f.title@ == title->0@
            }
        },
{
    let is_reco = match &class {
        Some(c) => {
            let cc = chars_of(c.as_str());
            let mut k: Vec<char> = Vec::new();
            k.push('r');
            k.push('e');
            k.push('c');
            k.push('o');
            assert(k@ == reco_class());
            same_chars(&cc, &k)
        },
        None => false,
    };
    if !is_reco {
        return RecoCheck::NotReco;
    }
    match id {
        None => RecoCheck::MissingId,
        Some(id) => match typ {
            None => RecoCheck::MissingType,
            Some(typ) => match title {
                None => RecoCheck::MissingTitle,
                Some(title) => RecoCheck::Found(Reco { typ, id, title }),
            },
        },
    }
}

/// The description of a recommendation in the checklist: its type, a dash,
/// and its title.
pub fn reco_description(r: &Reco) -> (d: String)
    ensures
        d@ == r.typ@ + " - "@ + r.title@,
{
    let mut d = String::from_str(r.typ.as_str());
    d.append(" - ");
    d.append(r.title.as_str());
    d
}

} // verus!
