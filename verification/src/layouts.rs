//! A cache of GPU bind-group layouts, filed by label so that a layout is
//! created once per label.
use vstd::prelude::*;

verus! {

/// Why the cache could not hand out a layout.
#[derive(Debug, PartialEq, Eq, Structural)]
pub enum LayoutError {
    /// The layout's descriptor has no label to file it under.
    NoLabel,
    /// No layout is filed under the label.
    Missing,
}

/// The label a layout is filed under: the descriptor's label, which it
/// must have.
pub fn descriptor_label(label: Option<&str>) -> (r: Result<String, LayoutError>)
    ensures
        match label {
            Some(l) => r matches Ok(s) && s@ == l@,
            None => r == Err::<String, LayoutError>(LayoutError::NoLabel),
        },
{
    match label {
        Some(l) => Ok(l.to_owned()),
        None => Err(LayoutError::NoLabel),
    }
}

/// Layouts of type `L`, filed by label.
pub struct LayoutsManager<L> {
    layouts: Vec<(String, L)>,
}

impl<L> View for LayoutsManager<L> {
    type V = Map<Seq<char>, L>;

    /// The filed layouts, by label.
    closed spec fn view(&self) -> Map<Seq<char>, L> {
        Map::new(
            |k: Seq<char>| exists|i: int| 0 <= i < self.layouts.len() && self.layouts@[i].0@ == k,
            |k: Seq<char>|
                self.layouts@[choose|i: int| 0 <= i < self.layouts.len() && self.layouts@[i].0@ == k].1,
        )
    }
}

impl<L> LayoutsManager<L> {
    /// No label is filed twice.
    pub closed spec fn wf(&self) -> bool {
        forall|i: int, j: int|
            0 <= i < j < self.layouts.len() ==> self.layouts@[i].0@ != self.layouts@[j].0@
    }

    proof fn lemma_view(&self)
        requires
            self.wf(),
        ensures
            forall|i: int|
                0 <= i < self.layouts.len() ==> #[trigger] self@.dom().contains(self.layouts@[i].0@)
                    && self@[self.layouts@[i].0@] == self.layouts@[i].1,
    {
        assert forall|i: int| 0 <= i < self.layouts.len() implies #[trigger] self@.dom().contains(
            self.layouts@[i].0@,
        ) && self@[self.layouts@[i].0@] == self.layouts@[i].1 by {
            let k = self.layouts@[i].0@;
            let j = choose|j: int| 0 <= j < self.layouts.len() && self.layouts@[j].0@ == k;
            if j != i {
                if j < i {
                    assert(self.layouts@[j].0@ != self.layouts@[i].0@);
                } else {
                    assert(self.layouts@[i].0@ != self.layouts@[j].0@);
                }
            }
        }
    }

    /// An empty cache.
    pub fn new() -> (manager: Self)
        ensures
            manager.wf(),
            manager@ == Map::<Seq<char>, L>::empty(),
    {
        let manager = LayoutsManager { layouts: Vec::new() };
        assert(manager@ =~= Map::<Seq<char>, L>::empty());
        manager
    }

    /// The position of the layout filed under `label`, if there is one.
    fn position(&self, label: &str) -> (pos: Option<usize>)
        requires
            self.wf(),
        ensures
            match pos {
                Some(i) => i < self.layouts.len() && self.layouts@[i as int].0@ == label@
                    && self@.dom().contains(label@) && self@[label@] == self.layouts@[i as int].1,
                None => !self@.dom().contains(label@),
            },
    {
        proof {
            self.lemma_view();
        }
        let key = label.to_owned();
        let mut i: usize = 0;
        while i < self.layouts.len()
            invariant
                self.wf(),
                i <= self.layouts.len(),
                key@ == label@,
                forall|k: int| 0 <= k < i ==> self.layouts@[k].0@ != label@,
            decreases self.layouts.len() - i,
        {
            if self.layouts[i].0 == key {
                proof {
                    self.lemma_view();
                }
                return Some(i);
            }
            i = i + 1;
        }
        None
    }

    /// The layout filed under `label`; the freshly created `layout` is filed
    /// there if none was, and is dropped otherwise.
    pub fn get_layout_from_desc(&mut self, label: &str, layout: L) -> (filed: &L)
        requires
            old(self).wf(),
        ensures
            final(self).wf(),
            final(self)@ == (if old(self)@.dom().contains(label@) {
                old(self)@
            } else {
                old(self)@.insert(label@, layout)
            }),
            *filed == final(self)@[label@],
    {
        match self.position(label) {
            Some(i) => &self.layouts[i].1,
            None => {
                let ghost before = self.layouts@;
                let n = self.layouts.len();
                self.layouts.push((label.to_owned(), layout));
                proof {
                    assert(self.wf()) by {
                        assert forall|a: int, b: int| 0 <= a < b < self.layouts.len() implies self.layouts@[a].0@
                            != self.layouts@[b].0@ by {
                            if b == before.len() {
                                old(self).lemma_view();
                                assert(old(self)@.dom().contains(before[a].0@));
                            }
                        }
                    }
                    self.lemma_view();
                    old(self).lemma_view();
                    let want = old(self)@.insert(label@, layout);
                    assert forall|k: Seq<char>| self@.dom().contains(k) <==> want.dom().contains(k) by {
                        if self@.dom().contains(k) {
                            let j = choose|j: int| 0 <= j < self.layouts.len() && self.layouts@[j].0@ == k;
                            if j < n {
                                assert(old(self)@.dom().contains(old(self).layouts@[j].0@));
                            }
                        }
                        if old(self)@.dom().contains(k) {
                            let j = choose|j: int| 0 <= j < before.len() && before[j].0@ == k;
                            assert(self@.dom().contains(self.layouts@[j].0@));
                        }
                        if k == label@ {
                            assert(self@.dom().contains(self.layouts@[n as int].0@));
                        }
                    }
                    assert forall|k: Seq<char>| #[trigger] self@.dom().contains(k) implies self@[k] == want[k] by {
                        let j = choose|j: int| 0 <= j < self.layouts.len() && self.layouts@[j].0@ == k;
                        assert(self@[self.layouts@[j].0@] == self.layouts@[j].1);
                        if j < n {
                            assert(old(self)@[old(self).layouts@[j].0@] == before[j].1);
                        }
                    }
                    assert(self@ =~= want);
                    assert(self@.dom().contains(self.layouts@[n as int].0@));
                }
                &self.layouts[n].1
            },
        }
    }

    /// The layout filed under `label`, or [`LayoutError::Missing`].
    pub fn get_layout_from_label(&self, label: &str) -> (r: Result<&L, LayoutError>)
        requires
            self.wf(),
        ensures
            match r {
                Ok(l) => self@.dom().contains(label@) && *l == self@[label@],
                Err(e) => e == LayoutError::Missing && !self@.dom().contains(label@),
            },
    {
        match self.position(label) {
            Some(i) => Ok(&self.layouts[i].1),
            None => Err(LayoutError::Missing),
        }
    }
}

} // verus!
