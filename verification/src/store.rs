//! The in-memory ordered collection of templates.
//!
//! A template is a text snippet with a durable identifier that is assigned at
//! creation, never reused and never renumbered, so that edits and deletions
//! can name an item by identity even while its position changes. Order is the
//! only externally visible rank of an item.

use vstd::prelude::*;

verus! {

/// One text snippet together with its session-local identifier.
pub struct Template {
    pub text: String,
    pub id: usize,
}

/// The ordered collection of templates, the pending input text, and the
/// monotonically increasing identifier counter.
pub struct TemplateStore {
    pub templates: Vec<Template>,
    /// Text of the template being typed but not yet committed.
    pub new_template: String,
    pub next_id: usize,
}

impl TemplateStore {
    /// The texts of the stored templates, in display order.
    pub open spec fn texts(self) -> Seq<Seq<char>> {
        self.templates@.map_values(|t: Template| t.text@)
    }

    /// The identifiers of the stored templates, in display order.
    pub open spec fn ids(self) -> Seq<usize> {
        self.templates@.map_values(|t: Template| t.id)
    }

    /// The value the next created template will take as its identifier.
    pub open spec fn next_id_spec(self) -> usize {
        self.next_id
    }

    /// Whether some stored template carries the identifier `id`.
    pub open spec fn has_id(self, id: usize) -> bool {
        exists|k: int| 0 <= k < self.ids().len() && self.ids()[k] == id
    }

    /// Store invariant: identifiers are pairwise distinct and below the
    /// counter, so a freshly assigned identifier can collide with none.
    pub open spec fn wf(self) -> bool {
        &&& forall|i: int, j: int|
            0 <= i < j < self.ids().len() ==> #[trigger] self.ids()[i] != #[trigger] self.ids()[j]
        &&& forall|i: int| 0 <= i < self.ids().len() ==> #[trigger] self.ids()[i] < self.next_id
    }

    /// Initializes a store from the decoded persisted texts: each text gets
    /// its array position as identifier, and the counter starts at the count
    /// of loaded items.
    pub fn load(items: Vec<String>) -> (store: Self)
        ensures
            store.wf(),
            store.texts() == items.deep_view(),
            store.ids().len() == items@.len(),
            forall|k: int| 0 <= k < items@.len() ==> #[trigger] store.ids()[k] == k,
            store.next_id_spec() == items@.len(),
            store.new_template@ == Seq::<char>::empty(),
    {
        let n = items.len();
        let mut templates: Vec<Template> = Vec::new();
        let mut i: usize = 0;
        while i < n
            invariant
                i <= n,
                n == items@.len(),
                templates@.len() == i,
                forall|k: int|
                    0 <= k < i ==> (#[trigger] templates@[k]).text@ == items@[k]@
                        && templates@[k].id == k,
            decreases n - i,
        {
            let text = items[i].clone();
            templates.push(Template { text, id: i });
            i = i + 1;
        }
        let store = TemplateStore { templates, new_template: String::new(), next_id: n };
        proof {
            assert(store.texts() =~= items.deep_view());
        }
        store
    }

    /// Appends a new template holding `text` under a fresh identifier.
    pub fn append(&mut self, text: String)
        requires
            old(self).wf(),
            old(self).next_id_spec() < usize::MAX,
        ensures
            final(self).wf(),
            final(self).texts() == old(self).texts().push(text@),
            final(self).ids() == old(self).ids().push(old(self).next_id_spec()),
            final(self).next_id_spec() == old(self).next_id_spec() + 1,
            final(self).new_template == old(self).new_template,
    {
        let id = self.next_id;
        self.templates.push(Template { text, id });
        self.next_id = self.next_id + 1;
        proof {
            assert(self.texts() =~~= old(self).texts().push(text@));
            assert(self.ids() =~= old(self).ids().push(old(self).next_id_spec()));
            assert forall|i: int, j: int| 0 <= i < j < self.ids().len() implies
                #[trigger] self.ids()[i] != #[trigger] self.ids()[j] by {
                if j < old(self).ids().len() {
                    assert(old(self).ids()[i] != old(self).ids()[j]);
                } else {
                    assert(old(self).ids()[i] < old(self).next_id_spec());
                }
            }
        }
    }

    /// Commits the pending input: appends it as a new template and clears it,
    /// signalling the shell that the input field is to be reset.
    pub fn push_template(&mut self)
        requires
            old(self).wf(),
            old(self).next_id_spec() < usize::MAX,
        ensures
            final(self).wf(),
            final(self).texts() == old(self).texts().push(old(self).new_template@),
            final(self).ids() == old(self).ids().push(old(self).next_id_spec()),
            final(self).next_id_spec() == old(self).next_id_spec() + 1,
            final(self).new_template@ == Seq::<char>::empty(),
    {
        let text = self.new_template.clone();
        self.new_template = String::new();
        proof {
            assert(self.ids() == old(self).ids());
            assert(self.wf());
        }
        self.append(text);
    }

    /// Replaces the text of the template whose identifier is `id`, keeping
    /// its position; a store without that identifier is left unchanged.
    pub fn update_text(&mut self, id: usize, text: String)
        requires
            old(self).wf(),
        ensures
            final(self).wf(),
            final(self).ids() == old(self).ids(),
            final(self).next_id_spec() == old(self).next_id_spec(),
            final(self).new_template == old(self).new_template,
            final(self).texts().len() == old(self).texts().len(),
            forall|k: int|
                0 <= k < old(self).ids().len() && old(self).ids()[k] != id
                    ==> #[trigger] final(self).texts()[k] == old(self).texts()[k],
            forall|k: int|
                0 <= k < old(self).ids().len() && old(self).ids()[k] == id
                    ==> #[trigger] final(self).texts()[k] == text@,
            !old(self).has_id(id) ==> final(self).texts() == old(self).texts(),
    {
        let n = self.templates.len();
        let mut k: usize = 0;
        while k < n
            invariant
                old(self).wf(),
                k <= n,
                n == self.templates@.len(),
                *self == *old(self),
                forall|m: int| 0 <= m < k ==> #[trigger] self.ids()[m] != id,
            decreases n - k,
        {
            if self.templates[k].id == id {
                proof {
                    assert(old(self).templates@[k as int].id == id);
                    assert(old(self).ids()[k as int] == id);
                }
                self.templates[k] = Template { text, id };
                proof {
                    assert(self.templates@ == old(self).templates@.update(
                        k as int,
                        (Template { text, id }),
                    ));
                    assert(self.ids() =~= old(self).ids());
                    assert forall|m: int|
                        0 <= m < old(self).ids().len() && old(self).ids()[m] != id implies
                        #[trigger] self.texts()[m] == old(self).texts()[m] by {
                        assert(m != k);
                    }
                    assert forall|m: int|
                        0 <= m < old(self).ids().len() && old(self).ids()[m] == id implies
                        #[trigger] self.texts()[m] == text@ by {
                        if m < k as int {
                            assert(old(self).ids()[m] != old(self).ids()[k as int]);
                            assert(false);
                        } else if m > k as int {
                            assert(old(self).ids()[k as int] != old(self).ids()[m]);
                            assert(false);
                        }
                    }
                }
                return ;
            }
            k = k + 1;
        }
        proof {
            assert(!old(self).has_id(id));
            assert(self.texts() == old(self).texts());
        }
    }

    /// Removes the template whose identifier is `id`, by identity rather than
    /// position: the last template takes the freed slot. A store without that
    /// identifier is left unchanged, and the counter never moves.
    pub fn remove(&mut self, id: usize)
        requires
            old(self).wf(),
        ensures
            final(self).wf(),
            final(self).next_id_spec() == old(self).next_id_spec(),
            final(self).new_template == old(self).new_template,
            !old(self).has_id(id) ==> final(self).texts() == old(self).texts()
                && final(self).ids() == old(self).ids(),
            old(self).has_id(id) ==> exists|i: int|
                0 <= i < old(self).ids().len() && #[trigger] old(self).ids()[i] == id
                    && final(self).texts() == old(self).texts().update(
                    i,
                    old(self).texts().last(),
                ).drop_last() && final(self).ids() == old(self).ids().update(
                    i,
                    old(self).ids().last(),
                ).drop_last(),
    {
        let n = self.templates.len();
        let mut k: usize = 0;
        while k < n
            invariant
                old(self).wf(),
                k <= n,
                n == self.templates@.len(),
                *self == *old(self),
                forall|m: int| 0 <= m < k ==> #[trigger] self.ids()[m] != id,
            decreases n - k,
        {
            if self.templates[k].id == id {
                self.templates.swap_remove(k);
                proof {
                    let i = k as int;
                    let ots = old(self).templates@;
                    assert(self.templates@ == ots.update(i, ots.last()).drop_last());
                    assert(self.texts() =~= old(self).texts().update(
                        i,
                        old(self).texts().last(),
                    ).drop_last());
                    assert(self.ids() =~= old(self).ids().update(i, old(self).ids().last())
                        .drop_last());
                    assert(old(self).ids()[i] == id);
                    assert forall|p: int, q: int| 0 <= p < q < self.ids().len() implies
                        #[trigger] self.ids()[p] != #[trigger] self.ids()[q] by {
                        let on = old(self).ids().len();
                        if p == i {
                            assert(self.ids()[p] == old(self).ids()[on - 1]);
                            assert(self.ids()[q] == old(self).ids()[q]);
                            assert(q < on - 1);
                        } else if q == i {
                            assert(self.ids()[q] == old(self).ids()[on - 1]);
                            assert(self.ids()[p] == old(self).ids()[p]);
                            assert(p < on - 1);
                        }
                    }
                }
                return ;
            }
            k = k + 1;
        }
        proof {
            assert(!old(self).has_id(id));
        }
    }

    /// Replaces the display order wholesale: position `k` of the new order
    /// shows the template that stood at position `order[k]`. The order given
    /// by the shell must be a permutation of the current positions.
    pub fn reorder(&mut self, order: &Vec<usize>)
        requires
            old(self).wf(),
            order@.len() == old(self).ids().len(),
            forall|k: int| 0 <= k < order@.len() ==> #[trigger] order@[k] < old(self).ids().len(),
            forall|k1: int, k2: int|
                0 <= k1 < k2 < order@.len() ==> #[trigger] order@[k1] != #[trigger] order@[k2],
        ensures
            final(self).wf(),
            final(self).next_id_spec() == old(self).next_id_spec(),
            final(self).new_template == old(self).new_template,
            final(self).texts().len() == old(self).texts().len(),
            final(self).ids().len() == old(self).ids().len(),
            forall|k: int|
                0 <= k < order@.len() ==> #[trigger] final(self).texts()[k] == old(self).texts()[order@[k] as int]
                    && #[trigger] final(self).ids()[k] == old(self).ids()[order@[k] as int],
    {
        let n = self.templates.len();
        let mut out: Vec<Template> = Vec::new();
        let mut k: usize = 0;
        while k < n
            invariant
                k <= n,
                n == self.templates@.len(),
                *self == *old(self),
                out@.len() == k,
                order@.len() == n,
                forall|m: int| 0 <= m < order@.len() ==> #[trigger] order@[m] < n,
                forall|m: int|
                    0 <= m < k ==> (#[trigger] out@[m]).text@ == self.templates@[order@[m] as int].text@
                        && out@[m].id == self.templates@[order@[m] as int].id,
            decreases n - k,
        {
            let idx = order[k];
            let text = self.templates[idx].text.clone();
            let id = self.templates[idx].id;
            out.push(Template { text, id });
            k = k + 1;
        }
        self.templates = out;
        proof {
            assert forall|p: int, q: int| 0 <= p < q < self.ids().len() implies
                #[trigger] self.ids()[p] != #[trigger] self.ids()[q] by {
                let a = order@[p] as int;
                let b = order@[q] as int;
                assert(a != b);
                assert(out@[p].id == old(self).templates@[a].id);
                assert(out@[q].id == old(self).templates@[b].id);
                assert(self.ids()[p] == old(self).ids()[a]);
                assert(self.ids()[q] == old(self).ids()[b]);
                if a < b {
                    assert(old(self).ids()[a] != old(self).ids()[b]);
                } else {
                    assert(old(self).ids()[b] != old(self).ids()[a]);
                }
            }
            assert forall|p: int| 0 <= p < self.ids().len() implies #[trigger] self.ids()[p]
                < self.next_id by {
                let a = order@[p] as int;
                assert(out@[p].id == old(self).templates@[a].id);
                assert(self.ids()[p] == old(self).ids()[a]);
                assert(old(self).ids()[a] < old(self).next_id_spec());
            }
        }
    }

    /// The number of stored templates.
    pub fn len(&self) -> (n: usize)
        ensures
            n == self.texts().len(),
    {
        self.templates.len()
    }

    /// The text at display position `k`.
    pub fn text_at(&self, k: usize) -> (text: &String)
        requires
            k < self.texts().len(),
        ensures
            text@ == self.texts()[k as int],
    {
        &self.templates[k].text
    }

    /// The identifier at display position `k`.
    pub fn id_at(&self, k: usize) -> (id: usize)
        requires
            k < self.ids().len(),
        ensures
            id == self.ids()[k as int],
    {
        self.templates[k].id
    }

    /// A copy of the texts in display order, ready for encoding.
    pub fn texts_vec(&self) -> (texts: Vec<String>)
        ensures
            texts.deep_view() == self.texts(),
    {
        let n = self.templates.len();
        let mut texts: Vec<String> = Vec::new();
        let mut k: usize = 0;
        while k < n
            invariant
                k <= n,
                n == self.templates@.len(),
                texts@.len() == k,
                forall|m: int| 0 <= m < k ==> #[trigger] texts@[m]@ == self.templates@[m].text@,
            decreases n - k,
        {
            texts.push(self.templates[k].text.clone());
            k = k + 1;
        }
        proof {
            assert(texts.deep_view() =~= self.texts());
        }
        texts
    }
}


} // verus!

