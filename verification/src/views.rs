//! Plot view registry: the set of currently open plot windows.
//!
//! Views are created on user request, closed by flipping their `is_open`
//! flag, and swept out by [`ViewRegistry::purge_closed`] once per redraw
//! pass before the views are iterated for drawing.  Closing is deferred on
//! purpose: the flag flips while the view list may still be iterated, and
//! removal happens only at the next sweep.

use vstd::pervasive::VecAdditionalExecFns;
use vstd::prelude::*;

use crate::store::DataType;

verus! {

/// One open, user-visible plot window.  Title and kind are snapshots taken
/// when the window was created; later changes of the shell's current
/// selection never touch them.
pub struct PlotView {
    pub title: String,
    pub kind: DataType,
    pub is_open: bool,
}

impl Clone for PlotView {
    fn clone(&self) -> (r: Self)
        ensures
            r == *self,
    {
        PlotView { title: self.title.clone(), kind: self.kind, is_open: self.is_open }
    }
}

impl Default for PlotView {
    /// The placeholder window the shell starts a selection from.
    fn default() -> (r: Self)
        ensures
            r.title@ == "Hello World!"@,
            r.kind == DataType::Memory,
            r.is_open,
    {
        PlotView { title: String::from_str("Hello World!"), kind: DataType::Memory, is_open: true }
    }
}

/// Whether some view in `views` is open and carries the title `title`.
pub open spec fn has_open_titled(views: Seq<PlotView>, title: Seq<char>) -> bool {
    exists|i: int| 0 <= i < views.len() && (#[trigger] views[i]).is_open && views[i].title@ == title
}

/// The sole owner of the list of open plot windows, in creation order.
/// Series data is only referenced by title/kind selection, so destroying a
/// view never touches the underlying run data.
pub struct ViewRegistry {
    pub views: Vec<PlotView>,
}

impl ViewRegistry {
    /// An empty registry; the view list always starts empty on startup and
    /// is never persisted across sessions.
    pub fn new() -> (r: ViewRegistry)
        ensures
            r.views@.len() == 0,
    {
        ViewRegistry { views: Vec::new() }
    }

    /// How many views the registry holds, open or not yet purged.
    pub fn view_count(&self) -> (n: usize)
        ensures
            n == self.views@.len(),
    {
        self.views.len()
    }

    /// Opens a new window for the given title and kind.  When an open view
    /// with the same title already exists this is a no-op — duplicate
    /// titles are rejected, never merged — so in that case the registry is
    /// left exactly as it was, with its view count unchanged.
    pub fn open_view(&mut self, title: String, kind: DataType)
        ensures
            has_open_titled(old(self).views@, title@) ==> *final(self) == *old(self),
            has_open_titled(old(self).views@, title@) ==> final(self).views@.len() == old(
                self,
            ).views@.len(),
            !has_open_titled(old(self).views@, title@) ==> final(self).views@ == old(
                self,
            ).views@.push((PlotView { title: title, kind: kind, is_open: true })),
    {
        let n = self.views.len();
        let mut i: usize = 0;
        while i < n
            invariant
                n == self.views@.len(),
                i <= n,
                forall|j: int|
                    0 <= j < i ==> !((#[trigger] self.views@[j]).is_open && self.views@[j].title@
                        == title@),
            decreases n - i,
        {
            if self.views[i].is_open && self.views[i].title == title {
                return ;
            }
            i += 1;
        }
        self.views.push(PlotView { title, kind, is_open: true });
    }

    /// Flips the `is_open` flag of every view carrying `title` to false and
    /// reports whether any view matched.  The view itself stays in the list
    /// until the next [`ViewRegistry::purge_closed`] sweep, so a list being
    /// iterated for rendering is never mutated under the iteration.
    pub fn close_view(&mut self, title: &String) -> (found: bool)
        ensures
            final(self).views@.len() == old(self).views@.len(),
            forall|i: int|
                0 <= i < old(self).views@.len() ==> final(self).views@[i] == (if old(
                    self,
                ).views@[i].title@ == title@ {
                    (PlotView { is_open: false, ..old(self).views@[i] })
                } else {
                    old(self).views@[i]
                }),
            found == exists|i: int|
                0 <= i < old(self).views@.len() && (#[trigger] old(self).views@[i]).title@
                    == title@,
    {
        let n = self.views.len();
        let mut found = false;
        let mut i: usize = 0;
        while i < n
            invariant
                n == old(self).views@.len(),
                self.views@.len() == n,
                i <= n,
                forall|j: int|
                    i <= j < n ==> #[trigger] self.views@[j] == old(self).views@[j],
                forall|j: int|
                    0 <= j < i ==> #[trigger] self.views@[j] == (if old(self).views@[j].title@
                        == title@ {
                        (PlotView { is_open: false, ..old(self).views@[j] })
                    } else {
                        old(self).views@[j]
                    }),
                found == exists|j: int|
                    0 <= j < i && (#[trigger] old(self).views@[j]).title@ == title@,
            decreases n - i,
        {
            if self.views[i].title == *title {
                let mut v = self.views[i].clone();
                v.is_open = false;
                self.views.set(i, v);
                found = true;
            }
            i += 1;
        }
        found
    }

    /// Removes every view whose `is_open` flag is false, keeping the
    /// surviving views in creation order.  Runs once per redraw pass before
    /// drawing, so a window the user closed never renders again in the next
    /// frame: afterwards no closed view remains in the registry.
    #[verifier::loop_isolation(false)]
    pub fn purge_closed(&mut self)
        ensures
            final(self).views@ == old(self).views@.filter(|v: PlotView| v.is_open),
            forall|i: int|
                0 <= i < final(self).views@.len() ==> (#[trigger] final(self).views@[i]).is_open,
    {
        let ghost pred = |v: PlotView| v.is_open;
        let n = self.views.len();
        let mut kept: Vec<PlotView> = Vec::new();
        let mut i: usize = 0;
        while i < n
            invariant
                n == self.views@.len(),
                i <= n,
                kept@ == self.views@.subrange(0, i as int).filter(pred),
                forall|j: int| 0 <= j < kept@.len() ==> (#[trigger] kept@[j]).is_open,
            decreases n - i,
        {
            let ghost prefix = self.views@.subrange(0, i as int);
            let ghost extended = self.views@.subrange(0, i + 1 as int);
            let ghost elem = self.views@[i as int];
            if self.views[i].is_open {
                kept.push(self.views[i].clone());
            }
            proof {
                assert(extended =~= prefix.push(elem));
                prefix.lemma_filter_push(elem, pred);
                assert(kept@ == extended.filter(pred));
            }
            i += 1;
        }
        proof {
            assert(self.views@.subrange(0, n as int) =~= self.views@);
        }
        self.views = kept;
    }

    /// The currently open views, in creation order, as the deterministic
    /// drawing list for this frame.
    #[verifier::loop_isolation(false)]
    pub fn list_open(&self) -> (r: Vec<PlotView>)
        ensures
            r@ == self.views@.filter(|v: PlotView| v.is_open),
    {
        let ghost pred = |v: PlotView| v.is_open;
        let n = self.views.len();
        let mut out: Vec<PlotView> = Vec::new();
        let mut i: usize = 0;
        while i < n
            invariant
                n == self.views@.len(),
                i <= n,
                out@ == self.views@.subrange(0, i as int).filter(pred),
            decreases n - i,
        {
            let ghost prefix = self.views@.subrange(0, i as int);
            let ghost extended = self.views@.subrange(0, i + 1 as int);
            if self.views[i].is_open {
                out.push(self.views[i].clone());
            }
            proof {
                assert(extended =~= prefix.push(self.views@[i as int]));
                prefix.lemma_filter_push(self.views@[i as int], pred);
                assert(out@ == extended.filter(pred));
            }
            i += 1;
        }
        proof {
            assert(self.views@.subrange(0, n as int) =~= self.views@);
        }
        out
    }
}

} // verus!
