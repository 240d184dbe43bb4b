//! Where the layers of a stack come from.

use crate::base::layer::codec::Segment;
use crate::base::layer::Layer;
use crate::errors::Error;
use vstd::prelude::*;

verus! {

/// Keeps the layers of a stack: hands out the stored ones, makes room for a
/// new one on top, and removes layers again. How and where the layers are
/// kept is up to the allocator.
pub trait Allocator<'l> {
    /// The number of layers that the allocator keeps, if it keeps count of
    /// them; `None` for an allocator that keeps no count, which is what an
    /// allocator is taken for unless it says otherwise.
    open spec fn kept(&self) -> Option<nat> {
        None
    }

    /// All stored layers, oldest first, each of them sealed: as many as the
    /// allocator keeps.
    fn load_layers(&self) -> (r: Result<Vec<Layer<'l>>, Error>)
        ensures
            r matches Ok(layers) ==> forall|i: int|
                0 <= i < layers.len() ==> (#[trigger] layers[i]).wf() && !layers[i]@.heap,
            r matches Ok(layers) ==> (self.kept() matches Some(n) ==> layers@.len() == n),
    ;

    /// A new layer on top of the stored ones: open for writing and empty.
    /// The allocator then keeps one layer more; if it fails, it keeps what
    /// it kept.
    fn add_layer(&mut self) -> (r: Result<Layer<'l>, Error>)
        ensures
            r matches Ok(layer) ==> layer.wf() && layer@.heap && layer@.segments == Some(
                Seq::<Segment>::empty(),
            ),
            final(self).kept() == match old(self).kept() {
                Some(n) => Some(if r is Ok { n + 1 } else { n }),
                None => None,
            },
    ;

    /// Removes the topmost layer, if there is one.
    fn drop_top_layer(&mut self) -> (r: Result<(), Error>)
        ensures
            r is Ok ==> final(self).kept() == match old(self).kept() {
                Some(n) => Some(if n > 0 { (n - 1) as nat } else { 0 }),
                None => None,
            },
    ;

    /// Removes the layers below index `top_layer` and moves the others down
    /// to start at index 0, in their order.
    fn rebase(&mut self, top_layer: usize) -> (r: Result<(), Error>)
        ensures
            r is Ok ==> match old(self).kept() {
                Some(n) => top_layer <= n ==> final(self).kept() == Some((n - top_layer) as nat),
                None => final(self).kept() is None,
            },
    ;
}

} // verus!
