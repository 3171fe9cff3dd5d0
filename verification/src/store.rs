//! Layer / arrow store: named, independently toggleable collections of
//! directed connectors between cell identities.

use vstd::prelude::*;

use crate::cell::CellId;

verus! {

/// An RGB color with 8-bit channels.
#[derive(Clone, Copy, PartialEq, Eq, Structural, Debug)]
pub struct Color {
    pub r: u8,
    pub g: u8,
    pub b: u8,
}

/// Capability a theme type offers the cell renderer: the colors the host
/// styles a cell with. Rendering is an external collaborator, so the
/// library asks nothing of how they are used.
pub trait Catalog {
    fn background(&self) -> Color;

    fn border(&self) -> Color;
}

/// Relies on rand::random_range over a half-open integer range: the result
/// lies within the range, and the range is nonempty, so the call does not
/// panic.
#[verifier::external_body]
fn random_in(lo: i64, hi: i64) -> (r: i64)
    requires
        lo < hi,
    ensures
        lo <= r < hi,
{
    rand::random_range(lo..hi)
}

/// A directed connector between two cells; immutable once created (it is
/// replaced wholesale, never mutated). The endpoints are identities, not
/// references: an arrow may refer to a cell that no longer exists, and is
/// then skipped at paint time.
#[derive(Clone, Copy, PartialEq, Eq, Structural, Debug)]
pub struct Arrow {
    pub from: CellId,
    pub to: CellId,
    pub color: Color,
    /// Per-arrow clearance used to inflate obstacles before routing, in
    /// screen units.
    pub margin: i64,
}

impl Arrow {
    /// A new arrow with a random color and a random routing margin.
    pub fn new(from: CellId, to: CellId) -> (r: Arrow)
        ensures
            r.from == from,
            r.to == to,
            3 <= r.margin < 15,
    {
        let cr = random_in(0, 256);
        let cg = random_in(0, 256);
        let cb = random_in(0, 256);
        let margin = random_in(3, 15);
        Arrow { from, to, color: Color { r: cr as u8, g: cg as u8, b: cb as u8 }, margin }
    }
}

/// A named, toggleable group of arrows. An arrow is drawn iff its owning
/// layer is enabled.
pub struct Layer {
    pub name: String,
    pub enabled: bool,
    pub arrows: Vec<Arrow>,
    pub color: Color,
}

/// The state `Layer::new` establishes: unnamed, disabled, empty, red.
pub open spec fn layer_default(l: Layer) -> bool {
    &&& l.name@ == "Unnamed"@
    &&& !l.enabled
    &&& l.arrows@.len() == 0
    &&& l.color == (Color { r: 255, g: 0, b: 0 })
}

impl Layer {
    pub fn new() -> (r: Layer)
        ensures
            layer_default(r),
    {
        Layer {
            name: "Unnamed".to_string(),
            enabled: false,
            arrows: Vec::new(),
            color: Color { r: 255, g: 0, b: 0 },
        }
    }
}

/// Document-wide presentation settings and the layer store.
pub struct Configuration {
    pub show_border: bool,
    pub layers: Vec<Layer>,
}

impl Configuration {
    /// A fresh configuration: borders shown, one default layer.
    pub fn new() -> (r: Configuration)
        ensures
            r.show_border,
            r.layers@.len() == 1,
            layer_default(r.layers@[0]),
    {
        let mut layers: Vec<Layer> = Vec::new();
        layers.push(Layer::new());
        Configuration { show_border: true, layers }
    }

    /// Append a new default layer.
    pub fn add_layer(&mut self)
        ensures
            final(self).show_border == old(self).show_border,
            final(self).layers@.len() == old(self).layers@.len() + 1,
            forall|i: int|
                0 <= i < old(self).layers@.len() ==> #[trigger] final(self).layers@[i] == old(self).layers@[i],
            layer_default(final(self).layers@[old(self).layers@.len() as int]),
    {
        self.layers.push(Layer::new());
    }

    /// Remove the layer at `index`.
    pub fn remove_layer(&mut self, index: usize)
        requires
            (index as int) < old(self).layers@.len(),
        ensures
            final(self).show_border == old(self).show_border,
            final(self).layers@ == old(self).layers@.remove(index as int),
    {
        self.layers.remove(index);
    }

    /// Flip whether the layer at `index` is drawn.
    pub fn toggle(&mut self, index: usize)
        requires
            (index as int) < old(self).layers@.len(),
        ensures
            final(self).show_border == old(self).show_border,
            final(self).layers@.len() == old(self).layers@.len(),
            forall|i: int|
                0 <= i < final(self).layers@.len() && i != index ==> #[trigger] final(self).layers@[i] == old(self).layers@[i],
            final(self).layers@[index as int].enabled == !old(self).layers@[index as int].enabled,
            final(self).layers@[index as int].name == old(self).layers@[index as int].name,
            final(self).layers@[index as int].arrows == old(self).layers@[index as int].arrows,
            final(self).layers@[index as int].color == old(self).layers@[index as int].color,
    {
        let l = &mut self.layers[index];
        l.enabled = !l.enabled;
    }

    /// Append an arrow to the layer at `layer`.
    pub fn add_arrow(&mut self, layer: usize, arrow: Arrow)
        requires
            (layer as int) < old(self).layers@.len(),
        ensures
            final(self).show_border == old(self).show_border,
            final(self).layers@.len() == old(self).layers@.len(),
            forall|i: int|
                0 <= i < final(self).layers@.len() && i != layer ==> #[trigger] final(self).layers@[i] == old(self).layers@[i],
            final(self).layers@[layer as int].arrows@ == old(self).layers@[layer as int].arrows@.push(arrow),
            final(self).layers@[layer as int].name == old(self).layers@[layer as int].name,
            final(self).layers@[layer as int].enabled == old(self).layers@[layer as int].enabled,
            final(self).layers@[layer as int].color == old(self).layers@[layer as int].color,
    {
        let l = &mut self.layers[layer];
        l.arrows.push(arrow);
    }

    /// Remove the arrow at `index` from the layer at `layer`.
    pub fn remove_arrow(&mut self, layer: usize, index: usize)
        requires
            (layer as int) < old(self).layers@.len(),
            (index as int) < old(self).layers@[layer as int].arrows@.len(),
        ensures
            final(self).show_border == old(self).show_border,
            final(self).layers@.len() == old(self).layers@.len(),
            forall|i: int|
                0 <= i < final(self).layers@.len() && i != layer ==> #[trigger] final(self).layers@[i] == old(self).layers@[i],
            final(self).layers@[layer as int].arrows@ == old(self).layers@[layer as int].arrows@.remove(index as int),
            final(self).layers@[layer as int].name == old(self).layers@[layer as int].name,
            final(self).layers@[layer as int].enabled == old(self).layers@[layer as int].enabled,
            final(self).layers@[layer as int].color == old(self).layers@[layer as int].color,
    {
        let l = &mut self.layers[layer];
        l.arrows.remove(index);
    }
}

} // verus!
