//! Catalog variants: one selectable texture tile with its chunk-resolution
//! average-color grid and its block metadata. The catalog is an ordered
//! vector; its order is the deterministic tie-break order of the engine, and
//! index 0 is always the built-in empty/air variant.

use vstd::prelude::*;
use crate::color::Rgba8;
use crate::grid::PixelGrid;

verus! {

/// One selectable variant: a unique identifier, the R x R average-color
/// grid it is matched by, the block identifier it stands for, and its
/// optional property mapping (unordered keys).
pub struct Variant {
    pub id: String,
    pub colors: PixelGrid,
    pub block_id: String,
    pub properties: Option<Vec<(String, String)>>,
}

impl Variant {
    /// The variant's color grid is square with the configured resolution.
    pub open spec fn wf(self, resolution: int) -> bool {
        &&& self.colors.wf()
        &&& self.colors.width == resolution
        &&& self.colors.height == resolution
    }
}

/// A catalog is usable at resolution `r` when every variant's grid has that
/// resolution and entry 0 is the built-in air variant.
pub open spec fn catalog_wf(catalog: Seq<Variant>, r: int) -> bool {
    &&& catalog.len() > 0
    &&& forall|i: int| 0 <= i < catalog.len() ==> #[trigger] catalog[i].wf(r)
    &&& catalog[0].block_id@ == "minecraft:air"@
    &&& catalog[0].properties is None
}

/// The built-in empty/air variant: a fully transparent grid and the fixed
/// air block identifier, with no properties.
pub fn air_variant(resolution: usize) -> (v: Variant)
    requires
        resolution * resolution <= usize::MAX,
    ensures
        v.wf(resolution as int),
        v.id@ == "air"@,
        v.block_id@ == "minecraft:air"@,
        v.properties is None,
        forall|x: int, y: int|
            0 <= x < resolution && 0 <= y < resolution ==> #[trigger] v.colors.px(x, y) == (Rgba8 {
                r: 0u8,
                g: 0u8,
                b: 0u8,
                a: 0u8,
            }),
{
    Variant {
        id: "air".to_owned(),
        colors: PixelGrid::uniform(resolution, resolution, Rgba8::transparent()),
        block_id: "minecraft:air".to_owned(),
        properties: None,
    }
}

} // verus!
