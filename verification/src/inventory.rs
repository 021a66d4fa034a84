//! Management of entity inventory and material registration.
//!
//! Materials are registered under a name tag and identified afterwards by a
//! dense 32-bit key, the position at which they were registered.  A name
//! may be registered more than once; the registration made last wins when
//! a name is looked up.  Inventories hold stacks of material and may carry
//! a mass limit.

use vstd::prelude::*;

verus! {

/// A unique ID to identify materials.
#[derive(Debug, Clone, Copy, PartialEq, Eq, Structural)]
pub struct MaterialID(u32);

impl MaterialID {
    /// The raw key value: the material's registration position.
    pub closed spec fn spec_value(self) -> u32 {
        self.0
    }
}

/// Information about a material.
#[derive(Debug)]
pub struct MaterialInfo {
    name_tag: String,
    density: u64,
    material_id: MaterialID,
}

impl MaterialInfo {
    /// The material's name tag.
    pub closed spec fn spec_name_tag(self) -> Seq<char> {
        self.name_tag@
    }

    /// The material's density.
    pub closed spec fn spec_density(self) -> u64 {
        self.density
    }

    /// The material's registry key.
    pub closed spec fn spec_id(self) -> MaterialID {
        self.material_id
    }

    /// Get the name tag for this material.
    pub fn name_tag(&self) -> (r: &str)
        ensures
            r@ == self.spec_name_tag(),
    {
        self.name_tag.as_str()
    }

    /// Get the density of the material.
    pub fn density(&self) -> (r: u64)
        ensures
            r == self.spec_density(),
    {
        self.density
    }

    /// Get the unique key for identifying this material in this registry.
    pub fn id(&self) -> (r: MaterialID)
        ensures
            r == self.spec_id(),
    {
        self.material_id
    }
}

/// A collection of information about many materials.
#[derive(Debug)]
pub struct MaterialRegistry {
    materials: Vec<MaterialInfo>,
}

impl MaterialRegistry {
    /// The registered materials, in registration order.
    pub closed spec fn spec_materials(self) -> Seq<MaterialInfo> {
        self.materials@
    }

    /// Whether some registered material carries this name tag.
    pub open spec fn contains_name(self, name: Seq<char>) -> bool {
        exists|i: int|
            0 <= i < self.spec_materials().len() && #[trigger] self.spec_materials()[i].spec_name_tag()
                == name
    }

    /// Every material's key is its registration position.
    pub open spec fn wf(self) -> bool {
        &&& self.spec_materials().len() <= 0xFFFF_FFFF
        &&& forall|i: int|
            0 <= i < self.spec_materials().len() ==> #[trigger] self.spec_materials()[i].spec_id().spec_value()
                == i
    }

    /// Create a new material registry.
    pub fn new() -> (r: MaterialRegistry)
        ensures
            r.wf(),
            r.spec_materials().len() == 0,
    {
        MaterialRegistry { materials: Vec::new() }
    }

    /// Register a new material with the registry.  The same name may be
    /// registered again; lookups then find the later registration.
    pub fn register_material(&mut self, name_tag: String, density: u64)
        requires
            old(self).wf(),
            old(self).spec_materials().len() < 0xFFFF_FFFF,
        ensures
            final(self).wf(),
            final(self).spec_materials().len() == old(self).spec_materials().len() + 1,
            forall|i: int|
                0 <= i < old(self).spec_materials().len() ==> final(self).spec_materials()[i]
                    == old(self).spec_materials()[i],
            final(self).spec_materials().last().spec_name_tag() == name_tag@,
            final(self).spec_materials().last().spec_density() == density,
            final(self).spec_materials().last().spec_id().spec_value() == old(
                self,
            ).spec_materials().len(),
    {
        let material_id = MaterialID(self.materials.len() as u32);
        self.materials.push(MaterialInfo { name_tag, density, material_id });
    }

    /// Get the ID for a material: the key of the material registered last
    /// under this name, if any.
    pub fn get_material_id(&self, name: &str) -> (r: Option<MaterialID>)
        requires
            self.wf(),
        ensures
            match r {
                Some(id) => exists|i: int|
                    0 <= i < self.spec_materials().len()
                        && #[trigger] self.spec_materials()[i].spec_name_tag() == name@ && id
                        == self.spec_materials()[i].spec_id() && (forall|j: int|
                        i < j < self.spec_materials().len()
                            ==> #[trigger] self.spec_materials()[j].spec_name_tag() != name@),
                None => !self.contains_name(name@),
            },
    {
        let owned: String = name.to_owned();
        let n = self.materials.len();
        let mut i: usize = n;
        while i > 0
            invariant
                self.wf(),
                n == self.spec_materials().len(),
                i <= n,
                owned@ == name@,
                forall|j: int|
                    i <= j < n ==> #[trigger] self.spec_materials()[j].spec_name_tag() != name@,
            decreases i,
        {
            i = i - 1;
            if self.materials[i].name_tag == owned {
                proof {
                    assert(self.spec_materials()[i as int].spec_name_tag() == name@);
                    assert(self.spec_materials()[i as int].spec_id() == self.materials@[i as int].material_id);
                }
                return Some(self.materials[i].material_id);
            }
        }
        None
    }

    /// Get information about a material by its ID.
    pub fn get_material_info(&self, material_id: MaterialID) -> (r: Option<&MaterialInfo>)
        requires
            self.wf(),
        ensures
            match r {
                Some(info) => material_id.spec_value() < self.spec_materials().len() && *info
                    == self.spec_materials()[material_id.spec_value() as int],
                None => material_id.spec_value() >= self.spec_materials().len(),
            },
    {
        let v = material_id.0 as usize;
        if v < self.materials.len() {
            Some(&self.materials[v])
        } else {
            None
        }
    }
}

/// A stack of material.
#[derive(Debug, Clone, Copy, PartialEq, Eq, Structural)]
pub struct MaterialStack {
    material: MaterialID,
    quantity: u64,
}

impl MaterialStack {
    /// The stacked material.
    pub closed spec fn spec_material(self) -> MaterialID {
        self.material
    }

    /// How much of it is stacked.
    pub closed spec fn spec_quantity(self) -> u64 {
        self.quantity
    }

    /// Create a new inventory stack of material.
    pub fn new(material: MaterialID, quantity: u64) -> (r: MaterialStack)
        ensures
            r.spec_material() == material,
            r.spec_quantity() == quantity,
    {
        MaterialStack { material, quantity }
    }
}

/// A collection of many stacks of materials.
#[derive(Debug)]
pub struct Inventory {
    material_stacks: Vec<MaterialStack>,
    mass: u64,
    mass_limit: Option<u64>,
}

impl Inventory {
    /// The inventory's stacks.
    pub closed spec fn spec_stacks(self) -> Seq<MaterialStack> {
        self.material_stacks@
    }

    /// The inventory's total mass.
    pub closed spec fn spec_mass(self) -> u64 {
        self.mass
    }

    /// The inventory's mass limit, if it has one.
    pub closed spec fn spec_mass_limit(self) -> Option<u64> {
        self.mass_limit
    }

    /// Create an inventory with a limited capacity.
    pub fn limited(mass_limit: u64) -> (r: Inventory)
        ensures
            r.spec_stacks().len() == 0,
            r.spec_mass() == 0,
            r.spec_mass_limit() == Some(mass_limit),
    {
        Inventory { material_stacks: Vec::new(), mass: 0, mass_limit: Some(mass_limit) }
    }

    /// Create an inventory with no limit to its capacity.
    pub fn infinite() -> (r: Inventory)
        ensures
            r.spec_stacks().len() == 0,
            r.spec_mass() == 0,
            r.spec_mass_limit() is None,
    {
        Inventory { material_stacks: Vec::new(), mass: 0, mass_limit: None }
    }
}

} // verus!
