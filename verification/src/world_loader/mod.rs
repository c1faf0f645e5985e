//! What a scene description holds, as far as the core reads it, and the rules
//! by which a scene is put together from it.

pub mod structures;

use vstd::prelude::*;

verus! {

/// An object of the scene names a material that the scene does not declare.
#[derive(Debug)]
pub struct UndeclaredMaterial {
    /// The number of the object in the scene's list.
    pub object: usize,
    /// The name that it gave.
    pub material: String,
}

/// Whether `name` is among the first `count` of the declared names.
pub open spec fn declared_before(declared: Seq<String>, name: Seq<char>, count: int) -> bool {
    exists|i: int| 0 <= i < count && (#[trigger] declared[i])@ == name
}

/// Whether `index` is the first place at which `name` is declared.
pub open spec fn declared_at(declared: Seq<String>, name: Seq<char>, index: int) -> bool {
    &&& 0 <= index < declared.len()
    &&& declared[index]@ == name
    &&& !declared_before(declared, name, index)
}

/// The place of a name among the declared names: the first at which it
/// stands, if it stands at any.
pub fn find_material(declared: &Vec<String>, name: &String) -> (place: Option<usize>)
    ensures
        place is Some <==> declared_before(declared@, name@, declared@.len() as int),
        place is Some ==> declared_at(declared@, name@, place->0 as int),
{
    let mut i: usize = 0;
    while i < declared.len()
        invariant
            0 <= i <= declared@.len(),
            !declared_before(declared@, name@, i as int),
        decreases declared@.len() - i,
    {
        if declared[i] == *name {
            return Some(i);
        }
        i += 1;
    }
    None
}

/// For each object of a scene, the place of its material among the declared
/// materials.
///
/// `wanted` holds the name that each object gives, in the order of the
/// objects. Where every name is declared, the result holds for each object
/// the first place at which its name is declared. Else the scene cannot be
/// put together, and the error names the first object whose material is not
/// declared, and the name that it gave.
pub fn resolve_materials(declared: &Vec<String>, wanted: &Vec<String>) -> (r: Result<
    Vec<usize>,
    UndeclaredMaterial,
>)
    ensures
        r is Ok <==> forall|k: int|
            0 <= k < wanted@.len() ==> declared_before(
                declared@,
                (#[trigger] wanted@[k])@,
                declared@.len() as int,
            ),
        r is Ok ==> r->Ok_0@.len() == wanted@.len() && forall|k: int|
            0 <= k < wanted@.len() ==> declared_at(
                declared@,
                wanted@[k]@,
                (#[trigger] r->Ok_0@[k]) as int,
            ),
        r is Err ==> {
            let e = r->Err_0;
            &&& e.object < wanted@.len()
            &&& e.material@ == wanted@[e.object as int]@
            &&& !declared_before(declared@, e.material@, declared@.len() as int)
            &&& forall|k: int|
                0 <= k < e.object ==> declared_before(
                    declared@,
                    (#[trigger] wanted@[k])@,
                    declared@.len() as int,
                )
        },
{
    let mut places: Vec<usize> = Vec::new();
    let mut k: usize = 0;
    while k < wanted.len()
        invariant
            0 <= k <= wanted@.len(),
            places@.len() == k,
            forall|j: int|
                0 <= j < k ==> declared_before(
                    declared@,
                    (#[trigger] wanted@[j])@,
                    declared@.len() as int,
                ),
            forall|j: int|
                0 <= j < k ==> declared_at(declared@, wanted@[j]@, (#[trigger] places@[j]) as int),
        decreases wanted@.len() - k,
    {
        match find_material(declared, &wanted[k]) {
            Some(place) => {
                places.push(place);
            },
            None => {
                return Err(UndeclaredMaterial { object: k, material: wanted[k].clone() });
            },
        }
        k += 1;
    }
    Ok(places)
}

/// The red, green and blue channels of a colour written as one number, eight
/// bits each, red above green above blue; what stands above them is dropped.
pub fn hex_channels(value: u32) -> (channels: (u8, u8, u8))
    ensures
        channels.0 == (value / 0x1_0000) % 0x100,
        channels.1 == (value / 0x100) % 0x100,
        channels.2 == value % 0x100,
{
    let blue: u32 = value % 256;
    let rest: u32 = value / 256;
    let green: u32 = rest % 256;
    let red: u32 = (rest / 256) % 256;
    (red as u8, green as u8, blue as u8)
}

/// The width of a picture of the given height whose sides are as
/// `numerator` to `denominator`: the height times the numerator, divided by
/// the denominator, the remainder dropped. There is no width where the
/// denominator is zero or the product does not fit in 32 bits.
pub fn fraction_width(image_height: u32, numerator: u32, denominator: u32) -> (width: Option<u32>)
    ensures
        width is Some <==> denominator != 0 && image_height * numerator <= u32::MAX,
        width is Some ==> width->0 == (image_height * numerator) / (denominator as int),
{
    if denominator == 0 {
        return None;
    }
    match image_height.checked_mul(numerator) {
        Some(product) => Some(product / denominator),
        None => None,
    }
}

} // verus!
