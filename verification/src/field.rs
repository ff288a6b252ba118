use vstd::prelude::*;

verus! {

/// The noise crate's permutation table, held opaquely: a fixed 256-entry
/// byte table built once from a seed and read by every lattice hash.
#[verifier::external_type_specification]
#[verifier::external_body]
pub struct ExPermutationTable(noise::permutationtable::PermutationTable);

/// The byte entries a permutation table holds.
pub uninterp spec fn table_contents(t: noise::permutationtable::PermutationTable) -> Seq<u8>;

/// The contents of the table the noise crate builds from a seed.
pub uninterp spec fn seeded_table(seed: u32) -> Seq<u8>;

/// What the noise crate's lattice hash returns for a table with the given
/// contents at a four-coordinate integer point.
pub uninterp spec fn table_hash_of(table: Seq<u8>, x: int, y: int, z: int, w: int) -> u8;

/// The noise field chunk generation samples: the fixed-seed table's hash at
/// an integer lattice point. Opaque, but a pure function of the coordinates,
/// which is what the streaming engine's determinism rests on.
pub open spec fn field_noise(x: int, y: int, z: int, w: int) -> u8 {
    table_hash_of(seeded_table(0), x, y, z, w)
}

/// Relies on noise's `PermutationTable::new`: it builds the table
/// deterministically from the seed alone (a seeded XorShift shuffle of the
/// bytes 0 through 255).
#[verifier::external_body]
pub(crate) fn seed_table(seed: u32) -> (t: noise::permutationtable::PermutationTable)
    ensures
        table_contents(t) == seeded_table(seed),
{
    noise::permutationtable::PermutationTable::new(seed)
}

/// Relies on noise's `NoiseHasher::hash` for `PermutationTable`: it folds
/// the coordinates through the table's bytes and returns one of them, so the
/// result depends on the table contents and the coordinates alone.
#[verifier::external_body]
pub(crate) fn lattice_noise(
    t: &noise::permutationtable::PermutationTable,
    x: i64,
    y: i64,
    z: i64,
    w: i64,
) -> (r: u8)
    ensures
        r == table_hash_of(table_contents(*t), x as int, y as int, z as int, w as int),
{
    let h = noise::permutationtable::NoiseHasher::hash(
        t,
        &[x as isize, y as isize, z as isize, w as isize],
    );
    h as u8
}

} // verus!
