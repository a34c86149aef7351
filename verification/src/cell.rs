//! Sparse storage of Braille cells: a hash map from cell coordinate to
//! cell content, created lazily on first write.

use vstd::prelude::*;
use std::hash::BuildHasherDefault;
use colored::Color as TermColor;

verus! {

#[verifier::external_type_specification]
#[verifier::external_body]
pub struct ExColor(TermColor);

#[verifier::external_type_specification]
#[verifier::external_body]
pub struct ExFnvHasher(fnv::FnvHasher);

#[verifier::external_type_specification]
#[verifier::external_body]
#[verifier::reject_recursive_types(H)]
pub struct ExBuildHasherDefault<H>(BuildHasherDefault<H>);

/// Content of one Braille cell: the dot bitmask, the character shown
/// verbatim while no dot is set, and the color the dots are drawn with,
/// if any.
pub struct Cell {
    pub dots: u8,
    pub ch: char,
    pub paint: Option<colored::Color>,
}

/// The sparse cell mapping, keyed by (cell column, cell row).
pub type CellMap = fnv::FnvHashMap<(u16, u16), Cell>;

/// Relies on `fnv::FnvHashMap::default` (std's `HashMap` with the FNV
/// hasher): a freshly built map is empty.
#[verifier::external_body]
pub(crate) fn store_new() -> (m: CellMap)
    ensures
        forall|k: (u16, u16)| !(#[trigger] m@.contains_key(k)),
{
    fnv::FnvHashMap::default()
}

/// Relies on `HashMap::get` with fnv's deterministic hasher: the value
/// stored under an equal key, or nothing.
#[verifier::external_body]
pub(crate) fn store_get(m: &CellMap, k: (u16, u16)) -> (r: Option<Cell>)
    ensures
        match r {
            Some(c) => m@.contains_key(k) && c == m@[k],
            None => !m@.contains_key(k),
        },
{
    m.get(&k).map(|c| Cell { dots: c.dots, ch: c.ch, paint: c.paint })
}

/// Relies on `HashMap::insert` with fnv's deterministic hasher: the map
/// afterwards holds `v` under `k` and is otherwise unchanged.
#[verifier::external_body]
pub(crate) fn store_insert(m: &mut CellMap, k: (u16, u16), v: Cell)
    ensures
        final(m)@ == old(m)@.insert(k, v),
{
    m.insert(k, v);
}

/// Relies on `HashMap::clear`: the map afterwards holds nothing.
#[verifier::external_body]
pub(crate) fn store_clear(m: &mut CellMap)
    ensures
        forall|k: (u16, u16)| !(#[trigger] final(m)@.contains_key(k)),
{
    m.clear();
}

} // verus!
