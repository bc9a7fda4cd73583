//! Icon glyphs: the lookup tables keyed by name and by extension, and the
//! default glyph of each kind of entry.
use vstd::prelude::*;

verus! {

/// phf's static map type, opaque here: its contents are `table_contents`.
#[verifier::external_type_specification]
#[verifier::external_body]
#[verifier::reject_recursive_types(K)]
#[verifier::reject_recursive_types(V)]
pub struct ExPhfMap<K: 'static, V: 'static>(phf::Map<K, V>);

/// What a static glyph table maps each key to.
pub uninterp spec fn table_contents(m: phf::Map<&'static str, &'static str>) -> Map<
    Seq<char>,
    Seq<char>,
>;

/// Relies on `phf::Map::get`: the value stored under `key`, or `None` where the
/// table holds no such key.
#[verifier::external_body]
fn table_get(m: &phf::Map<&'static str, &'static str>, key: &str) -> (r: Option<&'static str>)
    ensures
        r is Some <==> table_contents(*m).contains_key(key@),
        r is Some ==> r->0@ == table_contents(*m)[key@],
{
    m.get(key).copied()
}

/// The two glyph tables: one keyed by exact entry name, one by extension.
pub struct Icons {
    pub by_name: &'static phf::Map<&'static str, &'static str>,
    pub by_extension: &'static phf::Map<&'static str, &'static str>,
}

impl Icons {
    pub open spec fn names(&self) -> Map<Seq<char>, Seq<char>> {
        table_contents(*self.by_name)
    }

    pub open spec fn extensions(&self) -> Map<Seq<char>, Seq<char>> {
        table_contents(*self.by_extension)
    }

    pub fn new(
        by_name: &'static phf::Map<&'static str, &'static str>,
        by_extension: &'static phf::Map<&'static str, &'static str>,
    ) -> (r: Icons)
        ensures
            r.by_name == by_name,
            r.by_extension == by_extension,
    {
        Icons { by_name, by_extension }
    }

    /// The glyph stored for an exact entry name.
    pub fn name_glyph(&self, name: &str) -> (r: Option<&'static str>)
        ensures
            r is Some <==> self.names().contains_key(name@),
            r is Some ==> r->0@ == self.names()[name@],
    {
        table_get(self.by_name, name)
    }

    /// The glyph stored for an extension (without its dot).
    pub fn extension_glyph(&self, ext: &str) -> (r: Option<&'static str>)
        ensures
            r is Some <==> self.extensions().contains_key(ext@),
            r is Some ==> r->0@ == self.extensions()[ext@],
    {
        table_get(self.by_extension, ext)
    }
}

} // verus!
