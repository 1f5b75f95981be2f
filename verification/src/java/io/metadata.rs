//! The table of class descriptions that a writer consults, keyed by type name.
use vstd::prelude::*;
use crate::java::io::bytes::bytes_eq;

verus! {

/// What is known of a class: its Java name, its serial version UID and how
/// many fields it declares (as the 16-bit number that is written).
pub struct ClassMeta {
    pub java_name: Vec<u8>,
    pub uid: u64,
    pub field_count: u16,
}

/// The mathematical form of a `ClassMeta`.
pub struct ClassMetaView {
    pub java_name: Seq<u8>,
    pub uid: u64,
    pub field_count: u16,
}

impl View for ClassMeta {
    type V = ClassMetaView;

    open spec fn view(&self) -> ClassMetaView {
        ClassMetaView { java_name: self.java_name@, uid: self.uid, field_count: self.field_count }
    }
}

impl ClassMeta {
    pub fn clone_meta(&self) -> (r: ClassMeta)
        ensures
            r@ == self@,
    {
        let mut name: Vec<u8> = Vec::new();
        crate::java::io::bytes::push_all(&mut name, self.java_name.as_slice());
        ClassMeta { java_name: name, uid: self.uid, field_count: self.field_count }
    }
}

/// One recorded insertion.
pub struct MetaEntry {
    pub key: Vec<u8>,
    pub meta: ClassMeta,
}

/// A map from type names to class descriptions. Inserting a name that is
/// already there replaces its description.
pub struct MetadataTable {
    entries: Vec<MetaEntry>,
}

/// The description that the last insertion of `key` among `entries` recorded.
pub open spec fn lookup(entries: Seq<MetaEntry>, key: Seq<u8>) -> Option<ClassMetaView>
    decreases entries.len(),
{
    if entries.len() == 0 {
        None
    } else if entries.last().key@ == key {
        Some(entries.last().meta@)
    } else {
        lookup(entries.drop_last(), key)
    }
}

impl View for MetadataTable {
    type V = Map<Seq<u8>, ClassMetaView>;

    closed spec fn view(&self) -> Map<Seq<u8>, ClassMetaView> {
        Map::new(
            |k: Seq<u8>| lookup(self.entries@, k) is Some,
            |k: Seq<u8>| lookup(self.entries@, k)->0,
        )
    }
}

impl MetadataTable {
    pub fn new() -> (t: MetadataTable)
        ensures
            t@ == Map::<Seq<u8>, ClassMetaView>::empty(),
    {
        let t = MetadataTable { entries: Vec::new() };
        assert(t@ =~= Map::<Seq<u8>, ClassMetaView>::empty());
        t
    }

    pub fn insert(&mut self, key: Vec<u8>, meta: ClassMeta)
        ensures
            final(self)@ == old(self)@.insert(key@, meta@),
    {
        let ghost k = key@;
        let ghost m = meta@;
        self.entries.push(MetaEntry { key, meta });
        assert(self.entries@.drop_last() =~= old(self).entries@);
        assert(self@ =~= old(self)@.insert(k, m));
    }

    pub fn get(&self, key: &[u8]) -> (r: Option<&ClassMeta>)
        ensures
            match r {
                Some(m) => self@.contains_key(key@) && self@[key@] == m@,
                None => !self@.contains_key(key@),
            },
    {
        let mut i = self.entries.len();
        assert(self.entries@.take(i as int) =~= self.entries@);
        while i > 0
            invariant
                i <= self.entries@.len(),
                lookup(self.entries@, key@) == lookup(self.entries@.take(i as int), key@),
            decreases i,
        {
            let e = &self.entries[i - 1];
            assert(self.entries@.take(i as int).drop_last() =~= self.entries@.take(i - 1));
            if bytes_eq(e.key.as_slice(), key) {
                return Some(&e.meta);
            }
            i = i - 1;
        }
        None
    }
}

} // verus!
