//! The entries of an image file directory and the order in which they stand in it.

use crate::tags::type_size;
use std::collections::BTreeMap;
use vstd::prelude::*;
use vstd::std_specs::cmp::OrdSpec;
use vstd::std_specs::iter::IteratorSpec;

verus! {

/// An entry of a directory, without its tag.
#[derive(Debug, Clone)]
pub struct DirectoryEntry {
    /// The number of the type of the values.
    pub data_type: u16,
    /// How many values there are.
    pub count: u64,
    /// The values, as they stand in the file.
    pub data: Vec<u8>,
}

/// What a directory entry holds.
#[verifier::ext_equal]
pub struct Field {
    pub data_type: u16,
    pub count: u64,
    pub data: Seq<u8>,
}

impl View for DirectoryEntry {
    type V = Field;

    open spec fn view(&self) -> Field {
        Field { data_type: self.data_type, count: self.count, data: self.data@ }
    }
}

impl Field {
    /// Whether the type is known and the data has the length that type and count call for.
    pub open spec fn well_formed(self) -> bool {
        &&& type_size(self.data_type) > 0
        &&& self.data.len() == type_size(self.data_type) * self.count
    }
}

/// What the entries of a directory hold, by tag.
pub type Fields = Map<u16, Field>;

/// What the entries in `ifd` hold, by tag.
pub open spec fn fields_of(ifd: Map<u16, DirectoryEntry>) -> Fields {
    ifd.map_values(|entry: DirectoryEntry| entry@)
}

/// Whether every entry has a known type and the length that its type and count call for.
pub open spec fn all_well_formed(fields: Fields) -> bool {
    forall|tag: u16| #[trigger] fields.contains_key(tag) ==> fields[tag].well_formed()
}

/// The entries with tags below `bound`, in ascending order of their tags.
pub open spec fn sorted_below(fields: Fields, bound: nat) -> Seq<(u16, Field)>
    decreases bound,
{
    if bound == 0 {
        Seq::empty()
    } else {
        let tag = (bound - 1) as u16;
        let lower = sorted_below(fields, (bound - 1) as nat);
        if fields.contains_key(tag) {
            lower.push((tag, fields[tag]))
        } else {
            lower
        }
    }
}

/// All entries, in ascending order of their tags.
pub open spec fn sorted(fields: Fields) -> Seq<(u16, Field)> {
    sorted_below(fields, 0x1_0000)
}

/// Whether `listing` holds entries of `fields` only, in ascending order, with all tags below
/// `bound` and with all entries of `fields` that have such a tag.
spec fn lists_below(listing: Seq<(u16, Field)>, fields: Fields, bound: nat) -> bool {
    &&& forall|i: int, j: int|
        #![trigger listing[i], listing[j]]
        0 <= i < j < listing.len() ==> listing[i].0 < listing[j].0
    &&& forall|i: int|
        0 <= i < listing.len() ==> {
            &&& (#[trigger] listing[i]).0 < bound
            &&& fields.contains_key(listing[i].0)
            &&& fields[listing[i].0] == listing[i].1
        }
    &&& forall|tag: u16| #[trigger]
        fields.contains_key(tag) && tag < bound ==> exists|i: int|
            0 <= i < listing.len() && (#[trigger] listing[i]).0 == tag
}

proof fn lemma_sorted_below(fields: Fields, bound: nat)
    requires
        bound <= 0x1_0000,
    ensures
        lists_below(sorted_below(fields, bound), fields, bound),
        sorted_below(fields, bound).len() <= bound,
    decreases bound,
{
    if bound > 0 {
        let lower = sorted_below(fields, (bound - 1) as nat);
        let all = sorted_below(fields, bound);
        lemma_sorted_below(fields, (bound - 1) as nat);
        assert forall|tag: u16| #[trigger]
            fields.contains_key(tag) && tag < bound implies exists|i: int|
            0 <= i < all.len() && (#[trigger] all[i]).0 == tag by {
            if tag == bound - 1 {
                assert(all[all.len() - 1].0 == tag);
            } else {
                let i = choose|i: int| 0 <= i < lower.len() && (#[trigger] lower[i]).0 == tag;
                assert(all[i] == lower[i]);
            }
        }
    }
}

proof fn lemma_listing_is_sorted(listing: Seq<(u16, Field)>, fields: Fields, bound: nat)
    requires
        bound <= 0x1_0000,
        lists_below(listing, fields, bound),
    ensures
        listing == sorted_below(fields, bound),
    decreases bound,
{
    if bound == 0 {
        if listing.len() > 0 {
            assert(listing[0].0 < 0);
        }
        assert(listing =~= Seq::empty());
    } else {
        let tag = (bound - 1) as u16;
        let fewer = (bound - 1) as nat;
        if fields.contains_key(tag) {
            let k = choose|i: int| 0 <= i < listing.len() && (#[trigger] listing[i]).0 == tag;
            let last = listing.len() - 1;
            if k < last {
                assert(listing[k].0 < listing[last].0);
            }
            let lower = listing.drop_last();
            assert forall|t: u16| #[trigger] fields.contains_key(t) && t < fewer implies exists|
                i: int,
            |
                0 <= i < lower.len() && (#[trigger] lower[i]).0 == t by {
                let i = choose|i: int| 0 <= i < listing.len() && (#[trigger] listing[i]).0 == t;
                assert(i != last);
                assert(lower[i] == listing[i]);
            }
            assert forall|i: int| 0 <= i < lower.len() implies (#[trigger] lower[i]).0 < fewer by {
                assert(listing[i].0 < listing[last].0);
            }
            assert forall|i: int, j: int| 0 <= i < j < lower.len() implies (
            #[trigger] lower[i]).0 < (#[trigger] lower[j]).0 by {
                assert(listing[i].0 < listing[j].0);
            }
            lemma_listing_is_sorted(lower, fields, fewer);
            assert(listing =~= lower.push(listing[last]));
        } else {
            lemma_listing_is_sorted(listing, fields, fewer);
        }
    }
}

/// The tags of a directory ascend, and its entries are those of the directory, each one once.
pub proof fn lemma_sorted(fields: Fields)
    ensures
        forall|i: int, j: int|
            #![trigger sorted(fields)[i], sorted(fields)[j]]
            0 <= i < j < sorted(fields).len() ==> sorted(fields)[i].0 < sorted(fields)[j].0,
        forall|i: int|
            0 <= i < sorted(fields).len() ==> fields.contains_key((#[trigger] sorted(fields)[i]).0)
                && fields[sorted(fields)[i].0] == sorted(fields)[i].1,
        forall|tag: u16| #[trigger]
            fields.contains_key(tag) ==> exists|i: int|
                0 <= i < sorted(fields).len() && (#[trigger] sorted(fields)[i]).0 == tag,
        sorted(fields).len() <= 0x1_0000,
{
    lemma_sorted_below(fields, 0x1_0000);
    assert forall|tag: u16| #[trigger] fields.contains_key(tag) implies exists|i: int|
        0 <= i < sorted(fields).len() && (#[trigger] sorted(fields)[i]).0 == tag by {
        let i = choose|i: int|
            0 <= i < sorted_below(fields, 0x1_0000).len() && (#[trigger] sorted_below(
                fields,
                0x1_0000,
            )[i]).0 == tag;
        assert(sorted(fields)[i].0 == tag);
    }
}

/// Tags are ordered as numbers are.
pub proof fn lemma_tag_order()
    ensures
        vstd::laws_cmp::obeys_cmp::<u16>(),
        vstd::std_specs::btree::key_obeys_cmp_spec::<u16>(),
        forall|tags: Seq<u16>, i: int, j: int|
            #![trigger vstd::std_specs::btree::increasing_seq(tags), tags[i], tags[j]]
            vstd::std_specs::btree::increasing_seq(tags) && 0 <= i < j < tags.len() ==> tags[i]
                < tags[j],
{
    broadcast use vstd::laws_cmp::group_laws_cmp;
    broadcast use vstd::std_specs::btree::group_btree_axioms;

    assert forall|tags: Seq<u16>, i: int, j: int|
        #![trigger vstd::std_specs::btree::increasing_seq(tags), tags[i], tags[j]]
        vstd::std_specs::btree::increasing_seq(tags) && 0 <= i < j < tags.len() implies tags[i]
        < tags[j] by {
        vstd::std_specs::btree::axiom_increasing_seq_meaning(tags);
        assert(tags[i].cmp_spec(&tags[j]) is Less);
    }
}

/// The entries of `ifd` in ascending order of their tags.
pub(crate) fn listing<'a>(ifd: &'a BTreeMap<u16, DirectoryEntry>) -> (list: Vec<
    (u16, &'a DirectoryEntry),
>)
    ensures
        list@.len() == sorted(fields_of(ifd@)).len(),
        forall|i: int|
            0 <= i < list@.len() ==> ((#[trigger] list@[i]).0, list@[i].1@) == sorted(
                fields_of(ifd@),
            )[i],
{
    proof {
        lemma_tag_order();
    }
    let mut list: Vec<(u16, &'a DirectoryEntry)> = Vec::new();
    let entries = ifd.iter();
    let ghost all = entries.remaining();
    let ghost tags = all.map_values(|pair: (&u16, &DirectoryEntry)| *pair.0);
    let ghost fields = fields_of(ifd@);
    assert(vstd::std_specs::btree::increasing_seq(tags));
    for (tag, entry) in it: entries
        invariant
            it.seq() == all,
            list@.len() == it.index(),
            forall|i: int|
                0 <= i < list@.len() ==> (#[trigger] list@[i]).0 == *all[i].0 && list@[i].1
                    == all[i].1,
    {
        list.push((*tag, entry));
    }
    proof {
        let found = list@.map_values(|pair: (u16, &DirectoryEntry)| (pair.0, pair.1@));
        assert forall|i: int, j: int|
            #![trigger found[i], found[j]]
            0 <= i < j < found.len() implies found[i].0 < found[j].0 by {
            assert(tags[i] < tags[j]);
        }
        assert forall|i: int| 0 <= i < found.len() implies {
            &&& (#[trigger] found[i]).0 < 0x1_0000
            &&& fields.contains_key(found[i].0)
            &&& fields[found[i].0] == found[i].1
        } by {
            assert(ifd@.contains_key(*all[i].0));
        }
        assert forall|tag: u16| #[trigger] fields.contains_key(tag) implies exists|i: int|
            0 <= i < found.len() && (#[trigger] found[i]).0 == tag by {
            assert(ifd@.contains_key(tag));
            assert(all.contains((&tag, &ifd@[tag])));
            let i = choose|i: int| 0 <= i < all.len() && all[i] == (&tag, &ifd@[tag]);
            assert(found[i].0 == tag);
        }
        lemma_listing_is_sorted(found, fields, 0x1_0000);
    }
    list
}

} // verus!
