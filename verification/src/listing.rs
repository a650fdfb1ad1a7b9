//! The flat listings: which entries of a directory are shown, and what is
//! shown of each.

use crate::entry::{hidden_name, is_hidden, model_is_dir, models, EntryKind, RawEntry, RawEntryModel, Timestamp};
use crate::text::{
    digits, display_name, display_name_of, lookup_account, owner_of, owner_text,
    permission_bits, permission_text, text_view,
};
use vstd::prelude::*;

verus! {

/// One entry as it is listed. A field that could not be had is `None`; it is
/// never filled with a made-up value.
#[derive(Clone, Debug, PartialEq, Eq)]
pub struct ClassifiedEntry {
    pub name: String,
    pub kind: EntryKind,
    pub size_bytes: u64,
    pub modified: Option<Timestamp>,
    pub permissions: Option<String>,
    pub owner: Option<String>,
}

/// The mathematical value of a [`ClassifiedEntry`].
pub struct ClassifiedModel {
    pub name: Seq<char>,
    pub kind: EntryKind,
    pub size_bytes: u64,
    pub modified: Option<Timestamp>,
    pub permissions: Option<Seq<char>>,
    pub owner: Option<Seq<char>>,
}

impl View for ClassifiedEntry {
    type V = ClassifiedModel;

    open spec fn view(&self) -> ClassifiedModel {
        ClassifiedModel {
            name: self.name@,
            kind: self.kind,
            size_bytes: self.size_bytes,
            modified: self.modified,
            permissions: text_view(self.permissions),
            owner: text_view(self.owner),
        }
    }
}

/// The models of a sequence of listed entries, in the same order.
pub open spec fn classified_models(entries: Seq<ClassifiedEntry>) -> Seq<ClassifiedModel> {
    entries.map_values(|e: ClassifiedEntry| e@)
}

/// Whether an entry with this name is shown.
pub open spec fn shown(name: Seq<u8>, show_hidden: bool) -> bool {
    show_hidden || !hidden_name(name)
}

/// The entries of a directory that are shown, in the order they were read.
pub open spec fn visible(entries: Seq<RawEntryModel>, show_hidden: bool) -> Seq<RawEntryModel> {
    entries.filter(|e: RawEntryModel| shown(e.name, show_hidden))
}

/// The entries of a directory that are hidden, in the order they were read.
pub open spec fn concealed(entries: Seq<RawEntryModel>) -> Seq<RawEntryModel> {
    entries.filter(|e: RawEntryModel| hidden_name(e.name))
}

/// The kind of an entry: a directory where its metadata says so, a file
/// otherwise, also where the metadata could not be read.
pub open spec fn kind_of(e: RawEntryModel) -> EntryKind {
    if model_is_dir(e) {
        EntryKind::Directory
    } else {
        EntryKind::File
    }
}

/// What the compact listing shows of an entry: name, kind, size and
/// modification time. Without metadata the size is zero and the time absent.
pub open spec fn compact_model(e: RawEntryModel) -> ClassifiedModel {
    ClassifiedModel {
        name: display_name_of(e.name),
        kind: kind_of(e),
        size_bytes: match e.meta {
            Some(m) => m.len,
            None => 0,
        },
        modified: match e.meta {
            Some(m) => m.modified,
            None => None,
        },
        permissions: None,
        owner: None,
    }
}

/// What the detailed listing shows of an entry, given what the lookup of its
/// owner's account answered: the compact fields, the permission bits in
/// octal and the owner. Without metadata both are absent.
pub open spec fn detailed_model(e: RawEntryModel, account: Option<Seq<char>>) -> ClassifiedModel {
    ClassifiedModel {
        permissions: match e.meta {
            Some(m) => Some(digits(permission_bits(m.mode), 8)),
            None => None,
        },
        owner: match e.meta {
            Some(m) => Some(owner_of(m.uid, account)),
            None => None,
        },
        ..compact_model(e)
    }
}

/// With hidden entries shown every entry is listed. Without, no listed
/// entry is hidden, and the entries left out are exactly the hidden ones:
/// the listed and the hidden entries together are the entries of the
/// directory, each as often as it was read.
pub proof fn lemma_visibility_partitions(entries: Seq<RawEntryModel>)
    ensures
        visible(entries, true) == entries,
        forall|i: int|
            0 <= i < visible(entries, false).len() ==> !hidden_name(
                (#[trigger] visible(entries, false)[i]).name,
            ),
        forall|i: int|
            0 <= i < concealed(entries).len() ==> hidden_name(
                (#[trigger] concealed(entries)[i]).name,
            ),
        visible(entries, false).to_multiset().add(concealed(entries).to_multiset())
            == entries.to_multiset(),
    decreases entries.len(),
{
    broadcast use vstd::seq_lib::group_to_multiset_ensures;

    reveal(Seq::filter);
    let all = |e: RawEntryModel| shown(e.name, true);
    let open = |e: RawEntryModel| shown(e.name, false);
    let shut = |e: RawEntryModel| hidden_name(e.name);
    if entries.len() == 0 {
        assert(visible(entries, false).to_multiset().add(concealed(entries).to_multiset())
            =~= entries.to_multiset());
    } else {
        let front = entries.drop_last();
        let e = entries.last();
        lemma_visibility_partitions(front);
        assert(front.push(e) =~= entries);
        assert(entries.filter(all) =~= entries);
        assert forall|i: int| 0 <= i < entries.filter(open).len() implies !hidden_name(
            (#[trigger] entries.filter(open)[i]).name,
        ) by {
            entries.lemma_filter_pred(open, i);
        }
        assert forall|i: int| 0 <= i < entries.filter(shut).len() implies hidden_name(
            (#[trigger] entries.filter(shut)[i]).name,
        ) by {
            entries.lemma_filter_pred(shut, i);
        }
        assert(front.to_multiset().insert(e) =~= entries.to_multiset());
        assert(visible(entries, false).to_multiset().add(concealed(entries).to_multiset())
            =~= entries.to_multiset());
    }
}

/// The entries that are shown, in the order they were read.
pub fn visible_entries(entries: &Vec<RawEntry>, show_hidden: bool) -> (kept: Vec<RawEntry>)
    ensures
        models(kept@) == visible(models(entries@), show_hidden),
{
    let ghost keep = |e: RawEntryModel| shown(e.name, show_hidden);
    let mut kept: Vec<RawEntry> = Vec::new();
    let mut i: usize = 0;
    proof {
        reveal(Seq::filter);
        assert(models(entries@).take(0) =~= Seq::empty());
        assert(models(kept@) =~= Seq::empty());
    }
    while i < entries.len()
        invariant
            i <= entries.len(),
            keep == |e: RawEntryModel| shown(e.name, show_hidden),
            models(kept@) == models(entries@).take(i as int).filter(keep),
        decreases entries.len() - i,
    {
        let ghost before = models(kept@);
        proof {
            reveal(Seq::filter);
            let upto = models(entries@).take(i + 1);
            assert(upto.drop_last() =~= models(entries@).take(i as int));
            assert(upto.last() == entries@[i as int]@);
        }
        if show_hidden || !is_hidden(&entries[i].name) {
            kept.push(entries[i].duplicate());
            assert(models(kept@) =~= before.push(entries@[i as int]@));
        }
        i += 1;
    }
    assert(models(entries@).take(i as int) =~= models(entries@));
    kept
}

/// The compact record of one entry.
pub fn classify_compact(e: &RawEntry) -> (listed: ClassifiedEntry)
    ensures
        listed@ == compact_model(e@),
{
    match e.meta {
        Some(m) => ClassifiedEntry {
            name: display_name(&e.name),
            kind: e.kind(),
            size_bytes: m.len,
            modified: m.modified,
            permissions: None,
            owner: None,
        },
        None => ClassifiedEntry {
            name: display_name(&e.name),
            kind: EntryKind::File,
            size_bytes: 0,
            modified: None,
            permissions: None,
            owner: None,
        },
    }
}

/// The detailed record of one entry, given what the lookup of its owner's
/// account answered.
pub fn classify_detailed(e: &RawEntry, account: Option<String>) -> (listed: ClassifiedEntry)
    ensures
        listed@ == detailed_model(e@, text_view(account)),
{
    match e.meta {
        Some(m) => ClassifiedEntry {
            name: display_name(&e.name),
            kind: e.kind(),
            size_bytes: m.len,
            modified: m.modified,
            permissions: Some(permission_text(m.mode)),
            owner: Some(owner_text(m.uid, account)),
        },
        None => ClassifiedEntry {
            name: display_name(&e.name),
            kind: EntryKind::File,
            size_bytes: 0,
            modified: None,
            permissions: None,
            owner: None,
        },
    }
}

/// The compact listing of a directory: one record for each entry that is
/// shown, in the order the entries were read.
pub fn list_compact(entries: &Vec<RawEntry>, show_hidden: bool) -> (listed: Vec<ClassifiedEntry>)
    ensures
        classified_models(listed@) == visible(models(entries@), show_hidden).map_values(
            |e: RawEntryModel| compact_model(e),
        ),
{
    let kept = visible_entries(entries, show_hidden);
    let mut listed: Vec<ClassifiedEntry> = Vec::new();
    let mut i: usize = 0;
    while i < kept.len()
        invariant
            i <= kept.len(),
            classified_models(listed@) == models(kept@).take(i as int).map_values(
                |e: RawEntryModel| compact_model(e),
            ),
        decreases kept.len() - i,
    {
        let ghost before = classified_models(listed@);
        listed.push(classify_compact(&kept[i]));
        proof {
            assert(classified_models(listed@) =~= before.push(compact_model(kept@[i as int]@)));
            assert(models(kept@).take(i + 1) =~= models(kept@).take(i as int).push(
                kept@[i as int]@,
            ));
        }
        i += 1;
    }
    assert(models(kept@).take(i as int) =~= models(kept@));
    listed
}

/// `listed` is the detailed record of `e` for some answer of the account
/// lookup.
pub open spec fn is_detailed_record(e: RawEntryModel, listed: ClassifiedModel) -> bool {
    exists|account: Option<Seq<char>>| listed == detailed_model(e, account)
}

/// `listed` is a detailed listing of `shown`: record for record the
/// detailed record of the entry.
pub open spec fn is_detailed_listing(shown: Seq<RawEntryModel>, listed: Seq<ClassifiedModel>) -> bool {
    &&& listed.len() == shown.len()
    &&& forall|i: int| 0 <= i < shown.len() ==> is_detailed_record(shown[i], #[trigger] listed[i])
}

/// The detailed listing of a directory: one record for each entry that is
/// shown, in the order the entries were read. The owner of each entry with
/// metadata is looked up in the system's user database.
pub fn list_detailed(entries: &Vec<RawEntry>, show_hidden: bool) -> (listed: Vec<ClassifiedEntry>)
    ensures
        is_detailed_listing(visible(models(entries@), show_hidden), classified_models(listed@)),
{
    let kept = visible_entries(entries, show_hidden);
    let mut listed: Vec<ClassifiedEntry> = Vec::new();
    let mut i: usize = 0;
    while i < kept.len()
        invariant
            i <= kept.len(),
            is_detailed_listing(models(kept@).take(i as int), classified_models(listed@)),
        decreases kept.len() - i,
    {
        let ghost before = classified_models(listed@);
        let account = match kept[i].meta {
            Some(m) => lookup_account(m.uid),
            None => None,
        };
        let ghost answer = text_view(account);
        let record = classify_detailed(&kept[i], account);
        listed.push(record);
        proof {
            let now = classified_models(listed@);
            let upto = models(kept@).take(i + 1);
            assert(now =~= before.push(detailed_model(kept@[i as int]@, answer)));
            assert forall|j: int| 0 <= j < upto.len() implies is_detailed_record(
                upto[j],
                #[trigger] now[j],
            ) by {
                if j < i {
                    assert(now[j] == before[j]);
                    assert(upto[j] == models(kept@).take(i as int)[j]);
                } else {
                    assert(now[j] == detailed_model(upto[j], answer));
                }
            }
        }
        i += 1;
    }
    assert(models(kept@).take(i as int) =~= models(kept@));
    listed
}

} // verus!
