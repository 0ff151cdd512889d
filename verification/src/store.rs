//! The credential store: an ordered sequence of named sections, each an
//! ordered list of key-value entries. Reconciliation touches exactly one
//! section and exactly the given keys; everything else is preserved.

use vstd::prelude::*;

verus! {

/// One key-value pair of a section.
pub struct Entry {
    pub key: String,
    pub value: String,
}

/// A named group of entries.
pub struct Section {
    pub name: String,
    pub entries: Vec<Entry>,
}

/// An ordered multi-section key-value document.
pub struct Store {
    pub sections: Vec<Section>,
}

/// Mathematical model of an entry.
#[verifier::ext_equal]
pub ghost struct EntryModel {
    pub key: Seq<char>,
    pub value: Seq<char>,
}

/// Mathematical model of a section.
#[verifier::ext_equal]
pub ghost struct SectionModel {
    pub name: Seq<char>,
    pub entries: Seq<EntryModel>,
}

impl View for Entry {
    type V = EntryModel;

    open spec fn view(&self) -> EntryModel {
        EntryModel { key: self.key@, value: self.value@ }
    }
}

impl View for Section {
    type V = SectionModel;

    open spec fn view(&self) -> SectionModel {
        SectionModel {
            name: self.name@,
            entries: self.entries@.map_values(|e: Entry| e@),
        }
    }
}

impl View for Store {
    type V = Seq<SectionModel>;

    open spec fn view(&self) -> Seq<SectionModel> {
        self.sections@.map_values(|s: Section| s@)
    }
}

/// Keys are unique within a section.
pub open spec fn entries_wf(es: Seq<EntryModel>) -> bool {
    forall|i: int, j: int| 0 <= i < j < es.len() ==> es[i].key != es[j].key
}

/// Section names are unique, and every section's keys are unique.
pub open spec fn store_wf(s: Seq<SectionModel>) -> bool {
    &&& forall|i: int, j: int| 0 <= i < j < s.len() ==> s[i].name != s[j].name
    &&& forall|i: int| 0 <= i < s.len() ==> entries_wf(#[trigger] s[i].entries)
}

/// Index of the first entry with the given key, or -1.
pub open spec fn entry_index(es: Seq<EntryModel>, key: Seq<char>) -> int
    decreases es.len(),
{
    if es.len() == 0 {
        -1
    } else if es[0].key == key {
        0
    } else {
        let r = entry_index(es.drop_first(), key);
        if r < 0 {
            -1
        } else {
            r + 1
        }
    }
}

/// Index of the first section with the given name, or -1.
pub open spec fn section_index(s: Seq<SectionModel>, name: Seq<char>) -> int
    decreases s.len(),
{
    if s.len() == 0 {
        -1
    } else if s[0].name == name {
        0
    } else {
        let r = section_index(s.drop_first(), name);
        if r < 0 {
            -1
        } else {
            r + 1
        }
    }
}

/// Some entry of `es` has this key and value.
pub open spec fn has_entry(es: Seq<EntryModel>, key: Seq<char>, value: Seq<char>) -> bool {
    exists|j: int| 0 <= j < es.len() && es[j].key == key && es[j].value == value
}

/// Set one key: overwrite the value in place if the key is present
/// (preserving its position), append the entry otherwise.
pub open spec fn spec_set_entry(es: Seq<EntryModel>, key: Seq<char>, value: Seq<char>) -> Seq<
    EntryModel,
> {
    let i = entry_index(es, key);
    if i >= 0 {
        es.update(i, EntryModel { key, value })
    } else {
        es.push(EntryModel { key, value })
    }
}

/// Set the given keys in order, each as `spec_set_entry` does.
pub open spec fn spec_set_entries(es: Seq<EntryModel>, fields: Seq<EntryModel>) -> Seq<EntryModel>
    decreases fields.len(),
{
    if fields.len() == 0 {
        es
    } else {
        spec_set_entries(spec_set_entry(es, fields[0].key, fields[0].value), fields.drop_first())
    }
}

/// Set the given keys in the named section: in place if the section exists,
/// in a freshly appended section otherwise. Every other section is untouched.
pub open spec fn spec_set_section_fields(
    s: Seq<SectionModel>,
    name: Seq<char>,
    fields: Seq<EntryModel>,
) -> Seq<SectionModel> {
    let i = section_index(s, name);
    if i >= 0 {
        s.update(i, SectionModel { name: s[i].name, entries: spec_set_entries(s[i].entries, fields) })
    } else {
        s.push(SectionModel { name, entries: spec_set_entries(Seq::empty(), fields) })
    }
}

/// `entry_index` finds the first match, and -1 means no match.
pub proof fn lemma_entry_index(es: Seq<EntryModel>, key: Seq<char>)
    ensures
        entry_index(es, key) == -1 || (0 <= entry_index(es, key) < es.len()),
        entry_index(es, key) == -1 ==> forall|i: int| 0 <= i < es.len() ==> es[i].key != key,
        entry_index(es, key) >= 0 ==> es[entry_index(es, key)].key == key,
        entry_index(es, key) >= 0 ==> forall|i: int| 0 <= i < entry_index(es, key) ==> es[i].key
            != key,
    decreases es.len(),
{
    if es.len() > 0 && es[0].key != key {
        lemma_entry_index(es.drop_first(), key);
        if entry_index(es.drop_first(), key) == -1 {
            assert forall|i: int| 0 <= i < es.len() implies es[i].key != key by {
                if i > 0 {
                    assert(es.drop_first()[i - 1] == es[i]);
                }
            }
        } else {
            assert forall|i: int| 0 <= i < entry_index(es, key) implies es[i].key != key by {
                if i > 0 {
                    assert(es.drop_first()[i - 1] == es[i]);
                }
            }
        }
    }
}

/// `section_index` finds the first match, and -1 means no match.
pub proof fn lemma_section_index(s: Seq<SectionModel>, name: Seq<char>)
    ensures
        section_index(s, name) == -1 || (0 <= section_index(s, name) < s.len()),
        section_index(s, name) == -1 ==> forall|i: int| 0 <= i < s.len() ==> s[i].name != name,
        section_index(s, name) >= 0 ==> s[section_index(s, name)].name == name,
        section_index(s, name) >= 0 ==> forall|i: int| 0 <= i < section_index(s, name)
            ==> s[i].name != name,
    decreases s.len(),
{
    if s.len() > 0 && s[0].name != name {
        lemma_section_index(s.drop_first(), name);
        if section_index(s.drop_first(), name) == -1 {
            assert forall|i: int| 0 <= i < s.len() implies s[i].name != name by {
                if i > 0 {
                    assert(s.drop_first()[i - 1] == s[i]);
                }
            }
        } else {
            assert forall|i: int| 0 <= i < section_index(s, name) implies s[i].name != name by {
                if i > 0 {
                    assert(s.drop_first()[i - 1] == s[i]);
                }
            }
        }
    }
}

/// What one `spec_set_entry` step does: entries with other keys keep their
/// index and value, the given pair is present afterwards, and uniqueness of
/// keys is preserved.
pub proof fn lemma_set_entry(es: Seq<EntryModel>, key: Seq<char>, value: Seq<char>)
    ensures
        es.len() <= spec_set_entry(es, key, value).len(),
        forall|j: int| 0 <= j < es.len() && es[j].key != key ==> spec_set_entry(es, key, value)[j]
            == es[j],
        has_entry(spec_set_entry(es, key, value), key, value),
        entries_wf(es) ==> entries_wf(spec_set_entry(es, key, value)),
        entries_wf(es) && has_entry(es, key, value) ==> spec_set_entry(es, key, value) == es,
{
    let r = spec_set_entry(es, key, value);
    lemma_entry_index(es, key);
    let i = entry_index(es, key);
    if i >= 0 {
        assert(r[i].key == key && r[i].value == value);
    } else {
        assert(r[es.len() as int].key == key && r[es.len() as int].value == value);
    }
    if entries_wf(es) && has_entry(es, key, value) {
        let j = choose|j: int| 0 <= j < es.len() && es[j].key == key && es[j].value == value;
        assert(i >= 0);
        assert(i == j) by {
            if i != j {
                assert(es[i].key == es[j].key);
            }
        }
        assert(r =~= es);
    }
}

/// What `spec_set_entries` does: entries whose key is not among the given
/// fields keep their index and value, the length does not shrink, and
/// uniqueness of keys is preserved.
pub proof fn lemma_set_entries_preserves(es: Seq<EntryModel>, fields: Seq<EntryModel>)
    ensures
        es.len() <= spec_set_entries(es, fields).len(),
        forall|j: int|
            0 <= j < es.len() && (forall|k: int|
                0 <= k < fields.len() ==> fields[k].key != es[j].key) ==> spec_set_entries(
                es,
                fields,
            )[j] == es[j],
        entries_wf(es) ==> entries_wf(spec_set_entries(es, fields)),
    decreases fields.len(),
{
    if fields.len() > 0 {
        let es1 = spec_set_entry(es, fields[0].key, fields[0].value);
        lemma_set_entry(es, fields[0].key, fields[0].value);
        lemma_set_entries_preserves(es1, fields.drop_first());
        assert forall|j: int|
            0 <= j < es.len() && (forall|k: int|
                0 <= k < fields.len() ==> fields[k].key != es[j].key) implies spec_set_entries(
            es,
            fields,
        )[j] == es[j] by {
            assert(fields[0].key != es[j].key);
            assert(es1[j] == es[j]);
            assert(forall|k: int|
                0 <= k < fields.drop_first().len() ==> fields.drop_first()[k].key != es1[j].key);
        }
    }
}

/// Setting fields whose keys are all fresh and mutually distinct appends
/// them, in order.
pub proof fn lemma_set_entries_fresh(es: Seq<EntryModel>, fields: Seq<EntryModel>)
    requires
        entries_wf(fields),
        forall|j: int, k: int|
            0 <= j < es.len() && 0 <= k < fields.len() ==> es[j].key != fields[k].key,
    ensures
        spec_set_entries(es, fields) == es + fields,
    decreases fields.len(),
{
    if fields.len() == 0 {
        assert(spec_set_entries(es, fields) =~= es + fields);
    } else {
        let f0 = fields[0];
        lemma_entry_index(es, f0.key);
        assert(entry_index(es, f0.key) == -1) by {
            if entry_index(es, f0.key) >= 0 {
                assert(es[entry_index(es, f0.key)].key == f0.key);
            }
        }
        let es1 = spec_set_entry(es, f0.key, f0.value);
        assert(es1 =~= es.push(f0));
        assert(entries_wf(fields.drop_first()));
        assert(forall|j: int, k: int|
            0 <= j < es1.len() && 0 <= k < fields.drop_first().len() ==> es1[j].key
                != fields.drop_first()[k].key);
        lemma_set_entries_fresh(es1, fields.drop_first());
        assert(es1 + fields.drop_first() =~= es + fields);
    }
}

/// Setting fields that are already present, key and value, changes nothing.
pub proof fn lemma_set_entries_absorbed(es: Seq<EntryModel>, fields: Seq<EntryModel>)
    requires
        entries_wf(es),
        forall|k: int| 0 <= k < fields.len() ==> has_entry(es, fields[k].key, #[trigger] fields[k].value),
    ensures
        spec_set_entries(es, fields) == es,
    decreases fields.len(),
{
    if fields.len() > 0 {
        let f0 = fields[0];
        assert(has_entry(es, fields[0].key, fields[0].value));
        lemma_set_entry(es, f0.key, f0.value);
        assert(spec_set_entry(es, f0.key, f0.value) == es);
        assert(forall|k: int|
            0 <= k < fields.drop_first().len() ==> has_entry(
                es,
                fields.drop_first()[k].key,
                #[trigger] fields.drop_first()[k].value,
            ));
        lemma_set_entries_absorbed(es, fields.drop_first());
    }
}

/// After setting mutually distinct fields, each is present, key and value.
pub proof fn lemma_set_entries_present(es: Seq<EntryModel>, fields: Seq<EntryModel>)
    requires
        entries_wf(fields),
    ensures
        forall|k: int|
            0 <= k < fields.len() ==> has_entry(
                spec_set_entries(es, fields),
                fields[k].key,
                #[trigger] fields[k].value,
            ),
    decreases fields.len(),
{
    if fields.len() > 0 {
        let f0 = fields[0];
        let es1 = spec_set_entry(es, f0.key, f0.value);
        lemma_set_entry(es, f0.key, f0.value);
        lemma_set_entries_present(es1, fields.drop_first());
        lemma_set_entries_preserves(es1, fields.drop_first());
        // f0 is present in es1 and no later field touches its key.
        let r = spec_set_entries(es1, fields.drop_first());
        assert(has_entry(es1, f0.key, f0.value));
        let j = choose|j: int| 0 <= j < es1.len() && es1[j].key == f0.key && es1[j].value
            == f0.value;
        assert(forall|k: int|
            0 <= k < fields.drop_first().len() ==> fields.drop_first()[k].key != es1[j].key);
        assert(r[j] == es1[j]);
        assert(has_entry(r, f0.key, f0.value));
        assert forall|k: int| 0 <= k < fields.len() implies has_entry(
            spec_set_entries(es, fields),
            fields[k].key,
            #[trigger] fields[k].value,
        ) by {
            if k > 0 {
                assert(fields.drop_first()[k - 1] == fields[k]);
            }
        }
    }
}

/// Setting the same mutually distinct fields twice is the same as setting
/// them once.
pub proof fn lemma_set_entries_idempotent(es: Seq<EntryModel>, fields: Seq<EntryModel>)
    requires
        entries_wf(es),
        entries_wf(fields),
    ensures
        spec_set_entries(spec_set_entries(es, fields), fields) == spec_set_entries(es, fields),
{
    let r = spec_set_entries(es, fields);
    lemma_set_entries_preserves(es, fields);
    lemma_set_entries_present(es, fields);
    lemma_set_entries_absorbed(r, fields);
}

/// The entry is one of `es`, or one of `fields`.
pub open spec fn entry_from(e: EntryModel, es: Seq<EntryModel>, fields: Seq<EntryModel>) -> bool {
    (exists|k: int| 0 <= k < es.len() && e == es[k]) || (exists|k: int|
        0 <= k < fields.len() && e == fields[k])
}

/// Every entry after setting fields is an old entry or one of the fields:
/// nothing else is ever written.
pub proof fn lemma_set_entries_from(es: Seq<EntryModel>, fields: Seq<EntryModel>)
    ensures
        forall|j: int|
            0 <= j < spec_set_entries(es, fields).len() ==> #[trigger] entry_from(
                spec_set_entries(es, fields)[j],
                es,
                fields,
            ),
    decreases fields.len(),
{
    let r = spec_set_entries(es, fields);
    if fields.len() == 0 {
        assert forall|j: int| 0 <= j < r.len() implies #[trigger] entry_from(r[j], es, fields) by {
            assert(r[j] == es[j]);
        }
    } else {
        let f0 = fields[0];
        let es1 = spec_set_entry(es, f0.key, f0.value);
        assert(EntryModel { key: f0.key, value: f0.value } == f0);
        lemma_entry_index(es, f0.key);
        assert forall|j: int| 0 <= j < es1.len() implies #[trigger] entry_from(
            es1[j],
            es,
            fields,
        ) by {
            let i = entry_index(es, f0.key);
            if i >= 0 && j == i {
                assert(es1[j] == fields[0]);
            } else if j < es.len() {
                assert(es1[j] == es[j]);
            } else {
                assert(es1[j] == fields[0]);
            }
        }
        lemma_set_entries_from(es1, fields.drop_first());
        assert(r == spec_set_entries(es1, fields.drop_first()));
        assert forall|j: int| 0 <= j < r.len() implies #[trigger] entry_from(r[j], es, fields) by {
            assert(entry_from(spec_set_entries(es1, fields.drop_first())[j], es1,
                fields.drop_first()));
            assert(entry_from(r[j], es1, fields.drop_first()));
            if exists|k: int| 0 <= k < es1.len() && r[j] == es1[k] {
                let k = choose|k: int| 0 <= k < es1.len() && r[j] == es1[k];
                assert(entry_from(es1[k], es, fields));
            } else {
                let k = choose|k: int|
                    0 <= k < fields.drop_first().len() && r[j] == fields.drop_first()[k];
                assert(fields.drop_first()[k] == fields[k + 1]);
                assert(r[j] == fields[k + 1]);
            }
        }
    }
}

/// The first match at `i` pins `entry_index` to `i`.
pub proof fn lemma_entry_index_of(es: Seq<EntryModel>, key: Seq<char>, i: int)
    requires
        0 <= i < es.len(),
        es[i].key == key,
        forall|j: int| 0 <= j < i ==> es[j].key != key,
    ensures
        entry_index(es, key) == i,
    decreases es.len(),
{
    if i > 0 {
        assert(forall|j: int|
            0 <= j < i - 1 ==> #[trigger] es.drop_first()[j] == es[j + 1]);
        assert(es.drop_first()[i - 1] == es[i]);
        lemma_entry_index_of(es.drop_first(), key, i - 1);
    }
}

/// The first match at `i` pins `section_index` to `i`.
pub proof fn lemma_section_index_of(s: Seq<SectionModel>, name: Seq<char>, i: int)
    requires
        0 <= i < s.len(),
        s[i].name == name,
        forall|j: int| 0 <= j < i ==> s[j].name != name,
    ensures
        section_index(s, name) == i,
    decreases s.len(),
{
    if i > 0 {
        assert(forall|j: int|
            0 <= j < i - 1 ==> #[trigger] s.drop_first()[j] == s[j + 1]);
        assert(s.drop_first()[i - 1] == s[i]);
        lemma_section_index_of(s.drop_first(), name, i - 1);
    }
}

/// Setting fields in a section that is absent appends exactly one section:
/// every section of the store is still present, unchanged and in place, and
/// the new last section carries exactly the given fields, in order.
pub proof fn lemma_set_section_fields_new(
    s: Seq<SectionModel>,
    name: Seq<char>,
    fields: Seq<EntryModel>,
)
    requires
        section_index(s, name) == -1,
        entries_wf(fields),
    ensures
        spec_set_section_fields(s, name, fields).len() == s.len() + 1,
        forall|i: int| 0 <= i < s.len() ==> spec_set_section_fields(s, name, fields)[i] == s[i],
        spec_set_section_fields(s, name, fields).last().name == name,
        spec_set_section_fields(s, name, fields).last().entries == fields,
{
    lemma_set_entries_fresh(Seq::empty(), fields);
    assert(Seq::empty() + fields =~= fields);
}

/// Setting fields in a section that exists touches only that section, and
/// in it only the given keys: every other section is unchanged, entries with
/// other keys keep their index and value, and afterwards each given field is
/// present with its given value.
pub proof fn lemma_set_section_fields_existing(
    s: Seq<SectionModel>,
    name: Seq<char>,
    fields: Seq<EntryModel>,
)
    requires
        section_index(s, name) >= 0,
        entries_wf(fields),
    ensures
        ({
            let i = section_index(s, name);
            let s2 = spec_set_section_fields(s, name, fields);
            &&& s2.len() == s.len()
            &&& forall|j: int| 0 <= j < s.len() && j != i ==> s2[j] == s[j]
            &&& s2[i].name == s[i].name
            &&& s[i].entries.len() <= s2[i].entries.len()
            &&& forall|j: int|
                0 <= j < s[i].entries.len() && (forall|k: int|
                    0 <= k < fields.len() ==> fields[k].key != s[i].entries[j].key)
                    ==> s2[i].entries[j] == s[i].entries[j]
            &&& forall|k: int|
                0 <= k < fields.len() ==> has_entry(
                    s2[i].entries,
                    fields[k].key,
                    #[trigger] fields[k].value,
                )
        }),
{
    let i = section_index(s, name);
    lemma_section_index(s, name);
    lemma_set_entries_preserves(s[i].entries, fields);
    lemma_set_entries_present(s[i].entries, fields);
}

/// Setting fields preserves the store invariant: names stay unique, keys in
/// every section stay unique.
pub proof fn lemma_set_section_fields_wf(
    s: Seq<SectionModel>,
    name: Seq<char>,
    fields: Seq<EntryModel>,
)
    requires
        store_wf(s),
    ensures
        store_wf(spec_set_section_fields(s, name, fields)),
{
    let i = section_index(s, name);
    lemma_section_index(s, name);
    let s2 = spec_set_section_fields(s, name, fields);
    if i >= 0 {
        lemma_set_entries_preserves(s[i].entries, fields);
        assert(forall|j: int| 0 <= j < s2.len() ==> s2[j].name == #[trigger] s[j].name);
    } else {
        lemma_set_entries_preserves(Seq::empty(), fields);
        assert(entries_wf(Seq::empty()));
        assert(forall|j: int| 0 <= j < s.len() ==> s2[j] == #[trigger] s[j]);
    }
}

/// Applying the same fields twice to the same store and section gives the
/// same store as applying them once.
pub proof fn lemma_set_section_fields_idempotent(
    s: Seq<SectionModel>,
    name: Seq<char>,
    fields: Seq<EntryModel>,
)
    requires
        store_wf(s),
        entries_wf(fields),
    ensures
        spec_set_section_fields(spec_set_section_fields(s, name, fields), name, fields)
            == spec_set_section_fields(s, name, fields),
{
    let i = section_index(s, name);
    lemma_section_index(s, name);
    let s1 = spec_set_section_fields(s, name, fields);
    if i >= 0 {
        assert(s[i].name == name);
        assert(s1[i].name == name);
        assert(forall|j: int| 0 <= j < i ==> s1[j] == #[trigger] s[j]);
        lemma_section_index_of(s1, name, i);
        lemma_set_entries_idempotent(s[i].entries, fields);
        assert(spec_set_section_fields(s1, name, fields) =~= s1);
    } else {
        let n = s.len() as int;
        assert(s1.last().name == name);
        assert(forall|j: int| 0 <= j < n ==> s1[j] == #[trigger] s[j]);
        lemma_section_index_of(s1, name, n);
        lemma_set_entries_idempotent(Seq::empty(), fields);
        assert(spec_set_section_fields(s1, name, fields) =~= s1);
    }
}

/// Model of a sequence of concrete entries.
pub open spec fn entries_model(v: Seq<Entry>) -> Seq<EntryModel> {
    v.map_values(|e: Entry| e@)
}

/// String equality, stated over the views.
fn string_eq(a: &String, b: &String) -> (r: bool)
    ensures
        r == (a@ == b@),
{
    a.eq(b)
}

/// Overwrite or append one entry, as `spec_set_entry` does.
fn set_one_entry(entries: &mut Vec<Entry>, field: &Entry)
    ensures
        entries_model(final(entries)@) == spec_set_entry(
            entries_model(old(entries)@),
            field@.key,
            field@.value,
        ),
{
    let ghost es0 = entries_model(entries@);
    let mut j: usize = 0;
    while j < entries.len()
        invariant
            j <= entries.len(),
            entries@ == old(entries)@,
            es0 == entries_model(entries@),
            forall|k: int| 0 <= k < j ==> es0[k].key != field@.key,
        decreases entries.len() - j,
    {
        if string_eq(&entries[j].key, &field.key) {
            proof {
                lemma_entry_index_of(es0, field@.key, j as int);
            }
            entries.set(j, Entry { key: field.key.clone(), value: field.value.clone() });
            proof {
                assert(entries_model(entries@) =~= es0.update(
                    j as int,
                    EntryModel { key: field@.key, value: field@.value },
                ));
                assert(entries_model(entries@) == spec_set_entry(es0, field@.key, field@.value));
            }
            return ;
        }
        j += 1;
    }
    proof {
        lemma_entry_index(es0, field@.key);
        if entry_index(es0, field@.key) >= 0 {
            assert(es0[entry_index(es0, field@.key)].key == field@.key);
        }
    }
    entries.push(Entry { key: field.key.clone(), value: field.value.clone() });
    proof {
        assert(entries_model(entries@) =~= es0.push(
            EntryModel { key: field@.key, value: field@.value },
        ));
    }
}

/// `spec_set_entries` over a snoc: the last field is set last.
proof fn lemma_set_entries_snoc(es: Seq<EntryModel>, fields: Seq<EntryModel>, f: EntryModel)
    ensures
        spec_set_entries(es, fields.push(f)) == spec_set_entry(
            spec_set_entries(es, fields),
            f.key,
            f.value,
        ),
    decreases fields.len(),
{
    let p = fields.push(f);
    if fields.len() == 0 {
        assert(p[0] == f);
        assert(p.drop_first() =~= Seq::<EntryModel>::empty());
        let x = spec_set_entry(es, p[0].key, p[0].value);
        assert(spec_set_entries(x, p.drop_first()) == x);
        assert(spec_set_entries(es, fields) == es);
    } else {
        assert(p[0] == fields[0]);
        assert(p.drop_first() =~= fields.drop_first().push(f));
        let x = spec_set_entry(es, fields[0].key, fields[0].value);
        lemma_set_entries_snoc(x, fields.drop_first(), f);
        assert(spec_set_entries(es, p) == spec_set_entries(x, p.drop_first()));
        assert(spec_set_entries(x, p.drop_first()) == spec_set_entries(
            x,
            fields.drop_first().push(f),
        ));
        assert(spec_set_entries(es, fields) == spec_set_entries(x, fields.drop_first()));
    }
}

/// Set each field in order, as `spec_set_entries` does.
fn set_entries_in(entries: &mut Vec<Entry>, fields: &Vec<Entry>)
    ensures
        entries_model(final(entries)@) == spec_set_entries(
            entries_model(old(entries)@),
            entries_model(fields@),
        ),
{
    let ghost es0 = entries_model(entries@);
    let ghost fv = entries_model(fields@);
    let mut k: usize = 0;
    while k < fields.len()
        invariant
            k <= fields.len(),
            fv == entries_model(fields@),
            entries_model(entries@) == spec_set_entries(es0, fv.take(k as int)),
        decreases fields.len() - k,
    {
        proof {
            assert(fv.take(k as int + 1) =~= fv.take(k as int).push(fv[k as int]));
            lemma_set_entries_snoc(es0, fv.take(k as int), fv[k as int]);
        }
        set_one_entry(entries, &fields[k]);
        k += 1;
    }
    proof {
        assert(fv.take(fv.len() as int) =~= fv);
    }
}

impl Store {
    /// The empty store: no sections at all.
    pub fn new() -> (r: Store)
        ensures
            r@ == Seq::<SectionModel>::empty(),
    {
        let r = Store { sections: Vec::new() };
        proof {
            assert(r@ =~= Seq::<SectionModel>::empty());
        }
        r
    }

    /// Index of the section with this name, if present.
    pub fn find_section(&self, name: &str) -> (r: Option<usize>)
        ensures
            match r {
                Some(i) => i < self.sections.len() && section_index(self@, name@) == i,
                None => section_index(self@, name@) == -1,
            },
    {
        let owned: String = name.to_owned();
        let mut i: usize = 0;
        while i < self.sections.len()
            invariant
                i <= self.sections.len(),
                owned@ == name@,
                forall|j: int| 0 <= j < i ==> self@[j].name != name@,
            decreases self.sections.len() - i,
        {
            if string_eq(&self.sections[i].name, &owned) {
                proof {
                    assert(self@[i as int].name == name@);
                    lemma_section_index_of(self@, name@, i as int);
                }
                return Some(i);
            }
            i += 1;
        }
        proof {
            lemma_section_index(self@, name@);
            if section_index(self@, name@) >= 0 {
                assert(self@[section_index(self@, name@)].name == name@);
            }
        }
        None
    }

    /// Set the given keys in the named section: the section is updated in
    /// place if it exists and appended otherwise, exactly as
    /// `spec_set_section_fields` says.
    pub fn set_section_fields(&mut self, name: &str, fields: &Vec<Entry>)
        ensures
            final(self)@ == spec_set_section_fields(
                old(self)@,
                name@,
                entries_model(fields@),
            ),
    {
        let ghost m0 = self@;
        let ghost fv = entries_model(fields@);
        let found = self.find_section(name);
        match found {
            Some(i) => {
                let mut sec = self.sections.remove(i);
                let ghost old_sec = m0[i as int];
                set_entries_in(&mut sec.entries, fields);
                self.sections.insert(i, sec);
                proof {
                    assert(sec@.name == old_sec.name);
                    assert(sec@.entries == spec_set_entries(old_sec.entries, fv));
                    assert(self@ =~= m0.update(
                        i as int,
                        SectionModel {
                            name: old_sec.name,
                            entries: spec_set_entries(old_sec.entries, fv),
                        },
                    ));
                }
            },
            None => {
                let mut entries: Vec<Entry> = Vec::new();
                set_entries_in(&mut entries, fields);
                proof {
                    assert(entries_model(Seq::<Entry>::empty()) =~= Seq::<EntryModel>::empty());
                }
                let sec = Section { name: name.to_owned(), entries };
                self.sections.push(sec);
                proof {
                    assert(self@ =~= m0.push(
                        SectionModel {
                            name: name@,
                            entries: spec_set_entries(Seq::empty(), fv),
                        },
                    ));
                }
            },
        }
    }
}

} // verus!
