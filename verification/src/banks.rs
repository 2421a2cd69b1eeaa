//! Phoneme banks: named tables of phoneme data that can extend one another.
//!
//! A bank is authored as a [`BankSource`] (metadata, an optional `extends`
//! parent, and an ordered list of edits) and resolved into a [`Bank`].
//! Resolution flattens the `extends` chain: the parent's entries first
//! (recursively resolved), then this bank's edits applied in order, where a
//! same-name entry **overrides in place**, a new one appends, and a removal
//! drops the inherited entry. Entry order is load-bearing: it is the index
//! space callers address phonemes by.
//!
//! The banks are generic over the phoneme parameter record `P` they carry;
//! resolution only ever moves those records, never looks inside them.

use vstd::prelude::*;

use crate::text::{chars_of, decimal, joined, push_decimal, push_joined, push_str, string_from_chars};
use crate::tokenize::chars_eq;

verus! {

/// The name used when a caller does not choose a bank.
pub const DEFAULT_BANK: &'static str = "klatt1980-en";

/// The only schema version bank documents may declare.
pub const SCHEMA_VERSION: u32 = 1;

/// The view of an optional string.
pub open spec fn opt_str(o: Option<String>) -> Option<Seq<char>> {
    match o {
        Some(s) => Some(s@),
        None => None,
    }
}

/// Whether two strings are equal, character by character.
pub(crate) fn str_eq(a: &str, b: &str) -> (r: bool)
    ensures
        r == (a@ == b@),
{
    let x = chars_of(a);
    let y = chars_of(b);
    chars_eq(x.as_slice(), y.as_slice())
}

/// A copy of an optional string.
pub fn copy_opt_str(o: &Option<String>) -> (r: Option<String>)
    ensures
        opt_str(r) == opt_str(*o),
{
    match o {
        Some(s) => Some(s.clone()),
        None => None,
    }
}

/// One phoneme in a bank: its parameters plus the display metadata that
/// editors show.
#[derive(Clone, Debug, PartialEq)]
pub struct PhonemeEntry<P> {
    pub name: String,
    pub params: P,
    /// IPA symbol, for editor legends.
    pub ipa: Option<String>,
    /// Example word, for editor legends.
    pub example: Option<String>,
}

pub struct EntryView<P> {
    pub name: Seq<char>,
    pub params: P,
    pub ipa: Option<Seq<char>>,
    pub example: Option<Seq<char>>,
}

impl<P> View for PhonemeEntry<P> {
    type V = EntryView<P>;

    open spec fn view(&self) -> EntryView<P> {
        EntryView { name: self.name@, params: self.params, ipa: opt_str(self.ipa), example: opt_str(self.example) }
    }
}

impl<P: Copy> PhonemeEntry<P> {
    /// A minimal entry with no display metadata.
    pub fn new(name: &str, params: P) -> (r: Self)
        ensures
            r@ == (EntryView { name: name@, params, ipa: None, example: None }),
    {
        PhonemeEntry { name: name.to_owned(), params, ipa: None, example: None }
    }

    /// A copy of this entry.
    pub fn copy(&self) -> (r: Self)
        ensures
            r@ == self@,
    {
        PhonemeEntry {
            name: self.name.clone(),
            params: self.params,
            ipa: copy_opt_str(&self.ipa),
            example: copy_opt_str(&self.example),
        }
    }
}

/// One authored change to the inherited phoneme set.
#[derive(Clone, Debug, PartialEq)]
pub enum PhonemeEdit<P> {
    /// Add the phoneme, or replace an inherited one of the same name in place.
    Define(PhonemeEntry<P>),
    /// Drop an inherited phoneme.
    Remove(String),
}

pub enum EditView<P> {
    Define(EntryView<P>),
    Remove(Seq<char>),
}

impl<P> View for PhonemeEdit<P> {
    type V = EditView<P>;

    open spec fn view(&self) -> EditView<P> {
        match self {
            PhonemeEdit::Define(e) => EditView::Define(e@),
            PhonemeEdit::Remove(n) => EditView::Remove(n@),
        }
    }
}

impl<P> EditView<P> {
    /// The phoneme name an edit is about.
    pub open spec fn name(self) -> Seq<char> {
        match self {
            EditView::Define(e) => e.name,
            EditView::Remove(n) => n,
        }
    }
}

impl<P> PhonemeEdit<P> {
    /// The phoneme name this edit is about.
    pub fn name(&self) -> (r: &str)
        ensures
            r@ == self@.name(),
    {
        match self {
            PhonemeEdit::Define(entry) => entry.name.as_str(),
            PhonemeEdit::Remove(name) => name.as_str(),
        }
    }
}

/// An authored bank, before its `extends` chain is flattened.
#[derive(Clone, Debug, PartialEq)]
pub struct BankSource<P> {
    pub name: String,
    pub display_name: String,
    pub language: Option<String>,
    pub license: Option<String>,
    pub source: Option<String>,
    /// Name of the bank this one inherits from, if any.
    pub extends: Option<String>,
    pub edits: Vec<PhonemeEdit<P>>,
}

pub struct SourceView<P> {
    pub name: Seq<char>,
    pub display_name: Seq<char>,
    pub language: Option<Seq<char>>,
    pub license: Option<Seq<char>>,
    pub source: Option<Seq<char>>,
    pub extends: Option<Seq<char>>,
    pub edits: Seq<EditView<P>>,
}

pub open spec fn edit_views<P>(e: Seq<PhonemeEdit<P>>) -> Seq<EditView<P>> {
    e.map_values(|x: PhonemeEdit<P>| x@)
}

impl<P> View for BankSource<P> {
    type V = SourceView<P>;

    open spec fn view(&self) -> SourceView<P> {
        SourceView {
            name: self.name@,
            display_name: self.display_name@,
            language: opt_str(self.language),
            license: opt_str(self.license),
            source: opt_str(self.source),
            extends: opt_str(self.extends),
            edits: edit_views(self.edits@),
        }
    }
}

pub open spec fn entry_views<P>(e: Seq<PhonemeEntry<P>>) -> Seq<EntryView<P>> {
    e.map_values(|x: PhonemeEntry<P>| x@)
}

impl<P> BankSource<P> {
    /// A base bank (no parent) whose edits are all additions; its display name
    /// is its name.
    pub fn new(name: &str, entries: Vec<PhonemeEntry<P>>) -> (r: Self)
        ensures
            r@.name == name@,
            r@.display_name == name@,
            r@.language is None,
            r@.license is None,
            r@.source is None,
            r@.extends is None,
            r@.edits == entry_views(entries@).map_values(|e: EntryView<P>| EditView::Define(e)),
    {
        let mut edits: Vec<PhonemeEdit<P>> = Vec::new();
        let mut rest = entries;
        let ghost all = entries@;
        let ghost mut taken: int = 0;
        // Entries move into the edit list front to back.
        while rest.len() > 0
            invariant
                0 <= taken <= all.len(),
                rest@ == all.skip(taken),
                edit_views(edits@) == entry_views(all.take(taken)).map_values(|e: EntryView<P>| EditView::Define(e)),
            decreases rest.len(),
        {
            let e = rest.remove(0);
            let ghost before = edit_views(edits@);
            let ghost prev = all.take(taken);
            proof {
                assert(e == all[taken]);
                assert(all.take(taken + 1) == all.take(taken).push(e));
                assert(all.skip(taken + 1) == all.skip(taken).remove(0));
                taken = taken + 1;
            }
            edits.push(PhonemeEdit::Define(e));
            proof {
                assert(edit_views(edits@) =~= before.push(EditView::Define(e@)));
                assert(entry_views(prev.push(e)) =~= entry_views(prev).push(e@));
                assert(entry_views(prev).push(e@).map_values(|e: EntryView<P>| EditView::Define(e))
                    =~= entry_views(prev).map_values(|e: EntryView<P>| EditView::Define(e)).push(EditView::Define(e@)));
            }
        }
        assert(all.take(all.len() as int) == all);
        BankSource {
            name: name.to_owned(),
            display_name: name.to_owned(),
            language: None,
            license: None,
            source: None,
            extends: None,
            edits,
        }
    }
}

/// The edit a document's phoneme slot stands for: an entry defines the
/// phoneme, an empty slot (a JSON `null`) removes the inherited one.
pub open spec fn slot_edit<P>(slot: (String, Option<PhonemeEntry<P>>)) -> EditView<P> {
    match slot.1 {
        Some(e) => EditView::Define(e@),
        None => EditView::Remove(slot.0@),
    }
}

/// Whether a bank document's declared schema version is readable: `Ok`
/// exactly for [`SCHEMA_VERSION`], otherwise the error naming the bank and
/// the version it declared.
pub fn check_schema(bank: &str, version: u32) -> (r: Result<(), BankError>)
    ensures
        r is Ok <==> version == SCHEMA_VERSION,
        r matches Err(e) ==> e@ == (BankErrorView::UnsupportedSchema { bank: bank@, version }),
{
    if version == SCHEMA_VERSION {
        Ok(())
    } else {
        Err(BankError::UnsupportedSchema { bank: bank.to_owned(), version })
    }
}

impl<P> BankSource<P> {
    /// The authored bank a document describes. A missing display name falls
    /// back to the bank's name; the phoneme slots become edits in document
    /// order, an entry defining its phoneme and an empty slot removing the
    /// inherited one of that name.
    pub fn from_document(
        name: String,
        display_name: Option<String>,
        language: Option<String>,
        license: Option<String>,
        source: Option<String>,
        extends: Option<String>,
        phonemes: Vec<(String, Option<PhonemeEntry<P>>)>,
    ) -> (r: Self)
        ensures
            r@.name == name@,
            r@.display_name == (match display_name {
                Some(d) => d@,
                None => name@,
            }),
            r@.language == opt_str(language),
            r@.license == opt_str(license),
            r@.source == opt_str(source),
            r@.extends == opt_str(extends),
            r@.edits == phonemes@.map_values(|slot: (String, Option<PhonemeEntry<P>>)| slot_edit(slot)),
    {
        let mut edits: Vec<PhonemeEdit<P>> = Vec::new();
        let mut rest = phonemes;
        let ghost all = phonemes@;
        let ghost mut taken: int = 0;
        // Slots move into the edit list front to back.
        while rest.len() > 0
            invariant
                0 <= taken <= all.len(),
                rest@ == all.skip(taken),
                edit_views(edits@) == all.take(taken).map_values(
                    |slot: (String, Option<PhonemeEntry<P>>)| slot_edit(slot),
                ),
            decreases rest.len(),
        {
            let slot = rest.remove(0);
            let ghost before = edit_views(edits@);
            let ghost prev = all.take(taken);
            proof {
                assert(slot == all[taken]);
                assert(all.take(taken + 1) == all.take(taken).push(slot));
                assert(all.skip(taken + 1) == all.skip(taken).remove(0));
                taken = taken + 1;
            }
            let ghost sv = slot;
            let (key, entry) = slot;
            match entry {
                Some(e) => edits.push(PhonemeEdit::Define(e)),
                None => edits.push(PhonemeEdit::Remove(key)),
            }
            proof {
                assert(edit_views(edits@) =~= before.push(slot_edit(sv)));
                assert(prev.push(sv).map_values(|slot: (String, Option<PhonemeEntry<P>>)| slot_edit(slot))
                    =~= prev.map_values(|slot: (String, Option<PhonemeEntry<P>>)| slot_edit(slot)).push(slot_edit(sv)));
            }
        }
        assert(all.take(all.len() as int) == all);
        let display = match display_name {
            Some(d) => d,
            None => name.clone(),
        };
        BankSource { name, display_name: display, language, license, source, extends, edits }
    }
}

/// A resolved bank: metadata plus the flattened phoneme list, in order.
#[derive(Clone, Debug, PartialEq)]
pub struct Bank<P> {
    name: String,
    display_name: String,
    language: Option<String>,
    license: Option<String>,
    source: Option<String>,
    entries: Vec<PhonemeEntry<P>>,
}

pub struct BankView<P> {
    pub name: Seq<char>,
    pub display_name: Seq<char>,
    pub language: Option<Seq<char>>,
    pub license: Option<Seq<char>>,
    pub source: Option<Seq<char>>,
    pub entries: Seq<EntryView<P>>,
}

impl<P> View for Bank<P> {
    type V = BankView<P>;

    closed spec fn view(&self) -> BankView<P> {
        BankView {
            name: self.name@,
            display_name: self.display_name@,
            language: opt_str(self.language),
            license: opt_str(self.license),
            source: opt_str(self.source),
            entries: entry_views(self.entries@),
        }
    }
}

/// Why a bank could not be registered or resolved.
#[derive(Clone, Debug, PartialEq, Eq)]
pub enum BankError {
    /// A bank extends a name the registry does not know.
    UnknownParent { bank: String, parent: String },
    /// An `extends` chain loops back on itself.
    ExtendsCycle { path: Vec<String> },
    /// A bank was registered under a name already in use.
    DuplicateName(String),
    /// The bank declared a schema version this crate does not read.
    UnsupportedSchema { bank: String, version: u32 },
}

pub enum BankErrorView {
    UnknownParent { bank: Seq<char>, parent: Seq<char> },
    ExtendsCycle { path: Seq<Seq<char>> },
    DuplicateName(Seq<char>),
    UnsupportedSchema { bank: Seq<char>, version: u32 },
}

pub open spec fn string_views(s: Seq<String>) -> Seq<Seq<char>> {
    s.map_values(|x: String| x@)
}

impl View for BankError {
    type V = BankErrorView;

    open spec fn view(&self) -> BankErrorView {
        match self {
            BankError::UnknownParent { bank, parent } => BankErrorView::UnknownParent { bank: bank@, parent: parent@ },
            BankError::ExtendsCycle { path } => BankErrorView::ExtendsCycle { path: string_views(path@) },
            BankError::DuplicateName(n) => BankErrorView::DuplicateName(n@),
            BankError::UnsupportedSchema { bank, version } => BankErrorView::UnsupportedSchema { bank: bank@, version: *version },
        }
    }
}

/// The text of a bank error.
pub open spec fn bank_error_text(e: BankErrorView) -> Seq<char> {
    match e {
        BankErrorView::UnknownParent { bank, parent } =>
            "bank `"@ + bank + "` extends unknown bank `"@ + parent + "`"@,
        BankErrorView::ExtendsCycle { path } => "bank extends cycle: "@ + joined(path, " -> "@),
        BankErrorView::DuplicateName(name) => "bank `"@ + name + "` is already registered"@,
        BankErrorView::UnsupportedSchema { bank, version } =>
            "bank `"@ + bank + "` declares schemaVersion "@ + decimal(version as nat) + ", expected "@
                + decimal(SCHEMA_VERSION as nat),
    }
}

impl BankError {
    /// Human-readable description, as shown to users.
    pub fn message(&self) -> (r: String)
        ensures
            r@ == bank_error_text(self@),
    {
        let mut out: Vec<char> = Vec::new();
        match self {
            BankError::UnknownParent { bank, parent } => {
                push_str(&mut out, "bank `");
                push_str(&mut out, bank.as_str());
                push_str(&mut out, "` extends unknown bank `");
                push_str(&mut out, parent.as_str());
                push_str(&mut out, "`");
            },
            BankError::ExtendsCycle { path } => {
                push_str(&mut out, "bank extends cycle: ");
                push_joined(&mut out, path.as_slice(), " -> ");
            },
            BankError::DuplicateName(name) => {
                push_str(&mut out, "bank `");
                push_str(&mut out, name.as_str());
                push_str(&mut out, "` is already registered");
            },
            BankError::UnsupportedSchema { bank, version } => {
                push_str(&mut out, "bank `");
                push_str(&mut out, bank.as_str());
                push_str(&mut out, "` declares schemaVersion ");
                push_decimal(&mut out, *version as u64);
                push_str(&mut out, ", expected ");
                push_decimal(&mut out, SCHEMA_VERSION as u64);
            },
        }
        string_from_chars(out.as_slice())
    }
}

// ---------------------------------------------------------------------------
// Resolution, as mathematics

/// `k` is the index of the first entry named `name`, or `-1` when none is.
pub open spec fn is_first_entry<P>(e: Seq<EntryView<P>>, name: Seq<char>, k: int) -> bool {
    ||| (k == -1 && forall|j: int| 0 <= j < e.len() ==> (#[trigger] e[j]).name != name)
    ||| (0 <= k < e.len() && e[k].name == name && forall|j: int| 0 <= j < k ==> (#[trigger] e[j]).name != name)
}

/// The index of the first entry named `name`, or `-1`.
pub open spec fn entry_index<P>(e: Seq<EntryView<P>>, name: Seq<char>) -> int {
    choose|k: int| is_first_entry(e, name, k)
}

pub proof fn lemma_entry_index<P>(e: Seq<EntryView<P>>, name: Seq<char>, k: int)
    requires
        is_first_entry(e, name, k),
    ensures
        entry_index(e, name) == k,
{
    let k2 = entry_index(e, name);
    assert(is_first_entry(e, name, k2));
    if k2 != k && k2 != -1 && k != -1 {
        if k2 < k {
            assert(e[k2].name != name);
        } else {
            assert(e[k].name != name);
        }
    }
}

/// Every name has a first entry, or none at all.
pub proof fn lemma_entry_index_exists<P>(e: Seq<EntryView<P>>, name: Seq<char>)
    ensures
        is_first_entry(e, name, entry_index(e, name)),
    decreases e.len(),
{
    if e.len() == 0 {
        assert(is_first_entry(e, name, -1));
    } else {
        let init = e.drop_last();
        lemma_entry_index_exists(init, name);
        let k = entry_index(init, name);
        assert(forall|j: int| 0 <= j < init.len() ==> #[trigger] e[j] == init[j]);
        if k >= 0 {
            assert(is_first_entry(e, name, k));
        } else if e.last().name == name {
            assert(is_first_entry(e, name, e.len() - 1));
        } else {
            assert(is_first_entry(e, name, -1));
        }
    }
}

/// One edit applied to an entry list: a definition replaces the first entry
/// of its name in place or appends; a removal drops the first entry of its
/// name, if any.
pub open spec fn apply_edit<P>(e: Seq<EntryView<P>>, edit: EditView<P>) -> Seq<EntryView<P>> {
    let i = entry_index(e, edit.name());
    match edit {
        EditView::Define(entry) => if i >= 0 { e.update(i, entry) } else { e.push(entry) },
        EditView::Remove(_) => if i >= 0 { e.remove(i) } else { e },
    }
}

/// The edits applied in order.
pub open spec fn apply_edits<P>(e: Seq<EntryView<P>>, edits: Seq<EditView<P>>) -> Seq<EntryView<P>>
    decreases edits.len(),
{
    if edits.len() == 0 {
        e
    } else {
        apply_edit(apply_edits(e, edits.drop_last()), edits.last())
    }
}

/// `k` is the index of the first source named `name`, or `-1`.
pub open spec fn is_first_source<P>(a: Seq<SourceView<P>>, name: Seq<char>, k: int) -> bool {
    ||| (k == -1 && forall|j: int| 0 <= j < a.len() ==> (#[trigger] a[j]).name != name)
    ||| (0 <= k < a.len() && a[k].name == name && forall|j: int| 0 <= j < k ==> (#[trigger] a[j]).name != name)
}

/// The index of the first source named `name`, or `-1`.
pub open spec fn source_index<P>(a: Seq<SourceView<P>>, name: Seq<char>) -> int {
    choose|k: int| is_first_source(a, name, k)
}

pub proof fn lemma_source_index<P>(a: Seq<SourceView<P>>, name: Seq<char>, k: int)
    requires
        is_first_source(a, name, k),
    ensures
        source_index(a, name) == k,
{
    let k2 = source_index(a, name);
    assert(is_first_source(a, name, k2));
    if k2 != k && k2 != -1 && k != -1 {
        if k2 < k {
            assert(a[k2].name != name);
        } else {
            assert(a[k].name != name);
        }
    }
}

/// Every name has a first source, or none at all.
pub proof fn lemma_source_index_exists<P>(a: Seq<SourceView<P>>, name: Seq<char>)
    ensures
        is_first_source(a, name, source_index(a, name)),
    decreases a.len(),
{
    if a.len() == 0 {
        assert(is_first_source(a, name, -1));
    } else {
        let init = a.drop_last();
        lemma_source_index_exists(init, name);
        let k = source_index(init, name);
        assert(forall|j: int| 0 <= j < init.len() ==> #[trigger] a[j] == init[j]);
        if k >= 0 {
            assert(is_first_source(a, name, k));
        } else if a.last().name == name {
            assert(is_first_source(a, name, a.len() - 1));
        } else {
            assert(is_first_source(a, name, -1));
        }
    }
}

pub open spec fn source_names<P>(a: Seq<SourceView<P>>) -> Seq<Seq<char>> {
    a.map_values(|s: SourceView<P>| s.name)
}

/// The number of authored names not yet on the chain being resolved; it
/// shrinks with each step up an `extends` chain.
pub open spec fn unvisited<P>(a: Seq<SourceView<P>>, visiting: Seq<Seq<char>>) -> nat {
    source_names(a).to_set().difference(visiting.to_set()).len()
}

pub proof fn lemma_unvisited_shrinks<P>(a: Seq<SourceView<P>>, visiting: Seq<Seq<char>>, k: int)
    requires
        0 <= k < a.len(),
        !visiting.contains(a[k].name),
    ensures
        unvisited(a, visiting.push(a[k].name)) < unvisited(a, visiting),
{
    let name = a[k].name;
    let all = source_names(a).to_set();
    let before = all.difference(visiting.to_set());
    let after = all.difference(visiting.push(name).to_set());
    assert(source_names(a)[k] == name);
    assert(all.contains(name));
    assert(after =~= before.remove(name)) by {
        assert forall|x: Seq<char>| visiting.push(name).to_set().contains(x) <==> (visiting.to_set().contains(x) || x == name) by {
            if visiting.push(name).contains(x) {
                let j = choose|j: int| 0 <= j < visiting.push(name).len() && visiting.push(name)[j] == x;
                if j < visiting.len() {
                    assert(visiting[j] == x);
                }
            }
            if visiting.contains(x) {
                let j = choose|j: int| 0 <= j < visiting.len() && visiting[j] == x;
                assert(visiting.push(name)[j] == x);
            }
            if x == name {
                assert(visiting.push(name)[visiting.len() as int] == x);
            }
        }
    }
    vstd::seq_lib::seq_to_set_is_finite(source_names(a));
    vstd::set_lib::lemma_len_difference(all, visiting.to_set());
    assert(before.finite());
}

/// The flattened entries of bank `name` among the sources `a`, with
/// `visiting` the chain of banks that extend it (innermost last); or why
/// it cannot be resolved.
pub open spec fn resolve_entries<P>(a: Seq<SourceView<P>>, name: Seq<char>, visiting: Seq<Seq<char>>) -> Result<Seq<EntryView<P>>, BankErrorView>
    decreases unvisited(a, visiting),
{
    if visiting.contains(name) {
        Err(BankErrorView::ExtendsCycle { path: visiting.push(name) })
    } else {
        let k = source_index(a, name);
        if k < 0 {
            Err(BankErrorView::UnknownParent {
                bank: if visiting.len() > 0 { visiting.last() } else { Seq::empty() },
                parent: name,
            })
        } else {
            let src = a[k];
            let base: Result<Seq<EntryView<P>>, BankErrorView> = match src.extends {
                Some(parent) => {
                    proof {
                        lemma_source_index_exists(a, name);
                        lemma_unvisited_shrinks(a, visiting, k);
                    }
                    resolve_entries(a, parent, visiting.push(name))
                },
                None => Ok(Seq::empty()),
            };
            match base {
                Ok(e) => Ok(apply_edits(e, src.edits)),
                Err(x) => Err(x),
            }
        }
    }
}

/// The bank a source resolves to, given its flattened entries.
pub open spec fn bank_of<P>(src: SourceView<P>, entries: Seq<EntryView<P>>) -> BankView<P> {
    BankView {
        name: src.name,
        display_name: src.display_name,
        language: src.language,
        license: src.license,
        source: src.source,
        entries,
    }
}

// ---------------------------------------------------------------------------
// Resolution, executed

/// The index of the first entry named `name`.
fn find_entry<P>(entries: &Vec<PhonemeEntry<P>>, name: &str) -> (r: Option<usize>)
    ensures
        match r {
            Some(k) => k < entries.len() && entry_index(entry_views(entries@), name@) == k,
            None => entry_index(entry_views(entries@), name@) == -1,
        },
{
    let ghost ev = entry_views(entries@);
    let mut i: usize = 0;
    while i < entries.len()
        invariant
            i <= entries.len(),
            ev == entry_views(entries@),
            forall|j: int| 0 <= j < i ==> (#[trigger] ev[j]).name != name@,
        decreases entries.len() - i,
    {
        if str_eq(entries[i].name.as_str(), name) {
            proof {
                lemma_entry_index(ev, name@, i as int);
            }
            return Some(i);
        }
        i += 1;
    }
    proof {
        lemma_entry_index(ev, name@, -1);
    }
    None
}

/// Apply `edit` to `entries` (see [`apply_edit`]).
fn apply_edit_exec<P: Copy>(entries: &mut Vec<PhonemeEntry<P>>, edit: &PhonemeEdit<P>)
    ensures
        entry_views(final(entries)@) == apply_edit(entry_views(old(entries)@), edit@),
{
    let ghost before = entry_views(entries@);
    let found = find_entry(entries, edit.name());
    match edit {
        PhonemeEdit::Define(entry) => {
            let e = entry.copy();
            match found {
                Some(i) => {
                    entries.set(i, e);
                    assert(entry_views(entries@) =~= before.update(i as int, entry@));
                },
                None => {
                    entries.push(e);
                    assert(entry_views(entries@) =~= before.push(entry@));
                },
            }
        },
        PhonemeEdit::Remove(_) => {
            match found {
                Some(i) => {
                    entries.remove(i);
                    assert(entry_views(entries@) =~= before.remove(i as int));
                },
                None => {},
            }
        },
    }
}

/// Apply `edits` to `entries` in order (see [`apply_edits`]).
fn apply_edits_exec<P: Copy>(entries: &mut Vec<PhonemeEntry<P>>, edits: &Vec<PhonemeEdit<P>>)
    ensures
        entry_views(final(entries)@) == apply_edits(entry_views(old(entries)@), edit_views(edits@)),
{
    let ghost start = entry_views(entries@);
    let ghost all = edit_views(edits@);
    let mut i: usize = 0;
    assert(all.take(0) =~= Seq::<EditView<P>>::empty());
    while i < edits.len()
        invariant
            i <= edits.len(),
            all == edit_views(edits@),
            entry_views(entries@) == apply_edits(start, all.take(i as int)),
        decreases edits.len() - i,
    {
        apply_edit_exec(entries, &edits[i]);
        assert(all.take(i + 1).drop_last() =~= all.take(i as int));
        i += 1;
    }
    assert(all.take(edits.len() as int) =~= all);
}

/// The sources `authored` followed by `extra`.
pub open spec fn sources_with<P>(authored: Seq<BankSource<P>>, extra: BankSource<P>) -> Seq<SourceView<P>> {
    authored.map_values(|s: BankSource<P>| s@).push(extra@)
}

/// Index of the first source named `name` in `authored` followed by `extra`.
fn find_source<P>(authored: &Vec<BankSource<P>>, extra: &BankSource<P>, name: &str) -> (r: Option<usize>)
    ensures
        match r {
            Some(k) => k <= authored.len() && source_index(sources_with(authored@, *extra), name@) == k,
            None => source_index(sources_with(authored@, *extra), name@) == -1,
        },
{
    let ghost a = sources_with(authored@, *extra);
    let mut i: usize = 0;
    while i < authored.len()
        invariant
            i <= authored.len(),
            a == sources_with(authored@, *extra),
            forall|j: int| 0 <= j < i ==> (#[trigger] a[j]).name != name@,
        decreases authored.len() - i,
    {
        assert(a[i as int] == authored@[i as int]@);
        if str_eq(authored[i].name.as_str(), name) {
            proof {
                lemma_source_index(a, name@, i as int);
            }
            return Some(i);
        }
        i += 1;
    }
    if str_eq(extra.name.as_str(), name) {
        proof {
            lemma_source_index(a, name@, authored.len() as int);
        }
        Some(authored.len())
    } else {
        proof {
            lemma_source_index(a, name@, -1);
        }
        None
    }
}

/// Copies of `names`, then `last`.
fn path_with(names: &Vec<String>, last: &str) -> (r: Vec<String>)
    ensures
        string_views(r@) == string_views(names@).push(last@),
{
    let mut out: Vec<String> = Vec::new();
    let mut i: usize = 0;
    while i < names.len()
        invariant
            i <= names.len(),
            string_views(out@) == string_views(names@).take(i as int),
        decreases names.len() - i,
    {
        let ghost before = string_views(out@);
        out.push(names[i].clone());
        assert(string_views(out@) =~= before.push(names@[i as int]@));
        assert(string_views(names@).take(i + 1) =~= string_views(names@).take(i as int).push(names@[i as int]@));
        assert(string_views(out@) =~= string_views(names@).take(i + 1));
        i += 1;
    }
    let ghost before = string_views(out@);
    assert(string_views(names@).take(names.len() as int) =~= string_views(names@));
    out.push(last.to_owned());
    assert(string_views(out@) =~= before.push(last@));
    out
}

/// Whether `name` is among `names`.
fn contains_name(names: &Vec<String>, name: &str) -> (r: bool)
    ensures
        r == string_views(names@).contains(name@),
{
    let mut i: usize = 0;
    while i < names.len()
        invariant
            i <= names.len(),
            forall|j: int| 0 <= j < i ==> (#[trigger] string_views(names@)[j]) != name@,
        decreases names.len() - i,
    {
        if str_eq(names[i].as_str(), name) {
            assert(string_views(names@)[i as int] == name@);
            return true;
        }
        i += 1;
    }
    false
}

/// Flatten one bank's `extends` chain among `authored` followed by `extra`.
/// `visiting` carries the chain being resolved so that a cycle is reported
/// rather than recursed into; it is as it was when the call returns.
fn resolve_exec<P: Copy>(
    authored: &Vec<BankSource<P>>,
    extra: &BankSource<P>,
    name: &str,
    visiting: &mut Vec<String>,
) -> (r: Result<Vec<PhonemeEntry<P>>, BankError>)
    ensures
        string_views(final(visiting)@) == string_views(old(visiting)@),
        match r {
            Ok(e) => resolve_entries(sources_with(authored@, *extra), name@, string_views(old(visiting)@)) == Ok::<Seq<EntryView<P>>, BankErrorView>(entry_views(e@)),
            Err(x) => resolve_entries(sources_with(authored@, *extra), name@, string_views(old(visiting)@)) == Err::<Seq<EntryView<P>>, BankErrorView>(x@),
        },
    decreases unvisited(sources_with(authored@, *extra), string_views(old(visiting)@)),
{
    let ghost a = sources_with(authored@, *extra);
    let ghost vis = string_views(visiting@);
    if contains_name(visiting, name) {
        let path = path_with(visiting, name);
        return Err(BankError::ExtendsCycle { path });
    }
    let k = match find_source(authored, extra, name) {
        Some(k) => k,
        None => {
            let bank = if visiting.len() > 0 {
                visiting[visiting.len() - 1].clone()
            } else {
                String::new()
            };
            return Err(BankError::UnknownParent { bank, parent: name.to_owned() });
        },
    };
    proof {
        lemma_source_index_exists(a, name@);
    }
    let src: &BankSource<P> = if k < authored.len() { &authored[k] } else { extra };
    assert(a[k as int] == src@);
    let mut entries: Vec<PhonemeEntry<P>> = match &src.extends {
        Some(parent) => {
            proof {
                lemma_unvisited_shrinks(a, vis, k as int);
            }
            visiting.push(name.to_owned());
            assert(string_views(visiting@) =~= vis.push(name@));
            let ghost pushed = visiting@;
            let r = resolve_exec(authored, extra, parent.as_str(), visiting);
            let ghost after = visiting@;
            visiting.pop();
            assert(string_views(after) == vis.push(name@));
            assert forall|j: int| 0 <= j < vis.len() implies #[trigger] string_views(visiting@)[j] == vis[j] by {
                assert(visiting@[j] == after[j]);
                assert(string_views(after)[j] == vis.push(name@)[j]);
            }
            assert(string_views(visiting@) =~= vis);
            match r {
                Ok(e) => e,
                Err(x) => {
                    return Err(x);
                },
            }
        },
        None => {
            let e: Vec<PhonemeEntry<P>> = Vec::new();
            assert(entry_views(e@) =~= Seq::<EntryView<P>>::empty());
            e
        },
    };
    apply_edits_exec(&mut entries, &src.edits);
    Ok(entries)
}

// ---------------------------------------------------------------------------
// Banks

/// The view of an optional string slice.
pub open spec fn opt_str_ref(o: Option<&str>) -> Option<Seq<char>> {
    match o {
        Some(s) => Some(s@),
        None => None,
    }
}

fn opt_as_str(o: &Option<String>) -> (r: Option<&str>)
    ensures
        opt_str_ref(r) == opt_str(*o),
{
    match o {
        Some(s) => Some(s.as_str()),
        None => None,
    }
}

/// The names of the given entries, in order.
pub open spec fn entry_names<P>(e: Seq<EntryView<P>>) -> Seq<Seq<char>> {
    e.map_values(|x: EntryView<P>| x.name)
}

/// The views of string slices.
pub open spec fn str_views(s: Seq<&str>) -> Seq<Seq<char>> {
    s.map_values(|x: &str| x@)
}

impl<P> Bank<P> {
    pub fn name(&self) -> (r: &str)
        ensures
            r@ == self@.name,
    {
        self.name.as_str()
    }

    pub fn display_name(&self) -> (r: &str)
        ensures
            r@ == self@.display_name,
    {
        self.display_name.as_str()
    }

    /// BCP 47 language tag, when the bank declares one.
    pub fn language(&self) -> (r: Option<&str>)
        ensures
            opt_str_ref(r) == self@.language,
    {
        opt_as_str(&self.language)
    }

    pub fn license(&self) -> (r: Option<&str>)
        ensures
            opt_str_ref(r) == self@.license,
    {
        opt_as_str(&self.license)
    }

    /// Provenance note for the phoneme data.
    pub fn source(&self) -> (r: Option<&str>)
        ensures
            opt_str_ref(r) == self@.source,
    {
        opt_as_str(&self.source)
    }

    /// The phonemes in bank order.
    pub fn entries(&self) -> (r: &[PhonemeEntry<P>])
        ensures
            entry_views(r@) == self@.entries,
    {
        self.entries.as_slice()
    }

    pub fn len(&self) -> (r: usize)
        ensures
            r == self@.entries.len(),
    {
        self.entries.len()
    }

    pub fn is_empty(&self) -> (r: bool)
        ensures
            r == (self@.entries.len() == 0),
    {
        self.entries.len() == 0
    }

    /// The entry at a bank index, for callers that address phonemes
    /// numerically.
    pub fn entry(&self, index: usize) -> (r: Option<&PhonemeEntry<P>>)
        ensures
            index < self@.entries.len() ==> (r matches Some(e) && e@ == self@.entries[index as int]),
            index >= self@.entries.len() ==> r is None,
    {
        if index < self.entries.len() {
            Some(&self.entries[index])
        } else {
            None
        }
    }

    /// The bank index of a phoneme name.
    pub fn index_of(&self, name: &str) -> (r: Option<usize>)
        ensures
            match r {
                Some(k) => entry_index(self@.entries, name@) == k,
                None => entry_index(self@.entries, name@) == -1,
            },
    {
        find_entry(&self.entries, name)
    }

    /// The full entry for a phoneme name.
    pub fn get(&self, name: &str) -> (r: Option<&PhonemeEntry<P>>)
        ensures
            entry_index(self@.entries, name@) >= 0 ==> (r matches Some(e) && e@ == self@.entries[entry_index(self@.entries, name@)]),
            entry_index(self@.entries, name@) < 0 ==> r is None,
    {
        match find_entry(&self.entries, name) {
            Some(k) => Some(&self.entries[k]),
            None => None,
        }
    }

    /// The phoneme names in bank order.
    pub fn name_list(&self) -> (r: Vec<&str>)
        ensures
            str_views(r@) == entry_names(self@.entries),
    {
        let mut out: Vec<&str> = Vec::new();
        let mut i: usize = 0;
        while i < self.entries.len()
            invariant
                i <= self.entries.len(),
                str_views(out@) == entry_names(self@.entries).take(i as int),
            decreases self.entries.len() - i,
        {
            let ghost before = str_views(out@);
            out.push(self.entries[i].name.as_str());
            assert(str_views(out@) =~= before.push(self.entries@[i as int].name@));
            assert(entry_names(self@.entries).take(i + 1) =~= entry_names(self@.entries).take(i as int).push(self.entries@[i as int].name@));
            i += 1;
        }
        assert(entry_names(self@.entries).take(self.entries.len() as int) =~= entry_names(self@.entries));
        out
    }
}

impl<P: Copy> Bank<P> {
    /// The parameters of a phoneme name, if the bank has it.
    pub fn lookup(&self, name: &str) -> (r: Option<P>)
        ensures
            entry_index(self@.entries, name@) >= 0 ==> r == Some(self@.entries[entry_index(self@.entries, name@)].params),
            entry_index(self@.entries, name@) < 0 ==> r is None,
    {
        match find_entry(&self.entries, name) {
            Some(k) => Some(self.entries[k].params),
            None => None,
        }
    }
}

// ---------------------------------------------------------------------------
// The registry

/// Named banks with their `extends` chains resolved.
pub struct BankRegistry<P> {
    authored: Vec<BankSource<P>>,
    resolved: Vec<Bank<P>>,
    default_name: String,
}

pub struct RegistryView<P> {
    /// The registered sources, in registration order.
    pub authored: Seq<SourceView<P>>,
    /// The resolved banks, one per source, in the same order.
    pub banks: Seq<BankView<P>>,
    /// The bank `resolve` falls back to.
    pub default_name: Seq<char>,
}

impl<P> View for BankRegistry<P> {
    type V = RegistryView<P>;

    closed spec fn view(&self) -> RegistryView<P> {
        RegistryView {
            authored: self.authored@.map_values(|s: BankSource<P>| s@),
            banks: self.resolved@.map_values(|b: Bank<P>| b@),
            default_name: self.default_name@,
        }
    }
}

/// A well-formed registry: names are unique, and bank `i` is source `i`
/// resolved among the sources registered up to and including it.
pub open spec fn registry_ok<P>(v: RegistryView<P>) -> bool {
    &&& v.authored.len() == v.banks.len()
    &&& forall|i: int, j: int| 0 <= i < j < v.authored.len() ==> (#[trigger] v.authored[i]).name != (#[trigger] v.authored[j]).name
    &&& forall|i: int| 0 <= i < v.authored.len() ==> {
        &&& resolve_entries(v.authored.take(i + 1), v.authored[i].name, Seq::empty()) == Ok::<Seq<EntryView<P>>, BankErrorView>((#[trigger] v.banks[i]).entries)
        &&& v.banks[i] == bank_of(v.authored[i], v.banks[i].entries)
    }
}

/// `k` is the index of the first bank named `name`, or `-1`.
pub open spec fn is_first_bank<P>(b: Seq<BankView<P>>, name: Seq<char>, k: int) -> bool {
    ||| (k == -1 && forall|j: int| 0 <= j < b.len() ==> (#[trigger] b[j]).name != name)
    ||| (0 <= k < b.len() && b[k].name == name && forall|j: int| 0 <= j < k ==> (#[trigger] b[j]).name != name)
}

/// The index of the first bank named `name`, or `-1`.
pub open spec fn bank_index<P>(b: Seq<BankView<P>>, name: Seq<char>) -> int {
    choose|k: int| is_first_bank(b, name, k)
}

pub proof fn lemma_bank_index<P>(b: Seq<BankView<P>>, name: Seq<char>, k: int)
    requires
        is_first_bank(b, name, k),
    ensures
        bank_index(b, name) == k,
{
    let k2 = bank_index(b, name);
    assert(is_first_bank(b, name, k2));
    if k2 != k && k2 != -1 && k != -1 {
        if k2 < k {
            assert(b[k2].name != name);
        } else {
            assert(b[k].name != name);
        }
    }
}

/// The bank `resolve(name)` answers with: the bank of that name, else the
/// default bank, else the first bank; `-1` only when there is none.
pub open spec fn fallback_index<P>(v: RegistryView<P>, name: Seq<char>) -> int {
    if bank_index(v.banks, name) >= 0 {
        bank_index(v.banks, name)
    } else if bank_index(v.banks, v.default_name) >= 0 {
        bank_index(v.banks, v.default_name)
    } else if v.banks.len() > 0 {
        0
    } else {
        -1
    }
}

impl<P> BankRegistry<P> {
    /// Well-formedness: see [`registry_ok`].
    pub open spec fn wf(&self) -> bool {
        registry_ok(self@)
    }

    /// An empty registry whose default bank is [`DEFAULT_BANK`].
    pub fn new() -> (r: Self)
        ensures
            r.wf(),
            r@.authored.len() == 0,
            r@.banks.len() == 0,
            r@.default_name == DEFAULT_BANK@,
    {
        let r = BankRegistry { authored: Vec::new(), resolved: Vec::new(), default_name: DEFAULT_BANK.to_owned() };
        assert(r@.authored =~= Seq::<SourceView<P>>::empty());
        assert(r@.banks =~= Seq::<BankView<P>>::empty());
        r
    }

    /// Name of the bank [`resolve`][Self::resolve] falls back to.
    pub fn default_name(&self) -> (r: &str)
        ensures
            r@ == self@.default_name,
    {
        self.default_name.as_str()
    }

    /// Change the fallback bank. The name need not exist yet.
    pub fn set_default_name(&mut self, name: &str)
        requires
            old(self).wf(),
        ensures
            final(self).wf(),
            final(self)@ == (RegistryView { default_name: name@, ..old(self)@ }),
    {
        self.default_name = name.to_owned();
    }

    /// Registered bank names, in registration order.
    pub fn list(&self) -> (r: Vec<&str>)
        ensures
            str_views(r@) == source_names(self@.authored),
    {
        let mut out: Vec<&str> = Vec::new();
        let mut i: usize = 0;
        while i < self.authored.len()
            invariant
                i <= self.authored.len(),
                str_views(out@) == source_names(self@.authored).take(i as int),
            decreases self.authored.len() - i,
        {
            let ghost before = str_views(out@);
            out.push(self.authored[i].name.as_str());
            assert(str_views(out@) =~= before.push(self.authored@[i as int].name@));
            assert(source_names(self@.authored).take(i + 1) =~= source_names(self@.authored).take(i as int).push(self.authored@[i as int].name@));
            i += 1;
        }
        assert(source_names(self@.authored).take(self.authored.len() as int) =~= source_names(self@.authored));
        out
    }

    fn find_bank(&self, name: &str) -> (r: Option<usize>)
        ensures
            match r {
                Some(k) => k < self@.banks.len() && bank_index(self@.banks, name@) == k,
                None => bank_index(self@.banks, name@) == -1,
            },
    {
        let ghost b = self@.banks;
        let mut i: usize = 0;
        while i < self.resolved.len()
            invariant
                i <= self.resolved.len(),
                b == self@.banks,
                forall|j: int| 0 <= j < i ==> (#[trigger] b[j]).name != name@,
            decreases self.resolved.len() - i,
        {
            assert(b[i as int] == self.resolved@[i as int]@);
            if str_eq(self.resolved[i].name(), name) {
                proof {
                    lemma_bank_index(b, name@, i as int);
                }
                return Some(i);
            }
            i += 1;
        }
        proof {
            lemma_bank_index(b, name@, -1);
        }
        None
    }

    /// A resolved bank by name, or `None` when it is not registered.
    pub fn get(&self, name: &str) -> (r: Option<&Bank<P>>)
        ensures
            bank_index(self@.banks, name@) >= 0 ==> (r matches Some(b) && b@ == self@.banks[bank_index(self@.banks, name@)]),
            bank_index(self@.banks, name@) < 0 ==> r is None,
    {
        match self.find_bank(name) {
            Some(k) => Some(&self.resolved[k]),
            None => None,
        }
    }

    /// A resolved bank by name, falling back to the default bank, then to the
    /// first registered bank. `None` only when the registry is empty.
    pub fn resolve(&self, name: &str) -> (r: Option<&Bank<P>>)
        ensures
            fallback_index(self@, name@) >= 0 ==> (r matches Some(b) && b@ == self@.banks[fallback_index(self@, name@)]),
            fallback_index(self@, name@) < 0 ==> r is None,
            r is None <==> self@.banks.len() == 0,
    {
        if let Some(k) = self.find_bank(name) {
            return Some(&self.resolved[k]);
        }
        if let Some(k) = self.find_bank(self.default_name.as_str()) {
            return Some(&self.resolved[k]);
        }
        if self.resolved.len() > 0 {
            Some(&self.resolved[0])
        } else {
            None
        }
    }
}

impl<P: Copy> BankRegistry<P> {
    /// Add a bank and resolve it. Registering a bank whose parent is already
    /// present resolves immediately; registering one whose parent is missing
    /// is an error, so register base banks first. On any error the registry
    /// is left exactly as it was.
    pub fn register(&mut self, source: BankSource<P>) -> (r: Result<(), BankError>)
        requires
            old(self).wf(),
        ensures
            final(self).wf(),
            source_names(old(self)@.authored).contains(source@.name) ==> {
                &&& r matches Err(e) && e@ == BankErrorView::DuplicateName(source@.name)
                &&& final(self)@ == old(self)@
            },
            !source_names(old(self)@.authored).contains(source@.name) ==> match resolve_entries(
                old(self)@.authored.push(source@),
                source@.name,
                Seq::empty(),
            ) {
                Ok(e) => {
                    &&& r is Ok
                    &&& final(self)@.authored == old(self)@.authored.push(source@)
                    &&& final(self)@.banks == old(self)@.banks.push(bank_of(source@, e))
                    &&& final(self)@.default_name == old(self)@.default_name
                },
                Err(x) => {
                    &&& r matches Err(e) && e@ == x
                    &&& final(self)@ == old(self)@
                },
            },
    {
        let ghost old_view = self@;
        if let Some(k) = self.find_source_name(source.name.as_str()) {
            return Err(BankError::DuplicateName(source.name));
        }
        let mut visiting: Vec<String> = Vec::new();
        assert(string_views(visiting@) =~= Seq::<Seq<char>>::empty());
        assert(sources_with(self.authored@, source) =~= old_view.authored.push(source@));
        let resolved = resolve_exec(&self.authored, &source, source.name.as_str(), &mut visiting);
        match resolved {
            Err(e) => Err(e),
            Ok(entries) => {
                let bank = Bank {
                    name: source.name.clone(),
                    display_name: source.display_name.clone(),
                    language: copy_opt_str(&source.language),
                    license: copy_opt_str(&source.license),
                    source: copy_opt_str(&source.source),
                    entries,
                };
                let ghost new_bank = bank@;
                self.authored.push(source);
                self.resolved.push(bank);
                proof {
                    let v = self@;
                    let n: int = old_view.authored.len() as int;
                    assert(v.authored =~= old_view.authored.push(source@));
                    assert(v.banks =~= old_view.banks.push(new_bank));
                    assert(v.authored.take(n + 1) =~= v.authored);
                    assert forall|i: int| 0 <= i < v.authored.len() implies {
                        &&& resolve_entries(v.authored.take(i + 1), v.authored[i].name, Seq::empty()) == Ok::<Seq<EntryView<P>>, BankErrorView>((#[trigger] v.banks[i]).entries)
                        &&& v.banks[i] == bank_of(v.authored[i], v.banks[i].entries)
                    } by {
                        if i < n {
                            assert(v.authored.take(i + 1) =~= old_view.authored.take(i + 1));
                            assert(v.authored[i] == old_view.authored[i]);
                            assert(v.banks[i] == old_view.banks[i]);
                        }
                    }
                    assert forall|i: int, j: int| 0 <= i < j < v.authored.len() implies (#[trigger] v.authored[i]).name != (#[trigger] v.authored[j]).name by {
                        if j == n {
                            assert(source_names(old_view.authored)[i] == old_view.authored[i].name);
                        }
                    }
                }
                Ok(())
            },
        }
    }

    /// The index of the source named `name`, if one is registered.
    fn find_source_name(&self, name: &str) -> (r: Option<usize>)
        ensures
            r is Some <==> source_names(self@.authored).contains(name@),
    {
        let ghost names = source_names(self@.authored);
        let mut i: usize = 0;
        while i < self.authored.len()
            invariant
                i <= self.authored.len(),
                names == source_names(self@.authored),
                forall|j: int| 0 <= j < i ==> names[j] != name@,
            decreases self.authored.len() - i,
        {
            assert(names[i as int] == self.authored@[i as int].name@);
            if str_eq(self.authored[i].name.as_str(), name) {
                return Some(i);
            }
            i += 1;
        }
        None
    }
}

// ---------------------------------------------------------------------------
// Laws of banks

/// A definition for a name the list already has replaces that entry in
/// place, so no phoneme is renumbered; a definition for a new name appends.
pub proof fn definition_overrides_in_place<P>(e: Seq<EntryView<P>>, entry: EntryView<P>)
    ensures
        ({
            let r = apply_edit(e, EditView::Define(entry));
            let i = entry_index(e, entry.name);
            &&& i >= 0 ==> {
                &&& r.len() == e.len()
                &&& r[i] == entry
                &&& forall|j: int| 0 <= j < e.len() && j != i ==> r[j] == e[j]
            }
            &&& i < 0 ==> {
                &&& r.len() == e.len() + 1
                &&& r[e.len() as int] == entry
                &&& forall|j: int| 0 <= j < e.len() ==> r[j] == e[j]
            }
        }),
{
    lemma_entry_index_exists(e, entry.name);
}

/// A removal drops the entry of that name and keeps the others in order; a
/// removal of an absent name changes nothing.
pub proof fn removal_drops_only_that_entry<P>(e: Seq<EntryView<P>>, name: Seq<char>)
    ensures
        ({
            let r = apply_edit(e, EditView::Remove(name));
            let i = entry_index(e, name);
            &&& i >= 0 ==> {
                &&& r.len() == e.len() - 1
                &&& forall|j: int| 0 <= j < i ==> r[j] == e[j]
                &&& forall|j: int| i <= j < r.len() ==> r[j] == e[j + 1]
            }
            &&& i < 0 ==> r == e
        }),
{
    lemma_entry_index_exists(e, name);
}

/// Resolution that succeeds among the sources `s` gives the same entries
/// among any longer list `t` that starts with `s`, with extra names that `s`
/// does not use ahead of the chain being resolved.
proof fn lemma_resolve_stable<P>(
    s: Seq<SourceView<P>>,
    t: Seq<SourceView<P>>,
    name: Seq<char>,
    vis: Seq<Seq<char>>,
    extra: Seq<Seq<char>>,
)
    requires
        s.len() <= t.len(),
        t.take(s.len() as int) == s,
        resolve_entries(s, name, vis) is Ok,
        forall|x: Seq<char>| extra.contains(x) ==> !source_names(s).contains(x),
    ensures
        resolve_entries(t, name, extra + vis) == resolve_entries(s, name, vis),
    decreases unvisited(s, vis),
{
    lemma_source_index_exists(s, name);
    let k = source_index(s, name);
    assert(0 <= k < s.len());
    assert(t[k] == s[k]);
    assert forall|j: int| 0 <= j < k implies (#[trigger] t[j]).name != name by {
        assert(t[j] == s[j]);
    }
    lemma_source_index(t, name, k);
    assert(source_names(s)[k] == name);
    assert(!extra.contains(name));
    assert(!(extra + vis).contains(name)) by {
        if (extra + vis).contains(name) {
            let j = choose|j: int| 0 <= j < (extra + vis).len() && (extra + vis)[j] == name;
            if j < extra.len() {
                assert(extra[j] == name);
            } else {
                assert(vis[j - extra.len()] == name);
            }
        }
    }
    match s[k].extends {
        Some(parent) => {
            lemma_unvisited_shrinks(s, vis, k);
            assert((extra + vis).push(name) =~= extra + vis.push(name));
            lemma_resolve_stable(s, t, parent, vis.push(name), extra);
        },
        None => {},
    }
}

/// A bank that extends a registered parent resolves to the parent's entries
/// with its own edits applied in order: registering it succeeds, and its
/// entries are exactly those.
pub proof fn child_resolves_to_parent_with_edits<P>(before: RegistryView<P>, src: SourceView<P>, parent: Seq<char>)
    requires
        registry_ok(before),
        src.extends == Some(parent),
        !source_names(before.authored).contains(src.name),
        bank_index(before.banks, parent) >= 0,
    ensures
        resolve_entries(before.authored.push(src), src.name, Seq::empty()) == Ok::<Seq<EntryView<P>>, BankErrorView>(
            apply_edits(before.banks[bank_index(before.banks, parent)].entries, src.edits),
        ),
{
    let a = before.authored;
    let t = a.push(src);
    let n = a.len() as int;
    assert forall|j: int| 0 <= j < n implies (#[trigger] t[j]).name != src.name by {
        assert(t[j] == a[j]);
        assert(source_names(a)[j] == a[j].name);
    }
    lemma_source_index(t, src.name, n);
    let j = bank_index(before.banks, parent);
    lemma_bank_index_is_first(before.banks, parent);
    assert(before.banks[j] == bank_of(a[j], before.banks[j].entries));
    let s = a.take(j + 1);
    assert(t.take(s.len() as int) =~= s);
    assert forall|x: Seq<char>| seq![src.name].contains(x) implies !source_names(s).contains(x) by {
        assert(seq![src.name][0] == src.name);
        if source_names(s).contains(x) {
            let i = choose|i: int| 0 <= i < source_names(s).len() && source_names(s)[i] == x;
            assert(s[i] == a[i]);
            assert(source_names(a)[i] == x);
        }
    }
    lemma_resolve_stable(s, t, parent, Seq::empty(), seq![src.name]);
    assert(seq![src.name] + Seq::<Seq<char>>::empty() =~= Seq::<Seq<char>>::empty().push(src.name));
}

pub proof fn lemma_bank_index_is_first<P>(b: Seq<BankView<P>>, name: Seq<char>)
    requires
        bank_index(b, name) >= 0,
    ensures
        is_first_bank(b, name, bank_index(b, name)),
{
    lemma_bank_index_exists(b, name);
}

/// Every name has a first bank, or none at all.
pub proof fn lemma_bank_index_exists<P>(b: Seq<BankView<P>>, name: Seq<char>)
    ensures
        is_first_bank(b, name, bank_index(b, name)),
    decreases b.len(),
{
    if b.len() == 0 {
        assert(is_first_bank(b, name, -1));
    } else {
        let init = b.drop_last();
        lemma_bank_index_exists(init, name);
        let k = bank_index(init, name);
        assert(forall|j: int| 0 <= j < init.len() ==> #[trigger] b[j] == init[j]);
        if k >= 0 {
            assert(is_first_bank(b, name, k));
        } else if b.last().name == name {
            assert(is_first_bank(b, name, b.len() - 1));
        } else {
            assert(is_first_bank(b, name, -1));
        }
    }
}

/// No two entries share a name.
pub open spec fn names_distinct<P>(e: Seq<EntryView<P>>) -> bool {
    forall|i: int, j: int| 0 <= i < j < e.len() ==> (#[trigger] e[i]).name != (#[trigger] e[j]).name
}

proof fn lemma_apply_edit_distinct<P>(e: Seq<EntryView<P>>, edit: EditView<P>)
    requires
        names_distinct(e),
    ensures
        names_distinct(apply_edit(e, edit)),
{
    lemma_entry_index_exists(e, edit.name());
    let i = entry_index(e, edit.name());
    let r = apply_edit(e, edit);
    match edit {
        EditView::Define(entry) => {
            if i >= 0 {
                assert forall|a: int, b: int| 0 <= a < b < r.len() implies (#[trigger] r[a]).name != (#[trigger] r[b]).name by {
                    if a == i {
                        assert(r[b] == e[b]);
                    } else if b == i {
                        assert(r[a] == e[a]);
                    } else {
                        assert(r[a] == e[a] && r[b] == e[b]);
                    }
                }
            } else {
                assert forall|a: int, b: int| 0 <= a < b < r.len() implies (#[trigger] r[a]).name != (#[trigger] r[b]).name by {
                    assert(r[a] == e[a]);
                    if b < e.len() {
                        assert(r[b] == e[b]);
                    }
                }
            }
        },
        EditView::Remove(_) => {
            if i >= 0 {
                assert forall|a: int, b: int| 0 <= a < b < r.len() implies (#[trigger] r[a]).name != (#[trigger] r[b]).name by {
                    let a0 = if a < i { a } else { a + 1 };
                    let b0 = if b < i { b } else { b + 1 };
                    assert(r[a] == e[a0] && r[b] == e[b0]);
                }
            }
        },
    }
}

proof fn lemma_apply_edits_distinct<P>(e: Seq<EntryView<P>>, edits: Seq<EditView<P>>)
    requires
        names_distinct(e),
    ensures
        names_distinct(apply_edits(e, edits)),
    decreases edits.len(),
{
    if edits.len() > 0 {
        lemma_apply_edits_distinct(e, edits.drop_last());
        lemma_apply_edit_distinct(apply_edits(e, edits.drop_last()), edits.last());
    }
}

/// A resolved bank never holds two entries of the same name, whatever its
/// sources hold: each definition either replaces the entry of its name or
/// adds a new name, and a removal only drops an entry. So a phoneme name
/// addresses exactly one index of a bank.
pub proof fn resolved_names_are_distinct<P>(a: Seq<SourceView<P>>, name: Seq<char>, visiting: Seq<Seq<char>>)
    ensures
        resolve_entries(a, name, visiting) matches Ok(e) ==> names_distinct(e),
    decreases unvisited(a, visiting),
{
    if !visiting.contains(name) {
        let k = source_index(a, name);
        if k >= 0 {
            let src = a[k];
            match src.extends {
                Some(parent) => {
                    lemma_source_index_exists(a, name);
                    lemma_unvisited_shrinks(a, visiting, k);
                    resolved_names_are_distinct(a, parent, visiting.push(name));
                    if let Ok(e) = resolve_entries(a, parent, visiting.push(name)) {
                        lemma_apply_edits_distinct(e, src.edits);
                    }
                },
                None => {
                    lemma_apply_edits_distinct(Seq::<EntryView<P>>::empty(), src.edits);
                },
            }
        }
    }
}

/// In a well-formed registry, no bank holds two entries of the same name.
pub proof fn registered_banks_have_distinct_names<P>(v: RegistryView<P>)
    requires
        registry_ok(v),
    ensures
        forall|i: int| 0 <= i < v.banks.len() ==> names_distinct(#[trigger] v.banks[i].entries),
{
    assert forall|i: int| 0 <= i < v.banks.len() implies names_distinct(#[trigger] v.banks[i].entries) by {
        resolved_names_are_distinct(v.authored.take(i + 1), v.authored[i].name, Seq::empty());
    }
}

/// In a well-formed registry, the bank at index `k` carries the name of
/// the source at `k`, and no other bank does.
proof fn lemma_bank_index_of_source<P>(v: RegistryView<P>, k: int)
    requires
        registry_ok(v),
        0 <= k < v.authored.len(),
    ensures
        bank_index(v.banks, v.authored[k].name) == k,
{
    let name = v.authored[k].name;
    assert(v.banks[k] == bank_of(v.authored[k], v.banks[k].entries));
    assert forall|j: int| 0 <= j < k implies (#[trigger] v.banks[j]).name != name by {
        assert(v.banks[j] == bank_of(v.authored[j], v.banks[j].entries));
    }
    lemma_bank_index(v.banks, name, k);
}

/// Every registered bank is its own source's edits applied, in order, to
/// the entries of the bank it extends, which was registered before it (or
/// to no entries when it extends none). Its name and metadata are its
/// source's own, never inherited, and no two of its entries share a name.
pub proof fn registered_bank_is_parent_with_edits<P>(v: RegistryView<P>, i: int)
    requires
        registry_ok(v),
        0 <= i < v.banks.len(),
    ensures
        v.banks[i] == bank_of(v.authored[i], v.banks[i].entries),
        names_distinct(v.banks[i].entries),
        v.authored[i].extends is None ==> v.banks[i].entries == apply_edits(
            Seq::<EntryView<P>>::empty(),
            v.authored[i].edits,
        ),
        v.authored[i].extends matches Some(p) ==> {
            &&& 0 <= bank_index(v.banks, p) < i
            &&& v.banks[i].entries == apply_edits(v.banks[bank_index(v.banks, p)].entries, v.authored[i].edits)
        },
{
    registered_banks_have_distinct_names(v);
    let a = v.authored;
    let si = a.take(i + 1);
    let name = a[i].name;
    assert forall|k: int| 0 <= k < i implies (#[trigger] si[k]).name != name by {
        assert(si[k] == a[k]);
    }
    lemma_source_index(si, name, i);
    let r = resolve_entries(si, name, Seq::empty());
    assert(r == Ok::<Seq<EntryView<P>>, BankErrorView>(v.banks[i].entries));
    assert(!Seq::<Seq<char>>::empty().contains(name));
    match a[i].extends {
        None => {},
        Some(p) => {
            let vis = Seq::<Seq<char>>::empty().push(name);
            assert(vis =~= seq![name]);
            lemma_source_index_exists(si, p);
            let j = source_index(si, p);
            let base = resolve_entries(si, p, vis);
            assert(base is Ok);
            if p == name {
                assert(vis.contains(p)) by {
                    assert(vis[0] == p);
                }
                assert(false);
            }
            if j < 0 {
                assert(!vis.contains(p)) by {
                    if vis.contains(p) {
                        let x = choose|x: int| 0 <= x < vis.len() && vis[x] == p;
                        assert(vis[x] == name);
                    }
                }
                assert(false);
            }
            assert(j != i);
            assert(0 <= j < i);
            let sj = a.take(j + 1);
            assert(si.take(sj.len() as int) =~= sj);
            assert(sj[j] == a[j]);
            assert(si[j] == a[j]);
            assert(a[j].name == p);
            assert(resolve_entries(sj, a[j].name, Seq::empty()) == Ok::<Seq<EntryView<P>>, BankErrorView>(v.banks[j].entries));
            assert forall|x: Seq<char>| vis.contains(x) implies !source_names(sj).contains(x) by {
                if vis.contains(x) {
                    let y = choose|y: int| 0 <= y < vis.len() && vis[y] == x;
                    assert(vis[y] == name);
                }
                if source_names(sj).contains(x) {
                    let y = choose|y: int| 0 <= y < source_names(sj).len() && source_names(sj)[y] == x;
                    assert(sj[y] == a[y]);
                    assert(a[y].name == x);
                    assert(y < i);
                }
            }
            lemma_resolve_stable(sj, si, p, Seq::empty(), vis);
            assert(vis + Seq::<Seq<char>>::empty() =~= vis);
            lemma_bank_index_of_source(v, j);
        },
    }
}

/// The source extends nothing, or extends one of the sources `a`.
pub open spec fn parent_registered<P>(a: Seq<SourceView<P>>, src: SourceView<P>) -> bool {
    match src.extends {
        None => true,
        Some(p) => source_names(a).contains(p),
    }
}

/// Registering a source whose name is new succeeds exactly when it extends
/// nothing or extends a bank already registered; one that extends nothing
/// resolves to its edits applied to no entries. (A duplicate name is
/// refused before resolution; see `register`.)
pub proof fn registration_succeeds_exactly_with_known_parent<P>(before: RegistryView<P>, src: SourceView<P>)
    requires
        registry_ok(before),
        !source_names(before.authored).contains(src.name),
    ensures
        resolve_entries(before.authored.push(src), src.name, Seq::empty()) is Ok <==> parent_registered(
            before.authored,
            src,
        ),
        src.extends is None ==> resolve_entries(before.authored.push(src), src.name, Seq::empty())
            == Ok::<Seq<EntryView<P>>, BankErrorView>(apply_edits(Seq::<EntryView<P>>::empty(), src.edits)),
{
    let a = before.authored;
    let t = a.push(src);
    let n = a.len() as int;
    assert forall|j: int| 0 <= j < n implies (#[trigger] t[j]).name != src.name by {
        assert(t[j] == a[j]);
        assert(source_names(a)[j] == a[j].name);
    }
    lemma_source_index(t, src.name, n);
    assert(!Seq::<Seq<char>>::empty().contains(src.name));
    assert(t[n] == src);
    match src.extends {
        None => {
            assert(resolve_entries(t, src.name, Seq::empty()) == Ok::<Seq<EntryView<P>>, BankErrorView>(
                apply_edits(Seq::<EntryView<P>>::empty(), src.edits),
            ));
        },
        Some(p) => {
            if source_names(a).contains(p) {
                let k = choose|k: int| 0 <= k < source_names(a).len() && source_names(a)[k] == p;
                assert(a[k].name == p);
                lemma_bank_index_of_source(before, k);
                child_resolves_to_parent_with_edits(before, src, p);
            } else {
                let vis = Seq::<Seq<char>>::empty().push(src.name);
                if p == src.name {
                    assert(vis.contains(p)) by {
                        assert(vis[0] == p);
                    }
                    assert(resolve_entries(t, p, vis) is Err);
                } else {
                    assert(!vis.contains(p)) by {
                        if vis.contains(p) {
                            let x = choose|x: int| 0 <= x < vis.len() && vis[x] == p;
                            assert(vis[x] == src.name);
                        }
                    }
                    assert forall|j: int| 0 <= j < t.len() implies (#[trigger] t[j]).name != p by {
                        if j < n {
                            assert(t[j] == a[j]);
                            assert(source_names(a)[j] == a[j].name);
                        }
                    }
                    lemma_source_index(t, p, -1);
                    assert(resolve_entries(t, p, vis) is Err);
                }
                assert(resolve_entries(t, src.name, Seq::empty()) is Err);
            }
        },
    }
}

/// A successful registration appends the new name to the list and leaves
/// every earlier bank where it was: a lookup of any other name finds the
/// same bank as before, and the new name finds the new bank.
pub proof fn registration_keeps_the_other_banks<P>(before: RegistryView<P>, src: SourceView<P>, bank: BankView<P>)
    requires
        registry_ok(before),
        !source_names(before.authored).contains(src.name),
        bank.name == src.name,
    ensures
        source_names(before.authored.push(src)) == source_names(before.authored).push(src.name),
        forall|n: Seq<char>| n != src.name ==> #[trigger] bank_index(before.banks.push(bank), n) == bank_index(before.banks, n),
        bank_index(before.banks.push(bank), src.name) == before.banks.len(),
{
    let b = before.banks;
    let nb = b.push(bank);
    assert(source_names(before.authored.push(src)) =~= source_names(before.authored).push(src.name));
    assert forall|n: Seq<char>| n != src.name implies #[trigger] bank_index(nb, n) == bank_index(b, n) by {
        lemma_bank_index_exists(b, n);
        let k = bank_index(b, n);
        assert forall|j: int| 0 <= j < b.len() implies #[trigger] nb[j] == b[j] by {}
        if k >= 0 {
            lemma_bank_index(nb, n, k);
        } else {
            lemma_bank_index(nb, n, -1);
        }
    }
    assert forall|j: int| 0 <= j < b.len() implies (#[trigger] nb[j]).name != src.name by {
        assert(nb[j] == b[j]);
        assert(b[j] == bank_of(before.authored[j], b[j].entries));
        assert(source_names(before.authored)[j] == before.authored[j].name);
    }
    lemma_bank_index(nb, src.name, b.len() as int);
}

/// Whether a bank named `name` is among `b`.
pub open spec fn has_bank<P>(b: Seq<BankView<P>>, name: Seq<char>) -> bool {
    exists|k: int| 0 <= k < b.len() && (#[trigger] b[k]).name == name
}

/// `resolve(name)` answers with a bank named `name` when there is one;
/// otherwise with a bank named by the registry's default name when there is
/// one; otherwise with the first registered bank; and with nothing only when
/// no bank is registered.
pub proof fn resolve_prefers_the_name_then_the_default<P>(v: RegistryView<P>, name: Seq<char>)
    ensures
        has_bank(v.banks, name) ==> 0 <= fallback_index(v, name) < v.banks.len()
            && v.banks[fallback_index(v, name)].name == name,
        !has_bank(v.banks, name) && has_bank(v.banks, v.default_name) ==> 0 <= fallback_index(v, name)
            < v.banks.len() && v.banks[fallback_index(v, name)].name == v.default_name,
        !has_bank(v.banks, name) && !has_bank(v.banks, v.default_name) ==> fallback_index(v, name)
            == (if v.banks.len() > 0 { 0int } else { -1int }),
{
    lemma_bank_index_exists(v.banks, name);
    lemma_bank_index_exists(v.banks, v.default_name);
    if has_bank(v.banks, name) {
        let k = choose|k: int| 0 <= k < v.banks.len() && (#[trigger] v.banks[k]).name == name;
        assert(bank_index(v.banks, name) >= 0);
    } else {
        assert(bank_index(v.banks, name) < 0) by {
            if bank_index(v.banks, name) >= 0 {
                assert(v.banks[bank_index(v.banks, name)].name == name);
            }
        }
        if has_bank(v.banks, v.default_name) {
            let k = choose|k: int| 0 <= k < v.banks.len() && (#[trigger] v.banks[k]).name == v.default_name;
            assert(bank_index(v.banks, v.default_name) >= 0);
        } else {
            assert(bank_index(v.banks, v.default_name) < 0) by {
                if bank_index(v.banks, v.default_name) >= 0 {
                    assert(v.banks[bank_index(v.banks, v.default_name)].name == v.default_name);
                }
            }
        }
    }
}

} // verus!
