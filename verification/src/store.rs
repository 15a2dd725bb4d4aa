//! The in-memory store: registered folder names plus entry storage grouped
//! by folder name.
use vstd::prelude::*;
use vstd::string::StrSliceExecFns;

verus! {

/// One stored entry: a name and the value (typically a URL) kept under it.
#[derive(Debug)]
pub(crate) struct Entry {
    pub(crate) name: String,
    pub(crate) value: String,
}

/// The entries stored under one folder name, in insertion order.
#[derive(Debug)]
pub(crate) struct Group {
    pub(crate) name: String,
    pub(crate) entries: Vec<Entry>,
}

/// A hierarchical name -> value registry: folders containing named entries.
///
/// Folder registration is tracked separately from entry storage:
/// `set_in_folder` deliberately does not require its folder to have been
/// registered with `add_folder` first, and `list_folder` surfaces entries of
/// unregistered folders too. Removing a folder removes its registration and
/// every entry stored under exactly that folder name. Names and values are
/// arbitrary strings to the store — the empty string included; only the
/// codec restricts them, by reserving its delimiter characters.
#[derive(Debug)]
pub struct FolderSet {
    /// Registered folder names, in registration order, pairwise distinct.
    pub(crate) folders: Vec<String>,
    /// Entry storage, one non-empty group per folder name that holds entries;
    /// group names are pairwise distinct and entry names are distinct within
    /// each group.
    pub(crate) groups: Vec<Group>,
}

/// The mathematical content of a `FolderSet`: the set of registered folder
/// names, and the nested folder name -> (entry name -> value) mapping.
/// A folder name is in the domain of `entries` exactly when at least one
/// entry is stored under it.
#[verifier::ext_equal]
pub struct StoreView {
    pub folders: Set<Seq<char>>,
    pub entries: Map<Seq<char>, Map<Seq<char>, Seq<char>>>,
}

/// The set of character sequences that the strings of `s` view to.
pub open spec fn name_set(s: Seq<String>) -> Set<Seq<char>>
    decreases s.len(),
{
    if s.len() == 0 {
        Set::empty()
    } else {
        name_set(s.drop_last()).insert(s.last()@)
    }
}

/// The name -> value map held by a sequence of entries; a later entry with
/// the same name overrides an earlier one.
pub(crate) open spec fn entries_map(s: Seq<Entry>) -> Map<Seq<char>, Seq<char>>
    decreases s.len(),
{
    if s.len() == 0 {
        Map::empty()
    } else {
        entries_map(s.drop_last()).insert(s.last().name@, s.last().value@)
    }
}

/// The folder name -> entry map mapping held by a sequence of groups.
pub(crate) open spec fn groups_map(s: Seq<Group>) -> Map<Seq<char>, Map<Seq<char>, Seq<char>>>
    decreases s.len(),
{
    if s.len() == 0 {
        Map::empty()
    } else {
        groups_map(s.drop_last()).insert(s.last().name@, entries_map(s.last().entries@))
    }
}

/// The view of a store with no folders and no entries.
pub open spec fn empty_view() -> StoreView {
    StoreView { folders: Set::empty(), entries: Map::empty() }
}

/// The view after registering `name` as a folder.
pub open spec fn with_folder(v: StoreView, name: Seq<char>) -> StoreView {
    StoreView { folders: v.folders.insert(name), entries: v.entries }
}

/// The entry map stored under `folder`: empty when no entry is stored there.
pub open spec fn stored_entries(v: StoreView, folder: Seq<char>) -> Map<Seq<char>, Seq<char>> {
    if v.entries.dom().contains(folder) {
        v.entries[folder]
    } else {
        Map::empty()
    }
}

/// The view after writing `value` under `(folder, name)`.
pub open spec fn with_entry(
    v: StoreView,
    folder: Seq<char>,
    name: Seq<char>,
    value: Seq<char>,
) -> StoreView {
    StoreView {
        folders: v.folders,
        entries: v.entries.insert(folder, stored_entries(v, folder).insert(name, value)),
    }
}

/// The value stored under `(folder, name)`, or `None` when absent.
pub open spec fn lookup(v: StoreView, folder: Seq<char>, name: Seq<char>) -> Option<Seq<char>> {
    if stored_entries(v, folder).dom().contains(name) {
        Some(stored_entries(v, folder)[name])
    } else {
        None
    }
}

/// The names of the entries stored under `folder`.
pub open spec fn entry_names(v: StoreView, folder: Seq<char>) -> Set<Seq<char>> {
    stored_entries(v, folder).dom()
}

/// The view after removing folder `name`: its registration and every entry
/// stored under exactly that folder name.
pub open spec fn without_folder(v: StoreView, name: Seq<char>) -> StoreView {
    StoreView { folders: v.folders.remove(name), entries: v.entries.remove(name) }
}

/// The view after removing the entry `(folder, name)`; absent entries leave
/// the view unchanged, and a folder whose last entry is removed leaves the
/// domain of `entries`.
pub open spec fn without_entry(v: StoreView, folder: Seq<char>, name: Seq<char>) -> StoreView {
    if lookup(v, folder, name) is None {
        v
    } else if stored_entries(v, folder).dom() == set![name] {
        StoreView { folders: v.folders, entries: v.entries.remove(folder) }
    } else {
        StoreView {
            folders: v.folders,
            entries: v.entries.insert(folder, stored_entries(v, folder).remove(name)),
        }
    }
}

/// The strings of `s` view to pairwise distinct character sequences.
pub open spec fn distinct_strings(s: Seq<String>) -> bool {
    forall|i: int, j: int| 0 <= i < j < s.len() ==> s[i]@ != s[j]@
}

/// The entries of `s` carry pairwise distinct names.
pub(crate) open spec fn distinct_entries(s: Seq<Entry>) -> bool {
    forall|i: int, j: int| 0 <= i < j < s.len() ==> s[i].name@ != s[j].name@
}

/// A well-formed group holds at least one entry, under distinct names.
pub(crate) open spec fn group_wf(g: Group) -> bool {
    &&& g.entries@.len() > 0
    &&& distinct_entries(g.entries@)
}

/// The groups of `s` carry pairwise distinct folder names.
pub(crate) open spec fn distinct_groups(s: Seq<Group>) -> bool {
    forall|i: int, j: int| 0 <= i < j < s.len() ==> s[i].name@ != s[j].name@
}

/// Well-formedness of the representation: distinct registered folder names,
/// distinct group names, and each group non-empty with distinct entry names.
pub(crate) open spec fn rep_wf(fs: FolderSet) -> bool {
    &&& distinct_strings(fs.folders@)
    &&& distinct_groups(fs.groups@)
    &&& forall|k: int| 0 <= k < fs.groups@.len() ==> group_wf(#[trigger] fs.groups@[k])
}

/// The view of a representation.
pub(crate) open spec fn rep_view(fs: FolderSet) -> StoreView {
    StoreView { folders: name_set(fs.folders@), entries: groups_map(fs.groups@) }
}

impl View for FolderSet {
    type V = StoreView;

    closed spec fn view(&self) -> StoreView {
        rep_view(*self)
    }
}

impl FolderSet {
    /// Well-formedness; established by the constructors and preserved by
    /// every operation.
    pub closed spec fn wf(&self) -> bool {
        rep_wf(*self)
    }
}

/// Opens the closed `view` and `wf` of `FolderSet` for the crate's own proofs.
pub(crate) proof fn lemma_rep(fs: FolderSet)
    ensures
        fs@ == rep_view(fs),
        fs.wf() == rep_wf(fs),
{
}

/// Membership in `name_set` is existence of an index with that view.
pub(crate) proof fn lemma_name_set_contains(s: Seq<String>, x: Seq<char>)
    ensures
        name_set(s).contains(x) <==> (exists|i: int| 0 <= i < s.len() && s[i]@ == x),
    decreases s.len(),
{
    if s.len() > 0 {
        lemma_name_set_contains(s.drop_last(), x);
        if s.last()@ == x {
            assert(s[s.len() - 1]@ == x);
        } else if name_set(s).contains(x) {
            let i = choose|i: int| 0 <= i < s.drop_last().len() && s.drop_last()[i]@ == x;
            assert(s[i]@ == x);
        } else if exists|i: int| 0 <= i < s.len() && s[i]@ == x {
            let i = choose|i: int| 0 <= i < s.len() && s[i]@ == x;
            assert(s.drop_last()[i]@ == x);
        }
    }
}

/// Removal from a sequence of distinct strings keeps the views distinct.
pub(crate) proof fn lemma_distinct_strings_remove(s: Seq<String>, i: int)
    requires
        distinct_strings(s),
        0 <= i < s.len(),
    ensures
        distinct_strings(s.remove(i)),
{
    s.remove_ensures(i);
    assert forall|a: int, b: int| 0 <= a < b < s.remove(i).len() implies s.remove(i)[a]@ != s.remove(
        i,
    )[b]@ by {
        let a0: int = if a < i {
            a
        } else {
            a + 1
        };
        let b0: int = if b < i {
            b
        } else {
            b + 1
        };
        assert(s.remove(i)[a] == s[a0]);
        assert(s.remove(i)[b] == s[b0]);
    }
}

/// Removing index `i` from distinct strings removes exactly its view from the
/// name set.
pub(crate) proof fn lemma_name_set_remove(s: Seq<String>, i: int)
    requires
        distinct_strings(s),
        0 <= i < s.len(),
    ensures
        name_set(s.remove(i)) == name_set(s).remove(s[i]@),
{
    s.remove_ensures(i);
    assert forall|x: Seq<char>|
        name_set(s.remove(i)).contains(x) == name_set(s).remove(s[i]@).contains(x) by {
        lemma_name_set_contains(s, x);
        lemma_name_set_contains(s.remove(i), x);
        if name_set(s).remove(s[i]@).contains(x) {
            let j = choose|j: int| 0 <= j < s.len() && s[j]@ == x;
            let j2: int = if j < i {
                j
            } else {
                j - 1
            };
            assert(s.remove(i)[j2]@ == x);
        } else if name_set(s.remove(i)).contains(x) {
            let j = choose|j: int| 0 <= j < s.remove(i).len() && s.remove(i)[j]@ == x;
            let j0: int = if j < i {
                j
            } else {
                j + 1
            };
            assert(s[j0]@ == x);
        }
    }
    assert(name_set(s.remove(i)) =~= name_set(s).remove(s[i]@));
}

/// Membership in the domain of `entries_map` is existence of an entry with
/// that name.
pub(crate) proof fn lemma_entries_map_dom(s: Seq<Entry>, x: Seq<char>)
    ensures
        entries_map(s).dom().contains(x) <==> (exists|i: int|
            0 <= i < s.len() && s[i].name@ == x),
    decreases s.len(),
{
    if s.len() > 0 {
        lemma_entries_map_dom(s.drop_last(), x);
        if s.last().name@ == x {
            assert(s[s.len() - 1].name@ == x);
        } else if entries_map(s).dom().contains(x) {
            let i = choose|i: int| 0 <= i < s.drop_last().len() && s.drop_last()[i].name@ == x;
            assert(s[i].name@ == x);
        } else if exists|i: int| 0 <= i < s.len() && s[i].name@ == x {
            let i = choose|i: int| 0 <= i < s.len() && s[i].name@ == x;
            assert(s.drop_last()[i].name@ == x);
        }
    }
}

/// Under distinct names, `entries_map` maps each entry's name to its value.
pub(crate) proof fn lemma_entries_map_index(s: Seq<Entry>, i: int)
    requires
        distinct_entries(s),
        0 <= i < s.len(),
    ensures
        entries_map(s).dom().contains(s[i].name@),
        entries_map(s)[s[i].name@] == s[i].value@,
    decreases s.len(),
{
    if i < s.len() - 1 {
        lemma_entries_map_index(s.drop_last(), i);
        assert(s.drop_last()[i] == s[i]);
        assert(s[i].name@ != s.last().name@);
    }
}

/// Under distinct names, updating the entry at `i` to one with the same name
/// updates the map at that name.
pub(crate) proof fn lemma_entries_map_update(s: Seq<Entry>, i: int, e: Entry)
    requires
        distinct_entries(s),
        0 <= i < s.len(),
        e.name@ == s[i].name@,
    ensures
        entries_map(s.update(i, e)) == entries_map(s).insert(e.name@, e.value@),
    decreases s.len(),
{
    if i == s.len() - 1 {
        assert(s.update(i, e).drop_last() =~= s.drop_last());
        assert(s.update(i, e).last() == e);
        assert(entries_map(s.update(i, e)) =~= entries_map(s).insert(e.name@, e.value@));
    } else {
        assert(s.update(i, e).drop_last() =~= s.drop_last().update(i, e));
        assert(s.drop_last()[i] == s[i]);
        lemma_entries_map_update(s.drop_last(), i, e);
        assert(s.update(i, e).last() == s.last());
        assert(e.name@ != s.last().name@);
        assert(entries_map(s.update(i, e)) =~= entries_map(s).insert(e.name@, e.value@));
    }
}

/// Under distinct names, removing the entry at `i` removes exactly its name
/// from the map.
pub(crate) proof fn lemma_entries_map_remove(s: Seq<Entry>, i: int)
    requires
        distinct_entries(s),
        0 <= i < s.len(),
    ensures
        entries_map(s.remove(i)) == entries_map(s).remove(s[i].name@),
    decreases s.len(),
{
    s.remove_ensures(i);
    if i == s.len() - 1 {
        assert(s.remove(i) =~= s.drop_last());
        lemma_entries_map_dom(s.drop_last(), s[i].name@);
        assert(entries_map(s.remove(i)) =~= entries_map(s).remove(s[i].name@));
    } else {
        assert(s.remove(i).drop_last() =~= s.drop_last().remove(i));
        assert(s.drop_last()[i] == s[i]);
        lemma_entries_map_remove(s.drop_last(), i);
        assert(s.remove(i).last() == s.last());
        assert(s[i].name@ != s.last().name@);
        assert(entries_map(s.remove(i)) =~= entries_map(s).remove(s[i].name@));
    }
}

/// Membership in the domain of `groups_map` is existence of a group with
/// that name.
pub(crate) proof fn lemma_groups_map_dom(s: Seq<Group>, x: Seq<char>)
    ensures
        groups_map(s).dom().contains(x) <==> (exists|i: int|
            0 <= i < s.len() && s[i].name@ == x),
    decreases s.len(),
{
    if s.len() > 0 {
        lemma_groups_map_dom(s.drop_last(), x);
        if s.last().name@ == x {
            assert(s[s.len() - 1].name@ == x);
        } else if groups_map(s).dom().contains(x) {
            let i = choose|i: int| 0 <= i < s.drop_last().len() && s.drop_last()[i].name@ == x;
            assert(s[i].name@ == x);
        } else if exists|i: int| 0 <= i < s.len() && s[i].name@ == x {
            let i = choose|i: int| 0 <= i < s.len() && s[i].name@ == x;
            assert(s.drop_last()[i].name@ == x);
        }
    }
}

/// Under distinct group names, `groups_map` maps each group's name to its
/// entry map.
pub(crate) proof fn lemma_groups_map_index(s: Seq<Group>, i: int)
    requires
        distinct_groups(s),
        0 <= i < s.len(),
    ensures
        groups_map(s).dom().contains(s[i].name@),
        groups_map(s)[s[i].name@] == entries_map(s[i].entries@),
    decreases s.len(),
{
    if i < s.len() - 1 {
        lemma_groups_map_index(s.drop_last(), i);
        assert(s.drop_last()[i] == s[i]);
        assert(s[i].name@ != s.last().name@);
    }
}

/// Under distinct group names, updating the group at `i` to one with the
/// same name updates the map at that name.
pub(crate) proof fn lemma_groups_map_update(s: Seq<Group>, i: int, g: Group)
    requires
        distinct_groups(s),
        0 <= i < s.len(),
        g.name@ == s[i].name@,
    ensures
        groups_map(s.update(i, g)) == groups_map(s).insert(g.name@, entries_map(g.entries@)),
    decreases s.len(),
{
    if i == s.len() - 1 {
        assert(s.update(i, g).drop_last() =~= s.drop_last());
        assert(s.update(i, g).last() == g);
        assert(groups_map(s.update(i, g)) =~= groups_map(s).insert(
            g.name@,
            entries_map(g.entries@),
        ));
    } else {
        assert(s.update(i, g).drop_last() =~= s.drop_last().update(i, g));
        assert(s.drop_last()[i] == s[i]);
        lemma_groups_map_update(s.drop_last(), i, g);
        assert(s.update(i, g).last() == s.last());
        assert(g.name@ != s.last().name@);
        assert(groups_map(s.update(i, g)) =~= groups_map(s).insert(
            g.name@,
            entries_map(g.entries@),
        ));
    }
}

/// Under distinct group names, removing the group at `i` removes exactly its
/// name from the map.
pub(crate) proof fn lemma_groups_map_remove(s: Seq<Group>, i: int)
    requires
        distinct_groups(s),
        0 <= i < s.len(),
    ensures
        groups_map(s.remove(i)) == groups_map(s).remove(s[i].name@),
    decreases s.len(),
{
    s.remove_ensures(i);
    if i == s.len() - 1 {
        assert(s.remove(i) =~= s.drop_last());
        lemma_groups_map_dom(s.drop_last(), s[i].name@);
        assert(groups_map(s.remove(i)) =~= groups_map(s).remove(s[i].name@));
    } else {
        assert(s.remove(i).drop_last() =~= s.drop_last().remove(i));
        assert(s.drop_last()[i] == s[i]);
        lemma_groups_map_remove(s.drop_last(), i);
        assert(s.remove(i).last() == s.last());
        assert(s[i].name@ != s.last().name@);
        assert(groups_map(s.remove(i)) =~= groups_map(s).remove(s[i].name@));
    }
}

/// Removal from a sequence of distinct groups keeps the names distinct.
pub(crate) proof fn lemma_distinct_groups_remove(s: Seq<Group>, i: int)
    requires
        distinct_groups(s),
        0 <= i < s.len(),
    ensures
        distinct_groups(s.remove(i)),
        forall|k: int|
            0 <= k < s.remove(i).len() ==> (#[trigger] s.remove(i)[k]) == s[
                if k < i {
                    k
                } else {
                    k + 1
                }
            ],
{
    s.remove_ensures(i);
    assert forall|a: int, b: int| 0 <= a < b < s.remove(i).len() implies s.remove(i)[a].name@
        != s.remove(i)[b].name@ by {
        let a0: int = if a < i {
            a
        } else {
            a + 1
        };
        let b0: int = if b < i {
            b
        } else {
            b + 1
        };
        assert(s.remove(i)[a] == s[a0]);
        assert(s.remove(i)[b] == s[b0]);
    }
    assert forall|k: int| 0 <= k < s.remove(i).len() implies (#[trigger] s.remove(i)[k]) == s[
        if k < i {
            k
        } else {
            k + 1
        }
    ] by {
        if k < i {
            assert(s.remove(i)[k] == s[k]);
        } else {
            assert(s.remove(i)[k] == s[k + 1]);
        }
    }
}

/// Idempotent add: registering a folder name that is already registered
/// changes nothing, and registering never touches the stored entries, so no
/// entry is duplicated or cleared by a repeated `add_folder`.
pub proof fn lemma_add_folder_idempotent(v: StoreView, name: Seq<char>)
    ensures
        with_folder(with_folder(v, name), name) == with_folder(v, name),
        with_folder(v, name).entries == v.entries,
{
    assert(with_folder(with_folder(v, name), name) =~= with_folder(v, name));
}

/// Cascade delete is exact: removing folder `removed` drops its registration
/// and all of its entries, and leaves every other folder's registration and
/// entries untouched, however the two names relate as prefixes.
pub proof fn lemma_remove_folder_exact(v: StoreView, removed: Seq<char>, other: Seq<char>)
    requires
        other != removed,
    ensures
        without_folder(v, removed).folders.contains(other) == v.folders.contains(other),
        stored_entries(without_folder(v, removed), other) == stored_entries(v, other),
        forall|n: Seq<char>| lookup(without_folder(v, removed), other, n) == lookup(v, other, n),
        !without_folder(v, removed).folders.contains(removed),
        entry_names(without_folder(v, removed), removed) == Set::<Seq<char>>::empty(),
{
    assert(entry_names(without_folder(v, removed), removed) =~= Set::<Seq<char>>::empty());
}

/// Compares two string slices character by character.
fn str_eq(a: &str, b: &str) -> (r: bool)
    ensures
        r == (a@ == b@),
{
    let na: usize = a.unicode_len();
    let nb: usize = b.unicode_len();
    if na != nb {
        return false;
    }
    let mut i: usize = 0;
    while i < na
        invariant
            0 <= i <= na,
            na == a@.len(),
            na == b@.len(),
            forall|j: int| 0 <= j < i ==> a@[j] == b@[j],
        decreases na - i,
    {
        if a.get_char(i) != b.get_char(i) {
            return false;
        }
        i = i + 1;
    }
    proof {
        assert(a@ =~= b@);
    }
    true
}

/// The index of the entry named `name` in `entries`, if any.
fn find_entry_index(entries: &Vec<Entry>, name: &str) -> (r: Option<usize>)
    ensures
        match r {
            Some(i) => i < entries@.len() && entries@[i as int].name@ == name@,
            None => forall|j: int| 0 <= j < entries@.len() ==> entries@[j].name@ != name@,
        },
{
    let n: usize = entries.len();
    let mut i: usize = 0;
    while i < n
        invariant
            0 <= i <= n,
            n == entries@.len(),
            forall|j: int| 0 <= j < i ==> entries@[j].name@ != name@,
        decreases n - i,
    {
        if str_eq(entries[i].name.as_str(), name) {
            return Some(i);
        }
        i = i + 1;
    }
    None
}

impl FolderSet {
    /// Creates an empty store: no folders registered, no entries held.
    pub fn new() -> (fs: Self)
        ensures
            fs.wf(),
            fs@ == empty_view(),
    {
        let fs = FolderSet { folders: Vec::new(), groups: Vec::new() };
        proof {
            assert(fs@ =~= empty_view());
        }
        fs
    }

    /// The index of the registered folder named `name`, if any.
    fn find_folder_index(&self, name: &str) -> (r: Option<usize>)
        ensures
            match r {
                Some(i) => i < self.folders@.len() && self.folders@[i as int]@ == name@,
                None => forall|i: int| 0 <= i < self.folders@.len() ==> self.folders@[i]@ != name@,
            },
    {
        let n: usize = self.folders.len();
        let mut i: usize = 0;
        while i < n
            invariant
                0 <= i <= n,
                n == self.folders@.len(),
                forall|j: int| 0 <= j < i ==> self.folders@[j]@ != name@,
            decreases n - i,
        {
            if str_eq(self.folders[i].as_str(), name) {
                return Some(i);
            }
            i = i + 1;
        }
        None
    }

    /// Registers folder `name`; registering an already-registered name is a
    /// no-op, never an error.
    pub fn add_folder(&mut self, name: &str)
        requires
            old(self).wf(),
        ensures
            final(self).wf(),
            final(self)@ == with_folder(old(self)@, name@),
    {
        let found = self.find_folder_index(name);
        match found {
            Some(_) => {
                proof {
                    lemma_name_set_contains(self.folders@, name@);
                    assert(self@ =~= with_folder(self@, name@));
                }
            },
            None => {
                let ghost old_folders = self.folders@;
                self.folders.push(String::from_str(name));
                proof {
                    assert(self.folders@.drop_last() =~= old_folders);
                    assert(name_set(self.folders@) == name_set(old_folders).insert(name@));
                    assert(self@ =~= with_folder(old(self)@, name@));
                    lemma_name_set_contains(old_folders, name@);
                    assert(distinct_strings(self.folders@)) by {
                        assert(forall|i: int|
                            0 <= i < old_folders.len() ==> self.folders@[i]@ == old_folders[i]@);
                    }
                }
            },
        }
    }

    /// Returns `true` if this store contains the registered folder `folder`.
    pub fn contains_folder(&self, folder: &str) -> (r: bool)
        requires
            self.wf(),
        ensures
            r == self@.folders.contains(folder@),
    {
        proof {
            lemma_name_set_contains(self.folders@, folder@);
        }
        match self.find_folder_index(folder) {
            Some(_) => true,
            None => false,
        }
    }

    /// The index of the entry group for folder `name`, if any.
    fn find_group_index(&self, name: &str) -> (r: Option<usize>)
        ensures
            match r {
                Some(i) => i < self.groups@.len() && self.groups@[i as int].name@ == name@,
                None => forall|j: int| 0 <= j < self.groups@.len() ==> self.groups@[j].name@ != name@,
            },
    {
        let n: usize = self.groups.len();
        let mut i: usize = 0;
        while i < n
            invariant
                0 <= i <= n,
                n == self.groups@.len(),
                forall|j: int| 0 <= j < i ==> self.groups@[j].name@ != name@,
            decreases n - i,
        {
            if str_eq(self.groups[i].name.as_str(), name) {
                return Some(i);
            }
            i = i + 1;
        }
        None
    }

    /// Inserts or overwrites the value stored under `(folder, name)`. The
    /// folder need not be registered: storage for it appears on first write.
    /// Every input is accepted, so the result is always `Some(())`.
    pub fn set_in_folder(&mut self, folder: &str, name: &str, value: &str) -> (r: Option<()>)
        requires
            old(self).wf(),
        ensures
            final(self).wf(),
            r == Some(()),
            final(self)@ == with_entry(old(self)@, folder@, name@, value@),
    {
        let ghost og = self.groups@;
        match self.find_group_index(folder) {
            None => {
                let mut entries: Vec<Entry> = Vec::new();
                entries.push(Entry { name: String::from_str(name), value: String::from_str(value) });
                let g = Group { name: String::from_str(folder), entries };
                self.groups.push(g);
                proof {
                    lemma_groups_map_dom(og, folder@);
                    let ng = self.groups@.last();
                    assert(self.groups@.drop_last() =~= og);
                    assert(ng.entries@.drop_last() =~= Seq::<Entry>::empty());
                    assert(entries_map(ng.entries@.drop_last()) =~= Map::<Seq<char>, Seq<char>>::empty());
                    assert(entries_map(ng.entries@) =~= Map::<Seq<char>, Seq<char>>::empty().insert(
                        name@,
                        value@,
                    ));
                    assert(stored_entries(old(self)@, folder@) =~= Map::<Seq<char>, Seq<char>>::empty());
                    assert(self@ =~= with_entry(old(self)@, folder@, name@, value@));
                    assert(distinct_groups(self.groups@)) by {
                        assert(forall|k: int| 0 <= k < og.len() ==> self.groups@[k] == og[k]);
                    }
                    assert(forall|k: int| 0 <= k < og.len() ==> self.groups@[k] == og[k]);
                    assert(group_wf(ng));
                }
            },
            Some(gi) => {
                proof {
                    lemma_groups_map_index(og, gi as int);
                    assert(group_wf(og[gi as int]));
                }
                let mut g = self.groups.remove(gi);
                let ghost oe = g.entries@;
                match find_entry_index(&g.entries, name) {
                    Some(ei) => {
                        let e_old = g.entries.remove(ei);
                        g.entries.insert(ei, Entry { name: e_old.name, value: String::from_str(value) });
                        proof {
                            oe.remove_ensures(ei as int);
                            oe.remove(ei as int).insert_ensures(ei as int, g.entries@.last());
                            let e_new = g.entries@[ei as int];
                            assert(g.entries@ =~= oe.update(ei as int, e_new));
                            lemma_entries_map_update(oe, ei as int, e_new);
                            assert(entries_map(g.entries@) == entries_map(oe).insert(name@, value@));
                            assert(distinct_entries(g.entries@)) by {
                                assert(forall|k: int|
                                    0 <= k < oe.len() && k != ei ==> g.entries@[k] == oe[k]);
                            }
                        }
                    },
                    None => {
                        g.entries.push(Entry { name: String::from_str(name), value: String::from_str(value) });
                        proof {
                            assert(g.entries@.drop_last() =~= oe);
                            assert(entries_map(g.entries@) == entries_map(oe).insert(name@, value@));
                            assert(distinct_entries(g.entries@)) by {
                                assert(forall|k: int| 0 <= k < oe.len() ==> g.entries@[k] == oe[k]);
                            }
                        }
                    },
                }
                let ghost g2 = g;
                self.groups.insert(gi, g);
                proof {
                    og.remove_ensures(gi as int);
                    og.remove(gi as int).insert_ensures(gi as int, g2);
                    assert(self.groups@ =~= og.update(gi as int, g2));
                    lemma_groups_map_update(og, gi as int, g2);
                    assert(stored_entries(old(self)@, folder@) == entries_map(oe));
                    assert(self@ =~= with_entry(old(self)@, folder@, name@, value@));
                    assert(distinct_groups(self.groups@)) by {
                        assert(forall|k: int|
                            0 <= k < og.len() && k != gi ==> self.groups@[k] == og[k]);
                        assert(self.groups@[gi as int].name@ == og[gi as int].name@);
                    }
                    assert(forall|k: int| 0 <= k < og.len() && k != gi ==> self.groups@[k] == og[k]);
                    assert(group_wf(g2));
                }
            },
        }
        Some(())
    }

    /// Returns a reference to the value stored under `(folder, name)`, or
    /// `None` when no such entry exists; absence is not an error.
    pub fn get(&self, folder: &str, name: &str) -> (r: Option<&String>)
        requires
            self.wf(),
        ensures
            match r {
                Some(v) => lookup(self@, folder@, name@) == Some(v@),
                None => lookup(self@, folder@, name@) is None,
            },
    {
        match self.find_group_index(folder) {
            None => {
                proof {
                    lemma_groups_map_dom(self.groups@, folder@);
                }
                None
            },
            Some(gi) => {
                proof {
                    lemma_groups_map_index(self.groups@, gi as int);
                    assert(group_wf(self.groups@[gi as int]));
                }
                match find_entry_index(&self.groups[gi].entries, name) {
                    None => {
                        proof {
                            lemma_entries_map_dom(self.groups@[gi as int].entries@, name@);
                        }
                        None
                    },
                    Some(ei) => {
                        proof {
                            lemma_entries_map_index(self.groups@[gi as int].entries@, ei as int);
                        }
                        Some(&self.groups[gi].entries[ei].value)
                    },
                }
            },
        }
    }

    /// Removes the entry `(folder, name)` and returns its value, or returns
    /// `None` (not an error) when no such entry exists.
    pub fn remove_entry(&mut self, folder: &str, name: &str) -> (r: Option<String>)
        requires
            old(self).wf(),
        ensures
            final(self).wf(),
            final(self)@ == without_entry(old(self)@, folder@, name@),
            match r {
                Some(v) => lookup(old(self)@, folder@, name@) == Some(v@),
                None => lookup(old(self)@, folder@, name@) is None,
            },
    {
        let ghost og = self.groups@;
        match self.find_group_index(folder) {
            None => {
                proof {
                    lemma_groups_map_dom(og, folder@);
                }
                None
            },
            Some(gi) => {
                proof {
                    lemma_groups_map_index(og, gi as int);
                    assert(group_wf(og[gi as int]));
                }
                let mut g = self.groups.remove(gi);
                let ghost oe = g.entries@;
                match find_entry_index(&g.entries, name) {
                    None => {
                        let ghost g2 = g;
                        self.groups.insert(gi, g);
                        proof {
                            og.remove_ensures(gi as int);
                            og.remove(gi as int).insert_ensures(gi as int, g2);
                            assert(self.groups@ =~= og);
                            lemma_entries_map_dom(oe, name@);
                        }
                        None
                    },
                    Some(ei) => {
                        proof {
                            lemma_entries_map_index(oe, ei as int);
                        }
                        let e = g.entries.remove(ei);
                        proof {
                            lemma_entries_map_remove(oe, ei as int);
                            lemma_groups_map_remove(og, gi as int);
                            lemma_distinct_groups_remove(og, gi as int);
                        }
                        if g.entries.len() == 0 {
                            proof {
                                assert(oe.len() == 1 && ei == 0);
                                assert(entries_map(oe).dom() =~= set![name@]) by {
                                    assert forall|x: Seq<char>|
                                        entries_map(oe).dom().contains(x) == set![name@].contains(
                                            x,
                                        ) by {
                                        lemma_entries_map_dom(oe, x);
                                    }
                                }
                                assert(self@ =~= without_entry(old(self)@, folder@, name@));
                            }
                        } else {
                            proof {
                                assert(oe.len() >= 2);
                                let other: int = if ei == 0 {
                                    1
                                } else {
                                    0
                                };
                                lemma_entries_map_index(oe, other);
                                assert(entries_map(oe).dom() != set![name@]) by {
                                    assert(entries_map(oe).dom().contains(oe[other].name@));
                                    assert(!set![name@].contains(oe[other].name@));
                                }
                            }
                            let ghost g2 = g;
                            self.groups.insert(gi, g);
                            proof {
                                og.remove_ensures(gi as int);
                                og.remove(gi as int).insert_ensures(gi as int, g2);
                                assert(self.groups@ =~= og.update(gi as int, g2));
                                lemma_groups_map_update(og, gi as int, g2);
                                assert(self@ =~= without_entry(old(self)@, folder@, name@));
                                assert(distinct_groups(self.groups@)) by {
                                    assert(forall|k: int|
                                        0 <= k < og.len() && k != gi ==> self.groups@[k] == og[k]);
                                    assert(self.groups@[gi as int].name@ == og[gi as int].name@);
                                }
                                assert(forall|k: int|
                                    0 <= k < og.len() && k != gi ==> self.groups@[k] == og[k]);
                                assert(distinct_entries(g2.entries@)) by {
                                    oe.remove_ensures(ei as int);
                                    assert forall|a: int, b: int|
                                        0 <= a < b < g2.entries@.len() implies g2.entries@[a].name@
                                        != g2.entries@[b].name@ by {
                                        let a0: int = if a < ei {
                                            a
                                        } else {
                                            a + 1
                                        };
                                        let b0: int = if b < ei {
                                            b
                                        } else {
                                            b + 1
                                        };
                                        assert(g2.entries@[a] == oe[a0]);
                                        assert(g2.entries@[b] == oe[b0]);
                                    }
                                }
                                assert(group_wf(g2));
                            }
                        }
                        Some(e.value)
                    },
                }
            },
        }
    }

    /// Removes the registration of folder `name` and every entry stored
    /// under exactly that folder name; returns whether the folder had been
    /// registered.
    pub fn remove_folder(&mut self, folder: &str) -> (r: bool)
        requires
            old(self).wf(),
        ensures
            final(self).wf(),
            r == old(self)@.folders.contains(folder@),
            final(self)@ == without_folder(old(self)@, folder@),
    {
        proof {
            lemma_name_set_contains(self.folders@, folder@);
        }
        let ghost of = self.folders@;
        let r = match self.find_folder_index(folder) {
            Some(i) => {
                self.folders.remove(i);
                proof {
                    lemma_name_set_remove(of, i as int);
                    lemma_distinct_strings_remove(of, i as int);
                }
                true
            },
            None => {
                proof {
                    assert(name_set(of).remove(folder@) =~= name_set(of));
                }
                false
            },
        };
        let ghost og = self.groups@;
        match self.find_group_index(folder) {
            Some(gi) => {
                self.groups.remove(gi);
                proof {
                    lemma_groups_map_remove(og, gi as int);
                    lemma_distinct_groups_remove(og, gi as int);
                    assert(self@ =~= without_folder(old(self)@, folder@));
                }
            },
            None => {
                proof {
                    lemma_groups_map_dom(og, folder@);
                    assert(groups_map(og).remove(folder@) =~= groups_map(og));
                    assert(self@ =~= without_folder(old(self)@, folder@));
                }
            },
        }
        r
    }

    /// Returns the names of the entries stored under `folder`, without
    /// duplicates; the list is empty when the folder holds no entries.
    pub fn list_folder(&self, folder: &str) -> (r: Vec<String>)
        requires
            self.wf(),
        ensures
            name_set(r@) == entry_names(self@, folder@),
            distinct_strings(r@),
    {
        let mut r: Vec<String> = Vec::new();
        match self.find_group_index(folder) {
            None => {
                proof {
                    lemma_groups_map_dom(self.groups@, folder@);
                    assert(r@ =~= Seq::<String>::empty());
                    assert(name_set(r@) =~= entry_names(self@, folder@));
                }
            },
            Some(gi) => {
                proof {
                    lemma_groups_map_index(self.groups@, gi as int);
                    assert(group_wf(self.groups@[gi as int]));
                }
                let g = &self.groups[gi];
                let ghost es = g.entries@;
                let n: usize = g.entries.len();
                let mut i: usize = 0;
                while i < n
                    invariant
                        0 <= i <= n,
                        n == es.len(),
                        g.entries@ == es,
                        gi < self.groups@.len(),
                        self.groups@[gi as int].entries@ == es,
                        self.groups@[gi as int].name@ == folder@,
                        self.wf(),
                        r@.len() == i,
                        forall|j: int| 0 <= j < i ==> r@[j]@ == es[j].name@,
                    decreases n - i,
                {
                    r.push(g.entries[i].name.clone());
                    i = i + 1;
                }
                proof {
                    lemma_groups_map_index(self.groups@, gi as int);
                    assert(group_wf(self.groups@[gi as int]));
                    assert(entry_names(self@, folder@) == entries_map(es).dom());
                    assert forall|x: Seq<char>|
                        name_set(r@).contains(x) == entry_names(self@, folder@).contains(x) by {
                        lemma_name_set_contains(r@, x);
                        lemma_entries_map_dom(es, x);
                        if entries_map(es).dom().contains(x) {
                            let j = choose|j: int| 0 <= j < es.len() && es[j].name@ == x;
                            assert(r@[j]@ == x);
                        }
                        if name_set(r@).contains(x) {
                            let j = choose|j: int| 0 <= j < r@.len() && r@[j]@ == x;
                            assert(es[j].name@ == x);
                        }
                    }
                    assert(name_set(r@) =~= entry_names(self@, folder@));
                    assert(distinct_strings(r@)) by {
                        assert(distinct_entries(es));
                    }
                }
            },
        }
        r
    }

    /// Returns the registered folder names, in registration order, without
    /// duplicates.
    pub fn folder_names(&self) -> (r: Vec<String>)
        requires
            self.wf(),
        ensures
            name_set(r@) == self@.folders,
            distinct_strings(r@),
    {
        let mut r: Vec<String> = Vec::new();
        let n: usize = self.folders.len();
        let mut i: usize = 0;
        while i < n
            invariant
                0 <= i <= n,
                n == self.folders@.len(),
                r@.len() == i,
                forall|j: int| 0 <= j < i ==> r@[j]@ == self.folders@[j]@,
            decreases n - i,
        {
            r.push(self.folders[i].clone());
            i = i + 1;
        }
        proof {
            assert forall|x: Seq<char>|
                name_set(r@).contains(x) == name_set(self.folders@).contains(x) by {
                lemma_name_set_contains(r@, x);
                lemma_name_set_contains(self.folders@, x);
                if name_set(self.folders@).contains(x) {
                    let j = choose|j: int| 0 <= j < self.folders@.len() && self.folders@[j]@ == x;
                    assert(r@[j]@ == x);
                }
                if name_set(r@).contains(x) {
                    let j = choose|j: int| 0 <= j < r@.len() && r@[j]@ == x;
                    assert(self.folders@[j]@ == x);
                }
            }
            assert(name_set(r@) =~= self@.folders);
        }
        r
    }

    /// Returns `true` if no folder is registered; entry storage is not
    /// consulted.
    pub fn is_empty(&self) -> (r: bool)
        requires
            self.wf(),
        ensures
            r == self@.folders.is_empty(),
    {
        proof {
            if self.folders@.len() == 0 {
                assert(self.folders@ =~= Seq::<String>::empty());
                assert(self@.folders =~= Set::<Seq<char>>::empty());
            } else {
                assert(self@.folders.contains(self.folders@.last()@));
            }
        }
        self.folders.len() == 0
    }
}

} // verus!
