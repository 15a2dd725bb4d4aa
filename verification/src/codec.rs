//! The textual codec for the store.
//!
//! The format is line-based. Each line is terminated by a newline and is
//! either a folder registration, `F`, a tab, and the folder name, or one
//! entry, `E`, a tab, and the folder name, entry name and value separated by
//! tabs. The serializer writes all folder registrations first, then all
//! entries, each in the store's insertion order, so the output is a function
//! of the operations that built the store. Tab and newline are the reserved
//! characters of the grammar: names and values containing them are not
//! supported, and the parser rejects any line that does not match the
//! grammar instead of guessing.
use crate::store::distinct_groups;
use crate::store::empty_view;
use crate::store::entries_map;
use crate::store::group_wf;
use crate::store::groups_map;
use crate::store::lemma_entries_map_index;
use crate::store::lemma_groups_map_dom;
use crate::store::lemma_groups_map_index;
use crate::store::lemma_name_set_contains;
use crate::store::lemma_rep;
use crate::store::name_set;
use crate::store::stored_entries;
use crate::store::with_entry;
use crate::store::with_folder;
use crate::store::Entry;
use crate::store::FolderSet;
use crate::store::Group;
use crate::store::StoreView;
use vstd::prelude::*;
use vstd::string::StrSliceExecFns;
use vstd::string::StringExecFns;

verus! {

/// A parse failure: the line on which the text violates the grammar, and a
/// human-readable cause.
#[derive(Debug)]
pub struct ParseError {
    pub line: usize,
    pub cause: String,
}

/// A character the grammar reserves as a delimiter; folder names, entry
/// names and values containing one are not supported by the format.
pub open spec fn reserved_char(c: char) -> bool {
    c == '\n' || c == '\t'
}

/// `s` is free of the grammar's reserved characters.
pub open spec fn text_ok(s: Seq<char>) -> bool {
    forall|i: int| 0 <= i < s.len() ==> !reserved_char(#[trigger] s[i])
}

/// Every folder name, entry name and value of the view is free of the
/// grammar's reserved characters.
pub open spec fn view_ok(v: StoreView) -> bool {
    &&& forall|f: Seq<char>| #[trigger] v.folders.contains(f) ==> text_ok(f)
    &&& forall|f: Seq<char>| #[trigger] v.entries.dom().contains(f) ==> text_ok(f)
    &&& forall|f: Seq<char>, n: Seq<char>|
        v.entries.dom().contains(f) && #[trigger] v.entries[f].dom().contains(n) ==> text_ok(n)
            && text_ok(v.entries[f][n])
}

/// One parsed line of the format.
pub enum LineItem {
    Folder { name: Seq<char> },
    Entry { folder: Seq<char>, name: Seq<char>, value: Seq<char> },
}

/// The index of the first occurrence of `c` in `s`, if any.
pub open spec fn find_char(s: Seq<char>, c: char) -> Option<int>
    decreases s.len(),
{
    if s.len() == 0 {
        None
    } else if s[0] == c {
        Some(0)
    } else {
        match find_char(s.skip(1), c) {
            None => None,
            Some(i) => Some(i + 1),
        }
    }
}

/// What `find_char` returns: the first index holding `c`, or `None` when no
/// index holds it.
pub proof fn lemma_find_char(s: Seq<char>, c: char)
    ensures
        match find_char(s, c) {
            Some(i) => 0 <= i < s.len() && s[i] == c && (forall|j: int| 0 <= j < i ==> s[j] != c),
            None => forall|j: int| 0 <= j < s.len() ==> s[j] != c,
        },
    decreases s.len(),
{
    if s.len() > 0 && s[0] != c {
        lemma_find_char(s.skip(1), c);
        match find_char(s.skip(1), c) {
            Some(i) => {
                assert(s.skip(1)[i] == s[i + 1]);
                assert forall|j: int| 0 <= j < i + 1 implies s[j] != c by {
                    if j > 0 {
                        assert(s.skip(1)[j - 1] == s[j]);
                    }
                }
            },
            None => {
                assert forall|j: int| 0 <= j < s.len() implies s[j] != c by {
                    if j > 0 {
                        assert(s.skip(1)[j - 1] == s[j]);
                    }
                }
            },
        }
    }
}

/// `find_char` returns the index of a first occurrence.
pub proof fn lemma_find_char_at(s: Seq<char>, c: char, i: int)
    requires
        0 <= i < s.len(),
        s[i] == c,
        forall|j: int| 0 <= j < i ==> s[j] != c,
    ensures
        find_char(s, c) == Some(i),
    decreases i,
{
    if i == 0 {
    } else {
        assert(s[0] != c);
        assert(forall|j: int| 0 <= j < s.skip(1).len() ==> s.skip(1)[j] == s[j + 1]);
        lemma_find_char_at(s.skip(1), c, i - 1);
    }
}

/// Parses one line (without its terminating newline) of the format.
pub open spec fn parse_line(line: Seq<char>) -> Option<LineItem> {
    if line.len() >= 2 && line[0] == 'F' && line[1] == '\t' {
        let name = line.skip(2);
        if find_char(name, '\t') is None {
            Some(LineItem::Folder { name })
        } else {
            None
        }
    } else if line.len() >= 2 && line[0] == 'E' && line[1] == '\t' {
        let rest = line.skip(2);
        match find_char(rest, '\t') {
            None => None,
            Some(i) => {
                let folder = rest.take(i);
                let rest2 = rest.skip(i + 1);
                match find_char(rest2, '\t') {
                    None => None,
                    Some(j) => {
                        let name = rest2.take(j);
                        let value = rest2.skip(j + 1);
                        if find_char(value, '\t') is None {
                            Some(LineItem::Entry { folder, name, value })
                        } else {
                            None
                        }
                    },
                }
            },
        }
    } else {
        None
    }
}

/// Replays one parsed line on a view: a folder line registers the folder, an
/// entry line writes the entry.
pub open spec fn apply_item(v: StoreView, item: LineItem) -> StoreView {
    match item {
        LineItem::Folder { name } => with_folder(v, name),
        LineItem::Entry { folder, name, value } => with_entry(v, folder, name, value),
    }
}

/// Parses the remaining text, replaying each parsed line on `v`; `None` on
/// any grammar violation, including a final line with no newline.
pub open spec fn spec_parse_rest(s: Seq<char>, v: StoreView) -> Option<StoreView>
    decreases s.len(),
{
    if s.len() == 0 {
        Some(v)
    } else {
        match find_char(s, '\n') {
            None => None,
            Some(i) => {
                if 0 <= i < s.len() {
                    match parse_line(s.take(i)) {
                        None => None,
                        Some(item) => spec_parse_rest(s.skip(i + 1), apply_item(v, item)),
                    }
                } else {
                    None
                }
            },
        }
    }
}

/// Parses a whole text into the view of the store it describes, starting
/// from the empty store; `None` exactly when the text violates the grammar.
pub open spec fn spec_parse(s: Seq<char>) -> Option<StoreView> {
    spec_parse_rest(s, empty_view())
}

/// The serialized form of one folder registration.
pub(crate) open spec fn folder_line(name: Seq<char>) -> Seq<char> {
    seq!['F', '\t'] + name + seq!['\n']
}

/// The serialized form of one entry.
pub(crate) open spec fn entry_line(folder: Seq<char>, name: Seq<char>, value: Seq<char>) -> Seq<
    char,
> {
    seq!['E', '\t'] + folder + seq!['\t'] + name + seq!['\t'] + value + seq!['\n']
}

/// The folder registration lines, in registration order.
pub(crate) open spec fn ser_folders(s: Seq<String>) -> Seq<char>
    decreases s.len(),
{
    if s.len() == 0 {
        Seq::empty()
    } else {
        ser_folders(s.drop_last()) + folder_line(s.last()@)
    }
}

/// The entry lines of one folder, in insertion order.
pub(crate) open spec fn ser_entries(folder: Seq<char>, s: Seq<Entry>) -> Seq<char>
    decreases s.len(),
{
    if s.len() == 0 {
        Seq::empty()
    } else {
        ser_entries(folder, s.drop_last()) + entry_line(folder, s.last().name@, s.last().value@)
    }
}

/// The entry lines of all folders, in insertion order.
pub(crate) open spec fn ser_groups(s: Seq<Group>) -> Seq<char>
    decreases s.len(),
{
    if s.len() == 0 {
        Seq::empty()
    } else {
        ser_groups(s.drop_last()) + ser_entries(s.last().name@, s.last().entries@)
    }
}

/// The serialized form of a store: all folder registration lines, then all
/// entry lines.
pub closed spec fn spec_serialize(fs: FolderSet) -> Seq<char> {
    ser_folders(fs.folders@) + ser_groups(fs.groups@)
}

/// The view after replaying one folder registration line per string of `s`.
spec fn apply_folders(v: StoreView, s: Seq<String>) -> StoreView
    decreases s.len(),
{
    if s.len() == 0 {
        v
    } else {
        with_folder(apply_folders(v, s.drop_last()), s.last()@)
    }
}

/// The view after replaying one entry line per entry of `s`, all under
/// `folder`.
spec fn apply_entries(v: StoreView, folder: Seq<char>, s: Seq<Entry>) -> StoreView
    decreases s.len(),
{
    if s.len() == 0 {
        v
    } else {
        with_entry(
            apply_entries(v, folder, s.drop_last()),
            folder,
            s.last().name@,
            s.last().value@,
        )
    }
}

/// The view after replaying the entry lines of every group of `s`.
spec fn apply_groups(v: StoreView, s: Seq<Group>) -> StoreView
    decreases s.len(),
{
    if s.len() == 0 {
        v
    } else {
        apply_entries(apply_groups(v, s.drop_last()), s.last().name@, s.last().entries@)
    }
}

/// Parsing a folder registration line followed by more text registers the
/// folder and goes on with the rest.
proof fn lemma_parse_folder_line(name: Seq<char>, rest: Seq<char>, v: StoreView)
    requires
        text_ok(name),
    ensures
        spec_parse_rest(folder_line(name) + rest, v) == spec_parse_rest(rest, with_folder(v, name)),
{
    let s = folder_line(name) + rest;
    let body = seq!['F', '\t'] + name;
    let blen = body.len() as int;
    assert(s =~= body + seq!['\n'] + rest);
    assert(s[blen] == '\n');
    assert forall|j: int| 0 <= j < blen implies s[j] != '\n' by {
        assert(s[j] == body[j]);
        if j >= 2 {
            assert(body[j] == name[j - 2]);
        }
    }
    lemma_find_char_at(s, '\n', blen);
    assert(s.take(blen) =~= body);
    assert(body.skip(2) =~= name);
    lemma_find_char(name, '\t');
    assert(find_char(name, '\t') is None);
    assert(parse_line(body) == Some(LineItem::Folder { name }));
    assert(s.skip(blen + 1) =~= rest);
}

/// Parsing an entry line followed by more text writes the entry and goes on
/// with the rest.
proof fn lemma_parse_entry_line(
    folder: Seq<char>,
    name: Seq<char>,
    value: Seq<char>,
    rest: Seq<char>,
    v: StoreView,
)
    requires
        text_ok(folder),
        text_ok(name),
        text_ok(value),
    ensures
        spec_parse_rest(entry_line(folder, name, value) + rest, v) == spec_parse_rest(
            rest,
            with_entry(v, folder, name, value),
        ),
{
    let s = entry_line(folder, name, value) + rest;
    let body = seq!['E', '\t'] + folder + seq!['\t'] + name + seq!['\t'] + value;
    let blen = body.len() as int;
    assert(s =~= body + seq!['\n'] + rest);
    assert(s[blen] == '\n');
    assert forall|j: int| 0 <= j < blen implies s[j] != '\n' by {
        assert(s[j] == body[j]);
        if 2 <= j < 2 + folder.len() {
            assert(body[j] == folder[j - 2]);
        } else if 3 + folder.len() <= j < 3 + folder.len() + name.len() {
            assert(body[j] == name[j - 3 - folder.len()]);
        } else if 4 + folder.len() + name.len() <= j {
            assert(body[j] == value[j - 4 - folder.len() - name.len()]);
        }
    }
    lemma_find_char_at(s, '\n', blen);
    assert(s.take(blen) =~= body);
    let r0 = body.skip(2);
    assert(r0 =~= folder + seq!['\t'] + (name + seq!['\t'] + value));
    assert(r0[folder.len() as int] == '\t');
    assert forall|j: int| 0 <= j < folder.len() implies r0[j] != '\t' by {
        assert(r0[j] == folder[j]);
    }
    lemma_find_char_at(r0, '\t', folder.len() as int);
    assert(r0.take(folder.len() as int) =~= folder);
    let r2 = r0.skip(folder.len() as int + 1);
    assert(r2 =~= name + seq!['\t'] + value);
    assert(r2[name.len() as int] == '\t');
    assert forall|j: int| 0 <= j < name.len() implies r2[j] != '\t' by {
        assert(r2[j] == name[j]);
    }
    lemma_find_char_at(r2, '\t', name.len() as int);
    assert(r2.take(name.len() as int) =~= name);
    assert(r2.skip(name.len() as int + 1) =~= value);
    lemma_find_char(value, '\t');
    assert(find_char(value, '\t') is None);
    assert(parse_line(body) == Some(LineItem::Entry { folder, name, value }));
    assert(s.skip(blen + 1) =~= rest);
}

/// Parsing the folder registration lines of `s` followed by more text
/// registers the folders in order and goes on with the rest.
proof fn lemma_parse_ser_folders(s: Seq<String>, rest: Seq<char>, v: StoreView)
    requires
        forall|i: int| 0 <= i < s.len() ==> text_ok(#[trigger] s[i]@),
    ensures
        spec_parse_rest(ser_folders(s) + rest, v) == spec_parse_rest(rest, apply_folders(v, s)),
    decreases s.len(),
{
    if s.len() == 0 {
        assert(ser_folders(s) + rest =~= rest);
    } else {
        let line = folder_line(s.last()@);
        assert(ser_folders(s) + rest =~= ser_folders(s.drop_last()) + (line + rest));
        lemma_parse_ser_folders(s.drop_last(), line + rest, v);
        lemma_parse_folder_line(s.last()@, rest, apply_folders(v, s.drop_last()));
    }
}

/// The entries of `g` are free of the grammar's reserved characters, as is
/// its folder name.
spec fn clean_group(g: Group) -> bool {
    &&& text_ok(g.name@)
    &&& forall|i: int|
        0 <= i < g.entries@.len() ==> text_ok(#[trigger] g.entries@[i].name@) && text_ok(
            g.entries@[i].value@,
        )
}

/// Parsing the entry lines of one folder followed by more text writes the
/// entries in order and goes on with the rest.
proof fn lemma_parse_ser_entries(folder: Seq<char>, s: Seq<Entry>, rest: Seq<char>, v: StoreView)
    requires
        text_ok(folder),
        forall|i: int|
            0 <= i < s.len() ==> text_ok(#[trigger] s[i].name@) && text_ok(s[i].value@),
    ensures
        spec_parse_rest(ser_entries(folder, s) + rest, v) == spec_parse_rest(
            rest,
            apply_entries(v, folder, s),
        ),
    decreases s.len(),
{
    if s.len() == 0 {
        assert(ser_entries(folder, s) + rest =~= rest);
    } else {
        let line = entry_line(folder, s.last().name@, s.last().value@);
        assert(ser_entries(folder, s) + rest =~= ser_entries(folder, s.drop_last()) + (line
            + rest));
        lemma_parse_ser_entries(folder, s.drop_last(), line + rest, v);
        lemma_parse_entry_line(
            folder,
            s.last().name@,
            s.last().value@,
            rest,
            apply_entries(v, folder, s.drop_last()),
        );
    }
}

/// Parsing the entry lines of every group followed by more text writes the
/// entries group by group and goes on with the rest.
proof fn lemma_parse_ser_groups(s: Seq<Group>, rest: Seq<char>, v: StoreView)
    requires
        forall|k: int| 0 <= k < s.len() ==> clean_group(#[trigger] s[k]),
    ensures
        spec_parse_rest(ser_groups(s) + rest, v) == spec_parse_rest(rest, apply_groups(v, s)),
    decreases s.len(),
{
    if s.len() == 0 {
        assert(ser_groups(s) + rest =~= rest);
    } else {
        let g = s.last();
        let block = ser_entries(g.name@, g.entries@);
        assert(ser_groups(s) + rest =~= ser_groups(s.drop_last()) + (block + rest));
        lemma_parse_ser_groups(s.drop_last(), block + rest, v);
        assert(clean_group(g));
        lemma_parse_ser_entries(g.name@, g.entries@, rest, apply_groups(v, s.drop_last()));
    }
}

/// Replaying folder registrations only adds the registered names.
proof fn lemma_apply_folders_view(v: StoreView, s: Seq<String>)
    ensures
        apply_folders(v, s).entries == v.entries,
        apply_folders(v, s).folders == v.folders.union(name_set(s)),
    decreases s.len(),
{
    if s.len() == 0 {
        assert(v.folders.union(name_set(s)) =~= v.folders);
    } else {
        lemma_apply_folders_view(v, s.drop_last());
        assert(apply_folders(v, s).folders =~= v.folders.union(name_set(s)));
    }
}

/// Replaying the entries of one unseen folder inserts exactly that folder's
/// entry map.
proof fn lemma_apply_entries_view(v: StoreView, folder: Seq<char>, s: Seq<Entry>)
    requires
        s.len() > 0,
        !v.entries.dom().contains(folder),
    ensures
        apply_entries(v, folder, s).folders == v.folders,
        apply_entries(v, folder, s).entries == v.entries.insert(folder, entries_map(s)),
    decreases s.len(),
{
    if s.len() == 1 {
        assert(stored_entries(v, folder) =~= Map::<Seq<char>, Seq<char>>::empty());
        assert(s.drop_last() =~= Seq::<Entry>::empty());
        assert(entries_map(s.drop_last()) =~= Map::<Seq<char>, Seq<char>>::empty());
        assert(apply_entries(v, folder, s.drop_last()) == v);
        assert(apply_entries(v, folder, s).entries =~= v.entries.insert(folder, entries_map(s)));
    } else {
        lemma_apply_entries_view(v, folder, s.drop_last());
        let prev = apply_entries(v, folder, s.drop_last());
        assert(stored_entries(prev, folder) == entries_map(s.drop_last()));
        assert(apply_entries(v, folder, s).entries =~= v.entries.insert(folder, entries_map(s)));
    }
}

/// Replaying the entry lines of distinct, non-empty, unseen groups builds
/// exactly their folder name -> entry map mapping.
proof fn lemma_apply_groups_view(v: StoreView, s: Seq<Group>)
    requires
        distinct_groups(s),
        forall|k: int| 0 <= k < s.len() ==> group_wf(#[trigger] s[k]),
        forall|k: int| 0 <= k < s.len() ==> !v.entries.dom().contains(#[trigger] s[k].name@),
    ensures
        apply_groups(v, s).folders == v.folders,
        apply_groups(v, s).entries == v.entries.union_prefer_right(groups_map(s)),
    decreases s.len(),
{
    if s.len() == 0 {
        assert(v.entries.union_prefer_right(groups_map(s)) =~= v.entries);
    } else {
        let g = s.last();
        assert(forall|k: int| 0 <= k < s.drop_last().len() ==> s.drop_last()[k] == s[k]);
        lemma_apply_groups_view(v, s.drop_last());
        let prev = apply_groups(v, s.drop_last());
        assert(!prev.entries.dom().contains(g.name@)) by {
            lemma_groups_map_dom(s.drop_last(), g.name@);
            assert(!v.entries.dom().contains(g.name@));
        }
        assert(group_wf(g));
        lemma_apply_entries_view(prev, g.name@, g.entries@);
        assert(apply_groups(v, s).entries =~= v.entries.union_prefer_right(groups_map(s)));
    }
}

/// Round trip: a well-formed store whose folder names, entry names and
/// values avoid the grammar's reserved characters parses back from its own
/// serialization to exactly its own view — the same folder set and the same
/// (folder, name) -> value mapping.
pub proof fn lemma_round_trip(fs: FolderSet)
    requires
        fs.wf(),
        view_ok(fs@),
    ensures
        spec_parse(spec_serialize(fs)) == Some(fs@),
{
    lemma_rep(fs);
    let folders = fs.folders@;
    let groups = fs.groups@;
    assert forall|i: int| 0 <= i < folders.len() implies text_ok(#[trigger] folders[i]@) by {
        lemma_name_set_contains(folders, folders[i]@);
        assert(fs@.folders.contains(folders[i]@));
    }
    assert forall|k: int| 0 <= k < groups.len() implies clean_group(#[trigger] groups[k]) by {
        lemma_groups_map_index(groups, k);
        assert(fs@.entries.dom().contains(groups[k].name@));
        assert(text_ok(groups[k].name@));
        assert(group_wf(groups[k]));
        assert forall|i: int| 0 <= i < groups[k].entries@.len() implies text_ok(
            #[trigger] groups[k].entries@[i].name@,
        ) && text_ok(groups[k].entries@[i].value@) by {
            lemma_entries_map_index(groups[k].entries@, i);
            assert(fs@.entries[groups[k].name@].dom().contains(groups[k].entries@[i].name@));
        }
    }
    let text = spec_serialize(fs);
    assert(text == ser_folders(folders) + ser_groups(groups));
    lemma_parse_ser_folders(folders, ser_groups(groups), empty_view());
    let v1 = apply_folders(empty_view(), folders);
    assert(ser_groups(groups) + Seq::<char>::empty() =~= ser_groups(groups));
    lemma_parse_ser_groups(groups, Seq::empty(), v1);
    let v2 = apply_groups(v1, groups);
    assert(spec_parse_rest(Seq::empty(), v2) == Some(v2));
    lemma_apply_folders_view(empty_view(), folders);
    assert(forall|k: int| 0 <= k < groups.len() ==> !v1.entries.dom().contains(#[trigger] groups[k].name@));
    lemma_apply_groups_view(v1, groups);
    assert(v2.folders =~= fs@.folders);
    assert(v2.entries =~= fs@.entries);
    assert(v2 =~= fs@);
}

/// One parsed line, holding its fields as owned strings.
enum LineRec {
    Folder(String),
    Entry(String, String, String),
}

/// Parses one line (without its terminating newline); `None` exactly when
/// the line violates the grammar.
fn parse_line_exec(line: &str) -> (r: Option<LineRec>)
    ensures
        match r {
            Some(rec) => match rec {
                LineRec::Folder(name) => parse_line(line@) == Some(
                    LineItem::Folder { name: name@ },
                ),
                LineRec::Entry(f, nm, v) => parse_line(line@) == Some(
                    LineItem::Entry { folder: f@, name: nm@, value: v@ },
                ),
            },
            None => parse_line(line@) is None,
        },
{
    let n: usize = line.unicode_len();
    if n < 2 {
        return None;
    }
    let c0 = line.get_char(0);
    let c1 = line.get_char(1);
    if c1 != '\t' || (c0 != 'F' && c0 != 'E') {
        return None;
    }
    proof {
        assert(forall|j: int|
            0 <= j < line@.skip(2).len() ==> line@.skip(2)[j] == line@[j + 2]);
    }
    if c0 == 'F' {
        let mut k: usize = 2;
        while k < n && line.get_char(k) != '\t'
            invariant
                2 <= k <= n,
                n == line@.len(),
                forall|j: int| 2 <= j < k ==> line@[j] != '\t',
            decreases n - k,
        {
            k = k + 1;
        }
        if k < n {
            proof {
                lemma_find_char(line@.skip(2), '\t');
                assert(line@.skip(2)[k - 2] == line@[k as int]);
                assert(!(find_char(line@.skip(2), '\t') is None));
            }
            return None;
        }
        let name = line.substring_char(2, n);
        proof {
            lemma_find_char(line@.skip(2), '\t');
            assert(forall|j: int|
                0 <= j < line@.skip(2).len() ==> line@.skip(2)[j] == line@[j + 2]);
            assert(find_char(line@.skip(2), '\t') is None);
            assert(name@ =~= line@.skip(2));
        }
        Some(LineRec::Folder(String::from_str(name)))
    } else {
        let mut p: usize = 2;
        while p < n && line.get_char(p) != '\t'
            invariant
                2 <= p <= n,
                n == line@.len(),
                forall|j: int| 2 <= j < p ==> line@[j] != '\t',
            decreases n - p,
        {
            p = p + 1;
        }
        let ghost rest = line@.skip(2);
        proof {
            assert(forall|j: int| 0 <= j < rest.len() ==> rest[j] == line@[j + 2]);
        }
        if p == n {
            proof {
                lemma_find_char(rest, '\t');
                assert(find_char(rest, '\t') is None);
            }
            return None;
        }
        proof {
            lemma_find_char_at(rest, '\t', p - 2);
        }
        let folder = line.substring_char(2, p);
        let ghost rest2 = line@.skip(p + 1);
        proof {
            assert(rest.skip(p - 2 + 1) =~= rest2);
            assert(rest.take(p - 2) =~= folder@);
            assert(forall|j: int| 0 <= j < rest2.len() ==> rest2[j] == line@[j + p + 1]);
        }
        let mut q: usize = p + 1;
        while q < n && line.get_char(q) != '\t'
            invariant
                p + 1 <= q <= n,
                n == line@.len(),
                p < n,
                forall|j: int| p + 1 <= j < q ==> line@[j] != '\t',
            decreases n - q,
        {
            q = q + 1;
        }
        if q == n {
            proof {
                lemma_find_char(rest2, '\t');
                assert(find_char(rest2, '\t') is None);
            }
            return None;
        }
        proof {
            lemma_find_char_at(rest2, '\t', q - (p + 1));
        }
        let name = line.substring_char(p + 1, q);
        let ghost val = line@.skip(q + 1);
        proof {
            assert(rest2.take(q - (p + 1)) =~= name@);
            assert(rest2.skip(q - (p + 1) + 1) =~= val);
            assert(forall|j: int| 0 <= j < val.len() ==> val[j] == line@[j + q + 1]);
        }
        let mut t: usize = q + 1;
        while t < n && line.get_char(t) != '\t'
            invariant
                q + 1 <= t <= n,
                n == line@.len(),
                q < n,
                forall|j: int| q + 1 <= j < t ==> line@[j] != '\t',
            decreases n - t,
        {
            t = t + 1;
        }
        if t < n {
            proof {
                lemma_find_char(val, '\t');
                assert(val[t - (q + 1)] == line@[t as int]);
                assert(!(find_char(val, '\t') is None));
            }
            return None;
        }
        let value = line.substring_char(q + 1, n);
        proof {
            lemma_find_char(val, '\t');
            assert(find_char(val, '\t') is None);
            assert(value@ =~= val);
        }
        Some(
            LineRec::Entry(
                String::from_str(folder),
                String::from_str(name),
                String::from_str(value),
            ),
        )
    }
}

impl FolderSet {
    /// Parses the line-based text format produced by `serialize`, starting
    /// from an empty store and replaying each line in order; returns an
    /// error naming the offending line exactly when the text violates the
    /// grammar. The empty text parses to the empty store.
    pub fn parse(input: &str) -> (r: Result<FolderSet, ParseError>)
        ensures
            match r {
                Ok(fs) => fs.wf() && spec_parse(input@) == Some(fs@),
                Err(_) => spec_parse(input@) is None,
            },
    {
        let n: usize = input.unicode_len();
        let mut fs = FolderSet::new();
        let mut line_no: usize = 1;
        let mut i: usize = 0;
        proof {
            assert(input@.skip(0) =~= input@);
        }
        while i < n
            invariant
                0 <= i <= n,
                n == input@.len(),
                fs.wf(),
                spec_parse(input@) == spec_parse_rest(input@.skip(i as int), fs@),
            decreases n - i,
        {
            let ghost pre = input@.skip(i as int);
            proof {
                assert(forall|k: int| 0 <= k < pre.len() ==> pre[k] == input@[k + i]);
            }
            let mut j: usize = i;
            while j < n && input.get_char(j) != '\n'
                invariant
                    i <= j <= n,
                    n == input@.len(),
                    forall|k: int| i <= k < j ==> input@[k] != '\n',
                decreases n - j,
            {
                j = j + 1;
            }
            if j == n {
                proof {
                    lemma_find_char(pre, '\n');
                    assert(find_char(pre, '\n') is None);
                }
                return Err(
                    ParseError {
                        line: line_no,
                        cause: String::from_str("line is not terminated by a newline"),
                    },
                );
            }
            proof {
                assert(pre[j - i] == input@[j as int]);
                lemma_find_char_at(pre, '\n', j - i);
            }
            let line = input.substring_char(i, j);
            proof {
                assert(pre.take(j - i) =~= line@);
            }
            match parse_line_exec(line) {
                None => {
                    return Err(
                        ParseError {
                            line: line_no,
                            cause: String::from_str("line violates the grammar"),
                        },
                    );
                },
                Some(rec) => {
                    match rec {
                        LineRec::Folder(name) => {
                            fs.add_folder(name.as_str());
                        },
                        LineRec::Entry(f, nm, v) => {
                            let _ = fs.set_in_folder(f.as_str(), nm.as_str(), v.as_str());
                        },
                    }
                    proof {
                        assert(pre.skip(j - i + 1) =~= input@.skip(j + 1));
                    }
                    i = j + 1;
                    if line_no < usize::MAX {
                        line_no = line_no + 1;
                    }
                },
            }
        }
        proof {
            assert(input@.skip(n as int) =~= Seq::<char>::empty());
        }
        Ok(fs)
    }

    /// Serializes this store to the line-based text format. The output is
    /// determined by the order in which folders were registered and entries
    /// first written, and — as long as no folder name, entry name or value
    /// contains a reserved character — parses back to a store with the same
    /// folder set and the same (folder, name) -> value mapping.
    pub fn serialize(&self) -> (out: String)
        requires
            self.wf(),
        ensures
            out@ == spec_serialize(*self),
            view_ok(self@) ==> spec_parse(out@) == Some(self@),
    {
        let mut out = String::new();
        proof {
            reveal_strlit("F\t");
            reveal_strlit("E\t");
            reveal_strlit("\t");
            reveal_strlit("\n");
            assert(out@ =~= ser_folders(self.folders@.take(0)));
        }
        let nf: usize = self.folders.len();
        let mut i: usize = 0;
        while i < nf
            invariant
                0 <= i <= nf,
                nf == self.folders@.len(),
                out@ == ser_folders(self.folders@.take(i as int)),
            decreases nf - i,
        {
            out.append("F\t");
            out.append(self.folders[i].as_str());
            out.append("\n");
            proof {
                reveal_strlit("F\t");
                reveal_strlit("\n");
                let pre = self.folders@.take(i as int);
                let cur = self.folders@.take(i + 1);
                assert(cur.drop_last() =~= pre);
                assert(cur.last() == self.folders@[i as int]);
                assert(out@ =~= ser_folders(pre) + folder_line(self.folders@[i as int]@));
            }
            i = i + 1;
        }
        proof {
            assert(self.folders@.take(nf as int) =~= self.folders@);
        }
        let ng: usize = self.groups.len();
        let mut gi: usize = 0;
        while gi < ng
            invariant
                0 <= gi <= ng,
                ng == self.groups@.len(),
                out@ == ser_folders(self.folders@) + ser_groups(self.groups@.take(gi as int)),
            decreases ng - gi,
        {
            let g = &self.groups[gi];
            let ne: usize = g.entries.len();
            let mut ei: usize = 0;
            while ei < ne
                invariant
                    0 <= ei <= ne,
                    ne == g.entries@.len(),
                    gi < self.groups@.len(),
                    *g == self.groups@[gi as int],
                    out@ == ser_folders(self.folders@) + ser_groups(self.groups@.take(gi as int))
                        + ser_entries(g.name@, g.entries@.take(ei as int)),
                decreases ne - ei,
            {
                out.append("E\t");
                out.append(g.name.as_str());
                out.append("\t");
                out.append(g.entries[ei].name.as_str());
                out.append("\t");
                out.append(g.entries[ei].value.as_str());
                out.append("\n");
                proof {
                    reveal_strlit("E\t");
                    reveal_strlit("\t");
                    reveal_strlit("\n");
                    let pre = g.entries@.take(ei as int);
                    let cur = g.entries@.take(ei + 1);
                    assert(cur.drop_last() =~= pre);
                    assert(cur.last() == g.entries@[ei as int]);
                    assert(out@ =~= ser_folders(self.folders@) + ser_groups(
                        self.groups@.take(gi as int),
                    ) + (ser_entries(g.name@, pre) + entry_line(
                        g.name@,
                        g.entries@[ei as int].name@,
                        g.entries@[ei as int].value@,
                    )));
                }
                ei = ei + 1;
            }
            proof {
                let pre = self.groups@.take(gi as int);
                let cur = self.groups@.take(gi + 1);
                assert(cur.drop_last() =~= pre);
                assert(cur.last() == self.groups@[gi as int]);
                assert(g.entries@.take(ne as int) =~= g.entries@);
                assert(out@ =~= ser_folders(self.folders@) + ser_groups(cur));
            }
            gi = gi + 1;
        }
        proof {
            assert(self.groups@.take(ng as int) =~= self.groups@);
            assert(out@ =~= spec_serialize(*self));
            if view_ok(self@) {
                lemma_round_trip(*self);
            }
        }
        out
    }
}

} // verus!
