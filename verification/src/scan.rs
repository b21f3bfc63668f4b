use crate::config::CommonConfig;
use crate::config::Config;
use crate::config::LanguageConfigItem;
use crate::text::contains_segment;
use crate::text::ends_with_extension;
use crate::text::has_extension;
use crate::text::has_segment;
use crate::text::is_dot_dir;
use crate::text::is_separator;
use crate::text::is_shorthand;
use crate::text::last_component_at;
use crate::text::lemma_shorthand_is_not_hidden;
use crate::text::names_dot_dir;
use crate::text::segment_at;
use crate::text::DOT;
use crate::text::SEPARATOR;
use vstd::prelude::*;
use vstd::utf8::encode_utf8;

verus! {

/// One node of a directory tree as it was found on disk. Every node carries
/// its full path, the root's included. An entry that could not even be told
/// apart as a file or a directory has no node.
#[derive(Debug, PartialEq, Eq)]
pub enum Entry {
    /// A file and its size in bytes.
    File { path: String, size: u64 },
    /// A directory that could be listed, with what it holds.
    Dir { path: String, entries: Vec<Entry> },
    /// A directory that could not be listed.
    Unreadable { path: String },
}

/// A file that a rule keeps: its path and its size in bytes.
pub type Kept = (Seq<char>, u64);

/// The bytes of each name of a list, in order.
pub open spec fn names(list: Seq<String>) -> Seq<Seq<u8>> {
    Seq::new(list.len(), |i: int| encode_utf8(list[i]@))
}

/// The path and size of each file of a list, in order.
pub open spec fn kept_of(files: Seq<(String, u64)>) -> Seq<Kept> {
    Seq::new(files.len(), |i: int| (files[i].0@, files[i].1))
}

/// The directory names that the operating system reserves, as bytes; the
/// traversal skips them wherever they stand in a path, whatever is ignored
/// besides.
pub open spec fn system_segments() -> Seq<Seq<u8>> {
    seq![
        encode_utf8("$RECYCLE.BIN"@),
        encode_utf8("System Volume Information"@),
        encode_utf8("Recovery"@),
    ]
}

/// `path` holds one of `ignores` as a whole segment.
pub open spec fn any_segment(path: Seq<u8>, ignores: Seq<Seq<u8>>) -> bool {
    exists|k: int| 0 <= k < ignores.len() && has_segment(path, #[trigger] ignores[k])
}

/// `path` ends with a dot and one of `exts`.
pub open spec fn any_extension(path: Seq<u8>, exts: Seq<Seq<u8>>) -> bool {
    exists|k: int| 0 <= k < exts.len() && has_extension(path, #[trigger] exts[k])
}

/// The traversal passes over `path`: it holds a reserved name or one of
/// `ignores` as a whole segment.
pub open spec fn is_skipped(path: Seq<u8>, ignores: Seq<Seq<u8>>) -> bool {
    any_segment(path, system_segments() + ignores)
}

/// The full path of an entry, as bytes.
pub open spec fn path_of(entry: Entry) -> Seq<u8> {
    match entry {
        Entry::File { path, size } => encode_utf8(path@),
        Entry::Dir { path, entries } => encode_utf8(path@),
        Entry::Unreadable { path } => encode_utf8(path@),
    }
}

/// The files kept among the first `n` entries of a listing and beneath them,
/// in the order of the listing.
pub open spec fn listing_files(
    entries: Seq<Entry>,
    n: nat,
    ignores: Seq<Seq<u8>>,
    exts: Seq<Seq<u8>>,
) -> Seq<Kept>
    decreases entries, n,
{
    if n == 0 || n > entries.len() {
        Seq::empty()
    } else {
        listing_files(entries, (n - 1) as nat, ignores, exts) + entry_files(
            entries[n - 1],
            ignores,
            exts,
        )
    }
}

/// The files kept of one entry of a listing and all beneath it: none where
/// its path holds a reserved or an ignored segment; a file itself, if it has
/// one of the extensions; of a directory what its listing keeps, unless the
/// directory is hidden or could not be listed.
pub open spec fn entry_files(entry: Entry, ignores: Seq<Seq<u8>>, exts: Seq<Seq<u8>>) -> Seq<Kept>
    decreases entry, 0nat,
{
    if is_skipped(path_of(entry), ignores) {
        Seq::empty()
    } else {
        match entry {
            Entry::File { path, size } => if any_extension(encode_utf8(path@), exts) {
                seq![(path@, size)]
            } else {
                Seq::empty()
            },
            Entry::Dir { path, entries } => if is_dot_dir(encode_utf8(path@)) {
                Seq::empty()
            } else {
                listing_files(entries@, entries@.len(), ignores, exts)
            },
            Entry::Unreadable { path } => Seq::empty(),
        }
    }
}

/// `root` is a directory whose listing could be read.
pub open spec fn is_listed(root: Entry) -> bool {
    root is Dir
}

/// The files kept under a directory that is opened for itself, such as the
/// root: its own path is not held against the ignore list. There are none to
/// speak of where the directory is hidden or is no listed directory.
pub open spec fn dir_files(dir: Entry, ignores: Seq<Seq<u8>>, exts: Seq<Seq<u8>>) -> Option<
    Seq<Kept>,
> {
    match dir {
        Entry::Dir { path, entries } => if is_dot_dir(encode_utf8(path@)) {
            None
        } else {
            Some(listing_files(entries@, entries@.len(), ignores, exts))
        },
        _ => None,
    }
}

/// The sizes of the first `n` files, added up.
pub open spec fn total_first(files: Seq<Kept>, n: nat) -> nat
    decreases n,
{
    if n == 0 || n > files.len() {
        0
    } else {
        total_first(files, (n - 1) as nat) + files[n - 1].1 as nat
    }
}

/// The bytes counted under a root: the sizes of the files kept, added up.
pub open spec fn tree_total(root: Entry, ignores: Seq<Seq<u8>>, exts: Seq<Seq<u8>>) -> nat {
    match dir_files(root, ignores, exts) {
        Some(files) => total_first(files, files.len()),
        None => 0,
    }
}

/// What one rule ignores: the shared list and its own, nothing dropped.
pub open spec fn rule_ignores(common: CommonConfig, rule: LanguageConfigItem) -> Seq<Seq<u8>> {
    names(common.ignore@) + names(rule.ignore@)
}

/// The bytes that one rule counts under a root. Each rule counts for itself:
/// a file with an extension of two rules is counted under both.
pub open spec fn rule_total(root: Entry, common: CommonConfig, rule: LanguageConfigItem) -> nat {
    tree_total(root, rule_ignores(common, rule), names(rule.ext@))
}

/// Every file of the list has one of the extensions, and its path holds
/// neither a reserved name nor one of the ignored names as a whole segment.
pub open spec fn all_kept(files: Seq<Kept>, ignores: Seq<Seq<u8>>, exts: Seq<Seq<u8>>) -> bool {
    forall|i: int|
        0 <= i < files.len() ==> {
            &&& !any_segment(encode_utf8((#[trigger] files[i]).0), system_segments())
            &&& !any_segment(encode_utf8(files[i].0), ignores)
            &&& any_extension(encode_utf8(files[i].0), exts)
        }
}

/// A path holds a segment of two lists together where it holds one of the
/// first or one of the second.
pub proof fn lemma_any_segment_of_both(path: Seq<u8>, first: Seq<Seq<u8>>, second: Seq<Seq<u8>>)
    ensures
        any_segment(path, first + second) <==> any_segment(path, first) || any_segment(
            path,
            second,
        ),
{
    let both = first + second;
    if any_segment(path, both) {
        let k = choose|k: int| 0 <= k < both.len() && has_segment(path, #[trigger] both[k]);
        if k < first.len() {
            assert(has_segment(path, first[k]));
        } else {
            assert(has_segment(path, second[k - first.len()]));
        }
    }
    if any_segment(path, first) {
        let k = choose|k: int| 0 <= k < first.len() && has_segment(path, #[trigger] first[k]);
        assert(has_segment(path, both[k]));
    }
    if any_segment(path, second) {
        let k = choose|k: int| 0 <= k < second.len() && has_segment(path, #[trigger] second[k]);
        assert(has_segment(path, both[k + first.len()]));
    }
}

/// A sum of sizes is no less than a shorter one.
pub proof fn lemma_total_first_grows(files: Seq<Kept>, m: nat, n: nat)
    requires
        m <= n <= files.len(),
    ensures
        total_first(files, m) <= total_first(files, n),
    decreases n,
{
    if m < n {
        lemma_total_first_grows(files, m, (n - 1) as nat);
    }
}

/// A hidden directory keeps nothing, whatever lies beneath it and wherever
/// it stands, the root included.
pub proof fn lemma_hidden_directory_counts_nothing(
    dir: Entry,
    ignores: Seq<Seq<u8>>,
    exts: Seq<Seq<u8>>,
)
    requires
        dir is Dir,
        is_dot_dir(path_of(dir)),
    ensures
        entry_files(dir, ignores, exts) == Seq::<Kept>::empty(),
        dir_files(dir, ignores, exts) is None,
        tree_total(dir, ignores, exts) == 0,
{
}

/// A root given as the current-directory shorthand, with or without a
/// separator after the dot, is not hidden: it keeps what its listing keeps.
pub proof fn lemma_current_directory_is_scanned(
    root: Entry,
    ignores: Seq<Seq<u8>>,
    exts: Seq<Seq<u8>>,
)
    requires
        root is Dir,
        is_shorthand(path_of(root)),
    ensures
        !is_dot_dir(path_of(root)),
        dir_files(root, ignores, exts) == Some(
            listing_files(root->entries@, root->entries@.len(), ignores, exts),
        ),
{
    lemma_shorthand_is_not_hidden(path_of(root));
}

/// An entry of a listing whose path holds an ignored name as a whole segment
/// keeps nothing, whatever lies beneath it.
pub proof fn lemma_ignored_entry_counts_nothing(
    entry: Entry,
    ignores: Seq<Seq<u8>>,
    exts: Seq<Seq<u8>>,
)
    requires
        any_segment(path_of(entry), ignores),
    ensures
        entry_files(entry, ignores, exts) == Seq::<Kept>::empty(),
{
    lemma_any_segment_of_both(path_of(entry), system_segments(), ignores);
}

/// An entry of a listing whose path holds a reserved name as a whole segment
/// keeps nothing, whatever is ignored and whatever lies beneath it.
pub proof fn lemma_reserved_entry_counts_nothing(
    entry: Entry,
    ignores: Seq<Seq<u8>>,
    exts: Seq<Seq<u8>>,
)
    requires
        any_segment(path_of(entry), system_segments()),
    ensures
        entry_files(entry, ignores, exts) == Seq::<Kept>::empty(),
{
    lemma_any_segment_of_both(path_of(entry), system_segments(), ignores);
}

/// A name matches only as a whole segment: where it matches, a separator
/// stands directly before it and directly after it.
pub proof fn lemma_segment_is_bounded(path: Seq<u8>, name: Seq<u8>)
    requires
        has_segment(path, name),
    ensures
        exists|at: int|
            0 <= at && at + name.len() + 2 <= path.len() && path[at] == SEPARATOR
                && #[trigger] path.subrange(at + 1, at + 1 + name.len()) == name && path[at + 1
                + name.len()] == SEPARATOR,
{
    let at = choose|at: int| segment_at(path, name, at);
    assert(path.subrange(at + 1, at + 1 + name.len()) =~= name);
}

/// Every path that leads through a directory called `name` holds `name` as a
/// whole segment, so all beneath such a directory is ignored with it.
pub proof fn lemma_named_directory_is_segment(parent: Seq<u8>, name: Seq<u8>, rest: Seq<u8>)
    ensures
        has_segment(parent + seq![SEPARATOR] + name + seq![SEPARATOR] + rest, name),
{
    let path = parent + seq![SEPARATOR] + name + seq![SEPARATOR] + rest;
    assert(segment_at(path, name, parent.len() as int));
}

/// A path that holds a segment still holds it however it is continued.
pub proof fn lemma_segment_survives_extension(path: Seq<u8>, rest: Seq<u8>, name: Seq<u8>)
    requires
        has_segment(path, name),
    ensures
        has_segment(path + rest, name),
{
    let at = choose|at: int| segment_at(path, name, at);
    assert(segment_at(path + rest, name, at));
}

/// Every rule passes over `path`.
pub open spec fn is_skipped_by_all(
    path: Seq<u8>,
    common: CommonConfig,
    rules: Seq<LanguageConfigItem>,
) -> bool {
    forall|r: int|
        0 <= r < rules.len() ==> is_skipped(path, rule_ignores(common, #[trigger] rules[r]))
}

/// What a directory holds is of no account where every rule passes over its
/// path: with any listing it keeps nothing under any rule.
pub proof fn lemma_passed_over_listing_is_of_no_account(
    dir: Entry,
    common: CommonConfig,
    rules: Seq<LanguageConfigItem>,
    r: int,
)
    requires
        is_skipped_by_all(path_of(dir), common, rules),
        0 <= r < rules.len(),
    ensures
        entry_files(dir, rule_ignores(common, rules[r]), names(rules[r].ext@)) == Seq::<
            Kept,
        >::empty(),
{
}

/// A file that carries an extension of two rules, and that the traversal
/// passes over for neither, is kept under each of them.
pub proof fn lemma_file_counts_under_each_rule(
    file: Entry,
    first_ignores: Seq<Seq<u8>>,
    first_exts: Seq<Seq<u8>>,
    second_ignores: Seq<Seq<u8>>,
    second_exts: Seq<Seq<u8>>,
)
    requires
        file is File,
        !is_skipped(path_of(file), first_ignores),
        !is_skipped(path_of(file), second_ignores),
        any_extension(path_of(file), first_exts),
        any_extension(path_of(file), second_exts),
    ensures
        entry_files(file, first_ignores, first_exts) == seq![(file->File_path@, file->size)],
        entry_files(file, second_ignores, second_exts) == seq![(file->File_path@, file->size)],
{
}

/// Where the name of a child begins in its path: directly after the
/// parent's path where that ends with the separator, else after one
/// separator more.
pub open spec fn name_start(parent: Seq<u8>) -> int {
    if parent.len() > 0 && parent.last() == SEPARATOR {
        parent.len() as int
    } else {
        parent.len() as int + 1
    }
}

/// `child` is the path of an entry of the directory `parent`: the parent's
/// path, the separator unless the parent ends with it, and a name that is
/// not empty and holds no separator.
pub open spec fn is_child_path(parent: Seq<u8>, child: Seq<u8>) -> bool {
    &&& parent.len() > 0
    &&& name_start(parent) < child.len()
    &&& forall|j: int| 0 <= j < parent.len() ==> #[trigger] child[j] == parent[j]
    &&& name_start(parent) > parent.len() ==> child[parent.len() as int] == SEPARATOR
    &&& forall|j: int| name_start(parent) <= j < child.len() ==> !is_separator(#[trigger] child[j])
}

/// A snapshot as a walk of the disk gives it: the path of every entry of a
/// directory is the directory's path continued by the entry's name.
pub open spec fn is_well_formed(entry: Entry) -> bool
    decreases entry,
{
    match entry {
        Entry::Dir { path, entries } => forall|i: int|
            0 <= i < entries@.len() ==> {
                &&& is_child_path(encode_utf8(path@), path_of(#[trigger] entries@[i]))
                &&& is_well_formed(entries@[i])
            },
        _ => true,
    }
}

/// A component of `path` begins at offset `at` with a dot and names a
/// directory: a separator follows it.
pub open spec fn dot_dir_at(path: Seq<u8>, at: int) -> bool {
    &&& 0 <= at < path.len()
    &&& at == 0 || is_separator(path[at - 1])
    &&& path[at] == DOT
    &&& exists|j: int| at < j < path.len() && is_separator(#[trigger] path[j])
}

/// `path` leads through a hidden directory at or after offset `from`.
pub open spec fn is_hidden_below(path: Seq<u8>, from: int) -> bool {
    exists|at: int| from <= at && #[trigger] dot_dir_at(path, at)
}

/// No component of `path` that begins at or after offset `from` begins with
/// a dot.
pub open spec fn is_dotless(path: Seq<u8>, from: int) -> bool {
    forall|at: int|
        from <= at < path.len() && (at == 0 || is_separator(path[at - 1])) ==> #[trigger] path[at]
            != DOT
}

/// No file of the list has a path that leads through a hidden directory at
/// or after offset `from`.
pub open spec fn all_visible(files: Seq<Kept>, from: int) -> bool {
    forall|k: int|
        0 <= k < files.len() ==> !is_hidden_below(encode_utf8((#[trigger] files[k]).0), from)
}

/// An entry of a directory whose path holds no dotted component leads
/// through no hidden directory.
proof fn lemma_child_is_visible(parent: Seq<u8>, child: Seq<u8>, from: int)
    requires
        0 <= from <= parent.len(),
        is_dotless(parent, from),
        is_child_path(parent, child),
    ensures
        !is_hidden_below(child, from),
{
    assert forall|at: int| from <= at implies !#[trigger] dot_dir_at(child, at) by {
        if dot_dir_at(child, at) {
            if at < parent.len() {
                assert(child[at] == parent[at]);
                if at > 0 {
                    assert(child[at - 1] == parent[at - 1]);
                }
                assert(parent[at] != DOT);
            } else if at < name_start(parent) {
                assert(child[at] == SEPARATOR);
            } else if at > name_start(parent) {
                assert(!is_separator(child[at - 1]));
            } else {
                let j = choose|j: int| at < j < child.len() && is_separator(#[trigger] child[j]);
                assert(!is_separator(child[j]));
            }
        }
    }
}

/// A directory that is not hidden, entry of a directory whose path holds no
/// dotted component, holds none in its own path.
proof fn lemma_child_is_dotless(parent: Seq<u8>, child: Seq<u8>, from: int)
    requires
        0 <= from <= parent.len(),
        is_dotless(parent, from),
        is_child_path(parent, child),
        !is_dot_dir(child),
    ensures
        is_dotless(child, from),
{
    let start = name_start(parent);
    assert(!is_separator(child[child.len() - 1]));
    assert(start > parent.len() ==> is_separator(child[start - 1]));
    assert(start == parent.len() ==> child[start - 1] == parent[start - 1]);
    assert(last_component_at(child, start, child.len() as int));
    assert(child[start] != DOT);
    assert forall|at: int|
        from <= at < child.len() && (at == 0 || is_separator(child[at - 1])) implies #[trigger] child[at]
        != DOT by {
        if at < parent.len() {
            assert(child[at] == parent[at]);
            if at > 0 {
                assert(child[at - 1] == parent[at - 1]);
            }
            assert(parent[at] != DOT);
        } else if at < start {
            assert(child[at] == SEPARATOR);
        } else if at > start {
            assert(!is_separator(child[at - 1]));
        }
    }
}

/// What a listing keeps leads through no hidden directory, where the
/// directory's own path holds no dotted component.
proof fn lemma_listing_is_visible(
    parent: Seq<u8>,
    entries: Seq<Entry>,
    n: nat,
    from: int,
    ignores: Seq<Seq<u8>>,
    exts: Seq<Seq<u8>>,
)
    requires
        0 <= from <= parent.len(),
        is_dotless(parent, from),
        n <= entries.len(),
        forall|i: int|
            0 <= i < entries.len() ==> {
                &&& is_child_path(parent, path_of(#[trigger] entries[i]))
                &&& is_well_formed(entries[i])
            },
    ensures
        all_visible(listing_files(entries, n, ignores, exts), from),
    decreases entries, n,
{
    if n > 0 {
        lemma_listing_is_visible(parent, entries, (n - 1) as nat, from, ignores, exts);
        lemma_entry_is_visible(parent, entries[n - 1], from, ignores, exts);
        let before = listing_files(entries, (n - 1) as nat, ignores, exts);
        let added = entry_files(entries[n - 1], ignores, exts);
        assert forall|k: int| 0 <= k < (before + added).len() implies !is_hidden_below(
            encode_utf8((#[trigger] (before + added)[k]).0),
            from,
        ) by {
            if k < before.len() {
                assert((before + added)[k] == before[k]);
            } else {
                assert((before + added)[k] == added[k - before.len()]);
            }
        }
    }
}

/// What an entry keeps leads through no hidden directory, where the path of
/// the directory that lists it holds no dotted component.
proof fn lemma_entry_is_visible(
    parent: Seq<u8>,
    entry: Entry,
    from: int,
    ignores: Seq<Seq<u8>>,
    exts: Seq<Seq<u8>>,
)
    requires
        0 <= from <= parent.len(),
        is_dotless(parent, from),
        is_child_path(parent, path_of(entry)),
        is_well_formed(entry),
    ensures
        all_visible(entry_files(entry, ignores, exts), from),
    decreases entry, 0nat,
{
    if !is_skipped(path_of(entry), ignores) {
        match entry {
            Entry::File { path, size } => {
                lemma_child_is_visible(parent, encode_utf8(path@), from);
            },
            Entry::Dir { path, entries } => {
                if !is_dot_dir(encode_utf8(path@)) {
                    lemma_child_is_dotless(parent, encode_utf8(path@), from);
                    lemma_listing_is_visible(
                        encode_utf8(path@),
                        entries@,
                        entries@.len(),
                        from,
                        ignores,
                        exts,
                    );
                }
            },
            Entry::Unreadable { path } => {},
        }
    }
}

/// In a well-formed snapshot no kept file lies under a hidden directory: its
/// path has no directory component that begins with a dot, from the end of
/// the root's own path on.
pub proof fn lemma_kept_paths_are_not_hidden(
    root: Entry,
    ignores: Seq<Seq<u8>>,
    exts: Seq<Seq<u8>>,
)
    requires
        is_well_formed(root),
    ensures
        match dir_files(root, ignores, exts) {
            Some(files) => all_visible(files, path_of(root).len() as int),
            None => true,
        },
{
    match root {
        Entry::Dir { path, entries } => {
            if !is_dot_dir(encode_utf8(path@)) && entries@.len() > 0 {
                assert(is_child_path(encode_utf8(path@), path_of(entries@[0])));
                lemma_listing_is_visible(
                    encode_utf8(path@),
                    entries@,
                    entries@.len(),
                    encode_utf8(path@).len() as int,
                    ignores,
                    exts,
                );
            }
        },
        _ => {},
    }
}

/// Builds the list that a rule ignores: the shared list, then the rule's
/// own.
pub fn effective_ignores(common: &CommonConfig, rule: &LanguageConfigItem) -> (ignores: Vec<
    String,
>)
    ensures
        names(ignores@) == rule_ignores(*common, *rule),
{
    let mut ignores: Vec<String> = Vec::new();
    assert(names(ignores@) =~= Seq::<Seq<u8>>::empty());
    let mut i: usize = 0;
    while i < common.ignore.len()
        invariant
            i <= common.ignore.len(),
            names(ignores@) == names(common.ignore@.take(i as int)),
        decreases common.ignore.len() - i,
    {
        let ghost before = ignores@;
        ignores.push(common.ignore[i].clone());
        proof {
            assert(names(ignores@) =~= names(before).push(encode_utf8(common.ignore@[i as int]@)));
            assert(names(common.ignore@.take(i + 1)) =~= names(common.ignore@.take(i as int)).push(
                encode_utf8(common.ignore@[i as int]@),
            ));
            assert(names(ignores@) =~= names(common.ignore@.take(i + 1)));
        }
        i += 1;
    }
    assert(common.ignore@.take(i as int) =~= common.ignore@);
    let mut k: usize = 0;
    while k < rule.ignore.len()
        invariant
            k <= rule.ignore.len(),
            names(ignores@) == names(common.ignore@) + names(rule.ignore@.take(k as int)),
        decreases rule.ignore.len() - k,
    {
        let ghost before = ignores@;
        ignores.push(rule.ignore[k].clone());
        proof {
            assert(names(ignores@) =~= names(before).push(encode_utf8(rule.ignore@[k as int]@)));
            assert(names(rule.ignore@.take(k + 1)) =~= names(rule.ignore@.take(k as int)).push(
                encode_utf8(rule.ignore@[k as int]@),
            ));
            assert(names(ignores@) =~= names(common.ignore@) + names(rule.ignore@.take(k + 1)));
        }
        k += 1;
    }
    assert(rule.ignore@.take(k as int) =~= rule.ignore@);
    ignores
}

/// Tells whether `path` holds one of `ignores` as a whole segment.
pub fn is_ignored(path: &[u8], ignores: &Vec<String>) -> (ignored: bool)
    ensures
        ignored == any_segment(path@, names(ignores@)),
{
    let mut k: usize = 0;
    while k < ignores.len()
        invariant
            k <= ignores.len(),
            forall|j: int| 0 <= j < k ==> !has_segment(path@, #[trigger] names(ignores@)[j]),
        decreases ignores.len() - k,
    {
        if contains_segment(path, ignores[k].as_str().as_bytes()) {
            assert(has_segment(path@, names(ignores@)[k as int]));
            return true;
        }
        k += 1;
    }
    false
}

/// Tells whether `path` holds a reserved name as a whole segment.
pub fn is_reserved(path: &[u8]) -> (reserved: bool)
    ensures
        reserved == any_segment(path@, system_segments()),
{
    let reserved = contains_segment(path, "$RECYCLE.BIN".as_bytes()) || contains_segment(
        path,
        "System Volume Information".as_bytes(),
    ) || contains_segment(path, "Recovery".as_bytes());
    proof {
        let reserved_names = system_segments();
        if reserved {
            assert(has_segment(path@, reserved_names[0]) || has_segment(path@, reserved_names[1])
                || has_segment(path@, reserved_names[2]));
        }
    }
    reserved
}

/// Tells whether the traversal passes over `path`: whether it holds a
/// reserved name or one of `ignores` as a whole segment.
pub fn is_passed_over(path: &[u8], ignores: &Vec<String>) -> (skipped: bool)
    ensures
        skipped == is_skipped(path@, names(ignores@)),
        skipped == (any_segment(path@, system_segments()) || any_segment(path@, names(ignores@))),
{
    proof {
        lemma_any_segment_of_both(path@, system_segments(), names(ignores@));
    }
    is_reserved(path) || is_ignored(path, ignores)
}

/// Tells whether every rule of `config` passes over `path`. The listing of
/// such a directory need not be read: whatever it holds, no rule keeps any of
/// it.
pub fn is_passed_over_by_all(path: &[u8], config: &Config) -> (skipped: bool)
    ensures
        skipped == is_skipped_by_all(path@, config.common, config.language@),
{
    let mut r: usize = 0;
    while r < config.language.len()
        invariant
            r <= config.language@.len(),
            forall|j: int|
                0 <= j < r ==> is_skipped(
                    path@,
                    rule_ignores(config.common, #[trigger] config.language@[j]),
                ),
        decreases config.language.len() - r,
    {
        let ignores = effective_ignores(&config.common, &config.language[r]);
        if !is_passed_over(path, &ignores) {
            return false;
        }
        r += 1;
    }
    true
}

/// Tells whether `path` ends with a dot and one of `exts`.
pub fn has_listed_extension(path: &[u8], exts: &Vec<String>) -> (listed: bool)
    ensures
        listed == any_extension(path@, names(exts@)),
{
    let mut k: usize = 0;
    while k < exts.len()
        invariant
            k <= exts.len(),
            forall|j: int| 0 <= j < k ==> !has_extension(path@, #[trigger] names(exts@)[j]),
        decreases exts.len() - k,
    {
        if ends_with_extension(path, exts[k].as_str().as_bytes()) {
            assert(has_extension(path@, names(exts@)[k as int]));
            return true;
        }
        k += 1;
    }
    false
}

/// Collects the files that a listing keeps, entry by entry and directory by
/// directory.
pub fn get_listing_entries(
    entries: &Vec<Entry>,
    ignores: &Vec<String>,
    exts: &Vec<String>,
) -> (found: Vec<(String, u64)>)
    ensures
        kept_of(found@) == listing_files(
            entries@,
            entries@.len(),
            names(ignores@),
            names(exts@),
        ),
        all_kept(kept_of(found@), names(ignores@), names(exts@)),
    decreases entries,
{
    let mut found: Vec<(String, u64)> = Vec::new();
    let mut i: usize = 0;
    while i < entries.len()
        invariant
            i <= entries.len(),
            kept_of(found@) =~= listing_files(entries@, i as nat, names(ignores@), names(exts@)),
            all_kept(kept_of(found@), names(ignores@), names(exts@)),
        decreases entries.len() - i,
    {
        let ghost before = found@;
        match &entries[i] {
            Entry::File { path, size } => {
                let bytes = path.as_str().as_bytes();
                if !is_passed_over(bytes, ignores) && has_listed_extension(bytes, exts) {
                    found.push((path.clone(), *size));
                    assert(kept_of(found@) =~= kept_of(before) + seq![(path@, *size)]);
                }
            },
            Entry::Dir { path, .. } => {
                if !is_passed_over(path.as_str().as_bytes(), ignores) {
                    match get_dir_entries(&entries[i], ignores, exts) {
                        Some(mut beneath) => {
                            let ghost added = beneath@;
                            found.append(&mut beneath);
                            assert(kept_of(found@) =~= kept_of(before) + kept_of(added));
                        },
                        None => {},
                    }
                }
            },
            Entry::Unreadable { path } => {},
        }
        assert(kept_of(found@) =~= kept_of(before) + entry_files(
            entries@[i as int],
            names(ignores@),
            names(exts@),
        ));
        i += 1;
    }
    found
}

/// Collects the files kept under a directory that is opened for itself, such
/// as the root: its own path is not held against the ignore list. Beneath it
/// the reserved names are skipped like the ignored ones. `None` where the
/// directory is hidden or is no listed directory.
pub fn get_dir_entries(dir: &Entry, ignores: &Vec<String>, exts: &Vec<String>) -> (found: Option<
    Vec<(String, u64)>,
>)
    ensures
        match found {
            Some(files) => {
                &&& dir_files(*dir, names(ignores@), names(exts@)) == Some(kept_of(files@))
                &&& all_kept(kept_of(files@), names(ignores@), names(exts@))
            },
            None => dir_files(*dir, names(ignores@), names(exts@)) is None,
        },
    decreases dir,
{
    match dir {
        Entry::Dir { path, entries } => {
            if names_dot_dir(path.as_str().as_bytes()) {
                None
            } else {
                Some(get_listing_entries(entries, ignores, exts))
            }
        },
        _ => None,
    }
}

/// Adds up the sizes of a list of files; `None` where the sum does not fit in
/// 64 bits.
pub fn total_size(files: &Vec<(String, u64)>) -> (size: Option<u64>)
    ensures
        match size {
            Some(bytes) => bytes == total_first(kept_of(files@), files@.len()),
            None => total_first(kept_of(files@), files@.len()) > u64::MAX,
        },
{
    let mut sum: u64 = 0;
    let mut i: usize = 0;
    while i < files.len()
        invariant
            i <= files.len(),
            sum == total_first(kept_of(files@), i as nat),
        decreases files.len() - i,
    {
        proof {
            lemma_total_first_grows(kept_of(files@), (i + 1) as nat, files@.len());
        }
        match sum.checked_add(files[i].1) {
            Some(bytes) => {
                sum = bytes;
            },
            None => {
                return None;
            },
        }
        i += 1;
    }
    Some(sum)
}

/// Counts what lies under a root for one list of ignored segments and one
/// list of extensions; `None` where the count does not fit in 64 bits. A
/// hidden root, or one that is no listed directory, counts nothing.
pub fn tree_size(root: &Entry, ignores: &Vec<String>, exts: &Vec<String>) -> (size: Option<u64>)
    ensures
        match size {
            Some(bytes) => bytes == tree_total(*root, names(ignores@), names(exts@)),
            None => tree_total(*root, names(ignores@), names(exts@)) > u64::MAX,
        },
{
    match get_dir_entries(root, ignores, exts) {
        Some(files) => total_size(&files),
        None => Some(0),
    }
}

} // verus!
