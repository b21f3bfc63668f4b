use vstd::prelude::*;

verus! {

/// The separator that bounds an ignored segment on both sides: `/`.
pub const SEPARATOR: u8 = 47;

/// The other byte that ends a path component: `\`.
pub const BACKSLASH: u8 = 92;

/// The byte that opens a hidden name and an extension: `.`.
pub const DOT: u8 = 46;

/// `word` stands in `text` at offset `at`.
pub open spec fn occurs_at(text: Seq<u8>, word: Seq<u8>, at: int) -> bool {
    &&& 0 <= at
    &&& at + word.len() <= text.len()
    &&& forall|j: int| 0 <= j < word.len() ==> text[at + j] == #[trigger] word[j]
}

/// `name` stands in `path` as a whole segment that begins with the separator
/// at offset `at`: a separator, the name, a separator.
pub open spec fn segment_at(path: Seq<u8>, name: Seq<u8>, at: int) -> bool {
    &&& 0 <= at
    &&& at + name.len() + 2 <= path.len()
    &&& path[at] == SEPARATOR
    &&& occurs_at(path, name, at + 1)
    &&& path[at + 1 + name.len()] == SEPARATOR
}

/// `path` holds `name` as a whole segment, bounded by separators on both sides.
pub open spec fn has_segment(path: Seq<u8>, name: Seq<u8>) -> bool {
    exists|at: int| segment_at(path, name, at)
}

/// `path` ends with a dot followed by `ext`.
pub open spec fn has_extension(path: Seq<u8>, ext: Seq<u8>) -> bool {
    &&& ext.len() + 1 <= path.len()
    &&& path[path.len() - ext.len() - 1] == DOT
    &&& occurs_at(path, ext, path.len() - ext.len())
}

pub open spec fn is_separator(b: u8) -> bool {
    b == SEPARATOR || b == BACKSLASH
}

/// Without its trailing separators `path` ends before offset `end`.
pub open spec fn trimmed_at(path: Seq<u8>, end: int) -> bool {
    &&& 0 <= end <= path.len()
    &&& end == 0 || !is_separator(path[end - 1])
    &&& forall|j: int| end <= j < path.len() ==> is_separator(#[trigger] path[j])
}

/// The last component of `path`, trailing separators apart, runs from offset
/// `at` to before offset `end`: it holds no separator, and one stands just
/// before it unless it opens the path.
pub open spec fn last_component_at(path: Seq<u8>, at: int, end: int) -> bool {
    &&& trimmed_at(path, end)
    &&& 0 <= at <= end
    &&& at == 0 || is_separator(path[at - 1])
    &&& forall|j: int| at <= j < end ==> !is_separator(#[trigger] path[j])
}

/// `path` is the current-directory shorthand: a single dot, with or without
/// separators after it.
pub open spec fn is_shorthand(path: Seq<u8>) -> bool {
    &&& path.len() >= 1
    &&& path[0] == DOT
    &&& forall|j: int| 1 <= j < path.len() ==> is_separator(#[trigger] path[j])
}

/// `path` names a hidden directory: its last component, trailing separators
/// apart, begins with a dot. The current-directory shorthand is never hidden.
pub open spec fn is_dot_dir(path: Seq<u8>) -> bool {
    exists|at: int, end: int|
        #[trigger] last_component_at(path, at, end) && at < end && path[at] == DOT && !(at == 0
            && end == 1)
}

/// The last component of a path is one and no other.
pub proof fn lemma_last_component_is_unique(
    path: Seq<u8>,
    at: int,
    end: int,
    other_at: int,
    other_end: int,
)
    requires
        last_component_at(path, at, end),
        last_component_at(path, other_at, other_end),
    ensures
        at == other_at,
        end == other_end,
{
    if other_end < end {
        assert(is_separator(path[end - 1]));
    } else if other_end > end {
        assert(is_separator(path[other_end - 1]));
    }
    if other_at < at {
        assert(!is_separator(path[at - 1]));
    } else if other_at > at {
        assert(!is_separator(path[other_at - 1]));
    }
}

/// The current-directory shorthand is not hidden.
pub proof fn lemma_shorthand_is_not_hidden(path: Seq<u8>)
    requires
        is_shorthand(path),
    ensures
        !is_dot_dir(path),
{
    assert(last_component_at(path, 0, 1));
    assert forall|at: int, end: int| #[trigger] last_component_at(path, at, end) implies !(at < end
        && path[at] == DOT && !(at == 0 && end == 1)) by {
        lemma_last_component_is_unique(path, 0, 1, at, end);
    }
}

/// Tells whether `word` stands in `text` at offset `at`.
pub fn matches_at(text: &[u8], word: &[u8], at: usize) -> (found: bool)
    ensures
        found == occurs_at(text@, word@, at as int),
{
    if at > text.len() || word.len() > text.len() - at {
        return false;
    }
    let mut j: usize = 0;
    while j < word.len()
        invariant
            j <= word.len(),
            at + word.len() <= text.len(),
            forall|k: int| 0 <= k < j ==> text@[at + k] == #[trigger] word@[k],
        decreases word.len() - j,
    {
        if text[at + j] != word[j] {
            return false;
        }
        j += 1;
    }
    true
}

/// Tells whether `path` holds `name` as a whole segment.
pub fn contains_segment(path: &[u8], name: &[u8]) -> (found: bool)
    ensures
        found == has_segment(path@, name@),
{
    if path.len() < 2 || name.len() > path.len() - 2 {
        return false;
    }
    let last: usize = path.len() - 2 - name.len();
    let mut at: usize = 0;
    while at <= last
        invariant
            last == path.len() - 2 - name.len(),
            at <= last + 1,
            forall|k: int| 0 <= k < at ==> !segment_at(path@, name@, k),
        decreases last + 1 - at,
    {
        if path[at] == SEPARATOR && path[at + 1 + name.len()] == SEPARATOR && matches_at(
            path,
            name,
            at + 1,
        ) {
            assert(segment_at(path@, name@, at as int));
            return true;
        }
        at += 1;
    }
    false
}

/// Tells whether `path` ends with a dot followed by `ext`.
pub fn ends_with_extension(path: &[u8], ext: &[u8]) -> (found: bool)
    ensures
        found == has_extension(path@, ext@),
{
    if ext.len() >= path.len() {
        return false;
    }
    let start: usize = path.len() - ext.len();
    path[start - 1] == DOT && matches_at(path, ext, start)
}

/// Tells whether `path` names a hidden directory.
pub fn names_dot_dir(path: &[u8]) -> (hidden: bool)
    ensures
        hidden == is_dot_dir(path@),
{
    let mut end: usize = path.len();
    while end > 0 && (path[end - 1] == SEPARATOR || path[end - 1] == BACKSLASH)
        invariant
            end <= path.len(),
            forall|j: int| end <= j < path.len() ==> is_separator(#[trigger] path@[j]),
        decreases end,
    {
        end -= 1;
    }
    let mut at: usize = end;
    while at > 0 && !(path[at - 1] == SEPARATOR || path[at - 1] == BACKSLASH)
        invariant
            at <= end <= path.len(),
            forall|j: int| at <= j < end ==> !is_separator(#[trigger] path@[j]),
        decreases at,
    {
        at -= 1;
    }
    assert(last_component_at(path@, at as int, end as int));
    let hidden = at < end && path[at] == DOT && !(at == 0 && end == 1);
    proof {
        if !hidden {
            assert forall|other_at: int, other_end: int| #[trigger]
                last_component_at(path@, other_at, other_end) implies !(other_at < other_end
                && path@[other_at] == DOT && !(other_at == 0 && other_end == 1)) by {
                lemma_last_component_is_unique(
                    path@,
                    at as int,
                    end as int,
                    other_at,
                    other_end,
                );
            }
        }
    }
    hidden
}

} // verus!
