//! The shape of the outline: which bookmark is the parent of which.

use crate::document::DocumentValue;
use crate::merge::{BookmarkValue, cleared, LEVELS, MergerValue, parent_for, record};
use crate::object::ObjectId;
use vstd::prelude::*;

verus! {

/// The levels of a list of bookmarks.
pub open spec fn levels_of(bookmarks: Seq<BookmarkValue>) -> Seq<u8> {
    Seq::new(bookmarks.len(), |i: int| bookmarks[i].level)
}

/// The memory of the last bookmark at each level, after bookmarks of the
/// given levels were recorded in order.
pub open spec fn recorded_after(levels: Seq<u8>) -> Seq<Option<usize>>
    decreases levels.len(),
{
    if levels.len() == 0 {
        cleared()
    } else {
        record(recorded_after(levels.drop_last()), levels.last(), (levels.len() - 1) as usize)
    }
}

/// The parent that the bookmark at place `i` gets.
pub open spec fn parent_of(levels: Seq<u8>, i: int) -> Option<usize> {
    parent_for(recorded_after(levels.take(i)), levels[i])
}

/// Whether the bookmark at place `j` is the last one at level `l` among the
/// first `n`, with no bookmark at the top after it.
pub open spec fn last_at(levels: Seq<u8>, n: int, l: int, j: int) -> bool {
    &&& 0 <= j < n
    &&& levels[j] == l
    &&& forall|k: int| j < k < n ==> levels[k] != l && levels[k] != 0
}

/// Whether the bookmark at place `j` is the parent of the one at place `i`
/// by the levels: it is the last one before it that is one level up, and no
/// bookmark at the top comes between the two.
pub open spec fn is_parent(levels: Seq<u8>, i: int, j: int) -> bool {
    levels[i] > 0 && last_at(levels, i, levels[i] - 1, j)
}

/// Whether the bookmarks of a merger hang together as their levels say.
pub open spec fn follows_levels(st: MergerValue) -> bool {
    &&& st.bookmarks.len() <= usize::MAX
    &&& st.recorded == recorded_after(levels_of(st.bookmarks))
    &&& forall|i: int|
        0 <= i < st.bookmarks.len() ==> (#[trigger] st.bookmarks[i]).parent == parent_of(
            levels_of(st.bookmarks),
            i,
        )
}

/// What the memory holds for a level after bookmarks were recorded: the last
/// bookmark at that level, unless a bookmark at the top came after it.
pub proof fn lemma_recorded(levels: Seq<u8>, l: int)
    requires
        levels.len() <= usize::MAX,
        0 <= l < LEVELS,
    ensures
        recorded_after(levels).len() == LEVELS,
        recorded_after(levels)[l] matches Some(j) ==> last_at(levels, levels.len() as int, l, j as int),
        recorded_after(levels)[l] is None ==> forall|j: int| !last_at(levels, levels.len() as int, l, j),
    decreases levels.len(),
{
    if levels.len() > 0 {
        let rest = levels.drop_last();
        let n = levels.len() as int;
        lemma_recorded(rest, l);
        assert forall|j: int| #[trigger] last_at(rest, n - 1, l, j) == (j < n - 1 && last_at(levels, n - 1, l, j)) by {
            if last_at(rest, n - 1, l, j) {
                assert(rest[j] == levels[j]);
                assert forall|k: int| j < k < n - 1 implies levels[k] != l && levels[k] != 0 by {
                    assert(rest[k] == levels[k]);
                }
            }
            if j < n - 1 && last_at(levels, n - 1, l, j) {
                assert(rest[j] == levels[j]);
                assert forall|k: int| j < k < n - 1 implies rest[k] != l && rest[k] != 0 by {
                    assert(rest[k] == levels[k]);
                }
            }
        }
        if recorded_after(levels)[l] is None {
            assert forall|j: int| !last_at(levels, n, l, j) by {
                if last_at(levels, n, l, j) {
                    if j < n - 1 {
                        assert(levels[n - 1] != l && levels[n - 1] != 0);
                        assert(last_at(levels, n - 1, l, j));
                        assert(last_at(rest, n - 1, l, j));
                    }
                }
            }
        }
    }
}

/// The rule of the outline: a bookmark at the top has no parent; any other
/// has as its parent the last bookmark before it that is one level up,
/// unless a bookmark at the top came after that one, and none where there
/// is no such bookmark.
pub proof fn lemma_parent_rule(levels: Seq<u8>, i: int)
    requires
        levels.len() <= usize::MAX,
        0 <= i < levels.len(),
    ensures
        parent_of(levels, i) matches Some(j) ==> is_parent(levels, i, j as int),
        parent_of(levels, i) is None ==> forall|j: int| !is_parent(levels, i, j),
{
    let before = levels.take(i);
    if levels[i] > 0 {
        let l = levels[i] - 1;
        lemma_recorded(before, l);
        assert forall|j: int| #[trigger] last_at(before, i, l, j) == last_at(levels, i, l, j) by {
            if last_at(before, i, l, j) {
                assert(before[j] == levels[j]);
                assert forall|k: int| j < k < i implies levels[k] != l && levels[k] != 0 by {
                    assert(before[k] == levels[k]);
                }
            }
            if last_at(levels, i, l, j) {
                assert(before[j] == levels[j]);
                assert forall|k: int| j < k < i implies before[k] != l && before[k] != 0 by {
                    assert(before[k] == levels[k]);
                }
            }
        }
        assert(before.len() == i);
        if parent_of(levels, i) is None {
            assert forall|j: int| !is_parent(levels, i, j) by {
                assert(!last_at(before, before.len() as int, l, j));
                assert(last_at(before, i, l, j) == last_at(levels, i, l, j));
            }
        }
    }
}

/// A merger that has taken in nothing has no bookmarks, and they hang
/// together.
pub proof fn lemma_start_follows_levels()
    ensures
        follows_levels(MergerValue::start()),
{
    assert(levels_of(MergerValue::start().bookmarks) =~= Seq::<u8>::empty());
}

/// Taking in a document keeps the bookmarks hanging together as their
/// levels say: a document with pages adds a bookmark with the given title
/// and level, whose parent is the one that the levels give it, and a
/// document without pages adds none.
pub proof fn lemma_absorb_follows_levels(
    st: MergerValue,
    doc: DocumentValue,
    pages: Seq<ObjectId>,
    title: Seq<char>,
    level: u8,
)
    requires
        follows_levels(st),
        st.bookmarks.len() < usize::MAX,
    ensures
        follows_levels(st.absorb(doc, pages, title, level)),
        pages.len() == 0 ==> st.absorb(doc, pages, title, level).bookmarks == st.bookmarks,
        pages.len() > 0 ==> {
            let added = st.absorb(doc, pages, title, level).bookmarks;
            &&& added.len() == st.bookmarks.len() + 1
            &&& added.take(st.bookmarks.len() as int) == st.bookmarks
            &&& added.last().title == title
            &&& added.last().level == level
            &&& added.last().page == pages[0]
        },
{
    let after = st.absorb(doc, pages, title, level);
    if pages.len() > 0 {
        let n = st.bookmarks.len() as int;
        let old_levels = levels_of(st.bookmarks);
        let new_levels = levels_of(after.bookmarks);
        assert(new_levels.drop_last() =~= old_levels);
        assert(new_levels.last() == level);
        assert(after.bookmarks.take(n) =~= st.bookmarks);
        assert forall|i: int| 0 <= i < after.bookmarks.len() implies (
        #[trigger] after.bookmarks[i]).parent == parent_of(new_levels, i) by {
            if i < n {
                assert(after.bookmarks[i] == st.bookmarks[i]);
                assert(new_levels.take(i) =~= old_levels.take(i));
                assert(new_levels[i] == old_levels[i]);
            } else {
                assert(new_levels.take(i) =~= old_levels);
            }
        }
    }
}

} // verus!
