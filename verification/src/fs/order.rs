//! The order of a listing: entries sorted by path, entries with the
//! same path in the order in which they came.

use vstd::prelude::*;
use crate::text::{lemma_lex_asymmetric, lemma_lex_not_less_chain, lex_less, text_less};
use crate::webdav::WebDAVList;

verus! {

/// The path by which an entry is sorted. An unknown entry has none,
/// and sorts as the empty path.
pub open spec fn path_of(item: WebDAVList) -> Seq<char> {
    match item {
        WebDAVList::File(f) => f.path@,
        WebDAVList::Folder(d) => d.path@,
        WebDAVList::Unknown => Seq::empty(),
    }
}

/// Whether `l` sorts before `r`: its path comes first in the order of
/// bytes.
pub open spec fn sorts_before(l: WebDAVList, r: WebDAVList) -> bool {
    lex_less(vstd::utf8::encode_utf8(path_of(l)), vstd::utf8::encode_utf8(path_of(r)))
}

/// The entries of `list` that are files or folders, in their order.
pub open spec fn known_items(list: Seq<WebDAVList>) -> Seq<WebDAVList>
    decreases list.len(),
{
    if list.len() == 0 {
        list
    } else if list.last() is Unknown {
        known_items(list.drop_last())
    } else {
        known_items(list.drop_last()).push(list.last())
    }
}

/// `sorted` with `item` put behind the last entry that does not sort
/// behind it.
pub open spec fn inserted(sorted: Seq<WebDAVList>, item: WebDAVList) -> Seq<WebDAVList>
    decreases sorted.len(),
{
    if sorted.len() == 0 || !sorts_before(item, sorted.last()) {
        sorted.push(item)
    } else {
        inserted(sorted.drop_last(), item).push(sorted.last())
    }
}

/// The entries of `list` sorted by path. Entries with the same path
/// keep their order.
pub open spec fn sorted_by_path(list: Seq<WebDAVList>) -> Seq<WebDAVList>
    decreases list.len(),
{
    if list.len() == 0 {
        list
    } else {
        inserted(sorted_by_path(list.drop_last()), list.last())
    }
}

/// Whether no entry of `list` sorts before an entry that stands
/// before it.
pub open spec fn is_sorted(list: Seq<WebDAVList>) -> bool {
    forall|i: int, j: int| 0 <= i < j < list.len() ==> !sorts_before(list[j], list[i])
}

/// Putting an entry into a sorted list leaves it sorted, and adds this
/// entry and no other.
pub proof fn lemma_inserted(sorted: Seq<WebDAVList>, item: WebDAVList)
    requires
        is_sorted(sorted),
    ensures
        is_sorted(inserted(sorted, item)),
        inserted(sorted, item).len() == sorted.len() + 1,
        inserted(sorted, item).to_multiset() == sorted.to_multiset().insert(item),
    decreases sorted.len(),
{
    broadcast use vstd::seq_lib::group_to_multiset_ensures;

    if sorted.len() == 0 || !sorts_before(item, sorted.last()) {
        let after = sorted.push(item);
        assert forall|i: int, j: int| 0 <= i < j < after.len() implies !sorts_before(
            after[j],
            after[i],
        ) by {
            if j == sorted.len() {
                if i < sorted.len() - 1 {
                    assert(!sorts_before(sorted[sorted.len() - 1], sorted[i]));
                    lemma_lex_not_less_chain(
                        vstd::utf8::encode_utf8(path_of(item)),
                        vstd::utf8::encode_utf8(path_of(sorted.last())),
                        vstd::utf8::encode_utf8(path_of(sorted[i])),
                    );
                }
            }
        }
    } else {
        let rest = sorted.drop_last();
        assert(is_sorted(rest)) by {
            assert forall|i: int, j: int| 0 <= i < j < rest.len() implies !sorts_before(
                rest[j],
                rest[i],
            ) by {
                assert(rest[i] == sorted[i] && rest[j] == sorted[j]);
            }
        }
        lemma_inserted(rest, item);
        let inner = inserted(rest, item);
        let after = inner.push(sorted.last());
        lemma_lex_asymmetric(
            vstd::utf8::encode_utf8(path_of(item)),
            vstd::utf8::encode_utf8(path_of(sorted.last())),
        );
        assert forall|i: int| 0 <= i < rest.len() implies !sorts_before(
            sorted.last(),
            #[trigger] rest[i],
        ) by {
            assert(!sorts_before(sorted[sorted.len() - 1], sorted[i]));
        }
        lemma_inserted_bound(rest, item, sorted.last());
        assert forall|i: int, j: int| 0 <= i < j < after.len() implies !sorts_before(
            after[j],
            after[i],
        ) by {
            if j == inner.len() {
                assert(!sorts_before(sorted.last(), inner[i]));
            }
        }
        assert(sorted =~= rest.push(sorted.last()));
    }
}

/// An entry that sorts before none of `sorted` and not before `item`
/// sorts before none of `sorted` with `item` put in.
pub proof fn lemma_inserted_bound(sorted: Seq<WebDAVList>, item: WebDAVList, top: WebDAVList)
    requires
        forall|i: int| 0 <= i < sorted.len() ==> !sorts_before(top, #[trigger] sorted[i]),
        !sorts_before(top, item),
    ensures
        forall|i: int|
            0 <= i < inserted(sorted, item).len() ==> !sorts_before(
                top,
                #[trigger] inserted(sorted, item)[i],
            ),
    decreases sorted.len(),
{
    let after = inserted(sorted, item);
    if sorted.len() == 0 || !sorts_before(item, sorted.last()) {
        assert forall|i: int| 0 <= i < after.len() implies !sorts_before(top, #[trigger] after[i]) by {
            if i < sorted.len() {
                assert(after[i] == sorted[i]);
            }
        }
    } else {
        let rest = sorted.drop_last();
        assert forall|i: int| 0 <= i < rest.len() implies !sorts_before(top, #[trigger] rest[i]) by {
            assert(rest[i] == sorted[i]);
        }
        lemma_inserted_bound(rest, item, top);
        let inner = inserted(rest, item);
        assert forall|i: int| 0 <= i < after.len() implies !sorts_before(top, #[trigger] after[i]) by {
            if i < inner.len() {
                assert(after[i] == inner[i]);
            } else {
                assert(after[i] == sorted[sorted.len() - 1]);
            }
        }
    }
}

/// Sorting gives a sorted list of the same entries.
pub proof fn lemma_sorted_by_path(list: Seq<WebDAVList>)
    ensures
        is_sorted(sorted_by_path(list)),
        sorted_by_path(list).len() == list.len(),
        sorted_by_path(list).to_multiset() == list.to_multiset(),
    decreases list.len(),
{
    broadcast use vstd::seq_lib::group_to_multiset_ensures;

    if list.len() > 0 {
        lemma_sorted_by_path(list.drop_last());
        lemma_inserted(sorted_by_path(list.drop_last()), list.last());
        assert(list =~= list.drop_last().push(list.last()));
    }
}

/// The path by which `item` is sorted.
pub fn sort_path(item: &WebDAVList) -> (path: &str)
    ensures
        path@ == path_of(*item),
{
    match item {
        WebDAVList::File(f) => f.path.as_str(),
        WebDAVList::Folder(d) => d.path.as_str(),
        WebDAVList::Unknown => {
            proof {
                reveal_strlit("");
            }
            ""
        },
    }
}

/// Whether `l` sorts before `r` in a listing.
pub fn sort_webdav_list(l: &WebDAVList, r: &WebDAVList) -> (before: bool)
    ensures
        before == sorts_before(*l, *r),
{
    text_less(sort_path(l), sort_path(r))
}

/// The files and folders of `list`, sorted by path.
pub fn sort_by_path(list: &Vec<WebDAVList>) -> (sorted: Vec<&WebDAVList>)
    ensures
        sorted@.len() == sorted_by_path(known_items(list@)).len(),
        forall|i: int|
            0 <= i < sorted@.len() ==> *(#[trigger] sorted@[i]) == sorted_by_path(
                known_items(list@),
            )[i],
{
    let mut sorted: Vec<&WebDAVList> = Vec::new();
    let mut n: usize = 0;
    assert(list@.take(0) =~= Seq::<WebDAVList>::empty());
    while n < list.len()
        invariant
            n <= list@.len(),
            sorted@.len() == sorted_by_path(known_items(list@.take(n as int))).len(),
            forall|i: int|
                0 <= i < sorted@.len() ==> *(#[trigger] sorted@[i]) == sorted_by_path(
                    known_items(list@.take(n as int)),
                )[i],
        decreases list@.len() - n,
    {
        let item = &list[n];
        let ghost before = sorted_by_path(known_items(list@.take(n as int)));
        proof {
            assert(list@.take(n + 1).drop_last() =~= list@.take(n as int));
            assert(list@.take(n + 1).last() == *item);
        }
        match item {
            WebDAVList::Unknown => {},
            _ => {
                proof {
                    let known = known_items(list@.take(n + 1));
                    assert(known == known_items(list@.take(n as int)).push(*item));
                    assert(known.drop_last() =~= known_items(list@.take(n as int)));
                }
                let mut k: usize = sorted.len();
                assert(before.take(k as int) =~= before);
                assert(before.skip(k as int) =~= Seq::<WebDAVList>::empty());
                assert(inserted(before, *item) =~= inserted(before.take(k as int), *item)
                    + before.skip(k as int));
                while k > 0 && sort_webdav_list(item, sorted[k - 1])
                    invariant
                        k <= sorted@.len(),
                        sorted@.len() == before.len(),
                        forall|i: int| 0 <= i < sorted@.len() ==> *(#[trigger] sorted@[i]) == before[i],
                        inserted(before, *item) == inserted(before.take(k as int), *item)
                            + before.skip(k as int),
                    decreases k,
                {
                    proof {
                        let head = before.take(k as int);
                        assert(head.last() == before[k - 1]);
                        assert(head.drop_last() =~= before.take(k - 1));
                        assert(inserted(head, *item) == inserted(before.take(k - 1), *item).push(
                            before[k - 1],
                        ));
                        assert(inserted(before.take(k - 1), *item).push(before[k - 1])
                            + before.skip(k as int) =~= inserted(before.take(k - 1), *item)
                            + before.skip(k - 1));
                    }
                    k -= 1;
                }
                proof {
                    let head = before.take(k as int);
                    if k > 0 {
                        assert(head.last() == before[k - 1]);
                    }
                    assert(inserted(head, *item) == head.push(*item));
                    assert(head.push(*item) + before.skip(k as int) =~= before.insert(
                        k as int,
                        *item,
                    ));
                }
                sorted.insert(k, item);
                proof {
                    let after = inserted(before, *item);
                    assert forall|i: int| 0 <= i < sorted@.len() implies *(#[trigger] sorted@[i])
                        == after[i] by {
                        if i < k {
                        } else if i > k {
                        }
                    }
                }
            },
        }
        n += 1;
    }
    assert(list@.take(n as int) =~= list@);
    sorted
}

} // verus!
