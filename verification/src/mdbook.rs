use vstd::prelude::*;

use crate::paths::{paths_equal, same_path};
use crate::text::{
    count_char, count_occurrences, lemma_count_char_bounds, lemma_count_char_concat,
    lemma_count_single,
};

verus! {

/// A chapter of a book: its title, the path of its source file relative to
/// the book's source directory, and the items nested under it.
#[derive(Debug)]
pub struct Chapter {
    pub name: String,
    pub path: String,
    pub sub_items: Vec<BookItem>,
}

/// An entry of a book's table of contents.
#[derive(Debug)]
pub enum BookItem {
    /// A numbered chapter; the number is written like `1.` or `2.3.`.
    Chapter(String, Chapter),
    /// An unnumbered chapter before or after the numbered ones.
    Affix(Chapter),
    /// A separator line.
    Spacer,
}

/// The items nested under `item`, in reading order.
pub open spec fn nested_items(item: BookItem) -> Seq<BookItem>
    decreases item, 0nat,
{
    match item {
        BookItem::Chapter(_, ch) => flatten_items(ch.sub_items@),
        BookItem::Affix(ch) => flatten_items(ch.sub_items@),
        BookItem::Spacer => Seq::empty(),
    }
}

/// All items of `items` in reading order: each item, followed by the items
/// nested under it, before the next one.
pub open spec fn flatten_items(items: Seq<BookItem>) -> Seq<BookItem>
    decreases items, 1nat,
{
    if items.len() == 0 {
        Seq::empty()
    } else {
        flatten_items(items.drop_last()) + seq![items.last()] + nested_items(items.last())
    }
}


/// The items of `refs`, seen through their references.
pub open spec fn deref_items(refs: Seq<&BookItem>) -> Seq<BookItem> {
    refs.map_values(|r: &BookItem| *r)
}

fn collect_items<'a>(items: &'a [BookItem], out: &mut Vec<&'a BookItem>)
    ensures
        deref_items(final(out)@) == deref_items(old(out)@) + flatten_items(items@),
    decreases items@,
{
    let mut i: usize = 0;
    while i < items.len()
        invariant
            i <= items.len(),
            deref_items(out@) == deref_items(old(out)@) + flatten_items(items@.take(i as int)),
        decreases items.len() - i,
    {
        let item = &items[i];
        proof {
            assert(items@.take(i + 1).drop_last() == items@.take(i as int));
            assert(items@.take(i + 1).last() == items@[i as int]);
        }
        let ghost before = deref_items(out@);
        out.push(item);
        assert(deref_items(out@) == before.push(*item));
        match item {
            BookItem::Chapter(_, ch) => {
                collect_items(ch.sub_items.as_slice(), out);
            },
            BookItem::Affix(ch) => {
                collect_items(ch.sub_items.as_slice(), out);
            },
            BookItem::Spacer => {},
        }
        assert(deref_items(out@) == before.push(*item) + nested_items(*item));
        assert(flatten_items(items@.take(i + 1)) == flatten_items(items@.take(i as int)) + seq![
            *item,
        ] + nested_items(*item));
        assert(deref_items(out@) =~= deref_items(old(out)@) + flatten_items(items@.take(i + 1)));
        i = i + 1;
    }
    assert(items@.take(items.len() as int) == items@);
}

/// Every item of the book in reading order: each item comes before the items
/// nested under it, and those come before the item's next sibling.
pub fn iter_items<'a>(items: &'a [BookItem]) -> (r: Vec<&'a BookItem>)
    ensures
        deref_items(r@) == flatten_items(items@),
{
    let mut r: Vec<&'a BookItem> = Vec::new();
    collect_items(items, &mut r);
    assert(deref_items(Seq::<&BookItem>::empty()) == Seq::<BookItem>::empty());
    r
}


/// Whether `item` is a chapter or an affix whose source file is `path`.
pub open spec fn item_has_path(item: BookItem, path: Seq<char>) -> bool {
    match item {
        BookItem::Chapter(_, ch) => same_path(ch.path@, path),
        BookItem::Affix(ch) => same_path(ch.path@, path),
        BookItem::Spacer => false,
    }
}

/// The first item of the book, in reading order, whose source file is `path`;
/// `None` where no chapter or affix has that file.
pub fn find_item_by_path<'a>(book_items: &'a [BookItem], path: &str) -> (r: Option<&'a BookItem>)
    ensures
        ({
            let flat = flatten_items(book_items@);
            match r {
                None => forall|k: int| 0 <= k < flat.len() ==> !item_has_path(#[trigger] flat[k], path@),
                Some(item) => exists|k: int|
                    0 <= k < flat.len() && flat[k] == *item && item_has_path(flat[k], path@) && forall|
                        j: int,
                    | 0 <= j < k ==> !item_has_path(#[trigger] flat[j], path@),
            }
        }),
{
    let all = iter_items(book_items);
    let ghost flat = flatten_items(book_items@);
    let mut i: usize = 0;
    while i < all.len()
        invariant
            i <= all.len(),
            deref_items(all@) == flat,
            flat == flatten_items(book_items@),
            forall|j: int| 0 <= j < i ==> !item_has_path(#[trigger] flat[j], path@),
        decreases all.len() - i,
    {
        let item = all[i];
        assert(flat[i as int] == *item);
        let found = match item {
            BookItem::Chapter(_, ch) => paths_equal(ch.path.as_str(), path),
            BookItem::Affix(ch) => paths_equal(ch.path.as_str(), path),
            BookItem::Spacer => false,
        };
        if found {
            assert(item_has_path(flat[i as int], path@));
            return Some(item);
        }
        i = i + 1;
    }
    None
}

/// Whether `number` is a chapter number that `chapter_depth` accepts: it holds
/// at least one dot (and no more dots than an `i64` can count).
pub open spec fn valid_chapter_number(number: Seq<char>) -> bool {
    1 <= count_char(number, '.') <= i64::MAX
}

/// The nesting depth of a chapter numbered `number`: one less than the
/// number of dots in it, so `1.` is at depth 0 and `2.3.` at depth 1.
pub open spec fn depth_of(number: Seq<char>) -> int {
    count_char(number, '.') - 1
}

/// The nesting depth of the chapter numbered `number` (`1.` gives 0, `2.3.`
/// gives 1).
pub fn chapter_depth(number: &str) -> (d: i64)
    requires
        valid_chapter_number(number@),
    ensures
        d == depth_of(number@),
{
    let n = count_occurrences(number, '.');
    (n - 1) as i64
}

/// The nesting depth of the chapter numbered `number`, or `None` where
/// `number` has no dot.
pub fn checked_chapter_depth(number: &str) -> (d: Option<i64>)
    ensures
        d == (if valid_chapter_number(number@) {
            Some(depth_of(number@) as i64)
        } else {
            None
        }),
{
    let n = count_occurrences(number, '.');
    if n == 0 || (n as u64) > (i64::MAX as u64) {
        None
    } else {
        Some((n - 1) as i64)
    }
}


/// The items directly under `item` (none under a spacer).
pub open spec fn sub_items_of(item: BookItem) -> Seq<BookItem> {
    match item {
        BookItem::Chapter(_, ch) => ch.sub_items@,
        BookItem::Affix(ch) => ch.sub_items@,
        BookItem::Spacer => Seq::empty(),
    }
}

/// The number of items in the book `items`, counting the items nested at
/// every depth.
pub open spec fn item_count(items: Seq<BookItem>) -> nat
    decreases items, 1nat,
{
    if items.len() == 0 {
        0
    } else {
        item_count(items.drop_last()) + 1 + nested_count(items.last())
    }
}

/// The number of items nested under `item`, at every depth.
pub open spec fn nested_count(item: BookItem) -> nat
    decreases item, 0nat,
{
    match item {
        BookItem::Chapter(_, ch) => item_count(ch.sub_items@),
        BookItem::Affix(ch) => item_count(ch.sub_items@),
        BookItem::Spacer => 0,
    }
}

/// Walking a book visits every item of it, at every depth: as many items as
/// the book holds.
pub proof fn lemma_iter_items_count(items: Seq<BookItem>)
    ensures
        flatten_items(items).len() == item_count(items),
    decreases items,
{
    if items.len() > 0 {
        let last = items.last();
        lemma_iter_items_count(items.drop_last());
        assert(flatten_items(items) == flatten_items(items.drop_last()) + seq![last]
            + nested_items(last));
        assert(item_count(items) == item_count(items.drop_last()) + 1 + nested_count(last));
        match last {
            BookItem::Chapter(_, ch) => {
                lemma_iter_items_count(ch.sub_items@);
                assert(nested_items(last) == flatten_items(ch.sub_items@));
                assert(nested_count(last) == item_count(ch.sub_items@));
            },
            BookItem::Affix(ch) => {
                lemma_iter_items_count(ch.sub_items@);
                assert(nested_items(last) == flatten_items(ch.sub_items@));
                assert(nested_count(last) == item_count(ch.sub_items@));
            },
            BookItem::Spacer => {
                assert(nested_items(last) == Seq::<BookItem>::empty());
            },
        }
    }
}

/// Walking one item gives the item, then the walk of the items directly under
/// it.
pub proof fn lemma_iter_items_single(item: BookItem)
    ensures
        flatten_items(seq![item]) == seq![item] + flatten_items(sub_items_of(item)),
{
    let one = seq![item];
    assert(one.drop_last() =~= Seq::<BookItem>::empty());
    assert(one.last() == item);
    assert(flatten_items(one) == flatten_items(one.drop_last()) + seq![item] + nested_items(item));
    assert(flatten_items(Seq::<BookItem>::empty()) == Seq::<BookItem>::empty());
    assert(nested_items(item) == flatten_items(sub_items_of(item)));
    assert(Seq::<BookItem>::empty() + seq![item] =~= seq![item]);
}

/// Walking two runs of items one after the other is walking the first run,
/// then the second.
pub proof fn lemma_iter_items_concat(a: Seq<BookItem>, b: Seq<BookItem>)
    ensures
        flatten_items(a + b) == flatten_items(a) + flatten_items(b),
    decreases b.len(),
{
    if b.len() == 0 {
        assert(a + b =~= a);
        assert(flatten_items(a) + flatten_items(b) =~= flatten_items(a));
    } else {
        lemma_iter_items_concat(a, b.drop_last());
        assert((a + b).drop_last() =~= a + b.drop_last());
        assert((a + b).last() == b.last());
        assert(flatten_items(a + b) =~= flatten_items(a) + flatten_items(b));
    }
}

/// Only the dots of a chapter number count for its depth: a character other
/// than a dot, put anywhere in the number, leaves the depth as it was.
pub proof fn lemma_depth_ignores_digits(a: Seq<char>, b: Seq<char>, c: char)
    requires
        c != '.',
    ensures
        depth_of(a + seq![c] + b) == depth_of(a + b),
{
    lemma_count_char_concat(a, seq![c], '.');
    lemma_count_char_concat(a + seq![c], b, '.');
    lemma_count_char_concat(a, b, '.');
    lemma_count_single(c, '.');
}

/// Each further dot makes the chapter one level deeper, and the first dot of
/// a number makes a chapter of depth 0.
pub proof fn lemma_depth_per_dot(s: Seq<char>)
    ensures
        depth_of(s + seq!['.']) == depth_of(s) + 1,
        !s.contains('.') ==> depth_of(s + seq!['.']) == 0,
{
    lemma_count_char_concat(s, seq!['.'], '.');
    lemma_count_single('.', '.');
    lemma_count_char_bounds(s, '.');
}

/// A chapter number is accepted exactly when it holds a dot.
pub proof fn lemma_valid_number_has_dot(s: Seq<char>)
    requires
        s.len() <= i64::MAX,
    ensures
        valid_chapter_number(s) <==> s.contains('.'),
{
    lemma_count_char_bounds(s, '.');
}

} // verus!
