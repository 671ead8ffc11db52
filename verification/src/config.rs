//! The `book.toml` configuration of the HTML book, made from `key=value`
//! metadata entries.
use vstd::prelude::*;

use crate::strmap::StrMap;
use crate::text::{chars_of, count_char, count_occurrences, string_from_range};

verus! {

/// What is put before the item at position `i` of a series of `n` items.
/// The last item of two is preceded by ` and `, the last of three or more by
/// `, and `, a lone item by nothing, and every other item by `, `.
pub open spec fn series_separator(i: int, n: int) -> Seq<char> {
    if i == n - 1 {
        if n == 2 {
            " and "@
        } else if n != 1 {
            ", and "@
        } else {
            Seq::empty()
        }
    } else {
        ", "@
    }
}

/// The first `k` items of `items`, each after its separator.
pub open spec fn series_prefix(items: Seq<Seq<char>>, k: int) -> Seq<char>
    decreases k,
{
    if k <= 0 {
        Seq::empty()
    } else {
        series_prefix(items, k - 1) + series_separator(k - 1, items.len() as int) + items[k - 1]
    }
}

/// All the items of `items`, each after its separator.
pub open spec fn series(items: Seq<Seq<char>>) -> Seq<char> {
    series_prefix(items, items.len() as int)
}

/// Writes the items as a series: each item is preceded by `, `, except the
/// last, which is preceded by ` and ` in a series of two, by `, and ` in a
/// series of three or more, and by nothing when it is the only one.
pub fn oxford_series(items: &Vec<String>) -> (r: String)
    ensures
        r@ == series(items.deep_view()),
{
    let ghost its = items.deep_view();
    let len = items.len();
    let mut s = String::new();
    let mut i: usize = 0;
    while i < len
        invariant
            its == items.deep_view(),
            its.len() == len,
            len == items.len(),
            i <= len,
            s@ == series_prefix(its, i as int),
        decreases len - i,
    {
        if i == len - 1 {
            if len == 2 {
                s.append(" and ");
            } else if len != 1 {
                s.append(", and ");
            }
        } else {
            s.append(", ");
        }
        s.append(items[i].as_str());
        assert(its[i as int] == items@[i as int]@);
        i = i + 1;
    }
    s
}

/// The total length of the items of `items`.
pub open spec fn total_length(items: Seq<Seq<char>>) -> nat
    decreases items.len(),
{
    if items.len() == 0 {
        0
    } else {
        total_length(items.drop_last()) + items.last().len()
    }
}

/// The length of what stands before the last item of a series of `n` items.
pub open spec fn last_separator_length(n: int) -> int {
    if n <= 1 {
        0
    } else if n == 2 {
        5
    } else {
        6
    }
}

/// Where item `i` of a series of `n` items starts, when the items before it
/// take `before` characters: every item but the last comes after two
/// characters of separator, the last after `last_separator_length(n)`.
pub open spec fn series_item_start(before: nat, i: int, n: int) -> int {
    if i == n - 1 {
        before + 2 * i + last_separator_length(n)
    } else {
        before + 2 * (i + 1)
    }
}

proof fn lemma_series_prefix_shape(items: Seq<Seq<char>>, k: int)
    requires
        0 <= k <= items.len(),
    ensures
        series_prefix(items, k).len() == if k == 0 {
            0
        } else {
            series_item_start(total_length(items.take(k - 1)), k - 1, items.len() as int)
                + items[k - 1].len()
        },
        k > 0 ==> series_prefix(items, k).subrange(
            series_item_start(total_length(items.take(k - 1)), k - 1, items.len() as int),
            series_prefix(items, k).len() as int,
        ) == items[k - 1],
    decreases k,
{
    reveal_strlit(", ");
    reveal_strlit(" and ");
    reveal_strlit(", and ");
    let n = items.len() as int;
    if k > 0 {
        lemma_series_prefix_shape(items, k - 1);
        let prev = series_prefix(items, k - 1);
        let sep = series_separator(k - 1, n);
        assert(items.take(k).drop_last() == items.take(k - 1));
        assert(items.take(k).last() == items[k - 1]);
        if k >= 2 {
            assert(items.take(k - 1).drop_last() == items.take(k - 2));
            assert(items.take(k - 1).last() == items[k - 2]);
        } else {
            assert(items.take(0) =~= Seq::<Seq<char>>::empty());
        }
        assert(prev.len() + sep.len() == series_item_start(
            total_length(items.take(k - 1)),
            k - 1,
            n,
        ));
        let whole = series_prefix(items, k);
        assert(whole == prev + sep + items[k - 1]);
        assert(whole.subrange((prev.len() + sep.len()) as int, whole.len() as int) =~= items[k - 1]);
    }
}

proof fn lemma_series_prefix_grows(items: Seq<Seq<char>>, k: int, m: int)
    requires
        0 <= k <= m <= items.len(),
    ensures
        series_prefix(items, k).len() <= series_prefix(items, m).len(),
        series_prefix(items, m).take(series_prefix(items, k).len() as int) == series_prefix(items, k),
    decreases m - k,
{
    if k < m {
        lemma_series_prefix_grows(items, k, m - 1);
        let a = series_prefix(items, k);
        let b = series_prefix(items, m - 1);
        let c = series_prefix(items, m);
        assert(c == b + series_separator(m - 1, items.len() as int) + items[m - 1]);
        assert(c.take(a.len() as int) =~= b.take(a.len() as int));
    } else {
        let a = series_prefix(items, k);
        assert(a.take(a.len() as int) =~= a);
    }
}

/// A series holds every item, each once, in order, and nothing else but the
/// separators: its length is the items' total length, plus two characters for
/// each item but the last, plus five before the last of two or six before the
/// last of three or more; and item `i` stands where the items and separators
/// before it end.
pub proof fn lemma_series_holds_every_item(items: Seq<Seq<char>>)
    ensures
        series(items).len() == total_length(items) + if items.len() == 0 {
            0
        } else {
            2 * (items.len() - 1) + last_separator_length(items.len() as int)
        },
        forall|i: int|
            0 <= i < items.len() ==> {
                let start = series_item_start(total_length(items.take(i)), i, items.len() as int);
                &&& start + items[i].len() <= series(items).len()
                &&& series(items).subrange(start, start + items[i].len()) == #[trigger] items[i]
            },
{
    let n = items.len() as int;
    lemma_series_prefix_shape(items, n);
    if n > 0 {
        assert(items.take(n).drop_last() == items.take(n - 1));
        assert(items.take(n) == items);
        assert(items.take(n).last() == items[n - 1]);
    }
    assert forall|i: int|
        0 <= i < items.len() implies {
            let start = series_item_start(total_length(items.take(i)), i, items.len() as int);
            &&& start + items[i].len() <= series(items).len()
            &&& series(items).subrange(start, start + items[i].len()) == #[trigger] items[i]
        } by {
        lemma_series_prefix_shape(items, i + 1);
        lemma_series_prefix_grows(items, i + 1, n);
        let part = series_prefix(items, i + 1);
        let whole = series(items);
        let start = series_item_start(total_length(items.take(i)), i, n);
        assert(whole.subrange(start, start + items[i].len()) =~= part.subrange(
            start,
            part.len() as int,
        ));
    }
}

/// The position of the first `c` in `s`.
pub open spec fn first_index(s: Seq<char>, c: char) -> Option<int>
    decreases s.len(),
{
    if s.len() == 0 {
        None
    } else {
        match first_index(s.drop_last(), c) {
            Some(i) => Some(i),
            None => if s.last() == c {
                Some(s.len() - 1)
            } else {
                None
            },
        }
    }
}

proof fn lemma_first_index_extends(s: Seq<char>, c: char, k: int)
    requires
        0 <= k <= s.len(),
        first_index(s.take(k), c) is Some,
    ensures
        first_index(s, c) == first_index(s.take(k), c),
    decreases s.len() - k,
{
    if k < s.len() {
        assert(s.take(k + 1).drop_last() == s.take(k));
        lemma_first_index_extends(s, c, k + 1);
    } else {
        assert(s.take(k) == s);
    }
}

/// A metadata entry split at its `=`: the key before and the value after.
/// `None` unless the entry holds exactly one `=`.
pub open spec fn metadata_entry(entry: Seq<char>) -> Option<(Seq<char>, Seq<char>)> {
    if count_char(entry, '=') == 1 {
        let i = first_index(entry, '=').unwrap();
        Some((entry.take(i), entry.skip(i + 1)))
    } else {
        None
    }
}

/// Splits a metadata entry `key=value` at its `=`; `None` unless the entry
/// holds exactly one `=`.
pub fn split_metadata_entry(entry: &str) -> (r: Option<(String, String)>)
    ensures
        r.deep_view() == metadata_entry(entry@),
{
    if count_occurrences(entry, '=') != 1 {
        return None;
    }
    let chars = chars_of(entry);
    let mut i: usize = 0;
    while i < chars.len()
        invariant
            chars@ == entry@,
            count_char(entry@, '=') == 1,
            i <= chars.len(),
            first_index(entry@.take(i as int), '=') is None,
            count_char(entry@.take(i as int), '=') == 0,
        decreases chars.len() - i,
    {
        assert(entry@.take(i + 1).drop_last() == entry@.take(i as int));
        if chars[i] == '=' {
            proof {
                lemma_first_index_extends(entry@, '=', i + 1);
            }
            let key = string_from_range(&chars, 0, i);
            let value = string_from_range(&chars, i + 1, chars.len());
            assert(key@ == entry@.take(i as int));
            assert(value@ == entry@.skip(i + 1));
            return Some((key, value));
        }
        i = i + 1;
    }
    assert(entry@.take(chars.len() as int) == entry@);
    None
}

/// The configuration made from the metadata entries so far, and the authors
/// named so far; `None` where an entry lacks its single `=`. An `author`
/// entry adds an author; any other entry sets its key to its value.
pub open spec fn metadata_config(entries: Seq<Seq<char>>) -> Option<
    (Map<Seq<char>, Seq<char>>, Seq<Seq<char>>),
>
    decreases entries.len(),
{
    if entries.len() == 0 {
        Some((Map::empty(), Seq::empty()))
    } else {
        match metadata_config(entries.drop_last()) {
            None => None,
            Some((config, authors)) => match metadata_entry(entries.last()) {
                None => None,
                Some((key, value)) => if key == "author"@ {
                    Some((config, authors.push(value)))
                } else {
                    Some((config.insert(key, value), authors))
                },
            },
        }
    }
}

/// The configuration of the HTML book: the metadata entries, then `author`
/// set to the series of authors where there is one, then `dest` set to the
/// destination directory; `None` where an entry lacks its single `=`.
pub open spec fn book_config_spec(dest_dir: Seq<char>, metadata: Seq<Seq<char>>) -> Option<
    Map<Seq<char>, Seq<char>>,
> {
    match metadata_config(metadata) {
        None => None,
        Some((config, authors)) => {
            let with_authors = if authors.len() > 0 {
                config.insert("author"@, series(authors))
            } else {
                config
            };
            Some(with_authors.insert("dest"@, dest_dir))
        },
    }
}

proof fn lemma_metadata_fails_after(entries: Seq<Seq<char>>, k: int)
    requires
        0 <= k <= entries.len(),
        metadata_config(entries.take(k)) is None,
    ensures
        metadata_config(entries) is None,
    decreases entries.len() - k,
{
    if k < entries.len() {
        assert(entries.take(k + 1).drop_last() == entries.take(k));
        lemma_metadata_fails_after(entries, k + 1);
    } else {
        assert(entries.take(k) == entries);
    }
}

/// Why the configuration could not be written.
#[derive(Debug, Clone, Copy, PartialEq, Eq)]
pub enum ConfigError {
    /// A metadata entry is not of the form `key=value`.
    MalformedMetadata,
    /// The configuration could not be written as TOML.
    Serialization,
}

/// Makes the configuration of the HTML book out of its destination directory
/// and its metadata entries, each `key=value`: every `author` entry adds an
/// author, every other entry sets its key; then `author` is set to the
/// series of the authors, where there are any, and `dest` to `dest_dir`.
pub fn book_config(dest_dir: &str, metadata: &Vec<String>) -> (r: Result<StrMap, ConfigError>)
    ensures
        match r {
            Ok(config) => config.wf() && book_config_spec(dest_dir@, metadata.deep_view()) == Some(
                config@,
            ),
            Err(e) => e == ConfigError::MalformedMetadata && book_config_spec(
                dest_dir@,
                metadata.deep_view(),
            ) is None,
        },
{
    let ghost entries = metadata.deep_view();
    let mut config = StrMap::new();
    let mut authors: Vec<String> = Vec::new();
    let author_key = String::from_str("author");
    let mut i: usize = 0;
    while i < metadata.len()
        invariant
            entries == metadata.deep_view(),
            entries.len() == metadata.len(),
            i <= metadata.len(),
            author_key@ == "author"@,
            config.wf(),
            metadata_config(entries.take(i as int)) == Some((config@, authors.deep_view())),
        decreases metadata.len() - i,
    {
        assert(entries.take(i + 1).drop_last() == entries.take(i as int));
        assert(entries.take(i + 1).last() == metadata@[i as int]@);
        match split_metadata_entry(metadata[i].as_str()) {
            None => {
                proof {
                    lemma_metadata_fails_after(entries, i + 1);
                }
                return Err(ConfigError::MalformedMetadata);
            },
            Some((key, value)) => {
                if key == author_key {
                    let ghost before = authors.deep_view();
                    authors.push(value);
                    assert(authors.deep_view() =~= before.push(value@));
                } else {
                    config.insert(key, value);
                }
            },
        }
        i = i + 1;
    }
    assert(entries.take(metadata.len() as int) == entries);
    if authors.len() > 0 {
        config.insert(author_key, oxford_series(&authors));
    }
    config.insert(String::from_str("dest"), String::from_str(dest_dir));
    Ok(config)
}

/// What `toml::to_string` gives for a TOML table that maps each key of
/// `table` to its value as a TOML string: `None` where it reports an error.
pub uninterp spec fn toml_table_document(table: Map<Seq<char>, Seq<char>>) -> Option<Seq<char>>;

/// Writes the map as a TOML table whose values are strings, with
/// `toml::to_string` on a `toml::Value` table built from its entries. The
/// contract claims that the result is `toml_table_document` of the map;
/// the table is keyed by the map's keys, which are distinct, so it holds
/// exactly the map's entries.
#[verifier::external_body]
fn toml_document(config: &StrMap) -> (r: Option<String>)
    requires
        config.wf(),
    ensures
        r.deep_view() == toml_table_document(config@),
{
    let table: std::collections::BTreeMap<String, toml::Value> = config.entries().iter().map(
        |(k, v)| (k.clone(), toml::Value::from(v.clone())),
    ).collect();
    toml::to_string(&toml::Value::from(table)).ok()
}

/// The `book.toml` of the HTML book: the configuration that `book_config`
/// makes, written as a TOML table of strings.
pub fn book_toml(dest_dir: &str, metadata: &Vec<String>) -> (r: Result<String, ConfigError>)
    ensures
        match r {
            Ok(text) => book_config_spec(dest_dir@, metadata.deep_view()) matches Some(config)
                && toml_table_document(config) == Some(text@),
            Err(ConfigError::MalformedMetadata) => book_config_spec(
                dest_dir@,
                metadata.deep_view(),
            ) is None,
            Err(ConfigError::Serialization) => book_config_spec(
                dest_dir@,
                metadata.deep_view(),
            ) matches Some(config) && toml_table_document(config) is None,
        },
{
    let config = book_config(dest_dir, metadata)?;
    match toml_document(&config) {
        Some(text) => Ok(text),
        None => Err(ConfigError::Serialization),
    }
}

} // verus!
