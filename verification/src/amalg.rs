//! The amalgamation format: several documents put one after another in one
//! HTML document, each introduced by a marker comment that names it.
use vstd::prelude::*;

use crate::text::{
    chars_have_prefix, chars_have_suffix, chars_of, has_prefix, has_suffix, lemma_scan_lines_append,
    lines_of, scan_lines, text_lines, without_cr,
};

verus! {

/// The word that marks a comment as the start of a document of an
/// amalgamation.
pub const AMALG_MAGIC: &'static str = "tools-amalg";

/// What a marker comment begins with: `<!-- `, the magic word and a space.
pub open spec fn marker_head() -> Seq<char> {
    "<!-- "@ + AMALG_MAGIC@ + " "@
}

/// What a marker comment ends with.
pub open spec fn marker_tail() -> Seq<char> {
    " -->"@
}

/// The marker comment that starts the document named `docname`.
pub open spec fn marker_text(docname: Seq<char>) -> Seq<char> {
    marker_head() + docname + marker_tail()
}

/// The name of the document that the line `line` starts, where `line` is a
/// marker comment.
pub open spec fn amalg_name(line: Seq<char>) -> Option<Seq<char>> {
    if line.len() >= marker_head().len() + marker_tail().len() && has_prefix(line, marker_head())
        && has_suffix(line, marker_tail()) {
        Some(line.subrange(marker_head().len() as int, line.len() - marker_tail().len()))
    } else {
        None
    }
}

fn marker_head_chars() -> (r: Vec<char>)
    ensures
        r@ == marker_head(),
{
    let mut head = String::from_str("<!-- ");
    head.append(AMALG_MAGIC);
    head.append(" ");
    chars_of(head.as_str())
}

fn marker_tail_chars() -> (r: Vec<char>)
    ensures
        r@ == marker_tail(),
{
    chars_of(" -->")
}

/// The HTML comment that starts the document named `docname` in an
/// amalgamation: `<!-- `, the magic word, a space, the name and ` -->`.
pub fn amalg_marker(docname: &str) -> (r: String)
    ensures
        r@ == marker_text(docname@),
{
    let mut r = String::from_str("<!-- ");
    r.append(AMALG_MAGIC);
    r.append(" ");
    r.append(docname);
    r.append(" -->");
    r
}

/// The name of the document that `line` starts, where `line` is a marker
/// comment; `None` for any other line.
pub fn match_amalg_prefix(line: &str) -> (r: Option<&str>)
    ensures
        match r {
            Some(name) => amalg_name(line@) == Some(name@),
            None => amalg_name(line@) is None,
        },
{
    let chars = chars_of(line);
    let head = marker_head_chars();
    let tail = marker_tail_chars();
    if chars.len() < head.len() || chars.len() - head.len() < tail.len() {
        return None;
    }
    if chars_have_prefix(&chars, &head) && chars_have_suffix(&chars, &tail) {
        Some(line.substring_char(head.len(), chars.len() - tail.len()))
    } else {
        None
    }
}

/// Reading back a marker gives the name it was made with.
pub proof fn lemma_marker_names_document(docname: Seq<char>)
    ensures
        amalg_name(marker_text(docname)) == Some(docname),
{
    let line = marker_text(docname);
    assert(line.subrange(0, marker_head().len() as int) =~= marker_head());
    assert(line.subrange(line.len() - marker_tail().len(), line.len() as int) =~= marker_tail());
    assert(line.subrange(marker_head().len() as int, line.len() - marker_tail().len()) =~= docname);
}


/// The document that a block starts, where the block is a raw HTML block
/// (given as its format and its text) holding a marker comment.
pub open spec fn block_marker(block: Option<(Seq<char>, Seq<char>)>) -> Option<Seq<char>> {
    match block {
        Some((format, text)) => if format == "html"@ {
            amalg_name(text)
        } else {
            None
        },
        None => None,
    }
}

/// The document that the blocks before position `k` leave open: the one
/// named by the last marker among them.
pub open spec fn open_document(blocks: Seq<Option<(Seq<char>, Seq<char>)>>, k: int) -> Option<
    Seq<char>,
>
    decreases k,
{
    if k <= 0 {
        None
    } else {
        match block_marker(blocks[k - 1]) {
            Some(name) => Some(name),
            None => open_document(blocks, k - 1),
        }
    }
}

/// Whether every block that is not a marker comes after some marker.
pub open spec fn every_block_in_a_document(blocks: Seq<Option<(Seq<char>, Seq<char>)>>) -> bool {
    forall|k: int|
        0 <= k < blocks.len() && block_marker(#[trigger] blocks[k]) is None ==> open_document(
            blocks,
            k,
        ) is Some
}

/// The document each block belongs to: `None` for the marker blocks
/// themselves, and for every other block the document of the last marker
/// before it.
pub open spec fn block_documents(blocks: Seq<Option<(Seq<char>, Seq<char>)>>) -> Seq<
    Option<Seq<char>>,
> {
    Seq::new(
        blocks.len(),
        |k: int|
            if block_marker(blocks[k]) is Some {
                None
            } else {
                open_document(blocks, k)
            },
    )
}

fn raw_block_marker(block: &Option<(String, String)>) -> (r: Option<&str>)
    ensures
        match r {
            Some(name) => block_marker(block.deep_view()) == Some(name@),
            None => block_marker(block.deep_view()) is None,
        },
{
    match block {
        Some((format, text)) => {
            let html = String::from_str("html");
            if *format == html {
                match_amalg_prefix(text.as_str())
            } else {
                None
            }
        },
        None => None,
    }
}

/// Walks the blocks of an amalgamation, each given as its format and text
/// where it is a raw block and as `None` otherwise, and gives for each block
/// the name of the document it belongs to: `None` for the marker blocks, the
/// name of the last marker before it for every other block. Gives `None` as a
/// whole where a block that is not a marker comes before every marker.
pub fn block_docnames(blocks: &Vec<Option<(String, String)>>) -> (r: Option<Vec<Option<String>>>)
    ensures
        match r {
            Some(names) => every_block_in_a_document(blocks.deep_view()) && names.deep_view()
                == block_documents(blocks.deep_view()),
            None => !every_block_in_a_document(blocks.deep_view()),
        },
{
    let ghost bs = blocks.deep_view();
    let mut names: Vec<Option<String>> = Vec::new();
    let mut current: Option<String> = None;
    let mut i: usize = 0;
    while i < blocks.len()
        invariant
            bs == blocks.deep_view(),
            bs.len() == blocks.len(),
            i <= blocks.len(),
            current.deep_view() == open_document(bs, i as int),
            names.deep_view() == block_documents(bs).take(i as int),
            forall|k: int|
                0 <= k < i && block_marker(#[trigger] bs[k]) is None ==> open_document(bs, k) is Some,
        decreases blocks.len() - i,
    {
        assert(bs[i as int] == blocks@[i as int].deep_view());
        let ghost old_names = names.deep_view();
        assert(old_names.len() == i);
        assert(names@.len() == i);
        match raw_block_marker(&blocks[i]) {
            Some(name) => {
                current = Some(String::from_str(name));
                names.push(None);
                assert(names@.len() == i + 1);
            },
            None => {
                match &current {
                    Some(name) => {
                        names.push(Some(name.clone()));
                    },
                    None => {
                        assert(!every_block_in_a_document(bs)) by {
                            assert(block_marker(bs[i as int]) is None);
                        }
                        return None;
                    },
                }
            },
        }
        assert(names.deep_view().len() == i + 1);
        assert(names.deep_view().take(i as int) =~= old_names);
        assert(names.deep_view()[i as int] == block_documents(bs)[i as int]);
        assert(names.deep_view() =~= block_documents(bs).take(i + 1));
        i = i + 1;
    }
    assert(block_documents(bs).take(blocks.len() as int) =~= block_documents(bs));
    Some(names)
}

/// The documents of an amalgamation given as its lines: each marker line
/// starts a document with the name it holds, and every other line, followed
/// by a newline, goes at the end of the document started last. `None` where
/// a line that is not a marker comes before every marker.
pub open spec fn split_lines_spec(lines: Seq<Seq<char>>) -> Option<Seq<(Seq<char>, Seq<char>)>>
    decreases lines.len(),
{
    if lines.len() == 0 {
        Some(Seq::empty())
    } else {
        match split_lines_spec(lines.drop_last()) {
            None => None,
            Some(docs) => match amalg_name(lines.last()) {
                Some(name) => Some(docs.push((name, Seq::empty()))),
                None => if docs.len() == 0 {
                    None
                } else {
                    Some(
                        docs.update(
                            docs.len() - 1,
                            (docs.last().0, docs.last().1 + lines.last() + seq!['\n']),
                        ),
                    )
                },
            },
        }
    }
}

/// Splits an amalgamation, given as its lines, into its documents: a list of
/// names and contents, in the order of their markers. Each line that is not a
/// marker comes, followed by a newline, at the end of the document of the
/// last marker before it. `None` where such a line comes before every
/// marker.
pub fn split_amalgamation_lines(lines: &Vec<String>) -> (r: Option<Vec<(String, String)>>)
    ensures
        r.deep_view() == split_lines_spec(lines.deep_view()),
{
    let ghost ls = lines.deep_view();
    let mut docs: Vec<(String, String)> = Vec::new();
    let mut i: usize = 0;
    while i < lines.len()
        invariant
            ls == lines.deep_view(),
            ls.len() == lines.len(),
            i <= lines.len(),
            split_lines_spec(ls.take(i as int)) == Some(docs.deep_view()),
        decreases lines.len() - i,
    {
        let ghost before = docs.deep_view();
        assert(ls.take(i + 1).drop_last() == ls.take(i as int));
        assert(ls.take(i + 1).last() == lines@[i as int]@);
        let line = lines[i].as_str();
        match match_amalg_prefix(line) {
            Some(name) => {
                docs.push((String::from_str(name), String::new()));
                assert(docs.deep_view() =~= before.push((name@, Seq::empty())));
            },
            None => {
                match docs.pop() {
                    None => {
                        assert(split_lines_spec(ls.take(i + 1)) is None);
                        assert(ls.take(lines.len() as int) == ls);
                        proof {
                            lemma_split_fails_after(ls, i + 1);
                        }
                        return None;
                    },
                    Some(last) => {
                        let ghost popped = docs.deep_view();
                        assert(popped =~= before.drop_last());
                        assert(last.deep_view() == before.last());
                        let (name, mut contents) = last;
                        contents.append(line);
                        contents.append("\n");
                        proof {
                            reveal_strlit("\n");
                            assert("\n"@ =~= seq!['\n']);
                        }
                        assert(contents@ == before.last().1 + ls[i as int] + seq!['\n']);
                        assert(name@ == before.last().0);
                        docs.push((name, contents));
                        assert(docs.deep_view() =~= before.update(
                            before.len() - 1,
                            (before.last().0, before.last().1 + ls[i as int] + seq!['\n']),
                        ));
                    },
                }
            },
        }
        i = i + 1;
    }
    assert(ls.take(lines.len() as int) == ls);
    Some(docs)
}

/// Once the lines so far have no document to go into, no later line mends it.
proof fn lemma_split_fails_after(lines: Seq<Seq<char>>, k: int)
    requires
        0 <= k <= lines.len(),
        split_lines_spec(lines.take(k)) is None,
    ensures
        split_lines_spec(lines) is None,
    decreases lines.len() - k,
{
    if k < lines.len() {
        assert(lines.take(k + 1).drop_last() == lines.take(k));
        lemma_split_fails_after(lines, k + 1);
    } else {
        assert(lines.take(k) == lines);
    }
}

/// Splits the text of an amalgamation into its documents, each a name and
/// its contents: the text is cut into lines as `str::lines` does, and the
/// lines go as `split_amalgamation_lines` says.
pub fn split_amalgamation(text: &str) -> (r: Option<Vec<(String, String)>>)
    ensures
        r.deep_view() == split_lines_spec(lines_of(text@)),
{
    let lines = text_lines(text);
    split_amalgamation_lines(&lines)
}


/// The lines of `lines` one after another, each followed by a newline.
pub open spec fn joined_lines(lines: Seq<Seq<char>>) -> Seq<char>
    decreases lines.len(),
{
    if lines.len() == 0 {
        Seq::empty()
    } else {
        joined_lines(lines.drop_last()) + lines.last() + seq!['\n']
    }
}

/// The lines of the amalgamation of `docs`, each document given as its name
/// and its lines: for each document in turn, its marker, then its lines.
pub open spec fn amalgamated_lines(docs: Seq<(Seq<char>, Seq<Seq<char>>)>) -> Seq<Seq<char>>
    decreases docs.len(),
{
    if docs.len() == 0 {
        Seq::empty()
    } else {
        amalgamated_lines(docs.drop_last()) + seq![marker_text(docs.last().0)] + docs.last().1
    }
}

proof fn lemma_split_appends_lines(
    base: Seq<Seq<char>>,
    docs: Seq<(Seq<char>, Seq<char>)>,
    lines: Seq<Seq<char>>,
)
    requires
        split_lines_spec(base) == Some(docs),
        docs.len() > 0,
        forall|j: int| 0 <= j < lines.len() ==> amalg_name(#[trigger] lines[j]) is None,
    ensures
        split_lines_spec(base + lines) == Some(
            docs.update(docs.len() - 1, (docs.last().0, docs.last().1 + joined_lines(lines))),
        ),
    decreases lines.len(),
{
    if lines.len() == 0 {
        assert(base + lines =~= base);
        assert(docs.last().1 + joined_lines(lines) =~= docs.last().1);
        assert(docs.update(docs.len() - 1, (docs.last().0, docs.last().1 + joined_lines(lines)))
            =~= docs);
    } else {
        let rest = lines.drop_last();
        assert forall|j: int| 0 <= j < rest.len() implies amalg_name(#[trigger] rest[j]) is None by {
            assert(rest[j] == lines[j]);
        }
        lemma_split_appends_lines(base, docs, rest);
        let whole = base + lines;
        assert(whole.drop_last() =~= base + rest);
        assert(whole.last() == lines.last());
        assert(amalg_name(lines[lines.len() - 1]) is None);
        assert(docs.last().1 + joined_lines(rest) + lines.last() + seq!['\n'] =~= docs.last().1
            + joined_lines(lines));
    }
}

/// Splitting an amalgamation gives back the documents it was made of, each
/// with its lines joined, provided no line of a document is itself a marker.
pub proof fn lemma_split_recovers_documents(docs: Seq<(Seq<char>, Seq<Seq<char>>)>)
    requires
        forall|d: int, j: int|
            0 <= d < docs.len() && 0 <= j < docs[d].1.len() ==> amalg_name(
                #[trigger] docs[d].1[j],
            ) is None,
    ensures
        split_lines_spec(amalgamated_lines(docs)) == Some(
            docs.map_values(|d: (Seq<char>, Seq<Seq<char>>)| (d.0, joined_lines(d.1))),
        ),
    decreases docs.len(),
{
    let expected = docs.map_values(|d: (Seq<char>, Seq<Seq<char>>)| (d.0, joined_lines(d.1)));
    if docs.len() == 0 {
        assert(expected =~= Seq::empty());
    } else {
        let prev = docs.drop_last();
        assert forall|d: int, j: int|
            0 <= d < prev.len() && 0 <= j < prev[d].1.len() implies amalg_name(
            #[trigger] prev[d].1[j],
        ) is None by {
            assert(prev[d] == docs[d]);
        }
        lemma_split_recovers_documents(prev);
        let prev_docs = prev.map_values(|d: (Seq<char>, Seq<Seq<char>>)| (d.0, joined_lines(d.1)));
        let last = docs.last();
        let base = amalgamated_lines(prev) + seq![marker_text(last.0)];
        lemma_marker_names_document(last.0);
        assert(base.drop_last() =~= amalgamated_lines(prev));
        assert(split_lines_spec(base) == Some(prev_docs.push((last.0, Seq::<char>::empty()))));
        assert forall|j: int| 0 <= j < last.1.len() implies amalg_name(#[trigger] last.1[j]) is None by {
            assert(docs[docs.len() - 1].1[j] == last.1[j]);
        }
        lemma_split_appends_lines(base, prev_docs.push((last.0, Seq::<char>::empty())), last.1);
        assert(amalgamated_lines(docs) =~= base + last.1);
        let with_empty = prev_docs.push((last.0, Seq::<char>::empty()));
        assert(with_empty.update(
            with_empty.len() - 1,
            (with_empty.last().0, with_empty.last().1 + joined_lines(last.1)),
        ) =~= expected);
    }
}


/// The blocks of the amalgamation of `docs`, each document given as its name
/// and its blocks (a raw block as its format and text, any other block as
/// `None`): for each document in turn, a raw HTML block holding its marker,
/// then its blocks.
pub open spec fn amalgamated_blocks(
    docs: Seq<(Seq<char>, Seq<Option<(Seq<char>, Seq<char>)>>)>,
) -> Seq<Option<(Seq<char>, Seq<char>)>>
    decreases docs.len(),
{
    if docs.len() == 0 {
        Seq::empty()
    } else {
        amalgamated_blocks(docs.drop_last()) + seq![
            Some(("html"@, marker_text(docs.last().0))),
        ] + docs.last().1
    }
}

/// The document of each block of the amalgamation of `docs`: `None` for each
/// marker, and the document's name for each of its blocks.
pub open spec fn amalgamated_block_documents(
    docs: Seq<(Seq<char>, Seq<Option<(Seq<char>, Seq<char>)>>)>,
) -> Seq<Option<Seq<char>>>
    decreases docs.len(),
{
    if docs.len() == 0 {
        Seq::empty()
    } else {
        amalgamated_block_documents(docs.drop_last()) + seq![None] + Seq::new(
            docs.last().1.len(),
            |j: int| Some(docs.last().0),
        )
    }
}

proof fn lemma_open_document_prefix(
    s: Seq<Option<(Seq<char>, Seq<char>)>>,
    t: Seq<Option<(Seq<char>, Seq<char>)>>,
    k: int,
)
    requires
        0 <= k <= s.len(),
        k <= t.len(),
        forall|q: int| 0 <= q < k ==> #[trigger] s[q] == t[q],
    ensures
        open_document(s, k) == open_document(t, k),
    decreases k,
{
    if k > 0 {
        lemma_open_document_prefix(s, t, k - 1);
        assert(s[k - 1] == t[k - 1]);
    }
}

proof fn lemma_open_document_after_marker(
    s: Seq<Option<(Seq<char>, Seq<char>)>>,
    p: int,
    k: int,
    name: Seq<char>,
)
    requires
        0 <= p < k <= s.len(),
        block_marker(s[p]) == Some(name),
        forall|q: int| p < q < k ==> block_marker(#[trigger] s[q]) is None,
    ensures
        open_document(s, k) == Some(name),
    decreases k,
{
    if k > p + 1 {
        lemma_open_document_after_marker(s, p, k - 1, name);
        assert(block_marker(s[k - 1]) is None);
    }
}

proof fn lemma_block_in_earlier_document(
    pb: Seq<Option<(Seq<char>, Seq<char>)>>,
    b: Seq<Option<(Seq<char>, Seq<char>)>>,
    k: int,
)
    requires
        0 <= k < pb.len() <= b.len(),
        forall|q: int| 0 <= q < pb.len() ==> #[trigger] b[q] == pb[q],
    ensures
        block_documents(b)[k] == block_documents(pb)[k],
        open_document(b, k) == open_document(pb, k),
        b[k] == pb[k],
{
    lemma_open_document_prefix(b, pb, k);
}

proof fn lemma_block_in_last_document(
    b: Seq<Option<(Seq<char>, Seq<char>)>>,
    n: int,
    lb: Seq<Option<(Seq<char>, Seq<char>)>>,
    name: Seq<char>,
    k: int,
)
    requires
        0 <= n < k < b.len(),
        b.len() == n + 1 + lb.len(),
        block_marker(b[n]) == Some(name),
        forall|q: int| 0 <= q < lb.len() ==> #[trigger] b[n + 1 + q] == lb[q],
        forall|j: int| 0 <= j < lb.len() ==> block_marker(#[trigger] lb[j]) is None,
    ensures
        block_marker(b[k]) is None,
        open_document(b, k) == Some(name),
        block_documents(b)[k] == Some(name),
{
    assert forall|q: int| n < q < k implies block_marker(#[trigger] b[q]) is None by {
        assert(b[n + 1 + (q - n - 1)] == lb[q - n - 1]);
    }
    assert(b[n + 1 + (k - n - 1)] == lb[k - n - 1]);
    lemma_open_document_after_marker(b, n, k, name);
}

proof fn lemma_amalgamation_step(
    pb: Seq<Option<(Seq<char>, Seq<char>)>>,
    name: Seq<char>,
    lb: Seq<Option<(Seq<char>, Seq<char>)>>,
)
    requires
        every_block_in_a_document(pb),
        forall|j: int| 0 <= j < lb.len() ==> block_marker(#[trigger] lb[j]) is None,
    ensures
        ({
            let b = pb + seq![Some(("html"@, marker_text(name)))] + lb;
            &&& every_block_in_a_document(b)
            &&& block_documents(b) == block_documents(pb) + seq![None] + Seq::new(
                lb.len(),
                |j: int| Some(name),
            )
        }),
{
    let m = Some(("html"@, marker_text(name)));
    let b = pb + seq![m] + lb;
    let n = pb.len() as int;
    let e = block_documents(pb) + seq![None] + Seq::new(lb.len(), |j: int| Some(name));
    lemma_marker_names_document(name);
    assert(block_marker(m) == Some(name));
    assert(b[n] == m);
    assert forall|q: int| 0 <= q < pb.len() implies #[trigger] b[q] == pb[q] by {}
    assert forall|q: int| 0 <= q < lb.len() implies #[trigger] b[n + 1 + q] == lb[q] by {}
    assert forall|k: int| 0 <= k < b.len() implies #[trigger] block_documents(b)[k] == e[k] && (
    block_marker(b[k]) is None ==> open_document(b, k) is Some) by {
        if k < n {
            lemma_block_in_earlier_document(pb, b, k);
        } else if k > n {
            lemma_block_in_last_document(b, n, lb, name, k);
        }
    }
    assert(block_documents(b) =~= e);
    assert forall|k: int| 0 <= k < b.len() && block_marker(#[trigger] b[k]) is None implies open_document(
        b,
        k,
    ) is Some by {
        if k < n {
            lemma_block_in_earlier_document(pb, b, k);
            assert(block_marker(pb[k]) is None);
        } else if k > n {
            lemma_block_in_last_document(b, n, lb, name, k);
        }
    }
}

/// In an amalgamation whose documents hold no marker block of their own,
/// every block belongs to a document, and reading the documents back from the
/// markers gives each block the name of the document it came from (and
/// `None` to the markers).
pub proof fn lemma_blocks_belong_to_their_documents(
    docs: Seq<(Seq<char>, Seq<Option<(Seq<char>, Seq<char>)>>)>,
)
    requires
        forall|d: int, j: int|
            0 <= d < docs.len() && 0 <= j < docs[d].1.len() ==> block_marker(
                #[trigger] docs[d].1[j],
            ) is None,
    ensures
        every_block_in_a_document(amalgamated_blocks(docs)),
        block_documents(amalgamated_blocks(docs)) == amalgamated_block_documents(docs),
    decreases docs.len(),
{
    if docs.len() == 0 {
        assert(block_documents(amalgamated_blocks(docs)) =~= amalgamated_block_documents(docs));
    } else {
        let prev = docs.drop_last();
        assert forall|d: int, j: int|
            0 <= d < prev.len() && 0 <= j < prev[d].1.len() implies block_marker(
            #[trigger] prev[d].1[j],
        ) is None by {
            assert(prev[d] == docs[d]);
        }
        lemma_blocks_belong_to_their_documents(prev);
        let last = docs.last();
        assert forall|j: int| 0 <= j < last.1.len() implies block_marker(#[trigger] last.1[j])
            is None by {
            assert(docs[docs.len() - 1].1[j] == last.1[j]);
        }
        lemma_amalgamation_step(amalgamated_blocks(prev), last.0, last.1);
    }
}


/// Whether `line` can stand as a line of a text read back by `str::lines`:
/// it holds no newline and does not end with a carriage return.
pub open spec fn plain_line(line: Seq<char>) -> bool {
    !line.contains('\n') && !(line.len() > 0 && line.last() == '\r')
}

/// Joining plain lines, each followed by a newline, and cutting the text
/// into lines again gives back the lines.
pub proof fn lemma_lines_of_joined(lines: Seq<Seq<char>>)
    requires
        forall|j: int| 0 <= j < lines.len() ==> plain_line(#[trigger] lines[j]),
    ensures
        scan_lines(joined_lines(lines)) == (lines, Seq::<char>::empty()),
        lines_of(joined_lines(lines)) == lines,
    decreases lines.len(),
{
    if lines.len() > 0 {
        let prev = lines.drop_last();
        assert forall|j: int| 0 <= j < prev.len() implies plain_line(#[trigger] prev[j]) by {
            assert(prev[j] == lines[j]);
        }
        lemma_lines_of_joined(prev);
        let l = lines.last();
        assert(plain_line(lines[lines.len() - 1]));
        let x = joined_lines(prev);
        lemma_scan_lines_append(x, l);
        assert(Seq::<char>::empty() + l =~= l);
        let whole = x + l + seq!['\n'];
        assert(whole.drop_last() =~= x + l);
        assert(without_cr(l) == l);
        assert(prev.push(l) =~= lines);
    } else {
        assert(lines =~= Seq::<Seq<char>>::empty());
    }
}

/// The text of the amalgamation of `docs`, each document given as its name
/// and its lines: each marker and each line followed by a newline.
pub open spec fn amalgamated_text(docs: Seq<(Seq<char>, Seq<Seq<char>>)>) -> Seq<char> {
    joined_lines(amalgamated_lines(docs))
}

proof fn lemma_marker_is_plain(name: Seq<char>)
    requires
        !name.contains('\n'),
    ensures
        plain_line(marker_text(name)),
{
    reveal_strlit("<!-- ");
    reveal_strlit("tools-amalg");
    reveal_strlit(" ");
    reveal_strlit(" -->");
    let t = marker_text(name);
    assert(marker_head() =~= seq!['<', '!', '-', '-', ' ', 't', 'o', 'o', 'l', 's', '-', 'a', 'm', 'a', 'l', 'g', ' ']);
    assert(marker_tail() =~= seq![' ', '-', '-', '>']);
    assert forall|j: int| 0 <= j < t.len() implies t[j] != '\n' by {
        if marker_head().len() <= j < marker_head().len() + name.len() {
            assert(t[j] == name[j - marker_head().len()]);
        }
    }
    assert(t.last() == '>');
}

proof fn lemma_amalgamated_lines_plain(docs: Seq<(Seq<char>, Seq<Seq<char>>)>)
    requires
        forall|d: int| 0 <= d < docs.len() ==> !(#[trigger] docs[d]).0.contains('\n'),
        forall|d: int, j: int|
            0 <= d < docs.len() && 0 <= j < docs[d].1.len() ==> plain_line(#[trigger] docs[d].1[j]),
    ensures
        forall|j: int|
            0 <= j < amalgamated_lines(docs).len() ==> plain_line(#[trigger] amalgamated_lines(docs)[j]),
    decreases docs.len(),
{
    if docs.len() > 0 {
        let prev = docs.drop_last();
        assert forall|d: int| 0 <= d < prev.len() implies !(#[trigger] prev[d]).0.contains('\n') by {
            assert(prev[d] == docs[d]);
        }
        assert forall|d: int, j: int|
            0 <= d < prev.len() && 0 <= j < prev[d].1.len() implies plain_line(#[trigger] prev[d].1[j]) by {
            assert(prev[d] == docs[d]);
        }
        lemma_amalgamated_lines_plain(prev);
        let last = docs.last();
        assert(!docs[docs.len() - 1].0.contains('\n'));
        lemma_marker_is_plain(last.0);
        let pl = amalgamated_lines(prev);
        let all = amalgamated_lines(docs);
        assert(all == pl + seq![marker_text(last.0)] + last.1);
        assert forall|j: int| 0 <= j < all.len() implies plain_line(#[trigger] all[j]) by {
            if j < pl.len() {
                assert(all[j] == pl[j]);
            } else if j == pl.len() {
                assert(all[j] == marker_text(last.0));
            } else {
                assert(all[j] == last.1[j - pl.len() - 1]);
                assert(plain_line(docs[docs.len() - 1].1[j - pl.len() - 1]));
            }
        }
    }
}

/// Splitting the text of an amalgamation gives back the documents it was
/// made of, each with its lines joined, provided no name holds a newline and
/// each line of a document holds no newline, does not end with a carriage
/// return and is not itself a marker.
pub proof fn lemma_split_text_recovers_documents(docs: Seq<(Seq<char>, Seq<Seq<char>>)>)
    requires
        forall|d: int| 0 <= d < docs.len() ==> !(#[trigger] docs[d]).0.contains('\n'),
        forall|d: int, j: int|
            0 <= d < docs.len() && 0 <= j < docs[d].1.len() ==> plain_line(#[trigger] docs[d].1[j])
                && amalg_name(docs[d].1[j]) is None,
    ensures
        split_lines_spec(lines_of(amalgamated_text(docs))) == Some(
            docs.map_values(|d: (Seq<char>, Seq<Seq<char>>)| (d.0, joined_lines(d.1))),
        ),
{
    assert forall|d: int, j: int|
        0 <= d < docs.len() && 0 <= j < docs[d].1.len() implies plain_line(#[trigger] docs[d].1[j]) by {}
    lemma_amalgamated_lines_plain(docs);
    lemma_lines_of_joined(amalgamated_lines(docs));
    assert forall|d: int, j: int|
        0 <= d < docs.len() && 0 <= j < docs[d].1.len() implies amalg_name(#[trigger] docs[d].1[j])
        is None by {}
    lemma_split_recovers_documents(docs);
}

} // verus!
