//! Planning how the chapters of a book are put together: into the three
//! documents of the LaTeX book, and into the table of contents and the
//! amalgamation of the HTML book.
use vstd::prelude::*;

use crate::mdbook::{
    checked_chapter_depth, depth_of, flatten_items, iter_items, deref_items, valid_chapter_number,
    BookItem,
};
use crate::paths::{no_separator, path_with_extension, paths_equal, same_path, with_extension};
use crate::text::{chars_have_prefix, chars_of, count_char, has_prefix};

verus! {

/// The part of a LaTeX book that the items read so far have reached.
#[derive(Debug, Clone, Copy, PartialEq, Eq)]
pub enum Part {
    FrontMatter,
    MainMatter,
    Appendix,
    BackMatter,
}

/// The three documents that a LaTeX book is made of.
#[derive(Debug, Clone, Copy, PartialEq, Eq)]
pub enum Target {
    /// What comes before the body, given to the template as the text before it.
    Before,
    /// The body.
    Main,
    /// What comes after the body, given to the template as the text after it.
    After,
}

/// A LaTeX command that starts a part of the book.
#[derive(Debug, Clone, Copy, PartialEq, Eq)]
pub enum TexCommand {
    MainMatter,
    Appendix,
    BackMatter,
}

/// The text of a command.
pub open spec fn command_text(c: TexCommand) -> Seq<char> {
    match c {
        TexCommand::MainMatter => "\\mainmatter"@,
        TexCommand::Appendix => "\\appendix"@,
        TexCommand::BackMatter => "\\backmatter"@,
    }
}

impl TexCommand {
    /// The LaTeX text of the command.
    pub fn text(&self) -> (r: &'static str)
        ensures
            r@ == command_text(*self),
    {
        match self {
            TexCommand::MainMatter => "\\mainmatter",
            TexCommand::Appendix => "\\appendix",
            TexCommand::BackMatter => "\\backmatter",
        }
    }
}

/// One step of putting a LaTeX book together.
#[derive(Debug, PartialEq, Eq)]
pub enum MergeStep {
    /// Append a raw `tex` block holding the command to the document.
    Raw(Target, TexCommand),
    /// Append the chapter whose JSON file has the given path, relative to the
    /// book's source directory, to the document, with the level of each of
    /// its headers raised by the given shift.
    Include(Target, String, i64),
}

/// A step, with its path as text.
pub enum StepView {
    Raw(Target, TexCommand),
    Include(Target, Seq<char>, i64),
}

impl DeepView for MergeStep {
    type V = StepView;

    open spec fn deep_view(&self) -> StepView {
        match self {
            MergeStep::Raw(t, c) => StepView::Raw(*t, *c),
            MergeStep::Include(t, p, s) => StepView::Include(*t, p@, *s),
        }
    }
}

/// Whether a chapter title starts the appendix.
pub open spec fn is_appendix_title(name: Seq<char>) -> bool {
    has_prefix(name, "Appendix:"@)
}

/// Whether `path` is one of the front matter files asked for in the body,
/// each given as a path whose extension becomes `json`.
pub open spec fn in_front_body(path: Seq<char>, front_in_body: Seq<Seq<char>>) -> bool {
    exists|j: int|
        0 <= j < front_in_body.len() && same_path(
            path_with_extension(#[trigger] front_in_body[j], "json"@),
            path,
        )
}

/// The steps for one item met in part `part`, and the part reached after it;
/// `None` for a chapter whose number has no dot.
pub open spec fn latex_item_steps(part: Part, item: BookItem, front_in_body: Seq<Seq<char>>) -> Option<
    (Part, Seq<StepView>),
> {
    match item {
        BookItem::Chapter(number, ch) => if !valid_chapter_number(number@) {
            None
        } else {
            let chapter_step = StepView::Include(Target::Main, ch.path@, depth_of(number@) as i64);
            match part {
                Part::FrontMatter => Some(
                    (
                        Part::MainMatter,
                        seq![StepView::Raw(Target::Main, TexCommand::MainMatter), chapter_step],
                    ),
                ),
                Part::MainMatter => if is_appendix_title(ch.name@) {
                    Some(
                        (
                            Part::Appendix,
                            seq![StepView::Raw(Target::Main, TexCommand::Appendix), chapter_step],
                        ),
                    )
                } else {
                    Some((part, seq![chapter_step]))
                },
                _ => Some((part, seq![chapter_step])),
            }
        },
        BookItem::Affix(ch) => match part {
            Part::FrontMatter => if in_front_body(ch.path@, front_in_body) {
                Some((part, seq![StepView::Include(Target::Main, ch.path@, 0)]))
            } else {
                Some((part, seq![StepView::Include(Target::Before, ch.path@, 0)]))
            },
            Part::MainMatter | Part::Appendix => Some(
                (
                    Part::BackMatter,
                    seq![
                        StepView::Raw(Target::After, TexCommand::BackMatter),
                        StepView::Include(Target::After, ch.path@, 0),
                    ],
                ),
            ),
            Part::BackMatter => Some((part, seq![StepView::Include(Target::After, ch.path@, 0)])),
        },
        BookItem::Spacer => Some((part, Seq::empty())),
    }
}

/// The steps for the items `items` read in order from the front matter, and
/// the part reached after them; `None` where a chapter number has no dot.
pub open spec fn latex_plan(items: Seq<BookItem>, front_in_body: Seq<Seq<char>>) -> Option<
    (Part, Seq<StepView>),
>
    decreases items.len(),
{
    if items.len() == 0 {
        Some((Part::FrontMatter, Seq::empty()))
    } else {
        match latex_plan(items.drop_last(), front_in_body) {
            None => None,
            Some((part, steps)) => match latex_item_steps(part, items.last(), front_in_body) {
                None => None,
                Some((next, more)) => Some((next, steps + more)),
            },
        }
    }
}

/// The steps of the plan, where there is one.
pub open spec fn latex_plan_steps(items: Seq<BookItem>, front_in_body: Seq<Seq<char>>) -> Option<
    Seq<StepView>,
> {
    match latex_plan(flatten_items(items), front_in_body) {
        Some((_, steps)) => Some(steps),
        None => None,
    }
}

fn paths_with_json_extension(paths: &Vec<String>) -> (r: Vec<String>)
    ensures
        r.len() == paths.len(),
        forall|j: int|
            0 <= j < paths.len() ==> #[trigger] r@[j]@ == path_with_extension(paths@[j]@, "json"@),
{
    let json = "json";
    proof {
        reveal_strlit("json");
        assert(!json@.contains('/') && !json@.contains('\\')) by {
            assert(json@ =~= seq!['j', 's', 'o', 'n']);
        }
    }
    let mut r: Vec<String> = Vec::new();
    let mut i: usize = 0;
    while i < paths.len()
        invariant
            json@ == "json"@,
            no_separator(json@),
            i <= paths.len(),
            r.len() == i,
            forall|j: int|
                0 <= j < i ==> #[trigger] r@[j]@ == path_with_extension(paths@[j]@, "json"@),
        decreases paths.len() - i,
    {
        r.push(with_extension(paths[i].as_str(), json));
        i = i + 1;
    }
    r
}

fn is_in_front_body(path: &String, front_json: &Vec<String>, Ghost(front): Ghost<Seq<Seq<char>>>) -> (b: bool)
    requires
        front_json.len() == front.len(),
        forall|j: int|
            0 <= j < front.len() ==> #[trigger] front_json@[j]@ == path_with_extension(front[j], "json"@),
    ensures
        b == in_front_body(path@, front),
{
    let mut i: usize = 0;
    while i < front_json.len()
        invariant
            front_json.len() == front.len(),
            forall|j: int|
                0 <= j < front.len() ==> #[trigger] front_json@[j]@ == path_with_extension(front[j], "json"@),
            i <= front_json.len(),
            forall|j: int|
                0 <= j < i ==> !same_path(path_with_extension(#[trigger] front[j], "json"@), path@),
        decreases front_json.len() - i,
    {
        if paths_equal(front_json[i].as_str(), path.as_str()) {
            assert(same_path(path_with_extension(front[i as int], "json"@), path@));
            return true;
        }
        i = i + 1;
    }
    false
}

/// Plans how the items of a book go into the three documents of the LaTeX
/// book. Reading the items in order, the book starts in the front matter;
/// the first chapter starts the main matter (a `\mainmatter` command in the
/// body), a chapter titled `Appendix:...` in the main matter starts the
/// appendix (`\appendix` in the body), and the first affix after the main
/// matter starts the back matter (`\backmatter` after the body). Chapters go
/// into the body with their headers shifted by their depth; affixes of the
/// front matter go before the body, unless their path is among
/// `front_in_body` (each taken with the extension `json`), and affixes after
/// the main matter go after the body. `None` where a chapter number has no
/// dot.
pub fn plan_latex_merge(book_items: &[BookItem], front_in_body: &Vec<String>) -> (r: Option<
    Vec<MergeStep>,
>)
    ensures
        match r {
            Some(steps) => latex_plan_steps(book_items@, front_in_body.deep_view()) == Some(
                steps.deep_view(),
            ),
            None => latex_plan_steps(book_items@, front_in_body.deep_view()) is None,
        },
{
    let ghost front = front_in_body.deep_view();
    let front_json = paths_with_json_extension(front_in_body);
    let items = iter_items(book_items);
    let ghost flat = flatten_items(book_items@);
    let appendix_prefix = chars_of("Appendix:");
    let mut part = Part::FrontMatter;
    let mut steps: Vec<MergeStep> = Vec::new();
    let mut i: usize = 0;
    while i < items.len()
        invariant
            front == front_in_body.deep_view(),
            front_json.len() == front.len(),
            forall|j: int|
                0 <= j < front.len() ==> #[trigger] front_json@[j]@ == path_with_extension(front[j], "json"@),
            deref_items(items@) == flat,
            flat == flatten_items(book_items@),
            appendix_prefix@ == "Appendix:"@,
            i <= items.len(),
            latex_plan(flat.take(i as int), front) == Some((part, steps.deep_view())),
        decreases items.len() - i,
    {
        let item = items[i];
        let ghost before = steps.deep_view();
        proof {
            assert(flat.take(i + 1).drop_last() == flat.take(i as int));
            assert(flat.take(i + 1).last() == *item);
            assert(front_json.len() == front_in_body.deep_view().len());
        }
        match item {
            BookItem::Chapter(number, ch) => {
                let depth = match checked_chapter_depth(number.as_str()) {
                    None => {
                        proof {
                            lemma_latex_plan_fails_after(flat, front, i + 1);
                        }
                        return None;
                    },
                    Some(d) => d,
                };
                match part {
                    Part::FrontMatter => {
                        steps.push(MergeStep::Raw(Target::Main, TexCommand::MainMatter));
                        part = Part::MainMatter;
                    },
                    Part::MainMatter => {
                        let name = chars_of(ch.name.as_str());
                        if chars_have_prefix(&name, &appendix_prefix) {
                            steps.push(MergeStep::Raw(Target::Main, TexCommand::Appendix));
                            part = Part::Appendix;
                        }
                    },
                    _ => {},
                }
                steps.push(MergeStep::Include(Target::Main, ch.path.clone(), depth));
            },
            BookItem::Affix(ch) => {
                match part {
                    Part::FrontMatter => {
                        if is_in_front_body(&ch.path, &front_json, Ghost(front)) {
                            steps.push(MergeStep::Include(Target::Main, ch.path.clone(), 0));
                        } else {
                            steps.push(MergeStep::Include(Target::Before, ch.path.clone(), 0));
                        }
                    },
                    Part::MainMatter | Part::Appendix => {
                        steps.push(MergeStep::Raw(Target::After, TexCommand::BackMatter));
                        steps.push(MergeStep::Include(Target::After, ch.path.clone(), 0));
                        part = Part::BackMatter;
                    },
                    Part::BackMatter => {
                        steps.push(MergeStep::Include(Target::After, ch.path.clone(), 0));
                    },
                }
            },
            BookItem::Spacer => {},
        }
        proof {
            let (p2, more) = latex_item_steps(
                latex_plan(flat.take(i as int), front).unwrap().0,
                *item,
                front,
            ).unwrap();
            assert(p2 == part);
            assert(steps.deep_view() =~= before + more);
        }
        i = i + 1;
    }
    assert(flat.take(items.len() as int) == flat);
    Some(steps)
}

proof fn lemma_latex_plan_fails_after(items: Seq<BookItem>, front: Seq<Seq<char>>, k: int)
    requires
        0 <= k <= items.len(),
        latex_plan(items.take(k), front) is None,
    ensures
        latex_plan(items, front) is None,
    decreases items.len() - k,
{
    if k < items.len() {
        assert(items.take(k + 1).drop_last() == items.take(k));
        lemma_latex_plan_fails_after(items, front, k + 1);
    } else {
        assert(items.take(k) == items);
    }
}


/// How many steps of `steps` emit the command `c`.
pub open spec fn command_count(steps: Seq<StepView>, c: TexCommand) -> nat
    decreases steps.len(),
{
    if steps.len() == 0 {
        0
    } else {
        command_count(steps.drop_last(), c) + match steps.last() {
            StepView::Raw(_, d) => if d == c {
                1nat
            } else {
                0nat
            },
            _ => 0nat,
        }
    }
}

proof fn lemma_command_count_concat(a: Seq<StepView>, b: Seq<StepView>, c: TexCommand)
    ensures
        command_count(a + b, c) == command_count(a, c) + command_count(b, c),
    decreases b.len(),
{
    if b.len() > 0 {
        lemma_command_count_concat(a, b.drop_last(), c);
        assert((a + b).drop_last() =~= a + b.drop_last());
    } else {
        assert(a + b =~= a);
    }
}

/// Whether some item of `items` is a numbered chapter.
pub open spec fn has_chapter(items: Seq<BookItem>) -> bool {
    exists|k: int| 0 <= k < items.len() && #[trigger] items[k] is Chapter
}

/// Whether some affix of `items` comes after a numbered chapter.
pub open spec fn has_affix_after_chapter(items: Seq<BookItem>) -> bool {
    exists|i: int, j: int|
        0 <= i < j < items.len() && #[trigger] items[i] is Chapter && #[trigger] items[j] is Affix
}

proof fn lemma_latex_plan_counts(items: Seq<BookItem>, front: Seq<Seq<char>>)
    requires
        latex_plan(items, front) is Some,
    ensures
        ({
            let (part, steps) = latex_plan(items, front).unwrap();
            &&& command_count(steps, TexCommand::MainMatter) == if part == Part::FrontMatter {
                0nat
            } else {
                1nat
            }
            &&& command_count(steps, TexCommand::BackMatter) == if part == Part::BackMatter {
                1nat
            } else {
                0nat
            }
            &&& command_count(steps, TexCommand::Appendix) == if part == Part::Appendix {
                1nat
            } else if part == Part::BackMatter {
                command_count(steps, TexCommand::Appendix)
            } else {
                0nat
            }
            &&& command_count(steps, TexCommand::Appendix) <= 1
            &&& (part != Part::FrontMatter <==> has_chapter(items))
            &&& (part == Part::BackMatter <==> has_affix_after_chapter(items))
        }),
    decreases items.len(),
{
    if items.len() == 0 {
        assert(!has_chapter(items));
    } else {
        let prev = items.drop_last();
        lemma_latex_plan_counts(prev, front);
        let (part, steps) = latex_plan(prev, front).unwrap();
        let (next, more) = latex_item_steps(part, items.last(), front).unwrap();
        lemma_command_count_concat(steps, more, TexCommand::MainMatter);
        lemma_command_count_concat(steps, more, TexCommand::Appendix);
        lemma_command_count_concat(steps, more, TexCommand::BackMatter);
        reveal_with_fuel(command_count, 3);
        assert(has_chapter(items) == (has_chapter(prev) || items.last() is Chapter)) by {
            if has_chapter(prev) {
                let k = choose|k: int| 0 <= k < prev.len() && #[trigger] prev[k] is Chapter;
                assert(items[k] == prev[k]);
            }
            if items.last() is Chapter {
                assert(items[items.len() - 1] is Chapter);
            }
            if has_chapter(items) {
                let k = choose|k: int| 0 <= k < items.len() && #[trigger] items[k] is Chapter;
                if k < items.len() - 1 {
                    assert(prev[k] == items[k]);
                }
            }
        }
        assert(has_affix_after_chapter(items) == (has_affix_after_chapter(prev) || (has_chapter(
            prev,
        ) && items.last() is Affix))) by {
            if has_affix_after_chapter(prev) {
                let (i, j) = choose|i: int, j: int|
                    0 <= i < j < prev.len() && #[trigger] prev[i] is Chapter && #[trigger] prev[j] is Affix;
                assert(items[i] == prev[i] && items[j] == prev[j]);
            }
            if has_chapter(prev) && items.last() is Affix {
                let i = choose|i: int| 0 <= i < prev.len() && #[trigger] prev[i] is Chapter;
                assert(items[i] == prev[i]);
                assert(items[items.len() - 1] is Affix);
            }
            if has_affix_after_chapter(items) {
                let (i, j) = choose|i: int, j: int|
                    0 <= i < j < items.len() && #[trigger] items[i] is Chapter && #[trigger] items[j] is Affix;
                assert(prev[i] == items[i]);
                if j < items.len() - 1 {
                    assert(prev[j] == items[j]);
                }
            }
        }
    }
}

/// Putting a LaTeX book together starts its main matter, its appendix and its
/// back matter at most once each, and starts the main matter exactly when the
/// book has a numbered chapter.
pub proof fn lemma_latex_parts_start_once(book_items: Seq<BookItem>, front_in_body: Seq<Seq<char>>)
    requires
        latex_plan_steps(book_items, front_in_body) is Some,
    ensures
        ({
            let steps = latex_plan_steps(book_items, front_in_body).unwrap();
            &&& command_count(steps, TexCommand::MainMatter) == if has_chapter(
                flatten_items(book_items),
            ) {
                1nat
            } else {
                0nat
            }
            &&& command_count(steps, TexCommand::Appendix) <= 1
            &&& command_count(steps, TexCommand::BackMatter) <= 1
        }),
{
    lemma_latex_plan_counts(flatten_items(book_items), front_in_body);
}


/// A LaTeX book has a `\backmatter` command exactly when some affix comes
/// after a numbered chapter, in reading order (with or without an appendix
/// between them), and then exactly one.
pub proof fn lemma_latex_back_matter_iff_affix_after_chapter(
    book_items: Seq<BookItem>,
    front_in_body: Seq<Seq<char>>,
)
    requires
        latex_plan_steps(book_items, front_in_body) is Some,
    ensures
        command_count(latex_plan_steps(book_items, front_in_body).unwrap(), TexCommand::BackMatter)
            == if has_affix_after_chapter(flatten_items(book_items)) {
            1nat
        } else {
            0nat
        },
{
    lemma_latex_plan_counts(flatten_items(book_items), front_in_body);
}

/// The plan is made item by item: where the items have a plan, the first `k`
/// of them have one too, and its steps are the first steps of the whole plan.
pub proof fn lemma_latex_plan_prefix(items: Seq<BookItem>, front_in_body: Seq<Seq<char>>, k: int)
    requires
        0 <= k <= items.len(),
        latex_plan(items, front_in_body) is Some,
    ensures
        latex_plan(items.take(k), front_in_body) is Some,
        ({
            let steps = latex_plan(items, front_in_body).unwrap().1;
            let first = latex_plan(items.take(k), front_in_body).unwrap().1;
            first.len() <= steps.len() && steps.take(first.len() as int) == first
        }),
    decreases items.len() - k,
{
    if k == items.len() {
        assert(items.take(k) == items);
        let steps = latex_plan(items, front_in_body).unwrap().1;
        assert(steps.take(steps.len() as int) == steps);
    } else {
        lemma_latex_plan_prefix(items, front_in_body, k + 1);
        let longer = items.take(k + 1);
        assert(longer.drop_last() == items.take(k));
        let steps = latex_plan(items, front_in_body).unwrap().1;
        let mid = latex_plan(longer, front_in_body).unwrap().1;
        let first = latex_plan(items.take(k), front_in_body).unwrap().1;
        let part = latex_plan(items.take(k), front_in_body).unwrap().0;
        let more = latex_item_steps(part, longer.last(), front_in_body).unwrap().1;
        assert(mid == first + more);
        assert(steps.take(first.len() as int) =~= mid.take(first.len() as int));
        assert(mid.take(first.len() as int) =~= first);
    }
}

/// Every affix that comes after a numbered chapter, in reading order, goes
/// after the body of the LaTeX book (whether or not an appendix came between):
/// it is the last step planned once it is read, and a step of the whole plan.
pub proof fn lemma_latex_affix_after_chapter_goes_after(
    book_items: Seq<BookItem>,
    front_in_body: Seq<Seq<char>>,
    j: int,
)
    requires
        latex_plan_steps(book_items, front_in_body) is Some,
        0 <= j < flatten_items(book_items).len(),
        flatten_items(book_items)[j] is Affix,
        has_chapter(flatten_items(book_items).take(j)),
    ensures
        match flatten_items(book_items)[j] {
            BookItem::Affix(ch) => {
                let step = StepView::Include(Target::After, ch.path@, 0);
                &&& latex_plan(flatten_items(book_items).take(j + 1), front_in_body) is Some
                &&& latex_plan(flatten_items(book_items).take(j + 1), front_in_body).unwrap().1.last()
                    == step
                &&& latex_plan_steps(book_items, front_in_body).unwrap().contains(step)
            },
            _ => true,
        },
{
    let flat = flatten_items(book_items);
    lemma_latex_plan_prefix(flat, front_in_body, j + 1);
    lemma_latex_plan_prefix(flat, front_in_body, j);
    let longer = flat.take(j + 1);
    assert(longer.drop_last() == flat.take(j));
    assert(longer.last() == flat[j]);
    lemma_latex_plan_counts(flat.take(j), front_in_body);
    match flat[j] {
        BookItem::Affix(ch) => {
            let step = StepView::Include(Target::After, ch.path@, 0);
            let mid = latex_plan(longer, front_in_body).unwrap().1;
            let steps = latex_plan_steps(book_items, front_in_body).unwrap();
            assert(mid.last() == step);
            assert(steps[mid.len() - 1] == mid[mid.len() - 1]);
        },
        _ => {},
    }
}

/// `depth` times four spaces.
pub open spec fn indent(depth: nat) -> Seq<char>
    decreases depth,
{
    if depth == 0 {
        Seq::empty()
    } else {
        indent((depth - 1) as nat) + "    "@
    }
}

/// A line of the table of contents that links `name` to `target`.
pub open spec fn summary_link(name: Seq<char>, target: Seq<char>) -> Seq<char> {
    "["@ + name + "]("@ + target + ")\n"@
}

/// The text that an item adds to the table of contents of the HTML book:
/// a chapter is a list entry indented by its depth, an affix a plain link,
/// each to its file with the extension `output_ext`; a spacer adds `---`.
pub open spec fn summary_text(item: BookItem, output_ext: Seq<char>) -> Option<Seq<char>> {
    match item {
        BookItem::Chapter(number, ch) => if !valid_chapter_number(number@) {
            None
        } else {
            Some(
                indent(depth_of(number@) as nat) + "- "@ + summary_link(
                    ch.name@,
                    path_with_extension(ch.path@, output_ext),
                ),
            )
        },
        BookItem::Affix(ch) => Some(summary_link(ch.name@, path_with_extension(ch.path@, output_ext))),
        BookItem::Spacer => Some("---"@),
    }
}

/// The document that an item adds to the amalgamation: the path of its
/// source, and its name there, the path with the extension `final_ext`.
pub open spec fn amalgamated_document(item: BookItem, final_ext: Seq<char>) -> Seq<
    (Seq<char>, Seq<char>),
> {
    match item {
        BookItem::Chapter(_, ch) => seq![(ch.path@, path_with_extension(ch.path@, final_ext))],
        BookItem::Affix(ch) => seq![(ch.path@, path_with_extension(ch.path@, final_ext))],
        BookItem::Spacer => Seq::empty(),
    }
}

/// The table of contents of the HTML book and the documents of its
/// amalgamation, for the items `items` read in order; `None` where a chapter
/// number has no dot.
pub open spec fn html_plan(items: Seq<BookItem>, output_ext: Seq<char>, final_ext: Seq<char>) -> Option<
    (Seq<char>, Seq<(Seq<char>, Seq<char>)>),
>
    decreases items.len(),
{
    if items.len() == 0 {
        Some((Seq::empty(), Seq::empty()))
    } else {
        match html_plan(items.drop_last(), output_ext, final_ext) {
            None => None,
            Some((text, docs)) => match summary_text(items.last(), output_ext) {
                None => None,
                Some(line) => Some(
                    (text + line, docs + amalgamated_document(items.last(), final_ext)),
                ),
            },
        }
    }
}

proof fn lemma_html_plan_fails_after(
    items: Seq<BookItem>,
    output_ext: Seq<char>,
    final_ext: Seq<char>,
    k: int,
)
    requires
        0 <= k <= items.len(),
        html_plan(items.take(k), output_ext, final_ext) is None,
    ensures
        html_plan(items, output_ext, final_ext) is None,
    decreases items.len() - k,
{
    if k < items.len() {
        assert(items.take(k + 1).drop_last() == items.take(k));
        lemma_html_plan_fails_after(items, output_ext, final_ext, k + 1);
    } else {
        assert(items.take(k) == items);
    }
}

fn push_summary_link(summary: &mut String, name: &str, target: &str)
    ensures
        final(summary)@ == old(summary)@ + summary_link(name@, target@),
{
    summary.append("[");
    summary.append(name);
    summary.append("](");
    summary.append(target);
    summary.append(")\n");
}

/// Plans the HTML book: the text of its table of contents (`SUMMARY.md`) and
/// the documents of its amalgamation, each the path of a chapter's source and
/// its name in the amalgamation. Each chapter adds a list entry indented by
/// four spaces per level of depth, each affix a plain link, each linking the
/// title to the source path with the extension `output_ext`; a spacer adds
/// `---`. Each chapter and affix adds a document named by its path with the
/// extension `final_ext`. `None` where a chapter number has no dot.
pub fn plan_html_merge(book_items: &[BookItem], output_ext: &str, final_ext: &str) -> (r: Option<
    (String, Vec<(String, String)>),
>)
    requires
        no_separator(output_ext@),
        no_separator(final_ext@),
    ensures
        r.deep_view() == html_plan(flatten_items(book_items@), output_ext@, final_ext@),
{
    let items = iter_items(book_items);
    let ghost flat = flatten_items(book_items@);
    let mut summary = String::new();
    let mut docs: Vec<(String, String)> = Vec::new();
    let mut i: usize = 0;
    while i < items.len()
        invariant
            deref_items(items@) == flat,
            flat == flatten_items(book_items@),
            no_separator(output_ext@),
            no_separator(final_ext@),
            i <= items.len(),
            html_plan(flat.take(i as int), output_ext@, final_ext@) == Some(
                (summary@, docs.deep_view()),
            ),
        decreases items.len() - i,
    {
        let item = items[i];
        let ghost before_docs = docs.deep_view();
        let ghost before_text = summary@;
        proof {
            assert(flat.take(i + 1).drop_last() == flat.take(i as int));
            assert(flat.take(i + 1).last() == *item);
        }
        match item {
            BookItem::Chapter(number, ch) => {
                let depth = match checked_chapter_depth(number.as_str()) {
                    None => {
                        proof {
                            lemma_html_plan_fails_after(flat, output_ext@, final_ext@, i + 1);
                        }
                        return None;
                    },
                    Some(d) => d,
                };
                let mut d: i64 = 0;
                while d < depth
                    invariant
                        0 <= d <= depth,
                        summary@ == before_text + indent(d as nat),
                    decreases depth - d,
                {
                    summary.append("    ");
                    d = d + 1;
                }
                summary.append("- ");
                let target = with_extension(ch.path.as_str(), output_ext);
                push_summary_link(&mut summary, ch.name.as_str(), target.as_str());
                docs.push((ch.path.clone(), with_extension(ch.path.as_str(), final_ext)));
            },
            BookItem::Affix(ch) => {
                let target = with_extension(ch.path.as_str(), output_ext);
                push_summary_link(&mut summary, ch.name.as_str(), target.as_str());
                docs.push((ch.path.clone(), with_extension(ch.path.as_str(), final_ext)));
            },
            BookItem::Spacer => {
                summary.append("---");
            },
        }
        proof {
            let line = summary_text(*item, output_ext@).unwrap();
            assert(summary@ =~= before_text + line);
            assert(docs.deep_view() =~= before_docs + amalgamated_document(*item, final_ext@));
        }
        i = i + 1;
    }
    assert(flat.take(items.len() as int) == flat);
    Some((summary, docs))
}

proof fn lemma_indent_spaces(depth: nat)
    ensures
        indent(depth).len() == 4 * depth,
        forall|k: int| 0 <= k < 4 * depth ==> #[trigger] indent(depth)[k] == ' ',
    decreases depth,
{
    reveal_strlit("    ");
    if depth > 0 {
        let prev = indent((depth - 1) as nat);
        lemma_indent_spaces((depth - 1) as nat);
        assert forall|k: int| 0 <= k < 4 * depth implies #[trigger] indent(depth)[k] == ' ' by {
            if k >= prev.len() {
                assert(indent(depth)[k] == "    "@[k - prev.len()]);
            } else {
                assert(indent(depth)[k] == prev[k]);
            }
        }
    }
}

/// In the table of contents of the HTML book, the line of a numbered chapter
/// starts with four spaces for each dot of its number after the first, and
/// with nothing else before its `- ` list marker: `1.` and `10.` are not
/// indented, `2.3.` by four spaces, `2.3.1.` by eight. The rest of the line
/// links the chapter's title to its file.
pub proof fn lemma_summary_chapter_indent(item: BookItem, output_ext: Seq<char>)
    requires
        match item {
            BookItem::Chapter(number, _) => valid_chapter_number(number@),
            _ => false,
        },
    ensures
        match item {
            BookItem::Chapter(number, ch) => {
                let spaces = 4 * (count_char(number@, '.') - 1);
                &&& summary_text(item, output_ext) is Some
                &&& ({
                    let line = summary_text(item, output_ext).unwrap();
                    &&& line.len() >= spaces + 2
                    &&& forall|k: int| 0 <= k < spaces ==> #[trigger] line[k] == ' '
                    &&& line[spaces] == '-'
                    &&& line[spaces + 1] == ' '
                    &&& line.subrange(spaces + 2, line.len() as int) == summary_link(
                        ch.name@,
                        path_with_extension(ch.path@, output_ext),
                    )
                })
            },
            _ => true,
        },
{
    reveal_strlit("- ");
    match item {
        BookItem::Chapter(number, ch) => {
            let d = depth_of(number@) as nat;
            lemma_indent_spaces(d);
            let line = summary_text(item, output_ext).unwrap();
            let link = summary_link(ch.name@, path_with_extension(ch.path@, output_ext));
            assert(line == indent(d) + "- "@ + link);
            assert forall|k: int| 0 <= k < 4 * d implies #[trigger] line[k] == ' ' by {
                assert(line[k] == indent(d)[k]);
            }
            assert(line.subrange(4 * d + 2 as int, line.len() as int) =~= link);
        },
        _ => {},
    }
}

/// Reading one more numbered chapter adds a line to the end of the table of
/// contents that the items before it gave, and that line starts with four
/// spaces for each dot of the chapter's number after the first, then `- `.
pub proof fn lemma_html_summary_chapter_line(
    items: Seq<BookItem>,
    item: BookItem,
    output_ext: Seq<char>,
    final_ext: Seq<char>,
)
    requires
        html_plan(items, output_ext, final_ext) is Some,
        match item {
            BookItem::Chapter(number, _) => valid_chapter_number(number@),
            _ => false,
        },
    ensures
        html_plan(items.push(item), output_ext, final_ext) is Some,
        match item {
            BookItem::Chapter(number, _) => {
                let spaces = 4 * (count_char(number@, '.') - 1);
                let before = html_plan(items, output_ext, final_ext).unwrap().0;
                let after = html_plan(items.push(item), output_ext, final_ext).unwrap().0;
                &&& after.len() >= before.len() + spaces + 2
                &&& after.take(before.len() as int) == before
                &&& forall|k: int| 0 <= k < spaces ==> #[trigger] after[before.len() + k] == ' '
                &&& after[before.len() + spaces] == '-'
                &&& after[before.len() + spaces + 1] == ' '
            },
            _ => true,
        },
{
    let longer = items.push(item);
    assert(longer.drop_last() == items);
    assert(longer.last() == item);
    lemma_summary_chapter_indent(item, output_ext);
    let before = html_plan(items, output_ext, final_ext).unwrap().0;
    let line = summary_text(item, output_ext).unwrap();
    let after = html_plan(longer, output_ext, final_ext).unwrap().0;
    assert(after == before + line);
    assert(after.take(before.len() as int) =~= before);
    match item {
        BookItem::Chapter(number, _) => {
            let spaces = 4 * (count_char(number@, '.') - 1);
            assert forall|k: int| 0 <= k < spaces implies #[trigger] after[before.len() + k] == ' ' by {
                assert(after[before.len() + k] == line[k]);
            }
            assert(after[before.len() + spaces] == line[spaces]);
            assert(after[before.len() + spaces + 1] == line[spaces + 1]);
        },
        _ => {},
    }
}

/// The bibliography section of the HTML book, where the amalgamation's
/// metadata has a bibliography: its title (the `biblio-title` metadata, or
/// `Bibliography`), its line of the table of contents, and its name in the
/// amalgamation.
pub open spec fn bibliography_plan(
    has_bibliography: bool,
    biblio_title: Option<Seq<char>>,
    biblio_path: Seq<char>,
    output_ext: Seq<char>,
    final_ext: Seq<char>,
) -> Option<(Seq<char>, Seq<char>, Seq<char>)> {
    if !has_bibliography {
        None
    } else {
        let title = match biblio_title {
            Some(t) => t,
            None => "Bibliography"@,
        };
        Some(
            (
                title,
                summary_link(title, path_with_extension(biblio_path, output_ext)),
                path_with_extension(biblio_path, final_ext),
            ),
        )
    }
}

/// Plans the bibliography section of the HTML book, where the amalgamation
/// has a bibliography: its title (`biblio_title`, or `Bibliography` where
/// none is given), the line that links it from the table of contents to
/// `biblio_path` with the extension `output_ext`, and its name in the
/// amalgamation, `biblio_path` with the extension `final_ext`.
pub fn bibliography_entry(
    has_bibliography: bool,
    biblio_title: Option<String>,
    biblio_path: &str,
    output_ext: &str,
    final_ext: &str,
) -> (r: Option<(String, String, String)>)
    requires
        no_separator(output_ext@),
        no_separator(final_ext@),
    ensures
        r.deep_view() == bibliography_plan(
            has_bibliography,
            biblio_title.deep_view(),
            biblio_path@,
            output_ext@,
            final_ext@,
        ),
{
    if !has_bibliography {
        return None;
    }
    let title = match biblio_title {
        Some(t) => t,
        None => String::from_str("Bibliography"),
    };
    let mut line = String::new();
    let target = with_extension(biblio_path, output_ext);
    push_summary_link(&mut line, title.as_str(), target.as_str());
    let docname = with_extension(biblio_path, final_ext);
    Some((title, line, docname))
}


/// The items of `items` that are not spacers, in order.
pub open spec fn non_spacers(items: Seq<BookItem>) -> Seq<BookItem>
    decreases items.len(),
{
    if items.len() == 0 {
        Seq::empty()
    } else if items.last() is Spacer {
        non_spacers(items.drop_last())
    } else {
        non_spacers(items.drop_last()).push(items.last())
    }
}

/// Whether two items read the same for the LaTeX plan: both chapters with the
/// same number, title and path, or both affixes with the same title and path
/// (what is nested under them aside).
pub open spec fn same_entry(a: BookItem, b: BookItem) -> bool {
    match (a, b) {
        (BookItem::Chapter(n1, c1), BookItem::Chapter(n2, c2)) => n1@ == n2@ && c1.name@ == c2.name@
            && c1.path@ == c2.path@,
        (BookItem::Affix(c1), BookItem::Affix(c2)) => c1.name@ == c2.name@ && c1.path@ == c2.path@,
        (BookItem::Spacer, BookItem::Spacer) => true,
        _ => false,
    }
}

proof fn lemma_latex_plan_skips_spacers(items: Seq<BookItem>, front: Seq<Seq<char>>)
    ensures
        latex_plan(items, front) == latex_plan(non_spacers(items), front),
    decreases items.len(),
{
    if items.len() > 0 {
        let prev = items.drop_last();
        lemma_latex_plan_skips_spacers(prev, front);
        if items.last() is Spacer {
            match latex_plan(prev, front) {
                Some((part, steps)) => {
                    assert(steps + Seq::<StepView>::empty() =~= steps);
                },
                None => {},
            }
        } else {
            let ns = non_spacers(prev).push(items.last());
            assert(ns.drop_last() =~= non_spacers(prev));
            assert(ns.last() == items.last());
        }
    }
}

proof fn lemma_latex_plan_same_entries(a: Seq<BookItem>, b: Seq<BookItem>, front: Seq<Seq<char>>)
    requires
        a.len() == b.len(),
        forall|k: int| 0 <= k < a.len() ==> same_entry(#[trigger] a[k], b[k]),
    ensures
        latex_plan(a, front) == latex_plan(b, front),
    decreases a.len(),
{
    if a.len() > 0 {
        let pa = a.drop_last();
        let pb = b.drop_last();
        assert forall|k: int| 0 <= k < pa.len() implies same_entry(#[trigger] pa[k], pb[k]) by {
            assert(same_entry(a[k], b[k]));
        }
        lemma_latex_plan_same_entries(pa, pb, front);
        assert(same_entry(a[a.len() - 1], b[b.len() - 1]));
        match latex_plan(pa, front) {
            Some((part, _)) => {
                assert(latex_item_steps(part, a.last(), front) == latex_item_steps(
                    part,
                    b.last(),
                    front,
                ));
            },
            None => {},
        }
    }
}

/// Spacers change nothing in the LaTeX book: two books whose items, read in
/// order with the spacers left out, are the same chapters and affixes (same
/// numbers, titles and paths) get the same plan.
pub proof fn lemma_latex_plan_ignores_spacers(
    book1: Seq<BookItem>,
    book2: Seq<BookItem>,
    front_in_body: Seq<Seq<char>>,
)
    requires
        non_spacers(flatten_items(book1)).len() == non_spacers(flatten_items(book2)).len(),
        forall|k: int|
            0 <= k < non_spacers(flatten_items(book1)).len() ==> same_entry(
                #[trigger] non_spacers(flatten_items(book1))[k],
                non_spacers(flatten_items(book2))[k],
            ),
    ensures
        latex_plan_steps(book1, front_in_body) == latex_plan_steps(book2, front_in_body),
{
    lemma_latex_plan_skips_spacers(flatten_items(book1), front_in_body);
    lemma_latex_plan_skips_spacers(flatten_items(book2), front_in_body);
    lemma_latex_plan_same_entries(
        non_spacers(flatten_items(book1)),
        non_spacers(flatten_items(book2)),
        front_in_body,
    );
}

} // verus!
