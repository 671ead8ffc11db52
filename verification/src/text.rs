use vstd::prelude::*;

verus! {

/// `String::push` appends one character at the end of the string.
pub assume_specification[ String::push ](s: &mut String, ch: char)
    ensures
        final(s)@ == old(s)@.push(ch),
;

/// The characters of `s`, in order.
pub fn chars_of(s: &str) -> (r: Vec<char>)
    ensures
        r@ == s@,
{
    let mut v: Vec<char> = Vec::new();
    for c in it: s.chars()
        invariant
            v@ == it.seq().take(it.index()),
    {
        v.push(c);
    }
    v
}

/// Number of occurrences of `c` in `s`.
pub open spec fn count_char(s: Seq<char>, c: char) -> nat
    decreases s.len(),
{
    if s.len() == 0 {
        0
    } else {
        count_char(s.drop_last(), c) + if s.last() == c { 1nat } else { 0nat }
    }
}

/// Counts the occurrences of `c` in `s`.
pub fn count_occurrences(s: &str, c: char) -> (n: usize)
    ensures
        n == count_char(s@, c),
        n <= s@.len(),
{
    let chars = chars_of(s);
    let mut n: usize = 0;
    let mut i: usize = 0;
    while i < chars.len()
        invariant
            chars@ == s@,
            i <= chars.len(),
            n == count_char(s@.take(i as int), c),
            n <= i,
        decreases chars.len() - i,
    {
        assert(s@.take(i + 1).drop_last() == s@.take(i as int));
        if chars[i] == c {
            n = n + 1;
        }
        i = i + 1;
    }
    assert(s@.take(chars.len() as int) == s@);
    n
}

/// Whether `s` begins with `p`.
pub open spec fn has_prefix(s: Seq<char>, p: Seq<char>) -> bool {
    p.len() <= s.len() && s.subrange(0, p.len() as int) == p
}

/// Whether `s` ends with `p`.
pub open spec fn has_suffix(s: Seq<char>, p: Seq<char>) -> bool {
    p.len() <= s.len() && s.subrange(s.len() - p.len(), s.len() as int) == p
}

/// Tests whether the characters `s` begin with the characters `p`.
pub fn chars_have_prefix(s: &Vec<char>, p: &Vec<char>) -> (b: bool)
    ensures
        b == has_prefix(s@, p@),
{
    if p.len() > s.len() {
        return false;
    }
    let mut i: usize = 0;
    while i < p.len()
        invariant
            p.len() <= s.len(),
            i <= p.len(),
            forall|j: int| 0 <= j < i ==> s@[j] == p@[j],
        decreases p.len() - i,
    {
        if s[i] != p[i] {
            assert(s@.subrange(0, p.len() as int)[i as int] != p@[i as int]);
            return false;
        }
        i = i + 1;
    }
    assert(s@.subrange(0, p.len() as int) =~= p@);
    true
}

/// Tests whether the characters `s` end with the characters `p`.
pub fn chars_have_suffix(s: &Vec<char>, p: &Vec<char>) -> (b: bool)
    ensures
        b == has_suffix(s@, p@),
{
    if p.len() > s.len() {
        return false;
    }
    let off = s.len() - p.len();
    let mut i: usize = 0;
    while i < p.len()
        invariant
            p.len() <= s.len(),
            off == s.len() - p.len(),
            i <= p.len(),
            forall|j: int| 0 <= j < i ==> s@[off + j] == p@[j],
        decreases p.len() - i,
    {
        if s[off + i] != p[i] {
            assert(s@.subrange(off as int, s.len() as int)[i as int] != p@[i as int]);
            return false;
        }
        i = i + 1;
    }
    assert(s@.subrange(off as int, s.len() as int) =~= p@);
    true
}

/// The string made of `chars[from..to]`.
pub fn string_from_range(chars: &Vec<char>, from: usize, to: usize) -> (r: String)
    requires
        from <= to <= chars.len(),
    ensures
        r@ == chars@.subrange(from as int, to as int),
{
    let mut r = String::new();
    let mut i: usize = from;
    while i < to
        invariant
            from <= i <= to <= chars.len(),
            r@ == chars@.subrange(from as int, i as int),
        decreases to - i,
    {
        r.push(chars[i]);
        assert(chars@.subrange(from as int, i + 1) == chars@.subrange(from as int, i as int).push(
            chars@[i as int],
        ));
        i = i + 1;
    }
    r
}


/// `line` without one carriage return at its end, where it has one.
pub open spec fn without_cr(line: Seq<char>) -> Seq<char> {
    if line.len() > 0 && line.last() == '\r' {
        line.drop_last()
    } else {
        line
    }
}

/// Reading `s` from the start: the lines ended so far (each cut at a newline,
/// with the newline and one carriage return before it left out), and the
/// characters read since the last newline.
pub open spec fn scan_lines(s: Seq<char>) -> (Seq<Seq<char>>, Seq<char>)
    decreases s.len(),
{
    if s.len() == 0 {
        (Seq::empty(), Seq::empty())
    } else {
        let (lines, current) = scan_lines(s.drop_last());
        if s.last() == '\n' {
            (lines.push(without_cr(current)), Seq::empty())
        } else {
            (lines, current.push(s.last()))
        }
    }
}

/// The lines of the text `s` as `str::lines` splits it: lines end at `\n` or
/// `\r\n`, which are not part of them, and the last line needs no line
/// ending (an empty text has no lines).
pub open spec fn lines_of(s: Seq<char>) -> Seq<Seq<char>> {
    let (lines, current) = scan_lines(s);
    if current.len() > 0 {
        lines.push(current)
    } else {
        lines
    }
}

/// Cuts the text `s` into lines as `str::lines` does: at each `\n`, with a
/// `\r` just before it taken off as well; a last line without a line ending
/// counts, an empty last line does not.
pub fn text_lines(s: &str) -> (r: Vec<String>)
    ensures
        r.deep_view() == lines_of(s@),
{
    let chars = chars_of(s);
    let mut lines: Vec<String> = Vec::new();
    let mut current: Vec<char> = Vec::new();
    let mut i: usize = 0;
    while i < chars.len()
        invariant
            chars@ == s@,
            i <= chars.len(),
            scan_lines(s@.take(i as int)) == (lines.deep_view(), current@),
        decreases chars.len() - i,
    {
        assert(s@.take(i + 1).drop_last() == s@.take(i as int));
        let c = chars[i];
        if c == '\n' {
            let n = current.len();
            let end = if n > 0 && current[n - 1] == '\r' {
                n - 1
            } else {
                n
            };
            let line = string_from_range(&current, 0, end);
            assert(line@ == without_cr(current@)) by {
                if n > 0 && current@[n - 1] == '\r' {
                    assert(current@.subrange(0, n - 1) =~= current@.drop_last());
                } else {
                    assert(current@.subrange(0, n as int) =~= current@);
                }
            }
            let ghost before = lines.deep_view();
            lines.push(line);
            assert(lines.deep_view() =~= before.push(line@));
            current = Vec::new();
        } else {
            current.push(c);
        }
        i = i + 1;
    }
    assert(s@.take(chars.len() as int) == s@);
    if current.len() > 0 {
        let ghost before = lines.deep_view();
        let line = string_from_range(&current, 0, current.len());
        assert(current@.subrange(0, current.len() as int) =~= current@);
        lines.push(line);
        assert(lines.deep_view() =~= before.push(current@));
    }
    lines
}


/// Reading on past a newline: characters without a newline only add to the
/// line being read.
pub proof fn lemma_scan_lines_append(x: Seq<char>, y: Seq<char>)
    requires
        !y.contains('\n'),
    ensures
        scan_lines(x + y) == (scan_lines(x).0, scan_lines(x).1 + y),
    decreases y.len(),
{
    if y.len() == 0 {
        assert(x + y =~= x);
        assert(scan_lines(x).1 + y =~= scan_lines(x).1);
    } else {
        let y0 = y.drop_last();
        assert(!y0.contains('\n')) by {
            assert forall|j: int| 0 <= j < y0.len() implies y0[j] != '\n' by {
                assert(y0[j] == y[j]);
            }
        }
        lemma_scan_lines_append(x, y0);
        assert((x + y).drop_last() =~= x + y0);
        assert((x + y).last() == y.last());
        assert(y.last() != '\n') by {
            assert(y[y.len() - 1] == y.last());
        }
        assert(scan_lines(x).1 + y0 + seq![y.last()] =~= scan_lines(x).1 + y);
    }
}


/// Counting in two pieces adds the counts.
pub proof fn lemma_count_char_concat(a: Seq<char>, b: Seq<char>, c: char)
    ensures
        count_char(a + b, c) == count_char(a, c) + count_char(b, c),
    decreases b.len(),
{
    if b.len() == 0 {
        assert(a + b =~= a);
    } else {
        lemma_count_char_concat(a, b.drop_last(), c);
        assert((a + b).drop_last() =~= a + b.drop_last());
        assert((a + b).last() == b.last());
    }
}

/// A character occurs at most as often as the text is long, and occurs at
/// A one-character string holds `c` once if it is `c`, and never otherwise.
pub proof fn lemma_count_single(x: char, c: char)
    ensures
        count_char(seq![x], c) == (if x == c { 1nat } else { 0nat }),
{
    let one = seq![x];
    assert(one.drop_last() =~= Seq::<char>::empty());
    assert(one.last() == x);
    assert(count_char(one.drop_last(), c) == 0);
}

/// least once exactly when the text contains it.
pub proof fn lemma_count_char_bounds(s: Seq<char>, c: char)
    ensures
        count_char(s, c) <= s.len(),
        count_char(s, c) > 0 <==> s.contains(c),
    decreases s.len(),
{
    if s.len() > 0 {
        let p = s.drop_last();
        lemma_count_char_bounds(p, c);
        if p.contains(c) {
            let j = choose|j: int| 0 <= j < p.len() && p[j] == c;
            assert(s[j] == c);
        }
        if s.contains(c) {
            let j = choose|j: int| 0 <= j < s.len() && s[j] == c;
            if j < s.len() - 1 {
                assert(p[j] == c);
            }
        }
        if s.last() == c {
            assert(s[s.len() - 1] == c);
        }
    }
}

} // verus!
